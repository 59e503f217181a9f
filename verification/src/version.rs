//! Version vectors: for each peer, the counter just past the last op of that
//! peer that a version includes.
use vstd::prelude::*;
use crate::common::{Counter, PeerID};
use crate::oplog::{Op, OpView, ops_view};

verus! {

/// The counter recorded for `peer` in a list of entries (0 when absent).
pub open spec fn vv_lookup(s: Seq<(PeerID, Counter)>, peer: PeerID) -> Counter
    decreases s.len(),
{
    if s.len() == 0 {
        0
    } else if s[0].0 == peer {
        s[0].1
    } else {
        vv_lookup(s.drop_first(), peer)
    }
}

/// Whether a list of entries has an entry for `peer`.
pub open spec fn vv_has(s: Seq<(PeerID, Counter)>, peer: PeerID) -> bool {
    exists|k: int| 0 <= k < s.len() && #[trigger] s[k].0 == peer
}

/// A version vector, as entries with distinct peers.
#[derive(Debug)]
pub struct VersionVector {
    pub entries: Vec<(PeerID, Counter)>,
}

impl VersionVector {
    pub open spec fn spec_get(&self, peer: PeerID) -> Counter {
        vv_lookup(self.entries@, peer)
    }

    pub fn new() -> (r: VersionVector)
        ensures
            forall|p: PeerID| r.spec_get(p) == 0,
            r.entries@.len() == 0,
    {
        VersionVector { entries: Vec::new() }
    }

    /// The counter end recorded for `peer` (0 when absent).
    pub fn get(&self, peer: PeerID) -> (r: Counter)
        ensures
            r == self.spec_get(peer),
    {
        let mut i: usize = 0;
        assert(self.entries@.skip(0) =~= self.entries@);
        while i < self.entries.len()
            invariant
                i <= self.entries.len(),
                vv_lookup(self.entries@.skip(i as int), peer) == self.spec_get(peer),
            decreases self.entries.len() - i,
        {
            if self.entries[i].0 == peer {
                assert(self.entries@.skip(i as int)[0] == self.entries@[i as int]);
                return self.entries[i].1;
            }
            assert(self.entries@.skip(i as int).drop_first() =~= self.entries@.skip(i + 1));
            i += 1;
        }
        0
    }

    /// Records `counter` for `peer`, replacing any earlier entry.
    pub fn set(&mut self, peer: PeerID, counter: Counter)
        ensures
            final(self).spec_get(peer) == counter,
            forall|p: PeerID| p != peer ==> final(self).spec_get(p) == old(self).spec_get(p),
            forall|p: PeerID| vv_has(final(self).entries@, p) == (p == peer || vv_has(old(self).entries@, p)),
    {
        let ghost old_e = self.entries@;
        let mut i: usize = 0;
        while i < self.entries.len()
            invariant
                i <= self.entries.len(),
                self.entries@ == old_e,
                old(self).entries@ == old_e,
                forall|k: int| 0 <= k < i ==> old_e[k].0 != peer,
            decreases self.entries.len() - i,
        {
            if self.entries[i].0 == peer {
                self.entries.set(i, (peer, counter));
                proof {
                    lemma_vv_lookup_update(old_e, i as int, peer, counter);
                    assert(self.entries@ == old_e.update(i as int, (peer, counter)));
                    assert forall|p: PeerID| p != peer implies self.spec_get(p) == vv_lookup(old_e, p) by {
                        assert(vv_lookup(old_e.update(i as int, (peer, counter)), p) == vv_lookup(old_e, p));
                    }
                    assert forall|p: PeerID| vv_has(self.entries@, p) == (p == peer || vv_has(old(self).entries@, p)) by {
                        if vv_has(old_e, p) {
                            let k = choose|k: int| 0 <= k < old_e.len() && #[trigger] old_e[k].0 == p;
                            assert(self.entries@[k].0 == p);
                        }
                        if vv_has(self.entries@, p) {
                            let k = choose|k: int| 0 <= k < self.entries@.len() && #[trigger] self.entries@[k].0 == p;
                            if k != i {
                                assert(old_e[k].0 == p);
                            }
                        }
                        if p == peer {
                            assert(self.entries@[i as int].0 == p);
                        }
                    }
                }
                return;
            }
            i += 1;
        }
        self.entries.push((peer, counter));
        proof {
            lemma_vv_lookup_push(old_e, peer, counter);
            assert forall|p: PeerID| vv_has(self.entries@, p) == (p == peer || vv_has(old(self).entries@, p)) by {
                if vv_has(old_e, p) {
                    let k = choose|k: int| 0 <= k < old_e.len() && #[trigger] old_e[k].0 == p;
                    assert(self.entries@[k].0 == p);
                }
                if vv_has(self.entries@, p) {
                    let k = choose|k: int| 0 <= k < self.entries@.len() && #[trigger] self.entries@[k].0 == p;
                    if k < old_e.len() {
                        assert(old_e[k].0 == p);
                    }
                }
                if p == peer {
                    assert(self.entries@[old_e.len() as int].0 == p);
                }
            }
        }
    }

    pub fn duplicate(&self) -> (r: VersionVector)
        ensures
            r.entries@ == self.entries@,
    {
        let mut e: Vec<(PeerID, Counter)> = Vec::new();
        let mut i: usize = 0;
        while i < self.entries.len()
            invariant
                i <= self.entries.len(),
                e@ == self.entries@.take(i as int),
            decreases self.entries.len() - i,
        {
            e.push(self.entries[i]);
            i += 1;
            assert(e@ =~= self.entries@.take(i as int));
        }
        assert(self.entries@.take(self.entries.len() as int) =~= self.entries@);
        VersionVector { entries: e }
    }
}

pub proof fn lemma_vv_lookup_update(s: Seq<(PeerID, Counter)>, i: int, peer: PeerID, counter: Counter)
    requires
        0 <= i < s.len(),
        s[i].0 == peer,
        forall|k: int| 0 <= k < i ==> s[k].0 != peer,
    ensures
        vv_lookup(s.update(i, (peer, counter)), peer) == counter,
        forall|p: PeerID| p != peer ==> vv_lookup(s.update(i, (peer, counter)), p) == vv_lookup(s, p),
    decreases i,
{
    let t = s.update(i, (peer, counter));
    if i > 0 {
        assert(t.drop_first() =~= s.drop_first().update(i - 1, (peer, counter)));
        lemma_vv_lookup_update(s.drop_first(), i - 1, peer, counter);
        assert(t[0] == s[0]);
        assert forall|p: PeerID| p != peer implies vv_lookup(t, p) == vv_lookup(s, p) by {
            if s[0].0 != p {
                assert(vv_lookup(t, p) == vv_lookup(t.drop_first(), p));
                assert(vv_lookup(s, p) == vv_lookup(s.drop_first(), p));
            }
        }
    } else {
        assert forall|p: PeerID| p != peer implies vv_lookup(t, p) == vv_lookup(s, p) by {
            assert(t.drop_first() =~= s.drop_first());
        }
    }
}

pub proof fn lemma_vv_lookup_push(s: Seq<(PeerID, Counter)>, peer: PeerID, counter: Counter)
    requires
        forall|k: int| 0 <= k < s.len() ==> s[k].0 != peer,
    ensures
        vv_lookup(s.push((peer, counter)), peer) == counter,
        forall|p: PeerID| p != peer ==> vv_lookup(s.push((peer, counter)), p) == vv_lookup(s, p),
    decreases s.len(),
{
    let t = s.push((peer, counter));
    if s.len() > 0 {
        assert(t.drop_first() =~= s.drop_first().push((peer, counter)));
        lemma_vv_lookup_push(s.drop_first(), peer, counter);
        assert(t[0] == s[0]);
        assert forall|p: PeerID| p != peer implies vv_lookup(t, p) == vv_lookup(s, p) by {
            if s[0].0 != p {
                assert(vv_lookup(t, p) == vv_lookup(t.drop_first(), p));
                assert(vv_lookup(s, p) == vv_lookup(s.drop_first(), p));
            }
        }
    } else {
        assert(t.drop_first() =~= Seq::<(PeerID, Counter)>::empty());
        assert forall|p: PeerID| p != peer implies vv_lookup(t, p) == vv_lookup(s, p) by {
            assert(vv_lookup(t, p) == vv_lookup(t.drop_first(), p));
        }
    }
}

/// The counter end of `peer` in a log: one past its largest counter there.
pub open spec fn log_vv(log: Seq<OpView>, peer: PeerID) -> int
    decreases log.len(),
{
    if log.len() == 0 {
        0
    } else {
        let p = log_vv(log.drop_last(), peer);
        let op = log.last();
        if op.peer == peer && op.counter + 1 > p {
            op.counter + 1
        } else {
            p
        }
    }
}

/// The ops of `log` that a version includes, in log order.
pub open spec fn ops_within(log: Seq<OpView>, vv: Seq<(PeerID, Counter)>) -> Seq<OpView>
    decreases log.len(),
{
    if log.len() == 0 {
        Seq::empty()
    } else {
        let p = ops_within(log.drop_last(), vv);
        if log.last().counter < vv_lookup(vv, log.last().peer) {
            p.push(log.last())
        } else {
            p
        }
    }
}

/// The ops of `log` that a version does not include, in log order.
pub open spec fn ops_beyond(log: Seq<OpView>, vv: Seq<(PeerID, Counter)>) -> Seq<OpView>
    decreases log.len(),
{
    if log.len() == 0 {
        Seq::empty()
    } else {
        let p = ops_beyond(log.drop_last(), vv);
        if log.last().counter < vv_lookup(vv, log.last().peer) {
            p
        } else {
            p.push(log.last())
        }
    }
}

/// The version vector of a log: every peer's counter end.
pub fn compute_log_vv(log: &Vec<Op>) -> (r: VersionVector)
    requires
        forall|k: int| 0 <= k < log@.len() ==> 0 <= #[trigger] log@[k].counter < i32::MAX,
    ensures
        forall|p: PeerID| r.spec_get(p) as int == log_vv(ops_view(log@), p),
{
    let ghost lv = ops_view(log@);
    let mut r = VersionVector::new();
    let mut i: usize = 0;
    assert(lv.take(0) =~= Seq::<OpView>::empty());
    while i < log.len()
        invariant
            i <= log.len(),
            lv == ops_view(log@),
            forall|k: int| 0 <= k < log@.len() ==> 0 <= #[trigger] log@[k].counter < i32::MAX,
            forall|p: PeerID| r.spec_get(p) as int == log_vv(lv.take(i as int), p),
        decreases log.len() - i,
    {
        assert(lv.take(i + 1).drop_last() =~= lv.take(i as int));
        assert(lv.take(i + 1).last() == log@[i as int]@);
        let peer = log[i].peer;
        let c = log[i].counter;
        let cur = r.get(peer);
        if c + 1 > cur {
            r.set(peer, c + 1);
        }
        i += 1;
    }
    assert(lv.take(log.len() as int) =~= lv);
    r
}

/// The ops of the log that `vv` includes.
pub fn filter_within(log: &Vec<Op>, vv: &VersionVector) -> (r: Vec<Op>)
    ensures
        ops_view(r@) == ops_within(ops_view(log@), vv.entries@),
{
    let ghost lv = ops_view(log@);
    let mut r: Vec<Op> = Vec::new();
    let mut i: usize = 0;
    assert(lv.take(0) =~= Seq::<OpView>::empty());
    assert(ops_view(r@) =~= Seq::<OpView>::empty());
    while i < log.len()
        invariant
            i <= log.len(),
            lv == ops_view(log@),
            ops_view(r@) == ops_within(lv.take(i as int), vv.entries@),
        decreases log.len() - i,
    {
        assert(lv.take(i + 1).drop_last() =~= lv.take(i as int));
        assert(lv.take(i + 1).last() == log@[i as int]@);
        let ghost prev = ops_view(r@);
        if log[i].counter < vv.get(log[i].peer) {
            r.push(log[i].duplicate());
            assert(ops_view(r@) =~= prev.push(log@[i as int]@));
        }
        i += 1;
    }
    assert(lv.take(log.len() as int) =~= lv);
    r
}

/// The ops of the log that `vv` does not include.
pub fn filter_beyond(log: &Vec<Op>, vv: &VersionVector) -> (r: Vec<Op>)
    ensures
        ops_view(r@) == ops_beyond(ops_view(log@), vv.entries@),
{
    let ghost lv = ops_view(log@);
    let mut r: Vec<Op> = Vec::new();
    let mut i: usize = 0;
    assert(lv.take(0) =~= Seq::<OpView>::empty());
    assert(ops_view(r@) =~= Seq::<OpView>::empty());
    while i < log.len()
        invariant
            i <= log.len(),
            lv == ops_view(log@),
            ops_view(r@) == ops_beyond(lv.take(i as int), vv.entries@),
        decreases log.len() - i,
    {
        assert(lv.take(i + 1).drop_last() =~= lv.take(i as int));
        assert(lv.take(i + 1).last() == log@[i as int]@);
        let ghost prev = ops_view(r@);
        if !(log[i].counter < vv.get(log[i].peer)) {
            r.push(log[i].duplicate());
            assert(ops_view(r@) =~= prev.push(log@[i as int]@));
        }
        i += 1;
    }
    assert(lv.take(log.len() as int) =~= lv);
    r
}

/// The ops a version includes keep the order and bounds of the log.
pub proof fn lemma_ops_within_wf(log: Seq<OpView>, vv: Seq<(PeerID, Counter)>)
    requires
        crate::loro::log_wf(log),
    ensures
        crate::loro::log_wf(ops_within(log, vv)),
        forall|x: OpView| ops_within(log, vv).contains(x) ==> log.contains(x),
    decreases log.len(),
{
    if log.len() > 0 {
        let t = log.drop_last();
        assert forall|i: int, j: int| 0 <= i < j < t.len() implies crate::oplog::op_lt(#[trigger] t[i], #[trigger] t[j]) by {
            assert(crate::oplog::op_lt(log[i], log[j]));
        }
        assert forall|k: int| 0 <= k < t.len() implies crate::loro::op_in_bounds(#[trigger] t[k]) by {
            assert(crate::loro::op_in_bounds(log[k]));
        }
        lemma_ops_within_wf(t, vv);
        let p = ops_within(t, vv);
        assert forall|x: OpView| p.contains(x) implies log.contains(x) by {
            assert(t.contains(x));
            let k = choose|k: int| 0 <= k < t.len() && t[k] == x;
            assert(log[k] == x);
        }
        if log.last().counter < vv_lookup(vv, log.last().peer) {
            let q = p.push(log.last());
            assert(log.contains(log.last()) ) by {
                assert(log[log.len() - 1] == log.last());
            }
            assert forall|x: OpView| q.contains(x) implies log.contains(x) by {
                if x != log.last() {
                    let k = choose|k: int| 0 <= k < q.len() && q[k] == x;
                    assert(p[k] == x);
                    assert(p.contains(x));
                }
            }
            assert forall|i: int, j: int| 0 <= i < j < q.len() implies crate::oplog::op_lt(#[trigger] q[i], #[trigger] q[j]) by {
                if j == p.len() {
                    assert(q[i] == p[i]);
                    assert(q[j] == log.last());
                    assert(p.contains(p[i]));
                    assert(t.contains(p[i]));
                    let k = choose|k: int| 0 <= k < t.len() && t[k] == p[i];
                    assert(t[k] == log[k]);
                    assert(crate::oplog::op_lt(log[k], log[log.len() - 1]));
                } else {
                    assert(q[i] == p[i] && q[j] == p[j]);
                }
            }
            assert forall|k: int| 0 <= k < q.len() implies crate::loro::op_in_bounds(#[trigger] q[k]) by {
                if k < p.len() {
                    assert(q[k] == p[k]);
                } else {
                    assert(crate::loro::op_in_bounds(log[log.len() - 1]));
                }
            }
        }
    }
}


/// The ops a version lacks keep the order and bounds of the log.
pub proof fn lemma_ops_beyond_wf(log: Seq<OpView>, vv: Seq<(PeerID, Counter)>)
    requires
        crate::loro::log_wf(log),
    ensures
        crate::loro::log_wf(ops_beyond(log, vv)),
        forall|x: OpView| ops_beyond(log, vv).contains(x) ==> log.contains(x),
    decreases log.len(),
{
    if log.len() > 0 {
        let t = log.drop_last();
        assert forall|i: int, j: int| 0 <= i < j < t.len() implies crate::oplog::op_lt(#[trigger] t[i], #[trigger] t[j]) by {
            assert(crate::oplog::op_lt(log[i], log[j]));
        }
        assert forall|k: int| 0 <= k < t.len() implies crate::loro::op_in_bounds(#[trigger] t[k]) by {
            assert(crate::loro::op_in_bounds(log[k]));
        }
        lemma_ops_beyond_wf(t, vv);
        let p = ops_beyond(t, vv);
        assert forall|x: OpView| p.contains(x) implies log.contains(x) by {
            assert(t.contains(x));
            let k = choose|k: int| 0 <= k < t.len() && t[k] == x;
            assert(log[k] == x);
        }
        if !(log.last().counter < vv_lookup(vv, log.last().peer)) {
            let q = p.push(log.last());
            assert(log.contains(log.last()) ) by {
                assert(log[log.len() - 1] == log.last());
            }
            assert forall|x: OpView| q.contains(x) implies log.contains(x) by {
                if x != log.last() {
                    let k = choose|k: int| 0 <= k < q.len() && q[k] == x;
                    assert(p[k] == x);
                    assert(p.contains(x));
                }
            }
            assert forall|i: int, j: int| 0 <= i < j < q.len() implies crate::oplog::op_lt(#[trigger] q[i], #[trigger] q[j]) by {
                if j == p.len() {
                    assert(q[i] == p[i]);
                    assert(q[j] == log.last());
                    assert(p.contains(p[i]));
                    assert(t.contains(p[i]));
                    let k = choose|k: int| 0 <= k < t.len() && t[k] == p[i];
                    assert(t[k] == log[k]);
                    assert(crate::oplog::op_lt(log[k], log[log.len() - 1]));
                } else {
                    assert(q[i] == p[i] && q[j] == p[j]);
                }
            }
            assert forall|k: int| 0 <= k < q.len() implies crate::loro::op_in_bounds(#[trigger] q[k]) by {
                if k < p.len() {
                    assert(q[k] == p[k]);
                } else {
                    assert(crate::loro::op_in_bounds(log[log.len() - 1]));
                }
            }
        }
    }
}

/// The ops of `log` that a replica holding `other` lacks: those past the
/// counter end of their peer in `other`.
pub open spec fn ops_above(log: Seq<OpView>, other: Seq<OpView>) -> Seq<OpView>
    decreases log.len(),
{
    if log.len() == 0 {
        Seq::empty()
    } else {
        let p = ops_above(log.drop_last(), other);
        if log.last().counter < log_vv(other, log.last().peer) {
            p
        } else {
            p.push(log.last())
        }
    }
}

/// Filtering by a version that reads as the version of `other` is
/// filtering by `other`'s version.
pub proof fn lemma_ops_beyond_above(log: Seq<OpView>, vv: Seq<(PeerID, Counter)>, other: Seq<OpView>)
    requires
        forall|p: PeerID| vv_lookup(vv, p) as int == log_vv(other, p),
    ensures
        ops_beyond(log, vv) == ops_above(log, other),
    decreases log.len(),
{
    if log.len() > 0 {
        lemma_ops_beyond_above(log.drop_last(), vv, other);
        assert(vv_lookup(vv, log.last().peer) as int == log_vv(other, log.last().peer));
    }
}

} // verus!
