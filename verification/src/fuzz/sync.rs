//! What synchronising two replicas does to their documents.
use vstd::prelude::*;
use crate::common::{ContainerIdView, LoroValue, PeerID};
use crate::loro::{LoroDoc, appended, log_wf};
use crate::oplog::{OpContentView, OpView, same_key};
use crate::version::{VersionVector, log_vv, ops_above};
use crate::oplog::lemma_sorted_logs_with_same_ops_are_equal;
use crate::state::doc_value;

verus! {

/// The log of `new` is that of `old` with the ops `ops` merged in: it keeps
/// every op of `old`, holds nothing but ops of `old` and of `ops`, and holds
/// an op at the place of every op of `ops`; the peer is kept.
pub open spec fn merged_log(old: LoroDoc, new: LoroDoc, ops: Seq<OpView>) -> bool {
    &&& log_wf(new.log_view())
    &&& forall|x: OpView| old.log_view().contains(x) ==> new.log_view().contains(x)
    &&& forall|x: OpView| new.log_view().contains(x) ==> old.log_view().contains(x) || ops.contains(x)
    &&& forall|y: OpView|
        #![trigger ops.contains(y)]
        ops.contains(y) ==> exists|x: OpView| new.log_view().contains(x) && same_key(x, y)
    &&& new.peer_view() == old.peer_view()
}

/// `new` is `old` with the ops `ops` merged in, showing the same version.
pub open spec fn merged(old: LoroDoc, new: LoroDoc, ops: Seq<OpView>) -> bool {
    &&& merged_log(old, new, ops)
    &&& new.detached_view() == old.detached_view()
}

/// What `from` sends `to`: all its ops for a snapshot, otherwise the ops
/// past `to`'s version.
pub open spec fn sent(to: LoroDoc, from: LoroDoc, snapshot: bool) -> Seq<OpView> {
    if snapshot {
        from.log_view()
    } else {
        ops_above(from.log_view(), to.log_view())
    }
}

/// `new` keeps every op of `old`, its peer and the version it shows.
pub open spec fn doc_grows(old: LoroDoc, new: LoroDoc) -> bool {
    &&& forall|x: OpView| old.log_view().contains(x) ==> new.log_view().contains(x)
    &&& new.peer_view() == old.peer_view()
    &&& new.detached_view() == old.detached_view()
}

/// `new` is `old` with one local op appended, or `old` unchanged.
pub open spec fn edited(old: LoroDoc, new: LoroDoc, ok: bool) -> bool {
    &&& new.peer_view() == old.peer_view()
    &&& new.detached_view() == old.detached_view()
    &&& (ok ==> new.log_view() == old.log_view() || (new.log_view().len() == old.log_view().len() + 1
        && new.log_view().drop_last() == old.log_view() && new.log_view().last().peer == old.peer_view()))
    &&& (!ok ==> new.log_view() == old.log_view())
}

/// The log of `new` is that of `old` with the local op (`c`, `content`)
/// appended when `ok`, and that of `old` otherwise; an edit that is
/// `refused` does not go through. The peer is kept.
pub open spec fn edit_outcome(
    old: LoroDoc,
    new: LoroDoc,
    ok: bool,
    c: ContainerIdView,
    content: OpContentView,
    refused: bool,
) -> bool {
    &&& new.peer_view() == old.peer_view()
    &&& (ok ==> appended(old, new, c, content))
    &&& (!ok ==> new.log_view() == old.log_view())
    &&& (refused ==> !ok)
}

/// A document whose log is an edit outcome keeps its ops.
pub proof fn lemma_edit_outcome_grows(
    old: LoroDoc,
    new: LoroDoc,
    ok: bool,
    c: ContainerIdView,
    content: OpContentView,
    refused: bool,
)
    requires
        edit_outcome(old, new, ok, c, content, refused),
    ensures
        log_grows(old, new),
{
    assert forall|x: OpView| old.log_view().contains(x) implies new.log_view().contains(x) by {
        if ok {
            let k = choose|k: int| 0 <= k < old.log_view().len() && old.log_view()[k] == x;
            assert(new.log_view().drop_last()[k] == x);
            assert(new.log_view()[k] == x);
        }
    }
}

/// `new` keeps every op of `old` and its peer.
pub open spec fn log_grows(old: LoroDoc, new: LoroDoc) -> bool {
    &&& forall|x: OpView| old.log_view().contains(x) ==> new.log_view().contains(x)
    &&& new.peer_view() == old.peer_view()
}

/// An edited document keeps its ops.
pub proof fn lemma_edited_grows(old: LoroDoc, new: LoroDoc, ok: bool)
    requires
        edited(old, new, ok),
    ensures
        doc_grows(old, new),
{
    assert forall|x: OpView| old.log_view().contains(x) implies new.log_view().contains(x) by {
        if new.log_view() != old.log_view() {
            let k = choose|k: int| 0 <= k < old.log_view().len() && old.log_view()[k] == x;
            assert(new.log_view().drop_last()[k] == x);
            assert(new.log_view()[k] == x);
        }
    }
}
/// The ops one log sends past another's version are ops of the first.
pub proof fn lemma_ops_above_within(log: Seq<OpView>, other: Seq<OpView>)
    ensures
        forall|x: OpView| ops_above(log, other).contains(x) ==> log.contains(x),
    decreases log.len(),
{
    if log.len() > 0 {
        let t = log.drop_last();
        lemma_ops_above_within(t, other);
        let pa = ops_above(t, other);
        assert(t =~= log.subrange(0, log.len() - 1));
        assert forall|x: OpView| ops_above(log, other).contains(x) implies log.contains(x) by {
            let s = ops_above(log, other);
            assert(s == pa || s == pa.push(log.last()));
            let k = choose|k: int| 0 <= k < s.len() && s[k] == x;
            if k < pa.len() {
                assert(pa[k] == x);
                assert(pa.contains(x));
                assert(t.contains(x));
                let j = choose|j: int| 0 <= j < t.len() && t[j] == x;
                assert(log[j] == x);
            } else {
                assert(x == log.last());
                assert(log[log.len() - 1] == x);
            }
        }
    }
}

/// Merging into a replica what a replica with the same log sends leaves
/// its log as it was.
pub proof fn lemma_merge_same(old: LoroDoc, new: LoroDoc, from: LoroDoc, snapshot: bool)
    requires
        merged(old, new, sent(old, from, snapshot)),
        from.log_view() == old.log_view(),
        log_wf(old.log_view()),
    ensures
        new.log_view() == old.log_view(),
{
    lemma_ops_above_within(from.log_view(), old.log_view());
    lemma_sorted_logs_with_same_ops_are_equal(new.log_view(), old.log_view());
}
/// A history entry recorded on a document holding `log` at its latest
/// version: the log's version and the value it shows.
pub open spec fn entry_on(e: (VersionVector, LoroValue), log: Seq<OpView>) -> bool {
    &&& forall|p: PeerID| #[trigger] e.0.spec_get(p) as int == log_vv(log, p)
    &&& e.1@ == doc_value(log)
}

/// The entries of history `h` from `from` on were recorded on `log`.
pub open spec fn recorded_on(h: Seq<(VersionVector, LoroValue)>, from: int, log: Seq<OpView>) -> bool {
    forall|k: int| from <= k < h.len() ==> #[trigger] entry_on(h[k], log)
}
} // verus!
