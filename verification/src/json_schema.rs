//! The JSON form of a range of history: the ops grouped into changes, each
//! a run of consecutive ops of one peer.
use vstd::prelude::*;
use crate::common::{ContainerID, ContainerIdView, Counter, ID, PeerID};
use crate::encoding::value_register::{PeerRegister, lemma_register_peer, register_peer};
use crate::group::IdLp;
use crate::oplog::{ElemId, Op, OpContent, OpContentView, OpValue, OpView, TreeParent, ops_view};
use crate::version::{vv_has, VersionVector, compute_log_vv, log_vv, ops_beyond, ops_within, vv_lookup};

verus! {

/// A change: a run of ops of one peer with consecutive counters, starting
/// at `id`.
#[derive(Debug)]
pub struct JsonChange {
    pub id: ID,
    pub ops: Vec<Op>,
}

/// A range of history as changes, in the order of the op log.
#[derive(Debug)]
pub struct JsonSchema {
    pub changes: Vec<JsonChange>,
}

/// `b` directly follows `a` in the history of one peer.
pub open spec fn follows(a: OpView, b: OpView) -> bool {
    b.peer == a.peer && b.counter == a.counter + 1
}

/// The ops of a run of changes, one change after another.
pub open spec fn changes_ops(cs: Seq<JsonChange>) -> Seq<OpView>
    decreases cs.len(),
{
    if cs.len() == 0 {
        Seq::empty()
    } else {
        changes_ops(cs.drop_last()) + ops_view(cs.last().ops@)
    }
}

/// A change is a non-empty run of ops, each following the one before, and
/// its id is that of its first op.
pub open spec fn change_wf(c: JsonChange) -> bool {
    &&& c.ops@.len() > 0
    &&& c.id == (ID { peer: c.ops@[0].peer, counter: c.ops@[0].counter })
    &&& forall|j: int| 0 <= j < c.ops@.len() - 1 ==> follows(c.ops@[j]@, #[trigger] c.ops@[j + 1]@)
}

/// Every change is well formed, and no change could be joined to the one
/// before it.
pub open spec fn changes_wf(cs: Seq<JsonChange>) -> bool {
    &&& forall|i: int| 0 <= i < cs.len() ==> change_wf(#[trigger] cs[i])
    &&& forall|i: int|
        0 <= i < cs.len() - 1 ==> !follows(cs[i].ops@.last()@, (#[trigger] cs[i + 1]).ops@[0]@)
}

proof fn lemma_changes_ops_push_change(cs: Seq<JsonChange>, c: JsonChange)
    ensures
        changes_ops(cs.push(c)) == changes_ops(cs) + ops_view(c.ops@),
{
    assert(cs.push(c).drop_last() =~= cs);
}

/// Groups ops, in order, into changes: an op that follows the last op of
/// the current change joins it; any other op starts a new change.
pub fn group_into_changes(ops: &Vec<Op>) -> (r: Vec<JsonChange>)
    ensures
        changes_ops(r@) == ops_view(ops@),
        changes_wf(r@),
{
    let mut changes: Vec<JsonChange> = Vec::new();
    let mut cur: Vec<Op> = Vec::new();
    let mut i: usize = 0;
    assert(ops_view(ops@).take(0) =~= Seq::<OpView>::empty());
    while i < ops.len()
        invariant
            i <= ops@.len(),
            changes_wf(changes@),
            changes_ops(changes@) + ops_view(cur@) == ops_view(ops@).take(i as int),
            i > 0 ==> cur@.len() > 0,
            cur@.len() > 0 ==> forall|j: int| 0 <= j < cur@.len() - 1 ==> follows(cur@[j]@, #[trigger] cur@[j + 1]@),
            cur@.len() > 0 && changes@.len() > 0 ==> !follows(changes@.last().ops@.last()@, cur@[0]@),
        decreases ops.len() - i,
    {
        let op = ops[i].duplicate();
        let joins = if cur.len() == 0 {
            true
        } else {
            let last = &cur[cur.len() - 1];
            last.peer == op.peer && (last.counter as i64) + 1 == (op.counter as i64)
        };
        let ghost before = ops_view(ops@).take(i as int);
        assert(ops_view(ops@).take(i + 1) =~= before.push(ops@[i as int]@));
        if joins {
            let ghost prev = cur@;
            cur.push(op);
            assert(ops_view(cur@) =~= ops_view(prev).push(op@));
            assert forall|j: int| 0 <= j < cur@.len() - 1 implies follows(cur@[j]@, #[trigger] cur@[j + 1]@) by {
                if j < prev.len() - 1 {
                    assert(cur@[j] == prev[j] && cur@[j + 1] == prev[j + 1]);
                }
            }
        } else {
            let id = ID::new(cur[0].peer, cur[0].counter);
            let mut fresh: Vec<Op> = Vec::new();
            fresh.push(op);
            let done = cur;
            cur = fresh;
            let ghost prev_changes = changes@;
            let change = JsonChange { id, ops: done };
            assert(change_wf(change));
            changes.push(change);
            proof {
                lemma_changes_ops_push_change(prev_changes, change);
                assert(changes@ =~= prev_changes.push(change));
                assert forall|k: int| 0 <= k < changes@.len() implies change_wf(#[trigger] changes@[k]) by {
                    if k < prev_changes.len() {
                        assert(changes@[k] == prev_changes[k]);
                    }
                }
                assert forall|k: int| 0 <= k < changes@.len() - 1 implies !follows(
                    changes@[k].ops@.last()@,
                    (#[trigger] changes@[k + 1]).ops@[0]@,
                ) by {
                    if k < prev_changes.len() - 1 {
                        assert(changes@[k] == prev_changes[k] && changes@[k + 1] == prev_changes[k + 1]);
                    }
                }
                assert(ops_view(cur@) =~= seq![op@]);
            }
        }
        i += 1;
    }
    if cur.len() > 0 {
        let id = ID::new(cur[0].peer, cur[0].counter);
        let ghost prev_changes = changes@;
        let ghost cur_ops = cur@;
        let change = JsonChange { id, ops: cur };
        changes.push(change);
        proof {
            lemma_changes_ops_push_change(prev_changes, change);
            assert(changes@ =~= prev_changes.push(change));
            assert forall|k: int| 0 <= k < changes@.len() implies change_wf(#[trigger] changes@[k]) by {
                if k < prev_changes.len() {
                    assert(changes@[k] == prev_changes[k]);
                }
            }
            assert forall|k: int| 0 <= k < changes@.len() - 1 implies !follows(
                changes@[k].ops@.last()@,
                (#[trigger] changes@[k + 1]).ops@[0]@,
            ) by {
                if k < prev_changes.len() - 1 {
                    assert(changes@[k] == prev_changes[k] && changes@[k + 1] == prev_changes[k + 1]);
                }
            }
        }
    } else {
        assert(ops_view(cur@) =~= Seq::<OpView>::empty());
    }
    assert(ops_view(ops@).take(ops@.len() as int) =~= ops_view(ops@));
    changes
}


/// The smaller of two counters.
pub open spec fn min_counter(a: int, b: int) -> int {
    if a <= b {
        a
    } else {
        b
    }
}

/// A peer that has no entry reads as 0.
pub proof fn lemma_vv_lookup_absent(s: Seq<(PeerID, Counter)>, peer: PeerID)
    requires
        forall|k: int| 0 <= k < s.len() ==> s[k].0 != peer,
    ensures
        vv_lookup(s, peer) == 0,
    decreases s.len(),
{
    if s.len() > 0 {
        lemma_vv_lookup_absent(s.drop_first(), peer);
    }
}

/// Every op of a log is below its peer's counter end there.
pub proof fn lemma_log_vv_above_ops(log: Seq<OpView>)
    ensures
        forall|k: int| 0 <= k < log.len() ==> (#[trigger] log[k]).counter < log_vv(log, log[k].peer),
        forall|p: PeerID| log_vv(log, p) >= 0,
    decreases log.len(),
{
    if log.len() > 0 {
        let t = log.drop_last();
        lemma_log_vv_above_ops(t);
        assert forall|k: int| 0 <= k < log.len() implies (#[trigger] log[k]).counter < log_vv(log, log[k].peer) by {
            if k < t.len() {
                assert(log[k] == t[k]);
            }
        }
        assert forall|p: PeerID| log_vv(log, p) >= 0 by {
            assert(log_vv(t, p) >= 0);
        }
    }
}

/// The version `vv` cut down to what the op log holds: for each peer with a
/// nonzero counter in `vv`, an entry with the smaller of that counter and
/// its counter end in the log (0 for a peer the log lacks); no other
/// entries.
pub fn refine_vv(vv: &VersionVector, oplog: &Vec<Op>) -> (r: VersionVector)
    requires
        forall|k: int| 0 <= k < oplog@.len() ==> 0 <= #[trigger] oplog@[k].counter < i32::MAX,
    ensures
        forall|p: PeerID| r.spec_get(p) as int == min_counter(
            vv.spec_get(p) as int,
            log_vv(ops_view(oplog@), p),
        ),
        forall|p: PeerID| vv_has(r.entries@, p) == (vv.spec_get(p) != 0),
{
    proof {
        lemma_log_vv_above_ops(ops_view(oplog@));
    }
    let end_vv = compute_log_vv(oplog);
    let mut refined = VersionVector::new();
    let mut i: usize = 0;
    while i < vv.entries.len()
        invariant
            i <= vv.entries.len(),
            forall|p: PeerID| end_vv.spec_get(p) as int == log_vv(ops_view(oplog@), p),
            forall|p: PeerID| log_vv(ops_view(oplog@), p) >= 0,
            forall|p: PeerID| (exists|k: int| 0 <= k < i && #[trigger] vv.entries@[k].0 == p) ==> refined.spec_get(p) as int == min_counter(
                vv.spec_get(p) as int,
                log_vv(ops_view(oplog@), p),
            ),
            forall|p: PeerID| !(exists|k: int| 0 <= k < i && #[trigger] vv.entries@[k].0 == p) ==> refined.spec_get(p) == 0,
            forall|p: PeerID| #[trigger] vv_has(refined.entries@, p) == (vv_has(vv.entries@.take(i as int), p) && vv.spec_get(p) != 0),
        decreases vv.entries.len() - i,
    {
        let peer = vv.entries[i].0;
        let counter = vv.get(peer);
        let ghost r0 = refined.entries@;
        if counter != 0 {
            let end = end_vv.get(peer);
            if end <= counter {
                refined.set(peer, end);
            } else {
                refined.set(peer, counter);
            }
        }
        proof {
            let t0 = vv.entries@.take(i as int);
            let t1 = vv.entries@.take(i + 1);
            assert forall|p: PeerID| #[trigger] vv_has(refined.entries@, p) == (vv_has(t1, p) && vv.spec_get(p) != 0) by {
                assert(vv_has(r0, p) == (vv_has(t0, p) && vv.spec_get(p) != 0));
                assert(t1[i as int].0 == peer);
                if vv_has(t0, p) {
                    let k = choose|k: int| 0 <= k < t0.len() && #[trigger] t0[k].0 == p;
                    assert(t1[k].0 == p);
                }
                if vv_has(t1, p) && p != peer {
                    let k = choose|k: int| 0 <= k < t1.len() && #[trigger] t1[k].0 == p;
                    assert(t0[k].0 == p);
                }
                if p == peer && counter == 0 {
                    assert(refined.entries@ == r0);
                }
            }
            assert forall|p: PeerID| (exists|k: int| 0 <= k < i + 1 && #[trigger] vv.entries@[k].0 == p) implies refined.spec_get(p) as int == min_counter(
                vv.spec_get(p) as int,
                log_vv(ops_view(oplog@), p),
            ) by {
                if p != peer {
                    let k = choose|k: int| 0 <= k < i + 1 && #[trigger] vv.entries@[k].0 == p;
                    assert(k < i);
                }
            }
            assert forall|p: PeerID| !(exists|k: int| 0 <= k < i + 1 && #[trigger] vv.entries@[k].0 == p) implies refined.spec_get(p) == 0 by {
                assert(p != vv.entries@[i as int].0);
                if exists|k: int| 0 <= k < i && #[trigger] vv.entries@[k].0 == p {
                    let k = choose|k: int| 0 <= k < i && #[trigger] vv.entries@[k].0 == p;
                    assert(vv.entries@[k].0 == p);
                }
            }
        }
        i += 1;
    }
    proof {
        assert forall|p: PeerID| refined.spec_get(p) as int == min_counter(
            vv.spec_get(p) as int,
            log_vv(ops_view(oplog@), p),
        ) by {
            if !(exists|k: int| 0 <= k < vv.entries@.len() && #[trigger] vv.entries@[k].0 == p) {
                lemma_vv_lookup_absent(vv.entries@, p);
            }
        }
        assert(vv.entries@.take(vv.entries@.len() as int) =~= vv.entries@);
        assert forall|p: PeerID| vv_has(refined.entries@, p) == (vv.spec_get(p) != 0) by {
            if !vv_has(vv.entries@, p) {
                lemma_vv_lookup_absent(vv.entries@, p);
            }
        }
    }
    refined
}

/// Cutting a version down to the log does not change which of the log's
/// ops it includes or leaves out.
pub proof fn lemma_refined_vv_selects_same_ops(
    log: Seq<OpView>,
    sub: Seq<OpView>,
    vv: Seq<(PeerID, Counter)>,
    refined: Seq<(PeerID, Counter)>,
)
    requires
        forall|k: int| 0 <= k < sub.len() ==> (#[trigger] sub[k]).counter < log_vv(log, sub[k].peer),
        forall|p: PeerID| vv_lookup(refined, p) as int == min_counter(vv_lookup(vv, p) as int, log_vv(log, p)),
    ensures
        ops_within(sub, refined) == ops_within(sub, vv),
        ops_beyond(sub, refined) == ops_beyond(sub, vv),
    decreases sub.len(),
{
    if sub.len() > 0 {
        let t = sub.drop_last();
        assert forall|k: int| 0 <= k < t.len() implies (#[trigger] t[k]).counter < log_vv(log, t[k].peer) by {
            assert(t[k] == sub[k]);
        }
        lemma_refined_vv_selects_same_ops(log, t, vv, refined);
        assert(sub.last() == sub[sub.len() - 1]);
    }
}

/// An id with its peer replaced by the peer's index in the register `s`,
/// and the register after.
pub open spec fn registered_id(id: ID, s: Seq<PeerID>) -> (ID, Seq<PeerID>) {
    let (i, t) = register_peer(s, id.peer);
    (ID { peer: i as PeerID, counter: id.counter }, t)
}

/// An id whose peer is an index into `peers`, with the peer put back.
pub open spec fn converted_id(id: ID, peers: Seq<PeerID>) -> ID {
    ID { peer: peers[id.peer as int], counter: id.counter }
}

/// A (peer, lamport) id with its peer replaced by the peer's index.
pub open spec fn registered_idlp(id: IdLp, s: Seq<PeerID>) -> (IdLp, Seq<PeerID>) {
    let (i, t) = register_peer(s, id.peer);
    (IdLp { peer: i as PeerID, lamport: id.lamport }, t)
}

/// A (peer, lamport) id whose peer is an index into `peers`, with the peer
/// put back.
pub open spec fn converted_idlp(id: IdLp, peers: Seq<PeerID>) -> IdLp {
    IdLp { peer: peers[id.peer as int], lamport: id.lamport }
}

/// A container id with the peer of a normal container replaced by its
/// index; a root container is kept.
pub open spec fn registered_cid(c: ContainerIdView, s: Seq<PeerID>) -> (ContainerIdView, Seq<PeerID>) {
    match c {
        ContainerIdView::Normal { peer, counter, container_type } => {
            let (i, t) = register_peer(s, peer);
            (ContainerIdView::Normal { peer: i as PeerID, counter, container_type }, t)
        },
        ContainerIdView::Root { .. } => (c, s),
    }
}

/// A container id whose peer is an index into `peers`, with the peer put
/// back.
pub open spec fn converted_cid(c: ContainerIdView, peers: Seq<PeerID>) -> ContainerIdView {
    match c {
        ContainerIdView::Normal { peer, counter, container_type } => ContainerIdView::Normal {
            peer: peers[peer as int],
            counter,
            container_type,
        },
        ContainerIdView::Root { .. } => c,
    }
}

/// The peer of a normal container is an index into `peers`.
pub open spec fn cid_peer_in(c: ContainerIdView, peers: Seq<PeerID>) -> bool {
    match c {
        ContainerIdView::Normal { peer, .. } => peer < peers.len(),
        ContainerIdView::Root { .. } => true,
    }
}

/// Replaces an id's peer by its index in the register.
pub fn register_id(id: &ID, peer_register: &mut PeerRegister) -> (r: ID)
    ensures
        (r, final(peer_register)@) == registered_id(*id, old(peer_register)@),
{
    let peer = peer_register.register(&id.peer);
    ID::new(peer as PeerID, id.counter)
}

/// Replaces a (peer, lamport) id's peer by its index in the register.
pub fn register_idlp(idlp: &IdLp, peer_register: &mut PeerRegister) -> (r: IdLp)
    ensures
        (r, final(peer_register)@) == registered_idlp(*idlp, old(peer_register)@),
{
    IdLp { peer: peer_register.register(&idlp.peer) as PeerID, lamport: idlp.lamport }
}

/// Replaces the peer of a normal container by its index in the register.
pub fn register_container_id(container: ContainerID, peer_register: &mut PeerRegister) -> (r: ContainerID)
    ensures
        (r@, final(peer_register)@) == registered_cid(container@, old(peer_register)@),
{
    match container {
        ContainerID::Normal { peer, counter, container_type } => ContainerID::Normal {
            peer: peer_register.register(&peer) as PeerID,
            counter,
            container_type,
        },
        r => r,
    }
}

/// Puts back the peer of a normal container from its index.
pub fn convert_container_id(container: ContainerID, peers: &[PeerID]) -> (r: ContainerID)
    requires
        cid_peer_in(container@, peers@),
    ensures
        r@ == converted_cid(container@, peers@),
{
    match container {
        ContainerID::Normal { peer, counter, container_type } => ContainerID::Normal {
            peer: peers[peer as usize],
            counter,
            container_type,
        },
        r => r,
    }
}

/// Puts back an id's peer from its index.
pub fn convert_id(id: &ID, peers: &[PeerID]) -> (r: ID)
    requires
        id.peer < peers@.len(),
    ensures
        r == converted_id(*id, peers@),
{
    ID { peer: peers[id.peer as usize], counter: id.counter }
}

/// Puts back a (peer, lamport) id's peer from its index.
pub fn convert_idlp(idlp: &IdLp, peers: &[PeerID]) -> (r: IdLp)
    requires
        idlp.peer < peers@.len(),
    ensures
        r == converted_idlp(*idlp, peers@),
{
    IdLp { lamport: idlp.lamport, peer: peers[idlp.peer as usize] }
}

/// `a` is the start of `b`.
pub open spec fn peers_prefix(a: Seq<PeerID>, b: Seq<PeerID>) -> bool {
    a.len() <= b.len() && b.subrange(0, a.len() as int) == a
}

/// Compressing an id's peer into a register and putting it back from any
/// later state of the register gives the id back.
pub proof fn lemma_id_compression_roundtrip(id: ID, s: Seq<PeerID>, peers: Seq<PeerID>)
    requires
        peers_prefix(registered_id(id, s).1, peers),
        peers.len() <= u64::MAX,
    ensures
        registered_id(id, s).0.peer < peers.len(),
        converted_id(registered_id(id, s).0, peers) == id,
{
    lemma_register_peer(s, id.peer);
    let (i, t) = register_peer(s, id.peer);
    assert(peers[i as int] == t.subrange(0, t.len() as int)[i as int]) by {
        assert(peers.subrange(0, t.len() as int)[i as int] == peers[i as int]);
    }
    assert(t.subrange(0, t.len() as int) =~= t);
}

/// The same for a (peer, lamport) id.
pub proof fn lemma_idlp_compression_roundtrip(id: IdLp, s: Seq<PeerID>, peers: Seq<PeerID>)
    requires
        peers_prefix(registered_idlp(id, s).1, peers),
        peers.len() <= u64::MAX,
    ensures
        registered_idlp(id, s).0.peer < peers.len(),
        converted_idlp(registered_idlp(id, s).0, peers) == id,
{
    lemma_register_peer(s, id.peer);
    let (i, t) = register_peer(s, id.peer);
    assert(peers.subrange(0, t.len() as int)[i as int] == peers[i as int]);
}

/// The same for a container id.
pub proof fn lemma_cid_compression_roundtrip(c: ContainerIdView, s: Seq<PeerID>, peers: Seq<PeerID>)
    requires
        peers_prefix(registered_cid(c, s).1, peers),
        peers.len() <= u64::MAX,
    ensures
        cid_peer_in(registered_cid(c, s).0, peers),
        converted_cid(registered_cid(c, s).0, peers) == c,
{
    if let ContainerIdView::Normal { peer, .. } = c {
        lemma_register_peer(s, peer);
        let (i, t) = register_peer(s, peer);
        assert(peers.subrange(0, t.len() as int)[i as int] == peers[i as int]);
    }
}

/// An element id with its peer replaced by the peer's index in the
/// register `s`, and the register after.
pub open spec fn registered_elem(e: ElemId, s: Seq<PeerID>) -> (ElemId, Seq<PeerID>) {
    let (i, t) = register_peer(s, e.peer);
    (ElemId { peer: i as PeerID, counter: e.counter, offset: e.offset }, t)
}

/// An element id whose peer is an index into `peers`, with the peer put
/// back.
pub open spec fn converted_elem(e: ElemId, peers: Seq<PeerID>) -> ElemId {
    ElemId { peer: peers[e.peer as int], counter: e.counter, offset: e.offset }
}

/// A run of element ids registered one after another.
pub open spec fn registered_elems(es: Seq<ElemId>, s: Seq<PeerID>) -> (Seq<ElemId>, Seq<PeerID>)
    decreases es.len(),
{
    if es.len() == 0 {
        (Seq::empty(), s)
    } else {
        let (p, t) = registered_elems(es.drop_last(), s);
        let (e, u) = registered_elem(es.last(), t);
        (p.push(e), u)
    }
}

/// A parent of a tree move with the peer of a node id registered.
pub open spec fn registered_parent(p: TreeParent, s: Seq<PeerID>) -> (TreeParent, Seq<PeerID>) {
    match p {
        TreeParent::Node(id) => {
            let (r, t) = registered_id(id, s);
            (TreeParent::Node(r), t)
        },
        _ => (p, s),
    }
}

/// The content of an op with every peer it names replaced by its index in
/// the register, in order of appearance: the origin of an insert, the
/// targets of a delete, the two ends of a mark, the node and the parent of
/// a tree move. A map write names no peer.
pub open spec fn registered_content(c: OpContentView, s: Seq<PeerID>) -> (OpContentView, Seq<PeerID>) {
    match c {
        OpContentView::MapSet { .. } => (c, s),
        OpContentView::SeqInsert { origin, values } => match origin {
            Some(e) => {
                let (r, t) = registered_elem(e, s);
                (OpContentView::SeqInsert { origin: Some(r), values }, t)
            },
            None => (c, s),
        },
        OpContentView::SeqDelete { targets } => {
            let (r, t) = registered_elems(targets, s);
            (OpContentView::SeqDelete { targets: r }, t)
        },
        OpContentView::Mark { start, end, key, value } => {
            let (a, t) = registered_elem(start, s);
            let (b, u) = registered_elem(end, t);
            (OpContentView::Mark { start: a, end: b, key, value }, u)
        },
        OpContentView::TreeMove { target, parent } => {
            let (a, t) = registered_id(target, s);
            let (b, u) = registered_parent(parent, t);
            (OpContentView::TreeMove { target: a, parent: b }, u)
        },
    }
}

/// An op in its encoded form: its peer, then the peer of its container (a
/// normal one), then the peers its content names, each replaced by its
/// index in the register; and the register after.
pub open spec fn registered_op(op: OpView, s: Seq<PeerID>) -> (OpView, Seq<PeerID>) {
    let (i, t) = register_peer(s, op.peer);
    let (c, u) = registered_cid(op.container, t);
    let (ct, w) = registered_content(op.content, u);
    (OpView { peer: i as PeerID, counter: op.counter, lamport: op.lamport, container: c, content: ct }, w)
}

/// A run of ops encoded one after another.
pub open spec fn registered_ops(ops: Seq<OpView>, s: Seq<PeerID>) -> (Seq<OpView>, Seq<PeerID>)
    decreases ops.len(),
{
    if ops.len() == 0 {
        (Seq::empty(), s)
    } else {
        let (p, t) = registered_ops(ops.drop_last(), s);
        let (o, u) = registered_op(ops.last(), t);
        (p.push(o), u)
    }
}

/// A change as its id and its ops.
pub open spec fn change_view(c: JsonChange) -> (ID, Seq<OpView>) {
    (c.id, ops_view(c.ops@))
}

/// The changes as their ids and ops.
pub open spec fn changes_view(cs: Seq<JsonChange>) -> Seq<(ID, Seq<OpView>)> {
    Seq::new(cs.len(), |i: int| change_view(cs[i]))
}

/// Changes encoded one after another: for each, its id, then its ops.
pub open spec fn registered_changes(cs: Seq<(ID, Seq<OpView>)>, s: Seq<PeerID>) -> (
    Seq<(ID, Seq<OpView>)>,
    Seq<PeerID>,
)
    decreases cs.len(),
{
    if cs.len() == 0 {
        (Seq::empty(), s)
    } else {
        let (p, t) = registered_changes(cs.drop_last(), s);
        let (id, u) = registered_id(cs.last().0, t);
        let (ops, w) = registered_ops(cs.last().1, u);
        (p.push((id, ops)), w)
    }
}

/// The peers a parent of a tree move names are indices into `peers`.
pub open spec fn parent_peer_in(p: TreeParent, peers: Seq<PeerID>) -> bool {
    match p {
        TreeParent::Node(id) => id.peer < peers.len(),
        _ => true,
    }
}

/// Every peer an op's content names is an index into `peers`.
pub open spec fn content_peers_in(c: OpContentView, peers: Seq<PeerID>) -> bool {
    match c {
        OpContentView::MapSet { .. } => true,
        OpContentView::SeqInsert { origin, .. } => match origin {
            Some(e) => e.peer < peers.len(),
            None => true,
        },
        OpContentView::SeqDelete { targets } => forall|k: int| 0 <= k < targets.len() ==> #[trigger] targets[k].peer < peers.len(),
        OpContentView::Mark { start, end, .. } => start.peer < peers.len() && end.peer < peers.len(),
        OpContentView::TreeMove { target, parent } => target.peer < peers.len() && parent_peer_in(parent, peers),
    }
}

/// Every peer an encoded op names is an index into `peers`.
pub open spec fn op_peers_in(op: OpView, peers: Seq<PeerID>) -> bool {
    &&& op.peer < peers.len()
    &&& cid_peer_in(op.container, peers)
    &&& content_peers_in(op.content, peers)
}

/// The content of an encoded op with every peer put back from its index.
pub open spec fn converted_content(c: OpContentView, peers: Seq<PeerID>) -> OpContentView {
    match c {
        OpContentView::MapSet { .. } => c,
        OpContentView::SeqInsert { origin, values } => OpContentView::SeqInsert {
            origin: match origin {
                Some(e) => Some(converted_elem(e, peers)),
                None => None,
            },
            values,
        },
        OpContentView::SeqDelete { targets } => OpContentView::SeqDelete {
            targets: Seq::new(targets.len(), |k: int| converted_elem(targets[k], peers)),
        },
        OpContentView::Mark { start, end, key, value } => OpContentView::Mark {
            start: converted_elem(start, peers),
            end: converted_elem(end, peers),
            key,
            value,
        },
        OpContentView::TreeMove { target, parent } => OpContentView::TreeMove {
            target: converted_id(target, peers),
            parent: match parent {
                TreeParent::Node(id) => TreeParent::Node(converted_id(id, peers)),
                _ => parent,
            },
        },
    }
}

/// An encoded op with every peer put back from its index.
pub open spec fn converted_op(op: OpView, peers: Seq<PeerID>) -> OpView {
    OpView {
        peer: peers[op.peer as int],
        counter: op.counter,
        lamport: op.lamport,
        container: converted_cid(op.container, peers),
        content: converted_content(op.content, peers),
    }
}

/// Replaces an element id's peer by its index in the register.
fn register_elem(e: &ElemId, peer_register: &mut PeerRegister) -> (r: ElemId)
    ensures
        (r, final(peer_register)@) == registered_elem(*e, old(peer_register)@),
{
    ElemId { peer: peer_register.register(&e.peer) as PeerID, counter: e.counter, offset: e.offset }
}

/// Replaces the peers of a run of element ids by their indices.
fn register_elems(es: &Vec<ElemId>, peer_register: &mut PeerRegister) -> (r: Vec<ElemId>)
    ensures
        (r@, final(peer_register)@) == registered_elems(es@, old(peer_register)@),
{
    let mut r: Vec<ElemId> = Vec::new();
    let mut i: usize = 0;
    assert(es@.take(0) =~= Seq::<ElemId>::empty());
    while i < es.len()
        invariant
            i <= es@.len(),
            (r@, peer_register@) == registered_elems(es@.take(i as int), old(peer_register)@),
        decreases es.len() - i,
    {
        assert(es@.take(i + 1).drop_last() =~= es@.take(i as int));
        assert(es@.take(i + 1).last() == es@[i as int]);
        let e = register_elem(&es[i], peer_register);
        r.push(e);
        i += 1;
    }
    assert(es@.take(es@.len() as int) =~= es@);
    r
}

/// The values of an insert, copied.
fn copy_values(v: &Vec<OpValue>) -> (r: Vec<OpValue>)
    ensures
        r@ == v@,
{
    let mut r: Vec<OpValue> = Vec::new();
    let mut i: usize = 0;
    while i < v.len()
        invariant
            i <= v@.len(),
            r@ == v@.take(i as int),
        decreases v.len() - i,
    {
        r.push(v[i]);
        i += 1;
        assert(r@ =~= v@.take(i as int));
    }
    assert(v@.take(v@.len() as int) =~= v@);
    r
}

/// The content of an op with every peer it names replaced by its index.
fn encode_content(c: &OpContent, peer_register: &mut PeerRegister) -> (r: OpContent)
    ensures
        (r@, final(peer_register)@) == registered_content(c@, old(peer_register)@),
{
    match c {
        OpContent::MapSet { key, value } => OpContent::MapSet { key: key.clone(), value: *value },
        OpContent::SeqInsert { origin, values } => {
            let o = match origin {
                Some(e) => Some(register_elem(e, peer_register)),
                None => None,
            };
            OpContent::SeqInsert { origin: o, values: copy_values(values) }
        },
        OpContent::SeqDelete { targets } => OpContent::SeqDelete { targets: register_elems(targets, peer_register) },
        OpContent::Mark { start, end, key, value } => {
            let a = register_elem(start, peer_register);
            let b = register_elem(end, peer_register);
            OpContent::Mark { start: a, end: b, key: key.clone(), value: *value }
        },
        OpContent::TreeMove { target, parent } => {
            let a = register_id(target, peer_register);
            let b = match parent {
                TreeParent::Node(id) => TreeParent::Node(register_id(id, peer_register)),
                TreeParent::Root => TreeParent::Root,
                TreeParent::Deleted => TreeParent::Deleted,
            };
            OpContent::TreeMove { target: a, parent: b }
        },
    }
}

/// An op in its encoded form: its peer, its container's peer and the peers
/// its content names replaced by their indices in the register.
pub fn encode_op(op: &Op, peer_register: &mut PeerRegister) -> (r: Op)
    ensures
        (r@, final(peer_register)@) == registered_op(op@, old(peer_register)@),
{
    let peer = peer_register.register(&op.peer) as PeerID;
    let container = register_container_id(op.container.duplicate(), peer_register);
    let content = encode_content(&op.content, peer_register);
    Op { peer, counter: op.counter, lamport: op.lamport, container, content }
}

/// Encodes changes for the JSON form: each change's id, then each of its
/// ops, with every peer replaced by its index in the register (peers
/// registered in order of appearance).
pub fn encode_changes(changes: &Vec<JsonChange>, peer_register: &mut PeerRegister) -> (r: Vec<JsonChange>)
    ensures
        (changes_view(r@), final(peer_register)@) == registered_changes(changes_view(changes@), old(peer_register)@),
{
    let mut r: Vec<JsonChange> = Vec::new();
    let mut i: usize = 0;
    let ghost cv = changes_view(changes@);
    assert(cv.take(0) =~= Seq::<(ID, Seq<OpView>)>::empty());
    assert(changes_view(r@) =~= Seq::<(ID, Seq<OpView>)>::empty());
    while i < changes.len()
        invariant
            i <= changes@.len(),
            cv == changes_view(changes@),
            (changes_view(r@), peer_register@) == registered_changes(cv.take(i as int), old(peer_register)@),
        decreases changes.len() - i,
    {
        let c = &changes[i];
        let id = register_id(&c.id, peer_register);
        let ghost u = peer_register@;
        let mut ops: Vec<Op> = Vec::new();
        let mut k: usize = 0;
        let ghost ov = ops_view(c.ops@);
        assert(ov.take(0) =~= Seq::<OpView>::empty());
        assert(ops_view(ops@) =~= Seq::<OpView>::empty());
        while k < c.ops.len()
            invariant
                k <= c.ops@.len(),
                ov == ops_view(c.ops@),
                (ops_view(ops@), peer_register@) == registered_ops(ov.take(k as int), u),
            decreases c.ops.len() - k,
        {
            assert(ov.take(k + 1).drop_last() =~= ov.take(k as int));
            assert(ov.take(k + 1).last() == c.ops@[k as int]@);
            let o = encode_op(&c.ops[k], peer_register);
            let ghost prev = ops_view(ops@);
            ops.push(o);
            assert(ops_view(ops@) =~= prev.push(o@));
            k += 1;
        }
        assert(ov.take(ov.len() as int) =~= ov);
        let ghost prev = changes_view(r@);
        r.push(JsonChange { id, ops });
        proof {
            assert(cv.take(i + 1).drop_last() =~= cv.take(i as int));
            assert(cv.take(i + 1).last() == change_view(changes@[i as int]));
            assert(changes_view(r@) =~= prev.push(change_view(r@.last())));
        }
        i += 1;
    }
    assert(cv.take(cv.len() as int) =~= cv);
    r
}

/// Puts back an element id's peer from its index.
fn convert_elem(e: &ElemId, peers: &[PeerID]) -> (r: ElemId)
    requires
        e.peer < peers@.len(),
    ensures
        r == converted_elem(*e, peers@),
{
    ElemId { peer: peers[e.peer as usize], counter: e.counter, offset: e.offset }
}

/// Decodes an op of the JSON form: every peer it names put back from its
/// index into `peers`.
pub fn decode_op(op: &Op, peers: &[PeerID]) -> (r: Op)
    requires
        op_peers_in(op@, peers@),
    ensures
        r@ == converted_op(op@, peers@),
{
    let content = match &op.content {
        OpContent::MapSet { key, value } => OpContent::MapSet { key: key.clone(), value: *value },
        OpContent::SeqInsert { origin, values } => {
            let o = match origin {
                Some(e) => Some(convert_elem(e, peers)),
                None => None,
            };
            OpContent::SeqInsert { origin: o, values: copy_values(values) }
        },
        OpContent::SeqDelete { targets } => {
            let mut ts: Vec<ElemId> = Vec::new();
            let mut i: usize = 0;
            while i < targets.len()
                invariant
                    i <= targets@.len(),
                    forall|k: int| 0 <= k < targets@.len() ==> #[trigger] targets@[k].peer < peers@.len(),
                    ts@ =~= Seq::new(i as nat, |k: int| converted_elem(targets@[k], peers@)),
                decreases targets.len() - i,
            {
                let e = convert_elem(&targets[i], peers);
                ts.push(e);
                i += 1;
                assert(ts@ =~= Seq::new(i as nat, |k: int| converted_elem(targets@[k], peers@)));
            }
            OpContent::SeqDelete { targets: ts }
        },
        OpContent::Mark { start, end, key, value } => OpContent::Mark {
            start: convert_elem(start, peers),
            end: convert_elem(end, peers),
            key: key.clone(),
            value: *value,
        },
        OpContent::TreeMove { target, parent } => {
            let a = convert_id(target, peers);
            let b = match parent {
                TreeParent::Node(id) => TreeParent::Node(convert_id(id, peers)),
                TreeParent::Root => TreeParent::Root,
                TreeParent::Deleted => TreeParent::Deleted,
            };
            OpContent::TreeMove { target: a, parent: b }
        },
    };
    Op {
        peer: peers[op.peer as usize],
        counter: op.counter,
        lamport: op.lamport,
        container: convert_container_id(op.container.duplicate(), peers),
        content,
    }
}

proof fn lemma_prefix_trans(a: Seq<PeerID>, b: Seq<PeerID>, c: Seq<PeerID>)
    requires
        peers_prefix(a, b),
        peers_prefix(b, c),
    ensures
        peers_prefix(a, c),
{
    assert(c.subrange(0, a.len() as int) =~= b.subrange(0, a.len() as int));
}

proof fn lemma_register_prefix(s: Seq<PeerID>, peer: PeerID)
    ensures
        peers_prefix(s, register_peer(s, peer).1),
{
    lemma_register_peer(s, peer);
}

proof fn lemma_elem_roundtrip(e: ElemId, s: Seq<PeerID>, peers: Seq<PeerID>)
    requires
        peers_prefix(registered_elem(e, s).1, peers),
        peers.len() <= u64::MAX,
    ensures
        registered_elem(e, s).0.peer < peers.len(),
        converted_elem(registered_elem(e, s).0, peers) == e,
        peers_prefix(s, peers),
{
    lemma_register_peer(s, e.peer);
    let (i, t) = register_peer(s, e.peer);
    assert(peers.subrange(0, t.len() as int)[i as int] == peers[i as int]);
    lemma_register_prefix(s, e.peer);
    lemma_prefix_trans(s, t, peers);
}

proof fn lemma_id_roundtrip_prefix(id: ID, s: Seq<PeerID>, peers: Seq<PeerID>)
    requires
        peers_prefix(registered_id(id, s).1, peers),
        peers.len() <= u64::MAX,
    ensures
        registered_id(id, s).0.peer < peers.len(),
        converted_id(registered_id(id, s).0, peers) == id,
        peers_prefix(s, peers),
{
    lemma_id_compression_roundtrip(id, s, peers);
    lemma_register_prefix(s, id.peer);
    lemma_prefix_trans(s, registered_id(id, s).1, peers);
}

proof fn lemma_elems_roundtrip(es: Seq<ElemId>, s: Seq<PeerID>, peers: Seq<PeerID>)
    requires
        peers_prefix(registered_elems(es, s).1, peers),
        peers.len() <= u64::MAX,
    ensures
        registered_elems(es, s).0.len() == es.len(),
        forall|k: int| 0 <= k < es.len() ==> (#[trigger] registered_elems(es, s).0[k]).peer < peers.len()
            && converted_elem(registered_elems(es, s).0[k], peers) == es[k],
        peers_prefix(s, peers),
    decreases es.len(),
{
    if es.len() > 0 {
        let (p, t) = registered_elems(es.drop_last(), s);
        lemma_elem_roundtrip(es.last(), t, peers);
        lemma_elems_roundtrip(es.drop_last(), s, peers);
        let r = registered_elems(es, s).0;
        assert forall|k: int| 0 <= k < es.len() implies (#[trigger] r[k]).peer < peers.len()
            && converted_elem(r[k], peers) == es[k] by {
            if k < es.len() - 1 {
                assert(r[k] == p[k]);
                assert(es[k] == es.drop_last()[k]);
            }
        }
    } else {
        assert(s.subrange(0, s.len() as int) =~= s);
        assert(peers_prefix(s, peers));
    }
}

proof fn lemma_content_roundtrip(c: OpContentView, s: Seq<PeerID>, peers: Seq<PeerID>)
    requires
        peers_prefix(registered_content(c, s).1, peers),
        peers.len() <= u64::MAX,
    ensures
        content_peers_in(registered_content(c, s).0, peers),
        converted_content(registered_content(c, s).0, peers) == c,
        peers_prefix(s, peers),
{
    match c {
        OpContentView::MapSet { .. } => {
            assert(s.subrange(0, s.len() as int) =~= s);
            lemma_prefix_trans(s, s, peers);
        },
        OpContentView::SeqInsert { origin, values } => match origin {
            Some(e) => {
                lemma_elem_roundtrip(e, s, peers);
            },
            None => {
                assert(s.subrange(0, s.len() as int) =~= s);
                lemma_prefix_trans(s, s, peers);
            },
        },
        OpContentView::SeqDelete { targets } => {
            lemma_elems_roundtrip(targets, s, peers);
            let r = registered_elems(targets, s).0;
            assert(Seq::new(r.len(), |k: int| converted_elem(r[k], peers)) =~= targets);
        },
        OpContentView::Mark { start, end, .. } => {
            let (a, t) = registered_elem(start, s);
            lemma_elem_roundtrip(end, t, peers);
            lemma_elem_roundtrip(start, s, peers);
        },
        OpContentView::TreeMove { target, parent } => {
            let (a, t) = registered_id(target, s);
            match parent {
                TreeParent::Node(id) => {
                    lemma_id_roundtrip_prefix(id, t, peers);
                },
                _ => {
                    assert(t.subrange(0, t.len() as int) =~= t);
                    lemma_prefix_trans(t, t, peers);
                },
            }
            lemma_id_roundtrip_prefix(target, s, peers);
        },
    }
}

/// Encoding an op into the JSON form and decoding it with the register's
/// peers (or any register that starts with them) gives the op back.
pub proof fn lemma_op_compression_roundtrip(op: OpView, s: Seq<PeerID>, peers: Seq<PeerID>)
    requires
        peers_prefix(registered_op(op, s).1, peers),
        peers.len() <= u64::MAX,
    ensures
        op_peers_in(registered_op(op, s).0, peers),
        converted_op(registered_op(op, s).0, peers) == op,
{
    let (i, t) = register_peer(s, op.peer);
    let (c, u) = registered_cid(op.container, t);
    lemma_content_roundtrip(op.content, u, peers);
    match op.container {
        ContainerIdView::Normal { peer, .. } => {
            lemma_register_prefix(t, peer);
            lemma_prefix_trans(t, u, peers);
        },
        ContainerIdView::Root { .. } => {},
    }
    lemma_cid_compression_roundtrip(op.container, t, peers);
    lemma_register_peer(s, op.peer);
    lemma_register_prefix(t, op.peer);
    assert(peers_prefix(t, peers));
    assert(peers.subrange(0, t.len() as int)[i as int] == peers[i as int]);
}

} // verus!
