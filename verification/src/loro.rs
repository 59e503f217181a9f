//! The replicated document: an op log kept in the total order, local edits
//! that append ops, export and import of ops between replicas, and
//! checkout of past versions.
use vstd::prelude::*;
use crate::common::{
    cid_type, ContainerID, ContainerIdView, ContainerType, Counter, LoroError, LoroResult,
    LoroValue, PeerID, ID,
};
use crate::oplog::{
    ElemId, Op, OpContent, OpContentView, OpValue, OpView, TreeParent, log_sorted, merge_logs, op_lt,
    ops_view, same_key,
};
use crate::tree::{
    TreeNode, compute_live_nodes, compute_tree_state, ids_of, is_alive, is_ancestor, is_ancestor_of,
    live_nodes, meta_container, meta_container_of, node_alive, node_ids, parent_in, tree_state,
};
use crate::state::{
    Elem, compute_container_value, compute_doc_value, compute_seq_state, compute_visible,
    container_value, doc_value, seq_state, visible,
};
use crate::json_schema::{
    JsonSchema, changes_ops, changes_wf, group_into_changes, lemma_log_vv_above_ops,
    lemma_refined_vv_selects_same_ops, min_counter, refine_vv,
};
use crate::richtext::{compute_richtext_value, richtext_value};
use crate::version::{
    VersionVector, compute_log_vv, filter_beyond, filter_within, log_vv, ops_beyond, ops_within,
    vv_lookup,
};

verus! {

/// One more than the largest lamport timestamp of `log` (0 when empty).
pub open spec fn next_lamport(log: Seq<OpView>) -> int
    decreases log.len(),
{
    if log.len() == 0 {
        0
    } else {
        let p = next_lamport(log.drop_last());
        if log.last().lamport >= p {
            log.last().lamport + 1
        } else {
            p
        }
    }
}

/// One more than the largest counter of `peer`'s ops in `log` (0 when it
/// has none).
pub open spec fn next_counter(log: Seq<OpView>, peer: PeerID) -> int
    decreases log.len(),
{
    if log.len() == 0 {
        0
    } else {
        let p = next_counter(log.drop_last(), peer);
        if log.last().peer == peer && log.last().counter >= p {
            log.last().counter + 1
        } else {
            p
        }
    }
}

/// Whether the next local op's timestamp or counter would be out of range.
pub open spec fn stamp_overflows(log: Seq<OpView>, peer: PeerID) -> bool {
    next_lamport(log) == u32::MAX || next_counter(log, peer) == i32::MAX
}

/// The bounds every op of a log respects.
pub open spec fn op_in_bounds(op: OpView) -> bool {
    0 <= op.counter < i32::MAX && op.lamport < u32::MAX
}

/// A log that a document can hold: strictly ordered, every op in bounds.
pub open spec fn log_wf(log: Seq<OpView>) -> bool {
    &&& log_sorted(log)
    &&& forall|k: int| 0 <= k < log.len() ==> op_in_bounds(#[trigger] log[k])
}

/// A replica of a document.
pub struct LoroDoc {
    peer: PeerID,
    log: Vec<Op>,
    detached: Option<VersionVector>,
}

impl LoroDoc {
    #[verifier::type_invariant]
    spec fn inv(self) -> bool {
        log_wf(ops_view(self.log@))
    }

    /// The op log.
    pub closed spec fn log_view(&self) -> Seq<OpView> {
        ops_view(self.log@)
    }

    pub closed spec fn peer_view(&self) -> PeerID {
        self.peer
    }

    /// The version the document shows, when detached.
    pub closed spec fn detached_view(&self) -> Option<Seq<(PeerID, Counter)>> {
        match &self.detached {
            Some(vv) => Some(vv.entries@),
            None => None,
        }
    }

    /// The ops the document's state is computed from: all of them, or those
    /// of the checked-out version.
    pub open spec fn state_log(&self) -> Seq<OpView> {
        match self.detached_view() {
            Some(vv) => ops_within(self.log_view(), vv),
            None => self.log_view(),
        }
    }

    /// A new empty document with peer id 0.
    pub fn new() -> (r: LoroDoc)
        ensures
            r.log_view() == Seq::<OpView>::empty(),
            r.peer_view() == 0,
            r.detached_view() is None,
    {
        let r = LoroDoc { peer: 0, log: Vec::new(), detached: None };
        assert(ops_view(r.log@) =~= Seq::<OpView>::empty());
        r
    }

    pub fn set_peer_id(&mut self, peer: PeerID) -> (r: LoroResult<()>)
        ensures
            r is Ok,
            final(self).peer_view() == peer,
            final(self).log_view() == old(self).log_view(),
            final(self).detached_view() == old(self).detached_view(),
    {
        proof {
            use_type_invariant(&*self);
        }
        self.peer = peer;
        Ok(())
    }

    pub fn peer_id(&self) -> (r: PeerID)
        ensures
            r == self.peer_view(),
    {
        self.peer
    }

    pub fn is_detached(&self) -> (r: bool)
        ensures
            r == (self.detached_view() is Some),
    {
        self.detached.is_some()
    }

    /// The ops the state is computed from.
    fn state_ops(&self) -> (r: Vec<Op>)
        ensures
            ops_view(r@) == self.state_log(),
    {
        match &self.detached {
            Some(vv) => filter_within(&self.log, vv),
            None => {
                let mut r: Vec<Op> = Vec::new();
                let mut i: usize = 0;
                while i < self.log.len()
                    invariant
                        i <= self.log.len(),
                        ops_view(r@) == ops_view(self.log@).take(i as int),
                    decreases self.log.len() - i,
                {
                    let ghost prev = ops_view(r@);
                    let d = self.log[i].duplicate();
                    r.push(d);
                    assert(ops_view(r@) =~= prev.push(d@));
                    i += 1;
                    assert(ops_view(r@) =~= ops_view(self.log@).take(i as int));
                }
                assert(ops_view(self.log@).take(self.log.len() as int) =~= ops_view(self.log@));
                r
            },
        }
    }

    /// The deep value of the document: each root container by name, nested
    /// containers expanded.
    pub fn get_deep_value(&self) -> (r: LoroValue)
        ensures
            r@ == doc_value(self.state_log()),
    {
        let ops = self.state_ops();
        compute_doc_value(&ops)
    }

    /// The value of one container.
    pub fn get_value(&self, c: &ContainerID) -> (r: LoroValue)
        ensures
            r@ == container_value(self.state_log(), c@, self.state_log().len()),
    {
        let ops = self.state_ops();
        compute_container_value(&ops, c, ops.len())
    }

    /// The visible elements of a list or text container.
    pub fn visible_elems(&self, c: &ContainerID) -> (r: Vec<Elem>)
        ensures
            r@ == visible(seq_state(self.state_log(), c@)),
    {
        let ops = self.state_ops();
        let s = compute_seq_state(&ops, c);
        compute_visible(&s)
    }

    /// The number of visible elements of a list or text container (for a
    /// text, its length in Unicode scalar values).
    pub fn seq_len(&self, c: &ContainerID) -> (r: usize)
        ensures
            r == visible(seq_state(self.state_log(), c@)).len(),
    {
        self.visible_elems(c).len()
    }

    /// The version vector of the op log.
    pub fn oplog_vv(&self) -> (r: VersionVector)
        ensures
            forall|p: PeerID| r.spec_get(p) as int == log_vv(self.log_view(), p),
    {
        proof {
            use_type_invariant(self);
            assert forall|k: int| 0 <= k < self.log@.len() implies 0 <= #[trigger] self.log@[k].counter < i32::MAX by {
                assert(op_in_bounds(ops_view(self.log@)[k]));
            }
        }
        compute_log_vv(&self.log)
    }

    /// The lamport timestamp and counter of the next local op.
    fn next_stamp(&self) -> (r: LoroResult<(u32, Counter)>)
        ensures
            match r {
                Ok((l, c)) => (forall|k: int|
                    0 <= k < self.log_view().len() ==> #[trigger] self.log_view()[k].lamport < l)
                    && (forall|k: int|
                    0 <= k < self.log_view().len() && self.log_view()[k].peer == self.peer_view()
                        ==> #[trigger] self.log_view()[k].counter < c) && l < u32::MAX && 0 <= c
                    < i32::MAX,
                Err(e) => e == LoroError::CounterOverflow,
            },
            r is Ok <==> !stamp_overflows(self.log_view(), self.peer_view()),
            r is Ok ==> r->Ok_0.1 == next_counter(self.log_view(), self.peer_view()),
    {
        proof {
            use_type_invariant(self);
        }
        let ghost lv = ops_view(self.log@);
        assert(lv.take(0) =~= Seq::<OpView>::empty());
        let mut lamport: u32 = 0;
        let mut counter: Counter = 0;
        let mut i: usize = 0;
        while i < self.log.len()
            invariant
                i <= self.log.len(),
                lv == ops_view(self.log@),
                log_wf(lv),
                0 <= counter,
                forall|k: int| 0 <= k < i ==> #[trigger] lv[k].lamport < lamport,
                forall|k: int|
                    0 <= k < i && lv[k].peer == self.peer ==> #[trigger] lv[k].counter < counter,
                lamport == next_lamport(lv.take(i as int)),
                counter == next_counter(lv.take(i as int), self.peer),
            decreases self.log.len() - i,
        {
            assert(op_in_bounds(lv[i as int]));
            assert(lv.take(i + 1).drop_last() =~= lv.take(i as int));
            assert(lv.take(i + 1).last() == lv[i as int]);
            let op = &self.log[i];
            if op.lamport >= lamport {
                lamport = op.lamport + 1;
            }
            if op.peer == self.peer && op.counter >= counter {
                counter = op.counter + 1;
            }
            i += 1;
        }
        assert(lv.take(self.log.len() as int) =~= lv);
        if lamport == u32::MAX || counter == i32::MAX {
            return Err(LoroError::CounterOverflow);
        }
        Ok((lamport, counter))
    }

    /// The id the next local op will get.
    pub fn next_id(&self) -> (r: LoroResult<ID>)
        ensures
            r == (if stamp_overflows(self.log_view(), self.peer_view()) {
                Err::<ID, LoroError>(LoroError::CounterOverflow)
            } else {
                Ok::<ID, LoroError>(
                    ID { peer: self.peer_view(), counter: next_counter(self.log_view(), self.peer_view()) as i32 },
                )
            }),
    {
        match self.next_stamp() {
            Ok((_, counter)) => Ok(ID { peer: self.peer, counter }),
            Err(e) => Err(e),
        }
    }

    /// Appends a local op; it comes last in the total order.
    fn push_local_op(&mut self, container: ContainerID, content: OpContent) -> (r: LoroResult<ID>)
        ensures
            match r {
                Ok(id) => appended(*old(self), *final(self), container@, content@) && id.peer
                    == final(self).log_view().last().peer && id.counter == final(self).log_view().last().counter,
                Err(e) => e == LoroError::CounterOverflow && final(self).log_view() == old(self).log_view(),
            },
            final(self).peer_view() == old(self).peer_view(),
            final(self).detached_view() == old(self).detached_view(),
    {
        let (lamport, counter) = match self.next_stamp() {
            Ok(x) => x,
            Err(e) => return Err(e),
        };
        self.push_stamped(lamport, counter, container, content);
        Ok(ID { peer: self.peer, counter })
    }

    /// Appends a local op with the given stamp, which is beyond every op of
    /// the log.
    fn push_stamped(&mut self, lamport: u32, counter: Counter, container: ContainerID, content: OpContent)
        requires
            forall|k: int|
                0 <= k < old(self).log_view().len() ==> #[trigger] old(self).log_view()[k].lamport < lamport,
            lamport < u32::MAX,
            0 <= counter < i32::MAX,
        ensures
            appended(*old(self), *final(self), container@, content@),
            final(self).log_view().last().counter == counter,
            final(self).peer_view() == old(self).peer_view(),
            final(self).detached_view() == old(self).detached_view(),
    {
        proof {
            use_type_invariant(&*self);
        }
        let ghost old_lv = ops_view(self.log@);
        let op = Op { peer: self.peer, counter, lamport, container, content };
        let ghost opv = op@;
        let mut new_log = self.export_snapshot();
        new_log.push(op);
        proof {
            assert(ops_view(new_log@) =~= old_lv.push(opv));
        }
        let ghost nl = ops_view(new_log@);
        proof {
            assert forall|p: int, q: int| 0 <= p < q < nl.len() implies op_lt(
                #[trigger] nl[p],
                #[trigger] nl[q],
            ) by {
                if q == old_lv.len() {
                    assert(old_lv[p].lamport < lamport);
                } else {
                    assert(op_lt(old_lv[p], old_lv[q]));
                }
            }
            assert forall|k: int| 0 <= k < nl.len() implies op_in_bounds(
                #[trigger] nl[k],
            ) by {
                if k < old_lv.len() {
                    assert(op_in_bounds(old_lv[k]));
                }
            }
        }
        self.log = new_log;
        proof {
            assert forall|k: int| 0 <= k < old_lv.len() implies op_lt(
                #[trigger] old_lv[k],
                ops_view(self.log@).last(),
            ) by {
                assert(old_lv[k].lamport < lamport);
            }
            assert(ops_view(self.log@).drop_last() =~= old_lv);
        }
    }

    /// Sets `key` of map `c` to an integer.
    pub fn map_insert(&mut self, c: &ContainerID, key: &str, value: i64) -> (r: LoroResult<()>)
        ensures
            self_edit_result(
                *old(self),
                *final(self),
                r,
                c@,
                ContainerType::Mapping,
                OpContentView::MapSet { key: key@, value: Some(OpValue::I64(value)) },
            ),
    {
        self.edit(c, ContainerType::Mapping, OpContent::MapSet { key: key.to_owned(), value: Some(OpValue::I64(value)) })
    }

    /// Deletes `key` of map `c`.
    pub fn map_delete(&mut self, c: &ContainerID, key: &str) -> (r: LoroResult<()>)
        ensures
            self_edit_result(
                *old(self),
                *final(self),
                r,
                c@,
                ContainerType::Mapping,
                OpContentView::MapSet { key: key@, value: None },
            ),
    {
        self.edit(c, ContainerType::Mapping, OpContent::MapSet { key: key.to_owned(), value: None })
    }

    /// Sets `key` of map `c` to a new child container of kind `t` and returns
    /// its id.
    pub fn map_insert_container(&mut self, c: &ContainerID, key: &str, t: ContainerType) -> (r:
        LoroResult<ContainerID>)
        ensures
            self_edit_result(
                *old(self),
                *final(self),
                match r {
                    Ok(_) => Ok(()),
                    Err(e) => Err(e),
                },
                c@,
                ContainerType::Mapping,
                OpContentView::MapSet { key: key@, value: Some(OpValue::Container(t)) },
            ),
            r is Ok ==> r->Ok_0@ == (ContainerIdView::Normal {
                peer: final(self).log_view().last().peer,
                counter: final(self).log_view().last().counter,
                container_type: t,
            }),
    {
        let peer = self.peer;
        match self.edit_id(c, ContainerType::Mapping, OpContent::MapSet { key: key.to_owned(), value: Some(OpValue::Container(t)) }) {
            Ok(id) => Ok(ContainerID::Normal { peer: id.peer, counter: id.counter, container_type: t }),
            Err(e) => Err(e),
        }
    }

    /// The origin of an insert at visible position `pos`.
    fn origin_at(&self, c: &ContainerID, pos: usize) -> (r: Option<Option<ElemId>>)
        ensures
            match r {
                Some(o) => pos <= visible(seq_state(self.state_log(), c@)).len() && o == seq_origin(
                    visible(seq_state(self.state_log(), c@)),
                    pos as int,
                ),
                None => pos > visible(seq_state(self.state_log(), c@)).len(),
            },
    {
        let vis = self.visible_elems(c);
        if pos > vis.len() {
            None
        } else if pos == 0 {
            Some(None)
        } else {
            Some(Some(vis[pos - 1].id))
        }
    }

    /// The ids of the visible elements in `pos..pos + len`.
    fn targets_at(&self, c: &ContainerID, pos: usize, len: usize) -> (r: Option<Vec<ElemId>>)
        ensures
            match r {
                Some(t) => pos + len <= visible(seq_state(self.state_log(), c@)).len() && t@
                    == seq_targets(visible(seq_state(self.state_log(), c@)), pos as int, len as int),
                None => pos + len > visible(seq_state(self.state_log(), c@)).len(),
            },
    {
        let vis = self.visible_elems(c);
        if pos > vis.len() || len > vis.len() - pos {
            return None;
        }
        let mut t: Vec<ElemId> = Vec::new();
        let mut k: usize = 0;
        let vl = vis.len();
        while k < len
            invariant
                k <= len,
                vl == vis@.len(),
                pos + len <= vl,
                t@ == seq_targets(vis@, pos as int, k as int),
            decreases len - k,
        {
            assert(pos + k < pos + len);
            t.push(vis[pos + k].id);
            k += 1;
            assert(t@ =~= seq_targets(vis@, pos as int, k as int));
        }
        Some(t)
    }

    /// Inserts an integer at position `pos` of list `c`.
    pub fn list_insert(&mut self, c: &ContainerID, pos: usize, value: i64) -> (r: LoroResult<()>)
        ensures
            seq_insert_result(*old(self), *final(self), r, c@, ContainerType::List, pos as int, seq![OpValue::I64(value)]),
    {
        let mut v: Vec<OpValue> = Vec::new();
        v.push(OpValue::I64(value));
        self.seq_insert(c, ContainerType::List, pos, v)
    }

    /// Inserts a new child container of kind `t` at position `pos` of list
    /// `c` and returns its id.
    pub fn list_insert_container(&mut self, c: &ContainerID, pos: usize, t: ContainerType) -> (r:
        LoroResult<ContainerID>)
        ensures
            seq_insert_result(
                *old(self),
                *final(self),
                match r {
                    Ok(_) => Ok(()),
                    Err(e) => Err(e),
                },
                c@,
                ContainerType::List,
                pos as int,
                seq![OpValue::Container(t)],
            ),
            r is Ok ==> r->Ok_0@ == (ContainerIdView::Normal {
                peer: final(self).log_view().last().peer,
                counter: final(self).log_view().last().counter,
                container_type: t,
            }),
    {
        let mut v: Vec<OpValue> = Vec::new();
        v.push(OpValue::Container(t));
        match self.seq_insert(c, ContainerType::List, pos, v) {
            Ok(()) => {
                let ghost l = self.log_view();
                proof {
                    use_type_invariant(&*self);
                }
                let last = self.log.len() - 1;
                assert(self.log@[last as int]@ == l.last());
                Ok(ContainerID::Normal { peer: self.log[last].peer, counter: self.log[last].counter, container_type: t })
            },
            Err(e) => Err(e),
        }
    }

    /// Deletes `len` elements of list `c` from position `pos`.
    pub fn list_delete(&mut self, c: &ContainerID, pos: usize, len: usize) -> (r: LoroResult<()>)
        ensures
            seq_delete_result(*old(self), *final(self), r, c@, ContainerType::List, pos as int, len as int),
    {
        self.seq_delete(c, ContainerType::List, pos, len)
    }

    /// Inserts characters at Unicode position `pos` of text `c`.
    pub fn text_insert(&mut self, c: &ContainerID, pos: usize, chars: &Vec<char>) -> (r: LoroResult<()>)
        ensures
            seq_insert_result(
                *old(self),
                *final(self),
                r,
                c@,
                ContainerType::Text,
                pos as int,
                char_values(chars@),
            ),
    {
        let v = chars_to_values(chars);
        self.seq_insert(c, ContainerType::Text, pos, v)
    }

    /// Deletes `len` characters of text `c` from Unicode position `pos`.
    pub fn text_delete(&mut self, c: &ContainerID, pos: usize, len: usize) -> (r: LoroResult<()>)
        ensures
            seq_delete_result(*old(self), *final(self), r, c@, ContainerType::Text, pos as int, len as int),
    {
        self.seq_delete(c, ContainerType::Text, pos, len)
    }

    /// Styles the characters `start..end` of text `c`, setting `key` to
    /// `value`; the mark is anchored to the first and the last of them.
    pub fn text_mark(&mut self, c: &ContainerID, start: usize, end: usize, key: &str, value: i64) -> (r:
        LoroResult<()>)
        ensures
            mark_result(*old(self), *final(self), r, c@, start as int, end as int, key@, value),
    {
        if self.detached.is_some() {
            return Err(LoroError::EditWhenDetached);
        }
        if c.container_type() != ContainerType::Text {
            return Err(LoroError::ContainerTypeMismatch);
        }
        if start >= end {
            return Err(LoroError::ArgErr);
        }
        let targets = match self.targets_at(c, start, end - start) {
            Some(x) => x,
            None => return Err(LoroError::OutOfBound),
        };
        let first = targets[0];
        let last = targets[end - start - 1];
        match self.push_local_op(
            c.duplicate(),
            OpContent::Mark { start: first, end: last, key: key.to_owned(), value },
        ) {
            Ok(_) => Ok(()),
            Err(e) => Err(e),
        }
    }

    /// The styled value of text `c`: runs of characters with the same styles.
    pub fn get_richtext_value(&self, c: &ContainerID) -> (r: LoroValue)
        ensures
            r@ == richtext_value(self.state_log(), c@),
    {
        let ops = self.state_ops();
        compute_richtext_value(&ops, c)
    }

    /// The nodes of tree `c`, live or not, in order of creation.
    fn tree_of(&self, c: &ContainerID) -> (r: Vec<TreeNode>)
        ensures
            r@ == tree_state(self.state_log(), c@),
    {
        let ops = self.state_ops();
        compute_tree_state(&ops, c)
    }

    /// The ids of the live nodes of tree `c`, in order of creation.
    pub fn tree_nodes(&self, c: &ContainerID) -> (r: Vec<ID>)
        ensures
            r@ == node_ids(live_nodes(tree_state(self.state_log(), c@))),
    {
        let s = self.tree_of(c);
        let live = compute_live_nodes(&s);
        ids_of(&live)
    }

    /// Creates a node at the top level of tree `c`; the node's id is the id
    /// of the op that creates it.
    pub fn tree_create(&mut self, c: &ContainerID) -> (r: LoroResult<ID>)
        ensures
            checked_edit_result(
                *old(self),
                *final(self),
                match r {
                    Ok(_) => Ok(()),
                    Err(e) => Err(e),
                },
                c@,
                ContainerType::Tree,
                None,
                OpContentView::TreeMove {
                    target: ID {
                        peer: final(self).log_view().last().peer,
                        counter: final(self).log_view().last().counter,
                    },
                    parent: TreeParent::Root,
                },
            ),
            r is Ok ==> r->Ok_0 == (ID {
                peer: final(self).log_view().last().peer,
                counter: final(self).log_view().last().counter,
            }),
            r is Ok ==> parent_in(tree_state(final(self).state_log(), c@), r->Ok_0) == Some(
                TreeParent::Root,
            ) && node_alive(tree_state(final(self).state_log(), c@), r->Ok_0),
            old(self).detached_view() is None && cid_type(c@) == ContainerType::Tree ==> (r is Ok
                <==> !stamp_overflows(old(self).log_view(), old(self).peer_view())),
            r is Ok ==> r->Ok_0 == (ID {
                peer: old(self).peer_view(),
                counter: next_counter(old(self).log_view(), old(self).peer_view()) as i32,
            }),
    {
        if self.detached.is_some() {
            return Err(LoroError::EditWhenDetached);
        }
        if c.container_type() != ContainerType::Tree {
            return Err(LoroError::ContainerTypeMismatch);
        }
        let (lamport, counter) = match self.next_stamp() {
            Ok(x) => x,
            Err(e) => return Err(e),
        };
        let id = ID { peer: self.peer, counter };
        let ghost old_log = self.log_view();
        self.push_stamped(lamport, counter, c.duplicate(), OpContent::TreeMove { target: id, parent: TreeParent::Root });
        proof {
            let n = TreeNode { id, parent: TreeParent::Root };
            assert(self.log_view().drop_last() == old_log);
            crate::tree::lemma_set_node(tree_state(old_log, c@), n);
            crate::tree::lemma_root_child_alive(tree_state(self.log_view(), c@), id);
        }
        Ok(id)
    }

    /// Moves node `target` of tree `c` under node `parent`. Both must be
    /// live nodes, and `parent` must not be `target` or below it.
    pub fn tree_move(&mut self, c: &ContainerID, target: ID, parent: ID) -> (r: LoroResult<()>)
        ensures
            checked_edit_result(
                *old(self),
                *final(self),
                r,
                c@,
                ContainerType::Tree,
                move_refusal(tree_state(old(self).state_log(), c@), target, parent),
                OpContentView::TreeMove { target, parent: TreeParent::Node(parent) },
            ),
            r is Ok ==> parent_in(tree_state(final(self).state_log(), c@), target) == Some(
                TreeParent::Node(parent),
            ),
    {
        if self.detached.is_some() {
            return Err(LoroError::EditWhenDetached);
        }
        if c.container_type() != ContainerType::Tree {
            return Err(LoroError::ContainerTypeMismatch);
        }
        let s = self.tree_of(c);
        if !is_alive(&s, target) || !is_alive(&s, parent) {
            return Err(LoroError::TreeNodeNotExist);
        }
        if is_ancestor_of(&s, target, parent) {
            return Err(LoroError::CyclicMoveError);
        }
        let ghost old_log = self.log_view();
        proof {
            crate::tree::lemma_alive_present(s@, parent);
        }
        match self.push_local_op(c.duplicate(), OpContent::TreeMove { target, parent: TreeParent::Node(parent) }) {
            Ok(_) => {
                proof {
                    assert(self.log_view().drop_last() == old_log);
                    crate::tree::lemma_set_node(s@, TreeNode { id: target, parent: TreeParent::Node(parent) });
                }
                Ok(())
            },
            Err(e) => Err(e),
        }
    }

    /// Deletes node `target` of tree `c` (and with it everything below it).
    pub fn tree_delete(&mut self, c: &ContainerID, target: ID) -> (r: LoroResult<()>)
        ensures
            checked_edit_result(
                *old(self),
                *final(self),
                r,
                c@,
                ContainerType::Tree,
                if node_alive(tree_state(old(self).state_log(), c@), target) {
                    None
                } else {
                    Some(LoroError::TreeNodeNotExist)
                },
                OpContentView::TreeMove { target, parent: TreeParent::Deleted },
            ),
            r is Ok ==> parent_in(tree_state(final(self).state_log(), c@), target) == Some(
                TreeParent::Deleted,
            ) && !node_alive(tree_state(final(self).state_log(), c@), target),
    {
        if self.detached.is_some() {
            return Err(LoroError::EditWhenDetached);
        }
        if c.container_type() != ContainerType::Tree {
            return Err(LoroError::ContainerTypeMismatch);
        }
        let s = self.tree_of(c);
        if !is_alive(&s, target) {
            return Err(LoroError::TreeNodeNotExist);
        }
        let ghost old_log = self.log_view();
        match self.push_local_op(c.duplicate(), OpContent::TreeMove { target, parent: TreeParent::Deleted }) {
            Ok(_) => {
                proof {
                    assert(self.log_view().drop_last() == old_log);
                    crate::tree::lemma_set_node(s@, TreeNode { id: target, parent: TreeParent::Deleted });
                    crate::tree::lemma_deleted_not_alive(tree_state(self.log_view(), c@), target);
                }
                Ok(())
            },
            Err(e) => Err(e),
        }
    }

    /// The map holding the metadata of live node `target` of tree `c`.
    pub fn tree_get_meta(&self, c: &ContainerID, target: ID) -> (r: LoroResult<ContainerID>)
        ensures
            cid_type(c@) != ContainerType::Tree ==> r == Err::<ContainerID, LoroError>(
                LoroError::ContainerTypeMismatch,
            ),
            cid_type(c@) == ContainerType::Tree ==> (r is Ok <==> node_alive(
                tree_state(self.state_log(), c@),
                target,
            )),
            r is Ok ==> r->Ok_0@ == meta_container(target),
            r is Err && cid_type(c@) == ContainerType::Tree ==> r->Err_0 == LoroError::TreeNodeNotExist,
    {
        if c.container_type() != ContainerType::Tree {
            return Err(LoroError::ContainerTypeMismatch);
        }
        let s = self.tree_of(c);
        if !is_alive(&s, target) {
            return Err(LoroError::TreeNodeNotExist);
        }
        Ok(meta_container_of(target))
    }

    fn seq_insert(&mut self, c: &ContainerID, t: ContainerType, pos: usize, values: Vec<OpValue>) -> (r:
        LoroResult<()>)
        ensures
            seq_insert_result(*old(self), *final(self), r, c@, t, pos as int, values@),
    {
        if self.detached.is_some() {
            return Err(LoroError::EditWhenDetached);
        }
        if c.container_type() != t {
            return Err(LoroError::ContainerTypeMismatch);
        }
        let origin = match self.origin_at(c, pos) {
            Some(o) => o,
            None => return Err(LoroError::OutOfBound),
        };
        let ghost vals = values@;
        match self.push_local_op(c.duplicate(), OpContent::SeqInsert { origin, values }) {
            Ok(_) => Ok(()),
            Err(e) => Err(e),
        }
    }

    fn seq_delete(&mut self, c: &ContainerID, t: ContainerType, pos: usize, len: usize) -> (r: LoroResult<()>)
        ensures
            seq_delete_result(*old(self), *final(self), r, c@, t, pos as int, len as int),
    {
        if self.detached.is_some() {
            return Err(LoroError::EditWhenDetached);
        }
        if c.container_type() != t {
            return Err(LoroError::ContainerTypeMismatch);
        }
        let targets = match self.targets_at(c, pos, len) {
            Some(x) => x,
            None => return Err(LoroError::OutOfBound),
        };
        match self.push_local_op(c.duplicate(), OpContent::SeqDelete { targets }) {
            Ok(_) => Ok(()),
            Err(e) => Err(e),
        }
    }

    fn edit(&mut self, c: &ContainerID, t: ContainerType, content: OpContent) -> (r: LoroResult<()>)
        ensures
            self_edit_result(*old(self), *final(self), r, c@, t, content@),
    {
        match self.edit_id(c, t, content) {
            Ok(_) => Ok(()),
            Err(e) => Err(e),
        }
    }

    fn edit_id(&mut self, c: &ContainerID, t: ContainerType, content: OpContent) -> (r: LoroResult<ID>)
        ensures
            self_edit_result(
                *old(self),
                *final(self),
                match r {
                    Ok(_) => Ok(()),
                    Err(e) => Err(e),
                },
                c@,
                t,
                content@,
            ),
            r is Ok ==> r->Ok_0.peer == final(self).log_view().last().peer && r->Ok_0.counter
                == final(self).log_view().last().counter,
    {
        if self.detached.is_some() {
            return Err(LoroError::EditWhenDetached);
        }
        if c.container_type() != t {
            return Err(LoroError::ContainerTypeMismatch);
        }
        self.push_local_op(c.duplicate(), content)
    }

    /// The ops a replica at version `vv` lacks.
    pub fn export_from(&self, vv: &VersionVector) -> (r: Vec<Op>)
        ensures
            ops_view(r@) == ops_beyond(self.log_view(), vv.entries@),
            log_wf(ops_view(r@)),
    {
        proof {
            use_type_invariant(self);
            crate::version::lemma_ops_beyond_wf(self.log_view(), vv.entries@);
        }
        filter_beyond(&self.log, vv)
    }

    /// The history between two versions as JSON changes: the ops that `end`
    /// includes and `start` does not, in log order, grouped into runs of
    /// consecutive ops of one peer.
    pub fn export_json_updates(&self, start: &VersionVector, end: &VersionVector) -> (r: JsonSchema)
        ensures
            changes_ops(r.changes@) == ops_beyond(ops_within(self.log_view(), end.entries@), start.entries@),
            changes_wf(r.changes@),
    {
        let ghost lv = self.log_view();
        proof {
            use_type_invariant(self);
            assert forall|k: int| 0 <= k < self.log@.len() implies 0 <= #[trigger] self.log@[k].counter < i32::MAX by {
                assert(op_in_bounds(ops_view(self.log@)[k]));
            }
        }
        let actual_start = refine_vv(start, &self.log);
        let actual_end = refine_vv(end, &self.log);
        let within = filter_within(&self.log, &actual_end);
        proof {
            lemma_log_vv_above_ops(lv);
            assert forall|p: PeerID| vv_lookup(actual_end.entries@, p) as int == min_counter(
                vv_lookup(end.entries@, p) as int,
                log_vv(lv, p),
            ) by {
                assert(actual_end.spec_get(p) as int == min_counter(end.spec_get(p) as int, log_vv(lv, p)));
            }
            assert forall|p: PeerID| vv_lookup(actual_start.entries@, p) as int == min_counter(
                vv_lookup(start.entries@, p) as int,
                log_vv(lv, p),
            ) by {
                assert(actual_start.spec_get(p) as int == min_counter(start.spec_get(p) as int, log_vv(lv, p)));
            }
            lemma_refined_vv_selects_same_ops(lv, lv, end.entries@, actual_end.entries@);
            crate::version::lemma_ops_within_wf(lv, end.entries@);
            let w = ops_view(within@);
            assert forall|k: int| 0 <= k < w.len() implies (#[trigger] w[k]).counter < log_vv(lv, w[k].peer) by {
                assert(w.contains(w[k]));
                assert(lv.contains(w[k]));
                let j = choose|j: int| 0 <= j < lv.len() && lv[j] == w[k];
                assert(lv[j].counter < log_vv(lv, lv[j].peer));
            }
            lemma_refined_vv_selects_same_ops(lv, w, start.entries@, actual_start.entries@);
        }
        let range = filter_beyond(&within, &actual_start);
        JsonSchema { changes: group_into_changes(&range) }
    }

    /// All ops.
    pub fn export_snapshot(&self) -> (r: Vec<Op>)
        ensures
            ops_view(r@) == self.log_view(),
            log_wf(ops_view(r@)),
    {
        proof {
            use_type_invariant(self);
        }
        let mut r: Vec<Op> = Vec::new();
        let mut i: usize = 0;
        while i < self.log.len()
            invariant
                i <= self.log.len(),
                ops_view(r@) == ops_view(self.log@).take(i as int),
            decreases self.log.len() - i,
        {
            let ghost prev = ops_view(r@);
            let d = self.log[i].duplicate();
            r.push(d);
            assert(ops_view(r@) =~= prev.push(d@));
            i += 1;
            assert(ops_view(r@) =~= ops_view(self.log@).take(i as int));
        }
        assert(ops_view(self.log@).take(self.log.len() as int) =~= ops_view(self.log@));
        r
    }

    /// Merges ops received from another replica. Ops that break the total
    /// order or the bounds of counters and timestamps are rejected as
    /// corrupted data, and the document is left unchanged.
    pub fn import(&mut self, ops: &Vec<Op>) -> (r: LoroResult<()>)
        ensures
            r is Ok <==> log_wf(ops_view(ops@)),
            r is Err ==> r->Err_0 == LoroError::DecodeDataCorruptionError && final(self).log_view()
                == old(self).log_view(),
            r is Ok ==> log_wf(final(self).log_view()) && (forall|x: OpView|
                old(self).log_view().contains(x) ==> final(self).log_view().contains(x)) && (forall|
                x: OpView|
                final(self).log_view().contains(x) ==> old(self).log_view().contains(x) || ops_view(
                    ops@,
                ).contains(x)) && (forall|y: OpView|
                #![trigger ops_view(ops@).contains(y)]
                ops_view(ops@).contains(y) ==> exists|x: OpView|
                    final(self).log_view().contains(x) && same_key(x, y)),
            final(self).peer_view() == old(self).peer_view(),
            final(self).detached_view() == old(self).detached_view(),
    {
        proof {
            use_type_invariant(&*self);
        }
        let ghost ov = ops_view(ops@);
        let mut i: usize = 0;
        while i < ops.len()
            invariant
                i <= ops.len(),
                ov == ops_view(ops@),
                forall|k: int| 0 <= k < i ==> op_in_bounds(#[trigger] ov[k]),
                forall|p: int, q: int| 0 <= p < q < i ==> op_lt(#[trigger] ov[p], #[trigger] ov[q]),
            decreases ops.len() - i,
        {
            let op = &ops[i];
            if !(0 <= op.counter && op.counter < i32::MAX && op.lamport < u32::MAX) {
                assert(!op_in_bounds(ov[i as int]));
                return Err(LoroError::DecodeDataCorruptionError);
            }
            if i > 0 && !ops[i - 1].lt(op) {
                assert(!op_lt(ov[i - 1], ov[i as int]));
                return Err(LoroError::DecodeDataCorruptionError);
            }
            proof {
                assert forall|p: int, q: int| 0 <= p < q < i + 1 implies op_lt(#[trigger] ov[p], #[trigger] ov[q]) by {
                    if q == i && p < i - 1 {
                        assert(op_lt(ov[p], ov[i - 1]));
                    }
                }
            }
            i += 1;
        }
        let merged = merge_logs(&self.log, ops);
        proof {
            let m = ops_view(merged@);
            assert forall|k: int| 0 <= k < m.len() implies op_in_bounds(#[trigger] m[k]) by {
                assert(m.contains(m[k]));
                if ops_view(self.log@).contains(m[k]) {
                    let a = choose|a: int| 0 <= a < ops_view(self.log@).len() && ops_view(self.log@)[a] == m[k];
                    assert(op_in_bounds(ops_view(self.log@)[a]));
                } else {
                    let a = choose|a: int| 0 <= a < ov.len() && ov[a] == m[k];
                    assert(op_in_bounds(ov[a]));
                }
            }
        }
        self.log = merged;
        Ok(())
    }

    /// Shows the state at version `vv` (detaching from the latest version).
    pub fn checkout(&mut self, vv: &VersionVector) -> (r: LoroResult<()>)
        ensures
            r is Ok,
            final(self).detached_view() == Some(vv.entries@),
            final(self).log_view() == old(self).log_view(),
            final(self).peer_view() == old(self).peer_view(),
    {
        proof {
            use_type_invariant(&*self);
        }
        self.detached = Some(vv.duplicate());
        Ok(())
    }

    /// Shows the latest version again.
    pub fn attach(&mut self)
        ensures
            final(self).detached_view() is None,
            final(self).log_view() == old(self).log_view(),
            final(self).peer_view() == old(self).peer_view(),
    {
        proof {
            use_type_invariant(&*self);
        }
        self.detached = None;
    }

    /// A new document holding the ops of version `vv`.
    pub fn fork_at(&self, vv: &VersionVector) -> (r: LoroDoc)
        ensures
            r.log_view() == ops_within(self.log_view(), vv.entries@),
            r.detached_view() is None,
    {
        proof {
            use_type_invariant(self);
            crate::version::lemma_ops_within_wf(self.log_view(), vv.entries@);
        }
        let log = filter_within(&self.log, vv);
        LoroDoc { peer: 0, log, detached: None }
    }
}

/// The op value of one character.
fn char_value(c: char) -> (r: OpValue)
    ensures
        r == OpValue::Char(c),
{
    OpValue::Char(c)
}

/// The op values of a run of characters.
pub open spec fn char_values(s: Seq<char>) -> Seq<OpValue>
    decreases s.len(),
{
    if s.len() == 0 {
        Seq::empty()
    } else {
        char_values(s.drop_last()).push(OpValue::Char(s.last()))
    }
}

/// The op values of a run of characters.
pub fn chars_to_values(chars: &Vec<char>) -> (v: Vec<OpValue>)
    ensures
        v@ == char_values(chars@),
{
    let mut v: Vec<OpValue> = Vec::new();
    let mut i: usize = 0;
    assert(chars@.take(0) =~= Seq::<char>::empty());
    while i < chars.len()
        invariant
            i <= chars.len(),
            v@ == char_values(chars@.take(i as int)),
        decreases chars.len() - i,
    {
        assert(chars@.take(i + 1).drop_last() =~= chars@.take(i as int));
        assert(chars@.take(i + 1).last() == chars@[i as int]);
        let x = char_value(chars[i]);
        v.push(x);
        i += 1;
    }
    assert(chars@.take(chars.len() as int) =~= chars@);
    v
}

/// The origin an insert at visible position `pos` uses.
pub open spec fn seq_origin(vis: Seq<Elem>, pos: int) -> Option<ElemId> {
    if pos == 0 {
        None
    } else {
        Some(vis[pos - 1].id)
    }
}

/// The ids of visible elements `pos..pos + len`.
pub open spec fn seq_targets(vis: Seq<Elem>, pos: int, len: int) -> Seq<ElemId> {
    Seq::new(len as nat, |k: int| vis[pos + k].id)
}

/// The outcome of a local edit that appends `content` to container `c` of
/// kind `t`: refused while detached or for another kind, otherwise one op
/// appended (unless counters overflow).
pub open spec fn self_edit_result(
    old_doc: LoroDoc,
    new_doc: LoroDoc,
    r: LoroResult<()>,
    c: ContainerIdView,
    t: ContainerType,
    content: OpContentView,
) -> bool {
    &&& new_doc.peer_view() == old_doc.peer_view()
    &&& new_doc.detached_view() == old_doc.detached_view()
    &&& (old_doc.detached_view() is Some ==> r == Err::<(), LoroError>(LoroError::EditWhenDetached))
    &&& (old_doc.detached_view() is None && cid_type(c) != t ==> r == Err::<(), LoroError>(
        LoroError::ContainerTypeMismatch,
    ))
    &&& (r is Err ==> new_doc.log_view() == old_doc.log_view())
    &&& (r is Err && old_doc.detached_view() is None && cid_type(c) == t ==> r->Err_0
        == LoroError::CounterOverflow)
    &&& (r is Ok ==> appended(old_doc, new_doc, c, content))
}

/// The outcome of a local edit of container `c` of kind `t` that is refused
/// with `refusal` when that is set, and otherwise appends `content`.
pub open spec fn checked_edit_result(
    old_doc: LoroDoc,
    new_doc: LoroDoc,
    r: LoroResult<()>,
    c: ContainerIdView,
    t: ContainerType,
    refusal: Option<LoroError>,
    content: OpContentView,
) -> bool {
    let ok_args = old_doc.detached_view() is None && cid_type(c) == t;
    &&& new_doc.peer_view() == old_doc.peer_view()
    &&& new_doc.detached_view() == old_doc.detached_view()
    &&& (r is Err ==> new_doc.log_view() == old_doc.log_view())
    &&& (old_doc.detached_view() is Some ==> r == Err::<(), LoroError>(LoroError::EditWhenDetached))
    &&& (old_doc.detached_view() is None && cid_type(c) != t ==> r == Err::<(), LoroError>(
        LoroError::ContainerTypeMismatch,
    ))
    &&& (ok_args && refusal is Some ==> r == Err::<(), LoroError>(refusal->0))
    &&& (r is Err && ok_args && refusal is None ==> r->Err_0 == LoroError::CounterOverflow)
    &&& (r is Ok ==> appended(old_doc, new_doc, c, content))
}

/// Why a move of `target` under `parent` is refused, if it is: one of them
/// is not a live node, or `parent` is `target` or below it.
pub open spec fn move_refusal(s: Seq<TreeNode>, target: ID, parent: ID) -> Option<LoroError> {
    if !node_alive(s, target) || !node_alive(s, parent) {
        Some(LoroError::TreeNodeNotExist)
    } else if is_ancestor(s, target, parent, s.len()) {
        Some(LoroError::CyclicMoveError)
    } else {
        None
    }
}

/// `new_doc` holds the ops of `old_doc` and one more, created locally, with
/// the given container and content, last in the total order.
pub open spec fn appended(old_doc: LoroDoc, new_doc: LoroDoc, c: ContainerIdView, content: OpContentView) -> bool {
    let l = new_doc.log_view();
    &&& l.len() == old_doc.log_view().len() + 1
    &&& l.drop_last() == old_doc.log_view()
    &&& l.last().peer == old_doc.peer_view()
    &&& l.last().container == c
    &&& l.last().content == content
    &&& forall|k: int| 0 <= k < old_doc.log_view().len() ==> op_lt(#[trigger] old_doc.log_view()[k], l.last())
}

/// The outcome of inserting `values` at visible position `pos`.
pub open spec fn seq_insert_result(
    old_doc: LoroDoc,
    new_doc: LoroDoc,
    r: LoroResult<()>,
    c: ContainerIdView,
    t: ContainerType,
    pos: int,
    values: Seq<OpValue>,
) -> bool {
    let vis = visible(seq_state(old_doc.state_log(), c));
    &&& new_doc.peer_view() == old_doc.peer_view()
    &&& new_doc.detached_view() == old_doc.detached_view()
    &&& (r is Err ==> new_doc.log_view() == old_doc.log_view())
    &&& (old_doc.detached_view() is Some ==> r == Err::<(), LoroError>(LoroError::EditWhenDetached))
    &&& (old_doc.detached_view() is None && cid_type(c) != t ==> r == Err::<(), LoroError>(
        LoroError::ContainerTypeMismatch,
    ))
    &&& (old_doc.detached_view() is None && cid_type(c) == t && pos > vis.len() ==> r == Err::<
        (),
        LoroError,
    >(LoroError::OutOfBound))
    &&& (r is Err && old_doc.detached_view() is None && cid_type(c) == t && pos <= vis.len()
        ==> r->Err_0 == LoroError::CounterOverflow)
    &&& (r is Ok ==> appended(
        old_doc,
        new_doc,
        c,
        OpContentView::SeqInsert { origin: seq_origin(vis, pos), values },
    ))
}

/// The outcome of deleting `len` visible elements from position `pos`.
pub open spec fn seq_delete_result(
    old_doc: LoroDoc,
    new_doc: LoroDoc,
    r: LoroResult<()>,
    c: ContainerIdView,
    t: ContainerType,
    pos: int,
    len: int,
) -> bool {
    let vis = visible(seq_state(old_doc.state_log(), c));
    &&& new_doc.peer_view() == old_doc.peer_view()
    &&& new_doc.detached_view() == old_doc.detached_view()
    &&& (r is Err ==> new_doc.log_view() == old_doc.log_view())
    &&& (old_doc.detached_view() is Some ==> r == Err::<(), LoroError>(LoroError::EditWhenDetached))
    &&& (old_doc.detached_view() is None && cid_type(c) != t ==> r == Err::<(), LoroError>(
        LoroError::ContainerTypeMismatch,
    ))
    &&& (old_doc.detached_view() is None && cid_type(c) == t && pos + len > vis.len() ==> r
        == Err::<(), LoroError>(LoroError::OutOfBound))
    &&& (r is Err && old_doc.detached_view() is None && cid_type(c) == t && pos + len <= vis.len()
        ==> r->Err_0 == LoroError::CounterOverflow)
    &&& (r is Ok ==> appended(
        old_doc,
        new_doc,
        c,
        OpContentView::SeqDelete { targets: seq_targets(vis, pos, len) },
    ))
}

/// The outcome of marking the visible characters `start..end` of text `c`.
pub open spec fn mark_result(
    old_doc: LoroDoc,
    new_doc: LoroDoc,
    r: LoroResult<()>,
    c: ContainerIdView,
    start: int,
    end: int,
    key: Seq<char>,
    value: i64,
) -> bool {
    let vis = visible(seq_state(old_doc.state_log(), c));
    let ok_args = old_doc.detached_view() is None && cid_type(c) == ContainerType::Text;
    &&& new_doc.peer_view() == old_doc.peer_view()
    &&& new_doc.detached_view() == old_doc.detached_view()
    &&& (r is Err ==> new_doc.log_view() == old_doc.log_view())
    &&& (old_doc.detached_view() is Some ==> r == Err::<(), LoroError>(LoroError::EditWhenDetached))
    &&& (old_doc.detached_view() is None && cid_type(c) != ContainerType::Text ==> r == Err::<
        (),
        LoroError,
    >(LoroError::ContainerTypeMismatch))
    &&& (ok_args && start >= end ==> r == Err::<(), LoroError>(LoroError::ArgErr))
    &&& (ok_args && start < end && end > vis.len() ==> r == Err::<(), LoroError>(
        LoroError::OutOfBound,
    ))
    &&& (r is Err && ok_args && start < end && end <= vis.len() ==> r->Err_0
        == LoroError::CounterOverflow)
    &&& (r is Ok ==> appended(
        old_doc,
        new_doc,
        c,
        OpContentView::Mark { start: vis[start].id, end: vis[end - 1].id, key, value },
    ))
}

/// Replicas that hold the same ops and show their latest version show the
/// same value: a document's state depends on the set of its ops alone, not
/// on the order in which they arrived.
pub proof fn lemma_replicas_converge(a: LoroDoc, b: LoroDoc)
    requires
        log_wf(a.log_view()),
        log_wf(b.log_view()),
        a.detached_view() is None,
        b.detached_view() is None,
        forall|x: OpView| a.log_view().contains(x) <==> b.log_view().contains(x),
    ensures
        a.log_view() == b.log_view(),
        doc_value(a.state_log()) == doc_value(b.state_log()),
{
    crate::oplog::lemma_sorted_logs_with_same_ops_are_equal(a.log_view(), b.log_view());
}

/// A document checked out at a version shows what a fork of it at that
/// version shows.
pub proof fn lemma_checkout_matches_fork(before: LoroDoc, after: LoroDoc, fork: LoroDoc, vv: Seq<(PeerID, Counter)>)
    requires
        after.log_view() == before.log_view(),
        after.detached_view() == Some(vv),
        fork.log_view() == ops_within(before.log_view(), vv),
        fork.detached_view() is None,
    ensures
        after.state_log() == fork.state_log(),
        doc_value(after.state_log()) == doc_value(fork.state_log()),
{
}


} // verus!
