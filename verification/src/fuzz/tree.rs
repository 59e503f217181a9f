//! The harness over one movable tree: creates, moves, deletes and metadata
//! writes on several replicas, and synchronisation, followed by checks that
//! the replicas agree and that every recorded version reads back as it was.
use vstd::prelude::*;
use crate::common::{
    ContainerID, ContainerIdView, ContainerType, LoroError, LoroValue, LoroValueView, PeerID, ID,
    cid_type, decimal_chars, push_decimal, string_from_chars,
};
use crate::fuzz::sync::{doc_grows, entry_on, lemma_merge_same, merged, recorded_on, sent};
use crate::loro::{LoroDoc, appended, log_wf, move_refusal, next_counter, stamp_overflows};
use crate::oplog::{OpContentView, OpValue, OpView, TreeParent};
use crate::state::doc_value;
use crate::tree::{live_nodes, meta_container, node_alive, node_ids, tree_state};
use crate::version::{VersionVector, log_vv, ops_within};

verus! {

/// An edit of the tree.
#[derive(Debug, Clone, Copy, PartialEq, Eq)]
pub enum TreeAction {
    Create,
    Move,
    Delete,
    Meta,
}

/// One step of a harness run. A tree edit names its node and, for a move,
/// its new parent by (peer, counter); a metadata write uses the parent's
/// peer as key and its counter as value.
#[derive(Debug, Clone, Copy, PartialEq, Eq)]
pub enum Action {
    Tree { site: u8, container_idx: u8, action: TreeAction, target: (u64, i32), parent: (u64, i32) },
    Sync { from: u8, to: u8 },
    SyncAll,
}

/// A value the harness may write.
#[derive(Debug, Clone, Copy, PartialEq, Eq, Structural)]
pub enum FuzzValue {
    Null,
    I32(i32),
    Container(ContainerType),
}

impl FuzzValue {
    /// The value a fuzz value writes; containers are not written as values.
    pub fn to_loro_value(&self) -> (r: LoroValue)
        requires
            !(*self is Container),
        ensures
            *self is Null ==> r@ == LoroValueView::Null,
            *self is I32 ==> r@ == LoroValueView::I64(self->I32_0 as i64),
    {
        match self {
            FuzzValue::Null => LoroValue::Null,
            FuzzValue::I32(i) => LoroValue::I64(*i as i64),
            FuzzValue::Container(_) => vstd::pervasive::unreached(),
        }
    }
}

/// A new replica of peer `id`: its document is empty, has peer `id` and
/// shows its latest version; its tree is the root tree; its history is
/// empty.
pub open spec fn fresh_actor(a: Actor, id: PeerID) -> bool {
    &&& a.peer == id
    &&& a.loro.peer_view() == id
    &&& a.loro.log_view() == Seq::<crate::oplog::OpView>::empty()
    &&& a.loro.detached_view() is None
    &&& a.tree@ == ContainerIdView::Root { name: "tree"@, container_type: ContainerType::Tree }
    &&& a.history@.len() == 0
}

/// One replica, its tree, and the values it showed at recorded versions.
pub struct Actor {
    pub peer: PeerID,
    pub loro: LoroDoc,
    pub tree: ContainerID,
    pub history: Vec<(VersionVector, LoroValue)>,
}

/// The ids of the live nodes of an actor's tree.
pub open spec fn actor_nodes(a: Actor) -> Seq<ID> {
    node_ids(live_nodes(tree_state(a.loro.state_log(), a.tree@)))
}

impl Actor {
    /// A replica with peer id `id` and an empty history.
    pub fn new(id: PeerID) -> (r: Actor)
        ensures
            fresh_actor(r, id),
    {
        let mut loro = LoroDoc::new();
        let _ = loro.set_peer_id(id);
        let tree = ContainerID::new_root("tree", ContainerType::Tree);
        Actor { peer: id, loro, tree, history: Vec::new() }
    }

    /// Records the version of the op log and the value shown there.
    pub fn record_history(&mut self)
        ensures
            final(self).history@.len() == old(self).history@.len() + 1,
            final(self).history@.drop_last() == old(self).history@,
            forall|p: PeerID| #[trigger] final(self).history@.last().0.spec_get(p) as int == log_vv(
                old(self).loro.log_view(),
                p,
            ),
            final(self).history@.last().1@ == doc_value(old(self).loro.state_log()),
            final(self).peer == old(self).peer,
            final(self).loro == old(self).loro,
            final(self).tree == old(self).tree,
    {
        let vv = self.loro.oplog_vv();
        let value = self.loro.get_deep_value();
        self.history.push((vv, value));
        assert(self.history@.drop_last() =~= old(self).history@);
    }
}

/// The index `n` brings a raw choice `x` to among `n` items.
pub open spec fn pick(x: u64, n: int) -> int {
    (x as usize) as int % n
}

/// The sync between `from` and `to` brought into range for `n` replicas:
/// both modulo `n`, and `to` moved to the next replica (wrapping) when it
/// equals `from`.
pub open spec fn sync_in_range(from: u8, to: u8, n: u8) -> Action {
    let f = (from % n) as u8;
    let t = (to % n) as u8;
    if t == f {
        Action::Sync { from: f, to: if t + 1 < n { (t + 1) as u8 } else { 0 } }
    } else {
        Action::Sync { from: f, to: t }
    }
}

/// The (peer, counter) pair of node `i` of `nodes`.
pub open spec fn node_pair(nodes: Seq<ID>, i: int) -> (u64, i32) {
    (nodes[i].peer, nodes[i].counter)
}

/// The action `a` brought into range for the replicas `sites`, as
/// `preprocess` does it: a tree edit on the site modulo the number of
/// replicas and its one tree. With no live node it becomes a create, with
/// one a move or metadata write becomes a create, with 255 or more a
/// create becomes a move. A create targets the site's next local id (its
/// target is kept when the counters would overflow); a move takes its
/// node and its parent at positions `target.0` and `parent.0` modulo the
/// number of live nodes, the parent moved to the next position when they
/// meet; a delete or metadata write takes its node at position `target.0`.
pub open spec fn normalized(sites: Seq<Actor>, a: Action) -> Action {
    let n = sites.len() as u8;
    match a {
        Action::Sync { from, to } => sync_in_range(from, to, n),
        Action::SyncAll => Action::SyncAll,
        Action::Tree { site, container_idx: _, action: kind, target, parent } => {
            let st = (site % n) as u8;
            let x = sites[st as int];
            let nodes = actor_nodes(x);
            let num = nodes.len() as int;
            let k = if num == 0 || (num < 2 && (kind == TreeAction::Move || kind == TreeAction::Meta)) {
                TreeAction::Create
            } else if num >= 255 && kind == TreeAction::Create {
                TreeAction::Move
            } else {
                kind
            };
            match k {
                TreeAction::Create => Action::Tree {
                    site: st,
                    container_idx: 0,
                    action: k,
                    target: if stamp_overflows(x.loro.log_view(), x.loro.peer_view()) {
                        target
                    } else {
                        (x.loro.peer_view(), next_counter(x.loro.log_view(), x.loro.peer_view()) as i32)
                    },
                    parent,
                },
                TreeAction::Move => {
                    let ti = (target.0 as usize) as int % num;
                    let pi0 = (parent.0 as usize) as int % num;
                    let pi = if ti == pi0 {
                        if pi0 + 1 < num {
                            pi0 + 1
                        } else {
                            0
                        }
                    } else {
                        pi0
                    };
                    Action::Tree {
                        site: st,
                        container_idx: 0,
                        action: k,
                        target: node_pair(nodes, ti),
                        parent: node_pair(nodes, pi),
                    }
                },
                _ => Action::Tree {
                    site: st,
                    container_idx: 0,
                    action: k,
                    target: node_pair(nodes, (target.0 as usize) as int % num),
                    parent,
                },
            }
        },
    }
}

/// The action `a` brought into range for `n` new replicas (empty trees):
/// what the first action of a run becomes. Every tree edit becomes a
/// create of the site's first node.
pub open spec fn first_normalized(n: u8, a: Action) -> Action {
    match a {
        Action::Sync { from, to } => sync_in_range(from, to, n),
        Action::SyncAll => Action::SyncAll,
        Action::Tree { site, parent, .. } => Action::Tree {
            site: (site % n) as u8,
            container_idx: 0,
            action: TreeAction::Create,
            target: ((site % n) as u64, 0),
            parent,
        },
    }
}

/// `b` is `a` brought into range for `n` replicas as far as that does not
/// depend on the replicas' contents: a sync as `sync_in_range` says, a sync
/// of all unchanged, a tree edit on the site modulo `n` and its one tree.
pub open spec fn normalized_shape(a: Action, b: Action, n: u8) -> bool {
    match a {
        Action::Sync { from, to } => b == sync_in_range(from, to, n),
        Action::SyncAll => b == Action::SyncAll,
        Action::Tree { site, .. } => b matches Action::Tree { site: s2, container_idx: c2, .. } && s2 == site % n
            && c2 == 0,
    }
}

/// Brings an action into range for the current replicas: sites modulo the
/// number of replicas (a sync never pairs a replica with itself), and a tree
/// edit on live nodes of the site's tree. A tree with no node gets a create;
/// one with a single node gets a create in place of a move or metadata
/// write; one with 255 nodes or more gets a move in place of a create. A
/// move takes two different positions among the live nodes.
/// An action fit to run on `sites`: sites in range (two different ones
/// for a sync), a tree edit on the site's one tree, a create on a tree with
/// fewer than 255 live nodes, a move of one live node under another, a
/// delete of a live node, and a metadata write on a live node of a tree
/// with at least two.
pub open spec fn fit_for(sites: Seq<Actor>, a: Action) -> bool {
    match a {
        Action::Sync { from, to } => from < sites.len() && to < sites.len() && from != to,
        Action::Tree { site, container_idx, action: kind, target, parent } => {
            let nodes = actor_nodes(sites[site as int]);
            &&& site < sites.len()
            &&& container_idx == 0
            &&& match kind {
                TreeAction::Create => nodes.len() < 255,
                TreeAction::Move => nodes.len() >= 2 && exists|i: int, j: int|
                    0 <= i < nodes.len() && 0 <= j < nodes.len() && i != j && nodes[i] == ID {
                        peer: target.0,
                        counter: target.1,
                    } && nodes[j] == ID { peer: parent.0, counter: parent.1 },
                TreeAction::Delete => nodes.contains(ID { peer: target.0, counter: target.1 }),
                TreeAction::Meta => nodes.len() >= 2 && nodes.contains(
                    ID { peer: target.0, counter: target.1 },
                ),
            }
        },
        Action::SyncAll => true,
    }
}

/// A normalized action is fit to run.
#[verifier::spinoff_prover]
proof fn lemma_normalized_fit(sites: Seq<Actor>, a: Action)
    requires
        2 <= sites.len() <= 255,
    ensures
        fit_for(sites, normalized(sites, a)),
{
    let r = normalized(sites, a);
    match a {
        Action::Tree { site, action: kind, target, parent, .. } => {
            let n = sites.len() as u8;
            let st = (site % n) as u8;
            let nodes = actor_nodes(sites[st as int]);
            let num = nodes.len() as int;
            assert(r matches Action::Tree { site: s2, container_idx: c2, .. } && s2 == st && c2 == 0);
            match r {
                Action::Tree { action: k, target: t, parent: p, .. } => {
                    if k == TreeAction::Move {
                        let ti = (target.0 as usize) as int % num;
                        let pi0 = (parent.0 as usize) as int % num;
                        let pi = if ti == pi0 {
                            if pi0 + 1 < num {
                                pi0 + 1
                            } else {
                                0
                            }
                        } else {
                            pi0
                        };
                        assert(nodes[ti] == ID { peer: t.0, counter: t.1 });
                        assert(nodes[pi] == ID { peer: p.0, counter: p.1 });
                        assert(ti != pi);
                    } else if k == TreeAction::Delete || k == TreeAction::Meta {
                        let ti = (target.0 as usize) as int % num;
                        assert(nodes[ti] == ID { peer: t.0, counter: t.1 });
                    }
                },
                _ => {},
            }
        },
        _ => {},
    }
}

pub fn preprocess(sites: &Vec<Actor>, action: &mut Action)
    requires
        2 <= sites@.len() <= 255,
    ensures
        *final(action) == normalized(sites@, *old(action)),
        fit_for(sites@, *final(action)),
{
    let n = sites.len() as u8;
    match *action {
        Action::Sync { from, to } => {
            let f = from % n;
            let mut t = to % n;
            if t == f {
                t = if f + 1 < n {
                    f + 1
                } else {
                    0
                };
            }
            *action = Action::Sync { from: f, to: t };
        },
        Action::SyncAll => {},
        Action::Tree { site, container_idx: _, action: kind, target, parent } => {
            let s = site % n;
            let actor = &sites[s as usize];
            let nodes = actor.loro.tree_nodes(&actor.tree);
            let tree_num = nodes.len();
            assert(nodes@ == actor_nodes(sites@[s as int]));
            let mut kind = kind;
            let is_move_or_meta = match kind {
                TreeAction::Move | TreeAction::Meta => true,
                _ => false,
            };
            let is_create = match kind {
                TreeAction::Create => true,
                _ => false,
            };
            if tree_num == 0 || (tree_num < 2 && is_move_or_meta) {
                kind = TreeAction::Create;
            } else if tree_num >= 255 && is_create {
                kind = TreeAction::Move;
            }
            let mut target = target;
            let mut parent = parent;
            match kind {
                TreeAction::Create => {
                    match actor.loro.next_id() {
                        Ok(id) => {
                            target = (id.peer, id.counter);
                        },
                        Err(_) => {},
                    }
                },
                TreeAction::Move => {
                    let target_idx = (target.0 as usize) % tree_num;
                    let mut parent_idx = (parent.0 as usize) % tree_num;
                    if target_idx == parent_idx {
                        parent_idx = if parent_idx + 1 < tree_num {
                            parent_idx + 1
                        } else {
                            0
                        };
                    }
                    target = (nodes[target_idx].peer, nodes[target_idx].counter);
                    parent = (nodes[parent_idx].peer, nodes[parent_idx].counter);
                    proof {
                        assert(target == node_pair(nodes@, target_idx as int));
                        assert(parent == node_pair(nodes@, parent_idx as int));
                    }
                },
                TreeAction::Delete | TreeAction::Meta => {
                    let target_idx = (target.0 as usize) % tree_num;
                    target = (nodes[target_idx].peer, nodes[target_idx].counter);
                    proof {
                        assert(target == node_pair(nodes@, target_idx as int));
                    }
                },
            }
            *action = Action::Tree { site: s, container_idx: 0, action: kind, target, parent };
        },
    }
    proof {
        lemma_normalized_fit(sites@, *old(action));
    }
}

/// `y` is `x` but for its document.
pub open spec fn same_but_doc(y: Actor, x: Actor) -> bool {
    &&& y.peer == x.peer
    &&& y.tree == x.tree
    &&& y.history == x.history
}

/// Exchanges updates between sites `a` and `b` in both directions, as
/// updates since the other's version or as whole snapshots: `a` merges
/// what `b` sends it, then `b` merges what `a` then sends it. The imports
/// always succeed.
fn exchange(sites: &mut Vec<Actor>, a: usize, b: usize, snapshot: bool) -> (ok: bool)
    requires
        a < old(sites)@.len(),
        b < old(sites)@.len(),
    ensures
        ok,
        final(sites)@.len() == old(sites)@.len(),
        forall|q: int| 0 <= q < old(sites)@.len() && q != a && q != b ==> #[trigger] final(sites)@[q] == old(sites)@[q],
        same_but_doc(final(sites)@[a as int], old(sites)@[a as int]),
        same_but_doc(final(sites)@[b as int], old(sites)@[b as int]),
        a != b ==> merged(
            old(sites)@[a as int].loro,
            final(sites)@[a as int].loro,
            sent(old(sites)@[a as int].loro, old(sites)@[b as int].loro, snapshot),
        ),
        a != b ==> merged(
            old(sites)@[b as int].loro,
            final(sites)@[b as int].loro,
            sent(old(sites)@[b as int].loro, final(sites)@[a as int].loro, snapshot),
        ),
        a == b ==> doc_grows(old(sites)@[a as int].loro, final(sites)@[a as int].loro),
{
    let ghost da = sites@[a as int].loro;
    let ghost db = sites@[b as int].loro;
    let updates_for_a = if snapshot {
        sites[b].loro.export_snapshot()
    } else {
        let vv = sites[a].loro.oplog_vv();
        let u = sites[b].loro.export_from(&vv);
        proof {
            assert forall|p: PeerID| crate::version::vv_lookup(vv.entries@, p) as int == log_vv(da.log_view(), p) by {
                assert(vv.spec_get(p) as int == log_vv(da.log_view(), p));
            }
            crate::version::lemma_ops_beyond_above(db.log_view(), vv.entries@, da.log_view());
        }
        u
    };
    assert(crate::oplog::ops_view(updates_for_a@) == sent(da, db, snapshot));
    let ok_a = sites[a].loro.import(&updates_for_a).is_ok();
    let ghost ma = sites@[a as int].loro;
    let ghost mb = sites@[b as int].loro;
    let updates_for_b = if snapshot {
        sites[a].loro.export_snapshot()
    } else {
        let vv = sites[b].loro.oplog_vv();
        let u = sites[a].loro.export_from(&vv);
        proof {
            assert forall|p: PeerID| crate::version::vv_lookup(vv.entries@, p) as int == log_vv(mb.log_view(), p) by {
                assert(vv.spec_get(p) as int == log_vv(mb.log_view(), p));
            }
            crate::version::lemma_ops_beyond_above(ma.log_view(), vv.entries@, mb.log_view());
        }
        u
    };
    assert(crate::oplog::ops_view(updates_for_b@) == sent(mb, ma, snapshot));
    let ok_b = sites[b].loro.import(&updates_for_b).is_ok();
    ok_a && ok_b
}

/// The key a metadata write uses: the decimal text of a peer id.
pub fn peer_key(peer: u64) -> (r: String)
    ensures
        r@ == decimal_chars(peer as nat),
{
    let mut chars: Vec<char> = Vec::new();
    push_decimal(&mut chars, peer);
    assert(chars@ =~= decimal_chars(peer as nat));
    string_from_chars(&chars)
}

/// The container and content of the op a tree edit appends: a create of
/// the node named by the next local id at the top level, a move of
/// `target` under `parent`, a delete of `target`, or a write, in the
/// metadata map of `target`, of the parent's counter under the decimal text
/// of the parent's peer.
pub open spec fn tree_edit_op(
    doc: LoroDoc,
    tree: ContainerIdView,
    kind: TreeAction,
    target: (u64, i32),
    parent: (u64, i32),
) -> (ContainerIdView, OpContentView) {
    let t = ID { peer: target.0, counter: target.1 };
    match kind {
        TreeAction::Create => (tree, OpContentView::TreeMove {
            target: ID {
                peer: doc.peer_view(),
                counter: next_counter(doc.log_view(), doc.peer_view()) as i32,
            },
            parent: TreeParent::Root,
        }),
        TreeAction::Move => (tree, OpContentView::TreeMove {
            target: t,
            parent: TreeParent::Node(ID { peer: parent.0, counter: parent.1 }),
        }),
        TreeAction::Delete => (tree, OpContentView::TreeMove { target: t, parent: TreeParent::Deleted }),
        TreeAction::Meta => (meta_container(t), OpContentView::MapSet {
            key: decimal_chars(parent.0 as nat),
            value: Some(OpValue::I64(parent.1 as i64)),
        }),
    }
}

/// What a tree edit of `tree` did to a document, and whether it went
/// through: the peer and the version shown are kept; an edit that went
/// through appended its op, or, for a move that would make a node its own
/// ancestor, left the log as it was; one that did not left the log as it
/// was. An edit on a detached document or of a container that is no tree
/// fails; a move whose nodes are not both live fails, and a cyclic one goes
/// through; a delete or metadata write of a node that is not live fails; a
/// create goes through unless the local counter would overflow.
pub open spec fn tree_edit_result(
    old_doc: LoroDoc,
    new_doc: LoroDoc,
    tree: ContainerIdView,
    kind: TreeAction,
    target: (u64, i32),
    parent: (u64, i32),
    ok: bool,
) -> bool {
    let t = ID { peer: target.0, counter: target.1 };
    let p = ID { peer: parent.0, counter: parent.1 };
    let s = tree_state(old_doc.state_log(), tree);
    let op = tree_edit_op(old_doc, tree, kind, target, parent);
    let attached_tree = old_doc.detached_view() is None && cid_type(tree) == ContainerType::Tree;
    &&& new_doc.peer_view() == old_doc.peer_view()
    &&& new_doc.detached_view() == old_doc.detached_view()
    &&& (!ok ==> new_doc.log_view() == old_doc.log_view())
    &&& (ok ==> appended(old_doc, new_doc, op.0, op.1) || (kind == TreeAction::Move
        && new_doc.log_view() == old_doc.log_view() && attached_tree && move_refusal(s, t, p) == Some(
        LoroError::CyclicMoveError,
    )))
    &&& (!attached_tree ==> !ok)
    &&& (attached_tree ==> match kind {
        TreeAction::Create => ok == !stamp_overflows(old_doc.log_view(), old_doc.peer_view()),
        TreeAction::Move => (move_refusal(s, t, p) == Some(LoroError::TreeNodeNotExist) ==> !ok)
            && (move_refusal(s, t, p) == Some(LoroError::CyclicMoveError) ==> ok
            && new_doc.log_view() == old_doc.log_view()),
        TreeAction::Delete | TreeAction::Meta => !node_alive(s, t) ==> !ok,
    })
}

/// Applies one tree edit on `doc`. A move refused because it would make a
/// node its own ancestor is accepted as a no-op; any other refusal is a
/// failure. Returns whether the edit went through.
pub fn apply_tree_edit(
    doc: &mut LoroDoc,
    tree: &ContainerID,
    kind: TreeAction,
    target: (u64, i32),
    parent: (u64, i32),
) -> (ok: bool)
    ensures
        tree_edit_result(*old(doc), *final(doc), tree@, kind, target, parent, ok),
{
    let target_id = ID { peer: target.0, counter: target.1 };
    match kind {
        TreeAction::Create => doc.tree_create(tree).is_ok(),
        TreeAction::Move => {
            let parent_id = ID { peer: parent.0, counter: parent.1 };
            match doc.tree_move(tree, target_id, parent_id) {
                Ok(()) => true,
                Err(e) => e == LoroError::CyclicMoveError,
            }
        },
        TreeAction::Delete => doc.tree_delete(tree, target_id).is_ok(),
        TreeAction::Meta => {
            let key = peer_key(parent.0);
            match doc.tree_get_meta(tree, target_id) {
                Ok(meta) => doc.map_insert(&meta, key.as_str(), parent.1 as i64).is_ok(),
                Err(_) => false,
            }
        },
    }
}

/// `y` is `x` later on: the same peer and tree, every op of `x`'s document
/// kept, the same peer and version shown, and `x`'s history as the start of
/// `y`'s.
pub open spec fn site_grows(x: Actor, y: Actor) -> bool {
    &&& y.peer == x.peer
    &&& y.tree == x.tree
    &&& doc_grows(x.loro, y.loro)
    &&& x.history@.len() <= y.history@.len()
    &&& y.history@.subrange(0, x.history@.len() as int) == x.history@
}

proof fn lemma_site_grows_refl(x: Actor)
    ensures
        site_grows(x, x),
{
    assert(x.history@.subrange(0, x.history@.len() as int) =~= x.history@);
}

proof fn lemma_site_grows_trans(x: Actor, y: Actor, z: Actor)
    requires
        site_grows(x, y),
        site_grows(y, z),
    ensures
        site_grows(x, z),
{
    assert(z.history@.subrange(0, x.history@.len() as int) =~= y.history@.subrange(0, x.history@.len() as int));
}

proof fn lemma_tree_edit_grows(
    old_doc: LoroDoc,
    new_doc: LoroDoc,
    tree: ContainerIdView,
    kind: TreeAction,
    target: (u64, i32),
    parent: (u64, i32),
    ok: bool,
)
    requires
        tree_edit_result(old_doc, new_doc, tree, kind, target, parent, ok),
    ensures
        doc_grows(old_doc, new_doc),
{
    assert forall|x: crate::oplog::OpView| old_doc.log_view().contains(x) implies new_doc.log_view().contains(x) by {
        if new_doc.log_view() != old_doc.log_view() {
            let k = choose|k: int| 0 <= k < old_doc.log_view().len() && old_doc.log_view()[k] == x;
            assert(new_doc.log_view().drop_last()[k] == x);
            assert(new_doc.log_view()[k] == x);
        }
    }
}

/// Applies one (preprocessed) action. Every replica keeps its peer, its
/// tree, its ops, the version it shows and its history. A sync touches only
/// its two replicas: `from` merges the ops past its version that `to` sends
/// it, then `to` merges those that `from` then sends it; like a sync of all,
/// it always succeeds. A tree edit touches only its replica, whose document
/// it changes as the edit does, and succeeds when the edit does. Site 1
/// records its value after each action that touched it.
pub fn apply_action(sites: &mut Vec<Actor>, action: &Action) -> (ok: bool)
    requires
        old(sites)@.len() >= 2,
        match *action {
            Action::Sync { from, to } => from < old(sites)@.len() && to < old(sites)@.len(),
            Action::Tree { site, .. } => site < old(sites)@.len(),
            Action::SyncAll => true,
        },
    ensures
        final(sites)@.len() == old(sites)@.len(),
        forall|q: int| 0 <= q < old(sites)@.len() ==> site_grows(old(sites)@[q], #[trigger] final(sites)@[q]),
        match *action {
            Action::Sync { from, to } => {
                &&& ok
                &&& forall|q: int|
                    0 <= q < old(sites)@.len() && q != from && q != to ==> #[trigger] final(sites)@[q] == old(sites)@[q]
                &&& from != to ==> merged(
                    old(sites)@[from as int].loro,
                    final(sites)@[from as int].loro,
                    sent(old(sites)@[from as int].loro, old(sites)@[to as int].loro, false),
                )
                &&& from != to ==> merged(
                    old(sites)@[to as int].loro,
                    final(sites)@[to as int].loro,
                    sent(old(sites)@[to as int].loro, final(sites)@[from as int].loro, false),
                )
                &&& final(sites)@[from as int].history@.len() == old(sites)@[from as int].history@.len() + (
                if old(sites)@[from as int].peer == 1 {
                    1int
                } else {
                    0int
                })
                &&& from != to ==> final(sites)@[to as int].history == old(sites)@[to as int].history
            },
            Action::SyncAll => {
                &&& ok
                &&& final(sites)@[1].history@.len() == old(sites)@[1].history@.len() + 1
                &&& forall|q: int| 0 <= q < old(sites)@.len() && q != 1 ==> #[trigger] final(sites)@[q].history
                    == old(sites)@[q].history
            },
            Action::Tree { site, container_idx: _, action: kind, target, parent } => tree_edit_result(
                old(sites)@[site as int].loro,
                final(sites)@[site as int].loro,
                old(sites)@[site as int].tree@,
                kind,
                target,
                parent,
                ok,
            ) && (forall|q: int| 0 <= q < old(sites)@.len() && q != site ==> #[trigger] final(sites)@[q] == old(sites)@[q])
                && final(sites)@[site as int].history@.len() == old(sites)@[site as int].history@.len() + (
            if old(sites)@[site as int].peer == 1 {
                1int
            } else {
                0int
            }),
        },
{
    match *action {
        Action::Sync { from, to } => {
            let a = from as usize;
            let b = to as usize;
            let ok = exchange(sites, a, b, false);
            let ghost s1 = sites@;
            if sites[a].peer == 1 {
                sites[a].record_history();
            }
            proof {
                assert forall|q: int| 0 <= q < s1.len() implies site_grows(old(sites)@[q], #[trigger] sites@[q]) by {
                    lemma_site_grows_refl(s1[q]);
                    if q == a || q == b {
                        assert(doc_grows(old(sites)@[q].loro, s1[q].loro));
                        assert(site_grows(old(sites)@[q], s1[q]));
                    } else {
                        assert(s1[q] == old(sites)@[q]);
                    }
                    assert(sites@[q].history@.subrange(0, s1[q].history@.len() as int) =~= s1[q].history@);
                    assert(site_grows(s1[q], sites@[q]));
                    lemma_site_grows_trans(old(sites)@[q], s1[q], sites@[q]);
                }
                assert forall|q: int| 0 <= q < old(sites)@.len() && q != from && q != to implies #[trigger] sites@[q] == old(sites)@[q] by {
                    assert(s1[q] == old(sites)@[q]);
                }
            }
            ok
        },
        Action::SyncAll => {
            let mut ok = true;
            let n = sites.len();
            proof {
                assert forall|q: int| 0 <= q < n implies site_grows(old(sites)@[q], #[trigger] sites@[q]) by {
                    lemma_site_grows_refl(sites@[q]);
                }
            }
            let mut i: usize = 1;
            while i < n
                invariant
                    1 <= i <= n,
                    sites@.len() == n,
                    n >= 2,
                    n == old(sites)@.len(),
                    ok,
                    forall|q: int| 0 <= q < n ==> site_grows(old(sites)@[q], #[trigger] sites@[q]),
                    forall|q: int| 0 <= q < n ==> #[trigger] sites@[q].history == old(sites)@[q].history,
                decreases n - i,
            {
                let ghost s0 = sites@;
                let vv = sites[0].loro.oplog_vv();
                let updates = sites[i].loro.export_from(&vv);
                if sites[0].loro.import(&updates).is_err() {
                    ok = false;
                }
                proof {
                    assert forall|q: int| 0 <= q < n implies site_grows(old(sites)@[q], #[trigger] sites@[q]) by {
                        lemma_site_grows_refl(s0[q]);
                        if q == 0 {
                            assert(sites@[q].history == s0[q].history);
                            assert(site_grows(s0[q], sites@[q]));
                            lemma_site_grows_trans(old(sites)@[q], s0[q], sites@[q]);
                        } else {
                            assert(sites@[q] == s0[q]);
                        }
                    }
                }
                i += 1;
            }
            let mut i: usize = 1;
            while i < n
                invariant
                    1 <= i <= n,
                    sites@.len() == n,
                    n >= 2,
                    n == old(sites)@.len(),
                    ok,
                    forall|q: int| 0 <= q < n ==> site_grows(old(sites)@[q], #[trigger] sites@[q]),
                    forall|q: int| 0 <= q < n ==> #[trigger] sites@[q].history == old(sites)@[q].history,
                decreases n - i,
            {
                let ghost s0 = sites@;
                let vv = sites[i].loro.oplog_vv();
                let updates = sites[0].loro.export_from(&vv);
                if sites[i].loro.import(&updates).is_err() {
                    ok = false;
                }
                proof {
                    assert forall|q: int| 0 <= q < n implies site_grows(old(sites)@[q], #[trigger] sites@[q]) by {
                        lemma_site_grows_refl(s0[q]);
                        if q == i {
                            assert(sites@[q].history == s0[q].history);
                            assert(site_grows(s0[q], sites@[q]));
                            lemma_site_grows_trans(old(sites)@[q], s0[q], sites@[q]);
                        } else {
                            assert(sites@[q] == s0[q]);
                        }
                    }
                }
                i += 1;
            }
            let ghost s2 = sites@;
            sites[1].record_history();
            proof {
                assert forall|q: int| 0 <= q < n implies site_grows(old(sites)@[q], #[trigger] sites@[q]) by {
                    assert(sites@[q].history@.subrange(0, s2[q].history@.len() as int) =~= s2[q].history@);
                    lemma_site_grows_refl(s2[q]);
                    assert(site_grows(s2[q], sites@[q]));
                    lemma_site_grows_trans(old(sites)@[q], s2[q], sites@[q]);
                }
            }
            ok
        },
        Action::Tree { site, container_idx: _, action: kind, target, parent } => {
            let s = site as usize;
            let tree = sites[s].tree.duplicate();
            let ok = apply_tree_edit(&mut sites[s].loro, &tree, kind, target, parent);
            let ghost s1 = sites@;
            if sites[s].peer == 1 {
                sites[s].record_history();
            }
            proof {
                let d0 = old(sites)@[s as int].loro;
                lemma_tree_edit_grows(d0, s1[s as int].loro, tree@, kind, target, parent, ok);
                assert forall|q: int| 0 <= q < old(sites)@.len() implies site_grows(old(sites)@[q], #[trigger] sites@[q]) by {
                    if q == s as int {
                        assert(sites@[q].history@.subrange(0, old(sites)@[q].history@.len() as int) =~= old(sites)@[q].history@);
                        assert(site_grows(old(sites)@[q], sites@[q]));
                    } else {
                        assert(sites@[q] == old(sites)@[q]);
                        lemma_site_grows_refl(sites@[q]);
                    }
                }
            }
            ok
        },
    }
}

/// Whether two replicas show the same value.
fn check_eq(a: &Actor, b: &Actor) -> (r: bool)
    ensures
        r == (doc_value(a.loro.state_log()) == doc_value(b.loro.state_log())),
{
    let va = a.loro.get_deep_value();
    let vb = b.loro.get_deep_value();
    va.equals(&vb)
}

/// Every replica holds the log `log` and shows its latest version.
pub open spec fn all_hold(sites: Seq<Actor>, log: Seq<OpView>) -> bool {
    forall|q: int|
        0 <= q < sites.len() ==> (#[trigger] sites[q]).loro.log_view() == log && sites[q].loro.detached_view()
            is None
}

/// How many values site 1 has recorded once every pair of replicas before
/// `(i, j)` (pairs taken as `i < j`, in order) was synchronised, with `n`
/// replicas: one after each synchronisation it took part in.
spec fn synced_records(n: int, i: int, j: int) -> int {
    if i == 0 {
        if j > 1 {
            1
        } else {
            0
        }
    } else if i == 1 {
        j - 1
    } else {
        n - 1
    }
}

/// Synchronises every pair of replicas (by updates or by snapshots, in
/// turn) and checks that each pair then shows the same value. Every replica
/// keeps what it had and its history grows; when every check held, the last
/// two replicas show the same value.
/// Replicas that already hold one well-formed log keep it, every check
/// holds, and each value site 1 records is that log's.
fn check_synced(sites: &mut Vec<Actor>) -> (ok: bool)
    requires
        old(sites)@.len() >= 2,
    ensures
        final(sites)@.len() == old(sites)@.len(),
        forall|q: int| 0 <= q < old(sites)@.len() ==> site_grows(old(sites)@[q], #[trigger] final(sites)@[q]),
        final(sites)@[1].history@.len() == old(sites)@[1].history@.len() + old(sites)@.len() - 1,
        forall|q: int| 0 <= q < old(sites)@.len() && q != 1 ==> #[trigger] final(sites)@[q].history@.len()
            == old(sites)@[q].history@.len(),
        ok ==> doc_value(final(sites)@[final(sites)@.len() - 2].loro.state_log()) == doc_value(
            final(sites)@[final(sites)@.len() - 1].loro.state_log(),
        ),
        all_hold(old(sites)@, old(sites)@[0].loro.log_view()) && log_wf(old(sites)@[0].loro.log_view()) ==> ok
            && all_hold(final(sites)@, old(sites)@[0].loro.log_view()) && recorded_on(
            final(sites)@[1].history@,
            old(sites)@[1].history@.len() as int,
            old(sites)@[0].loro.log_view(),
        ),
{
    let n = sites.len();
    let mut ok = true;
    let mut i: usize = 0;
    let ghost l0 = sites@[0].loro.log_view();
    let ghost agree = all_hold(sites@, l0) && log_wf(l0);
    let ghost h1 = sites@[1].history@.len() as int;
    proof {
        assert forall|q: int| 0 <= q < n implies site_grows(old(sites)@[q], #[trigger] sites@[q]) by {
            lemma_site_grows_refl(sites@[q]);
        }
    }
    while i < n - 1
        invariant
            sites@.len() == n,
            n == old(sites)@.len(),
            n >= 2,
            i <= n - 1,
            forall|q: int| 0 <= q < n ==> site_grows(old(sites)@[q], #[trigger] sites@[q]),
            sites@[1].history@.len() == old(sites)@[1].history@.len() + synced_records(n as int, i as int, i + 1),
            forall|q: int| 0 <= q < n && q != 1 ==> #[trigger] sites@[q].history@.len() == old(sites)@[q].history@.len(),
            agree == (all_hold(old(sites)@, l0) && log_wf(l0)),
            l0 == old(sites)@[0].loro.log_view(),
            h1 == old(sites)@[1].history@.len(),
            agree ==> ok && all_hold(sites@, l0) && recorded_on(sites@[1].history@, h1, l0),
            i > 0 && ok ==> doc_value(sites@[i - 1].loro.state_log()) == doc_value(sites@[n - 1].loro.state_log()),
        decreases n - 1 - i,
    {
        let mut j: usize = i + 1;
        while j < n
            invariant
                sites@.len() == n,
                n == old(sites)@.len(),
                n >= 2,
                i < n - 1,
                i + 1 <= j <= n,
                forall|q: int| 0 <= q < n ==> site_grows(old(sites)@[q], #[trigger] sites@[q]),
                sites@[1].history@.len() == old(sites)@[1].history@.len() + synced_records(n as int, i as int, j as int),
                forall|q: int| 0 <= q < n && q != 1 ==> #[trigger] sites@[q].history@.len() == old(sites)@[q].history@.len(),
                agree == (all_hold(old(sites)@, l0) && log_wf(l0)),
                l0 == old(sites)@[0].loro.log_view(),
                h1 == old(sites)@[1].history@.len(),
                agree ==> ok && all_hold(sites@, l0) && recorded_on(sites@[1].history@, h1, l0),
                j > i + 1 && ok ==> doc_value(sites@[i as int].loro.state_log()) == doc_value(
                    sites@[j - 1].loro.state_log(),
                ),
            decreases n - j,
        {
            let ghost before = sites@;
            let snapshot = i % 2 != j % 2;
            if !exchange(sites, i, j, snapshot) {
                ok = false;
            }
            proof {
                if agree {
                    lemma_merge_same(before[i as int].loro, sites@[i as int].loro, before[j as int].loro, snapshot);
                    lemma_merge_same(before[j as int].loro, sites@[j as int].loro, sites@[i as int].loro, snapshot);
                    assert forall|q: int| 0 <= q < n implies (#[trigger] sites@[q]).loro.log_view() == l0
                        && sites@[q].loro.detached_view() is None by {
                        if q != i && q != j {
                            assert(sites@[q] == before[q]);
                        }
                    }
                    assert(sites@[1].history == before[1].history);
                }
            }
            proof {
                assert forall|q: int| 0 <= q < n implies site_grows(old(sites)@[q], #[trigger] sites@[q]) by {
                    if q == i as int || q == j as int {
                        assert(doc_grows(before[q].loro, sites@[q].loro));
                        lemma_site_grows_refl(sites@[q]);
                        assert(site_grows(before[q], sites@[q]));
                        lemma_site_grows_trans(old(sites)@[q], before[q], sites@[q]);
                    } else {
                        assert(sites@[q] == before[q]);
                    }
                }
            }
            if !check_eq(&sites[i], &sites[j]) {
                ok = false;
            }
            let ghost mid = sites@;
            if i == 1 {
                sites[i].record_history();
            }
            if j == 1 {
                sites[j].record_history();
            }
            proof {
                if agree {
                    assert forall|q: int| 0 <= q < n implies (#[trigger] sites@[q]).loro.log_view() == l0
                        && sites@[q].loro.detached_view() is None by {
                        assert(sites@[q].loro == mid[q].loro);
                    }
                    assert forall|k: int| h1 <= k < sites@[1].history@.len() implies #[trigger] entry_on(
                        sites@[1].history@[k],
                        l0,
                    ) by {
                        if k < mid[1].history@.len() {
                            assert(sites@[1].history@[k] == mid[1].history@[k]);
                        }
                    }
                }
                assert forall|q: int| 0 <= q < n implies site_grows(old(sites)@[q], #[trigger] sites@[q]) by {
                    assert(sites@[q].history@.subrange(0, mid[q].history@.len() as int) =~= mid[q].history@);
                    assert(site_grows(mid[q], sites@[q]));
                    lemma_site_grows_trans(old(sites)@[q], mid[q], sites@[q]);
                }
                assert(sites@[i as int].loro == mid[i as int].loro);
                assert(sites@[j as int].loro == mid[j as int].loro);
            }
            j += 1;
        }
        i += 1;
    }
    ok
}

/// The value recorded as entry `i` of the history is the value the
/// document shows at that entry's version.
pub open spec fn history_entry_holds(a: Actor, i: int) -> bool {
    a.history@[i].1@ == doc_value(ops_within(a.loro.log_view(), a.history@[i].0.entries@))
}

/// Checks out every recorded version and compares the value shown with the
/// value recorded then. A replica with no recorded version fails.
fn check_history(actor: &mut Actor) -> (ok: bool)
    ensures
        ok == (old(actor).history@.len() > 0 && forall|i: int|
            0 <= i < old(actor).history@.len() ==> #[trigger] history_entry_holds(*old(actor), i)),
        same_but_doc(*final(actor), *old(actor)),
        final(actor).loro.log_view() == old(actor).loro.log_view(),
        final(actor).loro.peer_view() == old(actor).loro.peer_view(),
{
    if actor.history.len() == 0 {
        return false;
    }
    let mut ok = true;
    let mut i: usize = 0;
    while i < actor.history.len()
        invariant
            i <= actor.history@.len(),
            same_but_doc(*actor, *old(actor)),
            actor.loro.log_view() == old(actor).loro.log_view(),
            actor.loro.peer_view() == old(actor).loro.peer_view(),
            ok == forall|j: int| 0 <= j < i ==> #[trigger] history_entry_holds(*old(actor), j),
        decreases actor.history.len() - i,
    {
        let _ = actor.loro.checkout(&actor.history[i].0);
        let actual = actor.loro.get_deep_value();
        if !actor.history[i].1.equals(&actual) {
            ok = false;
        }
        proof {
            assert(history_entry_holds(*old(actor), i as int) == (actor.history@[i as int].1@ == actual@));
        }
        i += 1;
    }
    ok
}

/// An action that names only replicas below `n` (two different ones for a
/// sync) and, for a tree edit, the replica's one tree.
pub open spec fn action_in_range(a: Action, n: int) -> bool {
    match a {
        Action::Sync { from, to } => from < n && to < n && from != to,
        Action::Tree { site, container_idx, .. } => site < n && container_idx == 0,
        Action::SyncAll => true,
    }
}

/// On new replicas an action is brought into range as `first_normalized`
/// says.
proof fn lemma_first_normalized(sites: Seq<Actor>, a: Action)
    requires
        2 <= sites.len() <= 255,
        forall|q: int| 0 <= q < sites.len() ==> fresh_actor(#[trigger] sites[q], q as PeerID),
    ensures
        normalized(sites, a) == first_normalized(sites.len() as u8, a),
{
    match a {
        Action::Tree { site, .. } => {
            let st = (site % (sites.len() as u8)) as u8;
            assert(fresh_actor(sites[st as int], st as PeerID));
            assert(actor_nodes(sites[st as int]).len() == 0);
        },
        _ => {},
    }
}

/// Runs the actions on `site_num` replicas, then synchronises all of them
/// and checks convergence and the history of site 1. Returns whether every
/// step succeeded and every check held.
/// Each action is left as it was run, brought into range of the replicas
/// (`normalized_shape`; the first exactly as `first_normalized` says). With
/// no action, the new replicas sync, agree and replay their history, and
/// the result is true.
pub fn test_multi_sites(site_num: u8, actions: &mut [Action]) -> (ok: bool)
    requires
        site_num >= 2,
    ensures
        final(actions)@.len() == old(actions)@.len(),
        forall|k: int| 0 <= k < final(actions)@.len() ==> action_in_range(#[trigger] final(actions)@[k], site_num as int),
        forall|k: int| 0 <= k < final(actions)@.len() ==> normalized_shape(
            old(actions)@[k],
            #[trigger] final(actions)@[k],
            site_num,
        ),
        old(actions)@.len() > 0 ==> final(actions)@[0] == first_normalized(site_num, old(actions)@[0]),
        old(actions)@.len() == 0 ==> ok,
{
    let mut sites: Vec<Actor> = Vec::new();
    let mut i: u8 = 0;
    while i < site_num
        invariant
            i <= site_num,
            sites@.len() == i,
            forall|q: int| 0 <= q < i ==> fresh_actor(#[trigger] sites@[q], q as PeerID),
        decreases site_num - i,
    {
        sites.push(Actor::new(i as u64));
        i += 1;
    }
    let mut ok = true;
    let mut k: usize = 0;
    while k < actions.len()
        invariant
            sites@.len() == site_num,
            site_num >= 2,
            k <= actions@.len(),
            actions@.len() == old(actions)@.len(),
            forall|j: int| 0 <= j < k ==> action_in_range(#[trigger] actions@[j], site_num as int),
            forall|j: int| 0 <= j < k ==> normalized_shape(old(actions)@[j], #[trigger] actions@[j], site_num),
            forall|j: int| k <= j < actions@.len() ==> #[trigger] actions@[j] == old(actions)@[j],
            k == 0 ==> ok && forall|q: int| 0 <= q < site_num ==> fresh_actor(#[trigger] sites@[q], q as PeerID),
            k > 0 && old(actions)@.len() > 0 ==> actions@[0] == first_normalized(site_num, old(actions)@[0]),
        decreases actions.len() - k,
    {
        let mut action = actions[k];
        proof {
            if k == 0 {
                lemma_first_normalized(sites@, old(actions)@[0]);
            }
        }
        preprocess(&sites, &mut action);
        actions[k] = action;
        if !apply_action(&mut sites, &action) {
            ok = false;
        }
        k += 1;
    }
    proof {
        if old(actions)@.len() == 0 {
            assert forall|q: int| 0 <= q < sites@.len() implies (#[trigger] sites@[q]).loro.log_view() == sites@[0].loro.log_view()
                && sites@[q].loro.detached_view() is None by {
                assert(fresh_actor(sites@[q], q as PeerID));
                assert(fresh_actor(sites@[0], 0 as PeerID));
            }
            assert(fresh_actor(sites@[0], 0 as PeerID));
            assert(fresh_actor(sites@[1], 1 as PeerID));
        }
    }
    let ghost before_sync = sites@;
    if !check_synced(&mut sites) {
        ok = false;
    }
    proof {
        if old(actions)@.len() == 0 {
            let l0 = before_sync[0].loro.log_view();
            let h = sites@[1].history@;
            assert forall|i: int| 0 <= i < h.len() implies #[trigger] history_entry_holds(sites@[1], i) by {
                assert(entry_on(h[i], l0));
                assert(ops_within(sites@[1].loro.log_view(), h[i].0.entries@) =~= Seq::<OpView>::empty());
            }
        }
    }
    if !check_history(&mut sites[1]) {
        ok = false;
    }
    ok
}

} // verus!
