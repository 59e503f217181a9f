//! The movable tree: its nodes and their parents as a function of the op
//! log. Every node is created and moved by tree-move ops; a move that would
//! make a node its own ancestor, or that names a parent not in the tree, is
//! skipped when the log is replayed. A node is alive while the chain of its
//! parents reaches the root without passing a deleted node.
use vstd::prelude::*;
use crate::common::{ContainerID, ContainerIdView, PeerID, ID, decimal_chars, push_decimal};
use crate::oplog::{Op, OpContent, OpContentView, OpView, TreeParent, ops_view};

verus! {

/// A node of the tree and where it hangs.
#[derive(Debug, Clone, Copy, PartialEq, Eq, Structural)]
pub struct TreeNode {
    pub id: ID,
    pub parent: TreeParent,
}

/// The index of the node with the given id, or -1.
pub open spec fn node_index(s: Seq<TreeNode>, id: ID) -> int
    decreases s.len(),
{
    if s.len() == 0 {
        -1
    } else if s[0].id == id {
        0
    } else {
        let r = node_index(s.drop_first(), id);
        if r < 0 {
            -1
        } else {
            r + 1
        }
    }
}

pub proof fn lemma_node_index(s: Seq<TreeNode>, id: ID, i: int)
    requires
        0 <= i <= s.len(),
        forall|k: int| 0 <= k < i ==> s[k].id != id,
        i < s.len() ==> s[i].id == id,
    ensures
        node_index(s, id) == (if i < s.len() { i } else { -1 }),
    decreases s.len(),
{
    if s.len() > 0 && i > 0 {
        let t = s.drop_first();
        assert forall|k: int| 0 <= k < i - 1 implies t[k].id != id by {
            assert(t[k] == s[k + 1]);
        }
        lemma_node_index(t, id, i - 1);
    }
}

/// The index found is the first node with that id.
pub proof fn lemma_node_index_found(s: Seq<TreeNode>, id: ID)
    ensures
        -1 <= node_index(s, id) < s.len(),
        node_index(s, id) >= 0 ==> s[node_index(s, id)].id == id,
        node_index(s, id) >= 0 ==> forall|k: int| 0 <= k < node_index(s, id) ==> s[k].id != id,
        node_index(s, id) < 0 ==> forall|k: int| 0 <= k < s.len() ==> s[k].id != id,
    decreases s.len(),
{
    if s.len() > 0 && s[0].id != id {
        let t = s.drop_first();
        lemma_node_index_found(t, id);
        assert forall|k: int| 1 <= k < s.len() implies s[k] == t[k - 1] by {}
    }
}

/// Whether `a` is `b` or an ancestor of `b`, following at most `fuel`
/// parent links from `b`; a chain longer than that counts as reaching `a`.
pub open spec fn is_ancestor(s: Seq<TreeNode>, a: ID, b: ID, fuel: nat) -> bool
    decreases fuel,
{
    if a == b {
        true
    } else if fuel == 0 {
        true
    } else {
        let i = node_index(s, b);
        if i < 0 {
            false
        } else {
            match s[i].parent {
                TreeParent::Node(p) => is_ancestor(s, a, p, (fuel - 1) as nat),
                _ => false,
            }
        }
    }
}

/// Whether a move of `target` to `parent` takes effect on `s`.
pub open spec fn move_applies(s: Seq<TreeNode>, target: ID, parent: TreeParent) -> bool {
    match parent {
        TreeParent::Node(p) => node_index(s, p) >= 0 && !is_ancestor(s, target, p, s.len()),
        _ => true,
    }
}

/// `s` with node `n.id` hung where `n` says, added at the end if new.
pub open spec fn set_node(s: Seq<TreeNode>, n: TreeNode) -> Seq<TreeNode> {
    let i = node_index(s, n.id);
    if i < 0 {
        s.push(n)
    } else {
        s.update(i, n)
    }
}

/// After a node is set, it hangs where it was set.
pub proof fn lemma_set_node(s: Seq<TreeNode>, n: TreeNode)
    ensures
        parent_in(set_node(s, n), n.id) == Some(n.parent),
{
    lemma_node_index_found(s, n.id);
    let i = node_index(s, n.id);
    let t = set_node(s, n);
    if i < 0 {
        lemma_node_index(t, n.id, s.len() as int);
    } else {
        assert forall|k: int| 0 <= k < i implies t[k].id != n.id by {
            assert(t[k] == s[k]);
        }
        lemma_node_index(t, n.id, i);
    }
}

/// A node hanging from the root is alive.
pub proof fn lemma_root_child_alive(s: Seq<TreeNode>, id: ID)
    requires
        parent_in(s, id) == Some(TreeParent::Root),
    ensures
        node_alive(s, id),
{
    lemma_node_index_found(s, id);
}

/// A node among the deleted ones is not alive.
pub proof fn lemma_deleted_not_alive(s: Seq<TreeNode>, id: ID)
    requires
        parent_in(s, id) == Some(TreeParent::Deleted),
    ensures
        !node_alive(s, id),
{
    lemma_node_index_found(s, id);
}

/// A live node is in the tree.
pub proof fn lemma_alive_present(s: Seq<TreeNode>, id: ID)
    requires
        node_alive(s, id),
    ensures
        node_index(s, id) >= 0,
{
}

/// The effect of one op on the nodes of its (tree) container.
pub open spec fn apply_tree_op(s: Seq<TreeNode>, op: OpView) -> Seq<TreeNode> {
    match op.content {
        OpContentView::TreeMove { target, parent } => {
            if !move_applies(s, target, parent) {
                s
            } else {
                set_node(s, TreeNode { id: target, parent })
            }
        },
        _ => s,
    }
}

/// The nodes of tree `c` after replaying `log`, in order of creation.
pub open spec fn tree_state(log: Seq<OpView>, c: ContainerIdView) -> Seq<TreeNode>
    decreases log.len(),
{
    if log.len() == 0 {
        Seq::empty()
    } else {
        let prev = tree_state(log.drop_last(), c);
        if log.last().container == c {
            apply_tree_op(prev, log.last())
        } else {
            prev
        }
    }
}

/// Whether the chain of parents of `id` reaches the root within `fuel`
/// links without passing a deleted node.
pub open spec fn alive(s: Seq<TreeNode>, id: ID, fuel: nat) -> bool
    decreases fuel,
{
    if fuel == 0 {
        false
    } else {
        let i = node_index(s, id);
        if i < 0 {
            false
        } else {
            match s[i].parent {
                TreeParent::Root => true,
                TreeParent::Deleted => false,
                TreeParent::Node(p) => alive(s, p, (fuel - 1) as nat),
            }
        }
    }
}

/// Whether `id` is a live node of the tree `s`.
pub open spec fn node_alive(s: Seq<TreeNode>, id: ID) -> bool {
    alive(s, id, s.len())
}

/// The live nodes among `upto`, in order, judged in the tree `s`.
pub open spec fn alive_nodes(s: Seq<TreeNode>, upto: Seq<TreeNode>) -> Seq<TreeNode>
    decreases upto.len(),
{
    if upto.len() == 0 {
        Seq::empty()
    } else {
        let p = alive_nodes(s, upto.drop_last());
        if node_alive(s, upto.last().id) {
            p.push(upto.last())
        } else {
            p
        }
    }
}

/// The live nodes of the tree `s`.
pub open spec fn live_nodes(s: Seq<TreeNode>) -> Seq<TreeNode> {
    alive_nodes(s, s)
}

/// The ids of a run of nodes.
pub open spec fn node_ids(s: Seq<TreeNode>) -> Seq<ID> {
    Seq::new(s.len(), |i: int| s[i].id)
}

/// The parent a node hangs from in the tree `s`, if it is there.
pub open spec fn parent_in(s: Seq<TreeNode>, id: ID) -> Option<TreeParent> {
    let i = node_index(s, id);
    if i < 0 {
        None
    } else {
        Some(s[i].parent)
    }
}

/// The decimal text of a counter, with a minus sign when negative.
pub open spec fn counter_chars(c: i32) -> Seq<char> {
    if c < 0 {
        seq!['-'] + decimal_chars((-c) as nat)
    } else {
        decimal_chars(c as nat)
    }
}

/// The text of a node id: `counter@peer`.
pub open spec fn tree_id_chars(id: ID) -> Seq<char> {
    counter_chars(id.counter) + seq!['@'] + decimal_chars(id.peer as nat)
}

/// The container holding the metadata of node `id`.
pub open spec fn meta_container(id: ID) -> ContainerIdView {
    ContainerIdView::Normal {
        peer: id.peer,
        counter: id.counter,
        container_type: crate::common::ContainerType::Mapping,
    }
}

/// The container holding the metadata of node `id`.
pub fn meta_container_of(id: ID) -> (r: ContainerID)
    ensures
        r@ == meta_container(id),
{
    ContainerID::Normal {
        peer: id.peer,
        counter: id.counter,
        container_type: crate::common::ContainerType::Mapping,
    }
}

/// Appends the text of a node id.
pub fn push_tree_id(out: &mut Vec<char>, id: ID)
    ensures
        final(out)@ == old(out)@ + tree_id_chars(id),
{
    let ghost start = out@;
    if id.counter < 0 {
        out.push('-');
        let m: i64 = -(id.counter as i64);
        push_decimal(out, m as u64);
        assert(out@ =~= start + counter_chars(id.counter));
    } else {
        push_decimal(out, id.counter as u64);
        assert(out@ =~= start + counter_chars(id.counter));
    }
    out.push('@');
    let ghost mid = out@;
    push_decimal(out, id.peer);
    assert(out@ =~= start + tree_id_chars(id));
}

/// The index of the node with the given id.
pub fn find_node(s: &Vec<TreeNode>, id: ID) -> (r: Option<usize>)
    ensures
        match r {
            Some(i) => i as int == node_index(s@, id) && i < s@.len(),
            None => node_index(s@, id) < 0,
        },
{
    let mut i: usize = 0;
    while i < s.len()
        invariant
            i <= s.len(),
            forall|k: int| 0 <= k < i ==> s@[k].id != id,
        decreases s.len() - i,
    {
        if s[i].id == id {
            proof {
                lemma_node_index(s@, id, i as int);
            }
            return Some(i);
        }
        i += 1;
    }
    proof {
        lemma_node_index(s@, id, s@.len() as int);
    }
    None
}

/// Whether `a` is `b` or an ancestor of `b` in the tree `s`.
pub fn is_ancestor_of(s: &Vec<TreeNode>, a: ID, b: ID) -> (r: bool)
    ensures
        r == is_ancestor(s@, a, b, s@.len()),
{
    let mut cur = b;
    let mut fuel = s.len();
    while fuel > 0 && cur != a
        invariant
            fuel <= s@.len(),
            is_ancestor(s@, a, b, s@.len()) == is_ancestor(s@, a, cur, fuel as nat),
        decreases fuel,
    {
        match find_node(s, cur) {
            None => {
                return false;
            },
            Some(i) => match s[i].parent {
                TreeParent::Node(p) => {
                    cur = p;
                    fuel -= 1;
                },
                _ => {
                    return false;
                },
            },
        }
    }
    true
}

/// Whether `id` is a live node of the tree `s`.
pub fn is_alive(s: &Vec<TreeNode>, id: ID) -> (r: bool)
    ensures
        r == node_alive(s@, id),
{
    let mut cur = id;
    let mut fuel = s.len();
    while fuel > 0
        invariant
            fuel <= s@.len(),
            node_alive(s@, id) == alive(s@, cur, fuel as nat),
        decreases fuel,
    {
        match find_node(s, cur) {
            None => {
                return false;
            },
            Some(i) => match s[i].parent {
                TreeParent::Root => {
                    return true;
                },
                TreeParent::Deleted => {
                    return false;
                },
                TreeParent::Node(p) => {
                    cur = p;
                    fuel -= 1;
                },
            },
        }
    }
    false
}

/// Whether a move of `target` to `parent` takes effect on `s`.
pub fn move_takes_effect(s: &Vec<TreeNode>, target: ID, parent: TreeParent) -> (r: bool)
    ensures
        r == move_applies(s@, target, parent),
{
    match parent {
        TreeParent::Node(p) => match find_node(s, p) {
            None => false,
            Some(_) => !is_ancestor_of(s, target, p),
        },
        _ => true,
    }
}

/// Applies one op to the nodes of its tree.
pub fn apply_tree_op_exec(s: &mut Vec<TreeNode>, op: &Op)
    ensures
        final(s)@ == apply_tree_op(old(s)@, op@),
{
    match &op.content {
        OpContent::TreeMove { target, parent } => {
            if move_takes_effect(s, *target, *parent) {
                let n = TreeNode { id: *target, parent: *parent };
                match find_node(s, *target) {
                    None => s.push(n),
                    Some(i) => s.set(i, n),
                }
            }
        },
        _ => {},
    }
}

/// The nodes of tree `c` after replaying the log.
pub fn compute_tree_state(log: &Vec<Op>, c: &ContainerID) -> (r: Vec<TreeNode>)
    ensures
        r@ == tree_state(ops_view(log@), c@),
{
    let ghost lv = ops_view(log@);
    let mut s: Vec<TreeNode> = Vec::new();
    let mut i: usize = 0;
    assert(lv.take(0) =~= Seq::<OpView>::empty());
    while i < log.len()
        invariant
            i <= log.len(),
            lv == ops_view(log@),
            s@ == tree_state(lv.take(i as int), c@),
        decreases log.len() - i,
    {
        let op = &log[i];
        proof {
            assert(lv.take(i + 1).drop_last() =~= lv.take(i as int));
            assert(lv.take(i + 1).last() == op@);
        }
        if op.container.same(c) {
            apply_tree_op_exec(&mut s, op);
        }
        i += 1;
    }
    assert(lv.take(log.len() as int) =~= lv);
    s
}

/// The live nodes of the tree `s`, in order.
pub fn compute_live_nodes(s: &Vec<TreeNode>) -> (r: Vec<TreeNode>)
    ensures
        r@ == live_nodes(s@),
{
    let mut r: Vec<TreeNode> = Vec::new();
    let mut i: usize = 0;
    assert(s@.take(0) =~= Seq::<TreeNode>::empty());
    while i < s.len()
        invariant
            i <= s.len(),
            r@ == alive_nodes(s@, s@.take(i as int)),
        decreases s.len() - i,
    {
        assert(s@.take(i + 1).drop_last() =~= s@.take(i as int));
        assert(s@.take(i + 1).last() == s@[i as int]);
        if is_alive(s, s[i].id) {
            r.push(s[i]);
        }
        i += 1;
    }
    assert(s@.take(s.len() as int) =~= s@);
    r
}

/// The ids of a run of nodes.
pub fn ids_of(s: &Vec<TreeNode>) -> (r: Vec<ID>)
    ensures
        r@ == node_ids(s@),
{
    let mut r: Vec<ID> = Vec::new();
    let mut i: usize = 0;
    while i < s.len()
        invariant
            i <= s.len(),
            r@ == node_ids(s@).take(i as int),
        decreases s.len() - i,
    {
        r.push(s[i].id);
        i += 1;
        assert(r@ =~= node_ids(s@).take(i as int));
    }
    assert(node_ids(s@).take(s.len() as int) =~= node_ids(s@));
    r
}

} // verus!
