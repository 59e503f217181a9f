//! Ops, the op log kept in a total order, and the merge of two logs.
use vstd::prelude::*;
use crate::common::{ContainerID, ContainerIdView, ContainerType, Counter, PeerID, ID};

verus! {

/// The id of one element of a list or text container: the op that inserted
/// it and the element's offset inside that op's inserted run.
#[derive(Debug, Clone, Copy, PartialEq, Eq, Structural)]
pub struct ElemId {
    pub peer: PeerID,
    pub counter: Counter,
    pub offset: u32,
}

/// A value carried by an op: an integer, a character of a text, or a new
/// child container of the given kind.
#[derive(Debug, Clone, Copy, PartialEq, Eq, Structural)]
pub enum OpValue {
    I64(i64),
    Char(char),
    Container(ContainerType),
}

/// Where a tree move puts its node: at the top level, under another node,
/// or among the deleted nodes.
#[derive(Debug, Clone, Copy, PartialEq, Eq, Structural)]
pub enum TreeParent {
    Root,
    Node(ID),
    Deleted,
}

/// What an op does to its container.
#[derive(Debug)]
pub enum OpContent {
    /// Set a map key (`None` deletes it).
    MapSet { key: String, value: Option<OpValue> },
    /// Insert a run of elements right after `origin` (at the front when `None`).
    SeqInsert { origin: Option<ElemId>, values: Vec<OpValue> },
    /// Delete the listed elements.
    SeqDelete { targets: Vec<ElemId> },
    /// Style the text from element `start` to element `end`, both included,
    /// setting `key` to `value`.
    Mark { start: ElemId, end: ElemId, key: String, value: i64 },
    /// Create or move the tree node `target` (a node is created by the op
    /// whose id it bears) to `parent`.
    TreeMove { target: ID, parent: TreeParent },
}

pub enum OpContentView {
    MapSet { key: Seq<char>, value: Option<OpValue> },
    SeqInsert { origin: Option<ElemId>, values: Seq<OpValue> },
    SeqDelete { targets: Seq<ElemId> },
    Mark { start: ElemId, end: ElemId, key: Seq<char>, value: i64 },
    TreeMove { target: ID, parent: TreeParent },
}

impl View for OpContent {
    type V = OpContentView;

    open spec fn view(&self) -> OpContentView {
        match self {
            OpContent::MapSet { key, value } => OpContentView::MapSet { key: key@, value: *value },
            OpContent::SeqInsert { origin, values } => OpContentView::SeqInsert {
                origin: *origin,
                values: values@,
            },
            OpContent::SeqDelete { targets } => OpContentView::SeqDelete { targets: targets@ },
            OpContent::Mark { start, end, key, value } => OpContentView::Mark {
                start: *start,
                end: *end,
                key: key@,
                value: *value,
            },
            OpContent::TreeMove { target, parent } => OpContentView::TreeMove {
                target: *target,
                parent: *parent,
            },
        }
    }
}

/// An op: its id (peer, counter), its lamport timestamp, its target
/// container and its content.
#[derive(Debug)]
pub struct Op {
    pub peer: PeerID,
    pub counter: Counter,
    pub lamport: u32,
    pub container: ContainerID,
    pub content: OpContent,
}

pub struct OpView {
    pub peer: PeerID,
    pub counter: Counter,
    pub lamport: u32,
    pub container: ContainerIdView,
    pub content: OpContentView,
}

impl View for Op {
    type V = OpView;

    open spec fn view(&self) -> OpView {
        OpView {
            peer: self.peer,
            counter: self.counter,
            lamport: self.lamport,
            container: self.container@,
            content: self.content@,
        }
    }
}

/// The abstract value of a vector of ops.
pub open spec fn ops_view(v: Seq<Op>) -> Seq<OpView> {
    Seq::new(v.len(), |i: int| v[i]@)
}

/// The total order of ops: by lamport timestamp, then by peer.
pub open spec fn op_lt(a: OpView, b: OpView) -> bool {
    a.lamport < b.lamport || (a.lamport == b.lamport && a.peer < b.peer)
}

/// Two ops sit at the same place of the total order.
pub open spec fn same_key(a: OpView, b: OpView) -> bool {
    a.lamport == b.lamport && a.peer == b.peer
}

/// A log is strictly increasing in the total order.
pub open spec fn log_sorted(log: Seq<OpView>) -> bool {
    forall|i: int, j: int| 0 <= i < j < log.len() ==> op_lt(#[trigger] log[i], #[trigger] log[j])
}

/// Two logs agree: ops at the same place of the order are the same op.
pub open spec fn logs_agree(a: Seq<OpView>, b: Seq<OpView>) -> bool {
    forall|i: int, j: int|
        0 <= i < a.len() && 0 <= j < b.len() && same_key(#[trigger] a[i], #[trigger] b[j]) ==> a[i]
            == b[j]
}

impl ElemId {
    pub fn same(&self, other: &ElemId) -> (r: bool)
        ensures
            r == (*self == *other),
    {
        self.peer == other.peer && self.counter == other.counter && self.offset == other.offset
    }
}

pub fn copy_values(v: &Vec<OpValue>) -> (r: Vec<OpValue>)
    ensures
        r@ == v@,
{
    let mut r: Vec<OpValue> = Vec::new();
    let mut i: usize = 0;
    while i < v.len()
        invariant
            i <= v.len(),
            r@ == v@.take(i as int),
        decreases v.len() - i,
    {
        r.push(v[i]);
        i += 1;
        assert(r@ =~= v@.take(i as int));
    }
    assert(v@.take(v.len() as int) =~= v@);
    r
}

pub fn copy_elem_ids(v: &Vec<ElemId>) -> (r: Vec<ElemId>)
    ensures
        r@ == v@,
{
    let mut r: Vec<ElemId> = Vec::new();
    let mut i: usize = 0;
    while i < v.len()
        invariant
            i <= v.len(),
            r@ == v@.take(i as int),
        decreases v.len() - i,
    {
        r.push(v[i]);
        i += 1;
        assert(r@ =~= v@.take(i as int));
    }
    assert(v@.take(v.len() as int) =~= v@);
    r
}

impl OpContent {
    pub fn duplicate(&self) -> (r: OpContent)
        ensures
            r@ == self@,
    {
        match self {
            OpContent::MapSet { key, value } => OpContent::MapSet { key: key.clone(), value: *value },
            OpContent::SeqInsert { origin, values } => OpContent::SeqInsert {
                origin: *origin,
                values: copy_values(values),
            },
            OpContent::SeqDelete { targets } => OpContent::SeqDelete {
                targets: copy_elem_ids(targets),
            },
            OpContent::Mark { start, end, key, value } => OpContent::Mark {
                start: *start,
                end: *end,
                key: key.clone(),
                value: *value,
            },
            OpContent::TreeMove { target, parent } => OpContent::TreeMove {
                target: *target,
                parent: *parent,
            },
        }
    }
}

impl Op {
    pub fn duplicate(&self) -> (r: Op)
        ensures
            r@ == self@,
    {
        Op {
            peer: self.peer,
            counter: self.counter,
            lamport: self.lamport,
            container: self.container.duplicate(),
            content: self.content.duplicate(),
        }
    }

    pub fn lt(&self, other: &Op) -> (r: bool)
        ensures
            r == op_lt(self@, other@),
    {
        self.lamport < other.lamport || (self.lamport == other.lamport && self.peer < other.peer)
    }

    pub fn same_key(&self, other: &Op) -> (r: bool)
        ensures
            r == same_key(self@, other@),
    {
        self.lamport == other.lamport && self.peer == other.peer
    }
}

/// Merges two logs kept in the total order into one; where both hold an op
/// at the same place the one of `a` is kept.
pub fn merge_logs(a: &Vec<Op>, b: &Vec<Op>) -> (r: Vec<Op>)
    requires
        log_sorted(ops_view(a@)),
        log_sorted(ops_view(b@)),
    ensures
        log_sorted(ops_view(r@)),
        forall|x: OpView| ops_view(a@).contains(x) ==> ops_view(r@).contains(x),
        forall|x: OpView|
            ops_view(r@).contains(x) ==> ops_view(a@).contains(x) || ops_view(b@).contains(x),
        forall|y: OpView|
            #![trigger ops_view(b@).contains(y)]
            ops_view(b@).contains(y) ==> exists|x: OpView|
                ops_view(r@).contains(x) && same_key(x, y),
{
    let ghost av = ops_view(a@);
    let ghost bv = ops_view(b@);
    let mut r: Vec<Op> = Vec::new();
    let mut i: usize = 0;
    let mut j: usize = 0;
    while i < a.len() || j < b.len()
        invariant
            av == ops_view(a@),
            bv == ops_view(b@),
            log_sorted(av),
            log_sorted(bv),
            i <= a.len(),
            j <= b.len(),
            log_sorted(ops_view(r@)),
            forall|k: int| 0 <= k < i ==> ops_view(r@).contains(#[trigger] av[k]),
            forall|x: OpView| ops_view(r@).contains(x) ==> av.contains(x) || bv.contains(x),
            forall|k: int|
                0 <= k < j ==> exists|x: OpView| ops_view(r@).contains(x) && same_key(x, #[trigger] bv[k]),
            r.len() > 0 && i < a.len() ==> op_lt(ops_view(r@).last(), av[i as int]),
            r.len() > 0 && j < b.len() ==> op_lt(ops_view(r@).last(), bv[j as int]),
        decreases a.len() + b.len() - i - j,
    {
        let ghost old_r = ops_view(r@);
        let take_a: bool;
        let skip_b: bool;
        if i < a.len() && j < b.len() {
            if a[i].same_key(&b[j]) {
                take_a = true;
                skip_b = true;
            } else if a[i].lt(&b[j]) {
                take_a = true;
                skip_b = false;
            } else {
                take_a = false;
                skip_b = false;
            }
        } else if i < a.len() {
            take_a = true;
            skip_b = false;
        } else {
            take_a = false;
            skip_b = false;
        }
        if take_a {
            let op = a[i].duplicate();
            r.push(op);
            proof {
                assert(ops_view(r@) =~= old_r.push(av[i as int]));
                assert forall|x: OpView| ops_view(r@).contains(x) implies av.contains(x) || bv.contains(x) by {
                    if x != av[i as int] {
                        let k = choose|k: int| 0 <= k < ops_view(r@).len() && ops_view(r@)[k] == x;
                        assert(old_r[k] == x);
                    } else {
                        assert(av[i as int] == av[i as int]);
                    }
                }
                assert forall|k: int| 0 <= k < i + 1 implies ops_view(r@).contains(#[trigger] av[k]) by {
                    if k < i {
                        let m = choose|m: int| 0 <= m < old_r.len() && old_r[m] == av[k];
                        assert(ops_view(r@)[m] == av[k]);
                    } else {
                        assert(ops_view(r@)[old_r.len() as int] == av[k]);
                    }
                }
                let jj: int = if skip_b { j + 1 } else { j as int };
                assert forall|k: int|
                    0 <= k < jj implies exists|x: OpView| ops_view(r@).contains(x) && same_key(x, #[trigger] bv[k]) by {
                    if k < j {
                        let x = choose|x: OpView| old_r.contains(x) && same_key(x, bv[k]);
                        let m = choose|m: int| 0 <= m < old_r.len() && old_r[m] == x;
                        assert(ops_view(r@)[m] == x);
                    } else {
                        assert(ops_view(r@)[old_r.len() as int] == av[i as int]);
                    }
                }
                assert forall|p: int, q: int| 0 <= p < q < ops_view(r@).len() implies op_lt(
                    #[trigger] ops_view(r@)[p],
                    #[trigger] ops_view(r@)[q],
                ) by {
                    if q == old_r.len() {
                        if p < old_r.len() - 1 {
                            assert(op_lt(old_r[p], old_r.last()));
                        }
                    } else {
                        assert(old_r[p] == ops_view(r@)[p]);
                    }
                }
                if i + 1 < a.len() {
                    assert(op_lt(av[i as int], av[i + 1]));
                }
                if skip_b && j + 1 < b.len() {
                    assert(op_lt(bv[j as int], bv[j + 1]));
                }
                if !skip_b && j < b.len() {
                    assert(op_lt(av[i as int], bv[j as int]));
                }
            }
            i += 1;
            if skip_b {
                j += 1;
            }
        } else {
            let op = b[j].duplicate();
            r.push(op);
            proof {
                assert(ops_view(r@) =~= old_r.push(bv[j as int]));
                assert forall|x: OpView| ops_view(r@).contains(x) implies av.contains(x) || bv.contains(x) by {
                    if x != bv[j as int] {
                        let k = choose|k: int| 0 <= k < ops_view(r@).len() && ops_view(r@)[k] == x;
                        assert(old_r[k] == x);
                    } else {
                        assert(bv[j as int] == bv[j as int]);
                    }
                }
                assert forall|k: int| 0 <= k < i implies ops_view(r@).contains(#[trigger] av[k]) by {
                    let m = choose|m: int| 0 <= m < old_r.len() && old_r[m] == av[k];
                    assert(ops_view(r@)[m] == av[k]);
                }
                assert forall|k: int|
                    0 <= k < j + 1 implies exists|x: OpView| ops_view(r@).contains(x) && same_key(x, #[trigger] bv[k]) by {
                    if k < j {
                        let x = choose|x: OpView| old_r.contains(x) && same_key(x, bv[k]);
                        let m = choose|m: int| 0 <= m < old_r.len() && old_r[m] == x;
                        assert(ops_view(r@)[m] == x);
                    } else {
                        assert(ops_view(r@)[old_r.len() as int] == bv[j as int]);
                        assert(ops_view(r@).contains(bv[j as int]));
                        assert(same_key(bv[j as int], bv[k]));
                    }
                }
                assert forall|p: int, q: int| 0 <= p < q < ops_view(r@).len() implies op_lt(
                    #[trigger] ops_view(r@)[p],
                    #[trigger] ops_view(r@)[q],
                ) by {
                    if q == old_r.len() {
                        if p < old_r.len() - 1 {
                            assert(op_lt(old_r[p], old_r.last()));
                        }
                    } else {
                        assert(old_r[p] == ops_view(r@)[p]);
                    }
                }
                if j + 1 < b.len() {
                    assert(op_lt(bv[j as int], bv[j + 1]));
                }
                if i < a.len() {
                    assert(op_lt(bv[j as int], av[i as int]));
                }
            }
            j += 1;
        }
    }
    proof {
        assert forall|x: OpView| av.contains(x) implies ops_view(r@).contains(x) by {
            let k = choose|k: int| 0 <= k < av.len() && av[k] == x;
            assert(ops_view(r@).contains(av[k]));
        }
        assert forall|y: OpView| #[trigger] bv.contains(y) implies exists|x: OpView|
            ops_view(r@).contains(x) && same_key(x, y) by {
            let k = choose|k: int| 0 <= k < bv.len() && bv[k] == y;
            assert(exists|x: OpView| ops_view(r@).contains(x) && same_key(x, bv[k]));
        }
    }
    r
}

/// Two logs kept strictly in the total order that hold the same ops are the
/// same sequence.
pub proof fn lemma_sorted_logs_with_same_ops_are_equal(s1: Seq<OpView>, s2: Seq<OpView>)
    requires
        log_sorted(s1),
        log_sorted(s2),
        forall|x: OpView| s1.contains(x) <==> s2.contains(x),
    ensures
        s1 == s2,
    decreases s1.len(),
{
    if s1.len() == 0 {
        if s2.len() > 0 {
            assert(s2.contains(s2[0]));
        }
        assert(s1 =~= s2);
    } else {
        assert(s1.contains(s1[0]));
        assert(s2.len() > 0);
        assert(s2.contains(s2[0]));
        let k = choose|k: int| 0 <= k < s1.len() && s1[k] == s2[0];
        let m = choose|m: int| 0 <= m < s2.len() && s2[m] == s1[0];
        if k > 0 && m > 0 {
            assert(op_lt(s1[0], s1[k]));
            assert(op_lt(s2[0], s2[m]));
            assert(false);
        } else if k > 0 {
            assert(op_lt(s1[0], s1[k]));
        } else if m > 0 {
            assert(op_lt(s2[0], s2[m]));
        }
        assert(s1[0] == s2[0]);
        let t1 = s1.drop_first();
        let t2 = s2.drop_first();
        assert forall|x: OpView| t1.contains(x) <==> t2.contains(x) by {
            if t1.contains(x) {
                let a = choose|a: int| 0 <= a < t1.len() && t1[a] == x;
                assert(op_lt(s1[0], s1[a + 1]));
                assert(s1.contains(x));
                let b = choose|b: int| 0 <= b < s2.len() && s2[b] == x;
                if b == 0 {
                    assert(false);
                }
                assert(t2[b - 1] == x);
            }
            if t2.contains(x) {
                let a = choose|a: int| 0 <= a < t2.len() && t2[a] == x;
                assert(op_lt(s2[0], s2[a + 1]));
                assert(s2.contains(x));
                let b = choose|b: int| 0 <= b < s1.len() && s1[b] == x;
                if b == 0 {
                    assert(false);
                }
                assert(t1[b - 1] == x);
            }
        }
        assert forall|i: int, j: int| 0 <= i < j < t1.len() implies op_lt(#[trigger] t1[i], #[trigger] t1[j]) by {
            assert(op_lt(s1[i + 1], s1[j + 1]));
        }
        assert forall|i: int, j: int| 0 <= i < j < t2.len() implies op_lt(#[trigger] t2[i], #[trigger] t2[j]) by {
            assert(op_lt(s2[i + 1], s2[j + 1]));
        }
        lemma_sorted_logs_with_same_ops_are_equal(t1, t2);
        assert(s1.len() == s2.len());
        assert forall|i: int| 0 <= i < s1.len() implies s1[i] == s2[i] by {
            if i > 0 {
                assert(s1[i] == t1[i - 1]);
                assert(s2[i] == t2[i - 1]);
            }
        }
        assert(s1 =~= s2);
    }
}

} // verus!
