//! The elements of a movable list: for each element, the moves and the sets
//! that touched it, kept in the order of their (lamport, peer) ids, to answer
//! where an element is and what it holds at a version.
use vstd::prelude::*;
use crate::common::{Counter, LoroValue, LoroValueView, PeerID};
use crate::group::{GroupedMapOpInfo, IdLp, info_in_version, info_lt, info_same, infos_sorted};
use crate::version::VersionVector;

verus! {

/// `s` with `x` added in order, unless an op with the same (lamport, peer)
/// id is already there, in which case `s` is kept as it is.
pub open spec fn sorted_insert<T>(s: Seq<GroupedMapOpInfo<T>>, x: GroupedMapOpInfo<T>) -> Seq<
    GroupedMapOpInfo<T>,
>
    decreases s.len(),
{
    if s.len() == 0 {
        seq![x]
    } else if info_same(s.last(), x) {
        s
    } else if info_lt(s.last(), x) {
        s.push(x)
    } else {
        sorted_insert(s.drop_last(), x).push(s.last())
    }
}

/// Adding two ops gives the same run in either order, unless they share an
/// id but differ.
pub proof fn lemma_sorted_insert_commutes<T>(s: Seq<GroupedMapOpInfo<T>>, x: GroupedMapOpInfo<T>, y: GroupedMapOpInfo<T>)
    requires
        info_same(x, y) ==> x == y,
    ensures
        sorted_insert(sorted_insert(s, x), y) == sorted_insert(sorted_insert(s, y), x),
    decreases s.len(),
{
    if info_same(x, y) {
    } else if s.len() == 0 {
        let e = Seq::<GroupedMapOpInfo<T>>::empty();
        assert(seq![x].drop_last() =~= e);
        assert(seq![y].drop_last() =~= e);
        assert(sorted_insert(e, x) == seq![x]);
        assert(sorted_insert(e, y) == seq![y]);
        if info_lt(x, y) {
            assert(sorted_insert(seq![x], y) == seq![x].push(y));
            assert(sorted_insert(seq![y], x) == sorted_insert(e, x).push(y));
            assert(seq![x].push(y) =~= seq![x, y]);
        } else {
            assert(sorted_insert(seq![y], x) == seq![y].push(x));
            assert(sorted_insert(seq![x], y) == sorted_insert(e, y).push(x));
        }
    } else {
        let l = s.last();
        let d = s.drop_last();
        let sx = sorted_insert(s, x);
        let sy = sorted_insert(s, y);
        if info_same(l, x) {
            assert(sx == s);
            if info_same(l, y) {
            } else if info_lt(l, y) {
                assert(sy == s.push(y));
                assert(s.push(y).drop_last() =~= s);
                assert(sorted_insert(s.push(y), x) == sorted_insert(s, x).push(y));
            } else {
                assert(sy == sorted_insert(d, y).push(l));
            }
        } else if info_same(l, y) {
            assert(sy == s);
            if info_lt(l, x) {
                assert(sx == s.push(x));
                assert(s.push(x).drop_last() =~= s);
                assert(sorted_insert(s.push(x), y) == sorted_insert(s, y).push(x));
            } else {
                assert(sx == sorted_insert(d, x).push(l));
            }
        } else if info_lt(l, x) && info_lt(l, y) {
            assert(sx == s.push(x));
            assert(sy == s.push(y));
            assert(s.push(x).drop_last() =~= s);
            assert(s.push(y).drop_last() =~= s);
            if info_lt(x, y) {
                assert(sorted_insert(s.push(x), y) == s.push(x).push(y));
                assert(sorted_insert(s.push(y), x) == sorted_insert(s, x).push(y));
            } else {
                assert(sorted_insert(s.push(y), x) == s.push(y).push(x));
                assert(sorted_insert(s.push(x), y) == sorted_insert(s, y).push(x));
            }
        } else if info_lt(x, l) && info_lt(l, y) {
            assert(sx == sorted_insert(d, x).push(l));
            assert(sy == s.push(y));
            assert(s.push(y).drop_last() =~= s);
            assert(sorted_insert(sx, y) == sx.push(y));
            assert(sorted_insert(s.push(y), x) == sorted_insert(s, x).push(y));
        } else if info_lt(l, x) && info_lt(y, l) {
            assert(sy == sorted_insert(d, y).push(l));
            assert(sx == s.push(x));
            assert(s.push(x).drop_last() =~= s);
            assert(sorted_insert(sy, x) == sy.push(x));
            assert(sorted_insert(s.push(x), y) == sorted_insert(s, y).push(x));
        } else {
            assert(sx == sorted_insert(d, x).push(l));
            assert(sy == sorted_insert(d, y).push(l));
            assert(sorted_insert(d, x).push(l).drop_last() =~= sorted_insert(d, x));
            assert(sorted_insert(d, y).push(l).drop_last() =~= sorted_insert(d, y));
            assert(sorted_insert(sx, y) == sorted_insert(sorted_insert(d, x), y).push(l));
            assert(sorted_insert(sy, x) == sorted_insert(sorted_insert(d, y), x).push(l));
            lemma_sorted_insert_commutes(d, x, y);
        }
    }
}

/// The last op of `s` whose op the version `vv` includes.
pub open spec fn last_in_version<T>(s: Seq<GroupedMapOpInfo<T>>, vv: VersionVector) -> Option<
    GroupedMapOpInfo<T>,
>
    decreases s.len(),
{
    if s.len() == 0 {
        None
    } else if info_in_version(s.last(), vv) {
        Some(s.last())
    } else {
        last_in_version(s.drop_last(), vv)
    }
}

/// When every op from position `i` on comes after `x`, adding `x` only
/// touches the first `i` ops.
proof fn lemma_sorted_insert_split<T>(s: Seq<GroupedMapOpInfo<T>>, x: GroupedMapOpInfo<T>, i: int)
    requires
        0 <= i <= s.len(),
        forall|j: int| i <= j < s.len() ==> info_lt(x, #[trigger] s[j]),
    ensures
        sorted_insert(s, x) == sorted_insert(s.take(i), x) + s.skip(i),
    decreases s.len(),
{
    if i == s.len() {
        assert(s.take(i) =~= s);
        assert(sorted_insert(s.take(i), x) + s.skip(i) =~= sorted_insert(s.take(i), x));
    } else {
        let d = s.drop_last();
        assert(info_lt(x, s[s.len() - 1]));
        lemma_sorted_insert_split(d, x, i);
        assert(d.take(i) =~= s.take(i));
        assert(d.skip(i).push(s.last()) =~= s.skip(i));
        assert((sorted_insert(d.take(i), x) + d.skip(i)).push(s.last()) =~= sorted_insert(s.take(i), x)
            + s.skip(i));
    }
}

/// Adds `x` to the ordered ops `v` (see `sorted_insert`).
pub fn insert_in_order<T>(v: &mut Vec<GroupedMapOpInfo<T>>, x: GroupedMapOpInfo<T>)
    requires
        infos_sorted(old(v)@),
    ensures
        final(v)@ == sorted_insert(old(v)@, x),
        infos_sorted(final(v)@),
{
    let ghost s = v@;
    let mut i: usize = v.len();
    while i > 0 && x.lt(&v[i - 1])
        invariant
            v@ == s,
            infos_sorted(s),
            i <= s.len(),
            forall|j: int| i <= j < s.len() ==> info_lt(x, #[trigger] s[j]),
        decreases i,
    {
        i -= 1;
    }
    proof {
        lemma_sorted_insert_split(s, x, i as int);
    }
    if i > 0 && v[i - 1].same(&x) {
        proof {
            assert(s.take(i as int).last() == s[i - 1]);
            assert(sorted_insert(s.take(i as int), x) == s.take(i as int));
            assert(s.take(i as int) + s.skip(i as int) =~= s);
        }
    } else {
        proof {
            if i > 0 {
                assert(s.take(i as int).last() == s[i - 1]);
                assert(info_lt(s[i - 1], x));
                assert(sorted_insert(s.take(i as int), x) == s.take(i as int).push(x));
            } else {
                assert(sorted_insert(s.take(0), x) == seq![x]);
            }
            assert(s.take(i as int).push(x) + s.skip(i as int) =~= s.insert(i as int, x));
        }
        v.insert(i, x);
        proof {
            assert forall|a: int, b: int| 0 <= a < b < v@.len() implies info_lt(
                #[trigger] v@[a],
                #[trigger] v@[b],
            ) by {
                if a < i && b > i {
                    assert(info_lt(s[a], s[i - 1]) || a == i - 1);
                }
                if a < i && b == i && a < i - 1 {
                    assert(info_lt(s[a], s[i - 1]));
                }
            }
        }
    }
}

/// The abstract value of a grouped set.
pub open spec fn value_info_view(i: GroupedMapOpInfo<LoroValue>) -> GroupedMapOpInfo<LoroValueView> {
    GroupedMapOpInfo { value: i.value@, counter: i.counter, lamport: i.lamport, peer: i.peer }
}

/// The abstract values of a run of grouped sets.
pub open spec fn value_infos_view(s: Seq<GroupedMapOpInfo<LoroValue>>) -> Seq<GroupedMapOpInfo<LoroValueView>> {
    Seq::new(s.len(), |j: int| value_info_view(s[j]))
}

/// Adding a set and then taking abstract values is taking abstract values
/// and then adding the set's.
proof fn lemma_value_infos_insert(s: Seq<GroupedMapOpInfo<LoroValue>>, x: GroupedMapOpInfo<LoroValue>)
    ensures
        value_infos_view(sorted_insert(s, x)) == sorted_insert(value_infos_view(s), value_info_view(x)),
    decreases s.len(),
{
    let w = value_infos_view(s);
    if s.len() == 0 {
        assert(value_infos_view(seq![x]) =~= seq![value_info_view(x)]);
    } else {
        assert(w.last() == value_info_view(s.last()));
        if info_same(s.last(), x) {
        } else if info_lt(s.last(), x) {
            assert(value_infos_view(s.push(x)) =~= w.push(value_info_view(x)));
        } else {
            lemma_value_infos_insert(s.drop_last(), x);
            assert(value_infos_view(s.drop_last()) =~= w.drop_last());
            assert(value_infos_view(sorted_insert(s.drop_last(), x).push(s.last())) =~= value_infos_view(
                sorted_insert(s.drop_last(), x),
            ).push(value_info_view(s.last())));
        }
    }
}

/// The moves and sets of an element that has been touched several times.
#[derive(Debug)]
pub struct MultipleInner {
    pub poses: Vec<GroupedMapOpInfo<()>>,
    pub values: Vec<GroupedMapOpInfo<LoroValue>>,
}

/// What a group keeps of one element: only the insert that created it, or
/// every move and set that touched it.
#[derive(Debug)]
pub enum MovableListTarget {
    One { value: LoroValue, counter: Counter },
    Multiple(MultipleInner),
}

/// The positions of the element `key` held by `t`: the insert itself for an
/// element touched once.
pub open spec fn target_poses(t: MovableListTarget, key: IdLp) -> Seq<GroupedMapOpInfo<()>> {
    match t {
        MovableListTarget::One { value, counter } => seq![
            GroupedMapOpInfo { value: (), counter, lamport: key.lamport, peer: key.peer },
        ],
        MovableListTarget::Multiple(m) => m.poses@,
    }
}

/// The values of the element `key` held by `t`, as abstract values.
pub open spec fn target_values(t: MovableListTarget, key: IdLp) -> Seq<GroupedMapOpInfo<LoroValueView>> {
    match t {
        MovableListTarget::One { value, counter } => seq![
            GroupedMapOpInfo { value: value@, counter, lamport: key.lamport, peer: key.peer },
        ],
        MovableListTarget::Multiple(m) => value_infos_view(m.values@),
    }
}

/// Both runs of a target are in order.
pub open spec fn target_well_formed(t: MovableListTarget) -> bool {
    match t {
        MovableListTarget::One { .. } => true,
        MovableListTarget::Multiple(m) => infos_sorted(m.poses@) && infos_sorted(m.values@),
    }
}

impl MovableListTarget {
    /// Turns an element touched once into one that keeps every op, holding
    /// the same positions and values.
    pub fn upgrade(&mut self, key_idlp: IdLp)
        requires
            target_well_formed(*old(self)),
        ensures
            *final(self) is Multiple,
            target_well_formed(*final(self)),
            target_poses(*final(self), key_idlp) == target_poses(*old(self), key_idlp),
            target_values(*final(self), key_idlp) == target_values(*old(self), key_idlp),
    {
        let inner = match &*self {
            MovableListTarget::One { value, counter } => {
                let mut poses: Vec<GroupedMapOpInfo<()>> = Vec::new();
                poses.push(GroupedMapOpInfo { value: (), counter: *counter, lamport: key_idlp.lamport, peer: key_idlp.peer });
                let mut values: Vec<GroupedMapOpInfo<LoroValue>> = Vec::new();
                values.push(
                    GroupedMapOpInfo {
                        value: value.duplicate(),
                        counter: *counter,
                        lamport: key_idlp.lamport,
                        peer: key_idlp.peer,
                    },
                );
                Some(MultipleInner { poses, values })
            },
            MovableListTarget::Multiple(_) => None,
        };
        if let Some(inner) = inner {
            proof {
                assert(inner.poses@ =~= target_poses(*old(self), key_idlp));
                assert(value_infos_view(inner.values@) =~= target_values(*old(self), key_idlp));
            }
            *self = MovableListTarget::Multiple(inner);
        }
    }

    /// Records a move of the element `key` (see `sorted_insert`).
    pub fn add_pos(&mut self, key_idlp: IdLp, x: GroupedMapOpInfo<()>)
        requires
            target_well_formed(*old(self)),
        ensures
            target_well_formed(*final(self)),
            target_poses(*final(self), key_idlp) == sorted_insert(target_poses(*old(self), key_idlp), x),
            target_values(*final(self), key_idlp) == target_values(*old(self), key_idlp),
    {
        self.upgrade(key_idlp);
        match self {
            MovableListTarget::Multiple(m) => {
                insert_in_order(&mut m.poses, x);
            },
            MovableListTarget::One { .. } => {},
        }
    }

    /// Records a set of the element `key` (see `sorted_insert`).
    pub fn add_value(&mut self, key_idlp: IdLp, x: GroupedMapOpInfo<LoroValue>)
        requires
            target_well_formed(*old(self)),
        ensures
            target_well_formed(*final(self)),
            target_poses(*final(self), key_idlp) == target_poses(*old(self), key_idlp),
            target_values(*final(self), key_idlp) == sorted_insert(
                target_values(*old(self), key_idlp),
                value_info_view(x),
            ),
    {
        self.upgrade(key_idlp);
        match self {
            MovableListTarget::Multiple(m) => {
                proof {
                    lemma_value_infos_insert(m.values@, x);
                }
                insert_in_order(&mut m.values, x);
            },
            MovableListTarget::One { .. } => {},
        }
    }
}

/// The last position in `s` of an entry keyed `k`, or -1.
pub open spec fn key_index<V>(s: Seq<(IdLp, V)>, k: IdLp) -> int
    decreases s.len(),
{
    if s.len() == 0 {
        -1
    } else if s.last().0 == k {
        s.len() - 1
    } else {
        key_index(s.drop_last(), k)
    }
}

proof fn lemma_key_index<V>(s: Seq<(IdLp, V)>, k: IdLp)
    ensures
        -1 <= key_index(s, k) < s.len(),
        key_index(s, k) >= 0 ==> s[key_index(s, k)].0 == k,
        key_index(s, k) < 0 ==> forall|j: int| 0 <= j < s.len() ==> s[j].0 != k,
    decreases s.len(),
{
    if s.len() > 0 && s.last().0 != k {
        lemma_key_index(s.drop_last(), k);
        if key_index(s, k) < 0 {
            assert forall|j: int| 0 <= j < s.len() implies s[j].0 != k by {
                if j < s.len() - 1 {
                    assert(s[j] == s.drop_last()[j]);
                }
            }
        }
    }
}

/// Replacing an entry by one with the same key moves no key.
proof fn lemma_key_index_update<V>(s: Seq<(IdLp, V)>, i: int, e: (IdLp, V), k: IdLp)
    requires
        0 <= i < s.len(),
        e.0 == s[i].0,
    ensures
        key_index(s.update(i, e), k) == key_index(s, k),
    decreases s.len(),
{
    let t = s.update(i, e);
    if i < s.len() - 1 {
        assert(t.drop_last() =~= s.drop_last().update(i, e));
        assert(t.last() == s.last());
        if s.last().0 != k {
            lemma_key_index_update(s.drop_last(), i, e, k);
        }
    } else {
        assert(t.drop_last() =~= s.drop_last());
    }
}

/// An appended entry is found under its key; other keys stay where they were.
proof fn lemma_key_index_push<V>(s: Seq<(IdLp, V)>, e: (IdLp, V), k: IdLp)
    ensures
        key_index(s.push(e), k) == if e.0 == k {
            s.len() as int
        } else {
            key_index(s, k)
        },
{
    assert(s.push(e).drop_last() =~= s);
}

/// The position of the entry keyed `k` in `v`, scanning from the end.
fn find_key<V>(v: &Vec<(IdLp, V)>, k: IdLp) -> (r: Option<usize>)
    ensures
        match r {
            Some(i) => key_index(v@, k) == i as int,
            None => key_index(v@, k) < 0,
        },
{
    let mut i: usize = v.len();
    assert(v@.take(i as int) =~= v@);
    while i > 0
        invariant
            i <= v@.len(),
            key_index(v@, k) == key_index(v@.take(i as int), k),
        decreases i,
    {
        assert(v@.take(i as int).last() == v@[i - 1]);
        if v[i - 1].0 == k {
            return Some(i - 1);
        }
        assert(v@.take(i as int).drop_last() =~= v@.take(i - 1));
        i -= 1;
    }
    None
}

/// What a movable-list op does.
#[derive(Debug)]
pub enum MovableListOpContent {
    /// Set the value of the element `elem_id`.
    SetValue { elem_id: IdLp, value: LoroValue },
    /// Insert a run of elements; the `i`-th gets the id (peer, lamport + `i`)
    /// and the counter of the op plus `i`.
    Insert { values: Vec<LoroValue> },
    /// Move the element `from_id`; its new position gets the op's id.
    Move { from_id: IdLp },
    /// Delete elements (groups do not record deletions).
    Delete,
}

/// A movable-list op with its id: peer, counter and lamport timestamp.
#[derive(Debug)]
pub struct MovableListOp {
    pub peer: PeerID,
    pub counter: Counter,
    pub lamport: u32,
    pub content: MovableListOpContent,
}

/// The ops of one movable list, grouped by element, and, for each position
/// a move created, the element it holds.
#[derive(Debug)]
pub struct MovableListOpGroup {
    elem_mappings: Vec<(IdLp, MovableListTarget)>,
    pos_to_elem: Vec<(IdLp, IdLp)>,
}

/// The position stamp of the `i`-th op of `op`.
pub open spec fn pos_stamp(op: MovableListOp, i: int) -> GroupedMapOpInfo<()> {
    GroupedMapOpInfo { value: (), counter: (op.counter + i) as Counter, lamport: (op.lamport + i) as u32, peer: op.peer }
}

/// The value stamp of the `i`-th op of `op` with value `v`.
pub open spec fn value_stamp(op: MovableListOp, i: int, v: LoroValueView) -> GroupedMapOpInfo<LoroValueView> {
    GroupedMapOpInfo { value: v, counter: (op.counter + i) as Counter, lamport: (op.lamport + i) as u32, peer: op.peer }
}

/// The id of the `i`-th element an insert creates.
pub open spec fn inserted_id(op: MovableListOp, i: int) -> IdLp {
    IdLp { peer: op.peer, lamport: (op.lamport + i) as u32 }
}

/// The ids, counters and timestamps of an op's elements fit their types.
pub open spec fn op_ids_fit(op: MovableListOp) -> bool {
    let n: int = match op.content {
        MovableListOpContent::Insert { values } => values@.len() as int,
        _ => 1,
    };
    &&& 0 <= op.counter
    &&& op.counter + n - 1 <= i32::MAX
    &&& op.lamport + n - 1 <= u32::MAX
}

/// `b` is `a` with the op `op` recorded.
pub open spec fn op_recorded(a: MovableListOpGroup, b: MovableListOpGroup, op: MovableListOp) -> bool {
    match op.content {
        MovableListOpContent::SetValue { elem_id, value } => {
            &&& b.tracks(elem_id)
            &&& b.poses(elem_id) == a.poses(elem_id)
            &&& b.values(elem_id) == sorted_insert(a.values(elem_id), value_stamp(op, 0, value@))
            &&& forall|k: IdLp| k != elem_id ==> same_elem(b, a, k)
            &&& forall|p: IdLp| b.moved_to(p) == a.moved_to(p)
        },
        MovableListOpContent::Insert { values } => {
            &&& forall|i: int|
                0 <= i < values@.len() ==> {
                    let k = #[trigger] inserted_id(op, i);
                    &&& b.tracks(k)
                    &&& b.poses(k) == sorted_insert(a.poses(k), pos_stamp(op, i))
                    &&& b.values(k) == sorted_insert(a.values(k), value_stamp(op, i, values@[i]@))
                }
            &&& forall|k: IdLp|
                (forall|i: int| 0 <= i < values@.len() ==> k != #[trigger] inserted_id(op, i)) ==> same_elem(b, a, k)
            &&& forall|p: IdLp| b.moved_to(p) == a.moved_to(p)
        },
        MovableListOpContent::Move { from_id } => {
            &&& b.tracks(from_id)
            &&& b.poses(from_id) == sorted_insert(a.poses(from_id), pos_stamp(op, 0))
            &&& b.values(from_id) == a.values(from_id)
            &&& forall|k: IdLp| k != from_id ==> same_elem(b, a, k)
            &&& b.moved_to(IdLp { peer: op.peer, lamport: op.lamport }) == Some(from_id)
            &&& forall|p: IdLp| p != (IdLp { peer: op.peer, lamport: op.lamport }) ==> b.moved_to(p) == a.moved_to(p)
        },
        MovableListOpContent::Delete => {
            &&& forall|k: IdLp| same_elem(b, a, k)
            &&& forall|p: IdLp| b.moved_to(p) == a.moved_to(p)
        },
    }
}

/// Taking abstract values keeps which op is the last one a version
/// includes.
proof fn lemma_last_in_version_view(s: Seq<GroupedMapOpInfo<LoroValue>>, vv: VersionVector)
    ensures
        match last_in_version(s, vv) {
            Some(x) => last_in_version(value_infos_view(s), vv) == Some(value_info_view(x)),
            None => last_in_version(value_infos_view(s), vv) is None,
        },
    decreases s.len(),
{
    if s.len() > 0 {
        assert(value_infos_view(s).last() == value_info_view(s.last()));
        assert(value_infos_view(s.drop_last()) =~= value_infos_view(s).drop_last());
        lemma_last_in_version_view(s.drop_last(), vv);
    }
}

/// The position of the last op of `v` whose op the version `vv` includes.
fn last_included<T>(v: &Vec<GroupedMapOpInfo<T>>, vv: &VersionVector) -> (r: Option<usize>)
    ensures
        match r {
            Some(i) => i < v@.len() && last_in_version(v@, *vv) == Some(v@[i as int]),
            None => last_in_version(v@, *vv) is None,
        },
{
    let mut i: usize = v.len();
    assert(v@.take(i as int) =~= v@);
    while i > 0
        invariant
            i <= v@.len(),
            last_in_version(v@, *vv) == last_in_version(v@.take(i as int), *vv),
        decreases i,
    {
        assert(v@.take(i as int).last() == v@[i - 1]);
        if vv.get(v[i - 1].peer) > v[i - 1].counter {
            return Some(i - 1);
        }
        assert(v@.take(i as int).drop_last() =~= v@.take(i - 1));
        i -= 1;
    }
    None
}

/// The element `key` is recorded alike in `a` and `b`.
pub open spec fn same_elem(a: MovableListOpGroup, b: MovableListOpGroup, key: IdLp) -> bool {
    &&& a.tracks(key) == b.tracks(key)
    &&& a.poses(key) == b.poses(key)
    &&& a.values(key) == b.values(key)
}

impl MovableListOpGroup {
    /// Every element's runs are in order.
    pub closed spec fn well_formed(&self) -> bool {
        forall|i: int| 0 <= i < self.elem_mappings@.len() ==> target_well_formed(#[trigger] self.elem_mappings@[i].1)
    }

    /// Whether some op touched the element `key`.
    pub closed spec fn tracks(&self, key: IdLp) -> bool {
        key_index(self.elem_mappings@, key) >= 0
    }

    /// The positions the element `key` was given, in order (empty when no
    /// op touched it).
    pub closed spec fn poses(&self, key: IdLp) -> Seq<GroupedMapOpInfo<()>> {
        let i = key_index(self.elem_mappings@, key);
        if i >= 0 {
            target_poses(self.elem_mappings@[i].1, key)
        } else {
            Seq::empty()
        }
    }

    /// The values the element `key` was given, in order.
    pub closed spec fn values(&self, key: IdLp) -> Seq<GroupedMapOpInfo<LoroValueView>> {
        let i = key_index(self.elem_mappings@, key);
        if i >= 0 {
            target_values(self.elem_mappings@[i].1, key)
        } else {
            Seq::empty()
        }
    }

    /// The element a move put at the position `pos`.
    pub closed spec fn moved_to(&self, pos: IdLp) -> Option<IdLp> {
        let i = key_index(self.pos_to_elem@, pos);
        if i >= 0 {
            Some(self.pos_to_elem@[i].1)
        } else {
            None
        }
    }

    /// Replaces the target of the entry at `i`, keyed `key`, by `t`.
    fn replace_target(&mut self, i: usize, key: IdLp, t: MovableListTarget)
        requires
            old(self).well_formed(),
            i < old(self).elem_mappings@.len(),
            old(self).elem_mappings@[i as int].0 == key,
            key_index(old(self).elem_mappings@, key) == i,
            target_well_formed(t),
        ensures
            final(self).well_formed(),
            final(self).tracks(key),
            final(self).poses(key) == target_poses(t, key),
            final(self).values(key) == target_values(t, key),
            forall|k: IdLp| k != key ==> same_elem(*final(self), *old(self), k),
            final(self).pos_to_elem == old(self).pos_to_elem,
    {
        let ghost s = self.elem_mappings@;
        self.elem_mappings.set(i, (key, t));
        proof {
            assert(self.elem_mappings@ == s.update(i as int, (key, t)));
            assert forall|k: IdLp| k != key implies same_elem(*self, *old(self), k) by {
                lemma_key_index_update(s, i as int, (key, t), k);
                lemma_key_index(s, k);
                let j = key_index(s, k);
                if j >= 0 {
                    assert(j != i);
                    assert(self.elem_mappings@[j] == s[j]);
                }
            }
            lemma_key_index_update(s, i as int, (key, t), key);
            assert forall|j: int| 0 <= j < self.elem_mappings@.len() implies target_well_formed(
                #[trigger] self.elem_mappings@[j].1,
            ) by {
                if j != i {
                    assert(self.elem_mappings@[j] == s[j]);
                }
            }
        }
    }

    /// Appends an entry for `key`, which no entry has.
    fn push_target(&mut self, key: IdLp, t: MovableListTarget)
        requires
            old(self).well_formed(),
            key_index(old(self).elem_mappings@, key) < 0,
            target_well_formed(t),
        ensures
            final(self).well_formed(),
            final(self).tracks(key),
            final(self).poses(key) == target_poses(t, key),
            final(self).values(key) == target_values(t, key),
            forall|k: IdLp| k != key ==> same_elem(*final(self), *old(self), k),
            final(self).pos_to_elem == old(self).pos_to_elem,
    {
        let ghost s = self.elem_mappings@;
        self.elem_mappings.push((key, t));
        proof {
            assert(self.elem_mappings@ == s.push((key, t)));
            assert forall|k: IdLp| k != key implies same_elem(*self, *old(self), k) by {
                lemma_key_index_push(s, (key, t), k);
                lemma_key_index(s, k);
                let j = key_index(s, k);
                if j >= 0 {
                    assert(self.elem_mappings@[j] == s[j]);
                }
            }
            assert forall|j: int| 0 <= j < self.elem_mappings@.len() implies target_well_formed(
                #[trigger] self.elem_mappings@[j].1,
            ) by {
                if j < s.len() {
                    assert(self.elem_mappings@[j] == s[j]);
                }
            }
            lemma_key_index_push(s, (key, t), key);
        }
    }

    /// Takes the target of the entry at `i` out, leaving an empty one.
    fn take_target(&mut self, i: usize) -> (r: MovableListTarget)
        requires
            old(self).well_formed(),
            i < old(self).elem_mappings@.len(),
        ensures
            r == old(self).elem_mappings@[i as int].1,
            final(self).elem_mappings@ == old(self).elem_mappings@.update(
                i as int,
                (old(self).elem_mappings@[i as int].0, final(self).elem_mappings@[i as int].1),
            ),
            final(self).well_formed(),
            final(self).pos_to_elem == old(self).pos_to_elem,
            forall|k: IdLp| k != old(self).elem_mappings@[i as int].0 ==> same_elem(*final(self), *old(self), k),
    {
        let key = self.elem_mappings[i].0;
        let empty = MovableListTarget::Multiple(MultipleInner { poses: Vec::new(), values: Vec::new() });
        let (_, t) = self.elem_mappings.remove(i);
        self.elem_mappings.insert(i, (key, empty));
        proof {
            assert(self.elem_mappings@ =~= old(self).elem_mappings@.update(
                i as int,
                (old(self).elem_mappings@[i as int].0, self.elem_mappings@[i as int].1),
            ));
            assert forall|j: int| 0 <= j < self.elem_mappings@.len() implies target_well_formed(
                #[trigger] self.elem_mappings@[j].1,
            ) by {
                if j != i {
                    assert(self.elem_mappings@[j] == old(self).elem_mappings@[j]);
                }
            }
            let s = old(self).elem_mappings@;
            assert forall|k: IdLp| k != key implies same_elem(*self, *old(self), k) by {
                lemma_key_index_update(s, i as int, (key, self.elem_mappings@[i as int].1), k);
                lemma_key_index(s, k);
                let j = key_index(s, k);
                if j >= 0 {
                    assert(j != i);
                    assert(self.elem_mappings@[j] == s[j]);
                }
            }
        }
        t
    }

    /// Records a set of the element `key`.
    fn record_value(&mut self, key: IdLp, x: GroupedMapOpInfo<LoroValue>)
        requires
            old(self).well_formed(),
        ensures
            final(self).well_formed(),
            final(self).tracks(key),
            final(self).poses(key) == old(self).poses(key),
            final(self).values(key) == sorted_insert(old(self).values(key), value_info_view(x)),
            forall|k: IdLp| k != key ==> same_elem(*final(self), *old(self), k),
            final(self).pos_to_elem == old(self).pos_to_elem,
    {
        match find_key(&self.elem_mappings, key) {
            Some(i) => {
                proof {
                    lemma_key_index(self.elem_mappings@, key);
                    lemma_key_index_update(
                        old(self).elem_mappings@,
                        i as int,
                        (key, old(self).elem_mappings@[i as int].1),
                        key,
                    );
                }
                let mut t = self.take_target(i);
                let ghost mid = *self;
                proof {
                    lemma_key_index_update(old(self).elem_mappings@, i as int, (key, mid.elem_mappings@[i as int].1), key);
                }
                t.add_value(key, x);
                self.replace_target(i, key, t);
                proof {
                    assert forall|k: IdLp| k != key implies same_elem(*self, *old(self), k) by {
                        assert(same_elem(*self, mid, k));
                        assert(same_elem(mid, *old(self), k));
                    }
                }
            },
            None => {
                let mut t = MovableListTarget::Multiple(MultipleInner { poses: Vec::new(), values: Vec::new() });
                assert(target_values(t, key) =~= Seq::<GroupedMapOpInfo<LoroValueView>>::empty());
                assert(target_poses(t, key) =~= Seq::<GroupedMapOpInfo<()>>::empty());
                t.add_value(key, x);
                self.push_target(key, t);
            },
        }
    }

    /// Records a move of the element `key`.
    fn record_pos(&mut self, key: IdLp, x: GroupedMapOpInfo<()>)
        requires
            old(self).well_formed(),
        ensures
            final(self).well_formed(),
            final(self).tracks(key),
            final(self).poses(key) == sorted_insert(old(self).poses(key), x),
            final(self).values(key) == old(self).values(key),
            forall|k: IdLp| k != key ==> same_elem(*final(self), *old(self), k),
            final(self).pos_to_elem == old(self).pos_to_elem,
    {
        match find_key(&self.elem_mappings, key) {
            Some(i) => {
                proof {
                    lemma_key_index(self.elem_mappings@, key);
                }
                let mut t = self.take_target(i);
                let ghost mid = *self;
                proof {
                    lemma_key_index_update(old(self).elem_mappings@, i as int, (key, mid.elem_mappings@[i as int].1), key);
                }
                t.add_pos(key, x);
                self.replace_target(i, key, t);
                proof {
                    assert forall|k: IdLp| k != key implies same_elem(*self, *old(self), k) by {
                        assert(same_elem(*self, mid, k));
                        assert(same_elem(mid, *old(self), k));
                    }
                }
            },
            None => {
                let mut t = MovableListTarget::Multiple(MultipleInner { poses: Vec::new(), values: Vec::new() });
                assert(target_values(t, key) =~= Seq::<GroupedMapOpInfo<LoroValueView>>::empty());
                assert(target_poses(t, key) =~= Seq::<GroupedMapOpInfo<()>>::empty());
                t.add_pos(key, x);
                self.push_target(key, t);
            },
        }
    }

    /// Records the insert of the element `key` with `value` by the op of
    /// counter `counter`.
    fn record_insert(&mut self, key: IdLp, value: LoroValue, counter: Counter)
        requires
            old(self).well_formed(),
        ensures
            final(self).well_formed(),
            final(self).tracks(key),
            final(self).poses(key) == sorted_insert(
                old(self).poses(key),
                GroupedMapOpInfo { value: (), counter, lamport: key.lamport, peer: key.peer },
            ),
            final(self).values(key) == sorted_insert(
                old(self).values(key),
                GroupedMapOpInfo { value: value@, counter, lamport: key.lamport, peer: key.peer },
            ),
            forall|k: IdLp| k != key ==> same_elem(*final(self), *old(self), k),
            final(self).pos_to_elem == old(self).pos_to_elem,
    {
        match find_key(&self.elem_mappings, key) {
            Some(i) => {
                proof {
                    lemma_key_index(self.elem_mappings@, key);
                }
                let mut t = self.take_target(i);
                let ghost mid = *self;
                proof {
                    lemma_key_index_update(old(self).elem_mappings@, i as int, (key, mid.elem_mappings@[i as int].1), key);
                }
                t.add_pos(key, GroupedMapOpInfo { value: (), counter, lamport: key.lamport, peer: key.peer });
                let v = GroupedMapOpInfo { value, counter, lamport: key.lamport, peer: key.peer };
                assert(value_info_view(v) == GroupedMapOpInfo { value: value@, counter, lamport: key.lamport, peer: key.peer });
                t.add_value(key, v);
                self.replace_target(i, key, t);
                proof {
                    assert forall|k: IdLp| k != key implies same_elem(*self, *old(self), k) by {
                        assert(same_elem(*self, mid, k));
                        assert(same_elem(mid, *old(self), k));
                    }
                }
            },
            None => {
                let t = MovableListTarget::One { value, counter };
                self.push_target(key, t);
            },
        }
    }

    /// Records that the position `pos` holds the element `elem`.
    fn record_move_target(&mut self, pos: IdLp, elem: IdLp)
        ensures
            final(self).elem_mappings == old(self).elem_mappings,
            final(self).moved_to(pos) == Some(elem),
            forall|p: IdLp| p != pos ==> final(self).moved_to(p) == old(self).moved_to(p),
    {
        let ghost s = self.pos_to_elem@;
        match find_key(&self.pos_to_elem, pos) {
            Some(i) => {
                proof {
                    lemma_key_index(s, pos);
                }
                self.pos_to_elem.set(i, (pos, elem));
                proof {
                    lemma_key_index_update(s, i as int, (pos, elem), pos);
                    assert forall|p: IdLp| p != pos implies self.moved_to(p) == old(self).moved_to(p) by {
                        lemma_key_index_update(s, i as int, (pos, elem), p);
                        lemma_key_index(s, p);
                        let j = key_index(s, p);
                        if j >= 0 {
                            assert(j != i);
                            assert(self.pos_to_elem@[j] == s[j]);
                        }
                    }
                }
            },
            None => {
                self.pos_to_elem.push((pos, elem));
                proof {
                    lemma_key_index_push(s, (pos, elem), pos);
                    assert forall|p: IdLp| p != pos implies self.moved_to(p) == old(self).moved_to(p) by {
                        lemma_key_index_push(s, (pos, elem), p);
                        lemma_key_index(s, p);
                        let j = key_index(s, p);
                        if j >= 0 {
                            assert(self.pos_to_elem@[j] == s[j]);
                        }
                    }
                }
            },
        }
    }

    /// Records a movable-list op: a set adds a value to its element, an
    /// insert adds each new element's first position and value, a move adds
    /// a position to its element and remembers which element the new
    /// position holds; deletions are not recorded.
    pub fn insert(&mut self, op: &MovableListOp)
        requires
            old(self).well_formed(),
            op_ids_fit(*op),
        ensures
            final(self).well_formed(),
            op_recorded(*old(self), *final(self), *op),
    {
        match &op.content {
            MovableListOpContent::SetValue { elem_id, value } => {
                let x = GroupedMapOpInfo { value: value.duplicate(), counter: op.counter, lamport: op.lamport, peer: op.peer };
                assert(value_info_view(x) == value_stamp(*op, 0, value@));
                self.record_value(*elem_id, x);
                assert(op_recorded(*old(self), *self, *op));
            },
            MovableListOpContent::Insert { values } => {
                let ghost a = *old(self);
                let n = values.len();
                let mut i: usize = 0;
                while i < n
                    invariant
                        self.well_formed(),
                        op_ids_fit(*op),
                        op.content is Insert,
                        *values == op.content->Insert_values,
                        n == values@.len(),
                        i <= n,
                        a == *old(self),
                        forall|j: int|
                            0 <= j < i ==> {
                                let k = #[trigger] inserted_id(*op, j);
                                &&& self.tracks(k)
                                &&& self.poses(k) == sorted_insert(a.poses(k), pos_stamp(*op, j))
                                &&& self.values(k) == sorted_insert(a.values(k), value_stamp(*op, j, values@[j]@))
                            },
                        forall|k: IdLp|
                            (forall|j: int| 0 <= j < i ==> k != #[trigger] inserted_id(*op, j)) ==> same_elem(*self, a, k),
                        self.pos_to_elem == a.pos_to_elem,
                    decreases n - i,
                {
                    let key = IdLp { peer: op.peer, lamport: op.lamport + i as u32 };
                    let counter = op.counter + i as i32;
                    assert(key == inserted_id(*op, i as int));
                    let ghost before = *self;
                    proof {
                        assert forall|j: int| 0 <= j < i implies key != #[trigger] inserted_id(*op, j) by {}
                        assert(same_elem(before, a, key));
                    }
                    self.record_insert(key, values[i].duplicate(), counter);
                    proof {
                        assert(pos_stamp(*op, i as int) == GroupedMapOpInfo { value: (), counter, lamport: key.lamport, peer: key.peer });
                        assert(value_stamp(*op, i as int, values@[i as int]@) == GroupedMapOpInfo { value: values@[i as int]@, counter, lamport: key.lamport, peer: key.peer });
                        assert forall|j: int| 0 <= j < i + 1 implies {
                            let k = #[trigger] inserted_id(*op, j);
                            &&& self.tracks(k)
                            &&& self.poses(k) == sorted_insert(a.poses(k), pos_stamp(*op, j))
                            &&& self.values(k) == sorted_insert(a.values(k), value_stamp(*op, j, values@[j]@))
                        } by {
                            if j < i {
                                assert(inserted_id(*op, j) != key);
                                assert(same_elem(*self, before, inserted_id(*op, j)));
                            }
                        }
                        assert forall|k: IdLp|
                            (forall|j: int| 0 <= j < i + 1 ==> k != #[trigger] inserted_id(*op, j)) implies same_elem(*self, a, k) by {
                            assert(k != inserted_id(*op, i as int));
                            assert(same_elem(*self, before, k));
                            assert forall|j: int| 0 <= j < i implies k != #[trigger] inserted_id(*op, j) by {
                                assert(k != inserted_id(*op, j));
                            }
                            assert(same_elem(before, a, k));
                        }
                    }
                    i += 1;
                }
                assert(op_recorded(*old(self), *self, *op));
            },
            MovableListOpContent::Move { from_id } => {
                self.record_pos(*from_id, GroupedMapOpInfo { value: (), counter: op.counter, lamport: op.lamport, peer: op.peer });
                let ghost mid = *self;
                self.record_move_target(IdLp { peer: op.peer, lamport: op.lamport }, *from_id);
                proof {
                    assert(pos_stamp(*op, 0) == GroupedMapOpInfo { value: (), counter: op.counter, lamport: op.lamport, peer: op.peer });
                    assert forall|k: IdLp| k != *from_id implies same_elem(*self, *old(self), k) by {
                        assert(same_elem(*self, mid, k));
                        assert(same_elem(mid, *old(self), k));
                    }
                    assert(same_elem(*self, mid, *from_id));
                    assert forall|p: IdLp| p != (IdLp { peer: op.peer, lamport: op.lamport }) implies self.moved_to(p) == old(self).moved_to(p) by {
                        assert(mid.moved_to(p) == old(self).moved_to(p));
                    }
                }
                assert(op_recorded(*old(self), *self, *op));
            },
            MovableListOpContent::Delete => {
                assert(op_recorded(*old(self), *self, *op));
            },
        }
    }

    /// The last position of the element `key` whose op the version `vv`
    /// includes.
    pub fn last_pos(&self, key: &IdLp, vv: &VersionVector) -> (r: Option<GroupedMapOpInfo<()>>)
        requires
            self.well_formed(),
        ensures
            r == last_in_version(self.poses(*key), *vv),
    {
        match find_key(&self.elem_mappings, *key) {
            None => {
                assert(last_in_version(self.poses(*key), *vv) is None);
                None
            },
            Some(i) => {
                proof {
                    lemma_key_index(self.elem_mappings@, *key);
                }
                match &self.elem_mappings[i].1 {
                    MovableListTarget::One { value: _, counter } => {
                        let x = GroupedMapOpInfo { value: (), counter: *counter, lamport: key.lamport, peer: key.peer };
                        assert(self.poses(*key) =~= seq![x]);
                        assert(seq![x].drop_last() =~= Seq::<GroupedMapOpInfo<()>>::empty());
                        assert(seq![x].last() == x);
                        if vv.get(key.peer) > *counter {
                            assert(info_in_version(x, *vv));
                            assert(last_in_version(seq![x], *vv) == Some(x));
                            Some(x)
                        } else {
                            assert(last_in_version(Seq::<GroupedMapOpInfo<()>>::empty(), *vv) is None);
                            assert(last_in_version(seq![x], *vv) is None);
                            None
                        }
                    },
                    MovableListTarget::Multiple(m) => {
                        assert(self.poses(*key) == m.poses@);
                        match last_included(&m.poses, vv) {
                            Some(j) => {
                                assert(last_in_version(self.poses(*key), *vv) == Some(m.poses@[j as int]));
                                Some(m.poses[j])
                            },
                            None => None,
                        }
                    },
                }
            },
        }
    }

    /// The last value of the element `key` whose op the version `vv`
    /// includes.
    pub fn last_value(&self, key: &IdLp, vv: &VersionVector) -> (r: Option<GroupedMapOpInfo<LoroValue>>)
        requires
            self.well_formed(),
        ensures
            match r {
                Some(x) => last_in_version(self.values(*key), *vv) == Some(value_info_view(x)),
                None => last_in_version(self.values(*key), *vv) is None,
            },
    {
        match find_key(&self.elem_mappings, *key) {
            None => {
                assert(last_in_version(self.values(*key), *vv) is None);
                None
            },
            Some(i) => {
                proof {
                    lemma_key_index(self.elem_mappings@, *key);
                }
                match &self.elem_mappings[i].1 {
                    MovableListTarget::One { value, counter } => {
                        let ghost y = GroupedMapOpInfo { value: value@, counter: *counter, lamport: key.lamport, peer: key.peer };
                        assert(self.values(*key) =~= seq![y]);
                        assert(seq![y].drop_last() =~= Seq::<GroupedMapOpInfo<LoroValueView>>::empty());
                        assert(seq![y].last() == y);
                        if vv.get(key.peer) > *counter {
                            let r = GroupedMapOpInfo { value: value.duplicate(), counter: *counter, lamport: key.lamport, peer: key.peer };
                            assert(value_info_view(r) == y);
                            assert(info_in_version(y, *vv));
                            assert(last_in_version(seq![y], *vv) == Some(y));
                            Some(r)
                        } else {
                            assert(last_in_version(Seq::<GroupedMapOpInfo<LoroValueView>>::empty(), *vv) is None);
                            assert(last_in_version(seq![y], *vv) is None);
                            None
                        }
                    },
                    MovableListTarget::Multiple(m) => {
                        let ghost w = value_infos_view(m.values@);
                        assert(self.values(*key) == w);
                        proof {
                            lemma_last_in_version_view(m.values@, *vv);
                        }
                        match last_included(&m.values, vv) {
                            Some(j) => {
                                let x = &m.values[j];
                                let r = GroupedMapOpInfo { value: x.value.duplicate(), counter: x.counter, lamport: x.lamport, peer: x.peer };
                                assert(value_info_view(r) == value_info_view(m.values@[j as int]));
                                Some(r)
                            },
                            None => None,
                        }
                    },
                }
            },
        }
    }

    /// The element the position `pos` holds: the element a move put there,
    /// or `pos` itself, the position an insert gave its element.
    pub fn get_elem_from_pos(&self, pos: IdLp) -> (r: IdLp)
        ensures
            r == match self.moved_to(pos) {
                Some(e) => e,
                None => pos,
            },
    {
        match find_key(&self.pos_to_elem, pos) {
            Some(i) => {
                proof {
                    lemma_key_index(self.pos_to_elem@, pos);
                }
                self.pos_to_elem[i].1
            },
            None => pos,
        }
    }

    pub fn new() -> (r: MovableListOpGroup)
        ensures
            r.well_formed(),
            forall|k: IdLp| !r.tracks(k) && r.poses(k) == Seq::<GroupedMapOpInfo<()>>::empty() && r.values(k)
                == Seq::<GroupedMapOpInfo<LoroValueView>>::empty(),
            forall|p: IdLp| r.moved_to(p) is None,
    {
        MovableListOpGroup { elem_mappings: Vec::new(), pos_to_elem: Vec::new() }
    }
}

/// The number of ids an op takes: one per inserted element for an insert,
/// one otherwise.
pub open spec fn op_len(op: MovableListOp) -> int {
    match op.content {
        MovableListOpContent::Insert { values } => values@.len() as int,
        _ => 1,
    }
}

/// The (peer, lamport) ids of two ops do not overlap.
pub open spec fn ops_distinct(a: MovableListOp, b: MovableListOp) -> bool {
    a.peer != b.peer || a.lamport + op_len(a) <= b.lamport || b.lamport + op_len(b) <= a.lamport
}

/// `k` is one of the elements `op` inserts.
pub open spec fn inserts_elem(op: MovableListOp, k: IdLp) -> bool {
    op.content is Insert && k.peer == op.peer && op.lamport <= k.lamport < op.lamport + op_len(op)
}

/// Whether recording `op` touches the element `k`.
pub open spec fn touches(op: MovableListOp, k: IdLp) -> bool {
    match op.content {
        MovableListOpContent::SetValue { elem_id, .. } => k == elem_id,
        MovableListOpContent::Insert { .. } => inserts_elem(op, k),
        MovableListOpContent::Move { from_id } => k == from_id,
        MovableListOpContent::Delete => false,
    }
}

/// The positions of the element `k` once `op` is recorded, from `s`, those
/// before.
pub open spec fn poses_after(op: MovableListOp, k: IdLp, s: Seq<GroupedMapOpInfo<()>>) -> Seq<GroupedMapOpInfo<()>> {
    match op.content {
        MovableListOpContent::Insert { .. } => if inserts_elem(op, k) {
            sorted_insert(s, pos_stamp(op, k.lamport - op.lamport))
        } else {
            s
        },
        MovableListOpContent::Move { from_id } => if k == from_id {
            sorted_insert(s, pos_stamp(op, 0))
        } else {
            s
        },
        _ => s,
    }
}

/// The values of the element `k` once `op` is recorded, from `s`.
pub open spec fn values_after(op: MovableListOp, k: IdLp, s: Seq<GroupedMapOpInfo<LoroValueView>>) -> Seq<
    GroupedMapOpInfo<LoroValueView>,
> {
    match op.content {
        MovableListOpContent::SetValue { elem_id, value } => if k == elem_id {
            sorted_insert(s, value_stamp(op, 0, value@))
        } else {
            s
        },
        MovableListOpContent::Insert { values } => if inserts_elem(op, k) {
            sorted_insert(s, value_stamp(op, k.lamport - op.lamport, values@[k.lamport - op.lamport]@))
        } else {
            s
        },
        _ => s,
    }
}

/// The element the position `p` holds once `op` is recorded, from `m`.
pub open spec fn moved_after(op: MovableListOp, p: IdLp, m: Option<IdLp>) -> Option<IdLp> {
    match op.content {
        MovableListOpContent::Move { from_id } => if p == (IdLp { peer: op.peer, lamport: op.lamport }) {
            Some(from_id)
        } else {
            m
        },
        _ => m,
    }
}

/// The effect of recording `op` on the element `k`.
pub open spec fn elem_effect(a: MovableListOpGroup, b: MovableListOpGroup, op: MovableListOp, k: IdLp) -> bool {
    &&& b.tracks(k) == (a.tracks(k) || touches(op, k))
    &&& b.poses(k) == poses_after(op, k, a.poses(k))
    &&& b.values(k) == values_after(op, k, a.values(k))
}

proof fn lemma_op_recorded_elem(a: MovableListOpGroup, b: MovableListOpGroup, op: MovableListOp, k: IdLp)
    requires
        op_ids_fit(op),
        op_recorded(a, b, op),
    ensures
        elem_effect(a, b, op, k),
{
    match op.content {
        MovableListOpContent::Insert { values } => {
            assert(op_len(op) == values@.len());
            if inserts_elem(op, k) {
                let i = k.lamport - op.lamport;
                assert(0 <= i < values@.len());
                assert(inserted_id(op, i) == k);
            } else {
                assert forall|i: int| 0 <= i < values@.len() implies k != #[trigger] inserted_id(op, i) by {
                    if k == inserted_id(op, i) {
                        assert(k.lamport == op.lamport + i);
                    }
                }
                assert(same_elem(b, a, k));
            }
        },
        MovableListOpContent::SetValue { elem_id, .. } => {
            if k != elem_id {
                assert(same_elem(b, a, k));
            }
        },
        MovableListOpContent::Move { from_id } => {
            if k != from_id {
                assert(same_elem(b, a, k));
            }
        },
        MovableListOpContent::Delete => {
            assert(same_elem(b, a, k));
        },
    }
}

/// Recording an op changes each element and position by the op's effect on
/// it alone.
pub proof fn lemma_op_recorded_effects(a: MovableListOpGroup, b: MovableListOpGroup, op: MovableListOp)
    requires
        op_ids_fit(op),
        op_recorded(a, b, op),
    ensures
        forall|k: IdLp| #[trigger] elem_effect(a, b, op, k),
        forall|p: IdLp| #[trigger] b.moved_to(p) == moved_after(op, p, a.moved_to(p)),
{
    assert forall|k: IdLp| #[trigger] elem_effect(a, b, op, k) by {
        lemma_op_recorded_elem(a, b, op, k);
    }
}

/// Ids of distinct ops give stamps that never share an id.
proof fn lemma_distinct_stamps(op1: MovableListOp, op2: MovableListOp, i: int, j: int)
    requires
        ops_distinct(op1, op2),
        op_ids_fit(op1),
        op_ids_fit(op2),
        0 <= i < op_len(op1),
        0 <= j < op_len(op2),
    ensures
        !info_same(pos_stamp(op1, i), pos_stamp(op2, j)),
        forall|v: LoroValueView, w: LoroValueView| !info_same(#[trigger] value_stamp(op1, i, v), #[trigger] value_stamp(op2, j, w)),
{
}

/// Recording two ops with distinct ids in either order leaves every
/// element with the same positions and values, and every position holding
/// the same element: the order in which ops arrive does not matter.
pub proof fn lemma_movable_list_ops_commute(
    a: MovableListOpGroup,
    b1: MovableListOpGroup,
    c1: MovableListOpGroup,
    b2: MovableListOpGroup,
    c2: MovableListOpGroup,
    op1: MovableListOp,
    op2: MovableListOp,
)
    requires
        op_ids_fit(op1),
        op_ids_fit(op2),
        ops_distinct(op1, op2),
        op_recorded(a, b1, op1),
        op_recorded(b1, c1, op2),
        op_recorded(a, b2, op2),
        op_recorded(b2, c2, op1),
    ensures
        forall|k: IdLp| same_elem(c1, c2, k),
        forall|p: IdLp| c1.moved_to(p) == c2.moved_to(p),
{
    lemma_op_recorded_effects(a, b1, op1);
    lemma_op_recorded_effects(b1, c1, op2);
    lemma_op_recorded_effects(a, b2, op2);
    lemma_op_recorded_effects(b2, c2, op1);
    assert forall|k: IdLp| same_elem(c1, c2, k) by {
        assert(elem_effect(a, b1, op1, k));
        assert(elem_effect(b1, c1, op2, k));
        assert(elem_effect(a, b2, op2, k));
        assert(elem_effect(b2, c2, op1, k));
        assert(c1.tracks(k) == (b1.tracks(k) || touches(op2, k)));
        assert(b1.tracks(k) == (a.tracks(k) || touches(op1, k)));
        assert(c2.tracks(k) == (b2.tracks(k) || touches(op1, k)));
        assert(b2.tracks(k) == (a.tracks(k) || touches(op2, k)));
        let i1 = if op1.content is Insert { k.lamport - op1.lamport } else { 0 };
        let i2 = if op2.content is Insert { k.lamport - op2.lamport } else { 0 };
        if touches(op1, k) && touches(op2, k) && 0 <= i1 < op_len(op1) && 0 <= i2 < op_len(op2) {
            lemma_distinct_stamps(op1, op2, i1, i2);
        }
        let p = a.poses(k);
        if op1.content is Insert && inserts_elem(op1, k) || op1.content is Move && touches(op1, k) {
            if op2.content is Insert && inserts_elem(op2, k) || op2.content is Move && touches(op2, k) {
                let x = pos_stamp(op1, i1);
                let y = pos_stamp(op2, i2);
                assert(!info_same(x, y));
                lemma_sorted_insert_commutes(p, x, y);
            }
        }
        let v = a.values(k);
        if (op1.content is SetValue || op1.content is Insert) && touches(op1, k) {
            if (op2.content is SetValue || op2.content is Insert) && touches(op2, k) {
                let x = match op1.content {
                    MovableListOpContent::SetValue { value, .. } => value_stamp(op1, 0, value@),
                    MovableListOpContent::Insert { values } => value_stamp(op1, i1, values@[i1]@),
                    _ => value_stamp(op1, 0, LoroValueView::Null),
                };
                let y = match op2.content {
                    MovableListOpContent::SetValue { value, .. } => value_stamp(op2, 0, value@),
                    MovableListOpContent::Insert { values } => value_stamp(op2, i2, values@[i2]@),
                    _ => value_stamp(op2, 0, LoroValueView::Null),
                };
                assert(!info_same(x, y));
                lemma_sorted_insert_commutes(v, x, y);
            }
        }
    }
    assert forall|p: IdLp| c1.moved_to(p) == c2.moved_to(p) by {
        assert(c1.moved_to(p) == moved_after(op2, p, b1.moved_to(p)));
        assert(c2.moved_to(p) == moved_after(op1, p, b2.moved_to(p)));
    }
}

} // verus!
