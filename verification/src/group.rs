//! Map ops grouped by key, each group kept in the order of the ops'
//! (lamport, peer) ids, to answer which write of a key wins at a version.
use vstd::prelude::*;
use crate::common::{Counter, ID, PeerID};
use crate::oplog::{Op, OpContent, OpValue};
use crate::version::VersionVector;

pub mod movable_list;

verus! {

/// A (peer, lamport) id of an op.
#[derive(Debug, Clone, Copy, PartialEq, Eq, Structural)]
pub struct IdLp {
    pub peer: PeerID,
    pub lamport: u32,
}

/// What a group keeps of a map op: the value it set (`None` for a
/// deletion), its counter, its lamport timestamp and its peer.
#[derive(Debug, Clone, Copy, PartialEq, Eq, Structural)]
pub struct GroupedMapOpInfo<T = Option<OpValue>> {
    pub value: T,
    pub counter: Counter,
    pub lamport: u32,
    pub peer: PeerID,
}

/// The order of grouped ops: by lamport timestamp, then by peer.
pub open spec fn info_lt<A, B>(a: GroupedMapOpInfo<A>, b: GroupedMapOpInfo<B>) -> bool {
    a.lamport < b.lamport || (a.lamport == b.lamport && a.peer < b.peer)
}

/// Two grouped ops sit at the same place of the order.
pub open spec fn info_same<A, B>(a: GroupedMapOpInfo<A>, b: GroupedMapOpInfo<B>) -> bool {
    a.lamport == b.lamport && a.peer == b.peer
}

/// `after` is `before` with `info` inserted at some place.
pub open spec fn inserted_into<T>(before: Seq<GroupedMapOpInfo<T>>, after: Seq<GroupedMapOpInfo<T>>, info: GroupedMapOpInfo<T>) -> bool {
    exists|p: int| 0 <= p <= before.len() && after == before.insert(p, info)
}

/// Some op of `s` sits at the same place of the order as `info`.
pub open spec fn has_same<T>(s: Seq<GroupedMapOpInfo<T>>, info: GroupedMapOpInfo<T>) -> bool {
    exists|i: int| 0 <= i < s.len() && info_same(s[i], info)
}

/// Strictly increasing in the order of grouped ops.
pub open spec fn infos_sorted<T>(s: Seq<GroupedMapOpInfo<T>>) -> bool {
    forall|i: int, j: int| 0 <= i < j < s.len() ==> info_lt(#[trigger] s[i], #[trigger] s[j])
}

impl<T> GroupedMapOpInfo<T> {
    pub fn id(&self) -> (r: ID)
        ensures
            r == (ID { peer: self.peer, counter: self.counter }),
    {
        ID::new(self.peer, self.counter)
    }

    pub fn idlp(&self) -> (r: IdLp)
        ensures
            r == (IdLp { peer: self.peer, lamport: self.lamport }),
    {
        IdLp { peer: self.peer, lamport: self.lamport }
    }

    /// Whether this op comes before `other`.
    pub fn lt<U>(&self, other: &GroupedMapOpInfo<U>) -> (r: bool)
        ensures
            r == info_lt(*self, *other),
    {
        self.lamport < other.lamport || (self.lamport == other.lamport && self.peer < other.peer)
    }

    /// Whether this op and `other` sit at the same place of the order.
    pub fn same<U>(&self, other: &GroupedMapOpInfo<U>) -> (r: bool)
        ensures
            r == info_same(*self, *other),
    {
        self.lamport == other.lamport && self.peer == other.peer
    }
}

/// A set of grouped ops that keeps none, one, or several of them, in order.
#[derive(Debug, Clone)]
pub enum SmallSet {
    Empty,
    One(GroupedMapOpInfo),
    Many(Vec<GroupedMapOpInfo>),
}

impl View for SmallSet {
    type V = Seq<GroupedMapOpInfo>;

    open spec fn view(&self) -> Seq<GroupedMapOpInfo> {
        match self {
            SmallSet::Empty => Seq::empty(),
            SmallSet::One(v) => seq![*v],
            SmallSet::Many(v) => v@,
        }
    }
}

impl SmallSet {
    /// The ops are kept in increasing order.
    pub open spec fn well_formed(&self) -> bool {
        infos_sorted(self@)
    }

    pub fn new() -> (r: SmallSet)
        ensures
            r@ == Seq::<GroupedMapOpInfo>::empty(),
            r.well_formed(),
    {
        SmallSet::Empty
    }

    /// Adds an op unless one with the same (lamport, peer) id is already
    /// there, in which case the set keeps the op it has.
    pub fn insert(&mut self, new_value: GroupedMapOpInfo)
        requires
            old(self).well_formed(),
        ensures
            final(self).well_formed(),
            has_same(old(self)@, new_value) ==> final(self)@ == old(self)@,
            !has_same(old(self)@, new_value) ==> inserted_into(old(self)@, final(self)@, new_value),
    {
        match self {
            SmallSet::Empty => {
                *self = SmallSet::One(new_value);
                assert(self@ =~= Seq::<GroupedMapOpInfo>::empty().insert(0, new_value));
            },
            SmallSet::One(v) => {
                let v = *v;
                if !v.same(&new_value) {
                    let mut set: Vec<GroupedMapOpInfo> = Vec::new();
                    if v.lt(&new_value) {
                        set.push(v);
                        set.push(new_value);
                        assert(set@ =~= seq![v].insert(1, new_value));
                    } else {
                        set.push(new_value);
                        set.push(v);
                        assert(set@ =~= seq![v].insert(0, new_value));
                    }
                    *self = SmallSet::Many(set);
                } else {
                    assert(info_same(old(self)@[0], new_value));
                }
            },
            SmallSet::Many(set) => {
                let ghost s = set@;
                let mut i: usize = 0;
                while i < set.len() && set[i].lt(&new_value)
                    invariant
                        i <= set@.len(),
                        set@ == s,
                        infos_sorted(s),
                        forall|j: int| 0 <= j < i ==> info_lt(#[trigger] s[j], new_value),
                    decreases set.len() - i,
                {
                    i += 1;
                }
                if i < set.len() && set[i].same(&new_value) {
                    assert(info_same(s[i as int], new_value));
                    return ;
                }
                proof {
                    assert forall|j: int| 0 <= j < s.len() implies !info_same(s[j], new_value) by {
                        if j >= i {
                            assert(info_lt(new_value, s[i as int]));
                            if j > i {
                                assert(info_lt(s[i as int], s[j]));
                            }
                        }
                    }
                    assert forall|j: int| i <= j < s.len() implies info_lt(new_value, s[j]) by {
                        assert(info_lt(new_value, s[i as int]));
                        if j > i {
                            assert(info_lt(s[i as int], s[j]));
                        }
                    }
                }
                set.insert(i, new_value);
                assert(set@ =~= s.insert(i as int, new_value));
                assert(infos_sorted(set@)) by {
                    assert forall|a: int, b: int|
                        0 <= a < b < set@.len() implies info_lt(
                        #[trigger] set@[a],
                        #[trigger] set@[b],
                    ) by {
                        if b < i {
                        } else if b == i {
                        } else if a < i {
                            assert(info_lt(s[a], new_value));
                            assert(info_lt(new_value, s[b - 1]));
                        } else if a == i {
                            assert(set@[b] == s[b - 1]);
                        } else {
                            assert(set@[a] == s[a - 1]);
                            assert(set@[b] == s[b - 1]);
                        }
                    }
                }
            },
        }
    }

    /// The number of ops kept.
    pub fn len(&self) -> (r: usize)
        ensures
            r == self@.len(),
    {
        match self {
            SmallSet::Empty => 0,
            SmallSet::One(_) => 1,
            SmallSet::Many(v) => v.len(),
        }
    }

    /// The `i`-th op in increasing order.
    pub fn get(&self, i: usize) -> (r: &GroupedMapOpInfo)
        requires
            i < self@.len(),
        ensures
            *r == self@[i as int],
    {
        match self {
            SmallSet::Empty => vstd::pervasive::unreached(),
            SmallSet::One(v) => v,
            SmallSet::Many(v) => &v[i],
        }
    }

    /// An iterator over the ops in increasing order, from either end.
    pub fn iter(&self) -> (r: SmallSetIter<'_>)
        ensures
            r.remaining() == self@,
    {
        let n = self.len();
        let r = SmallSetIter { set: self, front: 0, back: n };
        assert(self@.subrange(0, n as int) =~= self@);
        r
    }
}

/// An iterator over a small set's ops, in increasing order from the front
/// and in decreasing order from the back.
pub struct SmallSetIter<'a> {
    set: &'a SmallSet,
    front: usize,
    back: usize,
}

impl<'a> SmallSetIter<'a> {
    #[verifier::type_invariant]
    spec fn inv(self) -> bool {
        self.front <= self.back <= self.set@.len()
    }

    /// The ops not yet taken from either end.
    pub closed spec fn remaining(&self) -> Seq<GroupedMapOpInfo> {
        self.set@.subrange(self.front as int, self.back as int)
    }

    /// Takes the smallest remaining op.
    pub fn next(&mut self) -> (r: Option<&'a GroupedMapOpInfo>)
        ensures
            old(self).remaining().len() == 0 ==> r is None && final(self).remaining() == old(self).remaining(),
            old(self).remaining().len() > 0 ==> r == Some(&old(self).remaining()[0]) && final(self).remaining()
                == old(self).remaining().drop_first(),
    {
        proof {
            use_type_invariant(&*self);
        }
        if self.front == self.back {
            return None;
        }
        let v = self.set.get(self.front);
        self.front = self.front + 1;
        assert(self.remaining() =~= old(self).remaining().drop_first());
        Some(v)
    }

    /// Takes the largest remaining op.
    pub fn next_back(&mut self) -> (r: Option<&'a GroupedMapOpInfo>)
        ensures
            old(self).remaining().len() == 0 ==> r is None && final(self).remaining() == old(self).remaining(),
            old(self).remaining().len() > 0 ==> r == Some(&old(self).remaining().last()) && final(self).remaining()
                == old(self).remaining().drop_last(),
    {
        proof {
            use_type_invariant(&*self);
        }
        if self.front == self.back {
            return None;
        }
        let v = self.set.get(self.back - 1);
        self.back = self.back - 1;
        assert(self.remaining() =~= old(self).remaining().drop_last());
        Some(v)
    }
}

/// Whether the op of `info` is included in the version `vv`.
pub open spec fn info_in_version<T>(info: GroupedMapOpInfo<T>, vv: VersionVector) -> bool {
    vv.spec_get(info.peer) > info.counter
}

/// The map ops of one map container, grouped by key; each key appears once.
#[derive(Debug, Clone)]
pub struct MapOpGroup {
    ops: Vec<(String, SmallSet)>,
}

/// The group of ops on `key` (empty when no op touched it).
pub open spec fn group_of(ops: Seq<(String, SmallSet)>, key: Seq<char>) -> Seq<GroupedMapOpInfo> {
    if exists|i: int| 0 <= i < ops.len() && ops[i].0@ == key {
        ops[choose|i: int| 0 <= i < ops.len() && ops[i].0@ == key].1@
    } else {
        Seq::empty()
    }
}

impl MapOpGroup {
    /// Every key has one group, and every group is in order.
    pub closed spec fn well_formed(&self) -> bool {
        &&& forall|i: int, j: int|
            0 <= i < j < self.ops@.len() ==> (#[trigger] self.ops@[i]).0@ != (
            #[trigger] self.ops@[j]).0@
        &&& forall|i: int| 0 <= i < self.ops@.len() ==> (#[trigger] self.ops@[i]).1.well_formed()
    }

    /// The ops grouped under `key`, in increasing order.
    pub closed spec fn group(&self, key: Seq<char>) -> Seq<GroupedMapOpInfo> {
        group_of(self.ops@, key)
    }

    pub fn new() -> (r: MapOpGroup)
        ensures
            r.well_formed(),
            forall|k: Seq<char>| r.group(k) == Seq::<GroupedMapOpInfo>::empty(),
    {
        MapOpGroup { ops: Vec::new() }
    }

    /// The index of the group of `key`, if there is one.
    fn find(&self, key: &String) -> (r: Option<usize>)
        requires
            self.well_formed(),
        ensures
            match r {
                Some(i) => i < self.ops@.len() && self.ops@[i as int].0@ == key@ && self.group(key@)
                    == self.ops@[i as int].1@,
                None => forall|i: int| 0 <= i < self.ops@.len() ==> self.ops@[i].0@ != key@,
            },
    {
        let mut i: usize = 0;
        while i < self.ops.len()
            invariant
                self.well_formed(),
                i <= self.ops@.len(),
                forall|j: int| 0 <= j < i ==> self.ops@[j].0@ != key@,
            decreases self.ops.len() - i,
        {
            if self.ops[i].0 == *key {
                proof {
                    let c = choose|j: int| 0 <= j < self.ops@.len() && self.ops@[j].0@ == key@;
                    if c != i {
                        if c < i {
                        } else {
                            assert(self.ops@[i as int].0@ != self.ops@[c].0@);
                        }
                    }
                }
                return Some(i);
            }
            i += 1;
        }
        None
    }

    /// Records a map op in the group of its key. The op must set a map key.
    pub fn insert(&mut self, op: &Op)
        requires
            old(self).well_formed(),
            op.content is MapSet,
        ensures
            final(self).well_formed(),
            forall|k: Seq<char>| k != op.content->MapSet_key@ ==> final(self).group(k) == old(self).group(k),
            ({
                let info = GroupedMapOpInfo {
                    value: op.content->MapSet_value,
                    counter: op.counter,
                    lamport: op.lamport,
                    peer: op.peer,
                };
                let g = old(self).group(op.content->MapSet_key@);
                let h = final(self).group(op.content->MapSet_key@);
                &&& has_same(g, info) ==> h == g
                &&& !has_same(g, info) ==> inserted_into(g, h, info)
            }),
    {
        let (key, value) = match &op.content {
            OpContent::MapSet { key, value } => (key, *value),
            _ => {
                assert(false);
                return ;
            },
        };
        let info = GroupedMapOpInfo { value, counter: op.counter, lamport: op.lamport, peer: op.peer };
        assert(key@ == op.content->MapSet_key@);
        assert(info == (GroupedMapOpInfo {
            value: op.content->MapSet_value,
            counter: op.counter,
            lamport: op.lamport,
            peer: op.peer,
        }));
        let ghost old_ops = self.ops@;
        assert(old_ops == old(self).ops@);
        match self.find(key) {
            Some(i) => {
                let ghost g = old_ops[i as int].1@;
                assert(group_of(old_ops, key@) == g);
                let mut entry = self.ops.remove(i);
                assert(entry == old_ops[i as int]);
                entry.1.insert(info);
                let ghost h = entry.1@;
                self.ops.insert(i, entry);
                proof {
                    assert(self.ops@[i as int].1@ == h);
                    assert(self.ops@ =~= old_ops.update(i as int, self.ops@[i as int]));
                    assert forall|k: Seq<char>| k != key@ implies self.group(k) == group_of(
                        old_ops,
                        k,
                    ) by {
                        lemma_group_of_update(old_ops, i as int, self.ops@[i as int], k);
                    }
                    lemma_group_of_update(old_ops, i as int, self.ops@[i as int], key@);
                    assert(self.ops@[i as int].0@ == key@);
                    assert(group_of(self.ops@, key@) == self.ops@[i as int].1@) by {
                        lemma_group_of_at(self.ops@, i as int);
                    }
                    assert(self.group(key@) == h);
                    if !has_same(g, info) {
                        assert(inserted_into(g, h, info));
                    } else {
                        assert(h == g);
                    }
                }
            },
            None => {
                assert(group_of(old_ops, key@) =~= Seq::<GroupedMapOpInfo>::empty());
                let k = key.clone();
                self.ops.push((k, SmallSet::One(info)));
                proof {
                    let n = old_ops.len() as int;
                    assert(self.ops@ =~= old_ops.push(self.ops@[n]));
                    assert(self.ops@[n].0@ == key@);
                    lemma_group_of_at(self.ops@, n);
                    assert(self.ops@[n].1@ =~= Seq::<GroupedMapOpInfo>::empty().insert(0, info));
                    assert forall|k2: Seq<char>| k2 != key@ implies self.group(k2) == group_of(
                        old_ops,
                        k2,
                    ) by {
                        lemma_group_of_push(old_ops, self.ops@[n], k2);
                    }
                    let g = group_of(old_ops, key@);
                    assert(self.group(key@) == g.insert(0, info));
                    assert(inserted_into(g, self.group(key@), info));
                }
            },
        }
    }

    /// The last op on `key`, in the order of ops, whose op the version `vv`
    /// includes; `None` when it includes none of them.
    pub fn last_op(&self, key: &String, vv: &VersionVector) -> (r: Option<&GroupedMapOpInfo>)
        requires
            self.well_formed(),
        ensures
            match r {
                Some(info) => exists|i: int|
                    0 <= i < self.group(key@).len() && self.group(key@)[i] == *info
                        && info_in_version(*info, *vv) && forall|j: int|
                        i < j < self.group(key@).len() ==> !info_in_version(
                            #[trigger] self.group(key@)[j],
                            *vv,
                        ),
                None => forall|j: int|
                    0 <= j < self.group(key@).len() ==> !info_in_version(
                        #[trigger] self.group(key@)[j],
                        *vv,
                    ),
            },
    {
        match self.find(key) {
            None => {
                assert(self.group(key@) =~= Seq::<GroupedMapOpInfo>::empty());
                None
            },
            Some(idx) => {
                let set = &self.ops[idx].1;
                let ghost g = set@;
                let mut it = set.iter();
                loop
                    invariant
                        g == set@,
                        g == self.group(key@),
                        it.remaining() == g.subrange(0, it.remaining().len() as int),
                        it.remaining().len() <= g.len(),
                        forall|j: int| it.remaining().len() <= j < g.len() ==> !info_in_version(#[trigger] g[j], *vv),
                    decreases it.remaining().len(),
                {
                    let ghost before = it.remaining();
                    match it.next_back() {
                        None => {
                            return None;
                        },
                        Some(op) => {
                            proof {
                                assert(*op == g[before.len() - 1]);
                                assert(it.remaining() =~= g.subrange(0, it.remaining().len() as int));
                            }
                            if vv.get(op.peer) > op.counter {
                                return Some(op);
                            }
                        },
                    }
                }
            },
        }
    }
}

proof fn lemma_group_of_at(ops: Seq<(String, SmallSet)>, i: int)
    requires
        0 <= i < ops.len(),
        forall|a: int, b: int|
            0 <= a < b < ops.len() ==> (#[trigger] ops[a]).0@ != (#[trigger] ops[b]).0@,
    ensures
        group_of(ops, ops[i].0@) == ops[i].1@,
{
    let key = ops[i].0@;
    let c = choose|j: int| 0 <= j < ops.len() && ops[j].0@ == key;
    assert(0 <= c < ops.len() && ops[c].0@ == key);
    if c < i {
        assert(ops[c].0@ != ops[i].0@);
    } else if c > i {
        assert(ops[i].0@ != ops[c].0@);
    }
}

proof fn lemma_group_of_update(ops: Seq<(String, SmallSet)>, i: int, e: (String, SmallSet), k: Seq<char>)
    requires
        0 <= i < ops.len(),
        e.0@ == ops[i].0@,
        forall|a: int, b: int|
            0 <= a < b < ops.len() ==> (#[trigger] ops[a]).0@ != (#[trigger] ops[b]).0@,
    ensures
        k != e.0@ ==> group_of(ops.update(i, e), k) == group_of(ops, k),
{
    let u = ops.update(i, e);
    if k != e.0@ {
        if exists|j: int| 0 <= j < ops.len() && ops[j].0@ == k {
            let c = choose|j: int| 0 <= j < ops.len() && ops[j].0@ == k;
            assert(u[c].0@ == k);
            let d = choose|j: int| 0 <= j < u.len() && u[j].0@ == k;
            assert(d != i && c != i);
            assert(u[d] == ops[d]);
            if c != d {
                if c < d {
                    assert(ops[c].0@ != ops[d].0@);
                } else {
                    assert(ops[d].0@ != ops[c].0@);
                }
            }
        } else {
            assert forall|j: int| 0 <= j < u.len() implies u[j].0@ != k by {
                if j != i {
                    assert(u[j] == ops[j]);
                }
            }
        }
    }
}

proof fn lemma_group_of_push(ops: Seq<(String, SmallSet)>, e: (String, SmallSet), k: Seq<char>)
    requires
        forall|a: int| 0 <= a < ops.len() ==> (#[trigger] ops[a]).0@ != e.0@,
        forall|a: int, b: int|
            0 <= a < b < ops.len() ==> (#[trigger] ops[a]).0@ != (#[trigger] ops[b]).0@,
    ensures
        k != e.0@ ==> group_of(ops.push(e), k) == group_of(ops, k),
{
    let u = ops.push(e);
    if k != e.0@ {
        if exists|j: int| 0 <= j < ops.len() && ops[j].0@ == k {
            let c = choose|j: int| 0 <= j < ops.len() && ops[j].0@ == k;
            assert(u[c].0@ == k);
            let d = choose|j: int| 0 <= j < u.len() && u[j].0@ == k;
            assert(d < ops.len());
            assert(u[d] == ops[d]);
            if c != d {
                if c < d {
                    assert(ops[c].0@ != ops[d].0@);
                } else {
                    assert(ops[d].0@ != ops[c].0@);
                }
            }
        } else {
            assert forall|j: int| 0 <= j < u.len() implies u[j].0@ != k by {
                if j < ops.len() {
                    assert(u[j] == ops[j]);
                }
            }
        }
    }
}

/// What one insert into a set of grouped ops does: the set stays in order;
/// an op with the id of one already there leaves the set as it was; any
/// other op is put in.
pub open spec fn insert_step(before: Seq<GroupedMapOpInfo>, after: Seq<GroupedMapOpInfo>, x: GroupedMapOpInfo) -> bool {
    &&& infos_sorted(after)
    &&& has_same(before, x) ==> after == before
    &&& !has_same(before, x) ==> inserted_into(before, after, x)
}

/// `set` holds, in increasing order, exactly one op per id among `xs`:
/// the first of `xs` with that id.
pub open spec fn holds_first_of_each(set: Seq<GroupedMapOpInfo>, xs: Seq<GroupedMapOpInfo>) -> bool {
    &&& infos_sorted(set)
    &&& forall|k: int| 0 <= k < xs.len() ==> has_same(set, #[trigger] xs[k])
    &&& forall|i: int| 0 <= i < set.len() ==> #[trigger] first_with_its_id(set[i], xs)
}

/// `e` is the first op of `xs` with its id.
pub open spec fn first_with_its_id(e: GroupedMapOpInfo, xs: Seq<GroupedMapOpInfo>) -> bool {
    exists|k: int|
        #![trigger xs[k]]
        0 <= k < xs.len() && e == xs[k] && forall|j: int| 0 <= j < k ==> !info_same(#[trigger] xs[j], xs[k])
}

proof fn lemma_insert_keeps_first(a: Seq<GroupedMapOpInfo>, b: Seq<GroupedMapOpInfo>, xs: Seq<GroupedMapOpInfo>, x: GroupedMapOpInfo)
    requires
        holds_first_of_each(a, xs),
        insert_step(a, b, x),
    ensures
        holds_first_of_each(b, xs.push(x)),
{
    let ys = xs.push(x);
    if has_same(a, x) {
        assert forall|k: int| 0 <= k < ys.len() implies has_same(b, #[trigger] ys[k]) by {
            if k < xs.len() {
                assert(ys[k] == xs[k]);
            }
        }
        assert forall|i: int| 0 <= i < b.len() implies #[trigger] first_with_its_id(b[i], ys) by {
            assert(first_with_its_id(a[i], xs));
            let k = choose|k: int|
                #![trigger xs[k]]
                0 <= k < xs.len() && a[i] == xs[k] && forall|j: int| 0 <= j < k ==> !info_same(#[trigger] xs[j], xs[k]);
            assert(b[i] == ys[k]);
            assert forall|j: int| 0 <= j < k implies !info_same(#[trigger] ys[j], ys[k]) by {
                assert(ys[j] == xs[j]);
            }
            assert(0 <= k < ys.len());
        }
    } else {
        let p = choose|p: int| 0 <= p <= a.len() && b == a.insert(p, x);
        assert forall|k: int| 0 <= k < ys.len() implies has_same(b, #[trigger] ys[k]) by {
            if k < xs.len() {
                assert(ys[k] == xs[k]);
                let i = choose|i: int| 0 <= i < a.len() && info_same(a[i], xs[k]);
                if i < p {
                    assert(b[i] == a[i]);
                } else {
                    assert(b[i + 1] == a[i]);
                }
            } else {
                assert(b[p] == x);
            }
        }
        assert forall|i: int| 0 <= i < b.len() implies #[trigger] first_with_its_id(b[i], ys) by {
            if i == p {
                let n = xs.len() as int;
                assert(b[i] == ys[n]);
                assert forall|j: int| 0 <= j < n implies !info_same(#[trigger] ys[j], ys[n]) by {
                    assert(ys[j] == xs[j]);
                    if info_same(xs[j], x) {
                        assert(has_same(a, xs[j]));
                        let q = choose|q: int| 0 <= q < a.len() && info_same(a[q], xs[j]);
                        assert(info_same(a[q], x));
                    }
                }
            } else {
                let ai = if i < p { i } else { i - 1 };
                assert(b[i] == a[ai]);
                assert(first_with_its_id(a[ai], xs));
                let k = choose|k: int|
                    #![trigger xs[k]]
                    0 <= k < xs.len() && a[ai] == xs[k] && forall|j: int| 0 <= j < k ==> !info_same(#[trigger] xs[j], xs[k]);
                assert(b[i] == ys[k]);
                assert forall|j: int| 0 <= j < k implies !info_same(#[trigger] ys[j], ys[k]) by {
                    assert(ys[j] == xs[j]);
                }
                assert(0 <= k < ys.len());
            }
        }
    }
}

/// A run of inserts into an empty set, each as `SmallSet::insert` does it,
/// leaves the set holding, in increasing order, exactly one op per id among
/// the ops inserted: the first one inserted with that id (a later op with
/// the same id never replaces it).
pub proof fn lemma_small_set_inserts(states: Seq<Seq<GroupedMapOpInfo>>, xs: Seq<GroupedMapOpInfo>)
    requires
        states.len() == xs.len() + 1,
        states[0] == Seq::<GroupedMapOpInfo>::empty(),
        forall|k: int| 0 <= k < xs.len() ==> insert_step(#[trigger] states[k], states[k + 1], xs[k]),
    ensures
        holds_first_of_each(states.last(), xs),
    decreases xs.len(),
{
    if xs.len() == 0 {
        assert(holds_first_of_each(states[0], xs));
    } else {
        let n = xs.len() - 1;
        let s0 = states.drop_last();
        let x0 = xs.drop_last();
        assert forall|k: int| 0 <= k < x0.len() implies insert_step(#[trigger] s0[k], s0[k + 1], x0[k]) by {
            assert(insert_step(states[k], states[k + 1], xs[k]));
        }
        lemma_small_set_inserts(s0, x0);
        assert(insert_step(states[n], states[n + 1], xs[n]));
        lemma_insert_keeps_first(s0.last(), states.last(), x0, xs[n]);
        assert(x0.push(xs[n]) =~= xs);
    }
}

} // verus!
