//! The state of every container as a function of the op log: the sequence
//! of a list or text, the entries of a map, and the deep value of the
//! document.
use vstd::prelude::*;
use crate::common::{
    cid_type, pairs_view, values_view, ContainerID, ContainerIdView, ContainerType, Counter, LoroValue, LoroValueView,
    PeerID,
};
use crate::oplog::{ElemId, Op, OpContent, OpContentView, OpValue, OpView, TreeParent, ops_view};
use crate::tree::{
    TreeNode, compute_live_nodes, compute_tree_state, live_nodes, meta_container, meta_container_of,
    push_tree_id, tree_id_chars, tree_state,
};

verus! {

/// One element of a list or text, with its tombstone flag.
#[derive(Debug, Clone, Copy, PartialEq, Eq, Structural)]
pub struct Elem {
    pub id: ElemId,
    pub value: OpValue,
    pub deleted: bool,
}

/// The index of the first element with the given id, or -1.
pub open spec fn first_index(s: Seq<Elem>, id: ElemId) -> int
    decreases s.len(),
{
    if s.len() == 0 {
        -1
    } else if s[0].id == id {
        0
    } else {
        let r = first_index(s.drop_first(), id);
        if r < 0 {
            -1
        } else {
            r + 1
        }
    }
}

pub proof fn lemma_first_index(s: Seq<Elem>, id: ElemId, i: int)
    requires
        0 <= i <= s.len(),
        forall|k: int| 0 <= k < i ==> s[k].id != id,
        i < s.len() ==> s[i].id == id,
    ensures
        first_index(s, id) == (if i < s.len() { i } else { -1 }),
    decreases s.len(),
{
    if s.len() > 0 && i > 0 {
        let t = s.drop_first();
        assert forall|k: int| 0 <= k < i - 1 implies t[k].id != id by {
            assert(t[k] == s[k + 1]);
        }
        lemma_first_index(t, id, i - 1);
    }
}

/// Where a run inserted after `origin` starts: right after the origin, or
/// at the front when there is none (or it is not present).
pub open spec fn insert_pos(s: Seq<Elem>, origin: Option<ElemId>) -> int {
    match origin {
        None => 0,
        Some(o) => {
            let i = first_index(s, o);
            if i < 0 {
                0
            } else {
                i + 1
            }
        },
    }
}

/// The elements inserted by an op.
pub open spec fn inserted_run(op: OpView, values: Seq<OpValue>) -> Seq<Elem> {
    Seq::new(
        values.len(),
        |k: int|
            Elem {
                id: ElemId { peer: op.peer, counter: op.counter, offset: k as u32 },
                value: values[k],
                deleted: false,
            },
    )
}

/// The effect of one op on the sequence of its (list or text) container.
pub open spec fn apply_seq_op(s: Seq<Elem>, op: OpView) -> Seq<Elem> {
    match op.content {
        OpContentView::SeqInsert { origin, values } => {
            let p = insert_pos(s, origin);
            s.take(p) + inserted_run(op, values) + s.skip(p)
        },
        OpContentView::SeqDelete { targets } => Seq::new(
            s.len(),
            |i: int|
                if targets.contains(s[i].id) {
                    Elem { id: s[i].id, value: s[i].value, deleted: true }
                } else {
                    s[i]
                },
        ),
        OpContentView::MapSet { .. } => s,
        OpContentView::Mark { .. } => s,
        OpContentView::TreeMove { .. } => s,
    }
}

/// The sequence of container `c` after replaying `log` in order.
pub open spec fn seq_state(log: Seq<OpView>, c: ContainerIdView) -> Seq<Elem>
    decreases log.len(),
{
    if log.len() == 0 {
        Seq::empty()
    } else {
        let prev = seq_state(log.drop_last(), c);
        if log.last().container == c {
            apply_seq_op(prev, log.last())
        } else {
            prev
        }
    }
}

/// The elements that are not deleted.
pub open spec fn visible(s: Seq<Elem>) -> Seq<Elem>
    decreases s.len(),
{
    if s.len() == 0 {
        Seq::empty()
    } else {
        let p = visible(s.drop_last());
        if s.last().deleted {
            p
        } else {
            p.push(s.last())
        }
    }
}

/// One key of a map: its current value (`None` once deleted) and the op
/// that wrote it.
pub struct MapEntryView {
    pub key: Seq<char>,
    pub value: Option<OpValue>,
    pub peer: PeerID,
    pub counter: Counter,
}

/// The index of the entry with the given key, or -1.
pub open spec fn key_index(s: Seq<MapEntryView>, key: Seq<char>) -> int
    decreases s.len(),
{
    if s.len() == 0 {
        -1
    } else if s[0].key == key {
        0
    } else {
        let r = key_index(s.drop_first(), key);
        if r < 0 {
            -1
        } else {
            r + 1
        }
    }
}

pub proof fn lemma_key_index(s: Seq<MapEntryView>, key: Seq<char>, i: int)
    requires
        0 <= i <= s.len(),
        forall|k: int| 0 <= k < i ==> s[k].key != key,
        i < s.len() ==> s[i].key == key,
    ensures
        key_index(s, key) == (if i < s.len() { i } else { -1 }),
    decreases s.len(),
{
    if s.len() > 0 && i > 0 {
        let t = s.drop_first();
        assert forall|k: int| 0 <= k < i - 1 implies t[k].key != key by {
            assert(t[k] == s[k + 1]);
        }
        lemma_key_index(t, key, i - 1);
    }
}

/// The entries of map `c` after replaying `log`: each key in order of its
/// first write, holding the value of its last write.
pub open spec fn map_entries(log: Seq<OpView>, c: ContainerIdView) -> Seq<MapEntryView>
    decreases log.len(),
{
    if log.len() == 0 {
        Seq::empty()
    } else {
        let prev = map_entries(log.drop_last(), c);
        let op = log.last();
        if op.container == c {
            match op.content {
                OpContentView::MapSet { key, value } => {
                    let e = MapEntryView { key, value, peer: op.peer, counter: op.counter };
                    let i = key_index(prev, key);
                    if i >= 0 {
                        prev.update(i, e)
                    } else {
                        prev.push(e)
                    }
                },
                _ => prev,
            }
        } else {
            prev
        }
    }
}

/// The value of container `c` at `log`, nested containers expanded up to
/// `fuel` levels.
pub open spec fn container_value(log: Seq<OpView>, c: ContainerIdView, fuel: nat) -> LoroValueView
    decreases fuel, 2int, 0int,
{
    match cid_type(c) {
        ContainerType::Mapping => LoroValueView::Mapping(
            entries_value(log, map_entries(log, c), fuel),
        ),
        ContainerType::List => LoroValueView::List(
            elems_value(log, visible(seq_state(log, c)), fuel),
        ),
        ContainerType::MovableList => LoroValueView::List(
            elems_value(log, visible(seq_state(log, c)), fuel),
        ),
        ContainerType::Text => LoroValueView::String(text_chars(visible(seq_state(log, c)))),
        ContainerType::Tree => LoroValueView::List(
            nodes_value(log, live_nodes(tree_state(log, c)), fuel),
        ),
        _ => LoroValueView::List(Seq::empty()),
    }
}

/// The value of one tree node: its id, its parent (null at the top level)
/// and its metadata map, expanded with one level less of fuel.
pub open spec fn node_value(log: Seq<OpView>, n: TreeNode, fuel: nat) -> LoroValueView
    decreases fuel, 0int, 0int,
{
    let parent = match n.parent {
        TreeParent::Node(p) => LoroValueView::String(tree_id_chars(p)),
        _ => LoroValueView::Null,
    };
    let meta = if fuel == 0 {
        LoroValueView::Null
    } else {
        container_value(log, meta_container(n.id), (fuel - 1) as nat)
    };
    LoroValueView::Mapping(
        seq![("id"@, LoroValueView::String(tree_id_chars(n.id))), ("parent"@, parent), ("meta"@, meta)],
    )
}

/// The values of a run of tree nodes.
pub open spec fn nodes_value(log: Seq<OpView>, s: Seq<TreeNode>, fuel: nat) -> Seq<LoroValueView>
    decreases fuel, 1int, s.len(),
{
    if s.len() == 0 {
        Seq::empty()
    } else {
        nodes_value(log, s.drop_last(), fuel).push(node_value(log, s.last(), fuel))
    }
}

/// The characters of a text's elements.
pub open spec fn text_chars(s: Seq<Elem>) -> Seq<char>
    decreases s.len(),
{
    if s.len() == 0 {
        Seq::empty()
    } else {
        let p = text_chars(s.drop_last());
        match s.last().value {
            OpValue::Char(ch) => p.push(ch),
            _ => p,
        }
    }
}

/// The values of a map's live entries.
pub open spec fn entries_value(log: Seq<OpView>, s: Seq<MapEntryView>, fuel: nat) -> Seq<
    (Seq<char>, LoroValueView),
>
    decreases fuel, 1int, s.len(),
{
    if s.len() == 0 {
        Seq::empty()
    } else {
        let p = entries_value(log, s.drop_last(), fuel);
        let e = s.last();
        match e.value {
            Some(v) => p.push((e.key, op_value(log, v, e.peer, e.counter, fuel))),
            None => p,
        }
    }
}

/// The values of a list's elements.
pub open spec fn elems_value(log: Seq<OpView>, s: Seq<Elem>, fuel: nat) -> Seq<LoroValueView>
    decreases fuel, 1int, s.len(),
{
    if s.len() == 0 {
        Seq::empty()
    } else {
        let p = elems_value(log, s.drop_last(), fuel);
        p.push(op_value(log, s.last().value, s.last().id.peer, s.last().id.counter, fuel))
    }
}

/// The value an op value stands for; a child container is created by the op
/// (peer, counter) and is expanded with one level less of fuel.
pub open spec fn op_value(
    log: Seq<OpView>,
    v: OpValue,
    peer: PeerID,
    counter: Counter,
    fuel: nat,
) -> LoroValueView
    decreases fuel, 0int, 0int,
{
    match v {
        OpValue::I64(i) => LoroValueView::I64(i),
        OpValue::Char(ch) => LoroValueView::String(seq![ch]),
        OpValue::Container(t) => if fuel == 0 {
            LoroValueView::Null
        } else {
            container_value(
                log,
                ContainerIdView::Normal { peer, counter, container_type: t },
                (fuel - 1) as nat,
            )
        },
    }
}

/// The root containers that ops of `log` touch, in order of first touch.
pub open spec fn roots(log: Seq<OpView>) -> Seq<ContainerIdView>
    decreases log.len(),
{
    if log.len() == 0 {
        Seq::empty()
    } else {
        let p = roots(log.drop_last());
        let c = log.last().container;
        if (c is Root) && !p.contains(c) {
            p.push(c)
        } else {
            p
        }
    }
}

/// The nesting depth allowed when expanding values: a log of n ops cannot
/// nest containers deeper than n, since each level is created by an op.
pub open spec fn depth_fuel(log: Seq<OpView>) -> nat {
    log.len()
}

/// The values of the given root containers.
pub open spec fn roots_value(log: Seq<OpView>, rs: Seq<ContainerIdView>) -> Seq<
    (Seq<char>, LoroValueView),
>
    decreases rs.len(),
{
    if rs.len() == 0 {
        Seq::empty()
    } else {
        let p = roots_value(log, rs.drop_last());
        let c = rs.last();
        match c {
            ContainerIdView::Root { name, .. } => p.push(
                (name, container_value(log, c, depth_fuel(log))),
            ),
            _ => p,
        }
    }
}

/// The deep value of a document whose log is `log`: a map from the name of
/// each root container to its value.
pub open spec fn doc_value(log: Seq<OpView>) -> LoroValueView {
    LoroValueView::Mapping(roots_value(log, roots(log)))
}

/// Appends a character to a string (`String::push`).
#[verifier::external_body]
pub fn string_push(s: &mut String, c: char)
    ensures
        final(s)@ == old(s)@.push(c),
{
    s.push(c);
}

/// Finds where a run inserted after `origin` starts.
pub fn find_insert_pos(s: &Vec<Elem>, origin: Option<ElemId>) -> (p: usize)
    ensures
        p as int == insert_pos(s@, origin),
        p <= s@.len(),
{
    match origin {
        None => 0,
        Some(o) => {
            let mut i: usize = 0;
            while i < s.len()
                invariant
                    i <= s.len(),
                    origin == Some(o),
                    forall|k: int| 0 <= k < i ==> s@[k].id != o,
                decreases s.len() - i,
            {
                if s[i].id.same(&o) {
                    proof {
                        assert(origin == Some(o));
                        assert(s@[i as int].id == o);
                        lemma_first_index(s@, o, i as int);
                        assert(first_index(s@, o) == i);
                        assert(insert_pos(s@, origin) == i + 1);
                    }
                    return i + 1;
                }
                i += 1;
            }
            proof {
                lemma_first_index(s@, o, s@.len() as int);
            }
            0
        },
    }
}

fn elem_ids_contain(targets: &Vec<ElemId>, id: ElemId) -> (r: bool)
    ensures
        r == targets@.contains(id),
{
    let mut i: usize = 0;
    while i < targets.len()
        invariant
            i <= targets.len(),
            forall|k: int| 0 <= k < i ==> targets@[k] != id,
        decreases targets.len() - i,
    {
        if targets[i].same(&id) {
            assert(targets@[i as int] == id);
            return true;
        }
        i += 1;
    }
    false
}

/// Applies one op to the sequence of its container.
pub fn apply_seq_op_exec(s: &mut Vec<Elem>, op: &Op)
    ensures
        final(s)@ == apply_seq_op(old(s)@, op@),
{
    match &op.content {
        OpContent::SeqInsert { origin, values } => {
            let ghost old_s = s@;
            let ghost run = inserted_run(op@, values@);
            let p = find_insert_pos(s, *origin);
            let mut k: usize = 0;
            while k < values.len()
                invariant
                    k <= values.len(),
                    p <= old_s.len(),
                    run == inserted_run(op@, values@),
                    p as int == insert_pos(old_s, *origin),
                    s@.len() == old_s.len() + k,
                    s@ == old_s.take(p as int) + run.take(k as int) + old_s.skip(p as int),
                decreases values.len() - k,
            {
                let e = Elem {
                    id: ElemId { peer: op.peer, counter: op.counter, offset: k as u32 },
                    value: values[k],
                    deleted: false,
                };
                assert(e == run[k as int]);
                let cur_len = s.len();
                assert(p + k <= cur_len);
                s.insert(p + k, e);
                k += 1;
                assert(s@ =~= old_s.take(p as int) + run.take(k as int) + old_s.skip(p as int));
            }
            assert(run.take(values@.len() as int) =~= run);
        },
        OpContent::SeqDelete { targets } => {
            let ghost old_s = s@;
            let ghost target = Seq::new(
                old_s.len(),
                |i: int|
                    if targets@.contains(old_s[i].id) {
                        Elem { id: old_s[i].id, value: old_s[i].value, deleted: true }
                    } else {
                        old_s[i]
                    },
            );
            let mut i: usize = 0;
            while i < s.len()
                invariant
                    s@.len() == old_s.len(),
                    i <= s@.len(),
                    forall|k: int| 0 <= k < i ==> s@[k] == target[k],
                    forall|k: int| i <= k < s@.len() ==> s@[k] == old_s[k],
                    target == Seq::new(
                        old_s.len(),
                        |i: int|
                            if targets@.contains(old_s[i].id) {
                                Elem { id: old_s[i].id, value: old_s[i].value, deleted: true }
                            } else {
                                old_s[i]
                            },
                    ),
                decreases s@.len() - i,
            {
                let e = s[i];
                if elem_ids_contain(targets, e.id) {
                    s.set(i, Elem { id: e.id, value: e.value, deleted: true });
                }
                i += 1;
            }
            assert(s@ =~= target);
        },
        OpContent::MapSet { .. } => {},
        OpContent::Mark { .. } => {},
        OpContent::TreeMove { .. } => {},
    }
}

/// The sequence of container `c` after replaying the log.
pub fn compute_seq_state(log: &Vec<Op>, c: &ContainerID) -> (r: Vec<Elem>)
    ensures
        r@ == seq_state(ops_view(log@), c@),
{
    let ghost lv = ops_view(log@);
    let mut s: Vec<Elem> = Vec::new();
    let mut i: usize = 0;
    assert(lv.take(0) =~= Seq::<OpView>::empty());
    while i < log.len()
        invariant
            i <= log.len(),
            lv == ops_view(log@),
            s@ == seq_state(lv.take(i as int), c@),
        decreases log.len() - i,
    {
        let op = &log[i];
        proof {
            assert(lv.take(i + 1).drop_last() =~= lv.take(i as int));
            assert(lv.take(i + 1).last() == op@);
        }
        if op.container.same(c) {
            apply_seq_op_exec(&mut s, op);
        }
        i += 1;
    }
    assert(lv.take(log.len() as int) =~= lv);
    s
}

/// The elements that are not deleted.
pub fn compute_visible(s: &Vec<Elem>) -> (r: Vec<Elem>)
    ensures
        r@ == visible(s@),
{
    let mut r: Vec<Elem> = Vec::new();
    let mut i: usize = 0;
    assert(s@.take(0) =~= Seq::<Elem>::empty());
    while i < s.len()
        invariant
            i <= s.len(),
            r@ == visible(s@.take(i as int)),
        decreases s.len() - i,
    {
        assert(s@.take(i + 1).drop_last() =~= s@.take(i as int));
        assert(s@.take(i + 1).last() == s@[i as int]);
        if !s[i].deleted {
            r.push(s[i]);
        }
        i += 1;
    }
    assert(s@.take(s.len() as int) =~= s@);
    r
}

/// One key of a map with its current value and the op that wrote it.
pub struct MapEntry {
    pub key: String,
    pub value: Option<OpValue>,
    pub peer: PeerID,
    pub counter: Counter,
}

impl View for MapEntry {
    type V = MapEntryView;

    open spec fn view(&self) -> MapEntryView {
        MapEntryView { key: self.key@, value: self.value, peer: self.peer, counter: self.counter }
    }
}

pub open spec fn entries_view(v: Seq<MapEntry>) -> Seq<MapEntryView> {
    Seq::new(v.len(), |i: int| v[i]@)
}

/// The entries of map `c` after replaying the log.
pub fn compute_map_entries(log: &Vec<Op>, c: &ContainerID) -> (r: Vec<MapEntry>)
    ensures
        entries_view(r@) == map_entries(ops_view(log@), c@),
{
    let ghost lv = ops_view(log@);
    let mut s: Vec<MapEntry> = Vec::new();
    let mut i: usize = 0;
    assert(lv.take(0) =~= Seq::<OpView>::empty());
    assert(entries_view(s@) =~= Seq::<MapEntryView>::empty());
    while i < log.len()
        invariant
            i <= log.len(),
            lv == ops_view(log@),
            entries_view(s@) == map_entries(lv.take(i as int), c@),
        decreases log.len() - i,
    {
        let op = &log[i];
        proof {
            assert(lv.take(i + 1).drop_last() =~= lv.take(i as int));
            assert(lv.take(i + 1).last() == op@);
        }
        if op.container.same(c) {
            match &op.content {
                OpContent::MapSet { key, value } => {
                    let ghost prev = entries_view(s@);
                    let mut k: usize = 0;
                    let mut found = false;
                    while k < s.len() && !found
                        invariant
                            k <= s.len(),
                            prev == entries_view(s@),
                            forall|m: int| 0 <= m < k ==> prev[m].key != key@,
                            found ==> k < s.len() && prev[k as int].key == key@,
                        decreases s.len() - k + (if found { 0int } else { 1int }),
                    {
                        if s[k].key == *key {
                            found = true;
                        } else {
                            k += 1;
                        }
                    }
                    proof {
                        if found {
                            lemma_key_index(prev, key@, k as int);
                        } else {
                            lemma_key_index(prev, key@, prev.len() as int);
                        }
                    }
                    let e = MapEntry {
                        key: key.clone(),
                        value: *value,
                        peer: op.peer,
                        counter: op.counter,
                    };
                    if found {
                        s.set(k, e);
                        assert(entries_view(s@) =~= prev.update(k as int, e@));
                    } else {
                        s.push(e);
                        assert(entries_view(s@) =~= prev.push(e@));
                    }
                },
                _ => {},
            }
        }
        i += 1;
    }
    assert(lv.take(log.len() as int) =~= lv);
    s
}

/// The characters of a text's elements, as a string.
pub fn compute_text(s: &Vec<Elem>) -> (r: String)
    ensures
        r@ == text_chars(s@),
{
    let mut r = String::new();
    let mut i: usize = 0;
    assert(s@.take(0) =~= Seq::<Elem>::empty());
    while i < s.len()
        invariant
            i <= s.len(),
            r@ == text_chars(s@.take(i as int)),
        decreases s.len() - i,
    {
        assert(s@.take(i + 1).drop_last() =~= s@.take(i as int));
        assert(s@.take(i + 1).last() == s@[i as int]);
        match s[i].value {
            OpValue::Char(ch) => string_push(&mut r, ch),
            _ => {},
        }
        i += 1;
    }
    assert(s@.take(s.len() as int) =~= s@);
    r
}

/// The value of container `c`, nested containers expanded up to `fuel` levels.
pub fn compute_container_value(log: &Vec<Op>, c: &ContainerID, fuel: usize) -> (r: LoroValue)
    ensures
        r@ == container_value(ops_view(log@), c@, fuel as nat),
    decreases fuel, 2int,
{
    match c.container_type() {
        ContainerType::Mapping => {
            let entries = compute_map_entries(log, c);
            let v = compute_entries_value(log, &entries, fuel);
            LoroValue::Mapping(v)
        },
        ContainerType::List | ContainerType::MovableList => {
            let s = compute_seq_state(log, c);
            let vis = compute_visible(&s);
            let v = compute_elems_value(log, &vis, fuel);
            LoroValue::List(v)
        },
        ContainerType::Text => {
            let s = compute_seq_state(log, c);
            let vis = compute_visible(&s);
            LoroValue::String(compute_text(&vis))
        },
        ContainerType::Tree => {
            let s = compute_tree_state(log, c);
            let live = compute_live_nodes(&s);
            LoroValue::List(compute_nodes_value(log, &live, fuel))
        },
        _ => {
            let v: Vec<LoroValue> = Vec::new();
            assert(values_view(v@) =~= Seq::<LoroValueView>::empty());
            LoroValue::List(v)
        },
    }
}

/// The values of a map's live entries.
pub fn compute_entries_value(log: &Vec<Op>, s: &Vec<MapEntry>, fuel: usize) -> (r: Vec<
    (String, LoroValue),
>)
    ensures
        pairs_view(r@) == entries_value(ops_view(log@), entries_view(s@), fuel as nat),
    decreases fuel, 1int,
{
    let ghost sv = entries_view(s@);
    let mut r: Vec<(String, LoroValue)> = Vec::new();
    let mut i: usize = 0;
    assert(sv.take(0) =~= Seq::<MapEntryView>::empty());
    assert(pairs_view(r@) =~= Seq::<(Seq<char>, LoroValueView)>::empty());
    while i < s.len()
        invariant
            i <= s.len(),
            sv == entries_view(s@),
            pairs_view(r@) == entries_value(ops_view(log@), sv.take(i as int), fuel as nat),
        decreases s.len() - i,
    {
        assert(sv.take(i + 1).drop_last() =~= sv.take(i as int));
        assert(sv.take(i + 1).last() == s@[i as int]@);
        let e = &s[i];
        match e.value {
            Some(v) => {
                let ghost prev = pairs_view(r@);
                let ghost old_r = r@;
                let val = compute_op_value(log, v, e.peer, e.counter, fuel);
                let k = e.key.clone();
                r.push((k, val));
                assert(r@.drop_last() =~= old_r);
                assert(pairs_view(r@) =~= prev.push((e.key@, val@)));
            },
            None => {},
        }
        i += 1;
    }
    assert(sv.take(s.len() as int) =~= sv);
    r
}

/// The values of a list's elements.
pub fn compute_elems_value(log: &Vec<Op>, s: &Vec<Elem>, fuel: usize) -> (r: Vec<LoroValue>)
    ensures
        values_view(r@) == elems_value(ops_view(log@), s@, fuel as nat),
    decreases fuel, 1int,
{
    let mut r: Vec<LoroValue> = Vec::new();
    let mut i: usize = 0;
    assert(s@.take(0) =~= Seq::<Elem>::empty());
    assert(values_view(r@) =~= Seq::<LoroValueView>::empty());
    while i < s.len()
        invariant
            i <= s.len(),
            values_view(r@) == elems_value(ops_view(log@), s@.take(i as int), fuel as nat),
        decreases s.len() - i,
    {
        assert(s@.take(i + 1).drop_last() =~= s@.take(i as int));
        assert(s@.take(i + 1).last() == s@[i as int]);
        let e = s[i];
        let ghost prev = values_view(r@);
        let ghost old_r = r@;
        let val = compute_op_value(log, e.value, e.id.peer, e.id.counter, fuel);
        r.push(val);
        assert(r@.drop_last() =~= old_r);
        assert(values_view(r@) =~= prev.push(val@));
        i += 1;
    }
    assert(s@.take(s.len() as int) =~= s@);
    r
}

/// The value of one tree node.
pub fn compute_node_value(log: &Vec<Op>, n: TreeNode, fuel: usize) -> (r: LoroValue)
    ensures
        r@ == node_value(ops_view(log@), n, fuel as nat),
    decreases fuel, 0int,
{
    let mut id_chars: Vec<char> = Vec::new();
    push_tree_id(&mut id_chars, n.id);
    assert(id_chars@ =~= tree_id_chars(n.id));
    let parent = match n.parent {
        TreeParent::Node(p) => {
            let mut pc: Vec<char> = Vec::new();
            push_tree_id(&mut pc, p);
            assert(pc@ =~= tree_id_chars(p));
            LoroValue::String(crate::common::string_from_chars(&pc))
        },
        _ => LoroValue::Null,
    };
    let meta = if fuel == 0 {
        LoroValue::Null
    } else {
        let mc = meta_container_of(n.id);
        compute_container_value(log, &mc, fuel - 1)
    };
    let ghost pv = parent@;
    let ghost mv = meta@;
    let idv = LoroValue::String(crate::common::string_from_chars(&id_chars));
    let mut entries: Vec<(String, LoroValue)> = Vec::new();
    entries.push(("id".to_owned(), idv));
    entries.push(("parent".to_owned(), parent));
    entries.push(("meta".to_owned(), meta));
    proof {
        crate::common::lemma_pairs_view(entries@);
    }
    assert(pairs_view(entries@) =~= seq![
        ("id"@, LoroValueView::String(tree_id_chars(n.id))),
        ("parent"@, pv),
        ("meta"@, mv),
    ]);
    LoroValue::Mapping(entries)
}

/// The values of a run of tree nodes.
pub fn compute_nodes_value(log: &Vec<Op>, s: &Vec<TreeNode>, fuel: usize) -> (r: Vec<LoroValue>)
    ensures
        values_view(r@) == nodes_value(ops_view(log@), s@, fuel as nat),
    decreases fuel, 1int,
{
    let mut r: Vec<LoroValue> = Vec::new();
    let mut i: usize = 0;
    assert(s@.take(0) =~= Seq::<TreeNode>::empty());
    assert(values_view(r@) =~= Seq::<LoroValueView>::empty());
    while i < s.len()
        invariant
            i <= s.len(),
            values_view(r@) == nodes_value(ops_view(log@), s@.take(i as int), fuel as nat),
        decreases s.len() - i,
    {
        assert(s@.take(i + 1).drop_last() =~= s@.take(i as int));
        assert(s@.take(i + 1).last() == s@[i as int]);
        let ghost prev = values_view(r@);
        let ghost old_r = r@;
        let v = compute_node_value(log, s[i], fuel);
        r.push(v);
        assert(r@.drop_last() =~= old_r);
        assert(values_view(r@) =~= prev.push(v@));
        i += 1;
    }
    assert(s@.take(s.len() as int) =~= s@);
    r
}

/// The value an op value stands for.
pub fn compute_op_value(log: &Vec<Op>, v: OpValue, peer: PeerID, counter: Counter, fuel: usize) -> (r:
    LoroValue)
    ensures
        r@ == op_value(ops_view(log@), v, peer, counter, fuel as nat),
    decreases fuel, 0int,
{
    match v {
        OpValue::I64(i) => LoroValue::I64(i),
        OpValue::Char(ch) => {
            let mut s = String::new();
            string_push(&mut s, ch);
            assert(s@ =~= seq![ch]);
            LoroValue::String(s)
        },
        OpValue::Container(t) => {
            if fuel == 0 {
                LoroValue::Null
            } else {
                let c = ContainerID::Normal { peer, counter, container_type: t };
                compute_container_value(log, &c, fuel - 1)
            }
        },
    }
}

/// The root containers the log touches, in order of first touch.
pub fn compute_roots(log: &Vec<Op>) -> (r: Vec<ContainerID>)
    ensures
        Seq::new(r@.len(), |i: int| r@[i]@) == roots(ops_view(log@)),
{
    let ghost lv = ops_view(log@);
    let mut r: Vec<ContainerID> = Vec::new();
    let mut i: usize = 0;
    assert(lv.take(0) =~= Seq::<OpView>::empty());
    assert(Seq::new(r@.len(), |i: int| r@[i]@) =~= Seq::<ContainerIdView>::empty());
    while i < log.len()
        invariant
            i <= log.len(),
            lv == ops_view(log@),
            Seq::new(r@.len(), |i: int| r@[i]@) == roots(lv.take(i as int)),
        decreases log.len() - i,
    {
        let ghost prev = Seq::new(r@.len(), |i: int| r@[i]@);
        assert(lv.take(i + 1).drop_last() =~= lv.take(i as int));
        assert(lv.take(i + 1).last() == log@[i as int]@);
        let c = &log[i].container;
        match c {
            ContainerID::Root { .. } => {
                let mut k: usize = 0;
                let mut found = false;
                while k < r.len() && !found
                    invariant
                        k <= r.len(),
                        prev == Seq::new(r@.len(), |i: int| r@[i]@),
                        forall|m: int| 0 <= m < k ==> prev[m] != c@,
                        found ==> k < r.len() && prev[k as int] == c@,
                    decreases r.len() - k + (if found { 0int } else { 1int }),
                {
                    if r[k].same(c) {
                        found = true;
                    } else {
                        k += 1;
                    }
                }
                if !found {
                    assert(!prev.contains(c@));
                    r.push(c.duplicate());
                    assert(Seq::new(r@.len(), |i: int| r@[i]@) =~= prev.push(c@));
                } else {
                    assert(prev.contains(c@));
                }
            },
            _ => {},
        }
        i += 1;
    }
    assert(lv.take(log.len() as int) =~= lv);
    r
}

/// The deep value of the document whose log is `log`.
pub fn compute_doc_value(log: &Vec<Op>) -> (r: LoroValue)
    ensures
        r@ == doc_value(ops_view(log@)),
{
    let ghost lv = ops_view(log@);
    let rs = compute_roots(log);
    let ghost rsv = Seq::new(rs@.len(), |i: int| rs@[i]@);
    let mut r: Vec<(String, LoroValue)> = Vec::new();
    let mut i: usize = 0;
    assert(rsv.take(0) =~= Seq::<ContainerIdView>::empty());
    assert(pairs_view(r@) =~= Seq::<(Seq<char>, LoroValueView)>::empty());
    while i < rs.len()
        invariant
            i <= rs.len(),
            lv == ops_view(log@),
            rsv == Seq::new(rs@.len(), |i: int| rs@[i]@),
            pairs_view(r@) == roots_value(lv, rsv.take(i as int)),
        decreases rs.len() - i,
    {
        assert(rsv.take(i + 1).drop_last() =~= rsv.take(i as int));
        assert(rsv.take(i + 1).last() == rs@[i as int]@);
        let ghost prev = pairs_view(r@);
        match &rs[i] {
            ContainerID::Root { name, .. } => {
                let v = compute_container_value(log, &rs[i], log.len());
                let ghost old_r = r@;
                r.push((name.clone(), v));
                assert(r@.drop_last() =~= old_r);
                assert(pairs_view(r@) =~= prev.push((name@, v@)));
            },
            _ => {},
        }
        i += 1;
    }
    assert(rsv.take(rs.len() as int) =~= rsv);
    LoroValue::Mapping(r)
}

} // verus!
