//! What edits do to what a document shows: a list or text insert puts its
//! values at the position asked for, a delete removes the range asked for,
//! a map write is what the key then reads (the last write wins), a map
//! delete removes the key, and a mark styles every character of its range.
use vstd::prelude::*;
use crate::common::{ContainerIdView, LoroValueView};
use crate::loro::{LoroDoc, appended, seq_origin, seq_targets};
use crate::oplog::{ElemId, OpContentView, OpValue, OpView};
use crate::state::{
    Elem, MapEntryView, apply_seq_op, entries_value, first_index, inserted_run, key_index, lemma_first_index,
    map_entries, op_value, visible,
};

verus! {

/// No two elements of `s` share an id.
pub open spec fn ids_distinct(s: Seq<Elem>) -> bool {
    forall|i: int, j: int| 0 <= i < j < s.len() ==> (#[trigger] s[i]).id != (#[trigger] s[j]).id
}

/// The elements that are not deleted, of two runs one after the other, are
/// those of the first followed by those of the second.
pub proof fn lemma_visible_concat(a: Seq<Elem>, b: Seq<Elem>)
    ensures
        visible(a + b) == visible(a) + visible(b),
    decreases b.len(),
{
    if b.len() == 0 {
        assert(a + b =~= a);
        assert(visible(a) + visible(b) =~= visible(a));
    } else {
        assert((a + b).drop_last() =~= a + b.drop_last());
        lemma_visible_concat(a, b.drop_last());
        assert((a + b).last() == b.last());
        if !b.last().deleted {
            assert(visible(a) + visible(b.drop_last()).push(b.last()) =~= (visible(a) + visible(b.drop_last())).push(
                b.last(),
            ));
        }
    }
}

proof fn lemma_visible_live(r: Seq<Elem>)
    requires
        forall|k: int| 0 <= k < r.len() ==> !(#[trigger] r[k]).deleted,
    ensures
        visible(r) == r,
    decreases r.len(),
{
    if r.len() > 0 {
        let t = r.drop_last();
        assert forall|k: int| 0 <= k < t.len() implies !(#[trigger] t[k]).deleted by {
            assert(t[k] == r[k]);
        }
        lemma_visible_live(t);
        assert(t.push(r.last()) =~= r);
    }
}

/// `visible(s.take(j + 1))` is `visible(s.take(j))` with `s[j]` added when
/// it is not deleted.
proof fn lemma_visible_take_step(s: Seq<Elem>, j: int)
    requires
        0 <= j < s.len(),
    ensures
        visible(s.take(j + 1)) == if s[j].deleted {
            visible(s.take(j))
        } else {
            visible(s.take(j)).push(s[j])
        },
{
    assert(s.take(j + 1).drop_last() =~= s.take(j));
    assert(s.take(j + 1).last() == s[j]);
}

/// The count of visible elements before index `i` grows with `i`.
proof fn lemma_visible_take_mono(s: Seq<Elem>, i: int, j: int)
    requires
        0 <= i <= j <= s.len(),
    ensures
        visible(s.take(i)).len() <= visible(s.take(j)).len(),
    decreases j - i,
{
    if i < j {
        lemma_visible_take_step(s, j - 1);
        lemma_visible_take_mono(s, i, j - 1);
    }
}

/// Every visible element sits at some index of `s`, with the visible
/// elements before it exactly those before its visible position.
proof fn lemma_visible_index(s: Seq<Elem>, p: int)
    requires
        0 <= p < visible(s).len(),
    ensures
        exists|j: int|
            0 <= j < s.len() && s[j] == visible(s)[p] && !s[j].deleted && #[trigger] visible(s.take(j))
                == visible(s).take(p),
    decreases s.len(),
{
    let t = s.drop_last();
    let vt = visible(t);
    if p < vt.len() {
        lemma_visible_index(t, p);
        let j = choose|j: int| 0 <= j < t.len() && t[j] == vt[p] && !t[j].deleted && #[trigger] visible(t.take(j)) == vt.take(p);
        assert(t.take(j) =~= s.take(j));
        assert(s[j] == t[j]);
        assert(visible(s)[p] == vt[p]);
        assert(visible(s).take(p) =~= vt.take(p));
    } else {
        let j = s.len() - 1;
        assert(!s.last().deleted);
        assert(s.take(j) =~= t);
        assert(visible(s).take(p) =~= vt);
        assert(s[j] == visible(s)[p]);
        assert(visible(s.take(j)) == visible(s).take(p));
    }
}

/// `visible(s)` is `visible(s.take(j))` followed by `visible(s.skip(j))`.
proof fn lemma_visible_split(s: Seq<Elem>, j: int)
    requires
        0 <= j <= s.len(),
    ensures
        visible(s) == visible(s.take(j)) + visible(s.skip(j)),
{
    assert(s.take(j) + s.skip(j) =~= s);
    lemma_visible_concat(s.take(j), s.skip(j));
}

/// Inserting into a sequence whose ids are distinct, right after the
/// visible element at position `pos - 1` (at the front for `pos == 0`),
/// puts the inserted values, all visible, at visible position `pos`: the
/// visible elements become the first `pos` of them, the new ones, then the
/// rest.
pub proof fn lemma_seq_insert_at(s: Seq<Elem>, op: OpView, pos: int, values: Seq<OpValue>)
    requires
        ids_distinct(s),
        0 <= pos <= visible(s).len(),
        op.content == (OpContentView::SeqInsert { origin: seq_origin(visible(s), pos), values }),
    ensures
        visible(apply_seq_op(s, op)) == visible(s).take(pos) + inserted_run(op, values) + visible(s).skip(pos),
{
    let vis = visible(s);
    let run = inserted_run(op, values);
    assert forall|k: int| 0 <= k < run.len() implies !(#[trigger] run[k]).deleted by {}
    lemma_visible_live(run);
    let ip: int = if pos == 0 {
        0
    } else {
        lemma_visible_index(s, pos - 1);
        let j = choose|j: int|
            0 <= j < s.len() && s[j] == vis[pos - 1] && !s[j].deleted && #[trigger] visible(s.take(j)) == vis.take(
                pos - 1,
            );
        assert forall|k: int| 0 <= k < j implies s[k].id != s[j].id by {
            assert(s[k].id != s[j].id);
        }
        lemma_first_index(s, s[j].id, j);
        lemma_visible_take_step(s, j);
        assert(vis.take(pos - 1).push(s[j]) =~= vis.take(pos));
        j + 1
    };
    assert(apply_seq_op(s, op) == s.take(ip) + run + s.skip(ip));
    assert(visible(s.take(ip)) == vis.take(pos)) by {
        if pos == 0 {
            assert(s.take(0) =~= Seq::<Elem>::empty());
            assert(vis.take(0) =~= Seq::<Elem>::empty());
        }
    }
    lemma_visible_split(s, ip);
    assert(visible(s.skip(ip)) == vis.skip(pos)) by {
        assert(vis == vis.take(pos) + vis.skip(pos));
        assert(vis.skip(pos) =~= vis.subrange(pos, vis.len() as int));
        assert(visible(s.skip(ip)) =~= vis.subrange(visible(s.take(ip)).len() as int, vis.len() as int));
    }
    lemma_visible_concat(s.take(ip), run);
    lemma_visible_concat(s.take(ip) + run, s.skip(ip));
}

/// The elements of `v` whose ids are not among `targets`, in order.
pub open spec fn without_ids(v: Seq<Elem>, targets: Seq<ElemId>) -> Seq<Elem>
    decreases v.len(),
{
    if v.len() == 0 {
        Seq::empty()
    } else {
        let p = without_ids(v.drop_last(), targets);
        if targets.contains(v.last().id) {
            p
        } else {
            p.push(v.last())
        }
    }
}

proof fn lemma_delete_visible(s: Seq<Elem>, op: OpView, targets: Seq<ElemId>)
    requires
        op.content == (OpContentView::SeqDelete { targets }),
    ensures
        visible(apply_seq_op(s, op)) == without_ids(visible(s), targets),
    decreases s.len(),
{
    if s.len() > 0 {
        let t = s.drop_last();
        lemma_delete_visible(t, op, targets);
        assert(apply_seq_op(s, op).drop_last() =~= apply_seq_op(t, op));
        if !s.last().deleted {
            assert(visible(s).drop_last() =~= visible(t));
            assert(visible(s).last() == s.last());
        }
    } else {
        assert(apply_seq_op(s, op) =~= Seq::<Elem>::empty());
    }
}

proof fn lemma_without_range(vis: Seq<Elem>, pos: int, len: int, n: int)
    requires
        ids_distinct(vis),
        0 <= pos,
        0 <= len,
        pos + len <= vis.len(),
        0 <= n <= vis.len(),
    ensures
        without_ids(vis.take(n), seq_targets(vis, pos, len)) == if n <= pos {
            vis.take(n)
        } else if n <= pos + len {
            vis.take(pos)
        } else {
            vis.take(pos) + vis.subrange(pos + len, n)
        },
    decreases n,
{
    let ts = seq_targets(vis, pos, len);
    if n == 0 {
        assert(vis.take(0) =~= Seq::<Elem>::empty());
    } else {
        lemma_without_range(vis, pos, len, n - 1);
        assert(vis.take(n).drop_last() =~= vis.take(n - 1));
        assert(vis.take(n).last() == vis[n - 1]);
        let e = vis[n - 1];
        if pos <= n - 1 < pos + len {
            assert(ts[n - 1 - pos] == e.id);
            assert(ts.contains(e.id));
        } else {
            assert(!ts.contains(e.id)) by {
                if ts.contains(e.id) {
                    let k = choose|k: int| 0 <= k < ts.len() && ts[k] == e.id;
                    assert(vis[pos + k].id == e.id);
                    if pos + k < n - 1 {
                        assert(vis[pos + k].id != vis[n - 1].id);
                    } else {
                        assert(vis[n - 1].id != vis[pos + k].id);
                    }
                }
            }
            if n - 1 < pos {
                assert(vis.take(n - 1).push(e) =~= vis.take(n));
            } else if n - 1 == pos + len {
                assert(vis.take(pos).push(e) =~= vis.take(pos) + vis.subrange(pos + len, n));
            } else {
                assert((vis.take(pos) + vis.subrange(pos + len, n - 1)).push(e) =~= vis.take(pos) + vis.subrange(
                    pos + len,
                    n,
                ));
            }
        }
    }
}

/// Deleting the `len` visible elements from visible position `pos`, where
/// the visible elements have distinct ids, leaves the visible elements
/// before `pos` followed by those after the range.
pub proof fn lemma_seq_delete_range(s: Seq<Elem>, op: OpView, pos: int, len: int)
    requires
        ids_distinct(visible(s)),
        0 <= pos,
        0 <= len,
        pos + len <= visible(s).len(),
        op.content == (OpContentView::SeqDelete { targets: seq_targets(visible(s), pos, len) }),
    ensures
        visible(apply_seq_op(s, op)) == visible(s).take(pos) + visible(s).skip(pos + len),
{
    let vis = visible(s);
    lemma_delete_visible(s, op, seq_targets(vis, pos, len));
    lemma_without_range(vis, pos, len, vis.len() as int);
    assert(vis.take(vis.len() as int) =~= vis);
    if vis.len() <= pos + len {
        assert(vis.skip(pos + len) =~= Seq::<Elem>::empty());
        assert(vis.take(pos) + vis.skip(pos + len) =~= vis.take(pos));
    } else {
        assert(vis.skip(pos + len) =~= vis.subrange(pos + len, vis.len() as int));
    }
}

/// The keys of a map's entries are distinct.
pub proof fn lemma_map_keys_distinct(log: Seq<OpView>, c: ContainerIdView)
    ensures
        forall|i: int, j: int|
            0 <= i < j < map_entries(log, c).len() ==> (#[trigger] map_entries(log, c)[i]).key != (
            #[trigger] map_entries(log, c)[j]).key,
    decreases log.len(),
{
    if log.len() > 0 {
        let t = log.drop_last();
        lemma_map_keys_distinct(t, c);
        let prev = map_entries(t, c);
        let op = log.last();
        if op.container == c {
            if let OpContentView::MapSet { key, value } = op.content {
                let i = key_index(prev, key);
                lemma_key_index_found(prev, key);
                if i < 0 {
                    assert forall|a: int| 0 <= a < prev.len() implies prev[a].key != key by {
                        lemma_key_index_found(prev, key);
                    }
                }
            }
        }
    }
}

/// `key_index` finds the first entry with the key, if any.
proof fn lemma_key_index_found(s: Seq<MapEntryView>, key: Seq<char>)
    ensures
        -1 <= key_index(s, key) < s.len(),
        key_index(s, key) >= 0 ==> s[key_index(s, key)].key == key,
        key_index(s, key) < 0 ==> forall|a: int| 0 <= a < s.len() ==> s[a].key != key,
    decreases s.len(),
{
    if s.len() > 0 && s[0].key != key {
        let t = s.drop_first();
        lemma_key_index_found(t, key);
        if key_index(s, key) < 0 {
            assert forall|a: int| 0 <= a < s.len() implies s[a].key != key by {
                if a > 0 {
                    assert(s[a] == t[a - 1]);
                }
            }
        }
    }
}

/// A write of key `k` on map `c` makes the entry of `k` hold what it wrote
/// (the value and the op that wrote it), whatever was written before, and
/// keeps the entries of every other key.
pub proof fn lemma_map_set_entries(log: Seq<OpView>, op: OpView, c: ContainerIdView)
    requires
        op.container == c,
        op.content is MapSet,
    ensures
        ({
            let k = op.content->MapSet_key;
            let e = MapEntryView { key: k, value: op.content->MapSet_value, peer: op.peer, counter: op.counter };
            let m = map_entries(log, c);
            let m2 = map_entries(log.push(op), c);
            &&& m2.contains(e)
            &&& forall|t: int| 0 <= t < m2.len() && (#[trigger] m2[t]).key == k ==> m2[t] == e
            &&& forall|t: int| 0 <= t < m.len() && (#[trigger] m[t]).key != k ==> m2.contains(m[t])
            &&& forall|t: int| 0 <= t < m2.len() && (#[trigger] m2[t]).key != k ==> m.contains(m2[t])
        }),
{
    let k = op.content->MapSet_key;
    let e = MapEntryView { key: k, value: op.content->MapSet_value, peer: op.peer, counter: op.counter };
    let log2 = log.push(op);
    assert(log2.drop_last() =~= log);
    assert(log2.last() == op);
    let m = map_entries(log, c);
    let m2 = map_entries(log2, c);
    lemma_map_keys_distinct(log, c);
    lemma_key_index_found(m, k);
    let i = key_index(m, k);
    if i >= 0 {
        assert(m2 == m.update(i, e));
        assert(m2[i] == e);
        assert forall|t: int| 0 <= t < m2.len() && (#[trigger] m2[t]).key == k implies m2[t] == e by {
            if t != i {
                assert(m2[t] == m[t]);
                if t < i {
                    assert(m[t].key != m[i].key);
                } else {
                    assert(m[i].key != m[t].key);
                }
            }
        }
        assert forall|t: int| 0 <= t < m.len() && (#[trigger] m[t]).key != k implies m2.contains(m[t]) by {
            assert(m2[t] == m[t]);
        }
        assert forall|t: int| 0 <= t < m2.len() && (#[trigger] m2[t]).key != k implies m.contains(m2[t]) by {
            assert(m2[t] == m[t]);
        }
    } else {
        assert(m2 == m.push(e));
        assert(m2[m.len() as int] == e);
        assert forall|t: int| 0 <= t < m2.len() && (#[trigger] m2[t]).key == k implies m2[t] == e by {
            if t < m.len() {
                assert(m2[t] == m[t]);
            }
        }
        assert forall|t: int| 0 <= t < m.len() && (#[trigger] m[t]).key != k implies m2.contains(m[t]) by {
            assert(m2[t] == m[t]);
        }
        assert forall|t: int| 0 <= t < m2.len() && (#[trigger] m2[t]).key != k implies m.contains(m2[t]) by {
            assert(m2[t] == m[t]);
        }
    }
}

/// The pairs a map's entries show: every pair comes from an entry holding a
/// value (a deleted key shows nothing), and every entry holding a value
/// shows its pair.
pub proof fn lemma_entries_value_pairs(log: Seq<OpView>, s: Seq<MapEntryView>, fuel: nat)
    ensures
        forall|t: int|
            0 <= t < entries_value(log, s, fuel).len() ==> exists|u: int|
                0 <= u < s.len() && s[u].key == (#[trigger] entries_value(log, s, fuel)[t]).0 && s[u].value is Some
                    && entries_value(log, s, fuel)[t].1 == op_value(
                    log,
                    s[u].value->Some_0,
                    s[u].peer,
                    s[u].counter,
                    fuel,
                ),
        forall|u: int|
            0 <= u < s.len() && (#[trigger] s[u]).value is Some ==> entries_value(log, s, fuel).contains(
                (s[u].key, op_value(log, s[u].value->Some_0, s[u].peer, s[u].counter, fuel)),
            ),
    decreases s.len(),
{
    if s.len() > 0 {
        let t0 = s.drop_last();
        lemma_entries_value_pairs(log, t0, fuel);
        let p = entries_value(log, t0, fuel);
        let r = entries_value(log, s, fuel);
        let e = s.last();
        assert forall|t: int| 0 <= t < r.len() implies exists|u: int|
            0 <= u < s.len() && s[u].key == (#[trigger] r[t]).0 && s[u].value is Some && r[t].1 == op_value(
                log,
                s[u].value->Some_0,
                s[u].peer,
                s[u].counter,
                fuel,
            ) by {
            if t < p.len() {
                assert(r[t] == p[t]);
                let u = choose|u: int|
                    0 <= u < t0.len() && t0[u].key == (#[trigger] p[t]).0 && t0[u].value is Some && p[t].1 == op_value(
                        log,
                        t0[u].value->Some_0,
                        t0[u].peer,
                        t0[u].counter,
                        fuel,
                    );
                assert(s[u] == t0[u]);
            } else {
                assert(s[s.len() - 1] == e);
            }
        }
        assert forall|u: int| 0 <= u < s.len() && (#[trigger] s[u]).value is Some implies r.contains(
            (s[u].key, op_value(log, s[u].value->Some_0, s[u].peer, s[u].counter, fuel)),
        ) by {
            let pr = (s[u].key, op_value(log, s[u].value->Some_0, s[u].peer, s[u].counter, fuel));
            if u < t0.len() {
                assert(s[u] == t0[u]);
                assert(p.contains(pr));
                let w = choose|w: int| 0 <= w < p.len() && p[w] == pr;
                assert(r[w] == p[w]);
            } else {
                assert(r[p.len() as int] == pr);
            }
        }
    }
}

/// What a map shows after a write of key `k` by an op: when the write sets
/// a value, the map shows `k` with that value and no other pair for `k`
/// (the last write wins); when it deletes the key, the map shows no pair
/// for `k`. Pairs of other keys come from the entries the map had.
pub proof fn lemma_map_set_value(log: Seq<OpView>, op: OpView, c: ContainerIdView, fuel: nat)
    requires
        op.container == c,
        op.content is MapSet,
        crate::common::cid_type(c) == crate::common::ContainerType::Mapping,
    ensures
        ({
            let log2 = log.push(op);
            let k = op.content->MapSet_key;
            let shown = crate::state::container_value(log2, c, fuel);
            &&& shown is Mapping
            &&& (op.content->MapSet_value matches Some(v) ==> shown->Mapping_0.contains(
                (k, op_value(log2, v, op.peer, op.counter, fuel)),
            ) && forall|t: int|
                0 <= t < shown->Mapping_0.len() && (#[trigger] shown->Mapping_0[t]).0 == k ==> shown->Mapping_0[t]
                    == (k, op_value(log2, v, op.peer, op.counter, fuel)))
            &&& (op.content->MapSet_value is None ==> forall|t: int|
                0 <= t < shown->Mapping_0.len() ==> (#[trigger] shown->Mapping_0[t]).0 != k)
        }),
{
    let log2 = log.push(op);
    let k = op.content->MapSet_key;
    let m2 = map_entries(log2, c);
    let e = MapEntryView { key: k, value: op.content->MapSet_value, peer: op.peer, counter: op.counter };
    lemma_map_set_entries(log, op, c);
    lemma_entries_value_pairs(log2, m2, fuel);
    let pairs = entries_value(log2, m2, fuel);
    let u0 = choose|u: int| 0 <= u < m2.len() && m2[u] == e;
    assert(m2[u0] == e);
    if let Some(v) = op.content->MapSet_value {
        assert(m2[u0].value is Some);
        assert(pairs.contains((k, op_value(log2, v, op.peer, op.counter, fuel))));
        assert forall|t: int| 0 <= t < pairs.len() && (#[trigger] pairs[t]).0 == k implies pairs[t] == (
            k,
            op_value(log2, v, op.peer, op.counter, fuel),
        ) by {
            let u = choose|u: int|
                0 <= u < m2.len() && m2[u].key == (#[trigger] pairs[t]).0 && m2[u].value is Some && pairs[t].1
                    == op_value(log2, m2[u].value->Some_0, m2[u].peer, m2[u].counter, fuel);
            assert(m2[u] == e);
        }
    } else {
        assert forall|t: int| 0 <= t < pairs.len() implies (#[trigger] pairs[t]).0 != k by {
            let u = choose|u: int|
                0 <= u < m2.len() && m2[u].key == (#[trigger] pairs[t]).0 && m2[u].value is Some && pairs[t].1
                    == op_value(log2, m2[u].value->Some_0, m2[u].peer, m2[u].counter, fuel);
            if m2[u].key == k {
                assert(m2[u] == e);
            }
        }
    }
}

proof fn lemma_entry_index_range(m: Seq<(Seq<char>, LoroValueView)>, key: Seq<char>)
    ensures
        -1 <= crate::encoding::value_decode::entry_index(m, key) < m.len(),
        crate::encoding::value_decode::entry_index(m, key) >= 0 ==> m[crate::encoding::value_decode::entry_index(
            m,
            key,
        )].0 == key,
    decreases m.len(),
{
    if m.len() > 0 && m.last().0 != key {
        lemma_entry_index_range(m.drop_last(), key);
    }
}

/// The index in `s` of the visible element at position `p`, when ids are
/// distinct: the first element with its id, with exactly `p` visible
/// elements before it.
proof fn lemma_visible_position(s: Seq<Elem>, p: int) -> (j: int)
    requires
        ids_distinct(s),
        0 <= p < visible(s).len(),
    ensures
        0 <= j < s.len(),
        s[j] == visible(s)[p],
        !s[j].deleted,
        visible(s.take(j)).len() == p,
        first_index(s, visible(s)[p].id) == j,
{
    lemma_visible_index(s, p);
    let j = choose|j: int|
        0 <= j < s.len() && s[j] == visible(s)[p] && !s[j].deleted && #[trigger] visible(s.take(j)) == visible(s).take(p);
    assert forall|k: int| 0 <= k < j implies s[k].id != visible(s)[p].id by {
        assert(s[k].id != s[j].id);
    }
    lemma_first_index(s, visible(s)[p].id, j);
    j
}

/// Marking the visible characters `start..end` of a text whose ids are
/// distinct with `key` set to `value` gives every visible character in that
/// range (the one with `q` visible characters before it, for
/// `start <= q < end`) the style `key` with that value.
pub proof fn lemma_mark_styles_range(
    log: Seq<OpView>,
    op: OpView,
    c: ContainerIdView,
    s: Seq<Elem>,
    start: int,
    end: int,
    key: Seq<char>,
    value: i64,
)
    requires
        ids_distinct(s),
        0 <= start < end <= visible(s).len(),
        op.container == c,
        op.content == (OpContentView::Mark {
            start: visible(s)[start].id,
            end: visible(s)[end - 1].id,
            key,
            value,
        }),
    ensures
        forall|i: int|
            0 <= i < s.len() && !s[i].deleted && start <= #[trigger] visible(s.take(i)).len() < end
                ==> crate::richtext::elem_styles(log.push(op), c, s, i).contains((key, LoroValueView::I64(value))),
{
    let ja = lemma_visible_position(s, start);
    let jb = lemma_visible_position(s, end - 1);
    let log2 = log.push(op);
    assert(log2.drop_last() =~= log);
    assert(log2.last() == op);
    assert forall|i: int|
        0 <= i < s.len() && !s[i].deleted && start <= #[trigger] visible(s.take(i)).len() < end implies crate::richtext::elem_styles(
        log2,
        c,
        s,
        i,
    ).contains((key, LoroValueView::I64(value))) by {
        if ja > i {
            lemma_visible_take_step(s, i);
            lemma_visible_take_mono(s, i + 1, ja);
        }
        if i > jb {
            lemma_visible_take_step(s, jb);
            lemma_visible_take_mono(s, jb + 1, i);
        }
        assert(crate::richtext::mark_covers(s, visible(s)[start].id, visible(s)[end - 1].id, i));
        let prev = crate::richtext::elem_styles(log, c, s, i);
        let m = crate::richtext::elem_styles(log2, c, s, i);
        assert(m == crate::encoding::value_decode::map_put(prev, key, LoroValueView::I64(value)));
        lemma_entry_index_range(prev, key);
        let x = crate::encoding::value_decode::entry_index(prev, key);
        if x >= 0 {
            assert(m[x] == (key, LoroValueView::I64(value)));
        } else {
            assert(m[prev.len() as int] == (key, LoroValueView::I64(value)));
        }
    }
}

proof fn lemma_appended_log(old: LoroDoc, new: LoroDoc, c: ContainerIdView, content: OpContentView)
    requires
        appended(old, new, c, content),
    ensures
        new.log_view() == old.log_view().push(new.log_view().last()),
        new.log_view().last().container == c,
        new.log_view().last().content == content,
{
    assert(new.log_view() =~= new.log_view().drop_last().push(new.log_view().last()));
}

/// After a map write goes through on a document at its latest version, the
/// map read back shows the key with the value written, and no other value
/// for it (the last write wins); after a delete goes through, it shows no
/// value for the key.
pub proof fn lemma_doc_map_write_reads_back(
    old: LoroDoc,
    new: LoroDoc,
    c: ContainerIdView,
    key: Seq<char>,
    value: Option<OpValue>,
)
    requires
        appended(old, new, c, OpContentView::MapSet { key, value }),
        new.detached_view() is None,
        crate::common::cid_type(c) == crate::common::ContainerType::Mapping,
    ensures
        ({
            let log = new.state_log();
            let op = log.last();
            let shown = crate::state::container_value(log, c, log.len());
            &&& shown is Mapping
            &&& (value matches Some(v) ==> shown->Mapping_0.contains((key, op_value(log, v, op.peer, op.counter, log.len())))
                && forall|t: int|
                0 <= t < shown->Mapping_0.len() && (#[trigger] shown->Mapping_0[t]).0 == key ==> shown->Mapping_0[t]
                    == (key, op_value(log, v, op.peer, op.counter, log.len())))
            &&& (value is None ==> forall|t: int|
                0 <= t < shown->Mapping_0.len() ==> (#[trigger] shown->Mapping_0[t]).0 != key)
        }),
{
    lemma_appended_log(old, new, c, OpContentView::MapSet { key, value });
    lemma_map_set_value(old.log_view(), new.log_view().last(), c, new.log_view().len());
}

/// After an insert of `values` at visible position `pos` goes through on a
/// document at its latest version whose sequence has distinct ids, the
/// sequence read back shows the first `pos` elements, the inserted values,
/// then the rest.
pub proof fn lemma_doc_seq_insert_reads_back(
    old: LoroDoc,
    new: LoroDoc,
    c: ContainerIdView,
    pos: int,
    values: Seq<OpValue>,
)
    requires
        old.detached_view() is None,
        new.detached_view() is None,
        ids_distinct(crate::state::seq_state(old.log_view(), c)),
        0 <= pos <= visible(crate::state::seq_state(old.log_view(), c)).len(),
        appended(
            old,
            new,
            c,
            OpContentView::SeqInsert { origin: seq_origin(visible(crate::state::seq_state(old.log_view(), c)), pos), values },
        ),
    ensures
        ({
            let before = visible(crate::state::seq_state(old.state_log(), c));
            visible(crate::state::seq_state(new.state_log(), c)) == before.take(pos) + inserted_run(
                new.log_view().last(),
                values,
            ) + before.skip(pos)
        }),
{
    let content = OpContentView::SeqInsert {
        origin: seq_origin(visible(crate::state::seq_state(old.log_view(), c)), pos),
        values,
    };
    lemma_appended_log(old, new, c, content);
    let log2 = new.log_view();
    assert(log2.drop_last() =~= old.log_view());
    lemma_seq_insert_at(crate::state::seq_state(old.log_view(), c), log2.last(), pos, values);
}

/// After a delete of `len` visible elements from position `pos` goes
/// through on a document at its latest version whose visible elements have
/// distinct ids, the sequence read back shows the elements before `pos`,
/// then those after the range.
pub proof fn lemma_doc_seq_delete_reads_back(old: LoroDoc, new: LoroDoc, c: ContainerIdView, pos: int, len: int)
    requires
        old.detached_view() is None,
        new.detached_view() is None,
        ids_distinct(visible(crate::state::seq_state(old.log_view(), c))),
        0 <= pos,
        0 <= len,
        pos + len <= visible(crate::state::seq_state(old.log_view(), c)).len(),
        appended(
            old,
            new,
            c,
            OpContentView::SeqDelete { targets: seq_targets(visible(crate::state::seq_state(old.log_view(), c)), pos, len) },
        ),
    ensures
        ({
            let before = visible(crate::state::seq_state(old.state_log(), c));
            visible(crate::state::seq_state(new.state_log(), c)) == before.take(pos) + before.skip(pos + len)
        }),
{
    let content = OpContentView::SeqDelete {
        targets: seq_targets(visible(crate::state::seq_state(old.log_view(), c)), pos, len),
    };
    lemma_appended_log(old, new, c, content);
    let log2 = new.log_view();
    assert(log2.drop_last() =~= old.log_view());
    lemma_seq_delete_range(crate::state::seq_state(old.log_view(), c), log2.last(), pos, len);
}

/// After a mark of the visible characters `start..end` with `key` set to
/// `value` goes through on a document at its latest version whose text has
/// distinct ids, every visible character in that range has the style `key`
/// with that value.
pub proof fn lemma_doc_mark_styles(
    old: LoroDoc,
    new: LoroDoc,
    c: ContainerIdView,
    start: int,
    end: int,
    key: Seq<char>,
    value: i64,
)
    requires
        old.detached_view() is None,
        new.detached_view() is None,
        ids_distinct(crate::state::seq_state(old.log_view(), c)),
        0 <= start < end <= visible(crate::state::seq_state(old.log_view(), c)).len(),
        appended(
            old,
            new,
            c,
            OpContentView::Mark {
                start: visible(crate::state::seq_state(old.log_view(), c))[start].id,
                end: visible(crate::state::seq_state(old.log_view(), c))[end - 1].id,
                key,
                value,
            },
        ),
    ensures
        ({
            let s = crate::state::seq_state(new.state_log(), c);
            forall|i: int|
                0 <= i < s.len() && !s[i].deleted && start <= #[trigger] visible(s.take(i)).len() < end
                    ==> crate::richtext::elem_styles(new.state_log(), c, s, i).contains((key, LoroValueView::I64(value)))
        }),
{
    let s0 = crate::state::seq_state(old.log_view(), c);
    let content = OpContentView::Mark { start: visible(s0)[start].id, end: visible(s0)[end - 1].id, key, value };
    lemma_appended_log(old, new, c, content);
    let log2 = new.log_view();
    assert(log2.drop_last() =~= old.log_view());
    assert(crate::state::seq_state(log2, c) == s0);
    lemma_mark_styles_range(old.log_view(), log2.last(), c, s0, start, end, key, value);
}

/// The characters of two runs, one after the other, are those of the first
/// followed by those of the second.
pub proof fn lemma_text_chars_concat(a: Seq<Elem>, b: Seq<Elem>)
    ensures
        crate::state::text_chars(a + b) == crate::state::text_chars(a) + crate::state::text_chars(b),
    decreases b.len(),
{
    if b.len() == 0 {
        assert(a + b =~= a);
        assert(crate::state::text_chars(a) + crate::state::text_chars(b) =~= crate::state::text_chars(a));
    } else {
        assert((a + b).drop_last() =~= a + b.drop_last());
        assert((a + b).last() == b.last());
        lemma_text_chars_concat(a, b.drop_last());
        if let OpValue::Char(ch) = b.last().value {
            assert(crate::state::text_chars(a) + crate::state::text_chars(b.drop_last()).push(ch) =~= (
            crate::state::text_chars(a) + crate::state::text_chars(b.drop_last())).push(ch));
        }
    }
}

/// The values of two runs of list elements, one after the other, are those
/// of the first followed by those of the second.
pub proof fn lemma_elems_value_concat(log: Seq<OpView>, a: Seq<Elem>, b: Seq<Elem>, fuel: nat)
    ensures
        crate::state::elems_value(log, a + b, fuel) == crate::state::elems_value(log, a, fuel) + crate::state::elems_value(
            log,
            b,
            fuel,
        ),
    decreases b.len(),
{
    if b.len() == 0 {
        assert(a + b =~= a);
        assert(crate::state::elems_value(log, a, fuel) + crate::state::elems_value(log, b, fuel)
            =~= crate::state::elems_value(log, a, fuel));
    } else {
        assert((a + b).drop_last() =~= a + b.drop_last());
        assert((a + b).last() == b.last());
        lemma_elems_value_concat(log, a, b.drop_last(), fuel);
        let x = op_value(log, b.last().value, b.last().id.peer, b.last().id.counter, fuel);
        assert(crate::state::elems_value(log, a, fuel) + crate::state::elems_value(log, b.drop_last(), fuel).push(x)
            =~= (crate::state::elems_value(log, a, fuel) + crate::state::elems_value(log, b.drop_last(), fuel)).push(x));
    }
}

/// Every element of a run holds a character.
pub open spec fn all_chars(s: Seq<Elem>) -> bool {
    forall|i: int| 0 <= i < s.len() ==> (#[trigger] s[i]).value is Char
}

/// The characters of a run of character elements are their characters, one
/// for each element, in order.
pub proof fn lemma_text_chars_of_chars(s: Seq<Elem>)
    requires
        all_chars(s),
    ensures
        crate::state::text_chars(s).len() == s.len(),
        forall|i: int| 0 <= i < s.len() ==> crate::state::text_chars(s)[i] == (#[trigger] s[i]).value->Char_0,
    decreases s.len(),
{
    if s.len() > 0 {
        let t = s.drop_last();
        assert forall|i: int| 0 <= i < t.len() implies (#[trigger] t[i]).value is Char by {
            assert(t[i] == s[i]);
        }
        lemma_text_chars_of_chars(t);
        assert(s.last() == s[s.len() - 1]);
        assert forall|i: int| 0 <= i < s.len() implies crate::state::text_chars(s)[i] == (#[trigger] s[i]).value->Char_0 by {
            if i < t.len() {
                assert(s[i] == t[i]);
            }
        }
    }
}

/// After inserting values that are the characters `cs` at position `pos`
/// of a text whose elements all hold characters and have distinct ids, the
/// text reads as its first `pos` characters, then `cs`, then the rest.
pub proof fn lemma_text_insert_string(s: Seq<Elem>, op: OpView, pos: int, values: Seq<OpValue>, cs: Seq<char>)
    requires
        ids_distinct(s),
        all_chars(s),
        0 <= pos <= visible(s).len(),
        values.len() == cs.len(),
        forall|i: int| 0 <= i < cs.len() ==> values[i] == OpValue::Char(#[trigger] cs[i]),
        op.content == (OpContentView::SeqInsert { origin: seq_origin(visible(s), pos), values }),
    ensures
        crate::state::text_chars(visible(apply_seq_op(s, op))) == crate::state::text_chars(visible(s)).take(pos) + cs
            + crate::state::text_chars(visible(s)).skip(pos),
{
    let vis = visible(s);
    let vals = values;
    let run = inserted_run(op, vals);
    lemma_seq_insert_at(s, op, pos, vals);
    lemma_visible_split(s, 0);
    assert(all_chars(vis)) by {
        lemma_visible_index_chars(s);
    }
    assert(vis =~= vis.take(pos) + vis.skip(pos));
    lemma_text_chars_concat(vis.take(pos), vis.skip(pos));
    lemma_text_chars_concat(vis.take(pos), run);
    lemma_text_chars_concat(vis.take(pos) + run, vis.skip(pos));
    assert forall|i: int| 0 <= i < run.len() implies (#[trigger] run[i]).value is Char by {
        assert(vals[i] == OpValue::Char(cs[i]));
    }
    lemma_text_chars_of_chars(run);
    assert forall|i: int| 0 <= i < cs.len() implies crate::state::text_chars(run)[i] == cs[i] by {
        assert(run[i].value == vals[i]);
        assert(vals[i] == OpValue::Char(cs[i]));
    }
    assert(crate::state::text_chars(run) =~= cs);
    assert forall|i: int| 0 <= i < vis.take(pos).len() implies (#[trigger] vis.take(pos)[i]).value is Char by {
        assert(vis.take(pos)[i] == vis[i]);
    }
    assert forall|i: int| 0 <= i < vis.skip(pos).len() implies (#[trigger] vis.skip(pos)[i]).value is Char by {
        assert(vis.skip(pos)[i] == vis[pos + i]);
    }
    lemma_text_chars_of_chars(vis.take(pos));
    lemma_text_chars_of_chars(vis.skip(pos));
    lemma_text_chars_of_chars(vis);
    let tv = crate::state::text_chars(vis);
    assert(tv.take(pos) =~= crate::state::text_chars(vis.take(pos)));
    assert(tv.skip(pos) =~= crate::state::text_chars(vis.skip(pos)));
}

/// The visible elements of a run of character elements hold characters.
proof fn lemma_visible_index_chars(s: Seq<Elem>)
    requires
        all_chars(s),
    ensures
        all_chars(visible(s)),
    decreases s.len(),
{
    if s.len() > 0 {
        let t = s.drop_last();
        assert forall|i: int| 0 <= i < t.len() implies (#[trigger] t[i]).value is Char by {
            assert(t[i] == s[i]);
        }
        lemma_visible_index_chars(t);
        assert(s.last() == s[s.len() - 1]);
        if !s.last().deleted {
            assert forall|i: int| 0 <= i < visible(s).len() implies (#[trigger] visible(s)[i]).value is Char by {
                if i < visible(t).len() {
                    assert(visible(s)[i] == visible(t)[i]);
                }
            }
        }
    }
}

/// The values of a list's elements are, one for each element in order, the
/// values its elements hold.
pub proof fn lemma_elems_value_each(log: Seq<OpView>, s: Seq<Elem>, fuel: nat)
    ensures
        crate::state::elems_value(log, s, fuel).len() == s.len(),
        forall|i: int|
            0 <= i < s.len() ==> #[trigger] crate::state::elems_value(log, s, fuel)[i] == op_value(
                log,
                s[i].value,
                s[i].id.peer,
                s[i].id.counter,
                fuel,
            ),
    decreases s.len(),
{
    if s.len() > 0 {
        let t = s.drop_last();
        lemma_elems_value_each(log, t, fuel);
        assert forall|i: int| 0 <= i < s.len() implies #[trigger] crate::state::elems_value(log, s, fuel)[i] == op_value(
            log,
            s[i].value,
            s[i].id.peer,
            s[i].id.counter,
            fuel,
        ) by {
            if i < t.len() {
                assert(s[i] == t[i]);
            } else {
                assert(s.last() == s[i]);
            }
        }
    }
}

/// An op on another container changes neither the sequence nor the
/// entries of container `c`.
pub proof fn lemma_other_container_frame(log: Seq<OpView>, op: OpView, c: ContainerIdView)
    requires
        op.container != c,
    ensures
        crate::state::seq_state(log.push(op), c) == crate::state::seq_state(log, c),
        map_entries(log.push(op), c) == map_entries(log, c),
{
    assert(log.push(op).drop_last() =~= log);
}

/// The texts of runs, one after another.
pub open spec fn joined(sp: Seq<(Seq<char>, crate::richtext::Styles)>) -> Seq<char>
    decreases sp.len(),
{
    if sp.len() == 0 {
        Seq::empty()
    } else {
        joined(sp.drop_last()) + sp.last().0
    }
}

/// The runs of a styled text, read one after another, are its text: every
/// visible character once, in order.
pub proof fn lemma_style_spans_text(log: Seq<OpView>, c: ContainerIdView, s: Seq<Elem>, n: nat)
    requires
        n <= s.len(),
    ensures
        joined(crate::richtext::style_spans(log, c, s, n)) == crate::state::text_chars(visible(s.take(n as int))),
    decreases n,
{
    if n == 0 {
        assert(s.take(0) =~= Seq::<Elem>::empty());
    } else {
        let m = (n - 1) as nat;
        lemma_style_spans_text(log, c, s, m);
        lemma_visible_take_step(s, m as int);
        let prev = crate::richtext::style_spans(log, c, s, m);
        let e = s[m as int];
        let v = visible(s.take(m as int));
        if !e.deleted {
            assert(v.push(e).drop_last() =~= v);
            assert(v.push(e).last() == e);
        }
        if !e.deleted && e.value is Char {
            let ch = e.value->Char_0;
            let st = crate::richtext::elem_styles(log, c, s, m as int);
            if prev.len() > 0 && prev.last().1 == st {
                let u = prev.update(prev.len() - 1, (prev.last().0.push(ch), st));
                assert(u.drop_last() =~= prev.drop_last());
                assert(joined(prev) == joined(prev.drop_last()) + prev.last().0);
                assert(joined(u) == joined(u.drop_last()) + u.last().0);
                assert(joined(u) =~= joined(prev).push(ch));
            } else {
                let u = prev.push((seq![ch], st));
                assert(u.drop_last() =~= prev);
                assert(joined(u) =~= joined(prev).push(ch));
            }
        }
    }
}

/// The runs of a styled text are not empty, and two runs next to each
/// other have different styles (characters with the same styles that
/// follow each other share a run).
pub proof fn lemma_style_spans_split(log: Seq<OpView>, c: ContainerIdView, s: Seq<Elem>, n: nat)
    requires
        n <= s.len(),
    ensures
        forall|k: int|
            0 <= k < crate::richtext::style_spans(log, c, s, n).len() ==> (#[trigger] crate::richtext::style_spans(
                log,
                c,
                s,
                n,
            )[k]).0.len() > 0,
        forall|k: int|
            0 <= k < crate::richtext::style_spans(log, c, s, n).len() - 1 ==> (#[trigger] crate::richtext::style_spans(
                log,
                c,
                s,
                n,
            )[k]).1 != crate::richtext::style_spans(log, c, s, n)[k + 1].1,
    decreases n,
{
    if n > 0 {
        let m = (n - 1) as nat;
        lemma_style_spans_split(log, c, s, m);
        let prev = crate::richtext::style_spans(log, c, s, m);
        let sp = crate::richtext::style_spans(log, c, s, n);
        let e = s[m as int];
        if !e.deleted && e.value is Char {
            let ch = e.value->Char_0;
            let st = crate::richtext::elem_styles(log, c, s, m as int);
            if prev.len() > 0 && prev.last().1 == st {
                assert forall|k: int| 0 <= k < sp.len() implies (#[trigger] sp[k]).0.len() > 0 by {
                    if k < prev.len() - 1 {
                        assert(sp[k] == prev[k]);
                    }
                }
                assert forall|k: int| 0 <= k < sp.len() - 1 implies (#[trigger] sp[k]).1 != sp[k + 1].1 by {
                    assert(sp[k] == prev[k]);
                    if k + 1 < prev.len() - 1 {
                        assert(sp[k + 1] == prev[k + 1]);
                    } else {
                        assert(sp[k + 1].1 == prev[k + 1].1);
                    }
                }
            } else {
                assert forall|k: int| 0 <= k < sp.len() implies (#[trigger] sp[k]).0.len() > 0 by {
                    if k < prev.len() {
                        assert(sp[k] == prev[k]);
                    }
                }
                assert forall|k: int| 0 <= k < sp.len() - 1 implies (#[trigger] sp[k]).1 != sp[k + 1].1 by {
                    assert(sp[k] == prev[k]);
                    if k + 1 < prev.len() {
                        assert(sp[k + 1] == prev[k + 1]);
                    }
                }
            }
        }
    }
}

proof fn lemma_roots_touched(log: Seq<OpView>)
    ensures
        forall|k: int|
            0 <= k < log.len() && (#[trigger] log[k]).container is Root ==> crate::state::roots(log).contains(
                log[k].container,
            ),
        forall|r: int|
            0 <= r < crate::state::roots(log).len() ==> (#[trigger] crate::state::roots(log)[r]) is Root,
    decreases log.len(),
{
    if log.len() > 0 {
        let t = log.drop_last();
        lemma_roots_touched(t);
        let p = crate::state::roots(t);
        let rs = crate::state::roots(log);
        assert forall|k: int| 0 <= k < log.len() && (#[trigger] log[k]).container is Root implies rs.contains(
            log[k].container,
        ) by {
            if k < t.len() {
                assert(log[k] == t[k]);
                assert(p.contains(t[k].container));
                let w = choose|w: int| 0 <= w < p.len() && p[w] == t[k].container;
                assert(rs[w] == p[w]);
            } else {
                assert(log.last() == log[k]);
                if !p.contains(log.last().container) {
                    assert(rs[p.len() as int] == log.last().container);
                }
            }
        }
        assert forall|r: int| 0 <= r < rs.len() implies (#[trigger] rs[r]) is Root by {
            if r < p.len() {
                assert(rs[r] == p[r]);
            }
        }
    }
}

proof fn lemma_roots_value_has(log: Seq<OpView>, rs: Seq<ContainerIdView>)
    ensures
        forall|r: int|
            0 <= r < rs.len() && (#[trigger] rs[r]) is Root ==> crate::state::roots_value(log, rs).contains(
                (rs[r]->Root_name, crate::state::container_value(log, rs[r], crate::state::depth_fuel(log))),
            ),
    decreases rs.len(),
{
    if rs.len() > 0 {
        let t = rs.drop_last();
        lemma_roots_value_has(log, t);
        let p = crate::state::roots_value(log, t);
        let v = crate::state::roots_value(log, rs);
        assert forall|r: int| 0 <= r < rs.len() && (#[trigger] rs[r]) is Root implies v.contains(
            (rs[r]->Root_name, crate::state::container_value(log, rs[r], crate::state::depth_fuel(log))),
        ) by {
            if r < t.len() {
                assert(rs[r] == t[r]);
                let pr = (t[r]->Root_name, crate::state::container_value(log, t[r], crate::state::depth_fuel(log)));
                assert(p.contains(pr));
                let w = choose|w: int| 0 <= w < p.len() && p[w] == pr;
                assert(v[w] == p[w]);
            } else {
                assert(rs.last() == rs[r]);
                assert(v[p.len() as int] == (rs[r]->Root_name, crate::state::container_value(log, rs[r], crate::state::depth_fuel(log))));
            }
        }
    }
}

/// The deep value of a document shows every root container that an op of
/// its log touches, under the container's name, with the container's value.
pub proof fn lemma_doc_value_shows_roots(log: Seq<OpView>)
    ensures
        forall|k: int|
            0 <= k < log.len() && (#[trigger] log[k]).container is Root ==> crate::state::doc_value(
                log,
            )->Mapping_0.contains(
                (log[k].container->Root_name, crate::state::container_value(log, log[k].container, log.len())),
            ),
{
    lemma_roots_touched(log);
    let rs = crate::state::roots(log);
    lemma_roots_value_has(log, rs);
    assert forall|k: int| 0 <= k < log.len() && (#[trigger] log[k]).container is Root implies crate::state::doc_value(
        log,
    )->Mapping_0.contains(
        (log[k].container->Root_name, crate::state::container_value(log, log[k].container, log.len())),
    ) by {
        assert(rs.contains(log[k].container));
        let r = choose|r: int| 0 <= r < rs.len() && rs[r] == log[k].container;
        assert(rs[r] is Root);
    }
}

} // verus!
