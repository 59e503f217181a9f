//! Decoding of values nested in the columnar format: the grammar of an
//! encoded value, and the reader that follows it without recursion so that
//! deeply nested values cannot exhaust the stack.
use vstd::prelude::*;
use vstd::slice::slice_to_vec;
use vstd::utf8::{decode_utf8, encode_utf8_decode_utf8, valid_utf8};
use crate::common::{
    ContainerID, ContainerIdView, ContainerType, ID, LoroError, LoroResult, LoroValue, LoroValueView,
    container_type_from_u8, lemma_pairs_view, lemma_values_view, pairs_view, values_view,
};
use crate::encoding::leb::{lemma_sleb_read_len, lemma_uleb_read_len, sleb_read, uleb_read};
use crate::encoding::value::{LoroValueKind, ValueReader, be_word, loro_value_kind_byte, rest, str_bytes_valid};

verus! {

/// The most items a decoded list or map may announce.
pub const MAX_COLLECTION_SIZE: usize = 268435456;

/// The outcome of decoding a value at the front of some bytes: the value
/// and the bytes after it; or corrupt input, which the reader reports as an
/// error; or input the reader cannot read at all (a kind byte above the
/// known kinds, or a string that is not UTF-8), on which it stops.
pub enum ValueParse {
    Value(LoroValueView, Seq<u8>),
    Corrupt,
    Unreadable,
}

/// The outcome of decoding a run of list items.
pub enum ItemsParse {
    Items(Seq<LoroValueView>, Seq<u8>),
    Corrupt,
    Unreadable,
}

/// The outcome of decoding a run of map entries, in the order they come.
pub enum EntriesParse {
    Entries(Seq<(Seq<char>, LoroValueView)>, Seq<u8>),
    Corrupt,
    Unreadable,
}

/// The container type a byte stands for; bytes past the known types keep
/// their number.
pub open spec fn container_type_of_byte(b: u8) -> ContainerType {
    match container_type_from_u8(b) {
        Some(t) => t,
        None => ContainerType::Unknown(b),
    }
}

/// The position of `key` in a map's entries, or -1.
pub open spec fn entry_index(m: Seq<(Seq<char>, LoroValueView)>, key: Seq<char>) -> int
    decreases m.len(),
{
    if m.len() == 0 {
        -1
    } else if m.last().0 == key {
        m.len() - 1
    } else {
        entry_index(m.drop_last(), key)
    }
}

/// A map with `key` set to `v`: the entry is replaced where the key is
/// present, and appended otherwise.
pub open spec fn map_put(m: Seq<(Seq<char>, LoroValueView)>, key: Seq<char>, v: LoroValueView) -> Seq<
    (Seq<char>, LoroValueView),
> {
    let i = entry_index(m, key);
    if i >= 0 {
        m.update(i, (key, v))
    } else {
        m.push((key, v))
    }
}

/// The map built by putting the entries one after another into `m`.
pub open spec fn map_put_all(
    m: Seq<(Seq<char>, LoroValueView)>,
    es: Seq<(Seq<char>, LoroValueView)>,
) -> Seq<(Seq<char>, LoroValueView)>
    decreases es.len(),
{
    if es.len() == 0 {
        m
    } else {
        map_put_all(map_put(m, es[0].0, es[0].1), es.drop_first())
    }
}

/// Decoding a string: its byte length, then its bytes, which must be UTF-8.
pub open spec fn parse_str(s: Seq<u8>) -> ValueParse {
    match uleb_read(s) {
        None => ValueParse::Corrupt,
        Some((len, n)) => {
            let end = n + (len as usize);
            if end > s.len() {
                ValueParse::Corrupt
            } else if !valid_utf8(s.subrange(n as int, end)) {
                ValueParse::Unreadable
            } else {
                ValueParse::Value(
                    LoroValueView::String(decode_utf8(s.subrange(n as int, end))),
                    rest(s, end),
                )
            }
        },
    }
}

/// Decoding binary data: its length, then its bytes.
pub open spec fn parse_binary(s: Seq<u8>) -> ValueParse {
    match uleb_read(s) {
        None => ValueParse::Corrupt,
        Some((len, n)) => {
            let end = n + (len as usize);
            if end > s.len() {
                ValueParse::Corrupt
            } else {
                ValueParse::Value(LoroValueView::Binary(s.subrange(n as int, end)), rest(s, end))
            }
        },
    }
}

/// Decoding the content of a value of a kind that holds no other values.
pub open spec fn parse_scalar(k: u8, t: Seq<u8>, id: ID) -> ValueParse {
    if k == 0 {
        ValueParse::Value(LoroValueView::Null, t)
    } else if k == 1 {
        ValueParse::Value(LoroValueView::Bool(true), t)
    } else if k == 2 {
        ValueParse::Value(LoroValueView::Bool(false), t)
    } else if k == 3 {
        match sleb_read(t) {
            None => ValueParse::Corrupt,
            Some((v, n)) => ValueParse::Value(LoroValueView::I64(v as i64), rest(t, n as int)),
        }
    } else if k == 4 {
        if t.len() < 8 {
            ValueParse::Corrupt
        } else {
            ValueParse::Value(LoroValueView::Double(be_word(t)), rest(t, 8))
        }
    } else if k == 5 {
        parse_str(t)
    } else if k == 6 {
        parse_binary(t)
    } else {
        if t.len() == 0 {
            ValueParse::Corrupt
        } else {
            ValueParse::Value(
                LoroValueView::Container(
                    ContainerIdView::Normal {
                        peer: id.peer,
                        counter: id.counter,
                        container_type: container_type_of_byte(t[0]),
                    },
                ),
                rest(t, 1),
            )
        }
    }
}

/// Decoding a value: a kind byte (0 to 9), then its content. A list or map
/// gives its number of items, at most `MAX_COLLECTION_SIZE`, then the items;
/// each map entry is a key index into `keys` followed by a value, and the
/// index is checked once the value is read. A container reference is the
/// container's type byte; its id is `id`.
pub open spec fn parse_value(s: Seq<u8>, keys: Seq<Seq<char>>, id: ID) -> ValueParse
    decreases s.len(), 0nat, 0nat,
{
    if s.len() == 0 {
        ValueParse::Corrupt
    } else {
        let k = s[0];
        let t = s.drop_first();
        if k > 9 {
            ValueParse::Unreadable
        } else if k == 7 || k == 8 {
            match uleb_read(t) {
                None => ValueParse::Corrupt,
                Some((len, n)) => {
                    if (len as usize) > MAX_COLLECTION_SIZE || n > t.len() {
                        ValueParse::Corrupt
                    } else if k == 7 {
                        match parse_items(rest(t, n as int), (len as usize) as nat, keys, id) {
                            ItemsParse::Items(vs, r) => ValueParse::Value(LoroValueView::List(vs), r),
                            ItemsParse::Corrupt => ValueParse::Corrupt,
                            ItemsParse::Unreadable => ValueParse::Unreadable,
                        }
                    } else {
                        match parse_entries(rest(t, n as int), (len as usize) as nat, keys, id) {
                            EntriesParse::Entries(es, r) => ValueParse::Value(
                                LoroValueView::Mapping(map_put_all(Seq::empty(), es)),
                                r,
                            ),
                            EntriesParse::Corrupt => ValueParse::Corrupt,
                            EntriesParse::Unreadable => ValueParse::Unreadable,
                        }
                    }
                },
            }
        } else {
            parse_scalar(k, t, id)
        }
    }
}

/// Decoding `n` values one after another.
pub open spec fn parse_items(s: Seq<u8>, n: nat, keys: Seq<Seq<char>>, id: ID) -> ItemsParse
    decreases s.len(), 1nat, n,
{
    if n == 0 {
        ItemsParse::Items(Seq::empty(), s)
    } else {
        match parse_value(s, keys, id) {
            ValueParse::Value(v, r) => if r.len() < s.len() {
                match parse_items(r, (n - 1) as nat, keys, id) {
                    ItemsParse::Items(vs, r2) => ItemsParse::Items(seq![v] + vs, r2),
                    ItemsParse::Corrupt => ItemsParse::Corrupt,
                    ItemsParse::Unreadable => ItemsParse::Unreadable,
                }
            } else {
                ItemsParse::Corrupt
            },
            ValueParse::Corrupt => ItemsParse::Corrupt,
            ValueParse::Unreadable => ItemsParse::Unreadable,
        }
    }
}

/// Decoding `n` map entries one after another.
pub open spec fn parse_entries(s: Seq<u8>, n: nat, keys: Seq<Seq<char>>, id: ID) -> EntriesParse
    decreases s.len(), 1nat, n,
{
    if n == 0 {
        EntriesParse::Entries(Seq::empty(), s)
    } else {
        match uleb_read(s) {
            None => EntriesParse::Corrupt,
            Some((ki, m)) => if m == 0 || m > s.len() {
                EntriesParse::Corrupt
            } else {
                match parse_value(rest(s, m as int), keys, id) {
                    ValueParse::Value(v, r) => if (ki as usize) >= keys.len() {
                        EntriesParse::Corrupt
                    } else if r.len() < s.len() {
                        match parse_entries(r, (n - 1) as nat, keys, id) {
                            EntriesParse::Entries(es, r2) => EntriesParse::Entries(
                                seq![(keys[(ki as usize) as int], v)] + es,
                                r2,
                            ),
                            EntriesParse::Corrupt => EntriesParse::Corrupt,
                            EntriesParse::Unreadable => EntriesParse::Unreadable,
                        }
                    } else {
                        EntriesParse::Corrupt
                    },
                    ValueParse::Corrupt => EntriesParse::Corrupt,
                    ValueParse::Unreadable => EntriesParse::Unreadable,
                }
            },
        }
    }
}

/// `a` is a suffix of `s` strictly shorter than it.
pub open spec fn proper_suffix(a: Seq<u8>, s: Seq<u8>) -> bool {
    a.len() < s.len() && a == s.subrange(s.len() - a.len(), s.len() as int)
}

/// `a` is a suffix of `s`.
pub open spec fn suffix_of(a: Seq<u8>, s: Seq<u8>) -> bool {
    a.len() <= s.len() && a == s.subrange(s.len() - a.len(), s.len() as int)
}

proof fn lemma_suffix_trans(a: Seq<u8>, b: Seq<u8>, c: Seq<u8>)
    requires
        suffix_of(a, b),
        suffix_of(b, c),
    ensures
        suffix_of(a, c),
{
    assert(a =~= c.subrange(c.len() - a.len(), c.len() as int));
}

proof fn lemma_rest_suffix(s: Seq<u8>, n: int)
    requires
        0 <= n <= s.len(),
    ensures
        suffix_of(rest(s, n), s),
{
    assert(rest(s, n) =~= s.subrange(s.len() - rest(s, n).len(), s.len() as int));
}

/// A decoded value leaves a proper suffix of the input behind.
pub proof fn lemma_parse_value_suffix(s: Seq<u8>, keys: Seq<Seq<char>>, id: ID)
    ensures
        parse_value(s, keys, id) matches ValueParse::Value(v, r) ==> proper_suffix(r, s),
    decreases s.len(), 0nat, 0nat,
{
    if s.len() > 0 {
        let k = s[0];
        let t = s.drop_first();
        lemma_rest_suffix(s, 1);
        assert(t =~= rest(s, 1));
        if k <= 9 {
            if k == 7 || k == 8 {
                lemma_uleb_read_len(t);
                if let Some((len, n)) = uleb_read(t) {
                    if !((len as usize) > MAX_COLLECTION_SIZE || n > t.len()) {
                        let u = rest(t, n as int);
                        lemma_rest_suffix(t, n as int);
                        lemma_suffix_trans(u, t, s);
                        if k == 7 {
                            lemma_parse_items_suffix(u, (len as usize) as nat, keys, id);
                            if let ItemsParse::Items(vs, r) = parse_items(u, (len as usize) as nat, keys, id) {
                                lemma_suffix_trans(r, u, s);
                            }
                        } else {
                            lemma_parse_entries_suffix(u, (len as usize) as nat, keys, id);
                            if let EntriesParse::Entries(es, r) = parse_entries(u, (len as usize) as nat, keys, id) {
                                lemma_suffix_trans(r, u, s);
                            }
                        }
                    }
                }
            } else {
                lemma_parse_scalar_suffix(k, t, id);
                if let ValueParse::Value(v, r) = parse_scalar(k, t, id) {
                    lemma_suffix_trans(r, t, s);
                }
            }
        }
    }
}

proof fn lemma_parse_scalar_suffix(k: u8, t: Seq<u8>, id: ID)
    ensures
        parse_scalar(k, t, id) matches ValueParse::Value(v, r) ==> suffix_of(r, t),
{
    assert(suffix_of(t, t)) by {
        assert(t =~= t.subrange(0, t.len() as int));
    }
    if k == 3 {
        if let Some((v, n)) = sleb_read(t) {
            lemma_sleb_read_len(t);
            lemma_rest_suffix(t, n as int);
        }
    } else if k == 4 {
        if t.len() >= 8 {
            lemma_rest_suffix(t, 8);
        }
    } else if k == 5 || k == 6 {
        lemma_uleb_read_len(t);
        if let Some((len, n)) = uleb_read(t) {
            let end = n + (len as usize);
            if end <= t.len() {
                lemma_rest_suffix(t, end);
            }
        }
    } else if k > 6 {
        if t.len() > 0 {
            lemma_rest_suffix(t, 1);
        }
    }
}

pub proof fn lemma_parse_items_suffix(s: Seq<u8>, n: nat, keys: Seq<Seq<char>>, id: ID)
    ensures
        parse_items(s, n, keys, id) matches ItemsParse::Items(vs, r) ==> suffix_of(r, s) && vs.len()
            == n,
    decreases s.len(), 1nat, n,
{
    if n == 0 {
        assert(s =~= s.subrange(0, s.len() as int));
    } else {
        lemma_parse_value_suffix(s, keys, id);
        if let ValueParse::Value(v, r) = parse_value(s, keys, id) {
            if r.len() < s.len() {
                lemma_parse_items_suffix(r, (n - 1) as nat, keys, id);
                if let ItemsParse::Items(vs, r2) = parse_items(r, (n - 1) as nat, keys, id) {
                    lemma_suffix_trans(r2, r, s);
                }
            }
        }
    }
}

pub proof fn lemma_parse_entries_suffix(s: Seq<u8>, n: nat, keys: Seq<Seq<char>>, id: ID)
    ensures
        parse_entries(s, n, keys, id) matches EntriesParse::Entries(es, r) ==> suffix_of(r, s)
            && es.len() == n,
    decreases s.len(), 1nat, n,
{
    if n == 0 {
        assert(s =~= s.subrange(0, s.len() as int));
    } else {
        if let Some((ki, m)) = uleb_read(s) {
            if !(m == 0 || m > s.len()) {
                let u = rest(s, m as int);
                lemma_rest_suffix(s, m as int);
                lemma_parse_value_suffix(u, keys, id);
                if let ValueParse::Value(v, r) = parse_value(u, keys, id) {
                    if (ki as usize) < keys.len() && r.len() < s.len() {
                        lemma_suffix_trans(r, u, s);
                        lemma_parse_entries_suffix(r, (n - 1) as nat, keys, id);
                        if let EntriesParse::Entries(es, r2) = parse_entries(r, (n - 1) as nat, keys, id) {
                            lemma_suffix_trans(r2, r, s);
                        }
                    }
                }
            }
        }
    }
}


/// A partly read value on the reader's stack: the value being read at the
/// top level, or a list or map with `left` items still to read, the items
/// read so far, and the index of its key where its parent is a map.
enum ReadTask {
    Init,
    ReadList { left: usize, vec: Vec<LoroValue>, key_idx_in_parent: usize },
    ReadMap { left: usize, map: Vec<(String, LoroValue)>, key_idx_in_parent: usize },
}

/// The abstract value of a partly read value.
pub enum TaskView {
    Init,
    List { left: nat, items: Seq<LoroValueView>, key: nat },
    Mapping { left: nat, entries: Seq<(Seq<char>, LoroValueView)>, key: nat },
}

spec fn task_view(t: ReadTask) -> TaskView {
    match t {
        ReadTask::Init => TaskView::Init,
        ReadTask::ReadList { left, vec, key_idx_in_parent } => TaskView::List {
            left: left as nat,
            items: values_view(vec@),
            key: key_idx_in_parent as nat,
        },
        ReadTask::ReadMap { left, map, key_idx_in_parent } => TaskView::Mapping {
            left: left as nat,
            entries: pairs_view(map@),
            key: key_idx_in_parent as nat,
        },
    }
}

spec fn stack_view(st: Seq<ReadTask>) -> Seq<TaskView> {
    Seq::new(st.len(), |i: int| task_view(st[i]))
}

/// What the reader ends with when its stack is `st` and `s` is left to
/// read: the items still due at the top are read, and the finished value is
/// handed to the task below.
pub open spec fn resume(st: Seq<TaskView>, s: Seq<u8>, keys: Seq<Seq<char>>, id: ID) -> ValueParse
    decreases st.len(), 1nat,
{
    if st.len() == 0 {
        ValueParse::Corrupt
    } else {
        match st.last() {
            TaskView::Init => parse_value(s, keys, id),
            TaskView::List { left, items, key } => match parse_items(s, left, keys, id) {
                ItemsParse::Items(vs, r) => deliver(
                    st.drop_last(),
                    LoroValueView::List(items + vs),
                    key,
                    r,
                    keys,
                    id,
                ),
                ItemsParse::Corrupt => ValueParse::Corrupt,
                ItemsParse::Unreadable => ValueParse::Unreadable,
            },
            TaskView::Mapping { left, entries, key } => match parse_entries(s, left, keys, id) {
                EntriesParse::Entries(es, r) => deliver(
                    st.drop_last(),
                    LoroValueView::Mapping(map_put_all(entries, es)),
                    key,
                    r,
                    keys,
                    id,
                ),
                EntriesParse::Corrupt => ValueParse::Corrupt,
                EntriesParse::Unreadable => ValueParse::Unreadable,
            },
        }
    }
}

/// What the reader ends with after handing the finished value `v`, whose
/// key index is `key`, to the top of `st`, with `r` left to read.
pub open spec fn deliver(
    st: Seq<TaskView>,
    v: LoroValueView,
    key: nat,
    r: Seq<u8>,
    keys: Seq<Seq<char>>,
    id: ID,
) -> ValueParse
    decreases st.len() + 1, 0nat,
{
    if st.len() == 0 {
        ValueParse::Value(v, r)
    } else {
        match st.last() {
            TaskView::Init => ValueParse::Value(v, r),
            TaskView::List { left, items, key: k2 } => resume(
                st.drop_last().push(TaskView::List { left: (left - 1) as nat, items: items.push(v), key: k2 }),
                r,
                keys,
                id,
            ),
            TaskView::Mapping { left, entries, key: k2 } => if key >= keys.len() {
                ValueParse::Corrupt
            } else {
                resume(
                    st.drop_last().push(
                        TaskView::Mapping {
                            left: (left - 1) as nat,
                            entries: map_put(entries, keys[key as int], v),
                            key: k2,
                        },
                    ),
                    r,
                    keys,
                    id,
                )
            },
        }
    }
}

/// The outcome of a value read at `s` and handed to the top of `st`.
pub open spec fn value_then(
    st: Seq<TaskView>,
    s: Seq<u8>,
    key: nat,
    keys: Seq<Seq<char>>,
    id: ID,
) -> ValueParse {
    match parse_value(s, keys, id) {
        ValueParse::Value(v, r) => deliver(st, v, key, r, keys, id),
        ValueParse::Corrupt => ValueParse::Corrupt,
        ValueParse::Unreadable => ValueParse::Unreadable,
    }
}

/// The shape of the reader's stack: the top-level task at the bottom, and
/// every task below the top still waiting for an item.
pub open spec fn stack_shaped(st: Seq<TaskView>) -> bool {
    &&& st.len() >= 1
    &&& st[0] is Init
    &&& forall|i: int| 1 <= i < st.len() ==> !(#[trigger] st[i] is Init)
    &&& forall|i: int|
        0 <= i < st.len() - 1 ==> match #[trigger] st[i] {
            TaskView::List { left, .. } => left >= 1,
            TaskView::Mapping { left, .. } => left >= 1,
            TaskView::Init => true,
        }
}

/// At the top-level task or a list with items due, the outcome is that of
/// the next value handed on.
proof fn lemma_resume_list_top(st: Seq<TaskView>, s: Seq<u8>, keys: Seq<Seq<char>>, id: ID)
    requires
        st.len() >= 1,
        st.last() is Init || (st.last() matches TaskView::List { left, .. } && left >= 1),
    ensures
        resume(st, s, keys, id) == value_then(st, s, 0, keys, id),
{
    lemma_parse_value_suffix(s, keys, id);
    if let TaskView::List { left, items, key } = st.last() {
        let base = st.drop_last();
        assert(st.drop_last().push(TaskView::List { left: (left - 1) as nat, items: items, key: key }).drop_last() =~= base);
        if let ValueParse::Value(v, r) = parse_value(s, keys, id) {
            let next = base.push(TaskView::List { left: (left - 1) as nat, items: items.push(v), key });
            assert(next.drop_last() =~= base);
            assert(next.last() == TaskView::List { left: (left - 1) as nat, items: items.push(v), key });
            if let ItemsParse::Items(vs, r2) = parse_items(r, (left - 1) as nat, keys, id) {
                assert(items + (seq![v] + vs) =~= items.push(v) + vs);
            }
        }
    }
}

/// At a map with entries due, the outcome is that of the next key index
/// and value handed on.
proof fn lemma_resume_map_top(st: Seq<TaskView>, s: Seq<u8>, keys: Seq<Seq<char>>, id: ID)
    requires
        st.len() >= 1,
        st.last() matches TaskView::Mapping { left, .. } && left >= 1,
    ensures
        resume(st, s, keys, id) == match uleb_read(s) {
            None => ValueParse::Corrupt,
            Some((ki, m)) => if m == 0 || m > s.len() {
                ValueParse::Corrupt
            } else {
                value_then(st, rest(s, m as int), (ki as usize) as nat, keys, id)
            },
        },
{
    if let TaskView::Mapping { left, entries, key } = st.last() {
        let base = st.drop_last();
        if let Some((ki, m)) = uleb_read(s) {
            if !(m == 0 || m > s.len()) {
                let u = rest(s, m as int);
                lemma_parse_value_suffix(u, keys, id);
                lemma_rest_suffix(s, m as int);
                if let ValueParse::Value(v, r) = parse_value(u, keys, id) {
                    if (ki as usize) < keys.len() {
                        let k = keys[(ki as usize) as int];
                        let next = base.push(TaskView::Mapping { left: (left - 1) as nat, entries: map_put(entries, k, v), key });
                        assert(next.drop_last() =~= base);
                        assert(r.len() < s.len());
                        if let EntriesParse::Entries(es, r2) = parse_entries(r, (left - 1) as nat, keys, id) {
                            assert((seq![(k, v)] + es).drop_first() =~= es);
                            assert((seq![(k, v)] + es)[0] == (k, v));
                        }
                    }
                }
            }
        }
    }
}

/// A list or map whose items are all read is finished and handed on.
proof fn lemma_resume_finished(st: Seq<TaskView>, s: Seq<u8>, keys: Seq<Seq<char>>, id: ID)
    requires
        st.len() >= 1,
        (st.last() matches TaskView::List { left, .. } && left == 0) || (st.last() matches TaskView::Mapping {
            left,
            ..
        } && left == 0),
    ensures
        resume(st, s, keys, id) == match st.last() {
            TaskView::List { items, key, .. } => deliver(
                st.drop_last(),
                LoroValueView::List(items),
                key,
                s,
                keys,
                id,
            ),
            TaskView::Mapping { entries, key, .. } => deliver(
                st.drop_last(),
                LoroValueView::Mapping(entries),
                key,
                s,
                keys,
                id,
            ),
            TaskView::Init => ValueParse::Corrupt,
        },
{
    if let TaskView::List { left, items, key } = st.last() {
        assert(items + Seq::<LoroValueView>::empty() =~= items);
    }
}

/// The header of a list or map, once read, leaves a new task whose outcome
/// is that of the whole value handed on.
proof fn lemma_value_then_collection(
    st: Seq<TaskView>,
    s: Seq<u8>,
    key: nat,
    keys: Seq<Seq<char>>,
    id: ID,
)
    requires
        st.len() >= 1,
        s.len() >= 1,
        s[0] == 7 || s[0] == 8,
        uleb_read(s.drop_first()) matches Some((len, n)) && (len as usize) <= MAX_COLLECTION_SIZE && n
            <= s.drop_first().len(),
    ensures
        ({
            let (len, n) = uleb_read(s.drop_first())->Some_0;
            let u = rest(s.drop_first(), n as int);
            let frame = if s[0] == 7 {
                TaskView::List { left: (len as usize) as nat, items: Seq::empty(), key }
            } else {
                TaskView::Mapping { left: (len as usize) as nat, entries: Seq::empty(), key }
            };
            value_then(st, s, key, keys, id) == resume(st.push(frame), u, keys, id)
        }),
{
    let (len, n) = uleb_read(s.drop_first())->Some_0;
    let u = rest(s.drop_first(), n as int);
    let frame = if s[0] == 7 {
        TaskView::List { left: (len as usize) as nat, items: Seq::empty(), key }
    } else {
        TaskView::Mapping { left: (len as usize) as nat, entries: Seq::empty(), key }
    };
    assert(st.push(frame).drop_last() =~= st);
    if s[0] == 7 {
        if let ItemsParse::Items(vs, r) = parse_items(u, (len as usize) as nat, keys, id) {
            assert(Seq::<LoroValueView>::empty() + vs =~= vs);
        }
    }
}

/// The reader's stack stays in shape when a task is pushed back with a new
/// list or map on top of it.
proof fn lemma_shape_push_frame(st: Seq<TaskView>, t: TaskView, f: TaskView)
    requires
        stack_shaped(st.push(t)),
        t is Init || (t matches TaskView::List { left, .. } && left >= 1) || (t matches TaskView::Mapping {
            left,
            ..
        } && left >= 1),
        !(f is Init),
    ensures
        stack_shaped(st.push(t).push(f)),
{
    let s2 = st.push(t).push(f);
    assert forall|i: int| 1 <= i < s2.len() implies !(#[trigger] s2[i] is Init) by {
        if i < s2.len() - 1 {
            assert(s2[i] == st.push(t)[i]);
        }
    }
    assert forall|i: int| 0 <= i < s2.len() - 1 implies match #[trigger] s2[i] {
        TaskView::List { left, .. } => left >= 1,
        TaskView::Mapping { left, .. } => left >= 1,
        TaskView::Init => true,
    } by {
        assert(s2[i] == st.push(t)[i]);
    }
}

/// Replacing the top of a shaped stack by a task that is not the top-level
/// one keeps it shaped.
proof fn lemma_shape_replace_top(st: Seq<TaskView>, t: TaskView)
    requires
        stack_shaped(st),
        st.len() >= 2,
        !(t is Init),
    ensures
        stack_shaped(st.drop_last().push(t)),
{
    let s2 = st.drop_last().push(t);
    assert forall|i: int| 1 <= i < s2.len() implies !(#[trigger] s2[i] is Init) by {
        if i < s2.len() - 1 {
            assert(s2[i] == st[i]);
        }
    }
    assert forall|i: int| 0 <= i < s2.len() - 1 implies match #[trigger] s2[i] {
        TaskView::List { left, .. } => left >= 1,
        TaskView::Mapping { left, .. } => left >= 1,
        TaskView::Init => true,
    } by {
        assert(s2[i] == st[i]);
    }
}

/// Sets `key` to `value` in a map kept as entries: replaces the entry of the
/// key where there is one, and appends one otherwise.
pub(crate) fn map_insert(map: &mut Vec<(String, LoroValue)>, key: String, value: LoroValue)
    ensures
        pairs_view(final(map)@) == map_put(pairs_view(old(map)@), key@, value@),
{
    let ghost pv = pairs_view(map@);
    proof {
        lemma_pairs_view(map@);
    }
    let mut i: usize = map.len();
    assert(pv.take(i as int) =~= pv);
    while i > 0
        invariant
            i <= map@.len(),
            map@ == old(map)@,
            pv == pairs_view(map@),
            pv.len() == map@.len(),
            forall|j: int| 0 <= j < map@.len() ==> #[trigger] pv[j] == (map@[j].0@, map@[j].1@),
            entry_index(pv, key@) == entry_index(pv.take(i as int), key@),
        decreases i,
    {
        let ghost t = pv.take(i as int);
        assert(t.last() == pv[i - 1]);
        if map[i - 1].0 == key {
            assert(entry_index(t, key@) == i - 1);
            assert(entry_index(pv, key@) == i - 1);
            let ghost old_map = map@;
            let ghost kv = key@;
            let ghost vv = value@;
            map.set(i - 1, (key, value));
            proof {
                assert(map@ == old_map.update(i - 1, map@[i - 1]));
                lemma_pairs_view(map@);
                assert(pairs_view(map@) =~= pv.update(i - 1, (kv, vv)));
                assert(map_put(pv, kv, vv) == pv.update(i - 1, (kv, vv)));
            }
            return ;
        }
        assert(t.drop_last() =~= pv.take(i - 1));
        i -= 1;
    }
    assert(pv.take(0) =~= Seq::<(Seq<char>, LoroValueView)>::empty());
    let ghost old_map = map@;
    map.push((key, value));
    proof {
        lemma_pairs_view(map@);
        assert(pairs_view(map@) =~= pv.push((key@, value@)));
    }
}

/// Appends a value to a list kept as a vector.
pub(crate) fn list_push(vec: &mut Vec<LoroValue>, value: LoroValue)
    ensures
        values_view(final(vec)@) == values_view(old(vec)@).push(value@),
{
    let ghost old_vec = vec@;
    vec.push(value);
    assert(vec@.drop_last() =~= old_vec);
}

impl<'a> ValueReader<'a> {
    /// Reads the content of a value of a kind that holds no other values.
    fn read_scalar_content(&mut self, kind: u8, id: ID) -> (r: LoroResult<LoroValue>)
        requires
            kind <= 9,
            kind != 7,
            kind != 8,
            !(parse_scalar(kind, old(self)@, id) is Unreadable),
        ensures
            match parse_scalar(kind, old(self)@, id) {
                ValueParse::Value(v, rest) => r is Ok && r->Ok_0@ == v && final(self)@ == rest,
                ValueParse::Corrupt => r == Err::<LoroValue, LoroError>(
                    LoroError::DecodeDataCorruptionError,
                ),
                ValueParse::Unreadable => false,
            },
    {
        let k = LoroValueKind::from_u8(kind);
        match k {
            LoroValueKind::Null => Ok(LoroValue::Null),
            LoroValueKind::True => Ok(LoroValue::Bool(true)),
            LoroValueKind::False => Ok(LoroValue::Bool(false)),
            LoroValueKind::I64 => match self.read_i64() {
                Ok(v) => Ok(LoroValue::I64(v)),
                Err(e) => Err(e),
            },
            LoroValueKind::F64 => match self.read_f64() {
                Ok(v) => Ok(LoroValue::Double(v)),
                Err(e) => Err(e),
            },
            LoroValueKind::Str => {
                let s = match self.read_str() {
                    Ok(s) => s,
                    Err(e) => return Err(e),
                };
                proof {
                    encode_utf8_decode_utf8(s@);
                }
                Ok(LoroValue::String(s.to_owned()))
            },
            LoroValueKind::Binary => match self.read_binary() {
                Ok(b) => Ok(LoroValue::Binary(slice_to_vec(b))),
                Err(e) => Err(e),
            },
            LoroValueKind::ContainerType => {
                let b = match self.read_u8() {
                    Ok(b) => b,
                    Err(e) => return Err(e),
                };
                let t = ContainerType::from_u8_or_unknown(b);
                Ok(LoroValue::Container(ContainerID::new_normal(id, t)))
            },
            _ => vstd::pervasive::unreached(),
        }
    }
}

/// The keys of a key arena, as character sequences.
pub open spec fn keys_view(keys: Seq<String>) -> Seq<Seq<char>> {
    Seq::new(keys.len(), |i: int| keys[i]@)
}

/// Popping the top of a shaped stack with at least two tasks leaves it shaped.
proof fn lemma_shape_pop(st: Seq<TaskView>)
    requires
        stack_shaped(st),
        st.len() >= 2,
    ensures
        stack_shaped(st.drop_last()),
{
    let s2 = st.drop_last();
    assert forall|i: int| 1 <= i < s2.len() implies !(#[trigger] s2[i] is Init) by {
        assert(s2[i] == st[i]);
    }
    assert forall|i: int| 0 <= i < s2.len() - 1 implies match #[trigger] s2[i] {
        TaskView::List { left, .. } => left >= 1,
        TaskView::Mapping { left, .. } => left >= 1,
        TaskView::Init => true,
    } by {
        assert(s2[i] == st[i]);
    }
}

impl ReadTask {
    /// Whether the task still has an item (or, at the top level, the value)
    /// to read.
    fn should_read(&self) -> (r: bool)
        ensures
            r == match task_view(*self) {
                TaskView::Init => true,
                TaskView::List { left, .. } => left != 0,
                TaskView::Mapping { left, .. } => left != 0,
            },
    {
        match self {
            ReadTask::Init => true,
            ReadTask::ReadList { left, .. } => *left != 0,
            ReadTask::ReadMap { left, .. } => *left != 0,
        }
    }

    /// The key index of a list or map in its parent.
    fn key_idx(&self) -> (r: usize)
        requires
            !(task_view(*self) is Init),
        ensures
            match task_view(*self) {
                TaskView::List { key, .. } => r == key,
                TaskView::Mapping { key, .. } => r == key,
                TaskView::Init => false,
            },
    {
        match self {
            ReadTask::ReadList { key_idx_in_parent, .. } => *key_idx_in_parent,
            ReadTask::ReadMap { key_idx_in_parent, .. } => *key_idx_in_parent,
            ReadTask::Init => vstd::pervasive::unreached(),
        }
    }

    /// The list or map read by the task.
    fn into_value(self) -> (r: LoroValue)
        requires
            !(task_view(self) is Init),
        ensures
            match task_view(self) {
                TaskView::List { items, .. } => r@ == LoroValueView::List(items),
                TaskView::Mapping { entries, .. } => r@ == LoroValueView::Mapping(entries),
                TaskView::Init => false,
            },
    {
        match self {
            ReadTask::ReadList { vec, .. } => LoroValue::List(vec),
            ReadTask::ReadMap { map, .. } => LoroValue::Mapping(map),
            ReadTask::Init => vstd::pervasive::unreached(),
        }
    }
}

/// The top-level task, or a list or map still waiting for an item.
pub open spec fn task_ready(t: TaskView) -> bool {
    match t {
        TaskView::Init => true,
        TaskView::List { left, .. } => left >= 1,
        TaskView::Mapping { left, .. } => left >= 1,
    }
}

/// What one reading step left: the whole value, a new list or map pushed on
/// the stack, or a task whose items are all read.
enum ReadStep {
    Done(LoroValue),
    Pushed,
    Finished(ReadTask),
}

/// Hands a finished value to the task on top of `stack`: the top-level
/// task returns it; a list takes it as its next item; a map takes it under
/// the key at `key_index`, which must be in `keys`.
fn hand_over(stack: &mut Vec<ReadTask>, value: LoroValue, key_index: usize, keys: &[String]) -> (r:
    LoroResult<Option<LoroValue>>)
    requires
        stack_shaped(stack_view(old(stack)@)),
        task_ready(stack_view(old(stack)@).last()),
    ensures
        ({
            let st = stack_view(old(stack)@);
            let kv = keys_view(keys@);
            match r {
                Err(e) => e == LoroError::DecodeDataCorruptionError && st.last() is Mapping
                    && key_index >= kv.len(),
                Ok(Some(v)) => st.last() is Init && v@ == value@,
                Ok(None) => {
                    &&& stack_shaped(stack_view(final(stack)@))
                    &&& final(stack)@.len() == old(stack)@.len()
                    &&& forall|s: Seq<u8>, id: ID|
                        resume(stack_view(final(stack)@), s, kv, id) == #[trigger] deliver(
                            st,
                            value@,
                            key_index as nat,
                            s,
                            kv,
                            id,
                        )
                },
            }
        }),
{
    let ghost st = stack_view(stack@);
    let ghost kv = keys_view(keys@);
    let ghost b2 = st.drop_last();
    let last = stack.pop().unwrap();
    assert(stack_view(stack@) =~= b2);
    assert(task_view(last) == st.last());
    match last {
        ReadTask::Init => Ok(Some(value)),
        ReadTask::ReadList { left, vec, key_idx_in_parent } => {
            let mut vec = vec;
            list_push(&mut vec, value);
            let t2 = ReadTask::ReadList { left: left - 1, vec, key_idx_in_parent };
            proof {
                lemma_shape_replace_top(st, task_view(t2));
            }
            stack.push(t2);
            assert(stack_view(stack@) =~= b2.push(task_view(t2)));
            Ok(None)
        },
        ReadTask::ReadMap { left, map, key_idx_in_parent } => {
            if key_index >= keys.len() {
                return Err(LoroError::DecodeDataCorruptionError);
            }
            let mut map = map;
            let key = keys[key_index].clone();
            assert(key@ == kv[key_index as int]);
            map_insert(&mut map, key, value);
            let t2 = ReadTask::ReadMap { left: left - 1, map, key_idx_in_parent };
            proof {
                lemma_shape_replace_top(st, task_view(t2));
            }
            stack.push(t2);
            assert(stack_view(stack@) =~= b2.push(task_view(t2)));
            Ok(None)
        },
    }
}

impl<'a> ValueReader<'a> {
    /// Reads the next item of `task` (or, at the top level, the value): a
    /// value without items is handed to the task at once; a list or map
    /// header pushes the task back with a new task for the list or map.
    #[verifier::rlimit(60)]
    fn read_step(
        &mut self,
        stack: &mut Vec<ReadTask>,
        task: ReadTask,
        keys: &[String],
        id: ID,
        Ghost(target): Ghost<ValueParse>,
    ) -> (r: LoroResult<ReadStep>)
        requires
            stack_shaped(stack_view(old(stack)@.push(task))),
            task_view(task) is Init || (task_view(task) matches TaskView::List { left, .. } && left
                >= 1) || (task_view(task) matches TaskView::Mapping { left, .. } && left >= 1),
            resume(stack_view(old(stack)@.push(task)), old(self)@, keys_view(keys@), id) == target,
            !(target is Unreadable),
        ensures
            match r {
                Err(e) => e == LoroError::DecodeDataCorruptionError && target is Corrupt,
                Ok(ReadStep::Done(v)) => target == ValueParse::Value(v@, final(self)@),
                Ok(ReadStep::Pushed) => {
                    &&& stack_shaped(stack_view(final(stack)@))
                    &&& resume(stack_view(final(stack)@), final(self)@, keys_view(keys@), id) == target
                    &&& final(self)@.len() < old(self)@.len()
                },
                Ok(ReadStep::Finished(t)) => {
                    &&& final(stack)@ == old(stack)@
                    &&& !(task_view(t) is Init)
                    &&& (task_view(t) matches TaskView::List { left, .. } ==> left == 0)
                    &&& (task_view(t) matches TaskView::Mapping { left, .. } ==> left == 0)
                    &&& stack_shaped(stack_view(old(stack)@.push(t)))
                    &&& resume(stack_view(old(stack)@.push(t)), final(self)@, keys_view(keys@), id)
                        == target
                    &&& final(self)@.len() < old(self)@.len()
                },
            },
    {
        let ghost kv = keys_view(keys@);
        let ghost sv = stack_view(stack@.push(task));
        let ghost base = stack_view(stack@);
        let ghost tv = task_view(task);
        let ghost s0 = self@;
        assert(base =~= sv.drop_last());
        assert(tv == sv.last());
        let is_map = match &task {
            ReadTask::ReadMap { .. } => true,
            _ => false,
        };
        proof {
            lemma_uleb_read_len(s0);
            if is_map {
                lemma_resume_map_top(sv, s0, kv, id);
            } else {
                lemma_resume_list_top(sv, s0, kv, id);
            }
        }
        let key_idx: usize = if is_map {
            match self.read_usize() {
                Ok(k) => k,
                Err(e) => return Err(e),
            }
        } else {
            0
        };
        let ghost s1 = self@;
        assert(target == value_then(sv, s1, key_idx as nat, kv, id));
        let kind = match self.read_u8() {
            Ok(k) => k,
            Err(e) => return Err(e),
        };
        let ghost t = self@;
        assert(t =~= s1.drop_first());
        assert(kind <= 9);
        if kind == 7 || kind == 8 {
            proof {
                lemma_uleb_read_len(t);
            }
            let len = match self.read_usize() {
                Ok(l) => l,
                Err(e) => return Err(e),
            };
            if len > MAX_COLLECTION_SIZE {
                return Err(LoroError::DecodeDataCorruptionError);
            }
            let frame = if kind == 7 {
                ReadTask::ReadList { left: len, vec: Vec::new(), key_idx_in_parent: key_idx }
            } else {
                ReadTask::ReadMap { left: len, map: Vec::new(), key_idx_in_parent: key_idx }
            };
            proof {
                lemma_value_then_collection(sv, s1, key_idx as nat, kv, id);
                if kind == 7 {
                    assert(values_view(Seq::<LoroValue>::empty()) =~= Seq::<LoroValueView>::empty());
                } else {
                    assert(pairs_view(Seq::<(String, LoroValue)>::empty()) =~= Seq::<
                        (Seq<char>, LoroValueView),
                    >::empty());
                }
                lemma_shape_push_frame(base, tv, task_view(frame));
            }
            stack.push(task);
            stack.push(frame);
            assert(stack_view(stack@) =~= sv.push(task_view(frame)));
            return Ok(ReadStep::Pushed);
        }
        let value = match self.read_scalar_content(kind, id) {
            Ok(v) => v,
            Err(e) => return Err(e),
        };
        let ghost r = self@;
        proof {
            lemma_parse_scalar_suffix(kind, t, id);
        }
        assert(target == deliver(sv, value@, key_idx as nat, r, kv, id));
        match task {
            ReadTask::Init => Ok(ReadStep::Done(value)),
            ReadTask::ReadList { left, vec, key_idx_in_parent } => {
                let mut vec = vec;
                list_push(&mut vec, value);
                let t2 = ReadTask::ReadList { left: left - 1, vec, key_idx_in_parent };
                proof {
                    lemma_shape_replace_top(sv, task_view(t2));
                }
                assert(stack_view(stack@.push(t2)) =~= base.push(task_view(t2)));
                if left - 1 != 0 {
                    stack.push(t2);
                    return Ok(ReadStep::Pushed);
                }
                Ok(ReadStep::Finished(t2))
            },
            ReadTask::ReadMap { left, map, key_idx_in_parent } => {
                if key_idx >= keys.len() {
                    return Err(LoroError::DecodeDataCorruptionError);
                }
                let mut map = map;
                let key = keys[key_idx].clone();
                assert(key@ == kv[key_idx as int]);
                map_insert(&mut map, key, value);
                let t2 = ReadTask::ReadMap { left: left - 1, map, key_idx_in_parent };
                proof {
                    lemma_shape_replace_top(sv, task_view(t2));
                }
                assert(stack_view(stack@.push(t2)) =~= base.push(task_view(t2)));
                if left - 1 != 0 {
                    stack.push(t2);
                    return Ok(ReadStep::Pushed);
                }
                Ok(ReadStep::Finished(t2))
            },
        }
    }

    /// Reads a value, which may be nested to any depth, without recursion:
    /// the lists and maps being read wait on an explicit stack. Keys of map
    /// entries are indices into `keys`; a container reference gets the id
    /// `id`. The input must not hold a kind byte above the known kinds or a
    /// string that is not UTF-8 where the value is read.
    pub fn recursive_read_value_type_and_content(&mut self, keys: &[String], id: ID) -> (r:
        LoroResult<LoroValue>)
        requires
            !(parse_value(old(self)@, keys_view(keys@), id) is Unreadable),
        ensures
            match parse_value(old(self)@, keys_view(keys@), id) {
                ValueParse::Value(v, rest) => r is Ok && r->Ok_0@ == v && final(self)@ == rest,
                ValueParse::Corrupt => r == Err::<LoroValue, LoroError>(
                    LoroError::DecodeDataCorruptionError,
                ),
                ValueParse::Unreadable => false,
            },
    {
        let ghost kv = keys_view(keys@);
        let ghost target = parse_value(self@, kv, id);
        let mut stack: Vec<ReadTask> = Vec::new();
        stack.push(ReadTask::Init);
        assert(stack_view(stack@) =~= seq![TaskView::Init]);
        loop
            invariant
                kv == keys_view(keys@),
                target == parse_value(old(self)@, kv, id),
                !(target is Unreadable),
                stack_shaped(stack_view(stack@)),
                resume(stack_view(stack@), self@, kv, id) == target,
            decreases self@.len(), stack@.len(),
        {
            let ghost sv = stack_view(stack@);
            let task = stack.pop().unwrap();
            assert(stack_view(stack@.push(task)) =~= sv);
            let finished = if task.should_read() {
                match self.read_step(&mut stack, task, keys, id, Ghost(target)) {
                    Err(e) => return Err(e),
                    Ok(ReadStep::Done(v)) => return Ok(v),
                    Ok(ReadStep::Pushed) => continue,
                    Ok(ReadStep::Finished(t)) => t,
                }
            } else {
                task
            };
            let ghost st = stack_view(stack@);
            let ghost fv = task_view(finished);
            proof {
                assert(stack_view(stack@.push(finished)) =~= st.push(fv));
                assert(st.push(fv).drop_last() =~= st);
                lemma_resume_finished(st.push(fv), self@, kv, id);
                lemma_shape_pop(st.push(fv));
                assert(st.push(fv)[st.len() - 1] == st.last());
            }
            let key_index = finished.key_idx();
            let value = finished.into_value();
            assert(target == deliver(st, value@, key_index as nat, self@, kv, id));
            match hand_over(&mut stack, value, key_index, keys) {
                Err(e) => return Err(e),
                Ok(Some(v)) => return Ok(v),
                Ok(None) => {
                    assert(resume(stack_view(stack@), self@, kv, id) == deliver(
                        st,
                        value@,
                        key_index as nat,
                        self@,
                        kv,
                        id,
                    ));
                },
            }
        }
    }
}

/// The id given to the `i`-th item of a top-level list: `i` counters after
/// `id`, the counter wrapping around as 32-bit arithmetic does.
pub open spec fn item_id(id: ID, i: nat) -> ID {
    ID { peer: id.peer, counter: id.counter.wrapping_add(i as i32) }
}

/// Decoding `n` items of a top-level list, the `j`-th (counted from `i`)
/// read with the id `item_id(id, j)`.
pub open spec fn parse_top_items(s: Seq<u8>, n: nat, keys: Seq<Seq<char>>, id: ID, i: nat) -> ItemsParse
    decreases s.len(), n,
{
    if n == 0 {
        ItemsParse::Items(Seq::empty(), s)
    } else {
        match parse_value(s, keys, item_id(id, i)) {
            ValueParse::Value(v, r) => if r.len() < s.len() {
                match parse_top_items(r, (n - 1) as nat, keys, id, i + 1) {
                    ItemsParse::Items(vs, r2) => ItemsParse::Items(seq![v] + vs, r2),
                    ItemsParse::Corrupt => ItemsParse::Corrupt,
                    ItemsParse::Unreadable => ItemsParse::Unreadable,
                }
            } else {
                ItemsParse::Corrupt
            },
            ValueParse::Corrupt => ItemsParse::Corrupt,
            ValueParse::Unreadable => ItemsParse::Unreadable,
        }
    }
}

/// Decoding `n` entries of a top-level map: each key index is checked
/// before its value is read.
pub open spec fn parse_top_entries(s: Seq<u8>, n: nat, keys: Seq<Seq<char>>, id: ID) -> EntriesParse
    decreases s.len(), n,
{
    if n == 0 {
        EntriesParse::Entries(Seq::empty(), s)
    } else {
        match uleb_read(s) {
            None => EntriesParse::Corrupt,
            Some((ki, m)) => if m == 0 || m > s.len() || (ki as usize) >= keys.len() {
                EntriesParse::Corrupt
            } else {
                match parse_value(rest(s, m as int), keys, id) {
                    ValueParse::Value(v, r) => if r.len() < s.len() {
                        match parse_top_entries(r, (n - 1) as nat, keys, id) {
                            EntriesParse::Entries(es, r2) => EntriesParse::Entries(
                                seq![(keys[(ki as usize) as int], v)] + es,
                                r2,
                            ),
                            EntriesParse::Corrupt => EntriesParse::Corrupt,
                            EntriesParse::Unreadable => EntriesParse::Unreadable,
                        }
                    } else {
                        EntriesParse::Corrupt
                    },
                    ValueParse::Corrupt => EntriesParse::Corrupt,
                    ValueParse::Unreadable => EntriesParse::Unreadable,
                }
            },
        }
    }
}

/// Decoding the content of a top-level value of kind `k`: as in
/// `parse_value`, but the items of a list get ids counted up from `id`, and
/// the key index of a map entry is checked before its value is read.
pub open spec fn parse_top_content(k: u8, t: Seq<u8>, keys: Seq<Seq<char>>, id: ID) -> ValueParse {
    if k == 7 || k == 8 {
        match uleb_read(t) {
            None => ValueParse::Corrupt,
            Some((len, n)) => {
                if (len as usize) > MAX_COLLECTION_SIZE || n > t.len() {
                    ValueParse::Corrupt
                } else if k == 7 {
                    match parse_top_items(rest(t, n as int), (len as usize) as nat, keys, id, 0) {
                        ItemsParse::Items(vs, r) => ValueParse::Value(LoroValueView::List(vs), r),
                        ItemsParse::Corrupt => ValueParse::Corrupt,
                        ItemsParse::Unreadable => ValueParse::Unreadable,
                    }
                } else {
                    match parse_top_entries(rest(t, n as int), (len as usize) as nat, keys, id) {
                        EntriesParse::Entries(es, r) => ValueParse::Value(
                            LoroValueView::Mapping(map_put_all(Seq::empty(), es)),
                            r,
                        ),
                        EntriesParse::Corrupt => ValueParse::Corrupt,
                        EntriesParse::Unreadable => ValueParse::Unreadable,
                    }
                }
            },
        }
    } else {
        parse_scalar(k, t, id)
    }
}

/// Decoding a top-level value: a kind byte (0 to 9), then its content.
pub open spec fn parse_top_value(s: Seq<u8>, keys: Seq<Seq<char>>, id: ID) -> ValueParse {
    if s.len() == 0 {
        ValueParse::Corrupt
    } else if s[0] > 9 {
        ValueParse::Unreadable
    } else {
        parse_top_content(s[0], s.drop_first(), keys, id)
    }
}

proof fn lemma_parse_top_items_step(s: Seq<u8>, n: nat, keys: Seq<Seq<char>>, id: ID, i: nat, pre: Seq<LoroValueView>, whole: ValueParse)
    requires
        n >= 1,
        whole == match parse_top_items(s, n, keys, id, i) {
            ItemsParse::Items(vs, r) => ValueParse::Value(LoroValueView::List(pre + vs), r),
            ItemsParse::Corrupt => ValueParse::Corrupt,
            ItemsParse::Unreadable => ValueParse::Unreadable,
        },
        parse_value(s, keys, item_id(id, i)) matches ValueParse::Value(v, r),
    ensures
        ({
            let (v, r) = match parse_value(s, keys, item_id(id, i)) {
                ValueParse::Value(v, r) => (v, r),
                _ => (LoroValueView::Null, s),
            };
            whole == match parse_top_items(r, (n - 1) as nat, keys, id, i + 1) {
                ItemsParse::Items(vs, r2) => ValueParse::Value(LoroValueView::List(pre.push(v) + vs), r2),
                ItemsParse::Corrupt => ValueParse::Corrupt,
                ItemsParse::Unreadable => ValueParse::Unreadable,
            }
        }),
{
    lemma_parse_value_suffix(s, keys, item_id(id, i));
    if let ValueParse::Value(v, r) = parse_value(s, keys, item_id(id, i)) {
        if let ItemsParse::Items(vs, r2) = parse_top_items(r, (n - 1) as nat, keys, id, i + 1) {
            assert(pre + (seq![v] + vs) =~= pre.push(v) + vs);
        }
    }
}

proof fn lemma_parse_top_entries_step(s: Seq<u8>, n: nat, keys: Seq<Seq<char>>, id: ID, m0: Seq<(Seq<char>, LoroValueView)>, whole: ValueParse)
    requires
        n >= 1,
        whole == match parse_top_entries(s, n, keys, id) {
            EntriesParse::Entries(es, r) => ValueParse::Value(LoroValueView::Mapping(map_put_all(m0, es)), r),
            EntriesParse::Corrupt => ValueParse::Corrupt,
            EntriesParse::Unreadable => ValueParse::Unreadable,
        },
        uleb_read(s) matches Some((ki, m)) && 0 < m <= s.len() && (ki as usize) < keys.len(),
        parse_value(rest(s, uleb_read(s)->Some_0.1 as int), keys, id) matches ValueParse::Value(v, r),
    ensures
        ({
            let (ki, m) = uleb_read(s)->Some_0;
            let (v, r) = match parse_value(rest(s, m as int), keys, id) {
                ValueParse::Value(v, r) => (v, r),
                _ => (LoroValueView::Null, s),
            };
            whole == match parse_top_entries(r, (n - 1) as nat, keys, id) {
                EntriesParse::Entries(es, r2) => ValueParse::Value(
                    LoroValueView::Mapping(map_put_all(map_put(m0, keys[(ki as usize) as int], v), es)),
                    r2,
                ),
                EntriesParse::Corrupt => ValueParse::Corrupt,
                EntriesParse::Unreadable => ValueParse::Unreadable,
            }
        }),
{
    let (ki, m) = uleb_read(s)->Some_0;
    let u = rest(s, m as int);
    lemma_parse_value_suffix(u, keys, id);
    lemma_rest_suffix(s, m as int);
    if let ValueParse::Value(v, r) = parse_value(u, keys, id) {
        let k = keys[(ki as usize) as int];
        if let EntriesParse::Entries(es, r2) = parse_top_entries(r, (n - 1) as nat, keys, id) {
            assert((seq![(k, v)] + es).drop_first() =~= es);
        }
    }
}

impl<'a> ValueReader<'a> {
    /// Reads the content of a top-level value of the given kind (see
    /// `parse_top_content`); the input must not hold a kind byte above the
    /// known kinds or a string that is not UTF-8 where it is read.
    pub fn read_value_content(&mut self, kind: LoroValueKind, keys: &[String], id: ID) -> (r: LoroResult<LoroValue>)
        requires
            !(parse_top_content(loro_value_kind_byte(kind), old(self)@, keys_view(keys@), id) is Unreadable),
        ensures
            match parse_top_content(loro_value_kind_byte(kind), old(self)@, keys_view(keys@), id) {
                ValueParse::Value(v, rest) => r is Ok && r->Ok_0@ == v && final(self)@ == rest,
                ValueParse::Corrupt => r == Err::<LoroValue, LoroError>(
                    LoroError::DecodeDataCorruptionError,
                ),
                ValueParse::Unreadable => false,
            },
    {
        let ghost kv = keys_view(keys@);
        let ghost t = self@;
        let k = kind.to_u8();
        let ghost whole = parse_top_content(k, t, kv, id);
        if k != 7 && k != 8 {
            return self.read_scalar_content(k, id);
        }
        proof {
            lemma_uleb_read_len(t);
        }
        let len = match self.read_usize() {
            Ok(l) => l,
            Err(e) => return Err(e),
        };
        if len > MAX_COLLECTION_SIZE {
            return Err(LoroError::DecodeDataCorruptionError);
        }
        if k == 7 {
            let mut vec: Vec<LoroValue> = Vec::new();
            let mut i: usize = 0;
            assert(values_view(vec@) =~= Seq::<LoroValueView>::empty());
            while i < len
                invariant
                    kv == keys_view(keys@),
                    k == 7,
                    i <= len,
                    len <= MAX_COLLECTION_SIZE,
                    whole == parse_top_content(loro_value_kind_byte(kind), old(self)@, kv, id),
                    !(whole is Unreadable),
                    whole == match parse_top_items(self@, (len - i) as nat, kv, id, i as nat) {
                        ItemsParse::Items(vs, r) => ValueParse::Value(LoroValueView::List(values_view(vec@) + vs), r),
                        ItemsParse::Corrupt => ValueParse::Corrupt,
                        ItemsParse::Unreadable => ValueParse::Unreadable,
                    },
                decreases len - i,
            {
                let ghost s = self@;
                let iid = ID::new(id.peer, id.counter.wrapping_add(i as i32));
                assert(iid == item_id(id, i as nat));
                let v = match self.recursive_read_value_type_and_content(keys, iid) {
                    Ok(v) => v,
                    Err(e) => return Err(e),
                };
                proof {
                    lemma_parse_top_items_step(s, (len - i) as nat, kv, id, i as nat, values_view(vec@), whole);
                }
                list_push(&mut vec, v);
                i += 1;
            }
            assert(values_view(vec@) + Seq::<LoroValueView>::empty() =~= values_view(vec@));
            Ok(LoroValue::List(vec))
        } else {
            let mut map: Vec<(String, LoroValue)> = Vec::new();
            let mut i: usize = 0;
            assert(pairs_view(map@) =~= Seq::<(Seq<char>, LoroValueView)>::empty());
            while i < len
                invariant
                    kv == keys_view(keys@),
                    k == 8,
                    i <= len,
                    whole == parse_top_content(loro_value_kind_byte(kind), old(self)@, kv, id),
                    !(whole is Unreadable),
                    whole == match parse_top_entries(self@, (len - i) as nat, kv, id) {
                        EntriesParse::Entries(es, r) => ValueParse::Value(
                            LoroValueView::Mapping(map_put_all(pairs_view(map@), es)),
                            r,
                        ),
                        EntriesParse::Corrupt => ValueParse::Corrupt,
                        EntriesParse::Unreadable => ValueParse::Unreadable,
                    },
                decreases len - i,
            {
                let ghost s = self@;
                proof {
                    lemma_uleb_read_len(s);
                }
                let key_idx = match self.read_usize() {
                    Ok(x) => x,
                    Err(e) => return Err(e),
                };
                if key_idx >= keys.len() {
                    return Err(LoroError::DecodeDataCorruptionError);
                }
                let key = keys[key_idx].clone();
                assert(key@ == kv[key_idx as int]);
                let v = match self.recursive_read_value_type_and_content(keys, id) {
                    Ok(v) => v,
                    Err(e) => return Err(e),
                };
                proof {
                    lemma_parse_top_entries_step(s, (len - i) as nat, kv, id, pairs_view(map@), whole);
                }
                map_insert(&mut map, key, v);
                i += 1;
            }
            Ok(LoroValue::Mapping(map))
        }
    }

    /// Reads a top-level value: its kind byte, which must name a known kind,
    /// then its content (see `parse_top_value`).
    pub fn read_value_type_and_content(&mut self, keys: &[String], id: ID) -> (r: LoroResult<LoroValue>)
        requires
            !(parse_top_value(old(self)@, keys_view(keys@), id) is Unreadable),
        ensures
            match parse_top_value(old(self)@, keys_view(keys@), id) {
                ValueParse::Value(v, rest) => r is Ok && r->Ok_0@ == v && final(self)@ == rest,
                ValueParse::Corrupt => r == Err::<LoroValue, LoroError>(
                    LoroError::DecodeDataCorruptionError,
                ),
                ValueParse::Unreadable => false,
            },
    {
        let ghost s = self@;
        let kind = match self.read_u8() {
            Ok(k) => k,
            Err(e) => return Err(e),
        };
        assert(self@ =~= s.drop_first());
        let k = LoroValueKind::from_u8(kind);
        self.read_value_content(k, keys, id)
    }
}

} // verus!
