//! Values in the reordered format: a value is its kind byte followed by its
//! content. Integers are 32-bit, map keys are indices into a key register,
//! and container references are indices into a register of container ids.
use vstd::prelude::*;
use vstd::utf8::encode_utf8;
use crate::common::{
    ContainerID, ContainerIdView, LoroValue, LoroValueView, lemma_pairs_view, lemma_values_view,
    pairs_view, values_view,
};
use vstd::slice::slice_to_vec;
use vstd::utf8::encode_utf8_decode_utf8;
use crate::common::{LoroError, LoroResult};
use crate::encoding::encode_reordered::{ValueKind, ValueReader, ValueWriter, value_kind_code};
use crate::encoding::leb::{lemma_sleb_read_len, lemma_uleb_read_len, sleb_encode, sleb_read, uleb_encode, uleb_read};
use crate::encoding::value::{be_bytes, be_word, rest};
use crate::encoding::value_decode::{
    EntriesParse, ItemsParse, MAX_COLLECTION_SIZE, ValueParse, keys_view, list_push, map_insert, map_put,
    map_put_all, parse_binary, parse_str,
};
use crate::encoding::value_register::{ValueRegister, register_key};

verus! {

/// The last position of `c` in `s`, or -1.
pub open spec fn last_cid_index(s: Seq<ContainerIdView>, c: ContainerIdView) -> int
    decreases s.len(),
{
    if s.len() == 0 {
        -1
    } else if s.last() == c {
        s.len() - 1
    } else {
        last_cid_index(s.drop_last(), c)
    }
}

/// Registering container `c`: its index where it is already registered;
/// otherwise the next index, with `c` appended.
pub open spec fn register_cid(s: Seq<ContainerIdView>, c: ContainerIdView) -> (nat, Seq<ContainerIdView>) {
    let i = last_cid_index(s, c);
    if i >= 0 {
        (i as nat, s)
    } else {
        (s.len(), s.push(c))
    }
}

pub proof fn lemma_last_cid_index(s: Seq<ContainerIdView>, c: ContainerIdView)
    ensures
        -1 <= last_cid_index(s, c) < s.len(),
        last_cid_index(s, c) >= 0 ==> s[last_cid_index(s, c)] == c,
    decreases s.len(),
{
    if s.len() > 0 && s.last() != c {
        lemma_last_cid_index(s.drop_last(), c);
    }
}

/// Registering a container keeps what was registered and leaves the
/// container at the returned index.
pub proof fn lemma_register_cid(s: Seq<ContainerIdView>, c: ContainerIdView)
    ensures
        register_cid(s, c).0 < register_cid(s, c).1.len(),
        register_cid(s, c).1[register_cid(s, c).0 as int] == c,
        s.len() <= register_cid(s, c).1.len(),
        register_cid(s, c).1.subrange(0, s.len() as int) == s,
{
    lemma_last_cid_index(s, c);
    assert(register_cid(s, c).1.subrange(0, s.len() as int) =~= s);
}

/// The abstract values of a run of container ids.
pub open spec fn cids_view(v: Seq<ContainerID>) -> Seq<ContainerIdView> {
    Seq::new(v.len(), |i: int| v[i]@)
}

/// A register of container ids.
#[derive(Debug)]
pub struct ContainerRegister {
    vec: Vec<ContainerID>,
}

impl View for ContainerRegister {
    type V = Seq<ContainerIdView>;

    closed spec fn view(&self) -> Seq<ContainerIdView> {
        cids_view(self.vec@)
    }
}

impl ContainerRegister {
    pub fn new() -> (r: ContainerRegister)
        ensures
            r@ == Seq::<ContainerIdView>::empty(),
    {
        let r = ContainerRegister { vec: Vec::new() };
        assert(r@ =~= Seq::<ContainerIdView>::empty());
        r
    }

    /// Returns the index of `c`; a container not yet registered is appended
    /// and gets the next index.
    pub fn register(&mut self, c: &ContainerID) -> (r: usize)
        ensures
            (r as nat, final(self)@) == register_cid(old(self)@, c@),
    {
        let ghost s = self@;
        let mut i: usize = self.vec.len();
        assert(s.take(i as int) =~= s);
        while i > 0
            invariant
                i <= self.vec@.len(),
                s == self@,
                s == old(self)@,
                s.len() == self.vec@.len(),
                last_cid_index(s, c@) == last_cid_index(s.take(i as int), c@),
            decreases i,
        {
            let ghost t = s.take(i as int);
            assert(t.last() == self.vec@[i - 1]@);
            if self.vec[i - 1].same(c) {
                return i - 1;
            }
            assert(t.drop_last() =~= s.take(i - 1));
            i -= 1;
        }
        let idx = self.vec.len();
        self.vec.push(c.duplicate());
        assert(self@ =~= s.push(c@));
        idx
    }

    /// The registered containers, in order.
    pub fn unwrap_vec(self) -> (r: Vec<ContainerID>)
        ensures
            cids_view(r@) == self@,
    {
        self.vec
    }
}

/// The kind a value is written with; integers are written as 32-bit.
pub open spec fn reordered_kind_of(v: LoroValueView) -> ValueKind {
    match v {
        LoroValueView::Null => ValueKind::Null,
        LoroValueView::Bool(b) => if b {
            ValueKind::True
        } else {
            ValueKind::False
        },
        LoroValueView::I64(_) => ValueKind::I32,
        LoroValueView::Double(_) => ValueKind::F64,
        LoroValueView::String(_) => ValueKind::Str,
        LoroValueView::List(_) => ValueKind::Array,
        LoroValueView::Mapping(_) => ValueKind::Mapping,
        LoroValueView::Binary(_) => ValueKind::Binary,
        LoroValueView::Container(_) => ValueKind::ContainerIdx,
    }
}

/// The byte of the kind a value is written with.
pub open spec fn reordered_kind_byte(v: LoroValueView) -> u8 {
    value_kind_code(reordered_kind_of(v)) as u8
}

/// The kind of a value.
pub fn get_loro_value_kind(value: &LoroValue) -> (r: ValueKind)
    ensures
        r == reordered_kind_of(value@),
{
    match value {
        LoroValue::Null => ValueKind::Null,
        LoroValue::Bool(b) => if *b {
            ValueKind::True
        } else {
            ValueKind::False
        },
        LoroValue::I64(_) => ValueKind::I32,
        LoroValue::Double(_) => ValueKind::F64,
        LoroValue::String(_) => ValueKind::Str,
        LoroValue::List(_) => ValueKind::Array,
        LoroValue::Mapping(_) => ValueKind::Mapping,
        LoroValue::Binary(_) => ValueKind::Binary,
        LoroValue::Container(_) => ValueKind::ContainerIdx,
    }
}

/// The two registers the writer threads through: keys and container ids.
pub struct Registers {
    pub keys: Seq<Seq<char>>,
    pub cids: Seq<ContainerIdView>,
}

/// The bytes of a value (its kind byte, then its content) and the
/// registers after it.
pub open spec fn reordered_encode_value(v: LoroValueView, g: Registers) -> (Seq<u8>, Registers)
    decreases v, 1nat,
{
    let c = reordered_encode_content(v, g);
    (seq![reordered_kind_byte(v)] + c.0, c.1)
}

/// The content bytes of a value: nothing for null and booleans; signed
/// LEB128 of the low 32 bits of an integer; eight big-endian bytes for a
/// double; length and bytes for strings and binaries; the number of items
/// and the items of a list; the number of entries and, for each, its key's
/// register index and its value; a container's register index.
pub open spec fn reordered_encode_content(v: LoroValueView, g: Registers) -> (Seq<u8>, Registers)
    decreases v, 0nat,
{
    match v {
        LoroValueView::Null => (Seq::empty(), g),
        LoroValueView::Bool(_) => (Seq::empty(), g),
        LoroValueView::I64(i) => (sleb_encode((i as i32) as int), g),
        LoroValueView::Double(b) => (be_bytes(b), g),
        LoroValueView::String(s) => (uleb_encode(encode_utf8(s).len()) + encode_utf8(s), g),
        LoroValueView::Binary(b) => (uleb_encode(b.len()) + b, g),
        LoroValueView::List(l) => {
            let e = reordered_encode_items(l, g);
            (uleb_encode(l.len()) + e.0, e.1)
        },
        LoroValueView::Mapping(m) => {
            let e = reordered_encode_entries(m, g);
            (uleb_encode(m.len()) + e.0, e.1)
        },
        LoroValueView::Container(c) => {
            let (idx, cids) = register_cid(g.cids, c);
            (uleb_encode(idx), Registers { keys: g.keys, cids })
        },
    }
}

/// The bytes of a run of values written one after another.
pub open spec fn reordered_encode_items(l: Seq<LoroValueView>, g: Registers) -> (Seq<u8>, Registers)
    decreases l, 0nat,
{
    if l.len() == 0 {
        (Seq::empty(), g)
    } else {
        let a = reordered_encode_value(l[0], g);
        let b = reordered_encode_items(l.drop_first(), a.1);
        (a.0 + b.0, b.1)
    }
}

/// The bytes of a run of map entries: each key's register index, then the
/// value.
pub open spec fn reordered_encode_entries(m: Seq<(Seq<char>, LoroValueView)>, g: Registers) -> (
    Seq<u8>,
    Registers,
)
    decreases m, 0nat,
{
    if m.len() == 0 {
        (Seq::empty(), g)
    } else {
        let (idx, keys) = register_key(g.keys, m[0].0);
        let a = reordered_encode_value(m[0].1, Registers { keys, cids: g.cids });
        let b = reordered_encode_entries(m.drop_first(), a.1);
        (uleb_encode(idx) + a.0 + b.0, b.1)
    }
}

impl ValueWriter {
    /// Writes a value: its kind byte, then its content. Returns its kind.
    pub fn write_value_type_and_content(
        &mut self,
        value: &LoroValue,
        register_key: &mut ValueRegister,
        register_cid: &mut ContainerRegister,
    ) -> (r: ValueKind)
        ensures
            final(self)@ == old(self)@ + reordered_encode_value(
                value@,
                Registers { keys: old(register_key)@, cids: old(register_cid)@ },
            ).0,
            (Registers { keys: final(register_key)@, cids: final(register_cid)@ }) == reordered_encode_value(
                value@,
                Registers { keys: old(register_key)@, cids: old(register_cid)@ },
            ).1,
            r == reordered_kind_of(value@),
        decreases value, 1nat,
    {
        let kind = get_loro_value_kind(value);
        match kind.to_u8() {
            Some(b) => self.write_u8(b),
            None => {
                assert(false);
            },
        }
        let ghost mid = self@;
        self.write_value_content(value, register_key, register_cid);
        assert(self@ =~= old(self)@ + reordered_encode_value(
            value@,
            Registers { keys: old(register_key)@, cids: old(register_cid)@ },
        ).0);
        kind
    }

    /// Writes the content of a value (see `reordered_encode_content`) and
    /// returns its kind.
    #[verifier::loop_isolation(false)]
    #[verifier::rlimit(60)]
    pub fn write_value_content(
        &mut self,
        value: &LoroValue,
        register_key: &mut ValueRegister,
        register_cid: &mut ContainerRegister,
    ) -> (r: ValueKind)
        ensures
            final(self)@ == old(self)@ + reordered_encode_content(
                value@,
                Registers { keys: old(register_key)@, cids: old(register_cid)@ },
            ).0,
            (Registers { keys: final(register_key)@, cids: final(register_cid)@ })
                == reordered_encode_content(
                value@,
                Registers { keys: old(register_key)@, cids: old(register_cid)@ },
            ).1,
            r == reordered_kind_of(value@),
        decreases value, 0nat,
    {
        let ghost g0 = Registers { keys: register_key@, cids: register_cid@ };
        let kind = get_loro_value_kind(value);
        match value {
            LoroValue::Null => {
                assert(self@ =~= old(self)@ + reordered_encode_content(value@, g0).0);
            },
            LoroValue::Bool(_) => {
                assert(self@ =~= old(self)@ + reordered_encode_content(value@, g0).0);
            },
            LoroValue::I64(v) => {
                self.write_i32(*v as i32);
            },
            LoroValue::Double(v) => {
                self.write_f64(*v);
            },
            LoroValue::String(v) => {
                self.write_str(v.as_str());
            },
            LoroValue::Binary(v) => {
                self.write_binary(v.as_slice());
            },
            LoroValue::List(list) => {
                let ghost vv = values_view(list@);
                let ghost e = reordered_encode_items(vv, g0);
                proof {
                    lemma_values_view(list@);
                }
                self.write_usize(list.len());
                let mut i: usize = 0;
                assert(vv.skip(0) =~= vv);
                while i < list.len()
                    invariant
                        i <= list@.len(),
                        vv.len() == list@.len(),
                        self@ + reordered_encode_items(
                            vv.skip(i as int),
                            Registers { keys: register_key@, cids: register_cid@ },
                        ).0 == old(self)@ + uleb_encode(list@.len() as nat) + e.0,
                        reordered_encode_items(
                            vv.skip(i as int),
                            Registers { keys: register_key@, cids: register_cid@ },
                        ).1 == e.1,
                    decreases list.len() - i,
                {
                    proof {
                        assert(decreases_to!(*value => *list));
                        assert(decreases_to!(*list => list@));
                        assert(decreases_to!(list@ => list@[i as int]));
                        let sk = vv.skip(i as int);
                        assert(sk[0] == list@[i as int]@);
                        assert(sk.drop_first() =~= vv.skip(i + 1));
                    }
                    let ghost b0 = self@;
                    let ghost r0 = Registers { keys: register_key@, cids: register_cid@ };
                    self.write_value_type_and_content(&list[i], register_key, register_cid);
                    proof {
                        let a = reordered_encode_value(list@[i as int]@, r0);
                        let rest_e = reordered_encode_items(vv.skip(i + 1), a.1);
                        assert(reordered_encode_items(vv.skip(i as int), r0).0 == a.0 + rest_e.0);
                        assert(self@ + rest_e.0 =~= b0 + (a.0 + rest_e.0));
                    }
                    i += 1;
                }
                assert(vv.skip(i as int) =~= Seq::<LoroValueView>::empty());
                assert(self@ =~= old(self)@ + reordered_encode_content(value@, g0).0);
            },
            LoroValue::Mapping(map) => {
                let ghost pv = pairs_view(map@);
                let ghost e = reordered_encode_entries(pv, g0);
                proof {
                    lemma_pairs_view(map@);
                }
                self.write_usize(map.len());
                let mut i: usize = 0;
                assert(pv.skip(0) =~= pv);
                while i < map.len()
                    invariant
                        i <= map@.len(),
                        pv.len() == map@.len(),
                        self@ + reordered_encode_entries(
                            pv.skip(i as int),
                            Registers { keys: register_key@, cids: register_cid@ },
                        ).0 == old(self)@ + uleb_encode(map@.len() as nat) + e.0,
                        reordered_encode_entries(
                            pv.skip(i as int),
                            Registers { keys: register_key@, cids: register_cid@ },
                        ).1 == e.1,
                    decreases map.len() - i,
                {
                    proof {
                        assert(decreases_to!(*value => *map));
                        assert(decreases_to!(*map => map@));
                        assert(decreases_to!(map@ => map@[i as int]));
                        assert(decreases_to!(map@[i as int] => map@[i as int].1));
                        let sk = pv.skip(i as int);
                        assert(sk[0] == (map@[i as int].0@, map@[i as int].1@));
                        assert(sk.drop_first() =~= pv.skip(i + 1));
                    }
                    let ghost b0 = self@;
                    let ghost r0 = Registers { keys: register_key@, cids: register_cid@ };
                    let key_idx = register_key.register(&map[i].0);
                    let ghost r1 = Registers { keys: register_key@, cids: register_cid@ };
                    self.write_usize(key_idx);
                    self.write_value_type_and_content(&map[i].1, register_key, register_cid);
                    proof {
                        let a = reordered_encode_value(map@[i as int].1@, r1);
                        let rest_e = reordered_encode_entries(pv.skip(i + 1), a.1);
                        assert(reordered_encode_entries(pv.skip(i as int), r0).0 == uleb_encode(
                            key_idx as nat,
                        ) + a.0 + rest_e.0);
                        assert(self@ + rest_e.0 =~= b0 + (uleb_encode(key_idx as nat) + a.0 + rest_e.0));
                    }
                    i += 1;
                }
                assert(pv.skip(i as int) =~= Seq::<(Seq<char>, LoroValueView)>::empty());
                assert(self@ =~= old(self)@ + reordered_encode_content(value@, g0).0);
            },
            LoroValue::Container(c) => {
                let idx = register_cid.register(c);
                self.write_usize(idx);
            },
        }
        kind
    }
}


/// The kind numbered `b` (for `b` up to 14).
pub open spec fn kind_of_code(b: u8) -> ValueKind {
    if b == 0 {
        ValueKind::Null
    } else if b == 1 {
        ValueKind::True
    } else if b == 2 {
        ValueKind::False
    } else if b == 3 {
        ValueKind::DeleteOnce
    } else if b == 4 {
        ValueKind::I32
    } else if b == 5 {
        ValueKind::ContainerIdx
    } else if b == 6 {
        ValueKind::F64
    } else if b == 7 {
        ValueKind::Str
    } else if b == 8 {
        ValueKind::DeleteSeq
    } else if b == 9 {
        ValueKind::DeltaInt
    } else if b == 10 {
        ValueKind::Array
    } else if b == 11 {
        ValueKind::Mapping
    } else if b == 12 {
        ValueKind::MarkStart
    } else if b == 13 {
        ValueKind::TreeMove
    } else {
        ValueKind::Binary
    }
}

/// Decoding the content of a value of a kind that holds no other values:
/// null, booleans, 32-bit integers (also delta integers), doubles,
/// strings, binaries and container indices into `cids`. Other kinds cannot
/// be read.
pub open spec fn reordered_parse_scalar(k: u8, t: Seq<u8>, cids: Seq<ContainerIdView>) -> ValueParse {
    if k == 0 {
        ValueParse::Value(LoroValueView::Null, t)
    } else if k == 1 {
        ValueParse::Value(LoroValueView::Bool(true), t)
    } else if k == 2 {
        ValueParse::Value(LoroValueView::Bool(false), t)
    } else if k == 4 || k == 9 {
        match sleb_read(t) {
            None => ValueParse::Corrupt,
            Some((v, n)) => ValueParse::Value(LoroValueView::I64((v as i32) as i64), rest(t, n as int)),
        }
    } else if k == 6 {
        if t.len() < 8 {
            ValueParse::Corrupt
        } else {
            ValueParse::Value(LoroValueView::Double(be_word(t)), rest(t, 8))
        }
    } else if k == 7 {
        parse_str(t)
    } else if k == 14 {
        parse_binary(t)
    } else if k == 5 {
        match uleb_read(t) {
            None => ValueParse::Corrupt,
            Some((idx, n)) => if (idx as usize) < cids.len() {
                ValueParse::Value(LoroValueView::Container(cids[(idx as usize) as int]), rest(t, n as int))
            } else {
                ValueParse::Corrupt
            },
        }
    } else {
        ValueParse::Unreadable
    }
}

/// Decoding a value that may hold others: a kind byte, then its content. A
/// list or map gives its number of items, at most `MAX_COLLECTION_SIZE`,
/// then the items; each map entry is a key index into `keys` followed by a
/// value, and the index is checked once the value is read.
pub open spec fn reordered_parse_value(s: Seq<u8>, keys: Seq<Seq<char>>, cids: Seq<ContainerIdView>) -> ValueParse
    decreases s.len(), 0nat, 0nat,
{
    if s.len() == 0 {
        ValueParse::Corrupt
    } else {
        let k = s[0];
        let t = s.drop_first();
        if k == 10 || k == 11 {
            match uleb_read(t) {
                None => ValueParse::Corrupt,
                Some((len, n)) => {
                    if (len as usize) > MAX_COLLECTION_SIZE || n > t.len() {
                        ValueParse::Corrupt
                    } else if k == 10 {
                        match reordered_parse_items(rest(t, n as int), (len as usize) as nat, keys, cids) {
                            ItemsParse::Items(vs, r) => ValueParse::Value(LoroValueView::List(vs), r),
                            ItemsParse::Corrupt => ValueParse::Corrupt,
                            ItemsParse::Unreadable => ValueParse::Unreadable,
                        }
                    } else {
                        match reordered_parse_entries(rest(t, n as int), (len as usize) as nat, keys, cids) {
                            EntriesParse::Entries(es, r) => ValueParse::Value(
                                LoroValueView::Mapping(map_put_all(Seq::empty(), es)),
                                r,
                            ),
                            EntriesParse::Corrupt => ValueParse::Corrupt,
                            EntriesParse::Unreadable => ValueParse::Unreadable,
                        }
                    }
                },
            }
        } else {
            reordered_parse_scalar(k, t, cids)
        }
    }
}

/// Decoding `n` values one after another.
pub open spec fn reordered_parse_items(s: Seq<u8>, n: nat, keys: Seq<Seq<char>>, cids: Seq<ContainerIdView>) -> ItemsParse
    decreases s.len(), 1nat, n,
{
    if n == 0 {
        ItemsParse::Items(Seq::empty(), s)
    } else {
        match reordered_parse_value(s, keys, cids) {
            ValueParse::Value(v, r) => if r.len() < s.len() {
                match reordered_parse_items(r, (n - 1) as nat, keys, cids) {
                    ItemsParse::Items(vs, r2) => ItemsParse::Items(seq![v] + vs, r2),
                    ItemsParse::Corrupt => ItemsParse::Corrupt,
                    ItemsParse::Unreadable => ItemsParse::Unreadable,
                }
            } else {
                ItemsParse::Corrupt
            },
            ValueParse::Corrupt => ItemsParse::Corrupt,
            ValueParse::Unreadable => ItemsParse::Unreadable,
        }
    }
}

/// Decoding `n` map entries one after another, each key index checked
/// after its value is read.
pub open spec fn reordered_parse_entries(s: Seq<u8>, n: nat, keys: Seq<Seq<char>>, cids: Seq<ContainerIdView>) -> EntriesParse
    decreases s.len(), 1nat, n,
{
    if n == 0 {
        EntriesParse::Entries(Seq::empty(), s)
    } else {
        match uleb_read(s) {
            None => EntriesParse::Corrupt,
            Some((ki, m)) => if m == 0 || m > s.len() {
                EntriesParse::Corrupt
            } else {
                match reordered_parse_value(rest(s, m as int), keys, cids) {
                    ValueParse::Value(v, r) => if (ki as usize) >= keys.len() {
                        EntriesParse::Corrupt
                    } else if r.len() < s.len() {
                        match reordered_parse_entries(r, (n - 1) as nat, keys, cids) {
                            EntriesParse::Entries(es, r2) => EntriesParse::Entries(
                                seq![(keys[(ki as usize) as int], v)] + es,
                                r2,
                            ),
                            EntriesParse::Corrupt => EntriesParse::Corrupt,
                            EntriesParse::Unreadable => EntriesParse::Unreadable,
                        }
                    } else {
                        EntriesParse::Corrupt
                    },
                    ValueParse::Corrupt => EntriesParse::Corrupt,
                    ValueParse::Unreadable => EntriesParse::Unreadable,
                }
            },
        }
    }
}

/// Decoding `n` entries of a top-level map: each key index is checked
/// before its value is read.
pub open spec fn reordered_parse_top_entries(s: Seq<u8>, n: nat, keys: Seq<Seq<char>>, cids: Seq<ContainerIdView>) -> EntriesParse
    decreases s.len(), n,
{
    if n == 0 {
        EntriesParse::Entries(Seq::empty(), s)
    } else {
        match uleb_read(s) {
            None => EntriesParse::Corrupt,
            Some((ki, m)) => if m == 0 || m > s.len() || (ki as usize) >= keys.len() {
                EntriesParse::Corrupt
            } else {
                match reordered_parse_value(rest(s, m as int), keys, cids) {
                    ValueParse::Value(v, r) => if r.len() < s.len() {
                        match reordered_parse_top_entries(r, (n - 1) as nat, keys, cids) {
                            EntriesParse::Entries(es, r2) => EntriesParse::Entries(
                                seq![(keys[(ki as usize) as int], v)] + es,
                                r2,
                            ),
                            EntriesParse::Corrupt => EntriesParse::Corrupt,
                            EntriesParse::Unreadable => EntriesParse::Unreadable,
                        }
                    } else {
                        EntriesParse::Corrupt
                    },
                    ValueParse::Corrupt => EntriesParse::Corrupt,
                    ValueParse::Unreadable => EntriesParse::Unreadable,
                }
            },
        }
    }
}

/// Decoding the content of a top-level value of kind `kind`: as nested
/// values are decoded, but the key index of a map entry is checked before
/// its value is read. Kinds that carry no value cannot be read.
pub open spec fn reordered_parse_top_content(kind: ValueKind, t: Seq<u8>, keys: Seq<Seq<char>>, cids: Seq<ContainerIdView>) -> ValueParse {
    match kind {
        ValueKind::Array => match uleb_read(t) {
            None => ValueParse::Corrupt,
            Some((len, n)) => if (len as usize) > MAX_COLLECTION_SIZE || n > t.len() {
                ValueParse::Corrupt
            } else {
                match reordered_parse_items(rest(t, n as int), (len as usize) as nat, keys, cids) {
                    ItemsParse::Items(vs, r) => ValueParse::Value(LoroValueView::List(vs), r),
                    ItemsParse::Corrupt => ValueParse::Corrupt,
                    ItemsParse::Unreadable => ValueParse::Unreadable,
                }
            },
        },
        ValueKind::Mapping => match uleb_read(t) {
            None => ValueParse::Corrupt,
            Some((len, n)) => if (len as usize) > MAX_COLLECTION_SIZE || n > t.len() {
                ValueParse::Corrupt
            } else {
                match reordered_parse_top_entries(rest(t, n as int), (len as usize) as nat, keys, cids) {
                    EntriesParse::Entries(es, r) => ValueParse::Value(
                        LoroValueView::Mapping(map_put_all(Seq::empty(), es)),
                        r,
                    ),
                    EntriesParse::Corrupt => ValueParse::Corrupt,
                    EntriesParse::Unreadable => ValueParse::Unreadable,
                }
            },
        },
        ValueKind::DeleteOnce | ValueKind::DeleteSeq | ValueKind::MarkStart | ValueKind::TreeMove
        | ValueKind::Unknown => ValueParse::Unreadable,
        _ => reordered_parse_scalar(value_kind_code(kind) as u8, t, cids),
    }
}

/// Decoding a top-level value: a kind byte, which must be a known kind,
/// then its content.
pub open spec fn reordered_parse_top_value(s: Seq<u8>, keys: Seq<Seq<char>>, cids: Seq<ContainerIdView>) -> ValueParse {
    if s.len() == 0 {
        ValueParse::Corrupt
    } else if s[0] > 14 {
        ValueParse::Unreadable
    } else {
        reordered_parse_top_content(kind_of_code(s[0]), s.drop_first(), keys, cids)
    }
}

proof fn lemma_scalar_rest_len(k: u8, t: Seq<u8>, cids: Seq<ContainerIdView>)
    ensures
        reordered_parse_scalar(k, t, cids) matches ValueParse::Value(v, r) ==> r.len() <= t.len(),
{
    lemma_uleb_read_len(t);
    lemma_sleb_read_len(t);
}

proof fn lemma_items_step(
    s: Seq<u8>,
    n: nat,
    keys: Seq<Seq<char>>,
    cids: Seq<ContainerIdView>,
    pre: Seq<LoroValueView>,
    whole: ValueParse,
    v: LoroValueView,
    r: Seq<u8>,
)
    requires
        n >= 1,
        whole == match reordered_parse_items(s, n, keys, cids) {
            ItemsParse::Items(vs, r2) => ValueParse::Value(LoroValueView::List(pre + vs), r2),
            ItemsParse::Corrupt => ValueParse::Corrupt,
            ItemsParse::Unreadable => ValueParse::Unreadable,
        },
        reordered_parse_value(s, keys, cids) == ValueParse::Value(v, r),
        r.len() < s.len(),
    ensures
        whole == match reordered_parse_items(r, (n - 1) as nat, keys, cids) {
            ItemsParse::Items(vs, r2) => ValueParse::Value(LoroValueView::List(pre.push(v) + vs), r2),
            ItemsParse::Corrupt => ValueParse::Corrupt,
            ItemsParse::Unreadable => ValueParse::Unreadable,
        },
{
    if let ItemsParse::Items(vs, r2) = reordered_parse_items(r, (n - 1) as nat, keys, cids) {
        assert(pre + (seq![v] + vs) =~= pre.push(v) + vs);
    }
}

proof fn lemma_entries_step(
    s: Seq<u8>,
    n: nat,
    keys: Seq<Seq<char>>,
    cids: Seq<ContainerIdView>,
    m0: Seq<(Seq<char>, LoroValueView)>,
    whole: ValueParse,
    ki: int,
    m: nat,
    v: LoroValueView,
    r: Seq<u8>,
    top: bool,
)
    requires
        n >= 1,
        whole == match (if top {
            reordered_parse_top_entries(s, n, keys, cids)
        } else {
            reordered_parse_entries(s, n, keys, cids)
        }) {
            EntriesParse::Entries(es, r2) => ValueParse::Value(LoroValueView::Mapping(map_put_all(m0, es)), r2),
            EntriesParse::Corrupt => ValueParse::Corrupt,
            EntriesParse::Unreadable => ValueParse::Unreadable,
        },
        uleb_read(s) == Some((ki, m)),
        0 < m <= s.len(),
        (ki as usize) < keys.len(),
        reordered_parse_value(rest(s, m as int), keys, cids) == ValueParse::Value(v, r),
        r.len() < s.len(),
    ensures
        whole == match (if top {
            reordered_parse_top_entries(r, (n - 1) as nat, keys, cids)
        } else {
            reordered_parse_entries(r, (n - 1) as nat, keys, cids)
        }) {
            EntriesParse::Entries(es, r2) => ValueParse::Value(
                LoroValueView::Mapping(map_put_all(map_put(m0, keys[(ki as usize) as int], v), es)),
                r2,
            ),
            EntriesParse::Corrupt => ValueParse::Corrupt,
            EntriesParse::Unreadable => ValueParse::Unreadable,
        },
{
    let k = keys[(ki as usize) as int];
    if top {
        if let EntriesParse::Entries(es, r2) = reordered_parse_top_entries(r, (n - 1) as nat, keys, cids) {
            assert((seq![(k, v)] + es).drop_first() =~= es);
        }
    } else {
        if let EntriesParse::Entries(es, r2) = reordered_parse_entries(r, (n - 1) as nat, keys, cids) {
            assert((seq![(k, v)] + es).drop_first() =~= es);
        }
    }
}

impl<'a> ValueReader<'a> {
    /// Reads the content of a value of a kind that holds no other values
    /// (see `reordered_parse_scalar`).
    fn read_scalar_content(&mut self, k: u8, cids: &[ContainerID]) -> (r: LoroResult<LoroValue>)
        requires
            k != 10,
            k != 11,
            !(reordered_parse_scalar(k, old(self)@, cids_view(cids@)) is Unreadable),
        ensures
            match reordered_parse_scalar(k, old(self)@, cids_view(cids@)) {
                ValueParse::Value(v, rest) => r is Ok && r->Ok_0@ == v && final(self)@ == rest,
                ValueParse::Corrupt => r == Err::<LoroValue, LoroError>(LoroError::DecodeDataCorruptionError),
                ValueParse::Unreadable => false,
            },
    {
        if k == 0 {
            Ok(LoroValue::Null)
        } else if k == 1 {
            Ok(LoroValue::Bool(true))
        } else if k == 2 {
            Ok(LoroValue::Bool(false))
        } else if k == 4 || k == 9 {
            match self.read_i32() {
                Ok(v) => Ok(LoroValue::I64(v as i64)),
                Err(e) => Err(e),
            }
        } else if k == 6 {
            match self.read_f64() {
                Ok(v) => Ok(LoroValue::Double(v)),
                Err(e) => Err(e),
            }
        } else if k == 7 {
            let s = match self.read_str() {
                Ok(s) => s,
                Err(e) => return Err(e),
            };
            proof {
                encode_utf8_decode_utf8(s@);
            }
            Ok(LoroValue::String(s.to_owned()))
        } else if k == 14 {
            match self.read_binary() {
                Ok(b) => Ok(LoroValue::Binary(slice_to_vec(b))),
                Err(e) => Err(e),
            }
        } else {
            let idx = match self.read_usize() {
                Ok(i) => i,
                Err(e) => return Err(e),
            };
            if idx < cids.len() {
                Ok(LoroValue::Container(cids[idx].duplicate()))
            } else {
                Err(LoroError::DecodeDataCorruptionError)
            }
        }
    }

    /// Reads a value that may hold others (see `reordered_parse_value`).
    pub fn recursive_read_value_type_and_content(&mut self, keys: &[String], cids: &[ContainerID]) -> (r:
        LoroResult<LoroValue>)
        requires
            !(reordered_parse_value(old(self)@, keys_view(keys@), cids_view(cids@)) is Unreadable),
        ensures
            match reordered_parse_value(old(self)@, keys_view(keys@), cids_view(cids@)) {
                ValueParse::Value(v, rest) => r is Ok && r->Ok_0@ == v && final(self)@ == rest
                    && rest.len() < old(self)@.len(),
                ValueParse::Corrupt => r == Err::<LoroValue, LoroError>(LoroError::DecodeDataCorruptionError),
                ValueParse::Unreadable => false,
            },
        decreases old(self)@.len(), 0nat,
    {
        let ghost s = self@;
        let k = match self.read_u8() {
            Ok(k) => k,
            Err(e) => return Err(e),
        };
        let ghost t = self@;
        assert(t =~= s.drop_first());
        if k == 10 || k == 11 {
            proof {
                lemma_uleb_read_len(t);
            }
            let len = match self.read_usize() {
                Ok(l) => l,
                Err(e) => return Err(e),
            };
            if len > MAX_COLLECTION_SIZE {
                return Err(LoroError::DecodeDataCorruptionError);
            }
            if k == 10 {
                match self.read_items(len, keys, cids) {
                    Ok(items) => Ok(LoroValue::List(items)),
                    Err(e) => Err(e),
                }
            } else {
                match self.read_entries(len, keys, cids, false) {
                    Ok(map) => Ok(LoroValue::Mapping(map)),
                    Err(e) => Err(e),
                }
            }
        } else {
            proof {
                lemma_scalar_rest_len(k, t, cids_view(cids@));
            }
            self.read_scalar_content(k, cids)
        }
    }

    /// Reads `n` values one after another.
    fn read_items(&mut self, n: usize, keys: &[String], cids: &[ContainerID]) -> (r: LoroResult<Vec<LoroValue>>)
        requires
            !(reordered_parse_items(old(self)@, n as nat, keys_view(keys@), cids_view(cids@)) is Unreadable),
        ensures
            match reordered_parse_items(old(self)@, n as nat, keys_view(keys@), cids_view(cids@)) {
                ItemsParse::Items(vs, rest) => r is Ok && values_view(r->Ok_0@) == vs && final(self)@ == rest
                    && rest.len() <= old(self)@.len(),
                ItemsParse::Corrupt => r == Err::<Vec<LoroValue>, LoroError>(LoroError::DecodeDataCorruptionError),
                ItemsParse::Unreadable => false,
            },
        decreases old(self)@.len(), 1nat,
    {
        let ghost kv = keys_view(keys@);
        let ghost cv = cids_view(cids@);
        let ghost whole = match reordered_parse_items(self@, n as nat, kv, cv) {
            ItemsParse::Items(vs, r2) => ValueParse::Value(LoroValueView::List(vs), r2),
            ItemsParse::Corrupt => ValueParse::Corrupt,
            ItemsParse::Unreadable => ValueParse::Unreadable,
        };
        let mut vec: Vec<LoroValue> = Vec::new();
        let mut i: usize = 0;
        assert(values_view(vec@) =~= Seq::<LoroValueView>::empty());
        assert(whole == match reordered_parse_items(self@, (n - i) as nat, kv, cv) {
            ItemsParse::Items(vs, r2) => ValueParse::Value(LoroValueView::List(values_view(vec@) + vs), r2),
            ItemsParse::Corrupt => ValueParse::Corrupt,
            ItemsParse::Unreadable => ValueParse::Unreadable,
        }) by {
            if let ItemsParse::Items(vs, r2) = reordered_parse_items(self@, n as nat, kv, cv) {
                assert(values_view(vec@) + vs =~= vs);
            }
        }
        while i < n
            invariant
                kv == keys_view(keys@),
                cv == cids_view(cids@),
                i <= n,
                !(whole is Unreadable),
                self@.len() <= old(self)@.len(),
                whole == match reordered_parse_items(old(self)@, n as nat, kv, cv) {
                    ItemsParse::Items(vs, r2) => ValueParse::Value(LoroValueView::List(vs), r2),
                    ItemsParse::Corrupt => ValueParse::Corrupt,
                    ItemsParse::Unreadable => ValueParse::Unreadable,
                },
                whole == match reordered_parse_items(self@, (n - i) as nat, kv, cv) {
                    ItemsParse::Items(vs, r2) => ValueParse::Value(LoroValueView::List(values_view(vec@) + vs), r2),
                    ItemsParse::Corrupt => ValueParse::Corrupt,
                    ItemsParse::Unreadable => ValueParse::Unreadable,
                },
            decreases n - i,
        {
            let ghost s = self@;
            let v = match self.recursive_read_value_type_and_content(keys, cids) {
                Ok(v) => v,
                Err(e) => return Err(e),
            };
            proof {
                lemma_items_step(s, (n - i) as nat, kv, cv, values_view(vec@), whole, v@, self@);
            }
            list_push(&mut vec, v);
            i += 1;
        }
        assert(values_view(vec@) + Seq::<LoroValueView>::empty() =~= values_view(vec@));
        Ok(vec)
    }

    /// Reads `n` map entries; with `top`, each key index is checked before
    /// its value is read, otherwise after.
    fn read_entries(&mut self, n: usize, keys: &[String], cids: &[ContainerID], top: bool) -> (r: LoroResult<
        Vec<(String, LoroValue)>,
    >)
        requires
            !((if top {
                reordered_parse_top_entries(old(self)@, n as nat, keys_view(keys@), cids_view(cids@))
            } else {
                reordered_parse_entries(old(self)@, n as nat, keys_view(keys@), cids_view(cids@))
            }) is Unreadable),
        ensures
            match (if top {
                reordered_parse_top_entries(old(self)@, n as nat, keys_view(keys@), cids_view(cids@))
            } else {
                reordered_parse_entries(old(self)@, n as nat, keys_view(keys@), cids_view(cids@))
            }) {
                EntriesParse::Entries(es, rest) => r is Ok && pairs_view(r->Ok_0@) == map_put_all(Seq::empty(), es)
                    && final(self)@ == rest && rest.len() <= old(self)@.len(),
                EntriesParse::Corrupt => r == Err::<Vec<(String, LoroValue)>, LoroError>(
                    LoroError::DecodeDataCorruptionError,
                ),
                EntriesParse::Unreadable => false,
            },
        decreases old(self)@.len(), 1nat,
    {
        let ghost kv = keys_view(keys@);
        let ghost cv = cids_view(cids@);
        let ghost whole = match (if top {
            reordered_parse_top_entries(self@, n as nat, kv, cv)
        } else {
            reordered_parse_entries(self@, n as nat, kv, cv)
        }) {
            EntriesParse::Entries(es, r2) => ValueParse::Value(
                LoroValueView::Mapping(map_put_all(Seq::empty(), es)),
                r2,
            ),
            EntriesParse::Corrupt => ValueParse::Corrupt,
            EntriesParse::Unreadable => ValueParse::Unreadable,
        };
        let mut map: Vec<(String, LoroValue)> = Vec::new();
        assert(pairs_view(map@) =~= Seq::<(Seq<char>, LoroValueView)>::empty());
        let mut i: usize = 0;
        while i < n
            invariant
                kv == keys_view(keys@),
                cv == cids_view(cids@),
                keys@.len() == kv.len(),
                i <= n,
                !(whole is Unreadable),
                self@.len() <= old(self)@.len(),
                whole == match (if top {
                    reordered_parse_top_entries(old(self)@, n as nat, kv, cv)
                } else {
                    reordered_parse_entries(old(self)@, n as nat, kv, cv)
                }) {
                    EntriesParse::Entries(es, r2) => ValueParse::Value(
                        LoroValueView::Mapping(map_put_all(Seq::empty(), es)),
                        r2,
                    ),
                    EntriesParse::Corrupt => ValueParse::Corrupt,
                    EntriesParse::Unreadable => ValueParse::Unreadable,
                },
                whole == match (if top {
                    reordered_parse_top_entries(self@, (n - i) as nat, kv, cv)
                } else {
                    reordered_parse_entries(self@, (n - i) as nat, kv, cv)
                }) {
                    EntriesParse::Entries(es, r2) => ValueParse::Value(
                        LoroValueView::Mapping(map_put_all(pairs_view(map@), es)),
                        r2,
                    ),
                    EntriesParse::Corrupt => ValueParse::Corrupt,
                    EntriesParse::Unreadable => ValueParse::Unreadable,
                },
            decreases n - i,
        {
            let ghost s = self@;
            proof {
                lemma_uleb_read_len(s);
            }
            let key_idx = match self.read_usize() {
                Ok(x) => x,
                Err(e) => return Err(e),
            };
            let ghost m = uleb_read(s)->Some_0.1;
            if top && key_idx >= keys.len() {
                return Err(LoroError::DecodeDataCorruptionError);
            }
            let v = match self.recursive_read_value_type_and_content(keys, cids) {
                Ok(v) => v,
                Err(e) => return Err(e),
            };
            if key_idx >= keys.len() {
                return Err(LoroError::DecodeDataCorruptionError);
            }
            let key = keys[key_idx].clone();
            assert(key@ == kv[key_idx as int]);
            proof {
                lemma_entries_step(
                    s,
                    (n - i) as nat,
                    kv,
                    cv,
                    pairs_view(map@),
                    whole,
                    uleb_read(s)->Some_0.0,
                    m,
                    v@,
                    self@,
                    top,
                );
            }
            map_insert(&mut map, key, v);
            i += 1;
        }
        Ok(map)
    }

    /// Reads the content of a top-level value of the given kind (see
    /// `reordered_parse_top_content`).
    pub fn read_value_content(&mut self, kind: ValueKind, keys: &[String], cids: &[ContainerID]) -> (r:
        LoroResult<LoroValue>)
        requires
            !(reordered_parse_top_content(kind, old(self)@, keys_view(keys@), cids_view(cids@)) is Unreadable),
        ensures
            match reordered_parse_top_content(kind, old(self)@, keys_view(keys@), cids_view(cids@)) {
                ValueParse::Value(v, rest) => r is Ok && r->Ok_0@ == v && final(self)@ == rest
                    && rest.len() <= old(self)@.len(),
                ValueParse::Corrupt => r == Err::<LoroValue, LoroError>(LoroError::DecodeDataCorruptionError),
                ValueParse::Unreadable => false,
            },
    {
        let ghost t = self@;
        match kind {
            ValueKind::Array => {
                proof {
                    lemma_uleb_read_len(t);
                }
                let len = match self.read_usize() {
                    Ok(l) => l,
                    Err(e) => return Err(e),
                };
                if len > MAX_COLLECTION_SIZE {
                    return Err(LoroError::DecodeDataCorruptionError);
                }
                match self.read_items(len, keys, cids) {
                    Ok(items) => Ok(LoroValue::List(items)),
                    Err(e) => Err(e),
                }
            },
            ValueKind::Mapping => {
                proof {
                    lemma_uleb_read_len(t);
                }
                let len = match self.read_usize() {
                    Ok(l) => l,
                    Err(e) => return Err(e),
                };
                if len > MAX_COLLECTION_SIZE {
                    return Err(LoroError::DecodeDataCorruptionError);
                }
                match self.read_entries(len, keys, cids, true) {
                    Ok(map) => Ok(LoroValue::Mapping(map)),
                    Err(e) => Err(e),
                }
            },
            ValueKind::DeleteOnce | ValueKind::DeleteSeq | ValueKind::MarkStart | ValueKind::TreeMove
            | ValueKind::Unknown => vstd::pervasive::unreached(),
            _ => {
                let k = match kind.to_u8() {
                    Some(b) => b,
                    None => vstd::pervasive::unreached(),
                };
                proof {
                    lemma_scalar_rest_len(k, t, cids_view(cids@));
                }
                self.read_scalar_content(k, cids)
            },
        }
    }

    /// Reads a top-level value: its kind byte, which must name a kind, then
    /// its content (see `reordered_parse_top_value`).
    pub fn read_value_type_and_content(&mut self, keys: &[String], cids: &[ContainerID]) -> (r: LoroResult<
        LoroValue,
    >)
        requires
            !(reordered_parse_top_value(old(self)@, keys_view(keys@), cids_view(cids@)) is Unreadable),
        ensures
            match reordered_parse_top_value(old(self)@, keys_view(keys@), cids_view(cids@)) {
                ValueParse::Value(v, rest) => r is Ok && r->Ok_0@ == v && final(self)@ == rest
                    && rest.len() <= old(self)@.len(),
                ValueParse::Corrupt => r == Err::<LoroValue, LoroError>(LoroError::DecodeDataCorruptionError),
                ValueParse::Unreadable => false,
            },
    {
        let ghost s = self@;
        let k = match self.read_u8() {
            Ok(k) => k,
            Err(e) => return Err(e),
        };
        assert(self@ =~= s.drop_first());
        let kind = match ValueKind::from_u8(k) {
            Some(kind) => kind,
            None => vstd::pervasive::unreached(),
        };
        proof {
            crate::encoding::encode_reordered::lemma_value_kind_code_injective(kind, kind_of_code(k));
        }
        self.read_value_content(kind, keys, cids)
    }
}

} // verus!
