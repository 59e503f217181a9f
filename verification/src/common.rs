//! Identifiers, container kinds and the JSON-like value type shared by the
//! encoding and the document model.
use vstd::prelude::*;

verus! {

/// A peer's identity.
pub type PeerID = u64;

/// A per-peer op counter.
pub type Counter = i32;

/// The errors the library reports.
#[derive(Debug, Clone, Copy, PartialEq, Eq, Structural)]
pub enum LoroError {
    /// Decoded data is corrupted or truncated.
    DecodeDataCorruptionError,
    /// A snapshot's framing is broken: a section runs past the end, or bytes
    /// follow the last section.
    DecodeError,
    /// An edit was attempted while the document is detached from the latest version.
    EditWhenDetached,
    /// An index or length is out of the container's bounds.
    OutOfBound,
    /// A counter or lamport timestamp would overflow.
    CounterOverflow,
    /// The target container of an edit has another type.
    ContainerTypeMismatch,
    /// An argument is invalid, such as an empty range.
    ArgErr,
    /// A tree node would become its own ancestor.
    CyclicMoveError,
    /// A tree node that is not in the tree (or is deleted) was named.
    TreeNodeNotExist,
}

pub type LoroResult<T> = Result<T, LoroError>;

/// The id of an op: the peer that created it and its counter there.
#[derive(Debug, Clone, Copy, PartialEq, Eq, Structural)]
pub struct ID {
    pub peer: PeerID,
    pub counter: Counter,
}

impl ID {
    pub fn new(peer: PeerID, counter: Counter) -> (r: ID)
        ensures
            r == (ID { peer, counter }),
    {
        ID { peer, counter }
    }

    /// The id `n` counters after this one.
    pub fn inc(&self, n: i32) -> (r: ID)
        requires
            i32::MIN <= self.counter + n <= i32::MAX,
        ensures
            r == (ID { peer: self.peer, counter: (self.counter + n) as i32 }),
    {
        ID { peer: self.peer, counter: self.counter + n }
    }
}

/// The kinds of containers.
#[derive(Debug, Clone, Copy, PartialEq, Eq, Structural)]
pub enum ContainerType {
    Text,
    Mapping,
    List,
    MovableList,
    Tree,
    Unknown(u8),
}

/// The byte of each container kind.
pub open spec fn container_type_to_u8(t: ContainerType) -> u8 {
    match t {
        ContainerType::Mapping => 0,
        ContainerType::List => 1,
        ContainerType::Text => 2,
        ContainerType::Tree => 3,
        ContainerType::MovableList => 4,
        ContainerType::Unknown(k) => k,
    }
}

/// The container kind a byte stands for, if it names a known one.
pub open spec fn container_type_from_u8(v: u8) -> Option<ContainerType> {
    if v == 0 {
        Some(ContainerType::Mapping)
    } else if v == 1 {
        Some(ContainerType::List)
    } else if v == 2 {
        Some(ContainerType::Text)
    } else if v == 3 {
        Some(ContainerType::Tree)
    } else if v == 4 {
        Some(ContainerType::MovableList)
    } else {
        None
    }
}

impl ContainerType {
    pub fn to_u8(self) -> (r: u8)
        ensures
            r == container_type_to_u8(self),
    {
        match self {
            ContainerType::Mapping => 0,
            ContainerType::List => 1,
            ContainerType::Text => 2,
            ContainerType::Tree => 3,
            ContainerType::MovableList => 4,
            ContainerType::Unknown(k) => k,
        }
    }

    /// The known container kind of a byte; `None` for bytes of unknown kinds.
    pub fn try_from_u8(v: u8) -> (r: Option<ContainerType>)
        ensures
            r == container_type_from_u8(v),
    {
        if v == 0 {
            Some(ContainerType::Mapping)
        } else if v == 1 {
            Some(ContainerType::List)
        } else if v == 2 {
            Some(ContainerType::Text)
        } else if v == 3 {
            Some(ContainerType::Tree)
        } else if v == 4 {
            Some(ContainerType::MovableList)
        } else {
            None
        }
    }

    /// The kind of a byte, unknown bytes kept as `Unknown`.
    pub fn from_u8_or_unknown(v: u8) -> (r: ContainerType)
        ensures
            r == match container_type_from_u8(v) {
                Some(t) => t,
                None => ContainerType::Unknown(v),
            },
    {
        match ContainerType::try_from_u8(v) {
            Some(t) => t,
            None => ContainerType::Unknown(v),
        }
    }
}

/// A known container kind survives the round trip through its byte.
pub proof fn lemma_container_type_byte_roundtrip(t: ContainerType)
    requires
        !(t is Unknown),
    ensures
        container_type_from_u8(container_type_to_u8(t)) == Some(t),
{
}

/// The abstract value of a container id.
pub enum ContainerIdView {
    Root { name: Seq<char>, container_type: ContainerType },
    Normal { peer: PeerID, counter: Counter, container_type: ContainerType },
}

/// The id of a container: a named root, or the container created by the op
/// with the given id.
#[derive(Debug)]
pub enum ContainerID {
    Root { name: String, container_type: ContainerType },
    Normal { peer: PeerID, counter: Counter, container_type: ContainerType },
}

impl View for ContainerID {
    type V = ContainerIdView;

    open spec fn view(&self) -> ContainerIdView {
        match self {
            ContainerID::Root { name, container_type } => ContainerIdView::Root {
                name: name@,
                container_type: *container_type,
            },
            ContainerID::Normal { peer, counter, container_type } => ContainerIdView::Normal {
                peer: *peer,
                counter: *counter,
                container_type: *container_type,
            },
        }
    }
}

pub open spec fn cid_type(c: ContainerIdView) -> ContainerType {
    match c {
        ContainerIdView::Root { container_type, .. } => container_type,
        ContainerIdView::Normal { container_type, .. } => container_type,
    }
}

impl ContainerID {
    pub fn new_root(name: &str, container_type: ContainerType) -> (r: ContainerID)
        ensures
            r@ == (ContainerIdView::Root { name: name@, container_type }),
    {
        ContainerID::Root { name: name.to_owned(), container_type }
    }

    pub fn new_normal(id: ID, container_type: ContainerType) -> (r: ContainerID)
        ensures
            r@ == (ContainerIdView::Normal { peer: id.peer, counter: id.counter, container_type }),
    {
        ContainerID::Normal { peer: id.peer, counter: id.counter, container_type }
    }

    pub fn container_type(&self) -> (r: ContainerType)
        ensures
            r == cid_type(self@),
    {
        match self {
            ContainerID::Root { container_type, .. } => *container_type,
            ContainerID::Normal { container_type, .. } => *container_type,
        }
    }

    /// A copy with the same abstract value.
    pub fn duplicate(&self) -> (r: ContainerID)
        ensures
            r@ == self@,
    {
        match self {
            ContainerID::Root { name, container_type } => ContainerID::Root {
                name: name.clone(),
                container_type: *container_type,
            },
            ContainerID::Normal { peer, counter, container_type } => ContainerID::Normal {
                peer: *peer,
                counter: *counter,
                container_type: *container_type,
            },
        }
    }

    /// Whether two ids name the same container.
    pub fn same(&self, other: &ContainerID) -> (r: bool)
        ensures
            r == (self@ == other@),
    {
        match (self, other) {
            (
                ContainerID::Root { name: n1, container_type: t1 },
                ContainerID::Root { name: n2, container_type: t2 },
            ) => *t1 == *t2 && *n1 == *n2,
            (
                ContainerID::Normal { peer: p1, counter: c1, container_type: t1 },
                ContainerID::Normal { peer: p2, counter: c2, container_type: t2 },
            ) => *p1 == *p2 && *c1 == *c2 && *t1 == *t2,
            _ => false,
        }
    }
}

/// The abstract value of a `LoroValue`.
pub enum LoroValueView {
    Null,
    Bool(bool),
    Double(u64),
    I64(i64),
    Binary(Seq<u8>),
    String(Seq<char>),
    List(Seq<LoroValueView>),
    Mapping(Seq<(Seq<char>, LoroValueView)>),
    Container(ContainerIdView),
}

/// A JSON-like value. A double is held by its IEEE-754 bits; a map keeps its
/// entries in a vector with distinct keys.
#[derive(Debug)]
pub enum LoroValue {
    Null,
    Bool(bool),
    Double(u64),
    I64(i64),
    Binary(Vec<u8>),
    String(String),
    List(Vec<LoroValue>),
    Mapping(Vec<(String, LoroValue)>),
    Container(ContainerID),
}

impl View for LoroValue {
    type V = LoroValueView;

    open spec fn view(&self) -> LoroValueView
        decreases self,
    {
        match self {
            LoroValue::Null => LoroValueView::Null,
            LoroValue::Bool(b) => LoroValueView::Bool(*b),
            LoroValue::Double(d) => LoroValueView::Double(*d),
            LoroValue::I64(i) => LoroValueView::I64(*i),
            LoroValue::Binary(b) => LoroValueView::Binary(b@),
            LoroValue::String(s) => LoroValueView::String(s@),
            LoroValue::List(v) => LoroValueView::List(values_view(v@)),
            LoroValue::Mapping(v) => LoroValueView::Mapping(pairs_view(v@)),
            LoroValue::Container(c) => LoroValueView::Container(c@),
        }
    }
}

/// The abstract values of a sequence of values.
pub open spec fn values_view(s: Seq<LoroValue>) -> Seq<LoroValueView>
    decreases s,
{
    if s.len() == 0 {
        Seq::empty()
    } else {
        values_view(s.drop_last()).push(s.last().view())
    }
}

/// The abstract entries of a sequence of key-value pairs.
pub open spec fn pairs_view(s: Seq<(String, LoroValue)>) -> Seq<(Seq<char>, LoroValueView)>
    decreases s,
{
    if s.len() == 0 {
        Seq::empty()
    } else {
        pairs_view(s.drop_last()).push((s.last().0@, s.last().1.view()))
    }
}

pub proof fn lemma_values_view(s: Seq<LoroValue>)
    ensures
        values_view(s).len() == s.len(),
        forall|i: int| 0 <= i < s.len() ==> #[trigger] values_view(s)[i] == s[i]@,
    decreases s.len(),
{
    if s.len() > 0 {
        lemma_values_view(s.drop_last());
        assert(values_view(s) == values_view(s.drop_last()).push(s.last()@));
        vstd::seq::axiom_seq_push_len(values_view(s.drop_last()), s.last()@);
        assert forall|i: int| 0 <= i < s.len() implies #[trigger] values_view(s)[i] == s[i]@ by {
            if i < s.len() - 1 {
                assert(s.drop_last()[i] == s[i]);
            }
        }
    }
}

pub proof fn lemma_pairs_view(s: Seq<(String, LoroValue)>)
    ensures
        pairs_view(s).len() == s.len(),
        forall|i: int| 0 <= i < s.len() ==> #[trigger] pairs_view(s)[i] == (s[i].0@, s[i].1@),
    decreases s.len(),
{
    if s.len() > 0 {
        lemma_pairs_view(s.drop_last());
        assert(pairs_view(s) == pairs_view(s.drop_last()).push((s.last().0@, s.last().1@)));
        vstd::seq::axiom_seq_push_len(pairs_view(s.drop_last()), (s.last().0@, s.last().1@));
        assert forall|i: int| 0 <= i < s.len() implies #[trigger] pairs_view(s)[i] == (s[i].0@, s[i].1@) by {
            if i < s.len() - 1 {
                assert(s.drop_last()[i] == s[i]);
            }
        }
    }
}

impl LoroValue {
    /// Whether two values are equal.
    #[verifier::loop_isolation(false)]
    pub fn equals(&self, other: &LoroValue) -> (r: bool)
        ensures
            r == (self@ == other@),
        decreases self,
    {
        match (self, other) {
            (LoroValue::Null, LoroValue::Null) => true,
            (LoroValue::Bool(a), LoroValue::Bool(b)) => *a == *b,
            (LoroValue::Double(a), LoroValue::Double(b)) => *a == *b,
            (LoroValue::I64(a), LoroValue::I64(b)) => *a == *b,
            (LoroValue::Binary(a), LoroValue::Binary(b)) => {
                if a.len() != b.len() {
                    return false;
                }
                let mut i: usize = 0;
                while i < a.len()
                    invariant
                        i <= a.len(),
                        a.len() == b.len(),
                        forall|k: int| 0 <= k < i ==> a@[k] == b@[k],
                    decreases a.len() - i,
                {
                    if a[i] != b[i] {
                        assert(a@[i as int] != b@[i as int]);
                        return false;
                    }
                    i += 1;
                }
                assert(a@ =~= b@);
                true
            },
            (LoroValue::String(a), LoroValue::String(b)) => *a == *b,
            (LoroValue::List(a), LoroValue::List(b)) => {
                proof {
                    lemma_values_view(a@);
                    lemma_values_view(b@);
                }
                if a.len() != b.len() {
                    return false;
                }
                let mut i: usize = 0;
                while i < a.len()
                    invariant
                        i <= a.len(),
                        a.len() == b.len(),
                        forall|k: int| 0 <= k < i ==> a@[k]@ == b@[k]@,
                    decreases a.len() - i,
                {
                    proof {
                        assert(decreases_to!(*self => *a));
                        assert(decreases_to!(*a => a@));
                        assert(decreases_to!(a@ => a@[i as int]));
                        assert(decreases_to!(*self => a@[i as int]));
                        lemma_values_view(a@);
                        lemma_values_view(b@);
                    }
                    if !a[i].equals(&b[i]) {
                        assert(values_view(a@)[i as int] != values_view(b@)[i as int]);
                        return false;
                    }
                    i += 1;
                }
                proof {
                    lemma_values_view(a@);
                    lemma_values_view(b@);
                }
                assert(values_view(a@) =~= values_view(b@));
                true
            },
            (LoroValue::Mapping(a), LoroValue::Mapping(b)) => {
                proof {
                    lemma_pairs_view(a@);
                    lemma_pairs_view(b@);
                }
                if a.len() != b.len() {
                    return false;
                }
                let mut i: usize = 0;
                while i < a.len()
                    invariant
                        i <= a.len(),
                        a.len() == b.len(),
                        forall|k: int| 0 <= k < i ==> a@[k].0@ == b@[k].0@ && a@[k].1@ == b@[k].1@,
                    decreases a.len() - i,
                {
                    proof {
                        assert(decreases_to!(*self => *a));
                        assert(decreases_to!(*a => a@));
                        assert(decreases_to!(a@ => a@[i as int]));
                        assert(decreases_to!(a@[i as int] => a@[i as int].1));
                        assert(decreases_to!(*self => a@[i as int].1));
                        lemma_pairs_view(a@);
                        lemma_pairs_view(b@);
                    }
                    if a[i].0 != b[i].0 || !a[i].1.equals(&b[i].1) {
                        assert(pairs_view(a@)[i as int] != pairs_view(b@)[i as int]);
                        return false;
                    }
                    i += 1;
                }
                proof {
                    lemma_pairs_view(a@);
                    lemma_pairs_view(b@);
                }
                assert(pairs_view(a@) =~= pairs_view(b@));
                true
            },
            (LoroValue::Container(a), LoroValue::Container(b)) => a.same(b),
            _ => false,
        }
    }
}

impl LoroValue {
    /// A deep copy with the same abstract value.
    #[verifier::loop_isolation(false)]
    pub fn duplicate(&self) -> (r: LoroValue)
        ensures
            r@ == self@,
        decreases self,
    {
        match self {
            LoroValue::Null => LoroValue::Null,
            LoroValue::Bool(b) => LoroValue::Bool(*b),
            LoroValue::Double(d) => LoroValue::Double(*d),
            LoroValue::I64(i) => LoroValue::I64(*i),
            LoroValue::Binary(b) => LoroValue::Binary(vstd::slice::slice_to_vec(b.as_slice())),
            LoroValue::String(s) => LoroValue::String(s.clone()),
            LoroValue::List(a) => {
                let mut out: Vec<LoroValue> = Vec::new();
                let mut i: usize = 0;
                while i < a.len()
                    invariant
                        i <= a.len(),
                        out@.len() == i,
                        forall|k: int| 0 <= k < i ==> out@[k]@ == a@[k]@,
                    decreases a.len() - i,
                {
                    proof {
                        assert(decreases_to!(*self => *a));
                        assert(decreases_to!(*a => a@));
                        assert(decreases_to!(a@ => a@[i as int]));
                        assert(decreases_to!(*self => a@[i as int]));
                    }
                    let d = a[i].duplicate();
                    out.push(d);
                    i += 1;
                }
                proof {
                    lemma_values_view(a@);
                    lemma_values_view(out@);
                }
                assert(values_view(out@) =~= values_view(a@));
                LoroValue::List(out)
            },
            LoroValue::Mapping(a) => {
                let mut out: Vec<(String, LoroValue)> = Vec::new();
                let mut i: usize = 0;
                while i < a.len()
                    invariant
                        i <= a.len(),
                        out@.len() == i,
                        forall|k: int| 0 <= k < i ==> out@[k].0@ == a@[k].0@ && out@[k].1@ == a@[k].1@,
                    decreases a.len() - i,
                {
                    proof {
                        assert(decreases_to!(*self => *a));
                        assert(decreases_to!(*a => a@));
                        assert(decreases_to!(a@ => a@[i as int]));
                        assert(decreases_to!(a@[i as int] => a@[i as int].1));
                        assert(decreases_to!(*self => a@[i as int].1));
                    }
                    let k = a[i].0.clone();
                    let d = a[i].1.duplicate();
                    out.push((k, d));
                    i += 1;
                }
                proof {
                    lemma_pairs_view(a@);
                    lemma_pairs_view(out@);
                }
                assert(pairs_view(out@) =~= pairs_view(a@));
                LoroValue::Mapping(out)
            },
            LoroValue::Container(c) => LoroValue::Container(c.duplicate()),
        }
    }
}

/// The decimal digits of `n`.
pub open spec fn decimal_chars(n: nat) -> Seq<char>
    decreases n,
{
    if n < 10 {
        seq![(48 + n) as char]
    } else {
        decimal_chars(n / 10).push((48 + n % 10) as char)
    }
}

fn digit_char(d: u64) -> (c: char)
    requires
        d < 10,
    ensures
        c == (48 + d) as char,
{
    if d == 0 {
        '0'
    } else if d == 1 {
        '1'
    } else if d == 2 {
        '2'
    } else if d == 3 {
        '3'
    } else if d == 4 {
        '4'
    } else if d == 5 {
        '5'
    } else if d == 6 {
        '6'
    } else if d == 7 {
        '7'
    } else if d == 8 {
        '8'
    } else {
        '9'
    }
}

/// Appends the decimal digits of `n`.
pub fn push_decimal(out: &mut Vec<char>, n: u64)
    ensures
        final(out)@ == old(out)@ + decimal_chars(n as nat),
    decreases n,
{
    if n >= 10 {
        push_decimal(out, n / 10);
    }
    let c = digit_char(n % 10);
    out.push(c);
    proof {
        if n >= 10 {
            assert(decimal_chars(n as nat) == decimal_chars((n / 10) as nat).push(c));
        } else {
            assert(decimal_chars(n as nat) == seq![c]);
        }
    }
    assert(final(out)@ =~= old(out)@ + decimal_chars(n as nat));
}

/// The string of a run of characters.
pub fn string_from_chars(chars: &Vec<char>) -> (r: String)
    ensures
        r@ == chars@,
{
    let mut r = String::new();
    let mut i: usize = 0;
    while i < chars.len()
        invariant
            i <= chars.len(),
            r@ == chars@.take(i as int),
        decreases chars.len() - i,
    {
        crate::state::string_push(&mut r, chars[i]);
        i += 1;
        assert(r@ =~= chars@.take(i as int));
    }
    assert(chars@.take(chars.len() as int) =~= chars@);
    r
}

} // verus!
