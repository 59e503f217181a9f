//! A register that gives each distinct key a stable index, in the order the
//! keys are first seen; the encoder writes indices and the key arena holds
//! the keys.
use vstd::prelude::*;
use crate::common::PeerID;

verus! {

/// The last position of `key` in `s`, or -1.
pub open spec fn last_index_of(s: Seq<Seq<char>>, key: Seq<char>) -> int
    decreases s.len(),
{
    if s.len() == 0 {
        -1
    } else if s.last() == key {
        s.len() - 1
    } else {
        last_index_of(s.drop_last(), key)
    }
}

/// Registering `key`: its index where it is already registered; otherwise
/// the next index, with the key appended.
pub open spec fn register_key(s: Seq<Seq<char>>, key: Seq<char>) -> (nat, Seq<Seq<char>>) {
    let i = last_index_of(s, key);
    if i >= 0 {
        (i as nat, s)
    } else {
        (s.len(), s.push(key))
    }
}

pub proof fn lemma_last_index_of(s: Seq<Seq<char>>, key: Seq<char>)
    ensures
        -1 <= last_index_of(s, key) < s.len(),
        last_index_of(s, key) >= 0 ==> s[last_index_of(s, key)] == key,
        last_index_of(s, key) < 0 ==> forall|j: int| 0 <= j < s.len() ==> s[j] != key,
    decreases s.len(),
{
    if s.len() > 0 && s.last() != key {
        lemma_last_index_of(s.drop_last(), key);
        assert forall|j: int| 0 <= j < s.len() - 1 implies s[j] == s.drop_last()[j] by {}
    }
}

/// Registering a key keeps what was registered and leaves the key at the
/// returned index.
pub proof fn lemma_register_key(s: Seq<Seq<char>>, key: Seq<char>)
    ensures
        register_key(s, key).0 < register_key(s, key).1.len(),
        register_key(s, key).1[register_key(s, key).0 as int] == key,
        s.len() <= register_key(s, key).1.len(),
        register_key(s, key).1.subrange(0, s.len() as int) == s,
{
    lemma_last_index_of(s, key);
    assert(register_key(s, key).1.subrange(0, s.len() as int) =~= s);
}

/// A register of keys.
#[derive(Debug)]
pub struct ValueRegister {
    vec: Vec<String>,
}

impl View for ValueRegister {
    type V = Seq<Seq<char>>;

    closed spec fn view(&self) -> Seq<Seq<char>> {
        Seq::new(self.vec@.len(), |i: int| self.vec@[i]@)
    }
}

impl ValueRegister {
    pub fn new() -> (r: ValueRegister)
        ensures
            r@ == Seq::<Seq<char>>::empty(),
    {
        ValueRegister { vec: Vec::new() }
    }

    /// A register holding the given keys at their positions.
    pub fn from_existing(vec: Vec<String>) -> (r: ValueRegister)
        ensures
            r@ == Seq::new(vec@.len(), |i: int| vec@[i]@),
    {
        ValueRegister { vec }
    }

    /// The index of `key`, if it is registered.
    pub fn get(&self, key: &String) -> (r: Option<usize>)
        ensures
            match r {
                Some(i) => i == last_index_of(self@, key@),
                None => last_index_of(self@, key@) < 0,
            },
    {
        let ghost s = self@;
        let mut i: usize = self.vec.len();
        assert(s.take(i as int) =~= s);
        while i > 0
            invariant
                i <= self.vec@.len(),
                s == self@,
                s.len() == self.vec@.len(),
                last_index_of(s, key@) == last_index_of(s.take(i as int), key@),
            decreases i,
        {
            let ghost t = s.take(i as int);
            assert(t.last() == self.vec@[i - 1]@);
            if self.vec[i - 1] == *key {
                return Some(i - 1);
            }
            assert(t.drop_last() =~= s.take(i - 1));
            i -= 1;
        }
        None
    }

    /// Returns the index of `key`; a key not yet registered is appended and
    /// gets the next index.
    pub fn register(&mut self, key: &String) -> (r: usize)
        ensures
            (r as nat, final(self)@) == register_key(old(self)@, key@),
    {
        match self.get(key) {
            Some(i) => i,
            None => {
                let idx = self.vec.len();
                self.vec.push(key.clone());
                assert(self@ =~= old(self)@.push(key@));
                idx
            },
        }
    }

    pub fn contains(&self, key: &String) -> (r: bool)
        ensures
            r == (last_index_of(self@, key@) >= 0),
    {
        self.get(key).is_some()
    }

    /// The registered keys, in order.
    pub fn unwrap_vec(self) -> (r: Vec<String>)
        ensures
            Seq::new(r@.len(), |i: int| r@[i]@) == self@,
    {
        let r = self.vec;
        assert(Seq::new(r@.len(), |i: int| r@[i]@) =~= self@);
        r
    }

    /// The key at `index`, if there is one.
    pub fn get_value(&self, index: usize) -> (r: Option<&String>)
        ensures
            match r {
                Some(k) => index < self@.len() && k@ == self@[index as int],
                None => index >= self@.len(),
            },
    {
        if index < self.vec.len() {
            Some(&self.vec[index])
        } else {
            None
        }
    }

    /// The registered keys, in order.
    pub fn vec(&self) -> (r: &Vec<String>)
        ensures
            Seq::new(r@.len(), |i: int| r@[i]@) == self@,
    {
        assert(Seq::new(self.vec@.len(), |i: int| self.vec@[i]@) =~= self@);
        &self.vec
    }
}

/// The last position of `peer` in `s`, or -1.
pub open spec fn last_peer_index(s: Seq<PeerID>, peer: PeerID) -> int
    decreases s.len(),
{
    if s.len() == 0 {
        -1
    } else if s.last() == peer {
        s.len() - 1
    } else {
        last_peer_index(s.drop_last(), peer)
    }
}

/// Registering `peer`: its index where it is already registered; otherwise
/// the next index, with the peer appended.
pub open spec fn register_peer(s: Seq<PeerID>, peer: PeerID) -> (nat, Seq<PeerID>) {
    let i = last_peer_index(s, peer);
    if i >= 0 {
        (i as nat, s)
    } else {
        (s.len(), s.push(peer))
    }
}

proof fn lemma_last_peer_index(s: Seq<PeerID>, peer: PeerID)
    ensures
        -1 <= last_peer_index(s, peer) < s.len(),
        last_peer_index(s, peer) >= 0 ==> s[last_peer_index(s, peer)] == peer,
    decreases s.len(),
{
    if s.len() > 0 && s.last() != peer {
        lemma_last_peer_index(s.drop_last(), peer);
    }
}

/// Registering a peer keeps what was registered and leaves the peer at the
/// returned index.
pub proof fn lemma_register_peer(s: Seq<PeerID>, peer: PeerID)
    ensures
        register_peer(s, peer).0 < register_peer(s, peer).1.len(),
        register_peer(s, peer).1[register_peer(s, peer).0 as int] == peer,
        s.len() <= register_peer(s, peer).1.len(),
        register_peer(s, peer).1.subrange(0, s.len() as int) == s,
{
    lemma_last_peer_index(s, peer);
    assert(register_peer(s, peer).1.subrange(0, s.len() as int) =~= s);
}

/// A register of peers, each given the index of its first registration.
#[derive(Debug)]
pub struct PeerRegister {
    vec: Vec<PeerID>,
}

impl View for PeerRegister {
    type V = Seq<PeerID>;

    closed spec fn view(&self) -> Seq<PeerID> {
        self.vec@
    }
}

impl PeerRegister {
    pub fn new() -> (r: PeerRegister)
        ensures
            r@ == Seq::<PeerID>::empty(),
    {
        PeerRegister { vec: Vec::new() }
    }

    /// Returns the index of `peer`; a peer not yet registered is appended
    /// and gets the next index.
    pub fn register(&mut self, peer: &PeerID) -> (r: usize)
        ensures
            (r as nat, final(self)@) == register_peer(old(self)@, *peer),
    {
        let ghost s = self@;
        let mut i: usize = self.vec.len();
        assert(s.take(i as int) =~= s);
        while i > 0
            invariant
                i <= self.vec@.len(),
                s == self@,
                s == old(self)@,
                last_peer_index(s, *peer) == last_peer_index(s.take(i as int), *peer),
            decreases i,
        {
            assert(s.take(i as int).last() == self.vec@[i - 1]);
            if self.vec[i - 1] == *peer {
                return i - 1;
            }
            assert(s.take(i as int).drop_last() =~= s.take(i - 1));
            i -= 1;
        }
        let idx = self.vec.len();
        self.vec.push(*peer);
        idx
    }

    /// The registered peers, in order.
    pub fn unwrap_vec(self) -> (r: Vec<PeerID>)
        ensures
            r@ == self@,
    {
        self.vec
    }
}

} // verus!
