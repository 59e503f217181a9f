//! Arenas of the columnar format: tree positions stored as deltas against
//! the position before them.
use vstd::prelude::*;
use vstd::slice::slice_to_vec;

verus! {

/// The length of the longest common prefix of `a` and `b`.
pub open spec fn common_prefix_len(a: Seq<u8>, b: Seq<u8>) -> nat
    decreases a.len(),
{
    if a.len() == 0 || b.len() == 0 || a[0] != b[0] {
        0
    } else {
        1 + common_prefix_len(a.drop_first(), b.drop_first())
    }
}

/// `common_prefix_len` is the one length up to which `a` and `b` agree and
/// after which they differ or one of them ends.
pub proof fn lemma_common_prefix_len(a: Seq<u8>, b: Seq<u8>)
    ensures
        common_prefix_len(a, b) <= a.len(),
        common_prefix_len(a, b) <= b.len(),
        forall|j: int| 0 <= j < common_prefix_len(a, b) ==> a[j] == b[j],
        common_prefix_len(a, b) < a.len() && common_prefix_len(a, b) < b.len() ==> a[common_prefix_len(
            a,
            b,
        ) as int] != b[common_prefix_len(a, b) as int],
    decreases a.len(),
{
    if !(a.len() == 0 || b.len() == 0 || a[0] != b[0]) {
        lemma_common_prefix_len(a.drop_first(), b.drop_first());
        let n = common_prefix_len(a, b);
        assert forall|j: int| 0 <= j < n implies a[j] == b[j] by {
            if j > 0 {
                assert(a[j] == a.drop_first()[j - 1]);
                assert(b[j] == b.drop_first()[j - 1]);
            }
        }
    }
}

/// The number of leading bytes on which `a` and `b` agree.
pub fn longest_common_prefix_length(a: &[u8], b: &[u8]) -> (n: usize)
    ensures
        n == common_prefix_len(a@, b@),
{
    let mut i: usize = 0;
    while i < a.len() && i < b.len() && a[i] == b[i]
        invariant
            i <= a@.len(),
            i <= b@.len(),
            forall|j: int| 0 <= j < i ==> a@[j] == b@[j],
        decreases a.len() - i,
    {
        i += 1;
    }
    proof {
        lemma_common_prefix_len(a@, b@);
        let c = common_prefix_len(a@, b@);
        if c < i {
            assert(a@[c as int] == b@[c as int]);
        }
        if i < c {
            assert(a@[i as int] == b@[i as int]);
        }
    }
    i
}

/// A position stored as the length of the prefix it shares with the
/// position before it and the bytes that follow that prefix.
#[derive(Debug, Clone)]
pub struct PositionDelta {
    pub common_prefix_length: usize,
    pub rest: Vec<u8>,
}

/// A run of positions, each stored against the one before it.
#[derive(Debug, Clone)]
pub struct PositionArena {
    pub positions: Vec<PositionDelta>,
}

impl View for PositionArena {
    type V = Seq<(nat, Seq<u8>)>;

    open spec fn view(&self) -> Seq<(nat, Seq<u8>)> {
        Seq::new(
            self.positions@.len(),
            |i: int| (self.positions@[i].common_prefix_length as nat, self.positions@[i].rest@),
        )
    }
}

/// The deltas of a run of positions: each against the position before
/// it, the first against the empty one.
pub open spec fn position_deltas(ps: Seq<Seq<u8>>) -> Seq<(nat, Seq<u8>)> {
    Seq::new(
        ps.len(),
        |i: int|
            {
                let prev = if i == 0 {
                    Seq::<u8>::empty()
                } else {
                    ps[i - 1]
                };
                let c = common_prefix_len(prev, ps[i]);
                (c, ps[i].skip(c as int))
            },
    )
}

/// The positions a run of deltas stands for; the prefix length of the
/// first delta is ignored.
pub open spec fn delta_positions(d: Seq<(nat, Seq<u8>)>) -> Seq<Seq<u8>>
    decreases d.len(),
{
    if d.len() == 0 {
        Seq::empty()
    } else {
        let prev = delta_positions(d.drop_last());
        let c = d.last().0;
        let r = d.last().1;
        let p = if prev.len() == 0 {
            r
        } else {
            prev.last().take(c as int) + r
        };
        prev.push(p)
    }
}

/// Every delta after the first shares no more than the whole position
/// before it.
pub open spec fn deltas_decodable(d: Seq<(nat, Seq<u8>)>) -> bool
    decreases d.len(),
{
    if d.len() == 0 {
        true
    } else {
        &&& deltas_decodable(d.drop_last())
        &&& (d.len() > 1 ==> d.last().0 <= delta_positions(d.drop_last()).last().len())
    }
}

pub proof fn lemma_delta_positions_len(d: Seq<(nat, Seq<u8>)>)
    ensures
        delta_positions(d).len() == d.len(),
    decreases d.len(),
{
    if d.len() > 0 {
        lemma_delta_positions_len(d.drop_last());
    }
}

/// Storing positions as deltas and reading the deltas back gives the same
/// positions, and the deltas can always be read back.
pub proof fn lemma_position_deltas_roundtrip(ps: Seq<Seq<u8>>)
    ensures
        deltas_decodable(position_deltas(ps)),
        delta_positions(position_deltas(ps)) == ps,
    decreases ps.len(),
{
    let d = position_deltas(ps);
    if ps.len() > 0 {
        let n = ps.len() - 1;
        let init = ps.drop_last();
        assert(d.drop_last() =~= position_deltas(init));
        lemma_position_deltas_roundtrip(init);
        lemma_delta_positions_len(d.drop_last());
        let c = d.last().0;
        if n == 0 {
            assert(c == 0);
            assert(ps[0].skip(0) =~= ps[0]);
            assert(delta_positions(d) =~= ps);
        } else {
            lemma_common_prefix_len(ps[n - 1], ps[n]);
            assert(ps[n - 1].take(c as int) + ps[n].skip(c as int) =~= ps[n]);
            assert(delta_positions(d) =~= ps);
        }
    }
}

/// Copies of `src[from..to]`.
fn copy_range(src: &[u8], from: usize, to: usize) -> (r: Vec<u8>)
    requires
        from <= to <= src@.len(),
    ensures
        r@ == src@.subrange(from as int, to as int),
{
    slice_to_vec(&src[from..to])
}

impl PositionArena {
    /// Stores each position as the prefix it shares with the one before it
    /// and the bytes after that prefix.
    pub fn from_positions(positions: &[Vec<u8>]) -> (r: PositionArena)
        ensures
            r@ == position_deltas(positions@.map_values(|p: Vec<u8>| p@)),
    {
        let ghost ps = positions@.map_values(|p: Vec<u8>| p@);
        let mut ans: Vec<PositionDelta> = Vec::new();
        let mut i: usize = 0;
        while i < positions.len()
            invariant
                i <= positions@.len(),
                ps == positions@.map_values(|p: Vec<u8>| p@),
                ans@.len() == i,
                forall|j: int|
                    0 <= j < i ==> (#[trigger] ans@[j]).common_prefix_length as nat
                        == position_deltas(ps)[j].0 && ans@[j].rest@ == position_deltas(ps)[j].1,
            decreases positions.len() - i,
        {
            let p = positions[i].as_slice();
            let common = if i == 0 {
                0
            } else {
                longest_common_prefix_length(positions[i - 1].as_slice(), p)
            };
            proof {
                lemma_common_prefix_len(
                    if i == 0 {
                        Seq::<u8>::empty()
                    } else {
                        ps[i - 1]
                    },
                    ps[i as int],
                );
            }
            let rest = copy_range(p, common, p.len());
            ans.push(PositionDelta { common_prefix_length: common, rest });
            i += 1;
        }
        let r = PositionArena { positions: ans };
        assert(r@ =~= position_deltas(ps));
        r
    }

    /// Rebuilds the positions from their deltas. Each delta after the first
    /// must share no more than the whole position before it.
    pub fn parse_to_positions(self) -> (r: Vec<Vec<u8>>)
        requires
            deltas_decodable(self@),
        ensures
            r@.map_values(|p: Vec<u8>| p@) == delta_positions(self@),
    {
        let ghost d = self@;
        let mut ans: Vec<Vec<u8>> = Vec::new();
        let mut i: usize = 0;
        while i < self.positions.len()
            invariant
                i <= self.positions@.len(),
                d == self@,
                deltas_decodable(d),
                ans@.map_values(|p: Vec<u8>| p@) == delta_positions(d.take(i as int)),
            decreases self.positions.len() - i,
        {
            let delta = &self.positions[i];
            let c = delta.common_prefix_length;
            proof {
                let t = d.take(i as int + 1);
                assert(t.drop_last() =~= d.take(i as int));
                assert(t.last() == d[i as int]);
                lemma_deltas_decodable_prefix(d, i as int + 1);
                lemma_delta_positions_len(d.take(i as int));
            }
            let mut p: Vec<u8> = if ans.len() == 0 {
                Vec::new()
            } else {
                let last = ans[ans.len() - 1].as_slice();
                proof {
                    assert(last@ == ans@.map_values(|p: Vec<u8>| p@)[ans.len() - 1]);
                }
                copy_range(last, 0, c)
            };
            let mut r = copy_range(delta.rest.as_slice(), 0, delta.rest.len());
            assert(r@ =~= d[i as int].1);
            p.append(&mut r);
            let ghost before = ans@.map_values(|p: Vec<u8>| p@);
            let ghost t = d.take(i as int + 1);
            proof {
                assert(t.drop_last() =~= d.take(i as int));
                let prev = delta_positions(t.drop_last());
                assert(prev == before);
                if before.len() > 0 {
                    assert(p@ =~= prev.last().take(c as int) + d[i as int].1);
                } else {
                    assert(p@ =~= d[i as int].1);
                }
            }
            ans.push(p);
            i += 1;
            proof {
                assert(ans@.map_values(|p: Vec<u8>| p@) =~= before.push(p@));
                assert(ans@.map_values(|p: Vec<u8>| p@) =~= delta_positions(t));
            }
        }
        assert(d.take(i as int) =~= d);
        ans
    }
}

/// Every prefix of decodable deltas is decodable.
proof fn lemma_deltas_decodable_prefix(d: Seq<(nat, Seq<u8>)>, k: int)
    requires
        deltas_decodable(d),
        0 <= k <= d.len(),
    ensures
        deltas_decodable(d.take(k)),
    decreases d.len(),
{
    if k < d.len() {
        assert(d.drop_last().take(k) =~= d.take(k));
        lemma_deltas_decodable_prefix(d.drop_last(), k);
    } else {
        assert(d.take(k) =~= d);
    }
}

/// Reading back the deltas of any run of positions gives the positions.
pub proof fn lemma_position_arena_roundtrip(positions: Seq<Vec<u8>>, arena: PositionArena)
    requires
        arena@ == position_deltas(positions.map_values(|p: Vec<u8>| p@)),
    ensures
        deltas_decodable(arena@),
        delta_positions(arena@) == positions.map_values(|p: Vec<u8>| p@),
{
    lemma_position_deltas_roundtrip(positions.map_values(|p: Vec<u8>| p@));
}

} // verus!
