//! Putting tiles into the order in which they are drawn.
use vstd::prelude::*;

use crate::tiles::TileKey;

verus! {

/// The entries at a distance, in their order.
pub open spec fn at_distance(s: Seq<(TileKey, i32)>, d: i32) -> Seq<(TileKey, i32)>
    decreases s.len(),
{
    if s.len() == 0 {
        seq![]
    } else if s.last().1 == d {
        at_distance(s.drop_last(), d).push(s.last())
    } else {
        at_distance(s.drop_last(), d)
    }
}

/// Whether no entry is nearer than one before it.
pub open spec fn goes_outward(s: Seq<(TileKey, i32)>) -> bool {
    forall|i: int, j: int| 0 <= i <= j < s.len() ==> (#[trigger] s[i]).1 <= (#[trigger] s[j]).1
}

/// The entries at a distance in two lists, one after another.
proof fn at_distance_joined(a: Seq<(TileKey, i32)>, b: Seq<(TileKey, i32)>, d: i32)
    ensures
        at_distance(a + b, d) == at_distance(a, d) + at_distance(b, d),
    decreases b.len(),
{
    if b.len() == 0 {
        assert(a + b =~= a);
        assert(at_distance(a, d) + at_distance(b, d) =~= at_distance(a, d));
    } else {
        assert((a + b).drop_last() =~= a + b.drop_last());
        at_distance_joined(a, b.drop_last(), d);
        assert(at_distance(a + b, d) =~= at_distance(a, d) + at_distance(b, d));
    }
}

/// Nothing is at a distance that no entry has.
proof fn nothing_at_distance(s: Seq<(TileKey, i32)>, d: i32)
    requires
        forall|i: int| 0 <= i < s.len() ==> (#[trigger] s[i]).1 != d,
    ensures
        at_distance(s, d) == Seq::<(TileKey, i32)>::empty(),
    decreases s.len(),
{
    if s.len() > 0 {
        assert(s.last() == s[s.len() - 1]);
        assert forall|i: int| 0 <= i < s.drop_last().len() implies (#[trigger] s.drop_last()[i]).1
            != d by {
            assert(s.drop_last()[i] == s[i]);
        }
        nothing_at_distance(s.drop_last(), d);
    }
}

/// The magnitude of a number that is stored as a sign and a magnitude.
pub open spec fn magnitude(bits: u32) -> int {
    if bits < 0x8000_0000 {
        bits as int
    } else {
        bits - 0x8000_0000
    }
}

/// Whether a number that is stored as a sign and a magnitude comes before another: the negative
/// ones come first, from the largest magnitude on, then the others.
pub open spec fn comes_before(a: u32, b: u32) -> bool {
    if a >= 0x8000_0000 && b >= 0x8000_0000 {
        magnitude(a) > magnitude(b)
    } else if a < 0x8000_0000 && b < 0x8000_0000 {
        magnitude(a) < magnitude(b)
    } else {
        a >= 0x8000_0000
    }
}

/// The rank of a number that is stored as a sign and a magnitude: the magnitude itself, or, below
/// zero, one less than its negative.
pub open spec fn rank(bits: u32) -> int {
    if bits < 0x8000_0000 {
        magnitude(bits)
    } else {
        -magnitude(bits) - 1
    }
}

/// The rank of a distance that is stored as a sign and a magnitude, as the bits of a floating point
/// number are.
pub fn distance_rank(bits: u32) -> (r: i32)
    ensures
        r == rank(bits),
{
    if bits < 0x8000_0000 {
        bits as i32
    } else {
        (-((bits - 0x8000_0000) as i64) - 1) as i32
    }
}

/// Ranks order as the numbers do, and different numbers have different ranks.
pub proof fn ranks_order_as_the_numbers_do(a: u32, b: u32)
    ensures
        rank(a) < rank(b) <==> comes_before(a, b),
        rank(a) == rank(b) <==> a == b,
{
}

/// The place of a new entry: after those that are not farther away.
fn place_for(s: &Vec<(TileKey, i32)>, d: i32) -> (p: usize)
    requires
        goes_outward(s@),
    ensures
        p <= s@.len(),
        forall|i: int| 0 <= i < p ==> (#[trigger] s@[i]).1 <= d,
        forall|i: int| p <= i < s@.len() ==> (#[trigger] s@[i]).1 > d,
{
    let mut p: usize = s.len();
    while p > 0 && s[p - 1].1 > d
        invariant
            p <= s@.len(),
            goes_outward(s@),
            forall|i: int| p <= i < s@.len() ==> (#[trigger] s@[i]).1 > d,
        decreases p,
    {
        p = p - 1;
    }
    p
}

/// A new entry comes after those at its distance.
proof fn placing_keeps_order(s: Seq<(TileKey, i32)>, e: (TileKey, i32), p: int)
    requires
        goes_outward(s),
        0 <= p <= s.len(),
        forall|i: int| 0 <= i < p ==> (#[trigger] s[i]).1 <= e.1,
        forall|i: int| p <= i < s.len() ==> (#[trigger] s[i]).1 > e.1,
    ensures
        goes_outward(s.insert(p, e)),
        forall|d: i32| #[trigger] at_distance(s.insert(p, e), d) == at_distance(s.push(e), d),
{
    let after = s.insert(p, e);
    let a = s.take(p);
    let b = s.skip(p);
    let one = seq![e];
    assert(after =~= a + one + b);
    assert(s =~= a + b);
    assert(s.push(e) =~= s + one);
    assert forall|d: i32| #[trigger] at_distance(after, d) == at_distance(s.push(e), d) by {
        at_distance_joined(a + one, b, d);
        at_distance_joined(a, one, d);
        at_distance_joined(s, one, d);
        at_distance_joined(a, b, d);
        assert(one.drop_last() =~= seq![]);
        if d == e.1 {
            nothing_at_distance(b, d);
        } else {
            nothing_at_distance(one, d);
        }
        assert(at_distance(after, d) =~= at_distance(s.push(e), d));
    }
}

/// The entries, nearest first. Those at one distance keep their order.
pub fn nearest_first(keys: &Vec<(TileKey, i32)>) -> (r: Vec<(TileKey, i32)>)
    ensures
        goes_outward(r@),
        forall|d: i32| #[trigger] at_distance(r@, d) == at_distance(keys@, d),
{
    let mut r: Vec<(TileKey, i32)> = Vec::new();
    let mut i: usize = 0;
    assert(keys@.take(0) =~= r@);
    while i < keys.len()
        invariant
            i <= keys@.len(),
            goes_outward(r@),
            forall|d: i32| #[trigger]
                at_distance(r@, d) == at_distance(keys@.take(i as int), d),
        decreases keys@.len() - i,
    {
        let e = keys[i];
        let p: usize = place_for(&r, e.1);
        proof {
            let before = r@;
            placing_keeps_order(before, e, p as int);
            assert(keys@.take(i + 1) =~= keys@.take(i as int).push(e));
            assert forall|d: i32| #[trigger]
                at_distance(before.insert(p as int, e), d) == at_distance(keys@.take(i + 1), d) by {
                assert(before.push(e).drop_last() =~= before);
                assert(keys@.take(i as int).push(e).drop_last() =~= keys@.take(i as int));
                assert(at_distance(before, d) == at_distance(keys@.take(i as int), d));
            }
        }
        r.insert(p, e);
        i = i + 1;
    }
    assert(keys@.take(i as int) =~= keys@);
    r
}

/// There is only one list that goes outward and keeps the order at every distance.
pub proof fn the_order_is_unique(a: Seq<(TileKey, i32)>, b: Seq<(TileKey, i32)>)
    requires
        goes_outward(a),
        goes_outward(b),
        forall|d: i32| #[trigger] at_distance(a, d) == at_distance(b, d),
    ensures
        a == b,
    decreases a.len(),
{
    if a.len() == 0 {
        if b.len() > 0 {
            assert(at_distance(a, b.last().1) == at_distance(b, b.last().1));
        }
    } else if b.len() == 0 {
        assert(at_distance(a, a.last().1) == at_distance(b, a.last().1));
    } else {
        let m = a.last().1;
        let n = b.last().1;
        assert(at_distance(a, m) == at_distance(b, m));
        assert(at_distance(a, n) == at_distance(b, n));
        if m != n {
            if m > n {
                nothing_at_distance_after(b, m);
            } else {
                nothing_at_distance_after(a, n);
            }
        }
        assert(at_distance(a, m).last() == at_distance(b, m).last());
        assert(a.last() == b.last());
        let c = a.drop_last();
        let d = b.drop_last();
        assert forall|r: i32| #[trigger] at_distance(c, r) == at_distance(d, r) by {
            assert(at_distance(a, r) == at_distance(b, r));
            if r == m {
                assert(at_distance(a, r).drop_last() =~= at_distance(c, r));
                assert(at_distance(b, r).drop_last() =~= at_distance(d, r));
            }
        }
        assert forall|i: int, j: int| 0 <= i <= j < c.len() implies (#[trigger] c[i]).1 <= (
        #[trigger] c[j]).1 by {
            assert(c[i] == a[i] && c[j] == a[j]);
        }
        assert forall|i: int, j: int| 0 <= i <= j < d.len() implies (#[trigger] d[i]).1 <= (
        #[trigger] d[j]).1 by {
            assert(d[i] == b[i] && d[j] == b[j]);
        }
        the_order_is_unique(c, d);
        assert(a =~= c.push(a.last()));
        assert(b =~= d.push(b.last()));
    }
}

/// Nothing is farther away than the last entry.
proof fn nothing_at_distance_after(s: Seq<(TileKey, i32)>, d: i32)
    requires
        goes_outward(s),
        s.len() > 0,
        d > s.last().1,
    ensures
        at_distance(s, d) == Seq::<(TileKey, i32)>::empty(),
{
    assert forall|i: int| 0 <= i < s.len() implies (#[trigger] s[i]).1 != d by {
        assert(s[i].1 <= s[s.len() - 1].1);
    }
    nothing_at_distance(s, d);
}

} // verus!
