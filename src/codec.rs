//! The pairing codec: two concept identifiers folded into one edge key with
//! the elegant pairing function, and the key unfolded again.

use vstd::prelude::*;

verus! {

/// The elegant pairing of the ordered pair `(x, y)`.
pub open spec fn elegant(x: int, y: int) -> int {
    if x >= y {
        x * x + x + y
    } else {
        y * y + x
    }
}

/// `q` is the integer square root of `z`, rounded down.
pub open spec fn is_floor_sqrt(q: int, z: int) -> bool {
    0 <= q && q * q <= z && z < (q + 1) * (q + 1)
}

/// The integer square root of `z`, rounded down.
pub open spec fn floor_sqrt(z: nat) -> nat {
    choose|q: nat| is_floor_sqrt(q as int, z as int)
}

/// The inverse of the elegant pairing.
pub open spec fn unpair(z: nat) -> (nat, nat) {
    let q = floor_sqrt(z);
    let l = (z - q * q) as nat;
    if l < q {
        (l, q)
    } else {
        (q, (l - q) as nat)
    }
}

/// The smaller and the larger of two concept identifiers.
pub open spec fn ordered(a: u64, b: u64) -> (u64, u64) {
    if a <= b {
        (a, b)
    } else {
        (b, a)
    }
}

/// The key of the edge between two concepts: the pairing of the smaller with
/// the larger, so that the order of the two concepts does not matter.
pub open spec fn edge_key(a: u64, b: u64) -> int {
    elegant(ordered(a, b).0 as int, ordered(a, b).1 as int)
}

/// The edge key of `a` and `b` is representable as a `u64`.
pub open spec fn edge_key_fits(a: u64, b: u64) -> bool {
    edge_key(a, b) <= u64::MAX as int
}

proof fn lemma_floor_sqrt_unique(q: int, z: int)
    requires
        is_floor_sqrt(q, z),
    ensures
        floor_sqrt(z as nat) == q,
{
    let r = floor_sqrt(z as nat);
    assert(is_floor_sqrt(q as nat as int, z));
    let r = r as int;
    assert(is_floor_sqrt(r, z));
    if r < q {
        assert((r + 1) * (r + 1) <= q * q) by (nonlinear_arith)
            requires
                0 <= r < q,
        ;
    } else if q < r {
        assert((q + 1) * (q + 1) <= r * r) by (nonlinear_arith)
            requires
                0 <= q < r,
        ;
    }
}

/// Unfolding a pairing gives back the pair that was folded.
pub proof fn lemma_unpair_elegant(x: nat, y: nat)
    ensures
        unpair(elegant(x as int, y as int) as nat) == (x, y),
{
    let z = elegant(x as int, y as int);
    if x >= y {
        assert(x * x <= z && z < (x + 1) * (x + 1)) by (nonlinear_arith)
            requires
                z == x * x + x + y,
                y <= x,
        ;
        lemma_floor_sqrt_unique(x as int, z);
    } else {
        assert(y * y <= z && z < (y + 1) * (y + 1)) by (nonlinear_arith)
            requires
                z == y * y + x,
                x < y,
        ;
        lemma_floor_sqrt_unique(y as int, z);
    }
}

/// Pairing round trip: the edge key of two concepts does not depend on their
/// order, unfolding it gives back the two concepts, smaller first, and
/// folding those again gives the same key.
pub proof fn lemma_pairing_round_trip(a: u64, b: u64)
    ensures
        edge_key(a, b) == edge_key(b, a),
        unpair(edge_key(a, b) as nat) == (ordered(a, b).0 as nat, ordered(a, b).1 as nat),
        ordered(a, b).0 <= ordered(a, b).1,
        edge_key(ordered(a, b).0, ordered(a, b).1) == edge_key(a, b),
{
    lemma_unpair_elegant(ordered(a, b).0 as nat, ordered(a, b).1 as nat);
}

/// The elegant pairing of `(lo, hi)`, where `lo <= hi`, or `None` where it
/// would not fit in a `u64`.
fn checked_ordered_pair(lo: u64, hi: u64) -> (r: Option<u64>)
    requires
        lo <= hi,
    ensures
        r == (if elegant(lo as int, hi as int) <= u64::MAX as int {
            Some(elegant(lo as int, hi as int) as u64)
        } else {
            None::<u64>
        }),
{
    // with lo <= hi the pairing is hi * hi + lo, or hi * hi + 2 * hi where
    // the two are equal
    let extra = if lo == hi {
        hi
    } else {
        0u64
    };
    match hi.checked_mul(hi) {
        None => {
            assert(hi * hi <= elegant(lo as int, hi as int));
            None
        },
        Some(sq) => match sq.checked_add(extra) {
            None => None,
            Some(s) => s.checked_add(lo),
        },
    }
}

/// Folds concepts `a` and `b` into the key of their edge: the elegant
/// pairing of the smaller with the larger, so both orders give one key.
pub fn magic_pair(a: u64, b: u64) -> (r: u64)
    requires
        edge_key_fits(a, b),
    ensures
        r == edge_key(a, b),
{
    let (lo, hi) = if a <= b {
        (a, b)
    } else {
        (b, a)
    };
    if lo == hi {
        assert(hi * hi <= hi * hi + hi + lo);
        hi * hi + hi + lo
    } else {
        assert(hi * hi <= hi * hi + lo);
        hi * hi + lo
    }
}

/// The key of the edge between `a` and `b`, as `magic_pair` gives it, or
/// `None` where it would not fit in a `u64`.
pub fn checked_magic_pair(a: u64, b: u64) -> (r: Option<u64>)
    ensures
        r == (if edge_key_fits(a, b) {
            Some(edge_key(a, b) as u64)
        } else {
            None::<u64>
        }),
{
    if a <= b {
        checked_ordered_pair(a, b)
    } else {
        checked_ordered_pair(b, a)
    }
}

/// The integer square root of `z`, rounded down.
pub fn floor_sqrt_u64(z: u64) -> (q: u64)
    ensures
        is_floor_sqrt(q as int, z as int),
        q == floor_sqrt(z as nat),
{
    let mut lo: u64 = 0;
    let mut hi: u64 = 0x1_0000_0000;
    assert(z < hi * hi) by (nonlinear_arith)
        requires
            hi == 0x1_0000_0000,
            z <= u64::MAX,
    ;
    while hi - lo > 1
        invariant
            lo < hi <= 0x1_0000_0000,
            lo * lo <= z,
            z < hi * hi,
        decreases hi - lo,
    {
        let mid = lo + (hi - lo) / 2;
        assert(mid * mid <= 0xffff_ffff * 0xffff_ffff) by (nonlinear_arith)
            requires
                mid < 0x1_0000_0000,
        ;
        if mid * mid <= z {
            lo = mid;
        } else {
            hi = mid;
        }
    }
    assert(hi == lo + 1);
    proof {
        lemma_floor_sqrt_unique(lo as int, z as int);
    }
    lo
}

/// Unfolds a number made by `magic_pair` into the pair it was made from.
pub fn magic_unpair(z: u64) -> (r: (u64, u64))
    ensures
        (r.0 as nat, r.1 as nat) == unpair(z as nat),
{
    let q = floor_sqrt_u64(z);
    let l = z - q * q;
    if l < q {
        (l, q)
    } else {
        (q, l - q)
    }
}

} // verus!
