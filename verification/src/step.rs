//! The jump distance used when probing the reference stream.

use vstd::prelude::*;

verus! {

/// The largest `r` with `r * r <= n`.
pub open spec fn is_floor_sqrt(n: int, r: int) -> bool {
    &&& 0 <= r
    &&& r * r <= n
    &&& n < (r + 1) * (r + 1)
}

/// Integer square root, rounded down.
pub fn floor_sqrt(n: u64) -> (r: u64)
    ensures
        is_floor_sqrt(n as int, r as int),
{
    let mut lo: u64 = 0;
    let mut hi: u64 = 4294967296;
    assert(hi * hi > n) by (nonlinear_arith)
        requires
            hi == 4294967296,
            n <= u64::MAX,
    ;
    while hi - lo > 1
        invariant
            lo < hi <= 4294967296,
            lo * lo <= n,
            hi * hi > n,
        decreases hi - lo,
    {
        let mid: u64 = lo + (hi - lo) / 2;
        assert(mid * mid <= 4294967296 * 4294967296) by (nonlinear_arith)
            requires
                mid <= 4294967296,
        ;
        let sq: u128 = (mid as u128) * (mid as u128);
        if sq <= n as u128 {
            lo = mid;
        } else {
            hi = mid;
        }
    }
    lo
}

/// Only one number is the rounded-down square root of `n`.
pub proof fn lemma_floor_sqrt_unique(n: int, a: int, b: int)
    requires
        is_floor_sqrt(n, a),
        is_floor_sqrt(n, b),
    ensures
        a == b,
{
    if a < b {
        assert((a + 1) * (a + 1) <= b * b) by (nonlinear_arith)
            requires
                0 <= a + 1 <= b,
        ;
    }
    if b < a {
        assert((b + 1) * (b + 1) <= a * a) by (nonlinear_arith)
            requires
                0 <= b + 1 <= a,
        ;
    }
}

/// `r` is the jump distance for a stream of `length` bytes: the square root
/// of the length, rounded down, and at least one byte.
pub open spec fn is_stride_for(length: u64, r: u64) -> bool {
    if length == 0 {
        r == 1
    } else {
        is_floor_sqrt(length as int, r as int)
    }
}

/// The jump distance for a stream of `length` bytes.
pub open spec fn stride_for(length: u64) -> u64 {
    choose|r: u64| is_stride_for(length, r)
}

/// The jump distance for a stream of `length` bytes.
pub fn jump_distance(length: u64) -> (r: u64)
    ensures
        is_stride_for(length, r),
        r == stride_for(length),
        r >= 1,
{
    let root = floor_sqrt(length);
    proof {
        let r: u64 = if root < 1 { 1 } else { root };
        let chosen = stride_for(length);
        if length != 0 {
            assert(is_stride_for(length, root));
            lemma_floor_sqrt_unique(length as int, root as int, chosen as int);
        } else {
            assert(is_stride_for(length, 1));
        }
    }
    proof {
        if root >= 1 {
            assert(root * root >= 1) by (nonlinear_arith)
                requires
                    root >= 1,
            ;
        } else {
            assert((root + 1) * (root + 1) == 1) by (nonlinear_arith)
                requires
                    root == 0,
            ;
        }
    }
    if root < 1 {
        1
    } else {
        root
    }
}

} // verus!
