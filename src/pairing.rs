//! Szudzik's elegant pairing of two naturals, and its inverse through an
//! integer square root.
use vstd::prelude::*;

verus! {

/// Szudzik's pairing of `(x, y)`: `x² + x + y` when `x ≥ y`, else `y² + x`.
pub open spec fn szudzik(x: nat, y: nat) -> nat {
    if x >= y {
        x * x + x + y
    } else {
        y * y + x
    }
}

/// Inverse of `szudzik`, given `z`, the integer square root of `n`.
pub open spec fn unszudzik_with_root(n: nat, z: nat) -> (nat, nat) {
    let l = n - z * z;
    if l < z {
        (l as nat, z)
    } else {
        (z, (l - z) as nat)
    }
}

/// `r` is the integer square root of `n`.
pub open spec fn is_isqrt(n: nat, r: nat) -> bool {
    r * r <= n < (r + 1) * (r + 1)
}

/// The integer square root is unique.
pub proof fn lemma_isqrt_unique(n: nat, r: nat, s: nat)
    requires
        is_isqrt(n, r),
        is_isqrt(n, s),
    ensures
        r == s,
{
    if r < s {
        assert((r + 1) * (r + 1) <= s * s) by (nonlinear_arith)
            requires
                r + 1 <= s,
        ;
    } else if s < r {
        assert((s + 1) * (s + 1) <= r * r) by (nonlinear_arith)
            requires
                s + 1 <= r,
        ;
    }
}

/// The integer square root of `szudzik(x, y)` is `max(x, y)`, and unpairing
/// with it gives `(x, y)` back.
pub proof fn lemma_szudzik_inverse(x: nat, y: nat, z: nat)
    requires
        is_isqrt(szudzik(x, y), z),
    ensures
        z == (if x >= y { x } else { y }),
        unszudzik_with_root(szudzik(x, y), z) == (x, y),
{
    let m: nat = if x >= y { x } else { y };
    if x >= y {
        assert(x * x + x + y < (x + 1) * (x + 1)) by (nonlinear_arith)
            requires
                y <= x,
        ;
    } else {
        assert(y * y + x < (y + 1) * (y + 1)) by (nonlinear_arith)
            requires
                x < y,
        ;
    }
    assert(is_isqrt(szudzik(x, y), m));
    lemma_isqrt_unique(szudzik(x, y), z, m);
}

/// The integer square root of `n`.
pub open spec fn spec_isqrt(n: nat) -> nat {
    choose|r: nat| is_isqrt(n, r)
}

/// `spec_isqrt` is the unique integer square root wherever one is known.
pub proof fn lemma_spec_isqrt(n: nat, r: nat)
    requires
        is_isqrt(n, r),
    ensures
        spec_isqrt(n) == r,
{
    let s = spec_isqrt(n);
    assert(is_isqrt(n, s));
    lemma_isqrt_unique(n, r, s);
}

/// Integer square root of a 64-bit value, by bisection.
pub fn isqrt(n: u64) -> (r: u64)
    ensures
        is_isqrt(n as nat, r as nat),
        r as nat == spec_isqrt(n as nat),
        r < 0x1_0000_0000,
{
    let mut lo: u64 = 0;
    let mut hi: u64 = 0x1_0000_0000;
    assert((hi as nat) * (hi as nat) == 0x1_0000_0000_0000_0000) by (nonlinear_arith)
        requires
            hi == 0x1_0000_0000,
    ;
    while hi - lo > 1
        invariant
            lo < hi <= 0x1_0000_0000,
            (lo as nat) * (lo as nat) <= n as nat,
            (n as nat) < (hi as nat) * (hi as nat),
        decreases hi - lo,
    {
        let mid: u64 = lo + (hi - lo) / 2;
        assert((mid as nat) * (mid as nat) < 0x1_0000_0000_0000_0000) by (nonlinear_arith)
            requires
                mid < 0x1_0000_0000,
        ;
        if mid * mid <= n {
            lo = mid;
        } else {
            hi = mid;
        }
    }
    assert(hi == lo + 1);
    proof {
        lemma_spec_isqrt(n as nat, lo as nat);
    }
    lo
}

} // verus!
