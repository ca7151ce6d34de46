//! Collision pairs between two bodies and their order-independent identity.
use vstd::prelude::*;

use crate::pairing::{isqrt, lemma_szudzik_inverse, spec_isqrt, szudzik, unszudzik_with_root};
use crate::{Frame, Id, PairId};

verus! {

/// The identity of the unordered pair `{a, b}`: Szudzik's pairing of the
/// larger id with the smaller.
pub open spec fn spec_pair_id(a: Id, b: Id) -> nat {
    if a >= b {
        szudzik(a as nat, b as nat)
    } else {
        szudzik(b as nat, a as nat)
    }
}

/// What `unpair_id` returns: the two components of the inverse pairing,
/// each reduced to the width of an id.
pub open spec fn spec_unpair_id(id: nat) -> (nat, nat) {
    let (x, y) = unszudzik_with_root(id, spec_isqrt(id));
    (x % 0x1_0000, y % 0x1_0000)
}

/// A manifold between two bodies, generated at step `frame`. Its identity
/// does not depend on the order of `body_a` and `body_b`.
pub struct CollisionPair {
    pub body_a: Id,
    pub body_b: Id,
    pub frame: Frame,
}

impl CollisionPair {
    /// The identity of this pair.
    pub open spec fn spec_id(&self) -> nat {
        spec_pair_id(self.body_a, self.body_b)
    }

    /// The order-independent identity of the pair `{x, y}`.
    pub fn pair_id(x: Id, y: Id) -> (r: PairId)
        ensures
            r as nat == spec_pair_id(x, y),
    {
        let (hi, lo): (u64, u64) = if x >= y {
            (x as u64, y as u64)
        } else {
            (y as u64, x as u64)
        };
        assert(hi * hi <= 0xffff * 0xffff) by (nonlinear_arith)
            requires
                hi <= 0xffff,
        ;
        hi * hi + hi + lo
    }

    /// The two ids that `pair_id` combined, the larger first.
    pub fn unpair_id(id: PairId) -> (r: (Id, Id))
        ensures
            (r.0 as nat, r.1 as nat) == spec_unpair_id(id as nat),
    {
        let z = isqrt(id);
        let l: u64 = id - z * z;
        if l < z {
            ((l % 0x1_0000) as Id, (z % 0x1_0000) as Id)
        } else {
            assert((l - z) as nat == (id as nat - (z as nat) * (z as nat)) - z as nat);
            ((z % 0x1_0000) as Id, ((l - z) % 0x1_0000) as Id)
        }
    }

    /// The identity of this pair.
    pub fn id(&self) -> (r: PairId)
        ensures
            r as nat == self.spec_id(),
    {
        CollisionPair::pair_id(self.body_a, self.body_b)
    }

    /// A pair is valid at `frame` unless it was generated before it.
    pub fn is_valid(&self, frame: Frame) -> (r: bool)
        ensures
            r == (self.frame >= frame),
    {
        self.frame >= frame
    }
}

/// The identity of a pair does not depend on the order of its ids.
pub proof fn lemma_pair_id_symmetric(a: Id, b: Id)
    ensures
        spec_pair_id(a, b) == spec_pair_id(b, a),
{
}

/// Unpairing the identity of `{a, b}` gives the two ids back, the larger
/// first.
pub proof fn lemma_unpair_pair_id(a: Id, b: Id)
    ensures
        spec_unpair_id(spec_pair_id(a, b)) == (if a >= b {
            (a as nat, b as nat)
        } else {
            (b as nat, a as nat)
        }),
{
    let (hi, lo): (nat, nat) = if a >= b {
        (a as nat, b as nat)
    } else {
        (b as nat, a as nat)
    };
    let n = szudzik(hi, lo);
    assert(hi * hi + hi + lo < (hi + 1) * (hi + 1)) by (nonlinear_arith)
        requires
            lo <= hi,
    ;
    crate::pairing::lemma_spec_isqrt(n, hi);
    lemma_szudzik_inverse(hi, lo, spec_isqrt(n));
}

/// Two pairs have the same identity exactly when they join the same two ids.
pub proof fn lemma_pair_id_injective(a: Id, b: Id, c: Id, d: Id)
    ensures
        spec_pair_id(a, b) == spec_pair_id(c, d) <==> ((a == c && b == d) || (a == d && b == c)),
{
    lemma_unpair_pair_id(a, b);
    lemma_unpair_pair_id(c, d);
}

} // verus!
