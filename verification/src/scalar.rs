//! Elements of the BLS12-381 scalar field `Fr`, held by their canonical
//! integer representative in four little-endian 64-bit limbs.
//!
//! Field arithmetic is delegated to the `bls_12_381` crate through trusted
//! wrappers; comparison and construction from small integers are verified
//! against the limb model directly.

use vstd::prelude::*;
use vstd::arithmetic::div_mod::*;

verus! {

/// The order of the BLS12-381 scalar field `Fr` (a ~255-bit prime).
pub open spec fn fr_order() -> nat {
    52435875175126190479447740508185965837690552500527637822603658699938581184513nat
}

/// 2^64, the radix of the limb representation.
pub open spec fn limb_radix() -> nat {
    0x1_0000_0000_0000_0000nat
}

/// 2^128.
pub open spec fn limb_radix_sq() -> nat {
    0x1_0000_0000_0000_0000_0000_0000_0000_0000nat
}

/// 2^192.
pub open spec fn limb_radix_cu() -> nat {
    0x1_0000_0000_0000_0000_0000_0000_0000_0000_0000_0000_0000_0000nat
}

/// 2^256.
pub open spec fn limb_radix_qu() -> nat {
    0x1_0000_0000_0000_0000_0000_0000_0000_0000_0000_0000_0000_0000_0000_0000_0000_0000nat
}

/// An element of `Fr`, stored as its canonical (fully reduced) integer
/// representative, little-endian in four 64-bit limbs.
#[derive(Clone, Copy, PartialEq, Eq, Structural, Debug, Hash)]
pub struct Scalar {
    pub l0: u64,
    pub l1: u64,
    pub l2: u64,
    pub l3: u64,
}

/// The scalar whose canonical representative is `v` (for `v < 2^256`):
/// the base-2^64 digit decomposition of `v`.
pub open spec fn scalar_from_nat(v: nat) -> Scalar {
    Scalar {
        l0: (v % limb_radix()) as u64,
        l1: ((v / limb_radix()) % limb_radix()) as u64,
        l2: ((v / limb_radix_sq()) % limb_radix()) as u64,
        l3: ((v / limb_radix_cu()) % limb_radix()) as u64,
    }
}

impl Scalar {
    /// The integer this scalar stands for.
    pub open spec fn value(self) -> nat {
        self.l0 as nat + self.l1 as nat * limb_radix() + self.l2 as nat * limb_radix_sq()
            + self.l3 as nat * limb_radix_cu()
    }

    /// A scalar is canonical when its representative is reduced mod the
    /// field order.
    pub open spec fn is_canonical(self) -> bool {
        self.value() < fr_order()
    }

    /// The additive identity.
    pub fn zero() -> (r: Scalar)
        ensures
            r.value() == 0,
            r.is_canonical(),
    {
        Scalar { l0: 0, l1: 0, l2: 0, l3: 0 }
    }

    /// The multiplicative identity.
    pub fn one() -> (r: Scalar)
        ensures
            r.value() == 1,
            r.is_canonical(),
    {
        Scalar { l0: 1, l1: 0, l2: 0, l3: 0 }
    }

    /// Embeds a machine integer into the field; every `u64` is below the
    /// field order, so the value carries over unchanged.
    pub fn from_u64(x: u64) -> (r: Scalar)
        ensures
            r.value() == x,
            r.is_canonical(),
    {
        Scalar { l0: x, l1: 0, l2: 0, l3: 0 }
    }

    /// Strict comparison of canonical representatives, limb-lexicographic
    /// from the most significant limb down.
    pub fn lt(&self, other: &Scalar) -> (r: bool)
        ensures
            r == (self.value() < other.value()),
    {
        proof {
            lemma_low_part_bound(*self);
            lemma_low_part_bound(*other);
        }
        if self.l3 != other.l3 {
            self.l3 < other.l3
        } else if self.l2 != other.l2 {
            self.l2 < other.l2
        } else if self.l1 != other.l1 {
            self.l1 < other.l1
        } else {
            self.l0 < other.l0
        }
    }

    /// Modular addition.
    ///
    /// Relies on `bls_12_381::Fr`'s `Add` impl (addition mod the field
    /// order on Montgomery forms); `to_mont_form` enters Montgomery form
    /// from a canonical representative and `to_bytes` leaves it.
    #[verifier::external_body]
    pub fn add(&self, rhs: &Scalar) -> (r: Scalar)
        requires
            self.is_canonical(),
            rhs.is_canonical(),
        ensures
            r.value() == (self.value() + rhs.value()) % fr_order(),
            r.is_canonical(),
    {
        let a = bls_12_381::Fr::to_mont_form([self.l0, self.l1, self.l2, self.l3]);
        let b = bls_12_381::Fr::to_mont_form([rhs.l0, rhs.l1, rhs.l2, rhs.l3]);
        let bytes = zkstd::common::SigUtils::to_bytes(a + b);
        Scalar {
            l0: u64::from_le_bytes(bytes[0..8].try_into().unwrap()),
            l1: u64::from_le_bytes(bytes[8..16].try_into().unwrap()),
            l2: u64::from_le_bytes(bytes[16..24].try_into().unwrap()),
            l3: u64::from_le_bytes(bytes[24..32].try_into().unwrap()),
        }
    }

    /// Modular multiplication.
    ///
    /// Relies on `bls_12_381::Fr`'s `Mul` impl (Montgomery multiplication
    /// mod the field order); `to_mont_form` enters Montgomery form from a
    /// canonical representative and `to_bytes` leaves it.
    #[verifier::external_body]
    pub fn mul(&self, rhs: &Scalar) -> (r: Scalar)
        requires
            self.is_canonical(),
            rhs.is_canonical(),
        ensures
            r.value() == (self.value() * rhs.value()) % fr_order(),
            r.is_canonical(),
    {
        let a = bls_12_381::Fr::to_mont_form([self.l0, self.l1, self.l2, self.l3]);
        let b = bls_12_381::Fr::to_mont_form([rhs.l0, rhs.l1, rhs.l2, rhs.l3]);
        let bytes = zkstd::common::SigUtils::to_bytes(a * b);
        Scalar {
            l0: u64::from_le_bytes(bytes[0..8].try_into().unwrap()),
            l1: u64::from_le_bytes(bytes[8..16].try_into().unwrap()),
            l2: u64::from_le_bytes(bytes[16..24].try_into().unwrap()),
            l3: u64::from_le_bytes(bytes[24..32].try_into().unwrap()),
        }
    }

    /// Multiplicative inverse.
    ///
    /// Relies on `bls_12_381::Fr`'s impl of zkstd's `Group::invert`:
    /// `None` exactly on zero, else the inverse mod the field order
    /// (the Fermat power `a^(p-2)`); `to_mont_form` enters Montgomery
    /// form from a canonical representative and `to_bytes` leaves it.
    #[verifier::external_body]
    pub fn invert(&self) -> (r: Option<Scalar>)
        requires
            self.is_canonical(),
        ensures
            r is Some <==> self.value() != 0,
            match r {
                Some(v) => (self.value() * v.value()) % fr_order() == 1 && v.is_canonical(),
                None => self.value() == 0,
            },
    {
        let a = bls_12_381::Fr::to_mont_form([self.l0, self.l1, self.l2, self.l3]);
        match zkstd::common::Group::invert(a) {
            None => None,
            Some(v) => {
                let b = zkstd::common::SigUtils::to_bytes(v);
                Some(Scalar {
                    l0: u64::from_le_bytes(b[0..8].try_into().unwrap()),
                    l1: u64::from_le_bytes(b[8..16].try_into().unwrap()),
                    l2: u64::from_le_bytes(b[16..24].try_into().unwrap()),
                    l3: u64::from_le_bytes(b[24..32].try_into().unwrap()),
                })
            },
        }
    }
}

/// The three low limbs together stay below 2^192, so the top limb decides
/// the order of two scalars whenever it differs.
proof fn lemma_low_part_bound(s: Scalar)
    ensures
        s.l0 as nat + s.l1 as nat * limb_radix() + s.l2 as nat * limb_radix_sq() < limb_radix_cu(),
        s.value() < limb_radix_qu(),
{
    assert(s.l0 as nat <= limb_radix() - 1);
    assert(s.l1 as nat * limb_radix() <= (limb_radix() - 1) * limb_radix());
    assert(s.l2 as nat * limb_radix_sq() <= (limb_radix() - 1) * limb_radix_sq());
    assert(s.l3 as nat * limb_radix_cu() <= (limb_radix() - 1) * limb_radix_cu());
}

/// The digit decomposition is a right inverse of `value`: decomposing any
/// `v < 2^256` yields a scalar standing for `v` itself.
pub proof fn lemma_scalar_from_nat_value(v: nat)
    requires
        v < limb_radix_qu(),
    ensures
        scalar_from_nat(v).value() == v,
{
    let b = limb_radix() as int;
    let vi = v as int;
    let q1 = vi / b;
    let q2 = vi / (limb_radix_sq() as int);
    let q3 = vi / (limb_radix_cu() as int);
    lemma_fundamental_div_mod(vi, b);
    lemma_div_denominator(vi, b, b);
    assert(q1 / b == q2);
    lemma_fundamental_div_mod(q1, b);
    lemma_div_denominator(vi, limb_radix_sq() as int, b);
    assert(q2 / b == q3);
    lemma_fundamental_div_mod(q2, b);
    lemma_fundamental_div_mod(vi, limb_radix_cu() as int);
    lemma_mod_bound(vi, limb_radix_cu() as int);
    assert(q3 < b);
    lemma_small_mod(q3 as nat, b as nat);
    lemma_mod_bound(vi, b);
    lemma_mod_bound(q1, b);
    lemma_mod_bound(q2, b);
    assert(scalar_from_nat(v).value() == (vi % b) + (q1 % b) * b + (q2 % b) * (limb_radix_sq()
        as int) + q3 * (limb_radix_cu() as int));
}

/// The digit decomposition is also a left inverse of `value`: a scalar is
/// recovered from its own representative, so `value` is injective.
pub proof fn lemma_scalar_from_nat_of_value(s: Scalar)
    ensures
        scalar_from_nat(s.value()) == s,
        s.value() < limb_radix_qu(),
{
    let b = limb_radix() as int;
    let v = s.value() as int;
    let k1 = s.l1 as int + s.l2 as int * b + s.l3 as int * (limb_radix_sq() as int);
    let k2 = s.l2 as int + s.l3 as int * b;
    lemma_low_part_bound(s);
    lemma_fundamental_div_mod_converse(v, b, k1, s.l0 as int);
    lemma_fundamental_div_mod_converse(k1, b, k2, s.l1 as int);
    lemma_fundamental_div_mod_converse(k2, b, s.l3 as int, s.l2 as int);
    lemma_div_denominator(v, b, b);
    assert(v / (limb_radix_sq() as int) == k2);
    lemma_div_denominator(v, limb_radix_sq() as int, b);
    assert(v / (limb_radix_cu() as int) == s.l3 as int);
    lemma_small_mod(s.l3 as nat, b as nat);
}

/// Two scalars standing for the same integer are the same scalar.
pub proof fn lemma_value_injective(a: Scalar, b: Scalar)
    requires
        a.value() == b.value(),
    ensures
        a == b,
{
    lemma_scalar_from_nat_of_value(a);
    lemma_scalar_from_nat_of_value(b);
}

} // verus!
