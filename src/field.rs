//! Elements of the BN254 scalar field, held as four little-endian 64-bit
//! limbs of their canonical integer value. Arithmetic is done by `ark_ff`.

use ark_bn254::Fr;
use ark_ff::{BigInt, Field, PrimeField, UniformRand};
use rand::rngs::OsRng;
use vstd::arithmetic::div_mod::{
    lemma_mul_mod_noop_left, lemma_mul_mod_noop_right, lemma_small_mod,
};
use vstd::prelude::*;

verus! {

/// Two to the power 64: the weight of one limb over the one below it.
pub open spec fn limb_base() -> int {
    0x1_0000_0000_0000_0000
}

/// The prime order of the BN254 scalar field,
/// 21888242871839275222246405745257275088548364400416034343698204186575808495617.
pub open spec fn modulus() -> int {
    0x43e1f593f0000001int + limb_base() * (0x2833e84879b97091int + limb_base() * (
    0xb85045b68181585dint + limb_base() * 0x30644e72e131a029int))
}

/// Sum in the field of two reduced values.
pub open spec fn fadd(a: int, b: int) -> int {
    (a + b) % modulus()
}

/// Difference in the field of two reduced values.
pub open spec fn fsub(a: int, b: int) -> int {
    (a - b) % modulus()
}

/// Product in the field of two reduced values.
pub open spec fn fmul(a: int, b: int) -> int {
    (a * b) % modulus()
}

/// Whether `b` is the multiplicative inverse of `a` in the field.
pub open spec fn is_inverse(a: int, b: int) -> bool {
    0 <= b < modulus() && (a * b) % modulus() == 1
}

/// The multiplicative inverse of `a` in the field, where it has one.
pub open spec fn finv(a: int) -> int {
    choose|b: int| is_inverse(a, b)
}

/// A field element, stored as its canonical value in four 64-bit limbs,
/// least significant first.
#[derive(Clone, Copy, Debug, PartialEq, Eq, Structural)]
pub struct FieldElement {
    pub l0: u64,
    pub l1: u64,
    pub l2: u64,
    pub l3: u64,
}

impl FieldElement {
    /// The integer that the limbs spell.
    pub open spec fn value(self) -> int {
        self.l0 as int + limb_base() * (self.l1 as int + limb_base() * (self.l2 as int
            + limb_base() * self.l3 as int))
    }

    /// The limbs hold a reduced value, below the modulus.
    pub open spec fn wf(self) -> bool {
        0 <= self.value() < modulus()
    }

    /// The additive identity.
    pub fn zero() -> (r: FieldElement)
        ensures
            r.wf(),
            r.value() == 0,
    {
        FieldElement { l0: 0, l1: 0, l2: 0, l3: 0 }
    }

    /// The multiplicative identity.
    pub fn one() -> (r: FieldElement)
        ensures
            r.wf(),
            r.value() == 1,
    {
        FieldElement { l0: 1, l1: 0, l2: 0, l3: 0 }
    }

    /// The field element whose value is `v`.
    pub fn from_u64(v: u64) -> (r: FieldElement)
        ensures
            r.wf(),
            r.value() == v,
    {
        FieldElement { l0: v, l1: 0, l2: 0, l3: 0 }
    }

    /// Field addition.
    /// Relies on `Add` for `ark_ff::Fp`, with `Fp::from_bigint` and
    /// `Fp::into_bigint` converting from and to canonical limbs.
    #[verifier::external_body]
    pub(crate) fn add(self, o: FieldElement) -> (r: FieldElement)
        requires
            self.wf(),
            o.wf(),
        ensures
            r.wf(),
            r.value() == fadd(self.value(), o.value()),
    {
        let a = Fr::from_bigint(BigInt::new([self.l0, self.l1, self.l2, self.l3])).unwrap();
        let b = Fr::from_bigint(BigInt::new([o.l0, o.l1, o.l2, o.l3])).unwrap();
        let c = (a + b).into_bigint().0;
        FieldElement { l0: c[0], l1: c[1], l2: c[2], l3: c[3] }
    }

    /// Field subtraction.
    /// Relies on `Sub` for `ark_ff::Fp`, with `Fp::from_bigint` and
    /// `Fp::into_bigint` converting from and to canonical limbs.
    #[verifier::external_body]
    pub(crate) fn sub(self, o: FieldElement) -> (r: FieldElement)
        requires
            self.wf(),
            o.wf(),
        ensures
            r.wf(),
            r.value() == fsub(self.value(), o.value()),
    {
        let a = Fr::from_bigint(BigInt::new([self.l0, self.l1, self.l2, self.l3])).unwrap();
        let b = Fr::from_bigint(BigInt::new([o.l0, o.l1, o.l2, o.l3])).unwrap();
        let c = (a - b).into_bigint().0;
        FieldElement { l0: c[0], l1: c[1], l2: c[2], l3: c[3] }
    }

    /// Field multiplication.
    /// Relies on `Mul` for `ark_ff::Fp`, with `Fp::from_bigint` and
    /// `Fp::into_bigint` converting from and to canonical limbs.
    #[verifier::external_body]
    pub(crate) fn mul(self, o: FieldElement) -> (r: FieldElement)
        requires
            self.wf(),
            o.wf(),
        ensures
            r.wf(),
            r.value() == fmul(self.value(), o.value()),
    {
        let a = Fr::from_bigint(BigInt::new([self.l0, self.l1, self.l2, self.l3])).unwrap();
        let b = Fr::from_bigint(BigInt::new([o.l0, o.l1, o.l2, o.l3])).unwrap();
        let c = (a * b).into_bigint().0;
        FieldElement { l0: c[0], l1: c[1], l2: c[2], l3: c[3] }
    }

    /// Multiplicative inverse, or `None` for zero.
    /// Relies on `Field::inverse` for `ark_ff::Fp`, which returns `None`
    /// exactly for zero, with `Fp::from_bigint` and `Fp::into_bigint`
    /// converting from and to canonical limbs.
    #[verifier::external_body]
    fn inverse_raw(self) -> (r: Option<FieldElement>)
        requires
            self.wf(),
        ensures
            r is None <==> self.value() == 0,
            r matches Some(i) ==> i.wf() && (self.value() * i.value()) % modulus() == 1,
    {
        let a = Fr::from_bigint(BigInt::new([self.l0, self.l1, self.l2, self.l3])).unwrap();
        match a.inverse() {
            Some(i) => {
                let c = i.into_bigint().0;
                Some(FieldElement { l0: c[0], l1: c[1], l2: c[2], l3: c[3] })
            },
            None => None,
        }
    }

    /// Checked multiplicative inverse: `None` exactly for zero.
    pub fn inverse(self) -> (r: Option<FieldElement>)
        requires
            self.wf(),
        ensures
            r is None <==> self.value() == 0,
            r matches Some(i) ==> i.wf() && i.value() == finv(self.value()) && is_inverse(
                self.value(),
                i.value(),
            ),
    {
        let r = self.inverse_raw();
        proof {
            if let Some(i) = r {
                lemma_inverse_unique(self.value(), i.value());
            }
        }
        r
    }

    /// A field element drawn uniformly at random.
    /// Relies on `UniformRand::rand` for `ark_ff::Fp`, with
    /// `Fp::into_bigint` giving its canonical limbs.
    #[verifier::external_body]
    pub(crate) fn random(rng: &mut OsRng) -> (r: FieldElement)
        ensures
            r.wf(),
    {
        let c = Fr::rand(rng).into_bigint().0;
        FieldElement { l0: c[0], l1: c[1], l2: c[2], l3: c[3] }
    }
}

#[verifier::external_type_specification]
#[verifier::external_body]
pub struct ExOsRng(OsRng);

/// A value has at most one inverse in the field, so `finv` picks the one
/// that any witness gives.
pub proof fn lemma_inverse_unique(a: int, b: int)
    requires
        is_inverse(a, b),
    ensures
        finv(a) == b,
{
    let m = modulus();
    let c = finv(a);
    assert(is_inverse(a, c));
    // b == b * (a * c) == (a * b) * c == c, all modulo m
    lemma_mul_mod_noop_right(b, a * c, m);
    lemma_mul_mod_noop_left(a * b, c, m);
    assert(b * (a * c) == (a * b) * c) by (nonlinear_arith);
    lemma_small_mod(b as nat, m as nat);
    lemma_small_mod(c as nat, m as nat);
    assert(b == (b * ((a * c) % m)) % m);
    assert(c == (((a * b) % m) * c) % m);
}

} // verus!
