//! Polynomials over the field, by their coefficients, lowest degree first.

use crate::field::{fadd, fmul, FieldElement};
use ark_bn254::Fr;
use ark_ff::{BigInt, PrimeField};
use ark_poly::univariate::DensePolynomial;
use ark_poly::{DenseUVPolynomial, Polynomial as ArkPolynomial};
use vstd::prelude::*;

verus! {

/// The value at `x` of the polynomial with coefficients `cs`, lowest degree
/// first: `cs[0] + x * (cs[1] + x * (cs[2] + ...))` in the field.
pub open spec fn poly_eval(cs: Seq<FieldElement>, x: int) -> int
    decreases cs.len(),
{
    if cs.len() == 0 {
        0
    } else {
        fadd(cs[0].value(), fmul(x, poly_eval(cs.drop_first(), x)))
    }
}

/// A polynomial; `coeffs[i]` is the coefficient of `x^i`.
#[derive(Debug)]
pub struct Polynomial {
    pub coeffs: Vec<FieldElement>,
}

impl Polynomial {
    /// At least one coefficient, each a reduced field element.
    pub open spec fn wf(&self) -> bool {
        self.coeffs@.len() >= 1 && forall|i: int|
            0 <= i < self.coeffs@.len() ==> #[trigger] self.coeffs@[i].wf()
    }

    /// The polynomial whose constant term is `secret` and whose higher
    /// coefficients are `rest`, in order.
    pub fn with_constant_term(secret: FieldElement, rest: Vec<FieldElement>) -> (p: Polynomial)
        requires
            secret.wf(),
            forall|i: int| 0 <= i < rest@.len() ==> #[trigger] rest@[i].wf(),
        ensures
            p.wf(),
            p.coeffs@ == seq![secret] + rest@,
    {
        let mut coeffs: Vec<FieldElement> = Vec::new();
        coeffs.push(secret);
        let mut i: usize = 0;
        while i < rest.len()
            invariant
                i <= rest@.len(),
                coeffs@ == seq![secret] + rest@.take(i as int),
            decreases rest@.len() - i,
        {
            coeffs.push(rest[i]);
            i = i + 1;
            assert(rest@.take(i as int) == rest@.take(i - 1) + seq![rest@[i - 1]]);
        }
        assert(rest@.take(rest@.len() as int) == rest@);
        Polynomial { coeffs }
    }

    /// The number of coefficients.
    pub fn len(&self) -> (r: usize)
        ensures
            r == self.coeffs@.len(),
    {
        self.coeffs.len()
    }

    /// Value of the polynomial at `x`.
    /// Relies on `DensePolynomial::evaluate` of `ark_poly` (Horner's rule in
    /// the field), with `Fp::from_bigint` and `Fp::into_bigint` converting
    /// from and to canonical limbs.
    #[verifier::external_body]
    pub(crate) fn evaluate(&self, x: FieldElement) -> (r: FieldElement)
        requires
            self.wf(),
            x.wf(),
        ensures
            r.wf(),
            r.value() == poly_eval(self.coeffs@, x.value()),
    {
        let cs: Vec<Fr> = self.coeffs.iter().map(|c| Fr::from_bigint(BigInt::new([c.l0, c.l1, c.l2, c.l3])).unwrap()).collect();
        let p = Fr::from_bigint(BigInt::new([x.l0, x.l1, x.l2, x.l3])).unwrap();
        let c = DensePolynomial::from_coefficients_vec(cs).evaluate(&p).into_bigint().0;
        FieldElement { l0: c[0], l1: c[1], l2: c[2], l3: c[3] }
    }
}

} // verus!
