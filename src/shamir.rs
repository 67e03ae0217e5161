//! Splitting a secret into shares and putting it back together.

use crate::field::{fadd, finv, fmul, fsub, is_inverse, lemma_inverse_unique, modulus, FieldElement};
use crate::polynomial::{poly_eval, Polynomial};
use rand::rngs::OsRng;
use vstd::arithmetic::div_mod::{
    lemma_add_mod_noop, lemma_add_mod_noop_right, lemma_fundamental_div_mod_converse_mod,
    lemma_mod_bound, lemma_mul_mod_noop_general, lemma_small_mod,
};
use vstd::arithmetic::mul::lemma_mul_is_distributive_add;
use vstd::prelude::*;

verus! {

/// Why an operation of the scheme failed.
#[derive(Clone, Copy, Debug, PartialEq, Eq, Structural)]
pub enum ShareError {
    /// The threshold is zero, or larger than the number of shares.
    InvalidParameters,
    /// Fewer shares than the threshold were supplied.
    InsufficientShares,
    /// Two of the shares used have the same x-coordinate.
    DegenerateShareSet,
}

/// One point `(x, f(x))` of the sharing polynomial.
#[derive(Clone, Copy, Debug, PartialEq, Eq, Structural)]
pub struct Share {
    pub x: FieldElement,
    pub y: FieldElement,
}

impl Share {
    /// Both coordinates are reduced field elements.
    pub open spec fn wf(self) -> bool {
        self.x.wf() && self.y.wf()
    }
}

/// Every share of `s` is well formed.
pub open spec fn all_wf(s: Seq<Share>) -> bool {
    forall|i: int| 0 <= i < s.len() ==> #[trigger] s[i].wf()
}

/// `s` holds the values of the polynomial `cs` at `x = 1, 2, ..., n`, in order.
pub open spec fn shares_of(s: Seq<Share>, cs: Seq<FieldElement>, n: nat) -> bool {
    &&& s.len() == n
    &&& all_wf(s)
    &&& forall|i: int|
        0 <= i < n ==> (#[trigger] s[i]).x.value() == i + 1 && s[i].y.value() == poly_eval(
            cs,
            i + 1,
        )
}

/// `s` holds the values at `x = 1, 2, ..., n` of some polynomial with `t`
/// coefficients whose constant term is `secret`.
pub open spec fn is_sharing(s: Seq<Share>, secret: int, t: nat, n: nat) -> bool {
    exists|cs: Seq<FieldElement>|
        cs.len() == t && cs[0].value() == secret && all_coeffs_wf(cs) && #[trigger] shares_of(s, cs, n)
}

/// Every coefficient is a reduced field element.
pub open spec fn all_coeffs_wf(cs: Seq<FieldElement>) -> bool {
    forall|i: int| 0 <= i < cs.len() ==> #[trigger] cs[i].wf()
}

/// The first `t` shares of `s` have pairwise distinct x-coordinates.
pub open spec fn distinct_xs(s: Seq<Share>, t: int) -> bool {
    forall|i: int, j: int|
        0 <= i < t && 0 <= j < t && i != j ==> #[trigger] s[i].x.value() != #[trigger] s[j].x.value()
}

/// Each difference of two x-coordinates among the first `t` shares of `s`
/// has an inverse in the field.
pub open spec fn differences_invertible(s: Seq<Share>, t: int) -> bool {
    forall|i: int, j: int|
        0 <= i < t && 0 <= j < t && i != j ==> #[trigger] is_inverse(
            fsub(s[i].x.value(), s[j].x.value()),
            finv(#[trigger] fsub(s[i].x.value(), s[j].x.value())),
        )
}

/// The factor `-x_j / (x_i - x_j)` of the Lagrange basis value of share `i`
/// at zero.
pub open spec fn basis_factor(s: Seq<Share>, i: int, j: int) -> int {
    fmul(fsub(0, s[j].x.value()), finv(fsub(s[i].x.value(), s[j].x.value())))
}

/// The product of the factors of share `i` over the shares `j < k`, `j != i`.
pub open spec fn basis_prefix(s: Seq<Share>, i: int, k: int) -> int
    decreases k,
{
    if k <= 0 {
        1
    } else if k - 1 == i {
        basis_prefix(s, i, k - 1)
    } else {
        fmul(basis_prefix(s, i, k - 1), basis_factor(s, i, k - 1))
    }
}

/// The sum over the shares `i < k` of `L_i(0) * y_i`, where `L_i` is the
/// Lagrange basis polynomial of share `i` among the first `t`.
pub open spec fn interpolation_prefix(s: Seq<Share>, t: int, k: int) -> int
    decreases k,
{
    if k <= 0 {
        0
    } else {
        fadd(
            interpolation_prefix(s, t, k - 1),
            fmul(basis_prefix(s, k - 1, t), s[k - 1].y.value()),
        )
    }
}

/// The value at zero of the polynomial of degree below `t` through the
/// first `t` shares of `s`.
pub open spec fn interpolate_at_zero(s: Seq<Share>, t: int) -> int {
    interpolation_prefix(s, t, t)
}

/// The parameters of a sharing: `threshold` shares out of `total_shares`
/// recover the secret.
#[derive(Clone, Copy, Debug, PartialEq, Eq, Structural)]
pub struct ShamirSecretShare {
    pub threshold: usize,
    pub total_shares: usize,
}

impl ShamirSecretShare {
    /// The parameters are usable: `1 <= threshold <= total_shares`.
    pub open spec fn valid(self) -> bool {
        1 <= self.threshold <= self.total_shares
    }

    /// Parameters for `threshold` out of `total_shares`; fails with
    /// `InvalidParameters` unless `1 <= threshold <= total_shares`.
    pub fn new(threshold: usize, total_shares: usize) -> (r: Result<ShamirSecretShare, ShareError>)
        ensures
            r is Ok <==> 1 <= threshold <= total_shares,
            r matches Ok(p) ==> p.threshold == threshold && p.total_shares == total_shares,
            r matches Err(e) ==> e == ShareError::InvalidParameters,
    {
        if threshold == 0 || total_shares < threshold {
            Err(ShareError::InvalidParameters)
        } else {
            Ok(ShamirSecretShare { threshold, total_shares })
        }
    }

    /// A polynomial with `degree` coefficients whose constant term is
    /// `secret` and whose other coefficients are drawn at random from `rng`.
    /// Fails with `InvalidParameters` when `degree` is zero.
    pub fn generate_polynomial(secret: FieldElement, degree: usize, rng: &mut OsRng) -> (r: Result<
        Polynomial,
        ShareError,
    >)
        requires
            secret.wf(),
        ensures
            r is Ok <==> degree >= 1,
            r matches Ok(p) ==> p.wf() && p.coeffs@.len() == degree && p.coeffs@[0] == secret,
            r matches Err(e) ==> e == ShareError::InvalidParameters,
    {
        if degree == 0 {
            return Err(ShareError::InvalidParameters);
        }
        let mut rest: Vec<FieldElement> = Vec::new();
        let mut i: usize = 1;
        while i < degree
            invariant
                1 <= i <= degree,
                rest@.len() == i - 1,
                forall|k: int| 0 <= k < rest@.len() ==> #[trigger] rest@[k].wf(),
            decreases degree - i,
        {
            rest.push(FieldElement::random(rng));
            i = i + 1;
        }
        Ok(Polynomial::with_constant_term(secret, rest))
    }

    /// The values of `poly` at `x = 1, 2, ..., total_shares`, in order.
    pub fn shares_from_polynomial(poly: &Polynomial, total_shares: usize) -> (r: Vec<Share>)
        requires
            poly.wf(),
        ensures
            shares_of(r@, poly.coeffs@, total_shares as nat),
    {
        let mut shares: Vec<Share> = Vec::new();
        let mut i: usize = 0;
        while i < total_shares
            invariant
                poly.wf(),
                i <= total_shares,
                shares_of(shares@, poly.coeffs@, i as nat),
            decreases total_shares - i,
        {
            let x = FieldElement::from_u64((i + 1) as u64);
            let y = poly.evaluate(x);
            shares.push(Share { x, y });
            i = i + 1;
            assert(shares@[i - 1].x.value() == i);
        }
        shares
    }

    /// Splits `secret` into `total_shares` shares, the values at
    /// `x = 1, 2, ..., total_shares` of a random polynomial with `threshold`
    /// coefficients whose constant term is the secret. Fails with
    /// `InvalidParameters` unless `1 <= threshold <= total_shares`.
    pub fn generate_shares(&self, secret: FieldElement, rng: &mut OsRng) -> (r: Result<
        Vec<Share>,
        ShareError,
    >)
        requires
            secret.wf(),
        ensures
            r is Ok <==> self.valid(),
            r matches Ok(s) ==> is_sharing(
                s@,
                secret.value(),
                self.threshold as nat,
                self.total_shares as nat,
            ),
            r matches Err(e) ==> e == ShareError::InvalidParameters,
    {
        if self.threshold == 0 || self.total_shares < self.threshold {
            return Err(ShareError::InvalidParameters);
        }
        let poly = match Self::generate_polynomial(secret, self.threshold, rng) {
            Ok(p) => p,
            Err(e) => return Err(e),
        };
        let shares = Self::shares_from_polynomial(&poly, self.total_shares);
        assert(shares_of(shares@, poly.coeffs@, self.total_shares as nat));
        Ok(shares)
    }

    /// The secret, by Lagrange interpolation at zero through the first
    /// `threshold` shares; further shares are ignored. Fails with
    /// `InvalidParameters` when `threshold` is zero, with
    /// `InsufficientShares` when fewer than `threshold` shares are given, and
    /// with `DegenerateShareSet` when two of the first `threshold` shares have
    /// the same x-coordinate.
    pub fn reconstruct_secret(shares: &[Share], threshold: usize) -> (r: Result<
        FieldElement,
        ShareError,
    >)
        requires
            all_wf(shares@),
        ensures
            r is Ok <==> threshold > 0 && shares@.len() >= threshold && distinct_xs(
                shares@,
                threshold as int,
            ),
            r == Err::<FieldElement, ShareError>(ShareError::InvalidParameters) <==> threshold == 0,
            r == Err::<FieldElement, ShareError>(ShareError::InsufficientShares) <==> threshold
                > 0 && shares@.len() < threshold,
            r == Err::<FieldElement, ShareError>(ShareError::DegenerateShareSet) <==> threshold
                > 0 && shares@.len() >= threshold && !distinct_xs(shares@, threshold as int),
            r matches Ok(v) ==> v.wf() && v.value() == interpolate_at_zero(
                shares@,
                threshold as int,
            ),
            r is Ok ==> differences_invertible(shares@, threshold as int),
    {
        if threshold == 0 {
            return Err(ShareError::InvalidParameters);
        }
        if shares.len() < threshold {
            return Err(ShareError::InsufficientShares);
        }
        let ghost s = shares@;
        let ghost t = threshold as int;
        let zero = FieldElement::zero();
        let mut secret = FieldElement::zero();
        let mut i: usize = 0;
        while i < threshold
            invariant
                s == shares@,
                t == threshold,
                all_wf(s),
                threshold <= s.len(),
                i <= threshold,
                zero.wf() && zero.value() == 0,
                secret.wf(),
                secret.value() == interpolation_prefix(s, t, i as int),
                forall|a: int, b: int|
                    0 <= a < i && 0 <= b < t && a != b ==> #[trigger] s[a].x.value()
                        != #[trigger] s[b].x.value(),
                forall|a: int, b: int|
                    0 <= a < i && 0 <= b < t && a != b ==> #[trigger] is_inverse(
                        fsub(s[a].x.value(), s[b].x.value()),
                        finv(#[trigger] fsub(s[a].x.value(), s[b].x.value())),
                    ),
            decreases threshold - i,
        {
            assert(s[i as int].wf());
            let x_i = shares[i].x;
            let y_i = shares[i].y;
            let mut coeff = FieldElement::one();
            let mut j: usize = 0;
            while j < threshold
                invariant
                    s == shares@,
                    t == threshold,
                    all_wf(s),
                    threshold <= s.len(),
                    i < threshold,
                    j <= threshold,
                    x_i == s[i as int].x,
                    x_i.wf(),
                    zero.wf() && zero.value() == 0,
                    coeff.wf(),
                    coeff.value() == basis_prefix(s, i as int, j as int),
                    forall|b: int| 0 <= b < j && b != i ==> s[i as int].x.value() != #[trigger] s[b].x.value(),
                    forall|b: int|
                        0 <= b < j && b != i ==> #[trigger] is_inverse(
                            fsub(s[i as int].x.value(), s[b].x.value()),
                            finv(fsub(s[i as int].x.value(), s[b].x.value())),
                        ),
                    forall|a: int, b: int|
                        0 <= a < i && 0 <= b < t && a != b ==> #[trigger] is_inverse(
                            fsub(s[a].x.value(), s[b].x.value()),
                            finv(#[trigger] fsub(s[a].x.value(), s[b].x.value())),
                        ),
                decreases threshold - j,
            {
                if i != j {
                    let x_j = shares[j].x;
                    assert(s[j as int].wf());
                    let numerator = zero.sub(x_j);
                    let denominator = x_i.sub(x_j);
                    proof {
                        lemma_sub_mod_zero(x_i.value(), x_j.value());
                    }
                    let inv = match denominator.inverse() {
                        Some(v) => v,
                        None => {
                            assert(!distinct_xs(s, t));
                            return Err(ShareError::DegenerateShareSet);
                        },
                    };
                    coeff = coeff.mul(numerator.mul(inv));
                }
                j = j + 1;
            }
            assert(s[i as int].wf());
            secret = secret.add(coeff.mul(y_i));
            i = i + 1;
        }
        assert(distinct_xs(s, t));
        assert(differences_invertible(s, t));
        Ok(secret)
    }
}

/// Parameters for `threshold` out of `total_shares`; fails with
/// `InvalidParameters` unless `1 <= threshold <= total_shares`.
pub fn new_scheme(threshold: usize, total_shares: usize) -> (r: Result<ShamirSecretShare, ShareError>)
    ensures
        r is Ok <==> 1 <= threshold <= total_shares,
        r matches Ok(p) ==> p.threshold == threshold && p.total_shares == total_shares,
        r matches Err(e) ==> e == ShareError::InvalidParameters,
{
    ShamirSecretShare::new(threshold, total_shares)
}

/// With a threshold of one, every share of a sharing carries the secret
/// itself as its y-value.
pub proof fn lemma_threshold_one_shares_equal_secret(s: Seq<Share>, secret: int, n: nat)
    requires
        0 <= secret < modulus(),
        is_sharing(s, secret, 1, n),
    ensures
        forall|i: int| 0 <= i < n ==> (#[trigger] s[i]).y.value() == secret,
{
    let cs = choose|cs: Seq<FieldElement>|
        cs.len() == 1 && cs[0].value() == secret && all_coeffs_wf(cs) && #[trigger] shares_of(s, cs, n);
    assert forall|i: int| 0 <= i < n implies (#[trigger] s[i]).y.value() == secret by {
        let x = i + 1;
        assert(cs.drop_first().len() == 0);
        assert(poly_eval(cs.drop_first(), x) == 0);
        lemma_small_mod(0, modulus() as nat);
        lemma_small_mod(secret as nat, modulus() as nat);
        assert(fmul(x, 0) == 0);
        assert(poly_eval(cs, x) == secret);
    }
}

/// With a threshold of one, reconstruction from a list that starts with any
/// share of a sharing succeeds and gives the secret back.
pub proof fn lemma_round_trip_threshold_one(s: Seq<Share>, secret: int, n: nat, q: Seq<Share>, k: int)
    requires
        0 <= secret < modulus(),
        is_sharing(s, secret, 1, n),
        0 <= k < n,
        q.len() >= 1,
        q[0] == s[k],
    ensures
        distinct_xs(q, 1),
        interpolate_at_zero(q, 1) == secret,
{
    lemma_threshold_one_shares_equal_secret(s, secret, n);
    assert(q[0].y.value() == secret);
    assert(basis_prefix(q, 0, 0) == 1);
    assert(basis_prefix(q, 0, 1) == 1);
    lemma_small_mod(secret as nat, modulus() as nat);
    assert(fmul(1, secret) == secret);
    assert(fadd(0, secret) == secret);
    assert(interpolation_prefix(q, 1, 0) == 0);
    assert(interpolation_prefix(q, 1, 1) == secret);
}

/// A polynomial with two coefficients takes the value `c0 + x * c1`.
proof fn lemma_eval_line(cs: Seq<FieldElement>, x: int)
    requires
        cs.len() == 2,
    ensures
        poly_eval(cs, x) == (cs[0].value() + x * cs[1].value()) % modulus(),
{
    let m = modulus();
    let c0 = cs[0].value();
    let c1 = cs[1].value();
    let rest = cs.drop_first();
    assert(rest.drop_first().len() == 0);
    assert(poly_eval(rest.drop_first(), x) == 0);
    assert(x * 0 == 0);
    lemma_small_mod(0, m as nat);
    assert(poly_eval(rest, x) == (c1 + 0) % m);
    lemma_add_mod_noop_right(0, c1, m);
    lemma_mul_mod_noop_general(x, c1, m);
    lemma_add_mod_noop_right(c0, x * c1, m);
}

/// The Lagrange sum through two points of a line, before any reduction.
proof fn lemma_two_point_identity(x0: int, x1: int, c0: int, c1: int, dd: int)
    ensures
        (-x1) * dd * (c0 + x0 * c1) + (-x0) * (-dd) * (c0 + x1 * c1) == c0 * (dd * (x0 - x1)),
{
    let u = (-x1) * dd;
    let w = (-x0) * (-dd);
    lemma_mul_is_distributive_add(u, c0, x0 * c1);
    lemma_mul_is_distributive_add(w, c0, x1 * c1);
    lemma_two_point_slope(x0, x1, c1, dd);
    lemma_two_point_constant(x0, x1, c0, dd);
}

/// The terms in `c1` cancel.
proof fn lemma_two_point_slope(x0: int, x1: int, c1: int, dd: int) by (nonlinear_arith)
    ensures
        ((-x1) * dd) * (x0 * c1) + ((-x0) * (-dd)) * (x1 * c1) == 0,
{
}

/// The terms in `c0` collect to `c0 * dd * (x0 - x1)`.
proof fn lemma_two_point_constant(x0: int, x1: int, c0: int, dd: int) by (nonlinear_arith)
    ensures
        ((-x1) * dd) * c0 + ((-x0) * (-dd)) * c0 == c0 * (dd * (x0 - x1)),
{
}

/// `(a mod m) * b * (c mod m)` and `a * b * c` agree modulo `m`.
proof fn lemma_mul3_mod(a: int, b: int, c: int)
    ensures
        (((a % modulus()) * b) % modulus() * (c % modulus())) % modulus() == (a * b * c) % modulus(),
{
    let m = modulus();
    lemma_mul_mod_noop_general(a, b, m);
    lemma_mul_mod_noop_general(a * b, c, m);
}

/// With a threshold of two, reconstruction from a list that starts with two
/// different shares of a sharing gives the secret back, where reconstruction
/// found the difference of their x-coordinates invertible (as it reports
/// whenever it succeeds).
pub proof fn lemma_round_trip_threshold_two(
    s: Seq<Share>,
    secret: int,
    n: nat,
    q: Seq<Share>,
    a: int,
    b: int,
)
    requires
        0 <= secret < modulus(),
        is_sharing(s, secret, 2, n),
        0 <= a < n,
        0 <= b < n,
        a != b,
        q.len() >= 2,
        q[0] == s[a],
        q[1] == s[b],
        differences_invertible(q, 2),
    ensures
        distinct_xs(q, 2),
        interpolate_at_zero(q, 2) == secret,
{
    let m = modulus();
    let cs = choose|cs: Seq<FieldElement>|
        cs.len() == 2 && cs[0].value() == secret && all_coeffs_wf(cs) && #[trigger] shares_of(s, cs, n);
    let c0 = secret;
    let c1 = cs[1].value();
    assert(cs[1].wf());
    assert(s[a].wf() && s[b].wf());
    let x0 = q[0].x.value();
    let x1 = q[1].x.value();
    let y0 = q[0].y.value();
    let y1 = q[1].y.value();
    assert(x0 == a + 1 && x1 == b + 1);
    lemma_eval_line(cs, x0);
    lemma_eval_line(cs, x1);
    assert(y0 == (c0 + x0 * c1) % m);
    assert(y1 == (c0 + x1 * c1) % m);

    let d = fsub(x0, x1);
    let dd = finv(d);
    assert(is_inverse(d, dd));
    let e = fsub(x1, x0);
    let ee = finv(e);
    // the inverse of x1 - x0 is minus that of x0 - x1
    lemma_mod_bound(-dd, m);
    lemma_mul_mod_noop_general(x1 - x0, -dd, m);
    assert((x1 - x0) * (-dd) == (x0 - x1) * dd) by (nonlinear_arith);
    lemma_mul_mod_noop_general(x0 - x1, dd, m);
    assert(is_inverse(e, (-dd) % m));
    lemma_inverse_unique(e, (-dd) % m);
    assert(ee == (-dd) % m);

    // the basis values
    let f01 = basis_factor(q, 0, 1);
    let f10 = basis_factor(q, 1, 0);
    assert(f01 == (((-x1) % m) * dd) % m);
    assert(f10 == (((-x0) % m) * ee) % m);
    lemma_mod_bound(((-x1) % m) * dd, m);
    lemma_mod_bound(((-x0) % m) * ee, m);
    lemma_small_mod(f01 as nat, m as nat);
    lemma_small_mod(f10 as nat, m as nat);
    assert(basis_prefix(q, 0, 0) == 1);
    assert(basis_prefix(q, 0, 1) == 1);
    assert(basis_prefix(q, 0, 2) == f01);
    assert(basis_prefix(q, 1, 0) == 1);
    assert(basis_prefix(q, 1, 1) == f10);
    assert(basis_prefix(q, 1, 2) == f10);

    // each term, with the inner reductions dropped
    let t0 = (-x1) * dd * (c0 + x0 * c1);
    let t1 = (-x0) * (-dd) * (c0 + x1 * c1);
    lemma_mul3_mod(-x1, dd, c0 + x0 * c1);
    assert(fmul(f01, y0) == t0 % m);
    lemma_mul_mod_noop_general(-x0, -dd, m);
    lemma_mul3_mod(-x0, (-dd) % m, c0 + x1 * c1);
    lemma_mul_mod_noop_general((-x0) * ((-dd) % m), c0 + x1 * c1, m);
    lemma_mul_mod_noop_general((-x0) * (-dd), c0 + x1 * c1, m);
    assert(fmul(f10, y1) == t1 % m);

    // the sum
    lemma_mod_bound(t0, m);
    lemma_small_mod((t0 % m) as nat, m as nat);
    assert(interpolation_prefix(q, 2, 0) == 0);
    assert(interpolation_prefix(q, 2, 1) == t0 % m);
    lemma_add_mod_noop(t0, t1, m);
    assert(interpolation_prefix(q, 2, 2) == (t0 + t1) % m);
    lemma_two_point_identity(x0, x1, c0, c1, dd);
    assert(t0 + t1 == c0 * (dd * (x0 - x1)));
    lemma_mul_mod_noop_general(c0, dd * (x0 - x1), m);
    lemma_mul_mod_noop_general(dd, x0 - x1, m);
    assert((dd * (x0 - x1)) % m == (d * dd) % m) by (nonlinear_arith)
        requires
            d == (x0 - x1) % m,
            (dd * ((x0 - x1) % m)) % m == (dd * (x0 - x1)) % m,
    ;
    assert((dd * (x0 - x1)) % m == 1);
    lemma_small_mod(c0 as nat, m as nat);
    assert(c0 * 1 == c0);
}

/// For reduced values, a difference is zero in the field exactly when the
/// values are equal.
proof fn lemma_sub_mod_zero(a: int, b: int)
    requires
        0 <= a < modulus(),
        0 <= b < modulus(),
    ensures
        fsub(a, b) == 0 <==> a == b,
{
    let m = modulus();
    if a >= b {
        lemma_small_mod((a - b) as nat, m as nat);
    } else {
        lemma_fundamental_div_mod_converse_mod(a - b, m, -1, a - b + m);
    }
}

} // verus!
