//! Polynomials over the scalars, in one variable.
use crate::algebra::congruence::{eqm, lemma_eqm_mod, lemma_reduced, modulus};
use crate::algebra::polynomial::{
    coeff, eval, is_quotient, is_trimmed, linear, poly_add, poly_mul, poly_scale, poly_shift,
    poly_sub, same_poly, vanishing,
};
use crate::algebra::roots::{is_domain_size, max_domain_size};
use crate::field::{vals, Scalar};
use ark_bls12_381::Fr;
use ark_ff::{BigInt, PrimeField};
use ark_poly::univariate::DensePolynomial;
use ark_poly::{DenseUVPolynomial, EvaluationDomain, Polynomial, Radix2EvaluationDomain};
use vstd::arithmetic::power::pow;
use vstd::prelude::*;

verus! {

/// A polynomial, by its coefficients, lowest first. The last coefficient is not zero.
#[derive(Debug, PartialEq)]
pub struct Poly {
    coeffs: Vec<Scalar>,
}

impl Clone for Poly {
    fn clone(&self) -> (res: Poly)
        ensures
            res@ == self@,
    {
        proof {
            use_type_invariant(self);
        }
        let coeffs = self.coeffs.clone();
        assert(coeffs@ =~= self.coeffs@);
        Poly { coeffs }
    }
}

impl View for Poly {
    type V = Seq<int>;

    closed spec fn view(&self) -> Seq<int> {
        vals(self.coeffs@)
    }
}

impl Poly {
    #[verifier::type_invariant]
    closed spec fn has_no_leading_zeros(self) -> bool {
        is_trimmed(self@)
    }

    /// The coefficients, lowest first.
    pub fn coeffs(&self) -> (res: &Vec<Scalar>)
        ensures
            vals(res@) == self@,
            is_trimmed(self@),
    {
        proof {
            use_type_invariant(self);
        }
        &self.coeffs
    }

    /// The polynomial with the given coefficients, lowest first.
    pub fn from_coefficients_vec(coeffs: Vec<Scalar>) -> (res: Poly)
        ensures
            same_poly(res@, vals(coeffs@)),
            is_trimmed(res@),
            res@.len() <= coeffs@.len(),
    {
        dense_from_coefficients(&coeffs)
    }

    pub fn zero() -> (res: Poly)
        ensures
            res@.len() == 0,
    {
        let coeffs: Vec<Scalar> = Vec::new();
        Poly { coeffs }
    }

    pub fn add(&self, other: &Poly) -> (res: Poly)
        ensures
            same_poly(res@, poly_add(self@, other@)),
            is_trimmed(res@),
            res@.len() <= poly_add(self@, other@).len(),
    {
        proof {
            use_type_invariant(self);
            use_type_invariant(other);
        }
        dense_add(self, other)
    }

    pub fn sub(&self, other: &Poly) -> (res: Poly)
        ensures
            same_poly(res@, poly_sub(self@, other@)),
            is_trimmed(res@),
            res@.len() <= poly_sub(self@, other@).len(),
    {
        proof {
            use_type_invariant(self);
            use_type_invariant(other);
        }
        dense_sub(self, other)
    }

    /// The product, as long as a domain has room for its coefficients.
    pub fn mul(&self, other: &Poly) -> (res: Poly)
        requires
            self@.len() + other@.len() <= max_domain_size() + 1,
        ensures
            same_poly(res@, poly_mul(self@, other@)),
            is_trimmed(res@),
            res@.len() <= self@.len() + other@.len(),
            self@.len() + other@.len() > 0 ==> res@.len() < self@.len() + other@.len(),
    {
        proof {
            use_type_invariant(self);
            use_type_invariant(other);
        }
        dense_mul(self, other)
    }

    /// The quotient of the division with remainder by a polynomial that is not zero.
    pub fn div(&self, divisor: &Poly) -> (res: Poly)
        requires
            divisor@.len() > 0,
        ensures
            is_quotient(res@, self@, divisor@),
            is_trimmed(res@),
            self@.len() < divisor@.len() ==> res@.len() == 0,
            self@.len() >= divisor@.len() ==> res@.len() <= self@.len() - divisor@.len() + 1,
    {
        proof {
            use_type_invariant(self);
            use_type_invariant(divisor);
        }
        dense_div(self, divisor)
    }

    /// The quotient of the division with remainder by the polynomial `X^size - 1`.
    pub fn divide_by_vanishing_poly(&self, size: usize) -> (res: Poly)
        requires
            is_domain_size(size as int),
        ensures
            is_quotient(res@, self@, vanishing(size as int)),
            is_trimmed(res@),
            self@.len() <= size ==> res@.len() == 0,
            self@.len() > size ==> res@.len() <= self@.len() - size,
    {
        proof {
            use_type_invariant(self);
        }
        dense_divide_by_vanishing(self, size)
    }

    /// The value at a point.
    pub fn evaluate(&self, point: &Scalar) -> (res: Scalar)
        ensures
            res@ == eval(self@, point@) % modulus(),
    {
        dense_evaluate(self, point)
    }

    /// All coefficients times a scalar.
    pub fn scale(&self, scalar: &Scalar) -> (res: Poly)
        ensures
            same_poly(res@, poly_scale(self@, scalar@)),
            is_trimmed(res@),
            res@.len() <= self@.len(),
    {
        let mut coeffs: Vec<Scalar> = Vec::new();
        let mut i: usize = 0;
        while i < self.coeffs.len()
            invariant
                0 <= i <= self.coeffs@.len(),
                coeffs@.len() == i,
                forall|k: int|
                    0 <= k < i ==> (#[trigger] coeffs@[k])@ == (self@[k] * scalar@) % modulus(),
            decreases self.coeffs@.len() - i,
        {
            coeffs.push(self.coeffs[i].mul(scalar));
            i += 1;
        }
        let res = Poly::from_coefficients_vec(coeffs);
        proof {
            assert forall|k: int| eqm(
                #[trigger] coeff(res@, k),
                coeff(poly_scale(self@, scalar@), k),
            ) by {
                assert(eqm(coeff(res@, k), coeff(vals(coeffs@), k)));
                if 0 <= k < coeffs@.len() {
                    assert(vals(coeffs@)[k] == coeffs@[k]@);
                    lemma_eqm_mod(self@[k] * scalar@);
                }
            }
        }
        res
    }

    /// The polynomial `X - c`.
    pub fn linear(c: &Scalar) -> (res: Poly)
        ensures
            same_poly(res@, linear(c@)),
            res@.len() == 2,
    {
        let mut coeffs: Vec<Scalar> = Vec::new();
        coeffs.push(c.neg());
        coeffs.push(Scalar::one());
        let res = Poly::from_coefficients_vec(coeffs);
        proof {
            let v = vals(coeffs@);
            assert forall|k: int| eqm(#[trigger] coeff(res@, k), coeff(linear(c@), k)) by {
                assert(eqm(coeff(res@, k), coeff(v, k)));
                if k == 0 {
                    assert(v[0] == coeffs@[0]@);
                    lemma_eqm_mod(-c@);
                } else if k == 1 {
                    assert(v[1] == coeffs@[1]@);
                }
            }
            if res@.len() < 2 {
                assert(eqm(coeff(res@, 1), coeff(linear(c@), 1)));
                crate::algebra::congruence::lemma_modulus();
                lemma_reduced(0);
                lemma_reduced(1);
            }
        }
        res
    }

    /// The polynomial `X^n - 1`.
    pub fn vanishing(n: usize) -> (res: Poly)
        requires
            1 <= n < usize::MAX,
        ensures
            same_poly(res@, vanishing(n as int)),
            res@.len() == n + 1,
    {
        let mut coeffs: Vec<Scalar> = Vec::new();
        coeffs.push(Scalar::one().neg());
        let mut i: usize = 1;
        let ghost want = vanishing(n as int);
        proof {
            lemma_eqm_mod(-1);
        }
        while i < n
            invariant
                1 <= i <= n,
                coeffs@.len() == i,
                want == vanishing(n as int),
                forall|k: int| 0 <= k < i ==> eqm((#[trigger] coeffs@[k])@, want[k]),
            decreases n - i,
        {
            coeffs.push(Scalar::zero());
            i += 1;
        }
        coeffs.push(Scalar::one());
        let res = Poly::from_coefficients_vec(coeffs);
        proof {
            let v = vals(coeffs@);
            assert forall|k: int| eqm(#[trigger] coeff(res@, k), coeff(want, k)) by {
                assert(eqm(coeff(res@, k), coeff(v, k)));
                if 0 <= k <= n {
                    assert(v[k] == coeffs@[k]@);
                }
            }
            if res@.len() < n + 1 {
                assert(eqm(coeff(res@, n as int), coeff(want, n as int)));
                crate::algebra::congruence::lemma_modulus();
                lemma_reduced(0);
                lemma_reduced(1);
            }
        }
        res
    }

    /// The polynomial `p(shift * X)`.
    pub fn shift(&self, shift: &Scalar) -> (res: Poly)
        ensures
            same_poly(res@, poly_shift(self@, shift@)),
            is_trimmed(res@),
            res@.len() <= self@.len(),
    {
        let mut coeffs: Vec<Scalar> = Vec::new();
        let mut power = Scalar::one();
        let mut i: usize = 0;
        proof {
            lemma_pow_zero(shift@);
        }
        while i < self.coeffs.len()
            invariant
                0 <= i <= self.coeffs@.len(),
                coeffs@.len() == i,
                eqm(power@, pow(shift@, i as nat)),
                forall|k: int|
                    0 <= k < i ==> eqm(
                        (#[trigger] coeffs@[k])@,
                        self@[k] * pow(shift@, k as nat),
                    ),
            decreases self.coeffs@.len() - i,
        {
            let term = self.coeffs[i].mul(&power);
            proof {
                lemma_eqm_mod(self@[i as int] * power@);
                lemma_product_congruent(self@[i as int], power@, pow(shift@, i as nat));
                lemma_eqm_mod(power@ * shift@);
                lemma_power_step(shift@, power@, i as nat);
            }
            coeffs.push(term);
            power = power.mul(shift);
            i += 1;
        }
        let res = Poly::from_coefficients_vec(coeffs);
        proof {
            assert forall|k: int| eqm(
                #[trigger] coeff(res@, k),
                coeff(poly_shift(self@, shift@), k),
            ) by {
                assert(eqm(coeff(res@, k), coeff(vals(coeffs@), k)));
                if 0 <= k < coeffs@.len() {
                    assert(vals(coeffs@)[k] == coeffs@[k]@);
                }
            }
        }
        res
    }
}

proof fn lemma_pow_zero(x: int)
    ensures
        pow(x, 0) == 1,
{
    vstd::arithmetic::power::lemma_pow0(x);
}

proof fn lemma_product_congruent(a: int, b: int, c: int)
    requires
        eqm(b, c),
    ensures
        eqm(a * b, a * c),
{
    crate::algebra::congruence::lemma_eqm_mul(a, a, b, c);
}

/// One more factor on a power that is known up to congruence.
pub proof fn lemma_power_step(x: int, power: int, i: nat)
    requires
        eqm(power, pow(x, i)),
    ensures
        eqm(power * x, pow(x, i + 1)),
{
    crate::algebra::congruence::lemma_eqm_mul(power, pow(x, i), x, x);
    vstd::arithmetic::power::lemma_pow_adds(x, i, 1);
    vstd::arithmetic::power::lemma_pow1(x);
}

/// `DenseUVPolynomial::from_coefficients_vec` of `ark_poly`: it drops leading zeros.
#[verifier::external_body]
fn dense_from_coefficients(coeffs: &Vec<Scalar>) -> (res: Poly)
    ensures
        same_poly(res@, vals(coeffs@)),
        is_trimmed(res@),
        res@.len() <= coeffs@.len(),
{
    let input = coeffs.iter().map(|c| Fr::new(BigInt(c.to_limbs()))).collect();
    let poly = DensePolynomial::<Fr>::from_coefficients_vec(input);
    Poly { coeffs: poly.coeffs.iter().map(|c| Scalar::from_limbs(c.into_bigint().0)).collect() }
}

/// The addition of `DensePolynomial` of `ark_poly`, on polynomials without leading zeros.
#[verifier::external_body]
fn dense_add(a: &Poly, b: &Poly) -> (res: Poly)
    requires
        is_trimmed(a@),
        is_trimmed(b@),
    ensures
        same_poly(res@, poly_add(a@, b@)),
        is_trimmed(res@),
        res@.len() <= poly_add(a@, b@).len(),
{
    let a = DensePolynomial {
        coeffs: a.coeffs.iter().map(|c| Fr::new(BigInt(c.to_limbs()))).collect(),
    };
    let b = DensePolynomial {
        coeffs: b.coeffs.iter().map(|c| Fr::new(BigInt(c.to_limbs()))).collect(),
    };
    let poly: DensePolynomial<Fr> = &a + &b;
    Poly { coeffs: poly.coeffs.iter().map(|c| Scalar::from_limbs(c.into_bigint().0)).collect() }
}

/// The subtraction of `DensePolynomial` of `ark_poly`, on polynomials without leading zeros.
#[verifier::external_body]
fn dense_sub(a: &Poly, b: &Poly) -> (res: Poly)
    requires
        is_trimmed(a@),
        is_trimmed(b@),
    ensures
        same_poly(res@, poly_sub(a@, b@)),
        is_trimmed(res@),
        res@.len() <= poly_sub(a@, b@).len(),
{
    let a = DensePolynomial {
        coeffs: a.coeffs.iter().map(|c| Fr::new(BigInt(c.to_limbs()))).collect(),
    };
    let b = DensePolynomial {
        coeffs: b.coeffs.iter().map(|c| Fr::new(BigInt(c.to_limbs()))).collect(),
    };
    let poly: DensePolynomial<Fr> = &a - &b;
    Poly { coeffs: poly.coeffs.iter().map(|c| Scalar::from_limbs(c.into_bigint().0)).collect() }
}

/// The multiplication of `DensePolynomial` of `ark_poly`, which goes through a domain that has to
/// exist for the number of coefficients of the product.
#[verifier::external_body]
fn dense_mul(a: &Poly, b: &Poly) -> (res: Poly)
    requires
        is_trimmed(a@),
        is_trimmed(b@),
        a@.len() + b@.len() <= max_domain_size() + 1,
    ensures
        same_poly(res@, poly_mul(a@, b@)),
        is_trimmed(res@),
        res@.len() <= a@.len() + b@.len(),
        a@.len() + b@.len() > 0 ==> res@.len() < a@.len() + b@.len(),
{
    let a = DensePolynomial {
        coeffs: a.coeffs.iter().map(|c| Fr::new(BigInt(c.to_limbs()))).collect(),
    };
    let b = DensePolynomial {
        coeffs: b.coeffs.iter().map(|c| Fr::new(BigInt(c.to_limbs()))).collect(),
    };
    let poly: DensePolynomial<Fr> = &a * &b;
    Poly { coeffs: poly.coeffs.iter().map(|c| Scalar::from_limbs(c.into_bigint().0)).collect() }
}

/// The division of `DensePolynomial` of `ark_poly`: the quotient of the division with remainder. It
/// panics on a divisor that is zero.
#[verifier::external_body]
fn dense_div(a: &Poly, b: &Poly) -> (res: Poly)
    requires
        is_trimmed(a@),
        is_trimmed(b@),
        b@.len() > 0,
    ensures
        is_quotient(res@, a@, b@),
        is_trimmed(res@),
        a@.len() < b@.len() ==> res@.len() == 0,
        a@.len() >= b@.len() ==> res@.len() <= a@.len() - b@.len() + 1,
{
    let a = DensePolynomial {
        coeffs: a.coeffs.iter().map(|c| Fr::new(BigInt(c.to_limbs()))).collect(),
    };
    let b = DensePolynomial {
        coeffs: b.coeffs.iter().map(|c| Fr::new(BigInt(c.to_limbs()))).collect(),
    };
    let poly: DensePolynomial<Fr> = &a / &b;
    Poly { coeffs: poly.coeffs.iter().map(|c| Scalar::from_limbs(c.into_bigint().0)).collect() }
}

/// `DensePolynomial::divide_by_vanishing_poly` of `ark_poly`: the quotient of the division with
/// remainder by `X^size - 1`.
#[verifier::external_body]
fn dense_divide_by_vanishing(a: &Poly, size: usize) -> (res: Poly)
    requires
        is_domain_size(size as int),
    ensures
        is_quotient(res@, a@, vanishing(size as int)),
        is_trimmed(res@),
        a@.len() <= size ==> res@.len() == 0,
        a@.len() > size ==> res@.len() <= a@.len() - size,
{
    let a = DensePolynomial {
        coeffs: a.coeffs.iter().map(|c| Fr::new(BigInt(c.to_limbs()))).collect(),
    };
    let domain = Radix2EvaluationDomain::<Fr>::new(size).unwrap();
    let (poly, _remainder) = a.divide_by_vanishing_poly(domain);
    Poly { coeffs: poly.coeffs.iter().map(|c| Scalar::from_limbs(c.into_bigint().0)).collect() }
}

/// `Polynomial::evaluate` of `ark_poly` for `DensePolynomial`.
#[verifier::external_body]
fn dense_evaluate(a: &Poly, point: &Scalar) -> (res: Scalar)
    ensures
        res@ == eval(a@, point@) % modulus(),
{
    let a = DensePolynomial {
        coeffs: a.coeffs.iter().map(|c| Fr::new(BigInt(c.to_limbs()))).collect(),
    };
    Scalar::from_limbs(a.evaluate(&Fr::new(BigInt(point.to_limbs()))).into_bigint().0)
}

} // verus!
