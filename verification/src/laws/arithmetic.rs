//! Laws of scalars, group elements and polynomials.
use crate::algebra::congruence::{
    eqm, lemma_eqm_add, lemma_eqm_mod, lemma_eqm_mul, lemma_eqm_sub, lemma_modulus, lemma_reduced,
    modulus,
};
use crate::algebra::polynomial::{
    eval, is_division, lemma_division_value, lemma_eval_add, lemma_eval_linear, lemma_eval_mul,
    lemma_eval_same, lemma_eval_scale, lemma_eval_shift, lemma_eval_sub, lemma_eval_vanishing,
    linear, poly_add, poly_mul, poly_scale, poly_shift, poly_sub, vanishing,
};
use crate::algebra::sums::{lemma_sum_eq, sum};
use crate::field::{
    are_draws, is_draw, lemma_scalar_range, random_five, random_scalars, vals, Scalar,
};
use crate::group::{lemma_g1_range, lemma_g2_range, lemma_gt_range, G1, G2, Gt};
use crate::poly::Poly;
use crate::ste::utils::{commit, commit_g2, multiply_row, multiply_table};
use ark_std::rand::rngs::StdRng;
use vstd::arithmetic::power::{lemma_pow_adds, pow};
use vstd::arithmetic::power2::pow2;
use vstd::prelude::*;

verus! {

/// Scalars are drawn one after the other: there are states of the generator between the first and the
/// last, and each scalar is the draw between two of them.
pub proof fn law_draws(before: StdRng, after: StdRng, ks: Seq<Scalar>) -> (states: Seq<StdRng>)
    requires
        are_draws(before, after, ks),
    ensures
        states.len() == ks.len() + 1,
        states[0] == before,
        states.last() == after,
        forall|i: int|
            0 <= i < ks.len() ==> #[trigger] is_draw(states[i], states[i + 1], ks[i]),
    decreases ks.len(),
{
    if ks.len() == 0 {
        seq![before]
    } else {
        let rng = choose|rng: StdRng|
            are_draws(before, rng, ks.drop_last()) && #[trigger] is_draw(rng, after, ks.last());
        let states = law_draws(before, rng, ks.drop_last());
        let res = states.push(after);
        assert forall|i: int| 0 <= i < ks.len() implies #[trigger] is_draw(
            res[i],
            res[i + 1],
            ks[i],
        ) by {
            if i < ks.len() - 1 {
                assert(is_draw(states[i], states[i + 1], ks.drop_last()[i]));
            } else {
                assert(res[i] == rng);
            }
        }
        res
    }
}

/// A random scalar is a draw.
pub proof fn law_random(rng: &mut StdRng, k: Scalar)
    requires
        call_ensures(Scalar::random, (rng,), k),
    ensures
        is_draw(*old(rng), *final(rng), k),
{
}

/// Random scalars are draws.
pub proof fn law_random_scalars(n: usize, rng: &mut StdRng, ks: Vec<Scalar>)
    requires
        call_ensures(random_scalars, (n, rng), ks),
    ensures
        ks@.len() == n,
        are_draws(*old(rng), *final(rng), ks@),
{
}

/// So are five of them.
pub proof fn law_random_five(rng: &mut StdRng, ks: [Scalar; 5])
    requires
        call_ensures(random_five, (rng,), ks),
    ensures
        are_draws(*old(rng), *final(rng), ks@),
{
}

proof fn lemma_sub_undoes_add(a: int, b: int)
    requires
        0 <= a < modulus(),
    ensures
        ((a + b) % modulus() - b) % modulus() == a,
{
    lemma_eqm_mod(a + b);
    lemma_eqm_sub((a + b) % modulus(), a + b, b, b);
    lemma_reduced(a);
}

/// Addition of scalars is that of integers, and subtraction undoes it.
pub proof fn law_scalar_sum(a: Scalar, b: Scalar, c: Scalar, back: Scalar, minus: Scalar, none: Scalar)
    requires
        call_ensures(Scalar::add, (&a, &b), c),
        call_ensures(Scalar::sub, (&c, &b), back),
        call_ensures(Scalar::neg, (&a,), minus),
        call_ensures(Scalar::add, (&a, &minus), none),
    ensures
        c@ == if a@ + b@ < modulus() {
            a@ + b@
        } else {
            a@ + b@ - modulus()
        },
        back@ == a@,
        none@ == 0,
{
    lemma_scalar_range(a);
    lemma_scalar_range(b);
    lemma_sub_undoes_add(a@, b@);
    if a@ + b@ < modulus() {
        lemma_reduced(a@ + b@);
    } else {
        lemma_reduced(a@ + b@ - modulus());
        crate::algebra::congruence::lemma_eqm_multiple(a@ + b@ - modulus(), 1);
    }
    lemma_eqm_mod(-a@);
    lemma_eqm_add(a@, a@, (-a@) % modulus(), -a@);
    lemma_modulus();
    lemma_reduced(0);
}

/// Multiplication of scalars is that of integers, up to the modulus; every scalar but zero has an
/// inverse.
pub proof fn law_scalar_product(
    a: Scalar,
    b: Scalar,
    c: Scalar,
    inverse: Option<Scalar>,
    is_zero: bool,
    same: bool,
)
    requires
        call_ensures(Scalar::mul, (&a, &b), c),
        call_ensures(Scalar::inverse, (&a,), inverse),
        call_ensures(Scalar::is_zero, (&a,), is_zero),
        call_ensures(Scalar::equals, (&a, &b), same),
    ensures
        eqm(c@, a@ * b@),
        is_zero <==> a@ == 0,
        same <==> a@ == b@,
        inverse is None <==> a@ == 0,
        inverse matches Some(x) ==> eqm(a@ * x@, 1),
{
    lemma_eqm_mod(a@ * b@);
    lemma_modulus();
    lemma_reduced(1);
}

/// Powers of a scalar multiply as their exponents add up.
pub proof fn law_scalar_power(a: Scalar, d: u64, e: u64, f: u64, x: Scalar, y: Scalar, z: Scalar)
    requires
        f == d + e,
        call_ensures(Scalar::pow, (&a, d), x),
        call_ensures(Scalar::pow, (&a, e), y),
        call_ensures(Scalar::pow, (&a, f), z),
    ensures
        eqm(x@ * y@, z@),
        d == 0 ==> x@ == 1,
        d == 1 ==> x@ == a@,
{
    let p = pow(a@, d as nat);
    let q = pow(a@, e as nat);
    lemma_pow_adds(a@, d as nat, e as nat);
    lemma_eqm_mod(p);
    lemma_eqm_mod(q);
    lemma_eqm_mul(x@, p, y@, q);
    lemma_eqm_mod(p * q);
    vstd::arithmetic::power::lemma_pow0(a@);
    vstd::arithmetic::power::lemma_pow1(a@);
    lemma_modulus();
    lemma_reduced(1);
    lemma_scalar_range(a);
    lemma_reduced(a@);
}

/// Small numbers are the scalars that they stand for.
pub proof fn law_small_scalars(
    m: u64,
    n: u128,
    zero: Scalar,
    one: Scalar,
    a: Scalar,
    b: Scalar,
)
    requires
        call_ensures(Scalar::zero, (), zero),
        call_ensures(Scalar::one, (), one),
        call_ensures(Scalar::from_u64, (m,), a),
        call_ensures(Scalar::from_u128, (n,), b),
    ensures
        zero@ == 0,
        one@ == 1,
        a@ == m,
        b@ == n,
{
}

/// Shifting to the right and to the left is division by and multiplication with a power of two.
pub proof fn law_shifts(a: Scalar, bits: u32, right: Scalar, left: Scalar)
    requires
        call_ensures(Scalar::shift_right, (&a, bits), right),
        call_ensures(Scalar::shift_left, (&right, bits), left),
    ensures
        left@ <= a@ < left@ + pow2(bits as nat),
        left@ % (pow2(bits as nat) as int) == 0,
{
    let p = pow2(bits as nat) as int;
    vstd::arithmetic::power2::lemma_pow2_pos(bits as nat);
    lemma_scalar_range(a);
    vstd::arithmetic::div_mod::lemma_fundamental_div_mod(a@, p);
    let q = a@ / p;
    assert(q * p == p * q) by (nonlinear_arith);
    vstd::arithmetic::div_mod::lemma_mod_multiples_basic(q, p);
}

/// The first group: subtraction undoes addition, and multiples are repeated sums of the generator.
pub proof fn law_g1(
    a: G1,
    b: G1,
    c: G1,
    back: G1,
    k: Scalar,
    multiple: G1,
    zero: G1,
    generator: G1,
    same: bool,
)
    requires
        call_ensures(G1::add, (&a, &b), c),
        call_ensures(G1::sub, (&c, &b), back),
        call_ensures(G1::zero, (), zero),
        call_ensures(G1::generator, (), generator),
        call_ensures(G1::mul, (&generator, &k), multiple),
        call_ensures(G1::equals, (&a, &b), same),
    ensures
        eqm(c@, a@ + b@),
        back@ == a@,
        multiple@ == k@,
        zero@ == 0,
        generator@ == 1,
        same <==> a@ == b@,
{
    lemma_g1_range(a);
    lemma_sub_undoes_add(a@, b@);
    lemma_eqm_mod(a@ + b@);
    lemma_scalar_range(k);
    lemma_reduced(k@);
}

/// The second group.
pub proof fn law_g2(a: G2, b: G2, c: G2, back: G2, k: Scalar, multiple: G2, zero: G2, same: bool)
    requires
        call_ensures(G2::add, (&a, &b), c),
        call_ensures(G2::sub, (&c, &b), back),
        call_ensures(G2::zero, (), zero),
        call_ensures(G2::mul, (&a, &k), multiple),
        call_ensures(G2::equals, (&a, &b), same),
    ensures
        eqm(c@, a@ + b@),
        back@ == a@,
        eqm(multiple@, a@ * k@),
        zero@ == 0,
        same <==> a@ == b@,
{
    lemma_g2_range(a);
    lemma_sub_undoes_add(a@, b@);
    lemma_eqm_mod(a@ + b@);
    lemma_eqm_mod(a@ * k@);
}

/// The target group.
pub proof fn law_gt(
    a: Gt,
    b: Gt,
    c: Gt,
    back: Gt,
    k: Scalar,
    multiple: Gt,
    zero: Gt,
    generator: Gt,
    same: bool,
)
    requires
        call_ensures(Gt::add, (&a, &b), c),
        call_ensures(Gt::sub, (&c, &b), back),
        call_ensures(Gt::zero, (), zero),
        call_ensures(Gt::generator, (), generator),
        call_ensures(Gt::mul, (&generator, &k), multiple),
        call_ensures(Gt::equals, (&a, &b), same),
    ensures
        eqm(c@, a@ + b@),
        back@ == a@,
        multiple@ == k@,
        zero@ == 0,
        generator@ == 1,
        same <==> a@ == b@,
{
    lemma_gt_range(a);
    lemma_sub_undoes_add(a@, b@);
    lemma_eqm_mod(a@ + b@);
    lemma_scalar_range(k);
    lemma_reduced(k@);
}

/// What is read from bytes has these bytes as its compressed encoding.
pub proof fn law_g1_decompressed(bytes: [u8; 48], a: G1, compressed: Vec<u8>)
    requires
        call_ensures(G1::decompress, (&bytes,), Some(a)),
        call_ensures(G1::compress, (&a,), compressed),
    ensures
        compressed@ == bytes@,
{
}

/// Compressed elements of the first group are read again.
pub proof fn law_g1_compressed(a: G1, bytes: [u8; 48], compressed: Vec<u8>, back: Option<G1>)
    requires
        call_ensures(G1::compress, (&a,), compressed),
        compressed@ == bytes@,
        call_ensures(G1::decompress, (&bytes,), back),
    ensures
        back matches Some(b) && b@ == a@,
{
    lemma_g1_range(a);
}

/// The value of a polynomial at a point.
pub open spec fn value_at(p: Poly, x: int) -> int {
    sum(p@.len() as int, |j: int| p@[j] * pow(x, j as nat))
}

/// Evaluating a polynomial gives its value.
pub proof fn law_evaluate(coeffs: Vec<Scalar>, p: Poly, x: Scalar, y: Scalar)
    requires
        call_ensures(Poly::from_coefficients_vec, (coeffs,), p),
        call_ensures(Poly::evaluate, (&p, &x), y),
    ensures
        y@ == sum(coeffs@.len() as int, |j: int| coeffs@[j]@ * pow(x@, j as nat)) % modulus(),
        y@ == value_at(p, x@) % modulus(),
{
    let f = |j: int| coeffs@[j]@ * pow(x@, j as nat);
    let g = |j: int| vals(coeffs@)[j] * pow(x@, j as nat);
    lemma_sum_eq(coeffs@.len() as int, f, g);
    lemma_eval_same(p@, vals(coeffs@), x@);
}

/// Sums, differences and products of polynomials have the sums, differences and products of the values.
pub proof fn law_poly_ring(a: Poly, b: Poly, total: Poly, rest: Poly, product: Poly, x: int)
    requires
        call_ensures(Poly::add, (&a, &b), total),
        call_ensures(Poly::sub, (&a, &b), rest),
        call_ensures(Poly::mul, (&a, &b), product),
    ensures
        eqm(value_at(total, x), value_at(a, x) + value_at(b, x)),
        eqm(value_at(rest, x), value_at(a, x) - value_at(b, x)),
        eqm(value_at(product, x), value_at(a, x) * value_at(b, x)),
{
    lemma_eval_same(total@, poly_add(a@, b@), x);
    lemma_eval_same(rest@, poly_sub(a@, b@), x);
    lemma_eval_same(product@, poly_mul(a@, b@), x);
    lemma_eval_add(a@, b@, x);
    lemma_eval_sub(a@, b@, x);
    lemma_eval_mul(a@, b@, x);
}

/// Scaling multiplies the values, and shifting multiplies the point.
pub proof fn law_poly_scale_and_shift(a: Poly, k: Scalar, scaled: Poly, shifted: Poly, x: int)
    requires
        call_ensures(Poly::scale, (&a, &k), scaled),
        call_ensures(Poly::shift, (&a, &k), shifted),
    ensures
        eqm(value_at(scaled, x), value_at(a, x) * k@),
        eqm(value_at(shifted, x), value_at(a, k@ * x)),
{
    lemma_eval_same(scaled@, poly_scale(a@, k@), x);
    lemma_eval_same(shifted@, poly_shift(a@, k@), x);
    lemma_eval_scale(a@, k@, x);
    lemma_eval_shift(a@, k@, x);
}

/// Division leaves a remainder that is shorter than the divisor.
pub proof fn law_poly_division(a: Poly, b: Poly, q: Poly) -> (r: Seq<int>)
    requires
        call_ensures(Poly::div, (&a, &b), q),
    ensures
        r.len() < b@.len(),
        forall|x: int|
            eqm(#[trigger] value_at(a, x), value_at(q, x) * value_at(b, x) + eval(r, x)),
{
    let r = choose|r: Seq<int>| #[trigger] is_division(q@, a@, b@, r);
    assert forall|x: int| eqm(
        #[trigger] value_at(a, x),
        value_at(q, x) * value_at(b, x) + eval(r, x),
    ) by {
        lemma_division_value(q@, a@, b@, r, x);
    }
    r
}

/// So does division by `X^n - 1`.
pub proof fn law_poly_vanishing_division(a: Poly, n: usize, q: Poly) -> (r: Seq<int>)
    requires
        1 <= n,
        call_ensures(Poly::divide_by_vanishing_poly, (&a, n), q),
    ensures
        r.len() <= n,
        forall|x: int|
            eqm(#[trigger] value_at(a, x), value_at(q, x) * (pow(x, n as nat) - 1) + eval(r, x)),
{
    let v = vanishing(n as int);
    let r = choose|r: Seq<int>| #[trigger] is_division(q@, a@, v, r);
    assert forall|x: int| eqm(
        #[trigger] value_at(a, x),
        value_at(q, x) * (pow(x, n as nat) - 1) + eval(r, x),
    ) by {
        lemma_division_value(q@, a@, v, r, x);
        lemma_eval_vanishing(n as int, x);
    }
    r
}

/// The polynomials `X - c` and `X^n - 1`, and the one without coefficients.
pub proof fn law_poly_shapes(c: Scalar, n: usize, l: Poly, v: Poly, zero: Poly, x: int)
    requires
        1 <= n,
        call_ensures(Poly::linear, (&c,), l),
        call_ensures(Poly::vanishing, (n,), v),
        call_ensures(Poly::zero, (), zero),
    ensures
        eqm(value_at(l, x), x - c@),
        eqm(value_at(v, x), pow(x, n as nat) - 1),
        value_at(zero, x) == 0,
{
    lemma_eval_same(l@, linear(c@), x);
    lemma_eval_linear(c@, x);
    lemma_eval_same(v@, vanishing(n as int), x);
    lemma_eval_vanishing(n as int, x);
}

/// A commitment is the sum of the points, each times its coefficient, in both groups.
pub proof fn law_commitments(p: Vec<G1>, q: Vec<G2>, coeffs: Vec<Scalar>, c: G1, d: G2)
    requires
        coeffs@.len() <= p@.len(),
        coeffs@.len() <= q@.len(),
        call_ensures(commit, (&p, &coeffs), c),
        call_ensures(commit_g2, (&q, &coeffs), d),
    ensures
        c@ == sum(coeffs@.len() as int, |j: int| coeffs@[j]@ * p@[j]@) % modulus(),
        d@ == sum(coeffs@.len() as int, |j: int| coeffs@[j]@ * q@[j]@) % modulus(),
{
    let n = coeffs@.len() as int;
    lemma_sum_eq(
        n,
        |j: int| coeffs@[j]@ * p@[j]@,
        |j: int| vals(coeffs@)[j] * vals(p@)[j],
    );
    lemma_sum_eq(
        n,
        |j: int| coeffs@[j]@ * q@[j]@,
        |j: int| vals(coeffs@)[j] * vals(q@)[j],
    );
}

/// Rows and tables of points are multiplied point by point.
pub proof fn law_multiples(
    row: Vec<G1>,
    table: Vec<Vec<G1>>,
    k: Scalar,
    a: Vec<G1>,
    b: Vec<Vec<G1>>,
    i: int,
    j: int,
)
    requires
        call_ensures(multiply_row, (&row, &k), a),
        call_ensures(multiply_table, (&table, &k), b),
        0 <= i < table@.len(),
        0 <= j < table@[i]@.len(),
    ensures
        a@.len() == row@.len(),
        forall|m: int| 0 <= m < row@.len() ==> (#[trigger] a@[m])@ == (row@[m]@ * k@) % modulus(),
        b@.len() == table@.len(),
        b@[i]@.len() == table@[i]@.len(),
        b@[i]@[j]@ == (table@[i]@[j]@ * k@) % modulus(),
{
    assert(crate::ste::utils::is_multiple_row(b@[i]@, table@[i]@, k@));
    assert(b@[i]@[j]@ == (table@[i]@[j]@ * k@) % modulus());
}

/// The coefficients of a polynomial give its values.
pub proof fn law_coefficients(p: Poly, coeffs: &Vec<Scalar>, x: int)
    requires
        call_ensures(Poly::coeffs, (&p,), coeffs),
    ensures
        value_at(p, x) == sum(coeffs@.len() as int, |j: int| coeffs@[j]@ * pow(x, j as nat)),
{
    assert(vals(coeffs@).len() == coeffs@.len());
    lemma_sum_eq(
        coeffs@.len() as int,
        |j: int| p@[j] * pow(x, j as nat),
        |j: int| coeffs@[j]@ * pow(x, j as nat),
    );
}

/// The limbs of a scalar, lowest first, make up its canonical representative.
pub proof fn law_limbs(k: Scalar, limbs: [u64; 4])
    requires
        call_ensures(Scalar::to_limbs, (&k,), limbs),
    ensures
        limbs@[0] + 0x1_0000_0000_0000_0000int * (limbs@[1] + 0x1_0000_0000_0000_0000int * (limbs@[2]
            + 0x1_0000_0000_0000_0000int * limbs@[3])) == k@,
{
}

} // verus!
