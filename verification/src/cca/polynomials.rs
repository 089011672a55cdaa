//! The polynomials of the range proof.
use crate::algebra::congruence::{
    eqm, lemma_eqm_add, lemma_eqm_difference, lemma_eqm_mod, lemma_eqm_mul, lemma_eqm_reduced,
    lemma_modulus, lemma_reduced, lemma_unit_nonzero, modulus,
};
use crate::algebra::polynomial::{
    coeff, eval, is_quotient, is_trimmed, lemma_eval_add, lemma_eval_constant, lemma_eval_linear,
    lemma_eval_mul, lemma_eval_point, lemma_eval_same, lemma_eval_scale, lemma_eval_shift,
    lemma_eval_sub, linear, poly_add, poly_mul, poly_scale, poly_shift, poly_sub, same_poly,
    vanishing,
};
use crate::algebra::quotients::{
    lemma_add_same, lemma_mul_same, lemma_quotient_same, lemma_root_power_order, lemma_same_trans,
    lemma_scale_same, lemma_vanishing_without, vanishing_without,
};
use crate::algebra::roots::{
    is_domain_size, is_power_of_two, lemma_root_difference_is_unit, unity_root,
};
use crate::algebra::sums::sum;
use crate::bte::encryption::{chunk_radix, CHUNK_BITS};
use crate::field::{domain_generator, lemma_scalar_range, vals, Scalar};
use crate::poly::Poly;
use vstd::arithmetic::power::{lemma_pow0, lemma_pow1, lemma_pow_adds, pow};
use vstd::arithmetic::power2::{lemma2_to64, lemma_pow2_pos, lemma_pow2_unfold, pow2};
use vstd::prelude::*;

verus! {

/// The size of the domain of the range proof: one element for each bit of a chunk.
pub open spec fn range_size() -> int {
    CHUNK_BITS as int
}

/// The generator of the domain.
pub open spec fn range_root() -> int {
    unity_root(range_size())
}

/// The last element of the domain.
pub open spec fn range_last() -> int {
    pow(range_root(), (range_size() - 1) as nat) % modulus()
}

pub proof fn lemma_range_size()
    ensures
        is_domain_size(range_size()),
{
    reveal_with_fuel(is_power_of_two, 6);
}

/// The first coordinates of points.
pub open spec fn xs_of(points: Seq<(Scalar, Scalar)>) -> Seq<int> {
    Seq::new(points.len(), |i: int| points[i].0@)
}

/// Whether no two points have the same first coordinate.
pub open spec fn has_distinct_xs(points: Seq<(Scalar, Scalar)>) -> bool {
    forall|i: int, j: int|
        0 <= i < points.len() && 0 <= j < points.len() && i != j ==> (#[trigger] points[i]).0@ != (
        #[trigger] points[j]).0@
}

/// Whether the polynomial is the one through the points.
pub open spec fn passes_through(p: Seq<int>, points: Seq<(Scalar, Scalar)>) -> bool {
    &&& p.len() <= points.len()
    &&& forall|i: int|
        0 <= i < points.len() ==> eqm(eval(p, (#[trigger] points[i]).0@), points[i].1@)
}

/// The product of `x - xs[j]` for all `j` below `k` but `i`.
pub open spec fn node_product(xs: Seq<int>, i: int, k: int, x: int) -> int
    decreases k,
{
    if k <= 0 {
        1
    } else if k - 1 == i {
        node_product(xs, i, k - 1, x)
    } else {
        node_product(xs, i, k - 1, x) * (x - xs[k - 1])
    }
}

proof fn lemma_node_product_zero(xs: Seq<int>, i: int, k: int, m: int)
    requires
        0 <= m < k,
        m != i,
    ensures
        node_product(xs, i, k, xs[m]) == 0,
    decreases k,
{
    let p = node_product(xs, i, k - 1, xs[m]);
    if m == k - 1 {
        assert(p * 0 == 0);
    } else {
        lemma_node_product_zero(xs, i, k - 1, m);
        assert(0 * (xs[m] - xs[k - 1]) == 0);
    }
}

/// Two different scalars have a difference that is not zero.
proof fn lemma_difference_nonzero(a: int, b: int)
    requires
        0 <= a < modulus(),
        0 <= b < modulus(),
        a != b,
    ensures
        (a - b) % modulus() != 0,
{
    if (a - b) % modulus() == 0 {
        lemma_modulus();
        lemma_reduced(0);
        lemma_eqm_difference(a, b);
        lemma_eqm_reduced(a, b);
    }
}

/// The basis polynomial for a point: the product of the linear factors of all others, with its value
/// at the point.
fn node_basis(points: &Vec<(Scalar, Scalar)>, i: usize) -> (res: (Poly, Scalar))
    requires
        i < points@.len(),
        points@.len() < 0x8000_0000,
        has_distinct_xs(points@),
    ensures
        res.0@.len() <= points@.len(),
        forall|x: int|
            eqm(
                #[trigger] eval(res.0@, x),
                node_product(xs_of(points@), i as int, points@.len() as int, x),
            ),
        eqm(
            res.1@,
            node_product(
                xs_of(points@),
                i as int,
                points@.len() as int,
                xs_of(points@)[i as int],
            ),
        ),
        res.1@ != 0,
{
    let ghost xs = xs_of(points@);
    let mut coeffs: Vec<Scalar> = Vec::new();
    coeffs.push(Scalar::one());
    let mut basis = Poly::from_coefficients_vec(coeffs);
    let mut denominator = Scalar::one();
    let x_i = points[i].0;
    proof {
        assert(vals(coeffs@) =~= seq![1int]);
        assert forall|x: int| eqm(
            #[trigger] eval(basis@, x),
            node_product(xs, i as int, 0, x),
        ) by {
            lemma_eval_same(basis@, seq![1int], x);
            lemma_eval_constant(1, x);
        }
    }
    let mut j: usize = 0;
    while j < points.len()
        invariant
            0 <= j <= points@.len(),
            i < points@.len(),
            points@.len() < 0x8000_0000,
            has_distinct_xs(points@),
            xs == xs_of(points@),
            x_i == points@[i as int].0,
            basis@.len() <= if j > i {
                j as int
            } else {
                j + 1
            },
            forall|x: int|
                eqm(#[trigger] eval(basis@, x), node_product(xs, i as int, j as int, x)),
            eqm(denominator@, node_product(xs, i as int, j as int, x_i@)),
            denominator@ != 0,
        decreases points@.len() - j,
    {
        if j != i {
            let x_j = points[j].0;
            let factor = Poly::linear(&x_j);
            let next = basis.mul(&factor);
            let difference = x_i.sub(&x_j);
            proof {
                assert forall|x: int| eqm(
                    #[trigger] eval(next@, x),
                    node_product(xs, i as int, j + 1, x),
                ) by {
                    let p = node_product(xs, i as int, j as int, x);
                    lemma_eval_same(next@, poly_mul(basis@, factor@), x);
                    lemma_eval_mul(basis@, factor@, x);
                    lemma_eval_same(factor@, linear(x_j@), x);
                    lemma_eval_linear(x_j@, x);
                    assert(eqm(eval(basis@, x), p));
                    lemma_eqm_mul(eval(basis@, x), p, eval(factor@, x), x - x_j@);
                }
                assert(points@[i as int].0@ != points@[j as int].0@);
                lemma_scalar_range(x_i);
                lemma_scalar_range(x_j);
                lemma_difference_nonzero(x_i@, x_j@);
                let d = node_product(xs, i as int, j as int, x_i@);
                lemma_eqm_mod(x_i@ - x_j@);
                lemma_eqm_mul(denominator@, d, difference@, x_i@ - x_j@);
                lemma_eqm_mod(denominator@ * difference@);
            }
            basis = next;
            denominator = denominator.mul(&difference);
        }
        j += 1;
    }
    (basis, denominator)
}

/// The polynomial of lowest degree through points with different first coordinates.
pub fn interpolate_polynomial(points: &Vec<(Scalar, Scalar)>) -> (res: Poly)
    requires
        points@.len() < 0x8000_0000,
        has_distinct_xs(points@),
    ensures
        passes_through(res@, points@),
        is_trimmed(res@),
{
    let ghost xs = xs_of(points@);
    let ghost n = points@.len() as int;
    let mut result = Poly::zero();
    let mut i: usize = 0;
    proof {
        assert forall|m: int| 0 <= m < n implies eqm(#[trigger] eval(result@, xs[m]), 0) by {
            assert(eval(result@, xs[m]) == 0);
        }
    }
    while i < points.len()
        invariant
            0 <= i <= points@.len(),
            points@.len() < 0x8000_0000,
            has_distinct_xs(points@),
            xs == xs_of(points@),
            n == points@.len(),
            result@.len() <= n,
            is_trimmed(result@),
            forall|m: int|
                0 <= m < n ==> eqm(
                    #[trigger] eval(result@, xs[m]),
                    if m < i {
                        points@[m].1@
                    } else {
                        0
                    },
                ),
        decreases points@.len() - i,
    {
        let (basis, denominator) = node_basis(points, i);
        let y_i = points[i].1;
        match denominator.inverse() {
            Some(inv) => {
                let factor = y_i.mul(&inv);
                let term = basis.scale(&factor);
                let next = result.add(&term);
                proof {
                    assert forall|m: int| 0 <= m < n implies eqm(
                        #[trigger] eval(next@, xs[m]),
                        if m < i + 1 {
                            points@[m].1@
                        } else {
                            0
                        },
                    ) by {
                        let x = xs[m];
                        let b = eval(basis@, x);
                        let p = node_product(xs, i as int, n, x);
                        lemma_eval_same(next@, poly_add(result@, term@), x);
                        lemma_eval_add(result@, term@, x);
                        lemma_eval_same(term@, poly_scale(basis@, factor@), x);
                        lemma_eval_scale(basis@, factor@, x);
                        assert(eqm(b, p));
                        lemma_eqm_mod(y_i@ * inv@);
                        lemma_eqm_mul(b, p, factor@, y_i@ * inv@);
                        let prev = if m < i {
                            points@[m].1@
                        } else {
                            0
                        };
                        assert(eqm(eval(result@, x), prev));
                        if m == i {
                            lemma_modulus();
                            lemma_reduced(1);
                            let d = denominator@;
                            lemma_eqm_mul(p, d, y_i@ * inv@, y_i@ * inv@);
                            lemma_eqm_mul(y_i@, y_i@, d * inv@, 1);
                            assert(d * (y_i@ * inv@) == y_i@ * (d * inv@)) by (nonlinear_arith);
                            assert(y_i@ * 1 == y_i@);
                            lemma_eqm_add(eval(result@, x), 0, eval(term@, x), y_i@);
                        } else {
                            lemma_node_product_zero(xs, i as int, n, m);
                            assert(0 * (y_i@ * inv@) == 0);
                            lemma_eqm_add(eval(result@, x), prev, eval(term@, x), 0);
                        }
                    }
                }
                result = next;
            },
            None => {},
        }
        i += 1;
    }
    proof {
        assert forall|m: int| 0 <= m < n implies eqm(
            eval(result@, (#[trigger] points@[m]).0@),
            points@[m].1@,
        ) by {
            assert(eqm(eval(result@, xs[m]), points@[m].1@));
        }
    }
    result
}

/// The polynomial `value + blind * (X - 1)`.
pub fn pedersen_polynomial(value: &Scalar, blind: &Scalar) -> (res: Poly)
    ensures
        same_poly(res@, pedersen_poly(value@, blind@)),
        is_trimmed(res@),
        res@.len() <= 2,
{
    let mut coeffs: Vec<Scalar> = Vec::new();
    coeffs.push(value.sub(blind));
    coeffs.push(*blind);
    let res = Poly::from_coefficients_vec(coeffs);
    proof {
        let v = vals(coeffs@);
        let p = pedersen_poly(value@, blind@);
        assert forall|k: int| eqm(#[trigger] coeff(res@, k), coeff(p, k)) by {
            assert(eqm(coeff(res@, k), coeff(v, k)));
            if k == 0 {
                assert(v[0] == coeffs@[0]@);
                lemma_eqm_mod(value@ - blind@);
            } else if k == 1 {
                assert(v[1] == coeffs@[1]@);
            }
        }
    }
    res
}

/// The polynomial `value + blind * (X - 1)`.
pub open spec fn pedersen_poly(value: int, blind: int) -> Seq<int> {
    seq![value - blind, blind]
}

/// The value of the polynomial of a commitment.
pub proof fn lemma_eval_pedersen(value: int, blind: int, x: int)
    ensures
        eval(pedersen_poly(value, blind), x) == value + blind * (x - 1),
{
    let p = pedersen_poly(value, blind);
    let f = |j: int| p[j] * pow(x, j as nat);
    assert(sum(2, f) == sum(1, f) + f(1));
    assert(sum(1, f) == sum(0, f) + f(0));
    lemma_pow0(x);
    lemma_pow1(x);
    assert(f(0) == value - blind) by {
        assert((value - blind) * 1 == value - blind);
    }
    assert(f(1) == blind * x);
    assert(blind * (x - 1) == blind * x - blind) by (nonlinear_arith);
}

/// The generator of the domain of the range proof.
pub fn range_omega() -> (res: Scalar)
    ensures
        res@ == range_root(),
{
    proof {
        lemma_range_size();
    }
    domain_generator(CHUNK_BITS as usize)
}

/// Whether a point is an element of the domain of the range proof, or would be one.
pub open spec fn is_range_element(point: int) -> bool {
    pow(point, range_size() as nat) % modulus() == 1
}

pub fn is_in_range_domain(point: &Scalar) -> (res: bool)
    ensures
        res == is_range_element(point@),
{
    point.pow(CHUNK_BITS as u64).equals(&Scalar::one())
}

/// The number without its lowest `i` bits.
pub open spec fn without_low_bits(v: int, i: int) -> int {
    v / (pow2(i as nat) as int)
}

/// A number without its lowest bits, one bit at a time.
pub proof fn lemma_low_bit(v: int, i: int)
    requires
        0 <= v,
        0 <= i,
    ensures
        without_low_bits(v, i) == 2 * without_low_bits(v, i + 1) + without_low_bits(v, i) % 2,
        without_low_bits(v, i + 1) == without_low_bits(v, i) / 2,
        0 <= without_low_bits(v, i) <= v,
{
    let p = pow2(i as nat) as int;
    lemma_pow2_pos(i as nat);
    lemma_pow2_unfold((i + 1) as nat);
    vstd::arithmetic::div_mod::lemma_div_denominator(v, p, 2);
    assert(p * 2 == 2 * p);
    vstd::arithmetic::div_mod::lemma_div_pos_is_pos(v, p);
    vstd::arithmetic::div_mod::lemma_div_is_ordered_by_denominator(v, 1, p);
    vstd::arithmetic::div_mod::lemma_div_by_self(1);
    assert(v / 1 == v);
}

/// The bits of a chunk, lowest first.
fn chunk_bits(chunk: &Scalar) -> (bits: Vec<Scalar>)
    requires
        chunk@ < chunk_radix(),
    ensures
        bits@.len() == range_size(),
        forall|i: int|
            0 <= i < range_size() ==> (#[trigger] bits@[i])@ == without_low_bits(chunk@, i) % 2,
{
    let mut value = *chunk;
    let mut bits: Vec<Scalar> = Vec::new();
    let mut i: usize = 0;
    proof {
        lemma2_to64();
        lemma_scalar_range(*chunk);
        vstd::arithmetic::div_mod::lemma_div_basics(chunk@);
        assert(pow2(0) == 1);
    }
    while i < CHUNK_BITS as usize
        invariant
            0 <= i <= range_size(),
            0 <= chunk@ < chunk_radix(),
            bits@.len() == i,
            value@ == without_low_bits(chunk@, i as int),
            forall|k: int|
                0 <= k < i ==> (#[trigger] bits@[k])@ == without_low_bits(chunk@, k) % 2,
        decreases range_size() - i,
    {
        proof {
            lemma2_to64();
            lemma_modulus();
            lemma_low_bit(chunk@, i as int);
        }
        let q = value.shift_right(1);
        let high = q.shift_left(1);
        proof {
            lemma_reduced(value@ - high@);
        }
        bits.push(value.sub(&high));
        value = q;
        i += 1;
    }
    bits
}

/// What a chunk has left without its lowest bits, for all numbers of bits.
fn chunk_prefixes(chunk: &Scalar) -> (g_values: Vec<Scalar>)
    requires
        chunk@ < chunk_radix(),
    ensures
        g_values@.len() == range_size(),
        forall|i: int|
            0 <= i < range_size() ==> (#[trigger] g_values@[i])@ == without_low_bits(chunk@, i),
{
    let bits = chunk_bits(chunk);
    let zero = Scalar::zero();
    let two = Scalar::from_u64(2);
    let mut g_values: Vec<Scalar> = vec![zero; 16];
    let mut next = zero;
    let mut i: usize = CHUNK_BITS as usize;
    proof {
        lemma_scalar_range(*chunk);
        lemma2_to64();
        vstd::arithmetic::div_mod::lemma_basic_div(chunk@, pow2(16) as int);
    }
    while i > 0
        invariant
            0 <= i <= range_size(),
            0 <= chunk@ < chunk_radix(),
            two@ == 2,
            bits@.len() == range_size(),
            g_values@.len() == range_size(),
            next@ == without_low_bits(chunk@, i as int),
            forall|k: int|
                0 <= k < range_size() ==> (#[trigger] bits@[k])@ == without_low_bits(chunk@, k) % 2,
            forall|k: int|
                i <= k < range_size() ==> (#[trigger] g_values@[k])@ == without_low_bits(
                    chunk@,
                    k,
                ),
        decreases i,
    {
        i -= 1;
        let doubled = two.mul(&next);
        let value = doubled.add(&bits[i]);
        proof {
            lemma_low_bit(chunk@, i as int);
            lemma_modulus();
            lemma_reduced(2 * next@);
            lemma_reduced(doubled@ + bits@[i as int]@);
        }
        g_values.set(i, value);
        next = value;
    }
    g_values
}

/// The points of the polynomial of a chunk: what it has left without its lowest bits, on the domain,
/// and two blinding values outside of it.
pub open spec fn is_bit_poly(g: Seq<int>, chunk: int, blind1: int, blind2: int) -> bool {
    &&& g.len() <= range_size() + 2
    &&& forall|i: int|
        0 <= i < range_size() ==> eqm(
            #[trigger] eval(g, pow(range_root(), i as nat)),
            without_low_bits(chunk, i),
        )
    &&& eqm(eval(g, 3), blind1)
    &&& eqm(eval(g, 5), blind2)
}

/// Sixteenth powers of the two points outside of the domain.
proof fn lemma_blinding_points()
    ensures
        !is_range_element(3),
        !is_range_element(5),
{
    lemma_sixteenth_power(3, 9, 81, 6561, 43046721);
    lemma_sixteenth_power(5, 25, 625, 390625, 152587890625);
    lemma_modulus();
    lemma_reduced(43046721);
    lemma_reduced(152587890625);
}

proof fn lemma_sixteenth_power(x: int, x2: int, x4: int, x8: int, x16: int)
    requires
        x2 == x * x,
        x4 == x2 * x2,
        x8 == x4 * x4,
        x16 == x8 * x8,
    ensures
        pow(x, 16) == x16,
{
    lemma_pow1(x);
    lemma_pow_adds(x, 1, 1);
    lemma_pow_adds(x, 2, 2);
    lemma_pow_adds(x, 4, 4);
    lemma_pow_adds(x, 8, 8);
}

/// An element of the domain is none of the points outside of it.
proof fn lemma_not_range_element(i: nat, x: int)
    requires
        0 <= x < modulus(),
        !is_range_element(x),
    ensures
        pow(range_root(), i) % modulus() != x,
{
    let w = pow(range_root(), i);
    if w % modulus() == x {
        lemma_range_size();
        lemma_root_power_order(range_size(), i);
        lemma_eqm_mod(w);
        crate::algebra::congruence::lemma_eqm_pow(x, w, range_size() as nat);
        lemma_modulus();
        lemma_reduced(1);
    }
}

/// The polynomial of a chunk with given blinding values.
pub fn range_g_polynomial(chunk: &Scalar, blind1: &Scalar, blind2: &Scalar) -> (res: Poly)
    requires
        chunk@ < chunk_radix(),
    ensures
        is_bit_poly(res@, chunk@, blind1@, blind2@),
        is_trimmed(res@),
{
    let g_values = chunk_prefixes(chunk);
    let w = range_omega();
    let mut points: Vec<(Scalar, Scalar)> = Vec::new();
    let mut i: usize = 0;
    while i < CHUNK_BITS as usize
        invariant
            0 <= i <= range_size(),
            w@ == range_root(),
            g_values@.len() == range_size(),
            points@.len() == i,
            forall|k: int|
                0 <= k < i ==> (#[trigger] points@[k]).0@ == pow(range_root(), k as nat)
                    % modulus() && points@[k].1 == g_values@[k],
        decreases range_size() - i,
    {
        points.push((w.pow(i as u64), g_values[i]));
        i += 1;
    }
    let three = Scalar::from_u64(3);
    let five = Scalar::from_u64(5);
    points.push((three, *blind1));
    points.push((five, *blind2));
    proof {
        lemma_range_size();
        lemma_blinding_points();
        lemma_modulus();
        assert forall|a: int, b: int|
            0 <= a < points@.len() && 0 <= b < points@.len() && a != b implies (
        #[trigger] points@[a]).0@ != (#[trigger] points@[b]).0@ by {
            if a < range_size() {
                lemma_not_range_element(a as nat, 3);
                lemma_not_range_element(a as nat, 5);
            }
            if b < range_size() {
                lemma_not_range_element(b as nat, 3);
                lemma_not_range_element(b as nat, 5);
            }
            if a < range_size() && b < range_size() {
                let x = pow(range_root(), a as nat);
                let y = pow(range_root(), b as nat);
                lemma_root_difference_is_unit(range_size(), a as nat, b as nat);
                lemma_unit_nonzero(x - y);
                if x % modulus() == y % modulus() {
                    lemma_eqm_difference(x, y);
                    lemma_reduced(0);
                }
            }
        }
    }
    let res = interpolate_polynomial(&points);
    proof {
        assert forall|k: int| 0 <= k < range_size() implies eqm(
            #[trigger] eval(res@, pow(range_root(), k as nat)),
            without_low_bits(chunk@, k),
        ) by {
            let x = pow(range_root(), k as nat);
            assert(eqm(eval(res@, points@[k].0@), points@[k].1@));
            lemma_eqm_mod(x);
            lemma_eval_point(res@, x % modulus(), x);
            assert(g_values@[k]@ == without_low_bits(chunk@, k));
        }
        assert(eqm(eval(res@, points@[16].0@), points@[16].1@));
        assert(eqm(eval(res@, points@[17].0@), points@[17].1@));
    }
    res
}

/// `X^16 - 1` without the linear factor of `excluded`.
fn vanishing_except(excluded: &Scalar) -> (res: Poly)
    ensures
        same_poly(res@, vanishing_without(range_size(), excluded@)),
        res@.len() <= range_size(),
{
    let vanishing_poly = Poly::vanishing(CHUNK_BITS as usize);
    let divisor = Poly::linear(excluded);
    let res = vanishing_poly.div(&divisor);
    proof {
        lemma_quotient_same(
            res@,
            vanishing_poly@,
            vanishing(range_size()),
            divisor@,
            linear(excluded@),
        );
        lemma_vanishing_without(res@, range_size(), excluded@);
    }
    res
}

/// The first constraint: the polynomial of the chunk and that of the commitment agree at one.
pub open spec fn start_poly(f: Seq<int>, g: Seq<int>) -> Seq<int> {
    poly_mul(poly_sub(g, f), vanishing_without(range_size(), 1))
}

/// The second constraint: the last value of the polynomial of the chunk is a bit.
pub open spec fn end_poly(g: Seq<int>) -> Seq<int> {
    poly_mul(poly_mul(g, poly_sub(seq![1], g)), vanishing_without(range_size(), range_last()))
}

/// Twice the next value of the polynomial of the chunk.
pub open spec fn doubled_next(g: Seq<int>) -> Seq<int> {
    poly_scale(poly_shift(g, range_root()), 2)
}

/// The third constraint: every value but the last is twice the next one and a bit.
pub open spec fn step_poly(g: Seq<int>) -> Seq<int> {
    poly_mul(
        poly_mul(
            poly_sub(g, doubled_next(g)),
            poly_add(poly_sub(seq![1], g), doubled_next(g)),
        ),
        linear(range_last()),
    )
}

/// All three constraints, combined by a challenge.
pub open spec fn range_poly(f: Seq<int>, g: Seq<int>, tau: int) -> Seq<int> {
    poly_add(
        poly_add(start_poly(f, g), poly_scale(end_poly(g), tau)),
        poly_scale(step_poly(g), tau * tau),
    )
}

/// The quotient of the combined constraints by `X^16 - 1`.
#[verifier::rlimit(40)]
pub fn range_q_polynomial(f: &Poly, g: &Poly, tau: &Scalar) -> (res: Poly)
    requires
        f@.len() <= 2,
        g@.len() <= range_size() + 2,
    ensures
        is_quotient(res@, range_poly(f@, g@, tau@), vanishing(range_size())),
        is_trimmed(res@),
        res@.len() <= 34,
{
    let omega = range_omega();
    let omega_last = omega.pow((CHUNK_BITS - 1) as u64);
    let mut one_coeffs: Vec<Scalar> = Vec::new();
    one_coeffs.push(Scalar::one());
    let one = Poly::from_coefficients_vec(one_coeffs);
    let two = Scalar::from_u64(2);
    let g_shifted = g.shift(&omega);
    let doubled = g_shifted.scale(&two);
    let ghost fv = f@;
    let ghost gv = g@;
    proof {
        assert(vals(one_coeffs@) =~= seq![1int]);
        lemma_scale_same(g_shifted@, poly_shift(gv, range_root()), 2, 2);
        lemma_same_trans(doubled@, poly_scale(g_shifted@, 2), doubled_next(gv));
    }

    let g_minus_f = g.sub(f);
    let except_first = vanishing_except(&Scalar::one());
    let w1 = g_minus_f.mul(&except_first);
    proof {
        lemma_mul_same(
            g_minus_f@,
            poly_sub(gv, fv),
            except_first@,
            vanishing_without(range_size(), 1),
        );
        lemma_same_trans(w1@, poly_mul(g_minus_f@, except_first@), start_poly(fv, gv));
    }

    let complement = one.sub(g);
    let bit = g.mul(&complement);
    let except_last = vanishing_except(&omega_last);
    let w2 = bit.mul(&except_last);
    let w2_scaled = w2.scale(tau);
    proof {
        let ones = seq![1int];
        lemma_add_same(one@, ones, gv, gv);
        lemma_same_trans(complement@, poly_sub(one@, gv), poly_sub(ones, gv));
        lemma_mul_same(gv, gv, complement@, poly_sub(ones, gv));
        lemma_same_trans(
            bit@,
            poly_mul(gv, complement@),
            poly_mul(gv, poly_sub(ones, gv)),
        );
        lemma_mul_same(
            bit@,
            poly_mul(gv, poly_sub(ones, gv)),
            except_last@,
            vanishing_without(range_size(), range_last()),
        );
        lemma_same_trans(w2@, poly_mul(bit@, except_last@), end_poly(gv));
        lemma_scale_same(w2@, end_poly(gv), tau@, tau@);
        lemma_same_trans(w2_scaled@, poly_scale(w2@, tau@), poly_scale(end_poly(gv), tau@));
    }

    let transition = g.sub(&doubled);
    let transition_complement = complement.add(&doubled);
    let steps = transition.mul(&transition_complement);
    let last_factor = Poly::linear(&omega_last);
    let w3 = steps.mul(&last_factor);
    let tau_squared = tau.mul(tau);
    let w3_scaled = w3.scale(&tau_squared);
    proof {
        let ones = seq![1int];
        let dn = doubled_next(gv);
        lemma_add_same(gv, gv, doubled@, dn);
        lemma_same_trans(transition@, poly_sub(gv, doubled@), poly_sub(gv, dn));
        lemma_add_same(complement@, poly_sub(ones, gv), doubled@, dn);
        lemma_same_trans(
            transition_complement@,
            poly_add(complement@, doubled@),
            poly_add(poly_sub(ones, gv), dn),
        );
        lemma_mul_same(
            transition@,
            poly_sub(gv, dn),
            transition_complement@,
            poly_add(poly_sub(ones, gv), dn),
        );
        let both = poly_mul(poly_sub(gv, dn), poly_add(poly_sub(ones, gv), dn));
        lemma_same_trans(steps@, poly_mul(transition@, transition_complement@), both);
        lemma_mul_same(steps@, both, last_factor@, linear(range_last()));
        lemma_same_trans(w3@, poly_mul(steps@, last_factor@), step_poly(gv));
        lemma_eqm_mod(tau@ * tau@);
        lemma_scale_same(w3@, step_poly(gv), tau_squared@, tau@ * tau@);
        lemma_same_trans(
            w3_scaled@,
            poly_scale(w3@, tau_squared@),
            poly_scale(step_poly(gv), tau@ * tau@),
        );
    }

    let first_two = w1.add(&w2_scaled);
    let combined = first_two.add(&w3_scaled);
    proof {
        let s1 = start_poly(fv, gv);
        let s2 = poly_scale(end_poly(gv), tau@);
        let s3 = poly_scale(step_poly(gv), tau@ * tau@);
        lemma_add_same(w1@, s1, w2_scaled@, s2);
        lemma_same_trans(first_two@, poly_add(w1@, w2_scaled@), poly_add(s1, s2));
        lemma_add_same(first_two@, poly_add(s1, s2), w3_scaled@, s3);
        lemma_same_trans(
            combined@,
            poly_add(first_two@, w3_scaled@),
            range_poly(fv, gv, tau@),
        );
    }
    let vanishing_poly = Poly::vanishing(CHUNK_BITS as usize);
    let res = combined.div(&vanishing_poly);
    proof {
        lemma_quotient_same(
            res@,
            combined@,
            range_poly(fv, gv, tau@),
            vanishing_poly@,
            vanishing(range_size()),
        );
    }
    res
}

/// The value of the third constraint, from the values of the polynomial of the chunk.
pub open spec fn step_value(g: int, next: int, x: int) -> int {
    (g - next * 2) * (1 - g + next * 2) * (x - range_last())
}

/// The value of the combined constraints.
pub proof fn lemma_eval_range_poly(f: Seq<int>, g: Seq<int>, tau: int, x: int)
    ensures
        eval(range_poly(f, g, tau), x) == (eval(g, x) - eval(f, x)) * eval(
            vanishing_without(range_size(), 1),
            x,
        ) + eval(g, x) * (1 - eval(g, x)) * eval(
            vanishing_without(range_size(), range_last()),
            x,
        ) * tau + step_value(eval(g, x), eval(g, range_root() * x), x) * (tau * tau),
{
    let ones = seq![1int];
    let dn = doubled_next(g);
    lemma_eval_add(
        poly_add(start_poly(f, g), poly_scale(end_poly(g), tau)),
        poly_scale(step_poly(g), tau * tau),
        x,
    );
    lemma_eval_add(start_poly(f, g), poly_scale(end_poly(g), tau), x);
    lemma_eval_scale(end_poly(g), tau, x);
    lemma_eval_scale(step_poly(g), tau * tau, x);
    lemma_eval_mul(poly_sub(g, f), vanishing_without(range_size(), 1), x);
    lemma_eval_sub(g, f, x);
    lemma_eval_mul(
        poly_mul(g, poly_sub(ones, g)),
        vanishing_without(range_size(), range_last()),
        x,
    );
    lemma_eval_mul(g, poly_sub(ones, g), x);
    lemma_eval_sub(ones, g, x);
    lemma_eval_constant(1, x);
    lemma_eval_scale(poly_shift(g, range_root()), 2, x);
    lemma_eval_shift(g, range_root(), x);
    let both = poly_mul(poly_sub(g, dn), poly_add(poly_sub(ones, g), dn));
    lemma_eval_mul(both, linear(range_last()), x);
    lemma_eval_linear(range_last(), x);
    lemma_eval_mul(poly_sub(g, dn), poly_add(poly_sub(ones, g), dn), x);
    lemma_eval_sub(g, dn, x);
    lemma_eval_add(poly_sub(ones, g), dn, x);
}

} // verus!
