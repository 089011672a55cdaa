//! Laws of the polynomials that range proofs are made of, and of commitments to them.
use crate::algebra::congruence::{
    eqm, lemma_eqm_add, lemma_eqm_mod, lemma_eqm_mul, lemma_eqm_sub, lemma_modulus, lemma_reduced,
    modulus,
};
use crate::algebra::lagrange::{lagrange, lemma_lagrange_value};
use crate::algebra::polynomial::{
    eval, is_division, lemma_commitment_value, lemma_division_value, lemma_eval_same,
    lemma_eval_vanishing, lemma_linear_quotient, vanishing,
};
use crate::algebra::polynomial::{is_quotient, lemma_quotient_exact};
use crate::algebra::quotients::{
    cross_product, lemma_cross_product_value, lemma_cross_product_vanishes, lemma_root_power_order,
    lemma_vanishing_without_value, vanishing_without,
};
use crate::algebra::roots::{is_domain_size, lemma_root_half, unity_root};
use crate::cca::polynomials::{
    interpolate_polynomial, is_in_range_domain, lemma_eval_pedersen, lemma_eval_range_poly,
    lemma_range_size, pedersen_poly, pedersen_polynomial, range_g_polynomial, range_last,
    range_omega, range_poly, range_q_polynomial, range_root, without_low_bits,
};
use crate::cca::range::range_crs_has_enough_degree;
use crate::cca::{
    pedersen_blinding_base, pedersen_commitment, pedersen_value_base, PedersenCommitments,
    PedersenOpenings,
};
use crate::field::{are_draws, vals, Scalar};
use crate::group::G1;
use crate::poly::Poly;
use crate::ste::crs::{is_generated_slot, CRS};
use crate::ste::setup::{is_cross_row, LagPolys};
use crate::ste::utils::lagrange_poly;
use ark_std::rand::rngs::StdRng;
use vstd::arithmetic::power::pow;
use vstd::arithmetic::power2::pow2;
use vstd::prelude::*;

verus! {

/// The interpolated polynomial takes the values at the points, with no more coefficients than there are
/// points.
pub proof fn law_interpolation(points: Vec<(Scalar, Scalar)>, p: Poly, i: int)
    requires
        call_ensures(interpolate_polynomial, (&points,), p),
        0 <= i < points@.len(),
    ensures
        eqm(eval(p@, points@[i].0@), points@[i].1@),
        p@.len() <= points@.len(),
{
}

/// The polynomial of a commitment takes the value at one, and the blinding scalar is its slope.
pub proof fn law_pedersen_polynomial(value: Scalar, blind: Scalar, p: Poly, x: int)
    requires
        call_ensures(pedersen_polynomial, (&value, &blind), p),
    ensures
        eqm(eval(p@, 1), value@),
        eqm(eval(p@, x), value@ + blind@ * (x - 1)),
        p@.len() <= 2,
{
    lemma_eval_same(p@, pedersen_poly(value@, blind@), x);
    lemma_eval_same(p@, pedersen_poly(value@, blind@), 1);
    lemma_eval_pedersen(value@, blind@, x);
    lemma_eval_pedersen(value@, blind@, 1);
    assert(blind@ * (1 - 1) == 0);
}

/// The polynomial of a chunk takes the chunk without its lowest bits on the domain, and the blinding
/// values at three and five.
pub proof fn law_bit_polynomial(
    chunk: Scalar,
    blind1: Scalar,
    blind2: Scalar,
    p: Poly,
    i: int,
)
    requires
        call_ensures(range_g_polynomial, (&chunk, &blind1, &blind2), p),
        0 <= i < 16,
    ensures
        eqm(eval(p@, pow(unity_root(16), i as nat)), chunk@ / (pow2(i as nat) as int)),
        eqm(eval(p@, 3), blind1@),
        eqm(eval(p@, 5), blind2@),
        p@.len() <= 18,
{
    assert(eqm(eval(p@, pow(range_root(), i as nat)), without_low_bits(chunk@, i)));
}

/// The generator of the domain has order sixteen.
pub proof fn law_omega(w: Scalar)
    requires
        call_ensures(range_omega, (), w),
    ensures
        w@ == unity_root(16),
        eqm(pow(w@, 16), 1),
        eqm(pow(w@, 8), -1),
{
    lemma_range_size();
    assert(is_domain_size(16));
    lemma_root_power_order(16, 1);
    vstd::arithmetic::power::lemma_pow1(w@);
    lemma_half();
}

proof fn lemma_half()
    ensures
        eqm(pow(unity_root(16), 8), -1),
{
    reveal_with_fuel(crate::algebra::roots::is_power_of_two, 6);
    lemma_root_half(8);
}

/// A point is in the domain exactly if its sixteenth power is one.
pub proof fn law_in_domain(x: Scalar, ok: bool)
    requires
        call_ensures(is_in_range_domain, (&x,), ok),
    ensures
        ok <==> eqm(pow(x@, 16), 1),
{
    lemma_modulus();
    lemma_reduced(1);
}

/// A reference string has enough powers if every slot, and the first slot of the second group, has
/// thirty-five.
pub proof fn law_enough_degree(crs: CRS, ok: bool)
    requires
        call_ensures(range_crs_has_enough_degree, (&crs,), ok),
    ensures
        ok <==> (crs.powers_of_h@[0]@.len() >= 35 && forall|k: int|
            0 <= k < crs.l && k < crs.powers_of_g@.len() ==> (#[trigger] crs.powers_of_g@[k])@.len()
                >= 35),
{
}

/// The value of the combined constraints at `x`, where `e1` and `e2` are `x^16 - 1` over `x - 1` and
/// over `x - w15`: the chunk is the committed value, its last part is a bit, and every part is twice
/// the next and a bit.
pub open spec fn combined(
    f: int,
    g: int,
    next: int,
    tau: int,
    x: int,
    w15: int,
    e1: int,
    e2: int,
) -> int {
    (g - f) * e1 + tau * (g * (1 - g) * e2) + tau * tau * ((g - 2 * next) * (1 - g + 2 * next) * (x
        - w15))
}

/// The quotient polynomial, times `X^16 - 1`, is the combined constraints up to a remainder of at most
/// sixteen coefficients.
pub proof fn law_quotient_polynomial(f: Poly, g: Poly, tau: Scalar, q: Poly) -> (r: Seq<int>)
    requires
        call_ensures(range_q_polynomial, (&f, &g, &tau), q),
    ensures
        q@.len() <= 34,
        r.len() <= 16,
        forall|x: int| #[trigger]
            eqm(
                combined(
                    eval(f@, x),
                    eval(g@, x),
                    eval(g@, unity_root(16) * x),
                    tau@,
                    x,
                    pow(unity_root(16), 15) % modulus(),
                    eval(vanishing_without(16, 1), x),
                    eval(vanishing_without(16, pow(unity_root(16), 15) % modulus()), x),
                ),
                eval(q@, x) * (pow(x, 16) - 1) + eval(r, x),
            ),
{
    let a = range_poly(f@, g@, tau@);
    let b = vanishing(16);
    let r = choose|r: Seq<int>| #[trigger] is_division(q@, a, b, r);
    let last = range_last();
    assert forall|x: int| #[trigger]
        eqm(
            combined(
                eval(f@, x),
                eval(g@, x),
                eval(g@, unity_root(16) * x),
                tau@,
                x,
                pow(unity_root(16), 15) % modulus(),
                eval(vanishing_without(16, 1), x),
                eval(vanishing_without(16, pow(unity_root(16), 15) % modulus()), x),
            ),
            eval(q@, x) * (pow(x, 16) - 1) + eval(r, x),
        ) by {
        lemma_division_value(q@, a, b, r, x);
        lemma_eval_vanishing(16, x);
        lemma_eval_range_poly(f@, g@, tau@, x);
        let u = eval(g@, x);
        let v = eval(g@, unity_root(16) * x);
        let e2 = eval(vanishing_without(16, last), x);
        let t = tau@;
        assert(u * (1 - u) * e2 * t == t * (u * (1 - u) * e2)) by (nonlinear_arith);
        assert(v * 2 == 2 * v);
        let k = (u - 2 * v) * (1 - u + 2 * v) * (x - last);
        let tt = t * t;
        assert(k * tt == tt * k) by (nonlinear_arith);
    }
    r
}

/// The two factors of the constraints are `X^16 - 1` over a linear factor.
pub proof fn law_vanishing_without(c: int, x: int)
    requires
        eqm(pow(c, 16), 1),
    ensures
        eqm(eval(vanishing_without(16, c), x) * (x - c), pow(x, 16) - 1),
{
    lemma_vanishing_without_value(16, c, x);
    lemma_eqm_sub(pow(x, 16), pow(x, 16), pow(c, 16), 1);
}

/// Basis polynomials are one at their own element of the domain and zero at all others.
pub proof fn law_lagrange_poly(n: usize, i: usize, p: Poly, j: int)
    requires
        is_domain_size(n as int),
        i < n,
        0 <= j < n,
        call_ensures(lagrange_poly, (n, i), p),
    ensures
        eqm(
            eval(p@, pow(unity_root(n as int), j as nat)),
            if i == j {
                1
            } else {
                0
            },
        ),
{
    let x = pow(unity_root(n as int), j as nat);
    lemma_eval_same(p@, lagrange(n as int, i as int), x);
    lemma_lagrange_value(n as int, i as int, j);
}

/// The polynomials for positions: the basis, and what is left of it without its value at zero, times
/// and over `X`. One over the number of parties goes with them.
pub proof fn law_lag_polys(n: usize, polys: LagPolys, i: int, j: int, x: int)
    requires
        is_domain_size(n as int),
        2 <= n,
        0 <= i < n,
        0 <= j < n,
        call_ensures(LagPolys::new, (n,), polys),
    ensures
        eqm(
            eval(polys.l@[i]@, pow(unity_root(n as int), j as nat)),
            if i == j {
                1
            } else {
                0
            },
        ),
        polys.l@.len() == n,
        polys.l@[i]@.len() == n,
        eqm(n * polys.denom@, 1),
        eqm(eval(polys.l@[i]@, x), polys.denom@ + x * eval(polys.l_x@[i]@, x)),
        eqm(eval(polys.l_minus0@[i]@, x), x * x * eval(polys.l_x@[i]@, x)),
{
    let m = n as int;
    let y = pow(unity_root(m), j as nat);
    let inv = crate::algebra::lagrange::size_inverse(m);
    lemma_eval_same(polys.l@[i]@, lagrange(m, i), y);
    lemma_lagrange_value(m, i, j);
    crate::algebra::lagrange::lemma_size_inverse(m);
    lemma_eqm_mul(m, m, polys.denom@, inv);
    crate::ste::decryption::lemma_lagrange_tail(m, i, x);
    lemma_eval_same(polys.l@[i]@, lagrange(m, i), x);
    let lx = crate::ste::setup::lagrange_x(m, i);
    lemma_eval_same(polys.l_x@[i]@, lx, x);
    lemma_eval_same(polys.l_minus0@[i]@, crate::ste::setup::lagrange_minus0(m, i), x);
    let e = eval(polys.l_x@[i]@, x);
    lemma_eqm_mul(x, x, e, eval(lx, x));
    lemma_eqm_add(polys.denom@, inv, x * e, x * eval(lx, x));
    lemma_eqm_mul(x * x, x * x, e, eval(lx, x));
}

/// A commitment to a polynomial is its value at the secret, on the base of the slot, and the proof of
/// its value at a point is the slope between the point and the secret.
pub proof fn law_opening_proof(
    n: usize,
    tau: Scalar,
    alphas: Vec<Scalar>,
    gamma: Scalar,
    crs: CRS,
    coeffs: Vec<Scalar>,
    slot: usize,
    c: G1,
    point: Scalar,
    opening: G1,
)
    requires
        call_ensures(CRS::from_trapdoor, (n, &tau, &alphas, &gamma), crs),
        slot < alphas@.len(),
        coeffs@.len() <= n + 1,
        call_ensures(CRS::commit_g1, (&crs, &coeffs, slot), c),
        call_ensures(CRS::compute_opening_proof, (&crs, &coeffs, &point, slot), opening),
    ensures
        eqm(c@, alphas@[slot as int]@ * eval(vals(coeffs@), tau@)),
        eqm(
            c@ - alphas@[slot as int]@ * eval(vals(coeffs@), point@),
            opening@ * (tau@ - point@),
        ),
{
    let k = slot as int;
    let a = alphas@[k]@;
    let f = vals(coeffs@);
    let powers = vals(crs.powers_of_g@[k]@);
    assert(vals(alphas@)[k] == a);
    assert(is_generated_slot(&crs, k, vals(alphas@)[k], tau@, gamma@));
    assert(crs.slot_wf(k));
    assert(powers.len() == n + 1);
    assert forall|j: int| 0 <= j < n + 1 implies eqm(
        #[trigger] powers[j],
        a * pow(tau@, j as nat),
    ) by {}
    lemma_commitment_value(f, powers, a, tau@);
    lemma_eqm_mod(crate::algebra::polynomial::commitment(f, powers));
    let q = choose|q: Seq<int>| #[trigger]
        crate::algebra::polynomial::is_quotient(
            q,
            f,
            crate::algebra::polynomial::linear(point@),
        ) && q.len() <= f.len() && opening@ == crate::algebra::polynomial::commitment(q, powers)
            % modulus();
    lemma_commitment_value(q, powers, a, tau@);
    lemma_eqm_mod(crate::algebra::polynomial::commitment(q, powers));
    lemma_linear_quotient(q, f, point@, tau@);
    let u = eval(f, tau@);
    let v = eval(f, point@);
    let s = eval(q, tau@);
    let d = tau@ - point@;
    lemma_eqm_mul(a, a, u - v, s * d);
    lemma_eqm_sub(c@, a * u, a * v, a * v);
    lemma_eqm_mul(opening@, a * s, d, d);
    assert(a * (u - v) == a * u - a * v) by (nonlinear_arith);
    assert(a * (s * d) == a * s * d) by (nonlinear_arith);
}

/// The bases of a commitment are the first power of the slot and the difference of the first two, and a
/// commitment is the value on the one and the blinding scalar on the other.
pub proof fn law_pedersen(
    crs: CRS,
    chunk: usize,
    value: Scalar,
    blind: Scalar,
    v: G1,
    b: G1,
    c: G1,
)
    requires
        call_ensures(pedersen_value_base, (&crs, chunk), v),
        call_ensures(pedersen_blinding_base, (&crs, chunk), b),
        call_ensures(pedersen_commitment, (&crs, chunk, &value, &blind), c),
    ensures
        v@ == crs.powers_of_g@[chunk as int]@[0]@,
        b@ == (crs.powers_of_g@[chunk as int]@[1]@ - crs.powers_of_g@[chunk as int]@[0]@)
            % modulus(),
        c@ == (v@ * value@ + b@ * blind@) % modulus(),
{
}

/// Whether every point is the commitment to a value with a blinding scalar, in the slot of its own.
pub open spec fn commit_to(
    points: Seq<G1>,
    crs: &CRS,
    values: Seq<Scalar>,
    blinds: Seq<Scalar>,
) -> bool {
    &&& points.len() == values.len()
    &&& blinds.len() == values.len()
    &&& forall|i: int|
        0 <= i < points.len() ==> eqm(
            (#[trigger] points[i])@,
            crs.powers_of_g@[i]@[0]@ * (values[i]@ - blinds[i]@) + crs.powers_of_g@[i]@[1]@
                * blinds[i]@,
        )
}

proof fn lemma_commit_to(points: Seq<G1>, crs: &CRS, values: Seq<Scalar>, blinds: Seq<Scalar>)
    requires
        crate::cca::are_pedersen(points, crs, vals(values), vals(blinds)),
    ensures
        commit_to(points, crs, values, blinds),
{
    assert(vals(values).len() == values.len());
    assert(vals(blinds).len() == blinds.len());
    assert forall|i: int| 0 <= i < points.len() implies eqm(
        (#[trigger] points[i])@,
        crs.powers_of_g@[i]@[0]@ * (values[i]@ - blinds[i]@) + crs.powers_of_g@[i]@[1]@
            * blinds[i]@,
    ) by {
        let g0 = crs.powers_of_g@[i]@[0]@;
        let g1 = crs.powers_of_g@[i]@[1]@;
        let v = values[i]@;
        let b = blinds[i]@;
        let d = (g1 - g0) % modulus();
        assert(points[i]@ == (g0 * v + d * b) % modulus());
        lemma_eqm_mod(g1 - g0);
        lemma_eqm_mul(d, g1 - g0, b, b);
        lemma_eqm_add(g0 * v, g0 * v, d * b, (g1 - g0) * b);
        lemma_eqm_mod(g0 * v + d * b);
        assert(g0 * v + (g1 - g0) * b == g0 * (v - b) + g1 * b) by (nonlinear_arith);
    }
}

/// Commitments are to the given values, with the given blinding scalars.
pub proof fn law_commit_with_randomness(
    chunks: Vec<Scalar>,
    crs: CRS,
    randomness: Vec<Scalar>,
    c: PedersenCommitments,
)
    requires
        call_ensures(PedersenCommitments::with_randomness, (&chunks, &crs, &randomness), c),
    ensures
        commit_to(c.commitments@, &crs, chunks@, randomness@),
{
    lemma_commit_to(c.commitments@, &crs, chunks@, randomness@);
}

/// Fresh commitments have what the generator yields as blinding scalars.
pub proof fn law_commit(
    chunks: Vec<Scalar>,
    crs: CRS,
    rng: &mut StdRng,
    c: PedersenCommitments,
    openings: PedersenOpenings,
)
    requires
        call_ensures(PedersenCommitments::commit, (&chunks, &crs, rng), (c, openings)),
    ensures
        commit_to(c.commitments@, &crs, chunks@, openings.randomness@),
        are_draws(*old(rng), *final(rng), openings.randomness@),
{
    lemma_commit_to(c.commitments@, &crs, chunks@, openings.randomness@);
}

/// The quotients of the products of two basis polynomials: times `X^n - 1` each is the product, less the
/// basis polynomial itself where the two are the same.
pub proof fn law_cross_polys(n: usize, polys: LagPolys, i: int, j: int, x: int)
    requires
        is_domain_size(n as int),
        2 <= n,
        0 <= i < n,
        0 <= j < n,
        call_ensures(LagPolys::new, (n,), polys),
    ensures
        eqm(
            eval(polys.li_lj_z@[i]@[j]@, x) * (pow(x, n as nat) - 1),
            eval(polys.l@[i]@, x) * eval(polys.l@[j]@, x) - if i == j {
                eval(polys.l@[i]@, x)
            } else {
                0
            },
        ),
{
    let m = n as int;
    let a = cross_product(m, i, j);
    let row = polys.li_lj_z@[i]@;
    assert(row.len() == m && is_cross_row(row, m, i));
    assert(is_quotient(row[j]@, a, vanishing(m)));
    assert forall|k: int| 0 <= k < m implies eqm(
        #[trigger] eval(a, pow(unity_root(m), k as nat)),
        0,
    ) by {
        lemma_cross_product_vanishes(m, i, j, k);
    }
    lemma_quotient_exact(row[j]@, a, m, x);
    lemma_cross_product_value(m, i, j, x);
    let u = eval(polys.l@[i]@, x);
    let v = eval(polys.l@[j]@, x);
    let p = eval(lagrange(m, i), x);
    let q = eval(lagrange(m, j), x);
    lemma_eval_same(polys.l@[i]@, lagrange(m, i), x);
    lemma_eval_same(polys.l@[j]@, lagrange(m, j), x);
    lemma_eqm_mul(u, p, v, q);
    if i == j {
        assert(p * 1 == p);
        lemma_eqm_sub(u * v, p * q, u, p);
    } else {
        assert(p * 0 == 0);
    }
}

} // verus!
