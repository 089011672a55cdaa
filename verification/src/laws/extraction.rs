//! What accepted range proofs show of the committed value.
use crate::algebra::congruence::{
    eqm, lemma_eqm_add, lemma_eqm_difference, lemma_eqm_mod, lemma_eqm_mul, lemma_eqm_sub,
};
use crate::algebra::polynomial::{
    eval, lemma_eval_mul, lemma_eval_sub, lemma_eval_vanishing, poly_mul, poly_sub, vanishing,
};
use crate::algebra::primality::lemma_no_zero_divisors;
use crate::algebra::quotients::{
    lemma_linear_quotient_value, lemma_root_power_order, lemma_vanishing_without_value,
    linear_quotient,
};
use crate::algebra::roots::unity_root;
use crate::cca::polynomials::{lemma_eval_range_poly, lemma_range_size, range_last, range_poly};
use crate::cca::range::{first_quotient, last_quotient, RangeChunkProof, RangeProof};
use crate::cca::soundness::{constraints_vanish, lemma_constraints_give_range};
use crate::cca::PedersenCommitments;
use crate::laws::range::{is_quotient_at, law_range_verify};
use crate::ste::crs::CRS;
use vstd::arithmetic::power::{lemma1_pow, pow};
use vstd::prelude::*;

verus! {

/// A polynomial that has as many roots as coefficients is zero everywhere.
pub proof fn law_roots(p: Seq<int>, roots: Seq<int>, x: int)
    requires
        p.len() <= roots.len(),
        forall|i: int, j: int|
            0 <= i < j < roots.len() ==> !eqm(#[trigger] roots[i], #[trigger] roots[j]),
        forall|i: int| 0 <= i < roots.len() ==> eqm(eval(p, #[trigger] roots[i]), 0),
    ensures
        eqm(eval(p, x), 0),
    decreases roots.len(),
{
    let n = roots.len() as int;
    if n == 0 {
        assert(eval(p, x) == 0);
    } else {
        let c = roots[n - 1];
        let rest = roots.drop_last();
        let q = linear_quotient(p, c, n);
        assert forall|i: int| 0 <= i < rest.len() implies eqm(eval(q, #[trigger] rest[i]), 0) by {
            let r = rest[i];
            assert(r == roots[i]);
            assert(eqm(eval(p, r), 0));
            assert(eqm(eval(p, c), 0));
            lemma_linear_quotient_value(p, c, n, r);
            lemma_eqm_sub(eval(p, r), 0, eval(p, c), 0);
            lemma_no_zero_divisors(r - c, eval(q, r));
            lemma_eqm_difference(r, c);
            assert(!eqm(roots[i], roots[n - 1]));
        }
        law_roots(q, rest, x);
        lemma_linear_quotient_value(p, c, n, x);
        lemma_eqm_mul(x - c, x - c, eval(q, x), 0);
        assert(eqm(eval(p, c), 0));
        lemma_eqm_add((x - c) * eval(q, x), 0, eval(p, c), 0);
    }
}

/// Whether the values of a chunk are those of three polynomials at a point: of the polynomial `g` of the
/// chunk there and at the next element, and of the committed `f` and `q`, put together.
pub open spec fn are_values_of(
    o: RangeChunkProof,
    f: Seq<int>,
    g: Seq<int>,
    q: Seq<int>,
    rho: int,
) -> bool {
    &&& eqm(o.g_at_rho@, eval(g, rho))
    &&& eqm(o.g_at_rho_omega@, eval(g, rho * unity_root(16)))
    &&& forall|e: int| #[trigger]
        is_quotient_at(e, rho, 1) ==> eqm(
            o.w_hat_at_rho@,
            eval(f, rho) * e + eval(q, rho) * (pow(rho, 16) - 1),
        )
}

/// Whether a proof with these values is accepted for chunk `i`, under the given challenges.
pub open spec fn is_accepted_at(
    f: Seq<int>,
    g: Seq<int>,
    q: Seq<int>,
    tau: int,
    rho: int,
    i: int,
) -> bool {
    exists|p: RangeProof, digest: [u8; 32], commitments: PedersenCommitments, crs: CRS| #[trigger]
        call_ensures(RangeProof::verify_with_context, (&p, &digest, &commitments, &crs), true) && 0
            <= i < commitments.commitments@.len() && p.tau@ == tau && p.rho@ == rho
            && are_values_of(p.openings@[i], f, g, q, rho)
}

/// The combined constraints less their quotient times `X^16 - 1`.
spec fn remainder(f: Seq<int>, g: Seq<int>, q: Seq<int>, tau: int) -> Seq<int> {
    poly_sub(range_poly(f, g, tau), poly_mul(q, vanishing(16)))
}

proof fn lemma_remainder_value(f: Seq<int>, g: Seq<int>, q: Seq<int>, tau: int, x: int)
    ensures
        eval(remainder(f, g, q, tau), x) == eval(range_poly(f, g, tau), x) - eval(q, x) * (pow(
            x,
            16,
        ) - 1),
{
    lemma_eval_sub(range_poly(f, g, tau), poly_mul(q, vanishing(16)), x);
    lemma_eval_mul(q, vanishing(16), x);
    lemma_eval_vanishing(16, x);
}

proof fn lemma_accepted_is_root(
    f: Seq<int>,
    g: Seq<int>,
    q: Seq<int>,
    tau: int,
    rho: int,
    i: int,
)
    requires
        is_accepted_at(f, g, q, tau, rho, i),
    ensures
        eqm(eval(remainder(f, g, q, tau), rho), 0),
{
    let (p, digest, commitments, crs) = choose|
        p: RangeProof,
        digest: [u8; 32],
        commitments: PedersenCommitments,
        crs: CRS,
    | #[trigger]
        call_ensures(RangeProof::verify_with_context, (&p, &digest, &commitments, &crs), true) && 0
            <= i < commitments.commitments@.len() && p.tau@ == tau && p.rho@ == rho
            && are_values_of(p.openings@[i], f, g, q, rho);
    let w = unity_root(16);
    let w15 = pow(w, 15);
    let last = range_last();
    let e1 = first_quotient(rho);
    let e2 = last_quotient(rho);
    lemma1_pow(16);
    lemma_vanishing_without_value(16, 1, rho);
    lemma_vanishing_without_value(16, last, rho);
    lemma_range_size();
    lemma_root_power_order(16, 15);
    lemma_eqm_mod(w15);
    crate::algebra::congruence::lemma_eqm_pow(last, w15, 16);
    lemma_eqm_sub(pow(rho, 16), pow(rho, 16), pow(last, 16), 1);
    lemma_eqm_sub(rho, rho, last, w15);
    lemma_eqm_mul(e2, e2, rho - last, rho - w15);
    assert(e1 * (rho - 1) == (rho - 1) * e1) by (nonlinear_arith);
    assert(e2 * (rho - last) == (rho - last) * e2) by (nonlinear_arith);
    assert(is_quotient_at(e1, rho, 1));
    assert(is_quotient_at(e2, rho, w15));
    law_range_verify(p, digest, commitments, crs, i, e1, e2);
    let o = p.openings@[i];
    let a = o.g_at_rho@;
    let b = o.g_at_rho_omega@;
    let u = eval(g, rho);
    let v = eval(g, w * rho);
    assert(rho * w == w * rho) by (nonlinear_arith);
    lemma_eval_range_poly(f, g, tau, rho);
    lemma_remainder_value(f, g, q, tau, rho);
    // Every part with the opened values is the one with the values of the polynomials.
    lemma_eqm_mul(a, u, e1, e1);
    lemma_eqm_sub(1, 1, a, u);
    lemma_eqm_mul(a, u, 1 - a, 1 - u);
    lemma_eqm_mul(a * (1 - a), u * (1 - u), e2, e2);
    lemma_eqm_mul(tau, tau, a * (1 - a) * e2, u * (1 - u) * e2);
    lemma_eqm_mul(2, 2, b, v);
    lemma_eqm_sub(a, u, 2 * b, 2 * v);
    lemma_eqm_add(1 - a, 1 - u, 2 * b, 2 * v);
    lemma_eqm_mul(a - 2 * b, u - 2 * v, 1 - a + 2 * b, 1 - u + 2 * v);
    let d = (a - 2 * b) * (1 - a + 2 * b);
    let e = (u - 2 * v) * (1 - u + 2 * v);
    lemma_eqm_mul(d, e, rho - w15, rho - last);
    lemma_eqm_mul(tau * tau, tau * tau, d * (rho - w15), e * (rho - last));
    let s1 = tau * (a * (1 - a) * e2);
    let s2 = tau * (u * (1 - u) * e2);
    let t1 = tau * tau * (d * (rho - w15));
    let t2 = tau * tau * (e * (rho - last));
    lemma_eqm_add(a * e1, u * e1, s1, s2);
    lemma_eqm_add(a * e1 + s1, u * e1 + s2, t1, t2);
    let x = eval(f, rho);
    let z = eval(q, rho) * (pow(rho, 16) - 1);
    let lhs = u * e1 + s2 + t2;
    assert(eqm(lhs, x * e1 + z));
    lemma_eqm_sub(lhs, x * e1 + z, x * e1 + z, x * e1 + z);
    assert((u - x) * e1 == u * e1 - x * e1) by (nonlinear_arith);
    assert(u * (1 - u) * e2 * tau == s2) by (nonlinear_arith)
        requires
            s2 == tau * (u * (1 - u) * e2),
    ;
    assert(v * 2 == 2 * v);
    let k = e * (rho - last);
    let tt = tau * tau;
    assert(k * tt == tt * k) by (nonlinear_arith);
}

/// For three different challenges, polynomials whose values are accepted at as many points as the
/// combined constraints have coefficients commit to a value in range.
pub proof fn law_accepted_value_in_range(
    f: Seq<int>,
    g: Seq<int>,
    q: Seq<Seq<int>>,
    taus: Seq<int>,
    rhos: Seq<Seq<int>>,
    i: int,
)
    requires
        f.len() <= 2,
        g.len() <= 18,
        q.len() == 3,
        taus.len() == 3,
        rhos.len() == 3,
        !eqm(taus[0], taus[1]),
        !eqm(taus[0], taus[2]),
        !eqm(taus[1], taus[2]),
        forall|a: int| 0 <= a < 3 ==> (#[trigger] q[a]).len() <= 34,
        forall|a: int| 0 <= a < 3 ==> (#[trigger] rhos[a]).len() >= 52,
        forall|a: int, b: int, c: int|
            0 <= a < 3 && 0 <= b < c < rhos[a].len() ==> !eqm(
                #[trigger] rhos[a][b],
                #[trigger] rhos[a][c],
            ),
        forall|a: int, b: int|
            0 <= a < 3 && 0 <= b < rhos[a].len() ==> is_accepted_at(
                f,
                g,
                q[a],
                taus[a],
                #[trigger] rhos[a][b],
                i,
            ),
    ensures
        exists|v: int| 0 <= v < 65536 && #[trigger] eqm(eval(f, 1), v),
{
    let t = (taus[0], taus[1], taus[2]);
    assert forall|a: int| 0 <= a < 3 implies constraints_vanish(f, g, #[trigger] taus[a]) by {
        let r = remainder(f, g, q[a], taus[a]);
        assert(q[a].len() <= 34 && rhos[a].len() >= 52);
        assert(r.len() <= 52);
        assert forall|b: int| 0 <= b < rhos[a].len() implies eqm(
            eval(r, #[trigger] rhos[a][b]),
            0,
        ) by {
            lemma_accepted_is_root(f, g, q[a], taus[a], rhos[a][b], i);
        }
        lemma_range_size();
        assert forall|k: int| 0 <= k < 16 implies eqm(
            #[trigger] eval(range_poly(f, g, taus[a]), pow(unity_root(16), k as nat)),
            0,
        ) by {
            let x = pow(unity_root(16), k as nat);
            law_roots(r, rhos[a], x);
            lemma_remainder_value(f, g, q[a], taus[a], x);
            lemma_root_power_order(16, k as nat);
            lemma_eqm_sub(pow(x, 16), 1, 1, 1);
            let y = eval(q[a], x);
            lemma_eqm_mul(y, y, pow(x, 16) - 1, 0);
            lemma_eqm_add(eval(r, x), 0, y * (pow(x, 16) - 1), 0);
        }
    }
    assert(constraints_vanish(f, g, taus[0]) && constraints_vanish(f, g, taus[1])
        && constraints_vanish(f, g, taus[2]));
    lemma_constraints_give_range(f, g, t);
}

} // verus!
