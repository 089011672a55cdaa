//! The common reference string of the threshold scheme.
use crate::algebra::congruence::{eqm, lemma_eqm_mod, lemma_eqm_mul, modulus};
use crate::algebra::fourier::{
    dft, is_transform, lemma_dft_eqm, lemma_dft_padded, lemma_dft_scale, padded,
};
use crate::algebra::lagrange::lagrange;
use crate::algebra::polynomial::{
    commitment, eval, is_quotient, is_trimmed, lemma_eval_same, linear, same_poly, vanishing,
};
use crate::algebra::quotients::{cross_product, lemma_quotient_same};
use crate::algebra::roots::{is_domain_size, unity_root};
use crate::field::{
    are_draws, lemma_more_draws, lemma_one_draw, random_scalars, scalar_fft, vals, Scalar,
};
use crate::group::{g1_generator_multiples, g2_generator_multiples, G1, G2};
use crate::poly::{lemma_power_step, Poly};
use crate::ste::setup::{is_cross_row, lagrange_minus0, lagrange_x, LagPolys};
use crate::ste::utils::{commit, falling_powers};
use crate::transcript::{append_encoding, Encode};
use ark_std::rand::rngs::StdRng;
use vstd::arithmetic::power::{lemma_pow0, pow};
use vstd::prelude::*;

verus! {

/// Powers of a secret and values of the Lagrange basis at it, in the exponent, for `l` bases of
/// their own.
#[derive(Clone, Debug)]
pub struct CRS {
    /// The number of parties.
    pub n: usize,
    /// The number of slots.
    pub l: usize,
    /// The base of each slot.
    pub gen_g: Vec<G1>,
    pub gen_h: Vec<G2>,
    /// The powers of the secret up to the number of parties, on the base of each slot.
    pub powers_of_g: Vec<Vec<G1>>,
    pub powers_of_h: Vec<Vec<G2>>,
    /// `L_i`, on the base of each slot.
    pub li: Vec<Vec<G1>>,
    /// `(L_i - L_i(0)) * X`, on the base of each slot.
    pub li_minus0: Vec<Vec<G1>>,
    /// `(L_i - L_i(0)) / X`, on the base of each slot.
    pub li_x: Vec<Vec<G1>>,
    /// The quotients of the cross products, on the base of each slot.
    pub li_lj_z: Vec<Vec<Vec<G1>>>,
    /// A second secret on the base of each slot.
    pub gamma_g2: Vec<G2>,
    /// The transform of the falling powers of the secret, on the base of each slot.
    pub y: Vec<Vec<G1>>,
}

/// Whether the values are `a * t^i`.
pub open spec fn are_powers(s: Seq<int>, a: int, t: int) -> bool {
    forall|i: int| 0 <= i < s.len() ==> eqm(#[trigger] s[i], a * pow(t, i as nat))
}

/// Whether the values are `a` times the basis polynomials at `t`.
pub open spec fn are_lagrange_values(s: Seq<int>, n: int, a: int, t: int) -> bool {
    forall|i: int| 0 <= i < s.len() ==> eqm(#[trigger] s[i], a * eval(lagrange(n, i), t))
}

/// The same for `(L_i - L_i(0)) * X`.
pub open spec fn are_minus0_values(s: Seq<int>, n: int, a: int, t: int) -> bool {
    forall|i: int| 0 <= i < s.len() ==> eqm(#[trigger] s[i], a * eval(lagrange_minus0(n, i), t))
}

/// The same for `(L_i - L_i(0)) / X`.
pub open spec fn are_x_values(s: Seq<int>, n: int, a: int, t: int) -> bool {
    forall|i: int| 0 <= i < s.len() ==> eqm(#[trigger] s[i], a * eval(lagrange_x(n, i), t))
}

/// Whether the value is `a` times the quotient of a cross product by `X^n - 1` at `t`.
pub open spec fn is_cross_value(v: int, n: int, i: int, j: int, a: int, t: int) -> bool {
    exists|q: Seq<int>| #[trigger]
        is_quotient(q, cross_product(n, i, j), vanishing(n)) && eqm(v, a * eval(q, t))
}

/// Whether the values are those of the quotients of the cross products with the basis polynomial
/// `i`.
pub open spec fn are_cross_values(s: Seq<int>, n: int, i: int, a: int, t: int) -> bool {
    forall|j: int| 0 <= j < s.len() ==> is_cross_value(#[trigger] s[j], n, i, j, a, t)
}

/// The parts of the reference string that belong to one slot.
pub open spec fn is_generated_slot(crs: &CRS, k: int, a: int, t: int, gamma: int) -> bool {
    let n = crs.n as int;
    &&& crs.gen_g@[k]@ == a
    &&& crs.gen_h@[k]@ == a
    &&& are_powers(vals(crs.powers_of_g@[k]@), a, t)
    &&& are_powers(vals(crs.powers_of_h@[k]@), a, t)
    &&& are_lagrange_values(vals(crs.li@[k]@), n, a, t)
    &&& are_minus0_values(vals(crs.li_minus0@[k]@), n, a, t)
    &&& are_x_values(vals(crs.li_x@[k]@), n, a, t)
    &&& forall|i: int|
        0 <= i < n ==> are_cross_values(vals((#[trigger] crs.li_lj_z@[k]@[i])@), n, i, a, t)
    &&& eqm(crs.gamma_g2@[k]@, gamma * a)
    &&& is_transform(falling_powers(a, t, n), vals(crs.y@[k]@), 2 * n)
}

impl CRS {
    /// The shape of one slot.
    pub open spec fn slot_wf(&self, k: int) -> bool {
        &&& self.powers_of_g@[k]@.len() == self.n + 1
        &&& self.powers_of_h@[k]@.len() == self.n + 1
        &&& self.li@[k]@.len() == self.n
        &&& self.li_minus0@[k]@.len() == self.n
        &&& self.li_x@[k]@.len() == self.n
        &&& self.li_lj_z@[k]@.len() == self.n
        &&& forall|i: int| 0 <= i < self.n ==> (#[trigger] self.li_lj_z@[k]@[i])@.len() == self.n
        &&& self.y@[k]@.len() == 2 * self.n
    }

    /// The shape of the reference string.
    pub open spec fn wf(&self) -> bool {
        &&& 2 <= self.n
        &&& 1 <= self.l
        &&& is_domain_size(self.n as int)
        &&& is_domain_size(2 * self.n as int)
        &&& 2 * self.n < usize::MAX
        &&& self.gen_g@.len() == self.l
        &&& self.gen_h@.len() == self.l
        &&& self.powers_of_g@.len() == self.l
        &&& self.powers_of_h@.len() == self.l
        &&& self.li@.len() == self.l
        &&& self.li_minus0@.len() == self.l
        &&& self.li_x@.len() == self.l
        &&& self.li_lj_z@.len() == self.l
        &&& self.gamma_g2@.len() == self.l
        &&& self.y@.len() == self.l
        &&& forall|k: int| 0 <= k < self.l ==> #[trigger] self.slot_wf(k)
    }

    /// Whether this is the reference string for the secrets `t` and `gamma` and the given bases.
    pub open spec fn is_generated(
        &self,
        n: int,
        l: int,
        t: int,
        alphas: Seq<int>,
        gamma: int,
    ) -> bool {
        &&& self.wf()
        &&& self.n == n
        &&& self.l == l
        &&& alphas.len() == l
        &&& forall|k: int| 0 <= k < l ==> #[trigger] is_generated_slot(self, k, alphas[k], t, gamma)
    }

    /// Draws the secrets and the bases and generates the reference string from them.
    pub fn new(n: usize, l: usize, rng: &mut StdRng) -> (res: CRS)
        requires
            2 <= n,
            1 <= l,
            is_domain_size(n as int),
            is_domain_size(2 * n as int),
            2 * n < usize::MAX,
        ensures
            exists|tau: Scalar, alphas: Seq<Scalar>, gamma: Scalar| #[trigger]
                are_draws(*old(rng), *final(rng), seq![tau] + alphas + seq![gamma])
                    && res.is_generated(n as int, l as int, tau@, vals(alphas), gamma@),
    {
        let ghost r0 = *rng;
        let tau = Scalar::random(rng);
        let ghost r1 = *rng;
        let alphas = random_scalars(l, rng);
        let ghost r2 = *rng;
        let gamma = Scalar::random(rng);
        let res = CRS::from_trapdoor(n, &tau, &alphas, &gamma);
        proof {
            lemma_one_draw(r0, r1, tau);
            lemma_more_draws(r0, r1, r2, seq![tau], alphas@);
            lemma_one_draw(r2, *rng, gamma);
            lemma_more_draws(r0, r2, *rng, seq![tau] + alphas@, seq![gamma]);
            assert(res.is_generated(n as int, l as int, tau@, vals(alphas@), gamma@));
        }
        res
    }

    /// Generates the reference string from its secrets and the base of each slot.
    pub fn from_trapdoor(n: usize, tau: &Scalar, alphas: &Vec<Scalar>, gamma: &Scalar) -> (res: CRS)
        requires
            2 <= n,
            1 <= alphas@.len(),
            is_domain_size(n as int),
            is_domain_size(2 * n as int),
            2 * n < usize::MAX,
        ensures
            res.is_generated(n as int, alphas@.len() as int, tau@, vals(alphas@), gamma@),
    {
        let values = TrapdoorValues::new(n, tau);
        let gammas = scaled(alphas, gamma);
        let res = CRS {
            n,
            l: alphas.len(),
            gen_g: g1_generator_multiples(alphas),
            gen_h: g2_generator_multiples(alphas),
            powers_of_g: g1_table(&values.powers, alphas),
            powers_of_h: g2_table(&values.powers, alphas),
            li: g1_table(&values.li, alphas),
            li_minus0: g1_table(&values.li_minus0, alphas),
            li_x: g1_table(&values.li_x, alphas),
            li_lj_z: g1_cube(&values.li_lj_z, n, alphas),
            gamma_g2: g2_generator_multiples(&gammas),
            y: g1_table(&values.y, alphas),
        };
        proof {
            assert forall|k: int| 0 <= k < alphas@.len() implies #[trigger] is_generated_slot(
                &res,
                k,
                vals(alphas@)[k],
                tau@,
                gamma@,
            ) && res.slot_wf(k) by {
                lemma_slot(&res, &values, alphas@, tau@, k);
                lemma_eqm_mod(gamma@ * alphas@[k]@);
                assert(res.gamma_g2@[k]@ == gammas@[k]@);
                assert(res.gen_g@[k]@ == alphas@[k]@);
                assert(res.gen_h@[k]@ == alphas@[k]@);
            }
        }
        res
    }

    /// A commitment to the polynomial with the given coefficients, on the base of a slot.
    pub fn commit_g1(&self, coeffs: &Vec<Scalar>, slot: usize) -> (res: G1)
        requires
            slot < self.powers_of_g@.len(),
            coeffs@.len() <= self.powers_of_g@[slot as int]@.len(),
        ensures
            res@ == commitment(vals(coeffs@), vals(self.powers_of_g@[slot as int]@)) % modulus(),
    {
        commit(&self.powers_of_g[slot], coeffs)
    }

    /// A proof of the value at a point of the polynomial with the given coefficients: a commitment to
    /// its quotient by `X - point`, on the base of a slot.
    pub fn compute_opening_proof(&self, coeffs: &Vec<Scalar>, point: &Scalar, slot: usize) -> (res:
        G1)
        requires
            slot < self.powers_of_g@.len(),
            coeffs@.len() <= self.powers_of_g@[slot as int]@.len(),
            is_trimmed(vals(coeffs@)),
        ensures
            is_opening_proof(
                vals(coeffs@),
                point@,
                vals(self.powers_of_g@[slot as int]@),
                res@,
            ),
    {
        let mut own: Vec<Scalar> = Vec::new();
        let mut i: usize = 0;
        while i < coeffs.len()
            invariant
                0 <= i <= coeffs@.len(),
                own@ == coeffs@.subrange(0, i as int),
            decreases coeffs@.len() - i,
        {
            own.push(coeffs[i]);
            i += 1;
        }
        assert(own@ =~= coeffs@);
        let poly = Poly::from_coefficients_vec(own);
        let divisor = Poly::linear(point);
        let q = poly.div(&divisor);
        proof {
            lemma_quotient_same(q@, poly@, vals(coeffs@), divisor@, linear(point@));
        }
        let quotient = q.coeffs();
        assert(quotient@.len() == vals(quotient@).len());
        self.commit_g1(quotient, slot)
    }
}

/// Whether the value is a commitment to the quotient of `f` by `X - point`.
pub open spec fn is_opening_proof(f: Seq<int>, point: int, powers: Seq<int>, v: int) -> bool {
    exists|q: Seq<int>| #[trigger]
        is_quotient(q, f, linear(point)) && q.len() <= f.len() && v == commitment(q, powers)
            % modulus()
}

/// Whether the entries are the products of the factors with the values.
pub open spec fn is_product_row<T: View<V = int>>(row: Seq<T>, values: Seq<Scalar>, a: int) -> bool {
    &&& row.len() == values.len()
    &&& forall|i: int|
        0 <= i < row.len() ==> (#[trigger] row[i])@ == (a * values[i]@) % modulus()
}

/// All values times a factor.
fn scaled(values: &Vec<Scalar>, a: &Scalar) -> (res: Vec<Scalar>)
    ensures
        is_product_row(res@, values@, a@),
{
    let mut res: Vec<Scalar> = Vec::new();
    let mut i: usize = 0;
    while i < values.len()
        invariant
            0 <= i <= values@.len(),
            res@.len() == i,
            forall|k: int|
                0 <= k < i ==> (#[trigger] res@[k])@ == (a@ * values@[k]@) % modulus(),
        decreases values@.len() - i,
    {
        res.push(a.mul(&values[i]));
        i += 1;
    }
    res
}

/// The values on every base, in the first group.
fn g1_table(values: &Vec<Scalar>, alphas: &Vec<Scalar>) -> (res: Vec<Vec<G1>>)
    ensures
        res@.len() == alphas@.len(),
        forall|k: int|
            0 <= k < alphas@.len() ==> is_product_row(
                (#[trigger] res@[k])@,
                values@,
                alphas@[k]@,
            ),
{
    let mut res: Vec<Vec<G1>> = Vec::new();
    let mut k: usize = 0;
    while k < alphas.len()
        invariant
            0 <= k <= alphas@.len(),
            res@.len() == k,
            forall|i: int|
                0 <= i < k ==> is_product_row((#[trigger] res@[i])@, values@, alphas@[i]@),
        decreases alphas@.len() - k,
    {
        let row = scaled(values, &alphas[k]);
        res.push(g1_generator_multiples(&row));
        k += 1;
    }
    res
}

/// The values on every base, in the second group.
fn g2_table(values: &Vec<Scalar>, alphas: &Vec<Scalar>) -> (res: Vec<Vec<G2>>)
    ensures
        res@.len() == alphas@.len(),
        forall|k: int|
            0 <= k < alphas@.len() ==> is_product_row(
                (#[trigger] res@[k])@,
                values@,
                alphas@[k]@,
            ),
{
    let mut res: Vec<Vec<G2>> = Vec::new();
    let mut k: usize = 0;
    while k < alphas.len()
        invariant
            0 <= k <= alphas@.len(),
            res@.len() == k,
            forall|i: int|
                0 <= i < k ==> is_product_row((#[trigger] res@[i])@, values@, alphas@[i]@),
        decreases alphas@.len() - k,
    {
        let row = scaled(values, &alphas[k]);
        res.push(g2_generator_multiples(&row));
        k += 1;
    }
    res
}

/// Whether the rows are the products of the factor with the rows of values.
pub open spec fn is_product_table(rows: Seq<Vec<G1>>, values: Seq<Vec<Scalar>>, a: int) -> bool {
    &&& rows.len() == values.len()
    &&& forall|i: int|
        0 <= i < rows.len() ==> is_product_row((#[trigger] rows[i])@, values[i]@, a)
}

/// The place of an entry of a table whose rows are put one behind the other.
proof fn lemma_place(i: int, j: int, a: int, b: int, n: int)
    requires
        0 <= a < i || (a == i && b < j),
        0 <= b < n,
        0 <= j <= n,
    ensures
        a * n + b < i * n + j,
{
    if a < i {
        assert(a * n + n <= i * n) by (nonlinear_arith)
            requires
                a < i,
                n >= 0,
        ;
    }
}

/// The rows of a table, one behind the other.
fn flatten(rows: &Vec<Vec<Scalar>>, n: usize) -> (flat: Vec<Scalar>)
    requires
        forall|i: int| 0 <= i < rows@.len() ==> (#[trigger] rows@[i])@.len() == n,
    ensures
        flat@.len() == rows@.len() * n,
        forall|i: int, j: int|
            0 <= i < rows@.len() && 0 <= j < n ==> flat@[i * n + j]
                == #[trigger] rows@[i]@[j],
{
    let mut flat: Vec<Scalar> = Vec::new();
    let mut i: usize = 0;
    while i < rows.len()
        invariant
            0 <= i <= rows@.len(),
            forall|k: int| 0 <= k < rows@.len() ==> (#[trigger] rows@[k])@.len() == n,
            flat@.len() == i * n,
            forall|a: int, b: int|
                0 <= a < i && 0 <= b < n ==> flat@[a * n + b] == #[trigger] rows@[a]@[b],
        decreases rows@.len() - i,
    {
        let row = &rows[i];
        let mut j: usize = 0;
        while j < n
            invariant
                0 <= j <= n,
                i < rows@.len(),
                row@ == rows@[i as int]@,
                row@.len() == n,
                flat@.len() == i * n + j,
                forall|a: int, b: int|
                    (0 <= a < i && 0 <= b < n) || (a == i && 0 <= b < j) ==> flat@[a * n + b]
                        == #[trigger] rows@[a]@[b],
            decreases n - j,
        {
            let ghost before = flat@;
            flat.push(row[j]);
            proof {
                assert forall|a: int, b: int|
                    (0 <= a < i && 0 <= b < n) || (a == i && 0 <= b < j + 1) implies flat@[a * n
                    + b] == #[trigger] rows@[a]@[b] by {
                    if a < i || b < j {
                        lemma_place(i as int, j as int, a, b, n as int);
                        assert(a * n >= 0) by (nonlinear_arith)
                            requires
                                a >= 0,
                                n >= 0,
                        ;
                        assert(before[a * n + b] == rows@[a]@[b]);
                    }
                }
            }
            j += 1;
        }
        assert(i * n + n == (i + 1) * n) by (nonlinear_arith);
        i += 1;
    }
    flat
}

/// The rows of a table of points that were put one behind the other.
fn split_rows(flat: &Vec<G1>, count: usize, n: usize) -> (rows: Vec<Vec<G1>>)
    requires
        flat@.len() == count * n,
    ensures
        rows@.len() == count,
        forall|i: int|
            0 <= i < count ==> (#[trigger] rows@[i])@ == flat@.subrange(i * n, i * n + n),
{
    let mut rows: Vec<Vec<G1>> = Vec::new();
    let total: usize = flat.len();
    let mut at: usize = 0;
    let mut i: usize = 0;
    while i < count
        invariant
            0 <= i <= count,
            at == i * n,
            total == flat@.len(),
            flat@.len() == count * n,
            rows@.len() == i,
            forall|k: int|
                0 <= k < i ==> (#[trigger] rows@[k])@ == flat@.subrange(k * n, k * n + n),
        decreases count - i,
    {
        proof {
            assert(i * n + n <= count * n) by (nonlinear_arith)
                requires
                    i + 1 <= count,
                    n >= 0,
            ;
            assert((i + 1) * n == i * n + n) by (nonlinear_arith);
        }
        let mut row: Vec<G1> = Vec::new();
        let mut j: usize = 0;
        while j < n
            invariant
                0 <= j <= n,
                at == i * n + j,
                total == flat@.len(),
                i * n + n <= total,
                0 <= i * n,
                row@ == flat@.subrange(i * n, i * n + j),
            decreases n - j,
        {
            row.push(flat[at]);
            assert(row@ =~= flat@.subrange(i * n, i * n + j + 1));
            at += 1;
            j += 1;
        }
        rows.push(row);
        i += 1;
    }
    rows
}

/// The rows of values on every base.
fn g1_cube(values: &Vec<Vec<Scalar>>, n: usize, alphas: &Vec<Scalar>) -> (res: Vec<Vec<Vec<G1>>>)
    requires
        forall|i: int| 0 <= i < values@.len() ==> (#[trigger] values@[i])@.len() == n,
    ensures
        res@.len() == alphas@.len(),
        forall|k: int|
            0 <= k < alphas@.len() ==> is_product_table(
                (#[trigger] res@[k])@,
                values@,
                alphas@[k]@,
            ),
{
    let flat = flatten(values, n);
    let mut res: Vec<Vec<Vec<G1>>> = Vec::new();
    let mut k: usize = 0;
    while k < alphas.len()
        invariant
            0 <= k <= alphas@.len(),
            forall|i: int| 0 <= i < values@.len() ==> (#[trigger] values@[i])@.len() == n,
            flat@.len() == values@.len() * n,
            forall|i: int, j: int|
                0 <= i < values@.len() && 0 <= j < n ==> flat@[i * n + j]
                    == #[trigger] values@[i]@[j],
            res@.len() == k,
            forall|i: int|
                0 <= i < k ==> is_product_table((#[trigger] res@[i])@, values@, alphas@[i]@),
        decreases alphas@.len() - k,
    {
        let row = scaled(&flat, &alphas[k]);
        let points = g1_generator_multiples(&row);
        let rows = split_rows(&points, values.len(), n);
        proof {
            let a = alphas@[k as int]@;
            assert forall|i: int| 0 <= i < values@.len() implies is_product_row(
                (#[trigger] rows@[i])@,
                values@[i]@,
                a,
            ) by {
                assert(values@[i]@.len() == n);
                assert(0 <= i * n && i * n + n <= values@.len() * n) by (nonlinear_arith)
                    requires
                        0 <= i,
                        i + 1 <= values@.len(),
                        n >= 0,
                ;
                assert forall|j: int| 0 <= j < n implies (#[trigger] rows@[i]@[j])@ == (a
                    * values@[i]@[j]@) % modulus() by {
                    assert(flat@[i * n + j] == values@[i]@[j]);
                    assert(rows@[i]@[j] == points@[i * n + j]);
                    assert(row@[i * n + j]@ == (a * flat@[i * n + j]@) % modulus());
                }
            }
        }
        res.push(rows);
        k += 1;
    }
    res
}

/// What the reference string holds for a slot, for the base one.
struct TrapdoorValues {
    powers: Vec<Scalar>,
    li: Vec<Scalar>,
    li_minus0: Vec<Scalar>,
    li_x: Vec<Scalar>,
    li_lj_z: Vec<Vec<Scalar>>,
    y: Vec<Scalar>,
}

impl TrapdoorValues {
    spec fn is_for(&self, n: int, t: int) -> bool {
        &&& self.powers@.len() == n + 1
        &&& self.li@.len() == n
        &&& self.li_minus0@.len() == n
        &&& self.li_x@.len() == n
        &&& self.li_lj_z@.len() == n
        &&& self.y@.len() == 2 * n
        &&& are_powers(vals(self.powers@), 1, t)
        &&& are_lagrange_values(vals(self.li@), n, 1, t)
        &&& are_minus0_values(vals(self.li_minus0@), n, 1, t)
        &&& are_x_values(vals(self.li_x@), n, 1, t)
        &&& forall|i: int|
            0 <= i < n ==> (#[trigger] self.li_lj_z@[i])@.len() == n && are_cross_values(
                vals(self.li_lj_z@[i]@),
                n,
                i,
                1,
                t,
            )
        &&& is_transform(falling_powers(1, t, n), vals(self.y@), 2 * n)
    }

    fn new(n: usize, tau: &Scalar) -> (res: TrapdoorValues)
        requires
            2 <= n,
            is_domain_size(n as int),
            is_domain_size(2 * n as int),
            2 * n < usize::MAX,
        ensures
            res.is_for(n as int, tau@),
    {
        let powers = powers_of(tau, n + 1);
        let polys = LagPolys::new(n);
        let mut li: Vec<Scalar> = Vec::new();
        let mut li_minus0: Vec<Scalar> = Vec::new();
        let mut li_x: Vec<Scalar> = Vec::new();
        let mut li_lj_z: Vec<Vec<Scalar>> = Vec::new();
        let mut i: usize = 0;
        while i < n
            invariant
                0 <= i <= n,
                polys.is_for(n as int),
                li@.len() == i,
                li_minus0@.len() == i,
                li_x@.len() == i,
                li_lj_z@.len() == i,
                are_lagrange_values(vals(li@), n as int, 1, tau@),
                are_minus0_values(vals(li_minus0@), n as int, 1, tau@),
                are_x_values(vals(li_x@), n as int, 1, tau@),
                forall|k: int|
                    0 <= k < i ==> (#[trigger] li_lj_z@[k])@.len() == n && are_cross_values(
                        vals(li_lj_z@[k]@),
                        n as int,
                        k,
                        1,
                        tau@,
                    ),
            decreases n - i,
        {
            let ghost li_before = vals(li@);
            let ghost minus0_before = vals(li_minus0@);
            let ghost x_before = vals(li_x@);
            li.push(polys.l[i].evaluate(tau));
            li_minus0.push(polys.l_minus0[i].evaluate(tau));
            li_x.push(polys.l_x[i].evaluate(tau));
            proof {
                let k = i as int;
                assert(same_poly(polys.l@[k]@, lagrange(n as int, k)));
                assert(same_poly(polys.l_minus0@[k]@, lagrange_minus0(n as int, k)));
                assert(same_poly(polys.l_x@[k]@, lagrange_x(n as int, k)));
                lemma_evaluated(polys.l@[k]@, lagrange(n as int, k), tau@);
                lemma_evaluated(polys.l_minus0@[k]@, lagrange_minus0(n as int, k), tau@);
                lemma_evaluated(polys.l_x@[k]@, lagrange_x(n as int, k), tau@);
                assert(vals(li@) =~= li_before.push(li@[k]@));
                assert(vals(li_minus0@) =~= minus0_before.push(li_minus0@[k]@));
                assert(vals(li_x@) =~= x_before.push(li_x@[k]@));
            }
            assert(is_cross_row(polys.li_lj_z@[i as int]@, n as int, i as int));
            li_lj_z.push(cross_values(&polys.li_lj_z[i], n, i, tau));
            i += 1;
        }
        let mut falling: Vec<Scalar> = Vec::new();
        let mut k: usize = 0;
        while k < n
            invariant
                0 <= k <= n,
                powers@.len() == n + 1,
                falling@.len() == k,
                forall|j: int| 0 <= j < k ==> (#[trigger] falling@[j])@ == powers@[n - 1 - j]@,
            decreases n - k,
        {
            falling.push(powers[n - 1 - k]);
            k += 1;
        }
        let y = scalar_fft(&falling, 2 * n);
        proof {
            lemma_falling(vals(falling@), vals(powers@), n as int, tau@, vals(y@));
            assert(y@.len() == vals(y@).len());
        }
        TrapdoorValues { powers, li, li_minus0, li_x, li_lj_z, y }
    }
}

/// The first powers of a scalar.
fn powers_of(x: &Scalar, n: usize) -> (res: Vec<Scalar>)
    ensures
        res@.len() == n,
        are_powers(vals(res@), 1, x@),
{
    let mut res: Vec<Scalar> = Vec::new();
    let mut cur = Scalar::one();
    let mut i: usize = 0;
    proof {
        lemma_pow0(x@);
    }
    while i < n
        invariant
            0 <= i <= n,
            res@.len() == i,
            eqm(cur@, pow(x@, i as nat)),
            are_powers(vals(res@), 1, x@),
        decreases n - i,
    {
        let ghost before = vals(res@);
        res.push(cur);
        proof {
            assert(vals(res@) =~= before.push(cur@));
            lemma_power_step(x@, cur@, i as nat);
            lemma_eqm_mod(cur@ * x@);
            assert(1 * pow(x@, i as nat) == pow(x@, i as nat));
        }
        cur = cur.mul(x);
        i += 1;
    }
    res
}

proof fn lemma_evaluated(p: Seq<int>, q: Seq<int>, t: int)
    requires
        same_poly(p, q),
    ensures
        eqm(eval(p, t) % modulus(), 1 * eval(q, t)),
{
    lemma_eval_same(p, q, t);
    lemma_eqm_mod(eval(p, t));
}

/// The values of the quotients of cross products.
fn cross_values(row: &Vec<Poly>, n: usize, i: usize, tau: &Scalar) -> (res: Vec<Scalar>)
    requires
        row@.len() == n,
        is_cross_row(row@, n as int, i as int),
    ensures
        res@.len() == n,
        are_cross_values(vals(res@), n as int, i as int, 1, tau@),
{
    let mut res: Vec<Scalar> = Vec::new();
    let mut j: usize = 0;
    while j < n
        invariant
            0 <= j <= n,
            row@.len() == n,
            is_cross_row(row@, n as int, i as int),
            res@.len() == j,
            are_cross_values(vals(res@), n as int, i as int, 1, tau@),
        decreases n - j,
    {
        let ghost before = vals(res@);
        let v = row[j].evaluate(tau);
        res.push(v);
        proof {
            let q = row@[j as int]@;
            assert(is_quotient(q, cross_product(n as int, i as int, j as int), vanishing(n as int)));
            lemma_evaluated(q, q, tau@);
            assert(is_cross_value(v@, n as int, i as int, j as int, 1, tau@));
            assert(vals(res@) =~= before.push(v@));
        }
        j += 1;
    }
    res
}

proof fn lemma_falling(falling: Seq<int>, powers: Seq<int>, n: int, t: int, y: Seq<int>)
    requires
        1 <= n,
        falling.len() == n,
        powers.len() == n + 1,
        are_powers(powers, 1, t),
        forall|j: int| 0 <= j < n ==> #[trigger] falling[j] == powers[n - 1 - j],
        is_transform(falling, y, 2 * n),
    ensures
        is_transform(falling_powers(1, t, n), y, 2 * n),
{
    let w = unity_root(2 * n);
    let f = padded(falling, 2 * n);
    let g = falling_powers(1, t, n);
    assert forall|i: int| 0 <= i < 2 * n implies eqm(#[trigger] f[i], g[i]) by {
        if i < n {
            assert(falling[i] == powers[n - 1 - i]);
        }
    }
    assert forall|k: int| 0 <= k < 2 * n implies eqm(#[trigger] y[k], dft(g, w, k)) by {
        assert(eqm(y[k], dft(falling, w, k)));
        lemma_dft_padded(falling, 2 * n, w, k);
        lemma_dft_eqm(f, g, w, k);
    }
}

/// The parts of a slot follow from the values for the base one.
proof fn lemma_slot(
    crs: &CRS,
    values: &TrapdoorValues,
    alphas: Seq<Scalar>,
    t: int,
    k: int,
)
    requires
        2 <= crs.n,
        values.is_for(crs.n as int, t),
        0 <= k < alphas.len(),
        is_product_row(crs.powers_of_g@[k]@, values.powers@, alphas[k]@),
        is_product_row(crs.powers_of_h@[k]@, values.powers@, alphas[k]@),
        is_product_row(crs.li@[k]@, values.li@, alphas[k]@),
        is_product_row(crs.li_minus0@[k]@, values.li_minus0@, alphas[k]@),
        is_product_row(crs.li_x@[k]@, values.li_x@, alphas[k]@),
        is_product_row(crs.y@[k]@, values.y@, alphas[k]@),
        is_product_table(crs.li_lj_z@[k]@, values.li_lj_z@, alphas[k]@),
    ensures
        crs.slot_wf(k),
        are_powers(vals(crs.powers_of_g@[k]@), alphas[k]@, t),
        are_powers(vals(crs.powers_of_h@[k]@), alphas[k]@, t),
        are_lagrange_values(vals(crs.li@[k]@), crs.n as int, alphas[k]@, t),
        are_minus0_values(vals(crs.li_minus0@[k]@), crs.n as int, alphas[k]@, t),
        are_x_values(vals(crs.li_x@[k]@), crs.n as int, alphas[k]@, t),
        forall|i: int|
            0 <= i < crs.n ==> are_cross_values(
                vals((#[trigger] crs.li_lj_z@[k]@[i])@),
                crs.n as int,
                i,
                alphas[k]@,
                t,
            ),
        is_transform(
            falling_powers(alphas[k]@, t, crs.n as int),
            vals(crs.y@[k]@),
            2 * crs.n as int,
        ),
{
    let n = crs.n as int;
    let a = alphas[k]@;
    assert forall|i: int| 0 <= i < n + 1 implies eqm(
        #[trigger] vals(crs.powers_of_g@[k]@)[i],
        a * pow(t, i as nat),
    ) by {
        assert(eqm(vals(values.powers@)[i], 1 * pow(t, i as nat)));
        lemma_scaled_value(a, values.powers@[i]@, pow(t, i as nat));
        assert(crs.powers_of_g@[k]@[i]@ == (a * values.powers@[i]@) % modulus());
    }
    assert forall|i: int| 0 <= i < n + 1 implies eqm(
        #[trigger] vals(crs.powers_of_h@[k]@)[i],
        a * pow(t, i as nat),
    ) by {
        assert(eqm(vals(values.powers@)[i], 1 * pow(t, i as nat)));
        lemma_scaled_value(a, values.powers@[i]@, pow(t, i as nat));
        assert(crs.powers_of_h@[k]@[i]@ == (a * values.powers@[i]@) % modulus());
    }
    assert forall|i: int| 0 <= i < n implies eqm(
        #[trigger] vals(crs.li@[k]@)[i],
        a * eval(lagrange(n, i), t),
    ) by {
        assert(eqm(vals(values.li@)[i], 1 * eval(lagrange(n, i), t)));
        lemma_scaled_value(a, values.li@[i]@, eval(lagrange(n, i), t));
        assert(crs.li@[k]@[i]@ == (a * values.li@[i]@) % modulus());
    }
    assert forall|i: int| 0 <= i < n implies eqm(
        #[trigger] vals(crs.li_minus0@[k]@)[i],
        a * eval(lagrange_minus0(n, i), t),
    ) by {
        assert(eqm(vals(values.li_minus0@)[i], 1 * eval(lagrange_minus0(n, i), t)));
        lemma_scaled_value(a, values.li_minus0@[i]@, eval(lagrange_minus0(n, i), t));
        assert(crs.li_minus0@[k]@[i]@ == (a * values.li_minus0@[i]@) % modulus());
    }
    assert forall|i: int| 0 <= i < n implies eqm(
        #[trigger] vals(crs.li_x@[k]@)[i],
        a * eval(lagrange_x(n, i), t),
    ) by {
        assert(eqm(vals(values.li_x@)[i], 1 * eval(lagrange_x(n, i), t)));
        lemma_scaled_value(a, values.li_x@[i]@, eval(lagrange_x(n, i), t));
        assert(crs.li_x@[k]@[i]@ == (a * values.li_x@[i]@) % modulus());
    }
    assert forall|i: int| 0 <= i < n implies are_cross_values(
        vals((#[trigger] crs.li_lj_z@[k]@[i])@),
        n,
        i,
        a,
        t,
    ) && crs.li_lj_z@[k]@[i]@.len() == n by {
        let row = crs.li_lj_z@[k]@[i]@;
        let source = values.li_lj_z@[i]@;
        assert(is_product_row(row, source, a));
        assert(source.len() == n);
        assert(are_cross_values(vals(source), n, i, 1, t));
        assert forall|j: int| 0 <= j < n implies is_cross_value(
            #[trigger] vals(row)[j],
            n,
            i,
            j,
            a,
            t,
        ) by {
            assert(is_cross_value(vals(source)[j], n, i, j, 1, t));
            let q = choose|q: Seq<int>| #[trigger]
                is_quotient(q, cross_product(n, i, j), vanishing(n)) && eqm(
                    vals(source)[j],
                    1 * eval(q, t),
                );
            lemma_scaled_value(a, source[j]@, eval(q, t));
            assert(row[j]@ == (a * source[j]@) % modulus());
            assert(is_quotient(q, cross_product(n, i, j), vanishing(n)));
        }
    }
    let w = unity_root(2 * n);
    let u = falling_powers(1, t, n);
    let v = falling_powers(a, t, n);
    assert(v =~= Seq::new(u.len(), |i: int| a * u[i]));
    assert forall|i: int| 0 <= i < 2 * n implies eqm(
        #[trigger] vals(crs.y@[k]@)[i],
        dft(v, w, i),
    ) by {
        assert(eqm(vals(values.y@)[i], dft(u, w, i)));
        lemma_dft_scale(u, a, w, i);
        lemma_scaled_value(a, values.y@[i]@, dft(u, w, i));
        assert(crs.y@[k]@[i]@ == (a * values.y@[i]@) % modulus());
    }
}

proof fn lemma_scaled_value(a: int, v: int, x: int)
    requires
        eqm(v, x),
    ensures
        eqm((a * v) % modulus(), a * x),
{
    lemma_eqm_mul(a, a, v, x);
    lemma_eqm_mod(a * v);
}

impl Encode for CRS {
    open spec fn encoding(&self) -> Seq<u8> {
        self.n.encoding() + self.l.encoding() + self.gen_g.encoding() + self.gen_h.encoding()
            + self.powers_of_g.encoding() + self.powers_of_h.encoding() + self.li.encoding()
            + self.li_minus0.encoding() + self.li_x.encoding() + self.li_lj_z.encoding()
            + self.gamma_g2.encoding() + self.y.encoding()
    }

    fn encode(&self) -> (res: Vec<u8>) {
        let mut res = self.n.encode();
        append_encoding(&mut res, &self.l);
        append_encoding(&mut res, &self.gen_g);
        append_encoding(&mut res, &self.gen_h);
        append_encoding(&mut res, &self.powers_of_g);
        append_encoding(&mut res, &self.powers_of_h);
        append_encoding(&mut res, &self.li);
        append_encoding(&mut res, &self.li_minus0);
        append_encoding(&mut res, &self.li_x);
        append_encoding(&mut res, &self.li_lj_z);
        append_encoding(&mut res, &self.gamma_g2);
        append_encoding(&mut res, &self.y);
        res
    }
}

} // verus!
