//! Keys of the parties, and partial decryptions with their proofs.
use crate::algebra::congruence::{
    eqm, is_unit, lemma_eqm_mod, lemma_eqm_mul, lemma_modulus, lemma_reduced, lemma_unit_cancel,
    lemma_unit_eqm, lemma_unit_nonzero, modulus,
};
use crate::algebra::fourier::{
    dft, is_transform, lemma_dft_eqm, lemma_dft_scale, lemma_power_of_two_is_unit,
};
use crate::algebra::lagrange::{indicator, lagrange, lemma_size_inverse, size_inverse};
use crate::algebra::polynomial::{
    coeff, commitment, eval, is_quotient, is_trimmed, lemma_commitment_value, lemma_eval_same,
    poly_mul, poly_scale, poly_sub, same_poly, vanishing,
};
use crate::algebra::quotients::{
    cross_product, lemma_add_same, lemma_cross_quotient, lemma_linear_quotient_same, lemma_mul_same,
    lemma_quotient_same, linear_quotient,
};
use crate::algebra::roots::{is_domain_size, lemma_product_one_minus_roots, unity_root};
use crate::algebra::sums::product;
use crate::field::{domain_generator, is_draw, vals, Scalar};
use crate::group::G1;
use crate::poly::Poly;
use crate::ste::crs::{are_cross_values, are_powers, is_cross_value, is_generated_slot, CRS};
use crate::ste::utils::{
    are_openings, commit, falling_powers, is_multiple_row, is_multiple_table, lagrange_poly,
    lemma_all_openings, lemma_lagrange_coeff_is_unit, multiply_row, multiply_table, open_all_values,
};
use ark_std::rand::rngs::StdRng;
use vstd::arithmetic::power::pow;
use vstd::prelude::*;

pub use crate::ste::partial::{PartialDecryption, PartialDecryptionProof};

verus! {

/// The polynomials that a party needs to derive its hints for a position.
#[derive(Clone)]
pub struct LagPolys {
    /// `L_i`, the basis polynomials.
    pub l: Vec<Poly>,
    /// `(L_i - L_i(0)) * X`.
    pub l_minus0: Vec<Poly>,
    /// `(L_i - L_i(0)) / X`.
    pub l_x: Vec<Poly>,
    /// `L_i * L_j / (X^n - 1)`, and `(L_i * L_i - L_i) / (X^n - 1)` on the diagonal.
    pub li_lj_z: Vec<Vec<Poly>>,
    /// One over the size of the domain.
    pub denom: Scalar,
}

/// `(L_i - L_i(0)) * X`.
pub open spec fn lagrange_minus0(n: int, i: int) -> Seq<int> {
    Seq::new(
        (n + 1) as nat,
        |k: int|
            if k < 2 {
                0
            } else {
                lagrange(n, i)[k - 1]
            },
    )
}

/// `(L_i - L_i(0)) / X`.
pub open spec fn lagrange_x(n: int, i: int) -> Seq<int> {
    Seq::new((n - 1) as nat, |k: int| lagrange(n, i)[k + 1])
}

/// Whether the rows hold the quotients of the cross products, for the first `i` basis polynomials.
pub open spec fn are_cross_quotients(rows: Seq<Vec<Poly>>, n: int) -> bool {
    forall|i: int|
        0 <= i < rows.len() ==> (#[trigger] rows[i])@.len() == n && is_cross_row(rows[i]@, n, i)
}

/// Whether the polynomials are the quotients of the cross products with the basis polynomial `i`.
pub open spec fn is_cross_row(row: Seq<Poly>, n: int, i: int) -> bool {
    forall|j: int|
        0 <= j < row.len() ==> is_quotient(
            (#[trigger] row[j])@,
            cross_product(n, i, j),
            vanishing(n),
        )
}

impl LagPolys {
    /// Whether these are the polynomials for the domain of size `n`.
    pub open spec fn is_for(&self, n: int) -> bool {
        &&& self.l@.len() == n
        &&& self.l_minus0@.len() == n
        &&& self.l_x@.len() == n
        &&& self.li_lj_z@.len() == n
        &&& forall|i: int|
            0 <= i < n ==> same_poly((#[trigger] self.l@[i])@, lagrange(n, i))
                && self.l@[i]@.len() == n
        &&& forall|i: int|
            0 <= i < n ==> same_poly((#[trigger] self.l_minus0@[i])@, lagrange_minus0(n, i))
                && self.l_minus0@[i]@.len() == n + 1
        &&& forall|i: int|
            0 <= i < n ==> same_poly((#[trigger] self.l_x@[i])@, lagrange_x(n, i))
                && self.l_x@[i]@.len() == n - 1
        &&& are_cross_quotients(self.li_lj_z@, n)
        &&& eqm(self.denom@, size_inverse(n))
    }

    /// Computes the polynomials for a domain of at least two elements.
    pub fn new(n: usize) -> (res: LagPolys)
        requires
            2 <= n,
            is_domain_size(n as int),
            is_domain_size(2 * n as int),
            n < usize::MAX,
        ensures
            res.is_for(n as int),
    {
        let mut l: Vec<Poly> = Vec::new();
        let mut l_minus0: Vec<Poly> = Vec::new();
        let mut l_x: Vec<Poly> = Vec::new();
        let mut i: usize = 0;
        while i < n
            invariant
                0 <= i <= n,
                2 <= n < usize::MAX,
                is_domain_size(n as int),
                l@.len() == i,
                l_minus0@.len() == i,
                l_x@.len() == i,
                forall|k: int|
                    0 <= k < i ==> same_poly((#[trigger] l@[k])@, lagrange(n as int, k))
                        && l@[k]@.len() == n,
                forall|k: int|
                    0 <= k < i ==> same_poly(
                        (#[trigger] l_minus0@[k])@,
                        lagrange_minus0(n as int, k),
                    ) && l_minus0@[k]@.len() == n + 1,
                forall|k: int|
                    0 <= k < i ==> same_poly((#[trigger] l_x@[k])@, lagrange_x(n as int, k))
                        && l_x@[k]@.len() == n - 1,
            decreases n - i,
        {
            let li = lagrange_poly(n, i);
            let li_minus0 = times_x_without_constant(&li, n, i);
            let li_x = over_x_squared(&li_minus0, n, i);
            l.push(li);
            l_minus0.push(li_minus0);
            l_x.push(li_x);
            i += 1;
        }

        let mut li_lj_z: Vec<Vec<Poly>> = Vec::new();
        let mut i: usize = 0;
        while i < n
            invariant
                0 <= i <= n,
                is_domain_size(n as int),
                is_domain_size(2 * n as int),
                l@.len() == n,
                forall|k: int|
                    0 <= k < n ==> same_poly((#[trigger] l@[k])@, lagrange(n as int, k))
                        && l@[k]@.len() == n,
                li_lj_z@.len() == i,
                are_cross_quotients(li_lj_z@, n as int),
            decreases n - i,
        {
            let row = cross_row(&l, n, i);
            li_lj_z.push(row);
            i += 1;
        }

        let denom = domain_denominator(n);
        LagPolys { l, l_minus0, l_x, li_lj_z, denom }
    }
}

/// `(p - p(0)) * X` for a basis polynomial.
fn times_x_without_constant(p: &Poly, n: usize, i: usize) -> (res: Poly)
    requires
        2 <= n < usize::MAX,
        is_domain_size(n as int),
        i < n,
        same_poly(p@, lagrange(n as int, i as int)),
        p@.len() == n,
    ensures
        same_poly(res@, lagrange_minus0(n as int, i as int)),
        res@.len() == n + 1,
{
    let ghost q = lagrange(n as int, i as int);
    let ghost want = lagrange_minus0(n as int, i as int);
    let source = p.coeffs();
    assert(source@.len() == vals(source@).len());
    let mut coeffs: Vec<Scalar> = Vec::new();
    coeffs.push(Scalar::zero());
    coeffs.push(Scalar::zero());
    let mut k: usize = 1;
    while k < n
        invariant
            1 <= k <= n,
            2 <= n,
            source@.len() == n,
            vals(source@) == p@,
            same_poly(p@, q),
            q == lagrange(n as int, i as int),
            want == lagrange_minus0(n as int, i as int),
            coeffs@.len() == k + 1,
            forall|m: int| 0 <= m <= k ==> eqm((#[trigger] coeffs@[m])@, want[m]),
        decreases n - k,
    {
        proof {
            assert(vals(source@)[k as int] == source@[k as int]@);
            assert(eqm(coeff(p@, k as int), coeff(q, k as int)));
        }
        coeffs.push(source[k]);
        k += 1;
    }
    let res = Poly::from_coefficients_vec(coeffs);
    proof {
        assert forall|m: int| eqm(#[trigger] coeff(res@, m), coeff(want, m)) by {
            assert(eqm(coeff(res@, m), coeff(vals(coeffs@), m)));
            if 0 <= m <= n {
                assert(vals(coeffs@)[m] == coeffs@[m]@);
            }
        }
        lemma_lagrange_coeff_is_unit(n as int, i as int, n - 1);
        lemma_length_by_last(res@, want);
    }
    res
}

/// A polynomial without leading zeros is as long as one with the same coefficients whose last one
/// is a unit.
proof fn lemma_length_by_last(p: Seq<int>, q: Seq<int>)
    requires
        same_poly(p, q),
        is_trimmed(p),
        q.len() > 0,
    ensures
        is_unit(q.last()) ==> p.len() == q.len(),
{
    if p.len() > q.len() {
        assert(eqm(coeff(p, p.len() - 1), coeff(q, p.len() - 1)));
    }
    if p.len() < q.len() && is_unit(q.last()) {
        assert(eqm(coeff(p, q.len() - 1), coeff(q, q.len() - 1)));
        lemma_unit_eqm(q.last(), 0);
        lemma_unit_nonzero(0);
        lemma_modulus();
        lemma_reduced(0);
    }
}

/// The coefficients from the third on.
fn over_x_squared(p: &Poly, n: usize, i: usize) -> (res: Poly)
    requires
        2 <= n < usize::MAX,
        is_domain_size(n as int),
        i < n,
        same_poly(p@, lagrange_minus0(n as int, i as int)),
        p@.len() == n + 1,
    ensures
        same_poly(res@, lagrange_x(n as int, i as int)),
        res@.len() == n - 1,
{
    let ghost q = lagrange_minus0(n as int, i as int);
    let ghost want = lagrange_x(n as int, i as int);
    let source = p.coeffs();
    assert(source@.len() == vals(source@).len());
    let mut coeffs: Vec<Scalar> = Vec::new();
    let mut k: usize = 2;
    while k < n + 1
        invariant
            2 <= k <= n + 1,
            2 <= n < usize::MAX,
            source@.len() == n + 1,
            vals(source@) == p@,
            same_poly(p@, q),
            q == lagrange_minus0(n as int, i as int),
            want == lagrange_x(n as int, i as int),
            coeffs@.len() == k - 2,
            forall|m: int| 0 <= m < k - 2 ==> eqm((#[trigger] coeffs@[m])@, want[m]),
        decreases n + 1 - k,
    {
        proof {
            assert(vals(source@)[k as int] == source@[k as int]@);
            assert(eqm(coeff(p@, k as int), coeff(q, k as int)));
        }
        coeffs.push(source[k]);
        k += 1;
    }
    let res = Poly::from_coefficients_vec(coeffs);
    proof {
        assert forall|m: int| eqm(#[trigger] coeff(res@, m), coeff(want, m)) by {
            assert(eqm(coeff(res@, m), coeff(vals(coeffs@), m)));
            if 0 <= m < n - 1 {
                assert(vals(coeffs@)[m] == coeffs@[m]@);
            }
        }
        lemma_lagrange_coeff_is_unit(n as int, i as int, n - 1);
        lemma_length_by_last(res@, want);
    }
    res
}

/// The quotients of the cross products with one basis polynomial.
fn cross_row(l: &Vec<Poly>, n: usize, i: usize) -> (row: Vec<Poly>)
    requires
        is_domain_size(n as int),
        is_domain_size(2 * n as int),
        i < n,
        l@.len() == n,
        forall|k: int|
            0 <= k < n ==> same_poly((#[trigger] l@[k])@, lagrange(n as int, k)) && l@[k]@.len()
                == n,
    ensures
        row@.len() == n,
        is_cross_row(row@, n as int, i as int),
{
    let mut row: Vec<Poly> = Vec::new();
    let mut j: usize = 0;
    while j < n
        invariant
            0 <= j <= n,
            i < n,
            is_domain_size(n as int),
            is_domain_size(2 * n as int),
            l@.len() == n,
            forall|k: int|
                0 <= k < n ==> same_poly((#[trigger] l@[k])@, lagrange(n as int, k))
                    && l@[k]@.len() == n,
            row@.len() == j,
            is_cross_row(row@, n as int, i as int),
        decreases n - j,
    {
        assert(same_poly(l@[i as int]@, lagrange(n as int, i as int)));
        assert(same_poly(l@[j as int]@, lagrange(n as int, j as int)));
        let prod = l[i].mul(&l[j]);
        let numerator = if i == j {
            prod.sub(&l[i])
        } else {
            prod
        };
        proof {
            lemma_cross_numerator(
                l@[i as int]@,
                l@[j as int]@,
                prod@,
                numerator@,
                n as int,
                i as int,
                j as int,
            );
        }
        let q = numerator.divide_by_vanishing_poly(n);
        proof {
            lemma_quotient_same(
                q@,
                numerator@,
                cross_product(n as int, i as int, j as int),
                vanishing(n as int),
                vanishing(n as int),
            );
        }
        row.push(q);
        j += 1;
    }
    row
}

proof fn lemma_cross_numerator(
    a: Seq<int>,
    b: Seq<int>,
    ab: Seq<int>,
    numerator: Seq<int>,
    n: int,
    i: int,
    j: int,
)
    requires
        same_poly(a, lagrange(n, i)),
        same_poly(b, lagrange(n, j)),
        same_poly(ab, poly_mul(a, b)),
        i == j ==> same_poly(numerator, poly_sub(ab, a)),
        i != j ==> numerator == ab,
    ensures
        same_poly(numerator, cross_product(n, i, j)),
{
    let li = lagrange(n, i);
    let lj = lagrange(n, j);
    let m = poly_mul(li, lj);
    lemma_mul_same(a, li, b, lj);
    assert forall|k: int| eqm(#[trigger] coeff(ab, k), coeff(m, k)) by {
        assert(eqm(coeff(ab, k), coeff(poly_mul(a, b), k)));
        assert(eqm(coeff(poly_mul(a, b), k), coeff(m, k)));
    }
    let s = poly_scale(li, indicator(i, j));
    if i == j {
        assert forall|k: int| eqm(#[trigger] coeff(a, k), coeff(s, k)) by {
            assert(eqm(coeff(a, k), coeff(li, k)));
            assert(li[k] * 1 == li[k]);
        }
        lemma_add_same(ab, m, a, s);
        assert forall|k: int| eqm(
            #[trigger] coeff(numerator, k),
            coeff(cross_product(n, i, j), k),
        ) by {
            assert(eqm(coeff(numerator, k), coeff(poly_sub(ab, a), k)));
            assert(eqm(coeff(poly_sub(ab, a), k), coeff(poly_sub(m, s), k)));
        }
    } else {
        assert forall|k: int| eqm(
            #[trigger] coeff(numerator, k),
            coeff(cross_product(n, i, j), k),
        ) by {
            assert(eqm(coeff(ab, k), coeff(m, k)));
            assert(coeff(s, k) == 0) by {
                assert(li[k] * 0 == 0);
            }
        }
    }
}

/// One over the product of `1 - w^i` for all elements `w^i` of the domain but one.
fn domain_denominator(n: usize) -> (res: Scalar)
    requires
        2 <= n,
        is_domain_size(n as int),
    ensures
        eqm(res@, size_inverse(n as int)),
{
    let w = domain_generator(n);
    let one = Scalar::one();
    let mut prod = Scalar::one();
    let mut i: usize = 1;
    let ghost f = |k: int| 1 - pow(unity_root(n as int), (k + 1) as nat);
    while i < n
        invariant
            1 <= i <= n,
            n <= 0x1_0000_0000,
            w@ == unity_root(n as int),
            one@ == 1,
            f == (|k: int| 1 - pow(unity_root(n as int), (k + 1) as nat)),
            eqm(prod@, product(i - 1, f)),
        decreases n - i,
    {
        let element = w.pow(i as u64);
        let factor = one.sub(&element);
        proof {
            lemma_eqm_mod(pow(w@, i as nat));
            lemma_eqm_mod(1 - element@);
            crate::algebra::congruence::lemma_eqm_sub(1, 1, element@, pow(w@, i as nat));
            assert(f(i - 1) == 1 - pow(w@, i as nat));
            lemma_eqm_mul(prod@, product(i - 1, f), factor@, f(i - 1));
            lemma_eqm_mod(prod@ * factor@);
        }
        prod = prod.mul(&factor);
        i += 1;
    }
    proof {
        lemma_product_one_minus_roots(n as int);
        lemma_power_of_two_is_unit(n as int);
        lemma_unit_eqm(n as int, prod@);
        lemma_unit_nonzero(prod@);
        crate::field::lemma_scalar_range(prod);
        lemma_reduced(prod@);
    }
    match prod.inverse() {
        Some(inv) => {
            proof {
                let c = size_inverse(n as int);
                lemma_size_inverse(n as int);
                lemma_modulus();
                lemma_reduced(1);
                lemma_eqm_mul(prod@, n as int, inv@, inv@);
                lemma_unit_cancel(n as int, inv@, c);
            }
            inv
        },
        None => Scalar::zero(),
    }
}

/// The secret key of a party.
#[derive(Clone, Copy)]
pub struct SecretKey {
    pub id: usize,
    pub sk: Scalar,
}

/// A public key that is good for every position, and slower to aggregate.
#[derive(Clone, Debug)]
pub struct PublicKey {
    /// The secret key on the base of each slot.
    pub bls_pk: Vec<G1>,
    /// The secret key on the powers of each slot.
    pub hints: Vec<Vec<G1>>,
    /// The secret key on the preprocessed powers of each slot. It follows from the hints.
    pub y: Vec<Vec<G1>>,
    pub id: usize,
}

/// A public key for one position.
#[derive(Clone)]
pub struct LagPublicKey {
    pub id: usize,
    pub position: usize,
    /// The secret key on the base of each slot.
    pub bls_pk: Vec<G1>,
    /// The secret key on the basis polynomial of the position.
    pub sk_li: Vec<G1>,
    pub sk_li_minus0: Vec<G1>,
    pub sk_li_lj_z: Vec<Vec<G1>>,
    pub sk_li_x: Vec<G1>,
}

impl PublicKey {
    /// The shape of the key.
    pub open spec fn wf(&self, n: int, l: int) -> bool {
        &&& self.hints@.len() == l
        &&& self.y@.len() == l
        &&& forall|k: int| 0 <= k < l ==> (#[trigger] self.hints@[k])@.len() == n + 1
        &&& forall|k: int| 0 <= k < l ==> (#[trigger] self.y@[k])@.len() == 2 * n
    }

    /// Whether this is the public key of the secret key.
    pub open spec fn is_key_of(&self, key: SecretKey, crs: &CRS) -> bool {
        &&& self.id == key.id
        &&& is_multiple_row(self.bls_pk@, crs.gen_g@, key.sk@)
        &&& is_multiple_table(self.hints@, crs.powers_of_g@, key.sk@)
        &&& is_multiple_table(self.y@, crs.y@, key.sk@)
    }
}

/// Whether the points are the entries of a column of the given rows, times a scalar.
pub open spec fn is_multiple_column(
    column: Seq<G1>,
    rows: Seq<Vec<G1>>,
    position: int,
    k: int,
) -> bool {
    &&& column.len() == rows.len()
    &&& forall|i: int|
        0 <= i < column.len() ==> (#[trigger] column[i])@ == (rows[i]@[position]@ * k)
            % modulus()
}

/// Whether the rows are those of the given tables for a position, times a scalar.
pub open spec fn is_multiple_slice(
    rows: Seq<Vec<G1>>,
    tables: Seq<Vec<Vec<G1>>>,
    position: int,
    k: int,
) -> bool {
    &&& rows.len() == tables.len()
    &&& forall|i: int|
        0 <= i < rows.len() ==> is_multiple_row(
            (#[trigger] rows[i])@,
            tables[i]@[position]@,
            k,
        )
}

impl LagPublicKey {
    /// The shape of the key.
    pub open spec fn wf(&self, n: int, l: int) -> bool {
        &&& self.bls_pk@.len() == l
        &&& self.sk_li@.len() == l
        &&& self.sk_li_minus0@.len() == l
        &&& self.sk_li_x@.len() == l
        &&& self.sk_li_lj_z@.len() == l
        &&& forall|k: int| 0 <= k < l ==> (#[trigger] self.sk_li_lj_z@[k])@.len() == n
    }

    /// Whether this is the public key of the secret key for the position.
    pub open spec fn is_key_of(&self, key: SecretKey, position: int, crs: &CRS) -> bool {
        &&& self.id == key.id
        &&& self.position == position
        &&& is_multiple_row(self.bls_pk@, crs.gen_g@, key.sk@)
        &&& is_multiple_column(self.sk_li@, crs.li@, position, key.sk@)
        &&& is_multiple_column(self.sk_li_minus0@, crs.li_minus0@, position, key.sk@)
        &&& is_multiple_column(self.sk_li_x@, crs.li_x@, position, key.sk@)
        &&& is_multiple_slice(self.sk_li_lj_z@, crs.li_lj_z@, position, key.sk@)
    }

    pub fn new(
        id: usize,
        position: usize,
        bls_pk: Vec<G1>,
        sk_li: Vec<G1>,
        sk_li_minus0: Vec<G1>,
        sk_li_lj_z: Vec<Vec<G1>>,
        sk_li_x: Vec<G1>,
    ) -> (res: LagPublicKey)
        ensures
            res == (LagPublicKey {
                id,
                position,
                bls_pk,
                sk_li,
                sk_li_minus0,
                sk_li_lj_z,
                sk_li_x,
            }),
    {
        LagPublicKey { id, position, bls_pk, sk_li, sk_li_minus0, sk_li_lj_z, sk_li_x }
    }
}

/// The entries of a column, times a scalar.
fn multiply_column(rows: &Vec<Vec<G1>>, position: usize, k: &Scalar) -> (res: Vec<G1>)
    requires
        forall|i: int| 0 <= i < rows@.len() ==> position < (#[trigger] rows@[i])@.len(),
    ensures
        is_multiple_column(res@, rows@, position as int, k@),
{
    let mut res: Vec<G1> = Vec::new();
    let mut i: usize = 0;
    while i < rows.len()
        invariant
            0 <= i <= rows@.len(),
            forall|j: int| 0 <= j < rows@.len() ==> position < (#[trigger] rows@[j])@.len(),
            res@.len() == i,
            forall|j: int|
                0 <= j < i ==> (#[trigger] res@[j])@ == (rows@[j]@[position as int]@ * k@)
                    % modulus(),
        decreases rows@.len() - i,
    {
        let row = &rows[i];
        res.push(row[position].mul(k));
        i += 1;
    }
    res
}

impl SecretKey {
    /// A random key.
    pub fn new(rng: &mut StdRng, id: usize) -> (res: SecretKey)
        ensures
            res.id == id,
            is_draw(*old(rng), *final(rng), res.sk),
    {
        SecretKey { id, sk: Scalar::random(rng) }
    }

    pub fn from_scalar(sk: Scalar, id: usize) -> (res: SecretKey)
        ensures
            res.id == id,
            res.sk == sk,
    {
        SecretKey { id, sk }
    }

    /// The public key that is good for every position.
    pub fn get_pk(&self, crs: &CRS) -> (res: PublicKey)
        requires
            crs.wf(),
        ensures
            res.is_key_of(*self, crs),
            res.wf(crs.n as int, crs.l as int),
    {
        let res = PublicKey {
            id: self.id,
            bls_pk: multiply_row(&crs.gen_g, &self.sk),
            hints: multiply_table(&crs.powers_of_g, &self.sk),
            y: multiply_table(&crs.y, &self.sk),
        };
        proof {
            assert forall|k: int| 0 <= k < crs.l implies (#[trigger] res.hints@[k])@.len() == crs.n
                + 1 by {
                assert(crs.slot_wf(k));
            }
            assert forall|k: int| 0 <= k < crs.l implies (#[trigger] res.y@[k])@.len() == 2
                * crs.n by {
                assert(crs.slot_wf(k));
            }
        }
        res
    }

    /// The public key for a position.
    pub fn get_lagrange_pk(&self, position: usize, crs: &CRS) -> (res: LagPublicKey)
        requires
            crs.wf(),
            position < crs.n,
        ensures
            res.is_key_of(*self, position as int, crs),
            res.wf(crs.n as int, crs.l as int),
    {
        proof {
            assert forall|k: int| 0 <= k < crs.l implies position < (#[trigger] crs.li@[k])@.len()
                by {
                assert(crs.slot_wf(k));
            }
            assert forall|k: int| 0 <= k < crs.l implies position < (
            #[trigger] crs.li_minus0@[k])@.len() by {
                assert(crs.slot_wf(k));
            }
            assert forall|k: int| 0 <= k < crs.l implies position < (
            #[trigger] crs.li_x@[k])@.len() by {
                assert(crs.slot_wf(k));
            }
        }
        let mut sk_li_lj_z: Vec<Vec<G1>> = Vec::new();
        let mut k: usize = 0;
        while k < crs.l
            invariant
                0 <= k <= crs.l,
                crs.wf(),
                position < crs.n,
                sk_li_lj_z@.len() == k,
                forall|i: int|
                    0 <= i < k ==> is_multiple_row(
                        (#[trigger] sk_li_lj_z@[i])@,
                        crs.li_lj_z@[i]@[position as int]@,
                        self.sk@,
                    ) && sk_li_lj_z@[i]@.len() == crs.n,
            decreases crs.l - k,
        {
            assert(crs.slot_wf(k as int));
            assert(crs.li_lj_z@[k as int]@[position as int]@.len() == crs.n);
            let table = &crs.li_lj_z[k];
            sk_li_lj_z.push(multiply_row(&table[position], &self.sk));
            k += 1;
        }
        LagPublicKey {
            id: self.id,
            position,
            bls_pk: multiply_row(&crs.gen_g, &self.sk),
            sk_li: multiply_column(&crs.li, position, &self.sk),
            sk_li_minus0: multiply_column(&crs.li_minus0, position, &self.sk),
            sk_li_lj_z,
            sk_li_x: multiply_column(&crs.li_x, position, &self.sk),
        }
    }
}

/// Whether the points are commitments to the polynomial on the hints of each slot.
pub open spec fn are_commitments(points: Seq<G1>, p: Seq<int>, hints: Seq<Vec<G1>>) -> bool {
    &&& points.len() == hints.len()
    &&& forall|k: int|
        0 <= k < points.len() ==> (#[trigger] points[k])@ == commitment(p, vals(hints[k]@))
            % modulus()
}

/// Whether the points are opening proofs of the polynomial at all elements of the domain, each times
/// the element and a factor.
pub open spec fn are_scaled_openings(
    points: Seq<int>,
    y: Seq<int>,
    p: Seq<int>,
    n: int,
    factor: int,
) -> bool {
    exists|opens: Seq<int>| #[trigger]
        are_openings(y, p, n, opens) && opens.len() == n && forall|j: int|
            0 <= j < n ==> eqm(
                #[trigger] points[j],
                opens[j] * (pow(unity_root(n), j as nat) * factor),
            )
}

impl PublicKey {
    /// Whether the key for a position is what follows from this key by the polynomials.
    pub open spec fn is_lag_key(
        &self,
        key: LagPublicKey,
        position: int,
        crs: &CRS,
        polys: &LagPolys,
    ) -> bool {
        &&& key.id == self.id
        &&& key.position == position
        &&& key.bls_pk@ == self.bls_pk@
        &&& are_commitments(key.sk_li@, polys.l@[position]@, self.hints@)
        &&& are_commitments(key.sk_li_minus0@, polys.l_minus0@[position]@, self.hints@)
        &&& are_commitments(key.sk_li_x@, polys.l_x@[position]@, self.hints@)
        &&& key.sk_li_lj_z@.len() == crs.l
        &&& forall|k: int|
            0 <= k < crs.l ==> (#[trigger] key.sk_li_lj_z@[k])@.len() == crs.n
                && are_scaled_openings(
                vals(key.sk_li_lj_z@[k]@),
                vals(self.y@[k]@),
                polys.l@[position]@,
                crs.n as int,
                polys.denom@,
            )
    }

    /// Derives the key for a position, without the secret key.
    pub fn get_lag_public_key(&self, position: usize, crs: &CRS, lag_polys: &LagPolys) -> (res:
        LagPublicKey)
        requires
            crs.wf(),
            self.wf(crs.n as int, crs.l as int),
            position < crs.n,
            lag_polys.is_for(crs.n as int),
        ensures
            self.is_lag_key(res, position as int, crs, lag_polys),
    {
        let sk_li = commit_all(&self.hints, &lag_polys.l[position], crs.n);
        let sk_li_minus0 = commit_all(&self.hints, &lag_polys.l_minus0[position], crs.n);
        let sk_li_x = commit_all(&self.hints, &lag_polys.l_x[position], crs.n);
        let w = domain_generator(crs.n);
        let mut sk_li_lj_z: Vec<Vec<G1>> = Vec::new();
        let mut k: usize = 0;
        while k < crs.l
            invariant
                0 <= k <= crs.l,
                crs.wf(),
                self.wf(crs.n as int, crs.l as int),
                position < crs.n,
                lag_polys.is_for(crs.n as int),
                w@ == unity_root(crs.n as int),
                sk_li_lj_z@.len() == k,
                forall|i: int|
                    0 <= i < k ==> (#[trigger] sk_li_lj_z@[i])@.len() == crs.n
                        && are_scaled_openings(
                        vals(sk_li_lj_z@[i]@),
                        vals(self.y@[i]@),
                        lag_polys.l@[position as int]@,
                        crs.n as int,
                        lag_polys.denom@,
                    ),
            decreases crs.l - k,
        {
            let coeffs = lag_polys.l[position].coeffs();
            assert(coeffs@.len() == vals(coeffs@).len());
            assert(self.y@[k as int]@.len() == 2 * crs.n);
            let opens = open_all_values(&self.y[k], coeffs, crs.n);
            let row = scale_openings(&opens, &w, &lag_polys.denom, crs.n);
            proof {
                let n = crs.n as int;
                assert forall|j: int| 0 <= j < n implies eqm(
                    #[trigger] vals(row@)[j],
                    vals(opens@)[j] * (pow(unity_root(n), j as nat) * lag_polys.denom@),
                ) by {
                    assert(eqm(
                        row@[j]@,
                        opens@[j]@ * (pow(unity_root(n), j as nat) * lag_polys.denom@),
                    ));
                }
                assert(are_openings(
                    vals(self.y@[k as int]@),
                    lag_polys.l@[position as int]@,
                    n,
                    vals(opens@),
                ));
            }
            sk_li_lj_z.push(row);
            k += 1;
        }
        let bls_pk = self.bls_pk.clone();
        assert(bls_pk@ =~= self.bls_pk@);
        LagPublicKey { id: self.id, position, bls_pk, sk_li, sk_li_minus0, sk_li_lj_z, sk_li_x }
    }
}

/// Commitments to a polynomial on the hints of each slot.
fn commit_all(hints: &Vec<Vec<G1>>, p: &Poly, n: usize) -> (res: Vec<G1>)
    requires
        p@.len() <= n + 1,
        forall|k: int| 0 <= k < hints@.len() ==> (#[trigger] hints@[k])@.len() == n + 1,
    ensures
        are_commitments(res@, p@, hints@),
{
    let coeffs = p.coeffs();
    assert(coeffs@.len() == vals(coeffs@).len());
    let mut res: Vec<G1> = Vec::new();
    let mut k: usize = 0;
    while k < hints.len()
        invariant
            0 <= k <= hints@.len(),
            coeffs@.len() <= n + 1,
            vals(coeffs@) == p@,
            forall|i: int| 0 <= i < hints@.len() ==> (#[trigger] hints@[i])@.len() == n + 1,
            res@.len() == k,
            forall|i: int|
                0 <= i < k ==> (#[trigger] res@[i])@ == commitment(p@, vals(hints@[i]@))
                    % modulus(),
        decreases hints@.len() - k,
    {
        res.push(commit(&hints[k], coeffs));
        k += 1;
    }
    res
}

/// Each point times its element of the domain and a factor.
fn scale_openings(opens: &Vec<G1>, w: &Scalar, factor: &Scalar, n: usize) -> (row: Vec<G1>)
    requires
        opens@.len() == n,
        n <= 0x1_0000_0000,
    ensures
        row@.len() == n,
        forall|j: int|
            0 <= j < n ==> eqm(
                (#[trigger] row@[j])@,
                opens@[j]@ * (pow(w@, j as nat) * factor@),
            ),
{
    let mut row: Vec<G1> = Vec::new();
    let mut j: usize = 0;
    while j < n
        invariant
            0 <= j <= n,
            n <= 0x1_0000_0000,
            opens@.len() == n,
            row@.len() == j,
            forall|i: int|
                0 <= i < j ==> eqm(
                    (#[trigger] row@[i])@,
                    opens@[i]@ * (pow(w@, i as nat) * factor@),
                ),
        decreases n - j,
    {
        let element = w.pow(j as u64);
        let scalar = element.mul(factor);
        proof {
            let p = pow(w@, j as nat);
            lemma_eqm_mod(p);
            lemma_eqm_mul(element@, p, factor@, factor@);
            lemma_eqm_mod(element@ * factor@);
            lemma_eqm_mul(opens@[j as int]@, opens@[j as int]@, scalar@, p * factor@);
            lemma_eqm_mod(opens@[j as int]@ * scalar@);
        }
        row.push(opens[j].mul(&scalar));
        j += 1;
    }
    row
}

/// A commitment on the hints of a slot is the polynomial at the secret, on the base of the slot and
/// times the secret key.
proof fn lemma_hint_commitment(
    hints: Seq<G1>,
    powers: Seq<G1>,
    p: Seq<int>,
    q: Seq<int>,
    a: int,
    t: int,
    sk: int,
)
    requires
        is_multiple_row(hints, powers, sk),
        are_powers(vals(powers), a, t),
        p.len() <= hints.len(),
        same_poly(p, q),
    ensures
        eqm(commitment(p, vals(hints)), a * eval(q, t) * sk),
{
    let points = vals(hints);
    assert forall|j: int| 0 <= j < p.len() implies eqm(
        #[trigger] points[j],
        (a * sk) * pow(t, j as nat),
    ) by {
        let x = pow(t, j as nat);
        assert(hints[j]@ == (powers[j]@ * sk) % modulus());
        assert(eqm(vals(powers)[j], a * x));
        lemma_eqm_mul(powers[j]@, a * x, sk, sk);
        lemma_eqm_mod(powers[j]@ * sk);
        assert(a * x * sk == a * sk * x) by (nonlinear_arith);
    }
    lemma_commitment_value(p, points, a * sk, t);
    lemma_eval_same(p, q, t);
    lemma_eqm_mul(a * sk, a * sk, eval(p, t), eval(q, t));
    assert(a * sk * eval(q, t) == a * eval(q, t) * sk) by (nonlinear_arith);
}

/// The hints on cross products come out the same from the opening proofs as from the secret key.
proof fn lemma_hint_cross(
    y: Seq<G1>,
    p: Seq<int>,
    points: Seq<int>,
    n: int,
    position: int,
    j: int,
    a: int,
    t: int,
    sk: int,
    factor: int,
    base: Seq<G1>,
    value: int,
)
    requires
        is_domain_size(n),
        is_domain_size(2 * n),
        0 <= position < n,
        0 <= j < n,
        same_poly(p, lagrange(n, position)),
        p.len() == n,
        eqm(factor, size_inverse(n)),
        base.len() == 2 * n,
        is_multiple_row(y, base, sk),
        is_transform(falling_powers(a, t, n), vals(base), 2 * n),
        are_scaled_openings(points, vals(y), p, n, factor),
        is_cross_value(value, n, position, j, a, t),
    ensures
        eqm(points[j], value * sk),
{
    let w2 = unity_root(2 * n);
    let c = a * sk;
    let u = falling_powers(a, t, n);
    let v = falling_powers(c, t, n);
    assert forall|k: int| 0 <= k < 2 * n implies #[trigger] v[k] == sk * u[k] by {
        if k < n {
            let x = pow(t, (n - 1 - k) as nat);
            assert(a * sk * x == sk * (a * x)) by (nonlinear_arith);
        }
    }
    assert(v =~= Seq::new(u.len(), |k: int| sk * u[k]));
    assert forall|k: int| 0 <= k < 2 * n implies eqm(
        #[trigger] vals(y)[k],
        dft(v, w2, k),
    ) by {
        assert(eqm(vals(base)[k], dft(u, w2, k)));
        lemma_dft_scale(u, sk, w2, k);
        assert(y[k]@ == (base[k]@ * sk) % modulus());
        lemma_eqm_mod(base[k]@ * sk);
        lemma_eqm_mul(base[k]@, dft(u, w2, k), sk, sk);
        assert(dft(u, w2, k) * sk == sk * dft(u, w2, k)) by (nonlinear_arith);
    }
    let opens = choose|opens: Seq<int>| #[trigger]
        are_openings(vals(y), p, n, opens) && opens.len() == n && forall|i: int|
            0 <= i < n ==> eqm(
                #[trigger] points[i],
                opens[i] * (pow(unity_root(n), i as nat) * factor),
            );
    lemma_all_openings(vals(y), p, n, opens, c, t, j);
    let x = pow(unity_root(n), j as nat);
    let lp = eval(linear_quotient(p, x, n), t);
    let ll = eval(linear_quotient(lagrange(n, position), x, n), t);
    lemma_linear_quotient_same(p, lagrange(n, position), x, n, t);
    let q = choose|q: Seq<int>| #[trigger]
        is_quotient(q, cross_product(n, position, j), vanishing(n)) && eqm(value, a * eval(q, t));
    lemma_cross_quotient(n, position, j, q, t);
    let s = x * size_inverse(n);
    // points[j] = c * lp * (x * factor) = a * sk * ll * s, and value * sk = a * (ll * s) * sk.
    lemma_eqm_mul(x, x, factor, size_inverse(n));
    lemma_eqm_mul(c, c, lp, ll);
    lemma_eqm_mul(opens[j], c * ll, x * factor, s);
    lemma_eqm_mul(a, a, eval(q, t), ll * s);
    lemma_eqm_mul(value, a * (ll * s), sk, sk);
    assert(eqm(points[j], opens[j] * (x * factor)));
    assert(a * sk * ll * s == a * (ll * s) * sk) by (nonlinear_arith);
}

/// The hints of a slot but the last, from the highest power down, in front of as many zeros.
pub open spec fn falling_hints(hints: Seq<int>, n: int) -> Seq<int> {
    Seq::new(
        (2 * n) as nat,
        |i: int|
            if i < n {
                hints[n - 1 - i]
            } else {
                0
            },
    )
}

/// The preprocessed part of a public key follows from its hints: it is their transform.
pub proof fn lemma_preprocessed_from_hints(
    crs: &CRS,
    l: int,
    t: int,
    alphas: Seq<int>,
    gamma: int,
    secret: SecretKey,
    public: PublicKey,
    k: int,
)
    requires
        crs.is_generated(crs.n as int, l, t, alphas, gamma),
        public.is_key_of(secret, crs),
        0 <= k < l,
    ensures
        is_transform(
            falling_hints(vals(public.hints@[k]@), crs.n as int),
            vals(public.y@[k]@),
            2 * crs.n as int,
        ),
{
    let n = crs.n as int;
    let a = alphas[k];
    let sk = secret.sk@;
    let w = unity_root(2 * n);
    assert(is_generated_slot(crs, k, a, t, gamma));
    assert(crs.slot_wf(k));
    let powers = crs.powers_of_g@[k]@;
    let base = crs.y@[k]@;
    let hints = public.hints@[k]@;
    let y = public.y@[k]@;
    assert(is_multiple_row(hints, powers, sk));
    assert(is_multiple_row(y, base, sk));
    let u = falling_powers(a, t, n);
    let v = Seq::new(u.len(), |i: int| sk * u[i]);
    let h = falling_hints(vals(hints), n);
    assert forall|i: int| 0 <= i < 2 * n implies eqm(#[trigger] v[i], h[i]) by {
        if i < n {
            let j = n - 1 - i;
            assert(hints[j]@ == (powers[j]@ * sk) % modulus());
            lemma_eqm_mod(powers[j]@ * sk);
            assert(eqm(vals(powers)[j], a * pow(t, j as nat)));
            lemma_eqm_mul(powers[j]@, u[i], sk, sk);
            assert(u[i] * sk == sk * u[i]) by (nonlinear_arith);
        } else {
            assert(sk * 0 == 0);
        }
    }
    assert forall|i: int| 0 <= i < 2 * n implies eqm(#[trigger] vals(y)[i], dft(h, w, i)) by {
        assert(eqm(vals(base)[i], dft(u, w, i)));
        lemma_dft_scale(u, sk, w, i);
        assert(y[i]@ == (base[i]@ * sk) % modulus());
        lemma_eqm_mod(base[i]@ * sk);
        lemma_eqm_mul(base[i]@, dft(u, w, i), sk, sk);
        assert(dft(u, w, i) * sk == sk * dft(u, w, i)) by (nonlinear_arith);
        lemma_dft_eqm(v, h, w, i);
    }
}

/// The key for a position that follows from the public key is the one that the secret key gives.
pub proof fn lemma_lag_key_agrees(
    crs: &CRS,
    l: int,
    t: int,
    alphas: Seq<int>,
    gamma: int,
    secret: SecretKey,
    public: PublicKey,
    polys: &LagPolys,
    position: int,
    key: LagPublicKey,
)
    requires
        crs.is_generated(crs.n as int, l, t, alphas, gamma),
        public.is_key_of(secret, crs),
        polys.is_for(crs.n as int),
        0 <= position < crs.n,
        public.is_lag_key(key, position, crs, polys),
    ensures
        key.is_key_of(secret, position, crs),
{
    let n = crs.n as int;
    let sk = secret.sk@;
    assert forall|k: int| 0 <= k < l implies (#[trigger] key.sk_li@[k])@ == (
    crs.li@[k]@[position]@ * sk) % modulus() by {
        assert(crs.slot_wf(k) && is_generated_slot(crs, k, alphas[k], t, gamma));
        assert(is_multiple_row(public.hints@[k]@, crs.powers_of_g@[k]@, sk));
        assert(same_poly(polys.l@[position]@, lagrange(n, position)));
        lemma_hint_commitment(
            public.hints@[k]@,
            crs.powers_of_g@[k]@,
            polys.l@[position]@,
            lagrange(n, position),
            alphas[k],
            t,
            sk,
        );
        let v = alphas[k] * eval(lagrange(n, position), t);
        assert(eqm(vals(crs.li@[k]@)[position], v));
        lemma_eqm_mul(crs.li@[k]@[position]@, v, sk, sk);
    }
    assert forall|k: int| 0 <= k < l implies (#[trigger] key.sk_li_minus0@[k])@ == (
    crs.li_minus0@[k]@[position]@ * sk) % modulus() by {
        assert(crs.slot_wf(k) && is_generated_slot(crs, k, alphas[k], t, gamma));
        assert(is_multiple_row(public.hints@[k]@, crs.powers_of_g@[k]@, sk));
        assert(same_poly(polys.l_minus0@[position]@, lagrange_minus0(n, position)));
        lemma_hint_commitment(
            public.hints@[k]@,
            crs.powers_of_g@[k]@,
            polys.l_minus0@[position]@,
            lagrange_minus0(n, position),
            alphas[k],
            t,
            sk,
        );
        let v = alphas[k] * eval(lagrange_minus0(n, position), t);
        assert(eqm(vals(crs.li_minus0@[k]@)[position], v));
        lemma_eqm_mul(crs.li_minus0@[k]@[position]@, v, sk, sk);
    }
    assert forall|k: int| 0 <= k < l implies (#[trigger] key.sk_li_x@[k])@ == (
    crs.li_x@[k]@[position]@ * sk) % modulus() by {
        assert(crs.slot_wf(k) && is_generated_slot(crs, k, alphas[k], t, gamma));
        assert(is_multiple_row(public.hints@[k]@, crs.powers_of_g@[k]@, sk));
        assert(same_poly(polys.l_x@[position]@, lagrange_x(n, position)));
        lemma_hint_commitment(
            public.hints@[k]@,
            crs.powers_of_g@[k]@,
            polys.l_x@[position]@,
            lagrange_x(n, position),
            alphas[k],
            t,
            sk,
        );
        let v = alphas[k] * eval(lagrange_x(n, position), t);
        assert(eqm(vals(crs.li_x@[k]@)[position], v));
        lemma_eqm_mul(crs.li_x@[k]@[position]@, v, sk, sk);
    }
    assert forall|k: int| 0 <= k < l implies is_multiple_row(
        (#[trigger] key.sk_li_lj_z@[k])@,
        crs.li_lj_z@[k]@[position]@,
        sk,
    ) by {
        assert(crs.slot_wf(k) && is_generated_slot(crs, k, alphas[k], t, gamma));
        let row = key.sk_li_lj_z@[k]@;
        let source = crs.li_lj_z@[k]@[position]@;
        assert(source.len() == n);
        assert(is_multiple_row(public.y@[k]@, crs.y@[k]@, sk));
        assert(same_poly(polys.l@[position]@, lagrange(n, position)));
        assert(are_cross_values(vals(source), n, position, alphas[k], t));
        assert forall|j: int| 0 <= j < row.len() implies (#[trigger] row[j])@ == (source[j]@ * sk)
            % modulus() by {
            assert(is_cross_value(vals(source)[j], n, position, j, alphas[k], t));
            lemma_hint_cross(
                public.y@[k]@,
                polys.l@[position]@,
                vals(row),
                n,
                position,
                j,
                alphas[k],
                t,
                sk,
                polys.denom@,
                crs.y@[k]@,
                source[j]@,
            );
            crate::group::lemma_g1_range(row[j]);
            lemma_reduced(row[j]@);
            assert(vals(row)[j] == row[j]@);
        }
    }
}

} // verus!
