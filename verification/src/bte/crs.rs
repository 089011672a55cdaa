//! The common reference string of the batched scheme.
use crate::algebra::congruence::{lemma_eqm_mod, lemma_eqm_mul, lemma_reduced, modulus};
use crate::algebra::fourier::is_transform;
use crate::algebra::roots::{is_domain_size, is_power_of_two, max_domain_size};
use crate::field::{is_draw, vals, Scalar};
use crate::group::{g1_generator_multiples, g2_fft, g2_generator_multiples, pairing, G1, G2, Gt};
use crate::poly::lemma_power_step;
use ark_std::rand::rngs::StdRng;
use vstd::arithmetic::power::{lemma_pow0, lemma_pow1, lemma_pow_adds, pow};
use vstd::prelude::*;

verus! {

/// The powers of a secret `x`, in the exponent of the three groups.
#[derive(Clone, Debug)]
pub struct CRS {
    /// `x^i` for `i` in `0..=2 * batch_size`, but zero in place of `x^(batch_size + 1)`.
    pub powers_of_g: Vec<G1>,
    /// The same exponents in the second group.
    pub powers_of_h: Vec<G2>,
    /// `x^(batch_size + 1)` in the target group.
    pub gt_nplus1: Gt,
    pub batch_size: usize,
    /// The length of the convolution in `fft_batch_eval`: the next power of two from
    /// `2 * batch_size`.
    pub fft_size: usize,
    /// The transform of the lags, see [`lags`].
    pub fft_h: Vec<G2>,
    /// `x^(batch_size + 1 + i)` in the target group, for `i` in `0..batch_size`.
    pub gt_powers: Vec<Gt>,
}

/// The first power of two from `n` on, among `p`, `2 * p`, `4 * p` and so on.
pub open spec fn doubled_to(p: int, n: int) -> int
    decreases
            (if p < n {
                n - p
            } else {
                0
            }),
{
    if p >= n || p < 1 {
        p
    } else {
        doubled_to(2 * p, n)
    }
}

/// The first power of two from `n` on.
pub open spec fn next_power_of_two(n: int) -> int {
    doubled_to(1, n)
}

/// The length of the convolution for a batch.
pub open spec fn convolution_length(batch_size: int) -> int {
    next_power_of_two(2 * batch_size)
}

/// The exponent at position `i` of the powers of `x`.
pub open spec fn punctured_power(x: int, batch_size: int, i: int) -> int {
    if i == batch_size + 1 {
        0
    } else {
        pow(x, i as nat) % modulus()
    }
}

/// The exponents at a distance from position `b + 1`: those at a positive distance from the front,
/// those at a negative one from the back, and zeros between them.
pub open spec fn lags(h: Seq<int>, b: int, n: int) -> Seq<int> {
    Seq::new(
        n as nat,
        |k: int|
            if k < b {
                h[b + 1 + k]
            } else if k > n - b {
                h[b + 1 + k - n]
            } else {
                0
            },
    )
}

pub proof fn lemma_doubled_to(p: int, n: int)
    requires
        is_power_of_two(p),
        p >= 1,
        n >= 1,
        p == 1 || p < 2 * n,
    ensures
        is_power_of_two(doubled_to(p, n)),
        n <= doubled_to(p, n),
        doubled_to(p, n) == 1 || doubled_to(p, n) < 2 * n,
        doubled_to(p, n) >= p,
    decreases
            (if p < n {
                n - p
            } else {
                0
            }),
{
    if p < n {
        lemma_doubled_to(2 * p, n);
    }
}

fn next_power_of_two_from(n: usize) -> (res: usize)
    requires
        n >= 1,
        next_power_of_two(n as int) <= usize::MAX,
    ensures
        res == next_power_of_two(n as int),
{
    let mut p: usize = 1;
    while p < n
        invariant
            n >= 1,
            p >= 1,
            is_power_of_two(p as int),
            p == 1 || p < 2 * n,
            doubled_to(p as int, n as int) == next_power_of_two(n as int),
            next_power_of_two(n as int) <= usize::MAX,
        decreases
                (if p < n {
                    n - p
                } else {
                    0
                }),
    {
        proof {
            lemma_doubled_to(2 * p as int, n as int);
        }
        p = p * 2;
    }
    p
}

impl CRS {
    /// The shape of the reference string, and what `fft_h` holds.
    pub open spec fn wf(&self) -> bool {
        &&& 1 <= self.batch_size
        &&& self.fft_size == convolution_length(self.batch_size as int)
        &&& self.fft_size <= max_domain_size()
        &&& self.powers_of_g@.len() == 2 * self.batch_size + 1
        &&& self.powers_of_h@.len() == 2 * self.batch_size + 1
        &&& self.gt_powers@.len() == self.batch_size
        &&& is_transform(
            lags(vals(self.powers_of_h@), self.batch_size as int, self.fft_size as int),
            vals(self.fft_h@),
            self.fft_size as int,
        )
    }

    /// Whether this is the reference string for a batch size and the secret `x`.
    pub open spec fn is_generated(&self, batch_size: int, x: int) -> bool {
        &&& self.wf()
        &&& self.batch_size == batch_size
        &&& forall|i: int|
            0 <= i <= 2 * batch_size ==> (#[trigger] self.powers_of_g@[i])@ == punctured_power(
                x,
                batch_size,
                i,
            )
        &&& forall|i: int|
            0 <= i <= 2 * batch_size ==> (#[trigger] self.powers_of_h@[i])@ == punctured_power(
                x,
                batch_size,
                i,
            )
        &&& self.gt_nplus1@ == pow(x, (batch_size + 1) as nat) % modulus()
        &&& forall|i: int|
            0 <= i < batch_size ==> (#[trigger] self.gt_powers@[i])@ == pow(
                x,
                (batch_size + 1 + i) as nat,
            ) % modulus()
    }

    /// The size of the convolution is that of a domain, with room for all lags.
    pub proof fn lemma_fft_size(&self)
        requires
            self.wf(),
        ensures
            is_domain_size(self.fft_size as int),
            2 * self.batch_size <= self.fft_size,
    {
        lemma_doubled_to(1, 2 * self.batch_size as int);
    }

    /// Draws a secret and generates the reference string from it.
    pub fn new(batch_size: usize, rng: &mut StdRng) -> (res: CRS)
        requires
            1 <= batch_size,
            convolution_length(batch_size as int) <= max_domain_size(),
            convolution_length(batch_size as int) < usize::MAX,
        ensures
            exists|x: Scalar| #[trigger]
                is_draw(*old(rng), *final(rng), x) && res.is_generated(batch_size as int, x@),
    {
        let x = Scalar::random(rng);
        CRS::from_secret(batch_size, &x)
    }

    /// Generates the reference string from a secret.
    pub fn from_secret(batch_size: usize, x: &Scalar) -> (res: CRS)
        requires
            1 <= batch_size,
            convolution_length(batch_size as int) <= max_domain_size(),
            convolution_length(batch_size as int) < usize::MAX,
        ensures
            res.is_generated(batch_size as int, x@),
    {
        proof {
            lemma_doubled_to(1, 2 * batch_size as int);
        }
        let powers_of_x = secret_powers(batch_size, x);
        let powers_of_g = g1_generator_multiples(&powers_of_x);
        let powers_of_h = g2_generator_multiples(&powers_of_x);
        let gt_nplus1 = pairing(&powers_of_g[batch_size], &powers_of_h[1]);
        proof {
            lemma_power_product(x@, batch_size as nat, 1);
            lemma_pow1(x@);
        }

        let mut gt_powers: Vec<Gt> = Vec::new();
        gt_powers.push(gt_nplus1);
        let mut i: usize = 1;
        while i < batch_size
            invariant
                1 <= i <= batch_size,
                2 * batch_size < usize::MAX,
                gt_powers@.len() == i,
                powers_of_g@.len() == 2 * batch_size + 1,
                powers_of_h@.len() == 2 * batch_size + 1,
                forall|k: int|
                    0 <= k <= 2 * batch_size ==> (#[trigger] powers_of_g@[k])@ == punctured_power(
                        x@,
                        batch_size as int,
                        k,
                    ),
                powers_of_h@[0]@ == punctured_power(x@, batch_size as int, 0),
                forall|k: int|
                    0 <= k < i ==> (#[trigger] gt_powers@[k])@ == pow(
                        x@,
                        (batch_size + 1 + k) as nat,
                    ) % modulus(),
            decreases batch_size - i,
        {
            let value = pairing(&powers_of_g[batch_size + 1 + i], &powers_of_h[0]);
            proof {
                lemma_power_product(x@, (batch_size + 1 + i) as nat, 0);
            }
            gt_powers.push(value);
            i += 1;
        }

        let fft_size: usize = next_power_of_two_from(2 * batch_size);
        let b_vec = lag_vector(&powers_of_h, batch_size, fft_size);
        assert(b_vec@.len() == vals(b_vec@).len());
        let fft_h = g2_fft(&b_vec, fft_size);
        CRS { powers_of_g, powers_of_h, gt_nplus1, batch_size, fft_size, fft_h, gt_powers }
    }
}

/// The product of two reduced powers is the reduced power of the sum.
proof fn lemma_power_product(x: int, i: nat, j: nat)
    ensures
        ((pow(x, i) % modulus()) * (pow(x, j) % modulus())) % modulus() == pow(x, i + j)
            % modulus(),
{
    lemma_eqm_mod(pow(x, i));
    lemma_eqm_mod(pow(x, j));
    lemma_eqm_mul(pow(x, i) % modulus(), pow(x, i), pow(x, j) % modulus(), pow(x, j));
    lemma_pow_adds(x, i, j);
}

/// The exponents of the reference string.
fn secret_powers(batch_size: usize, x: &Scalar) -> (res: Vec<Scalar>)
    requires
        1 <= batch_size,
        2 * batch_size < usize::MAX,
    ensures
        res@.len() == 2 * batch_size + 1,
        forall|i: int|
            0 <= i <= 2 * batch_size ==> (#[trigger] res@[i])@ == punctured_power(
                x@,
                batch_size as int,
                i,
            ),
{
    let mut powers: Vec<Scalar> = Vec::new();
    let mut cur = Scalar::one();
    let mut i: usize = 0;
    proof {
        crate::field::lemma_scalar_range(cur);
        lemma_pow0(x@);
        lemma_reduced(1);
    }
    while i < 2 * batch_size + 1
        invariant
            0 <= i <= 2 * batch_size + 1,
            2 * batch_size < usize::MAX,
            powers@.len() == i,
            cur@ == pow(x@, i as nat) % modulus(),
            forall|k: int|
                0 <= k < i ==> (#[trigger] powers@[k])@ == pow(x@, k as nat) % modulus(),
        decreases 2 * batch_size + 1 - i,
    {
        powers.push(cur);
        proof {
            lemma_eqm_mod(pow(x@, i as nat));
            lemma_power_step(x@, cur@, i as nat);
        }
        cur = cur.mul(x);
        i += 1;
    }
    powers.set(batch_size + 1, Scalar::zero());
    powers
}

/// The lags of the powers in the second group.
fn lag_vector(powers_of_h: &Vec<G2>, batch_size: usize, fft_size: usize) -> (res: Vec<G2>)
    requires
        1 <= batch_size,
        2 * batch_size < usize::MAX,
        2 * batch_size <= fft_size,
        powers_of_h@.len() == 2 * batch_size + 1,
    ensures
        vals(res@) == lags(vals(powers_of_h@), batch_size as int, fft_size as int),
{
    let mut b_vec: Vec<G2> = Vec::new();
    let mut k: usize = 0;
    while k < fft_size
        invariant
            0 <= k <= fft_size,
            1 <= batch_size,
            2 * batch_size < usize::MAX,
            2 * batch_size <= fft_size,
            powers_of_h@.len() == 2 * batch_size + 1,
            b_vec@.len() == k,
            forall|i: int|
                0 <= i < k ==> (#[trigger] b_vec@[i])@ == lags(
                    vals(powers_of_h@),
                    batch_size as int,
                    fft_size as int,
                )[i],
        decreases fft_size - k,
    {
        let ghost h = vals(powers_of_h@);
        if k < batch_size {
            assert(h[batch_size + 1 + k] == powers_of_h@[batch_size + 1 + k]@);
            b_vec.push(powers_of_h[batch_size + 1 + k]);
        } else if k > fft_size - batch_size {
            assert(h[batch_size + 1 + k - fft_size] == powers_of_h@[batch_size + 1 + k
                - fft_size]@);
            b_vec.push(powers_of_h[batch_size + 1 - (fft_size - k)]);
        } else {
            b_vec.push(G2::zero());
        }
        k += 1;
    }
    assert(vals(b_vec@) =~= lags(vals(powers_of_h@), batch_size as int, fft_size as int));
    b_vec
}

} // verus!
