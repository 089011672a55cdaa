//! Encryption under an aggregate key.
use crate::algebra::congruence::{eqm, lemma_eqm_add, lemma_eqm_mod, lemma_eqm_mul, modulus};
use crate::field::{are_draws, random_five, vals, Scalar};
use crate::group::{G1, G2, Gt};
use crate::ste::aggregate::EncryptionKey;
use crate::ste::crs::CRS;
use crate::transcript::{append_encoding, Encode};
use ark_std::rand::rngs::StdRng;
use vstd::prelude::*;

verus! {

/// A ciphertext that at least `t` parties can decrypt together.
#[derive(Clone, Debug)]
pub struct Ciphertext {
    pub sa1: [G1; 2],
    pub sa2: [G2; 6],
    /// The masked messages, one for each slot.
    pub ct: Vec<Gt>,
    pub t: usize,
}

/// The random scalars of an encryption.
#[derive(Clone, Copy, Debug)]
pub struct EncryptionRandomness {
    pub s: [Scalar; 5],
}

/// What encryption reads of the reference string and the key is there.
pub open spec fn can_encrypt(crs: &CRS, ek: &EncryptionKey, t: int, slots: int) -> bool {
    &&& 1 <= crs.powers_of_g@.len()
    &&& 1 <= crs.powers_of_g@[0]@.len()
    &&& 0 <= t < crs.powers_of_g@[0]@.len()
    &&& 1 <= crs.powers_of_h@.len()
    &&& 3 <= crs.powers_of_h@[0]@.len()
    &&& 1 <= ek.gamma_g2@.len()
    &&& slots <= ek.e_gh@.len()
}

/// The parts of a ciphertext in the first group.
pub open spec fn sa1_value(crs: &CRS, ek: &EncryptionKey, t: int, s: Seq<int>, i: int) -> int {
    let g = crs.powers_of_g@[0]@;
    if i == 0 {
        ek.ask@ * s[0] + g[t]@ * s[3] + g[0]@ * s[4]
    } else {
        g[0]@ * s[2]
    }
}

/// The parts of a ciphertext in the second group.
pub open spec fn sa2_value(crs: &CRS, ek: &EncryptionKey, s: Seq<int>, i: int) -> int {
    let h = crs.powers_of_h@[0]@;
    if i == 0 {
        h[0]@ * s[0] + ek.gamma_g2@[0]@ * s[2]
    } else if i == 1 {
        ek.z_g2@ * s[0]
    } else if i == 2 {
        h[1]@ * s[0] + h[2]@ * s[1]
    } else if i == 3 {
        h[0]@ * s[1]
    } else if i == 4 {
        h[0]@ * s[3]
    } else {
        h[1]@ * s[4]
    }
}

/// The masked message of a slot.
pub open spec fn ct_value(ek: &EncryptionKey, s: Seq<int>, message: int, k: int) -> int {
    ek.e_gh@[k]@ * s[4] + message
}

/// Whether these are the parts of the encryption of the messages with the given randomness.
pub open spec fn are_parts(
    crs: &CRS,
    ek: &EncryptionKey,
    t: int,
    messages: Seq<int>,
    s: Seq<int>,
    sa1: Seq<int>,
    sa2: Seq<int>,
    ct: Seq<int>,
) -> bool {
    &&& sa1.len() == 2
    &&& sa2.len() == 6
    &&& ct.len() == messages.len()
    &&& forall|i: int| 0 <= i < 2 ==> eqm(#[trigger] sa1[i], sa1_value(crs, ek, t, s, i))
    &&& forall|i: int| 0 <= i < 6 ==> eqm(#[trigger] sa2[i], sa2_value(crs, ek, s, i))
    &&& forall|k: int|
        0 <= k < messages.len() ==> eqm(#[trigger] ct[k], ct_value(ek, s, messages[k], k))
}

impl Ciphertext {
    /// Whether this is the encryption of the messages with the given randomness.
    pub open spec fn is_encryption(
        &self,
        crs: &CRS,
        ek: &EncryptionKey,
        t: int,
        messages: Seq<int>,
        s: Seq<int>,
    ) -> bool {
        &&& self.t == t
        &&& are_parts(
            crs,
            ek,
            t,
            messages,
            s,
            vals(self.sa1@),
            vals(self.sa2@),
            vals(self.ct@),
        )
    }

    /// The ciphertext whose parts are all zero.
    pub fn zero(l: usize, t: usize) -> (res: Ciphertext)
        ensures
            res.t == t,
            vals(res.sa1@) == Seq::new(2, |i: int| 0int),
            vals(res.sa2@) == Seq::new(6, |i: int| 0int),
            vals(res.ct@) == Seq::new(l as nat, |i: int| 0int),
    {
        let g = G1::zero();
        let h = G2::zero();
        let mut ct: Vec<Gt> = Vec::new();
        let mut i: usize = 0;
        while i < l
            invariant
                0 <= i <= l,
                ct@.len() == i,
                forall|k: int| 0 <= k < i ==> (#[trigger] ct@[k])@ == 0,
            decreases l - i,
        {
            ct.push(Gt::zero());
            i += 1;
        }
        let res = Ciphertext { sa1: [g, g], sa2: [h, h, h, h, h, h], ct, t };
        assert(vals(res.sa1@) =~= Seq::new(2, |i: int| 0int));
        assert(vals(res.sa2@) =~= Seq::new(6, |i: int| 0int));
        assert(vals(res.ct@) =~= Seq::new(l as nat, |i: int| 0int));
        res
    }

    /// The sum of two ciphertexts for the same threshold and slots, part by part.
    pub fn add(&self, other: &Ciphertext) -> (res: Ciphertext)
        requires
            self.t == other.t,
            self.ct@.len() == other.ct@.len(),
        ensures
            res.t == self.t,
            vals(res.sa1@) == sums(vals(self.sa1@), vals(other.sa1@)),
            vals(res.sa2@) == sums(vals(self.sa2@), vals(other.sa2@)),
            vals(res.ct@) == sums(vals(self.ct@), vals(other.ct@)),
    {
        let sa1 = [self.sa1[0].add(&other.sa1[0]), self.sa1[1].add(&other.sa1[1])];
        let sa2 = [
            self.sa2[0].add(&other.sa2[0]),
            self.sa2[1].add(&other.sa2[1]),
            self.sa2[2].add(&other.sa2[2]),
            self.sa2[3].add(&other.sa2[3]),
            self.sa2[4].add(&other.sa2[4]),
            self.sa2[5].add(&other.sa2[5]),
        ];
        let mut ct: Vec<Gt> = Vec::new();
        let mut i: usize = 0;
        while i < self.ct.len()
            invariant
                0 <= i <= self.ct@.len(),
                self.ct@.len() == other.ct@.len(),
                ct@.len() == i,
                forall|k: int|
                    0 <= k < i ==> (#[trigger] ct@[k])@ == (self.ct@[k]@ + other.ct@[k]@)
                        % modulus(),
            decreases self.ct@.len() - i,
        {
            ct.push(self.ct[i].add(&other.ct[i]));
            i += 1;
        }
        let res = Ciphertext { sa1, sa2, ct, t: self.t };
        assert(vals(res.sa1@) =~= sums(vals(self.sa1@), vals(other.sa1@)));
        assert(vals(res.sa2@) =~= sums(vals(self.sa2@), vals(other.sa2@)));
        assert(vals(res.ct@) =~= sums(vals(self.ct@), vals(other.ct@)));
        res
    }
}

/// The sums of the values of two lists, place by place.
pub open spec fn sums(a: Seq<int>, b: Seq<int>) -> Seq<int> {
    Seq::new(a.len(), |i: int| (a[i] + b[i]) % modulus())
}

/// The parts of the encryption of messages with given randomness.
pub fn encryption_parts(
    crs: &CRS,
    ek: &EncryptionKey,
    t: usize,
    messages: &Vec<Gt>,
    s: &[Scalar; 5],
) -> (res: ([G1; 2], [G2; 6], Vec<Gt>))
    requires
        can_encrypt(crs, ek, t as int, messages@.len() as int),
    ensures
        are_parts(
            crs,
            ek,
            t as int,
            vals(messages@),
            vals(s@),
            vals(res.0@),
            vals(res.1@),
            vals(res.2@),
        ),
{
    let g = &crs.powers_of_g[0];
    let h = &crs.powers_of_h[0];
    let sa1 = [
        ek.ask.mul(&s[0]).add(&g[t].mul(&s[3])).add(&g[0].mul(&s[4])),
        g[0].mul(&s[2]),
    ];
    let sa2 = [
        h[0].mul(&s[0]).add(&ek.gamma_g2[0].mul(&s[2])),
        ek.z_g2.mul(&s[0]),
        h[1].mul(&s[0]).add(&h[2].mul(&s[1])),
        h[0].mul(&s[1]),
        h[0].mul(&s[3]),
        h[1].mul(&s[4]),
    ];
    let mut ct: Vec<Gt> = Vec::new();
    let mut k: usize = 0;
    while k < messages.len()
        invariant
            0 <= k <= messages@.len(),
            messages@.len() <= ek.e_gh@.len(),
            ct@.len() == k,
            forall|i: int|
                0 <= i < k ==> eqm(
                    (#[trigger] ct@[i])@,
                    ct_value(ek, vals(s@), messages@[i]@, i),
                ),
        decreases messages@.len() - k,
    {
        let mask = ek.e_gh[k].mul(&s[4]);
        let c = mask.add(&messages[k]);
        proof {
            let m = messages@[k as int]@;
            lemma_eqm_mod(ek.e_gh@[k as int]@ * s@[4]@);
            lemma_eqm_add(mask@, ek.e_gh@[k as int]@ * s@[4]@, m, m);
            lemma_eqm_mod(mask@ + m);
        }
        ct.push(c);
        k += 1;
    }
    proof {
        let v = vals(s@);
        assert(v[0] == s@[0]@ && v[1] == s@[1]@ && v[2] == s@[2]@ && v[3] == s@[3]@ && v[4]
            == s@[4]@);
        let p = vals(sa1@);
        lemma_three_terms(
            ek.ask@ * v[0],
            g@[t as int]@ * v[3],
            g@[0]@ * v[4],
        );
        assert(eqm(p[0], sa1_value(crs, ek, t as int, v, 0)));
        lemma_eqm_mod(g@[0]@ * v[2]);
        assert(eqm(p[1], sa1_value(crs, ek, t as int, v, 1)));
        let q = vals(sa2@);
        lemma_two_terms(h@[0]@ * v[0], ek.gamma_g2@[0]@ * v[2]);
        assert(eqm(q[0], sa2_value(crs, ek, v, 0)));
        lemma_eqm_mod(ek.z_g2@ * v[0]);
        assert(eqm(q[1], sa2_value(crs, ek, v, 1)));
        lemma_two_terms(h@[1]@ * v[0], h@[2]@ * v[1]);
        assert(eqm(q[2], sa2_value(crs, ek, v, 2)));
        lemma_eqm_mod(h@[0]@ * v[1]);
        assert(eqm(q[3], sa2_value(crs, ek, v, 3)));
        lemma_eqm_mod(h@[0]@ * v[3]);
        assert(eqm(q[4], sa2_value(crs, ek, v, 4)));
        lemma_eqm_mod(h@[1]@ * v[4]);
        assert(eqm(q[5], sa2_value(crs, ek, v, 5)));
        let c = vals(ct@);
        assert forall|i: int| 0 <= i < messages@.len() implies eqm(
            #[trigger] c[i],
            ct_value(ek, v, vals(messages@)[i], i),
        ) by {
            assert(c[i] == ct@[i]@);
            assert(vals(messages@)[i] == messages@[i]@);
        }
    }
    (sa1, sa2, ct)
}

proof fn lemma_two_terms(a: int, b: int)
    ensures
        eqm((a % modulus() + b % modulus()) % modulus(), a + b),
{
    lemma_eqm_mod(a);
    lemma_eqm_mod(b);
    lemma_eqm_add(a % modulus(), a, b % modulus(), b);
    lemma_eqm_mod(a % modulus() + b % modulus());
}

proof fn lemma_three_terms(a: int, b: int, c: int)
    ensures
        eqm(
            ((a % modulus() + b % modulus()) % modulus() + c % modulus()) % modulus(),
            a + b + c,
        ),
{
    lemma_two_terms(a, b);
    let d = (a % modulus() + b % modulus()) % modulus();
    lemma_eqm_mod(c);
    lemma_eqm_add(d, a + b, c % modulus(), c);
    lemma_eqm_mod(d + c % modulus());
}

/// Encrypts with given randomness.
pub fn encrypt_with_randomness(
    ek: &EncryptionKey,
    t: usize,
    crs: &CRS,
    messages: &Vec<Gt>,
    randomness: &EncryptionRandomness,
) -> (res: Ciphertext)
    requires
        can_encrypt(crs, ek, t as int, messages@.len() as int),
    ensures
        res.is_encryption(crs, ek, t as int, vals(messages@), vals(randomness.s@)),
{
    let (sa1, sa2, ct) = encryption_parts(crs, ek, t, messages, &randomness.s);
    Ciphertext { sa1, sa2, ct, t }
}

/// Encrypts, and returns the randomness as well.
pub fn encrypt_with_witness(
    ek: &EncryptionKey,
    t: usize,
    crs: &CRS,
    messages: &Vec<Gt>,
    rng: &mut StdRng,
) -> (res: (Ciphertext, EncryptionRandomness))
    requires
        can_encrypt(crs, ek, t as int, messages@.len() as int),
    ensures
        res.0.is_encryption(crs, ek, t as int, vals(messages@), vals(res.1.s@)),
        are_draws(*old(rng), *final(rng), res.1.s@),
{
    let s = random_five(rng);
    let randomness = EncryptionRandomness { s };
    (encrypt_with_randomness(ek, t, crs, messages, &randomness), randomness)
}

/// Encrypts one message for each slot.
pub fn encrypt(
    ek: &EncryptionKey,
    t: usize,
    crs: &CRS,
    messages: &Vec<Gt>,
    rng: &mut StdRng,
) -> (res: Ciphertext)
    requires
        can_encrypt(crs, ek, t as int, messages@.len() as int),
    ensures
        exists|s: Seq<Scalar>|
            s.len() == 5 && #[trigger] are_draws(*old(rng), *final(rng), s) && res.is_encryption(
                crs,
                ek,
                t as int,
                vals(messages@),
                vals(s),
            ),
{
    let (ciphertext, randomness) = encrypt_with_witness(ek, t, crs, messages, rng);
    assert(randomness.s@.len() == 5);
    ciphertext
}

/// The sum of two encryptions is the encryption of the sums, with the sum of the randomness.
pub proof fn lemma_encryption_homomorphic(
    crs: &CRS,
    ek: &EncryptionKey,
    a: &Ciphertext,
    b: &Ciphertext,
    sum: &Ciphertext,
    t: int,
    ma: Seq<int>,
    mb: Seq<int>,
    sa: Seq<int>,
    sb: Seq<int>,
)
    requires
        a.is_encryption(crs, ek, t, ma, sa),
        b.is_encryption(crs, ek, t, mb, sb),
        ma.len() == mb.len(),
        sa.len() == 5,
        sb.len() == 5,
        sum.t == t,
        vals(sum.sa1@) == sums(vals(a.sa1@), vals(b.sa1@)),
        vals(sum.sa2@) == sums(vals(a.sa2@), vals(b.sa2@)),
        vals(sum.ct@) == sums(vals(a.ct@), vals(b.ct@)),
    ensures
        sum.is_encryption(crs, ek, t, sums(ma, mb), sums(sa, sb)),
{
    let m = sums(ma, mb);
    let s = sums(sa, sb);
    let p = vals(sum.sa1@);
    let q = vals(sum.sa2@);
    let c = vals(sum.ct@);
    assert forall|i: int| 0 <= i < 2 implies eqm(
        #[trigger] p[i],
        sa1_value(crs, ek, t, s, i),
    ) by {
        let x = vals(a.sa1@)[i];
        let y = vals(b.sa1@)[i];
        assert(eqm(x, sa1_value(crs, ek, t, sa, i)));
        assert(eqm(y, sa1_value(crs, ek, t, sb, i)));
        lemma_eqm_add(x, sa1_value(crs, ek, t, sa, i), y, sa1_value(crs, ek, t, sb, i));
        lemma_eqm_mod(x + y);
        let g = crs.powers_of_g@[0]@;
        if i == 0 {
            lemma_linear(ek.ask@, sa[0], sb[0]);
            lemma_linear(g[t]@, sa[3], sb[3]);
            lemma_linear(g[0]@, sa[4], sb[4]);
            lemma_eqm_add(
                ek.ask@ * s[0],
                ek.ask@ * sa[0] + ek.ask@ * sb[0],
                g[t]@ * s[3],
                g[t]@ * sa[3] + g[t]@ * sb[3],
            );
            lemma_eqm_add(
                ek.ask@ * s[0] + g[t]@ * s[3],
                ek.ask@ * sa[0] + ek.ask@ * sb[0] + (g[t]@ * sa[3] + g[t]@ * sb[3]),
                g[0]@ * s[4],
                g[0]@ * sa[4] + g[0]@ * sb[4],
            );
        } else {
            lemma_linear(g[0]@, sa[2], sb[2]);
        }
    }
    assert forall|i: int| 0 <= i < 6 implies eqm(#[trigger] q[i], sa2_value(crs, ek, s, i)) by {
        let x = vals(a.sa2@)[i];
        let y = vals(b.sa2@)[i];
        assert(eqm(x, sa2_value(crs, ek, sa, i)));
        assert(eqm(y, sa2_value(crs, ek, sb, i)));
        lemma_eqm_add(x, sa2_value(crs, ek, sa, i), y, sa2_value(crs, ek, sb, i));
        lemma_eqm_mod(x + y);
        let h = crs.powers_of_h@[0]@;
        let gamma = ek.gamma_g2@[0]@;
        if i == 0 {
            lemma_linear(h[0]@, sa[0], sb[0]);
            lemma_linear(gamma, sa[2], sb[2]);
            lemma_eqm_add(
                h[0]@ * s[0],
                h[0]@ * sa[0] + h[0]@ * sb[0],
                gamma * s[2],
                gamma * sa[2] + gamma * sb[2],
            );
        } else if i == 1 {
            lemma_linear(ek.z_g2@, sa[0], sb[0]);
        } else if i == 2 {
            lemma_linear(h[1]@, sa[0], sb[0]);
            lemma_linear(h[2]@, sa[1], sb[1]);
            lemma_eqm_add(
                h[1]@ * s[0],
                h[1]@ * sa[0] + h[1]@ * sb[0],
                h[2]@ * s[1],
                h[2]@ * sa[1] + h[2]@ * sb[1],
            );
        } else if i == 3 {
            lemma_linear(h[0]@, sa[1], sb[1]);
        } else if i == 4 {
            lemma_linear(h[0]@, sa[3], sb[3]);
        } else {
            lemma_linear(h[1]@, sa[4], sb[4]);
        }
    }
    assert forall|k: int| 0 <= k < m.len() implies eqm(
        #[trigger] c[k],
        ct_value(ek, s, m[k], k),
    ) by {
        let x = vals(a.ct@)[k];
        let y = vals(b.ct@)[k];
        assert(eqm(x, ct_value(ek, sa, ma[k], k)));
        assert(eqm(y, ct_value(ek, sb, mb[k], k)));
        lemma_eqm_add(x, ct_value(ek, sa, ma[k], k), y, ct_value(ek, sb, mb[k], k));
        lemma_eqm_mod(x + y);
        let e = ek.e_gh@[k]@;
        lemma_linear(e, sa[4], sb[4]);
        lemma_eqm_mod(ma[k] + mb[k]);
        lemma_eqm_add(e * s[4], e * sa[4] + e * sb[4], m[k], ma[k] + mb[k]);
    }
}

proof fn lemma_linear(x: int, a: int, b: int)
    ensures
        eqm(x * ((a + b) % modulus()), x * a + x * b),
{
    lemma_eqm_mod(a + b);
    lemma_eqm_mul(x, x, (a + b) % modulus(), a + b);
    assert(x * (a + b) == x * a + x * b) by (nonlinear_arith);
}

/// The ciphertext of zeros is the encryption of zeros, with randomness zero.
pub proof fn lemma_zero_is_encryption(crs: &CRS, ek: &EncryptionKey, c: &Ciphertext, l: nat, t: int)
    requires
        c.t == t,
        vals(c.sa1@) == Seq::new(2, |i: int| 0int),
        vals(c.sa2@) == Seq::new(6, |i: int| 0int),
        vals(c.ct@) == Seq::new(l, |i: int| 0int),
    ensures
        c.is_encryption(crs, ek, t, Seq::new(l, |i: int| 0int), Seq::new(5, |i: int| 0int)),
{
    let s = Seq::new(5, |i: int| 0int);
    let m = Seq::new(l, |i: int| 0int);
    let g = crs.powers_of_g@[0]@;
    let h = crs.powers_of_h@[0]@;
    assert forall|i: int| 0 <= i < 2 implies eqm(
        #[trigger] vals(c.sa1@)[i],
        sa1_value(crs, ek, t, s, i),
    ) by {
        lemma_times_zero(ek.ask@, s[0]);
        lemma_times_zero(g[t]@, s[3]);
        lemma_times_zero(g[0]@, s[4]);
        lemma_times_zero(g[0]@, s[2]);
    }
    assert forall|i: int| 0 <= i < 6 implies eqm(
        #[trigger] vals(c.sa2@)[i],
        sa2_value(crs, ek, s, i),
    ) by {
        lemma_times_zero(h[0]@, s[0]);
        lemma_times_zero(ek.gamma_g2@[0]@, s[2]);
        lemma_times_zero(ek.z_g2@, s[0]);
        lemma_times_zero(h[1]@, s[0]);
        lemma_times_zero(h[2]@, s[1]);
        lemma_times_zero(h[0]@, s[1]);
        lemma_times_zero(h[0]@, s[3]);
        lemma_times_zero(h[1]@, s[4]);
    }
    assert forall|k: int| 0 <= k < l implies eqm(
        #[trigger] vals(c.ct@)[k],
        ct_value(ek, s, m[k], k),
    ) by {
        lemma_times_zero(ek.e_gh@[k]@, s[4]);
    }
}

proof fn lemma_times_zero(x: int, z: int)
    requires
        z == 0,
    ensures
        x * z == 0,
{
}

impl Encode for Ciphertext {
    open spec fn encoding(&self) -> Seq<u8> {
        self.sa1.encoding() + self.sa2.encoding() + self.ct.encoding() + self.t.encoding()
    }

    fn encode(&self) -> (res: Vec<u8>) {
        let mut res = self.sa1.encode();
        append_encoding(&mut res, &self.sa2);
        append_encoding(&mut res, &self.ct);
        append_encoding(&mut res, &self.t);
        res
    }
}

} // verus!
