//! Aggregation of the parties' keys.
use crate::algebra::congruence::{eqm, lemma_eqm_add, lemma_eqm_mod, modulus};
use crate::algebra::sums::sum;
use crate::group::{pairing, G1, G2, Gt};
use crate::ste::crs::CRS;
use crate::ste::setup::LagPublicKey;
use crate::transcript::{append_encoding, Encode};
use vstd::prelude::*;

verus! {

/// What it takes to encrypt under the aggregate of the keys.
#[derive(Clone, Debug)]
pub struct EncryptionKey {
    /// The sum of the secret keys, each times its basis polynomial at the secret.
    pub ask: G1,
    /// `X^n - 1` at the secret.
    pub z_g2: G2,
    /// The pairing of the base of each slot with that of the first.
    pub e_gh: Vec<Gt>,
    pub gamma_g2: Vec<G2>,
}

/// What it takes to decrypt, besides partial decryptions.
#[derive(Clone)]
pub struct AggregateKey {
    /// The keys of the parties, in the order of their positions.
    pub pk: Vec<LagPublicKey>,
    /// For each slot and each basis polynomial, the sum of the parties' hints on cross products.
    pub agg_sk_li_lj_z: Vec<Vec<G1>>,
}

/// The parties' first hints, in the first slot.
pub open spec fn key_terms(pk: Seq<LagPublicKey>) -> spec_fn(int) -> int {
    |i: int| pk[i].sk_li@[0]@
}

/// The parties' hints on the cross products with the basis polynomial `j`, in slot `k`.
pub open spec fn cross_terms(pk: Seq<LagPublicKey>, k: int, j: int) -> spec_fn(int) -> int {
    |i: int| pk[i].sk_li_lj_z@[k]@[j]@
}

impl EncryptionKey {
    /// Whether this is the encryption key for the given keys of the parties.
    pub open spec fn is_aggregate(&self, pk: Seq<LagPublicKey>, crs: &CRS) -> bool {
        &&& eqm(self.ask@, sum(pk.len() as int, key_terms(pk)))
        &&& eqm(
            self.z_g2@,
            crs.powers_of_h@[0]@[crs.n as int]@ - crs.powers_of_h@[0]@[0]@,
        )
        &&& self.e_gh@.len() == crs.l
        &&& forall|k: int|
            0 <= k < crs.l ==> (#[trigger] self.e_gh@[k])@ == (crs.gen_g@[k]@
                * crs.powers_of_h@[0]@[0]@) % modulus()
        &&& self.gamma_g2@ == crs.gamma_g2@
    }
}

/// Whether a row holds the sums of the parties' hints for a slot.
pub open spec fn is_cross_sum_row(row: Seq<G1>, pk: Seq<LagPublicKey>, k: int) -> bool {
    forall|j: int|
        0 <= j < row.len() ==> eqm((#[trigger] row[j])@, sum(pk.len() as int, cross_terms(pk, k, j)))
}

impl AggregateKey {
    /// The shape of the key.
    pub open spec fn wf(&self, n: int, l: int) -> bool {
        &&& self.pk@.len() == n
        &&& forall|i: int| 0 <= i < n ==> (#[trigger] self.pk@[i]).wf(n, l)
        &&& self.agg_sk_li_lj_z@.len() == l
        &&& forall|k: int| 0 <= k < l ==> (#[trigger] self.agg_sk_li_lj_z@[k])@.len() == n
    }

    /// Whether this is the decryption key for the given keys of the parties.
    pub open spec fn is_aggregate(&self, pk: Seq<LagPublicKey>, crs: &CRS) -> bool {
        &&& self.wf(crs.n as int, crs.l as int)
        &&& self.pk@ == pk
        &&& forall|k: int|
            0 <= k < crs.l ==> is_cross_sum_row((#[trigger] self.agg_sk_li_lj_z@[k])@, pk, k)
    }

    /// Aggregates the keys of all parties, in the order of their positions.
    pub fn new(pk: Vec<LagPublicKey>, crs: &CRS) -> (res: (AggregateKey, EncryptionKey))
        requires
            crs.wf(),
            pk@.len() == crs.n,
            forall|i: int|
                0 <= i < pk@.len() ==> (#[trigger] pk@[i]).wf(crs.n as int, crs.l as int),
        ensures
            res.0.is_aggregate(pk@, crs),
            res.1.is_aggregate(pk@, crs),
    {
        let ask = sum_of_keys(&pk, crs);
        assert(crs.slot_wf(0));
        let z_g2 = crs.powers_of_h[0][crs.n].sub(&crs.powers_of_h[0][0]);
        proof {
            lemma_eqm_mod(crs.powers_of_h@[0]@[crs.n as int]@ - crs.powers_of_h@[0]@[0]@);
        }
        let mut e_gh: Vec<Gt> = Vec::new();
        let mut agg_sk_li_lj_z: Vec<Vec<G1>> = Vec::new();
        let mut gamma_g2: Vec<G2> = Vec::new();
        let mut k: usize = 0;
        while k < crs.l
            invariant
                0 <= k <= crs.l,
                crs.wf(),
                crs.slot_wf(0),
                pk@.len() == crs.n,
                forall|i: int|
                    0 <= i < pk@.len() ==> (#[trigger] pk@[i]).wf(crs.n as int, crs.l as int),
                e_gh@.len() == k,
                gamma_g2@ == crs.gamma_g2@.subrange(0, k as int),
                agg_sk_li_lj_z@.len() == k,
                forall|i: int|
                    0 <= i < k ==> (#[trigger] e_gh@[i])@ == (crs.gen_g@[i]@
                        * crs.powers_of_h@[0]@[0]@) % modulus(),
                forall|i: int|
                    0 <= i < k ==> (#[trigger] agg_sk_li_lj_z@[i])@.len() == crs.n
                        && is_cross_sum_row(agg_sk_li_lj_z@[i]@, pk@, i),
            decreases crs.l - k,
        {
            e_gh.push(pairing(&crs.gen_g[k], &crs.powers_of_h[0][0]));
            gamma_g2.push(crs.gamma_g2[k]);
            let row = sum_of_cross_hints(&pk, crs, k);
            agg_sk_li_lj_z.push(row);
            k += 1;
        }
        assert(gamma_g2@ =~= crs.gamma_g2@);
        (AggregateKey { pk, agg_sk_li_lj_z }, EncryptionKey { ask, z_g2, e_gh, gamma_g2 })
    }
}

fn sum_of_keys(pk: &Vec<LagPublicKey>, crs: &CRS) -> (res: G1)
    requires
        crs.wf(),
        forall|i: int| 0 <= i < pk@.len() ==> (#[trigger] pk@[i]).wf(crs.n as int, crs.l as int),
    ensures
        eqm(res@, sum(pk@.len() as int, key_terms(pk@))),
{
    let mut res = G1::zero();
    let ghost f = key_terms(pk@);
    let mut i: usize = 0;
    while i < pk.len()
        invariant
            0 <= i <= pk@.len(),
            1 <= crs.l,
            f == key_terms(pk@),
            forall|j: int|
                0 <= j < pk@.len() ==> (#[trigger] pk@[j]).wf(crs.n as int, crs.l as int),
            eqm(res@, sum(i as int, f)),
        decreases pk@.len() - i,
    {
        assert(pk@[i as int].wf(crs.n as int, crs.l as int));
        let term = pk[i].sk_li[0];
        proof {
            assert(f(i as int) == term@);
            lemma_eqm_add(res@, sum(i as int, f), term@, f(i as int));
            lemma_eqm_mod(res@ + term@);
        }
        res = res.add(&term);
        i += 1;
    }
    res
}

fn sum_of_cross_hints(pk: &Vec<LagPublicKey>, crs: &CRS, k: usize) -> (row: Vec<G1>)
    requires
        crs.wf(),
        k < crs.l,
        forall|i: int| 0 <= i < pk@.len() ==> (#[trigger] pk@[i]).wf(crs.n as int, crs.l as int),
    ensures
        row@.len() == crs.n,
        is_cross_sum_row(row@, pk@, k as int),
{
    let mut row: Vec<G1> = Vec::new();
    let mut j: usize = 0;
    while j < crs.n
        invariant
            0 <= j <= crs.n,
            k < crs.l,
            forall|i: int|
                0 <= i < pk@.len() ==> (#[trigger] pk@[i]).wf(crs.n as int, crs.l as int),
            row@.len() == j,
            is_cross_sum_row(row@, pk@, k as int),
        decreases crs.n - j,
    {
        let mut total = G1::zero();
        let ghost f = cross_terms(pk@, k as int, j as int);
        let mut i: usize = 0;
        while i < pk.len()
            invariant
                0 <= i <= pk@.len(),
                k < crs.l,
                j < crs.n,
                f == cross_terms(pk@, k as int, j as int),
                forall|m: int|
                    0 <= m < pk@.len() ==> (#[trigger] pk@[m]).wf(crs.n as int, crs.l as int),
                eqm(total@, sum(i as int, f)),
            decreases pk@.len() - i,
        {
            assert(pk@[i as int].wf(crs.n as int, crs.l as int));
            assert(pk@[i as int].sk_li_lj_z@[k as int]@.len() == crs.n);
            let term = pk[i].sk_li_lj_z[k][j];
            proof {
                assert(f(i as int) == term@);
                lemma_eqm_add(total@, sum(i as int, f), term@, f(i as int));
                lemma_eqm_mod(total@ + term@);
            }
            total = total.add(&term);
            i += 1;
        }
        row.push(total);
        j += 1;
    }
    row
}

impl Encode for EncryptionKey {
    open spec fn encoding(&self) -> Seq<u8> {
        self.ask.encoding() + self.z_g2.encoding() + self.e_gh.encoding()
            + self.gamma_g2.encoding()
    }

    fn encode(&self) -> (res: Vec<u8>) {
        let mut res = self.ask.encode();
        append_encoding(&mut res, &self.z_g2);
        append_encoding(&mut res, &self.e_gh);
        append_encoding(&mut res, &self.gamma_g2);
        res
    }
}

} // verus!
