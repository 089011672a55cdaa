//! Encodings of compound values determine their parts.
use crate::algebra::congruence::{lemma_modulus, lemma_reduced, modulus};
use crate::field::{le_bytes, le_value, lemma_scalar_range, vals, Scalar};
use crate::group::{
    g1_compressed, g2_compressed, lemma_g1_range, lemma_g2_range, lemma_gt_range, G1, G2, Gt,
};
use crate::laws::transcripts::{
    codes_are_faithful, lemma_list_binds, lemma_size_binds, lemma_size_length, lemma_split,
    same_lengths,
};
use crate::ste::aggregate::EncryptionKey;
use crate::ste::crs::CRS;
use crate::ste::encryption::Ciphertext;
use crate::transcript::{encodings, g1_code, g2_code, gt_code, size_bytes, Encode};
use vstd::arithmetic::div_mod::lemma_div_denominator;
use vstd::arithmetic::power::{lemma_pow0, lemma_pow1, lemma_pow_adds, lemma_pow_positive, pow};
use vstd::bytes::{
    lemma_auto_spec_u64_to_from_le_bytes, spec_u64_from_le_bytes, spec_u64_to_le_bytes,
};
use vstd::prelude::*;

verus! {

/// Lists of the same shape have encodings of the same length, and equal encodings only if their items
/// have.
pub proof fn lemma_vec_binds<T: Encode>(a: Vec<T>, b: Vec<T>)
    requires
        same_lengths(a@, b@),
    ensures
        a.encoding().len() == b.encoding().len(),
        a.encoding() == b.encoding() ==> forall|i: int|
            0 <= i < a@.len() ==> (#[trigger] a@[i]).encoding() == b@[i].encoding(),
{
    lemma_list_binds(a@, b@);
    lemma_size_length(a@.len() as int);
    if a.encoding() == b.encoding() {
        lemma_split(
            size_bytes(a@.len() as int),
            encodings(a@),
            size_bytes(b@.len() as int),
            encodings(b@),
        );
    }
}

/// Elements of the first group.
pub proof fn lemma_g1_vec_binds(a: Vec<G1>, b: Vec<G1>)
    requires
        codes_are_faithful(),
        a@.len() == b@.len(),
    ensures
        a.encoding().len() == b.encoding().len(),
        a.encoding() == b.encoding() ==> vals(a@) == vals(b@),
{
    broadcast use lemma_g1_range;

    assert forall|i: int| 0 <= i < a@.len() implies (#[trigger] a@[i]).encoding().len()
        == b@[i].encoding().len() by {
        assert(g1_code()(a@[i]@).len() == g1_code()(b@[i]@).len());
    }
    lemma_vec_binds(a, b);
    if a.encoding() == b.encoding() {
        assert forall|i: int| 0 <= i < a@.len() implies #[trigger] vals(a@)[i] == vals(b@)[i] by {
            assert(a@[i].encoding() == b@[i].encoding());
            assert(g1_code()(a@[i]@) == g1_code()(b@[i]@));
        }
        assert(vals(a@) =~= vals(b@));
    }
}

/// Elements of the second group.
pub proof fn lemma_g2_vec_binds(a: Vec<G2>, b: Vec<G2>)
    requires
        codes_are_faithful(),
        a@.len() == b@.len(),
    ensures
        a.encoding().len() == b.encoding().len(),
        a.encoding() == b.encoding() ==> vals(a@) == vals(b@),
{
    broadcast use lemma_g2_range;

    assert forall|i: int| 0 <= i < a@.len() implies (#[trigger] a@[i]).encoding().len()
        == b@[i].encoding().len() by {
        assert(g2_code()(a@[i]@).len() == g2_code()(b@[i]@).len());
    }
    lemma_vec_binds(a, b);
    if a.encoding() == b.encoding() {
        assert forall|i: int| 0 <= i < a@.len() implies #[trigger] vals(a@)[i] == vals(b@)[i] by {
            assert(a@[i].encoding() == b@[i].encoding());
            assert(g2_code()(a@[i]@) == g2_code()(b@[i]@));
        }
        assert(vals(a@) =~= vals(b@));
    }
}

/// Elements of the target group.
pub proof fn lemma_gt_vec_binds(a: Vec<Gt>, b: Vec<Gt>)
    requires
        codes_are_faithful(),
        a@.len() == b@.len(),
    ensures
        a.encoding().len() == b.encoding().len(),
        a.encoding() == b.encoding() ==> vals(a@) == vals(b@),
{
    broadcast use lemma_gt_range;

    assert forall|i: int| 0 <= i < a@.len() implies (#[trigger] a@[i]).encoding().len()
        == b@[i].encoding().len() by {
        assert(gt_code()(a@[i]@).len() == gt_code()(b@[i]@).len());
    }
    lemma_vec_binds(a, b);
    if a.encoding() == b.encoding() {
        assert forall|i: int| 0 <= i < a@.len() implies #[trigger] vals(a@)[i] == vals(b@)[i] by {
            assert(a@[i].encoding() == b@[i].encoding());
            assert(gt_code()(a@[i]@) == gt_code()(b@[i]@));
        }
        assert(vals(a@) =~= vals(b@));
    }
}

/// Whether two tables have rows of the same lengths.
pub open spec fn same_rows<T>(a: Seq<Vec<T>>, b: Seq<Vec<T>>) -> bool {
    a.len() == b.len() && forall|i: int|
        0 <= i < a.len() ==> (#[trigger] a[i])@.len() == b[i]@.len()
}

/// Whether two tables have rows of the same values.
pub open spec fn same_table<T: View<V = int>>(a: Seq<Vec<T>>, b: Seq<Vec<T>>) -> bool {
    a.len() == b.len() && forall|i: int|
        0 <= i < a.len() ==> vals((#[trigger] a[i])@) == vals(b[i]@)
}

proof fn lemma_g1_table_binds(a: Vec<Vec<G1>>, b: Vec<Vec<G1>>)
    requires
        codes_are_faithful(),
        same_rows(a@, b@),
    ensures
        a.encoding().len() == b.encoding().len(),
        a.encoding() == b.encoding() ==> same_table(a@, b@),
{
    assert forall|i: int| 0 <= i < a@.len() implies (#[trigger] a@[i]).encoding().len()
        == b@[i].encoding().len() by {
        lemma_g1_vec_binds(a@[i], b@[i]);
    }
    lemma_vec_binds(a, b);
    if a.encoding() == b.encoding() {
        assert forall|i: int| 0 <= i < a@.len() implies vals((#[trigger] a@[i])@) == vals(b@[i]@) by {
            assert(a@[i].encoding() == b@[i].encoding());
            lemma_g1_vec_binds(a@[i], b@[i]);
        }
    }
}

proof fn lemma_g2_table_binds(a: Vec<Vec<G2>>, b: Vec<Vec<G2>>)
    requires
        codes_are_faithful(),
        same_rows(a@, b@),
    ensures
        a.encoding().len() == b.encoding().len(),
        a.encoding() == b.encoding() ==> same_table(a@, b@),
{
    assert forall|i: int| 0 <= i < a@.len() implies (#[trigger] a@[i]).encoding().len()
        == b@[i].encoding().len() by {
        lemma_g2_vec_binds(a@[i], b@[i]);
    }
    lemma_vec_binds(a, b);
    if a.encoding() == b.encoding() {
        assert forall|i: int| 0 <= i < a@.len() implies vals((#[trigger] a@[i])@) == vals(b@[i]@) by {
            assert(a@[i].encoding() == b@[i].encoding());
            lemma_g2_vec_binds(a@[i], b@[i]);
        }
    }
}

proof fn lemma_g1_cube_binds(a: Vec<Vec<Vec<G1>>>, b: Vec<Vec<Vec<G1>>>)
    requires
        codes_are_faithful(),
        a@.len() == b@.len(),
        forall|k: int| 0 <= k < a@.len() ==> same_rows((#[trigger] a@[k])@, b@[k]@),
    ensures
        a.encoding().len() == b.encoding().len(),
        a.encoding() == b.encoding() ==> forall|k: int|
            0 <= k < a@.len() ==> same_table((#[trigger] a@[k])@, b@[k]@),
{
    assert forall|i: int| 0 <= i < a@.len() implies (#[trigger] a@[i]).encoding().len()
        == b@[i].encoding().len() by {
        lemma_g1_table_binds(a@[i], b@[i]);
    }
    lemma_vec_binds(a, b);
    if a.encoding() == b.encoding() {
        assert forall|i: int| 0 <= i < a@.len() implies same_table((#[trigger] a@[i])@, b@[i]@) by {
            assert(a@[i].encoding() == b@[i].encoding());
            lemma_g1_table_binds(a@[i], b@[i]);
        }
    }
}

/// The encoding of a reference string determines everything in it.
#[verifier::rlimit(40)]
pub proof fn law_crs_encoding(a: CRS, b: CRS)
    requires
        codes_are_faithful(),
        a.wf(),
        b.wf(),
        a.n == b.n,
        a.l == b.l,
        a.encoding() == b.encoding(),
    ensures
        vals(a.gen_g@) == vals(b.gen_g@),
        vals(a.gen_h@) == vals(b.gen_h@),
        same_table(a.powers_of_g@, b.powers_of_g@),
        same_table(a.powers_of_h@, b.powers_of_h@),
        same_table(a.li@, b.li@),
        same_table(a.li_minus0@, b.li_minus0@),
        same_table(a.li_x@, b.li_x@),
        forall|k: int|
            0 <= k < a.l ==> same_table((#[trigger] a.li_lj_z@[k])@, b.li_lj_z@[k]@),
        vals(a.gamma_g2@) == vals(b.gamma_g2@),
        same_table(a.y@, b.y@),
{
    assert forall|k: int| 0 <= k < a.l implies a.slot_wf(k) && b.slot_wf(k) by {
    }
    assert(same_rows(a.powers_of_g@, b.powers_of_g@)) by {
        assert forall|k: int| 0 <= k < a.l implies (#[trigger] a.powers_of_g@[k])@.len()
            == b.powers_of_g@[k]@.len() by {
            assert(a.slot_wf(k) && b.slot_wf(k));
        }
    }
    assert(same_rows(a.powers_of_h@, b.powers_of_h@)) by {
        assert forall|k: int| 0 <= k < a.l implies (#[trigger] a.powers_of_h@[k])@.len()
            == b.powers_of_h@[k]@.len() by {
            assert(a.slot_wf(k) && b.slot_wf(k));
        }
    }
    assert(same_rows(a.li@, b.li@)) by {
        assert forall|k: int| 0 <= k < a.l implies (#[trigger] a.li@[k])@.len()
            == b.li@[k]@.len() by {
            assert(a.slot_wf(k) && b.slot_wf(k));
        }
    }
    assert(same_rows(a.li_minus0@, b.li_minus0@)) by {
        assert forall|k: int| 0 <= k < a.l implies (#[trigger] a.li_minus0@[k])@.len()
            == b.li_minus0@[k]@.len() by {
            assert(a.slot_wf(k) && b.slot_wf(k));
        }
    }
    assert(same_rows(a.li_x@, b.li_x@)) by {
        assert forall|k: int| 0 <= k < a.l implies (#[trigger] a.li_x@[k])@.len()
            == b.li_x@[k]@.len() by {
            assert(a.slot_wf(k) && b.slot_wf(k));
        }
    }
    assert(same_rows(a.y@, b.y@)) by {
        assert forall|k: int| 0 <= k < a.l implies (#[trigger] a.y@[k])@.len() == b.y@[k]@.len() by {
            assert(a.slot_wf(k) && b.slot_wf(k));
        }
    }
    assert forall|k: int| 0 <= k < a.l implies same_rows(
        (#[trigger] a.li_lj_z@[k])@,
        b.li_lj_z@[k]@,
    ) by {
        assert(a.slot_wf(k) && b.slot_wf(k));
        assert forall|i: int| 0 <= i < a.n implies (#[trigger] a.li_lj_z@[k]@[i])@.len()
            == b.li_lj_z@[k]@[i]@.len() by {
            assert(b.li_lj_z@[k]@[i]@.len() == b.n);
        }
    }
    lemma_g1_vec_binds(a.gen_g, b.gen_g);
    lemma_g2_vec_binds(a.gen_h, b.gen_h);
    lemma_g1_table_binds(a.powers_of_g, b.powers_of_g);
    lemma_g2_table_binds(a.powers_of_h, b.powers_of_h);
    lemma_g1_table_binds(a.li, b.li);
    lemma_g1_table_binds(a.li_minus0, b.li_minus0);
    lemma_g1_table_binds(a.li_x, b.li_x);
    lemma_g1_cube_binds(a.li_lj_z, b.li_lj_z);
    lemma_g2_vec_binds(a.gamma_g2, b.gamma_g2);
    lemma_g1_table_binds(a.y, b.y);
    let a1 = a.n.encoding() + a.l.encoding() + a.gen_g.encoding();
    let b1 = b.n.encoding() + b.l.encoding() + b.gen_g.encoding();
    let a2 = a1 + a.gen_h.encoding();
    let b2 = b1 + b.gen_h.encoding();
    let a3 = a2 + a.powers_of_g.encoding();
    let b3 = b2 + b.powers_of_g.encoding();
    let a4 = a3 + a.powers_of_h.encoding();
    let b4 = b3 + b.powers_of_h.encoding();
    let a5 = a4 + a.li.encoding();
    let b5 = b4 + b.li.encoding();
    let a6 = a5 + a.li_minus0.encoding();
    let b6 = b5 + b.li_minus0.encoding();
    let a7 = a6 + a.li_x.encoding();
    let b7 = b6 + b.li_x.encoding();
    let a8 = a7 + a.li_lj_z.encoding();
    let b8 = b7 + b.li_lj_z.encoding();
    let a9 = a8 + a.gamma_g2.encoding();
    let b9 = b8 + b.gamma_g2.encoding();
    lemma_split(a9, a.y.encoding(), b9, b.y.encoding());
    lemma_split(a8, a.gamma_g2.encoding(), b8, b.gamma_g2.encoding());
    lemma_split(a7, a.li_lj_z.encoding(), b7, b.li_lj_z.encoding());
    lemma_split(a6, a.li_x.encoding(), b6, b.li_x.encoding());
    lemma_split(a5, a.li_minus0.encoding(), b5, b.li_minus0.encoding());
    lemma_split(a4, a.li.encoding(), b4, b.li.encoding());
    lemma_split(a3, a.powers_of_h.encoding(), b3, b.powers_of_h.encoding());
    lemma_split(a2, a.powers_of_g.encoding(), b2, b.powers_of_g.encoding());
    lemma_split(a1, a.gen_h.encoding(), b1, b.gen_h.encoding());
    lemma_split(
        a.n.encoding() + a.l.encoding(),
        a.gen_g.encoding(),
        b.n.encoding() + b.l.encoding(),
        b.gen_g.encoding(),
    );
}

/// The encoding of an encryption key determines everything in it.
#[verifier::rlimit(40)]
pub proof fn law_key_encoding(a: EncryptionKey, b: EncryptionKey)
    requires
        codes_are_faithful(),
        a.e_gh@.len() == b.e_gh@.len(),
        a.gamma_g2@.len() == b.gamma_g2@.len(),
        a.encoding() == b.encoding(),
    ensures
        a.ask@ == b.ask@,
        a.z_g2@ == b.z_g2@,
        vals(a.e_gh@) == vals(b.e_gh@),
        vals(a.gamma_g2@) == vals(b.gamma_g2@),
{
    broadcast use lemma_g1_range, lemma_g2_range;

    lemma_gt_vec_binds(a.e_gh, b.e_gh);
    lemma_g2_vec_binds(a.gamma_g2, b.gamma_g2);
    assert(g1_code()(a.ask@).len() == g1_code()(b.ask@).len());
    assert(g2_code()(a.z_g2@).len() == g2_code()(b.z_g2@).len());
    let a1 = a.ask.encoding() + a.z_g2.encoding();
    let b1 = b.ask.encoding() + b.z_g2.encoding();
    lemma_split(
        a1 + a.e_gh.encoding(),
        a.gamma_g2.encoding(),
        b1 + b.e_gh.encoding(),
        b.gamma_g2.encoding(),
    );
    lemma_split(a1, a.e_gh.encoding(), b1, b.e_gh.encoding());
    lemma_split(a.ask.encoding(), a.z_g2.encoding(), b.ask.encoding(), b.z_g2.encoding());
    assert(g1_code()(a.ask@) == g1_code()(b.ask@));
    assert(g2_code()(a.z_g2@) == g2_code()(b.z_g2@));
}

/// The encoding of a ciphertext determines everything in it.
#[verifier::rlimit(40)]
pub proof fn law_ciphertext_encoding(a: Ciphertext, b: Ciphertext)
    requires
        codes_are_faithful(),
        a.ct@.len() == b.ct@.len(),
        a.encoding() == b.encoding(),
    ensures
        vals(a.sa1@) == vals(b.sa1@),
        vals(a.sa2@) == vals(b.sa2@),
        vals(a.ct@) == vals(b.ct@),
        a.t == b.t,
{
    broadcast use lemma_g1_range, lemma_g2_range;

    lemma_gt_vec_binds(a.ct, b.ct);
    assert forall|i: int| 0 <= i < 2 implies (#[trigger] a.sa1@[i]).encoding().len()
        == b.sa1@[i].encoding().len() by {
        assert(g1_code()(a.sa1@[i]@).len() == g1_code()(b.sa1@[i]@).len());
    }
    assert forall|i: int| 0 <= i < 6 implies (#[trigger] a.sa2@[i]).encoding().len()
        == b.sa2@[i].encoding().len() by {
        assert(g2_code()(a.sa2@[i]@).len() == g2_code()(b.sa2@[i]@).len());
    }
    lemma_list_binds(a.sa1@, b.sa1@);
    lemma_list_binds(a.sa2@, b.sa2@);
    lemma_size_length(a.t as int);
    lemma_size_length(b.t as int);
    let a1 = a.sa1.encoding() + a.sa2.encoding();
    let b1 = b.sa1.encoding() + b.sa2.encoding();
    lemma_split(a1 + a.ct.encoding(), a.t.encoding(), b1 + b.ct.encoding(), b.t.encoding());
    lemma_size_binds(a.t as int, b.t as int);
    lemma_split(a1, a.ct.encoding(), b1, b.ct.encoding());
    lemma_split(a.sa1.encoding(), a.sa2.encoding(), b.sa1.encoding(), b.sa2.encoding());
    assert forall|i: int| 0 <= i < 2 implies #[trigger] vals(a.sa1@)[i] == vals(b.sa1@)[i] by {
        assert(a.sa1@[i].encoding() == b.sa1@[i].encoding());
        assert(g1_code()(a.sa1@[i]@) == g1_code()(b.sa1@[i]@));
    }
    assert(vals(a.sa1@) =~= vals(b.sa1@));
    assert forall|i: int| 0 <= i < 6 implies #[trigger] vals(a.sa2@)[i] == vals(b.sa2@)[i] by {
        assert(a.sa2@[i].encoding() == b.sa2@[i].encoding());
        assert(g2_code()(a.sa2@[i]@) == g2_code()(b.sa2@[i]@));
    }
    assert(vals(a.sa2@) =~= vals(b.sa2@));
}

/// Parts of an encoding, one behind the other.
pub open spec fn concatenated(parts: Seq<Seq<u8>>) -> Seq<u8>
    decreases parts.len(),
{
    if parts.len() == 0 {
        Seq::empty()
    } else {
        concatenated(parts.drop_last()) + parts.last()
    }
}

proof fn lemma_concatenated(parts: Seq<Seq<u8>>, n: int)
    requires
        0 < n <= parts.len(),
    ensures
        concatenated(parts.subrange(0, n)) == concatenated(parts.subrange(0, n - 1)) + parts[n - 1],
{
    assert(parts.subrange(0, n).drop_last() =~= parts.subrange(0, n - 1));
}

/// The parts of the encoding of a reference string: its fields, in their order.
pub open spec fn crs_parts(crs: CRS) -> Seq<Seq<u8>> {
    seq![
        size_bytes(crs.n as int),
        size_bytes(crs.l as int),
        crs.gen_g.encoding(),
        crs.gen_h.encoding(),
        crs.powers_of_g.encoding(),
        crs.powers_of_h.encoding(),
        crs.li.encoding(),
        crs.li_minus0.encoding(),
        crs.li_x.encoding(),
        crs.li_lj_z.encoding(),
        crs.gamma_g2.encoding(),
        crs.y.encoding(),
    ]
}

#[verifier::rlimit(40)]
proof fn lemma_crs_parts(crs: CRS)
    ensures
        crs.encoding() == concatenated(crs_parts(crs)),
{
    let parts = crs_parts(crs);
    lemma_concatenated(parts, 12);
    lemma_concatenated(parts, 11);
    lemma_concatenated(parts, 10);
    lemma_concatenated(parts, 9);
    lemma_concatenated(parts, 8);
    lemma_concatenated(parts, 7);
    lemma_concatenated(parts, 6);
    lemma_concatenated(parts, 5);
    lemma_concatenated(parts, 4);
    lemma_concatenated(parts, 3);
    lemma_concatenated(parts, 2);
    lemma_concatenated(parts, 1);
    assert(parts.subrange(0, 12) =~= parts);
    assert(parts.subrange(0, 0) =~= Seq::empty());
    assert(Seq::<u8>::empty() + parts[0] =~= parts[0]);
}

/// A reference string is encoded field by field.
pub proof fn law_crs_encode(crs: CRS, bytes: Vec<u8>)
    requires
        call_ensures(CRS::encode, (&crs,), bytes),
    ensures
        bytes@ == concatenated(crs_parts(crs)),
{
    lemma_crs_parts(crs);
}

/// Parts one behind the other start with the first two.
proof fn lemma_first_two(parts: Seq<Seq<u8>>, n: int)
    requires
        2 <= n <= parts.len(),
    ensures
        ({
            let c = concatenated(parts.subrange(0, n));
            let k = (parts[0].len() + parts[1].len()) as int;
            &&& k <= c.len()
            &&& c.subrange(0, k) == parts[0] + parts[1]
        }),
    decreases n,
{
    let c = concatenated(parts.subrange(0, n));
    let k = (parts[0].len() + parts[1].len()) as int;
    lemma_concatenated(parts, n);
    if n == 2 {
        lemma_concatenated(parts, 1);
        assert(parts.subrange(0, 0) =~= Seq::empty());
        assert(c =~= parts[0] + parts[1]);
    } else {
        lemma_first_two(parts, n - 1);
        let d = concatenated(parts.subrange(0, n - 1));
        assert(c.subrange(0, k) =~= d.subrange(0, k));
    }
}

/// The encoding of a reference string starts with the numbers of parties and slots.
pub proof fn law_crs_encoding_sizes(a: CRS, b: CRS)
    requires
        a.encoding() == b.encoding(),
    ensures
        a.n == b.n,
        a.l == b.l,
{
    lemma_crs_parts(a);
    lemma_crs_parts(b);
    let p = crs_parts(a);
    let q = crs_parts(b);
    assert(p.subrange(0, 12) =~= p);
    assert(q.subrange(0, 12) =~= q);
    lemma_first_two(p, 12);
    lemma_first_two(q, 12);
    lemma_size_length(a.n as int);
    lemma_size_length(b.n as int);
    lemma_size_length(a.l as int);
    lemma_size_length(b.l as int);
    lemma_split(
        size_bytes(a.n as int),
        size_bytes(a.l as int),
        size_bytes(b.n as int),
        size_bytes(b.l as int),
    );
    lemma_size_binds(a.n as int, b.n as int);
    lemma_size_binds(a.l as int, b.l as int);
}

/// So is an encryption key.
#[verifier::rlimit(40)]
pub proof fn law_key_encode(key: EncryptionKey, bytes: Vec<u8>)
    requires
        call_ensures(EncryptionKey::encode, (&key,), bytes),
    ensures
        bytes@ == concatenated(
            seq![
                g1_compressed(key.ask@),
                g2_compressed(key.z_g2@),
                key.e_gh.encoding(),
                key.gamma_g2.encoding(),
            ],
        ),
{
    let parts = seq![
        g1_compressed(key.ask@),
        g2_compressed(key.z_g2@),
        key.e_gh.encoding(),
        key.gamma_g2.encoding(),
    ];
    lemma_concatenated(parts, 4);
    lemma_concatenated(parts, 3);
    lemma_concatenated(parts, 2);
    lemma_concatenated(parts, 1);
    assert(parts.subrange(0, 4) =~= parts);
    assert(parts.subrange(0, 0) =~= Seq::empty());
    assert(Seq::<u8>::empty() + parts[0] =~= parts[0]);
}

/// And a ciphertext.
#[verifier::rlimit(40)]
pub proof fn law_ciphertext_encode(c: Ciphertext, bytes: Vec<u8>)
    requires
        call_ensures(Ciphertext::encode, (&c,), bytes),
    ensures
        bytes@ == concatenated(
            seq![
                concatenated(seq![g1_compressed(c.sa1@[0]@), g1_compressed(c.sa1@[1]@)]),
                c.sa2.encoding(),
                c.ct.encoding(),
                size_bytes(c.t as int),
            ],
        ),
{
    let first = seq![g1_compressed(c.sa1@[0]@), g1_compressed(c.sa1@[1]@)];
    lemma_concatenated(first, 2);
    lemma_concatenated(first, 1);
    assert(first.subrange(0, 2) =~= first);
    assert(first.subrange(0, 0) =~= Seq::empty());
    lemma_items(c.sa1@);
    assert(Seq::new(2, |i: int| c.sa1@[i].encoding()) =~= first);
    let parts = seq![
        concatenated(first),
        c.sa2.encoding(),
        c.ct.encoding(),
        size_bytes(c.t as int),
    ];
    lemma_concatenated(parts, 4);
    lemma_concatenated(parts, 3);
    lemma_concatenated(parts, 2);
    lemma_concatenated(parts, 1);
    assert(parts.subrange(0, 4) =~= parts);
    assert(parts.subrange(0, 0) =~= Seq::empty());
    assert(Seq::<u8>::empty() + parts[0] =~= parts[0]);
}

proof fn lemma_items<T: Encode>(items: Seq<T>)
    ensures
        encodings(items) == concatenated(Seq::new(items.len(), |i: int| items[i].encoding())),
    decreases items.len(),
{
    let parts = Seq::new(items.len(), |i: int| items[i].encoding());
    if items.len() > 0 {
        lemma_items(items.drop_last());
        let rest = items.drop_last();
        assert(parts.drop_last() =~= Seq::new(rest.len(), |i: int| rest[i].encoding()));
    }
}

/// A list is encoded as the number of its items and the items, in their order.
pub proof fn law_list_encode<T: Encode>(items: Vec<T>)
    ensures
        items.encoding() == size_bytes(items@.len() as int) + concatenated(
            Seq::new(items@.len(), |i: int| items@[i].encoding()),
        ),
{
    lemma_items(items@);
}

/// An array is encoded as its items.
pub proof fn law_array_encode<T: Encode, const N: usize>(items: [T; N])
    ensures
        items.encoding() == concatenated(Seq::new(items@.len(), |i: int| items@[i].encoding())),
{
    lemma_items(items@);
}

/// A number is encoded in eight bytes, lowest first.
pub proof fn law_size_encode(n: usize, bytes: Vec<u8>)
    requires
        call_ensures(usize::encode, (&n,), bytes),
    ensures
        bytes@.len() == 8,
        spec_u64_from_le_bytes(bytes@) == n,
{
    lemma_auto_spec_u64_to_from_le_bytes();
    assert(spec_u64_from_le_bytes(spec_u64_to_le_bytes(n as u64)) == n as u64);
}

/// The lowest bytes of a number give the number again, where there are enough of them.
proof fn lemma_le_round_trip(v: int, n: nat)
    requires
        0 <= v < pow(256, n),
    ensures
        le_value(le_bytes(v, n)) == v,
    decreases n,
{
    let b = le_bytes(v, n);
    if n == 0 {
        lemma_pow0(256);
    } else {
        lemma_pow0(256);
        let rest = le_bytes(v / 256, (n - 1) as nat);
        lemma_pow_adds(256, 1, (n - 1) as nat);
        lemma_pow1(256);
        let p = pow(256, (n - 1) as nat);
        assert(0 <= v / 256 < p) by (nonlinear_arith)
            requires
                0 <= v < 256 * p,
        ;
        lemma_le_round_trip(v / 256, (n - 1) as nat);
        assert forall|i: int| 0 <= i < n - 1 implies #[trigger] b.drop_first()[i] == rest[i] by {
            lemma_pow_adds(256, 1, i as nat);
            lemma_pow_positive(256, i as nat);
            lemma_div_denominator(v, 256, pow(256, i as nat));
        }
        assert(b.drop_first() =~= rest);
        assert(b[0] == v % 256);
    }
}

/// A scalar is encoded in thirty-two bytes, lowest first, and reading them gives the scalar again.
pub proof fn law_scalar_encode(k: Scalar, bytes: Vec<u8>, back: Scalar)
    requires
        call_ensures(Scalar::encode, (&k,), bytes),
        call_ensures(Scalar::from_le_bytes_mod_order, (&bytes,), back),
    ensures
        bytes@.len() == 32,
        le_value(bytes@) == k@,
        back@ == k@,
{
    lemma_scalar_range(k);
    lemma_modulus();
    lemma_big_enough();
    lemma_le_round_trip(k@, 32);
    lemma_reduced(k@);
}

proof fn lemma_big_enough()
    ensures
        modulus() < pow(256, 32),
{
    lemma_modulus();
    lemma_pow1(256);
    lemma_pow_adds(256, 1, 1);
    lemma_pow_adds(256, 2, 2);
    lemma_pow_adds(256, 4, 4);
    lemma_pow_adds(256, 8, 8);
    lemma_pow_adds(256, 16, 16);
    let a = pow(256, 8);
    let b = pow(256, 16);
    assert(pow(256, 2) == 65536) by (nonlinear_arith)
        requires
            pow(256, 2) == pow(256, 1) * pow(256, 1),
            pow(256, 1) == 256,
    ;
    assert(pow(256, 4) == 0x1_0000_0000) by (nonlinear_arith)
        requires
            pow(256, 4) == pow(256, 2) * pow(256, 2),
            pow(256, 2) == 65536,
    ;
    assert(a == 0x1_0000_0000_0000_0000int) by (nonlinear_arith)
        requires
            pow(256, 4) == 0x1_0000_0000,
            a == pow(256, 4) * pow(256, 4),
    ;
    assert(b == 0x1_0000_0000_0000_0000_0000_0000_0000_0000int) by (nonlinear_arith)
        requires
            a == 0x1_0000_0000_0000_0000int,
            b == a * a,
    ;
    assert(b * b
        == 0x1_0000_0000_0000_0000_0000_0000_0000_0000_0000_0000_0000_0000_0000_0000_0000_0000int)
        by (nonlinear_arith)
        requires
            b == 0x1_0000_0000_0000_0000_0000_0000_0000_0000int,
    ;
}

} // verus!
