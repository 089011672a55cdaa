//! Canonical encodings, and the hash transcripts that challenges are drawn from.
use crate::algebra::congruence::modulus;
use crate::field::{le_bytes, le_value, vals, Scalar};
use crate::group::{g1_compressed, g2_compressed, gt_encoding, G1, G2, Gt};
use sha2::{Digest, Sha256};
use vstd::bytes::{spec_u64_to_le_bytes, u64_to_le_bytes};
use vstd::prelude::*;
use vstd::string::StringSliceAdditionalSpecFns;

verus! {

/// The SHA-256 digest of a string of bytes.
pub uninterp spec fn sha256(data: Seq<u8>) -> Seq<u8>;

/// A length or an index, in eight bytes, lowest first.
pub open spec fn size_bytes(n: int) -> Seq<u8> {
    spec_u64_to_le_bytes(n as u64)
}

/// Bytes behind their length.
pub open spec fn framed(bytes: Seq<u8>) -> Seq<u8> {
    size_bytes(bytes.len() as int) + bytes
}

/// A value with a canonical encoding.
pub trait Encode {
    /// The canonical encoding.
    spec fn encoding(&self) -> Seq<u8>;

    /// Computes the canonical encoding.
    fn encode(&self) -> (res: Vec<u8>)
        ensures
            res@ == self.encoding(),
    ;
}

/// The encodings of the items, one behind the other.
pub open spec fn encodings<T: Encode>(items: Seq<T>) -> Seq<u8>
    decreases items.len(),
{
    if items.len() == 0 {
        Seq::empty()
    } else {
        encodings(items.drop_last()) + items.last().encoding()
    }
}

/// The encodings of the items, each behind its length, one behind the other.
pub open spec fn framed_encodings<T: Encode>(items: Seq<T>) -> Seq<u8>
    decreases items.len(),
{
    if items.len() == 0 {
        Seq::empty()
    } else {
        framed_encodings(items.drop_last()) + framed(items.last().encoding())
    }
}

/// The codes of the values, one behind the other.
pub open spec fn joined(values: Seq<int>, code: spec_fn(int) -> Seq<u8>) -> Seq<u8>
    decreases values.len(),
{
    if values.len() == 0 {
        Seq::empty()
    } else {
        joined(values.drop_last(), code) + code(values.last())
    }
}

/// The codes of the values, each behind its length, one behind the other.
pub open spec fn framed_joined(values: Seq<int>, code: spec_fn(int) -> Seq<u8>) -> Seq<u8>
    decreases values.len(),
{
    if values.len() == 0 {
        Seq::empty()
    } else {
        framed_joined(values.drop_last(), code) + framed(code(values.last()))
    }
}

/// The encoding of an element of the first group, by its logarithm.
pub open spec fn g1_code() -> spec_fn(int) -> Seq<u8> {
    |v: int| g1_compressed(v)
}

/// The encoding of an element of the second group, by its logarithm.
pub open spec fn g2_code() -> spec_fn(int) -> Seq<u8> {
    |v: int| g2_compressed(v)
}

/// The encoding of an element of the target group, by its logarithm.
pub open spec fn gt_code() -> spec_fn(int) -> Seq<u8> {
    |v: int| gt_encoding(v)
}

/// Items whose encodings only depend on their values.
pub proof fn lemma_joined<T: Encode + View<V = int>>(items: Seq<T>, code: spec_fn(int) -> Seq<u8>)
    requires
        forall|i: int| 0 <= i < items.len() ==> (#[trigger] items[i]).encoding() == code(items[i]@),
    ensures
        encodings(items) == joined(vals(items), code),
        framed_encodings(items) == framed_joined(vals(items), code),
    decreases items.len(),
{
    if items.len() > 0 {
        let rest = items.drop_last();
        assert forall|i: int| 0 <= i < rest.len() implies (#[trigger] rest[i]).encoding() == code(
            rest[i]@,
        ) by {
            assert(items[i].encoding() == code(items[i]@));
        }
        lemma_joined(rest, code);
        assert(vals(items).drop_last() =~= vals(rest));
        assert(items.last().encoding() == code(items.last()@));
    }
}

fn append_all(data: &mut Vec<u8>, bytes: &[u8])
    ensures
        final(data)@ == old(data)@ + bytes@,
{
    data.extend_from_slice(bytes);
    assert(data@ =~= old(data)@ + bytes@);
}

fn append_size(data: &mut Vec<u8>, n: usize)
    ensures
        final(data)@ == old(data)@ + size_bytes(n as int),
{
    let bytes = u64_to_le_bytes(n as u64);
    append_all(data, bytes.as_slice());
}

/// Appends the encoding of a value.
pub fn append_encoding<T: Encode>(data: &mut Vec<u8>, value: &T)
    ensures
        final(data)@ == old(data)@ + value.encoding(),
{
    let bytes = value.encode();
    append_all(data, bytes.as_slice());
}

impl Encode for Scalar {
    open spec fn encoding(&self) -> Seq<u8> {
        le_bytes(self@, 32)
    }

    fn encode(&self) -> (res: Vec<u8>) {
        self.to_bytes()
    }
}

impl Encode for G1 {
    open spec fn encoding(&self) -> Seq<u8> {
        g1_compressed(self@)
    }

    fn encode(&self) -> (res: Vec<u8>) {
        self.compress()
    }
}

impl Encode for G2 {
    open spec fn encoding(&self) -> Seq<u8> {
        g2_compressed(self@)
    }

    fn encode(&self) -> (res: Vec<u8>) {
        self.compress()
    }
}

impl Encode for Gt {
    open spec fn encoding(&self) -> Seq<u8> {
        gt_encoding(self@)
    }

    fn encode(&self) -> (res: Vec<u8>) {
        self.to_bytes()
    }
}

impl Encode for usize {
    open spec fn encoding(&self) -> Seq<u8> {
        size_bytes(*self as int)
    }

    fn encode(&self) -> (res: Vec<u8>) {
        let mut res: Vec<u8> = Vec::new();
        append_size(&mut res, *self);
        assert(res@ =~= size_bytes(*self as int));
        res
    }
}

impl<T: Encode> Encode for Vec<T> {
    /// The number of items, and the items.
    open spec fn encoding(&self) -> Seq<u8> {
        size_bytes(self@.len() as int) + encodings(self@)
    }

    fn encode(&self) -> (res: Vec<u8>) {
        let mut res: Vec<u8> = Vec::new();
        append_size(&mut res, self.len());
        let mut i: usize = 0;
        assert(res@ =~= size_bytes(self@.len() as int) + encodings(self@.subrange(0, 0)));
        while i < self.len()
            invariant
                0 <= i <= self@.len(),
                res@ == size_bytes(self@.len() as int) + encodings(self@.subrange(0, i as int)),
            decreases self@.len() - i,
        {
            let bytes = self[i].encode();
            append_all(&mut res, bytes.as_slice());
            proof {
                let next = self@.subrange(0, i + 1);
                assert(next.drop_last() =~= self@.subrange(0, i as int));
                assert(res@ =~= size_bytes(self@.len() as int) + encodings(next));
            }
            i += 1;
        }
        assert(self@.subrange(0, self@.len() as int) =~= self@);
        res
    }
}

impl<T: Encode, const N: usize> Encode for [T; N] {
    /// The items.
    open spec fn encoding(&self) -> Seq<u8> {
        encodings(self@)
    }

    fn encode(&self) -> (res: Vec<u8>) {
        let mut res: Vec<u8> = Vec::new();
        let mut i: usize = 0;
        assert(res@ =~= encodings(self@.subrange(0, 0)));
        while i < N
            invariant
                0 <= i <= N,
                self@.len() == N,
                res@ == encodings(self@.subrange(0, i as int)),
            decreases N - i,
        {
            let bytes = self[i].encode();
            append_all(&mut res, bytes.as_slice());
            proof {
                let next = self@.subrange(0, i + 1);
                assert(next.drop_last() =~= self@.subrange(0, i as int));
                assert(res@ =~= encodings(next));
            }
            i += 1;
        }
        assert(self@.subrange(0, N as int) =~= self@);
        res
    }
}

/// What has been said so far in a proof, for a challenge to depend on.
pub struct Transcript {
    data: Vec<u8>,
}

impl View for Transcript {
    type V = Seq<u8>;

    closed spec fn view(&self) -> Seq<u8> {
        self.data@
    }
}

/// The bytes of a number behind its label.
pub open spec fn size_entry(label: Seq<u8>, value: int) -> Seq<u8> {
    framed(label) + size_bytes(value)
}

/// Bytes and their length behind their label.
pub open spec fn bytes_entry(label: Seq<u8>, bytes: Seq<u8>) -> Seq<u8> {
    framed(label) + framed(bytes)
}

/// A list of items, each behind its length, behind the number of items and a label.
pub open spec fn list_entry<T: Encode>(label: Seq<u8>, items: Seq<T>) -> Seq<u8> {
    framed(label) + size_bytes(items.len() as int) + framed_encodings(items)
}

/// The scalar that a transcript leads to.
pub open spec fn challenge_of(transcript: Seq<u8>) -> int {
    le_value(sha256(transcript)) % modulus()
}

impl Transcript {
    pub fn new(domain: &str) -> (res: Transcript)
        ensures
            res@ == framed(domain.spec_bytes()),
    {
        let mut res = Transcript { data: Vec::new() };
        res.append_label(domain);
        assert(res@ =~= framed(domain.spec_bytes()));
        res
    }

    pub fn append_label(&mut self, label: &str)
        ensures
            final(self)@ == old(self)@ + framed(label.spec_bytes()),
    {
        let bytes = label.as_bytes();
        append_size(&mut self.data, bytes.len());
        append_all(&mut self.data, bytes);
        assert(self@ =~= old(self)@ + framed(label.spec_bytes()));
    }

    pub fn append_usize(&mut self, label: &str, value: usize)
        ensures
            final(self)@ == old(self)@ + size_entry(label.spec_bytes(), value as int),
    {
        self.append_label(label);
        append_size(&mut self.data, value);
        assert(self@ =~= old(self)@ + size_entry(label.spec_bytes(), value as int));
    }

    pub fn append_bytes(&mut self, label: &str, bytes: &[u8])
        ensures
            final(self)@ == old(self)@ + bytes_entry(label.spec_bytes(), bytes@),
    {
        self.append_label(label);
        append_size(&mut self.data, bytes.len());
        append_all(&mut self.data, bytes);
        assert(self@ =~= old(self)@ + bytes_entry(label.spec_bytes(), bytes@));
    }

    pub fn append_serializable<T: Encode>(&mut self, label: &str, value: &T)
        ensures
            final(self)@ == old(self)@ + bytes_entry(label.spec_bytes(), value.encoding()),
    {
        let bytes = value.encode();
        self.append_bytes(label, bytes.as_slice());
    }

    pub fn append_serializable_slice<T: Encode>(&mut self, label: &str, values: &Vec<T>)
        ensures
            final(self)@ == old(self)@ + list_entry(label.spec_bytes(), values@),
    {
        self.append_label(label);
        append_size(&mut self.data, values.len());
        let ghost start = self@;
        let mut i: usize = 0;
        assert(self@ =~= start + framed_encodings(values@.subrange(0, 0)));
        while i < values.len()
            invariant
                0 <= i <= values@.len(),
                self@ == start + framed_encodings(values@.subrange(0, i as int)),
            decreases values@.len() - i,
        {
            let bytes = values[i].encode();
            let ghost before = self@;
            append_size(&mut self.data, bytes.len());
            append_all(&mut self.data, bytes.as_slice());
            proof {
                let next = values@.subrange(0, i + 1);
                assert(next.drop_last() =~= values@.subrange(0, i as int));
                assert(self@ =~= before + framed(bytes@));
                assert(self@ =~= start + framed_encodings(next));
            }
            i += 1;
        }
        assert(values@.subrange(0, values@.len() as int) =~= values@);
        assert(self@ =~= old(self)@ + list_entry(label.spec_bytes(), values@));
    }

    /// The digest of what has been said.
    pub fn finalize(self) -> (res: [u8; 32])
        ensures
            res@ == sha256(self@),
    {
        sha256_digest(&self.data)
    }

    /// The scalar that the digest of what has been said stands for.
    pub fn challenge(self) -> (res: Scalar)
        ensures
            res@ == challenge_of(self@),
    {
        let digest = self.finalize();
        let mut bytes: Vec<u8> = Vec::new();
        append_all(&mut bytes, digest.as_slice());
        assert(bytes@ =~= digest@);
        Scalar::from_le_bytes_mod_order(&bytes)
    }
}

/// `Digest::digest` of `sha2` for `Sha256`: the result is a function of the bytes.
#[verifier::external_body]
fn sha256_digest(data: &Vec<u8>) -> (res: [u8; 32])
    ensures
        res@ == sha256(data@),
{
    Sha256::digest(data).into()
}

} // verus!
