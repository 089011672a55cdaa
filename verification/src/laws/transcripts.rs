//! Transcripts as lists of labelled lines, and what equal transcripts say of their lines.
use crate::algebra::congruence::modulus;
use crate::field::{le_value, vals, Scalar};
use crate::group::{lemma_g1_range, G1};
use crate::transcript::{
    encodings, framed, framed_encodings, framed_joined, g1_code, g2_code, gt_code, joined, sha256,
    size_bytes, Encode, Transcript,
};
use vstd::bytes::{
    lemma_auto_spec_u64_to_from_le_bytes, spec_u64_from_le_bytes, spec_u64_to_le_bytes,
};
use vstd::prelude::*;
use vstd::string::StringSliceAdditionalSpecFns;

verus! {

/// A transcript: its domain, and for each line a label and what is said under it.
pub open spec fn said(domain: Seq<u8>, lines: Seq<(Seq<u8>, Seq<u8>)>) -> Seq<u8>
    decreases lines.len(),
{
    if lines.len() == 0 {
        framed(domain)
    } else {
        said(domain, lines.drop_last()) + (framed(lines.last().0) + lines.last().1)
    }
}

/// Whether two transcripts have the same labels, and lines of the same lengths.
pub open spec fn same_shape(a: Seq<(Seq<u8>, Seq<u8>)>, b: Seq<(Seq<u8>, Seq<u8>)>) -> bool {
    &&& a.len() == b.len()
    &&& forall|i: int|
        0 <= i < a.len() ==> (#[trigger] a[i]).0 == b[i].0 && a[i].1.len() == b[i].1.len()
}

/// Two ways to take the same sequence apart at the same place.
pub proof fn lemma_split<A>(a: Seq<A>, x: Seq<A>, b: Seq<A>, y: Seq<A>)
    requires
        a + x == b + y,
        x.len() == y.len(),
    ensures
        a == b,
        x == y,
{
    assert(a.len() == (a + x).len() - x.len());
    assert(b.len() == (b + y).len() - y.len());
    assert(a =~= (a + x).subrange(0, a.len() as int));
    assert(b =~= (b + y).subrange(0, b.len() as int));
    assert(x =~= (a + x).subrange(a.len() as int, (a + x).len() as int));
    assert(y =~= (b + y).subrange(b.len() as int, (b + y).len() as int));
}

/// Equal transcripts of the same shape say the same in every line.
pub proof fn lemma_said_binds(
    domain: Seq<u8>,
    a: Seq<(Seq<u8>, Seq<u8>)>,
    b: Seq<(Seq<u8>, Seq<u8>)>,
)
    requires
        same_shape(a, b),
        said(domain, a) == said(domain, b),
    ensures
        a == b,
    decreases a.len(),
{
    if a.len() > 0 {
        let x = a.last();
        let y = b.last();
        assert(a[a.len() - 1].0 == b[a.len() - 1].0 && a[a.len() - 1].1.len() == b[a.len()
            - 1].1.len());
        lemma_split(
            said(domain, a.drop_last()),
            framed(x.0) + x.1,
            said(domain, b.drop_last()),
            framed(y.0) + y.1,
        );
        lemma_split(framed(x.0), x.1, framed(y.0), y.1);
        assert forall|i: int| 0 <= i < a.len() - 1 implies (#[trigger] a.drop_last()[i]).0
            == b.drop_last()[i].0 && a.drop_last()[i].1.len() == b.drop_last()[i].1.len() by {
            assert(a[i].0 == b[i].0);
        }
        lemma_said_binds(domain, a.drop_last(), b.drop_last());
        assert(x == y);
        assert(a =~= a.drop_last().push(x));
        assert(b =~= b.drop_last().push(y));
    }
}

/// Whether the encodings of each group have one length, and tell its elements apart.
pub open spec fn codes_are_faithful() -> bool {
    &&& is_faithful(g1_code())
    &&& is_faithful(g2_code())
    &&& is_faithful(gt_code())
}

/// Whether the codes of reduced values have one length, and tell the values apart.
pub open spec fn is_faithful(code: spec_fn(int) -> Seq<u8>) -> bool {
    forall|j: int, k: int|
        0 <= j < modulus() && 0 <= k < modulus() ==> (#[trigger] code(j)).len() == (#[trigger] code(
            k,
        )).len() && (code(j) == code(k) ==> j == k)
}

/// Lengths below `2^64` are told apart.
pub proof fn lemma_size_binds(m: int, n: int)
    requires
        0 <= m <= u64::MAX,
        0 <= n <= u64::MAX,
        size_bytes(m) == size_bytes(n),
    ensures
        m == n,
{
    lemma_auto_spec_u64_to_from_le_bytes();
    assert(spec_u64_from_le_bytes(spec_u64_to_le_bytes(m as u64)) == m as u64);
    assert(spec_u64_from_le_bytes(spec_u64_to_le_bytes(n as u64)) == n as u64);
}

pub proof fn lemma_size_length(n: int)
    ensures
        size_bytes(n).len() == 8,
{
    lemma_auto_spec_u64_to_from_le_bytes();
}

pub proof fn lemma_framed_length(a: Seq<u8>)
    ensures
        framed(a).len() == 8 + a.len(),
{
    lemma_size_length(a.len() as int);
}

/// Framed bytes of the same length are told apart.
pub proof fn lemma_framed_binds(a: Seq<u8>, b: Seq<u8>)
    requires
        a.len() == b.len(),
        framed(a) == framed(b),
    ensures
        a == b,
{
    lemma_split(size_bytes(a.len() as int), a, size_bytes(b.len() as int), b);
}

/// Whether the items of two lists have encodings of the same lengths.
pub open spec fn same_lengths<T: Encode>(a: Seq<T>, b: Seq<T>) -> bool {
    &&& a.len() == b.len()
    &&& forall|i: int|
        0 <= i < a.len() ==> (#[trigger] a[i]).encoding().len() == b[i].encoding().len()
}

/// Lists of the same shape have encodings of the same length, and equal encodings only if their items
/// have.
pub proof fn lemma_list_binds<T: Encode>(a: Seq<T>, b: Seq<T>)
    requires
        same_lengths(a, b),
    ensures
        framed_encodings(a).len() == framed_encodings(b).len(),
        encodings(a).len() == encodings(b).len(),
        framed_encodings(a) == framed_encodings(b) ==> forall|i: int|
            0 <= i < a.len() ==> (#[trigger] a[i]).encoding() == b[i].encoding(),
        encodings(a) == encodings(b) ==> forall|i: int|
            0 <= i < a.len() ==> (#[trigger] a[i]).encoding() == b[i].encoding(),
    decreases a.len(),
{
    if a.len() > 0 {
        let ra = a.drop_last();
        let rb = b.drop_last();
        assert forall|i: int| 0 <= i < ra.len() implies (#[trigger] ra[i]).encoding().len()
            == rb[i].encoding().len() by {
            assert(a[i].encoding().len() == b[i].encoding().len());
        }
        lemma_list_binds(ra, rb);
        let x = a.last().encoding();
        let y = b.last().encoding();
        assert(a[a.len() - 1].encoding().len() == b[a.len() - 1].encoding().len());
        lemma_framed_length(x);
        lemma_framed_length(y);
        if framed_encodings(a) == framed_encodings(b) {
            lemma_split(framed_encodings(ra), framed(x), framed_encodings(rb), framed(y));
            lemma_framed_binds(x, y);
            assert forall|i: int| 0 <= i < a.len() implies (#[trigger] a[i]).encoding()
                == b[i].encoding() by {
                if i < a.len() - 1 {
                    assert(ra[i].encoding() == rb[i].encoding());
                }
            }
        }
        if encodings(a) == encodings(b) {
            lemma_split(encodings(ra), x, encodings(rb), y);
            assert forall|i: int| 0 <= i < a.len() implies (#[trigger] a[i]).encoding()
                == b[i].encoding() by {
                if i < a.len() - 1 {
                    assert(ra[i].encoding() == rb[i].encoding());
                }
            }
        }
    }
}

/// What is said of a list of items: their number, and each behind its length.
pub open spec fn list_line<T: Encode>(items: Seq<T>) -> Seq<u8> {
    size_bytes(items.len() as int) + framed_encodings(items)
}

/// The same for elements of the first group: equal lines are said of the same elements.
pub proof fn lemma_g1_list_binds(a: Seq<G1>, b: Seq<G1>)
    requires
        codes_are_faithful(),
        a.len() == b.len(),
    ensures
        list_line(a).len() == list_line(b).len(),
        list_line(a) == list_line(b) ==> vals(a) == vals(b),
{
    assert forall|i: int| 0 <= i < a.len() implies (#[trigger] a[i]).encoding().len()
        == b[i].encoding().len() by {
        lemma_g1_range(a[i]);
        lemma_g1_range(b[i]);
        assert(g1_code()(a[i]@).len() == g1_code()(b[i]@).len());
    }
    lemma_list_binds(a, b);
    lemma_size_length(a.len() as int);
    if list_line(a) == list_line(b) {
        lemma_split(
            size_bytes(a.len() as int),
            framed_encodings(a),
            size_bytes(b.len() as int),
            framed_encodings(b),
        );
        assert forall|i: int| 0 <= i < a.len() implies #[trigger] vals(a)[i] == vals(b)[i] by {
            assert(a[i].encoding() == b[i].encoding());
            lemma_g1_range(a[i]);
            lemma_g1_range(b[i]);
            assert(g1_code()(a[i]@) == g1_code()(b[i]@));
        }
        assert(vals(a) =~= vals(b));
    }
}

/// The same for values and their codes.
pub open spec fn value_line(values: Seq<int>, code: spec_fn(int) -> Seq<u8>) -> Seq<u8> {
    size_bytes(values.len() as int) + framed_joined(values, code)
}

/// Whether all values are reduced.
pub open spec fn are_reduced(values: Seq<int>) -> bool {
    forall|i: int| 0 <= i < values.len() ==> 0 <= #[trigger] values[i] < modulus()
}

/// Equal lines are said of the same values.
pub proof fn lemma_values_bind(a: Seq<int>, b: Seq<int>, code: spec_fn(int) -> Seq<u8>)
    requires
        is_faithful(code),
        a.len() == b.len(),
        are_reduced(a),
        are_reduced(b),
    ensures
        value_line(a, code).len() == value_line(b, code).len(),
        joined(a, code).len() == joined(b, code).len(),
        value_line(a, code) == value_line(b, code) ==> a == b,
        joined(a, code) == joined(b, code) ==> a == b,
    decreases a.len(),
{
    lemma_size_length(a.len() as int);
    if a.len() > 0 {
        let ra = a.drop_last();
        let rb = b.drop_last();
        let x = a.last();
        let y = b.last();
        assert(0 <= a[a.len() - 1] < modulus() && 0 <= b[a.len() - 1] < modulus());
        assert forall|i: int| 0 <= i < ra.len() implies 0 <= #[trigger] ra[i] < modulus() by {
            assert(0 <= a[i] < modulus());
        }
        assert forall|i: int| 0 <= i < rb.len() implies 0 <= #[trigger] rb[i] < modulus() by {
            assert(0 <= b[i] < modulus());
        }
        lemma_values_bind(ra, rb, code);
        lemma_size_length(ra.len() as int);
        lemma_framed_length(code(x));
        lemma_framed_length(code(y));
        assert(code(x).len() == code(y).len());
        if value_line(a, code) == value_line(b, code) {
            lemma_split(
                size_bytes(a.len() as int),
                framed_joined(a, code),
                size_bytes(b.len() as int),
                framed_joined(b, code),
            );
            lemma_split(framed_joined(ra, code), framed(code(x)), framed_joined(rb, code), framed(
                code(y),
            ));
            lemma_framed_binds(code(x), code(y));
            assert(ra == rb);
            assert(a =~= ra.push(x));
            assert(b =~= rb.push(y));
        }
        if joined(a, code) == joined(b, code) {
            lemma_split(joined(ra, code), code(x), joined(rb, code), code(y));
            assert(a =~= ra.push(x));
            assert(b =~= rb.push(y));
        }
    } else {
        assert(a =~= b);
    }
}

/// One line more.
proof fn lemma_said_push(d: Seq<u8>, lines: Seq<(Seq<u8>, Seq<u8>)>, line: (Seq<u8>, Seq<u8>))
    ensures
        said(d, lines.push(line)) == said(d, lines) + (framed(line.0) + line.1),
{
    assert(lines.push(line).drop_last() =~= lines);
}

/// A new transcript has its domain and no lines.
pub proof fn law_new_transcript(domain: &str, t: Transcript)
    requires
        call_ensures(Transcript::new, (domain,), t),
    ensures
        t@ == said(domain.spec_bytes(), Seq::empty()),
{
}

/// A label is appended behind its length.
pub proof fn law_append_label(t: &mut Transcript, label: &str)
    requires
        call_ensures(Transcript::append_label, (t, label), ()),
    ensures
        final(t)@ == old(t)@ + (size_bytes(label.spec_bytes().len() as int) + label.spec_bytes()),
{
}

/// A number is a line of eight bytes.
pub proof fn law_append_usize(
    t: &mut Transcript,
    label: &str,
    value: usize,
    d: Seq<u8>,
    lines: Seq<(Seq<u8>, Seq<u8>)>,
)
    requires
        old(t)@ == said(d, lines),
        call_ensures(Transcript::append_usize, (t, label, value), ()),
    ensures
        final(t)@ == said(d, lines.push((label.spec_bytes(), size_bytes(value as int)))),
{
    lemma_said_push(d, lines, (label.spec_bytes(), size_bytes(value as int)));
}

/// Bytes are a line behind their length.
pub proof fn law_append_bytes(
    t: &mut Transcript,
    label: &str,
    bytes: &[u8],
    d: Seq<u8>,
    lines: Seq<(Seq<u8>, Seq<u8>)>,
)
    requires
        old(t)@ == said(d, lines),
        call_ensures(Transcript::append_bytes, (t, label, bytes), ()),
    ensures
        final(t)@ == said(d, lines.push((label.spec_bytes(), framed(bytes@)))),
{
    lemma_said_push(d, lines, (label.spec_bytes(), framed(bytes@)));
}

/// A value is a line with its encoding behind its length.
pub proof fn law_append_value<T: Encode>(
    t: &mut Transcript,
    label: &str,
    value: T,
    d: Seq<u8>,
    lines: Seq<(Seq<u8>, Seq<u8>)>,
)
    requires
        old(t)@ == said(d, lines),
        call_ensures(Transcript::append_serializable::<T>, (t, label, &value), ()),
    ensures
        final(t)@ == said(d, lines.push((label.spec_bytes(), framed(value.encoding())))),
{
    lemma_said_push(d, lines, (label.spec_bytes(), framed(value.encoding())));
}

/// A list is a line with the number of values and each encoding behind its length.
pub proof fn law_append_values<T: Encode>(
    t: &mut Transcript,
    label: &str,
    values: Vec<T>,
    d: Seq<u8>,
    lines: Seq<(Seq<u8>, Seq<u8>)>,
)
    requires
        old(t)@ == said(d, lines),
        call_ensures(Transcript::append_serializable_slice::<T>, (t, label, &values), ()),
    ensures
        final(t)@ == said(d, lines.push((label.spec_bytes(), list_line(values@)))),
{
    lemma_said_push(d, lines, (label.spec_bytes(), list_line(values@)));
    let x = framed(label.spec_bytes());
    let y = size_bytes(values@.len() as int);
    let z = framed_encodings(values@);
    assert(old(t)@ + (x + y + z) =~= old(t)@ + (x + (y + z)));
}

/// The digest is the hash of all that was said, and the challenge is the number that it stands for,
/// lowest byte first, reduced.
pub proof fn law_digest_and_challenge(
    t: Transcript,
    digest: [u8; 32],
    challenge: Scalar,
)
    requires
        call_ensures(Transcript::finalize, (t,), digest),
        call_ensures(Transcript::challenge, (t,), challenge),
    ensures
        digest@ == sha256(t@),
        challenge@ == le_value(digest@) % modulus(),
{
}

} // verus!
