//! Fingerprints of prefixes: SHA-256 over length-prefixed chunks.

use vstd::prelude::*;
use vstd::utf8::*;

use crate::text;
use crate::text::write_decimal;

verus! {

/// The SHA-256 digest of a row of bytes, as `sha2::Sha256::digest` computes it.
pub uninterp spec fn sha256_digest(bytes: Seq<u8>) -> Seq<u8>;

/// Calls `sha2::Sha256::digest`. The result is named by [`sha256_digest`]; nothing more is
/// claimed of it.
#[verifier::external_body]
fn sha256(bytes: &[u8]) -> (digest: [u8; 32])
    ensures
        digest@ == sha256_digest(bytes@),
{
    <sha2::Sha256 as sha2::Digest>::digest(bytes).into()
}

/// A chunk as it is hashed: the number of its bytes in decimal, a zero byte, its bytes, a
/// zero byte.
pub open spec fn frame(chunk: Seq<char>) -> Seq<u8> {
    encode_utf8(text::decimal(encode_utf8(chunk).len())) + seq![0u8] + encode_utf8(chunk) + seq![0u8]
}

/// A row of chunks as it is hashed.
pub open spec fn frames(chunks: Seq<Seq<char>>) -> Seq<u8>
    decreases chunks.len(),
{
    if chunks.len() == 0 {
        Seq::empty()
    } else {
        frames(chunks.drop_last()) + frame(chunks.last())
    }
}

/// The fingerprint of a row of chunks.
pub open spec fn fingerprint_of(chunks: Seq<Seq<char>>) -> Seq<u8> {
    sha256_digest(frames(chunks))
}

/// Appends bytes.
fn push_bytes(bytes: &mut Vec<u8>, more: &[u8])
    ensures
        final(bytes)@ == old(bytes)@ + more@,
{
    let ghost start = bytes@;
    let mut i: usize = 0;
    proof {
        assert(start == start + more@.take(0));
    }
    while i < more.len()
        invariant
            i <= more.len(),
            bytes@ == start + more@.take(i as int),
        decreases more.len() - i,
    {
        bytes.push(more[i]);
        proof {
            assert(start + more@.take(i + 1) == (start + more@.take(i as int)).push(
                more@[i as int],
            ));
        }
        i += 1;
    }
    proof {
        assert(more@.take(i as int) == more@);
    }
}

/// Appends a chunk as it is hashed.
pub fn write_hash_chunk(bytes: &mut Vec<u8>, chunk: &str)
    ensures
        final(bytes)@ == old(bytes)@ + frame(chunk@),
{
    let ghost start = bytes@;
    let content: &[u8] = chunk.as_bytes();
    let length: String = write_decimal(content.len() as u64);
    push_bytes(bytes, length.as_str().as_bytes());
    bytes.push(0u8);
    push_bytes(bytes, content);
    bytes.push(0u8);
    proof {
        assert(bytes@ == start + frame(chunk@));
    }
}

/// Finds the fingerprint of what has been written.
pub fn fingerprint(bytes: &Vec<u8>) -> (digest: [u8; 32])
    ensures
        digest@ == sha256_digest(bytes@),
{
    sha256(bytes.as_slice())
}

/// Decimal digits stand for the number that they are written for.
pub proof fn lemma_decimal(n: nat)
    ensures
        text::decimal(n).len() > 0,
        forall|i: int| 0 <= i < text::decimal(n).len() ==> '0' <= #[trigger] text::decimal(n)[i] <= '9',
        text::number_of(text::decimal(n)) == n,
    decreases n,
{
    if n < 10 {
        let digits = text::decimal(n);
        assert(digits.drop_last() == Seq::<char>::empty());
        assert(text::number_of(digits.drop_last()) == 0);
        assert(text::digit_value(digits.last()) == n);
    } else {
        lemma_decimal(n / 10);
        let digits = text::decimal(n);
        assert(digits.drop_last() == text::decimal(n / 10));
        assert(text::digit_value(digits.last()) == n % 10);
    }
}

/// The bytes of a decimal number are not zero.
proof fn lemma_decimal_bytes(n: nat)
    ensures
        forall|i: int|
            0 <= i < encode_utf8(text::decimal(n)).len() ==> #[trigger] encode_utf8(text::decimal(n))[i] != 0,
{
    lemma_decimal(n);
    let digits = text::decimal(n);
    assert(is_ascii_chars(digits)) by {
        assert forall|i| 0 <= i < digits.len() implies '\0' <= #[trigger] digits[i] <= '\u{7f}' by {
            assert('0' <= digits[i] <= '9');
        }
    }
    is_ascii_chars_encode_utf8(digits);
    assert forall|i: int| 0 <= i < encode_utf8(digits).len() implies #[trigger] encode_utf8(
        digits,
    )[i] != 0 by {
        let c = digits[i];
        assert('0' <= c <= '9');
        assert(c as u8 == encode_utf8(digits)[i]);
    }
}

/// Rows of bytes without a zero that are followed by a zero are told apart by where the
/// zero stands.
proof fn lemma_first_zero(a: Seq<u8>, x: Seq<u8>, b: Seq<u8>, y: Seq<u8>)
    requires
        forall|i: int| 0 <= i < a.len() ==> #[trigger] a[i] != 0,
        forall|i: int| 0 <= i < b.len() ==> #[trigger] b[i] != 0,
        a + seq![0u8] + x == b + seq![0u8] + y,
    ensures
        a == b,
        x == y,
{
    let left = a + seq![0u8] + x;
    let right = b + seq![0u8] + y;
    if a.len() < b.len() {
        assert(left[a.len() as int] == 0);
        assert(right[a.len() as int] == b[a.len() as int]);
    }
    if b.len() < a.len() {
        assert(right[b.len() as int] == 0);
        assert(left[b.len() as int] == a[b.len() as int]);
    }
    assert forall|i: int| 0 <= i < a.len() implies a[i] == b[i] by {
        assert(left[i] == a[i]);
        assert(right[i] == b[i]);
    }
    assert(a == b);
    assert(left.len() == a.len() + 1 + x.len());
    assert(right.len() == b.len() + 1 + y.len());
    assert forall|i: int| 0 <= i < x.len() implies x[i] == y[i] by {
        assert(left[a.len() + 1 + i] == x[i]);
        assert(right[a.len() + 1 + i] == y[i]);
    }
    assert(x == y);
}

/// The first chunk and the rest can be read back from the hashed bytes.
proof fn lemma_frame_prefix(c: Seq<char>, x: Seq<u8>, d: Seq<char>, y: Seq<u8>)
    requires
        frame(c) + x == frame(d) + y,
    ensures
        c == d,
        x == y,
{
    let m = encode_utf8(c);
    let n = encode_utf8(d);
    let tail_c = m + seq![0u8] + x;
    let tail_d = n + seq![0u8] + y;
    let head_c = encode_utf8(text::decimal(m.len()));
    let head_d = encode_utf8(text::decimal(n.len()));
    assert(frame(c) + x =~= head_c + seq![0u8] + tail_c);
    assert(frame(d) + y =~= head_d + seq![0u8] + tail_d);
    lemma_decimal_bytes(m.len());
    lemma_decimal_bytes(n.len());
    lemma_first_zero(head_c, tail_c, head_d, tail_d);
    encode_utf8_decode_utf8(text::decimal(m.len()));
    encode_utf8_decode_utf8(text::decimal(n.len()));
    lemma_decimal(m.len());
    lemma_decimal(n.len());
    assert(m.len() == n.len());
    assert forall|i: int| 0 <= i < m.len() implies m[i] == n[i] by {
        assert(tail_c[i] == m[i]);
        assert(tail_d[i] == n[i]);
    }
    assert(m == n);
    encode_utf8_decode_utf8(c);
    encode_utf8_decode_utf8(d);
    assert(tail_c.len() == m.len() + 1 + x.len());
    assert(tail_d.len() == n.len() + 1 + y.len());
    assert forall|i: int| 0 <= i < x.len() implies x[i] == y[i] by {
        assert(tail_c[m.len() + 1 + i] == x[i]);
        assert(tail_d[m.len() + 1 + i] == y[i]);
    }
    assert(x == y);
}

/// The hashed bytes of a row begin with those of its first chunk.
proof fn lemma_frames_first(chunks: Seq<Seq<char>>)
    requires
        chunks.len() > 0,
    ensures
        frames(chunks) == frame(chunks[0]) + frames(chunks.drop_first()),
    decreases chunks.len(),
{
    if chunks.len() == 1 {
        assert(chunks.drop_last() == Seq::<Seq<char>>::empty());
        assert(chunks.drop_first() == Seq::<Seq<char>>::empty());
        assert(frames(chunks.drop_last()) == Seq::<u8>::empty());
        assert(frames(chunks) =~= frame(chunks[0]) + frames(chunks.drop_first()));
    } else {
        lemma_frames_first(chunks.drop_last());
        assert(chunks.drop_last().drop_first() == chunks.drop_first().drop_last());
        assert(chunks.drop_first().last() == chunks.last());
        assert(frames(chunks) =~= frame(chunks[0]) + frames(chunks.drop_first()));
    }
}

/// Different rows of chunks are hashed over different bytes: where one chunk ends and the
/// next begins is never in doubt.
pub proof fn law_chunks_are_unambiguous(a: Seq<Seq<char>>, b: Seq<Seq<char>>)
    requires
        frames(a) == frames(b),
    ensures
        a == b,
    decreases a.len(),
{
    if a.len() > 0 {
        lemma_frames_first(a);
    }
    if b.len() > 0 {
        lemma_frames_first(b);
    }
    if a.len() > 0 && b.len() > 0 {
        lemma_frame_prefix(a[0], frames(a.drop_first()), b[0], frames(b.drop_first()));
        law_chunks_are_unambiguous(a.drop_first(), b.drop_first());
        assert(a == seq![a[0]] + a.drop_first());
        assert(b == seq![b[0]] + b.drop_first());
    } else {
        assert(a.len() == b.len());
        assert(a == b);
    }
}

/// A row of chunks is hashed chunk after chunk: each as the number of its bytes in decimal,
/// a zero byte, its bytes in UTF-8, and a zero byte. The fingerprint is the digest of all.
pub proof fn law_chunks_are_hashed_in_order(chunks: Seq<Seq<char>>, chunk: Seq<char>)
    ensures
        frames(Seq::empty()) == Seq::<u8>::empty(),
        frames(chunks.push(chunk)) == frames(chunks) + encode_utf8(
            text::decimal(encode_utf8(chunk).len()),
        ) + seq![0u8] + encode_utf8(chunk) + seq![0u8],
        fingerprint_of(chunks) == sha256_digest(frames(chunks)),
{
    assert(chunks.push(chunk).drop_last() =~= chunks);
    assert(frames(chunks.push(chunk)) =~= frames(chunks) + encode_utf8(
        text::decimal(encode_utf8(chunk).len()),
    ) + seq![0u8] + encode_utf8(chunk) + seq![0u8]);
}

/// One chunk is hashed as the number of its bytes in decimal, a zero byte, its bytes in
/// UTF-8, and a zero byte.
pub proof fn law_a_chunk_is_framed(chunk: Seq<char>)
    ensures
        ({
            let bytes = encode_utf8(chunk);
            let length = encode_utf8(text::decimal(bytes.len()));
            let framed = frame(chunk);
            &&& framed.len() == length.len() + bytes.len() + 2
            &&& framed.take(length.len() as int) == length
            &&& framed[length.len() as int] == 0
            &&& framed.subrange(length.len() as int + 1, framed.len() - 1) == bytes
            &&& framed.last() == 0
        }),
{
    let bytes = encode_utf8(chunk);
    let length = encode_utf8(text::decimal(bytes.len()));
    let framed = frame(chunk);
    assert(framed.take(length.len() as int) =~= length);
    assert(framed.subrange(length.len() as int + 1, framed.len() - 1) =~= bytes);
}

}
