//! 32-byte BLAKE3 digests and the length-framed, tagged digest used for
//! state commitments.

use vstd::prelude::*;
use vstd::bytes::{spec_u64_to_le_bytes, u64_to_le_bytes};
use vstd::utf8::encode_utf8;

verus! {

/// A BLAKE3 digest.
pub type B3 = [u8; 32];

/// What `blake3::hash` returns for the given input bytes.
pub uninterp spec fn blake3_digest(input: Seq<u8>) -> Seq<u8>;

/// `blake3::hash`: the 32-byte digest of `bytes`. The contract claims only that
/// the result is the digest that BLAKE3 assigns to exactly these bytes.
#[verifier::external_body]
pub fn b3(bytes: &[u8]) -> (r: B3)
    ensures
        r@ == blake3_digest(bytes@),
{
    *blake3::hash(bytes).as_bytes()
}

/// Each chunk framed by its length (8 bytes, little-endian) followed by its bytes.
pub open spec fn framed(chunks: Seq<Seq<u8>>) -> Seq<u8>
    decreases chunks.len(),
{
    if chunks.len() == 0 {
        Seq::empty()
    } else {
        framed(chunks.drop_last()) + spec_u64_to_le_bytes(chunks.last().len() as u64)
            + chunks.last()
    }
}

/// The bytes a tagged digest covers: the tag's UTF-8 bytes, then every chunk framed.
pub open spec fn combine_input(tag: Seq<char>, chunks: Seq<Seq<u8>>) -> Seq<u8> {
    encode_utf8(tag) + framed(chunks)
}

/// Appends `src` to `out`.
pub fn append_bytes(out: &mut Vec<u8>, src: &[u8])
    ensures
        final(out)@ == old(out)@ + src@,
{
    let mut i: usize = 0;
    while i < src.len()
        invariant
            i <= src@.len(),
            out@ == old(out)@ + src@.subrange(0, i as int),
        decreases src@.len() - i,
    {
        out.push(src[i]);
        i = i + 1;
        assert(out@ =~= old(out)@ + src@.subrange(0, i as int));
    }
    assert(src@.subrange(0, src@.len() as int) =~= src@);
}

/// A domain-separated digest of `chunks` under `tag`; each chunk is prefixed by
/// its length, so different splits of the same bytes give different inputs.
pub fn combine(tag: &str, chunks: &[&[u8]]) -> (r: B3)
    ensures
        r@ == blake3_digest(combine_input(tag@, chunks@.map_values(|c: &[u8]| c@))),
{
    let ghost views = chunks@.map_values(|c: &[u8]| c@);
    let mut input: Vec<u8> = Vec::new();
    append_bytes(&mut input, tag.as_bytes());
    let mut i: usize = 0;
    assert(views.subrange(0, 0) =~= Seq::<Seq<u8>>::empty());
    while i < chunks.len()
        invariant
            i <= chunks@.len(),
            views == chunks@.map_values(|c: &[u8]| c@),
            input@ == encode_utf8(tag@) + framed(views.subrange(0, i as int)),
        decreases chunks@.len() - i,
    {
        let c: &[u8] = chunks[i];
        let len_bytes = u64_to_le_bytes(c.len() as u64);
        append_bytes(&mut input, len_bytes.as_slice());
        append_bytes(&mut input, c);
        proof {
            let next = views.subrange(0, i + 1);
            assert(next.drop_last() =~= views.subrange(0, i as int));
            assert(next.last() == c@);
            assert(input@ =~= encode_utf8(tag@) + framed(next));
        }
        i = i + 1;
    }
    assert(views.subrange(0, chunks@.len() as int) =~= views);
    b3(input.as_slice())
}

/// The digest of a single-chunk commitment under `tag`, as `combine(tag, &[bytes])`.
pub fn combine_one(tag: &str, bytes: &[u8]) -> (r: B3)
    ensures
        r@ == blake3_digest(combine_input(tag@, seq![bytes@])),
{
    let chunks: [&[u8]; 1] = [bytes];
    let s: &[&[u8]] = chunks.as_slice();
    assert(s@.map_values(|c: &[u8]| c@) =~= seq![bytes@]);
    combine(tag, s)
}

/// What `hex::encode` returns: two lowercase hexadecimal digits per byte, high nibble first.
pub open spec fn hex_lower(bytes: Seq<u8>) -> Seq<char>
    decreases bytes.len(),
{
    if bytes.len() == 0 {
        Seq::empty()
    } else {
        hex_lower(bytes.drop_last()) + seq![hex_digit(bytes.last() / 16), hex_digit(bytes.last() % 16)]
    }
}

/// The lowercase hexadecimal digit for a value below 16.
pub open spec fn hex_digit(v: u8) -> char {
    if v < 10 {
        (('0' as u8) + v) as char
    } else {
        (('a' as u8) + v - 10) as char
    }
}

/// `hex::encode` on a digest: the lowercase hexadecimal text of its bytes.
#[verifier::external_body]
pub fn hex_encode(bytes: &B3) -> (r: String)
    ensures
        r@ == hex_lower(bytes@),
{
    hex::encode(bytes)
}

} // verus!
