//! Properties of the codec as a whole.
use crate::decompress::{chunk_result, copy_match, decode_block, decode_tokens, decompressed, tag_bit};
use crate::error::DecompressionError;
use crate::format::{header_is_compressed, header_size, header_value, le16};
use crate::stream::{frame_len, lemma_stream_decodes, next_chunk_len, stream_encodes};
use vstd::prelude::*;

verus! {

/// Compressing twice and decompressing twice gives back the input: the
/// outer stream decodes to the inner one, and that to the input.
pub proof fn lemma_recompress_round_trip(x: Seq<u8>, c1: Seq<u8>, c2: Seq<u8>)
    requires
        stream_encodes(c1, x),
        stream_encodes(c2, c1),
    ensures
        decompressed(c2) == Ok::<Seq<u8>, DecompressionError>(c1),
        decompressed(c1) == Ok::<Seq<u8>, DecompressionError>(x),
{
    lemma_stream_decodes(c1, x);
    lemma_stream_decodes(c2, c1);
}

/// For an input of 1 to 4096 bytes the stream is a single frame. When that
/// frame is raw it is exactly the input behind the header
/// `0x3000 | (n - 1)`, `n + 2` bytes in all; when it is compressed it is
/// shorter than that.
pub proof fn lemma_single_chunk_shape(c: Seq<u8>, x: Seq<u8>)
    requires
        stream_encodes(c, x),
        1 <= x.len() <= 4096,
    ensures
        c.len() >= 2,
        !header_is_compressed(le16(c[0], c[1])) ==> {
            &&& c.len() == x.len() + 2
            &&& le16(c[0], c[1]) == header_value(false, x.len() as int)
            &&& c.skip(2) == x
        },
        header_is_compressed(le16(c[0], c[1])) ==> c.len() < x.len() + 2,
{
    let fl = frame_len(c);
    assert(next_chunk_len(x.len() as int) == x.len());
    assert(x.take(x.len() as int) =~= x);
    assert(x.skip(x.len() as int) =~= Seq::<u8>::empty());
    assert(stream_encodes(c.skip(fl), x.skip(x.len() as int)));
    assert(c.skip(fl).len() == 0);
    assert(c.take(fl) =~= c);
}

proof fn lemma_tokens_total(body: Seq<u8>, i: nat, tag: u8, k: nat, out: Seq<u8>)
    ensures
        decode_tokens(body, i, tag, k, out) != Err::<Seq<u8>, DecompressionError>(DecompressionError::InvalidHeader),
    decreases body.len() - i, 8 - k,
{
    if k >= 8 {
        if i < body.len() {
            lemma_tokens_total(body, i + 1, body[i as int], 0, out);
        }
    } else if !tag_bit(tag, k as int) {
        if i + 1 < body.len() {
            lemma_tokens_total(body, i + 1, tag, k + 1, out.push(body[i as int]));
        }
    } else if i + 2 < body.len() {
        let v = le16(body[i as int], body[i + 1int]);
        let s = crate::adaptive::split_for(out.len() as int);
        let offset = crate::format::tuple_offset(v, s);
        let length = crate::format::tuple_length(v, s);
        if offset <= out.len() {
            lemma_tokens_total(body, (i + 2) as nat, tag, k + 1, copy_match(out, offset, length as nat));
        }
    }
}

/// Decoding any byte sequence ends, either with the decoded bytes or with
/// one of the errors that a malformed stream raises; the reserved
/// `InvalidHeader` never comes.
pub proof fn lemma_decompress_total(input: Seq<u8>)
    ensures
        decompressed(input) != Err::<Seq<u8>, DecompressionError>(DecompressionError::InvalidHeader),
    decreases input.len(),
{
    if input.len() >= 2 {
        let h = le16(input[0], input[1]);
        if h != 0 && 2 + header_size(h) <= input.len() {
            let body = input.subrange(2, 2 + header_size(h));
            lemma_tokens_total(body, 0, 0, 8, Seq::empty());
            lemma_decompress_total(input.skip(2 + header_size(h)));
            assert(decode_block(body) == decode_tokens(body, 0, 0, 8, Seq::empty()));
            assert(chunk_result(h, body) != Err::<Seq<u8>, DecompressionError>(DecompressionError::InvalidHeader));
        }
    }
}

} // verus!
