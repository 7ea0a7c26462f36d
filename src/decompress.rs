//! The LZNT1 decoder: a stream of chunks, each raw or made of tag groups.
use crate::adaptive::{adaptive_state_wf, split_for, update_adaptive_state, lemma_split_monotone};
use crate::error::DecompressionError;
use crate::format::{
    header_is_compressed, header_size, le16, read_u16_le, tuple_length, tuple_offset, unpack_tuple,
};
use vstd::prelude::*;
use vstd::slice::slice_subrange;

verus! {

/// Number of tokens governed by one tag byte.
pub const TAG_GROUP_SIZE: usize = 8;

/// Whether token `k` of a tag group is a back-reference.
pub open spec fn tag_bit(tag: u8, k: int) -> bool {
    (tag >> (k as u8)) & 1u8 != 0
}

/// `out` extended by a back-reference of `length` bytes at distance `offset`,
/// copied one byte at a time so that the copy may overlap what it produces.
pub open spec fn copy_match(out: Seq<u8>, offset: int, length: nat) -> Seq<u8>
    decreases length,
{
    if length == 0 {
        out
    } else {
        copy_match(out.push(out[out.len() - offset]), offset, (length - 1) as nat)
    }
}

/// Decoding of a compressed chunk body from position `i`, where token `k` of
/// the group under `tag` comes next (`k == 8`: a tag byte comes next) and the
/// chunk has produced `out` so far.
pub open spec fn decode_tokens(body: Seq<u8>, i: nat, tag: u8, k: nat, out: Seq<u8>) -> Result<
    Seq<u8>,
    DecompressionError,
>
    decreases body.len() - i, 8 - k,
{
    if k >= 8 {
        if i >= body.len() {
            Ok(out)
        } else {
            decode_tokens(body, i + 1, body[i as int], 0, out)
        }
    } else if !tag_bit(tag, k as int) {
        if i >= body.len() {
            Ok(out)
        } else {
            let o2 = out.push(body[i as int]);
            if i + 1 >= body.len() {
                Ok(o2)
            } else {
                decode_tokens(body, i + 1, tag, k + 1, o2)
            }
        }
    } else if i + 2 > body.len() {
        Err(DecompressionError::UnexpectedEof)
    } else {
        let v = le16(body[i as int], body[i + 1int]);
        let s = split_for(out.len() as int);
        let offset = tuple_offset(v, s);
        let length = tuple_length(v, s);
        if offset > out.len() {
            Err(DecompressionError::InvalidOffset)
        } else {
            let o2 = copy_match(out, offset, length as nat);
            if i + 2 >= body.len() {
                Ok(o2)
            } else {
                decode_tokens(body, (i + 2) as nat, tag, k + 1, o2)
            }
        }
    }
}

/// What a compressed chunk body decodes to.
pub open spec fn decode_block(body: Seq<u8>) -> Result<Seq<u8>, DecompressionError> {
    decode_tokens(body, 0, 0, 8, Seq::empty())
}

/// `p` in front of a decoding result.
pub open spec fn prepend(p: Seq<u8>, r: Result<Seq<u8>, DecompressionError>) -> Result<
    Seq<u8>,
    DecompressionError,
> {
    match r {
        Ok(s) => Ok(p + s),
        Err(e) => Err(e),
    }
}

/// What the body of a chunk under header `h` decodes to.
pub open spec fn chunk_result(h: int, body: Seq<u8>) -> Result<Seq<u8>, DecompressionError> {
    if header_is_compressed(h) {
        decode_block(body)
    } else {
        Ok(body)
    }
}

/// What a whole stream decodes to.
pub open spec fn decompressed(input: Seq<u8>) -> Result<Seq<u8>, DecompressionError>
    decreases input.len(),
{
    if input.len() == 0 {
        Ok(Seq::empty())
    } else if input.len() == 1 && input[0] == 0 {
        Ok(Seq::empty())
    } else if input.len() < 2 {
        Err(DecompressionError::UnexpectedEof)
    } else {
        let h = le16(input[0], input[1]);
        if h == 0 {
            Ok(Seq::empty())
        } else if 2 + header_size(h) > input.len() {
            Err(DecompressionError::InputTooShort)
        } else {
            match chunk_result(h, input.subrange(2, 2 + header_size(h))) {
                Ok(c) => prepend(c, decompressed(input.skip(2 + header_size(h)))),
                Err(e) => Err(e),
            }
        }
    }
}

/// Decompresses an entire LZNT1 stream, appending what it decodes to `output`.
///
/// On success the appended bytes are exactly `decompressed(input@)`; on
/// failure the error is the one `decompressed` gives, and `output` keeps its
/// old contents as a prefix.
pub fn decompress(input: &[u8], output: &mut Vec<u8>) -> (r: Result<(), DecompressionError>)
    ensures
        final(output)@.len() >= old(output)@.len(),
        final(output)@.subrange(0, old(output)@.len() as int) == old(output)@,
        match r {
            Ok(()) => decompressed(input@) == Ok::<Seq<u8>, DecompressionError>(
                final(output)@.skip(old(output)@.len() as int),
            ),
            Err(e) => decompressed(input@) == Err::<Seq<u8>, DecompressionError>(e),
        },
{
    output.reserve(input.len());
    let base = output.len();
    let mut in_pos: usize = 0;
    let end = input.len();
    proof {
        assert(input@.skip(0) == input@);
        assert(output@.skip(base as int) =~= Seq::<u8>::empty());
        assert(Seq::<u8>::empty() + input@ =~= input@);
    }
    while in_pos < end
        invariant
            end == input@.len(),
            in_pos <= end,
            base == old(output)@.len(),
            output@.len() >= base,
            output@.subrange(0, base as int) == old(output)@,
            decompressed(input@) == prepend(
                output@.skip(base as int),
                decompressed(input@.skip(in_pos as int)),
            ),
        decreases end - in_pos,
    {
        let ghost rest = input@.skip(in_pos as int);
        let ghost done = output@.skip(base as int);
        if end - in_pos == 1 && input[in_pos] == 0 {
            assert(done + Seq::<u8>::empty() =~= done);
            return Ok(());
        }
        if end - in_pos < 2 {
            return Err(DecompressionError::UnexpectedEof);
        }
        let header = read_u16_le(input, in_pos);
        assert(header as int == le16(rest[0], rest[1]));
        in_pos += 2;
        if header == 0 {
            assert(done + Seq::<u8>::empty() =~= done);
            return Ok(());
        }
        assert((header & 0x0FFF) == header % 4096 && (header & 0x0FFF) <= 0x0FFF) by (bit_vector);
        let size = ((header & 0x0FFF) + 1) as usize;
        let is_compressed = (header & 0x8000) != 0;
        assert(((header & 0x8000) != 0) == (header >= 0x8000)) by (bit_vector);
        if size > end - in_pos {
            return Err(DecompressionError::InputTooShort);
        }
        let block_slice = slice_subrange(input, in_pos, in_pos + size);
        assert(block_slice@ == rest.subrange(2, 2 + size as int));
        assert(input@.skip((in_pos + size) as int) =~= rest.skip(2 + size as int));
        let ghost before = output@;
        if is_compressed {
            let res = decompress_compressed_block(block_slice, output);
            match res {
                Ok(()) => {},
                Err(e) => {
                    proof {
                        assert(output@.subrange(0, base as int) =~= before.subrange(0, base as int));
                        assert(chunk_result(header as int, block_slice@) == Err::<Seq<u8>, DecompressionError>(e));
                    }
                    return Err(e);
                },
            }
        } else {
            let mut j: usize = 0;
            while j < size
                invariant
                    j <= size,
                    size == block_slice@.len(),
                    output@ == before + block_slice@.subrange(0, j as int),
                decreases size - j,
            {
                output.push(block_slice[j]);
                proof {
                    assert(before + block_slice@.subrange(0, j + 1) =~= (before + block_slice@.subrange(0, j as int)).push(block_slice@[j as int]));
                }
                j += 1;
            }
            assert(block_slice@.subrange(0, size as int) =~= block_slice@);
            assert(output@.skip(before.len() as int) =~= block_slice@);
        }
        proof {
            let c = output@.skip(before.len() as int);
            assert(output@ =~= before + c);
            assert(output@.subrange(0, base as int) =~= before.subrange(0, base as int));
            assert(output@.skip(base as int) =~= done + c);
            assert(header_size(header as int) == size);
            assert(rest.subrange(2, 2 + size as int) == block_slice@);
            assert(chunk_result(header as int, block_slice@) == Ok::<Seq<u8>, DecompressionError>(c));
            lemma_stream_step(rest, header as int, done, c);
        }
        in_pos += size;
    }
    proof {
        assert(input@.skip(end as int) =~= Seq::<u8>::empty());
        assert(output@.skip(base as int) + Seq::<u8>::empty() =~= output@.skip(base as int));
    }
    Ok(())
}

/// Decodes one compressed chunk body, appending its bytes to `output`.
fn decompress_compressed_block(input: &[u8], output: &mut Vec<u8>) -> (r: Result<(), DecompressionError>)
    ensures
        final(output)@.len() >= old(output)@.len(),
        final(output)@.subrange(0, old(output)@.len() as int) == old(output)@,
        match r {
            Ok(()) => decode_block(input@) == Ok::<Seq<u8>, DecompressionError>(
                final(output)@.skip(old(output)@.len() as int),
            ),
            Err(e) => decode_block(input@) == Err::<Seq<u8>, DecompressionError>(e),
        },
{
    let mut in_idx: usize = 0;
    let end = input.len();
    let mut split: usize = 12;
    let mut threshold: usize = 16;
    let start_out_len = output.len();
    assert(output@.skip(start_out_len as int) =~= Seq::<u8>::empty());
    while in_idx < end
        invariant
            end == input@.len(),
            in_idx <= end,
            start_out_len == old(output)@.len(),
            output@.len() >= start_out_len,
            output@.subrange(0, start_out_len as int) == old(output)@,
            adaptive_state_wf(split, threshold, output@.len() - start_out_len),
            decode_block(input@) == decode_tokens(
                input@,
                in_idx as nat,
                0,
                8,
                output@.skip(start_out_len as int),
            ),
        decreases end - in_idx,
    {
        let ghost group_start = in_idx;
        let tag_byte = input[in_idx];
        in_idx += 1;
        if tag_byte == 0 && end - in_idx >= TAG_GROUP_SIZE {
            let ghost before = output@;
            proof {
                assert forall|j: int| 0 <= j < 8 implies !tag_bit(0u8, j) by {
                    let jj = j as u8;
                    assert((0u8 >> jj) & 1u8 == 0u8) by (bit_vector);
                }
                lemma_literal_run(input@, in_idx as nat, 0, 0, before.skip(start_out_len as int));
            }
            let mut j: usize = 0;
            while j < TAG_GROUP_SIZE
                invariant
                    j <= 8,
                    in_idx + 8 <= end,
                    end == input@.len(),
                    output@ == before + input@.subrange(in_idx as int, in_idx + j),
                decreases 8 - j,
            {
                output.push(input[in_idx + j]);
                proof {
                    assert(before + input@.subrange(in_idx as int, in_idx + j + 1) =~= (before
                        + input@.subrange(in_idx as int, in_idx + j)).push(input@[in_idx + j]));
                }
                j += 1;
            }
            proof {
                assert(output@.subrange(0, start_out_len as int) =~= before.subrange(0, start_out_len as int));
                assert(output@.skip(start_out_len as int) =~= before.skip(start_out_len as int)
                    + input@.subrange(in_idx as int, in_idx + 8));
                lemma_split_monotone(before.len() - start_out_len, output@.len() - start_out_len);
            }
            in_idx += TAG_GROUP_SIZE;
            update_adaptive_state(output.len() - start_out_len, &mut threshold, &mut split);
            continue;
        }
        let mut i: usize = 0;
        while i < TAG_GROUP_SIZE
            invariant
                end == input@.len(),
                in_idx <= end,
                i <= 8,
                in_idx > group_start,
                start_out_len == old(output)@.len(),
                output@.len() >= start_out_len,
                output@.subrange(0, start_out_len as int) == old(output)@,
                adaptive_state_wf(split, threshold, output@.len() - start_out_len),
                decode_block(input@) == decode_tokens(
                    input@,
                    in_idx as nat,
                    tag_byte,
                    i as nat,
                    output@.skip(start_out_len as int),
                ),
            decreases 8 - i,
        {
            let ghost before = output@;
            let ghost chunk = before.skip(start_out_len as int);
            let is_link = (tag_byte >> (i as u8)) & 1 != 0;
            if is_link {
                if end - in_idx < 2 {
                    return Err(DecompressionError::UnexpectedEof);
                }
                let tuple = read_u16_le(input, in_idx);
                in_idx += 2;
                let (offset, length) = unpack_tuple(tuple, split);
                let res = apply_match(output, length, offset, start_out_len);
                match res {
                    Ok(()) => {},
                    Err(e) => {
                        return Err(e);
                    },
                }
                proof {
                    assert(output@.subrange(0, start_out_len as int) =~= before.subrange(0, start_out_len as int));
                }
            } else {
                if in_idx >= end {
                    assert(output@.skip(start_out_len as int) == chunk);
                    return Ok(());
                }
                output.push(input[in_idx]);
                in_idx += 1;
                proof {
                    assert(output@.subrange(0, start_out_len as int) =~= before.subrange(0, start_out_len as int));
                    assert(output@.skip(start_out_len as int) =~= chunk.push(input@[in_idx - 1]));
                }
            }
            proof {
                lemma_split_monotone(before.len() - start_out_len, output@.len() - start_out_len);
            }
            update_adaptive_state(output.len() - start_out_len, &mut threshold, &mut split);
            if in_idx >= end {
                return Ok(());
            }
            i += 1;
        }
        proof {
            lemma_group_end(input@, in_idx as nat, tag_byte, 0, output@.skip(start_out_len as int));
        }
    }
    Ok(())
}

/// Appends a back-reference of `length` bytes at distance `offset` to
/// `output`, whose current chunk began at `start`.
fn apply_match(output: &mut Vec<u8>, length: usize, offset: usize, start: usize) -> (r: Result<
    (),
    DecompressionError,
>)
    requires
        start <= old(output)@.len(),
        offset >= 1,
    ensures
        match r {
            Ok(()) => {
                &&& offset <= old(output)@.len() - start
                &&& final(output)@.len() >= start
                &&& final(output)@.subrange(0, start as int) == old(output)@.subrange(0, start as int)
                &&& final(output)@.skip(start as int) == copy_match(
                    old(output)@.skip(start as int),
                    offset as int,
                    length as nat,
                )
            },
            Err(e) => e == DecompressionError::InvalidOffset && offset > old(output)@.len() - start,
        },
        r is Ok ==> final(output)@.len() == old(output)@.len() + length,
        r is Err ==> final(output)@ == old(output)@,
{
    if offset > output.len() - start {
        return Err(DecompressionError::InvalidOffset);
    }
    output.reserve(length);
    let ghost first = output@;
    if offset == 1 {
        let last_byte = output[output.len() - 1];
        let mut k: usize = 0;
        while k < length
            invariant
                k <= length,
                output@.len() == first.len() + k,
                first.len() >= start + 1,
                output@.subrange(0, start as int) == first.subrange(0, start as int),
                output@[output@.len() - 1] == last_byte,
                copy_match(first.skip(start as int), 1, length as nat) == copy_match(
                    output@.skip(start as int),
                    1,
                    (length - k) as nat,
                ),
            decreases length - k,
        {
            let ghost cur = output@;
            output.push(last_byte);
            proof {
                assert(output@.skip(start as int) =~= cur.skip(start as int).push(
                    cur.skip(start as int)[cur.skip(start as int).len() - 1],
                ));
                assert(output@.subrange(0, start as int) =~= cur.subrange(0, start as int));
            }
            k += 1;
        }
    } else {
        let mut k: usize = 0;
        while k < length
            invariant
                k <= length,
                offset >= 1,
                output@.len() == first.len() + k,
                first.len() >= start + offset,
                output@.subrange(0, start as int) == first.subrange(0, start as int),
                copy_match(first.skip(start as int), offset as int, length as nat) == copy_match(
                    output@.skip(start as int),
                    offset as int,
                    (length - k) as nat,
                ),
            decreases length - k,
        {
            let ghost cur = output@;
            let val = output[output.len() - offset];
            output.push(val);
            proof {
                assert(output@.skip(start as int) =~= cur.skip(start as int).push(
                    cur.skip(start as int)[cur.skip(start as int).len() - offset],
                ));
                assert(output@.subrange(0, start as int) =~= cur.subrange(0, start as int));
            }
            k += 1;
        }
    }
    Ok(())
}

/// One chunk of a stream, decoded to `c`, moves from the rest of the input
/// to what has been produced.
proof fn lemma_stream_step(rest: Seq<u8>, h: int, done: Seq<u8>, c: Seq<u8>)
    requires
        rest.len() >= 2,
        h == le16(rest[0], rest[1]),
        h != 0,
        2 + header_size(h) <= rest.len(),
        chunk_result(h, rest.subrange(2, 2 + header_size(h))) == Ok::<Seq<u8>, DecompressionError>(c),
    ensures
        prepend(done, decompressed(rest)) == prepend(done + c, decompressed(rest.skip(2 + header_size(h)))),
{
    match decompressed(rest.skip(2 + header_size(h))) {
        Ok(t) => {
            assert((done + c) + t =~= done + (c + t));
        },
        Err(_) => {},
    }
}

/// Once a group is complete its tag byte no longer matters.
proof fn lemma_group_end(body: Seq<u8>, i: nat, t1: u8, t2: u8, out: Seq<u8>)
    ensures
        decode_tokens(body, i, t1, 8, out) == decode_tokens(body, i, t2, 8, out),
{
}

/// A run of literal tokens up to the end of a tag group appends the body
/// bytes as they stand.
proof fn lemma_literal_run(body: Seq<u8>, i: nat, tag: u8, k: nat, out: Seq<u8>)
    requires
        k <= 8,
        forall|j: int| k <= j < 8 ==> !tag_bit(tag, j),
        i + (8 - k) <= body.len(),
    ensures
        decode_tokens(body, i, tag, k, out) == decode_tokens(
            body,
            (i + 8 - k) as nat,
            tag,
            8,
            out + body.subrange(i as int, i + 8 - k),
        ),
    decreases 8 - k,
{
    if k == 8 {
        assert(out + body.subrange(i as int, i as int) =~= out);
    } else {
        let o2 = out.push(body[i as int]);
        if i + 1 >= body.len() {
            assert(out + body.subrange(i as int, i + 8 - k) =~= o2);
        } else {
            lemma_literal_run(body, i + 1, tag, k + 1, o2);
            assert(o2 + body.subrange(i + 1int, i + 8 - k) =~= out + body.subrange(i as int, i + 8 - k));
        }
    }
}

} // verus!
