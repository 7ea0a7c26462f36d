//! What a compressed stream is: a sequence of chunk frames, each standing
//! for the next 4096 bytes of the input (or what is left of it).
use crate::decompress::{chunk_result, decode_block, decompressed, prepend};
use crate::error::DecompressionError;
use crate::format::{header_is_compressed, header_size, header_value, le16};
use vstd::prelude::*;

verus! {

/// Length of the frame at the start of `c`: header and declared body.
pub open spec fn frame_len(c: Seq<u8>) -> int {
    2 + header_size(le16(c[0], c[1]))
}

/// Whether the frame `c` stands for the bytes `x`: either raw, with `x` as
/// its body, or compressed to a body strictly shorter than `x` that decodes
/// to `x`.
pub open spec fn frame_encodes(c: Seq<u8>, x: Seq<u8>) -> bool {
    &&& c.len() >= 2
    &&& 1 <= x.len() <= 4096
    &&& {
        let h = le16(c[0], c[1]);
        let body = c.skip(2);
        ||| (h == header_value(false, x.len() as int) && body == x)
        ||| (h == header_value(true, body.len() as int) && 1 <= body.len() < x.len() && decode_block(body)
            == Ok::<Seq<u8>, DecompressionError>(x))
    }
}

/// Number of input bytes the next frame stands for.
pub open spec fn next_chunk_len(n: int) -> int {
    if n < 4096 {
        n
    } else {
        4096
    }
}

/// Whether `c` is a stream of frames that stands for `x`, chunk by chunk.
pub open spec fn stream_encodes(c: Seq<u8>, x: Seq<u8>) -> bool
    decreases x.len(),
{
    if x.len() == 0 {
        c.len() == 0
    } else {
        &&& c.len() >= 2
        &&& frame_len(c) <= c.len()
        &&& frame_encodes(c.take(frame_len(c)), x.take(next_chunk_len(x.len() as int)))
        &&& stream_encodes(c.skip(frame_len(c)), x.skip(next_chunk_len(x.len() as int)))
    }
}

/// Whether `c` splits exactly into `k` frames, each of which decodes on its own.
pub open spec fn chunk_frames(c: Seq<u8>, k: nat) -> bool
    decreases k,
{
    if k == 0 {
        c.len() == 0
    } else {
        &&& c.len() >= 2
        &&& frame_len(c) <= c.len()
        &&& decompressed(c.take(frame_len(c))) is Ok
        &&& chunk_frames(c.skip(frame_len(c)), (k - 1) as nat)
    }
}

/// A frame built for `x` declares its own length.
proof fn lemma_frame_len(c: Seq<u8>, x: Seq<u8>)
    requires
        frame_encodes(c, x),
    ensures
        frame_len(c) == c.len(),
        le16(c[0], c[1]) != 0,
        header_is_compressed(le16(c[0], c[1])) <==> le16(c[0], c[1]) != header_value(false, x.len() as int),
{
}

/// A frame appended to a stream of whole chunks extends what it stands for.
pub proof fn lemma_append_frame(c: Seq<u8>, x: Seq<u8>, f: Seq<u8>, y: Seq<u8>)
    requires
        stream_encodes(c, x),
        x.len() % 4096 == 0,
        frame_encodes(f, y),
    ensures
        stream_encodes(c + f, x + y),
    decreases x.len(),
{
    lemma_frame_len(f, y);
    if x.len() == 0 {
        assert(c + f =~= f);
        assert(x + y =~= y);
        assert(f.take(f.len() as int) =~= f);
        assert(y.take(y.len() as int) =~= y);
        assert(f.skip(f.len() as int) =~= Seq::<u8>::empty());
        assert(y.skip(y.len() as int) =~= Seq::<u8>::empty());
        assert(next_chunk_len(y.len() as int) == y.len());
        assert(stream_encodes(f.skip(f.len() as int), y.skip(y.len() as int)));
    } else {
        let fl = frame_len(c);
        let cf = c + f;
        let xy = x + y;
        assert(x.len() >= 4096);
        assert(next_chunk_len(x.len() as int) == 4096);
        assert(next_chunk_len(xy.len() as int) == 4096);
        assert(cf[0] == c[0] && cf[1] == c[1]);
        assert(frame_len(cf) == fl);
        assert(cf.take(fl) =~= c.take(fl));
        assert(xy.take(4096) =~= x.take(4096));
        assert(cf.skip(fl) =~= c.skip(fl) + f);
        assert(xy.skip(4096) =~= x.skip(4096) + y);
        lemma_append_frame(c.skip(fl), x.skip(4096), f, y);
        assert(frame_encodes(cf.take(fl), xy.take(4096)));
        assert(stream_encodes(cf.skip(fl), xy.skip(4096)));
    }
}

/// Decoding a stream that stands for `x` gives `x`. As `compress` appends
/// such a stream for its input, decompressing what it produced gives the
/// input back.
pub proof fn lemma_stream_decodes(c: Seq<u8>, x: Seq<u8>)
    requires
        stream_encodes(c, x),
    ensures
        decompressed(c) == Ok::<Seq<u8>, DecompressionError>(x),
    decreases x.len(),
{
    if x.len() == 0 {
        assert(x =~= Seq::<u8>::empty());
    } else {
        let fl = frame_len(c);
        let n = next_chunk_len(x.len() as int);
        let f = c.take(fl);
        lemma_frame_len(f, x.take(n));
        assert(f[0] == c[0] && f[1] == c[1]);
        let h = le16(c[0], c[1]);
        assert(h != 0);
        assert(c.subrange(2, 2 + header_size(h)) =~= f.skip(2));
        lemma_stream_decodes(c.skip(fl), x.skip(n));
        assert(chunk_result(h, c.subrange(2, 2 + header_size(h))) == Ok::<Seq<u8>, DecompressionError>(x.take(n)));
        assert(x.take(n) + x.skip(n) =~= x);
        assert(prepend(x.take(n), decompressed(c.skip(fl))) == Ok::<Seq<u8>, DecompressionError>(x));
    }
}

/// A single frame is a stream of its own.
proof fn lemma_frame_alone(f: Seq<u8>, y: Seq<u8>)
    requires
        frame_encodes(f, y),
    ensures
        stream_encodes(f, y),
{
    lemma_append_frame(Seq::empty(), Seq::empty(), f, y);
    assert(Seq::<u8>::empty() + f =~= f);
    assert(Seq::<u8>::empty() + y =~= y);
}

/// A stream for `x` is made of one independently decodable frame per
/// started 4096 bytes of `x`.
pub proof fn lemma_stream_frames(c: Seq<u8>, x: Seq<u8>)
    requires
        stream_encodes(c, x),
    ensures
        chunk_frames(c, ((x.len() + 4095) / 4096) as nat),
    decreases x.len(),
{
    if x.len() > 0 {
        let fl = frame_len(c);
        let n = next_chunk_len(x.len() as int);
        lemma_frame_alone(c.take(fl), x.take(n));
        lemma_stream_decodes(c.take(fl), x.take(n));
        lemma_stream_frames(c.skip(fl), x.skip(n));
        assert((x.len() + 4095) / 4096 - 1 == (x.skip(n).len() + 4095) / 4096);
    }
}

} // verus!
