//! The LZNT1 encoder: a hash-chain match finder over each 4 KiB chunk,
//! tokens gathered into tag groups, and a raw fallback for chunks that do
//! not shrink.
use crate::adaptive::{adaptive_state_wf, lemma_split_monotone, update_adaptive_state};
use crate::decompress::decode_block;
use crate::format::{
    encode_header, header_value, le16, pack_tuple, tuple_value, u16_le_bytes, write_u16_le, CHUNK_SIZE,
    HEADER_COMPRESSED, HEADER_RAW, MIN_MATCH,
};
use crate::stream::{frame_encodes, lemma_append_frame, stream_encodes};
use crate::tokens::{
    all_full, encode_groups, expand_from, expand_groups, group_bytes, group_enc, groups_wf,
    lemma_copy_match_extends, lemma_decode_encoded, lemma_push_group, lemma_push_token, tag_of, token_bytes,
    tokens_ok, Token,
};
use vstd::arithmetic::power2::{lemma2_to64, pow2};
use vstd::bits::lemma_u32_shl_is_mul;
use vstd::prelude::*;
use vstd::slice::slice_subrange;

verus! {

/// Absolute limit on the length of a match.
const MAX_MATCH: usize = 4098;

/// Number of hash-chain entries inspected per position.
const MAX_SEARCH_DEPTH: usize = 16;

/// Mask of the 12-bit hash.
const HASH_MASK: usize = 0xFFF;

/// An empty hash-table entry.
const EMPTY_ENTRY: u16 = 0xFFFF;

/// The tag group being filled: its tag byte, how many tokens it holds, and
/// their bytes.
struct TagAccumulator {
    tag_byte: u8,
    item_count: usize,
    buffer: Vec<u8>,
}

impl TagAccumulator {
    /// The accumulator holds the tokens `pend`, which follow chunk output `out`.
    spec fn holds(&self, out: Seq<u8>, pend: Seq<Token>) -> bool {
        &&& self.item_count == pend.len()
        &&& pend.len() <= 8
        &&& self.tag_byte == tag_of(pend)
        &&& self.buffer@ == group_bytes(out, pend)
    }

    fn new() -> (r: Self)
        ensures
            forall|out: Seq<u8>| r.holds(out, Seq::<Token>::empty()),
    {
        TagAccumulator { tag_byte: 0, item_count: 0, buffer: Vec::new() }
    }

    /// Adds a literal to the group, writing the group out once it is full.
    fn push_literal(&mut self, byte: u8, output: &mut Vec<u8>, Ghost(out): Ghost<Seq<u8>>, Ghost(pend): Ghost<Seq<Token>>)
        requires
            old(self).holds(out, pend),
            pend.len() < 8,
        ensures
            ({
                let grown = pend.push(Token::Literal(byte));
                if grown.len() == 8 {
                    &&& final(output)@ == old(output)@ + group_enc(out, grown)
                    &&& final(self).holds(expand_from(out, grown), Seq::<Token>::empty())
                } else {
                    &&& final(output)@ == old(output)@
                    &&& final(self).holds(out, grown)
                }
            }),
    {
        proof {
            lemma_push_token(out, pend, Token::Literal(byte));
        }
        self.buffer.push(byte);
        proof {
            assert(self.buffer@ =~= group_bytes(out, pend.push(Token::Literal(byte))));
        }
        self.commit_item(output, Ghost(out), Ghost(pend.push(Token::Literal(byte))));
    }

    /// Adds the back-reference `t`, packed as `tuple`, to the group.
    fn push_tuple(
        &mut self,
        tuple: u16,
        output: &mut Vec<u8>,
        Ghost(out): Ghost<Seq<u8>>,
        Ghost(pend): Ghost<Seq<Token>>,
        Ghost(t): Ghost<Token>,
    )
        requires
            old(self).holds(out, pend),
            pend.len() < 8,
            t is Reference,
            token_bytes(expand_from(out, pend).len() as int, t) == seq![
                (tuple as int % 256) as u8,
                (tuple as int / 256) as u8,
            ],
        ensures
            ({
                let grown = pend.push(t);
                if grown.len() == 8 {
                    &&& final(output)@ == old(output)@ + group_enc(out, grown)
                    &&& final(self).holds(expand_from(out, grown), Seq::<Token>::empty())
                } else {
                    &&& final(output)@ == old(output)@
                    &&& final(self).holds(out, grown)
                }
            }),
    {
        proof {
            lemma_push_token(out, pend, t);
        }
        self.tag_byte = self.tag_byte | (1u8 << (self.item_count as u8));
        let lo = (tuple & 0xFF) as u8;
        let hi = (tuple >> 8u16) as u8;
        assert(lo == (tuple as int % 256) as u8 && hi == (tuple as int / 256) as u8) by {
            assert((tuple & 0xFF) as u8 == (tuple % 256) as u8 && (tuple >> 8u16) as u8 == (tuple / 256) as u8)
                by (bit_vector);
        }
        self.buffer.push(lo);
        self.buffer.push(hi);
        proof {
            assert(self.buffer@ =~= group_bytes(out, pend.push(t)));
        }
        self.commit_item(output, Ghost(out), Ghost(pend.push(t)));
    }

    /// Counts the token just added, writing the group out once it is full.
    fn commit_item(&mut self, output: &mut Vec<u8>, Ghost(out): Ghost<Seq<u8>>, Ghost(grown): Ghost<Seq<Token>>)
        requires
            old(self).item_count + 1 == grown.len(),
            grown.len() <= 8,
            old(self).tag_byte == tag_of(grown),
            old(self).buffer@ == group_bytes(out, grown),
        ensures
            if grown.len() == 8 {
                &&& final(output)@ == old(output)@ + group_enc(out, grown)
                &&& final(self).holds(expand_from(out, grown), Seq::<Token>::empty())
            } else {
                &&& final(output)@ == old(output)@
                &&& final(self).holds(out, grown)
            },
    {
        self.item_count = self.item_count + 1;
        if self.item_count == 8 {
            self.flush(output, Ghost(out), Ghost(grown));
        }
    }

    /// Writes the group, if it holds any token, and empties the accumulator.
    fn flush(&mut self, output: &mut Vec<u8>, Ghost(out): Ghost<Seq<u8>>, Ghost(pend): Ghost<Seq<Token>>)
        requires
            old(self).holds(out, pend),
        ensures
            pend.len() > 0 ==> final(output)@ == old(output)@ + group_enc(out, pend),
            pend.len() == 0 ==> final(output)@ == old(output)@,
            final(self).holds(expand_from(out, pend), Seq::<Token>::empty()),
    {
        if self.item_count > 0 {
            let ghost before = output@;
            output.push(self.tag_byte);
            let mut j: usize = 0;
            while j < self.buffer.len()
                invariant
                    j <= self.buffer@.len(),
                    output@ == before + seq![self.tag_byte] + self.buffer@.take(j as int),
                decreases self.buffer@.len() - j,
            {
                output.push(self.buffer[j]);
                proof {
                    assert(before + seq![self.tag_byte] + self.buffer@.take(j + 1) =~= (before + seq![self.tag_byte]
                        + self.buffer@.take(j as int)).push(self.buffer@[j as int]));
                }
                j += 1;
            }
            proof {
                assert(self.buffer@.take(self.buffer@.len() as int) =~= self.buffer@);
                assert(output@ =~= before + group_enc(out, pend));
            }
            self.tag_byte = 0;
            self.item_count = 0;
            self.buffer.clear();
        }
    }
}

/// Reusable hash tables of the match finder.
pub struct Lznt1Context {
    head: Vec<u16>,
    next: Vec<u16>,
}

impl Lznt1Context {
    /// Both tables span a whole chunk.
    pub closed spec fn wf(&self) -> bool {
        &&& self.head@.len() == CHUNK_SIZE
        &&& self.next@.len() == CHUNK_SIZE
    }

    /// A context with empty tables.
    pub fn new() -> (r: Self)
        ensures
            r.wf(),
    {
        Lznt1Context { head: vec![EMPTY_ENTRY; CHUNK_SIZE], next: vec![EMPTY_ENTRY; CHUNK_SIZE] }
    }

    /// Empties the table of chain heads for a new chunk.
    fn reset(&mut self)
        requires
            old(self).wf(),
        ensures
            final(self).wf(),
            forall|i: int| 0 <= i < CHUNK_SIZE ==> final(self).head@[i] == EMPTY_ENTRY,
    {
        let mut i: usize = 0;
        while i < CHUNK_SIZE
            invariant
                self.wf(),
                i <= CHUNK_SIZE,
                forall|j: int| 0 <= j < i ==> self.head@[j] == EMPTY_ENTRY,
            decreases CHUNK_SIZE - i,
        {
            self.head[i] = EMPTY_ENTRY;
            i += 1;
        }
    }

    /// Puts position `idx` at the head of the chain of its three bytes.
    fn update(&mut self, input: &[u8], idx: usize)
        requires
            old(self).wf(),
            idx < CHUNK_SIZE,
        ensures
            final(self).wf(),
    {
        if idx < input.len() && input.len() - idx >= MIN_MATCH {
            let h = hash_3_bytes(input, idx);
            self.next[idx] = self.head[h];
            self.head[h] = idx as u16;
        }
    }
}

impl Default for Lznt1Context {
    fn default() -> (r: Self)
        ensures
            r.wf(),
    {
        Self::new()
    }
}

/// The 12-bit hash of three bytes.
pub open spec fn hash_spec(b0: u8, b1: u8, b2: u8) -> int {
    (((b0 as u32) << 6u32) ^ ((b1 as u32) << 3u32) ^ (b2 as u32)) as int % 4096
}

/// Hashes the three bytes at `idx` for the match finder's table.
fn hash_3_bytes(b: &[u8], idx: usize) -> (r: usize)
    requires
        idx + 3 <= b@.len(),
    ensures
        r < 4096,
        r == hash_spec(b@[idx as int], b@[idx + 1], b@[idx + 2]),
{
    let h = ((b[idx] as u32) << 6u32) ^ ((b[idx + 1] as u32) << 3u32) ^ (b[idx + 2] as u32);
    assert((h & 0xFFF) == h % 4096) by (bit_vector);
    (h & (HASH_MASK as u32)) as usize
}

/// Length of the common prefix of `data[a..]` and `data[b..]`, up to `max`.
fn common_prefix_len(data: &[u8], a: usize, b: usize, max: usize) -> (r: usize)
    requires
        a <= data@.len(),
        b <= data@.len(),
    ensures
        r <= max,
        a + r <= data@.len(),
        b + r <= data@.len(),
        forall|j: int| 0 <= j < r ==> data@[a + j] == #[trigger] data@[b + j],
        r < max && a + r < data@.len() && b + r < data@.len() ==> data@[a + r] != data@[b + r],
{
    let n = data.len();
    let la = n - a;
    let lb = n - b;
    let limit = if la < lb { la } else { lb };
    let limit = if limit < max { limit } else { max };
    let mut len: usize = 0;
    while len < limit && data[a + len] == data[b + len]
        invariant
            len <= limit,
            limit <= max,
            n == data@.len(),
            a + limit <= n,
            b + limit <= n,
            limit == max || a + limit == data@.len() || b + limit == data@.len(),
            forall|j: int| 0 <= j < len ==> data@[a + j] == #[trigger] data@[b + j],
        decreases limit - len,
    {
        len += 1;
    }
    len
}

/// Compresses the whole of `input`, appending an LZNT1 stream to `output`.
///
/// The input is cut into chunks of 4096 bytes (the last one shorter); each
/// becomes one frame, compressed when that makes it strictly shorter and raw
/// otherwise. Empty input appends nothing.
pub fn compress(input: &[u8], output: &mut Vec<u8>)
    ensures
        final(output)@.len() >= old(output)@.len(),
        final(output)@.subrange(0, old(output)@.len() as int) == old(output)@,
        stream_encodes(final(output)@.skip(old(output)@.len() as int), input@),
{
    let mut ctx = Lznt1Context::new();
    let mut src_pos: usize = 0;
    let base = output.len();
    proof {
        assert(output@.skip(base as int) =~= Seq::<u8>::empty());
        assert(input@.take(0) =~= Seq::<u8>::empty());
    }
    while src_pos < input.len()
        invariant
            src_pos <= input@.len(),
            src_pos % 4096 == 0 || src_pos == input@.len(),
            ctx.wf(),
            base == old(output)@.len(),
            output@.len() >= base,
            output@.subrange(0, base as int) == old(output)@,
            stream_encodes(output@.skip(base as int), input@.take(src_pos as int)),
        decreases input@.len() - src_pos,
    {
        let remaining = input.len() - src_pos;
        let chunk_len = if remaining < CHUNK_SIZE { remaining } else { CHUNK_SIZE };
        let chunk = slice_subrange(input, src_pos, src_pos + chunk_len);
        let ghost done = output@;
        let start_out = output.len();
        write_frame(chunk, output, &mut ctx);
        proof {
            let f = output@.skip(start_out as int);
            let c = done.skip(base as int);
            assert(output@ =~= done + f);
            assert(output@.skip(base as int) =~= c + f);
            assert(output@.subrange(0, base as int) =~= done.subrange(0, base as int));
            lemma_append_frame(c, input@.take(src_pos as int), f, chunk@);
            assert(input@.take(src_pos as int) + chunk@ =~= input@.take(src_pos + chunk_len));
        }
        src_pos += chunk_len;
    }
    proof {
        assert(input@.take(input@.len() as int) =~= input@);
    }
}

/// Appends the frame of one chunk: compressed when its body comes out
/// strictly shorter than the chunk, raw otherwise.
fn write_frame(chunk: &[u8], output: &mut Vec<u8>, ctx: &mut Lznt1Context)
    requires
        1 <= chunk@.len() <= CHUNK_SIZE,
        old(ctx).wf(),
    ensures
        final(ctx).wf(),
        final(output)@.len() >= old(output)@.len(),
        final(output)@.subrange(0, old(output)@.len() as int) == old(output)@,
        frame_encodes(final(output)@.skip(old(output)@.len() as int), chunk@),
{
    let chunk_len = chunk.len();
    let start_out = output.len();
    let ghost done = output@;
    // Room for the header, written once the body is known.
    output.push(0);
    output.push(0);
    let ghost mid = output@;
    compress_chunk(chunk, output, ctx);
    let ghost after_chunk = output@;
    assert(after_chunk.subrange(0, start_out as int) =~= done) by {
        assert forall|i: int| 0 <= i < start_out implies after_chunk[i] == done[i] by {
            assert(after_chunk.subrange(0, mid.len() as int)[i] == mid[i]);
        }
    }

    let compressed_len = output.len() - start_out - 2;
    let ghost body = output@.skip(start_out + 2);
    if compressed_len < chunk.len() {
        assert(compressed_len >= 1) by {
            if compressed_len == 0 {
                assert(body =~= Seq::<u8>::empty());
            }
        }
        let header = encode_header(HEADER_COMPRESSED, compressed_len);
        let (lo, hi) = u16_le_bytes(header);
        output[start_out] = lo;
        output[start_out + 1] = hi;
        proof {
            let f = output@.skip(start_out as int);
            assert(output@.subrange(0, start_out as int) =~= done);
            assert(f.skip(2) =~= body);
            assert(le16(f[0], f[1]) == header_value(true, body.len() as int));
            assert(frame_encodes(f, chunk@));
        }
    } else {
        // No saving: store the chunk as it is.
        output.truncate(start_out);
        assert(output@ =~= done);
        let header = encode_header(HEADER_RAW, chunk.len());
        write_u16_le(output, header);
        let ghost with_header = output@;
        assert(with_header.subrange(0, start_out as int) == done);
        let mut j: usize = 0;
        while j < chunk_len
            invariant
                j <= chunk_len,
                chunk_len == chunk@.len(),
                output@ == with_header + chunk@.take(j as int),
            decreases chunk_len - j,
        {
            output.push(chunk[j]);
            proof {
                assert(with_header + chunk@.take(j + 1) =~= (with_header + chunk@.take(j as int)).push(
                    chunk@[j as int],
                ));
            }
            j += 1;
        }
        proof {
            let f = output@.skip(start_out as int);
            assert(output@.subrange(0, start_out as int) =~= done);
            assert(chunk@.take(chunk_len as int) =~= chunk@);
            assert(f.skip(2) =~= chunk@);
            assert(f[0] == with_header[start_out as int] && f[1] == with_header[start_out + 1]);
            assert(frame_encodes(f, chunk@));
        }
    }
}

/// Searches the hash chain of position `in_idx` for the longest earlier
/// occurrence, at a distance below `max_offset`, of the bytes that follow.
/// Returns `(length, distance)`, with length 0 when none of at least three
/// bytes was found.
fn find_match(ctx: &Lznt1Context, chunk: &[u8], in_idx: usize, max_offset: usize) -> (r: (usize, usize))
    requires
        ctx.wf(),
        in_idx < chunk@.len() <= CHUNK_SIZE,
    ensures
        r.0 == 0 || (MIN_MATCH <= r.0 <= MAX_MATCH && 1 <= r.1 <= in_idx && r.1 < max_offset && in_idx + r.0
            <= chunk@.len()),
        forall|j: int| 0 <= j < r.0 ==> chunk@[in_idx - r.1 + j] == #[trigger] chunk@[in_idx + j],
{
    let mut best_len: usize = 0;
    let mut best_off: usize = 0;
    if chunk.len() - in_idx >= MIN_MATCH {
        let hash = hash_3_bytes(chunk, in_idx);
        let mut candidate_idx = ctx.head[hash];
        let mut depth: usize = 0;
        while candidate_idx != EMPTY_ENTRY && depth < MAX_SEARCH_DEPTH
            invariant
                ctx.wf(),
                in_idx < chunk@.len() <= CHUNK_SIZE,
                best_len == 0 || (MIN_MATCH <= best_len <= MAX_MATCH && 1 <= best_off <= in_idx
                    && best_off < max_offset && in_idx + best_len <= chunk@.len()),
                forall|j: int| 0 <= j < best_len ==> chunk@[in_idx - best_off + j] == #[trigger] chunk@[in_idx + j],
            decreases MAX_SEARCH_DEPTH - depth,
        {
            let candidate = candidate_idx as usize;
            if candidate >= in_idx {
                break;
            }
            let dist = in_idx - candidate;
            if dist >= max_offset {
                break;
            }
            // A cheap test of the byte that would make the match longer.
            if chunk.len() - in_idx > best_len && chunk[candidate + best_len] == chunk[in_idx + best_len] {
                let match_len = common_prefix_len(chunk, in_idx, candidate, MAX_MATCH);
                if match_len >= MIN_MATCH && match_len > best_len {
                    best_len = match_len;
                    best_off = dist;
                    assert forall|j: int| 0 <= j < best_len implies chunk@[in_idx - best_off + j]
                        == #[trigger] chunk@[in_idx + j] by {
                        assert(chunk@[in_idx + j] == chunk@[candidate + j]);
                    }
                    if best_len >= MAX_MATCH {
                        best_len = MAX_MATCH;
                        break;
                    }
                }
            }
            candidate_idx = ctx.next[candidate];
            depth += 1;
        }
    }
    (best_len, best_off)
}

/// Compresses one chunk of at most 4096 bytes, appending its tag groups to
/// `output`. What it appends decodes back to the chunk.
fn compress_chunk(chunk: &[u8], output: &mut Vec<u8>, ctx: &mut Lznt1Context)
    requires
        chunk@.len() <= CHUNK_SIZE,
        old(ctx).wf(),
    ensures
        final(ctx).wf(),
        final(output)@.len() >= old(output)@.len(),
        final(output)@.subrange(0, old(output)@.len() as int) == old(output)@,
        decode_block(final(output)@.skip(old(output)@.len() as int)) == Ok::<Seq<u8>, crate::error::DecompressionError>(chunk@),
{
    ctx.reset();
    let mut accumulator = TagAccumulator::new();
    let ghost pre = output@;
    let ghost mut gs: Seq<Seq<Token>> = Seq::empty();
    let ghost mut pend: Seq<Token> = Seq::empty();

    // Adaptive state: bytes the chunk has produced, and the split they give.
    let mut blob_out_len: usize = 0;
    let mut split: usize = 12;
    let mut threshold: usize = 16;

    let mut in_idx: usize = 0;
    proof {
        assert(pre + encode_groups(gs) =~= pre);
        assert(chunk@.take(0) =~= Seq::<u8>::empty());
    }
    while in_idx < chunk.len()
        invariant
            chunk@.len() <= CHUNK_SIZE,
            ctx.wf(),
            in_idx <= chunk@.len(),
            blob_out_len == in_idx,
            adaptive_state_wf(split, threshold, in_idx as int),
            groups_wf(gs),
            all_full(gs),
            accumulator.holds(expand_groups(gs), pend),
            pend.len() < 8,
            tokens_ok(expand_groups(gs), pend),
            expand_from(expand_groups(gs), pend) == chunk@.take(in_idx as int),
            output@ == pre + encode_groups(gs),
        decreases chunk@.len() - in_idx,
    {
        let off_bits = 16 - split;
        let max_offset = pow2_of(off_bits);

        let (mut best_len, best_off) = find_match(ctx, chunk, in_idx, max_offset);

        let ghost base = expand_groups(gs);
        let ghost grown: Seq<Token>;
        if best_len >= MIN_MATCH {
            // Clamp the length to what the current split can hold.
            let max_len_encodable = pow2_of(split) + 2;
            if best_len > max_len_encodable {
                best_len = max_len_encodable;
            }
            let tuple = pack_tuple(best_off, best_len, split);
            let ghost t = Token::Reference(best_off, best_len);
            proof {
                lemma2_to64();
                lemma_copy_match_extends(chunk@, in_idx as int, best_off as int, best_len as nat);
                lemma_push_token(base, pend, t);
                let v = tuple_value(best_off as int, best_len as int, split as int);
                assert(token_bytes(in_idx as int, t) =~= seq![(tuple as int % 256) as u8, (tuple as int / 256) as u8]);
                grown = pend.push(t);
            }
            accumulator.push_tuple(tuple, output, Ghost(base), Ghost(pend), Ghost(t));

            // Every position the match covers joins the hash chains.
            let mut j: usize = 0;
            while j < best_len
                invariant
                    ctx.wf(),
                    in_idx + best_len <= chunk@.len() <= CHUNK_SIZE,
                    j <= best_len,
                decreases best_len - j,
            {
                ctx.update(chunk, in_idx + j);
                j += 1;
            }
            in_idx += best_len;
            blob_out_len += best_len;
        } else {
            let byte = chunk[in_idx];
            proof {
                lemma_push_token(base, pend, Token::Literal(byte));
                assert(chunk@.take(in_idx as int).push(byte) =~= chunk@.take(in_idx + 1));
                grown = pend.push(Token::Literal(byte));
            }
            accumulator.push_literal(byte, output, Ghost(base), Ghost(pend));
            ctx.update(chunk, in_idx);
            in_idx += 1;
            blob_out_len += 1;
        }
        proof {
            if grown.len() == 8 {
                lemma_push_group(gs, grown);
                assert(output@ =~= pre + encode_groups(gs.push(grown)));
                gs = gs.push(grown);
                pend = Seq::empty();
            } else {
                pend = grown;
            }
            lemma_split_monotone((in_idx - 1) as int, in_idx as int);
        }
        update_adaptive_state(blob_out_len, &mut threshold, &mut split);
    }
    proof {
        assert(chunk@.take(chunk@.len() as int) =~= chunk@);
    }
    let ghost last = pend;
    accumulator.flush(output, Ghost(expand_groups(gs)), Ghost(pend));
    proof {
        if last.len() > 0 {
            lemma_push_group(gs, last);
            assert(output@ =~= pre + encode_groups(gs.push(last)));
            gs = gs.push(last);
        }
        assert(output@.subrange(0, pre.len() as int) =~= pre);
        assert(output@.skip(pre.len() as int) =~= encode_groups(gs));
        lemma_decode_encoded(gs);
    }
}

/// `2^e` for a field width `e`.
fn pow2_of(e: usize) -> (r: usize)
    requires
        e <= 16,
    ensures
        r == pow2(e as nat),
        1 <= r <= 65536,
        e <= 12 ==> r <= 4096,
{
    proof {
        lemma2_to64();
        lemma_u32_shl_is_mul(1, e as u32);
        let ee = e as u32;
        assert(ee <= 16 ==> 1 <= (1u32 << ee) <= 65536) by (bit_vector);
        assert(ee <= 12 ==> (1u32 << ee) <= 4096) by (bit_vector);
    }
    (1u32 << (e as u32)) as usize
}

} // verus!
