//! The compressor's view of a chunk body: a sequence of tag groups, each up
//! to eight tokens (literals and back-references). This module states how
//! tokens are laid out in bytes and proves that the decoder reads back
//! exactly the bytes the tokens stand for.
use crate::adaptive::split_for;
use crate::decompress::{copy_match, decode_block, decode_tokens, tag_bit};
use crate::error::DecompressionError;
use crate::format::{le16, lemma_tuple_round_trip, tuple_fits, tuple_value};
use vstd::prelude::*;

verus! {

/// One token of a compressed chunk.
pub enum Token {
    /// A byte copied as it is.
    Literal(u8),
    /// A copy of `length` bytes starting `offset` bytes back: `Reference(offset, length)`.
    Reference(usize, usize),
}

/// How many bytes a token stands for.
pub open spec fn token_len(t: Token) -> int {
    match t {
        Token::Literal(_) => 1,
        Token::Reference(_, l) => l as int,
    }
}

/// `out` followed by the bytes the token stands for.
pub open spec fn apply_token(out: Seq<u8>, t: Token) -> Seq<u8> {
    match t {
        Token::Literal(b) => out.push(b),
        Token::Reference(o, l) => copy_match(out, o as int, l as nat),
    }
}

/// Whether a token may follow the output `out` of its chunk.
pub open spec fn token_ok(out: Seq<u8>, t: Token) -> bool {
    match t {
        Token::Literal(_) => true,
        Token::Reference(o, l) => o <= out.len() && tuple_fits(o as int, l as int, split_for(out.len() as int)),
    }
}

/// The bytes of a token that follows `n` bytes of chunk output.
pub open spec fn token_bytes(n: int, t: Token) -> Seq<u8> {
    match t {
        Token::Literal(b) => seq![b],
        Token::Reference(o, l) => {
            let v = tuple_value(o as int, l as int, split_for(n));
            seq![(v % 256) as u8, (v / 256) as u8]
        },
    }
}

/// `out` followed by what the tokens of `g` stand for.
pub open spec fn expand_from(out: Seq<u8>, g: Seq<Token>) -> Seq<u8>
    decreases g.len(),
{
    if g.len() == 0 {
        out
    } else {
        apply_token(expand_from(out, g.drop_last()), g.last())
    }
}

/// Whether each token of `g` may follow what comes before it.
pub open spec fn tokens_ok(out: Seq<u8>, g: Seq<Token>) -> bool
    decreases g.len(),
{
    g.len() == 0 || (tokens_ok(out, g.drop_last()) && token_ok(expand_from(out, g.drop_last()), g.last()))
}

/// The token bytes of a group whose chunk output so far is `out`.
pub open spec fn group_bytes(out: Seq<u8>, g: Seq<Token>) -> Seq<u8>
    decreases g.len(),
{
    if g.len() == 0 {
        Seq::empty()
    } else {
        group_bytes(out, g.drop_last()) + token_bytes(expand_from(out, g.drop_last()).len() as int, g.last())
    }
}

/// The tag byte of a group: bit `k` is set when token `k` is a back-reference.
pub open spec fn tag_of(g: Seq<Token>) -> u8
    decreases g.len(),
{
    if g.len() == 0 {
        0
    } else if g.last() is Reference {
        tag_of(g.drop_last()) | (1u8 << ((g.len() - 1) as u8))
    } else {
        tag_of(g.drop_last())
    }
}

/// A whole group: its tag byte, then its tokens.
pub open spec fn group_enc(out: Seq<u8>, g: Seq<Token>) -> Seq<u8> {
    seq![tag_of(g)] + group_bytes(out, g)
}

/// What a sequence of groups stands for.
pub open spec fn expand_groups(gs: Seq<Seq<Token>>) -> Seq<u8>
    decreases gs.len(),
{
    if gs.len() == 0 {
        Seq::empty()
    } else {
        expand_from(expand_groups(gs.drop_last()), gs.last())
    }
}

/// The body bytes of a sequence of groups.
pub open spec fn encode_groups(gs: Seq<Seq<Token>>) -> Seq<u8>
    decreases gs.len(),
{
    if gs.len() == 0 {
        Seq::empty()
    } else {
        encode_groups(gs.drop_last()) + group_enc(expand_groups(gs.drop_last()), gs.last())
    }
}

/// Groups as a compressor lays them out: none empty, all full but the
/// last, and every token valid where it stands.
pub open spec fn groups_wf(gs: Seq<Seq<Token>>) -> bool {
    forall|q: int|
        0 <= q < gs.len() ==> {
            &&& 1 <= #[trigger] gs[q].len() <= 8
            &&& (q < gs.len() - 1 ==> gs[q].len() == 8)
            &&& tokens_ok(expand_groups(gs.take(q)), gs[q])
        }
}

proof fn lemma_tag_bits(g: Seq<Token>)
    requires
        g.len() <= 8,
    ensures
        forall|k: int| 0 <= k < g.len() ==> tag_bit(tag_of(g), k) == (#[trigger] g[k] is Reference),
        g.len() < 8 ==> tag_of(g) >> (g.len() as u8) == 0,
    decreases g.len(),
{
    if g.len() == 0 {
        assert(0u8 >> 0u8 == 0) by (bit_vector);
    } else {
        let d = g.drop_last();
        lemma_tag_bits(d);
        assert((g.len() as u8) == ((g.len() - 1) as u8 + 1) as u8);
        let x = tag_of(d);
        let n = (g.len() - 1) as u8;
        assert(x >> n == 0 && n < 8 ==> ((x | (1u8 << n)) >> n) & 1u8 != 0) by (bit_vector);
        assert(x >> n == 0 && n < 8 ==> (x >> n) & 1u8 == 0) by (bit_vector);
        assert(x >> n == 0 && n < 7 ==> (x | (1u8 << n)) >> ((n + 1) as u8) == 0 && x >> ((n + 1) as u8) == 0)
            by (bit_vector);
        assert forall|k: int| 0 <= k < g.len() implies tag_bit(tag_of(g), k) == (#[trigger] g[k] is Reference) by {
            if k < g.len() - 1 {
                assert(g[k] == d[k]);
                let kk = k as u8;
                assert(x >> n == 0 && n < 8 && kk < n ==> ((x | (1u8 << n)) >> kk) & 1u8 == (x >> kk) & 1u8)
                    by (bit_vector);
            }
        }
    }
}

/// Facts about the first `j + 1` tokens of a group.
proof fn lemma_group_take(out: Seq<u8>, g: Seq<Token>, j: int)
    requires
        0 <= j < g.len(),
    ensures
        group_bytes(out, g.take(j + 1)) == group_bytes(out, g.take(j)) + token_bytes(
            expand_from(out, g.take(j)).len() as int,
            g[j],
        ),
        expand_from(out, g.take(j + 1)) == apply_token(expand_from(out, g.take(j)), g[j]),
        group_bytes(out, g.take(j + 1)).len() <= group_bytes(out, g).len(),
        group_bytes(out, g).subrange(0, group_bytes(out, g.take(j + 1)).len() as int) == group_bytes(
            out,
            g.take(j + 1),
        ),
        tokens_ok(out, g) ==> token_ok(expand_from(out, g.take(j)), g[j]),
    decreases g.len(),
{
    assert(g.take(j + 1).drop_last() =~= g.take(j));
    if j + 1 == g.len() {
        assert(g.take(j + 1) =~= g);
    } else {
        let d = g.drop_last();
        lemma_group_take(out, d, j);
        assert(d.take(j + 1) =~= g.take(j + 1));
        assert(d.take(j) =~= g.take(j));
        let a = group_bytes(out, d);
        let b = group_bytes(out, g);
        assert(b.subrange(0, a.len() as int) =~= a);
    }
}

/// One token of a group, read by the decoder at position `i`.
proof fn lemma_token_step(body: Seq<u8>, i: nat, tag: u8, k: nat, out: Seq<u8>, t: Token)
    requires
        k < 8,
        tag_bit(tag, k as int) == (t is Reference),
        token_ok(out, t),
        i + token_bytes(out.len() as int, t).len() <= body.len(),
        body.subrange(i as int, (i + token_bytes(out.len() as int, t).len()) as int) == token_bytes(out.len() as int, t),
    ensures
        ({
            let e = i + token_bytes(out.len() as int, t).len();
            decode_tokens(body, i, tag, k, out) == if e >= body.len() {
                Ok::<Seq<u8>, DecompressionError>(apply_token(out, t))
            } else {
                decode_tokens(body, e as nat, tag, k + 1, apply_token(out, t))
            }
        }),
{
    let bs = token_bytes(out.len() as int, t);
    assert(body[i as int] == bs[0]);
    match t {
        Token::Literal(b) => {},
        Token::Reference(o, l) => {
            assert(body[i + 1int] == bs[1]);
            let s = split_for(out.len() as int);
            let v = tuple_value(o as int, l as int, s);
            lemma_tuple_round_trip(o as int, l as int, s);
            assert(le16(body[i as int], body[i + 1int]) == v);
        },
    }
}

/// The decoder's result once a group whose last token ends at `e` is done.
pub open spec fn group_target(body: Seq<u8>, e: int, out: Seq<u8>, g: Seq<Token>) -> Result<Seq<u8>, DecompressionError> {
    if e >= body.len() {
        Ok(expand_from(out, g))
    } else {
        decode_tokens(body, e as nat, 0, 8, expand_from(out, g))
    }
}

/// The tokens of a group from token `j` on, read by the decoder.
proof fn lemma_group_from(body: Seq<u8>, p: nat, out: Seq<u8>, g: Seq<Token>, j: int)
    requires
        1 <= g.len() <= 8,
        0 <= j < g.len(),
        tokens_ok(out, g),
        p + 1 + group_bytes(out, g).len() <= body.len(),
        body.subrange(p as int, (p + 1 + group_bytes(out, g).len()) as int) == group_enc(out, g),
        p + 1 + group_bytes(out, g).len() < body.len() ==> g.len() == 8,
    ensures
        decode_tokens(
            body,
            (p + 1 + group_bytes(out, g.take(j)).len()) as nat,
            tag_of(g),
            j as nat,
            expand_from(out, g.take(j)),
        ) == group_target(body, (p + 1 + group_bytes(out, g).len()) as int, out, g),
    decreases g.len() - j,
{
    let e = p + 1 + group_bytes(out, g).len();
    let t = tag_of(g);
    lemma_tag_bits(g);
    lemma_group_take(out, g, j);
    let pos: int = (p + 1 + group_bytes(out, g.take(j)).len()) as int;
    let o = expand_from(out, g.take(j));
    let bs = token_bytes(o.len() as int, g[j]);
    let gb = group_bytes(out, g);
    let gbj1 = group_bytes(out, g.take(j + 1));
    assert(body.subrange(p + 1int, e as int) =~= gb) by {
        assert forall|m: int| 0 <= m < gb.len() implies body.subrange(p + 1int, e as int)[m] == gb[m] by {
            assert(body[p + 1 + m] == group_enc(out, g)[1 + m]);
        }
    }
    assert(gbj1 =~= group_bytes(out, g.take(j)) + bs);
    assert(body.subrange(pos, pos + bs.len()) =~= bs) by {
        assert(gb.subrange(0, gbj1.len() as int) == gbj1);
        assert forall|m: int| 0 <= m < bs.len() implies body.subrange(pos, pos + bs.len())[m] == bs[m] by {
            assert(body[pos + m] == gb[gbj1.len() - bs.len() + m]);
            assert(gbj1[gbj1.len() - bs.len() + m] == bs[m]);
        }
    }
    lemma_token_step(body, pos as nat, t, j as nat, o, g[j]);
    if j == g.len() - 1 {
        assert(g.take(j + 1) =~= g);
        assert(pos + bs.len() == e);
        if e < body.len() {
            lemma_group_end_any(body, e as nat, t, out, g);
        }
    } else {
        lemma_group_take(out, g, j + 1);
        lemma_group_from(body, p, out, g, j + 1);
        assert(pos + bs.len() < e);
    }
}

/// A whole group read by the decoder, from its tag byte on.
proof fn lemma_group_step(body: Seq<u8>, p: nat, out: Seq<u8>, g: Seq<Token>)
    requires
        1 <= g.len() <= 8,
        tokens_ok(out, g),
        p + 1 + group_bytes(out, g).len() <= body.len(),
        body.subrange(p as int, (p + 1 + group_bytes(out, g).len()) as int) == group_enc(out, g),
        p + 1 + group_bytes(out, g).len() < body.len() ==> g.len() == 8,
    ensures
        decode_tokens(body, p, 0, 8, out) == group_target(body, (p + 1 + group_bytes(out, g).len()) as int, out, g),
{
    lemma_group_from(body, p, out, g, 0);
    assert(g.take(0) =~= Seq::<Token>::empty());
    assert(body[p as int] == group_enc(out, g)[0]);
}

proof fn lemma_group_end_any(body: Seq<u8>, e: nat, t: u8, out: Seq<u8>, g: Seq<Token>)
    ensures
        decode_tokens(body, e, t, 8, expand_from(out, g)) == decode_tokens(body, e, 0, 8, expand_from(out, g)),
{
}

proof fn lemma_encode_prefix(gs: Seq<Seq<Token>>, q: int)
    requires
        0 <= q <= gs.len(),
    ensures
        encode_groups(gs.take(q)).len() <= encode_groups(gs).len(),
        encode_groups(gs).subrange(0, encode_groups(gs.take(q)).len() as int) == encode_groups(gs.take(q)),
    decreases gs.len(),
{
    if q == gs.len() {
        assert(gs.take(q) =~= gs);
    } else {
        let d = gs.drop_last();
        lemma_encode_prefix(d, q);
        assert(d.take(q) =~= gs.take(q));
        let a = encode_groups(d);
        assert(encode_groups(gs).subrange(0, a.len() as int) =~= a);
    }
}

/// Where group `q` stands in the body of `gs`.
proof fn lemma_group_in_body(gs: Seq<Seq<Token>>, q: int)
    requires
        0 <= q < gs.len(),
        gs[q].len() >= 1,
    ensures
        ({
            let body = encode_groups(gs);
            let p = encode_groups(gs.take(q)).len();
            let e = encode_groups(gs.take(q + 1)).len();
            let out = expand_groups(gs.take(q));
            &&& e == p + 1 + group_bytes(out, gs[q]).len()
            &&& e <= body.len()
            &&& body.subrange(p as int, e as int) == group_enc(out, gs[q])
            &&& expand_groups(gs.take(q + 1)) == expand_from(out, gs[q])
            &&& (q + 1 < gs.len() && gs[q + 1].len() >= 1 ==> e < body.len())
        }),
{
    let body = encode_groups(gs);
    let pq = gs.take(q);
    let g = gs[q];
    let out = expand_groups(pq);
    let nq = gs.take(q + 1);
    assert(nq.drop_last() =~= pq);
    assert(nq.last() == g);
    let p = encode_groups(pq).len();
    let e = encode_groups(nq).len();
    assert(encode_groups(nq) == encode_groups(pq) + group_enc(out, g));
    lemma_encode_prefix(gs, q + 1);
    assert(body.subrange(p as int, e as int) =~= group_enc(out, g)) by {
        assert(body.subrange(0, e as int) == encode_groups(nq));
        assert forall|m2: int| 0 <= m2 < e - p implies body.subrange(p as int, e as int)[m2] == group_enc(out, g)[m2] by {
            assert(body[p + m2] == encode_groups(nq)[p + m2]);
        }
    }
    if q + 1 < gs.len() {
        lemma_encode_prefix(gs, q + 2);
        assert(gs.take(q + 2).drop_last() =~= nq);
    }
}

proof fn lemma_decode_from(gs: Seq<Seq<Token>>, q: int)
    requires
        groups_wf(gs),
        0 <= q <= gs.len(),
    ensures
        decode_tokens(encode_groups(gs), encode_groups(gs.take(q)).len(), 0, 8, expand_groups(gs.take(q)))
            == Ok::<Seq<u8>, DecompressionError>(expand_groups(gs)),
    decreases gs.len() - q,
{
    let m = gs.len() as int;
    if q == m {
        assert(gs.take(m) =~= gs);
    } else {
        lemma_decode_from(gs, q + 1);
        assert(gs[q].len() >= 1);
        assert(q + 1 < m ==> gs[q + 1].len() >= 1);
        assert(q + 1 < m ==> gs[q].len() == 8);
        assert(tokens_ok(expand_groups(gs.take(q)), gs[q]));
        lemma_group_in_body(gs, q);
        if q + 1 == m {
            assert(gs.take(q + 1) =~= gs);
        }
        lemma_group_step(encode_groups(gs), encode_groups(gs.take(q)).len(), expand_groups(gs.take(q)), gs[q]);
    }
}

/// Decoding the body that well-formed groups lay out gives back the bytes
/// that the groups stand for.
pub proof fn lemma_decode_encoded(gs: Seq<Seq<Token>>)
    requires
        groups_wf(gs),
    ensures
        decode_block(encode_groups(gs)) == Ok::<Seq<u8>, DecompressionError>(expand_groups(gs)),
{
    lemma_decode_from(gs, 0);
    assert(gs.take(0) =~= Seq::<Seq<Token>>::empty());
}

/// Every group of `gs` is full.
pub open spec fn all_full(gs: Seq<Seq<Token>>) -> bool {
    forall|q: int| 0 <= q < gs.len() ==> (#[trigger] gs[q]).len() == 8
}

/// Appending a token to a group extends its bytes, its expansion and its tag.
pub proof fn lemma_push_token(out: Seq<u8>, g: Seq<Token>, t: Token)
    ensures
        expand_from(out, g.push(t)) == apply_token(expand_from(out, g), t),
        group_bytes(out, g.push(t)) == group_bytes(out, g) + token_bytes(expand_from(out, g).len() as int, t),
        tokens_ok(out, g.push(t)) == (tokens_ok(out, g) && token_ok(expand_from(out, g), t)),
        tag_of(g.push(t)) == if t is Reference {
            tag_of(g) | (1u8 << (g.len() as u8))
        } else {
            tag_of(g)
        },
{
    assert(g.push(t).drop_last() =~= g);
}

/// Appending a group to full groups keeps them well formed.
pub proof fn lemma_push_group(gs: Seq<Seq<Token>>, g: Seq<Token>)
    requires
        groups_wf(gs),
        all_full(gs),
        1 <= g.len() <= 8,
        tokens_ok(expand_groups(gs), g),
    ensures
        groups_wf(gs.push(g)),
        g.len() == 8 ==> all_full(gs.push(g)),
        expand_groups(gs.push(g)) == expand_from(expand_groups(gs), g),
        encode_groups(gs.push(g)) == encode_groups(gs) + group_enc(expand_groups(gs), g),
{
    let ng = gs.push(g);
    assert(ng.drop_last() =~= gs);
    assert forall|q: int| 0 <= q < ng.len() implies {
        &&& 1 <= #[trigger] ng[q].len() <= 8
        &&& (q < ng.len() - 1 ==> ng[q].len() == 8)
        &&& tokens_ok(expand_groups(ng.take(q)), ng[q])
    } by {
        if q < gs.len() {
            assert(ng.take(q) =~= gs.take(q));
            assert(ng[q] == gs[q]);
        } else {
            assert(ng.take(q) =~= gs);
        }
    }
}

/// A back-reference whose source agrees with what follows reproduces it.
pub proof fn lemma_copy_match_extends(x: Seq<u8>, p: int, d: int, n: nat)
    requires
        1 <= d <= p,
        p + n <= x.len(),
        forall|j: int| 0 <= j < n ==> x[p - d + j] == #[trigger] x[p + j],
    ensures
        copy_match(x.take(p), d, n) == x.take(p + n),
    decreases n,
{
    if n == 0 {
    } else {
        assert(x.take(p)[p - d] == x[p - d + 0]);
        assert(x.take(p).push(x.take(p)[x.take(p).len() - d]) =~= x.take(p + 1));
        assert forall|j: int| 0 <= j < (n - 1) as nat implies x[p + 1 - d + j] == #[trigger] x[p + 1 + j] by {
            assert(x[p - d + (j + 1)] == x[p + (j + 1)]);
        }
        lemma_copy_match_extends(x, p + 1, d, (n - 1) as nat);
    }
}

} // verus!
