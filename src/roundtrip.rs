//! Both encoders produce streams that the decoder turns back into their input.

use vstd::prelude::*;
use crate::bitio::{bit_at, packs};
use crate::deflate::{fixed_block_bits, literal_tokens, symbol_bits, token_bits, tokens_bits};
use crate::helpers::{
    lsb_bits, msb_bits, pow2, lemma_lsb_bits_len, lemma_lsb_round_trip, lemma_msb_bits_len,
    lemma_msb_round_trip,
};
use crate::inflate::{
    InflateError, back_reference, inflate_blocks, bits_from, block, block_body, fixed_symbol, inflate_from,
    inflate_spec, lit_symbol, dist_symbol, nbits, next_block, read_lsb, read_msb,
};
use crate::lz77::{
    Token, apply_token, lz77_parse, replay, replay_from, token_fits, tokens_fit, tokens_fit_from,
    lemma_parse_replays,
};
use crate::tables::{
    distance_base, distance_extra, distance_symbol, fixed_code, fixed_len, length_base,
    length_extra, length_symbol, lemma_distance_symbol, lemma_length_symbol, lemma_pow2_small,
};

verus! {

/// The stream holds the bits `s` from position `pos` on.
pub open spec fn matches_at(data: Seq<u8>, pos: int, s: Seq<bool>) -> bool {
    &&& 0 <= pos
    &&& pos + s.len() <= nbits(data)
    &&& forall|i: int| 0 <= i < s.len() ==> #[trigger] bit_at(data, pos + i) == s[i]
}

proof fn lemma_matches_split(data: Seq<u8>, pos: int, a: Seq<bool>, b: Seq<bool>)
    requires
        matches_at(data, pos, a + b),
    ensures
        matches_at(data, pos, a),
        matches_at(data, pos + a.len(), b),
{
    assert forall|i: int| 0 <= i < a.len() implies #[trigger] bit_at(data, pos + i) == a[i] by {
        assert(bit_at(data, pos + i) == (a + b)[i]);
    }
    assert forall|i: int| 0 <= i < b.len() implies #[trigger] bit_at(data, pos + a.len() + i) == b[i] by {
        assert(bit_at(data, pos + (a.len() + i)) == (a + b)[a.len() + i]);
        assert(pos + (a.len() + i) == pos + a.len() + i);
    }
}

proof fn lemma_bits_from_matches(data: Seq<u8>, pos: int, s: Seq<bool>, k: nat)
    requires
        matches_at(data, pos, s),
        k <= s.len(),
    ensures
        bits_from(data, pos, k) == s.take(k as int),
{
    assert forall|i: int| 0 <= i < k implies bits_from(data, pos, k)[i] == s.take(k as int)[i] by {
        assert(bit_at(data, pos + i) == s[i]);
    }
    assert(bits_from(data, pos, k) =~= s.take(k as int));
}

proof fn lemma_msb_bits_prefix(c: nat, n: nat)
    requires
        n >= 1,
    ensures
        msb_bits(c, n).take(n - 1) == msb_bits(c / 2, (n - 1) as nat),
{
    lemma_msb_bits_len(c / 2, (n - 1) as nat);
    assert(msb_bits(c, n).take(n - 1) =~= msb_bits(c / 2, (n - 1) as nat));
}

proof fn lemma_read_lsb_decodes(data: Seq<u8>, pos: int, v: nat, n: nat)
    requires
        v < pow2(n),
        matches_at(data, pos, lsb_bits(v, n)),
    ensures
        read_lsb(data, pos, n) == Ok::<(nat, int), InflateError>((v, pos + n)),
{
    lemma_lsb_bits_len(v, n);
    lemma_bits_from_matches(data, pos, lsb_bits(v, n), n);
    assert(lsb_bits(v, n).take(n as int) =~= lsb_bits(v, n));
    lemma_lsb_round_trip(v, n);
}

proof fn lemma_read_msb_decodes(data: Seq<u8>, pos: int, v: nat, n: nat)
    requires
        v < pow2(n),
        matches_at(data, pos, msb_bits(v, n)),
    ensures
        read_msb(data, pos, n) == Ok::<(nat, int), InflateError>((v, pos + n)),
{
    lemma_msb_bits_len(v, n);
    lemma_bits_from_matches(data, pos, msb_bits(v, n), n);
    assert(msb_bits(v, n).take(n as int) =~= msb_bits(v, n));
    lemma_msb_round_trip(v, n);
}

/// The fixed code of a symbol decodes to that symbol.
proof fn lemma_fixed_symbol_decodes(data: Seq<u8>, pos: int, sym: nat)
    requires
        sym <= 285,
        matches_at(data, pos, symbol_bits(sym)),
    ensures
        fixed_symbol(data, pos) == Ok::<(nat, int), InflateError>((sym, pos + fixed_len(sym))),
{
    let c = fixed_code(sym);
    let l = fixed_len(sym);
    let s = msb_bits(c, l);
    lemma_msb_bits_len(c, l);
    lemma_pow2_small();
    if l == 7 {
        lemma_bits_from_matches(data, pos, s, 7);
        assert(s.take(7) =~= s);
        lemma_msb_round_trip(c, 7);
    } else if l == 8 {
        lemma_bits_from_matches(data, pos, s, 7);
        lemma_bits_from_matches(data, pos, s, 8);
        assert(s.take(8) =~= s);
        lemma_msb_bits_prefix(c, 8);
        lemma_msb_round_trip(c / 2, 7);
        lemma_msb_round_trip(c, 8);
    } else {
        lemma_bits_from_matches(data, pos, s, 7);
        lemma_bits_from_matches(data, pos, s, 8);
        lemma_bits_from_matches(data, pos, s, 9);
        assert(s.take(9) =~= s);
        lemma_msb_bits_prefix(c, 9);
        lemma_msb_bits_prefix(c / 2, 8);
        assert(s.take(7) =~= s.take(8).take(7));
        assert(c / 2 / 2 == c / 4);
        lemma_msb_round_trip(c / 4, 7);
        lemma_msb_round_trip(c / 2, 8);
        lemma_msb_round_trip(c, 9);
    }
}

/// The bits of one token decode to that token: its symbol, then for a back-reference the
/// rest of it, which extends the output exactly as replaying the token does.
proof fn lemma_token_decodes(data: Seq<u8>, pos: int, t: Token, out: Seq<u8>)
    requires
        token_fits(out, t),
        matches_at(data, pos, token_bits(t)),
    ensures
        match t {
            Token::Literal(b) => lit_symbol(None, data, pos) == Ok::<(nat, int), InflateError>(
                (b as nat, pos + token_bits(t).len()),
            ),
            Token::Match { length, distance } => {
                let ls = length_symbol(length as nat);
                &&& 257 <= ls <= 285
                &&& lit_symbol(None, data, pos) == Ok::<(nat, int), InflateError>((ls, pos + fixed_len(ls)))
                &&& back_reference(None, data, pos + fixed_len(ls), ls, out) == Ok::<
                    (Seq<u8>, int),
                    InflateError,
                >((apply_token(out, t), pos + token_bits(t).len()))
            },
        },
{
    match t {
        Token::Literal(b) => {
            lemma_msb_bits_len(fixed_code(b as nat), fixed_len(b as nat));
            lemma_fixed_symbol_decodes(data, pos, b as nat);
        },
        Token::Match { length, distance } => {
            let l = length as nat;
            let d = distance as nat;
            lemma_length_symbol(l);
            lemma_distance_symbol(d);
            lemma_pow2_small();
            let ls = length_symbol(l);
            let ds = distance_symbol(d);
            let a = symbol_bits(ls);
            let b = lsb_bits((l - length_base(ls)) as nat, length_extra(ls));
            let c = msb_bits(ds, 5);
            let e = lsb_bits((d - distance_base(ds)) as nat, distance_extra(ds));
            lemma_msb_bits_len(fixed_code(ls), fixed_len(ls));
            lemma_lsb_bits_len((l - length_base(ls)) as nat, length_extra(ls));
            lemma_msb_bits_len(ds, 5);
            lemma_lsb_bits_len((d - distance_base(ds)) as nat, distance_extra(ds));
            assert(token_bits(t) == a + b + c + e);
            lemma_matches_split(data, pos, a + b + c, e);
            lemma_matches_split(data, pos, a + b, c);
            lemma_matches_split(data, pos, a, b);
            lemma_fixed_symbol_decodes(data, pos, ls);
            let p1 = pos + a.len();
            let p2 = p1 + b.len();
            let p3 = p2 + c.len();
            lemma_read_lsb_decodes(data, p1, (l - length_base(ls)) as nat, length_extra(ls));
            lemma_read_msb_decodes(data, p2, ds, 5);
            lemma_read_lsb_decodes(data, p3, (d - distance_base(ds)) as nat, distance_extra(ds));
            assert(dist_symbol(None, data, p2) == Ok::<(nat, int), InflateError>((ds, p3)));
        },
    }
}

/// A block body made of the bits of `toks` and the end-of-block code decodes to the
/// replay of `toks`.
proof fn lemma_body_decodes(data: Seq<u8>, pos: int, toks: Seq<Token>, out: Seq<u8>)
    requires
        tokens_fit_from(out, toks),
        matches_at(data, pos, tokens_bits(toks) + symbol_bits(256)),
    ensures
        block_body(None, data, pos, out) == Ok::<(Seq<u8>, int), InflateError>(
            (replay_from(out, toks), pos + tokens_bits(toks).len() + 7),
        ),
    decreases toks.len(),
{
    lemma_msb_bits_len(0, 7);
    if toks.len() == 0 {
        assert(tokens_bits(toks) + symbol_bits(256) =~= symbol_bits(256));
        lemma_fixed_symbol_decodes(data, pos, 256);
    } else {
        let t = toks[0];
        let rest = toks.skip(1);
        assert(tokens_bits(toks) == token_bits(t) + tokens_bits(rest));
        assert(tokens_bits(toks) + symbol_bits(256) =~= token_bits(t) + (tokens_bits(rest)
            + symbol_bits(256)));
        lemma_matches_split(data, pos, token_bits(t), tokens_bits(rest) + symbol_bits(256));
        lemma_token_decodes(data, pos, t, out);
        let p = pos + token_bits(t).len();
        lemma_body_decodes(data, p, rest, apply_token(out, t));
    }
}

proof fn lemma_packs_matches(data: Seq<u8>, s: Seq<bool>)
    requires
        packs(data, s),
    ensures
        matches_at(data, 0, s),
{
    assert forall|i: int| 0 <= i < s.len() implies #[trigger] bit_at(data, 0 + i) == s[i] by {
        assert(bit_at(data, i) == (i < s.len() && s[i]));
    }
}

proof fn lemma_header_decodes(data: Seq<u8>)
    requires
        matches_at(data, 0, seq![true, true, false]),
    ensures
        read_lsb(data, 0, 1) == Ok::<(nat, int), InflateError>((1, 1)),
        read_lsb(data, 1, 2) == Ok::<(nat, int), InflateError>((1, 3)),
{
    let hdr = seq![true, true, false];
    lemma_pow2_small();
    reveal_with_fuel(lsb_bits, 3);
    assert(lsb_bits(1, 1) =~= seq![true]);
    assert(lsb_bits(1, 2) =~= seq![true, false]);
    assert(matches_at(data, 0, lsb_bits(1, 1))) by {
        assert(bit_at(data, 0int + 0int) == hdr[0]);
    }
    assert(matches_at(data, 1, lsb_bits(1, 2))) by {
        assert(bit_at(data, 0int + 1int) == hdr[1]);
        assert(bit_at(data, 0int + 2int) == hdr[2]);
    }
    lemma_read_lsb_decodes(data, 0, 1, 1);
    lemma_read_lsb_decodes(data, 1, 1, 2);
}

/// A final fixed-Huffman block that holds the bits of a fitting token stream decodes to the
/// replay of the stream.
proof fn lemma_fixed_block_decodes(data: Seq<u8>, toks: Seq<Token>)
    requires
        tokens_fit(toks),
        packs(data, fixed_block_bits(toks)),
    ensures
        inflate_spec(data) == Ok::<Seq<u8>, InflateError>(replay(toks)),
{
    let bits = fixed_block_bits(toks);
    lemma_packs_matches(data, bits);
    let hdr = seq![true, true, false];
    let body = tokens_bits(toks) + symbol_bits(256);
    assert(bits =~= hdr + body);
    lemma_matches_split(data, 0, hdr, body);
    lemma_header_decodes(data);
    lemma_body_decodes(data, 3, toks, Seq::empty());
    let p: int = 3 + tokens_bits(toks).len() as int + 7;
    let empty = Seq::<u8>::empty();
    assert(block(data, 3, 1, empty) == Ok::<(Seq<u8>, int), InflateError>((replay(toks), p)));
    assert(next_block(data, 0, empty) == Ok::<(bool, Seq<u8>, int), InflateError>((true, replay(toks), p)));
    assert(inflate_blocks(data, 0, empty) == Ok::<(Seq<u8>, int), InflateError>((replay(toks), p)));
    assert(inflate_from(data, 0, empty) == Ok::<Seq<u8>, InflateError>(replay(toks)));
}

proof fn lemma_replay_literals(out: Seq<u8>, s: Seq<u8>)
    ensures
        replay_from(out, literal_tokens(s)) == out + s,
        tokens_fit_from(out, literal_tokens(s)),
    decreases s.len(),
{
    if s.len() == 0 {
        assert(out + s =~= out);
    } else {
        assert(literal_tokens(s).skip(1) =~= literal_tokens(s.skip(1)));
        lemma_replay_literals(out.push(s[0]), s.skip(1));
        assert(out.push(s[0]) + s.skip(1) =~= out + s);
    }
}

/// Decoding what the literal-only encoder produced for any input gives back that input.
pub proof fn lemma_literals_round_trip(input: Seq<u8>, data: Seq<u8>)
    requires
        packs(data, fixed_block_bits(literal_tokens(input))),
    ensures
        inflate_spec(data) == Ok::<Seq<u8>, InflateError>(input),
{
    lemma_replay_literals(Seq::empty(), input);
    assert(Seq::<u8>::empty() + input =~= input);
    lemma_fixed_block_decodes(data, literal_tokens(input));
}

/// Decoding what the LZ77 encoder produced for any input gives back that input.
pub proof fn lemma_lz77_round_trip(input: Seq<u8>, data: Seq<u8>)
    requires
        packs(data, fixed_block_bits(lz77_parse(input, 0))),
    ensures
        inflate_spec(data) == Ok::<Seq<u8>, InflateError>(input),
{
    lemma_parse_replays(input);
    lemma_fixed_block_decodes(data, lz77_parse(input, 0));
}

} // verus!
