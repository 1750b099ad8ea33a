//! The encoder: one final block with the fixed Huffman alphabet, either of literals only
//! or of the LZ77 token stream.

use vstd::prelude::*;
use crate::bitio::{pack_bits, packs};
use crate::helpers::{lsb_bits, msb_bits, usize_to_bits};
use crate::inflate::{InflateError, inflate_spec};
use crate::lz77::{
    Token, apply_token, lz77_parse, lz77_tokens, tokens_fit, tokens_fit_from, lemma_parse_replays,
};
use crate::roundtrip::{lemma_literals_round_trip, lemma_lz77_round_trip};
use crate::tables::{
    distance_base, distance_extra, distance_symbol, fixed_code, fixed_len, get_distance_base,
    get_distance_extra, get_distance_symbol, get_fixed_code, get_length_base, get_length_extra,
    get_length_symbol, length_base, length_extra, length_symbol, lemma_distance_symbol,
    lemma_length_symbol,
};

verus! {

/// The code of `sym` in the fixed literal/length alphabet, most significant bit first.
pub open spec fn symbol_bits(sym: nat) -> Seq<bool> {
    msb_bits(fixed_code(sym), fixed_len(sym))
}

/// The bits of one token: a literal's code, or a length code with its extra bits followed by
/// a five-bit distance code with its extra bits.
pub open spec fn token_bits(t: Token) -> Seq<bool> {
    match t {
        Token::Literal(b) => symbol_bits(b as nat),
        Token::Match { length, distance } => {
            let ls = length_symbol(length as nat);
            let ds = distance_symbol(distance as nat);
            symbol_bits(ls) + lsb_bits((length - length_base(ls)) as nat, length_extra(ls))
                + msb_bits(ds, 5) + lsb_bits((distance - distance_base(ds)) as nat, distance_extra(ds))
        },
    }
}

/// The bits of a token stream, token after token.
pub open spec fn tokens_bits(toks: Seq<Token>) -> Seq<bool>
    decreases toks.len(),
{
    if toks.len() == 0 {
        Seq::empty()
    } else {
        token_bits(toks[0]) + tokens_bits(toks.skip(1))
    }
}

/// A final fixed-Huffman block: the header bits BFINAL = 1 and BTYPE = 01 (low bit first),
/// the tokens, and the end-of-block code.
pub open spec fn fixed_block_bits(toks: Seq<Token>) -> Seq<bool> {
    seq![true, true, false] + tokens_bits(toks) + symbol_bits(256)
}

/// `new_out` is `old_out` followed by the packed bytes of `bits`.
pub open spec fn appends_packed(old_out: Seq<u8>, new_out: Seq<u8>, bits: Seq<bool>) -> bool {
    &&& old_out.len() <= new_out.len()
    &&& new_out.take(old_out.len() as int) == old_out
    &&& packs(new_out.skip(old_out.len() as int), bits)
}

/// Every byte of `s` as a literal token.
pub open spec fn literal_tokens(s: Seq<u8>) -> Seq<Token> {
    Seq::new(s.len(), |i: int| Token::Literal(s[i]))
}

/// Appends the `n` low bits of `v`, most significant first.
fn push_bits_msb(buf: &mut Vec<bool>, v: usize, n: u8)
    ensures
        final(buf)@ == old(buf)@ + msb_bits(v as nat, n as nat),
{
    let mut bits = usize_to_bits(v, n);
    buf.append(&mut bits);
}

/// Appends the `n` low bits of `v`, least significant first.
fn push_bits_lsb(buf: &mut Vec<bool>, v: usize, n: u8)
    ensures
        final(buf)@ == old(buf)@ + lsb_bits(v as nat, n as nat),
{
    let ghost start = buf@;
    let mut rest: usize = v;
    let mut i: u8 = 0;
    while i < n
        invariant
            i <= n,
            buf@ + lsb_bits(rest as nat, (n - i) as nat) == start + lsb_bits(v as nat, n as nat),
        decreases n - i,
    {
        let ghost before = buf@;
        proof {
            assert(lsb_bits(rest as nat, (n - i) as nat) == seq![rest % 2 == 1] + lsb_bits(
                (rest / 2) as nat,
                (n - i - 1) as nat,
            ));
        }
        buf.push(rest % 2 == 1);
        proof {
            assert(buf@ + lsb_bits((rest / 2) as nat, (n - i - 1) as nat) =~= before + lsb_bits(
                rest as nat,
                (n - i) as nat,
            ));
        }
        rest = rest / 2;
        i = i + 1;
    }
    assert(buf@ + lsb_bits(rest as nat, 0) =~= buf@);
}

/// Appends the fixed code of the literal/length symbol `sym`.
fn write_fixed_symbol(buf: &mut Vec<bool>, sym: usize)
    requires
        sym <= 287,
    ensures
        final(buf)@ == old(buf)@ + symbol_bits(sym as nat),
{
    let (code, len) = get_fixed_code(sym);
    push_bits_msb(buf, code, len);
}

/// A token whose length and distance the code tables cover.
pub open spec fn in_range(t: Token) -> bool {
    match t {
        Token::Literal(_) => true,
        Token::Match { length, distance } => 3 <= length <= 258 && 1 <= distance <= 32768,
    }
}

proof fn lemma_fit_in_range(out: Seq<u8>, toks: Seq<Token>)
    requires
        tokens_fit_from(out, toks),
    ensures
        forall|j: int| 0 <= j < toks.len() ==> #[trigger] in_range(toks[j]),
    decreases toks.len(),
{
    if toks.len() > 0 {
        lemma_fit_in_range(apply_token(out, toks[0]), toks.skip(1));
        assert forall|j: int| 0 <= j < toks.len() implies #[trigger] in_range(toks[j]) by {
            if j > 0 {
                assert(toks[j] == toks.skip(1)[j - 1]);
            }
        }
    }
}

/// Appends the bits of one token.
fn write_token(buf: &mut Vec<bool>, t: Token)
    requires
        in_range(t),
    ensures
        final(buf)@ == old(buf)@ + token_bits(t),
{
    let ghost start = buf@;
    match t {
        Token::Literal(b) => {
            write_fixed_symbol(buf, b as usize);
        },
        Token::Match { length, distance } => {
            proof {
                lemma_length_symbol(length as nat);
                lemma_distance_symbol(distance as nat);
            }
            let ls = get_length_symbol(length);
            write_fixed_symbol(buf, ls);
            let lbase = get_length_base(ls);
            let lextra = get_length_extra(ls);
            push_bits_lsb(buf, length - lbase, lextra);
            let ds = get_distance_symbol(distance);
            push_bits_msb(buf, ds, 5);
            let dbase = get_distance_base(ds);
            let dextra = get_distance_extra(ds);
            push_bits_lsb(buf, distance - dbase, dextra);
            assert(buf@ =~= start + token_bits(t));
        },
    }
}

proof fn lemma_tokens_bits_push(toks: Seq<Token>, t: Token)
    ensures
        tokens_bits(toks.push(t)) == tokens_bits(toks) + token_bits(t),
    decreases toks.len(),
{
    if toks.len() == 0 {
        assert(toks.push(t).skip(1) =~= Seq::<Token>::empty());
        assert(toks.push(t)[0] == t);
        assert(tokens_bits(toks.push(t).skip(1)) == Seq::<bool>::empty());
        assert(tokens_bits(toks) == Seq::<bool>::empty());
        assert(tokens_bits(toks.push(t)) =~= tokens_bits(toks) + token_bits(t));
    } else {
        lemma_tokens_bits_push(toks.skip(1), t);
        assert(toks.push(t).skip(1) =~= toks.skip(1).push(t));
        assert(toks.push(t)[0] == toks[0]);
        assert(tokens_bits(toks.push(t)) == token_bits(toks[0]) + tokens_bits(toks.skip(1).push(t)));
        assert(tokens_bits(toks.push(t)) =~= tokens_bits(toks) + token_bits(t));
    }
}

/// The state of one compression call: the input, its token stream, the bits written and the
/// packed bytes.
pub struct BitStreamDeflator {
    data: Vec<u8>,
    tokens: Vec<Token>,
    bit_buffer: Vec<bool>,
    look_back_buffer: Vec<u8>,
}

impl BitStreamDeflator {
    pub closed spec fn input(&self) -> Seq<u8> {
        self.data@
    }

    pub closed spec fn written(&self) -> Seq<bool> {
        self.bit_buffer@
    }

    pub closed spec fn token_stream(&self) -> Seq<Token> {
        self.tokens@
    }

    pub closed spec fn output(&self) -> Seq<u8> {
        self.look_back_buffer@
    }

    /// A compressor for `data` that has written nothing yet.
    pub fn new(data: Vec<u8>) -> (r: Self)
        ensures
            r.input() == data@,
            r.token_stream() == Seq::<Token>::empty(),
            r.written() == Seq::<bool>::empty(),
            r.output() == Seq::<u8>::empty(),
    {
        BitStreamDeflator {
            data,
            tokens: Vec::new(),
            bit_buffer: Vec::new(),
            look_back_buffer: Vec::new(),
        }
    }

    /// Writes a final fixed-Huffman block holding every input byte as a literal, then packs it.
    fn write_huffman(&mut self)
        requires
            old(self).written() == Seq::<bool>::empty(),
        ensures
            final(self).input() == old(self).input(),
            final(self).written() == fixed_block_bits(literal_tokens(old(self).input())),
            appends_packed(old(self).output(), final(self).output(), final(self).written()),
    {
        self.bit_buffer.push(true);
        self.bit_buffer.push(true);
        self.bit_buffer.push(false);
        let ghost s = self.data@;
        let mut i: usize = 0;
        assert(literal_tokens(s).take(0) =~= Seq::<Token>::empty());
        assert(self.bit_buffer@ =~= seq![true, true, false] + tokens_bits(Seq::<Token>::empty()));
        while i < self.data.len()
            invariant
                s == self.data@,
                self.look_back_buffer@ == old(self).look_back_buffer@,
                i <= s.len(),
                self.bit_buffer@ == seq![true, true, false] + tokens_bits(literal_tokens(s).take(i as int)),
            decreases s.len() - i,
        {
            let b = self.data[i];
            write_fixed_symbol(&mut self.bit_buffer, b as usize);
            proof {
                let lt = literal_tokens(s);
                assert(lt.take(i + 1) =~= lt.take(i as int).push(Token::Literal(b)));
                lemma_tokens_bits_push(lt.take(i as int), Token::Literal(b));
                assert(self.bit_buffer@ =~= seq![true, true, false] + tokens_bits(lt.take(i + 1)));
            }
            i = i + 1;
        }
        assert(literal_tokens(s).take(i as int) =~= literal_tokens(s));
        write_fixed_symbol(&mut self.bit_buffer, 256);
        self.prep_look_back_buffer();
    }

    /// Packs the written bits into bytes.
    fn prep_look_back_buffer(&mut self)
        ensures
            final(self).input() == old(self).input(),
            final(self).written() == old(self).written(),
            final(self).token_stream() == old(self).token_stream(),
            appends_packed(old(self).output(), final(self).output(), final(self).written()),
    {
        let ghost before = self.look_back_buffer@;
        let mut packed = pack_bits(&self.bit_buffer);
        let ghost p = packed@;
        self.look_back_buffer.append(&mut packed);
        assert(self.look_back_buffer@.take(before.len() as int) =~= before);
        assert(self.look_back_buffer@.skip(before.len() as int) =~= p);
    }

    /// Computes the LZ77 token stream of the input.
    fn lz77_baseline(&mut self)
        ensures
            final(self).input() == old(self).input(),
            final(self).written() == old(self).written(),
            final(self).output() == old(self).output(),
            final(self).token_stream() == lz77_parse(old(self).input(), 0),
    {
        self.tokens = lz77_tokens(&self.data);
    }

    /// Writes a final fixed-Huffman block holding the token stream, then packs it.
    fn write_huffman_with_lz77(&mut self)
        requires
            old(self).written() == Seq::<bool>::empty(),
            tokens_fit(old(self).token_stream()),
        ensures
            final(self).input() == old(self).input(),
            final(self).token_stream() == old(self).token_stream(),
            final(self).written() == fixed_block_bits(old(self).token_stream()),
            appends_packed(old(self).output(), final(self).output(), final(self).written()),
    {
        let ghost toks = self.tokens@;
        let ghost s = self.data@;
        proof {
            lemma_fit_in_range(Seq::empty(), toks);
        }
        self.bit_buffer.push(true);
        self.bit_buffer.push(true);
        self.bit_buffer.push(false);
        let mut i: usize = 0;
        assert(toks.take(0) =~= Seq::<Token>::empty());
        assert(self.bit_buffer@ =~= seq![true, true, false] + tokens_bits(Seq::<Token>::empty()));
        while i < self.tokens.len()
            invariant
                toks == self.tokens@,
                s == self.data@,
                self.look_back_buffer@ == old(self).look_back_buffer@,
                i <= toks.len(),
                forall|j: int| 0 <= j < toks.len() ==> #[trigger] in_range(toks[j]),
                self.bit_buffer@ == seq![true, true, false] + tokens_bits(toks.take(i as int)),
            decreases toks.len() - i,
        {
            let t = self.tokens[i];
            assert(in_range(toks[i as int]));
            write_token(&mut self.bit_buffer, t);
            proof {
                assert(toks.take(i + 1) =~= toks.take(i as int).push(t));
                lemma_tokens_bits_push(toks.take(i as int), t);
                assert(self.bit_buffer@ =~= seq![true, true, false] + tokens_bits(toks.take(i + 1)));
            }
            i = i + 1;
        }
        assert(toks.take(i as int) =~= toks);
        write_fixed_symbol(&mut self.bit_buffer, 256);
        self.prep_look_back_buffer();
    }
}

/// Compresses `data` into one final fixed-Huffman block that holds every byte as a literal.
pub fn deflate_data(data: Vec<u8>) -> (r: Vec<u8>)
    ensures
        packs(r@, fixed_block_bits(literal_tokens(data@))),
        inflate_spec(r@) == Ok::<Seq<u8>, InflateError>(data@),
{
    let mut bs = BitStreamDeflator::new(data);
    bs.write_huffman();
    proof {
        assert(bs.output().skip(0) =~= bs.output());
        lemma_literals_round_trip(bs.input(), bs.output());
    }
    bs.look_back_buffer
}

/// Compresses `data` into one final fixed-Huffman block that holds its LZ77 token stream.
pub fn deflate_data_with_77(data: Vec<u8>) -> (r: Vec<u8>)
    ensures
        packs(r@, fixed_block_bits(lz77_parse(data@, 0))),
        inflate_spec(r@) == Ok::<Seq<u8>, InflateError>(data@),
{
    let mut bs = BitStreamDeflator::new(data);
    bs.lz77_baseline();
    proof {
        lemma_parse_replays(bs.input());
    }
    bs.write_huffman_with_lz77();
    proof {
        assert(bs.output().skip(0) =~= bs.output());
        lemma_lz77_round_trip(bs.input(), bs.output());
    }
    bs.look_back_buffer
}

} // verus!
