//! The decoder: blocks are read one after another until the final one ends, each stored,
//! fixed-Huffman or dynamic-Huffman.

use vstd::prelude::*;
use crate::bitio::bit_at;
use crate::helpers::{
    bit_val, lsb_val, msb_val, pow2, lemma_lsb_val_bound, lemma_lsb_val_push, lemma_pow2_le,
};
use crate::huffman::{HuffTable, canonical_map, code_lookup, oversubscribed};
use crate::lz77::copy_back;
use crate::tables::{
    distance_base, distance_extra, get_distance_base, get_distance_extra, get_length_base,
    get_length_extra, length_base, length_extra, lemma_pow2_small,
};

verus! {

/// Why a stream could not be decoded.
#[derive(Clone, Copy, Debug, PartialEq, Eq)]
pub enum InflateError {
    /// The stream ends inside a block.
    UnexpectedEnd,
    /// A block header names block type 3.
    InvalidBlockType,
    /// No code of at most 15 bits matches the bits that follow.
    InvalidCode,
    /// A literal/length symbol above 285.
    InvalidLengthSymbol,
    /// A distance symbol above 29.
    InvalidDistanceSymbol,
    /// A back-reference reaches before the start of the output.
    DistanceTooFar,
    /// A stored block's NLEN is not the complement of its LEN.
    StoredLengthMismatch,
    /// The code lengths of a dynamic block repeat nothing or run past their count.
    InvalidCodeLengths,
    /// The code lengths of a dynamic block ask for more codes than a prefix code can hold.
    OversubscribedCode,
}

/// Number of bits the stream carries.
pub open spec fn nbits(data: Seq<u8>) -> int {
    (data.len() * 8) as int
}

/// The `n` bits of the stream from position `pos` on.
pub open spec fn bits_from(data: Seq<u8>, pos: int, n: nat) -> Seq<bool> {
    Seq::new(n, |i: int| bit_at(data, pos + i))
}

/// An `n`-bit number stored least significant bit first at `pos`, and the position after it.
pub open spec fn read_lsb(data: Seq<u8>, pos: int, n: nat) -> Result<(nat, int), InflateError> {
    if 0 <= pos && pos + n <= nbits(data) {
        Ok((lsb_val(bits_from(data, pos, n)), pos + n))
    } else {
        Err(InflateError::UnexpectedEnd)
    }
}

/// An `n`-bit number stored most significant bit first at `pos`, and the position after it.
pub open spec fn read_msb(data: Seq<u8>, pos: int, n: nat) -> Result<(nat, int), InflateError> {
    if 0 <= pos && pos + n <= nbits(data) {
        Ok((msb_val(bits_from(data, pos, n)), pos + n))
    } else {
        Err(InflateError::UnexpectedEnd)
    }
}

/// The fixed literal/length symbol at `pos`: the four code ranges are tried by length.
pub open spec fn fixed_symbol(data: Seq<u8>, pos: int) -> Result<(nat, int), InflateError> {
    if pos < 0 || pos + 7 > nbits(data) {
        Err(InflateError::UnexpectedEnd)
    } else {
        let v7 = msb_val(bits_from(data, pos, 7));
        if v7 <= 23 {
            Ok((256 + v7, pos + 7))
        } else if pos + 8 > nbits(data) {
            Err(InflateError::UnexpectedEnd)
        } else {
            let v8 = msb_val(bits_from(data, pos, 8));
            if 48 <= v8 <= 191 {
                Ok(((v8 - 48) as nat, pos + 8))
            } else if 192 <= v8 <= 199 {
                Ok(((v8 - 192 + 280) as nat, pos + 8))
            } else if pos + 9 > nbits(data) {
                Err(InflateError::UnexpectedEnd)
            } else {
                let v9 = msb_val(bits_from(data, pos, 9));
                if 400 <= v9 <= 511 {
                    Ok(((v9 - 400 + 144) as nat, pos + 9))
                } else {
                    Err(InflateError::InvalidCode)
                }
            }
        }
    }
}

/// Decodes a symbol of the canonical code of `lens` at `pos`, having read `len` bits whose
/// value is `v`: one more bit at a time until a code matches, at most 15 bits in all.
pub open spec fn huff_from(lens: Seq<u8>, data: Seq<u8>, pos: int, len: nat, v: nat) -> Result<
    (nat, int),
    InflateError,
>
    decreases 15 - len,
{
    if len >= 15 {
        Err(InflateError::InvalidCode)
    } else if pos < 0 || pos + len + 1 > nbits(data) {
        Err(InflateError::UnexpectedEnd)
    } else {
        let v2 = 2 * v + bit_val(bit_at(data, pos + len));
        match code_lookup(lens, len + 1, v2) {
            Some(sym) => Ok((sym as nat, pos + len + 1)),
            None => huff_from(lens, data, pos, len + 1, v2),
        }
    }
}

/// The symbol of the canonical code of `lens` at `pos`, and the position after it.
pub open spec fn huff_symbol(lens: Seq<u8>, data: Seq<u8>, pos: int) -> Result<(nat, int), InflateError> {
    huff_from(lens, data, pos, 0, 0)
}

/// The alphabets of a block: `None` for the fixed ones, else the literal/length and the
/// distance code lengths of a dynamic block.
pub type Codes = Option<(Seq<u8>, Seq<u8>)>;

/// The literal/length symbol at `pos`.
pub open spec fn lit_symbol(codes: Codes, data: Seq<u8>, pos: int) -> Result<(nat, int), InflateError> {
    match codes {
        None => fixed_symbol(data, pos),
        Some(c) => huff_symbol(c.0, data, pos),
    }
}

/// The distance symbol at `pos`: five bits, most significant first, in a fixed block.
pub open spec fn dist_symbol(codes: Codes, data: Seq<u8>, pos: int) -> Result<(nat, int), InflateError> {
    match codes {
        None => read_msb(data, pos, 5),
        Some(c) => huff_symbol(c.1, data, pos),
    }
}

/// The back-reference that the length symbol `sym` opens at `pos`: its length extra bits,
/// the distance code and its extra bits, then the copy; the output and the position after it.
pub open spec fn back_reference(codes: Codes, data: Seq<u8>, pos: int, sym: nat, out: Seq<u8>) -> Result<
    (Seq<u8>, int),
    InflateError,
> {
    match read_lsb(data, pos, length_extra(sym)) {
        Err(e) => Err(e),
        Ok((le, p1)) => {
            let len = length_base(sym) + le;
            match dist_symbol(codes, data, p1) {
                Err(e) => Err(e),
                Ok((ds, p2)) => {
                    if ds >= 30 {
                        Err(InflateError::InvalidDistanceSymbol)
                    } else {
                        match read_lsb(data, p2, distance_extra(ds)) {
                            Err(e) => Err(e),
                            Ok((de, p3)) => {
                                let dist = distance_base(ds) + de;
                                if dist > out.len() {
                                    Err(InflateError::DistanceTooFar)
                                } else {
                                    Ok((copy_back(out, len, dist), p3))
                                }
                            },
                        }
                    }
                },
            }
        },
    }
}

/// The symbols of a Huffman block from `pos` on, up to and including end-of-block: the
/// output and the position after the block.
pub open spec fn block_body(codes: Codes, data: Seq<u8>, pos: int, out: Seq<u8>) -> Result<
    (Seq<u8>, int),
    InflateError,
>
    decreases nbits(data) - pos,
{
    match lit_symbol(codes, data, pos) {
        Err(e) => Err(e),
        Ok((sym, p1)) => {
            if !(pos < p1 <= nbits(data)) {
                Err(InflateError::UnexpectedEnd)
            } else if sym < 256 {
                block_body(codes, data, p1, out.push(sym as u8))
            } else if sym == 256 {
                Ok((out, p1))
            } else if sym <= 285 {
                match back_reference(codes, data, p1, sym, out) {
                    Err(e) => Err(e),
                    Ok((o2, p2)) => {
                        if !(p1 <= p2 <= nbits(data)) {
                            Err(InflateError::UnexpectedEnd)
                        } else {
                            block_body(codes, data, p2, o2)
                        }
                    },
                }
            } else {
                Err(InflateError::InvalidLengthSymbol)
            }
        },
    }
}

/// A stored block whose header ended at `pos`: from the next byte boundary, LEN and NLEN
/// (16 bits each, little-endian), then LEN bytes copied as they are.
pub open spec fn stored_block(data: Seq<u8>, pos: int, out: Seq<u8>) -> Result<(Seq<u8>, int), InflateError> {
    let b = (pos + 7) / 8;
    if pos < 0 || b + 4 > data.len() {
        Err(InflateError::UnexpectedEnd)
    } else {
        let len = data[b] as nat + 256 * (data[b + 1] as nat);
        let nlen = data[b + 2] as nat + 256 * (data[b + 3] as nat);
        if len + nlen != 65535 {
            Err(InflateError::StoredLengthMismatch)
        } else if b + 4 + len > data.len() {
            Err(InflateError::UnexpectedEnd)
        } else {
            Ok((out + data.subrange(b + 4, b + 4 + len), (b + 4 + len) * 8))
        }
    }
}

/// The order in which the code lengths of the code-length alphabet are stored.
pub open spec fn cl_order(i: int) -> int {
    if i == 0 {
        16
    } else if i == 1 {
        17
    } else if i == 2 {
        18
    } else if i == 3 {
        0
    } else if i == 4 {
        8
    } else if i == 5 {
        7
    } else if i == 6 {
        9
    } else if i == 7 {
        6
    } else if i == 8 {
        10
    } else if i == 9 {
        5
    } else if i == 10 {
        11
    } else if i == 11 {
        4
    } else if i == 12 {
        12
    } else if i == 13 {
        3
    } else if i == 14 {
        13
    } else if i == 15 {
        2
    } else if i == 16 {
        14
    } else if i == 17 {
        1
    } else if i == 18 {
        15
    } else {
        0
    }
}

/// The code lengths of the code-length alphabet, three bits each, entries `i` to
/// `count - 1` of the stored order still to read into `acc`.
pub open spec fn cl_lengths_from(data: Seq<u8>, pos: int, count: nat, i: nat, acc: Seq<u8>) -> Result<
    (Seq<u8>, int),
    InflateError,
>
    decreases count - i,
{
    if i >= count || i >= 19 {
        Ok((acc, pos))
    } else {
        match read_lsb(data, pos, 3) {
            Err(e) => Err(e),
            Ok((v, p1)) => cl_lengths_from(data, p1, count, i + 1, acc.update(cl_order(i as int), v as u8)),
        }
    }
}

/// The first `count` code lengths of the code-length alphabet; the others are 0.
pub open spec fn cl_lengths(data: Seq<u8>, pos: int, count: nat) -> Result<(Seq<u8>, int), InflateError> {
    cl_lengths_from(data, pos, count, 0, Seq::new(19, |i: int| 0u8))
}

/// Decodes code lengths with the code-length code `cl` until `acc` holds `total` of them:
/// 0 to 15 stand for themselves, 16 repeats the previous one 3 to 6 times, 17 gives 3 to 10
/// zeros and 18 gives 11 to 138 zeros.
pub open spec fn code_lengths_from(cl: Seq<u8>, data: Seq<u8>, pos: int, total: nat, acc: Seq<u8>) -> Result<
    (Seq<u8>, int),
    InflateError,
>
    decreases total - acc.len(),
{
    if acc.len() >= total {
        Ok((acc, pos))
    } else {
        match huff_symbol(cl, data, pos) {
            Err(e) => Err(e),
            Ok((x, p1)) => {
                if x <= 15 {
                    code_lengths_from(cl, data, p1, total, acc.push(x as u8))
                } else if x <= 18 {
                    let (nbits, base) = if x == 16 { (2nat, 3nat) } else if x == 17 { (3nat, 3nat) } else { (7nat, 11nat) };
                    match read_lsb(data, p1, nbits) {
                        Err(e) => Err(e),
                        Ok((r, p2)) => {
                            let rep = base + r;
                            if x == 16 && acc.len() == 0 {
                                Err(InflateError::InvalidCodeLengths)
                            } else if acc.len() + rep > total {
                                Err(InflateError::InvalidCodeLengths)
                            } else {
                                let v = if x == 16 { acc.last() } else { 0u8 };
                                code_lengths_from(cl, data, p2, total, acc + Seq::new(rep, |i: int| v))
                            }
                        },
                    }
                } else {
                    Err(InflateError::InvalidCode)
                }
            },
        }
    }
}

/// The header of a dynamic block at `pos`: HLIT, HDIST, HCLEN, the code-length code, then
/// `HLIT + 257` literal/length and `HDIST + 1` distance code lengths in one stream; none of the
/// three codes may be over-subscribed.
pub open spec fn dynamic_codes(data: Seq<u8>, pos: int) -> Result<((Seq<u8>, Seq<u8>), int), InflateError> {
    match read_lsb(data, pos, 5) {
        Err(e) => Err(e),
        Ok((hlit, p1)) => match read_lsb(data, p1, 5) {
            Err(e) => Err(e),
            Ok((hdist, p2)) => match read_lsb(data, p2, 4) {
                Err(e) => Err(e),
                Ok((hclen, p3)) => match cl_lengths(data, p3, hclen + 4) {
                    Err(e) => Err(e),
                    Ok((cl, p4)) => if oversubscribed(cl) {
                        Err(InflateError::OversubscribedCode)
                    } else {
                        match code_lengths_from(cl, data, p4, hlit + hdist + 258, Seq::empty()) {
                            Err(e) => Err(e),
                            Ok((lens, p5)) => {
                                let lit = lens.take(hlit + 257int);
                                let dist = lens.skip(hlit + 257int);
                                if oversubscribed(lit) || oversubscribed(dist) {
                                    Err(InflateError::OversubscribedCode)
                                } else {
                                    Ok(((lit, dist), p5))
                                }
                            },
                        }
                    },
                },
            },
        },
    }
}

/// The block of type `btype` whose header ended at `pos`.
pub open spec fn block(data: Seq<u8>, pos: int, btype: nat, out: Seq<u8>) -> Result<(Seq<u8>, int), InflateError> {
    if btype == 0 {
        stored_block(data, pos, out)
    } else if btype == 1 {
        block_body(None, data, pos, out)
    } else if btype == 2 {
        match dynamic_codes(data, pos) {
            Err(e) => Err(e),
            Ok((c, p1)) => block_body(Some(c), data, p1, out),
        }
    } else {
        Err(InflateError::InvalidBlockType)
    }
}

/// The block at `pos`, header included: whether it is marked final, the output after it and
/// the position after it.
pub open spec fn next_block(data: Seq<u8>, pos: int, out: Seq<u8>) -> Result<(bool, Seq<u8>, int), InflateError> {
    match read_lsb(data, pos, 1) {
        Err(e) => Err(e),
        Ok((bfinal, p1)) => match read_lsb(data, p1, 2) {
            Err(e) => Err(e),
            Ok((btype, p2)) => match block(data, p2, btype, out) {
                Err(e) => Err(e),
                Ok((o, p3)) => Ok((bfinal == 1, o, p3)),
            },
        },
    }
}

/// The blocks from `pos` on, until the one marked final: the output and the position right
/// after that block.
pub open spec fn inflate_blocks(data: Seq<u8>, pos: int, out: Seq<u8>) -> Result<(Seq<u8>, int), InflateError>
    decreases nbits(data) - pos,
{
    match next_block(data, pos, out) {
        Err(e) => Err(e),
        Ok((fin, o, p)) => {
            if fin {
                Ok((o, p))
            } else if !(pos < p <= nbits(data)) {
                Err(InflateError::UnexpectedEnd)
            } else {
                inflate_blocks(data, p, o)
            }
        },
    }
}

/// The output of the blocks from `pos` on, until the one marked final.
pub open spec fn inflate_from(data: Seq<u8>, pos: int, out: Seq<u8>) -> Result<Seq<u8>, InflateError> {
    match inflate_blocks(data, pos, out) {
        Ok((o, _)) => Ok(o),
        Err(e) => Err(e),
    }
}

/// What a DEFLATE stream decodes to.
pub open spec fn inflate_spec(data: Seq<u8>) -> Result<Seq<u8>, InflateError> {
    inflate_from(data, 0, Seq::empty())
}

proof fn lemma_bits_from_push(data: Seq<u8>, pos: int, n: nat)
    ensures
        bits_from(data, pos, n + 1) == bits_from(data, pos, n).push(bit_at(data, pos + n)),
        bits_from(data, pos, n + 1).drop_last() == bits_from(data, pos, n),
{
    assert(bits_from(data, pos, n + 1) =~= bits_from(data, pos, n).push(bit_at(data, pos + n)));
    assert(bits_from(data, pos, n + 1).drop_last() =~= bits_from(data, pos, n));
}

proof fn lemma_huff_from_advances(lens: Seq<u8>, data: Seq<u8>, pos: int, len: nat, v: nat)
    ensures
        huff_from(lens, data, pos, len, v) matches Ok((_, p)) ==> pos + len < p <= nbits(data),
    decreases 15 - len,
{
    if len < 15 && 0 <= pos && pos + len + 1 <= nbits(data) {
        let v2 = 2 * v + bit_val(bit_at(data, pos + len));
        if code_lookup(lens, len + 1, v2).is_none() {
            lemma_huff_from_advances(lens, data, pos, len + 1, v2);
        }
    }
}

/// A literal/length symbol advances within the stream.
proof fn lemma_lit_symbol_advances(codes: Codes, data: Seq<u8>, pos: int)
    ensures
        lit_symbol(codes, data, pos) matches Ok((_, p)) ==> pos < p <= nbits(data),
        dist_symbol(codes, data, pos) matches Ok((_, p)) ==> pos <= p <= nbits(data),
{
    match codes {
        None => {},
        Some(c) => {
            lemma_huff_from_advances(c.0, data, pos, 0, 0);
            lemma_huff_from_advances(c.1, data, pos, 0, 0);
        },
    }
}

proof fn lemma_back_reference_advances(codes: Codes, data: Seq<u8>, pos: int, sym: nat, out: Seq<u8>)
    ensures
        back_reference(codes, data, pos, sym, out) matches Ok((_, p)) ==> pos <= p <= nbits(data),
{
    match read_lsb(data, pos, length_extra(sym)) {
        Err(e) => {},
        Ok((le, p1)) => {
            lemma_lit_symbol_advances(codes, data, p1);
        },
    }
}

/// The alphabets that a pair of decoding tables stands for.
pub open spec fn codes_of(tables: Option<(HuffTable, HuffTable)>) -> Codes {
    match tables {
        None => None,
        Some(t) => Some((t.0.lens(), t.1.lens())),
    }
}

/// Both tables of a dynamic block are well formed.
pub open spec fn tables_wf(tables: Option<(HuffTable, HuffTable)>) -> bool {
    match tables {
        None => true,
        Some(t) => t.0.wf() && t.1.wf(),
    }
}

/// Position in the code-length alphabet of the `i`-th stored code length.
fn code_len_order(i: usize) -> (r: usize)
    requires
        i < 19,
    ensures
        r as int == cl_order(i as int),
        r < 19,
{
    if i == 0 {
        16
    } else if i == 1 {
        17
    } else if i == 2 {
        18
    } else if i == 3 {
        0
    } else if i == 4 {
        8
    } else if i == 5 {
        7
    } else if i == 6 {
        9
    } else if i == 7 {
        6
    } else if i == 8 {
        10
    } else if i == 9 {
        5
    } else if i == 10 {
        11
    } else if i == 11 {
        4
    } else if i == 12 {
        12
    } else if i == 13 {
        3
    } else if i == 14 {
        13
    } else if i == 15 {
        2
    } else if i == 16 {
        14
    } else if i == 17 {
        1
    } else if i == 18 {
        15
    } else {
        0
    }
}

/// The entries `lo..hi` of `v`.
fn copy_range(v: &Vec<u8>, lo: usize, hi: usize) -> (r: Vec<u8>)
    requires
        lo <= hi <= v@.len(),
    ensures
        r@ == v@.subrange(lo as int, hi as int),
{
    let mut r: Vec<u8> = Vec::new();
    let mut i: usize = lo;
    while i < hi
        invariant
            lo <= i <= hi,
            hi <= v@.len(),
            r@ == v@.subrange(lo as int, i as int),
        decreases hi - i,
    {
        r.push(v[i]);
        assert(r@ =~= v@.subrange(lo as int, i + 1));
        i = i + 1;
    }
    r
}

proof fn lemma_code_lengths_len(cl: Seq<u8>, data: Seq<u8>, pos: int, total: nat, acc: Seq<u8>)
    requires
        acc.len() <= total,
    ensures
        code_lengths_from(cl, data, pos, total, acc) matches Ok((lens, _)) ==> lens.len() == total,
    decreases total - acc.len(),
{
    if acc.len() < total {
        match huff_symbol(cl, data, pos) {
            Err(e) => {},
            Ok((x, p1)) => {
                if x <= 15 {
                    lemma_code_lengths_len(cl, data, p1, total, acc.push(x as u8));
                } else if x <= 18 {
                    let (nb, base) = if x == 16 { (2nat, 3nat) } else if x == 17 { (3nat, 3nat) } else { (7nat, 11nat) };
                    match read_lsb(data, p1, nb) {
                        Err(e) => {},
                        Ok((r, p2)) => {
                            let rep = base + r;
                            if !(x == 16 && acc.len() == 0) && acc.len() + rep <= total {
                                let v = if x == 16 { acc.last() } else { 0u8 };
                                lemma_code_lengths_len(cl, data, p2, total, acc + Seq::new(rep, |i: int| v));
                            }
                        },
                    }
                }
            },
        }
    }
}

/// Decoding the code lengths of a dynamic block yields exactly `HLIT + HDIST + 258` entries,
/// `HLIT + 257` for the literal/length alphabet and `HDIST + 1` for the distance alphabet.
pub proof fn lemma_dynamic_code_count(data: Seq<u8>, pos: int)
    ensures
        dynamic_codes(data, pos) matches Ok((c, _)) ==> {
            let hlit = lsb_val(bits_from(data, pos, 5));
            let hdist = lsb_val(bits_from(data, pos + 5, 5));
            &&& c.0.len() == hlit + 257
            &&& c.1.len() == hdist + 1
        },
{
    match read_lsb(data, pos, 5) {
        Err(e) => {},
        Ok((hlit, p1)) => match read_lsb(data, p1, 5) {
            Err(e) => {},
            Ok((hdist, p2)) => match read_lsb(data, p2, 4) {
                Err(e) => {},
                Ok((hclen, p3)) => match cl_lengths(data, p3, hclen + 4) {
                    Err(e) => {},
                    Ok((cl, p4)) => {
                        lemma_code_lengths_len(cl, data, p4, hlit + hdist + 258, Seq::empty());
                    },
                },
            },
        },
    }
}

/// The state of one decompression call: the input, the read cursor as a byte and a bit
/// position, and the output produced so far.
pub struct BitStreamInflator {
    data: Vec<u8>,
    byte_pos: usize,
    bit_pos: usize,
    cur_block_type: usize,
    look_back_buffer: Vec<u8>,
    finished: bool,
}

impl BitStreamInflator {
    /// The compressed input.
    pub closed spec fn input(&self) -> Seq<u8> {
        self.data@
    }

    /// The read cursor, in bits from the start of the input.
    pub closed spec fn pos(&self) -> int {
        self.byte_pos * 8 + self.bit_pos
    }

    /// The output produced so far.
    pub closed spec fn out(&self) -> Seq<u8> {
        self.look_back_buffer@
    }

    /// The cursor lies within the input.
    pub closed spec fn wf(&self) -> bool {
        &&& self.bit_pos < 8
        &&& self.byte_pos <= self.data@.len()
        &&& self.byte_pos == self.data@.len() ==> self.bit_pos == 0
    }

    /// A decompressor at the start of `data`.
    pub fn new(data: Vec<u8>) -> (r: Self)
        ensures
            r.wf(),
            r.input() == data@,
            r.pos() == 0,
            r.out() == Seq::<u8>::empty(),
    {
        BitStreamInflator {
            data,
            byte_pos: 0,
            bit_pos: 0,
            cur_block_type: 0,
            look_back_buffer: Vec::new(),
            finished: false,
        }
    }

    /// The next bit of the stream.
    fn get_next_bit(&mut self) -> (r: Result<bool, InflateError>)
        requires
            old(self).wf(),
        ensures
            final(self).wf(),
            final(self).input() == old(self).input(),
            final(self).out() == old(self).out(),
            old(self).pos() < nbits(old(self).input()) ==> r == Ok::<bool, InflateError>(
                bit_at(old(self).input(), old(self).pos()),
            ) && final(self).pos() == old(self).pos() + 1,
            old(self).pos() >= nbits(old(self).input()) ==> r == Err::<bool, InflateError>(
                InflateError::UnexpectedEnd,
            ),
            0 <= old(self).pos() <= nbits(old(self).input()),
            final(self).finished == old(self).finished,
            final(self).cur_block_type == old(self).cur_block_type,
    {
        if self.byte_pos >= self.data.len() {
            return Err(InflateError::UnexpectedEnd);
        }
        let ret = (self.data[self.byte_pos] >> (self.bit_pos as u8)) & 1u8 == 1u8;
        self.bit_pos = self.bit_pos + 1;
        if self.bit_pos >= 8 {
            self.byte_pos = self.byte_pos + 1;
            self.bit_pos = 0;
        }
        Ok(ret)
    }

    /// The next `n` bits as a number, least significant bit first.
    fn read_lsb_bits(&mut self, n: usize) -> (r: Result<usize, InflateError>)
        requires
            old(self).wf(),
            n <= 16,
        ensures
            final(self).wf(),
            final(self).input() == old(self).input(),
            final(self).out() == old(self).out(),
            final(self).finished == old(self).finished,
            final(self).cur_block_type == old(self).cur_block_type,
            match read_lsb(old(self).input(), old(self).pos(), n as nat) {
                Ok((v, p)) => r == Ok::<usize, InflateError>(v as usize) && final(self).pos() == p && v < pow2(n as nat),
                Err(e) => r == Err::<usize, InflateError>(e),
            },
    {
        let ghost data = self.data@;
        let ghost pos0 = self.pos();
        let mut v: usize = 0;
        let mut weight: usize = 1;
        let mut i: usize = 0;
        proof {
            lemma_pow2_small();
            assert(bits_from(data, pos0, 0) =~= Seq::<bool>::empty());
        }
        while i < n
            invariant
                self.wf(),
                self.input() == data,
                data == old(self).input(),
                self.out() == old(self).out(),
                self.finished == old(self).finished,
                self.cur_block_type == old(self).cur_block_type,
                pos0 == old(self).pos(),
                0 <= pos0,
                i <= n,
                n <= 16,
                self.pos() == pos0 + i,
                pos0 + i <= nbits(data),
                v == lsb_val(bits_from(data, pos0, i as nat)),
                weight == pow2(i as nat),
                weight <= 65536,
            decreases n - i,
        {
            let b = self.get_next_bit();
            match b {
                Err(e) => {
                    return Err(e);
                },
                Ok(bit) => {
                    proof {
                        lemma_bits_from_push(data, pos0, i as nat);
                        lemma_lsb_val_push(bits_from(data, pos0, i as nat), bit);
                        lemma_lsb_val_bound(bits_from(data, pos0, i as nat));
                        lemma_pow2_small();
                        assert(pow2((i + 1) as nat) == 2 * pow2(i as nat));
                    }
                    if bit {
                        v = v + weight;
                    }
                    weight = weight * 2;
                },
            }
            i = i + 1;
        }
        proof {
            lemma_lsb_val_bound(bits_from(data, pos0, n as nat));
        }
        Ok(v)
    }

    /// The next `n` bits as a number, most significant bit first.
    fn read_msb_bits(&mut self, n: usize) -> (r: Result<usize, InflateError>)
        requires
            old(self).wf(),
            n <= 16,
        ensures
            final(self).wf(),
            final(self).input() == old(self).input(),
            final(self).out() == old(self).out(),
            match read_msb(old(self).input(), old(self).pos(), n as nat) {
                Ok((v, p)) => r == Ok::<usize, InflateError>(v as usize) && final(self).pos() == p && v < pow2(n as nat),
                Err(e) => r == Err::<usize, InflateError>(e),
            },
    {
        let ghost data = self.data@;
        let ghost pos0 = self.pos();
        let mut v: usize = 0;
        let mut i: usize = 0;
        proof {
            lemma_pow2_small();
            assert(bits_from(data, pos0, 0) =~= Seq::<bool>::empty());
        }
        while i < n
            invariant
                self.wf(),
                self.input() == data,
                data == old(self).input(),
                self.out() == old(self).out(),
                pos0 == old(self).pos(),
                0 <= pos0,
                i <= n,
                n <= 16,
                self.pos() == pos0 + i,
                pos0 + i <= nbits(data),
                v == msb_val(bits_from(data, pos0, i as nat)),
                v < pow2(i as nat),
            decreases n - i,
        {
            let b = self.get_next_bit();
            match b {
                Err(e) => {
                    return Err(e);
                },
                Ok(bit) => {
                    proof {
                        lemma_bits_from_push(data, pos0, i as nat);
                        lemma_pow2_le(i as nat, 15);
                        lemma_pow2_small();
                    }
                    v = 2 * v + if bit { 1 } else { 0 };
                },
            }
            i = i + 1;
        }
        Ok(v)
    }

    /// The next symbol of the fixed literal/length alphabet.
    fn read_fixed_symbol(&mut self) -> (r: Result<usize, InflateError>)
        requires
            old(self).wf(),
        ensures
            final(self).wf(),
            final(self).input() == old(self).input(),
            final(self).out() == old(self).out(),
            match fixed_symbol(old(self).input(), old(self).pos()) {
                Ok((v, p)) => r == Ok::<usize, InflateError>(v as usize) && v <= usize::MAX && final(self).pos() == p,
                Err(e) => r == Err::<usize, InflateError>(e),
            },
    {
        let ghost data = self.data@;
        let ghost pos0 = self.pos();
        let v7 = match self.read_msb_bits(7) {
            Err(e) => {
                return Err(e);
            },
            Ok(v) => v,
        };
        proof {
            lemma_pow2_small();
        }
        if v7 <= 23 {
            return Ok(256 + v7);
        }
        let b8 = match self.get_next_bit() {
            Err(e) => {
                return Err(e);
            },
            Ok(b) => b,
        };
        let v8 = 2 * v7 + if b8 { 1 } else { 0 };
        proof {
            lemma_bits_from_push(data, pos0, 7);
        }
        if 48 <= v8 && v8 <= 191 {
            return Ok(v8 - 48);
        }
        if 192 <= v8 && v8 <= 199 {
            return Ok(v8 - 192 + 280);
        }
        let b9 = match self.get_next_bit() {
            Err(e) => {
                return Err(e);
            },
            Ok(b) => b,
        };
        let v9 = 2 * v8 + if b9 { 1 } else { 0 };
        proof {
            lemma_bits_from_push(data, pos0, 8);
        }
        if 400 <= v9 && v9 <= 511 {
            Ok(v9 - 400 + 144)
        } else {
            Err(InflateError::InvalidCode)
        }
    }

    /// The next symbol of the canonical code that `table` decodes.
    fn read_huff_symbol(&mut self, table: &HuffTable) -> (r: Result<usize, InflateError>)
        requires
            old(self).wf(),
            table.wf(),
        ensures
            final(self).wf(),
            final(self).input() == old(self).input(),
            final(self).out() == old(self).out(),
            match huff_symbol(table.lens(), old(self).input(), old(self).pos()) {
                Ok((v, p)) => r == Ok::<usize, InflateError>(v as usize) && v <= usize::MAX && final(self).pos() == p,
                Err(e) => r == Err::<usize, InflateError>(e),
            },
    {
        let ghost data = self.data@;
        let ghost pos0 = self.pos();
        let ghost lens = table.lens();
        let mut v: usize = 0;
        let mut len: usize = 0;
        proof {
            lemma_pow2_small();
        }
        while len < 15
            invariant
                self.wf(),
                table.wf(),
                lens == table.lens(),
                self.input() == data,
                data == old(self).input(),
                self.out() == old(self).out(),
                pos0 == old(self).pos(),
                0 <= pos0,
                len <= 15,
                self.pos() == pos0 + len,
                v < pow2(len as nat),
                huff_symbol(lens, data, pos0) == huff_from(lens, data, pos0, len as nat, v as nat),
            decreases 15 - len,
        {
            let bit = match self.get_next_bit() {
                Err(e) => {
                    return Err(e);
                },
                Ok(b) => b,
            };
            proof {
                lemma_pow2_le(len as nat, 15);
                lemma_pow2_small();
            }
            v = 2 * v + if bit { 1 } else { 0 };
            len = len + 1;
            match table.lookup(len, v) {
                Some(sym) => {
                    return Ok(sym);
                },
                None => {},
            }
        }
        Err(InflateError::InvalidCode)
    }

    /// The next literal/length symbol of the block's alphabet.
    fn read_lit_symbol(&mut self, tables: &Option<(HuffTable, HuffTable)>) -> (r: Result<usize, InflateError>)
        requires
            old(self).wf(),
            tables_wf(*tables),
        ensures
            final(self).wf(),
            final(self).input() == old(self).input(),
            final(self).out() == old(self).out(),
            match lit_symbol(codes_of(*tables), old(self).input(), old(self).pos()) {
                Ok((v, p)) => r == Ok::<usize, InflateError>(v as usize) && v <= usize::MAX && final(self).pos() == p,
                Err(e) => r == Err::<usize, InflateError>(e),
            },
    {
        match tables {
            None => self.read_fixed_symbol(),
            Some(t) => self.read_huff_symbol(&t.0),
        }
    }

    /// The next distance symbol: five bits in a fixed block, else from the distance code.
    fn get_distance_symbol(&mut self, tables: &Option<(HuffTable, HuffTable)>) -> (r: Result<usize, InflateError>)
        requires
            old(self).wf(),
            tables_wf(*tables),
        ensures
            final(self).wf(),
            final(self).input() == old(self).input(),
            final(self).out() == old(self).out(),
            match dist_symbol(codes_of(*tables), old(self).input(), old(self).pos()) {
                Ok((v, p)) => r == Ok::<usize, InflateError>(v as usize) && v <= usize::MAX && final(self).pos() == p,
                Err(e) => r == Err::<usize, InflateError>(e),
            },
    {
        proof {
            lemma_pow2_small();
        }
        match tables {
            None => self.read_msb_bits(5),
            Some(t) => self.read_huff_symbol(&t.1),
        }
    }

    /// Appends one byte to the output.
    fn write_literal_char(&mut self, c: u8)
        ensures
            final(self).wf() == old(self).wf(),
            final(self).input() == old(self).input(),
            final(self).pos() == old(self).pos(),
            final(self).out() == old(self).out().push(c),
    {
        self.look_back_buffer.push(c);
    }

    /// Reads the rest of the back-reference that the length symbol `sym` opened and copies
    /// its bytes, re-reading the output as it grows.
    fn repeat_buffer(&mut self, sym: usize, tables: &Option<(HuffTable, HuffTable)>) -> (r: Result<(), InflateError>)
        requires
            old(self).wf(),
            tables_wf(*tables),
            257 <= sym <= 285,
        ensures
            final(self).wf(),
            final(self).input() == old(self).input(),
            match back_reference(codes_of(*tables), old(self).input(), old(self).pos(), sym as nat, old(self).out()) {
                Ok((o, p)) => r == Ok::<(), InflateError>(()) && final(self).out() == o && final(self).pos() == p,
                Err(e) => r == Err::<(), InflateError>(e),
            },
            r is Err ==> final(self).out() == old(self).out(),
            old(self).out().is_prefix_of(final(self).out()),
    {
        let lextra = get_length_extra(sym);
        let le = match self.read_lsb_bits(lextra as usize) {
            Err(e) => {
                return Err(e);
            },
            Ok(v) => v,
        };
        proof {
            lemma_pow2_small();
        }
        let len = get_length_base(sym) + le;
        let ds = match self.get_distance_symbol(tables) {
            Err(e) => {
                return Err(e);
            },
            Ok(v) => v,
        };
        if ds >= 30 {
            return Err(InflateError::InvalidDistanceSymbol);
        }
        let dextra = get_distance_extra(ds);
        let de = match self.read_lsb_bits(dextra as usize) {
            Err(e) => {
                return Err(e);
            },
            Ok(v) => v,
        };
        let dist = get_distance_base(ds) + de;
        if dist > self.look_back_buffer.len() {
            return Err(InflateError::DistanceTooFar);
        }
        let ghost out0 = self.out();
        let ghost p3 = self.pos();
        let mut i: usize = 0;
        while i < len
            invariant
                self.wf(),
                self.input() == old(self).input(),
                self.pos() == p3,
                out0 == old(self).out(),
                out0.is_prefix_of(self.out()),
                1 <= dist <= out0.len(),
                i <= len,
                self.out() == copy_back(out0, i as nat, dist as nat),
                self.out().len() == out0.len() + i,
            decreases len - i,
        {
            let b = self.look_back_buffer[self.look_back_buffer.len() - dist];
            self.write_literal_char(b);
            assert(out0.is_prefix_of(self.out()));
            i = i + 1;
        }
        Ok(())
    }

    /// Decodes the symbols of a Huffman block until end-of-block.
    fn read_huffman_block(&mut self, tables: &Option<(HuffTable, HuffTable)>) -> (r: Result<(), InflateError>)
        requires
            old(self).wf(),
            tables_wf(*tables),
        ensures
            final(self).wf(),
            final(self).input() == old(self).input(),
            match block_body(codes_of(*tables), old(self).input(), old(self).pos(), old(self).out()) {
                Ok((o, p)) => r == Ok::<(), InflateError>(()) && final(self).out() == o && final(self).pos() == p,
                Err(e) => r == Err::<(), InflateError>(e),
            },
            old(self).out().is_prefix_of(final(self).out()),
    {
        let ghost data = self.input();
        let ghost codes = codes_of(*tables);
        loop
            invariant
                self.wf(),
                tables_wf(*tables),
                codes == codes_of(*tables),
                self.input() == data,
                data == old(self).input(),
                old(self).out().is_prefix_of(self.out()),
                block_body(codes, data, old(self).pos(), old(self).out()) == block_body(
                    codes,
                    data,
                    self.pos(),
                    self.out(),
                ),
            decreases nbits(data) - self.pos(),
        {
            let ghost pos = self.pos();
            let ghost out = self.out();
            proof {
                lemma_lit_symbol_advances(codes, data, pos);
            }
            let sym = match self.read_lit_symbol(tables) {
                Err(e) => {
                    return Err(e);
                },
                Ok(v) => v,
            };
            if sym < 256 {
                self.write_literal_char(sym as u8);
                assert(old(self).out().is_prefix_of(self.out()));
            } else if sym == 256 {
                return Ok(());
            } else if sym <= 285 {
                proof {
                    lemma_back_reference_advances(codes, data, self.pos(), sym as nat, out);
                }
                match self.repeat_buffer(sym, tables) {
                    Err(e) => {
                        return Err(e);
                    },
                    Ok(()) => {},
                }
            } else {
                return Err(InflateError::InvalidLengthSymbol);
            }
        }
    }

    /// Copies a stored block: from the next byte boundary, LEN and NLEN, then LEN bytes.
    fn read_no_compression(&mut self) -> (r: Result<(), InflateError>)
        requires
            old(self).wf(),
        ensures
            final(self).wf(),
            final(self).input() == old(self).input(),
            match stored_block(old(self).input(), old(self).pos(), old(self).out()) {
                Ok((o, p)) => r == Ok::<(), InflateError>(()) && final(self).out() == o && final(self).pos() == p,
                Err(e) => r == Err::<(), InflateError>(e),
            },
            r is Err ==> final(self).out() == old(self).out(),
    {
        let ghost data = self.input();
        let ghost out0 = self.out();
        let n = self.data.len();
        let b: usize = if self.bit_pos != 0 { self.byte_pos + 1 } else { self.byte_pos };
        assert(b == (old(self).pos() + 7) / 8);
        if n - b < 4 {
            return Err(InflateError::UnexpectedEnd);
        }
        let len = self.data[b] as usize + 256 * (self.data[b + 1] as usize);
        let nlen = self.data[b + 2] as usize + 256 * (self.data[b + 3] as usize);
        if len + nlen != 65535 {
            return Err(InflateError::StoredLengthMismatch);
        }
        if n - (b + 4) < len {
            return Err(InflateError::UnexpectedEnd);
        }
        let start = b + 4;
        let mut i: usize = 0;
        while i < len
            invariant
                self.data@ == data,
                data == old(self).input(),
                n == data.len(),
                start + len <= n,
                i <= len,
                self.out() == out0 + data.subrange(start as int, start + i),
            decreases len - i,
        {
            let c = self.data[start + i];
            self.look_back_buffer.push(c);
            assert(self.out() =~= out0 + data.subrange(start as int, start + i + 1));
            i = i + 1;
        }
        self.byte_pos = start + len;
        self.bit_pos = 0;
        Ok(())
    }

    /// Reads the first `count` code lengths of the code-length alphabet, in stored order.
    fn read_cl_lengths(&mut self, count: usize) -> (r: Result<Vec<u8>, InflateError>)
        requires
            old(self).wf(),
            count <= 19,
        ensures
            final(self).wf(),
            final(self).input() == old(self).input(),
            final(self).out() == old(self).out(),
            match cl_lengths(old(self).input(), old(self).pos(), count as nat) {
                Ok((cl, p)) => r matches Ok(v) && v@ == cl && final(self).pos() == p,
                Err(e) => r == Err::<Vec<u8>, InflateError>(e),
            },
            r matches Ok(v) ==> v@.len() == 19,
    {
        let ghost data = self.input();
        let mut acc: Vec<u8> = vec![0u8; 19];
        assert(acc@ =~= Seq::new(19, |i: int| 0u8));
        let mut i: usize = 0;
        while i < count
            invariant
                self.wf(),
                self.input() == data,
                data == old(self).input(),
                self.out() == old(self).out(),
                i <= count,
                count <= 19,
                acc@.len() == 19,
                cl_lengths(data, old(self).pos(), count as nat) == cl_lengths_from(
                    data,
                    self.pos(),
                    count as nat,
                    i as nat,
                    acc@,
                ),
            decreases count - i,
        {
            let v = match self.read_lsb_bits(3) {
                Err(e) => {
                    return Err(e);
                },
                Ok(v) => v,
            };
            proof {
                lemma_pow2_small();
            }
            let k = code_len_order(i);
            acc.set(k, v as u8);
            i = i + 1;
        }
        Ok(acc)
    }

    /// Decodes `total` code lengths with the code-length code `table`.
    fn read_code_lengths(&mut self, table: &HuffTable, total: usize) -> (r: Result<Vec<u8>, InflateError>)
        requires
            old(self).wf(),
            table.wf(),
        ensures
            final(self).wf(),
            final(self).input() == old(self).input(),
            final(self).out() == old(self).out(),
            match code_lengths_from(table.lens(), old(self).input(), old(self).pos(), total as nat, Seq::empty()) {
                Ok((lens, p)) => r matches Ok(v) && v@ == lens && final(self).pos() == p,
                Err(e) => r == Err::<Vec<u8>, InflateError>(e),
            },
    {
        let ghost data = self.input();
        let ghost cl = table.lens();
        let mut acc: Vec<u8> = Vec::new();
        while acc.len() < total
            invariant
                self.wf(),
                table.wf(),
                cl == table.lens(),
                self.input() == data,
                data == old(self).input(),
                self.out() == old(self).out(),
                acc@.len() <= total,
                code_lengths_from(cl, data, old(self).pos(), total as nat, Seq::empty())
                    == code_lengths_from(cl, data, self.pos(), total as nat, acc@),
            decreases total - acc@.len(),
        {
            let x = match self.read_huff_symbol(table) {
                Err(e) => {
                    return Err(e);
                },
                Ok(v) => v,
            };
            if x <= 15 {
                acc.push(x as u8);
            } else if x <= 18 {
                let (nb, base): (usize, usize) = if x == 16 {
                    (2, 3)
                } else if x == 17 {
                    (3, 3)
                } else {
                    (7, 11)
                };
                let r = match self.read_lsb_bits(nb) {
                    Err(e) => {
                        return Err(e);
                    },
                    Ok(v) => v,
                };
                proof {
                    lemma_pow2_small();
                }
                let rep = base + r;
                if x == 16 && acc.len() == 0 {
                    return Err(InflateError::InvalidCodeLengths);
                }
                if rep > total - acc.len() {
                    return Err(InflateError::InvalidCodeLengths);
                }
                let v: u8 = if x == 16 { acc[acc.len() - 1] } else { 0 };
                let ghost acc0 = acc@;
                let mut j: usize = 0;
                while j < rep
                    invariant
                        j <= rep,
                        acc0.len() + rep <= total,
                        acc@ == acc0 + Seq::new(j as nat, |i: int| v),
                    decreases rep - j,
                {
                    acc.push(v);
                    assert(acc@ =~= acc0 + Seq::new((j + 1) as nat, |i: int| v));
                    j = j + 1;
                }
            } else {
                return Err(InflateError::InvalidCode);
            }
        }
        Ok(acc)
    }

    /// Reads the header of a dynamic block and builds its literal/length and distance
    /// decoding tables.
    fn read_dynamic_huffman(&mut self) -> (r: Result<(HuffTable, HuffTable), InflateError>)
        requires
            old(self).wf(),
        ensures
            final(self).wf(),
            final(self).input() == old(self).input(),
            final(self).out() == old(self).out(),
            match dynamic_codes(old(self).input(), old(self).pos()) {
                Ok((c, p)) => r matches Ok(t) && t.0.wf() && t.1.wf() && t.0.lens() == c.0
                    && t.1.lens() == c.1 && t.0.code_map() == canonical_map(c.0)
                    && t.1.code_map() == canonical_map(c.1) && final(self).pos() == p,
                Err(e) => r matches Err(e2) && e2 == e,
            },
    {
        let hlit = match self.read_lsb_bits(5) {
            Err(e) => {
                return Err(e);
            },
            Ok(v) => v,
        };
        let hdist = match self.read_lsb_bits(5) {
            Err(e) => {
                return Err(e);
            },
            Ok(v) => v,
        };
        let hclen = match self.read_lsb_bits(4) {
            Err(e) => {
                return Err(e);
            },
            Ok(v) => v,
        };
        proof {
            lemma_pow2_small();
        }
        let cl = match self.read_cl_lengths(hclen + 4) {
            Err(e) => {
                return Err(e);
            },
            Ok(v) => v,
        };
        let cl_table = HuffTable::build(&cl);
        if cl_table.is_oversubscribed() {
            return Err(InflateError::OversubscribedCode);
        }
        let total = hlit + hdist + 258;
        let ghost p4 = self.pos();
        proof {
            lemma_code_lengths_len(cl@, self.input(), p4, total as nat, Seq::empty());
        }
        let lens = match self.read_code_lengths(&cl_table, total) {
            Err(e) => {
                return Err(e);
            },
            Ok(v) => v,
        };
        assert(lens@.len() == total);
        let lit = copy_range(&lens, 0, hlit + 257);
        let dist = copy_range(&lens, hlit + 257, total);
        let lit_table = HuffTable::build(&lit);
        let dist_table = HuffTable::build(&dist);
        if lit_table.is_oversubscribed() || dist_table.is_oversubscribed() {
            return Err(InflateError::OversubscribedCode);
        }
        Ok((lit_table, dist_table))
    }

    /// Reads the BFINAL bit of a block header.
    fn block_start(&mut self) -> (r: Result<(), InflateError>)
        requires
            old(self).wf(),
        ensures
            final(self).wf(),
            final(self).input() == old(self).input(),
            final(self).out() == old(self).out(),
            match read_lsb(old(self).input(), old(self).pos(), 1) {
                Ok((v, p)) => r == Ok::<(), InflateError>(()) && final(self).finished == (v == 1) && final(self).pos() == p,
                Err(e) => r == Err::<(), InflateError>(e),
            },
    {
        proof {
            lemma_pow2_small();
        }
        match self.read_lsb_bits(1) {
            Err(e) => Err(e),
            Ok(v) => {
                self.finished = v == 1;
                Ok(())
            },
        }
    }

    /// Reads the two BTYPE bits of a block header.
    fn block_type(&mut self) -> (r: Result<(), InflateError>)
        requires
            old(self).wf(),
        ensures
            final(self).wf(),
            final(self).input() == old(self).input(),
            final(self).out() == old(self).out(),
            final(self).finished == old(self).finished,
            match read_lsb(old(self).input(), old(self).pos(), 2) {
                Ok((v, p)) => r == Ok::<(), InflateError>(()) && final(self).cur_block_type == v && final(self).pos() == p,
                Err(e) => r == Err::<(), InflateError>(e),
            },
    {
        proof {
            lemma_pow2_small();
        }
        match self.read_lsb_bits(2) {
            Err(e) => Err(e),
            Ok(v) => {
                self.cur_block_type = v;
                Ok(())
            },
        }
    }

    /// Reads one block, header included, and appends what it holds to the output.
    fn block_read(&mut self) -> (r: Result<(), InflateError>)
        requires
            old(self).wf(),
        ensures
            final(self).wf(),
            final(self).input() == old(self).input(),
            match next_block(old(self).input(), old(self).pos(), old(self).out()) {
                Ok((fin, o, p)) => r == Ok::<(), InflateError>(()) && final(self).finished == fin
                    && final(self).out() == o && final(self).pos() == p,
                Err(e) => r == Err::<(), InflateError>(e),
            },
            r is Err ==> final(self).out() == old(self).out(),
    {
        match self.block_start() {
            Err(e) => {
                return Err(e);
            },
            Ok(()) => {},
        }
        match self.block_type() {
            Err(e) => {
                return Err(e);
            },
            Ok(()) => {},
        }
        let fin = self.finished;
        let produced = self.look_back_buffer.len();
        let r = if self.cur_block_type == 0 {
            self.read_no_compression()
        } else if self.cur_block_type == 1 {
            self.read_huffman_block(&None)
        } else if self.cur_block_type == 2 {
            match self.read_dynamic_huffman() {
                Err(e) => Err(e),
                Ok(t) => {
                    let tables = Some(t);
                    self.read_huffman_block(&tables)
                },
            }
        } else {
            Err(InflateError::InvalidBlockType)
        };
        self.finished = fin;
        if r.is_err() {
            self.look_back_buffer.truncate(produced);
            assert(self.out() =~= old(self).out());
        }
        r
    }

    /// Whether the block just read was marked final.
    pub closed spec fn is_finished(&self) -> bool {
        self.finished
    }

    /// Reads blocks until the one marked final has ended; the cursor then stands right after
    /// that block.
    pub fn read(&mut self) -> (r: Result<(), InflateError>)
        requires
            old(self).wf(),
        ensures
            final(self).wf(),
            final(self).input() == old(self).input(),
            match inflate_blocks(old(self).input(), old(self).pos(), old(self).out()) {
                Ok((o, p)) => r == Ok::<(), InflateError>(()) && final(self).out() == o
                    && final(self).pos() == p && final(self).is_finished(),
                Err(e) => r == Err::<(), InflateError>(e),
            },
    {
        let ghost data = self.input();
        self.finished = false;
        loop
            invariant
                self.wf(),
                self.input() == data,
                data == old(self).input(),
                !self.finished,
                inflate_blocks(data, old(self).pos(), old(self).out()) == inflate_blocks(
                    data,
                    self.pos(),
                    self.out(),
                ),
            decreases nbits(data) - self.pos(),
        {
            let (byte0, bit0) = (self.byte_pos, self.bit_pos);
            match self.block_read() {
                Err(e) => {
                    return Err(e);
                },
                Ok(()) => {},
            }
            if self.finished {
                return Ok(());
            }
            if !(self.byte_pos > byte0 || (self.byte_pos == byte0 && self.bit_pos > bit0)) {
                return Err(InflateError::UnexpectedEnd);
            }
        }
    }
}

/// Decompresses a DEFLATE stream.
pub fn inflate_data(data: Vec<u8>) -> (r: Result<Vec<u8>, InflateError>)
    ensures
        match inflate_spec(data@) {
            Ok(o) => r matches Ok(v) && v@ == o,
            Err(e) => r == Err::<Vec<u8>, InflateError>(e),
        },
{
    let mut bs = BitStreamInflator::new(data);
    match bs.read() {
        Err(e) => Err(e),
        Ok(()) => Ok(bs.look_back_buffer),
    }
}

} // verus!
