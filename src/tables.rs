//! The fixed Huffman alphabet and the length and distance code tables.

use vstd::prelude::*;
use crate::helpers::pow2;

verus! {

/// The end-of-block symbol of the literal/length alphabet.
pub const EOB: u16 = 256;

/// Code value of `sym` in the fixed literal/length alphabet.
pub open spec fn fixed_code(sym: nat) -> nat {
    if sym <= 143 {
        48 + sym
    } else if sym <= 255 {
        (400 + (sym - 144)) as nat
    } else if sym <= 279 {
        (sym - 256) as nat
    } else {
        (192 + (sym - 280)) as nat
    }
}

/// Code length of `sym` in the fixed literal/length alphabet.
pub open spec fn fixed_len(sym: nat) -> nat {
    if sym <= 143 {
        8
    } else if sym <= 255 {
        9
    } else if sym <= 279 {
        7
    } else {
        8
    }
}

/// Smallest match length of a length symbol.
pub open spec fn length_base(sym: nat) -> nat {
    if 257 <= sym <= 264 {
        (sym - 254) as nat
    } else if 265 <= sym <= 268 {
        (11 + 2 * (sym - 265)) as nat
    } else if 269 <= sym <= 272 {
        (19 + 4 * (sym - 269)) as nat
    } else if 273 <= sym <= 276 {
        (35 + 8 * (sym - 273)) as nat
    } else if 277 <= sym <= 280 {
        (67 + 16 * (sym - 277)) as nat
    } else if 281 <= sym <= 284 {
        (131 + 32 * (sym - 281)) as nat
    } else if sym == 285 {
        258
    } else {
        0
    }
}

/// Number of extra bits that follow a length symbol.
pub open spec fn length_extra(sym: nat) -> nat {
    if 265 <= sym <= 268 {
        1
    } else if 269 <= sym <= 272 {
        2
    } else if 273 <= sym <= 276 {
        3
    } else if 277 <= sym <= 280 {
        4
    } else if 281 <= sym <= 284 {
        5
    } else {
        0
    }
}

/// Smallest distance of a distance symbol.
pub open spec fn distance_base(sym: nat) -> nat {
    if sym == 0 {
        1
    } else if sym == 1 {
        2
    } else if sym == 2 {
        3
    } else if sym == 3 {
        4
    } else if sym == 4 {
        5
    } else if sym == 5 {
        7
    } else if sym == 6 {
        9
    } else if sym == 7 {
        13
    } else if sym == 8 {
        17
    } else if sym == 9 {
        25
    } else if sym == 10 {
        33
    } else if sym == 11 {
        49
    } else if sym == 12 {
        65
    } else if sym == 13 {
        97
    } else if sym == 14 {
        129
    } else if sym == 15 {
        193
    } else if sym == 16 {
        257
    } else if sym == 17 {
        385
    } else if sym == 18 {
        513
    } else if sym == 19 {
        769
    } else if sym == 20 {
        1025
    } else if sym == 21 {
        1537
    } else if sym == 22 {
        2049
    } else if sym == 23 {
        3073
    } else if sym == 24 {
        4097
    } else if sym == 25 {
        6145
    } else if sym == 26 {
        8193
    } else if sym == 27 {
        12289
    } else if sym == 28 {
        16385
    } else if sym == 29 {
        24577
    } else {
        0
    }
}

/// Number of extra bits that follow a distance symbol.
pub open spec fn distance_extra(sym: nat) -> nat {
    if sym >= 2 { ((sym - 2) / 2) as nat } else { 0 }
}

/// The length symbol for a match of length `len`.
pub open spec fn length_symbol(len: nat) -> nat {
    if len <= 10 {
        len + 254
    } else if len <= 18 {
        ((len - 11) / 2 + 265) as nat
    } else if len <= 34 {
        ((len - 19) / 4 + 269) as nat
    } else if len <= 66 {
        ((len - 35) / 8 + 273) as nat
    } else if len <= 130 {
        ((len - 67) / 16 + 277) as nat
    } else if len <= 257 {
        ((len - 131) / 32 + 281) as nat
    } else {
        285
    }
}

/// The distance symbol for a back-reference distance `dist`.
pub open spec fn distance_symbol(dist: nat) -> nat {
    if dist <= 4 {
        (dist - 1) as nat
    } else if dist <= 8 {
        ((dist - 5) / 2 + 4) as nat
    } else if dist <= 16 {
        ((dist - 9) / 4 + 6) as nat
    } else if dist <= 32 {
        ((dist - 17) / 8 + 8) as nat
    } else if dist <= 64 {
        ((dist - 33) / 16 + 10) as nat
    } else if dist <= 128 {
        ((dist - 65) / 32 + 12) as nat
    } else if dist <= 256 {
        ((dist - 129) / 64 + 14) as nat
    } else if dist <= 512 {
        ((dist - 257) / 128 + 16) as nat
    } else if dist <= 1024 {
        ((dist - 513) / 256 + 18) as nat
    } else if dist <= 2048 {
        ((dist - 1025) / 512 + 20) as nat
    } else if dist <= 4096 {
        ((dist - 2049) / 1024 + 22) as nat
    } else if dist <= 8192 {
        ((dist - 4097) / 2048 + 24) as nat
    } else if dist <= 16384 {
        ((dist - 8193) / 4096 + 26) as nat
    } else {
        ((dist - 16385) / 8192 + 28) as nat
    }
}

pub proof fn lemma_pow2_small()
    ensures
        pow2(0) == 1,
        pow2(1) == 2,
        pow2(2) == 4,
        pow2(3) == 8,
        pow2(4) == 16,
        pow2(5) == 32,
        pow2(6) == 64,
        pow2(7) == 128,
        pow2(8) == 256,
        pow2(9) == 512,
        pow2(10) == 1024,
        pow2(11) == 2048,
        pow2(12) == 4096,
        pow2(13) == 8192,
        pow2(14) == 16384,
        pow2(15) == 32768,
        pow2(16) == 65536,
{
    reveal_with_fuel(pow2, 17);
}

/// Every match length in `[3, 258]` falls in the range of exactly its symbol: the symbol's
/// base is at most the length, the next symbol's base is above it, and the extra bits
/// carry the difference.
pub proof fn lemma_length_symbol(len: nat)
    requires
        3 <= len <= 258,
    ensures
        257 <= length_symbol(len) <= 285,
        length_base(length_symbol(len)) <= len,
        length_symbol(len) < 285 ==> len < length_base(length_symbol(len) + 1),
        len - length_base(length_symbol(len)) < pow2(length_extra(length_symbol(len))),
        length_base(length_symbol(len)) + (len - length_base(length_symbol(len))) == len,
{
    lemma_pow2_small();
}

/// Every distance in `[1, 32768]` falls in the range of exactly its symbol: the symbol's
/// base is at most the distance, the next symbol's base is above it, and the extra bits
/// carry the difference.
pub proof fn lemma_distance_symbol(dist: nat)
    requires
        1 <= dist <= 32768,
    ensures
        distance_symbol(dist) <= 29,
        distance_base(distance_symbol(dist)) <= dist,
        distance_symbol(dist) < 29 ==> dist < distance_base(distance_symbol(dist) + 1),
        dist - distance_base(distance_symbol(dist)) < pow2(distance_extra(distance_symbol(dist))),
        distance_base(distance_symbol(dist)) + (dist - distance_base(distance_symbol(dist))) == dist,
{
    lemma_pow2_small();
}

/// Code value and code length of `sym` in the fixed literal/length alphabet.
pub fn get_fixed_code(sym: usize) -> (r: (usize, u8))
    requires
        sym <= 287,
    ensures
        r.0 == fixed_code(sym as nat),
        r.1 == fixed_len(sym as nat),
{
    if sym <= 143 {
        (48 + sym, 8)
    } else if sym <= 255 {
        (400 + (sym - 144), 9)
    } else if sym <= 279 {
        (sym - 256, 7)
    } else {
        (192 + (sym - 280), 8)
    }
}

/// Smallest match length of the length symbol `sym`.
pub fn get_length_base(sym: usize) -> (r: usize)
    ensures
        r == length_base(sym as nat),
{
    if 257 <= sym && sym <= 264 {
        sym - 254
    } else if 265 <= sym && sym <= 268 {
        11 + 2 * (sym - 265)
    } else if 269 <= sym && sym <= 272 {
        19 + 4 * (sym - 269)
    } else if 273 <= sym && sym <= 276 {
        35 + 8 * (sym - 273)
    } else if 277 <= sym && sym <= 280 {
        67 + 16 * (sym - 277)
    } else if 281 <= sym && sym <= 284 {
        131 + 32 * (sym - 281)
    } else if sym == 285 {
        258
    } else {
        0
    }
}

/// Number of extra bits after the length symbol `sym`.
pub fn get_length_extra(sym: usize) -> (r: u8)
    ensures
        r == length_extra(sym as nat),
{
    if 265 <= sym && sym <= 268 {
        1
    } else if 269 <= sym && sym <= 272 {
        2
    } else if 273 <= sym && sym <= 276 {
        3
    } else if 277 <= sym && sym <= 280 {
        4
    } else if 281 <= sym && sym <= 284 {
        5
    } else {
        0
    }
}

/// Decoding a length symbol with any value of its extra bits gives a length in `[3, 258]`
/// whose own symbol is that symbol, so decoding inverts the choice of symbol. The one
/// exception is symbol 284 with extra value 31: it spells 258, which has symbol 285.
pub proof fn lemma_length_decode(sym: nat, extra: nat)
    requires
        257 <= sym <= 285,
        extra < pow2(length_extra(sym)),
    ensures
        3 <= length_base(sym) + extra <= 258,
        !(sym == 284 && extra == 31) ==> length_symbol(length_base(sym) + extra) == sym,
{
    lemma_pow2_small();
}

/// Decoding a distance symbol with any value of its extra bits gives a distance in
/// `[1, 32768]` whose own symbol is that symbol.
pub proof fn lemma_distance_decode(sym: nat, extra: nat)
    requires
        sym <= 29,
        extra < pow2(distance_extra(sym)),
    ensures
        1 <= distance_base(sym) + extra <= 32768,
        distance_symbol(distance_base(sym) + extra) == sym,
{
    lemma_pow2_small();
}

/// Smallest distance of the distance symbol `sym`.
pub fn get_distance_base(sym: usize) -> (r: usize)
    ensures
        r == distance_base(sym as nat),
{
    if sym == 0 {
        1
    } else if sym == 1 {
        2
    } else if sym == 2 {
        3
    } else if sym == 3 {
        4
    } else if sym == 4 {
        5
    } else if sym == 5 {
        7
    } else if sym == 6 {
        9
    } else if sym == 7 {
        13
    } else if sym == 8 {
        17
    } else if sym == 9 {
        25
    } else if sym == 10 {
        33
    } else if sym == 11 {
        49
    } else if sym == 12 {
        65
    } else if sym == 13 {
        97
    } else if sym == 14 {
        129
    } else if sym == 15 {
        193
    } else if sym == 16 {
        257
    } else if sym == 17 {
        385
    } else if sym == 18 {
        513
    } else if sym == 19 {
        769
    } else if sym == 20 {
        1025
    } else if sym == 21 {
        1537
    } else if sym == 22 {
        2049
    } else if sym == 23 {
        3073
    } else if sym == 24 {
        4097
    } else if sym == 25 {
        6145
    } else if sym == 26 {
        8193
    } else if sym == 27 {
        12289
    } else if sym == 28 {
        16385
    } else if sym == 29 {
        24577
    } else {
        0
    }
}

/// Number of extra bits after the distance symbol `sym`.
pub fn get_distance_extra(sym: usize) -> (r: u8)
    requires
        sym <= 29,
    ensures
        r == distance_extra(sym as nat),
{
    if sym >= 2 {
        ((sym - 2) / 2) as u8
    } else {
        0
    }
}

/// The length symbol for a match of `len` bytes.
pub fn get_length_symbol(len: usize) -> (r: usize)
    requires
        3 <= len <= 258,
    ensures
        r == length_symbol(len as nat),
{
    if len <= 10 {
        len + 254
    } else if len <= 18 {
        (len - 11) / 2 + 265
    } else if len <= 34 {
        (len - 19) / 4 + 269
    } else if len <= 66 {
        (len - 35) / 8 + 273
    } else if len <= 130 {
        (len - 67) / 16 + 277
    } else if len <= 257 {
        (len - 131) / 32 + 281
    } else {
        285
    }
}

/// The distance symbol for a back-reference of `dist` bytes.
pub fn get_distance_symbol(dist: usize) -> (r: usize)
    requires
        1 <= dist <= 32768,
    ensures
        r == distance_symbol(dist as nat),
{
    if dist <= 4 {
        dist - 1
    } else if dist <= 8 {
        (dist - 5) / 2 + 4
    } else if dist <= 16 {
        (dist - 9) / 4 + 6
    } else if dist <= 32 {
        (dist - 17) / 8 + 8
    } else if dist <= 64 {
        (dist - 33) / 16 + 10
    } else if dist <= 128 {
        (dist - 65) / 32 + 12
    } else if dist <= 256 {
        (dist - 129) / 64 + 14
    } else if dist <= 512 {
        (dist - 257) / 128 + 16
    } else if dist <= 1024 {
        (dist - 513) / 256 + 18
    } else if dist <= 2048 {
        (dist - 1025) / 512 + 20
    } else if dist <= 4096 {
        (dist - 2049) / 1024 + 22
    } else if dist <= 8192 {
        (dist - 4097) / 2048 + 24
    } else if dist <= 16384 {
        (dist - 8193) / 4096 + 26
    } else {
        (dist - 16385) / 8192 + 28
    }
}

} // verus!
