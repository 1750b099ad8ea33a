use deflate_zip::bitio::{pack_bits, unpack_bits};
use deflate_zip::deflate::{deflate_data, deflate_data_with_77};
use deflate_zip::helpers::{binary_to_dec, usize_to_bits};
use deflate_zip::huffman::HuffTable;
use deflate_zip::inflate::inflate_data;
use deflate_zip::lz77::{lz77_tokens, render_tokens, Token};
use deflate_zip::tables::{
    get_distance_base, get_distance_extra, get_distance_symbol, get_fixed_code, get_length_base,
    get_length_extra, get_length_symbol,
};

fn pseudo_random(n: usize, alphabet: u8) -> Vec<u8> {
    let mut state: u32 = 12345;
    let mut v = Vec::new();
    for _ in 0..n {
        state = state.wrapping_mul(1103515245).wrapping_add(12345);
        v.push(b'a' + ((state >> 16) % (alphabet as u32)) as u8);
    }
    v
}

#[test]
fn test_deflate() {
    // Header 110, then the 8-bit codes of 'a', 'b', 'c' and the 7-bit end-of-block code.
    let out = deflate_data(b"abc".to_vec());
    assert_eq!(out, vec![75, 76, 74, 6, 0]);
    assert_eq!(inflate_data(out).unwrap(), b"abc".to_vec());
}

#[test]
fn test_lz() {
    let toks = lz77_tokens(&b"abcabcabc".to_vec());
    assert_eq!(render_tokens(&toks), b"abc<6,3>".to_vec());
}

#[test]
fn lz77_repeat_becomes_one_back_reference() {
    let toks = lz77_tokens(&b"abcabcabc".to_vec());
    assert_eq!(
        toks,
        vec![
            Token::Literal(b'a'),
            Token::Literal(b'b'),
            Token::Literal(b'c'),
            Token::Match { length: 6, distance: 3 },
        ]
    );
}

#[test]
fn lz77_run_overlaps_its_own_output() {
    let toks = lz77_tokens(&vec![b'a'; 10]);
    assert_eq!(toks, vec![Token::Literal(b'a'), Token::Match { length: 9, distance: 1 }]);
    let out = deflate_data_with_77(vec![b'a'; 10]);
    assert_eq!(inflate_data(out).unwrap(), vec![b'a'; 10]);
}

#[test]
fn lz77_caps_matches_at_258() {
    let toks = lz77_tokens(&vec![0u8; 600]);
    assert_eq!(
        toks,
        vec![
            Token::Literal(0),
            Token::Match { length: 258, distance: 1 },
            Token::Match { length: 258, distance: 1 },
            Token::Match { length: 83, distance: 1 },
        ]
    );
}

#[test]
fn lz77_prefers_longest_then_nearest() {
    // At the last "abc", distance 6 offers "abcd" and distance 12 offers "abcdx"; the longer wins.
    let toks = lz77_tokens(&b"abcdxyabcdzzabcdx".to_vec());
    assert_eq!(toks[toks.len() - 1], Token::Match { length: 5, distance: 12 });
    // Two equal matches: the nearer one wins.
    let toks = lz77_tokens(&b"abcQabcRabc".to_vec());
    assert_eq!(toks[toks.len() - 1], Token::Match { length: 3, distance: 4 });
}

#[test]
fn lz77_short_inputs_are_literals() {
    assert_eq!(lz77_tokens(&Vec::new()), Vec::new());
    assert_eq!(lz77_tokens(&b"ab".to_vec()), vec![Token::Literal(b'a'), Token::Literal(b'b')]);
}

#[test]
fn round_trip_literals_only() {
    for input in [Vec::new(), b"a".to_vec(), (0..=255u8).collect::<Vec<u8>>(), pseudo_random(5000, 26)] {
        let out = deflate_data(input.clone());
        assert_eq!(inflate_data(out).unwrap(), input);
    }
}

#[test]
fn round_trip_with_lz77() {
    let mut long_run = vec![7u8; 70000];
    long_run.extend_from_slice(b"tail");
    for input in [
        Vec::new(),
        b"abcabcabc".to_vec(),
        b"The quick brown fox jumps over the lazy dog. The quick brown fox.".to_vec(),
        pseudo_random(40000, 4),
        pseudo_random(3000, 255),
        long_run,
    ] {
        let out = deflate_data_with_77(input.clone());
        assert_eq!(inflate_data(out).unwrap(), input);
    }
}

#[test]
fn lz77_output_is_shorter_on_repetitive_input() {
    let input = pseudo_random(200, 3).repeat(20);
    let plain = deflate_data(input.clone());
    let packed = deflate_data_with_77(input);
    assert!(packed.len() < plain.len());
}

#[test]
fn pack_then_unpack_gives_the_bits_back() {
    let bits = vec![true, false, true, true, false, false, false, true, true, true, false];
    let packed = pack_bits(&bits);
    assert_eq!(packed, vec![0b1000_1101, 0b0000_0011]);
    let unpacked = unpack_bits(&packed);
    assert_eq!(unpacked.len(), 16);
    assert_eq!(unpacked[..bits.len()].to_vec(), bits);
    assert!(unpacked[bits.len()..].iter().all(|b| !b));
}

#[test]
fn binary_and_bits_helpers() {
    assert_eq!(binary_to_dec(&vec![true, false, true, true]), 11);
    assert_eq!(binary_to_dec(&Vec::new()), 0);
    assert_eq!(usize_to_bits(11, 6), vec![false, false, true, false, true, true]);
    assert_eq!(binary_to_dec(&usize_to_bits(200, 8)), 200);
}

#[test]
fn fixed_codes() {
    assert_eq!(get_fixed_code(97), (145, 8));
    assert_eq!(get_fixed_code(200), (456, 9));
    assert_eq!(get_fixed_code(256), (0, 7));
    assert_eq!(get_fixed_code(285), (197, 8));
}

#[test]
fn length_and_distance_codes() {
    for len in 3..=258usize {
        let sym = get_length_symbol(len);
        let base = get_length_base(sym);
        let extra = get_length_extra(sym);
        assert!(base <= len && len - base < (1usize << extra));
        if sym < 285 {
            assert!(len < get_length_base(sym + 1));
        }
    }
    assert_eq!(get_length_symbol(3), 257);
    assert_eq!(get_length_symbol(20), 269);
    assert_eq!(get_length_symbol(257), 284);
    assert_eq!(get_length_symbol(258), 285);
    for dist in 1..=32768usize {
        let sym = get_distance_symbol(dist);
        let base = get_distance_base(sym);
        let extra = get_distance_extra(sym);
        assert!(base <= dist && dist - base < (1usize << extra));
        if sym < 29 {
            assert!(dist < get_distance_base(sym + 1));
        }
    }
    assert_eq!(get_distance_symbol(1), 0);
    assert_eq!(get_distance_symbol(5), 4);
    assert_eq!(get_distance_symbol(32768), 29);
    assert_eq!(get_distance_extra(29), 13);
}

#[test]
fn canonical_table_is_built_the_same_twice() {
    // The example of RFC 1951: lengths (3, 3, 3, 3, 3, 2, 4, 4) give codes
    // 010, 011, 100, 101, 110, 00, 1110, 1111.
    let lengths: Vec<u8> = vec![3, 3, 3, 3, 3, 2, 4, 4];
    let a = HuffTable::build(&lengths);
    let b = HuffTable::build(&lengths);
    assert_eq!(a.lookup(2, 0), Some(5));
    assert_eq!(a.lookup(3, 2), Some(0));
    assert_eq!(a.lookup(3, 6), Some(4));
    assert_eq!(a.lookup(4, 14), Some(6));
    assert_eq!(a.lookup(4, 15), Some(7));
    assert_eq!(a.lookup(2, 1), None);
    for len in 1..=15usize {
        for v in 0..64usize {
            assert_eq!(a.lookup(len, v), b.lookup(len, v));
        }
    }
}

fn replay(toks: &[Token]) -> Vec<u8> {
    let mut out: Vec<u8> = Vec::new();
    for t in toks {
        match *t {
            Token::Literal(b) => out.push(b),
            Token::Match { length, distance } => {
                assert!((3..=258).contains(&length));
                assert!(distance >= 1 && distance <= out.len() && distance < 32768);
                for _ in 0..length {
                    out.push(out[out.len() - distance]);
                }
            }
        }
    }
    out
}

#[test]
fn lz77_tokens_replay_to_their_input() {
    let mut inputs = vec![
        b"abcabcabc".to_vec(),
        b"aaaaaaaaaa".to_vec(),
        pseudo_random(20000, 3),
        pseudo_random(500, 200),
    ];
    let mut far = pseudo_random(40000, 255);
    far.extend_from_slice(&pseudo_random(100, 255));
    inputs.push(far);
    for input in inputs {
        let toks = lz77_tokens(&input);
        assert_eq!(replay(&toks), input);
    }
}
