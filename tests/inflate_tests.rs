use deflate_zip::inflate::{inflate_data, BitStreamInflator, InflateError};

fn rle_block_input() -> Vec<u8> {
    vec![
        109, 193, 129, 17, 2, 65, 12, 3, 177, 90, 119, 237, 254, 107, 128, 0, 185, 135, 121, 36,
        229, 210, 224, 224, 176, 220, 116, 240, 197, 180, 97, 213, 180, 89, 154, 139, 28, 174, 60, 149,
        165, 25, 100, 121, 201, 1, 129, 14, 95, 18, 126, 201, 112, 144, 55, 70, 162, 242, 81, 197,
        155, 150, 213, 44, 15, 134, 188, 185, 248, 167, 116, 128, 63, 200, 33, 154, 176, 76, 2, 9,
        151, 44, 203, 120, 0,
    ]
}

fn rle_block_output() -> Vec<u8> {
    vec![
        98, 98, 97, 97, 97, 97, 97, 97, 97, 97, 97, 97, 97, 100, 99, 97, 98, 98, 98, 98,
        98, 97, 97, 97, 97, 97, 97, 97, 97, 97, 97, 98, 100, 97, 97, 97, 97, 97, 97, 97,
        97, 97, 97, 97, 97, 97, 97, 97, 97, 97, 97, 100, 100, 100, 100, 100, 97, 97, 97, 97,
        97, 97, 97, 97, 97, 97, 97, 97, 98, 99, 100, 100, 99, 97, 97, 97, 97, 97, 97, 97,
        97, 97, 100, 98, 99, 100, 100, 99, 99, 99, 99, 99, 99, 99, 99, 99, 98, 98, 99, 99,
        99, 99, 99, 99, 99, 99, 99, 99, 99, 98, 97, 97, 97, 97, 97, 97, 97, 97, 97, 97,
        98, 98, 98, 98, 98, 98, 98, 98, 98, 99, 99, 99, 99, 100, 97, 97, 97, 97, 97, 97,
        97, 97, 97, 98, 98, 99, 99, 99, 99, 99, 97, 99, 99, 99, 99, 99, 99, 99, 99, 99,
        98, 98, 98, 98, 98, 98, 98, 98, 98, 98, 98, 99, 99, 99, 99, 99, 99, 99, 99, 99,
        99, 97, 97, 99, 97, 97, 100, 100, 100, 100, 100, 98, 98, 98, 98, 98, 98, 99, 99, 97,
        97, 97, 97, 97, 97, 97, 97, 97, 97, 97, 97, 97, 97, 97, 98, 97, 97, 97, 97, 97,
        98, 98, 98, 98, 98, 97, 99, 99, 99, 99, 99, 99, 99, 97, 97, 97, 97, 97, 99, 99,
        98, 98, 98, 97, 97, 97, 97, 97, 97, 97, 97, 100, 98, 98, 97, 98, 98, 98, 98, 98,
        98, 98, 98, 98, 98, 98, 98, 98, 98, 98, 98, 98, 98, 100, 100, 97, 97, 97, 97, 97,
        97, 97, 97, 97, 100, 99, 99, 99, 99, 99, 99, 99, 99, 99, 98, 98, 98, 98, 98, 98,
        98, 98, 98, 98, 97, 97, 97, 97, 97, 98, 97, 97, 97, 97, 97, 97, 97, 98, 98, 98,
        98, 98, 98, 98, 98, 98, 97, 97, 97, 97, 97, 97, 97, 97, 97, 97, 97, 97, 97, 97,
        97, 97, 97, 97, 97, 97, 97, 100, 97, 100, 100, 100, 100, 100, 97, 97, 98, 98, 98, 98,
        98, 98, 98, 98, 98, 98, 98, 98, 98, 98, 97, 99, 99, 99, 99, 99, 99, 99, 99, 99,
        99, 98, 97, 98, 98, 99, 99, 97, 97, 97, 97, 97, 97, 97, 97, 97, 98, 99, 99, 99,
        97, 97, 99, 99, 97, 97, 97, 97, 97, 97, 97, 97, 97, 97, 97, 99, 99, 99, 99, 99,
        99, 99, 99, 99, 98, 100, 97, 97, 97, 97, 97,
    ]
}

fn cow_text() -> Vec<u8> {
    let mut v: Vec<u8> = Vec::new();
    v.extend_from_slice(b" _______\n< hello >\n -------\n");
    v.extend_from_slice(b"        \\   ^__^\n");
    v.extend_from_slice(b"         \\  (oo)\\_______\n");
    v.extend_from_slice(b"            (__)\\       )\\/\\\n");
    v.extend_from_slice(b"                ||----w |\n");
    v.extend_from_slice(b"                ||     ||\n");
    v
}

fn cow_deflated() -> Vec<u8> {
    vec![
        83, 136, 135, 0, 46, 27, 133, 140, 212, 156, 156, 124, 5, 59, 46, 5, 93, 8, 224, 82,
        128, 130, 24, 32, 142, 139, 143, 143, 131, 11, 128, 68, 52, 242, 243, 53, 99, 96, 154, 21,
        144, 128, 70, 124, 188, 102, 12, 148, 173, 25, 163, 31, 131, 34, 9, 2, 53, 53, 32, 211,
        203, 21, 106, 176, 200, 64, 41, 46, 0,
    ]
}

#[test]
fn test_inflate() {
    // A fixed-Huffman block: one literal 'a', then back-references of distance 1 that
    // overlap the bytes they produce.
    let stream: Vec<u8> = vec![75, 76, 28, 5, 196, 2, 0];
    let out = inflate_data(stream).unwrap();
    assert_eq!(out, vec![b'a'; 300]);
}

#[test]
fn test_inflate_dynamic() {
    // A dynamic-Huffman block with a single distance code, whose code lengths use the
    // run-length symbols 17 and 18.
    let stream: Vec<u8> = vec![109, 192, 33, 1, 0, 0, 0, 194, 176, 172, 63, 253, 59, 224, 80, 140, 241, 73, 1];
    let out = inflate_data(stream).unwrap();
    let mut expected = vec![b'a'; 10];
    expected.extend_from_slice(&[b'b'; 21]);
    expected.push(b'c');
    assert_eq!(out, expected);
}

#[test]
fn test_reinflate() {
    let out = inflate_data(cow_deflated()).unwrap();
    assert_eq!(out, cow_text());
}

#[test]
fn inflate_dynamic_block_with_two_distance_codes() {
    let out = inflate_data(rle_block_input()).unwrap();
    assert_eq!(out, rle_block_output());
}

#[test]
fn inflator_reads_until_final_block() {
    let mut bs = BitStreamInflator::new(vec![75, 76, 74, 6, 0]);
    assert_eq!(bs.read(), Ok(()));
}

#[test]
fn inflate_stored_block() {
    // BFINAL = 1, BTYPE = 00, then LEN = 3, NLEN = !3 and the bytes.
    let stream: Vec<u8> = vec![1, 3, 0, 252, 255, b'x', b'y', b'z'];
    assert_eq!(inflate_data(stream).unwrap(), b"xyz".to_vec());
}

#[test]
fn inflate_stored_then_fixed_block() {
    // A non-final stored block holding "hi", then a final fixed block holding "abc".
    let stream: Vec<u8> = vec![0, 2, 0, 253, 255, b'h', b'i', 75, 76, 74, 6, 0];
    assert_eq!(inflate_data(stream).unwrap(), b"hiabc".to_vec());
}

#[test]
fn inflate_empty_input_is_truncated() {
    assert_eq!(inflate_data(Vec::new()), Err(InflateError::UnexpectedEnd));
}

#[test]
fn inflate_truncated_block() {
    assert_eq!(inflate_data(vec![75, 76]), Err(InflateError::UnexpectedEnd));
}

#[test]
fn inflate_rejects_block_type_three() {
    assert_eq!(inflate_data(vec![7]), Err(InflateError::InvalidBlockType));
}

#[test]
fn inflate_rejects_unresolved_code() {
    // The code-length code has a single one-bit code, and fifteen 1 bits follow.
    assert_eq!(inflate_data(vec![5, 0, 0, 228, 255, 15]), Err(InflateError::InvalidCode));
}

#[test]
fn inflate_rejects_length_symbol_286() {
    assert_eq!(inflate_data(vec![27, 3]), Err(InflateError::InvalidLengthSymbol));
}

#[test]
fn inflate_rejects_distance_symbol_30() {
    assert_eq!(inflate_data(vec![75, 4, 62]), Err(InflateError::InvalidDistanceSymbol));
}

#[test]
fn inflate_rejects_reference_before_start() {
    assert_eq!(inflate_data(vec![3, 2]), Err(InflateError::DistanceTooFar));
}

#[test]
fn inflate_rejects_stored_length_mismatch() {
    assert_eq!(inflate_data(vec![1, 1, 0, 0, 0, b'x']), Err(InflateError::StoredLengthMismatch));
}

#[test]
fn inflate_rejects_repeat_without_previous_length() {
    assert_eq!(inflate_data(vec![5, 0, 2, 0]), Err(InflateError::InvalidCodeLengths));
}

#[test]
fn inflate_rejects_oversubscribed_code() {
    // Four code-length codes of one bit each.
    assert_eq!(inflate_data(vec![5, 0, 146, 4]), Err(InflateError::OversubscribedCode));
}
