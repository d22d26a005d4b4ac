use soulev::decode::{parse_hex_i32, parse_multi_frame_response, DecodeError};

#[test]
fn hex_tokens_parse_to_their_values() {
    assert_eq!(parse_hex_i32(&b"00".to_vec()), Some(0));
    assert_eq!(parse_hex_i32(&b"ff".to_vec()), Some(255));
    assert_eq!(parse_hex_i32(&b"FF".to_vec()), Some(255));
    assert_eq!(parse_hex_i32(&b"1A".to_vec()), Some(26));
    assert_eq!(parse_hex_i32(&b"0032".to_vec()), Some(50));
    assert_eq!(parse_hex_i32(&b"7FFFFFFF".to_vec()), Some(i32::MAX));
}

#[test]
fn bad_hex_tokens_are_rejected() {
    assert_eq!(parse_hex_i32(&b"".to_vec()), None);
    assert_eq!(parse_hex_i32(&b"G1".to_vec()), None);
    assert_eq!(parse_hex_i32(&b"1 ".to_vec()), None);
    // one past i32::MAX, and something far larger
    assert_eq!(parse_hex_i32(&b"80000000".to_vec()), None);
    assert_eq!(parse_hex_i32(&b"FFFFFFFFFF".to_vec()), None);
}

#[test]
fn multi_frame_groups_lines_by_block() {
    let text = b"7E8 10 21 00 00 00 00 F2 00\n7E8 21 00 00 00 00 00 00 00\n".to_vec();
    let map = parse_multi_frame_response(&text, 7).unwrap();
    let b10 = map.get(&b"10".to_vec()).unwrap();
    assert_eq!(b10, &vec![0x21, 0, 0, 0, 0, 0xF2, 0]);
    let b21 = map.get(&b"21".to_vec()).unwrap();
    assert_eq!(b21, &vec![0, 0, 0, 0, 0, 0, 0]);
    assert!(map.get(&b"22".to_vec()).is_none());
}

#[test]
fn repeated_whitespace_and_blank_lines_are_tolerated() {
    let text = b"\n  \n7E8  21  01 02 03 04 05 06 07\n\n".to_vec();
    let map = parse_multi_frame_response(&text, 7).unwrap();
    let b21 = map.get(&b"21".to_vec()).unwrap();
    assert_eq!(b21, &vec![1, 2, 3, 4, 5, 6, 7]);
}

#[test]
fn a_later_line_for_the_same_block_replaces_the_earlier_one() {
    let text = b"7E8 21 01 01 01 01 01 01 01\n7E8 21 02 02 02 02 02 02 02\n".to_vec();
    let map = parse_multi_frame_response(&text, 7).unwrap();
    let b21 = map.get(&b"21".to_vec()).unwrap();
    assert_eq!(b21, &vec![2, 2, 2, 2, 2, 2, 2]);
}

#[test]
fn a_line_without_a_block_identifier_fails_the_decode() {
    let text = b"7E8\n".to_vec();
    let r = parse_multi_frame_response(&text, 7);
    assert!(matches!(r, Err(DecodeError::NoBlock(ref l)) if l.as_slice() == b"7E8"));
}

#[test]
fn a_bad_value_token_fails_the_decode_and_names_the_token() {
    let text = b"7E8 21 01 0Z 03 04 05 06 07\n".to_vec();
    let r = parse_multi_frame_response(&text, 7);
    assert!(matches!(r, Err(DecodeError::BadHexToken(ref t)) if t.as_slice() == b"0Z"));
}

#[test]
fn a_short_block_fails_the_decode_and_names_the_block() {
    let text = b"7E8 21 01 02 03\n".to_vec();
    let r = parse_multi_frame_response(&text, 7);
    assert!(matches!(r, Err(DecodeError::ShortBlock(ref b, 3)) if b.as_slice() == b"21"));
}

#[test]
fn values_beyond_the_arity_are_kept() {
    let text = b"7E8 21 01 02 03 04 05 06 07 08 09\n".to_vec();
    let map = parse_multi_frame_response(&text, 7).unwrap();
    let b21 = map.get(&b"21".to_vec()).unwrap();
    assert_eq!(b21, &vec![1, 2, 3, 4, 5, 6, 7, 8, 9]);
}
