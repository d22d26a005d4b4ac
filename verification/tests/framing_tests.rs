use std::collections::VecDeque;
use soulev::framing::{encode_hex, push_front_all, scan_queue};

#[test]
fn hex_encoding_is_uppercase_and_zero_padded() {
    let r = encode_hex(&vec![0x01u8, 0x00]);
    assert_eq!(r, b"0100".to_vec());
    let r = encode_hex(&vec![0xABu8, 0x05, 0xFF]);
    assert_eq!(r, b"AB05FF".to_vec());
    let r = encode_hex(&vec![]);
    assert_eq!(r, Vec::<u8>::new());
}

#[test]
fn crlf_pairs_collapse_to_one_newline() {
    // "A\r\nB\r\n>" assembles as "A\nB\n>": one line feed per CRLF pair,
    // no separate entry for the dropped bare line feed
    let mut q: VecDeque<u8> = b"A\r\nB\r\n>".iter().copied().collect();
    let mut acc: Vec<u8> = Vec::new();
    let done = scan_queue(&mut q, &mut acc, b'>');
    assert!(done);
    assert_eq!(acc, b"A\nB\n>".to_vec());
    assert!(q.is_empty());
}

#[test]
fn carriage_return_becomes_newline_and_stops_line_reads() {
    let mut q: VecDeque<u8> = b"DATA\rrest".iter().copied().collect();
    let mut acc: Vec<u8> = Vec::new();
    let done = scan_queue(&mut q, &mut acc, b'\n');
    assert!(done);
    assert_eq!(acc, b"DATA\n".to_vec());
    assert_eq!(q.iter().copied().collect::<Vec<u8>>(), b"rest".to_vec());
}

#[test]
fn bare_newlines_are_consumed_without_being_appended() {
    let mut q: VecDeque<u8> = b"\n\nDATA>".iter().copied().collect();
    let mut acc: Vec<u8> = Vec::new();
    let done = scan_queue(&mut q, &mut acc, b'>');
    assert!(done);
    assert_eq!(acc, b"DATA>".to_vec());
}

#[test]
fn incomplete_scan_drains_queue_without_terminator() {
    let mut q: VecDeque<u8> = b"12".iter().copied().collect();
    let mut acc: Vec<u8> = Vec::new();
    let done = scan_queue(&mut q, &mut acc, b'>');
    assert!(!done);
    assert_eq!(acc, b"12".to_vec());
    assert!(q.is_empty());
}

#[test]
fn push_back_restores_bytes_in_original_order() {
    let mut q: VecDeque<u8> = b"XY".iter().copied().collect();
    let acc = b"12".to_vec();
    push_front_all(&mut q, &acc);
    assert_eq!(q.iter().copied().collect::<Vec<u8>>(), b"12XY".to_vec());
}
