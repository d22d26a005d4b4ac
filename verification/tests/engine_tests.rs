use soulev::elm327::{Elm327, Error};
use soulev::history::{CircularBuffer, History};

fn seed(pairs: Vec<(&[u8], Vec<&[u8]>)>) -> History {
    let entries = pairs
        .into_iter()
        .map(|(k, rs)| {
            (
                k.to_vec(),
                CircularBuffer::new(rs.into_iter().map(|r| r.to_vec()).collect()),
            )
        })
        .collect();
    History::new(entries)
}

fn init_pairs() -> Vec<(&'static [u8], Vec<&'static [u8]>)> {
    vec![
        (b" \r\n", vec![b"ELM327 v1.5\r>"]),
        (b"AT Z\r\n", vec![b"ELM327 v1.5\r>"]),
        (b"ATSP0\r\n", vec![b"OK\r>"]),
        (b"01 00\r\n", vec![b"41 00 BE 3E B8 11\r>"]),
    ]
}

fn engine_with(extra: Vec<(&'static [u8], Vec<&'static [u8]>)>) -> Elm327<History> {
    let mut pairs = init_pairs();
    pairs.extend(extra);
    Elm327::new(seed(pairs)).unwrap()
}

#[test]
fn connecting_captures_the_device_identity() {
    let engine = engine_with(vec![]);
    assert_eq!(engine.get_connected_device_name(), "ELM327 v1.5".to_string());
}

#[test]
fn connecting_fails_without_a_recorded_identity_exchange() {
    let r = Elm327::new(seed(vec![]));
    assert!(matches!(r, Err(Error::Communication)));
}

#[test]
fn serial_cmd_returns_the_response_text() {
    let mut engine = engine_with(vec![(b"AT RV\r\n", vec![b"12.6V\r>"])]);
    let r = engine.serial_cmd("AT RV").unwrap();
    assert_eq!(r, "12.6V\n".to_string());
}

#[test]
fn serial_cmd_strips_the_echoed_command() {
    let mut engine = engine_with(vec![(b"AT RV\r\n", vec![b"AT RV\r12.6V\r>"])]);
    let r = engine.serial_cmd("AT RV").unwrap();
    assert_eq!(r, "12.6V\n".to_string());
}

#[test]
fn each_crlf_pair_contributes_exactly_one_newline() {
    let mut engine = engine_with(vec![(b"AT RV\r\n", vec![b"A\r\nB\r\n>"])]);
    let r = engine.serial_cmd("AT RV").unwrap();
    assert_eq!(r, "A\nB\n".to_string());
}

#[test]
fn get_line_skips_blank_lines_and_never_returns_an_empty_frame() {
    // 0x58 is "X": send_cmd writes the key and leaves its response pending
    let mut engine = engine_with(vec![(b"58\r\n", vec![b"\r\rDATA\r"])]);
    engine.send_cmd(&vec![0x58]).unwrap();
    let line = engine.get_line().unwrap().unwrap();
    assert_eq!(line, b"DATA".to_vec());
}

#[test]
fn send_cmd_transmits_the_literal_hex_text() {
    // the replay transport matches the exact bytes written, so this
    // exchange only succeeds if send_cmd writes the text "0100"
    let mut engine = engine_with(vec![(b"0100\r\n", vec![b"41 00 00 00 00 00\r>"])]);
    engine.send_cmd(&vec![0x01, 0x00]).unwrap();
    let frame = engine.get_response().unwrap().unwrap();
    assert_eq!(frame, b"41 00 00 00 00 00\n".to_vec());
}

#[test]
fn a_timeout_preserves_pending_bytes_in_original_order() {
    // 0x59 is "Y", 0x5A is "Z"
    let mut engine = engine_with(vec![
        (b"59\r\n", vec![b"12"]),
        (b"5A\r\n", vec![b"ZZ>"]),
    ]);
    // the response has no terminator: frame assembly times out on the
    // synthetic clock and reports "no frame yet"
    engine.send_cmd(&vec![0x59]).unwrap();
    assert!(engine.get_response().unwrap().is_none());
    // the partial bytes b"12" went back to the front of the queue: the
    // next exchange sees them, unchanged and in order, before its own data
    engine.send_cmd(&vec![0x5A]).unwrap();
    let frame = engine.get_response().unwrap().unwrap();
    assert_eq!(frame, b"12ZZ".to_vec());
}

#[test]
fn a_timed_out_command_is_a_communication_error() {
    let mut engine = engine_with(vec![(b"AT RV\r\n", vec![b"12"])]);
    let r = engine.serial_cmd("AT RV");
    assert!(matches!(r, Err(Error::Communication)));
}

#[test]
fn an_unrecorded_command_is_a_communication_error() {
    let mut engine = engine_with(vec![]);
    let r = engine.serial_cmd("AT XX");
    assert!(matches!(r, Err(Error::Communication)));
}

#[test]
fn multibyte_text_in_a_response_decodes_as_utf8() {
    // 0xCE 0xA9 is the UTF-8 encoding of a Greek capital omega
    let mut engine = engine_with(vec![(b"AT RV\r\n", vec![&[0xCE, 0xA9, b'>']])]);
    let r = engine.serial_cmd("AT RV").unwrap();
    assert_eq!(r, "\u{03A9}".to_string());
}

#[test]
fn invalid_text_in_a_response_is_a_communication_error() {
    let mut engine = engine_with(vec![(b"AT RV\r\n", vec![&[0xFF, 0xFE, b'>']])]);
    let r = engine.serial_cmd("AT RV");
    assert!(matches!(r, Err(Error::Communication)));
}

#[test]
fn an_empty_response_before_the_prompt_is_allowed() {
    let mut engine = engine_with(vec![(b"AT RV\r\n", vec![b">"])]);
    let r = engine.serial_cmd("AT RV").unwrap();
    assert_eq!(r, "".to_string());
}

#[test]
fn change_transport_runs_the_whole_handshake_again() {
    let mut engine = engine_with(vec![]);
    let mut pairs = init_pairs();
    pairs[0] = (b" \r\n", vec![b"OTHER DEVICE\r>"]);
    engine.change_transport(seed(pairs)).unwrap();
    assert_eq!(engine.get_connected_device_name(), "OTHER DEVICE".to_string());
}
