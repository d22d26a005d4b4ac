use soulev::history::{escape, unescape, CircularBuffer, History};
use soulev::transport::{Error, Transport};

#[test]
fn a_circular_buffer_replays_its_elements_round_robin() {
    let mut cb = CircularBuffer::new(vec![1u8, 2, 3]);
    assert_eq!(cb.get(), Some(&1));
    assert_eq!(cb.get(), Some(&2));
    assert_eq!(cb.get(), Some(&3));
    assert_eq!(cb.get(), Some(&1));
}

#[test]
fn an_empty_circular_buffer_has_nothing_to_hand_out() {
    let mut cb: CircularBuffer<u8> = CircularBuffer::new(vec![]);
    assert_eq!(cb.get(), None);
    assert_eq!(cb.get(), None);
}

#[test]
fn two_recorded_responses_replay_in_order_then_repeat() {
    let mut h = History::new(vec![(
        b"CMD\r\n".to_vec(),
        CircularBuffer::new(vec![b"first>".to_vec(), b"second>".to_vec()]),
    )]);
    let mut seen: Vec<Vec<u8>> = Vec::new();
    for _ in 0..3 {
        h.write(&b"CMD\r\n".to_vec()).unwrap();
        seen.push(h.read(64).unwrap());
    }
    assert_eq!(seen[0], b"first>".to_vec());
    assert_eq!(seen[1], b"second>".to_vec());
    assert_eq!(seen[2], b"first>".to_vec());
}

#[test]
fn a_write_is_keyed_by_the_accumulated_chunks_with_their_crlf() {
    let mut h = History::new(vec![(
        b"AT Z\r\n".to_vec(),
        CircularBuffer::new(vec![b"OK>".to_vec()]),
    )]);
    // the command text and its CRLF framing arrive as separate chunks
    h.write(&b"AT Z".to_vec()).unwrap();
    h.write(&b"\r\n".to_vec()).unwrap();
    assert_eq!(h.read(64).unwrap(), b"OK>".to_vec());
}

#[test]
fn writing_an_unrecorded_key_fails() {
    let mut h = History::default();
    let r = h.write(&b"NOPE\r\n".to_vec());
    assert!(matches!(r, Err(Error::Other)));
}

#[test]
fn read_hands_out_at_most_the_asked_bytes_and_then_runs_dry() {
    let mut h = History::new(vec![(
        b"CMD\r\n".to_vec(),
        CircularBuffer::new(vec![b"abcde".to_vec()]),
    )]);
    h.write(&b"CMD\r\n".to_vec()).unwrap();
    assert_eq!(h.read(2).unwrap(), b"ab".to_vec());
    assert_eq!(h.read(2).unwrap(), b"cd".to_vec());
    assert_eq!(h.read(2).unwrap(), b"e".to_vec());
    assert_eq!(h.read(2).unwrap(), Vec::<u8>::new());
}

#[test]
fn the_synthetic_clock_advances_by_sleeping() {
    let mut h = History::default();
    assert_eq!(h.now_ms(), 0);
    h.sleep_ms(50);
    h.sleep_ms(25);
    assert_eq!(h.now_ms(), 75);
    assert!(h.connected());
}

#[test]
fn escaping_replaces_line_breaks_and_unescaping_restores_them() {
    let raw = b"AT Z\r\n".to_vec();
    let esc = escape(&raw);
    assert_eq!(esc, b"AT Z\\r\\n".to_vec());
    assert_eq!(unescape(&esc), raw);
    assert_eq!(unescape(&b"plain".to_vec()), b"plain".to_vec());
}

#[test]
fn a_log_line_pair_becomes_one_recorded_exchange() {
    let log = b"write: 'AT Z\\r\\n'\nread: 'OK\\r>'\n".to_vec();
    let mut h = History::from_log(&log);
    h.write(&b"AT Z\r\n".to_vec()).unwrap();
    assert_eq!(h.read(64).unwrap(), b"OK\r>".to_vec());
}

#[test]
fn consecutive_read_lines_concatenate_into_one_response() {
    let log = b"write: '21 01\\r\\n'\nread: '7EC 21 32\\n'\nread: '7EC 22 05\\n>'\n".to_vec();
    let mut h = History::from_log(&log);
    h.write(&b"21 01\r\n".to_vec()).unwrap();
    assert_eq!(h.read(64).unwrap(), b"7EC 21 32\n7EC 22 05\n>".to_vec());
}

#[test]
fn a_recurring_write_text_collects_its_responses_in_order() {
    let log =
        b"write: 'CMD\\r\\n'\nread: 'one>'\nwrite: 'CMD\\r\\n'\nread: 'two>'\n".to_vec();
    let mut h = History::from_log(&log);
    h.write(&b"CMD\r\n".to_vec()).unwrap();
    assert_eq!(h.read(64).unwrap(), b"one>".to_vec());
    h.write(&b"CMD\r\n".to_vec()).unwrap();
    assert_eq!(h.read(64).unwrap(), b"two>".to_vec());
    h.write(&b"CMD\r\n".to_vec()).unwrap();
    assert_eq!(h.read(64).unwrap(), b"one>".to_vec());
}

#[test]
fn lines_that_are_neither_write_nor_read_are_ignored() {
    let log = b"# comment\nwrite: 'A\\r\\n'\nread: 'ok>'\n".to_vec();
    let mut h = History::from_log(&log);
    h.write(&b"A\r\n".to_vec()).unwrap();
    assert_eq!(h.read(64).unwrap(), b"ok>".to_vec());
}
