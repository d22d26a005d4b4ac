use soulev::elm327::Elm327;
use soulev::history::{CircularBuffer, History};
use soulev::kia::{Error, Kia};

fn setup_commands() -> Vec<&'static str> {
    vec![
        " ", "AT Z", "ATSP0", "AT D", "AT E0", "AT L0", "AT H0", "AT H1", "AT AT1", "AT AR",
        "AT AL", "AT S1", "AT FE", "AT SPA6", "AT CAF1", "01 00", "01 20", "09 00", "01 01",
        "AT SH 7DF", "AT CRA 7EC", "21 00",
    ]
}

fn page_response(base: u8) -> Vec<u8> {
    // five blocks of seven values; the last three values of block 25 are
    // 0x63 (99), which must never reach the 96-cell result
    let b = format!("{:02X}", base);
    format!(
        "7EC 21 {b} {b} {b} {b} {b} {b} {b}\r7EC 22 {b} {b} {b} {b} {b} {b} {b}\r7EC 23 {b} {b} {b} {b} {b} {b} {b}\r7EC 24 {b} {b} {b} {b} {b} {b} {b}\r7EC 25 {b} {b} {b} {b} 63 63 63\r>",
        b = b
    )
    .into_bytes()
}

fn battery_response() -> Vec<u8> {
    b"7EC 21 32 00 00 00 00 80 01\r7EC 22 05 01 02 00 00 00 00\r7EC 23 0A 00 00 00 00 00 00\r7EC 24 14 00 00 00 00 00 00\r>".to_vec()
}

fn vehicle_history(with_pages: bool) -> History {
    let mut entries: Vec<(Vec<u8>, CircularBuffer<Vec<u8>>)> = Vec::new();
    for cmd in setup_commands() {
        let key = format!("{}\r\n", cmd).into_bytes();
        let response: Vec<u8> = if cmd == " " {
            b"ELM327 v1.5\r>".to_vec()
        } else {
            b"OK\r>".to_vec()
        };
        entries.push((key, CircularBuffer::new(vec![response])));
    }
    if with_pages {
        entries.push((b"21 02\r\n".to_vec(), CircularBuffer::new(vec![page_response(0x32)])));
        entries.push((b"21 03\r\n".to_vec(), CircularBuffer::new(vec![page_response(0x3C)])));
        entries.push((b"21 04\r\n".to_vec(), CircularBuffer::new(vec![page_response(0x46)])));
    }
    entries.push((b"21 01\r\n".to_vec(), CircularBuffer::new(vec![battery_response()])));
    entries.push((
        b"09 02\r\n".to_vec(),
        CircularBuffer::new(vec![b"49 02 01 4B 4D 38\r>".to_vec()]),
    ));
    History::new(entries)
}

fn connected_session(with_pages: bool) -> Kia<History> {
    let engine = Elm327::new(vehicle_history(with_pages)).unwrap();
    let mut kia = Kia::new(engine);
    kia.init().unwrap();
    kia
}

#[test]
fn the_setup_sequence_succeeds_when_every_command_answers() {
    connected_session(true);
}

#[test]
fn the_setup_sequence_aborts_on_the_first_failing_command() {
    // no "AT D" recorded: the very first setup command fails
    let mut entries: Vec<(Vec<u8>, CircularBuffer<Vec<u8>>)> = Vec::new();
    for cmd in [" ", "AT Z", "ATSP0", "01 00"] {
        let key = format!("{}\r\n", cmd).into_bytes();
        entries.push((key, CircularBuffer::new(vec![b"OK\r>".to_vec()])));
    }
    let engine = Elm327::new(History::new(entries)).unwrap();
    let mut kia = Kia::new(engine);
    assert!(matches!(kia.init(), Err(Error::Other)));
}

#[test]
fn cell_voltages_concatenate_the_first_32_of_each_35_value_page() {
    let mut kia = connected_session(true);
    let cells = kia.get_cell_voltages().unwrap();
    assert_eq!(cells.len(), 96);
    // page one contributes cells 0..32 at 50 raw units = 1.0 V
    assert_eq!(cells[0], 50 * 20);
    assert_eq!(cells[31], 50 * 20);
    // page two starts at cell 32 with 60 raw units
    assert_eq!(cells[32], 60 * 20);
    assert_eq!(cells[63], 60 * 20);
    // page three fills the rest with 70 raw units
    assert_eq!(cells[64], 70 * 20);
    assert_eq!(cells[95], 70 * 20);
    // the trailing three 99-unit values of every page were dropped
    assert!(cells.iter().all(|&mv| mv != 99 * 20));
}

#[test]
fn a_page_missing_a_block_fails_the_query() {
    let mut entries: Vec<(Vec<u8>, CircularBuffer<Vec<u8>>)> = Vec::new();
    for cmd in setup_commands() {
        let key = format!("{}\r\n", cmd).into_bytes();
        let response: Vec<u8> = if cmd == " " {
            b"ELM327 v1.5\r>".to_vec()
        } else {
            b"OK\r>".to_vec()
        };
        entries.push((key, CircularBuffer::new(vec![response])));
    }
    // block 25 is missing from the first page
    entries.push((
        b"21 02\r\n".to_vec(),
        CircularBuffer::new(vec![
            b"7EC 21 32 32 32 32 32 32 32\r7EC 22 32 32 32 32 32 32 32\r7EC 23 32 32 32 32 32 32 32\r7EC 24 32 32 32 32 32 32 32\r>".to_vec(),
        ]),
    ));
    let engine = Elm327::new(History::new(entries)).unwrap();
    let mut kia = Kia::new(engine);
    kia.init().unwrap();
    assert!(matches!(kia.get_cell_voltages(), Err(Error::Other)));
}

#[test]
fn get_car_info_composes_cells_battery_and_a_timestamp() {
    let mut kia = connected_session(true);
    let info = kia.get_car_info().unwrap();
    assert_eq!(info.cell_voltages.len(), 96);
    assert_eq!(info.battery_info.charge_level_tenths, 250);
    assert!(info.battery_info.charging);
    assert_eq!(info.battery_info.battery_dc_voltage_decivolts, 258);
    assert_eq!(info.battery_info.battery_current_deciamps, 261);
    assert!(info.time_unix_secs > 0);
}

#[test]
fn the_vin_is_the_response_without_whitespace() {
    let mut kia = connected_session(false);
    let vin = kia.get_vin().unwrap();
    assert_eq!(vin, "4902014B4D38".to_string());
}
