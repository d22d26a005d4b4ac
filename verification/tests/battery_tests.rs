use soulev::decode::DecodeError;
use soulev::kia::{parse_battery_info, parse_cell_page};

fn battery_response() -> String {
    // block21 = [50, 0, 0, 0, 0, 0x80, 1], block22 = [5, 1, 2, 0, 0, 0, 0],
    // block23 = [10, 0, 0, 0, 0, 0, 0], block24 = [20, 0, 0, 0, 0, 0, 0]
    "7EC 21 32 00 00 00 00 80 01\n7EC 22 05 01 02 00 00 00 00\n7EC 23 0A 00 00 00 00 00 00\n7EC 24 14 00 00 00 00 00 00\n".to_string()
}

#[test]
fn battery_decode_yields_the_documented_values() {
    let info = parse_battery_info(battery_response()).unwrap();
    // charge level: 50 * 0.5 = 25.0 percent
    assert_eq!(info.charge_level_tenths, 250);
    assert_eq!(info.charge_level_tenths as f64 / 10.0, 25.0);
    // flag byte 0x80: bit 7 charging, bits 6 and 5 clear
    assert!(info.charging);
    assert!(!info.chademo_plugged);
    assert!(!info.j1772_plugged);
    // pack voltage: (1 << 8 | 2) * 0.1 = 25.8 V
    assert_eq!(info.battery_dc_voltage_decivolts, 258);
    assert_eq!(info.battery_dc_voltage_decivolts as f64 / 10.0, 25.8);
    // min 10 * 0.02 = 0.2 V, max 20 * 0.02 = 0.4 V
    assert_eq!(info.min_cell_voltage_millivolts, 200);
    assert_eq!(info.max_cell_voltage_millivolts, 400);
    assert_eq!(info.min_cell_voltage_millivolts as f64 / 1000.0, 0.2);
    assert_eq!(info.max_cell_voltage_millivolts as f64 / 1000.0, 0.4);
    // msb = 1 > 0 with bit 7 clear: ((1 << 8) | 5) * 0.1 = 26.1 A
    assert_eq!(info.battery_current_deciamps, 261);
    assert_eq!(info.battery_current_deciamps as f64 / 10.0, 26.1);
    // module temperatures from blocks 22 and 23
    assert_eq!(info.module_temperatures, vec![0, 0, 0, 0, 10, 0, 0]);
    assert_eq!(info.motor_speed, 0);
}

#[test]
fn battery_current_sign_extends_when_bit_seven_is_set() {
    let text = "7EC 21 32 00 00 00 00 00 80\n7EC 22 00 01 02 00 00 00 00\n7EC 23 0A 00 00 00 00 00 00\n7EC 24 14 00 00 00 00 00 00\n".to_string();
    let info = parse_battery_info(text).unwrap();
    // msb = 0x80: value (0x80 << 8) | 0 = 32768, minus 65536 raw units
    assert_eq!(info.battery_current_deciamps, 32768 - 65536);
    assert_eq!(info.battery_current_deciamps as f64 / 10.0, 3276.8 - 6553.6);
}

#[test]
fn battery_current_is_zero_when_the_msb_is_zero() {
    let text = "7EC 21 32 00 00 00 00 00 00\n7EC 22 63 01 02 00 00 00 00\n7EC 23 0A 00 00 00 00 00 00\n7EC 24 14 00 00 00 00 00 00\n".to_string();
    let info = parse_battery_info(text).unwrap();
    assert_eq!(info.battery_current_deciamps, 0);
}

#[test]
fn a_missing_required_block_names_the_block() {
    let text = "7EC 21 32 00 00 00 00 80 01\n7EC 22 05 01 02 00 00 00 00\n7EC 24 14 00 00 00 00 00 00\n".to_string();
    let r = parse_battery_info(text);
    assert!(matches!(r, Err(DecodeError::MissingBlock(ref b)) if b.as_slice() == b"23"));
}

#[test]
fn cell_page_decode_scales_by_twenty_millivolts() {
    let text = "7EC 21 32 32 32 32 32 32 32\n7EC 22 32 32 32 32 32 32 32\n7EC 23 32 32 32 32 32 32 32\n7EC 24 32 32 32 32 32 32 32\n7EC 25 32 32 32 32 63 63 63\n".to_string();
    let page = parse_cell_page(text).unwrap();
    assert_eq!(page.len(), 35);
    // a raw value of 50 maps to 1.0 volts (50 * 0.02)
    assert_eq!(page[0], 1000);
    assert_eq!(page[0] as f32 / 1000.0, 1.0);
    // the trailing three values of the page decode too (0x63 = 99)
    assert_eq!(page[32], 99 * 20);
    assert_eq!(page[34], 99 * 20);
}

#[test]
fn a_cell_page_missing_a_block_names_the_block() {
    let text = "7EC 21 32 32 32 32 32 32 32\n7EC 22 32 32 32 32 32 32 32\n7EC 23 32 32 32 32 32 32 32\n7EC 24 32 32 32 32 32 32 32\n".to_string();
    let r = parse_cell_page(text);
    assert!(matches!(r, Err(DecodeError::MissingBlock(ref b)) if b.as_slice() == b"25"));
}
