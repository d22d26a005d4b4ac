//! The vehicle-specific command set and session orchestration: typed
//! commands for cell voltages and battery info over the multi-frame
//! decoder, and the fixed setup sequence that makes a fresh connection
//! usable.
//!
//! Scaling note: raw values are kept exact as integers. A raw cell-voltage
//! unit is 20 millivolts (a 0.02 V step), battery voltage and current are
//! held in tenths (decivolts, deciamps), and the charge level in tenths of
//! a percent (a raw unit is half a percent).

use vstd::prelude::*;
use vstd::string::{StrSliceExecFns, StringExecFns, StringSliceAdditionalSpecFns};
use vstd::utf8::{decode_utf8, encode_utf8, valid_utf8};
use crate::decode::{
    parse_multi_frame_response, spec_parse_multi_frame, DecodeError, DecodeFailure,
};
use crate::elm327;
use crate::elm327::{framed_text, strip_echo, Command, Elm327, PROMPT};
use crate::framing::CR;
use crate::transport::Transport;

verus! {

/// Session-level failures: a lost connection forces reconnection, anything
/// else is reported per call without destroying the session.
#[derive(Debug)]
pub enum Error {
    NotConnected,
    Other,
}

impl Error {
    /// Reclassifies a protocol failure at the session boundary.
    pub fn from_elm327(e: elm327::Error) -> (r: Error)
        ensures
            (e is NotConnected) ==> (r is NotConnected),
            !(e is NotConnected) ==> (r is Other),
    {
        match e {
            elm327::Error::NotConnected => Error::NotConnected,
            _ => Error::Other,
        }
    }
}

/// The identifier of one diagnostic block, `"2"` followed by the given
/// ASCII digit: block `"21"` is `block_id(49)`.
pub open spec fn block_id(low: u8) -> Seq<u8> {
    seq![50u8, low]
}

/// The identifier of one diagnostic block as bytes.
fn block_key(low: u8) -> (r: Vec<u8>)
    ensures
        r@ == block_id(low),
{
    let mut r: Vec<u8> = Vec::new();
    r.push(50);
    r.push(low);
    proof {
        assert(r@ =~= block_id(low));
    }
    r
}

/// A raw cell-voltage unit is 0.02 V: 20 millivolts.
pub open spec fn mv_of(v: i32) -> i64 {
    (v * 20) as i64
}

/// Raw cell values scaled to millivolts.
pub open spec fn scaled_mv(vals: Seq<i32>) -> Seq<i64> {
    vals.map_values(|v: i32| mv_of(v))
}

/// One page of the cell-voltage response: blocks `"21"` through `"25"`
/// must be present, and the page is their first seven values each, in
/// block order, scaled to millivolts — 35 values. The first absent block
/// fails the page.
pub open spec fn cell_page_values(m: Map<Seq<u8>, Seq<i32>>) -> Result<Seq<i64>, DecodeFailure> {
    if !m.contains_key(block_id(49)) {
        Err(DecodeFailure::MissingBlock(block_id(49)))
    } else if !m.contains_key(block_id(50)) {
        Err(DecodeFailure::MissingBlock(block_id(50)))
    } else if !m.contains_key(block_id(51)) {
        Err(DecodeFailure::MissingBlock(block_id(51)))
    } else if !m.contains_key(block_id(52)) {
        Err(DecodeFailure::MissingBlock(block_id(52)))
    } else if !m.contains_key(block_id(53)) {
        Err(DecodeFailure::MissingBlock(block_id(53)))
    } else {
        Ok(
            scaled_mv(m[block_id(49)].take(7)) + scaled_mv(m[block_id(50)].take(7)) + scaled_mv(
                m[block_id(51)].take(7),
            ) + scaled_mv(m[block_id(52)].take(7)) + scaled_mv(m[block_id(53)].take(7)),
        )
    }
}

/// What decoding one cell-voltage page from response text yields.
pub open spec fn spec_cell_parse(response: Seq<char>) -> Result<Seq<i64>, DecodeFailure> {
    match spec_parse_multi_frame(encode_utf8(response), 7) {
        Err(f) => Err(f),
        Ok(m) => cell_page_values(m),
    }
}

/// One page of the cell-voltage query; the field is the request suffix
/// (`"2"`, `"3"` or `"4"`) that selects the page.
pub struct CellVoltagesCommand(pub String);

impl Command for CellVoltagesCommand {
    type Response = Vec<i64>;

    open spec fn spec_command(&self) -> Seq<char> {
        "21 0"@ + self.0@
    }

    open spec fn spec_parse(&self, response: Seq<char>) -> Result<Seq<i64>, DecodeFailure> {
        spec_cell_parse(response)
    }

    fn serial_command(&self) -> (r: String) {
        let base = String::from_str("21 0");
        base.concat(self.0.as_str())
    }

    fn parse_result(&self, response: String) -> (r: Result<Vec<i64>, DecodeError>) {
        let r = parse_cell_page(response);
        proof {
            if r is Ok {
                assert(r->Ok_0.deep_view() =~= r->Ok_0@);
            }
        }
        r
    }
}

/// Appends the first `count` values, scaled to millivolts.
fn push_scaled(out: &mut Vec<i64>, vals: &Vec<i32>, count: usize)
    requires
        vals@.len() >= count,
    ensures
        final(out)@ == old(out)@ + scaled_mv(vals@.take(count as int)),
{
    let mut j: usize = 0;
    while j < count
        invariant
            j <= count,
            count <= vals@.len(),
            out@ == old(out)@ + scaled_mv(vals@.take(j as int)),
        decreases count - j,
    {
        let v = vals[j];
        out.push((v as i64) * 20);
        proof {
            assert(scaled_mv(vals@.take(j as int + 1)) =~= scaled_mv(vals@.take(j as int)).push(
                mv_of(vals@[j as int]),
            ));
            assert((old(out)@ + scaled_mv(vals@.take(j as int))).push(mv_of(vals@[j as int]))
                =~= old(out)@ + scaled_mv(vals@.take(j as int + 1)));
        }
        j = j + 1;
    }
}

/// Decodes one cell-voltage page: multi-frame decode at arity seven, then
/// blocks `"21"` through `"25"` scaled to millivolts, exactly as
/// `spec_cell_parse` says.
pub fn parse_cell_page(response: String) -> (r: Result<Vec<i64>, DecodeError>)
    ensures
        (match spec_cell_parse(response@) {
            Ok(v) => r matches Ok(x) && x@ == v,
            Err(f) => r matches Err(e) && e@ == f,
        }),
{
    let bytes = response.as_str().as_bytes_vec();
    let map = match parse_multi_frame_response(&bytes, 7) {
        Ok(m) => m,
        Err(e) => {
            return Err(e);
        },
    };
    proof {
        crate::decode::lemma_multi_frame_arity(bytes@, 7);
    }
    let mut out: Vec<i64> = Vec::new();
    let mut low: u8 = 49;
    while low <= 53
        invariant
            49 <= low <= 54,
            bytes@ == encode_utf8(response@),
            (spec_parse_multi_frame(bytes@, 7) matches Ok(m) && map@ == m),
            forall|k: Seq<u8>| map@.contains_key(k) ==> (#[trigger] map@[k]).len() >= 7,
            forall|d: u8| 49 <= d < low ==> #[trigger] map@.contains_key(block_id(d)),
            out@ == spec_pages_upto(map@, low),
        decreases 54 - low,
    {
        let key = block_key(low);
        match map.get(&key) {
            None => {
                proof {
                    assert(cell_page_values(map@) == Err::<Seq<i64>, DecodeFailure>(
                        DecodeFailure::MissingBlock(block_id(low)),
                    ));
                }
                return Err(DecodeError::MissingBlock(key));
            },
            Some(vals) => {
                push_scaled(&mut out, vals, 7);
                proof {
                    assert(spec_pages_upto(map@, (low + 1) as u8) == spec_pages_upto(map@, low)
                        + scaled_mv(map@[block_id(low)].take(7)));
                }
            },
        }
        low = low + 1;
    }
    proof {
        let m = map@;
        assert(spec_pages_upto(m, 49) =~= Seq::<i64>::empty());
        assert(spec_pages_upto(m, 50) == spec_pages_upto(m, 49) + scaled_mv(m[block_id(49)].take(7)));
        assert(spec_pages_upto(m, 51) == spec_pages_upto(m, 50) + scaled_mv(m[block_id(50)].take(7)));
        assert(spec_pages_upto(m, 52) == spec_pages_upto(m, 51) + scaled_mv(m[block_id(51)].take(7)));
        assert(spec_pages_upto(m, 53) == spec_pages_upto(m, 52) + scaled_mv(m[block_id(52)].take(7)));
        assert(spec_pages_upto(m, 54) == spec_pages_upto(m, 53) + scaled_mv(m[block_id(53)].take(7)));
        assert(out@ =~= scaled_mv(m[block_id(49)].take(7)) + scaled_mv(m[block_id(50)].take(7))
            + scaled_mv(m[block_id(51)].take(7)) + scaled_mv(m[block_id(52)].take(7))
            + scaled_mv(m[block_id(53)].take(7)));
        assert(cell_page_values(m) == Ok::<Seq<i64>, DecodeFailure>(out@));
    }
    Ok(out)
}

/// The cell values of the blocks before `low`, concatenated and scaled:
/// the loop measure of `parse_cell_page`.
pub open spec fn spec_pages_upto(m: Map<Seq<u8>, Seq<i32>>, low: u8) -> Seq<i64>
    decreases low,
{
    if low <= 49 {
        Seq::empty()
    } else {
        spec_pages_upto(m, (low - 1) as u8) + scaled_mv(m[block_id((low - 1) as u8)].take(7))
    }
}

/// One battery snapshot, exact integers only (see the module note on
/// scaling).
#[derive(Debug)]
pub struct BatteryInfo {
    /// State of charge, in tenths of a percent.
    pub charge_level_tenths: i64,
    pub charging: bool,
    pub chademo_plugged: bool,
    pub j1772_plugged: bool,
    /// Signed battery current, in tenths of an ampere.
    pub battery_current_deciamps: i64,
    /// Pack voltage, in tenths of a volt.
    pub battery_dc_voltage_decivolts: i64,
    pub max_cell_voltage_millivolts: i64,
    pub min_cell_voltage_millivolts: i64,
    pub motor_speed: i32,
    pub module_temperatures: Vec<i32>,
}

/// `BatteryInfo` as mathematics.
#[verifier::ext_equal]
pub struct BatteryInfoModel {
    pub charge_level_tenths: i64,
    pub charging: bool,
    pub chademo_plugged: bool,
    pub j1772_plugged: bool,
    pub battery_current_deciamps: i64,
    pub battery_dc_voltage_decivolts: i64,
    pub max_cell_voltage_millivolts: i64,
    pub min_cell_voltage_millivolts: i64,
    pub motor_speed: i32,
    pub module_temperatures: Seq<i32>,
}

impl DeepView for BatteryInfo {
    type V = BatteryInfoModel;

    open spec fn deep_view(&self) -> BatteryInfoModel {
        BatteryInfoModel {
            charge_level_tenths: self.charge_level_tenths,
            charging: self.charging,
            chademo_plugged: self.chademo_plugged,
            j1772_plugged: self.j1772_plugged,
            battery_current_deciamps: self.battery_current_deciamps,
            battery_dc_voltage_decivolts: self.battery_dc_voltage_decivolts,
            max_cell_voltage_millivolts: self.max_cell_voltage_millivolts,
            min_cell_voltage_millivolts: self.min_cell_voltage_millivolts,
            motor_speed: self.motor_speed,
            module_temperatures: self.module_temperatures@,
        }
    }
}

/// The signed battery current, in deciamps. The most significant byte
/// travels in block `"21"` and the least significant in block `"22"`; a
/// set bit 7 of the msb marks a negative two's-complement value,
/// reconstructed by subtracting 65536 raw units. A msb of zero means no
/// current is reported.
pub open spec fn spec_battery_current(msb: i32, lsb: i32) -> i64 {
    if msb > 0 {
        let v = ((msb as i64) << 8) | (lsb as i64);
        if msb & 0x80 != 0 {
            (v - 65536) as i64
        } else {
            v
        }
    } else {
        0
    }
}

/// The battery snapshot described by blocks `"21"` through `"24"`, each
/// with at least seven values: charge level from block 21, plug and charge
/// flags from its byte 5 (bit 7 charging, bit 6 CHAdeMO, bit 5 J1772),
/// pack voltage from block 22, minimum cell voltage from block 23, maximum
/// from block 24, module temperatures from blocks 22 and 23.
///
/// The block-to-field assignment for the cell-voltage extremes and the
/// module temperatures has not been validated against hardware; a captured
/// trace from a real vehicle should confirm it before the readings are
/// trusted.
pub open spec fn battery_info_model(
    b21: Seq<i32>,
    b22: Seq<i32>,
    b23: Seq<i32>,
    b24: Seq<i32>,
) -> BatteryInfoModel {
    BatteryInfoModel {
        charge_level_tenths: (b21[0] * 5) as i64,
        charging: b21[5] & 0x80 != 0,
        chademo_plugged: b21[5] & 0x40 != 0,
        j1772_plugged: b21[5] & 0x20 != 0,
        battery_current_deciamps: spec_battery_current(b21[6], b22[0]),
        battery_dc_voltage_decivolts: ((b22[1] as i64) << 8) | (b22[2] as i64),
        max_cell_voltage_millivolts: mv_of(b24[0]),
        min_cell_voltage_millivolts: mv_of(b23[0]),
        motor_speed: 0,
        module_temperatures: seq![b22[3], b22[4], b22[5], b22[6], b23[0], b23[1], b23[2]],
    }
}

/// Blocks `"21"` through `"24"` must be present; the first absent one
/// fails the decode and is named in the failure.
pub open spec fn spec_battery_info(m: Map<Seq<u8>, Seq<i32>>) -> Result<
    BatteryInfoModel,
    DecodeFailure,
> {
    if !m.contains_key(block_id(49)) {
        Err(DecodeFailure::MissingBlock(block_id(49)))
    } else if !m.contains_key(block_id(50)) {
        Err(DecodeFailure::MissingBlock(block_id(50)))
    } else if !m.contains_key(block_id(51)) {
        Err(DecodeFailure::MissingBlock(block_id(51)))
    } else if !m.contains_key(block_id(52)) {
        Err(DecodeFailure::MissingBlock(block_id(52)))
    } else {
        Ok(
            battery_info_model(
                m[block_id(49)],
                m[block_id(50)],
                m[block_id(51)],
                m[block_id(52)],
            ),
        )
    }
}

/// What decoding a battery-info response from text yields.
pub open spec fn spec_battery_parse(response: Seq<char>) -> Result<BatteryInfoModel, DecodeFailure> {
    match spec_parse_multi_frame(encode_utf8(response), 7) {
        Err(f) => Err(f),
        Ok(m) => spec_battery_info(m),
    }
}

/// Decodes a battery-info response exactly as `spec_battery_parse` says.
pub fn parse_battery_info(response: String) -> (r: Result<BatteryInfo, DecodeError>)
    ensures
        (match spec_battery_parse(response@) {
            Ok(v) => r matches Ok(x) && x.deep_view() == v,
            Err(f) => r matches Err(e) && e@ == f,
        }),
{
    let bytes = response.as_str().as_bytes_vec();
    let map = match parse_multi_frame_response(&bytes, 7) {
        Ok(m) => m,
        Err(e) => {
            return Err(e);
        },
    };
    proof {
        crate::decode::lemma_multi_frame_arity(bytes@, 7);
    }
    let k21 = block_key(49);
    let b21 = match map.get(&k21) {
        Some(v) => v,
        None => {
            return Err(DecodeError::MissingBlock(k21));
        },
    };
    let k22 = block_key(50);
    let b22 = match map.get(&k22) {
        Some(v) => v,
        None => {
            return Err(DecodeError::MissingBlock(k22));
        },
    };
    let k23 = block_key(51);
    let b23 = match map.get(&k23) {
        Some(v) => v,
        None => {
            return Err(DecodeError::MissingBlock(k23));
        },
    };
    let k24 = block_key(52);
    let b24 = match map.get(&k24) {
        Some(v) => v,
        None => {
            return Err(DecodeError::MissingBlock(k24));
        },
    };
    let flags = b21[5];
    let msb = b21[6];
    let current: i64 = if msb > 0 {
        let v: i64 = ((msb as i64) << 8) | (b22[0] as i64);
        proof {
            let x = (msb as i64) << 8;
            let y = b22[0] as i64;
            assert(x >= 0 && y >= 0 ==> (x | y) >= 0) by (bit_vector);
            assert(((msb as i64) << 8) >= 0 && ((msb as i64) << 8) <= 0x7fffffff00) by (bit_vector)
                requires
                    0 < msb as i64 <= 0x7fffffff,
            ;
        }
        if msb & 0x80 != 0 {
            v - 65536
        } else {
            v
        }
    } else {
        0
    };
    let dc: i64 = ((b22[1] as i64) << 8) | (b22[2] as i64);
    let mut temps: Vec<i32> = Vec::new();
    temps.push(b22[3]);
    temps.push(b22[4]);
    temps.push(b22[5]);
    temps.push(b22[6]);
    temps.push(b23[0]);
    temps.push(b23[1]);
    temps.push(b23[2]);
    let ghost gtemps = temps@;
    let info = BatteryInfo {
        charge_level_tenths: (b21[0] as i64) * 5,
        charging: flags & 0x80 != 0,
        chademo_plugged: flags & 0x40 != 0,
        j1772_plugged: flags & 0x20 != 0,
        battery_current_deciamps: current,
        battery_dc_voltage_decivolts: dc,
        max_cell_voltage_millivolts: (b24[0] as i64) * 20,
        min_cell_voltage_millivolts: (b23[0] as i64) * 20,
        motor_speed: 0,
        module_temperatures: temps,
    };
    proof {
        let m = map@;
        assert(gtemps =~= seq![
            m[block_id(50)][3],
            m[block_id(50)][4],
            m[block_id(50)][5],
            m[block_id(50)][6],
            m[block_id(51)][0],
            m[block_id(51)][1],
            m[block_id(51)][2],
        ]);
        assert(info.deep_view() =~= battery_info_model(
            m[block_id(49)],
            m[block_id(50)],
            m[block_id(51)],
            m[block_id(52)],
        ));
    }
    Ok(info)
}

/// The single battery-info request.
pub struct BatteryInfoCommand();

impl Command for BatteryInfoCommand {
    type Response = BatteryInfo;

    open spec fn spec_command(&self) -> Seq<char> {
        "21 01"@
    }

    open spec fn spec_parse(&self, response: Seq<char>) -> Result<BatteryInfoModel, DecodeFailure> {
        spec_battery_parse(response)
    }

    fn serial_command(&self) -> (r: String) {
        String::from_str("21 01")
    }

    fn parse_result(&self, response: String) -> (r: Result<BatteryInfo, DecodeError>) {
        parse_battery_info(response)
    }
}

/// Whitespace as it appears in adapter response text.
pub open spec fn is_ws_char(c: char) -> bool {
    c == ' ' || c == '\t' || c == '\n' || c == '\r'
}

/// The response text with all whitespace removed: how a vehicle
/// identification number is assembled from its response.
pub open spec fn without_whitespace(s: Seq<char>) -> Seq<char>
    decreases s.len(),
{
    if s.len() == 0 {
        Seq::empty()
    } else if is_ws_char(s[0]) {
        without_whitespace(s.skip(1))
    } else {
        seq![s[0]] + without_whitespace(s.skip(1))
    }
}

/// Removes every whitespace character from a string.
fn remove_whitespace(s: &str) -> (r: String)
    ensures
        r@ == without_whitespace(s@),
{
    let n = s.unicode_len();
    let mut r = String::new();
    let mut i: usize = 0;
    proof {
        assert(s@.skip(0) =~= s@);
    }
    while i < n
        invariant
            i <= n,
            n == s@.len(),
            r@ + without_whitespace(s@.skip(i as int)) == without_whitespace(s@),
        decreases n - i,
    {
        let ghost rest = s@.skip(i as int);
        proof {
            assert(rest[0] == s@[i as int]);
            assert(rest.skip(1) =~= s@.skip(i as int + 1));
        }
        let c = s.get_char(i);
        if !(c == ' ' || c == '\t' || c == '\n' || c == '\r') {
            let ghost pre = r@;
            let piece = s.substring_char(i, i + 1);
            proof {
                assert(piece@ =~= seq![s@[i as int]]);
            }
            r.append(piece);
            proof {
                assert(pre + (seq![s@[i as int]] + without_whitespace(s@.skip(i as int + 1)))
                    =~= r@ + without_whitespace(s@.skip(i as int + 1)));
            }
        }
        i = i + 1;
    }
    proof {
        assert(s@.skip(n as int) =~= Seq::<char>::empty());
        assert(r@ + Seq::<char>::empty() =~= r@);
    }
    r
}

/// One immutable result snapshot, built once per query; the timestamp is
/// captured at query time, not at data-origin time.
#[derive(Debug)]
pub struct CarInfo {
    /// Seconds since the Unix epoch at the moment of the query.
    pub time_unix_secs: u64,
    pub battery_info: BatteryInfo,
    /// All 96 cell voltages, in millivolts.
    pub cell_voltages: Vec<i64>,
}

/// Relies on `std::time::SystemTime::now` measured from the Unix epoch:
/// the wall-clock time in whole seconds, zero if the clock reads before
/// the epoch. The result depends on the clock, so nothing is promised of
/// it.
#[verifier::external_body]
fn unix_time_secs() -> u64 {
    match std::time::SystemTime::now().duration_since(std::time::UNIX_EPOCH) {
        Ok(d) => d.as_secs(),
        Err(_) => 0,
    }
}

/// Appends the first `count` values of a decoded page.
fn append_prefix(out: &mut Vec<i64>, page: &Vec<i64>, count: usize)
    requires
        page@.len() >= count,
    ensures
        final(out)@ == old(out)@ + page@.take(count as int),
{
    let mut j: usize = 0;
    while j < count
        invariant
            j <= count,
            count <= page@.len(),
            out@ == old(out)@ + page@.take(j as int),
        decreases count - j,
    {
        out.push(page[j]);
        proof {
            assert((old(out)@ + page@.take(j as int)).push(page@[j as int])
                =~= old(out)@ + page@.take(j as int + 1));
        }
        j = j + 1;
    }
}

/// The first half of the setup sequence as it crosses the wire, in order:
/// defaults reset, identification reset, echo off, linefeeds off, headers
/// off then on, adaptive timing on, automatic receive, long messages
/// allowed, spaces on.
pub open spec fn adapter_setup_sequence() -> Seq<u8> {
    framed_text("AT D"@) + framed_text("AT Z"@) + framed_text("AT E0"@) + framed_text("AT L0"@) + framed_text("AT H0"@) + framed_text("AT H1"@) + framed_text("AT AT1"@) + framed_text("AT AR"@) + framed_text("AT AL"@) + framed_text("AT S1"@)
}

/// The second half of the setup sequence: timing, message and protocol
/// options, the PID discovery probes, the headers, and the
/// vehicle-specific probe.
pub open spec fn protocol_setup_sequence() -> Seq<u8> {
    framed_text("AT FE"@) + framed_text("AT SPA6"@) + framed_text("AT CAF1"@) + framed_text("01 00"@) + framed_text("01 20"@) + framed_text("09 00"@) + framed_text("01 01"@) + framed_text("AT SH 7DF"@) + framed_text("AT CRA 7EC"@) + framed_text("21 00"@)
}

/// The whole fixed adapter/vehicle setup sequence as it crosses the wire:
/// twenty commands, each CRLF-framed, in the exact order the session must
/// issue them.
pub open spec fn setup_sequence() -> Seq<u8> {
    adapter_setup_sequence() + protocol_setup_sequence()
}

/// One vehicle session over a connected protocol engine.
pub struct Kia<T: Transport> {
    device: Elm327<T>,
}

impl<T: Transport> Kia<T> {
    pub fn new(device: Elm327<T>) -> (r: Kia<T>)
        ensures
            r.sent() == device.sent(),
    {
        Kia { device }
    }

    /// Every byte this session's engine has handed to the transport.
    pub closed spec fn sent(&self) -> Seq<u8> {
        self.device.sent()
    }

    /// One setup exchange.
    fn setup_cmd(&mut self, cmd: &str) -> (r: Result<(), Error>)
        ensures
            (r is Ok ==> final(self).sent() == old(self).sent() + framed_text(cmd@)),
            (r matches Err(e) ==> (e is NotConnected || e is Other)),
    {
        match self.device.serial_cmd(cmd) {
            Ok(_) => Ok(()),
            Err(e) => Err(Error::from_elm327(e)),
        }
    }

    /// The fixed adapter/vehicle setup sequence, executed once per
    /// successful connect, in this exact order; the first failing command
    /// aborts the whole attempt, and on success the transport received
    /// exactly the twenty CRLF-framed commands of `setup_sequence`.
    pub fn init(&mut self) -> (r: Result<(), Error>)
        ensures
            (r is Ok ==> final(self).sent() == old(self).sent() + setup_sequence()),
            (r matches Err(e) ==> (e is NotConnected || e is Other)),
    {
        match self.setup_adapter() {
            Ok(()) => {},
            Err(e) => {
                return Err(e);
            },
        }
        match self.setup_protocol() {
            Ok(()) => {},
            Err(e) => {
                return Err(e);
            },
        }
        proof {
            assert((old(self).sent() + adapter_setup_sequence()) + protocol_setup_sequence()
                =~= old(self).sent() + setup_sequence());
        }
        Ok(())
    }

    /// One half of the setup sequence, in order, first failure aborting.
    #[verifier::rlimit(50)]
    fn setup_adapter(&mut self) -> (r: Result<(), Error>)
        ensures
            (r is Ok ==> final(self).sent() == old(self).sent() + adapter_setup_sequence()),
            (r matches Err(e) ==> (e is NotConnected || e is Other)),
    {
        let ghost mut sofar: Seq<u8> = Seq::empty();
        match self.setup_cmd("AT D") {
            Ok(()) => {},
            Err(e) => {
                return Err(e);
            },
        }
        proof {
            sofar = sofar + framed_text("AT D"@);
            assert(self.sent() =~= old(self).sent() + sofar);
        }
        match self.setup_cmd("AT Z") {
            Ok(()) => {},
            Err(e) => {
                return Err(e);
            },
        }
        proof {
            sofar = sofar + framed_text("AT Z"@);
            assert(self.sent() =~= old(self).sent() + sofar);
        }
        match self.setup_cmd("AT E0") {
            Ok(()) => {},
            Err(e) => {
                return Err(e);
            },
        }
        proof {
            sofar = sofar + framed_text("AT E0"@);
            assert(self.sent() =~= old(self).sent() + sofar);
        }
        match self.setup_cmd("AT L0") {
            Ok(()) => {},
            Err(e) => {
                return Err(e);
            },
        }
        proof {
            sofar = sofar + framed_text("AT L0"@);
            assert(self.sent() =~= old(self).sent() + sofar);
        }
        match self.setup_cmd("AT H0") {
            Ok(()) => {},
            Err(e) => {
                return Err(e);
            },
        }
        proof {
            sofar = sofar + framed_text("AT H0"@);
            assert(self.sent() =~= old(self).sent() + sofar);
        }
        match self.setup_cmd("AT H1") {
            Ok(()) => {},
            Err(e) => {
                return Err(e);
            },
        }
        proof {
            sofar = sofar + framed_text("AT H1"@);
            assert(self.sent() =~= old(self).sent() + sofar);
        }
        match self.setup_cmd("AT AT1") {
            Ok(()) => {},
            Err(e) => {
                return Err(e);
            },
        }
        proof {
            sofar = sofar + framed_text("AT AT1"@);
            assert(self.sent() =~= old(self).sent() + sofar);
        }
        match self.setup_cmd("AT AR") {
            Ok(()) => {},
            Err(e) => {
                return Err(e);
            },
        }
        proof {
            sofar = sofar + framed_text("AT AR"@);
            assert(self.sent() =~= old(self).sent() + sofar);
        }
        match self.setup_cmd("AT AL") {
            Ok(()) => {},
            Err(e) => {
                return Err(e);
            },
        }
        proof {
            sofar = sofar + framed_text("AT AL"@);
            assert(self.sent() =~= old(self).sent() + sofar);
        }
        match self.setup_cmd("AT S1") {
            Ok(()) => {},
            Err(e) => {
                return Err(e);
            },
        }
        proof {
            sofar = sofar + framed_text("AT S1"@);
            assert(self.sent() =~= old(self).sent() + sofar);
        }
        proof {
            assert(sofar =~= adapter_setup_sequence());
        }
        Ok(())
    }

    /// One half of the setup sequence, in order, first failure aborting.
    #[verifier::rlimit(50)]
    fn setup_protocol(&mut self) -> (r: Result<(), Error>)
        ensures
            (r is Ok ==> final(self).sent() == old(self).sent() + protocol_setup_sequence()),
            (r matches Err(e) ==> (e is NotConnected || e is Other)),
    {
        let ghost mut sofar: Seq<u8> = Seq::empty();
        match self.setup_cmd("AT FE") {
            Ok(()) => {},
            Err(e) => {
                return Err(e);
            },
        }
        proof {
            sofar = sofar + framed_text("AT FE"@);
            assert(self.sent() =~= old(self).sent() + sofar);
        }
        match self.setup_cmd("AT SPA6") {
            Ok(()) => {},
            Err(e) => {
                return Err(e);
            },
        }
        proof {
            sofar = sofar + framed_text("AT SPA6"@);
            assert(self.sent() =~= old(self).sent() + sofar);
        }
        match self.setup_cmd("AT CAF1") {
            Ok(()) => {},
            Err(e) => {
                return Err(e);
            },
        }
        proof {
            sofar = sofar + framed_text("AT CAF1"@);
            assert(self.sent() =~= old(self).sent() + sofar);
        }
        match self.setup_cmd("01 00") {
            Ok(()) => {},
            Err(e) => {
                return Err(e);
            },
        }
        proof {
            sofar = sofar + framed_text("01 00"@);
            assert(self.sent() =~= old(self).sent() + sofar);
        }
        match self.setup_cmd("01 20") {
            Ok(()) => {},
            Err(e) => {
                return Err(e);
            },
        }
        proof {
            sofar = sofar + framed_text("01 20"@);
            assert(self.sent() =~= old(self).sent() + sofar);
        }
        match self.setup_cmd("09 00") {
            Ok(()) => {},
            Err(e) => {
                return Err(e);
            },
        }
        proof {
            sofar = sofar + framed_text("09 00"@);
            assert(self.sent() =~= old(self).sent() + sofar);
        }
        match self.setup_cmd("01 01") {
            Ok(()) => {},
            Err(e) => {
                return Err(e);
            },
        }
        proof {
            sofar = sofar + framed_text("01 01"@);
            assert(self.sent() =~= old(self).sent() + sofar);
        }
        match self.setup_cmd("AT SH 7DF") {
            Ok(()) => {},
            Err(e) => {
                return Err(e);
            },
        }
        proof {
            sofar = sofar + framed_text("AT SH 7DF"@);
            assert(self.sent() =~= old(self).sent() + sofar);
        }
        match self.setup_cmd("AT CRA 7EC") {
            Ok(()) => {},
            Err(e) => {
                return Err(e);
            },
        }
        proof {
            sofar = sofar + framed_text("AT CRA 7EC"@);
            assert(self.sent() =~= old(self).sent() + sofar);
        }
        match self.setup_cmd("21 00") {
            Ok(()) => {},
            Err(e) => {
                return Err(e);
            },
        }
        proof {
            sofar = sofar + framed_text("21 00"@);
            assert(self.sent() =~= old(self).sent() + sofar);
        }
        proof {
            assert(sofar =~= protocol_setup_sequence());
        }
        Ok(())
    }

    /// The vehicle identification number: the response to the VIN request
    /// with its whitespace removed.
    pub fn get_vin(&mut self) -> (r: Result<String, Error>)
        ensures
            (r matches Ok(s) ==> exists|frame: Seq<u8>|
                {
                    &&& !frame.contains(PROMPT)
                    &&& !frame.contains(CR)
                    &&& valid_utf8(#[trigger] strip_echo(frame, encode_utf8("09 02"@)))
                    &&& s@ == without_whitespace(
                        decode_utf8(strip_echo(frame, encode_utf8("09 02"@))),
                    )
                }),
            (r is Ok ==> final(self).sent() == old(self).sent() + framed_text("09 02"@)),
            (r matches Err(e) ==> (e is NotConnected || e is Other)),
    {
        match self.device.serial_cmd("09 02") {
            Ok(s) => {
                let ghost response_view = s@;
                let vin = remove_whitespace(s.as_str());
                proof {
                    let frame = choose|frame: Seq<u8>|
                        {
                            &&& !frame.contains(PROMPT)
                            &&& !frame.contains(CR)
                            &&& valid_utf8(#[trigger] strip_echo(frame, encode_utf8("09 02"@)))
                            &&& response_view == decode_utf8(
                                strip_echo(frame, encode_utf8("09 02"@)),
                            )
                        };
                    assert(vin@ == without_whitespace(
                        decode_utf8(strip_echo(frame, encode_utf8("09 02"@))),
                    ));
                }
                Ok(vin)
            },
            Err(e) => Err(Error::from_elm327(e)),
        }
    }

    /// Queries one cell-voltage page.
    fn query_page(&mut self, suffix: &str) -> (r: Result<Vec<i64>, Error>)
        ensures
            (r matches Ok(p) ==> p@.len() == 35 && exists|t: Seq<char>|
                #[trigger] spec_cell_parse(t) == Ok::<Seq<i64>, DecodeFailure>(p@)),
            (r is Ok ==> final(self).sent() == old(self).sent() + framed_text("21 0"@ + suffix@)),
            (r matches Err(e) ==> (e is NotConnected || e is Other)),
    {
        let cmd = CellVoltagesCommand(String::from_str(suffix));
        match self.device.execute_command(cmd) {
            Ok(p) => {
                proof {
                    let t = choose|t: Seq<char>|
                        #[trigger] spec_cell_parse(t) == Ok::<Seq<i64>, DecodeFailure>(
                            p.deep_view(),
                        );
                    assert(p.deep_view() =~= p@);
                    crate::decode::lemma_multi_frame_arity(encode_utf8(t), 7);
                    if let Ok(m) = spec_parse_multi_frame(encode_utf8(t), 7) {
                        assert(m[block_id(49)].take(7).len() == 7);
                        assert(scaled_mv(m[block_id(49)].take(7)).len() == 7);
                        assert(scaled_mv(m[block_id(50)].take(7)).len() == 7);
                        assert(scaled_mv(m[block_id(51)].take(7)).len() == 7);
                        assert(scaled_mv(m[block_id(52)].take(7)).len() == 7);
                        assert(scaled_mv(m[block_id(53)].take(7)).len() == 7);
                    }
                }
                Ok(p)
            },
            Err(e) => Err(Error::from_elm327(e)),
        }
    }

    /// Issues the cell-voltage command three times with distinct request
    /// suffixes to page through all 96 cells; each page contributes only
    /// its first 32 of 35 decoded values — the trailing three are not
    /// vehicle cell data and are dropped.
    pub fn get_cell_voltages(&mut self) -> (r: Result<Vec<i64>, Error>)
        ensures
            (r matches Ok(v) ==> v@.len() == 96),
            (r matches Ok(v) ==> exists|t0: Seq<char>, t1: Seq<char>, t2: Seq<char>|
                {
                    &&& #[trigger] spec_cell_parse(t0) is Ok
                    &&& #[trigger] spec_cell_parse(t1) is Ok
                    &&& #[trigger] spec_cell_parse(t2) is Ok
                    &&& v@ == spec_cell_parse(t0)->Ok_0.take(32) + spec_cell_parse(t1)->Ok_0.take(
                        32,
                    ) + spec_cell_parse(t2)->Ok_0.take(32)
                }),
            (r is Ok ==> final(self).sent() == old(self).sent() + framed_text("21 02"@)
                + framed_text("21 03"@) + framed_text("21 04"@)),
            (r matches Err(e) ==> (e is NotConnected || e is Other)),
    {
        proof {
            reveal_strlit("21 0");
            reveal_strlit("2");
            reveal_strlit("3");
            reveal_strlit("4");
            reveal_strlit("21 02");
            reveal_strlit("21 03");
            reveal_strlit("21 04");
            assert("21 0"@ + "2"@ =~= "21 02"@);
            assert("21 0"@ + "3"@ =~= "21 03"@);
            assert("21 0"@ + "4"@ =~= "21 04"@);
        }
        let page0 = match self.query_page("2") {
            Ok(p) => p,
            Err(e) => {
                return Err(e);
            },
        };
        let page1 = match self.query_page("3") {
            Ok(p) => p,
            Err(e) => {
                return Err(e);
            },
        };
        let page2 = match self.query_page("4") {
            Ok(p) => p,
            Err(e) => {
                return Err(e);
            },
        };
        let mut result: Vec<i64> = Vec::new();
        append_prefix(&mut result, &page0, 32);
        append_prefix(&mut result, &page1, 32);
        append_prefix(&mut result, &page2, 32);
        proof {
            let t0 = choose|t: Seq<char>|
                #[trigger] spec_cell_parse(t) == Ok::<Seq<i64>, DecodeFailure>(page0@);
            let t1 = choose|t: Seq<char>|
                #[trigger] spec_cell_parse(t) == Ok::<Seq<i64>, DecodeFailure>(page1@);
            let t2 = choose|t: Seq<char>|
                #[trigger] spec_cell_parse(t) == Ok::<Seq<i64>, DecodeFailure>(page2@);
            assert(result@ =~= page0@.take(32) + page1@.take(32) + page2@.take(32));
            assert(spec_cell_parse(t0)->Ok_0 == page0@);
            assert(spec_cell_parse(t1)->Ok_0 == page1@);
            assert(spec_cell_parse(t2)->Ok_0 == page2@);
        }
        Ok(result)
    }

    /// One battery-info query.
    fn get_battery_info(&mut self) -> (r: Result<BatteryInfo, Error>)
        ensures
            (r matches Ok(b) ==> exists|t: Seq<char>|
                #[trigger] spec_battery_parse(t) == Ok::<BatteryInfoModel, DecodeFailure>(
                    b.deep_view(),
                )),
            (r is Ok ==> final(self).sent() == old(self).sent() + framed_text("21 01"@)),
            (r matches Err(e) ==> (e is NotConnected || e is Other)),
    {
        match self.device.execute_command(BatteryInfoCommand()) {
            Ok(b) => Ok(b),
            Err(e) => Err(Error::from_elm327(e)),
        }
    }

    /// Composes the current timestamp, the cell-voltage result and the
    /// battery snapshot into one immutable `CarInfo`.
    pub fn get_car_info(&mut self) -> (r: Result<CarInfo, Error>)
        ensures
            (r matches Ok(c) ==> c.cell_voltages@.len() == 96),
            (r matches Ok(c) ==> exists|t: Seq<char>|
                #[trigger] spec_battery_parse(t) == Ok::<BatteryInfoModel, DecodeFailure>(
                    c.battery_info.deep_view(),
                )),
            (r is Ok ==> final(self).sent() == old(self).sent() + framed_text("21 02"@)
                + framed_text("21 03"@) + framed_text("21 04"@) + framed_text("21 01"@)),
            (r matches Err(e) ==> (e is NotConnected || e is Other)),
    {
        let cell_voltages = match self.get_cell_voltages() {
            Ok(v) => v,
            Err(e) => {
                return Err(e);
            },
        };
        let battery_info = match self.get_battery_info() {
            Ok(b) => b,
            Err(e) => {
                return Err(e);
            },
        };
        Ok(CarInfo { time_unix_secs: unix_time_secs(), battery_info, cell_voltages })
    }
}

} // verus!
