//! The protocol engine: owns a transport and a byte queue, assembles the
//! adapter's noisy byte stream into terminator-delimited frames, runs the
//! initialization handshake, and offers a synchronous command/response
//! exchange.

use vstd::prelude::*;
use std::collections::VecDeque;
use vstd::string::{StrSliceExecFns, StringExecFns, StringSliceAdditionalSpecFns};
use vstd::utf8::{decode_utf8, encode_utf8, valid_utf8};
use crate::decode::{DecodeError, DecodeFailure};
use crate::framing::{
    empty_frames, encode_hex, first_nonempty_frame, hex_encoding, lemma_normalized_concat,
    lemma_scan_consumed, lemma_scan_extends, normalized, push_front_all, scan_queue, scan_result,
    CR, LF,
};
use crate::transport;
use crate::transport::Transport;
use crate::util::{starts_with, subvec};

verus! {

broadcast use vstd::std_specs::vecdeque::group_vec_dequeue_axioms;

/// The byte the adapter prints when it is ready for the next command; it
/// terminates a command response.
pub const PROMPT: u8 = 62;

/// How long frame assembly waits for a terminator before giving up.
pub const TIMEOUT_MS: u64 = 5000;

/// How long frame assembly sleeps between polls that found nothing.
pub const POLL_SLEEP_MS: u64 = 50;

/// How many bytes one transport read may hand back.
pub const READ_CHUNK: usize = 256;

/// How long the adapter is given to settle after a reset, and how long a
/// flush waits before draining.
pub const SETTLE_MS: u64 = 500;

/// Protocol-level failures.
#[derive(Debug)]
pub enum Error {
    /// A timeout, a missing response, or malformed text from the adapter.
    Communication,
    /// The transport reported the connection closed; terminal for the
    /// session.
    NotConnected,
    /// Anything else.
    Other,
    /// A response arrived but could not be decoded; carries the decode
    /// failure, which names the block or token at fault.
    Decode(DecodeError),
}

/// Reclassifies a transport failure at the protocol boundary: a closed
/// connection stays `NotConnected`, everything else becomes
/// `Communication`.
pub fn map_transport_error(e: transport::Error) -> (r: Error)
    ensures
        (e is NotConnected) ==> (r is NotConnected),
        !(e is NotConnected) ==> (r is Communication),
{
    match e {
        transport::Error::NotConnected => Error::NotConnected,
        _ => Error::Communication,
    }
}

/// One command as it crosses the wire: its text followed by the CRLF that
/// closes it.
pub open spec fn framed_text(cmd: Seq<char>) -> Seq<u8> {
    encode_utf8(cmd) + seq![CR, LF]
}

/// One raw payload as it crosses the wire: its bytes followed by CRLF.
pub open spec fn framed_bytes(data: Seq<u8>) -> Seq<u8> {
    data + seq![CR, LF]
}

/// The echoed command followed by a line break, stripped off the front of a
/// response when present; otherwise the response unchanged.
pub open spec fn strip_echo(frame: Seq<u8>, cmd: Seq<u8>) -> Seq<u8> {
    let prefix = cmd.push(LF);
    if frame.len() >= prefix.len() && frame.take(prefix.len() as int) == prefix {
        frame.skip(prefix.len() as int)
    } else {
        frame
    }
}

/// Relies on `String::from_utf8`: it succeeds exactly on valid UTF-8, and
/// the resulting string decodes those same bytes.
#[verifier::external_body]
fn bytes_to_string(v: Vec<u8>) -> (r: Option<String>)
    ensures
        (r is Some) == valid_utf8(v@),
        (r matches Some(s) ==> s@ == decode_utf8(v@)),
{
    match String::from_utf8(v) {
        Ok(s) => Some(s),
        Err(_) => None,
    }
}

/// One typed request/response exchange: a command text to send, and a
/// decoder for the adapter's response. Stateless; may be invoked
/// repeatedly.
pub trait Command {
    type Response: DeepView;

    /// The command text, as mathematics.
    spec fn spec_command(&self) -> Seq<char>;

    /// What decoding a response yields, as mathematics.
    spec fn spec_parse(&self, response: Seq<char>) -> Result<
        <Self::Response as DeepView>::V,
        DecodeFailure,
    >;

    /// The command text sent to the adapter.
    fn serial_command(&self) -> (r: String)
        ensures
            r@ == self.spec_command(),
    ;

    /// Decodes the adapter's response text.
    fn parse_result(&self, response: String) -> (r: Result<Self::Response, DecodeError>)
        ensures
            (match self.spec_parse(response@) {
                Ok(v) => r matches Ok(x) && x.deep_view() == v,
                Err(f) => r matches Err(e) && e@ == f,
            }),
    ;
}

/// The protocol engine. It owns the transport for the life of one
/// connection, together with the queue of bytes received but not yet framed
/// and the identity string the adapter reported when the connection was
/// made.
pub struct Elm327<T: Transport> {
    device: T,
    buffer: VecDeque<u8>,
    device_name: String,
}

impl<T: Transport> Elm327<T> {
    /// The bytes received but not yet consumed by frame assembly.
    pub closed spec fn buffered(&self) -> Seq<u8> {
        self.buffer@
    }

    /// The captured device identity.
    pub closed spec fn name_spec(&self) -> Seq<char> {
        self.device_name@
    }

    /// Every byte this engine has handed to its transport and the
    /// transport accepted, in order.
    pub closed spec fn sent(&self) -> Seq<u8> {
        self.device.write_log()
    }

    /// Creates an engine over the transport and runs the whole
    /// initialization sequence: connect, identify, reset, flush. Any
    /// failure abandons the partially built engine.
    pub fn new(transport: T) -> (r: Result<Elm327<T>, Error>)
        ensures
            (r matches Ok(engine) ==> exists|frame: Seq<u8>|
                {
                    &&& !frame.contains(PROMPT)
                    &&& !frame.contains(CR)
                    &&& valid_utf8(#[trigger] strip_echo(frame, encode_utf8(" "@)))
                    &&& engine.name_spec() == without_newlines(
                        decode_utf8(strip_echo(frame, encode_utf8(" "@))),
                    )
                }),
            (r matches Ok(engine) ==> engine.sent() == transport.write_log() + framed_text(" "@)
                + framed_text("AT Z"@) + framed_text("ATSP0"@) + framed_text("01 00"@)),
            (r matches Ok(engine) ==> engine.buffered() == Seq::<u8>::empty()),
            (r matches Err(e) ==> (e is NotConnected || e is Communication)),
    {
        let mut engine = Elm327 {
            device: transport,
            buffer: VecDeque::new(),
            device_name: String::new(),
        };
        match engine.init_device() {
            Ok(()) => Ok(engine),
            Err(e) => Err(e),
        }
    }

    /// The identity string the adapter reported at connect time.
    pub fn get_connected_device_name(&self) -> (r: String)
        ensures
            r@ == self.name_spec(),
    {
        self.device_name.clone()
    }

    /// Replaces the transport wholesale and re-runs the initialization
    /// sequence; the old transport is discarded, not reused.
    pub fn change_transport(&mut self, transport: T) -> (r: Result<(), Error>)
        ensures
            (r is Ok ==> exists|frame: Seq<u8>|
                {
                    &&& !frame.contains(PROMPT)
                    &&& !frame.contains(CR)
                    &&& valid_utf8(#[trigger] strip_echo(frame, encode_utf8(" "@)))
                    &&& final(self).name_spec() == without_newlines(
                        decode_utf8(strip_echo(frame, encode_utf8(" "@))),
                    )
                }),
            (r is Ok ==> final(self).sent() == transport.write_log() + framed_text(" "@)
                + framed_text("AT Z"@) + framed_text("ATSP0"@) + framed_text("01 00"@)),
            (r is Ok ==> final(self).buffered() == Seq::<u8>::empty()),
            (r matches Err(e) ==> (e is NotConnected || e is Communication)),
    {
        self.device = transport;
        self.init_device()
    }

    /// Sends a command and decodes its response.
    pub fn execute_command<C: Command>(&mut self, command: C) -> (r: Result<C::Response, Error>)
        ensures
            (r matches Ok(v) ==> exists|text: Seq<char>|
                #[trigger] command.spec_parse(text) == Ok::<
                    <C::Response as DeepView>::V,
                    DecodeFailure,
                >(v.deep_view())),
            (r matches Err(e) ==> (e is NotConnected || e is Communication || e is Decode)),
            (r matches Err(Error::Decode(d)) ==> exists|text: Seq<char>|
                #[trigger] command.spec_parse(text) == Err::<
                    <C::Response as DeepView>::V,
                    DecodeFailure,
                >(d@)),
            ((r is Ok || r matches Err(Error::Decode(_))) ==> final(self).sent() == old(
                self,
            ).sent() + framed_text(command.spec_command())),
            final(self).name_spec() == old(self).name_spec(),
    {
        let text = command.serial_command();
        match self.serial_cmd(text.as_str()) {
            Ok(response) => {
                let ghost resp_view = response@;
                match command.parse_result(response) {
                    Ok(v) => {
                        proof {
                            assert(command.spec_parse(resp_view) == Ok::<
                                <C::Response as DeepView>::V,
                                DecodeFailure,
                            >(v.deep_view()));
                        }
                        Ok(v)
                    },
                    Err(e) => {
                        proof {
                            assert(command.spec_parse(resp_view) == Err::<
                                <C::Response as DeepView>::V,
                                DecodeFailure,
                            >(e@));
                        }
                        Err(Error::Decode(e))
                    },
                }
            },
            Err(e) => Err(e),
        }
    }

    fn init_device(&mut self) -> (r: Result<(), Error>)
        ensures
            (r is Ok ==> exists|frame: Seq<u8>|
                {
                    &&& !frame.contains(PROMPT)
                    &&& !frame.contains(CR)
                    &&& valid_utf8(#[trigger] strip_echo(frame, encode_utf8(" "@)))
                    &&& final(self).name_spec() == without_newlines(
                        decode_utf8(strip_echo(frame, encode_utf8(" "@))),
                    )
                }),
            (r is Ok ==> final(self).sent() == old(self).sent() + framed_text(" "@) + framed_text(
                "AT Z"@,
            ) + framed_text("ATSP0"@) + framed_text("01 00"@)),
            (r is Ok ==> final(self).buffered() == Seq::<u8>::empty()),
            (r matches Err(e) ==> (e is NotConnected || e is Communication)),
    {
        match self.connect() {
            Ok(()) => {},
            Err(e) => {
                return Err(e);
            },
        }
        self.flush()
    }

    /// Establishes the link, captures the device identity from a blank
    /// probe command, clears stale bytes, and resets the adapter.
    fn connect(&mut self) -> (r: Result<(), Error>)
        ensures
            (r is Ok ==> exists|frame: Seq<u8>|
                {
                    &&& !frame.contains(PROMPT)
                    &&& !frame.contains(CR)
                    &&& valid_utf8(#[trigger] strip_echo(frame, encode_utf8(" "@)))
                    &&& final(self).name_spec() == without_newlines(
                        decode_utf8(strip_echo(frame, encode_utf8(" "@))),
                    )
                }),
            (r is Ok ==> final(self).sent() == old(self).sent() + framed_text(" "@) + framed_text(
                "AT Z"@,
            ) + framed_text("ATSP0"@) + framed_text("01 00"@)),
            (r matches Err(e) ==> (e is NotConnected || e is Communication)),
    {
        match self.device.init() {
            Ok(()) => {},
            Err(e) => {
                return Err(map_transport_error(e));
            },
        }
        let identity = match self.serial_cmd(" ") {
            Ok(s) => s,
            Err(e) => {
                return Err(e);
            },
        };
        let ghost identity_view = identity@;
        self.device_name = remove_newlines(identity.as_str());
        self.buffer.clear();
        let r = self.reset();
        proof {
            if r is Ok {
                let frame = choose|frame: Seq<u8>|
                    {
                        &&& !frame.contains(PROMPT)
                        &&& !frame.contains(CR)
                        &&& valid_utf8(#[trigger] strip_echo(frame, encode_utf8(" "@)))
                        &&& identity_view == decode_utf8(strip_echo(frame, encode_utf8(" "@)))
                    };
                assert(self.name_spec() == without_newlines(
                    decode_utf8(strip_echo(frame, encode_utf8(" "@))),
                ));
            }
        }
        r
    }

    /// An IC reset, a settle delay, then a protocol reset.
    fn reset(&mut self) -> (r: Result<(), Error>)
        ensures
            (r is Ok ==> final(self).sent() == old(self).sent() + framed_text("AT Z"@)
                + framed_text("ATSP0"@) + framed_text("01 00"@)),
            final(self).name_spec() == old(self).name_spec(),
            (r matches Err(e) ==> (e is NotConnected || e is Communication)),
    {
        match self.reset_ic() {
            Ok(()) => {},
            Err(e) => {
                return Err(e);
            },
        }
        self.device.sleep_ms(SETTLE_MS);
        self.reset_protocol()
    }

    fn reset_ic(&mut self) -> (r: Result<(), Error>)
        ensures
            (r is Ok ==> final(self).sent() == old(self).sent() + framed_text("AT Z"@)),
            final(self).name_spec() == old(self).name_spec(),
            (r matches Err(e) ==> (e is NotConnected || e is Communication)),
    {
        match self.send_serial_str("AT Z") {
            Ok(()) => {},
            Err(e) => {
                return Err(e);
            },
        }
        match self.get_response() {
            Ok(_) => Ok(()),
            Err(e) => Err(e),
        }
    }

    /// Sets protocol auto-detect, probes a baseline service/PID, and
    /// flushes the adapter chatter that follows.
    fn reset_protocol(&mut self) -> (r: Result<(), Error>)
        ensures
            (r is Ok ==> final(self).sent() == old(self).sent() + framed_text("ATSP0"@)
                + framed_text("01 00"@)),
            final(self).name_spec() == old(self).name_spec(),
            (r matches Err(e) ==> (e is NotConnected || e is Communication)),
    {
        match self.serial_cmd("ATSP0") {
            Ok(_) => {},
            Err(e) => {
                return Err(e);
            },
        }
        match self.serial_cmd("01 00") {
            Ok(_) => {},
            Err(e) => {
                return Err(e);
            },
        }
        self.flush()
    }

    /// Waits for the adapter to settle, drains whatever it sent, and
    /// discards it: afterwards the byte queue is empty.
    pub fn flush(&mut self) -> (r: Result<(), Error>)
        ensures
            (r matches Ok(()) ==> final(self).buffered() == Seq::<u8>::empty()),
            final(self).sent() == old(self).sent(),
            final(self).name_spec() == old(self).name_spec(),
            (r matches Err(e) ==> (e is NotConnected || e is Communication)),
    {
        self.device.sleep_ms(SETTLE_MS);
        match self.read_into_queue() {
            Ok(_) => {},
            Err(e) => {
                return Err(e);
            },
        }
        self.buffer.clear();
        Ok(())
    }

    /// Reads a line: a frame terminated by a line feed, blank lines
    /// skipped.
    pub fn get_line(&mut self) -> (r: Result<Option<Vec<u8>>, Error>)
        ensures
            (r matches Ok(Some(f)) ==> f@.len() > 0),
            (r matches Ok(Some(f)) ==> forall|i: int|
                0 <= i < f@.len() ==> f@[i] != LF && f@[i] != CR),
            (r matches Ok(None) ==> !final(self).buffered().contains(LF)
                && !final(self).buffered().contains(CR)),
            (first_nonempty_frame(old(self).buffered(), LF) is Some ==> (r matches Ok(Some(f))
                && Some(f@) == first_nonempty_frame(old(self).buffered(), LF))),
            (r matches Ok(Some(f)) ==> exists|taken: Seq<u8>, arrived: Seq<u8>, skips: int|
                #![trigger normalized(taken), empty_frames(skips, LF), old(self).buffered() + arrived]
                {
                    &&& 0 <= skips
                    &&& taken + final(self).buffered() == old(self).buffered() + arrived
                    &&& normalized(taken) == empty_frames(skips, LF) + f@ + seq![LF]
                }),
            final(self).sent() == old(self).sent(),
            final(self).name_spec() == old(self).name_spec(),
            (r matches Err(e) ==> (e is NotConnected || e is Communication)),
    {
        self.get_until(LF, false)
    }

    /// Reads a whole command response: a frame terminated by the adapter's
    /// prompt character. A response may legitimately be empty. `Ok(None)`
    /// means no frame arrived within the timeout.
    pub fn get_response(&mut self) -> (r: Result<Option<Vec<u8>>, Error>)
        ensures
            (r matches Ok(Some(f)) ==> forall|i: int|
                0 <= i < f@.len() ==> f@[i] != PROMPT && f@[i] != CR),
            (r matches Ok(None) ==> !final(self).buffered().contains(PROMPT)
                && !final(self).buffered().contains(CR)),
            (r matches Ok(None) ==> exists|arrived: Seq<u8>|
                final(self).buffered() == #[trigger] crate::framing::normalized(
                    old(self).buffered() + arrived,
                )),
            (scan_result(old(self).buffered(), Seq::empty(), PROMPT).2 ==> (r matches Ok(Some(f))
                && f@ == scan_result(old(self).buffered(), Seq::empty(), PROMPT).1.drop_last())),
            (r matches Ok(Some(f)) ==> exists|taken: Seq<u8>, arrived: Seq<u8>|
                #![trigger normalized(taken), old(self).buffered() + arrived]
                {
                    &&& taken + final(self).buffered() == old(self).buffered() + arrived
                    &&& normalized(taken) == f@ + seq![PROMPT]
                }),
            final(self).sent() == old(self).sent(),
            final(self).name_spec() == old(self).name_spec(),
            (r matches Err(e) ==> (e is NotConnected || e is Communication)),
    {
        let r = self.get_until(PROMPT, true);
        proof {
            match &r {
                Ok(Some(f)) => {
                    let (taken, arrived, skips) = choose|taken: Seq<u8>, arrived: Seq<u8>, skips: int|
                        #![trigger normalized(taken), empty_frames(skips, PROMPT), old(self).buffered() + arrived]
                        {
                            &&& 0 <= skips
                            &&& skips == 0
                            &&& taken + self.buffered() == old(self).buffered() + arrived
                            &&& normalized(taken) == empty_frames(skips, PROMPT) + f@
                                + seq![PROMPT]
                        };
                    assert(empty_frames(0, PROMPT) =~= Seq::<u8>::empty());
                    assert(normalized(taken) =~= f@ + seq![PROMPT]);
                },
                _ => {},
            }
        }
        r
    }

    /// Frame assembly: pulls bytes off the queue, refilling it from the
    /// transport, until the terminator has been appended or the timeout
    /// elapses. Carriage returns are normalized to line feeds and bare line
    /// feeds dropped, as `framing::normalized` says. On success the frame
    /// is returned without its terminator; empty frames are skipped when
    /// `allow_empty` is false. On timeout every accumulated byte is pushed
    /// back onto the front of the queue in original order and `Ok(None)`
    /// returned: a timeout is not an error and loses no data.
    pub fn get_until(&mut self, end_byte: u8, allow_empty: bool) -> (r: Result<
        Option<Vec<u8>>,
        Error,
    >)
        ensures
            (r matches Ok(Some(f)) ==> forall|i: int|
                0 <= i < f@.len() ==> f@[i] != end_byte && f@[i] != CR),
            !allow_empty ==> (r matches Ok(Some(f)) ==> f@.len() > 0),
            (r matches Ok(None) ==> !final(self).buffered().contains(end_byte)
                && !final(self).buffered().contains(CR)),
            (allow_empty ==> (r matches Ok(None) ==> exists|arrived: Seq<u8>|
                final(self).buffered() == #[trigger] normalized(old(self).buffered() + arrived))),
            (allow_empty && scan_result(old(self).buffered(), Seq::empty(), end_byte).2 ==> (
            r matches Ok(Some(f)) && f@ == scan_result(
                old(self).buffered(),
                Seq::empty(),
                end_byte,
            ).1.drop_last())),
            (!allow_empty && first_nonempty_frame(old(self).buffered(), end_byte) is Some ==> (
            r matches Ok(Some(f)) && Some(f@) == first_nonempty_frame(
                old(self).buffered(),
                end_byte,
            ))),
            (r matches Ok(Some(f)) ==> exists|taken: Seq<u8>, arrived: Seq<u8>, skips: int|
                #![trigger normalized(taken), empty_frames(skips, end_byte), old(self).buffered() + arrived]
                {
                    &&& 0 <= skips
                    &&& (allow_empty ==> skips == 0)
                    &&& taken + final(self).buffered() == old(self).buffered() + arrived
                    &&& normalized(taken) == empty_frames(skips, end_byte) + f@ + seq![end_byte]
                }),
            final(self).sent() == old(self).sent(),
            final(self).name_spec() == old(self).name_spec(),
            (r matches Err(e) ==> (e is NotConnected || e is Communication)),
    {
        let start = self.device.now_ms();
        let mut acc: Vec<u8> = Vec::new();
        // What frame assembly has consumed, what the transport delivered
        // since the call began, and how many empty frames were skipped: the
        // success and timeout contracts relate the result to them.
        let ghost mut consumed: Seq<u8> = Seq::empty();
        let ghost mut arrived: Seq<u8> = Seq::empty();
        let ghost mut n_skips: int = 0;
        proof {
            assert(consumed + self.buffer@ =~= old(self).buffered() + arrived);
            assert(empty_frames(0, end_byte) =~= Seq::<u8>::empty());
            assert(normalized(consumed) =~= empty_frames(n_skips, end_byte) + acc@);
        }
        // Whether this is still the first pass over the bytes that were
        // already buffered when the call began.
        let ghost mut first = true;
        let ghost first_scan = scan_result(old(self).buffered(), Seq::empty(), end_byte);
        // The clock bounds the loop in practice; the fuel is a generous
        // iteration cap that serves as its termination measure.
        let mut fuel: u64 = 0xffff_ffff;
        loop
            invariant
                forall|i: int| 0 <= i < acc@.len() ==> acc@[i] != end_byte && acc@[i] != CR,
                consumed + self.buffer@ == old(self).buffered() + arrived,
                normalized(consumed) == empty_frames(n_skips, end_byte) + acc@,
                0 <= n_skips,
                allow_empty ==> n_skips == 0,
                first_scan == scan_result(old(self).buffered(), Seq::empty(), end_byte),
                first ==> self.buffer@ == old(self).buffered() && acc@ == Seq::<u8>::empty(),
                !first ==> !(allow_empty && first_scan.2),
                (!allow_empty && first_nonempty_frame(old(self).buffered(), end_byte) is Some
                    ==> acc@ == Seq::<u8>::empty() && first_nonempty_frame(
                    self.buffer@,
                    end_byte,
                ) == first_nonempty_frame(old(self).buffered(), end_byte)),
                self.sent() == old(self).sent(),
                self.name_spec() == old(self).name_spec(),
            decreases fuel, self.buffer@.len(),
        {
            let ghost q_pre = self.buffer@;
            let ghost acc_pre = acc@;
            let ghost was_first = first;
            proof {
                first = false;
            }
            let done = scan_queue(&mut self.buffer, &mut acc, end_byte);
            proof {
                lemma_scan_extends(q_pre, acc_pre, end_byte);
            }
            if done {
                let ghost before_pop = acc@;
                proof {
                    lemma_scan_consumed(q_pre, acc_pre, end_byte);
                    let used = q_pre.take(q_pre.len() - self.buffer@.len());
                    lemma_normalized_concat(consumed, used);
                    assert(q_pre =~= used + self.buffer@);
                    assert((consumed + used) + self.buffer@ =~= consumed + (used + self.buffer@));
                    assert(normalized(consumed + used) =~= (empty_frames(n_skips, end_byte)
                        + acc_pre) + normalized(used));
                    assert((empty_frames(n_skips, end_byte) + acc_pre) + normalized(used)
                        =~= empty_frames(n_skips, end_byte) + before_pop);
                    consumed = consumed + used;
                }
                acc.pop();
                proof {
                    assert(acc@ =~= before_pop.take(before_pop.len() - 1));
                    assert forall|i: int| 0 <= i < acc@.len() implies acc@[i] != end_byte
                        && acc@[i] != CR by {
                        assert(acc@[i] == before_pop[i]);
                        if i < acc_pre.len() {
                            assert(before_pop.take(acc_pre.len() as int)[i] == before_pop[i]);
                        }
                    }
                }
                if allow_empty || acc.len() > 0 {
                    proof {
                        if was_first {
                            assert(before_pop == first_scan.1);
                            assert(acc@ == first_scan.1.drop_last());
                        }
                        assert(before_pop =~= acc@ + seq![end_byte]);
                        assert(normalized(consumed) =~= empty_frames(n_skips, end_byte) + acc@
                            + seq![end_byte]);
                        if !allow_empty && first_nonempty_frame(
                            old(self).buffered(),
                            end_byte,
                        ) is Some {
                            assert(acc_pre == Seq::<u8>::empty());
                            assert(scan_result(q_pre, Seq::empty(), end_byte) == (
                                self.buffer@,
                                before_pop,
                                true,
                            ));
                            assert(first_nonempty_frame(q_pre, end_byte) == Some(acc@));
                        }
                    }
                    return Ok(Some(acc));
                }
                // an empty line: discard it and try again within the same
                // overall deadline; the queue shrank by at least the
                // terminator, which bounds this path
                proof {
                    assert(before_pop =~= seq![end_byte]);
                    assert(empty_frames(n_skips, end_byte) + before_pop =~= empty_frames(
                        n_skips + 1,
                        end_byte,
                    ) + Seq::<u8>::empty());
                    n_skips = n_skips + 1;
                    if !allow_empty && first_nonempty_frame(
                        old(self).buffered(),
                        end_byte,
                    ) is Some {
                        assert(acc_pre == Seq::<u8>::empty());
                        assert(scan_result(q_pre, Seq::empty(), end_byte) == (
                            self.buffer@,
                            before_pop,
                            true,
                        ));
                        assert(first_nonempty_frame(q_pre, end_byte) == first_nonempty_frame(
                            self.buffer@,
                            end_byte,
                        ));
                    }
                }
            } else {
                // the scan drained the queue without meeting the terminator
                proof {
                    assert forall|i: int| 0 <= i < acc@.len() implies acc@[i] != end_byte
                        && acc@[i] != CR by {
                        if i < acc_pre.len() {
                            assert(acc@.take(acc_pre.len() as int)[i] == acc@[i]);
                        }
                    }
                    lemma_normalized_concat(consumed, q_pre);
                    assert(acc@ == acc_pre + normalized(q_pre));
                    assert(normalized(consumed + q_pre) =~= empty_frames(n_skips, end_byte)
                        + acc@);
                    assert((consumed + q_pre) + self.buffer@ =~= old(self).buffered() + arrived);
                    consumed = consumed + q_pre;
                    if !allow_empty && first_nonempty_frame(
                        old(self).buffered(),
                        end_byte,
                    ) is Some {
                        assert(acc_pre == Seq::<u8>::empty());
                        assert(!scan_result(q_pre, Seq::empty(), end_byte).2);
                        assert(false);
                    }
                }
                let now = self.device.now_ms();
                let elapsed = if now >= start {
                    now - start
                } else {
                    0
                };
                if fuel == 0 || elapsed >= TIMEOUT_MS {
                    proof {
                        assert forall|i: int| 0 <= i < acc@.len() implies acc@[i] != end_byte
                            && acc@[i] != CR by {
                            if i < acc_pre.len() {
                                assert(acc@.take(acc_pre.len() as int)[i] == acc@[i]);
                            }
                        }
                    }
                    proof {
                        assert(self.buffer@.len() == 0);
                    }
                    push_front_all(&mut self.buffer, &acc);
                    proof {
                        assert(self.buffer@ =~= acc@);
                        if allow_empty {
                            assert(empty_frames(0, end_byte) =~= Seq::<u8>::empty());
                            assert(normalized(consumed) =~= acc@);
                            assert(consumed =~= old(self).buffered() + arrived);
                            assert(self.buffered() == normalized(old(self).buffered() + arrived));
                        }
                        assert(!self.buffer@.contains(end_byte)) by {
                            if self.buffer@.contains(end_byte) {
                                let i = choose|i: int|
                                    0 <= i < self.buffer@.len() && self.buffer@[i] == end_byte;
                                assert(acc@[i] != end_byte);
                            }
                        }
                        assert(!self.buffer@.contains(CR)) by {
                            if self.buffer@.contains(CR) {
                                let i = choose|i: int|
                                    0 <= i < self.buffer@.len() && self.buffer@[i] == CR;
                                assert(acc@[i] != CR);
                            }
                        }
                    }
                    return Ok(None);
                }
                fuel = fuel - 1;
                let ghost buffered_pre_read = self.buffered();
                let got = match self.read_into_queue() {
                    Ok(g) => g,
                    Err(e) => {
                        return Err(e);
                    },
                };
                proof {
                    let nb = choose|nb: Seq<u8>|
                        self.buffered() == buffered_pre_read + nb && got == (nb.len() > 0);
                    assert((consumed + buffered_pre_read) + nb =~= consumed + (buffered_pre_read
                        + nb));
                    assert((old(self).buffered() + arrived) + nb =~= old(self).buffered() + (
                    arrived + nb));
                    arrived = arrived + nb;
                }
                if !got {
                    self.device.sleep_ms(POLL_SLEEP_MS);
                }
            }
        }
    }

    /// Writes the command text followed by CRLF, awaits the
    /// prompt-terminated response, decodes it as text, and strips the
    /// echoed command when the adapter echoed it. A timeout with no frame
    /// is a `Communication` error ("no response"), as is a response that is
    /// not valid text.
    pub fn serial_cmd(&mut self, cmd: &str) -> (r: Result<String, Error>)
        ensures
            (r matches Ok(s) ==> exists|frame: Seq<u8>|
                {
                    &&& !frame.contains(PROMPT)
                    &&& !frame.contains(CR)
                    &&& valid_utf8(#[trigger] strip_echo(frame, cmd.spec_bytes()))
                    &&& s@ == decode_utf8(strip_echo(frame, cmd.spec_bytes()))
                }),
            (r is Ok ==> final(self).sent() == old(self).sent() + framed_text(cmd@)),
            final(self).name_spec() == old(self).name_spec(),
            (r matches Err(e) ==> (e is NotConnected || e is Communication)),
    {
        match self.send_serial_str(cmd) {
            Ok(()) => {},
            Err(e) => {
                return Err(e);
            },
        }
        let frame = match self.get_response() {
            Ok(Some(f)) => f,
            Ok(None) => {
                return Err(Error::Communication);
            },
            Err(e) => {
                return Err(e);
            },
        };
        let ghost frame_view = frame@;
        let mut prefix = cmd.as_bytes_vec();
        prefix.push(LF);
        let stripped = if starts_with(&frame, &prefix) {
            subvec(&frame, prefix.len(), frame.len())
        } else {
            frame
        };
        proof {
            assert(prefix@ == cmd.spec_bytes().push(LF));
            assert(stripped@ == strip_echo(frame_view, cmd.spec_bytes()));
        }
        match bytes_to_string(stripped) {
            Some(s) => Ok(s),
            None => Err(Error::Communication),
        }
    }

    /// Encodes each byte as two uppercase hexadecimal characters, fixed
    /// width and zero padded, concatenated in order, and sends the result
    /// as a command.
    pub fn send_cmd(&mut self, data: &Vec<u8>) -> (r: Result<(), Error>)
        ensures
            (r is Ok ==> final(self).sent() == old(self).sent() + framed_bytes(
                hex_encoding(data@),
            )),
            final(self).buffered() == old(self).buffered(),
            final(self).name_spec() == old(self).name_spec(),
            (r matches Err(e) ==> (e is NotConnected || e is Communication)),
    {
        let encoded = encode_hex(data);
        proof {
            assert(encoded@ == hex_encoding(data@));
        }
        self.send_serial_bytes(&encoded)
    }

    /// Sends a raw string, without encoding into ASCII hex.
    fn send_serial_str(&mut self, data: &str) -> (r: Result<(), Error>)
        ensures
            (r is Ok ==> final(self).sent() == old(self).sent() + framed_text(data@)),
            final(self).buffered() == old(self).buffered(),
            final(self).name_spec() == old(self).name_spec(),
            (r matches Err(e) ==> (e is NotConnected || e is Communication)),
    {
        let bytes = data.as_bytes_vec();
        let r = self.send_serial_bytes(&bytes);
        proof {
            if r is Ok {
                assert(framed_bytes(data.spec_bytes()) =~= framed_text(data@));
            }
        }
        r
    }

    /// Writes the bytes, then the CRLF that closes one command.
    fn send_serial_bytes(&mut self, data: &Vec<u8>) -> (r: Result<(), Error>)
        ensures
            (r is Ok ==> final(self).sent() == old(self).sent() + framed_bytes(data@)),
            final(self).buffered() == old(self).buffered(),
            final(self).name_spec() == old(self).name_spec(),
            (r matches Err(e) ==> (e is NotConnected || e is Communication)),
    {
        match self.device.write(data) {
            Ok(()) => {},
            Err(e) => {
                return Err(map_transport_error(e));
            },
        }
        let crlf: Vec<u8> = vec![CR, LF];
        match self.device.write(&crlf) {
            Ok(()) => {
                proof {
                    assert(crlf@ =~= seq![CR, LF]);
                    assert((old(self).sent() + data@) + crlf@ =~= old(self).sent() + framed_bytes(
                        data@,
                    ));
                }
                Ok(())
            },
            Err(e) => Err(map_transport_error(e)),
        }
    }

    /// One transport read, appended to the byte queue; says whether any
    /// bytes arrived.
    fn read_into_queue(&mut self) -> (r: Result<bool, Error>)
        ensures
            (r matches Ok(got) ==> exists|arrived: Seq<u8>|
                final(self).buffered() == old(self).buffered() + arrived && got == (arrived.len()
                    > 0)),
            (r is Err ==> final(self).buffered() == old(self).buffered()),
            final(self).sent() == old(self).sent(),
            final(self).name_spec() == old(self).name_spec(),
            (r matches Err(e) ==> (e is NotConnected || e is Communication)),
    {
        let data = match self.device.read(READ_CHUNK) {
            Ok(d) => d,
            Err(e) => {
                return Err(map_transport_error(e));
            },
        };
        let got = data.len() > 0;
        let mut k: usize = 0;
        while k < data.len()
            invariant
                k <= data@.len(),
                self.buffer@ == old(self).buffer@ + data@.take(k as int),
                self.sent() == old(self).sent(),
                self.name_spec() == old(self).name_spec(),
            decreases data@.len() - k,
        {
            self.buffer.push_back(data[k]);
            proof {
                assert((old(self).buffer@ + data@.take(k as int)).push(data@[k as int])
                    =~= old(self).buffer@ + data@.take(k as int + 1));
            }
            k = k + 1;
        }
        proof {
            assert(data@.take(data@.len() as int) =~= data@);
            assert(self.buffered() == old(self).buffered() + data@);
            assert(got == (data@.len() > 0));
        }
        Ok(got)
    }
}

/// The command's response text with every line feed removed: how the
/// device identity is stored.
pub open spec fn without_newlines(s: Seq<char>) -> Seq<char>
    decreases s.len(),
{
    if s.len() == 0 {
        Seq::empty()
    } else if s[0] == '\n' {
        without_newlines(s.skip(1))
    } else {
        seq![s[0]] + without_newlines(s.skip(1))
    }
}

/// Removes every line feed from a string.
pub fn remove_newlines(s: &str) -> (r: String)
    ensures
        r@ == without_newlines(s@),
{
    let n = s.unicode_len();
    let mut r = String::new();
    let mut i: usize = 0;
    proof {
        assert(s@.skip(0) =~= s@);
    }
    while i < n
        invariant
            i <= n,
            n == s@.len(),
            r@ + without_newlines(s@.skip(i as int)) == without_newlines(s@),
        decreases n - i,
    {
        let ghost rest = s@.skip(i as int);
        proof {
            assert(rest[0] == s@[i as int]);
            assert(rest.skip(1) =~= s@.skip(i as int + 1));
        }
        let c = s.get_char(i);
        if c != '\n' {
            let ghost pre = r@;
            let piece = s.substring_char(i, i + 1);
            proof {
                assert(piece@ =~= seq![s@[i as int]]);
            }
            r.append(piece);
            proof {
                assert(pre + (seq![s@[i as int]] + without_newlines(s@.skip(i as int + 1)))
                    =~= r@ + without_newlines(s@.skip(i as int + 1)));
            }
        }
        i = i + 1;
    }
    proof {
        assert(s@.skip(n as int) =~= Seq::<char>::empty());
        assert(r@ + Seq::<char>::empty() =~= r@);
    }
    r
}

} // verus!
