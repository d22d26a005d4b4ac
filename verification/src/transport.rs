//! The capability the protocol engine talks through: a byte channel together
//! with the blocking and timing it needs, so that the engine itself stays
//! free of any direct dealing with sockets or clocks.

use vstd::prelude::*;

verus! {

/// Transport-level failures.
#[derive(Debug)]
pub enum Error {
    /// The underlying connection could not be established.
    ConnectionFailed,
    /// The peer has closed the connection or a write found it broken.
    NotConnected,
    /// Any other input/output failure.
    IO,
    /// A malformed address or configuration value; carries the parameter
    /// name and the offending value.
    InvalidParameter(String, String),
    /// Anything else, including a replay transport asked for an exchange it
    /// has no recording of.
    Other,
}

/// A byte channel to the adapter. Implementations: a TCP-relayed serial
/// line, a raw WiFi socket (both live outside the verified library), and the
/// deterministic replay transport `crate::history::History`.
///
/// The transport also supplies the engine's notion of time: `now_ms` is a
/// monotonic millisecond clock and `sleep_ms` blocks the caller briefly, so
/// a replay transport can run timeouts on a synthetic clock and stay
/// deterministic.
pub trait Transport: Sized {
    /// Every byte the transport has accepted from `write`, in order: the
    /// ghost record over which the engine's sending contracts are stated.
    /// Only a successful `write` extends it; no other operation touches it.
    /// (The default is for implementations outside the verified world,
    /// which no proof can look into anyway; a verified transport overrides
    /// it with its real record.)
    open spec fn write_log(&self) -> Seq<u8> {
        Seq::empty()
    }

    /// Establishes the underlying connection.
    fn init(&mut self) -> (r: Result<(), Error>)
        ensures
            final(self).write_log() == old(self).write_log(),
    ;

    /// Sends the bytes verbatim: on success they are appended, unchanged,
    /// to the write log.
    fn write(&mut self, data: &Vec<u8>) -> (r: Result<(), Error>)
        ensures
            r is Ok ==> final(self).write_log() == old(self).write_log() + data@,
    ;

    /// Non-blocking read: hands back whatever bytes are currently available,
    /// at most `max` of them, and an empty vector when nothing is pending.
    /// An orderly close by the peer is `Err(Error::NotConnected)`, distinct
    /// from "nothing available yet".
    fn read(&mut self, max: usize) -> (r: Result<Vec<u8>, Error>)
        ensures
            (r matches Ok(v) ==> v@.len() <= max),
            final(self).write_log() == old(self).write_log(),
    ;

    /// Best-effort liveness flag, updated opportunistically on failures.
    fn connected(&self) -> (r: bool);

    /// A monotonic clock reading in milliseconds.
    fn now_ms(&self) -> (r: u64);

    /// Blocks the caller for about `ms` milliseconds (a replay transport
    /// merely advances its synthetic clock).
    fn sleep_ms(&mut self, ms: u64)
        ensures
            final(self).write_log() == old(self).write_log(),
    ;
}

} // verus!
