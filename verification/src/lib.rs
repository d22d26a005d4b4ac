//! Talks to an ELM327-class OBD-II adapter over a byte transport, frames its
//! noisy byte stream into discrete command/response exchanges, and decodes
//! multi-frame ASCII-hex telemetry into typed battery data for an electric
//! vehicle.

pub mod command_error;
pub mod decode;
pub mod elm327;
pub mod framing;
pub mod history;
pub mod kia;
pub mod transport;
pub mod util;
