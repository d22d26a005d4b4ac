//! The small coded error structure handed across the outermost boundary: a
//! stable machine code, a human message, and optional parameters. Every
//! lower-level failure is reduced to one of these.

use vstd::prelude::*;
use crate::elm327;
use crate::kia;
use crate::transport;

verus! {

#[derive(Debug)]
pub struct CommandError {
    pub code: String,
    pub message: String,
    pub parameters: Option<Vec<String>>,
}

impl CommandError {
    /// The catch-all failure report.
    pub fn new_internal() -> (r: CommandError)
        ensures
            r.code@ == "internal_error"@,
            r.message@ == "Internal error"@,
            r.parameters is None,
    {
        CommandError {
            code: String::from_str("internal_error"),
            message: String::from_str("Internal error"),
            parameters: None,
        }
    }

    /// The report that forces the caller to reconnect.
    pub fn new_not_connected() -> (r: CommandError)
        ensures
            r.code@ == "not_connected"@,
            r.message@ == "Not connected"@,
            r.parameters is None,
    {
        CommandError {
            code: String::from_str("not_connected"),
            message: String::from_str("Not connected"),
            parameters: None,
        }
    }

    /// Reduces a protocol-level failure: a lost connection keeps its code,
    /// everything else is internal.
    pub fn from_elm327(e: &elm327::Error) -> (r: CommandError)
        ensures
            (e is NotConnected) ==> r.code@ == "not_connected"@,
            !(e is NotConnected) ==> r.code@ == "internal_error"@,
    {
        match e {
            elm327::Error::NotConnected => CommandError::new_not_connected(),
            _ => CommandError::new_internal(),
        }
    }

    /// Reduces a session-level failure.
    pub fn from_kia(e: &kia::Error) -> (r: CommandError)
        ensures
            (e is NotConnected) ==> r.code@ == "not_connected"@,
            !(e is NotConnected) ==> r.code@ == "internal_error"@,
    {
        match e {
            kia::Error::NotConnected => CommandError::new_not_connected(),
            kia::Error::Other => CommandError::new_internal(),
        }
    }

    /// Reduces a transport-level failure; a malformed parameter keeps its
    /// name and offending value as the report's parameters.
    pub fn from_transport(e: transport::Error) -> (r: CommandError)
        ensures
            (e is ConnectionFailed) ==> r.code@ == "connection_failed"@ && r.parameters is None,
            (e is NotConnected) ==> r.code@ == "not_connected"@,
            (e is IO || e is Other) ==> r.code@ == "internal_error"@,
            (e matches transport::Error::InvalidParameter(p, m) ==> r.code@ == "bad_parameter"@
                && (r.parameters matches Some(ps) && ps.deep_view() == seq![p@, m@])),
    {
        match e {
            transport::Error::ConnectionFailed => CommandError {
                code: String::from_str("connection_failed"),
                message: String::from_str("Connection failed"),
                parameters: None,
            },
            transport::Error::NotConnected => CommandError::new_not_connected(),
            transport::Error::InvalidParameter(p, m) => {
                let ghost gp = p@;
                let ghost gm = m@;
                let mut ps: Vec<String> = Vec::new();
                ps.push(p);
                ps.push(m);
                proof {
                    assert(ps.deep_view() =~~= seq![gp, gm]);
                }
                CommandError {
                    code: String::from_str("bad_parameter"),
                    message: String::from_str("Bad parameter"),
                    parameters: Some(ps),
                }
            },
            _ => CommandError::new_internal(),
        }
    }
}

} // verus!
