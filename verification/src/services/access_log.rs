//! The access log of the services: one entry for each request.

use axum::http::HeaderName;
use vstd::prelude::*;

use crate::scheduling::config::F64Bits;

verus! {

/// The model that a request was for, noted for its log entry.
#[derive(Debug, PartialEq, Eq)]
pub struct AccessLogModel(pub String);

/// The log entry of a request.
#[derive(Debug, PartialEq, Eq)]
pub struct AccessLogEntry {
    pub ts: String,
    pub trace_id: String,
    pub method: String,
    pub path: String,
    pub model: String,
    pub status: u16,
    pub duration_ms: F64Bits,
}

fn or_else(text: Option<&str>, default: &str) -> (r: String)
    ensures
        r@ == match text {
            Some(text) => text@,
            None => default@,
        },
{
    match text {
        Some(text) => text.to_owned(),
        None => default.to_owned(),
    }
}

impl AccessLogEntry {
    /// The entry of a request. Without a trace id or a model there is a dash for
    /// it, and a path that is not served is unknown.
    pub fn new(
        ts: String,
        trace_id: Option<&str>,
        method: String,
        path: Option<&str>,
        model: Option<&AccessLogModel>,
        status: u16,
        duration_ms: F64Bits,
    ) -> (entry: Self)
        ensures
            entry.ts == ts,
            entry.trace_id@ == match trace_id {
                Some(id) => id@,
                None => "-"@,
            },
            entry.method == method,
            entry.path@ == match path {
                Some(path) => path@,
                None => "unknown"@,
            },
            entry.model@ == match model {
                Some(model) => (model.0)@,
                None => "-"@,
            },
            entry.status == status,
            entry.duration_ms == duration_ms,
    {
        AccessLogEntry {
            ts,
            trace_id: or_else(trace_id, "-"),
            method,
            path: or_else(path, "unknown"),
            model: match model {
                Some(model) => model.0.as_str().to_owned(),
                None => "-".to_owned(),
            },
            status,
            duration_ms,
        }
    }
}

/// Whether a character may stand in the name of a header.
pub open spec fn header_char(c: char) -> bool {
    ||| '0' <= c <= '9'
    ||| 'a' <= c <= 'z'
    ||| 'A' <= c <= 'Z'
    ||| seq!['!', '#', '$', '%', '&', '\'', '*', '+', '-', '.', '^', '_', '`', '|', '~'].contains(c)
}

/// The most characters that the name of a header has.
pub const MAX_HEADER_NAME_LEN: usize = 65_535;

/// Whether a text is the name of a header.
pub open spec fn is_header_name(name: Seq<char>) -> bool {
    &&& 0 < name.len() <= MAX_HEADER_NAME_LEN
    &&& forall|i: int| 0 <= i < name.len() ==> header_char(#[trigger] name[i])
}

/// A letter in lower case, and any other character as it is.
pub open spec fn lowered(c: char) -> char {
    if 'A' <= c <= 'Z' {
        (c as u32 + 32) as char
    } else {
        c
    }
}

/// `HeaderName::from_bytes` of `http`: takes names of up to 65535 characters that
/// may stand in one, in lower case.
#[verifier::external_body]
fn header_name(name: &str) -> (r: Option<String>)
    ensures
        r is Some <==> is_header_name(name@),
        r matches Some(text) ==> text@ == name@.map_values(|c: char| lowered(c)),
{
    HeaderName::from_bytes(name.as_bytes()).ok().map(|n| n.as_str().to_owned())
}

/// The text is not the name of a header.
#[derive(Clone, Copy, Debug, PartialEq, Eq, Structural)]
pub struct InvalidHeaderName;

/// The name of a header, in lower case.
pub fn parse_header_name(name: &str) -> (r: Result<String, InvalidHeaderName>)
    ensures
        r is Ok <==> is_header_name(name@),
        r matches Ok(text) ==> text@ == name@.map_values(|c: char| lowered(c)),
{
    match header_name(name) {
        Some(text) => Ok(text),
        None => Err(InvalidHeaderName),
    }
}

} // verus!
