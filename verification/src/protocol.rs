//! The response envelopes of the JSON protocol.
//!
//! Every call answers with an object carrying a top-level `ok` field. On
//! success: `{"ok": true, "result": <method-specific>}`. On failure:
//! `{"ok": false, "error": {"code": "...", "message": "..."}}`. Errors are
//! ordinary values, never panics.

use vstd::prelude::*;

use crate::json::{obj, Json, JsonMap, JsonV, jv};
use crate::text::copy_str;

verus! {

/// The method named is not one the protocol knows.
pub const UNKNOWN_METHOD: &'static str = "unknown_method";

/// The payload is not JSON, or lacks a required field.
pub const BAD_PAYLOAD: &'static str = "bad_payload";

/// The library could not carry out the call.
pub const INTERNAL: &'static str = "internal";

/// A `grep` pattern is not a valid regular expression.
pub const BAD_PATTERN: &'static str = "bad_pattern";

/// `configure` named a model the library does not offer.
pub const BAD_MODEL: &'static str = "bad_model";

/// `get_segment` found no document with the requested id.
pub const NOT_FOUND: &'static str = "not_found";

/// `get_segment` addressed a document stored without its full text.
pub const NO_LINE_INDEX: &'static str = "no_line_index";

/// A structural error: `{"code": ..., "message": ...}`.
pub struct ErrorBody {
    pub code: &'static str,
    pub message: String,
}

/// The success or failure envelope of a call.
pub enum Envelope {
    Success { ok: bool, result: Json },
    Failure { ok: bool, error: ErrorBody },
}

/// The object an error body is written as.
pub open spec fn error_v(code: Seq<char>, message: Seq<char>) -> JsonV {
    obj(map!["code"@ => JsonV::Str(code), "message"@ => JsonV::Str(message)])
}

/// The object a success envelope with `result` is written as.
pub open spec fn ok_v(result: JsonV) -> JsonV {
    obj(map!["ok"@ => JsonV::Bool(true), "result"@ => result])
}

/// The object a failure envelope is written as.
pub open spec fn err_v(code: Seq<char>, message: Seq<char>) -> JsonV {
    obj(map!["ok"@ => JsonV::Bool(false), "error"@ => error_v(code, message)])
}

/// The object an envelope is written as.
pub open spec fn envelope_v(e: Envelope) -> JsonV {
    match e {
        Envelope::Success { ok, result } => obj(
            map!["ok"@ => JsonV::Bool(ok), "result"@ => jv(result)],
        ),
        Envelope::Failure { ok, error } => obj(
            map!["ok"@ => JsonV::Bool(ok), "error"@ => error_v(error.code@, error.message@)],
        ),
    }
}

impl Envelope {
    /// A success envelope: `{"ok": true, "result": <result>}`.
    pub fn ok(result: Json) -> (e: Envelope)
        ensures
            envelope_v(e) == ok_v(jv(result)),
            e matches Envelope::Success { ok, result: r } && ok && r == result,
    {
        Envelope::Success { ok: true, result }
    }

    /// A failure envelope: `{"ok": false, "error": {"code", "message"}}`.
    pub fn err(code: &'static str, message: String) -> (e: Envelope)
        ensures
            envelope_v(e) == err_v(code@, message@),
            e matches Envelope::Failure { ok, error } && !ok && error.code@ == code@
                && error.message@ == message@,
    {
        Envelope::Failure { ok: false, error: ErrorBody { code, message } }
    }

    /// The JSON object this envelope is written as.
    pub fn into_json(self) -> (j: Json)
        ensures
            jv(j) == envelope_v(self),
    {
        match self {
            Envelope::Success { ok, result } => {
                let mut m = JsonMap::new();
                m.set("ok", Json::Bool(ok));
                m.set("result", result);
                m.into_value()
            },
            Envelope::Failure { ok, error } => {
                let mut inner = JsonMap::new();
                inner.set("code", Json::Str(copy_str(error.code)));
                inner.set("message", Json::Str(error.message));
                let mut m = JsonMap::new();
                m.set("ok", Json::Bool(ok));
                m.set("error", inner.into_value());
                m.into_value()
            },
        }
    }
}

} // verus!
