//! The data model: wire values, errors, operations and parsed requests.
pub mod codec;
pub mod redis_type;
pub mod request;

pub use redis_type::shapes_of;
pub use redis_type::RedisType;
pub use redis_type::ValueView;
pub use request::RedisRequest;
pub use request::RequestView;
pub use request::spec_parse_request;
pub use request::spec_verb;

use vstd::prelude::*;
use vstd::string::StringExecFns;

verus! {

/// Text payload of a wire value.
pub type StringType = String;

/// Integer payload of a wire value: 128-bit signed.
pub type IntegerType = i128;

/// Payload of the event-channel marker.
pub type EventChannelType = ();

/// Payload of an array value: an ordered sequence of values.
pub type ArrayType = Vec<RedisType>;

/// The error type of the library.
///
/// `ParseFailed` reports a malformed or empty line, or a non-numeric
/// integer field; `Custom` carries the text of any other failure.
#[derive(Clone, Debug, PartialEq, Eq)]
pub enum RedisError {
    ParseFailed,
    Custom(String),
}

/// Spec-level shape of a `RedisError`.
pub enum ErrorView {
    ParseFailed,
    Custom(Seq<char>),
}

impl DeepView for RedisError {
    type V = ErrorView;

    open spec fn deep_view(&self) -> ErrorView {
        match self {
            RedisError::ParseFailed => ErrorView::ParseFailed,
            RedisError::Custom(s) => ErrorView::Custom(s@),
        }
    }
}

/// The operation a request asks for.
#[derive(Clone, Copy, Debug, PartialEq, Eq, Structural)]
pub enum RedisOp {
    Add,
    Get,
    Delete,
    Ping,
    Error,
}

impl From<String> for RedisError {
    fn from(err: String) -> (r: RedisError)
        ensures
            r == RedisError::Custom(err),
    {
        RedisError::Custom(err)
    }
}

impl vstd::std_specs::convert::FromSpecImpl<String> for RedisError {
    open spec fn obeys_from_spec() -> bool {
        true
    }

    open spec fn from_spec(err: String) -> RedisError {
        RedisError::Custom(err)
    }
}

impl RedisError {
    /// The error's text, as the original wire peer would see it.
    pub fn message(&self) -> (s: String)
        ensures
            self is ParseFailed ==> s@ == "Parse failed"@,
            self matches RedisError::Custom(t) ==> s@ == t@,
    {
        match self {
            RedisError::ParseFailed => String::from_str("Parse failed"),
            RedisError::Custom(t) => t.clone(),
        }
    }
}

} // verus!
