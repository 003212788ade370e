//! What can go wrong, and what is said about it.

use crate::text::joined;
use std::fmt::Display;
use vstd::prelude::*;
use vstd::string::*;

verus! {

/// The error of this library.
#[derive(Debug)]
pub enum SCuiseiError {
    Config(String),
    Io(String),
    Decode(String),
    Unsupported(String),
    Internal(String),
}

pub type SCuiseiResult<T> = std::result::Result<T, SCuiseiError>;

/// `anyhow::Error`, carried through; nothing is known of what it holds.
#[verifier::external_type_specification]
#[verifier::external_body]
pub struct ExAnyhowError(anyhow::Error);

/// `std::io::Error`, carried through; nothing is known of what it holds.
#[verifier::external_type_specification]
#[verifier::external_body]
pub struct ExIoError(std::io::Error);

/// `text` is what `value` displays as.
pub open spec fn displayed<T: Display + ?Sized>(value: &T, text: String) -> bool {
    to_string_from_display_ensures::<T>(value, text)
}

/// `message` is `context`, a colon, and what `error` displays as.
pub open spec fn in_context<T: Display>(message: Seq<char>, context: Seq<char>, error: &T) -> bool {
    exists|text: String| #[trigger]
        displayed(error, text) && message == context + ": "@ + text@
}

impl SCuiseiError {
    pub open spec fn message(self) -> Seq<char> {
        match self {
            SCuiseiError::Config(message) => message@,
            SCuiseiError::Io(message) => message@,
            SCuiseiError::Decode(message) => message@,
            SCuiseiError::Unsupported(message) => message@,
            SCuiseiError::Internal(message) => message@,
        }
    }

    /// Both errors are of the same category and say the same.
    pub open spec fn same_as(self, other: SCuiseiError) -> bool {
        &&& self is Config <==> other is Config
        &&& self is Io <==> other is Io
        &&& self is Decode <==> other is Decode
        &&& self is Unsupported <==> other is Unsupported
        &&& self is Internal <==> other is Internal
        &&& self.message() == other.message()
    }

    pub fn config(message: &str) -> (r: SCuiseiError)
        ensures
            r is Config,
            r.message() == message@,
    {
        SCuiseiError::Config(message.to_owned())
    }

    pub fn io_message(message: &str) -> (r: SCuiseiError)
        ensures
            r is Io,
            r.message() == message@,
    {
        SCuiseiError::Io(message.to_owned())
    }

    pub fn decode(message: &str) -> (r: SCuiseiError)
        ensures
            r is Decode,
            r.message() == message@,
    {
        SCuiseiError::Decode(message.to_owned())
    }

    pub fn unsupported(message: &str) -> (r: SCuiseiError)
        ensures
            r is Unsupported,
            r.message() == message@,
    {
        SCuiseiError::Unsupported(message.to_owned())
    }

    pub fn internal(message: &str) -> (r: SCuiseiError)
        ensures
            r is Internal,
            r.message() == message@,
    {
        SCuiseiError::Internal(message.to_owned())
    }

    /// A label for the variant that does not change.
    pub fn category(&self) -> (r: &'static str)
        ensures
            r@ == match *self {
                SCuiseiError::Config(_) => "config"@,
                SCuiseiError::Io(_) => "io"@,
                SCuiseiError::Decode(_) => "decode"@,
                SCuiseiError::Unsupported(_) => "unsupported"@,
                SCuiseiError::Internal(_) => "internal"@,
            },
    {
        match self {
            SCuiseiError::Config(_) => "config",
            SCuiseiError::Io(_) => "io",
            SCuiseiError::Decode(_) => "decode",
            SCuiseiError::Unsupported(_) => "unsupported",
            SCuiseiError::Internal(_) => "internal",
        }
    }

    /// What users are told.
    pub fn description(&self) -> (r: String)
        ensures
            r@ == match *self {
                SCuiseiError::Config(_) => "configuration error: "@,
                SCuiseiError::Io(_) => "input/output error: "@,
                SCuiseiError::Decode(_) => "decode error: "@,
                SCuiseiError::Unsupported(_) => "unsupported operation: "@,
                SCuiseiError::Internal(_) => "internal error: "@,
            } + self.message(),
    {
        match self {
            SCuiseiError::Config(message) => joined("configuration error: ", message),
            SCuiseiError::Io(message) => joined("input/output error: ", message),
            SCuiseiError::Decode(message) => joined("decode error: ", message),
            SCuiseiError::Unsupported(message) => joined("unsupported operation: ", message),
            SCuiseiError::Internal(message) => joined("internal error: ", message),
        }
    }

    pub fn io(context: &str, error: &std::io::Error) -> (r: SCuiseiError)
        ensures
            r is Io,
            in_context(r.message(), context@, error),
    {
        Self::io_with(context, error)
    }

    pub fn config_with<T: Display>(context: &str, error: &T) -> (r: SCuiseiError)
        ensures
            r is Config,
            in_context(r.message(), context@, error),
    {
        SCuiseiError::Config(Self::contextual_message(context, error))
    }

    pub fn io_with<T: Display>(context: &str, error: &T) -> (r: SCuiseiError)
        ensures
            r is Io,
            in_context(r.message(), context@, error),
    {
        SCuiseiError::Io(Self::contextual_message(context, error))
    }

    pub fn decode_with<T: Display>(context: &str, error: &T) -> (r: SCuiseiError)
        ensures
            r is Decode,
            in_context(r.message(), context@, error),
    {
        SCuiseiError::Decode(Self::contextual_message(context, error))
    }

    pub fn unsupported_with<T: Display>(context: &str, error: &T) -> (r: SCuiseiError)
        ensures
            r is Unsupported,
            in_context(r.message(), context@, error),
    {
        SCuiseiError::Unsupported(Self::contextual_message(context, error))
    }

    pub fn internal_with<T: Display>(context: &str, error: &T) -> (r: SCuiseiError)
        ensures
            r is Internal,
            in_context(r.message(), context@, error),
    {
        SCuiseiError::Internal(Self::contextual_message(context, error))
    }

    fn contextual_message<T: Display>(context: &str, error: &T) -> (r: String)
        ensures
            in_context(r@, context@, error),
    {
        let text = error.to_string();
        assert(displayed(error, text));
        let mut message = joined(context, ": ");
        message.append(text.as_str());
        message
    }
}

impl From<anyhow::Error> for SCuiseiError {
    fn from(value: anyhow::Error) -> (r: SCuiseiError)
        ensures
            r matches SCuiseiError::Internal(message) && displayed(&value, message),
    {
        SCuiseiError::Internal(value.to_string())
    }
}

impl vstd::std_specs::convert::FromSpecImpl<anyhow::Error> for SCuiseiError {
    /// What an outside error displays as is not a function that can be named here.
    open spec fn obeys_from_spec() -> bool {
        false
    }

    open spec fn from_spec(value: anyhow::Error) -> SCuiseiError {
        arbitrary()
    }
}

} // verus!
