//! Error types of the library and their text.
use vstd::prelude::*;

use crate::text::{decimal_chars, decimal_string, push_char, push_str, string_from};

verus! {

/// Error type for DBC operations.
#[derive(Debug, PartialEq, Clone)]
pub enum Error {
    /// Unexpected end of input encountered.
    UnexpectedEof,
    /// Expected a specific token or value.
    Expected(&'static str),
    /// Invalid character encountered.
    InvalidChar(char),
    /// String length exceeds the maximum allowed length.
    MaxStrLength(usize),
    /// Version-related error.
    Version(&'static str),
    /// Message-related error.
    Message(&'static str),
    /// Receivers-related error.
    Receivers(&'static str),
    /// Nodes-related error.
    Nodes(&'static str),
    /// Signal-related error.
    Signal(&'static str),
    /// Decoding-related error.
    Decoding(&'static str),
    /// Validation-related error.
    Validation(&'static str),
}

/// Result type alias for operations that can return an `Error`.
pub type Result<T> = core::result::Result<T, Error>;

impl Error {
    pub const UNEXPECTED_EOF: &'static str = "Unexpected end of input";
    pub const EXPECTED_WHITESPACE: &'static str = "Expected whitespace";
    pub const EXPECTED_PATTERN: &'static str = "Expected pattern";
    pub const EXPECTED_KEYWORD: &'static str = "Expected keyword";
    pub const EXPECTED_NUMBER: &'static str = "Expected number";
    pub const EXPECTED_IDENTIFIER: &'static str = "Expected identifier";
    pub const INVALID_UTF8: &'static str = "Invalid UTF-8";
    pub const INVALID_NUMBER_FORMAT: &'static str = "Invalid number format";
    pub const PARSE_NUMBER_FAILED: &'static str = "Failed to parse number";
    pub const INVALID_CHARACTER: &'static str = "Invalid character";
    pub const STRING_LENGTH_EXCEEDS_MAX: &'static str = "String length exceeds maximum";
    pub const MAX_NAME_SIZE_EXCEEDED: &'static str = "Exceeded the maximum name length";
    pub const DECODING_ERROR_PREFIX: &'static str = "Decoding Error";
    pub const VALIDATION_ERROR_PREFIX: &'static str = "Validation Error";
    pub const VERSION_ERROR_PREFIX: &'static str = "Version error";
    pub const MESSAGE_ERROR_PREFIX: &'static str = "Message error";
    pub const RECEIVERS_ERROR_PREFIX: &'static str = "Receivers error";
    pub const NODES_ERROR_PREFIX: &'static str = "Nodes error";
    pub const SIGNAL_ERROR_PREFIX: &'static str = "Signal error";
    pub const SIGNAL_PARSE_INVALID_START_BIT: &'static str = "Invalid start_bit";
    pub const SIGNAL_PARSE_INVALID_LENGTH: &'static str = "Invalid length";
    pub const SIGNAL_PARSE_INVALID_FACTOR: &'static str = "Invalid factor";
    pub const SIGNAL_PARSE_INVALID_OFFSET: &'static str = "Invalid offset";
    pub const SIGNAL_PARSE_INVALID_MIN: &'static str = "Invalid min";
    pub const SIGNAL_PARSE_INVALID_MAX: &'static str = "Invalid max";
    pub const SIGNAL_PARSE_UNIT_TOO_LONG: &'static str =
        "Unit string exceeds maximum length of 256 characters";
    pub const SIGNAL_NAME_EMPTY: &'static str = "Signal name cannot be empty";
    pub const SIGNAL_LENGTH_TOO_SMALL: &'static str = "Signal length must be at least 1 bit";
    pub const SIGNAL_LENGTH_TOO_LARGE: &'static str =
        "Signal length cannot exceed 512 bits (CAN FD maximum)";
    pub const SIGNAL_LENGTH_REQUIRED: &'static str = "length is required";
    pub const SIGNAL_START_BIT_REQUIRED: &'static str = "start_bit is required";
    pub const SIGNAL_OVERLAP: &'static str = "Signals overlap within message";
    pub const SIGNAL_EXTENDS_BEYOND_MESSAGE: &'static str =
        "Signal extends beyond message boundary";
    pub const SIGNAL_EXTENDS_BEYOND_DATA: &'static str = "Signal extends beyond message data";
    pub const SIGNAL_RECEIVERS_TOO_MANY: &'static str =
        "Too many receiver nodes: maximum allowed is 255 per signal";
    pub const NODES_DUPLICATE_NAME: &'static str = "Duplicate node name";
    pub const NODES_TOO_MANY: &'static str = "Too many nodes: maximum allowed is 256";
    pub const DUPLICATE_MESSAGE_ID: &'static str = "Duplicate message ID";
    pub const SENDER_NOT_IN_NODES: &'static str = "Message sender not in nodes list";
    pub const INVALID_RANGE: &'static str = "Invalid range: min > max";
    pub const MESSAGE_TOO_MANY_SIGNALS: &'static str =
        "Too many signals: maximum allowed is 256 per message";
    pub const EXTENDED_MULTIPLEXING_TOO_MANY: &'static str =
        "Too many extended multiplexing entries: maximum allowed is 512 per DBC file";
    pub const MESSAGE_NAME_EMPTY: &'static str = "Message name cannot be empty";
    pub const MESSAGE_SENDER_EMPTY: &'static str = "Message sender cannot be empty";
    pub const MESSAGE_DLC_TOO_SMALL: &'static str = "Message DLC must be at least 1 byte";
    pub const MESSAGE_DLC_TOO_LARGE: &'static str =
        "Message DLC cannot exceed 64 bytes (CAN FD maximum)";
    pub const MESSAGE_DLC_REQUIRED: &'static str = "dlc is required";
    pub const MESSAGE_ID_OUT_OF_RANGE: &'static str = "Message ID out of valid range";
    pub const MESSAGE_ID_REQUIRED: &'static str = "id is required";
    pub const MESSAGE_INVALID_ID: &'static str = "Invalid message ID";
    pub const MESSAGE_INVALID_DLC: &'static str = "Invalid DLC";
    pub const MESSAGE_NOT_FOUND: &'static str = "Message ID not found in database";
    pub const PAYLOAD_LENGTH_MISMATCH: &'static str = "Payload length does not match message DLC";
    pub const MULTIPLEXER_SWITCH_NEGATIVE: &'static str =
        "Multiplexer switch value cannot be negative";
    pub const RECEIVERS_DUPLICATE_NAME: &'static str = "Duplicate Receiver name";
    pub const VALUE_DESCRIPTION_MESSAGE_NOT_FOUND: &'static str =
        "Value description references non-existent message";
    pub const VALUE_DESCRIPTION_SIGNAL_NOT_FOUND: &'static str =
        "Value description references non-existent signal";
    pub const VALUE_DESCRIPTIONS_TOO_MANY: &'static str =
        "Too many value descriptions: maximum allowed is 64";

    /// The text of the error: the variant's label followed by its detail.
    pub open spec fn spec_text(&self) -> Seq<char> {
        match *self {
            Error::UnexpectedEof => Error::UNEXPECTED_EOF@,
            Error::Expected(msg) => "Expected "@ + msg@,
            Error::InvalidChar(c) => Error::INVALID_CHARACTER@ + ": "@ + seq![c],
            Error::MaxStrLength(max) => Error::STRING_LENGTH_EXCEEDS_MAX@ + ": "@ + decimal_chars(
                max as nat,
            ),
            Error::Version(msg) => Error::VERSION_ERROR_PREFIX@ + ": "@ + msg@,
            Error::Message(msg) => Error::MESSAGE_ERROR_PREFIX@ + ": "@ + msg@,
            Error::Receivers(msg) => Error::RECEIVERS_ERROR_PREFIX@ + ": "@ + msg@,
            Error::Nodes(msg) => Error::NODES_ERROR_PREFIX@ + ": "@ + msg@,
            Error::Signal(msg) => Error::SIGNAL_ERROR_PREFIX@ + ": "@ + msg@,
            Error::Decoding(msg) => Error::DECODING_ERROR_PREFIX@ + ": "@ + msg@,
            Error::Validation(msg) => Error::VALIDATION_ERROR_PREFIX@ + ": "@ + msg@,
        }
    }

    /// Renders the error as text.
    pub fn to_string(&self) -> (s: String)
        ensures
            s@ == self.spec_text(),
    {
        match self {
            Error::UnexpectedEof => string_from(Error::UNEXPECTED_EOF),
            Error::Expected(msg) => {
                let mut s = string_from("Expected ");
                push_str(&mut s, msg);
                s
            },
            Error::InvalidChar(c) => {
                let mut s = string_from(Error::INVALID_CHARACTER);
                push_str(&mut s, ": ");
                push_char(&mut s, *c);
                s
            },
            Error::MaxStrLength(max) => {
                let mut s = string_from(Error::STRING_LENGTH_EXCEEDS_MAX);
                push_str(&mut s, ": ");
                let d = decimal_string(*max as u64);
                push_str(&mut s, d.as_str());
                s
            },
            Error::Version(msg) => prefixed(Error::VERSION_ERROR_PREFIX, msg),
            Error::Message(msg) => prefixed(Error::MESSAGE_ERROR_PREFIX, msg),
            Error::Receivers(msg) => prefixed(Error::RECEIVERS_ERROR_PREFIX, msg),
            Error::Nodes(msg) => prefixed(Error::NODES_ERROR_PREFIX, msg),
            Error::Signal(msg) => prefixed(Error::SIGNAL_ERROR_PREFIX, msg),
            Error::Decoding(msg) => prefixed(Error::DECODING_ERROR_PREFIX, msg),
            Error::Validation(msg) => prefixed(Error::VALIDATION_ERROR_PREFIX, msg),
        }
    }
}

/// `prefix`, a colon, a space and `msg`.
fn prefixed(prefix: &str, msg: &str) -> (s: String)
    ensures
        s@ == prefix@ + ": "@ + msg@,
{
    let mut s = string_from(prefix);
    push_str(&mut s, ": ");
    push_str(&mut s, msg);
    s
}

/// Low-level parsing error.
#[derive(Debug, PartialEq, Clone, Copy)]
pub enum ParseError {
    /// Unexpected end of input encountered.
    UnexpectedEof,
    /// Expected a specific token or value.
    Expected(&'static str),
    /// Invalid character encountered.
    InvalidChar(char),
    /// String length exceeds the maximum allowed length.
    MaxStrLength(usize),
    /// Version-related parse error.
    Version(&'static str),
    /// Message-related parse error.
    Message(&'static str),
    /// Receivers-related parse error.
    Receivers(&'static str),
    /// Nodes-related parse error.
    Nodes(&'static str),
    /// Signal-related parse error.
    Signal(&'static str),
}

impl ParseError {
    /// The corresponding library error: the variant of the same name with the same detail.
    pub open spec fn spec_to_error(self) -> Error {
        match self {
            ParseError::UnexpectedEof => Error::UnexpectedEof,
            ParseError::Expected(m) => Error::Expected(m),
            ParseError::InvalidChar(c) => Error::InvalidChar(c),
            ParseError::MaxStrLength(n) => Error::MaxStrLength(n),
            ParseError::Version(m) => Error::Version(m),
            ParseError::Message(m) => Error::Message(m),
            ParseError::Receivers(m) => Error::Receivers(m),
            ParseError::Nodes(m) => Error::Nodes(m),
            ParseError::Signal(m) => Error::Signal(m),
        }
    }

    /// Converts to the library error of the same variant.
    pub fn to_error(self) -> (e: Error)
        ensures
            e == self.spec_to_error(),
    {
        match self {
            ParseError::UnexpectedEof => Error::UnexpectedEof,
            ParseError::Expected(m) => Error::Expected(m),
            ParseError::InvalidChar(c) => Error::InvalidChar(c),
            ParseError::MaxStrLength(n) => Error::MaxStrLength(n),
            ParseError::Version(m) => Error::Version(m),
            ParseError::Message(m) => Error::Message(m),
            ParseError::Receivers(m) => Error::Receivers(m),
            ParseError::Nodes(m) => Error::Nodes(m),
            ParseError::Signal(m) => Error::Signal(m),
        }
    }

    /// The text of the error; the same text as the library error of the same variant.
    pub open spec fn spec_text(self) -> Seq<char> {
        self.spec_to_error().spec_text()
    }

    /// Renders the error as text.
    pub fn to_string(&self) -> (s: String)
        ensures
            s@ == self.spec_text(),
    {
        self.to_error().to_string()
    }
}

/// `Some(err)` when `len` exceeds `max`, else `None`.
pub fn check_max_limit(len: usize, max: usize, err: Error) -> (r: Option<Error>)
    ensures
        r == (if len > max {
            Some(err)
        } else {
            None
        }),
{
    if len > max {
        Some(err)
    } else {
        None
    }
}

/// Maps a validation error through `variant`, and any other error to `fallback()`.
pub fn map_val_error<F, G>(err: Error, variant: F, fallback: G) -> (r: Error) where
    F: FnOnce(&'static str) -> Error,
    G: FnOnce() -> Error,

    requires
        err matches Error::Validation(msg) ==> variant.requires((msg,)),
        !(err is Validation) ==> fallback.requires(()),
    ensures
        err matches Error::Validation(msg) ==> variant.ensures((msg,), r),
        !(err is Validation) ==> fallback.ensures((), r),
{
    match err {
        Error::Validation(msg) => variant(msg),
        _ => fallback(),
    }
}

/// Declares `core::num::ParseIntError`, whose values convert into `Error`; Verus sees nothing inside it.
#[verifier::external_type_specification]
#[verifier::external_body]
pub struct ExParseIntError(core::num::ParseIntError);

impl From<core::num::ParseIntError> for Error {
    fn from(_err: core::num::ParseIntError) -> (e: Error) {
        Error::Expected(Error::PARSE_NUMBER_FAILED)
    }
}

impl vstd::std_specs::convert::FromSpecImpl<core::num::ParseIntError> for Error {
    open spec fn obeys_from_spec() -> bool {
        true
    }

    open spec fn from_spec(v: core::num::ParseIntError) -> Error {
        Error::Expected(Error::PARSE_NUMBER_FAILED)
    }
}

} // verus!
