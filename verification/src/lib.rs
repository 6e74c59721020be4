//! A verified reader and writer for CAN database (DBC) files.
pub mod error;
pub mod bit_order_laws;
pub mod extended_multiplexing;
pub mod kernel_mock;
pub mod message;
pub mod message_laws;
pub mod messages;
pub mod nodes;
pub mod nodes_laws;
pub mod parse_options;
pub mod parser;
pub mod receivers;
pub mod receivers_laws;
pub mod signal;
pub mod signal_group;
pub mod signal_laws;
pub mod signal_type;
pub mod text;

pub use error::{Error, ParseError, Result};
pub use extended_multiplexing::{ExtendedMultiplexing, ExtendedMultiplexingBuilder};
pub use nodes::{Nodes, NodesBuilder};
pub use parse_options::ParseOptions;
pub use parser::Parser;
pub use receivers::{Receivers, ReceiversBuilder};
pub use signal::ByteOrder;
pub use signal_group::{MessageTransmitter, SignalGroup};

use vstd::string::StringSliceAdditionalSpecFns;

use vstd::prelude::*;

verus! {

/// Maximum number of nodes in a `BU_` statement.
pub const MAX_NODES: usize = 256;

/// Maximum number of receiver nodes of one signal.
pub const MAX_RECEIVER_NODES: usize = 255;

/// Maximum length, in bytes, of a name (node, message, signal, unit).
pub const MAX_NAME_SIZE: usize = 64;

/// Maximum number of signals in one message.
pub const MAX_SIGNALS_PER_MESSAGE: usize = 256;

/// Keyword that opens the node list.
pub const BU_: &'static str = "BU_";

/// Keyword that opens a message definition.
pub const BO_: &'static str = "BO_";

/// Keyword that opens a signal definition.
pub const SG_: &'static str = "SG_";

/// Keyword that opens the version statement.
pub const VERSION: &'static str = "VERSION";

/// A name as an owned string; a name longer than `MAX_NAME_SIZE` bytes is
/// refused with `Expected(MAX_NAME_SIZE_EXCEEDED)`.
pub fn validate_name(name: &str) -> (r: Result<String>)
    ensures
        name.spec_bytes().len() > MAX_NAME_SIZE ==> r == Err::<String, Error>(
            Error::Expected(Error::MAX_NAME_SIZE_EXCEEDED),
        ),
        name.spec_bytes().len() <= MAX_NAME_SIZE ==> (r matches Ok(s) && s@ == name@),
{
    if name.as_bytes().len() > MAX_NAME_SIZE {
        return Err(Error::Expected(Error::MAX_NAME_SIZE_EXCEEDED));
    }
    Ok(name.to_owned())
}

} // verus!
