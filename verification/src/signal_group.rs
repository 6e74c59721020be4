//! Signal groups (`SIG_GROUP_`) and message transmitters (`BO_TX_BU_`).
use vstd::prelude::*;

use crate::nodes::string_views;

verus! {

/// A named group of related signals of one message.
#[derive(Debug, Clone, PartialEq)]
pub struct SignalGroup {
    message_id: u32,
    signal_group_name: String,
    repetitions: u32,
    signal_names: Vec<String>,
}

impl View for SignalGroup {
    type V = (u32, Seq<char>, u32, Seq<Seq<char>>);

    closed spec fn view(&self) -> (u32, Seq<char>, u32, Seq<Seq<char>>) {
        (
            self.message_id,
            self.signal_group_name@,
            self.repetitions,
            string_views(self.signal_names@),
        )
    }
}

impl SignalGroup {
    /// The group `signal_group_name` of message `message_id`, repeated
    /// `repetitions` times, holding the signals named `signal_names`.
    pub fn new(
        message_id: u32,
        signal_group_name: String,
        repetitions: u32,
        signal_names: Vec<String>,
    ) -> (r: Self)
        ensures
            r@ == (message_id, signal_group_name@, repetitions, string_views(signal_names@)),
    {
        SignalGroup { message_id, signal_group_name, repetitions, signal_names }
    }

    /// The message the group belongs to.
    pub fn message_id(&self) -> (r: u32)
        ensures
            r == self@.0,
    {
        self.message_id
    }

    /// The group's name.
    pub fn signal_group_name(&self) -> (r: &str)
        ensures
            r@ == self@.1,
    {
        self.signal_group_name.as_str()
    }

    /// How often the group repeats.
    pub fn repetitions(&self) -> (r: u32)
        ensures
            r == self@.2,
    {
        self.repetitions
    }

    /// The names of the group's signals.
    pub fn signal_names(&self) -> (r: &[String])
        ensures
            string_views(r@) == self@.3,
    {
        self.signal_names.as_slice()
    }
}

/// The nodes that transmit a message, for protocols above CAN layer 2.
#[derive(Debug, Clone, PartialEq)]
pub struct MessageTransmitter {
    message_id: u32,
    transmitters: Vec<String>,
}

impl View for MessageTransmitter {
    type V = (u32, Seq<Seq<char>>);

    closed spec fn view(&self) -> (u32, Seq<Seq<char>>) {
        (self.message_id, string_views(self.transmitters@))
    }
}

impl MessageTransmitter {
    /// The transmitters `transmitters` of message `message_id`.
    pub fn new(message_id: u32, transmitters: Vec<String>) -> (r: Self)
        ensures
            r@ == (message_id, string_views(transmitters@)),
    {
        MessageTransmitter { message_id, transmitters }
    }

    /// The message that is transmitted.
    pub fn message_id(&self) -> (r: u32)
        ensures
            r == self@.0,
    {
        self.message_id
    }

    /// The names of the transmitting nodes.
    pub fn transmitters(&self) -> (r: &[String])
        ensures
            string_views(r@) == self@.1,
    {
        self.transmitters.as_slice()
    }
}

} // verus!
