//! The message model: byte orders, message kinds, object paths and messages.
use vstd::prelude::*;

pub mod marshal;
pub mod message_builder;
pub mod nesting;
pub mod parameters;
pub mod path;
pub mod round_trip;
pub mod standard_messages;
pub mod unsafe_wrapper;
pub mod wire_format;

verus! {

/// The byte order of a message.
#[derive(Clone, Copy, Debug, PartialEq, Eq, Structural)]
pub enum ByteOrder {
    LittleEndian,
    BigEndian,
}

/// The kind of a message.
#[derive(Clone, Copy, Debug, PartialEq, Eq, Structural)]
pub enum MessageType {
    Signal,
    Error,
    Call,
    Reply,
    Invalid,
}

/// The serial number of a message, which is never zero.
#[derive(Clone, Copy, Debug, PartialEq, Eq, Hash)]
pub struct Serial {
    value: u32,
}

impl View for Serial {
    type V = u32;

    closed spec fn view(&self) -> u32 {
        self.value
    }
}

/// The number that follows `serial`, where zero is skipped.
pub open spec fn serial_after(serial: u32) -> u32 {
    if serial == u32::MAX {
        1
    } else {
        (serial + 1) as u32
    }
}

impl Serial {
    #[verifier::type_invariant]
    spec fn inv(self) -> bool {
        self.value != 0
    }

    /// `None` where `value` is zero.
    pub fn new(value: u32) -> (serial: Option<Serial>)
        ensures
            match serial {
                Some(serial) => serial@ == value && value != 0,
                None => value == 0,
            },
    {
        if value == 0 {
            None
        } else {
            Some(Serial { value })
        }
    }

    /// The serial that numbering starts with.
    pub fn first() -> (serial: Serial)
        ensures
            serial@ == 1,
    {
        Serial { value: 1 }
    }

    /// The serial that follows this one. Zero is skipped.
    pub fn next(&self) -> (serial: Serial)
        ensures
            serial@ == serial_after(self@),
    {
        if self.value == u32::MAX {
            Serial { value: 1 }
        } else {
            Serial { value: self.value + 1 }
        }
    }

    pub fn get(&self) -> (value: u32)
        ensures
            value == self@,
            value != 0,
    {
        proof {
            use_type_invariant(self);
        }
        self.value
    }
}

} // verus!
