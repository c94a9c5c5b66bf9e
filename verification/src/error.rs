//! What can go wrong on a serial line, and how it is said.

use vstd::prelude::*;

use crate::text;
use crate::text::decimal_text;

verus! {

/// The kind of frame a line was in the middle of.
#[derive(Clone, Copy, Debug, PartialEq, Eq)]
pub enum Inside {
    /// A frame of a fixed length.
    Fixed,
    /// A frame that says its own length.
    Measured,
    /// A frame that ends with a delimiter.
    Delimited,
}

/// Why a frame did not cross the line.
#[derive(Debug, PartialEq, Eq)]
pub enum Error {
    /// A protocol, or a device that speaks one, refused what it was given.
    Protocol(String),
    /// The line is framed by a delimiter of no bytes.
    EmptyDelimiter,
    /// The line closed inside a frame.
    Closed(Inside),
    /// The frame is over the size that will be read.
    Oversize,
    /// A frame of `got` bytes on a line whose every frame has `framed`.
    WrongLength { got: usize, framed: usize },
    /// There is no serial stack to open the named port with: the library on its
    /// own opens none.
    NoPort(String),
    /// The line is held in a break condition.
    Break,
    /// A device was asked for what only a loopback line can do.
    NotLoopback,
}

/// A protocol's own complaint, in its own words.
pub fn protocol_error<S: Into<String>>(what: S) -> (error: Error)
    ensures
        error matches Error::Protocol(said) && text::turns_into(what, said@),
{
    Error::Protocol(what.into())
}

impl Error {
    /// What [`message`](Error::message) says.
    pub open spec fn said(self) -> Seq<char> {
        match self {
            Error::Protocol(what) => what@,
            Error::EmptyDelimiter => "an empty delimiter"@,
            Error::Closed(Inside::Fixed) => "reading a fixed frame"@,
            Error::Closed(Inside::Measured) => "reading a measured frame"@,
            Error::Closed(Inside::Delimited) => "the line closed inside a frame"@,
            Error::Oversize => "a frame over the size Xmip will read"@,
            Error::WrongLength { got, framed } => "a frame of "@ + text::decimal(got as nat)
                + " bytes on a line framed at "@ + text::decimal(framed as nat),
            Error::NoPort(port) =>
                "built without the port feature: no serial stack on this box for "@ + port@,
            Error::Break => "a break condition on the line"@,
            Error::NotLoopback => "a device, not a loopback line"@,
        }
    }

    /// The error in words.
    pub fn message(&self) -> (text: String)
        ensures
            text@ == self.said(),
    {
        match self {
            Error::Protocol(what) => what.clone(),
            Error::EmptyDelimiter => String::from("an empty delimiter"),
            Error::Closed(Inside::Fixed) => String::from("reading a fixed frame"),
            Error::Closed(Inside::Measured) => String::from("reading a measured frame"),
            Error::Closed(Inside::Delimited) => String::from("the line closed inside a frame"),
            Error::Oversize => String::from("a frame over the size Xmip will read"),
            Error::WrongLength { got, framed } => {
                let mut text: String = String::from("a frame of ");
                text.append(decimal_text(*got as u64).as_str());
                text.append(" bytes on a line framed at ");
                text.append(decimal_text(*framed as u64).as_str());
                text
            },
            Error::NoPort(port) => {
                let mut text: String = String::from(
                    "built without the port feature: no serial stack on this box for ",
                );
                text.append(port.as_str());
                text
            },
            Error::Break => String::from("a break condition on the line"),
            Error::NotLoopback => String::from("a device, not a loopback line"),
        }
    }
}

} // verus!
