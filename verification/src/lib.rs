//! Streams that arrive on a serial port. One frame is one Stream.
//!
//! A serial line has no message boundary of its own, so the boundary is
//! configured: a delimiter the frame ends with, a fixed length, or a length
//! the frame itself says. Everything between boundaries is the Stream; the
//! line's bytes are never interpreted here. No device is opened here either: a
//! port hands the bytes it reads to an [`Assembly`], and an in-memory line that
//! both ends of a loopback share stands in for a device on a box with no
//! serial stack at all.
//!
//! The origin URI is the port: `serial:///dev/ttyUSB0?baud=9600`.
//!
//! Two lines, one boundary. A protocol on a serial line — M-Bus, HART — writes
//! frames to a line and reads them from it; a port is one, and [`bus::Bus`] is
//! the other: a multi-drop bus in process, with addressed devices on it, for
//! every test and every box without a port.

pub mod bus;
pub mod bus_laws;
pub mod clock;
pub mod error;
pub mod framing;
pub mod laws;
pub mod shared;
pub mod text;
pub mod transport;

pub use error::{protocol_error, Error, Inside};
pub use framing::{read_frame, Assembly, Framing, Measure, Protocol, MAX_FRAME};
pub use transport::{Arrived, SerialTransport, Written};
