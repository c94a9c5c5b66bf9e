//! A serial port and its loopback stand-in.

use std::time::Duration;
use vstd::prelude::*;

use crate::clock;
use crate::error::Error;
use crate::framing;
use crate::framing::{contains, read_frame, Boundary, Framing};
use crate::text;
use crate::text::decimal_text;

verus! {

/// One Stream that arrived, and where it came from.
#[derive(Debug, PartialEq, Eq)]
pub struct Arrived {
    /// The line the Stream came off.
    pub origin_uri: String,
    /// The Stream.
    pub bytes: Vec<u8>,
}

/// The origin URI of what comes off `port` at `baud`.
pub open spec fn origin_of(port: Seq<char>, baud: u32) -> Seq<char> {
    "serial://"@ + port + "?baud="@ + text::decimal(baud as nat)
}

/// The bytes of what arrived, or why nothing did.
pub open spec fn bytes_of(arrived: Result<Arrived, Error>) -> Result<Seq<u8>, Error> {
    match arrived {
        Ok(arrived) => Ok(arrived.bytes@),
        Err(error) => Err(error),
    }
}

/// Reading `frame` off an in-memory line takes its bytes off the line, and
/// leaves the line alone when there is no frame to read.
pub open spec fn comes_off(
    boundary: Boundary,
    before: Seq<u8>,
    frame: Result<Seq<u8>, Error>,
    after: Seq<u8>,
) -> bool {
    exists|taken: int| #[trigger]
        framing::reads(boundary, before, (frame, taken)) && after == if frame is Ok {
            before.skip(taken)
        } else {
            before
        }
}

/// `heard` is what a protocol that listens on an in-memory line may hear, and
/// `after` is how it leaves the line: nothing on it is silence, not a fault.
pub open spec fn hears(
    boundary: Boundary,
    before: Seq<u8>,
    heard: Result<Option<Seq<u8>>, Error>,
    after: Seq<u8>,
) -> bool {
    match heard {
        Ok(Some(frame)) => comes_off(boundary, before, Ok(frame), after),
        Ok(None) => before.len() == 0 && exists|error: Error| #[trigger]
            comes_off(boundary, before, Err(error), after),
        Err(error) => before.len() > 0 && comes_off(boundary, before, Err(error), after),
    }
}

/// The boundary that carries `payload` on a line framed at `boundary`: the
/// line's own, unless the payload holds the delimiter, when it is framed by
/// length instead.
pub open spec fn boundary_for(boundary: Boundary, payload: Seq<u8>) -> Boundary {
    match boundary {
        Boundary::Delimited(d) => if d.len() > 0 && framing::holds(payload, d) {
            Boundary::Fixed(payload.len())
        } else {
            boundary
        },
        _ => boundary,
    }
}

/// A [`SerialTransport`] as contracts speak of it.
pub struct Station {
    pub port: Seq<char>,
    pub baud: u32,
    pub boundary: Boundary,
    pub timeout: Duration,
    /// What is on the in-memory line, on a loopback.
    pub line: Option<Seq<u8>>,
}

impl Station {
    /// The same station with `line` on its in-memory line.
    pub open spec fn with_line(self, line: Seq<u8>) -> Station {
        Station { line: Some(line), ..self }
    }

    /// `arrived` is what one reading off this station may give, and `after` is
    /// how it leaves the station.
    pub open spec fn receives(self, arrived: Result<Arrived, Error>, after: Station) -> bool {
        match self.line {
            Some(line) => {
                &&& after == self.with_line(after.line->Some_0)
                &&& comes_off(self.boundary, line, bytes_of(arrived), after.line->Some_0)
                &&& arrived matches Ok(one) ==> one.origin_uri@ == origin_of(self.port, self.baud)
            },
            None => {
                &&& after == self
                &&& arrived matches Err(Error::NoPort(port)) && port@ == self.port
            },
        }
    }

    /// `heard` is what a protocol that listens on this station may hear, and
    /// `after` is how it leaves the station.
    pub open spec fn listens(
        self,
        heard: Result<Option<Seq<u8>>, Error>,
        after: Station,
    ) -> bool {
        match self.line {
            Some(line) => {
                &&& after == self.with_line(after.line->Some_0)
                &&& hears(self.boundary, line, heard, after.line->Some_0)
            },
            None => {
                &&& after == self
                &&& heard matches Err(Error::NoPort(port)) && port@ == self.port
            },
        }
    }

    /// `sent` is what comes of writing `bytes`, and `after` is how it leaves the
    /// station.
    pub open spec fn sends(self, bytes: Seq<u8>, sent: Result<(), Error>, after: Station) -> bool {
        match self.line {
            Some(line) => match framing::framed(self.boundary, bytes) {
                Ok(written) => sent is Ok && after == self.with_line(line + written),
                Err(error) => sent == Err::<(), Error>(error) && after == self,
            },
            None => {
                &&& after == self
                &&& sent matches Err(Error::NoPort(port)) && port@ == self.port
            },
        }
    }

    /// `arrived` is what may come of writing `payload` and reading one frame,
    /// both framed for the payload, and `after` is how it leaves the station.
    pub open spec fn rounds(
        self,
        payload: Seq<u8>,
        arrived: Result<Arrived, Error>,
        after: Station,
    ) -> bool {
        let boundary = boundary_for(self.boundary, payload);
        match self.line {
            Some(line) => match framing::framed(boundary, payload) {
                Ok(written) => {
                    &&& after == self.with_line(after.line->Some_0)
                    &&& comes_off(
                        boundary,
                        line + written,
                        bytes_of(arrived),
                        after.line->Some_0,
                    )
                    &&& arrived matches Ok(one) ==> one.origin_uri@ == origin_of(
                        self.port,
                        self.baud,
                    )
                },
                Err(error) => arrived == Err::<Arrived, Error>(error) && after == self,
            },
            None => arrived == Err::<Arrived, Error>(Error::NotLoopback) && after == self,
        }
    }
}

/// What a listener heard, with its bytes as a sequence.
pub open spec fn heard_of(heard: Result<Option<Vec<u8>>, Error>) -> Result<
    Option<Seq<u8>>,
    Error,
> {
    match heard {
        Ok(Some(frame)) => Ok(Some(frame@)),
        Ok(None) => Ok(None),
        Err(error) => Err(error),
    }
}

/// A serial port, or an in-memory line that stands in for one.
pub struct SerialTransport {
    port: String,
    baud: u32,
    framing: Framing,
    timeout: Duration,
    /// Set on a loopback: what one end wrote and the other has not read yet.
    line: Option<Vec<u8>>,
}

impl View for SerialTransport {
    type V = Station;

    closed spec fn view(&self) -> Station {
        Station {
            port: self.port@,
            baud: self.baud,
            boundary: self.framing@,
            timeout: self.timeout,
            line: match self.line {
                Some(line) => Some(line@),
                None => None,
            },
        }
    }
}

impl SerialTransport {
    /// `port` at `baud`, frames ending in `\r\n`.
    #[must_use]
    pub fn new<S: Into<String>>(port: S, baud: u32) -> (transport: Self)
        ensures
            text::turns_into(port, transport@.port),
            transport@.baud == baud,
            transport@.boundary == Boundary::Delimited(seq![13u8, 10u8]),
            clock::nanoseconds(transport@.timeout) == 5_000_000_000,
            transport@.line is None,
    {
        let delimiter: Vec<u8> = vec![13u8, 10u8];
        assert(delimiter@ =~= seq![13u8, 10u8]);
        SerialTransport {
            port: port.into(),
            baud,
            framing: Framing::Delimited(delimiter),
            timeout: Duration::from_secs(5),
            line: None,
        }
    }

    /// Frames end as `framing` says.
    #[must_use]
    pub fn framed(self, framing: Framing) -> (transport: Self)
        ensures
            transport@ == (Station { boundary: framing@, ..self@ }),
    {
        SerialTransport {
            port: self.port,
            baud: self.baud,
            framing,
            timeout: self.timeout,
            line: self.line,
        }
    }

    /// The device is waited for no longer than `timeout`.
    #[must_use]
    pub fn timing_out_after(self, timeout: Duration) -> (transport: Self)
        ensures
            transport@ == (Station { timeout, ..self@ }),
    {
        SerialTransport {
            port: self.port,
            baud: self.baud,
            framing: self.framing,
            timeout,
            line: self.line,
        }
    }

    /// Both ends on one in-memory line: frames close with end-of-transmission.
    /// How long the timeout is that stands where a device's would, is left
    /// open: nothing on the line waits for it.
    #[must_use]
    pub fn loopback() -> (transport: Self)
        ensures
            transport@.port == "loopback"@,
            transport@.baud == 9600,
            transport@.boundary == Boundary::Delimited(seq![4u8]),
            transport@.line == Some(Seq::<u8>::empty()),
    {
        let delimiter: Vec<u8> = vec![4u8];
        assert(delimiter@ =~= seq![4u8]);
        let mut transport = Self::new("loopback", 9600).framed(Framing::Delimited(delimiter));
        transport.line = Some(Vec::new());
        transport
    }

    /// The origin URI of what comes off this line.
    #[must_use]
    pub fn origin(&self) -> (uri: String)
        ensures
            uri@ == origin_of(self@.port, self@.baud),
    {
        let mut uri: String = String::from("serial://");
        uri.append(self.port.as_str());
        uri.append("?baud=");
        uri.append(decimal_text(self.baud as u64).as_str());
        uri
    }

    /// One frame from any bytes, framed as this port frames; `reader` is left
    /// at what comes after the bytes that were taken.
    ///
    /// # Errors
    /// As [`read_frame`].
    pub fn read_one(&self, reader: &mut &[u8]) -> (arrived: Result<Arrived, Error>)
        ensures
            final(reader)@.len() <= old(reader)@.len(),
            final(reader)@ == old(reader)@.skip(old(reader)@.len() - final(reader)@.len()),
            framing::reads(
                self@.boundary,
                old(reader)@,
                (bytes_of(arrived), old(reader)@.len() - final(reader)@.len()),
            ),
            arrived matches Ok(one) ==> one.origin_uri@ == origin_of(self@.port, self@.baud),
    {
        match read_frame(reader, &self.framing) {
            Ok(bytes) => Ok(Arrived { origin_uri: self.origin(), bytes }),
            Err(error) => Err(error),
        }
    }

    /// `bytes` as one frame on the line: the delimiter appended, or the fixed
    /// length enforced.
    ///
    /// # Errors
    /// A fixed-length frame of the wrong length.
    pub fn framed_bytes(&self, bytes: &[u8]) -> (framed: Result<Vec<u8>, Error>)
        ensures
            framing::seen(framed) == framing::framed(self@.boundary, bytes@),
    {
        match &self.framing {
            Framing::Delimited(delimiter) => {
                let mut out: Vec<u8> = vstd::slice::slice_to_vec(bytes);
                out.extend_from_slice(delimiter.as_slice());
                assert(out@ =~= bytes@ + delimiter@);
                Ok(out)
            },
            Framing::Fixed(length) => {
                if bytes.len() == *length {
                    Ok(vstd::slice::slice_to_vec(bytes))
                } else {
                    Err(Error::WrongLength { got: bytes.len(), framed: *length })
                }
            },
            Framing::Measured(_) => Ok(vstd::slice::slice_to_vec(bytes)),
        }
    }

    /// One frame off the in-memory line, the rest left for the next.
    ///
    /// # Errors
    /// As [`read_frame`]; the line is left as it was.
    pub fn read_line(&self, line: &mut Vec<u8>) -> (arrived: Result<Arrived, Error>)
        ensures
            comes_off(self@.boundary, old(line)@, bytes_of(arrived), final(line)@),
            arrived matches Ok(one) ==> one.origin_uri@ == origin_of(self@.port, self@.baud),
    {
        let mut reader: &[u8] = line.as_slice();
        let arrived = self.read_one(&mut reader);
        let taken: usize = line.len() - reader.len();
        assert(framing::reads(self@.boundary, old(line)@, (bytes_of(arrived), taken as int)));
        if arrived.is_ok() {
            let rest: Vec<u8> = line.split_off(taken);
            *line = rest;
        }
        arrived
    }

    /// `bytes` framed onto the in-memory line.
    ///
    /// # Errors
    /// As [`framed_bytes`](SerialTransport::framed_bytes); the line is left as
    /// it was.
    pub fn write_line(&self, line: &mut Vec<u8>, bytes: &[u8]) -> (written: Result<(), Error>)
        ensures
            match framing::framed(self@.boundary, bytes@) {
                Ok(framed) => written is Ok && final(line)@ == old(line)@ + framed,
                Err(error) => written == Err::<(), Error>(error) && final(line)@ == old(line)@,
            },
    {
        match self.framed_bytes(bytes) {
            Ok(framed) => {
                let mut framed: Vec<u8> = framed;
                line.append(&mut framed);
                Ok(())
            },
            Err(error) => Err(error),
        }
    }
}

impl SerialTransport {
    /// The device cannot be opened from here.
    fn no_port(&self) -> (error: Error)
        ensures
            error matches Error::NoPort(port) && port@ == self@.port,
    {
        Error::NoPort(self.port.clone())
    }

    /// The kind of transport this is.
    pub fn name(&self) -> (name: &'static str)
        ensures
            name@ == "serial"@,
    {
        "serial"
    }

    /// The port, by name.
    pub fn line_name(&self) -> (name: String)
        ensures
            name@ == self@.port,
    {
        self.port.clone()
    }

    /// How many symbols a second the port carries.
    pub fn baud(&self) -> (baud: u32)
        ensures
            baud == self@.baud,
    {
        self.baud
    }

    /// Where one frame ends.
    pub fn framing(&self) -> (framing: &Framing)
        ensures
            framing@ == self@.boundary,
    {
        &self.framing
    }

    /// How long the device is waited for.
    pub fn timeout(&self) -> (timeout: Duration)
        ensures
            timeout == self@.timeout,
    {
        self.timeout
    }

    /// The artefact that reading leaves to be claimed: a line has none.
    pub fn claims(&self) -> (claim: Option<String>)
        ensures
            claim is None,
    {
        None
    }

    /// The most that a payload may be on any line: a line names no such ceiling,
    /// its framing decides what it carries.
    pub fn ceiling(&self) -> (ceiling: Option<usize>)
        ensures
            ceiling is None,
    {
        None
    }

    /// Why `payload` is not to be sent: a line turns none away beforehand.
    pub fn refuses(&self, _payload: &[u8]) -> (reason: Option<Error>)
        ensures
            reason is None,
    {
        None
    }

    /// One frame off the in-memory line: one frame is one Stream.
    ///
    /// # Errors
    /// As [`read_line`](SerialTransport::read_line), or there is a device in
    /// place of a line.
    pub fn receive(&mut self) -> (received: Result<Vec<Arrived>, Error>)
        ensures
            match received {
                Ok(arrived) => arrived@.len() == 1 && old(self)@.receives(
                    Ok(arrived@[0]),
                    final(self)@,
                ),
                Err(error) => old(self)@.receives(Err(error), final(self)@),
            },
    {
        match self.line.take() {
            Some(line) => {
                let mut line: Vec<u8> = line;
                let arrived = self.read_line(&mut line);
                self.line = Some(line);
                match arrived {
                    Ok(one) => {
                        let mut all: Vec<Arrived> = Vec::new();
                        all.push(one);
                        Ok(all)
                    },
                    Err(error) => Err(error),
                }
            },
            None => Err(self.no_port()),
        }
    }

    /// `bytes` framed onto the in-memory line. A line has one far end, so there
    /// is no target to pick.
    ///
    /// # Errors
    /// As [`write_line`](SerialTransport::write_line), or there is a device in
    /// place of a line.
    pub fn send(&mut self, _target: &str, bytes: &[u8]) -> (sent: Result<(), Error>)
        ensures
            old(self)@.sends(bytes@, sent, final(self)@),
    {
        match self.line.take() {
            Some(line) => {
                let mut line: Vec<u8> = line;
                let written = self.write_line(&mut line, bytes);
                self.line = Some(line);
                written
            },
            None => Err(self.no_port()),
        }
    }

    /// A protocol's frame onto the line, as the protocol wrote it.
    ///
    /// # Errors
    /// As [`send`](SerialTransport::send).
    pub fn transmit(&mut self, frame: &[u8]) -> (sent: Result<(), Error>)
        ensures
            old(self)@.sends(frame@, sent, final(self)@),
    {
        self.send("", frame)
    }

    /// The next frame on `line`, framed as this port frames; `None` when there
    /// is nothing on it: that is silence, not a fault.
    ///
    /// # Errors
    /// As [`read_line`](SerialTransport::read_line), on a line with something
    /// on it.
    pub fn listen_line(&self, line: &mut Vec<u8>) -> (heard: Result<Option<Vec<u8>>, Error>)
        ensures
            hears(self@.boundary, old(line)@, heard_of(heard), final(line)@),
    {
        match self.read_line(line) {
            Ok(one) => Ok(Some(one.bytes)),
            Err(error) => {
                if line.is_empty() {
                    Ok(None)
                } else {
                    Err(error)
                }
            },
        }
    }

    /// The next frame on the line, framed as this port frames; `None` when an
    /// in-memory line has nothing on it.
    ///
    /// # Errors
    /// As [`receive`](SerialTransport::receive), on a line with something on it.
    pub fn listen(&mut self, _timeout: Duration) -> (heard: Result<Option<Vec<u8>>, Error>)
        ensures
            old(self)@.listens(heard_of(heard), final(self)@),
    {
        match self.line.take() {
            Some(line) => {
                let mut line: Vec<u8> = line;
                let heard = self.listen_line(&mut line);
                self.line = Some(line);
                heard
            },
            None => Err(self.no_port()),
        }
    }
}

impl SerialTransport {
    /// The framing that carries `payload`: this line's, unless the payload
    /// holds the delimiter, when it is framed by length instead — as a line
    /// with fixed records would be.
    pub fn framing_for(&self, payload: &[u8]) -> (framing: Framing)
        ensures
            framing@ == boundary_for(self@.boundary, payload@),
    {
        if let Framing::Delimited(delimiter) = &self.framing {
            if !delimiter.is_empty() && contains(payload, delimiter.as_slice()) {
                return Framing::Fixed(payload.len());
            }
        }
        self.framing.clone()
    }

    /// The other end of this line, for one frame to be taken off it.
    ///
    /// # Errors
    /// There is a device in place of a line.
    pub fn far_end(&self) -> (far: Result<Written, Error>)
        ensures
            match far {
                Ok(far) => self@.line is Some && far.port@ == self@.port,
                Err(error) => self@.line is None && error == Error::NotLoopback,
            },
    {
        if self.line.is_none() {
            return Err(Error::NotLoopback);
        }
        Ok(Written { port: self.port.clone() })
    }

    /// `payload` framed onto the line, for its far end.
    ///
    /// # Errors
    /// As [`send`](SerialTransport::send).
    pub fn send_to(&mut self, address: &str, payload: &[u8]) -> (sent: Result<(), Error>)
        ensures
            old(self)@.sends(payload@, sent, final(self)@),
    {
        self.send(address, payload)
    }

    /// `payload` written to `line` and read back, both ends framed for this
    /// payload: the write goes first and the read finds it.
    ///
    /// # Errors
    /// The line does not carry the payload.
    pub fn round_line(&self, line: &mut Vec<u8>, payload: &[u8]) -> (arrived: Result<
        Arrived,
        Error,
    >)
        ensures
            match framing::framed(boundary_for(self@.boundary, payload@), payload@) {
                Ok(written) => {
                    &&& comes_off(
                        boundary_for(self@.boundary, payload@),
                        old(line)@ + written,
                        bytes_of(arrived),
                        final(line)@,
                    )
                    &&& arrived matches Ok(one) ==> one.origin_uri@ == origin_of(
                        self@.port,
                        self@.baud,
                    )
                },
                Err(error) => arrived == Err::<Arrived, Error>(error) && final(line)@ == old(
                    line,
                )@,
            },
    {
        let ends = SerialTransport {
            port: self.port.clone(),
            baud: self.baud,
            framing: self.framing_for(payload),
            timeout: self.timeout,
            line: None,
        };
        match ends.write_line(line, payload) {
            Ok(()) => ends.read_line(line),
            Err(error) => Err(error),
        }
    }

    /// `payload` written to the line and read back, both ends framed for this
    /// payload.
    ///
    /// # Errors
    /// There is a device in place of a line, or the line does not carry the
    /// payload.
    pub fn round(&mut self, payload: &[u8]) -> (arrived: Result<Arrived, Error>)
        ensures
            old(self)@.rounds(payload@, arrived, final(self)@),
    {
        match self.line.take() {
            Some(line) => {
                let mut line: Vec<u8> = line;
                let arrived = self.round_line(&mut line, payload);
                self.line = Some(line);
                arrived
            },
            None => Err(Error::NotLoopback),
        }
    }
}

/// The line one frame was written to. Nothing waits: the round is in order.
pub struct Written {
    pub port: String,
}

impl Written {
    /// The line, by name.
    pub fn address(&self) -> (address: &str)
        ensures
            address@ == self.port@,
    {
        self.port.as_str()
    }

    /// The frame that comes off `line` next.
    ///
    /// # Errors
    /// As [`SerialTransport::receive`].
    pub fn take_one(self, line: &mut SerialTransport) -> (arrived: Result<Arrived, Error>)
        ensures
            old(line)@.receives(arrived, final(line)@),
    {
        match line.receive() {
            Ok(arrived) => {
                let mut arrived: Vec<Arrived> = arrived;
                Ok(arrived.swap_remove(0))
            },
            Err(error) => Err(error),
        }
    }
}

} // verus!
