use std::time::Duration;

use serial::{
    protocol_error, read_frame, Assembly, Error, Framing, Inside, Measure, Protocol,
    SerialTransport, MAX_FRAME,
};

#[test]
fn delimited_frames_end_at_the_delimiter_and_keep_partial_matches() {
    let line = SerialTransport::new("COM3", 9600);
    let mut reader = &b"first\r\nsec\rond\r\n"[..];
    assert_eq!(line.read_one(&mut reader).expect("frame").bytes, b"first");
    assert_eq!(
        line.read_one(&mut reader).expect("frame").bytes,
        b"sec\rond"
    );
    assert!(line.read_one(&mut reader).is_err(), "the line closed");
    assert_eq!(line.framed_bytes(b"go").expect("framed"), b"go\r\n");
    assert_eq!(line.origin(), "serial://COM3?baud=9600");
}

#[test]
fn fixed_frames_are_exactly_their_length() {
    let line = SerialTransport::new("/dev/ttyUSB0", 115_200).framed(Framing::Fixed(4));
    let mut reader = &b"abcdefgh"[..];
    assert_eq!(line.read_one(&mut reader).expect("frame").bytes, b"abcd");
    assert_eq!(line.read_one(&mut reader).expect("frame").bytes, b"efgh");
    assert!(line.framed_bytes(b"abc").is_err());
    assert_eq!(line.framed_bytes(b"abcd").expect("framed"), b"abcd");
}

#[test]
fn a_line_has_no_artefact_to_claim() {
    let line = SerialTransport::new("COM1", 9600).timing_out_after(Duration::from_millis(10));
    assert!(line.claims().is_none());
    assert_eq!(line.name(), "serial");
    assert!(line.far_end().is_err(), "a device is not a loopback line");
}

#[test]
fn a_loopback_round_frames_the_line_and_reads_it_back() {
    let mut loopback = SerialTransport::loopback();
    let arrived = loopback.round(b"line\r\nbreak").expect("delimited");
    assert_eq!(arrived.bytes, b"line\r\nbreak");
    assert_eq!(arrived.origin_uri, "serial://loopback?baud=9600");
    // End-of-transmission closes a frame; a payload that carries one is
    // framed by length instead.
    let arrived = loopback.round(b"eot\x04inside").expect("fixed");
    assert_eq!(arrived.bytes, b"eot\x04inside");
    assert!(matches!(
        loopback.framing_for(b"eot\x04inside"),
        Framing::Fixed(10)
    ));
    assert!(loopback.ceiling().is_none());
    assert!(loopback.refuses(b"eot\x04inside").is_none());
}

#[test]
fn the_loopback_line_carries_frames_in_order_through_the_transport_trait() {
    let mut loopback = SerialTransport::loopback();
    loopback.send("loopback", b"first").expect("writing");
    loopback.send("loopback", b"second").expect("writing");
    assert_eq!(loopback.receive().expect("reading")[0].bytes, b"first");
    assert_eq!(loopback.receive().expect("reading")[0].bytes, b"second");
    assert!(loopback.receive().is_err(), "the line is empty");
}

/// A frame that opens with its length: 0x02 and two bytes. A length of zero
/// opens no frame, and the protocol says so.
struct OpensWithItsLength;

impl Protocol for OpensWithItsLength {
    fn measure(&self, read: &[u8]) -> Result<Option<usize>, Error> {
        match read.first() {
            Some(0) => Err(protocol_error("a frame of no length")),
            length => Ok(length.map(|length| usize::from(*length) + 1)),
        }
    }
}

fn measured(protocol: Box<dyn Protocol>) -> Framing {
    Framing::Measured(Measure::new(protocol))
}

#[test]
fn a_measured_frame_is_read_to_the_length_its_header_says() {
    let port =
        SerialTransport::new("COM4", 2400).framed(measured(Box::new(OpensWithItsLength)));
    let mut reader = &b"\x02ab\x01c\x00"[..];
    assert_eq!(port.read_one(&mut reader).expect("frame").bytes, b"\x02ab");
    assert_eq!(port.read_one(&mut reader).expect("frame").bytes, b"\x01c");
    assert!(port.read_one(&mut reader).is_err(), "no length");
    assert!(port.read_one(&mut reader).is_err(), "the line closed");
}

#[test]
fn a_loopback_wire_is_a_line_and_its_silence_is_none() {
    let mut wire = SerialTransport::loopback();
    assert_eq!(wire.line_name(), "loopback");
    wire.transmit(b"frame").expect("sent");
    assert_eq!(
        wire.listen(Duration::ZERO).expect("read"),
        Some(b"frame".to_vec())
    );
    assert_eq!(wire.listen(Duration::ZERO).expect("silence"), None);
}

#[test]
fn a_loopback_returns_edge_payloads_whole() {
    let mut all_bytes: Vec<u8> = Vec::new();
    for byte in 0..=255u8 {
        all_bytes.push(byte);
    }
    let payloads: Vec<Vec<u8>> = vec![
        vec![],
        vec![0],
        vec![4],
        vec![4, 4, 4],
        b"\r\n".to_vec(),
        b"ends in eot\x04".to_vec(),
        all_bytes,
        vec![0xff; 70_000],
        vec![b'x'; MAX_FRAME],
        vec![4; MAX_FRAME + 3],
    ];
    let mut loopback = SerialTransport::loopback();
    for payload in payloads {
        let arrived = loopback.round(&payload).expect("round");
        assert_eq!(arrived.bytes, payload);
        assert_eq!(loopback.listen(Duration::ZERO), Ok(None));
    }
}

#[test]
fn a_loopback_refuses_a_payload_that_outgrows_a_frame() {
    let mut loopback = SerialTransport::loopback();
    let payload = vec![b'x'; MAX_FRAME + 1];
    assert_eq!(loopback.round(&payload), Err(Error::Oversize));
    // What was written is still on the line.
    assert_eq!(loopback.receive(), Err(Error::Oversize));
    assert_eq!(loopback.listen(Duration::ZERO), Err(Error::Oversize));
}

#[test]
fn a_delimited_frame_is_at_most_the_size_that_will_be_read() {
    let framing = Framing::Delimited(vec![4]);
    let mut most = vec![b'a'; MAX_FRAME];
    most.extend_from_slice(b"\x04next");
    let mut reader = &most[..];
    assert_eq!(
        read_frame(&mut reader, &framing),
        Ok(vec![b'a'; MAX_FRAME])
    );
    assert_eq!(reader, b"next");
    let mut over = vec![b'a'; MAX_FRAME + 1];
    over.extend_from_slice(b"\x04next");
    let mut reader = &over[..];
    assert_eq!(read_frame(&mut reader, &framing), Err(Error::Oversize));
    assert_eq!(reader, b"next", "the frame was taken off the line");
    // A delimiter of several bytes is no part of the frame either.
    let framing = Framing::Delimited(b"\r\n".to_vec());
    let mut most = vec![b'a'; MAX_FRAME];
    most.extend_from_slice(b"\r\n");
    let mut reader = &most[..];
    assert_eq!(
        read_frame(&mut reader, &framing),
        Ok(vec![b'a'; MAX_FRAME])
    );
    let mut incoming = Assembly::begin(&framing).expect("a delimiter");
    for _ in 0..=MAX_FRAME {
        incoming.push(b'a').expect("no line feed yet");
    }
    incoming.push(b'\r').expect("no line feed yet");
    assert_eq!(incoming.push(b'\n'), Err(Error::Oversize));
    assert!(!incoming.whole());
}

#[test]
fn a_read_says_why_there_is_no_frame() {
    let mut short = &b"abc"[..];
    assert_eq!(
        read_frame(&mut short, &Framing::Fixed(4)),
        Err(Error::Closed(Inside::Fixed))
    );
    assert!(short.is_empty(), "the bytes were taken");
    let mut open = &b"abc"[..];
    assert_eq!(
        read_frame(&mut open, &Framing::Delimited(b"\r\n".to_vec())),
        Err(Error::Closed(Inside::Delimited))
    );
    let mut any = &b"abc"[..];
    assert_eq!(
        read_frame(&mut any, &Framing::Delimited(vec![])),
        Err(Error::EmptyDelimiter)
    );
    assert_eq!(any, b"abc", "nothing was taken");
    let mut cut = &b"\x05ab"[..];
    assert_eq!(
        read_frame(&mut cut, &measured(Box::new(OpensWithItsLength))),
        Err(Error::Closed(Inside::Measured))
    );
    let mut none = &b"\x00rest"[..];
    assert_eq!(
        read_frame(&mut none, &measured(Box::new(OpensWithItsLength))),
        Err(Error::Protocol("a frame of no length".to_string()))
    );
    assert_eq!(none, b"rest", "one byte was taken");
}

#[test]
fn a_fixed_frame_may_have_no_bytes() {
    let mut reader = &b"abc"[..];
    assert_eq!(read_frame(&mut reader, &Framing::Fixed(0)), Ok(vec![]));
    assert_eq!(reader, b"abc");
}

#[test]
fn a_delimited_frame_is_judged_where_its_last_byte_comes_by() {
    let framing = Framing::Delimited(b"\r\n".to_vec());
    // The line feed at the end of too long a frame breaks the line.
    let mut ended = vec![b'x'; MAX_FRAME + 1];
    ended.extend_from_slice(b"\r\nnext");
    let mut reader = &ended[..];
    assert_eq!(read_frame(&mut reader, &framing), Err(Error::Oversize));
    assert_eq!(reader, b"next");
    // So does one that ends nothing, past the size.
    let mut broken = vec![b'x'; MAX_FRAME];
    broken.extend_from_slice(b"\nmore\r\n");
    let mut reader = &broken[..];
    assert_eq!(read_frame(&mut reader, &framing), Err(Error::Oversize));
    assert_eq!(reader, b"more\r\n");
    // One within the size does not.
    let mut fits = vec![b'x'; MAX_FRAME - 5];
    fits.extend_from_slice(b"\nmore\r\n");
    let mut reader = &fits[..];
    assert_eq!(
        read_frame(&mut reader, &framing).expect("frame").len(),
        MAX_FRAME
    );
    // A line that closes past the size is broken, too.
    let open = vec![b'x'; MAX_FRAME + 1];
    let mut reader = &open[..];
    assert_eq!(read_frame(&mut reader, &framing), Err(Error::Oversize));
    let open = vec![b'x'; MAX_FRAME];
    let mut reader = &open[..];
    assert_eq!(
        read_frame(&mut reader, &framing),
        Err(Error::Closed(Inside::Delimited))
    );
}

/// A frame whose length is its second and third byte, big end first.
struct TwoByteLength;

impl Protocol for TwoByteLength {
    fn measure(&self, read: &[u8]) -> Result<Option<usize>, Error> {
        if read.len() < 3 {
            return Ok(None);
        }
        Ok(Some((usize::from(read[1]) << 8 | usize::from(read[2])) * 256))
    }
}

#[test]
fn a_measured_frame_may_need_several_bytes_to_tell() {
    let framing = measured(Box::new(TwoByteLength));
    let mut frame = vec![7, 0, 1];
    frame.resize(256, 9);
    frame.push(42);
    let mut reader = &frame[..];
    assert_eq!(read_frame(&mut reader, &framing).expect("frame").len(), 256);
    assert_eq!(reader, [42]);
    // A length that was passed already ends the frame where it is.
    let mut reader = &[7, 0, 0, 5][..];
    assert_eq!(read_frame(&mut reader, &framing), Ok(vec![7, 0, 0]));
    // The most that is read, and one step more.
    let mut reader = &[7, 0x10, 0x00][..];
    assert_eq!(
        read_frame(&mut reader, &framing),
        Err(Error::Closed(Inside::Measured))
    );
    let mut reader = &[7, 0x10, 0x01][..];
    assert_eq!(read_frame(&mut reader, &framing), Err(Error::Oversize));
    let mut reader = &[7, 0][..];
    assert_eq!(
        read_frame(&mut reader, &framing),
        Err(Error::Closed(Inside::Measured))
    );
}

#[test]
fn a_frame_comes_together_byte_by_byte() {
    let framing = Framing::Delimited(b"ab".to_vec());
    let mut incoming = Assembly::begin(&framing).expect("a delimiter");
    for byte in b"xaab" {
        assert!(!incoming.whole());
        incoming.push(*byte).expect("within the size");
    }
    assert!(incoming.whole());
    assert_eq!(incoming.finish(), b"xa");
    let framing = Framing::Fixed(3);
    let mut incoming = Assembly::begin(&framing).expect("no delimiter");
    incoming.push(1).expect("first");
    assert_eq!(incoming.closed(), Error::Closed(Inside::Fixed));
    let framing = measured(Box::new(TwoByteLength));
    let mut incoming = Assembly::begin(&framing).expect("no delimiter");
    assert_eq!(incoming.weigh(Ok(None)), Ok(()));
    assert_eq!(
        incoming.weigh(Ok(Some(MAX_FRAME + 1))),
        Err(Error::Oversize)
    );
    assert_eq!(incoming.weigh(Err(Error::Break)), Err(Error::Break));
    assert_eq!(incoming.weigh(Ok(Some(1))), Ok(()));
    incoming.push(5).expect("the only byte");
    assert!(incoming.whole());
    assert!(Assembly::begin(&Framing::Delimited(vec![])).is_err());
}

#[test]
fn a_failed_read_or_write_leaves_the_line_alone() {
    let transport = SerialTransport::new("COM2", 300).framed(Framing::Fixed(3));
    let mut line = b"ab".to_vec();
    assert!(transport.read_line(&mut line).is_err());
    assert_eq!(line, b"ab");
    assert_eq!(
        transport.write_line(&mut line, b"toolong"),
        Err(Error::WrongLength { got: 7, framed: 3 })
    );
    assert_eq!(line, b"ab");
    transport.write_line(&mut line, b"cde").expect("three bytes");
    assert_eq!(line, b"abcde");
    let arrived = transport.read_line(&mut line).expect("frame");
    assert_eq!(arrived.bytes, b"abc");
    assert_eq!(arrived.origin_uri, "serial://COM2?baud=300");
    assert_eq!(line, b"de");
}

#[test]
fn a_delimiter_that_comes_up_where_payload_and_delimiter_meet_cuts_the_payload() {
    let mut line = SerialTransport::loopback().framed(Framing::Delimited(b"aa".to_vec()));
    let arrived = line.round(b"xa").expect("a frame");
    assert_eq!(arrived.bytes, b"x");
    assert_eq!(line.listen(Duration::ZERO), Err(Error::Closed(Inside::Delimited)));
}

#[test]
fn a_device_is_not_opened_here() {
    let mut device = SerialTransport::new("COM9", 1200);
    assert_eq!(device.receive(), Err(Error::NoPort("COM9".to_string())));
    assert_eq!(
        device.send("anywhere", b"x"),
        Err(Error::NoPort("COM9".to_string()))
    );
    assert_eq!(
        device.listen(Duration::ZERO),
        Err(Error::NoPort("COM9".to_string()))
    );
    assert_eq!(device.round(b"x"), Err(Error::NotLoopback));
    assert_eq!(device.baud(), 1200);
    assert_eq!(device.timeout(), Duration::from_secs(5));
    assert!(matches!(device.framing(), Framing::Delimited(d) if d == b"\r\n"));
}

#[test]
fn the_far_end_takes_one_frame() {
    let mut line = SerialTransport::loopback();
    let far = line.far_end().expect("a loopback");
    assert_eq!(far.address(), "loopback");
    line.send_to("loopback", b"one").expect("written");
    line.send_to("loopback", b"two").expect("written");
    assert_eq!(far.take_one(&mut line).expect("one").bytes, b"one");
    assert_eq!(line.listen(Duration::ZERO), Ok(Some(b"two".to_vec())));
}

#[test]
fn ends_that_share_a_line_listen_and_go_round_on_it() {
    let end = SerialTransport::new("COM6", 9600);
    let mut line = Vec::new();
    assert_eq!(end.listen_line(&mut line), Ok(None));
    let arrived = end.round_line(&mut line, b"two\r\nlines").expect("round");
    assert_eq!(arrived.bytes, b"two\r\nlines");
    assert!(line.is_empty());
    end.write_line(&mut line, b"ahead").expect("written");
    let arrived = end.round_line(&mut line, b"behind").expect("round");
    assert_eq!(arrived.bytes, b"ahead");
    assert_eq!(end.listen_line(&mut line), Ok(Some(b"behind".to_vec())));
    line.push(7);
    assert_eq!(
        end.listen_line(&mut line),
        Err(Error::Closed(Inside::Delimited))
    );
    let fixed = SerialTransport::new("COM6", 9600).framed(Framing::Fixed(2));
    assert_eq!(
        fixed.round_line(&mut line, b"three"),
        Err(Error::WrongLength { got: 5, framed: 2 })
    );
    assert_eq!(line, [7]);
}

#[test]
fn a_framing_is_copied_whole() {
    let port = SerialTransport::new("COM5", 50).framed(measured(Box::new(OpensWithItsLength)));
    let copy = port.framing_for(b"anything");
    let mut reader = &b"\x01zz"[..];
    assert_eq!(read_frame(&mut reader, &copy), Ok(b"\x01z".to_vec()));
    let copy = SerialTransport::new("COM5", 50).framing_for(b"no line end");
    assert!(matches!(copy, Framing::Delimited(d) if d == b"\r\n"));
    let empty = SerialTransport::new("COM5", 50).framed(Framing::Delimited(vec![]));
    assert!(matches!(empty.framing_for(b"x"), Framing::Delimited(d) if d.is_empty()));
}

#[test]
fn errors_say_what_happened() {
    assert_eq!(protocol_error("no such meter").message(), "no such meter");
    assert_eq!(Error::EmptyDelimiter.message(), "an empty delimiter");
    assert_eq!(
        Error::Closed(Inside::Fixed).message(),
        "reading a fixed frame"
    );
    assert_eq!(
        Error::Closed(Inside::Measured).message(),
        "reading a measured frame"
    );
    assert_eq!(
        Error::Closed(Inside::Delimited).message(),
        "the line closed inside a frame"
    );
    assert_eq!(
        Error::Oversize.message(),
        "a frame over the size Xmip will read"
    );
    assert_eq!(
        Error::WrongLength { got: 10, framed: 4096 }.message(),
        "a frame of 10 bytes on a line framed at 4096"
    );
    assert_eq!(
        Error::NoPort("COM7".to_string()).message(),
        "built without the port feature: no serial stack on this box for COM7"
    );
    assert_eq!(Error::Break.message(), "a break condition on the line");
    assert_eq!(
        Error::NotLoopback.message(),
        "a device, not a loopback line"
    );
}

#[test]
fn numbers_are_written_in_decimal() {
    assert_eq!(serial::text::decimal_text(0), "0");
    assert_eq!(serial::text::decimal_text(9), "9");
    assert_eq!(serial::text::decimal_text(10), "10");
    assert_eq!(serial::text::decimal_text(1_002_030), "1002030");
    assert_eq!(
        serial::text::decimal_text(u64::MAX),
        format!("{}", u64::MAX)
    );
}

#[test]
fn an_origin_is_one_port_at_one_speed() {
    let origin = |port: &str, baud: u32| SerialTransport::new(port, baud).origin();
    assert_eq!(
        origin("/dev/ttyUSB0", 9600),
        "serial:///dev/ttyUSB0?baud=9600"
    );
    assert_ne!(origin("COM1", 1), origin("COM1", 11));
    assert_ne!(origin("COM1", 11), origin("COM11", 1));
    assert_ne!(origin("a?baud=1", 2), origin("a", 2));
}

#[test]
fn a_frame_of_the_most_is_read_whatever_its_delimiter_repeats() {
    let framing = Framing::Delimited(b"\n\n".to_vec());
    let mut most = vec![b'a'; MAX_FRAME];
    most.extend_from_slice(b"\n\nnext");
    let mut reader = &most[..];
    assert_eq!(
        read_frame(&mut reader, &framing),
        Ok(vec![b'a'; MAX_FRAME])
    );
    assert_eq!(reader, b"next");
    // What opened a delimiter and did not end as one was the frame's own.
    let mut own = vec![b'a'; MAX_FRAME];
    own.extend_from_slice(b"\na\n\nnext");
    let mut reader = &own[..];
    assert_eq!(read_frame(&mut reader, &framing), Err(Error::Oversize));
    assert_eq!(reader, b"\nnext");
    // One byte more is too many before the delimiter is whole.
    let mut over = vec![b'a'; MAX_FRAME + 1];
    over.extend_from_slice(b"\n\nnext");
    let mut reader = &over[..];
    assert_eq!(read_frame(&mut reader, &framing), Err(Error::Oversize));
    assert_eq!(reader, b"\nnext");
    // The longest opening of the delimiter counts.
    let framing = Framing::Delimited(b"abab".to_vec());
    let mut most = vec![b'x'; MAX_FRAME - 1];
    most.extend_from_slice(b"bababnext");
    let mut reader = &most[..];
    let mut frame = vec![b'x'; MAX_FRAME - 1];
    frame.push(b'b');
    assert_eq!(read_frame(&mut reader, &framing), Ok(frame));
    assert_eq!(reader, b"next");
    // A line that closes behind such an opening has closed on the frame's own.
    let mut open = vec![b'x'; MAX_FRAME];
    open.extend_from_slice(b"ab");
    let mut reader = &open[..];
    assert_eq!(read_frame(&mut reader, &framing), Err(Error::Oversize));
}
