//! What holds of frames whatever their bytes are.

use vstd::prelude::*;

use crate::error::{Error, Inside};
use crate::framing;
use crate::framing::{Boundary, Framing, Incoming, Measure, MAX_FRAME};
use crate::text;
use crate::transport;
use crate::transport::{Arrived, Station};

verus! {

/// No `d` stands in `s` right before any position short of `e`.
pub open spec fn runs_on(d: Seq<u8>, s: Seq<u8>, e: int) -> bool {
    forall|k: int| k < e ==> !framing::ends_at(s, d, k)
}

/// `m` tells from the opening of `bytes` that `bytes` is one frame, whatever
/// it may answer on the way.
pub open spec fn told(m: Measure, bytes: Seq<u8>) -> bool {
    exists|header: int| #[trigger] told_by(m, bytes, header)
}

/// `m` tells from the first `header` bytes of `bytes`, and from no fewer, that
/// `bytes` is one frame.
pub open spec fn told_by(m: Measure, bytes: Seq<u8>, header: int) -> bool {
    &&& 1 <= header <= bytes.len()
    &&& forall|k: int, answer: Result<Option<usize>, Error>|
        1 <= k < header && #[trigger] m.protocol.may_answer(bytes.take(k), answer) ==> answer == Ok::<
            Option<usize>,
            Error,
        >(None)
    &&& forall|answer: Result<Option<usize>, Error>| #[trigger]
        m.protocol.may_answer(bytes.take(header), answer) ==> {
            &&& answer matches Ok(Some(length))
            &&& length <= MAX_FRAME
            &&& length == bytes.len() || length <= header == bytes.len()
        }
}

/// A line framed so carries `bytes` as one frame: they are within the size that
/// will be read before a delimiter, and the delimiter does not come up early,
/// neither in `bytes` nor where `bytes` and its delimiter meet; a fixed length
/// is theirs; a protocol tells theirs.
pub open spec fn carries(boundary: Boundary, bytes: Seq<u8>) -> bool {
    match boundary {
        Boundary::Delimited(d) => d.len() > 0 && bytes.len() <= MAX_FRAME && runs_on(
            d,
            bytes + d,
            (bytes.len() + d.len()) as int,
        ),
        Boundary::Fixed(length) => bytes.len() == length,
        Boundary::Measured(m) => told(m, bytes),
    }
}

/// Reading goes on to the first delimiter, if the frame before it is within the
/// size that will be read.
proof fn lemma_delimited_runs_on(d: Seq<u8>, s: Seq<u8>, from: int, e: int)
    requires
        d.len() > 0,
        1 <= from <= e,
        runs_on(d, s, e),
        framing::ends_at(s, d, e),
        e - d.len() <= MAX_FRAME,
    ensures
        framing::delimited_from(d, s, from) == (Ok::<Seq<u8>, Error>(s.take(e - d.len())), e),
    decreases e - from,
{
    if from < e {
        assert(!framing::ends_at(s, d, from));
        let n = from - (e - d.len());
        if n > 0 {
            assert(s.subrange(from - n, from) =~= s.subrange(e - d.len(), e).take(n));
            assert(framing::ends_at(s, d.take(n), from));
        }
        assert(!framing::outgrown(s, d, from));
        lemma_delimited_runs_on(d, s, from + 1, e);
    }
}

/// A delimited frame that was read ends at the first delimiter.
proof fn lemma_delimited_found(d: Seq<u8>, s: Seq<u8>, from: int, frame: Seq<u8>, taken: int)
    requires
        1 <= from,
        runs_on(d, s, from),
        framing::delimited_from(d, s, from) == (Ok::<Seq<u8>, Error>(frame), taken),
    ensures
        from <= taken <= s.len(),
        runs_on(d, s, taken),
        framing::ends_at(s, d, taken),
        frame == s.take(taken - d.len()),
        frame.len() <= MAX_FRAME,
    decreases s.len() + 1 - from,
{
    if from <= s.len() && !framing::ends_at(s, d, from) {
        lemma_delimited_found(d, s, from + 1, frame, taken);
    }
}

/// Reading takes no more bytes than there are.
pub proof fn law_reading_stays_on_the_line(
    boundary: Boundary,
    s: Seq<u8>,
    frame: Result<Seq<u8>, Error>,
    taken: int,
)
    requires
        framing::reads(boundary, s, (frame, taken)),
    ensures
        0 <= taken <= s.len(),
{
    if let Boundary::Delimited(d) = boundary {
        if d.len() > 0 {
            lemma_delimited_stays(d, s, 1);
        }
    }
}

proof fn lemma_delimited_stays(d: Seq<u8>, s: Seq<u8>, from: int)
    requires
        1 <= from,
    ensures
        0 <= framing::delimited_from(d, s, from).1 <= s.len(),
    decreases s.len() + 1 - from,
{
    if from <= s.len() {
        lemma_delimited_stays(d, s, from + 1);
    }
}

/// A frame is the bytes it was read from, no byte lost and none made up:
/// framed again, it is what was taken off the line.
pub proof fn law_frame_is_what_was_taken(
    boundary: Boundary,
    s: Seq<u8>,
    frame: Seq<u8>,
    taken: int,
)
    requires
        framing::reads(boundary, s, (Ok(frame), taken)),
    ensures
        0 <= taken <= s.len(),
        framing::framed(boundary, frame) == Ok::<Seq<u8>, Error>(s.take(taken)),
{
    if let Boundary::Delimited(d) = boundary {
        lemma_delimited_found(d, s, 1, frame, taken);
        assert(s.take(taken) =~= s.take(taken - d.len()) + s.subrange(taken - d.len(), taken));
    }
}

/// A delimited frame ends at the first delimiter on the line: there is none
/// in the frame, and none earlier in the bytes it was read from.
pub proof fn law_frame_ends_at_the_first_delimiter(
    d: Seq<u8>,
    s: Seq<u8>,
    frame: Seq<u8>,
    taken: int,
)
    requires
        framing::reads(Boundary::Delimited(d), s, (Ok(frame), taken)),
    ensures
        framing::ends_at(s, d, taken),
        forall|e: int| e < taken ==> !framing::ends_at(s, d, e),
        !framing::holds(frame, d),
{
    lemma_delimited_found(d, s, 1, frame, taken);
    assert forall|e: int| !framing::ends_at(frame, d, e) by {
        if framing::ends_at(frame, d, e) {
            assert(frame.subrange(e - d.len(), e) =~= s.subrange(e - d.len(), e));
            assert(framing::ends_at(s, d, e));
        }
    }
}

/// A delimited frame that is within the size that will be read is read: what
/// comes before the first delimiter, all of it.
pub proof fn law_a_frame_within_the_size_is_read(
    d: Seq<u8>,
    s: Seq<u8>,
    e: int,
    frame: Result<Seq<u8>, Error>,
    taken: int,
)
    requires
        d.len() > 0,
        framing::ends_at(s, d, e),
        forall|k: int| k < e ==> !framing::ends_at(s, d, k),
        e - d.len() <= MAX_FRAME,
        framing::reads(Boundary::Delimited(d), s, (frame, taken)),
    ensures
        frame == Ok::<Seq<u8>, Error>(s.take(e - d.len())),
        taken == e,
{
    lemma_delimited_runs_on(d, s, 1, e);
}

/// No delimited frame that was read is over the size that will be read.
pub proof fn law_a_delimited_frame_is_within_the_size(
    d: Seq<u8>,
    s: Seq<u8>,
    frame: Seq<u8>,
    taken: int,
)
    requires
        framing::reads(Boundary::Delimited(d), s, (Ok(frame), taken)),
    ensures
        frame.len() <= MAX_FRAME,
{
    lemma_delimited_found(d, s, 1, frame, taken);
}

proof fn lemma_delimited_outgrows(d: Seq<u8>, s: Seq<u8>, from: int)
    requires
        1 <= from,
        s.len() > MAX_FRAME,
        forall|e: int| e <= MAX_FRAME + d.len() ==> !framing::ends_at(s, d, e),
    ensures
        framing::delimited_from(d, s, from).0 == Err::<Seq<u8>, Error>(Error::Oversize),
    decreases s.len() + 1 - from,
{
    if from <= s.len() {
        lemma_delimited_outgrows(d, s, from + 1);
    }
}

/// A delimited frame that outgrew the size that will be read is an error,
/// whether or not a delimiter comes later: none ends a frame of that size or
/// less, and more than that came.
pub proof fn law_an_outgrown_frame_is_an_error(
    d: Seq<u8>,
    s: Seq<u8>,
    frame: Result<Seq<u8>, Error>,
    taken: int,
)
    requires
        d.len() > 0,
        s.len() > MAX_FRAME,
        forall|e: int| e <= MAX_FRAME + d.len() ==> !framing::ends_at(s, d, e),
        framing::reads(Boundary::Delimited(d), s, (frame, taken)),
    ensures
        frame == Err::<Seq<u8>, Error>(Error::Oversize),
{
    lemma_delimited_outgrows(d, s, 1);
}

/// What was written as one frame is read back whole, and what was written
/// behind it is left for the next reading.
pub proof fn law_written_frame_reads_back(
    boundary: Boundary,
    bytes: Seq<u8>,
    behind: Seq<u8>,
    frame: Result<Seq<u8>, Error>,
    taken: int,
)
    requires
        carries(boundary, bytes),
        framing::reads(boundary, framing::framed(boundary, bytes)->Ok_0 + behind, (frame, taken)),
    ensures
        framing::framed(boundary, bytes) is Ok,
        frame == Ok::<Seq<u8>, Error>(bytes),
        taken == framing::framed(boundary, bytes)->Ok_0.len(),
        (framing::framed(boundary, bytes)->Ok_0 + behind).skip(taken) == behind,
{
    let written = framing::framed(boundary, bytes)->Ok_0;
    let s = written + behind;
    match boundary {
        Boundary::Fixed(_) => {
            assert(s.take(bytes.len() as int) =~= bytes);
        },
        Boundary::Delimited(d) => {
            let e = written.len() as int;
            assert forall|k: int| k < e implies !framing::ends_at(s, d, k) by {
                assert(!framing::ends_at(written, d, k));
                if d.len() <= k {
                    assert(s.subrange(k - d.len(), k) =~= written.subrange(k - d.len(), k));
                }
            }
            assert(s.subrange(e - d.len(), e) =~= d);
            lemma_delimited_runs_on(d, s, 1, e);
            assert(s.take(e - d.len()) =~= bytes);
        },
        Boundary::Measured(m) => {
            let header = choose|header: int| #[trigger] told_by(m, bytes, header);
            assert forall|k: int| 1 <= k <= bytes.len() implies #[trigger] s.take(k) == bytes.take(
                k,
            ) by {
                assert(s.take(k) =~= bytes.take(k));
            }
            assert(s.take(bytes.len() as int) =~= bytes);
            assert(bytes.take(bytes.len() as int) =~= bytes);
            if framing::undecided(m, s, s.len() as int) {
                assert(m.protocol.may_answer(s.take(header), Ok(None)));
                assert(s.take(header) == bytes.take(header));
            }
            if exists|h: int, answer: Result<Option<usize>, Error>| #[trigger]
                framing::decided(m, s, h, answer) && (frame, taken) == framing::measured_by(answer, s, h) {
                let (h, answer) = choose|h: int, answer: Result<Option<usize>, Error>| #[trigger]
                    framing::decided(m, s, h, answer) && (frame, taken) == framing::measured_by(answer, s, h);
                if h < header {
                    assert(s.take(h) == bytes.take(h));
                    assert(m.protocol.may_answer(bytes.take(h), answer));
                }
                if h > header {
                    assert(m.protocol.may_answer(s.take(header), Ok(None)));
                    assert(s.take(header) == bytes.take(header));
                }
                assert(s.take(header) == bytes.take(header));
                assert(m.protocol.may_answer(bytes.take(header), answer));
            }
        },
    }
    assert(s.skip(written.len() as int) =~= behind);
}

/// Nothing but what a line carries is read back whole: of delimited and fixed
/// frames, [`carries`] leaves none out.
pub proof fn law_only_carried_frames_read_back(
    boundary: Boundary,
    bytes: Seq<u8>,
    behind: Seq<u8>,
)
    requires
        !(boundary is Measured),
        framing::framed(boundary, bytes) is Ok,
        framing::reads(
            boundary,
            framing::framed(boundary, bytes)->Ok_0 + behind,
            (Ok(bytes), framing::framed(boundary, bytes)->Ok_0.len() as int),
        ),
    ensures
        carries(boundary, bytes),
{
    if let Boundary::Delimited(d) = boundary {
        let written = bytes + d;
        let s = written + behind;
        let e = written.len() as int;
        lemma_delimited_found(d, s, 1, bytes, e);
        assert forall|k: int| k < e implies !framing::ends_at(written, d, k) by {
            assert(!framing::ends_at(s, d, k));
            if d.len() <= k {
                assert(s.subrange(k - d.len(), k) =~= written.subrange(k - d.len(), k));
            }
        }
    }
}

/// A frame that was read is the same whatever comes behind it.
pub proof fn law_frame_stands_whatever_follows(
    boundary: Boundary,
    s: Seq<u8>,
    behind: Seq<u8>,
    frame: Seq<u8>,
    taken: int,
)
    requires
        framing::reads(boundary, s, (Ok(frame), taken)),
    ensures
        framing::reads(boundary, s + behind, (Ok(frame), taken)),
{
    let longer = s + behind;
    assert forall|k: int| 0 <= k <= s.len() implies #[trigger] longer.take(k) == s.take(k) by {
        assert(longer.take(k) =~= s.take(k));
    }
    match boundary {
        Boundary::Fixed(_) => {},
        Boundary::Delimited(d) => {
            lemma_delimited_found(d, s, 1, frame, taken);
            assert forall|k: int| k < taken implies !framing::ends_at(longer, d, k) by {
                assert(!framing::ends_at(s, d, k));
                if d.len() <= k {
                    assert(longer.subrange(k - d.len(), k) =~= s.subrange(k - d.len(), k));
                }
            }
            assert(longer.subrange(taken - d.len(), taken) =~= s.subrange(taken - d.len(), taken));
            lemma_delimited_runs_on(d, longer, 1, taken);
        },
        Boundary::Measured(m) => {
            let (header, answer) = choose|header: int, answer: Result<Option<usize>, Error>|
                #[trigger]
                framing::decided(m, s, header, answer) && (Ok::<Seq<u8>, Error>(frame), taken)
                    == framing::measured_by(answer, s, header);
            assert(framing::decided(m, longer, header, answer));
        },
    }
}

/// A line that ends its frames with one byte carries whatever does not hold
/// that byte and is within the size that will be read.
pub proof fn law_one_byte_delimiter_carries_the_rest(byte: u8, bytes: Seq<u8>)
    requires
        !bytes.contains(byte),
        bytes.len() <= MAX_FRAME,
    ensures
        carries(Boundary::Delimited(seq![byte]), bytes),
{
    let d = seq![byte];
    let written = bytes + d;
    assert forall|k: int| k < written.len() implies !framing::ends_at(written, d, k) by {
        if 1 <= k {
            assert(written.subrange(k - 1, k)[0] == bytes[k - 1]);
        }
    }
}

/// No beginning of `d` is also an end of it.
pub open spec fn unbordered(d: Seq<u8>) -> bool {
    forall|k: int| 0 < k < d.len() ==> #[trigger] d.take(k) != d.skip(d.len() - k)
}

/// A delimiter that cannot overlap itself carries whatever does not hold it and
/// is within the size that will be read.
pub proof fn law_unbordered_delimiter_carries_the_rest(d: Seq<u8>, bytes: Seq<u8>)
    requires
        d.len() > 0,
        unbordered(d),
        !framing::holds(bytes, d),
        bytes.len() <= MAX_FRAME,
    ensures
        carries(Boundary::Delimited(d), bytes),
{
    let written = bytes + d;
    assert forall|k: int| k < written.len() implies !framing::ends_at(written, d, k) by {
        if framing::ends_at(written, d, k) {
            if k <= bytes.len() {
                assert(written.subrange(k - d.len(), k) =~= bytes.subrange(k - d.len(), k));
                assert(framing::ends_at(bytes, d, k));
            } else {
                let j = k - bytes.len();
                let found = written.subrange(k - d.len(), k);
                assert(found.skip(d.len() - j) =~= d.take(j));
                assert(d.take(j) == d.skip(d.len() - j));
            }
        }
    }
}

/// A carriage return and a line feed, which end a frame unless a port is
/// framed otherwise, carry whatever does not hold the two in a row and is within
/// the size that will be read.
pub proof fn law_line_ends_carry_the_rest(bytes: Seq<u8>)
    requires
        !framing::holds(bytes, seq![13u8, 10u8]),
        bytes.len() <= MAX_FRAME,
    ensures
        carries(Boundary::Delimited(seq![13u8, 10u8]), bytes),
{
    let d = seq![13u8, 10u8];
    assert forall|k: int| 0 < k < d.len() implies #[trigger] d.take(k) != d.skip(d.len() - k) by {
        assert(d.take(k)[0] == 13);
        assert(d.skip(d.len() - k)[0] == 10);
    }
    law_unbordered_delimiter_carries_the_rest(d, bytes);
}

/// The bytes on a line that `frames` were written to, one behind the other.
pub open spec fn line_of(boundary: Boundary, frames: Seq<Seq<u8>>) -> Seq<u8>
    decreases frames.len(),
{
    if frames.len() == 0 {
        Seq::empty()
    } else {
        framing::framed(boundary, frames[0])->Ok_0 + line_of(boundary, frames.drop_first())
    }
}

/// Writing one more frame puts it behind those on the line.
pub proof fn law_frames_queue_up(boundary: Boundary, frames: Seq<Seq<u8>>, next: Seq<u8>)
    ensures
        line_of(boundary, frames.push(next)) == line_of(boundary, frames) + framing::framed(
            boundary,
            next,
        )->Ok_0,
    decreases frames.len(),
{
    let longer = frames.push(next);
    if frames.len() == 0 {
        assert(longer.drop_first() =~= Seq::<Seq<u8>>::empty());
        assert(line_of(boundary, longer.drop_first()) =~= Seq::<u8>::empty());
    } else {
        law_frames_queue_up(boundary, frames.drop_first(), next);
        assert(longer.drop_first() =~= frames.drop_first().push(next));
    }
    assert(line_of(boundary, longer) =~= line_of(boundary, frames) + framing::framed(
        boundary,
        next,
    )->Ok_0);
}

/// Frames come off a line whole, in the order they were written to it.
pub proof fn law_frames_are_read_in_order(
    boundary: Boundary,
    frames: Seq<Seq<u8>>,
    frame: Result<Seq<u8>, Error>,
    taken: int,
)
    requires
        frames.len() > 0,
        forall|i: int| 0 <= i < frames.len() ==> carries(boundary, #[trigger] frames[i]),
        framing::reads(boundary, line_of(boundary, frames), (frame, taken)),
    ensures
        frame == Ok::<Seq<u8>, Error>(frames[0]),
        line_of(boundary, frames).skip(taken) == line_of(boundary, frames.drop_first()),
{
    law_written_frame_reads_back(
        boundary,
        frames[0],
        line_of(boundary, frames.drop_first()),
        frame,
        taken,
    );
}

/// `steps` is how an assembly may take the first bytes of `s`, one by one: from
/// nothing to its last step, and not whole before that.
pub open spec fn comes_in(boundary: Boundary, s: Seq<u8>, steps: Seq<Incoming>) -> bool {
    &&& 0 < steps.len() <= s.len() + 1
    &&& steps[0] == framing::begun(boundary)
    &&& forall|i: int| 0 <= i < steps.len() ==> (#[trigger] steps[i]).wf()
    &&& forall|i: int|
        1 <= i < steps.len() ==> !steps[i - 1].whole() && steps[i - 1].grows(
            s[i - 1],
            #[trigger] steps[i],
            Ok(()),
        )
}

proof fn lemma_coming_in_is_reading(boundary: Boundary, s: Seq<u8>, steps: Seq<Incoming>, at: int)
    requires
        comes_in(boundary, s, steps),
        0 <= at < steps.len(),
    ensures
        steps[at].boundary == boundary,
        steps[at].got.len() == at,
        framing::reading(s, steps[at]),
    decreases at,
{
    assert(steps[at].wf());
    if at == 0 {
        assert(s.take(0) =~= Seq::<u8>::empty());
    } else {
        lemma_coming_in_is_reading(boundary, s, steps, at - 1);
        framing::lemma_reading_grows(s, steps[at - 1], steps[at], Ok(()));
    }
}

/// A port that hands its bytes to an assembly one by one reads the frame that
/// is read off an in-memory line of the same bytes.
pub proof fn law_an_assembled_frame_is_the_frame_read(
    boundary: Boundary,
    s: Seq<u8>,
    steps: Seq<Incoming>,
)
    requires
        comes_in(boundary, s, steps),
        steps.last().whole(),
    ensures
        framing::reads(boundary, s, (Ok(steps.last().frame()), steps.len() - 1)),
{
    lemma_coming_in_is_reading(boundary, s, steps, steps.len() - 1);
    framing::lemma_reading_whole(s, steps.last());
}

/// A port whose assembly refuses a byte fails as reading off an in-memory line
/// of the same bytes does.
pub proof fn law_a_refused_byte_is_the_error_read(
    boundary: Boundary,
    s: Seq<u8>,
    steps: Seq<Incoming>,
    after: Incoming,
    error: Error,
)
    requires
        comes_in(boundary, s, steps),
        !steps.last().whole(),
        steps.len() <= s.len(),
        steps.last().grows(s[steps.len() - 1], after, Err(error)),
        after.wf(),
    ensures
        framing::reads(boundary, s, (Err(error), steps.len() as int)),
{
    lemma_coming_in_is_reading(boundary, s, steps, steps.len() - 1);
    framing::lemma_reading_grows(s, steps.last(), after, Err(error));
}

/// A port that closes before a frame is whole fails as an in-memory line with
/// the same bytes on it does.
pub proof fn law_a_closed_port_is_the_error_read(
    boundary: Boundary,
    s: Seq<u8>,
    steps: Seq<Incoming>,
)
    requires
        comes_in(boundary, s, steps),
        !steps.last().whole(),
        steps.len() == s.len() + 1,
    ensures
        framing::reads(
            boundary,
            s,
            (Err(framing::closed_inside(boundary, steps.last().got)), s.len() as int),
        ),
{
    lemma_coming_in_is_reading(boundary, s, steps, steps.len() - 1);
    framing::lemma_reading_closed(s, steps.last());
}

/// A read that gives no frame leaves the line as it was, and so does a write
/// of what cannot be framed.
pub proof fn law_a_failure_leaves_the_line_alone(
    station: Station,
    bytes: Seq<u8>,
    error: Error,
    after: Station,
)
    requires
        station.receives(Err(error), after) || station.sends(bytes, Err(error), after),
    ensures
        after == station,
{
}

/// What is sent over an in-memory line queues up behind what was sent before.
pub proof fn law_sent_frames_queue_up(
    station: Station,
    frames: Seq<Seq<u8>>,
    next: Seq<u8>,
    sent: Result<(), Error>,
    after: Station,
)
    requires
        station.line == Some(line_of(station.boundary, frames)),
        carries(station.boundary, next),
        station.sends(next, sent, after),
    ensures
        sent is Ok,
        after == station.with_line(line_of(station.boundary, frames.push(next))),
{
    law_frames_queue_up(station.boundary, frames, next);
}

/// What was sent over an in-memory line is received whole, in the order it was
/// sent, from where it was sent.
pub proof fn law_sent_frames_are_received_in_order(
    station: Station,
    frames: Seq<Seq<u8>>,
    arrived: Result<Arrived, Error>,
    after: Station,
)
    requires
        frames.len() > 0,
        forall|i: int| 0 <= i < frames.len() ==> carries(station.boundary, #[trigger] frames[i]),
        station.line == Some(line_of(station.boundary, frames)),
        station.receives(arrived, after),
    ensures
        arrived matches Ok(one) && one.bytes@ == frames[0] && one.origin_uri@
            == transport::origin_of(station.port, station.baud),
        after == station.with_line(line_of(station.boundary, frames.drop_first())),
{
    let line = line_of(station.boundary, frames);
    let frame = transport::bytes_of(arrived);
    let taken = choose|taken: int| #[trigger]
        framing::reads(station.boundary, line, (frame, taken)) && after.line->Some_0 == if frame
            is Ok {
            line.skip(taken)
        } else {
            line
        };
    law_frames_are_read_in_order(station.boundary, frames, frame, taken);
}

/// A round over an empty in-memory line returns the payload whole and leaves
/// the line empty, if the line carries it framed for the payload.
pub proof fn law_a_round_returns_the_payload_whole(
    station: Station,
    payload: Seq<u8>,
    arrived: Result<Arrived, Error>,
    after: Station,
)
    requires
        station.line == Some(Seq::<u8>::empty()),
        carries(transport::boundary_for(station.boundary, payload), payload),
        station.rounds(payload, arrived, after),
    ensures
        arrived matches Ok(one) && one.bytes@ == payload && one.origin_uri@ == transport::origin_of(
            station.port,
            station.baud,
        ),
        after == station,
{
    let boundary = transport::boundary_for(station.boundary, payload);
    let written = framing::framed(boundary, payload)->Ok_0;
    let line = Seq::<u8>::empty() + written;
    let frame = transport::bytes_of(arrived);
    let taken = choose|taken: int| #[trigger]
        framing::reads(boundary, line, (frame, taken)) && after.line->Some_0 == if frame is Ok {
            line.skip(taken)
        } else {
            line
        };
    assert(line =~= written + Seq::<u8>::empty());
    law_written_frame_reads_back(boundary, payload, Seq::empty(), frame, taken);
}

/// A round over an empty in-memory line whose frames close with one byte, as a
/// loopback's do, returns the payload whole when it is within the size that
/// will be read, and whatever its size when it holds the byte: it is framed by
/// length instead.
pub proof fn law_a_loopback_returns_payloads_whole(
    station: Station,
    byte: u8,
    payload: Seq<u8>,
    arrived: Result<Arrived, Error>,
    after: Station,
)
    requires
        station.boundary == Boundary::Delimited(seq![byte]),
        station.line == Some(Seq::<u8>::empty()),
        payload.len() <= MAX_FRAME || framing::holds(payload, seq![byte]),
        station.rounds(payload, arrived, after),
    ensures
        arrived matches Ok(one) && one.bytes@ == payload && one.origin_uri@ == transport::origin_of(
            station.port,
            station.baud,
        ),
        after == station,
{
    let d = seq![byte];
    if !framing::holds(payload, d) {
        assert forall|i: int| 0 <= i < payload.len() implies payload[i] != byte by {
            if payload[i] == byte {
                assert(payload.subrange(i + 1 - d.len(), i + 1) =~= d);
                assert(framing::ends_at(payload, d, i + 1));
            }
        }
        law_one_byte_delimiter_carries_the_rest(byte, payload);
    }
    law_a_round_returns_the_payload_whole(station, payload, arrived, after);
}

/// Every other payload is refused: over an empty in-memory line whose frames
/// close with one byte, a round of one that outgrows a frame and does not hold
/// the byte is an error, and what was written stays on the line.
pub proof fn law_a_loopback_refuses_an_outgrown_payload(
    station: Station,
    byte: u8,
    payload: Seq<u8>,
    arrived: Result<Arrived, Error>,
    after: Station,
)
    requires
        station.boundary == Boundary::Delimited(seq![byte]),
        station.line == Some(Seq::<u8>::empty()),
        payload.len() > MAX_FRAME,
        !framing::holds(payload, seq![byte]),
        station.rounds(payload, arrived, after),
    ensures
        arrived == Err::<Arrived, Error>(Error::Oversize),
        after == station.with_line(payload.push(byte)),
{
    let d = seq![byte];
    let written = payload + d;
    let line = Seq::<u8>::empty() + written;
    let frame = transport::bytes_of(arrived);
    let taken = choose|taken: int| #[trigger]
        framing::reads(station.boundary, line, (frame, taken)) && after.line->Some_0 == if frame
            is Ok {
            line.skip(taken)
        } else {
            line
        };
    assert(line =~= payload.push(byte));
    assert forall|e: int| e <= MAX_FRAME + d.len() implies !framing::ends_at(line, d, e) by {
        if framing::ends_at(line, d, e) {
            assert(line.subrange(e - d.len(), e) =~= payload.subrange(e - d.len(), e));
            assert(framing::ends_at(payload, d, e));
        }
    }
    law_an_outgrown_frame_is_an_error(d, line, frame, taken);
}

/// An in-memory line with nothing on it is silence, unless its frames have no
/// bytes.
pub proof fn law_an_empty_line_is_silent(
    station: Station,
    heard: Result<Option<Seq<u8>>, Error>,
    after: Station,
)
    requires
        station.line == Some(Seq::<u8>::empty()),
        station.boundary != Boundary::Fixed(0),
        station.listens(heard, after),
    ensures
        heard == Ok::<Option<Seq<u8>>, Error>(None),
        after == station,
{
    let line = Seq::<u8>::empty();
    if let Ok(Some(frame)) = heard {
        let taken = choose|taken: int| #[trigger]
            framing::reads(station.boundary, line, (Ok(frame), taken)) && after.line->Some_0
                == line.skip(taken);
        if let Boundary::Delimited(d) = station.boundary {
            lemma_delimited_found(d, line, 1, frame, taken);
        }
    }
}

/// A delimiter stands right before a position where each of its bytes does.
pub proof fn law_a_delimiter_stands_where_its_bytes_do(s: Seq<u8>, d: Seq<u8>, e: int)
    ensures
        framing::ends_at(s, d, e) <==> {
            &&& d.len() <= e <= s.len()
            &&& forall|i: int| 0 <= i < d.len() ==> s[e - d.len() + i] == #[trigger] d[i]
        },
{
    if d.len() <= e <= s.len() {
        let found = s.subrange(e - d.len(), e);
        if forall|i: int| 0 <= i < d.len() ==> s[e - d.len() + i] == #[trigger] d[i] {
            assert(found =~= d);
        } else {
            let i = choose|i: int| 0 <= i < d.len() && s[e - d.len() + i] != #[trigger] d[i];
            assert(found[i] != d[i]);
        }
    }
}

proof fn lemma_stands(s: Seq<u8>, d: Seq<u8>, at: int)
    requires
        0 <= at,
        at + d.len() <= s.len(),
    ensures
        framing::ends_at(s, d, at + d.len()) <==> s.skip(at).take(d.len() as int) == d,
{
    assert(s.skip(at).take(d.len() as int) =~= s.subrange(at, at + d.len()));
}

/// Bytes hold a delimiter if and only if it stands behind some of them.
pub proof fn law_bytes_hold_what_stands_in_them(s: Seq<u8>, d: Seq<u8>)
    ensures
        framing::holds(s, d) <==> exists|at: int|
            0 <= at && at + d.len() <= s.len() && #[trigger] s.skip(at).take(d.len() as int) == d,
{
    if framing::holds(s, d) {
        let e = choose|e: int| framing::ends_at(s, d, e);
        lemma_stands(s, d, e - d.len());
        assert(s.skip(e - d.len()).take(d.len() as int) == d);
    }
    if exists|at: int|
        0 <= at && at + d.len() <= s.len() && #[trigger] s.skip(at).take(d.len() as int) == d {
        let at = choose|at: int|
            0 <= at && at + d.len() <= s.len() && #[trigger] s.skip(at).take(d.len() as int) == d;
        lemma_stands(s, d, at);
    }
}

/// A frame of a fixed length is the next bytes on the line, that many of them;
/// with fewer on the line there is none, and all of them are taken.
pub proof fn law_a_fixed_frame_is_the_next_bytes(
    length: nat,
    s: Seq<u8>,
    frame: Result<Seq<u8>, Error>,
    taken: int,
)
    requires
        framing::reads(Boundary::Fixed(length), s, (frame, taken)),
    ensures
        length <= s.len() ==> taken == length && (frame matches Ok(bytes) && bytes.len() == length
            && forall|i: int| 0 <= i < length ==> #[trigger] bytes[i] == s[i]),
        length > s.len() ==> taken == s.len() && frame == Err::<Seq<u8>, Error>(
            Error::Closed(Inside::Fixed),
        ),
{
}

/// A delimited frame is the bytes before the first delimiter, however many
/// they are up to the size that will be read, and the delimiter is taken with
/// them.
pub proof fn law_a_delimited_frame_is_the_bytes_before_the_delimiter(
    d: Seq<u8>,
    s: Seq<u8>,
    at: int,
    frame: Result<Seq<u8>, Error>,
    taken: int,
)
    requires
        d.len() > 0,
        0 <= at <= MAX_FRAME,
        at + d.len() <= s.len(),
        s.skip(at).take(d.len() as int) == d,
        forall|k: int| 0 <= k < at ==> #[trigger] s.skip(k).take(d.len() as int) != d,
        framing::reads(Boundary::Delimited(d), s, (frame, taken)),
    ensures
        taken == at + d.len(),
        frame matches Ok(bytes) && bytes.len() == at && forall|i: int|
            0 <= i < at ==> #[trigger] bytes[i] == s[i],
{
    lemma_stands(s, d, at);
    assert forall|e: int| e < at + d.len() implies !framing::ends_at(s, d, e) by {
        if framing::ends_at(s, d, e) {
            lemma_stands(s, d, e - d.len());
        }
    }
    lemma_delimited_runs_on(d, s, 1, at + d.len());
}

proof fn lemma_delimited_closes(d: Seq<u8>, s: Seq<u8>, from: int)
    requires
        1 <= from <= s.len() + 1,
        s.len() <= MAX_FRAME,
        forall|e: int| e <= s.len() ==> !framing::ends_at(s, d, e),
    ensures
        framing::delimited_from(d, s, from) == (
            Err::<Seq<u8>, Error>(Error::Closed(Inside::Delimited)),
            s.len() as int,
        ),
    decreases s.len() + 1 - from,
{
    if from <= s.len() {
        lemma_delimited_closes(d, s, from + 1);
    }
}

/// A line that closes with no delimiter on it, and no more on it than the size
/// that will be read, has closed inside a frame.
pub proof fn law_no_delimiter_is_no_frame(
    d: Seq<u8>,
    s: Seq<u8>,
    frame: Result<Seq<u8>, Error>,
    taken: int,
)
    requires
        d.len() > 0,
        s.len() <= MAX_FRAME,
        forall|k: int|
            0 <= k && k + d.len() <= s.len() ==> #[trigger] s.skip(k).take(d.len() as int) != d,
        framing::reads(Boundary::Delimited(d), s, (frame, taken)),
    ensures
        frame == Err::<Seq<u8>, Error>(Error::Closed(Inside::Delimited)),
        taken == s.len(),
{
    assert forall|e: int| e <= s.len() implies !framing::ends_at(s, d, e) by {
        if framing::ends_at(s, d, e) {
            lemma_stands(s, d, e - d.len());
        }
    }
    lemma_delimited_closes(d, s, 1);
}

/// With no bytes for a delimiter nothing is read, and nothing is taken.
pub proof fn law_an_empty_delimiter_reads_nothing(
    s: Seq<u8>,
    frame: Result<Seq<u8>, Error>,
    taken: int,
)
    requires
        framing::reads(Boundary::Delimited(Seq::<u8>::empty()), s, (frame, taken)),
    ensures
        frame == Err::<Seq<u8>, Error>(Error::EmptyDelimiter),
        taken == 0,
{
}

proof fn lemma_delimited_judged(d: Seq<u8>, s: Seq<u8>, from: int, taken: int)
    requires
        d.len() > 0,
        1 <= from,
        framing::delimited_from(d, s, from) == (Err::<Seq<u8>, Error>(Error::Oversize), taken),
    ensures
        MAX_FRAME < taken <= s.len(),
        taken < s.len() ==> s.take(taken).last() == d.last() && framing::outgrown(s, d, taken),
        forall|e: int|
            from <= e < taken ==> !((#[trigger] s.take(e)).last() == d.last() && framing::outgrown(
                s,
                d,
                e,
            )),
    decreases s.len() + 1 - from,
{
    if from <= s.len() {
        assert(s.take(from).last() == s[from - 1]);
        if framing::ends_at(s, d, from) {
            assert(s.subrange(from - d.len(), from).last() == s[from - 1]);
            if from - d.len() <= MAX_FRAME {
                assert(false);
            }
        } else if !(s[from - 1] == d.last() && framing::outgrown(s, d, from)) {
            lemma_delimited_judged(d, s, from + 1, taken);
        }
    }
}

/// A line whose first delimiter leaves too much before it, or that carries too
/// much and none, is judged broken. That is when the delimiter's last byte
/// comes by and, however much of the delimiter the bytes so far end with, more
/// than the size that will be read came before that; or when the line closes.
/// It is no later, and no byte after that is taken.
pub proof fn law_an_outgrown_frame_is_judged_at_once(
    d: Seq<u8>,
    s: Seq<u8>,
    frame: Result<Seq<u8>, Error>,
    taken: int,
)
    requires
        d.len() > 0,
        s.len() > MAX_FRAME,
        forall|k: int|
            0 <= k <= MAX_FRAME && k + d.len() <= s.len() ==> #[trigger] s.skip(k).take(
                d.len() as int,
            ) != d,
        framing::reads(Boundary::Delimited(d), s, (frame, taken)),
    ensures
        frame == Err::<Seq<u8>, Error>(Error::Oversize),
        MAX_FRAME < taken <= s.len(),
        taken < s.len() ==> s.take(taken).last() == d.last(),
        taken < s.len() ==> forall|n: int|
            0 < n < d.len() && n <= taken && s.subrange(taken - n, taken) == #[trigger] d.take(n)
                ==> taken - n > MAX_FRAME,
        forall|e: int|
            MAX_FRAME < e < taken && (#[trigger] s.take(e)).last() == d.last() ==> exists|n: int|
                0 < n < d.len() && n <= e && e - n <= MAX_FRAME && s.subrange(e - n, e)
                    == #[trigger] d.take(n),
{
    assert forall|e: int| e <= MAX_FRAME + d.len() implies !framing::ends_at(s, d, e) by {
        if framing::ends_at(s, d, e) {
            lemma_stands(s, d, e - d.len());
        }
    }
    lemma_delimited_outgrows(d, s, 1);
    lemma_delimited_judged(d, s, 1, taken);
    assert forall|e: int|
        MAX_FRAME < e < taken && (#[trigger] s.take(e)).last() == d.last() implies exists|n: int|
        0 < n < d.len() && n <= e && e - n <= MAX_FRAME && s.subrange(e - n, e)
            == #[trigger] d.take(n) by {
        assert(!framing::outgrown(s, d, e));
        let n = choose|n: int|
            0 < n < d.len() && framing::ends_at(s, #[trigger] d.take(n), e) && !(e - n
                > MAX_FRAME);
        assert(s.subrange(e - n, e) == d.take(n));
    }
    if taken < s.len() {
        assert forall|n: int|
            0 < n < d.len() && n <= taken && s.subrange(taken - n, taken) == #[trigger] d.take(
                n,
            ) implies taken - n > MAX_FRAME by {
            assert(framing::ends_at(s, d.take(n), taken));
        }
    }
}

/// A measured frame is the next bytes on the line: as many as its protocol may
/// say on being given an opening of them, or that opening itself where it says
/// less, when it may have needed more than every shorter opening.
pub proof fn law_a_measured_frame_is_as_long_as_its_protocol_says(
    m: Measure,
    s: Seq<u8>,
    frame: Seq<u8>,
    taken: int,
)
    requires
        framing::reads(Boundary::Measured(m), s, (Ok(frame), taken)),
    ensures
        0 <= taken <= s.len(),
        frame.len() == taken,
        forall|i: int| 0 <= i < taken ==> #[trigger] frame[i] == s[i],
        exists|header: int, length: usize|
            {
                &&& 1 <= header <= s.len()
                &&& #[trigger] m.protocol.may_answer(s.take(header), Ok(Some(length)))
                &&& length <= MAX_FRAME
                &&& taken == if length < header {
                    header
                } else {
                    length as int
                }
                &&& forall|k: int|
                    1 <= k < header ==> m.protocol.may_answer(#[trigger] s.take(k), Ok(None))
            },
{
    let (header, answer) = choose|header: int, answer: Result<Option<usize>, Error>| #[trigger]
        framing::decided(m, s, header, answer) && (Ok::<Seq<u8>, Error>(frame), taken)
            == framing::measured_by(answer, s, header);
    let length = answer->Ok_0->Some_0;
    assert(m.protocol.may_answer(s.take(header), Ok(Some(length))));
}

/// A measured frame is not read where its protocol may refuse an opening of it,
/// or say that it is over the size that will be read: the bytes after that
/// opening are left. Or it is not read where the line closed before it was told
/// or had come.
pub proof fn law_a_measured_frame_is_refused_or_cut_off(
    m: Measure,
    s: Seq<u8>,
    error: Error,
    taken: int,
)
    requires
        framing::reads(Boundary::Measured(m), s, (Err(error), taken)),
    ensures
        0 <= taken <= s.len(),
        ({
            ||| 1 <= taken && m.protocol.may_answer(s.take(taken), Err(error))
            ||| 1 <= taken && error == Error::Oversize && exists|length: usize| #[trigger]
                m.protocol.may_answer(s.take(taken), Ok(Some(length))) && length > MAX_FRAME
            ||| taken == s.len() && error == Error::Closed(Inside::Measured) && ({
                ||| forall|k: int|
                    1 <= k <= s.len() ==> m.protocol.may_answer(#[trigger] s.take(k), Ok(None))
                ||| exists|header: int, length: usize|
                    1 <= header <= s.len() && s.len() < length <= MAX_FRAME
                        && #[trigger] m.protocol.may_answer(s.take(header), Ok(Some(length)))
            })
        }),
{
    if exists|header: int, answer: Result<Option<usize>, Error>| #[trigger]
        framing::decided(m, s, header, answer) && (Err::<Seq<u8>, Error>(error), taken)
            == framing::measured_by(answer, s, header) {
        let (header, answer) = choose|header: int, answer: Result<Option<usize>, Error>| #[trigger]
            framing::decided(m, s, header, answer) && (Err::<Seq<u8>, Error>(error), taken)
                == framing::measured_by(answer, s, header);
        if let Ok(Some(length)) = answer {
            assert(m.protocol.may_answer(s.take(header), Ok(Some(length))));
        }
    }
}

/// A protocol that needs no more than the first `header` bytes to tell, and
/// tells a length that is there, has its frame read.
pub proof fn law_a_told_frame_is_read(
    m: Measure,
    s: Seq<u8>,
    header: int,
    length: usize,
    frame: Result<Seq<u8>, Error>,
    taken: int,
)
    requires
        1 <= header <= length <= s.len(),
        length <= MAX_FRAME,
        forall|k: int, answer: Result<Option<usize>, Error>|
            1 <= k < header && #[trigger] m.protocol.may_answer(s.take(k), answer) ==> answer
                == Ok::<Option<usize>, Error>(None),
        forall|answer: Result<Option<usize>, Error>| #[trigger]
            m.protocol.may_answer(s.take(header), answer) ==> answer == Ok::<Option<usize>, Error>(
                Some(length),
            ),
        framing::reads(Boundary::Measured(m), s, (frame, taken)),
    ensures
        taken == length,
        frame matches Ok(bytes) && bytes.len() == length && forall|i: int|
            0 <= i < length ==> #[trigger] bytes[i] == s[i],
{
    if framing::undecided(m, s, s.len() as int) {
        assert(m.protocol.may_answer(s.take(header), Ok(None)));
    }
    let (h, answer) = choose|h: int, answer: Result<Option<usize>, Error>| #[trigger]
        framing::decided(m, s, h, answer) && (frame, taken) == framing::measured_by(answer, s, h);
    if h < header {
        assert(m.protocol.may_answer(s.take(h), answer));
    }
    if h > header {
        assert(m.protocol.may_answer(s.take(header), Ok(None)));
    }
    assert(m.protocol.may_answer(s.take(header), answer));
}

/// A delimited line is written the bytes, each in its place, and the delimiter
/// behind them, whatever the bytes are.
pub proof fn law_a_delimiter_is_written_behind_the_bytes(d: Seq<u8>, bytes: Seq<u8>)
    ensures
        framing::framed(Boundary::Delimited(d), bytes) matches Ok(written) && {
            &&& written.len() == bytes.len() + d.len()
            &&& forall|i: int| 0 <= i < bytes.len() ==> #[trigger] written[i] == bytes[i]
            &&& forall|i: int| 0 <= i < d.len() ==> written[bytes.len() + i] == #[trigger] d[i]
        },
{
}

/// A line of a fixed length is written bytes of that length, as they are, and
/// no others: of those the error names how many there are and how many there
/// should be.
pub proof fn law_a_fixed_line_is_written_its_length_only(length: usize, bytes: Seq<u8>)
    requires
        bytes.len() <= usize::MAX,
    ensures
        framing::framed(Boundary::Fixed(length as nat), bytes) is Ok <==> bytes.len() == length,
        framing::framed(Boundary::Fixed(length as nat), bytes) matches Ok(written) ==> written
            == bytes,
        framing::framed(Boundary::Fixed(length as nat), bytes) matches Err(error) ==> {
            error matches Error::WrongLength { got, framed } && got == bytes.len() && framed
                == length
        },
{
}

/// A line whose frames say their own length is written the bytes as they are.
pub proof fn law_a_measured_line_is_written_the_bytes(m: Measure, bytes: Seq<u8>)
    ensures
        framing::framed(Boundary::Measured(m), bytes) == Ok::<Seq<u8>, Error>(bytes),
{
}

/// A framing is the boundary it was made of, and a result is what it holds.
pub proof fn law_views_hold_what_is_there(
    delimiter: Vec<u8>,
    length: usize,
    measure: Measure,
    arrived: Arrived,
    error: Error,
)
    ensures
        Framing::Delimited(delimiter)@ == Boundary::Delimited(delimiter@),
        Framing::Fixed(length)@ == Boundary::Fixed(length as nat),
        Framing::Measured(measure)@ == Boundary::Measured(measure),
        framing::seen(Ok(delimiter)) == Ok::<Seq<u8>, Error>(delimiter@),
        framing::seen(Err(error)) == Err::<Seq<u8>, Error>(error),
        transport::bytes_of(Ok(arrived)) == Ok::<Seq<u8>, Error>(arrived.bytes@),
        transport::bytes_of(Err(error)) == Err::<Seq<u8>, Error>(error),
        transport::heard_of(Ok(Some(delimiter))) == Ok::<Option<Seq<u8>>, Error>(Some(delimiter@)),
        transport::heard_of(Ok(None)) == Ok::<Option<Seq<u8>>, Error>(None),
        transport::heard_of(Err(error)) == Err::<Option<Seq<u8>>, Error>(error),
{
}

/// An assembly keeps every byte that was handed to it, in order, and where its
/// frame ends.
pub proof fn law_an_assembly_keeps_every_byte(
    boundary: Boundary,
    s: Seq<u8>,
    steps: Seq<Incoming>,
    at: int,
)
    requires
        comes_in(boundary, s, steps),
        0 <= at < steps.len(),
    ensures
        steps[at].boundary == boundary,
        steps[at].got.len() == at,
        forall|i: int| 0 <= i < at ==> #[trigger] steps[at].got[i] == s[i],
{
    lemma_coming_in_is_reading(boundary, s, steps, at);
}

/// A frame that its protocol has told the length of is no longer asked about:
/// each byte is taken until that many have come, and then it is whole.
pub proof fn law_a_told_frame_comes_to_its_length(
    before: Incoming,
    byte: u8,
    after: Incoming,
    pushed: Result<(), Error>,
    length: usize,
)
    requires
        !(before.boundary is Delimited),
        before.due == Some(length),
        before.grows(byte, after, pushed),
    ensures
        pushed is Ok,
        after.due == Some(length),
        after.boundary == before.boundary,
        after.got == before.got.push(byte),
        after.whole() <==> before.got.len() + 1 >= length,
        after.frame() == after.got,
{
}

/// What a protocol answers is weighed so: its error is the reading's, a length
/// over the size that will be read is an error, any other length is the
/// frame's, and without one the reading goes on.
pub proof fn law_an_answer_is_weighed(length: usize, error: Error)
    ensures
        framing::weighed(Err(error)) == (None::<usize>, Err::<(), Error>(error)),
        framing::weighed(Ok(None)) == (None::<usize>, Ok::<(), Error>(())),
        length > MAX_FRAME ==> framing::weighed(Ok(Some(length))) == (
            None::<usize>,
            Err::<(), Error>(Error::Oversize),
        ),
        length <= MAX_FRAME ==> framing::weighed(Ok(Some(length))) == (
            Some(length),
            Ok::<(), Error>(()),
        ),
{
}

/// A line that closes inside a frame says which kind of frame it was, or, of a
/// delimited one, that it had outgrown the size that will be read.
pub proof fn law_a_closed_line_says_what_it_closed_on(
    d: Seq<u8>,
    length: nat,
    m: Measure,
    got: Seq<u8>,
)
    ensures
        framing::closed_inside(Boundary::Fixed(length), got) == Error::Closed(Inside::Fixed),
        framing::closed_inside(Boundary::Measured(m), got) == Error::Closed(Inside::Measured),
        got.len() > MAX_FRAME ==> framing::closed_inside(Boundary::Delimited(d), got)
            == Error::Oversize,
        got.len() <= MAX_FRAME ==> framing::closed_inside(Boundary::Delimited(d), got)
            == Error::Closed(Inside::Delimited),
{
}

proof fn lemma_digits(n: nat)
    ensures
        text::decimal(n).len() > 0,
        forall|i: int|
            0 <= i < text::decimal(n).len() ==> '0' <= #[trigger] text::decimal(n)[i] <= '9',
    decreases n,
{
    if n >= 10 {
        lemma_digits(n / 10);
    }
}

proof fn lemma_decimals_tell_numbers_apart(a: nat, b: nat)
    requires
        text::decimal(a) == text::decimal(b),
    ensures
        a == b,
    decreases a,
{
    let digits = text::decimal(a);
    lemma_digits(a / 10);
    lemma_digits(b / 10);
    assert(digits.last() == text::digit(a % 10));
    assert(digits.last() == text::digit(b % 10));
    if a >= 10 && b >= 10 {
        assert(digits.drop_last() =~= text::decimal(a / 10));
        assert(digits.drop_last() =~= text::decimal(b / 10));
        lemma_decimals_tell_numbers_apart(a / 10, b / 10);
    }
}

/// An origin URI is one port at one speed: ports of different names, or at
/// different speeds, have different origins.
pub proof fn law_an_origin_is_one_port(
    port: Seq<char>,
    baud: u32,
    other_port: Seq<char>,
    other_baud: u32,
)
    requires
        transport::origin_of(port, baud) == transport::origin_of(other_port, other_baud),
    ensures
        port == other_port,
        baud == other_baud,
{
    reveal_strlit("serial://");
    reveal_strlit("?baud=");
    let uri = transport::origin_of(port, baud);
    let digits = text::decimal(baud as nat);
    let other_digits = text::decimal(other_baud as nat);
    lemma_digits(baud as nat);
    lemma_digits(other_baud as nat);
    assert(uri[uri.len() - digits.len() - 1] == '=');
    assert(uri[uri.len() - other_digits.len() - 1] == '=');
    if digits.len() < other_digits.len() {
        let at = other_digits.len() - digits.len() - 1;
        assert(other_digits[at] == '=');
    }
    if other_digits.len() < digits.len() {
        let at = digits.len() - other_digits.len() - 1;
        assert(digits[at] == '=');
    }
    assert(digits =~= uri.skip(uri.len() - digits.len()));
    assert(other_digits =~= uri.skip(uri.len() - digits.len()));
    lemma_decimals_tell_numbers_apart(baud as nat, other_baud as nat);
    assert(port =~= uri.subrange(9, uri.len() - digits.len() - 6));
    assert(other_port =~= uri.subrange(9, uri.len() - digits.len() - 6));
}

/// The number that decimal digits stand for.
pub open spec fn number(digits: Seq<char>) -> nat
    decreases digits.len(),
{
    if digits.len() == 0 {
        0
    } else {
        (number(digits.drop_last()) * 10 + (digits.last() as nat - '0' as nat)) as nat
    }
}

/// A number in decimal is digits that stand for it, none of them a leading
/// zero.
pub proof fn law_decimals_stand_for_their_number(n: nat)
    ensures
        text::decimal(n).len() > 0,
        forall|i: int|
            0 <= i < text::decimal(n).len() ==> '0' <= #[trigger] text::decimal(n)[i] <= '9',
        n > 0 ==> text::decimal(n)[0] != '0',
        n == 0 ==> text::decimal(n).len() == 1,
        number(text::decimal(n)) == n,
    decreases n,
{
    lemma_digits(n);
    let digits = text::decimal(n);
    if n >= 10 {
        law_decimals_stand_for_their_number(n / 10);
        assert(digits.drop_last() =~= text::decimal(n / 10));
        assert(digits[0] == text::decimal(n / 10)[0]);
    } else {
        assert(digits.drop_last() =~= Seq::<char>::empty());
        assert(number(digits.drop_last()) == 0);
    }
}

/// An origin URI is the port behind `serial://`, and behind the port the speed
/// in decimal.
pub proof fn law_an_origin_spells_the_port_and_its_speed(port: Seq<char>, baud: u32)
    ensures
        ({
            let uri = transport::origin_of(port, baud);
            let digits = uri.skip(port.len() + 15int);
            &&& uri.len() > port.len() + 15
            &&& uri.take(9) == "serial://"@
            &&& forall|i: int| 0 <= i < port.len() ==> uri[9 + i] == #[trigger] port[i]
            &&& uri.subrange(port.len() + 9int, port.len() + 15int) == "?baud="@
            &&& forall|i: int| 0 <= i < digits.len() ==> '0' <= #[trigger] digits[i] <= '9'
            &&& number(digits) == baud
            &&& baud > 0 ==> digits[0] != '0'
        }),
{
    reveal_strlit("serial://");
    reveal_strlit("?baud=");
    law_decimals_stand_for_their_number(baud as nat);
    let uri = transport::origin_of(port, baud);
    assert(uri.skip(port.len() + 15int) =~= text::decimal(baud as nat));
    assert(uri.take(9) =~= "serial://"@);
    assert(uri.subrange(port.len() + 9int, port.len() + 15int) =~= "?baud="@);
}

/// An error says what it was given: a protocol's own words, the name of the
/// port there is no serial stack for, and both lengths of a wrong length.
pub proof fn law_an_error_says_what_it_is_about(given: String, got: usize, framed: usize)
    ensures
        Error::Protocol(given).said() == given@,
        ({
            let opening = "built without the port feature: no serial stack on this box for "@;
            let said = Error::NoPort(given).said();
            &&& said.len() == opening.len() + given@.len()
            &&& said.take(opening.len() as int) == opening
            &&& said.skip(opening.len() as int) == given@
        }),
        ({
            let said = (Error::WrongLength { got, framed }).said();
            exists|first: Seq<char>, second: Seq<char>|
                number(first) == got && number(second) == framed && said == #[trigger] (
                "a frame of "@ + first + " bytes on a line framed at "@ + second)
        }),
{
    let opening = "built without the port feature: no serial stack on this box for "@;
    let said = Error::NoPort(given).said();
    assert(said.take(opening.len() as int) =~= opening);
    assert(said.skip(opening.len() as int) =~= given@);
    law_decimals_stand_for_their_number(got as nat);
    law_decimals_stand_for_their_number(framed as nat);
    let first = text::decimal(got as nat);
    let second = text::decimal(framed as nat);
    assert((Error::WrongLength { got, framed }).said() == "a frame of "@ + first
        + " bytes on a line framed at "@ + second);
}

/// A name given as a piece of text is that text.
pub proof fn law_a_name_is_the_text_it_was_given_as(given: &str, name: Seq<char>)
    requires
        text::turns_into(given, name),
    ensures
        name == given@,
{
}

/// What comes off an in-memory line is a frame read off its front, and what is
/// behind the bytes that were read stays; where none is read, all stays.
pub proof fn law_a_frame_comes_off_the_front(
    boundary: Boundary,
    before: Seq<u8>,
    frame: Result<Seq<u8>, Error>,
    after: Seq<u8>,
)
    requires
        transport::comes_off(boundary, before, frame, after),
    ensures
        frame is Err ==> after == before && exists|taken: int| #[trigger]
            framing::reads(boundary, before, (frame, taken)),
        frame matches Ok(bytes) ==> {
            &&& after.len() <= before.len()
            &&& before.take(before.len() - after.len()) + after == before
            &&& framing::reads(boundary, before, (frame, before.len() - after.len()))
            &&& framing::framed(boundary, bytes) == Ok::<Seq<u8>, Error>(
                before.take(before.len() - after.len()),
            )
        },
{
    let taken = choose|taken: int| #[trigger]
        framing::reads(boundary, before, (frame, taken)) && after == if frame is Ok {
            before.skip(taken)
        } else {
            before
        };
    if let Ok(bytes) = frame {
        law_frame_is_what_was_taken(boundary, before, bytes, taken);
        assert(before.take(taken) + before.skip(taken) =~= before);
    }
}

/// Listening on an in-memory line gives the bytes that receiving gives and
/// leaves the line as receiving does; only where there is nothing on the line
/// is a failure to receive heard as silence.
pub proof fn law_a_line_is_heard_as_it_is_received(
    boundary: Boundary,
    before: Seq<u8>,
    heard: Result<Option<Seq<u8>>, Error>,
    after: Seq<u8>,
)
    requires
        transport::hears(boundary, before, heard, after),
    ensures
        heard matches Ok(Some(bytes)) ==> {
            &&& after.len() <= before.len()
            &&& before.take(before.len() - after.len()) + after == before
            &&& framing::reads(boundary, before, (Ok(bytes), before.len() - after.len()))
        },
        heard == Ok::<Option<Seq<u8>>, Error>(None) ==> before.len() == 0 && after.len() == 0,
        heard matches Err(error) ==> {
            &&& before.len() > 0
            &&& after == before
            &&& exists|taken: int| #[trigger] framing::reads(boundary, before, (Err(error), taken))
        },
{
    match heard {
        Ok(Some(bytes)) => {
            law_a_frame_comes_off_the_front(boundary, before, Ok(bytes), after);
        },
        Ok(None) => {
            let error = choose|error: Error| #[trigger]
                transport::comes_off(boundary, before, Err(error), after);
            law_a_frame_comes_off_the_front(boundary, before, Err(error), after);
        },
        Err(error) => {
            law_a_frame_comes_off_the_front(boundary, before, Err(error), after);
        },
    }
}

/// What a protocol hears on a station is what may be received off it, from the
/// same origin, and it leaves the station as receiving does.
pub proof fn law_listening_gives_what_receiving_gives(
    station: Station,
    heard: Result<Option<Seq<u8>>, Error>,
    after: Station,
    one: Arrived,
)
    requires
        station.line is Some,
        station.listens(heard, after),
        one.origin_uri@ == transport::origin_of(station.port, station.baud),
    ensures
        heard matches Ok(Some(bytes)) && one.bytes@ == bytes ==> station.receives(Ok(one), after),
        heard matches Err(error) ==> station.receives(Err(error), after) && after == station,
        heard == Ok::<Option<Seq<u8>>, Error>(None) ==> after == station && station.line
            == Some(Seq::<u8>::empty()) && exists|error: Error| #[trigger]
            station.receives(Err(error), after),
{
    let line = station.line->Some_0;
    if heard == Ok::<Option<Seq<u8>>, Error>(None) {
        let error = choose|error: Error| #[trigger]
            transport::comes_off(station.boundary, line, Err(error), after.line->Some_0);
        assert(line =~= Seq::<u8>::empty());
        assert(station.receives(Err(error), after));
    }
}

/// What was sent over an in-memory line is heard whole by a protocol that
/// listens on it, in the order it was sent.
pub proof fn law_sent_frames_are_heard_in_order(
    station: Station,
    frames: Seq<Seq<u8>>,
    heard: Result<Option<Seq<u8>>, Error>,
    after: Station,
)
    requires
        frames.len() > 0,
        forall|i: int| 0 <= i < frames.len() ==> carries(station.boundary, #[trigger] frames[i]),
        station.line == Some(line_of(station.boundary, frames)),
        station.listens(heard, after),
    ensures
        heard == Ok::<Option<Seq<u8>>, Error>(Some(frames[0])),
        after == station.with_line(line_of(station.boundary, frames.drop_first())),
{
    let line = line_of(station.boundary, frames);
    let frame: Result<Seq<u8>, Error> = match heard {
        Ok(Some(bytes)) => Ok(bytes),
        Ok(None) => Err(
            choose|error: Error| #[trigger]
                transport::comes_off(station.boundary, line, Err(error), after.line->Some_0),
        ),
        Err(error) => Err(error),
    };
    let taken = choose|taken: int| #[trigger]
        framing::reads(station.boundary, line, (frame, taken)) && after.line->Some_0 == if frame
            is Ok {
            line.skip(taken)
        } else {
            line
        };
    law_frames_are_read_in_order(station.boundary, frames, frame, taken);
}

/// What stands before the first delimiter on an in-memory line is received and
/// heard, each byte of it; that and the delimiter are taken, and the rest of
/// the line and all else of the station stay.
pub proof fn law_the_bytes_before_the_delimiter_arrive(
    station: Station,
    d: Seq<u8>,
    line: Seq<u8>,
    at: int,
    arrived: Result<Arrived, Error>,
    after: Station,
    heard: Result<Option<Seq<u8>>, Error>,
    after_hearing: Station,
)
    requires
        station.boundary == Boundary::Delimited(d),
        station.line == Some(line),
        d.len() > 0,
        0 <= at <= MAX_FRAME,
        at + d.len() <= line.len(),
        line.skip(at).take(d.len() as int) == d,
        forall|k: int| 0 <= k < at ==> #[trigger] line.skip(k).take(d.len() as int) != d,
        station.receives(arrived, after),
        station.listens(heard, after_hearing),
    ensures
        arrived matches Ok(one) && one.bytes@ == line.take(at),
        heard == Ok::<Option<Seq<u8>>, Error>(Some(line.take(at))),
        after.line == Some(line.skip(at + d.len())),
        after.port == station.port && after.baud == station.baud && after.boundary
            == station.boundary && after.timeout == station.timeout,
        after_hearing == after,
{
    let frame = transport::bytes_of(arrived);
    let taken = choose|taken: int| #[trigger]
        framing::reads(station.boundary, line, (frame, taken)) && after.line->Some_0 == if frame
            is Ok {
            line.skip(taken)
        } else {
            line
        };
    law_a_delimited_frame_is_the_bytes_before_the_delimiter(d, line, at, frame, taken);
    assert(frame->Ok_0 =~= line.take(at));
    let by_ear: Result<Seq<u8>, Error> = match heard {
        Ok(Some(bytes)) => Ok(bytes),
        Ok(None) => Err(
            choose|error: Error| #[trigger]
                transport::comes_off(station.boundary, line, Err(error), after_hearing.line->Some_0),
        ),
        Err(error) => Err(error),
    };
    let took = choose|took: int| #[trigger]
        framing::reads(station.boundary, line, (by_ear, took)) && after_hearing.line->Some_0
            == if by_ear is Ok {
            line.skip(took)
        } else {
            line
        };
    law_a_delimited_frame_is_the_bytes_before_the_delimiter(d, line, at, by_ear, took);
    assert(by_ear->Ok_0 =~= line.take(at));
}

/// The next bytes on an in-memory line of a fixed length are received and
/// heard, that many of them; with fewer on the line none are, and all stay.
pub proof fn law_the_next_bytes_arrive(
    station: Station,
    length: nat,
    line: Seq<u8>,
    arrived: Result<Arrived, Error>,
    after: Station,
    heard: Result<Option<Seq<u8>>, Error>,
    after_hearing: Station,
)
    requires
        station.boundary == Boundary::Fixed(length),
        station.line == Some(line),
        station.receives(arrived, after),
        station.listens(heard, after_hearing),
    ensures
        length <= line.len() ==> {
            &&& arrived matches Ok(one) && one.bytes@ == line.take(length as int)
            &&& heard == Ok::<Option<Seq<u8>>, Error>(Some(line.take(length as int)))
            &&& after.line == Some(line.skip(length as int))
        },
        length > line.len() ==> {
            &&& arrived == Err::<Arrived, Error>(Error::Closed(Inside::Fixed))
            &&& heard == if line.len() == 0 {
                Ok::<Option<Seq<u8>>, Error>(None)
            } else {
                Err::<Option<Seq<u8>>, Error>(Error::Closed(Inside::Fixed))
            }
            &&& after.line == station.line
        },
        after.port == station.port && after.baud == station.baud && after.boundary
            == station.boundary && after.timeout == station.timeout,
        after_hearing == after,
{
    law_a_frame_comes_off_the_front(
        station.boundary,
        line,
        transport::bytes_of(arrived),
        after.line->Some_0,
    );
    law_a_line_is_heard_as_it_is_received(
        station.boundary,
        line,
        heard,
        after_hearing.line->Some_0,
    );
    if length <= line.len() {
        assert(after.line->Some_0 =~= line.skip(length as int));
        assert(after_hearing.line->Some_0 =~= line.skip(length as int));
    } else {
        assert(after_hearing.line->Some_0 =~= line);
    }
}

/// Whatever arrives off a station has its origin, port and speed.
pub proof fn law_what_arrives_has_its_origin(
    station: Station,
    payload: Seq<u8>,
    one: Arrived,
    after: Station,
)
    requires
        station.receives(Ok(one), after) || station.rounds(payload, Ok(one), after),
    ensures
        station.line is Some,
        one.origin_uri@.take(9) == "serial://"@,
        one.origin_uri@.len() > 15 + station.port.len(),
        one.origin_uri@.subrange(9, 9int + station.port.len()) == station.port,
        number(one.origin_uri@.skip(station.port.len() + 15int)) == station.baud,
{
    law_an_origin_spells_the_port_and_its_speed(station.port, station.baud);
    assert(one.origin_uri@.subrange(9, 9int + station.port.len()) =~= station.port);
}

/// A delimited line is written every payload, with the delimiter behind it, and
/// behind all that was on the line; a line whose frames say their own length is
/// written it as it is.
pub proof fn law_a_line_is_written_behind_what_is_on_it(
    station: Station,
    line: Seq<u8>,
    bytes: Seq<u8>,
    sent: Result<(), Error>,
    after: Station,
)
    requires
        !(station.boundary is Fixed),
        station.line == Some(line),
        station.sends(bytes, sent, after),
    ensures
        sent is Ok,
        station.boundary matches Boundary::Delimited(d) ==> after.line == Some(line + bytes + d),
        station.boundary is Measured ==> after.line == Some(line + bytes),
        after.port == station.port && after.baud == station.baud && after.boundary
            == station.boundary && after.timeout == station.timeout,
{
    if let Boundary::Delimited(d) = station.boundary {
        assert(line + (bytes + d) =~= line + bytes + d);
    }
}

/// On a line of a fixed length, writing succeeds if and only if there are
/// exactly that many bytes. Any other number is an error that names both
/// lengths, and the line is left as it was.
pub proof fn law_a_fixed_line_takes_its_length_only(
    station: Station,
    length: usize,
    line: Seq<u8>,
    bytes: Seq<u8>,
    sent: Result<(), Error>,
    after: Station,
)
    requires
        station.boundary == Boundary::Fixed(length as nat),
        station.line == Some(line),
        bytes.len() <= usize::MAX,
        station.sends(bytes, sent, after),
    ensures
        sent is Ok <==> bytes.len() == length,
        sent is Ok ==> after.line == Some(line + bytes),
        sent matches Err(error) ==> {
            &&& error matches Error::WrongLength { got, framed } && got == bytes.len() && framed
                == length
            &&& after.line == Some(line)
        },
        after.port == station.port && after.baud == station.baud && after.boundary
            == station.boundary && after.timeout == station.timeout,
{
    law_a_fixed_line_is_written_its_length_only(length, bytes);
}

/// With a device in place of a line nothing is sent or arrives here: the error
/// names the port, and nothing changes.
pub proof fn law_a_device_is_not_driven_here(
    station: Station,
    bytes: Seq<u8>,
    sent: Result<(), Error>,
    after_sending: Station,
    arrived: Result<Arrived, Error>,
    after: Station,
    heard: Result<Option<Seq<u8>>, Error>,
    after_hearing: Station,
    back: Result<Arrived, Error>,
    after_round: Station,
)
    requires
        station.line is None,
        station.sends(bytes, sent, after_sending),
        station.receives(arrived, after),
        station.listens(heard, after_hearing),
        station.rounds(bytes, back, after_round),
    ensures
        sent matches Err(Error::NoPort(port)) && port@ == station.port,
        arrived matches Err(Error::NoPort(port)) && port@ == station.port,
        heard matches Err(Error::NoPort(port)) && port@ == station.port,
        back == Err::<Arrived, Error>(Error::NotLoopback),
        after_sending == station,
        after == station,
        after_hearing == station,
        after_round == station,
{
}

/// A payload is framed by its length exactly when the line's delimiter stands
/// in it, wherever that is and however long either is; else it is framed as
/// the line is.
pub proof fn law_a_payload_that_holds_the_delimiter_is_framed_by_length(
    boundary: Boundary,
    payload: Seq<u8>,
)
    ensures
        boundary matches Boundary::Delimited(d) ==> {
            let stands = d.len() > 0 && exists|at: int|
                0 <= at && at + d.len() <= payload.len() && #[trigger] payload.skip(at).take(
                    d.len() as int,
                ) == d;
            &&& stands ==> transport::boundary_for(boundary, payload) == Boundary::Fixed(
                payload.len(),
            )
            &&& !stands ==> transport::boundary_for(boundary, payload) == boundary
        },
        !(boundary is Delimited) ==> transport::boundary_for(boundary, payload) == boundary,
{
    if let Boundary::Delimited(d) = boundary {
        law_bytes_hold_what_stands_in_them(payload, d);
    }
}

/// A payload in which the line's delimiter stands goes round an empty line
/// whole, whatever the delimiter and however long the payload, and the line is
/// empty after it.
pub proof fn law_a_payload_that_holds_the_delimiter_goes_round_whole(
    station: Station,
    d: Seq<u8>,
    payload: Seq<u8>,
    at: int,
    arrived: Result<Arrived, Error>,
    after: Station,
)
    requires
        station.boundary == Boundary::Delimited(d),
        station.line == Some(Seq::<u8>::empty()),
        d.len() > 0,
        0 <= at,
        at + d.len() <= payload.len(),
        payload.skip(at).take(d.len() as int) == d,
        station.rounds(payload, arrived, after),
    ensures
        arrived matches Ok(one) && one.bytes@ == payload,
        after.line == Some(Seq::<u8>::empty()),
        after == station,
{
    law_a_payload_that_holds_the_delimiter_is_framed_by_length(station.boundary, payload);
    law_a_round_returns_the_payload_whole(station, payload, arrived, after);
}

/// A payload in which the line's delimiter does not stand goes round an empty
/// line up to the first delimiter in the payload and the delimiter behind it,
/// which is all of it unless the two overlap.
pub proof fn law_a_payload_without_the_delimiter_goes_round_up_to_it(
    station: Station,
    d: Seq<u8>,
    payload: Seq<u8>,
    at: int,
    arrived: Result<Arrived, Error>,
    after: Station,
)
    requires
        station.boundary == Boundary::Delimited(d),
        station.line == Some(Seq::<u8>::empty()),
        d.len() > 0,
        forall|k: int|
            0 <= k && k + d.len() <= payload.len() ==> #[trigger] payload.skip(k).take(
                d.len() as int,
            ) != d,
        0 <= at <= payload.len(),
        at <= MAX_FRAME,
        (payload + d).skip(at).take(d.len() as int) == d,
        forall|k: int| 0 <= k < at ==> #[trigger] (payload + d).skip(k).take(d.len() as int) != d,
        station.rounds(payload, arrived, after),
    ensures
        arrived matches Ok(one) && one.bytes@ == payload.take(at),
        after == station.with_line((payload + d).skip(at + d.len())),
{
    let line = Seq::<u8>::empty() + (payload + d);
    assert(line =~= payload + d);
    law_a_payload_that_holds_the_delimiter_is_framed_by_length(station.boundary, payload);
    let frame = transport::bytes_of(arrived);
    let taken = choose|taken: int| #[trigger]
        framing::reads(station.boundary, line, (frame, taken)) && after.line->Some_0 == if frame
            is Ok {
            line.skip(taken)
        } else {
            line
        };
    law_a_delimited_frame_is_the_bytes_before_the_delimiter(d, line, at, frame, taken);
    assert(frame->Ok_0 =~= payload.take(at));
}

/// A round is a send and a receive, one behind the other, over the same line
/// framed for the payload; where the send fails it is that failure, and
/// afterwards the line is framed as it was.
pub proof fn law_a_round_is_a_send_and_a_receive(
    station: Station,
    payload: Seq<u8>,
    arrived: Result<Arrived, Error>,
    after: Station,
    sent: Result<(), Error>,
    between: Station,
)
    requires
        station.line is Some,
        station.rounds(payload, arrived, after),
        (Station {
            boundary: transport::boundary_for(station.boundary, payload),
            ..station
        }).sends(payload, sent, between),
    ensures
        after.boundary == station.boundary,
        sent is Ok ==> between.receives(
            arrived,
            Station { boundary: between.boundary, ..after },
        ),
        sent matches Err(error) ==> arrived == Err::<Arrived, Error>(error) && after == station,
{
}

} // verus!
