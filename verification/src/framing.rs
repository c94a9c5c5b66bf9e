//! Where one frame ends, and how a frame is read off a line's bytes.

use std::sync::Arc;
use vstd::prelude::*;

use crate::error::{Error, Inside};

verus! {

/// The most a delimited frame may be before the line is judged broken.
///
/// A delimited frame is judged each time the delimiter's last byte comes by: by
/// its own length where the delimiter ends it, and where it goes on by what
/// came of it, less what may yet turn out to open the delimiter. When the line
/// closes it is judged by all that came. A measured frame is judged when it
/// says its length.
pub const MAX_FRAME: usize = 1024 * 1024;

/// A protocol whose frames say their own length, as M-Bus and HART frames do.
pub trait Protocol: Send + Sync {
    /// Whether [`measure`](Protocol::measure) may give `answer` when `read` is
    /// what was read so far. An implementor that says nothing else may give
    /// any.
    open spec fn may_answer(&self, read: Seq<u8>, answer: Result<Option<usize>, Error>) -> bool {
        true
    }

    /// How long a frame is, from the bytes read of it so far: its whole
    /// length, or `None` while another byte is needed to tell.
    ///
    /// # Errors
    /// The bytes read so far open no frame.
    fn measure(&self, read: &[u8]) -> (answer: Result<Option<usize>, Error>)
        ensures
            self.may_answer(read@, answer),
    ;
}

/// How long a frame is, from the bytes read of it so far; see
/// [`Framing::Measured`].
pub struct Measure {
    pub protocol: Arc<Box<dyn Protocol>>,
}

impl Measure {
    /// The length that `protocol` tells.
    pub fn new(protocol: Box<dyn Protocol>) -> (measure: Self)
        ensures
            *measure.protocol == protocol,
    {
        let shared = Arc::new(protocol);
        Measure { protocol: shared }
    }

    /// The same protocol, asked through another handle.
    fn again(&self) -> (measure: Self)
        ensures
            measure == *self,
    {
        Measure { protocol: Arc::clone(&self.protocol) }
    }
}

/// Where one frame ends.
pub enum Framing {
    /// The frame ends with these bytes, which are not part of it.
    Delimited(Vec<u8>),
    /// Every frame is exactly this long.
    Fixed(usize),
    /// The frame says its own length in its first bytes, as M-Bus and HART
    /// frames do: given the bytes read so far, the protocol answers the
    /// frame's whole length, or `None` while it needs another byte to tell.
    Measured(Measure),
}

/// A [`Framing`] as contracts speak of it.
pub enum Boundary {
    Delimited(Seq<u8>),
    Fixed(nat),
    Measured(Measure),
}

impl View for Framing {
    type V = Boundary;

    open spec fn view(&self) -> Boundary {
        match *self {
            Framing::Delimited(delimiter) => Boundary::Delimited(delimiter@),
            Framing::Fixed(length) => Boundary::Fixed(length as nat),
            Framing::Measured(measure) => Boundary::Measured(measure),
        }
    }
}

impl Clone for Framing {
    fn clone(&self) -> (copy: Self)
        ensures
            copy@ == self@,
    {
        match self {
            Framing::Delimited(delimiter) => {
                let copied: Vec<u8> = delimiter.clone();
                assert(copied@ =~= delimiter@);
                Framing::Delimited(copied)
            },
            Framing::Fixed(length) => Framing::Fixed(*length),
            Framing::Measured(measure) => Framing::Measured(measure.again()),
        }
    }
}

/// `d` stands in `s` right before position `e`.
pub open spec fn ends_at(s: Seq<u8>, d: Seq<u8>, e: int) -> bool {
    d.len() <= e <= s.len() && s.subrange(e - d.len(), e) == d
}

/// A frame of `s` that `d` has not ended by position `e` is over the size that
/// will be read, even if the last bytes before `e` are the opening of `d`.
pub open spec fn outgrown(s: Seq<u8>, d: Seq<u8>, e: int) -> bool {
    &&& e > MAX_FRAME
    &&& forall|n: int| 0 < n < d.len() && ends_at(s, #[trigger] d.take(n), e) ==> e - n > MAX_FRAME
}

/// Reading one frame of `length` bytes off `s`: the frame, or why there is
/// none, and how many bytes of `s` the reading took.
pub open spec fn fixed(length: nat, s: Seq<u8>) -> (Result<Seq<u8>, Error>, int) {
    if length <= s.len() {
        (Ok(s.take(length as int)), length as int)
    } else {
        (Err(Error::Closed(Inside::Fixed)), s.len() as int)
    }
}

/// Reading one frame that ends with `d` off `s`, when the frame is known not
/// to end before position `e`.
pub open spec fn delimited_from(d: Seq<u8>, s: Seq<u8>, e: int) -> (Result<Seq<u8>, Error>, int)
    decreases s.len() + 1 - e,
{
    if e > s.len() {
        (Err(closed_inside(Boundary::Delimited(d), s)), s.len() as int)
    } else if ends_at(s, d, e) {
        if e - d.len() > MAX_FRAME {
            (Err(Error::Oversize), e)
        } else {
            (Ok(s.take(e - d.len())), e)
        }
    } else if s[e - 1] == d.last() && outgrown(s, d, e) {
        (Err(Error::Oversize), e)
    } else {
        delimited_from(d, s, e + 1)
    }
}

/// Reading one frame that ends with `d` off `s`: the frame is what comes
/// before the first `d`, and no more than [`MAX_FRAME`] bytes.
pub open spec fn delimited(d: Seq<u8>, s: Seq<u8>) -> (Result<Seq<u8>, Error>, int) {
    if d.len() == 0 {
        (Err(Error::EmptyDelimiter), 0)
    } else {
        delimited_from(d, s, 1)
    }
}

/// What reading off `s` comes to when its first `header` bytes were answered
/// with `answer`, and no shorter opening told the frame's length.
pub open spec fn measured_by(
    answer: Result<Option<usize>, Error>,
    s: Seq<u8>,
    header: int,
) -> (Result<Seq<u8>, Error>, int) {
    match answer {
        Err(error) => (Err(error), header),
        Ok(Some(length)) => if length > MAX_FRAME {
            (Err(Error::Oversize), header)
        } else if length <= header {
            (Ok(s.take(header)), header)
        } else if length <= s.len() {
            (Ok(s.take(length as int)), length as int)
        } else {
            (Err(Error::Closed(Inside::Measured)), s.len() as int)
        },
        Ok(None) => (Err(Error::Closed(Inside::Measured)), s.len() as int),
    }
}

/// `m` may need more than the first `n` bytes of `s` to tell a frame's length.
pub open spec fn undecided(m: Measure, s: Seq<u8>, n: int) -> bool {
    forall|k: int| 1 <= k <= n ==> m.protocol.may_answer(#[trigger] s.take(k), Ok(None))
}

/// `outcome` is how reading one frame that `m` measures may go, off `s`: `m`
/// is asked after each byte until it answers with a length or an error, or
/// until the line closes.
pub open spec fn measured(
    m: Measure,
    s: Seq<u8>,
    outcome: (Result<Seq<u8>, Error>, int),
) -> bool {
    ||| undecided(m, s, s.len() as int) && outcome == (
        Err::<Seq<u8>, Error>(Error::Closed(Inside::Measured)),
        s.len() as int,
    )
    ||| exists|header: int, answer: Result<Option<usize>, Error>| #[trigger]
        decided(m, s, header, answer) && outcome == measured_by(answer, s, header)
}

/// `m` may tell with its `answer` what frame `s` opens with from its first
/// `header` bytes, and from no fewer.
pub open spec fn decided(
    m: Measure,
    s: Seq<u8>,
    header: int,
    answer: Result<Option<usize>, Error>,
) -> bool {
    &&& 1 <= header <= s.len()
    &&& undecided(m, s, header - 1)
    &&& m.protocol.may_answer(s.take(header), answer)
    &&& answer != Ok::<Option<usize>, Error>(None)
}

/// Why a line that closed after the bytes `got` of a frame gave no frame.
pub open spec fn closed_inside(boundary: Boundary, got: Seq<u8>) -> Error {
    match boundary {
        Boundary::Delimited(_) => if got.len() > MAX_FRAME {
            Error::Oversize
        } else {
            Error::Closed(Inside::Delimited)
        },
        Boundary::Fixed(_) => Error::Closed(Inside::Fixed),
        Boundary::Measured(_) => Error::Closed(Inside::Measured),
    }
}

/// `outcome` is how reading one frame off `s` may go: the frame or the error,
/// and how many bytes of `s` were taken.
pub open spec fn reads(
    boundary: Boundary,
    s: Seq<u8>,
    outcome: (Result<Seq<u8>, Error>, int),
) -> bool {
    match boundary {
        Boundary::Delimited(d) => outcome == delimited(d, s),
        Boundary::Fixed(length) => outcome == fixed(length, s),
        Boundary::Measured(m) => measured(m, s, outcome),
    }
}

/// `bytes` as one frame on the line: with the delimiter behind it, or of the
/// length that every frame has.
pub open spec fn framed(boundary: Boundary, bytes: Seq<u8>) -> Result<Seq<u8>, Error> {
    match boundary {
        Boundary::Delimited(d) => Ok(bytes + d),
        Boundary::Fixed(length) => if bytes.len() == length {
            Ok(bytes)
        } else {
            Err(Error::WrongLength { got: bytes.len() as usize, framed: length as usize })
        },
        Boundary::Measured(_) => Ok(bytes),
    }
}

/// `d` stands somewhere in `s`.
pub open spec fn holds(s: Seq<u8>, d: Seq<u8>) -> bool {
    exists|e: int| ends_at(s, d, e)
}

/// A result with its bytes as a sequence.
pub open spec fn seen(result: Result<Vec<u8>, Error>) -> Result<Seq<u8>, Error> {
    match result {
        Ok(frame) => Ok(frame@),
        Err(error) => Err(error),
    }
}

/// Whether `bytes` ends with `d`.
fn ends_with(bytes: &[u8], d: &[u8]) -> (yes: bool)
    ensures
        yes == ends_at(bytes@, d@, bytes@.len() as int),
{
    if d.len() > bytes.len() {
        return false;
    }
    let start: usize = bytes.len() - d.len();
    let mut i: usize = 0;
    while i < d.len()
        invariant
            i <= d.len(),
            start + d.len() == bytes.len(),
            forall|k: int| 0 <= k < i ==> bytes@[start + k] == d@[k],
        decreases d.len() - i,
    {
        if bytes[start + i] != d[i] {
            assert(bytes@.subrange(start as int, bytes@.len() as int)[i as int] != d@[i as int]);
            return false;
        }
        i += 1;
    }
    assert(bytes@.subrange(start as int, bytes@.len() as int) =~= d@);
    true
}

/// Whether a frame that has come as far as `bytes` is over the size that will
/// be read, even if the last of them open `d`.
fn has_outgrown(bytes: &[u8], d: &[u8]) -> (yes: bool)
    ensures
        yes == outgrown(bytes@, d@, bytes@.len() as int),
{
    if bytes.len() <= MAX_FRAME {
        return false;
    }
    let mut n: usize = 1;
    while n < d.len()
        invariant
            1 <= n,
            bytes@.len() > MAX_FRAME,
            forall|k: int|
                0 < k < n && k < d@.len() && ends_at(
                    bytes@,
                    #[trigger] d@.take(k),
                    bytes@.len() as int,
                ) ==> bytes@.len() - k > MAX_FRAME,
        decreases d.len() - n,
    {
        let opening: &[u8] = vstd::slice::slice_subrange(d, 0, n);
        assert(opening@ =~= d@.take(n as int));
        if ends_with(bytes, opening) && bytes.len() - n <= MAX_FRAME {
            return false;
        }
        n += 1;
    }
    true
}

/// Whether `d` stands somewhere in `bytes`.
pub(crate) fn contains(bytes: &[u8], d: &[u8]) -> (yes: bool)
    ensures
        yes == holds(bytes@, d@),
{
    let mut e: usize = d.len();
    while e <= bytes.len()
        invariant
            d.len() <= e,
            forall|k: int| k < e ==> !ends_at(bytes@, d@, k),
        decreases bytes.len() + 1 - e,
    {
        let opening: &[u8] = vstd::slice::slice_subrange(bytes, 0, e);
        assert(opening@.subrange(e - d@.len(), e as int) =~= bytes@.subrange(
            e - d@.len(),
            e as int,
        ));
        if ends_with(opening, d) {
            assert(ends_at(bytes@, d@, e as int));
            return true;
        }
        if e == usize::MAX {
            return false;
        }
        e += 1;
    }
    false
}

/// A frame on its way in, as contracts speak of it.
pub struct Incoming {
    /// Where the frame ends.
    pub boundary: Boundary,
    /// The bytes that came so far.
    pub got: Seq<u8>,
    /// The frame's length, once it is known.
    pub due: Option<usize>,
}

impl Incoming {
    /// A delimiter has bytes, and a frame of a fixed length has its length
    /// from the start.
    pub open spec fn wf(self) -> bool {
        match self.boundary {
            Boundary::Delimited(d) => d.len() > 0 && self.due is None,
            Boundary::Fixed(length) => self.due matches Some(due) && due == length,
            Boundary::Measured(_) => self.due matches Some(due) ==> due <= MAX_FRAME,
        }
    }

    /// The last byte of the frame has come, and the frame is within the size
    /// that will be read.
    pub open spec fn whole(self) -> bool {
        match self.boundary {
            Boundary::Delimited(d) => ends_at(self.got, d, self.got.len() as int) && self.got.len()
                - d.len() <= MAX_FRAME,
            _ => self.due matches Some(due) && due <= self.got.len(),
        }
    }

    /// The frame that a whole frame's bytes are, without its delimiter.
    pub open spec fn frame(self) -> Seq<u8> {
        match self.boundary {
            Boundary::Delimited(d) => self.got.take(self.got.len() - d.len()),
            _ => self.got,
        }
    }
}

impl Incoming {
    /// `byte` comes next and leaves the frame as `after`, and `outcome` says
    /// whether the reading goes on.
    pub open spec fn grows(self, byte: u8, after: Incoming, outcome: Result<(), Error>) -> bool {
        &&& after.boundary == self.boundary
        &&& after.got == self.got.push(byte)
        &&& match self.boundary {
            Boundary::Fixed(_) => after.due == self.due && outcome == Ok::<(), Error>(()),
            Boundary::Delimited(d) => after.due == self.due && outcome == if byte == d.last()
                && outgrown(after.got, d, after.got.len() as int) && !after.whole() {
                Err::<(), Error>(Error::Oversize)
            } else {
                Ok::<(), Error>(())
            },
            Boundary::Measured(m) => match self.due {
                Some(_) => after.due == self.due && outcome == Ok::<(), Error>(()),
                None => exists|answer: Result<Option<usize>, Error>| #[trigger]
                    m.protocol.may_answer(after.got, answer) && (after.due, outcome) == weighed(
                        answer,
                    ),
            },
        }
    }
}

/// A frame of which nothing has come yet.
pub open spec fn begun(boundary: Boundary) -> Incoming {
    Incoming {
        boundary,
        got: Seq::empty(),
        due: match boundary {
            Boundary::Fixed(length) => Some(length as usize),
            _ => None,
        },
    }
}

/// The frame's length after a protocol's `answer`, and whether the reading
/// goes on.
pub open spec fn weighed(answer: Result<Option<usize>, Error>) -> (
    Option<usize>,
    Result<(), Error>,
) {
    match answer {
        Err(error) => (None, Err(error)),
        Ok(None) => (None, Ok(())),
        Ok(Some(length)) => if length > MAX_FRAME {
            (None, Err(Error::Oversize))
        } else {
            (Some(length), Ok(()))
        },
    }
}

/// One frame on its way in, byte by byte, from a source that is read
/// elsewhere: a port hands each byte it reads to [`push`](Assembly::push)
/// until the frame is [`whole`](Assembly::whole).
pub struct Assembly<'a> {
    framing: &'a Framing,
    frame: Vec<u8>,
    due: Option<usize>,
}

impl<'a> View for Assembly<'a> {
    type V = Incoming;

    closed spec fn view(&self) -> Incoming {
        Incoming { boundary: self.framing@, got: self.frame@, due: self.due }
    }
}

impl<'a> Assembly<'a> {
    /// A frame of which nothing has come yet.
    ///
    /// # Errors
    /// The delimiter is empty.
    pub fn begin(framing: &'a Framing) -> (assembly: Result<Self, Error>)
        ensures
            match assembly {
                Ok(incoming) => incoming@ == begun(framing@) && incoming@.wf(),
                Err(error) => {
                    &&& error == Error::EmptyDelimiter
                    &&& framing@ == Boundary::Delimited(Seq::<u8>::empty())
                },
            },
            framing@ is Delimited && framing@->Delimited_0.len() == 0 ==> assembly is Err,
    {
        let due: Option<usize> = match framing {
            Framing::Fixed(length) => Some(*length),
            Framing::Measured(_) => None,
            Framing::Delimited(delimiter) => {
                if delimiter.is_empty() {
                    assert(delimiter@ =~= Seq::<u8>::empty());
                    return Err(Error::EmptyDelimiter);
                }
                None
            },
        };
        Ok(Assembly { framing, frame: Vec::new(), due })
    }

    /// Whether the last byte of the frame has come, and the frame is within the
    /// size that will be read.
    pub fn whole(&self) -> (yes: bool)
        ensures
            yes == self@.whole(),
    {
        match self.framing {
            Framing::Delimited(delimiter) => ends_with(
                self.frame.as_slice(),
                delimiter.as_slice(),
            ) && self.frame.len() - delimiter.len() <= MAX_FRAME,
            _ => match self.due {
                Some(due) => due <= self.frame.len(),
                None => false,
            },
        }
    }

    /// What a protocol answered about the bytes that came so far.
    ///
    /// # Errors
    /// The protocol's own, or a length over [`MAX_FRAME`].
    pub fn weigh(&mut self, answer: Result<Option<usize>, Error>) -> (weighed_out: Result<(), Error>)
        requires
            old(self)@.wf(),
            old(self)@.boundary is Measured,
        ensures
            final(self)@.wf(),
            final(self)@.boundary == old(self)@.boundary,
            final(self)@.got == old(self)@.got,
            (final(self)@.due, weighed_out) == weighed(answer),
    {
        self.due = None;
        match answer {
            Err(error) => Err(error),
            Ok(None) => Ok(()),
            Ok(Some(length)) => {
                if length > MAX_FRAME {
                    return Err(Error::Oversize);
                }
                self.due = Some(length);
                Ok(())
            },
        }
    }

    /// The next byte of the frame.
    ///
    /// # Errors
    /// The frame is over the size that will be read, or the protocol that
    /// measures it refuses it.
    pub fn push(&mut self, byte: u8) -> (pushed: Result<(), Error>)
        requires
            old(self)@.wf(),
            !old(self)@.whole(),
        ensures
            final(self)@.wf(),
            old(self)@.grows(byte, final(self)@, pushed),
    {
        self.frame.push(byte);
        match self.framing {
            Framing::Fixed(_) => Ok(()),
            Framing::Delimited(delimiter) => {
                let last: u8 = delimiter[delimiter.len() - 1];
                if byte == last && has_outgrown(self.frame.as_slice(), delimiter.as_slice())
                    && !self.whole() {
                    return Err(Error::Oversize);
                }
                Ok(())
            },
            Framing::Measured(measure) => {
                if self.due.is_some() {
                    return Ok(());
                }
                let answer = measure.protocol.measure(self.frame.as_slice());
                let ghost answered = answer;
                let outcome = self.weigh(answer);
                assert(old(self)@.boundary->Measured_0.protocol.may_answer(self@.got, answered));
                outcome
            },
        }
    }

    /// Why there is no frame, when the line closed before its last byte.
    pub fn closed(&self) -> (error: Error)
        ensures
            error == closed_inside(self@.boundary, self@.got),
    {
        match self.framing {
            Framing::Fixed(_) => Error::Closed(Inside::Fixed),
            Framing::Measured(_) => Error::Closed(Inside::Measured),
            Framing::Delimited(_) => {
                if self.frame.len() > MAX_FRAME {
                    Error::Oversize
                } else {
                    Error::Closed(Inside::Delimited)
                }
            },
        }
    }

    /// The whole frame.
    pub fn finish(self) -> (frame: Vec<u8>)
        requires
            self@.whole(),
        ensures
            frame@ == self@.frame(),
    {
        let mut frame: Vec<u8> = self.frame;
        match self.framing {
            Framing::Delimited(delimiter) => {
                let length: usize = frame.len() - delimiter.len();
                frame.truncate(length);
            },
            _ => {},
        }
        frame
    }
}

/// What is settled about a reading off `s` that has come as far as `incoming`.
pub open spec fn reading(s: Seq<u8>, incoming: Incoming) -> bool {
    let at = incoming.got.len() as int;
    &&& at <= s.len()
    &&& incoming.got == s.take(at)
    &&& incoming.wf()
    &&& match incoming.boundary {
        Boundary::Fixed(length) => at <= length,
        Boundary::Delimited(d) => if incoming.whole() {
            delimited(d, s) == (Ok::<Seq<u8>, Error>(incoming.frame()), at)
        } else {
            delimited(d, s) == delimited_from(d, s, at + 1)
        },
        Boundary::Measured(m) => match incoming.due {
            None => undecided(m, s, at),
            Some(due) => exists|header: int| #[trigger]
                decided(m, s, header, Ok(Some(due))) && header <= at && (header < at ==> at <= due),
        },
    }
}

/// A reading that takes its next byte is still on course, or it is over.
pub(crate) proof fn lemma_reading_grows(
    s: Seq<u8>,
    before: Incoming,
    after: Incoming,
    outcome: Result<(), Error>,
)
    requires
        reading(s, before),
        !before.whole(),
        before.got.len() < s.len(),
        before.grows(s[before.got.len() as int], after, outcome),
        after.wf(),
    ensures
        match outcome {
            Ok(()) => reading(s, after),
            Err(error) => reads(before.boundary, s, (Err(error), after.got.len() as int)),
        },
{
    let at = after.got.len() as int;
    assert(after.got =~= s.take(at));
    match before.boundary {
        Boundary::Fixed(_) => {},
        Boundary::Delimited(d) => {
            if d.len() <= at {
                assert(s.take(at).subrange(at - d.len(), at) =~= s.subrange(at - d.len(), at));
                assert(s.take(at).take(at - d.len()) =~= s.take(at - d.len()));
            }
            assert forall|n: int| 0 < n < d.len() implies ends_at(
                after.got,
                #[trigger] d.take(n),
                at,
            ) == ends_at(s, d.take(n), at) by {
                if n <= at {
                    assert(s.take(at).subrange(at - n, at) =~= s.subrange(at - n, at));
                }
            }
            assert(outgrown(after.got, d, at) == outgrown(s, d, at));
        },
        Boundary::Measured(m) => {
            if before.due is None {
                let answer = choose|answer: Result<Option<usize>, Error>| #[trigger]
                    m.protocol.may_answer(after.got, answer) && (after.due, outcome) == weighed(
                        answer,
                    );
                if answer != Ok::<Option<usize>, Error>(None) {
                    assert(decided(m, s, at, answer));
                }
            }
        },
    }
}

/// A reading whose frame is whole is over.
pub(crate) proof fn lemma_reading_whole(s: Seq<u8>, incoming: Incoming)
    requires
        reading(s, incoming),
        incoming.whole(),
    ensures
        reads(incoming.boundary, s, (Ok(incoming.frame()), incoming.got.len() as int)),
{
}

/// A reading that has come to the end of the line is over.
pub(crate) proof fn lemma_reading_closed(s: Seq<u8>, incoming: Incoming)
    requires
        reading(s, incoming),
        !incoming.whole(),
        incoming.got.len() == s.len(),
    ensures
        reads(
            incoming.boundary,
            s,
            (Err(closed_inside(incoming.boundary, incoming.got)), s.len() as int),
        ),
{
    assert(s.take(s.len() as int) =~= s);
}

/// Read one frame off `source` under `framing`; how many bytes it took comes
/// with the frame.
fn read_off(source: &[u8], framing: &Framing) -> (outcome: (Result<Vec<u8>, Error>, usize))
    ensures
        outcome.1 <= source@.len(),
        reads(framing@, source@, (seen(outcome.0), outcome.1 as int)),
{
    let mut incoming = match Assembly::begin(framing) {
        Ok(begun) => begun,
        Err(error) => return (Err(error), 0),
    };
    let mut at: usize = 0;
    assert(source@.take(0) =~= Seq::<u8>::empty());
    while !incoming.whole()
        invariant
            at == incoming@.got.len(),
            incoming@.boundary == framing@,
            reading(source@, incoming@),
        decreases source@.len() - at,
    {
        if at == source.len() {
            proof {
                lemma_reading_closed(source@, incoming@);
            }
            return (Err(incoming.closed()), at);
        }
        let ghost before = incoming@;
        let pushed = incoming.push(source[at]);
        proof {
            lemma_reading_grows(source@, before, incoming@, pushed);
        }
        at += 1;
        match pushed {
            Ok(()) => {},
            Err(error) => return (Err(error), at),
        }
    }
    proof {
        lemma_reading_whole(source@, incoming@);
    }
    (Ok(incoming.finish()), at)
}

/// Read one frame from `reader` under `framing`; `reader` is left at what
/// comes after the bytes that were taken.
///
/// # Errors
/// The line closed inside a frame, or a frame outgrew [`MAX_FRAME`].
pub fn read_frame(reader: &mut &[u8], framing: &Framing) -> (frame: Result<Vec<u8>, Error>)
    ensures
        final(reader)@.len() <= old(reader)@.len(),
        final(reader)@ == old(reader)@.skip(old(reader)@.len() - final(reader)@.len()),
        reads(
            framing@,
            old(reader)@,
            (seen(frame), old(reader)@.len() - final(reader)@.len()),
        ),
{
    let source: &[u8] = *reader;
    let (frame, taken) = read_off(source, framing);
    *reader = vstd::slice::slice_subrange(source, taken, source.len());
    frame
}

} // verus!
