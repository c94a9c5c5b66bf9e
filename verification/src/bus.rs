//! A multi-drop serial bus, in process: one pair of wires, a master, and as
//! many addressed devices as a test or a configuration puts on it.
//!
//! RS-485 and the field buses on it — M-Bus, HART, Modbus RTU — are
//! multi-drop: every device hears every frame, and the protocol's address
//! says which one answers. A line that echoes cannot show any of what a bus is
//! for, so this one keeps the parts that matter:
//!
//! - **Addressing.** Every attached [`Device`] hears every frame and decides
//!   from the protocol's own address whether it is meant; one that is not
//!   stays silent.
//! - **Silence and collision.** No answer is silence, and the master's read
//!   finds nothing. Two answers to one frame collide: the master reads the two
//!   overlaid, which no protocol's checksum passes.
//! - **Turnaround.** An answer is on the line only after the bus's turnaround;
//!   a master that polls before that reads nothing yet.
//! - **Unsolicited frames.** A device may speak unasked — HART burst mode —
//!   through [`Bus::speak`].
//! - **Faults.** A character lost on the way to the devices, and a break
//!   condition the master's next read meets.
//!
//! Moments are told as time since the bus was made.

use std::collections::VecDeque;
use std::sync::Arc;
use std::time::{Duration, Instant};
use vstd::prelude::*;

use crate::clock;
use crate::error::Error;
use crate::text;

verus! {

/// What a device does on hearing a frame: its answer, no answer, or an error.
pub type Reply = Result<Option<Vec<u8>>, Error>;

/// Something on the bus with an address: a meter, a field device.
pub trait Device: Send + Sync {
    /// Whether [`hear`](Device::hear) may give `reply` to `frame`. An
    /// implementor that says nothing else may give any.
    open spec fn may_reply(&self, frame: Seq<u8>, reply: Reply) -> bool {
        true
    }

    /// What this device puts on the line after hearing `frame`: its answer,
    /// or `None` when the frame is not for it or asks for no answer.
    ///
    /// # Errors
    /// The frame was for this device and it could not act on it.
    fn hear(&self, frame: &[u8]) -> (reply: Reply)
        ensures
            self.may_reply(frame@, reply),
    ;
}

/// One frame waiting for the master, and when it is on the line, as contracts
/// speak of it.
pub struct Waiting {
    pub bytes: Seq<u8>,
    pub ready: nat,
}

/// A [`Bus`] as contracts speak of it.
pub struct Wires {
    pub name: Seq<char>,
    /// In nanoseconds.
    pub turnaround: nat,
    pub devices: Seq<Arc<dyn Device>>,
    /// What the master has not read yet, oldest first.
    pub waiting: Seq<Waiting>,
    /// Lose one character from every frame whose number this divides.
    pub lose_every: Option<u32>,
    /// The master's next read meets a break condition.
    pub broken: bool,
    /// How many frames the master has sent.
    pub sent: nat,
    /// When the bus was made, on the machine's clock.
    pub start: Instant,
}

/// The longest answer's length.
pub open spec fn longest(answers: Seq<Seq<u8>>) -> nat
    decreases answers.len(),
{
    if answers.len() == 0 {
        0
    } else if longest(answers.drop_last()) < answers.last().len() {
        answers.last().len()
    } else {
        longest(answers.drop_last())
    }
}

/// The byte at `at` of all answers that reach that far, on the line at once:
/// the OR of theirs.
pub open spec fn overlaid_at(answers: Seq<Seq<u8>>, at: int) -> u8
    decreases answers.len(),
{
    if answers.len() == 0 {
        0
    } else if at < answers.last().len() {
        overlaid_at(answers.drop_last(), at) | answers.last()[at]
    } else {
        overlaid_at(answers.drop_last(), at)
    }
}

/// Answers on the line at once, as drivers pulling one pair of wires leave
/// them.
pub open spec fn overlaid(answers: Seq<Seq<u8>>) -> Seq<u8> {
    Seq::new(longest(answers), |at: int| overlaid_at(answers, at))
}

/// What the master reads of `answers` to one frame: nothing, the one answer
/// whole, or two and more overlaid.
pub open spec fn on_the_line(answers: Seq<Seq<u8>>) -> Option<Seq<u8>> {
    if answers.len() == 0 {
        None
    } else if answers.len() == 1 {
        Some(answers[0])
    } else {
        Some(overlaid(answers))
    }
}

/// Answers with their bytes as sequences.
pub open spec fn views(answers: Seq<Vec<u8>>) -> Seq<Seq<u8>> {
    answers.map_values(|answer: Vec<u8>| answer@)
}

/// Two or more answers on the line at once: each byte the OR of theirs, as
/// drivers pulling one pair of wires leave it, the longest answer's length.
pub fn collided(answers: &[Vec<u8>]) -> (line: Vec<u8>)
    ensures
        line@ == overlaid(views(answers@)),
{
    let ghost all = views(answers@);
    let mut length: usize = 0;
    let mut i: usize = 0;
    assert(all.take(0) =~= Seq::<Seq<u8>>::empty());
    while i < answers.len()
        invariant
            i <= answers.len(),
            all == views(answers@),
            length == longest(all.take(i as int)),
        decreases answers.len() - i,
    {
        assert(all.take(i + 1).drop_last() =~= all.take(i as int));
        if answers[i].len() > length {
            length = answers[i].len();
        }
        i += 1;
    }
    assert(all.take(i as int) =~= all);
    let mut line: Vec<u8> = Vec::new();
    while line.len() < length
        invariant
            all == views(answers@),
            line.len() <= length,
            forall|at: int| 0 <= at < line.len() ==> line@[at] == overlaid_at(all, at),
        decreases length - line.len(),
    {
        let at: usize = line.len();
        let mut byte: u8 = 0;
        let mut k: usize = 0;
        assert(all.take(0) =~= Seq::<Seq<u8>>::empty());
        while k < answers.len()
            invariant
                k <= answers.len(),
                all == views(answers@),
                byte == overlaid_at(all.take(k as int), at as int),
            decreases answers.len() - k,
        {
            assert(all.take(k + 1).drop_last() =~= all.take(k as int));
            if at < answers[k].len() {
                byte = byte | answers[k][at];
            }
            k += 1;
        }
        assert(all.take(k as int) =~= all);
        line.push(byte);
    }
    assert(line@ =~= overlaid(all));
    line
}

/// Whether the `nth` frame that the master sends loses a character.
pub open spec fn lossy(lose_every: Option<u32>, nth: nat) -> bool {
    lose_every matches Some(every) && every != 0 && nth % (every as nat) == 0
}

/// `frame` as the devices hear it when it is the `nth` that the master sends,
/// and whether a fault changed it: the middle character may be lost.
pub open spec fn hearing(lose_every: Option<u32>, nth: nat, frame: Seq<u8>) -> (Seq<u8>, bool) {
    if lossy(lose_every, nth) && frame.len() > 0 {
        (frame.remove(frame.len() as int / 2), true)
    } else {
        (frame, false)
    }
}

/// The answers among `replies`, in their order.
pub open spec fn answers_in(replies: Seq<Reply>) -> Seq<Seq<u8>>
    decreases replies.len(),
{
    if replies.len() == 0 {
        Seq::empty()
    } else {
        match replies.last() {
            Ok(Some(answer)) => answers_in(replies.drop_last()).push(answer@),
            _ => answers_in(replies.drop_last()),
        }
    }
}

/// The first error among `replies`.
pub open spec fn refusal_in(replies: Seq<Reply>) -> Option<Error>
    decreases replies.len(),
{
    if replies.len() == 0 {
        None
    } else {
        match (refusal_in(replies.drop_last()), replies.last()) {
            (Some(error), _) => Some(error),
            (None, Err(error)) => Some(error),
            (None, Ok(_)) => None,
        }
    }
}

/// `replies` may be what the devices give on hearing `frame`: one reply of
/// every device.
pub open spec fn polled(
    devices: Seq<Arc<dyn Device>>,
    frame: Seq<u8>,
    replies: Seq<Reply>,
) -> bool {
    &&& replies.len() == devices.len()
    &&& forall|i: int|
        0 <= i < replies.len() ==> devices[i].may_reply(frame, #[trigger] replies[i])
}

/// What comes of `replies`: the answers, or the error of the first device that
/// refused an intact frame.
pub open spec fn outcome_of(replies: Seq<Reply>, damaged: bool) -> Result<Seq<Seq<u8>>, Error> {
    match refusal_in(replies) {
        Some(error) if !damaged => Err(error),
        _ => Ok(answers_in(replies)),
    }
}

/// Answers, or an error, with the bytes as sequences.
pub open spec fn views_of(gathered: Result<Vec<Vec<u8>>, Error>) -> Result<Seq<Seq<u8>>, Error> {
    match gathered {
        Ok(answers) => Ok(views(answers@)),
        Err(error) => Err(error),
    }
}

/// One device's `reply` to a frame. A device that cannot read a damaged frame
/// ignores it, as a real one does; an intact frame it cannot act on is an
/// error.
///
/// # Errors
/// The device's own, on an intact frame.
pub fn take_reply(answers: &mut Vec<Vec<u8>>, reply: Reply, damaged: bool) -> (taken: Result<
    (),
    Error,
>)
    ensures
        match reply {
            Ok(Some(answer)) => taken is Ok && final(answers)@ == old(answers)@.push(answer),
            Ok(None) => taken is Ok && final(answers)@ == old(answers)@,
            Err(error) => {
                &&& final(answers)@ == old(answers)@
                &&& taken == if damaged {
                    Ok::<(), Error>(())
                } else {
                    Err::<(), Error>(error)
                }
            },
        },
{
    match reply {
        Ok(Some(answer)) => {
            answers.push(answer);
            Ok(())
        },
        Ok(None) => Ok(()),
        Err(error) => {
            if damaged {
                Ok(())
            } else {
                Err(error)
            }
        },
    }
}

/// Every device hears `frame`, in turn, also behind one that refuses it; what
/// they answer comes back in their order.
///
/// # Errors
/// A device could not act on a frame that no fault had changed; the first such
/// device's error.
pub fn gather(devices: &[Arc<dyn Device>], frame: &[u8], damaged: bool) -> (gathered: Result<
    Vec<Vec<u8>>,
    Error,
>)
    ensures
        exists|replies: Seq<Reply>| #[trigger]
            polled(devices@, frame@, replies) && views_of(gathered) == outcome_of(
                replies,
                damaged,
            ),
{
    let mut answers: Vec<Vec<u8>> = Vec::new();
    let mut refusal: Option<Error> = None;
    let ghost mut replies: Seq<Reply> = Seq::empty();
    let mut i: usize = 0;
    assert(views(answers@) =~= Seq::<Seq<u8>>::empty());
    while i < devices.len()
        invariant
            i <= devices.len(),
            replies.len() == i,
            forall|k: int|
                0 <= k < i ==> devices@[k].may_reply(frame@, #[trigger] replies[k]),
            views(answers@) == answers_in(replies),
            refusal == if damaged {
                None::<Error>
            } else {
                refusal_in(replies)
            },
        decreases devices.len() - i,
    {
        let reply: Reply = devices[i].hear(frame);
        let ghost before = replies;
        let ghost kept = answers@;
        proof {
            replies = replies.push(reply);
            assert(replies.drop_last() =~= before);
        }
        match take_reply(&mut answers, reply, damaged) {
            Ok(()) => {
                assert(replies.last() matches Ok(Some(answer)) ==> views(answers@) =~= views(
                    kept,
                ).push(answer@));
            },
            Err(error) => {
                if refusal.is_none() {
                    refusal = Some(error);
                }
            },
        }
        i += 1;
    }
    assert(polled(devices@, frame@, replies));
    match refusal {
        Some(error) => Err(error),
        None => Ok(answers),
    }
}

/// One frame waiting for the master, and when it is on the line.
struct Pending {
    bytes: Vec<u8>,
    ready: u128,
}

impl Pending {
    spec fn view(self) -> Waiting {
        Waiting { bytes: self.bytes@, ready: self.ready as nat }
    }
}

/// What the master's read comes to for now.
pub enum Reading {
    /// The next frame on the line.
    Frame(Vec<u8>),
    /// Nothing comes: silence, or an answer still inside its turnaround.
    Silence,
    /// The next frame is on the line at `until`, no later than `deadline`:
    /// read on at that moment.
    Wait { until: u128, deadline: u128 },
}

impl Wires {
    /// The machine's clock may tell that it is `now`.
    pub open spec fn tells(self, now: Duration) -> bool {
        call_ensures(Instant::elapsed, (&self.start,), now)
    }

    /// The same wires with `bytes` on the line for the master a turnaround
    /// after `now`.
    pub open spec fn queued(self, bytes: Seq<u8>, now: Duration) -> Wires {
        Wires {
            waiting: self.waiting.push(
                Waiting {
                    bytes,
                    ready: (clock::nanoseconds(now) + self.turnaround) as nat,
                },
            ),
            ..self
        }
    }

    /// The same wires with what the master reads of `answers` on the line.
    pub open spec fn answered(self, answers: Seq<Seq<u8>>, now: Duration) -> Wires {
        match on_the_line(answers) {
            None => self,
            Some(bytes) => self.queued(bytes, now),
        }
    }

    /// `sent` is what comes of the master sending `frame`, and `after` is how it
    /// leaves the wires, when the devices give `replies` and their answer is
    /// there at `now`.
    pub open spec fn transmits(
        self,
        frame: Seq<u8>,
        replies: Seq<Reply>,
        now: Duration,
        sent: Result<(), Error>,
        after: Wires,
    ) -> bool {
        let (heard, damaged) = hearing(self.lose_every, self.sent + 1, frame);
        let counted = Wires { sent: self.sent + 1, ..self };
        &&& polled(self.devices, heard, replies)
        &&& match outcome_of(replies, damaged) {
            Ok(answers) => sent is Ok && after == counted.answered(answers, now),
            Err(error) => sent == Err::<(), Error>(error) && after == counted,
        }
    }

    /// `reading` is what the master's read comes to at `now` with a `deadline`,
    /// and `after` is how it leaves the wires.
    pub open spec fn polls(
        self,
        now: Duration,
        deadline: nat,
        reading: Reading,
        after: Wires,
    ) -> bool {
        if self.waiting.len() == 0 {
            reading is Silence && after == self
        } else if self.waiting[0].ready <= clock::nanoseconds(now) {
            &&& reading matches Reading::Frame(bytes) && bytes@ == self.waiting[0].bytes
            &&& after == (Wires { waiting: self.waiting.drop_first(), ..self })
        } else if self.waiting[0].ready > deadline {
            reading is Silence && after == self
        } else {
            &&& reading matches Reading::Wait { until, deadline: at } && until
                == self.waiting[0].ready && at == deadline
            &&& after == self
        }
    }

    /// `received` is what the master's read comes to that was `asked` for with a
    /// `timeout` and meets the wires at `now`, and `after` is how it leaves the
    /// wires: a break condition is met once.
    pub open spec fn receives(
        self,
        asked: Duration,
        timeout: Duration,
        now: Duration,
        received: Result<Reading, Error>,
        after: Wires,
    ) -> bool {
        if self.broken {
            &&& received == Err::<Reading, Error>(Error::Break)
            &&& after == (Wires { broken: false, ..self })
        } else {
            &&& received matches Ok(reading)
            &&& self.polls(
                now,
                (clock::nanoseconds(asked) + clock::nanoseconds(timeout)) as nat,
                reading,
                after,
            )
        }
    }
}

/// An in-process multi-drop bus.
pub struct Bus {
    name: String,
    turnaround: Duration,
    devices: Vec<Arc<dyn Device>>,
    to_master: VecDeque<Pending>,
    lose_every: Option<u32>,
    broken: bool,
    sent: u32,
    start: Instant,
}

impl View for Bus {
    type V = Wires;

    closed spec fn view(&self) -> Wires {
        Wires {
            name: self.name@,
            turnaround: clock::nanoseconds(self.turnaround) as nat,
            devices: self.devices@,
            waiting: self.to_master@.map_values(|pending: Pending| pending.view()),
            lose_every: self.lose_every,
            broken: self.broken,
            sent: self.sent as nat,
            start: self.start,
        }
    }
}

/// `items` with `item` behind them.
pub open spec fn joined_by<T>(item: T, items: Seq<T>) -> Seq<T> {
    items.push(item)
}

fn join<T>(item: T, items: &mut Vec<T>)
    ensures
        final(items)@ == joined_by(item, old(items)@),
{
    items.push(item);
}

impl Bus {
    /// An empty bus called `name`, which the origin URIs of what crosses it
    /// carry. No turnaround: an answer is there as soon as it is given.
    #[must_use]
    pub fn new<S: Into<String>>(name: S) -> (bus: Self)
        ensures
            text::turns_into(name, bus@.name),
            bus@.turnaround == 0,
            bus@.devices.len() == 0,
            bus@.waiting.len() == 0,
            bus@.lose_every is None,
            !bus@.broken,
            bus@.sent == 0,
            call_ensures(Instant::now, (), bus@.start),
    {
        Bus {
            name: name.into(),
            turnaround: Duration::from_secs(0),
            devices: Vec::new(),
            to_master: VecDeque::new(),
            lose_every: None,
            broken: false,
            sent: 0,
            start: Instant::now(),
        }
    }

    /// The time between the end of a frame and the start of its answer.
    #[must_use]
    pub fn with_turnaround(self, turnaround: Duration) -> (bus: Self)
        ensures
            bus@ == (Wires { turnaround: clock::nanoseconds(turnaround) as nat, ..self@ }),
    {
        Bus {
            name: self.name,
            turnaround,
            devices: self.devices,
            to_master: self.to_master,
            lose_every: self.lose_every,
            broken: self.broken,
            sent: self.sent,
            start: self.start,
        }
    }

    /// Put `device` on the bus.
    pub fn attach(&mut self, device: Arc<dyn Device>)
        ensures
            final(self)@.devices == joined_by(device, old(self)@.devices),
            final(self)@ == (Wires { devices: final(self)@.devices, ..old(self)@ }),
    {
        join(device, &mut self.devices);
    }

    /// `bytes` on the line for the master, a turnaround after `now`.
    pub fn queue(&mut self, bytes: Vec<u8>, now: Duration)
        ensures
            final(self)@ == old(self)@.queued(bytes@, now),
    {
        let ready: u128 = now.as_nanos() + self.turnaround.as_nanos();
        self.to_master.push_back(Pending { bytes, ready });
        assert(self@.waiting =~= old(self)@.queued(bytes@, now).waiting);
    }

    /// A device speaks unasked: `frame` is on the line for the master after
    /// the turnaround, as a HART device in burst mode puts its variable.
    pub fn speak(&mut self, frame: Vec<u8>)
        ensures
            exists|now: Duration|
                old(self)@.tells(now) && final(self)@ == #[trigger] old(self)@.queued(frame@, now),
    {
        let now: Duration = self.start.elapsed();
        self.queue(frame, now);
    }

    /// Lose one character, the middle one, from every `every`th frame the
    /// master sends, before any device hears it.
    pub fn lose_a_character_every(&mut self, every: u32)
        ensures
            final(self)@ == (Wires {
                lose_every: Some(if every == 0 { 1 } else { every }),
                ..old(self)@
            }),
    {
        self.lose_every = Some(if every == 0 { 1 } else { every });
    }

    /// Hold the line in a break condition: the master's next read meets it.
    pub fn break_the_line(&mut self)
        ensures
            final(self)@ == (Wires { broken: true, ..old(self)@ }),
    {
        self.broken = true;
    }

    /// `frame` as the devices hear it, and whether a fault changed it.
    pub fn heard(&mut self, frame: &[u8]) -> (heard: (Vec<u8>, bool))
        requires
            old(self)@.sent < u32::MAX,
        ensures
            (heard.0@, heard.1) == hearing(
                old(self)@.lose_every,
                old(self)@.sent + 1,
                frame@,
            ),
            final(self)@ == (Wires { sent: old(self)@.sent + 1, ..old(self)@ }),
    {
        self.sent = self.sent + 1;
        let lose: bool = match self.lose_every {
            Some(every) => every != 0 && self.sent % every == 0,
            None => false,
        };
        let mut heard: Vec<u8> = vstd::slice::slice_to_vec(frame);
        if lose && frame.len() > 0 {
            heard.remove(frame.len() / 2);
            return (heard, true);
        }
        (heard, false)
    }

    /// What the devices answered to one frame: on the line for the master, one
    /// answer whole, two or more overlaid, a turnaround after `now`.
    pub fn answer(&mut self, answers: Vec<Vec<u8>>, now: Duration)
        ensures
            final(self)@ == old(self)@.answered(views(answers@), now),
    {
        let mut answers: Vec<Vec<u8>> = answers;
        if answers.len() == 1 {
            let only: Vec<u8> = answers.swap_remove(0);
            self.queue(only, now);
        } else if answers.len() > 1 {
            let line: Vec<u8> = collided(answers.as_slice());
            self.queue(line, now);
        }
    }

    /// The master's frame on the bus: every device hears it, and what they
    /// answer is what the master reads next — one answer whole, two or more
    /// overlaid.
    ///
    /// # Errors
    /// As [`gather`].
    pub fn transmit(&mut self, frame: &[u8]) -> (sent: Result<(), Error>)
        requires
            old(self)@.sent < u32::MAX,
        ensures
            exists|replies: Seq<Reply>, now: Duration|
                old(self)@.tells(now) && #[trigger] old(self)@.transmits(
                    frame@,
                    replies,
                    now,
                    sent,
                    final(self)@,
                ),
    {
        let (heard, damaged) = self.heard(frame);
        let gathered = gather(self.devices.as_slice(), heard.as_slice(), damaged);
        let now: Duration = self.start.elapsed();
        let ghost replies = choose|replies: Seq<Reply>| #[trigger]
            polled(self.devices@, heard@, replies) && views_of(gathered) == outcome_of(
                replies,
                damaged,
            );
        let sent = match gathered {
            Ok(answers) => {
                self.answer(answers, now);
                Ok(())
            },
            Err(error) => Err(error),
        };
        assert(old(self)@.transmits(frame@, replies, now, sent, self@));
        sent
    }

    /// What the master's read comes to at `now`, when it waits no longer than
    /// until `deadline`.
    pub fn poll(&mut self, now: Duration, deadline: u128) -> (reading: Reading)
        ensures
            old(self)@.polls(now, deadline as nat, reading, final(self)@),
    {
        if self.to_master.len() == 0 {
            return Reading::Silence;
        }
        let ready: u128 = self.to_master[0].ready;
        assert(ready == self@.waiting[0].ready);
        if ready <= now.as_nanos() {
            match self.to_master.pop_front() {
                Some(pending) => {
                    assert(self@.waiting =~= old(self)@.waiting.drop_first());
                    return Reading::Frame(pending.bytes);
                },
                None => return Reading::Silence,
            }
        }
        if ready > deadline {
            return Reading::Silence;
        }
        Reading::Wait { until: ready, deadline }
    }

    /// The next frame on the line within `timeout` of `asked`, as far as it can
    /// be told at `now`.
    ///
    /// # Errors
    /// The line was held in a break condition; it is no longer.
    pub fn receive_at(&mut self, asked: Duration, timeout: Duration, now: Duration) -> (received:
        Result<Reading, Error>)
        ensures
            old(self)@.receives(asked, timeout, now, received, final(self)@),
    {
        if self.broken {
            self.broken = false;
            return Err(Error::Break);
        }
        let deadline: u128 = asked.as_nanos() + timeout.as_nanos();
        Ok(self.poll(now, deadline))
    }

    /// The next frame on the line within `timeout`, as far as it can be told
    /// now; [`resume`](Bus::resume) reads on after a wait.
    ///
    /// # Errors
    /// The line was held in a break condition; it is no longer.
    pub fn receive(&mut self, timeout: Duration) -> (received: Result<Reading, Error>)
        ensures
            exists|asked: Duration, now: Duration|
                old(self)@.tells(asked) && old(self)@.tells(now) && #[trigger] old(self)@.receives(
                    asked,
                    timeout,
                    now,
                    received,
                    final(self)@,
                ),
    {
        let asked: Duration = self.start.elapsed();
        let now: Duration = self.start.elapsed();
        self.receive_at(asked, timeout, now)
    }

    /// The next frame on the line by `deadline`, as far as it can be told now.
    pub fn resume(&mut self, deadline: u128) -> (reading: Reading)
        ensures
            exists|now: Duration|
                old(self)@.tells(now) && #[trigger] old(self)@.polls(
                    now,
                    deadline as nat,
                    reading,
                    final(self)@,
                ),
    {
        let now: Duration = self.start.elapsed();
        self.poll(now, deadline)
    }

    /// The bus, by name.
    pub fn name(&self) -> (name: String)
        ensures
            name@ == self@.name,
    {
        self.name.clone()
    }

    /// How many frames the master has sent.
    pub fn sent(&self) -> (sent: u32)
        ensures
            sent == self@.sent,
    {
        self.sent
    }

    /// The devices on the bus, in the order they were put on it.
    pub fn devices(&self) -> (devices: Vec<Arc<dyn Device>>)
        ensures
            devices@ == self@.devices,
    {
        let mut devices: Vec<Arc<dyn Device>> = Vec::new();
        let mut i: usize = 0;
        while i < self.devices.len()
            invariant
                i <= self.devices.len(),
                devices@ == self.devices@.take(i as int),
            decreases self.devices.len() - i,
        {
            join(Arc::clone(&self.devices[i]), &mut devices);
            i += 1;
        }
        devices
    }

    /// How long the bus has been there.
    pub fn clock(&self) -> (now: Duration)
        ensures
            self@.tells(now),
    {
        self.start.elapsed()
    }
}

} // verus!
