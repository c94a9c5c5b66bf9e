//! What holds of a bus whatever its devices answer.

use std::time::Duration;
use vstd::prelude::*;

use crate::bus;
use crate::bus::{Reading, Reply, Wires};
use crate::clock;
use crate::error::Error;

verus! {

/// A driver pulls bit `k` of `byte`.
pub open spec fn pulled(byte: u8, k: u8) -> bool {
    (byte >> k) & 1 == 1
}

/// Some answer reaches to `at` and pulls bit `k` there.
pub open spec fn some_answer_pulls(answers: Seq<Seq<u8>>, at: int, k: u8) -> bool {
    exists|i: int|
        0 <= i < answers.len() && at < #[trigger] answers[i].len() && pulled(answers[i][at], k)
}

/// Answers that collide leave a bit pulled where any of them pulls it, and no
/// other.
pub proof fn law_a_bit_is_pulled_where_any_answer_pulls_it(
    answers: Seq<Seq<u8>>,
    at: int,
    k: u8,
)
    requires
        0 <= at,
        k < 8,
    ensures
        pulled(bus::overlaid_at(answers, at), k) == some_answer_pulls(answers, at, k),
    decreases answers.len(),
{
    if answers.len() == 0 {
        assert((0u8 >> k) & 1 == 0) by (bit_vector)
            requires
                k < 8,
        ;
    } else {
        let before = answers.drop_last();
        let last = answers.last();
        law_a_bit_is_pulled_where_any_answer_pulls_it(before, at, k);
        if some_answer_pulls(before, at, k) {
            let i = choose|i: int|
                0 <= i < before.len() && at < #[trigger] before[i].len() && pulled(
                    before[i][at],
                    k,
                );
            assert(answers[i] == before[i]);
        }
        if some_answer_pulls(answers, at, k) {
            let i = choose|i: int|
                0 <= i < answers.len() && at < #[trigger] answers[i].len() && pulled(
                    answers[i][at],
                    k,
                );
            if i < before.len() {
                assert(before[i] == answers[i]);
            }
        }
        if at < last.len() {
            let line = bus::overlaid_at(before, at);
            let byte = last[at];
            assert(((line | byte) >> k) & 1 == 1 <==> ((line >> k) & 1 == 1 || (byte >> k) & 1
                == 1)) by (bit_vector)
                requires
                    k < 8,
            ;
            assert(answers[answers.len() - 1] == last);
        }
    }
}

/// Bytes with the same bits pulled are the same.
proof fn lemma_bits_make_the_byte(a: u8, b: u8)
    requires
        forall|k: u8| k < 8 ==> pulled(a, k) == pulled(b, k),
    ensures
        a == b,
{
    assert(pulled(a, 0) == pulled(b, 0));
    assert(pulled(a, 1) == pulled(b, 1));
    assert(pulled(a, 2) == pulled(b, 2));
    assert(pulled(a, 3) == pulled(b, 3));
    assert(pulled(a, 4) == pulled(b, 4));
    assert(pulled(a, 5) == pulled(b, 5));
    assert(pulled(a, 6) == pulled(b, 6));
    assert(pulled(a, 7) == pulled(b, 7));
    assert(a == b) by (bit_vector)
        requires
            ((a >> 0u8) & 1 == 1) == ((b >> 0u8) & 1 == 1),
            ((a >> 1u8) & 1 == 1) == ((b >> 1u8) & 1 == 1),
            ((a >> 2u8) & 1 == 1) == ((b >> 2u8) & 1 == 1),
            ((a >> 3u8) & 1 == 1) == ((b >> 3u8) & 1 == 1),
            ((a >> 4u8) & 1 == 1) == ((b >> 4u8) & 1 == 1),
            ((a >> 5u8) & 1 == 1) == ((b >> 5u8) & 1 == 1),
            ((a >> 6u8) & 1 == 1) == ((b >> 6u8) & 1 == 1),
            ((a >> 7u8) & 1 == 1) == ((b >> 7u8) & 1 == 1),
    ;
}

/// The overlay is as long as the longest answer, and no answer is longer.
pub proof fn law_the_longest_answer_sets_the_length(answers: Seq<Seq<u8>>)
    ensures
        forall|i: int| 0 <= i < answers.len() ==> #[trigger] answers[i].len() <= bus::overlaid(
            answers,
        ).len(),
        answers.len() > 0 ==> exists|i: int|
            0 <= i < answers.len() && #[trigger] answers[i].len() == bus::overlaid(answers).len(),
    decreases answers.len(),
{
    if answers.len() > 0 {
        let before = answers.drop_last();
        law_the_longest_answer_sets_the_length(before);
        assert forall|i: int| 0 <= i < answers.len() implies #[trigger] answers[i].len()
            <= bus::overlaid(answers).len() by {
            if i < before.len() {
                assert(answers[i] == before[i]);
            }
        }
        if bus::longest(before) < answers.last().len() {
            assert(answers[answers.len() - 1].len() == bus::overlaid(answers).len());
        } else if before.len() > 0 {
            let i = choose|i: int|
                0 <= i < before.len() && #[trigger] before[i].len() == bus::overlaid(before).len();
            assert(answers[i] == before[i]);
        } else {
            assert(answers[answers.len() - 1].len() == bus::overlaid(answers).len());
        }
    }
}

/// Every answer among `some` is among `others`.
pub open spec fn among(some: Seq<Seq<u8>>, others: Seq<Seq<u8>>) -> bool {
    forall|i: int| 0 <= i < some.len() ==> others.contains(#[trigger] some[i])
}

proof fn lemma_longest_among(some: Seq<Seq<u8>>, others: Seq<Seq<u8>>)
    requires
        among(some, others),
    ensures
        bus::longest(some) <= bus::longest(others),
{
    law_the_longest_answer_sets_the_length(some);
    law_the_longest_answer_sets_the_length(others);
    if some.len() > 0 {
        let i = choose|i: int|
            0 <= i < some.len() && #[trigger] some[i].len() == bus::overlaid(some).len();
        let j = choose|j: int| 0 <= j < others.len() && others[j] == some[i];
        assert(others[j].len() <= bus::overlaid(others).len());
    }
}

proof fn lemma_pulled_among(some: Seq<Seq<u8>>, others: Seq<Seq<u8>>, at: int, k: u8)
    requires
        among(some, others),
        some_answer_pulls(some, at, k),
    ensures
        some_answer_pulls(others, at, k),
{
    let i = choose|i: int|
        0 <= i < some.len() && at < #[trigger] some[i].len() && pulled(some[i][at], k);
    let j = choose|j: int| 0 <= j < others.len() && others[j] == some[i];
    assert(at < others[j].len() && pulled(others[j][at], k));
}

/// In what order answers come, and how often one and the same comes, makes no
/// difference on the line.
pub proof fn law_the_same_answers_overlay_the_same(
    answers: Seq<Seq<u8>>,
    others: Seq<Seq<u8>>,
)
    requires
        among(answers, others),
        among(others, answers),
    ensures
        bus::overlaid(answers) == bus::overlaid(others),
{
    lemma_longest_among(answers, others);
    lemma_longest_among(others, answers);
    assert forall|at: int| 0 <= at < bus::longest(answers) implies bus::overlaid_at(answers, at)
        == bus::overlaid_at(others, at) by {
        assert forall|k: u8| k < 8 implies pulled(bus::overlaid_at(answers, at), k) == pulled(
            bus::overlaid_at(others, at),
            k,
        ) by {
            law_a_bit_is_pulled_where_any_answer_pulls_it(answers, at, k);
            law_a_bit_is_pulled_where_any_answer_pulls_it(others, at, k);
            if some_answer_pulls(answers, at, k) {
                lemma_pulled_among(answers, others, at, k);
            }
            if some_answer_pulls(others, at, k) {
                lemma_pulled_among(others, answers, at, k);
            }
        }
        lemma_bits_make_the_byte(bus::overlaid_at(answers, at), bus::overlaid_at(others, at));
    }
    assert(bus::overlaid(answers) =~= bus::overlaid(others));
}

/// One answer is on the line as it was sent.
pub proof fn law_one_answer_overlays_into_itself(answer: Seq<u8>)
    ensures
        bus::overlaid(seq![answer]) == answer,
{
    let alone = seq![answer];
    assert(alone.drop_last() =~= Seq::<Seq<u8>>::empty());
    assert forall|at: int| 0 <= at < answer.len() implies bus::overlaid_at(alone, at)
        == answer[at] by {
        assert(bus::overlaid_at(alone.drop_last(), at) == 0);
        let byte = answer[at];
        assert(0u8 | byte == byte) by (bit_vector);
    }
    assert(bus::longest(alone.drop_last()) == 0);
    assert(bus::overlaid(alone) =~= answer);
}

/// Identical answers overlay into themselves.
pub proof fn law_identical_answers_overlay_into_themselves(
    answer: Seq<u8>,
    answers: Seq<Seq<u8>>,
)
    requires
        answers.len() > 0,
        forall|i: int| 0 <= i < answers.len() ==> #[trigger] answers[i] == answer,
    ensures
        bus::overlaid(answers) == answer,
{
    let alone = seq![answer];
    assert(alone[0] == answer);
    assert(answers[0] == answer);
    law_the_same_answers_overlay_the_same(answers, alone);
    law_one_answer_overlays_into_itself(answer);
}

/// What is put on the line is read after all that was there before it, and
/// reading takes nothing else off the line.
pub proof fn law_frames_are_read_in_the_order_they_came(
    wires: Wires,
    bytes: Seq<u8>,
    came: Duration,
    now: Duration,
    deadline: nat,
    frame: Vec<u8>,
    after: Wires,
)
    requires
        wires.queued(bytes, came).polls(now, deadline, Reading::Frame(frame), after),
    ensures
        wires.waiting.len() == 0 ==> frame@ == bytes && after == wires,
        wires.waiting.len() > 0 ==> frame@ == wires.waiting[0].bytes && after == (Wires {
            waiting: wires.waiting.drop_first(),
            ..wires
        }).queued(bytes, came),
{
    let waiting = wires.queued(bytes, came).waiting;
    if wires.waiting.len() == 0 {
        assert(waiting.drop_first() =~= wires.waiting);
    } else {
        assert(waiting.drop_first() =~= (Wires {
            waiting: wires.waiting.drop_first(),
            ..wires
        }).queued(bytes, came).waiting);
    }
}

/// An answer is on the line only after the turnaround: a master that polls
/// before that reads nothing yet, and loses nothing by it; one that polls
/// later, or waits long enough, reads the answer.
pub proof fn law_an_answer_keeps_the_turnaround(
    wires: Wires,
    bytes: Seq<u8>,
    came: Duration,
    now: Duration,
    deadline: nat,
    reading: Reading,
    after: Wires,
)
    requires
        wires.waiting.len() == 0,
        wires.queued(bytes, came).polls(now, deadline, reading, after),
    ensures
        ({
            let ready = clock::nanoseconds(came) + wires.turnaround;
            if clock::nanoseconds(now) >= ready {
                (reading matches Reading::Frame(frame) && frame@ == bytes) && after == wires
            } else if deadline < ready {
                reading is Silence && after == wires.queued(bytes, came)
            } else {
                (reading matches Reading::Wait { until, deadline: at } && until == ready && at
                    == deadline) && after == wires.queued(bytes, came)
            }
        }),
{
    let waiting = wires.queued(bytes, came).waiting;
    assert(waiting.drop_first() =~= wires.waiting);
}

/// A frame that is on the line by the end of the timeout is read: at once, or
/// at whatever moment the read goes on after it was told to wait.
pub proof fn law_a_frame_due_within_the_timeout_is_read(
    wires: Wires,
    asked: Duration,
    timeout: Duration,
    now: Duration,
    first: Result<Reading, Error>,
    between: Wires,
    later: Duration,
    second: Reading,
    after: Wires,
)
    requires
        !wires.broken,
        wires.waiting.len() > 0,
        wires.waiting[0].ready <= clock::nanoseconds(asked) + clock::nanoseconds(timeout),
        wires.receives(asked, timeout, now, first, between),
        first matches Ok(Reading::Wait { until, deadline }) ==> {
            &&& clock::nanoseconds(later) >= until
            &&& between.polls(later, deadline as nat, second, after)
        },
    ensures
        match first {
            Ok(Reading::Frame(frame)) => frame@ == wires.waiting[0].bytes,
            Ok(Reading::Wait { until, deadline }) => {
                &&& between == wires
                &&& until == wires.waiting[0].ready
                &&& until <= deadline
                &&& second matches Reading::Frame(frame) && frame@ == wires.waiting[0].bytes
            },
            _ => false,
        },
{
}

/// A frame that is not on the line by the end of the timeout is not read, and
/// stays for a later read.
pub proof fn law_a_frame_due_after_the_timeout_stays(
    wires: Wires,
    asked: Duration,
    timeout: Duration,
    now: Duration,
    received: Result<Reading, Error>,
    after: Wires,
)
    requires
        !wires.broken,
        wires.waiting.len() > 0,
        wires.waiting[0].ready > clock::nanoseconds(asked) + clock::nanoseconds(timeout),
        wires.waiting[0].ready > clock::nanoseconds(now),
        wires.receives(asked, timeout, now, received, after),
    ensures
        received == Ok::<Reading, Error>(Reading::Silence),
        after == wires,
{
}

/// A break condition is met by one read: the next one reads the line as it
/// was.
pub proof fn law_a_break_is_met_once(
    wires: Wires,
    asked: Duration,
    timeout: Duration,
    now: Duration,
    first: Result<Reading, Error>,
    between: Wires,
    asked_again: Duration,
    timeout_again: Duration,
    now_again: Duration,
    second: Result<Reading, Error>,
    after: Wires,
)
    requires
        wires.broken,
        wires.receives(asked, timeout, now, first, between),
        between.receives(asked_again, timeout_again, now_again, second, after),
    ensures
        first == Err::<Reading, Error>(Error::Break),
        between == (Wires { broken: false, ..wires }),
        second is Ok,
        !after.broken,
{
}

/// Of any `every` frames in a row exactly one loses a character.
pub proof fn law_one_frame_in_every_so_many_is_lossy(every: u32, sent: nat) -> (nth: nat)
    requires
        every > 0,
    ensures
        sent < nth <= sent + every,
        bus::lossy(Some(every), nth),
        forall|other: nat|
            sent < other <= sent + every && #[trigger] bus::lossy(Some(every), other) ==> other
                == nth,
{
    let e = every as int;
    let nth = (sent + e - sent as int % e) as nat;
    vstd::arithmetic::div_mod::lemma_fundamental_div_mod(sent as int, e);
    let q = sent as int / e;
    assert(nth as int == e * (q + 1)) by (nonlinear_arith)
        requires
            nth as int == sent + e - sent as int % e,
            sent as int == e * q + sent as int % e,
    ;
    vstd::arithmetic::div_mod::lemma_mod_multiples_basic(q + 1, e);
    assert((q + 1) * e == e * (q + 1)) by (nonlinear_arith);
    assert forall|other: nat|
        sent < other <= sent + every && #[trigger] bus::lossy(Some(every), other) implies other
        == nth by {
        let p = other as int / e;
        vstd::arithmetic::div_mod::lemma_fundamental_div_mod(other as int, e);
        assert(other as int == e * p);
        assert(p == q + 1) by (nonlinear_arith)
            requires
                e > 0,
                other as int == e * p,
                sent < other <= sent + e,
                nth as int == e * (q + 1),
                sent < nth <= sent + e,
        ;
    }
    nth
}

/// A device that cannot read a damaged frame is no error to the master.
pub proof fn law_a_damaged_frame_is_no_error(
    wires: Wires,
    frame: Seq<u8>,
    replies: Seq<Reply>,
    now: Duration,
    sent: Result<(), Error>,
    after: Wires,
)
    requires
        wires.transmits(frame, replies, now, sent, after),
        bus::hearing(wires.lose_every, wires.sent + 1, frame).1,
    ensures
        sent is Ok,
{
}

/// `replies[i]` is the first error among `replies`.
pub open spec fn refuses_first(replies: Seq<Reply>, i: int) -> bool {
    &&& 0 <= i < replies.len()
    &&& replies[i] is Err
    &&& forall|k: int| 0 <= k < i ==> #[trigger] replies[k] is Ok
}

proof fn lemma_the_first_refusal_counts(replies: Seq<Reply>)
    ensures
        match bus::refusal_in(replies) {
            Some(error) => exists|i: int| #[trigger]
                refuses_first(replies, i) && replies[i] == Err::<Option<Vec<u8>>, Error>(error),
            None => forall|k: int| 0 <= k < replies.len() ==> #[trigger] replies[k] is Ok,
        },
    decreases replies.len(),
{
    if replies.len() > 0 {
        let before = replies.drop_last();
        lemma_the_first_refusal_counts(before);
        assert forall|k: int| 0 <= k < before.len() implies #[trigger] replies[k] == before[k] by {}
        match bus::refusal_in(before) {
            Some(error) => {
                let i = choose|i: int| #[trigger]
                    refuses_first(before, i) && before[i] == Err::<Option<Vec<u8>>, Error>(error);
                assert forall|k: int| 0 <= k < i implies #[trigger] replies[k] is Ok by {
                    assert(before[k] is Ok);
                }
                assert(refuses_first(replies, i));
            },
            None => {
                assert forall|k: int| 0 <= k < before.len() implies #[trigger] replies[k] is Ok by {
                    assert(before[k] is Ok);
                }
                if replies.last() is Err {
                    assert(refuses_first(replies, replies.len() - 1));
                }
            },
        }
    }
}

/// A frame is refused if and only if no fault changed it and some device could
/// not act on it.
pub proof fn law_only_an_intact_frame_is_refused(
    wires: Wires,
    frame: Seq<u8>,
    replies: Seq<Reply>,
    now: Duration,
    sent: Result<(), Error>,
    after: Wires,
)
    requires
        wires.transmits(frame, replies, now, sent, after),
    ensures
        sent is Err <==> !bus::hearing(wires.lose_every, wires.sent + 1, frame).1 && exists|i: int|
            0 <= i < replies.len() && #[trigger] replies[i] is Err,
{
    lemma_the_first_refusal_counts(replies);
    if let Some(error) = bus::refusal_in(replies) {
        let i = choose|i: int| #[trigger]
            refuses_first(replies, i) && replies[i] == Err::<Option<Vec<u8>>, Error>(error);
        assert(replies[i] is Err);
    }
}

/// A refused frame leaves nothing on the line, and the refusal is that of the
/// first device that refused it.
pub proof fn law_a_refused_frame_leaves_the_line_alone(
    wires: Wires,
    frame: Seq<u8>,
    replies: Seq<Reply>,
    now: Duration,
    error: Error,
    after: Wires,
)
    requires
        wires.transmits(frame, replies, now, Err(error), after),
    ensures
        after == (Wires { sent: wires.sent + 1, ..wires }),
        exists|i: int| #[trigger]
            refuses_first(replies, i) && replies[i] == Err::<Option<Vec<u8>>, Error>(error),
{
    lemma_the_first_refusal_counts(replies);
}

/// None of `replies` is an answer.
pub open spec fn all_silent(replies: Seq<Reply>) -> bool {
    forall|i: int| 0 <= i < replies.len() ==> !(#[trigger] replies[i] matches Ok(Some(_)))
}

proof fn lemma_silence_is_no_answer(replies: Seq<Reply>)
    requires
        all_silent(replies),
    ensures
        bus::answers_in(replies).len() == 0,
    decreases replies.len(),
{
    if replies.len() > 0 {
        let before = replies.drop_last();
        assert forall|i: int| 0 <= i < before.len() implies !(#[trigger] before[i] matches Ok(
            Some(_),
        )) by {
            assert(before[i] == replies[i]);
        }
        lemma_silence_is_no_answer(before);
        assert(!(replies[replies.len() - 1] matches Ok(Some(_))));
    }
}

proof fn lemma_one_voice_is_one_answer(replies: Seq<Reply>, at: int, answer: Vec<u8>)
    requires
        0 <= at < replies.len(),
        replies[at] == Ok::<Option<Vec<u8>>, Error>(Some(answer)),
        forall|i: int|
            0 <= i < replies.len() && i != at ==> !(#[trigger] replies[i] matches Ok(Some(_))),
    ensures
        bus::answers_in(replies) == seq![answer@],
    decreases replies.len(),
{
    let before = replies.drop_last();
    if at == replies.len() - 1 {
        assert forall|i: int| 0 <= i < before.len() implies !(#[trigger] before[i] matches Ok(
            Some(_),
        )) by {
            assert(before[i] == replies[i]);
        }
        lemma_silence_is_no_answer(before);
        assert(bus::answers_in(replies) =~= seq![answer@]);
    } else {
        assert forall|i: int| 0 <= i < before.len() && i != at implies !(
        #[trigger] before[i] matches Ok(Some(_))) by {
            assert(before[i] == replies[i]);
        }
        lemma_one_voice_is_one_answer(before, at, answer);
        assert(!(replies[replies.len() - 1] matches Ok(Some(_))));
    }
}

/// An answer among `replies` is among what is overlaid, and two are two.
proof fn lemma_answers_are_kept(replies: Seq<Reply>, i: int, answer: Vec<u8>)
    requires
        0 <= i < replies.len(),
        replies[i] == Ok::<Option<Vec<u8>>, Error>(Some(answer)),
    ensures
        bus::answers_in(replies).contains(answer@),
        (exists|j: int| 0 <= j < i && (#[trigger] replies[j] matches Ok(Some(_))))
            ==> bus::answers_in(replies).len() >= 2,
    decreases replies.len(),
{
    let before = replies.drop_last();
    let answers = bus::answers_in(before);
    if i < before.len() {
        assert(before[i] == replies[i]);
        lemma_answers_are_kept(before, i, answer);
        if exists|j: int| 0 <= j < i && (#[trigger] replies[j] matches Ok(Some(_))) {
            let j = choose|j: int| 0 <= j < i && (#[trigger] replies[j] matches Ok(Some(_)));
            assert(before[j] == replies[j]);
        }
        let at = choose|at: int| 0 <= at < answers.len() && answers[at] == answer@;
        assert(bus::answers_in(replies)[at] == answer@);
    } else {
        assert(bus::answers_in(replies)[answers.len() as int] == answer@);
        if exists|j: int| 0 <= j < i && (#[trigger] replies[j] matches Ok(Some(_))) {
            let j = choose|j: int| 0 <= j < i && (#[trigger] replies[j] matches Ok(Some(_)));
            assert(before[j] == replies[j]);
            lemma_answers_are_kept(before, j, replies[j]->Ok_0->Some_0);
        }
    }
}

/// Every device on the bus hears every frame, the same one as the others,
/// whatever comes of it: there is a reply of each to it.
pub proof fn law_every_device_hears_the_frame(
    wires: Wires,
    frame: Seq<u8>,
    replies: Seq<Reply>,
    now: Duration,
    sent: Result<(), Error>,
    after: Wires,
)
    requires
        wires.transmits(frame, replies, now, sent, after),
    ensures
        replies.len() == wires.devices.len(),
        forall|i: int|
            0 <= i < wires.devices.len() ==> wires.devices[i].may_reply(
                bus::hearing(wires.lose_every, wires.sent + 1, frame).0,
                #[trigger] replies[i],
            ),
{
}

/// Two answers to one frame collide: both are among those that the master
/// reads overlaid.
pub proof fn law_two_answers_collide(
    wires: Wires,
    frame: Seq<u8>,
    replies: Seq<Reply>,
    now: Duration,
    after: Wires,
    i: int,
    one: Vec<u8>,
    j: int,
    other: Vec<u8>,
)
    requires
        wires.transmits(frame, replies, now, Ok(()), after),
        0 <= i < j < replies.len(),
        replies[i] == Ok::<Option<Vec<u8>>, Error>(Some(one)),
        replies[j] == Ok::<Option<Vec<u8>>, Error>(Some(other)),
    ensures
        bus::answers_in(replies).contains(one@),
        bus::answers_in(replies).contains(other@),
        after == (Wires { sent: wires.sent + 1, ..wires }).queued(
            bus::overlaid(bus::answers_in(replies)),
            now,
        ),
{
    lemma_answers_are_kept(replies, i, one);
    lemma_answers_are_kept(replies, j, other);
}

/// A read of a bus with nothing on it is silence, however long it may wait.
pub proof fn law_a_bus_with_nothing_on_it_is_silent(
    wires: Wires,
    asked: Duration,
    timeout: Duration,
    now: Duration,
    received: Result<Reading, Error>,
    after: Wires,
)
    requires
        !wires.broken,
        wires.waiting.len() == 0,
        wires.receives(asked, timeout, now, received, after),
    ensures
        received == Ok::<Reading, Error>(Reading::Silence),
        after == wires,
{
}

/// When no device answers, nothing is put on the line.
pub proof fn law_no_answer_is_silence(
    wires: Wires,
    frame: Seq<u8>,
    replies: Seq<Reply>,
    now: Duration,
    after: Wires,
)
    requires
        wires.transmits(frame, replies, now, Ok(()), after),
        all_silent(replies),
    ensures
        after == (Wires { sent: wires.sent + 1, ..wires }),
{
    lemma_silence_is_no_answer(replies);
}

/// When one device answers and the others stay silent, its answer is put on
/// the line as it gave it, a turnaround later.
pub proof fn law_one_answer_is_put_on_the_line_whole(
    wires: Wires,
    frame: Seq<u8>,
    replies: Seq<Reply>,
    now: Duration,
    after: Wires,
    at: int,
    answer: Vec<u8>,
)
    requires
        wires.transmits(frame, replies, now, Ok(()), after),
        0 <= at < replies.len(),
        replies[at] == Ok::<Option<Vec<u8>>, Error>(Some(answer)),
        forall|i: int|
            0 <= i < replies.len() && i != at ==> !(#[trigger] replies[i] matches Ok(Some(_))),
    ensures
        after == (Wires { sent: wires.sent + 1, ..wires }).queued(answer@, now),
{
    lemma_one_voice_is_one_answer(replies, at, answer);
}

/// A frame that loses no character is heard byte for byte as it was sent: where
/// no loss is set, where the frame is not one of those that lose one, and where
/// it has none to lose.
pub proof fn law_an_intact_frame_is_heard_as_it_was_sent(
    lose_every: Option<u32>,
    nth: nat,
    frame: Seq<u8>,
)
    requires
        lose_every matches Some(every) ==> every == 0 || nth % (every as nat) != 0 || frame.len()
            == 0,
    ensures
        ({
            let (heard, damaged) = bus::hearing(lose_every, nth, frame);
            &&& !damaged
            &&& heard.len() == frame.len()
            &&& forall|i: int| 0 <= i < frame.len() ==> #[trigger] heard[i] == frame[i]
        }),
{
}

/// A frame that loses a character is heard without its middle one: the bytes
/// before the middle, and those behind it, each one place earlier.
pub proof fn law_a_lossy_frame_is_heard_without_its_middle(
    every: u32,
    nth: nat,
    frame: Seq<u8>,
)
    requires
        every > 0,
        nth % (every as nat) == 0,
        frame.len() > 0,
    ensures
        ({
            let (heard, damaged) = bus::hearing(Some(every), nth, frame);
            let middle = frame.len() as int / 2;
            &&& damaged
            &&& heard.len() == frame.len() - 1
            &&& forall|i: int| 0 <= i < middle ==> #[trigger] heard[i] == frame[i]
            &&& forall|i: int| middle <= i < heard.len() ==> #[trigger] heard[i] == frame[i + 1]
        }),
{
}

/// The frames that lose a character are the `every`th and its multiples, and
/// none between them; with no loss set there is none.
pub proof fn law_the_multiples_are_lossy(every: u32, times: nat, past: nat)
    requires
        0 < past < every,
    ensures
        bus::lossy(Some(every), times * (every as nat)),
        !bus::lossy(Some(every), times * (every as nat) + past),
        !bus::lossy(None, times),
{
    let e = every as int;
    vstd::arithmetic::div_mod::lemma_mod_multiples_basic(times as int, e);
    vstd::arithmetic::div_mod::lemma_fundamental_div_mod_converse(
        times as int * e + past as int,
        e,
        times as int,
        past as int,
    );
}

/// Every device hears the master's frame as it was sent, when it loses no
/// character.
pub proof fn law_devices_hear_what_the_master_sent(
    wires: Wires,
    frame: Seq<u8>,
    replies: Seq<Reply>,
    now: Duration,
    sent: Result<(), Error>,
    after: Wires,
)
    requires
        wires.lose_every matches Some(every) ==> every == 0 || (wires.sent + 1) % (every as nat)
            != 0 || frame.len() == 0,
        wires.transmits(frame, replies, now, sent, after),
    ensures
        replies.len() == wires.devices.len(),
        forall|i: int|
            0 <= i < wires.devices.len() ==> wires.devices[i].may_reply(
                frame,
                #[trigger] replies[i],
            ),
{
    law_an_intact_frame_is_heard_as_it_was_sent(wires.lose_every, wires.sent + 1, frame);
    assert(bus::hearing(wires.lose_every, wires.sent + 1, frame).0 =~= frame);
}

/// Every device hears the master's frame without its middle character, when it
/// is one of those that lose one, and whatever they reply to that is no error.
pub proof fn law_devices_hear_a_lossy_frame_without_its_middle(
    wires: Wires,
    every: u32,
    frame: Seq<u8>,
    replies: Seq<Reply>,
    now: Duration,
    sent: Result<(), Error>,
    after: Wires,
)
    requires
        wires.lose_every == Some(every),
        every > 0,
        (wires.sent + 1) % (every as nat) == 0,
        frame.len() > 0,
        wires.transmits(frame, replies, now, sent, after),
    ensures
        replies.len() == wires.devices.len(),
        forall|i: int|
            0 <= i < wires.devices.len() ==> wires.devices[i].may_reply(
                frame.take(frame.len() as int / 2) + frame.skip(frame.len() as int / 2 + 1),
                #[trigger] replies[i],
            ),
        sent is Ok,
{
    law_a_lossy_frame_is_heard_without_its_middle(every, wires.sent + 1, frame);
    let middle = frame.len() as int / 2;
    assert(bus::hearing(wires.lose_every, wires.sent + 1, frame).0 =~= frame.take(middle)
        + frame.skip(middle + 1));
}

proof fn lemma_overlay_bit(answers: Seq<Seq<u8>>, at: int, k: u8)
    requires
        0 <= at < bus::overlaid(answers).len(),
        k < 8,
    ensures
        (bus::overlaid(answers)[at] >> k) & 1 == 1 <==> exists|i: int|
            0 <= i < answers.len() && at < #[trigger] answers[i].len() && (answers[i][at] >> k) & 1
                == 1,
{
    law_a_bit_is_pulled_where_any_answer_pulls_it(answers, at, k);
    assert(bus::overlaid(answers)[at] == bus::overlaid_at(answers, at));
    if exists|i: int|
        0 <= i < answers.len() && at < #[trigger] answers[i].len() && (answers[i][at] >> k) & 1
            == 1 {
        let i = choose|i: int|
            0 <= i < answers.len() && at < #[trigger] answers[i].len() && (answers[i][at] >> k) & 1
                == 1;
        assert(pulled(answers[i][at], k));
        assert(some_answer_pulls(answers, at, k));
    }
    if some_answer_pulls(answers, at, k) {
        let i = choose|i: int|
            0 <= i < answers.len() && at < #[trigger] answers[i].len() && pulled(answers[i][at], k);
        assert((answers[i][at] >> k) & 1 == 1);
    }
}

/// The line that the master reads of answers on it at once is as long as the
/// longest of them, and in every place of it a bit is set if and only if some
/// answer that reaches that place has it set there.
pub proof fn law_each_bit_of_the_line_is_some_answers(answers: Seq<Vec<u8>>, line: Seq<u8>)
    requires
        line == bus::overlaid(bus::views(answers)),
    ensures
        forall|i: int| 0 <= i < answers.len() ==> (#[trigger] answers[i])@.len() <= line.len(),
        line.len() > 0 ==> exists|i: int|
            0 <= i < answers.len() && (#[trigger] answers[i])@.len() == line.len(),
        forall|at: int, k: u8|
            0 <= at < line.len() && k < 8 ==> ((#[trigger] (line[at] >> k)) & 1 == 1 <==> exists|
                i: int,
            |
                0 <= i < answers.len() && at < (#[trigger] answers[i])@.len() && (answers[i]@[at]
                    >> k) & 1 == 1),
{
    let all = bus::views(answers);
    assert forall|i: int| 0 <= i < answers.len() implies all[i] == (#[trigger] answers[i])@ by {}
    law_the_longest_answer_sets_the_length(all);
    assert forall|i: int| 0 <= i < answers.len() implies (#[trigger] answers[i])@.len()
        <= line.len() by {
        assert(all[i].len() <= line.len());
    }
    if line.len() > 0 {
        let i = choose|i: int| 0 <= i < all.len() && #[trigger] all[i].len() == line.len();
        assert(answers[i]@.len() == line.len());
    }
    assert forall|at: int, k: u8| 0 <= at < line.len() && k < 8 implies ((#[trigger] (line[at]
        >> k)) & 1 == 1 <==> exists|i: int|
        0 <= i < answers.len() && at < (#[trigger] answers[i])@.len() && (answers[i]@[at] >> k) & 1
            == 1) by {
        lemma_overlay_bit(all, at, k);
        if (line[at] >> k) & 1 == 1 {
            let i = choose|i: int|
                0 <= i < all.len() && at < #[trigger] all[i].len() && (all[i][at] >> k) & 1 == 1;
            assert(answers[i]@ == all[i]);
        }
        if exists|i: int|
            0 <= i < answers.len() && at < (#[trigger] answers[i])@.len() && (answers[i]@[at] >> k)
                & 1 == 1 {
            let i = choose|i: int|
                0 <= i < answers.len() && at < (#[trigger] answers[i])@.len() && (answers[i]@[at]
                    >> k) & 1 == 1;
            assert(all[i] == answers[i]@);
            assert(at < all[i].len());
        }
    }
}

/// The answers among replies are all of them that are answers, in their order,
/// and no others: `at[j]` is the reply that the `j`th answer came in.
pub proof fn law_answers_are_those_among_the_replies(replies: Seq<Reply>) -> (at: Seq<int>)
    ensures
        at.len() == bus::answers_in(replies).len(),
        forall|j: int|
            0 <= j < at.len() ==> 0 <= #[trigger] at[j] < replies.len() && (
            replies[at[j]] matches Ok(Some(answer)) && answer@ == bus::answers_in(replies)[j]),
        forall|i: int, j: int| 0 <= i < j < at.len() ==> #[trigger] at[i] < #[trigger] at[j],
        forall|i: int|
            0 <= i < replies.len() && (#[trigger] replies[i] matches Ok(Some(_))) ==> at.contains(
                i,
            ),
    decreases replies.len(),
{
    if replies.len() == 0 {
        Seq::empty()
    } else {
        let before = replies.drop_last();
        let last = replies.len() - 1;
        let shorter = law_answers_are_those_among_the_replies(before);
        let at = if replies.last() matches Ok(Some(_)) {
            shorter.push(last)
        } else {
            shorter
        };
        assert forall|j: int| 0 <= j < at.len() implies 0 <= #[trigger] at[j] < replies.len() && (
        replies[at[j]] matches Ok(Some(answer)) && answer@ == bus::answers_in(replies)[j]) by {
            if j < shorter.len() {
                assert(at[j] == shorter[j]);
                assert(before[shorter[j]] == replies[shorter[j]]);
            }
        }
        assert forall|i: int, j: int| 0 <= i < j < at.len() implies #[trigger] at[i]
            < #[trigger] at[j] by {
            assert(at[i] == shorter[i]);
            if j < shorter.len() {
                assert(at[j] == shorter[j]);
            }
        }
        assert forall|i: int|
            0 <= i < replies.len() && (#[trigger] replies[i] matches Ok(Some(_))) implies at.contains(
            i,
        ) by {
            if i < last {
                assert(before[i] == replies[i]);
                assert(shorter.contains(i));
                let j = choose|j: int| 0 <= j < shorter.len() && shorter[j] == i;
                assert(at[j] == i);
            } else {
                assert(at[shorter.len() as int] == i);
            }
        }
        at
    }
}

/// What is put on the line for the master goes behind all that waits there, as
/// it is and a turnaround later, and nothing else changes.
pub proof fn law_what_is_queued_waits_its_turn(wires: Wires, bytes: Seq<u8>, now: Duration)
    ensures
        ({
            let after = wires.queued(bytes, now);
            let last = wires.waiting.len() as int;
            &&& after.waiting.len() == wires.waiting.len() + 1
            &&& after.waiting[last].bytes == bytes
            &&& after.waiting[last].ready == clock::nanoseconds(now) + wires.turnaround
            &&& forall|i: int| 0 <= i < last ==> #[trigger] after.waiting[i] == wires.waiting[i]
            &&& only_the_waiting_differ(wires, after)
            &&& after.sent == wires.sent
        }),
{
}

/// Two states of a bus are the same but for what waits for the master and how
/// many frames it has sent.
pub open spec fn only_the_waiting_differ(before: Wires, after: Wires) -> bool {
    &&& after.name == before.name
    &&& after.turnaround == before.turnaround
    &&& after.devices == before.devices
    &&& after.lose_every == before.lose_every
    &&& after.broken == before.broken
    &&& after.start == before.start
}

/// One answer is on the line as it is, two and more are overlaid, and without
/// one there is nothing.
pub proof fn law_the_line_shows_the_answers(answers: Seq<Seq<u8>>)
    ensures
        bus::on_the_line(answers) is None <==> answers.len() == 0,
        bus::on_the_line(answers) matches Some(line) ==> {
            &&& answers.len() == 1 ==> line == answers[0]
            &&& forall|i: int| 0 <= i < answers.len() ==> #[trigger] answers[i].len() <= line.len()
            &&& exists|i: int| 0 <= i < answers.len() && #[trigger] answers[i].len() == line.len()
            &&& forall|at: int, k: u8|
                0 <= at < line.len() && k < 8 ==> ((#[trigger] (line[at] >> k)) & 1 == 1 <==> exists|
                    i: int,
                |
                    0 <= i < answers.len() && at < #[trigger] answers[i].len() && (answers[i][at]
                        >> k) & 1 == 1)
        },
{
    if answers.len() > 0 {
        let line = bus::on_the_line(answers)->Some_0;
        if answers.len() == 1 {
            law_one_answer_overlays_into_itself(answers[0]);
            assert(answers =~= seq![answers[0]]);
        }
        assert(line == bus::overlaid(answers));
        law_the_longest_answer_sets_the_length(answers);
        assert forall|at: int, k: u8| 0 <= at < line.len() && k < 8 implies ((#[trigger] (line[at]
            >> k)) & 1 == 1 <==> exists|i: int|
            0 <= i < answers.len() && at < #[trigger] answers[i].len() && (answers[i][at] >> k) & 1
                == 1) by {
            lemma_overlay_bit(answers, at, k);
        }
    }
}

/// Answers, on the line for the master, change nothing but what waits for it:
/// what they show on the line goes behind all that waits there.
pub proof fn law_answers_wait_their_turn(
    wires: Wires,
    answers: Seq<Seq<u8>>,
    now: Duration,
    after: Wires,
)
    requires
        after == wires.answered(answers, now),
    ensures
        answers.len() == 0 ==> after == wires,
        answers.len() > 0 ==> {
            let last = wires.waiting.len() as int;
            &&& after.waiting.len() == last + 1
            &&& bus::on_the_line(answers) == Some(after.waiting[last].bytes)
            &&& after.waiting[last].ready == clock::nanoseconds(now) + wires.turnaround
            &&& forall|i: int| 0 <= i < last ==> #[trigger] after.waiting[i] == wires.waiting[i]
            &&& only_the_waiting_differ(wires, after)
            &&& after.sent == wires.sent
        },
{
}

/// What the master reads of a frame that was not refused, told by the replies
/// alone: if any is an answer, one frame waits behind all that waited, a
/// turnaround later, as long as the longest answer, and a bit of it is set if
/// and only if some answer that reaches there has it set; if none is, nothing.
/// All else stays as it was, but that one more frame was sent.
pub proof fn law_the_master_reads_what_the_replies_set(
    wires: Wires,
    frame: Seq<u8>,
    replies: Seq<Reply>,
    now: Duration,
    after: Wires,
)
    requires
        wires.transmits(frame, replies, now, Ok(()), after),
    ensures
        only_the_waiting_differ(wires, after),
        after.sent == wires.sent + 1,
        (forall|i: int| 0 <= i < replies.len() ==> !(#[trigger] replies[i] matches Ok(Some(_))))
            ==> after.waiting == wires.waiting,
        (exists|i: int| 0 <= i < replies.len() && (#[trigger] replies[i] matches Ok(Some(_))))
            ==> {
            let last = wires.waiting.len() as int;
            let line = after.waiting[last].bytes;
            &&& after.waiting.len() == last + 1
            &&& forall|i: int| 0 <= i < last ==> #[trigger] after.waiting[i] == wires.waiting[i]
            &&& after.waiting[last].ready == clock::nanoseconds(now) + wires.turnaround
            &&& forall|i: int|
                0 <= i < replies.len() ==> (#[trigger] replies[i] matches Ok(Some(answer))
                    ==> answer@.len() <= line.len())
            &&& exists|i: int|
                0 <= i < replies.len() && (#[trigger] replies[i] matches Ok(Some(answer))
                    && answer@.len() == line.len())
            &&& forall|at: int, k: u8|
                0 <= at < line.len() && k < 8 ==> ((#[trigger] (line[at] >> k)) & 1 == 1 <==> exists|
                    i: int,
                |
                    0 <= i < replies.len() && (#[trigger] replies[i] matches Ok(Some(answer)) && at
                        < answer@.len() && (answer@[at] >> k) & 1 == 1))
        },
{
    let answers = bus::answers_in(replies);
    let counted = Wires { sent: wires.sent + 1, ..wires };
    let places = law_answers_are_those_among_the_replies(replies);
    law_answers_wait_their_turn(counted, answers, now, after);
    law_the_line_shows_the_answers(answers);
    if exists|i: int| 0 <= i < replies.len() && (#[trigger] replies[i] matches Ok(Some(_))) {
        let one = choose|i: int|
            0 <= i < replies.len() && (#[trigger] replies[i] matches Ok(Some(_)));
        assert(places.contains(one));
        let line = after.waiting[wires.waiting.len() as int].bytes;
        assert forall|i: int| 0 <= i < replies.len() implies (#[trigger] replies[i] matches Ok(
            Some(answer),
        ) ==> answer@.len() <= line.len()) by {
            if replies[i] matches Ok(Some(_)) {
                assert(places.contains(i));
                let j = choose|j: int| 0 <= j < places.len() && places[j] == i;
                assert(answers[j].len() <= line.len());
            }
        }
        let most = choose|j: int| 0 <= j < answers.len() && #[trigger] answers[j].len()
            == line.len();
        assert(replies[places[most]] matches Ok(Some(answer)) && answer@.len() == line.len());
        assert forall|at: int, k: u8| 0 <= at < line.len() && k < 8 implies ((#[trigger] (line[at]
            >> k)) & 1 == 1 <==> exists|i: int|
            0 <= i < replies.len() && (#[trigger] replies[i] matches Ok(Some(answer)) && at
                < answer@.len() && (answer@[at] >> k) & 1 == 1)) by {
            if (line[at] >> k) & 1 == 1 {
                let j = choose|j: int|
                    0 <= j < answers.len() && at < #[trigger] answers[j].len() && (answers[j][at]
                        >> k) & 1 == 1;
                assert(replies[places[j]] matches Ok(Some(answer)) && at < answer@.len() && (
                answer@[at] >> k) & 1 == 1);
            }
            if exists|i: int|
                0 <= i < replies.len() && (#[trigger] replies[i] matches Ok(Some(answer)) && at
                    < answer@.len() && (answer@[at] >> k) & 1 == 1) {
                let i = choose|i: int|
                    0 <= i < replies.len() && (#[trigger] replies[i] matches Ok(Some(answer)) && at
                        < answer@.len() && (answer@[at] >> k) & 1 == 1);
                assert(places.contains(i));
                let j = choose|j: int| 0 <= j < places.len() && places[j] == i;
                assert(answers[j] == replies[i]->Ok_0->Some_0@);
                assert(at < answers[j].len());
            }
        }
    } else {
        if answers.len() > 0 {
            assert(replies[places[0]] matches Ok(Some(_)));
        }
    }
}

/// Replies come to the first error among them, when the frame was intact, and
/// else to the answers among them.
pub proof fn law_replies_come_to_answers_or_the_first_refusal(replies: Seq<Reply>, damaged: bool)
    ensures
        bus::outcome_of(replies, damaged) is Err <==> !damaged && exists|i: int|
            0 <= i < replies.len() && #[trigger] replies[i] is Err,
        bus::outcome_of(replies, damaged) matches Err(error) ==> exists|i: int|
            {
                &&& 0 <= i < replies.len()
                &&& #[trigger] replies[i] == Err::<Option<Vec<u8>>, Error>(error)
                &&& forall|k: int| 0 <= k < i ==> #[trigger] replies[k] is Ok
            },
        bus::outcome_of(replies, damaged) matches Ok(answers) ==> answers == bus::answers_in(
            replies,
        ),
{
    lemma_the_first_refusal_counts(replies);
    if let Some(error) = bus::refusal_in(replies) {
        let i = choose|i: int| #[trigger]
            refuses_first(replies, i) && replies[i] == Err::<Option<Vec<u8>>, Error>(error);
        assert(replies[i] is Err);
        assert(replies[i] == Err::<Option<Vec<u8>>, Error>(error));
    }
}

/// A refused frame counts as sent and changes nothing else.
pub proof fn law_a_refused_frame_only_counts(
    wires: Wires,
    frame: Seq<u8>,
    replies: Seq<Reply>,
    now: Duration,
    error: Error,
    after: Wires,
)
    requires
        wires.transmits(frame, replies, now, Err(error), after),
    ensures
        only_the_waiting_differ(wires, after),
        after.waiting == wires.waiting,
        after.sent == wires.sent + 1,
{
}

/// A read gives the oldest frame, whole, once its moment has come, and takes
/// that one alone off the line; before that it says until when to wait, and
/// where that is past the deadline, or there is no frame, it is silence and
/// takes nothing. All else stays.
pub proof fn law_a_read_gives_the_oldest_frame_that_is_due(
    wires: Wires,
    now: Duration,
    deadline: nat,
    reading: Reading,
    after: Wires,
)
    requires
        wires.polls(now, deadline, reading, after),
    ensures
        only_the_waiting_differ(wires, after),
        after.sent == wires.sent,
        reading matches Reading::Frame(bytes) ==> {
            &&& wires.waiting.len() > 0
            &&& wires.waiting[0].ready <= clock::nanoseconds(now)
            &&& bytes@ == wires.waiting[0].bytes
            &&& after.waiting.len() == wires.waiting.len() - 1
            &&& forall|i: int|
                0 <= i < after.waiting.len() ==> #[trigger] after.waiting[i] == wires.waiting[i + 1]
        },
        reading is Silence ==> {
            &&& after.waiting == wires.waiting
            &&& wires.waiting.len() == 0 || (wires.waiting[0].ready > clock::nanoseconds(now)
                && wires.waiting[0].ready > deadline)
        },
        reading matches Reading::Wait { until, deadline: by } ==> {
            &&& after.waiting == wires.waiting
            &&& wires.waiting.len() > 0
            &&& until == wires.waiting[0].ready
            &&& by == deadline
            &&& clock::nanoseconds(now) < until <= deadline
        },
{
}

/// A read that is asked for waits as long as its timeout and no longer; a break
/// condition comes before any frame and takes none.
pub proof fn law_a_read_waits_as_long_as_its_timeout(
    wires: Wires,
    asked: Duration,
    timeout: Duration,
    now: Duration,
    received: Result<Reading, Error>,
    after: Wires,
)
    requires
        wires.receives(asked, timeout, now, received, after),
    ensures
        received is Err <==> wires.broken,
        received matches Err(error) ==> {
            &&& error == Error::Break
            &&& !after.broken
            &&& after.waiting == wires.waiting
            &&& only_the_waiting_differ(wires, Wires { broken: true, ..after })
        },
        received is Ok ==> only_the_waiting_differ(wires, after),
        after.sent == wires.sent,
        received matches Ok(Reading::Frame(bytes)) ==> {
            &&& wires.waiting.len() > 0
            &&& wires.waiting[0].ready <= clock::nanoseconds(now)
            &&& bytes@ == wires.waiting[0].bytes
            &&& after.waiting == wires.waiting.skip(1)
        },
        received matches Ok(Reading::Silence) ==> {
            &&& after.waiting == wires.waiting
            &&& wires.waiting.len() == 0 || (wires.waiting[0].ready > clock::nanoseconds(now)
                && wires.waiting[0].ready > clock::nanoseconds(asked) + clock::nanoseconds(timeout))
        },
        received matches Ok(Reading::Wait { until, deadline }) ==> {
            &&& after.waiting == wires.waiting
            &&& wires.waiting.len() > 0
            &&& until == wires.waiting[0].ready
            &&& deadline == clock::nanoseconds(asked) + clock::nanoseconds(timeout)
            &&& clock::nanoseconds(now) < until <= deadline
        },
{
    if received matches Ok(Reading::Frame(_)) {
        assert(after.waiting =~= wires.waiting.skip(1));
    }
}

/// What joins others comes behind them, and they stay as they are.
pub proof fn law_what_joins_comes_last<T>(item: T, items: Seq<T>)
    ensures
        bus::joined_by(item, items).len() == items.len() + 1,
        bus::joined_by(item, items)[items.len() as int] == item,
        forall|i: int| 0 <= i < items.len() ==> #[trigger] bus::joined_by(item, items)[i] == items[i],
{
}

/// A bus tells the time that the machine's clock tells of its own start.
pub proof fn law_a_bus_tells_the_time_since_its_start(wires: Wires, now: Duration)
    requires
        wires.tells(now),
    ensures
        call_ensures(std::time::Instant::elapsed, (&wires.start,), now),
{
}

/// Answers are seen as they are, and so is an error in their place.
pub proof fn law_answers_are_seen_as_they_are(answers: Vec<Vec<u8>>, error: Error)
    ensures
        bus::views(answers@).len() == answers@.len(),
        forall|i: int|
            0 <= i < answers@.len() ==> #[trigger] bus::views(answers@)[i] == answers@[i]@,
        bus::views_of(Ok(answers)) == Ok::<Seq<Seq<u8>>, Error>(bus::views(answers@)),
        bus::views_of(Err(error)) == Err::<Seq<Seq<u8>>, Error>(error),
{
}

} // verus!
