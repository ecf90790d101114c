//! The demonstration: jobs that succeed, fail once or fail for good.

use crate::config::{QueueConfig, RetryConfig, RuntimeConfig, SECOND};
use crate::coordinator::model::MILLISECOND;
use crate::handler::JobError;
use crate::store::StorageConfig;
use crate::types::{JobState, QueueName};
use vstd::prelude::*;

verus! {

/// What a job of the demonstration does. Each has a number.
#[derive(Debug, Clone, Copy, PartialEq, Eq, Structural)]
pub enum DemoPayload {
    /// Succeeds.
    Success(u32),
    /// Fails the first time and succeeds the second.
    RetryOnce(u32),
    /// Fails for good.
    Fatal(u32),
}

/// The text `success:`.
const SUCCESS_TAG: [u8; 8] = [115, 117, 99, 99, 101, 115, 115, 58];

/// The text `retry-once:`.
const RETRY_ONCE_TAG: [u8; 11] = [114, 101, 116, 114, 121, 45, 111, 110, 99, 101, 58];

/// The text `fatal:`.
const FATAL_TAG: [u8; 6] = [102, 97, 116, 97, 108, 58];

/// The text `success:`.
pub open spec fn success_tag() -> Seq<u8> {
    seq![115u8, 117, 99, 99, 101, 115, 115, 58]
}

/// The text `retry-once:`.
pub open spec fn retry_once_tag() -> Seq<u8> {
    seq![114u8, 101, 116, 114, 121, 45, 111, 110, 99, 101, 58]
}

/// The text `fatal:`.
pub open spec fn fatal_tag() -> Seq<u8> {
    seq![102u8, 97, 116, 97, 108, 58]
}

/// A number in decimal.
pub open spec fn decimal(n: nat) -> Seq<u8>
    decreases n,
{
    if n < 10 {
        seq![(48 + n) as u8]
    } else {
        decimal(n / 10).push((48 + n % 10) as u8)
    }
}

/// Whether bytes are decimal digits.
pub open spec fn all_digits(text: Seq<u8>) -> bool {
    forall|i: int| 0 <= i < text.len() ==> 48 <= #[trigger] text[i] <= 57
}

/// The number that decimal digits stand for.
pub open spec fn digits_value(text: Seq<u8>) -> nat
    decreases text.len(),
{
    if text.len() == 0 {
        0
    } else {
        digits_value(text.drop_last()) * 10 + (text.last() - 48) as nat
    }
}

/// The number that a text stands for: decimal digits, at least one, after an
/// optional plus sign, of a value that fits.
pub open spec fn parse_number(text: Seq<u8>) -> Option<u32> {
    let digits = if text.len() > 0 && text[0] == 43 {
        text.skip(1)
    } else {
        text
    };
    if digits.len() > 0 && all_digits(digits) && digits_value(digits) <= u32::MAX {
        Some(digits_value(digits) as u32)
    } else {
        None
    }
}

/// Whether bytes begin with others.
pub open spec fn begins_with(text: Seq<u8>, tag: Seq<u8>) -> bool {
    text.len() >= tag.len() && text.take(tag.len() as int) == tag
}

impl DemoPayload {
    /// The payload's text: its kind and its number.
    pub open spec fn text(self) -> Seq<u8> {
        match self {
            DemoPayload::Success(n) => success_tag() + decimal(n as nat),
            DemoPayload::RetryOnce(n) => retry_once_tag() + decimal(n as nat),
            DemoPayload::Fatal(n) => fatal_tag() + decimal(n as nat),
        }
    }

    /// The payload that a text stands for.
    pub open spec fn of_text(text: Seq<u8>) -> Option<DemoPayload> {
        if begins_with(text, success_tag()) {
            match parse_number(text.skip(8)) {
                Some(n) => Some(DemoPayload::Success(n)),
                None => None,
            }
        } else if begins_with(text, retry_once_tag()) {
            match parse_number(text.skip(11)) {
                Some(n) => Some(DemoPayload::RetryOnce(n)),
                None => None,
            }
        } else if begins_with(text, fatal_tag()) {
            match parse_number(text.skip(6)) {
                Some(n) => Some(DemoPayload::Fatal(n)),
                None => None,
            }
        } else {
            None
        }
    }

    /// The payload's bytes.
    pub fn encode(&self) -> (out: Vec<u8>)
        ensures
            out@ == self.text(),
    {
        let mut out: Vec<u8> = Vec::new();
        match self {
            DemoPayload::Success(n) => {
                out.extend_from_slice(&SUCCESS_TAG);
                assert(out@ =~= success_tag());
                push_decimal(&mut out, *n);
            },
            DemoPayload::RetryOnce(n) => {
                out.extend_from_slice(&RETRY_ONCE_TAG);
                assert(out@ =~= retry_once_tag());
                push_decimal(&mut out, *n);
            },
            DemoPayload::Fatal(n) => {
                out.extend_from_slice(&FATAL_TAG);
                assert(out@ =~= fatal_tag());
                push_decimal(&mut out, *n);
            },
        }
        out
    }

    /// Reads a payload.
    pub fn decode(payload: &[u8]) -> (decoded: Option<Self>)
        ensures
            decoded == DemoPayload::of_text(payload@),
    {
        proof {
            assert(SUCCESS_TAG@ =~= success_tag());
            assert(RETRY_ONCE_TAG@ =~= retry_once_tag());
            assert(FATAL_TAG@ =~= fatal_tag());
        }
        if starts_with(payload, &SUCCESS_TAG) {
            assert(payload@.subrange(8, payload@.len() as int) =~= payload@.skip(8));
            match read_number(&payload[8..payload.len()]) {
                Some(n) => Some(DemoPayload::Success(n)),
                None => None,
            }
        } else if starts_with(payload, &RETRY_ONCE_TAG) {
            assert(payload@.subrange(11, payload@.len() as int) =~= payload@.skip(11));
            match read_number(&payload[11..payload.len()]) {
                Some(n) => Some(DemoPayload::RetryOnce(n)),
                None => None,
            }
        } else if starts_with(payload, &FATAL_TAG) {
            assert(payload@.subrange(6, payload@.len() as int) =~= payload@.skip(6));
            match read_number(&payload[6..payload.len()]) {
                Some(n) => Some(DemoPayload::Fatal(n)),
                None => None,
            }
        } else {
            None
        }
    }

    /// How an attempt at the job ends, given whether the job has failed before.
    pub fn attempt(&self, failed_before: bool) -> (outcome: Result<(), JobError>)
        ensures
            match *self {
                DemoPayload::Success(_) => outcome is Ok,
                DemoPayload::RetryOnce(_) => if failed_before {
                    outcome is Ok
                } else {
                    outcome matches Err(JobError::Retryable(cause)) && cause@
                        == "simulated transient failure"@
                },
                DemoPayload::Fatal(_) => outcome matches Err(JobError::Fatal(cause)) && cause@
                    == "simulated fatal error"@,
            },
    {
        match self {
            DemoPayload::Success(_) => Ok(()),
            DemoPayload::RetryOnce(_) => if failed_before {
                Ok(())
            } else {
                Err(JobError::retryable("simulated transient failure".to_owned()))
            },
            DemoPayload::Fatal(_) => Err(JobError::fatal("simulated fatal error".to_owned())),
        }
    }
}

/// Appends a number in decimal.
fn push_decimal(out: &mut Vec<u8>, n: u32)
    ensures
        final(out)@ == old(out)@ + decimal(n as nat),
    decreases n,
{
    if n < 10 {
        out.push(48 + n as u8);
        assert(out@ =~= old(out)@ + decimal(n as nat));
    } else {
        push_decimal(out, n / 10);
        out.push(48 + (n % 10) as u8);
        assert(out@ =~= old(out)@ + decimal(n as nat));
    }
}

/// Whether bytes begin with others.
fn starts_with(text: &[u8], tag: &[u8]) -> (yes: bool)
    ensures
        yes == begins_with(text@, tag@),
{
    if text.len() < tag.len() {
        return false;
    }
    let total: usize = tag.len();
    let mut i: usize = 0;
    while i < total
        invariant
            i <= total == tag@.len(),
            total <= text@.len(),
            forall|k: int| 0 <= k < i ==> text@[k] == tag@[k],
        decreases total - i,
    {
        if text[i] != tag[i] {
            assert(text@.take(tag@.len() as int)[i as int] != tag@[i as int]);
            return false;
        }
        i = i + 1;
    }
    assert(text@.take(tag@.len() as int) =~= tag@);
    true
}

/// Reads a number.
fn read_number(text: &[u8]) -> (number: Option<u32>)
    ensures
        number == parse_number(text@),
{
    let total: usize = text.len();
    let start: usize = if total > 0 && text[0] == 43 {
        1
    } else {
        0
    };
    let ghost digits = if text@.len() > 0 && text@[0] == 43 {
        text@.skip(1)
    } else {
        text@
    };
    assert(text@.skip(0) =~= text@);
    assert(digits =~= text@.skip(start as int));
    if start == total {
        return None;
    }
    let mut value: u64 = 0;
    let mut i: usize = start;
    assert(digits.take(0) =~= Seq::empty());
    while i < total
        invariant
            start <= i <= total == text@.len(),
            digits == text@.skip(start as int),
            digits == (if text@.len() > 0 && text@[0] == 43 {
                text@.skip(1)
            } else {
                text@
            }),
            value == digits_value(digits.take(i - start)),
            value <= u32::MAX,
            all_digits(digits.take(i - start)),
        decreases total - i,
    {
        let byte: u8 = text[i];
        let ghost k = i - start;
        proof {
            assert(digits[k] == byte);
            assert(digits.take(k + 1).drop_last() =~= digits.take(k));
            assert(digits.take(k + 1).last() == byte);
        }
        if byte < 48 || byte > 57 {
            assert(!all_digits(digits));
            return None;
        }
        value = value * 10 + (byte - 48) as u64;
        assert(all_digits(digits.take(k + 1))) by {
            assert forall|j: int| 0 <= j < k + 1 implies 48 <= #[trigger] digits.take(k + 1)[j]
                <= 57 by {
                if j < k {
                    assert(digits.take(k)[j] == digits[j]);
                }
            }
        }
        if value > u32::MAX as u64 {
            proof {
                lemma_value_grows(digits, k + 1);
            }
            return None;
        }
        i = i + 1;
    }
    assert(digits.take(i - start) =~= digits);
    Some(value as u32)
}

/// More digits never stand for less.
proof fn lemma_value_grows(digits: Seq<u8>, n: int)
    requires
        0 <= n <= digits.len(),
    ensures
        digits_value(digits.take(n)) <= digits_value(digits),
    decreases digits.len() - n,
{
    if n < digits.len() {
        lemma_value_grows(digits, n + 1);
        assert(digits.take(n + 1).drop_last() =~= digits.take(n));
    } else {
        assert(digits.take(n) =~= digits);
    }
}

/// Decimal digits stand for the number that they were written for.
proof fn lemma_decimal_round_trip(n: nat)
    ensures
        decimal(n).len() > 0,
        all_digits(decimal(n)),
        digits_value(decimal(n)) == n,
    decreases n,
{
    if n < 10 {
        assert(decimal(n).drop_last() =~= Seq::empty());
        assert(digits_value(Seq::<u8>::empty()) == 0);
    } else {
        lemma_decimal_round_trip(n / 10);
        assert(decimal(n).drop_last() =~= decimal(n / 10));
    }
}

/// A payload is read back from its text.
pub proof fn lemma_payload_round_trip(payload: DemoPayload)
    ensures
        DemoPayload::of_text(payload.text()) == Some(payload),
{
    let text = payload.text();
    let number = match payload {
        DemoPayload::Success(n) => n,
        DemoPayload::RetryOnce(n) => n,
        DemoPayload::Fatal(n) => n,
    };
    let digits = decimal(number as nat);
    lemma_decimal_round_trip(number as nat);
    assert(digits[0] != 43);
    assert(parse_number(digits) == Some(number));
    match payload {
        DemoPayload::Success(_) => {
            assert(text.take(8) =~= success_tag());
            assert(text.skip(8) =~= digits);
        },
        DemoPayload::RetryOnce(_) => {
            assert(text[0] == 114);
            assert(!begins_with(text, success_tag())) by {
                if begins_with(text, success_tag()) {
                    assert(text.take(8)[0] == success_tag()[0]);
                }
            }
            assert(text.take(11) =~= retry_once_tag());
            assert(text.skip(11) =~= digits);
        },
        DemoPayload::Fatal(_) => {
            assert(text[0] == 102);
            assert(!begins_with(text, success_tag())) by {
                if begins_with(text, success_tag()) {
                    assert(text.take(8)[0] == success_tag()[0]);
                }
            }
            assert(!begins_with(text, retry_once_tag())) by {
                if begins_with(text, retry_once_tag()) {
                    assert(text.take(11)[0] == retry_once_tag()[0]);
                }
            }
            assert(text.take(6) =~= fatal_tag());
            assert(text.skip(6) =~= digits);
        },
    }
}

/// The text of a payload: the name of its kind, a colon, and its number in decimal
/// without needless zeros.
pub proof fn lemma_texts_name_their_kind(payload: DemoPayload)
    ensures
        ({
            let text = payload.text();
            let (name, number) = match payload {
                DemoPayload::Success(n) => ("success:"@, n),
                DemoPayload::RetryOnce(n) => ("retry-once:"@, n),
                DemoPayload::Fatal(n) => ("fatal:"@, n),
            };
            let digits = text.skip(name.len() as int);
            &&& text.len() > name.len()
            &&& forall|i: int| 0 <= i < name.len() ==> #[trigger] text[i] == name[i] as int
            &&& all_digits(digits)
            &&& digits_value(digits) == number
            &&& digits[0] == 48 ==> digits.len() == 1
        }),
{
    reveal_strlit("success:");
    reveal_strlit("retry-once:");
    reveal_strlit("fatal:");
    let text = payload.text();
    let (size, number) = match payload {
        DemoPayload::Success(n) => (8int, n),
        DemoPayload::RetryOnce(n) => (11int, n),
        DemoPayload::Fatal(n) => (6int, n),
    };
    lemma_decimal_round_trip(number as nat);
    lemma_no_needless_zero(number as nat);
    assert(text.skip(size) =~= decimal(number as nat));
}

/// Only zero is written with a zero in front.
proof fn lemma_no_needless_zero(n: nat)
    ensures
        decimal(n).len() > 0,
        decimal(n)[0] == 48 ==> n == 0 && decimal(n).len() == 1,
    decreases n,
{
    if n >= 10 {
        lemma_no_needless_zero(n / 10);
    }
}

/// Numbers are read digit by digit: nothing stands for no number, a digit behind a
/// number counts in the place of ones, a number that is too large or holds anything
/// but digits stands for none, and a plus sign in front changes nothing.
pub proof fn lemma_numbers_are_read(text: Seq<u8>, byte: u8)
    ensures
        parse_number(Seq::empty()) is None,
        48 <= byte <= 57 ==> parse_number(seq![byte]) == Some((byte - 48) as u32),
        text.len() > 0 && text[0] != 43 ==> parse_number(seq![43u8] + text) == parse_number(text),
        text.len() > 0 && (byte < 48 || byte > 57) ==> parse_number(text.push(byte)) is None,
        parse_number(text) is Some && 48 <= byte <= 57 ==> ({
            let value = parse_number(text)->Some_0 * 10 + byte - 48;
            parse_number(text.push(byte)) == (if value <= u32::MAX {
                Some(value as u32)
            } else {
                None
            })
        }),
{
    let single = seq![byte];
    assert(single.drop_last() =~= Seq::empty());
    assert(digits_value(Seq::<u8>::empty()) == 0);
    if text.len() > 0 {
        assert((seq![43u8] + text).skip(1) =~= text);
        let more = text.push(byte);
        let (digits, all) = if text[0] == 43 {
            (text.skip(1), more.skip(1))
        } else {
            (text, more)
        };
        assert(more[0] == text[0]);
        assert(all =~= digits.push(byte));
        assert(all.drop_last() =~= digits);
        assert(all.last() == byte);
        assert(all[all.len() - 1] == byte);
        if all_digits(digits) && 48 <= byte <= 57 {
            assert(all_digits(all));
        }
    }
}

/// What the job of the given number does.
pub open spec fn payload_of(i: nat) -> DemoPayload {
    if i % 10 == 0 {
        DemoPayload::Fatal(i as u32)
    } else if i % 10 <= 2 {
        DemoPayload::RetryOnce(i as u32)
    } else {
        DemoPayload::Success(i as u32)
    }
}

/// How many of the first `jobs` jobs do what is wanted.
pub open spec fn jobs_that(jobs: nat, wanted: spec_fn(DemoPayload) -> bool) -> nat
    decreases jobs,
{
    if jobs == 0 {
        0
    } else {
        let before = (jobs - 1) as nat;
        jobs_that(before, wanted) + (if wanted(payload_of(before)) {
            1nat
        } else {
            0
        })
    }
}

/// Of every ten jobs, counted from the first, one fails for good, two fail once and
/// seven succeed; and of the first ones as many fail for good as are expected to.
pub proof fn lemma_one_in_ten_dies(jobs: nat, i: u32)
    ensures
        jobs_that(jobs, |payload: DemoPayload| payload is Fatal) == (jobs + 9) / 10,
        jobs % 10 == 0 ==> jobs_that(jobs, |payload: DemoPayload| payload is RetryOnce) == jobs / 10
            * 2,
        jobs % 10 == 0 ==> jobs_that(jobs, |payload: DemoPayload| payload is Success) == jobs / 10
            * 7,
        payload_of(i as nat) == DemoPayload::Fatal(i) || payload_of(i as nat)
            == DemoPayload::RetryOnce(i) || payload_of(i as nat) == DemoPayload::Success(i),
{
    lemma_shares(jobs, jobs / 10, jobs % 10);
}

/// A further job is counted where it does what is wanted.
proof fn lemma_further_job(before: nat, wanted: spec_fn(DemoPayload) -> bool)
    ensures
        jobs_that(before + 1, wanted) == jobs_that(before, wanted) + (if wanted(payload_of(before)) {
            1nat
        } else {
            0
        }),
{
}

/// How many jobs do what, given how many tens of them there are and how many more.
proof fn lemma_shares(jobs: nat, tens: nat, more: nat)
    requires
        jobs == 10 * tens + more,
        more < 10,
    ensures
        jobs_that(jobs, |payload: DemoPayload| payload is Fatal) == tens + (if more > 0 {
            1nat
        } else {
            0
        }),
        jobs_that(jobs, |payload: DemoPayload| payload is RetryOnce) == 2 * tens + (if more >= 3 {
            2nat
        } else if more == 2 {
            1
        } else {
            0
        }),
        jobs_that(jobs, |payload: DemoPayload| payload is Success) == 7 * tens + (if more >= 3 {
            more - 3
        } else {
            0
        }),
    decreases jobs,
{
    let fatal = |payload: DemoPayload| payload is Fatal;
    let once = |payload: DemoPayload| payload is RetryOnce;
    let success = |payload: DemoPayload| payload is Success;
    if jobs == 0 {
        assert(tens == 0 && more == 0);
    } else {
        let before = (jobs - 1) as nat;
        let (t, m) = if more > 0 {
            (tens, (more - 1) as nat)
        } else {
            ((tens - 1) as nat, 9nat)
        };
        lemma_shares(before, t, m);
        assert(before % 10 == m);
        lemma_further_job(before, fatal);
        lemma_further_job(before, once);
        lemma_further_job(before, success);
    }
}

/// What the job of the given number does: of every ten one fails for good and
/// two fail once.
pub fn demo_payload(i: u32) -> (payload: DemoPayload)
    ensures
        payload == payload_of(i as nat),
        payload == (if i % 10 == 0 {
            DemoPayload::Fatal(i)
        } else if i % 10 == 1 || i % 10 == 2 {
            DemoPayload::RetryOnce(i)
        } else {
            DemoPayload::Success(i)
        }),
{
    match i % 10 {
        0 => DemoPayload::Fatal(i),
        1 => DemoPayload::RetryOnce(i),
        2 => DemoPayload::RetryOnce(i),
        _ => DemoPayload::Success(i),
    }
}

/// The name of the queue that a job of the demonstration goes to: jobs that fail
/// once go to the priority queue.
pub fn demo_queue(payload: &DemoPayload) -> (name: &'static str)
    ensures
        name@ == (if payload is RetryOnce {
            "priority"@
        } else {
            "default"@
        }),
{
    match payload {
        DemoPayload::RetryOnce(_) => "priority",
        _ => "default",
    }
}

/// How many of the first `jobs` jobs of the demonstration fail for good.
pub fn expected_dead(jobs: u32) -> (dead: u32)
    ensures
        dead == (jobs + 9) / 10,
        dead == jobs_that(jobs as nat, |payload: DemoPayload| payload is Fatal),
{
    proof {
        lemma_one_in_ten_dies(jobs as nat, 0);
    }
    if jobs % 10 == 0 {
        jobs / 10
    } else {
        jobs / 10 + 1
    }
}

/// How many jobs ended how, and whether all have ended.
#[derive(Debug, Clone, Copy, PartialEq, Eq)]
pub struct Tally {
    pub completed: u32,
    pub dead: u32,
    pub cancelled: u32,
    pub all_done: bool,
}

/// How many of the states are the given one.
pub open spec fn count_state(states: Seq<JobState>, state: JobState) -> nat
    decreases states.len(),
{
    if states.len() == 0 {
        0
    } else {
        count_state(states.drop_last(), state) + (if states.last() == state {
            1nat
        } else {
            0
        })
    }
}

/// Each state is counted once.
pub proof fn lemma_states_are_counted(states: Seq<JobState>, last: JobState, state: JobState)
    ensures
        count_state(Seq::empty(), state) == 0,
        last == state ==> count_state(states.push(last), state) == count_state(states, state) + 1,
        last != state ==> count_state(states.push(last), state) == count_state(states, state),
{
    assert(states.push(last).drop_last() =~= states);
}

/// Counts how jobs ended.
pub fn tally(states: &Vec<JobState>) -> (tally: Tally)
    requires
        states@.len() <= u32::MAX,
    ensures
        tally.completed == count_state(states@, JobState::Completed),
        tally.dead == count_state(states@, JobState::Dead),
        tally.cancelled == count_state(states@, JobState::Cancelled),
        tally.all_done == (forall|i: int|
            0 <= i < states@.len() ==> (#[trigger] states@[i]).terminal()),
{
    let mut tally = Tally { completed: 0, dead: 0, cancelled: 0, all_done: true };
    let total: usize = states.len();
    let mut i: usize = 0;
    while i < total
        invariant
            i <= total == states@.len(),
            states@.len() <= u32::MAX,
            tally.completed == count_state(states@.take(i as int), JobState::Completed) <= i,
            tally.dead == count_state(states@.take(i as int), JobState::Dead) <= i,
            tally.cancelled == count_state(states@.take(i as int), JobState::Cancelled) <= i,
            tally.all_done == (forall|k: int|
                0 <= k < i ==> (#[trigger] states@[k]).terminal()),
        decreases total - i,
    {
        assert(states@.take(i + 1).drop_last() =~= states@.take(i as int));
        assert(states@.take(i + 1).last() == states@[i as int]);
        match states[i] {
            JobState::Completed => {
                tally.completed = tally.completed + 1;
            },
            JobState::Dead => {
                tally.dead = tally.dead + 1;
            },
            JobState::Cancelled => {
                tally.cancelled = tally.cancelled + 1;
            },
            _ => {
                tally.all_done = false;
            },
        }
        i = i + 1;
    }
    assert(states@.take(i as int) =~= states@);
    tally
}

/// How long the demonstration waits for its jobs, in nanoseconds.
pub const WAIT_LIMIT: u128 = 30_000_000_000;

/// What the demonstration does next while it waits for its jobs.
#[derive(Debug, Clone, Copy, PartialEq, Eq, Structural)]
pub enum WaitStep {
    /// All jobs have ended.
    Done,
    /// The time is up.
    TimedOut,
    /// Look again later.
    Wait,
}

/// What comes next in the wait for the jobs.
pub open spec fn next_step(all_done: bool, now: u128, deadline: u128) -> WaitStep {
    if all_done {
        WaitStep::Done
    } else if now > deadline {
        WaitStep::TimedOut
    } else {
        WaitStep::Wait
    }
}

/// The wait ends when all jobs have, whatever the time; otherwise it goes on up to
/// its deadline and no further.
pub proof fn lemma_wait_ends(now: u128, deadline: u128)
    ensures
        next_step(true, now, deadline) == WaitStep::Done,
        next_step(false, now, deadline) == WaitStep::Wait <==> now <= deadline,
        next_step(false, now, deadline) == WaitStep::TimedOut <==> now > deadline,
{
}

/// Whether the wait for the jobs is over: they have all ended, or more time than
/// the deadline allows has passed.
pub fn wait_step(all_done: bool, now: u128, deadline: u128) -> (step: WaitStep)
    ensures
        step == next_step(all_done, now, deadline),
        step == (if all_done {
            WaitStep::Done
        } else if now > deadline {
            WaitStep::TimedOut
        } else {
            WaitStep::Wait
        }),
{
    if all_done {
        WaitStep::Done
    } else if now > deadline {
        WaitStep::TimedOut
    } else {
        WaitStep::Wait
    }
}

/// The configuration of the demonstration: a default queue, a priority queue of
/// half its capacity, and quick retries.
pub fn demo_config(workers: usize, capacity: usize, storage: StorageConfig) -> (config: Option<
    RuntimeConfig,
>)
    ensures
        config matches Some(c) && {
            &&& c.queues@.len() == 2
            &&& c.queues@[0].name@ == "default"@
            &&& c.queues@[0].capacity == capacity
            &&& c.queues@[1].name@ == "priority"@
            &&& c.queues@[1].capacity == capacity / 2
            &&& c.channel_capacity == 64
            &&& c.storage == storage
            &&& c.worker_concurrency == workers
            &&& c.retry == (RetryConfig {
                base_delay: (100 * MILLISECOND) as u128,
                max_delay: (500 * MILLISECOND) as u128,
                jitter: crate::config::Jitter::Off,
            })
            &&& c.visibility_timeout == 30 * SECOND
            &&& c.shutdown_timeout == 5 * SECOND
        },
{
    proof {
        reveal_strlit("default");
        reveal_strlit("priority");
    }
    match (QueueName::new("default"), QueueName::new("priority")) {
        (Some(default_queue), Some(priority_queue)) => {
            let mut queues: Vec<QueueConfig> = Vec::new();
            queues.push(QueueConfig::new(default_queue, capacity));
            queues.push(QueueConfig::new(priority_queue, capacity / 2));
            let config = RuntimeConfig::new(queues, 64).with_storage(
                storage,
            ).with_worker_concurrency(workers).with_retry(
                RetryConfig::new(100 * MILLISECOND, 500 * MILLISECOND),
            ).with_visibility_timeout(30 * SECOND).with_shutdown_timeout(5 * SECOND);
            Some(config)
        },
        _ => None,
    }
}

} // verus!
