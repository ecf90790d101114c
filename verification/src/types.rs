//! Identifiers, timestamps and the job model.

use std::cmp::Ordering;
use vstd::prelude::*;
use vstd::std_specs::cmp::{PartialOrdIs, PartialOrdSpecImpl};

verus! {

/// A moment in wall-clock time, in milliseconds since the Unix epoch.
#[derive(Debug, Clone, Copy, PartialEq, Eq, Ord, Structural)]
pub struct UnixMillis(pub i64);

/// Moments are ordered as their milliseconds are.
impl PartialOrd for UnixMillis {
    fn partial_cmp(&self, other: &Self) -> (order: Option<Ordering>) {
        if self.0 < other.0 {
            Some(Ordering::Less)
        } else if self.0 == other.0 {
            Some(Ordering::Equal)
        } else {
            Some(Ordering::Greater)
        }
    }
}

impl PartialOrdSpecImpl for UnixMillis {
    open spec fn obeys_partial_cmp_spec() -> bool {
        true
    }

    open spec fn partial_cmp_spec(&self, other: &Self) -> Option<Ordering> {
        if self.0 < other.0 {
            Some(Ordering::Less)
        } else if self.0 == other.0 {
            Some(Ordering::Equal)
        } else {
            Some(Ordering::Greater)
        }
    }
}

/// One moment is before another exactly where it has fewer milliseconds, and no
/// two moments have the same number.
pub proof fn lemma_moments_in_order(a: i64, b: i64)
    ensures
        UnixMillis(a).is_lt(&UnixMillis(b)) <==> a < b,
        UnixMillis(a).is_gt(&UnixMillis(b)) <==> a > b,
        UnixMillis(a).is_le(&UnixMillis(b)) <==> a <= b,
        UnixMillis(a).is_ge(&UnixMillis(b)) <==> a >= b,
        UnixMillis(a) == UnixMillis(b) <==> a == b,
{
}

/// A reading of the system clock.
#[verifier::external_type_specification]
#[verifier::external_body]
pub struct ExSystemTime(std::time::SystemTime);

/// Calls `std::time::SystemTime::now`. Nothing is claimed of the reading.
#[verifier::external_body]
fn system_now() -> std::time::SystemTime {
    std::time::SystemTime::now()
}

/// Calls `SystemTime::duration_since` with the Unix epoch: `None` when the
/// reading lies before it. A reading is opaque, so what comes back cannot be
/// tied to it and nothing is claimed.
#[verifier::external_body]
fn since_unix_epoch(reading: std::time::SystemTime) -> Option<std::time::Duration> {
    reading.duration_since(std::time::UNIX_EPOCH).ok()
}

/// Calls `Duration::as_millis`. A duration is opaque, so the number cannot be
/// tied to it and nothing is claimed.
#[verifier::external_body]
fn whole_millis(duration: std::time::Duration) -> u128 {
    duration.as_millis()
}

impl UnixMillis {
    /// The current time; the epoch when the clock reads earlier than that.
    ///
    /// The result depends on the machine's clock alone, so nothing more is
    /// stated of it than what [`UnixMillis::from_clock`] makes of a reading.
    pub fn now() -> (time: Self)
        ensures
            exists|reading: Option<u128>| time == #[trigger] UnixMillis::of_clock(reading),
    {
        let reading = match since_unix_epoch(system_now()) {
            Some(duration) => Some(whole_millis(duration)),
            None => None,
        };
        Self::from_clock(reading)
    }

    /// What a clock reading stands for: milliseconds since the epoch, of which
    /// the low 64 bits are kept, and the epoch itself for a reading before it.
    pub open spec fn of_clock(reading: Option<u128>) -> UnixMillis {
        match reading {
            Some(millis) => UnixMillis(#[verifier::truncate] (millis as i64)),
            None => UnixMillis(0),
        }
    }

    /// Turns a clock reading into a timestamp.
    pub fn from_clock(reading: Option<u128>) -> (time: Self)
        ensures
            time == UnixMillis::of_clock(reading),
            reading matches Some(millis) ==> millis <= i64::MAX ==> time.0 == millis,
            reading is None ==> time.0 == 0,
    {
        match reading {
            Some(millis) => UnixMillis(#[verifier::truncate] (millis as i64)),
            None => UnixMillis(0),
        }
    }

    /// The timestamp with the given number of milliseconds.
    pub fn from_millis(millis: i64) -> (time: Self)
        ensures
            time.0 == millis,
    {
        UnixMillis(millis)
    }

    /// The number of milliseconds.
    pub fn as_millis(&self) -> (millis: i64)
        ensures
            millis == self.0,
    {
        self.0
    }
}

impl Default for UnixMillis {
    fn default() -> (time: Self)
        ensures
            exists|reading: Option<u128>| time == #[trigger] UnixMillis::of_clock(reading),
    {
        UnixMillis::now()
    }
}

/// A clock reading keeps its low 64 bits, read as a signed number.
pub proof fn lemma_low_bits_are_kept(millis: u128)
    ensures
        UnixMillis::of_clock(None).0 == 0,
        ({
            let low = millis % 0x1_0000_0000_0000_0000;
            let time = UnixMillis::of_clock(Some(millis)).0;
            &&& low < 0x8000_0000_0000_0000 ==> time == low
            &&& low >= 0x8000_0000_0000_0000 ==> time == low - 0x1_0000_0000_0000_0000
        }),
{
    let low = (millis % 0x1_0000_0000_0000_0000) as u128;
    let time = #[verifier::truncate] (millis as i64);
    assert(low < 0x8000_0000_0000_0000 ==> time == low) by (bit_vector)
        requires
            low == millis % 0x1_0000_0000_0000_0000,
            time == millis as i64,
    ;
    assert(low >= 0x8000_0000_0000_0000 ==> time == low - 0x1_0000_0000_0000_0000) by (bit_vector)
        requires
            low == millis % 0x1_0000_0000_0000_0000,
            time == millis as i64,
    ;
}

/// Identifies a job: the 128-bit value of a UUID.
#[derive(Debug, Clone, Copy, PartialEq, Eq, Hash, Structural)]
pub struct JobId(pub u128);

/// The hexadecimal digit, in lower case, of a number below sixteen.
pub open spec fn hex_digit(n: nat) -> char {
    if n < 10 {
        ('0' as int + n) as char
    } else {
        ('a' as int + n - 10) as char
    }
}

/// How many hyphens stand before position `i` of a hyphenated UUID.
pub open spec fn hyphens_before(i: int) -> int {
    (if i > 8 { 1int } else { 0 }) + (if i > 13 { 1int } else { 0 }) + (if i > 18 { 1int } else {
        0
    }) + (if i > 23 { 1int } else { 0 })
}

/// The hyphenated form of a UUID: its 32 hexadecimal digits, most significant
/// first, in groups of 8, 4, 4, 4 and 12.
pub open spec fn hyphenated(id: u128) -> Seq<char> {
    Seq::new(
        36,
        |i: int|
            if i == 8 || i == 13 || i == 18 || i == 23 {
                '-'
            } else {
                hex_digit(
                    (id as nat / vstd::arithmetic::power::pow(16, (31 - (i - hyphens_before(i))) as nat) as nat) % 16,
                )
            },
    )
}

/// Calls `uuid::Uuid::new_v4` and takes its value. The value is random but for
/// the version field, which is 4, and the variant field, whose two high bits
/// are 1 and 0.
#[verifier::external_body]
fn random_uuid() -> (value: u128)
    ensures
        (value >> 76u128) & 0xf == 4,
        (value >> 62u128) & 0x3 == 2,
{
    uuid::Uuid::new_v4().as_u128()
}

/// Calls the `Display` impl of `uuid::Uuid`, which writes the hyphenated form.
#[verifier::external_body]
fn uuid_text(value: u128) -> (text: String)
    ensures
        text@ == hyphenated(value),
{
    uuid::Uuid::from_u128(value).to_string()
}

impl JobId {
    /// A fresh random identifier: a version 4 UUID.
    pub fn new() -> (id: Self)
        ensures
            (id.0 >> 76u128) & 0xf == 4,
            (id.0 >> 62u128) & 0x3 == 2,
    {
        JobId(random_uuid())
    }

    /// The identifier with the given UUID value.
    pub fn from_uuid(uuid: u128) -> (id: Self)
        ensures
            id.0 == uuid,
    {
        JobId(uuid)
    }

    /// The UUID value.
    pub fn as_uuid(&self) -> (uuid: u128)
        ensures
            uuid == self.0,
    {
        self.0
    }

    /// The hyphenated text of the identifier.
    pub fn to_text(&self) -> (text: String)
        ensures
            text@ == hyphenated(self.0),
    {
        uuid_text(self.0)
    }
}

impl Default for JobId {
    fn default() -> (id: Self)
        ensures
            (id.0 >> 76u128) & 0xf == 4,
            (id.0 >> 62u128) & 0x3 == 2,
    {
        JobId::new()
    }
}

/// Identifies one lease of a job, so that late reports can be told apart.
#[derive(Debug, Clone, Copy, PartialEq, Eq, Hash, Structural)]
pub struct LeaseId(pub u64);

impl LeaseId {
    /// The lease of the given epoch.
    pub fn new(epoch: u64) -> (lease: Self)
        ensures
            lease.0 == epoch,
    {
        LeaseId(epoch)
    }

    /// The epoch of the lease.
    pub fn epoch(&self) -> (epoch: u64)
        ensures
            epoch == self.0,
    {
        self.0
    }
}

/// The name of a queue.
#[derive(Debug, PartialEq, Eq, Hash)]
pub struct QueueName(String);

impl View for QueueName {
    type V = Seq<char>;

    closed spec fn view(&self) -> Seq<char> {
        self.0@
    }
}

impl Clone for QueueName {
    fn clone(&self) -> (copy: Self)
        ensures
            copy@ == self@,
    {
        QueueName(self.0.clone())
    }
}

impl QueueName {
    /// A queue name, or `None` for the empty string.
    pub fn new(name: &str) -> (queue: Option<Self>)
        ensures
            queue is None <==> name@.len() == 0,
            queue matches Some(q) ==> q@ == name@,
    {
        if name.is_empty() {
            None
        } else {
            Some(QueueName(name.to_owned()))
        }
    }

    /// A name as a log record holds it, which may be empty.
    pub(crate) fn from_record(name: String) -> (queue: Self)
        ensures
            queue@ == name@,
    {
        QueueName(name)
    }

    /// The name's text.
    pub fn as_str(&self) -> (name: &str)
        ensures
            name@ == self@,
    {
        self.0.as_str()
    }

    /// Whether two names are the same.
    pub fn same_as(&self, other: &QueueName) -> (same: bool)
        ensures
            same == (self@ == other@),
    {
        self.0 == other.0
    }
}

/// Where a job stands in its life.
#[derive(Debug, Clone, Copy, PartialEq, Eq, Structural)]
pub enum JobState {
    Queued,
    Running,
    RetryWaiting,
    Completed,
    Dead,
    Cancelled,
}

impl JobState {
    /// The states that a job never leaves.
    pub open spec fn terminal(self) -> bool {
        self == JobState::Completed || self == JobState::Dead || self == JobState::Cancelled
    }

    /// Whether a job in this state never changes again.
    pub fn is_terminal(&self) -> (terminal: bool)
        ensures
            terminal == self.terminal(),
    {
        matches!(self, JobState::Completed | JobState::Dead | JobState::Cancelled)
    }
}

/// The largest payload that a job may carry (1 MiB).
pub const MAX_PAYLOAD_SIZE: usize = 1024 * 1024;

/// What a producer submits: the payload, and how often it may be tried.
#[derive(Debug, PartialEq, Eq)]
pub struct JobSpec {
    pub payload: Vec<u8>,
    pub max_attempts: u32,
}

impl Clone for JobSpec {
    fn clone(&self) -> (copy: Self)
        ensures
            copy.payload@ == self.payload@,
            copy.max_attempts == self.max_attempts,
    {
        JobSpec { payload: copy_bytes(&self.payload), max_attempts: self.max_attempts }
    }
}

impl JobSpec {
    /// A specification that allows three attempts.
    pub fn new(payload: Vec<u8>) -> (spec: Self)
        ensures
            spec.payload@ == payload@,
            spec.max_attempts == 3,
    {
        JobSpec { payload, max_attempts: 3 }
    }

    /// The same specification with another number of attempts.
    pub fn with_max_attempts(self, max_attempts: u32) -> (spec: Self)
        ensures
            spec.payload@ == self.payload@,
            spec.max_attempts == max_attempts,
    {
        JobSpec { payload: self.payload, max_attempts }
    }
}

/// A job: what was submitted, and how far it has come.
#[derive(Debug, PartialEq, Eq)]
pub struct JobRecord {
    pub id: JobId,
    pub queue: QueueName,
    pub spec: JobSpec,
    pub state: JobState,
    pub attempts: u32,
    pub created_at: UnixMillis,
}

/// What a [`JobRecord`] holds.
#[verifier::ext_equal]
pub struct JobView {
    pub id: u128,
    pub queue: Seq<char>,
    pub payload: Seq<u8>,
    pub max_attempts: u32,
    pub state: JobState,
    pub attempts: u32,
    pub created_at: i64,
}

impl View for JobRecord {
    type V = JobView;

    open spec fn view(&self) -> JobView {
        JobView {
            id: self.id.0,
            queue: self.queue@,
            payload: self.spec.payload@,
            max_attempts: self.spec.max_attempts,
            state: self.state,
            attempts: self.attempts,
            created_at: self.created_at.0,
        }
    }
}

impl Clone for JobRecord {
    fn clone(&self) -> (copy: Self)
        ensures
            copy@ == self@,
    {
        JobRecord {
            id: self.id,
            queue: self.queue.clone(),
            spec: self.spec.clone(),
            state: self.state,
            attempts: self.attempts,
            created_at: self.created_at,
        }
    }
}

impl JobView {
    /// A job that was just submitted.
    pub open spec fn fresh(
        id: u128,
        queue: Seq<char>,
        payload: Seq<u8>,
        max_attempts: u32,
        created_at: i64,
    ) -> JobView {
        JobView { id, queue, payload, max_attempts, state: JobState::Queued, attempts: 0, created_at }
    }

    /// The same job in another state.
    pub open spec fn in_state(self, state: JobState) -> JobView {
        JobView { state, ..self }
    }
}

impl JobRecord {
    /// A job that was just submitted: queued, with no attempt made.
    pub fn new(id: JobId, queue: QueueName, spec: JobSpec, created_at: UnixMillis) -> (job: Self)
        ensures
            job@ == JobView::fresh(id.0, queue@, spec.payload@, spec.max_attempts, created_at.0),
            job.state == JobState::Queued,
            job.attempts == 0,
            job.id == id,
            job.queue@ == queue@,
            job.spec.payload@ == spec.payload@,
            job.spec.max_attempts == spec.max_attempts,
            job.created_at == created_at,
    {
        JobRecord { id, queue, spec, state: JobState::Queued, attempts: 0, created_at }
    }
}

/// A copy of a byte vector.
pub fn copy_bytes(bytes: &Vec<u8>) -> (copy: Vec<u8>)
    ensures
        copy@ == bytes@,
{
    let copy = bytes.clone();
    assert(copy@ =~= bytes@);
    copy
}

} // verus!
