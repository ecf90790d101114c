//! The configuration of a queue. Spans of time are in nanoseconds.

use crate::error::{Error, Fault, Result};
use crate::store::StorageConfig;
use crate::types::QueueName;
use vstd::prelude::*;

verus! {

/// One second, in nanoseconds.
pub const SECOND: u128 = 1_000_000_000;

/// The configuration of one queue.
#[derive(Debug, PartialEq, Eq)]
pub struct QueueConfig {
    pub name: QueueName,
    pub capacity: usize,
}

impl Clone for QueueConfig {
    fn clone(&self) -> (copy: Self)
        ensures
            copy.name@ == self.name@,
            copy.capacity == self.capacity,
    {
        QueueConfig { name: self.name.clone(), capacity: self.capacity }
    }
}

impl QueueConfig {
    /// A queue that holds at most `capacity` unfinished jobs.
    pub fn new(name: QueueName, capacity: usize) -> (config: Self)
        ensures
            config.name == name,
            config.capacity == capacity,
    {
        QueueConfig { name, capacity }
    }
}

/// How the delay before a retry is spread.
#[derive(Debug, Clone, Copy, PartialEq, Eq, Structural)]
pub enum Jitter {
    /// Not at all: the delay is the computed one.
    Off,
    /// Over everything from no delay to the computed one.
    Full,
}

/// How long to wait before a retry.
#[derive(Debug, Clone, Copy, PartialEq, Eq, Structural)]
pub struct RetryConfig {
    pub base_delay: u128,
    pub max_delay: u128,
    pub jitter: Jitter,
}

/// The delay after a failed attempt: the base delay, doubled for each attempt
/// after the first, but at most the largest delay.
pub open spec fn backoff(base_delay: nat, max_delay: nat, attempt: nat) -> nat {
    let doublings: nat = if attempt == 0 {
        0
    } else {
        (attempt - 1) as nat
    };
    let delay = base_delay * vstd::arithmetic::power2::pow2(doublings);
    if delay > max_delay {
        max_delay
    } else {
        delay
    }
}

impl RetryConfig {
    /// Retries that wait from `base_delay` up to `max_delay`, without jitter.
    pub fn new(base_delay: u128, max_delay: u128) -> (config: Self)
        ensures
            config.base_delay == base_delay,
            config.max_delay == max_delay,
            config.jitter == Jitter::Off,
    {
        RetryConfig { base_delay, max_delay, jitter: Jitter::Off }
    }

    /// The same delays with another jitter.
    pub fn with_jitter(self, jitter: Jitter) -> (config: Self)
        ensures
            config.base_delay == self.base_delay,
            config.max_delay == self.max_delay,
            config.jitter == jitter,
    {
        RetryConfig { jitter, ..self }
    }

    /// The delay after the attempt of the given number, before jitter. It never
    /// exceeds the largest delay.
    pub fn delay_for_attempt(&self, attempt: u32) -> (delay: u128)
        ensures
            delay == backoff(self.base_delay as nat, self.max_delay as nat, attempt as nat),
            delay <= self.max_delay,
    {
        let doublings: u32 = attempt.saturating_sub(1);
        if self.base_delay == 0 {
            assert(0 * vstd::arithmetic::power2::pow2(doublings as nat) == 0) by (nonlinear_arith);
            return 0;
        }
        let mut delay: u128 = self.base_delay;
        let mut done: u32 = 0;
        let half: u128 = self.max_delay / 2;
        proof {
            vstd::arithmetic::power2::lemma2_to64();
            assert(self.base_delay * 1 == self.base_delay);
        }
        if delay > self.max_delay {
            proof {
                lemma_doubled_exceeds(self.base_delay as nat, self.max_delay as nat, 0, doublings as nat);
            }
            return self.max_delay;
        }
        while done < doublings
            invariant
                done <= doublings,
                half == self.max_delay / 2,
                doublings == (if attempt == 0 {
                    0
                } else {
                    attempt - 1
                }),
                delay == self.base_delay * vstd::arithmetic::power2::pow2(done as nat),
                delay <= self.max_delay,
                self.base_delay > 0,
            decreases doublings - done,
        {
            proof {
                vstd::arithmetic::power2::lemma_pow2_unfold((done + 1) as nat);
                assert(self.base_delay * (2 * vstd::arithmetic::power2::pow2(done as nat)) == 2 * (self.base_delay * vstd::arithmetic::power2::pow2(
                    done as nat,
                ))) by (nonlinear_arith);
            }
            if delay > half {
                proof {
                    lemma_doubled_exceeds(
                        self.base_delay as nat,
                        self.max_delay as nat,
                        (done + 1) as nat,
                        doublings as nat,
                    );
                }
                return self.max_delay;
            }
            delay = delay * 2;
            done = done + 1;
        }
        delay
    }

    /// The delay under jitter. Without it, the delay itself; with it, the given
    /// fraction of the delay, rounded down, which lies between none of it and all
    /// of it.
    pub fn apply_jitter(&self, delay: u128, numerator: u32, denominator: u32) -> (spread: u128)
        requires
            0 < denominator,
            numerator <= denominator,
        ensures
            self.jitter == Jitter::Off ==> spread == delay,
            self.jitter == Jitter::Full ==> spread == (delay * numerator) / (denominator as int),
            spread <= delay,
    {
        match self.jitter {
            Jitter::Off => delay,
            Jitter::Full => {
                let whole: u128 = delay / denominator as u128;
                let rest: u128 = delay % denominator as u128;
                proof {
                    let n = numerator as int;
                    let d = denominator as int;
                    assert(whole * n <= whole * d && whole * d + rest == delay && rest * n <= rest
                        * d && rest * n <= 0xffff_ffff * 0xffff_ffff) by (nonlinear_arith)
                        requires
                            0 <= n <= d,
                            0 < d <= 0xffff_ffff,
                            whole == delay as int / d,
                            rest == delay as int % d,
                            0 <= delay,
                    ;
                    assert(delay * n == d * (whole * n) + rest * n) by (nonlinear_arith)
                        requires
                            whole * d + rest == delay,
                    ;
                    assert((d * (whole * n) + rest * n) / d == whole * n + (rest * n) / d)
                        by (nonlinear_arith)
                        requires
                            0 < d,
                    ;
                    assert((rest * n) / d <= rest) by (nonlinear_arith)
                        requires
                            0 < d,
                            rest * n <= rest * d,
                            0 <= rest * n,
                    ;
                    assert(0 <= rest * n) by (nonlinear_arith)
                        requires
                            0 <= rest,
                            0 <= n,
                    ;
                    assert(whole * d <= delay);
                }
                whole * numerator as u128 + (rest * numerator as u128) / denominator as u128
            },
        }
    }
}

/// Once a doubled delay exceeds the limit, every later one does.
proof fn lemma_doubled_exceeds(base_delay: nat, max_delay: nat, reached: nat, doublings: nat)
    requires
        reached <= doublings,
        base_delay * vstd::arithmetic::power2::pow2(reached) > max_delay,
    ensures
        base_delay * vstd::arithmetic::power2::pow2(doublings) > max_delay,
    decreases doublings - reached,
{
    if reached < doublings {
        vstd::arithmetic::power2::lemma_pow2_unfold(reached + 1);
        assert(base_delay * (2 * vstd::arithmetic::power2::pow2(reached)) == 2 * (base_delay * vstd::arithmetic::power2::pow2(reached)))
            by (nonlinear_arith);
        lemma_doubled_exceeds(base_delay, max_delay, reached + 1, doublings);
    }
}

/// Delays never shrink from one attempt to the next.
pub proof fn lemma_backoff_grows(base_delay: nat, max_delay: nat, attempt: nat, later: nat)
    requires
        attempt <= later,
    ensures
        backoff(base_delay, max_delay, attempt) <= backoff(base_delay, max_delay, later)
            <= max_delay,
    decreases later - attempt,
{
    if attempt < later {
        lemma_backoff_grows(base_delay, max_delay, attempt + 1, later);
        if attempt > 0 {
            vstd::arithmetic::power2::lemma_pow2_unfold(attempt);
            let before = vstd::arithmetic::power2::pow2((attempt - 1) as nat);
            assert(base_delay * (2 * before) == 2 * (base_delay * before)) by (nonlinear_arith);
        }
    }
}

/// The first retry waits the base delay, and each further one twice as long as the
/// one before, as far as the largest delay allows.
pub proof fn lemma_backoff_doubles(base_delay: nat, max_delay: nat, attempt: nat)
    ensures
        attempt <= 1 && base_delay <= max_delay ==> backoff(base_delay, max_delay, attempt)
            == base_delay,
        attempt <= 1 && base_delay > max_delay ==> backoff(base_delay, max_delay, attempt)
            == max_delay,
        attempt >= 1 ==> ({
            let delay = backoff(base_delay, max_delay, attempt);
            let next = backoff(base_delay, max_delay, attempt + 1);
            &&& 2 * delay <= max_delay ==> next == 2 * delay
            &&& 2 * delay > max_delay ==> next == max_delay
        }),
{
    vstd::arithmetic::power2::lemma2_to64();
    assert(base_delay * 1 == base_delay);
    if attempt >= 1 {
        vstd::arithmetic::power2::lemma_pow2_unfold(attempt);
        let before = vstd::arithmetic::power2::pow2((attempt - 1) as nat);
        assert(base_delay * (2 * before) == 2 * (base_delay * before)) by (nonlinear_arith);
    }
}

/// The configuration of the queue system.
#[derive(Debug, PartialEq, Eq)]
pub struct RuntimeConfig {
    pub queues: Vec<QueueConfig>,
    pub channel_capacity: usize,
    pub storage: StorageConfig,
    pub worker_concurrency: usize,
    pub visibility_timeout: u128,
    pub shutdown_timeout: u128,
    pub retry: RetryConfig,
}

/// What is wrong with the queue at position `i`, if anything is: it can hold
/// nothing, or an earlier one has its name.
pub open spec fn queue_fault(queues: Seq<QueueConfig>, i: int) -> Option<Fault> {
    if queues[i].capacity == 0 {
        Some(
            Fault::InvalidConfiguration(
                "queue '"@ + queues[i].name@ + "' has zero capacity"@,
            ),
        )
    } else if exists|j: int| 0 <= j < i && (#[trigger] queues[j]).name@ == queues[i].name@ {
        Some(Fault::InvalidConfiguration("duplicate queue name: '"@ + queues[i].name@ + "'"@))
    } else {
        None
    }
}

impl RuntimeConfig {
    /// The named queues, with commands waiting in a channel of the given
    /// capacity: kept in memory, with one worker.
    pub fn new(queues: Vec<QueueConfig>, channel_capacity: usize) -> (config: Self)
        ensures
            config.queues == queues,
            config.channel_capacity == channel_capacity,
            config.storage == StorageConfig::Memory,
            config.worker_concurrency == 1,
            config.visibility_timeout == 30 * SECOND,
            config.shutdown_timeout == 5 * SECOND,
            config.retry == (RetryConfig {
                base_delay: SECOND,
                max_delay: (60 * SECOND) as u128,
                jitter: Jitter::Off,
            }),
    {
        RuntimeConfig {
            queues,
            channel_capacity,
            storage: StorageConfig::Memory,
            worker_concurrency: 1,
            visibility_timeout: 30 * SECOND,
            shutdown_timeout: 5 * SECOND,
            retry: RetryConfig::new(SECOND, 60 * SECOND),
        }
    }

    /// The same configuration with another storage.
    pub fn with_storage(self, storage: StorageConfig) -> (config: Self)
        ensures
            config == (RuntimeConfig { storage, ..self }),
    {
        RuntimeConfig { storage, ..self }
    }

    /// The same configuration with another number of workers.
    pub fn with_worker_concurrency(self, worker_concurrency: usize) -> (config: Self)
        ensures
            config == (RuntimeConfig { worker_concurrency, ..self }),
    {
        RuntimeConfig { worker_concurrency, ..self }
    }

    /// The same configuration with another retry policy.
    pub fn with_retry(self, retry: RetryConfig) -> (config: Self)
        ensures
            config == (RuntimeConfig { retry, ..self }),
    {
        RuntimeConfig { retry, ..self }
    }

    /// The same configuration with another visibility timeout.
    pub fn with_visibility_timeout(self, visibility_timeout: u128) -> (config: Self)
        ensures
            config == (RuntimeConfig { visibility_timeout, ..self }),
    {
        RuntimeConfig { visibility_timeout, ..self }
    }

    /// The same configuration with another shutdown timeout.
    pub fn with_shutdown_timeout(self, shutdown_timeout: u128) -> (config: Self)
        ensures
            config == (RuntimeConfig { shutdown_timeout, ..self }),
    {
        RuntimeConfig { shutdown_timeout, ..self }
    }

    /// Whether the configuration can be used.
    pub open spec fn valid(self) -> bool {
        &&& self.channel_capacity > 0
        &&& forall|i: int|
            0 <= i < self.queues@.len() ==> #[trigger] queue_fault(self.queues@, i) is None
    }

    /// Whether a fault is the first thing that is wrong with the configuration.
    pub open spec fn first_fault(self, fault: Fault) -> bool {
        if self.channel_capacity == 0 {
            fault == Fault::InvalidConfiguration("channel capacity must be positive"@)
        } else {
            exists|i: int|
                {
                    &&& 0 <= i < self.queues@.len()
                    &&& #[trigger] queue_fault(self.queues@, i) == Some(fault)
                    &&& forall|j: int|
                        0 <= j < i ==> #[trigger] queue_fault(self.queues@, j) is None
                }
        }
    }

    /// Checks the configuration. The first thing that is wrong is reported: a
    /// channel without capacity, or the first queue that can hold nothing or has
    /// the name of an earlier one.
    pub fn validate(&self) -> (outcome: Result<()>)
        ensures
            match outcome {
                Ok(()) => self.valid(),
                Err(error) => self.first_fault(error@),
            },
    {
        if self.channel_capacity == 0 {
            return Err(
                Error::InvalidConfiguration("channel capacity must be positive".to_owned()),
            );
        }
        let total: usize = self.queues.len();
        let mut i: usize = 0;
        while i < total
            invariant
                i <= total == self.queues@.len(),
                self.channel_capacity > 0,
                forall|j: int| 0 <= j < i ==> #[trigger] queue_fault(self.queues@, j) is None,
            decreases total - i,
        {
            let queue = &self.queues[i];
            if queue.capacity == 0 {
                let text = quoted("queue '", &queue.name, "' has zero capacity");
                assert(queue_fault(self.queues@, i as int) == Some(
                    Fault::InvalidConfiguration(text@),
                ));
                return Err(Error::InvalidConfiguration(text));
            }
            let mut j: usize = 0;
            while j < i
                invariant
                    j <= i < total == self.queues@.len(),
                    self.channel_capacity > 0,
                    *queue == self.queues@[i as int],
                    queue.capacity > 0,
                    forall|k: int| 0 <= k < j ==> (#[trigger] self.queues@[k]).name@ != queue.name@,
                    forall|k: int| 0 <= k < i ==> #[trigger] queue_fault(self.queues@, k) is None,
                decreases i - j,
            {
                if self.queues[j].name.same_as(&queue.name) {
                    let text = quoted("duplicate queue name: '", &queue.name, "'");
                    assert(self.queues@[j as int].name@ == queue.name@);
                    assert(queue_fault(self.queues@, i as int) == Some(
                        Fault::InvalidConfiguration(text@),
                    ));
                    return Err(Error::InvalidConfiguration(text));
                }
                j = j + 1;
            }
            i = i + 1;
        }
        Ok(())
    }
}

/// Whether the first `n` queues are in order: each can hold something, and no two
/// have the same name.
pub open spec fn in_order(queues: Seq<QueueConfig>, n: int) -> bool {
    &&& forall|i: int| 0 <= i < n ==> (#[trigger] queues[i]).capacity > 0
    &&& forall|i: int, j: int|
        0 <= i < j < n ==> (#[trigger] queues[i]).name@ != (#[trigger] queues[j]).name@
}

/// A configuration can be used exactly where the channel and every queue can hold
/// something and no two queues have the same name. What is reported otherwise is
/// true of the configuration, and of nothing that stands before it.
pub proof fn lemma_configurations_are_judged(config: RuntimeConfig, fault: Fault)
    ensures
        config.valid() <==> config.channel_capacity > 0 && in_order(
            config.queues@,
            config.queues@.len() as int,
        ),
        config.valid() ==> !config.first_fault(fault),
        config.first_fault(fault) && config.channel_capacity == 0 ==> fault
            == Fault::InvalidConfiguration("channel capacity must be positive"@),
        config.first_fault(fault) && config.channel_capacity > 0 ==> exists|i: int|
            {
                let queue = #[trigger] config.queues@[i];
                &&& 0 <= i < config.queues@.len()
                &&& in_order(config.queues@, i)
                &&& !in_order(config.queues@, i + 1)
                &&& queue.capacity == 0 ==> fault == Fault::InvalidConfiguration(
                    "queue '"@ + queue.name@ + "' has zero capacity"@,
                )
                &&& queue.capacity > 0 ==> fault == Fault::InvalidConfiguration(
                    "duplicate queue name: '"@ + queue.name@ + "'"@,
                )
            },
{
    let queues = config.queues@;
    lemma_in_order(queues, queues.len() as int);
    if config.first_fault(fault) && config.channel_capacity > 0 {
        let i = choose|i: int|
            {
                &&& 0 <= i < queues.len()
                &&& #[trigger] queue_fault(queues, i) == Some(fault)
                &&& forall|j: int| 0 <= j < i ==> #[trigger] queue_fault(queues, j) is None
            };
        lemma_in_order(queues, i);
        lemma_in_order(queues, i + 1);
        assert(queues[i] == config.queues@[i]);
    }
}

/// Queues are in order where nothing is wrong with any of them.
proof fn lemma_in_order(queues: Seq<QueueConfig>, n: int)
    requires
        0 <= n <= queues.len(),
    ensures
        in_order(queues, n) <==> (forall|i: int|
            0 <= i < n ==> #[trigger] queue_fault(queues, i) is None),
{
    if in_order(queues, n) {
        assert forall|i: int| 0 <= i < n implies #[trigger] queue_fault(queues, i) is None by {
            assert(queues[i].capacity > 0);
        }
    }
    if forall|i: int| 0 <= i < n ==> #[trigger] queue_fault(queues, i) is None {
        assert forall|i: int| 0 <= i < n implies (#[trigger] queues[i]).capacity > 0 by {
            assert(queue_fault(queues, i) is None);
        }
        assert forall|i: int, j: int| 0 <= i < j < n implies (#[trigger] queues[i]).name@ != (
        #[trigger] queues[j]).name@ by {
            assert(queue_fault(queues, j) is None);
        }
    }
}

/// A queue's name between two texts.
fn quoted(before: &str, name: &QueueName, behind: &str) -> (text: String)
    ensures
        text@ == before@ + name@ + behind@,
{
    let mut text = before.to_owned();
    text.append(name.as_str());
    text.append(behind);
    text
}

} // verus!
