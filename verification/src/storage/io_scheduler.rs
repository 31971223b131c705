//! Write scheduling: a priority queue, a token bucket, deadline ageing and
//! request merging.
//!
//! Times are nanoseconds on a monotonic clock that the caller reads. A request
//! carries a payload that the scheduler hands back when its turn has come; what
//! executes it is the caller's affair.

use std::collections::VecDeque;
use vstd::prelude::*;

verus! {

/// One second on the scheduler's clock.
pub const NANOS_PER_SEC: u64 = 1_000_000_000;

/// Urgency class of a write.
#[derive(Clone, Copy, Debug, PartialEq, Eq, PartialOrd, Ord, Structural)]
pub enum IoPriority {
    /// Runs at once and is not charged to the token bucket.
    Critical,
    /// Charged to the token bucket, protected by a short deadline.
    Important,
    /// Charged to the token bucket.
    Normal,
    /// Runs on spare tokens only and is refused first under pressure.
    Background,
}

impl IoPriority {
    /// Position of the class, 0 being the most urgent.
    pub open spec fn rank(self) -> int {
        match self {
            IoPriority::Critical => 0,
            IoPriority::Important => 1,
            IoPriority::Normal => 2,
            IoPriority::Background => 3,
        }
    }

    /// How long a request of this class may wait before it counts as starved.
    pub open spec fn grace(self) -> Option<u64> {
        match self {
            IoPriority::Critical => None,
            IoPriority::Important => Some(5_000_000_000u64),
            IoPriority::Normal => Some(30_000_000_000u64),
            IoPriority::Background => Some(300_000_000_000u64),
        }
    }

    /// The deadline that a request gets when it names none: `now` plus the grace
    /// of its class, and no deadline at all for `Critical`.
    pub open spec fn deadline_from(self, now: u64) -> Option<u64> {
        match self.grace() {
            Some(g) => Some((now + g) as u64),
            None => None,
        }
    }

    pub(crate) fn rank_exec(self) -> (r: u8)
        ensures
            r == self.rank(),
    {
        match self {
            IoPriority::Critical => 0,
            IoPriority::Important => 1,
            IoPriority::Normal => 2,
            IoPriority::Background => 3,
        }
    }

    /// Deadline for a request that names none.
    pub fn default_deadline(self, now: u64) -> (r: Option<u64>)
        requires
            self.grace() is Some ==> now + self.grace()->0 <= u64::MAX,
        ensures
            r == self.deadline_from(now),
            r is None <==> self == IoPriority::Critical,
            r matches Some(d) ==> d == now + self.grace()->0,
    {
        match self {
            IoPriority::Critical => None,
            IoPriority::Important => Some(now + 5 * NANOS_PER_SEC),
            IoPriority::Normal => Some(now + 30 * NANOS_PER_SEC),
            IoPriority::Background => Some(now + 300 * NANOS_PER_SEC),
        }
    }
}

/// A write waiting for its turn.
pub struct IoRequest<P> {
    pub priority: IoPriority,
    /// Time after which the request counts as starved.
    pub deadline: Option<u64>,
    pub payload: P,
    /// Estimated rows: the number of tokens that the write costs.
    pub size_hint: usize,
    pub submitted_at: u64,
}

/// A queued request with its submission number.
pub struct HeapEntry<P> {
    pub request: IoRequest<P>,
    pub seq: u64,
}

/// Whether deadline `a` is tighter than deadline `b`: an earlier one is, and any
/// deadline is tighter than none.
pub open spec fn tighter(a: Option<u64>, b: Option<u64>) -> bool {
    match (a, b) {
        (Some(x), Some(y)) => x < y,
        (Some(_), None) => true,
        (None, _) => false,
    }
}

/// The order of service: class, then deadline, then submission number.
pub open spec fn precedes<P>(a: HeapEntry<P>, b: HeapEntry<P>) -> bool {
    let (pa, pb) = (a.request.priority.rank(), b.request.priority.rank());
    let (da, db) = (a.request.deadline, b.request.deadline);
    ||| pa < pb
    ||| pa == pb && tighter(da, db)
    ||| pa == pb && da == db && a.seq < b.seq
}

/// The queue holds its entries in the order of service.
pub open spec fn in_service_order<P>(q: Seq<HeapEntry<P>>) -> bool {
    forall|i: int, j: int| 0 <= i < j < q.len() ==> !precedes(#[trigger] q[j], #[trigger] q[i])
}

/// Number of leading entries of `q` that are served before `e` is.
pub open spec fn place<P>(q: Seq<HeapEntry<P>>, e: HeapEntry<P>) -> int
    decreases q.len(),
{
    if q.len() == 0 || precedes(e, q[0]) {
        0
    } else {
        1 + place(q.skip(1), e)
    }
}

/// The queue with `e` put where the order of service wants it: behind everything
/// that it does not precede.
pub open spec fn enqueue<P>(q: Seq<HeapEntry<P>>, e: HeapEntry<P>) -> Seq<HeapEntry<P>> {
    q.insert(place(q, e), e)
}

/// No entry precedes itself.
pub proof fn precedes_irreflexive<P>(a: HeapEntry<P>)
    ensures
        !precedes(a, a),
{
}

/// The order of service is transitive.
pub proof fn precedes_transitive<P>(a: HeapEntry<P>, b: HeapEntry<P>, c: HeapEntry<P>)
    requires
        precedes(a, b),
        precedes(b, c),
    ensures
        precedes(a, c),
{
}

/// Of two entries with different submission numbers one is always served first,
/// and never both.
pub proof fn precedes_total<P>(a: HeapEntry<P>, b: HeapEntry<P>)
    requires
        a.seq != b.seq,
    ensures
        precedes(a, b) != precedes(b, a),
{
}

proof fn lemma_place<P>(q: Seq<HeapEntry<P>>, e: HeapEntry<P>, k: int)
    requires
        0 <= k <= q.len(),
        forall|i: int| 0 <= i < k ==> !precedes(e, #[trigger] q[i]),
        k < q.len() ==> precedes(e, q[k]),
    ensures
        place(q, e) == k,
    decreases q.len(),
{
    if q.len() > 0 && k > 0 {
        let t = q.skip(1);
        assert forall|i: int| 0 <= i < k - 1 implies !precedes(e, #[trigger] t[i]) by {
            assert(t[i] == q[i + 1]);
        }
        if k < q.len() {
            assert(t[k - 1] == q[k]);
        }
        lemma_place(t, e, k - 1);
        assert(!precedes(e, q[0]));
    }
}

proof fn lemma_place_bounds<P>(q: Seq<HeapEntry<P>>, e: HeapEntry<P>)
    ensures
        0 <= place(q, e) <= q.len(),
        forall|i: int| 0 <= i < place(q, e) ==> !precedes(e, #[trigger] q[i]),
        place(q, e) < q.len() ==> precedes(e, q[place(q, e)]),
    decreases q.len(),
{
    if q.len() > 0 && !precedes(e, q[0]) {
        let t = q.skip(1);
        lemma_place_bounds(t, e);
        assert forall|i: int| 0 <= i < place(q, e) implies !precedes(e, #[trigger] q[i]) by {
            if i > 0 {
                assert(t[i - 1] == q[i]);
            }
        }
        if place(q, e) < q.len() {
            assert(t[place(t, e)] == q[place(q, e)]);
        }
    }
}

/// Queueing keeps the order of service and neither loses nor repeats an entry:
/// the old entries are still there in their old order around the new one.
pub proof fn enqueue_keeps_order<P>(q: Seq<HeapEntry<P>>, e: HeapEntry<P>)
    requires
        in_service_order(q),
    ensures
        in_service_order(enqueue(q, e)),
        enqueue(q, e).to_multiset() =~= q.to_multiset().insert(e),
        enqueue(q, e).len() == q.len() + 1,
{
    lemma_place_bounds(q, e);
    let k = place(q, e);
    let r = q.insert(k, e);
    assert forall|i: int, j: int| 0 <= i < j < r.len() implies !precedes(
        #[trigger] r[j],
        #[trigger] r[i],
    ) by {
        let a = r[i];
        let b = r[j];
        if i == k {
            assert(b == q[j - 1]);
            if k == j - 1 {
            } else {
                assert(!precedes(q[j - 1], q[k]));
                if precedes(b, e) {
                    precedes_transitive(b, e, q[k]);
                }
            }
        } else if j == k {
            assert(a == q[i]);
        } else {
            let i2 = if i < k { i } else { i - 1 };
            let j2 = if j < k { j } else { j - 1 };
            assert(a == q[i2] && b == q[j2]);
        }
    }
    vstd::seq_lib::to_multiset_insert(q, k, e);
}

impl<P> HeapEntry<P> {
    /// Whether this entry is served before `other`.
    pub fn precedes(&self, other: &Self) -> (r: bool)
        ensures
            r == precedes(*self, *other),
    {
        let pa: u8 = self.request.priority.rank_exec();
        let pb: u8 = other.request.priority.rank_exec();
        if pa != pb {
            return pa < pb;
        }
        match (self.request.deadline, other.request.deadline) {
            (Some(x), Some(y)) => {
                if x != y {
                    return x < y;
                }
            },
            (Some(_), None) => {
                return true;
            },
            (None, Some(_)) => {
                return false;
            },
            (None, None) => {},
        }
        self.seq < other.seq
    }
}

/// A token bucket: writes take tokens out, time puts them back.
pub struct TokenBucket {
    pub tokens: usize,
    pub max_tokens: usize,
}

impl TokenBucket {
    /// Never more tokens than the bucket holds.
    pub open spec fn wf(self) -> bool {
        self.tokens <= self.max_tokens
    }

    /// The bucket after `n` more tokens, filled at most to its brim.
    pub open spec fn refilled(self, n: usize) -> TokenBucket {
        TokenBucket {
            tokens: if self.tokens + n <= self.max_tokens {
                (self.tokens + n) as usize
            } else {
                self.max_tokens
            },
            max_tokens: self.max_tokens,
        }
    }

    /// A full bucket. The refill rate is kept by the scheduler's configuration.
    pub fn new(max_tokens: usize, _refill_rate: usize) -> (r: Self)
        ensures
            r.wf(),
            r.tokens == max_tokens,
            r.max_tokens == max_tokens,
    {
        TokenBucket { tokens: max_tokens, max_tokens }
    }

    /// Takes `n` tokens if that many are there, and none otherwise.
    pub fn try_acquire(&mut self, n: usize) -> (r: bool)
        requires
            old(self).wf(),
        ensures
            final(self).wf(),
            final(self).max_tokens == old(self).max_tokens,
            r == (n <= old(self).tokens),
            final(self).tokens == (if r {
                old(self).tokens - n
            } else {
                old(self).tokens as int
            }),
    {
        if self.tokens < n {
            return false;
        }
        self.tokens = self.tokens - n;
        true
    }

    /// Puts tokens back, up to the brim.
    pub fn refill(&mut self, tokens_to_add: usize)
        requires
            old(self).wf(),
        ensures
            final(self).wf(),
            *final(self) == old(self).refilled(tokens_to_add),
    {
        let room: usize = self.max_tokens - self.tokens;
        if tokens_to_add <= room {
            self.tokens = self.tokens + tokens_to_add;
        } else {
            self.tokens = self.max_tokens;
        }
    }

    /// Tokens in the bucket.
    pub fn available(&self) -> (r: usize)
        ensures
            r == self.tokens,
    {
        self.tokens
    }
}

/// What was taken can be put back: acquiring `n` tokens and refilling `n` leaves
/// the bucket as it was.
pub proof fn refill_undoes_acquire(b: TokenBucket, n: usize)
    requires
        b.wf(),
        n <= b.tokens,
    ensures
        (TokenBucket { tokens: (b.tokens - n) as usize, max_tokens: b.max_tokens }).refilled(n)
            == b,
{
}

/// One reading for the idle detector.
#[derive(Debug, Clone, Copy, PartialEq, Eq, Structural)]
pub struct IdleSample {
    pub timestamp: u64,
    pub queue_len: usize,
    pub tokens_available: usize,
}

/// Counters of the scheduler. They wrap at the end of their range.
#[derive(Debug, Clone, Copy, PartialEq, Eq, Structural)]
pub struct IoSchedulerStats {
    pub total_submitted: u64,
    pub total_executed: u64,
    pub total_batches: u64,
    /// Starved requests that were moved up a class.
    pub starvation_preemptions: u64,
    /// Background requests refused because the queue was too long.
    pub backpressure_rejections: u64,
    /// Requests run at the critical class.
    pub critical_executed: u64,
    /// Requests run at the important class.
    pub important_executed: u64,
    /// Requests run at the normal class.
    pub normal_executed: u64,
    /// Requests run at the background class.
    pub background_executed: u64,
    /// Requests in the largest batch so far.
    pub max_batch_size: usize,
}

impl Default for IoSchedulerStats {
    fn default() -> (r: Self)
        ensures
            r == (IoSchedulerStats {
                total_submitted: 0,
                total_executed: 0,
                total_batches: 0,
                starvation_preemptions: 0,
                backpressure_rejections: 0,
                critical_executed: 0,
                important_executed: 0,
                normal_executed: 0,
                background_executed: 0,
                max_batch_size: 0,
            }),
    {
        IoSchedulerStats {
            total_submitted: 0,
            total_executed: 0,
            total_batches: 0,
            starvation_preemptions: 0,
            backpressure_rejections: 0,
            critical_executed: 0,
            important_executed: 0,
            normal_executed: 0,
            background_executed: 0,
            max_batch_size: 0,
        }
    }
}

impl IoSchedulerStats {
    /// The counters after a batch of `count` requests was run at `priority`: each request
    /// counts, in all and in its class.
    pub open spec fn after_batch(self, count: usize, priority: IoPriority) -> IoSchedulerStats {
        IoSchedulerStats {
            total_executed: self.total_executed.wrapping_add(count as u64),
            total_batches: self.total_batches.wrapping_add(1),
            max_batch_size: if count > self.max_batch_size {
                count
            } else {
                self.max_batch_size
            },
            critical_executed: if priority == IoPriority::Critical {
                self.critical_executed.wrapping_add(count as u64)
            } else {
                self.critical_executed
            },
            important_executed: if priority == IoPriority::Important {
                self.important_executed.wrapping_add(count as u64)
            } else {
                self.important_executed
            },
            normal_executed: if priority == IoPriority::Normal {
                self.normal_executed.wrapping_add(count as u64)
            } else {
                self.normal_executed
            },
            background_executed: if priority == IoPriority::Background {
                self.background_executed.wrapping_add(count as u64)
            } else {
                self.background_executed
            },
            ..self
        }
    }

    /// How many requests the four classes together have run.
    pub open spec fn run_in_classes(self) -> int {
        (self.critical_executed + self.important_executed + self.normal_executed
            + self.background_executed) % 0x1_0000_0000_0000_0000
    }

    /// The counters after a request may have been moved up a class.
    pub open spec fn after_ageing(self, aged: bool) -> IoSchedulerStats {
        if aged {
            IoSchedulerStats {
                starvation_preemptions: self.starvation_preemptions.wrapping_add(1),
                ..self
            }
        } else {
            self
        }
    }
}

/// Limits and timing of the scheduler. Durations are nanoseconds.
#[derive(Debug, Clone, Copy, PartialEq, Eq, Structural)]
pub struct SchedulerRuntimeConfig {
    pub max_queue_size: usize,
    /// Tokens added per second.
    pub token_bucket_rate: usize,
    pub token_bucket_max: usize,
    pub low_watermark: usize,
    pub high_watermark: usize,
    pub batch_max_size: usize,
    pub batch_max_delay: u64,
    pub idle_prediction_enabled: bool,
    pub idle_window: u64,
    /// How long to wait on an empty queue.
    pub idle_wait: u64,
    /// How long to wait when tokens have run out.
    pub retry_wait: u64,
}

impl Default for SchedulerRuntimeConfig {
    fn default() -> (r: Self)
        ensures
            r == (SchedulerRuntimeConfig {
                max_queue_size: 100_000,
                token_bucket_rate: 10_000,
                token_bucket_max: 20_000,
                low_watermark: 1_000,
                high_watermark: 50_000,
                batch_max_size: 500,
                batch_max_delay: 10_000_000,
                idle_prediction_enabled: false,
                idle_window: 60_000_000_000,
                idle_wait: 500_000_000,
                retry_wait: 50_000_000,
            }),
    {
        SchedulerRuntimeConfig {
            max_queue_size: 100_000,
            token_bucket_rate: 10_000,
            token_bucket_max: 20_000,
            low_watermark: 1_000,
            high_watermark: 50_000,
            batch_max_size: 500,
            batch_max_delay: 10_000_000,
            idle_prediction_enabled: false,
            idle_window: 60_000_000_000,
            idle_wait: 500_000_000,
            retry_wait: 50_000_000,
        }
    }
}

/// Why a request was refused, with the queue length at that moment.
#[derive(Debug, Clone, Copy, PartialEq, Eq, Structural)]
pub enum SubmitError {
    /// A background request, and the queue is at its high watermark.
    Backpressured(usize),
    /// A normal or background request, and the queue is at its hard limit.
    HardLimit(usize),
}

/// Whether a request that is still queued at `now` has starved: its deadline is
/// past and its class can be moved up.
pub open spec fn starved(priority: IoPriority, deadline: Option<u64>, now: u64) -> bool {
    &&& deadline matches Some(d) && now > d
    &&& priority == IoPriority::Normal || priority == IoPriority::Background
}

/// The class at which a request is served at `now`.
pub open spec fn effective_priority(
    priority: IoPriority,
    deadline: Option<u64>,
    now: u64,
) -> IoPriority {
    if starved(priority, deadline, now) {
        IoPriority::Important
    } else {
        priority
    }
}

/// An entry as it is served at `now`.
pub open spec fn aged<P>(e: HeapEntry<P>, now: u64) -> HeapEntry<P> {
    HeapEntry {
        request: IoRequest {
            priority: effective_priority(e.request.priority, e.request.deadline, now),
            ..e.request
        },
        ..e
    }
}

/// Tokens that a request costs: at least one.
pub open spec fn cost<P>(e: HeapEntry<P>) -> usize {
    if e.request.size_hint == 0 {
        1
    } else {
        e.request.size_hint
    }
}

/// The class at which a request is served at `now`: a normal or background
/// request past its deadline counts as important.
pub fn age_priority(priority: IoPriority, deadline: Option<u64>, now: u64) -> (r: IoPriority)
    ensures
        r == effective_priority(priority, deadline, now),
{
    if let Some(d) = deadline {
        if now > d {
            match priority {
                IoPriority::Normal | IoPriority::Background => {
                    return IoPriority::Important;
                },
                _ => {},
            }
        }
    }
    priority
}

/// Ageing never makes a request less urgent, and never makes it critical.
pub proof fn ageing_only_raises(priority: IoPriority, deadline: Option<u64>, now: u64)
    ensures
        effective_priority(priority, deadline, now).rank() <= priority.rank(),
        effective_priority(priority, deadline, now) == IoPriority::Critical <==> priority
            == IoPriority::Critical,
{
}

/// Ageing an aged request changes nothing more.
pub proof fn ageing_is_idempotent(priority: IoPriority, deadline: Option<u64>, now: u64)
    ensures
        effective_priority(effective_priority(priority, deadline, now), deadline, now)
            == effective_priority(priority, deadline, now),
{
}

/// Write scheduler: requests wait in the order of service, are charged to the
/// token bucket and come out in batches of one class.
pub struct IoScheduler<P> {
    queue: VecDeque<HeapEntry<P>>,
    token_bucket: TokenBucket,
    config: SchedulerRuntimeConfig,
    seq_counter: u64,
    stats: IoSchedulerStats,
    shutdown: bool,
    last_refill: u64,
    idle_samples: Vec<IdleSample>,
}

/// The scheduler's state as the contracts see it.
#[verifier::ext_equal]
pub struct SchedulerState<P> {
    /// Waiting requests in the order of service.
    pub queue: Seq<HeapEntry<P>>,
    pub bucket: TokenBucket,
    pub config: SchedulerRuntimeConfig,
    /// Submission number of the next request; it wraps.
    pub next_seq: u64,
    pub stats: IoSchedulerStats,
    pub shutdown: bool,
    pub last_refill: u64,
    pub idle_samples: Seq<IdleSample>,
}

/// Requests taken out to be run in one transaction, and their class.
pub struct Batch<P> {
    pub entries: Vec<HeapEntry<P>>,
    pub priority: IoPriority,
}

/// What the writer does next.
pub enum WriterAction<P> {
    /// Run what is left, at the critical class, and stop.
    Drain(Vec<HeapEntry<P>>),
    /// Wait for a submission, or for the idle interval.
    Idle,
    /// Wait for tokens, for the retry interval.
    Retry,
    /// Extend this batch and run it.
    Run(Batch<P>),
}

/// The order in which the idle detector keeps its readings: oldest first, none
/// older than the window.
pub open spec fn recent(samples: Seq<IdleSample>, now: u64, window: u64) -> Seq<IdleSample> {
    samples.filter(|s: IdleSample| s.timestamp + window >= now)
}

impl<P> SchedulerState<P> {
    /// The queue is in the order of service and the bucket within its brim.
    pub open spec fn wf(self) -> bool {
        &&& in_service_order(self.queue)
        &&& self.bucket.wf()
    }

    /// Whether a request of this class is refused, and why.
    pub open spec fn refusal(self, priority: IoPriority) -> Option<SubmitError> {
        let n = self.queue.len() as usize;
        if n >= self.config.high_watermark && priority == IoPriority::Background {
            Some(SubmitError::Backpressured(n))
        } else if n >= self.config.max_queue_size && priority != IoPriority::Critical && priority
            != IoPriority::Important {
            Some(SubmitError::HardLimit(n))
        } else {
            None
        }
    }

    /// The state after a request of this class was refused: only the count of refused
    /// background requests moves, and only by one of those.
    pub open spec fn after_refusal(self, priority: IoPriority) -> SchedulerState<P> {
        if priority == IoPriority::Background {
            SchedulerState {
                stats: IoSchedulerStats {
                    backpressure_rejections: self.stats.backpressure_rejections.wrapping_add(1),
                    ..self.stats
                },
                ..self
            }
        } else {
            self
        }
    }

    /// The entry that a submission puts into the queue.
    pub open spec fn entry_for(
        self,
        priority: IoPriority,
        deadline: Option<u64>,
        payload: P,
        size_hint: usize,
        now: u64,
    ) -> HeapEntry<P> {
        HeapEntry {
            request: IoRequest {
                priority,
                deadline: match deadline {
                    Some(d) => Some(d),
                    None => priority.deadline_from(now),
                },
                payload,
                size_hint: if size_hint == 0 {
                    1
                } else {
                    size_hint
                },
                submitted_at: now,
            },
            seq: self.next_seq,
        }
    }

    /// The state after a request was queued.
    pub open spec fn after_submit(self, e: HeapEntry<P>) -> SchedulerState<P> {
        SchedulerState {
            queue: enqueue(self.queue, e),
            next_seq: self.next_seq.wrapping_add(1),
            stats: IoSchedulerStats {
                total_submitted: self.stats.total_submitted.wrapping_add(1),
                ..self.stats
            },
            ..self
        }
    }

    /// The state after tokens were put back at `now`.
    pub open spec fn after_refill(self, now: u64, tokens_to_add: usize) -> SchedulerState<P> {
        SchedulerState {
            bucket: self.bucket.refilled(tokens_to_add),
            last_refill: now,
            ..self
        }
    }

    /// The state after a reading for the idle detector at `now`.
    pub open spec fn after_sample(self, now: u64) -> SchedulerState<P> {
        if self.config.idle_prediction_enabled {
            SchedulerState {
                idle_samples: recent(
                    self.idle_samples.push(
                        IdleSample {
                            timestamp: now,
                            queue_len: self.queue.len() as usize,
                            tokens_available: self.bucket.tokens,
                        },
                    ),
                    now,
                    self.config.idle_window,
                ),
                ..self
            }
        } else {
            self
        }
    }

    /// The queue's first entry as it is served at `now`, and whether it had starved.
    pub open spec fn head(self, now: u64) -> (HeapEntry<P>, bool) {
        let e = self.queue[0];
        (aged(e, now), starved(e.request.priority, e.request.deadline, now))
    }

    /// Whether the bucket lets an entry of this class and cost through. The critical
    /// class always passes.
    pub open spec fn affordable(self, class: IoPriority, n: usize) -> bool {
        class == IoPriority::Critical || n <= self.bucket.tokens
    }

    /// The bucket after an entry of this class and cost went through.
    pub open spec fn charged(self, class: IoPriority, n: usize) -> TokenBucket {
        if class == IoPriority::Critical {
            self.bucket
        } else {
            TokenBucket { tokens: (self.bucket.tokens - n) as usize, ..self.bucket }
        }
    }

    /// The state without the queue's first entry, with its ageing counted.
    pub open spec fn popped(self, now: u64) -> SchedulerState<P> {
        SchedulerState {
            queue: self.queue.skip(1),
            stats: self.stats.after_ageing(self.head(now).1),
            ..self
        }
    }

    /// Whether a running batch may look at the next entry at all.
    pub open spec fn batch_open(self, len: nat, elapsed: u64) -> bool {
        &&& len < self.config.batch_max_size
        &&& elapsed < self.config.batch_max_delay
        &&& self.queue.len() > 0
    }

    /// Whether the next entry joins a batch of class `class` at `now`.
    pub open spec fn joins(self, class: IoPriority, now: u64) -> bool {
        let (a, _) = self.head(now);
        a.request.priority == class && self.affordable(class, cost(a))
    }

    /// The state after a running batch has looked at the next entry: the entry
    /// leaves the queue if it joins; otherwise it goes back, at its raised class
    /// where the class is what kept it out.
    pub open spec fn after_merge(self, class: IoPriority, now: u64) -> SchedulerState<P> {
        let e = self.queue[0];
        let (a, _) = self.head(now);
        let rest = self.popped(now);
        if a.request.priority != class {
            SchedulerState { queue: enqueue(rest.queue, a), ..rest }
        } else if !self.affordable(class, cost(a)) {
            SchedulerState { queue: enqueue(rest.queue, e), ..rest }
        } else {
            SchedulerState { bucket: self.charged(class, cost(a)), ..rest }
        }
    }
}

impl<P> View for IoScheduler<P> {
    type V = SchedulerState<P>;

    closed spec fn view(&self) -> SchedulerState<P> {
        SchedulerState {
            queue: self.queue@,
            bucket: self.token_bucket,
            config: self.config,
            next_seq: self.seq_counter,
            stats: self.stats,
            shutdown: self.shutdown,
            last_refill: self.last_refill,
            idle_samples: self.idle_samples@,
        }
    }
}

impl<P> IoScheduler<P> {
    pub open spec fn wf(self) -> bool {
        self@.wf()
    }

    /// An empty scheduler with a full bucket.
    pub fn new(config: SchedulerRuntimeConfig, now: u64) -> (r: Self)
        ensures
            r.wf(),
            r@.queue == Seq::<HeapEntry<P>>::empty(),
            r@.bucket == (TokenBucket {
                tokens: config.token_bucket_max,
                max_tokens: config.token_bucket_max,
            }),
            r@.config == config,
            r@.next_seq == 0,
            r@.stats == (IoSchedulerStats {
                total_submitted: 0,
                total_executed: 0,
                total_batches: 0,
                starvation_preemptions: 0,
                backpressure_rejections: 0,
                critical_executed: 0,
                important_executed: 0,
                normal_executed: 0,
                background_executed: 0,
                max_batch_size: 0,
            }),
            !r@.shutdown,
            r@.last_refill == now,
            r@.idle_samples == Seq::<IdleSample>::empty(),
    {
        IoScheduler {
            queue: VecDeque::new(),
            token_bucket: TokenBucket::new(config.token_bucket_max, config.token_bucket_rate),
            config,
            seq_counter: 0,
            stats: IoSchedulerStats::default(),
            shutdown: false,
            last_refill: now,
            idle_samples: Vec::new(),
        }
    }

    /// Puts an entry where the order of service wants it.
    fn push_entry(&mut self, e: HeapEntry<P>)
        requires
            old(self).wf(),
        ensures
            final(self).wf(),
            final(self)@ == (SchedulerState {
                queue: enqueue(old(self)@.queue, e),
                ..old(self)@
            }),
    {
        let ghost q = self.queue@;
        let mut lo: usize = 0;
        let mut hi: usize = self.queue.len();
        while lo < hi
            invariant
                self@ == old(self)@,
                q == self.queue@,
                in_service_order(q),
                0 <= lo <= hi <= q.len(),
                forall|i: int| 0 <= i < lo ==> !precedes(e, #[trigger] q[i]),
                forall|i: int| hi <= i < q.len() ==> precedes(e, #[trigger] q[i]),
            decreases hi - lo,
        {
            let mid: usize = lo + (hi - lo) / 2;
            if e.precedes(&self.queue[mid]) {
                proof {
                    assert forall|i: int| mid <= i < q.len() implies precedes(
                        e,
                        #[trigger] q[i],
                    ) by {
                        if i > mid {
                            assert(!precedes(q[i], q[mid as int]));
                        }
                    }
                }
                hi = mid;
            } else {
                proof {
                    assert forall|i: int| 0 <= i <= mid implies !precedes(
                        e,
                        #[trigger] q[i],
                    ) by {
                        if i < mid {
                            assert(!precedes(q[mid as int], q[i]));
                        }
                    }
                }
                lo = mid + 1;
            }
        }
        proof {
            lemma_place(q, e, lo as int);
            enqueue_keeps_order(q, e);
        }
        self.queue.insert(lo, e);
    }

    /// Takes the most urgent entry out of the queue.
    fn pop_entry(&mut self) -> (r: Option<HeapEntry<P>>)
        requires
            old(self).wf(),
        ensures
            final(self).wf(),
            old(self)@.queue.len() == 0 ==> r is None && final(self)@ == old(self)@,
            old(self)@.queue.len() > 0 ==> r == Some(old(self)@.queue[0]) && final(self)@ == (
            SchedulerState { queue: old(self)@.queue.skip(1), ..old(self)@ }),
    {
        let r = self.queue.pop_front();
        proof {
            if old(self)@.queue.len() > 0 {
                assert(self.queue@ =~= old(self)@.queue.skip(1));
            }
        }
        r
    }

    /// Submits a request.
    ///
    /// A background request is refused once the queue has reached the high
    /// watermark, a normal one once it has reached the hard limit. A request that
    /// names no deadline gets the default one of its class.
    pub fn submit(
        &mut self,
        priority: IoPriority,
        deadline: Option<u64>,
        payload: P,
        size_hint: usize,
        now: u64,
    ) -> (r: Result<(), SubmitError>)
        requires
            old(self).wf(),
            deadline is None && priority.grace() is Some ==> now + priority.grace()->0 <= u64::MAX,
        ensures
            final(self).wf(),
            r == (match old(self)@.refusal(priority) {
                Some(e) => Err(e),
                None => Ok::<(), SubmitError>(()),
            }),
            final(self)@ == (if r is Err {
                old(self)@.after_refusal(priority)
            } else {
                old(self)@.after_submit(
                    old(self)@.entry_for(priority, deadline, payload, size_hint, now),
                )
            }),
    {
        let queue_len: usize = self.queue.len();
        if queue_len >= self.config.high_watermark && priority == IoPriority::Background {
            self.stats.backpressure_rejections = self.stats.backpressure_rejections.wrapping_add(1);
            return Err(SubmitError::Backpressured(queue_len));
        }
        if queue_len >= self.config.max_queue_size && priority != IoPriority::Critical && priority
            != IoPriority::Important {
            if priority == IoPriority::Background {
                self.stats.backpressure_rejections = self.stats.backpressure_rejections.wrapping_add(
                    1,
                );
            }
            return Err(SubmitError::HardLimit(queue_len));
        }
        let deadline: Option<u64> = match deadline {
            Some(d) => Some(d),
            None => priority.default_deadline(now),
        };
        let seq: u64 = self.seq_counter;
        self.seq_counter = seq.wrapping_add(1);
        let size_hint: usize = if size_hint == 0 {
            1
        } else {
            size_hint
        };
        self.push_entry(
            HeapEntry {
                request: IoRequest { priority, deadline, payload, size_hint, submitted_at: now },
                seq,
            },
        );
        self.stats.total_submitted = self.stats.total_submitted.wrapping_add(1);
        Ok(())
    }

    /// Submits a barrier: `payload`, an empty write, at the critical class. It is
    /// never refused and is served before everything that is not critical.
    pub fn flush_barrier(&mut self, payload: P, now: u64)
        requires
            old(self).wf(),
        ensures
            final(self).wf(),
            final(self)@ == old(self)@.after_submit(
                old(self)@.entry_for(IoPriority::Critical, None, payload, 0, now),
            ),
    {
        let _ = self.submit(IoPriority::Critical, None, payload, 0, now);
    }

    /// How far the queue has grown from the low to the high watermark, as a fraction:
    /// nothing at or below the low one, all of it at or above the high one.
    pub fn backpressure_level(&self) -> (r: (usize, usize))
        ensures
            r.0 <= r.1,
            r.1 > 0,
            r == (if self@.queue.len() <= self@.config.low_watermark {
                (0usize, 1usize)
            } else if self@.queue.len() >= self@.config.high_watermark {
                (1usize, 1usize)
            } else {
                (
                    (self@.queue.len() - self@.config.low_watermark) as usize,
                    (self@.config.high_watermark - self@.config.low_watermark) as usize,
                )
            }),
    {
        let qlen: usize = self.queue.len();
        if qlen <= self.config.low_watermark {
            return (0, 1);
        }
        if qlen >= self.config.high_watermark {
            return (1, 1);
        }
        (qlen - self.config.low_watermark, self.config.high_watermark - self.config.low_watermark)
    }

    /// Whether the queue has grown past the middle between its watermarks.
    pub fn is_backpressured(&self) -> (r: bool)
        ensures
            r == (self@.queue.len() > self@.config.low_watermark && (self@.queue.len()
                >= self@.config.high_watermark || 2 * (self@.queue.len()
                - self@.config.low_watermark) > self@.config.high_watermark
                - self@.config.low_watermark)),
    {
        let (part, whole) = self.backpressure_level();
        part > whole - part
    }

    /// Whether writes are slack. Without prediction: the queue is below the low
    /// watermark and more than half of the tokens are there. With prediction: every
    /// reading in the window shows a short queue and more than a quarter of the
    /// tokens.
    pub fn is_idle(&self, now: u64) -> (r: bool)
        ensures
            r == (if !self@.config.idle_prediction_enabled {
                self@.queue.len() < self@.config.low_watermark && self@.bucket.tokens
                    > self@.config.token_bucket_max / 2
            } else {
                forall|i: int|
                    0 <= i < self@.idle_samples.len() ==> {
                        let s = #[trigger] self@.idle_samples[i];
                        &&& now - s.timestamp <= self@.config.idle_window
                        &&& s.queue_len < self@.config.low_watermark
                        &&& s.tokens_available > self@.config.token_bucket_max / 4
                    }
            }),
    {
        if !self.config.idle_prediction_enabled {
            return self.queue.len() < self.config.low_watermark && self.token_bucket.available()
                > self.config.token_bucket_max / 2;
        }
        let mut i: usize = 0;
        while i < self.idle_samples.len()
            invariant
                0 <= i <= self.idle_samples.len(),
                self@.config.idle_prediction_enabled,
                forall|k: int|
                    0 <= k < i ==> {
                        let s = #[trigger] self@.idle_samples[k];
                        &&& now - s.timestamp <= self@.config.idle_window
                        &&& s.queue_len < self@.config.low_watermark
                        &&& s.tokens_available > self@.config.token_bucket_max / 4
                    },
            decreases self.idle_samples.len() - i,
        {
            let s: IdleSample = self.idle_samples[i];
            let age: u64 = now.saturating_sub(s.timestamp);
            if age > self.config.idle_window || s.queue_len >= self.config.low_watermark
                || s.tokens_available <= self.config.token_bucket_max / 4 {
                assert(s == self@.idle_samples[i as int]);
                return false;
            }
            i = i + 1;
        }
        true
    }

    /// The counters.
    pub fn stats(&self) -> (r: IoSchedulerStats)
        ensures
            r == self@.stats,
    {
        self.stats
    }

    /// The configuration.
    pub fn config(&self) -> (r: SchedulerRuntimeConfig)
        ensures
            r == self@.config,
    {
        self.config
    }

    /// Requests waiting.
    pub fn queue_len(&self) -> (r: usize)
        ensures
            r == self@.queue.len(),
    {
        self.queue.len()
    }

    /// When tokens were last put back.
    pub fn last_refill(&self) -> (r: u64)
        ensures
            r == self@.last_refill,
    {
        self.last_refill
    }

    /// Asks the writer to run what is left and stop.
    pub fn shutdown(&mut self)
        requires
            old(self).wf(),
        ensures
            final(self).wf(),
            final(self)@ == (SchedulerState { shutdown: true, ..old(self)@ }),
    {
        self.shutdown = true;
    }

    /// Puts tokens back at `now`. How many the elapsed time is worth is the caller's
    /// reckoning.
    pub fn refill_tokens(&mut self, now: u64, tokens_to_add: usize)
        requires
            old(self).wf(),
        ensures
            final(self).wf(),
            final(self)@ == old(self)@.after_refill(now, tokens_to_add),
    {
        self.last_refill = now;
        self.token_bucket.refill(tokens_to_add);
    }

    /// Takes a reading for the idle detector and drops those that left the window.
    pub fn record_idle_sample(&mut self, now: u64)
        requires
            old(self).wf(),
        ensures
            final(self).wf(),
            final(self)@ == old(self)@.after_sample(now),
    {
        if !self.config.idle_prediction_enabled {
            return;
        }
        let sample = IdleSample {
            timestamp: now,
            queue_len: self.queue.len(),
            tokens_available: self.token_bucket.available(),
        };
        self.idle_samples.push(sample);
        let ghost all = self.idle_samples@;
        let ghost before = self@;
        let window: u64 = self.config.idle_window;
        let mut kept: Vec<IdleSample> = Vec::new();
        let mut i: usize = 0;
        while i < self.idle_samples.len()
            invariant
                0 <= i <= all.len(),
                self@ == before,
                before.idle_samples == all,
                kept@ == recent(all.take(i as int), now, window),
            decreases all.len() - i,
        {
            let s: IdleSample = self.idle_samples[i];
            proof {
                assert(all.take(i + 1).drop_last() =~= all.take(i as int));
                assert(all.take(i + 1).last() == s);
                reveal_with_fuel(Seq::filter, 2);
            }
            if now.saturating_sub(s.timestamp) <= window {
                kept.push(s);
            }
            i = i + 1;
        }
        assert(all.take(all.len() as int) =~= all);
        self.idle_samples = kept;
    }

    /// The writer's decision at `now`: stop, wait, or start a batch with the most
    /// urgent request.
    ///
    /// A starved request is served as important. A request that is not critical and
    /// finds too few tokens goes back into the queue at the class it now has.
    pub fn next_action(&mut self, now: u64, tokens_to_add: usize) -> (r: WriterAction<P>)
        requires
            old(self).wf(),
        ensures
            final(self).wf(),
            old(self)@.shutdown ==> {
                &&& r matches WriterAction::Drain(rest) && rest@ == old(self)@.queue
                &&& final(self)@ == (SchedulerState {
                    queue: Seq::<HeapEntry<P>>::empty(),
                    ..old(self)@
                })
            },
            !old(self)@.shutdown ==> {
                let s = old(self)@.after_refill(now, tokens_to_add).after_sample(now);
                let (e, _) = s.head(now);
                let class = e.request.priority;
                if s.queue.len() == 0 {
                    r is Idle && final(self)@ == s
                } else if !s.affordable(class, cost(e)) {
                    r is Retry && final(self)@ == (SchedulerState {
                        queue: enqueue(s.queue.skip(1), e),
                        ..s.popped(now)
                    })
                } else {
                    &&& r matches WriterAction::Run(b) && b.priority == class && b.entries@ == seq![
                        e,
                    ]
                    &&& final(self)@ == (SchedulerState {
                        bucket: s.charged(class, cost(e)),
                        ..s.popped(now)
                    })
                }
            },
    {
        if self.shutdown {
            return WriterAction::Drain(self.drain_remaining());
        }
        self.refill_tokens(now, tokens_to_add);
        self.record_idle_sample(now);
        let ghost s = self@;
        let mut entry = match self.pop_entry() {
            None => {
                return WriterAction::Idle;
            },
            Some(e) => e,
        };
        let class: IoPriority = age_priority(entry.request.priority, entry.request.deadline, now);
        if class != entry.request.priority {
            self.stats.starvation_preemptions = self.stats.starvation_preemptions.wrapping_add(1);
        }
        entry.request.priority = class;
        assert(entry == s.head(now).0);
        let size: usize = if entry.request.size_hint == 0 {
            1
        } else {
            entry.request.size_hint
        };
        if class != IoPriority::Critical && !self.token_bucket.try_acquire(size) {
            self.push_entry(entry);
            return WriterAction::Retry;
        }
        let mut entries: Vec<HeapEntry<P>> = Vec::new();
        entries.push(entry);
        WriterAction::Run(Batch { entries, priority: class })
    }

    /// Takes everything out of the queue, in the order of service.
    fn drain_remaining(&mut self) -> (r: Vec<HeapEntry<P>>)
        requires
            old(self).wf(),
        ensures
            final(self).wf(),
            r@ == old(self)@.queue,
            final(self)@ == (SchedulerState {
                queue: Seq::<HeapEntry<P>>::empty(),
                ..old(self)@
            }),
    {
        let ghost q = self.queue@;
        let mut rest: Vec<HeapEntry<P>> = Vec::new();
        loop
            invariant
                self.wf(),
                rest@.len() <= q.len(),
                rest@ == q.take(rest@.len() as int),
                self@ == (SchedulerState { queue: q.skip(rest@.len() as int), ..old(self)@ }),
            ensures
                rest@ == q,
                self.wf(),
                self@ == (SchedulerState { queue: Seq::<HeapEntry<P>>::empty(), ..old(self)@ }),
            decreases self@.queue.len(),
        {
            let ghost n = rest@.len() as int;
            match self.pop_entry() {
                None => {
                    assert(q.take(n) =~= q);
                    assert(q.skip(n) =~= Seq::<HeapEntry<P>>::empty());
                    break;
                },
                Some(e) => {
                    rest.push(e);
                    assert(q.take(n + 1) =~= q.take(n).push(q[n]));
                    assert(q.skip(n).skip(1) =~= q.skip(n + 1));
                },
            }
        }
        rest
    }

    /// Lets a running batch take one more request, `elapsed` after it was started,
    /// and says whether it may take another.
    ///
    /// Only a request of the batch's own class joins, and, unless that class is the
    /// critical one, only while tokens last.
    pub fn extend_batch(&mut self, batch: &mut Batch<P>, elapsed: u64, now: u64) -> (r: bool)
        requires
            old(self).wf(),
        ensures
            final(self).wf(),
            final(batch).priority == old(batch).priority,
            r == (old(self)@.batch_open(old(batch).entries@.len(), elapsed) && old(self)@.joins(
                old(batch).priority,
                now,
            )),
            final(batch).entries@ == (if r {
                old(batch).entries@.push(old(self)@.queue[0])
            } else {
                old(batch).entries@
            }),
            final(self)@ == (if old(self)@.batch_open(old(batch).entries@.len(), elapsed) {
                old(self)@.after_merge(old(batch).priority, now)
            } else {
                old(self)@
            }),
    {
        if batch.entries.len() >= self.config.batch_max_size || elapsed
            >= self.config.batch_max_delay {
            return false;
        }
        let mut next = match self.pop_entry() {
            None => {
                return false;
            },
            Some(e) => e,
        };
        let class: IoPriority = age_priority(next.request.priority, next.request.deadline, now);
        if class != next.request.priority {
            self.stats.starvation_preemptions = self.stats.starvation_preemptions.wrapping_add(1);
        }
        if class != batch.priority {
            next.request.priority = class;
            assert(next == old(self)@.head(now).0);
            self.push_entry(next);
            return false;
        }
        let size: usize = if next.request.size_hint == 0 {
            1
        } else {
            next.request.size_hint
        };
        if class != IoPriority::Critical && !self.token_bucket.try_acquire(size) {
            self.push_entry(next);
            return false;
        }
        batch.entries.push(next);
        true
    }

    /// Counts a batch of `count` requests that was run at `priority`.
    pub fn record_batch(&mut self, count: usize, priority: IoPriority)
        requires
            old(self).wf(),
        ensures
            final(self).wf(),
            final(self)@ == (if count == 0 {
                old(self)@
            } else {
                SchedulerState {
                    stats: old(self)@.stats.after_batch(count, priority),
                    ..old(self)@
                }
            }),
    {
        if count == 0 {
            return;
        }
        self.stats.total_executed = self.stats.total_executed.wrapping_add(count as u64);
        self.stats.total_batches = self.stats.total_batches.wrapping_add(1);
        if count > self.stats.max_batch_size {
            self.stats.max_batch_size = count;
        }
        match priority {
            IoPriority::Critical => {
                self.stats.critical_executed = self.stats.critical_executed.wrapping_add(
                    count as u64,
                );
            },
            IoPriority::Important => {
                self.stats.important_executed = self.stats.important_executed.wrapping_add(
                    count as u64,
                );
            },
            IoPriority::Normal => {
                self.stats.normal_executed = self.stats.normal_executed.wrapping_add(count as u64);
            },
            IoPriority::Background => {
                self.stats.background_executed = self.stats.background_executed.wrapping_add(
                    count as u64,
                );
            },
        }
    }
}

/// Where the four classes together have run as many requests as were run in all, they still
/// have after a batch. Counters wrap, so the sums are taken in the range of one counter.
pub proof fn classes_add_up(s: IoSchedulerStats, count: usize, priority: IoPriority)
    requires
        s.run_in_classes() == s.total_executed,
    ensures
        s.after_batch(count, priority).run_in_classes() == s.after_batch(
            count,
            priority,
        ).total_executed,
{
    let (a, b, c, d) = (
        s.critical_executed as int,
        s.important_executed as int,
        s.normal_executed as int,
        s.background_executed as int,
    );
    match priority {
        IoPriority::Critical => lemma_wrapped_part(
            s.total_executed,
            s.critical_executed,
            b + c + d,
            count as u64,
        ),
        IoPriority::Important => lemma_wrapped_part(
            s.total_executed,
            s.important_executed,
            a + c + d,
            count as u64,
        ),
        IoPriority::Normal => lemma_wrapped_part(
            s.total_executed,
            s.normal_executed,
            a + b + d,
            count as u64,
        ),
        IoPriority::Background => lemma_wrapped_part(
            s.total_executed,
            s.background_executed,
            a + b + c,
            count as u64,
        ),
    }
}

proof fn lemma_wrapped_part(total: u64, part: u64, rest: int, more: u64)
    requires
        (part + rest) % 0x1_0000_0000_0000_0000 == total,
    ensures
        (part.wrapping_add(more) + rest) % 0x1_0000_0000_0000_0000 == total.wrapping_add(more),
{
    let m = 0x1_0000_0000_0000_0000int;
    vstd::arithmetic::div_mod::lemma_add_mod_noop(part + rest, more as int, m);
    vstd::arithmetic::div_mod::lemma_mod_add_multiples_vanish(part.wrapping_add(more) + rest, m);
    assert((part + rest + more) % m == (total + more) % m);
}

/// Submission numbers of the entries in a queue, each as often as it occurs.
pub open spec fn numbers<P>(q: Seq<HeapEntry<P>>) -> vstd::multiset::Multiset<u64> {
    q.map_values(|e: HeapEntry<P>| e.seq).to_multiset()
}

proof fn lemma_numbers_enqueue<P>(q: Seq<HeapEntry<P>>, e: HeapEntry<P>)
    ensures
        numbers(enqueue(q, e)) == numbers(q).insert(e.seq),
{
    lemma_place_bounds(q, e);
    let k = place(q, e);
    let f = |x: HeapEntry<P>| x.seq;
    assert(q.insert(k, e).map_values(f) =~= q.map_values(f).insert(k, e.seq));
    vstd::seq_lib::to_multiset_insert(q.map_values(f), k, e.seq);
}

proof fn lemma_numbers_skip<P>(q: Seq<HeapEntry<P>>)
    requires
        q.len() > 0,
    ensures
        numbers(q) == numbers(q.skip(1)).insert(q[0].seq),
{
    let f = |x: HeapEntry<P>| x.seq;
    let t = q.skip(1).map_values(f);
    assert(q.map_values(f) =~= t.insert(0, q[0].seq));
    vstd::seq_lib::to_multiset_insert(t, 0, q[0].seq);
}

/// The most urgent request comes out first: nothing in the queue precedes its head.
pub proof fn head_is_most_urgent<P>(s: SchedulerState<P>, i: int)
    requires
        s.wf(),
        0 <= i < s.queue.len(),
    ensures
        !precedes(s.queue[i], s.queue[0]),
{
}

/// A critical request in the queue puts a critical request at its head, and that
/// one passes whatever the bucket holds.
pub proof fn critical_bypasses_tokens<P>(s: SchedulerState<P>, i: int, now: u64)
    requires
        s.wf(),
        0 <= i < s.queue.len(),
        s.queue[i].request.priority == IoPriority::Critical,
    ensures
        s.head(now).0.request.priority == IoPriority::Critical,
        s.affordable(s.head(now).0.request.priority, cost(s.head(now).0)),
        s.charged(s.head(now).0.request.priority, cost(s.head(now).0)) == s.bucket,
{
    assert(!precedes(s.queue[i], s.queue[0]));
}

/// Merging loses and repeats nothing: the looked-at request is either in the batch
/// or back in the queue, and every other one is where it was.
pub proof fn merging_conserves_requests<P>(s: SchedulerState<P>, class: IoPriority, now: u64)
    requires
        s.wf(),
        s.queue.len() > 0,
    ensures
        numbers(s.queue) == (if s.joins(class, now) {
            numbers(s.after_merge(class, now).queue).insert(s.queue[0].seq)
        } else {
            numbers(s.after_merge(class, now).queue)
        }),
{
    lemma_numbers_skip(s.queue);
    lemma_numbers_enqueue(s.queue.skip(1), s.queue[0]);
    lemma_numbers_enqueue(s.queue.skip(1), s.head(now).0);
}

/// A request that is put back for want of tokens is still queued, with everything
/// else.
pub proof fn retry_conserves_requests<P>(s: SchedulerState<P>, now: u64)
    requires
        s.wf(),
        s.queue.len() > 0,
    ensures
        numbers(enqueue(s.queue.skip(1), s.head(now).0)) == numbers(s.queue),
{
    lemma_numbers_skip(s.queue);
    lemma_numbers_enqueue(s.queue.skip(1), s.head(now).0);
}

/// An accepted submission adds exactly its own request to the queue.
pub proof fn submit_adds_one<P>(s: SchedulerState<P>, e: HeapEntry<P>)
    requires
        s.wf(),
    ensures
        s.after_submit(e).wf(),
        numbers(s.after_submit(e).queue) == numbers(s.queue).insert(e.seq),
        s.after_submit(e).queue.len() == s.queue.len() + 1,
{
    enqueue_keeps_order(s.queue, e);
    lemma_numbers_enqueue(s.queue, e);
}

/// Critical and important requests are never refused.
pub proof fn urgent_requests_are_accepted<P>(s: SchedulerState<P>, priority: IoPriority)
    requires
        priority == IoPriority::Critical || priority == IoPriority::Important,
    ensures
        s.refusal(priority) is None,
{
}

} // verus!
