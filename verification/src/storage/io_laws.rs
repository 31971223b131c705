//! What holds of the order in which requests are served.

use vstd::prelude::*;

use crate::storage::io_scheduler::{
    aged, cost, enqueue, in_service_order, place, precedes, recent, HeapEntry,
    IdleSample, IoPriority, IoSchedulerStats, SchedulerState, SubmitError, TokenBucket,
};

verus! {

/// A critical request is served before an important one, that before a normal one, and that
/// before one in the background, whatever their deadlines.
pub proof fn urgent_classes_go_first<P>(a: HeapEntry<P>, b: HeapEntry<P>)
    ensures
        a.request.priority == IoPriority::Critical && b.request.priority != IoPriority::Critical
            ==> precedes(a, b) && !precedes(b, a),
        a.request.priority == IoPriority::Important && (b.request.priority == IoPriority::Normal
            || b.request.priority == IoPriority::Background) ==> precedes(a, b) && !precedes(b, a),
        a.request.priority == IoPriority::Normal && b.request.priority == IoPriority::Background
            ==> precedes(a, b) && !precedes(b, a),
{
}

/// Within a class the earlier deadline goes first, any deadline before none, and what was
/// submitted first where the deadlines are the same.
pub proof fn earlier_deadlines_go_first<P>(a: HeapEntry<P>, b: HeapEntry<P>)
    requires
        a.request.priority == b.request.priority,
    ensures
        a.request.deadline is Some && b.request.deadline is Some && a.request.deadline->0
            < b.request.deadline->0 ==> precedes(a, b) && !precedes(b, a),
        a.request.deadline is Some && b.request.deadline is None ==> precedes(a, b) && !precedes(
            b,
            a,
        ),
        a.request.deadline == b.request.deadline ==> (precedes(a, b) <==> a.seq < b.seq),
{
}

/// A request is put behind everything that it does not precede and in front of the rest, and
/// nothing else moves.
pub proof fn a_request_is_put_in_its_place<P>(q: Seq<HeapEntry<P>>, e: HeapEntry<P>, i: int)
    requires
        in_service_order(q),
    ensures
        enqueue(q, e).len() == q.len() + 1,
        0 <= place(q, e) <= q.len(),
        enqueue(q, e)[place(q, e)] == e,
        0 <= i < place(q, e) ==> enqueue(q, e)[i] == q[i] && !precedes(e, q[i]),
        place(q, e) <= i < q.len() ==> enqueue(q, e)[i + 1] == q[i],
        place(q, e) < q.len() ==> precedes(e, q[place(q, e)]),
{
    lemma_in_front(q, e, i);
}

proof fn lemma_in_front<P>(q: Seq<HeapEntry<P>>, e: HeapEntry<P>, i: int)
    ensures
        0 <= place(q, e) <= q.len(),
        0 <= i < place(q, e) ==> !precedes(e, q[i]),
        place(q, e) < q.len() ==> precedes(e, q[place(q, e)]),
    decreases q.len(),
{
    if !(q.len() == 0 || precedes(e, q[0])) {
        lemma_in_front(q.skip(1), e, i - 1);
        if 0 < i < q.len() {
            assert(q.skip(1)[i - 1] == q[i]);
        }
        let k = place(q.skip(1), e);
        if k < q.skip(1).len() {
            assert(q.skip(1)[k] == q[k + 1]);
        }
    }
}

/// A request that names no deadline has five seconds where it is important, half a minute where
/// it is normal, five minutes in the background, and all the time where it is critical.
pub proof fn waiting_has_an_end(now: u64)
    requires
        now + 300_000_000_000 <= u64::MAX,
    ensures
        IoPriority::Critical.deadline_from(now) is None,
        IoPriority::Important.deadline_from(now) matches Some(d) && d == now + 5 * 1_000_000_000,
        IoPriority::Normal.deadline_from(now) matches Some(d) && d == now + 30 * 1_000_000_000,
        IoPriority::Background.deadline_from(now) matches Some(d) && d == now + 300 * 1_000_000_000,
{
}

/// Past its deadline a normal or background request is served as an important one. Nothing else
/// of it changes, and no other request does.
pub proof fn the_late_count_as_important<P>(e: HeapEntry<P>, now: u64)
    ensures
        e.request.deadline is None ==> aged(e, now) == e,
        e.request.deadline matches Some(d) && now <= d ==> aged(e, now) == e,
        e.request.priority == IoPriority::Critical || e.request.priority == IoPriority::Important
            ==> aged(e, now) == e,
        e.request.deadline matches Some(d) && now > d && (e.request.priority == IoPriority::Normal
            || e.request.priority == IoPriority::Background) ==> aged(e, now).request.priority
            == IoPriority::Important,
        aged(e, now).seq == e.seq,
        aged(e, now).request.payload == e.request.payload,
        aged(e, now).request.deadline == e.request.deadline,
        aged(e, now).request.size_hint == e.request.size_hint,
{
}

/// Tokens that are put back are added, up to the brim.
pub proof fn buckets_fill_to_the_brim(b: TokenBucket, n: usize)
    requires
        b.wf(),
    ensures
        b.refilled(n).max_tokens == b.max_tokens,
        b.tokens + n <= b.max_tokens ==> b.refilled(n).tokens == b.tokens + n,
        b.tokens + n > b.max_tokens ==> b.refilled(n).tokens == b.max_tokens,
        b.refilled(n).wf(),
{
}

/// A request costs as many tokens as it says, at least one, and goes through where so many are
/// there; a critical one always does and costs nothing.
pub proof fn tokens_let_requests_through<P>(s: SchedulerState<P>, class: IoPriority, e: HeapEntry<P>)
    ensures
        e.request.size_hint > 0 ==> cost(e) == e.request.size_hint,
        e.request.size_hint == 0 ==> cost(e) == 1,
        class == IoPriority::Critical ==> s.affordable(class, cost(e)) && s.charged(class, cost(e))
            == s.bucket,
        class != IoPriority::Critical ==> (s.affordable(class, cost(e)) <==> s.bucket.tokens
            >= cost(e)),
        class != IoPriority::Critical && s.affordable(class, cost(e)) ==> s.charged(
            class,
            cost(e),
        ).tokens == s.bucket.tokens - cost(e),
{
}

/// Background requests are refused from the high watermark on, normal ones from the hard limit
/// on, and no others.
pub proof fn full_queues_refuse<P>(s: SchedulerState<P>)
    requires
        s.queue.len() <= usize::MAX,
    ensures
        s.refusal(IoPriority::Critical) is None,
        s.refusal(IoPriority::Important) is None,
        s.refusal(IoPriority::Normal) is Some <==> s.queue.len() >= s.config.max_queue_size,
        s.refusal(IoPriority::Background) is Some <==> s.queue.len() >= s.config.high_watermark
            || s.queue.len() >= s.config.max_queue_size,
        s.queue.len() >= s.config.high_watermark ==> s.refusal(IoPriority::Background) == Some(
            SubmitError::Backpressured(s.queue.len() as usize),
        ),
        s.queue.len() >= s.config.max_queue_size ==> s.refusal(IoPriority::Normal) == Some(
            SubmitError::HardLimit(s.queue.len() as usize),
        ),
{
}

/// A batch counts once, and its requests each, in all and in its class.
pub proof fn batches_are_counted(s: IoSchedulerStats, count: usize, class: IoPriority)
    requires
        s.total_executed + count <= u64::MAX,
        s.total_batches < u64::MAX,
        s.critical_executed + count <= u64::MAX,
        s.important_executed + count <= u64::MAX,
        s.normal_executed + count <= u64::MAX,
        s.background_executed + count <= u64::MAX,
    ensures
        ({
            let t = s.after_batch(count, class);
            &&& t.total_executed == s.total_executed + count
            &&& t.total_batches == s.total_batches + 1
            &&& t.max_batch_size >= count && t.max_batch_size >= s.max_batch_size
            &&& t.max_batch_size == count || t.max_batch_size == s.max_batch_size
            &&& t.critical_executed - s.critical_executed == (if class == IoPriority::Critical {
                count as int
            } else {
                0
            })
            &&& t.important_executed - s.important_executed == (if class == IoPriority::Important {
                count as int
            } else {
                0
            })
            &&& t.normal_executed - s.normal_executed == (if class == IoPriority::Normal {
                count as int
            } else {
                0
            })
            &&& t.background_executed - s.background_executed == (if class
                == IoPriority::Background {
                count as int
            } else {
                0
            })
            &&& t.total_submitted == s.total_submitted
            &&& t.backpressure_rejections == s.backpressure_rejections
        }),
{
}

/// The readings that are kept are those of the window.
pub proof fn old_readings_are_dropped(
    samples: Seq<IdleSample>,
    now: u64,
    window: u64,
    s: IdleSample,
)
    ensures
        recent(samples, now, window).contains(s) <==> samples.contains(s) && s.timestamp + window
            >= now,
{
    let p = |s: IdleSample| s.timestamp + window >= now;
    if recent(samples, now, window).contains(s) {
        let i = choose|i: int|
            0 <= i < recent(samples, now, window).len() && recent(samples, now, window)[i] == s;
        samples.lemma_filter_pred(p, i);
        samples.lemma_filter_contains_rev(p, s);
    }
    if samples.contains(s) && s.timestamp + window >= now {
        let i = choose|i: int| 0 <= i < samples.len() && samples[i] == s;
        crate::storage::recency::lemma_filter_keeps(samples, p, i);
    }
}

/// A refusal counts where it is one of a background request, and changes nothing else.
pub proof fn refusals_are_counted<P>(s: SchedulerState<P>, class: IoPriority)
    requires
        s.stats.backpressure_rejections < u64::MAX,
    ensures
        class == IoPriority::Background ==> s.after_refusal(class).stats.backpressure_rejections
            == s.stats.backpressure_rejections + 1,
        class != IoPriority::Background ==> s.after_refusal(class) == s,
        s.after_refusal(class).queue == s.queue,
        s.after_refusal(class).bucket == s.bucket,
        s.after_refusal(class).stats.total_submitted == s.stats.total_submitted,
{
}

/// What is taken out of the queue is its first entry, and that it came late is counted.
pub proof fn the_first_is_taken<P>(s: SchedulerState<P>, now: u64)
    requires
        s.queue.len() > 0,
        s.stats.starvation_preemptions < u64::MAX,
    ensures
        s.popped(now).queue.len() == s.queue.len() - 1,
        seq![s.queue[0]] + s.popped(now).queue == s.queue,
        s.head(now).0 == aged(s.queue[0], now),
        s.head(now).1 ==> s.popped(now).stats.starvation_preemptions
            == s.stats.starvation_preemptions + 1,
        !s.head(now).1 ==> s.popped(now).stats == s.stats,
        s.head(now).1 <==> (s.queue[0].request.priority == IoPriority::Normal
            || s.queue[0].request.priority == IoPriority::Background)
            && s.queue[0].request.deadline is Some && now > s.queue[0].request.deadline->0,
        s.popped(now).bucket == s.bucket,
{
    assert(seq![s.queue[0]] + s.queue.skip(1) =~= s.queue);
}

/// A batch goes on as long as it is not full, its time is not over, and something is queued.
pub proof fn batches_end<P>(s: SchedulerState<P>, len: nat, elapsed: u64)
    ensures
        s.queue.len() == 0 ==> !s.batch_open(len, elapsed),
        len >= s.config.batch_max_size ==> !s.batch_open(len, elapsed),
        elapsed >= s.config.batch_max_delay ==> !s.batch_open(len, elapsed),
        s.queue.len() > 0 && len < s.config.batch_max_size && elapsed < s.config.batch_max_delay
            ==> s.batch_open(len, elapsed),
{
}

/// A request joins a batch exactly where it is served at the class of the batch and the tokens
/// last; it then pays for itself. Else it is put back: as it was where the tokens did not last,
/// and at the class at which it is served where that is another.
pub proof fn batches_are_of_one_class<P>(s: SchedulerState<P>, class: IoPriority, now: u64)
    requires
        s.queue.len() > 0,
    ensures
        s.joins(class, now) <==> aged(s.queue[0], now).request.priority == class && (class
            == IoPriority::Critical || cost(s.queue[0]) <= s.bucket.tokens),
        s.joins(class, now) ==> s.after_merge(class, now).queue == s.queue.skip(1),
        s.joins(class, now) && class != IoPriority::Critical ==> s.after_merge(
            class,
            now,
        ).bucket.tokens == s.bucket.tokens - cost(s.queue[0]),
        !s.joins(class, now) ==> s.after_merge(class, now).bucket == s.bucket,
        !s.joins(class, now) && aged(s.queue[0], now).request.priority == class ==> s.after_merge(
            class,
            now,
        ).queue == enqueue(s.queue.skip(1), s.queue[0]),
        !s.joins(class, now) && aged(s.queue[0], now).request.priority != class ==> s.after_merge(
            class,
            now,
        ).queue == enqueue(s.queue.skip(1), aged(s.queue[0], now)),
{
}

/// Tokens are put back into the bucket and the time is noted; a reading is taken of the queue and
/// the tokens as they are, where readings are wanted.
pub proof fn readings_are_of_now<P>(s: SchedulerState<P>, now: u64, tokens: usize)
    requires
        s.bucket.wf(),
        s.queue.len() <= usize::MAX,
    ensures
        s.after_refill(now, tokens).last_refill == now,
        s.after_refill(now, tokens).queue == s.queue,
        s.after_refill(now, tokens).bucket.tokens >= s.bucket.tokens,
        s.after_refill(now, tokens).bucket.tokens <= s.bucket.tokens + tokens,
        !s.config.idle_prediction_enabled ==> s.after_sample(now) == s,
        s.config.idle_prediction_enabled ==> s.after_sample(now).idle_samples.contains(
            IdleSample {
                timestamp: now,
                queue_len: s.queue.len() as usize,
                tokens_available: s.bucket.tokens,
            },
        ),
        s.after_sample(now).queue == s.queue,
{
    if s.config.idle_prediction_enabled {
        let r = IdleSample {
            timestamp: now,
            queue_len: s.queue.len() as usize,
            tokens_available: s.bucket.tokens,
        };
        let all = s.idle_samples.push(r);
        assert(all[all.len() - 1] == r);
        old_readings_are_dropped(all, now, s.config.idle_window, r);
    }
}

/// A request is queued as it was submitted, with the deadline that it names or that of its class,
/// and costs at least one token.
pub proof fn requests_are_queued_as_submitted<P>(
    s: SchedulerState<P>,
    class: IoPriority,
    d: u64,
    payload: P,
    size: usize,
    now: u64,
)
    ensures
        ({
            let e = s.entry_for(class, Some(d), payload, size, now);
            &&& e.request.priority == class
            &&& e.request.deadline == Some(d)
            &&& e.request.payload == payload
            &&& e.request.submitted_at == now
            &&& e.seq == s.next_seq
            &&& size > 0 ==> cost(e) == size
            &&& size == 0 ==> cost(e) == 1
        }),
        s.entry_for(class, None, payload, size, now).request.deadline == class.deadline_from(now),
{
}

} // verus!
