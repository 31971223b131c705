//! Write queue: collects writes into batches, or hands them to the scheduler.
//!
//! Without a scheduler, writes travel through a bounded channel that the caller
//! owns and are collected here until a batch is full. With a scheduler every write
//! is submitted to it at the normal class.

use crate::storage::io_scheduler::{IoPriority, IoScheduler, SubmitError};
use vstd::prelude::*;

verus! {

/// Capacity of the channel in front of the queue. A write that finds the channel
/// full is dropped and counted, so that the channel cannot grow without bound.
pub const WRITE_QUEUE_CAPACITY: usize = 100_000;

/// Counters of the write queue. They wrap at the end of their range.
#[derive(Debug, Clone, Copy, PartialEq, Eq, Structural)]
pub struct WriteStats {
    pub total_requests: u64,
    pub total_batches: u64,
    /// Size of the last batch that was written.
    pub queue_size: usize,
    /// Writes lost because the channel was full or closed, or the scheduler refused.
    pub dropped_requests: u64,
}

impl Default for WriteStats {
    fn default() -> (r: Self)
        ensures
            r == (WriteStats {
                total_requests: 0,
                total_batches: 0,
                queue_size: 0,
                dropped_requests: 0,
            }),
    {
        WriteStats { total_requests: 0, total_batches: 0, queue_size: 0, dropped_requests: 0 }
    }
}

/// What became of a write that was put into the channel.
#[derive(Debug, Clone, Copy, PartialEq, Eq, Structural)]
pub enum ChannelOutcome {
    Sent,
    Full,
    Closed,
}

/// What the caller does with a write after `send`.
pub enum SendAction<P> {
    /// Put it into the channel and report the outcome.
    Channel(P),
    /// Nothing: the scheduler has it.
    Scheduled,
    /// Nothing: the scheduler refused it.
    Refused(SubmitError),
}

/// What the caller does after `flush`.
pub enum FlushAction<P> {
    Nothing,
    /// The scheduler has got a barrier.
    Barrier,
    /// Write this batch in one transaction.
    Write(Vec<P>),
}

/// What running one write of a batch came to.
#[derive(Debug, Clone, Copy, PartialEq, Eq, Structural)]
pub enum PayloadOutcome {
    Done,
    Failed,
    Panicked,
}

/// Write queue with its collected batch.
pub struct WriteQueue<P> {
    pub stats: WriteStats,
    pub batch: Vec<P>,
    pub batch_size: usize,
    pub io_scheduler: Option<IoScheduler<P>>,
}

impl<P> WriteQueue<P> {
    pub open spec fn wf(self) -> bool {
        self.io_scheduler matches Some(s) ==> s.wf()
    }

    /// Everything but the counters is the same.
    pub open spec fn same_but_stats(self, other: Self) -> bool {
        &&& self.batch@ == other.batch@
        &&& self.batch_size == other.batch_size
        &&& self.io_scheduler == other.io_scheduler
    }

    /// A queue that collects batches of `batch_size` writes.
    pub fn new(batch_size: usize) -> (r: Self)
        ensures
            r.wf(),
            r.stats == (WriteStats {
                total_requests: 0,
                total_batches: 0,
                queue_size: 0,
                dropped_requests: 0,
            }),
            r.batch@ == Seq::<P>::empty(),
            r.batch_size == batch_size,
            r.io_scheduler is None,
    {
        WriteQueue {
            stats: WriteStats::default(),
            batch: Vec::new(),
            batch_size,
            io_scheduler: None,
        }
    }

    /// A queue that hands every write to a scheduler.
    pub fn with_scheduler(io_scheduler: IoScheduler<P>) -> (r: Self)
        requires
            io_scheduler.wf(),
        ensures
            r.wf(),
            r.stats == (WriteStats {
                total_requests: 0,
                total_batches: 0,
                queue_size: 0,
                dropped_requests: 0,
            }),
            r.batch@ == Seq::<P>::empty(),
            r.io_scheduler == Some(io_scheduler),
    {
        WriteQueue {
            stats: WriteStats::default(),
            batch: Vec::new(),
            batch_size: 0,
            io_scheduler: Some(io_scheduler),
        }
    }

    /// Sends a write: to the scheduler at the normal class, or back to the caller for
    /// the channel.
    pub fn send(&mut self, payload: P, now: u64) -> (r: SendAction<P>)
        requires
            old(self).wf(),
            now + 30_000_000_000 <= u64::MAX,
        ensures
            final(self).wf(),
            final(self).batch@ == old(self).batch@,
            final(self).batch_size == old(self).batch_size,
            old(self).io_scheduler is None ==> {
                &&& r == SendAction::Channel(payload)
                &&& final(self).io_scheduler is None
                &&& final(self).stats == (WriteStats {
                    total_requests: old(self).stats.total_requests.wrapping_add(1),
                    ..old(self).stats
                })
            },
            old(self).io_scheduler matches Some(s) ==> {
                let refusal = s@.refusal(IoPriority::Normal);
                &&& final(self).io_scheduler matches Some(t) && t@ == (if refusal is Some {
                    s@.after_refusal(IoPriority::Normal)
                } else {
                    s@.after_submit(s@.entry_for(IoPriority::Normal, None, payload, 1, now))
                })
                &&& r == (match refusal {
                    Some(e) => SendAction::<P>::Refused(e),
                    None => SendAction::<P>::Scheduled,
                })
                &&& final(self).stats == (WriteStats {
                    total_requests: old(self).stats.total_requests.wrapping_add(1),
                    dropped_requests: if refusal is Some {
                        old(self).stats.dropped_requests.wrapping_add(1)
                    } else {
                        old(self).stats.dropped_requests
                    },
                    ..old(self).stats
                })
            },
    {
        self.stats.total_requests = self.stats.total_requests.wrapping_add(1);
        match &mut self.io_scheduler {
            Some(sched) => match sched.submit(IoPriority::Normal, None, payload, 1, now) {
                Ok(()) => SendAction::Scheduled,
                Err(e) => {
                    self.stats.dropped_requests = self.stats.dropped_requests.wrapping_add(1);
                    SendAction::Refused(e)
                },
            },
            None => SendAction::Channel(payload),
        }
    }

    /// Reports what became of a write that `send` gave back for the channel.
    pub fn record_send(&mut self, outcome: ChannelOutcome)
        requires
            old(self).wf(),
        ensures
            final(self).wf(),
            final(self).same_but_stats(*old(self)),
            final(self).stats == (WriteStats {
                dropped_requests: if outcome == ChannelOutcome::Sent {
                    old(self).stats.dropped_requests
                } else {
                    old(self).stats.dropped_requests.wrapping_add(1)
                },
                ..old(self).stats
            }),
    {
        match outcome {
            ChannelOutcome::Sent => {},
            ChannelOutcome::Full | ChannelOutcome::Closed => {
                self.stats.dropped_requests = self.stats.dropped_requests.wrapping_add(1);
            },
        }
    }

    fn take_batch(&mut self) -> (r: Vec<P>)
        ensures
            r@ == old(self).batch@,
            final(self).batch@ == Seq::<P>::empty(),
            final(self).stats == old(self).stats,
            final(self).batch_size == old(self).batch_size,
            final(self).io_scheduler == old(self).io_scheduler,
    {
        let mut taken: Vec<P> = Vec::new();
        std::mem::swap(&mut taken, &mut self.batch);
        taken
    }

    /// Takes a write that came out of the channel. Once the batch is full it is given
    /// out to be written.
    pub fn receive(&mut self, payload: P) -> (r: Option<Vec<P>>)
        requires
            old(self).wf(),
        ensures
            final(self).wf(),
            final(self).stats == old(self).stats,
            final(self).batch_size == old(self).batch_size,
            final(self).io_scheduler == old(self).io_scheduler,
            old(self).batch@.len() + 1 >= old(self).batch_size ==> {
                &&& r matches Some(b) && b@ == old(self).batch@.push(payload)
                &&& final(self).batch@ == Seq::<P>::empty()
            },
            old(self).batch@.len() + 1 < old(self).batch_size ==> {
                &&& r is None
                &&& final(self).batch@ == old(self).batch@.push(payload)
            },
    {
        self.batch.push(payload);
        if self.batch.len() >= self.batch_size {
            Some(self.take_batch())
        } else {
            None
        }
    }

    /// The channel is closed: gives out what was collected, if anything.
    pub fn close(&mut self) -> (r: Option<Vec<P>>)
        requires
            old(self).wf(),
        ensures
            final(self).wf(),
            final(self).stats == old(self).stats,
            final(self).batch_size == old(self).batch_size,
            final(self).io_scheduler == old(self).io_scheduler,
            final(self).batch@ == Seq::<P>::empty(),
            old(self).batch@.len() == 0 ==> r is None,
            old(self).batch@.len() > 0 ==> (r matches Some(b) && b@ == old(self).batch@),
    {
        if self.batch.len() == 0 {
            None
        } else {
            Some(self.take_batch())
        }
    }

    /// Forces out what was collected. With a scheduler a barrier is submitted, for
    /// which `barrier` is the empty write.
    pub fn flush(&mut self, barrier: P, now: u64) -> (r: FlushAction<P>)
        requires
            old(self).wf(),
        ensures
            final(self).wf(),
            final(self).stats == old(self).stats,
            final(self).batch_size == old(self).batch_size,
            old(self).io_scheduler matches Some(s) ==> {
                &&& r is Barrier
                &&& final(self).batch@ == old(self).batch@
                &&& final(self).io_scheduler matches Some(t) && t@ == s@.after_submit(
                    s@.entry_for(IoPriority::Critical, None, barrier, 0, now),
                )
            },
            old(self).io_scheduler is None ==> {
                &&& final(self).io_scheduler is None
                &&& final(self).batch@ == Seq::<P>::empty()
                &&& if old(self).batch@.len() == 0 {
                    r is Nothing
                } else {
                    r matches FlushAction::Write(b) && b@ == old(self).batch@
                }
            },
    {
        match &mut self.io_scheduler {
            Some(sched) => {
                sched.flush_barrier(barrier, now);
                return FlushAction::Barrier;
            },
            None => {},
        }
        match self.close() {
            Some(b) => FlushAction::Write(b),
            None => FlushAction::Nothing,
        }
    }

    /// Counts a batch of `count` writes whose transaction was opened.
    pub fn record_flush(&mut self, count: usize)
        requires
            old(self).wf(),
        ensures
            final(self).wf(),
            final(self).same_but_stats(*old(self)),
            final(self).stats == (WriteStats {
                total_batches: old(self).stats.total_batches.wrapping_add(1),
                queue_size: count,
                ..old(self).stats
            }),
    {
        self.stats.total_batches = self.stats.total_batches.wrapping_add(1);
        self.stats.queue_size = count;
    }

    /// The counters.
    pub fn stats(&self) -> (r: WriteStats)
        ensures
            r == self.stats,
    {
        self.stats
    }
}

/// Whether a batch goes on after one of its writes: a failed write is skipped, a
/// panic ends the batch, and its transaction is rolled back.
pub fn batch_goes_on(outcome: PayloadOutcome) -> (r: bool)
    ensures
        r == (outcome != PayloadOutcome::Panicked),
{
    match outcome {
        PayloadOutcome::Panicked => false,
        _ => true,
    }
}

} // verus!
