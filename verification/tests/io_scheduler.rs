use pdc::storage::io_scheduler::{
    age_priority, IoPriority, IoScheduler, SchedulerRuntimeConfig, SubmitError, TokenBucket,
    WriterAction,
};
use pdc::storage::write_queue::{ChannelOutcome, FlushAction, SendAction, WriteQueue};

#[test]
fn test_token_bucket_acquire() {
    let mut tb = TokenBucket::new(100, 1000);
    assert!(tb.try_acquire(50));
    assert!(tb.try_acquire(50));
    assert!(!tb.try_acquire(1));
    assert_eq!(tb.available(), 0);
}

#[test]
fn test_token_bucket_refill() {
    let mut tb = TokenBucket::new(100, 1000);
    assert!(tb.try_acquire(80));
    assert_eq!(tb.available(), 20);
    tb.refill(50);
    assert_eq!(tb.available(), 70);
    tb.refill(100);
    assert_eq!(tb.available(), 100);
}

const MS: u64 = 1_000_000;
const SEC: u64 = 1_000_000_000;

fn test_config() -> SchedulerRuntimeConfig {
    SchedulerRuntimeConfig {
        max_queue_size: 1000,
        token_bucket_rate: 1000,
        token_bucket_max: 100,
        low_watermark: 10,
        high_watermark: 100,
        batch_max_size: 10,
        batch_max_delay: 10 * MS,
        idle_prediction_enabled: false,
        idle_window: 5 * SEC,
        idle_wait: 500 * MS,
        retry_wait: 50 * MS,
    }
}

/// Runs the writer until there is nothing left to do, and returns what was written.
fn drain(sched: &mut IoScheduler<u32>, now: u64) -> Vec<u32> {
    let mut done = vec![];
    loop {
        match sched.next_action(now, 0) {
            WriterAction::Run(mut batch) => {
                while sched.extend_batch(&mut batch, 0, now) {}
                let n = batch.entries.len();
                for e in &batch.entries {
                    done.push(e.request.payload);
                }
                sched.record_batch(n, batch.priority);
            }
            WriterAction::Drain(rest) => {
                for e in rest {
                    done.push(e.request.payload);
                }
                return done;
            }
            _ => return done,
        }
    }
}

#[test]
fn test_priority_queue_ordering() {
    let mut sched = IoScheduler::new(test_config(), 0);
    let _ = sched.submit(IoPriority::Background, None, 1, 1, 0);
    let _ = sched.submit(IoPriority::Normal, None, 2, 1, 0);
    let _ = sched.submit(IoPriority::Critical, None, 3, 1, 0);
    let _ = sched.submit(IoPriority::Important, None, 4, 1, 0);
    assert_eq!(drain(&mut sched, 0), vec![3, 4, 2, 1]);
}

#[test]
fn test_deadline_starvation_prevention() {
    let now = 120 * SEC;
    let expired = now - 60 * SEC;
    let effective = age_priority(IoPriority::Normal, Some(expired), now);
    assert_eq!(effective, IoPriority::Important);
    assert_eq!(age_priority(IoPriority::Normal, Some(now), now), IoPriority::Normal);
    assert_eq!(age_priority(IoPriority::Critical, Some(expired), now), IoPriority::Critical);
}

#[test]
fn test_backpressure_level() {
    let config = SchedulerRuntimeConfig {
        low_watermark: 100,
        high_watermark: 1000,
        ..test_config()
    };
    let mut sched = IoScheduler::new(config, 0);
    let (over, span) = sched.backpressure_level();
    assert_eq!(over as f32 / span as f32, 0.0);
    assert!(!sched.is_backpressured());
    for i in 0..500 {
        let _ = sched.submit(IoPriority::Normal, None, i, 1, 0);
    }
    let (over, span) = sched.backpressure_level();
    let level = over as f32 / span as f32;
    assert!(level > 0.0 && level <= 1.0);
}

#[test]
fn test_request_merging() {
    let config = SchedulerRuntimeConfig {
        batch_max_size: 5,
        batch_max_delay: 100 * MS,
        token_bucket_max: 1000,
        token_bucket_rate: 10000,
        ..test_config()
    };
    let mut sched = IoScheduler::new(config, 0);
    for i in 0..5 {
        let _ = sched.submit(IoPriority::Normal, None, i, 1, 0);
    }
    drain(&mut sched, 200 * MS);
    let stats = sched.stats();
    assert_eq!(stats.total_executed, 5);
    assert!(stats.total_batches >= 1);
}

#[test]
fn every_class_counts_requests() {
    let mut sched: IoScheduler<u32> = IoScheduler::new(test_config(), 0);
    sched.record_batch(3, IoPriority::Critical);
    sched.record_batch(4, IoPriority::Important);
    sched.record_batch(5, IoPriority::Normal);
    sched.record_batch(6, IoPriority::Background);
    sched.record_batch(0, IoPriority::Critical);
    let s = sched.stats();
    assert_eq!((s.critical_executed, s.important_executed), (3, 4));
    assert_eq!((s.normal_executed, s.background_executed), (5, 6));
    assert_eq!((s.total_executed, s.total_batches, s.max_batch_size), (18, 4, 6));
}

#[test]
fn test_idle_prediction() {
    let config = SchedulerRuntimeConfig {
        idle_prediction_enabled: false,
        low_watermark: 100,
        token_bucket_max: 1000,
        ..test_config()
    };
    let sched: IoScheduler<u32> = IoScheduler::new(config, 0);
    assert!(sched.is_idle(0));
}

#[test]
fn test_write_queue_compatibility() {
    let mut wq: WriteQueue<u32> = WriteQueue::new(100);
    for payload in [1, 2] {
        match wq.send(payload, 0) {
            SendAction::Channel(p) => {
                wq.record_send(ChannelOutcome::Sent);
                assert!(wq.receive(p).is_none());
            }
            _ => panic!("without a scheduler a request goes to the channel"),
        }
    }
    match wq.flush(0, 0) {
        FlushAction::Write(batch) => {
            assert_eq!(batch, vec![1, 2]);
            wq.record_flush(batch.len());
        }
        _ => panic!("two requests wait"),
    }
    assert_eq!(wq.stats().total_requests, 2);
}

#[test]
fn test_backpressure_rejects_background() {
    let config = SchedulerRuntimeConfig { high_watermark: 5, low_watermark: 1, ..test_config() };
    let mut sched = IoScheduler::new(config, 0);
    for i in 0..10 {
        let _ = sched.submit(IoPriority::Normal, None, i, 1, 0);
    }
    assert_eq!(
        sched.submit(IoPriority::Background, None, 99, 1, 0),
        Err(SubmitError::Backpressured(10))
    );
}

#[test]
fn full_queue_refuses_all_but_the_urgent() {
    let config = SchedulerRuntimeConfig {
        max_queue_size: 2,
        high_watermark: 5,
        low_watermark: 1,
        ..test_config()
    };
    let mut sched = IoScheduler::new(config, 0);
    assert!(sched.submit(IoPriority::Normal, None, 1, 1, 0).is_ok());
    assert!(sched.submit(IoPriority::Normal, None, 2, 1, 0).is_ok());
    assert_eq!(sched.submit(IoPriority::Normal, None, 3, 1, 0), Err(SubmitError::HardLimit(2)));
    assert_eq!(sched.stats().backpressure_rejections, 0);
    let refused = sched.submit(IoPriority::Background, None, 3, 1, 0);
    assert_eq!(refused, Err(SubmitError::HardLimit(2)));
    assert_eq!(sched.stats().backpressure_rejections, 1);
    assert!(sched.submit(IoPriority::Important, None, 4, 1, 0).is_ok());
}

#[test]
fn test_critical_bypasses_token_bucket() {
    let config = SchedulerRuntimeConfig {
        token_bucket_max: 0,
        token_bucket_rate: 0,
        ..test_config()
    };
    let mut sched = IoScheduler::new(config, 0);
    let _ = sched.submit(IoPriority::Critical, None, 7, 1, 0);
    assert_eq!(drain(&mut sched, 100 * MS), vec![7]);
}

#[test]
fn normal_requests_wait_for_tokens() {
    let config = SchedulerRuntimeConfig { token_bucket_max: 0, ..test_config() };
    let mut sched = IoScheduler::new(config, 0);
    let _ = sched.submit(IoPriority::Normal, None, 7, 1, 0);
    assert!(matches!(sched.next_action(0, 0), WriterAction::Retry));
    assert_eq!(sched.queue_len(), 1);
}

#[test]
fn shutdown_drains_the_queue() {
    let mut sched = IoScheduler::new(test_config(), 0);
    let _ = sched.submit(IoPriority::Background, None, 1, 1, 0);
    let _ = sched.submit(IoPriority::Normal, None, 2, 1, 0);
    sched.shutdown();
    assert_eq!(drain(&mut sched, 0), vec![2, 1]);
}

#[test]
fn deadlines_by_class() {
    assert!(IoPriority::Critical.default_deadline(0).is_none());
    assert!(IoPriority::Normal.default_deadline(0).is_some());
}
