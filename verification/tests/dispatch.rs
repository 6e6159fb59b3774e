use blamejules::Cmd;
use blamejules::Gate;
use blamejules::Pool;
use blamejules::QUEUE_CAPACITY;
use blamejules::Rgb;
use blamejules::Vec2;

fn px(i: u32) -> Cmd {
    Cmd::SetPx(Vec2(i, i + 1), Rgb((i % 256) as u8, 7, 9))
}

fn drain(pool: &mut Pool, w: usize) {
    while pool.workers[w].queue.len() > 0 {
        pool.worker_step(w, true);
    }
}

#[test]
fn pool_delivers_every_command_exactly_once() {
    let n = 3;
    let mut pool = Pool::new(n, 4);
    let mut submitted: Vec<String> = Vec::new();
    for i in 0..10u32 {
        let cmd = px(i);
        assert!(pool.try_enqueue((i as usize) % n, cmd));
        submitted.push(cmd.to_string());
    }
    for w in 0..n {
        drain(&mut pool, w);
    }
    let mut seen: Vec<String> = Vec::new();
    for w in 0..n {
        assert!(pool.workers[w].queue.is_empty());
        assert!(pool.workers[w].failed.is_empty());
        for cmd in &pool.workers[w].sent {
            seen.push(cmd.to_string());
        }
    }
    submitted.sort();
    seen.sort();
    assert_eq!(seen, submitted);
}

#[test]
fn pool_random_submission_loses_nothing() {
    let n = 4;
    let mut pool = Pool::new(n, QUEUE_CAPACITY);
    for i in 0..100u32 {
        assert!(pool.submit(px(i)));
    }
    let pending: usize = (0..n).map(|w| pool.workers[w].queue.len()).sum();
    assert_eq!(pending, 100);
}

#[test]
fn pool_backpressure_refuses_and_recovers() {
    let mut pool = Pool::new(1, 2);
    assert!(pool.try_enqueue(0, px(0)));
    assert!(pool.try_enqueue(0, px(1)));
    // The queue is at capacity: the submission is refused, not dropped.
    assert!(!pool.try_enqueue(0, px(2)));
    assert_eq!(pool.workers[0].queue.len(), 2);
    assert_eq!(pool.workers[0].queue[0].to_string(), px(0).to_string());
    // One worker step makes room; the suspended submission then completes.
    assert_eq!(pool.worker_step(0, true), Some(px(0)));
    assert!(pool.try_enqueue(0, px(2)));
    assert_eq!(pool.workers[0].queue.len(), 2);
}

#[test]
fn pool_failed_send_is_isolated() {
    let mut pool = Pool::new(2, 8);
    assert!(pool.try_enqueue(0, px(0)));
    assert!(pool.try_enqueue(0, px(1)));
    assert!(pool.try_enqueue(0, px(2)));
    // The first send fails: the command lands in the failed log and the
    // worker goes on with the next command.
    assert_eq!(pool.worker_step(0, false), Some(px(0)));
    assert_eq!(pool.workers[0].failed, vec![px(0)]);
    assert_eq!(pool.worker_step(0, true), Some(px(1)));
    assert_eq!(pool.worker_step(0, true), Some(px(2)));
    assert_eq!(pool.workers[0].sent, vec![px(1), px(2)]);
    assert!(pool.workers[0].queue.is_empty());
}

#[test]
fn pool_empty_queue_step_is_a_no_op() {
    let mut pool = Pool::new(1, 2);
    assert_eq!(pool.worker_step(0, true), None);
    assert!(pool.workers[0].sent.is_empty());
    assert!(pool.workers[0].failed.is_empty());
}

#[test]
fn pool_pick_stays_in_range() {
    let pool = Pool::new(5, 2);
    for _ in 0..200 {
        assert!(pool.pick() < 5);
    }
}

#[test]
fn gate_caps_in_flight_sends() {
    let mut gate = Gate::new(3);
    assert!(gate.try_begin());
    assert!(gate.try_begin());
    assert!(gate.try_begin());
    // The cap is reached: a fourth logical send must wait.
    assert!(!gate.try_begin());
    assert_eq!(gate.in_flight, 3);
    gate.finish(px(0), true);
    assert!(gate.try_begin());
    assert_eq!(gate.in_flight, 3);
}

#[test]
fn gate_logs_wire_order_and_contains_failures() {
    let mut gate = Gate::new(2);
    assert!(gate.try_begin());
    assert!(gate.try_begin());
    gate.finish(px(0), true);
    gate.finish(px(1), false);
    assert!(gate.try_begin());
    gate.finish(px(2), true);
    assert_eq!(gate.sent, vec![px(0), px(2)]);
    assert_eq!(gate.failed, vec![px(1)]);
    assert_eq!(gate.in_flight, 0);
}

#[test]
fn pool_submission_refused_only_when_a_queue_is_full() {
    // One worker with a queue of one: the first submission is accepted,
    // the second can only be refused because that queue is full.
    let mut pool = Pool::new(1, 1);
    assert!(pool.submit(px(0)));
    assert!(!pool.submit(px(1)));
    assert_eq!(pool.workers[0].queue.len(), 1);
    // Draining makes room and submissions are accepted again.
    assert_eq!(pool.worker_step(0, true), Some(px(0)));
    assert!(pool.submit(px(1)));
}
