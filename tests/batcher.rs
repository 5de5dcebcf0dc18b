use teleport_batcher::batcher::{Action, Batcher, Command, Wakeup};

fn enq(s: &str) -> Wakeup<String> {
    Wakeup::Received(Command::Enqueue(s.to_string()))
}

fn close() -> Wakeup<String> {
    Wakeup::Received(Command::Close)
}

fn batch(items: &[&str]) -> Vec<String> {
    items.iter().map(|s| s.to_string()).collect()
}

#[test]
fn coalescing_many_enqueues_one_tick() {
    let mut b: Batcher<String> = Batcher::new();
    for name in ["a", "b", "c", "d"] {
        assert_eq!(b.step(enq(name)), Action::Wait);
    }
    assert_eq!(b.step(Wakeup::Tick), Action::Flush(batch(&["a", "b", "c", "d"])));
    assert!(!b.should_flush());
    assert!(!b.is_finished());
}

#[test]
fn coalescing_through_run() {
    let mut b: Batcher<String> = Batcher::new();
    let flushes = b.run(vec![enq("x"), enq("y"), enq("z"), Wakeup::Tick]);
    assert_eq!(flushes, vec![batch(&["x", "y", "z"])]);
}

#[test]
fn tick_with_nothing_pending_flushes_nothing() {
    let mut b: Batcher<String> = Batcher::new();
    assert_eq!(b.step(Wakeup::Tick), Action::Wait);
    let flushes = b.run(vec![Wakeup::Tick, Wakeup::Tick, Wakeup::Tick]);
    assert!(flushes.is_empty());
    assert!(!b.is_finished());
}

#[test]
fn tick_after_flush_is_quiet() {
    let mut b: Batcher<String> = Batcher::new();
    let flushes = b.run(vec![enq("a"), Wakeup::Tick, Wakeup::Tick]);
    assert_eq!(flushes, vec![batch(&["a"])]);
}

#[test]
fn shutdown_drains_pending() {
    let mut b: Batcher<String> = Batcher::new();
    let flushes = b.run(vec![enq("A"), enq("B"), close()]);
    assert_eq!(flushes, vec![batch(&["A", "B"])]);
    assert!(b.is_finished());
    assert!(!b.should_flush());
}

#[test]
fn shutdown_step_flushes_and_finishes() {
    let mut b: Batcher<String> = Batcher::new();
    b.step(enq("A"));
    b.step(enq("B"));
    assert_eq!(b.step(close()), Action::FlushAndFinish(batch(&["A", "B"])));
    assert!(b.is_finished());
}

#[test]
fn close_with_nothing_pending() {
    let mut b: Batcher<String> = Batcher::new();
    assert_eq!(b.step(close()), Action::Finish);
    assert!(b.is_finished());
    let mut c: Batcher<String> = Batcher::new();
    assert!(c.run(vec![close()]).is_empty());
    assert!(c.is_finished());
}

#[test]
fn ticks_cut_batches_in_order() {
    let mut b: Batcher<String> = Batcher::new();
    let flushes = b.run(vec![enq("A"), Wakeup::Tick, enq("B"), enq("C"), Wakeup::Tick]);
    assert_eq!(flushes, vec![batch(&["A"]), batch(&["B", "C"])]);
}

#[test]
fn disconnect_acts_as_close() {
    let mut b: Batcher<String> = Batcher::new();
    let flushes = b.run(vec![enq("A"), Wakeup::Disconnected]);
    assert_eq!(flushes, vec![batch(&["A"])]);
    assert!(b.is_finished());
    let mut c: Batcher<String> = Batcher::new();
    assert_eq!(c.step(Wakeup::Disconnected), Action::Finish);
}

#[test]
fn nothing_after_close_is_processed() {
    let mut b: Batcher<String> = Batcher::new();
    let flushes = b.run(vec![enq("A"), close(), enq("B"), close(), Wakeup::Tick]);
    assert_eq!(flushes, vec![batch(&["A"])]);
    assert!(b.is_finished());
    assert!(b.run(vec![enq("C"), Wakeup::Tick]).is_empty());
}

#[test]
fn duplicates_are_kept() {
    let mut b: Batcher<String> = Batcher::new();
    let flushes = b.run(vec![enq("A"), enq("A"), Wakeup::Tick]);
    assert_eq!(flushes, vec![batch(&["A", "A"])]);
}

#[test]
fn push_service_fills_pending() {
    let mut b: Batcher<u32> = Batcher::new();
    assert!(!b.should_flush());
    b.push_service(7);
    assert!(b.should_flush());
    assert_eq!(b.step(Wakeup::Tick), Action::Flush(vec![7]));
}

#[test]
fn run_resumes_from_current_state() {
    let mut b: Batcher<u32> = Batcher::new();
    assert!(b.run(vec![Wakeup::Received(Command::Enqueue(1))]).is_empty());
    let flushes = b.run(vec![Wakeup::Received(Command::Enqueue(2)), Wakeup::Tick]);
    assert_eq!(flushes, vec![vec![1, 2]]);
}
