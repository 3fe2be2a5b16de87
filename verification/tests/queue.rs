use reconciler::key::ObjectKey;
use reconciler::queue::{Polled, QueueItem, WorkQueue};

fn key(name: &str) -> ObjectKey {
    ObjectKey::new("Deployment", "default", name)
}

fn ready(name: &str, not_before: u64, attempt: u64) -> Polled {
    Polled::Ready(QueueItem { key: key(name), not_before, attempt })
}

#[test]
fn new_queue_is_open_and_empty() {
    let mut q = WorkQueue::new();
    assert_eq!(q.len(), 0);
    assert!(!q.is_closed());
    assert_eq!(q.get(0), Polled::Idle(None));
    assert_eq!(q.attempts(&key("a")), 0);
    assert!(!q.is_in_flight(&key("a")));
    assert_eq!(q.not_before(&key("a")), None);
}

#[test]
fn add_then_get_hands_the_key_out() {
    let mut q = WorkQueue::new();
    q.add(&key("a"), 10);
    assert_eq!(q.len(), 1);
    assert_eq!(q.not_before(&key("a")), Some(10));
    assert_eq!(q.get(10), ready("a", 10, 0));
    assert_eq!(q.len(), 0);
    assert!(q.is_in_flight(&key("a")));
}

#[test]
fn add_twice_keeps_one_entry() {
    let mut q = WorkQueue::new();
    q.add(&key("a"), 10);
    q.add(&key("a"), 20);
    q.add(&key("a"), 10);
    assert_eq!(q.len(), 1);
    assert_eq!(q.not_before(&key("a")), Some(10));
    assert_eq!(q.get(30), ready("a", 10, 0));
    assert_eq!(q.get(30), Polled::Idle(None));
}

#[test]
fn keys_differ_by_every_field() {
    let mut q = WorkQueue::new();
    q.add(&ObjectKey::new("Deployment", "a", "web"), 0);
    q.add(&ObjectKey::new("Deployment", "b", "web"), 0);
    q.add(&ObjectKey::new("Deployment", "a", "api"), 0);
    q.add(&ObjectKey::new("StatefulSet", "a", "web"), 0);
    q.add(&ObjectKey::new("Deployment", "a", "web"), 0);
    assert_eq!(q.len(), 4);
}

#[test]
fn add_after_sets_not_before_to_now_plus_delay() {
    let mut q = WorkQueue::new();
    q.add_after(&key("a"), 5_000, 1_000);
    assert_eq!(q.not_before(&key("a")), Some(6_000));
}

#[test]
fn add_after_shorter_delay_wins() {
    let mut q = WorkQueue::new();
    q.add_after(&key("k"), 9_000, 100);
    q.add_after(&key("k"), 2_000, 100);
    assert_eq!(q.len(), 1);
    assert_eq!(q.not_before(&key("k")), Some(2_100));
}

#[test]
fn add_after_longer_delay_does_not_postpone() {
    let mut q = WorkQueue::new();
    q.add_after(&key("k"), 2_000, 100);
    q.add_after(&key("k"), 9_000, 100);
    assert_eq!(q.not_before(&key("k")), Some(2_100));
    q.add(&key("k"), 150);
    assert_eq!(q.not_before(&key("k")), Some(150));
    q.add_after(&key("k"), 0, 700);
    assert_eq!(q.not_before(&key("k")), Some(150));
}

#[test]
fn add_after_zero_delay_is_due_at_once() {
    let mut q = WorkQueue::new();
    q.add_after(&key("a"), 0, 42);
    assert_eq!(q.get(42), ready("a", 42, 0));
}

#[test]
fn get_holds_back_a_key_that_is_not_due() {
    let mut q = WorkQueue::new();
    q.add_after(&key("a"), 5_000, 1_000);
    assert_eq!(q.get(1_000), Polled::Idle(Some(6_000)));
    assert_eq!(q.get(5_999), Polled::Idle(Some(6_000)));
    assert_eq!(q.len(), 1);
    assert!(!q.is_in_flight(&key("a")));
    assert_eq!(q.get(6_000), ready("a", 6_000, 0));
}

#[test]
fn get_takes_the_earliest_first() {
    let mut q = WorkQueue::new();
    q.add_after(&key("late"), 300, 0);
    q.add_after(&key("early"), 100, 0);
    q.add_after(&key("middle"), 200, 0);
    assert_eq!(q.get(50), Polled::Idle(Some(100)));
    assert_eq!(q.get(1_000), ready("early", 100, 0));
    assert_eq!(q.get(1_000), ready("middle", 200, 0));
    assert_eq!(q.get(1_000), ready("late", 300, 0));
    assert_eq!(q.get(1_000), Polled::Idle(None));
}

#[test]
fn get_breaks_ties_by_insertion_order() {
    let mut q = WorkQueue::new();
    q.add(&key("c"), 7);
    q.add(&key("a"), 7);
    q.add(&key("b"), 7);
    assert_eq!(q.get(7), ready("c", 7, 0));
    assert_eq!(q.get(7), ready("a", 7, 0));
    assert_eq!(q.get(7), ready("b", 7, 0));
}

#[test]
fn merged_entry_keeps_its_place_in_line() {
    let mut q = WorkQueue::new();
    q.add_after(&key("a"), 100, 0);
    q.add(&key("b"), 10);
    q.add(&key("a"), 10);
    assert_eq!(q.get(10), ready("a", 10, 0));
    assert_eq!(q.get(10), ready("b", 10, 0));
}

#[test]
fn key_in_flight_is_not_handed_out_again() {
    let mut q = WorkQueue::new();
    q.add(&key("a"), 0);
    assert_eq!(q.get(0), ready("a", 0, 0));
    q.add(&key("a"), 1);
    q.add_after(&key("a"), 0, 2);
    q.add(&key("b"), 3);
    assert_eq!(q.get(100), ready("b", 3, 0));
    assert_eq!(q.get(100), Polled::Idle(None));
    assert!(q.is_in_flight(&key("a")));
}

#[test]
fn readd_in_flight_gives_exactly_one_delivery_after_done() {
    let mut q = WorkQueue::new();
    q.add(&key("a"), 0);
    assert_eq!(q.get(0), ready("a", 0, 0));
    q.add(&key("a"), 1);
    q.add(&key("a"), 2);
    q.add(&key("a"), 3);
    assert!(q.is_dirty(&key("a")));
    assert_eq!(q.len(), 0);
    assert_eq!(q.get(4), Polled::Idle(None));
    q.done(&key("a"), 5);
    assert!(!q.is_in_flight(&key("a")));
    assert!(!q.is_dirty(&key("a")));
    assert_eq!(q.len(), 1);
    assert_eq!(q.get(5), ready("a", 5, 0));
    q.done(&key("a"), 6);
    assert_eq!(q.get(1_000), Polled::Idle(None));
    assert_eq!(q.len(), 0);
}

#[test]
fn done_without_readd_leaves_nothing_queued() {
    let mut q = WorkQueue::new();
    q.add(&key("a"), 0);
    assert_eq!(q.get(0), ready("a", 0, 0));
    q.done(&key("a"), 1);
    assert!(!q.is_in_flight(&key("a")));
    assert_eq!(q.len(), 0);
    assert_eq!(q.get(100), Polled::Idle(None));
}

#[test]
fn done_of_a_key_not_in_flight_changes_nothing() {
    let mut q = WorkQueue::new();
    q.add(&key("a"), 5);
    q.done(&key("a"), 6);
    q.done(&key("b"), 6);
    assert_eq!(q.len(), 1);
    assert_eq!(q.not_before(&key("a")), Some(5));
    assert!(!q.is_in_flight(&key("b")));
}

#[test]
fn delayed_add_in_flight_is_held_until_done_and_due() {
    let mut q = WorkQueue::new();
    q.add(&key("a"), 0);
    assert_eq!(q.get(0), ready("a", 0, 0));
    q.add_after(&key("a"), 50, 10);
    assert!(!q.is_dirty(&key("a")));
    assert_eq!(q.get(100), Polled::Idle(None));
    q.done(&key("a"), 20);
    assert_eq!(q.get(59), Polled::Idle(Some(60)));
    assert_eq!(q.get(60), ready("a", 60, 0));
}

#[test]
fn dirty_readd_beats_a_later_delayed_entry() {
    let mut q = WorkQueue::new();
    q.add(&key("a"), 0);
    assert_eq!(q.get(0), ready("a", 0, 0));
    q.add_after(&key("a"), 500, 10);
    q.add(&key("a"), 11);
    q.done(&key("a"), 20);
    assert_eq!(q.len(), 1);
    assert_eq!(q.not_before(&key("a")), Some(20));
}

#[test]
fn fail_counts_and_forget_resets() {
    let mut q = WorkQueue::new();
    assert_eq!(q.attempts(&key("a")), 0);
    q.fail(&key("a"));
    q.fail(&key("a"));
    q.fail(&key("b"));
    assert_eq!(q.attempts(&key("a")), 2);
    assert_eq!(q.attempts(&key("b")), 1);
    q.forget(&key("a"));
    assert_eq!(q.attempts(&key("a")), 0);
    assert_eq!(q.attempts(&key("b")), 1);
    q.forget(&key("a"));
    assert_eq!(q.attempts(&key("a")), 0);
}

#[test]
fn forget_and_fail_do_not_touch_membership() {
    let mut q = WorkQueue::new();
    q.add(&key("a"), 3);
    q.add(&key("b"), 4);
    assert_eq!(q.get(3), ready("a", 3, 0));
    q.add(&key("a"), 4);
    q.fail(&key("a"));
    q.fail(&key("b"));
    q.forget(&key("a"));
    assert!(q.is_in_flight(&key("a")));
    assert!(q.is_dirty(&key("a")));
    assert_eq!(q.len(), 1);
    assert_eq!(q.not_before(&key("b")), Some(4));
    assert_eq!(q.get(4), ready("b", 4, 1));
}

#[test]
fn item_carries_the_failure_streak() {
    let mut q = WorkQueue::new();
    q.fail(&key("a"));
    q.fail(&key("a"));
    q.add(&key("a"), 0);
    assert_eq!(q.get(0), ready("a", 0, 2));
    q.done(&key("a"), 1);
    assert_eq!(q.attempts(&key("a")), 2);
}

#[test]
fn closed_and_empty_gives_shutdown() {
    let mut q = WorkQueue::new();
    q.close();
    assert!(q.is_closed());
    assert_eq!(q.get(0), Polled::Shutdown);
    assert_eq!(q.get(1), Polled::Shutdown);
}

#[test]
fn closed_queue_drains_before_shutdown() {
    let mut q = WorkQueue::new();
    q.add(&key("a"), 0);
    q.add_after(&key("b"), 100, 0);
    q.close();
    assert_eq!(q.get(0), ready("a", 0, 0));
    assert_eq!(q.get(0), Polled::Idle(Some(100)));
    assert_eq!(q.get(100), ready("b", 100, 0));
    assert_eq!(q.get(100), Polled::Shutdown);
}

#[test]
fn closed_queue_ignores_adds() {
    let mut q = WorkQueue::new();
    q.close();
    q.add(&key("a"), 0);
    q.add_after(&key("b"), 10, 0);
    assert_eq!(q.len(), 0);
    assert_eq!(q.get(100), Polled::Shutdown);
}

#[test]
fn closed_queue_still_requeues_a_dirty_key_on_done() {
    let mut q = WorkQueue::new();
    q.add(&key("a"), 0);
    assert_eq!(q.get(0), ready("a", 0, 0));
    q.add(&key("a"), 1);
    q.close();
    q.add(&key("a"), 2);
    assert_eq!(q.get(3), Polled::Shutdown);
    q.done(&key("a"), 4);
    assert_eq!(q.get(4), ready("a", 4, 0));
    q.done(&key("a"), 5);
    assert_eq!(q.get(5), Polled::Shutdown);
}

#[test]
fn times_at_the_end_of_the_range() {
    let mut q = WorkQueue::new();
    q.add_after(&key("a"), u64::MAX, 0);
    q.add_after(&key("b"), 0, u64::MAX);
    q.add_after(&key("c"), 1, u64::MAX - 1);
    assert_eq!(q.get(u64::MAX - 1), Polled::Idle(Some(u64::MAX)));
    assert_eq!(q.get(u64::MAX), ready("a", u64::MAX, 0));
    assert_eq!(q.get(u64::MAX), ready("b", u64::MAX, 0));
    assert_eq!(q.get(u64::MAX), ready("c", u64::MAX, 0));
}

#[test]
fn many_keys_keep_their_own_state() {
    let mut q = WorkQueue::new();
    let names: Vec<String> = (0..50).map(|i| format!("k{}", i)).collect();
    for (i, name) in names.iter().enumerate() {
        q.add_after(&key(name), (50 - i) as u64, 0);
    }
    assert_eq!(q.len(), 50);
    for i in (0..50).rev() {
        assert_eq!(q.get(1_000), ready(&names[i], (50 - i) as u64, 0));
    }
    for name in names.iter() {
        assert!(q.is_in_flight(&key(name)));
        q.done(&key(name), 2_000);
    }
    for name in names.iter() {
        assert!(!q.is_in_flight(&key(name)));
    }
    assert_eq!(q.get(3_000), Polled::Idle(None));
}
