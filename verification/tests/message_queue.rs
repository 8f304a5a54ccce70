use botcore::message_queue::{MessageQueue, WaitPoll};
use botcore::CommandError;

#[test]
fn wait_before_notify_is_woken() {
    let mut queue = MessageQueue::new();
    queue.register_sent(7);
    assert!(queue.is_registered(7));
    let poll = queue.wait_for_message(7);
    assert_eq!(poll, WaitPoll::Pending(0));
    let woken = queue.notify_delivered(7);
    assert_eq!(woken, vec![0]);
}

#[test]
fn wait_after_notify_completes_immediately() {
    let mut queue = MessageQueue::new();
    let woken = queue.notify_delivered(7);
    assert!(woken.is_empty());
    // A waiter arriving after the confirmation must not hang: it gets the
    // same successful outcome at once.
    let poll = queue.wait_for_message(7);
    assert_eq!(poll, WaitPoll::Complete(Ok(())));
}

#[test]
fn two_waiters_one_notification() {
    let mut queue = MessageQueue::new();
    let first = queue.wait_for_message(7);
    let second = queue.wait_for_message(7);
    assert_eq!(first, WaitPoll::Pending(0));
    assert_eq!(second, WaitPoll::Pending(1));
    let woken = queue.notify_delivered(7);
    assert!(woken.contains(&0));
    assert!(woken.contains(&1));
    assert_eq!(woken.len(), 2);
    // Nobody is left pending: a second notification wakes no one.
    let again = queue.notify_delivered(7);
    assert!(again.is_empty());
}

#[test]
fn timed_out_waiter_is_removed() {
    let mut queue = MessageQueue::new();
    let poll_a = queue.wait_for_message(5);
    let poll_b = queue.wait_for_message(9);
    assert_eq!(poll_a, WaitPoll::Pending(0));
    assert_eq!(poll_b, WaitPoll::Pending(1));
    // The waiter for 5 times out and is abandoned.
    queue.abandon_wait(5, 0);
    // An unrelated notification must not resurrect or misfire it.
    let woken_other = queue.notify_delivered(9);
    assert_eq!(woken_other, vec![1]);
    let woken_own = queue.notify_delivered(5);
    assert!(woken_own.is_empty());
}

#[test]
fn failed_delivery_reaches_waiters() {
    let mut queue = MessageQueue::new();
    let poll = queue.wait_for_message(3);
    assert_eq!(poll, WaitPoll::Pending(0));
    let woken = queue.notify_failed(3);
    assert_eq!(woken, vec![0]);
    // A late waiter receives the recorded failure.
    let late = queue.wait_for_message(3);
    assert_eq!(late, WaitPoll::Complete(Err(CommandError::DeliveryFailed)));
}
