use chat_relay::message::ChatMessage;
use chat_relay::registry::{Delivery, Registry, QUEUE_CAPACITY};
use chat_relay::roster::Roster;
use chat_relay::message::User;
use tokio::sync::mpsc::error::TryRecvError;

fn message(from: &str, msg: &str, time: &str) -> ChatMessage {
    ChatMessage::new(from.to_string(), msg.to_string(), time.to_string())
}

#[test]
fn subscribers_get_fresh_increasing_ids() {
    let mut registry = Registry::new();
    let a = registry.subscribe().unwrap();
    let b = registry.subscribe().unwrap();
    let c = registry.subscribe().unwrap();
    assert_eq!((a.id, b.id, c.id), (0, 1, 2));
    assert_eq!(registry.subscriber_ids(), vec![0, 1, 2]);
    assert_eq!(registry.len(), 3);
}

#[test]
fn publish_without_subscribers_reports_nothing() {
    let mut registry = Registry::new();
    let report = registry.publish(&message("alice", "hi", "9:05"));
    assert!(report.is_empty());
    assert_eq!(registry.len(), 0);
}

#[test]
fn every_live_subscriber_receives_the_message() {
    let mut registry = Registry::new();
    let mut subs: Vec<_> = (0..5).map(|_| registry.subscribe().unwrap()).collect();
    let m = message("bob", "hello", "10:3");
    let report = registry.publish(&m);
    assert_eq!(report.len(), 5);
    for (i, d) in report.iter().enumerate() {
        assert_eq!(*d, Delivery { subscriber: i as u64, delivered: true });
    }
    for s in subs.iter_mut() {
        assert_eq!(s.receiver.try_recv().unwrap(), m);
        assert!(matches!(s.receiver.try_recv(), Err(TryRecvError::Empty)));
    }
    assert_eq!(registry.len(), 5);
}

#[test]
fn messages_arrive_in_publish_order() {
    let mut registry = Registry::new();
    let mut s1 = registry.subscribe().unwrap();
    let mut s2 = registry.subscribe().unwrap();
    let first = message("alice", "one", "9:0");
    let second = message("bob", "two", "9:1");
    let third = message("alice", "three", "9:2");
    registry.publish(&first);
    registry.publish(&second);
    registry.publish(&third);
    for s in [&mut s1, &mut s2] {
        assert_eq!(s.receiver.try_recv().unwrap(), first);
        assert_eq!(s.receiver.try_recv().unwrap(), second);
        assert_eq!(s.receiver.try_recv().unwrap(), third);
    }
}

#[test]
fn closed_subscriber_is_evicted_and_gets_nothing() {
    let mut registry = Registry::new();
    let mut s1 = registry.subscribe().unwrap();
    let mut s2 = registry.subscribe().unwrap();
    s1.receiver.close();
    let m = message("alice", "hi", "9:05");
    let report = registry.publish(&m);
    assert_eq!(
        report,
        vec![
            Delivery { subscriber: 0, delivered: false },
            Delivery { subscriber: 1, delivered: true },
        ]
    );
    assert!(s1.receiver.try_recv().is_err());
    assert_eq!(s2.receiver.try_recv().unwrap(), m);
    assert_eq!(registry.subscriber_ids(), vec![1]);
}

#[test]
fn dropped_receiver_is_evicted() {
    let mut registry = Registry::new();
    let s1 = registry.subscribe().unwrap();
    let _s2 = registry.subscribe().unwrap();
    drop(s1);
    registry.publish(&message("a", "b", "1:2"));
    assert_eq!(registry.subscriber_ids(), vec![1]);
}

#[test]
fn full_queue_is_evicted_without_blocking_others() {
    let mut registry = Registry::new();
    let mut slow = registry.subscribe().unwrap();
    let mut live = registry.subscribe().unwrap();
    for i in 0..QUEUE_CAPACITY {
        let m = message("a", &i.to_string(), "0:0");
        registry.publish(&m);
        assert_eq!(live.receiver.try_recv().unwrap(), m);
    }
    assert_eq!(registry.len(), 2);
    let overflow = message("a", "overflow", "0:1");
    let report = registry.publish(&overflow);
    assert_eq!(
        report,
        vec![
            Delivery { subscriber: slow.id, delivered: false },
            Delivery { subscriber: live.id, delivered: true },
        ]
    );
    assert_eq!(live.receiver.try_recv().unwrap(), overflow);
    assert_eq!(registry.subscriber_ids(), vec![live.id]);
    assert_eq!(slow.receiver.try_recv().unwrap().msg, "0");
}

#[test]
fn queue_holds_exactly_its_capacity() {
    assert_eq!(QUEUE_CAPACITY, 1000);
    let mut registry = Registry::new();
    let _s = registry.subscribe().unwrap();
    for _ in 0..QUEUE_CAPACITY {
        let report = registry.publish(&message("a", "x", "0:0"));
        assert!(report[0].delivered);
    }
    let report = registry.publish(&message("a", "x", "0:0"));
    assert!(!report[0].delivered);
    assert_eq!(registry.len(), 0);
}

#[test]
fn evicted_subscriber_is_not_attempted_again() {
    let mut registry = Registry::new();
    let s1 = registry.subscribe().unwrap();
    let _s2 = registry.subscribe().unwrap();
    drop(s1);
    registry.publish(&message("a", "one", "0:0"));
    let _s3 = registry.subscribe().unwrap();
    let report = registry.publish(&message("a", "two", "0:0"));
    let attempted: Vec<u64> = report.iter().map(|d| d.subscriber).collect();
    assert_eq!(attempted, vec![1, 2]);
}

#[test]
fn join_subscribe_send_close_scenario() {
    let mut roster = Roster::new();
    let r = roster.join(User::new("0".to_string(), "alice".to_string()));
    assert_eq!(r.error, 0);
    let r = roster.join(User::new("0".to_string(), "alice".to_string()));
    assert_eq!(r.error, 1);
    assert_eq!(r.msg, "User already exists.");

    let mut registry = Registry::new();
    let mut s1 = registry.subscribe().unwrap();
    let mut s2 = registry.subscribe().unwrap();
    let hi = message("alice", "hi", "9:05");
    registry.publish(&hi);
    assert_eq!(s1.receiver.try_recv().unwrap(), hi);
    assert_eq!(s2.receiver.try_recv().unwrap(), hi);
    assert!(s1.receiver.try_recv().is_err());
    assert!(s2.receiver.try_recv().is_err());

    s1.receiver.close();
    let again = message("alice", "again", "9:06");
    let report = registry.publish(&again);
    assert_eq!(report.len(), 2);
    assert!(!report[0].delivered);
    assert!(s1.receiver.try_recv().is_err());
    assert_eq!(s2.receiver.try_recv().unwrap(), again);
    assert!(s2.receiver.try_recv().is_err());

    let report = registry.publish(&message("alice", "third", "9:07"));
    assert_eq!(report, vec![Delivery { subscriber: s2.id, delivered: true }]);
}

#[test]
fn prune_drops_exactly_the_refused_subscribers() {
    let mut registry = Registry::new();
    let _a = registry.subscribe().unwrap();
    let _b = registry.subscribe().unwrap();
    let _c = registry.subscribe().unwrap();
    let report = registry.prune(&vec![true, false, true]);
    assert_eq!(
        report,
        vec![
            Delivery { subscriber: 0, delivered: true },
            Delivery { subscriber: 1, delivered: false },
            Delivery { subscriber: 2, delivered: true },
        ]
    );
    assert_eq!(registry.subscriber_ids(), vec![0, 2]);
}

#[test]
fn prune_keeps_queues_with_their_subscribers() {
    let mut registry = Registry::new();
    let mut a = registry.subscribe().unwrap();
    let mut b = registry.subscribe().unwrap();
    registry.prune(&vec![false, true]);
    let m = message("alice", "after", "9:10");
    let report = registry.publish(&m);
    assert_eq!(report, vec![Delivery { subscriber: 1, delivered: true }]);
    assert_eq!(b.receiver.try_recv().unwrap(), m);
    assert!(a.receiver.try_recv().is_err());
}

#[test]
fn new_subscriber_does_not_see_earlier_messages() {
    let mut registry = Registry::new();
    let mut early = registry.subscribe().unwrap();
    let first = message("alice", "first", "9:00");
    registry.publish(&first);
    let mut late = registry.subscribe().unwrap();
    assert!(matches!(late.receiver.try_recv(), Err(TryRecvError::Empty)));
    let second = message("alice", "second", "9:01");
    registry.publish(&second);
    assert_eq!(early.receiver.try_recv().unwrap(), first);
    assert_eq!(early.receiver.try_recv().unwrap(), second);
    assert_eq!(late.receiver.try_recv().unwrap(), second);
    assert!(late.receiver.try_recv().is_err());
}
