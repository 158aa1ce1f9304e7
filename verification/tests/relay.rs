//! Scenario tests for the room registry: subscribing, publishing, eviction
//! and the backpressure policy, all through the public registry interface.

use room_relay::message::Message;
use room_relay::registry::{Registry, RoomId};

fn rid(s: &str) -> RoomId {
    RoomId::new(s.to_string())
}

#[test]
fn ensure_room_creates_once() {
    let mut reg = Registry::new();
    let id = rid("abc");
    assert!(!reg.room_exists(&id));
    assert!(!reg.ensure_room(&id));
    assert!(reg.room_exists(&id));
    // however many callers repeat it, the one room stays as it is
    for _ in 0..8 {
        assert!(reg.ensure_room(&id));
    }
    assert!(reg.room_exists(&id));
    assert_eq!(reg.subscriber_count(&id), Some(0));
}

#[test]
fn distinct_ids_name_distinct_rooms() {
    let mut reg = Registry::new();
    let a = rid("a");
    let b = rid("b");
    assert!(!reg.ensure_room(&a));
    assert!(!reg.ensure_room(&b));
    let s = reg.subscribe(&a);
    reg.publish(&a, Message::OfferFile { file: 1 });
    assert_eq!(reg.subscriber_count(&a), Some(1));
    assert_eq!(reg.subscriber_count(&b), Some(0));
    assert_eq!(reg.dequeue(&b, s), None);
    assert_eq!(reg.dequeue(&a, s), Some(Message::OfferFile { file: 1 }));
}

#[test]
fn publish_to_room_without_subscribers_is_a_registered_noop() {
    let mut reg = Registry::new();
    let id = rid("lonely");
    reg.publish(&id, Message::OfferFile { file: 3 });
    // the publish succeeded and the room is registered afterwards
    assert!(reg.room_exists(&id));
    assert_eq!(reg.subscriber_count(&id), Some(0));
}

#[test]
fn messages_arrive_in_publish_order() {
    let mut reg = Registry::new();
    let id = rid("ordered");
    let s = reg.subscribe(&id);
    reg.publish(&id, Message::OfferFile { file: 1 });
    reg.publish(&id, Message::AnswerConnection { answer_sdp: "x".to_string() });
    reg.publish(&id, Message::AcceptFileOfferConnection { file: 2, offer_sdp: "y".to_string() });
    assert_eq!(reg.dequeue(&id, s), Some(Message::OfferFile { file: 1 }));
    assert_eq!(
        reg.dequeue(&id, s),
        Some(Message::AnswerConnection { answer_sdp: "x".to_string() })
    );
    assert_eq!(
        reg.dequeue(&id, s),
        Some(Message::AcceptFileOfferConnection { file: 2, offer_sdp: "y".to_string() })
    );
    assert_eq!(reg.dequeue(&id, s), None);
}

#[test]
fn two_subscribers_and_a_closed_one_evicted() {
    let mut reg = Registry::new();
    let id = rid("abc");
    assert!(!reg.ensure_room(&id));
    let s1 = reg.subscribe(&id);
    let s2 = reg.subscribe(&id);
    assert_ne!(s1, s2);
    reg.publish(&id, Message::OfferFile { file: 7 });
    // both observe exactly that message, exactly once
    assert_eq!(reg.dequeue(&id, s1), Some(Message::OfferFile { file: 7 }));
    assert_eq!(reg.dequeue(&id, s1), None);
    assert_eq!(reg.dequeue(&id, s2), Some(Message::OfferFile { file: 7 }));
    assert_eq!(reg.dequeue(&id, s2), None);
    // close the first consumer; only the second observes the next publish
    reg.close(&id, s1);
    reg.publish(&id, Message::AnswerConnection { answer_sdp: "sdp-x".to_string() });
    assert_eq!(
        reg.dequeue(&id, s2),
        Some(Message::AnswerConnection { answer_sdp: "sdp-x".to_string() })
    );
    assert_eq!(reg.dequeue(&id, s1), None);
    // the publish evicted the closed mailbox for good
    assert!(!reg.is_subscribed(&id, s1));
    assert!(reg.is_subscribed(&id, s2));
    reg.publish(&id, Message::OfferFile { file: 8 });
    assert!(!reg.is_subscribed(&id, s1));
    assert_eq!(reg.subscriber_count(&id), Some(1));
}

#[test]
fn full_mailbox_drops_the_new_message_and_stays() {
    let mut reg = Registry::new();
    let id = rid("full");
    let s1 = reg.subscribe(&id);
    for i in 0..10u32 {
        reg.publish(&id, Message::OfferFile { file: i });
    }
    assert_eq!(reg.mailbox_len(&id, s1), Some(10));
    // the eleventh publish succeeds; the subscriber keeps its ten messages
    reg.publish(&id, Message::AnswerConnection { answer_sdp: "late".to_string() });
    assert!(reg.is_subscribed(&id, s1));
    assert_eq!(reg.mailbox_len(&id, s1), Some(10));
    // the original ten come out unchanged and in order; the eleventh is gone
    for i in 0..10u32 {
        assert_eq!(reg.dequeue(&id, s1), Some(Message::OfferFile { file: i }));
    }
    assert_eq!(reg.dequeue(&id, s1), None);
}

#[test]
fn draining_a_slot_makes_room_again() {
    let mut reg = Registry::new();
    let id = rid("drain");
    let s = reg.subscribe(&id);
    for i in 0..10u32 {
        reg.publish(&id, Message::OfferFile { file: i });
    }
    assert_eq!(reg.dequeue(&id, s), Some(Message::OfferFile { file: 0 }));
    reg.publish(&id, Message::OfferFile { file: 10 });
    assert_eq!(reg.mailbox_len(&id, s), Some(10));
    for i in 1..11u32 {
        assert_eq!(reg.dequeue(&id, s), Some(Message::OfferFile { file: i }));
    }
}

#[test]
fn low_level_operations_report_missing_rooms() {
    let mut reg = Registry::new();
    let id = rid("nowhere");
    // the low-level primitives report the absent room; nothing is created
    assert_eq!(reg.add_room_message_receiver(&id), None);
    assert!(!reg.send_message(&id, Message::OfferFile { file: 1 }));
    assert!(!reg.room_exists(&id));
    // once ensured, both succeed
    reg.ensure_room(&id);
    let h = reg.add_room_message_receiver(&id).expect("room exists now");
    assert!(reg.send_message(&id, Message::OfferFile { file: 2 }));
    assert_eq!(reg.dequeue(&id, h), Some(Message::OfferFile { file: 2 }));
}

#[test]
fn dequeue_and_close_on_unknown_handles_do_nothing() {
    let mut reg = Registry::new();
    let id = rid("r");
    let s = reg.subscribe(&id);
    assert_eq!(reg.dequeue(&id, s + 1), None);
    reg.close(&id, s + 1);
    reg.close(&rid("other"), 0);
    assert!(reg.is_subscribed(&id, s));
    // closing twice is harmless
    reg.close(&id, s);
    reg.close(&id, s);
    assert!(reg.is_subscribed(&id, s));
    reg.publish(&id, Message::OfferFile { file: 1 });
    assert!(!reg.is_subscribed(&id, s));
}

#[test]
fn subscriber_handles_grow_per_room() {
    let mut reg = Registry::new();
    let a = rid("a");
    let b = rid("b");
    assert_eq!(reg.subscribe(&a), 0);
    assert_eq!(reg.subscribe(&a), 1);
    assert_eq!(reg.subscribe(&b), 0);
    assert_eq!(reg.subscribe(&a), 2);
    assert_eq!(reg.subscriber_count(&a), Some(3));
    assert_eq!(reg.subscriber_count(&b), Some(1));
}
