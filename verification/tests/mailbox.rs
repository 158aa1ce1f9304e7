//! Unit tests for the bounded mailbox and the small helpers.

use room_relay::mailbox::{EnqueueOutcome, Mailbox, MAILBOX_CAPACITY};
use room_relay::map_1;
use room_relay::message::Message;

#[test]
fn mailbox_accepts_up_to_capacity() {
    let mut mb = Mailbox::new(3);
    assert_eq!(mb.sub_id(), 3);
    assert_eq!(mb.len(), 0);
    assert!(!mb.is_closed());
    for i in 0..MAILBOX_CAPACITY as u32 {
        assert_eq!(mb.try_enqueue(Message::OfferFile { file: i }), EnqueueOutcome::Enqueued);
    }
    assert_eq!(mb.len(), MAILBOX_CAPACITY);
    // the eleventh attempt reports Full and drops the new message
    assert_eq!(mb.try_enqueue(Message::OfferFile { file: 99 }), EnqueueOutcome::Full);
    assert_eq!(mb.len(), MAILBOX_CAPACITY);
    // the queue drains oldest-first
    assert_eq!(mb.dequeue(), Some(Message::OfferFile { file: 0 }));
    assert_eq!(mb.dequeue(), Some(Message::OfferFile { file: 1 }));
    assert_eq!(mb.len(), MAILBOX_CAPACITY - 2);
}

#[test]
fn closed_mailbox_reports_closed() {
    let mut mb = Mailbox::new(0);
    assert_eq!(mb.try_enqueue(Message::OfferFile { file: 1 }), EnqueueOutcome::Enqueued);
    mb.close();
    assert!(mb.is_closed());
    assert_eq!(
        mb.try_enqueue(Message::AnswerConnection { answer_sdp: "s".to_string() }),
        EnqueueOutcome::Closed
    );
    // what was queued before the close is untouched
    assert_eq!(mb.len(), 1);
    assert_eq!(mb.dequeue(), Some(Message::OfferFile { file: 1 }));
    assert_eq!(mb.dequeue(), None);
}

#[test]
fn empty_mailbox_dequeues_nothing() {
    let mut mb = Mailbox::new(7);
    assert_eq!(mb.dequeue(), None);
    assert_eq!(mb.len(), 0);
}

#[test]
fn messages_compare_by_payload() {
    let a = Message::AcceptFileOfferConnection { file: 4, offer_sdp: "sdp".to_string() };
    let b = Message::AcceptFileOfferConnection { file: 4, offer_sdp: "sdp".to_string() };
    assert_eq!(a, b);
    assert_eq!(a.clone(), b);
    assert_ne!(a, Message::OfferFile { file: 4 });
}

#[test]
fn map_1_builds_a_one_entry_map() {
    let m = map_1("msg".to_string(), "post_room_message".to_string());
    assert_eq!(m.len(), 1);
    assert_eq!(m.get("msg"), Some(&"post_room_message".to_string()));
}
