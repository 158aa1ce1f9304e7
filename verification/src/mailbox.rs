//! A subscriber's bounded mailbox: a FIFO queue of messages with a fixed
//! capacity and an explicit closed state.

use vstd::prelude::*;
use crate::message::Message;

verus! {

/// How many undelivered messages one mailbox can hold.
pub const MAILBOX_CAPACITY: usize = 10;

/// Outcome of a non-blocking enqueue attempt into a mailbox.
#[derive(Debug, PartialEq, Eq)]
pub enum EnqueueOutcome {
    /// The message was appended to the mailbox's queue.
    Enqueued,
    /// The queue already held `MAILBOX_CAPACITY` messages; the new message
    /// was dropped, the queued ones were kept.
    Full,
    /// The consuming side is gone; nothing will ever be delivered again.
    Closed,
}

/// The mathematical model of one mailbox: its subscriber handle, the queued
/// messages in arrival order, and whether its consumer is gone.
#[verifier::ext_equal]
pub struct MailboxModel {
    pub sub: u64,
    pub queue: Seq<Message>,
    pub closed: bool,
}

impl MailboxModel {
    /// A mailbox never holds more than `MAILBOX_CAPACITY` messages.
    pub open spec fn wf(self) -> bool {
        self.queue.len() <= MAILBOX_CAPACITY
    }

    /// A freshly created mailbox: open and empty.
    pub open spec fn fresh(sub: u64) -> MailboxModel {
        MailboxModel { sub, queue: Seq::empty(), closed: false }
    }
}

/// What one non-blocking delivery attempt leaves in an open mailbox: the
/// message is appended if a slot is free, otherwise the queue is unchanged
/// and the new message is the one that is dropped.
pub open spec fn deliver_model(m: MailboxModel, msg: Message) -> MailboxModel {
    if m.queue.len() < MAILBOX_CAPACITY {
        MailboxModel { queue: m.queue.push(msg), ..m }
    } else {
        m
    }
}

/// A bounded FIFO queue of messages belonging to one subscriber of one room.
/// The room keeps the producing side; the consuming side drains it through
/// the registry and eventually closes it.
pub struct Mailbox {
    sub: u64,
    queue: Vec<Message>,
    closed: bool,
}

impl View for Mailbox {
    type V = MailboxModel;

    closed spec fn view(&self) -> MailboxModel {
        MailboxModel { sub: self.sub, queue: self.queue@, closed: self.closed }
    }
}

impl Mailbox {
    pub open spec fn wf(&self) -> bool {
        self@.wf()
    }

    /// A new, open, empty mailbox for subscriber `sub`.
    pub fn new(sub: u64) -> (r: Mailbox)
        ensures
            r@ == MailboxModel::fresh(sub),
            r.wf(),
    {
        Mailbox { sub, queue: Vec::new(), closed: false }
    }

    /// The subscriber handle this mailbox was created for.
    pub fn sub_id(&self) -> (s: u64)
        ensures
            s == self@.sub,
    {
        self.sub
    }

    /// How many messages are queued and not yet consumed.
    pub fn len(&self) -> (n: usize)
        ensures
            n == self@.queue.len(),
    {
        self.queue.len()
    }

    /// Whether the consuming side is gone.
    pub fn is_closed(&self) -> (b: bool)
        ensures
            b == self@.closed,
    {
        self.closed
    }

    /// Non-blocking enqueue: never waits on the consumer. A full mailbox
    /// keeps its queued messages and reports `Full`; a closed one is left
    /// untouched and reports `Closed`.
    pub fn try_enqueue(&mut self, msg: Message) -> (r: EnqueueOutcome)
        requires
            old(self).wf(),
        ensures
            final(self).wf(),
            old(self)@.closed ==> r is Closed && final(self)@ == old(self)@,
            !old(self)@.closed ==> final(self)@ == deliver_model(old(self)@, msg),
            !old(self)@.closed && old(self)@.queue.len() < MAILBOX_CAPACITY ==> r is Enqueued,
            !old(self)@.closed && old(self)@.queue.len() >= MAILBOX_CAPACITY ==> r is Full,
    {
        if self.closed {
            EnqueueOutcome::Closed
        } else if self.queue.len() < MAILBOX_CAPACITY {
            self.queue.push(msg);
            EnqueueOutcome::Enqueued
        } else {
            EnqueueOutcome::Full
        }
    }

    /// Consumer side: take the oldest queued message, if any.
    pub fn dequeue(&mut self) -> (r: Option<Message>)
        requires
            old(self).wf(),
        ensures
            final(self).wf(),
            final(self)@.sub == old(self)@.sub,
            final(self)@.closed == old(self)@.closed,
            old(self)@.queue.len() == 0 ==> r is None && final(self)@ == old(self)@,
            old(self)@.queue.len() > 0 ==> r == Some(old(self)@.queue[0]) && final(self)@.queue
                == old(self)@.queue.drop_first(),
    {
        if self.queue.len() > 0 {
            let m = self.queue.remove(0);
            proof {
                assert(old(self)@.queue.remove(0) =~= old(self)@.queue.drop_first());
            }
            Some(m)
        } else {
            None
        }
    }

    /// Consumer side: the consumer stops reading for good. No transition
    /// back to open exists.
    pub fn close(&mut self)
        requires
            old(self).wf(),
        ensures
            final(self).wf(),
            final(self)@ == (MailboxModel { closed: true, ..old(self)@ }),
    {
        self.closed = true;
    }
}

} // verus!
