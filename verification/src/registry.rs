//! The room registry: a mapping from room identifier to room state, and the
//! per-room fan-out of published messages.

use vstd::prelude::*;
use crate::mailbox::{deliver_model, EnqueueOutcome, Mailbox, MailboxModel};
use crate::message::Message;

verus! {

/// An opaque string identifier for a room, supplied by clients. Two room
/// identifiers name the same room exactly when their characters are equal.
pub struct RoomId(pub String);

impl View for RoomId {
    type V = Seq<char>;

    open spec fn view(&self) -> Seq<char> {
        self.0@
    }
}

impl RoomId {
    pub fn new(s: String) -> (r: RoomId)
        ensures
            r@ == s@,
    {
        RoomId(s)
    }
}

impl Clone for RoomId {
    fn clone(&self) -> (res: RoomId)
        ensures
            res == *self,
    {
        RoomId(self.0.clone())
    }
}

/// No two mailboxes of one room answer to the same subscriber handle.
pub open spec fn boxes_distinct(boxes: Seq<MailboxModel>) -> bool {
    forall|i: int, j: int|
        0 <= i < boxes.len() && 0 <= j < boxes.len() && i != j ==> (#[trigger] boxes[i]).sub != (
        #[trigger] boxes[j]).sub
}

/// Whether some mailbox of the collection answers to handle `sub`.
pub open spec fn has_sub(boxes: Seq<MailboxModel>, sub: u64) -> bool {
    exists|i: int| 0 <= i < boxes.len() && (#[trigger] boxes[i]).sub == sub
}

/// The position of the mailbox answering to handle `sub`; meaningful only
/// when `has_sub` holds, and unique under `boxes_distinct`.
pub open spec fn sub_index(boxes: Seq<MailboxModel>, sub: u64) -> int {
    choose|i: int| 0 <= i < boxes.len() && (#[trigger] boxes[i]).sub == sub
}

/// One publish as seen by a whole mailbox collection: every closed mailbox
/// is evicted, every open one receives one non-blocking delivery attempt,
/// in collection order.
pub open spec fn fan_out(boxes: Seq<MailboxModel>, msg: Message) -> Seq<MailboxModel>
    decreases boxes.len(),
{
    if boxes.len() == 0 {
        Seq::empty()
    } else if boxes[0].closed {
        fan_out(boxes.drop_first(), msg)
    } else {
        seq![deliver_model(boxes[0], msg)] + fan_out(boxes.drop_first(), msg)
    }
}

/// The mathematical model of one room: the handle the next subscriber will
/// get, and the mailboxes currently attached, in insertion order.
#[verifier::ext_equal]
pub struct RoomModel {
    pub next_sub: u64,
    pub boxes: Seq<MailboxModel>,
}

impl RoomModel {
    /// A room right after its creation: no subscribers yet.
    pub open spec fn empty() -> RoomModel {
        RoomModel { next_sub: 0, boxes: Seq::empty() }
    }

    pub open spec fn wf(self) -> bool {
        &&& boxes_distinct(self.boxes)
        &&& (forall|i: int| 0 <= i < self.boxes.len() ==> (#[trigger] self.boxes[i]).wf())
        &&& (forall|i: int|
            0 <= i < self.boxes.len() ==> (#[trigger] self.boxes[i]).sub <= self.next_sub)
        &&& (self.next_sub < u64::MAX ==> forall|i: int|
            0 <= i < self.boxes.len() ==> (#[trigger] self.boxes[i]).sub < self.next_sub)
    }
}

/// What one publish leaves of a whole room.
pub open spec fn published_model(rm: RoomModel, msg: Message) -> RoomModel {
    RoomModel { next_sub: rm.next_sub, boxes: fan_out(rm.boxes, msg) }
}

/// What one subscribe leaves of a whole room: a fresh, open, empty mailbox
/// under the minted handle `rm.next_sub` is appended. Should that handle
/// still be held by an old mailbox (possible only once the handle counter
/// has reached its ceiling), the old mailbox gives way to the new one.
pub open spec fn subscribed_model(rm: RoomModel) -> RoomModel {
    let cleared = if has_sub(rm.boxes, rm.next_sub) {
        rm.boxes.remove(sub_index(rm.boxes, rm.next_sub))
    } else {
        rm.boxes
    };
    RoomModel {
        next_sub: if rm.next_sub < u64::MAX {
            (rm.next_sub + 1) as u64
        } else {
            u64::MAX
        },
        boxes: cleared.push(MailboxModel::fresh(rm.next_sub)),
    }
}

/// What the consumer holding `sub` gets from one dequeue: the oldest queued
/// message of its mailbox, if that mailbox is attached and holds one.
pub open spec fn dequeue_result(rm: RoomModel, sub: u64) -> Option<Message> {
    if has_sub(rm.boxes, sub) && rm.boxes[sub_index(rm.boxes, sub)].queue.len() > 0 {
        Some(rm.boxes[sub_index(rm.boxes, sub)].queue[0])
    } else {
        None
    }
}

/// What one dequeue by the consumer holding `sub` leaves of a whole room.
pub open spec fn dequeued_model(rm: RoomModel, sub: u64) -> RoomModel {
    if has_sub(rm.boxes, sub) && rm.boxes[sub_index(rm.boxes, sub)].queue.len() > 0 {
        let i = sub_index(rm.boxes, sub);
        RoomModel {
            next_sub: rm.next_sub,
            boxes: rm.boxes.update(
                i,
                MailboxModel { queue: rm.boxes[i].queue.drop_first(), ..rm.boxes[i] },
            ),
        }
    } else {
        rm
    }
}

/// What remains of a whole room once the consumer holding `sub` is gone:
/// its mailbox, if still attached, is closed; eviction waits for the next
/// publish.
pub open spec fn closed_model(rm: RoomModel, sub: u64) -> RoomModel {
    if has_sub(rm.boxes, sub) {
        let i = sub_index(rm.boxes, sub);
        RoomModel {
            next_sub: rm.next_sub,
            boxes: rm.boxes.update(i, MailboxModel { closed: true, ..rm.boxes[i] }),
        }
    } else {
        rm
    }
}

/// Distinct handles and bounded queues, together: what every room's mailbox
/// collection satisfies at all times.
pub open spec fn boxes_wf(boxes: Seq<MailboxModel>) -> bool {
    &&& boxes_distinct(boxes)
    &&& (forall|i: int| 0 <= i < boxes.len() ==> (#[trigger] boxes[i]).wf())
}

/// Fan-out never introduces a subscriber handle that was not already
/// present.
pub proof fn lemma_fan_out_membership(boxes: Seq<MailboxModel>, msg: Message)
    ensures
        forall|j: int|
            0 <= j < fan_out(boxes, msg).len() ==> has_sub(
                boxes,
                (#[trigger] fan_out(boxes, msg)[j]).sub,
            ),
    decreases boxes.len(),
{
    if boxes.len() == 0 {
    } else {
        let tail = boxes.drop_first();
        lemma_fan_out_membership(tail, msg);
        let rest = fan_out(tail, msg);
        assert forall|j: int|
            0 <= j < fan_out(boxes, msg).len() implies has_sub(
            boxes,
            (#[trigger] fan_out(boxes, msg)[j]).sub,
        ) by {
            let out = fan_out(boxes, msg);
            if boxes[0].closed {
                assert(out[j] == rest[j]);
                let w = choose|w: int| 0 <= w < tail.len() && (#[trigger] tail[w]).sub == rest[j].sub;
                assert(boxes[w + 1].sub == out[j].sub);
            } else {
                if j == 0 {
                    assert(out[0].sub == boxes[0].sub);
                } else {
                    assert(out[j] == rest[j - 1]);
                    let w = choose|w: int|
                        0 <= w < tail.len() && (#[trigger] tail[w]).sub == rest[j - 1].sub;
                    assert(boxes[w + 1].sub == out[j].sub);
                }
            }
        }
    }
}

/// Fan-out keeps every mailbox well formed, never introduces a subscriber
/// handle that was not already present, and keeps the handles distinct.
pub proof fn lemma_fan_out_wf(boxes: Seq<MailboxModel>, msg: Message)
    requires
        boxes_distinct(boxes),
        forall|i: int| 0 <= i < boxes.len() ==> (#[trigger] boxes[i]).wf(),
    ensures
        boxes_distinct(fan_out(boxes, msg)),
        forall|j: int| 0 <= j < fan_out(boxes, msg).len() ==> (#[trigger] fan_out(boxes, msg)[j]).wf(),
        forall|j: int|
            0 <= j < fan_out(boxes, msg).len() ==> has_sub(boxes, (#[trigger] fan_out(boxes, msg)[j]).sub),
    decreases boxes.len(),
{
    if boxes.len() == 0 {
    } else {
        let tail = boxes.drop_first();
        assert forall|i: int| 0 <= i < tail.len() implies (#[trigger] tail[i]).wf() by {
            assert(tail[i] == boxes[i + 1]);
        }
        assert(boxes_distinct(tail)) by {
            assert forall|i: int, j: int|
                0 <= i < tail.len() && 0 <= j < tail.len() && i != j implies (#[trigger] tail[i]).sub
                != (#[trigger] tail[j]).sub by {
                assert(tail[i] == boxes[i + 1]);
                assert(tail[j] == boxes[j + 1]);
            }
        }
        lemma_fan_out_wf(tail, msg);
        let rest = fan_out(tail, msg);
        assert forall|j: int| 0 <= j < rest.len() implies has_sub(boxes, (#[trigger] rest[j]).sub) by {
            assert(has_sub(tail, rest[j].sub));
            let w = choose|i: int| 0 <= i < tail.len() && (#[trigger] tail[i]).sub == rest[j].sub;
            assert(boxes[w + 1].sub == rest[j].sub);
        }
        if boxes[0].closed {
        } else {
            let out = seq![deliver_model(boxes[0], msg)] + rest;
            assert(out[0].sub == boxes[0].sub);
            assert forall|j: int| 0 <= j < out.len() implies has_sub(boxes, (#[trigger] out[j]).sub) by {
                if j > 0 {
                    assert(out[j] == rest[j - 1]);
                }
            }
            assert(boxes_distinct(out)) by {
                assert forall|i: int, j: int|
                    0 <= i < out.len() && 0 <= j < out.len() && i != j implies (#[trigger] out[i]).sub
                    != (#[trigger] out[j]).sub by {
                    if i == 0 {
                        assert(out[j] == rest[j - 1]);
                        assert(has_sub(tail, out[j].sub));
                        let w = choose|w: int|
                            0 <= w < tail.len() && (#[trigger] tail[w]).sub == out[j].sub;
                        assert(boxes[w + 1].sub == out[j].sub);
                    } else if j == 0 {
                        assert(out[i] == rest[i - 1]);
                        assert(has_sub(tail, out[i].sub));
                        let w = choose|w: int|
                            0 <= w < tail.len() && (#[trigger] tail[w]).sub == out[i].sub;
                        assert(boxes[w + 1].sub == out[i].sub);
                    } else {
                        assert(out[i] == rest[i - 1]);
                        assert(out[j] == rest[j - 1]);
                    }
                }
            }
            assert forall|j: int| 0 <= j < out.len() implies (#[trigger] out[j]).wf() by {
                if j > 0 {
                    assert(out[j] == rest[j - 1]);
                }
            }
        }
    }
}

/// One room: its identifier, the handle counter for new subscribers, and the
/// mailboxes of its current subscribers in insertion order. The room owns
/// only the producing side of each mailbox; consumers reach theirs through
/// the handle that `add_mailbox` minted.
pub struct Room {
    id: RoomId,
    next_sub: u64,
    boxes: Vec<Mailbox>,
}

impl View for Room {
    type V = RoomModel;

    closed spec fn view(&self) -> RoomModel {
        RoomModel { next_sub: self.next_sub, boxes: self.boxes@.map_values(|b: Mailbox| b@) }
    }
}

impl Room {
    /// The identifier this room was created under.
    pub closed spec fn id_spec(&self) -> Seq<char> {
        self.id@
    }

    pub open spec fn wf(&self) -> bool {
        self@.wf()
    }

    /// A new room with no subscribers.
    pub fn new(id: RoomId) -> (r: Room)
        ensures
            r@ == RoomModel::empty(),
            r.id_spec() == id@,
            r.wf(),
    {
        let r = Room { id, next_sub: 0, boxes: Vec::new() };
        proof {
            assert(r@.boxes =~= Seq::<MailboxModel>::empty());
            assert(r@ =~= RoomModel::empty());
        }
        r
    }

    /// The position of the mailbox answering to `sub`, if it is attached.
    fn find_sub(&self, sub: u64) -> (r: Option<usize>)
        ensures
            match r {
                Some(i) => i < self@.boxes.len() && self@.boxes[i as int].sub == sub,
                None => !has_sub(self@.boxes, sub),
            },
    {
        let mut i: usize = 0;
        while i < self.boxes.len()
            invariant
                i <= self.boxes@.len(),
                forall|j: int| 0 <= j < i ==> (#[trigger] self@.boxes[j]).sub != sub,
            decreases self.boxes@.len() - i,
        {
            if self.boxes[i].sub_id() == sub {
                return Some(i);
            }
            i = i + 1;
        }
        None
    }

    /// Attach a fresh, open, empty mailbox and return the handle minted for
    /// it. Never fails: should the handle counter have reached its ceiling,
    /// the mailbox that still holds the ceiling handle gives way.
    pub fn add_mailbox(&mut self) -> (h: u64)
        requires
            old(self).wf(),
        ensures
            final(self).wf(),
            final(self).id_spec() == old(self).id_spec(),
            h == old(self)@.next_sub,
            final(self)@ == subscribed_model(old(self)@),
            old(self)@.next_sub < u64::MAX ==> final(self)@.boxes == old(self)@.boxes.push(
                MailboxModel::fresh(h),
            ),
    {
        let ghost pre = self@;
        let h = self.next_sub;
        match self.find_sub(h) {
            Some(i) => {
                proof {
                    assert(sub_index(pre.boxes, h) == i as int);
                }
                self.boxes.remove(i);
                proof {
                    assert(self@.boxes =~= pre.boxes.remove(i as int));
                }
            },
            None => {},
        }
        let ghost cleared = self@.boxes;
        if self.next_sub < u64::MAX {
            self.next_sub = self.next_sub + 1;
        }
        self.boxes.push(Mailbox::new(h));
        proof {
            assert(self@.boxes =~= cleared.push(MailboxModel::fresh(h)));
            assert(self@ =~= subscribed_model(pre));
            assert forall|i: int|
                0 <= i < self@.boxes.len() implies (#[trigger] self@.boxes[i]).sub
                <= self@.next_sub && ((self@.next_sub < u64::MAX ==> self@.boxes[i].sub
                < self@.next_sub)) by {
                if i < self@.boxes.len() - 1 {
                    assert(has_sub(pre.boxes, self@.boxes[i].sub)) by {
                        if has_sub(pre.boxes, h) {
                            let k = sub_index(pre.boxes, h);
                            let w = if i < k {
                                i
                            } else {
                                i + 1
                            };
                            assert(pre.boxes[w].sub == self@.boxes[i].sub);
                        } else {
                            assert(pre.boxes[i].sub == self@.boxes[i].sub);
                        }
                    }
                }
            }
            assert(boxes_distinct(self@.boxes)) by {
                assert forall|i: int, j: int|
                    0 <= i < self@.boxes.len() && 0 <= j < self@.boxes.len() && i
                    != j implies (#[trigger] self@.boxes[i]).sub != (#[trigger] self@.boxes[j]).sub
                by {
                    let last = self@.boxes.len() - 1;
                    if has_sub(pre.boxes, h) {
                        let k = sub_index(pre.boxes, h);
                        if i < last && j < last {
                            let wi = if i < k {
                                i
                            } else {
                                i + 1
                            };
                            let wj = if j < k {
                                j
                            } else {
                                j + 1
                            };
                            assert(pre.boxes[wi].sub == self@.boxes[i].sub);
                            assert(pre.boxes[wj].sub == self@.boxes[j].sub);
                        } else if i == last {
                            let wj = if j < k {
                                j
                            } else {
                                j + 1
                            };
                            assert(pre.boxes[wj].sub == self@.boxes[j].sub);
                            assert(pre.boxes[wj].sub != h);
                        } else {
                            let wi = if i < k {
                                i
                            } else {
                                i + 1
                            };
                            assert(pre.boxes[wi].sub == self@.boxes[i].sub);
                            assert(pre.boxes[wi].sub != h);
                        }
                    }
                }
            }
        }
        h
    }

    /// Deliver one message to every attached mailbox, non-blocking, in
    /// insertion order, and evict the mailboxes whose consumers are gone.
    /// A full mailbox keeps what it already holds; the new message is the
    /// one dropped for that subscriber.
    pub fn publish_into(&mut self, msg: &Message)
        requires
            old(self).wf(),
        ensures
            final(self).wf(),
            final(self).id_spec() == old(self).id_spec(),
            final(self)@ == published_model(old(self)@, *msg),
    {
        let ghost pre = self@;
        let ghost pre_id = self.id@;
        let mut kept: Vec<Mailbox> = Vec::new();
        proof {
            assert(kept@.map_values(|b: Mailbox| b@) + fan_out(self@.boxes, *msg) =~= fan_out(
                pre.boxes,
                *msg,
            ));
        }
        while self.boxes.len() > 0
            invariant
                self.next_sub == pre.next_sub,
                self.id@ == pre_id,
                forall|j: int| 0 <= j < self@.boxes.len() ==> (#[trigger] self@.boxes[j]).wf(),
                kept@.map_values(|b: Mailbox| b@) + fan_out(self@.boxes, *msg) == fan_out(
                    pre.boxes,
                    *msg,
                ),
            decreases self.boxes@.len(),
        {
            let ghost remaining = self@.boxes;
            let ghost kept_pre = kept@.map_values(|b: Mailbox| b@);
            let mut b = self.boxes.remove(0);
            proof {
                assert(self@.boxes =~= remaining.drop_first());
                assert(b@ == remaining[0]);
            }
            let outcome = b.try_enqueue(msg.clone());
            match outcome {
                EnqueueOutcome::Closed => {
                    proof {
                        assert(remaining[0].closed);
                        assert(fan_out(remaining, *msg) == fan_out(remaining.drop_first(), *msg));
                    }
                },
                _ => {
                    kept.push(b);
                    proof {
                        assert(!remaining[0].closed);
                        assert(b@ == deliver_model(remaining[0], *msg));
                        assert(kept@.map_values(|b: Mailbox| b@) =~= kept_pre.push(b@));
                        assert(kept@.map_values(|b: Mailbox| b@) + fan_out(
                            remaining.drop_first(),
                            *msg,
                        ) =~= kept_pre + fan_out(remaining, *msg));
                    }
                },
            }
        }
        proof {
            assert(self@.boxes =~= Seq::<MailboxModel>::empty());
            assert(kept@.map_values(|b: Mailbox| b@) =~= fan_out(pre.boxes, *msg)) by {
                assert(fan_out(Seq::<MailboxModel>::empty(), *msg) =~= Seq::<MailboxModel>::empty());
                assert(kept@.map_values(|b: Mailbox| b@) + Seq::<MailboxModel>::empty()
                    =~= kept@.map_values(|b: Mailbox| b@));
            }
        }
        self.boxes = kept;
        proof {
            assert(self@.boxes =~= fan_out(pre.boxes, *msg));
            assert(self@ =~= published_model(pre, *msg));
            lemma_fan_out_wf(pre.boxes, *msg);
            assert forall|i: int|
                0 <= i < self@.boxes.len() implies (#[trigger] self@.boxes[i]).sub <= self@.next_sub
                && (self@.next_sub < u64::MAX ==> self@.boxes[i].sub < self@.next_sub) by {
                assert(has_sub(pre.boxes, self@.boxes[i].sub));
                let w = choose|w: int|
                    0 <= w < pre.boxes.len() && (#[trigger] pre.boxes[w]).sub
                        == self@.boxes[i].sub;
            }
        }
    }

    /// Consumer side: take the oldest undelivered message of the mailbox
    /// answering to `sub`, if that mailbox is attached and holds one.
    pub fn dequeue_from(&mut self, sub: u64) -> (r: Option<Message>)
        requires
            old(self).wf(),
        ensures
            final(self).wf(),
            final(self).id_spec() == old(self).id_spec(),
            r == dequeue_result(old(self)@, sub),
            final(self)@ == dequeued_model(old(self)@, sub),
    {
        let ghost pre = self@;
        match self.find_sub(sub) {
            None => None,
            Some(i) => {
                proof {
                    assert(sub_index(pre.boxes, sub) == i as int);
                }
                let mut b = self.boxes.remove(i);
                let r = b.dequeue();
                self.boxes.insert(i, b);
                proof {
                    assert(self@.boxes =~= pre.boxes.update(i as int, b@));
                    if pre.boxes[i as int].queue.len() == 0 {
                        assert(self@.boxes =~= pre.boxes);
                        assert(self@ =~= dequeued_model(pre, sub));
                    } else {
                        assert(b@ =~= (MailboxModel {
                            queue: pre.boxes[i as int].queue.drop_first(),
                            ..pre.boxes[i as int]
                        }));
                        assert(self@ =~= dequeued_model(pre, sub));
                    }
                }
                r
            },
        }
    }

    /// Consumer side: the subscriber holding `sub` stops reading for good.
    /// The mailbox stays attached until the next publish evicts it.
    pub fn close_sub(&mut self, sub: u64)
        requires
            old(self).wf(),
        ensures
            final(self).wf(),
            final(self).id_spec() == old(self).id_spec(),
            final(self)@ == closed_model(old(self)@, sub),
    {
        let ghost pre = self@;
        match self.find_sub(sub) {
            None => {},
            Some(i) => {
                proof {
                    assert(sub_index(pre.boxes, sub) == i as int);
                }
                let mut b = self.boxes.remove(i);
                b.close();
                self.boxes.insert(i, b);
                proof {
                    assert(self@.boxes =~= pre.boxes.update(i as int, b@));
                    assert(self@ =~= closed_model(pre, sub));
                }
            },
        }
    }

    /// How many mailboxes are currently attached.
    pub fn mailbox_count(&self) -> (n: usize)
        ensures
            n == self@.boxes.len(),
    {
        self.boxes.len()
    }

    /// Whether a mailbox answering to `sub` is still attached.
    pub fn has_mailbox(&self, sub: u64) -> (b: bool)
        ensures
            b == has_sub(self@.boxes, sub),
    {
        match self.find_sub(sub) {
            Some(_) => true,
            None => false,
        }
    }

    /// How many messages the mailbox answering to `sub` still queues, if it
    /// is attached.
    pub fn mailbox_len(&self, sub: u64) -> (n: Option<usize>)
        requires
            self.wf(),
        ensures
            match n {
                Some(c) => has_sub(self@.boxes, sub) && c == self@.boxes[sub_index(
                    self@.boxes,
                    sub,
                )].queue.len(),
                None => !has_sub(self@.boxes, sub),
            },
    {
        match self.find_sub(sub) {
            Some(i) => {
                proof {
                    assert(sub_index(self@.boxes, sub) == i as int);
                }
                Some(self.boxes[i].len())
            },
            None => None,
        }
    }
}

/// The room a registry holds under `k`, or a fresh empty one where it holds
/// none: what `ensure_room` guarantees to exist before the per-room work.
pub open spec fn room_or_empty(m: Map<Seq<char>, RoomModel>, k: Seq<char>) -> RoomModel {
    if m.contains_key(k) {
        m[k]
    } else {
        RoomModel::empty()
    }
}

/// What `ensure_room` leaves of a whole registry: untouched where the room
/// exists, extended by one empty room where it does not.
pub open spec fn ensured_model(
    m: Map<Seq<char>, RoomModel>,
    k: Seq<char>,
) -> Map<Seq<char>, RoomModel> {
    if m.contains_key(k) {
        m
    } else {
        m.insert(k, RoomModel::empty())
    }
}

/// The registry of all rooms, keyed by room identifier. It owns every room
/// exclusively; at most one room is ever alive per identifier, and a room,
/// once created, lives for the registry's whole lifetime.
pub struct Registry {
    rooms: Vec<Room>,
}

impl View for Registry {
    type V = Map<Seq<char>, RoomModel>;

    closed spec fn view(&self) -> Map<Seq<char>, RoomModel> {
        Map::new(
            |k: Seq<char>|
                exists|i: int|
                    0 <= i < self.rooms@.len() && (#[trigger] self.rooms@[i]).id_spec() == k,
            |k: Seq<char>| self.rooms@[self.room_index(k)]@,
        )
    }
}

impl Registry {
    /// The position of the room registered under `k`; meaningful only when
    /// the registry holds one, and unique under `wf`.
    closed spec fn room_index(&self, k: Seq<char>) -> int {
        choose|i: int| 0 <= i < self.rooms@.len() && (#[trigger] self.rooms@[i]).id_spec() == k
    }

    /// At most one room per identifier, and every room well formed.
    pub closed spec fn wf(&self) -> bool {
        &&& (forall|i: int, j: int|
            0 <= i < self.rooms@.len() && 0 <= j < self.rooms@.len() && i != j ==> (
            #[trigger] self.rooms@[i]).id_spec() != (#[trigger] self.rooms@[j]).id_spec())
        &&& (forall|i: int| 0 <= i < self.rooms@.len() ==> (#[trigger] self.rooms@[i]).wf())
    }

    /// Every room a well-formed registry holds is itself well formed.
    pub proof fn lemma_rooms_wf(&self)
        requires
            self.wf(),
        ensures
            forall|k: Seq<char>| self@.contains_key(k) ==> (#[trigger] self@[k]).wf(),
    {
        assert forall|k: Seq<char>| self@.contains_key(k) implies (#[trigger] self@[k]).wf() by {
            let i = self.room_index(k);
            assert(0 <= i < self.rooms@.len() && self.rooms@[i].id_spec() == k);
        }
    }

    /// An empty registry: no rooms at all.
    pub fn new() -> (r: Registry)
        ensures
            r.wf(),
            r@ == Map::<Seq<char>, RoomModel>::empty(),
    {
        let r = Registry { rooms: Vec::new() };
        proof {
            assert(r@ =~= Map::<Seq<char>, RoomModel>::empty());
        }
        r
    }

    /// The position of the room registered under `id`, if any.
    fn find_room(&self, id: &RoomId) -> (r: Option<usize>)
        ensures
            match r {
                Some(i) => i < self.rooms@.len() && self.rooms@[i as int].id_spec() == id@,
                None => forall|i: int|
                    0 <= i < self.rooms@.len() ==> (#[trigger] self.rooms@[i]).id_spec() != id@,
            },
    {
        let mut i: usize = 0;
        while i < self.rooms.len()
            invariant
                i <= self.rooms@.len(),
                forall|j: int| 0 <= j < i ==> (#[trigger] self.rooms@[j]).id_spec() != id@,
            decreases self.rooms@.len() - i,
        {
            if self.rooms[i].id.0 == id.0 {
                return Some(i);
            }
            i = i + 1;
        }
        None
    }
}

impl Registry {
    /// Make sure a room is registered under `id`, creating an empty one if
    /// none is, and report whether one already existed. Never fails.
    pub fn ensure_room(&mut self, id: &RoomId) -> (existed: bool)
        requires
            old(self).wf(),
        ensures
            final(self).wf(),
            existed == old(self)@.contains_key(id@),
            final(self)@ == ensured_model(old(self)@, id@),
            final(self)@.contains_key(id@),
    {
        let ghost pre = *self;
        match self.find_room(id) {
            Some(i) => {
                proof {
                    lemma_view_at(pre, i as int);
                }
                true
            },
            None => {
                self.rooms.push(Room::new(id.clone()));
                proof {
                    assert(self.rooms@ =~= pre.rooms@.push(
                        self.rooms@[pre.rooms@.len() as int],
                    ));
                    lemma_view_push(pre, *self, id@);
                }
                false
            },
        }
    }

    /// Register a fresh mailbox with the room under `id` and hand back the
    /// consumer's handle into it, or report that no such room exists.
    pub fn add_room_message_receiver(&mut self, id: &RoomId) -> (r: Option<u64>)
        requires
            old(self).wf(),
        ensures
            final(self).wf(),
            r is Some <==> old(self)@.contains_key(id@),
            r is None ==> final(self)@ == old(self)@,
            match r {
                Some(h) => h == old(self)@[id@].next_sub && final(self)@ == old(self)@.insert(
                    id@,
                    subscribed_model(old(self)@[id@]),
                ),
                None => true,
            },
    {
        let ghost pre = *self;
        match self.find_room(id) {
            None => {
                proof {
                    assert(!pre@.contains_key(id@));
                }
                None
            },
            Some(i) => {
                proof {
                    lemma_view_at(pre, i as int);
                }
                let mut room = self.rooms.remove(i);
                let h = room.add_mailbox();
                self.rooms.insert(i, room);
                proof {
                    assert(self.rooms@ =~= pre.rooms@.update(i as int, self.rooms@[i as int]));
                    lemma_view_replace(pre, *self, i as int);
                }
                Some(h)
            },
        }
    }

    /// Fan one message out to every mailbox of the room under `id`,
    /// non-blocking, evicting the closed ones, or report that no such room
    /// exists. A full mailbox keeps its queued messages; only the new one is
    /// dropped for that subscriber.
    pub fn send_message(&mut self, id: &RoomId, msg: Message) -> (r: bool)
        requires
            old(self).wf(),
        ensures
            final(self).wf(),
            r == old(self)@.contains_key(id@),
            !r ==> final(self)@ == old(self)@,
            r ==> final(self)@ == old(self)@.insert(
                id@,
                published_model(old(self)@[id@], msg),
            ),
    {
        let ghost pre = *self;
        match self.find_room(id) {
            None => {
                proof {
                    assert(!pre@.contains_key(id@));
                }
                false
            },
            Some(i) => {
                proof {
                    lemma_view_at(pre, i as int);
                }
                let mut room = self.rooms.remove(i);
                room.publish_into(&msg);
                self.rooms.insert(i, room);
                proof {
                    assert(self.rooms@ =~= pre.rooms@.update(i as int, self.rooms@[i as int]));
                    lemma_view_replace(pre, *self, i as int);
                }
                true
            },
        }
    }

    /// Join the room under `id`, creating it first if need be, and get the
    /// handle of a fresh mailbox that every later publish will reach. Never
    /// fails.
    pub fn subscribe(&mut self, id: &RoomId) -> (h: u64)
        requires
            old(self).wf(),
        ensures
            final(self).wf(),
            h == room_or_empty(old(self)@, id@).next_sub,
            final(self)@ == old(self)@.insert(
                id@,
                subscribed_model(room_or_empty(old(self)@, id@)),
            ),
    {
        let ghost pre = *self;
        self.ensure_room(id);
        let r = self.add_room_message_receiver(id);
        proof {
            assert(r is Some);
            assert(ensured_model(pre@, id@)[id@] == room_or_empty(pre@, id@));
            assert(self@ =~= pre@.insert(id@, subscribed_model(room_or_empty(pre@, id@))));
        }
        r.unwrap()
    }

    /// Publish one message into the room under `id`, creating the room first
    /// if need be. Never fails: a slow subscriber only loses this message, a
    /// gone subscriber is evicted, and the publisher is never blocked.
    pub fn publish(&mut self, id: &RoomId, msg: Message)
        requires
            old(self).wf(),
        ensures
            final(self).wf(),
            final(self)@ == old(self)@.insert(
                id@,
                published_model(room_or_empty(old(self)@, id@), msg),
            ),
    {
        let ghost pre = *self;
        self.ensure_room(id);
        let sent = self.send_message(id, msg);
        proof {
            assert(sent);
            assert(ensured_model(pre@, id@)[id@] == room_or_empty(pre@, id@));
            assert(self@ =~= pre@.insert(id@, published_model(room_or_empty(pre@, id@), msg)));
        }
    }

    /// Consumer side: take the oldest undelivered message from the mailbox
    /// `sub` of the room under `id`, if both still exist and one is queued.
    pub fn dequeue(&mut self, id: &RoomId, sub: u64) -> (r: Option<Message>)
        requires
            old(self).wf(),
        ensures
            final(self).wf(),
            !old(self)@.contains_key(id@) ==> r is None && final(self)@ == old(self)@,
            old(self)@.contains_key(id@) ==> r == dequeue_result(old(self)@[id@], sub)
                && final(self)@ == old(self)@.insert(id@, dequeued_model(old(self)@[id@], sub)),
    {
        let ghost pre = *self;
        match self.find_room(id) {
            None => {
                proof {
                    assert(!pre@.contains_key(id@));
                }
                None
            },
            Some(i) => {
                proof {
                    lemma_view_at(pre, i as int);
                }
                let mut room = self.rooms.remove(i);
                let r = room.dequeue_from(sub);
                self.rooms.insert(i, room);
                proof {
                    assert(self.rooms@ =~= pre.rooms@.update(i as int, self.rooms@[i as int]));
                    lemma_view_replace(pre, *self, i as int);
                }
                r
            },
        }
    }

    /// Consumer side: the subscriber holding `sub` in the room under `id`
    /// stops reading for good. Its mailbox stays until the next publish
    /// evicts it; no publish ever reaches it again.
    pub fn close(&mut self, id: &RoomId, sub: u64)
        requires
            old(self).wf(),
        ensures
            final(self).wf(),
            !old(self)@.contains_key(id@) ==> final(self)@ == old(self)@,
            old(self)@.contains_key(id@) ==> final(self)@ == old(self)@.insert(
                id@,
                closed_model(old(self)@[id@], sub),
            ),
    {
        let ghost pre = *self;
        match self.find_room(id) {
            None => {
                proof {
                    assert(!pre@.contains_key(id@));
                }
            },
            Some(i) => {
                proof {
                    lemma_view_at(pre, i as int);
                }
                let mut room = self.rooms.remove(i);
                room.close_sub(sub);
                self.rooms.insert(i, room);
                proof {
                    assert(self.rooms@ =~= pre.rooms@.update(i as int, self.rooms@[i as int]));
                    lemma_view_replace(pre, *self, i as int);
                }
            },
        }
    }

    /// Whether a room is registered under `id`.
    pub fn room_exists(&self, id: &RoomId) -> (b: bool)
        requires
            self.wf(),
        ensures
            b == self@.contains_key(id@),
    {
        match self.find_room(id) {
            Some(i) => {
                proof {
                    lemma_view_at(*self, i as int);
                }
                true
            },
            None => false,
        }
    }

    /// How many mailboxes the room under `id` currently holds.
    pub fn subscriber_count(&self, id: &RoomId) -> (n: Option<usize>)
        requires
            self.wf(),
        ensures
            match n {
                Some(c) => self@.contains_key(id@) && c == self@[id@].boxes.len(),
                None => !self@.contains_key(id@),
            },
    {
        match self.find_room(id) {
            Some(i) => {
                proof {
                    lemma_view_at(*self, i as int);
                }
                Some(self.rooms[i].mailbox_count())
            },
            None => None,
        }
    }

    /// Whether the mailbox `sub` is still attached to the room under `id`.
    pub fn is_subscribed(&self, id: &RoomId, sub: u64) -> (b: bool)
        requires
            self.wf(),
        ensures
            b == (self@.contains_key(id@) && has_sub(self@[id@].boxes, sub)),
    {
        match self.find_room(id) {
            Some(i) => {
                proof {
                    lemma_view_at(*self, i as int);
                }
                self.rooms[i].has_mailbox(sub)
            },
            None => false,
        }
    }

    /// How many messages the mailbox `sub` of the room under `id` still
    /// queues, if room and mailbox both exist.
    pub fn mailbox_len(&self, id: &RoomId, sub: u64) -> (n: Option<usize>)
        requires
            self.wf(),
        ensures
            match n {
                Some(c) => self@.contains_key(id@) && has_sub(self@[id@].boxes, sub) && c
                    == self@[id@].boxes[sub_index(self@[id@].boxes, sub)].queue.len(),
                None => !self@.contains_key(id@) || !has_sub(self@[id@].boxes, sub),
            },
    {
        match self.find_room(id) {
            Some(i) => {
                proof {
                    lemma_view_at(*self, i as int);
                }
                self.rooms[i].mailbox_len(sub)
            },
            None => None,
        }
    }
}

/// The view of a well-formed registry holds the room at position `i` under
/// its own identifier, and `room_index` finds exactly that position.
proof fn lemma_view_at(r: Registry, i: int)
    requires
        r.wf(),
        0 <= i < r.rooms@.len(),
    ensures
        r@.contains_key(r.rooms@[i].id_spec()),
        r.room_index(r.rooms@[i].id_spec()) == i,
        r@[r.rooms@[i].id_spec()] == r.rooms@[i]@,
{
    let k = r.rooms@[i].id_spec();
    assert(r@.contains_key(k));
    let w = r.room_index(k);
    assert(0 <= w < r.rooms@.len() && r.rooms@[w].id_spec() == k);
    assert(w == i);
}

/// Replacing the room at position `i` by one with the same identifier turns
/// the registry's view into an insert under that identifier.
proof fn lemma_view_replace(pre: Registry, post: Registry, i: int)
    requires
        pre.wf(),
        0 <= i < pre.rooms@.len(),
        post.rooms@ == pre.rooms@.update(i, post.rooms@[i]),
        post.rooms@[i].id_spec() == pre.rooms@[i].id_spec(),
        post.rooms@[i].wf(),
    ensures
        post.wf(),
        post@ == pre@.insert(pre.rooms@[i].id_spec(), post.rooms@[i]@),
{
    let k = pre.rooms@[i].id_spec();
    assert(post.rooms@.len() == pre.rooms@.len());
    assert forall|j: int| 0 <= j < post.rooms@.len() implies (#[trigger] post.rooms@[j]).id_spec()
        == pre.rooms@[j].id_spec() && post.rooms@[j].wf() by {
        if j != i {
            assert(post.rooms@[j] == pre.rooms@[j]);
        }
    }
    assert(post.wf());
    lemma_view_at(pre, i);
    lemma_view_at(post, i);
    assert(post@ =~= pre@.insert(k, post.rooms@[i]@)) by {
        assert forall|m: Seq<char>| #![auto] post@.contains_key(m) == pre@.insert(
            k,
            post.rooms@[i]@,
        ).contains_key(m) by {
            if post@.contains_key(m) {
                let w = post.room_index(m);
                assert(0 <= w < post.rooms@.len() && post.rooms@[w].id_spec() == m);
                assert(pre.rooms@[w].id_spec() == m);
            }
            if pre@.contains_key(m) {
                let w = pre.room_index(m);
                assert(0 <= w < pre.rooms@.len() && pre.rooms@[w].id_spec() == m);
                assert(post.rooms@[w].id_spec() == m);
            }
        }
        assert forall|m: Seq<char>|
            post@.contains_key(m) && m != k implies #[trigger] post@[m] == pre@[m] by {
            let w = post.room_index(m);
            assert(0 <= w < post.rooms@.len() && post.rooms@[w].id_spec() == m);
            assert(w != i);
            assert(post.rooms@[w] == pre.rooms@[w]);
            lemma_view_at(post, w);
            lemma_view_at(pre, w);
        }
    }
}

/// Appending a room under a fresh identifier turns the registry's view into
/// an insert under that identifier.
proof fn lemma_view_push(pre: Registry, post: Registry, k: Seq<char>)
    requires
        pre.wf(),
        post.rooms@.len() == pre.rooms@.len() + 1,
        post.rooms@ == pre.rooms@.push(post.rooms@[pre.rooms@.len() as int]),
        post.rooms@[pre.rooms@.len() as int].id_spec() == k,
        post.rooms@[pre.rooms@.len() as int].wf(),
        forall|i: int| 0 <= i < pre.rooms@.len() ==> (#[trigger] pre.rooms@[i]).id_spec() != k,
    ensures
        post.wf(),
        post@ == pre@.insert(k, post.rooms@[pre.rooms@.len() as int]@),
        !pre@.contains_key(k),
{
    let n = pre.rooms@.len() as int;
    assert forall|j: int| 0 <= j < n implies (#[trigger] post.rooms@[j]) == pre.rooms@[j] by {}
    assert(post.wf()) by {
        assert forall|i: int, j: int|
            0 <= i < post.rooms@.len() && 0 <= j < post.rooms@.len() && i != j implies (
        #[trigger] post.rooms@[i]).id_spec() != (#[trigger] post.rooms@[j]).id_spec() by {
            if i < n && j < n {
            } else if i == n {
                assert(post.rooms@[j] == pre.rooms@[j]);
            } else {
                assert(post.rooms@[i] == pre.rooms@[i]);
            }
        }
    }
    lemma_view_at(post, n);
    assert(post@ =~= pre@.insert(k, post.rooms@[n]@)) by {
        assert forall|m: Seq<char>| #![auto] post@.contains_key(m) == pre@.insert(
            k,
            post.rooms@[n]@,
        ).contains_key(m) by {
            if post@.contains_key(m) && m != k {
                let w = post.room_index(m);
                assert(0 <= w < post.rooms@.len() && post.rooms@[w].id_spec() == m);
                assert(w != n);
                assert(pre.rooms@[w].id_spec() == m);
            }
            if pre@.contains_key(m) {
                let w = pre.room_index(m);
                assert(0 <= w < pre.rooms@.len() && pre.rooms@[w].id_spec() == m);
                assert(post.rooms@[w].id_spec() == m);
            }
        }
        assert forall|m: Seq<char>|
            post@.contains_key(m) && m != k implies #[trigger] post@[m] == pre@[m] by {
            let w = post.room_index(m);
            assert(0 <= w < post.rooms@.len() && post.rooms@[w].id_spec() == m);
            assert(w != n);
            assert(post.rooms@[w] == pre.rooms@[w]);
            lemma_view_at(post, w);
            lemma_view_at(pre, w);
        }
    }
}

} // verus!
