//! The delivery and lifecycle guarantees of the relay, stated and proved
//! once and for all over the room model.

use vstd::prelude::*;
use crate::mailbox::{deliver_model, MailboxModel, MAILBOX_CAPACITY};
use crate::message::Message;
use crate::registry::{
    boxes_distinct, boxes_wf, ensured_model, fan_out, has_sub, lemma_fan_out_membership,
    lemma_fan_out_wf, published_model, RoomModel,
};

verus! {

/// One publish reaches every open mailbox exactly once: in the collection
/// that the publish leaves behind, the mailbox holding handle `boxes[i].sub`
/// is still attached, still open, and holds exactly one delivery attempt of
/// `msg` on top of what it held before — the message appended when a slot
/// was free, and everything unchanged when the mailbox was full.
pub proof fn lemma_delivery_to_open_mailbox(boxes: Seq<MailboxModel>, msg: Message, i: int)
    requires
        boxes_distinct(boxes),
        0 <= i < boxes.len(),
        !boxes[i].closed,
    ensures
        has_sub(fan_out(boxes, msg), boxes[i].sub),
        forall|j: int|
            0 <= j < fan_out(boxes, msg).len() && (#[trigger] fan_out(boxes, msg)[j]).sub
                == boxes[i].sub ==> fan_out(boxes, msg)[j] == deliver_model(boxes[i], msg),
    decreases boxes.len(),
{
    let tail = boxes.drop_first();
    let out = fan_out(boxes, msg);
    assert(boxes_distinct(tail)) by {
        assert forall|p: int, q: int|
            0 <= p < tail.len() && 0 <= q < tail.len() && p != q implies (#[trigger] tail[p]).sub
            != (#[trigger] tail[q]).sub by {
            assert(tail[p] == boxes[p + 1]);
            assert(tail[q] == boxes[q + 1]);
        }
    }
    lemma_fan_out_membership(tail, msg);
    if i == 0 {
        assert(out[0] == deliver_model(boxes[0], msg));
        assert(out[0].sub == boxes[0].sub);
        assert(has_sub(out, boxes[0].sub));
        assert forall|j: int|
            0 <= j < out.len() && (#[trigger] out[j]).sub == boxes[0].sub implies out[j]
            == deliver_model(boxes[0], msg) by {
            if j > 0 {
                assert(out[j] == fan_out(tail, msg)[j - 1]);
                assert(has_sub(tail, out[j].sub));
                let w = choose|w: int| 0 <= w < tail.len() && (#[trigger] tail[w]).sub == out[j].sub;
                assert(boxes[w + 1].sub == boxes[0].sub);
            }
        }
    } else {
        assert(tail[i - 1] == boxes[i]);
        lemma_delivery_to_open_mailbox(tail, msg, i - 1);
        let rest = fan_out(tail, msg);
        let w = choose|w: int| 0 <= w < rest.len() && (#[trigger] rest[w]).sub == boxes[i].sub;
        if boxes[0].closed {
            assert(out == rest);
        } else {
            assert(out[w + 1] == rest[w]);
            assert(has_sub(out, boxes[i].sub));
            assert forall|j: int|
                0 <= j < out.len() && (#[trigger] out[j]).sub == boxes[i].sub implies out[j]
                == deliver_model(boxes[i], msg) by {
                if j == 0 {
                    assert(out[0].sub == boxes[0].sub);
                } else {
                    assert(out[j] == rest[j - 1]);
                }
            }
        }
    }
}

/// The collection a whole sequence of publishes leaves behind, oldest
/// publish first.
pub open spec fn fan_out_all(boxes: Seq<MailboxModel>, msgs: Seq<Message>) -> Seq<MailboxModel>
    decreases msgs.len(),
{
    if msgs.len() == 0 {
        boxes
    } else {
        fan_out_all(fan_out(boxes, msgs[0]), msgs.drop_first())
    }
}

/// Messages arrive in publish order: a sequence of publishes, observed one
/// after the other by an open mailbox with room for all of them, leaves the
/// messages appended in exactly publish order, behind everything the mailbox
/// already held. Together with `dequeue`, which always hands out the front
/// of the queue, every such message published between a subscribe and the
/// close of its mailbox is observed by that subscriber in publish order.
pub proof fn lemma_publishes_in_order(boxes: Seq<MailboxModel>, msgs: Seq<Message>, i: int)
    requires
        boxes_wf(boxes),
        0 <= i < boxes.len(),
        !boxes[i].closed,
        boxes[i].queue.len() + msgs.len() <= MAILBOX_CAPACITY,
    ensures
        has_sub(fan_out_all(boxes, msgs), boxes[i].sub),
        forall|j: int|
            0 <= j < fan_out_all(boxes, msgs).len() && (#[trigger] fan_out_all(boxes, msgs)[j]).sub
                == boxes[i].sub ==> fan_out_all(boxes, msgs)[j] == (MailboxModel {
                sub: boxes[i].sub,
                queue: boxes[i].queue + msgs,
                closed: false,
            }),
    decreases msgs.len(),
{
    let sub = boxes[i].sub;
    if msgs.len() == 0 {
        assert(boxes[i].queue + msgs =~= boxes[i].queue);
        assert forall|j: int|
            0 <= j < boxes.len() && (#[trigger] boxes[j]).sub == sub implies boxes[j]
            == (MailboxModel { sub, queue: boxes[i].queue + msgs, closed: false }) by {
            assert(j == i);
            assert(boxes[i] =~= (MailboxModel { sub, queue: boxes[i].queue + msgs, closed: false }));
        }
    } else {
        let mid = fan_out(boxes, msgs[0]);
        lemma_delivery_to_open_mailbox(boxes, msgs[0], i);
        lemma_fan_out_wf(boxes, msgs[0]);
        let k = choose|k: int| 0 <= k < mid.len() && (#[trigger] mid[k]).sub == sub;
        assert(mid[k] == deliver_model(boxes[i], msgs[0]));
        assert(mid[k] == (MailboxModel { sub, queue: boxes[i].queue.push(msgs[0]), closed: false }));
        lemma_publishes_in_order(mid, msgs.drop_first(), k);
        assert(boxes[i].queue.push(msgs[0]) + msgs.drop_first() =~= boxes[i].queue + msgs);
    }
}

/// Publishing into a room with no subscribers succeeds and changes nothing
/// in the room; the registry-level `publish` contract adds that the room is
/// registered afterwards.
pub proof fn lemma_publish_no_subscribers(rm: RoomModel, msg: Message)
    requires
        rm.boxes.len() == 0,
    ensures
        published_model(rm, msg) == rm,
{
    assert(published_model(rm, msg) =~= rm);
}

/// A closed mailbox is never delivered to again: the next publish evicts it
/// from the room's collection, so its handle is absent afterwards — and, by
/// `lemma_absent_stays_absent`, absent from every later collection too.
pub proof fn lemma_closed_mailbox_evicted(boxes: Seq<MailboxModel>, msg: Message, i: int)
    requires
        boxes_distinct(boxes),
        0 <= i < boxes.len(),
        boxes[i].closed,
    ensures
        !has_sub(fan_out(boxes, msg), boxes[i].sub),
    decreases boxes.len(),
{
    let tail = boxes.drop_first();
    let out = fan_out(boxes, msg);
    assert(boxes_distinct(tail)) by {
        assert forall|p: int, q: int|
            0 <= p < tail.len() && 0 <= q < tail.len() && p != q implies (#[trigger] tail[p]).sub
            != (#[trigger] tail[q]).sub by {
            assert(tail[p] == boxes[p + 1]);
            assert(tail[q] == boxes[q + 1]);
        }
    }
    lemma_fan_out_membership(tail, msg);
    if i == 0 {
        assert(out == fan_out(tail, msg));
        if has_sub(out, boxes[0].sub) {
            let j = choose|j: int| 0 <= j < out.len() && (#[trigger] out[j]).sub == boxes[0].sub;
            assert(has_sub(tail, out[j].sub));
            let w = choose|w: int| 0 <= w < tail.len() && (#[trigger] tail[w]).sub == boxes[0].sub;
            assert(boxes[w + 1].sub == boxes[0].sub);
            assert(false);
        }
    } else {
        assert(tail[i - 1] == boxes[i]);
        lemma_closed_mailbox_evicted(tail, msg, i - 1);
        if !boxes[0].closed {
            if has_sub(out, boxes[i].sub) {
                let j = choose|j: int|
                    0 <= j < out.len() && (#[trigger] out[j]).sub == boxes[i].sub;
                if j == 0 {
                    assert(out[0].sub == boxes[0].sub);
                    assert(false);
                } else {
                    assert(out[j] == fan_out(tail, msg)[j - 1]);
                    assert(has_sub(fan_out(tail, msg), boxes[i].sub));
                    assert(false);
                }
            }
        }
    }
}

/// Eviction is permanent: once a handle is absent from a room's collection,
/// no sequence of later publishes brings it back.
pub proof fn lemma_absent_stays_absent(boxes: Seq<MailboxModel>, msgs: Seq<Message>, sub: u64)
    requires
        !has_sub(boxes, sub),
    ensures
        !has_sub(fan_out_all(boxes, msgs), sub),
    decreases msgs.len(),
{
    if msgs.len() == 0 {
    } else {
        let mid = fan_out(boxes, msgs[0]);
        lemma_fan_out_membership(boxes, msgs[0]);
        assert(!has_sub(mid, sub)) by {
            if has_sub(mid, sub) {
                let j = choose|j: int| 0 <= j < mid.len() && (#[trigger] mid[j]).sub == sub;
                assert(has_sub(boxes, mid[j].sub));
            }
        }
        lemma_absent_stays_absent(mid, msgs.drop_first(), sub);
    }
}

/// A full mailbox keeps its backlog: the publish drops the new message, the
/// ten queued ones stay, in their order, and the subscriber stays attached.
pub proof fn lemma_full_mailbox_keeps_backlog(boxes: Seq<MailboxModel>, msg: Message, i: int)
    requires
        boxes_distinct(boxes),
        0 <= i < boxes.len(),
        !boxes[i].closed,
        boxes[i].queue.len() >= MAILBOX_CAPACITY,
    ensures
        has_sub(fan_out(boxes, msg), boxes[i].sub),
        forall|j: int|
            0 <= j < fan_out(boxes, msg).len() && (#[trigger] fan_out(boxes, msg)[j]).sub
                == boxes[i].sub ==> fan_out(boxes, msg)[j] == boxes[i],
{
    lemma_delivery_to_open_mailbox(boxes, msg, i);
    assert(deliver_model(boxes[i], msg) == boxes[i]);
}

/// However many callers race to create the same room, exactly one room comes
/// to exist: the first `ensure_room` creates it, and every later one — the
/// calls being serialized on the registry — finds it and changes nothing.
/// That at most one room is ever alive per identifier is the registry's own
/// invariant, `Registry::wf`.
pub proof fn lemma_ensure_room_idempotent(m: Map<Seq<char>, RoomModel>, k: Seq<char>)
    ensures
        ensured_model(m, k).contains_key(k),
        ensured_model(ensured_model(m, k), k) == ensured_model(m, k),
{
}

} // verus!
