//! The steps of the node's main loop that decide rather than do: when the
//! periodic upkeep runs, and what goes out after the replies to a datagram.

use crate::blocks::SECOND;
use crate::chance::random_u32;
use crate::message::views;
use crate::message::Message;
use crate::message::MessageView;
use crate::message::PleaseReturnThisMessage;
use vstd::prelude::*;

verus! {

/// Whether the upkeep is due, `since_last` nanoseconds after it last ran: more
/// than a second after.
pub fn maintenance_due(since_last: u64) -> (due: bool)
    ensures
        due == (since_last > 1_000_000_000),
{
    since_last > SECOND
}

/// What follows `reply_count` replies to a datagram at `now`, with the random
/// number `roll`: with no reply nothing is sent at all; else the replies go
/// out, one time in 73 with a request to send back the time.
pub open spec fn reply_tail(reply_count: nat, now: int, roll: u32) -> Option<Seq<MessageView>> {
    if reply_count == 0 {
        None
    } else if roll % 73 == 0 {
        Some(seq![MessageView::PleaseReturnThisMessage { sent_at: now as nat }])
    } else {
        Some(seq![])
    }
}

/// The messages to append to `reply_count` replies before they are sent, or
/// `None` when nothing is to be sent; see [`reply_tail`].
pub fn reply_tail_with(reply_count: usize, now: i64, roll: u32) -> (tail: Option<Vec<Message>>)
    requires
        now >= 0,
    ensures
        match tail {
            Some(t) => reply_tail(reply_count as nat, now as int, roll) == Some(views(t@)),
            None => reply_tail(reply_count as nat, now as int, roll) is None,
        },
{
    if reply_count == 0 {
        return None;
    }
    let mut tail: Vec<Message> = Vec::new();
    if PleaseReturnThisMessage::due_with(roll) {
        tail.push(PleaseReturnThisMessage::at(now));
        assert(views(tail@) =~= seq![MessageView::PleaseReturnThisMessage { sent_at: now as nat }]);
    } else {
        assert(views(tail@) =~= seq![]);
    }
    Some(tail)
}

/// The messages to append to `reply_count` replies before they are sent, or
/// `None` when nothing is to be sent, drawing the random number only when there
/// are replies: the tail of [`reply_tail_with`] for some number.
pub fn reply_tail_now(reply_count: usize, now: i64) -> (tail: Option<Vec<Message>>)
    requires
        now >= 0,
    ensures
        reply_count == 0 ==> tail is None,
        exists|roll: u32|
            match tail {
                Some(t) => #[trigger] reply_tail(reply_count as nat, now as int, roll) == Some(views(t@)),
                None => reply_tail(reply_count as nat, now as int, roll) is None,
            },
{
    let roll = if reply_count == 0 {
        0
    } else {
        random_u32()
    };
    reply_tail_with(reply_count, now, roll)
}

} // verus!
