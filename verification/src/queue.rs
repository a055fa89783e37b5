//! The distribution channel of one broadcast group, kept behind a small
//! trusted boundary: an spmc (single-producer, multiple-consumer) queue
//! holding the copies of a group's produced outcome, one per live waiter.

use vstd::prelude::*;

verus! {

/// What one execution produced for every waiter of its key: `Some` carries
/// the computed value, `None` is the tagged failure delivered when the work
/// itself failed, so that no waiter is left blocked forever.
pub open spec fn outcome_view(o: Option<String>) -> Option<Seq<char>> {
    match o {
        Some(s) => Some(s@),
        None => None,
    }
}

/// A single spmc channel: the producing and the consuming end of one shared
/// first-in-first-out queue. The two ends share their state, so this type
/// keeps them together and the queue's contents are a function of the pair.
/// Holding both ends also means the channel is never disconnected: sends
/// cannot fail and receives never report a closed channel.
#[verifier::external_body]
pub struct Queue {
    sender: spmc::Sender<Option<String>>,
    receiver: spmc::Receiver<Option<String>>,
}

/// The items the queue currently holds, oldest first.
pub uninterp spec fn queue_items(q: Queue) -> Seq<Option<Seq<char>>>;

/// Relies on spmc::channel, which creates an empty queue with one producing
/// and one consuming end.
#[verifier::external_body]
pub fn queue_new() -> (q: Queue)
    ensures
        queue_items(q) == Seq::<Option<Seq<char>>>::empty(),
{
    let (sender, receiver) = spmc::channel();
    Queue { sender, receiver }
}

/// Relies on spmc::Sender::send, which enqueues the item at the tail and
/// fails only when every receiver is gone; this queue owns a receiver, so
/// the send cannot fail.
#[verifier::external_body]
pub fn queue_send(q: &mut Queue, v: &Option<String>)
    ensures
        queue_items(*final(q)) == queue_items(*old(q)).push(outcome_view(*v)),
{
    q.sender.send(v.clone()).unwrap();
}

/// Relies on spmc::Receiver::try_recv, which dequeues from the head without
/// blocking, or reports the queue empty; this queue owns the sender, so the
/// disconnected error cannot occur.
#[verifier::external_body]
pub fn queue_try_recv(q: &mut Queue) -> (r: Option<Option<String>>)
    ensures
        queue_items(*old(q)).len() == 0 ==> r is None && queue_items(*final(q)) == queue_items(
            *old(q),
        ),
        queue_items(*old(q)).len() > 0 ==> (match r {
            Some(v) => outcome_view(v) == queue_items(*old(q))[0] && queue_items(*final(q))
                == queue_items(*old(q)).drop_first(),
            None => false,
        }),
{
    match q.receiver.try_recv() {
        Ok(v) => Some(v),
        Err(_) => None,
    }
}

} // verus!
