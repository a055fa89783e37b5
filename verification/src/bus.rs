//! The per-key broadcast group: the structure that fans one produced outcome
//! out to every waiter that registered before the execution finished.
//!
//! A group is created the first time its key is seen and then lives for the
//! coordinator's lifetime. It records one slot per consumer handle ever
//! minted; a slot is waiting while its caller still holds the handle, and
//! the delivery pass publishes exactly one copy of the outcome per waiting
//! slot — never one for a handle whose caller abandoned its wait. Once the
//! pass has run, the group also keeps the outcome, so a caller arriving
//! after delivery is answered at once instead of waiting forever.

use crate::queue::{outcome_view, queue_items, queue_new, queue_send, queue_try_recv, Queue};
use vstd::prelude::*;

verus! {

/// The state of one consumer handle of a group: still held by a waiting
/// caller, given up before delivery arrived, or already served one copy.
#[derive(Clone, Copy, PartialEq, Eq, Structural, Debug)]
pub enum Slot {
    Waiting,
    Abandoned,
    Collected,
}

/// Whether the group's single execution is still running, or has finished
/// and the delivery pass recorded what it produced.
pub enum Phase {
    Running,
    Done(Option<String>),
}

/// How many of the slots are still waiting.
pub open spec fn count_waiting(s: Seq<Slot>) -> int
    decreases s.len(),
{
    if s.len() == 0 {
        0
    } else {
        count_waiting(s.drop_last()) + (if s.last() is Waiting {
            1int
        } else {
            0int
        })
    }
}

pub proof fn lemma_count_bounds(s: Seq<Slot>)
    ensures
        0 <= count_waiting(s) <= s.len(),
    decreases s.len(),
{
    if s.len() > 0 {
        lemma_count_bounds(s.drop_last());
    }
}

pub proof fn lemma_count_take_step(s: Seq<Slot>, i: int)
    requires
        0 <= i < s.len(),
    ensures
        count_waiting(s.take(i + 1)) == count_waiting(s.take(i)) + (if s[i] is Waiting {
            1int
        } else {
            0int
        }),
{
    assert(s.take(i + 1).drop_last() =~= s.take(i));
    assert(s.take(i + 1).last() == s[i]);
}

pub proof fn lemma_count_update(s: Seq<Slot>, i: int, x: Slot)
    requires
        0 <= i < s.len(),
    ensures
        count_waiting(s.update(i, x)) == count_waiting(s) - (if s[i] is Waiting {
            1int
        } else {
            0int
        }) + (if x is Waiting {
            1int
        } else {
            0int
        }),
    decreases s.len(),
{
    if i == s.len() - 1 {
        assert(s.update(i, x).drop_last() =~= s.drop_last());
        assert(s.update(i, x).last() == x);
    } else {
        assert(s.update(i, x).drop_last() =~= s.drop_last().update(i, x));
        assert(s.update(i, x).last() == s.last());
        lemma_count_update(s.drop_last(), i, x);
    }
}

pub proof fn lemma_count_waiting_at(s: Seq<Slot>, i: int)
    requires
        0 <= i < s.len(),
        s[i] is Waiting,
    ensures
        count_waiting(s) >= 1,
    decreases s.len(),
{
    if i < s.len() - 1 {
        lemma_count_waiting_at(s.drop_last(), i);
    }
    lemma_count_bounds(s.drop_last());
}

/// One key's broadcast group.
pub struct Bus {
    /// The distribution channel the copies of the outcome travel through.
    pub queue: Queue,
    /// One slot per consumer handle ever minted for this key.
    pub handles: Vec<Slot>,
    /// Running until the delivery pass records the produced outcome.
    pub phase: Phase,
    /// How many published copies sit in the channel, kept so a caller can
    /// observe the delivery bookkeeping without draining the channel.
    pub in_queue: usize,
}

impl Bus {
    /// The copies currently in the channel, oldest first.
    pub open spec fn pending(self) -> Seq<Option<Seq<char>>> {
        queue_items(self.queue)
    }

    /// Whether the delivery pass has run.
    pub open spec fn is_done(self) -> bool {
        self.phase is Done
    }

    /// The recorded outcome; meaningful once the delivery pass has run.
    pub open spec fn done_value(self) -> Option<Seq<char>> {
        match self.phase {
            Phase::Running => None,
            Phase::Done(o) => outcome_view(o),
        }
    }

    /// How many of this group's handles are still waiting.
    pub open spec fn waiting(self) -> int {
        count_waiting(self.handles@)
    }

    /// The group's invariant. Before delivery the channel is empty; after
    /// it, the channel holds exactly one copy per still-waiting handle, and
    /// every copy equals the recorded outcome — so it never matters which
    /// physical waiter takes which physical copy.
    pub open spec fn wf(self) -> bool {
        &&& self.in_queue as int == self.pending().len()
        &&& (!self.is_done() ==> self.pending().len() == 0)
        &&& (self.is_done() ==> {
            &&& self.pending().len() == self.waiting()
            &&& (forall|i: int|
                0 <= i < self.pending().len() ==> self.pending()[i] == self.done_value())
        })
    }

    /// A fresh group for a key seen for the first time: empty channel, no
    /// handles yet, its execution counted as running.
    pub fn new() -> (b: Bus)
        ensures
            b.wf(),
            !b.is_done(),
            b.handles@ == Seq::<Slot>::empty(),
            b.pending().len() == 0,
    {
        Bus { queue: queue_new(), handles: Vec::new(), phase: Phase::Running, in_queue: 0 }
    }

    /// Whether the group's execution is still running.
    pub fn is_running(&self) -> (b: bool)
        ensures
            b == !self.is_done(),
    {
        match &self.phase {
            Phase::Running => true,
            Phase::Done(_) => false,
        }
    }

    /// Mints a new consumer handle while the execution is still running;
    /// the handle is the index of its slot.
    pub fn add_receiver(&mut self) -> (idx: usize)
        requires
            old(self).wf(),
            !old(self).is_done(),
        ensures
            final(self).wf(),
            !final(self).is_done(),
            idx as int == old(self).handles@.len(),
            final(self).handles@ == old(self).handles@.push(Slot::Waiting),
            final(self).queue == old(self).queue,
            final(self).phase == old(self).phase,
    {
        let idx = self.handles.len();
        self.handles.push(Slot::Waiting);
        idx
    }

    /// The delivery pass: publishes one copy of the produced outcome per
    /// still-waiting handle — and only those — then records the outcome.
    pub fn broadcast(&mut self, msg: Option<String>)
        requires
            old(self).wf(),
            !old(self).is_done(),
        ensures
            final(self).wf(),
            final(self).is_done(),
            final(self).done_value() == outcome_view(msg),
            final(self).handles@ == old(self).handles@,
            final(self).pending().len() == count_waiting(old(self).handles@),
    {
        let n = self.handles.len();
        let mut i: usize = 0;
        while i < n
            invariant
                i <= n,
                n == self.handles.len(),
                self.handles@ == old(self).handles@,
                self.phase == old(self).phase,
                queue_items(self.queue).len() == count_waiting(self.handles@.take(i as int)),
                forall|j: int|
                    0 <= j < queue_items(self.queue).len() ==> queue_items(self.queue)[j]
                        == outcome_view(msg),
                self.in_queue as int == queue_items(self.queue).len(),
            decreases n - i,
        {
            proof {
                lemma_count_bounds(self.handles@.take(i as int));
                lemma_count_take_step(self.handles@, i as int);
            }
            match self.handles[i] {
                Slot::Waiting => {
                    queue_send(&mut self.queue, &msg);
                    self.in_queue = self.in_queue + 1;
                },
                _ => {},
            }
            i = i + 1;
        }
        proof {
            assert(self.handles@.take(n as int) =~= self.handles@);
        }
        self.phase = Phase::Done(msg);
    }

    /// One waiter's attempt to receive: nothing before the delivery pass;
    /// after it, the waiter takes one copy out of the channel, which equals
    /// the recorded outcome, and its slot is retired.
    pub fn take_delivery(&mut self, idx: usize) -> (r: Option<Option<String>>)
        requires
            old(self).wf(),
            (idx as int) < old(self).handles@.len(),
            old(self).handles@[idx as int] is Waiting,
        ensures
            final(self).wf(),
            final(self).phase == old(self).phase,
            (!old(self).is_done() ==> r is None && *final(self) == *old(self)),
            (old(self).is_done() ==> (match r {
                Some(v) => {
                    &&& outcome_view(v) == old(self).done_value()
                    &&& final(self).handles@ == old(self).handles@.update(
                        idx as int,
                        Slot::Collected,
                    )
                    &&& final(self).pending().len() == old(self).pending().len() - 1
                },
                None => false,
            })),
    {
        match &self.phase {
            Phase::Running => None,
            Phase::Done(_) => {
                proof {
                    lemma_count_waiting_at(self.handles@, idx as int);
                    lemma_count_update(self.handles@, idx as int, Slot::Collected);
                }
                let r = queue_try_recv(&mut self.queue);
                self.in_queue = self.in_queue - 1;
                self.handles[idx] = Slot::Collected;
                r
            },
        }
    }

    /// A waiter gives its handle up. Before delivery this only retires the
    /// slot, so the later pass publishes no copy for it; after delivery the
    /// copy already published for this handle is discarded with it.
    pub fn abandon(&mut self, idx: usize)
        requires
            old(self).wf(),
            (idx as int) < old(self).handles@.len(),
            old(self).handles@[idx as int] is Waiting,
        ensures
            final(self).wf(),
            final(self).phase == old(self).phase,
            final(self).handles@ == old(self).handles@.update(idx as int, Slot::Abandoned),
            (!old(self).is_done() ==> final(self).pending() == old(self).pending()),
            (old(self).is_done() ==> final(self).pending().len() == old(self).pending().len() - 1),
    {
        proof {
            lemma_count_update(self.handles@, idx as int, Slot::Abandoned);
        }
        match &self.phase {
            Phase::Running => {
                self.handles[idx] = Slot::Abandoned;
            },
            Phase::Done(_) => {
                proof {
                    lemma_count_waiting_at(self.handles@, idx as int);
                }
                let _ = queue_try_recv(&mut self.queue);
                self.in_queue = self.in_queue - 1;
                self.handles[idx] = Slot::Abandoned;
            },
        }
    }
}

} // verus!
