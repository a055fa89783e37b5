//! The coordinator: a registry mapping each key to its broadcast group.
//!
//! The registry is the shared state of the single-flight protocol. A runtime
//! drives it through four operations, holding its own lock around each call
//! and never across a wait:
//!
//! - `subscribe_to` registers interest in a key. The first caller for a key
//!   becomes the lead and must launch the one execution of the work; later
//!   callers while it runs join the same group; a caller arriving after the
//!   delivery pass is handed the recorded outcome at once.
//! - `deliver` is called once by the execution when the work finishes (or
//!   fails): it runs the group's delivery pass.
//! - `collect` is one waiter's attempt to receive its copy.
//! - `abandon` gives a waiter's handle up without receiving.
//!
//! Each operation's effect is stated by a transition relation over the
//! registry's abstract state, so that the protocol's properties can be
//! proved about any interleaving of steps.

use crate::bus::{count_waiting, Bus, Phase, Slot};
use crate::queue::outcome_view;
use vstd::prelude::*;

verus! {

/// A waiter's consumer handle: which key it waits for and which slot of
/// that key's group is its own.
pub struct Ticket {
    pub key: String,
    pub slot: usize,
}

/// What subscribing got the caller.
pub enum Enrollment {
    /// The key was not in flight: a group was created, the caller holds its
    /// first handle and must launch the single execution of the work.
    Lead(Ticket),
    /// The key was already in flight: the caller holds a fresh handle on
    /// the existing group and only waits.
    Member(Ticket),
    /// The key's delivery pass had already run: the recorded outcome,
    /// handed over without any waiting.
    Ready(Option<String>),
}

/// Duplicates a delivered payload; every copy is content-identical.
pub fn clone_payload(o: &Option<String>) -> (r: Option<String>)
    ensures
        outcome_view(r) == outcome_view(*o),
{
    match o {
        Some(s) => Some(s.clone()),
        None => None,
    }
}

/// The coordinator's registry: each key seen so far with its group. A group
/// is never removed, so a key stays covered for the coordinator's lifetime.
pub struct Mula {
    pub registry: Vec<(String, Bus)>,
}

impl Mula {
    pub open spec fn reg(self) -> Seq<(String, Bus)> {
        self.registry@
    }

    /// Whether a group exists for the key.
    pub open spec fn has_key(self, k: Seq<char>) -> bool {
        exists|i: int| 0 <= i < self.reg().len() && (#[trigger] self.reg()[i]).0@ == k
    }

    /// The registry position of the key's group.
    pub open spec fn key_idx(self, k: Seq<char>) -> int {
        choose|i: int| 0 <= i < self.reg().len() && (#[trigger] self.reg()[i]).0@ == k
    }

    /// The key's group.
    pub open spec fn group(self, k: Seq<char>) -> Bus {
        self.reg()[self.key_idx(k)].1
    }

    /// The registry's invariant: one group per key, each well formed.
    pub open spec fn wf(self) -> bool {
        &&& self.keys_unique()
        &&& (forall|i: int| 0 <= i < self.reg().len() ==> (#[trigger] self.reg()[i]).1.wf())
    }

    /// A ticket that still entitles its holder to one delivery.
    pub open spec fn ticket_ok(self, t: Ticket) -> bool {
        &&& self.has_key(t.key@)
        &&& (t.slot as int) < self.group(t.key@).handles@.len()
        &&& self.group(t.key@).handles@[t.slot as int] is Waiting
    }

    /// One group per key, stated alone: the piece of the invariant that
    /// makes a key's position unambiguous.
    pub open spec fn keys_unique(self) -> bool {
        forall|i: int, j: int|
            0 <= i < j < self.reg().len() ==> (#[trigger] self.reg()[i]).0@ != (
            #[trigger] self.reg()[j]).0@
    }

    /// With unique keys, an entry's position is the key's position.
    pub proof fn lemma_found(self, k: Seq<char>, i: int)
        requires
            self.keys_unique(),
            0 <= i < self.reg().len(),
            self.reg()[i].0@ == k,
        ensures
            self.has_key(k),
            self.key_idx(k) == i,
            self.group(k) == self.reg()[i].1,
    {
        assert(self.has_key(k));
        let j = self.key_idx(k);
        if j != i {
            assert(self.reg()[i].0@ != self.reg()[j].0@);
        }
    }
}

/// Groups of keys other than `except` are exactly as they were: no step on
/// one key ever touches another key's group.
pub open spec fn views_preserved(pre: Mula, post: Mula, except: Seq<char>) -> bool {
    forall|k2: Seq<char>|
        k2 != except ==> (#[trigger] post.has_key(k2)) == pre.has_key(k2) && (pre.has_key(k2)
            ==> post.group(k2) == pre.group(k2))
}

/// What `subscribe_to` does to the registry.
pub open spec fn subscribe_rel(pre: Mula, post: Mula, k: Seq<char>, e: Enrollment) -> bool {
    &&& post.has_key(k)
    &&& (e is Lead <==> !pre.has_key(k))
    &&& views_preserved(pre, post, k)
    &&& (match e {
        Enrollment::Lead(t) => {
            &&& t.key@ == k
            &&& t.slot == 0
            &&& post.ticket_ok(t)
            &&& post.group(k).handles@ =~= seq![Slot::Waiting]
            &&& !post.group(k).is_done()
            &&& post.group(k).pending().len() == 0
        },
        Enrollment::Member(t) => {
            &&& pre.has_key(k)
            &&& !pre.group(k).is_done()
            &&& t.key@ == k
            &&& t.slot as int == pre.group(k).handles@.len()
            &&& post.ticket_ok(t)
            &&& post.group(k).handles@ == pre.group(k).handles@.push(Slot::Waiting)
            &&& post.group(k).phase == pre.group(k).phase
            &&& post.group(k).pending() == pre.group(k).pending()
        },
        Enrollment::Ready(v) => {
            &&& pre.has_key(k)
            &&& pre.group(k).is_done()
            &&& outcome_view(v) == pre.group(k).done_value()
            &&& post.group(k) == pre.group(k)
        },
    })
}

/// What `deliver` does to the registry.
pub open spec fn deliver_rel(pre: Mula, post: Mula, k: Seq<char>, o: Option<String>) -> bool {
    &&& pre.has_key(k)
    &&& !pre.group(k).is_done()
    &&& post.has_key(k)
    &&& views_preserved(pre, post, k)
    &&& post.group(k).is_done()
    &&& post.group(k).done_value() == outcome_view(o)
    &&& post.group(k).handles@ == pre.group(k).handles@
    &&& post.group(k).pending().len() == count_waiting(pre.group(k).handles@)
}

/// What `collect` does to the registry.
pub open spec fn collect_rel(pre: Mula, post: Mula, t: Ticket, r: Option<Option<String>>) -> bool {
    &&& pre.ticket_ok(t)
    &&& post.has_key(t.key@)
    &&& views_preserved(pre, post, t.key@)
    &&& (!pre.group(t.key@).is_done() ==> r is None && post.group(t.key@) == pre.group(t.key@))
    &&& (pre.group(t.key@).is_done() ==> (match r {
        Some(v) => {
            &&& outcome_view(v) == pre.group(t.key@).done_value()
            &&& post.group(t.key@).handles@ == pre.group(t.key@).handles@.update(
                t.slot as int,
                Slot::Collected,
            )
            &&& post.group(t.key@).pending().len() == pre.group(t.key@).pending().len() - 1
            &&& post.group(t.key@).phase == pre.group(t.key@).phase
        },
        None => false,
    }))
}

/// What `abandon` does to the registry.
pub open spec fn abandon_rel(pre: Mula, post: Mula, t: Ticket) -> bool {
    &&& pre.ticket_ok(t)
    &&& post.has_key(t.key@)
    &&& views_preserved(pre, post, t.key@)
    &&& post.group(t.key@).handles@ == pre.group(t.key@).handles@.update(
        t.slot as int,
        Slot::Abandoned,
    )
    &&& post.group(t.key@).phase == pre.group(t.key@).phase
    &&& (!pre.group(t.key@).is_done() ==> post.group(t.key@).pending() == pre.group(
        t.key@,
    ).pending())
    &&& (pre.group(t.key@).is_done() ==> post.group(t.key@).pending().len() == pre.group(
        t.key@,
    ).pending().len() - 1)
}

impl Mula {
    /// A coordinator with no key in flight yet.
    pub fn new() -> (m: Mula)
        ensures
            m.wf(),
            m.reg().len() == 0,
            forall|k: Seq<char>| !m.has_key(k),
    {
        Mula { registry: Vec::new() }
    }

    /// Linear scan for the key's entry.
    fn find(&self, key: &String) -> (r: Option<usize>)
        ensures
            (match r {
                Some(i) => (i as int) < self.reg().len() && self.reg()[i as int].0@ == key@,
                None => !self.has_key(key@),
            }),
    {
        let n = self.registry.len();
        let mut i: usize = 0;
        while i < n
            invariant
                i <= n,
                n == self.reg().len(),
                forall|j: int| 0 <= j < i ==> (#[trigger] self.reg()[j]).0@ != key@,
            decreases n - i,
        {
            if self.registry[i].0 == *key {
                return Some(i);
            }
            i = i + 1;
        }
        None
    }

    /// Registers interest in a key: creates the group and makes the caller
    /// the lead if the key is new, joins the running group if one is in
    /// flight, or hands the recorded outcome straight back if the key's
    /// delivery pass has already run.
    pub fn subscribe_to(&mut self, input: &String) -> (e: Enrollment)
        requires
            old(self).wf(),
        ensures
            final(self).wf(),
            subscribe_rel(*old(self), *final(self), input@, e),
    {
        let found = self.find(input);
        match found {
            None => {
                let ghost pre = *self;
                let mut bus = Bus::new();
                let slot = bus.add_receiver();
                let key_copy = input.clone();
                self.registry.push((input.clone(), bus));
                proof {
                    let n = pre.reg().len();
                    assert(self.reg() =~= pre.reg().push(self.reg()[n as int]));
                    assert(self.reg()[n as int].0@ == input@);
                    assert(forall|j: int| 0 <= j < n ==> self.reg()[j] == pre.reg()[j]);
                    assert forall|j: int| 0 <= j < n implies (#[trigger] self.reg()[j]).0@
                        != input@ by {
                        assert(!pre.has_key(input@));
                    }
                    self.lemma_found(input@, n as int);
                    assert forall|k2: Seq<char>| k2 != input@ implies (#[trigger] self.has_key(k2))
                        == pre.has_key(k2) && (pre.has_key(k2) ==> self.group(k2) == pre.group(
                        k2,
                    )) by {
                        if pre.has_key(k2) {
                            let j = pre.key_idx(k2);
                            pre.lemma_found(k2, j);
                            self.lemma_found(k2, j);
                        }
                        if self.has_key(k2) {
                            let j = self.key_idx(k2);
                            assert(j != n);
                            assert(pre.reg()[j].0@ == k2);
                        }
                    }
                }
                Enrollment::Lead(Ticket { key: key_copy, slot })
            },
            Some(i) => {
                let ghost pre = *self;
                proof {
                    pre.lemma_found(input@, i as int);
                }
                let entry = &mut self.registry[i];
                if entry.1.is_running() {
                    let slot = entry.1.add_receiver();
                    let t = Ticket { key: input.clone(), slot };
                    proof {
                        Self::lemma_one_entry_changed(pre, *self, i as int, input@);
                    }
                    Enrollment::Member(t)
                } else {
                    let v = match &entry.1.phase {
                        Phase::Running => {
                            proof {
                                assert(false);
                            }
                            None
                        },
                        Phase::Done(o) => clone_payload(o),
                    };
                    proof {
                        Self::lemma_one_entry_changed(pre, *self, i as int, input@);
                    }
                    Enrollment::Ready(v)
                }
            },
        }
    }

    /// After a step that rewrote at most the group at position `i`, every
    /// other key's view is untouched and the key at `i` resolves to the
    /// rewritten group.
    proof fn lemma_one_entry_changed(pre: Mula, post: Mula, i: int, k: Seq<char>)
        requires
            pre.wf(),
            0 <= i < pre.reg().len(),
            pre.reg()[i].0@ == k,
            post.reg().len() == pre.reg().len(),
            forall|j: int| 0 <= j < pre.reg().len() && j != i ==> post.reg()[j] == pre.reg()[j],
            post.reg()[i].0@ == k,
        ensures
            views_preserved(pre, post, k),
            post.has_key(k),
            post.key_idx(k) == i,
            post.group(k) == post.reg()[i].1,
            forall|j: int|
                0 <= j < post.reg().len() && j != i ==> (#[trigger] post.reg()[j]).1.wf(),
            post.keys_unique(),
    {
        pre.lemma_found(k, i);
        assert(forall|j: int|
            0 <= j < post.reg().len() ==> (#[trigger] post.reg()[j]).0@ == pre.reg()[j].0@);
        assert(post.keys_unique());
        let post2 = post;
        post2.lemma_found(k, i);
        assert forall|k2: Seq<char>| k2 != k implies (#[trigger] post.has_key(k2)) == pre.has_key(
            k2,
        ) && (pre.has_key(k2) ==> post.group(k2) == pre.group(k2)) by {
            if pre.has_key(k2) {
                let j = pre.key_idx(k2);
                pre.lemma_found(k2, j);
                assert(j != i);
                post2.lemma_found(k2, j);
            }
            if post.has_key(k2) {
                let j = post.key_idx(k2);
                assert(pre.reg()[j].0@ == k2);
            }
        }
    }

    /// The delivery pass for a key whose execution has finished: called by
    /// the execution itself, with the value the work produced, or with the
    /// tagged failure when the work failed, so that no waiter hangs.
    pub fn deliver(&mut self, key: &String, outcome: Option<String>)
        requires
            old(self).wf(),
            old(self).has_key(key@),
            !old(self).group(key@).is_done(),
        ensures
            final(self).wf(),
            deliver_rel(*old(self), *final(self), key@, outcome),
    {
        let ghost pre = *self;
        let found = self.find(key);
        match found {
            Some(i) => {
                proof {
                    pre.lemma_found(key@, i as int);
                }
                let entry = &mut self.registry[i];
                entry.1.broadcast(outcome);
                proof {
                    Self::lemma_one_entry_changed(pre, *self, i as int, key@);
                }
            },
            None => {
                proof {
                    assert(false);
                }
            },
        }
    }

    /// One waiter's attempt to receive its copy: nothing while the key's
    /// execution still runs; once the delivery pass has run, one copy of
    /// the recorded outcome, and the ticket is spent.
    pub fn collect(&mut self, t: &Ticket) -> (r: Option<Option<String>>)
        requires
            old(self).wf(),
            old(self).ticket_ok(*t),
        ensures
            final(self).wf(),
            collect_rel(*old(self), *final(self), *t, r),
            (r is Some ==> !final(self).ticket_ok(*t)),
            (r is None ==> final(self).ticket_ok(*t)),
    {
        let ghost pre = *self;
        let found = self.find(&t.key);
        match found {
            Some(i) => {
                proof {
                    pre.lemma_found(t.key@, i as int);
                }
                let entry = &mut self.registry[i];
                let r = entry.1.take_delivery(t.slot);
                proof {
                    Self::lemma_one_entry_changed(pre, *self, i as int, t.key@);
                }
                r
            },
            None => {
                proof {
                    assert(false);
                }
                None
            },
        }
    }

    /// A waiter gives up its wait: its handle stops counting as live, so a
    /// delivery pass that has not run yet will publish no copy for it.
    pub fn abandon(&mut self, t: &Ticket)
        requires
            old(self).wf(),
            old(self).ticket_ok(*t),
        ensures
            final(self).wf(),
            abandon_rel(*old(self), *final(self), *t),
            !final(self).ticket_ok(*t),
    {
        let ghost pre = *self;
        let found = self.find(&t.key);
        match found {
            Some(i) => {
                proof {
                    pre.lemma_found(t.key@, i as int);
                }
                let entry = &mut self.registry[i];
                entry.1.abandon(t.slot);
                proof {
                    Self::lemma_one_entry_changed(pre, *self, i as int, t.key@);
                }
            },
            None => {
                proof {
                    assert(false);
                }
            },
        }
    }

    /// Whether the key has a group, and whether that group's execution is
    /// still running — `Some(true)` exactly while a delivery for the key
    /// is legitimate.
    pub fn is_in_flight(&self, key: &String) -> (r: Option<bool>)
        requires
            self.wf(),
        ensures
            (match r {
                Some(b) => self.has_key(key@) && b == !self.group(key@).is_done(),
                None => !self.has_key(key@),
            }),
    {
        let found = self.find(key);
        match found {
            Some(i) => {
                proof {
                    self.lemma_found(key@, i as int);
                }
                Some(self.registry[i].1.is_running())
            },
            None => None,
        }
    }

    /// Whether the ticket still entitles its holder to one delivery.
    pub fn ticket_usable(&self, t: &Ticket) -> (b: bool)
        requires
            self.wf(),
        ensures
            b == self.ticket_ok(*t),
    {
        let found = self.find(&t.key);
        match found {
            Some(i) => {
                proof {
                    self.lemma_found(t.key@, i as int);
                }
                let bus = &self.registry[i].1;
                if t.slot < bus.handles.len() {
                    match bus.handles[t.slot] {
                        Slot::Waiting => true,
                        _ => false,
                    }
                } else {
                    false
                }
            },
            None => false,
        }
    }

    /// How many published copies of the key's outcome are still waiting to
    /// be taken; nothing for a key never seen.
    pub fn copies_in_flight(&self, key: &String) -> (r: Option<usize>)
        requires
            self.wf(),
        ensures
            (match r {
                Some(n) => self.has_key(key@) && n as int == self.group(key@).pending().len(),
                None => !self.has_key(key@),
            }),
    {
        let found = self.find(key);
        match found {
            Some(i) => {
                proof {
                    self.lemma_found(key@, i as int);
                }
                Some(self.registry[i].1.in_queue)
            },
            None => None,
        }
    }
}

} // verus!
