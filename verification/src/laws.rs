//! The protocol's guarantees, proved over the transition relations: they
//! hold of every interleaving of coordinator steps, however many callers
//! and keys take part.

use crate::bus::{count_waiting, lemma_count_update};
use crate::coordinator::{
    abandon_rel, collect_rel, deliver_rel, subscribe_rel, Enrollment, Mula, Ticket,
};
use crate::queue::outcome_view;
use vstd::prelude::*;

verus! {

/// Some coordinator step concerning key `k` leads from `pre` to `post`.
pub open spec fn step_on_key(pre: Mula, post: Mula, k: Seq<char>) -> bool {
    ||| (exists|e: Enrollment| subscribe_rel(pre, post, k, e))
    ||| (exists|o: Option<String>| deliver_rel(pre, post, k, o))
    ||| (exists|t: Ticket, r: Option<Option<String>>|
        t.key@ == k && collect_rel(pre, post, t, r))
    ||| (exists|t: Ticket| t.key@ == k && abandon_rel(pre, post, t))
}

/// Some coordinator step leads from `pre` to `post`.
pub open spec fn step_rel(pre: Mula, post: Mula) -> bool {
    exists|k: Seq<char>| step_on_key(pre, post, k)
}

/// A run of the protocol: every adjacent pair of states is one step.
pub open spec fn is_run(trace: Seq<Mula>) -> bool {
    forall|m: int| 0 <= m < trace.len() - 1 ==> step_rel(#[trigger] trace[m], trace[m + 1])
}

/// A key once seen stays covered by its group: no step removes a group.
pub proof fn lemma_key_persists(pre: Mula, post: Mula, k: Seq<char>)
    requires
        step_rel(pre, post),
        pre.has_key(k),
    ensures
        post.has_key(k),
{
    let k1 = choose|k1: Seq<char>| step_on_key(pre, post, k1);
    if k1 == k {
        if exists|e: Enrollment| subscribe_rel(pre, post, k1, e) {
            let e = choose|e: Enrollment| subscribe_rel(pre, post, k1, e);
        } else if exists|o: Option<String>| deliver_rel(pre, post, k1, o) {
            let o = choose|o: Option<String>| deliver_rel(pre, post, k1, o);
        } else if exists|t: Ticket, r: Option<Option<String>>|
            t.key@ == k1 && collect_rel(pre, post, t, r) {
            let (t, r) = choose|t: Ticket, r: Option<Option<String>>|
                t.key@ == k1 && collect_rel(pre, post, t, r);
        } else {
            let t = choose|t: Ticket| t.key@ == k1 && abandon_rel(pre, post, t);
        }
    } else {
        if exists|e: Enrollment| subscribe_rel(pre, post, k1, e) {
            let e = choose|e: Enrollment| subscribe_rel(pre, post, k1, e);
            assert(post.has_key(k));
        } else if exists|o: Option<String>| deliver_rel(pre, post, k1, o) {
            let o = choose|o: Option<String>| deliver_rel(pre, post, k1, o);
            assert(post.has_key(k));
        } else if exists|t: Ticket, r: Option<Option<String>>|
            t.key@ == k1 && collect_rel(pre, post, t, r) {
            let (t, r) = choose|t: Ticket, r: Option<Option<String>>|
                t.key@ == k1 && collect_rel(pre, post, t, r);
            assert(post.has_key(k));
        } else {
            let t = choose|t: Ticket| t.key@ == k1 && abandon_rel(pre, post, t);
            assert(post.has_key(k));
        }
    }
}

/// A key in flight at any point of a run is still covered at every later
/// point of the run.
pub proof fn lemma_key_persists_in_run(trace: Seq<Mula>, k: Seq<char>, i: int, j: int)
    requires
        is_run(trace),
        0 <= i <= j < trace.len(),
        trace[i].has_key(k),
    ensures
        trace[j].has_key(k),
    decreases j - i,
{
    if i < j {
        lemma_key_persists_in_run(trace, k, i, j - 1);
        assert(step_rel(trace[j - 1], trace[j]));
        lemma_key_persists(trace[j - 1], trace[j], k);
    }
}

/// Once a key's delivery pass has run, the recorded outcome never changes:
/// no later step, on this key or any other, can replace or erase it.
pub proof fn lemma_outcome_stable(pre: Mula, post: Mula, k: Seq<char>)
    requires
        step_rel(pre, post),
        pre.has_key(k),
        pre.group(k).is_done(),
    ensures
        post.has_key(k),
        post.group(k).is_done(),
        post.group(k).done_value() == pre.group(k).done_value(),
{
    let k1 = choose|k1: Seq<char>| step_on_key(pre, post, k1);
    if k1 == k {
        if exists|e: Enrollment| subscribe_rel(pre, post, k1, e) {
            let e = choose|e: Enrollment| subscribe_rel(pre, post, k1, e);
        } else if exists|o: Option<String>| deliver_rel(pre, post, k1, o) {
            let o = choose|o: Option<String>| deliver_rel(pre, post, k1, o);
        } else if exists|t: Ticket, r: Option<Option<String>>|
            t.key@ == k1 && collect_rel(pre, post, t, r) {
            let (t, r) = choose|t: Ticket, r: Option<Option<String>>|
                t.key@ == k1 && collect_rel(pre, post, t, r);
        } else {
            let t = choose|t: Ticket| t.key@ == k1 && abandon_rel(pre, post, t);
        }
    } else {
        lemma_independence_across_keys(pre, post, k1, k);
    }
}

/// Every waiter of a delivered key, whenever it comes to collect during a
/// run, is served the one outcome its key's execution produced.
pub proof fn lemma_outcome_stable_in_run(trace: Seq<Mula>, k: Seq<char>, i: int, j: int)
    requires
        is_run(trace),
        0 <= i <= j < trace.len(),
        trace[i].has_key(k),
        trace[i].group(k).is_done(),
    ensures
        trace[j].has_key(k),
        trace[j].group(k).is_done(),
        trace[j].group(k).done_value() == trace[i].group(k).done_value(),
    decreases j - i,
{
    if i < j {
        lemma_outcome_stable_in_run(trace, k, i, j - 1);
        assert(step_rel(trace[j - 1], trace[j]));
        lemma_outcome_stable(trace[j - 1], trace[j], k);
    }
}

/// Single execution per key: of two requests for the same key, only the
/// earlier can lead, so at most one execution of the work is ever launched
/// for the key.
pub proof fn lemma_single_execution_per_key(
    m0: Mula,
    m1: Mula,
    m2: Mula,
    k: Seq<char>,
    e1: Enrollment,
    e2: Enrollment,
)
    requires
        subscribe_rel(m0, m1, k, e1),
        subscribe_rel(m1, m2, k, e2),
    ensures
        !(e2 is Lead),
{
}

/// No duplicate work under staggered arrival: once a key is in flight, a
/// request for it at any later point of the run — however many steps on
/// this or other keys intervene — joins the existing group and never
/// launches a second execution.
pub proof fn lemma_no_duplicate_work(
    trace: Seq<Mula>,
    k: Seq<char>,
    post: Mula,
    e: Enrollment,
)
    requires
        is_run(trace),
        trace.len() > 0,
        trace[0].has_key(k),
        subscribe_rel(trace[trace.len() - 1], post, k, e),
    ensures
        !(e is Lead),
{
    lemma_key_persists_in_run(trace, k, 0, trace.len() - 1);
}

/// Independence across keys: a step concerning one key neither creates,
/// removes nor alters another key's group.
pub proof fn lemma_independence_across_keys(pre: Mula, post: Mula, k1: Seq<char>, k2: Seq<char>)
    requires
        step_on_key(pre, post, k1),
        k2 != k1,
    ensures
        post.has_key(k2) == pre.has_key(k2),
        pre.has_key(k2) ==> post.group(k2) == pre.group(k2),
{
    if exists|e: Enrollment| subscribe_rel(pre, post, k1, e) {
        let e = choose|e: Enrollment| subscribe_rel(pre, post, k1, e);
    } else if exists|o: Option<String>| deliver_rel(pre, post, k1, o) {
        let o = choose|o: Option<String>| deliver_rel(pre, post, k1, o);
    } else if exists|t: Ticket, r: Option<Option<String>>|
        t.key@ == k1 && collect_rel(pre, post, t, r) {
        let (t, r) = choose|t: Ticket, r: Option<Option<String>>|
            t.key@ == k1 && collect_rel(pre, post, t, r);
    } else {
        let t = choose|t: Ticket| t.key@ == k1 && abandon_rel(pre, post, t);
    }
}

/// Value fidelity: every copy a delivery pass has published for a key
/// equals the outcome recorded for that key — a waiter can never take a
/// copy of a value produced for a different key, since each group owns its
/// channel and fills it with its own outcome only.
pub proof fn lemma_value_fidelity(m: Mula, k: Seq<char>, i: int)
    requires
        m.wf(),
        m.has_key(k),
        m.group(k).is_done(),
        0 <= i < m.group(k).pending().len(),
    ensures
        m.group(k).pending()[i] == m.group(k).done_value(),
{
    let j = m.key_idx(k);
    assert(0 <= j < m.reg().len() && m.reg()[j].0@ == k);
    assert(m.reg()[j].1.wf());
}

/// The late joiner is served: a request for a key whose delivery pass has
/// already run is handed the recorded outcome at once — it neither waits
/// forever nor restarts the work.
pub proof fn lemma_late_joiner_served(pre: Mula, post: Mula, k: Seq<char>, e: Enrollment)
    requires
        subscribe_rel(pre, post, k, e),
        pre.has_key(k),
        pre.group(k).is_done(),
    ensures
        e matches Enrollment::Ready(v) && outcome_view(v) == pre.group(k).done_value(),
{
}

/// Abandonment costs nothing: when a waiter gives up before delivery, the
/// later delivery pass publishes one copy fewer — exactly one per waiter
/// still live — so no extra publication is ever sent to the others.
pub proof fn lemma_abandonment_sheds_copy(
    m0: Mula,
    m1: Mula,
    m2: Mula,
    t: Ticket,
    o: Option<String>,
)
    requires
        abandon_rel(m0, m1, t),
        !m0.group(t.key@).is_done(),
        deliver_rel(m1, m2, t.key@, o),
    ensures
        m2.group(t.key@).pending().len() == count_waiting(m0.group(t.key@).handles@) - 1,
{
    lemma_count_update(m0.group(t.key@).handles@, t.slot as int, crate::bus::Slot::Abandoned);
}

} // verus!
