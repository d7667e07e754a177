//! What holds of a semaphore across its operations.
use std::task::Waker;
use vstd::prelude::*;

use super::model;
use super::model::{Progress, SemaphoreView, Slot, Waiter, MAX_PERMITS};

verus! {

proof fn lemma_sum_concat(a: Seq<nat>, b: Seq<nat>)
    ensures
        model::sum(a + b) == model::sum(a) + model::sum(b),
    decreases a.len(),
{
    if a.len() == 0 {
        assert(a + b == b);
    } else {
        assert((a + b).drop_first() == a.drop_first() + b);
        lemma_sum_concat(a.drop_first(), b);
    }
}

proof fn lemma_sum_one(x: nat)
    ensures
        model::sum(seq![x]) == x,
{
    assert(seq![x].drop_first() == Seq::<nat>::empty());
    assert(model::sum(seq![x].drop_first()) == 0);
}

proof fn lemma_sum_push(s: Seq<nat>, x: nat)
    ensures
        model::sum(s.push(x)) == model::sum(s) + x,
{
    lemma_sum_concat(s, seq![x]);
    lemma_sum_one(x);
    assert(s.push(x) == s + seq![x]);
}

proof fn lemma_sum_remove(s: Seq<nat>, i: int)
    requires
        0 <= i < s.len(),
    ensures
        model::sum(s) == model::sum(s.remove(i)) + s[i],
{
    let a = s.take(i);
    let b = s.skip(i + 1);
    lemma_sum_concat(a, b);
    lemma_sum_concat(a, seq![s[i]]);
    lemma_sum_concat(a + seq![s[i]], b);
    lemma_sum_one(s[i]);
    assert(s == a + seq![s[i]] + b);
    assert(s.remove(i) == a + b);
}

proof fn lemma_sum_update(s: Seq<nat>, i: int, x: nat)
    requires
        0 <= i < s.len(),
    ensures
        model::sum(s.update(i, x)) + s[i] == model::sum(s) + x,
{
    lemma_sum_remove(s, i);
    lemma_sum_remove(s.update(i, x), i);
    assert(s.update(i, x).remove(i) == s.remove(i));
}

/// The permits assigned to the requests of a queue.
spec fn queue_grants(queue: Seq<Waiter>) -> Seq<nat> {
    queue.map_values(|w: Waiter| w.granted())
}

/// The permits assigned to the requests that have left the queue.
spec fn slot_grants(slots: Seq<Slot>) -> Seq<nat> {
    slots.map_values(|s: Slot| s.granted())
}

proof fn lemma_slot_update(slots: Seq<Slot>, t: int, slot: Slot)
    requires
        0 <= t < slots.len(),
    ensures
        model::sum(slot_grants(slots.update(t, slot))) + slots[t].granted() == model::sum(
            slot_grants(slots),
        ) + slot.granted(),
{
    lemma_sum_update(slot_grants(slots), t, slot.granted());
    assert(slot_grants(slots.update(t, slot)) == slot_grants(slots).update(t, slot.granted()));
}

/// Adding `n` permits makes the permits in the semaphore `n` more, whoever gets
/// them.
pub proof fn law_release_adds(v: SemaphoreView, n: nat)
    requires
        v.valid(),
    ensures
        v.release(n).0.held() == v.held() + n,
    decreases v.queue.len(),
{
    if n > 0 && v.queue.len() > 0 {
        let first = v.queue[0];
        if first.missing > n {
            let w = v.release(n).0;
            lemma_sum_update(queue_grants(v.queue), 0, w.queue[0].granted());
            assert(queue_grants(w.queue) == queue_grants(v.queue).update(0, w.queue[0].granted()));
        } else {
            let w = v.settle_first();
            model::lemma_settle_first(v);
            law_release_adds(w, (n - first.missing) as nat);
            lemma_slot_update(v.slots, first.ticket as int, w.slots[first.ticket as int]);
            assert(queue_grants(w.queue) == queue_grants(v.queue).drop_first());
        }
    }
}

/// Asking for `num` permits takes `num` out of the semaphore if the request is
/// met, and none if it is not.
pub proof fn law_asking_takes(
    v: SemaphoreView,
    num: u32,
    ticket: Option<usize>,
    waker: Waker,
    progress: Progress,
)
    requires
        v.valid(),
        v.tracks(num as nat, ticket),
        v.makes_progress(num as nat, ticket, progress),
    ensures
        v.asked(num as nat, ticket, waker, progress).held() + (if progress is Acquired {
            num as nat
        } else {
            0
        }) == v.held(),
{
    let w = v.asked(num as nat, ticket, waker, progress);
    match (progress, ticket) {
        (Progress::Waiting(t), None) => {
            let last = w.queue[v.queue.len() as int];
            lemma_sum_push(queue_grants(v.queue), last.granted());
            assert(queue_grants(w.queue) == queue_grants(v.queue).push(last.granted()));
            if t < v.slots.len() {
                lemma_slot_update(v.slots, t as int, Slot::Queued);
            } else {
                lemma_sum_push(slot_grants(v.slots), 0);
                assert(slot_grants(w.slots) == slot_grants(v.slots).push(0));
            }
        },
        (Progress::Waiting(_), Some(t)) => {
            model::lemma_place(v, t as int);
            assert(queue_grants(w.queue) == queue_grants(v.queue));
        },
        (Progress::Acquired, Some(t)) => {
            lemma_slot_update(v.slots, t as int, Slot::Vacant);
        },
        _ => {},
    }
}

/// Giving up a request loses no permit: what it had been assigned is in the
/// semaphore as before.
pub proof fn law_cancel_keeps(v: SemaphoreView, t: int)
    requires
        v.valid(),
        0 <= t < v.slots.len(),
        v.slots[t] !is Vacant,
    ensures
        v.cancel(t).0.held() == v.held(),
{
    let w = v.without(t);
    model::lemma_without_valid(v, t);
    law_release_adds(w, v.granted(t));
    lemma_slot_update(v.slots, t, Slot::Vacant);
    if v.slots[t] is Queued {
        model::lemma_place(v, t);
        let p = model::place_of(v.queue, t);
        lemma_sum_remove(queue_grants(v.queue), p);
        assert(queue_grants(w.queue) == queue_grants(v.queue).remove(p));
    }
}

/// `slots` once the requests of `queue` have been turned away one by one.
spec fn turned_away(slots: Seq<Slot>, queue: Seq<Waiter>) -> Seq<Slot>
    decreases queue.len(),
{
    if queue.len() == 0 {
        slots
    } else {
        let w = queue[0];
        turned_away(
            slots.update(
                w.ticket as int,
                Slot::Settled { requested: w.requested, missing: w.missing },
            ),
            queue.drop_first(),
        )
    }
}

proof fn lemma_turned_away(slots: Seq<Slot>, queue: Seq<Waiter>)
    requires
        forall|i: int|
            0 <= i < queue.len() ==> (#[trigger] queue[i]).ticket < slots.len()
                && slots[queue[i].ticket as int] is Queued,
        forall|i: int, j: int|
            0 <= i < j < queue.len() ==> (#[trigger] queue[i]).ticket != (
            #[trigger] queue[j]).ticket,
    ensures
        turned_away(slots, queue).len() == slots.len(),
        forall|i: int|
            0 <= i < queue.len() ==> turned_away(slots, queue)[(
            #[trigger] queue[i]).ticket as int] == (Slot::Settled {
                requested: queue[i].requested,
                missing: queue[i].missing,
            }),
        forall|t: int|
            0 <= t < slots.len() && !model::waits(queue, t) ==> #[trigger] turned_away(
                slots,
                queue,
            )[t] == slots[t],
        model::sum(slot_grants(turned_away(slots, queue))) == model::sum(slot_grants(slots))
            + model::sum(queue_grants(queue)),
    decreases queue.len(),
{
    if queue.len() > 0 {
        let w = queue[0];
        let rest = queue.drop_first();
        let slot = Slot::Settled { requested: w.requested, missing: w.missing };
        let next = slots.update(w.ticket as int, slot);
        assert(queue_grants(rest) == queue_grants(queue).drop_first());
        lemma_slot_update(slots, w.ticket as int, slot);
        assert forall|i: int| 0 <= i < rest.len() implies (#[trigger] rest[i]).ticket < next.len()
            && next[rest[i].ticket as int] is Queued by {
            assert(rest[i] == queue[i + 1]);
        }
        lemma_turned_away(next, rest);
        let done = turned_away(next, rest);
        assert forall|i: int| 0 <= i < queue.len() implies done[(
        #[trigger] queue[i]).ticket as int] == (Slot::Settled {
            requested: queue[i].requested,
            missing: queue[i].missing,
        }) by {
            if i > 0 {
                assert(queue[i] == rest[i - 1]);
            } else {
                assert(!model::waits(rest, w.ticket as int));
            }
        }
        assert forall|t: int| 0 <= t < slots.len() && !model::waits(queue, t) implies (
        #[trigger] done[t]) == slots[t] by {
            if model::waits(rest, t) {
                let i = choose|i: int| 0 <= i < rest.len() && (#[trigger] rest[i]).ticket == t;
                assert(queue[i + 1].ticket == t);
            }
            assert(t != w.ticket) by {
                assert(queue[0].ticket == w.ticket);
            }
        }
    }
}

/// Closing a semaphore loses no permit.
pub proof fn law_close_keeps(v: SemaphoreView)
    requires
        v.valid(),
    ensures
        v.close().0.held() == v.held(),
{
    lemma_turned_away(v.slots, v.queue);
    let w = v.close().0;
    assert forall|t: int| 0 <= t < v.slots.len() implies w.slots[t] == turned_away(
        v.slots,
        v.queue,
    )[t] by {
        if v.slots[t] is Queued {
            model::lemma_place(v, t);
        } else if model::waits(v.queue, t) {
            let i = choose|i: int| 0 <= i < v.queue.len() && (#[trigger] v.queue[i]).ticket == t;
            assert(v.slots[v.queue[i].ticket as int] is Queued);
        }
    }
    assert(w.slots == turned_away(v.slots, v.queue));
    assert(queue_grants(w.queue) == Seq::<nat>::empty());
}

/// What the first `k` requests of a queue miss together.
pub open spec fn need(queue: Seq<Waiter>, k: int) -> nat {
    model::sum(queue.take(k).map_values(|w: Waiter| w.missing as nat))
}

/// How many requests of a queue, from the first on, `n` permits are enough for.
pub open spec fn served(queue: Seq<Waiter>, n: nat) -> nat
    decreases queue.len(),
{
    if queue.len() == 0 || queue[0].missing > n {
        0
    } else {
        1 + served(queue.drop_first(), (n - queue[0].missing) as nat)
    }
}

proof fn lemma_need_step(queue: Seq<Waiter>, k: int)
    requires
        0 < k <= queue.len(),
    ensures
        need(queue, k) == queue[0].missing + need(queue.drop_first(), k - 1),
{
    let missing = |w: Waiter| w.missing as nat;
    let s = queue.take(k).map_values(missing);
    assert(s.drop_first() == queue.drop_first().take(k - 1).map_values(missing));
}

/// Permits are given out in the order in which they were asked for. Of the
/// requests that wait, `n` added permits meet the longest waiting ones that
/// they are enough for, and no other; these leave the queue, are woken in that
/// order, and their next question finds the permits there. What is left goes to
/// the next request in the queue, and is free only if there is none.
pub proof fn law_release_in_order(v: SemaphoreView, n: nat)
    requires
        v.valid(),
    ensures
        ({
            let k = served(v.queue, n) as int;
            let (after, woken) = v.release(n);
            &&& k <= v.queue.len()
            &&& need(v.queue, k) <= n
            &&& k < v.queue.len() ==> n < need(v.queue, k) + v.queue[k].missing
            &&& woken == v.queue.take(k).map_values(|w: Waiter| w.waker)
            &&& forall|i: int|
                0 <= i < k ==> after.slots[(#[trigger] v.queue[i]).ticket as int] == (
                Slot::Settled { requested: v.queue[i].requested, missing: 0 })
            &&& k == v.queue.len() ==> after.queue == Seq::<Waiter>::empty() && after.permits
                == v.permits + n - need(v.queue, k)
            &&& k < v.queue.len() ==> {
                let next = v.queue[k];
                &&& after.permits == v.permits
                &&& after.queue == v.queue.skip(k).update(
                    0,
                    Waiter {
                        missing: (next.missing - (n - need(v.queue, k))) as usize,
                        ..next
                    },
                )
            }
        }),
    decreases v.queue.len(),
{
    let k = served(v.queue, n) as int;
    let (after, woken) = v.release(n);
    let waker = |w: Waiter| w.waker;
    if v.queue.len() == 0 || v.queue[0].missing > n {
        assert(v.queue.take(0).map_values(|w: Waiter| w.missing as nat) == Seq::<nat>::empty());
        assert(need(v.queue, 0) == 0);
        assert(woken == v.queue.take(k).map_values(waker));
        assert(v.queue.skip(0) == v.queue);
        if v.queue.len() > 0 && n == 0 {
            assert(v.queue.update(0, v.queue[0]) == v.queue);
        }
    } else {
        let first = v.queue[0];
        let w = v.settle_first();
        let rest = (n - first.missing) as nat;
        model::lemma_settle_first(v);
        law_release_in_order(w, rest);
        lemma_release_leaves_others(w, rest, first.ticket as int);
        lemma_need_step(v.queue, k);
        assert(woken == v.queue.take(k).map_values(waker)) by {
            let tail = w.queue.take(k - 1).map_values(waker);
            assert(v.queue.take(k).map_values(waker) == seq![first.waker] + tail);
        }
        assert forall|i: int| 0 <= i < k implies after.slots[(
        #[trigger] v.queue[i]).ticket as int] == (Slot::Settled {
            requested: v.queue[i].requested,
            missing: 0,
        }) by {
            if i > 0 {
                assert(v.queue[i] == w.queue[i - 1]);
            }
        }
        if k < v.queue.len() {
            assert(v.queue[k] == w.queue[k - 1]);
            assert(v.queue.skip(k) == w.queue.skip(k - 1));
        }
    }
}

/// Adding permits leaves alone what no request in the queue stands for.
proof fn lemma_release_leaves_others(v: SemaphoreView, n: nat, t: int)
    requires
        v.valid(),
        0 <= t < v.slots.len(),
        v.slots[t] !is Queued,
    ensures
        v.release(n).0.slots.len() == v.slots.len(),
        v.release(n).0.slots[t] == v.slots[t],
    decreases v.queue.len(),
{
    if n > 0 && v.queue.len() > 0 && v.queue[0].missing <= n {
        model::lemma_settle_first(v);
        lemma_release_leaves_others(v.settle_first(), (n - v.queue[0].missing) as nat, t);
    }
}

/// While a request waits, one made later for any permit at all has to wait too,
/// and takes its place behind it.
pub proof fn law_no_overtaking(v: SemaphoreView, num: u32, waker: Waker, progress: Progress)
    requires
        v.valid(),
        v.queue.len() > 0,
        num > 0,
        v.makes_progress(num as nat, None, progress),
    ensures
        progress is Waiting,
        v.asked(num as nat, None, waker, progress).queue.drop_last() == v.queue,
{
    let w = v.asked(num as nat, None, waker, progress);
    assert(w.queue.drop_last() == v.queue);
}

/// A request that is met at once, and then given back, leaves the semaphore as
/// it was, and wakes nobody.
pub proof fn law_release_undoes_taking(v: SemaphoreView, n: nat)
    requires
        v.valid(),
        n <= v.permits,
    ensures
        v.taken(n).release(n) == (v, Seq::<Waker>::empty()),
{
}

/// Permits that have been forgotten stay away: giving back none changes nothing.
pub proof fn law_forgotten_permits_stay_away(v: SemaphoreView)
    ensures
        v.release(0) == (v, Seq::<Waker>::empty()),
{
}

pub(crate) proof fn lemma_release_keeps_closed(v: SemaphoreView, n: nat)
    ensures
        v.release(n).0.closed == v.closed,
    decreases v.queue.len(),
{
    if n > 0 && v.queue.len() > 0 && v.queue[0].missing <= n {
        lemma_release_keeps_closed(v.settle_first(), (n - v.queue[0].missing) as nat);
    }
}

/// A closed semaphore stays closed, whatever is added, asked for or given up.
pub proof fn law_closed_for_good(
    v: SemaphoreView,
    n: nat,
    num: u32,
    ticket: Option<usize>,
    waker: Waker,
    progress: Progress,
    t: int,
)
    requires
        v.closed,
    ensures
        v.release(n).0.closed,
        v.asked(num as nat, ticket, waker, progress).closed,
        v.cancel(t).0.closed,
        v.close().0.closed,
{
    lemma_release_keeps_closed(v, n);
    lemma_release_keeps_closed(v.without(t), v.granted(t));
}

/// Once a semaphore is closed every request is turned away, also one that was
/// waiting, or had been assigned its permits, when it closed.
pub proof fn law_closed_turns_away(
    v: SemaphoreView,
    num: u32,
    ticket: Option<usize>,
    progress: Progress,
)
    requires
        v.valid(),
        v.tracks(num as nat, ticket),
        v.close().0.makes_progress(num as nat, ticket, progress),
    ensures
        progress is Closed,
        v.close().0.tracks(num as nat, ticket),
        v.close().0.queue.len() == 0,
{
}

/// A request that gives up before it has been assigned anything only loses its
/// place: the others keep theirs, and nobody is woken.
pub proof fn law_cancel_without_grant(v: SemaphoreView, t: int)
    requires
        v.valid(),
        0 <= t < v.slots.len(),
        v.slots[t] is Queued,
        v.granted(t) == 0,
    ensures
        v.cancel(t).0.queue == v.queue.remove(model::place_of(v.queue, t)),
        v.cancel(t).0.permits == v.permits,
        v.cancel(t).1 == Seq::<Waker>::empty(),
{
}

/// The free permits never exceed the permits that are in the semaphore, so
/// adding `n` fits wherever the permits in the semaphore stay within the bound.
pub proof fn law_held_bounds_free(v: SemaphoreView, n: nat)
    requires
        v.valid(),
        v.held() + n <= MAX_PERMITS,
    ensures
        v.fits(n),
{
    law_release_adds(v, n);
}

/// A request is found at the place where it waits.
proof fn lemma_found(v: SemaphoreView, i: int)
    requires
        v.valid(),
        0 <= i < v.queue.len(),
    ensures
        model::place_of(v.queue, v.queue[i].ticket as int) == i,
{
    model::lemma_place(v, v.queue[i].ticket as int);
}

/// A request that is not over stays known to the semaphore whatever is added.
pub proof fn law_release_keeps_requests(v: SemaphoreView, n: nat, num: nat, ticket: Option<usize>)
    requires
        v.valid(),
        v.fits(n),
        v.tracks(num, ticket),
    ensures
        v.release(n).0.tracks(num, ticket),
    decreases v.queue.len(),
{
    if let Some(t) = ticket {
        if n > 0 && v.queue.len() > 0 {
            let first = v.queue[0];
            model::lemma_release_valid(v, n);
            if first.missing > n {
                let w = v.release(n).0;
                if v.slots[t as int] is Queued {
                    model::lemma_place(v, t as int);
                    let i = model::place_of(v.queue, t as int);
                    assert(w.queue[i].ticket == t);
                    lemma_found(w, i);
                }
            } else {
                let w = v.settle_first();
                model::lemma_settle_first(v);
                if v.slots[t as int] is Queued {
                    model::lemma_place(v, t as int);
                    let i = model::place_of(v.queue, t as int);
                    if i > 0 {
                        assert(w.queue[i - 1] == v.queue[i]);
                        lemma_found(w, i - 1);
                    }
                }
                law_release_keeps_requests(w, (n - first.missing) as nat, num, ticket);
            }
        }
    }
}

/// A request that is not over stays known to the semaphore whatever others ask
/// for.
pub proof fn law_asking_keeps_other_requests(
    v: SemaphoreView,
    asked: u32,
    asker: Option<usize>,
    waker: Waker,
    progress: Progress,
    num: nat,
    ticket: Option<usize>,
)
    requires
        v.valid(),
        v.tracks(asked as nat, asker),
        v.makes_progress(asked as nat, asker, progress),
        v.tracks(num, ticket),
        ticket is None || asker != ticket,
    ensures
        v.asked(asked as nat, asker, waker, progress).tracks(num, ticket),
{
    if let Some(t) = ticket {
        let w = v.asked(asked as nat, asker, waker, progress);
        model::lemma_asked_valid(v, asked as nat, asker, waker, progress);
        if v.slots[t as int] is Queued {
            model::lemma_place(v, t as int);
            let i = model::place_of(v.queue, t as int);
            if let Some(u) = asker {
                if progress is Waiting {
                    model::lemma_place(v, u as int);
                }
            }
            assert(w.queue[i].ticket == t);
            lemma_found(w, i);
        }
    }
}

/// A request that is not over stays known to the semaphore when another one is
/// given up.
pub proof fn law_cancel_keeps_other_requests(
    v: SemaphoreView,
    t: int,
    num: nat,
    ticket: Option<usize>,
)
    requires
        v.valid(),
        0 <= t < v.slots.len(),
        v.slots[t] !is Vacant,
        v.cancel(t).0.permits <= MAX_PERMITS,
        v.tracks(num, ticket),
        ticket matches Some(u) ==> u != t,
    ensures
        v.cancel(t).0.tracks(num, ticket),
{
    let w = v.without(t);
    model::lemma_without_valid(v, t);
    if let Some(u) = ticket {
        if v.slots[u as int] is Queued {
            model::lemma_place(v, u as int);
            let i = model::place_of(v.queue, u as int);
            if v.slots[t] is Queued {
                model::lemma_place(v, t);
                let p = model::place_of(v.queue, t);
                let j = if i < p { i } else { i - 1 };
                assert(w.queue[j] == v.queue[i]);
                lemma_found(w, j);
            } else {
                lemma_found(w, i);
            }
        }
    }
    law_release_keeps_requests(w, v.granted(t), num, ticket);
}

/// The bound on the permits of a semaphore is an eighth of the largest number.
pub proof fn law_bound()
    ensures
        MAX_PERMITS == usize::MAX / 8,
{
}

/// A new semaphore has exactly the permits that were asked for, up to the bound;
/// beyond it only the remainder counts. It is open, and nobody waits.
pub proof fn law_new_semaphore(permits: usize)
    ensures
        ({
            let v = SemaphoreView::with_permits(permits);
            &&& permits <= usize::MAX / 8 ==> v.permits == permits
            &&& permits > usize::MAX / 8 ==> v.permits == permits as int % (usize::MAX / 8 + 1)
            &&& !v.closed
            &&& v.queue.len() == 0
            &&& v.slots.len() == 0
        }),
{
}

/// Taking `n` permits makes `n` fewer free, and changes nothing else.
pub proof fn law_taking(v: SemaphoreView, n: nat)
    requires
        n <= v.permits,
    ensures
        v.taken(n).permits + n == v.permits,
        v.taken(n).closed == v.closed,
        v.taken(n).queue == v.queue,
        v.taken(n).slots == v.slots,
{
}

/// Permits are refused with the error that says why: the semaphore is closed, or it
/// is open and has too few.
pub proof fn law_refusal(v: SemaphoreView)
    ensures
        v.refusal() is Closed <==> v.closed,
        v.refusal() is NoPermits <==> !v.closed,
{
}

/// When a request is met. A closed semaphore meets none. Who has not waited has its
/// permits if so many are free, and otherwise begins to wait, in a slot that nobody
/// uses. Who has waited has them once it has left the queue, and otherwise goes on
/// waiting in its slot.
pub proof fn law_when_a_request_is_met(v: SemaphoreView, num: nat, t: usize, u: usize)
    ensures
        v.makes_progress(num, None, Progress::Closed) <==> v.closed,
        v.makes_progress(num, Some(t), Progress::Closed) <==> v.closed,
        v.makes_progress(num, None, Progress::Acquired) <==> !v.closed && num <= v.permits,
        v.makes_progress(num, Some(t), Progress::Acquired) <==> !v.closed
            && v.slots[t as int] is Settled,
        v.makes_progress(num, None, Progress::Waiting(u)) <==> !v.closed && num > v.permits && (u
            == v.slots.len() || (u < v.slots.len() && v.slots[u as int] is Vacant)),
        v.makes_progress(num, Some(t), Progress::Waiting(u)) <==> !v.closed && u == t
            && v.slots[t as int] is Queued,
{
}

/// A request that is refused changes nothing.
pub proof fn law_asking_a_closed_semaphore(
    v: SemaphoreView,
    num: nat,
    ticket: Option<usize>,
    waker: Waker,
)
    ensures
        v.asked(num, ticket, waker, Progress::Closed) == v,
{
}

/// A request that is met at once takes what it asked for out of the free permits,
/// and changes nothing else.
pub proof fn law_asking_met_at_once(v: SemaphoreView, num: nat, waker: Waker)
    requires
        num <= v.permits,
    ensures
        ({
            let w = v.asked(num, None, waker, Progress::Acquired);
            &&& w.permits + num == v.permits
            &&& w.closed == v.closed
            &&& w.queue == v.queue
            &&& w.slots == v.slots
        }),
{
}

/// A request that is met after it has waited gives its slot up. The free permits and
/// those who wait are as before: what it takes had been set aside for it.
pub proof fn law_asking_met_after_waiting(v: SemaphoreView, num: nat, t: usize, waker: Waker)
    requires
        t < v.slots.len(),
    ensures
        ({
            let w = v.asked(num, Some(t), waker, Progress::Acquired);
            &&& w.permits == v.permits
            &&& w.closed == v.closed
            &&& w.queue == v.queue
            &&& w.slots.len() == v.slots.len()
            &&& w.slots[t as int] is Vacant
            &&& forall|u: int|
                0 <= u < v.slots.len() && u != t ==> #[trigger] w.slots[u] == v.slots[u]
        }),
{
}

/// A request that begins to wait takes all that is free, and the last place. All that
/// wait keep their places, and what they have been assigned.
pub proof fn law_asking_begins_to_wait(v: SemaphoreView, num: u32, t: usize, waker: Waker)
    requires
        v.permits < num,
        t <= v.slots.len(),
    ensures
        ({
            let w = v.asked(num as nat, None, waker, Progress::Waiting(t));
            let last = w.queue[v.queue.len() as int];
            &&& w.permits == 0
            &&& w.closed == v.closed
            &&& w.queue.len() == v.queue.len() + 1
            &&& forall|i: int| 0 <= i < v.queue.len() ==> #[trigger] w.queue[i] == v.queue[i]
            &&& last.ticket == t
            &&& last.requested == num
            &&& last.missing + v.permits == num
            &&& last.waker == waker
            &&& w.slots.len() == (if t == v.slots.len() {
                v.slots.len() + 1
            } else {
                v.slots.len()
            })
            &&& w.slots[t as int] is Queued
            &&& forall|u: int|
                0 <= u < v.slots.len() && u != t ==> #[trigger] w.slots[u] == v.slots[u]
        }),
{
}

/// A request that is asked again while it waits keeps its place, whoever waits
/// before or behind it, and however often it is asked: all that changes is which
/// waker stands for it.
pub proof fn law_asking_again_keeps_the_place(
    v: SemaphoreView,
    num: nat,
    t: usize,
    i: int,
    waker: Waker,
)
    requires
        0 <= i < v.queue.len(),
        v.queue[i].ticket == t,
        forall|j: int| 0 <= j < v.queue.len() && (#[trigger] v.queue[j]).ticket == t ==> j == i,
    ensures
        ({
            let w = v.asked(num, Some(t), waker, Progress::Waiting(t));
            &&& w.permits == v.permits
            &&& w.closed == v.closed
            &&& w.slots == v.slots
            &&& w.queue.len() == v.queue.len()
            &&& forall|j: int|
                0 <= j < v.queue.len() ==> {
                    let after = #[trigger] w.queue[j];
                    &&& after.ticket == v.queue[j].ticket
                    &&& after.requested == v.queue[j].requested
                    &&& after.missing == v.queue[j].missing
                    &&& j != i ==> after.waker == v.queue[j].waker
                }
            &&& w.queue[i].waker == waker
        }),
{
    assert(model::place_of(v.queue, t as int) == i) by {
        assert(v.queue[i].ticket == t);
    }
}

/// Adding no permits changes nothing. Permits that nobody waits for are free.
pub proof fn law_adding_when_nobody_waits(v: SemaphoreView, n: nat)
    ensures
        v.release(0).0 == v,
        v.release(0).1.len() == 0,
        v.queue.len() == 0 ==> {
            let (w, woken) = v.release(n);
            &&& w.permits == v.permits + n
            &&& w.closed == v.closed
            &&& w.queue.len() == 0
            &&& w.slots == v.slots
            &&& woken.len() == 0
        },
{
}

/// Permits that are not enough for the longest waiting are set aside for it: it
/// misses so many fewer. Nobody else gets any, and nobody is woken.
pub proof fn law_adding_too_few_for_the_first(v: SemaphoreView, n: nat)
    requires
        v.queue.len() > 0,
        n < v.queue[0].missing,
    ensures
        ({
            let (w, woken) = v.release(n);
            &&& w.permits == v.permits
            &&& w.closed == v.closed
            &&& w.slots == v.slots
            &&& woken.len() == 0
            &&& w.queue.len() == v.queue.len()
            &&& forall|i: int| 0 < i < v.queue.len() ==> #[trigger] w.queue[i] == v.queue[i]
            &&& w.queue[0].ticket == v.queue[0].ticket
            &&& w.queue[0].requested == v.queue[0].requested
            &&& w.queue[0].missing + n == v.queue[0].missing
            &&& w.queue[0].waker == v.queue[0].waker
        }),
{
}

/// Permits that are enough for the longest waiting meet it, and it is woken first.
/// What is left is added as if it had not been there.
pub proof fn law_adding_enough_for_the_first(v: SemaphoreView, rest: SemaphoreView, n: nat)
    requires
        v.queue.len() > 0,
        n > 0,
        v.queue[0].missing <= n,
        v.queue[0].ticket < v.slots.len(),
        rest.permits == v.permits,
        rest.closed == v.closed,
        rest.queue == v.queue.skip(1),
        rest.slots.len() == v.slots.len(),
        rest.slots[v.queue[0].ticket as int] == (Slot::Settled {
            requested: v.queue[0].requested,
            missing: 0,
        }),
        forall|t: int|
            0 <= t < v.slots.len() && t != v.queue[0].ticket ==> #[trigger] rest.slots[t]
                == v.slots[t],
    ensures
        v.release(n).0 == rest.release((n - v.queue[0].missing) as nat).0,
        v.release(n).1 == seq![v.queue[0].waker] + rest.release(
            (n - v.queue[0].missing) as nat,
        ).1,
{
    assert(rest.queue =~= v.settle_first().queue);
    assert(rest.slots =~= v.settle_first().slots);
    assert(rest == v.settle_first());
}

/// Adding permits does the same in two portions as at once.
pub proof fn law_adding_in_portions(v: SemaphoreView, m: nat, n: nat)
    requires
        v.valid(),
    ensures
        v.release(m + n).0 == v.release(m).0.release(n).0,
        v.release(m + n).1 == v.release(m).1 + v.release(m).0.release(n).1,
    decreases v.queue.len(),
{
    let none = Seq::<Waker>::empty();
    assert(v.release(m + n).1 =~= none + v.release(m + n).1);
    if m > 0 && v.queue.len() > 0 {
        let first = v.queue[0];
        if first.missing > m {
            let w = v.release(m).0;
            assert(v.release(m).1 == none);
            if n > 0 {
                if first.missing > m + n {
                    assert(v.release(m + n).0.queue =~= w.release(n).0.queue);
                } else {
                    assert(w.queue.drop_first() =~= v.queue.drop_first());
                    assert(w.settle_first() == v.settle_first());
                    assert(v.release(m + n).1 =~= none + w.release(n).1);
                }
            }
        } else {
            let w = v.settle_first();
            let rest = (m - first.missing) as nat;
            model::lemma_settle_first(v);
            law_adding_in_portions(w, rest, n);
            assert((m + n - first.missing) as nat == rest + n);
            let head = seq![first.waker];
            assert(head + (w.release(rest).1 + w.release(rest).0.release(n).1) =~= (head
                + w.release(rest).1) + w.release(rest).0.release(n).1);
        }
    }
}

/// Permits can be added if and only if no more than the bound are free then. While
/// nobody waits that is a matter of their number; what the longest waiting misses
/// comes off it.
pub proof fn law_what_can_be_added(v: SemaphoreView, n: nat)
    ensures
        v.fits(n) <==> v.release(n).0.permits <= usize::MAX / 8,
        v.queue.len() == 0 && n > 0 ==> (v.fits(n) <==> v.permits + n <= usize::MAX / 8),
        v.queue.len() > 0 && n < v.queue[0].missing ==> (v.fits(n) <==> v.permits <= usize::MAX
            / 8),
{
}

/// Closing a semaphore turns away all that wait. Each keeps on record what it asked
/// for and what it still misses; all are woken, in the order in which they wait. The
/// free permits and all other requests are as before.
pub proof fn law_closing(v: SemaphoreView)
    requires
        forall|i: int|
            0 <= i < v.queue.len() ==> (#[trigger] v.queue[i]).ticket < v.slots.len()
                && v.slots[v.queue[i].ticket as int] is Queued,
        forall|i: int, j: int|
            0 <= i < j < v.queue.len() ==> (#[trigger] v.queue[i]).ticket != (
            #[trigger] v.queue[j]).ticket,
    ensures
        ({
            let (w, woken) = v.close();
            &&& w.closed
            &&& w.permits == v.permits
            &&& w.queue.len() == 0
            &&& w.slots.len() == v.slots.len()
            &&& forall|i: int|
                0 <= i < v.queue.len() ==> w.slots[(#[trigger] v.queue[i]).ticket as int] == (
                Slot::Settled { requested: v.queue[i].requested, missing: v.queue[i].missing })
            &&& forall|t: int|
                0 <= t < v.slots.len() && v.slots[t] !is Queued ==> #[trigger] w.slots[t]
                    == v.slots[t]
            &&& woken.len() == v.queue.len()
            &&& forall|i: int| 0 <= i < v.queue.len() ==> #[trigger] woken[i] == v.queue[i].waker
        }),
{
    let (w, woken) = v.close();
    assert forall|i: int| 0 <= i < v.queue.len() implies w.slots[(
    #[trigger] v.queue[i]).ticket as int] == (Slot::Settled {
        requested: v.queue[i].requested,
        missing: v.queue[i].missing,
    }) by {
        let p = model::place_of(v.queue, v.queue[i].ticket as int);
        assert(0 <= p < v.queue.len() && v.queue[p].ticket == v.queue[i].ticket);
        assert(p == i);
    }
}

/// Giving up a request that waits takes it, and nobody else, out of the queue, and
/// adds again what it had been assigned.
pub proof fn law_giving_up_while_waiting(
    v: SemaphoreView,
    rest: SemaphoreView,
    i: int,
    granted: nat,
)
    requires
        0 <= i < v.queue.len(),
        forall|j: int|
            0 <= j < v.queue.len() && j != i ==> (#[trigger] v.queue[j]).ticket
                != v.queue[i].ticket,
        v.queue[i].ticket < v.slots.len(),
        v.slots[v.queue[i].ticket as int] is Queued,
        v.queue[i].missing + granted == v.queue[i].requested,
        rest.permits == v.permits,
        rest.closed == v.closed,
        rest.queue == v.queue.take(i) + v.queue.skip(i + 1),
        rest.slots.len() == v.slots.len(),
        rest.slots[v.queue[i].ticket as int] is Vacant,
        forall|t: int|
            0 <= t < v.slots.len() && t != v.queue[i].ticket ==> #[trigger] rest.slots[t]
                == v.slots[t],
    ensures
        v.cancel(v.queue[i].ticket as int) == rest.release(granted),
{
    let t = v.queue[i].ticket as int;
    assert(model::place_of(v.queue, t) == i) by {
        assert(v.queue[i].ticket == t);
    }
    assert(rest.queue =~= v.queue.remove(i));
    assert(rest.slots =~= v.slots.update(t, Slot::Vacant));
    assert(rest == v.without(t));
}

/// Giving up a request that has left the queue frees its slot, and adds again what
/// it had been assigned. Those who wait keep their places.
pub proof fn law_giving_up_after_waiting(
    v: SemaphoreView,
    rest: SemaphoreView,
    t: int,
    requested: usize,
    missing: usize,
)
    requires
        0 <= t < v.slots.len(),
        v.slots[t] == (Slot::Settled { requested, missing }),
        missing <= requested,
        rest.permits == v.permits,
        rest.closed == v.closed,
        rest.queue == v.queue,
        rest.slots.len() == v.slots.len(),
        rest.slots[t] is Vacant,
        forall|u: int| 0 <= u < v.slots.len() && u != t ==> #[trigger] rest.slots[u] == v.slots[u],
    ensures
        v.cancel(t) == rest.release((requested - missing) as nat),
{
    assert(rest.slots =~= v.slots.update(t, Slot::Vacant));
    assert(rest == v.without(t));
}

/// A request is known to a semaphore if it has not waited, or if its slot is that of
/// a request for as many permits, which waits or has left the queue.
pub proof fn law_known_requests(v: SemaphoreView, num: nat, t: usize, i: int)
    requires
        t < v.slots.len(),
    ensures
        v.tracks(num, None),
        v.slots[t as int] is Vacant ==> !v.tracks(num, Some(t)),
        v.slots[t as int] matches Slot::Settled { requested, missing } ==> (v.tracks(num, Some(t))
            <==> requested == num),
        v.slots[t as int] is Queued && 0 <= i < v.queue.len() && v.queue[i].ticket == t && (forall|
            j: int,
        |
            0 <= j < v.queue.len() && (#[trigger] v.queue[j]).ticket == t ==> j == i) ==> (
        v.tracks(num, Some(t)) <==> v.queue[i].requested == num),
{
    if 0 <= i < v.queue.len() && v.queue[i].ticket == t {
        assert(model::waits(v.queue, t as int));
        let p = model::place_of(v.queue, t as int);
        assert(0 <= p < v.queue.len() && v.queue[p].ticket == t);
    }
}

/// The permits in a semaphore are those that are free, those set aside for each
/// request that waits, and those set aside for each that has left the queue.
pub proof fn law_permits_in_a_semaphore(v: SemaphoreView, w: Waiter, slot: Slot)
    requires
        w.missing <= w.requested,
    ensures
        v.queue.len() == 0 && v.slots.len() == 0 ==> v.held() == v.permits,
        (SemaphoreView { queue: v.queue.push(w), ..v }).held() + w.missing == v.held()
            + w.requested,
        slot matches Slot::Settled { requested, missing } ==> missing <= requested ==> (
        SemaphoreView { slots: v.slots.push(slot), ..v }).held() + missing == v.held() + requested,
        slot !is Settled ==> (SemaphoreView { slots: v.slots.push(slot), ..v }).held() == v.held(),
{
    lemma_sum_push(queue_grants(v.queue), w.granted());
    assert(queue_grants(v.queue.push(w)) =~= queue_grants(v.queue).push(w.granted()));
    lemma_sum_push(slot_grants(v.slots), slot.granted());
    assert(slot_grants(v.slots.push(slot)) =~= slot_grants(v.slots).push(slot.granted()));
    if v.queue.len() == 0 && v.slots.len() == 0 {
        assert(queue_grants(v.queue) =~= Seq::<nat>::empty());
        assert(slot_grants(v.slots) =~= Seq::<nat>::empty());
    }
}

/// An operation on a semaphore that is not closed.
pub enum Operation {
    /// Permits are added.
    Add(nat),
    /// Permits are taken at once.
    Take(nat),
    /// A request is made, or asked again, and fares as `progress` says.
    Ask { num: u32, ticket: Option<usize>, waker: Waker, progress: Progress },
    /// The request of this slot is given up.
    GiveUp(usize),
}

impl Operation {
    /// Whether the operation can take place.
    pub open spec fn possible(self, v: SemaphoreView) -> bool {
        match self {
            Operation::Add(n) => v.fits(n),
            Operation::Take(n) => n <= v.permits,
            Operation::Ask { num, ticket, waker, progress } => {
                &&& v.tracks(num as nat, ticket)
                &&& v.makes_progress(num as nat, ticket, progress)
            },
            Operation::GiveUp(t) => {
                &&& t < v.slots.len()
                &&& v.slots[t as int] !is Vacant
                &&& v.cancel(t as int).0.permits <= MAX_PERMITS
            },
        }
    }

    /// The semaphore after the operation.
    pub open spec fn after(self, v: SemaphoreView) -> SemaphoreView {
        match self {
            Operation::Add(n) => v.release(n).0,
            Operation::Take(n) => v.taken(n),
            Operation::Ask { num, ticket, waker, progress } => v.asked(
                num as nat,
                ticket,
                waker,
                progress,
            ),
            Operation::GiveUp(t) => v.cancel(t as int).0,
        }
    }
}

proof fn lemma_operation_valid(v: SemaphoreView, op: Operation)
    requires
        v.valid(),
        op.possible(v),
    ensures
        op.after(v).valid(),
{
    match op {
        Operation::Add(n) => {
            model::lemma_release_valid(v, n);
        },
        Operation::Take(n) => {},
        Operation::Ask { num, ticket, waker, progress } => {
            model::lemma_asked_valid(v, num as nat, ticket, waker, progress);
        },
        Operation::GiveUp(t) => {
            model::lemma_without_valid(v, t as int);
            model::lemma_release_valid(v.without(t as int), v.granted(t as int));
        },
    }
}

/// Whether request `a` waits, and request `b` waits behind it.
pub open spec fn ahead(queue: Seq<Waiter>, a: usize, b: usize) -> bool {
    exists|i: int, j: int|
        0 <= i < j < queue.len() && (#[trigger] queue[i]).ticket == a && (
        #[trigger] queue[j]).ticket == b
}

proof fn lemma_release_keeps_order(v: SemaphoreView, n: nat, a: usize, b: usize)
    requires
        v.valid(),
        v.fits(n),
        ahead(v.queue, a, b),
        v.release(n).0.slots[a as int] is Queued,
    ensures
        ahead(v.release(n).0.queue, a, b),
{
    let (i, j) = choose|i: int, j: int|
        0 <= i < j < v.queue.len() && (#[trigger] v.queue[i]).ticket == a && (
        #[trigger] v.queue[j]).ticket == b;
    let w = v.release(n).0;
    let k = served(v.queue, n) as int;
    law_release_in_order(v, n);
    if i < k {
        assert(w.slots[v.queue[i].ticket as int] is Settled);
    } else {
        assert(w.queue[i - k].ticket == a);
        assert(w.queue[j - k].ticket == b);
    }
}

/// No operation lets a request that waits behind another one pass it, be it asked
/// again, and whoever else asks, takes, adds or gives up: as long as the first waits
/// the other waits behind it.
pub proof fn law_order_is_kept(v: SemaphoreView, op: Operation, a: usize, b: usize)
    requires
        v.valid(),
        op.possible(v),
        !v.closed,
        ahead(v.queue, a, b),
        op != Operation::GiveUp(b),
        op.after(v).slots[a as int] is Queued,
    ensures
        ahead(op.after(v).queue, a, b),
{
    let w = op.after(v);
    let (i, j) = choose|i: int, j: int|
        0 <= i < j < v.queue.len() && (#[trigger] v.queue[i]).ticket == a && (
        #[trigger] v.queue[j]).ticket == b;
    match op {
        Operation::Add(n) => {
            lemma_release_keeps_order(v, n, a, b);
        },
        Operation::Take(n) => {
            assert(w.queue[i].ticket == a && w.queue[j].ticket == b);
        },
        Operation::Ask { num, ticket, waker, progress } => {
            if let Some(t) = ticket {
                if progress is Waiting {
                    model::lemma_place(v, t as int);
                }
            }
            assert(w.queue[i].ticket == a && w.queue[j].ticket == b);
        },
        Operation::GiveUp(t) => {
            let rest = v.without(t as int);
            let granted = v.granted(t as int);
            model::lemma_without_valid(v, t as int);
            if t == a {
                lemma_release_leaves_others(rest, granted, t as int);
            } else {
                if v.slots[t as int] is Queued {
                    model::lemma_place(v, t as int);
                    let p = model::place_of(v.queue, t as int);
                    let x = if i < p {
                        i
                    } else {
                        i - 1
                    };
                    let y = if j < p {
                        j
                    } else {
                        j - 1
                    };
                    assert(rest.queue[x] == v.queue[i]);
                    assert(rest.queue[y] == v.queue[j]);
                } else {
                    assert(rest.queue[i].ticket == a && rest.queue[j].ticket == b);
                }
                assert(ahead(rest.queue, a, b));
                lemma_release_keeps_order(rest, granted, a, b);
            }
        },
    }
}

/// The semaphore after a sequence of operations.
pub open spec fn run(v: SemaphoreView, ops: Seq<Operation>) -> SemaphoreView
    decreases ops.len(),
{
    if ops.len() == 0 {
        v
    } else {
        ops.last().after(run(v, ops.drop_last()))
    }
}

/// Whether a sequence of operations can take place, and request `a` waits all the
/// while.
pub open spec fn waits_throughout(v: SemaphoreView, ops: Seq<Operation>, a: usize) -> bool
    decreases ops.len(),
{
    &&& run(v, ops).slots[a as int] is Queued
    &&& ops.len() > 0 ==> {
        &&& waits_throughout(v, ops.drop_last(), a)
        &&& ops.last().possible(run(v, ops.drop_last()))
    }
}

/// First come, first served. Of two requests that wait, the one that began to wait
/// later is not served as long as the other waits, however often either is asked,
/// and whatever others do in the meantime.
pub proof fn law_first_come_first_served(
    v: SemaphoreView,
    ops: Seq<Operation>,
    a: usize,
    b: usize,
)
    requires
        v.valid(),
        !v.closed,
        ahead(v.queue, a, b),
        waits_throughout(v, ops, a),
        forall|i: int| 0 <= i < ops.len() ==> #[trigger] ops[i] != Operation::GiveUp(b),
    ensures
        run(v, ops).valid(),
        !run(v, ops).closed,
        ahead(run(v, ops).queue, a, b),
        run(v, ops).slots[b as int] is Queued,
    decreases ops.len(),
{
    if ops.len() > 0 {
        let before = ops.drop_last();
        let now = run(v, before);
        assert(ops.last() == ops[ops.len() - 1]);
        assert forall|i: int| 0 <= i < before.len() implies #[trigger] before[i]
            != Operation::GiveUp(b) by {
            assert(before[i] == ops[i]);
        }
        law_first_come_first_served(v, before, a, b);
        law_order_is_kept(now, ops.last(), a, b);
        lemma_operation_valid(now, ops.last());
        if let Operation::Add(n) = ops.last() {
            lemma_release_keeps_closed(now, n);
        }
        if let Operation::GiveUp(t) = ops.last() {
            lemma_release_keeps_closed(now.without(t as int), now.granted(t as int));
        }
    }
    let w = run(v, ops);
    let (i, j) = choose|i: int, j: int|
        0 <= i < j < w.queue.len() && (#[trigger] w.queue[i]).ticket == a && (
        #[trigger] w.queue[j]).ticket == b;
    assert(w.slots[w.queue[j].ticket as int] is Queued);
}

} // verus!
