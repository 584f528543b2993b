//! The decisions of the control loop.
//!
//! The loop itself sleeps, reads and writes files and starts processes, so it
//! runs outside this library. What it decides is here: whether the front task
//! of the queue is dispatched and to which slot, and what is to be done when a
//! tick ends. A model of a whole run states what every run keeps.

use vstd::prelude::*;
use crate::text::text_of;
use crate::thread_pool::{
    all_balanced, dispatched, is_first_idle, lemma_running_count_bounded,
    lemma_failures_pointwise, lemma_processed_pointwise, lemma_running_count_full,
    lemma_total_processed_update, lemma_totals_balance, reconciled_all, room_for_next, running_count, slot_balanced,
    total_failures, total_processed, total_successes, SlotView, ThreadPool,
};

verus! {

/// A task handed to a slot: the caller records it in the history, persists
/// the shortened queue and then starts the task's process for that slot.
#[derive(Debug)]
pub struct Dispatch {
    /// The slot that the task was booked into.
    pub slot: usize,
    /// The task, as it stood in the queue.
    pub task: String,
}

/// What the caller does at the end of a tick.
#[derive(Clone, Copy, Debug, PartialEq, Eq, Structural)]
pub struct Verdict {
    /// The backlog is drained: its file is to be removed.
    pub remove_backlog: bool,
    /// The loop ends after this tick.
    pub stop: bool,
}

/// The state of a run: the pool's slots, the tasks still queued, and the
/// tasks dispatched so far, in the order of their dispatch.
pub struct Model {
    pub slots: Seq<SlotView>,
    pub queue: Seq<Seq<char>>,
    pub history: Seq<Seq<char>>,
}

/// What happens in a run.
pub enum Event {
    /// The loop looks at the queue at time `now`, with the lock marker
    /// present or not and the shutdown signal received or not.
    Offer { locked: bool, cancelled: bool, now: i64 },
    /// The loop reconciles the pool with the exits it has observed.
    Reconcile { exits: Seq<Option<i32>> },
}

/// A task is dispatched exactly when nothing holds the loop back: no lock
/// marker, no shutdown signal, a task in the queue and an idle slot.
pub open spec fn may_dispatch(
    slots: Seq<SlotView>,
    queue: Seq<Seq<char>>,
    locked: bool,
    cancelled: bool,
) -> bool {
    &&& !locked
    &&& !cancelled
    &&& queue.len() > 0
    &&& running_count(slots) < slots.len()
}

/// The lowest index of an idle slot.
pub open spec fn first_idle(slots: Seq<SlotView>) -> int {
    choose|i: int| is_first_idle(slots, i)
}

/// The run after the loop has looked at the queue once: where a task may be
/// dispatched, the front task leaves the queue, enters the history and is
/// booked into the lowest idle slot.
pub open spec fn offer(m: Model, locked: bool, cancelled: bool, now: i64) -> Model {
    if may_dispatch(m.slots, m.queue, locked, cancelled) {
        let i = first_idle(m.slots);
        Model {
            slots: m.slots.update(i, dispatched(m.slots[i], m.queue[0], now)),
            queue: m.queue.drop_first(),
            history: m.history.push(m.queue[0]),
        }
    } else {
        m
    }
}

/// The run after one event.
pub open spec fn step(m: Model, e: Event) -> Model {
    match e {
        Event::Offer { locked, cancelled, now } => offer(m, locked, cancelled, now),
        Event::Reconcile { exits } => Model { slots: reconciled_all(m.slots, exits), ..m },
    }
}

/// The run after a sequence of events.
pub open spec fn run(m: Model, events: Seq<Event>) -> Model
    decreases events.len(),
{
    if events.len() == 0 {
        m
    } else {
        step(run(m, events.drop_last()), events.last())
    }
}

/// The verdict at the end of a tick. `active` says whether the tick found a
/// backlog to work on. The backlog is removed when it is active, its queue
/// is empty and no slot runs. The loop stops when no slot runs and either
/// the shutdown signal was received or the active backlog is drained outside
/// persistent mode; without an active backlog the loop waits for one.
pub open spec fn verdict_of(
    slots: Seq<SlotView>,
    active: bool,
    queue_len: nat,
    cancelled: bool,
    persistent: bool,
) -> Verdict {
    let idle = running_count(slots) == 0;
    let drained = active && idle && queue_len == 0;
    Verdict { remove_backlog: drained, stop: idle && (cancelled || (drained && !persistent)) }
}

/// The tasks that a dispatch adds to the history: the task handed out, or
/// none.
pub open spec fn taken_by(next: Option<Dispatch>) -> Seq<Seq<char>> {
    match next {
        Some(d) => seq![d.task@],
        None => Seq::empty(),
    }
}

/// The time at which a dispatch was booked, as the slot shows it.
pub open spec fn stamp_of(slots: Seq<SlotView>, next: Option<Dispatch>) -> i64 {
    match next {
        Some(d) => slots[d.slot as int].started_at,
        None => 0,
    }
}

/// There is at most one lowest idle slot.
pub proof fn lemma_first_idle_unique(slots: Seq<SlotView>, i: int)
    requires
        is_first_idle(slots, i),
    ensures
        first_idle(slots) == i,
{
    let j = first_idle(slots);
    assert(is_first_idle(slots, j));
    if j < i {
        assert(slots[j].running);
    }
    if i < j {
        assert(slots[i].running);
    }
}

/// Dispatches the front task of the queue, if one may be dispatched: removes
/// it from `queue`, books it into the lowest idle slot of `pool` and returns
/// it with that slot. Otherwise nothing changes.
pub fn next_dispatch(
    pool: &mut ThreadPool,
    queue: &mut Vec<String>,
    locked: bool,
    cancelled: bool,
) -> (next: Option<Dispatch>)
    requires
        old(pool).wf(),
        may_dispatch(old(pool)@, text_of(old(queue)@), locked, cancelled) ==> room_for_next(
            old(pool)@,
        ),
    ensures
        final(pool).wf(),
        next is Some <==> may_dispatch(old(pool)@, text_of(old(queue)@), locked, cancelled),
        next is Some ==> is_first_idle(old(pool)@, next->0.slot as int),
        next is Some ==> next->0.task@ == old(queue)@[0]@,
        final(queue)@ == (if next is Some {
            old(queue)@.drop_first()
        } else {
            old(queue)@
        }),
        offer(
            Model { slots: old(pool)@, queue: text_of(old(queue)@), history: Seq::empty() },
            locked,
            cancelled,
            stamp_of(final(pool)@, next),
        ) == (Model {
            slots: final(pool)@,
            queue: text_of(final(queue)@),
            history: taken_by(next),
        }),
        running_count(final(pool)@) <= final(pool)@.len(),
{
    proof {
        lemma_running_count_bounded(pool@);
        lemma_running_count_full(pool@);
    }
    if locked || cancelled || queue.len() == 0 || !pool.has_one_available() {
        return None;
    }
    let task = queue.remove(0);
    let copy = task.clone();
    let thread_id = pool.dispatch(copy);
    proof {
        lemma_first_idle_unique(old(pool)@, thread_id as int);
        assert(queue@ =~= old(queue)@.drop_first());
        assert(text_of(old(queue)@)[0] == old(queue)@[0]@);
        assert(text_of(queue@) =~= text_of(old(queue)@).drop_first());
        assert(taken_by(Some(Dispatch { slot: thread_id, task })) =~= Seq::<Seq<char>>::empty().push(
            task@,
        ));
    }
    Some(Dispatch { slot: thread_id, task })
}

/// Decides what follows a tick, from the pool and the queue as the tick
/// leaves them. `active` says whether the tick found a backlog; without one
/// the queue is empty and counts for nothing.
pub fn conclude(
    pool: &ThreadPool,
    active: bool,
    queue: &Vec<String>,
    cancelled: bool,
    persistent: bool,
) -> (verdict: Verdict)
    requires
        pool.wf(),
    ensures
        verdict == verdict_of(pool@, active, queue@.len(), cancelled, persistent),
{
    proof {
        lemma_running_count_full(pool@);
    }
    let idle = !pool.is_ongoing();
    let drained = active && idle && queue.len() == 0;
    Verdict { remove_backlog: drained, stop: idle && (cancelled || (drained && !persistent)) }
}

/// In every run, the tasks dispatched so far followed by the tasks still
/// queued are the tasks that the run started with, in their order. So no
/// task is dispatched twice, none is lost and none overtakes another; and
/// when a run that started with an empty history has emptied the queue, its
/// history is the queue it started with.
pub proof fn law_run_dispatches_in_order(m: Model, events: Seq<Event>)
    ensures
        run(m, events).history + run(m, events).queue == m.history + m.queue,
        m.history.len() == 0 && run(m, events).queue.len() == 0 ==> run(m, events).history
            == m.queue,
    decreases events.len(),
{
    if events.len() > 0 {
        let before = run(m, events.drop_last());
        law_run_dispatches_in_order(m, events.drop_last());
        let after = step(before, events.last());
        assert(after.history + after.queue =~= before.history + before.queue);
    }
    assert(m.history.len() == 0 ==> m.history + m.queue =~= m.queue);
    assert(run(m, events).queue.len() == 0 ==> run(m, events).history + run(m, events).queue
        =~= run(m, events).history);
}

/// While the lock marker is present no task is dispatched, however many
/// slots are idle: the queue, the history and every slot stay as they are.
/// The same holds once the shutdown signal was received. With neither, a
/// task in the queue and an idle slot, the front task is dispatched. So the
/// first offer after the lock marker is gone does what it would have done
/// had the marker never been there: it dispatches the task that stood at the
/// front while the loop was held.
pub proof fn law_lock_holds_dispatch(m: Model, locked: bool, cancelled: bool, now: i64, later: i64)
    ensures
        locked || cancelled ==> offer(m, locked, cancelled, now) == m,
        !locked && !cancelled && m.queue.len() > 0 && running_count(m.slots) < m.slots.len() ==> {
            &&& offer(m, locked, cancelled, now).history == m.history.push(m.queue[0])
            &&& offer(m, locked, cancelled, now).queue == m.queue.drop_first()
            &&& offer(m, locked, cancelled, now).slots == m.slots.update(
                first_idle(m.slots),
                dispatched(m.slots[first_idle(m.slots)], m.queue[0], now),
            )
        },
        offer(offer(m, true, cancelled, now), false, false, later) == offer(m, false, false, later),
{
}

/// Whether every offer among the events is held back, by the lock marker or
/// by the shutdown signal.
pub open spec fn all_held(events: Seq<Event>) -> bool {
    forall|k: int|
        0 <= k < events.len() ==> match #[trigger] events[k] {
            Event::Offer { locked, cancelled, now } => locked || cancelled,
            Event::Reconcile { exits } => true,
        }
}

/// A reconciliation starts no slot: a slot runs afterwards only if it ran
/// before, and no more slots run than before.
pub proof fn lemma_reconcile_starts_nothing(slots: Seq<SlotView>, exits: Seq<Option<i32>>)
    ensures
        reconciled_all(slots, exits).len() == slots.len(),
        forall|i: int|
            0 <= i < slots.len() && (#[trigger] reconciled_all(slots, exits)[i]).running
                ==> slots[i].running,
        running_count(reconciled_all(slots, exits)) <= running_count(slots),
    decreases slots.len(),
{
    if slots.len() > 0 {
        lemma_reconcile_starts_nothing(slots.drop_last(), exits);
        assert(reconciled_all(slots, exits).drop_last() =~= reconciled_all(
            slots.drop_last(),
            exits,
        ));
    }
}

/// While every offer is held back, by the lock marker or after the shutdown
/// signal, nothing is dispatched: the queue and the history stay as they
/// are, no idle slot starts running, and the slots that run go on until
/// their exit is reconciled.
pub proof fn law_held_run_dispatches_nothing(m: Model, events: Seq<Event>)
    requires
        all_held(events),
    ensures
        run(m, events).queue == m.queue,
        run(m, events).history == m.history,
        run(m, events).slots.len() == m.slots.len(),
        forall|i: int|
            0 <= i < m.slots.len() && (#[trigger] run(m, events).slots[i]).running
                ==> m.slots[i].running,
        running_count(run(m, events).slots) <= running_count(m.slots),
    decreases events.len(),
{
    if events.len() > 0 {
        let front = events.drop_last();
        assert forall|k: int| 0 <= k < front.len() implies match #[trigger] front[k] {
            Event::Offer { locked, cancelled, now } => locked || cancelled,
            Event::Reconcile { exits } => true,
        } by {
            assert(front[k] == events[k]);
        }
        law_held_run_dispatches_nothing(m, front);
        let before = run(m, front);
        let last = events[events.len() - 1];
        assert(last == events.last());
        match last {
            Event::Offer { locked, cancelled, now } => {
                assert(locked || cancelled);
            },
            Event::Reconcile { exits } => {
                lemma_reconcile_starts_nothing(before.slots, exits);
            },
        }
    }
}

/// An offer changes the number of running slots by at most one and never
/// beyond the number of slots.
pub proof fn lemma_offer_within_capacity(m: Model, locked: bool, cancelled: bool, now: i64)
    ensures
        offer(m, locked, cancelled, now).slots.len() == m.slots.len(),
        running_count(offer(m, locked, cancelled, now).slots) <= m.slots.len(),
{
    lemma_running_count_bounded(offer(m, locked, cancelled, now).slots);
    if may_dispatch(m.slots, m.queue, locked, cancelled) {
        lemma_running_count_full(m.slots);
        lemma_running_count_bounded(m.slots);
        let i = choose|i: int| 0 <= i < m.slots.len() && !(#[trigger] m.slots[i]).running;
        lemma_has_first_idle(m.slots, i);
    }
}

/// Where some slot is idle, there is a lowest idle slot.
pub proof fn lemma_has_first_idle(slots: Seq<SlotView>, i: int)
    requires
        0 <= i < slots.len(),
        !slots[i].running,
    ensures
        is_first_idle(slots, first_idle(slots)),
    decreases i,
{
    if forall|j: int| 0 <= j < i ==> (#[trigger] slots[j]).running {
        assert(is_first_idle(slots, i));
    } else {
        let j = choose|j: int| 0 <= j < i && !(#[trigger] slots[j]).running;
        lemma_has_first_idle(slots, j);
    }
}

/// At no point of a run do more slots run than the pool has, and the pool
/// keeps the number of slots it started with.
pub proof fn law_running_within_capacity(m: Model, events: Seq<Event>)
    ensures
        run(m, events).slots.len() == m.slots.len(),
        running_count(run(m, events).slots) <= m.slots.len(),
    decreases events.len(),
{
    if events.len() > 0 {
        let before = run(m, events.drop_last());
        law_running_within_capacity(m, events.drop_last());
        match events.last() {
            Event::Offer { locked, cancelled, now } => {
                lemma_offer_within_capacity(before, locked, cancelled, now);
            },
            Event::Reconcile { exits } => {},
        }
    }
    lemma_running_count_bounded(run(m, events).slots);
}

/// Whether every exit that the events report is a success.
pub open spec fn all_exits_clean(events: Seq<Event>) -> bool {
    forall|k: int|
        0 <= k < events.len() ==> match #[trigger] events[k] {
            Event::Offer { locked, cancelled, now } => true,
            Event::Reconcile { exits } => forall|i: int|
                0 <= i < exits.len() ==> (#[trigger] exits[i]) is Some ==> exits[i]->0 == 0,
        }
}

/// One event keeps the books: they balance afterwards as before, the total
/// of tasks dispatched grows by the growth of the history, and where every
/// exit reported is a success the total of failures stays.
pub proof fn lemma_step_keeps_books(m: Model, e: Event)
    requires
        all_balanced(m.slots),
    ensures
        all_balanced(step(m, e).slots),
        total_processed(step(m, e).slots) + m.history.len() == total_processed(m.slots) + step(
            m,
            e,
        ).history.len(),
        all_exits_clean(seq![e]) ==> total_failures(step(m, e).slots) == total_failures(m.slots),
{
    let after = step(m, e);
    match e {
        Event::Offer { locked, cancelled, now } => {
            if may_dispatch(m.slots, m.queue, locked, cancelled) {
                lemma_running_count_full(m.slots);
                let idle = choose|i: int| 0 <= i < m.slots.len() && !(#[trigger] m.slots[i]).running;
                lemma_has_first_idle(m.slots, idle);
                let i = first_idle(m.slots);
                let target = dispatched(m.slots[i], m.queue[0], now);
                assert(slot_balanced(m.slots[i]));
                lemma_total_processed_update(m.slots, i, target);
                assert forall|j: int| 0 <= j < after.slots.len() implies slot_balanced(
                    #[trigger] after.slots[j],
                ) by {
                    if j != i {
                        assert(after.slots[j] == m.slots[j]);
                        assert(slot_balanced(m.slots[j]));
                    }
                }
                assert forall|j: int| 0 <= j < m.slots.len() implies (#[trigger] after.slots[j]).failures
                    == m.slots[j].failures by {}
                lemma_failures_pointwise(after.slots, m.slots);
            }
        },
        Event::Reconcile { exits } => {
            assert forall|j: int| 0 <= j < after.slots.len() implies slot_balanced(
                #[trigger] after.slots[j],
            ) by {
                assert(slot_balanced(m.slots[j]));
            }
            assert forall|j: int| 0 <= j < m.slots.len() implies (#[trigger] after.slots[j]).processed
                == m.slots[j].processed by {}
            lemma_processed_pointwise(after.slots, m.slots);
            if all_exits_clean(seq![e]) {
                assert(seq![e][0] == e);
                assert forall|j: int| 0 <= j < m.slots.len() implies (#[trigger] after.slots[j]).failures
                    == m.slots[j].failures by {
                    if 0 <= j < exits.len() && exits[j] is Some {
                        assert(exits[j]->0 == 0);
                    }
                }
                lemma_failures_pointwise(after.slots, m.slots);
            }
        },
    }
}

/// The books of a run. Where they balance at the start, they balance after
/// every event, and the successes, the failures and the running slots
/// together grow by the number of tasks dispatched. Where every exit
/// reported is a success, the failures stay as they were: so a run that
/// starts with idle slots that have counted nothing, dispatches `k` tasks
/// and ends with every slot idle has counted `k` successes and no failure.
pub proof fn law_run_keeps_books(m: Model, events: Seq<Event>)
    requires
        all_balanced(m.slots),
    ensures
        all_balanced(run(m, events).slots),
        run(m, events).history.len() >= m.history.len(),
        total_successes(run(m, events).slots) + total_failures(run(m, events).slots)
            + running_count(run(m, events).slots) + m.history.len() == total_successes(m.slots)
            + total_failures(m.slots) + running_count(m.slots) + run(m, events).history.len(),
        all_exits_clean(events) ==> total_failures(run(m, events).slots) == total_failures(m.slots),
    decreases events.len(),
{
    lemma_totals_balance(m.slots);
    if events.len() > 0 {
        let front = events.drop_last();
        let last = events[events.len() - 1];
        assert(last == events.last());
        law_run_keeps_books(m, front);
        let before = run(m, front);
        lemma_step_keeps_books(before, last);
        lemma_totals_balance(before.slots);
        lemma_totals_balance(run(m, events).slots);
        if all_exits_clean(events) {
            assert forall|k: int| 0 <= k < front.len() implies match #[trigger] front[k] {
                Event::Offer { locked, cancelled, now } => true,
                Event::Reconcile { exits } => forall|i: int|
                    0 <= i < exits.len() ==> (#[trigger] exits[i]) is Some ==> exits[i]->0 == 0,
            } by {
                assert(front[k] == events[k]);
            }
            assert(seq![last][0] == events[events.len() - 1]);
            assert(all_exits_clean(seq![last]));
        }
    }
}

} // verus!
