//! The bounded pool of worker slots.
//!
//! A slot is either idle or running one task. The pool keeps the books: which
//! slot runs what, since when, and how many tasks each slot has finished with
//! and without success. The processes themselves belong to the caller, who
//! reports their exits to `update`.

use vstd::prelude::*;

verus! {

/// One slot of the pool.
#[derive(Debug)]
pub struct WorkerSlot {
    /// Whether a task is running in the slot.
    pub running: bool,
    /// The task dispatched last to the slot.
    pub task: String,
    /// When the slot was created or its last task dispatched, in milliseconds
    /// since the Unix epoch.
    pub started_at: i64,
    /// How many tasks were dispatched to the slot.
    pub processed: u64,
    /// Whether the slot's task was dispatched since the last reconciliation.
    pub fresh: bool,
    /// How many tasks of the slot ended with exit code 0.
    pub successes: u64,
    /// How many tasks of the slot ended otherwise.
    pub failures: u64,
}

/// The mathematical value of a slot. Its counters are natural numbers.
pub struct SlotView {
    pub running: bool,
    pub task: Seq<char>,
    pub started_at: i64,
    pub processed: nat,
    pub fresh: bool,
    pub successes: nat,
    pub failures: nat,
}

impl View for WorkerSlot {
    type V = SlotView;

    open spec fn view(&self) -> SlotView {
        SlotView {
            running: self.running,
            task: self.task@,
            started_at: self.started_at,
            processed: self.processed as nat,
            fresh: self.fresh,
            successes: self.successes as nat,
            failures: self.failures as nat,
        }
    }
}

/// A slot that has never run a task, created at `now`.
pub open spec fn idle_slot(now: i64) -> SlotView {
    SlotView {
        running: false,
        task: Seq::empty(),
        started_at: now,
        processed: 0,
        fresh: false,
        successes: 0,
        failures: 0,
    }
}

/// The slot `s` after `task` was dispatched to it at `now`.
pub open spec fn dispatched(s: SlotView, task: Seq<char>, now: i64) -> SlotView {
    SlotView { running: true, task, started_at: now, processed: s.processed + 1, fresh: true, ..s }
}

/// The slot `s` after a reconciliation in which `exit` was observed for it:
/// `Some(code)` if its process has ended with that code, `None` if it has not
/// ended. Code 0 is a success, any other a failure. An exit reported for an
/// idle slot counts for nothing. The slot is no longer fresh.
pub open spec fn reconciled(s: SlotView, exit: Option<i32>) -> SlotView {
    if s.running && exit is Some {
        SlotView {
            running: false,
            fresh: false,
            successes: if exit->0 == 0 {
                s.successes + 1
            } else {
                s.successes
            },
            failures: if exit->0 == 0 {
                s.failures
            } else {
                s.failures + 1
            },
            ..s
        }
    } else {
        SlotView { fresh: false, ..s }
    }
}

/// The exit reported for slot `i`: none where the report is too short.
pub open spec fn exit_at(exits: Seq<Option<i32>>, i: int) -> Option<i32> {
    if 0 <= i < exits.len() {
        exits[i]
    } else {
        None
    }
}

/// The slots after a reconciliation with the exits reported in `exits`.
pub open spec fn reconciled_all(slots: Seq<SlotView>, exits: Seq<Option<i32>>) -> Seq<SlotView> {
    Seq::new(slots.len(), |i: int| reconciled(slots[i], exit_at(exits, i)))
}

/// Whether every slot can take one more task without its counter running
/// over.
pub open spec fn all_have_room(slots: Seq<SlotView>) -> bool {
    forall|i: int| 0 <= i < slots.len() ==> (#[trigger] slots[i]).processed < u64::MAX
}

/// Whether the slot that the next dispatch books, the lowest idle one, can
/// take one more task without its counter running over.
pub open spec fn room_for_next(slots: Seq<SlotView>) -> bool {
    forall|i: int| is_first_idle(slots, i) ==> slots[i].processed < u64::MAX
}

/// How many of the slots are running.
pub open spec fn running_count(slots: Seq<SlotView>) -> nat
    decreases slots.len(),
{
    if slots.len() == 0 {
        0
    } else {
        running_count(slots.drop_last()) + if slots.last().running {
            1nat
        } else {
            0nat
        }
    }
}

/// The successes of all slots together.
pub open spec fn total_successes(slots: Seq<SlotView>) -> nat
    decreases slots.len(),
{
    if slots.len() == 0 {
        0
    } else {
        total_successes(slots.drop_last()) + slots.last().successes
    }
}

/// The failures of all slots together.
pub open spec fn total_failures(slots: Seq<SlotView>) -> nat
    decreases slots.len(),
{
    if slots.len() == 0 {
        0
    } else {
        total_failures(slots.drop_last()) + slots.last().failures
    }
}

/// The tasks dispatched to all slots together.
pub open spec fn total_processed(slots: Seq<SlotView>) -> nat
    decreases slots.len(),
{
    if slots.len() == 0 {
        0
    } else {
        total_processed(slots.drop_last()) + slots.last().processed
    }
}

/// The books of a slot balance: every task dispatched to it has ended with or
/// without success, or is the one that runs.
pub open spec fn slot_balanced(s: SlotView) -> bool {
    s.successes + s.failures + (if s.running {
        1int
    } else {
        0int
    }) == s.processed
}

/// The books of every slot balance.
pub open spec fn all_balanced(slots: Seq<SlotView>) -> bool {
    forall|i: int| 0 <= i < slots.len() ==> slot_balanced(#[trigger] slots[i])
}

/// Whether `i` is the lowest index of an idle slot.
pub open spec fn is_first_idle(slots: Seq<SlotView>, i: int) -> bool {
    &&& 0 <= i < slots.len()
    &&& !slots[i].running
    &&& forall|j: int| 0 <= j < i ==> (#[trigger] slots[j]).running
}

/// No more slots run than there are slots.
pub proof fn lemma_running_count_bounded(slots: Seq<SlotView>)
    ensures
        running_count(slots) <= slots.len(),
    decreases slots.len(),
{
    if slots.len() > 0 {
        lemma_running_count_bounded(slots.drop_last());
    }
}

/// Replacing slot `i` changes the number of running slots by what the
/// replacement changes.
pub proof fn lemma_running_count_update(slots: Seq<SlotView>, i: int, s: SlotView)
    requires
        0 <= i < slots.len(),
    ensures
        running_count(slots.update(i, s)) + (if slots[i].running {
            1int
        } else {
            0int
        }) == running_count(slots) + (if s.running {
            1int
        } else {
            0int
        }),
    decreases slots.len(),
{
    let after = slots.update(i, s);
    if i == slots.len() - 1 {
        assert(after.drop_last() =~= slots.drop_last());
    } else {
        assert(after.drop_last() =~= slots.drop_last().update(i, s));
        lemma_running_count_update(slots.drop_last(), i, s);
    }
}

/// Where the books of every slot balance, the totals balance: every task
/// dispatched has ended with or without success, or runs.
pub proof fn lemma_totals_balance(slots: Seq<SlotView>)
    requires
        all_balanced(slots),
    ensures
        total_successes(slots) + total_failures(slots) + running_count(slots) == total_processed(
            slots,
        ),
    decreases slots.len(),
{
    if slots.len() > 0 {
        let front = slots.drop_last();
        assert forall|i: int| 0 <= i < front.len() implies slot_balanced(#[trigger] front[i]) by {
            assert(front[i] == slots[i]);
        }
        lemma_totals_balance(front);
        assert(slot_balanced(slots[slots.len() - 1]));
    }
}

/// Replacing slot `i` changes the total of tasks dispatched by what the
/// replacement changes.
pub proof fn lemma_total_processed_update(slots: Seq<SlotView>, i: int, s: SlotView)
    requires
        0 <= i < slots.len(),
    ensures
        total_processed(slots.update(i, s)) + slots[i].processed == total_processed(slots)
            + s.processed,
    decreases slots.len(),
{
    let after = slots.update(i, s);
    if i == slots.len() - 1 {
        assert(after.drop_last() =~= slots.drop_last());
    } else {
        assert(after.drop_last() =~= slots.drop_last().update(i, s));
        lemma_total_processed_update(slots.drop_last(), i, s);
    }
}

/// Two lists of slots that agree slot by slot on the tasks dispatched agree
/// on their total.
pub proof fn lemma_processed_pointwise(a: Seq<SlotView>, b: Seq<SlotView>)
    requires
        a.len() == b.len(),
        forall|i: int| 0 <= i < a.len() ==> (#[trigger] a[i]).processed == b[i].processed,
    ensures
        total_processed(a) == total_processed(b),
    decreases a.len(),
{
    if a.len() > 0 {
        let x = a.drop_last();
        let y = b.drop_last();
        assert forall|i: int| 0 <= i < x.len() implies (#[trigger] x[i]).processed
            == y[i].processed by {
            assert(x[i] == a[i]);
            assert(y[i] == b[i]);
        }
        lemma_processed_pointwise(x, y);
        assert(a[a.len() - 1].processed == b[a.len() - 1].processed);
    }
}

/// Two lists of slots that agree slot by slot on the failures agree on their
/// total.
pub proof fn lemma_failures_pointwise(a: Seq<SlotView>, b: Seq<SlotView>)
    requires
        a.len() == b.len(),
        forall|i: int| 0 <= i < a.len() ==> (#[trigger] a[i]).failures == b[i].failures,
    ensures
        total_failures(a) == total_failures(b),
    decreases a.len(),
{
    if a.len() > 0 {
        let x = a.drop_last();
        let y = b.drop_last();
        assert forall|i: int| 0 <= i < x.len() implies (#[trigger] x[i]).failures
            == y[i].failures by {
            assert(x[i] == a[i]);
            assert(y[i] == b[i]);
        }
        lemma_failures_pointwise(x, y);
        assert(a[a.len() - 1].failures == b[a.len() - 1].failures);
    }
}

/// All slots run exactly when as many run as there are slots.
pub proof fn lemma_running_count_full(slots: Seq<SlotView>)
    ensures
        running_count(slots) == slots.len() <==> (forall|i: int|
            0 <= i < slots.len() ==> (#[trigger] slots[i]).running),
        running_count(slots) == 0 <==> (forall|i: int|
            0 <= i < slots.len() ==> !(#[trigger] slots[i]).running),
    decreases slots.len(),
{
    if slots.len() > 0 {
        let front = slots.drop_last();
        lemma_running_count_full(front);
        lemma_running_count_bounded(front);
        assert forall|i: int| 0 <= i < front.len() implies front[i] == slots[i] by {}
        if forall|i: int| 0 <= i < slots.len() ==> (#[trigger] slots[i]).running {
            assert forall|i: int| 0 <= i < front.len() implies (#[trigger] front[i]).running by {
                assert(slots[i].running);
            }
        }
        if forall|i: int| 0 <= i < slots.len() ==> !(#[trigger] slots[i]).running {
            assert forall|i: int| 0 <= i < front.len() implies !(#[trigger] front[i]).running by {
                assert(!slots[i].running);
            }
        }
        if running_count(slots) == slots.len() {
            assert(slots.last().running);
            assert forall|i: int| 0 <= i < slots.len() implies (#[trigger] slots[i]).running by {
                if i < front.len() {
                    assert(front[i].running);
                }
            }
        }
        if running_count(slots) == 0 {
            assert forall|i: int| 0 <= i < slots.len() implies !(#[trigger] slots[i]).running by {
                if i < front.len() {
                    assert(!front[i].running);
                }
            }
        }
    }
}

/// `chrono::Utc::now`, read as milliseconds since the Unix epoch by
/// `DateTime::timestamp_millis`. The value is whatever the system clock says,
/// so nothing is claimed of it. The call takes no argument and relies on a
/// system clock that is not set before the epoch.
#[verifier::external_body]
fn now_millis() -> (now: i64) {
    chrono::Utc::now().timestamp_millis()
}

/// A pool of a fixed number of worker slots.
#[derive(Debug)]
pub struct ThreadPool {
    slots: Vec<WorkerSlot>,
    thread_count: usize,
}

impl View for ThreadPool {
    type V = Seq<SlotView>;

    closed spec fn view(&self) -> Seq<SlotView> {
        Seq::new(self.slots@.len(), |i: int| self.slots@[i]@)
    }
}

impl ThreadPool {
    /// The pool's invariant: its count of busy slots is the number of running
    /// slots, and the books of every slot balance.
    pub closed spec fn wf(&self) -> bool {
        &&& self.thread_count == running_count(self@)
        &&& all_balanced(self@)
    }

    /// What the invariant gives to a caller: the books of every slot balance,
    /// and no more slots run than the pool has.
    pub proof fn lemma_wf(&self)
        requires
            self.wf(),
        ensures
            all_balanced(self@),
            running_count(self@) <= self@.len(),
    {
        lemma_running_count_bounded(self@);
    }

    /// Whether a slot can take one more task without its counter running over.
    pub open spec fn has_room(&self, thread_id: int) -> bool {
        self@[thread_id].processed < u64::MAX
    }

    /// A pool of `size` idle slots.
    pub fn new(size: usize) -> (pool: Self)
        ensures
            pool.wf(),
            pool@.len() == size,
            forall|i: int| 0 <= i < size ==> #[trigger] pool@[i] == idle_slot(pool@[i].started_at),
    {
        let mut slots: Vec<WorkerSlot> = Vec::with_capacity(size);
        let mut i: usize = 0;
        while i < size
            invariant
                i <= size,
                slots@.len() == i,
                forall|j: int| 0 <= j < i ==> (#[trigger] slots@[j])@ == idle_slot(slots@[j].started_at),
            decreases size - i,
        {
            slots.push(
                WorkerSlot {
                    running: false,
                    task: String::new(),
                    started_at: now_millis(),
                    processed: 0,
                    fresh: false,
                    successes: 0,
                    failures: 0,
                },
            );
            i += 1;
        }
        let pool = ThreadPool { slots, thread_count: 0 };
        proof {
            assert forall|j: int| 0 <= j < size implies #[trigger] pool@[j] == idle_slot(
                pool@[j].started_at,
            ) by {
                assert(pool@[j] == pool.slots@[j]@);
            }
            lemma_running_count_full(pool@);
        }
        pool
    }

    /// The number of slots.
    pub fn capacity(&self) -> (n: usize)
        ensures
            n == self@.len(),
    {
        self.slots.len()
    }

    /// The slot with index `thread_id`.
    pub fn slot(&self, thread_id: usize) -> (slot: &WorkerSlot)
        requires
            thread_id < self@.len(),
        ensures
            slot@ == self@[thread_id as int],
    {
        &self.slots[thread_id]
    }

    /// Whether any slot is running.
    pub fn is_ongoing(&self) -> (ongoing: bool)
        ensures
            ongoing == (exists|i: int| 0 <= i < self@.len() && (#[trigger] self@[i]).running),
    {
        let mut index: usize = 0;
        while index < self.slots.len()
            invariant
                index <= self.slots.len(),
                forall|j: int| 0 <= j < index ==> !(#[trigger] self@[j]).running,
            decreases self.slots.len() - index,
        {
            if self.slots[index].running {
                assert(self@[index as int].running);
                return true;
            }
            index += 1;
        }
        false
    }

    /// The lowest index of an idle slot, if there is one.
    pub fn get_one_available(&self) -> (found: Option<usize>)
        ensures
            match found {
                Some(i) => is_first_idle(self@, i as int),
                None => forall|j: int| 0 <= j < self@.len() ==> (#[trigger] self@[j]).running,
            },
    {
        let mut index: usize = 0;
        while index < self.slots.len()
            invariant
                index <= self.slots.len(),
                forall|j: int| 0 <= j < index ==> (#[trigger] self@[j]).running,
            decreases self.slots.len() - index,
        {
            if !self.slots[index].running {
                return Some(index);
            }
            index += 1;
        }
        None
    }

    /// Whether fewer slots are busy than the pool has.
    pub fn has_one_available(&self) -> (available: bool)
        requires
            self.wf(),
        ensures
            available == (running_count(self@) < self@.len()),
            available == (exists|i: int| 0 <= i < self@.len() && !(#[trigger] self@[i]).running),
    {
        proof {
            lemma_running_count_full(self@);
            lemma_running_count_bounded(self@);
        }
        self.thread_count < self.slots.len()
    }

    /// Whether the slot that the next dispatch books can count one more task.
    /// Where no slot is idle there is nothing to count.
    pub fn can_count_next(&self) -> (yes: bool)
        ensures
            yes == room_for_next(self@),
    {
        match self.get_one_available() {
            Some(thread_id) => {
                let yes = self.slots[thread_id].processed < u64::MAX;
                proof {
                    assert(self@[thread_id as int].processed == self.slots[thread_id as int].processed);
                    assert forall|i: int| is_first_idle(self@, i) implies i == thread_id by {
                        if i < thread_id {
                            assert(self@[i].running);
                        }
                        if thread_id < i {
                            assert(self@[thread_id as int].running);
                        }
                    }
                }
                yes
            },
            None => true,
        }
    }

    /// Books `task` into the idle slot `thread_id` as dispatched at `now`.
    pub fn start(&mut self, thread_id: usize, task: String, now: i64)
        requires
            old(self).wf(),
            thread_id < old(self)@.len(),
            !old(self)@[thread_id as int].running,
            old(self).has_room(thread_id as int),
        ensures
            final(self).wf(),
            final(self)@ == old(self)@.update(
                thread_id as int,
                dispatched(old(self)@[thread_id as int], task@, now),
            ),
            running_count(final(self)@) == running_count(old(self)@) + 1,
            running_count(final(self)@) <= final(self)@.len(),
    {
        let ghost before = self@;
        proof {
            lemma_running_count_full(before);
            lemma_running_count_bounded(before);
            assert(!before[thread_id as int].running);
            assert(before.len() == self.slots.len());
        }
        self.thread_count = self.thread_count + 1;
        let slot = &mut self.slots[thread_id];
        slot.task = task;
        slot.running = true;
        slot.started_at = now;
        slot.processed = slot.processed + 1;
        slot.fresh = true;
        proof {
            let target = dispatched(before[thread_id as int], task@, now);
            assert(self@ =~= before.update(thread_id as int, target));
            lemma_running_count_update(before, thread_id as int, target);
            lemma_running_count_bounded(self@);
        }
    }

    /// Books `task` into the idle slot `thread_id` as dispatched now, by the
    /// system clock.
    pub fn exec_task(&mut self, thread_id: usize, task: String)
        requires
            old(self).wf(),
            thread_id < old(self)@.len(),
            !old(self)@[thread_id as int].running,
            old(self).has_room(thread_id as int),
        ensures
            final(self).wf(),
            final(self)@ == old(self)@.update(
                thread_id as int,
                dispatched(
                    old(self)@[thread_id as int],
                    task@,
                    final(self)@[thread_id as int].started_at,
                ),
            ),
            running_count(final(self)@) == running_count(old(self)@) + 1,
            running_count(final(self)@) <= final(self)@.len(),
    {
        let now = now_millis();
        self.start(thread_id, task, now);
    }

    /// Books `task` into the lowest idle slot as dispatched now, by the
    /// system clock, and returns that slot's index. The caller sees to it
    /// that a slot is available.
    pub fn dispatch(&mut self, task: String) -> (thread_id: usize)
        requires
            old(self).wf(),
            running_count(old(self)@) < old(self)@.len(),
            room_for_next(old(self)@),
        ensures
            final(self).wf(),
            is_first_idle(old(self)@, thread_id as int),
            final(self)@ == old(self)@.update(
                thread_id as int,
                dispatched(
                    old(self)@[thread_id as int],
                    task@,
                    final(self)@[thread_id as int].started_at,
                ),
            ),
            running_count(final(self)@) == running_count(old(self)@) + 1,
            running_count(final(self)@) <= final(self)@.len(),
    {
        proof {
            lemma_running_count_full(self@);
        }
        match self.get_one_available() {
            Some(thread_id) => {
                self.exec_task(thread_id, task);
                thread_id
            },
            None => {
                proof {
                    assert(false);
                }
                0
            },
        }
    }

    /// Reconciles the pool with the exits that the caller has observed:
    /// `exits[i]` is `Some(code)` if the process of slot `i` has ended with
    /// that code. Every slot that was running and has ended becomes idle and
    /// counts a success or a failure; no slot stays fresh.
    pub fn update(&mut self, exits: &Vec<Option<i32>>)
        requires
            old(self).wf(),
        ensures
            final(self).wf(),
            final(self)@ == reconciled_all(old(self)@, exits@),
            running_count(final(self)@) <= running_count(old(self)@),
            all_have_room(old(self)@) ==> all_have_room(final(self)@),
    {
        let ghost before = self@;
        let n = self.slots.len();
        let mut i: usize = 0;
        while i < n
            invariant
                i <= n,
                n == before.len(),
                self@.len() == n,
                all_balanced(before),
                self.thread_count == running_count(self@),
                running_count(self@) <= running_count(before),
                forall|j: int|
                    0 <= j < i ==> #[trigger] self@[j] == reconciled(before[j], exit_at(exits@, j)),
                forall|j: int| i <= j < n ==> #[trigger] self@[j] == before[j],
            decreases n - i,
        {
            let ghost prev = self@;
            let exit: Option<i32> = if i < exits.len() {
                exits[i]
            } else {
                None
            };
            assert(exit == exit_at(exits@, i as int));
            assert(prev[i as int] == before[i as int]);
            assert(slot_balanced(before[i as int]));
            proof {
                lemma_running_count_update(prev, i as int, reconciled(prev[i as int], exit));
                lemma_running_count_bounded(prev);
            }
            let ended: bool = self.slots[i].running && exit.is_some();
            if ended {
                self.thread_count = self.thread_count - 1;
            }
            let slot = &mut self.slots[i];
            slot.fresh = false;
            if ended {
                if exit == Some(0i32) {
                    slot.successes = slot.successes + 1;
                } else {
                    slot.failures = slot.failures + 1;
                }
                slot.running = false;
            }
            assert(self@ =~= prev.update(i as int, reconciled(prev[i as int], exit)));
            i += 1;
        }
        assert forall|j: int| 0 <= j < self@.len() implies slot_balanced(#[trigger] self@[j]) by {
            assert(self@[j] == reconciled(before[j], exit_at(exits@, j)));
            assert(slot_balanced(before[j]));
        }
        proof {
            assert(self@ =~= reconciled_all(before, exits@));
            if all_have_room(before) {
                assert forall|j: int| 0 <= j < self@.len() implies (#[trigger] self@[j]).processed
                    < u64::MAX by {
                    assert(before[j].processed < u64::MAX);
                }
            }
        }
    }
}

} // verus!
