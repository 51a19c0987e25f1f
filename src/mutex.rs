use vstd::prelude::*;

verus! {

/// Whether one compare-and-swap of the lock flag from clear to set takes
/// the lock; the flag is set after it either way.
pub open spec fn acquires(locked: bool) -> bool {
    !locked
}

/// Exclusive access to one value, guarded by a lock flag. While the flag is
/// set the value is out with the one guard that exists.
pub struct Mutex<T> {
    lock: bool,
    cell: Option<T>,
    id: Ghost<int>,
}

/// The holder's access to the value of a locked [`Mutex`].
pub struct MutexGuard<T> {
    value: T,
    owner: Ghost<int>,
}

impl<T> MutexGuard<T> {
    pub closed spec fn view(&self) -> T {
        self.value
    }

    /// The identity of the mutex that handed out this guard.
    pub closed spec fn owner(&self) -> int {
        self.owner@
    }

    /// Shared access to the guarded value.
    pub fn deref(&self) -> (r: &T)
        ensures
            *r == self@,
    {
        &self.value
    }

    /// Exclusive access to the guarded value.
    pub fn deref_mut(&mut self) -> (r: &mut T)
        ensures
            *r == old(self)@,
            final(self)@ == *final(r),
    {
        &mut self.value
    }
}

impl<T> Mutex<T> {
    pub closed spec fn is_locked(&self) -> bool {
        self.lock
    }

    /// The identity that this mutex's guards carry.
    pub closed spec fn id(&self) -> int {
        self.id@
    }

    /// The guarded value while nobody holds the lock.
    pub closed spec fn value(&self) -> T {
        self.cell->0
    }

    pub closed spec fn wf(&self) -> bool {
        self.lock <==> self.cell is None
    }

    /// An unlocked mutex around `value`, with an unspecified identity.
    pub fn new(value: T) -> (m: Mutex<T>)
        ensures
            m.wf(),
            !m.is_locked(),
            m.value() == value,
    {
        Mutex { lock: false, cell: Some(value), id: Ghost(arbitrary()) }
    }

    /// Whether the lock is held.
    pub fn locked(&self) -> (r: bool)
        ensures
            r == self.is_locked(),
    {
        self.lock
    }

    /// One attempt to take the lock: it succeeds exactly when the flag is
    /// clear, and the flag is set afterwards either way.
    pub fn try_lock(&mut self) -> (r: Option<MutexGuard<T>>)
        requires
            old(self).wf(),
        ensures
            final(self).wf(),
            final(self).is_locked(),
            r is Some <==> acquires(old(self).is_locked()),
            r is Some ==> r->0@ == old(self).value() && r->0.owner() == old(self).id(),
            final(self).id() == old(self).id(),
            old(self).is_locked() ==> *final(self) == *old(self),
    {
        if self.lock {
            None
        } else {
            self.lock = true;
            let v = self.cell.take();
            Some(MutexGuard { value: v.unwrap(), owner: Ghost(self.id@) })
        }
    }

    /// Takes the lock and hands out the only guard. Taking a lock that is
    /// already held never returns, so the flag must be clear.
    pub fn lock(&mut self) -> (g: MutexGuard<T>)
        requires
            old(self).wf(),
            !old(self).is_locked(),
        ensures
            final(self).wf(),
            final(self).is_locked(),
            g@ == old(self).value(),
            g.owner() == old(self).id(),
            final(self).id() == old(self).id(),
    {
        self.lock = true;
        let v = self.cell.take();
        MutexGuard { value: v.unwrap(), owner: Ghost(self.id@) }
    }

    /// Gives the guard back to the mutex that handed it out: the value it
    /// holds becomes the guarded value and the flag is cleared.
    pub fn unlock(&mut self, guard: MutexGuard<T>)
        requires
            old(self).wf(),
            old(self).is_locked(),
            guard.owner() == old(self).id(),
        ensures
            final(self).wf(),
            final(self).id() == old(self).id(),
            !final(self).is_locked(),
            final(self).value() == guard@,
    {
        self.cell = Some(guard.value);
        self.lock = false;
    }
}

/// Where one worker stands in a lock, read, write, unlock cycle on a shared
/// counter.
pub enum Phase {
    Waiting,
    Holding,
    HasRead(nat),
    Wrote,
}

/// A worker that still has `left` cycles to run, the current one included.
pub struct Worker {
    pub phase: Phase,
    pub left: nat,
}

/// Workers that share one counter behind one lock flag.
pub struct Counting {
    pub locked: bool,
    pub counter: nat,
    pub workers: Seq<Worker>,
}

/// `t` workers about to run `k` cycles each, on a clear lock and a zero counter.
pub open spec fn counting_start(t: nat, k: nat) -> Counting {
    Counting { locked: false, counter: 0, workers: Seq::new(t, |i: int| Worker { phase: Phase::Waiting, left: k }) }
}

/// One atomic step of worker `i`: take the lock (one compare-and-swap,
/// which fails while the flag is set), read the counter, write it back plus
/// one, or clear the flag. A step that changes nothing, as a spurious
/// failure of the compare-and-swap or a spin on the flag does, is a step of
/// an index that names no worker.
pub open spec fn counting_step(s: Counting, i: int) -> Counting {
    if 0 <= i < s.workers.len() {
        let w = s.workers[i];
        match w.phase {
            Phase::Waiting => {
                if w.left > 0 && acquires(s.locked) {
                    Counting { locked: true, workers: s.workers.update(i, Worker { phase: Phase::Holding, ..w }), ..s }
                } else {
                    s
                }
            },
            Phase::Holding => Counting {
                workers: s.workers.update(i, Worker { phase: Phase::HasRead(s.counter), ..w }),
                ..s
            },
            Phase::HasRead(v) => Counting {
                counter: v + 1,
                workers: s.workers.update(i, Worker { phase: Phase::Wrote, ..w }),
                ..s
            },
            Phase::Wrote => Counting {
                locked: false,
                workers: s.workers.update(i, Worker { phase: Phase::Waiting, left: (w.left - 1) as nat }),
                ..s
            },
        }
    } else {
        s
    }
}

/// The state after the workers named by `schedule` took one step each, in order.
pub open spec fn counting_run(s: Counting, schedule: Seq<int>) -> Counting
    decreases schedule.len(),
{
    if schedule.len() == 0 {
        s
    } else {
        counting_run(counting_step(s, schedule[0]), schedule.drop_first())
    }
}

/// Increments a worker has made: finished cycles plus one written but not yet unlocked.
pub open spec fn worker_done(w: Worker, k: nat) -> nat {
    ((k - w.left) + if w.phase is Wrote { 1int } else { 0int }) as nat
}

pub open spec fn all_done(ws: Seq<Worker>, k: nat) -> nat
    decreases ws.len(),
{
    if ws.len() == 0 {
        0
    } else {
        all_done(ws.drop_last(), k) + worker_done(ws.last(), k)
    }
}

/// Number of workers in their critical section.
pub open spec fn holders(ws: Seq<Worker>) -> nat
    decreases ws.len(),
{
    if ws.len() == 0 {
        0
    } else {
        holders(ws.drop_last()) + if ws.last().phase is Waiting { 0nat } else { 1nat }
    }
}

pub open spec fn counting_inv(s: Counting, k: nat) -> bool {
    &&& forall|i: int| 0 <= i < s.workers.len() ==> #[trigger] s.workers[i].left <= k
    &&& forall|i: int|
        0 <= i < s.workers.len() && !(#[trigger] s.workers[i].phase is Waiting) ==> s.workers[i].left > 0
    &&& forall|i: int|
        0 <= i < s.workers.len() && #[trigger] s.workers[i].phase is HasRead ==> s.workers[i].phase->0
            == s.counter
    &&& holders(s.workers) <= 1
    &&& s.locked <==> holders(s.workers) == 1
    &&& s.counter == all_done(s.workers, k)
}

proof fn lemma_sums_update(ws: Seq<Worker>, i: int, w: Worker, k: nat)
    requires
        0 <= i < ws.len(),
        ws[i].left <= k,
        w.left <= k,
    ensures
        all_done(ws.update(i, w), k) + worker_done(ws[i], k) == all_done(ws, k) + worker_done(w, k),
        holders(ws.update(i, w)) + (if ws[i].phase is Waiting { 0nat } else { 1nat }) == holders(ws)
            + (if w.phase is Waiting { 0nat } else { 1nat }),
    decreases ws.len(),
{
    let u = ws.update(i, w);
    if i == ws.len() - 1 {
        assert(u.drop_last() == ws.drop_last());
    } else {
        lemma_sums_update(ws.drop_last(), i, w, k);
        assert(u.drop_last() == ws.drop_last().update(i, w));
    }
}

proof fn lemma_holder_found(ws: Seq<Worker>, i: int)
    requires
        0 <= i < ws.len(),
        !(ws[i].phase is Waiting),
    ensures
        holders(ws) >= 1,
    decreases ws.len(),
{
    if i < ws.len() - 1 {
        lemma_holder_found(ws.drop_last(), i);
    }
}

proof fn lemma_all_done_full(ws: Seq<Worker>, k: nat)
    requires
        forall|i: int| 0 <= i < ws.len() ==> #[trigger] ws[i].left == 0 && ws[i].phase is Waiting,
    ensures
        all_done(ws, k) == ws.len() * k,
    decreases ws.len(),
{
    if ws.len() > 0 {
        lemma_all_done_full(ws.drop_last(), k);
        assert(ws.len() * k == (ws.len() - 1) * k + k) by (nonlinear_arith);
    }
}

proof fn lemma_all_done_zero(ws: Seq<Worker>, k: nat)
    requires
        forall|i: int| 0 <= i < ws.len() ==> #[trigger] ws[i].left == k && ws[i].phase is Waiting,
    ensures
        all_done(ws, k) == 0,
        holders(ws) == 0,
    decreases ws.len(),
{
    if ws.len() > 0 {
        lemma_all_done_zero(ws.drop_last(), k);
    }
}

proof fn lemma_step_keeps_inv(s: Counting, i: int, k: nat)
    requires
        counting_inv(s, k),
    ensures
        counting_inv(counting_step(s, i), k),
{
    if 0 <= i < s.workers.len() {
        let w = s.workers[i];
        let t = counting_step(s, i);
        match w.phase {
            Phase::Waiting => {
                if w.left > 0 && acquires(s.locked) {
                    lemma_sums_update(s.workers, i, t.workers[i], k);
                }
            },
            Phase::Holding => {
                lemma_sums_update(s.workers, i, t.workers[i], k);
                if s.workers.len() > 0 {
                    assert forall|j: int| 0 <= j < t.workers.len() && #[trigger] t.workers[j].phase is HasRead implies t.workers[j].phase->0 == t.counter by {
                        if j != i {
                            lemma_two_holders(s.workers, i, j);
                        }
                    }
                }
            },
            Phase::HasRead(v) => {
                lemma_sums_update(s.workers, i, t.workers[i], k);
                assert forall|j: int| 0 <= j < t.workers.len() && #[trigger] t.workers[j].phase is HasRead implies t.workers[j].phase->0 == t.counter by {
                    if j != i {
                        lemma_two_holders(s.workers, i, j);
                    }
                }
            },
            Phase::Wrote => {
                lemma_sums_update(s.workers, i, t.workers[i], k);
            },
        }
    }
}

/// Two workers are never in their critical sections at once.
proof fn lemma_two_holders(ws: Seq<Worker>, i: int, j: int)
    requires
        0 <= i < ws.len(),
        0 <= j < ws.len(),
        i != j,
        holders(ws) <= 1,
        !(ws[i].phase is Waiting),
    ensures
        ws[j].phase is Waiting,
    decreases ws.len(),
{
    let n = ws.len() - 1;
    if i == n {
        if !(ws[j].phase is Waiting) {
            lemma_holder_found(ws.drop_last(), j);
        }
    } else if j == n {
        if !(ws[j].phase is Waiting) {
            lemma_holder_found(ws.drop_last(), i);
        }
    } else {
        lemma_two_holders(ws.drop_last(), i, j);
    }
}

proof fn lemma_run_keeps_inv(s: Counting, schedule: Seq<int>, k: nat)
    requires
        counting_inv(s, k),
    ensures
        counting_inv(counting_run(s, schedule), k),
    decreases schedule.len(),
{
    if schedule.len() > 0 {
        lemma_step_keeps_inv(s, schedule[0], k);
        lemma_run_keeps_inv(counting_step(s, schedule[0]), schedule.drop_first(), k);
    }
}

/// However the steps of `t` workers interleave, at most one of them is in
/// its critical section, the flag is set exactly while one is, and the
/// counter equals the increments made so far; once every worker has run
/// its `k` cycles the counter is `t * k`.
pub proof fn lemma_counter_under_lock(t: nat, k: nat, schedule: Seq<int>)
    ensures
        ({
            let s = counting_run(counting_start(t, k), schedule);
            &&& holders(s.workers) <= 1
            &&& s.locked <==> holders(s.workers) == 1
            &&& s.counter == all_done(s.workers, k)
            &&& (forall|i: int| 0 <= i < s.workers.len() ==> #[trigger] s.workers[i].left == 0)
                ==> s.counter == t * k
        }),
{
    let s0 = counting_start(t, k);
    lemma_all_done_zero(s0.workers, k);
    lemma_run_keeps_inv(s0, schedule, k);
    let s = counting_run(s0, schedule);
    lemma_run_keeps_len(s0, schedule);
    if forall|i: int| 0 <= i < s.workers.len() ==> #[trigger] s.workers[i].left == 0 {
        assert forall|i: int| 0 <= i < s.workers.len() implies #[trigger] s.workers[i].left == 0
            && s.workers[i].phase is Waiting by {
            assert(s.workers[i].left == 0);
        }
        lemma_all_done_full(s.workers, k);
    }
}

proof fn lemma_run_keeps_len(s: Counting, schedule: Seq<int>)
    ensures
        counting_run(s, schedule).workers.len() == s.workers.len(),
    decreases schedule.len(),
{
    if schedule.len() > 0 {
        lemma_run_keeps_len(counting_step(s, schedule[0]), schedule.drop_first());
    }
}

} // verus!
