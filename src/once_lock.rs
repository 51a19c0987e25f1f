use vstd::prelude::*;

verus! {

/// The tag of a write-once cell.
#[derive(Clone, Copy, Debug, PartialEq, Eq, Structural)]
pub enum OnceState {
    Empty,
    Writing,
    Filled,
}

/// The tag after a writer tries to claim a cell tagged `s`: only an empty
/// cell is claimed.
pub open spec fn claim_state(s: OnceState) -> OnceState {
    if s == OnceState::Empty {
        OnceState::Writing
    } else {
        s
    }
}

/// A cell written at most once: `Empty`, then `Writing`, then `Filled`, and
/// never anything else after that.
pub struct OnceLock<T> {
    state: OnceState,
    cell: Option<T>,
}

impl<T> OnceLock<T> {
    pub closed spec fn state(&self) -> OnceState {
        self.state
    }

    /// The stored value, present once the writer has stored it.
    pub closed spec fn stored(&self) -> Option<T> {
        self.cell
    }

    /// The value readers see: only a filled cell shows one.
    pub open spec fn published(&self) -> Option<T> {
        if self.state() == OnceState::Filled {
            self.stored()
        } else {
            None
        }
    }

    pub open spec fn wf(&self) -> bool {
        &&& (self.state() == OnceState::Filled <==> self.stored() is Some)
    }

    /// An empty cell.
    pub fn new() -> (c: OnceLock<T>)
        ensures
            c.wf(),
            c.state() == OnceState::Empty,
            c.published() is None,
    {
        OnceLock { state: OnceState::Empty, cell: None }
    }

    /// The tag, as a reader sees it.
    pub fn current_state(&self) -> (s: OnceState)
        ensures
            s == self.state(),
    {
        self.state
    }

    /// Claims an empty cell for writing: the tag moves from `Empty` to
    /// `Writing` and `true` comes back. A cell that is being written or is
    /// filled is left as it is, and `false` comes back.
    pub fn try_claim(&mut self) -> (won: bool)
        requires
            old(self).wf(),
        ensures
            final(self).wf(),
            won == (old(self).state() == OnceState::Empty),
            final(self).state() == claim_state(old(self).state()),
            final(self).stored() == old(self).stored(),
    {
        if self.state == OnceState::Empty {
            self.state = OnceState::Writing;
            true
        } else {
            false
        }
    }

    /// Stores `value` in a cell claimed for writing and tags it `Filled`.
    pub fn publish(&mut self, value: T)
        requires
            old(self).wf(),
            old(self).state() == OnceState::Writing,
        ensures
            final(self).wf(),
            final(self).state() == OnceState::Filled,
            final(self).stored() == Some(value),
    {
        self.cell = Some(value);
        self.state = OnceState::Filled;
    }

    /// Fills an empty cell with `value`. A cell that is being written or is
    /// filled is left as it is and `value` is handed back.
    pub fn set(&mut self, value: T) -> (r: Result<(), T>)
        requires
            old(self).wf(),
        ensures
            final(self).wf(),
            old(self).state() == OnceState::Empty ==> {
                &&& r is Ok
                &&& final(self).state() == OnceState::Filled
                &&& final(self).stored() == Some(value)
            },
            old(self).state() != OnceState::Empty ==> {
                &&& r == Err::<(), T>(value)
                &&& final(self).state() == old(self).state()
                &&& final(self).stored() == old(self).stored()
            },
    {
        if self.try_claim() {
            self.publish(value);
            Ok(())
        } else {
            Err(value)
        }
    }

    /// The value, once the cell is filled; `None` while it is empty or
    /// still being written.
    pub fn get(&self) -> (r: Option<&T>)
        requires
            self.wf(),
        ensures
            self.published() is None ==> r is None,
            self.published() is Some ==> r is Some && *r->0 == self.published()->0,
    {
        match self.state {
            OnceState::Filled => self.cell.as_ref(),
            _ => None,
        }
    }
}

impl<T> Default for OnceLock<T> {
    fn default() -> (c: OnceLock<T>)
        ensures
            c.wf(),
            c.state() == OnceState::Empty,
    {
        Self::new()
    }
}

/// Readers never see the value of a cell that is still being written.
pub proof fn lemma_no_value_while_writing<T>(c: OnceLock<T>)
    requires
        c.state() == OnceState::Writing,
    ensures
        c.published() is None,
{
}

/// Where one caller of `set` stands.
pub enum SetPhase<T> {
    Ready(T),
    Claimed(T),
    Finished(Result<(), T>),
}

/// Callers racing to `set` one shared cell; `winner` is the caller whose
/// claim found the cell empty, once there is one.
pub struct SetRace<T> {
    pub state: OnceState,
    pub value: Option<T>,
    pub setters: Seq<SetPhase<T>>,
    pub winner: Option<int>,
}

/// Callers about to set the values `vs` on an empty cell.
pub open spec fn race_start<T>(vs: Seq<T>) -> SetRace<T> {
    SetRace {
        state: OnceState::Empty,
        value: None,
        setters: Seq::new(vs.len(), |i: int| SetPhase::Ready(vs[i])),
        winner: None,
    }
}

/// One atomic step of caller `i`: its claim (one compare-and-swap of the
/// tag, which only an empty cell passes), or the store that fills the cell.
pub open spec fn race_step<T>(s: SetRace<T>, i: int) -> SetRace<T> {
    if 0 <= i < s.setters.len() {
        match s.setters[i] {
            SetPhase::Ready(x) => {
                if s.state == OnceState::Empty {
                    SetRace {
                        state: claim_state(s.state),
                        setters: s.setters.update(i, SetPhase::Claimed(x)),
                        winner: Some(i),
                        ..s
                    }
                } else {
                    SetRace { setters: s.setters.update(i, SetPhase::Finished(Err(x))), ..s }
                }
            },
            SetPhase::Claimed(x) => SetRace {
                state: OnceState::Filled,
                value: Some(x),
                setters: s.setters.update(i, SetPhase::Finished(Ok(()))),
                ..s
            },
            SetPhase::Finished(_) => s,
        }
    } else {
        s
    }
}

pub open spec fn race_run<T>(s: SetRace<T>, schedule: Seq<int>) -> SetRace<T>
    decreases schedule.len(),
{
    if schedule.len() == 0 {
        s
    } else {
        race_run(race_step(s, schedule[0]), schedule.drop_first())
    }
}

/// What readers of the racing cell see.
pub open spec fn race_published<T>(s: SetRace<T>) -> Option<T> {
    if s.state == OnceState::Filled {
        s.value
    } else {
        None
    }
}

pub open spec fn race_inv<T>(s: SetRace<T>, vs: Seq<T>) -> bool {
    &&& s.setters.len() == vs.len()
    &&& (s.state == OnceState::Empty <==> s.winner is None)
    &&& s.state == OnceState::Empty ==> s.value is None
    &&& forall|i: int|
        0 <= i < vs.len() && Some(i) != s.winner ==> (#[trigger] s.setters[i] == SetPhase::Ready(vs[i])
            || s.setters[i] == SetPhase::<T>::Finished(Err(vs[i])))
    &&& s.state == OnceState::Empty ==> forall|i: int|
        0 <= i < vs.len() ==> #[trigger] s.setters[i] == SetPhase::Ready(vs[i])
    &&& s.winner is Some ==> {
        let w = s.winner->0;
        &&& 0 <= w < vs.len()
        &&& s.state == OnceState::Writing ==> s.setters[w] == SetPhase::Claimed(vs[w]) && s.value is None
        &&& s.state == OnceState::Filled ==> s.setters[w] == SetPhase::<T>::Finished(Ok(()))
            && s.value == Some(vs[w])
    }
}

proof fn lemma_race_step<T>(s: SetRace<T>, i: int, vs: Seq<T>)
    requires
        race_inv(s, vs),
    ensures
        race_inv(race_step(s, i), vs),
        s.winner is Some ==> race_step(s, i).winner == s.winner,
        s.state == OnceState::Filled ==> race_step(s, i).state == OnceState::Filled
            && race_step(s, i).value == s.value,
{
    if 0 <= i < s.setters.len() {
        let t = race_step(s, i);
        match s.setters[i] {
            SetPhase::Ready(x) => {
                if s.state == OnceState::Empty {
                    assert(s.setters[i] == SetPhase::Ready(vs[i]));
                    assert forall|j: int|
                        0 <= j < vs.len() && Some(j) != t.winner implies (#[trigger] t.setters[j]
                        == SetPhase::Ready(vs[j]) || t.setters[j] == SetPhase::<T>::Finished(
                        Err(vs[j]),
                    )) by {
                        assert(t.setters[j] == s.setters[j]);
                    }
                } else {
                    assert(Some(i) != s.winner);
                    assert(s.setters[i] == SetPhase::Ready(vs[i]));
                    assert forall|j: int|
                        0 <= j < vs.len() && Some(j) != t.winner implies (#[trigger] t.setters[j]
                        == SetPhase::Ready(vs[j]) || t.setters[j] == SetPhase::<T>::Finished(
                        Err(vs[j]),
                    )) by {
                        if j != i {
                            assert(t.setters[j] == s.setters[j]);
                        }
                    }
                }
            },
            SetPhase::Claimed(x) => {
                assert(s.winner == Some(i));
                assert forall|j: int|
                    0 <= j < vs.len() && Some(j) != t.winner implies (#[trigger] t.setters[j]
                    == SetPhase::Ready(vs[j]) || t.setters[j] == SetPhase::<T>::Finished(
                    Err(vs[j]),
                )) by {
                    assert(t.setters[j] == s.setters[j]);
                }
            },
            SetPhase::Finished(_) => {},
        }
    }
}

proof fn lemma_race_run<T>(s: SetRace<T>, schedule: Seq<int>, vs: Seq<T>)
    requires
        race_inv(s, vs),
    ensures
        race_inv(race_run(s, schedule), vs),
        s.winner is Some ==> race_run(s, schedule).winner == s.winner,
        s.state == OnceState::Filled ==> race_run(s, schedule).state == OnceState::Filled
            && race_run(s, schedule).value == s.value,
    decreases schedule.len(),
{
    if schedule.len() > 0 {
        lemma_race_step(s, schedule[0], vs);
        lemma_race_run(race_step(s, schedule[0]), schedule.drop_first(), vs);
    }
}

/// However the claims and stores of callers setting `vs` on one empty cell
/// interleave: each caller that lost got its own value back; the one that
/// succeeded is the winner; once the cell is filled it shows the winner's
/// value and keeps showing it; and once every caller has finished,
/// exactly one succeeded.
pub proof fn lemma_set_race<T>(vs: Seq<T>, schedule: Seq<int>, later: Seq<int>)
    ensures
        ({
            let s = race_run(race_start(vs), schedule);
            &&& forall|i: int|
                0 <= i < vs.len() && #[trigger] s.setters[i] is Finished ==> (s.setters[i]
                    == SetPhase::<T>::Finished(Err(vs[i])) || (s.winner == Some(i)
                    && s.setters[i] == SetPhase::<T>::Finished(Ok(())) && race_published(s)
                    == Some(vs[i])))
            &&& race_published(s) is Some ==> s.winner is Some && race_published(s) == Some(
                vs[s.winner->0],
            ) && race_published(race_run(s, later)) == race_published(s)
            &&& (vs.len() > 0 && forall|i: int| 0 <= i < vs.len() ==> #[trigger] s.setters[i] is Finished)
                ==> {
                &&& s.winner is Some
                &&& s.setters[s.winner->0] == SetPhase::<T>::Finished(Ok(()))
                &&& race_published(s) == Some(vs[s.winner->0])
            }
        }),
{
    let s0 = race_start(vs);
    assert forall|i: int| 0 <= i < vs.len() implies #[trigger] s0.setters[i] == SetPhase::Ready(
        vs[i],
    ) by {}
    lemma_race_run(s0, schedule, vs);
    let s = race_run(s0, schedule);
    lemma_race_run(s, later, vs);
    if vs.len() > 0 && forall|i: int| 0 <= i < vs.len() ==> #[trigger] s.setters[i] is Finished {
        assert(s.setters[0] is Finished);
        if s.state == OnceState::Writing {
            let w = s.winner->0;
            assert(s.setters[w] is Finished);
        }
    }
}

} // verus!
