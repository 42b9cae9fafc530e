//! Progress reporting and cooperative cancellation.

use vstd::prelude::*;

verus! {

/// The phase that a progress report belongs to.
#[non_exhaustive]
#[derive(Clone, Copy, Debug, PartialEq, Eq)]
pub enum ProgressState {
    GetRecordingLives,
    GetLiveIds,
    GetLiveUrls,
    GetDeviceCodes,
}

/// Makes and drops the progress handles of the phases.
pub trait ProgressTrackerHolder<P: ProgressTracker> {
    fn init(&self, total: u64, data: ProgressState) -> P;

    fn remove_progress(&self, progress: &P);
}

/// A handle that counts finished units of one phase and says whether more
/// work should be handed out.
pub trait ProgressTracker: Send + Sized {
    fn inc(&self, delta: u64);

    fn go_on(&self) -> bool {
        true
    }

    fn finish(&self, data: ProgressState);
}

/// Hands out the units `0..total` of a phase one at a time, and stops for
/// good at the first poll that asks it to.
#[derive(Clone, Copy, Debug, PartialEq, Eq)]
pub struct Dispatcher {
    pub total: usize,
    /// Units handed out so far: exactly the units `0..dispatched`.
    pub dispatched: usize,
    /// Units reported done.
    pub completed: usize,
    pub stopped: bool,
}

/// One poll: the state after it and the unit handed out, if any.
pub open spec fn step(d: Dispatcher, go_on: bool) -> (Dispatcher, Option<usize>) {
    if d.stopped || !go_on {
        (Dispatcher { stopped: true, ..d }, None)
    } else if d.dispatched >= d.total {
        (d, None)
    } else {
        (Dispatcher { dispatched: (d.dispatched + 1) as usize, ..d }, Some(d.dispatched))
    }
}

/// A run of polls from `d`: the final state and the units handed out.
pub open spec fn run(d: Dispatcher, polls: Seq<bool>) -> (Dispatcher, Seq<Option<usize>>)
    decreases polls.len(),
{
    if polls.len() == 0 {
        (d, Seq::empty())
    } else {
        let (d1, u) = step(d, polls[0]);
        let (d2, us) = run(d1, polls.drop_first());
        (d2, seq![u] + us)
    }
}

impl Dispatcher {
    pub open spec fn wf(&self) -> bool {
        self.completed <= self.dispatched <= self.total
    }

    pub fn new(total: usize) -> (r: Dispatcher)
        ensures
            r.wf(),
            r.total == total,
            r.dispatched == 0,
            r.completed == 0,
            !r.stopped,
    {
        Dispatcher { total, dispatched: 0, completed: 0, stopped: false }
    }

    /// Polls with the answer of `should_continue`: hands out the next unit,
    /// or none once stopped or done.
    pub fn next_unit(&mut self, go_on: bool) -> (r: Option<usize>)
        requires
            old(self).wf(),
        ensures
            final(self).wf(),
            (*final(self), r) == step(*old(self), go_on),
    {
        if self.stopped || !go_on {
            self.stopped = true;
            None
        } else if self.dispatched >= self.total {
            None
        } else {
            let u: usize = self.dispatched;
            self.dispatched = self.dispatched + 1;
            Some(u)
        }
    }

    /// Reports one handed-out unit done; this is counted also after a stop.
    pub fn complete(&mut self)
        requires
            old(self).wf(),
            old(self).completed < old(self).dispatched,
        ensures
            final(self).wf(),
            *final(self) == (Dispatcher { completed: (old(self).completed + 1) as usize, ..*old(self) }),
    {
        self.completed = self.completed + 1;
    }
}

/// Cancellation: a poll that is told to stop hands out nothing, and from then
/// on no poll hands out a unit, whatever it is told, while the units handed
/// out before stay counted as handed out.
pub proof fn lemma_cancellation(d: Dispatcher, polls: Seq<bool>)
    ensures
        step(d, false).1 is None,
        step(d, false).0.stopped,
        run(d, polls).1.len() == polls.len(),
        step(d, false).0.dispatched == d.dispatched,
        d.stopped ==> run(d, polls).0.stopped && run(d, polls).0.dispatched == d.dispatched
            && run(d, polls).0.completed == d.completed,
        d.stopped ==> forall|k: int| 0 <= k < polls.len() ==> (#[trigger] run(d, polls).1[k]) is None,
    decreases polls.len(),
{
    if polls.len() > 0 {
        let (d1, u) = step(d, polls[0]);
        lemma_cancellation(d1, polls.drop_first());
        if d.stopped {
            assert(d1 == d);
            let us = run(d1, polls.drop_first()).1;
            assert forall|k: int| 0 <= k < polls.len() implies (#[trigger] run(d, polls).1[k]) is None by {
                if k > 0 {
                    assert(run(d, polls).1 == seq![u] + us);
                    assert(run(d, polls).1[k] == us[k - 1]);
                }
            }
        }
    }
}

} // verus!
