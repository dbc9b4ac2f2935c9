//! What the engine does, as mathematical data.
//!
//! The engine's work on one transition is a sequence of [`Action`]s fixed by
//! the registry: the *plan*. The host decides how far the plan gets: each
//! action is answered by a [`Reply`], and the first reply that does not let
//! the engine continue ends the work. The sequence of [`Step`]s that were
//! actually made is a *run* of the plan, and the contracts of the executable
//! functions say which runs they can leave behind and what they return for
//! each.
//!
//! The record is tied to the host: the contracts also say that the reply of
//! every step is what the host's own method handed back when it was asked
//! at that step, the host being as the step before left it (see
//! [`crate::host::asked`] and [`crate::host::answered`]), and what the event
//! data showed the host at that step (see [`crate::sight`]).

use vstd::prelude::*;
use crate::error::{Error, ErrorView};

verus! {

/// One thing the engine does while it works on a transition.
pub enum Action {
    /// Invoke the host callback with this identifier.
    Call { callback: Seq<char> },
    /// Ask the host predicate with this identifier; the guard passes when the
    /// answer equals `target`.
    Guard { predicate: Seq<char>, target: bool },
    /// Write `dest` to the model's state attribute.
    Move { dest: Seq<char> },
}

/// What came back from an [`Action`].
pub enum Reply {
    /// The host knows no callable under the identifier.
    Unresolved,
    /// The host's callable failed with this error.
    Raised { error: Error },
    /// The callback returned, having raised these triggers.
    Done { raised: Seq<Seq<char>> },
    /// The predicate returned this value.
    Answer { value: bool },
    /// The state attribute was written.
    Moved,
}

/// An action together with its reply.
pub struct Step {
    pub action: Action,
    pub reply: Reply,
}

/// What a step means for the rest of the plan.
pub enum Verdict {
    /// Go on with the next action.
    Continue,
    /// A guard did not pass: the transition declines to fire.
    Decline,
    /// The work ends with this failure.
    Fail { error: ErrorView },
}

/// The text of the failure reported when a callback raises a trigger while a
/// synchronous transition is in flight.
pub open spec fn reentrancy_text() -> Seq<char> {
    "Attempt to process events synchronously while transition queue is not empty!"@
}

impl Action {
    /// The identifier that the host is asked to resolve, where there is one.
    pub open spec fn identifier(self) -> Seq<char> {
        match self {
            Action::Call { callback } => callback,
            Action::Guard { predicate, .. } => predicate,
            Action::Move { dest } => dest,
        }
    }
}

impl Step {
    /// Whether the reply is of a kind that the action can get.
    pub open spec fn fits(self) -> bool {
        match self.action {
            Action::Call { .. } => self.reply is Unresolved || self.reply is Raised
                || self.reply is Done,
            Action::Guard { .. } => self.reply is Unresolved || self.reply is Raised
                || self.reply is Answer,
            Action::Move { .. } => self.reply is Moved,
        }
    }

    /// What the step means for the rest of the plan. With `queued` false a
    /// callback that raises a trigger is a re-entrant synchronous trigger, and
    /// fails.
    pub open spec fn verdict(self, queued: bool) -> Verdict {
        match self.reply {
            Reply::Unresolved => Verdict::Fail {
                error: ErrorView::CallableError(self.action.identifier()),
            },
            Reply::Raised { error } => Verdict::Fail { error: error@ },
            Reply::Done { raised } => if !queued && raised.len() > 0 {
                Verdict::Fail { error: ErrorView::MachineError(reentrancy_text()) }
            } else {
                Verdict::Continue
            },
            Reply::Answer { value } => match self.action {
                Action::Guard { target, .. } => if value == target {
                    Verdict::Continue
                } else {
                    Verdict::Decline
                },
                _ => Verdict::Continue,
            },
            Reply::Moved => Verdict::Continue,
        }
    }

    /// The triggers that the step adds to the machine's queue.
    pub open spec fn queues(self, queued: bool) -> Seq<Seq<char>> {
        match self.reply {
            Reply::Done { raised } => if queued {
                raised
            } else {
                Seq::empty()
            },
            _ => Seq::empty(),
        }
    }
}

/// Whether `run` is a run of `plan`: it follows the plan action by action,
/// every step but the last lets the engine continue, and it stops short of
/// the plan's end only at a step that does not.
#[verifier::opaque]
pub open spec fn is_run(plan: Seq<Action>, run: Seq<Step>, queued: bool) -> bool {
    &&& run.len() <= plan.len()
    &&& forall|i: int| 0 <= i < run.len() ==> (#[trigger] run[i]).action == plan[i] && run[i].fits()
    &&& forall|i: int| 0 <= i < run.len() - 1 ==> (#[trigger] run[i]).verdict(queued) is Continue
    &&& run.len() < plan.len() ==> run.len() > 0 && !(run.last().verdict(queued) is Continue)
}

/// What a run amounts to: `Ok(true)` when every step let the engine
/// continue, `Ok(false)` when a guard declined, the failure otherwise.
pub open spec fn run_outcome(run: Seq<Step>, queued: bool) -> Result<bool, ErrorView> {
    if run.len() == 0 {
        Ok(true)
    } else {
        match run.last().verdict(queued) {
            Verdict::Continue => Ok(true),
            Verdict::Decline => Ok(false),
            Verdict::Fail { error } => Err(error),
        }
    }
}

/// The triggers that a run adds to the machine's queue, in the order in which
/// they were raised.
pub open spec fn run_queues(run: Seq<Step>, queued: bool) -> Seq<Seq<char>>
    decreases run.len(),
{
    if run.len() == 0 {
        Seq::empty()
    } else {
        run_queues(run.drop_last(), queued) + run.last().queues(queued)
    }
}

/// The plan that invokes each of `callbacks` in order.
pub open spec fn calls(callbacks: Seq<Seq<char>>) -> Seq<Action> {
    Seq::new(callbacks.len(), |i: int| Action::Call { callback: callbacks[i] })
}

/// The plan that asks each of `guards` in order, each a predicate and its
/// target.
pub open spec fn asks(guards: Seq<(Seq<char>, bool)>) -> Seq<Action> {
    Seq::new(guards.len(), |i: int| Action::Guard { predicate: guards[i].0, target: guards[i].1 })
}

/// A run that ended before the end of its plan is also a run of any longer
/// plan.
pub proof fn lemma_run_stops(first: Seq<Action>, rest: Seq<Action>, run: Seq<Step>, queued: bool)
    requires
        is_run(first, run, queued),
        run_outcome(run, queued) != Ok::<bool, ErrorView>(true),
    ensures
        is_run(first + rest, run, queued),
{
    reveal(is_run);
}

/// A run that went through its whole plan, followed by a run of a second
/// plan, is a run of the two plans in sequence, and amounts to what the
/// second run amounts to.
pub proof fn lemma_run_extends(
    first: Seq<Action>,
    rest: Seq<Action>,
    run: Seq<Step>,
    more: Seq<Step>,
    queued: bool,
)
    requires
        is_run(first, run, queued),
        run_outcome(run, queued) == Ok::<bool, ErrorView>(true),
        is_run(rest, more, queued),
    ensures
        is_run(first + rest, run + more, queued),
        run_outcome(run + more, queued) == run_outcome(more, queued),
        run.len() == first.len(),
{
    reveal(is_run);
    let all = run + more;
    assert(run.len() == first.len());
    assert forall|i: int| 0 <= i < all.len() implies (#[trigger] all[i]).action == (first + rest)[i]
        && all[i].fits() by {
        if i < run.len() {
            assert(all[i] == run[i]);
        } else {
            assert(all[i] == more[i - run.len()]);
        }
    }
    assert forall|i: int| 0 <= i < all.len() - 1 implies (#[trigger] all[i]).verdict(queued) is Continue by {
        if i < run.len() {
            assert(all[i] == run[i]);
            if i == run.len() - 1 {
                assert(run[i] == run.last());
            }
        } else {
            assert(all[i] == more[i - run.len()]);
        }
    }
    if more.len() > 0 {
        assert(all.last() == more.last());
    } else {
        assert(all =~= run);
    }
}

/// The triggers queued by two runs in sequence are those of the first, then
/// those of the second.
pub proof fn lemma_run_queues_concat(run: Seq<Step>, more: Seq<Step>, queued: bool)
    ensures
        run_queues(run + more, queued) == run_queues(run, queued) + run_queues(more, queued),
    decreases more.len(),
{
    if more.len() == 0 {
        assert(run + more =~= run);
        assert(run_queues(more, queued) =~= Seq::<Seq<char>>::empty());
        assert(run_queues(run, queued) + run_queues(more, queued) =~= run_queues(run, queued));
    } else {
        lemma_run_queues_concat(run, more.drop_last(), queued);
        assert((run + more).drop_last() =~= run + more.drop_last());
        assert((run + more).last() == more.last());
        assert(run_queues(run + more, queued) =~= run_queues(run, queued) + run_queues(
            more,
            queued,
        ));
    }
}

/// A run of one step queues what that step queues.
pub proof fn lemma_run_queues_one(step: Step, queued: bool)
    ensures
        run_queues(seq![step], queued) == step.queues(queued),
{
    let run = seq![step];
    assert(run.drop_last() =~= Seq::<Step>::empty());
    assert(run_queues(run.drop_last(), queued) =~= Seq::<Seq<char>>::empty());
    assert(run_queues(run, queued) =~= step.queues(queued));
}

/// Whether `runs` are the attempts of one selection among the candidates
/// with the plans `plans`: the candidates are attempted in order, every
/// attempt but the last declined, and the selection stops short of the last
/// candidate only at an attempt that fired or failed.
pub open spec fn is_selection(plans: Seq<Seq<Action>>, runs: Seq<Seq<Step>>, queued: bool) -> bool {
    &&& runs.len() <= plans.len()
    &&& forall|k: int| 0 <= k < runs.len() ==> is_run(plans[k], #[trigger] runs[k], queued)
    &&& forall|k: int|
        0 <= k < runs.len() - 1 ==> run_outcome(#[trigger] runs[k], queued) == Ok::<bool, ErrorView>(
            false,
        )
    &&& runs.len() < plans.len() ==> runs.len() > 0 && run_outcome(runs.last(), queued) != Ok::<
        bool,
        ErrorView,
    >(false)
}

/// What a selection amounts to: whether a transition fired, or the failure
/// that ended it. With no candidate at all nothing fires.
pub open spec fn selection_outcome(runs: Seq<Seq<Step>>, queued: bool) -> Result<bool, ErrorView> {
    if runs.len() == 0 {
        Ok(false)
    } else {
        run_outcome(runs.last(), queued)
    }
}

/// The steps of `runs`, one run after the other.
pub open spec fn concat(runs: Seq<Seq<Step>>) -> Seq<Step>
    decreases runs.len(),
{
    if runs.len() == 0 {
        Seq::empty()
    } else {
        concat(runs.drop_last()) + runs.last()
    }
}

/// What the processing of an event amounts to: the failure of the selection
/// if it failed, else the failure of a finalizing callback if one failed,
/// else whether a transition fired.
pub open spec fn event_outcome(selected: Result<bool, ErrorView>, finalized: Result<bool, ErrorView>) -> Result<
    bool,
    ErrorView,
> {
    match selected {
        Err(error) => Err(error),
        Ok(fired) => match finalized {
            Err(error) => Err(error),
            Ok(_) => Ok(fired),
        },
    }
}

/// The steps of some runs and one more are the steps of the runs, then
/// those of the last.
pub proof fn lemma_concat_push(runs: Seq<Seq<Step>>, run: Seq<Step>)
    ensures
        concat(runs.push(run)) == concat(runs) + run,
{
    assert(runs.push(run).drop_last() =~= runs);
}

/// Nothing is a run of the empty plan.
pub proof fn lemma_run_of_nothing(queued: bool)
    ensures
        is_run(Seq::<Action>::empty(), Seq::<Step>::empty(), queued),
        run_outcome(Seq::<Step>::empty(), queued) == Ok::<bool, ErrorView>(true),
        run_queues(Seq::<Step>::empty(), queued) == Seq::<Seq<char>>::empty(),
{
    reveal(is_run);
}

/// A run of a plan of one action with a fitting reply.
pub proof fn lemma_run_of_one(step: Step, queued: bool)
    requires
        step.fits(),
    ensures
        is_run(seq![step.action], seq![step], queued),
{
    reveal(is_run);
}

/// One more step: a run that went through the first actions of a plan,
/// followed by a step of the next action, is a run of the first actions and
/// the next, and a run of the whole plan if the step ends the work.
pub proof fn lemma_run_step(plan: Seq<Action>, run: Seq<Step>, step: Step, queued: bool)
    requires
        run.len() < plan.len(),
        is_run(plan.take(run.len() as int), run, queued),
        run_outcome(run, queued) == Ok::<bool, ErrorView>(true),
        step.action == plan[run.len() as int],
        step.fits(),
    ensures
        is_run(plan.take(run.len() as int + 1), run.push(step), queued),
        run_outcome(run.push(step), queued) == match step.verdict(queued) {
            Verdict::Continue => Ok::<bool, ErrorView>(true),
            Verdict::Decline => Ok(false),
            Verdict::Fail { error } => Err(error),
        },
        run_outcome(run.push(step), queued) != Ok::<bool, ErrorView>(true) ==> is_run(
            plan,
            run.push(step),
            queued,
        ),
        run_queues(run.push(step), queued) == run_queues(run, queued) + step.queues(queued),
{
    let first = plan.take(run.len() as int);
    let next = seq![step.action];
    let longer = run.push(step);
    lemma_run_of_one(step, queued);
    lemma_run_extends(first, next, run, seq![step], queued);
    assert(run + seq![step] =~= longer);
    assert(first + next =~= plan.take(run.len() as int + 1));
    assert(longer.last() == step);
    if run_outcome(longer, queued) != Ok::<bool, ErrorView>(true) {
        lemma_run_stops(plan.take(run.len() as int + 1), plan.skip(run.len() as int + 1), longer, queued);
        assert(plan.take(run.len() as int + 1) + plan.skip(run.len() as int + 1) =~= plan);
    }
    lemma_run_queues_concat(run, seq![step], queued);
    lemma_run_queues_one(step, queued);
}

/// A run of all the actions of a plan is a run of the plan.
pub proof fn lemma_run_whole(plan: Seq<Action>, run: Seq<Step>, queued: bool)
    requires
        is_run(plan.take(plan.len() as int), run, queued),
    ensures
        is_run(plan, run, queued),
{
    assert(plan.take(plan.len() as int) =~= plan);
}

} // verus!
