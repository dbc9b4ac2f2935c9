//! Laws of the engine, proved from the contracts of its functions.

use vstd::prelude::*;

use crate::elements::{Hooks, TransitionView, pipeline};
use crate::error::ErrorView;
use crate::event::{Snapshot, after_selection};
use crate::machine::{EventRecord, MachineView};
use crate::trace::{
    Action,
    Reply,
    Step,
    Verdict,
    calls,
    event_outcome,
    is_run,
    is_selection,
    reentrancy_text,
    run_outcome,
    run_queues,
    selection_outcome,
};

verus! {

/// The actions of a run, in order.
pub open spec fn actions(run: Seq<Step>) -> Seq<Action> {
    Seq::new(run.len(), |i: int| run[i].action)
}

/// A guard passes exactly when its predicate answers the target: a guard
/// with the target `true` passes when the predicate holds, one with the
/// target `false` when it does not.
pub proof fn law_guard_semantics(predicate: Seq<char>, target: bool, answer: bool, queued: bool)
    ensures
        (Step {
            action: Action::Guard { predicate, target },
            reply: Reply::Answer { value: answer },
        }).verdict(queued) == if answer == target {
            Verdict::Continue
        } else {
            Verdict::Decline
        },
{
}

/// At most one transition fires per selection: two attempts that fired are
/// the same attempt.
pub proof fn law_at_most_one_fire(plans: Seq<Seq<Action>>, runs: Seq<Seq<Step>>, queued: bool, first: int, second: int)
    requires
        is_selection(plans, runs, queued),
        0 <= first < runs.len(),
        0 <= second < runs.len(),
        run_outcome(runs[first], queued) == Ok::<bool, ErrorView>(true),
        run_outcome(runs[second], queued) == Ok::<bool, ErrorView>(true),
    ensures
        first == second,
{
}

/// No candidate behind the one that fired, or failed, is attempted.
pub proof fn law_nothing_runs_behind(plans: Seq<Seq<Action>>, runs: Seq<Seq<Step>>, queued: bool, at: int)
    requires
        is_selection(plans, runs, queued),
        0 <= at < runs.len(),
        run_outcome(runs[at], queued) != Ok::<bool, ErrorView>(false),
    ensures
        runs.len() == at + 1,
{
}

/// Candidates whose guards decline are passed over: where every attempt
/// among the first `count` candidates declined and there are more
/// candidates, the next one is attempted.
pub proof fn law_declined_are_passed_over(plans: Seq<Seq<Action>>, runs: Seq<Seq<Step>>, queued: bool, count: int)
    requires
        is_selection(plans, runs, queued),
        0 <= count < plans.len(),
        forall|i: int|
            0 <= i < count && i < runs.len() ==> run_outcome(#[trigger] runs[i], queued) == Ok::<
                bool,
                ErrorView,
            >(false),
    ensures
        runs.len() > count,
        is_run(plans[count], runs[count], queued),
{
    if runs.len() <= count {
        assert(runs.last() == runs[runs.len() - 1]);
    }
}

/// A run that fired made every action of its plan, in the plan's order.
pub proof fn law_fired_run_is_the_plan(plan: Seq<Action>, run: Seq<Step>, queued: bool)
    requires
        is_run(plan, run, queued),
        run_outcome(run, queued) == Ok::<bool, ErrorView>(true),
    ensures
        actions(run) == plan,
{
    reveal(is_run);
    assert(actions(run) =~= plan);
}

/// A run that declined or failed made the actions of its plan up to the one
/// that ended it, and none behind.
pub proof fn law_run_is_a_prefix(plan: Seq<Action>, run: Seq<Step>, queued: bool)
    requires
        is_run(plan, run, queued),
    ensures
        run.len() <= plan.len(),
        actions(run) == plan.take(run.len() as int),
{
    reveal(is_run);
    assert(actions(run) =~= plan.take(run.len() as int));
}

/// Bracketing: machine-wide callbacks wrap the transition's own. With the
/// machine-wide callbacks `global_before` and `global_after`, and the
/// transition's own `own_before` and `own_after`, the plan of a transition
/// to `dest` without guards, `prepare` callbacks and state callbacks is
/// exactly `global_before`, `own_before`, the state change, `own_after`,
/// `global_after`.
pub proof fn law_bracketing(
    global_before: Seq<char>,
    global_after: Seq<char>,
    own_before: Seq<char>,
    own_after: Seq<char>,
    source: Seq<char>,
    dest: Seq<char>,
)
    ensures
        pipeline(
            Hooks {
                prepare_event: Seq::empty(),
                before_state_change: seq![global_before],
                after_state_change: seq![global_after],
            },
            TransitionView {
                source,
                dest: Some(dest),
                conditions: Seq::empty(),
                unless: Seq::empty(),
                before: seq![own_before],
                after: seq![own_after],
                prepare: Seq::empty(),
            },
            Seq::empty(),
            Seq::empty(),
        ) == seq![
            Action::Call { callback: global_before },
            Action::Call { callback: own_before },
            Action::Move { dest },
            Action::Call { callback: own_after },
            Action::Call { callback: global_after },
        ],
{
    let hooks = Hooks {
        prepare_event: Seq::empty(),
        before_state_change: seq![global_before],
        after_state_change: seq![global_after],
    };
    let transition = TransitionView {
        source,
        dest: Some(dest),
        conditions: Seq::empty(),
        unless: Seq::empty(),
        before: seq![own_before],
        after: seq![own_after],
        prepare: Seq::empty(),
    };
    let none = Seq::<Seq<char>>::empty();
    assert(pipeline(hooks, transition, none, none) =~= seq![
        Action::Call { callback: global_before },
        Action::Call { callback: own_before },
        Action::Move { dest },
        Action::Call { callback: own_after },
        Action::Call { callback: global_after },
    ]);
}

/// Bracketing in general: in every plan the machine's `before_state_change`
/// callbacks come directly before the transition's `before` callbacks, the
/// state change lies between the `before` and the `after` callbacks, and the
/// transition's `after` callbacks come directly before the machine's
/// `after_state_change` callbacks, which end the plan.
pub proof fn law_bracketing_order(
    hooks: Hooks,
    transition: TransitionView,
    on_exit: Seq<Seq<char>>,
    on_enter: Seq<Seq<char>>,
)
    ensures
        pipeline(hooks, transition, on_exit, on_enter) == calls(hooks.prepare_event) + calls(
            transition.prepare,
        ) + transition.guards() + calls(hooks.before_state_change) + calls(transition.before)
            + transition.change(on_exit, on_enter) + calls(transition.after) + calls(
            hooks.after_state_change,
        ),
{
    assert(calls(hooks.prepare_event + transition.prepare) =~= calls(hooks.prepare_event) + calls(
        transition.prepare,
    ));
    assert(calls(hooks.before_state_change + transition.before) =~= calls(hooks.before_state_change)
        + calls(transition.before));
    assert(calls(transition.after + hooks.after_state_change) =~= calls(transition.after) + calls(
        hooks.after_state_change,
    ));
    assert(pipeline(hooks, transition, on_exit, on_enter) =~= calls(hooks.prepare_event) + calls(
        transition.prepare,
    ) + transition.guards() + calls(hooks.before_state_change) + calls(transition.before)
        + transition.change(on_exit, on_enter) + calls(transition.after) + calls(
        hooks.after_state_change,
    ));
}

/// An internal transition changes no state: its plan holds the `prepare`
/// callbacks, the guards, and the `before` and `after` callbacks, but
/// neither a state change nor a callback of a state.
pub proof fn law_internal_transition_plan(
    hooks: Hooks,
    transition: TransitionView,
    on_exit: Seq<Seq<char>>,
    on_enter: Seq<Seq<char>>,
)
    requires
        transition.dest is None,
    ensures
        pipeline(hooks, transition, on_exit, on_enter) == calls(hooks.prepare_event + transition.prepare)
            + transition.guards() + calls(hooks.before_state_change + transition.before) + calls(
            transition.after + hooks.after_state_change,
        ),
        forall|i: int|
            0 <= i < pipeline(hooks, transition, on_exit, on_enter).len() ==> !(#[trigger] pipeline(
                hooks,
                transition,
                on_exit,
                on_enter,
            )[i] is Move),
{
    assert(pipeline(hooks, transition, on_exit, on_enter) =~= calls(
        hooks.prepare_event + transition.prepare,
    ) + transition.guards() + calls(hooks.before_state_change + transition.before) + calls(
        transition.after + hooks.after_state_change,
    ));
}

/// An internal transition leaves the model as it was, whatever its run: a
/// selection whose last attempt was an internal transition hands back the
/// model and the state it started with.
pub proof fn law_internal_transition_keeps_state(
    before: Snapshot,
    candidates: Seq<TransitionView>,
    runs: Seq<Seq<Step>>,
    attribute: Seq<char>,
    queued: bool,
)
    requires
        0 < runs.len() <= candidates.len(),
        candidates[runs.len() - 1].dest is None,
    ensures
        after_selection(before, candidates, runs, attribute, queued).model == before.model,
        after_selection(before, candidates, runs, attribute, queued).state == before.state,
{
}

/// A selection moves the model only by the transition that fired: where no
/// transition fired, the model and its state are as they were.
pub proof fn law_no_fire_no_change(
    before: Snapshot,
    candidates: Seq<TransitionView>,
    runs: Seq<Seq<Step>>,
    attribute: Seq<char>,
    queued: bool,
)
    requires
        selection_outcome(runs, queued) != Ok::<bool, ErrorView>(true),
    ensures
        after_selection(before, candidates, runs, attribute, queued).model == before.model,
        after_selection(before, candidates, runs, attribute, queued).state == before.state,
{
}

/// Re-entrancy guard: in a machine that does not queue, a callback that
/// raises a trigger fails with `MachineError`.
pub proof fn law_reentrant_trigger_fails(callback: Seq<char>, raised: Seq<Seq<char>>)
    requires
        raised.len() > 0,
    ensures
        (Step { action: Action::Call { callback }, reply: Reply::Done { raised } }).verdict(false) == (
        Verdict::Fail { error: ErrorView::MachineError(reentrancy_text()) }),
        (Step { action: Action::Call { callback }, reply: Reply::Done { raised } }).verdict(true)
            is Continue,
{
}

/// Re-entrancy guard: in a machine that does not queue, a selection in
/// which a callback raised a trigger ends with `MachineError`, and the model
/// and its state are as they were before.
pub proof fn law_reentrant_trigger_changes_nothing(
    plans: Seq<Seq<Action>>,
    candidates: Seq<TransitionView>,
    runs: Seq<Seq<Step>>,
    before: Snapshot,
    attribute: Seq<char>,
    attempt: int,
    step: int,
)
    requires
        is_selection(plans, runs, false),
        0 <= attempt < runs.len(),
        0 <= step < runs[attempt].len(),
        runs[attempt][step].reply matches Reply::Done { raised } && raised.len() > 0,
    ensures
        selection_outcome(runs, false) == Err::<bool, ErrorView>(
            ErrorView::MachineError(reentrancy_text()),
        ),
        forall|finalized: Result<bool, ErrorView>|
            #[trigger] event_outcome(selection_outcome(runs, false), finalized) == Err::<bool, ErrorView>(
                ErrorView::MachineError(reentrancy_text()),
            ),
        after_selection(before, candidates, runs, attribute, false).model == before.model,
        after_selection(before, candidates, runs, attribute, false).state == before.state,
{
    reveal(is_run);
    let run = runs[attempt];
    assert(is_run(plans[attempt], run, false));
    assert(!(run[step].verdict(false) is Continue));
    assert(step == run.len() - 1);
    assert(run.last() == run[step]);
    assert(run_outcome(run, false) == Err::<bool, ErrorView>(ErrorView::MachineError(reentrancy_text())));
    assert(attempt == runs.len() - 1);
}

/// The triggers of the records `done`, each a model and an event.
pub open spec fn entries(done: Seq<EventRecord>) -> Seq<(int, Seq<char>)> {
    Seq::new(done.len(), |i: int| (done[i].model, done[i].event))
}

/// The triggers that the callbacks of `done` added to the queue, in the
/// order in which they were raised.
pub open spec fn raised_by(done: Seq<EventRecord>, queued: bool) -> Seq<(int, Seq<char>)>
    decreases done.len(),
{
    if done.len() == 0 {
        Seq::empty()
    } else {
        raised_by(done.drop_last(), queued) + done.last().queues(queued)
    }
}

/// Whether no record of `done` is a failure.
pub open spec fn all_served(done: Seq<EventRecord>) -> bool {
    forall|i: int| 0 <= i < done.len() ==> (#[trigger] done[i]).outcome is Ok
}

/// Queue order: as long as no trigger fails, the triggers that were waiting
/// at the start, followed by those that callbacks raised, are the triggers
/// that were served, followed by those that still wait. So triggers are
/// served first in, first out, and a trigger that a callback raises is
/// served only after the trigger whose callback raised it is done.
pub proof fn law_queue_is_fifo(begin: MachineView, done: Seq<EventRecord>)
    requires
        begin.drains(done),
        all_served(done),
    ensures
        begin.queue + raised_by(done, begin.queued) == entries(done) + begin.drained(done).queue,
        begin.drained(done).queued == begin.queued,
    decreases done.len(),
{
    if done.len() == 0 {
        assert(begin.queue + raised_by(done, begin.queued) =~= begin.queue);
        assert(entries(done) + begin.drained(done).queue =~= begin.queue);
    } else {
        let earlier = done.drop_last();
        let record = done.last();
        assert forall|i: int| 0 <= i < earlier.len() implies (#[trigger] earlier[i]).outcome is Ok by {
            assert(earlier[i] == done[i]);
        }
        law_queue_is_fifo(begin, earlier);
        let middle = begin.drained(earlier);
        assert(record == done[done.len() - 1]);
        assert(middle.queue[0] == (record.model, record.event));
        assert(entries(done) =~= entries(earlier).push((record.model, record.event)));
        let more = record.queues(begin.queued);
        assert(begin.drained(done).queue =~= (middle.queue + more).skip(1));
        assert(raised_by(done, begin.queued) == raised_by(earlier, begin.queued) + more);
        assert(begin.queue + raised_by(done, begin.queued) =~= (begin.queue + raised_by(
            earlier,
            begin.queued,
        )) + more);
        assert((middle.queue + more).skip(1) =~= middle.queue.skip(1) + more);
        assert(seq![middle.queue[0]] + middle.queue.skip(1) =~= middle.queue);
        assert(entries(done) + begin.drained(done).queue =~= (entries(earlier) + middle.queue) + more) by {
            assert(entries(done) + (middle.queue.skip(1) + more) =~= entries(earlier) + (seq![
                middle.queue[0],
            ] + middle.queue.skip(1)) + more);
        }
        assert(begin.queue + raised_by(done, begin.queued) =~= entries(done) + begin.drained(done).queue);
    }
}

/// Queue order, trigger by trigger: the trigger that is served as the
/// `at`-th is the `at`-th of the triggers that were waiting at the start
/// followed by those that callbacks raised before its turn.
pub proof fn law_served_in_order(begin: MachineView, done: Seq<EventRecord>, at: int)
    requires
        begin.drains(done),
        0 <= at < done.len(),
    ensures
        at < (begin.queue + raised_by(done.take(at), begin.queued)).len(),
        entries(done)[at] == (begin.queue + raised_by(done.take(at), begin.queued))[at],
    decreases done.len(),
{
    if at < done.len() - 1 {
        assert(done.drop_last().take(at) =~= done.take(at));
        law_served_in_order(begin, done.drop_last(), at);
        assert(entries(done)[at] == entries(done.drop_last())[at]);
    } else {
        let earlier = done.drop_last();
        assert(done.take(at) =~= earlier);
        lemma_drained_all_served(begin, earlier);
        law_queue_is_fifo(begin, earlier);
        let middle = begin.drained(earlier);
        let submitted = begin.queue + raised_by(earlier, begin.queued);
        assert(submitted == entries(earlier) + middle.queue);
        assert(submitted[at] == middle.queue[0]);
    }
}

/// A drain that was continued had no failure so far.
pub proof fn lemma_drained_all_served(begin: MachineView, done: Seq<EventRecord>)
    requires
        begin.drains(done),
        begin.drained(done).queue.len() > 0 || done.len() == 0 || done.last().outcome is Ok,
    ensures
        all_served(done),
    decreases done.len(),
{
    if done.len() > 0 {
        let earlier = done.drop_last();
        if earlier.len() > 0 {
            // The drain went on behind the earlier records, so the last of
            // them left the queue in place.
            assert(begin.drained(earlier).queue.len() > 0);
        }
        lemma_drained_all_served(begin, earlier);
        assert forall|i: int| 0 <= i < done.len() implies (#[trigger] done[i]).outcome is Ok by {
            if i < earlier.len() {
                assert(earlier[i] == done[i]);
            } else {
                assert(done[i] == done.last());
                if !(done.last().outcome is Ok) {
                    assert(begin.drained(done).queue =~= Seq::<(int, Seq<char>)>::empty());
                }
            }
        }
    }
}

/// In a machine that does not queue no trigger ever waits: whatever a run
/// holds, it adds nothing to the queue.
pub proof fn law_nothing_waits_without_queue(run: Seq<Step>)
    ensures
        run_queues(run, false) == Seq::<Seq<char>>::empty(),
    decreases run.len(),
{
    if run.len() > 0 {
        law_nothing_waits_without_queue(run.drop_last());
        assert(run_queues(run, false) =~= Seq::<Seq<char>>::empty());
    }
}


/// At most one transition fires per trigger: in the record of a trigger,
/// an attempt that fired or failed is the last attempt, and every attempt
/// before it declined.
pub proof fn law_one_fire_per_trigger(machine: MachineView, entry: (int, Seq<char>), record: EventRecord, at: int)
    requires
        machine.records(entry, record),
        0 <= at < record.attempts.len(),
        run_outcome(record.attempts[at], machine.queued) != Ok::<bool, ErrorView>(false),
    ensures
        record.attempts.len() == at + 1,
        forall|k: int|
            0 <= k < at ==> run_outcome(#[trigger] record.attempts[k], machine.queued) == Ok::<
                bool,
                ErrorView,
            >(false),
{
}

/// A trigger whose record is a failure leaves its model as it was, unless
/// the failure is that of a finalizing callback behind a transition that
/// fired.
pub proof fn law_failed_trigger_keeps_state(machine: MachineView, entry: (int, Seq<char>), record: EventRecord)
    requires
        machine.records(entry, record),
        selection_outcome(record.attempts, machine.queued) is Err,
    ensures
        record.outcome == selection_outcome(record.attempts, machine.queued),
        machine.moved(record) == machine.models[record.model],
{
    let candidates = machine.candidates(entry.1, record.state);
    assert(record.attempts.len() > 0);
    assert(candidates.len() > 0);
}

} // verus!
