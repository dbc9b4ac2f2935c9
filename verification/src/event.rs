//! Events and the data that accompanies one trigger invocation.

use vstd::prelude::*;
use crate::elements::{
    Transition,
    TransitionTriggerType,
    TransitionView,
    TriggerFunction,
    chain,
    copy_text,
    trigger_names,
};
use crate::error::{Error, ErrorView, outcome_view};
use crate::host::{Host, answered, asked, reaches_host, lemma_linked_nothing, lemma_linked_then};
use crate::machine::{Machine, state_names};
use crate::model::Model;
use crate::sight::{Sight, after, following};
use crate::support::{distinct, position, texts, lemma_position_none, lemma_position_unique};
use crate::trace::{
    Step,
    calls,
    concat,
    event_outcome,
    is_run,
    is_selection,
    run_outcome,
    run_queues,
    selection_outcome,
    lemma_concat_push,
    lemma_run_queues_concat,
};

verus! {

/// What callbacks can observe of an [`EventData`], as mathematical data.
pub struct Snapshot {
    /// The log prefix of the machine that processes the event.
    pub machine: Seq<char>,
    /// Whether the machine hands callbacks the event data rather than the
    /// bare arguments of the trigger.
    pub send_event: bool,
    /// The name of the model's state as the engine sees it.
    pub state: Seq<char>,
    /// The name of the event being processed.
    pub event: Seq<char>,
    /// The model's attributes.
    pub model: Map<Seq<char>, Seq<char>>,
    /// Source and destination of the transition being attempted.
    pub transition: Option<(Seq<char>, Option<Seq<char>>)>,
    /// The failure that ended the processing, once there is one.
    pub error: Option<ErrorView>,
    /// Whether a transition has fired.
    pub result: bool,
}

/// The data of one trigger invocation: created when the processing of an
/// event starts, handed to every callback, and discarded at the end.
pub struct EventData {
    pub(crate) machine: String,
    pub(crate) send_event: bool,
    pub(crate) state: String,
    pub(crate) event: String,
    pub(crate) model: Model,
    pub(crate) transition: Option<(String, Option<String>)>,
    pub(crate) error: Option<Error>,
    pub(crate) result: bool,
    pub(crate) raised: Vec<String>,
    pub(crate) trace: Ghost<Seq<Step>>,
    pub(crate) attempts: Ghost<Seq<Seq<Step>>>,
    pub(crate) finalized: Ghost<Seq<Step>>,
}

impl EventData {
    /// What callbacks can observe.
    pub open(crate) spec fn snapshot(&self) -> Snapshot {
        Snapshot {
            machine: self.machine@,
            send_event: self.send_event,
            state: self.state@,
            event: self.event@,
            model: self.model@,
            transition: match self.transition {
                Some((source, dest)) => Some(
                    (
                        source@,
                        match dest {
                            Some(d) => Some(d@),
                            None => None,
                        },
                    ),
                ),
                None => None,
            },
            error: match self.error {
                Some(e) => Some(e@),
                None => None,
            },
            result: self.result,
        }
    }

    /// What the data shows: what callbacks can observe, the triggers that
    /// wait to be queued, and the record of the steps made.
    pub open spec fn sight(&self) -> Sight {
        Sight { snapshot: self.snapshot(), raised: self.raised(), trace: self.trace() }
    }

    /// Every step the engine has made for this invocation, oldest first.
    pub open(crate) spec fn trace(&self) -> Seq<Step> {
        self.trace@
    }

    /// The runs of the transitions that the last processing of an event
    /// attempted, in the order of the attempts.
    pub open(crate) spec fn attempts(&self) -> Seq<Seq<Step>> {
        self.attempts@
    }

    /// The run of the finalizing callbacks of the last processing of an
    /// event.
    pub open(crate) spec fn finalized(&self) -> Seq<Step> {
        self.finalized@
    }

    /// The triggers raised by callbacks so far that wait to be queued.
    pub open(crate) spec fn raised(&self) -> Seq<Seq<char>> {
        texts(self.raised@)
    }

    /// Whether the data is well formed.
    pub open(crate) spec fn wf(&self) -> bool {
        self.model.wf()
    }

    /// The steps made since `before`.
    pub open spec fn since(&self, before: &EventData) -> Seq<Step> {
        self.trace().skip(before.trace().len() as int)
    }

    /// Whether the trace only grew since `before`.
    pub open spec fn extends(&self, before: &EventData) -> bool {
        self.trace() == before.trace() + self.since(before)
    }

    /// The data for processing `event` in `machine` on `model`, which is in
    /// `state`.
    pub fn new(state: String, event: String, machine: &Machine, model: Model) -> (r: Self)
        requires
            model.wf(),
        ensures
            r.wf(),
            r.snapshot() == fresh(machine@.name, machine@.send_event, state@, event@, model@),
            r.trace() == Seq::<Step>::empty(),
            r.attempts() == Seq::<Seq<Step>>::empty(),
            r.finalized() == Seq::<Step>::empty(),
            r.raised() == Seq::<Seq<char>>::empty(),
    {
        let r = EventData {
            machine: machine.name.clone(),
            send_event: machine.send_event,
            state,
            event,
            model,
            transition: None,
            error: None,
            result: false,
            raised: Vec::new(),
            trace: Ghost(Seq::empty()),
            attempts: Ghost(Seq::empty()),
            finalized: Ghost(Seq::empty()),
        };
        assert(r.raised() =~= Seq::<Seq<char>>::empty());
        r
    }

    /// Records `state` as the state the model is in.
    pub fn update(&mut self, state: String)
        ensures
            final(self).snapshot() == (Snapshot { state: state@, ..old(self).snapshot() }),
            final(self).trace() == old(self).trace(),
            final(self).attempts() == old(self).attempts(),
            final(self).finalized() == old(self).finalized(),
            final(self).raised() == old(self).raised(),
            final(self).wf() == old(self).wf(),
    {
        self.state = state;
    }

    /// The log prefix of the machine that processes the event.
    pub fn machine(&self) -> (r: &String)
        ensures
            r@ == self.snapshot().machine,
    {
        &self.machine
    }

    /// Whether the machine hands callbacks the event data rather than the
    /// bare arguments of the trigger.
    pub fn send_event(&self) -> (r: bool)
        ensures
            r == self.snapshot().send_event,
    {
        self.send_event
    }

    /// The name of the state the model is in.
    pub fn state(&self) -> (r: &String)
        ensures
            r@ == self.snapshot().state,
    {
        &self.state
    }

    /// The name of the event being processed.
    pub fn event(&self) -> (r: &String)
        ensures
            r@ == self.snapshot().event,
    {
        &self.event
    }

    /// The model the event is processed on.
    pub fn model(&self) -> (r: &Model)
        ensures
            r@ == self.snapshot().model,
            r.wf() == self.wf(),
    {
        &self.model
    }

    /// Whether a transition has fired.
    pub fn result(&self) -> (r: bool)
        ensures
            r == self.snapshot().result,
    {
        self.result
    }

    /// The failure that ended the processing, once there is one.
    pub fn error(&self) -> (r: &Option<Error>)
        ensures
            r is Some <==> self.snapshot().error is Some,
            r is Some ==> r->Some_0@ == self.snapshot().error->Some_0,
    {
        &self.error
    }

    /// The source of the transition being attempted.
    pub fn source(&self) -> (r: Option<&String>)
        ensures
            r is Some <==> self.snapshot().transition is Some,
            r is Some ==> r->Some_0@ == self.snapshot().transition->Some_0.0,
    {
        match &self.transition {
            Some(pair) => Some(&pair.0),
            None => None,
        }
    }

    /// The destination of the transition being attempted; `None` both between
    /// attempts and for an internal transition.
    pub fn dest(&self) -> (r: Option<&String>)
        ensures
            r is Some <==> self.snapshot().transition is Some
                && self.snapshot().transition->Some_0.1 is Some,
            r is Some ==> r->Some_0@ == self.snapshot().transition->Some_0.1->Some_0,
    {
        match &self.transition {
            Some(pair) => match &pair.1 {
                Some(d) => Some(d),
                None => None,
            },
            None => None,
        }
    }
}

/// The transitions of an event that leave one source state, as mathematical
/// data.
pub struct GroupView {
    pub source: Seq<char>,
    /// The transitions in the order in which they were registered, which is
    /// the order in which they are attempted.
    pub transitions: Seq<TransitionView>,
}

/// An event, as mathematical data.
pub struct EventView {
    pub name: Seq<char>,
    /// One group for each source state that the event has a transition
    /// from, in the order in which the sources first appeared.
    pub groups: Seq<GroupView>,
}

/// The transitions of an event that leave one source state.
#[derive(Debug)]
pub struct SourceGroup {
    pub(crate) source: String,
    pub(crate) transitions: Vec<Transition>,
}

/// A named trigger with the transitions that may fire on it, by source
/// state.
#[derive(Debug)]
pub struct Event {
    pub(crate) name: String,
    pub(crate) transitions: Vec<SourceGroup>,
}

/// A trigger that waits for its turn: the event to process and the model to
/// process it on.
#[derive(Debug)]
pub struct Pending {
    pub(crate) model: usize,
    pub(crate) event: String,
}

impl View for Pending {
    type V = (int, Seq<char>);

    /// The index of the model and the name of the event.
    open(crate) spec fn view(&self) -> (int, Seq<char>) {
        (self.model as int, self.event@)
    }
}

impl Clone for Pending {
    fn clone(&self) -> (r: Self)
        ensures
            r@ == self@,
    {
        Pending { model: self.model, event: self.event.clone() }
    }
}

impl Pending {
    /// The trigger of the event called `event` on the model with the index
    /// `model`.
    pub fn new(model: usize, event: String) -> (r: Self)
        ensures
            r@ == (model as int, event@),
    {
        Pending { model, event }
    }

    /// The index of the model.
    pub fn model(&self) -> (r: usize)
        ensures
            r as int == self@.0,
    {
        self.model
    }

    /// The name of the event.
    pub fn event(&self) -> (r: &String)
        ensures
            r@ == self@.1,
    {
        &self.event
    }
}

/// The transitions of a sequence, as mathematical data.
pub open(crate) spec fn transition_views(transitions: Seq<Transition>) -> Seq<TransitionView> {
    Seq::new(transitions.len(), |i: int| transitions[i]@)
}

impl View for SourceGroup {
    type V = GroupView;

    open(crate) spec fn view(&self) -> GroupView {
        GroupView { source: self.source@, transitions: transition_views(self.transitions@) }
    }
}

/// The groups of a sequence, as mathematical data.
pub open(crate) spec fn group_views(groups: Seq<SourceGroup>) -> Seq<GroupView> {
    Seq::new(groups.len(), |i: int| groups[i]@)
}

/// The sources of a sequence of groups.
pub open spec fn group_sources(groups: Seq<GroupView>) -> Seq<Seq<char>> {
    Seq::new(groups.len(), |i: int| groups[i].source)
}

impl View for Event {
    type V = EventView;

    open(crate) spec fn view(&self) -> EventView {
        EventView { name: self.name@, groups: group_views(self.transitions@) }
    }
}

impl EventView {
    /// Whether the event is well formed: no two groups have the same source,
    /// no group is empty, and every transition sits in the group of its
    /// source.
    pub open spec fn wf(self) -> bool {
        &&& distinct(group_sources(self.groups))
        &&& forall|g: int|
            0 <= g < self.groups.len() ==> (#[trigger] self.groups[g]).transitions.len() > 0
        &&& forall|g: int, t: int|
            0 <= g < self.groups.len() && 0 <= t < self.groups[g].transitions.len()
                ==> (#[trigger] self.groups[g].transitions[t]).source == self.groups[g].source
    }

    /// Whether every state that a transition of the event names is among
    /// `states`.
    pub open spec fn within(self, states: Seq<Seq<char>>) -> bool {
        forall|g: int, t: int|
            0 <= g < self.groups.len() && 0 <= t < self.groups[g].transitions.len() ==> (
            #[trigger] self.groups[g].transitions[t]).within(states)
    }

    /// The transitions that may fire from `state`, in the order in which
    /// they are attempted; none when the event has no transition from
    /// `state`.
    pub open spec fn candidates(self, state: Seq<char>) -> Seq<TransitionView> {
        match position(group_sources(self.groups), state) {
            Some(g) => self.groups[g].transitions,
            None => Seq::empty(),
        }
    }

    /// The event with `transition` registered behind the transitions that
    /// leave the same source: in the group of its source, or in a new last
    /// group when it is the first from that source.
    pub open spec fn with_transition(self, transition: TransitionView) -> EventView {
        match position(group_sources(self.groups), transition.source) {
            Some(g) => EventView {
                groups: self.groups.update(
                    g,
                    GroupView {
                        source: self.groups[g].source,
                        transitions: self.groups[g].transitions.push(transition),
                    },
                ),
                ..self
            },
            None => EventView {
                groups: self.groups.push(
                    GroupView { source: transition.source, transitions: seq![transition] },
                ),
                ..self
            },
        }
    }

    /// Every transition of the event, group by group.
    pub open spec fn all_transitions(self) -> Seq<TransitionView> {
        flat(self.groups)
    }
}

/// The transitions of `groups`, one group after the other.
pub open spec fn flat(groups: Seq<GroupView>) -> Seq<TransitionView>
    decreases groups.len(),
{
    if groups.len() == 0 {
        Seq::empty()
    } else {
        flat(groups.drop_last()) + groups.last().transitions
    }
}

impl Event {
    /// Whether the event is well formed.
    pub open(crate) spec fn wf(&self) -> bool {
        self@.wf()
    }

    /// Whether every state that a transition of the event names is
    /// registered with `machine`.
    pub open(crate) spec fn registered_in(&self, machine: &Machine) -> bool {
        self@.within(state_names(machine.states@))
    }

    /// The transitions that may fire from `state`.
    pub open(crate) spec fn candidates(&self, state: Seq<char>) -> Seq<Transition> {
        match position(group_sources(self@.groups), state) {
            Some(g) => self.transitions@[g].transitions@,
            None => Seq::empty(),
        }
    }

    /// An event called `name` without transitions.
    pub fn new(name: String) -> (r: Self)
        ensures
            r.wf(),
            r@ == (EventView { name: name@, groups: Seq::<GroupView>::empty() }),
    {
        let r = Event { name, transitions: Vec::new() };
        assert(r@.groups =~= Seq::<GroupView>::empty());
        r
    }

    /// The event's name.
    pub fn name(&self) -> (r: &String)
        ensures
            r@ == self@.name,
    {
        &self.name
    }

    pub(crate) fn find_group(&self, source: &String) -> (r: Option<usize>)
        requires
            self.wf(),
        ensures
            match r {
                Some(g) => g < self.transitions@.len() && position(group_sources(self@.groups), source@)
                    == Some(g as int),
                None => position(group_sources(self@.groups), source@) is None,
            },
    {
        let mut i: usize = 0;
        while i < self.transitions.len()
            invariant
                self.wf(),
                i <= self.transitions.len(),
                forall|k: int| 0 <= k < i ==> group_sources(self@.groups)[k] != source@,
            decreases self.transitions.len() - i,
        {
            if self.transitions[i].source == *source {
                proof {
                    assert(group_sources(self@.groups)[i as int] == source@);
                    lemma_position_unique(group_sources(self@.groups), i as int);
                }
                return Some(i);
            }
            i = i + 1;
        }
        proof {
            lemma_position_none(group_sources(self@.groups), source@);
        }
        None
    }

    /// Whether the event has a transition from `state`.
    pub fn has_source(&self, state: &String) -> (r: bool)
        requires
            self.wf(),
        ensures
            r == (self@.candidates(state@).len() > 0),
    {
        match self.find_group(state) {
            Some(g) => {
                assert(self@.groups[g as int].transitions.len() > 0);
                true
            },
            None => false,
        }
    }

    /// Registers `transition` behind the transitions that leave the same
    /// source.
    pub fn add_transition(&mut self, transition: Transition)
        requires
            old(self).wf(),
        ensures
            final(self).wf(),
            final(self)@ == old(self)@.with_transition(transition@),
    {
        let ghost before = self@;
        let ghost view = transition@;
        match self.find_group(&transition.source) {
            Some(g) => {
                let ghost group_before = self.transitions@[g as int]@;
                let mut group = SourceGroup { source: String::new(), transitions: Vec::new() };
                std::mem::swap(&mut group, &mut self.transitions[g]);
                group.transitions.push(transition);
                std::mem::swap(&mut group, &mut self.transitions[g]);
                proof {
                    let after = self.transitions@[g as int]@;
                    assert(after.transitions =~= group_before.transitions.push(view));
                    assert(after.source == group_before.source);
                    assert(self@.groups =~= before.groups.update(
                        g as int,
                        GroupView {
                            source: before.groups[g as int].source,
                            transitions: before.groups[g as int].transitions.push(view),
                        },
                    ));
                    assert(group_sources(self@.groups) =~= group_sources(before.groups));
                    assert forall|a: int, t: int|
                        0 <= a < self@.groups.len() && 0 <= t < self@.groups[a].transitions.len() implies (
                    #[trigger] self@.groups[a].transitions[t]).source == self@.groups[a].source by {
                        if a == g as int {
                            if t < before.groups[a].transitions.len() {
                                assert(self@.groups[a].transitions[t] == before.groups[a].transitions[t]);
                            }
                        } else {
                            assert(self@.groups[a] == before.groups[a]);
                        }
                    }
                    assert forall|a: int| 0 <= a < self@.groups.len() implies (
                    #[trigger] self@.groups[a]).transitions.len() > 0 by {
                        if a != g as int {
                            assert(self@.groups[a] == before.groups[a]);
                        }
                    }
                }
            },
            None => {
                let source = transition.source.clone();
                let mut transitions: Vec<Transition> = Vec::new();
                transitions.push(transition);
                let group = SourceGroup { source, transitions };
                proof {
                    assert(group@.transitions =~= seq![view]);
                }
                self.transitions.push(group);
                proof {
                    let n = before.groups.len() as int;
                    assert(self@.groups =~= before.groups.push(
                        GroupView { source: view.source, transitions: seq![view] },
                    ));
                    let sources = group_sources(self@.groups);
                    assert(sources =~= group_sources(before.groups).push(view.source));
                    assert forall|a: int, b: int|
                        0 <= a < sources.len() && 0 <= b < sources.len() && sources[a]
                            == sources[b] implies a == b by {
                        if a < n && b == n {
                            assert(group_sources(before.groups)[a] == view.source);
                        }
                        if b < n && a == n {
                            assert(group_sources(before.groups)[b] == view.source);
                        }
                    }
                    assert forall|a: int, t: int|
                        0 <= a < self@.groups.len() && 0 <= t < self@.groups[a].transitions.len() implies (
                    #[trigger] self@.groups[a].transitions[t]).source == self@.groups[a].source by {
                        if a < n {
                            assert(self@.groups[a] == before.groups[a]);
                        }
                    }
                    assert forall|a: int| 0 <= a < self@.groups.len() implies (
                    #[trigger] self@.groups[a]).transitions.len() > 0 by {
                        if a < n {
                            assert(self@.groups[a] == before.groups[a]);
                        }
                    }
                }
            },
        }
    }

    /// The trigger of this event on the model with the index `model`, ready
    /// to be handed to the machine's queue.
    pub fn trigger(&self, model: usize) -> (r: Pending)
        ensures
            r@ == (model as int, self@.name),
    {
        Pending::new(model, self.name.clone())
    }
}

/// What callbacks can observe after a selection among `candidates` that made
/// the attempts `runs`, starting from `before`: the transition is the last
/// that was attempted; the model is in that transition's destination if it
/// fired and has one, and as it was otherwise; a failure is recorded as the
/// error, a firing as the result.
pub open spec fn after_selection(
    before: Snapshot,
    candidates: Seq<TransitionView>,
    runs: Seq<Seq<Step>>,
    attribute: Seq<char>,
    queued: bool,
) -> Snapshot {
    if runs.len() == 0 {
        before
    } else {
        let tried = candidates[runs.len() - 1];
        let outcome = run_outcome(runs.last(), queued);
        let moved = outcome == Ok::<bool, ErrorView>(true) && tried.dest is Some;
        Snapshot {
            machine: before.machine,
            send_event: before.send_event,
            state: if moved {
                tried.dest->Some_0
            } else {
                before.state
            },
            event: before.event,
            model: if moved {
                before.model.insert(attribute, tried.dest->Some_0)
            } else {
                before.model
            },
            transition: Some((tried.source, tried.dest)),
            error: match outcome {
                Err(error) => Some(error),
                Ok(_) => before.error,
            },
            result: outcome == Ok::<bool, ErrorView>(true) || before.result,
        }
    }
}

/// What the event data shows when the attempt behind the attempts `earlier`
/// starts: the transition is the candidate of that attempt, and everything
/// else that callbacks can observe is as it was at the start; the waiting
/// triggers and the record have grown by the earlier attempts.
pub open spec fn attempt_start(
    start: Sight,
    candidates: Seq<TransitionView>,
    earlier: Seq<Seq<Step>>,
    queued: bool,
) -> Sight {
    let tried = candidates[earlier.len() as int];
    Sight {
        snapshot: Snapshot { transition: Some((tried.source, tried.dest)), ..start.snapshot },
        raised: start.raised + run_queues(concat(earlier), queued),
        trace: start.trace + concat(earlier),
    }
}

/// What the event data shows at each step of the attempts `runs`, attempt
/// by attempt: during each attempt, what the steps before it in that attempt
/// have made of what the data showed when the attempt started.
pub open spec fn attempted(
    start: Sight,
    candidates: Seq<TransitionView>,
    runs: Seq<Seq<Step>>,
    attribute: Seq<char>,
    queued: bool,
) -> Seq<Sight>
    decreases runs.len(),
{
    if runs.len() == 0 {
        Seq::empty()
    } else {
        attempted(start, candidates, runs.drop_last(), attribute, queued) + following(
            attempt_start(start, candidates, runs.drop_last(), queued),
            runs.last(),
            attribute,
            queued,
        )
    }
}

/// What the event data shows when the selection is over and the finalizing
/// callbacks start: what callbacks can observe is what [`after_selection`]
/// gives, the recorded failure and the result included.
pub open spec fn selection_end(
    start: Sight,
    candidates: Seq<TransitionView>,
    runs: Seq<Seq<Step>>,
    attribute: Seq<char>,
    queued: bool,
) -> Sight {
    Sight {
        snapshot: after_selection(start.snapshot, candidates, runs, attribute, queued),
        raised: start.raised + run_queues(concat(runs), queued),
        trace: start.trace + concat(runs),
    }
}

/// What the event data shows at each step of the processing of an event:
/// at the steps of the attempts what [`attempted`] gives, and at the steps
/// of the finalizing callbacks what those before them have made of
/// [`selection_end`].
pub open spec fn processed(
    start: Sight,
    candidates: Seq<TransitionView>,
    runs: Seq<Seq<Step>>,
    finalized: Seq<Step>,
    attribute: Seq<char>,
    queued: bool,
) -> Seq<Sight> {
    attempted(start, candidates, runs, attribute, queued) + following(
        selection_end(start, candidates, runs, attribute, queued),
        finalized,
        attribute,
        queued,
    )
}

/// The data shows something at every step of the attempts.
pub proof fn lemma_attempted_len(
    start: Sight,
    candidates: Seq<TransitionView>,
    runs: Seq<Seq<Step>>,
    attribute: Seq<char>,
    queued: bool,
)
    ensures
        attempted(start, candidates, runs, attribute, queued).len() == concat(runs).len(),
    decreases runs.len(),
{
    if runs.len() > 0 {
        lemma_attempted_len(start, candidates, runs.drop_last(), attribute, queued);
    }
}

/// During an attempt the host is shown that attempt: at step `j` of attempt
/// `k` (which is step `concat(runs.take(k)).len() + j` of the whole), the
/// data shows what the steps before `j` in that attempt have made of the
/// start of the attempt, where the transition is candidate `k`.
pub proof fn law_shown_during_attempt(
    start: Sight,
    candidates: Seq<TransitionView>,
    runs: Seq<Seq<Step>>,
    finalized: Seq<Step>,
    attribute: Seq<char>,
    queued: bool,
    k: int,
    j: int,
)
    requires
        0 <= k < runs.len(),
        0 <= j < runs[k].len(),
    ensures
        concat(runs.take(k)).len() + j < concat(runs).len(),
        processed(start, candidates, runs, finalized, attribute, queued)[concat(runs.take(k)).len() + j] == after(
            attempt_start(start, candidates, runs.take(k), queued),
            runs[k].take(j),
            attribute,
            queued,
        ),
        attempt_start(start, candidates, runs.take(k), queued).snapshot.transition == Some(
            (candidates[k].source, candidates[k].dest),
        ),
    decreases runs.len(),
{
    let earlier = runs.drop_last();
    lemma_attempted_len(start, candidates, runs, attribute, queued);
    lemma_attempted_len(start, candidates, earlier, attribute, queued);
    if k == runs.len() - 1 {
        assert(runs.take(k) =~= earlier);
    } else {
        law_shown_during_attempt(start, candidates, earlier, finalized, attribute, queued, k, j);
        lemma_attempted_len(start, candidates, earlier, attribute, queued);
        assert(earlier.take(k) =~= runs.take(k));
        assert(earlier[k] == runs[k]);
    }
}

/// During the finalizing callbacks the host is shown the outcome of the
/// selection: at step `j` of them (which is step `concat(runs).len() + j` of
/// the whole), the data shows what the finalizing callbacks before `j` have
/// made of what [`after_selection`] gives.
pub proof fn law_shown_while_finalizing(
    start: Sight,
    candidates: Seq<TransitionView>,
    runs: Seq<Seq<Step>>,
    finalized: Seq<Step>,
    attribute: Seq<char>,
    queued: bool,
    j: int,
)
    requires
        0 <= j < finalized.len(),
    ensures
        processed(start, candidates, runs, finalized, attribute, queued)[concat(runs).len() + j] == after(
            selection_end(start, candidates, runs, attribute, queued),
            finalized.take(j),
            attribute,
            queued,
        ),
        selection_end(start, candidates, runs, attribute, queued).snapshot == after_selection(
            start.snapshot,
            candidates,
            runs,
            attribute,
            queued,
        ),
{
    lemma_attempted_len(start, candidates, runs, attribute, queued);
}

/// What the event data shows when the processing of `event` starts on a
/// model that is in `state`: nothing waits and nothing is on record.
pub open spec fn fresh_sight(
    machine: Seq<char>,
    send_event: bool,
    state: Seq<char>,
    event: Seq<char>,
    model: Map<Seq<char>, Seq<char>>,
) -> Sight {
    Sight {
        snapshot: fresh(machine, send_event, state, event, model),
        raised: Seq::empty(),
        trace: Seq::empty(),
    }
}

impl Event {
    /// Attempts the candidates from the state that `event_data` names, in
    /// the order of their registration, until one fires or fails. Hands
    /// back what the selection amounts to, and the runs of the attempts.
    fn select<H: Host>(&self, machine: &Machine, host: &mut H, event_data: &mut EventData) -> (r: (
        Result<bool, Error>,
        Ghost<Seq<Seq<Step>>>,
    ))
        requires
            machine.states_wf(),
            self.wf(),
            self.registered_in(machine),
            old(event_data).wf(),
        ensures
            is_selection(machine@.plans(self@.candidates(old(event_data).snapshot().state)), r.1@, machine.is_queued()),
            outcome_view(r.0) == selection_outcome(r.1@, machine.is_queued()),
            final(event_data).snapshot() == after_selection(
                old(event_data).snapshot(),
                self@.candidates(old(event_data).snapshot().state),
                r.1@,
                machine.attribute(),
                machine.is_queued(),
            ),
            final(event_data).trace() == old(event_data).trace() + concat(r.1@),
            final(event_data).raised() == old(event_data).raised() + run_queues(concat(r.1@), machine.is_queued()),
            final(event_data).wf(),
            exists|hosts: Seq<H>, datas: Seq<EventData>|
                #[trigger] asked(hosts, datas, *old(host), attempted(old(event_data).sight(), self@.candidates(old(event_data).snapshot().state), r.1@, machine.attribute(), machine.is_queued()), concat(r.1@)) && hosts.last() == *final(host) && forall|i: int|
                    0 <= i < concat(r.1@).len() && reaches_host(#[trigger] concat(r.1@)[i]) ==> exists|via: &mut H|
                        mut_ref_future(via) == hosts[i + 1] && #[trigger] answered(via, hosts[i], datas[i], concat(r.1@)[i]),
    {
        let queued = Ghost(machine.is_queued());
        let ghost start = *event_data;
        let ghost candidates = self.candidates(start.snapshot().state);
        let ghost views = transition_views(candidates);
        proof {
            assert(views =~= self@.candidates(start.snapshot().state));
        }
        let ghost all = machine@.plans(views);
        let ghost mut runs: Seq<Seq<Step>> = Seq::empty();
        let mut selected: Result<bool, Error> = Ok(false);
        proof {
            assert(start.trace() + concat(runs) =~= start.trace());
            assert(start.raised() + run_queues(concat(runs), queued@) =~= start.raised());
            lemma_linked_nothing(
                *host,
                attempted(start.sight(), views, runs, machine.attribute(), queued@),
                concat(runs),
            );
        }
        match self.find_group(&event_data.state) {
            Some(g) => {
                let group = &self.transitions[g];
                let mut i: usize = 0;
                let mut open = true;
                while open && i < group.transitions.len()
                    invariant
                        machine.states_wf(),
                        self.wf(),
                        self.registered_in(machine),
                        g < self.transitions@.len(),
                        *group == self.transitions@[g as int],
                        candidates == group.transitions@,
                        views == transition_views(candidates),
                        all == machine@.plans(views),
                        queued@ == machine.is_queued(),
                        i <= group.transitions@.len(),
                        runs.len() == i,
                        forall|k: int| 0 <= k < runs.len() ==> is_run(all[k], #[trigger] runs[k], queued@),
                        forall|k: int|
                            0 <= k < runs.len() - 1 ==> run_outcome(#[trigger] runs[k], queued@) == Ok::<
                                bool,
                                ErrorView,
                            >(false),
                        open ==> (i > 0 ==> run_outcome(runs.last(), queued@) == Ok::<bool, ErrorView>(
                            false,
                        )),
                        !open ==> i > 0 && run_outcome(runs.last(), queued@) != Ok::<bool, ErrorView>(
                            false,
                        ),
                        outcome_view(selected) == selection_outcome(runs, queued@),
                        event_data.snapshot() == after_selection(
                            start.snapshot(),
                            views,
                            runs,
                            machine.attribute(),
                            queued@,
                        ),
                        event_data.trace() == start.trace() + concat(runs),
                        event_data.raised() == start.raised() + run_queues(concat(runs), queued@),
                        event_data.wf(),
                        exists|hosts: Seq<H>, datas: Seq<EventData>|
                            #[trigger] asked(hosts, datas, *old(host), attempted(start.sight(), views, runs, machine.attribute(), queued@), concat(runs)) && hosts.last() == *host && forall|i: int|
                                0 <= i < concat(runs).len() && reaches_host(#[trigger] concat(runs)[i]) ==> exists|via: &mut H|
                                    mut_ref_future(via) == hosts[i + 1] && #[trigger] answered(via, hosts[i], datas[i], concat(runs)[i]),
                    decreases group.transitions@.len() - i, open as int,
                {
                    let candidate = &group.transitions[i];
                    event_data.transition = Some((candidate.source.clone(), copy_text(&candidate.dest)));
                    let ghost before = *event_data;
                    let ghost host_before = *host;
                    proof {
                        assert(views[i as int] == candidate@);
                        assert(before.sight() == attempt_start(start.sight(), views, runs, queued@));
                        assert(self@.groups[g as int].transitions[i as int] == candidate@);
                        assert(candidate.registered_in(machine));
                    }
                    let fired = candidate.execute(machine, host, event_data);
                    proof {
                        let run = event_data.since(&before);
                        let longer = runs.push(run);
                        lemma_concat_push(runs, run);
                        lemma_run_queues_concat(concat(runs), run, queued@);
                        assert(longer.drop_last() =~= runs);
                        lemma_linked_then(
                            *old(host),
                            host_before,
                            *host,
                            attempted(start.sight(), views, runs, machine.attribute(), queued@),
                            following(before.sight(), run, machine.attribute(), queued@),
                            attempted(start.sight(), views, longer, machine.attribute(), queued@),
                            concat(runs),
                            run,
                            concat(longer),
                        );
                        assert(event_data.trace() =~= start.trace() + concat(longer));
                        assert(event_data.raised() =~= start.raised() + run_queues(
                            concat(longer),
                            queued@,
                        ));
                        assert(longer.last() == run);
                        assert forall|k: int| 0 <= k < longer.len() implies is_run(
                            all[k],
                            #[trigger] longer[k],
                            queued@,
                        ) by {
                            if k < runs.len() {
                                assert(longer[k] == runs[k]);
                            }
                        }
                        assert forall|k: int| 0 <= k < longer.len() - 1 implies run_outcome(
                            #[trigger] longer[k],
                            queued@,
                        ) == Ok::<bool, ErrorView>(false) by {
                            assert(longer[k] == runs[k]);
                            if k == runs.len() - 1 {
                                assert(runs[k] == runs.last());
                            }
                        }
                        assert(views[i as int] == candidate@);
                        runs = longer;
                    }
                    match fired {
                        Ok(done) => {
                            if done {
                                event_data.result = true;
                                selected = Ok(true);
                                open = false;
                            }
                        },
                        Err(e) => {
                            event_data.error = Some(e.clone());
                            selected = Err(e);
                            open = false;
                        },
                    }
                    i = i + 1;
                }
            },
            None => {
                proof {
                    assert(candidates =~= Seq::<Transition>::empty());
                }
            },
        }
        (selected, Ghost(runs))
    }

    /// Processes the event on the model of `event_data`.
    ///
    /// The candidates are the transitions registered from the state that
    /// `event_data` names, in the order of their registration. They are
    /// executed one after the other until one fires or fails: at most one
    /// transition fires, and no candidate behind it is touched. The
    /// machine's finalizing callbacks then run once, whatever happened
    /// before. The result is the failure of the selection if it failed, else
    /// the failure of a finalizing callback, else whether a transition fired.
    ///
    /// Every step was put to the host, one after the other, and each reply is
    /// what the host handed back. During an attempt the event data that the
    /// host was handed named the candidate of that attempt as its
    /// transition, and showed the model in the old state up to the state
    /// change and in the destination behind it; during the finalizing
    /// callbacks it showed the outcome of the selection, the recorded
    /// failure and the result included.
    pub fn _process<H: Host>(&self, machine: &Machine, host: &mut H, event_data: &mut EventData) -> (r: Result<
        bool,
        Error,
    >)
        requires
            machine.states_wf(),
            self.wf(),
            self.registered_in(machine),
            old(event_data).wf(),
        ensures
            is_selection(
                machine@.plans(self@.candidates(old(event_data).snapshot().state)),
                final(event_data).attempts(),
                machine.is_queued(),
            ),
            is_run(calls(machine.finalizers()), final(event_data).finalized(), machine.is_queued()),
            final(event_data).extends(old(event_data)),
            final(event_data).since(old(event_data)) == concat(final(event_data).attempts())
                + final(event_data).finalized(),
            outcome_view(r) == event_outcome(
                selection_outcome(final(event_data).attempts(), machine.is_queued()),
                run_outcome(final(event_data).finalized(), machine.is_queued()),
            ),
            final(event_data).raised() == old(event_data).raised() + run_queues(
                final(event_data).since(old(event_data)),
                machine.is_queued(),
            ),
            final(event_data).snapshot() == after_selection(
                old(event_data).snapshot(),
                self@.candidates(old(event_data).snapshot().state),
                final(event_data).attempts(),
                machine.attribute(),
                machine.is_queued(),
            ),
            exists|hosts: Seq<H>, datas: Seq<EventData>|
                #[trigger] asked(hosts, datas, *old(host), processed(
                    old(event_data).sight(),
                    self@.candidates(old(event_data).snapshot().state),
                    final(event_data).attempts(),
                    final(event_data).finalized(),
                    machine.attribute(),
                    machine.is_queued(),
                ), final(event_data).since(old(event_data))) && hosts.last() == *final(host) && forall|i: int|
                    0 <= i < final(event_data).since(old(event_data)).len() && reaches_host(#[trigger] final(event_data).since(old(event_data))[i]) ==> exists|via: &mut H|
                        mut_ref_future(via) == hosts[i + 1] && #[trigger] answered(via, hosts[i], datas[i], final(event_data).since(old(event_data))[i]),
            final(event_data).wf(),
    {
        let queued = Ghost(machine.is_queued());
        let ghost start = *event_data;
        let ghost views = self@.candidates(start.snapshot().state);
        let picked = self.select(machine, host, event_data);
        let selected = picked.0;
        let ghost runs = picked.1@;
        let ghost selection = *event_data;
        let ghost host_selected = *host;

        // The finalizing callbacks run whatever happened before.
        let none: Vec<TriggerFunction> = Vec::new();
        let finalizers = chain(&machine.finalize_event, &none);
        proof {
            assert(trigger_names(machine.finalize_event@) + trigger_names(none@) =~= machine.finalizers());
        }
        let finalized = machine.callbacks(finalizers.as_slice(), host, event_data);
        proof {
            let last = event_data.since(&selection);
            event_data.attempts@ = runs;
            event_data.finalized@ = last;
            lemma_run_queues_concat(concat(runs), last, queued@);
            assert(event_data.since(&start) =~= concat(runs) + last);
            assert(event_data.trace() =~= start.trace() + (concat(runs) + last));
            assert(event_data.raised() =~= start.raised() + run_queues(concat(runs) + last, queued@));
            assert(selection.sight() == selection_end(
                start.sight(),
                views,
                runs,
                machine.attribute(),
                queued@,
            ));
            lemma_linked_then(
                *old(host),
                host_selected,
                *host,
                attempted(start.sight(), views, runs, machine.attribute(), queued@),
                following(selection.sight(), last, machine.attribute(), queued@),
                processed(start.sight(), views, runs, last, machine.attribute(), queued@),
                concat(runs),
                last,
                event_data.since(&start),
            );
        }
        match selected {
            Err(e) => Err(e),
            Ok(fired) => match finalized {
                Err(e) => Err(e),
                Ok(_) => Ok(fired),
            },
        }
    }
}

impl EventView {
    /// The event with the callback `func` added to every transition, at the
    /// end of those that run at the moment `trigger`.
    pub open spec fn with_callback(self, trigger: TransitionTriggerType, func: Seq<char>) -> EventView {
        EventView {
            name: self.name,
            groups: Seq::new(
                self.groups.len(),
                |g: int|
                    GroupView {
                        source: self.groups[g].source,
                        transitions: Seq::new(
                            self.groups[g].transitions.len(),
                            |t: int| self.groups[g].transitions[t].with_callback(trigger, func),
                        ),
                    },
            ),
        }
    }
}

impl Event {
    /// Adds the callback `func` to every transition of the event, at the end
    /// of those that run at the moment `trigger`.
    pub fn add_callback(&mut self, trigger: TransitionTriggerType, func: TriggerFunction)
        requires
            old(self).wf(),
        ensures
            final(self).wf(),
            final(self)@ == old(self)@.with_callback(trigger, func@),
            forall|machine: &Machine| old(self).registered_in(machine) ==> final(self).registered_in(machine),
    {
        let ghost before = self@;
        let ghost target = before.with_callback(trigger, func@);
        let mut g: usize = 0;
        while g < self.transitions.len()
            invariant
                g <= self.transitions@.len(),
                self.transitions@.len() == old(self).transitions@.len(),
                self@.name == before.name,
                before == old(self)@,
                target == before.with_callback(trigger, func@),
                forall|a: int| 0 <= a < g ==> (#[trigger] group_views(self.transitions@)[a]) == target.groups[a],
                forall|a: int|
                    g <= a < self.transitions@.len() ==> (#[trigger] group_views(self.transitions@)[a])
                        == before.groups[a],
                forall|a: int, t: int|
                    0 <= a < self.transitions@.len() && 0 <= t < self.transitions@[a].transitions@.len()
                        ==> (#[trigger] self.transitions@[a].transitions@[t])@.source == old(self).transitions@[a].transitions@[t]@.source && self.transitions@[a].transitions@[t]@.dest
                        == old(self).transitions@[a].transitions@[t]@.dest,
                forall|a: int|
                    0 <= a < self.transitions@.len() ==> (#[trigger] self.transitions@[a]).transitions@.len()
                        == old(self).transitions@[a].transitions@.len(),
            decreases self.transitions@.len() - g,
        {
            let ghost groups_before = self.transitions@;
            proof {
                assert(self@.groups[g as int] == before.groups[g as int]);
            }
            let mut group = SourceGroup { source: String::new(), transitions: Vec::new() };
            std::mem::swap(&mut group, &mut self.transitions[g]);
            let ghost group_before = group;
            proof {
                assert(group_before == groups_before[g as int]);
                assert(group_before@ == before.groups[g as int]);
            }
            let mut t: usize = 0;
            while t < group.transitions.len()
                invariant
                    t <= group.transitions@.len(),
                    group.source == group_before.source,
                    group.transitions@.len() == group_before.transitions@.len(),
                    forall|b: int|
                        0 <= b < t ==> (#[trigger] group.transitions@[b])@
                            == group_before.transitions@[b]@.with_callback(trigger, func@),
                    forall|b: int|
                        t <= b < group.transitions@.len() ==> (#[trigger] group.transitions@[b])
                            == group_before.transitions@[b],
                decreases group.transitions@.len() - t,
            {
                group.transitions[t].add_callback(trigger, func.clone());
                t = t + 1;
            }
            let ghost group_after = group;
            std::mem::swap(&mut group, &mut self.transitions[g]);
            proof {
                assert(self.transitions@[g as int] == group_after);
                assert forall|b: int| 0 <= b < group_after.transitions@.len() implies group_after@.transitions[b]
                    == target.groups[g as int].transitions[b] by {
                    assert(group_after.transitions@[b]@ == group_before.transitions@[b]@.with_callback(
                        trigger,
                        func@,
                    ));
                    assert(group_before@.transitions[b] == group_before.transitions@[b]@);
                }
                assert(self@.groups[g as int].transitions =~= target.groups[g as int].transitions);
                assert(self@.groups[g as int] == target.groups[g as int]);
                assert(self.transitions@ =~= groups_before.update(g as int, group_after));
                assert forall|a: int| g < a < self@.groups.len() implies (#[trigger] self@.groups[a])
                    == before.groups[a] by {
                    assert(self.transitions@[a] == groups_before[a]);
                    assert(group_views(groups_before)[a] == before.groups[a]);
                }
                assert forall|a: int| 0 <= a < g implies (#[trigger] self@.groups[a]) == target.groups[a] by {
                    assert(self.transitions@[a] == groups_before[a]);
                    assert(group_views(groups_before)[a] == target.groups[a]);
                }
                assert forall|a: int, t: int|
                    0 <= a < self.transitions@.len() && 0 <= t < self.transitions@[a].transitions@.len() implies (
                #[trigger] self.transitions@[a].transitions@[t])@.source == old(self).transitions@[a].transitions@[t]@.source && self.transitions@[a].transitions@[t]@.dest
                    == old(self).transitions@[a].transitions@[t]@.dest by {
                    if a == g as int {
                        assert(groups_before[a].transitions@[t]@.source == old(self).transitions@[a].transitions@[t]@.source);
                    } else {
                        assert(self.transitions@[a] == groups_before[a]);
                        assert(groups_before[a].transitions@[t]@.source == old(self).transitions@[a].transitions@[t]@.source);
                    }
                }
            }
            g = g + 1;
        }
        proof {
            assert(self@.groups =~= target.groups);
            assert(group_sources(self@.groups) =~= group_sources(before.groups));
            assert forall|machine: &Machine| old(self).registered_in(machine) implies self.registered_in(
                machine,
            ) by {
                let states = state_names(machine.states@);
                assert forall|a: int, t: int|
                    0 <= a < self@.groups.len() && 0 <= t < self@.groups[a].transitions.len() implies (
                #[trigger] self@.groups[a].transitions[t]).within(states) by {
                    assert(before.groups[a].transitions[t].within(states));
                    assert(self.transitions@[a].transitions@[t]@.source == old(self).transitions@[a].transitions@[t]@.source);
                }
            }
        }
    }

    /// Triggers the event on `model`: finds the model's current state,
    /// and processes the event if it has a transition from that state.
    ///
    /// Where the event has no transition from the model's state, nothing
    /// runs: the result is `Ok(false)` if such triggers are ignored (by the
    /// state's own policy, else the machine's), and
    /// [`Error::UnknownTriggerError`] with the event and the state
    /// otherwise. Else the result and the data handed back are those of
    /// [`Event::_process`] on fresh data. The model is handed back inside the
    /// data.
    ///
    /// Every step was put to the host, one after the other, and each reply is
    /// what the host handed back. The event data that the host was handed
    /// showed at every step what the steps before it had made of the fresh
    /// data.
    pub fn machine_trigger<H: Host>(&self, machine: &Machine, model: Model, host: &mut H) -> (r: (
        Result<bool, Error>,
        EventData,
    ))
        requires
            machine.states_wf(),
            self.wf(),
            self.registered_in(machine),
            model.wf(),
            machine.binds(model@),
        ensures
            r.1.wf(),
            exists|hosts: Seq<H>, datas: Seq<EventData>|
                #[trigger] asked(hosts, datas, *old(host), processed(
                    fresh_sight(
                        machine@.name,
                        machine@.send_event,
                        model@[machine.attribute()],
                        self@.name,
                        model@,
                    ),
                    self@.candidates(model@[machine.attribute()]),
                    r.1.attempts(),
                    r.1.finalized(),
                    machine.attribute(),
                    machine.is_queued(),
                ), r.1.trace()) && hosts.last() == *final(host) && forall|i: int|
                    0 <= i < r.1.trace().len() && reaches_host(#[trigger] r.1.trace()[i]) ==> exists|via: &mut H|
                        mut_ref_future(via) == hosts[i + 1] && #[trigger] answered(via, hosts[i], datas[i], r.1.trace()[i]),
            r.1.snapshot() == after_selection(
                fresh(
                    machine@.name,
                    machine@.send_event,
                    model@[machine.attribute()],
                    self@.name,
                    model@,
                ),
                self@.candidates(model@[machine.attribute()]),
                r.1.attempts(),
                machine.attribute(),
                machine.is_queued(),
            ),
            r.1.trace() == concat(r.1.attempts()) + r.1.finalized(),
            r.1.raised() == run_queues(r.1.trace(), machine.is_queued()),
            is_selection(
                machine@.plans(self@.candidates(model@[machine.attribute()])),
                r.1.attempts(),
                machine.is_queued(),
            ),
            self@.candidates(model@[machine.attribute()]).len() == 0 ==> r.1.finalized() == Seq::<
                Step,
            >::empty() && outcome_view(r.0) == if machine.ignores(model@[machine.attribute()]) {
                Ok::<bool, ErrorView>(false)
            } else {
                Err(ErrorView::UnknownTriggerError(self@.name, model@[machine.attribute()]))
            },
            self@.candidates(model@[machine.attribute()]).len() > 0 ==> is_run(
                calls(machine.finalizers()),
                r.1.finalized(),
                machine.is_queued(),
            ) && outcome_view(r.0) == event_outcome(
                selection_outcome(r.1.attempts(), machine.is_queued()),
                run_outcome(r.1.finalized(), machine.is_queued()),
            ),
    {
        let state = model.get(&machine.model_attribute).unwrap().clone();
        let mut event_data = EventData::new(state, self.name.clone(), machine, model);
        let ghost start = event_data;
        proof {
            assert(start.sight() == fresh_sight(
                machine@.name,
                machine@.send_event,
                model@[machine.attribute()],
                self@.name,
                model@,
            ));
        }
        proof {
            assert(transition_views(self.candidates(event_data.snapshot().state)) =~= self@.candidates(
                event_data.snapshot().state,
            ));
        }
        if !self.has_source(&event_data.state) {
            let at = machine.find_state(&event_data.state).unwrap();
            let ignore = match machine.states[at].ignore_invalid_triggers {
                Some(own) => own,
                None => machine.ignore_invalid_triggers,
            };
            proof {
                assert(event_data.trace() =~= concat(event_data.attempts()) + event_data.finalized());
                assert(event_data.raised() =~= run_queues(event_data.trace(), machine.is_queued()));
                assert(self.candidates(event_data.snapshot().state).len() == 0);
                assert(self@.candidates(event_data.snapshot().state) =~= Seq::<TransitionView>::empty());
                lemma_linked_nothing(
                    *host,
                    processed(
                        start.sight(),
                        self@.candidates(start.snapshot().state),
                        event_data.attempts(),
                        event_data.finalized(),
                        machine.attribute(),
                        machine.is_queued(),
                    ),
                    event_data.trace(),
                );
            }
            if ignore {
                return (Ok(false), event_data);
            }
            let failure = Error::UnknownTriggerError(self.name.clone(), event_data.state.clone());
            return (Err(failure), event_data);
        }
        let fired = self._process(machine, host, &mut event_data);
        proof {
            assert(event_data.since(&start) =~= event_data.trace());
            assert(start.raised() + run_queues(event_data.trace(), machine.is_queued()) =~= run_queues(
                event_data.trace(),
                machine.is_queued(),
            ));
        }
        (fired, event_data)
    }
}

/// What callbacks can observe when the processing of `event` starts on a
/// model that is in `state`, in the machine with the log prefix `machine`.
pub open spec fn fresh(
    machine: Seq<char>,
    send_event: bool,
    state: Seq<char>,
    event: Seq<char>,
    model: Map<Seq<char>, Seq<char>>,
) -> Snapshot {
    Snapshot { machine, send_event, state, event, model, transition: None, error: None, result: false }
}

impl EventData {
    /// Ends the invocation and hands back the model and the triggers that
    /// its callbacks raised.
    pub fn finish(self) -> (r: (Model, Vec<String>))
        ensures
            r.0@ == self.snapshot().model,
            r.0.wf() == self.wf(),
            texts(r.1@) == self.raised(),
    {
        (self.model, self.raised)
    }
}

} // verus!
