//! The machine: the registry of states and events, and the dispatch of
//! triggers.

use std::collections::VecDeque;
use vstd::prelude::*;
use vstd::string::StringExecFns;
use crate::elements::{
    Hooks,
    State,
    StateView,
    TransitionView,
    TriggerFunction,
    borrowed_names,
    optional_text,
    pipeline,
    trigger_names,
};
use crate::error::{Error, ErrorView, outcome_view};
use crate::event::{Event, EventData, EventView, Pending};
use crate::host::{
    Host,
    answered,
    asked,
    reaches_host,
    reply_of_callback,
    resolves_to,
    lemma_linked_nothing,
    lemma_linked_push,
};
use crate::model::Model;
use crate::sight::{following, stays, lemma_stays_the_same};
use crate::support::{distinct, position, texts, lemma_position_unique, lemma_position_none};
use crate::trace::{
    Action,
    Reply,
    Step,
    Verdict,
    calls,
    is_run,
    reentrancy_text,
    run_outcome,
    run_queues,
    lemma_run_of_nothing,
    lemma_run_step,
    lemma_run_whole,
};

verus! {

/// The names of a sequence of states.
pub open(crate) spec fn state_names(states: Seq<State>) -> Seq<Seq<char>> {
    names_of(state_views(states))
}

/// The states of a sequence, as mathematical data.
pub open(crate) spec fn state_views(states: Seq<State>) -> Seq<StateView> {
    Seq::new(states.len(), |i: int| states[i]@)
}

/// The events of a sequence, as mathematical data.
pub open(crate) spec fn event_views(events: Seq<Event>) -> Seq<EventView> {
    Seq::new(events.len(), |i: int| events[i]@)
}

/// The names of a sequence of events.
pub open spec fn event_names(events: Seq<EventView>) -> Seq<Seq<char>> {
    Seq::new(events.len(), |i: int| events[i].name)
}

/// The names of a sequence of states.
pub open spec fn names_of(states: Seq<StateView>) -> Seq<Seq<char>> {
    Seq::new(states.len(), |i: int| states[i].name)
}

/// The models of a sequence, as maps from attribute names to values.
pub open(crate) spec fn model_views(models: Seq<Model>) -> Seq<Map<Seq<char>, Seq<char>>> {
    Seq::new(models.len(), |i: int| models[i]@)
}

/// The triggers of a queue, each the index of a model and the name of an
/// event.
pub open(crate) spec fn pending_views(queue: Seq<Pending>) -> Seq<(int, Seq<char>)> {
    Seq::new(queue.len(), |i: int| queue[i]@)
}

/// What the machine did with one trigger.
pub struct EventRecord {
    /// The index of the model.
    pub model: int,
    /// The name of the event.
    pub event: Seq<char>,
    /// The state the model was in when the trigger's turn came.
    pub state: Seq<char>,
    /// The attributes the model had when the trigger's turn came.
    pub before: Map<Seq<char>, Seq<char>>,
    /// The runs of the transitions that were attempted, in order.
    pub attempts: Seq<Seq<Step>>,
    /// The run of the finalizing callbacks.
    pub finalized: Seq<Step>,
    /// What the trigger amounted to.
    pub outcome: Result<bool, ErrorView>,
}

/// A machine, as mathematical data.
pub struct MachineView {
    /// The registered states, in the order of their registration.
    pub states: Seq<StateView>,
    /// The events, in the order in which they were first named.
    pub events: Seq<EventView>,
    /// The bound models, each a map from attribute names to values.
    pub models: Seq<Map<Seq<char>, Seq<char>>>,
    /// The state that a model starts in when none is given.
    pub initial: Option<Seq<char>>,
    pub prepare_event: Seq<Seq<char>>,
    pub before_state_change: Seq<Seq<char>>,
    pub after_state_change: Seq<Seq<char>>,
    pub finalize_event: Seq<Seq<char>>,
    pub queued: bool,
    pub send_event: bool,
    pub auto_transitions: bool,
    pub ignore_invalid_triggers: bool,
    pub name: Seq<char>,
    /// The name of the model attribute that holds the state.
    pub model_attribute: Seq<char>,
    /// The triggers that wait for their turn, the next one first.
    pub queue: Seq<(int, Seq<char>)>,
    /// Every trigger the machine has processed, oldest first.
    pub journal: Seq<EventRecord>,
}

/// The registry of states and events, the models bound to it, and the
/// machine-wide callbacks.
pub struct Machine {
    pub(crate) states: Vec<State>,
    pub(crate) events: Vec<Event>,
    pub(crate) models: Vec<Model>,
    pub(crate) initial: Option<String>,
    pub(crate) prepare_event: Vec<TriggerFunction>,
    /// Callbacks that run before every state change, ahead of the
    /// transition's own.
    pub before_state_change: Vec<TriggerFunction>,
    /// Callbacks that run after every state change, behind the transition's
    /// own.
    pub after_state_change: Vec<TriggerFunction>,
    pub(crate) finalize_event: Vec<TriggerFunction>,
    pub(crate) queued: bool,
    pub(crate) send_event: bool,
    pub(crate) auto_transitions: bool,
    pub(crate) ignore_invalid_triggers: bool,
    /// The prefix of the machine's log lines.
    pub name: String,
    pub(crate) model_attribute: String,
    pub(crate) queue: VecDeque<Pending>,
    pub(crate) journal: Ghost<Seq<EventRecord>>,
}

impl View for Machine {
    type V = MachineView;

    open(crate) spec fn view(&self) -> MachineView {
        MachineView {
            states: state_views(self.states@),
            events: event_views(self.events@),
            models: model_views(self.models@),
            initial: match self.initial {
                Some(s) => Some(s@),
                None => None,
            },
            prepare_event: trigger_names(self.prepare_event@),
            before_state_change: trigger_names(self.before_state_change@),
            after_state_change: trigger_names(self.after_state_change@),
            finalize_event: trigger_names(self.finalize_event@),
            queued: self.queued,
            send_event: self.send_event,
            auto_transitions: self.auto_transitions,
            ignore_invalid_triggers: self.ignore_invalid_triggers,
            name: self.name@,
            model_attribute: self.model_attribute@,
            queue: pending_views(self.queue@),
            journal: self.journal@,
        }
    }
}

impl Machine {
    /// Whether the states are well formed: no two have the same name.
    pub open(crate) spec fn states_wf(&self) -> bool {
        &&& distinct(state_names(self.states@))
        &&& forall|s: int| 0 <= s < self.states@.len() ==> (#[trigger] self.states@[s]).wf()
    }

    /// Whether the events are well formed: no two have the same name, none
    /// is named like the model's state attribute, and every transition names
    /// registered states.
    pub open(crate) spec fn events_wf(&self) -> bool {
        &&& distinct(event_names(event_views(self.events@)))
        &&& forall|e: int|
            0 <= e < self.events@.len() ==> (#[trigger] self.events@[e]).wf() && self.events@[e].registered_in(
                self,
            ) && self.events@[e]@.name != self.attribute()
    }

    /// Whether the models are well formed: each holds a registered state
    /// under the state attribute.
    pub open(crate) spec fn models_wf(&self) -> bool {
        forall|m: int|
            0 <= m < self.models@.len() ==> (#[trigger] self.models@[m]).wf() && self.binds(
                self.models@[m]@,
            )
    }

    /// Whether every waiting trigger is for a bound model.
    pub open(crate) spec fn queue_wf(&self) -> bool {
        forall|q: int| 0 <= q < self.queue@.len() ==> (#[trigger] self.queue@[q]).model < self.models@.len()
    }

    /// Whether the machine is well formed.
    pub open(crate) spec fn wf(&self) -> bool {
        &&& self.states_wf()
        &&& self.events_wf()
        &&& self.models_wf()
        &&& self.queue_wf()
        &&& self.initial is Some ==> self.has_state(self.initial->Some_0@)
        &&& self.auto_transitions ==> forall|s: int|
            0 <= s < self@.states.len() ==> jump_name(#[trigger] self@.states[s].name)
                != self@.model_attribute
    }

    /// Whether a state called `name` is registered.
    pub open(crate) spec fn has_state(&self, name: Seq<char>) -> bool {
        self@.has_state(name)
    }

    /// The registered state called `name`.
    pub open(crate) spec fn state_named(&self, name: Seq<char>) -> State {
        self.states@[position(state_names(self.states@), name)->Some_0]
    }

    /// The machine-wide callbacks that bracket every transition.
    pub open(crate) spec fn hooks(&self) -> Hooks {
        self@.hooks()
    }

    /// The callbacks that run at the end of the processing of every event.
    pub open(crate) spec fn finalizers(&self) -> Seq<Seq<char>> {
        self@.finalize_event
    }

    /// Whether a trigger that has no transition from `state` is ignored:
    /// the state's own policy where it has one, the machine's otherwise.
    pub open(crate) spec fn ignores(&self, state: Seq<char>) -> bool {
        self@.ignores(state)
    }

    /// Whether `model` is bound to this machine: it has the state attribute,
    /// and the attribute names a registered state.
    pub open(crate) spec fn binds(&self, model: Map<Seq<char>, Seq<char>>) -> bool {
        self@.binds(model)
    }

    /// Whether triggers raised while a transition is in flight are queued.
    pub open(crate) spec fn is_queued(&self) -> bool {
        self.queued
    }

    /// The name of the model attribute that holds the state.
    pub open(crate) spec fn attribute(&self) -> Seq<char> {
        self.model_attribute@
    }

    /// Settles what a callback handed back: its failure is the failure; in a
    /// machine that does not queue, a callback that raised a trigger has
    /// tried to start a transition while one is in flight, which fails with
    /// [`Error::MachineError`]; otherwise the raised triggers are kept for
    /// the queue, in their order.
    pub fn settle(&self, given: Result<Vec<String>, Error>, event_data: &mut EventData) -> (r: Result<(), Error>)
        ensures
            outcome_view(r) == match given {
                Err(error) => Err::<(), ErrorView>(error@),
                Ok(names) => if !self.is_queued() && names@.len() > 0 {
                    Err(ErrorView::MachineError(reentrancy_text()))
                } else {
                    Ok(())
                },
            },
            final(event_data).raised() == old(event_data).raised() + match given {
                Ok(names) => if self.is_queued() {
                    texts(names@)
                } else {
                    Seq::empty()
                },
                Err(_) => Seq::empty(),
            },
            final(event_data).snapshot() == old(event_data).snapshot(),
            final(event_data).trace() == old(event_data).trace(),
            final(event_data).wf() == old(event_data).wf(),
    {
        match given {
            Err(e) => {
                proof {
                    assert(event_data.raised() + Seq::<Seq<char>>::empty() =~= event_data.raised());
                }
                Err(e)
            },
            Ok(raised) => {
                let mut raised = raised;
                if !self.queued {
                    proof {
                        assert(event_data.raised() + Seq::<Seq<char>>::empty() =~= event_data.raised());
                    }
                    if raised.len() > 0 {
                        Err(
                            Error::MachineError(
                                String::from_str(
                                    "Attempt to process events synchronously while transition queue is not empty!",
                                ),
                            ),
                        )
                    } else {
                        Ok(())
                    }
                } else {
                    let ghost before = event_data.raised();
                    let ghost added = texts(raised@);
                    event_data.raised.append(&mut raised);
                    assert(event_data.raised() =~= before + added);
                    Ok(())
                }
            },
        }
    }

    /// Runs one callback: resolves `func` on the host and invokes it.
    ///
    /// Exactly one step is added to the trace, the call of `func` with what
    /// the host replied: the step is unresolved exactly when the host
    /// answers that it cannot resolve the identifier, and else its reply is
    /// what the host's `invoke` handed back for the identifier and the event
    /// data as they were. The call fails when the host cannot resolve the
    /// identifier, when the callback fails, and, in a machine that does not
    /// queue, when the callback raises a trigger. Otherwise the raised
    /// triggers are kept for the queue.
    pub fn callback<H: Host>(&self, func: &TriggerFunction, host: &mut H, event_data: &mut EventData) -> (r:
        Result<(), Error>)
        ensures
            final(event_data).trace().len() == old(event_data).trace().len() + 1,
            final(event_data).trace() == old(event_data).trace().push(final(event_data).trace().last()),
            final(event_data).trace().last().action == (Action::Call { callback: func@ }),
            final(event_data).trace().last().fits(),
            resolves_to(
                &*old(host),
                func@,
                &*old(event_data),
                !(final(event_data).trace().last().reply is Unresolved),
            ),
            final(event_data).trace().last().reply is Unresolved ==> *final(host) == *old(host),
            !(final(event_data).trace().last().reply is Unresolved) ==> exists|via: &mut H|
                mut_ref_future(via) == *final(host) && #[trigger] answered(
                    via,
                    *old(host),
                    *old(event_data),
                    final(event_data).trace().last(),
                ),
            outcome_view(r) == match final(event_data).trace().last().verdict(self.is_queued()) {
                Verdict::Fail { error } => Err(error),
                _ => Ok(()),
            },
            final(event_data).raised() == old(event_data).raised()
                + final(event_data).trace().last().queues(self.is_queued()),
            final(event_data).snapshot() == old(event_data).snapshot(),
            final(event_data).wf() == old(event_data).wf(),
    {
        let action = Ghost(Action::Call { callback: func@ });
        match func.resolve_callable(&*host, &*event_data) {
            Err(e) => {
                proof {
                    let step = Step { action: action@, reply: Reply::Unresolved };
                    event_data.trace@ = event_data.trace@.push(step);
                    assert(event_data.raised() + step.queues(self.is_queued()) =~= event_data.raised());
                }
                return Err(e);
            },
            Ok(_) => {},
        }
        let ghost host_before = *host;
        let ghost data_before = *event_data;
        let given = func.execute(host, &*event_data);
        proof {
            let step = Step { action: action@, reply: reply_of_callback(given) };
            event_data.trace@ = event_data.trace@.push(step);
            let (text, via) = choose|text: &str, via: &mut H|
                text@ == func@ && mut_ref_current(via) == host_before && mut_ref_future(via) == *host
                    && #[trigger] call_ensures(H::invoke, (via, text, &data_before), given);
            assert(answered(via, host_before, data_before, step));
        }
        self.settle(given, event_data)
    }

    /// Runs `funcs` in order, up to the first that fails.
    ///
    /// The steps added to the trace are a run of the plan that calls each of
    /// `funcs`; the result is `Ok` when the run went through all of them, and
    /// the failure of the last step otherwise.
    ///
    /// Every step was put to the host, one after the other, and each reply is
    /// what the host handed back. The event data that the host was handed
    /// showed at every step what callbacks could observe before the call,
    /// with the triggers that the steps before had queued behind those that
    /// waited.
    pub fn callbacks<H: Host>(&self, funcs: &[&TriggerFunction], host: &mut H, event_data: &mut EventData) -> (r:
        Result<(), Error>)
        ensures
            final(event_data).extends(old(event_data)),
            is_run(
                calls(borrowed_names(funcs@)),
                final(event_data).since(old(event_data)),
                self.is_queued(),
            ),
            run_outcome(final(event_data).since(old(event_data)), self.is_queued()) != Ok::<
                bool,
                ErrorView,
            >(false),
            outcome_view(r) == match run_outcome(
                final(event_data).since(old(event_data)),
                self.is_queued(),
            ) {
                Err(error) => Err(error),
                Ok(_) => Ok(()),
            },
            final(event_data).raised() == old(event_data).raised() + run_queues(
                final(event_data).since(old(event_data)),
                self.is_queued(),
            ),
            stays(final(event_data).since(old(event_data))),
            exists|hosts: Seq<H>, datas: Seq<EventData>|
                #[trigger] asked(hosts, datas, *old(host), following(old(event_data).sight(), final(event_data).since(old(event_data)), self.attribute(), self.is_queued()), final(event_data).since(old(event_data))) && hosts.last() == *final(host) && forall|i: int|
                    0 <= i < final(event_data).since(old(event_data)).len() && reaches_host(#[trigger] final(event_data).since(old(event_data))[i]) ==> exists|via: &mut H|
                        mut_ref_future(via) == hosts[i + 1] && #[trigger] answered(via, hosts[i], datas[i], final(event_data).since(old(event_data))[i]),
            final(event_data).snapshot() == old(event_data).snapshot(),
            final(event_data).wf() == old(event_data).wf(),
    {
        let ghost plan = calls(borrowed_names(funcs@));
        let ghost start = event_data.trace();
        let ghost mut run: Seq<Step> = Seq::empty();
        proof {
            lemma_run_of_nothing(self.is_queued());
            lemma_linked_nothing(
                *host,
                following(old(event_data).sight(), run, self.attribute(), self.is_queued()),
                run,
            );
            assert(plan.take(0) =~= Seq::<Action>::empty());
            assert(start + run =~= start);
            assert(event_data.raised() + run_queues(run, self.is_queued()) =~= event_data.raised());
        }
        let mut i: usize = 0;
        while i < funcs.len()
            invariant
                i <= funcs.len(),
                plan == calls(borrowed_names(funcs@)),
                start == old(event_data).trace(),
                event_data.trace() == start + run,
                run.len() == i,
                is_run(plan.take(i as int), run, self.is_queued()),
                run_outcome(run, self.is_queued()) == Ok::<bool, ErrorView>(true),
                event_data.raised() == old(event_data).raised() + run_queues(run, self.is_queued()),
                event_data.snapshot() == old(event_data).snapshot(),
                event_data.wf() == old(event_data).wf(),
                stays(run),
                exists|hosts: Seq<H>, datas: Seq<EventData>|
                    #[trigger] asked(hosts, datas, *old(host), following(old(event_data).sight(), run, self.attribute(), self.is_queued()), run) && hosts.last() == *host && forall|i: int|
                        0 <= i < run.len() && reaches_host(#[trigger] run[i]) ==> exists|via: &mut H|
                            mut_ref_future(via) == hosts[i + 1] && #[trigger] answered(via, hosts[i], datas[i], run[i]),
            decreases funcs.len() - i,
        {
            let ghost host_before = *host;
            let ghost data_before = *event_data;
            let r = self.callback(funcs[i], host, event_data);
            proof {
                let step = event_data.trace().last();
                let longer = run.push(step);
                lemma_run_step(plan, run, step, self.is_queued());
                lemma_stays_the_same(old(event_data).snapshot(), run, self.attribute());
                lemma_linked_push(
                    *old(host),
                    host_before,
                    *host,
                    old(event_data).sight(),
                    data_before,
                    run,
                    step,
                    self.attribute(),
                    self.is_queued(),
                );
                assert(stays(longer)) by {
                    assert forall|k: int| 0 <= k < longer.len() implies !((#[trigger] longer[k]).action is Move) by {
                        if k < run.len() {
                            assert(longer[k] == run[k]);
                        }
                    }
                }
                assert(event_data.trace() =~= start + longer);
                assert(event_data.raised() =~= old(event_data).raised() + run_queues(
                    longer,
                    self.is_queued(),
                ));
                run = longer;
                assert(event_data.since(old(event_data)) =~= run);
            }
            match r {
                Err(e) => {
                    return Err(e);
                },
                Ok(_) => {},
            }
            i = i + 1;
        }
        proof {
            lemma_run_whole(plan, run, self.is_queued());
            assert(event_data.since(old(event_data)) =~= run);
        }
        Ok(())
    }

    pub(crate) fn find_state(&self, name: &String) -> (r: Option<usize>)
        requires
            self.states_wf(),
        ensures
            match r {
                Some(i) => i < self.states@.len() && position(state_names(self.states@), name@)
                    == Some(i as int),
                None => position(state_names(self.states@), name@) is None,
            },
    {
        let mut i: usize = 0;
        while i < self.states.len()
            invariant
                self.states_wf(),
                i <= self.states.len(),
                forall|k: int| 0 <= k < i ==> state_names(self.states@)[k] != name@,
            decreases self.states.len() - i,
        {
            if self.states[i].name == *name {
                proof {
                    assert(state_names(self.states@)[i as int] == name@);
                    lemma_position_unique(state_names(self.states@), i as int);
                }
                return Some(i);
            }
            i = i + 1;
        }
        proof {
            lemma_position_none(state_names(self.states@), name@);
        }
        None
    }
}

impl MachineView {
    /// Whether a state called `name` is registered.
    pub open spec fn has_state(self, name: Seq<char>) -> bool {
        position(names_of(self.states), name) is Some
    }

    /// Whether `model` is bound to this machine: it has the state attribute,
    /// and the attribute names a registered state.
    pub open spec fn binds(self, model: Map<Seq<char>, Seq<char>>) -> bool {
        &&& model.contains_key(self.model_attribute)
        &&& self.has_state(model[self.model_attribute])
    }

    /// The machine-wide callbacks that bracket every transition.
    pub open spec fn hooks(self) -> Hooks {
        Hooks {
            prepare_event: self.prepare_event,
            before_state_change: self.before_state_change,
            after_state_change: self.after_state_change,
        }
    }

    /// The plan of `transition` in this machine.
    pub open spec fn plan(self, transition: TransitionView) -> Seq<Action> {
        pipeline(
            self.hooks(),
            transition,
            self.state_named(transition.source).on_exit,
            match transition.dest {
                Some(dest) => self.state_named(dest).on_enter,
                None => Seq::empty(),
            },
        )
    }

    /// The plans of `candidates` in this machine.
    pub open spec fn plans(self, candidates: Seq<TransitionView>) -> Seq<Seq<Action>> {
        Seq::new(candidates.len(), |k: int| self.plan(candidates[k]))
    }

    /// Whether an event called `name` is registered.
    pub open spec fn has_event(self, name: Seq<char>) -> bool {
        position(event_names(self.events), name) is Some
    }

    /// The event called `name`.
    pub open spec fn event_named(self, name: Seq<char>) -> EventView {
        self.events[position(event_names(self.events), name)->Some_0]
    }

    /// The state called `name`.
    pub open spec fn state_named(self, name: Seq<char>) -> StateView {
        self.states[position(names_of(self.states), name)->Some_0]
    }

    /// The state of the model with the index `model`.
    pub open spec fn state_of(self, model: int) -> Seq<char> {
        self.models[model][self.model_attribute]
    }

    /// Whether a trigger that has no transition from `state` is ignored:
    /// the state's own policy where it has one, the machine's otherwise.
    pub open spec fn ignores(self, state: Seq<char>) -> bool {
        match self.state_named(state).ignore_invalid_triggers {
            Some(ignore) => ignore,
            None => self.ignore_invalid_triggers,
        }
    }
}

/// The name of the trigger that jumps to the state called `state` from
/// anywhere.
pub open spec fn jump_name(state: Seq<char>) -> Seq<char> {
    "to_"@ + state
}

/// The prefix of the log lines of a machine that was given `name`: the name
/// and a colon, or nothing for a machine without a name.
pub open spec fn log_prefix(name: Option<Seq<char>>) -> Seq<char> {
    match name {
        Some(n) => n + ": "@,
        None => Seq::empty(),
    }
}

/// The name of the state attribute of a machine that was given
/// `model_attribute`: `state` where none was given.
pub open spec fn attribute_name(model_attribute: Option<Seq<char>>) -> Seq<char> {
    match model_attribute {
        Some(a) => a,
        None => "state"@,
    }
}

/// The list that holds `callback` if there is one.
fn listify(callback: Option<TriggerFunction>) -> (r: Vec<TriggerFunction>)
    ensures
        trigger_names(r@) == match callback {
            Some(f) => seq![f@],
            None => Seq::<Seq<char>>::empty(),
        },
{
    let mut list: Vec<TriggerFunction> = Vec::new();
    match callback {
        Some(f) => {
            list.push(f);
            assert(trigger_names(list@) =~= seq![f@]);
        },
        None => {
            assert(trigger_names(list@) =~= Seq::<Seq<char>>::empty());
        },
    }
    list
}

impl Machine {
    /// A machine without states, events and models.
    ///
    /// `send_event`, `auto_transitions`, `ignore_invalid_triggers` and
    /// `queued` are kept as given. Each of the four callbacks, where given,
    /// becomes the one entry of its machine-wide list. `name` becomes the
    /// prefix of log lines, and `model_attribute` names the model attribute
    /// that holds the state, `state` where none is given.
    pub fn new(
        send_event: bool,
        auto_transitions: bool,
        ignore_invalid_triggers: bool,
        possible_before_state_change: Option<TriggerFunction>,
        possible_after_state_change: Option<TriggerFunction>,
        name: Option<String>,
        queued: bool,
        prepare_event: Option<TriggerFunction>,
        finalize_event: Option<TriggerFunction>,
        model_attribute: Option<String>,
    ) -> (r: Self)
        ensures
            r.wf(),
            r@ == (MachineView {
                states: Seq::empty(),
                events: Seq::empty(),
                models: Seq::empty(),
                initial: None,
                prepare_event: match prepare_event {
                    Some(f) => seq![f@],
                    None => Seq::empty(),
                },
                before_state_change: match possible_before_state_change {
                    Some(f) => seq![f@],
                    None => Seq::empty(),
                },
                after_state_change: match possible_after_state_change {
                    Some(f) => seq![f@],
                    None => Seq::empty(),
                },
                finalize_event: match finalize_event {
                    Some(f) => seq![f@],
                    None => Seq::empty(),
                },
                queued,
                send_event,
                auto_transitions,
                ignore_invalid_triggers,
                name: log_prefix(optional_text(name)),
                model_attribute: attribute_name(optional_text(model_attribute)),
                queue: Seq::empty(),
                journal: Seq::empty(),
            }),
            crate::completeness::complete(r@),
    {
        let name = match name {
            Some(n) => n.concat(": "),
            None => String::new(),
        };
        let model_attribute = match model_attribute {
            Some(a) => a,
            None => String::from_str("state"),
        };
        let r = Machine {
            states: Vec::new(),
            events: Vec::new(),
            models: Vec::new(),
            initial: None,
            prepare_event: listify(prepare_event),
            before_state_change: listify(possible_before_state_change),
            after_state_change: listify(possible_after_state_change),
            finalize_event: listify(finalize_event),
            queued,
            send_event,
            auto_transitions,
            ignore_invalid_triggers,
            name,
            model_attribute,
            queue: VecDeque::new(),
            journal: Ghost(Seq::empty()),
        };
        proof {
            assert(r@.states =~= Seq::<StateView>::empty());
            assert(r@.events =~= Seq::<EventView>::empty());
            assert(r@.models =~= Seq::<Map<Seq<char>, Seq<char>>>::empty());
            assert(r@.queue =~= Seq::<(int, Seq<char>)>::empty());
        }
        r
    }

    pub(crate) fn find_event(&self, name: &String) -> (r: Option<usize>)
        requires
            self.wf(),
        ensures
            match r {
                Some(e) => e < self.events@.len() && position(event_names(self@.events), name@) == Some(
                    e as int,
                ),
                None => position(event_names(self@.events), name@) is None,
            },
    {
        let mut i: usize = 0;
        while i < self.events.len()
            invariant
                self.wf(),
                i <= self.events.len(),
                forall|k: int| 0 <= k < i ==> event_names(self@.events)[k] != name@,
            decreases self.events.len() - i,
        {
            if self.events[i].name == *name {
                proof {
                    assert(event_names(self@.events)[i as int] == name@);
                    lemma_position_unique(event_names(self@.events), i as int);
                }
                return Some(i);
            }
            i = i + 1;
        }
        proof {
            lemma_position_none(event_names(self@.events), name@);
        }
        None
    }

    /// The registered state called `state`, or
    /// [`Error::RegisteredStateError`] with the name if there is none.
    pub fn get_state(&self, state: &str) -> (r: Result<&State, Error>)
        requires
            self.wf(),
        ensures
            match r {
                Ok(found) => self@.has_state(state@) && found@ == self@.state_named(state@),
                Err(error) => !self@.has_state(state@) && error@ == ErrorView::RegisteredStateError(
                    state@,
                ),
            },
    {
        let name = String::from_str(state);
        match self.find_state(&name) {
            Some(i) => Ok(&self.states[i]),
            None => Err(Error::RegisteredStateError(name)),
        }
    }

    /// Whether a state with the name of `state` is registered. With
    /// `raise_error`, a state that is not registered is the failure
    /// [`Error::UnknownStateError`] with its name.
    pub fn _has_state(&self, state: &State, raise_error: bool) -> (r: Result<bool, Error>)
        requires
            self.wf(),
        ensures
            outcome_view(r) == if self@.has_state(state@.name) {
                Ok::<bool, ErrorView>(true)
            } else if raise_error {
                Err(ErrorView::UnknownStateError(state@.name))
            } else {
                Ok(false)
            },
    {
        match self.find_state(&state.name) {
            Some(_) => Ok(true),
            None => {
                if raise_error {
                    Err(Error::UnknownStateError(state.name.clone()))
                } else {
                    Ok(false)
                }
            },
        }
    }

    /// Whether triggers raised while a transition is in flight are queued.
    pub fn has_queue(&self) -> (r: bool)
        ensures
            r == self@.queued,
    {
        self.queued
    }

    /// Whether callbacks are handed the event data.
    pub fn send_event(&self) -> (r: bool)
        ensures
            r == self@.send_event,
    {
        self.send_event
    }

    /// Whether the machine keeps a `to_<state>` trigger for every state.
    pub fn auto_transitions(&self) -> (r: bool)
        ensures
            r == self@.auto_transitions,
    {
        self.auto_transitions
    }

    /// The name of the model attribute that holds the state.
    pub fn model_attribute(&self) -> (r: &String)
        ensures
            r@ == self@.model_attribute,
    {
        &self.model_attribute
    }

    /// The state that a model starts in when none is given.
    pub fn initial(&self) -> (r: &Option<String>)
        ensures
            optional_text(*r) == self@.initial,
    {
        &self.initial
    }

    /// How many states are registered.
    pub fn state_count(&self) -> (r: usize)
        ensures
            r == self@.states.len(),
    {
        self.states.len()
    }

    /// How many models are bound.
    pub fn model_count(&self) -> (r: usize)
        ensures
            r == self@.models.len(),
    {
        self.models.len()
    }
}

/// The value of the attribute `attribute` of `model`, if the model has it.
pub fn getattr(model: &Model, attribute: &str) -> (r: Option<String>)
    requires
        model.wf(),
    ensures
        r is Some <==> model@.contains_key(attribute@),
        r is Some ==> r->Some_0@ == model@[attribute@],
{
    let name = String::from_str(attribute);
    match model.get(&name) {
        Some(value) => Some(value.clone()),
        None => None,
    }
}

} // verus!
