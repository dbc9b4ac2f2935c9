//! Registration of states, and the jumps that a machine with
//! `auto_transitions` adds for them.

use vstd::prelude::*;
use vstd::string::StringExecFns;
use crate::completeness::{complete, law_jumps_complete_after_registrations};
use crate::elements::{
    ConditionFunction,
    State,
    StateTrigger,
    StateView,
    TriggerFunction,
    trigger_names,
};
use crate::error::{Error, ErrorView, outcome_view};
use crate::event::EventView;
use crate::machine::{Machine, MachineView, jump_name, names_of, state_names, state_views};
use crate::registry::{Arguments, condition_names, first_unknown, wildcard_all};
use crate::support::{position, texts, lemma_position_unique};

verus! {

/// No callbacks and no predicates.
pub open spec fn no_arguments() -> Arguments {
    Arguments {
        conditions: Seq::empty(),
        unless: Seq::empty(),
        before: Seq::empty(),
        after: Seq::empty(),
        prepare: Seq::empty(),
    }
}

impl MachineView {
    /// The states after `state` was registered: in the place of the state
    /// of the same name if there is one, at the end otherwise.
    pub open spec fn states_with(self, state: StateView) -> Seq<StateView> {
        match position(names_of(self.states), state.name) {
            Some(i) => self.states.update(i, state),
            None => self.states.push(state),
        }
    }

    /// The machine after the jumps that the registration of the state
    /// called `name` adds for the first `count` registered states: under
    /// `to_<name>`, a transition to `name` from every registered state; and
    /// for each other state, under `to_<other>`, a transition from `name` to
    /// it.
    pub open spec fn with_jumps(self, name: Seq<char>, count: int) -> MachineView
        decreases count,
    {
        if count <= 0 {
            self
        } else {
            let before = self.with_jumps(name, count - 1);
            let other = names_of(self.states)[count - 1];
            if other == name {
                before.with_registration(jump_name(name), seq![wildcard_all()], Some(name), no_arguments())
            } else {
                before.with_registration(jump_name(other), seq![name], Some(other), no_arguments())
            }
        }
    }

    /// The machine after `state` was registered. A machine with
    /// `auto_transitions` then adds the jumps from and to the state.
    pub open spec fn with_state(self, state: StateView) -> MachineView {
        let registered = MachineView { states: self.states_with(state), ..self };
        if self.auto_transitions {
            registered.with_jumps(state.name, registered.states.len() as int)
        } else {
            registered
        }
    }

    /// The machine after each of `states` was registered, in their order.
    pub open spec fn with_states(self, states: Seq<StateView>) -> MachineView
        decreases states.len(),
    {
        if states.len() == 0 {
            self
        } else {
            self.with_states(states.drop_last()).with_state(states.last())
        }
    }

    /// The first of `names` whose jump would be named like the model's state
    /// attribute.
    pub open spec fn first_clash(self, names: Seq<Seq<char>>) -> Option<Seq<char>>
        decreases names.len(),
    {
        if names.len() == 0 {
            None
        } else {
            match self.first_clash(names.drop_last()) {
                Some(name) => Some(name),
                None => if jump_name(names.last()) == self.model_attribute {
                    Some(names.last())
                } else {
                    None
                },
            }
        }
    }
}

/// A name that has a position among some names keeps it when a name is
/// added at the end.
pub proof fn lemma_position_grows(names: Seq<Seq<char>>, added: Seq<char>, name: Seq<char>)
    requires
        position(names, name) is Some,
    ensures
        position(names.push(added), name) is Some,
{
    let i = position(names, name)->Some_0;
    assert(names.push(added)[i] == name);
}

/// An event whose states are among some names has them among more names.
pub proof fn lemma_within_grows(event: EventView, names: Seq<Seq<char>>, added: Seq<char>)
    requires
        event.within(names),
    ensures
        event.within(names.push(added)),
{
    assert forall|g: int, t: int|
        0 <= g < event.groups.len() && 0 <= t < event.groups[g].transitions.len() implies (
    #[trigger] event.groups[g].transitions[t]).within(names.push(added)) by {
        let transition = event.groups[g].transitions[t];
        assert(transition.within(names));
        lemma_position_grows(names, added, transition.source);
        if transition.dest is Some {
            lemma_position_grows(names, added, transition.dest->Some_0);
        }
    }
}

impl Machine {
    /// Registers `state`, without any jumps.
    fn put_state(&mut self, state: State)
        requires
            old(self).wf(),
            state.wf(),
            old(self)@.auto_transitions ==> jump_name(state@.name) != old(self)@.model_attribute,
        ensures
            final(self).wf(),
            final(self)@ == (MachineView { states: old(self)@.states_with(state@), ..old(self)@ }),
            final(self)@.has_state(state@.name),
    {
        let ghost before = self@;
        let ghost names = names_of(before.states);
        let ghost view = state@;
        match self.find_state(&state.name) {
            Some(i) => {
                self.states[i] = state;
                proof {
                    assert(self@.states =~= before.states.update(i as int, view));
                    assert(names_of(self@.states) =~= names);
                    assert(self.events@ == old(self).events@);
                    assert(self.models@ == old(self).models@);
                    assert forall|s: int| 0 <= s < self.states@.len() implies (#[trigger] self.states@[s]).wf() by {
                        if s != i as int {
                            assert(self.states@[s] == old(self).states@[s]);
                        }
                    }
                    assert forall|s: int| 0 <= s < self@.states.len() implies jump_name(
                        #[trigger] self@.states[s].name,
                    ) != self@.model_attribute || !self@.auto_transitions by {
                        if s != i as int {
                            assert(self@.states[s] == before.states[s]);
                        }
                    }
                    assert(names_of(self@.states)[i as int] == view.name);
                }
            },
            None => {
                self.states.push(state);
                proof {
                    let n = before.states.len() as int;
                    assert(self@.states =~= before.states.push(view));
                    let after = names_of(self@.states);
                    assert(after =~= names.push(view.name));
                    assert forall|a: int, b: int|
                        0 <= a < after.len() && 0 <= b < after.len() && after[a] == after[b] implies a
                        == b by {
                        if a < n && b == n {
                            assert(names[a] == view.name);
                        }
                        if b < n && a == n {
                            assert(names[b] == view.name);
                        }
                    }
                    assert(self.events@ == old(self).events@);
                    assert(self.models@ == old(self).models@);
                    assert forall|s: int| 0 <= s < self.states@.len() implies (#[trigger] self.states@[s]).wf() by {
                        if s < n {
                            assert(self.states@[s] == old(self).states@[s]);
                        }
                    }
                    assert forall|e: int| 0 <= e < self.events@.len() implies (#[trigger] self.events@[e]).wf()
                        && self.events@[e].registered_in(self) && self.events@[e]@.name
                        != self.attribute() by {
                        assert(old(self).events@[e].registered_in(old(self)));
                        lemma_within_grows(self.events@[e]@, names, view.name);
                    }
                    assert forall|m: int| 0 <= m < self.models@.len() implies (#[trigger] self.models@[m]).wf()
                        && self.binds(self.models@[m]@) by {
                        assert(old(self).binds(old(self).models@[m]@));
                        lemma_position_grows(names, view.name, self.models@[m]@[self.attribute()]);
                    }
                    if self.initial is Some {
                        lemma_position_grows(names, view.name, self.initial->Some_0@);
                    }
                    assert forall|s: int| 0 <= s < self@.states.len() implies jump_name(
                        #[trigger] self@.states[s].name,
                    ) != self@.model_attribute || !self@.auto_transitions by {
                        if s < n {
                            assert(self@.states[s] == before.states[s]);
                        }
                    }
                    assert(after[n] == view.name);
                }
            },
        }
    }

    /// Registers `state` and, in a machine with `auto_transitions`, the
    /// jumps from and to it.
    fn register(&mut self, state: State)
        requires
            old(self).wf(),
            state.wf(),
            old(self)@.auto_transitions ==> jump_name(state@.name) != old(self)@.model_attribute,
        ensures
            final(self).wf(),
            final(self)@ == old(self)@.with_state(state@),
    {
        let name = state.name.clone();
        self.put_state(state);
        if !self.auto_transitions {
            return ;
        }
        let ghost registered = self@;
        let ghost names = names_of(registered.states);
        let none: Vec<ConditionFunction> = Vec::new();
        let nothing: Vec<TriggerFunction> = Vec::new();
        let mut everywhere: Vec<String> = Vec::new();
        everywhere.push(String::from_str("*"));
        let mut here: Vec<String> = Vec::new();
        here.push(name.clone());
        proof {
            assert(texts(everywhere@) =~= seq![wildcard_all()]);
            assert(texts(here@) =~= seq![name@]);
            assert(condition_names(none@) =~= Seq::<Seq<char>>::empty());
            assert(trigger_names(nothing@) =~= Seq::<Seq<char>>::empty());
        }
        let count = self.states.len();
        let mut k: usize = 0;
        while k < count
            invariant
                k <= count,
                count == registered.states.len(),
                self.wf(),
                self@ == registered.with_jumps(name@, k as int),
                self@.states == registered.states,
                self@.model_attribute == registered.model_attribute,
                self@.auto_transitions,
                names == names_of(registered.states),
                registered.has_state(name@),
                texts(everywhere@) == seq![wildcard_all()],
                texts(here@) == seq![name@],
                condition_names(none@) == Seq::<Seq<char>>::empty(),
                trigger_names(nothing@) == Seq::<Seq<char>>::empty(),
            decreases count - k,
        {
            let other = self.states[k].name.clone();
            let trigger = String::from_str("to_").concat(other.as_str());
            proof {
                assert(other@ == names[k as int]);
                assert(self@.states[k as int].name == other@);
                assert(trigger@ == jump_name(other@));
                assert(trigger@ != self@.model_attribute);
                lemma_position_unique(names, k as int);
                if texts(here@) != seq![wildcard_all()] {
                    assert(texts(here@).drop_last() =~= Seq::<Seq<char>>::empty());
                    assert(first_unknown(names, texts(here@).drop_last()) is None);
                    assert(first_unknown(names, texts(here@)) is None);
                }
            }
            let added = if other == name {
                self.add_transition(
                    trigger.as_str(),
                    &everywhere,
                    Some(name.as_str()),
                    &none,
                    &none,
                    &nothing,
                    &nothing,
                    &nothing,
                )
            } else {
                self.add_transition(
                    trigger.as_str(),
                    &here,
                    Some(other.as_str()),
                    &none,
                    &none,
                    &nothing,
                    &nothing,
                    &nothing,
                )
            };
            proof {
                assert(added is Ok);
            }
            k = k + 1;
        }
    }

    /// Registers each of `states`, in their order.
    ///
    /// A state whose name is already registered takes the place of the
    /// state of that name. In a machine with `auto_transitions`, each
    /// registration also adds the jumps from and to the state: under
    /// `to_<state>` a transition from every registered state, the state
    /// itself included, and for each other registered state a transition
    /// from the state under the other state's jump.
    ///
    /// In a machine with `auto_transitions`, where the jump of one of
    /// `states` would be named like the model's state attribute, nothing
    /// is registered, and the result is [`Error::TriggerNameError`] with the
    /// jump of the first such state.
    pub fn add_states(&mut self, states: Vec<State>) -> (r: Result<(), Error>)
        requires
            old(self).wf(),
            forall|i: int| 0 <= i < states@.len() ==> (#[trigger] states@[i]).wf(),
        ensures
            final(self).wf(),
            match old(self)@.first_clash(state_names(states@)) {
                Some(name) => if old(self)@.auto_transitions {
                    outcome_view(r) == Err::<(), ErrorView>(ErrorView::TriggerNameError(jump_name(name)))
                        && final(self)@ == old(self)@
                } else {
                    r is Ok && final(self)@ == old(self)@.with_states(state_views(states@))
                },
                None => r is Ok && final(self)@ == old(self)@.with_states(state_views(states@)),
            },
            r is Ok ==> forall|i: int|
                0 <= i < states@.len() ==> final(self)@.has_state((#[trigger] states@[i])@.name),
            old(self)@.auto_transitions && complete(old(self)@) ==> complete(final(self)@),
    {
        let ghost begin = *self;
        let ghost views = state_views(states@);
        let ghost names = state_names(states@);
        if self.auto_transitions {
            let mut i: usize = 0;
            while i < states.len()
                invariant
                    i <= states@.len(),
                    names == state_names(states@),
                    self.wf(),
                    self@ == old(self)@,
                    self@.auto_transitions,
                    self@.first_clash(names.take(i as int)) is None,
                decreases states@.len() - i,
            {
                let trigger = String::from_str("to_").concat(states[i].name.as_str());
                proof {
                    assert(names.take(i + 1).drop_last() =~= names.take(i as int));
                    assert(names.take(i + 1).last() == states@[i as int]@.name);
                }
                if trigger == self.model_attribute {
                    proof {
                        assert(self@.first_clash(names.take(i + 1)) == Some(states@[i as int]@.name));
                        lemma_first_clash_prefix(self@, names, i + 1);
                    }
                    return Err(Error::TriggerNameError(trigger));
                }
                i = i + 1;
            }
            proof {
                assert(names.take(states@.len() as int) =~= names);
            }
        }
        let mut rest = states;
        let mut reversed: Vec<State> = Vec::new();
        while rest.len() > 0
            invariant
                rest@.len() + reversed@.len() == views.len(),
                forall|k: int| 0 <= k < rest@.len() ==> (#[trigger] rest@[k]) == states@[k],
                forall|k: int|
                    0 <= k < reversed@.len() ==> (#[trigger] reversed@[k]) == states@[views.len() - 1 - k],
                views == state_views(states@),
            decreases rest@.len(),
        {
            let state = rest.pop().unwrap();
            reversed.push(state);
        }
        let ghost mut added: int = 0;
        proof {
            assert(views.take(0) =~= Seq::<StateView>::empty());
        }
        while reversed.len() > 0
            invariant
                self.wf(),
                added + reversed@.len() == views.len(),
                0 <= added,
                views == state_views(states@),
                names == state_names(states@),
                forall|i: int| 0 <= i < states@.len() ==> (#[trigger] states@[i]).wf(),
                forall|k: int|
                    0 <= k < reversed@.len() ==> (#[trigger] reversed@[k]) == states@[views.len() - 1 - k],
                self@ == old(self)@.with_states(views.take(added)),
                self@.auto_transitions == old(self)@.auto_transitions,
                self@.model_attribute == old(self)@.model_attribute,
                old(self)@.auto_transitions ==> old(self)@.first_clash(names) is None,
            decreases reversed@.len(),
        {
            let state = reversed.pop().unwrap();
            proof {
                assert(state == states@[added]);
                assert(views.take(added + 1).drop_last() =~= views.take(added));
                assert(views.take(added + 1).last() == state@);
                if old(self)@.auto_transitions {
                    lemma_first_clash_none(old(self)@, names, added);
                    assert(names[added] == state@.name);
                }
            }
            self.register(state);
            proof {
                lemma_with_state_keeps(old(self)@.with_states(views.take(added)), state@);
                added = added + 1;
            }
        }
        proof {
            assert(views.take(views.len() as int) =~= views);
            assert forall|i: int| 0 <= i < states@.len() implies self@.has_state(
                (#[trigger] states@[i])@.name,
            ) by {
                assert(views[i] == states@[i]@);
                lemma_with_states_registers(old(self)@, views, i);
            }
            if old(self)@.auto_transitions && complete(old(self)@) {
                begin.lemma_well_formed_is_sound();
                law_jumps_complete_after_registrations(old(self)@, views);
            }
        }
        Ok(())
    }

    /// Registers `state`: [`Machine::add_states`] for a single state.
    pub fn add_state(&mut self, state: State) -> (r: Result<(), Error>)
        requires
            old(self).wf(),
            state.wf(),
        ensures
            final(self).wf(),
            if old(self)@.auto_transitions && jump_name(state@.name) == old(self)@.model_attribute {
                outcome_view(r) == Err::<(), ErrorView>(ErrorView::TriggerNameError(jump_name(state@.name)))
                    && final(self)@ == old(self)@
            } else {
                r is Ok && final(self)@ == old(self)@.with_state(state@)
            },
            r is Ok ==> final(self)@.has_state(state@.name),
            old(self)@.auto_transitions && complete(old(self)@) ==> complete(final(self)@),
    {
        let ghost view = state@;
        let mut states: Vec<State> = Vec::new();
        states.push(state);
        proof {
            let names = state_names(states@);
            assert(names.drop_last() =~= Seq::<Seq<char>>::empty());
            assert(names.last() == view.name);
            assert(old(self)@.first_clash(names.drop_last()) is None);
            let views = state_views(states@);
            assert(views.drop_last() =~= Seq::<StateView>::empty());
            assert(views.last() == view);
            assert(old(self)@.with_states(views.drop_last()) == old(self)@);
            assert(old(self)@.with_states(views) == old(self)@.with_state(view));
            assert(states@[0]@ == view);
        }
        self.add_states(states)
    }
}

/// A clash among the first names is the first clash of the whole list.
pub proof fn lemma_first_clash_prefix(machine: MachineView, names: Seq<Seq<char>>, count: int)
    requires
        0 <= count <= names.len(),
        machine.first_clash(names.take(count)) is Some,
    ensures
        machine.first_clash(names) == machine.first_clash(names.take(count)),
    decreases names.len() - count,
{
    if count < names.len() {
        assert(names.take(count + 1).drop_last() =~= names.take(count));
        lemma_first_clash_prefix(machine, names, count + 1);
    } else {
        assert(names.take(count) =~= names);
    }
}

/// Where no name clashes, no jump is named like the state attribute.
pub proof fn lemma_first_clash_none(machine: MachineView, names: Seq<Seq<char>>, at: int)
    requires
        machine.first_clash(names) is None,
        0 <= at < names.len(),
    ensures
        jump_name(names[at]) != machine.model_attribute,
    decreases names.len(),
{
    if at < names.len() - 1 {
        lemma_first_clash_none(machine, names.drop_last(), at);
    }
}

/// Registrations change neither the policy for jumps nor the name of the
/// state attribute.
pub proof fn lemma_with_state_keeps(machine: MachineView, state: StateView)
    ensures
        machine.with_state(state).auto_transitions == machine.auto_transitions,
        machine.with_state(state).model_attribute == machine.model_attribute,
{
    let registered = MachineView { states: machine.states_with(state), ..machine };
    lemma_with_jumps_keeps(registered, state.name, registered.states.len() as int);
}

/// Jumps change only the events.
pub proof fn lemma_with_jumps_keeps(machine: MachineView, name: Seq<char>, count: int)
    ensures
        machine.with_jumps(name, count) == (MachineView {
            events: machine.with_jumps(name, count).events,
            ..machine
        }),
    decreases count,
{
    if count > 0 {
        lemma_with_jumps_keeps(machine, name, count - 1);
    }
}

impl Machine {
    /// Makes the state called `state` the state that models start in,
    /// registering a state of that name, without callbacks, if there is
    /// none. The registration can fail as [`Machine::add_state`] does, and
    /// the machine is then as it was.
    pub fn set_initial(&mut self, state: &str) -> (r: Result<(), Error>)
        requires
            old(self).wf(),
        ensures
            final(self).wf(),
            if old(self)@.has_state(state@) {
                r is Ok && final(self)@ == (MachineView { initial: Some(state@), ..old(self)@ })
            } else if old(self)@.auto_transitions && jump_name(state@) == old(self)@.model_attribute {
                outcome_view(r) == Err::<(), ErrorView>(ErrorView::TriggerNameError(jump_name(state@)))
                    && final(self)@ == old(self)@
            } else {
                r is Ok && final(self)@ == (MachineView {
                    initial: Some(state@),
                    ..old(self)@.with_state(
                        StateView {
                            name: state@,
                            ignore_invalid_triggers: None,
                            on_enter: Seq::empty(),
                            on_exit: Seq::empty(),
                        },
                    )
                })
            },
    {
        let name = String::from_str(state);
        if self.find_state(&name).is_none() {
            let added = self.add_state(State::from_str(state));
            match added {
                Err(e) => {
                    return Err(e);
                },
                Ok(_) => {},
            }
            proof {
                let fresh = StateView {
                    name: state@,
                    ignore_invalid_triggers: None,
                    on_enter: Seq::empty(),
                    on_exit: Seq::empty(),
                };
                lemma_with_state_registers(old(self)@, fresh);
            }
        }
        self.initial = Some(name);
        Ok(())
    }
}

/// A state that was registered is registered.
pub proof fn lemma_with_state_registers(machine: MachineView, state: StateView)
    ensures
        machine.with_state(state).has_state(state.name),
{
    let registered = MachineView { states: machine.states_with(state), ..machine };
    lemma_with_jumps_keeps(registered, state.name, registered.states.len() as int);
    match position(names_of(machine.states), state.name) {
        Some(i) => {
            assert(names_of(registered.states)[i] == state.name);
        },
        None => {
            assert(names_of(registered.states)[machine.states.len() as int] == state.name);
        },
    }
}

/// The registration of a state keeps every registered state registered.
pub proof fn lemma_with_state_keeps_states(machine: MachineView, state: StateView, name: Seq<char>)
    requires
        machine.has_state(name),
    ensures
        machine.with_state(state).has_state(name),
{
    let registered = MachineView { states: machine.states_with(state), ..machine };
    lemma_with_jumps_keeps(registered, state.name, registered.states.len() as int);
    let at = position(names_of(machine.states), name)->Some_0;
    assert(names_of(machine.states)[at] == name);
    match position(names_of(machine.states), state.name) {
        Some(i) => {
            assert(names_of(machine.states)[i] == state.name);
            assert(names_of(registered.states)[at] == name);
        },
        None => {
            assert(names_of(registered.states)[at] == name);
        },
    }
}

/// Every state of a sequence of registrations is registered after them.
pub proof fn lemma_with_states_registers(machine: MachineView, states: Seq<StateView>, at: int)
    requires
        0 <= at < states.len(),
    ensures
        machine.with_states(states).has_state(states[at].name),
    decreases states.len(),
{
    let middle = machine.with_states(states.drop_last());
    if at < states.len() - 1 {
        lemma_with_states_registers(machine, states.drop_last(), at);
        assert(states.drop_last()[at] == states[at]);
        lemma_with_state_keeps_states(middle, states.last(), states[at].name);
    } else {
        lemma_with_state_registers(middle, states.last());
    }
}

impl Machine {
    /// Adds a callback to the registered state called `state`, at the end
    /// of the callbacks of its moment. Where no such state is registered
    /// the result is [`Error::RegisteredStateError`], and the machine is as
    /// it was.
    pub fn add_callback_to_state(&mut self, state: &str, trigger_func: StateTrigger) -> (r: Result<(), Error>)
        requires
            old(self).wf(),
        ensures
            final(self).wf(),
            if old(self)@.has_state(state@) {
                r is Ok && final(self)@ == (MachineView {
                    states: old(self)@.states.update(
                        position(names_of(old(self)@.states), state@)->Some_0,
                        old(self)@.state_named(state@).with_callback(
                            trigger_func.kind(),
                            trigger_func.func()@,
                        ),
                    ),
                    ..old(self)@
                })
            } else {
                outcome_view(r) == Err::<(), ErrorView>(ErrorView::RegisteredStateError(state@))
                    && final(self)@ == old(self)@
            },
    {
        let ghost before = self@;
        let name = String::from_str(state);
        match self.find_state(&name) {
            None => Err(Error::RegisteredStateError(name)),
            Some(at) => {
                let ghost states_before = self.states@;
                self.states[at].add_callback(trigger_func);
                proof {
                    assert(self.states@ =~= states_before.update(at as int, self.states@[at as int]));
                    assert(self@.states =~= before.states.update(
                        at as int,
                        before.states[at as int].with_callback(trigger_func.kind(), trigger_func.func()@),
                    ));
                    assert(names_of(self@.states) =~= names_of(before.states));
                    assert(self.events@ == old(self).events@);
                    assert(self.models@ == old(self).models@);
                    assert forall|s: int| 0 <= s < self.states@.len() implies (#[trigger] self.states@[s]).wf() by {
                        if s != at as int {
                            assert(self.states@[s] == states_before[s]);
                        }
                    }
                    assert forall|s: int| 0 <= s < self@.states.len() implies jump_name(
                        #[trigger] self@.states[s].name,
                    ) != self@.model_attribute || !self@.auto_transitions by {
                        assert(self@.states[s].name == before.states[s].name);
                    }
                }
                Ok(())
            },
        }
    }
}

} // verus!
