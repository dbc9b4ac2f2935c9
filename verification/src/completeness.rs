//! The jumps that a machine with `auto_transitions` keeps: from every
//! registered state to every registered state.

use vstd::prelude::*;
use crate::elements::{StateView, TransitionView};
use crate::event::{EventView, group_sources};
use crate::machine::{Machine, MachineView, event_names, jump_name, names_of};
use crate::registry::{arc, arcs, wildcard_all, wildcard_same};
use crate::states::{lemma_with_state_keeps, no_arguments};
use crate::support::{distinct, position, lemma_position_none, lemma_position_unique};

verus! {

/// Whether the events of `machine` are sound: no two have the same name,
/// and each is well formed.
pub open spec fn sound(machine: MachineView) -> bool {
    &&& distinct(event_names(machine.events))
    &&& forall|e: int| 0 <= e < machine.events.len() ==> (#[trigger] machine.events[e]).wf()
}

/// The jump from the state `from` to the state `to`: a transition without
/// callbacks and predicates whose source is `from` and whose destination is
/// `to`; only where `to` is written like the wildcard `=`, which as a
/// destination stands for the source, it leads back to `from`.
pub open spec fn jump(from: Seq<char>, to: Seq<char>) -> TransitionView {
    arc(from, Some(to), no_arguments())
}

/// Whether `machine` has a jump between every two registered states: for
/// every state `s` and every state `t`, the event `to_<t>` attempts the
/// jump from `s` to `t` on a model in `s`.
pub open spec fn complete(machine: MachineView) -> bool {
    forall|s: int, t: int|
        0 <= s < machine.states.len() && 0 <= t < machine.states.len() ==> (#[trigger] machine.candidates(
            jump_name(machine.states[t].name),
            #[trigger] machine.states[s].name,
        )).contains(jump(machine.states[s].name, machine.states[t].name))
}

/// A sequence that grows at its end holds what it held, and what it grew
/// by.
proof fn lemma_push_keeps(items: Seq<TransitionView>, item: TransitionView)
    ensures
        items.push(item).contains(item),
        forall|x: TransitionView| items.contains(x) ==> #[trigger] items.push(item).contains(x),
{
    assert(items.push(item)[items.len() as int] == item);
    assert forall|x: TransitionView| items.contains(x) implies #[trigger] items.push(item).contains(x) by {
        let k = choose|k: int| 0 <= k < items.len() && items[k] == x;
        assert(items.push(item)[k] == x);
    }
}

/// Registering a transition keeps an event well formed, puts the transition
/// behind the candidates from its source, and leaves the candidates from
/// every other state as they were.
pub proof fn lemma_with_transition(event: EventView, transition: TransitionView, state: Seq<char>)
    requires
        event.wf(),
    ensures
        event.with_transition(transition).wf(),
        event.with_transition(transition).name == event.name,
        event.with_transition(transition).candidates(state) == if state == transition.source {
            event.candidates(state).push(transition)
        } else {
            event.candidates(state)
        },
{
    let after = event.with_transition(transition);
    let sources = group_sources(event.groups);
    let sources_after = group_sources(after.groups);
    match position(sources, transition.source) {
        Some(g) => {
            assert(sources_after =~= sources);
            assert forall|a: int, t: int|
                0 <= a < after.groups.len() && 0 <= t < after.groups[a].transitions.len() implies (
            #[trigger] after.groups[a].transitions[t]).source == after.groups[a].source by {
                if a == g && t < event.groups[a].transitions.len() {
                    assert(after.groups[a].transitions[t] == event.groups[a].transitions[t]);
                } else if a != g {
                    assert(after.groups[a] == event.groups[a]);
                }
            }
            assert forall|a: int| 0 <= a < after.groups.len() implies (#[trigger] after.groups[a]).transitions.len()
                > 0 by {
                if a != g {
                    assert(after.groups[a] == event.groups[a]);
                }
            }
            if state == transition.source {
                assert(after.candidates(state) == event.candidates(state).push(transition));
            } else {
                match position(sources, state) {
                    Some(h) => {
                        assert(sources[h] == state);
                        assert(h != g);
                        assert(after.groups[h] == event.groups[h]);
                    },
                    None => {},
                }
            }
        },
        None => {
            let n = event.groups.len() as int;
            assert(sources_after =~= sources.push(transition.source));
            assert forall|a: int, b: int|
                0 <= a < sources_after.len() && 0 <= b < sources_after.len() && sources_after[a]
                    == sources_after[b] implies a == b by {
                if a < n && b == n {
                    assert(sources[a] == transition.source);
                }
                if b < n && a == n {
                    assert(sources[b] == transition.source);
                }
            }
            assert forall|a: int, t: int|
                0 <= a < after.groups.len() && 0 <= t < after.groups[a].transitions.len() implies (
            #[trigger] after.groups[a].transitions[t]).source == after.groups[a].source by {
                if a < n {
                    assert(after.groups[a] == event.groups[a]);
                }
            }
            assert forall|a: int| 0 <= a < after.groups.len() implies (#[trigger] after.groups[a]).transitions.len()
                > 0 by {
                if a < n {
                    assert(after.groups[a] == event.groups[a]);
                }
            }
            if state == transition.source {
                lemma_position_unique(sources_after, n);
                assert(event.candidates(state) =~= Seq::<TransitionView>::empty());
                assert(after.candidates(state) =~= event.candidates(state).push(transition));
            } else {
                match position(sources, state) {
                    Some(h) => {
                        assert(sources[h] == state);
                        assert(sources_after[h] == state);
                        lemma_position_unique(sources_after, h);
                        assert(after.groups[h] == event.groups[h]);
                    },
                    None => {
                        assert forall|a: int| 0 <= a < sources_after.len() implies sources_after[a] != state by {
                            if a < n {
                                assert(sources[a] == sources_after[a]);
                            }
                        }
                        lemma_position_none(sources_after, state);
                    },
                }
            }
        },
    }
}

/// Registering transitions keeps an event well formed, never takes a
/// candidate away, and makes each of the transitions a candidate from its
/// source.
pub proof fn lemma_with_transitions(event: EventView, transitions: Seq<TransitionView>)
    requires
        event.wf(),
    ensures
        event.with_transitions(transitions).wf(),
        event.with_transitions(transitions).name == event.name,
        forall|state: Seq<char>, x: TransitionView|
            event.candidates(state).contains(x) ==> #[trigger] event.with_transitions(transitions).candidates(
                state,
            ).contains(x),
        forall|i: int|
            0 <= i < transitions.len() ==> event.with_transitions(transitions).candidates(
                (#[trigger] transitions[i]).source,
            ).contains(transitions[i]),
    decreases transitions.len(),
{
    if transitions.len() > 0 {
        let earlier = transitions.drop_last();
        let last = transitions.last();
        lemma_with_transitions(event, earlier);
        let middle = event.with_transitions(earlier);
        let after = event.with_transitions(transitions);
        assert forall|state: Seq<char>, x: TransitionView| event.candidates(state).contains(x) implies (
        #[trigger] after.candidates(state).contains(x)) by {
            lemma_with_transition(middle, last, state);
            lemma_push_keeps(middle.candidates(state), last);
            assert(middle.candidates(state).contains(x));
        }
        assert forall|i: int| 0 <= i < transitions.len() implies after.candidates(
            (#[trigger] transitions[i]).source,
        ).contains(transitions[i]) by {
            lemma_with_transition(middle, last, transitions[i].source);
            lemma_push_keeps(middle.candidates(transitions[i].source), last);
            if i < earlier.len() {
                assert(earlier[i] == transitions[i]);
                assert(middle.candidates(transitions[i].source).contains(transitions[i]));
            }
        }
        lemma_with_transition(middle, last, last.source);
    }
}

/// Registering transitions under a trigger keeps the events sound, never
/// takes a candidate away from any event, and makes each of the transitions
/// a candidate from its source under the trigger.
pub proof fn lemma_registering_adds(machine: MachineView, trigger: Seq<char>, transitions: Seq<TransitionView>)
    requires
        sound(machine),
    ensures
        sound(machine.with_transitions(trigger, transitions)),
        machine.with_transitions(trigger, transitions) == (MachineView {
            events: machine.with_transitions(trigger, transitions).events,
            ..machine
        }),
        forall|event: Seq<char>, state: Seq<char>, x: TransitionView|
            machine.candidates(event, state).contains(x) ==> #[trigger] machine.with_transitions(
                trigger,
                transitions,
            ).candidates(event, state).contains(x),
        forall|i: int|
            0 <= i < transitions.len() ==> machine.with_transitions(trigger, transitions).candidates(
                trigger,
                (#[trigger] transitions[i]).source,
            ).contains(transitions[i]),
{
    let after = machine.with_transitions(trigger, transitions);
    let names = event_names(machine.events);
    let names_after = event_names(after.events);
    let blank = EventView { name: trigger, groups: Seq::empty() };
    let at: int = match position(names, trigger) {
        Some(e) => e,
        None => machine.events.len() as int,
    };
    let grown = match position(names, trigger) {
        Some(e) => machine.events[e].with_transitions(transitions),
        None => blank.with_transitions(transitions),
    };
    match position(names, trigger) {
        Some(e) => {
            assert(names[e] == trigger);
            lemma_with_transitions(machine.events[e], transitions);
            assert(names_after =~= names);
        },
        None => {
            assert(group_sources(blank.groups) =~= Seq::<Seq<char>>::empty());
            assert(blank.wf());
            lemma_with_transitions(blank, transitions);
            assert(names_after =~= names.push(trigger));
            let n = machine.events.len() as int;
            assert forall|a: int, b: int|
                0 <= a < names_after.len() && 0 <= b < names_after.len() && names_after[a]
                    == names_after[b] implies a == b by {
                if a < n && b == n {
                    assert(names[a] == trigger);
                }
                if b < n && a == n {
                    assert(names[b] == trigger);
                }
            }
        },
    }
    assert(after.events[at] == grown);
    assert(names_after[at] == trigger);
    lemma_position_unique(names_after, at);
    assert forall|e: int| 0 <= e < after.events.len() implies (#[trigger] after.events[e]).wf() by {
        if e != at {
            assert(after.events[e] == machine.events[e]);
        }
    }
    assert forall|event: Seq<char>, state: Seq<char>, x: TransitionView|
        machine.candidates(event, state).contains(x) implies #[trigger] after.candidates(event, state).contains(
        x,
    ) by {
        if machine.has_event(event) {
            let e = position(names, event)->Some_0;
            assert(names[e] == event);
            assert(names_after[e] == event);
            lemma_position_unique(names_after, e);
            if e != at {
                assert(after.events[e] == machine.events[e]);
            } else {
                assert(machine.events[e].candidates(state).contains(x));
                assert(grown.candidates(state).contains(x));
            }
        }
    }
    assert forall|i: int| 0 <= i < transitions.len() implies after.candidates(
        trigger,
        (#[trigger] transitions[i]).source,
    ).contains(transitions[i]) by {
        assert(grown.candidates(transitions[i].source).contains(transitions[i]));
    }
}

/// Jumps keep the events sound and the states as they are, never take a
/// candidate away, and add the jumps to the state called `name` and from
/// it.
pub proof fn lemma_jumps_add(machine: MachineView, name: Seq<char>, count: int)
    requires
        sound(machine),
        0 <= count <= machine.states.len(),
    ensures
        sound(machine.with_jumps(name, count)),
        machine.with_jumps(name, count) == (MachineView {
            events: machine.with_jumps(name, count).events,
            ..machine
        }),
        forall|event: Seq<char>, state: Seq<char>, x: TransitionView|
            machine.candidates(event, state).contains(x) ==> #[trigger] machine.with_jumps(name, count).candidates(
                event,
                state,
            ).contains(x),
        forall|j: int, s: int|
            0 <= j < count && 0 <= s < machine.states.len() && machine.states[j].name == name ==> (
            #[trigger] machine.with_jumps(name, count).candidates(
                jump_name(#[trigger] machine.states[j].name),
                machine.states[s].name,
            )).contains(jump(machine.states[s].name, name)),
        forall|j: int|
            0 <= j < count && machine.states[j].name != name && position(names_of(machine.states), name)
                is Some ==> machine.with_jumps(name, count).candidates(
                jump_name((#[trigger] machine.states[j]).name),
                name,
            ).contains(jump(name, machine.states[j].name)),
    decreases count,
{
    if count > 0 {
        lemma_jumps_add(machine, name, count - 1);
        let before = machine.with_jumps(name, count - 1);
        let after = machine.with_jumps(name, count);
        let names = names_of(machine.states);
        let other = names[count - 1];
        assert(other == machine.states[count - 1].name);
        let trigger = jump_name(other);
        let sources = if other == name {
            before.sources(seq![wildcard_all()])
        } else {
            before.sources(seq![name])
        };
        let added = arcs(sources, Some(if other == name { name } else { other }), no_arguments());
        assert(after == before.with_transitions(trigger, added));
        lemma_registering_adds(before, trigger, added);
        assert forall|event: Seq<char>, state: Seq<char>, x: TransitionView|
            machine.candidates(event, state).contains(x) implies #[trigger] after.candidates(event, state).contains(
            x,
        ) by {
            assert(before.candidates(event, state).contains(x));
        }
        assert forall|j: int, s: int|
            0 <= j < count && 0 <= s < machine.states.len() && machine.states[j].name == name implies (
        #[trigger] after.candidates(jump_name(#[trigger] machine.states[j].name), machine.states[s].name)).contains(
            jump(machine.states[s].name, name),
        ) by {
            if other == name {
                assert(sources == names);
                assert(added[s] == jump(names[s], name));
                assert(after.candidates(trigger, added[s].source).contains(added[s]));
            } else {
                assert(j < count - 1);
                let had = before.candidates(jump_name(machine.states[j].name), machine.states[s].name);
                assert(had.contains(jump(machine.states[s].name, name)));
            }
        }
        assert forall|j: int|
            0 <= j < count && machine.states[j].name != name && position(names, name) is Some implies after.candidates(
            jump_name((#[trigger] machine.states[j]).name),
            name,
        ).contains(jump(name, machine.states[j].name)) by {
            if j == count - 1 {
                if name == wildcard_all() {
                    let at = position(names, name)->Some_0;
                    assert(names[at] == name);
                    assert(sources == names);
                    assert(added[at] == jump(name, other));
                    assert(after.candidates(trigger, added[at].source).contains(added[at]));
                } else {
                    assert(seq![name] != seq![wildcard_all()]) by {
                        if seq![name] == seq![wildcard_all()] {
                            assert(seq![name][0] == seq![wildcard_all()][0]);
                        }
                    }
                    assert(sources == seq![name]);
                    assert(added[0] == jump(name, other));
                    assert(after.candidates(trigger, added[0].source).contains(added[0]));
                }
            } else {
                assert(before.candidates(jump_name(machine.states[j].name), name).contains(
                    jump(name, machine.states[j].name),
                ));
            }
        }
    }
}

/// Auto-transition completeness: in a machine with `auto_transitions`,
/// registering a state keeps the jumps complete. So after any sequence of
/// registrations there is, for every two registered states `s` and `t`, the
/// jump from `s` to `t` under `to_<t>`.
pub proof fn law_jumps_stay_complete(machine: MachineView, state: StateView)
    requires
        machine.auto_transitions,
        distinct(names_of(machine.states)),
        sound(machine),
        complete(machine),
    ensures
        distinct(names_of(machine.with_state(state).states)),
        sound(machine.with_state(state)),
        complete(machine.with_state(state)),
{
    let registered = MachineView { states: machine.states_with(state), ..machine };
    let names = names_of(machine.states);
    let names_after = names_of(registered.states);
    let count = registered.states.len() as int;
    let place: int = match position(names, state.name) {
        Some(i) => i,
        None => machine.states.len() as int,
    };
    match position(names, state.name) {
        Some(i) => {
            assert(names[i] == state.name);
            assert(names_after =~= names);
        },
        None => {
            let n = machine.states.len() as int;
            assert(names_after =~= names.push(state.name));
            assert forall|a: int, b: int|
                0 <= a < names_after.len() && 0 <= b < names_after.len() && names_after[a]
                    == names_after[b] implies a == b by {
                if a < n && b == n {
                    assert(names[a] == state.name);
                }
                if b < n && a == n {
                    assert(names[b] == state.name);
                }
            }
        },
    }
    assert(names_after[place] == state.name);
    lemma_position_unique(names_after, place);
    lemma_jumps_add(registered, state.name, count);
    let after = machine.with_state(state);
    assert(after == registered.with_jumps(state.name, count));
    assert(after.states == registered.states);
    assert forall|s: int, t: int| 0 <= s < after.states.len() && 0 <= t < after.states.len() implies (
    #[trigger] after.candidates(jump_name(after.states[t].name), #[trigger] after.states[s].name)).contains(
        jump(after.states[s].name, after.states[t].name),
    ) by {
        let from = registered.states[s].name;
        let to = registered.states[t].name;
        assert(from == names_after[s]);
        assert(to == names_after[t]);
        if to == state.name {
            assert(registered.states[t].name == state.name);
        } else if from == state.name {
            assert(registered.states[t].name != state.name);
        } else {
            // Both states were registered before.
            assert(s != place && t != place);
            assert(s < machine.states.len() && t < machine.states.len());
            assert(machine.states[s].name == from);
            assert(machine.states[t].name == to);
            assert(machine.candidates(jump_name(machine.states[t].name), machine.states[s].name).contains(
                jump(from, to),
            ));
            assert(registered.candidates(jump_name(to), from) == machine.candidates(jump_name(to), from));
            assert(registered.candidates(jump_name(to), from).contains(jump(from, to)));
        }
    }
}

/// A machine without states has every jump there can be.
pub proof fn law_jumps_start_complete(machine: MachineView)
    requires
        machine.states.len() == 0,
        machine.events.len() == 0,
    ensures
        distinct(names_of(machine.states)),
        sound(machine),
        complete(machine),
{
}

/// Auto-transition completeness over any sequence of registrations: in a
/// machine with `auto_transitions` whose jumps are complete, they are still
/// complete after `states` were registered.
pub proof fn law_jumps_complete_after_registrations(machine: MachineView, states: Seq<StateView>)
    requires
        machine.auto_transitions,
        distinct(names_of(machine.states)),
        sound(machine),
        complete(machine),
    ensures
        machine.with_states(states).auto_transitions,
        distinct(names_of(machine.with_states(states).states)),
        sound(machine.with_states(states)),
        complete(machine.with_states(states)),
    decreases states.len(),
{
    if states.len() > 0 {
        law_jumps_complete_after_registrations(machine, states.drop_last());
        let middle = machine.with_states(states.drop_last());
        law_jumps_stay_complete(middle, states.last());
        lemma_with_state_keeps(middle, states.last());
    }
}

/// Where the jumps are complete, the event `to_<t>` has, from every
/// registered state `s`, a transition that leads to `t`. The one state that
/// no jump leads to is a state written like the wildcard `=`: as a
/// destination that name stands for the source, so the jump leads back to
/// `s`.
pub proof fn law_jump_leads_there(machine: MachineView, s: int, t: int)
    requires
        complete(machine),
        0 <= s < machine.states.len(),
        0 <= t < machine.states.len(),
    ensures
        exists|k: int|
            0 <= k < machine.candidates(jump_name(machine.states[t].name), machine.states[s].name).len() && (
            #[trigger] machine.candidates(jump_name(machine.states[t].name), machine.states[s].name)[k]).source
                == machine.states[s].name && machine.candidates(
                jump_name(machine.states[t].name),
                machine.states[s].name,
            )[k].dest == Some(
                if machine.states[t].name == wildcard_same() {
                    machine.states[s].name
                } else {
                    machine.states[t].name
                },
            ),
{
    let offered = machine.candidates(jump_name(machine.states[t].name), machine.states[s].name);
    let wanted = jump(machine.states[s].name, machine.states[t].name);
    assert(offered.contains(wanted));
    let k = choose|k: int| 0 <= k < offered.len() && offered[k] == wanted;
    assert(offered[k].source == machine.states[s].name);
}

impl Machine {
    /// A well-formed machine has states of distinct names and sound events.
    pub proof fn lemma_well_formed_is_sound(&self)
        requires
            self.wf(),
        ensures
            distinct(names_of(self@.states)),
            sound(self@),
    {
        assert forall|e: int| 0 <= e < self@.events.len() implies (#[trigger] self@.events[e]).wf() by {
            assert(self.events@[e].wf());
        }
    }
}

/// Auto-transition completeness of a machine: a well-formed machine with
/// `auto_transitions` whose jumps are complete has complete jumps after any
/// registration of states.
pub proof fn law_machine_keeps_jumps_complete(machine: &Machine, states: Seq<StateView>)
    requires
        machine.wf(),
        machine@.auto_transitions,
        complete(machine@),
    ensures
        complete(machine@.with_states(states)),
{
    machine.lemma_well_formed_is_sound();
    law_jumps_complete_after_registrations(machine@, states);
}

} // verus!
