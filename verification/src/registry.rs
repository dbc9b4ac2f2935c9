//! Registration: how transitions enter the machine.

use vstd::prelude::*;
use vstd::string::StringExecFns;
use crate::elements::{
    ConditionFunction,
    PotentialConditions,
    PotentialTriggers,
    Transition,
    TransitionParameters,
    TransitionTriggerType,
    TransitionView,
    TriggerFunction,
    copy_triggers,
    optional_text,
    trigger_names,
};
use crate::error::{Error, ErrorView, outcome_view};
use crate::event::{Event, EventView};
use crate::machine::{Machine, MachineView, event_names, event_views, names_of};
use crate::support::{position, texts, lemma_position_unique};

verus! {

/// The source that stands for every registered state.
pub open spec fn wildcard_all() -> Seq<char> {
    "*"@
}

/// The destination that stands for the source of each transition.
pub open spec fn wildcard_same() -> Seq<char> {
    "="@
}

/// The callbacks and predicates that a registration gives to each of its
/// transitions.
pub struct Arguments {
    pub conditions: Seq<Seq<char>>,
    pub unless: Seq<Seq<char>>,
    pub before: Seq<Seq<char>>,
    pub after: Seq<Seq<char>>,
    pub prepare: Seq<Seq<char>>,
}

/// The identifiers of a sequence of predicates.
pub open(crate) spec fn condition_names(functions: Seq<ConditionFunction>) -> Seq<Seq<char>> {
    Seq::new(functions.len(), |i: int| functions[i]@)
}

/// The guards that pass when the predicates `functions` answer `target`.
pub open spec fn guards_of(functions: Seq<Seq<char>>, target: bool) -> Seq<(Seq<char>, bool)> {
    Seq::new(functions.len(), |i: int| (functions[i], target))
}

/// The transition that a registration makes for the source `source`: the
/// destination is `source` itself where `dest` is the wildcard, the
/// predicates of `conditions` have to answer `true` and those of `unless`
/// `false`.
pub open spec fn arc(source: Seq<char>, dest: Option<Seq<char>>, arguments: Arguments) -> TransitionView {
    TransitionView {
        source,
        dest: match dest {
            Some(d) => if d == wildcard_same() {
                Some(source)
            } else {
                Some(d)
            },
            None => None,
        },
        conditions: guards_of(arguments.conditions, true),
        unless: guards_of(arguments.unless, false),
        before: arguments.before,
        after: arguments.after,
        prepare: arguments.prepare,
    }
}

/// One transition for each of `sources`, in their order.
pub open spec fn arcs(sources: Seq<Seq<char>>, dest: Option<Seq<char>>, arguments: Arguments) -> Seq<
    TransitionView,
> {
    Seq::new(sources.len(), |i: int| arc(sources[i], dest, arguments))
}

/// The first of `names` that is not among `states`.
pub open spec fn first_unknown(states: Seq<Seq<char>>, names: Seq<Seq<char>>) -> Option<Seq<char>>
    decreases names.len(),
{
    if names.len() == 0 {
        None
    } else {
        match first_unknown(states, names.drop_last()) {
            Some(name) => Some(name),
            None => if position(states, names.last()) is None {
                Some(names.last())
            } else {
                None
            },
        }
    }
}

impl EventView {
    /// The event with each of `transitions` registered, in their order.
    pub open spec fn with_transitions(self, transitions: Seq<TransitionView>) -> EventView
        decreases transitions.len(),
    {
        if transitions.len() == 0 {
            self
        } else {
            self.with_transitions(transitions.drop_last()).with_transition(transitions.last())
        }
    }
}

impl MachineView {
    /// The sources that `source` stands for: every registered state for the
    /// wildcard alone, the names themselves otherwise.
    pub open spec fn sources(self, source: Seq<Seq<char>>) -> Seq<Seq<char>> {
        if source == seq![wildcard_all()] {
            names_of(self.states)
        } else {
            source
        }
    }

    /// Why the registration of transitions from `source` to `dest` under
    /// `trigger` is refused, if it is: the trigger is named like the model's
    /// state attribute; or a source, or else the destination, is not a
    /// registered state (the wildcards are no states).
    pub open spec fn refusal(self, trigger: Seq<char>, source: Seq<Seq<char>>, dest: Option<Seq<char>>) -> Option<
        ErrorView,
    > {
        if trigger == self.model_attribute {
            Some(ErrorView::TriggerNameError(trigger))
        } else if source != seq![wildcard_all()] && first_unknown(names_of(self.states), source) is Some {
            Some(ErrorView::UnknownStateError(first_unknown(names_of(self.states), source)->Some_0))
        } else if dest is Some && dest->Some_0 != wildcard_same() && !self.has_state(dest->Some_0) {
            Some(ErrorView::UnknownStateError(dest->Some_0))
        } else {
            None
        }
    }

    /// The events after `transitions` were registered under `trigger`: they
    /// join the event called `trigger`, which becomes the last event if it
    /// did not exist.
    pub open spec fn events_with(self, trigger: Seq<char>, transitions: Seq<TransitionView>) -> Seq<EventView> {
        match position(event_names(self.events), trigger) {
            Some(e) => self.events.update(e, self.events[e].with_transitions(transitions)),
            None => self.events.push(
                (EventView { name: trigger, groups: Seq::empty() }).with_transitions(transitions),
            ),
        }
    }

    /// The machine after `transitions` were registered under `trigger`.
    pub open spec fn with_transitions(self, trigger: Seq<char>, transitions: Seq<TransitionView>) -> MachineView {
        MachineView { events: self.events_with(trigger, transitions), ..self }
    }

    /// The machine after the registration of one transition under `trigger`
    /// for each of the sources that `source` stands for.
    pub open spec fn with_registration(
        self,
        trigger: Seq<char>,
        source: Seq<Seq<char>>,
        dest: Option<Seq<char>>,
        arguments: Arguments,
    ) -> MachineView {
        self.with_transitions(trigger, arcs(self.sources(source), dest, arguments))
    }
}

/// Registering a transition whose states are among `states` keeps every
/// state of the event among `states`.
pub proof fn lemma_with_transition_within(event: EventView, transition: TransitionView, states: Seq<Seq<char>>)
    requires
        event.within(states),
        transition.within(states),
    ensures
        event.with_transition(transition).within(states),
{
    let after = event.with_transition(transition);
    assert forall|g: int, t: int|
        0 <= g < after.groups.len() && 0 <= t < after.groups[g].transitions.len() implies (
    #[trigger] after.groups[g].transitions[t]).within(states) by {
        if g < event.groups.len() && t < event.groups[g].transitions.len() {
            assert(event.groups[g].transitions[t].within(states));
        }
    }
}

/// Registering a transition keeps the event's name.
pub proof fn lemma_with_transitions_name(event: EventView, transitions: Seq<TransitionView>)
    ensures
        event.with_transitions(transitions).name == event.name,
    decreases transitions.len(),
{
    if transitions.len() > 0 {
        lemma_with_transitions_name(event, transitions.drop_last());
    }
}

/// The text of an optional string slice.
pub open spec fn optional_slice(text: Option<&str>) -> Option<Seq<char>> {
    match text {
        Some(t) => Some(t@),
        None => None,
    }
}

impl Machine {
    /// Registers one transition under `trigger` for each source.
    ///
    /// `source` is a list of state names, or the wildcard `*` alone for
    /// every registered state. `dest` is a state name, the wildcard `=` for
    /// the source itself, or `None` for an internal transition. The
    /// predicates of `conditions` have to answer `true` and those of `unless`
    /// `false` for a transition to fire.
    ///
    /// The registration is refused, and the machine left as it is, when
    /// `trigger` is the name of the model's state attribute
    /// ([`Error::TriggerNameError`]) and when a source or the destination is
    /// no registered state ([`Error::UnknownStateError`] with the first such
    /// name).
    pub fn add_transition(
        &mut self,
        trigger: &str,
        source: &Vec<String>,
        dest: Option<&str>,
        conditions: &Vec<ConditionFunction>,
        unless: &Vec<ConditionFunction>,
        before: &Vec<TriggerFunction>,
        after: &Vec<TriggerFunction>,
        prepare: &Vec<TriggerFunction>,
    ) -> (r: Result<(), Error>)
        requires
            old(self).wf(),
        ensures
            final(self).wf(),
            match old(self)@.refusal(trigger@, texts(source@), optional_slice(dest)) {
                Some(error) => outcome_view(r) == Err::<(), ErrorView>(error) && final(self)@ == old(self)@,
                None => r is Ok && final(self)@ == old(self)@.with_registration(
                    trigger@,
                    texts(source@),
                    optional_slice(dest),
                    Arguments {
                        conditions: condition_names(conditions@),
                        unless: condition_names(unless@),
                        before: trigger_names(before@),
                        after: trigger_names(after@),
                        prepare: trigger_names(prepare@),
                    },
                ),
            },
    {
        let ghost states = names_of(self@.states);
        let ghost arguments = Arguments {
            conditions: condition_names(conditions@),
            unless: condition_names(unless@),
            before: trigger_names(before@),
            after: trigger_names(after@),
            prepare: trigger_names(prepare@),
        };
        let name = String::from_str(trigger);
        if name == self.model_attribute {
            return Err(Error::TriggerNameError(name));
        }
        let all = String::from_str("*");
        let same = String::from_str("=");
        let wildcard = source.len() == 1 && source[0] == all;
        proof {
            if wildcard {
                assert(texts(source@) =~= seq![wildcard_all()]);
            } else if texts(source@) == seq![wildcard_all()] {
                assert(texts(source@)[0] == wildcard_all());
            }
        }
        let mut sources: Vec<String> = Vec::new();
        if wildcard {
            let mut i: usize = 0;
            while i < self.states.len()
                invariant
                    i <= self.states@.len(),
                    sources@.len() == i,
                    forall|k: int| 0 <= k < i ==> sources@[k]@ == names_of(self@.states)[k],
                decreases self.states@.len() - i,
            {
                sources.push(self.states[i].name.clone());
                i = i + 1;
            }
            proof {
                assert(texts(sources@) =~= names_of(self@.states));
            }
        } else {
            let mut i: usize = 0;
            while i < source.len()
                invariant
                    self.wf(),
                    states == names_of(self@.states),
                    i <= source@.len(),
                    sources@.len() == i,
                    forall|k: int| 0 <= k < i ==> sources@[k]@ == source@[k]@,
                    first_unknown(states, texts(source@).take(i as int)) is None,
                    texts(source@) != seq![wildcard_all()],
                    name@ == trigger@,
                    name@ != self@.model_attribute,
                decreases source@.len() - i,
            {
                proof {
                    assert(texts(source@).take(i + 1).drop_last() =~= texts(source@).take(i as int));
                    assert(texts(source@).take(i + 1).last() == source@[i as int]@);
                }
                match self.find_state(&source[i]) {
                    Some(_) => {},
                    None => {
                        proof {
                            assert(first_unknown(states, texts(source@).take(i + 1)) == Some(
                                source@[i as int]@,
                            ));
                            lemma_first_unknown_prefix(states, texts(source@), i + 1);
                        }
                        return Err(Error::UnknownStateError(source[i].clone()));
                    },
                }
                sources.push(source[i].clone());
                i = i + 1;
            }
            proof {
                assert(texts(source@).take(source@.len() as int) =~= texts(source@));
                assert(texts(sources@) =~= texts(source@));
            }
        }
        let target: Option<String> = match dest {
            Some(d) => {
                let d = String::from_str(d);
                if d != same {
                    match self.find_state(&d) {
                        Some(_) => {},
                        None => {
                            return Err(Error::UnknownStateError(d));
                        },
                    }
                }
                Some(d)
            },
            None => None,
        };
        let ghost planned = arcs(texts(sources@), optional_slice(dest), arguments);
        proof {
            assert forall|k: int| 0 <= k < planned.len() implies (#[trigger] planned[k]).within(states) by {
                if !wildcard {
                    lemma_first_unknown_none(states, texts(source@), k);
                } else {
                    lemma_position_unique(states, k);
                }
            }
        }

        // The event that the transitions join.
        let at = match self.find_event(&name) {
            Some(e) => e,
            None => {
                let event = Event::new(name.clone());
                self.events.push(event);
                proof {
                    let names = event_names(self@.events);
                    let n = old(self).events@.len() as int;
                    assert(self@.events =~= old(self)@.events.push(
                        EventView { name: trigger@, groups: Seq::empty() },
                    ));
                    assert(names =~= event_names(old(self)@.events).push(trigger@));
                    assert forall|a: int, b: int|
                        0 <= a < names.len() && 0 <= b < names.len() && names[a] == names[b] implies a
                        == b by {
                        if a < n && b == n {
                            assert(event_names(old(self)@.events)[a] == trigger@);
                        }
                        if b < n && a == n {
                            assert(event_names(old(self)@.events)[b] == trigger@);
                        }
                    }
                    assert forall|e: int| 0 <= e < self.events@.len() implies (#[trigger] self.events@[e]).wf()
                        && self.events@[e].registered_in(self) && self.events@[e]@.name
                        != self.attribute() by {
                        if e < n {
                            assert(self.events@[e] == old(self).events@[e]);
                        }
                    }
                    assert(self.states@ == old(self).states@);
                    assert(self.models@ == old(self).models@);
                }
                self.events.len() - 1
            },
        };
        let ghost base = self@.events;
        let ghost start = self@.events[at as int];
        proof {
            if old(self)@.has_event(trigger@) {
                assert(base == old(self)@.events);
            } else {
                lemma_position_unique(event_names(base), at as int);
            }
            assert(start.with_transitions(planned.take(0)) == start);
        }
        let mut i: usize = 0;
        while i < sources.len()
            invariant
                i <= sources@.len(),
                at < self.events@.len(),
                base.len() == self.events@.len(),
                states == names_of(self@.states),
                planned == arcs(texts(sources@), optional_slice(dest), arguments),
                arguments == (Arguments {
                    conditions: condition_names(conditions@),
                    unless: condition_names(unless@),
                    before: trigger_names(before@),
                    after: trigger_names(after@),
                    prepare: trigger_names(prepare@),
                }),
                optional_text(target) == optional_slice(dest),
                same@ == wildcard_same(),
                forall|k: int| 0 <= k < planned.len() ==> (#[trigger] planned[k]).within(states),
                self@.events == base.update(at as int, start.with_transitions(planned.take(i as int))),
                self.events@[at as int].wf(),
                self.events@[at as int]@.within(states),
                self@ == (MachineView { events: self@.events, ..old(self)@ }),
                self.states@ == old(self).states@,
                self.models@ == old(self).models@,
                self.queue@ == old(self).queue@,
                self.initial == old(self).initial,
            decreases sources@.len() - i,
        {
            let from = sources[i].clone();
            let to = match &target {
                Some(d) => if *d == same {
                    Some(from.clone())
                } else {
                    Some(d.clone())
                },
                None => None,
            };
            let transition = Transition::new(
                from,
                to,
                PotentialConditions::new(conditions, true),
                PotentialConditions::new(unless, false),
                PotentialTriggers::new(copy_triggers(before)),
                PotentialTriggers::new(copy_triggers(after)),
                PotentialTriggers::new(copy_triggers(prepare)),
            );
            proof {
                assert(transition@.conditions =~= guards_of(arguments.conditions, true));
                assert(transition@.unless =~= guards_of(arguments.unless, false));
                assert(transition@ == planned[i as int]);
                assert(planned.take(i + 1).drop_last() =~= planned.take(i as int));
                assert(planned.take(i + 1).last() == planned[i as int]);
                lemma_with_transition_within(self.events@[at as int]@, transition@, states);
            }
            let ghost events_before = self.events@;
            proof {
                assert(event_views(events_before)[at as int] == events_before[at as int]@);
                assert(events_before[at as int]@ == start.with_transitions(planned.take(i as int)));
            }
            self.events[at].add_transition(transition);
            proof {
                assert(self.events@ =~= events_before.update(at as int, self.events@[at as int]));
                assert(start.with_transitions(planned.take(i + 1)) == start.with_transitions(
                    planned.take(i as int),
                ).with_transition(planned[i as int]));
                assert(self.events@[at as int]@ == start.with_transitions(planned.take(i + 1)));
                assert forall|e: int| 0 <= e < self@.events.len() && e != at as int implies self@.events[e]
                    == base[e] by {
                    assert(self.events@[e] == events_before[e]);
                    assert(event_views(events_before)[e] == base.update(
                        at as int,
                        start.with_transitions(planned.take(i as int)),
                    )[e]);
                }
                assert(self@.events =~= base.update(
                    at as int,
                    start.with_transitions(planned.take(i + 1)),
                ));
            }
            i = i + 1;
        }
        proof {
            assert(planned.take(sources@.len() as int) =~= planned);
            lemma_with_transitions_name(start, planned);
            if old(self)@.has_event(trigger@) {
                assert(self@.events == old(self)@.events_with(trigger@, planned));
            } else {
                assert(base =~= old(self)@.events.push(EventView { name: trigger@, groups: Seq::empty() }));
                assert(self@.events =~= old(self)@.events_with(trigger@, planned));
            }
            assert(event_names(self@.events) =~= event_names(base));
            assert forall|e: int| 0 <= e < self.events@.len() implies (#[trigger] self.events@[e]).wf()
                && self.events@[e].registered_in(self) && self.events@[e]@.name != self.attribute() by {
                if e != at as int {
                    assert(self@.events[e] == base[e]);
                }
            }
        }
        Ok(())
    }
}

/// A name that is missing among the first names is the first unknown of the
/// whole list if no earlier one is.
pub proof fn lemma_first_unknown_prefix(states: Seq<Seq<char>>, names: Seq<Seq<char>>, count: int)
    requires
        0 <= count <= names.len(),
        first_unknown(states, names.take(count)) is Some,
    ensures
        first_unknown(states, names) == first_unknown(states, names.take(count)),
    decreases names.len() - count,
{
    if count < names.len() {
        assert(names.take(count + 1).drop_last() =~= names.take(count));
        lemma_first_unknown_prefix(states, names, count + 1);
    } else {
        assert(names.take(count) =~= names);
    }
}

/// Where no name is unknown, every name is among the states.
pub proof fn lemma_first_unknown_none(states: Seq<Seq<char>>, names: Seq<Seq<char>>, at: int)
    requires
        first_unknown(states, names) is None,
        0 <= at < names.len(),
    ensures
        position(states, names[at]) is Some,
    decreases names.len(),
{
    if at < names.len() - 1 {
        lemma_first_unknown_none(states, names.drop_last(), at);
    }
}

impl Machine {
    /// Why the registration of transitions from `source` to `dest` under
    /// `trigger` would be refused, if it would.
    pub fn refuses(&self, trigger: &String, source: &Vec<String>, dest: &Option<String>) -> (r: Option<Error>)
        requires
            self.wf(),
        ensures
            r is Some <==> self@.refusal(trigger@, texts(source@), optional_text(*dest)) is Some,
            r is Some ==> r->Some_0@ == self@.refusal(trigger@, texts(source@), optional_text(*dest))->Some_0,
    {
        let ghost states = names_of(self@.states);
        if *trigger == self.model_attribute {
            return Some(Error::TriggerNameError(trigger.clone()));
        }
        let all = String::from_str("*");
        let same = String::from_str("=");
        let wildcard = source.len() == 1 && source[0] == all;
        proof {
            if wildcard {
                assert(texts(source@) =~= seq![wildcard_all()]);
            } else if texts(source@) == seq![wildcard_all()] {
                assert(texts(source@)[0] == wildcard_all());
            }
        }
        if !wildcard {
            let mut i: usize = 0;
            while i < source.len()
                invariant
                    self.wf(),
                    states == names_of(self@.states),
                    i <= source@.len(),
                    first_unknown(states, texts(source@).take(i as int)) is None,
                    texts(source@) != seq![wildcard_all()],
                    trigger@ != self@.model_attribute,
                decreases source@.len() - i,
            {
                proof {
                    assert(texts(source@).take(i + 1).drop_last() =~= texts(source@).take(i as int));
                    assert(texts(source@).take(i + 1).last() == source@[i as int]@);
                }
                if self.find_state(&source[i]).is_none() {
                    proof {
                        assert(first_unknown(states, texts(source@).take(i + 1)) == Some(source@[i as int]@));
                        lemma_first_unknown_prefix(states, texts(source@), i + 1);
                    }
                    return Some(Error::UnknownStateError(source[i].clone()));
                }
                i = i + 1;
            }
            proof {
                assert(texts(source@).take(source@.len() as int) =~= texts(source@));
            }
        }
        match dest {
            Some(d) => {
                if *d != same && self.find_state(d).is_none() {
                    return Some(Error::UnknownStateError(d.clone()));
                }
            },
            None => {},
        }
        None
    }
}

/// One registration of transitions, as mathematical data.
pub struct Registration {
    pub trigger: Seq<char>,
    pub source: Seq<Seq<char>>,
    pub dest: Option<Seq<char>>,
    pub arguments: Arguments,
}

impl View for TransitionParameters {
    type V = Registration;

    open(crate) spec fn view(&self) -> Registration {
        Registration {
            trigger: self.trigger@,
            source: texts(self.source@),
            dest: optional_text(self.dest),
            arguments: Arguments {
                conditions: condition_names(self.conditions@),
                unless: condition_names(self.unless@),
                before: trigger_names(self.before@),
                after: trigger_names(self.after@),
                prepare: trigger_names(self.prepare@),
            },
        }
    }
}

/// The registrations of a sequence, as mathematical data.
pub open(crate) spec fn registrations(list: Seq<TransitionParameters>) -> Seq<Registration> {
    Seq::new(list.len(), |i: int| list[i]@)
}

impl MachineView {
    /// The machine after each of `list` was registered, in their order.
    pub open spec fn with_registrations(self, list: Seq<Registration>) -> MachineView
        decreases list.len(),
    {
        if list.len() == 0 {
            self
        } else {
            self.with_registrations(list.drop_last()).with_registration(
                list.last().trigger,
                list.last().source,
                list.last().dest,
                list.last().arguments,
            )
        }
    }

    /// Why `list` is refused, if it is: the reason for the first
    /// registration that is refused.
    pub open spec fn registrations_refusal(self, list: Seq<Registration>) -> Option<ErrorView>
        decreases list.len(),
    {
        if list.len() == 0 {
            None
        } else {
            match self.registrations_refusal(list.drop_last()) {
                Some(error) => Some(error),
                None => self.refusal(list.last().trigger, list.last().source, list.last().dest),
            }
        }
    }
}

/// A refusal among the first registrations is the refusal of the whole
/// list.
pub proof fn lemma_registrations_refusal_prefix(machine: MachineView, list: Seq<Registration>, count: int)
    requires
        0 <= count <= list.len(),
        machine.registrations_refusal(list.take(count)) is Some,
    ensures
        machine.registrations_refusal(list) == machine.registrations_refusal(list.take(count)),
    decreases list.len() - count,
{
    if count < list.len() {
        assert(list.take(count + 1).drop_last() =~= list.take(count));
        lemma_registrations_refusal_prefix(machine, list, count + 1);
    } else {
        assert(list.take(count) =~= list);
    }
}

/// Where no registration is refused, each alone is not refused.
pub proof fn lemma_registrations_refusal_none(machine: MachineView, list: Seq<Registration>, at: int)
    requires
        machine.registrations_refusal(list) is None,
        0 <= at < list.len(),
    ensures
        machine.refusal(list[at].trigger, list[at].source, list[at].dest) is None,
    decreases list.len(),
{
    if at < list.len() - 1 {
        lemma_registrations_refusal_none(machine, list.drop_last(), at);
    }
}

/// Registrations change only the events.
pub proof fn lemma_with_registrations_keeps(machine: MachineView, list: Seq<Registration>)
    ensures
        machine.with_registrations(list) == (MachineView {
            events: machine.with_registrations(list).events,
            ..machine
        }),
    decreases list.len(),
{
    if list.len() > 0 {
        lemma_with_registrations_keeps(machine, list.drop_last());
    }
}

impl Machine {
    /// Registers each of `transitions` as [`Machine::add_transition`] does,
    /// in their order. Where one of them would be refused, nothing is
    /// registered, and the result is the failure of the first such
    /// registration.
    pub fn add_transitions(&mut self, transitions: &Vec<TransitionParameters>) -> (r: Result<(), Error>)
        requires
            old(self).wf(),
        ensures
            final(self).wf(),
            match old(self)@.registrations_refusal(registrations(transitions@)) {
                Some(error) => outcome_view(r) == Err::<(), ErrorView>(error) && final(self)@ == old(self)@,
                None => r is Ok && final(self)@ == old(self)@.with_registrations(registrations(transitions@)),
            },
    {
        let ghost before = self@;
        let ghost list = registrations(transitions@);
        let mut i: usize = 0;
        while i < transitions.len()
            invariant
                i <= transitions@.len(),
                self.wf(),
                self@ == before,
                list == registrations(transitions@),
                self@.registrations_refusal(list.take(i as int)) is None,
            decreases transitions@.len() - i,
        {
            let entry = &transitions[i];
            proof {
                assert(list.take(i + 1).drop_last() =~= list.take(i as int));
                assert(list.take(i + 1).last() == entry@);
            }
            match self.refuses(&entry.trigger, &entry.source, &entry.dest) {
                Some(error) => {
                    proof {
                        assert(self@.registrations_refusal(list.take(i + 1)) is Some);
                        lemma_registrations_refusal_prefix(self@, list, i + 1);
                    }
                    return Err(error);
                },
                None => {},
            }
            i = i + 1;
        }
        proof {
            assert(list.take(transitions@.len() as int) =~= list);
        }
        let mut i: usize = 0;
        while i < transitions.len()
            invariant
                i <= transitions@.len(),
                self.wf(),
                list == registrations(transitions@),
                before.registrations_refusal(list) is None,
                self@ == before.with_registrations(list.take(i as int)),
            decreases transitions@.len() - i,
        {
            let entry = &transitions[i];
            let dest = match &entry.dest {
                Some(d) => Some(d.as_str()),
                None => None,
            };
            proof {
                assert(list.take(i + 1).drop_last() =~= list.take(i as int));
                assert(list.take(i + 1).last() == entry@);
                lemma_registrations_refusal_none(before, list, i as int);
                lemma_with_registrations_keeps(before, list.take(i as int));
                assert(optional_slice(dest) == optional_text(entry.dest));
            }
            let added = self.add_transition(
                entry.trigger.as_str(),
                &entry.source,
                dest,
                &entry.conditions,
                &entry.unless,
                &entry.before,
                &entry.after,
                &entry.prepare,
            );
            proof {
                assert(added is Ok);
            }
            i = i + 1;
        }
        proof {
            assert(list.take(transitions@.len() as int) =~= list);
        }
        Ok(())
    }
}

impl Machine {
    /// Adds the callback `func` to every transition of the event called
    /// `trigger`, at the end of those that run at the moment `kind`. Where
    /// the machine has no such event the result is
    /// [`Error::MachineEventAttributeError`] with the event and the
    /// machine's name, and the machine is as it was.
    pub fn add_callback_to_event(&mut self, trigger: &str, kind: TransitionTriggerType, func: TriggerFunction) -> (r:
        Result<(), Error>)
        requires
            old(self).wf(),
        ensures
            final(self).wf(),
            if old(self)@.has_event(trigger@) {
                r is Ok && final(self)@ == (MachineView {
                    events: old(self)@.events.update(
                        position(event_names(old(self)@.events), trigger@)->Some_0,
                        old(self)@.event_named(trigger@).with_callback(kind, func@),
                    ),
                    ..old(self)@
                })
            } else {
                outcome_view(r) == Err::<(), ErrorView>(
                    ErrorView::MachineEventAttributeError(trigger@, old(self)@.name),
                ) && final(self)@ == old(self)@
            },
    {
        let ghost before = self@;
        let name = String::from_str(trigger);
        match self.find_event(&name) {
            None => Err(Error::MachineEventAttributeError(name, self.name.clone())),
            Some(at) => {
                let ghost events_before = self.events@;
                let ghost machine_before = *self;
                self.events[at].add_callback(kind, func);
                proof {
                    assert(self.events@ =~= events_before.update(at as int, self.events@[at as int]));
                    assert(self@.events =~= before.events.update(
                        at as int,
                        before.events[at as int].with_callback(kind, func@),
                    ));
                    assert(event_names(self@.events) =~= event_names(before.events));
                    assert(self.states@ == old(self).states@);
                    assert(self.models@ == old(self).models@);
                    assert(events_before[at as int].registered_in(&machine_before));
                    assert forall|e: int| 0 <= e < self.events@.len() implies (#[trigger] self.events@[e]).wf()
                        && self.events@[e].registered_in(self) && self.events@[e]@.name
                        != self.attribute() by {
                        if e != at as int {
                            assert(self.events@[e] == events_before[e]);
                        }
                    }
                }
                Ok(())
            },
        }
    }
}

} // verus!
