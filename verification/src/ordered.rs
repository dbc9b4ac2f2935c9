//! Ordered transitions: a chain that leads from state to state.

use vstd::prelude::*;
use vstd::string::StringExecFns;
use crate::elements::{ConditionFunction, TriggerFunction, optional_text, trigger_names};
use crate::error::{Error, ErrorView, outcome_view};
use crate::machine::{Machine, MachineView, names_of};
use crate::registry::{Arguments, condition_names, optional_slice};
use crate::support::texts;

verus! {

/// The first place at which `name` occurs among `names`.
pub open spec fn first_index(names: Seq<Seq<char>>, name: Seq<char>) -> Option<int>
    decreases names.len(),
{
    if names.len() == 0 {
        None
    } else {
        match first_index(names.drop_last(), name) {
            Some(i) => Some(i),
            None => if names.last() == name {
                Some(names.len() - 1)
            } else {
                None
            },
        }
    }
}

/// The place of the initial state among `names`, where it is among them.
pub open spec fn initial_index(names: Seq<Seq<char>>, initial: Option<Seq<char>>) -> Option<int> {
    match initial {
        Some(name) => first_index(names, name),
        None => None,
    }
}

/// `names` turned so that the initial state comes first, where it is among
/// them.
pub open spec fn rotated(names: Seq<Seq<char>>, initial: Option<Seq<char>>) -> Seq<Seq<char>> {
    match initial_index(names, initial) {
        Some(at) => names.skip(at) + names.take(at),
        None => names,
    }
}

/// The state that the closing transition of a loop leads to: the first of
/// the turned names, or the second where the initial state is among the
/// names and is to be left out of the loop.
pub open spec fn loop_start(names: Seq<Seq<char>>, initial: Option<Seq<char>>, loop_includes_initial: bool) -> Seq<
    char,
> {
    if initial_index(names, initial) is Some && !loop_includes_initial {
        rotated(names, initial)[1]
    } else {
        rotated(names, initial)[0]
    }
}

/// How many transitions an ordered registration over `states` states makes.
pub open spec fn ordered_count(states: int, transition_loop: bool) -> int {
    if transition_loop {
        states
    } else {
        states - 1
    }
}

/// The per-transition arguments of an ordered registration: each absent, a
/// single value for every transition, or one value for each transition.
pub struct OrderedArguments {
    pub conditions: Option<Seq<Seq<char>>>,
    pub unless: Option<Seq<Seq<char>>>,
    pub before: Option<Seq<Seq<char>>>,
    pub after: Option<Seq<Seq<char>>>,
    pub prepare: Option<Seq<Seq<char>>>,
}

/// Whether `list` suits `count` transitions.
pub open spec fn suits(list: Option<Seq<Seq<char>>>, count: int) -> bool {
    match list {
        Some(values) => values.len() == 1 || values.len() == count,
        None => true,
    }
}

/// What `list` gives to the transition at `at`.
pub open spec fn pick(list: Option<Seq<Seq<char>>>, at: int) -> Seq<Seq<char>> {
    match list {
        Some(values) => if values.len() == 1 {
            seq![values[0]]
        } else {
            seq![values[at]]
        },
        None => Seq::empty(),
    }
}

impl OrderedArguments {
    /// Whether every list suits `count` transitions.
    pub open spec fn suit(self, count: int) -> bool {
        &&& suits(self.conditions, count)
        &&& suits(self.unless, count)
        &&& suits(self.before, count)
        &&& suits(self.after, count)
        &&& suits(self.prepare, count)
    }

    /// The arguments of the transition at `at`.
    pub open spec fn at(self, at: int) -> Arguments {
        Arguments {
            conditions: pick(self.conditions, at),
            unless: pick(self.unless, at),
            before: pick(self.before, at),
            after: pick(self.after, at),
            prepare: pick(self.prepare, at),
        }
    }
}

/// One transition of an ordered registration.
pub struct Link {
    pub source: Seq<char>,
    pub dest: Seq<char>,
    pub arguments: Arguments,
}

/// The transitions of an ordered registration over `names`: one from each
/// of the turned names to the next, and with `transition_loop` one more
/// from the last to the start of the loop.
pub open spec fn links(
    names: Seq<Seq<char>>,
    initial: Option<Seq<char>>,
    transition_loop: bool,
    loop_includes_initial: bool,
    arguments: OrderedArguments,
) -> Seq<Link> {
    chained(
        rotated(names, initial),
        loop_start(names, initial, loop_includes_initial),
        ordered_count(names.len() as int, transition_loop),
        arguments,
    )
}

/// The first `count` links of the chain that leads from each of `order` to
/// the next, and from the last to `start`.
pub open spec fn chained(order: Seq<Seq<char>>, start: Seq<char>, count: int, arguments: OrderedArguments) -> Seq<
    Link,
> {
    Seq::new(
        count as nat,
        |i: int|
            Link {
                source: order[i],
                dest: if i < order.len() - 1 {
                    order[i + 1]
                } else {
                    start
                },
                arguments: arguments.at(i),
            },
    )
}

impl MachineView {
    /// The machine after each of `links` was registered under `trigger`, in
    /// their order.
    pub open spec fn with_links(self, trigger: Seq<char>, links: Seq<Link>) -> MachineView
        decreases links.len(),
    {
        if links.len() == 0 {
            self
        } else {
            self.with_links(trigger, links.drop_last()).with_registration(
                trigger,
                seq![links.last().source],
                Some(links.last().dest),
                links.last().arguments,
            )
        }
    }

    /// Why the registration of `links` under `trigger` is refused, if it
    /// is: the reason for the first link that is refused.
    pub open spec fn links_refusal(self, trigger: Seq<char>, links: Seq<Link>) -> Option<ErrorView>
        decreases links.len(),
    {
        if links.len() == 0 {
            None
        } else {
            match self.links_refusal(trigger, links.drop_last()) {
                Some(error) => Some(error),
                None => self.refusal(trigger, seq![links.last().source], Some(links.last().dest)),
            }
        }
    }

    /// The names that an ordered registration runs over: those given, or
    /// every registered state.
    pub open spec fn ordered_names(self, states: Option<Seq<Seq<char>>>) -> Seq<Seq<char>> {
        match states {
            Some(names) => names,
            None => names_of(self.states),
        }
    }
}

/// The name of the trigger of an ordered registration that was given
/// `trigger`: `next_state` where none was given.
pub open spec fn ordered_trigger(trigger: Option<Seq<char>>) -> Seq<char> {
    match trigger {
        Some(name) => name,
        None => "next_state"@,
    }
}

/// The identifiers of an optional list of predicates.
pub open(crate) spec fn optional_conditions(list: Option<Vec<ConditionFunction>>) -> Option<Seq<Seq<char>>> {
    match list {
        Some(values) => Some(condition_names(values@)),
        None => None,
    }
}

/// The identifiers of an optional list of callbacks.
pub open(crate) spec fn optional_triggers(list: Option<Vec<TriggerFunction>>) -> Option<Seq<Seq<char>>> {
    match list {
        Some(values) => Some(trigger_names(values@)),
        None => None,
    }
}

/// The texts of an optional list of strings.
pub open spec fn optional_texts(list: Option<&Vec<String>>) -> Option<Seq<Seq<char>>> {
    match list {
        Some(values) => Some(texts(values@)),
        None => None,
    }
}

/// The predicates that `list` gives to the transition at `at`.
fn pick_condition(list: &Option<Vec<ConditionFunction>>, at: usize) -> (r: Vec<ConditionFunction>)
    requires
        list is Some ==> list->Some_0@.len() == 1 || at < list->Some_0@.len(),
    ensures
        condition_names(r@) == pick(optional_conditions(*list), at as int),
{
    let mut out: Vec<ConditionFunction> = Vec::new();
    match list {
        Some(values) => {
            if values.len() == 1 {
                out.push(values[0].clone());
            } else {
                out.push(values[at].clone());
            }
            assert(condition_names(out@) =~= pick(optional_conditions(*list), at as int));
        },
        None => {
            assert(condition_names(out@) =~= Seq::<Seq<char>>::empty());
        },
    }
    out
}

/// The callbacks that `list` gives to the transition at `at`.
fn pick_trigger(list: &Option<Vec<TriggerFunction>>, at: usize) -> (r: Vec<TriggerFunction>)
    requires
        list is Some ==> list->Some_0@.len() == 1 || at < list->Some_0@.len(),
    ensures
        trigger_names(r@) == pick(optional_triggers(*list), at as int),
{
    let mut out: Vec<TriggerFunction> = Vec::new();
    match list {
        Some(values) => {
            if values.len() == 1 {
                out.push(values[0].clone());
            } else {
                out.push(values[at].clone());
            }
            assert(trigger_names(out@) =~= pick(optional_triggers(*list), at as int));
        },
        None => {
            assert(trigger_names(out@) =~= Seq::<Seq<char>>::empty());
        },
    }
    out
}

/// Whether an optional list has one value or `count` values.
fn has_length<T>(list: &Option<Vec<T>>, count: usize) -> (r: bool)
    ensures
        r == match *list {
            Some(values) => values@.len() == 1 || values@.len() == count,
            None => true,
        },
{
    match list {
        Some(values) => values.len() == 1 || values.len() == count,
        None => true,
    }
}

/// An occurrence among the first names is the first occurrence in the whole
/// list.
pub proof fn lemma_first_index_prefix(names: Seq<Seq<char>>, name: Seq<char>, count: int)
    requires
        0 <= count <= names.len(),
        first_index(names.take(count), name) is Some,
    ensures
        first_index(names, name) == first_index(names.take(count), name),
    decreases names.len() - count,
{
    if count < names.len() {
        assert(names.take(count + 1).drop_last() =~= names.take(count));
        lemma_first_index_prefix(names, name, count + 1);
    } else {
        assert(names.take(count) =~= names);
    }
}

/// A refusal among the first links is the refusal of the whole list.
pub proof fn lemma_links_refusal_prefix(machine: MachineView, trigger: Seq<char>, links: Seq<Link>, count: int)
    requires
        0 <= count <= links.len(),
        machine.links_refusal(trigger, links.take(count)) is Some,
    ensures
        machine.links_refusal(trigger, links) == machine.links_refusal(trigger, links.take(count)),
    decreases links.len() - count,
{
    if count < links.len() {
        assert(links.take(count + 1).drop_last() =~= links.take(count));
        lemma_links_refusal_prefix(machine, trigger, links, count + 1);
    } else {
        assert(links.take(count) =~= links);
    }
}

/// Where no link is refused, each link alone is not refused.
pub proof fn lemma_links_refusal_none(machine: MachineView, trigger: Seq<char>, links: Seq<Link>, at: int)
    requires
        machine.links_refusal(trigger, links) is None,
        0 <= at < links.len(),
    ensures
        machine.refusal(trigger, seq![links[at].source], Some(links[at].dest)) is None,
    decreases links.len(),
{
    if at < links.len() - 1 {
        lemma_links_refusal_none(machine, trigger, links.drop_last(), at);
    }
}

/// Registering links changes only the events.
pub proof fn lemma_with_links_keeps(machine: MachineView, trigger: Seq<char>, links: Seq<Link>)
    ensures
        machine.with_links(trigger, links) == (MachineView {
            events: machine.with_links(trigger, links).events,
            ..machine
        }),
    decreases links.len(),
{
    if links.len() > 0 {
        lemma_with_links_keeps(machine, trigger, links.drop_last());
    }
}

impl Machine {
    /// The names that an ordered registration runs over.
    fn names_for(&self, states: Option<&Vec<String>>) -> (r: Vec<String>)
        ensures
            texts(r@) == self@.ordered_names(optional_texts(states)),
    {
        let mut names: Vec<String> = Vec::new();
        match states {
            Some(list) => {
                let mut i: usize = 0;
                while i < list.len()
                    invariant
                        i <= list@.len(),
                        names@.len() == i,
                        forall|k: int| 0 <= k < i ==> names@[k]@ == list@[k]@,
                    decreases list@.len() - i,
                {
                    names.push(list[i].clone());
                    i = i + 1;
                }
                assert(texts(names@) =~= texts(list@));
            },
            None => {
                let mut i: usize = 0;
                while i < self.states.len()
                    invariant
                        i <= self.states@.len(),
                        names@.len() == i,
                        forall|k: int| 0 <= k < i ==> names@[k]@ == names_of(self@.states)[k],
                    decreases self.states@.len() - i,
                {
                    names.push(self.states[i].name.clone());
                    i = i + 1;
                }
                assert(texts(names@) =~= names_of(self@.states));
            },
        }
        names
    }

    /// The place of the initial state among `names`.
    fn place_of_initial(&self, names: &Vec<String>) -> (r: Option<usize>)
        ensures
            match r {
                Some(at) => at < names@.len() && initial_index(texts(names@), self@.initial) == Some(
                    at as int,
                ),
                None => initial_index(texts(names@), self@.initial) is None,
            },
    {
        let ghost given = texts(names@);
        let n = names.len();
        match &self.initial {
            Some(first) => {
                let mut i: usize = 0;
                while i < n
                    invariant
                        i <= n,
                        n == names@.len(),
                        given == texts(names@),
                        self@.initial == Some(first@),
                        first_index(given.take(i as int), first@) is None,
                    decreases n - i,
                {
                    proof {
                        assert(given.take(i + 1).drop_last() =~= given.take(i as int));
                        assert(given.take(i + 1).last() == names@[i as int]@);
                    }
                    if names[i] == *first {
                        proof {
                            assert(first_index(given.take(i + 1), first@) == Some(i as int));
                            lemma_first_index_prefix(given, first@, i + 1);
                        }
                        return Some(i);
                    }
                    i = i + 1;
                }
                proof {
                    assert(given.take(n as int) =~= given);
                }
                None
            },
            None => None,
        }
    }

    /// `names` turned so that the name at `turn` comes first.
    fn turned(names: &Vec<String>, turn: usize) -> (r: Vec<String>)
        requires
            turn <= names@.len(),
        ensures
            texts(r@) == texts(names@).skip(turn as int) + texts(names@).take(turn as int),
    {
        let n = names.len();
        let mut order: Vec<String> = Vec::new();
        let mut i: usize = turn;
        while i < n
            invariant
                turn <= i <= n,
                n == names@.len(),
                order@.len() == i - turn,
                forall|k: int| 0 <= k < order@.len() ==> (#[trigger] order@[k])@ == names@[turn + k]@,
            decreases n - i,
        {
            order.push(names[i].clone());
            i = i + 1;
        }
        let mut j: usize = 0;
        while j < turn
            invariant
                j <= turn <= n,
                n == names@.len(),
                order@.len() == n - turn + j,
                forall|k: int| 0 <= k < n - turn ==> (#[trigger] order@[k])@ == names@[turn + k]@,
                forall|k: int| 0 <= k < j ==> (#[trigger] order@[n - turn + k])@ == names@[k]@,
            decreases turn - j,
        {
            order.push(names[j].clone());
            j = j + 1;
        }
        proof {
            let given = texts(names@);
            let target = given.skip(turn as int) + given.take(turn as int);
            assert(texts(order@).len() == target.len());
            assert forall|k: int| 0 <= k < target.len() implies texts(order@)[k] == target[k] by {
                if k < n - turn {
                    assert(order@[k]@ == names@[turn + k]@);
                } else {
                    assert(order@[n - turn + (k - (n - turn))]@ == names@[k - (n - turn)]@);
                }
            }
            assert(texts(order@) =~= target);
        }
        order
    }

    /// Why the first `count` links of the chain through `order` back to
    /// `start` would be refused, if they would.
    fn chain_refused(&self, name: &String, order: &Vec<String>, start: &String, count: usize, arguments: Ghost<
        OrderedArguments,
    >) -> (r: Option<Error>)
        requires
            self.wf(),
            count <= order@.len(),
            order@.len() >= 1,
        ensures
            r is Some <==> self@.links_refusal(name@, chained(texts(order@), start@, count as int, arguments@))
                is Some,
            r is Some ==> r->Some_0@ == self@.links_refusal(
                name@,
                chained(texts(order@), start@, count as int, arguments@),
            )->Some_0,
    {
        let ghost planned = chained(texts(order@), start@, count as int, arguments@);
        let n = order.len();
        let mut i: usize = 0;
        while i < count
            invariant
                i <= count,
                count <= n,
                n == order@.len(),
                self.wf(),
                planned == chained(texts(order@), start@, count as int, arguments@),
                self@.links_refusal(name@, planned.take(i as int)) is None,
            decreases count - i,
        {
            let mut source: Vec<String> = Vec::new();
            source.push(order[i].clone());
            let dest = if i < n - 1 {
                Some(order[i + 1].clone())
            } else {
                Some(start.clone())
            };
            proof {
                assert(texts(source@) =~= seq![planned[i as int].source]);
                assert(optional_text(dest) == Some(planned[i as int].dest));
                assert(planned.take(i + 1).drop_last() =~= planned.take(i as int));
                assert(planned.take(i + 1).last() == planned[i as int]);
            }
            match self.refuses(name, &source, &dest) {
                Some(error) => {
                    proof {
                        assert(self@.links_refusal(name@, planned.take(i + 1)) is Some);
                        lemma_links_refusal_prefix(self@, name@, planned, i + 1);
                    }
                    return Some(error);
                },
                None => {},
            }
            i = i + 1;
        }
        proof {
            assert(planned.take(count as int) =~= planned);
        }
        None
    }

    /// Registers the first `count` links of the chain through `order` back
    /// to `start`.
    fn add_chain(
        &mut self,
        name: &String,
        order: &Vec<String>,
        start: &String,
        count: usize,
        conditions: &Option<Vec<ConditionFunction>>,
        unless: &Option<Vec<ConditionFunction>>,
        before: &Option<Vec<TriggerFunction>>,
        after: &Option<Vec<TriggerFunction>>,
        prepare: &Option<Vec<TriggerFunction>>,
    )
        requires
            old(self).wf(),
            count <= order@.len(),
            order@.len() >= 1,
            (OrderedArguments {
                conditions: optional_conditions(*conditions),
                unless: optional_conditions(*unless),
                before: optional_triggers(*before),
                after: optional_triggers(*after),
                prepare: optional_triggers(*prepare),
            }).suit(count as int),
            old(self)@.links_refusal(
                name@,
                chained(
                    texts(order@),
                    start@,
                    count as int,
                    OrderedArguments {
                        conditions: optional_conditions(*conditions),
                        unless: optional_conditions(*unless),
                        before: optional_triggers(*before),
                        after: optional_triggers(*after),
                        prepare: optional_triggers(*prepare),
                    },
                ),
            ) is None,
        ensures
            final(self).wf(),
            final(self)@ == old(self)@.with_links(
                name@,
                chained(
                    texts(order@),
                    start@,
                    count as int,
                    OrderedArguments {
                        conditions: optional_conditions(*conditions),
                        unless: optional_conditions(*unless),
                        before: optional_triggers(*before),
                        after: optional_triggers(*after),
                        prepare: optional_triggers(*prepare),
                    },
                ),
            ),
    {
        let ghost before_view = self@;
        let ghost arguments = OrderedArguments {
            conditions: optional_conditions(*conditions),
            unless: optional_conditions(*unless),
            before: optional_triggers(*before),
            after: optional_triggers(*after),
            prepare: optional_triggers(*prepare),
        };
        let ghost planned = chained(texts(order@), start@, count as int, arguments);
        let n = order.len();
        let mut i: usize = 0;
        while i < count
            invariant
                i <= count,
                count <= n,
                n == order@.len(),
                self.wf(),
                planned == chained(texts(order@), start@, count as int, arguments),
                arguments == (OrderedArguments {
                    conditions: optional_conditions(*conditions),
                    unless: optional_conditions(*unless),
                    before: optional_triggers(*before),
                    after: optional_triggers(*after),
                    prepare: optional_triggers(*prepare),
                }),
                arguments.suit(count as int),
                before_view.links_refusal(name@, planned) is None,
                self@ == before_view.with_links(name@, planned.take(i as int)),
            decreases count - i,
        {
            let mut source: Vec<String> = Vec::new();
            source.push(order[i].clone());
            let dest = if i < n - 1 {
                order[i + 1].clone()
            } else {
                start.clone()
            };
            let conditions_here = pick_condition(conditions, i);
            let unless_here = pick_condition(unless, i);
            let before_here = pick_trigger(before, i);
            let after_here = pick_trigger(after, i);
            let prepare_here = pick_trigger(prepare, i);
            proof {
                assert(texts(source@) =~= seq![planned[i as int].source]);
                assert(dest@ == planned[i as int].dest);
                assert(planned.take(i + 1).drop_last() =~= planned.take(i as int));
                assert(planned.take(i + 1).last() == planned[i as int]);
                lemma_links_refusal_none(before_view, name@, planned, i as int);
                lemma_with_links_keeps(before_view, name@, planned.take(i as int));
            }
            let added = self.add_transition(
                name.as_str(),
                &source,
                Some(dest.as_str()),
                &conditions_here,
                &unless_here,
                &before_here,
                &after_here,
                &prepare_here,
            );
            proof {
                assert(added is Ok);
            }
            i = i + 1;
        }
        proof {
            assert(planned.take(count as int) =~= planned);
        }
    }

    /// Registers transitions that lead from state to state in a fixed order.
    ///
    /// The order is that of `states`, or of all registered states where
    /// none are given, turned so that the machine's initial state comes
    /// first if it is among them. One transition leads from each state to
    /// the next. With `transition_loop` one more leads from the last state
    /// back to the first, or to the second where the initial state is among
    /// the states and `loop_includes_initial` is `false`. The trigger is
    /// `trigger`, or `next_state` where none is given.
    ///
    /// Each of `conditions`, `unless`, `before`, `after` and `prepare` is
    /// absent, holds a single value, which every transition gets, or holds
    /// one value for each transition.
    ///
    /// Nothing is registered, and the result is the failure, with fewer
    /// than two states ([`Error::InsufficientStatesError`]), with a list of
    /// another length ([`Error::ArgumentsError`]), and where
    /// [`Machine::add_transition`] would refuse one of the transitions.
    pub fn add_ordered_transitions(
        &mut self,
        states: Option<&Vec<String>>,
        trigger: Option<&str>,
        transition_loop: bool,
        loop_includes_initial: bool,
        conditions: Option<Vec<ConditionFunction>>,
        unless: Option<Vec<ConditionFunction>>,
        before: Option<Vec<TriggerFunction>>,
        after: Option<Vec<TriggerFunction>>,
        prepare: Option<Vec<TriggerFunction>>,
    ) -> (r: Result<(), Error>)
        requires
            old(self).wf(),
        ensures
            final(self).wf(),
            ({
                let names = old(self)@.ordered_names(optional_texts(states));
                let count = ordered_count(names.len() as int, transition_loop);
                let arguments = OrderedArguments {
                    conditions: optional_conditions(conditions),
                    unless: optional_conditions(unless),
                    before: optional_triggers(before),
                    after: optional_triggers(after),
                    prepare: optional_triggers(prepare),
                };
                let name = ordered_trigger(optional_slice(trigger));
                let planned = links(names, old(self)@.initial, transition_loop, loop_includes_initial, arguments);
                if names.len() < 2 {
                    outcome_view(r) == Err::<(), ErrorView>(ErrorView::InsufficientStatesError) && final(self)@
                        == old(self)@
                } else if !arguments.suit(count) {
                    outcome_view(r) == Err::<(), ErrorView>(ErrorView::ArgumentsError) && final(self)@ == old(self)@
                } else {
                    match old(self)@.links_refusal(name, planned) {
                        Some(error) => outcome_view(r) == Err::<(), ErrorView>(error) && final(self)@ == old(self)@,
                        None => r is Ok && final(self)@ == old(self)@.with_links(name, planned),
                    }
                }
            }),
    {
        let ghost arguments = OrderedArguments {
            conditions: optional_conditions(conditions),
            unless: optional_conditions(unless),
            before: optional_triggers(before),
            after: optional_triggers(after),
            prepare: optional_triggers(prepare),
        };
        let names = self.names_for(states);
        let ghost given = texts(names@);
        let n = names.len();
        if n < 2 {
            return Err(Error::InsufficientStatesError);
        }
        let count = if transition_loop {
            n
        } else {
            n - 1
        };
        if !(has_length(&conditions, count) && has_length(&unless, count) && has_length(&before, count)
            && has_length(&after, count) && has_length(&prepare, count)) {
            return Err(Error::ArgumentsError);
        }
        let name = match trigger {
            Some(t) => String::from_str(t),
            None => String::from_str("next_state"),
        };
        let at = self.place_of_initial(&names);
        let order = match at {
            Some(turn) => Machine::turned(&names, turn),
            None => Machine::turned(&names, 0),
        };
        proof {
            assert(given.skip(0) + given.take(0) =~= given);
            assert(texts(order@) == rotated(given, self@.initial));
        }
        let start = if at.is_some() && !loop_includes_initial {
            order[1].clone()
        } else {
            order[0].clone()
        };
        match self.chain_refused(&name, &order, &start, count, Ghost(arguments)) {
            Some(error) => {
                return Err(error);
            },
            None => {},
        }
        self.add_chain(&name, &order, &start, count, &conditions, &unless, &before, &after, &prepare);
        Ok(())
    }
}

} // verus!
