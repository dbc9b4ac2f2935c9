//! Queries: what the registry holds.

use vstd::prelude::*;
use vstd::string::StringExecFns;
use crate::elements::{Transition, TransitionView};
use crate::event::{Event, EventView, GroupView, SourceGroup, flat, group_views, transition_views};
use crate::machine::{Machine, MachineView, event_names};
use crate::registry::{optional_slice, wildcard_all};
use crate::support::{position, texts};

verus! {

/// Whether `text` selects everything: it is absent or the wildcard `*`.
pub open spec fn any(text: Option<Seq<char>>) -> bool {
    text is None || text == Some(wildcard_all())
}

/// Whether `transition` is selected by `source` and `dest`: each selects
/// everything or names the transition's source or destination.
pub open spec fn selects(source: Option<Seq<char>>, dest: Option<Seq<char>>, transition: TransitionView) -> bool {
    &&& any(source) || source == Some(transition.source)
    &&& any(dest) || dest == transition.dest
}

/// The transitions among `transitions` that `source` and `dest` select, in
/// their order.
pub open spec fn selected(transitions: Seq<TransitionView>, source: Option<Seq<char>>, dest: Option<Seq<char>>) -> Seq<
    TransitionView,
>
    decreases transitions.len(),
{
    if transitions.len() == 0 {
        Seq::empty()
    } else if selects(source, dest, transitions.last()) {
        selected(transitions.drop_last(), source, dest).push(transitions.last())
    } else {
        selected(transitions.drop_last(), source, dest)
    }
}

/// Every transition of `events`, event by event and group by group.
pub open spec fn all_transitions(events: Seq<EventView>) -> Seq<TransitionView>
    decreases events.len(),
{
    if events.len() == 0 {
        Seq::empty()
    } else {
        all_transitions(events.drop_last()) + events.last().all_transitions()
    }
}

impl MachineView {
    /// The transitions registered under `trigger`: those of every event
    /// where the trigger is absent or empty, and none where the machine has
    /// no such event.
    pub open spec fn transitions_under(self, trigger: Option<Seq<char>>) -> Seq<TransitionView> {
        if trigger is None || trigger->Some_0.len() == 0 {
            all_transitions(self.events)
        } else if self.has_event(trigger->Some_0) {
            self.event_named(trigger->Some_0).all_transitions()
        } else {
            Seq::empty()
        }
    }

    /// Whether the event at `at` has a transition from one of `states`.
    pub open spec fn leaves(self, at: int, states: Seq<Seq<char>>) -> bool {
        exists|s: int| 0 <= s < states.len() && #[trigger] self.events[at].candidates(states[s]).len() > 0
    }

    /// The names of the first `count` events that have a transition from one
    /// of `states`, in the order of the events.
    pub open spec fn triggers_from(self, states: Seq<Seq<char>>, count: int) -> Seq<Seq<char>>
        decreases count,
    {
        if count <= 0 {
            Seq::empty()
        } else if self.leaves(count - 1, states) {
            self.triggers_from(states, count - 1).push(self.events[count - 1].name)
        } else {
            self.triggers_from(states, count - 1)
        }
    }
}

/// The selection among two lists in sequence is the selection among the
/// first, then the selection among the second.
pub proof fn lemma_selected_concat(
    first: Seq<TransitionView>,
    second: Seq<TransitionView>,
    source: Option<Seq<char>>,
    dest: Option<Seq<char>>,
)
    ensures
        selected(first + second, source, dest) == selected(first, source, dest) + selected(
            second,
            source,
            dest,
        ),
    decreases second.len(),
{
    if second.len() == 0 {
        assert(first + second =~= first);
        assert(selected(first, source, dest) + selected(second, source, dest) =~= selected(
            first,
            source,
            dest,
        ));
    } else {
        lemma_selected_concat(first, second.drop_last(), source, dest);
        assert((first + second).drop_last() =~= first + second.drop_last());
        assert((first + second).last() == second.last());
        assert(selected(first + second, source, dest) =~= selected(first, source, dest) + selected(
            second,
            source,
            dest,
        ));
    }
}

/// Copies of the transitions of `list` that `source` and `dest` select, added
/// to `out`.
fn collect_selected(
    list: &Vec<Transition>,
    source: &Option<String>,
    dest: &Option<String>,
    out: &mut Vec<Transition>,
)
    ensures
        transition_views(final(out)@) == transition_views(old(out)@) + selected(
            transition_views(list@),
            crate::elements::optional_text(*source),
            crate::elements::optional_text(*dest),
        ),
{
    let ghost from = crate::elements::optional_text(*source);
    let ghost to = crate::elements::optional_text(*dest);
    let ghost views = transition_views(list@);
    let ghost start = transition_views(out@);
    let all = String::from_str("*");
    let mut i: usize = 0;
    proof {
        assert(views.take(0) =~= Seq::<TransitionView>::empty());
        assert(start + selected(views.take(0), from, to) =~= start);
    }
    while i < list.len()
        invariant
            i <= list@.len(),
            views == transition_views(list@),
            from == crate::elements::optional_text(*source),
            to == crate::elements::optional_text(*dest),
            all@ == wildcard_all(),
            transition_views(out@) == start + selected(views.take(i as int), from, to),
        decreases list@.len() - i,
    {
        let candidate = &list[i];
        let source_fits = match source {
            Some(wanted) => *wanted == all || *wanted == candidate.source,
            None => true,
        };
        let dest_fits = match dest {
            Some(wanted) => *wanted == all || match &candidate.dest {
                Some(actual) => *wanted == *actual,
                None => false,
            },
            None => true,
        };
        proof {
            assert(views.take(i + 1).drop_last() =~= views.take(i as int));
            assert(views.take(i + 1).last() == candidate@);
            assert((source_fits && dest_fits) == selects(from, to, candidate@));
        }
        if source_fits && dest_fits {
            let ghost before = transition_views(out@);
            out.push(candidate.clone());
            proof {
                assert(transition_views(out@) =~= before.push(candidate@));
                assert(transition_views(out@) =~= start + selected(views.take(i + 1), from, to));
            }
        }
        i = i + 1;
    }
    proof {
        assert(views.take(list@.len() as int) =~= views);
    }
}

impl Event {
    /// Copies of the transitions of the event that `source` and `dest`
    /// select, added to `out`.
    fn collect_selected(&self, source: &Option<String>, dest: &Option<String>, out: &mut Vec<Transition>)
        ensures
            transition_views(final(out)@) == transition_views(old(out)@) + selected(
                self@.all_transitions(),
                crate::elements::optional_text(*source),
                crate::elements::optional_text(*dest),
            ),
    {
        let ghost from = crate::elements::optional_text(*source);
        let ghost to = crate::elements::optional_text(*dest);
        let ghost groups = self@.groups;
        let ghost start = transition_views(out@);
        let mut g: usize = 0;
        proof {
            assert(groups.take(0) =~= Seq::<GroupView>::empty());
            assert(start + selected(flat(groups.take(0)), from, to) =~= start);
        }
        while g < self.transitions.len()
            invariant
                g <= self.transitions@.len(),
                groups == self@.groups,
                from == crate::elements::optional_text(*source),
                to == crate::elements::optional_text(*dest),
                transition_views(out@) == start + selected(flat(groups.take(g as int)), from, to),
            decreases self.transitions@.len() - g,
        {
            collect_selected(&self.transitions[g].transitions, source, dest, out);
            proof {
                assert(groups.take(g + 1).drop_last() =~= groups.take(g as int));
                assert(groups.take(g + 1).last().transitions == transition_views(
                    self.transitions@[g as int].transitions@,
                ));
                lemma_selected_concat(
                    flat(groups.take(g as int)),
                    groups[g as int].transitions,
                    from,
                    to,
                );
                assert(transition_views(out@) =~= start + selected(flat(groups.take(g + 1)), from, to));
            }
            g = g + 1;
        }
        proof {
            assert(groups.take(self.transitions@.len() as int) =~= groups);
        }
    }

    /// Copies of the transitions of the event, group by group.
    pub fn get_transitions(&self) -> (r: Vec<Transition>)
        ensures
            transition_views(r@) == self@.all_transitions(),
    {
        let mut out: Vec<Transition> = Vec::new();
        let ghost start = transition_views(out@);
        self.collect_selected(&None, &None, &mut out);
        proof {
            assert(start =~= Seq::<TransitionView>::empty());
            lemma_selected_all(self@.all_transitions());
            assert(start + self@.all_transitions() =~= self@.all_transitions());
        }
        out
    }
}

/// Where the source and the destination select everything, every transition
/// is selected.
pub proof fn lemma_selected_all(transitions: Seq<TransitionView>)
    ensures
        selected(transitions, None, None) == transitions,
    decreases transitions.len(),
{
    if transitions.len() > 0 {
        lemma_selected_all(transitions.drop_last());
        assert(transitions.drop_last().push(transitions.last()) =~= transitions);
    }
}

impl Machine {
    /// Copies of the transitions registered under `trigger` that `source`
    /// and `dest` select, in the order of their registration within each
    /// source, source by source and event by event.
    ///
    /// An absent or empty `trigger` stands for every event, and an absent
    /// `source` or `dest`, like the wildcard `*`, for any state. A `dest`
    /// that names a state selects no internal transition.
    pub fn get_transitions(&self, trigger: Option<&str>, source: Option<&str>, dest: Option<&str>) -> (r: Vec<
        Transition,
    >)
        requires
            self.wf(),
        ensures
            transition_views(r@) == selected(
                self@.transitions_under(optional_slice(trigger)),
                optional_slice(source),
                optional_slice(dest),
            ),
    {
        let source = match source {
            Some(s) => Some(String::from_str(s)),
            None => None,
        };
        let dest = match dest {
            Some(d) => Some(String::from_str(d)),
            None => None,
        };
        let ghost from = crate::elements::optional_text(source);
        let ghost to = crate::elements::optional_text(dest);
        let mut out: Vec<Transition> = Vec::new();
        proof {
            assert(transition_views(out@) =~= Seq::<TransitionView>::empty());
        }
        let name = match trigger {
            Some(t) => String::from_str(t),
            None => String::new(),
        };
        let empty = String::new();
        if name == empty {
            proof {
                assert(name@.len() == 0);
            }
            let ghost events = self@.events;
            let mut e: usize = 0;
            proof {
                assert(events.take(0) =~= Seq::<EventView>::empty());
                assert(selected(all_transitions(events.take(0)), from, to) =~= Seq::<TransitionView>::empty());
            }
            while e < self.events.len()
                invariant
                    e <= self.events@.len(),
                    events == self@.events,
                    from == crate::elements::optional_text(source),
                    to == crate::elements::optional_text(dest),
                    transition_views(out@) == selected(all_transitions(events.take(e as int)), from, to),
                decreases self.events@.len() - e,
            {
                let ghost before = transition_views(out@);
                self.events[e].collect_selected(&source, &dest, &mut out);
                proof {
                    assert(events.take(e + 1).drop_last() =~= events.take(e as int));
                    assert(events.take(e + 1).last() == self.events@[e as int]@);
                    lemma_selected_concat(
                        all_transitions(events.take(e as int)),
                        events[e as int].all_transitions(),
                        from,
                        to,
                    );
                }
                e = e + 1;
            }
            proof {
                assert(events.take(self.events@.len() as int) =~= events);
            }
        } else {
            proof {
                assert(name@.len() != 0) by {
                    if name@.len() == 0 {
                        assert(name@ =~= empty@);
                    }
                }
            }
            match self.find_event(&name) {
                Some(e) => {
                    let ghost before = transition_views(out@);
                    self.events[e].collect_selected(&source, &dest, &mut out);
                    proof {
                        assert(before + selected(self.events@[e as int]@.all_transitions(), from, to)
                            =~= selected(self.events@[e as int]@.all_transitions(), from, to));
                    }
                },
                None => {
                    proof {
                        assert(selected(Seq::<TransitionView>::empty(), from, to) =~= Seq::<
                            TransitionView,
                        >::empty());
                    }
                },
            }
        }
        out
    }

    /// The names of the events that have a transition from one of `states`,
    /// in the order of the events.
    pub fn get_triggers(&self, states: &Vec<String>) -> (r: Vec<String>)
        requires
            self.wf(),
        ensures
            texts(r@) == self@.triggers_from(texts(states@), self@.events.len() as int),
    {
        let ghost from = texts(states@);
        let mut out: Vec<String> = Vec::new();
        let mut e: usize = 0;
        proof {
            assert(texts(out@) =~= Seq::<Seq<char>>::empty());
        }
        while e < self.events.len()
            invariant
                self.wf(),
                e <= self.events@.len(),
                from == texts(states@),
                texts(out@) == self@.triggers_from(from, e as int),
            decreases self.events@.len() - e,
        {
            let mut found = false;
            let mut s: usize = 0;
            while !found && s < states.len()
                invariant
                    self.wf(),
                    e < self.events@.len(),
                    s <= states@.len(),
                    from == texts(states@),
                    found ==> self@.leaves(e as int, from),
                    !found ==> forall|k: int|
                        0 <= k < s ==> (#[trigger] self@.events[e as int].candidates(from[k])).len() == 0,
                decreases states@.len() - s, !found as int,
            {
                if self.events[e].has_source(&states[s]) {
                    proof {
                        assert(self@.events[e as int].candidates(from[s as int]).len() > 0);
                    }
                    found = true;
                }
                s = s + 1;
            }
            if found {
                let ghost before = texts(out@);
                out.push(self.events[e].name.clone());
                proof {
                    assert(texts(out@) =~= before.push(self@.events[e as int].name));
                }
            }
            e = e + 1;
        }
        out
    }
}

/// The transitions among `transitions` that `source` and `dest` do not
/// select, in their order.
pub open spec fn unselected(
    transitions: Seq<TransitionView>,
    source: Option<Seq<char>>,
    dest: Option<Seq<char>>,
) -> Seq<TransitionView>
    decreases transitions.len(),
{
    if transitions.len() == 0 {
        Seq::empty()
    } else if selects(source, dest, transitions.last()) {
        unselected(transitions.drop_last(), source, dest)
    } else {
        unselected(transitions.drop_last(), source, dest).push(transitions.last())
    }
}

/// The groups after the transitions that `source` and `dest` select were
/// removed: each group keeps the others, and a group that keeps none is
/// gone.
pub open spec fn pruned(groups: Seq<GroupView>, source: Option<Seq<char>>, dest: Option<Seq<char>>) -> Seq<
    GroupView,
>
    decreases groups.len(),
{
    if groups.len() == 0 {
        Seq::empty()
    } else if unselected(groups.last().transitions, source, dest).len() > 0 {
        pruned(groups.drop_last(), source, dest).push(
            GroupView {
                source: groups.last().source,
                transitions: unselected(groups.last().transitions, source, dest),
            },
        )
    } else {
        pruned(groups.drop_last(), source, dest)
    }
}

impl MachineView {
    /// The machine after the transitions under `trigger` that `source` and
    /// `dest` select were removed. An event that keeps no transition is
    /// gone.
    pub open spec fn without(self, trigger: Seq<char>, source: Option<Seq<char>>, dest: Option<Seq<char>>) -> MachineView {
        let at = position(event_names(self.events), trigger)->Some_0;
        let groups = pruned(self.events[at].groups, source, dest);
        MachineView {
            events: if groups.len() > 0 {
                self.events.update(at, EventView { name: trigger, groups })
            } else {
                self.events.remove(at)
            },
            ..self
        }
    }
}

/// Copies of the transitions of `list` that `source` and `dest` do not
/// select.
fn collect_unselected(list: &Vec<Transition>, source: &Option<String>, dest: &Option<String>) -> (r: Vec<
    Transition,
>)
    ensures
        transition_views(r@) == unselected(
            transition_views(list@),
            crate::elements::optional_text(*source),
            crate::elements::optional_text(*dest),
        ),
        forall|k: int|
            0 <= k < r@.len() ==> exists|j: int| 0 <= j < list@.len() && (#[trigger] r@[k])@ == list@[j]@,
{
    let ghost from = crate::elements::optional_text(*source);
    let ghost to = crate::elements::optional_text(*dest);
    let ghost views = transition_views(list@);
    let all = String::from_str("*");
    let mut out: Vec<Transition> = Vec::new();
    let mut i: usize = 0;
    proof {
        assert(views.take(0) =~= Seq::<TransitionView>::empty());
        assert(transition_views(out@) =~= Seq::<TransitionView>::empty());
    }
    while i < list.len()
        invariant
            i <= list@.len(),
            views == transition_views(list@),
            from == crate::elements::optional_text(*source),
            to == crate::elements::optional_text(*dest),
            all@ == wildcard_all(),
            transition_views(out@) == unselected(views.take(i as int), from, to),
            forall|k: int|
                0 <= k < out@.len() ==> exists|j: int| 0 <= j < list@.len() && (#[trigger] out@[k])@ == list@[j]@,
        decreases list@.len() - i,
    {
        let candidate = &list[i];
        let source_fits = match source {
            Some(wanted) => *wanted == all || *wanted == candidate.source,
            None => true,
        };
        let dest_fits = match dest {
            Some(wanted) => *wanted == all || match &candidate.dest {
                Some(actual) => *wanted == *actual,
                None => false,
            },
            None => true,
        };
        proof {
            assert(views.take(i + 1).drop_last() =~= views.take(i as int));
            assert(views.take(i + 1).last() == candidate@);
            assert((source_fits && dest_fits) == selects(from, to, candidate@));
        }
        if !(source_fits && dest_fits) {
            let ghost before = out@;
            out.push(candidate.clone());
            proof {
                assert(transition_views(out@) =~= transition_views(before).push(candidate@));
                assert forall|k: int| 0 <= k < out@.len() implies exists|j: int|
                    0 <= j < list@.len() && (#[trigger] out@[k])@ == list@[j]@ by {
                    if k < before.len() {
                        assert(out@[k] == before[k]);
                        let j = choose|j: int| 0 <= j < list@.len() && before[k]@ == list@[j]@;
                        assert(out@[k]@ == list@[j]@);
                    } else {
                        assert(out@[k]@ == list@[i as int]@);
                    }
                }
            }
        }
        i = i + 1;
    }
    proof {
        assert(views.take(list@.len() as int) =~= views);
    }
    out
}

impl Machine {
    /// Removes the transitions under `trigger` that `source` and `dest`
    /// select: an absent `source` or `dest`, like the wildcard `*`, selects
    /// any state. An event that keeps no transition is removed with them.
    /// Where the machine has no event called `trigger`, the result is
    /// [`Error::UnknownEventError`].
    pub fn remove_transition(&mut self, trigger: &str, source: Option<&str>, dest: Option<&str>) -> (r: Result<
        (),
        crate::error::Error,
    >)
        requires
            old(self).wf(),
        ensures
            final(self).wf(),
            if old(self)@.has_event(trigger@) {
                r is Ok && final(self)@ == old(self)@.without(trigger@, optional_slice(source), optional_slice(dest))
            } else {
                crate::error::outcome_view(r) == Err::<(), crate::error::ErrorView>(
                    crate::error::ErrorView::UnknownEventError(trigger@),
                ) && final(self)@ == old(self)@
            },
    {
        let name = String::from_str(trigger);
        let at = match self.find_event(&name) {
            Some(e) => e,
            None => {
                return Err(crate::error::Error::UnknownEventError(name));
            },
        };
        let source = match source {
            Some(s) => Some(String::from_str(s)),
            None => None,
        };
        let dest = match dest {
            Some(d) => Some(String::from_str(d)),
            None => None,
        };
        let ghost from = crate::elements::optional_text(source);
        let ghost to = crate::elements::optional_text(dest);
        let ghost before = self@;
        let ghost event = self.events@[at as int]@;
        let ghost states = crate::machine::names_of(before.states);
        let ghost mut origin: Seq<int> = Seq::empty();
        let mut groups: Vec<SourceGroup> = Vec::new();
        let mut g: usize = 0;
        proof {
            assert(event.groups.take(0) =~= Seq::<GroupView>::empty());
            assert(group_views(groups@) =~= Seq::<GroupView>::empty());
            assert(self.events@[at as int].registered_in(self));
        }
        while g < self.events[at].transitions.len()
            invariant
                at < self.events@.len(),
                self@ == before,
                event == self.events@[at as int]@,
                event.wf(),
                event.within(states),
                g <= event.groups.len(),
                event.groups.len() == self.events@[at as int].transitions@.len(),
                from == crate::elements::optional_text(source),
                to == crate::elements::optional_text(dest),
                group_views(groups@) == pruned(event.groups.take(g as int), from, to),
                origin.len() == groups@.len(),
                forall|k: int|
                    0 <= k < origin.len() ==> 0 <= #[trigger] origin[k] < g && group_views(groups@)[k].source
                        == event.groups[origin[k]].source,
                forall|a: int, b: int| 0 <= a < b < origin.len() ==> origin[a] < origin[b],
                forall|k: int| 0 <= k < groups@.len() ==> (#[trigger] group_views(groups@)[k]).transitions.len() > 0,
                forall|k: int, t: int|
                    0 <= k < groups@.len() && 0 <= t < group_views(groups@)[k].transitions.len() ==> (
                    #[trigger] group_views(groups@)[k].transitions[t]).source == group_views(groups@)[k].source
                        && group_views(groups@)[k].transitions[t].within(states),
            decreases event.groups.len() - g,
        {
            let group = &self.events[at].transitions[g];
            let kept = collect_unselected(&group.transitions, &source, &dest);
            proof {
                assert(event.groups.take(g + 1).drop_last() =~= event.groups.take(g as int));
                assert(event.groups.take(g + 1).last() == group@);
                assert(event.groups[g as int] == group@);
            }
            if kept.len() > 0 {
                let ghost views_before = group_views(groups@);
                let ghost kept_views = transition_views(kept@);
                let fresh = SourceGroup { source: group.source.clone(), transitions: kept };
                proof {
                    assert forall|t: int| 0 <= t < kept_views.len() implies (#[trigger] kept_views[t]).source
                        == group@.source && kept_views[t].within(states) by {
                        let j = choose|j: int| 0 <= j < group.transitions@.len() && kept@[t]@ == group.transitions@[j]@;
                        assert(kept_views[t] == event.groups[g as int].transitions[j]);
                    }
                }
                groups.push(fresh);
                proof {
                    assert(group_views(groups@) =~= views_before.push(
                        GroupView { source: group@.source, transitions: kept_views },
                    ));
                    origin = origin.push(g as int);
                }
            }
            g = g + 1;
        }
        proof {
            assert(event.groups.take(event.groups.len() as int) =~= event.groups);
            let sources = crate::event::group_sources(group_views(groups@));
            assert forall|a: int, b: int|
                0 <= a < sources.len() && 0 <= b < sources.len() && sources[a] == sources[b] implies a
                == b by {
                assert(crate::event::group_sources(event.groups)[origin[a]] == crate::event::group_sources(
                    event.groups,
                )[origin[b]]);
                if a < b {
                    assert(origin[a] < origin[b]);
                }
                if b < a {
                    assert(origin[b] < origin[a]);
                }
            }
        }
        if groups.len() > 0 {
            let ghost events_before = self.events@;
            let replaced = Event { name: name, transitions: groups };
            proof {
                assert(replaced@.wf());
                assert(replaced@.within(states));
            }
            self.events[at] = replaced;
            proof {
                assert(self@.events =~= before.events.update(
                    at as int,
                    EventView { name: trigger@, groups: pruned(event.groups, from, to) },
                ));
                assert(event_names(self@.events) =~= event_names(before.events));
                assert(self.states@ == old(self).states@);
                assert(self.models@ == old(self).models@);
                assert forall|e: int| 0 <= e < self.events@.len() implies (#[trigger] self.events@[e]).wf()
                    && self.events@[e].registered_in(self) && self.events@[e]@.name != self.attribute() by {
                    if e != at as int {
                        assert(self.events@[e] == events_before[e]);
                    }
                }
            }
        } else {
            let ghost events_before = self.events@;
            let _ = self.events.remove(at);
            proof {
                assert(self@.events =~= before.events.remove(at as int));
                let names = event_names(self@.events);
                assert(names =~= event_names(before.events).remove(at as int));
                assert forall|a: int, b: int|
                    0 <= a < names.len() && 0 <= b < names.len() && names[a] == names[b] implies a
                    == b by {
                    let a0 = if a < at { a } else { a + 1 };
                    let b0 = if b < at { b } else { b + 1 };
                    assert(event_names(before.events)[a0] == event_names(before.events)[b0]);
                }
                assert(self.states@ == old(self).states@);
                assert(self.models@ == old(self).models@);
                assert forall|e: int| 0 <= e < self.events@.len() implies (#[trigger] self.events@[e]).wf()
                    && self.events@[e].registered_in(self) && self.events@[e]@.name != self.attribute() by {
                    if e < at {
                        assert(self.events@[e] == events_before[e]);
                    } else {
                        assert(self.events@[e] == events_before[e + 1]);
                    }
                }
            }
        }
        Ok(())
    }
}

} // verus!
