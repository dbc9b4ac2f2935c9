//! Dispatch: how triggers reach the models, now or in their turn.

use std::collections::VecDeque;
use vstd::prelude::*;
use vstd::string::StringExecFns;
use crate::elements::{State, TransitionView};
use crate::error::{Error, ErrorView, outcome_view};
use crate::event::{EventData, fresh_sight, processed, Pending, after_selection, fresh};
use crate::host::{Host, answered, asked, reaches_host, lemma_linked_nothing};
use crate::sight::Sight;
use crate::machine::{EventRecord, Machine, MachineView, names_of};
use crate::model::Model;
use crate::support::{position, texts};
use crate::trace::{
    Step,
    calls,
    concat,
    event_outcome,
    is_run,
    is_selection,
    reentrancy_text,
    run_outcome,
    run_queues,
    selection_outcome,
};

verus! {

/// The triggers `names`, each on the model with the index `model`.
pub open spec fn on_model(model: int, names: Seq<Seq<char>>) -> Seq<(int, Seq<char>)> {
    Seq::new(names.len(), |i: int| (model, names[i]))
}

/// The text of the failure reported when the queue does not run empty
/// within as many triggers as the machine can count.
pub open spec fn ceiling_text() -> Seq<char> {
    "The transition queue did not drain."@
}

impl EventRecord {
    /// Every step of the record: the attempts, then the finalizing
    /// callbacks.
    pub open spec fn steps(self) -> Seq<Step> {
        concat(self.attempts) + self.finalized
    }

    /// The triggers that the record's callbacks added to the queue, in the
    /// order in which they were raised.
    pub open spec fn queues(self, queued: bool) -> Seq<(int, Seq<char>)> {
        on_model(self.model, run_queues(self.steps(), queued))
    }
}

impl MachineView {
    /// The transitions that the trigger `event` attempts on a model in
    /// `state`: none where the machine has no such event.
    pub open spec fn candidates(self, event: Seq<char>, state: Seq<char>) -> Seq<TransitionView> {
        if self.has_event(event) {
            self.event_named(event).candidates(state)
        } else {
            Seq::empty()
        }
    }

    /// Whether `record` is what the trigger `entry`, a model and an event,
    /// can leave behind when its turn comes.
    ///
    /// Where the machine has no such event, or the event has no transition
    /// from the model's state, nothing runs: the trigger amounts to
    /// `Ok(false)` if such triggers are ignored, and to
    /// `UnknownEventError` or `UnknownTriggerError` otherwise. Else the
    /// attempts are one selection among the candidates, followed by one run
    /// of the finalizing callbacks.
    pub open spec fn records(self, entry: (int, Seq<char>), record: EventRecord) -> bool {
        let candidates = self.candidates(entry.1, record.state);
        &&& record.model == entry.0
        &&& record.event == entry.1
        &&& record.state == self.state_of(entry.0)
        &&& record.before == self.models[entry.0]
        &&& is_selection(self.plans(candidates), record.attempts, self.queued)
        &&& if candidates.len() == 0 {
            &&& record.finalized == Seq::<Step>::empty()
            &&& record.outcome == if self.ignores(record.state) {
                Ok::<bool, ErrorView>(false)
            } else if self.has_event(entry.1) {
                Err(ErrorView::UnknownTriggerError(entry.1, record.state))
            } else {
                Err(ErrorView::UnknownEventError(entry.1))
            }
        } else {
            &&& is_run(calls(self.finalize_event), record.finalized, self.queued)
            &&& record.outcome == event_outcome(
                selection_outcome(record.attempts, self.queued),
                run_outcome(record.finalized, self.queued),
            )
        }
    }

    /// The model of `record` after the record: in the destination of the
    /// transition that fired, if one fired and has a destination, and as it
    /// was otherwise.
    pub open spec fn moved(self, record: EventRecord) -> Map<Seq<char>, Seq<char>> {
        after_selection(
            fresh(self.name, self.send_event, record.state, record.event, self.models[record.model]),
            self.candidates(record.event, record.state),
            record.attempts,
            self.model_attribute,
            self.queued,
        ).model
    }

    /// What the event data showed the host at each step of `record`, from
    /// the first attempt to the last finalizing callback, starting from
    /// fresh data for the model as it was when the trigger's turn came.
    pub open spec fn shows(self, record: EventRecord) -> Seq<Sight> {
        processed(
            fresh_sight(self.name, self.send_event, record.state, record.event, record.before),
            self.candidates(record.event, record.state),
            record.attempts,
            record.finalized,
            self.model_attribute,
            self.queued,
        )
    }

    /// Whether this machine and `other` have the same registry and
    /// configuration: they differ at most in the models' attributes, the
    /// queue and the journal.
    pub open spec fn agrees(self, other: MachineView) -> bool {
        self == (MachineView { models: self.models, queue: self.queue, journal: self.journal, ..other })
    }

    /// The machine after `record`: the model has moved, the triggers that
    /// callbacks raised have joined the queue, and the record has joined the
    /// journal.
    pub open spec fn after(self, record: EventRecord) -> MachineView {
        MachineView {
            models: self.models.update(record.model, self.moved(record)),
            queue: self.queue + record.queues(self.queued),
            journal: self.journal.push(record),
            ..self
        }
    }

    /// The machine after the trigger at the front of the queue was served
    /// with `record`: the trigger has left the queue if it did not fail, and
    /// a failure has emptied the queue.
    pub open spec fn served(self, record: EventRecord) -> MachineView {
        MachineView {
            queue: if record.outcome is Ok {
                self.after(record).queue.skip(1)
            } else {
                Seq::empty()
            },
            ..self.after(record)
        }
    }

    /// The machine after the triggers at the front of the queue were served
    /// one after the other with `done`.
    pub open spec fn drained(self, done: Seq<EventRecord>) -> MachineView
        decreases done.len(),
    {
        if done.len() == 0 {
            self
        } else {
            self.drained(done.drop_last()).served(done.last())
        }
    }

    /// Whether `done` is what serving the queue from its front can leave
    /// behind: each record is that of the trigger that was at the front of
    /// the queue when its turn came, and only the last can be a failure.
    pub open spec fn drains(self, done: Seq<EventRecord>) -> bool
        decreases done.len(),
    {
        if done.len() == 0 {
            true
        } else {
            let middle = self.drained(done.drop_last());
            &&& self.drains(done.drop_last())
            &&& middle.queue.len() > 0
            &&& middle.records(middle.queue[0], done.last())
        }
    }
}

impl Machine {
    /// The state of the model with the index `model`.
    pub fn get_model_state(&self, model: usize) -> (r: &State)
        requires
            self.wf(),
            model < self@.models.len(),
        ensures
            r@ == self@.state_named(self@.state_of(model as int)),
            r@.name == self@.state_of(model as int),
    {
        let name = self.models[model].get(&self.model_attribute).unwrap();
        let at = self.find_state(name).unwrap();
        &self.states[at]
    }

    /// Whether the model with the index `model` is in the state called
    /// `state`.
    pub fn is_state(&self, state: &str, model: usize) -> (r: bool)
        requires
            self.wf(),
            model < self@.models.len(),
        ensures
            r == (self@.state_of(model as int) == state@),
    {
        let wanted = String::from_str(state);
        match self.models[model].get(&self.model_attribute) {
            Some(name) => *name == wanted,
            None => false,
        }
    }

    /// Serves one trigger now: processes the event of `entry` on its model,
    /// lets the triggers that callbacks raised join the queue, and notes the
    /// record in the journal. The steps of the record were put to the host
    /// one after the other, with the event data showing what
    /// [`MachineView::shows`] gives for the record.
    fn serve<H: Host>(&mut self, entry: &Pending, host: &mut H) -> (r: Result<bool, Error>)
        requires
            old(self).wf(),
            entry@.0 < old(self)@.models.len(),
        ensures
            final(self).wf(),
            final(self)@.journal.len() == old(self)@.journal.len() + 1,
            old(self)@.records(entry@, final(self)@.journal.last()),
            final(self)@ == old(self)@.after(final(self)@.journal.last()),
            outcome_view(r) == final(self)@.journal.last().outcome,
            exists|hosts: Seq<H>, datas: Seq<EventData>|
                #[trigger] asked(hosts, datas, *old(host), old(self)@.shows(final(self)@.journal.last()), final(self)@.journal.last().steps()) && hosts.last() == *final(host) && forall|i: int|
                    0 <= i < final(self)@.journal.last().steps().len() && reaches_host(#[trigger] final(self)@.journal.last().steps()[i]) ==> exists|via: &mut H|
                        mut_ref_future(via) == hosts[i + 1] && #[trigger] answered(via, hosts[i], datas[i], final(self)@.journal.last().steps()[i]),
    {
        let ghost before = self@;
        let index = entry.model;
        let ghost state = before.state_of(index as int);
        proof {
            assert(self.models@[index as int].wf() && self.binds(self.models@[index as int]@));
        }
        match self.find_event(&entry.event) {
            None => {
                let ignore = match self.get_model_state(index).ignore_invalid_triggers() {
                    Some(own) => own,
                    None => self.ignore_invalid_triggers,
                };
                let outcome = if ignore {
                    Ok(false)
                } else {
                    Err(Error::UnknownEventError(entry.event.clone()))
                };
                proof {
                    let record = EventRecord {
                        model: index as int,
                        event: entry@.1,
                        state,
                        before: before.models[index as int],
                        attempts: Seq::empty(),
                        finalized: Seq::empty(),
                        outcome: outcome_view(outcome),
                    };
                    self.journal@ = self.journal@.push(record);
                    assert(before.candidates(entry@.1, state) =~= Seq::<TransitionView>::empty());
                    assert(record.steps() =~= Seq::<Step>::empty());
                    assert(record.queues(before.queued) =~= Seq::<(int, Seq<char>)>::empty());
                    assert(before.moved(record) == before.models[index as int]);
                    assert(before.models.update(index as int, before.moved(record)) =~= before.models);
                    assert(before.queue + record.queues(before.queued) =~= before.queue);
                    assert(self@ == before.after(record));
                    lemma_linked_nothing(*host, before.shows(record), record.steps());
                }
                outcome
            },
            Some(e) => {
                let mut model = Model::new();
                std::mem::swap(&mut model, &mut self.models[index]);
                proof {
                    assert(self.states@ == old(self).states@);
                    assert(self.events@ == old(self).events@);
                    assert(self.events@[e as int].wf() && self.events@[e as int].registered_in(self));
                    assert(before.event_named(entry@.1) == self.events@[e as int]@);
                }
                let ghost given = model@;
                let (fired, data) = self.events[e].machine_trigger(&*self, model, host);
                let ghost record = EventRecord {
                    model: index as int,
                    event: entry@.1,
                    state,
                    before: before.models[index as int],
                    attempts: data.attempts(),
                    finalized: data.finalized(),
                    outcome: outcome_view(fired),
                };
                let ghost landed = data.snapshot();
                let ghost steps = data.trace();
                proof {
                    assert(given == before.models[index as int]);
                    assert(given[self.attribute()] == state);
                    assert(self@.name == before.name);
                    assert(self@.send_event == before.send_event);
                    assert(self.events@[e as int]@.name == entry@.1);
                    assert(before.candidates(entry@.1, state) == self.events@[e as int]@.candidates(state));
                    assert(before.shows(record) == processed(
                        fresh_sight(self@.name, self@.send_event, given[self.attribute()], self.events@[e as int]@.name, given),
                        self.events@[e as int]@.candidates(given[self.attribute()]),
                        data.attempts(),
                        data.finalized(),
                        self.attribute(),
                        self.is_queued(),
                    ));
                    assert(record.steps() == steps);
                }
                let (model, raised) = data.finish();
                self.models[index] = model;
                let mut i: usize = 0;
                let ghost queue_before = self@.queue;
                while i < raised.len()
                    invariant
                        i <= raised@.len(),
                        index < self.models@.len(),
                        self.queue@.len() == old(self).queue@.len() + i,
                        self@.queue == queue_before + on_model(index as int, texts(raised@).take(i as int)),
                        forall|q: int|
                            0 <= q < self.queue@.len() ==> (#[trigger] self.queue@[q]).model
                                < self.models@.len(),
                        self.states@ == old(self).states@,
                        self.events@ == old(self).events@,
                        self.models@ == old(self).models@.update(index as int, self.models@[index as int]),
                        self.models@[index as int]@ == landed.model,
                        self.models@[index as int].wf(),
                        self.initial == old(self).initial,
                        self.journal@ == old(self).journal@,
                        self@ == (MachineView { models: self@.models, queue: self@.queue, ..before }),
                    decreases raised@.len() - i,
                {
                    let ghost queue_now = self@.queue;
                    self.queue.push_back(Pending::new(index, raised[i].clone()));
                    proof {
                        assert(self@.queue =~= queue_now.push((index as int, raised@[i as int]@)));
                        assert(on_model(index as int, texts(raised@).take(i + 1)) =~= on_model(
                            index as int,
                            texts(raised@).take(i as int),
                        ).push((index as int, raised@[i as int]@)));
                        assert(self@.queue =~= queue_before + on_model(
                            index as int,
                            texts(raised@).take(i + 1),
                        ));
                    }
                    i = i + 1;
                }
                proof {
                    self.journal@ = self.journal@.push(record);
                    assert(texts(raised@).take(raised@.len() as int) =~= texts(raised@));
                    assert(record.steps() == concat(record.attempts) + record.finalized);
                    assert(record.steps() == steps);
                    assert(before.candidates(entry@.1, state) == before.event_named(entry@.1).candidates(state));
                    assert(before.moved(record) == landed.model);
                    assert(self@.models =~= before.models.update(index as int, before.moved(record)));
                    assert(self@ == before.after(record));
                    let candidates = before.candidates(entry@.1, state);
                    if landed.model != before.models[index as int] {
                        let tried = candidates[record.attempts.len() - 1];
                        assert(before.event_named(entry@.1).groups[position(
                            crate::event::group_sources(before.event_named(entry@.1).groups),
                            state,
                        )->Some_0].transitions[record.attempts.len() - 1] == tried);
                        assert(tried.within(names_of(before.states)));
                    }
                    assert(self.binds(self.models@[index as int]@));
                }
                fired
            },
        }
    }
}

impl MachineView {
    /// The machine with `trigger` as the only waiting trigger.
    pub open spec fn submitted(self, trigger: (int, Seq<char>)) -> MachineView {
        MachineView { queue: seq![trigger], ..self }
    }

    /// Whether `after` and `outcome` are what handing the trigger `entry` to
    /// the machine can lead to.
    ///
    /// A machine that does not queue serves the trigger at once, which
    /// leaves one record, and the outcome is that of the record; if a
    /// trigger is waiting, a transition is in flight, and the outcome is
    /// `MachineError` with nothing changed.
    ///
    /// A machine that queues puts the trigger at the end of the queue. If
    /// others were waiting, that is all, and the outcome is `Ok(true)`.
    /// Else the queue is served from its front until it is empty or a
    /// trigger fails, which leaves the records `done`.
    #[verifier::opaque]
    pub open spec fn admits(self, entry: (int, Seq<char>), after: MachineView, outcome: Result<bool, ErrorView>) -> bool {
        let done = after.journal.skip(self.journal.len() as int);
        &&& after.journal.len() >= self.journal.len()
        &&& after.journal.take(self.journal.len() as int) == self.journal
        &&& if !self.queued {
            if self.queue.len() > 0 {
                &&& after == self
                &&& outcome == Err::<bool, ErrorView>(ErrorView::MachineError(reentrancy_text()))
            } else {
                &&& done.len() == 1
                &&& self.records(entry, done[0])
                &&& after == self.after(done[0])
                &&& outcome == done[0].outcome
            }
        } else {
            if self.queue.len() > 0 {
                &&& after == (MachineView { queue: self.queue.push(entry), ..self })
                &&& outcome == Ok::<bool, ErrorView>(true)
            } else {
                &&& done.len() >= 1
                &&& self.submitted(entry).drains(done)
                &&& after == (MachineView { queue: Seq::empty(), ..self.submitted(entry).drained(done) })
                &&& outcome == self.submitted(entry).drain_outcome(done)
                &&& outcome == Err::<bool, ErrorView>(ErrorView::MachineError(ceiling_text()))
                    && done.last().outcome is Ok ==> done.len() == usize::MAX
            }
        }
    }

    /// Whether `after` and `outcome` are what the trigger called `trigger`
    /// on the model with the index `model` can lead to: where the machine
    /// has no such event nothing changes, and the outcome is `Ok(false)` if
    /// invalid triggers are ignored in the model's state and
    /// `UnknownEventError` otherwise; else the trigger is handed to the
    /// machine.
    #[verifier::opaque]
    pub open spec fn triggered(
        self,
        model: int,
        trigger: Seq<char>,
        after: MachineView,
        outcome: Result<bool, ErrorView>,
    ) -> bool {
        if self.has_event(trigger) {
            self.admits((model, trigger), after, outcome)
        } else {
            &&& after == self
            &&& outcome == if self.ignores(self.state_of(model)) {
                Ok::<bool, ErrorView>(false)
            } else {
                Err(ErrorView::UnknownEventError(trigger))
            }
        }
    }

    /// What a drain that served `done` returns: the failure of the last
    /// trigger if it failed, `Ok(true)` if the queue ran empty, and the
    /// failure to drain otherwise.
    pub open spec fn drain_outcome(self, done: Seq<EventRecord>) -> Result<bool, ErrorView> {
        if done.len() > 0 && done.last().outcome is Err {
            Err(done.last().outcome->Err_0)
        } else if self.drained(done).queue.len() == 0 {
            Ok(true)
        } else {
            Err(ErrorView::MachineError(ceiling_text()))
        }
    }
}

impl Machine {
    /// Hands a trigger to the machine, which runs it now or in its turn.
    ///
    /// A machine that does not queue runs the trigger at once and returns
    /// what it amounts to; if a trigger is waiting, a transition is in
    /// flight, and the trigger fails with [`Error::MachineError`].
    ///
    /// A machine that queues puts the trigger at the end of the queue. If
    /// others were waiting, that is all, and the result is `Ok(true)`: the
    /// trigger runs later, in its turn. Else the machine serves the queue
    /// from its front, each trigger to its end before the next begins, until
    /// the queue is empty, and returns `Ok(true)`; triggers that callbacks
    /// raise on the way join the queue at its end. A trigger that fails
    /// empties the queue, and its failure is returned.
    ///
    /// The steps of the records that join the journal were put to the host
    /// one after the other, record by record, and each reply is what the
    /// host handed back. At every step of a record the event data that the
    /// host was handed showed what the steps before it had made of fresh
    /// data for the trigger of the record and the model as it was when the
    /// trigger's turn came.
    pub fn _process<H: Host>(&mut self, trigger: Pending, host: &mut H) -> (r: Result<bool, Error>)
        requires
            old(self).wf(),
            trigger@.0 < old(self)@.models.len(),
        ensures
            final(self).wf(),
            old(self)@.admits(trigger@, final(self)@, outcome_view(r)),
            exists|stops: Seq<H>|
                #[trigger] spans(stops, *old(host), *final(host), final(self)@.journal.skip(old(self)@.journal.len() as int).len()) && forall|k: int|
                    #[trigger] nth(k, final(self)@.journal.skip(old(self)@.journal.len() as int).len()) ==> exists|hosts: Seq<H>, datas: Seq<EventData>|
                        #[trigger] asked(hosts, datas, stops[k], old(self)@.shows(final(self)@.journal.skip(old(self)@.journal.len() as int)[k]), final(self)@.journal.skip(old(self)@.journal.len() as int)[k].steps()) && hosts.last() == stops[k + 1] && forall|i: int|
                            0 <= i < final(self)@.journal.skip(old(self)@.journal.len() as int)[k].steps().len() && reaches_host(#[trigger] final(self)@.journal.skip(old(self)@.journal.len() as int)[k].steps()[i]) ==> exists|via: &mut H|
                                mut_ref_future(via) == hosts[i + 1] && #[trigger] answered(via, hosts[i], datas[i], final(self)@.journal.skip(old(self)@.journal.len() as int)[k].steps()[i]),
    {
        let ghost before = self@;
        proof {
            reveal(MachineView::admits);
        }
        if !self.queued {
            if self.queue.len() > 0 {
                proof {
                    assert(self@.journal.take(self@.journal.len() as int) =~= self@.journal);
                    lemma_served_nothing(*host, self@.journal.skip(before.journal.len() as int), before);
                }
                return Err(
                    Error::MachineError(
                        String::from_str(
                            "Attempt to process events synchronously while transition queue is not empty!",
                        ),
                    ),
                );
            }
            let fired = self.serve(&trigger, host);
            proof {
                assert(self@.journal.take(before.journal.len() as int) =~= before.journal);
                assert(self@.journal.skip(before.journal.len() as int) =~= seq![self@.journal.last()]);
                lemma_served_once(*old(host), *host, self@.journal.skip(before.journal.len() as int), before);
            }
            return fired;
        }
        let ghost waiting = self@.queue;
        self.queue.push_back(trigger);
        proof {
            assert(self@.queue =~= waiting.push(trigger@));
            assert(self@.journal.take(self@.journal.len() as int) =~= self@.journal);
        }
        if self.queue.len() > 1 {
            proof {
                assert(outcome_view(Ok::<bool, Error>(true)) == Ok::<bool, ErrorView>(true));
                lemma_served_nothing(*host, self@.journal.skip(before.journal.len() as int), before);
            }
            return Ok(true);
        }
        let ghost begin = before.submitted(trigger@);
        let ghost mut done: Seq<EventRecord> = Seq::empty();
        let mut served: usize = 0;
        let mut failure: Option<Error> = None;
        proof {
            assert(self@.queue =~= seq![trigger@]);
            assert(self@ == begin);
            assert(self@.journal =~= before.journal + done);
            lemma_served_nothing(*host, done, before);
        }
        while failure.is_none() && self.queue.len() > 0 && served < usize::MAX
            invariant
                self.wf(),
                begin == before.submitted(trigger@),
                before.queued,
                done.len() == served,
                begin.drains(done),
                self@ == begin.drained(done),
                self@.journal == before.journal + done,
                failure is Some ==> done.len() > 0 && done.last().outcome == Err::<bool, ErrorView>(
                    failure->Some_0@,
                ),
                failure is None ==> (done.len() > 0 ==> done.last().outcome is Ok),
                trigger@.0 < before.models.len(),
                exists|stops: Seq<H>|
                    #[trigger] spans(stops, *old(host), *host, done.len()) && forall|k: int|
                        #[trigger] nth(k, done.len()) ==> exists|hosts: Seq<H>, datas: Seq<EventData>|
                            #[trigger] asked(hosts, datas, stops[k], before.shows(done[k]), done[k].steps()) && hosts.last() == stops[k + 1] && forall|i: int|
                                0 <= i < done[k].steps().len() && reaches_host(#[trigger] done[k].steps()[i]) ==> exists|via: &mut H|
                                    mut_ref_future(via) == hosts[i + 1] && #[trigger] answered(via, hosts[i], datas[i], done[k].steps()[i]),
            decreases usize::MAX - served,
        {
            let front = self.queue[0].clone();
            let ghost middle = self@;
            let ghost host_before = *host;
            proof {
                lemma_drained_keeps(begin, done);
                assert(middle.agrees(before));
                assert(middle.queue[0] == self.queue@[0]@);
                assert(self.queue@[0].model < self.models@.len());
            }
            let fired = self.serve(&front, host);
            let ghost record = self@.journal.last();
            let ghost longer = done.push(record);
            proof {
                assert(longer.drop_last() =~= done);
                assert(longer.last() == record);
                assert(self@.journal =~= before.journal + longer);
                assert(middle.after(record).queue.len() > 0);
                let one = seq![record];
                assert(one[0] == record);
                lemma_served_once(host_before, *host, one, middle);
                assert(longer =~= done + one);
                lemma_served_then(*old(host), host_before, *host, done, one, longer, before, middle);
            }
            match fired {
                Err(e) => {
                    self.queue.clear();
                    proof {
                        assert(self@.queue =~= Seq::<(int, Seq<char>)>::empty());
                    }
                    failure = Some(e);
                },
                Ok(_) => {
                    let ghost queue_now = self@.queue;
                    let _ = self.queue.pop_front();
                    proof {
                        assert(self@.queue =~= queue_now.skip(1));
                    }
                },
            }
            proof {
                assert(self@ == middle.served(record));
                done = longer;
            }
            served = served + 1;
        }
        proof {
            reveal(MachineView::admits);
            assert(self@.journal.take(before.journal.len() as int) =~= before.journal);
            assert(self@.journal.skip(before.journal.len() as int) =~= done);
        }
        match failure {
            Some(e) => Err(e),
            None => {
                if self.queue.len() > 0 {
                    self.queue.clear();
                    proof {
                        assert(self@.queue =~= Seq::<(int, Seq<char>)>::empty());
                    }
                    Err(Error::MachineError(String::from_str("The transition queue did not drain.")))
                } else {
                    proof {
                        assert(self@.queue =~= Seq::<(int, Seq<char>)>::empty());
                    }
                    Ok(true)
                }
            },
        }
    }

    /// Triggers the event called `trigger` on the model with the index
    /// `model`.
    ///
    /// Where the machine has no such event, nothing runs: the result is
    /// `Ok(false)` if invalid triggers are ignored in the model's state, and
    /// [`Error::UnknownEventError`] otherwise. Else the trigger is handed to
    /// [`Machine::_process`], whose result is returned.
    ///
    /// The steps of the records that join the journal were put to the host
    /// one after the other, record by record, and each reply is what the
    /// host handed back. At every step of a record the event data that the
    /// host was handed showed what the steps before it had made of fresh
    /// data for the trigger of the record and the model as it was when the
    /// trigger's turn came.
    pub fn trigger<H: Host>(&mut self, model: usize, trigger: &str, host: &mut H) -> (r: Result<bool, Error>)
        requires
            old(self).wf(),
            model < old(self)@.models.len(),
        ensures
            final(self).wf(),
            old(self)@.triggered(model as int, trigger@, final(self)@, outcome_view(r)),
            exists|stops: Seq<H>|
                #[trigger] spans(stops, *old(host), *final(host), final(self)@.journal.skip(old(self)@.journal.len() as int).len()) && forall|k: int|
                    #[trigger] nth(k, final(self)@.journal.skip(old(self)@.journal.len() as int).len()) ==> exists|hosts: Seq<H>, datas: Seq<EventData>|
                        #[trigger] asked(hosts, datas, stops[k], old(self)@.shows(final(self)@.journal.skip(old(self)@.journal.len() as int)[k]), final(self)@.journal.skip(old(self)@.journal.len() as int)[k].steps()) && hosts.last() == stops[k + 1] && forall|i: int|
                            0 <= i < final(self)@.journal.skip(old(self)@.journal.len() as int)[k].steps().len() && reaches_host(#[trigger] final(self)@.journal.skip(old(self)@.journal.len() as int)[k].steps()[i]) ==> exists|via: &mut H|
                                mut_ref_future(via) == hosts[i + 1] && #[trigger] answered(via, hosts[i], datas[i], final(self)@.journal.skip(old(self)@.journal.len() as int)[k].steps()[i]),
    {
        proof {
            reveal(MachineView::triggered);
        }
        let name = String::from_str(trigger);
        match self.find_event(&name) {
            None => {
                proof {
                    lemma_served_nothing(*host, self@.journal.skip(self@.journal.len() as int), self@);
                }
                let ignore = match self.get_model_state(model).ignore_invalid_triggers() {
                    Some(own) => own,
                    None => self.ignore_invalid_triggers,
                };
                if ignore {
                    Ok(false)
                } else {
                    Err(Error::UnknownEventError(name))
                }
            },
            Some(e) => {
                let pending = self.events[e].trigger(model);
                self._process(pending, host)
            },
        }
    }
}

impl MachineView {
    /// The state that a model bound with `initial` starts in: `initial`
    /// where it is given, the machine's initial state otherwise.
    pub open spec fn start_state(self, initial: Option<Seq<char>>) -> Option<Seq<char>> {
        match initial {
            Some(state) => Some(state),
            None => self.initial,
        }
    }

    /// The models with the state attribute of each set to `state`.
    pub open spec fn all_in(self, state: Seq<char>) -> Seq<Map<Seq<char>, Seq<char>>> {
        Seq::new(self.models.len(), |m: int| self.models[m].insert(self.model_attribute, state))
    }
}

impl Machine {
    /// Binds `model` to the machine and puts it in its first state:
    /// `initial` where it is given, the machine's initial state otherwise.
    /// The result is the index under which the machine knows the model.
    ///
    /// Without any first state the binding fails with
    /// [`Error::InitialStateError`], and with one that is not registered,
    /// with [`Error::RegisteredStateError`]; the machine is then as it was.
    pub fn add_model(&mut self, model: Model, initial: Option<&str>) -> (r: Result<usize, Error>)
        requires
            old(self).wf(),
            model.wf(),
        ensures
            final(self).wf(),
            match old(self)@.start_state(crate::registry::optional_slice(initial)) {
                None => outcome_view(r) == Err::<usize, ErrorView>(ErrorView::InitialStateError)
                    && final(self)@ == old(self)@,
                Some(state) => if old(self)@.has_state(state) {
                    r == Ok::<usize, Error>(old(self)@.models.len() as usize) && final(self)@ == (MachineView {
                        models: old(self)@.models.push(model@.insert(old(self)@.model_attribute, state)),
                        ..old(self)@
                    })
                } else {
                    outcome_view(r) == Err::<usize, ErrorView>(ErrorView::RegisteredStateError(state))
                        && final(self)@ == old(self)@
                },
            },
    {
        let state = match initial {
            Some(given) => String::from_str(given),
            None => match &self.initial {
                Some(own) => own.clone(),
                None => {
                    return Err(Error::InitialStateError);
                },
            },
        };
        match self.find_state(&state) {
            None => Err(Error::RegisteredStateError(state)),
            Some(_) => {
                let mut model = model;
                model.set(&self.model_attribute, state);
                let ghost bound = model@;
                self.models.push(model);
                proof {
                    assert(self@.models =~= old(self)@.models.push(bound));
                    assert(self.states@ == old(self).states@);
                    assert forall|m: int| 0 <= m < self.models@.len() implies (#[trigger] self.models@[m]).wf()
                        && self.binds(self.models@[m]@) by {
                        if m < old(self).models@.len() {
                            assert(self.models@[m] == old(self).models@[m]);
                        }
                    }
                }
                Ok(self.models.len() - 1)
            },
        }
    }

    /// Unbinds the model with the index `model` and hands it back. The
    /// models behind it move up by one, and the triggers that were waiting
    /// are dropped.
    pub fn remove_model(&mut self, model: usize) -> (r: Model)
        requires
            old(self).wf(),
            model < old(self)@.models.len(),
        ensures
            final(self).wf(),
            r.wf(),
            r@ == old(self)@.models[model as int],
            final(self)@ == (MachineView {
                models: old(self)@.models.remove(model as int),
                queue: Seq::empty(),
                ..old(self)@
            }),
    {
        let removed = self.models.remove(model);
        self.queue.clear();
        proof {
            assert(self@.models =~= old(self)@.models.remove(model as int));
            assert(self@.queue =~= Seq::<(int, Seq<char>)>::empty());
            assert(self.states@ == old(self).states@);
            assert forall|m: int| 0 <= m < self.models@.len() implies (#[trigger] self.models@[m]).wf()
                && self.binds(self.models@[m]@) by {
                if m < model {
                    assert(self.models@[m] == old(self).models@[m]);
                } else {
                    assert(self.models@[m] == old(self).models@[m + 1]);
                }
            }
        }
        removed
    }

    /// Puts the model with the index `model`, or every bound model where
    /// none is given, in the state called `state`, without running any
    /// callback. A state that is not registered is the failure
    /// [`Error::RegisteredStateError`], and no model is touched.
    pub fn set_state(&mut self, state: &str, model: Option<usize>) -> (r: Result<(), Error>)
        requires
            old(self).wf(),
            model is Some ==> model->Some_0 < old(self)@.models.len(),
        ensures
            final(self).wf(),
            if !old(self)@.has_state(state@) {
                outcome_view(r) == Err::<(), ErrorView>(ErrorView::RegisteredStateError(state@))
                    && final(self)@ == old(self)@
            } else {
                r is Ok && final(self)@ == (MachineView {
                    models: match model {
                        Some(m) => old(self)@.models.update(
                            m as int,
                            old(self)@.models[m as int].insert(old(self)@.model_attribute, state@),
                        ),
                        None => old(self)@.all_in(state@),
                    },
                    ..old(self)@
                })
            },
    {
        let name = String::from_str(state);
        if self.find_state(&name).is_none() {
            return Err(Error::RegisteredStateError(name));
        }
        match model {
            Some(m) => {
                self.models[m].set(&self.model_attribute, name);
                proof {
                    assert(self@.models =~= old(self)@.models.update(
                        m as int,
                        old(self)@.models[m as int].insert(old(self)@.model_attribute, state@),
                    ));
                    assert forall|k: int| 0 <= k < self.models@.len() implies (#[trigger] self.models@[k]).wf()
                        && self.binds(self.models@[k]@) by {
                        if k != m as int {
                            assert(self.models@[k] == old(self).models@[k]);
                        }
                    }
                }
            },
            None => {
                let mut i: usize = 0;
                while i < self.models.len()
                    invariant
                        i <= self.models@.len(),
                        self.models@.len() == old(self).models@.len(),
                        name@ == state@,
                        old(self).wf(),
                        old(self)@.has_state(state@),
                        self@ == (MachineView { models: self@.models, ..old(self)@ }),
                        self.states@ == old(self).states@,
                        self.events@ == old(self).events@,
                        self.queue@ == old(self).queue@,
                        self.initial == old(self).initial,
                        forall|k: int|
                            0 <= k < i ==> (#[trigger] self.models@[k]).wf() && self.models@[k]@ == old(self).models@[k]@.insert(old(self)@.model_attribute, state@),
                        forall|k: int|
                            i <= k < self.models@.len() ==> (#[trigger] self.models@[k]) == old(self).models@[k],
                    decreases self.models@.len() - i,
                {
                    proof {
                        assert(self.models@[i as int] == old(self).models@[i as int]);
                        assert(old(self).models@[i as int].wf());
                    }
                    self.models[i].set(&self.model_attribute, name.clone());
                    i = i + 1;
                }
                proof {
                    assert(self@.models =~= old(self)@.all_in(state@));
                }
            },
        }
        Ok(())
    }
}

/// What the machine keeps while it serves triggers: everything but the
/// models' states, the queue and the journal.
pub proof fn lemma_drained_keeps(begin: MachineView, done: Seq<EventRecord>)
    requires
        begin.drains(done),
        forall|q: int| 0 <= q < begin.queue.len() ==> 0 <= (#[trigger] begin.queue[q]).0 < begin.models.len(),
    ensures
        begin.drained(done) == (MachineView {
            models: begin.drained(done).models,
            queue: begin.drained(done).queue,
            journal: begin.drained(done).journal,
            ..begin
        }),
        begin.drained(done).models.len() == begin.models.len(),
        forall|q: int|
            0 <= q < begin.drained(done).queue.len() ==> 0 <= (#[trigger] begin.drained(done).queue[q]).0
                < begin.models.len(),
    decreases done.len(),
{
    if done.len() > 0 {
        lemma_drained_keeps(begin, done.drop_last());
        let middle = begin.drained(done.drop_last());
        let record = done.last();
        assert(record.model == middle.queue[0].0);
        let after = middle.after(record);
        assert forall|q: int| 0 <= q < after.queue.len() implies 0 <= (#[trigger] after.queue[q]).0
            < begin.models.len() by {
            if q < middle.queue.len() {
                assert(after.queue[q] == middle.queue[q]);
            } else {
                assert(after.queue[q] == record.queues(middle.queued)[q - middle.queue.len()]);
            }
        }
        assert forall|q: int| 0 <= q < begin.drained(done).queue.len() implies 0 <= (
        #[trigger] begin.drained(done).queue[q]).0 < begin.models.len() by {
            if record.outcome is Ok {
                assert(begin.drained(done).queue[q] == after.queue[q + 1]);
            }
        }
    }
}

/// A trigger leaves the number of models as it is.
pub proof fn lemma_triggered_keeps(
    before: MachineView,
    model: int,
    trigger: Seq<char>,
    after: MachineView,
    outcome: Result<bool, ErrorView>,
)
    requires
        before.triggered(model, trigger, after, outcome),
        0 <= model < before.models.len(),
    ensures
        after.models.len() == before.models.len(),
        after.journal.len() >= before.journal.len(),
        after.journal.take(before.journal.len() as int) == before.journal,
        after.agrees(before),
{
    reveal(MachineView::admits);
    reveal(MachineView::triggered);
    assert(before.journal.take(before.journal.len() as int) =~= before.journal);
    if before.has_event(trigger) {
        let done = after.journal.skip(before.journal.len() as int);
        if before.queued && before.queue.len() == 0 {
            lemma_drained_keeps(before.submitted((model, trigger)), done);
        }
    }
}

impl MachineView {
    /// Whether `views` and `outcomes` are what triggering `trigger` on one
    /// model after the other can lead to, as far as the round has got: each
    /// trigger starts from what the one before left, and only the last can
    /// have failed.
    pub open spec fn rounds(
        self,
        trigger: Seq<char>,
        views: Seq<MachineView>,
        outcomes: Seq<Result<bool, ErrorView>>,
    ) -> bool {
        &&& views.len() == outcomes.len() + 1
        &&& views[0] == self
        &&& outcomes.len() <= self.models.len()
        &&& forall|i: int|
            0 <= i < outcomes.len() ==> (#[trigger] views[i]).triggered(i, trigger, views[i + 1], outcomes[i])
        &&& forall|i: int| 0 <= i < outcomes.len() - 1 ==> (#[trigger] outcomes[i]) is Ok
    }

    /// Whether `views` and `outcomes` are what a whole round of triggers
    /// can lead to: the round ends behind the last model, or at a failure.
    pub open spec fn dispatched(
        self,
        trigger: Seq<char>,
        views: Seq<MachineView>,
        outcomes: Seq<Result<bool, ErrorView>>,
    ) -> bool {
        &&& self.rounds(trigger, views, outcomes)
        &&& outcomes.len() < self.models.len() ==> outcomes.len() > 0 && outcomes.last() is Err
    }
}

/// Whether every outcome is `Ok(true)`.
pub open spec fn all_fired(outcomes: Seq<Result<bool, ErrorView>>) -> bool {
    forall|i: int| 0 <= i < outcomes.len() ==> #[trigger] outcomes[i] == Ok::<bool, ErrorView>(true)
}

/// What a round of triggers amounts to: the failure that ended it, or else
/// whether every trigger amounted to `Ok(true)`.
pub open spec fn dispatch_outcome(outcomes: Seq<Result<bool, ErrorView>>) -> Result<bool, ErrorView> {
    if outcomes.len() > 0 && outcomes.last() is Err {
        Err(outcomes.last()->Err_0)
    } else {
        Ok(all_fired(outcomes))
    }
}

/// One more trigger in a round.
pub proof fn lemma_round_extends(
    begin: MachineView,
    trigger: Seq<char>,
    views: Seq<MachineView>,
    outcomes: Seq<Result<bool, ErrorView>>,
    after: MachineView,
    outcome: Result<bool, ErrorView>,
)
    requires
        begin.rounds(trigger, views, outcomes),
        outcomes.len() < begin.models.len(),
        outcomes.len() > 0 ==> outcomes.last() is Ok,
        views.last().triggered(outcomes.len() as int, trigger, after, outcome),
    ensures
        begin.rounds(trigger, views.push(after), outcomes.push(outcome)),
        all_fired(outcomes.push(outcome)) == (all_fired(outcomes) && outcome == Ok::<bool, ErrorView>(true)),
{
    let longer_views = views.push(after);
    let longer = outcomes.push(outcome);
    assert forall|k: int| 0 <= k < longer.len() implies (#[trigger] longer_views[k]).triggered(
        k,
        trigger,
        longer_views[k + 1],
        longer[k],
    ) by {
        if k < outcomes.len() {
            assert(longer_views[k] == views[k]);
            assert(longer_views[k + 1] == views[k + 1]);
            assert(longer[k] == outcomes[k]);
        } else {
            assert(longer_views[k] == views.last());
        }
    }
    assert forall|k: int| 0 <= k < longer.len() - 1 implies (#[trigger] longer[k]) is Ok by {
        assert(longer[k] == outcomes[k]);
        if k == outcomes.len() - 1 {
            assert(outcomes[k] == outcomes.last());
        }
    }
    if all_fired(outcomes) && outcome == Ok::<bool, ErrorView>(true) {
        assert forall|i: int| 0 <= i < longer.len() implies #[trigger] longer[i] == Ok::<bool, ErrorView>(
            true,
        ) by {
            if i < outcomes.len() {
                assert(longer[i] == outcomes[i]);
            }
        }
    }
    if all_fired(longer) {
        assert(longer[outcomes.len() as int] == outcome);
        assert forall|i: int| 0 <= i < outcomes.len() implies #[trigger] outcomes[i] == Ok::<bool, ErrorView>(
            true,
        ) by {
            assert(longer[i] == outcomes[i]);
        }
    }
}

impl Machine {
    /// Triggers the event called `trigger` on every bound model, one after
    /// the other in the order of their indices. The result is whether every
    /// trigger returned `Ok(true)`; a trigger that fails ends the round with
    /// its failure, and the models behind it are not triggered.
    ///
    /// The steps of the records that join the journal were put to the host
    /// one after the other, record by record, and each reply is what the
    /// host handed back. At every step of a record the event data that the
    /// host was handed showed what the steps before it had made of fresh
    /// data for the trigger of the record and the model as it was when the
    /// trigger's turn came.
    pub fn dispatch<H: Host>(&mut self, trigger: &str, host: &mut H) -> (r: Result<bool, Error>)
        requires
            old(self).wf(),
        ensures
            final(self).wf(),
            exists|views: Seq<MachineView>, outcomes: Seq<Result<bool, ErrorView>>|
                #[trigger] old(self)@.dispatched(trigger@, views, outcomes) && final(self)@ == views.last()
                    && outcome_view(r) == dispatch_outcome(outcomes),
            final(self)@.journal.len() >= old(self)@.journal.len(),
            final(self)@.journal.take(old(self)@.journal.len() as int) == old(self)@.journal,
            exists|stops: Seq<H>|
                #[trigger] spans(stops, *old(host), *final(host), final(self)@.journal.skip(old(self)@.journal.len() as int).len()) && forall|k: int|
                    #[trigger] nth(k, final(self)@.journal.skip(old(self)@.journal.len() as int).len()) ==> exists|hosts: Seq<H>, datas: Seq<EventData>|
                        #[trigger] asked(hosts, datas, stops[k], old(self)@.shows(final(self)@.journal.skip(old(self)@.journal.len() as int)[k]), final(self)@.journal.skip(old(self)@.journal.len() as int)[k].steps()) && hosts.last() == stops[k + 1] && forall|i: int|
                            0 <= i < final(self)@.journal.skip(old(self)@.journal.len() as int)[k].steps().len() && reaches_host(#[trigger] final(self)@.journal.skip(old(self)@.journal.len() as int)[k].steps()[i]) ==> exists|via: &mut H|
                                mut_ref_future(via) == hosts[i + 1] && #[trigger] answered(via, hosts[i], datas[i], final(self)@.journal.skip(old(self)@.journal.len() as int)[k].steps()[i]),
    {
        let ghost before = self@;
        let ghost mut views: Seq<MachineView> = seq![self@];
        let ghost mut outcomes: Seq<Result<bool, ErrorView>> = Seq::empty();
        let count = self.models.len();
        proof {
            assert(self@.journal.take(self@.journal.len() as int) =~= self@.journal);
            lemma_served_nothing(*host, self@.journal.skip(before.journal.len() as int), before);
        }
        let mut all = true;
        let mut i: usize = 0;
        while i < count
            invariant
                i <= count,
                before == old(self)@,
                count == before.models.len(),
                self.wf(),
                self@.models.len() == count,
                outcomes.len() == i,
                before.rounds(trigger@, views, outcomes),
                views.last() == self@,
                outcomes.len() > 0 ==> outcomes.last() is Ok,
                all == all_fired(outcomes),
                self@.journal.len() >= before.journal.len(),
                self@.journal.take(before.journal.len() as int) == before.journal,
                self@.agrees(before),
                exists|stops: Seq<H>|
                    #[trigger] spans(stops, *old(host), *host, self@.journal.skip(before.journal.len() as int).len()) && forall|k: int|
                        #[trigger] nth(k, self@.journal.skip(before.journal.len() as int).len()) ==> exists|hosts: Seq<H>, datas: Seq<EventData>|
                            #[trigger] asked(hosts, datas, stops[k], before.shows(self@.journal.skip(before.journal.len() as int)[k]), self@.journal.skip(before.journal.len() as int)[k].steps()) && hosts.last() == stops[k + 1] && forall|i: int|
                                0 <= i < self@.journal.skip(before.journal.len() as int)[k].steps().len() && reaches_host(#[trigger] self@.journal.skip(before.journal.len() as int)[k].steps()[i]) ==> exists|via: &mut H|
                                    mut_ref_future(via) == hosts[i + 1] && #[trigger] answered(via, hosts[i], datas[i], self@.journal.skip(before.journal.len() as int)[k].steps()[i]),
            decreases count - i,
        {
            let ghost now = self@;
            let ghost host_before = *host;
            let fired = self.trigger(i, trigger, host);
            proof {
                lemma_triggered_keeps(now, i as int, trigger@, self@, outcome_view(fired));
                let earlier = now.journal.skip(before.journal.len() as int);
                let segment = self@.journal.skip(now.journal.len() as int);
                let total = self@.journal.skip(before.journal.len() as int);
                assert(self@.journal =~= now.journal + segment);
                assert(total =~= earlier + segment);
                assert(self@.journal.take(before.journal.len() as int) =~= before.journal);
                lemma_served_then(*old(host), host_before, *host, earlier, segment, total, before, now);
                lemma_round_extends(before, trigger@, views, outcomes, self@, outcome_view(fired));
                views = views.push(self@);
                outcomes = outcomes.push(outcome_view(fired));
            }
            match fired {
                Err(e) => {
                    proof {
                        assert(outcomes.last() == outcome_view(fired));
                        assert(before.dispatched(trigger@, views, outcomes));
                    }
                    return Err(e);
                },
                Ok(done) => {
                    proof {
                        assert(outcomes.last() == outcome_view(fired));
                    }
                    all = all && done;
                },
            }
            i = i + 1;
        }
        proof {
            assert(before.dispatched(trigger@, views, outcomes));
        }
        Ok(all)
    }
}


/// Whether `k` counts one of `count` triggers.
pub open spec fn nth(k: int, count: nat) -> bool {
    0 <= k < count
}

/// Whether `stops` holds the host before each of `count` triggers and
/// behind the last, from `first` to `last`.
pub open spec fn spans<H: Host>(stops: Seq<H>, first: H, last: H, count: nat) -> bool {
    &&& stops.len() == count + 1
    &&& stops[0] == first
    &&& stops.last() == last
}

/// Machines with the same registry and configuration show the host the
/// same at every step of a record.
pub proof fn lemma_shows_the_same(machine: MachineView, other: MachineView, record: EventRecord)
    requires
        machine.agrees(other),
    ensures
        machine.shows(record) == other.shows(record),
{
}

/// No trigger was served, and the host is as it was.
pub proof fn lemma_served_nothing<H: Host>(host: H, done: Seq<EventRecord>, machine: MachineView)
    requires
        done.len() == 0,
    ensures
        exists|stops: Seq<H>|
            #[trigger] spans(stops, host, host, done.len()) && forall|k: int|
                #[trigger] nth(k, done.len()) ==> exists|hosts: Seq<H>, datas: Seq<EventData>|
                    #[trigger] asked(hosts, datas, stops[k], machine.shows(done[k]), done[k].steps()) && hosts.last() == stops[k + 1] && forall|i: int|
                        0 <= i < done[k].steps().len() && reaches_host(#[trigger] done[k].steps()[i]) ==> exists|via: &mut H|
                            mut_ref_future(via) == hosts[i + 1] && #[trigger] answered(via, hosts[i], datas[i], done[k].steps()[i]),
{
    let stops = seq![host];
    assert(spans(stops, host, host, done.len()));
}

/// One trigger was served, whose steps took the host from `before` to
/// `after`.
pub proof fn lemma_served_once<H: Host>(before: H, after: H, done: Seq<EventRecord>, machine: MachineView)
    requires
        done.len() == 1,
        exists|hosts: Seq<H>, datas: Seq<EventData>|
            #[trigger] asked(hosts, datas, before, machine.shows(done[0]), done[0].steps()) && hosts.last() == after && forall|i: int|
                0 <= i < done[0].steps().len() && reaches_host(#[trigger] done[0].steps()[i]) ==> exists|via: &mut H|
                    mut_ref_future(via) == hosts[i + 1] && #[trigger] answered(via, hosts[i], datas[i], done[0].steps()[i]),
    ensures
        exists|stops: Seq<H>|
            #[trigger] spans(stops, before, after, done.len()) && forall|k: int|
                #[trigger] nth(k, done.len()) ==> exists|hosts: Seq<H>, datas: Seq<EventData>|
                    #[trigger] asked(hosts, datas, stops[k], machine.shows(done[k]), done[k].steps()) && hosts.last() == stops[k + 1] && forall|i: int|
                        0 <= i < done[k].steps().len() && reaches_host(#[trigger] done[k].steps()[i]) ==> exists|via: &mut H|
                            mut_ref_future(via) == hosts[i + 1] && #[trigger] answered(via, hosts[i], datas[i], done[k].steps()[i]),
{
    let stops = seq![before, after];
    assert(spans(stops, before, after, done.len()));
    assert forall|k: int|
        #[trigger] nth(k, done.len()) implies exists|hosts: Seq<H>, datas: Seq<EventData>|
            #[trigger] asked(hosts, datas, stops[k], machine.shows(done[k]), done[k].steps()) && hosts.last() == stops[k + 1] && forall|i: int|
                0 <= i < done[k].steps().len() && reaches_host(#[trigger] done[k].steps()[i]) ==> exists|via: &mut H|
                    mut_ref_future(via) == hosts[i + 1] && #[trigger] answered(via, hosts[i], datas[i], done[k].steps()[i]) by {
        assert(k == 0);
        assert(stops[k] == before);
        assert(stops[k + 1] == after);
    }
}

/// Triggers whose steps took the host from `first` to `middle`, followed by
/// triggers whose steps took it from `middle` to `last`, took it from
/// `first` to `last`. The later triggers may have been served by a machine
/// that differs from `machine` in the models, the queue and the journal.
pub proof fn lemma_served_then<H: Host>(
    first: H,
    middle: H,
    last: H,
    done: Seq<EventRecord>,
    more: Seq<EventRecord>,
    all: Seq<EventRecord>,
    machine: MachineView,
    later: MachineView,
)
    requires
        all == done + more,
        later.agrees(machine),
        exists|stops: Seq<H>|
            #[trigger] spans(stops, first, middle, done.len()) && forall|k: int|
                #[trigger] nth(k, done.len()) ==> exists|hosts: Seq<H>, datas: Seq<EventData>|
                    #[trigger] asked(hosts, datas, stops[k], machine.shows(done[k]), done[k].steps()) && hosts.last() == stops[k + 1] && forall|i: int|
                        0 <= i < done[k].steps().len() && reaches_host(#[trigger] done[k].steps()[i]) ==> exists|via: &mut H|
                            mut_ref_future(via) == hosts[i + 1] && #[trigger] answered(via, hosts[i], datas[i], done[k].steps()[i]),
        exists|stops: Seq<H>|
            #[trigger] spans(stops, middle, last, more.len()) && forall|k: int|
                #[trigger] nth(k, more.len()) ==> exists|hosts: Seq<H>, datas: Seq<EventData>|
                    #[trigger] asked(hosts, datas, stops[k], later.shows(more[k]), more[k].steps()) && hosts.last() == stops[k + 1] && forall|i: int|
                        0 <= i < more[k].steps().len() && reaches_host(#[trigger] more[k].steps()[i]) ==> exists|via: &mut H|
                            mut_ref_future(via) == hosts[i + 1] && #[trigger] answered(via, hosts[i], datas[i], more[k].steps()[i]),
    ensures
        exists|stops: Seq<H>|
            #[trigger] spans(stops, first, last, all.len()) && forall|k: int|
                #[trigger] nth(k, all.len()) ==> exists|hosts: Seq<H>, datas: Seq<EventData>|
                    #[trigger] asked(hosts, datas, stops[k], machine.shows(all[k]), all[k].steps()) && hosts.last() == stops[k + 1] && forall|i: int|
                        0 <= i < all[k].steps().len() && reaches_host(#[trigger] all[k].steps()[i]) ==> exists|via: &mut H|
                            mut_ref_future(via) == hosts[i + 1] && #[trigger] answered(via, hosts[i], datas[i], all[k].steps()[i]),
{
    let early = choose|stops: Seq<H>|
        #[trigger] spans(stops, first, middle, done.len()) && forall|k: int|
            #[trigger] nth(k, done.len()) ==> exists|hosts: Seq<H>, datas: Seq<EventData>|
                #[trigger] asked(hosts, datas, stops[k], machine.shows(done[k]), done[k].steps()) && hosts.last() == stops[k + 1] && forall|i: int|
                    0 <= i < done[k].steps().len() && reaches_host(#[trigger] done[k].steps()[i]) ==> exists|via: &mut H|
                        mut_ref_future(via) == hosts[i + 1] && #[trigger] answered(via, hosts[i], datas[i], done[k].steps()[i]);
    let late = choose|stops: Seq<H>|
        #[trigger] spans(stops, middle, last, more.len()) && forall|k: int|
            #[trigger] nth(k, more.len()) ==> exists|hosts: Seq<H>, datas: Seq<EventData>|
                #[trigger] asked(hosts, datas, stops[k], later.shows(more[k]), more[k].steps()) && hosts.last() == stops[k + 1] && forall|i: int|
                    0 <= i < more[k].steps().len() && reaches_host(#[trigger] more[k].steps()[i]) ==> exists|via: &mut H|
                        mut_ref_future(via) == hosts[i + 1] && #[trigger] answered(via, hosts[i], datas[i], more[k].steps()[i]);
    let stops = early.drop_last() + late;
    let n = done.len() as int;
    assert(spans(stops, first, last, all.len()));
    assert forall|k: int|
        #[trigger] nth(k, all.len()) implies exists|hosts: Seq<H>, datas: Seq<EventData>|
            #[trigger] asked(hosts, datas, stops[k], machine.shows(all[k]), all[k].steps()) && hosts.last() == stops[k + 1] && forall|i: int|
                0 <= i < all[k].steps().len() && reaches_host(#[trigger] all[k].steps()[i]) ==> exists|via: &mut H|
                    mut_ref_future(via) == hosts[i + 1] && #[trigger] answered(via, hosts[i], datas[i], all[k].steps()[i]) by {
        if k < n {
            assert(nth(k, done.len()));
            assert(all[k] == done[k]);
            assert(stops[k] == early[k]);
            assert(stops[k + 1] == early[k + 1]);
        } else {
            assert(nth(k - n, more.len()));
            assert(all[k] == more[k - n]);
            assert(stops[k] == late[k - n]);
            assert(stops[k + 1] == late[k - n + 1]);
            lemma_shows_the_same(later, machine, more[k - n]);
        }
    }
}

} // verus!
