//! The parts a machine is made of: callbacks, states, guards and
//! transitions, and the pipeline that runs one transition.

use vstd::prelude::*;
use vstd::string::StringExecFns;
use crate::error::{Error, ErrorView, outcome_view};
use crate::event::{EventData, Snapshot};
use crate::host::{
    Host,
    answered,
    asked,
    reaches_host,
    reply_of_predicate,
    resolves_to,
    lemma_linked_nothing,
    lemma_linked_push,
    lemma_linked_stage,
};
use crate::machine::{Machine, state_names};
use crate::sight::{after, following, moved_by, stays, lemma_moved_by_concat, lemma_stays_the_same};
use crate::support::position;
use crate::trace::{
    Action,
    Reply,
    Step,
    Verdict,
    asks,
    calls,
    is_run,
    run_outcome,
    run_queues,
    lemma_run_extends,
    lemma_run_of_nothing,
    lemma_run_of_one,
    lemma_run_queues_concat,
    lemma_run_queues_one,
    lemma_run_step,
    lemma_run_stops,
    lemma_run_whole,
};

verus! {

/// A callback, named by the identifier under which the host resolves it.
#[derive(Debug)]
pub struct TriggerFunction {
    pub(crate) name: String,
}

impl View for TriggerFunction {
    type V = Seq<char>;

    /// The callback's identifier.
    open(crate) spec fn view(&self) -> Seq<char> {
        self.name@
    }
}

/// The identifiers of a sequence of callbacks.
pub open(crate) spec fn trigger_names(callbacks: Seq<TriggerFunction>) -> Seq<Seq<char>> {
    Seq::new(callbacks.len(), |i: int| callbacks[i]@)
}

/// The identifiers of a sequence of borrowed callbacks.
pub open(crate) spec fn borrowed_names(callbacks: Seq<&TriggerFunction>) -> Seq<Seq<char>> {
    Seq::new(callbacks.len(), |i: int| callbacks[i]@)
}

impl Clone for TriggerFunction {
    fn clone(&self) -> (r: Self)
        ensures
            r@ == self@,
    {
        TriggerFunction { name: self.name.clone() }
    }
}

impl TriggerFunction {
    /// The callback that the host knows as `name`.
    pub fn new(name: String) -> (r: Self)
        ensures
            r@ == name@,
    {
        TriggerFunction { name }
    }

    /// The callback's identifier.
    pub fn name(&self) -> (r: &String)
        ensures
            r@ == self@,
    {
        &self.name
    }

    /// Invokes the callback on the host and hands back the host's reply: the
    /// triggers that the callback raised, or its failure. The result, and
    /// what has become of the host, are what the host's `invoke` gives for
    /// the callback's identifier and `event_data`.
    pub fn execute<H: Host>(&self, host: &mut H, event_data: &EventData) -> (r: Result<Vec<String>, Error>)
        ensures
            exists|identifier: &str, via: &mut H|
                identifier@ == self@ && mut_ref_current(via) == *old(host) && mut_ref_future(via)
                    == *final(host) && #[trigger] call_ensures(
                    H::invoke,
                    (via, identifier, event_data),
                    r,
                ),
    {
        host.invoke(self.name.as_str(), event_data)
    }

    /// Asks the host to resolve the identifier. The result is `Ok` exactly
    /// when the host answers that it can, and the only failure is
    /// [`Error::CallableError`] with the identifier.
    pub fn resolve_callable<H: Host>(&self, host: &H, event_data: &EventData) -> (r: Result<(), Error>)
        ensures
            resolves_to(host, self@, event_data, r is Ok),
            r is Err ==> r->Err_0@ == ErrorView::CallableError(self@),
    {
        if host.resolves(self.name.as_str(), event_data) {
            Ok(())
        } else {
            Err(Error::CallableError(self.name.clone()))
        }
    }
}

/// The two moments at which a state runs callbacks.
#[derive(Debug, Clone, Copy, PartialEq, Eq, Structural)]
pub enum StateTriggerType {
    Enter,
    Exit,
}

/// A callback of a state, tagged with the moment at which it runs.
#[derive(Debug)]
pub enum StateTrigger {
    EnterTrigger(TriggerFunction),
    ExitTrigger(TriggerFunction),
}

impl StateTrigger {
    /// The moment at which the callback runs.
    pub open spec fn kind(&self) -> StateTriggerType {
        match self {
            StateTrigger::EnterTrigger(_) => StateTriggerType::Enter,
            StateTrigger::ExitTrigger(_) => StateTriggerType::Exit,
        }
    }

    /// The callback itself.
    pub open spec fn func(&self) -> TriggerFunction {
        match self {
            StateTrigger::EnterTrigger(f) => *f,
            StateTrigger::ExitTrigger(f) => *f,
        }
    }

    /// Tags `func` with the moment `trigger`.
    pub fn from_func_and_type_name(trigger: StateTriggerType, func: TriggerFunction) -> (r: Result<
        Self,
        Error,
    >)
        ensures
            r is Ok,
            r->Ok_0.kind() == trigger,
            r->Ok_0.func() == func,
    {
        match trigger {
            StateTriggerType::Enter => Ok(StateTrigger::EnterTrigger(func)),
            StateTriggerType::Exit => Ok(StateTrigger::ExitTrigger(func)),
        }
    }

    /// Invokes the callback on the host and hands back the host's reply. The
    /// result, and what has become of the host, are what the host's `invoke`
    /// gives for the callback's identifier and `event_data`.
    pub fn execute<H: Host>(&self, host: &mut H, event_data: &EventData) -> (r: Result<Vec<String>, Error>)
        ensures
            exists|identifier: &str, via: &mut H|
                identifier@ == self.func()@ && mut_ref_current(via) == *old(host) && mut_ref_future(via)
                    == *final(host) && #[trigger] call_ensures(
                    H::invoke,
                    (via, identifier, event_data),
                    r,
                ),
    {
        match self {
            StateTrigger::EnterTrigger(e) => e.execute(host, event_data),
            StateTrigger::ExitTrigger(e) => e.execute(host, event_data),
        }
    }

    /// The callback itself.
    pub fn callback(&self) -> (r: &TriggerFunction)
        ensures
            *r == self.func(),
    {
        match self {
            StateTrigger::EnterTrigger(e) => e,
            StateTrigger::ExitTrigger(e) => e,
        }
    }
}

/// The identifiers of a sequence of state callbacks.
pub open(crate) spec fn state_trigger_names(callbacks: Seq<StateTrigger>) -> Seq<Seq<char>> {
    Seq::new(callbacks.len(), |i: int| callbacks[i].func()@)
}

/// A state, as mathematical data.
pub struct StateView {
    pub name: Seq<char>,
    /// The state's own answer to whether a trigger that it has no transition
    /// for is ignored; `None` leaves it to the machine.
    pub ignore_invalid_triggers: Option<bool>,
    pub on_enter: Seq<Seq<char>>,
    pub on_exit: Seq<Seq<char>>,
}

impl StateView {
    /// The state with the callback `func` added at the end of those that run
    /// at the moment `kind`.
    pub open spec fn with_callback(self, kind: StateTriggerType, func: Seq<char>) -> StateView {
        match kind {
            StateTriggerType::Enter => StateView { on_enter: self.on_enter.push(func), ..self },
            StateTriggerType::Exit => StateView { on_exit: self.on_exit.push(func), ..self },
        }
    }
}

/// A named state with the callbacks that run when a model enters or leaves
/// it.
#[derive(Debug)]
pub struct State {
    pub(crate) name: String,
    pub(crate) ignore_invalid_triggers: Option<bool>,
    pub(crate) on_enter: Vec<StateTrigger>,
    pub(crate) on_exit: Vec<StateTrigger>,
}

impl View for State {
    type V = StateView;

    open(crate) spec fn view(&self) -> StateView {
        StateView {
            name: self.name@,
            ignore_invalid_triggers: self.ignore_invalid_triggers,
            on_enter: state_trigger_names(self.on_enter@),
            on_exit: state_trigger_names(self.on_exit@),
        }
    }
}

fn tag_all(functions: Option<Vec<TriggerFunction>>, kind: StateTriggerType) -> (r: Vec<StateTrigger>)
    ensures
        state_trigger_names(r@) == match functions {
            Some(f) => trigger_names(f@),
            None => Seq::<Seq<char>>::empty(),
        },
        forall|i: int| 0 <= i < r@.len() ==> (#[trigger] r@[i]).kind() == kind,
{
    let mut out: Vec<StateTrigger> = Vec::new();
    match functions {
        Some(list) => {
            let mut rest = list;
            let ghost all = rest@;
            let mut taken: Vec<StateTrigger> = Vec::new();
            // Move the callbacks over from the back, then restore their order.
            while rest.len() > 0
                invariant
                    rest@.len() + taken@.len() == all.len(),
                    rest@ == all.take(rest@.len() as int),
                    forall|k: int|
                        0 <= k < taken@.len() ==> (#[trigger] taken@[k]).func() == all[all.len() - 1
                            - k] && taken@[k].kind() == kind,
                decreases rest.len(),
            {
                let f = rest.pop().unwrap();
                let tagged = match kind {
                    StateTriggerType::Enter => StateTrigger::EnterTrigger(f),
                    StateTriggerType::Exit => StateTrigger::ExitTrigger(f),
                };
                taken.push(tagged);
            }
            while taken.len() > 0
                invariant
                    taken@.len() + out@.len() == all.len(),
                    forall|k: int|
                        0 <= k < taken@.len() ==> (#[trigger] taken@[k]).func() == all[all.len() - 1
                            - k] && taken@[k].kind() == kind,
                    forall|k: int|
                        0 <= k < out@.len() ==> (#[trigger] out@[k]).func() == all[k] && out@[k].kind()
                            == kind,
                decreases taken.len(),
            {
                let t = taken.pop().unwrap();
                out.push(t);
            }
            assert(state_trigger_names(out@) =~= trigger_names(all));
        },
        None => {
            assert(state_trigger_names(out@) =~= Seq::<Seq<char>>::empty());
        },
    }
    out
}

impl State {
    /// Whether every callback sits in the list of its own moment.
    pub open(crate) spec fn wf(&self) -> bool {
        &&& forall|i: int| 0 <= i < self.on_enter@.len() ==> (#[trigger] self.on_enter@[i]).kind()
            == StateTriggerType::Enter
        &&& forall|i: int| 0 <= i < self.on_exit@.len() ==> (#[trigger] self.on_exit@[i]).kind()
            == StateTriggerType::Exit
    }

    /// A state called `name`. `on_enter_fns` and `on_exit_fns` run, in this
    /// order, when a model enters and leaves the state.
    /// `ignore_invalid_triggers` overrides the machine's policy for triggers
    /// that have no transition from this state.
    pub fn new(
        name: String,
        on_enter_fns: Option<Vec<TriggerFunction>>,
        on_exit_fns: Option<Vec<TriggerFunction>>,
        ignore_invalid_triggers: Option<bool>,
    ) -> (r: Self)
        ensures
            r.wf(),
            r@ == (StateView {
                name: name@,
                ignore_invalid_triggers,
                on_enter: match on_enter_fns {
                    Some(f) => trigger_names(f@),
                    None => Seq::<Seq<char>>::empty(),
                },
                on_exit: match on_exit_fns {
                    Some(f) => trigger_names(f@),
                    None => Seq::<Seq<char>>::empty(),
                },
            }),
    {
        let on_enter = tag_all(on_enter_fns, StateTriggerType::Enter);
        let on_exit = tag_all(on_exit_fns, StateTriggerType::Exit);
        State { name, on_enter, on_exit, ignore_invalid_triggers }
    }

    /// A state called `name` without callbacks, which leaves the policy for
    /// invalid triggers to the machine.
    pub fn from_str(name: &str) -> (r: Self)
        ensures
            r.wf(),
            r@ == (StateView {
                name: name@,
                ignore_invalid_triggers: None,
                on_enter: Seq::<Seq<char>>::empty(),
                on_exit: Seq::<Seq<char>>::empty(),
            }),
    {
        State::new(String::from_str(name), None, None, None)
    }

    /// The state's name; the state is used up.
    pub fn name(self) -> (r: String)
        ensures
            r@ == self@.name,
    {
        self.name
    }

    /// The value written to a model that is in this state: the state's name.
    pub fn value(&self) -> (r: String)
        ensures
            r@ == self@.name,
    {
        self.name.clone()
    }

    /// The state's own policy for invalid triggers.
    pub fn ignore_invalid_triggers(&self) -> (r: Option<bool>)
        ensures
            r == self@.ignore_invalid_triggers,
    {
        self.ignore_invalid_triggers
    }

    /// Adds a callback at the end of the list of its moment.
    pub fn add_callback(&mut self, trigger_func: StateTrigger)
        requires
            old(self).wf(),
        ensures
            final(self).wf(),
            final(self)@ == old(self)@.with_callback(trigger_func.kind(), trigger_func.func()@),
    {
        match trigger_func {
            StateTrigger::EnterTrigger(_) => {
                self.on_enter.push(trigger_func);
                assert(self@.on_enter =~= old(self)@.on_enter.push(trigger_func.func()@));
            },
            StateTrigger::ExitTrigger(_) => {
                self.on_exit.push(trigger_func);
                assert(self@.on_exit =~= old(self)@.on_exit.push(trigger_func.func()@));
            },
        }
    }
}

impl State {
    /// Runs the state's `on_enter` callbacks in order, up to the first that
    /// fails; a failure is handed on, not caught.
    ///
    /// Every step was put to the host, one after the other, and each reply is
    /// what the host handed back. The event data that the host was handed
    /// showed at every step what callbacks could observe before the call,
    /// with the triggers that the steps before had queued behind those that
    /// waited.
    pub fn enter<H: Host>(&self, machine: &Machine, host: &mut H, event_data: &mut EventData) -> (r: Result<
        (),
        Error,
    >)
        ensures
            final(event_data).extends(old(event_data)),
            is_run(calls(self@.on_enter), final(event_data).since(old(event_data)), machine.is_queued()),
            run_outcome(final(event_data).since(old(event_data)), machine.is_queued()) != Ok::<
                bool,
                ErrorView,
            >(false),
            outcome_view(r) == match run_outcome(
                final(event_data).since(old(event_data)),
                machine.is_queued(),
            ) {
                Err(error) => Err(error),
                Ok(_) => Ok(()),
            },
            final(event_data).raised() == old(event_data).raised() + run_queues(
                final(event_data).since(old(event_data)),
                machine.is_queued(),
            ),
            stays(final(event_data).since(old(event_data))),
            exists|hosts: Seq<H>, datas: Seq<EventData>|
                #[trigger] asked(hosts, datas, *old(host), following(old(event_data).sight(), final(event_data).since(old(event_data)), machine.attribute(), machine.is_queued()), final(event_data).since(old(event_data))) && hosts.last() == *final(host) && forall|i: int|
                    0 <= i < final(event_data).since(old(event_data)).len() && reaches_host(#[trigger] final(event_data).since(old(event_data))[i]) ==> exists|via: &mut H|
                        mut_ref_future(via) == hosts[i + 1] && #[trigger] answered(via, hosts[i], datas[i], final(event_data).since(old(event_data))[i]),
            final(event_data).snapshot() == old(event_data).snapshot(),
            final(event_data).wf() == old(event_data).wf(),
    {
        let callbacks = collect(&self.on_enter);
        machine.callbacks(callbacks.as_slice(), host, event_data)
    }

    /// Runs the state's `on_exit` callbacks in order, up to the first that
    /// fails; a failure is handed on, not caught.
    ///
    /// Every step was put to the host, one after the other, and each reply is
    /// what the host handed back. The event data that the host was handed
    /// showed at every step what callbacks could observe before the call,
    /// with the triggers that the steps before had queued behind those that
    /// waited.
    pub fn exit<H: Host>(&self, machine: &Machine, host: &mut H, event_data: &mut EventData) -> (r: Result<
        (),
        Error,
    >)
        ensures
            final(event_data).extends(old(event_data)),
            is_run(calls(self@.on_exit), final(event_data).since(old(event_data)), machine.is_queued()),
            run_outcome(final(event_data).since(old(event_data)), machine.is_queued()) != Ok::<
                bool,
                ErrorView,
            >(false),
            outcome_view(r) == match run_outcome(
                final(event_data).since(old(event_data)),
                machine.is_queued(),
            ) {
                Err(error) => Err(error),
                Ok(_) => Ok(()),
            },
            final(event_data).raised() == old(event_data).raised() + run_queues(
                final(event_data).since(old(event_data)),
                machine.is_queued(),
            ),
            stays(final(event_data).since(old(event_data))),
            exists|hosts: Seq<H>, datas: Seq<EventData>|
                #[trigger] asked(hosts, datas, *old(host), following(old(event_data).sight(), final(event_data).since(old(event_data)), machine.attribute(), machine.is_queued()), final(event_data).since(old(event_data))) && hosts.last() == *final(host) && forall|i: int|
                    0 <= i < final(event_data).since(old(event_data)).len() && reaches_host(#[trigger] final(event_data).since(old(event_data))[i]) ==> exists|via: &mut H|
                        mut_ref_future(via) == hosts[i + 1] && #[trigger] answered(via, hosts[i], datas[i], final(event_data).since(old(event_data))[i]),
            final(event_data).snapshot() == old(event_data).snapshot(),
            final(event_data).wf() == old(event_data).wf(),
    {
        let callbacks = collect(&self.on_exit);
        machine.callbacks(callbacks.as_slice(), host, event_data)
    }
}

/// The callbacks of `tagged`, borrowed, in order.
fn collect<'a>(tagged: &'a Vec<StateTrigger>) -> (r: Vec<&'a TriggerFunction>)
    ensures
        borrowed_names(r@) == state_trigger_names(tagged@),
{
    let mut out: Vec<&TriggerFunction> = Vec::new();
    let mut i: usize = 0;
    while i < tagged.len()
        invariant
            i <= tagged.len(),
            out@.len() == i,
            forall|k: int| 0 <= k < i ==> out@[k]@ == tagged@[k].func()@,
        decreases tagged.len() - i,
    {
        out.push(tagged[i].callback());
        i = i + 1;
    }
    assert(borrowed_names(out@) =~= state_trigger_names(tagged@));
    out
}

/// The callbacks of `first`, then those of `second`, borrowed.
pub(crate) fn chain<'a>(first: &'a Vec<TriggerFunction>, second: &'a Vec<TriggerFunction>) -> (r: Vec<
    &'a TriggerFunction,
>)
    ensures
        borrowed_names(r@) == trigger_names(first@) + trigger_names(second@),
{
    let mut out: Vec<&TriggerFunction> = Vec::new();
    let mut i: usize = 0;
    while i < first.len()
        invariant
            i <= first.len(),
            out@.len() == i,
            forall|k: int| 0 <= k < i ==> out@[k]@ == first@[k]@,
        decreases first.len() - i,
    {
        out.push(&first[i]);
        i = i + 1;
    }
    let mut j: usize = 0;
    while j < second.len()
        invariant
            j <= second.len(),
            out@.len() == first.len() + j,
            forall|k: int| 0 <= k < first.len() ==> out@[k]@ == first@[k]@,
            forall|k: int| 0 <= k < j ==> out@[first.len() + k]@ == second@[k]@,
        decreases second.len() - j,
    {
        out.push(&second[j]);
        j = j + 1;
    }
    assert(borrowed_names(out@) =~= trigger_names(first@) + trigger_names(second@));
    out
}

/// A predicate, named by the identifier under which the host resolves it.
#[derive(Debug)]
pub struct ConditionFunction {
    pub(crate) name: String,
}

impl View for ConditionFunction {
    type V = Seq<char>;

    /// The predicate's identifier.
    open(crate) spec fn view(&self) -> Seq<char> {
        self.name@
    }
}

impl Clone for ConditionFunction {
    fn clone(&self) -> (r: Self)
        ensures
            r@ == self@,
    {
        ConditionFunction { name: self.name.clone() }
    }
}

impl ConditionFunction {
    /// The predicate that the host knows as `name`.
    pub fn new(name: String) -> (r: Self)
        ensures
            r@ == name@,
    {
        ConditionFunction { name }
    }

    /// The predicate's identifier.
    pub fn name(&self) -> (r: &String)
        ensures
            r@ == self@,
    {
        &self.name
    }

    /// Evaluates the predicate on the host and hands back the host's reply.
    /// The result, and what has become of the host, are what the host's
    /// `test` gives for the predicate's identifier and `event_data`.
    pub fn execute<H: Host>(&self, host: &mut H, event_data: &EventData) -> (r: Result<bool, Error>)
        ensures
            exists|identifier: &str, via: &mut H|
                identifier@ == self@ && mut_ref_current(via) == *old(host) && mut_ref_future(via)
                    == *final(host) && #[trigger] call_ensures(
                    H::test,
                    (via, identifier, event_data),
                    r,
                ),
    {
        host.test(self.name.as_str(), event_data)
    }

    /// Asks the host to resolve the identifier. The result is `Ok` exactly
    /// when the host answers that it can, and the only failure is
    /// [`Error::CallableError`] with the identifier.
    pub fn resolve_callable<H: Host>(&self, host: &H, event_data: &EventData) -> (r: Result<(), Error>)
        ensures
            resolves_to(host, self@, event_data, r is Ok),
            r is Err ==> r->Err_0@ == ErrorView::CallableError(self@),
    {
        if host.resolves(self.name.as_str(), event_data) {
            Ok(())
        } else {
            Err(Error::CallableError(self.name.clone()))
        }
    }
}

/// A guard: a predicate and the answer it has to give for the guard to pass.
#[derive(Debug)]
pub struct Condition {
    pub(crate) func: ConditionFunction,
    pub(crate) target: bool,
}

impl View for Condition {
    type V = (Seq<char>, bool);

    /// The predicate's identifier and the target.
    open(crate) spec fn view(&self) -> (Seq<char>, bool) {
        (self.func@, self.target)
    }
}

impl Clone for Condition {
    fn clone(&self) -> (r: Self)
        ensures
            r@ == self@,
    {
        Condition { func: self.func.clone(), target: self.target }
    }
}

/// The guards of a sequence of conditions.
pub open(crate) spec fn guard_views(conditions: Seq<Condition>) -> Seq<(Seq<char>, bool)> {
    Seq::new(conditions.len(), |i: int| conditions[i]@)
}

impl Condition {
    /// The guard that passes when `func` answers `target`.
    pub fn new(func: ConditionFunction, target: bool) -> (r: Self)
        ensures
            r@ == (func@, target),
    {
        Condition { func, target }
    }

    /// The guard's predicate.
    pub fn func(&self) -> (r: &ConditionFunction)
        ensures
            r@ == self@.0,
    {
        &self.func
    }

    /// The answer that the predicate has to give for the guard to pass.
    pub fn target(&self) -> (r: bool)
        ensures
            r == self@.1,
    {
        self.target
    }

    /// Whether the guard passes when its predicate answers `answer`.
    pub fn passes(&self, answer: bool) -> (r: bool)
        ensures
            r == (answer == self@.1),
    {
        answer == self.target
    }

    /// Checks the guard: resolves the predicate on the host, evaluates it,
    /// and compares the answer with the target.
    ///
    /// Exactly one step is added to the trace, the question with what the
    /// host replied: the step is unresolved exactly when the host answers
    /// that it cannot resolve the identifier, and else its reply is what the
    /// host's `test` handed back for the identifier and the event data as
    /// they were. The result is whether the answer equals the target; the
    /// check fails when the host cannot resolve the identifier or the
    /// predicate fails.
    pub fn check<H: Host>(&self, host: &mut H, event_data: &mut EventData) -> (r: Result<bool, Error>)
        ensures
            final(event_data).trace().len() == old(event_data).trace().len() + 1,
            final(event_data).trace() == old(event_data).trace().push(final(event_data).trace().last()),
            final(event_data).trace().last().action == (Action::Guard {
                predicate: self@.0,
                target: self@.1,
            }),
            final(event_data).trace().last().fits(),
            resolves_to(
                &*old(host),
                self@.0,
                &*old(event_data),
                !(final(event_data).trace().last().reply is Unresolved),
            ),
            final(event_data).trace().last().reply is Unresolved ==> *final(host) == *old(host),
            !(final(event_data).trace().last().reply is Unresolved) ==> exists|via: &mut H|
                mut_ref_future(via) == *final(host) && #[trigger] answered(
                    via,
                    *old(host),
                    *old(event_data),
                    final(event_data).trace().last(),
                ),
            forall|queued: bool|
                outcome_view(r) == match (#[trigger] final(event_data).trace().last().verdict(queued)) {
                    Verdict::Continue => Ok(true),
                    Verdict::Decline => Ok(false),
                    Verdict::Fail { error } => Err(error),
                },
            final(event_data).trace().last().reply matches Reply::Answer { value } ==> r == Ok::<
                bool,
                Error,
            >(value == self@.1),
            final(event_data).raised() == old(event_data).raised(),
            final(event_data).snapshot() == old(event_data).snapshot(),
            final(event_data).wf() == old(event_data).wf(),
    {
        let action = Ghost(Action::Guard { predicate: self@.0, target: self@.1 });
        match self.func.resolve_callable(&*host, &*event_data) {
            Err(e) => {
                proof {
                    let step = Step { action: action@, reply: Reply::Unresolved };
                    event_data.trace@ = event_data.trace@.push(step);
                }
                return Err(e);
            },
            Ok(_) => {},
        }
        let ghost host_before = *host;
        let ghost data_before = *event_data;
        let given = self.func.execute(host, &*event_data);
        proof {
            let step = Step { action: action@, reply: reply_of_predicate(given) };
            event_data.trace@ = event_data.trace@.push(step);
            let (text, via) = choose|text: &str, via: &mut H|
                text@ == self@.0 && mut_ref_current(via) == host_before && mut_ref_future(via) == *host
                    && #[trigger] call_ensures(H::test, (via, text, &data_before), given);
            assert(answered(via, host_before, data_before, step));
        }
        match given {
            Err(e) => Err(e),
            Ok(answer) => Ok(self.passes(answer)),
        }
    }
}

/// The three moments at which a transition runs callbacks.
#[derive(Debug, Clone, Copy, PartialEq, Eq, Structural)]
pub enum TransitionTriggerType {
    Before,
    After,
    Prepare,
}

/// An ordered list of guards.
#[derive(Debug)]
pub struct PotentialConditions {
    pub(crate) conditions: Vec<Condition>,
}

impl View for PotentialConditions {
    type V = Seq<(Seq<char>, bool)>;

    open(crate) spec fn view(&self) -> Seq<(Seq<char>, bool)> {
        guard_views(self.conditions@)
    }
}

impl Clone for PotentialConditions {
    fn clone(&self) -> (r: Self)
        ensures
            r@ == self@,
    {
        let mut conditions: Vec<Condition> = Vec::new();
        let mut i: usize = 0;
        while i < self.conditions.len()
            invariant
                i <= self.conditions.len(),
                conditions@.len() == i,
                forall|k: int| 0 <= k < i ==> conditions@[k]@ == self.conditions@[k]@,
            decreases self.conditions.len() - i,
        {
            conditions.push(self.conditions[i].clone());
            i = i + 1;
        }
        assert(guard_views(conditions@) =~= guard_views(self.conditions@));
        PotentialConditions { conditions }
    }
}

impl PotentialConditions {
    /// The guards that pass when the predicates of `functions` answer
    /// `target`, in the order of `functions`.
    pub fn new(functions: &Vec<ConditionFunction>, target: bool) -> (r: Self)
        ensures
            r@.len() == functions@.len(),
            forall|i: int| 0 <= i < functions@.len() ==> r@[i] == (functions@[i]@, target),
    {
        let mut conditions: Vec<Condition> = Vec::new();
        let mut i: usize = 0;
        while i < functions.len()
            invariant
                i <= functions.len(),
                conditions@.len() == i,
                forall|k: int| 0 <= k < i ==> conditions@[k]@ == (functions@[k]@, target),
            decreases functions.len() - i,
        {
            conditions.push(Condition::new(functions[i].clone(), target));
            i = i + 1;
        }
        PotentialConditions { conditions }
    }

    /// How many guards the list holds.
    pub fn len(&self) -> (n: usize)
        ensures
            n == self@.len(),
    {
        self.conditions.len()
    }
}

/// `append::Append::append` on a `Vec`: the crate's implementation for `Vec`
/// converts the value with `into` and pushes it, and the conversion of a type
/// into itself hands the value back, so the list grows by `value` at its end.
#[verifier::external_body]
fn append_value(list: &mut Vec<TriggerFunction>, value: TriggerFunction)
    ensures
        final(list)@ == old(list)@.push(value),
{
    append::Append::append(list, value)
}

/// An ordered list of callbacks.
#[derive(Debug)]
pub struct PotentialTriggers {
    pub(crate) triggers: Vec<TriggerFunction>,
}

impl View for PotentialTriggers {
    type V = Seq<Seq<char>>;

    open(crate) spec fn view(&self) -> Seq<Seq<char>> {
        trigger_names(self.triggers@)
    }
}

/// A copy of `list`.
pub(crate) fn copy_triggers(list: &Vec<TriggerFunction>) -> (r: Vec<TriggerFunction>)
    ensures
        trigger_names(r@) == trigger_names(list@),
{
    let mut out: Vec<TriggerFunction> = Vec::new();
    let mut i: usize = 0;
    while i < list.len()
        invariant
            i <= list.len(),
            out@.len() == i,
            forall|k: int| 0 <= k < i ==> out@[k]@ == list@[k]@,
        decreases list.len() - i,
    {
        out.push(list[i].clone());
        i = i + 1;
    }
    assert(trigger_names(out@) =~= trigger_names(list@));
    out
}

impl Clone for PotentialTriggers {
    fn clone(&self) -> (r: Self)
        ensures
            r@ == self@,
    {
        PotentialTriggers { triggers: copy_triggers(&self.triggers) }
    }
}

impl PotentialTriggers {
    /// The list of `triggers`, in their order.
    pub fn new(triggers: Vec<TriggerFunction>) -> (r: Self)
        ensures
            r@ == trigger_names(triggers@),
    {
        PotentialTriggers { triggers }
    }

    /// How many callbacks the list holds.
    pub fn len(&self) -> (n: usize)
        ensures
            n == self@.len(),
    {
        self.triggers.len()
    }

    /// Adds `value` at the end of the list.
    pub fn append(&mut self, value: TriggerFunction)
        ensures
            final(self)@ == old(self)@.push(value@),
    {
        append_value(&mut self.triggers, value);
        assert(self@ =~= old(self)@.push(value@));
    }
}

/// A transition, as mathematical data.
pub struct TransitionView {
    pub source: Seq<char>,
    /// The destination; `None` for an internal transition, which changes no
    /// state.
    pub dest: Option<Seq<char>>,
    pub conditions: Seq<(Seq<char>, bool)>,
    pub unless: Seq<(Seq<char>, bool)>,
    pub before: Seq<Seq<char>>,
    pub after: Seq<Seq<char>>,
    pub prepare: Seq<Seq<char>>,
}

/// A transition from a source state to an optional destination, with its
/// guards and callbacks.
#[derive(Debug)]
pub struct Transition {
    pub(crate) source: String,
    pub(crate) dest: Option<String>,
    pub(crate) conditions: PotentialConditions,
    pub(crate) unless: PotentialConditions,
    pub(crate) before: PotentialTriggers,
    pub(crate) after: PotentialTriggers,
    pub(crate) prepare: PotentialTriggers,
}

/// The text of an optional string.
pub open spec fn optional_text(text: Option<String>) -> Option<Seq<char>> {
    match text {
        Some(t) => Some(t@),
        None => None,
    }
}

impl View for Transition {
    type V = TransitionView;

    open(crate) spec fn view(&self) -> TransitionView {
        TransitionView {
            source: self.source@,
            dest: optional_text(self.dest),
            conditions: self.conditions@,
            unless: self.unless@,
            before: self.before@,
            after: self.after@,
            prepare: self.prepare@,
        }
    }
}

/// A copy of an optional string.
pub(crate) fn copy_text(text: &Option<String>) -> (r: Option<String>)
    ensures
        optional_text(r) == optional_text(*text),
{
    match text {
        Some(t) => Some(t.clone()),
        None => None,
    }
}

impl Clone for Transition {
    fn clone(&self) -> (r: Self)
        ensures
            r@ == self@,
    {
        Transition {
            source: self.source.clone(),
            dest: copy_text(&self.dest),
            conditions: self.conditions.clone(),
            unless: self.unless.clone(),
            before: self.before.clone(),
            after: self.after.clone(),
            prepare: self.prepare.clone(),
        }
    }
}

impl TransitionView {
    /// Whether the source, and the destination if there is one, are among
    /// `states`.
    pub open spec fn within(self, states: Seq<Seq<char>>) -> bool {
        &&& position(states, self.source) is Some
        &&& self.dest is Some ==> position(states, self.dest->Some_0) is Some
    }

    /// The transition with the callback `func` added at the end of those that
    /// run at the moment `trigger`.
    pub open spec fn with_callback(self, trigger: TransitionTriggerType, func: Seq<char>) -> TransitionView {
        match trigger {
            TransitionTriggerType::Before => TransitionView { before: self.before.push(func), ..self },
            TransitionTriggerType::After => TransitionView { after: self.after.push(func), ..self },
            TransitionTriggerType::Prepare => TransitionView { prepare: self.prepare.push(func), ..self },
        }
    }

    /// The guards of the transition in the order in which they are asked:
    /// `conditions`, then `unless`.
    pub open spec fn guards(self) -> Seq<Action> {
        asks(self.conditions) + asks(self.unless)
    }

    /// The plan of the state change: leave the source, write the
    /// destination, enter the destination. `on_exit` and `on_enter` are the
    /// callbacks of the source and of the destination. An internal
    /// transition has no such steps.
    pub open spec fn change(self, on_exit: Seq<Seq<char>>, on_enter: Seq<Seq<char>>) -> Seq<Action> {
        match self.dest {
            Some(dest) => calls(on_exit) + seq![Action::Move { dest }] + calls(on_enter),
            None => Seq::empty(),
        }
    }
}

/// The machine-wide callbacks that bracket every transition.
pub struct Hooks {
    pub prepare_event: Seq<Seq<char>>,
    pub before_state_change: Seq<Seq<char>>,
    pub after_state_change: Seq<Seq<char>>,
}

/// The plan of one transition: the machine's `prepare_event` callbacks and
/// the transition's `prepare`; the guards; the machine's
/// `before_state_change` and the transition's `before`; the state change;
/// the transition's `after` and the machine's `after_state_change`.
pub open spec fn pipeline(
    hooks: Hooks,
    transition: TransitionView,
    on_exit: Seq<Seq<char>>,
    on_enter: Seq<Seq<char>>,
) -> Seq<Action> {
    calls(hooks.prepare_event + transition.prepare) + transition.guards() + calls(
        hooks.before_state_change + transition.before,
    ) + transition.change(on_exit, on_enter) + calls(transition.after + hooks.after_state_change)
}

impl Transition {
    /// Whether the states that the transition names are registered with
    /// `machine`.
    pub open(crate) spec fn registered_in(&self, machine: &Machine) -> bool {
        self@.within(state_names(machine.states@))
    }

    /// The plan of this transition in `machine`.
    pub open(crate) spec fn plan(&self, machine: &Machine) -> Seq<Action> {
        machine@.plan(self@)
    }

    /// The transition from `source` to `dest` with the given guards and
    /// callbacks.
    pub fn new(
        source: String,
        dest: Option<String>,
        conditions: PotentialConditions,
        unless: PotentialConditions,
        before: PotentialTriggers,
        after: PotentialTriggers,
        prepare: PotentialTriggers,
    ) -> (r: Self)
        ensures
            r@ == (TransitionView {
                source: source@,
                dest: optional_text(dest),
                conditions: conditions@,
                unless: unless@,
                before: before@,
                after: after@,
                prepare: prepare@,
            }),
    {
        Transition { source, dest, conditions, unless, before, after, prepare }
    }

    /// The name of the source state.
    pub fn source(&self) -> (r: &String)
        ensures
            r@ == self@.source,
    {
        &self.source
    }

    /// The name of the destination state, if the transition has one.
    pub fn dest(&self) -> (r: &Option<String>)
        ensures
            optional_text(*r) == self@.dest,
    {
        &self.dest
    }

    /// Adds `func` at the end of the callbacks that run at the moment
    /// `trigger`.
    pub fn add_callback(&mut self, trigger: TransitionTriggerType, func: TriggerFunction)
        ensures
            final(self)@ == old(self)@.with_callback(trigger, func@),
    {
        match trigger {
            TransitionTriggerType::Before => self.before.append(func),
            TransitionTriggerType::After => self.after.append(func),
            TransitionTriggerType::Prepare => self.prepare.append(func),
        }
    }

    /// Asks the guards in `guards` in order, up to the first that does not
    /// pass.
    fn check_all<H: Host>(guards: &Vec<Condition>, machine: &Machine, host: &mut H, event_data: &mut EventData) -> (r:
        Result<bool, Error>)
        ensures
            final(event_data).extends(old(event_data)),
            is_run(asks(guard_views(guards@)), final(event_data).since(old(event_data)), machine.is_queued()),
            outcome_view(r) == run_outcome(final(event_data).since(old(event_data)), machine.is_queued()),
            run_queues(final(event_data).since(old(event_data)), machine.is_queued()) == Seq::<
                Seq<char>,
            >::empty(),
            final(event_data).raised() == old(event_data).raised(),
            stays(final(event_data).since(old(event_data))),
            exists|hosts: Seq<H>, datas: Seq<EventData>|
                #[trigger] asked(hosts, datas, *old(host), following(old(event_data).sight(), final(event_data).since(old(event_data)), machine.attribute(), machine.is_queued()), final(event_data).since(old(event_data))) && hosts.last() == *final(host) && forall|i: int|
                    0 <= i < final(event_data).since(old(event_data)).len() && reaches_host(#[trigger] final(event_data).since(old(event_data))[i]) ==> exists|via: &mut H|
                        mut_ref_future(via) == hosts[i + 1] && #[trigger] answered(via, hosts[i], datas[i], final(event_data).since(old(event_data))[i]),
            final(event_data).snapshot() == old(event_data).snapshot(),
            final(event_data).wf() == old(event_data).wf(),
    {
        let ghost plan = asks(guard_views(guards@));
        let ghost start = event_data.trace();
        let ghost mut run: Seq<Step> = Seq::empty();
        proof {
            lemma_run_of_nothing(machine.is_queued());
            lemma_linked_nothing(
                *host,
                following(old(event_data).sight(), run, machine.attribute(), machine.is_queued()),
                run,
            );
            assert(plan.take(0) =~= Seq::<Action>::empty());
            assert(start + run =~= start);
        }
        let mut i: usize = 0;
        while i < guards.len()
            invariant
                i <= guards.len(),
                plan == asks(guard_views(guards@)),
                start == old(event_data).trace(),
                event_data.trace() == start + run,
                run.len() == i,
                is_run(plan.take(i as int), run, machine.is_queued()),
                run_outcome(run, machine.is_queued()) == Ok::<bool, ErrorView>(true),
                run_queues(run, machine.is_queued()) == Seq::<Seq<char>>::empty(),
                event_data.raised() == old(event_data).raised(),
                event_data.snapshot() == old(event_data).snapshot(),
                event_data.wf() == old(event_data).wf(),
                stays(run),
                exists|hosts: Seq<H>, datas: Seq<EventData>|
                    #[trigger] asked(hosts, datas, *old(host), following(old(event_data).sight(), run, machine.attribute(), machine.is_queued()), run) && hosts.last() == *host && forall|i: int|
                        0 <= i < run.len() && reaches_host(#[trigger] run[i]) ==> exists|via: &mut H|
                            mut_ref_future(via) == hosts[i + 1] && #[trigger] answered(via, hosts[i], datas[i], run[i]),
            decreases guards.len() - i,
        {
            let ghost host_before = *host;
            let ghost data_before = *event_data;
            let r = guards[i].check(host, event_data);
            proof {
                let step = event_data.trace().last();
                let longer = run.push(step);
                lemma_run_step(plan, run, step, machine.is_queued());
                lemma_stays_the_same(old(event_data).snapshot(), run, machine.attribute());
                assert(data_before.raised() =~= old(event_data).raised() + run_queues(run, machine.is_queued()));
                lemma_linked_push(
                    *old(host),
                    host_before,
                    *host,
                    old(event_data).sight(),
                    data_before,
                    run,
                    step,
                    machine.attribute(),
                    machine.is_queued(),
                );
                assert(stays(longer)) by {
                    assert forall|k: int| 0 <= k < longer.len() implies !((#[trigger] longer[k]).action is Move) by {
                        if k < run.len() {
                            assert(longer[k] == run[k]);
                        }
                    }
                }
                assert(event_data.trace() =~= start + longer);
                assert(run_queues(longer, machine.is_queued()) =~= Seq::<Seq<char>>::empty());
                run = longer;
                assert(event_data.since(old(event_data)) =~= run);
            }
            match r {
                Err(e) => {
                    return Err(e);
                },
                Ok(passed) => {
                    if !passed {
                        return Ok(false);
                    }
                },
            }
            i = i + 1;
        }
        proof {
            lemma_run_whole(plan, run, machine.is_queued());
            assert(event_data.since(old(event_data)) =~= run);
        }
        Ok(true)
    }

    /// Asks the guards of the transition: every entry of `conditions`, then
    /// every entry of `unless`, each in the order in which it was added, up
    /// to the first that does not pass.
    ///
    /// The result is `Ok(true)` when every guard passed and `Ok(false)` when
    /// one declined; a guard that cannot be resolved or fails is a failure.
    ///
    /// Every step was put to the host, one after the other, and each reply is
    /// what the host handed back. The event data that the host was handed
    /// showed at every step what callbacks could observe before the call: no guard changes it,
    /// with the triggers that the steps before had queued behind those that
    /// waited.
    pub fn eval_conditions<H: Host>(&self, machine: &Machine, host: &mut H, event_data: &mut EventData) -> (r:
        Result<bool, Error>)
        ensures
            final(event_data).extends(old(event_data)),
            is_run(self@.guards(), final(event_data).since(old(event_data)), machine.is_queued()),
            outcome_view(r) == run_outcome(final(event_data).since(old(event_data)), machine.is_queued()),
            run_queues(final(event_data).since(old(event_data)), machine.is_queued()) == Seq::<
                Seq<char>,
            >::empty(),
            final(event_data).raised() == old(event_data).raised(),
            stays(final(event_data).since(old(event_data))),
            exists|hosts: Seq<H>, datas: Seq<EventData>|
                #[trigger] asked(hosts, datas, *old(host), following(old(event_data).sight(), final(event_data).since(old(event_data)), machine.attribute(), machine.is_queued()), final(event_data).since(old(event_data))) && hosts.last() == *final(host) && forall|i: int|
                    0 <= i < final(event_data).since(old(event_data)).len() && reaches_host(#[trigger] final(event_data).since(old(event_data))[i]) ==> exists|via: &mut H|
                        mut_ref_future(via) == hosts[i + 1] && #[trigger] answered(via, hosts[i], datas[i], final(event_data).since(old(event_data))[i]),
            final(event_data).snapshot() == old(event_data).snapshot(),
            final(event_data).wf() == old(event_data).wf(),
    {
        let ghost start = *event_data;
        let queued = Ghost(machine.is_queued());
        let first = Transition::check_all(&self.conditions.conditions, machine, host, event_data);
        let ghost middle = *event_data;
        let ghost host_between = *host;
        let ghost run = middle.since(&start);
        match first {
            Err(e) => {
                proof {
                    lemma_run_stops(asks(self@.conditions), asks(self@.unless), run, queued@);
                }
                return Err(e);
            },
            Ok(passed) => {
                if !passed {
                    proof {
                        lemma_run_stops(asks(self@.conditions), asks(self@.unless), run, queued@);
                    }
                    return Ok(false);
                }
            },
        }
        let second = Transition::check_all(&self.unless.conditions, machine, host, event_data);
        proof {
            let more = event_data.since(&middle);
            lemma_run_extends(asks(self@.conditions), asks(self@.unless), run, more, queued@);
            lemma_run_queues_concat(run, more, queued@);
            assert(event_data.since(&start) =~= run + more);
            assert(event_data.trace() =~= start.trace() + (run + more));
            lemma_stays_the_same(start.snapshot(), run, machine.attribute());
            assert(middle.raised() =~= start.raised() + run_queues(run, queued@));
            lemma_linked_between(
                *old(host),
                host_between,
                *host,
                start,
                middle,
                *event_data,
                machine.attribute(),
                queued@,
            );
            lemma_stays_between(start, middle, *event_data);
        }
        second
    }
}

/// Steps that took the host from `first` to `middle` while the event data
/// went from `start` to `mid`, followed by steps that took it from `middle`
/// to `last` while the data went on to `end`, took it from `first` to
/// `last`.
proof fn lemma_linked_between<H: Host>(
    first: H,
    middle: H,
    last: H,
    start: EventData,
    mid: EventData,
    end: EventData,
    attribute: Seq<char>,
    queued: bool,
)
    requires
        mid.extends(&start),
        end.extends(&mid),
        mid.raised() == start.raised() + run_queues(mid.since(&start), queued),
        mid.snapshot() == moved_by(start.snapshot(), mid.since(&start), attribute),
        exists|hosts: Seq<H>, datas: Seq<EventData>|
            #[trigger] asked(hosts, datas, first, following(start.sight(), mid.since(&start), attribute, queued), mid.since(&start)) && hosts.last() == middle && forall|i: int|
                0 <= i < mid.since(&start).len() && reaches_host(#[trigger] mid.since(&start)[i]) ==> exists|via: &mut H|
                    mut_ref_future(via) == hosts[i + 1] && #[trigger] answered(via, hosts[i], datas[i], mid.since(&start)[i]),
        exists|hosts: Seq<H>, datas: Seq<EventData>|
            #[trigger] asked(hosts, datas, middle, following(mid.sight(), end.since(&mid), attribute, queued), end.since(&mid)) && hosts.last() == last && forall|i: int|
                0 <= i < end.since(&mid).len() && reaches_host(#[trigger] end.since(&mid)[i]) ==> exists|via: &mut H|
                    mut_ref_future(via) == hosts[i + 1] && #[trigger] answered(via, hosts[i], datas[i], end.since(&mid)[i]),
    ensures
        exists|hosts: Seq<H>, datas: Seq<EventData>|
            #[trigger] asked(hosts, datas, first, following(start.sight(), end.since(&start), attribute, queued), end.since(&start)) && hosts.last() == last && forall|i: int|
                0 <= i < end.since(&start).len() && reaches_host(#[trigger] end.since(&start)[i]) ==> exists|via: &mut H|
                    mut_ref_future(via) == hosts[i + 1] && #[trigger] answered(via, hosts[i], datas[i], end.since(&start)[i]),
{
    let run = mid.since(&start);
    let more = end.since(&mid);
    assert(end.since(&start) =~= run + more);
    assert(mid.trace() == start.trace() + run);
    assert(mid.sight() == after(start.sight(), run, attribute, queued));
    lemma_linked_stage(
        first,
        middle,
        last,
        start.sight(),
        mid.sight(),
        run,
        more,
        end.since(&start),
        attribute,
        queued,
    );
}

/// Two runs in sequence that change no state change no state.
proof fn lemma_stays_between(start: EventData, mid: EventData, end: EventData)
    requires
        mid.extends(&start),
        end.extends(&mid),
        stays(mid.since(&start)),
        stays(end.since(&mid)),
    ensures
        stays(end.since(&start)),
{
    let run = mid.since(&start);
    let more = end.since(&mid);
    let all = end.since(&start);
    assert(all =~= run + more);
    assert forall|i: int| 0 <= i < all.len() implies !((#[trigger] all[i]).action is Move) by {
        if i < run.len() {
            assert(all[i] == run[i]);
        } else {
            assert(all[i] == more[i - run.len()]);
        }
    }
}

/// A run that stopped within the first stages of a plan of five stages is a
/// run of the whole plan.
proof fn lemma_stops_within(
    stages: Seq<Seq<Action>>,
    reached: int,
    run: Seq<Step>,
    queued: bool,
)
    requires
        stages.len() == 5,
        1 <= reached <= 5,
        is_run(joined(stages, reached), run, queued),
        run_outcome(run, queued) != Ok::<bool, ErrorView>(true),
    ensures
        is_run(joined(stages, 5), run, queued),
    decreases 5 - reached,
{
    if reached < 5 {
        lemma_run_stops(joined(stages, reached), stages[reached], run, queued);
        lemma_stops_within(stages, reached + 1, run, queued);
    }
}

/// The first `count` of `stages`, one after the other.
spec fn joined(stages: Seq<Seq<Action>>, count: int) -> Seq<Action>
    decreases count,
{
    if count <= 1 {
        stages[0]
    } else {
        joined(stages, count - 1) + stages[count - 1]
    }
}

impl Transition {
    /// The callbacks of the source state that run when a model leaves it.
    pub open(crate) spec fn on_exit(&self, machine: &Machine) -> Seq<Seq<char>> {
        machine@.state_named(self@.source).on_exit
    }

    /// The callbacks of the destination state that run when a model enters
    /// it; none for an internal transition.
    pub open(crate) spec fn on_enter(&self, machine: &Machine) -> Seq<Seq<char>> {
        match self@.dest {
            Some(dest) => machine@.state_named(dest).on_enter,
            None => Seq::empty(),
        }
    }

    /// Makes the state change: runs the source's `on_exit` callbacks, writes
    /// the destination to the model's state attribute, and runs the
    /// destination's `on_enter` callbacks.
    ///
    /// Every step was put to the host, one after the other, and each reply is
    /// what the host handed back. The event data that the host was handed
    /// showed the model in the old state up to the write, and in the
    /// destination behind it.
    fn change_state<H: Host>(&self, machine: &Machine, host: &mut H, event_data: &mut EventData) -> (r: Result<
        (),
        Error,
    >)
        requires
            machine.states_wf(),
            self.registered_in(machine),
            self@.dest is Some,
            old(event_data).wf(),
        ensures
            final(event_data).extends(old(event_data)),
            is_run(
                self@.change(self.on_exit(machine), self.on_enter(machine)),
                final(event_data).since(old(event_data)),
                machine.is_queued(),
            ),
            outcome_view(r) == match run_outcome(
                final(event_data).since(old(event_data)),
                machine.is_queued(),
            ) {
                Err(error) => Err(error),
                Ok(_) => Ok(()),
            },
            !(run_outcome(final(event_data).since(old(event_data)), machine.is_queued()) is Ok
                && !run_outcome(final(event_data).since(old(event_data)), machine.is_queued())->Ok_0),
            final(event_data).raised() == old(event_data).raised() + run_queues(
                final(event_data).since(old(event_data)),
                machine.is_queued(),
            ),
            exists|hosts: Seq<H>, datas: Seq<EventData>|
                #[trigger] asked(hosts, datas, *old(host), following(old(event_data).sight(), final(event_data).since(old(event_data)), machine.attribute(), machine.is_queued()), final(event_data).since(old(event_data))) && hosts.last() == *final(host) && forall|i: int|
                    0 <= i < final(event_data).since(old(event_data)).len() && reaches_host(#[trigger] final(event_data).since(old(event_data))[i]) ==> exists|via: &mut H|
                        mut_ref_future(via) == hosts[i + 1] && #[trigger] answered(via, hosts[i], datas[i], final(event_data).since(old(event_data))[i]),
            final(event_data).wf(),
            final(event_data).snapshot() == (Snapshot {
                state: final(event_data).snapshot().state,
                model: final(event_data).snapshot().model,
                ..old(event_data).snapshot()
            }),
            final(event_data).snapshot() == moved_by(
                old(event_data).snapshot(),
                final(event_data).since(old(event_data)),
                machine.attribute(),
            ),
            r is Ok ==> final(event_data).snapshot().state == self@.dest->Some_0,
            r is Ok ==> final(event_data).snapshot().model == old(event_data).snapshot().model.insert(
                machine.attribute(),
                self@.dest->Some_0,
            ),
    {
        let queued = Ghost(machine.is_queued());
        let ghost start = *event_data;
        let ghost leave = calls(self.on_exit(machine));
        let ghost enter = calls(self.on_enter(machine));
        let source_at = machine.find_state(&self.source).unwrap();
        let dest = self.dest.as_ref().unwrap();
        let ghost go = seq![Action::Move { dest: dest@ }];
        let dest_at = machine.find_state(dest).unwrap();
        let left = machine.states[source_at].exit(machine, host, event_data);
        let ghost exited = *event_data;
        let ghost host_exited = *host;
        let ghost run = exited.since(&start);
        match left {
            Err(e) => {
                proof {
                    lemma_run_stops(leave, go, run, queued@);
                    lemma_run_stops(leave + go, enter, run, queued@);
                    lemma_stays_the_same(start.snapshot(), run, machine.attribute());
                }
                return Err(e);
            },
            Ok(_) => {},
        }
        event_data.model.set(&machine.model_attribute, dest.clone());
        event_data.update(dest.clone());
        proof {
            let step = Step { action: Action::Move { dest: dest@ }, reply: Reply::Moved };
            event_data.trace@ = event_data.trace@.push(step);
        }
        let ghost moved = *event_data;
        proof {
            let step = Step { action: Action::Move { dest: dest@ }, reply: Reply::Moved };
            let hop = seq![step];
            assert(moved.since(&exited) =~= hop);
            lemma_run_of_one(step, queued@);
            lemma_run_extends(leave, go, run, hop, queued@);
            lemma_run_queues_concat(run, hop, queued@);
            lemma_run_queues_one(step, queued@);
            assert(moved.since(&start) =~= run + hop);
            assert(moved.trace() =~= start.trace() + (run + hop));
            assert(run_queues(run + hop, queued@) =~= run_queues(run, queued@));
            lemma_stays_the_same(start.snapshot(), run, machine.attribute());
            lemma_linked_push(
                *old(host),
                host_exited,
                host_exited,
                start.sight(),
                exited,
                run,
                step,
                machine.attribute(),
                queued@,
            );
            assert(moved.since(&start) =~= run.push(step));
            assert(run.push(step).drop_last() =~= run);
            assert(moved.snapshot() == moved_by(start.snapshot(), moved.since(&start), machine.attribute()));
        }
        let ghost so_far = moved.since(&start);
        let entered = machine.states[dest_at].enter(machine, host, event_data);
        proof {
            let more = event_data.since(&moved);
            lemma_run_extends(leave + go, enter, so_far, more, queued@);
            lemma_run_queues_concat(so_far, more, queued@);
            assert(event_data.since(&start) =~= so_far + more);
            assert(event_data.trace() =~= start.trace() + (so_far + more));
            assert(event_data.raised() =~= start.raised() + run_queues(so_far + more, queued@));
            lemma_linked_between(
                *old(host),
                host_exited,
                *host,
                start,
                moved,
                *event_data,
                machine.attribute(),
                queued@,
            );
            lemma_moved_by_concat(start.snapshot(), so_far, more, machine.attribute());
            lemma_stays_the_same(moved.snapshot(), more, machine.attribute());
        }
        entered
    }

    /// The first stages of the pipeline: the callbacks that run whatever the
    /// guards say, the guards, and the callbacks before the state change.
    fn approach<H: Host>(&self, machine: &Machine, host: &mut H, event_data: &mut EventData) -> (r: Result<
        bool,
        Error,
    >)
        requires
            machine.states_wf(),
            old(event_data).wf(),
        ensures
            final(event_data).extends(old(event_data)),
            is_run(
                joined(self.stages(machine), 3),
                final(event_data).since(old(event_data)),
                machine.is_queued(),
            ),
            outcome_view(r) == run_outcome(final(event_data).since(old(event_data)), machine.is_queued()),
            !(r is Ok && r->Ok_0) ==> is_run(
                self.plan(machine),
                final(event_data).since(old(event_data)),
                machine.is_queued(),
            ),
            final(event_data).raised() == old(event_data).raised() + run_queues(
                final(event_data).since(old(event_data)),
                machine.is_queued(),
            ),
            stays(final(event_data).since(old(event_data))),
            exists|hosts: Seq<H>, datas: Seq<EventData>|
                #[trigger] asked(hosts, datas, *old(host), following(old(event_data).sight(), final(event_data).since(old(event_data)), machine.attribute(), machine.is_queued()), final(event_data).since(old(event_data))) && hosts.last() == *final(host) && forall|i: int|
                    0 <= i < final(event_data).since(old(event_data)).len() && reaches_host(#[trigger] final(event_data).since(old(event_data))[i]) ==> exists|via: &mut H|
                        mut_ref_future(via) == hosts[i + 1] && #[trigger] answered(via, hosts[i], datas[i], final(event_data).since(old(event_data))[i]),
            final(event_data).wf(),
            final(event_data).snapshot() == old(event_data).snapshot(),
    {
        let queued = Ghost(machine.is_queued());
        let ghost start = *event_data;
        let ghost stages = self.stages(machine);
        proof {
            self.lemma_stages(machine);
        }

        // Callbacks that run whatever the guards say.
        let prepare = chain(&machine.prepare_event, &self.prepare.triggers);
        let prepared = machine.callbacks(prepare.as_slice(), host, event_data);
        let ghost at_1 = *event_data;
        let ghost host_1 = *host;
        match prepared {
            Err(e) => {
                proof {
                    lemma_stops_within(stages, 1, at_1.since(&start), queued@);
                    lemma_run_stops(joined(stages, 1), stages[1], at_1.since(&start), queued@);
                    lemma_run_stops(joined(stages, 2), stages[2], at_1.since(&start), queued@);
                }
                return Err(e);
            },
            Ok(_) => {},
        }

        // The guards.
        let passed = self.eval_conditions(machine, host, event_data);
        let ghost at_2 = *event_data;
        let ghost host_2 = *host;
        proof {
            assert(at_2.raised() =~= at_1.raised() + run_queues(at_2.since(&at_1), queued@));
            lemma_stage(stages, 1, start, at_1, at_2, queued@);
            lemma_stays_the_same(start.snapshot(), at_1.since(&start), machine.attribute());
            lemma_linked_between(*old(host), host_1, host_2, start, at_1, at_2, machine.attribute(), queued@);
            lemma_stays_between(start, at_1, at_2);
        }
        match passed {
            Err(e) => {
                proof {
                    lemma_run_stops(joined(stages, 2), stages[2], at_2.since(&start), queued@);
                }
                return Err(e);
            },
            Ok(all) => {
                if !all {
                    proof {
                        lemma_run_stops(joined(stages, 2), stages[2], at_2.since(&start), queued@);
                    }
                    return Ok(false);
                }
            },
        }

        // Machine-wide callbacks first, then the transition's own.
        let before = chain(&machine.before_state_change, &self.before.triggers);
        let readied = machine.callbacks(before.as_slice(), host, event_data);
        proof {
            lemma_stage(stages, 2, start, at_2, *event_data, queued@);
            lemma_stays_the_same(start.snapshot(), at_2.since(&start), machine.attribute());
            lemma_linked_between(
                *old(host),
                host_2,
                *host,
                start,
                at_2,
                *event_data,
                machine.attribute(),
                queued@,
            );
            lemma_stays_between(start, at_2, *event_data);
        }
        match readied {
            Err(e) => Err(e),
            Ok(_) => Ok(true),
        }
    }

    /// Executes the transition on the model of `event_data`.
    ///
    /// The steps are those of [`pipeline`], in its order, up to the first
    /// that does not let the engine continue:
    /// the `prepare` callbacks run whatever the guards will say; a guard that
    /// does not pass ends the work with `Ok(false)` before any `before`
    /// callback; otherwise the `before` callbacks, the state change (none for
    /// an internal transition) and the `after` callbacks follow, and the
    /// result is `Ok(true)`. A callback or guard that fails ends the work with
    /// its failure.
    ///
    /// The model has the destination as its state exactly when the result is
    /// `Ok(true)` and the transition has a destination; in every other case
    /// the model is as it was before the call.
    ///
    /// The steps were put to the host one after the other: each reply is what
    /// the host handed back when it was asked at that step, as the step
    /// before had left it. The event data that the host was handed showed
    /// at every step what the steps before it had made of it: the model in
    /// the old state up to the state change, and in the destination behind
    /// it.
    pub fn execute<H: Host>(&self, machine: &Machine, host: &mut H, event_data: &mut EventData) -> (r: Result<
        bool,
        Error,
    >)
        requires
            machine.states_wf(),
            self.registered_in(machine),
            old(event_data).wf(),
        ensures
            final(event_data).extends(old(event_data)),
            is_run(self.plan(machine), final(event_data).since(old(event_data)), machine.is_queued()),
            outcome_view(r) == run_outcome(final(event_data).since(old(event_data)), machine.is_queued()),
            final(event_data).raised() == old(event_data).raised() + run_queues(
                final(event_data).since(old(event_data)),
                machine.is_queued(),
            ),
            exists|hosts: Seq<H>, datas: Seq<EventData>|
                #[trigger] asked(hosts, datas, *old(host), following(old(event_data).sight(), final(event_data).since(old(event_data)), machine.attribute(), machine.is_queued()), final(event_data).since(old(event_data))) && hosts.last() == *final(host) && forall|i: int|
                    0 <= i < final(event_data).since(old(event_data)).len() && reaches_host(#[trigger] final(event_data).since(old(event_data))[i]) ==> exists|via: &mut H|
                        mut_ref_future(via) == hosts[i + 1] && #[trigger] answered(via, hosts[i], datas[i], final(event_data).since(old(event_data))[i]),
            final(event_data).wf(),
            final(event_data).snapshot() == if r is Ok && r->Ok_0 && self@.dest is Some {
                Snapshot {
                    state: self@.dest->Some_0,
                    model: old(event_data).snapshot().model.insert(
                        machine.attribute(),
                        self@.dest->Some_0,
                    ),
                    ..old(event_data).snapshot()
                }
            } else {
                old(event_data).snapshot()
            },
    {
        let queued = Ghost(machine.is_queued());
        let ghost start = *event_data;
        let ghost stages = self.stages(machine);
        proof {
            self.lemma_stages(machine);
        }
        let ready = self.approach(machine, host, event_data);
        let ghost at_3 = *event_data;
        let ghost host_3 = *host;
        match ready {
            Err(e) => {
                return Err(e);
            },
            Ok(go) => {
                if !go {
                    return Ok(false);
                }
            },
        }

        // The state change; an internal transition has none.
        let saved = if self.dest.is_some() {
            Some((event_data.model.clone(), event_data.state.clone()))
        } else {
            None
        };
        let changed = if self.dest.is_some() {
            self.change_state(machine, host, event_data)
        } else {
            Ok(())
        };
        let ghost at_4 = *event_data;
        let ghost host_4 = *host;
        proof {
            if self@.dest is None {
                lemma_nothing_done(at_3);
                lemma_linked_nothing(
                    host_3,
                    following(at_3.sight(), at_4.since(&at_3), machine.attribute(), queued@),
                    at_4.since(&at_3),
                );
            }
            lemma_stage(stages, 3, start, at_3, at_4, queued@);
            lemma_stays_the_same(start.snapshot(), at_3.since(&start), machine.attribute());
            lemma_linked_between(*old(host), host_3, host_4, start, at_3, at_4, machine.attribute(), queued@);
            lemma_moved_by_concat(start.snapshot(), at_3.since(&start), at_4.since(&at_3), machine.attribute());
            assert(at_4.since(&start) =~= at_3.since(&start) + at_4.since(&at_3));
        }
        match changed {
            Err(e) => {
                match saved {
                    Some((model, state)) => {
                        event_data.model = model;
                        event_data.state = state;
                    },
                    None => {},
                }
                return Err(e);
            },
            Ok(_) => {},
        }

        // The transition's own callbacks first, then the machine-wide ones.
        let after = chain(&self.after.triggers, &machine.after_state_change);
        let finished = machine.callbacks(after.as_slice(), host, event_data);
        let ghost at_5 = *event_data;
        proof {
            lemma_stage(stages, 4, start, at_4, at_5, queued@);
            lemma_linked_between(*old(host), host_4, *host, start, at_4, at_5, machine.attribute(), queued@);
        }
        match finished {
            Err(e) => {
                match saved {
                    Some((model, state)) => {
                        event_data.model = model;
                        event_data.state = state;
                    },
                    None => {},
                }
                Err(e)
            },
            Ok(_) => Ok(true),
        }
    }
}

/// The data that has made no step since itself.
proof fn lemma_nothing_done(data: EventData)
    ensures
        data.extends(&data),
        data.since(&data) == Seq::<Step>::empty(),
        forall|queued: bool|
            #![trigger is_run(Seq::<Action>::empty(), data.since(&data), queued)]
            is_run(Seq::<Action>::empty(), data.since(&data), queued) && data.raised()
                == data.raised() + run_queues(data.since(&data), queued),
{
    assert(data.since(&data) =~= Seq::<Step>::empty());
    assert(data.trace() =~= data.trace() + data.since(&data));
    assert forall|queued: bool|
        #![trigger is_run(Seq::<Action>::empty(), data.since(&data), queued)]
        is_run(Seq::<Action>::empty(), data.since(&data), queued) && data.raised() == data.raised()
            + run_queues(data.since(&data), queued) by {
        lemma_run_of_nothing(queued);
        assert(data.raised() + run_queues(data.since(&data), queued) =~= data.raised());
    }
}

/// One more stage: the work went through the first `done` stages between
/// `start` and `middle`, and made a run of the next stage between `middle`
/// and `end`.
proof fn lemma_stage(
    stages: Seq<Seq<Action>>,
    done: int,
    start: EventData,
    middle: EventData,
    end: EventData,
    queued: bool,
)
    requires
        stages.len() == 5,
        1 <= done < 5,
        middle.extends(&start),
        is_run(joined(stages, done), middle.since(&start), queued),
        run_outcome(middle.since(&start), queued) == Ok::<bool, ErrorView>(true),
        middle.raised() == start.raised() + run_queues(middle.since(&start), queued),
        end.extends(&middle),
        is_run(stages[done], end.since(&middle), queued),
        end.raised() == middle.raised() + run_queues(end.since(&middle), queued),
    ensures
        end.extends(&start),
        is_run(joined(stages, done + 1), end.since(&start), queued),
        run_outcome(end.since(&start), queued) == run_outcome(end.since(&middle), queued),
        end.raised() == start.raised() + run_queues(end.since(&start), queued),
        run_outcome(end.since(&middle), queued) != Ok::<bool, ErrorView>(true) ==> is_run(
            joined(stages, 5),
            end.since(&start),
            queued,
        ),
{
    let run = middle.since(&start);
    let more = end.since(&middle);
    lemma_run_extends(joined(stages, done), stages[done], run, more, queued);
    lemma_run_queues_concat(run, more, queued);
    assert(end.since(&start) =~= run + more);
    assert(end.trace() =~= start.trace() + (run + more));
    assert(end.raised() =~= start.raised() + run_queues(run + more, queued));
    if run_outcome(more, queued) != Ok::<bool, ErrorView>(true) {
        lemma_stops_within(stages, done + 1, run + more, queued);
    }
}

impl Transition {
    /// The five stages of the plan.
    spec fn stages(&self, machine: &Machine) -> Seq<Seq<Action>> {
        seq![
            calls(machine.hooks().prepare_event + self@.prepare),
            self@.guards(),
            calls(machine.hooks().before_state_change + self@.before),
            self@.change(self.on_exit(machine), self.on_enter(machine)),
            calls(self@.after + machine.hooks().after_state_change),
        ]
    }

    /// The plan is its five stages, one after the other.
    proof fn lemma_stages(&self, machine: &Machine)
        ensures
            self.stages(machine).len() == 5,
            self.stages(machine)[0] == calls(machine.hooks().prepare_event + self@.prepare),
            self.stages(machine)[1] == self@.guards(),
            self.stages(machine)[2] == calls(machine.hooks().before_state_change + self@.before),
            self.stages(machine)[3] == self@.change(self.on_exit(machine), self.on_enter(machine)),
            self.stages(machine)[4] == calls(self@.after + machine.hooks().after_state_change),
            joined(self.stages(machine), 1) == self.stages(machine)[0],
            joined(self.stages(machine), 5) == self.plan(machine),
    {
        let stages = self.stages(machine);
        assert(joined(stages, 1) == stages[0]);
        assert(joined(stages, 2) == stages[0] + stages[1]);
        assert(joined(stages, 3) == stages[0] + stages[1] + stages[2]);
        assert(joined(stages, 4) == stages[0] + stages[1] + stages[2] + stages[3]);
        assert(joined(stages, 5) == stages[0] + stages[1] + stages[2] + stages[3] + stages[4]);
    }
}

/// The arguments of one call of [`Machine::add_transition`], kept as data:
/// the trigger, the sources, the destination, and the predicates and
/// callbacks that each transition gets.
#[derive(Debug)]
pub struct TransitionParameters {
    pub(crate) trigger: String,
    pub(crate) source: Vec<String>,
    pub(crate) dest: Option<String>,
    pub(crate) conditions: Vec<ConditionFunction>,
    pub(crate) unless: Vec<ConditionFunction>,
    pub(crate) before: Vec<TriggerFunction>,
    pub(crate) after: Vec<TriggerFunction>,
    pub(crate) prepare: Vec<TriggerFunction>,
}

impl TransitionParameters {
    /// The arguments for registering, under `trigger`, one transition from
    /// each of `source` to `dest`.
    pub fn new(
        trigger: String,
        source: Vec<String>,
        dest: Option<String>,
        conditions: Vec<ConditionFunction>,
        unless: Vec<ConditionFunction>,
        before: Vec<TriggerFunction>,
        after: Vec<TriggerFunction>,
        prepare: Vec<TriggerFunction>,
    ) -> (r: Self)
        ensures
            r@ == (crate::registry::Registration {
                trigger: trigger@,
                source: crate::support::texts(source@),
                dest: optional_text(dest),
                arguments: crate::registry::Arguments {
                    conditions: crate::registry::condition_names(conditions@),
                    unless: crate::registry::condition_names(unless@),
                    before: trigger_names(before@),
                    after: trigger_names(after@),
                    prepare: trigger_names(prepare@),
                },
            }),
    {
        TransitionParameters { trigger, source, dest, conditions, unless, before, after, prepare }
    }
}

} // verus!
