use transitions::elements::{
    Condition, ConditionFunction, PotentialConditions, PotentialTriggers, State, StateTrigger,
    StateTriggerType, Transition, TriggerFunction,
};
use transitions::error::Error;
use transitions::event::{Event, EventData, Pending};
use transitions::host::Host;
use transitions::machine::{getattr, Machine};
use transitions::model::Model;
use transitions::support::KeySet;

/// A host that knows the identifiers in `known`, counts its calls, answers
/// every predicate with `answer`, and raises `raises` from every callback.
struct Fixed {
    known: Vec<String>,
    answer: bool,
    raises: Vec<String>,
    calls: usize,
}

impl Fixed {
    fn knowing(list: &[&str]) -> Self {
        Fixed { known: list.iter().map(|s| s.to_string()).collect(), answer: true, raises: Vec::new(), calls: 0 }
    }
}

impl Host for Fixed {
    fn resolves(&self, identifier: &str, _event_data: &EventData) -> bool {
        self.known.iter().any(|k| k == identifier)
    }

    fn invoke(&mut self, _identifier: &str, _event_data: &EventData) -> Result<Vec<String>, Error> {
        self.calls += 1;
        Ok(self.raises.clone())
    }

    fn test(&mut self, _identifier: &str, _event_data: &EventData) -> Result<bool, Error> {
        self.calls += 1;
        Ok(self.answer)
    }
}

fn data(state: &str) -> EventData {
    EventData::new(state.to_string(), String::from("go"), &machine(false), Model::new())
}

fn machine(queued: bool) -> Machine {
    Machine::new(false, false, false, None, None, None, queued, None, None, None)
}

#[test]
fn model_attributes_are_set_and_read() {
    let mut model = Model::new();
    assert_eq!(model.get(&String::from("state")), None);
    model.set(&String::from("state"), String::from("A"));
    model.set(&String::from("colour"), String::from("red"));
    assert_eq!(model.get(&String::from("state")), Some(&String::from("A")));
    model.set(&String::from("state"), String::from("B"));
    assert_eq!(model.get(&String::from("state")), Some(&String::from("B")));
    assert_eq!(model.get(&String::from("colour")), Some(&String::from("red")));
    let copy = model.clone();
    assert_eq!(getattr(&copy, "state"), Some(String::from("B")));
    assert_eq!(getattr(&copy, "colour"), Some(String::from("red")));
    assert_eq!(getattr(&copy, "size"), None);
}

#[test]
fn key_set_keeps_each_key_once() {
    let mut keys = KeySet::new();
    assert_eq!(keys.len(), 0);
    assert!(keys.insert(String::from("b")));
    assert!(keys.insert(String::from("a")));
    assert!(!keys.insert(String::from("b")));
    assert_eq!(keys.len(), 2);
    assert!(keys.contains(&String::from("a")));
    assert!(!keys.contains(&String::from("c")));
    assert_eq!(keys.keys(), &vec![String::from("b"), String::from("a")]);
    let copy = keys.clone();
    assert_eq!(copy.keys(), keys.keys());
}

#[test]
fn errors_are_copied_whole() {
    let mut keys = KeySet::new();
    keys.insert(String::from("colour"));
    let list = vec![
        Error::MachineError(String::from("m")),
        Error::ArgumentsError,
        Error::InheritanceError(keys, String::from("why")),
        Error::InitialStateError,
        Error::RegisteredStateError(String::from("s")),
        Error::UnknownEventError(String::from("e")),
        Error::UnknownTriggerError(String::from("e"), String::from("s")),
        Error::TriggerNameError(String::from("t")),
        Error::InsufficientStatesError,
        Error::CallableError(String::from("c")),
        Error::UnknownStateError(String::from("s")),
        Error::MachineAttributeError(String::from("a"), String::from("m")),
        Error::MachineEventAttributeError(String::from("e"), String::from("m")),
    ];
    for error in &list {
        assert_eq!(format!("{:?}", error.clone()), format!("{:?}", error));
    }
    match &list[2] {
        Error::InheritanceError(keys, reason) => {
            assert!(keys.contains(&String::from("colour")));
            assert_eq!(reason, "why");
        },
        _ => panic!("expected an InheritanceError"),
    }
}

#[test]
fn callbacks_are_resolved_before_they_run() {
    let callback = TriggerFunction::new(String::from("known"));
    let stranger = TriggerFunction::new(String::from("stranger"));
    let mut host = Fixed::knowing(&["known"]);
    let context = data("A");
    assert!(callback.resolve_callable(&host, &context).is_ok());
    match stranger.resolve_callable(&host, &context) {
        Err(Error::CallableError(name)) => assert_eq!(name, "stranger"),
        _ => panic!("expected a CallableError"),
    }
    assert!(callback.execute(&mut host, &context).unwrap().is_empty());
    assert_eq!(host.calls, 1);
    let tagged = StateTrigger::from_func_and_type_name(StateTriggerType::Exit, callback.clone()).unwrap();
    assert!(matches!(tagged, StateTrigger::ExitTrigger(_)));
    assert!(tagged.execute(&mut host, &context).unwrap().is_empty());
    assert_eq!(host.calls, 2);
    assert_eq!(callback.clone().name(), "known");
}

#[test]
fn predicates_are_resolved_before_they_are_asked() {
    let predicate = ConditionFunction::new(String::from("known"));
    let stranger = ConditionFunction::new(String::from("stranger"));
    let mut host = Fixed::knowing(&["known"]);
    let mut context = data("A");
    assert!(predicate.resolve_callable(&host, &context).is_ok());
    assert!(matches!(stranger.resolve_callable(&host, &context), Err(Error::CallableError(_))));
    assert!(predicate.execute(&mut host, &context).unwrap());
    host.answer = false;
    assert!(!predicate.execute(&mut host, &context).unwrap());
    let guard = Condition::new(stranger, true);
    assert!(matches!(guard.check(&mut host, &mut context), Err(Error::CallableError(_))));
    assert_eq!(host.calls, 2);
    assert_eq!(guard.func().name(), "stranger");
    assert!(guard.target());
    let copy = guard.clone();
    assert_eq!(copy.func().name(), "stranger");
    assert!(copy.target());
}

#[test]
fn a_callback_of_the_machine_keeps_what_it_raises_for_the_queue() {
    let queued = machine(true);
    let plain = machine(false);
    let callback = TriggerFunction::new(String::from("known"));
    let mut host = Fixed::knowing(&["known"]);
    host.raises = vec![String::from("x"), String::from("y")];
    let mut context = data("A");
    assert!(queued.callback(&callback, &mut host, &mut context).is_ok());
    assert!(queued.callback(&callback, &mut host, &mut context).is_ok());
    let (_, raised) = context.finish();
    assert_eq!(raised, vec!["x", "y", "x", "y"]);
    let mut context = data("A");
    assert!(matches!(plain.callback(&callback, &mut host, &mut context), Err(Error::MachineError(_))));
    let (_, raised) = context.finish();
    assert!(raised.is_empty());
    host.raises = Vec::new();
    let mut context = data("A");
    assert!(plain.callback(&callback, &mut host, &mut context).is_ok());
}

#[test]
fn callbacks_stop_at_the_first_failure() {
    let plain = machine(false);
    let known = TriggerFunction::new(String::from("known"));
    let stranger = TriggerFunction::new(String::from("stranger"));
    let mut host = Fixed::knowing(&["known"]);
    let mut context = data("A");
    let list = vec![&known, &known, &stranger, &known];
    assert!(matches!(plain.callbacks(&list, &mut host, &mut context), Err(Error::CallableError(_))));
    assert_eq!(host.calls, 2);
    let list = vec![&known, &known];
    assert!(plain.callbacks(&list, &mut host, &mut context).is_ok());
    assert_eq!(host.calls, 4);
    let none: Vec<&TriggerFunction> = Vec::new();
    assert!(plain.callbacks(&none, &mut host, &mut context).is_ok());
    assert_eq!(host.calls, 4);
}

#[test]
fn guards_are_all_asked_when_all_pass() {
    let plain = machine(false);
    let both = vec![ConditionFunction::new(String::from("a")), ConditionFunction::new(String::from("b"))];
    let conditions = PotentialConditions::new(&both, true);
    assert_eq!(conditions.len(), 2);
    let transition = Transition::new(
        String::from("A"),
        None,
        conditions.clone(),
        PotentialConditions::new(&both, false),
        PotentialTriggers::new(Vec::new()),
        PotentialTriggers::new(Vec::new()),
        PotentialTriggers::new(Vec::new()),
    );
    let mut host = Fixed::knowing(&["a", "b"]);
    let mut context = data("A");
    // The conditions pass and the first `unless` declines.
    assert!(!transition.eval_conditions(&plain, &mut host, &mut context).unwrap());
    assert_eq!(host.calls, 3);
    host.answer = false;
    host.calls = 0;
    // The first condition declines.
    assert!(!transition.eval_conditions(&plain, &mut host, &mut context).unwrap());
    assert_eq!(host.calls, 1);
    let copy = transition.clone();
    assert_eq!(copy.source(), "A");
    assert!(copy.dest().is_none());
}

#[test]
fn trigger_lists_grow_at_the_end() {
    let mut list = PotentialTriggers::new(vec![TriggerFunction::new(String::from("first"))]);
    list.append(TriggerFunction::new(String::from("second")));
    list.append(TriggerFunction::new(String::from("third")));
    assert_eq!(list.len(), 3);
    let copy = list.clone();
    assert_eq!(copy.len(), 3);
    let transition = Transition::new(
        String::from("A"),
        None,
        PotentialConditions::new(&Vec::new(), true),
        PotentialConditions::new(&Vec::new(), false),
        list,
        PotentialTriggers::new(Vec::new()),
        PotentialTriggers::new(Vec::new()),
    );
    let mut plain = machine(false);
    plain.add_state(State::from_str("A")).unwrap();
    let mut host = Fixed::knowing(&["first", "second"]);
    let mut context = data("A");
    // The third callback is behind the two that resolve.
    assert!(matches!(transition.execute(&plain, &mut host, &mut context), Err(Error::CallableError(name)) if name == "third"));
    assert_eq!(host.calls, 2);
}

#[test]
fn event_data_follows_the_model() {
    let mut model = Model::new();
    model.set(&String::from("state"), String::from("A"));
    let named = Machine::new(true, false, false, None, None, Some(String::from("door")), false, None, None, None);
    let mut context = EventData::new(String::from("A"), String::from("go"), &named, model);
    assert_eq!(context.machine(), "door: ");
    assert!(context.send_event());
    assert_eq!(context.state(), "A");
    assert_eq!(context.event(), "go");
    assert!(!context.result());
    assert!(context.error().is_none());
    assert!(context.source().is_none());
    assert!(context.dest().is_none());
    assert_eq!(getattr(context.model(), "state"), Some(String::from("A")));
    context.update(String::from("B"));
    assert_eq!(context.state(), "B");
    let (model, raised) = context.finish();
    assert_eq!(getattr(&model, "state"), Some(String::from("A")));
    assert!(raised.is_empty());
}

#[test]
fn processing_an_event_without_candidates_only_finalizes() {
    let mut plain = Machine::new(
        false,
        false,
        false,
        None,
        None,
        None,
        false,
        None,
        Some(TriggerFunction::new(String::from("finalize"))),
        None,
    );
    plain.add_states(vec![State::from_str("A"), State::from_str("B")]).unwrap();
    let mut event = Event::new(String::from("go"));
    event.add_transition(Transition::new(
        String::from("A"),
        Some(String::from("B")),
        PotentialConditions::new(&Vec::new(), true),
        PotentialConditions::new(&Vec::new(), false),
        PotentialTriggers::new(Vec::new()),
        PotentialTriggers::new(Vec::new()),
        PotentialTriggers::new(Vec::new()),
    ));
    assert_eq!(event.name(), "go");
    let mut host = Fixed::knowing(&["finalize"]);
    let mut context = data("B");
    assert!(!event._process(&plain, &mut host, &mut context).unwrap());
    assert_eq!(host.calls, 1);
    assert!(context.source().is_none());
    let mut context = data("A");
    assert!(event._process(&plain, &mut host, &mut context).unwrap());
    assert_eq!(host.calls, 2);
    assert_eq!(context.state(), "B");
    assert!(context.result());
    assert_eq!(context.dest().unwrap(), "B");
}

#[test]
fn a_failing_finalizer_fails_the_event() {
    let mut plain = Machine::new(
        false,
        false,
        false,
        None,
        None,
        None,
        false,
        None,
        Some(TriggerFunction::new(String::from("finalize"))),
        None,
    );
    plain.add_states(vec![State::from_str("A"), State::from_str("B")]).unwrap();
    plain
        .add_transition("go", &vec![String::from("A")], Some("B"), &vec![], &vec![], &vec![], &vec![], &vec![])
        .unwrap();
    let model = plain.add_model(Model::new(), Some("A")).unwrap();
    let mut host = Fixed::knowing(&[]);
    assert!(matches!(plain.trigger(model, "go", &mut host), Err(Error::CallableError(name)) if name == "finalize"));
    // The transition was through before the finalizer failed.
    assert!(plain.is_state("B", model));
}

#[test]
fn pending_triggers_name_model_and_event() {
    let pending = Pending::new(2, String::from("go"));
    let copy = pending.clone();
    assert_eq!(copy.model(), 2);
    assert_eq!(copy.event(), "go");
}

#[test]
fn removing_a_model_moves_the_later_ones_up() {
    let mut plain = machine(false);
    plain.add_states(vec![State::from_str("A"), State::from_str("B")]).unwrap();
    let first = plain.add_model(Model::new(), Some("A")).unwrap();
    let second = plain.add_model(Model::new(), Some("B")).unwrap();
    let removed = plain.remove_model(first);
    assert_eq!(getattr(&removed, "state"), Some(String::from("A")));
    assert_eq!(plain.model_count(), 1);
    assert_eq!(second, 1);
    assert!(plain.is_state("B", 0));
}

#[test]
fn the_initial_state_is_registered_when_it_is_new() {
    let mut auto = Machine::new(false, true, false, None, None, None, false, None, None, None);
    auto.add_state(State::from_str("A")).unwrap();
    auto.set_initial("Start").unwrap();
    assert_eq!(auto.initial(), &Some(String::from("Start")));
    assert_eq!(auto.state_count(), 2);
    let jumps: Vec<(String, Option<String>)> = auto
        .get_transitions(Some("to_Start"), None, None)
        .iter()
        .map(|t| (t.source().clone(), t.dest().clone()))
        .collect();
    assert_eq!(
        jumps,
        vec![
            (String::from("A"), Some(String::from("Start"))),
            (String::from("Start"), Some(String::from("Start")))
        ]
    );
    auto.set_initial("A").unwrap();
    assert_eq!(auto.initial(), &Some(String::from("A")));
    assert_eq!(auto.state_count(), 2);
    let model = auto.add_model(Model::new(), None).unwrap();
    assert!(auto.is_state("A", model));
}

#[test]
fn refuses_says_what_add_transition_would_refuse() {
    let mut plain = machine(false);
    plain.add_states(vec![State::from_str("A"), State::from_str("B")]).unwrap();
    let go = String::from("go");
    assert!(plain.refuses(&go, &vec![String::from("A")], &Some(String::from("B"))).is_none());
    assert!(plain.refuses(&go, &vec![String::from("*")], &Some(String::from("="))).is_none());
    assert!(plain.refuses(&go, &vec![String::from("A")], &None).is_none());
    assert!(matches!(
        plain.refuses(&String::from("state"), &vec![String::from("A")], &None),
        Some(Error::TriggerNameError(_))
    ));
    assert!(matches!(
        plain.refuses(&go, &vec![String::from("A"), String::from("*")], &None),
        Some(Error::UnknownStateError(name)) if name == "*"
    ));
    assert!(matches!(
        plain.refuses(&go, &vec![String::from("A")], &Some(String::from("C"))),
        Some(Error::UnknownStateError(name)) if name == "C"
    ));
}

#[test]
fn callbacks_can_be_added_to_registered_states_and_events() {
    let mut plain = machine(false);
    plain.add_states(vec![State::from_str("A"), State::from_str("B")]).unwrap();
    plain
        .add_transition("go", &vec![String::from("A")], Some("B"), &vec![], &vec![], &vec![], &vec![], &vec![])
        .unwrap();
    plain
        .add_callback_to_state("B", StateTrigger::EnterTrigger(TriggerFunction::new(String::from("hello"))))
        .unwrap();
    plain
        .add_callback_to_state("A", StateTrigger::ExitTrigger(TriggerFunction::new(String::from("bye"))))
        .unwrap();
    plain
        .add_callback_to_event(
            "go",
            transitions::elements::TransitionTriggerType::After,
            TriggerFunction::new(String::from("done")),
        )
        .unwrap();
    assert!(matches!(
        plain.add_callback_to_state("C", StateTrigger::EnterTrigger(TriggerFunction::new(String::from("x")))),
        Err(Error::RegisteredStateError(name)) if name == "C"
    ));
    assert!(matches!(
        plain.add_callback_to_event(
            "stop",
            transitions::elements::TransitionTriggerType::Before,
            TriggerFunction::new(String::from("x"))
        ),
        Err(Error::MachineEventAttributeError(event, _)) if event == "stop"
    ));
    let model = plain.add_model(Model::new(), Some("A")).unwrap();
    let mut host = Fixed::knowing(&["hello", "bye", "done"]);
    assert!(plain.trigger(model, "go", &mut host).unwrap());
    assert_eq!(host.calls, 3);
}

#[test]
fn settling_a_reply_keeps_or_refuses_what_was_raised() {
    let queued = machine(true);
    let plain = machine(false);
    let mut context = data("A");
    assert!(queued.settle(Ok(vec![String::from("x"), String::from("y")]), &mut context).is_ok());
    assert!(queued.settle(Ok(Vec::new()), &mut context).is_ok());
    assert!(matches!(
        queued.settle(Err(Error::CallableError(String::from("c"))), &mut context),
        Err(Error::CallableError(name)) if name == "c"
    ));
    let (_, raised) = context.finish();
    assert_eq!(raised, vec!["x", "y"]);
    let mut context = data("A");
    match plain.settle(Ok(vec![String::from("x")]), &mut context) {
        Err(Error::MachineError(message)) => {
            assert_eq!(message, "Attempt to process events synchronously while transition queue is not empty!")
        },
        _ => panic!("expected a MachineError"),
    }
    assert!(plain.settle(Ok(Vec::new()), &mut context).is_ok());
    assert!(matches!(plain.settle(Err(Error::ArgumentsError), &mut context), Err(Error::ArgumentsError)));
    let (_, raised) = context.finish();
    assert!(raised.is_empty());
}
