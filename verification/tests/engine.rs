use transitions::elements::{
    Condition, ConditionFunction, PotentialConditions, PotentialTriggers, State, StateTrigger,
    StateTriggerType, Transition, TransitionParameters, TransitionTriggerType, TriggerFunction,
};
use transitions::error::Error;
use transitions::event::{Event, EventData, Pending};
use transitions::host::Host;
use transitions::machine::{getattr, Machine};
use transitions::model::Model;

/// A host that records every call, answers predicates from a table, and
/// raises the triggers it was told to.
struct Recorder {
    calls: Vec<String>,
    truths: Vec<(String, bool)>,
    raises: Vec<(String, String)>,
    fails: Vec<String>,
    unknown: Vec<String>,
}

impl Recorder {
    fn new() -> Self {
        Recorder { calls: Vec::new(), truths: Vec::new(), raises: Vec::new(), fails: Vec::new(), unknown: Vec::new() }
    }

    fn answer(mut self, predicate: &str, value: bool) -> Self {
        self.truths.push((predicate.to_string(), value));
        self
    }

    fn raise(mut self, callback: &str, trigger: &str) -> Self {
        self.raises.push((callback.to_string(), trigger.to_string()));
        self
    }

    fn fail(mut self, callback: &str) -> Self {
        self.fails.push(callback.to_string());
        self
    }

    fn forget(mut self, identifier: &str) -> Self {
        self.unknown.push(identifier.to_string());
        self
    }
}

impl Host for Recorder {
    fn resolves(&self, identifier: &str, _event_data: &EventData) -> bool {
        !self.unknown.iter().any(|u| u == identifier)
    }

    fn invoke(&mut self, identifier: &str, event_data: &EventData) -> Result<Vec<String>, Error> {
        self.calls.push(format!("{}@{}", identifier, event_data.state()));
        if self.fails.iter().any(|f| f == identifier) {
            return Err(Error::MachineAttributeError(identifier.to_string(), String::from("host")));
        }
        Ok(self.raises.iter().filter(|(c, _)| c == identifier).map(|(_, t)| t.clone()).collect())
    }

    fn test(&mut self, identifier: &str, event_data: &EventData) -> Result<bool, Error> {
        self.calls.push(format!("{}?@{}", identifier, event_data.state()));
        if self.fails.iter().any(|f| f == identifier) {
            return Err(Error::MachineAttributeError(identifier.to_string(), String::from("host")));
        }
        Ok(self.truths.iter().find(|(p, _)| p == identifier).map(|(_, v)| *v).unwrap_or(true))
    }
}

fn names(list: &[&str]) -> Vec<String> {
    list.iter().map(|s| s.to_string()).collect()
}

fn callbacks(list: &[&str]) -> Vec<TriggerFunction> {
    list.iter().map(|s| TriggerFunction::new(s.to_string())).collect()
}

fn predicates(list: &[&str]) -> Vec<ConditionFunction> {
    list.iter().map(|s| ConditionFunction::new(s.to_string())).collect()
}

fn plain(queued: bool, auto_transitions: bool) -> Machine {
    Machine::new(false, auto_transitions, false, None, None, None, queued, None, None, None)
}

fn with_states(mut machine: Machine, list: &[&str]) -> Machine {
    let states: Vec<State> = list.iter().map(|s| State::from_str(s)).collect();
    machine.add_states(states).unwrap();
    machine
}

fn arcs_of(machine: &Machine, trigger: &str) -> Vec<(String, Option<String>)> {
    machine
        .get_transitions(Some(trigger), None, None)
        .iter()
        .map(|t| (t.source().clone(), t.dest().clone()))
        .collect()
}

fn arc(source: &str, dest: &str) -> (String, Option<String>) {
    (source.to_string(), Some(dest.to_string()))
}

fn state_of(machine: &Machine, model: usize) -> String {
    machine.get_model_state(model).value()
}

#[test]
fn first_passing_candidate_fires_and_later_ones_are_not_considered() {
    let mut machine = with_states(plain(false, false), &["A", "B", "C", "D"]);
    machine
        .add_transition("go", &names(&["A"]), Some("B"), &predicates(&["never"]), &vec![], &vec![], &vec![], &callbacks(&["prep_b"]))
        .unwrap();
    machine
        .add_transition("go", &names(&["A"]), Some("C"), &predicates(&["always"]), &vec![], &vec![], &vec![], &callbacks(&["prep_c"]))
        .unwrap();
    machine
        .add_transition("go", &names(&["A"]), Some("D"), &vec![], &vec![], &vec![], &vec![], &callbacks(&["prep_d"]))
        .unwrap();
    let model = machine.add_model(Model::new(), Some("A")).unwrap();
    let mut host = Recorder::new().answer("never", false).answer("always", true);
    let fired = machine.trigger(model, "go", &mut host).unwrap();
    assert!(fired);
    assert_eq!(state_of(&machine, model), "C");
    assert_eq!(host.calls, vec!["prep_b@A", "never?@A", "prep_c@A", "always?@A"]);
}

#[test]
fn nothing_fires_when_every_guard_declines() {
    let mut machine = with_states(plain(false, false), &["A", "B", "C"]);
    machine
        .add_transition("go", &names(&["A"]), Some("B"), &predicates(&["no"]), &vec![], &callbacks(&["before_b"]), &vec![], &vec![])
        .unwrap();
    machine
        .add_transition("go", &names(&["A"]), Some("C"), &vec![], &predicates(&["blocked"]), &vec![], &vec![], &vec![])
        .unwrap();
    let model = machine.add_model(Model::new(), Some("A")).unwrap();
    let mut host = Recorder::new().answer("no", false).answer("blocked", true);
    let fired = machine.trigger(model, "go", &mut host).unwrap();
    assert!(!fired);
    assert_eq!(state_of(&machine, model), "A");
    assert_eq!(host.calls, vec!["no?@A", "blocked?@A"]);
}

#[test]
fn machine_wide_callbacks_bracket_the_transitions_own() {
    let mut machine = Machine::new(
        true,
        false,
        false,
        Some(TriggerFunction::new(String::from("gb"))),
        Some(TriggerFunction::new(String::from("ga"))),
        None,
        false,
        None,
        None,
        None,
    );
    machine.add_states(vec![State::from_str("A"), State::from_str("B")]).unwrap();
    machine
        .add_transition("go", &names(&["A"]), Some("B"), &vec![], &vec![], &callbacks(&["tb"]), &callbacks(&["ta"]), &vec![])
        .unwrap();
    let model = machine.add_model(Model::new(), Some("A")).unwrap();
    let mut host = Recorder::new();
    assert!(machine.trigger(model, "go", &mut host).unwrap());
    assert_eq!(host.calls, vec!["gb@A", "tb@A", "ta@B", "ga@B"]);
}

#[test]
fn the_whole_pipeline_runs_in_its_order() {
    let mut machine = Machine::new(
        true,
        false,
        false,
        Some(TriggerFunction::new(String::from("gb"))),
        Some(TriggerFunction::new(String::from("ga"))),
        Some(String::from("door")),
        false,
        Some(TriggerFunction::new(String::from("gp"))),
        Some(TriggerFunction::new(String::from("gf"))),
        None,
    );
    assert_eq!(machine.name, "door: ");
    machine
        .add_states(vec![
            State::new(String::from("A"), Some(callbacks(&["enter_a"])), Some(callbacks(&["exit_a1", "exit_a2"])), None),
            State::new(String::from("B"), Some(callbacks(&["enter_b"])), Some(callbacks(&["exit_b"])), None),
        ])
        .unwrap();
    machine
        .add_transition(
            "go",
            &names(&["A"]),
            Some("B"),
            &predicates(&["c1", "c2"]),
            &predicates(&["u1"]),
            &callbacks(&["tb"]),
            &callbacks(&["ta"]),
            &callbacks(&["tp"]),
        )
        .unwrap();
    let model = machine.add_model(Model::new(), Some("A")).unwrap();
    let mut host = Recorder::new().answer("u1", false);
    assert!(machine.trigger(model, "go", &mut host).unwrap());
    assert_eq!(
        host.calls,
        vec![
            "gp@A", "tp@A", "c1?@A", "c2?@A", "u1?@A", "gb@A", "tb@A", "exit_a1@A", "exit_a2@A", "enter_b@B",
            "ta@B", "ga@B", "gf@B"
        ]
    );
}

#[test]
fn guard_passes_when_answer_equals_target() {
    let positive = Condition::new(ConditionFunction::new(String::from("ready")), true);
    assert!(positive.passes(true));
    assert!(!positive.passes(false));
    let negative = Condition::new(ConditionFunction::new(String::from("busy")), false);
    assert!(negative.passes(false));
    assert!(!negative.passes(true));
}

#[test]
fn check_compares_the_hosts_answer_with_the_target() {
    let machine = plain(false, false);
    let mut data = EventData::new(String::from("A"), String::from("go"), &machine, Model::new());
    let mut host = Recorder::new().answer("ready", true).answer("busy", true);
    let positive = Condition::new(ConditionFunction::new(String::from("ready")), true);
    let negative = Condition::new(ConditionFunction::new(String::from("busy")), false);
    assert!(positive.check(&mut host, &mut data).unwrap());
    assert!(!negative.check(&mut host, &mut data).unwrap());
    let mut host = Recorder::new().answer("ready", false).answer("busy", false);
    assert!(!positive.check(&mut host, &mut data).unwrap());
    assert!(negative.check(&mut host, &mut data).unwrap());
}

#[test]
fn unless_blocks_when_its_predicate_holds() {
    let mut machine = with_states(plain(false, false), &["A", "B"]);
    machine
        .add_transition("go", &names(&["A"]), Some("B"), &predicates(&["ok"]), &predicates(&["locked"]), &vec![], &vec![], &vec![])
        .unwrap();
    let model = machine.add_model(Model::new(), Some("A")).unwrap();
    let mut host = Recorder::new().answer("ok", true).answer("locked", true);
    assert!(!machine.trigger(model, "go", &mut host).unwrap());
    assert_eq!(state_of(&machine, model), "A");
    let mut host = Recorder::new().answer("ok", true).answer("locked", false);
    assert!(machine.trigger(model, "go", &mut host).unwrap());
    assert_eq!(state_of(&machine, model), "B");
}

#[test]
fn guards_short_circuit_on_the_first_that_declines() {
    let mut machine = with_states(plain(false, false), &["A", "B"]);
    machine
        .add_transition("go", &names(&["A"]), Some("B"), &predicates(&["c1", "c2", "c3"]), &predicates(&["u1"]), &vec![], &vec![], &vec![])
        .unwrap();
    let model = machine.add_model(Model::new(), Some("A")).unwrap();
    let mut host = Recorder::new().answer("c2", false);
    assert!(!machine.trigger(model, "go", &mut host).unwrap());
    assert_eq!(host.calls, vec!["c1?@A", "c2?@A"]);
}

#[test]
fn auto_transitions_connect_every_pair_of_states() {
    let machine = with_states(plain(false, true), &["A", "B", "C"]);
    let mut to_b = arcs_of(&machine, "to_B");
    to_b.sort();
    assert_eq!(to_b, vec![arc("A", "B"), arc("B", "B"), arc("C", "B")]);
    let mut to_a = arcs_of(&machine, "to_A");
    to_a.sort();
    assert_eq!(to_a, vec![arc("A", "A"), arc("B", "A"), arc("C", "A")]);
    let mut to_c = arcs_of(&machine, "to_C");
    to_c.sort();
    assert_eq!(to_c, vec![arc("A", "C"), arc("B", "C"), arc("C", "C")]);
    assert_eq!(machine.get_triggers(&names(&["A"])), vec!["to_A", "to_B", "to_C"]);
}

#[test]
fn auto_transitions_are_registered_in_the_order_of_the_states() {
    let machine = with_states(plain(false, true), &["A", "B"]);
    assert_eq!(arcs_of(&machine, "to_A"), vec![arc("A", "A"), arc("B", "A")]);
    assert_eq!(arcs_of(&machine, "to_B"), vec![arc("A", "B"), arc("B", "B")]);
}

#[test]
fn auto_transitions_jump_from_anywhere() {
    let mut machine = with_states(plain(false, true), &["A", "B", "C"]);
    let model = machine.add_model(Model::new(), Some("A")).unwrap();
    let mut host = Recorder::new();
    assert!(machine.trigger(model, "to_C", &mut host).unwrap());
    assert_eq!(state_of(&machine, model), "C");
    assert!(machine.trigger(model, "to_A", &mut host).unwrap());
    assert_eq!(state_of(&machine, model), "A");
}

#[test]
fn no_auto_transitions_without_the_flag() {
    let machine = with_states(plain(false, false), &["A", "B"]);
    assert!(machine.get_transitions(None, None, None).is_empty());
    assert!(machine.get_triggers(&names(&["A", "B"])).is_empty());
}

#[test]
fn ordered_transitions_with_loop() {
    let mut machine = with_states(plain(false, false), &["A", "B", "C"]);
    machine
        .add_ordered_transitions(Some(&names(&["A", "B", "C"])), None, true, true, None, None, None, None, None)
        .unwrap();
    assert_eq!(arcs_of(&machine, "next_state"), vec![arc("A", "B"), arc("B", "C"), arc("C", "A")]);
}

#[test]
fn ordered_transitions_without_loop() {
    let mut machine = with_states(plain(false, false), &["A", "B", "C"]);
    machine
        .add_ordered_transitions(Some(&names(&["A", "B", "C"])), None, false, true, None, None, None, None, None)
        .unwrap();
    assert_eq!(arcs_of(&machine, "next_state"), vec![arc("A", "B"), arc("B", "C")]);
}

#[test]
fn ordered_transitions_default_to_all_states_and_start_at_the_initial_state() {
    let mut machine = with_states(plain(false, false), &["A", "B", "C"]);
    machine.set_initial("B").unwrap();
    machine.add_ordered_transitions(None, Some("advance"), true, true, None, None, None, None, None).unwrap();
    assert_eq!(arcs_of(&machine, "advance"), vec![arc("B", "C"), arc("C", "A"), arc("A", "B")]);
}

#[test]
fn ordered_loop_can_leave_out_the_initial_state() {
    let mut machine = with_states(plain(false, false), &["A", "B", "C"]);
    machine.set_initial("A").unwrap();
    machine.add_ordered_transitions(None, None, true, false, None, None, None, None, None).unwrap();
    assert_eq!(arcs_of(&machine, "next_state"), vec![arc("A", "B"), arc("B", "C"), arc("C", "B")]);
}

#[test]
fn ordered_transitions_take_one_argument_for_all_or_one_each() {
    let mut machine = with_states(plain(false, false), &["A", "B", "C"]);
    machine
        .add_ordered_transitions(
            None,
            None,
            true,
            true,
            Some(predicates(&["same"])),
            None,
            Some(callbacks(&["b0", "b1", "b2"])),
            None,
            None,
        )
        .unwrap();
    let all = machine.get_transitions(Some("next_state"), None, None);
    assert_eq!(all.len(), 3);
    let model = machine.add_model(Model::new(), Some("B")).unwrap();
    let mut host = Recorder::new();
    assert!(machine.trigger(model, "next_state", &mut host).unwrap());
    assert_eq!(host.calls, vec!["same?@B", "b1@B"]);
    assert_eq!(state_of(&machine, model), "C");
}

#[test]
fn ordered_transitions_need_two_states() {
    let mut machine = with_states(plain(false, false), &["A"]);
    let refused = machine.add_ordered_transitions(None, None, true, true, None, None, None, None, None);
    assert!(matches!(refused, Err(Error::InsufficientStatesError)));
    assert!(machine.get_transitions(None, None, None).is_empty());
}

#[test]
fn ordered_transitions_refuse_lists_of_another_length() {
    let mut machine = with_states(plain(false, false), &["A", "B", "C"]);
    let refused = machine.add_ordered_transitions(
        None,
        None,
        true,
        true,
        Some(predicates(&["one", "two"])),
        None,
        None,
        None,
        None,
    );
    assert!(matches!(refused, Err(Error::ArgumentsError)));
    let refused =
        machine.add_ordered_transitions(None, None, false, true, None, None, None, Some(callbacks(&["a", "b", "c"])), None);
    assert!(matches!(refused, Err(Error::ArgumentsError)));
    let refused = machine.add_ordered_transitions(None, None, false, true, None, None, None, Some(vec![]), None);
    assert!(matches!(refused, Err(Error::ArgumentsError)));
    assert!(machine.get_transitions(None, None, None).is_empty());
}

#[test]
fn queued_trigger_runs_after_the_current_one_is_done() {
    let mut machine = Machine::new(
        true,
        false,
        false,
        None,
        None,
        None,
        true,
        None,
        Some(TriggerFunction::new(String::from("finalize"))),
        None,
    );
    machine.add_states(vec![State::from_str("A"), State::from_str("B"), State::from_str("C")]).unwrap();
    machine
        .add_transition("first", &names(&["A"]), Some("B"), &vec![], &vec![], &callbacks(&["raise_second"]), &callbacks(&["after_first"]), &vec![])
        .unwrap();
    machine
        .add_transition("second", &names(&["B"]), Some("C"), &vec![], &vec![], &callbacks(&["before_second"]), &vec![], &vec![])
        .unwrap();
    let model = machine.add_model(Model::new(), Some("A")).unwrap();
    let mut host = Recorder::new().raise("raise_second", "second");
    assert!(machine.trigger(model, "first", &mut host).unwrap());
    assert_eq!(
        host.calls,
        vec!["raise_second@A", "after_first@B", "finalize@B", "before_second@B", "finalize@C"]
    );
    assert_eq!(state_of(&machine, model), "C");
}

#[test]
fn queued_triggers_are_served_first_in_first_out() {
    let mut machine = with_states(plain(true, false), &["A", "B", "C", "D"]);
    machine
        .add_transition("start", &names(&["A"]), Some("B"), &vec![], &vec![], &callbacks(&["fan_out"]), &vec![], &vec![])
        .unwrap();
    machine.add_transition("x", &names(&["B"]), Some("C"), &vec![], &vec![], &callbacks(&["in_x"]), &vec![], &vec![]).unwrap();
    machine.add_transition("y", &names(&["C"]), Some("D"), &vec![], &vec![], &callbacks(&["in_y"]), &vec![], &vec![]).unwrap();
    let model = machine.add_model(Model::new(), Some("A")).unwrap();
    let mut host = Recorder::new().raise("fan_out", "x").raise("fan_out", "y");
    assert!(machine.trigger(model, "start", &mut host).unwrap());
    assert_eq!(host.calls, vec!["fan_out@A", "in_x@B", "in_y@C"]);
    assert_eq!(state_of(&machine, model), "D");
}

#[test]
fn queued_guard_failure_still_reports_success() {
    let mut machine = with_states(plain(true, false), &["A", "B"]);
    machine.add_transition("go", &names(&["A"]), Some("B"), &predicates(&["no"]), &vec![], &vec![], &vec![], &vec![]).unwrap();
    let model = machine.add_model(Model::new(), Some("A")).unwrap();
    let mut host = Recorder::new().answer("no", false);
    assert!(machine.trigger(model, "go", &mut host).unwrap());
    assert_eq!(state_of(&machine, model), "A");
}

#[test]
fn a_failing_queued_trigger_discards_the_rest_of_the_queue() {
    let mut machine = with_states(plain(true, false), &["A", "B", "C"]);
    machine
        .add_transition("start", &names(&["A"]), Some("B"), &vec![], &vec![], &callbacks(&["fan_out"]), &vec![], &vec![])
        .unwrap();
    machine.add_transition("bad", &names(&["B"]), Some("C"), &vec![], &vec![], &callbacks(&["boom"]), &vec![], &vec![]).unwrap();
    machine.add_transition("late", &names(&["B"]), Some("C"), &vec![], &vec![], &callbacks(&["in_late"]), &vec![], &vec![]).unwrap();
    let model = machine.add_model(Model::new(), Some("A")).unwrap();
    let mut host = Recorder::new().raise("fan_out", "bad").raise("fan_out", "late").fail("boom");
    let failed = machine.trigger(model, "start", &mut host);
    assert!(matches!(failed, Err(Error::MachineAttributeError(_, _))));
    assert_eq!(host.calls, vec!["fan_out@A", "boom@B"]);
    assert_eq!(state_of(&machine, model), "B");
    // The queue was emptied: the next trigger starts a drain of its own.
    let mut host = Recorder::new();
    assert!(machine.trigger(model, "late", &mut host).unwrap());
    assert_eq!(host.calls, vec!["in_late@B"]);
    assert_eq!(state_of(&machine, model), "C");
}

#[test]
fn reentrant_trigger_fails_and_leaves_the_state_alone() {
    let mut machine = with_states(plain(false, false), &["A", "B", "C"]);
    machine
        .add_transition("go", &names(&["A"]), Some("B"), &vec![], &vec![], &callbacks(&["nested"]), &callbacks(&["never_runs"]), &vec![])
        .unwrap();
    machine.add_transition("again", &names(&["A"]), Some("C"), &vec![], &vec![], &vec![], &vec![], &vec![]).unwrap();
    let model = machine.add_model(Model::new(), Some("A")).unwrap();
    let mut host = Recorder::new().raise("nested", "again");
    let failed = machine.trigger(model, "go", &mut host);
    match failed {
        Err(Error::MachineError(message)) => {
            assert_eq!(message, "Attempt to process events synchronously while transition queue is not empty!")
        },
        _ => panic!("expected a MachineError"),
    }
    assert_eq!(host.calls, vec!["nested@A"]);
    assert_eq!(state_of(&machine, model), "A");
}

#[test]
fn reentrant_trigger_after_the_state_change_restores_the_state() {
    let mut machine = with_states(plain(false, false), &["A", "B"]);
    machine
        .add_transition("go", &names(&["A"]), Some("B"), &vec![], &vec![], &vec![], &callbacks(&["nested"]), &vec![])
        .unwrap();
    let model = machine.add_model(Model::new(), Some("A")).unwrap();
    let mut host = Recorder::new().raise("nested", "go");
    assert!(matches!(machine.trigger(model, "go", &mut host), Err(Error::MachineError(_))));
    assert_eq!(host.calls, vec!["nested@B"]);
    assert_eq!(state_of(&machine, model), "A");
}

#[test]
fn internal_transition_runs_callbacks_but_changes_no_state() {
    let mut machine = plain(false, false);
    machine
        .add_states(vec![State::new(
            String::from("A"),
            Some(callbacks(&["enter_a"])),
            Some(callbacks(&["exit_a"])),
            None,
        )])
        .unwrap();
    machine
        .add_transition(
            "tick",
            &names(&["A"]),
            None,
            &predicates(&["ok"]),
            &vec![],
            &callbacks(&["before"]),
            &callbacks(&["after"]),
            &callbacks(&["prepare"]),
        )
        .unwrap();
    let mut model = Model::new();
    model.set(&String::from("other"), String::from("kept"));
    let model = machine.add_model(model, Some("A")).unwrap();
    let mut host = Recorder::new();
    assert!(machine.trigger(model, "tick", &mut host).unwrap());
    assert_eq!(host.calls, vec!["prepare@A", "ok?@A", "before@A", "after@A"]);
    assert_eq!(state_of(&machine, model), "A");
    let back = machine.remove_model(model);
    assert_eq!(getattr(&back, "state"), Some(String::from("A")));
    assert_eq!(getattr(&back, "other"), Some(String::from("kept")));
}

#[test]
fn finalizers_run_once_whatever_happened() {
    let build = || {
        let mut machine = Machine::new(
            true,
            false,
            false,
            None,
            None,
            None,
            false,
            None,
            Some(TriggerFunction::new(String::from("finalize"))),
            None,
        );
        machine.add_states(vec![State::from_str("A"), State::from_str("B")]).unwrap();
        machine
            .add_transition("go", &names(&["A"]), Some("B"), &predicates(&["ok"]), &vec![], &callbacks(&["before"]), &vec![], &vec![])
            .unwrap();
        let model = machine.add_model(Model::new(), Some("A")).unwrap();
        (machine, model)
    };
    let (mut machine, model) = build();
    let mut host = Recorder::new();
    assert!(machine.trigger(model, "go", &mut host).unwrap());
    assert_eq!(host.calls, vec!["ok?@A", "before@A", "finalize@B"]);

    let (mut machine, model) = build();
    let mut host = Recorder::new().answer("ok", false);
    assert!(!machine.trigger(model, "go", &mut host).unwrap());
    assert_eq!(host.calls, vec!["ok?@A", "finalize@A"]);

    let (mut machine, model) = build();
    let mut host = Recorder::new().fail("before");
    assert!(matches!(machine.trigger(model, "go", &mut host), Err(Error::MachineAttributeError(_, _))));
    assert_eq!(host.calls, vec!["ok?@A", "before@A", "finalize@A"]);
    assert_eq!(state_of(&machine, model), "A");
}

#[test]
fn a_failure_after_the_state_change_restores_the_state() {
    let mut machine = plain(false, false);
    machine
        .add_states(vec![
            State::from_str("A"),
            State::new(String::from("B"), Some(callbacks(&["enter_b"])), None, None),
        ])
        .unwrap();
    machine.add_transition("go", &names(&["A"]), Some("B"), &vec![], &vec![], &vec![], &callbacks(&["after"]), &vec![]).unwrap();
    let model = machine.add_model(Model::new(), Some("A")).unwrap();
    let mut host = Recorder::new().fail("enter_b");
    assert!(machine.trigger(model, "go", &mut host).is_err());
    assert_eq!(host.calls, vec!["enter_b@B"]);
    assert_eq!(state_of(&machine, model), "A");
    let mut host = Recorder::new().fail("after");
    assert!(machine.trigger(model, "go", &mut host).is_err());
    assert_eq!(host.calls, vec!["enter_b@B", "after@B"]);
    assert_eq!(state_of(&machine, model), "A");
}

#[test]
fn unresolved_callback_is_a_callable_error() {
    let mut machine = with_states(plain(false, false), &["A", "B"]);
    machine.add_transition("go", &names(&["A"]), Some("B"), &vec![], &vec![], &callbacks(&["missing"]), &vec![], &vec![]).unwrap();
    machine.add_transition("test", &names(&["A"]), Some("B"), &predicates(&["gone"]), &vec![], &vec![], &vec![], &vec![]).unwrap();
    let model = machine.add_model(Model::new(), Some("A")).unwrap();
    let mut host = Recorder::new().forget("missing").forget("gone");
    match machine.trigger(model, "go", &mut host) {
        Err(Error::CallableError(name)) => assert_eq!(name, "missing"),
        _ => panic!("expected a CallableError"),
    }
    match machine.trigger(model, "test", &mut host) {
        Err(Error::CallableError(name)) => assert_eq!(name, "gone"),
        _ => panic!("expected a CallableError"),
    }
    assert!(host.calls.is_empty());
    assert_eq!(state_of(&machine, model), "A");
}

#[test]
fn trigger_without_transition_from_the_state_is_an_error() {
    let mut machine = with_states(plain(false, false), &["A", "B"]);
    machine.add_transition("go", &names(&["A"]), Some("B"), &vec![], &vec![], &vec![], &vec![], &vec![]).unwrap();
    let model = machine.add_model(Model::new(), Some("B")).unwrap();
    let mut host = Recorder::new();
    match machine.trigger(model, "go", &mut host) {
        Err(Error::UnknownTriggerError(event, state)) => {
            assert_eq!(event, "go");
            assert_eq!(state, "B");
        },
        _ => panic!("expected an UnknownTriggerError"),
    }
    match machine.trigger(model, "nothing", &mut host) {
        Err(Error::UnknownEventError(event)) => assert_eq!(event, "nothing"),
        _ => panic!("expected an UnknownEventError"),
    }
}

#[test]
fn invalid_triggers_are_ignored_by_policy() {
    let mut machine = Machine::new(false, false, true, None, None, None, false, None, None, None);
    machine
        .add_states(vec![
            State::from_str("A"),
            State::from_str("B"),
            State::new(String::from("Strict"), None, None, Some(false)),
        ])
        .unwrap();
    machine.add_transition("go", &names(&["A"]), Some("B"), &vec![], &vec![], &vec![], &vec![], &vec![]).unwrap();
    let lenient = machine.add_model(Model::new(), Some("B")).unwrap();
    let strict = machine.add_model(Model::new(), Some("Strict")).unwrap();
    let mut host = Recorder::new();
    assert!(!machine.trigger(lenient, "go", &mut host).unwrap());
    assert!(!machine.trigger(lenient, "nothing", &mut host).unwrap());
    assert!(matches!(machine.trigger(strict, "go", &mut host), Err(Error::UnknownTriggerError(_, _))));
    assert!(matches!(machine.trigger(strict, "nothing", &mut host), Err(Error::UnknownEventError(_))));
}

#[test]
fn state_policy_can_ignore_where_the_machine_does_not() {
    let mut machine = plain(false, false);
    machine
        .add_states(vec![State::from_str("A"), State::new(String::from("Quiet"), None, None, Some(true))])
        .unwrap();
    machine.add_transition("go", &names(&["A"]), Some("Quiet"), &vec![], &vec![], &vec![], &vec![], &vec![]).unwrap();
    let model = machine.add_model(Model::new(), Some("Quiet")).unwrap();
    let mut host = Recorder::new();
    assert!(!machine.trigger(model, "go", &mut host).unwrap());
}

#[test]
fn wildcard_source_expands_to_every_state() {
    let mut machine = with_states(plain(false, false), &["A", "B", "C"]);
    machine.add_transition("reset", &names(&["*"]), Some("A"), &vec![], &vec![], &vec![], &vec![], &vec![]).unwrap();
    assert_eq!(arcs_of(&machine, "reset"), vec![arc("A", "A"), arc("B", "A"), arc("C", "A")]);
}

#[test]
fn reflexive_destination_keeps_each_source() {
    let mut machine = with_states(plain(false, false), &["A", "B"]);
    machine.add_transition("again", &names(&["A", "B"]), Some("="), &vec![], &vec![], &vec![], &vec![], &vec![]).unwrap();
    assert_eq!(arcs_of(&machine, "again"), vec![arc("A", "A"), arc("B", "B")]);
}

#[test]
fn reflexive_transition_runs_exit_and_enter() {
    let mut machine = plain(false, false);
    machine
        .add_states(vec![State::new(
            String::from("A"),
            Some(callbacks(&["enter_a"])),
            Some(callbacks(&["exit_a"])),
            None,
        )])
        .unwrap();
    machine.add_transition("again", &names(&["*"]), Some("="), &vec![], &vec![], &vec![], &vec![], &vec![]).unwrap();
    let model = machine.add_model(Model::new(), Some("A")).unwrap();
    let mut host = Recorder::new();
    assert!(machine.trigger(model, "again", &mut host).unwrap());
    assert_eq!(host.calls, vec!["exit_a@A", "enter_a@A"]);
}

#[test]
fn trigger_named_like_the_state_attribute_is_refused() {
    let mut machine = with_states(plain(false, false), &["A", "B"]);
    let refused = machine.add_transition("state", &names(&["A"]), Some("B"), &vec![], &vec![], &vec![], &vec![], &vec![]);
    match refused {
        Err(Error::TriggerNameError(name)) => assert_eq!(name, "state"),
        _ => panic!("expected a TriggerNameError"),
    }
    let mut machine = Machine::new(false, false, false, None, None, None, false, None, None, Some(String::from("phase")));
    machine.add_states(vec![State::from_str("A"), State::from_str("B")]).unwrap();
    assert!(machine.add_transition("state", &names(&["A"]), Some("B"), &vec![], &vec![], &vec![], &vec![], &vec![]).is_ok());
    assert!(matches!(
        machine.add_transition("phase", &names(&["A"]), Some("B"), &vec![], &vec![], &vec![], &vec![], &vec![]),
        Err(Error::TriggerNameError(_))
    ));
}

#[test]
fn jump_named_like_the_state_attribute_is_refused() {
    let mut machine = Machine::new(false, true, false, None, None, None, false, None, None, Some(String::from("to_B")));
    machine.add_state(State::from_str("A")).unwrap();
    let refused = machine.add_states(vec![State::from_str("C"), State::from_str("B")]);
    match refused {
        Err(Error::TriggerNameError(name)) => assert_eq!(name, "to_B"),
        _ => panic!("expected a TriggerNameError"),
    }
    assert_eq!(machine.state_count(), 1);
}

#[test]
fn transitions_between_unknown_states_are_refused() {
    let mut machine = with_states(plain(false, false), &["A", "B"]);
    match machine.add_transition("go", &names(&["A", "X", "Y"]), Some("B"), &vec![], &vec![], &vec![], &vec![], &vec![]) {
        Err(Error::UnknownStateError(name)) => assert_eq!(name, "X"),
        _ => panic!("expected an UnknownStateError"),
    }
    match machine.add_transition("go", &names(&["A"]), Some("Z"), &vec![], &vec![], &vec![], &vec![], &vec![]) {
        Err(Error::UnknownStateError(name)) => assert_eq!(name, "Z"),
        _ => panic!("expected an UnknownStateError"),
    }
    assert!(machine.get_transitions(None, None, None).is_empty());
    assert!(matches!(machine.get_state("Z"), Err(Error::RegisteredStateError(_))));
    assert_eq!(machine.get_state("A").unwrap().value(), "A");
}

#[test]
fn has_state_reports_or_raises() {
    let machine = with_states(plain(false, false), &["A"]);
    assert!(machine._has_state(&State::from_str("A"), true).unwrap());
    assert!(!machine._has_state(&State::from_str("B"), false).unwrap());
    match machine._has_state(&State::from_str("B"), true) {
        Err(Error::UnknownStateError(name)) => assert_eq!(name, "B"),
        _ => panic!("expected an UnknownStateError"),
    }
}

#[test]
fn models_are_bound_in_their_first_state() {
    let mut machine = with_states(plain(false, false), &["A", "B"]);
    assert!(matches!(machine.add_model(Model::new(), None), Err(Error::InitialStateError)));
    assert!(matches!(machine.add_model(Model::new(), Some("Z")), Err(Error::RegisteredStateError(_))));
    machine.set_initial("B").unwrap();
    let first = machine.add_model(Model::new(), None).unwrap();
    let second = machine.add_model(Model::new(), Some("A")).unwrap();
    assert_eq!((first, second), (0, 1));
    assert!(machine.is_state("B", first));
    assert!(!machine.is_state("A", first));
    assert!(machine.is_state("A", second));
    assert_eq!(machine.model_count(), 2);
}

#[test]
fn set_state_moves_one_model_or_all() {
    let mut machine = with_states(plain(false, false), &["A", "B", "C"]);
    let first = machine.add_model(Model::new(), Some("A")).unwrap();
    let second = machine.add_model(Model::new(), Some("A")).unwrap();
    machine.set_state("B", Some(second)).unwrap();
    assert_eq!(state_of(&machine, first), "A");
    assert_eq!(state_of(&machine, second), "B");
    machine.set_state("C", None).unwrap();
    assert_eq!(state_of(&machine, first), "C");
    assert_eq!(state_of(&machine, second), "C");
    assert!(matches!(machine.set_state("Z", None), Err(Error::RegisteredStateError(_))));
    assert_eq!(state_of(&machine, first), "C");
}

#[test]
fn dispatch_triggers_every_model() {
    let mut machine = with_states(plain(false, false), &["A", "B"]);
    machine.add_transition("go", &names(&["A"]), Some("B"), &vec![], &vec![], &vec![], &vec![], &vec![]).unwrap();
    machine.add_transition("go", &names(&["B"]), None, &predicates(&["no"]), &vec![], &vec![], &vec![], &vec![]).unwrap();
    let first = machine.add_model(Model::new(), Some("A")).unwrap();
    let second = machine.add_model(Model::new(), Some("A")).unwrap();
    let mut host = Recorder::new().answer("no", false);
    assert!(machine.dispatch("go", &mut host).unwrap());
    assert_eq!(state_of(&machine, first), "B");
    assert_eq!(state_of(&machine, second), "B");
    assert!(!machine.dispatch("go", &mut host).unwrap());
}

#[test]
fn model_attribute_names_the_state_attribute() {
    let mut machine = Machine::new(false, false, false, None, None, None, false, None, None, Some(String::from("phase")));
    machine.add_states(vec![State::from_str("A"), State::from_str("B")]).unwrap();
    machine.add_transition("go", &names(&["A"]), Some("B"), &vec![], &vec![], &vec![], &vec![], &vec![]).unwrap();
    let mut model = Model::new();
    model.set(&String::from("state"), String::from("untouched"));
    let index = machine.add_model(model, Some("A")).unwrap();
    let mut host = Recorder::new();
    assert!(machine.trigger(index, "go", &mut host).unwrap());
    let model = machine.remove_model(index);
    assert_eq!(getattr(&model, "phase"), Some(String::from("B")));
    assert_eq!(getattr(&model, "state"), Some(String::from("untouched")));
    assert_eq!(getattr(&model, "missing"), None);
    assert_eq!(machine.model_attribute(), "phase");
}

#[test]
fn get_transitions_filters_by_source_and_destination() {
    let mut machine = with_states(plain(false, false), &["A", "B", "C"]);
    machine.add_transition("go", &names(&["A", "B"]), Some("C"), &vec![], &vec![], &vec![], &vec![], &vec![]).unwrap();
    machine.add_transition("back", &names(&["C"]), Some("A"), &vec![], &vec![], &vec![], &vec![], &vec![]).unwrap();
    machine.add_transition("stay", &names(&["A"]), None, &vec![], &vec![], &vec![], &vec![], &vec![]).unwrap();
    let pairs = |list: Vec<Transition>| -> Vec<(String, Option<String>)> {
        list.iter().map(|t| (t.source().clone(), t.dest().clone())).collect()
    };
    assert_eq!(
        pairs(machine.get_transitions(None, None, None)),
        vec![arc("A", "C"), arc("B", "C"), arc("C", "A"), (String::from("A"), None)]
    );
    assert_eq!(pairs(machine.get_transitions(Some(""), Some("*"), Some("*"))).len(), 4);
    assert_eq!(pairs(machine.get_transitions(Some("go"), Some("B"), None)), vec![arc("B", "C")]);
    assert_eq!(pairs(machine.get_transitions(None, Some("A"), None)), vec![arc("A", "C"), (String::from("A"), None)]);
    assert_eq!(pairs(machine.get_transitions(None, None, Some("C"))), vec![arc("A", "C"), arc("B", "C")]);
    assert!(machine.get_transitions(Some("nothing"), None, None).is_empty());
    assert_eq!(machine.get_triggers(&names(&["C"])), vec!["back"]);
    assert_eq!(machine.get_triggers(&names(&["B", "A"])), vec!["go", "stay"]);
}

#[test]
fn remove_transition_drops_matching_transitions() {
    let mut machine = with_states(plain(false, false), &["A", "B", "C"]);
    machine.add_transition("go", &names(&["A", "B"]), Some("C"), &vec![], &vec![], &vec![], &vec![], &vec![]).unwrap();
    machine.add_transition("go", &names(&["A"]), Some("B"), &vec![], &vec![], &vec![], &vec![], &vec![]).unwrap();
    machine.remove_transition("go", Some("A"), Some("C")).unwrap();
    assert_eq!(arcs_of(&machine, "go"), vec![arc("A", "B"), arc("B", "C")]);
    machine.remove_transition("go", Some("B"), None).unwrap();
    assert_eq!(arcs_of(&machine, "go"), vec![arc("A", "B")]);
    machine.remove_transition("go", None, None).unwrap();
    assert!(machine.get_triggers(&names(&["A", "B", "C"])).is_empty());
    assert!(matches!(machine.remove_transition("go", None, None), Err(Error::UnknownEventError(_))));
}

#[test]
fn add_transitions_registers_each_in_order() {
    let mut machine = with_states(plain(false, false), &["A", "B"]);
    let list = vec![
        TransitionParameters::new(String::from("go"), names(&["A"]), Some(String::from("B")), vec![], vec![], vec![], vec![], vec![]),
        TransitionParameters::new(String::from("back"), names(&["B"]), Some(String::from("A")), vec![], vec![], vec![], vec![], vec![]),
    ];
    machine.add_transitions(&list).unwrap();
    assert_eq!(arcs_of(&machine, "go"), vec![arc("A", "B")]);
    assert_eq!(arcs_of(&machine, "back"), vec![arc("B", "A")]);
    let bad = vec![
        TransitionParameters::new(String::from("more"), names(&["A"]), Some(String::from("B")), vec![], vec![], vec![], vec![], vec![]),
        TransitionParameters::new(String::from("worse"), names(&["A"]), Some(String::from("Z")), vec![], vec![], vec![], vec![], vec![]),
    ];
    assert!(matches!(machine.add_transitions(&bad), Err(Error::UnknownStateError(_))));
    assert!(machine.get_transitions(Some("more"), None, None).is_empty());
}

#[test]
fn state_callbacks_are_added_by_kind() {
    let mut state = State::new(String::from("A"), Some(callbacks(&["e1"])), None, None);
    let enter = StateTrigger::from_func_and_type_name(StateTriggerType::Enter, TriggerFunction::new(String::from("e2"))).unwrap();
    let exit = StateTrigger::from_func_and_type_name(StateTriggerType::Exit, TriggerFunction::new(String::from("x1"))).unwrap();
    assert_eq!(enter.callback().name(), "e2");
    state.add_callback(enter);
    state.add_callback(exit);
    let machine = plain(false, false);
    let mut data = EventData::new(String::from("A"), String::from("go"), &machine, Model::new());
    let mut host = Recorder::new();
    state.enter(&machine, &mut host, &mut data).unwrap();
    state.exit(&machine, &mut host, &mut data).unwrap();
    assert_eq!(host.calls, vec!["e1@A", "e2@A", "x1@A"]);
    assert_eq!(state.value(), "A");
    assert_eq!(state.name(), "A");
}

#[test]
fn transition_callbacks_are_appended_at_the_end() {
    let mut transition = Transition::new(
        String::from("A"),
        None,
        PotentialConditions::new(&predicates(&[]), true),
        PotentialConditions::new(&predicates(&[]), false),
        PotentialTriggers::new(callbacks(&["b1"])),
        PotentialTriggers::new(callbacks(&[])),
        PotentialTriggers::new(callbacks(&[])),
    );
    transition.add_callback(TransitionTriggerType::Before, TriggerFunction::new(String::from("b2")));
    transition.add_callback(TransitionTriggerType::After, TriggerFunction::new(String::from("a1")));
    transition.add_callback(TransitionTriggerType::Prepare, TriggerFunction::new(String::from("pre")));
    transition.add_callback(TransitionTriggerType::Before, TriggerFunction::new(String::from("b3")));
    let machine = with_states(plain(false, false), &["A"]);
    let mut data = EventData::new(String::from("A"), String::from("go"), &machine, Model::new());
    let mut host = Recorder::new();
    assert!(transition.execute(&machine, &mut host, &mut data).unwrap());
    assert_eq!(host.calls, vec!["pre@A", "b1@A", "b2@A", "b3@A", "a1@A"]);
}

#[test]
fn event_callbacks_reach_every_transition() {
    let mut event = Event::new(String::from("go"));
    let blank = |source: &str, dest: &str| {
        Transition::new(
            source.to_string(),
            Some(dest.to_string()),
            PotentialConditions::new(&predicates(&[]), true),
            PotentialConditions::new(&predicates(&[]), false),
            PotentialTriggers::new(callbacks(&[])),
            PotentialTriggers::new(callbacks(&[])),
            PotentialTriggers::new(callbacks(&[])),
        )
    };
    event.add_transition(blank("A", "B"));
    event.add_transition(blank("B", "A"));
    event.add_transition(blank("A", "A"));
    event.add_callback(TransitionTriggerType::After, TriggerFunction::new(String::from("done")));
    let listed: Vec<(String, Option<String>)> =
        event.get_transitions().iter().map(|t| (t.source().clone(), t.dest().clone())).collect();
    assert_eq!(listed, vec![arc("A", "B"), arc("A", "A"), arc("B", "A")]);
    assert!(event.has_source(&String::from("A")));
    assert!(!event.has_source(&String::from("C")));
    let machine = with_states(plain(false, false), &["A", "B"]);
    let mut model = Model::new();
    model.set(&String::from("state"), String::from("B"));
    let mut host = Recorder::new();
    let (fired, data) = event.machine_trigger(&machine, model, &mut host);
    assert!(fired.unwrap());
    assert_eq!(host.calls, vec!["done@A"]);
    assert!(data.result());
    assert_eq!(data.state(), "A");
    assert_eq!(data.event(), "go");
    assert_eq!(data.source().unwrap(), "B");
    assert_eq!(data.dest().unwrap(), "A");
    assert!(data.error().is_none());
    let pending: Pending = event.trigger(3);
    assert_eq!(pending.model(), 3);
    assert_eq!(pending.event(), "go");
}

#[test]
fn event_data_keeps_the_failure() {
    let mut event = Event::new(String::from("go"));
    event.add_transition(Transition::new(
        String::from("A"),
        Some(String::from("B")),
        PotentialConditions::new(&predicates(&[]), true),
        PotentialConditions::new(&predicates(&[]), false),
        PotentialTriggers::new(callbacks(&["boom"])),
        PotentialTriggers::new(callbacks(&[])),
        PotentialTriggers::new(callbacks(&[])),
    ));
    let machine = with_states(plain(false, false), &["A", "B"]);
    let mut model = Model::new();
    model.set(&String::from("state"), String::from("A"));
    let mut host = Recorder::new().fail("boom");
    let (fired, data) = event.machine_trigger(&machine, model, &mut host);
    assert!(fired.is_err());
    assert!(!data.result());
    assert!(matches!(data.error(), Some(Error::MachineAttributeError(_, _))));
    assert_eq!(data.state(), "A");
}

#[test]
fn registering_a_state_again_replaces_it_in_place() {
    let mut machine = with_states(plain(false, false), &["A", "B"]);
    machine.add_state(State::new(String::from("A"), Some(callbacks(&["hello"])), None, Some(true))).unwrap();
    assert_eq!(machine.state_count(), 2);
    assert_eq!(machine.get_state("A").unwrap().ignore_invalid_triggers(), Some(true));
    machine.add_ordered_transitions(None, None, false, true, None, None, None, None, None).unwrap();
    assert_eq!(arcs_of(&machine, "next_state"), vec![arc("A", "B")]);
}

#[test]
fn machine_keeps_its_configuration() {
    let machine = Machine::new(true, true, true, None, None, Some(String::from("m")), true, None, None, None);
    assert!(machine.send_event());
    assert!(machine.auto_transitions());
    assert!(machine.has_queue());
    assert_eq!(machine.model_attribute(), "state");
    assert_eq!(machine.name, "m: ");
    assert!(machine.initial().is_none());
    assert!(machine.before_state_change.is_empty());
    let machine = plain(false, false);
    assert_eq!(machine.name, "");
    assert!(!machine.has_queue());
}

#[test]
fn a_waiting_trigger_blocks_synchronous_processing() {
    let mut machine = with_states(plain(true, false), &["A", "B"]);
    machine.add_transition("go", &names(&["A"]), Some("B"), &vec![], &vec![], &vec![], &vec![], &vec![]).unwrap();
    let model = machine.add_model(Model::new(), Some("A")).unwrap();
    let mut host = Recorder::new();
    assert!(machine._process(Pending::new(model, String::from("go")), &mut host).unwrap());
    assert_eq!(state_of(&machine, model), "B");
    match machine._process(Pending::new(model, String::from("gone")), &mut host) {
        Err(Error::UnknownEventError(name)) => assert_eq!(name, "gone"),
        _ => panic!("expected an UnknownEventError"),
    }
}

/// A host that notes, at every call, what the event data shows: the state,
/// the model's own state attribute, the transition being attempted, the
/// result so far, and whether a failure is on record.
struct Witness {
    seen: Vec<String>,
    declines: Vec<String>,
    fails: Vec<String>,
}

impl Witness {
    fn new(declines: &[&str], fails: &[&str]) -> Self {
        Witness { seen: Vec::new(), declines: names(declines), fails: names(fails) }
    }

    fn note(&mut self, identifier: &str, event_data: &EventData) {
        let attribute = String::from("state");
        let held = event_data.model().get(&attribute).cloned().unwrap_or_default();
        let source = event_data.source().cloned().unwrap_or_default();
        let dest = event_data.dest().cloned().unwrap_or_default();
        self.seen.push(format!(
            "{} {} {} {}>{} {} {}",
            identifier,
            event_data.state(),
            held,
            source,
            dest,
            event_data.result(),
            event_data.error().is_some()
        ));
    }
}

impl Host for Witness {
    fn resolves(&self, _identifier: &str, _event_data: &EventData) -> bool {
        true
    }

    fn invoke(&mut self, identifier: &str, event_data: &EventData) -> Result<Vec<String>, Error> {
        self.note(identifier, event_data);
        if self.fails.iter().any(|f| f == identifier) {
            return Err(Error::MachineAttributeError(identifier.to_string(), String::from("host")));
        }
        Ok(Vec::new())
    }

    fn test(&mut self, identifier: &str, event_data: &EventData) -> Result<bool, Error> {
        self.note(identifier, event_data);
        Ok(!self.declines.iter().any(|d| d == identifier))
    }
}

fn watched() -> (Machine, usize) {
    let mut machine = Machine::new(
        false,
        false,
        false,
        None,
        None,
        None,
        false,
        None,
        Some(TriggerFunction::new(String::from("fin"))),
        None,
    );
    machine
        .add_states(vec![
            State::new(String::from("A"), None, Some(callbacks(&["leave"])), None),
            State::new(String::from("B"), Some(callbacks(&["arrive"])), None, None),
            State::new(String::from("C"), None, None, None),
        ])
        .unwrap();
    machine
        .add_transition("go", &names(&["A"]), Some("C"), &predicates(&["first"]), &vec![], &vec![], &vec![], &vec![])
        .unwrap();
    machine
        .add_transition("go", &names(&["A"]), Some("B"), &vec![], &vec![], &callbacks(&["before"]), &callbacks(&["after"]), &vec![])
        .unwrap();
    let model = machine.add_model(Model::new(), Some("A")).unwrap();
    (machine, model)
}

#[test]
fn the_host_is_shown_each_attempt_and_the_move() {
    let (mut machine, model) = watched();
    let mut host = Witness::new(&["first"], &[]);
    assert!(machine.trigger(model, "go", &mut host).unwrap());
    assert_eq!(
        host.seen,
        vec![
            "first A A A>C false false",
            "before A A A>B false false",
            "leave A A A>B false false",
            "arrive B B A>B false false",
            "after B B A>B false false",
            "fin B B A>B true false",
        ]
    );
}

#[test]
fn the_host_is_shown_the_failure_while_finalizing() {
    let (mut machine, model) = watched();
    let mut host = Witness::new(&["first"], &["leave"]);
    assert!(machine.trigger(model, "go", &mut host).is_err());
    assert_eq!(
        host.seen,
        vec![
            "first A A A>C false false",
            "before A A A>B false false",
            "leave A A A>B false false",
            "fin A A A>B false true",
        ]
    );
    assert_eq!(state_of(&machine, model), "A");
}

#[test]
fn a_jump_to_a_state_written_like_the_wildcard_leads_back() {
    let machine = with_states(plain(false, true), &["A", "="]);
    assert_eq!(arcs_of(&machine, "to_A"), vec![arc("A", "A"), arc("=", "A")]);
    assert_eq!(arcs_of(&machine, "to_="), vec![arc("A", "A"), arc("=", "=")]);
}
