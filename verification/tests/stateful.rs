use std::sync::{Arc, Mutex};

use actinium_actor::stateful::{StateHandler, StateMachine};
use actinium_actor::{Actor, Context, Handler, Message};

#[derive(Debug, Clone, PartialEq, Eq)]
enum TestState {
    Init,
    Process,
    Validate,
}

struct TestActor {
    log: Vec<String>,
}

impl Actor for TestActor {}

struct TestMsg {
    text: String,
}

impl Message for TestMsg {
    type Result = String;
}

impl StateHandler<TestMsg, TestState> for TestActor {
    fn initial_state() -> TestState {
        TestState::Init
    }

    fn state_sequence() -> Vec<TestState> {
        vec![TestState::Init, TestState::Process, TestState::Validate]
    }

    fn handle_in_state(
        &mut self,
        idx: usize,
        state: &TestState,
        msg: TestMsg,
        _ctx: &mut Context,
    ) -> String {
        let entry = format!("{:?}({}): {}", state, idx, msg.text);
        self.log.push(entry.clone());
        entry
    }
}

#[test]
fn starts_at_initial_state() {
    let actor = TestActor { log: vec![] };
    let sm = StateMachine::<TestActor, TestMsg, TestState>::new(actor);
    assert_eq!(sm.current_index(), 0);
    assert_eq!(*sm.current_state(), TestState::Init);
}

#[test]
fn cycles_through_states() {
    let actor = TestActor { log: vec![] };
    let mut sm = StateMachine::<TestActor, TestMsg, TestState>::new(actor);

    // Init state
    assert_eq!(sm.current_state(), &TestState::Init);
    let result = sm.handle(TestMsg { text: "first".into() }, &mut Context::dummy());
    assert_eq!(result, "Init(0): first");

    // Should now be in Process state
    assert_eq!(sm.current_state(), &TestState::Process);
    let result = sm.handle(TestMsg { text: "second".into() }, &mut Context::dummy());
    assert_eq!(result, "Process(1): second");

    // Should now be in Validate state
    assert_eq!(sm.current_state(), &TestState::Validate);
    let result = sm.handle(TestMsg { text: "third".into() }, &mut Context::dummy());
    assert_eq!(result, "Validate(2): third");

    // Should cycle back to Init
    assert_eq!(sm.current_state(), &TestState::Init);
}

#[test]
fn cycles_multiple_times() {
    let actor = TestActor { log: vec![] };
    let mut sm = StateMachine::<TestActor, TestMsg, TestState>::new(actor);

    // Process 6 messages (2 complete cycles of 3 states)
    for i in 0..6 {
        sm.handle(TestMsg { text: format!("msg{}", i) }, &mut Context::dummy());
    }

    // After 6 messages: 6 % 3 = 0 → back to Init
    assert_eq!(sm.current_index(), 0);
    assert_eq!(*sm.current_state(), TestState::Init);
}

#[test]
fn log_records_all_transitions() {
    let actor = TestActor { log: vec![] };
    let mut sm = StateMachine::<TestActor, TestMsg, TestState>::new(actor);

    sm.handle(TestMsg { text: "a".into() }, &mut Context::dummy());
    sm.handle(TestMsg { text: "b".into() }, &mut Context::dummy());
    sm.handle(TestMsg { text: "c".into() }, &mut Context::dummy());

    let log = &sm.inner().log;
    assert_eq!(log.len(), 3);
    assert_eq!(log[0], "Init(0): a");
    assert_eq!(log[1], "Process(1): b");
    assert_eq!(log[2], "Validate(2): c");
}

struct LifecycleActor {
    started: Arc<Mutex<bool>>,
    stopped: Arc<Mutex<bool>>,
}

impl Actor for LifecycleActor {
    fn started(&mut self, _ctx: &mut Context) {
        *self.started.lock().unwrap() = true;
    }
    fn stopped(&mut self, _ctx: &mut Context) {
        *self.stopped.lock().unwrap() = true;
    }
}

#[derive(Clone, PartialEq)]
enum S {
    A,
}

struct M;
impl Message for M {
    type Result = ();
}

impl StateHandler<M, S> for LifecycleActor {
    fn initial_state() -> S {
        S::A
    }
    fn state_sequence() -> Vec<S> {
        vec![S::A]
    }
    fn handle_in_state(&mut self, _: usize, _: &S, _: M, _: &mut Context) {}
}

#[test]
fn lifecycle_hooks_delegated() {
    let started = Arc::new(Mutex::new(false));
    let stopped = Arc::new(Mutex::new(false));

    let mut sm = StateMachine::<LifecycleActor, M, S>::new(LifecycleActor {
        started: started.clone(),
        stopped: stopped.clone(),
    });

    sm.started(&mut Context::dummy());
    assert!(*started.lock().unwrap());

    sm.stopped(&mut Context::dummy());
    assert!(*stopped.lock().unwrap());
}

#[test]
fn into_inner_returns_actor() {
    let actor = TestActor { log: vec![] };
    let sm = StateMachine::<TestActor, TestMsg, TestState>::new(actor);
    let inner = sm.into_inner();
    assert!(inner.log.is_empty());
}

struct EmptyActor;
impl Actor for EmptyActor {}

impl StateHandler<M, S> for EmptyActor {
    fn initial_state() -> S {
        S::A
    }
    fn state_sequence() -> Vec<S> {
        vec![]
    }
    fn handle_in_state(&mut self, _: usize, _: &S, _: M, _: &mut Context) {}
}

#[test]
fn empty_state_sequence_gives_no_machine() {
    assert!(StateMachine::<EmptyActor, M, S>::with_states(EmptyActor, EmptyActor::state_sequence())
        .is_none());
}

/// An actor whose initial state is not the first of its sequence.
struct LateStart;
impl Actor for LateStart {}

impl StateHandler<TestMsg, TestState> for LateStart {
    fn initial_state() -> TestState {
        TestState::Process
    }
    fn state_sequence() -> Vec<TestState> {
        vec![TestState::Init, TestState::Process, TestState::Validate, TestState::Process]
    }
    fn handle_in_state(&mut self, idx: usize, state: &TestState, msg: TestMsg, _: &mut Context) -> String {
        format!("{:?}({}): {}", state, idx, msg.text)
    }
}

#[test]
fn starts_at_first_position_of_initial_state() {
    let mut sm = StateMachine::<LateStart, TestMsg, TestState>::new(LateStart);
    assert_eq!(sm.current_index(), 1);
    assert_eq!(*sm.current_state(), TestState::Process);
    let r = sm.handle(TestMsg { text: "x".into() }, &mut Context::dummy());
    assert_eq!(r, "Process(1): x");
    assert_eq!(*sm.current_state(), TestState::Validate);
}

/// An actor whose initial state is missing from its sequence.
struct MissingStart;
impl Actor for MissingStart {}

impl StateHandler<TestMsg, TestState> for MissingStart {
    fn initial_state() -> TestState {
        TestState::Validate
    }
    fn state_sequence() -> Vec<TestState> {
        vec![TestState::Process, TestState::Init]
    }
    fn handle_in_state(&mut self, _: usize, _: &TestState, _: TestMsg, _: &mut Context) -> String {
        String::new()
    }
}

#[test]
fn missing_initial_state_starts_at_first() {
    let sm = StateMachine::<MissingStart, TestMsg, TestState>::new(MissingStart);
    assert_eq!(sm.current_index(), 0);
    assert_eq!(*sm.current_state(), TestState::Process);
}

#[test]
fn with_states_uses_given_sequence() {
    let sm = StateMachine::<TestActor, TestMsg, TestState>::with_states(
        TestActor { log: vec![] },
        vec![TestState::Validate, TestState::Init],
    )
    .unwrap();
    assert_eq!(*sm.current_state(), TestState::Validate);
}

#[test]
fn inner_mut_changes_inner_only() {
    let mut sm = StateMachine::<TestActor, TestMsg, TestState>::new(TestActor { log: vec![] });
    sm.handle(TestMsg { text: "x".into() }, &mut Context::dummy());
    sm.inner_mut().log.clear();
    assert!(sm.inner().log.is_empty());
    assert_eq!(sm.current_index(), 1);
}

#[test]
fn full_cycle_returns_to_same_state() {
    let mut sm = StateMachine::<TestActor, TestMsg, TestState>::new(TestActor { log: vec![] });
    sm.handle(TestMsg { text: "a".into() }, &mut Context::dummy());
    let start = sm.current_index();
    for _ in 0..3 {
        sm.handle(TestMsg { text: "b".into() }, &mut Context::dummy());
    }
    assert_eq!(sm.current_index(), start);
}
