use actinium_actor::spawner::SpawnShared;
use actinium_actor::{Actor, ActorId, Context, Handler, Message};

#[test]
fn actor_id_uniqueness() {
    let mut shared: SpawnShared<()> = SpawnShared::new(1);
    let ids: Vec<ActorId> = (0..100).map(|_| shared.allocate_id()).collect();
    let mut dedup = ids.clone();
    dedup.sort_by_key(|id| id.0);
    dedup.dedup();
    assert_eq!(ids.len(), dedup.len());
}

#[test]
fn actor_id_display() {
    let id = ActorId::from_raw(42);
    assert_eq!(id.to_string(), "actor-42");
}

#[test]
fn actor_id_eq() {
    assert_eq!(ActorId::from_raw(1), ActorId::from_raw(1));
    assert_ne!(ActorId::from_raw(1), ActorId::from_raw(2));
}

struct TestActor;
impl Actor for TestActor {}
impl Handler<TestMessage> for TestActor {
    fn handle(&mut self, msg: TestMessage, _ctx: &mut Context) -> String {
        msg.0
    }
}

struct TestMessage(String);
impl Message for TestMessage {
    type Result = String;
}

#[test]
fn handler_sends_result() {
    let mut actor = TestActor;
    let result = actor.handle(TestMessage("hello".into()), &mut Context::dummy());
    assert_eq!(result, "hello");
}

#[test]
fn actor_id_display_small_and_large() {
    assert_eq!(ActorId::from_raw(0).to_string(), "actor-0");
    assert_eq!(ActorId::from_raw(7).to_string(), "actor-7");
    assert_eq!(ActorId::from_raw(10).to_string(), "actor-10");
    assert_eq!(
        ActorId::from_raw(u64::MAX).to_string(),
        "actor-18446744073709551615"
    );
}

#[test]
fn from_raw_round_trips() {
    assert_eq!(ActorId::from_raw(99).raw(), 99);
}

#[test]
fn context_stop_clears_running() {
    let mut ctx = Context::new(ActorId::from_raw(5));
    assert_eq!(ctx.id(), ActorId::from_raw(5));
    assert!(ctx.is_running());
    assert_eq!(ctx.runtime(), None);
    ctx.stop();
    assert!(!ctx.is_running());
    assert_eq!(ctx.id(), ActorId::from_raw(5));
}

#[test]
fn context_with_runtime_remembers_worker() {
    let ctx = Context::with_runtime(ActorId::from_raw(3), 11, 2);
    assert_eq!(ctx.runtime(), Some(11));
    assert_eq!(ctx.worker_idx(), 2);
    assert!(ctx.is_running());
}

#[test]
fn child_context_stays_on_parent_worker() {
    let parent = Context::with_runtime(ActorId::from_raw(3), 11, 2);
    let child = parent.child_context(ActorId::from_raw(9));
    assert_eq!(child.id(), ActorId::from_raw(9));
    assert!(child.is_running());
    assert_eq!(child.runtime(), Some(11));
    assert_eq!(child.worker_idx(), 2);
}
