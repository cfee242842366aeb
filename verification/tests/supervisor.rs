use std::sync::atomic::{AtomicU64, Ordering};
use std::sync::{Arc, Mutex};

use actinium_actor::supervisor::{Strategy, Supervisor};
use actinium_actor::{ActorId, Context};

/// A factory that hands out a fresh id on every call, as spawning would.
fn counting_factory(
    next: Arc<AtomicU64>,
) -> impl Fn(&mut Context) -> ActorId + Send + 'static {
    move |_ctx: &mut Context| ActorId::from_raw(next.fetch_add(1, Ordering::SeqCst))
}

#[test]
fn supervisor_registers_and_starts_children() {
    let mut sup = Supervisor::new(Strategy::OneForOne, 3);
    sup.register_child(|_ctx: &mut Context| ActorId::from_raw(100));
    sup.register_child(|_ctx: &mut Context| ActorId::from_raw(200));

    let mut ctx = Context::dummy();
    sup.start_all(&mut ctx);
    let children = sup.children().to_vec();
    assert_eq!(children.len(), 2);
    assert_eq!(children, vec![ActorId::from_raw(100), ActorId::from_raw(200)]);
}

#[test]
fn one_for_one_restarts_failed_child() {
    let spawned = Arc::new(Mutex::new(Vec::new()));
    let mut sup = Supervisor::new(Strategy::OneForOne, 3);
    let log = spawned.clone();
    sup.register_child(move |_ctx: &mut Context| {
        log.lock().unwrap().push(42usize);
        ActorId::from_raw(7)
    });

    let mut ctx = Context::dummy();
    sup.start_all(&mut ctx);

    // The child was started
    assert_eq!(spawned.lock().unwrap().len(), 1);
}

#[test]
fn one_for_one_restart_within_limit() {
    let next = Arc::new(AtomicU64::new(1));
    let mut sup = Supervisor::new(Strategy::OneForOne, 3);
    sup.register_child(counting_factory(next));

    let mut ctx = Context::dummy();
    sup.start_all(&mut ctx);

    // Get the actual child ID
    let children = sup.children().to_vec();
    assert_eq!(children.len(), 1);
    let child_id = children[0];

    // Fail the child — should restart
    let restarted = sup.handle_failure(child_id, &mut ctx);
    assert_eq!(restarted.len(), 1);
    assert_ne!(restarted[0], child_id); // new ID after restart
}

#[test]
fn one_for_one_stops_after_max_restarts() {
    let next = Arc::new(AtomicU64::new(1));
    let mut sup = Supervisor::new(Strategy::OneForOne, 2);
    sup.register_child(counting_factory(next));

    let mut ctx = Context::dummy();
    sup.start_all(&mut ctx);

    let children = sup.children().to_vec();
    let child_id = children[0];

    // First failure — restart
    let result = sup.handle_failure(child_id, &mut ctx);
    assert_eq!(result.len(), 1);
    let new_id = result[0];

    // Second failure — restart again
    let result = sup.handle_failure(new_id, &mut ctx);
    assert_eq!(result.len(), 1);

    // Third failure — should stop (max_restarts = 2)
    let result = sup.handle_failure(result[0], &mut ctx);
    assert!(result.is_empty());
    assert!(sup.children().is_empty());
}

#[test]
fn one_for_one_leaves_other_children_alone() {
    let next = Arc::new(AtomicU64::new(10));
    let mut sup = Supervisor::new(Strategy::OneForOne, 1);
    sup.register_child(counting_factory(next.clone()));
    sup.register_child(counting_factory(next.clone()));
    sup.register_child(counting_factory(next));
    let mut ctx = Context::dummy();
    sup.start_all(&mut ctx);
    assert_eq!(
        sup.children().to_vec(),
        vec![ActorId::from_raw(10), ActorId::from_raw(11), ActorId::from_raw(12)]
    );
    let restarted = sup.handle_failure(ActorId::from_raw(11), &mut ctx);
    assert_eq!(restarted, vec![ActorId::from_raw(13)]);
    assert_eq!(
        sup.children().to_vec(),
        vec![ActorId::from_raw(10), ActorId::from_raw(13), ActorId::from_raw(12)]
    );
}

#[test]
fn failure_of_unknown_child_restarts_nothing() {
    let next = Arc::new(AtomicU64::new(1));
    let mut sup = Supervisor::new(Strategy::OneForOne, 3);
    sup.register_child(counting_factory(next));
    let mut ctx = Context::dummy();
    sup.start_all(&mut ctx);
    let before = sup.children().to_vec();
    assert!(sup.handle_failure(ActorId::from_raw(999), &mut ctx).is_empty());
    assert_eq!(sup.children().to_vec(), before);
}

#[test]
fn all_for_one_restarts_every_child() {
    let next = Arc::new(AtomicU64::new(1));
    let mut sup = Supervisor::new(Strategy::AllForOne, 1);
    sup.register_child(counting_factory(next.clone()));
    sup.register_child(counting_factory(next));
    let mut ctx = Context::dummy();
    sup.start_all(&mut ctx);
    assert_eq!(
        sup.children().to_vec(),
        vec![ActorId::from_raw(1), ActorId::from_raw(2)]
    );
    let restarted = sup.handle_failure(ActorId::from_raw(2), &mut ctx);
    assert_eq!(restarted, vec![ActorId::from_raw(3), ActorId::from_raw(4)]);
    assert_eq!(sup.children().to_vec(), restarted);
    // Each restarted child has used its one restart, so the next failure
    // gives the failed child up.
    let again = sup.handle_failure(ActorId::from_raw(3), &mut ctx);
    assert!(again.is_empty());
    assert_eq!(sup.children().to_vec(), vec![ActorId::from_raw(4)]);
}

#[test]
fn all_for_one_counts_group_restarts() {
    let next = Arc::new(AtomicU64::new(1));
    let mut sup = Supervisor::new(Strategy::AllForOne, 2);
    sup.register_child(counting_factory(next.clone()));
    sup.register_child(counting_factory(next));
    let mut ctx = Context::dummy();
    sup.start_all(&mut ctx);
    let first = sup.handle_failure(ActorId::from_raw(1), &mut ctx);
    assert_eq!(first, vec![ActorId::from_raw(3), ActorId::from_raw(4)]);
    let second = sup.handle_failure(ActorId::from_raw(4), &mut ctx);
    assert_eq!(second, vec![ActorId::from_raw(5), ActorId::from_raw(6)]);
    assert!(sup.handle_failure(ActorId::from_raw(5), &mut ctx).is_empty());
    assert_eq!(sup.children().to_vec(), vec![ActorId::from_raw(6)]);
}

#[test]
fn all_for_one_single_child_limit() {
    let mut sup = Supervisor::new(Strategy::AllForOne, 1);
    sup.register_child(|_ctx: &mut Context| ActorId::from_raw(7));
    let mut ctx = Context::dummy();
    sup.start_all(&mut ctx);
    assert_eq!(
        sup.handle_failure(ActorId::from_raw(7), &mut ctx),
        vec![ActorId::from_raw(7)]
    );
    assert!(sup.handle_failure(ActorId::from_raw(7), &mut ctx).is_empty());
    assert!(sup.children().is_empty());
}

#[test]
fn all_for_one_restarts_children_of_repeated_starts() {
    let next = Arc::new(AtomicU64::new(1));
    let mut sup = Supervisor::new(Strategy::AllForOne, 3);
    sup.register_child(counting_factory(next));
    let mut ctx = Context::dummy();
    sup.start_all(&mut ctx);
    sup.start_all(&mut ctx);
    assert_eq!(
        sup.children().to_vec(),
        vec![ActorId::from_raw(1), ActorId::from_raw(2)]
    );
    let restarted = sup.handle_failure(ActorId::from_raw(1), &mut ctx);
    assert_eq!(restarted, vec![ActorId::from_raw(3), ActorId::from_raw(4)]);
    assert_eq!(sup.children().to_vec(), restarted);
}

#[test]
fn one_for_one_restarts_with_the_childs_own_factory() {
    let first = Arc::new(AtomicU64::new(100));
    let second = Arc::new(AtomicU64::new(200));
    let mut sup = Supervisor::new(Strategy::OneForOne, 1);
    sup.register_child(counting_factory(first));
    sup.register_child(counting_factory(second));
    let mut ctx = Context::dummy();
    sup.start_all(&mut ctx);
    assert_eq!(
        sup.children().to_vec(),
        vec![ActorId::from_raw(100), ActorId::from_raw(200)]
    );
    assert_eq!(
        sup.handle_failure(ActorId::from_raw(100), &mut ctx),
        vec![ActorId::from_raw(101)]
    );
    assert!(sup.handle_failure(ActorId::from_raw(101), &mut ctx).is_empty());
    assert_eq!(sup.children().to_vec(), vec![ActorId::from_raw(200)]);
    // The remaining child is restarted by the factory that made it.
    assert_eq!(
        sup.handle_failure(ActorId::from_raw(200), &mut ctx),
        vec![ActorId::from_raw(201)]
    );
    assert_eq!(sup.children().to_vec(), vec![ActorId::from_raw(201)]);
}

#[test]
fn zero_max_restarts_gives_up_at_once() {
    let next = Arc::new(AtomicU64::new(1));
    let mut sup = Supervisor::new(Strategy::AllForOne, 0);
    sup.register_child(counting_factory(next));
    let mut ctx = Context::dummy();
    sup.start_all(&mut ctx);
    assert!(sup.handle_failure(ActorId::from_raw(1), &mut ctx).is_empty());
    assert!(sup.children().is_empty());
}
