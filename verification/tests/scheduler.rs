use actinium_actor::scheduler::{Envelope, Scheduler};
use actinium_actor::ActorId;

fn make_envelope(id: u64) -> Envelope<()> {
    Envelope {
        actor_id: ActorId::from_raw(id),
        dispatch: (),
    }
}

fn tagged(id: u64, tag: u32) -> Envelope<u32> {
    Envelope {
        actor_id: ActorId::from_raw(id),
        dispatch: tag,
    }
}

#[test]
fn enqueue_and_dequeue() {
    let mut s = Scheduler::new();
    s.enqueue(make_envelope(1));
    s.enqueue(make_envelope(1));

    assert_eq!(s.next_ready(), Some(ActorId::from_raw(1)));
    assert!(s.dequeue(ActorId::from_raw(1)).is_some());
    s.requeue_if_ready(ActorId::from_raw(1)); // still has 1 message

    assert_eq!(s.next_ready(), Some(ActorId::from_raw(1)));
    assert!(s.dequeue(ActorId::from_raw(1)).is_some());
    s.requeue_if_ready(ActorId::from_raw(1)); // empty now

    assert_eq!(s.next_ready(), None);
}

#[test]
fn round_robin_between_actors() {
    let mut s = Scheduler::new();

    // Actor 1: 3 messages, Actor 2: 1 message
    s.enqueue(make_envelope(1));
    s.enqueue(make_envelope(1));
    s.enqueue(make_envelope(1));
    s.enqueue(make_envelope(2));

    // Turn 1: Actor 1
    assert_eq!(s.next_ready(), Some(ActorId::from_raw(1)));
    s.dequeue(ActorId::from_raw(1));
    s.requeue_if_ready(ActorId::from_raw(1));

    // Turn 2: Actor 2
    assert_eq!(s.next_ready(), Some(ActorId::from_raw(2)));
    s.dequeue(ActorId::from_raw(2));
    s.requeue_if_ready(ActorId::from_raw(2)); // done

    // Turn 3: Actor 1 (re-queued)
    assert_eq!(s.next_ready(), Some(ActorId::from_raw(1)));
    s.dequeue(ActorId::from_raw(1));
    s.requeue_if_ready(ActorId::from_raw(1));

    // Turn 4: Actor 1 (last message)
    assert_eq!(s.next_ready(), Some(ActorId::from_raw(1)));
    s.dequeue(ActorId::from_raw(1));
    s.requeue_if_ready(ActorId::from_raw(1)); // done

    // No more
    assert_eq!(s.next_ready(), None);
}

#[test]
fn round_robin_fairness_order() {
    let mut s = Scheduler::new();

    // 3 actors, 2 messages each
    for _ in 0..2 {
        s.enqueue(make_envelope(1));
        s.enqueue(make_envelope(2));
        s.enqueue(make_envelope(3));
    }

    let mut order = Vec::new();
    while let Some(id) = s.next_ready() {
        order.push(id.0);
        s.dequeue(id);
        s.requeue_if_ready(id);
    }

    // Expected: 1,2,3, 1,2,3 (round-robin)
    assert_eq!(order, vec![1, 2, 3, 1, 2, 3]);
}

#[test]
fn remove_actor_cleans_up() {
    let mut s = Scheduler::new();

    s.enqueue(make_envelope(1));
    s.enqueue(make_envelope(2));

    s.remove_actor(ActorId::from_raw(1));

    // Actor 1 should be gone
    assert_eq!(s.next_ready(), Some(ActorId::from_raw(2)));
    s.dequeue(ActorId::from_raw(2));
    s.requeue_if_ready(ActorId::from_raw(2));

    assert_eq!(s.next_ready(), None);
}

#[test]
fn duplicate_enqueue_only_adds_once() {
    let mut s = Scheduler::new();

    s.enqueue(make_envelope(1));
    s.enqueue(make_envelope(1)); // second message, same actor

    let id = s.next_ready().unwrap();
    assert_eq!(id, ActorId::from_raw(1));
    s.dequeue(id);
    s.requeue_if_ready(id);

    // Still has one message
    assert_eq!(s.next_ready(), Some(ActorId::from_raw(1)));
}

#[test]
fn mailbox_is_first_in_first_out() {
    let mut s = Scheduler::new();
    s.enqueue(tagged(4, 10));
    s.enqueue(tagged(4, 20));
    s.enqueue(tagged(4, 30));
    let got: Vec<u32> = (0..3)
        .map(|_| s.dequeue(ActorId::from_raw(4)).unwrap().dispatch)
        .collect();
    assert_eq!(got, vec![10, 20, 30]);
    assert!(s.dequeue(ActorId::from_raw(4)).is_none());
}

#[test]
fn dequeue_returns_envelope_of_that_actor() {
    let mut s = Scheduler::new();
    s.enqueue(tagged(1, 1));
    s.enqueue(tagged(2, 2));
    let e = s.dequeue(ActorId::from_raw(2)).unwrap();
    assert_eq!(e.actor_id, ActorId::from_raw(2));
    assert_eq!(e.dispatch, 2);
    assert!(s.dequeue(ActorId::from_raw(9)).is_none());
}

#[test]
fn next_ready_drops_idle_actors() {
    let mut s = Scheduler::new();
    s.enqueue(make_envelope(1));
    s.enqueue(make_envelope(2));
    // Empty actor 1's mailbox behind the scheduler's back.
    s.dequeue(ActorId::from_raw(1));
    assert_eq!(s.next_ready(), Some(ActorId::from_raw(2)));
    // Actor 1 was skipped and dropped from the ready queue.
    s.dequeue(ActorId::from_raw(2));
    s.requeue_if_ready(ActorId::from_raw(2));
    assert_eq!(s.next_ready(), None);
}

#[test]
fn actor_behind_busy_ones_is_served_within_its_position() {
    let mut s = Scheduler::new();
    // Actor 1 has many messages, actor 3 one; actor 3 is third in line.
    for _ in 0..5 {
        s.enqueue(make_envelope(1));
    }
    s.enqueue(make_envelope(2));
    s.enqueue(make_envelope(3));
    let mut served = Vec::new();
    for _ in 0..3 {
        let id = s.next_ready().unwrap();
        served.push(id.0);
        s.dequeue(id);
        s.requeue_if_ready(id);
    }
    assert_eq!(served, vec![1, 2, 3]);
}

#[test]
fn removed_actor_is_not_served_again() {
    let mut s = Scheduler::new();
    s.enqueue(make_envelope(1));
    s.enqueue(make_envelope(1));
    s.enqueue(make_envelope(2));
    s.remove_actor(ActorId::from_raw(1));
    let mut served = Vec::new();
    while let Some(id) = s.next_ready() {
        served.push(id.0);
        s.dequeue(id);
        s.requeue_if_ready(id);
    }
    assert_eq!(served, vec![2]);
}

#[test]
fn worker_turns_serve_round_robin() {
    let mut s = Scheduler::new();
    s.enqueue(tagged(1, 10));
    s.enqueue(tagged(1, 11));
    s.enqueue(tagged(2, 20));
    let mut served = Vec::new();
    while let Some(e) = s.take_turn() {
        served.push(e.dispatch);
        s.finish_turn(e.actor_id, true);
    }
    assert_eq!(served, vec![10, 20, 11]);
    assert!(s.take_turn().is_none());
}

#[test]
fn stopped_actor_is_dropped_at_end_of_turn() {
    let mut s = Scheduler::new();
    s.enqueue(tagged(1, 10));
    s.enqueue(tagged(1, 11));
    s.enqueue(tagged(2, 20));
    let e = s.take_turn().unwrap();
    assert_eq!(e.dispatch, 10);
    s.finish_turn(e.actor_id, false);
    let e = s.take_turn().unwrap();
    assert_eq!(e.dispatch, 20);
    s.finish_turn(e.actor_id, true);
    assert!(s.take_turn().is_none());
}
