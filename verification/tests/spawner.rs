use actinium_actor::spawner::SpawnShared;
use actinium_actor::ActorId;

#[test]
fn ids_start_at_one_and_count_up() {
    let mut shared: SpawnShared<()> = SpawnShared::new(2);
    assert_eq!(shared.allocate_id(), ActorId::from_raw(1));
    assert_eq!(shared.allocate_id(), ActorId::from_raw(2));
    assert_eq!(shared.allocate_id(), ActorId::from_raw(3));
}

#[test]
fn workers_are_picked_round_robin() {
    let mut shared: SpawnShared<()> = SpawnShared::new(3);
    let picks: Vec<usize> = (0..7).map(|_| shared.pick_worker()).collect();
    assert_eq!(picks, vec![0, 1, 2, 0, 1, 2, 0]);
    assert_eq!(shared.num_workers(), 3);
}

#[test]
fn tables_are_per_worker() {
    let mut shared: SpawnShared<&'static str> = SpawnShared::new(2);
    shared.spawn_actor_direct(ActorId::from_raw(1), 0, "a");
    shared.spawn_actor_direct(ActorId::from_raw(2), 1, "b");
    assert_eq!(shared.actor_count(0), 1);
    assert_eq!(shared.actor_count(1), 1);
    assert_eq!(shared.remove_actor(ActorId::from_raw(1), 1), None);
    assert_eq!(shared.remove_actor(ActorId::from_raw(1), 0), Some("a"));
    assert_eq!(shared.actor_count(0), 0);
    assert_eq!(shared.actor_ids(1), vec![ActorId::from_raw(2)]);
}

#[test]
fn actor_ids_lists_each_actor_once() {
    let mut shared: SpawnShared<u8> = SpawnShared::new(1);
    for i in 1..=5 {
        shared.spawn_actor_direct(ActorId::from_raw(i), 0, i as u8);
    }
    shared.spawn_actor_direct(ActorId::from_raw(3), 0, 30);
    let mut ids: Vec<u64> = shared.actor_ids(0).iter().map(|id| id.0).collect();
    ids.sort();
    assert_eq!(ids, vec![1, 2, 3, 4, 5]);
    assert_eq!(shared.remove_actor(ActorId::from_raw(3), 0), Some(30));
}

#[test]
fn settle_puts_running_actor_back_and_hands_out_stopped_one() {
    let mut shared: SpawnShared<&'static str> = SpawnShared::new(1);
    let id = shared.allocate_id();
    shared.spawn_actor_direct(id, 0, "cell");
    let cell = shared.remove_actor(id, 0).unwrap();
    assert_eq!(shared.settle(id, 0, cell, true), None);
    assert_eq!(shared.actor_count(0), 1);
    let cell = shared.remove_actor(id, 0).unwrap();
    assert_eq!(shared.settle(id, 0, cell, false), Some("cell"));
    assert_eq!(shared.actor_count(0), 0);
}
