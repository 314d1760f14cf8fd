use spherro::{plan_despawn, retain_kept, Event, EventQueue, PopulationError};

#[test]
fn despawn_removes_the_highest_energies() {
    let keys: Vec<u32> = vec![5, 90, 12, 70, 1, 33];
    let kept = plan_despawn(&keys, 2).unwrap();
    assert_eq!(kept, vec![0, 2, 4, 5]);
    assert_eq!(kept.len(), keys.len() - 2);
}

#[test]
fn despawn_of_everything_and_of_nothing() {
    let keys: Vec<u32> = vec![3, 1, 2];
    assert_eq!(plan_despawn(&keys, 0).unwrap(), vec![0, 1, 2]);
    assert_eq!(plan_despawn(&keys, 3).unwrap(), Vec::<usize>::new());
    assert_eq!(plan_despawn(&Vec::new(), 0).unwrap(), Vec::<usize>::new());
}

#[test]
fn despawn_of_too_many_is_rejected() {
    let keys: Vec<u32> = vec![3, 1];
    assert_eq!(
        plan_despawn(&keys, 3),
        Err(PopulationError::DespawnCountTooLarge { count: 3, available: 2 })
    );
    assert!(plan_despawn(&Vec::new(), 1).is_err());
}

#[test]
fn despawn_among_equal_energies_takes_lower_indices() {
    let keys: Vec<u32> = vec![7, 7, 7, 2];
    assert_eq!(plan_despawn(&keys, 2).unwrap(), vec![2, 3]);
}

#[test]
fn despawn_ranks_float_energies_by_their_bits() {
    let energies: Vec<f32> = vec![0.25, 1e6, 0.0, 3.5, 1e-3];
    let keys: Vec<u32> = energies.iter().map(|e| e.to_bits()).collect();
    let kept = plan_despawn(&keys, 2).unwrap();
    assert_eq!(kept, vec![0, 2, 4]);
}

#[test]
fn retain_kept_picks_items_in_order() {
    let items = vec!['a', 'b', 'c', 'd'];
    assert_eq!(retain_kept(&items, &vec![0, 2, 3]), vec!['a', 'c', 'd']);
    assert_eq!(retain_kept(&items, &vec![]), Vec::<char>::new());
}

#[test]
fn event_queue_drains_in_order_once() {
    let mut q: EventQueue<(i32, i32)> = EventQueue::new();
    q.queue_spawn(3, (1, 2));
    q.queue_despawn(2);
    q.queue_spawn(1, (5, 6));
    assert_eq!(q.len(), 3);
    let events = q.drain();
    assert_eq!(events, vec![Event::Spawn(3, (1, 2)), Event::Despawn(2), Event::Spawn(1, (5, 6))]);
    assert_eq!(q.len(), 0);
    assert!(q.drain().is_empty());
}
