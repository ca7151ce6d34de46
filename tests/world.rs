use bau::collision_pair::CollisionPair;
use bau::ids::{fresh_id, index_of_id, new_body_id};
use bau::world::World;

#[test]
fn new_world_is_empty() {
    let world: World<u32> = World::new();
    assert!(world.get_bodies().is_empty());
    assert_eq!(world.frame, 0);
    assert!(world.collision_pairs.is_empty());
    assert!(world.get_pairs().is_empty());
}

#[test]
fn add_body_keeps_each_id_once() {
    let mut world: World<u32> = World::new();
    world.add_body(3);
    world.add_body(1);
    world.add_body(3);
    assert_eq!(world.get_bodies(), &vec![3u16, 1]);
    assert!(world.contains_body(1));
    assert!(!world.contains_body(2));
}

#[test]
fn remove_body_takes_it_out() {
    let mut world: World<u32> = World::new();
    world.add_body(3);
    world.add_body(1);
    world.add_body(8);
    world.remove_body(1);
    assert_eq!(world.get_bodies(), &vec![3u16, 8]);
    world.remove_body(42);
    assert_eq!(world.get_bodies(), &vec![3u16, 8]);
}

#[test]
fn get_pairs_lists_every_pair_once() {
    let mut world: World<u32> = World::new();
    world.add_body(9);
    world.add_body(2);
    world.add_body(5);
    let mut pairs = world.get_pairs();
    pairs.sort();
    assert_eq!(pairs, vec![(2, 5), (2, 9), (5, 9)]);
    world.add_body(1);
    assert_eq!(world.get_pairs().len(), 6);
}

#[test]
fn upsert_replaces_a_pair_with_the_same_identity() {
    let mut world: World<&str> = World::new();
    world.upsert_pair(1, 2, "first");
    world.upsert_pair(3, 4, "other");
    world.advance_frame();
    world.upsert_pair(2, 1, "second");
    assert_eq!(world.collision_pairs.len(), 2);
    let (pair, manifold) = &world.collision_pairs[0];
    assert_eq!((pair.body_a, pair.body_b, pair.frame), (2, 1, 1));
    assert_eq!(*manifold, "second");
    assert_eq!(pair.id(), CollisionPair::pair_id(1, 2));
}

#[test]
fn prune_drops_stale_pairs_in_order() {
    let mut world: World<u8> = World::new();
    world.upsert_pair(1, 2, 10);
    world.upsert_pair(1, 3, 11);
    world.advance_frame();
    world.upsert_pair(1, 3, 12);
    world.upsert_pair(2, 3, 13);
    world.prune_pairs();
    let kept: Vec<(u16, u16, u8)> = world
        .collision_pairs
        .iter()
        .map(|(p, m)| (p.body_a, p.body_b, *m))
        .collect();
    assert_eq!(kept, vec![(1, 3, 12), (2, 3, 13)]);
    world.advance_frame();
    world.prune_pairs();
    assert!(world.collision_pairs.is_empty());
}

#[test]
fn frame_counter_stops_at_its_largest_value() {
    let mut world: World<u8> = World::new();
    world.frame = u32::MAX - 1;
    world.advance_frame();
    assert_eq!(world.frame, u32::MAX);
    world.advance_frame();
    assert_eq!(world.frame, u32::MAX);
}

#[test]
fn fresh_id_moves_past_ids_in_use() {
    assert_eq!(fresh_id(5, &vec![]), Some(5));
    assert_eq!(fresh_id(5, &vec![5, 6, 8]), Some(7));
    assert_eq!(fresh_id(u16::MAX, &vec![u16::MAX, 0]), Some(1));
}

#[test]
fn fresh_id_when_every_id_is_taken() {
    let all: Vec<u16> = (0..=u16::MAX).collect();
    assert_eq!(fresh_id(100, &all), None);
    assert_eq!(new_body_id(&all), None);
}

#[test]
fn new_body_id_avoids_ids_in_use() {
    let taken: Vec<u16> = (0..1000).collect();
    for _ in 0..50 {
        let id = new_body_id(&taken).unwrap();
        assert!(!taken.contains(&id));
    }
}

#[test]
fn index_of_id_finds_the_first_occurrence() {
    assert_eq!(index_of_id(&vec![4, 7, 4], 4), Some(0));
    assert_eq!(index_of_id(&vec![4, 7, 4], 7), Some(1));
    assert_eq!(index_of_id(&vec![4, 7, 4], 9), None);
    assert_eq!(index_of_id(&vec![], 0), None);
}
