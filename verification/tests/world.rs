use collision2d::world::{PhysicsWorld, ShapeHandle};

fn filled(count: usize) -> (PhysicsWorld<char, u32>, Vec<ShapeHandle>) {
    let mut world = PhysicsWorld::new();
    let mut handles = Vec::new();
    for i in 0..count {
        handles.push(world.add_shape(100 + i as u32, (b'a' + i as u8) as char));
    }
    (world, handles)
}

#[test]
fn new_registry_is_empty() {
    let world: PhysicsWorld<char, u32> = PhysicsWorld::new();
    assert_eq!(world.len(), 0);
    assert_eq!(world.find(0), None);
    assert!(!world.has(0));
}

#[test]
fn identifiers_count_up_from_zero() {
    let (world, handles) = filled(4);
    let ids: Vec<usize> = handles.iter().map(|handle| handle.id()).collect();
    assert_eq!(ids, vec![0, 1, 2, 3]);
    assert_eq!(world.len(), 4);
    for place in 0..4 {
        assert_eq!(world.id_at(place), place);
    }
}

#[test]
fn handle_reaches_its_own_entry() {
    let (world, handles) = filled(3);
    assert_eq!(*handles[0].tag(&world), 'a');
    assert_eq!(*handles[2].tag(&world), 'c');
    assert_eq!(*handles[1].shape(&world), 101);
    assert_eq!(*world.tag_at(1), 'b');
    assert_eq!(*world.shape_at(2), 102);
}

#[test]
fn releasing_the_first_of_three_leaves_two() {
    let (mut world, mut handles) = filled(3);
    let first = handles.remove(0);
    first.release(&mut world);
    assert_eq!(world.len(), 2);
    assert!(!world.has(0));
    assert!(world.has(1));
    assert!(world.has(2));
    assert_eq!(world.id_at(0), 1);
    assert_eq!(world.id_at(1), 2);
    let next = world.add_shape(7, 'z');
    assert_eq!(next.id(), 3);
    assert_eq!(world.len(), 3);
    for handle in &handles {
        assert!(handle.id() != next.id());
    }
}

#[test]
fn released_entry_is_found_no_more() {
    let (mut world, mut handles) = filled(5);
    let middle = handles.remove(2);
    middle.release(&mut world);
    assert_eq!(world.find(2), None);
    assert_eq!(world.find(0), Some(0));
    assert_eq!(world.find(1), Some(1));
    assert_eq!(world.find(3), Some(2));
    assert_eq!(world.find(4), Some(3));
    assert_eq!(world.get_index(4), 3);
    assert_eq!(*handles[2].tag(&world), 'd');
    assert_eq!(world.find(5), None);
    assert_eq!(world.find(usize::MAX), None);
}

#[test]
fn next_identifier_follows_the_last_live_entry() {
    let (mut world, mut handles) = filled(3);
    let last = handles.pop().unwrap();
    last.release(&mut world);
    assert_eq!(world.add_shape(0, 'x').id(), 2);
    while let Some(handle) = handles.pop() {
        handle.release(&mut world);
    }
    assert_eq!(world.len(), 1);
    assert_eq!(world.id_at(0), 2);
}

#[test]
fn emptied_registry_starts_again_at_zero() {
    let (mut world, mut handles) = filled(2);
    while let Some(handle) = handles.pop() {
        handle.release(&mut world);
    }
    assert_eq!(world.len(), 0);
    assert_eq!(world.add_shape(0, 'x').id(), 0);
}

#[test]
fn batch_gets_consecutive_identifiers() {
    let (mut world, _handles) = filled(2);
    let batch = world.add_shapes(vec![(7, 'x'), (8, 'y'), (9, 'z')]);
    let ids: Vec<usize> = batch.iter().map(|handle| handle.id()).collect();
    assert_eq!(ids, vec![2, 3, 4]);
    assert_eq!(world.len(), 5);
    assert_eq!(*batch[1].tag(&world), 'y');
    assert_eq!(*batch[2].shape(&world), 9);
    assert_eq!(*world.tag_at(0), 'a');
    assert!(world.add_shapes(vec![]).is_empty());
    assert_eq!(world.len(), 5);
}

#[test]
fn batch_in_an_empty_registry_then_release_of_the_first() {
    let mut world: PhysicsWorld<char, u32> = PhysicsWorld::new();
    let mut batch = world.add_shapes(vec![(1, 'p'), (2, 'q'), (3, 'r'), (4, 's')]);
    assert_eq!(batch[0].id(), 0);
    batch.remove(0).release(&mut world);
    assert_eq!(world.len(), 3);
    let live: Vec<usize> = (0..world.len()).map(|place| world.id_at(place)).collect();
    assert_eq!(live, vec![1, 2, 3]);
    let next = world.add_shape(5, 't');
    assert!(!live.contains(&next.id()));
}

#[test]
fn collisions_leave_out_the_own_entry_and_the_misses() {
    let (world, handles) = filled(4);
    let outcomes = vec![Some(10), Some(11), None, Some(13)];
    let found: Vec<(i32, char)> = handles[1]
        .collisions(&world, &outcomes)
        .into_iter()
        .map(|(resolution, tag)| (resolution, *tag))
        .collect();
    assert_eq!(found, vec![(10, 'a'), (13, 'd')]);
    let none: Vec<Option<i32>> = vec![None, Some(1), None, None];
    assert!(handles[1].collisions(&world, &none).is_empty());
}

#[test]
fn collisions_go_by_identifier_after_a_release() {
    let (mut world, mut handles) = filled(4);
    handles.remove(0).release(&mut world);
    // Places 0, 1, 2 now hold the identifiers 1, 2, 3.
    let outcomes = vec![Some(20), Some(21), Some(22), Some(23)];
    let found: Vec<(i32, char)> = handles[1]
        .collisions(&world, &outcomes)
        .into_iter()
        .map(|(resolution, tag)| (resolution, *tag))
        .collect();
    assert_eq!(found, vec![(20, 'b'), (22, 'd')]);
}

#[test]
fn raycast_keeps_the_order_of_the_registry() {
    let (world, _handles) = filled(4);
    let outcomes = vec![Some(9.5f32), None, Some(2.5), Some(4.0)];
    let found: Vec<(f32, char)> = world
        .raycast(&outcomes)
        .into_iter()
        .map(|(distance, tag)| (distance, *tag))
        .collect();
    assert_eq!(found, vec![(9.5, 'a'), (2.5, 'c'), (4.0, 'd')]);
    let short = vec![None, Some(1.0f32)];
    assert_eq!(world.raycast(&short).len(), 1);
    let long = vec![None, None, None, None, Some(1.0f32)];
    assert!(world.raycast(&long).is_empty());
}

#[test]
fn raycast_nearest_takes_the_least_distance() {
    let (world, _handles) = filled(4);
    let outcomes: Vec<Option<(u32, f32)>> = [Some(9.5f32), None, Some(2.5), Some(4.0)]
        .iter()
        .map(|reach| reach.map(|distance| (distance.to_bits(), distance)))
        .collect();
    let found = world.raycast_nearest(&outcomes).map(|(distance, tag)| (distance, *tag));
    assert_eq!(found, Some((2.5, 'c')));
    let tie = vec![None, Some((7, 1.0f32)), Some((7, 2.0f32))];
    assert_eq!(world.raycast_nearest(&tie).map(|(d, tag)| (d, *tag)), Some((1.0, 'b')));
}

#[test]
fn raycast_in_an_empty_registry_meets_nothing() {
    let world: PhysicsWorld<char, u32> = PhysicsWorld::new();
    assert!(world.raycast(&Vec::<Option<f32>>::new()).is_empty());
    assert!(world.raycast_nearest(&Vec::<Option<(u32, f32)>>::new()).is_none());
    assert!(world.raycast_nearest(&vec![Some((1, 1.0f32))]).is_none());
    let (world, _handles) = filled(2);
    assert!(world.raycast_nearest(&vec![None::<(u32, f32)>, None]).is_none());
}
