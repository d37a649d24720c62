use nodegraph_core::graph::node::{CustomBodyHeight, NodePosition, NodeTypeId};
use nodegraph_core::graph::port::PortIndex;
use nodegraph_core::store::{ComponentKind, EntityAllocator, EntityId, Generation, World};

// The store holds the graph's component kinds. Where a test stored a bare
// number, text or float, it stores the component kind that carries one:
// PortIndex for a u32, NodeTypeId for a String, NodePosition / CustomBodyHeight
// for an f64.

#[test]
fn entity_lifecycle_spawn_despawn_reuse() {
    let mut world: World<f64> = World::new();

    let mut ids: Vec<EntityId> = Vec::new();
    for _ in 0..1000 {
        ids.push(world.spawn());
    }
    assert_eq!(world.entity_count(), 1000);

    let mut despawned = Vec::new();
    for i in (0..1000).step_by(2) {
        assert!(world.despawn(ids[i]));
        despawned.push(ids[i]);
    }
    assert_eq!(world.entity_count(), 500);

    for &id in &despawned {
        assert!(!world.is_alive(id));
    }

    let mut new_ids = Vec::new();
    for _ in 0..500 {
        new_ids.push(world.spawn());
    }
    assert_eq!(world.entity_count(), 1000);

    for &id in &despawned {
        assert!(!world.is_alive(id));
    }
    for &id in &new_ids {
        assert!(world.is_alive(id));
    }
}

#[test]
fn entity_despawned_component_inaccessible() {
    let mut world: World<f64> = World::new();
    let id = world.spawn();
    world.insert(id, PortIndex(42));
    assert_eq!(world.get::<PortIndex>(id), Some(&PortIndex(42)));

    world.despawn(id);
    assert_eq!(world.get::<PortIndex>(id), None);
}

#[test]
fn entity_generation_prevents_stale_access() {
    let mut world: World<f64> = World::new();
    let old_id = world.spawn();
    world.insert(old_id, PortIndex(100));
    world.despawn(old_id);

    let new_id = world.spawn();
    world.insert(new_id, PortIndex(200));

    assert_eq!(world.get::<PortIndex>(old_id), None);
    assert_eq!(world.get::<PortIndex>(new_id), Some(&PortIndex(200)));
    assert_ne!(old_id, new_id);
}

#[test]
fn entity_double_despawn_returns_false() {
    let mut world: World<f64> = World::new();
    let id = world.spawn();
    assert!(world.despawn(id));
    assert!(!world.despawn(id));
}

#[test]
fn component_crud() {
    let mut world: World<f64> = World::new();
    let id = world.spawn();

    world.insert(id, PortIndex(42));
    world.insert(id, CustomBodyHeight(3.14f64));
    world.insert(id, NodeTypeId("hello".to_string()));

    assert_eq!(world.get::<PortIndex>(id), Some(&PortIndex(42)));
    assert_eq!(world.get::<CustomBodyHeight<f64>>(id), Some(&CustomBodyHeight(3.14)));
    assert_eq!(world.get::<NodeTypeId>(id), Some(&NodeTypeId("hello".to_string())));

    let removed = world.remove::<CustomBodyHeight<f64>>(id);
    assert_eq!(removed, Some(CustomBodyHeight(3.14)));

    assert_eq!(world.get::<CustomBodyHeight<f64>>(id), None);
    assert_eq!(world.get::<PortIndex>(id), Some(&PortIndex(42)));
    assert_eq!(world.get::<NodeTypeId>(id), Some(&NodeTypeId("hello".to_string())));
}

#[test]
fn component_overwrite() {
    let mut world: World<f64> = World::new();
    let id = world.spawn();
    world.insert(id, PortIndex(10));
    world.insert(id, PortIndex(20));
    assert_eq!(world.get::<PortIndex>(id), Some(&PortIndex(20)));
}

#[test]
fn component_get_mut() {
    let mut world: World<f64> = World::new();
    let id = world.spawn();
    world.insert(id, PortIndex(5));
    if let Some(val) = world.get_mut::<PortIndex>(id) {
        val.0 = 10;
    }
    assert_eq!(world.get::<PortIndex>(id), Some(&PortIndex(10)));
}

#[test]
fn component_remove_never_inserted_returns_none() {
    let mut world: World<f64> = World::new();
    let id = world.spawn();
    assert_eq!(world.remove::<PortIndex>(id), None);
    assert_eq!(world.get::<PortIndex>(id), None);
}

#[test]
fn component_has() {
    let mut world: World<f64> = World::new();
    let id = world.spawn();
    assert!(!world.has::<PortIndex>(id));
    world.insert(id, PortIndex(42));
    assert!(world.has::<PortIndex>(id));
}

#[test]
fn query_single_component() {
    let mut world: World<f64> = World::new();

    let mut all_ids = Vec::new();
    for _ in 0..100u32 {
        all_ids.push(world.spawn());
    }

    for i in 0..50 {
        world.insert(all_ids[i], PortIndex(i as u32));
    }

    for i in 20..50 {
        world.insert(all_ids[i], CustomBodyHeight(i as f64));
    }

    assert_eq!(world.query::<PortIndex>().len(), 50);
    assert_eq!(world.query::<CustomBodyHeight<f64>>().len(), 30);
    assert_eq!(world.query2::<PortIndex, CustomBodyHeight<f64>>().len(), 30);
}

#[test]
fn query_returns_correct_data() {
    let mut world: World<f64> = World::new();
    let id1 = world.spawn();
    let id2 = world.spawn();

    world.insert(id1, PortIndex(1));
    world.insert(id1, CustomBodyHeight(10.0));
    world.insert(id2, PortIndex(2));

    let results = world.query2::<PortIndex, CustomBodyHeight<f64>>();
    assert_eq!(results.len(), 1);
    assert_eq!(results[0].0, id1);
    assert_eq!(results[0].1, &PortIndex(1));
    assert_eq!(results[0].2, &CustomBodyHeight(10.0));
}

#[test]
fn query_skips_despawned_entities() {
    let mut world: World<f64> = World::new();
    let id1 = world.spawn();
    let id2 = world.spawn();
    let id3 = world.spawn();

    world.insert(id1, PortIndex(1));
    world.insert(id2, PortIndex(2));
    world.insert(id3, PortIndex(3));

    world.despawn(id2);

    let results: Vec<u32> = world.query::<PortIndex>().iter().map(|(_, a)| a.0).collect();
    assert_eq!(results.len(), 2);
    assert!(results.contains(&1));
    assert!(results.contains(&3));
    assert!(!results.contains(&2));
}

#[test]
fn query_empty_world() {
    let world: World<f64> = World::new();
    assert_eq!(world.query::<PortIndex>().len(), 0);
    assert_eq!(world.query2::<PortIndex, CustomBodyHeight<f64>>().len(), 0);
}

#[test]
fn change_tracking() {
    let mut world: World<f64> = World::new();

    let mut ids = Vec::new();
    for i in 0..10 {
        let id = world.spawn();
        world.insert(id, NodePosition { x: i as f64 * 10.0, y: 0.0 });
        ids.push(id);
    }

    world.change_tracker.clear();
    assert!(!world.change_tracker.has_changes());

    let modified_indices = [0, 2, 4, 6, 8];
    for &i in &modified_indices {
        if let Some(pos) = world.get_mut::<NodePosition<f64>>(ids[i]) {
            pos.x += 100.0;
        }
    }

    let changed: Vec<EntityId> = world.change_tracker.changed_entities::<NodePosition<f64>>();
    assert_eq!(changed.len(), 5);

    for &i in &modified_indices {
        assert!(changed.contains(&ids[i]));
    }

    for &i in &[1, 3, 5, 7, 9] {
        assert!(!changed.contains(&ids[i]));
    }
    assert!(world
        .change_tracker
        .changes()
        .iter()
        .all(|r| r.component_type == ComponentKind::NodePosition));
}

#[test]
fn world_with_start_hands_out_ids_from_start() {
    let mut world: World<f64> = World::new_with_start(500);
    let a = world.spawn();
    let b = world.spawn();
    assert_eq!(a.index, 500);
    assert_eq!(b.index, 501);
    assert_eq!(a.generation, Generation::default());
}

#[test]
fn allocator_reuses_slot_with_new_generation() {
    let mut alloc = EntityAllocator::new();
    let a = alloc.allocate();
    assert!(alloc.deallocate(a));
    let b = alloc.allocate();
    assert_eq!(a.index, b.index);
    assert_eq!(b.generation.0, a.generation.0 + 1);
    assert!(!alloc.is_alive(a));
    assert!(alloc.is_alive(b));
    assert_eq!(alloc.alive_count(), 1);
}
