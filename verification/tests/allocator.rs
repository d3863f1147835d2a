use hydro::entity::{BlockAllocator, Entity, EntityAllocator};
use hydro::world::{Universe, World};
use std::collections::HashSet;

#[test]
fn create_universe() {
    Universe::new();
}

#[test]
fn create_world() {
    let universe = Universe::new();
    let _world: World<u64> = universe.create_world();
}

#[test]
fn create_entity() {
    let mut blocks = BlockAllocator::new();
    let mut allocator = EntityAllocator::new();
    allocator.create_entity(&mut blocks);
}

#[test]
fn create_entity_many() {
    let mut blocks = BlockAllocator::new();
    let mut allocator = EntityAllocator::new();

    for _ in 0..512 {
        allocator.create_entity(&mut blocks);
    }
}

#[test]
fn create_entity_many_blocks() {
    let mut blocks = BlockAllocator::new();
    let mut allocator = EntityAllocator::new();

    for _ in 0..3000 {
        allocator.create_entity(&mut blocks);
    }
}

#[test]
fn create_entity_recreate() {
    let mut blocks = BlockAllocator::new();
    let mut allocator = EntityAllocator::new();

    for _ in 0..3 {
        let entities: Vec<Entity> = (0..512).map(|_| allocator.create_entity(&mut blocks)).collect();
        for e in entities {
            allocator.delete_entity(e);
        }
    }
}

#[test]
fn is_alive_allocated() {
    let mut blocks = BlockAllocator::new();
    let mut allocator = EntityAllocator::new();
    let entity = allocator.create_entity(&mut blocks);

    assert_eq!(true, allocator.is_alive(&entity));
}

#[test]
fn is_alive_unallocated() {
    let allocator = EntityAllocator::new();
    let entity = Entity::new(10, 10);

    assert_eq!(false, allocator.is_alive(&entity));
}

#[test]
fn is_alive_killed() {
    let mut blocks = BlockAllocator::new();
    let mut allocator = EntityAllocator::new();
    let entity = allocator.create_entity(&mut blocks);
    allocator.delete_entity(entity);

    assert_eq!(false, allocator.is_alive(&entity));
}

#[test]
fn delete_entity_was_alive() {
    let mut blocks = BlockAllocator::new();
    let mut allocator = EntityAllocator::new();
    let entity = allocator.create_entity(&mut blocks);

    assert_eq!(true, allocator.delete_entity(entity));
}

#[test]
fn delete_entity_was_dead() {
    let mut blocks = BlockAllocator::new();
    let mut allocator = EntityAllocator::new();
    let entity = allocator.create_entity(&mut blocks);
    allocator.delete_entity(entity);

    assert_eq!(false, allocator.delete_entity(entity));
}

#[test]
fn delete_entity_was_unallocated() {
    let mut allocator = EntityAllocator::new();
    let entity = Entity::new(10, 10);

    assert_eq!(false, allocator.delete_entity(entity));
}

#[test]
fn multiple_allocators_unique_ids() {
    let mut blocks = BlockAllocator::new();
    let mut allocator_a = EntityAllocator::new();
    let mut allocator_b = EntityAllocator::new();

    let mut entities_a = HashSet::<Entity>::new();
    let mut entities_b = HashSet::<Entity>::new();

    for _ in 0..5 {
        entities_a.extend((0..1500).map(|_| allocator_a.create_entity(&mut blocks)));
        entities_b.extend((0..1500).map(|_| allocator_b.create_entity(&mut blocks)));
    }

    assert_eq!(true, entities_a.is_disjoint(&entities_b));

    for e in entities_a {
        assert_eq!(true, allocator_a.is_alive(&e));
        assert_eq!(false, allocator_b.is_alive(&e));
    }

    for e in entities_b {
        assert_eq!(false, allocator_a.is_alive(&e));
        assert_eq!(true, allocator_b.is_alive(&e));
    }
}

#[test]
fn version_reuse_distinct() {
    let mut blocks = BlockAllocator::new();
    let mut allocator = EntityAllocator::new();

    let e = allocator.create_entity(&mut blocks);
    allocator.delete_entity(e);
    let f = allocator.create_entity(&mut blocks);

    assert_eq!(e.index, f.index);
    assert_ne!(e.version, f.version);
    assert_eq!(false, allocator.is_alive(&e));
    assert_eq!(true, allocator.is_alive(&f));
}

#[test]
fn released_blocks_are_reused() {
    let mut blocks = BlockAllocator::new();
    let mut allocator_a = EntityAllocator::new();
    let a0 = allocator_a.create_entity(&mut blocks);
    allocator_a.release_blocks(&mut blocks);

    let mut allocator_b = EntityAllocator::new();
    let b0 = allocator_b.create_entity(&mut blocks);

    // The recycled block keeps its slot versions, so the handles differ
    // even though the index range is reused.
    assert_eq!(false, allocator_a.is_alive(&a0));
    assert_eq!(true, allocator_b.is_alive(&b0));
}

#[test]
fn allocation_buffer_tracks_creations() {
    let mut blocks = BlockAllocator::new();
    let mut allocator = EntityAllocator::new();
    allocator.clear_allocation_buffer();
    let e1 = allocator.create_entity(&mut blocks);
    let e2 = allocator.create_entity(&mut blocks);
    let buffer = allocator.allocation_buffer();
    assert_eq!(buffer.len(), 2);
    assert_eq!(buffer[0], e1);
    assert_eq!(buffer[1], e2);
}
