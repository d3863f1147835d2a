use hydro::command::CommandBuffer;
use hydro::entity::Entity;
use hydro::query::{DataView, Read, Shared, ViewItem, Write};
use hydro::world::{IterComponentSource, SharedDataSet, Universe, World};
use std::collections::HashMap;

#[derive(Clone, Copy, Debug, PartialEq)]
enum Comp {
    Pos(f32, f32, f32),
    Rot(f32, f32, f32),
    Vel(f32, f32, f32),
}

const POS: u32 = 0;
const ROT: u32 = 1;
const VEL: u32 = 2;

const STATIC: u32 = 10;
const MODEL: u32 = 11;

fn insert_pos_rot(
    universe: &mut Universe,
    world: &mut World<Comp>,
    shared: &SharedDataSet,
    components: &[(Comp, Comp)],
) -> Vec<Entity> {
    let pos_col: Vec<Comp> = components.iter().map(|p| p.0).collect();
    let rot_col: Vec<Comp> = components.iter().map(|p| p.1).collect();
    let source = IterComponentSource::new(vec![POS, ROT], vec![pos_col, rot_col]);
    world.insert(&mut universe.allocator, shared, &source)
}

fn shared_static_model5() -> SharedDataSet {
    SharedDataSet::new().with(STATIC, 0).with(MODEL, 5)
}

#[test]
fn query_read_entity_data() {
    let mut universe = Universe::new();
    let mut world: World<Comp> = universe.create_world();

    let shared = shared_static_model5();
    let components = vec![
        (Comp::Pos(1., 2., 3.), Comp::Rot(0.1, 0.2, 0.3)),
        (Comp::Pos(4., 5., 6.), Comp::Rot(0.4, 0.5, 0.6)),
    ];

    let mut expected = HashMap::<Entity, (Comp, Comp)>::new();
    for (i, e) in insert_pos_rot(&mut universe, &mut world, &shared, &components)
        .iter()
        .enumerate()
    {
        if let Some((pos, rot)) = components.get(i) {
            expected.insert(*e, (*pos, *rot));
        }
    }

    let query = Read(POS).query();

    let mut count = 0;
    for (entity, row) in query.into_data_with_entities(&world) {
        assert_eq!(ViewItem::Component(expected.get(&entity).unwrap().0), row[0]);
        count += 1;
    }

    assert_eq!(components.len(), count);
}

#[test]
fn query_read_entity_data_tuple() {
    let mut universe = Universe::new();
    let mut world: World<Comp> = universe.create_world();

    let shared = shared_static_model5();
    let components = vec![
        (Comp::Pos(1., 2., 3.), Comp::Rot(0.1, 0.2, 0.3)),
        (Comp::Pos(4., 5., 6.), Comp::Rot(0.4, 0.5, 0.6)),
    ];

    let mut expected = HashMap::<Entity, (Comp, Comp)>::new();
    for (i, e) in insert_pos_rot(&mut universe, &mut world, &shared, &components)
        .iter()
        .enumerate()
    {
        if let Some((pos, rot)) = components.get(i) {
            expected.insert(*e, (*pos, *rot));
        }
    }

    let query = DataView::new().with_read(POS).with_read(ROT).query();

    let mut count = 0;
    for (entity, row) in query.into_data_with_entities(&world) {
        assert_eq!(ViewItem::Component(expected.get(&entity).unwrap().0), row[0]);
        assert_eq!(ViewItem::Component(expected.get(&entity).unwrap().1), row[1]);
        count += 1;
    }

    assert_eq!(components.len(), count);
}

#[test]
fn query_write_entity_data() {
    let mut universe = Universe::new();
    let mut world: World<Comp> = universe.create_world();

    let shared = shared_static_model5();
    let components = vec![
        (Comp::Pos(1., 2., 3.), Comp::Rot(0.1, 0.2, 0.3)),
        (Comp::Pos(4., 5., 6.), Comp::Rot(0.4, 0.5, 0.6)),
    ];

    let mut expected = HashMap::<Entity, (Comp, Comp)>::new();
    for (i, e) in insert_pos_rot(&mut universe, &mut world, &shared, &components)
        .iter()
        .enumerate()
    {
        if let Some((pos, rot)) = components.get(i) {
            expected.insert(*e, (*pos, *rot));
        }
    }

    let query = Write(POS).query();

    let mut count = 0;
    for (entity, row) in query.into_data_with_entities(&world) {
        assert_eq!(ViewItem::Component(expected.get(&entity).unwrap().0), row[0]);
        count += 1;

        world.set_component(entity, POS, Comp::Pos(0.0, 0.0, 0.0));
    }

    assert_eq!(components.len(), count);
}

#[test]
fn query_write_entity_data_tuple() {
    let mut universe = Universe::new();
    let mut world: World<Comp> = universe.create_world();

    let shared = shared_static_model5();
    let components = vec![
        (Comp::Pos(1., 2., 3.), Comp::Rot(0.1, 0.2, 0.3)),
        (Comp::Pos(4., 5., 6.), Comp::Rot(0.4, 0.5, 0.6)),
    ];

    let mut expected = HashMap::<Entity, (Comp, Comp)>::new();
    for (i, e) in insert_pos_rot(&mut universe, &mut world, &shared, &components)
        .iter()
        .enumerate()
    {
        if let Some((pos, rot)) = components.get(i) {
            expected.insert(*e, (*pos, *rot));
        }
    }

    let query = DataView::new().with_write(POS).with_write(ROT).query();

    let mut count = 0;
    for (entity, row) in query.into_data_with_entities(&world) {
        assert_eq!(ViewItem::Component(expected.get(&entity).unwrap().0), row[0]);
        assert_eq!(ViewItem::Component(expected.get(&entity).unwrap().1), row[1]);
        count += 1;

        world.set_component(entity, POS, Comp::Pos(0.0, 0.0, 0.0));
        world.set_component(entity, ROT, Comp::Rot(0.0, 0.0, 0.0));
    }

    assert_eq!(components.len(), count);
}

#[test]
fn query_mixed_entity_data_tuple() {
    let mut universe = Universe::new();
    let mut world: World<Comp> = universe.create_world();

    let shared = shared_static_model5();
    let components = vec![
        (Comp::Pos(1., 2., 3.), Comp::Rot(0.1, 0.2, 0.3)),
        (Comp::Pos(4., 5., 6.), Comp::Rot(0.4, 0.5, 0.6)),
    ];

    let mut expected = HashMap::<Entity, (Comp, Comp)>::new();
    for (i, e) in insert_pos_rot(&mut universe, &mut world, &shared, &components)
        .iter()
        .enumerate()
    {
        if let Some((pos, rot)) = components.get(i) {
            expected.insert(*e, (*pos, *rot));
        }
    }

    let query = DataView::new().with_read(POS).with_write(ROT).query();

    let mut count = 0;
    for (entity, row) in query.into_data_with_entities(&world) {
        assert_eq!(ViewItem::Component(expected.get(&entity).unwrap().0), row[0]);
        assert_eq!(ViewItem::Component(expected.get(&entity).unwrap().1), row[1]);
        count += 1;

        world.set_component(entity, ROT, Comp::Rot(0.0, 0.0, 0.0));
    }

    assert_eq!(components.len(), count);
}

#[test]
fn query_partial_match() {
    let mut universe = Universe::new();
    let mut world: World<Comp> = universe.create_world();

    let shared = shared_static_model5();
    let components = vec![
        (Comp::Pos(1., 2., 3.), Comp::Rot(0.1, 0.2, 0.3)),
        (Comp::Pos(4., 5., 6.), Comp::Rot(0.4, 0.5, 0.6)),
    ];

    let mut expected = HashMap::<Entity, (Comp, Comp)>::new();
    for (i, e) in insert_pos_rot(&mut universe, &mut world, &shared, &components)
        .iter()
        .enumerate()
    {
        if let Some((pos, rot)) = components.get(i) {
            expected.insert(*e, (*pos, *rot));
        }
    }

    let query = DataView::new().with_read(POS).with_write(ROT).query();

    let mut count = 0;
    for (entity, row) in query.into_data_with_entities(&world) {
        assert_eq!(ViewItem::Component(expected.get(&entity).unwrap().0), row[0]);
        assert_eq!(ViewItem::Component(expected.get(&entity).unwrap().1), row[1]);
        count += 1;

        world.set_component(entity, ROT, Comp::Rot(0.0, 0.0, 0.0));
    }

    assert_eq!(components.len(), count);
}

#[test]
fn query_read_shared_data() {
    let mut universe = Universe::new();
    let mut world: World<Comp> = universe.create_world();

    let shared = shared_static_model5();
    let components = vec![
        (Comp::Pos(1., 2., 3.), Comp::Rot(0.1, 0.2, 0.3)),
        (Comp::Pos(4., 5., 6.), Comp::Rot(0.4, 0.5, 0.6)),
    ];

    insert_pos_rot(&mut universe, &mut world, &shared, &components);

    let query = Shared(STATIC).query();

    let mut count = 0;
    for row in query.into_data(&world) {
        assert_eq!(ViewItem::Tag::<Comp>(0), row[0]);
        count += 1;
    }

    assert_eq!(components.len(), count);
}

#[test]
fn hello_write_read() {
    // Insert four identical records, add velocity onto position through the
    // write query's entities, and check every position doubled per axis.
    let mut universe = Universe::new();
    let mut world: World<Comp> = universe.create_world();

    let rows = vec![
        (Comp::Pos(1., 2., 3.), Comp::Vel(1., 2., 3.)),
        (Comp::Pos(1., 2., 3.), Comp::Vel(1., 2., 3.)),
        (Comp::Pos(1., 2., 3.), Comp::Vel(1., 2., 3.)),
        (Comp::Pos(1., 2., 3.), Comp::Vel(1., 2., 3.)),
    ];
    let pos_col: Vec<Comp> = rows.iter().map(|p| p.0).collect();
    let vel_col: Vec<Comp> = rows.iter().map(|p| p.1).collect();
    let source = IterComponentSource::new(vec![POS, VEL], vec![pos_col, vel_col]);
    let shared = SharedDataSet::new();
    world.insert(&mut universe.allocator, &shared, &source);

    let query = DataView::new().with_write(POS).with_read(VEL).query();
    for (entity, _row) in query.into_data_with_entities(&world) {
        let pos = world.component(entity, POS).unwrap();
        let vel = world.component(entity, VEL).unwrap();
        if let (Comp::Pos(px, py, pz), Comp::Vel(vx, vy, vz)) = (pos, vel) {
            world.set_component(entity, POS, Comp::Pos(px + vx, py + vy, pz + vz));
        } else {
            unreachable!();
        }
    }

    let check = Read(POS).query();
    let mut count = 0;
    for row in check.into_data(&world) {
        assert_eq!(ViewItem::Component(Comp::Pos(2., 4., 6.)), row[0]);
        count += 1;
    }
    assert_eq!(4, count);
}

#[test]
fn delete_middle_preserves_others() {
    // Insert A, B, C with distinct positions, delete B: A and C stay alive
    // and findable at unchanged values, and a read query sees exactly them.
    let mut universe = Universe::new();
    let mut world: World<Comp> = universe.create_world();

    let pos_col = vec![
        Comp::Pos(1., 0., 0.),
        Comp::Pos(2., 0., 0.),
        Comp::Pos(3., 0., 0.),
    ];
    let source = IterComponentSource::new(vec![POS], vec![pos_col]);
    let shared = SharedDataSet::new();
    let entities = world.insert(&mut universe.allocator, &shared, &source);
    let (a, b, c) = (entities[0], entities[1], entities[2]);

    assert_eq!(true, world.delete(b));

    assert_eq!(false, world.is_alive(&b));
    assert_eq!(true, world.is_alive(&a));
    assert_eq!(true, world.is_alive(&c));
    assert_eq!(Some(Comp::Pos(1., 0., 0.)), world.component(a, POS));
    assert_eq!(Some(Comp::Pos(3., 0., 0.)), world.component(c, POS));
    assert_eq!(None, world.component(b, POS));

    let mut seen: Vec<f32> = Vec::new();
    for row in Read(POS).query().into_data(&world) {
        if let ViewItem::Component(Comp::Pos(x, _, _)) = row[0] {
            seen.push(x);
        }
    }
    seen.sort_by(|p, q| p.partial_cmp(q).unwrap());
    assert_eq!(vec![1.0f32, 3.0f32], seen);
}

#[test]
fn shared_value_filter_selects_chunks() {
    // Two entities under Model(1), two under Model(2): filtering on the tag
    // value yields exactly the two positions inserted under Model(1).
    let mut universe = Universe::new();
    let mut world: World<Comp> = universe.create_world();

    let m1 = SharedDataSet::new().with(MODEL, 1);
    let m2 = SharedDataSet::new().with(MODEL, 2);
    let src1 = IterComponentSource::new(
        vec![POS],
        vec![vec![Comp::Pos(1., 0., 0.), Comp::Pos(2., 0., 0.)]],
    );
    let src2 = IterComponentSource::new(
        vec![POS],
        vec![vec![Comp::Pos(3., 0., 0.), Comp::Pos(4., 0., 0.)]],
    );
    world.insert(&mut universe.allocator, &m1, &src1);
    world.insert(&mut universe.allocator, &m2, &src2);

    let query = Read(POS).query().with_shared_data_value(MODEL, 1);
    let mut seen: Vec<f32> = Vec::new();
    for row in query.into_data(&world) {
        if let ViewItem::Component(Comp::Pos(x, _, _)) = row[0] {
            seen.push(x);
        }
    }
    seen.sort_by(|p, q| p.partial_cmp(q).unwrap());
    assert_eq!(vec![1.0f32, 2.0f32], seen);

    let negated = Read(POS).query().without_shared_data_value(MODEL, 1);
    let mut others: Vec<f32> = Vec::new();
    for row in negated.into_data(&world) {
        if let ViewItem::Component(Comp::Pos(x, _, _)) = row[0] {
            others.push(x);
        }
    }
    others.sort_by(|p, q| p.partial_cmp(q).unwrap());
    assert_eq!(vec![3.0f32, 4.0f32], others);
}

#[test]
fn without_entity_data_excludes_archetype() {
    let mut universe = Universe::new();
    let mut world: World<Comp> = universe.create_world();

    let shared = SharedDataSet::new();
    let with_rot = IterComponentSource::new(
        vec![POS, ROT],
        vec![vec![Comp::Pos(1., 0., 0.)], vec![Comp::Rot(0., 0., 0.)]],
    );
    let without_rot = IterComponentSource::new(vec![POS], vec![vec![Comp::Pos(2., 0., 0.)]]);
    world.insert(&mut universe.allocator, &shared, &with_rot);
    world.insert(&mut universe.allocator, &shared, &without_rot);

    let query = Read(POS).query().without_entity_data(ROT);
    let rows = query.into_data(&world);
    assert_eq!(1, rows.len());
    assert_eq!(ViewItem::Component(Comp::Pos(2., 0., 0.)), rows[0][0]);
}

#[test]
fn chunk_overflow_splits_into_chunks() {
    // More entities than one chunk holds: all stay reachable through a
    // query, and the totals agree with what was inserted.
    let mut universe = Universe::new();
    let mut world: World<u64> = universe.create_world();

    let n: usize = 2050;
    let col: Vec<u64> = (0..n as u64).collect();
    let source = IterComponentSource::new(vec![POS], vec![col]);
    let shared = SharedDataSet::new();
    let entities = world.insert(&mut universe.allocator, &shared, &source);
    assert_eq!(n, entities.len());

    let mut sum: u64 = 0;
    let mut count: usize = 0;
    for row in Read(POS).query().into_data(&world) {
        if let ViewItem::Component(v) = row[0] {
            sum += v;
        }
        count += 1;
    }
    assert_eq!(n, count);
    assert_eq!((n as u64) * (n as u64 - 1) / 2, sum);

    // And per-entity lookups agree with the inserted values.
    for (i, e) in entities.iter().enumerate() {
        assert_eq!(Some(i as u64), world.component(*e, POS));
    }
}

#[test]
fn absent_lookups_are_none() {
    let mut universe = Universe::new();
    let mut world: World<Comp> = universe.create_world();

    let unknown = Entity::new(3, 3);
    assert_eq!(None, world.component(unknown, POS));
    assert_eq!(None, world.shared(unknown, MODEL));
    assert_eq!(false, world.set_component(unknown, POS, Comp::Pos(0., 0., 0.)));
    assert_eq!(false, world.delete(unknown));

    let source = IterComponentSource::new(vec![POS], vec![vec![Comp::Pos(1., 0., 0.)]]);
    let shared = SharedDataSet::new().with(MODEL, 5);
    let entities = world.insert(&mut universe.allocator, &shared, &source);
    let e = entities[0];

    // present axes resolve, absent axes stay empty
    assert_eq!(Some(Comp::Pos(1., 0., 0.)), world.component(e, POS));
    assert_eq!(None, world.component(e, ROT));
    assert_eq!(Some(5), world.shared(e, MODEL));
    assert_eq!(None, world.shared(e, STATIC));
    assert_eq!(false, world.set_component(e, VEL, Comp::Vel(0., 0., 0.)));
}

#[test]
fn command_buffer_flushes_in_order() {
    let mut universe = Universe::new();
    let mut world: World<Comp> = universe.create_world();

    let source = IterComponentSource::new(vec![POS], vec![vec![Comp::Pos(1., 0., 0.)]]);
    let shared = SharedDataSet::new();
    let first = world.insert(&mut universe.allocator, &shared, &source)[0];

    let mut buffer: CommandBuffer<Comp> = CommandBuffer::new();
    buffer.insert(
        SharedDataSet::new(),
        IterComponentSource::new(vec![POS], vec![vec![Comp::Pos(2., 0., 0.)]]),
    );
    buffer.delete(first);

    // Nothing happens until the flush.
    assert_eq!(true, world.is_alive(&first));
    assert_eq!(1, Read(POS).query().into_data(&world).len());

    buffer.flush(&mut world, &mut universe.allocator);

    assert_eq!(false, world.is_alive(&first));
    let rows = Read(POS).query().into_data(&world);
    assert_eq!(1, rows.len());
    assert_eq!(ViewItem::Component(Comp::Pos(2., 0., 0.)), rows[0][0]);
    assert_eq!(0, buffer.commands.len());
}
