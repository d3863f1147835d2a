use hydro::query::{DataView, Read};
use hydro::resource::Resources;
use hydro::schedule::{
    bitset_new, filter_archetypes, ArchetypeSet, StageExecutor, SystemAccess, SystemBuilder,
};
use hydro::world::{IterComponentSource, SharedDataSet, Universe, World};
use std::collections::HashMap;

#[derive(Clone, Copy, Debug, PartialEq)]
enum Comp {
    Pos(f32, f32, f32),
    Vel(f32, f32, f32),
}

const POS: u32 = 0;
const VEL: u32 = 1;
const TEST_RESOURCE: u32 = 100;

#[derive(Debug, Eq, PartialEq)]
pub enum TestSystems {
    TestSystemOne,
    TestSystemTwo,
}

fn insert_pos_vel(
    universe: &mut Universe,
    world: &mut World<Comp>,
    components: &[(Comp, Comp)],
) -> Vec<hydro::entity::Entity> {
    let pos_col: Vec<Comp> = components.iter().map(|p| p.0).collect();
    let vel_col: Vec<Comp> = components.iter().map(|p| p.1).collect();
    let source = IterComponentSource::new(vec![POS, VEL], vec![pos_col, vel_col]);
    let shared = SharedDataSet::new();
    world.insert(&mut universe.allocator, &shared, &source)
}

/// Run every system in the stage's declaration order, checking readiness
/// against the prepared graph before each start.
fn run_stage<F: FnMut(usize)>(executor: &StageExecutor, n: usize, mut run: F) {
    let order = executor.execute_order();
    let mut completed = vec![false; n];
    for &i in order.iter() {
        assert!(executor.ready(i, &completed));
        run(i);
        completed[i] = true;
    }
}

#[test]
fn builder_schedule_execute() {
    let mut universe = Universe::new();
    let mut world: World<Comp> = universe.create_world();
    let mut resources: Resources<i32> = Resources::new();
    resources.insert(TEST_RESOURCE, 123);

    let components = vec![
        (Comp::Pos(1., 2., 3.), Comp::Vel(0.1, 0.2, 0.3)),
        (Comp::Pos(4., 5., 6.), Comp::Vel(0.4, 0.5, 0.6)),
    ];

    let mut expected = HashMap::<hydro::entity::Entity, (Comp, Comp)>::new();
    for (i, e) in insert_pos_vel(&mut universe, &mut world, &components)
        .iter()
        .enumerate()
    {
        if let Some((pos, rot)) = components.get(i) {
            expected.insert(*e, (*pos, *rot));
        }
    }

    let q_pos = Read(POS).query();
    let q_vel = Read(VEL).query();

    let system_one: SystemAccess = SystemBuilder::new("TestSystem1".to_string())
        .read_resource(TEST_RESOURCE)
        .with_query(&q_pos)
        .with_query(&q_vel)
        .build();
    let system_two: SystemAccess = SystemBuilder::new("TestSystem2".to_string())
        .read_resource(TEST_RESOURCE)
        .with_query(&q_vel)
        .build();

    let systems = vec![system_one, system_two];
    let mut executor = StageExecutor::new(&systems);

    let mut set_one = bitset_new();
    filter_archetypes(&q_pos, &world, &mut set_one);
    filter_archetypes(&q_vel, &world, &mut set_one);
    let mut set_two = bitset_new();
    filter_archetypes(&q_vel, &world, &mut set_two);
    let sets: Vec<ArchetypeSet> = vec![set_one, set_two];
    executor.prepare(&sets);

    let mut runs: Vec<TestSystems> = Vec::new();
    run_stage(&executor, systems.len(), |i| {
        if i == 0 {
            runs.push(TestSystems::TestSystemOne);
        } else {
            runs.push(TestSystems::TestSystemTwo);
        }
    });

    let order = vec![TestSystems::TestSystemOne, TestSystems::TestSystemTwo];
    assert_eq!(order, runs);
}

#[test]
fn builder_create_and_execute() {
    let mut universe = Universe::new();
    let mut world: World<Comp> = universe.create_world();
    let mut resources: Resources<i32> = Resources::new();
    resources.insert(TEST_RESOURCE, 123);

    let components = vec![
        (Comp::Pos(1., 2., 3.), Comp::Vel(0.1, 0.2, 0.3)),
        (Comp::Pos(4., 5., 6.), Comp::Vel(0.4, 0.5, 0.6)),
    ];

    let mut expected = HashMap::<hydro::entity::Entity, (Comp, Comp)>::new();
    for (i, e) in insert_pos_vel(&mut universe, &mut world, &components)
        .iter()
        .enumerate()
    {
        if let Some((pos, rot)) = components.get(i) {
            expected.insert(*e, (*pos, *rot));
        }
    }

    let q_pos = Read(POS).query();
    let q_vel = Read(VEL).query();
    let system: SystemAccess = SystemBuilder::new("TestSystem".to_string())
        .read_resource(TEST_RESOURCE)
        .with_query(&q_pos)
        .with_query(&q_vel)
        .build();

    let systems = vec![system];
    let mut executor = StageExecutor::new(&systems);
    let mut set = bitset_new();
    filter_archetypes(&q_pos, &world, &mut set);
    filter_archetypes(&q_vel, &world, &mut set);
    executor.prepare(&vec![set]);

    run_stage(&executor, systems.len(), |_i| {
        assert_eq!(*resources.get(TEST_RESOURCE).unwrap(), 123);
        let mut count = 0;
        for (entity, row) in q_pos.into_data_with_entities(&world) {
            assert_eq!(
                hydro::query::ViewItem::Component(expected.get(&entity).unwrap().0),
                row[0]
            );
            count += 1;
        }
        assert_eq!(components.len(), count);
    });
}

#[test]
fn fnmut_stateful_system_test() {
    let mut universe = Universe::new();
    let mut world: World<Comp> = universe.create_world();
    let mut resources: Resources<i32> = Resources::new();
    resources.insert(TEST_RESOURCE, 123);

    let components = vec![
        (Comp::Pos(1., 2., 3.), Comp::Vel(0.1, 0.2, 0.3)),
        (Comp::Pos(4., 5., 6.), Comp::Vel(0.4, 0.5, 0.6)),
    ];
    insert_pos_vel(&mut universe, &mut world, &components);

    let q_pos = Read(POS).query();
    let q_vel = Read(VEL).query();
    let system: SystemAccess = SystemBuilder::new("TestSystem".to_string())
        .read_resource(TEST_RESOURCE)
        .with_query(&q_pos)
        .with_query(&q_vel)
        .build();

    let systems = vec![system];
    let mut executor = StageExecutor::new(&systems);
    let mut set = bitset_new();
    filter_archetypes(&q_pos, &world, &mut set);
    filter_archetypes(&q_vel, &world, &mut set);
    executor.prepare(&vec![set]);

    let mut state = 0;
    run_stage(&executor, systems.len(), |_i| {
        state += 1;
    });
    assert_eq!(1, state);
}

#[test]
fn resource_write_orders_reader() {
    // One system writes a resource, a later one reads it: the reader is not
    // ready until the writer completed.
    let writer: SystemAccess = SystemBuilder::new("writer".to_string())
        .write_resource(TEST_RESOURCE)
        .build();
    let reader: SystemAccess = SystemBuilder::new("reader".to_string())
        .read_resource(TEST_RESOURCE)
        .build();
    let systems = vec![writer, reader];
    let executor = StageExecutor::new(&systems);

    let completed = vec![false, false];
    assert!(executor.ready(0, &completed));
    assert!(!executor.ready(1, &completed));
    let completed = vec![true, false];
    assert!(executor.ready(1, &completed));
}

#[test]
fn component_writers_promoted_when_archetypes_intersect() {
    // Two systems write the same component. With intersecting archetype
    // sets the provisional edge is promoted, with disjoint sets it is not.
    let mut universe = Universe::new();
    let mut world: World<Comp> = universe.create_world();
    let components = vec![(Comp::Pos(1., 2., 3.), Comp::Vel(0.1, 0.2, 0.3))];
    insert_pos_vel(&mut universe, &mut world, &components);

    let q_write = DataView::new().with_write(POS).query();
    let one: SystemAccess = SystemBuilder::new("one".to_string()).with_query(&q_write).build();
    let two: SystemAccess = SystemBuilder::new("two".to_string()).with_query(&q_write).build();
    let systems = vec![one, two];

    // Intersecting archetype sets: the second system must wait.
    let mut executor = StageExecutor::new(&systems);
    let mut set_one = bitset_new();
    filter_archetypes(&q_write, &world, &mut set_one);
    let mut set_two = bitset_new();
    filter_archetypes(&q_write, &world, &mut set_two);
    executor.prepare(&vec![set_one, set_two]);
    let completed = vec![false, false];
    assert!(executor.ready(0, &completed));
    assert!(!executor.ready(1, &completed));

    // Disjoint archetype sets: both may start at once.
    let one2: SystemAccess = SystemBuilder::new("one".to_string()).with_query(&q_write).build();
    let two2: SystemAccess = SystemBuilder::new("two".to_string()).with_query(&q_write).build();
    let systems2 = vec![one2, two2];
    let mut executor2 = StageExecutor::new(&systems2);
    let mut set_three = bitset_new();
    filter_archetypes(&q_write, &world, &mut set_three);
    let set_four = bitset_new();
    executor2.prepare(&vec![set_three, set_four]);
    let completed2 = vec![false, false];
    assert!(executor2.ready(0, &completed2));
    assert!(executor2.ready(1, &completed2));
}

#[test]
fn awaiting_counters_match_dependency_counts() {
    let writer: SystemAccess = SystemBuilder::new("writer".to_string())
        .write_resource(TEST_RESOURCE)
        .build();
    let reader: SystemAccess = SystemBuilder::new("reader".to_string())
        .read_resource(TEST_RESOURCE)
        .build();
    let systems = vec![writer, reader];
    let mut executor = StageExecutor::new(&systems);
    executor.init_awaiting();
    assert_eq!(executor.awaiting, executor.static_dependancy_counts);
    assert_eq!(0, executor.awaiting[0]);
    assert_eq!(1, executor.awaiting[1]);
}
