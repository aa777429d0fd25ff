use std::any::Any;

use ecs::archetype::Migration;
use ecs::bundle::{ComponentBundle, TypeBundle};
use ecs::component::{Component, ComponentBox, ComponentType};
use ecs::entity::{EntityId, Location};
use ecs::errors::{EcsError, EntityError};
use ecs::query::{Access, QueryField, QueryModel, QueryPlan};
use ecs::world::World;

type Erased = Box<dyn Any>;

const A: ComponentType = 1;
const B: ComponentType = 2;
const C: ComponentType = 3;

#[derive(Default, PartialEq, Debug, Clone)]
pub struct TestCompA {
    pub one: u32,
    pub two: String,
}

#[derive(Default, PartialEq, Debug, Clone)]
pub struct TestCompB {
    pub three: f32,
    pub four: String,
}

#[derive(Default, PartialEq, Debug, Clone)]
pub struct TestCompC {
    pub five: Vec<usize>,
    pub six: String,
}

impl Component<Erased> for TestCompA {
    fn component_type() -> ComponentType {
        A
    }

    fn into_payload(self) -> Erased {
        Box::new(self)
    }

    fn from_payload(payload: Erased) -> Option<Self> {
        payload.downcast::<Self>().ok().map(|value| *value)
    }
}

impl Component<Erased> for TestCompB {
    fn component_type() -> ComponentType {
        B
    }

    fn into_payload(self) -> Erased {
        Box::new(self)
    }

    fn from_payload(payload: Erased) -> Option<Self> {
        payload.downcast::<Self>().ok().map(|value| *value)
    }
}

impl Component<Erased> for TestCompC {
    fn component_type() -> ComponentType {
        C
    }

    fn into_payload(self) -> Erased {
        Box::new(self)
    }

    fn from_payload(payload: Erased) -> Option<Self> {
        payload.downcast::<Self>().ok().map(|value| *value)
    }
}

/// The row shape `{ comp_a: &A, comp_b: &mut B, comp_c: &C }`.
pub struct TestDataA;

impl QueryModel for TestDataA {
    fn get_fields() -> Vec<QueryField> {
        vec![
            QueryField { component: A, access: Access::Read },
            QueryField { component: B, access: Access::Write },
            QueryField { component: C, access: Access::Read },
        ]
    }
}

/// The row shape `{ a: &A }`.
pub struct OnlyA;

impl QueryModel for OnlyA {
    fn get_fields() -> Vec<QueryField> {
        vec![QueryField { component: A, access: Access::Read }]
    }
}

/// The row shape `{ a: &A, b: &B }`.
pub struct BothAB;

impl QueryModel for BothAB {
    fn get_fields() -> Vec<QueryField> {
        vec![
            QueryField { component: A, access: Access::Read },
            QueryField { component: B, access: Access::Read },
        ]
    }
}

/// The row shape `{ c: &C }`.
pub struct OnlyC;

impl QueryModel for OnlyC {
    fn get_fields() -> Vec<QueryField> {
        vec![QueryField { component: C, access: Access::Read }]
    }
}

/// The row shape `{ a: &A, again: &mut A }`, which no plan accepts.
pub struct Aliased;

impl QueryModel for Aliased {
    fn get_fields() -> Vec<QueryField> {
        vec![
            QueryField { component: A, access: Access::Read },
            QueryField { component: A, access: Access::Write },
        ]
    }
}

/// The row shape `{ a: &mut A }`.
pub struct WriteA;

impl QueryModel for WriteA {
    fn get_fields() -> Vec<QueryField> {
        vec![QueryField { component: A, access: Access::Write }]
    }
}

fn comp_a(one: u32) -> TestCompA {
    TestCompA { one, two: String::new() }
}

fn comp_b(four: &str) -> TestCompB {
    TestCompB { three: 0.0, four: four.to_string() }
}

fn location(world: &World<Erased>, id: EntityId) -> Location {
    world.entities().entity_status(id).unwrap().unwrap()
}

fn schema_of(world: &World<Erased>, id: EntityId) -> TypeBundle {
    world.archetype(location(world, id).archetype).unwrap().types()
}

fn read_a(world: &World<Erased>, id: EntityId) -> TestCompA {
    let at = location(world, id);
    let store = world.archetype(at.archetype).unwrap().get_storage(A).unwrap();
    store.inner()[at.row].downcast_ref::<TestCompA>().unwrap().clone()
}

fn read_b(world: &World<Erased>, id: EntityId) -> TestCompB {
    let at = location(world, id);
    let store = world.archetype(at.archetype).unwrap().get_storage(B).unwrap();
    store.inner()[at.row].downcast_ref::<TestCompB>().unwrap().clone()
}

/// Every column of every archetype is as long as the archetype's entity
/// list, and every row holds an entity that the registry places there.
fn assert_consistent(world: &World<Erased>) {
    for index in 0..world.archetype_count() {
        let archetype = world.archetype(index).unwrap();
        let types = archetype.types();
        for type_id in types.iter() {
            assert_eq!(archetype.get_storage(*type_id).unwrap().len(), archetype.len());
        }
        for (row, id) in archetype.entities().iter().enumerate() {
            assert_eq!(world.entities().entity_status(*id), Ok(Some(Location::new(index, row))));
            assert_eq!(archetype.get_entity(row), Some(*id));
        }
        for other in 0..index {
            assert!(world.archetype(other).unwrap().types() != types);
        }
    }
}

fn test_system(row: &Vec<&Erased>) -> Vec<Erased> {
    let a: &TestCompA = row[0].downcast_ref::<TestCompA>().unwrap();
    let b: &TestCompB = row[1].downcast_ref::<TestCompB>().unwrap();
    let c: &TestCompC = row[2].downcast_ref::<TestCompC>().unwrap();

    println!("{:?}, {:?}, {:?}", a, b, c);

    let changed = TestCompB { three: b.three + 5., four: "Five".to_string() };

    println!("{:?}, {:?}, {:?}", a, changed, c);

    vec![Box::new(changed)]
}

#[test]
fn test_world_test_world() {
    let mut world: World<Erased> = World::init();

    let bundle: ComponentBundle<Erased> = ComponentBundle::default()
        .insert(TestCompA::default())
        .insert(TestCompC::default());

    let entity_a = world.spawn(bundle).unwrap();

    world
        .migrate(entity_a, Migration::Add(ComponentBox::new(TestCompB::default())))
        .unwrap();

    let visited = world.run_system::<TestDataA, _>(&mut test_system).unwrap();

    assert_eq!(visited, vec![entity_a]);
    assert_eq!(read_b(&world, entity_a), TestCompB { three: 5., four: "Five".to_string() });
    assert_eq!(read_a(&world, entity_a), TestCompA::default());
    assert_consistent(&world);
}

#[test]
fn world_test_world() {
    let mut world: World<Erased> = World::new();

    let bundle: ComponentBundle<Erased> = ComponentBundle::default()
        .insert(TestCompA::default())
        .insert(TestCompC::default());

    let entity_a = world.spawn(bundle).unwrap();

    world
        .migrate(entity_a, Migration::Add(ComponentBox::new(TestCompB::default())))
        .unwrap();

    let mut calls = 0;
    let visited = world
        .run_system::<TestDataA, _>(&mut |row: &Vec<&Erased>| {
            calls += 1;
            test_system(row)
        })
        .unwrap();

    assert_eq!(calls, 1);
    assert_eq!(visited.len(), 1);
    assert!(schema_of(&world, entity_a) == TypeBundle::from_slice(&[A, B, C]));
}

#[test]
fn new_world_has_the_empty_archetype() {
    let world: World<Erased> = World::new();
    assert_eq!(world.archetype_count(), 1);
    assert!(world.archetype(0).unwrap().types() == TypeBundle::new());
    assert_eq!(world.archetype(0).unwrap().len(), 0);
    assert!(world.archetype(1).is_none());
    assert!(!world.in_query());
    assert_eq!(world.entities().len(), 0);
}

#[test]
fn spawn_with_no_components_goes_to_archetype_zero() {
    let mut world: World<Erased> = World::new();
    let id = world.spawn(ComponentBundle::new()).unwrap();
    assert_eq!(location(&world, id), Location::new(0, 0));
    assert_eq!(world.archetype_count(), 1);
    assert_consistent(&world);
}

#[test]
fn inclusive_queries_find_the_spawned_entity() {
    let mut world: World<Erased> = World::new();
    let bundle = ComponentBundle::new().insert(comp_a(1)).insert(comp_b("x"));
    let id = world.spawn(bundle).unwrap();

    let mut seen: Vec<u32> = Vec::new();
    let visited = world
        .run_system::<OnlyA, _>(&mut |row: &Vec<&Erased>| {
            seen.push(row[0].downcast_ref::<TestCompA>().unwrap().one);
            Vec::new()
        })
        .unwrap();
    assert_eq!(visited, vec![id]);
    assert_eq!(seen, vec![1]);

    let mut rows = 0;
    let visited = world
        .run_system::<BothAB, _>(&mut |row: &Vec<&Erased>| {
            assert_eq!(row.len(), 2);
            assert_eq!(row[1].downcast_ref::<TestCompB>().unwrap().four, "x");
            rows += 1;
            Vec::new()
        })
        .unwrap();
    assert_eq!(visited, vec![id]);
    assert_eq!(rows, 1);

    let mut rows = 0;
    let visited = world
        .run_system::<OnlyC, _>(&mut |_row: &Vec<&Erased>| {
            rows += 1;
            Vec::new()
        })
        .unwrap();
    assert!(visited.is_empty());
    assert_eq!(rows, 0);
}

#[test]
fn kill_leaves_the_other_entity() {
    let mut world: World<Erased> = World::new();
    let first = world
        .spawn(ComponentBundle::new().insert(comp_a(1)).insert(comp_b("first")))
        .unwrap();
    let second = world
        .spawn(ComponentBundle::new().insert(comp_a(2)).insert(comp_b("second")))
        .unwrap();

    assert_eq!(world.kill(first), Ok(()));

    let mut seen: Vec<(u32, String)> = Vec::new();
    let visited = world
        .run_system::<BothAB, _>(&mut |row: &Vec<&Erased>| {
            seen.push((
                row[0].downcast_ref::<TestCompA>().unwrap().one,
                row[1].downcast_ref::<TestCompB>().unwrap().four.clone(),
            ));
            Vec::new()
        })
        .unwrap();
    assert_eq!(visited, vec![second]);
    assert_eq!(seen, vec![(2, "second".to_string())]);

    // The id is not reused yet: its slot has moved on to the next generation.
    assert_eq!(world.entities().entity_status(first), Err(EntityError::WrongGen));
    assert_eq!(world.kill(first), Err(EcsError::EntityWrongGeneration));
    assert_eq!(location(&world, second), Location::new(1, 0));

    // Once the index is reused, the old id still does not match.
    let third = world.spawn(ComponentBundle::new().insert(comp_a(3))).unwrap();
    assert_eq!(third, EntityId { id: first.id, generation: first.generation + 1 });
    assert_eq!(world.entities().entity_status(first), Err(EntityError::WrongGen));
    assert_consistent(&world);
}

#[test]
fn migrate_walks_and_caches_edges() {
    let mut world: World<Erased> = World::new();
    let e = world.spawn(ComponentBundle::new().insert(comp_a(1))).unwrap();
    assert!(schema_of(&world, e) == TypeBundle::from_slice(&[A]));

    assert_eq!(world.migrate(e, Migration::Add(ComponentBox::new(comp_b("b")))), Ok(()));
    assert!(schema_of(&world, e) == TypeBundle::from_slice(&[A, B]));
    assert_eq!(read_a(&world, e), comp_a(1));
    assert_eq!(read_b(&world, e), comp_b("b"));

    assert_eq!(world.migrate(e, Migration::Remove(A)), Ok(()));
    assert!(schema_of(&world, e) == TypeBundle::from_slice(&[B]));
    assert_eq!(read_b(&world, e), comp_b("b"));

    // The empty archetype and those of {A}, {A, B} and {B}.
    assert_eq!(world.archetype_count(), 4);
    let of_a = 1;
    let of_ab = 2;
    let of_b = 3;
    assert_eq!(world.archetype(of_a).unwrap().edge(B), Some(of_ab));
    assert_eq!(world.archetype(of_ab).unwrap().edge(B), Some(of_a));
    assert_eq!(world.archetype(of_ab).unwrap().edge(A), Some(of_b));
    assert_eq!(world.archetype(of_b).unwrap().edge(A), Some(of_ab));
    assert_eq!(world.archetype(of_a).unwrap().edge(A), None);

    // The same way again, for another entity: no archetype is made.
    let other = world.spawn(ComponentBundle::new().insert(comp_a(2))).unwrap();
    assert_eq!(world.migrate(other, Migration::Add(ComponentBox::new(comp_b("c")))), Ok(()));
    assert_eq!(world.migrate(other, Migration::Remove(A)), Ok(()));
    assert_eq!(world.archetype_count(), 4);
    assert_eq!(location(&world, other), Location::new(of_b, 1));
    assert_eq!(read_b(&world, other), comp_b("c"));
    assert_eq!(read_b(&world, e), comp_b("b"));
    assert_consistent(&world);
}

#[test]
fn migrate_to_an_older_archetype() {
    let mut world: World<Erased> = World::new();
    let e = world
        .spawn(ComponentBundle::new().insert(comp_a(1)).insert(comp_b("b")))
        .unwrap();
    // Detaching both components leads back to the archetype at index 0.
    assert_eq!(world.migrate(e, Migration::Remove(A)), Ok(()));
    assert_eq!(world.migrate(e, Migration::Remove(B)), Ok(()));
    assert_eq!(location(&world, e), Location::new(0, 0));
    assert!(schema_of(&world, e) == TypeBundle::new());
    assert_consistent(&world);
}

#[test]
fn migrate_updates_the_entity_that_fills_the_gap() {
    let mut world: World<Erased> = World::new();
    let first = world.spawn(ComponentBundle::new().insert(comp_a(1))).unwrap();
    let second = world.spawn(ComponentBundle::new().insert(comp_a(2))).unwrap();
    let third = world.spawn(ComponentBundle::new().insert(comp_a(3))).unwrap();
    assert_eq!(world.migrate(first, Migration::Add(ComponentBox::new(comp_b("b")))), Ok(()));
    assert_eq!(location(&world, third), Location::new(1, 0));
    assert_eq!(location(&world, second), Location::new(1, 1));
    assert_eq!(location(&world, first), Location::new(2, 0));
    assert_eq!(read_a(&world, first), comp_a(1));
    assert_eq!(read_a(&world, second), comp_a(2));
    assert_eq!(read_a(&world, third), comp_a(3));
    assert_consistent(&world);
}

#[test]
fn thousand_entities_half_killed() {
    let mut world: World<Erased> = World::new();
    let mut ids: Vec<EntityId> = Vec::new();
    for k in 0..1000 {
        ids.push(world.spawn(ComponentBundle::new().insert(comp_a(k))).unwrap());
    }
    for k in (0..1000).step_by(2) {
        assert_eq!(world.kill(ids[k]), Ok(()));
    }
    let mut seen: Vec<u32> = Vec::new();
    let visited = world
        .run_system::<OnlyA, _>(&mut |row: &Vec<&Erased>| {
            seen.push(row[0].downcast_ref::<TestCompA>().unwrap().one);
            Vec::new()
        })
        .unwrap();
    assert_eq!(visited.len(), 500);
    assert_eq!(seen.len(), 500);
    seen.sort();
    let odd: Vec<u32> = (0..1000).filter(|k| k % 2 == 1).collect();
    assert_eq!(seen, odd);
    assert_eq!(world.archetype(1).unwrap().len(), 500);
    assert_eq!(world.archetype(1).unwrap().get_storage(A).unwrap().len(), 500);
    assert_consistent(&world);
}

#[test]
fn aliasing_query_fails_before_any_call() {
    let mut world: World<Erased> = World::new();
    world.spawn(ComponentBundle::new().insert(comp_a(1))).unwrap();
    let mut calls = 0;
    let result = world.run_system::<Aliased, _>(&mut |_row: &Vec<&Erased>| {
        calls += 1;
        Vec::new()
    });
    assert_eq!(result, Err(EcsError::QueryAliasingViolation));
    assert_eq!(calls, 0);
}

#[test]
fn structural_changes_are_refused_during_a_query() {
    let mut world: World<Erased> = World::new();
    let e = world.spawn(ComponentBundle::new().insert(comp_a(1))).unwrap();
    let count = world.archetype_count();

    assert!(!world.begin_query());
    assert!(world.in_query());
    assert_eq!(
        world.migrate(e, Migration::Add(ComponentBox::new(TestCompC::default()))),
        Err(EcsError::StructuralMutationDuringQuery)
    );
    assert_eq!(
        world.spawn(ComponentBundle::new().insert(comp_a(2))).err(),
        Some(EcsError::StructuralMutationDuringQuery)
    );
    assert_eq!(world.kill(e), Err(EcsError::StructuralMutationDuringQuery));
    assert!(world.begin_query());

    // The world is as it was.
    assert_eq!(world.archetype_count(), count);
    assert_eq!(location(&world, e), Location::new(1, 0));
    assert!(schema_of(&world, e) == TypeBundle::from_slice(&[A]));
    assert_eq!(read_a(&world, e), comp_a(1));
    assert_eq!(world.entities().len(), 1);

    world.end_query();
    assert!(!world.in_query());
    assert_eq!(world.migrate(e, Migration::Add(ComponentBox::new(TestCompC::default()))), Ok(()));
    assert!(schema_of(&world, e) == TypeBundle::from_slice(&[A, C]));
}

#[test]
fn attach_then_detach_restores_the_schema() {
    let mut world: World<Erased> = World::new();
    let e = world.spawn(ComponentBundle::new().insert(comp_a(1))).unwrap();
    let before = schema_of(&world, e);
    world.migrate(e, Migration::Add(ComponentBox::new(comp_b("b")))).unwrap();
    world.migrate(e, Migration::Remove(B)).unwrap();
    assert!(schema_of(&world, e) == before);
    assert_eq!(location(&world, e).archetype, 1);
    assert_eq!(read_a(&world, e), comp_a(1));
    assert_consistent(&world);
}

#[test]
fn spawn_then_kill_frees_the_index_for_reuse() {
    let mut world: World<Erased> = World::new();
    let id = world.spawn(ComponentBundle::new().insert(comp_a(1))).unwrap();
    assert_eq!(id, EntityId { id: 0, generation: 0 });
    world.kill(id).unwrap();
    assert_consistent(&world);
    assert_eq!(world.archetype(1).unwrap().len(), 0);
    let next = world.spawn(ComponentBundle::new().insert(comp_b("b"))).unwrap();
    assert_eq!(next, EntityId { id: 0, generation: 1 });
    assert_consistent(&world);
}

#[test]
fn idle_system_changes_nothing() {
    let mut world: World<Erased> = World::new();
    let first = world.spawn(ComponentBundle::new().insert(comp_a(1))).unwrap();
    let second = world
        .spawn(ComponentBundle::new().insert(comp_a(2)).insert(comp_b("b")))
        .unwrap();
    let count = world.archetype_count();
    let visited = world
        .run_system::<WriteA, _>(&mut |_row: &Vec<&Erased>| Vec::new())
        .unwrap();
    assert_eq!(visited, vec![first, second]);
    assert_eq!(world.archetype_count(), count);
    assert_eq!(location(&world, first), Location::new(1, 0));
    assert_eq!(location(&world, second), Location::new(2, 0));
    assert_eq!(read_a(&world, first), comp_a(1));
    assert_eq!(read_a(&world, second), comp_a(2));
    assert_eq!(read_b(&world, second), comp_b("b"));
    assert_consistent(&world);
}

#[test]
fn system_writes_go_to_the_row_that_was_shown() {
    let mut world: World<Erased> = World::new();
    let mut ids: Vec<EntityId> = Vec::new();
    for k in 0..5 {
        ids.push(world.spawn(ComponentBundle::new().insert(comp_a(k))).unwrap());
    }
    let with_b = world
        .spawn(ComponentBundle::new().insert(comp_a(100)).insert(comp_b("b")))
        .unwrap();
    let visited = world
        .run_system::<WriteA, _>(&mut |row: &Vec<&Erased>| {
            let a = row[0].downcast_ref::<TestCompA>().unwrap();
            let doubled: Erased = Box::new(comp_a(a.one * 2));
            // A second value has no field to go to and is dropped.
            let surplus: Erased = Box::new(comp_a(999));
            vec![doubled, surplus]
        })
        .unwrap();
    let mut expected = ids.clone();
    expected.push(with_b);
    assert_eq!(visited, expected);
    for (k, id) in ids.iter().enumerate() {
        assert_eq!(read_a(&world, *id), comp_a(2 * k as u32));
    }
    assert_eq!(read_a(&world, with_b), comp_a(200));
    assert_eq!(read_b(&world, with_b), comp_b("b"));
}

#[test]
fn run_plan_visits_archetypes_in_order_of_creation() {
    let mut world: World<Erased> = World::new();
    let ab = world
        .spawn(ComponentBundle::new().insert(comp_a(1)).insert(comp_b("b")))
        .unwrap();
    let a1 = world.spawn(ComponentBundle::new().insert(comp_a(2))).unwrap();
    let b = world.spawn(ComponentBundle::new().insert(comp_b("c"))).unwrap();
    let a2 = world.spawn(ComponentBundle::new().insert(comp_a(3))).unwrap();
    let plan = QueryPlan::build(vec![QueryField { component: A, access: Access::Read }]).unwrap();
    let visited = world.run_plan(&plan, &mut |_row: &Vec<&Erased>| Vec::new());
    assert_eq!(visited, vec![ab, a1, a2]);
    assert_eq!(location(&world, b), Location::new(3, 0));

    assert_eq!(world.get_archetypes_inclusive(&TypeBundle::from_slice(&[A])), vec![1, 2]);
    assert_eq!(world.get_archetypes_inclusive(&TypeBundle::from_slice(&[B])), vec![1, 3]);
    assert_eq!(world.get_archetypes_inclusive(&TypeBundle::from_slice(&[A, B])), vec![1]);
    assert_eq!(world.get_archetypes_inclusive(&TypeBundle::from_slice(&[C])), Vec::<usize>::new());
    assert_eq!(world.get_archetypes_inclusive(&TypeBundle::new()), vec![0, 1, 2, 3]);

    // A cached list learns of archetypes that are made later.
    let abc = world
        .spawn(
            ComponentBundle::new()
                .insert(comp_a(4))
                .insert(comp_b("d"))
                .insert(TestCompC::default()),
        )
        .unwrap();
    assert_eq!(location(&world, abc), Location::new(4, 0));
    assert_eq!(world.get_archetypes_inclusive(&TypeBundle::from_slice(&[A])), vec![1, 2, 4]);
    assert_eq!(world.get_archetypes_inclusive(&TypeBundle::from_slice(&[C])), vec![4]);
    assert_eq!(world.get_archetypes_inclusive(&TypeBundle::from_slice(&[A, B])), vec![1, 4]);
}

#[test]
fn spawn_rejects_duplicate_types() {
    let mut world: World<Erased> = World::new();
    let bundle = ComponentBundle::new().insert(comp_a(1)).insert(comp_a(2));
    assert_eq!(world.spawn(bundle).err(), Some(EcsError::DuplicateTypeInBundle));
    assert_eq!(world.entities().len(), 0);
    assert_eq!(world.archetype_count(), 1);
}

#[test]
fn spawn_fails_when_ids_run_out() {
    let mut world: World<Erased> = World::with_limit(1);
    let id = world.spawn(ComponentBundle::new().insert(comp_a(1))).unwrap();
    assert_eq!(
        world.spawn(ComponentBundle::new().insert(comp_a(2))).err(),
        Some(EcsError::OutOfEntityIds)
    );
    assert_eq!(world.archetype(1).unwrap().len(), 1);
    world.kill(id).unwrap();
    assert!(world.spawn(ComponentBundle::new().insert(comp_a(3))).is_ok());
}

#[test]
fn migrate_reports_its_errors() {
    let mut world: World<Erased> = World::new();
    let e = world.spawn(ComponentBundle::new().insert(comp_a(1))).unwrap();
    assert_eq!(
        world.migrate(e, Migration::Add(ComponentBox::new(comp_a(2)))),
        Err(EcsError::ComponentAlreadyPresent)
    );
    assert_eq!(world.migrate(e, Migration::Remove(B)), Err(EcsError::ComponentNotPresent));
    assert_eq!(
        world.migrate(EntityId { id: 7, generation: 0 }, Migration::Remove(A)),
        Err(EcsError::EntityNotFound)
    );
    assert_eq!(
        world.migrate(EntityId { id: 0, generation: 1 }, Migration::Remove(A)),
        Err(EcsError::EntityWrongGeneration)
    );
    assert_eq!(world.kill(EntityId { id: 7, generation: 0 }), Err(EcsError::EntityNotFound));
    assert_eq!(read_a(&world, e), comp_a(1));
    assert_eq!(world.archetype_count(), 2);
    assert!(Migration::<Erased>::Remove(A).is_add() == false);
    assert!(Migration::Add(ComponentBox::<Erased>::new(comp_a(1))).is_add());
    assert_eq!(Migration::<Erased>::Remove(B).delta_type(), B);
}

#[test]
fn freed_id_of_the_current_generation_is_already_freed() {
    let mut world: World<Erased> = World::new();
    let id = world.spawn(ComponentBundle::new().insert(comp_a(1))).unwrap();
    world.kill(id).unwrap();
    // The slot waits for reuse with the next generation and no location.
    let waiting = EntityId { id: id.id, generation: id.generation + 1 };
    assert_eq!(world.entities().entity_status(waiting), Ok(None));
    assert_eq!(world.kill(waiting), Err(EcsError::EntityAlreadyFreed));
    assert_eq!(world.migrate(waiting, Migration::Remove(A)), Err(EcsError::EntityAlreadyFreed));
    assert_eq!(world.kill(id), Err(EcsError::EntityWrongGeneration));
    assert_consistent(&world);
}

#[test]
fn init_world_is_empty() {
    let world: World<Erased> = World::init();
    assert_eq!(world.archetype_count(), 1);
    let only = world.archetype(0).unwrap();
    assert!(only.types() == TypeBundle::new());
    assert!(only.entities().is_empty());
    assert_eq!(only.edge(A), None);
    assert_eq!(only.edge(B), None);
    assert!(world.entities().entities().is_empty());
    assert!(world.entities().freed().is_empty());
    assert!(!world.in_query());
    assert_eq!(
        world.entities().entity_status(EntityId { id: 0, generation: 0 }),
        Err(EntityError::NotFound)
    );
}
