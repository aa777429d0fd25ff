use ecs::archetype::{Archetype, Migration};
use ecs::bundle::{ComponentBundle, TypeBundle};
use ecs::component::ComponentBox;
use ecs::entity::EntityId;
use ecs::errors::{EcsError, StoreError};
use ecs::query::{Access, QueryField, QueryPlan};

fn id(index: u32) -> EntityId {
    EntityId { id: index, generation: 0 }
}

fn bundle(parts: &[(u64, i64)]) -> ComponentBundle<i64> {
    let mut bundle = ComponentBundle::new();
    for (type_id, value) in parts {
        bundle.insert_box(ComponentBox::from_parts(*type_id, *value));
    }
    bundle
}

fn column(archetype: &Archetype<i64>, type_id: u64) -> Vec<i64> {
    archetype.get_storage(type_id).unwrap().inner().clone()
}

#[test]
fn new_archetype_holds_the_first_entity() {
    let archetype = Archetype::new(bundle(&[(7, 70), (3, 30)]), id(4));
    assert!(archetype.types() == TypeBundle::from_slice(&[3, 7]));
    assert!(*archetype.type_bundle() == TypeBundle::from_slice(&[3, 7]));
    assert_eq!(archetype.entities(), &vec![id(4)]);
    assert_eq!(archetype.len(), 1);
    assert_eq!(column(&archetype, 3), vec![30]);
    assert_eq!(column(&archetype, 7), vec![70]);
    assert!(archetype.has_type(3));
    assert!(!archetype.has_type(4));
    assert!(matches!(archetype.get_storage(4), Err(StoreError::StorageNotFound)));
    assert_eq!(archetype.get_entity(0), Some(id(4)));
    assert_eq!(archetype.get_entity(1), None);
    assert_eq!(archetype.edge(3), None);
}

#[test]
fn default_archetype_is_empty() {
    let archetype: Archetype<i64> = Archetype::default();
    assert!(archetype.types() == TypeBundle::new());
    assert_eq!(archetype.len(), 0);
}

#[test]
fn add_appends_a_row_to_every_column() {
    let mut archetype = Archetype::new(bundle(&[(1, 10), (2, 20)]), id(0));
    assert_eq!(archetype.add(bundle(&[(2, 21), (1, 11)]), id(1)), 1);
    assert_eq!(archetype.add(bundle(&[(1, 12), (2, 22)]), id(2)), 2);
    assert_eq!(archetype.entities(), &vec![id(0), id(1), id(2)]);
    assert_eq!(column(&archetype, 1), vec![10, 11, 12]);
    assert_eq!(column(&archetype, 2), vec![20, 21, 22]);
}

#[test]
fn remove_swaps_the_last_row_in() {
    let mut archetype = Archetype::new(bundle(&[(1, 10), (2, 20)]), id(0));
    archetype.add(bundle(&[(1, 11), (2, 21)]), id(1));
    archetype.add(bundle(&[(1, 12), (2, 22)]), id(2));
    assert_eq!(archetype.remove(0), id(2));
    assert_eq!(archetype.entities(), &vec![id(2), id(1)]);
    assert_eq!(column(&archetype, 1), vec![12, 11]);
    assert_eq!(column(&archetype, 2), vec![22, 21]);
    // Removing the last row returns the removed entity itself.
    assert_eq!(archetype.remove(1), id(1));
    assert_eq!(archetype.entities(), &vec![id(2)]);
    assert_eq!(column(&archetype, 1), vec![12]);
}

#[test]
fn migrate_to_bundle_hands_out_the_row() {
    let mut archetype = Archetype::new(bundle(&[(1, 10), (2, 20)]), id(0));
    archetype.add(bundle(&[(1, 11), (2, 21)]), id(1));
    let (moved, row) = archetype.migrate_to_bundle(0);
    assert_eq!(moved, id(1));
    assert!(row.types() == TypeBundle::from_slice(&[1, 2]));
    let parts: Vec<(u64, i64)> =
        row.component_iter().into_iter().map(|b| (b.type_id, b.component)).collect();
    assert_eq!(parts, vec![(1, 10), (2, 20)]);
    assert_eq!(archetype.entities(), &vec![id(1)]);
    assert_eq!(column(&archetype, 1), vec![11]);
    assert_eq!(column(&archetype, 2), vec![21]);
}

#[test]
fn migrate_add_moves_the_row_and_pushes_the_component() {
    let mut source = Archetype::new(bundle(&[(1, 10), (3, 30)]), id(0));
    source.add(bundle(&[(1, 11), (3, 31)]), id(1));
    source.add(bundle(&[(1, 12), (3, 32)]), id(2));
    let mut target = Archetype::new(bundle(&[(1, 100), (2, 200), (3, 300)]), id(9));
    let (moved, row) = source.migrate(&mut target, 0, Migration::Add(ComponentBox::from_parts(2, 20)));
    assert_eq!((moved, row), (id(2), 1));
    assert_eq!(source.entities(), &vec![id(2), id(1)]);
    assert_eq!(column(&source, 1), vec![12, 11]);
    assert_eq!(column(&source, 3), vec![32, 31]);
    assert_eq!(target.entities(), &vec![id(9), id(0)]);
    assert_eq!(column(&target, 1), vec![100, 10]);
    assert_eq!(column(&target, 2), vec![200, 20]);
    assert_eq!(column(&target, 3), vec![300, 30]);
}

#[test]
fn migrate_remove_moves_the_row_and_drops_the_component() {
    let mut source = Archetype::new(bundle(&[(1, 10), (2, 20), (3, 30)]), id(0));
    source.add(bundle(&[(1, 11), (2, 21), (3, 31)]), id(1));
    let mut target = Archetype::with_schema(TypeBundle::from_slice(&[1, 3]));
    let (moved, row) = source.migrate(&mut target, 1, Migration::Remove(2));
    assert_eq!((moved, row), (id(1), 0));
    assert_eq!(source.entities(), &vec![id(0)]);
    assert_eq!(column(&source, 1), vec![10]);
    assert_eq!(column(&source, 2), vec![20]);
    assert_eq!(column(&source, 3), vec![30]);
    assert_eq!(target.entities(), &vec![id(1)]);
    assert_eq!(column(&target, 1), vec![11]);
    assert_eq!(column(&target, 3), vec![31]);
}

#[test]
fn edges_are_recorded() {
    let mut archetype: Archetype<i64> = Archetype::default();
    archetype.set_edge(5, 3);
    assert_eq!(archetype.edge(5), Some(3));
    assert_eq!(archetype.edge(6), None);
    archetype.set_edge(5, 4);
    assert_eq!(archetype.edge(5), Some(4));
}

#[test]
fn run_rows_shows_fields_in_order_and_writes_answers() {
    let mut archetype = Archetype::new(bundle(&[(1, 10), (2, 20), (3, 30)]), id(0));
    archetype.add(bundle(&[(1, 11), (2, 21), (3, 31)]), id(1));
    let plan = QueryPlan::build(vec![
        QueryField { component: 3, access: Access::Write },
        QueryField { component: 1, access: Access::Read },
        QueryField { component: 2, access: Access::Write },
    ])
    .unwrap();
    let mut shown: Vec<Vec<i64>> = Vec::new();
    archetype.run_rows(&plan, &mut |row: &Vec<&i64>| {
        shown.push(row.iter().map(|value| **value).collect());
        // New values for the fields to write: first type 3, then type 2.
        vec![*row[0] + *row[1], -*row[2]]
    });
    assert_eq!(shown, vec![vec![30, 10, 20], vec![31, 11, 21]]);
    assert_eq!(column(&archetype, 1), vec![10, 11]);
    assert_eq!(column(&archetype, 2), vec![-20, -21]);
    assert_eq!(column(&archetype, 3), vec![40, 42]);

    // An answer that is too short leaves the later fields as they are.
    archetype.run_rows(&plan, &mut |_row: &Vec<&i64>| vec![7]);
    assert_eq!(column(&archetype, 2), vec![-20, -21]);
    assert_eq!(column(&archetype, 3), vec![7, 7]);
}

#[test]
fn store_errors_lift() {
    assert_eq!(EcsError::from(StoreError::CannotCastToType), EcsError::TypeMismatch);
    assert_eq!(EcsError::from(StoreError::TypeNotFound), EcsError::ComponentNotPresent);
    assert_eq!(EcsError::from(StoreError::StorageNotFound), EcsError::ComponentNotPresent);
    assert_eq!(EcsError::TypeMismatch.message(), "cannot cast to specified type");
}
