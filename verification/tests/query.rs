use ecs::bundle::TypeBundle;
use ecs::errors::EcsError;
use ecs::query::{Access, QueryField, QueryPlan};

fn read(component: u64) -> QueryField {
    QueryField { component, access: Access::Read }
}

fn write(component: u64) -> QueryField {
    QueryField { component, access: Access::Write }
}

#[test]
fn plan_splits_fields_by_access() {
    let plan = QueryPlan::build(vec![write(4), read(1), write(2), read(9)]).unwrap();
    assert_eq!(plan.get_fields(), &vec![write(4), read(1), write(2), read(9)]);
    assert_eq!(plan.get_reads(), &vec![1, 9]);
    assert_eq!(plan.get_writes(), &vec![4, 2]);
    assert!(*plan.get_types() == TypeBundle::from_slice(&[1, 2, 4, 9]));
}

#[test]
fn plan_of_no_fields() {
    let plan = QueryPlan::build(Vec::new()).unwrap();
    assert!(plan.get_fields().is_empty());
    assert!(plan.get_reads().is_empty());
    assert!(plan.get_writes().is_empty());
    assert!(*plan.get_types() == TypeBundle::new());
}

#[test]
fn plan_rejects_read_and_write_of_one_type() {
    assert_eq!(QueryPlan::build(vec![read(1), write(1)]).err(), Some(EcsError::QueryAliasingViolation));
    assert_eq!(QueryPlan::build(vec![write(1), read(2), read(1)]).err(), Some(EcsError::QueryAliasingViolation));
}

#[test]
fn plan_rejects_a_type_named_twice() {
    assert_eq!(QueryPlan::build(vec![read(3), read(3)]).err(), Some(EcsError::QueryAliasingViolation));
    assert_eq!(QueryPlan::build(vec![write(3), read(5), write(3)]).err(), Some(EcsError::QueryAliasingViolation));
}
