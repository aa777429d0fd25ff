use std::any::Any;

use ecs::component::{Component, ComponentBox, ComponentStore, ComponentType};
use ecs::errors::StoreError;

type Erased = Box<dyn Any>;

#[derive(Default, PartialEq, Debug)]
pub struct TestCompA {
    pub one: u32,
    pub two: String,
}

#[derive(Default, PartialEq, Debug)]
pub struct TestCompB {
    pub three: f32,
    pub four: String,
}

impl Component<Erased> for TestCompA {
    fn component_type() -> ComponentType {
        1
    }

    fn into_payload(self) -> Erased {
        Box::new(self)
    }

    fn from_payload(payload: Erased) -> Option<Self> {
        payload.downcast::<Self>().ok().map(|value| *value)
    }
}

impl Component<Erased> for TestCompB {
    fn component_type() -> ComponentType {
        2
    }

    fn into_payload(self) -> Erased {
        Box::new(self)
    }

    fn from_payload(payload: Erased) -> Option<Self> {
        payload.downcast::<Self>().ok().map(|value| *value)
    }
}

/// Claims the component type of `TestCompA` without being one.
#[derive(Default, PartialEq, Debug)]
pub struct Impostor(pub u8);

impl Component<Erased> for Impostor {
    fn component_type() -> ComponentType {
        1
    }

    fn into_payload(self) -> Erased {
        Box::new(self)
    }

    fn from_payload(payload: Erased) -> Option<Self> {
        payload.downcast::<Self>().ok().map(|value| *value)
    }
}

#[test]
fn test_component_box_cast_inner_fails() {
    let comp: ComponentBox<Erased> = ComponentBox::new(TestCompA::default());
    let res: Result<TestCompB, StoreError> = comp.cast_inner::<TestCompB>();

    assert!(res.is_err());
    assert!(matches!(res.unwrap_err(), StoreError::CannotCastToType));
}

#[test]
fn test_component_box_cast_inner_succeeds() {
    let comp: ComponentBox<Erased> = ComponentBox::new(TestCompA::default());
    let res: Result<TestCompA, StoreError> = comp.cast_inner::<TestCompA>();

    assert!(res.is_ok());
    assert!(res.unwrap() == TestCompA::default());
}

#[test]
fn test_component_box_create_store() {
    let comp: ComponentBox<Erased> = ComponentBox::new(TestCompA::default());
    let res: ComponentStore<Erased> = comp.create_store();

    assert!(res.inner()[0].downcast_ref::<TestCompA>().unwrap() == &TestCompA::default());
}

#[test]
fn box_carries_type_and_value() {
    let comp: ComponentBox<Erased> = ComponentBox::new(TestCompA { one: 7, two: "seven".to_string() });
    assert_eq!(comp.inner_type_id(), 1);
    assert_eq!(comp.type_id, 1);
    let value = comp.cast_inner::<TestCompA>().unwrap();
    assert_eq!(value, TestCompA { one: 7, two: "seven".to_string() });
}

#[test]
fn cast_fails_where_payload_is_of_another_type() {
    let comp: ComponentBox<Erased> = ComponentBox::new(TestCompA::default());
    let res: Result<Impostor, StoreError> = comp.cast_inner::<Impostor>();
    assert!(matches!(res, Err(StoreError::CannotCastToType)));
}

#[test]
fn cast_to_checks_the_type_id() {
    let boxed: ComponentBox<u32> = ComponentBox::from_parts(5, 99);
    assert_eq!(boxed.cast_to(5), Ok(99));
    let boxed: ComponentBox<u32> = ComponentBox::from_parts(5, 99);
    assert_eq!(boxed.cast_to(6), Err(StoreError::CannotCastToType));
}

#[test]
fn store_push_checks_the_type() {
    let mut store: ComponentStore<u32> = ComponentStore::new(3);
    assert!(store.is_empty());
    assert_eq!(store.inner_type_id(), 3);
    assert_eq!(store.push(ComponentBox::from_parts(3, 10)), Ok(()));
    assert_eq!(store.push(ComponentBox::from_parts(4, 11)), Err(StoreError::CannotCastToType));
    assert_eq!(store.push(ComponentBox::from_parts(3, 12)), Ok(()));
    assert_eq!(store.len(), 2);
    assert_eq!(store.inner(), &vec![10, 12]);
    assert_eq!(store.get(1), Some(&12));
    assert_eq!(store.get(2), None);
}

#[test]
fn store_swap_remove_moves_last_into_gap() {
    let mut store: ComponentStore<u32> = ComponentStore::new(3);
    for value in [10, 11, 12, 13] {
        store.push(ComponentBox::from_parts(3, value)).unwrap();
    }
    let taken = store.swap_remove(1);
    assert_eq!(taken.type_id, 3);
    assert_eq!(taken.component, 11);
    assert_eq!(store.inner(), &vec![10, 13, 12]);
    let taken = store.swap_remove(2);
    assert_eq!(taken.component, 12);
    assert_eq!(store.inner(), &vec![10, 13]);
}

#[test]
fn store_migrate_moves_row_to_end_of_target() {
    let mut source: ComponentStore<u32> = ComponentStore::new(3);
    let mut target: ComponentStore<u32> = ComponentStore::new(3);
    for value in [10, 11, 12] {
        source.push(ComponentBox::from_parts(3, value)).unwrap();
    }
    target.push(ComponentBox::from_parts(3, 20)).unwrap();
    assert_eq!(source.migrate(0, &mut target), Ok(()));
    assert_eq!(source.inner(), &vec![12, 11]);
    assert_eq!(target.inner(), &vec![20, 10]);

    let mut other: ComponentStore<u32> = ComponentStore::new(4);
    assert_eq!(source.migrate(0, &mut other), Err(StoreError::CannotCastToType));
    assert_eq!(source.inner(), &vec![12, 11]);
    assert!(other.is_empty());
}

#[test]
fn store_replace_and_inner_mut() {
    let mut store: ComponentStore<u32> = ComponentStore::new(3);
    store.push(ComponentBox::from_parts(3, 10)).unwrap();
    store.push(ComponentBox::from_parts(3, 11)).unwrap();
    assert_eq!(store.replace(0, 50), 10);
    assert_eq!(store.inner(), &vec![50, 11]);
    store.inner_mut()[1] = 60;
    assert_eq!(store.inner(), &vec![50, 60]);
}

#[test]
fn error_messages() {
    assert_eq!(StoreError::CannotCastToType.message(), "cannot cast to specified type");
    assert_eq!(StoreError::TypeNotFound.message(), "the target type could not be found");
    assert_eq!(StoreError::StorageNotFound.message(), "storage not contained in archetype");
}
