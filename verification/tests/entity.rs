use ecs::entity::{Entity, EntityId, EntityStore, Location};
use ecs::errors::{EcsError, EntityError};

fn mock_entity(generation: u32, location: Option<Location>) -> Entity {
    Entity::new(generation, location)
}

#[test]
fn test_get_new_id() -> Result<(), EntityError> {
    let mut store: EntityStore = EntityStore::default();

    let id: EntityId = store.get_new_id()?;

    assert!(
        id == EntityId {
            id: 0,
            generation: 0
        }
    );
    assert!(store.entity_status(id)?.is_none());

    Ok(())
}

#[test]
fn test_get_new_id_freed() -> Result<(), EntityError> {
    let mut store: EntityStore =
        EntityStore::from_parts(Vec::from([mock_entity(1, None)]), Vec::from([0]), u32::MAX)
            .unwrap();

    let id: EntityId = store.get_new_id()?;

    assert!(
        id == EntityId {
            id: 0,
            generation: 1,
        }
    );
    assert!(store.entity_status(id)?.is_none());

    Ok(())
}

#[test]
fn test_get_new_id_full() -> Result<(), EntityError> {
    let mut store: EntityStore = EntityStore::from_parts(Vec::new(), Vec::new(), 0).unwrap();

    let id = store.get_new_id();

    assert!(id.is_err());
    assert!(matches!(id.unwrap_err(), EntityError::TooManyEntities));

    Ok(())
}

#[test]
fn test_free_id() -> Result<(), EntityError> {
    let location = Location::new(0, 0);

    let mut store: EntityStore =
        EntityStore::from_parts(Vec::from([mock_entity(0, Some(location))]), Vec::new(), u32::MAX)
            .unwrap();

    let mut id: EntityId = EntityId {
        id: 0,
        generation: 0,
    };

    let free_res: Result<Location, EntityError> = store.free(id);

    assert!(free_res.is_ok() && free_res? == location);

    assert!(store.freed()[0] == id.id);
    assert!(store.entity_status(id).is_err());

    id.generation += 1;
    assert!(store.entity_status(id)?.is_none());

    Ok(())
}

#[test]
fn test_free_id_bad_id() {
    let bad_id: EntityId = EntityId {
        id: 0,
        generation: 0,
    };

    let mut store: EntityStore =
        EntityStore::from_parts(Vec::new(), Vec::new(), u32::MAX).unwrap();

    let free_res: Result<Location, EntityError> = store.free(bad_id);

    assert!(free_res.is_err());
    assert!(matches!(free_res.unwrap_err(), EntityError::NotFound));
}

#[test]
fn test_free_id_already_freed() {
    let id: EntityId = EntityId {
        id: 0,
        generation: 0,
    };

    let mut store: EntityStore = EntityStore::from_parts(
        Vec::from([mock_entity(id.generation, None)]),
        Vec::new(),
        u32::MAX,
    )
    .unwrap();

    let free_res: Result<Location, EntityError> = store.free(id);

    assert!(free_res.is_err());
    assert!(matches!(free_res.unwrap_err(), EntityError::AlreadyFreed));
}

#[test]
fn test_set_location() {
    let location = Location::new(0, 0);

    let mut store =
        EntityStore::from_parts(Vec::from([Entity::default()]), Vec::new(), u32::MAX).unwrap();

    let previous: Option<Location> = store.set_location(
        EntityId {
            id: 0,
            generation: 0,
        },
        location,
    );

    assert!(previous.is_none());
    assert!(store.entities()[0].location == Some(location));
}

#[test]
fn freed_index_is_handed_out_with_next_generation() {
    let location = Location::new(0, 0);
    let mut store =
        EntityStore::from_parts(vec![Entity::new(4, Some(location))], Vec::new(), u32::MAX)
            .unwrap();
    let id = EntityId { id: 0, generation: 4 };
    assert_eq!(store.free(id), Ok(location));
    assert_eq!(store.freed(), &[0]);
    assert_eq!(store.entities()[0].generation, 5);
    assert_eq!(store.entities()[0].location, None);
    assert_eq!(store.get_new_id(), Ok(EntityId { id: 0, generation: 5 }));
    assert!(store.freed().is_empty());
}

#[test]
fn set_location_returns_previous_location() {
    let mut store = EntityStore::new();
    let id = store.get_new_id().unwrap();
    assert_eq!(store.set_location(id, Location::new(2, 5)), None);
    assert_eq!(store.set_location(id, Location::new(3, 1)), Some(Location::new(2, 5)));
    assert_eq!(store.entity_status(id), Ok(Some(Location::new(3, 1))));
}

#[test]
fn status_tells_errors_apart() {
    let mut store = EntityStore::new();
    let id = store.get_new_id().unwrap();
    assert_eq!(store.entity_status(id), Ok(None));
    assert_eq!(
        store.entity_status(EntityId { id: 1, generation: 0 }),
        Err(EntityError::NotFound)
    );
    assert_eq!(
        store.entity_status(EntityId { id: 0, generation: 3 }),
        Err(EntityError::WrongGen)
    );
    store.set_location(id, Location::new(0, 0));
    assert_eq!(store.entity_status(id), Ok(Some(Location::new(0, 0))));
    assert_eq!(store.len(), 1);
}

#[test]
fn generation_grows_by_one_per_free() {
    let mut store = EntityStore::new();
    let first = store.get_new_id().unwrap();
    store.set_location(first, Location::new(0, 0));
    assert_eq!(store.free(first), Ok(Location::new(0, 0)));
    let second = store.get_new_id().unwrap();
    assert_eq!(second, EntityId { id: 0, generation: 1 });
    store.set_location(second, Location::new(0, 0));
    assert_eq!(store.free(first), Err(EntityError::WrongGen));
    assert_eq!(store.free(second), Ok(Location::new(0, 0)));
    let third = store.get_new_id().unwrap();
    assert_eq!(third, EntityId { id: 0, generation: 2 });
}

#[test]
fn last_generation_retires_the_index() {
    let location = Location::new(0, 0);
    let mut store =
        EntityStore::from_parts(vec![Entity::new(u32::MAX, Some(location))], Vec::new(), u32::MAX)
            .unwrap();
    let id = EntityId { id: 0, generation: u32::MAX };
    assert_eq!(store.free(id), Ok(location));
    assert_eq!(store.entity_status(id), Err(EntityError::WrongGen));
    assert_eq!(store.free(id), Err(EntityError::WrongGen));
    // The index is not handed out again: the next id is a fresh index.
    assert_eq!(store.get_new_id(), Ok(EntityId { id: 1, generation: 0 }));
}

#[test]
fn limit_bounds_the_indices() {
    let mut store = EntityStore::with_limit(2);
    assert_eq!(store.get_new_id(), Ok(EntityId { id: 0, generation: 0 }));
    assert_eq!(store.get_new_id(), Ok(EntityId { id: 1, generation: 0 }));
    assert_eq!(store.get_new_id(), Err(EntityError::TooManyEntities));
    assert_eq!(store.len(), 2);
}

#[test]
fn get_new_ids_takes_freed_then_fresh() {
    let mut store = EntityStore::new();
    let ids = store.get_new_ids(4).unwrap();
    assert_eq!(
        ids,
        vec![
            EntityId { id: 0, generation: 0 },
            EntityId { id: 1, generation: 0 },
            EntityId { id: 2, generation: 0 },
            EntityId { id: 3, generation: 0 },
        ]
    );
    store.set_many_location(&ids, Location::new(1, 10));
    for (k, id) in ids.iter().enumerate() {
        assert_eq!(store.entity_status(*id), Ok(Some(Location::new(1, 10 + k))));
    }
    store.free(ids[1]).unwrap();
    store.free(ids[3]).unwrap();
    store.free(ids[0]).unwrap();
    // The free list now holds 1, 3, 0; two are taken from its end, in its order.
    let again = store.get_new_ids(2).unwrap();
    assert_eq!(
        again,
        vec![EntityId { id: 3, generation: 1 }, EntityId { id: 0, generation: 1 }]
    );
    // One is left on the free list; the second id is a fresh index.
    let mixed = store.get_new_ids(2).unwrap();
    assert_eq!(
        mixed,
        vec![EntityId { id: 1, generation: 1 }, EntityId { id: 4, generation: 0 }]
    );
    assert_eq!(store.get_new_id(), Ok(EntityId { id: 5, generation: 0 }));
}

#[test]
fn get_new_ids_is_all_or_nothing() {
    let mut store = EntityStore::with_limit(3);
    let ids = store.get_new_ids(2).unwrap();
    store.set_many_location(&ids, Location::new(0, 0));
    store.free(ids[0]).unwrap();
    // One freed index and one fresh index are available, three are asked for.
    assert_eq!(store.get_new_ids(3), Err(EntityError::TooManyEntities));
    assert_eq!(store.len(), 2);
    // Nothing was taken: the freed index is still the next.
    assert_eq!(store.get_new_ids(2), Ok(vec![
        EntityId { id: 0, generation: 1 },
        EntityId { id: 2, generation: 0 },
    ]));
}

#[test]
fn from_parts_refuses_ill_formed_parts() {
    let placed = Entity::new(0, Some(Location::new(0, 0)));
    assert!(EntityStore::from_parts(vec![Entity::default()], vec![], 0).is_none());
    assert!(EntityStore::from_parts(vec![Entity::default()], vec![1], 5).is_none());
    assert!(EntityStore::from_parts(vec![Entity::default()], vec![0, 0], 5).is_none());
    assert!(EntityStore::from_parts(vec![placed], vec![0], 5).is_none());
    assert!(EntityStore::from_parts(vec![Entity::default()], vec![0], 5).is_some());
}

#[test]
fn entity_errors_lift_and_describe() {
    assert_eq!(EcsError::from(EntityError::TooManyEntities), EcsError::OutOfEntityIds);
    assert_eq!(EcsError::from(EntityError::NotFound), EcsError::EntityNotFound);
    assert_eq!(EcsError::from(EntityError::WrongGen), EcsError::EntityWrongGeneration);
    assert_eq!(EcsError::from(EntityError::AlreadyFreed), EcsError::EntityAlreadyFreed);
    assert_eq!(EntityError::TooManyEntities.message(), "too many entities");
    assert_eq!(EntityError::NotFound.message(), "entity not found");
    assert_eq!(EntityError::WrongGen.message(), "generations don't match");
    assert_eq!(EntityError::AlreadyFreed.message(), "entity already freed");
    assert_eq!(EcsError::QueryAliasingViolation.message(), "query names a component type twice");
}
