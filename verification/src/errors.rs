//! Error kinds surfaced by the store, the entity registry and the world.

use vstd::prelude::*;
use vstd::std_specs::convert::FromSpecImpl;

verus! {

/// Failures of the entity registry.
#[derive(Debug, Clone, Copy, PartialEq, Eq, Structural)]
pub enum EntityError {
    /// Every index the registry may hand out is in use.
    TooManyEntities,
    /// The index of the id is beyond the registry's slots.
    NotFound,
    /// The slot exists but carries another generation than the id.
    WrongGen,
    /// The slot matches the id but holds no location.
    AlreadyFreed,
}

/// Failures of component boxes, columns and bundles.
#[derive(Debug, Clone, Copy, PartialEq, Eq, Structural)]
pub enum StoreError {
    /// A component was offered to, or asked from, a holder of another component type.
    CannotCastToType,
    /// A bundle holds no component of the requested type.
    TypeNotFound,
    /// An archetype holds no column of the requested type.
    StorageNotFound,
}

/// Failures of world operations.
#[derive(Debug, Clone, Copy, PartialEq, Eq, Structural)]
pub enum EcsError {
    EntityNotFound,
    EntityWrongGeneration,
    EntityAlreadyFreed,
    OutOfEntityIds,
    DuplicateTypeInBundle,
    ComponentAlreadyPresent,
    ComponentNotPresent,
    TypeMismatch,
    QueryAliasingViolation,
    StructuralMutationDuringQuery,
}

impl EntityError {
    /// The world-level error that stands for this registry error.
    pub open spec fn lifted(self) -> EcsError {
        match self {
            EntityError::TooManyEntities => EcsError::OutOfEntityIds,
            EntityError::NotFound => EcsError::EntityNotFound,
            EntityError::WrongGen => EcsError::EntityWrongGeneration,
            EntityError::AlreadyFreed => EcsError::EntityAlreadyFreed,
        }
    }

    /// A short description for humans.
    pub fn message(&self) -> (text: &'static str)
        ensures
            text@ == match *self {
                EntityError::TooManyEntities => "too many entities"@,
                EntityError::NotFound => "entity not found"@,
                EntityError::WrongGen => "generations don't match"@,
                EntityError::AlreadyFreed => "entity already freed"@,
            },
    {
        match self {
            EntityError::TooManyEntities => "too many entities",
            EntityError::NotFound => "entity not found",
            EntityError::WrongGen => "generations don't match",
            EntityError::AlreadyFreed => "entity already freed",
        }
    }
}

impl StoreError {
    /// The world-level error that stands for this store error.
    pub open spec fn lifted(self) -> EcsError {
        match self {
            StoreError::CannotCastToType => EcsError::TypeMismatch,
            StoreError::TypeNotFound => EcsError::ComponentNotPresent,
            StoreError::StorageNotFound => EcsError::ComponentNotPresent,
        }
    }

    /// A short description for humans.
    pub fn message(&self) -> (text: &'static str)
        ensures
            text@ == match *self {
                StoreError::CannotCastToType => "cannot cast to specified type"@,
                StoreError::TypeNotFound => "the target type could not be found"@,
                StoreError::StorageNotFound => "storage not contained in archetype"@,
            },
    {
        match self {
            StoreError::CannotCastToType => "cannot cast to specified type",
            StoreError::TypeNotFound => "the target type could not be found",
            StoreError::StorageNotFound => "storage not contained in archetype",
        }
    }
}

impl EcsError {
    /// A short description for humans.
    pub fn message(&self) -> (text: &'static str)
        ensures
            text@ == match *self {
                EcsError::EntityNotFound => "entity not found"@,
                EcsError::EntityWrongGeneration => "generations don't match"@,
                EcsError::EntityAlreadyFreed => "entity already freed"@,
                EcsError::OutOfEntityIds => "too many entities"@,
                EcsError::DuplicateTypeInBundle => "bundle holds a component type twice"@,
                EcsError::ComponentAlreadyPresent => "component already present"@,
                EcsError::ComponentNotPresent => "component not present"@,
                EcsError::TypeMismatch => "cannot cast to specified type"@,
                EcsError::QueryAliasingViolation => "query names a component type twice"@,
                EcsError::StructuralMutationDuringQuery => "structural mutation during a query"@,
            },
    {
        match self {
            EcsError::EntityNotFound => "entity not found",
            EcsError::EntityWrongGeneration => "generations don't match",
            EcsError::EntityAlreadyFreed => "entity already freed",
            EcsError::OutOfEntityIds => "too many entities",
            EcsError::DuplicateTypeInBundle => "bundle holds a component type twice",
            EcsError::ComponentAlreadyPresent => "component already present",
            EcsError::ComponentNotPresent => "component not present",
            EcsError::TypeMismatch => "cannot cast to specified type",
            EcsError::QueryAliasingViolation => "query names a component type twice",
            EcsError::StructuralMutationDuringQuery => "structural mutation during a query",
        }
    }
}

impl From<EntityError> for EcsError {
    fn from(err: EntityError) -> (out: EcsError) {
        match err {
            EntityError::TooManyEntities => EcsError::OutOfEntityIds,
            EntityError::NotFound => EcsError::EntityNotFound,
            EntityError::WrongGen => EcsError::EntityWrongGeneration,
            EntityError::AlreadyFreed => EcsError::EntityAlreadyFreed,
        }
    }
}

impl FromSpecImpl<EntityError> for EcsError {
    open spec fn obeys_from_spec() -> bool {
        true
    }

    open spec fn from_spec(err: EntityError) -> EcsError {
        err.lifted()
    }
}

impl From<StoreError> for EcsError {
    fn from(err: StoreError) -> (out: EcsError) {
        match err {
            StoreError::CannotCastToType => EcsError::TypeMismatch,
            StoreError::TypeNotFound => EcsError::ComponentNotPresent,
            StoreError::StorageNotFound => EcsError::ComponentNotPresent,
        }
    }
}

impl FromSpecImpl<StoreError> for EcsError {
    open spec fn obeys_from_spec() -> bool {
        true
    }

    open spec fn from_spec(err: StoreError) -> EcsError {
        err.lifted()
    }
}

} // verus!
