//! Components, the boxes that carry them and the columns that store them.
//!
//! The store never looks inside a component. It is generic over the payload
//! type `C` in which the application keeps its component values, and tells
//! the values apart by the `ComponentType` that travels with each of them.

use vstd::prelude::*;
use crate::errors::StoreError;

verus! {

/// The identity of a component type: a number that the application assigns
/// once to each of its component types. Numbers are ordered, which gives
/// every set of component types one canonical form.
pub type ComponentType = u64;

/// A value that can be attached to an entity. An implementation names the
/// component type of the implementing type and turns a value into the
/// payload `C` and back.
pub trait Component<C>: Sized {
    /// The identity of this component type.
    fn component_type() -> ComponentType;

    /// Turns the value into a payload.
    fn into_payload(self) -> C;

    /// Recovers a value from a payload, where the payload holds one of this type.
    fn from_payload(payload: C) -> Option<Self>;
}

/// One component value together with the identity of its type.
#[derive(Debug)]
pub struct ComponentBox<C> {
    pub type_id: ComponentType,
    pub component: C,
}

impl<C> ComponentBox<C> {
    /// Boxes a payload under the given type identity.
    pub fn from_parts(type_id: ComponentType, component: C) -> (boxed: Self)
        ensures
            boxed == (ComponentBox { type_id, component }),
    {
        ComponentBox { type_id, component }
    }

    /// Boxes a typed value: the box carries the identity that `T` names and
    /// the payload that `T` makes of the value.
    pub fn new<T: Component<C>>(comp: T) -> (boxed: Self)
        ensures
            call_ensures(T::component_type, (), boxed.type_id),
            call_ensures(T::into_payload, (comp,), boxed.component),
    {
        let type_id: ComponentType = T::component_type();
        Self::from_parts(type_id, comp.into_payload())
    }

    /// Hands out the payload where the box carries the identity `type_id`,
    /// and fails with `CannotCastToType` where it carries another.
    pub fn cast_to(self, type_id: ComponentType) -> (r: Result<C, StoreError>)
        ensures
            r == if self.type_id == type_id {
                Ok::<C, StoreError>(self.component)
            } else {
                Err::<C, StoreError>(StoreError::CannotCastToType)
            },
    {
        if self.type_id == type_id {
            Ok(self.component)
        } else {
            Err(StoreError::CannotCastToType)
        }
    }

    /// Recovers the typed value from the box. Fails with `CannotCastToType`
    /// where the box carries another identity than `T` names, or where `T`
    /// does not recover a value from the payload.
    pub fn cast_inner<T: Component<C>>(self) -> (r: Result<T, StoreError>)
        ensures
            match r {
                Ok(value) => call_ensures(T::component_type, (), self.type_id) && call_ensures(
                    T::from_payload,
                    (self.component,),
                    Some(value),
                ),
                Err(e) => e == StoreError::CannotCastToType && (call_ensures(
                    T::from_payload,
                    (self.component,),
                    None,
                ) || exists|wanted: ComponentType|
                    wanted != self.type_id && call_ensures(T::component_type, (), wanted)),
            },
    {
        let wanted: ComponentType = T::component_type();
        match self.cast_to(wanted) {
            Ok(payload) => match T::from_payload(payload) {
                Some(value) => Ok(value),
                None => Err(StoreError::CannotCastToType),
            },
            Err(e) => Err(e),
        }
    }

    /// The identity of the boxed component's type.
    pub fn inner_type_id(&self) -> (type_id: ComponentType)
        ensures
            type_id == self.type_id,
    {
        self.type_id
    }

    /// A column of the box's type that holds the boxed component in row 0.
    pub fn create_store(self) -> (store: ComponentStore<C>)
        ensures
            store.spec_type_id() == self.type_id,
            store@ == seq![self.component],
    {
        let type_id: ComponentType = self.type_id;
        let mut items: Vec<C> = Vec::new();
        items.push(self.component);
        ComponentStore { store: items, type_id }
    }
}

/// A column: the components of one type, one per row.
pub struct ComponentStore<C> {
    store: Vec<C>,
    type_id: ComponentType,
}

impl<C> View for ComponentStore<C> {
    type V = Seq<C>;

    /// The components, by row.
    closed spec fn view(&self) -> Seq<C> {
        self.store@
    }
}

impl<C> ComponentStore<C> {
    /// The identity of the component type that the column stores.
    pub closed spec fn spec_type_id(&self) -> ComponentType {
        self.type_id
    }

    /// What `swap_remove` leaves of a column `rows` when it takes row `row`
    /// out: the last row stands in its place.
    pub open spec fn without_row(rows: Seq<C>, row: int) -> Seq<C> {
        rows.update(row, rows.last()).drop_last()
    }

    /// An empty column for components of type `type_id`.
    pub fn new(type_id: ComponentType) -> (store: Self)
        ensures
            store.spec_type_id() == type_id,
            store@ == Seq::<C>::empty(),
    {
        ComponentStore { store: Vec::new(), type_id }
    }

    /// The rows of the column, for reading.
    pub fn inner(&self) -> (rows: &Vec<C>)
        ensures
            rows@ == self@,
    {
        &self.store
    }

    /// The rows of the column, for writing.
    pub fn inner_mut(&mut self) -> (rows: &mut Vec<C>)
        ensures
            rows@ == old(self)@,
            final(self)@ == final(rows)@,
            final(self).spec_type_id() == old(self).spec_type_id(),
    {
        &mut self.store
    }

    /// The identity of the component type that the column stores.
    pub fn inner_type_id(&self) -> (type_id: ComponentType)
        ensures
            type_id == self.spec_type_id(),
    {
        self.type_id
    }

    /// The number of rows.
    pub fn len(&self) -> (n: usize)
        ensures
            n == self@.len(),
    {
        self.store.len()
    }

    /// Whether the column has no rows.
    pub fn is_empty(&self) -> (b: bool)
        ensures
            b == (self@.len() == 0),
    {
        self.store.len() == 0
    }

    /// The component in row `row`.
    pub fn get(&self, row: usize) -> (r: Option<&C>)
        ensures
            r == if row < self@.len() {
                Some(&self@[row as int])
            } else {
                None
            },
    {
        if row < self.store.len() {
            Some(&self.store[row])
        } else {
            None
        }
    }

    /// Replaces the component in row `row` and returns the one that stood there.
    pub fn replace(&mut self, row: usize, component: C) -> (previous: C)
        requires
            row < old(self)@.len(),
        ensures
            previous == old(self)@[row as int],
            final(self)@ == old(self)@.update(row as int, component),
            final(self).spec_type_id() == old(self).spec_type_id(),
    {
        let mut component = component;
        core::mem::swap(&mut self.store[row], &mut component);
        component
    }

    /// Appends the boxed component as a new last row. Fails with
    /// `CannotCastToType`, leaving the column as it was, where the box carries
    /// another type than the column stores.
    pub fn push(&mut self, comp: ComponentBox<C>) -> (r: Result<(), StoreError>)
        ensures
            final(self).spec_type_id() == old(self).spec_type_id(),
            comp.type_id == old(self).spec_type_id() ==> r is Ok && final(self)@ == old(self)@.push(
                comp.component,
            ),
            comp.type_id != old(self).spec_type_id() ==> r == Err::<(), StoreError>(
                StoreError::CannotCastToType,
            ) && final(self)@ == old(self)@,
    {
        match comp.cast_to(self.type_id) {
            Ok(payload) => {
                self.store.push(payload);
                Ok(())
            },
            Err(e) => Err(e),
        }
    }

    /// Takes row `row` out of the column and returns its component in a box.
    /// The last row moves into the gap, so the order of rows is not kept.
    pub fn swap_remove(&mut self, row: usize) -> (taken: ComponentBox<C>)
        requires
            row < old(self)@.len(),
        ensures
            taken == (ComponentBox {
                type_id: old(self).spec_type_id(),
                component: old(self)@[row as int],
            }),
            final(self)@ == Self::without_row(old(self)@, row as int),
            final(self).spec_type_id() == old(self).spec_type_id(),
    {
        let component: C = self.store.swap_remove(row);
        ComponentBox { type_id: self.type_id, component }
    }

    /// Moves row `row` of this column to the end of `target`, as `swap_remove`
    /// followed by `push` would. Fails with `CannotCastToType`, leaving both
    /// columns as they were, where the two store different types.
    pub fn migrate(&mut self, row: usize, target: &mut ComponentStore<C>) -> (r: Result<
        (),
        StoreError,
    >)
        requires
            row < old(self)@.len(),
        ensures
            final(self).spec_type_id() == old(self).spec_type_id(),
            final(target).spec_type_id() == old(target).spec_type_id(),
            old(self).spec_type_id() == old(target).spec_type_id() ==> {
                &&& r is Ok
                &&& final(self)@ == Self::without_row(old(self)@, row as int)
                &&& final(target)@ == old(target)@.push(old(self)@[row as int])
            },
            old(self).spec_type_id() != old(target).spec_type_id() ==> {
                &&& r == Err::<(), StoreError>(StoreError::CannotCastToType)
                &&& final(self)@ == old(self)@
                &&& final(target)@ == old(target)@
            },
    {
        if self.type_id != target.type_id {
            return Err(StoreError::CannotCastToType);
        }
        let component: C = self.store.swap_remove(row);
        target.store.push(component);
        Ok(())
    }
}

} // verus!
