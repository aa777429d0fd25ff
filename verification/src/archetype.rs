//! Archetypes: the storage of all entities that carry one set of component types.
//!
//! An archetype keeps one column per component type of its schema and a list
//! of the entities it stores. Row `r` of every column belongs to the entity
//! at position `r` of that list, so all columns are as long as the list.
//! Rows leave by swap-remove: the last row moves into the gap.

use vstd::prelude::*;
use std::collections::HashMap;
use crate::bundle::{
    components_by_type,
    distinct_types,
    is_first_of,
    lemma_component_of_distinct,
    types_of,
    ComponentBundle,
    TypeBundle,
};
use crate::component::{ComponentBox, ComponentStore, ComponentType};
use crate::entity::EntityId;
use crate::errors::{EcsError, StoreError};
use crate::query::{components_with, Access, QueryField, QueryPlan};

verus! {

broadcast use vstd::std_specs::hash::group_hash_axioms;

/// A change of one entity's component set by a single component.
pub enum Migration<C> {
    /// Attach the boxed component.
    Add(ComponentBox<C>),
    /// Detach the component of the given type.
    Remove(ComponentType),
}

impl<C> Migration<C> {
    /// The component type by which the entity's set changes.
    pub open spec fn delta(&self) -> ComponentType {
        match self {
            Migration::Add(comp) => comp.type_id,
            Migration::Remove(type_id) => *type_id,
        }
    }

    /// The component set that this change makes of `types`.
    pub open spec fn applied_to_types(&self, types: Set<ComponentType>) -> Set<ComponentType> {
        match self {
            Migration::Add(comp) => types.insert(comp.type_id),
            Migration::Remove(type_id) => types.remove(*type_id),
        }
    }

    /// The components that this change makes of `components`.
    pub open spec fn applied_to(&self, components: Map<ComponentType, C>) -> Map<ComponentType, C> {
        match self {
            Migration::Add(comp) => components.insert(comp.type_id, comp.component),
            Migration::Remove(type_id) => components.remove(*type_id),
        }
    }

    /// Whether the change can be made of an entity with the component set
    /// `types`: a type is added only where it is absent, and removed only
    /// where it is present.
    pub open spec fn fits(&self, types: Set<ComponentType>) -> bool {
        match self {
            Migration::Add(comp) => !types.contains(comp.type_id),
            Migration::Remove(type_id) => types.contains(*type_id),
        }
    }

    /// The error with which the change is refused for an entity with the
    /// component set `types`, if any.
    pub open spec fn misfit(&self, types: Set<ComponentType>) -> Option<EcsError> {
        match self {
            Migration::Add(comp) => if types.contains(comp.type_id) {
                Some(EcsError::ComponentAlreadyPresent)
            } else {
                None
            },
            Migration::Remove(type_id) => if types.contains(*type_id) {
                None
            } else {
                Some(EcsError::ComponentNotPresent)
            },
        }
    }

    /// Whether the change attaches a component.
    pub fn is_add(&self) -> (b: bool)
        ensures
            b == (self is Add),
    {
        match self {
            Migration::Add(_) => true,
            Migration::Remove(_) => false,
        }
    }

    /// The component type by which the entity's set changes.
    pub fn delta_type(&self) -> (type_id: ComponentType)
        ensures
            type_id == self.delta(),
    {
        match self {
            Migration::Add(comp) => comp.inner_type_id(),
            Migration::Remove(type_id) => *type_id,
        }
    }
}

/// What a swap-remove of row `row` leaves of the entity list `rows`.
pub open spec fn rows_without(rows: Seq<EntityId>, row: int) -> Seq<EntityId> {
    rows.update(row, rows.last()).drop_last()
}

/// What one call of `system` makes of a row. The system is shown the
/// components `before` of `fields`, in their order, and answers with new
/// values for the fields to write, in their order: the row `after` has
/// these in place of the old ones, as far as the answer goes, and is
/// otherwise as before.
pub open spec fn row_updated<C, F: FnMut(&Vec<&C>) -> Vec<C>>(
    system: F,
    fields: Seq<QueryField>,
    before: Map<ComponentType, C>,
    after: Map<ComponentType, C>,
) -> bool {
    exists|view: Vec<&C>, out: Vec<C>|
        {
            &&& #[trigger] call_ensures(system, (&view,), out)
            &&& view@.len() == fields.len()
            &&& forall|i: int|
                0 <= i < view@.len() ==> *(#[trigger] view@[i]) == before[fields[i].component]
            &&& after.dom() == before.dom()
            &&& forall|j: int|
                0 <= j < components_with(fields, Access::Write).len() ==> after[
                #[trigger] components_with(fields, Access::Write)[j]] == if j < out@.len() {
                    out@[j]
                } else {
                    before[components_with(fields, Access::Write)[j]]
                }
            &&& forall|t: ComponentType|
                before.dom().contains(t) && !components_with(fields, Access::Write).contains(t)
                    ==> #[trigger] after[t] == before[t]
        }
}

/// The storage of the entities of one component set.
pub struct Archetype<C> {
    schema: TypeBundle,
    index: HashMap<ComponentType, usize>,
    storage: Vec<ComponentStore<C>>,
    entities: Vec<EntityId>,
    edges: HashMap<ComponentType, usize>,
}

impl<C> Archetype<C> {
    /// The component types of the archetype, in the order of its columns.
    pub closed spec fn schema(&self) -> TypeBundle {
        self.schema
    }

    /// The component types of the archetype.
    pub open spec fn type_set(&self) -> Set<ComponentType> {
        self.schema()@
    }

    /// The entities, by row.
    pub closed spec fn rows(&self) -> Seq<EntityId> {
        self.entities@
    }

    /// The columns, in the order of the schema.
    pub closed spec fn columns(&self) -> Seq<ComponentStore<C>> {
        self.storage@
    }

    /// The known neighbours: under a component type, the index that the
    /// world gives to the archetype whose schema differs from this one by
    /// exactly that type.
    pub closed spec fn edges(&self) -> Map<ComponentType, usize> {
        self.edges@
    }

    /// The position of the column of `type_id`.
    pub closed spec fn slot(&self, type_id: ComponentType) -> int {
        self.index@[type_id] as int
    }

    /// The index names, for every type of the schema and for no other, the
    /// position at which the type stands in the schema.
    pub closed spec fn indexed(&self) -> bool {
        &&& forall|t: ComponentType| self.index@.contains_key(t) <==> self.schema@.contains(t)
        &&& forall|i: int|
            0 <= i < self.schema.seq().len() ==> self.index@[#[trigger] self.schema.seq()[i]] == i
    }

    /// Well-formedness: one column per type of the schema, in the schema's
    /// order, each as long as the entity list.
    pub open spec fn wf(&self) -> bool {
        &&& self.schema().wf()
        &&& self.indexed()
        &&& self.rows().len() <= usize::MAX
        &&& self.columns().len() == self.schema().seq().len()
        &&& forall|i: int|
            0 <= i < self.columns().len() ==> (#[trigger] self.columns()[i]).spec_type_id()
                == self.schema().seq()[i]
        &&& forall|i: int|
            0 <= i < self.columns().len() ==> (#[trigger] self.columns()[i])@.len()
                == self.rows().len()
    }

    /// The components of type `type_id`, by row.
    pub open spec fn column(&self, type_id: ComponentType) -> Seq<C> {
        self.columns()[self.slot(type_id)]@
    }

    /// The components of the entity in row `row`, by type.
    pub open spec fn row_map(&self, row: int) -> Map<ComponentType, C> {
        Map::new(
            |t: ComponentType| self.type_set().contains(t),
            |t: ComponentType| self.column(t)[row],
        )
    }

    /// In a well-formed archetype every type of the schema has its column at
    /// the position the index names, and that column is as long as the
    /// entity list.
    pub proof fn lemma_slot(&self, type_id: ComponentType)
        requires
            self.wf(),
            self.type_set().contains(type_id),
        ensures
            0 <= self.slot(type_id) < self.columns().len(),
            self.schema().seq()[self.slot(type_id)] == type_id,
            self.columns()[self.slot(type_id)].spec_type_id() == type_id,
            self.column(type_id).len() == self.rows().len(),
    {
        let i = choose|i: int| 0 <= i < self.schema.seq().len() && self.schema.seq()[i] == type_id;
        assert(self.schema.seq().contains(type_id));
        assert(self.index@[self.schema.seq()[i]] == i);
    }

    /// The slot of the type at position `i` of the schema is `i`.
    pub proof fn lemma_slot_of_position(&self, i: int)
        requires
            self.wf(),
            0 <= i < self.schema().seq().len(),
        ensures
            self.type_set().contains(self.schema().seq()[i]),
            self.slot(self.schema().seq()[i]) == i,
    {
        assert(self.schema.seq().contains(self.schema.seq()[i]));
    }

    /// An archetype of the given schema without entities.
    pub fn with_schema(schema: TypeBundle) -> (archetype: Self)
        requires
            schema.wf(),
        ensures
            archetype.wf(),
            archetype.schema().seq() == schema.seq(),
            archetype.type_set() == schema@,
            archetype.rows() == Seq::<EntityId>::empty(),
            archetype.edges() == Map::<ComponentType, usize>::empty(),
    {
        let mut index: HashMap<ComponentType, usize> = HashMap::new();
        let mut storage: Vec<ComponentStore<C>> = Vec::new();
        let mut i: usize = 0;
        while i < schema.len()
            invariant
                i <= schema.seq().len(),
                schema.wf(),
                storage@.len() == i,
                forall|k: int|
                    0 <= k < i ==> (#[trigger] storage@[k]).spec_type_id() == schema.seq()[k]
                        && storage@[k]@.len() == 0,
                forall|t: ComponentType|
                    index@.contains_key(t) <==> exists|k: int|
                        0 <= k < i && schema.seq()[k] == t,
                forall|k: int| 0 <= k < i ==> index@[#[trigger] schema.seq()[k]] == k,
            decreases schema.seq().len() - i,
        {
            let type_id: ComponentType = schema.get(i).unwrap();
            index.insert(type_id, i);
            storage.push(ComponentStore::new(type_id));
            i = i + 1;
        }
        let archetype = Archetype {
            schema,
            index,
            storage,
            entities: Vec::new(),
            edges: HashMap::new(),
        };
        proof {
            assert forall|t: ComponentType|
                archetype.index@.contains_key(t) <==> archetype.schema@.contains(t) by {
                if archetype.schema@.contains(t) {
                    assert(archetype.schema.seq().contains(t));
                }
            }
        }
        archetype
    }

    /// The number of entities.
    pub fn len(&self) -> (n: usize)
        ensures
            n == self.rows().len(),
    {
        self.entities.len()
    }

    /// The last entity of the list.
    fn get_last_entity(&self) -> (entity: EntityId)
        requires
            self.rows().len() > 0,
        ensures
            entity == self.rows().last(),
    {
        self.entities[self.entities.len() - 1]
    }

    /// The entities, by row.
    pub fn entities(&self) -> (rows: &Vec<EntityId>)
        ensures
            rows@ == self.rows(),
    {
        &self.entities
    }

    /// The column of `type_id`. Fails with `StorageNotFound` where the
    /// schema does not hold the type.
    pub fn get_storage(&self, type_id: ComponentType) -> (r: Result<&ComponentStore<C>, StoreError>)
        requires
            self.wf(),
        ensures
            match r {
                Ok(store) => {
                    &&& self.type_set().contains(type_id)
                    &&& *store == self.columns()[self.slot(type_id)]
                    &&& store@ == self.column(type_id)
                    &&& store.spec_type_id() == type_id
                },
                Err(e) => e == StoreError::StorageNotFound && !self.type_set().contains(type_id),
            },
    {
        match self.index.get(&type_id) {
            Some(idx) => {
                proof {
                    self.lemma_slot(type_id);
                }
                Ok(&self.storage[*idx])
            },
            None => Err(StoreError::StorageNotFound),
        }
    }

    /// The entity in row `row`.
    pub fn get_entity(&self, row: usize) -> (r: Option<EntityId>)
        ensures
            r == if row < self.rows().len() {
                Some(self.rows()[row as int])
            } else {
                None
            },
    {
        if row < self.entities.len() {
            Some(self.entities[row])
        } else {
            None
        }
    }

    /// The schema.
    pub fn types(&self) -> (bundle: TypeBundle)
        ensures
            bundle.wf(),
            bundle@ == self.type_set(),
            bundle.seq() == self.schema().seq(),
    {
        self.schema.clone()
    }

    /// The schema, by reference.
    pub fn type_bundle(&self) -> (bundle: &TypeBundle)
        ensures
            *bundle == self.schema(),
    {
        &self.schema
    }

    /// The neighbour known under `type_id`, if any.
    pub fn edge(&self, type_id: ComponentType) -> (r: Option<usize>)
        ensures
            r == if self.edges().contains_key(type_id) {
                Some(self.edges()[type_id])
            } else {
                None
            },
    {
        match self.edges.get(&type_id) {
            Some(neighbour) => Some(*neighbour),
            None => None,
        }
    }

    /// Records `neighbour` as the neighbour under `type_id`.
    pub fn set_edge(&mut self, type_id: ComponentType, neighbour: usize)
        ensures
            final(self).edges() == old(self).edges().insert(type_id, neighbour),
            final(self).schema() == old(self).schema(),
            final(self).rows() == old(self).rows(),
            final(self).columns() == old(self).columns(),
            forall|t: ComponentType| final(self).slot(t) == old(self).slot(t),
            old(self).wf() ==> final(self).wf(),
    {
        self.edges.insert(type_id, neighbour);
    }

    /// Whether the schema holds `type_id`.
    pub fn has_type(&self, type_id: ComponentType) -> (b: bool)
        requires
            self.wf(),
        ensures
            b == self.type_set().contains(type_id),
    {
        self.index.get(&type_id).is_some()
    }

    /// Stores the entity `entity_id` with the components of `bundle` as a new
    /// last row and returns that row. The bundle has to hold exactly one
    /// component for each type of the schema.
    pub fn add(&mut self, bundle: ComponentBundle<C>, entity_id: EntityId) -> (row: usize)
        requires
            old(self).wf(),
            distinct_types(bundle@),
            types_of(bundle@) == old(self).type_set(),
        ensures
            final(self).wf(),
            final(self).schema() == old(self).schema(),
            final(self).edges() == old(self).edges(),
            row == old(self).rows().len(),
            final(self).rows() == old(self).rows().push(entity_id),
            final(self).row_map(row as int) == components_by_type(bundle@),
            forall|r: int| 0 <= r < row ==> final(self).row_map(r) == old(self).row_map(r),
    {
        let row: usize = self.entities.len();
        let mut boxes: Vec<ComponentBox<C>> = bundle.component_iter();
        let ghost all = boxes@;
        while boxes.len() > 0
            invariant
                old(self).wf(),
                distinct_types(all),
                types_of(all) == old(self).type_set(),
                boxes@.len() <= all.len(),
                boxes@ == all.subrange(0, boxes@.len() as int),
                self.schema == old(self).schema,
                self.index == old(self).index,
                self.entities == old(self).entities,
                self.edges == old(self).edges,
                self.storage@.len() == old(self).storage@.len(),
                forall|i: int|
                    0 <= i < self.storage@.len() ==> (#[trigger] self.storage@[i]).spec_type_id()
                        == old(self).storage@[i].spec_type_id(),
                forall|k: int|
                    boxes@.len() <= k < all.len() ==> self.storage@[old(self).slot(
                        (#[trigger] all[k]).type_id,
                    )]@ == old(self).storage@[old(self).slot(all[k].type_id)]@.push(
                        all[k].component,
                    ),
                forall|i: int|
                    0 <= i < self.storage@.len() && (forall|k: int|
                        boxes@.len() <= k < all.len() ==> old(self).slot((#[trigger] all[k]).type_id)
                            != i) ==> (#[trigger] self.storage@[i])@ == old(self).storage@[i]@,
            decreases boxes@.len(),
        {
            let ghost n = boxes@.len() - 1;
            let comp: ComponentBox<C> = boxes.pop().unwrap();
            assert(comp == all[n]);
            proof {
                assert(types_of(all).contains(comp.type_id));
                old(self).lemma_slot(comp.type_id);
            }
            let idx: usize = *self.index.get(&comp.type_id).unwrap();
            let ghost before = self.storage@;
            // The column was not pushed to yet: no later box shares the type.
            proof {
                assert forall|k: int| n < k < all.len() implies old(self).slot(
                    (#[trigger] all[k]).type_id,
                ) != idx by {
                    assert(types_of(all).contains(all[k].type_id));
                    old(self).lemma_slot(all[k].type_id);
                }
                assert(before[idx as int]@ == old(self).storage@[idx as int]@);
            }
            match self.storage[idx].push(comp) {
                Ok(()) => {},
                Err(_) => {},
            }
            proof {
                assert forall|k: int| n <= k < all.len() implies self.storage@[old(self).slot(
                    (#[trigger] all[k]).type_id,
                )]@ == old(self).storage@[old(self).slot(all[k].type_id)]@.push(
                    all[k].component,
                ) by {
                    if k > n {
                        assert(types_of(all).contains(all[k].type_id));
                        old(self).lemma_slot(all[k].type_id);
                    }
                }
            }
        }
        self.entities.push(entity_id);
        proof {
            assert forall|i: int| 0 <= i < self.columns().len() implies (
            #[trigger] self.columns()[i])@.len() == self.rows().len() by {
                let t = old(self).schema().seq()[i];
                old(self).lemma_slot_of_position(i);
                let k = choose|k: int| 0 <= k < all.len() && all[k].type_id == t;
                assert(old(self).slot(all[k].type_id) == i);
            }
            assert(self.entities.len() == self.entities@.len());
            assert(self.wf());
            assert forall|t: ComponentType| self.type_set().contains(t) implies self.column(t)
                == old(self).column(t).push(components_by_type(all)[t]) by {
                let k = choose|k: int| 0 <= k < all.len() && all[k].type_id == t;
                lemma_component_of_distinct(all, k);
            }
            assert(self.row_map(row as int) =~= components_by_type(all)) by {
                assert forall|t: ComponentType| self.type_set().contains(t) implies self.column(
                    t,
                )[row as int] == components_by_type(all)[t] by {
                    old(self).lemma_slot(t);
                }
            }
            assert forall|r: int| 0 <= r < row implies self.row_map(r) == old(self).row_map(r) by {
                assert forall|t: ComponentType| self.type_set().contains(t) implies self.column(t)[r]
                    == old(self).column(t)[r] by {
                    old(self).lemma_slot(t);
                }
                assert(self.row_map(r) =~= old(self).row_map(r));
            }
        }
        row
    }

    /// A new archetype whose schema is the set of the bundle's types and
    /// whose only row holds `entity_id` with the bundle's components.
    pub fn new(bundle: ComponentBundle<C>, entity_id: EntityId) -> (archetype: Self)
        requires
            distinct_types(bundle@),
        ensures
            archetype.wf(),
            archetype.type_set() == types_of(bundle@),
            archetype.rows() == seq![entity_id],
            archetype.row_map(0) == components_by_type(bundle@),
            archetype.edges() == Map::<ComponentType, usize>::empty(),
    {
        let schema: TypeBundle = bundle.types();
        let mut archetype: Archetype<C> = Archetype::with_schema(schema);
        archetype.add(bundle, entity_id);
        assert(archetype.rows() =~= seq![entity_id]);
        archetype
    }

    /// `self` keeps the schema, index and edges of `before`.
    spec fn same_frame(&self, before: &Self) -> bool {
        &&& self.schema == before.schema
        &&& self.index == before.index
        &&& self.edges == before.edges
        &&& self.storage@.len() == before.storage@.len()
        &&& forall|i: int|
            0 <= i < self.storage@.len() ==> (#[trigger] self.storage@[i]).spec_type_id()
                == before.storage@[i].spec_type_id()
    }

    /// Where every column and the entity list lost row `row` by swap-remove,
    /// the archetype is well-formed again and its rows are those of before,
    /// with the last one standing at `row`.
    proof fn lemma_row_taken(&self, before: &Self, row: int)
        requires
            before.wf(),
            0 <= row < before.rows().len(),
            self.same_frame(before),
            self.entities@ == rows_without(before.entities@, row),
            forall|i: int|
                0 <= i < self.storage@.len() ==> (#[trigger] self.storage@[i])@
                    == ComponentStore::<C>::without_row(before.storage@[i]@, row),
        ensures
            self.wf(),
            forall|r: int|
                0 <= r < self.rows().len() ==> #[trigger] self.row_map(r) == before.row_map(
                    if r == row {
                        before.rows().len() - 1
                    } else {
                        r
                    },
                ),
    {
        assert forall|r: int| 0 <= r < self.rows().len() implies #[trigger] self.row_map(r)
            == before.row_map(
            if r == row {
                before.rows().len() - 1
            } else {
                r
            },
        ) by {
            let from = if r == row {
                before.rows().len() - 1
            } else {
                r
            };
            assert forall|t: ComponentType| self.type_set().contains(t) implies self.column(t)[r]
                == before.column(t)[from] by {
                before.lemma_slot(t);
            }
            assert(self.row_map(r) =~= before.row_map(from));
        }
    }

    /// Where every column and the entity list gained a last row, the
    /// archetype is well-formed again and its earlier rows are unchanged.
    proof fn lemma_row_given(&self, before: &Self, entity: EntityId)
        requires
            before.wf(),
            self.same_frame(before),
            self.entities@ == before.entities@.push(entity),
            forall|i: int|
                0 <= i < self.storage@.len() ==> (#[trigger] self.storage@[i])@.len()
                    == before.storage@[i]@.len() + 1 && self.storage@[i]@.drop_last()
                    == before.storage@[i]@,
        ensures
            self.wf(),
            forall|r: int|
                0 <= r < before.rows().len() ==> #[trigger] self.row_map(r) == before.row_map(r),
    {
        assert(self.entities.len() == self.entities@.len());
        assert forall|r: int| 0 <= r < before.rows().len() implies #[trigger] self.row_map(r)
            == before.row_map(r) by {
            assert forall|t: ComponentType| self.type_set().contains(t) implies self.column(t)[r]
                == before.column(t)[r] by {
                before.lemma_slot(t);
                let i = before.slot(t);
                assert(self.storage@[i]@.drop_last()[r] == before.storage@[i]@[r]);
            }
            assert(self.row_map(r) =~= before.row_map(r));
        }
    }

    /// Takes row `row` out of the archetype and returns the entity that
    /// stood in the last row, together with the components of the row as a
    /// bundle. The last row moves into the gap: the returned entity now
    /// stands at `row`, unless `row` was the last row itself.
    pub fn migrate_to_bundle(&mut self, row: usize) -> (r: (EntityId, ComponentBundle<C>))
        requires
            old(self).wf(),
            row < old(self).rows().len(),
        ensures
            final(self).wf(),
            final(self).schema() == old(self).schema(),
            final(self).edges() == old(self).edges(),
            r.0 == old(self).rows().last(),
            final(self).rows() == rows_without(old(self).rows(), row as int),
            distinct_types(r.1@),
            types_of(r.1@) == old(self).type_set(),
            components_by_type(r.1@) == old(self).row_map(row as int),
            forall|k: int|
                0 <= k < final(self).rows().len() ==> #[trigger] final(self).row_map(k) == old(self).row_map(
                    if k == row {
                        old(self).rows().len() - 1
                    } else {
                        k
                    },
                ),
    {
        let mut bundle: ComponentBundle<C> = ComponentBundle::new();
        let entity: EntityId = self.get_last_entity();
        let mut idx: usize = 0;
        while idx < self.storage.len()
            invariant
                old(self).wf(),
                row < old(self).rows().len(),
                idx <= self.storage@.len(),
                self.same_frame(old(self)),
                self.entities == old(self).entities,
                bundle@.len() == idx,
                forall|i: int|
                    0 <= i < idx ==> (#[trigger] bundle@[i]) == (ComponentBox {
                        type_id: old(self).schema.seq()[i],
                        component: old(self).storage@[i]@[row as int],
                    }),
                forall|i: int|
                    0 <= i < idx ==> (#[trigger] self.storage@[i])@ == ComponentStore::<
                        C,
                    >::without_row(old(self).storage@[i]@, row as int),
                forall|i: int|
                    idx <= i < self.storage@.len() ==> (#[trigger] self.storage@[i])@ == old(self).storage@[i]@,
            decreases self.storage@.len() - idx,
        {
            assert(old(self).columns()[idx as int]@.len() == old(self).rows().len());
            let comp: ComponentBox<C> = self.storage[idx].swap_remove(row);
            bundle.insert_box(comp);
            idx = idx + 1;
        }
        self.entities.swap_remove(row);
        proof {
            self.lemma_row_taken(old(self), row as int);
            let boxes = bundle@;
            let schema = old(self).schema.seq();
            assert(distinct_types(boxes));
            assert forall|t: ComponentType| types_of(boxes).contains(t) == old(self).type_set().contains(t) by {
                if types_of(boxes).contains(t) {
                    let i = choose|i: int| 0 <= i < boxes.len() && boxes[i].type_id == t;
                    assert(schema[i] == t);
                    assert(schema.contains(t));
                }
                if old(self).type_set().contains(t) {
                    let i = choose|i: int| 0 <= i < schema.len() && schema[i] == t;
                    assert(schema.contains(t));
                    assert(boxes[i].type_id == t);
                }
            }
            assert(types_of(boxes) =~= old(self).type_set());
            assert forall|t: ComponentType| old(self).type_set().contains(
                t,
            ) implies components_by_type(boxes)[t] == old(self).column(t)[row as int] by {
                old(self).lemma_slot(t);
                let i = old(self).slot(t);
                lemma_component_of_distinct(boxes, i);
            }
            assert(components_by_type(boxes) =~= old(self).row_map(row as int));
        }
        (entity, bundle)
    }

    /// Takes row `row` out of the archetype, dropping its components, and
    /// returns the entity that stood in the last row: it now stands at
    /// `row`, unless `row` was the last row itself.
    pub fn remove(&mut self, row: usize) -> (moved: EntityId)
        requires
            old(self).wf(),
            row < old(self).rows().len(),
        ensures
            final(self).wf(),
            final(self).schema() == old(self).schema(),
            final(self).edges() == old(self).edges(),
            moved == old(self).rows().last(),
            final(self).rows() == rows_without(old(self).rows(), row as int),
            forall|k: int|
                0 <= k < final(self).rows().len() ==> #[trigger] final(self).row_map(k) == old(self).row_map(
                    if k == row {
                        old(self).rows().len() - 1
                    } else {
                        k
                    },
                ),
    {
        let (entity, _) = self.migrate_to_bundle(row);
        entity
    }

    /// Moves the entity in row `row` to the last row of `target`, whose
    /// schema differs from this one by the type of `op`, and returns the
    /// entity that stood in this archetype's last row together with the
    /// entity's new row in `target`.
    ///
    /// To attach a component, every column of this archetype hands its row
    /// to the column of the same type in `target`, and the new component is
    /// pushed to the one column that only `target` has. To detach one,
    /// every column of `target` receives its row from the column of the
    /// same type here, and the one column that only this archetype has
    /// drops its row.
    pub fn migrate(&mut self, target: &mut Self, row: usize, op: Migration<C>) -> (r: (
        EntityId,
        usize,
    ))
        requires
            old(self).wf(),
            old(target).wf(),
            row < old(self).rows().len(),
            op.fits(old(self).type_set()),
            old(target).type_set() == op.applied_to_types(old(self).type_set()),
        ensures
            final(self).wf(),
            final(target).wf(),
            final(self).schema() == old(self).schema(),
            final(self).edges() == old(self).edges(),
            final(target).schema() == old(target).schema(),
            final(target).edges() == old(target).edges(),
            r.0 == old(self).rows().last(),
            r.1 == old(target).rows().len(),
            final(self).rows() == rows_without(old(self).rows(), row as int),
            final(target).rows() == old(target).rows().push(old(self).rows()[row as int]),
            final(target).row_map(r.1 as int) == op.applied_to(old(self).row_map(row as int)),
            forall|k: int|
                0 <= k < old(target).rows().len() ==> #[trigger] final(target).row_map(k) == old(target).row_map(k),
            forall|k: int|
                0 <= k < final(self).rows().len() ==> #[trigger] final(self).row_map(k) == old(self).row_map(
                    if k == row {
                        old(self).rows().len() - 1
                    } else {
                        k
                    },
                ),
    {
        let moved: EntityId = self.get_last_entity();
        let target_row: usize = target.entities.len();
        let ghost source_before = *old(self);
        let ghost target_before = *old(target);
        match op {
            Migration::Add(comp) => {
                let mut idx: usize = 0;
                while idx < self.storage.len()
                    invariant
                        source_before.wf(),
                        target_before.wf(),
                        row < source_before.rows().len(),
                        !source_before.type_set().contains(comp.type_id),
                        target_before.type_set() == source_before.type_set().insert(comp.type_id),
                        idx <= self.storage@.len(),
                        self.same_frame(&source_before),
                        target.same_frame(&target_before),
                        self.entities == source_before.entities,
                        target.entities == target_before.entities,
                        forall|i: int|
                            0 <= i < idx ==> (#[trigger] self.storage@[i])@ == ComponentStore::<
                                C,
                            >::without_row(source_before.storage@[i]@, row as int),
                        forall|i: int|
                            idx <= i < self.storage@.len() ==> (#[trigger] self.storage@[i])@
                                == source_before.storage@[i]@,
                        forall|i: int|
                            0 <= i < idx ==> target.storage@[target_before.slot(
                                #[trigger] source_before.schema.seq()[i],
                            )]@ == target_before.storage@[target_before.slot(
                                source_before.schema.seq()[i],
                            )]@.push(source_before.storage@[i]@[row as int]),
                        forall|j: int|
                            0 <= j < target.storage@.len() && (forall|i: int|
                                0 <= i < idx ==> target_before.slot(
                                    #[trigger] source_before.schema.seq()[i],
                                ) != j) ==> (#[trigger] target.storage@[j])@
                                == target_before.storage@[j]@,
                    decreases self.storage@.len() - idx,
                {
                    let type_id: ComponentType = self.schema.get(idx).unwrap();
                    proof {
                        source_before.lemma_slot_of_position(idx as int);
                        assert(target_before.type_set().contains(type_id));
                        target_before.lemma_slot(type_id);
                        assert(source_before.columns()[idx as int]@.len()
                            == source_before.rows().len());
                    }
                    let to: usize = *target.index.get(&type_id).unwrap();
                    proof {
                        // No earlier column went to the same column of the target.
                        assert forall|i: int| 0 <= i < idx implies target_before.slot(
                            #[trigger] source_before.schema.seq()[i],
                        ) != to by {
                            source_before.lemma_slot_of_position(i);
                            target_before.lemma_slot(source_before.schema.seq()[i]);
                        }
                    }
                    match self.storage[idx].migrate(row, &mut target.storage[to]) {
                        Ok(()) => {},
                        Err(_) => {},
                    }
                    proof {
                        assert forall|i: int| 0 <= i < idx + 1 implies target.storage@[target_before.slot(
                            #[trigger] source_before.schema.seq()[i],
                        )]@ == target_before.storage@[target_before.slot(
                            source_before.schema.seq()[i],
                        )]@.push(source_before.storage@[i]@[row as int]) by {
                            if i < idx {
                                source_before.lemma_slot_of_position(i);
                                target_before.lemma_slot(source_before.schema.seq()[i]);
                            }
                        }
                    }
                    idx = idx + 1;
                }
                proof {
                    assert(target_before.type_set().contains(comp.type_id));
                    target_before.lemma_slot(comp.type_id);
                }
                let extra: usize = *target.index.get(&comp.type_id).unwrap();
                proof {
                    assert forall|i: int| 0 <= i < source_before.schema.seq().len() implies target_before.slot(
                        #[trigger] source_before.schema.seq()[i],
                    ) != extra by {
                        source_before.lemma_slot_of_position(i);
                        target_before.lemma_slot(source_before.schema.seq()[i]);
                    }
                    assert(target.storage@[extra as int]@ == target_before.storage@[extra as int]@);
                }
                let ghost added = comp;
                match target.storage[extra].push(comp) {
                    Ok(()) => {},
                    Err(_) => {},
                }
                let current: EntityId = self.entities.swap_remove(row);
                target.entities.push(current);
                proof {
                    self.lemma_row_taken(&source_before, row as int);
                    // Every column of the target gained the row.
                    assert forall|j: int| 0 <= j < target.storage@.len() implies (
                    #[trigger] target.storage@[j])@.len() == target_before.storage@[j]@.len() + 1
                        && target.storage@[j]@.drop_last() == target_before.storage@[j]@ by {
                        let t = target_before.schema.seq()[j];
                        target_before.lemma_slot_of_position(j);
                        if t != added.type_id {
                            assert(source_before.type_set().contains(t));
                            source_before.lemma_slot(t);
                            let i = source_before.slot(t);
                            assert(source_before.schema.seq()[i] == t);
                            assert(target.storage@[j]@ == target_before.storage@[j]@.push(
                                source_before.storage@[i]@[row as int],
                            ));
                        }
                        assert(target.storage@[j]@.drop_last() =~= target_before.storage@[j]@);
                    }
                    target.lemma_row_given(&target_before, current);
                    assert forall|t: ComponentType| target.type_set().contains(
                        t,
                    ) implies target.column(t)[target_row as int] == op.applied_to(
                        source_before.row_map(row as int),
                    )[t] by {
                        target_before.lemma_slot(t);
                        if t != added.type_id {
                            source_before.lemma_slot(t);
                            let i = source_before.slot(t);
                            assert(source_before.schema.seq()[i] == t);
                        }
                    }
                    assert(target.row_map(target_row as int) =~= op.applied_to(
                        source_before.row_map(row as int),
                    ));
                }
            },
            Migration::Remove(type_id) => {
                let mut idx: usize = 0;
                while idx < target.storage.len()
                    invariant
                        source_before.wf(),
                        target_before.wf(),
                        row < source_before.rows().len(),
                        source_before.type_set().contains(type_id),
                        target_before.type_set() == source_before.type_set().remove(type_id),
                        idx <= target.storage@.len(),
                        self.same_frame(&source_before),
                        target.same_frame(&target_before),
                        self.entities == source_before.entities,
                        target.entities == target_before.entities,
                        forall|j: int|
                            0 <= j < idx ==> (#[trigger] target.storage@[j])@
                                == target_before.storage@[j]@.push(
                                source_before.storage@[source_before.slot(
                                    target_before.schema.seq()[j],
                                )]@[row as int],
                            ),
                        forall|j: int|
                            idx <= j < target.storage@.len() ==> (#[trigger] target.storage@[j])@
                                == target_before.storage@[j]@,
                        forall|j: int|
                            0 <= j < idx ==> self.storage@[source_before.slot(
                                #[trigger] target_before.schema.seq()[j],
                            )]@ == ComponentStore::<C>::without_row(
                                source_before.storage@[source_before.slot(
                                    target_before.schema.seq()[j],
                                )]@,
                                row as int,
                            ),
                        forall|i: int|
                            0 <= i < self.storage@.len() && (forall|j: int|
                                0 <= j < idx ==> source_before.slot(
                                    #[trigger] target_before.schema.seq()[j],
                                ) != i) ==> (#[trigger] self.storage@[i])@
                                == source_before.storage@[i]@,
                    decreases target.storage@.len() - idx,
                {
                    let kept: ComponentType = target.schema.get(idx).unwrap();
                    proof {
                        target_before.lemma_slot_of_position(idx as int);
                        assert(source_before.type_set().contains(kept));
                        source_before.lemma_slot(kept);
                    }
                    let from: usize = *self.index.get(&kept).unwrap();
                    proof {
                        assert forall|j: int| 0 <= j < idx implies source_before.slot(
                            #[trigger] target_before.schema.seq()[j],
                        ) != from by {
                            target_before.lemma_slot_of_position(j);
                            source_before.lemma_slot(target_before.schema.seq()[j]);
                        }
                        assert(self.storage@[from as int]@ == source_before.storage@[from as int]@);
                        assert(source_before.columns()[from as int]@.len()
                            == source_before.rows().len());
                    }
                    match self.storage[from].migrate(row, &mut target.storage[idx]) {
                        Ok(()) => {},
                        Err(_) => {},
                    }
                    proof {
                        assert forall|j: int| 0 <= j < idx + 1 implies self.storage@[source_before.slot(
                            #[trigger] target_before.schema.seq()[j],
                        )]@ == ComponentStore::<C>::without_row(
                            source_before.storage@[source_before.slot(
                                target_before.schema.seq()[j],
                            )]@,
                            row as int,
                        ) by {
                            if j < idx {
                                target_before.lemma_slot_of_position(j);
                                source_before.lemma_slot(target_before.schema.seq()[j]);
                            }
                        }
                    }
                    idx = idx + 1;
                }
                proof {
                    source_before.lemma_slot(type_id);
                }
                let dropped: usize = *self.index.get(&type_id).unwrap();
                proof {
                    assert forall|j: int| 0 <= j < target_before.schema.seq().len() implies source_before.slot(
                        #[trigger] target_before.schema.seq()[j],
                    ) != dropped by {
                        target_before.lemma_slot_of_position(j);
                        source_before.lemma_slot(target_before.schema.seq()[j]);
                    }
                    assert(self.storage@[dropped as int]@ == source_before.storage@[dropped as int]@);
                    assert(source_before.columns()[dropped as int]@.len()
                        == source_before.rows().len());
                }
                self.storage[dropped].swap_remove(row);
                let current: EntityId = self.entities.swap_remove(row);
                target.entities.push(current);
                proof {
                    // Every column of the source lost the row.
                    assert forall|i: int| 0 <= i < self.storage@.len() implies (
                    #[trigger] self.storage@[i])@ == ComponentStore::<C>::without_row(
                        source_before.storage@[i]@,
                        row as int,
                    ) by {
                        let t = source_before.schema.seq()[i];
                        source_before.lemma_slot_of_position(i);
                        if t != type_id {
                            assert(target_before.type_set().contains(t));
                            target_before.lemma_slot(t);
                            let j = target_before.slot(t);
                            assert(target_before.schema.seq()[j] == t);
                        }
                    }
                    self.lemma_row_taken(&source_before, row as int);
                    assert forall|j: int| 0 <= j < target.storage@.len() implies (
                    #[trigger] target.storage@[j])@.len() == target_before.storage@[j]@.len() + 1
                        && target.storage@[j]@.drop_last() == target_before.storage@[j]@ by {
                        assert(target.storage@[j]@.drop_last() =~= target_before.storage@[j]@);
                    }
                    target.lemma_row_given(&target_before, current);
                    assert forall|t: ComponentType| target.type_set().contains(
                        t,
                    ) implies target.column(t)[target_row as int] == op.applied_to(
                        source_before.row_map(row as int),
                    )[t] by {
                        target_before.lemma_slot(t);
                        let j = target_before.slot(t);
                        assert(target_before.schema.seq()[j] == t);
                        source_before.lemma_slot(t);
                    }
                    assert(target.row_map(target_row as int) =~= op.applied_to(
                        source_before.row_map(row as int),
                    ));
                }
            },
        }
        (moved, target_row)
    }

    /// Runs `system` once for every row, in ascending order of rows.
    ///
    /// The system is shown the row's components of the fields of `plan`, in
    /// the order of the fields, and answers with new values for the fields
    /// to write, in their order. Values beyond the number of fields to
    /// write are dropped; a field for which the answer has no value keeps
    /// its component. The schema of the archetype has to hold every
    /// component type of the plan.
    pub fn run_rows<F: FnMut(&Vec<&C>) -> Vec<C>>(&mut self, plan: &QueryPlan, system: &mut F)
        requires
            old(self).wf(),
            plan.type_set().subset_of(old(self).type_set()),
            forall|row: &Vec<&C>| call_requires(*old(system), (row,)),
        ensures
            final(self).wf(),
            final(self).schema() == old(self).schema(),
            final(self).edges() == old(self).edges(),
            final(self).rows() == old(self).rows(),
            *final(system) == *old(system),
            forall|r: int|
                0 <= r < old(self).rows().len() ==> row_updated(
                    *old(system),
                    plan.fields(),
                    old(self).row_map(r),
                    #[trigger] final(self).row_map(r),
                ),
    {
        proof {
            use_type_invariant(plan);
            plan.lemma_wf();
        }
        let fields = plan.get_fields();
        let writes = plan.get_writes();
        let mut field_cols: Vec<usize> = Vec::new();
        let mut i: usize = 0;
        while i < fields.len()
            invariant
                i <= fields@.len(),
                *self == *old(self),
                self.wf(),
                fields@ == plan.fields(),
                forall|k: int|
                    0 <= k < plan.fields().len() ==> self.type_set().contains(
                        #[trigger] plan.fields()[k].component,
                    ),
                field_cols@.len() == i,
                forall|k: int|
                    0 <= k < i ==> (#[trigger] field_cols@[k]) == self.slot(fields@[k].component),
            decreases fields@.len() - i,
        {
            let type_id: ComponentType = fields[i].component;
            proof {
                assert(self.type_set().contains(plan.fields()[i as int].component));
                self.lemma_slot(type_id);
            }
            field_cols.push(*self.index.get(&type_id).unwrap());
            i = i + 1;
        }
        let mut write_cols: Vec<usize> = Vec::new();
        let mut j: usize = 0;
        while j < writes.len()
            invariant
                j <= writes@.len(),
                *self == *old(self),
                self.wf(),
                writes@ == plan.writes(),
                forall|k: int|
                    0 <= k < plan.writes().len() ==> self.type_set().contains(
                        #[trigger] plan.writes()[k],
                    ),
                write_cols@.len() == j,
                forall|k: int| 0 <= k < j ==> (#[trigger] write_cols@[k]) == self.slot(writes@[k]),
            decreases writes@.len() - j,
        {
            let type_id: ComponentType = writes[j];
            proof {
                assert(self.type_set().contains(plan.writes()[j as int]));
                self.lemma_slot(type_id);
            }
            write_cols.push(*self.index.get(&type_id).unwrap());
            j = j + 1;
        }
        proof {
            // Different fields to write have different columns.
            assert forall|a: int, b: int|
                0 <= a < write_cols@.len() && 0 <= b < write_cols@.len() && a
                    != b implies write_cols@[a] != write_cols@[b] by {
                old(self).lemma_slot(writes@[a]);
                old(self).lemma_slot(writes@[b]);
            }
        }
        let count: usize = self.entities.len();
        let mut row: usize = 0;
        while row < count
            invariant
                row <= count,
                count == old(self).entities@.len(),
                old(self).wf(),
                plan.wf(),
                plan.type_set().subset_of(old(self).type_set()),
                forall|shown: &Vec<&C>| call_requires(*system, (shown,)),
                *system == *old(system),
                fields@ == plan.fields(),
                writes@ == plan.writes(),
                self.same_frame(old(self)),
                self.entities == old(self).entities,
                field_cols@.len() == fields@.len(),
                forall|k: int|
                    0 <= k < field_cols@.len() ==> (#[trigger] field_cols@[k]) == old(self).slot(
                        fields@[k].component,
                    ),
                write_cols@.len() == writes@.len(),
                forall|k: int|
                    0 <= k < write_cols@.len() ==> (#[trigger] write_cols@[k]) == old(self).slot(
                        writes@[k],
                    ),
                forall|a: int, b: int|
                    0 <= a < write_cols@.len() && 0 <= b < write_cols@.len() && a != b
                        ==> write_cols@[a] != write_cols@[b],
                forall|c: int|
                    0 <= c < self.storage@.len() ==> (#[trigger] self.storage@[c])@.len() == count,
                forall|c: int, r: int|
                    0 <= c < self.storage@.len() && row <= r < count ==> (
                    #[trigger] self.storage@[c]@[r]) == old(self).storage@[c]@[r],
                forall|r: int|
                    0 <= r < row ==> row_updated(
                        *system,
                        plan.fields(),
                        old(self).row_map(r),
                        #[trigger] self.row_map(r),
                    ),
            decreases count - row,
        {
            let ghost start = *self;
            proof {
                plan.lemma_wf();
            }
            let mut view: Vec<&C> = Vec::new();
            let mut i: usize = 0;
            while i < field_cols.len()
                invariant
                    i <= field_cols@.len(),
                    row < count,
                    *self == start,
                    field_cols@.len() == fields@.len(),
                    fields@ == plan.fields(),
                    old(self).wf(),
                    self.same_frame(old(self)),
                    forall|k: int|
                        0 <= k < plan.fields().len() ==> old(self).type_set().contains(
                            #[trigger] plan.fields()[k].component,
                        ),
                    forall|k: int|
                        0 <= k < field_cols@.len() ==> (#[trigger] field_cols@[k])
                            == old(self).slot(fields@[k].component),
                    forall|c: int|
                        0 <= c < self.storage@.len() ==> (#[trigger] self.storage@[c])@.len()
                            == count,
                    view@.len() == i,
                    forall|k: int|
                        0 <= k < i ==> *(#[trigger] view@[k])
                            == self.storage@[field_cols@[k] as int]@[row as int],
                decreases field_cols@.len() - i,
            {
                let col: usize = field_cols[i];
                proof {
                    assert(old(self).type_set().contains(plan.fields()[i as int].component));
                    old(self).lemma_slot(fields@[i as int].component);
                }
                view.push(&self.storage[col].inner()[row]);
                i = i + 1;
            }
            let ghost shown = view;
            let mut out: Vec<C> = system(&view);
            let ghost answer = out;
            if out.len() > write_cols.len() {
                out.truncate(write_cols.len());
            }
            let ghost kept = out@;
            let mut j: usize = out.len();
            while j > 0
                invariant
                    j <= kept.len() <= write_cols@.len(),
                    row < count,
                    out@ == kept.subrange(0, j as int),
                    old(self).wf(),
                    self.same_frame(old(self)),
                    self.entities == old(self).entities,
                    writes@ == plan.writes(),
                    write_cols@.len() == writes@.len(),
                    forall|k: int|
                        0 <= k < plan.writes().len() ==> old(self).type_set().contains(
                            #[trigger] plan.writes()[k],
                        ),
                    forall|k: int|
                        0 <= k < write_cols@.len() ==> (#[trigger] write_cols@[k]) == old(self).slot(writes@[k]),
                    forall|a: int, b: int|
                        0 <= a < write_cols@.len() && 0 <= b < write_cols@.len() && a != b
                            ==> write_cols@[a] != write_cols@[b],
                    start.storage@.len() == self.storage@.len(),
                    forall|c: int|
                        0 <= c < start.storage@.len() ==> (#[trigger] start.storage@[c])@.len()
                            == count,
                    forall|k: int|
                        j <= k < kept.len() ==> self.storage@[(#[trigger] write_cols@[k]) as int]@
                            == start.storage@[write_cols@[k] as int]@.update(row as int, kept[k]),
                    forall|c: int|
                        0 <= c < self.storage@.len() && (forall|k: int|
                            j <= k < kept.len() ==> (#[trigger] write_cols@[k]) != c) ==> (
                        #[trigger] self.storage@[c])@ == start.storage@[c]@,
                decreases j,
            {
                j = j - 1;
                let value: C = out.pop().unwrap();
                let col: usize = write_cols[j];
                proof {
                    assert(old(self).type_set().contains(plan.writes()[j as int]));
                    old(self).lemma_slot(writes@[j as int]);
                    assert(self.storage@[col as int]@ == start.storage@[col as int]@);
                }
                self.storage[col].replace(row, value);
            }
            proof {
                // Columns keep their length, and rows other than `row` their components.
                assert forall|c: int| 0 <= c < self.storage@.len() implies (
                #[trigger] self.storage@[c])@.len() == count && forall|r: int|
                    0 <= r < count && r != row ==> self.storage@[c]@[r] == start.storage@[c]@[r] by {
                    if exists|k: int| 0 <= k < kept.len() && write_cols@[k] == c {
                        let k = choose|k: int| 0 <= k < kept.len() && write_cols@[k] == c;
                        assert(self.storage@[write_cols@[k] as int]@ == start.storage@[write_cols@[k] as int]@.update(
                            row as int,
                            kept[k],
                        ));
                    }
                }
                assert(self.wf());
                assert forall|r: int| 0 <= r < count && r != row implies #[trigger] self.row_map(r)
                    == start.row_map(r) by {
                    assert forall|t: ComponentType| self.type_set().contains(t) implies self.column(
                        t,
                    )[r] == start.column(t)[r] by {
                        old(self).lemma_slot(t);
                    }
                    assert(self.row_map(r) =~= start.row_map(r));
                }
                assert forall|r: int| 0 <= r < row implies row_updated(
                        *system,
                        plan.fields(),
                    old(self).row_map(r),
                    #[trigger] self.row_map(r),
                ) by {
                    assert(self.row_map(r) == start.row_map(r));
                }
                // The row itself.
                let before = old(self).row_map(row as int);
                let after = self.row_map(row as int);
                assert(after.dom() =~= before.dom());
                assert forall|k: int| 0 <= k < shown@.len() implies *(#[trigger] shown@[k])
                    == before[plan.fields()[k].component] by {
                    let t = plan.fields()[k].component;
                    assert(old(self).type_set().contains(plan.fields()[k].component));
                    old(self).lemma_slot(t);
                    let c = field_cols@[k] as int;
                    assert(start.storage@[c]@[row as int] == old(self).storage@[c]@[row as int]);
                }
                assert forall|k: int| 0 <= k < plan.writes().len() implies after[
                #[trigger] plan.writes()[k]] == if k < answer@.len() {
                    answer@[k]
                } else {
                    before[plan.writes()[k]]
                } by {
                    let t = plan.writes()[k];
                    old(self).lemma_slot(t);
                    assert(write_cols@[k] == old(self).slot(t));
                    if k < answer@.len() {
                        assert(k < kept.len());
                        assert(kept[k] == answer@[k]);
                    } else {
                        assert(kept.len() <= k);
                        let c = write_cols@[k] as int;
                        assert(start.storage@[c]@[row as int] == old(self).storage@[c]@[row as int]);
                    }
                }
                assert forall|t: ComponentType|
                    before.dom().contains(t) && !plan.writes().contains(t) implies #[trigger] after[t]
                    == before[t] by {
                    old(self).lemma_slot(t);
                    let c = old(self).slot(t);
                    assert forall|k: int| 0 <= k < kept.len() implies (#[trigger] write_cols@[k])
                        != c by {
                        if write_cols@[k] == c {
                            old(self).lemma_slot(writes@[k]);
                            assert(old(self).type_set().contains(plan.writes()[k]));
                            assert(writes@[k] == t);
                            assert(plan.writes().contains(t));
                        }
                    }
                    assert(start.storage@[c]@[row as int] == old(self).storage@[c]@[row as int]);
                }
                assert(call_ensures(*system, (&shown,), answer));
                assert(row_updated(
                        *system,
                        plan.fields(), before, after));
            }
            row = row + 1;
        }
    }
}

impl<C> Default for Archetype<C> {
    fn default() -> (archetype: Self)
        ensures
            archetype.wf(),
            archetype.type_set() == Set::<ComponentType>::empty(),
            archetype.rows() == Seq::<EntityId>::empty(),
            archetype.edges() == Map::<ComponentType, usize>::empty(),
    {
        Archetype::with_schema(TypeBundle::new())
    }
}

} // verus!
