//! The world: all archetypes, the entity registry and the cache of query matches.
//!
//! Seen from outside, a world is a map from the ids of its live entities to
//! their components. Inside, the components of an entity stand in one row
//! of the archetype of its component set, and the registry knows which.

use vstd::prelude::*;
use crate::archetype::{row_updated, rows_without, Archetype, Migration};
use crate::bundle::{components_by_type, distinct_types, types_of, ComponentBundle, TypeBundle};
use crate::component::{ComponentBox, ComponentType};
use crate::entity::{Entity, EntityId, EntityStore, Location};
use crate::errors::{EcsError, EntityError};
use crate::query::{
    components_of,
    components_with,
    distinct_components,
    Access,
    QueryField,
    QueryModel,
    QueryPlan,
};

verus! {

/// The archetypes that match one set of component types, as far as known.
struct CacheEntry {
    key: TypeBundle,
    matches: Vec<usize>,
}

/// `list` names, in ascending order and each once, exactly those of
/// `archetypes` whose schema holds every type of `types`.
pub open spec fn is_match_list<C>(
    archetypes: Seq<Archetype<C>>,
    types: Set<ComponentType>,
    list: Seq<usize>,
) -> bool {
    &&& forall|i: int, j: int| 0 <= i < j < list.len() ==> list[i] < list[j]
    &&& forall|k: int|
        0 <= k < list.len() ==> (#[trigger] list[k]) < archetypes.len() && types.subset_of(
            archetypes[list[k] as int].type_set(),
        )
    &&& forall|a: int|
        0 <= a < archetypes.len() && types.subset_of((#[trigger] archetypes[a]).type_set())
            ==> list.contains(a as usize)
}

/// The entities of the archetypes that `list` names, archetype by
/// archetype in the order of `list`, and row by row within each.
pub open spec fn rows_in<C>(archetypes: Seq<Archetype<C>>, list: Seq<usize>) -> Seq<EntityId>
    decreases list.len(),
{
    if list.len() == 0 {
        Seq::empty()
    } else {
        rows_in(archetypes, list.drop_last()) + archetypes[list.last() as int].rows()
    }
}

/// All archetypes, the registry of entities and the cache of query matches.
pub struct World<C> {
    archetypes: Vec<Archetype<C>>,
    entities: EntityStore,
    inclusive_index: Vec<CacheEntry>,
    in_query: bool,
}

impl<C> View for World<C> {
    type V = Map<EntityId, Map<ComponentType, C>>;

    /// The components of every live entity, by type.
    open spec fn view(&self) -> Map<EntityId, Map<ComponentType, C>> {
        Map::new(|e: EntityId| self.registry().is_live(e), |e: EntityId| self.components_of(e))
    }
}

impl<C> World<C> {
    /// The archetypes, by index.
    pub closed spec fn archetypes(&self) -> Seq<Archetype<C>> {
        self.archetypes@
    }

    /// The registry of entities.
    pub closed spec fn registry(&self) -> EntityStore {
        self.entities
    }

    /// The sets of component types for which the matching archetypes are cached.
    pub closed spec fn cached_keys(&self) -> Seq<Set<ComponentType>> {
        Seq::new(self.inclusive_index@.len(), |k: int| self.inclusive_index@[k].key@)
    }

    /// The cached lists of matching archetypes, in the order of `cached_keys`.
    pub closed spec fn cached_lists(&self) -> Seq<Seq<usize>> {
        Seq::new(self.inclusive_index@.len(), |k: int| self.inclusive_index@[k].matches@)
    }

    /// The keys of the cache are in canonical form.
    pub closed spec fn cache_keys_canonical(&self) -> bool {
        forall|k: int|
            0 <= k < self.inclusive_index@.len() ==> (#[trigger] self.inclusive_index@[k]).key.wf()
    }

    /// Whether a query is open, which forbids structural changes.
    pub closed spec fn query_open(&self) -> bool {
        self.in_query
    }

    /// Where the registry places the live entity `e`.
    pub open spec fn location_of(&self, e: EntityId) -> Location {
        self.registry().slots()[e.id as int].location->Some_0
    }

    /// The components of the live entity `e`, by type.
    pub open spec fn components_of(&self, e: EntityId) -> Map<ComponentType, C> {
        self.archetypes()[self.location_of(e).archetype as int].row_map(
            self.location_of(e).row as int,
        )
    }

    /// How often the registry slot of index `index` was freed.
    pub open spec fn generation_of(&self, index: int) -> nat {
        self.registry().generation_of(index)
    }

    /// Column parity: every archetype is well-formed, so each of its columns
    /// is as long as its entity list.
    pub open spec fn column_parity(&self) -> bool {
        forall|a: int| 0 <= a < self.archetypes().len() ==> (#[trigger] self.archetypes()[a]).wf()
    }

    /// Schema uniqueness: no two archetypes store the same component set.
    pub open spec fn schemas_unique(&self) -> bool {
        forall|a: int, b: int|
            0 <= a < self.archetypes().len() && 0 <= b < self.archetypes().len() && a != b ==> (
            #[trigger] self.archetypes()[a]).type_set() != (
            #[trigger] self.archetypes()[b]).type_set()
    }

    /// Location consistency: a placed slot names a row that holds the
    /// entity of that slot, and every row holds an entity that the registry
    /// places in that row.
    pub open spec fn locations_consistent(&self) -> bool {
        &&& forall|i: int|
            0 <= i < self.registry().slots().len() && (
            #[trigger] self.registry().slots()[i]).location is Some ==> {
                let slot = self.registry().slots()[i];
                let at = slot.location->Some_0;
                &&& !slot.retired
                &&& at.archetype < self.archetypes().len()
                &&& at.row < self.archetypes()[at.archetype as int].rows().len()
                &&& self.archetypes()[at.archetype as int].rows()[at.row as int] == (EntityId {
                    id: i as u32,
                    generation: slot.generation,
                })
            }
        &&& forall|a: int, r: int|
            0 <= a < self.archetypes().len() && 0 <= r < self.archetypes()[a].rows().len()
                ==> self.registry().status(#[trigger] self.archetypes()[a].rows()[r]) == Ok::<
                Option<Location>,
                EntityError,
            >(Some(Location { archetype: a as usize, row: r as usize }))
    }

    /// Edge symmetry: an edge under a type leads to an archetype that has
    /// the edge back under the same type, and the two schemas differ by
    /// exactly that type.
    pub open spec fn edges_symmetric(&self) -> bool {
        forall|a: int, t: ComponentType|
            0 <= a < self.archetypes().len() && (#[trigger] self.archetypes()[a].edges().contains_key(
                t,
            )) ==> {
                let b = self.archetypes()[a].edges()[t] as int;
                &&& b < self.archetypes().len()
                &&& self.archetypes()[b].edges().contains_key(t)
                &&& self.archetypes()[b].edges()[t] == a
                &&& self.archetypes()[a].type_set().contains(t)
                    != self.archetypes()[b].type_set().contains(t)
                &&& self.archetypes()[a].type_set().insert(t)
                    == self.archetypes()[b].type_set().insert(t)
            }
    }

    /// Query soundness: every cached list names exactly the archetypes that
    /// match its key, in ascending order and each once.
    pub open spec fn inclusive_sound(&self) -> bool {
        &&& self.cached_keys().len() == self.cached_lists().len()
        &&& forall|k: int|
            0 <= k < self.cached_keys().len() ==> is_match_list(
                self.archetypes(),
                #[trigger] self.cached_keys()[k],
                self.cached_lists()[k],
            )
    }

    /// The invariants of the archetype list and the cache, apart from the
    /// registry: the archetype of the empty component set stands at index 0,
    /// and column parity, schema uniqueness, edge symmetry and query
    /// soundness hold.
    pub open spec fn structure_wf(&self) -> bool {
        &&& 0 < self.archetypes().len() <= usize::MAX
        &&& self.archetypes()[0].type_set() == Set::<ComponentType>::empty()
        &&& self.column_parity()
        &&& self.schemas_unique()
        &&& self.edges_symmetric()
        &&& self.inclusive_sound()
        &&& self.cache_keys_canonical()
    }

    /// Well-formedness: the invariants of the structure, a well-formed
    /// registry and location consistency between the two.
    pub open spec fn wf(&self) -> bool {
        &&& self.registry().wf()
        &&& self.structure_wf()
        &&& self.locations_consistent()
    }

    /// Nothing of the world differs from `before`.
    pub open spec fn unchanged_from(&self, before: &Self) -> bool {
        &&& self.archetypes() == before.archetypes()
        &&& self.registry().slots() == before.registry().slots()
        &&& self.registry().free_list() == before.registry().free_list()
        &&& self.registry().limit() == before.registry().limit()
        &&& self.cached_keys() == before.cached_keys()
        &&& self.cached_lists() == before.cached_lists()
        &&& self.query_open() == before.query_open()
    }

    /// The error with which a structural change is refused before it
    /// starts, if any: an open query forbids every such change.
    pub open spec fn refusal(&self) -> Option<EcsError> {
        if self.query_open() {
            Some(EcsError::StructuralMutationDuringQuery)
        } else {
            None
        }
    }

    /// The error with which `id` fails to name a live entity, if any.
    pub open spec fn lookup_error(&self, id: EntityId) -> Option<EcsError> {
        match self.registry().status(id) {
            Ok(Some(_)) => None,
            Ok(None) => Some(EcsError::EntityAlreadyFreed),
            Err(e) => Some(e.lifted()),
        }
    }

    /// What a run of `system` over the rows that match `fields` makes of
    /// the world `before`: the same entities with the same component types;
    /// every entity that has all component types of the fields with its
    /// row updated by one call of the system, every other entity as it was;
    /// and `visited` the matching entities in the order of the calls, by
    /// ascending archetype index and row.
    pub open spec fn query_applied<F: FnMut(&Vec<&C>) -> Vec<C>>(
        &self,
        before: &Self,
        fields: Seq<QueryField>,
        system: F,
        visited: Seq<EntityId>,
    ) -> bool {
        &&& self@.dom() == before@.dom()
        &&& forall|e: EntityId|
            before@.contains_key(e) ==> if components_of(fields).to_set().subset_of(
                before@[e].dom(),
            ) {
                row_updated(system, fields, before@[e], #[trigger] self@[e])
            } else {
                self@[e] == before@[e]
            }
        &&& exists|list: Seq<usize>|
            #[trigger] is_match_list(before.archetypes(), components_of(fields).to_set(), list)
                && visited == rows_in(before.archetypes(), list)
    }

    /// No archetype of `before` was destroyed: each stands at its index,
    /// with its schema.
    pub open spec fn keeps_archetypes_of(&self, before: &Self) -> bool {
        &&& self.archetypes().len() >= before.archetypes().len()
        &&& forall|a: int|
            0 <= a < before.archetypes().len() ==> (#[trigger] self.archetypes()[a]).schema()
                == before.archetypes()[a].schema()
    }

    /// This world is what a successful `spawn` makes of `before`: the id
    /// is the one the registry hands out next, it was not alive, and the
    /// world has gained it with `components` and is otherwise as it was.
    pub open spec fn spawned(
        &self,
        before: &Self,
        components: Map<ComponentType, C>,
        id: EntityId,
    ) -> bool {
        &&& self.wf()
        &&& self.query_open() == before.query_open()
        &&& id == before.registry().next_id()
        &&& !before@.contains_key(id)
        &&& self@ == before@.insert(id, components)
        &&& self.same_generations_as(before)
        &&& self.keeps_archetypes_of(before)
    }

    /// This world is what a successful `kill` of `id` makes of `before`:
    /// the entity was alive, the world has lost it and is otherwise as it
    /// was, the generation of the id's slot has grown by one and that of no
    /// other slot has changed, and the index waits for reuse unless the
    /// generation was the last.
    pub open spec fn killed(&self, before: &Self, id: EntityId) -> bool {
        &&& self.wf()
        &&& self.query_open() == before.query_open()
        &&& before@.contains_key(id)
        &&& self@ == before@.remove(id)
        &&& self.registry().slots().len() == before.registry().slots().len()
        &&& forall|i: int|
            0 <= i < before.registry().slots().len() ==> self.generation_of(i)
                == before.generation_of(i) + if i == id.id {
                1nat
            } else {
                0nat
            }
        &&& self.registry().free_list() == if id.generation < u32::MAX {
            before.registry().free_list().push(id.id)
        } else {
            before.registry().free_list()
        }
        &&& self.keeps_archetypes_of(before)
        &&& self.archetypes().len() == before.archetypes().len()
    }

    /// This world is what a successful `migrate` of `id` by `op` makes of
    /// `before`: the entity was alive, the change fits its component set,
    /// and the world differs only in the components of the entity, which
    /// are the old ones changed by `op`. The archetype that the entity
    /// left now has an edge, under the type of `op`, to the archetype that
    /// holds the entity.
    pub open spec fn migrated(&self, before: &Self, id: EntityId, op: Migration<C>) -> bool {
        &&& self.wf()
        &&& self.query_open() == before.query_open()
        &&& before@.contains_key(id)
        &&& op.fits(before@[id].dom())
        &&& self@ == before@.insert(id, op.applied_to(before@[id]))
        &&& self.same_generations_as(before)
        &&& self.registry().slots().len() == before.registry().slots().len()
        &&& self.registry().free_list() == before.registry().free_list()
        &&& self.keeps_archetypes_of(before)
        &&& self.archetypes()[before.location_of(id).archetype as int].edges().contains_key(
            op.delta(),
        )
        &&& self.archetypes()[before.location_of(id).archetype as int].edges()[op.delta()]
            == self.location_of(id).archetype
    }

    /// The generations of the slots that `before` has are the same here.
    pub open spec fn same_generations_as(&self, before: &Self) -> bool {
        &&& self.registry().slots().len() >= before.registry().slots().len()
        &&& forall|i: int|
            0 <= i < before.registry().slots().len() ==> self.generation_of(i)
                == before.generation_of(i)
    }

    /// A world without entities: its only archetype is that of the empty
    /// component set, at index 0, without rows and without edges; no list
    /// of matches is cached, no query is open, and the registry has handed
    /// out no index yet.
    pub fn init() -> (world: Self)
        ensures
            world.wf(),
            world@ == Map::<EntityId, Map<ComponentType, C>>::empty(),
            world.archetypes().len() == 1,
            world.archetypes()[0].type_set() == Set::<ComponentType>::empty(),
            world.archetypes()[0].rows() == Seq::<EntityId>::empty(),
            world.archetypes()[0].edges() == Map::<ComponentType, usize>::empty(),
            world.cached_keys() == Seq::<Set<ComponentType>>::empty(),
            world.cached_lists() == Seq::<Seq<usize>>::empty(),
            world.registry().slots() == Seq::<Entity>::empty(),
            world.registry().free_list() == Seq::<u32>::empty(),
            world.registry().limit() == u32::MAX,
            !world.query_open(),
    {
        let mut archetypes: Vec<Archetype<C>> = Vec::new();
        archetypes.push(Archetype::default());
        let world = World {
            archetypes,
            entities: EntityStore::new(),
            inclusive_index: Vec::new(),
            in_query: false,
        };
        assert(world@ =~= Map::<EntityId, Map<ComponentType, C>>::empty());
        assert(world.cached_keys() =~= Seq::<Set<ComponentType>>::empty());
        assert(world.cached_lists() =~= Seq::<Seq<usize>>::empty());
        world
    }

    /// A world without entities whose registry hands out up to `limit` indices.
    pub fn with_limit(limit: u32) -> (world: Self)
        ensures
            world.wf(),
            world@ == Map::<EntityId, Map<ComponentType, C>>::empty(),
            world.archetypes().len() == 1,
            world.archetypes()[0].rows().len() == 0,
            world.registry().slots().len() == 0,
            world.registry().free_list().len() == 0,
            world.registry().limit() == limit,
            !world.query_open(),
    {
        let mut archetypes: Vec<Archetype<C>> = Vec::new();
        archetypes.push(Archetype::default());
        let world = World {
            archetypes,
            entities: EntityStore::with_limit(limit),
            inclusive_index: Vec::new(),
            in_query: false,
        };
        assert(world@ =~= Map::<EntityId, Map<ComponentType, C>>::empty());
        world
    }

    /// A world without entities, as `init` makes it.
    pub fn new() -> (world: Self)
        ensures
            world.wf(),
            world@ == Map::<EntityId, Map<ComponentType, C>>::empty(),
            world.archetypes().len() == 1,
            world.archetypes()[0].rows().len() == 0,
            world.registry().slots().len() == 0,
            world.registry().free_list().len() == 0,
            world.registry().limit() == u32::MAX,
            !world.query_open(),
    {
        Self::init()
    }

    /// The number of archetypes.
    pub fn archetype_count(&self) -> (n: usize)
        ensures
            n == self.archetypes().len(),
    {
        self.archetypes.len()
    }

    /// The archetype of index `index`.
    pub fn archetype(&self, index: usize) -> (r: Option<&Archetype<C>>)
        ensures
            r == if index < self.archetypes().len() {
                Some(&self.archetypes()[index as int])
            } else {
                None
            },
    {
        if index < self.archetypes.len() {
            Some(&self.archetypes[index])
        } else {
            None
        }
    }

    /// The registry of entities.
    pub fn entities(&self) -> (registry: &EntityStore)
        ensures
            *registry == self.registry(),
    {
        &self.entities
    }

    /// Whether a query is open.
    pub fn in_query(&self) -> (b: bool)
        ensures
            b == self.query_open(),
    {
        self.in_query
    }

    /// The index of the archetype that stores the component set `types`.
    fn get_archetype_id(&self, types: &TypeBundle) -> (r: Option<usize>)
        requires
            self.column_parity(),
            types.wf(),
        ensures
            match r {
                Some(a) => a < self.archetypes().len() && self.archetypes()[a as int].type_set()
                    == types@,
                None => forall|a: int|
                    0 <= a < self.archetypes().len() ==> (#[trigger] self.archetypes()[a]).type_set()
                        != types@,
            },
    {
        let mut a: usize = 0;
        while a < self.archetypes.len()
            invariant
                a <= self.archetypes@.len(),
                forall|b: int|
                    0 <= b < a ==> (#[trigger] self.archetypes()[b]).type_set() != types@,
            decreases self.archetypes@.len() - a,
        {
            if *self.archetypes[a].type_bundle() == *types {
                return Some(a);
            }
            a = a + 1;
        }
        None
    }

    /// The cache entries from `from` up to `to` list the matches among `archetypes`.
    spec fn cache_sound_between(&self, archetypes: Seq<Archetype<C>>, from: int, to: int) -> bool {
        forall|k: int|
            from <= k < to ==> is_match_list(
                archetypes,
                (#[trigger] self.inclusive_index@[k]).key@,
                self.inclusive_index@[k].matches@,
            )
    }

    /// Brings the cache up to date after the archetype `archetype_id` was
    /// appended: every cached list whose key the new schema holds gains the
    /// new index.
    fn update_inclusive_index(&mut self, types: &TypeBundle, archetype_id: usize)
        requires
            old(self).archetypes@.len() > 0,
            archetype_id == old(self).archetypes@.len() - 1,
            types@ == old(self).archetypes@[archetype_id as int].type_set(),
            old(self).cache_keys_canonical(),
            old(self).cache_sound_between(
                old(self).archetypes@.drop_last(),
                0,
                old(self).inclusive_index@.len() as int,
            ),
        ensures
            final(self).archetypes == old(self).archetypes,
            final(self).entities == old(self).entities,
            final(self).in_query == old(self).in_query,
            final(self).cache_keys_canonical(),
            final(self).inclusive_sound(),
            final(self).cached_keys() == old(self).cached_keys(),
    {
        let ghost shorter = self.archetypes@.drop_last();
        let mut k: usize = 0;
        while k < self.inclusive_index.len()
            invariant
                k <= self.inclusive_index@.len(),
                self.archetypes == old(self).archetypes,
                self.entities == old(self).entities,
                self.in_query == old(self).in_query,
                self.archetypes@.len() > 0,
                archetype_id == self.archetypes@.len() - 1,
                shorter == self.archetypes@.drop_last(),
                types@ == self.archetypes@[archetype_id as int].type_set(),
                self.inclusive_index@.len() == old(self).inclusive_index@.len(),
                forall|j: int|
                    0 <= j < self.inclusive_index@.len() ==> (#[trigger] self.inclusive_index@[j]).key
                        == old(self).inclusive_index@[j].key,
                self.cache_keys_canonical(),
                self.cache_sound_between(self.archetypes@, 0, k as int),
                self.cache_sound_between(shorter, k as int, self.inclusive_index@.len() as int),
            decreases self.inclusive_index@.len() - k,
        {
            let ghost before = self.inclusive_index@[k as int].matches@;
            let ghost key = self.inclusive_index@[k as int].key@;
            assert(is_match_list(shorter, key, before));
            let matched: bool = types.contains(&self.inclusive_index[k].key);
            if matched {
                self.inclusive_index[k].matches.push(archetype_id);
            }
            proof {
                let after = self.inclusive_index@[k as int].matches@;
                let full = self.archetypes@;
                assert forall|j: int| 0 <= j < after.len() implies (#[trigger] after[j]) < full.len()
                    && key.subset_of(full[after[j] as int].type_set()) by {
                    if j < before.len() {
                        assert(after[j] == before[j]);
                        assert(full[before[j] as int] == shorter[before[j] as int]);
                    }
                }
                assert forall|a: int|
                    0 <= a < full.len() && key.subset_of(
                        (#[trigger] full[a]).type_set(),
                    ) implies after.contains(a as usize) by {
                    if a < shorter.len() {
                        assert(full[a] == shorter[a]);
                        assert(before.contains(a as usize));
                        let j = choose|j: int| 0 <= j < before.len() && before[j] == a as usize;
                        assert(after[j] == a as usize);
                    } else {
                        assert(after[after.len() - 1] == archetype_id);
                    }
                }
                assert(is_match_list(full, key, after));
            }
            k = k + 1;
        }
        proof {
            assert(self.cached_keys() =~= old(self).cached_keys());
        }
    }

    /// Appends `archetype` to the archetype list, brings the cache up to
    /// date and returns the new index.
    fn register_archetype(&mut self, archetype: Archetype<C>) -> (index: usize)
        requires
            old(self).structure_wf(),
            archetype.wf(),
            archetype.edges() == Map::<ComponentType, usize>::empty(),
            forall|a: int|
                0 <= a < old(self).archetypes().len() ==> (
                #[trigger] old(self).archetypes()[a]).type_set() != archetype.type_set(),
        ensures
            final(self).structure_wf(),
            index == old(self).archetypes().len(),
            final(self).archetypes() == old(self).archetypes().push(archetype),
            final(self).registry() == old(self).registry(),
            final(self).query_open() == old(self).query_open(),
            final(self).cached_keys() == old(self).cached_keys(),
    {
        let types: TypeBundle = archetype.types();
        let archetype_id: usize = self.archetypes.len();
        self.archetypes.push(archetype);
        proof {
            assert(self.archetypes@.drop_last() =~= old(self).archetypes@);
            assert forall|k: int| 0 <= k < self.inclusive_index@.len() implies is_match_list(
                old(self).archetypes@,
                (#[trigger] self.inclusive_index@[k]).key@,
                self.inclusive_index@[k].matches@,
            ) by {
                assert(old(self).cached_keys()[k] == self.inclusive_index@[k].key@);
                assert(old(self).cached_lists()[k] == self.inclusive_index@[k].matches@);
            }
        }
        self.update_inclusive_index(&types, archetype_id);
        proof {
            assert(self.archetypes.len() == self.archetypes@.len());
            let full = self.archetypes();
            let before = old(self).archetypes();
            assert forall|a: int, t: ComponentType|
                0 <= a < full.len() && (#[trigger] full[a].edges().contains_key(t)) implies {
                let b = full[a].edges()[t] as int;
                &&& b < full.len()
                &&& full[b].edges().contains_key(t)
                &&& full[b].edges()[t] == a
                &&& full[a].type_set().contains(t) != full[b].type_set().contains(t)
                &&& full[a].type_set().insert(t) == full[b].type_set().insert(t)
            } by {
                assert(a < before.len());
                assert(before[a].edges().contains_key(t));
                let b = before[a].edges()[t] as int;
                assert(full[b] == before[b]);
            }
        }
        archetype_id
    }

    /// A new archetype for the component set of `bundle`, with `entity` and
    /// the bundle's components in its only row. Returns its index.
    fn push_archetype(&mut self, bundle: ComponentBundle<C>, entity: EntityId) -> (index: usize)
        requires
            old(self).structure_wf(),
            distinct_types(bundle@),
            forall|a: int|
                0 <= a < old(self).archetypes().len() ==> (
                #[trigger] old(self).archetypes()[a]).type_set() != types_of(bundle@),
        ensures
            final(self).structure_wf(),
            index == old(self).archetypes().len(),
            final(self).archetypes().len() == old(self).archetypes().len() + 1,
            final(self).archetypes().drop_last() == old(self).archetypes(),
            final(self).archetypes().last().rows() == seq![entity],
            final(self).archetypes().last().row_map(0) == components_by_type(bundle@),
            final(self).archetypes().last().type_set() == types_of(bundle@),
            final(self).registry() == old(self).registry(),
            final(self).query_open() == old(self).query_open(),
    {
        let archetype: Archetype<C> = Archetype::new(bundle, entity);
        let index: usize = self.register_archetype(archetype);
        assert(self.archetypes().drop_last() =~= old(self).archetypes());
        index
    }

    /// The indices of the archetypes whose schema holds every type of
    /// `types`, in ascending order, which is the order in which the
    /// archetypes were made. The list is taken from the cache; where the
    /// cache has none for `types`, the archetypes are scanned once and the
    /// list is cached.
    pub fn get_archetypes_inclusive(&mut self, types: &TypeBundle) -> (list: Vec<usize>)
        requires
            old(self).wf(),
        ensures
            final(self).wf(),
            is_match_list(final(self).archetypes(), types@, list@),
            final(self).archetypes() == old(self).archetypes(),
            final(self).registry() == old(self).registry(),
            final(self).query_open() == old(self).query_open(),
            final(self)@ == old(self)@,
            final(self).cached_keys().contains(types@),
            final(self).cached_keys() == if old(self).cached_keys().contains(types@) {
                old(self).cached_keys()
            } else {
                old(self).cached_keys().push(types@)
            },
    {
        proof {
            use_type_invariant(types);
        }
        let mut k: usize = 0;
        while k < self.inclusive_index.len()
            invariant
                k <= self.inclusive_index@.len(),
                *self == *old(self),
                self.wf(),
                forall|j: int| 0 <= j < k ==> (#[trigger] self.inclusive_index@[j]).key@ != types@,
            decreases self.inclusive_index@.len() - k,
        {
            if self.inclusive_index[k].key == *types {
                let list: Vec<usize> = copy_list(&self.inclusive_index[k].matches);
                proof {
                    assert(self.cached_keys()[k as int] == types@);
                    assert(self.cached_lists()[k as int] == list@);
                    assert(self.cached_keys().contains(types@));
                }
                return list;
            }
            k = k + 1;
        }
        let mut list: Vec<usize> = Vec::new();
        let mut a: usize = 0;
        while a < self.archetypes.len()
            invariant
                a <= self.archetypes@.len(),
                *self == *old(self),
                forall|i: int, j: int| 0 <= i < j < list@.len() ==> list@[i] < list@[j],
                forall|j: int|
                    0 <= j < list@.len() ==> (#[trigger] list@[j]) < a && types@.subset_of(
                        self.archetypes@[list@[j] as int].type_set(),
                    ),
                forall|b: int|
                    0 <= b < a && types@.subset_of((#[trigger] self.archetypes@[b]).type_set())
                        ==> list@.contains(b as usize),
            decreases self.archetypes@.len() - a,
        {
            if self.archetypes[a].type_bundle().contains(types) {
                let ghost before = list@;
                list.push(a);
                proof {
                    assert forall|b: int|
                        0 <= b < a + 1 && types@.subset_of(
                            (#[trigger] self.archetypes@[b]).type_set(),
                        ) implies list@.contains(b as usize) by {
                        if b < a {
                            let j = choose|j: int| 0 <= j < before.len() && before[j] == b as usize;
                            assert(list@[j] == b as usize);
                        } else {
                            assert(list@[list@.len() - 1] == a);
                        }
                    }
                }
            }
            a = a + 1;
        }
        let matches: Vec<usize> = copy_list(&list);
        self.inclusive_index.push(CacheEntry { key: types.clone(), matches });
        proof {
            assert forall|j: int| 0 <= j < self.cached_keys().len() implies is_match_list(
                self.archetypes(),
                #[trigger] self.cached_keys()[j],
                self.cached_lists()[j],
            ) by {
                if j < old(self).cached_keys().len() {
                    assert(self.inclusive_index@[j] == old(self).inclusive_index@[j]);
                    assert(old(self).cached_keys()[j] == self.cached_keys()[j]);
                    assert(old(self).cached_lists()[j] == self.cached_lists()[j]);
                }
            }
            assert(self@ =~= old(self)@);
            if old(self).cached_keys().contains(types@) {
                let j = choose|j: int|
                    0 <= j < old(self).cached_keys().len() && old(self).cached_keys()[j] == types@;
                assert(old(self).inclusive_index@[j].key@ == types@);
            }
            assert(self.cached_keys() =~= old(self).cached_keys().push(types@));
            assert(self.cached_keys()[self.cached_keys().len() - 1] == types@);
        }
        list
    }

    /// Where the archetypes keep their schemas and the cache is as in
    /// `before`, schema uniqueness and query soundness hold as they did there.
    proof fn lemma_schemas_kept(&self, before: &Self)
        requires
            before.structure_wf(),
            self.inclusive_index == before.inclusive_index,
            self.archetypes().len() == before.archetypes().len(),
            forall|a: int|
                0 <= a < self.archetypes().len() ==> {
                    &&& (#[trigger] self.archetypes()[a]).wf()
                    &&& self.archetypes()[a].schema() == before.archetypes()[a].schema()
                },
        ensures
            0 < self.archetypes().len() <= usize::MAX,
            self.archetypes()[0].type_set() == Set::<ComponentType>::empty(),
            self.column_parity(),
            self.schemas_unique(),
            self.inclusive_sound(),
            self.cache_keys_canonical(),
            self.cached_keys() == before.cached_keys(),
            self.cached_lists() == before.cached_lists(),
    {
        let now = self.archetypes();
        let then = before.archetypes();
        assert(self.cached_keys() =~= before.cached_keys());
        assert(self.cached_lists() =~= before.cached_lists());
        assert(now[0].schema() == then[0].schema());
        assert forall|a: int, b: int|
            0 <= a < now.len() && 0 <= b < now.len() && a != b implies (#[trigger] now[a]).type_set()
            != (#[trigger] now[b]).type_set() by {
            assert(then[a].type_set() != then[b].type_set());
        }
        assert forall|k: int| 0 <= k < self.cached_keys().len() implies is_match_list(
            now,
            #[trigger] self.cached_keys()[k],
            self.cached_lists()[k],
        ) by {
            let key = before.cached_keys()[k];
            let list = before.cached_lists()[k];
            assert(is_match_list(then, key, list));
            assert forall|j: int| 0 <= j < list.len() implies (#[trigger] list[j]) < now.len()
                && key.subset_of(now[list[j] as int].type_set()) by {
                assert(now[list[j] as int].schema() == then[list[j] as int].schema());
            }
            assert forall|a: int|
                0 <= a < now.len() && key.subset_of(
                    (#[trigger] now[a]).type_set(),
                ) implies list.contains(a as usize) by {
                assert(now[a].schema() == then[a].schema());
                assert(key.subset_of(then[a].type_set()));
            }
        }
    }

    /// Where the archetypes, their schemas and edges, and the cache are as in
    /// `before`, the invariants of the structure hold as they did there.
    proof fn lemma_structure_kept(&self, before: &Self)
        requires
            before.structure_wf(),
            self.inclusive_index == before.inclusive_index,
            self.archetypes().len() == before.archetypes().len(),
            forall|a: int|
                0 <= a < self.archetypes().len() ==> {
                    &&& (#[trigger] self.archetypes()[a]).wf()
                    &&& self.archetypes()[a].schema() == before.archetypes()[a].schema()
                    &&& self.archetypes()[a].edges() == before.archetypes()[a].edges()
                },
        ensures
            self.structure_wf(),
            self.cached_keys() == before.cached_keys(),
            self.cached_lists() == before.cached_lists(),
    {
        self.lemma_schemas_kept(before);
        let now = self.archetypes();
        let then = before.archetypes();
        assert forall|a: int, t: ComponentType|
            0 <= a < now.len() && (#[trigger] now[a].edges().contains_key(t)) implies {
            let b = now[a].edges()[t] as int;
            &&& b < now.len()
            &&& now[b].edges().contains_key(t)
            &&& now[b].edges()[t] == a
            &&& now[a].type_set().contains(t) != now[b].type_set().contains(t)
            &&& now[a].type_set().insert(t) == now[b].type_set().insert(t)
        } by {
            assert(then[a].edges().contains_key(t));
            let b = then[a].edges()[t] as int;
            assert(now[b].schema() == then[b].schema());
        }
    }

    /// Where two archetypes whose schemas differ by exactly `delta` were
    /// given the edge to each other under `delta`, and nothing else changed,
    /// the invariants of the structure hold again.
    proof fn lemma_edge_added(&self, before: &Self, src: int, dst: int, delta: ComponentType)
        requires
            before.structure_wf(),
            self.inclusive_index == before.inclusive_index,
            self.archetypes().len() == before.archetypes().len(),
            0 <= src < before.archetypes().len(),
            0 <= dst < before.archetypes().len(),
            before.archetypes()[src].type_set().contains(delta)
                != before.archetypes()[dst].type_set().contains(delta),
            before.archetypes()[src].type_set().insert(delta)
                == before.archetypes()[dst].type_set().insert(delta),
            forall|a: int|
                0 <= a < self.archetypes().len() ==> {
                    &&& (#[trigger] self.archetypes()[a]).wf()
                    &&& self.archetypes()[a].schema() == before.archetypes()[a].schema()
                },
            forall|a: int|
                0 <= a < self.archetypes().len() && a != src && a != dst ==> (
                #[trigger] self.archetypes()[a]).edges() == before.archetypes()[a].edges(),
            self.archetypes()[src].edges() == before.archetypes()[src].edges().insert(
                delta,
                dst as usize,
            ),
            self.archetypes()[dst].edges() == before.archetypes()[dst].edges().insert(
                delta,
                src as usize,
            ),
        ensures
            self.structure_wf(),
    {
        self.lemma_schemas_kept(before);
        let now = self.archetypes();
        let then = before.archetypes();
        assert(src != dst);
        // An archetype whose schema differs from that of `dst` by `delta` is
        // `src`, and the other way round.
        assert forall|a: int|
            0 <= a < then.len() && then[a].type_set().contains(delta) != then[dst].type_set().contains(
                delta,
            ) && then[a].type_set().insert(delta) == then[dst].type_set().insert(
                delta,
            ) implies a == src by {
            assert forall|t: ComponentType| then[a].type_set().contains(t)
                == then[src].type_set().contains(t) by {
                if t != delta {
                    assert(then[src].type_set().insert(delta).contains(t)
                        == then[dst].type_set().insert(delta).contains(t));
                    assert(then[a].type_set().insert(delta).contains(t)
                        == then[dst].type_set().insert(delta).contains(t));
                }
            }
            assert(then[a].type_set() =~= then[src].type_set());
        }
        assert forall|a: int|
            0 <= a < then.len() && then[a].type_set().contains(delta) != then[src].type_set().contains(
                delta,
            ) && then[a].type_set().insert(delta) == then[src].type_set().insert(
                delta,
            ) implies a == dst by {
            assert forall|t: ComponentType| then[a].type_set().contains(t)
                == then[dst].type_set().contains(t) by {
                if t != delta {
                    assert(then[src].type_set().insert(delta).contains(t)
                        == then[dst].type_set().insert(delta).contains(t));
                    assert(then[a].type_set().insert(delta).contains(t)
                        == then[src].type_set().insert(delta).contains(t));
                }
            }
            assert(then[a].type_set() =~= then[dst].type_set());
        }
        assert forall|a: int, t: ComponentType|
            0 <= a < now.len() && (#[trigger] now[a].edges().contains_key(t)) implies {
            let b = now[a].edges()[t] as int;
            &&& b < now.len()
            &&& now[b].edges().contains_key(t)
            &&& now[b].edges()[t] == a
            &&& now[a].type_set().contains(t) != now[b].type_set().contains(t)
            &&& now[a].type_set().insert(t) == now[b].type_set().insert(t)
        } by {
            assert(now[a].schema() == then[a].schema());
            assert(now[src].schema() == then[src].schema());
            assert(now[dst].schema() == then[dst].schema());
            if (a == src || a == dst) && t == delta {
            } else {
                assert(then[a].edges().contains_key(t));
                let b = then[a].edges()[t] as int;
                assert(now[b].schema() == then[b].schema());
                assert(then[b].edges().contains_key(t));
                if t == delta {
                    // `b` differs from `a` by `delta` and is neither `src` nor `dst`.
                    if b == src {
                        assert(a == dst);
                    }
                    if b == dst {
                        assert(a == src);
                    }
                }
            }
        }
    }

    /// Where the registry is as in `before`, the archetypes of `before`
    /// keep their rows, and every further archetype has none, locations are
    /// consistent as before and the world holds the same entities with the
    /// same components.
    proof fn lemma_view_kept(&self, before: &Self)
        requires
            before.wf(),
            self.registry() == before.registry(),
            self.archetypes().len() >= before.archetypes().len(),
            forall|a: int|
                0 <= a < before.archetypes().len() ==> {
                    &&& (#[trigger] self.archetypes()[a]).rows() == before.archetypes()[a].rows()
                    &&& forall|r: int|
                        0 <= r < self.archetypes()[a].rows().len()
                            ==> #[trigger] self.archetypes()[a].row_map(r)
                            == before.archetypes()[a].row_map(r)
                },
            forall|a: int|
                before.archetypes().len() <= a < self.archetypes().len() ==> (
                #[trigger] self.archetypes()[a]).rows().len() == 0,
        ensures
            self.locations_consistent(),
            self@ == before@,
    {
        let now = self.archetypes();
        let then = before.archetypes();
        let slots = self.registry().slots();
        assert forall|i: int| 0 <= i < slots.len() && (#[trigger] slots[i]).location is Some implies {
            let slot = slots[i];
            let at = slot.location->Some_0;
            &&& !slot.retired
            &&& at.archetype < now.len()
            &&& at.row < now[at.archetype as int].rows().len()
            &&& now[at.archetype as int].rows()[at.row as int] == (EntityId {
                id: i as u32,
                generation: slot.generation,
            })
        } by {
            let at = slots[i].location->Some_0;
            assert(now[at.archetype as int].rows() == then[at.archetype as int].rows());
        }
        assert forall|a: int, r: int|
            0 <= a < now.len() && 0 <= r < now[a].rows().len() implies self.registry().status(
            #[trigger] now[a].rows()[r],
        ) == Ok::<Option<Location>, EntityError>(
            Some(Location { archetype: a as usize, row: r as usize }),
        ) by {
            assert(a < then.len());
            assert(now[a].rows() == then[a].rows());
            assert(now[a].rows()[r] == then[a].rows()[r]);
        }
        assert forall|e: EntityId| self.registry().is_live(e) implies self.components_of(e)
            == before.components_of(e) by {
            let at = slots[e.id as int].location->Some_0;
            assert(now[at.archetype as int].rows() == then[at.archetype as int].rows());
        }
        assert(self@ =~= before@);
    }

    /// Where a fresh entity `id` was placed in a new last row `row` of the
    /// archetype `a`, and nothing else changed, locations are consistent
    /// again and the world has gained `id` with the components of that row.
    proof fn lemma_placed(&self, before: &Self, id: EntityId, a: usize, row: usize)
        requires
            before.wf(),
            self.column_parity(),
            before.archetypes().len() <= self.archetypes().len() <= before.archetypes().len() + 1,
            0 <= a < self.archetypes().len(),
            self.archetypes().len() > before.archetypes().len() ==> a == before.archetypes().len(),
            forall|b: int|
                0 <= b < before.archetypes().len() && b != a ==> (#[trigger] self.archetypes()[b])
                    == before.archetypes()[b],
            a < before.archetypes().len() ==> {
                &&& self.archetypes()[a as int].rows() == before.archetypes()[a as int].rows().push(id)
                &&& forall|r: int|
                    0 <= r < row ==> #[trigger] self.archetypes()[a as int].row_map(r)
                        == before.archetypes()[a as int].row_map(r)
            },
            a >= before.archetypes().len() ==> self.archetypes()[a as int].rows() == seq![id],
            row == self.archetypes()[a as int].rows().len() - 1,
            before.registry().slots().len() <= self.registry().slots().len()
                <= before.registry().slots().len() + 1,
            id.id < self.registry().slots().len(),
            self.registry().slots().len() > before.registry().slots().len() ==> id.id
                == before.registry().slots().len(),
            id.id < before.registry().slots().len() ==> before.registry().slots()[id.id as int].location is None,
            forall|i: int|
                0 <= i < before.registry().slots().len() && i != id.id ==> (
                #[trigger] self.registry().slots()[i]) == before.registry().slots()[i],
            self.registry().slots()[id.id as int] == (Entity {
                generation: id.generation,
                location: Some(Location { archetype: a, row }),
                retired: false,
            }),
        ensures
            self.locations_consistent(),
            !before@.contains_key(id),
            self@ == before@.insert(id, self.archetypes()[a as int].row_map(row as int)),
    {
        let now = self.archetypes();
        let then = before.archetypes();
        let slots = self.registry().slots();
        let slots_then = before.registry().slots();
        assert(self.registry().status(id) == Ok::<Option<Location>, EntityError>(
            Some(Location { archetype: a, row }),
        ));
        assert forall|i: int| 0 <= i < slots.len() && (#[trigger] slots[i]).location is Some implies {
            let slot = slots[i];
            let at = slot.location->Some_0;
            &&& !slot.retired
            &&& at.archetype < now.len()
            &&& at.row < now[at.archetype as int].rows().len()
            &&& now[at.archetype as int].rows()[at.row as int] == (EntityId {
                id: i as u32,
                generation: slot.generation,
            })
        } by {
            if i != id.id {
                assert(slots[i] == slots_then[i]);
                let at = slots_then[i].location->Some_0;
                assert(then[at.archetype as int].rows()[at.row as int] == (EntityId {
                    id: i as u32,
                    generation: slots_then[i].generation,
                }));
                if at.archetype != a {
                    assert(now[at.archetype as int] == then[at.archetype as int]);
                }
            }
        }
        assert forall|b: int, r: int|
            0 <= b < now.len() && 0 <= r < now[b].rows().len() implies self.registry().status(
            #[trigger] now[b].rows()[r],
        ) == Ok::<Option<Location>, EntityError>(
            Some(Location { archetype: b as usize, row: r as usize }),
        ) by {
            if b == a && r == row {
            } else {
                if b != a {
                    assert(now[b] == then[b]);
                }
                let e = then[b].rows()[r];
                assert(now[b].rows()[r] == e);
                assert(before.registry().status(e) == Ok::<Option<Location>, EntityError>(
                    Some(Location { archetype: b as usize, row: r as usize }),
                ));
                assert(e.id != id.id);
                assert(slots[e.id as int] == slots_then[e.id as int]);
            }
        }
        assert forall|e: EntityId| self.registry().is_live(e) == (before.registry().is_live(e) || e
            == id) by {
            if e.id != id.id && e.id < slots_then.len() {
                assert(slots[e.id as int] == slots_then[e.id as int]);
            }
        }
        assert forall|e: EntityId| before.registry().is_live(e) implies self.components_of(e)
            == before.components_of(e) by {
            assert(e.id != id.id);
            assert(slots[e.id as int] == slots_then[e.id as int]);
            let at = slots_then[e.id as int].location->Some_0;
            if at.archetype != a {
                assert(now[at.archetype as int] == then[at.archetype as int]);
            } else {
                assert(at.row < row);
            }
        }
        assert(self@ =~= before@.insert(id, now[a as int].row_map(row as int)));
    }

    /// Creates an entity with the components of `bundle` and returns its id.
    ///
    /// The entity goes to the archetype of the bundle's component set, which
    /// is created where the world has none yet. Fails, changing nothing,
    /// with `StructuralMutationDuringQuery` while a query is open, with
    /// `DuplicateTypeInBundle` where two components of the bundle have the
    /// same type, and with `OutOfEntityIds` where the registry has no index
    /// left to hand out.
    pub fn spawn(&mut self, bundle: ComponentBundle<C>) -> (r: Result<EntityId, EcsError>)
        requires
            old(self).wf(),
        ensures
            final(self).wf(),
            final(self).query_open() == old(self).query_open(),
            final(self).same_generations_as(old(self)),
            r is Ok <==> !old(self).query_open() && distinct_types(bundle@)
                && !old(self).registry().is_full(),
            match r {
                Ok(id) => final(self).spawned(old(self), components_by_type(bundle@), id),
                Err(e) => {
                    &&& final(self).unchanged_from(old(self))
                    &&& e == if old(self).query_open() {
                        EcsError::StructuralMutationDuringQuery
                    } else if !distinct_types(bundle@) {
                        EcsError::DuplicateTypeInBundle
                    } else {
                        EcsError::OutOfEntityIds
                    }
                },
            },
    {
        if self.in_query {
            return Err(EcsError::StructuralMutationDuringQuery);
        }
        if bundle.has_duplicates() {
            return Err(EcsError::DuplicateTypeInBundle);
        }
        let entity: EntityId = match self.entities.get_new_id() {
            Ok(id) => id,
            Err(_) => {
                return Err(EcsError::OutOfEntityIds);
            },
        };
        let types: TypeBundle = bundle.types();
        let ghost mid = *self;
        let location: Location = match self.get_archetype_id(&types) {
            Some(archetype_id) => {
                let row: usize = self.archetypes[archetype_id].add(bundle, entity);
                proof {
                    self.lemma_structure_kept(&mid);
                }
                Location::new(archetype_id, row)
            },
            None => Location::new(self.push_archetype(bundle, entity), 0),
        };
        self.entities.set_location(entity, location);
        proof {
            self.lemma_placed(old(self), entity, location.archetype, location.row);
        }
        Ok(entity)
    }

    /// Where the row `row` of archetype `a`, which held the live entity
    /// `id`, was taken out by swap-remove, the registry was told the new row
    /// of the entity that moved into the gap, and the slot of `id` lost its
    /// location, locations are consistent again and the world has lost `id`
    /// and nothing else.
    proof fn lemma_killed(&self, before: &Self, id: EntityId, a: usize, row: usize)
        requires
            before.wf(),
            before.registry().status(id) == Ok::<Option<Location>, EntityError>(
                Some(Location { archetype: a, row }),
            ),
            self.archetypes().len() == before.archetypes().len(),
            forall|b: int|
                0 <= b < before.archetypes().len() && b != a ==> (#[trigger] self.archetypes()[b])
                    == before.archetypes()[b],
            self.archetypes()[a as int].rows() == rows_without(
                before.archetypes()[a as int].rows(),
                row as int,
            ),
            forall|k: int|
                0 <= k < self.archetypes()[a as int].rows().len()
                    ==> #[trigger] self.archetypes()[a as int].row_map(k)
                    == before.archetypes()[a as int].row_map(
                    if k == row {
                        before.archetypes()[a as int].rows().len() - 1
                    } else {
                        k
                    },
                ),
            self.registry().slots().len() == before.registry().slots().len(),
            self.registry().slots()[id.id as int].location is None,
            ({
                let moved = before.archetypes()[a as int].rows().last();
                &&& moved != id ==> self.registry().slots()[moved.id as int] == (Entity {
                    location: Some(Location { archetype: a, row }),
                    ..before.registry().slots()[moved.id as int]
                })
                &&& forall|i: int|
                    0 <= i < before.registry().slots().len() && i != id.id && i != moved.id ==> (
                    #[trigger] self.registry().slots()[i]) == before.registry().slots()[i]
            }),
        ensures
            self.locations_consistent(),
            self@ == before@.remove(id),
    {
        let now = self.archetypes();
        let then = before.archetypes();
        let slots = self.registry().slots();
        let slots_then = before.registry().slots();
        let last = then[a as int].rows().len() - 1;
        let moved = then[a as int].rows().last();
        assert(then[a as int].rows()[row as int] == id);
        assert(before.registry().status(then[a as int].rows()[last]) == Ok::<
            Option<Location>,
            EntityError,
        >(Some(Location { archetype: a, row: last as usize })));
        assert(moved == id <==> row == last);
        assert(moved.id == id.id <==> row == last);
        assert forall|i: int| 0 <= i < slots.len() && (#[trigger] slots[i]).location is Some implies {
            let slot = slots[i];
            let at = slot.location->Some_0;
            &&& !slot.retired
            &&& at.archetype < now.len()
            &&& at.row < now[at.archetype as int].rows().len()
            &&& now[at.archetype as int].rows()[at.row as int] == (EntityId {
                id: i as u32,
                generation: slot.generation,
            })
        } by {
            if i == moved.id {
            } else {
                assert(slots[i] == slots_then[i]);
                let at = slots_then[i].location->Some_0;
                assert(then[at.archetype as int].rows()[at.row as int] == (EntityId {
                    id: i as u32,
                    generation: slots_then[i].generation,
                }));
                if at.archetype != a {
                    assert(now[at.archetype as int] == then[at.archetype as int]);
                }
            }
        }
        assert forall|b: int, r: int|
            0 <= b < now.len() && 0 <= r < now[b].rows().len() implies self.registry().status(
            #[trigger] now[b].rows()[r],
        ) == Ok::<Option<Location>, EntityError>(
            Some(Location { archetype: b as usize, row: r as usize }),
        ) by {
            if b != a {
                assert(now[b] == then[b]);
                let e = then[b].rows()[r];
                assert(before.registry().status(e) == Ok::<Option<Location>, EntityError>(
                    Some(Location { archetype: b as usize, row: r as usize }),
                ));
                assert(slots[e.id as int] == slots_then[e.id as int]);
            } else if r == row {
                assert(now[b].rows()[r] == moved);
            } else {
                let e = then[b].rows()[r];
                assert(now[b].rows()[r] == e);
                assert(before.registry().status(e) == Ok::<Option<Location>, EntityError>(
                    Some(Location { archetype: b as usize, row: r as usize }),
                ));
                assert(slots[e.id as int] == slots_then[e.id as int]);
            }
        }
        assert forall|e: EntityId| self.registry().is_live(e) == (before.registry().is_live(e) && e
            != id) by {
            if e.id < slots.len() && e.id != id.id && e.id != moved.id {
                assert(slots[e.id as int] == slots_then[e.id as int]);
            }
        }
        assert forall|e: EntityId| self.registry().is_live(e) implies self.components_of(e)
            == before.components_of(e) by {
            if e.id == moved.id {
                assert(e == moved);
            } else {
                assert(slots[e.id as int] == slots_then[e.id as int]);
                let at = slots_then[e.id as int].location->Some_0;
                assert(then[at.archetype as int].rows()[at.row as int] == e);
                if at.archetype != a {
                    assert(now[at.archetype as int] == then[at.archetype as int]);
                }
            }
        }
        assert(self@ =~= before@.remove(id));
    }

    /// A slot that holds a location is not on the free list.
    proof fn lemma_placed_not_free(registry: &EntityStore, index: u32)
        requires
            registry.wf(),
            index < registry.slots().len(),
            registry.slots()[index as int].location is Some,
        ensures
            !registry.free_list().contains(index),
    {
        if registry.free_list().contains(index) {
            let k = choose|k: int| 0 <= k < registry.free_list().len() && registry.free_list()[k] == index;
            assert(registry.slots()[registry.free_list()[k] as int].location is None);
        }
    }

    /// Ends the life of `entity`: its row leaves its archetype, the entity
    /// that moves into the gap is given its new row, and the id is freed.
    ///
    /// Fails, changing nothing, with `StructuralMutationDuringQuery`
    /// while a query is open, and with `EntityNotFound`,
    /// `EntityWrongGeneration` or `EntityAlreadyFreed` where the id does
    /// not name a live entity.
    pub fn kill(&mut self, entity: EntityId) -> (r: Result<(), EcsError>)
        requires
            old(self).wf(),
        ensures
            final(self).wf(),
            final(self).query_open() == old(self).query_open(),
            r is Ok <==> !old(self).query_open() && old(self)@.contains_key(entity),
            match r {
                Ok(()) => final(self).killed(old(self), entity),
                Err(e) => {
                    &&& final(self).unchanged_from(old(self))
                    &&& Some(e) == if old(self).refusal() is Some {
                        old(self).refusal()
                    } else {
                        old(self).lookup_error(entity)
                    }
                },
            },
    {
        if self.in_query {
            return Err(EcsError::StructuralMutationDuringQuery);
        }
        let location: Location = match self.entities.entity_status(entity) {
            Ok(Some(location)) => location,
            Ok(None) => {
                return Err(EcsError::EntityAlreadyFreed);
            },
            Err(e) => {
                return Err(EcsError::from(e));
            },
        };
        let ghost before = *self;
        let moved: EntityId = self.archetypes[location.archetype].remove(location.row);
        proof {
            self.lemma_structure_kept(&before);
            let last = before.archetypes()[location.archetype as int].rows().len() - 1;
            assert(before.registry().status(
                before.archetypes()[location.archetype as int].rows()[last],
            ) == Ok::<Option<Location>, EntityError>(
                Some(Location { archetype: location.archetype, row: last as usize }),
            ));
            assert(before.archetypes()[location.archetype as int].rows()[location.row as int]
                == entity);
        }
        if moved != entity {
            proof {
                Self::lemma_placed_not_free(&self.entities, moved.id);
            }
            self.entities.set_location(moved, location);
        }
        match self.entities.free(entity) {
            Ok(_) => {},
            Err(_) => {},
        }
        proof {
            self.lemma_killed(old(self), entity, location.archetype, location.row);
        }
        Ok(())
    }

    /// The index of the archetype to which an entity of archetype `source`
    /// goes by the change `op`. The edge of `source` under the type of
    /// `op` answers where it is known. Otherwise the archetype of the
    /// changed component set is looked up, and made where the world has
    /// none, and the edge between the two is recorded on both sides.
    fn resolve_target(&mut self, source: usize, op: &Migration<C>) -> (target: usize)
        requires
            old(self).wf(),
            source < old(self).archetypes().len(),
            op.fits(old(self).archetypes()[source as int].type_set()),
        ensures
            final(self).wf(),
            final(self)@ == old(self)@,
            final(self).registry() == old(self).registry(),
            final(self).query_open() == old(self).query_open(),
            final(self).archetypes().len() >= old(self).archetypes().len(),
            target < final(self).archetypes().len(),
            target != source,
            final(self).archetypes()[source as int].edges().contains_key(op.delta()),
            final(self).archetypes()[source as int].edges()[op.delta()] == target,
            final(self).archetypes()[target as int].type_set() == op.applied_to_types(
                final(self).archetypes()[source as int].type_set(),
            ),
            forall|a: int|
                0 <= a < old(self).archetypes().len() ==> {
                    &&& (#[trigger] final(self).archetypes()[a]).rows() == old(self).archetypes()[a].rows()
                    &&& final(self).archetypes()[a].schema() == old(self).archetypes()[a].schema()
                    &&& forall|r: int|
                        0 <= r < final(self).archetypes()[a].rows().len()
                            ==> #[trigger] final(self).archetypes()[a].row_map(r)
                            == old(self).archetypes()[a].row_map(r)
                },
    {
        let delta: ComponentType = op.delta_type();
        if let Some(known) = self.archetypes[source].edge(delta) {
            proof {
                let here = self.archetypes()[source as int];
                let there = self.archetypes()[known as int];
                assert(self.archetypes()[source as int].edges().contains_key(delta));
                assert(there.type_set() =~= op.applied_to_types(here.type_set())) by {
                    assert forall|t: ComponentType| there.type_set().contains(t)
                        == op.applied_to_types(here.type_set()).contains(t) by {
                        if t != delta {
                            assert(here.type_set().insert(delta).contains(t)
                                == there.type_set().insert(delta).contains(t));
                        }
                    }
                }
            }
            return known;
        }
        let old_bundle: TypeBundle = self.archetypes[source].types();
        let type_bundle: TypeBundle = if op.is_add() {
            old_bundle.add_type(delta)
        } else {
            old_bundle.remove_type(delta)
        };
        let target: usize = match self.get_archetype_id(&type_bundle) {
            Some(target) => target,
            None => self.register_archetype(Archetype::with_schema(type_bundle)),
        };
        let ghost mid = *self;
        proof {
            assert forall|a: int| 0 <= a < old(self).archetypes().len() implies (
            #[trigger] mid.archetypes()[a]) == old(self).archetypes()[a] by {}
        }
        self.archetypes[source].set_edge(delta, target);
        self.archetypes[target].set_edge(delta, source);
        proof {
            let here = mid.archetypes()[source as int];
            let there = mid.archetypes()[target as int];
            assert(there.type_set() == op.applied_to_types(here.type_set()));
            assert(here.type_set().insert(delta) =~= there.type_set().insert(delta));
            self.lemma_edge_added(&mid, source as int, target as int, delta);
            assert forall|a: int| 0 <= a < old(self).archetypes().len() implies {
                &&& (#[trigger] self.archetypes()[a]).rows() == old(self).archetypes()[a].rows()
                &&& self.archetypes()[a].schema() == old(self).archetypes()[a].schema()
                &&& forall|r: int|
                    0 <= r < self.archetypes()[a].rows().len() ==> #[trigger] self.archetypes()[a].row_map(
                        r,
                    ) == old(self).archetypes()[a].row_map(r)
            } by {
                assert(mid.archetypes()[a] == old(self).archetypes()[a]);
                assert forall|r: int|
                    0 <= r < self.archetypes()[a].rows().len() implies #[trigger] self.archetypes()[a].row_map(
                    r,
                ) == old(self).archetypes()[a].row_map(r) by {
                    assert(self.archetypes()[a].row_map(r) =~= mid.archetypes()[a].row_map(r));
                }
            }
            self.lemma_view_kept(old(self));
        }
        target
    }

    /// Moves row `row` of the archetype `first` to the archetype `second` by
    /// the change `op`. Returns the entity that stood in the last row of
    /// `first` and the new row in `second`.
    fn mutate_archetypes(&mut self, first: usize, second: usize, row: usize, op: Migration<C>) -> (r:
        (EntityId, usize))
        requires
            first < old(self).archetypes().len(),
            second < old(self).archetypes().len(),
            first != second,
            old(self).archetypes()[first as int].wf(),
            old(self).archetypes()[second as int].wf(),
            row < old(self).archetypes()[first as int].rows().len(),
            op.fits(old(self).archetypes()[first as int].type_set()),
            old(self).archetypes()[second as int].type_set() == op.applied_to_types(
                old(self).archetypes()[first as int].type_set(),
            ),
        ensures
            final(self).entities == old(self).entities,
            final(self).inclusive_index == old(self).inclusive_index,
            final(self).in_query == old(self).in_query,
            final(self).archetypes().len() == old(self).archetypes().len(),
            forall|a: int|
                0 <= a < old(self).archetypes().len() && a != first && a != second ==> (
                #[trigger] final(self).archetypes()[a]) == old(self).archetypes()[a],
            ({
                let source = final(self).archetypes()[first as int];
                let target = final(self).archetypes()[second as int];
                let source_before = old(self).archetypes()[first as int];
                let target_before = old(self).archetypes()[second as int];
                &&& source.wf()
                &&& target.wf()
                &&& source.schema() == source_before.schema()
                &&& source.edges() == source_before.edges()
                &&& target.schema() == target_before.schema()
                &&& target.edges() == target_before.edges()
                &&& r.0 == source_before.rows().last()
                &&& r.1 == target_before.rows().len()
                &&& source.rows() == rows_without(source_before.rows(), row as int)
                &&& target.rows() == target_before.rows().push(source_before.rows()[row as int])
                &&& target.row_map(r.1 as int) == op.applied_to(source_before.row_map(row as int))
                &&& forall|k: int|
                    0 <= k < target_before.rows().len() ==> #[trigger] target.row_map(k)
                        == target_before.row_map(k)
                &&& forall|k: int|
                    0 <= k < source.rows().len() ==> #[trigger] source.row_map(k)
                        == source_before.row_map(
                        if k == row {
                            source_before.rows().len() - 1
                        } else {
                            k
                        },
                    )
            }),
    {
        let mut source: Archetype<C> = Archetype::default();
        core::mem::swap(&mut self.archetypes[first], &mut source);
        let moved: (EntityId, usize) = source.migrate(&mut self.archetypes[second], row, op);
        core::mem::swap(&mut self.archetypes[first], &mut source);
        moved
    }

    /// Where the live entity `id` moved from row `row` of archetype `src` to
    /// the new last row `new_row` of archetype `dst`, the registry was told
    /// so, and told the new row of the entity that moved into the gap,
    /// locations are consistent again and the world differs only in the
    /// components of `id`, which are those of its new row.
    proof fn lemma_migrated(
        &self,
        before: &Self,
        id: EntityId,
        src: usize,
        row: usize,
        dst: usize,
        new_row: usize,
    )
        requires
            before.wf(),
            before.registry().status(id) == Ok::<Option<Location>, EntityError>(
                Some(Location { archetype: src, row }),
            ),
            src != dst,
            dst < before.archetypes().len(),
            self.archetypes().len() == before.archetypes().len(),
            forall|b: int|
                0 <= b < before.archetypes().len() && b != src && b != dst ==> (
                #[trigger] self.archetypes()[b]) == before.archetypes()[b],
            self.archetypes()[src as int].rows() == rows_without(
                before.archetypes()[src as int].rows(),
                row as int,
            ),
            forall|k: int|
                0 <= k < self.archetypes()[src as int].rows().len()
                    ==> #[trigger] self.archetypes()[src as int].row_map(k)
                    == before.archetypes()[src as int].row_map(
                    if k == row {
                        before.archetypes()[src as int].rows().len() - 1
                    } else {
                        k
                    },
                ),
            new_row == before.archetypes()[dst as int].rows().len(),
            self.archetypes()[dst as int].rows() == before.archetypes()[dst as int].rows().push(id),
            forall|k: int|
                0 <= k < new_row ==> #[trigger] self.archetypes()[dst as int].row_map(k)
                    == before.archetypes()[dst as int].row_map(k),
            self.registry().slots().len() == before.registry().slots().len(),
            self.registry().slots()[id.id as int] == (Entity {
                location: Some(Location { archetype: dst, row: new_row }),
                ..before.registry().slots()[id.id as int]
            }),
            ({
                let moved = before.archetypes()[src as int].rows().last();
                &&& moved != id ==> self.registry().slots()[moved.id as int] == (Entity {
                    location: Some(Location { archetype: src, row }),
                    ..before.registry().slots()[moved.id as int]
                })
                &&& forall|i: int|
                    0 <= i < before.registry().slots().len() && i != id.id && i != moved.id ==> (
                    #[trigger] self.registry().slots()[i]) == before.registry().slots()[i]
            }),
        ensures
            self.locations_consistent(),
            self@ == before@.insert(id, self.archetypes()[dst as int].row_map(new_row as int)),
    {
        let now = self.archetypes();
        let then = before.archetypes();
        let slots = self.registry().slots();
        let slots_then = before.registry().slots();
        let last = then[src as int].rows().len() - 1;
        let moved = then[src as int].rows().last();
        assert(then[src as int].rows()[row as int] == id);
        assert(before.registry().status(then[src as int].rows()[last]) == Ok::<
            Option<Location>,
            EntityError,
        >(Some(Location { archetype: src, row: last as usize })));
        assert(moved == id <==> row == last);
        assert(moved.id == id.id <==> row == last);
        assert forall|i: int| 0 <= i < slots.len() && (#[trigger] slots[i]).location is Some implies {
            let slot = slots[i];
            let at = slot.location->Some_0;
            &&& !slot.retired
            &&& at.archetype < now.len()
            &&& at.row < now[at.archetype as int].rows().len()
            &&& now[at.archetype as int].rows()[at.row as int] == (EntityId {
                id: i as u32,
                generation: slot.generation,
            })
        } by {
            if i == id.id {
            } else if i == moved.id {
            } else {
                assert(slots[i] == slots_then[i]);
                let at = slots_then[i].location->Some_0;
                assert(then[at.archetype as int].rows()[at.row as int] == (EntityId {
                    id: i as u32,
                    generation: slots_then[i].generation,
                }));
                if at.archetype != src && at.archetype != dst {
                    assert(now[at.archetype as int] == then[at.archetype as int]);
                }
            }
        }
        assert forall|b: int, r: int|
            0 <= b < now.len() && 0 <= r < now[b].rows().len() implies self.registry().status(
            #[trigger] now[b].rows()[r],
        ) == Ok::<Option<Location>, EntityError>(
            Some(Location { archetype: b as usize, row: r as usize }),
        ) by {
            if b == dst && r == new_row {
            } else if b == src && r == row {
                assert(now[b].rows()[r] == moved);
            } else {
                if b != src && b != dst {
                    assert(now[b] == then[b]);
                }
                let e = then[b].rows()[r];
                assert(now[b].rows()[r] == e);
                assert(before.registry().status(e) == Ok::<Option<Location>, EntityError>(
                    Some(Location { archetype: b as usize, row: r as usize }),
                ));
                assert(slots[e.id as int] == slots_then[e.id as int]);
            }
        }
        assert forall|e: EntityId| self.registry().is_live(e) == before.registry().is_live(e) by {
            if e.id < slots.len() && e.id != id.id && e.id != moved.id {
                assert(slots[e.id as int] == slots_then[e.id as int]);
            }
        }
        assert forall|e: EntityId| self.registry().is_live(e) && e != id implies self.components_of(
            e,
        ) == before.components_of(e) by {
            if e.id == moved.id {
                assert(e == moved);
            } else {
                assert(slots[e.id as int] == slots_then[e.id as int]);
                let at = slots_then[e.id as int].location->Some_0;
                assert(then[at.archetype as int].rows()[at.row as int] == e);
                if at.archetype != src && at.archetype != dst {
                    assert(now[at.archetype as int] == then[at.archetype as int]);
                }
            }
        }
        assert(self@ =~= before@.insert(id, now[dst as int].row_map(new_row as int)));
    }

    /// Attaches a component to `entity` or detaches one from it, which moves
    /// the entity to the archetype of its new component set.
    ///
    /// Fails, changing nothing, with `StructuralMutationDuringQuery`
    /// while a query is open; with `EntityNotFound`, `EntityWrongGeneration`
    /// or `EntityAlreadyFreed` where the id does not name a live entity;
    /// with `ComponentAlreadyPresent` where the entity has a component of
    /// the type to attach; and with `ComponentNotPresent` where it has none
    /// of the type to detach.
    pub fn migrate(&mut self, entity: EntityId, op: Migration<C>) -> (r: Result<(), EcsError>)
        requires
            old(self).wf(),
        ensures
            final(self).wf(),
            final(self).query_open() == old(self).query_open(),
            final(self).same_generations_as(old(self)),
            final(self).registry().slots().len() == old(self).registry().slots().len(),
            r is Ok <==> !old(self).query_open() && old(self)@.contains_key(entity) && op.fits(
                old(self)@[entity].dom(),
            ),
            match r {
                Ok(()) => final(self).migrated(old(self), entity, op),
                Err(e) => {
                    &&& final(self).unchanged_from(old(self))
                    &&& Some(e) == if old(self).refusal() is Some {
                        old(self).refusal()
                    } else if old(self).lookup_error(entity) is Some {
                        old(self).lookup_error(entity)
                    } else {
                        op.misfit(old(self)@[entity].dom())
                    }
                },
            },
    {
        if self.in_query {
            return Err(EcsError::StructuralMutationDuringQuery);
        }
        let location: Location = match self.entities.entity_status(entity) {
            Ok(Some(location)) => location,
            Ok(None) => {
                return Err(EcsError::EntityAlreadyFreed);
            },
            Err(e) => {
                return Err(EcsError::from(e));
            },
        };
        let source_idx: usize = location.archetype;
        proof {
            assert(old(self)@[entity].dom() =~= old(self).archetypes()[source_idx as int].type_set());
        }
        let new_type: ComponentType = op.delta_type();
        let present: bool = self.archetypes[source_idx].has_type(new_type);
        if op.is_add() {
            if present {
                return Err(EcsError::ComponentAlreadyPresent);
            }
        } else {
            if !present {
                return Err(EcsError::ComponentNotPresent);
            }
        }
        let target_idx: usize = self.resolve_target(source_idx, &op);
        let ghost mid = *self;
        let (moved, new_row) = self.mutate_archetypes(source_idx, target_idx, location.row, op);
        proof {
            assert(mid.archetypes()[source_idx as int].rows()[location.row as int] == entity);
            let last = mid.archetypes()[source_idx as int].rows().len() - 1;
            assert(mid.registry().status(mid.archetypes()[source_idx as int].rows()[last]) == Ok::<
                Option<Location>,
                EntityError,
            >(Some(Location { archetype: source_idx, row: last as usize })));
            Self::lemma_placed_not_free(&self.entities, entity.id);
        }
        self.entities.set_location(entity, Location::new(target_idx, new_row));
        if moved != entity {
            proof {
                Self::lemma_placed_not_free(&self.entities, moved.id);
            }
            self.entities.set_location(moved, location);
        }
        proof {
            self.lemma_structure_kept(&mid);
            self.lemma_migrated(&mid, entity, source_idx, location.row, target_idx, new_row);
            assert(mid@[entity] == mid.archetypes()[source_idx as int].row_map(location.row as int));
        }
        Ok(())
    }

    /// Opens a query: until `end_query`, structural changes are refused.
    /// Returns whether a query was open already.
    pub fn begin_query(&mut self) -> (was_open: bool)
        ensures
            was_open == old(self).query_open(),
            final(self).query_open(),
            final(self).archetypes() == old(self).archetypes(),
            final(self).registry() == old(self).registry(),
            final(self).cached_keys() == old(self).cached_keys(),
            final(self).cached_lists() == old(self).cached_lists(),
            final(self)@ == old(self)@,
            old(self).wf() ==> final(self).wf(),
    {
        let was_open: bool = self.in_query;
        self.in_query = true;
        proof {
            assert(self.cached_keys() =~= old(self).cached_keys());
            assert(self.cached_lists() =~= old(self).cached_lists());
        }
        was_open
    }

    /// Closes the query: structural changes are accepted again.
    pub fn end_query(&mut self)
        ensures
            !final(self).query_open(),
            final(self).archetypes() == old(self).archetypes(),
            final(self).registry() == old(self).registry(),
            final(self).cached_keys() == old(self).cached_keys(),
            final(self).cached_lists() == old(self).cached_lists(),
            final(self)@ == old(self)@,
            old(self).wf() ==> final(self).wf(),
    {
        self.in_query = false;
        proof {
            assert(self.cached_keys() =~= old(self).cached_keys());
            assert(self.cached_lists() =~= old(self).cached_lists());
        }
    }

    /// Where the registry is as in `before` and every archetype keeps its
    /// rows, locations are consistent as before.
    proof fn lemma_rows_kept(&self, before: &Self)
        requires
            before.wf(),
            self.registry() == before.registry(),
            self.archetypes().len() == before.archetypes().len(),
            forall|a: int|
                0 <= a < before.archetypes().len() ==> (#[trigger] self.archetypes()[a]).rows()
                    == before.archetypes()[a].rows(),
        ensures
            self.locations_consistent(),
    {
        let now = self.archetypes();
        let then = before.archetypes();
        let slots = self.registry().slots();
        assert forall|i: int| 0 <= i < slots.len() && (#[trigger] slots[i]).location is Some implies {
            let slot = slots[i];
            let at = slot.location->Some_0;
            &&& !slot.retired
            &&& at.archetype < now.len()
            &&& at.row < now[at.archetype as int].rows().len()
            &&& now[at.archetype as int].rows()[at.row as int] == (EntityId {
                id: i as u32,
                generation: slot.generation,
            })
        } by {
            let at = slots[i].location->Some_0;
            assert(now[at.archetype as int].rows() == then[at.archetype as int].rows());
        }
        assert forall|a: int, r: int|
            0 <= a < now.len() && 0 <= r < now[a].rows().len() implies self.registry().status(
            #[trigger] now[a].rows()[r],
        ) == Ok::<Option<Location>, EntityError>(
            Some(Location { archetype: a as usize, row: r as usize }),
        ) by {
            assert(now[a].rows() == then[a].rows());
            assert(now[a].rows()[r] == then[a].rows()[r]);
        }
    }

    /// Runs `system` once for every row of every archetype that matches
    /// `plan`, and returns the entities of these rows in the order of the
    /// calls: archetypes in ascending order of their index, which is the
    /// order in which they were made, and rows in ascending order.
    ///
    /// The system is shown the row's components of the fields of `plan`, in
    /// the order of the fields, and answers with new values for the fields
    /// to write, in their order. No entity is made, moved or removed.
    pub fn run_plan<F: FnMut(&Vec<&C>) -> Vec<C>>(&mut self, plan: &QueryPlan, system: &mut F) -> (visited:
        Vec<EntityId>)
        requires
            old(self).wf(),
            forall|row: &Vec<&C>| call_requires(*old(system), (row,)),
        ensures
            final(self).wf(),
            final(self).query_open() == old(self).query_open(),
            final(self).registry() == old(self).registry(),
            final(self).archetypes().len() == old(self).archetypes().len(),
            *final(system) == *old(system),
            final(self).query_applied(old(self), plan.fields(), *old(system), visited@),
    {
        proof {
            use_type_invariant(plan);
            plan.lemma_wf();
        }
        let list: Vec<usize> = self.get_archetypes_inclusive(plan.get_types());
        let ghost mid = *self;
        let mut visited: Vec<EntityId> = Vec::new();
        let mut k: usize = 0;
        while k < list.len()
            invariant
                k <= list@.len(),
                mid.wf(),
                is_match_list(mid.archetypes(), plan.type_set(), list@),
                forall|row: &Vec<&C>| call_requires(*system, (row,)),
                *system == *old(system),
                self.entities == mid.entities,
                self.inclusive_index == mid.inclusive_index,
                self.in_query == mid.in_query,
                self.archetypes@.len() == mid.archetypes@.len(),
                forall|a: int|
                    0 <= a < self.archetypes@.len() ==> {
                        &&& (#[trigger] self.archetypes@[a]).wf()
                        &&& self.archetypes@[a].schema() == mid.archetypes@[a].schema()
                        &&& self.archetypes@[a].edges() == mid.archetypes@[a].edges()
                        &&& self.archetypes@[a].rows() == mid.archetypes@[a].rows()
                    },
                forall|a: int|
                    0 <= a < self.archetypes@.len() && (forall|j: int|
                        0 <= j < k ==> (#[trigger] list@[j]) != a) ==> (#[trigger] self.archetypes@[a])
                        == mid.archetypes@[a],
                forall|j: int, r: int|
                    0 <= j < k && 0 <= r < mid.archetypes@[list@[j] as int].rows().len()
                        ==> row_updated(
                        *system,
                        plan.fields(),
                        mid.archetypes@[list@[j] as int].row_map(r),
                        #[trigger] self.archetypes@[list@[j] as int].row_map(r),
                    ),
                visited@ == rows_in(mid.archetypes@, list@.subrange(0, k as int)),
            decreases list@.len() - k,
        {
            let a: usize = list[k];
            proof {
                assert(list@[k as int] < mid.archetypes().len());
                assert(plan.type_set().subset_of(mid.archetypes()[a as int].type_set()));
                // The archetype was not visited yet.
                assert forall|j: int| 0 <= j < k implies (#[trigger] list@[j]) != a by {}
                assert(self.archetypes@[a as int] == mid.archetypes@[a as int]);
            }
            let count: usize = self.archetypes[a].len();
            let ghost seen = visited@;
            let mut r: usize = 0;
            while r < count
                invariant
                    r <= count,
                    a < self.archetypes@.len(),
                    count == self.archetypes@[a as int].rows().len(),
                    visited@ == seen + self.archetypes@[a as int].rows().subrange(0, r as int),
                decreases count - r,
            {
                visited.push(self.archetypes[a].get_entity(r).unwrap());
                r = r + 1;
                assert(visited@ =~= seen + self.archetypes@[a as int].rows().subrange(0, r as int));
            }
            let ghost start = *self;
            self.archetypes[a].run_rows(plan, system);
            proof {
                let shorter = list@.subrange(0, k as int);
                let longer = list@.subrange(0, k + 1);
                assert(longer.drop_last() =~= shorter);
                assert(longer.last() == a);
                assert(mid.archetypes@[a as int].rows().subrange(0, count as int)
                    =~= mid.archetypes@[a as int].rows());
                assert forall|j: int, r: int|
                    0 <= j < k + 1 && 0 <= r < mid.archetypes@[list@[j] as int].rows().len() implies row_updated(
                        *system,
                        plan.fields(),
                    mid.archetypes@[list@[j] as int].row_map(r),
                    #[trigger] self.archetypes@[list@[j] as int].row_map(r),
                ) by {
                    if j < k {
                        assert(list@[j] != a);
                        assert(self.archetypes@[list@[j] as int] == start.archetypes@[list@[j] as int]);
                    }
                }
            }
            k = k + 1;
        }
        proof {
            assert(list@.subrange(0, list@.len() as int) =~= list@);
            self.lemma_structure_kept(&mid);
            self.lemma_rows_kept(&mid);
            assert(self@.dom() =~= old(self)@.dom());
            assert forall|e: EntityId| old(self)@.contains_key(e) implies if plan.type_set().subset_of(
                old(self)@[e].dom(),
            ) {
                row_updated(
                        *system,
                        plan.fields(), old(self)@[e], #[trigger] self@[e])
            } else {
                self@[e] == old(self)@[e]
            } by {
                let at = mid.location_of(e);
                let a = at.archetype as int;
                assert(mid@.contains_key(e));
                assert(mid@[e] == mid.archetypes()[a].row_map(at.row as int));
                assert(self@[e] == self.archetypes()[a].row_map(at.row as int));
                assert(mid@[e].dom() =~= mid.archetypes()[a].type_set());
                if plan.type_set().subset_of(old(self)@[e].dom()) {
                    assert(list@.contains(a as usize));
                    let j = choose|j: int| 0 <= j < list@.len() && list@[j] == a as usize;
                    assert(row_updated(
                        *system,
                        plan.fields(),
                        mid.archetypes@[list@[j] as int].row_map(at.row as int),
                        self.archetypes@[list@[j] as int].row_map(at.row as int),
                    ));
                } else {
                    assert forall|j: int| 0 <= j < list@.len() implies (#[trigger] list@[j])
                        != a by {
                        if list@[j] == a {
                            assert(plan.type_set().subset_of(
                                mid.archetypes()[list@[j] as int].type_set(),
                            ));
                        }
                    }
                    assert(self.archetypes@[a] == mid.archetypes@[a]);
                }
            }
            assert(is_match_list(old(self).archetypes(), plan.type_set(), list@));
        }
        visited
    }

    /// Runs `system` over the rows that match the row shape `M`, as
    /// `run_plan` does with the plan of that shape. Fails with
    /// `QueryAliasingViolation`, before any call of the system and changing
    /// nothing, where the shape names a component type twice.
    pub fn run_system<M: QueryModel, F: FnMut(&Vec<&C>) -> Vec<C>>(&mut self, system: &mut F) -> (r:
        Result<Vec<EntityId>, EcsError>)
        requires
            old(self).wf(),
            forall|row: &Vec<&C>| call_requires(*old(system), (row,)),
        ensures
            final(self).wf(),
            final(self).query_open() == old(self).query_open(),
            final(self).registry() == old(self).registry(),
            *final(system) == *old(system),
            match r {
                Ok(visited) => exists|fields: Vec<QueryField>|
                    {
                        &&& #[trigger] call_ensures(M::get_fields, (), fields)
                        &&& distinct_components(fields@)
                        &&& final(self).query_applied(old(self), fields@, *old(system), visited@)
                    },
                Err(e) => {
                    &&& e == EcsError::QueryAliasingViolation
                    &&& final(self).unchanged_from(old(self))
                    &&& exists|fields: Vec<QueryField>| #[trigger]
                        call_ensures(M::get_fields, (), fields) && !distinct_components(fields@)
                },
            },
    {
        let fields: Vec<QueryField> = M::get_fields();
        match QueryPlan::build(fields) {
            Ok(plan) => {
                let visited: Vec<EntityId> = self.run_plan(&plan, system);
                proof {
                    assert(call_ensures(M::get_fields, (), fields));
                    assert(self.query_applied(old(self), fields@, *old(system), visited@));
                }
                Ok(visited)
            },
            Err(e) => {
                proof {
                    assert(call_ensures(M::get_fields, (), fields));
                }
                Err(e)
            },
        }
    }

    /// Every column of an archetype is as long as the archetype's entity list.
    pub proof fn lemma_column_parity(&self, a: int, type_id: ComponentType)
        requires
            self.wf(),
            0 <= a < self.archetypes().len(),
            self.archetypes()[a].type_set().contains(type_id),
        ensures
            self.archetypes()[a].column(type_id).len() == self.archetypes()[a].rows().len(),
    {
        self.archetypes()[a].lemma_slot(type_id);
    }

    /// Archetypes that store the same component set are one archetype.
    pub proof fn lemma_schema_names_archetype(&self, a: int, b: int)
        requires
            self.wf(),
            0 <= a < self.archetypes().len(),
            0 <= b < self.archetypes().len(),
            self.archetypes()[a].type_set() == self.archetypes()[b].type_set(),
        ensures
            a == b,
    {
    }

    /// A live entity stands in the row in which the registry places it.
    pub proof fn lemma_live_entity_in_row(&self, e: EntityId)
        requires
            self.wf(),
            self@.contains_key(e),
        ensures
            self.location_of(e).archetype < self.archetypes().len(),
            self.location_of(e).row < self.archetypes()[self.location_of(
                e,
            ).archetype as int].rows().len(),
            self.archetypes()[self.location_of(e).archetype as int].rows()[self.location_of(
                e,
            ).row as int] == e,
    {
        assert(self.registry().slots()[e.id as int].location is Some);
    }

    /// An edge leads to an archetype whose schema differs by exactly the
    /// type of the edge, and which has the edge back.
    pub proof fn lemma_edge_is_symmetric(&self, a: int, type_id: ComponentType)
        requires
            self.wf(),
            0 <= a < self.archetypes().len(),
            self.archetypes()[a].edges().contains_key(type_id),
        ensures
            self.archetypes()[a].edges()[type_id] < self.archetypes().len(),
            self.archetypes()[self.archetypes()[a].edges()[type_id] as int].edges().contains_key(
                type_id,
            ),
            self.archetypes()[self.archetypes()[a].edges()[type_id] as int].edges()[type_id] == a,
            self.archetypes()[self.archetypes()[a].edges()[type_id] as int].type_set()
                == if self.archetypes()[a].type_set().contains(type_id) {
                self.archetypes()[a].type_set().remove(type_id)
            } else {
                self.archetypes()[a].type_set().insert(type_id)
            },
    {
        let here = self.archetypes()[a].type_set();
        let there = self.archetypes()[self.archetypes()[a].edges()[type_id] as int].type_set();
        assert(here.insert(type_id) == there.insert(type_id));
        assert forall|t: ComponentType| there.contains(t) == (if here.contains(type_id) {
            here.remove(type_id)
        } else {
            here.insert(type_id)
        }).contains(t) by {
            if t != type_id {
                assert(here.insert(type_id).contains(t) == there.insert(type_id).contains(t));
            }
        }
        assert(there =~= if here.contains(type_id) {
            here.remove(type_id)
        } else {
            here.insert(type_id)
        });
    }

    /// A list of matches names an archetype if and only if the archetype's
    /// schema holds every type asked for, and names none twice.
    pub proof fn lemma_match_list_names_each_once(
        archetypes: Seq<Archetype<C>>,
        types: Set<ComponentType>,
        list: Seq<usize>,
    )
        requires
            is_match_list(archetypes, types, list),
        ensures
            list.no_duplicates(),
            forall|a: usize|
                list.contains(a) <==> a < archetypes.len() && types.subset_of(
                    archetypes[a as int].type_set(),
                ),
    {
        assert forall|i: int, j: int| 0 <= i < list.len() && 0 <= j < list.len() && i
            != j implies list[i] != list[j] by {
            if i < j {
                assert(list[i] < list[j]);
            } else {
                assert(list[j] < list[i]);
            }
        }
        assert forall|a: usize|
            list.contains(a) <==> a < archetypes.len() && types.subset_of(
                archetypes[a as int].type_set(),
            ) by {
            if list.contains(a) {
                let k = choose|k: int| 0 <= k < list.len() && list[k] == a;
                assert(list[k] < archetypes.len());
            }
            if a < archetypes.len() && types.subset_of(archetypes[a as int].type_set()) {
                assert(list.contains(a as int as usize));
            }
        }
    }

    /// Attaching a component to an entity and detaching it again gives the
    /// world back as it was: the same entities with the same components,
    /// and so the entity with the component types it had.
    pub proof fn lemma_attach_then_detach(
        start: &Self,
        attached: &Self,
        detached: &Self,
        id: EntityId,
        comp: ComponentBox<C>,
    )
        requires
            attached.migrated(start, id, Migration::Add(comp)),
            detached.migrated(attached, id, Migration::Remove(comp.type_id)),
        ensures
            detached@ == start@,
            detached@[id].dom() == start@[id].dom(),
    {
        let before = start@[id];
        let between = attached@[id];
        assert(between == before.insert(comp.type_id, comp.component));
        assert(between.remove(comp.type_id) =~= before);
        assert(detached@ =~= start@);
    }

    /// Spawning an entity and killing it leaves a well-formed world with the
    /// entities and components it had before. The index of the id is the
    /// next that the registry hands out, with the generation raised by one,
    /// so that the next entity spawned gets it, unless the generation of
    /// the id was the last a `u32` can count.
    pub proof fn lemma_spawn_then_kill(
        start: &Self,
        spawned: &Self,
        killed: &Self,
        next: &Self,
        components: Map<ComponentType, C>,
        id: EntityId,
        later_components: Map<ComponentType, C>,
        later_id: EntityId,
    )
        requires
            start.wf(),
            spawned.spawned(start, components, id),
            killed.killed(spawned, id),
            next.spawned(killed, later_components, later_id),
        ensures
            killed.column_parity(),
            killed.schemas_unique(),
            killed.locations_consistent(),
            killed@ == start@,
            id.generation < u32::MAX ==> later_id == (EntityId {
                id: id.id,
                generation: (id.generation + 1) as u32,
            }),
    {
        assert(killed@ =~= start@);
        if id.generation < u32::MAX {
            assert(spawned.registry().is_live(id));
            assert(killed.generation_of(id.id as int) == spawned.generation_of(id.id as int) + 1);
            killed.registry().lemma_freed_index_is_next(&spawned.registry(), id);
        }
    }

    /// A system that answers every row with no values leaves the world as
    /// it was: the same entities with the same components.
    pub proof fn lemma_idle_system<F: FnMut(&Vec<&C>) -> Vec<C>>(
        &self,
        before: &Self,
        fields: Seq<QueryField>,
        system: F,
        visited: Seq<EntityId>,
    )
        requires
            self.query_applied(before, fields, system, visited),
            forall|view: &Vec<&C>, out: Vec<C>|
                call_ensures(system, (view,), out) ==> out@.len() == 0,
        ensures
            self@ == before@,
    {
        assert forall|e: EntityId| before@.contains_key(e) implies self@[e] == before@[e] by {
            if components_of(fields).to_set().subset_of(before@[e].dom()) {
                assert(row_updated(system, fields, before@[e], self@[e]));
                let writes = components_with(fields, Access::Write);
                assert forall|t: ComponentType| before@[e].dom().contains(t) implies self@[e][t]
                    == before@[e][t] by {
                    if writes.contains(t) {
                        let j = choose|j: int| 0 <= j < writes.len() && writes[j] == t;
                        assert(self@[e][writes[j]] == before@[e][writes[j]]);
                    }
                }
                assert(self@[e] =~= before@[e]);
            }
        }
        assert(self@ =~= before@);
    }
}

/// A copy of `list`.
fn copy_list(list: &Vec<usize>) -> (copy: Vec<usize>)
    ensures
        copy@ == list@,
{
    let mut copy: Vec<usize> = Vec::new();
    let mut i: usize = 0;
    while i < list.len()
        invariant
            i <= list@.len(),
            copy@ == list@.subrange(0, i as int),
        decreases list@.len() - i,
    {
        copy.push(list[i]);
        i = i + 1;
        assert(copy@ =~= list@.subrange(0, i as int));
    }
    assert(copy@ =~= list@);
    copy
}

} // verus!
