//! Entity ids, locations and the registry that maps one to the other.
//!
//! The registry is a slot array indexed by `EntityId::id`. A slot remembers its
//! generation and, while the entity is placed, the archetype and row that hold
//! its components. Freed indices wait on a free list for reuse; since the
//! generation grows with every free, an id that outlived its entity no longer
//! matches its slot.

use vstd::prelude::*;
use core::ops::Range;
use crate::errors::EntityError;

verus! {

/// A handle to an entity: a slot index and the generation the slot had when
/// the handle was made.
#[derive(Debug, PartialEq, Eq, Clone, Copy, Structural)]
pub struct EntityId {
    pub id: u32,
    pub generation: u32,
}

/// Where the components of an entity are stored.
#[derive(Debug, PartialEq, Eq, Clone, Copy, Structural)]
pub struct Location {
    pub archetype: usize,
    pub row: usize,
}

impl Location {
    /// The location at `row` of archetype `archetype`.
    pub fn new(archetype: usize, row: usize) -> (loc: Self)
        ensures
            loc == (Location { archetype, row }),
    {
        Self { archetype, row }
    }
}

/// One slot of the registry.
#[derive(Debug, Clone, Copy)]
pub struct Entity {
    pub generation: u32,
    pub location: Option<Location>,
    /// Set when the slot was freed at the last generation a `u32` can count:
    /// the index is then never handed out again.
    pub retired: bool,
}

impl Entity {
    /// The slot of an index that was never freed and is not placed.
    pub open spec fn fresh() -> Entity {
        Entity { generation: 0, location: None, retired: false }
    }

    /// How often the slot was freed. A retired slot was freed once more than
    /// a `u32` can count.
    pub open spec fn age(self) -> nat {
        if self.retired {
            (u32::MAX + 1) as nat
        } else {
            self.generation as nat
        }
    }

    /// A slot with the given generation and location.
    pub fn new(generation: u32, location: Option<Location>) -> (slot: Self)
        ensures
            slot == (Entity { generation, location, retired: false }),
    {
        Entity { generation, location, retired: false }
    }

    /// Whether an id of generation `gen` names this slot.
    fn check_generation(&self, gen: u32) -> (r: Result<(), EntityError>)
        ensures
            r == if self.age() == gen {
                Ok::<(), EntityError>(())
            } else {
                Err::<(), EntityError>(EntityError::WrongGen)
            },
    {
        if !self.retired && gen == self.generation {
            Ok(())
        } else {
            Err(EntityError::WrongGen)
        }
    }
}

impl Default for Entity {
    fn default() -> (slot: Self)
        ensures
            slot == Entity::fresh(),
    {
        Entity { generation: 0, location: None, retired: false }
    }
}

/// The registry: slots, the free list and the number of indices handed out.
pub struct EntityStore {
    entities: Vec<Entity>,
    freed: Vec<u32>,
    count: u32,
    limit: u32,
}

impl Default for EntityStore {
    fn default() -> (store: Self)
        ensures
            store.wf(),
            store.slots() == Seq::<Entity>::empty(),
            store.free_list() == Seq::<u32>::empty(),
            store.limit() == u32::MAX,
    {
        EntityStore::new()
    }
}

/// What `set_many_location` leaves in the slot of index `index`: the row of the
/// last of `ids` that names the slot, counted from `start`, or the location
/// the slot had before where none names it.
pub open spec fn placed_in_block(
    before: Option<Location>,
    ids: Seq<EntityId>,
    start: Location,
    index: int,
) -> Option<Location>
    decreases ids.len(),
{
    if ids.len() == 0 {
        before
    } else if ids.last().id == index {
        Some(Location { archetype: start.archetype, row: (start.row + ids.len() - 1) as usize })
    } else {
        placed_in_block(before, ids.drop_last(), start, index)
    }
}

impl EntityStore {
    /// The slots, by index.
    pub closed spec fn slots(&self) -> Seq<Entity> {
        self.entities@
    }

    /// The indices that wait for reuse; the last one is handed out first.
    pub closed spec fn free_list(&self) -> Seq<u32> {
        self.freed@
    }

    /// The number of indices the registry may hand out at most.
    pub closed spec fn limit(&self) -> nat {
        self.limit as nat
    }

    /// The counter of handed out indices agrees with the slot array.
    pub closed spec fn counted(&self) -> bool {
        self.count == self.entities@.len()
    }

    /// Well-formedness: the slots stay within the limit, and the free list
    /// names each index at most once, only indices of unplaced slots that are
    /// not retired.
    pub open spec fn wf(&self) -> bool {
        &&& self.counted()
        &&& self.slots().len() <= self.limit()
        &&& self.limit() <= u32::MAX
        &&& self.free_list().no_duplicates()
        &&& forall|k: int|
            0 <= k < self.free_list().len() ==> {
                &&& (#[trigger] self.free_list()[k]) < self.slots().len()
                &&& self.slots()[self.free_list()[k] as int].location is None
                &&& !self.slots()[self.free_list()[k] as int].retired
            }
    }

    /// How often the slot of `index` was freed.
    pub open spec fn generation_of(&self, index: int) -> nat {
        self.slots()[index].age()
    }

    /// The answer of `entity_status` for `id`.
    pub open spec fn status(&self, id: EntityId) -> Result<Option<Location>, EntityError> {
        if id.id >= self.slots().len() {
            Err(EntityError::NotFound)
        } else if self.generation_of(id.id as int) != id.generation {
            Err(EntityError::WrongGen)
        } else {
            Ok(self.slots()[id.id as int].location)
        }
    }

    /// The id that is handed out next, unless the registry is full: the index
    /// that was freed last, with the generation of its slot, or, where the
    /// free list is empty, the first index without a slot, with generation 0.
    pub open spec fn next_id(&self) -> EntityId {
        if self.free_list().len() > 0 {
            EntityId {
                id: self.free_list().last(),
                generation: self.slots()[self.free_list().last() as int].generation,
            }
        } else {
            EntityId { id: self.slots().len() as u32, generation: 0 }
        }
    }

    /// No index is left to hand out: the free list is empty and the limit is reached.
    pub open spec fn is_full(&self) -> bool {
        self.free_list().len() == 0 && self.slots().len() == self.limit()
    }

    /// `id` names a slot of its generation, placed or not.
    pub open spec fn knows(&self, id: EntityId) -> bool {
        self.status(id) is Ok
    }

    /// `id` names a slot of its generation that holds a location.
    pub open spec fn is_live(&self, id: EntityId) -> bool {
        self.status(id) matches Ok(Some(_))
    }

    /// An empty registry that hands out up to `u32::MAX` indices.
    pub fn new() -> (store: Self)
        ensures
            store.wf(),
            store.slots() == Seq::<Entity>::empty(),
            store.free_list() == Seq::<u32>::empty(),
            store.limit() == u32::MAX,
    {
        EntityStore { entities: Vec::new(), freed: Vec::new(), count: 0, limit: u32::MAX }
    }

    /// An empty registry that hands out up to `limit` indices.
    pub fn with_limit(limit: u32) -> (store: Self)
        ensures
            store.wf(),
            store.slots() == Seq::<Entity>::empty(),
            store.free_list() == Seq::<u32>::empty(),
            store.limit() == limit,
    {
        EntityStore { entities: Vec::new(), freed: Vec::new(), count: 0, limit }
    }

    /// A registry made of the given slots and free list, which hands out up
    /// to `limit` indices, or `None` where the parts are not well-formed
    /// together: more slots than the limit allows, or a free list that names
    /// an index twice, an index without a slot, or the index of a slot that
    /// is placed or retired.
    pub fn from_parts(entities: Vec<Entity>, freed: Vec<u32>, limit: u32) -> (r: Option<Self>)
        ensures
            match r {
                Some(store) => {
                    &&& store.wf()
                    &&& store.slots() == entities@
                    &&& store.free_list() == freed@
                    &&& store.limit() == limit
                },
                None => {
                    ||| entities@.len() > limit
                    ||| !freed@.no_duplicates()
                    ||| exists|k: int|
                        0 <= k < freed@.len() && (freed@[k] >= entities@.len()
                            || entities@[freed@[k] as int].location is Some
                            || entities@[freed@[k] as int].retired)
                },
            },
    {
        if entities.len() > limit as usize {
            return None;
        }
        let mut k: usize = 0;
        while k < freed.len()
            invariant
                k <= freed@.len(),
                freed@.subrange(0, k as int).no_duplicates(),
                forall|j: int|
                    0 <= j < k ==> {
                        &&& (#[trigger] freed@[j]) < entities@.len()
                        &&& entities@[freed@[j] as int].location is None
                        &&& !entities@[freed@[j] as int].retired
                    },
            decreases freed@.len() - k,
        {
            let index: u32 = freed[k];
            if index as usize >= entities.len() {
                return None;
            }
            let slot: &Entity = &entities[index as usize];
            if slot.location.is_some() || slot.retired {
                return None;
            }
            let mut j: usize = 0;
            while j < k
                invariant
                    j <= k < freed@.len(),
                    index == freed@[k as int],
                    forall|i: int| 0 <= i < j ==> freed@[i] != index,
                decreases k - j,
            {
                if freed[j] == index {
                    return None;
                }
                j = j + 1;
            }
            assert(freed@.subrange(0, k + 1).no_duplicates()) by {
                let longer = freed@.subrange(0, k + 1);
                let shorter = freed@.subrange(0, k as int);
                assert forall|a: int, b: int|
                    0 <= a < longer.len() && 0 <= b < longer.len() && a != b implies longer[a]
                    != longer[b] by {
                    if a < k && b < k {
                        assert(shorter[a] != shorter[b]);
                    }
                }
            }
            k = k + 1;
        }
        assert(freed@.subrange(0, freed@.len() as int) =~= freed@);
        let count: u32 = entities.len() as u32;
        Some(EntityStore { entities, freed, count, limit })
    }

    /// The slots, by index.
    pub fn entities(&self) -> (slots: &[Entity])
        ensures
            slots@ == self.slots(),
    {
        self.entities.as_slice()
    }

    /// The indices that wait for reuse; the last one is handed out first.
    pub fn freed(&self) -> (indices: &[u32])
        ensures
            indices@ == self.free_list(),
    {
        self.freed.as_slice()
    }

    /// The number of slots.
    pub fn len(&self) -> (n: usize)
        ensures
            n == self.slots().len(),
    {
        self.entities.len()
    }

    /// The location of `id`, or why it has none to give: `NotFound` where
    /// the index is out of range, `WrongGen` where the generation differs,
    /// `Ok(None)` where the id is allocated but not placed.
    pub fn entity_status(&self, id: EntityId) -> (r: Result<Option<Location>, EntityError>)
        ensures
            r == self.status(id),
    {
        if (id.id as usize) < self.entities.len() {
            let entity: &Entity = &self.entities[id.id as usize];
            match entity.check_generation(id.generation) {
                Ok(()) => Ok(entity.location),
                Err(e) => Err(e),
            }
        } else {
            Err(EntityError::NotFound)
        }
    }

    /// The index of the slot that `id` names.
    fn get_mut_entity(&self, id: EntityId) -> (r: Result<usize, EntityError>)
        ensures
            match r {
                Ok(index) => self.knows(id) && index == id.id,
                Err(e) => self.status(id) == Err::<Option<Location>, EntityError>(e),
            },
    {
        match self.entity_status(id) {
            Ok(_) => Ok(id.id as usize),
            Err(e) => Err(e),
        }
    }

    /// Appends `count` fresh slots and returns the range of their indices.
    /// Fails, changing nothing, where the limit leaves no room for them.
    fn seed_new_ids(&mut self, count: u32) -> (r: Result<Range<u32>, EntityError>)
        requires
            old(self).wf(),
        ensures
            final(self).wf(),
            final(self).limit() == old(self).limit(),
            final(self).free_list() == old(self).free_list(),
            match r {
                Ok(range) => {
                    &&& old(self).slots().len() + count <= old(self).limit()
                    &&& range.start == old(self).slots().len()
                    &&& range.end == old(self).slots().len() + count
                    &&& final(self).slots() == old(self).slots() + Seq::new(
                        count as nat,
                        |k: int| Entity::fresh(),
                    )
                },
                Err(e) => {
                    &&& old(self).slots().len() + count > old(self).limit()
                    &&& e == EntityError::TooManyEntities
                    &&& final(self).slots() == old(self).slots()
                },
            },
    {
        let old_count: u32 = self.count;
        if count <= self.limit - old_count {
            let new_count: u32 = old_count + count;
            let mut made: u32 = 0;
            while made < count
                invariant
                    made <= count,
                    old_count + count <= self.limit,
                    self.limit == old(self).limit,
                    self.freed == old(self).freed,
                    self.entities@ == old(self).entities@ + Seq::new(
                        made as nat,
                        |k: int| Entity::fresh(),
                    ),
                    old_count == old(self).entities@.len(),
                decreases count - made,
            {
                self.entities.push(Entity::default());
                made = made + 1;
                assert(self.entities@ =~= old(self).entities@ + Seq::new(
                    made as nat,
                    |k: int| Entity::fresh(),
                ));
            }
            self.count = new_count;
            Ok(old_count..new_count)
        } else {
            Err(EntityError::TooManyEntities)
        }
    }

    /// Hands out `count` ids at once, or none. As many as the free list holds
    /// are taken from its end, in the order in which they stand there, each
    /// with the generation of its slot; the rest are fresh indices of
    /// generation 0. Fails with `TooManyEntities`, changing nothing, where the
    /// limit leaves no room for the fresh ones.
    pub fn get_new_ids(&mut self, count: u32) -> (r: Result<Vec<EntityId>, EntityError>)
        requires
            old(self).wf(),
        ensures
            final(self).wf(),
            final(self).limit() == old(self).limit(),
            ({
                let held = old(self).free_list().len() as int;
                let reused = if count <= held { count as int } else { held };
                let kept = held - reused;
                let fresh = count - reused;
                match r {
                    Ok(ids) => {
                        &&& old(self).slots().len() + fresh <= old(self).limit()
                        &&& ids@.len() == count
                        &&& forall|k: int|
                            0 <= k < reused ==> (#[trigger] ids@[k]) == (EntityId {
                                id: old(self).free_list()[kept + k],
                                generation: old(self).slots()[old(self).free_list()[kept
                                    + k] as int].generation,
                            })
                        &&& forall|k: int|
                            reused <= k < count ==> (#[trigger] ids@[k]) == (EntityId {
                                id: (old(self).slots().len() + k - reused) as u32,
                                generation: 0,
                            })
                        &&& final(self).free_list() == old(self).free_list().subrange(0, kept)
                        &&& final(self).slots() == old(self).slots() + Seq::new(
                            fresh as nat,
                            |k: int| Entity::fresh(),
                        )
                        &&& forall|k: int|
                            0 <= k < count ==> final(self).status(#[trigger] ids@[k]) == Ok::<
                                Option<Location>,
                                EntityError,
                            >(None)
                    },
                    Err(e) => {
                        &&& old(self).slots().len() + fresh > old(self).limit()
                        &&& e == EntityError::TooManyEntities
                        &&& final(self).slots() == old(self).slots()
                        &&& final(self).free_list() == old(self).free_list()
                    },
                }
            }),
    {
        let held: usize = self.freed.len();
        let reused: usize = if (count as usize) <= held { count as usize } else { held };
        let kept: usize = held - reused;
        let fresh: u32 = count - (reused as u32);
        if fresh > self.limit - self.count {
            return Err(EntityError::TooManyEntities);
        }
        let mut ids: Vec<EntityId> = Vec::new();
        let mut k: usize = kept;
        while k < held
            invariant
                kept <= k <= held,
                held == self.freed@.len(),
                *self == *old(self),
                self.wf(),
                ids@.len() == k - kept,
                forall|j: int|
                    0 <= j < k - kept ==> (#[trigger] ids@[j]) == (EntityId {
                        id: self.freed@[kept + j],
                        generation: self.entities@[self.freed@[kept + j] as int].generation,
                    }),
            decreases held - k,
        {
            let id: u32 = self.freed[k];
            let generation: u32 = self.entities[id as usize].generation;
            ids.push(EntityId { id, generation });
            k = k + 1;
        }
        self.freed.truncate(kept);
        assert(self.freed@ == old(self).freed@.subrange(0, kept as int));
        let ghost reused_ids = ids@;
        if fresh > 0 {
            match self.seed_new_ids(fresh) {
                Ok(range) => {
                    let mut id: u32 = range.start;
                    while id < range.end
                        invariant
                            range.start <= id <= range.end,
                            range.end == range.start + fresh,
                            ids@.len() == reused + (id - range.start),
                            ids@.subrange(0, reused as int) == reused_ids,
                            reused_ids.len() == reused,
                            forall|j: int|
                                reused <= j < ids@.len() ==> (#[trigger] ids@[j]) == (EntityId {
                                    id: (range.start + j - reused) as u32,
                                    generation: 0,
                                }),
                        decreases range.end - id,
                    {
                        ids.push(EntityId { id, generation: 0 });
                        id = id + 1;
                        assert(ids@.subrange(0, reused as int) =~= reused_ids);
                    }
                },
                Err(_) => {
                    assert(false);
                },
            }
        } else {
            assert(self.entities@ =~= old(self).entities@ + Seq::new(
                0nat,
                |k: int| Entity::fresh(),
            ));
        }
        proof {
            assert forall|j: int| 0 <= j < reused implies (#[trigger] ids@[j]) == (EntityId {
                id: old(self).free_list()[kept + j],
                generation: old(self).slots()[old(self).free_list()[kept + j] as int].generation,
            }) by {
                assert(ids@[j] == ids@.subrange(0, reused as int)[j]);
            }
        }
        Ok(ids)
    }

    /// Hands out one id: the index that was freed last, with the generation
    /// of its slot, or, where the free list is empty, a fresh index of
    /// generation 0. Fails with `TooManyEntities` where the free list is
    /// empty and the limit is reached. The id is not placed yet.
    pub fn get_new_id(&mut self) -> (r: Result<EntityId, EntityError>)
        requires
            old(self).wf(),
        ensures
            final(self).wf(),
            final(self).limit() == old(self).limit(),
            match r {
                Ok(id) => {
                    &&& !old(self).is_full()
                    &&& id == old(self).next_id()
                    &&& !old(self).is_live(id)
                    &&& id.id < old(self).slots().len() ==> old(self).slots()[id.id as int].location is None
                    &&& final(self).status(id) == Ok::<Option<Location>, EntityError>(None)
                    &&& !final(self).free_list().contains(id.id)
                    &&& if old(self).free_list().len() > 0 {
                        &&& id.id == old(self).free_list().last()
                        &&& id.generation == old(self).slots()[id.id as int].generation
                        &&& final(self).free_list() == old(self).free_list().drop_last()
                        &&& final(self).slots() == old(self).slots()
                    } else {
                        &&& id.id == old(self).slots().len()
                        &&& id.generation == 0
                        &&& final(self).free_list() == old(self).free_list()
                        &&& final(self).slots() == old(self).slots().push(Entity::fresh())
                    }
                },
                Err(e) => {
                    &&& e == EntityError::TooManyEntities
                    &&& old(self).is_full()
                    &&& final(self).slots() == old(self).slots()
                    &&& final(self).free_list() == old(self).free_list()
                },
            },
    {
        if let Some(id) = self.freed.pop() {
            let generation: u32 = self.entities[id as usize].generation;
            assert(old(self).free_list()[old(self).free_list().len() - 1] == id);
            assert(!self.free_list().contains(id)) by {
                if self.free_list().contains(id) {
                    let k = choose|k: int| 0 <= k < self.free_list().len() && self.free_list()[k] == id;
                    assert(old(self).free_list()[k] == id);
                }
            }
            Ok(EntityId { id, generation })
        } else if self.count < self.limit {
            let id: u32 = self.count;
            self.count = self.count + 1;
            self.entities.push(Entity::default());
            assert(!self.free_list().contains(id)) by {
                if self.free_list().contains(id) {
                    let k = choose|k: int| 0 <= k < self.free_list().len() && self.free_list()[k] == id;
                    assert(old(self).free_list()[k] < old(self).slots().len());
                }
            }
            Ok(EntityId { id, generation: 0 })
        } else {
            Err(EntityError::TooManyEntities)
        }
    }

    /// Ends the life of `id`: clears the location of its slot, raises the
    /// slot's generation by one and puts the index on the free list, unless
    /// the generation was the last a `u32` can count, in which case the index
    /// is retired. Returns the location the entity had. Fails, changing
    /// nothing, with the error of `entity_status`, or with `AlreadyFreed`
    /// where the id is not placed.
    pub fn free(&mut self, id: EntityId) -> (r: Result<Location, EntityError>)
        requires
            old(self).wf(),
        ensures
            final(self).wf(),
            final(self).limit() == old(self).limit(),
            final(self).slots().len() == old(self).slots().len(),
            match old(self).status(id) {
                Ok(Some(location)) => {
                    &&& r == Ok::<Location, EntityError>(location)
                    &&& final(self).slots()[id.id as int].location is None
                    &&& final(self).generation_of(id.id as int) == old(self).generation_of(
                        id.id as int,
                    ) + 1
                    &&& forall|i: int|
                        0 <= i < old(self).slots().len() && i != id.id ==> final(self).slots()[i]
                            == old(self).slots()[i]
                    &&& final(self).free_list() == if id.generation < u32::MAX {
                        old(self).free_list().push(id.id)
                    } else {
                        old(self).free_list()
                    }
                },
                Ok(None) => {
                    &&& r == Err::<Location, EntityError>(EntityError::AlreadyFreed)
                    &&& final(self).slots() == old(self).slots()
                    &&& final(self).free_list() == old(self).free_list()
                },
                Err(e) => {
                    &&& r == Err::<Location, EntityError>(e)
                    &&& final(self).slots() == old(self).slots()
                    &&& final(self).free_list() == old(self).free_list()
                },
            },
    {
        let index: usize = match self.get_mut_entity(id) {
            Ok(index) => index,
            Err(e) => {
                return Err(e);
            },
        };
        let entity: Entity = self.entities[index];
        let old_location: Location = match entity.location {
            Some(location) => location,
            None => {
                return Err(EntityError::AlreadyFreed);
            },
        };
        if entity.generation < u32::MAX {
            self.entities.set(
                index,
                Entity { generation: entity.generation + 1, location: None, retired: false },
            );
            self.freed.push(id.id);
            assert(self.free_list().no_duplicates()) by {
                assert forall|k: int|
                    0 <= k < old(self).free_list().len() implies old(self).free_list()[k]
                    != id.id by {
                    assert(old(self).slots()[old(self).free_list()[k] as int].location is None);
                }
            }
        } else {
            self.entities.set(
                index,
                Entity { generation: entity.generation, location: None, retired: true },
            );
            assert forall|k: int| 0 <= k < old(self).free_list().len() implies old(self).free_list()[k] != id.id by {
                assert(old(self).slots()[old(self).free_list()[k] as int].location is None);
            }
        }
        Ok(old_location)
    }

    /// An index that was freed is the next to be handed out, with a
    /// generation one above that of the freed id, unless the index was
    /// retired because its generation was the last.
    pub proof fn lemma_freed_index_is_next(&self, before: &Self, id: EntityId)
        requires
            before.wf(),
            before.is_live(id),
            id.generation < u32::MAX,
            self.slots().len() == before.slots().len(),
            self.generation_of(id.id as int) == before.generation_of(id.id as int) + 1,
            self.free_list() == before.free_list().push(id.id),
        ensures
            self.next_id() == (EntityId { id: id.id, generation: (id.generation + 1) as u32 }),
    {
    }

    /// Writes `location` into the slot of `id` and returns the location that
    /// stood there before, if any.
    pub fn set_location(&mut self, id: EntityId, location: Location) -> (previous: Option<Location>)
        requires
            old(self).wf(),
            old(self).knows(id),
            !old(self).free_list().contains(id.id),
        ensures
            final(self).wf(),
            final(self).limit() == old(self).limit(),
            final(self).free_list() == old(self).free_list(),
            old(self).status(id) == Ok::<Option<Location>, EntityError>(previous),
            final(self).slots() == old(self).slots().update(
                id.id as int,
                Entity { location: Some(location), ..old(self).slots()[id.id as int] },
            ),
    {
        let index: usize = id.id as usize;
        let entity: Entity = self.entities[index];
        let old_location: Option<Location> = entity.location;
        self.entities.set(
            index,
            Entity { generation: entity.generation, location: Some(location), retired: false },
        );
        assert forall|k: int| 0 <= k < self.free_list().len() implies {
            &&& (#[trigger] self.free_list()[k]) < self.slots().len()
            &&& self.slots()[self.free_list()[k] as int].location is None
            &&& !self.slots()[self.free_list()[k] as int].retired
        } by {
            assert(old(self).free_list().contains(old(self).free_list()[k]));
        }
        old_location
    }

    /// Places the entities `ids` in consecutive rows of one archetype: the
    /// k-th of them at row `start.row + k` of archetype `start.archetype`.
    pub fn set_many_location(&mut self, ids: &[EntityId], start: Location)
        requires
            old(self).wf(),
            start.row + ids@.len() <= usize::MAX,
            forall|k: int|
                0 <= k < ids@.len() ==> old(self).knows(#[trigger] ids@[k]) && !old(self).free_list().contains(ids@[k].id),
        ensures
            final(self).wf(),
            final(self).limit() == old(self).limit(),
            final(self).free_list() == old(self).free_list(),
            final(self).slots().len() == old(self).slots().len(),
            forall|i: int|
                0 <= i < old(self).slots().len() ==> (#[trigger] final(self).slots()[i]) == (Entity {
                    location: placed_in_block(old(self).slots()[i].location, ids@, start, i),
                    ..old(self).slots()[i]
                }),
    {
        let mut count: usize = 0;
        while count < ids.len()
            invariant
                count <= ids@.len(),
                start.row + ids@.len() <= usize::MAX,
                self.wf(),
                self.limit() == old(self).limit(),
                self.free_list() == old(self).free_list(),
                self.slots().len() == old(self).slots().len(),
                forall|k: int|
                    0 <= k < ids@.len() ==> old(self).knows(#[trigger] ids@[k]) && !old(self).free_list().contains(ids@[k].id),
                forall|i: int|
                    0 <= i < old(self).slots().len() ==> (#[trigger] self.slots()[i]) == (Entity {
                        location: placed_in_block(
                            old(self).slots()[i].location,
                            ids@.subrange(0, count as int),
                            start,
                            i,
                        ),
                        ..old(self).slots()[i]
                    }),
            decreases ids@.len() - count,
        {
            let id: EntityId = ids[count];
            assert(old(self).knows(ids@[count as int]));
            let ghost before = *self;
            self.set_location(id, Location::new(start.archetype, start.row + count));
            proof {
                let shorter = ids@.subrange(0, count as int);
                let longer = ids@.subrange(0, count + 1);
                assert(longer.drop_last() =~= shorter);
                assert(longer.last() == id);
                assert forall|i: int| 0 <= i < old(self).slots().len() implies (
                #[trigger] self.slots()[i]) == (Entity {
                    location: placed_in_block(old(self).slots()[i].location, longer, start, i),
                    ..old(self).slots()[i]
                }) by {
                    assert(before.slots()[i] == (Entity {
                        location: placed_in_block(
                            old(self).slots()[i].location,
                            shorter,
                            start,
                            i,
                        ),
                        ..old(self).slots()[i]
                    }));
                }
            }
            count = count + 1;
        }
        assert(ids@.subrange(0, ids@.len() as int) =~= ids@);
    }
}

} // verus!
