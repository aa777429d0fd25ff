//! Sets of component types and bundles of component values.
//!
//! A `TypeBundle` is the key of an archetype: the set of component types that
//! its entities carry, kept as a strictly ascending sequence so that equal
//! sets have equal representations. A `ComponentBundle` collects the boxed
//! components of one entity on their way into or out of an archetype.

use vstd::prelude::*;
use vstd::std_specs::cmp::PartialEqSpecImpl;
use crate::component::{Component, ComponentBox, ComponentStore, ComponentType};
use crate::errors::StoreError;

verus! {

/// Every element is smaller than the elements after it.
pub open spec fn ascending(s: Seq<ComponentType>) -> bool {
    forall|i: int, j: int| 0 <= i < j < s.len() ==> s[i] < s[j]
}

/// Two ascending sequences with the same elements are the same sequence.
pub proof fn lemma_ascending_canonical(a: Seq<ComponentType>, b: Seq<ComponentType>)
    requires
        ascending(a),
        ascending(b),
        a.to_set() == b.to_set(),
    ensures
        a == b,
    decreases a.len(),
{
    if a.len() == 0 {
        if b.len() > 0 {
            assert(b.contains(b[0]));
            assert(b.to_set().contains(b[0]));
            assert(a.contains(b[0]));
        }
        assert(a =~= b);
    } else {
        assert(a.contains(a.last()));
        assert(a.to_set().contains(a.last()));
        assert(b.contains(a.last()));
        assert(b.contains(b.last()));
        assert(b.to_set().contains(b.last()));
        assert(a.contains(b.last()));
        assert(a.last() == b.last());
        let shorter_a = a.drop_last();
        let shorter_b = b.drop_last();
        assert forall|x: ComponentType| shorter_a.to_set().contains(x) == shorter_b.to_set().contains(
            x,
        ) by {
            if shorter_a.contains(x) {
                let i = choose|i: int| 0 <= i < shorter_a.len() && shorter_a[i] == x;
                assert(a[i] == x);
                assert(a.contains(x));
                assert(a.to_set().contains(x));
                assert(b.contains(x));
                let j = choose|j: int| 0 <= j < b.len() && b[j] == x;
                assert(j < b.len() - 1);
                assert(shorter_b[j] == x);
            }
            if shorter_b.contains(x) {
                let i = choose|i: int| 0 <= i < shorter_b.len() && shorter_b[i] == x;
                assert(b[i] == x);
                assert(b.contains(x));
                assert(b.to_set().contains(x));
                assert(a.contains(x));
                let j = choose|j: int| 0 <= j < a.len() && a[j] == x;
                assert(j < a.len() - 1);
                assert(shorter_a[j] == x);
            }
        }
        assert(shorter_a.to_set() =~= shorter_b.to_set());
        lemma_ascending_canonical(shorter_a, shorter_b);
        assert(a =~= shorter_a.push(a.last()));
        assert(b =~= shorter_b.push(b.last()));
    }
}

/// A set of component types in canonical form. Bundles of the same types
/// are equal and hash alike.
#[derive(Debug, Hash)]
pub struct TypeBundle {
    types: Vec<ComponentType>,
}

impl View for TypeBundle {
    type V = Set<ComponentType>;

    /// The component types of the bundle.
    open spec fn view(&self) -> Set<ComponentType> {
        self.seq().to_set()
    }
}

impl TypeBundle {
    /// The component types in the order in which the bundle keeps them.
    pub closed spec fn seq(&self) -> Seq<ComponentType> {
        self.types@
    }

    /// The representation is canonical: strictly ascending.
    #[verifier::type_invariant]
    pub open spec fn wf(&self) -> bool {
        ascending(self.seq())
    }

    /// Bundles of the same types are represented alike.
    pub proof fn lemma_same_view_same_seq(&self, other: &TypeBundle)
        requires
            self.wf(),
            other.wf(),
            self@ == other@,
        ensures
            self.seq() == other.seq(),
    {
        lemma_ascending_canonical(self.seq(), other.seq());
    }

    /// The empty bundle.
    pub fn new() -> (bundle: Self)
        ensures
            bundle.wf(),
            bundle.seq() == Seq::<ComponentType>::empty(),
            bundle@ == Set::<ComponentType>::empty(),
    {
        let bundle = TypeBundle { types: Vec::new() };
        assert(bundle@ =~= Set::<ComponentType>::empty());
        bundle
    }

    /// The number of component types.
    pub fn len(&self) -> (n: usize)
        ensures
            n == self.seq().len(),
    {
        self.types.len()
    }

    /// The component type at position `index` of the ascending order.
    pub fn get(&self, index: usize) -> (r: Option<ComponentType>)
        ensures
            r == if index < self.seq().len() {
                Some(self.seq()[index as int])
            } else {
                None
            },
    {
        if index < self.types.len() {
            Some(self.types[index])
        } else {
            None
        }
    }

    /// The component types in ascending order.
    pub fn iter(&self) -> (types: &[ComponentType])
        ensures
            types@ == self.seq(),
            ascending(types@),
    {
        proof {
            use_type_invariant(self);
        }
        self.types.as_slice()
    }

    /// The position at which `type_id` stands, or would have to be inserted.
    fn position(&self, type_id: ComponentType) -> (r: (usize, bool))
        ensures
            r.0 <= self.seq().len(),
            forall|i: int| 0 <= i < r.0 ==> self.seq()[i] < type_id,
            forall|i: int| r.0 <= i < self.seq().len() ==> self.seq()[i] >= type_id,
            r.1 == (r.0 < self.seq().len() && self.seq()[r.0 as int] == type_id),
            r.1 == self@.contains(type_id),
    {
        proof {
            use_type_invariant(self);
        }
        let mut low: usize = 0;
        let mut high: usize = self.types.len();
        while low < high
            invariant
                low <= high <= self.types@.len(),
                ascending(self.types@),
                forall|i: int| 0 <= i < low ==> self.types@[i] < type_id,
                forall|i: int| high <= i < self.types@.len() ==> self.types@[i] >= type_id,
            decreases high - low,
        {
            let mid: usize = low + (high - low) / 2;
            if self.types[mid] < type_id {
                low = mid + 1;
            } else {
                high = mid;
            }
        }
        let found: bool = low < self.types.len() && self.types[low] == type_id;
        proof {
            if found {
                assert(self.seq().contains(type_id));
            } else if self.seq().contains(type_id) {
                let i = choose|i: int| 0 <= i < self.seq().len() && self.seq()[i] == type_id;
                assert(i >= low);
                assert(i > low || self.seq()[low as int] == type_id);
            }
        }
        (low, found)
    }

    /// Whether `type_id` is one of the bundle's types.
    pub fn has(&self, type_id: ComponentType) -> (b: bool)
        ensures
            b == self@.contains(type_id),
    {
        self.position(type_id).1
    }

    /// The bundle with `type_id` added. Adding a type that the bundle holds
    /// gives the bundle itself.
    pub fn add_type(&self, type_id: ComponentType) -> (bundle: Self)
        ensures
            bundle.wf(),
            bundle@ == self@.insert(type_id),
    {
        proof {
            use_type_invariant(self);
        }
        let (at, found) = self.position(type_id);
        if found {
            let bundle = self.clone();
            assert(bundle@ =~= self@.insert(type_id));
            return bundle;
        }
        let mut types: Vec<ComponentType> = Vec::new();
        let mut i: usize = 0;
        while i < at
            invariant
                i <= at <= self.types@.len(),
                types@ == self.types@.subrange(0, i as int),
            decreases at - i,
        {
            types.push(self.types[i]);
            i = i + 1;
            assert(types@ =~= self.types@.subrange(0, i as int));
        }
        types.push(type_id);
        while i < self.types.len()
            invariant
                at <= i <= self.types@.len(),
                types@ == self.types@.subrange(0, at as int).push(type_id) + self.types@.subrange(
                    at as int,
                    i as int,
                ),
            decreases self.types@.len() - i,
        {
            types.push(self.types[i]);
            i = i + 1;
            assert(types@ =~= self.types@.subrange(0, at as int).push(type_id)
                + self.types@.subrange(at as int, i as int));
        }
        proof {
            let before = self.types@;
            let after = types@;
            assert(after.len() == before.len() + 1);
            assert forall|k: int| 0 <= k < after.len() implies after[k] == if k < at {
                before[k]
            } else if k == at {
                type_id
            } else {
                before[k - 1]
            } by {}
            assert(ascending(after));
            assert forall|x: ComponentType| after.to_set().contains(x) == before.to_set().insert(
                type_id,
            ).contains(x) by {
                if after.contains(x) {
                    let k = choose|k: int| 0 <= k < after.len() && after[k] == x;
                    if k < at {
                        assert(before[k] == x);
                        assert(before.contains(x));
                    } else if k > at {
                        assert(before[k - 1] == x);
                        assert(before.contains(x));
                    }
                }
                if before.contains(x) {
                    let k = choose|k: int| 0 <= k < before.len() && before[k] == x;
                    if k < at {
                        assert(after[k] == x);
                    } else {
                        assert(after[k + 1] == x);
                    }
                    assert(after.contains(x));
                }
                if x == type_id {
                    assert(after[at as int] == x);
                    assert(after.contains(x));
                }
            }
            assert(after.to_set() =~= before.to_set().insert(type_id));
        }
        TypeBundle { types }
    }

    /// The bundle with `type_id` removed. Removing a type that the bundle
    /// does not hold gives the bundle itself.
    pub fn remove_type(&self, type_id: ComponentType) -> (bundle: Self)
        ensures
            bundle.wf(),
            bundle@ == self@.remove(type_id),
    {
        proof {
            use_type_invariant(self);
        }
        let (at, found) = self.position(type_id);
        if !found {
            let bundle = self.clone();
            assert(bundle@ =~= self@.remove(type_id));
            return bundle;
        }
        let n: usize = self.types.len();
        let mut types: Vec<ComponentType> = Vec::new();
        let mut i: usize = 0;
        while i < at
            invariant
                i <= at < n,
                n == self.types@.len(),
                types@ == self.types@.subrange(0, i as int),
            decreases at - i,
        {
            types.push(self.types[i]);
            i = i + 1;
            assert(types@ =~= self.types@.subrange(0, i as int));
        }
        i = at + 1;
        while i < n
            invariant
                at < i <= n,
                n == self.types@.len(),
                types@ == self.types@.subrange(0, at as int) + self.types@.subrange(
                    at + 1,
                    i as int,
                ),
            decreases self.types@.len() - i,
        {
            types.push(self.types[i]);
            i = i + 1;
            assert(types@ =~= self.types@.subrange(0, at as int) + self.types@.subrange(
                at + 1,
                i as int,
            ));
        }
        proof {
            let before = self.types@;
            let after = types@;
            assert(after.len() == before.len() - 1);
            assert forall|k: int| 0 <= k < after.len() implies after[k] == if k < at {
                before[k]
            } else {
                before[k + 1]
            } by {}
            assert(ascending(after));
            assert forall|x: ComponentType| after.to_set().contains(x) == before.to_set().remove(
                type_id,
            ).contains(x) by {
                if after.contains(x) {
                    let k = choose|k: int| 0 <= k < after.len() && after[k] == x;
                    if k < at {
                        assert(before[k] == x);
                    } else {
                        assert(before[k + 1] == x);
                    }
                    assert(before.contains(x));
                    assert(x != type_id);
                }
                if before.contains(x) && x != type_id {
                    let k = choose|k: int| 0 <= k < before.len() && before[k] == x;
                    if k < at {
                        assert(after[k] == x);
                    } else {
                        assert(k > at);
                        assert(after[k - 1] == x);
                    }
                    assert(after.contains(x));
                }
            }
            assert(after.to_set() =~= before.to_set().remove(type_id));
        }
        TypeBundle { types }
    }

    /// Whether this bundle holds every type of `bundle`.
    pub fn contains(&self, bundle: &Self) -> (b: bool)
        ensures
            b == bundle@.subset_of(self@),
    {
        let mut k: usize = 0;
        while k < bundle.types.len()
            invariant
                k <= bundle.types@.len(),
                forall|j: int| 0 <= j < k ==> self@.contains(#[trigger] bundle.types@[j]),
            decreases bundle.types@.len() - k,
        {
            if !self.has(bundle.types[k]) {
                proof {
                    let missing = bundle.types@[k as int];
                    assert(bundle.seq().contains(missing));
                    assert(bundle@.contains(missing));
                }
                return false;
            }
            k = k + 1;
        }
        proof {
            assert forall|x: ComponentType| bundle@.contains(x) implies self@.contains(x) by {
                let j = choose|j: int| 0 <= j < bundle.seq().len() && bundle.seq()[j] == x;
                assert(self@.contains(bundle.types@[j]));
            }
        }
        true
    }

    /// The bundle of the types in `types`, each counted once.
    pub fn from_slice(types: &[ComponentType]) -> (bundle: Self)
        ensures
            bundle.wf(),
            bundle@ == types@.to_set(),
    {
        let mut bundle: TypeBundle = TypeBundle::new();
        let mut k: usize = 0;
        while k < types.len()
            invariant
                k <= types@.len(),
                bundle.wf(),
                bundle@ == types@.subrange(0, k as int).to_set(),
            decreases types@.len() - k,
        {
            bundle = bundle.add_type(types[k]);
            proof {
                let shorter = types@.subrange(0, k as int);
                let longer = types@.subrange(0, k + 1);
                assert(longer =~= shorter.push(types@[k as int]));
                assert forall|x: ComponentType| longer.to_set().contains(x)
                    == shorter.to_set().insert(types@[k as int]).contains(x) by {
                    if longer.contains(x) {
                        let i = choose|i: int| 0 <= i < longer.len() && longer[i] == x;
                        if i < k {
                            assert(shorter[i] == x);
                            assert(shorter.contains(x));
                        }
                    }
                    if shorter.contains(x) {
                        let i = choose|i: int| 0 <= i < shorter.len() && shorter[i] == x;
                        assert(longer[i] == x);
                        assert(longer.contains(x));
                    }
                    if x == types@[k as int] {
                        assert(longer[k as int] == x);
                        assert(longer.contains(x));
                    }
                }
                assert(longer.to_set() =~= shorter.to_set().insert(types@[k as int]));
            }
            k = k + 1;
        }
        assert(types@.subrange(0, types@.len() as int) =~= types@);
        bundle
    }
}

impl Clone for TypeBundle {
    fn clone(&self) -> (bundle: Self)
        ensures
            bundle.wf(),
            bundle.seq() == self.seq(),
            bundle@ == self@,
    {
        proof {
            use_type_invariant(self);
        }
        let mut types: Vec<ComponentType> = Vec::new();
        let mut i: usize = 0;
        while i < self.types.len()
            invariant
                i <= self.types@.len(),
                types@ == self.types@.subrange(0, i as int),
            decreases self.types@.len() - i,
        {
            types.push(self.types[i]);
            i = i + 1;
            assert(types@ =~= self.types@.subrange(0, i as int));
        }
        assert(types@ =~= self.types@);
        TypeBundle { types }
    }
}

impl PartialEq for TypeBundle {
    fn eq(&self, other: &TypeBundle) -> (same: bool) {
        proof {
            use_type_invariant(self);
            use_type_invariant(other);
        }
        if self.types.len() != other.types.len() {
            proof {
                if self@ == other@ {
                    lemma_ascending_canonical(self.seq(), other.seq());
                }
            }
            return false;
        }
        let mut i: usize = 0;
        while i < self.types.len()
            invariant
                i <= self.types@.len(),
                self.types@.len() == other.types@.len(),
                ascending(self.types@),
                ascending(other.types@),
                forall|j: int| 0 <= j < i ==> self.types@[j] == other.types@[j],
            decreases self.types@.len() - i,
        {
            if self.types[i] != other.types[i] {
                proof {
                    if self@ == other@ {
                        lemma_ascending_canonical(self.seq(), other.seq());
                    }
                }
                return false;
            }
            i = i + 1;
        }
        assert(self.types@ =~= other.types@);
        true
    }
}

impl Eq for TypeBundle {

}

impl PartialEqSpecImpl for TypeBundle {
    open spec fn obeys_eq_spec() -> bool {
        true
    }

    open spec fn eq_spec(&self, other: &TypeBundle) -> bool {
        self@ == other@
    }
}

impl Default for TypeBundle {
    fn default() -> (bundle: Self)
        ensures
            bundle.wf(),
            bundle@ == Set::<ComponentType>::empty(),
    {
        TypeBundle::new()
    }
}

/// The component types that occur among `boxes`.
pub open spec fn types_of<C>(boxes: Seq<ComponentBox<C>>) -> Set<ComponentType> {
    Set::new(|t: ComponentType| exists|i: int| 0 <= i < boxes.len() && boxes[i].type_id == t)
}

/// No two of `boxes` carry the same component type.
pub open spec fn distinct_types<C>(boxes: Seq<ComponentBox<C>>) -> bool {
    forall|i: int, j: int| 0 <= i < j < boxes.len() ==> boxes[i].type_id != boxes[j].type_id
}

/// `index` is the position of the first of `boxes` that carries `type_id`.
pub open spec fn is_first_of<C>(
    boxes: Seq<ComponentBox<C>>,
    type_id: ComponentType,
    index: int,
) -> bool {
    &&& 0 <= index < boxes.len()
    &&& boxes[index].type_id == type_id
    &&& forall|j: int| 0 <= j < index ==> boxes[j].type_id != type_id
}

/// The components of `boxes` by their type; of two boxes of one type the
/// earlier one counts.
pub open spec fn components_by_type<C>(boxes: Seq<ComponentBox<C>>) -> Map<ComponentType, C> {
    Map::new(
        |t: ComponentType| types_of(boxes).contains(t),
        |t: ComponentType| boxes[choose|i: int| is_first_of(boxes, t, i)].component,
    )
}

/// Among distinct boxes, the component found under a type is that of the
/// one box that carries the type.
pub proof fn lemma_component_of_distinct<C>(boxes: Seq<ComponentBox<C>>, index: int)
    requires
        distinct_types(boxes),
        0 <= index < boxes.len(),
    ensures
        types_of(boxes).contains(boxes[index].type_id),
        components_by_type(boxes)[boxes[index].type_id] == boxes[index].component,
{
    let t = boxes[index].type_id;
    assert(is_first_of(boxes, t, index));
    let chosen = choose|i: int| is_first_of(boxes, t, i);
    assert(chosen == index);
}

/// The boxed components of one entity.
pub struct ComponentBundle<C> {
    components: Vec<ComponentBox<C>>,
}

impl<C> View for ComponentBundle<C> {
    type V = Seq<ComponentBox<C>>;

    /// The boxes in the order in which the bundle keeps them.
    closed spec fn view(&self) -> Seq<ComponentBox<C>> {
        self.components@
    }
}

impl<C> ComponentBundle<C> {
    /// The empty bundle.
    pub fn new() -> (bundle: Self)
        ensures
            bundle@ == Seq::<ComponentBox<C>>::empty(),
    {
        ComponentBundle { components: Vec::new() }
    }

    /// The number of boxes.
    pub fn len(&self) -> (n: usize)
        ensures
            n == self@.len(),
    {
        self.components.len()
    }

    /// The bundle with the typed value `comp` added as its last box.
    pub fn insert<T: Component<C>>(self, comp: T) -> (bundle: Self)
        ensures
            bundle@.len() == self@.len() + 1,
            bundle@.drop_last() == self@,
            call_ensures(T::component_type, (), bundle@.last().type_id),
            call_ensures(T::into_payload, (comp,), bundle@.last().component),
    {
        let mut bundle = self;
        bundle.components.push(ComponentBox::new(comp));
        assert(bundle@.drop_last() =~= self@);
        bundle
    }

    /// Adds `comp` as the last box.
    pub fn insert_box(&mut self, comp: ComponentBox<C>)
        ensures
            final(self)@ == old(self)@.push(comp),
    {
        self.components.push(comp);
    }

    /// Takes the first box that carries `type_id` out of the bundle; the last
    /// box moves into the gap. Fails with `TypeNotFound`, leaving the bundle
    /// as it was, where no box carries the type.
    pub fn remove(&mut self, type_id: ComponentType) -> (r: Result<ComponentBox<C>, StoreError>)
        ensures
            match r {
                Ok(taken) => exists|index: int|
                    {
                        &&& #[trigger] is_first_of(old(self)@, type_id, index)
                        &&& taken == old(self)@[index]
                        &&& final(self)@ == ComponentStore::<ComponentBox<C>>::without_row(
                            old(self)@,
                            index,
                        )
                    },
                Err(e) => {
                    &&& e == StoreError::TypeNotFound
                    &&& !types_of(old(self)@).contains(type_id)
                    &&& final(self)@ == old(self)@
                },
            },
    {
        let mut idx: usize = 0;
        while idx < self.components.len()
            invariant
                idx <= self.components@.len(),
                *self == *old(self),
                forall|j: int| 0 <= j < idx ==> self.components@[j].type_id != type_id,
            decreases self.components@.len() - idx,
        {
            if self.components[idx].inner_type_id() == type_id {
                assert(is_first_of(old(self)@, type_id, idx as int));
                let moved: ComponentBox<C> = self.components.swap_remove(idx);
                return Ok(moved);
            }
            idx = idx + 1;
        }
        Err(StoreError::TypeNotFound)
    }

    /// Whether two boxes of the bundle carry the same component type.
    pub fn has_duplicates(&self) -> (b: bool)
        ensures
            b == !distinct_types(self@),
    {
        let mut j: usize = 0;
        while j < self.components.len()
            invariant
                j <= self.components@.len(),
                forall|a: int, b: int|
                    0 <= a < b < j ==> self.components@[a].type_id != self.components@[b].type_id,
            decreases self.components@.len() - j,
        {
            let type_id: ComponentType = self.components[j].inner_type_id();
            let mut i: usize = 0;
            while i < j
                invariant
                    i <= j < self.components@.len(),
                    type_id == self.components@[j as int].type_id,
                    forall|a: int| 0 <= a < i ==> self.components@[a].type_id != type_id,
                decreases j - i,
            {
                if self.components[i].inner_type_id() == type_id {
                    return true;
                }
                i = i + 1;
            }
            j = j + 1;
        }
        false
    }

    /// The set of the component types that the boxes carry.
    pub fn types(&self) -> (bundle: TypeBundle)
        ensures
            bundle.wf(),
            bundle@ == types_of(self@),
    {
        let mut bundle: TypeBundle = TypeBundle::new();
        let mut k: usize = 0;
        while k < self.components.len()
            invariant
                k <= self.components@.len(),
                bundle.wf(),
                bundle@ == types_of(self.components@.subrange(0, k as int)),
            decreases self.components@.len() - k,
        {
            let type_id: ComponentType = self.components[k].inner_type_id();
            bundle = bundle.add_type(type_id);
            proof {
                let shorter = self.components@.subrange(0, k as int);
                let longer = self.components@.subrange(0, k + 1);
                assert forall|t: ComponentType| types_of(longer).contains(t) == types_of(
                    shorter,
                ).insert(type_id).contains(t) by {
                    if types_of(longer).contains(t) {
                        let i = choose|i: int| 0 <= i < longer.len() && longer[i].type_id == t;
                        if i < k {
                            assert(shorter[i].type_id == t);
                        }
                    }
                    if types_of(shorter).contains(t) {
                        let i = choose|i: int| 0 <= i < shorter.len() && shorter[i].type_id == t;
                        assert(longer[i].type_id == t);
                    }
                    if t == type_id {
                        assert(longer[k as int].type_id == t);
                    }
                }
                assert(types_of(longer) =~= types_of(shorter).insert(type_id));
            }
            k = k + 1;
        }
        assert(self.components@.subrange(0, self.components@.len() as int) =~= self.components@);
        bundle
    }

    /// Gives up the bundle for its boxes, in the order in which it kept them.
    pub fn component_iter(self) -> (boxes: Vec<ComponentBox<C>>)
        ensures
            boxes@ == self@,
    {
        self.components
    }
}

impl<C> Default for ComponentBundle<C> {
    fn default() -> (bundle: Self)
        ensures
            bundle@ == Seq::<ComponentBox<C>>::empty(),
    {
        ComponentBundle::new()
    }
}

} // verus!
