//! Queries: the row shape that a system declares and the plan made of it.
//!
//! A system names the component types it wants to see of every entity,
//! each for reading or for writing. A plan exists only for a row shape
//! that names no component type twice, so that no component is read and
//! written, or written twice, through one row.

use vstd::prelude::*;
use crate::bundle::TypeBundle;
use crate::component::ComponentType;
use crate::errors::EcsError;

verus! {

/// What a system does with one field of its row.
#[derive(Debug, Clone, Copy, PartialEq, Eq, Structural)]
pub enum Access {
    Read,
    Write,
}

/// One field of a row shape.
#[derive(Debug, Clone, Copy, PartialEq, Eq, Structural)]
pub struct QueryField {
    pub component: ComponentType,
    pub access: Access,
}

/// A row shape known at compile time: the implementing type declares the
/// fields of the rows that its systems are run over.
pub trait QueryModel {
    /// The fields of the row, in the order in which the row presents them.
    fn get_fields() -> Vec<QueryField>;
}

/// The component types of `fields`, in their order.
pub open spec fn components_of(fields: Seq<QueryField>) -> Seq<ComponentType> {
    Seq::new(fields.len(), |i: int| fields[i].component)
}

/// The component types of those of `fields` that have the access `access`,
/// in their order.
pub open spec fn components_with(fields: Seq<QueryField>, access: Access) -> Seq<ComponentType>
    decreases fields.len(),
{
    if fields.len() == 0 {
        Seq::empty()
    } else if fields.last().access == access {
        components_with(fields.drop_last(), access).push(fields.last().component)
    } else {
        components_with(fields.drop_last(), access)
    }
}

/// No two of `fields` name the same component type.
pub open spec fn distinct_components(fields: Seq<QueryField>) -> bool {
    forall|i: int, j: int| 0 <= i < j < fields.len() ==> fields[i].component != fields[j].component
}

/// Every component type among the fields of one access is the component
/// type of a field, and where the fields are distinct, so are they.
pub proof fn lemma_components_with(fields: Seq<QueryField>, access: Access)
    ensures
        components_with(fields, access).len() <= fields.len(),
        forall|j: int|
            0 <= j < components_with(fields, access).len() ==> exists|i: int|
                0 <= i < fields.len() && fields[i].access == access && fields[i].component
                    == #[trigger] components_with(fields, access)[j],
        distinct_components(fields) ==> components_with(fields, access).no_duplicates(),
        forall|i: int|
            0 <= i < fields.len() && fields[i].access == access ==> components_with(
                fields,
                access,
            ).contains(#[trigger] fields[i].component),
    decreases fields.len(),
{
    if fields.len() > 0 {
        let shorter = fields.drop_last();
        let rest = components_with(shorter, access);
        let all = components_with(fields, access);
        lemma_components_with(shorter, access);
        assert forall|j: int| 0 <= j < all.len() implies exists|i: int|
            0 <= i < fields.len() && fields[i].access == access && fields[i].component
                == #[trigger] all[j] by {
            if j < rest.len() {
                let i = choose|i: int|
                    0 <= i < shorter.len() && shorter[i].access == access && shorter[i].component
                        == rest[j];
                assert(fields[i] == shorter[i]);
            } else {
                assert(fields[fields.len() - 1].component == all[j]);
            }
        }
        if distinct_components(fields) {
            assert(distinct_components(shorter)) by {
                assert forall|i: int, j: int| 0 <= i < j < shorter.len() implies shorter[i].component
                    != shorter[j].component by {
                    assert(fields[i].component != fields[j].component);
                }
            }
            assert forall|a: int, b: int| 0 <= a < all.len() && 0 <= b < all.len() && a
                != b implies all[a] != all[b] by {
                if a < rest.len() && b < rest.len() {
                    assert(rest[a] != rest[b]);
                } else {
                    let inner = if a < rest.len() {
                        a
                    } else {
                        b
                    };
                    let i = choose|i: int|
                        0 <= i < shorter.len() && shorter[i].access == access
                            && shorter[i].component == rest[inner];
                    assert(fields[i].component != fields[fields.len() - 1].component);
                }
            }
        }
        assert forall|i: int| 0 <= i < fields.len() && fields[i].access == access implies all.contains(
            #[trigger] fields[i].component,
        ) by {
            if i < shorter.len() {
                assert(shorter[i] == fields[i]);
                assert(rest.contains(shorter[i].component));
                let j = choose|j: int| 0 <= j < rest.len() && rest[j] == shorter[i].component;
                assert(all[j] == fields[i].component);
            } else {
                assert(all[all.len() - 1] == fields[i].component);
            }
        }
    }
}

/// The plan of a query: its fields, the component types it reads and those
/// it writes, and the set of all of them, by which archetypes are matched.
pub struct QueryPlan {
    fields: Vec<QueryField>,
    reads: Vec<ComponentType>,
    writes: Vec<ComponentType>,
    types: TypeBundle,
}

impl QueryPlan {
    /// The fields, in declared order.
    pub closed spec fn fields(&self) -> Seq<QueryField> {
        self.fields@
    }

    /// The component types to read, in declared order.
    pub closed spec fn reads(&self) -> Seq<ComponentType> {
        self.reads@
    }

    /// The component types to write, in declared order.
    pub closed spec fn writes(&self) -> Seq<ComponentType> {
        self.writes@
    }

    /// The set of all component types of the query.
    pub closed spec fn type_set(&self) -> Set<ComponentType> {
        self.types@
    }

    /// The plan agrees with its fields, and no two fields name the same
    /// component type.
    #[verifier::type_invariant]
    pub closed spec fn wf(&self) -> bool {
        &&& self.types.wf()
        &&& distinct_components(self.fields@)
        &&& self.reads@ == components_with(self.fields@, Access::Read)
        &&& self.writes@ == components_with(self.fields@, Access::Write)
        &&& self.types@ == components_of(self.fields@).to_set()
    }

    /// What a well-formed plan says of itself.
    pub proof fn lemma_wf(&self)
        requires
            self.wf(),
        ensures
            distinct_components(self.fields()),
            self.reads() == components_with(self.fields(), Access::Read),
            self.writes() == components_with(self.fields(), Access::Write),
            self.type_set() == components_of(self.fields()).to_set(),
            self.writes().no_duplicates(),
            forall|j: int|
                0 <= j < self.writes().len() ==> self.type_set().contains(#[trigger] self.writes()[j]),
            forall|i: int|
                0 <= i < self.fields().len() ==> self.type_set().contains(
                    #[trigger] self.fields()[i].component,
                ),
    {
        lemma_components_with(self.fields@, Access::Write);
        assert forall|i: int| 0 <= i < self.fields().len() implies self.type_set().contains(
            #[trigger] self.fields()[i].component,
        ) by {
            assert(components_of(self.fields@)[i] == self.fields@[i].component);
            assert(components_of(self.fields@).contains(self.fields@[i].component));
        }
        assert forall|j: int| 0 <= j < self.writes().len() implies self.type_set().contains(
            #[trigger] self.writes()[j],
        ) by {
            let i = choose|i: int|
                0 <= i < self.fields@.len() && self.fields@[i].access == Access::Write
                    && self.fields@[i].component == self.writes@[j];
            assert(self.type_set().contains(self.fields()[i].component));
        }
    }

    /// The plan of the row shape `fields`. Fails with
    /// `QueryAliasingViolation` where two fields name the same component
    /// type, be it for reading or for writing.
    pub fn build(fields: Vec<QueryField>) -> (r: Result<QueryPlan, EcsError>)
        ensures
            match r {
                Ok(plan) => {
                    &&& distinct_components(fields@)
                    &&& plan.wf()
                    &&& plan.fields() == fields@
                    &&& plan.reads() == components_with(fields@, Access::Read)
                    &&& plan.writes() == components_with(fields@, Access::Write)
                    &&& plan.type_set() == components_of(fields@).to_set()
                },
                Err(e) => e == EcsError::QueryAliasingViolation && !distinct_components(fields@),
            },
    {
        let mut reads: Vec<ComponentType> = Vec::new();
        let mut writes: Vec<ComponentType> = Vec::new();
        let mut types: TypeBundle = TypeBundle::new();
        let mut k: usize = 0;
        while k < fields.len()
            invariant
                k <= fields@.len(),
                types.wf(),
                distinct_components(fields@.subrange(0, k as int)),
                reads@ == components_with(fields@.subrange(0, k as int), Access::Read),
                writes@ == components_with(fields@.subrange(0, k as int), Access::Write),
                types@ == components_of(fields@.subrange(0, k as int)).to_set(),
            decreases fields@.len() - k,
        {
            let field: QueryField = fields[k];
            let ghost shorter = fields@.subrange(0, k as int);
            let ghost longer = fields@.subrange(0, k + 1);
            proof {
                assert(longer.drop_last() =~= shorter);
                assert(longer.last() == field);
            }
            if types.has(field.component) {
                proof {
                    let j = choose|j: int|
                        0 <= j < components_of(shorter).len() && components_of(shorter)[j]
                            == field.component;
                    assert(fields@[j].component == fields@[k as int].component);
                }
                return Err(EcsError::QueryAliasingViolation);
            }
            types = types.add_type(field.component);
            match field.access {
                Access::Read => {
                    reads.push(field.component);
                },
                Access::Write => {
                    writes.push(field.component);
                },
            }
            proof {
                assert forall|i: int, j: int| 0 <= i < j < longer.len() implies longer[i].component
                    != longer[j].component by {
                    if j < k {
                        assert(shorter[i].component != shorter[j].component);
                    } else {
                        assert(components_of(shorter)[i] == longer[i].component);
                        assert(components_of(shorter).contains(longer[i].component));
                    }
                }
                assert forall|t: ComponentType| components_of(longer).to_set().contains(t)
                    == components_of(shorter).to_set().insert(field.component).contains(t) by {
                    if components_of(longer).contains(t) {
                        let i = choose|i: int|
                            0 <= i < components_of(longer).len() && components_of(longer)[i] == t;
                        if i < k {
                            assert(components_of(shorter)[i] == t);
                            assert(components_of(shorter).contains(t));
                        }
                    }
                    if components_of(shorter).contains(t) {
                        let i = choose|i: int|
                            0 <= i < components_of(shorter).len() && components_of(shorter)[i] == t;
                        assert(components_of(longer)[i] == t);
                        assert(components_of(longer).contains(t));
                    }
                    if t == field.component {
                        assert(components_of(longer)[k as int] == t);
                        assert(components_of(longer).contains(t));
                    }
                }
                assert(components_of(longer).to_set() =~= components_of(shorter).to_set().insert(
                    field.component,
                ));
            }
            k = k + 1;
        }
        assert(fields@.subrange(0, fields@.len() as int) =~= fields@);
        Ok(QueryPlan { fields, reads, writes, types })
    }

    /// The fields, in declared order.
    pub fn get_fields(&self) -> (fields: &Vec<QueryField>)
        ensures
            fields@ == self.fields(),
    {
        &self.fields
    }

    /// The component types to read, in declared order.
    pub fn get_reads(&self) -> (reads: &Vec<ComponentType>)
        ensures
            reads@ == self.reads(),
    {
        &self.reads
    }

    /// The component types to write, in declared order.
    pub fn get_writes(&self) -> (writes: &Vec<ComponentType>)
        ensures
            writes@ == self.writes(),
    {
        &self.writes
    }

    /// The set of all component types of the query.
    pub fn get_types(&self) -> (types: &TypeBundle)
        ensures
            types@ == self.type_set(),
            types.wf(),
    {
        proof {
            use_type_invariant(self);
        }
        &self.types
    }
}

} // verus!
