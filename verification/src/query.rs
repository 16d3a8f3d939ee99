//! Queries: which entities hold every component type of a request. Each
//! requested type contributes one presence column, and the columns are
//! walked in lockstep.

use vstd::prelude::*;
use crate::entity::EntityId;
use crate::flat::Ecs;
use crate::layout::ComponentType;

verus! {

/// Read access to the components of one type.
pub struct Imm {
    pub component_type: ComponentType,
}

/// Write access to the components of one type.
pub struct Mut {
    pub component_type: ComponentType,
}

/// Entity `id` holds a component of every type in `types`.
pub open spec fn has_all<C>(ecs: Ecs<C>, types: Seq<ComponentType>, id: EntityId) -> bool {
    forall|i: int| 0 <= i < types.len() ==> ecs.slot(#[trigger] types[i], id).is_some()
}

/// `rows` tells for every identifier issued so far whether its entity holds
/// every type in `types`.
pub open spec fn is_presence<C>(rows: Seq<bool>, ecs: Ecs<C>, types: Seq<ComponentType>) -> bool {
    &&& rows.len() == ecs.ids().next_id
    &&& forall|id: int| 0 <= id < rows.len() ==> #[trigger] rows[id] == has_all(ecs, types, id as EntityId)
}

/// Pairs the elements of two lists position by position, up to the end of
/// the shorter one. The pairing is done by `itertools::multizip`, whose
/// iterator yields tuples of the elements of its sub-iterators until one of
/// them is exhausted; the contract states that behaviour and is not proved
/// here.
#[verifier::external_body]
fn zip_pairs<A, B>(left: Vec<A>, right: Vec<B>) -> (pairs: Vec<(A, B)>)
    ensures
        pairs@.len() == if left@.len() <= right@.len() {
            left@.len()
        } else {
            right@.len()
        },
        forall|i: int| 0 <= i < pairs@.len() ==> #[trigger] pairs@[i] == (left@[i], right@[i]),
{
    itertools::multizip((left, right)).collect()
}

/// Walks two presence columns in lockstep: an entity is present in the
/// result where it is present in both.
pub fn zip_presence(left: Vec<bool>, right: Vec<bool>) -> (both: Vec<bool>)
    ensures
        both@.len() == if left@.len() <= right@.len() {
            left@.len()
        } else {
            right@.len()
        },
        forall|i: int| 0 <= i < both@.len() ==> #[trigger] both@[i] == (left@[i] && right@[i]),
{
    let pairs = zip_pairs(left, right);
    let mut both: Vec<bool> = Vec::new();
    let mut i: usize = 0;
    while i < pairs.len()
        invariant
            i <= pairs@.len(),
            both@.len() == i,
            forall|k: int| 0 <= k < i ==> #[trigger] both@[k] == (pairs@[k].0 && pairs@[k].1),
        decreases pairs@.len() - i,
    {
        let pair = pairs[i];
        both.push(pair.0 && pair.1);
        i += 1;
    }
    both
}

/// The presence column of one component type.
pub fn type_presence<C>(ecs: &Ecs<C>, component_type: ComponentType) -> (rows: Vec<bool>)
    requires
        ecs.wf(),
    ensures
        is_presence(rows@, *ecs, seq![component_type]),
{
    let mut rows: Vec<bool> = Vec::new();
    let bound = ecs.next_entity_id();
    let mut id: usize = 0;
    while id < bound
        invariant
            ecs.wf(),
            bound == ecs.ids().next_id,
            id <= bound,
            rows@.len() == id,
            forall|k: int|
                0 <= k < id ==> #[trigger] rows@[k] == ecs.slot(
                    component_type,
                    k as EntityId,
                ).is_some(),
        decreases bound - id,
    {
        rows.push(ecs.component(component_type, id).is_some());
        id += 1;
    }
    proof {
        let types = seq![component_type];
        assert forall|k: int| 0 <= k < rows@.len() implies #[trigger] rows@[k] == has_all(
            *ecs,
            types,
            k as EntityId,
        ) by {
            assert(types[0] == component_type);
        }
    }
    rows
}

/// Holding all of `left + right` is holding all of `left` and all of `right`.
pub proof fn lemma_has_all_concat<C>(
    ecs: Ecs<C>,
    left: Seq<ComponentType>,
    right: Seq<ComponentType>,
    id: EntityId,
)
    ensures
        has_all(ecs, left + right, id) == (has_all(ecs, left, id) && has_all(ecs, right, id)),
{
    let both = left + right;
    if has_all(ecs, both, id) {
        assert forall|i: int| 0 <= i < left.len() implies ecs.slot(
            #[trigger] left[i],
            id,
        ).is_some() by {
            assert(both[i] == left[i]);
        }
        assert forall|i: int| 0 <= i < right.len() implies ecs.slot(
            #[trigger] right[i],
            id,
        ).is_some() by {
            assert(both[left.len() + i] == right[i]);
        }
    }
    if has_all(ecs, left, id) && has_all(ecs, right, id) {
        assert forall|i: int| 0 <= i < both.len() implies ecs.slot(
            #[trigger] both[i],
            id,
        ).is_some() by {
            if i < left.len() {
                assert(both[i] == left[i]);
            } else {
                assert(both[i] == right[i - left.len()]);
            }
        }
    }
}

/// A request for the components of some types, each for reading or writing.
pub trait Queryable {
    /// The requested component types, in the order of the request.
    spec fn types(&self) -> Seq<ComponentType>;

    /// The requested component types, in the order of the request.
    fn component_types(&self) -> (types: Vec<ComponentType>)
        ensures
            types@ == self.types(),
    ;

    /// The component types that are requested for writing, in the order of
    /// the request.
    spec fn writes(&self) -> Seq<ComponentType>;

    /// The component types that are requested for writing, in the order of
    /// the request.
    fn write_types(&self) -> (types: Vec<ComponentType>)
        ensures
            types@ == self.writes(),
    ;

    /// For every identifier issued so far, whether its entity holds every
    /// requested type.
    fn presence<C>(&self, ecs: &Ecs<C>) -> (rows: Vec<bool>)
        requires
            ecs.wf(),
        ensures
            is_presence(rows@, *ecs, self.types()),
    ;
}

impl Queryable for Imm {
    open spec fn types(&self) -> Seq<ComponentType> {
        seq![self.component_type]
    }

    open spec fn writes(&self) -> Seq<ComponentType> {
        Seq::empty()
    }

    fn write_types(&self) -> (types: Vec<ComponentType>) {
        Vec::new()
    }

    fn component_types(&self) -> (types: Vec<ComponentType>) {
        let mut types: Vec<ComponentType> = Vec::new();
        types.push(self.component_type);
        assert(types@ =~= seq![self.component_type]);
        types
    }

    fn presence<C>(&self, ecs: &Ecs<C>) -> (rows: Vec<bool>) {
        type_presence(ecs, self.component_type)
    }
}

impl Queryable for Mut {
    open spec fn types(&self) -> Seq<ComponentType> {
        seq![self.component_type]
    }

    open spec fn writes(&self) -> Seq<ComponentType> {
        seq![self.component_type]
    }

    fn write_types(&self) -> (types: Vec<ComponentType>) {
        let mut types: Vec<ComponentType> = Vec::new();
        types.push(self.component_type);
        assert(types@ =~= seq![self.component_type]);
        types
    }

    fn component_types(&self) -> (types: Vec<ComponentType>) {
        let mut types: Vec<ComponentType> = Vec::new();
        types.push(self.component_type);
        assert(types@ =~= seq![self.component_type]);
        types
    }

    fn presence<C>(&self, ecs: &Ecs<C>) -> (rows: Vec<bool>) {
        type_presence(ecs, self.component_type)
    }
}

impl<A: Queryable> Queryable for (A,) {
    open spec fn types(&self) -> Seq<ComponentType> {
        self.0.types()
    }

    open spec fn writes(&self) -> Seq<ComponentType> {
        self.0.writes()
    }

    fn write_types(&self) -> (types: Vec<ComponentType>) {
        self.0.write_types()
    }

    fn component_types(&self) -> (types: Vec<ComponentType>) {
        self.0.component_types()
    }

    fn presence<C>(&self, ecs: &Ecs<C>) -> (rows: Vec<bool>) {
        self.0.presence(ecs)
    }
}

/// Walks the presence columns of two requests in lockstep, which gives the
/// presence column of the two requests taken together.
fn both_present<C>(
    ecs: &Ecs<C>,
    left: Vec<bool>,
    right: Vec<bool>,
    left_types: Ghost<Seq<ComponentType>>,
    right_types: Ghost<Seq<ComponentType>>,
) -> (rows: Vec<bool>)
    requires
        is_presence(left@, *ecs, left_types@),
        is_presence(right@, *ecs, right_types@),
    ensures
        is_presence(rows@, *ecs, left_types@ + right_types@),
{
    let rows = zip_presence(left, right);
    proof {
        assert forall|id: int| 0 <= id < rows@.len() implies #[trigger] rows@[id] == has_all(
            *ecs,
            left_types@ + right_types@,
            id as EntityId,
        ) by {
            lemma_has_all_concat(*ecs, left_types@, right_types@, id as EntityId);
        }
    }
    rows
}

impl<A: Queryable, B: Queryable> Queryable for (A, B) {
    open spec fn types(&self) -> Seq<ComponentType> {
        self.0.types() + self.1.types()
    }

    fn component_types(&self) -> (types: Vec<ComponentType>) {
        let mut types = self.0.component_types();
        let mut more = self.1.component_types();
        types.append(&mut more);
        types
    }

    open spec fn writes(&self) -> Seq<ComponentType> {
        self.0.writes() + self.1.writes()
    }

    fn write_types(&self) -> (types: Vec<ComponentType>) {
        let mut types = self.0.write_types();
        let mut more = self.1.write_types();
        types.append(&mut more);
        types
    }

    fn presence<C>(&self, ecs: &Ecs<C>) -> (rows: Vec<bool>) {
        let rows = self.0.presence(ecs);
        let rows = both_present(ecs, rows, self.1.presence(ecs), Ghost(self.0.types()), Ghost(self.1.types()));
        rows
    }
}

impl<A: Queryable, B: Queryable, D: Queryable> Queryable for (A, B, D) {
    open spec fn types(&self) -> Seq<ComponentType> {
        self.0.types() + self.1.types() + self.2.types()
    }

    fn component_types(&self) -> (types: Vec<ComponentType>) {
        let mut types = self.0.component_types();
        let mut more = self.1.component_types();
        types.append(&mut more);
        let mut more = self.2.component_types();
        types.append(&mut more);
        types
    }

    open spec fn writes(&self) -> Seq<ComponentType> {
        self.0.writes() + self.1.writes() + self.2.writes()
    }

    fn write_types(&self) -> (types: Vec<ComponentType>) {
        let mut types = self.0.write_types();
        let mut more = self.1.write_types();
        types.append(&mut more);
        let mut more = self.2.write_types();
        types.append(&mut more);
        types
    }

    fn presence<C>(&self, ecs: &Ecs<C>) -> (rows: Vec<bool>) {
        let rows = self.0.presence(ecs);
        let rows = both_present(ecs, rows, self.1.presence(ecs), Ghost(self.0.types()), Ghost(self.1.types()));
        let rows = both_present(ecs, rows, self.2.presence(ecs), Ghost(self.0.types() + self.1.types()), Ghost(self.2.types()));
        rows
    }
}

impl<A: Queryable, B: Queryable, D: Queryable, E: Queryable> Queryable for (A, B, D, E) {
    open spec fn types(&self) -> Seq<ComponentType> {
        self.0.types() + self.1.types() + self.2.types() + self.3.types()
    }

    fn component_types(&self) -> (types: Vec<ComponentType>) {
        let mut types = self.0.component_types();
        let mut more = self.1.component_types();
        types.append(&mut more);
        let mut more = self.2.component_types();
        types.append(&mut more);
        let mut more = self.3.component_types();
        types.append(&mut more);
        types
    }

    open spec fn writes(&self) -> Seq<ComponentType> {
        self.0.writes() + self.1.writes() + self.2.writes() + self.3.writes()
    }

    fn write_types(&self) -> (types: Vec<ComponentType>) {
        let mut types = self.0.write_types();
        let mut more = self.1.write_types();
        types.append(&mut more);
        let mut more = self.2.write_types();
        types.append(&mut more);
        let mut more = self.3.write_types();
        types.append(&mut more);
        types
    }

    fn presence<C>(&self, ecs: &Ecs<C>) -> (rows: Vec<bool>) {
        let rows = self.0.presence(ecs);
        let rows = both_present(ecs, rows, self.1.presence(ecs), Ghost(self.0.types()), Ghost(self.1.types()));
        let rows = both_present(ecs, rows, self.2.presence(ecs), Ghost(self.0.types() + self.1.types()), Ghost(self.2.types()));
        let rows = both_present(ecs, rows, self.3.presence(ecs), Ghost(self.0.types() + self.1.types() + self.2.types()), Ghost(self.3.types()));
        rows
    }
}

impl<A: Queryable, B: Queryable, D: Queryable, E: Queryable, F: Queryable> Queryable for (A, B, D, E, F) {
    open spec fn types(&self) -> Seq<ComponentType> {
        self.0.types() + self.1.types() + self.2.types() + self.3.types() + self.4.types()
    }

    fn component_types(&self) -> (types: Vec<ComponentType>) {
        let mut types = self.0.component_types();
        let mut more = self.1.component_types();
        types.append(&mut more);
        let mut more = self.2.component_types();
        types.append(&mut more);
        let mut more = self.3.component_types();
        types.append(&mut more);
        let mut more = self.4.component_types();
        types.append(&mut more);
        types
    }

    open spec fn writes(&self) -> Seq<ComponentType> {
        self.0.writes() + self.1.writes() + self.2.writes() + self.3.writes() + self.4.writes()
    }

    fn write_types(&self) -> (types: Vec<ComponentType>) {
        let mut types = self.0.write_types();
        let mut more = self.1.write_types();
        types.append(&mut more);
        let mut more = self.2.write_types();
        types.append(&mut more);
        let mut more = self.3.write_types();
        types.append(&mut more);
        let mut more = self.4.write_types();
        types.append(&mut more);
        types
    }

    fn presence<C>(&self, ecs: &Ecs<C>) -> (rows: Vec<bool>) {
        let rows = self.0.presence(ecs);
        let rows = both_present(ecs, rows, self.1.presence(ecs), Ghost(self.0.types()), Ghost(self.1.types()));
        let rows = both_present(ecs, rows, self.2.presence(ecs), Ghost(self.0.types() + self.1.types()), Ghost(self.2.types()));
        let rows = both_present(ecs, rows, self.3.presence(ecs), Ghost(self.0.types() + self.1.types() + self.2.types()), Ghost(self.3.types()));
        let rows = both_present(ecs, rows, self.4.presence(ecs), Ghost(self.0.types() + self.1.types() + self.2.types() + self.3.types()), Ghost(self.4.types()));
        rows
    }
}

impl<A: Queryable, B: Queryable, D: Queryable, E: Queryable, F: Queryable, G: Queryable> Queryable for (A, B, D, E, F, G) {
    open spec fn types(&self) -> Seq<ComponentType> {
        self.0.types() + self.1.types() + self.2.types() + self.3.types() + self.4.types() + self.5.types()
    }

    fn component_types(&self) -> (types: Vec<ComponentType>) {
        let mut types = self.0.component_types();
        let mut more = self.1.component_types();
        types.append(&mut more);
        let mut more = self.2.component_types();
        types.append(&mut more);
        let mut more = self.3.component_types();
        types.append(&mut more);
        let mut more = self.4.component_types();
        types.append(&mut more);
        let mut more = self.5.component_types();
        types.append(&mut more);
        types
    }

    open spec fn writes(&self) -> Seq<ComponentType> {
        self.0.writes() + self.1.writes() + self.2.writes() + self.3.writes() + self.4.writes() + self.5.writes()
    }

    fn write_types(&self) -> (types: Vec<ComponentType>) {
        let mut types = self.0.write_types();
        let mut more = self.1.write_types();
        types.append(&mut more);
        let mut more = self.2.write_types();
        types.append(&mut more);
        let mut more = self.3.write_types();
        types.append(&mut more);
        let mut more = self.4.write_types();
        types.append(&mut more);
        let mut more = self.5.write_types();
        types.append(&mut more);
        types
    }

    fn presence<C>(&self, ecs: &Ecs<C>) -> (rows: Vec<bool>) {
        let rows = self.0.presence(ecs);
        let rows = both_present(ecs, rows, self.1.presence(ecs), Ghost(self.0.types()), Ghost(self.1.types()));
        let rows = both_present(ecs, rows, self.2.presence(ecs), Ghost(self.0.types() + self.1.types()), Ghost(self.2.types()));
        let rows = both_present(ecs, rows, self.3.presence(ecs), Ghost(self.0.types() + self.1.types() + self.2.types()), Ghost(self.3.types()));
        let rows = both_present(ecs, rows, self.4.presence(ecs), Ghost(self.0.types() + self.1.types() + self.2.types() + self.3.types()), Ghost(self.4.types()));
        let rows = both_present(ecs, rows, self.5.presence(ecs), Ghost(self.0.types() + self.1.types() + self.2.types() + self.3.types() + self.4.types()), Ghost(self.5.types()));
        rows
    }
}

impl<A: Queryable, B: Queryable, D: Queryable, E: Queryable, F: Queryable, G: Queryable, H: Queryable> Queryable for (A, B, D, E, F, G, H) {
    open spec fn types(&self) -> Seq<ComponentType> {
        self.0.types() + self.1.types() + self.2.types() + self.3.types() + self.4.types() + self.5.types() + self.6.types()
    }

    fn component_types(&self) -> (types: Vec<ComponentType>) {
        let mut types = self.0.component_types();
        let mut more = self.1.component_types();
        types.append(&mut more);
        let mut more = self.2.component_types();
        types.append(&mut more);
        let mut more = self.3.component_types();
        types.append(&mut more);
        let mut more = self.4.component_types();
        types.append(&mut more);
        let mut more = self.5.component_types();
        types.append(&mut more);
        let mut more = self.6.component_types();
        types.append(&mut more);
        types
    }

    open spec fn writes(&self) -> Seq<ComponentType> {
        self.0.writes() + self.1.writes() + self.2.writes() + self.3.writes() + self.4.writes() + self.5.writes() + self.6.writes()
    }

    fn write_types(&self) -> (types: Vec<ComponentType>) {
        let mut types = self.0.write_types();
        let mut more = self.1.write_types();
        types.append(&mut more);
        let mut more = self.2.write_types();
        types.append(&mut more);
        let mut more = self.3.write_types();
        types.append(&mut more);
        let mut more = self.4.write_types();
        types.append(&mut more);
        let mut more = self.5.write_types();
        types.append(&mut more);
        let mut more = self.6.write_types();
        types.append(&mut more);
        types
    }

    fn presence<C>(&self, ecs: &Ecs<C>) -> (rows: Vec<bool>) {
        let rows = self.0.presence(ecs);
        let rows = both_present(ecs, rows, self.1.presence(ecs), Ghost(self.0.types()), Ghost(self.1.types()));
        let rows = both_present(ecs, rows, self.2.presence(ecs), Ghost(self.0.types() + self.1.types()), Ghost(self.2.types()));
        let rows = both_present(ecs, rows, self.3.presence(ecs), Ghost(self.0.types() + self.1.types() + self.2.types()), Ghost(self.3.types()));
        let rows = both_present(ecs, rows, self.4.presence(ecs), Ghost(self.0.types() + self.1.types() + self.2.types() + self.3.types()), Ghost(self.4.types()));
        let rows = both_present(ecs, rows, self.5.presence(ecs), Ghost(self.0.types() + self.1.types() + self.2.types() + self.3.types() + self.4.types()), Ghost(self.5.types()));
        let rows = both_present(ecs, rows, self.6.presence(ecs), Ghost(self.0.types() + self.1.types() + self.2.types() + self.3.types() + self.4.types() + self.5.types()), Ghost(self.6.types()));
        rows
    }
}

impl<A: Queryable, B: Queryable, D: Queryable, E: Queryable, F: Queryable, G: Queryable, H: Queryable, I: Queryable> Queryable for (A, B, D, E, F, G, H, I) {
    open spec fn types(&self) -> Seq<ComponentType> {
        self.0.types() + self.1.types() + self.2.types() + self.3.types() + self.4.types() + self.5.types() + self.6.types() + self.7.types()
    }

    fn component_types(&self) -> (types: Vec<ComponentType>) {
        let mut types = self.0.component_types();
        let mut more = self.1.component_types();
        types.append(&mut more);
        let mut more = self.2.component_types();
        types.append(&mut more);
        let mut more = self.3.component_types();
        types.append(&mut more);
        let mut more = self.4.component_types();
        types.append(&mut more);
        let mut more = self.5.component_types();
        types.append(&mut more);
        let mut more = self.6.component_types();
        types.append(&mut more);
        let mut more = self.7.component_types();
        types.append(&mut more);
        types
    }

    open spec fn writes(&self) -> Seq<ComponentType> {
        self.0.writes() + self.1.writes() + self.2.writes() + self.3.writes() + self.4.writes() + self.5.writes() + self.6.writes() + self.7.writes()
    }

    fn write_types(&self) -> (types: Vec<ComponentType>) {
        let mut types = self.0.write_types();
        let mut more = self.1.write_types();
        types.append(&mut more);
        let mut more = self.2.write_types();
        types.append(&mut more);
        let mut more = self.3.write_types();
        types.append(&mut more);
        let mut more = self.4.write_types();
        types.append(&mut more);
        let mut more = self.5.write_types();
        types.append(&mut more);
        let mut more = self.6.write_types();
        types.append(&mut more);
        let mut more = self.7.write_types();
        types.append(&mut more);
        types
    }

    fn presence<C>(&self, ecs: &Ecs<C>) -> (rows: Vec<bool>) {
        let rows = self.0.presence(ecs);
        let rows = both_present(ecs, rows, self.1.presence(ecs), Ghost(self.0.types()), Ghost(self.1.types()));
        let rows = both_present(ecs, rows, self.2.presence(ecs), Ghost(self.0.types() + self.1.types()), Ghost(self.2.types()));
        let rows = both_present(ecs, rows, self.3.presence(ecs), Ghost(self.0.types() + self.1.types() + self.2.types()), Ghost(self.3.types()));
        let rows = both_present(ecs, rows, self.4.presence(ecs), Ghost(self.0.types() + self.1.types() + self.2.types() + self.3.types()), Ghost(self.4.types()));
        let rows = both_present(ecs, rows, self.5.presence(ecs), Ghost(self.0.types() + self.1.types() + self.2.types() + self.3.types() + self.4.types()), Ghost(self.5.types()));
        let rows = both_present(ecs, rows, self.6.presence(ecs), Ghost(self.0.types() + self.1.types() + self.2.types() + self.3.types() + self.4.types() + self.5.types()), Ghost(self.6.types()));
        let rows = both_present(ecs, rows, self.7.presence(ecs), Ghost(self.0.types() + self.1.types() + self.2.types() + self.3.types() + self.4.types() + self.5.types() + self.6.types()), Ghost(self.7.types()));
        rows
    }
}

/// One accessor of a request whose length is not known before the program
/// runs: read or write access to the components of one type.
pub enum Access {
    Imm(Imm),
    Mut(Mut),
}

impl Queryable for Access {
    open spec fn types(&self) -> Seq<ComponentType> {
        match self {
            Access::Imm(accessor) => accessor.types(),
            Access::Mut(accessor) => accessor.types(),
        }
    }

    fn component_types(&self) -> (types: Vec<ComponentType>) {
        match self {
            Access::Imm(accessor) => accessor.component_types(),
            Access::Mut(accessor) => accessor.component_types(),
        }
    }

    open spec fn writes(&self) -> Seq<ComponentType> {
        match self {
            Access::Imm(accessor) => accessor.writes(),
            Access::Mut(accessor) => accessor.writes(),
        }
    }

    fn write_types(&self) -> (types: Vec<ComponentType>) {
        match self {
            Access::Imm(accessor) => accessor.write_types(),
            Access::Mut(accessor) => accessor.write_types(),
        }
    }

    fn presence<C>(&self, ecs: &Ecs<C>) -> (rows: Vec<bool>) {
        match self {
            Access::Imm(accessor) => accessor.presence(ecs),
            Access::Mut(accessor) => accessor.presence(ecs),
        }
    }
}

/// The component types that a list of requests asks for, request by request.
pub open spec fn joined_types<Q: Queryable>(requests: Seq<Q>) -> Seq<ComponentType>
    decreases requests.len(),
{
    if requests.len() == 0 {
        Seq::empty()
    } else {
        joined_types(requests.drop_last()) + requests.last().types()
    }
}

/// The component types that a list of requests asks for writing, request by
/// request.
pub open spec fn joined_writes<Q: Queryable>(requests: Seq<Q>) -> Seq<ComponentType>
    decreases requests.len(),
{
    if requests.len() == 0 {
        Seq::empty()
    } else {
        joined_writes(requests.drop_last()) + requests.last().writes()
    }
}

/// A list of requests is the request for all that they ask for, of any
/// length. The empty list matches every entity.
impl<Q: Queryable> Queryable for Vec<Q> {
    open spec fn types(&self) -> Seq<ComponentType> {
        joined_types(self@)
    }

    fn component_types(&self) -> (types: Vec<ComponentType>) {
        let mut types: Vec<ComponentType> = Vec::new();
        let mut i: usize = 0;
        proof {
            assert(self@.subrange(0, 0) =~= Seq::<Q>::empty());
        }
        while i < self.len()
            invariant
                i <= self@.len(),
                types@ == joined_types(self@.subrange(0, i as int)),
            decreases self@.len() - i,
        {
            let mut more = self[i].component_types();
            types.append(&mut more);
            proof {
                let longer = self@.subrange(0, i + 1);
                assert(longer.drop_last() =~= self@.subrange(0, i as int));
                assert(longer.last() == self@[i as int]);
            }
            i += 1;
        }
        proof {
            assert(self@.subrange(0, i as int) =~= self@);
        }
        types
    }

    open spec fn writes(&self) -> Seq<ComponentType> {
        joined_writes(self@)
    }

    fn write_types(&self) -> (types: Vec<ComponentType>) {
        let mut types: Vec<ComponentType> = Vec::new();
        let mut i: usize = 0;
        proof {
            assert(self@.subrange(0, 0) =~= Seq::<Q>::empty());
        }
        while i < self.len()
            invariant
                i <= self@.len(),
                types@ == joined_writes(self@.subrange(0, i as int)),
            decreases self@.len() - i,
        {
            let mut more = self[i].write_types();
            types.append(&mut more);
            proof {
                let longer = self@.subrange(0, i + 1);
                assert(longer.drop_last() =~= self@.subrange(0, i as int));
                assert(longer.last() == self@[i as int]);
            }
            i += 1;
        }
        proof {
            assert(self@.subrange(0, i as int) =~= self@);
        }
        types
    }

    fn presence<C>(&self, ecs: &Ecs<C>) -> (rows: Vec<bool>) {
        let mut rows: Vec<bool> = Vec::new();
        let bound = ecs.next_entity_id();
        let mut id: usize = 0;
        while id < bound
            invariant
                id <= bound,
                rows@.len() == id,
                forall|k: int| 0 <= k < id ==> #[trigger] rows@[k],
            decreases bound - id,
        {
            rows.push(true);
            id += 1;
        }
        let mut i: usize = 0;
        proof {
            assert(self@.subrange(0, 0) =~= Seq::<Q>::empty());
        }
        while i < self.len()
            invariant
                ecs.wf(),
                i <= self@.len(),
                is_presence(rows@, *ecs, joined_types(self@.subrange(0, i as int))),
            decreases self@.len() - i,
        {
            let next = self[i].presence(ecs);
            proof {
                let longer = self@.subrange(0, i + 1);
                assert(longer.drop_last() =~= self@.subrange(0, i as int));
                assert(longer.last() == self@[i as int]);
            }
            rows =
            both_present(
                ecs,
                rows,
                next,
                Ghost(joined_types(self@.subrange(0, i as int))),
                Ghost(self@[i as int].types()),
            );
            i += 1;
        }
        proof {
            assert(self@.subrange(0, i as int) =~= self@);
        }
        rows
    }
}

/// `row` holds, for each type in `types`, the component of that type of
/// entity `id`.
pub open spec fn is_row<C>(
    row: Seq<&C>,
    ecs: Ecs<C>,
    types: Seq<ComponentType>,
    id: EntityId,
) -> bool {
    &&& row.len() == types.len()
    &&& forall|i: int| 0 <= i < row.len() ==> ecs.slot(types[i], id) == Some(*#[trigger] row[i])
}

/// The components of entity `id` of the types in `types`, in that order, or
/// `None` where the entity lacks one of them.
pub fn fetch_row<'a, C>(ecs: &'a Ecs<C>, types: &Vec<ComponentType>, id: EntityId) -> (row: Option<
    Vec<&'a C>,
>)
    requires
        ecs.wf(),
    ensures
        match row {
            Some(row) => is_row(row@, *ecs, types@, id),
            None => !has_all(*ecs, types@, id),
        },
{
    let mut row: Vec<&'a C> = Vec::new();
    let mut i: usize = 0;
    while i < types.len()
        invariant
            ecs.wf(),
            i <= types@.len(),
            row@.len() == i,
            forall|k: int| 0 <= k < i ==> ecs.slot(types@[k], id) == Some(*#[trigger] row@[k]),
        decreases types@.len() - i,
    {
        match ecs.component(types[i], id) {
            Some(component) => {
                row.push(component);
            },
            None => {
                assert(ecs.slot(types@[i as int], id).is_none());
                return None;
            },
        }
        i += 1;
    }
    Some(row)
}

/// The live entities that hold every requested component type, in ascending
/// order of identifier. An entity that lacks one of the types is left out.
pub fn fetch<Q: Queryable, C>(query: &Q, ecs: &Ecs<C>) -> (ids: Vec<EntityId>)
    requires
        ecs.wf(),
    ensures
        forall|i: int, j: int| 0 <= i < j < ids@.len() ==> ids@[i] < ids@[j],
        forall|id: EntityId|
            ids@.contains(id) <==> ecs.ids().is_live(id) && has_all(*ecs, query.types(), id),
{
    let rows = query.presence(ecs);
    let mut ids: Vec<EntityId> = Vec::new();
    let mut id: usize = 0;
    while id < rows.len()
        invariant
            ecs.wf(),
            id <= rows@.len(),
            is_presence(rows@, *ecs, query.types()),
            forall|i: int, j: int| 0 <= i < j < ids@.len() ==> ids@[i] < ids@[j],
            forall|i: int| 0 <= i < ids@.len() ==> ids@[i] < id,
            forall|other: EntityId|
                ids@.contains(other) <==> other < id && ecs.ids().is_live(other) && has_all(
                    *ecs,
                    query.types(),
                    other,
                ),
        decreases rows@.len() - id,
    {
        let ghost before = ids@;
        if rows[id] && ecs.is_live(id) {
            ids.push(id);
            proof {
                assert(ids@[before.len() as int] == id);
                assert forall|other: EntityId|
                    ids@.contains(other) <==> other < id + 1 && ecs.ids().is_live(other)
                        && has_all(*ecs, query.types(), other) by {
                    if ids@.contains(other) {
                        let k = choose|k: int| 0 <= k < ids@.len() && ids@[k] == other;
                        if k < before.len() {
                            assert(before.contains(before[k]));
                        } else {
                            assert(rows@[other as int]);
                        }
                    }
                    if other < id + 1 && ecs.ids().is_live(other) && has_all(
                        *ecs,
                        query.types(),
                        other,
                    ) {
                        if other < id {
                            assert(before.contains(other));
                            let k = choose|k: int| 0 <= k < before.len() && before[k] == other;
                            assert(ids@[k] == other);
                        }
                    }
                }
            }
        } else {
            assert(!rows@[id as int] || !ecs.ids().is_live(id));
        }
        id += 1;
    }
    ids
}

} // verus!
