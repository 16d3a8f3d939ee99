//! Systems: a function that is run once for every entity a query matches, and
//! schedules that run several systems one after the other.

use vstd::prelude::*;
use crate::entity::EntityId;
use crate::flat::Ecs;
use crate::layout::ComponentType;
use crate::query::fetch;
use crate::query::fetch_row;
use crate::query::has_all;
use crate::query::is_row;
use crate::query::Queryable;

verus! {

/// No column is open for writing while it is open a second time: a type
/// that is requested for writing is requested once, and only a type that is
/// read alone may be requested again.
pub open spec fn exclusive(types: Seq<ComponentType>, writes: Seq<ComponentType>) -> bool {
    &&& writes.no_duplicates()
    &&& forall|j: int| 0 <= j < writes.len() ==> types.contains(#[trigger] writes[j])
    &&& forall|i: int, k: int|
        0 <= i < k < types.len() && #[trigger] types[i] == #[trigger] types[k]
            ==> !writes.contains(types[i])
}

/// `function` can be called with any row of `inputs` components and returns
/// `outputs` components.
pub open spec fn accepts<C, F: Fn(Vec<&C>) -> Vec<C>>(
    function: F,
    inputs: nat,
    outputs: nat,
) -> bool {
    &&& forall|row: Vec<&C>| row@.len() == inputs ==> #[trigger] function.requires((row,))
    &&& forall|row: Vec<&C>, out: Vec<C>|
        row@.len() == inputs && #[trigger] function.ensures((row,), out) ==> out@.len()
            == outputs
}

/// The same entities hold the same component types before and after.
pub open spec fn same_presence<C>(before: Ecs<C>, after: Ecs<C>) -> bool {
    forall|ty: ComponentType, id: EntityId|
        (#[trigger] after.slot(ty, id)).is_some() == before.slot(ty, id).is_some()
}

/// In `after`, entity `id` holds for the types in `writes` what `function`
/// returned for the row that the entity had in `before`.
pub open spec fn applied<C, F: Fn(Vec<&C>) -> Vec<C>>(
    function: F,
    before: Ecs<C>,
    after: Ecs<C>,
    types: Seq<ComponentType>,
    writes: Seq<ComponentType>,
    id: EntityId,
) -> bool {
    exists|row: Vec<&C>, out: Vec<C>|
        {
            &&& is_row(row@, before, types, id)
            &&& #[trigger] function.ensures((row,), out)
            &&& out@.len() == writes.len()
            &&& forall|j: int|
                0 <= j < writes.len() ==> after.slot(#[trigger] writes[j], id) == Some(out@[j])
        }
}

/// Whether a function was applied to an entity depends on the components of
/// that entity alone.
pub proof fn lemma_applied_transfer<C, F: Fn(Vec<&C>) -> Vec<C>>(
    function: F,
    before: Ecs<C>,
    after: Ecs<C>,
    other_before: Ecs<C>,
    other_after: Ecs<C>,
    types: Seq<ComponentType>,
    writes: Seq<ComponentType>,
    id: EntityId,
)
    requires
        applied(function, before, after, types, writes, id),
        forall|ty: ComponentType| #[trigger] before.slot(ty, id) == other_before.slot(ty, id),
        forall|ty: ComponentType| #[trigger] after.slot(ty, id) == other_after.slot(ty, id),
    ensures
        applied(function, other_before, other_after, types, writes, id),
{
    let (row, out) = choose|row: Vec<&C>, out: Vec<C>|
        {
            &&& is_row(row@, before, types, id)
            &&& #[trigger] function.ensures((row,), out)
            &&& out@.len() == writes.len()
            &&& forall|j: int|
                0 <= j < writes.len() ==> after.slot(#[trigger] writes[j], id) == Some(out@[j])
        };
    assert(is_row(row@, other_before, types, id)) by {
        assert forall|i: int| 0 <= i < row@.len() implies other_before.slot(types[i], id) == Some(
            *#[trigger] row@[i],
        ) by {
            assert(before.slot(types[i], id) == other_before.slot(types[i], id));
        }
    }
    assert forall|j: int| 0 <= j < writes.len() implies other_after.slot(
        #[trigger] writes[j],
        id,
    ) == Some(out@[j]) by {
        assert(after.slot(writes[j], id) == other_after.slot(writes[j], id));
    }
    assert(function.ensures((row,), out));
}

/// Tells whether `list` holds the component type `ty`.
pub fn holds_type(list: &Vec<ComponentType>, ty: ComponentType) -> (found: bool)
    ensures
        found == list@.contains(ty),
{
    let mut i: usize = 0;
    while i < list.len()
        invariant
            i <= list@.len(),
            forall|k: int| 0 <= k < i ==> list@[k] != ty,
        decreases list@.len() - i,
    {
        if list[i] == ty {
            return true;
        }
        i += 1;
    }
    false
}

/// Tells whether no component type occurs twice in `list`.
pub fn all_distinct(list: &Vec<ComponentType>) -> (distinct: bool)
    ensures
        distinct == list@.no_duplicates(),
{
    let mut i: usize = 0;
    while i < list.len()
        invariant
            i <= list@.len(),
            forall|a: int, b: int| 0 <= a < i && 0 <= b < list@.len() && a != b ==> list@[a] != list@[b],
        decreases list@.len() - i,
    {
        let mut j: usize = i + 1;
        while j < list.len()
            invariant
                i < j <= list@.len(),
                forall|b: int| i < b < j ==> list@[i as int] != list@[b],
            decreases list@.len() - j,
        {
            if list[i] == list[j] {
                return false;
            }
            j += 1;
        }
        i += 1;
    }
    true
}

/// Tells whether every type that occurs twice in `types` is absent from
/// `writes`.
pub fn repeats_are_read_only(types: &Vec<ComponentType>, writes: &Vec<ComponentType>) -> (valid:
    bool)
    ensures
        valid == (forall|i: int, k: int|
            0 <= i < k < types@.len() && #[trigger] types@[i] == #[trigger] types@[k]
                ==> !writes@.contains(types@[i])),
{
    let mut i: usize = 0;
    while i < types.len()
        invariant
            i <= types@.len(),
            forall|a: int, b: int|
                0 <= a < i && a < b < types@.len() && #[trigger] types@[a] == #[trigger] types@[b]
                    ==> !writes@.contains(types@[a]),
        decreases types@.len() - i,
    {
        let mut k: usize = i + 1;
        while k < types.len()
            invariant
                i < k <= types@.len(),
                forall|b: int|
                    i < b < k && types@[i as int] == #[trigger] types@[b] ==> !writes@.contains(
                        types@[i as int],
                    ),
            decreases types@.len() - k,
        {
            if types[i] == types[k] && holds_type(writes, types[i]) {
                return false;
            }
            k += 1;
        }
        i += 1;
    }
    true
}

/// Tells whether a request opens no column for writing while it opens it a
/// second time, and requests every type it writes.
pub fn is_exclusive(types: &Vec<ComponentType>, writes: &Vec<ComponentType>) -> (valid: bool)
    ensures
        valid == exclusive(types@, writes@),
{
    if !all_distinct(writes) || !repeats_are_read_only(types, writes) {
        return false;
    }
    let mut j: usize = 0;
    while j < writes.len()
        invariant
            j <= writes@.len(),
            forall|k: int| 0 <= k < j ==> types@.contains(#[trigger] writes@[k]),
        decreases writes@.len() - j,
    {
        if !holds_type(types, writes[j]) {
            return false;
        }
        j += 1;
    }
    true
}

/// Something that can be run on a store. Running it neither creates nor
/// removes an entity or a component.
pub trait Runnable<C> {
    /// The conditions under which it can be run.
    spec fn ready(&self) -> bool;

    /// What one run does: the store `after` is what a run on the store
    /// `before` leaves.
    spec fn effect(&self, before: Ecs<C>, after: Ecs<C>) -> bool;

    /// Runs it on `ecs`.
    fn run(&self, ecs: &mut Ecs<C>)
        requires
            old(ecs).wf(),
            self.ready(),
        ensures
            final(ecs).wf(),
            final(ecs).ids() == old(ecs).ids(),
            same_presence(*old(ecs), *final(ecs)),
            self.effect(*old(ecs), *final(ecs)),
    ;
}

/// The store `after` is what the first `n` systems of `systems` leave when
/// they are run on the store `before`, one after the other, each on what the
/// one before it left.
pub open spec fn ran_in_order<C>(
    systems: Seq<Box<dyn Runnable<C>>>,
    n: nat,
    before: Ecs<C>,
    after: Ecs<C>,
) -> bool
    decreases n,
{
    if n == 0 {
        after == before
    } else {
        exists|between: Ecs<C>|
            ran_in_order(systems, (n - 1) as nat, before, between) && (#[trigger] systems[n
                - 1].effect(between, after))
    }
}

/// A function together with the query that selects the entities it is applied
/// to. For each of them the function gets the requested components, in the
/// order of the request, and returns the new values of those requested for
/// writing.
pub struct System<Q, F> {
    pub query: Q,
    pub function: F,
}

impl<Q: Queryable, F> System<Q, F> {
    /// A system that applies `function` to the entities `query` matches, or
    /// `None` where the query requests a component type for writing and
    /// requests it a second time.
    pub fn new(query: Q, function: F) -> (system: Option<Self>)
        ensures
            system.is_some() == exclusive(query.types(), query.writes()),
            match system {
                Some(system) => system.query == query && system.function == function,
                None => true,
            },
    {
        let types = query.component_types();
        let writes = query.write_types();
        if is_exclusive(&types, &writes) {
            Some(System { query, function })
        } else {
            None
        }
    }

    /// Applies the function to entity `id`, which holds every requested type.
    /// Only the components of `id` that are requested for writing change.
    fn apply_to<C>(
        &self,
        ecs: &mut Ecs<C>,
        types: &Vec<ComponentType>,
        writes: &Vec<ComponentType>,
        id: EntityId,
    ) where F: Fn(Vec<&C>) -> Vec<C>
        requires
            old(ecs).wf(),
            exclusive(types@, writes@),
            accepts(self.function, types@.len(), writes@.len()),
            has_all(*old(ecs), types@, id),
        ensures
            final(ecs).wf(),
            final(ecs).ids() == old(ecs).ids(),
            forall|ty: ComponentType, other: EntityId|
                (other != id || !writes@.contains(ty)) ==> #[trigger] final(ecs).slot(ty, other)
                    == old(ecs).slot(ty, other),
            applied(self.function, *old(ecs), *final(ecs), types@, writes@, id),
    {
        let row = fetch_row(ecs, types, id).unwrap();
        let ghost given = row;
        let mut out = (self.function)(row);
        let ghost produced = out;
        proof {
            if writes@.len() > 0 {
                assert(types@.contains(writes@[0]));
                let i = choose|i: int| 0 <= i < types@.len() && types@[i] == writes@[0];
                assert(ecs.slot(types@[i], id).is_some());
                ecs.lemma_holder_is_live(types@[i], id);
            }
        }
        let mut j: usize = out.len();
        while j > 0
            invariant
                ecs.wf(),
                ecs.ids() == old(ecs).ids(),
                writes@.no_duplicates(),
                writes@.len() > 0 ==> ecs.ids().is_live(id),
                produced@.len() == writes@.len(),
                j == out@.len(),
                j <= produced@.len(),
                out@ == produced@.subrange(0, j as int),
                forall|m: int|
                    j <= m < writes@.len() ==> ecs.slot(#[trigger] writes@[m], id) == Some(
                        produced@[m],
                    ),
                forall|ty: ComponentType, other: EntityId|
                    (other != id || !writes@.contains(ty)) ==> #[trigger] ecs.slot(ty, other)
                        == old(ecs).slot(ty, other),
            decreases j,
        {
            let ghost before = *ecs;
            let value = out.pop().unwrap();
            j -= 1;
            ecs.set_component(writes[j], id, value);
            proof {
                assert(out@ =~= produced@.subrange(0, j as int));
                assert forall|m: int| j <= m < writes@.len() implies ecs.slot(
                    #[trigger] writes@[m],
                    id,
                ) == Some(produced@[m]) by {
                    if m > j {
                        assert(writes@[m] != writes@[j as int]);
                        assert(before.slot(writes@[m], id) == Some(produced@[m]));
                    }
                }
                assert forall|ty: ComponentType, other: EntityId|
                    (other != id || !writes@.contains(ty)) implies #[trigger] ecs.slot(ty, other)
                    == old(ecs).slot(ty, other) by {
                    assert(before.slot(ty, other) == old(ecs).slot(ty, other));
                    if other == id {
                        assert(writes@.contains(writes@[j as int]));
                    }
                }
            }
        }
        proof {
            assert(is_row(given@, *old(ecs), types@, id));
            assert(self.function.ensures((given,), produced));
        }
    }
}

impl<C, Q: Queryable, F: Fn(Vec<&C>) -> Vec<C>> Runnable<C> for System<Q, F> {
    open spec fn ready(&self) -> bool {
        &&& exclusive(self.query.types(), self.query.writes())
        &&& accepts(self.function, self.query.types().len(), self.query.writes().len())
    }

    /// Only the components requested for writing change, and only those of
    /// the live entities that hold all requested types; each of these holds
    /// what the function returned for its row.
    open spec fn effect(&self, before: Ecs<C>, after: Ecs<C>) -> bool {
        &&& forall|ty: ComponentType, id: EntityId|
            !(self.query.writes().contains(ty) && before.ids().is_live(id) && has_all(
                before,
                self.query.types(),
                id,
            )) ==> #[trigger] after.slot(ty, id) == before.slot(ty, id)
        &&& forall|id: EntityId|
            before.ids().is_live(id) && has_all(before, self.query.types(), id)
                ==> #[trigger] applied(
                self.function,
                before,
                after,
                self.query.types(),
                self.query.writes(),
                id,
            )
    }

    /// Applies the function to every entity that holds all requested types,
    /// in ascending order of identifier.
    fn run(&self, ecs: &mut Ecs<C>) {
        let types = self.query.component_types();
        let writes = self.query.write_types();
        let ids = fetch(&self.query, ecs);
        let mut k: usize = 0;
        while k < ids.len()
            invariant
                ecs.wf(),
                ecs.ids() == old(ecs).ids(),
                self.ready(),
                types@ == self.query.types(),
                writes@ == self.query.writes(),
                k <= ids@.len(),
                forall|i: int, j: int| 0 <= i < j < ids@.len() ==> ids@[i] < ids@[j],
                forall|id: EntityId|
                    ids@.contains(id) <==> old(ecs).ids().is_live(id) && has_all(
                        *old(ecs),
                        types@,
                        id,
                    ),
                forall|ty: ComponentType, id: EntityId|
                    !(writes@.contains(ty) && ids@.subrange(0, k as int).contains(id))
                        ==> #[trigger] ecs.slot(ty, id) == old(ecs).slot(ty, id),
                forall|m: int|
                    0 <= m < k ==> applied(
                        self.function,
                        *old(ecs),
                        *ecs,
                        types@,
                        writes@,
                        #[trigger] ids@[m],
                    ),
            decreases ids@.len() - k,
        {
            let id = ids[k];
            let ghost before = *ecs;
            let ghost done = ids@.subrange(0, k as int);
            proof {
                assert(ids@.contains(id));
                assert(!done.contains(id)) by {
                    if done.contains(id) {
                        let m = choose|m: int| 0 <= m < done.len() && done[m] == id;
                        assert(ids@[m] < ids@[k as int]);
                    }
                }
                assert forall|i: int| 0 <= i < types@.len() implies ecs.slot(
                    #[trigger] types@[i],
                    id,
                ).is_some() by {
                    assert(ecs.slot(types@[i], id) == old(ecs).slot(types@[i], id));
                }
            }
            self.apply_to(ecs, &types, &writes, id);
            proof {
                let next = ids@.subrange(0, k + 1);
                assert(next[k as int] == id);
                assert forall|ty: ComponentType, other: EntityId|
                    !(writes@.contains(ty) && next.contains(other)) implies #[trigger] ecs.slot(
                    ty,
                    other,
                ) == old(ecs).slot(ty, other) by {
                    if other != id {
                        if done.contains(other) {
                            let m = choose|m: int| 0 <= m < done.len() && done[m] == other;
                            assert(next[m] == other);
                        }
                        assert(before.slot(ty, other) == old(ecs).slot(ty, other));
                    } else {
                        assert(next.contains(id));
                        assert(before.slot(ty, other) == old(ecs).slot(ty, other));
                    }
                }
                assert forall|m: int| 0 <= m < k + 1 implies applied(
                    self.function,
                    *old(ecs),
                    *ecs,
                    types@,
                    writes@,
                    #[trigger] ids@[m],
                ) by {
                    if m < k {
                        assert(ids@[m] < ids@[k as int]);
                        assert forall|ty: ComponentType| #[trigger]
                            before.slot(ty, ids@[m]) == ecs.slot(ty, ids@[m]) by {}
                        lemma_applied_transfer(
                            self.function,
                            *old(ecs),
                            before,
                            *old(ecs),
                            *ecs,
                            types@,
                            writes@,
                            ids@[m],
                        );
                    } else {
                        assert forall|ty: ComponentType| #[trigger]
                            before.slot(ty, id) == old(ecs).slot(ty, id) by {}
                        lemma_applied_transfer(
                            self.function,
                            before,
                            *ecs,
                            *old(ecs),
                            *ecs,
                            types@,
                            writes@,
                            id,
                        );
                    }
                }
            }
            k += 1;
        }
        proof {
            assert(ids@.subrange(0, k as int) =~= ids@);
            assert forall|id: EntityId|
                old(ecs).ids().is_live(id) && has_all(
                    *old(ecs),
                    self.query.types(),
                    id,
                ) implies #[trigger] applied(
                self.function,
                *old(ecs),
                *ecs,
                self.query.types(),
                self.query.writes(),
                id,
            ) by {
                assert(ids@.contains(id));
                let m = choose|m: int| 0 <= m < ids@.len() && ids@[m] == id;
                assert(applied(self.function, *old(ecs), *ecs, types@, writes@, ids@[m]));
            }
            assert forall|ty: ComponentType, id: EntityId| (#[trigger] ecs.slot(ty, id)).is_some()
                == old(ecs).slot(ty, id).is_some() by {
                if writes@.contains(ty) && ids@.contains(id) {
                    let m = choose|m: int| 0 <= m < ids@.len() && ids@[m] == id;
                    assert(applied(self.function, *old(ecs), *ecs, types@, writes@, ids@[m]));
                    let j = choose|j: int| 0 <= j < writes@.len() && writes@[j] == ty;
                    assert(types@.contains(writes@[j]));
                    let i = choose|i: int| 0 <= i < types@.len() && types@[i] == ty;
                    assert(old(ecs).slot(types@[i], id).is_some());
                    assert(ecs.slot(writes@[j], id).is_some());
                }
            }
        }
    }
}

/// Runs its systems on a store, in the order in which it holds them.
#[verifier::reject_recursive_types(C)]
pub struct SystemSchedule<C> {
    pub systems: Vec<Box<dyn Runnable<C>>>,
}

impl<C> SystemSchedule<C> {
    /// Runs every system once, one after the other: the first on the store
    /// as it is given, each of the others on what the one before it left.
    pub fn run(&self, ecs: &mut Ecs<C>)
        requires
            old(ecs).wf(),
            forall|i: int| 0 <= i < self.systems@.len() ==> (#[trigger] self.systems@[i]).ready(),
        ensures
            final(ecs).wf(),
            final(ecs).ids() == old(ecs).ids(),
            same_presence(*old(ecs), *final(ecs)),
            ran_in_order(self.systems@, self.systems@.len(), *old(ecs), *final(ecs)),
    {
        let mut i: usize = 0;
        while i < self.systems.len()
            invariant
                i <= self.systems@.len(),
                ecs.wf(),
                ecs.ids() == old(ecs).ids(),
                same_presence(*old(ecs), *ecs),
                ran_in_order(self.systems@, i as nat, *old(ecs), *ecs),
                forall|i: int|
                    0 <= i < self.systems@.len() ==> (#[trigger] self.systems@[i]).ready(),
            decreases self.systems@.len() - i,
        {
            let ghost before = *ecs;
            self.systems[i].run(ecs);
            proof {
                assert forall|ty: ComponentType, id: EntityId| (#[trigger] ecs.slot(
                    ty,
                    id,
                )).is_some() == old(ecs).slot(ty, id).is_some() by {
                    assert(before.slot(ty, id).is_some() == old(ecs).slot(ty, id).is_some());
                }
                let n = (i + 1) as nat;
                assert(ran_in_order(self.systems@, (n - 1) as nat, *old(ecs), before));
                assert(self.systems@[n - 1].effect(before, *ecs));
                assert(ran_in_order(self.systems@, n, *old(ecs), *ecs));
            }
            i += 1;
        }
    }
}

} // verus!
