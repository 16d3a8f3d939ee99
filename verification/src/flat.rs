//! The flat backing: one sparse column per component type, indexed by entity
//! identifier. An entity has a component where its slot of that column holds a
//! value.

use vstd::prelude::*;
use crate::entity::EntityId;
use crate::entity::IdPool;
use crate::layout::ComponentType;

verus! {

/// All entities and their components, one column per component type.
pub struct Ecs<C> {
    next_entity_id: EntityId,
    entity_free_list: Vec<EntityId>,
    component_types: Vec<ComponentType>,
    components: Vec<Vec<Option<C>>>,
}

/// In a duplicate-free list, each element is found at its own position.
pub proof fn lemma_index_of_unique(types: Seq<ComponentType>, k: int)
    requires
        types.no_duplicates(),
        0 <= k < types.len(),
    ensures
        types.contains(types[k]),
        types.index_of(types[k]) == k,
{
    let found = types.index_of(types[k]);
    assert(0 <= found < types.len() && types[found] == types[k]);
}

impl<C> Ecs<C> {
    /// The state of the identifier allocator. Identifiers start at zero.
    pub closed spec fn ids(&self) -> IdPool {
        IdPool {
            next_id: self.next_entity_id as nat,
            free_list: self.entity_free_list@,
        }
    }

    /// The component types that have a column, in order of creation.
    pub closed spec fn types(&self) -> Seq<ComponentType> {
        self.component_types@
    }

    /// The `k`-th column: one slot per identifier issued so far.
    pub closed spec fn column(&self, k: int) -> Seq<Option<C>> {
        self.components@[k]@
    }

    /// The column of component type `ty`, where it has one.
    pub open spec fn storage(&self, ty: ComponentType) -> Seq<Option<C>> {
        self.column(self.types().index_of(ty))
    }

    /// The component of type `ty` that entity `id` holds, if any.
    pub open spec fn slot(&self, ty: ComponentType, id: EntityId) -> Option<C> {
        if self.types().contains(ty) && id < self.storage(ty).len() {
            self.storage(ty)[id as int]
        } else {
            None
        }
    }

    /// There is one column per type, no type has two columns, every column has
    /// `length` slots, and the slots of released identifiers are empty.
    pub closed spec fn shaped(&self, length: nat) -> bool {
        &&& self.component_types@.no_duplicates()
        &&& self.component_types@.len() == self.components@.len()
        &&& forall|k: int|
            0 <= k < self.components@.len() ==> (#[trigger] self.components@[k])@.len() == length
        &&& forall|k: int, f: int|
            0 <= k < self.components@.len() && 0 <= f < self.entity_free_list@.len()
                && self.entity_free_list@[f] < length ==> (#[trigger] self.components@[k])@[(
            #[trigger] self.entity_free_list@[f]) as int].is_none()
    }

    /// The allocator is well formed and every column has one slot per
    /// identifier issued so far.
    pub open spec fn wf(&self) -> bool {
        &&& self.ids().wf()
        &&& self.shaped(self.ids().next_id)
    }

    /// A released identifier holds no component.
    pub proof fn lemma_released_holds_nothing(&self, ty: ComponentType, id: EntityId)
        requires
            self.wf(),
            self.ids().free_list.contains(id),
        ensures
            self.slot(ty, id).is_none(),
    {
        if self.types().contains(ty) {
            let k = self.types().index_of(ty);
            let f = choose|f: int|
                0 <= f < self.entity_free_list@.len() && self.entity_free_list@[f] == id;
            assert(self.components@[k]@[self.entity_free_list@[f] as int].is_none());
        }
    }

    /// An identifier that was never issued holds no component.
    pub proof fn lemma_unissued_holds_nothing(&self, ty: ComponentType, id: EntityId)
        requires
            self.wf(),
            id >= self.ids().next_id,
        ensures
            self.slot(ty, id).is_none(),
    {
        if self.types().contains(ty) {
            let k = self.types().index_of(ty);
            assert(self.components@[k]@.len() == self.next_entity_id);
        }
    }

    /// Every column has one slot for each identifier issued so far, so a
    /// slot index in a column is the identifier of an issued entity.
    pub proof fn lemma_column_length(&self, ty: ComponentType)
        requires
            self.wf(),
            self.types().contains(ty),
        ensures
            self.storage(ty).len() == self.ids().next_id,
    {
        let k = self.types().index_of(ty);
        assert(self.components@[k]@.len() == self.next_entity_id);
    }

    /// An identifier that holds a component is live.
    pub proof fn lemma_holder_is_live(&self, ty: ComponentType, id: EntityId)
        requires
            self.wf(),
            self.slot(ty, id).is_some(),
        ensures
            self.ids().is_live(id),
    {
        if self.ids().free_list.contains(id) {
            self.lemma_released_holds_nothing(ty, id);
        }
        if id >= self.ids().next_id {
            self.lemma_unissued_holds_nothing(ty, id);
        }
    }

    /// A store without entities and without columns.
    pub fn new() -> (ecs: Ecs<C>)
        ensures
            ecs.wf(),
            ecs.ids().next_id == 0,
            ecs.ids().free_list == Seq::<EntityId>::empty(),
            ecs.types() == Seq::<ComponentType>::empty(),
    {
        Ecs {
            next_entity_id: 0,
            entity_free_list: Vec::new(),
            component_types: Vec::new(),
            components: Vec::new(),
        }
    }

    /// Position of the column of component type `ty`, if it has one.
    fn find_column(&self, ty: ComponentType) -> (found: Option<usize>)
        requires
            self.component_types@.no_duplicates(),
        ensures
            match found {
                Some(k) => k < self.types().len() && self.types()[k as int] == ty
                    && self.types().contains(ty) && self.types().index_of(ty) == k,
                None => !self.types().contains(ty),
            },
    {
        let mut k: usize = 0;
        while k < self.component_types.len()
            invariant
                self.component_types@.no_duplicates(),
                k <= self.component_types@.len(),
                forall|j: int| 0 <= j < k ==> self.component_types@[j] != ty,
            decreases self.component_types@.len() - k,
        {
            if self.component_types[k] == ty {
                proof {
                    lemma_index_of_unique(self.component_types@, k as int);
                }
                return Some(k);
            }
            k += 1;
        }
        None
    }

    /// The component of type `component_type` of entity `entity_id`, or `None`
    /// where the entity has none or the identifier is out of range.
    pub fn component(&self, component_type: ComponentType, entity_id: EntityId) -> (component:
        Option<&C>)
        requires
            self.wf(),
        ensures
            match component {
                Some(value) => self.slot(component_type, entity_id) == Some(*value),
                None => self.slot(component_type, entity_id).is_none(),
            },
    {
        match self.find_column(component_type) {
            Some(k) => {
                if entity_id < self.components[k].len() {
                    self.components[k][entity_id].as_ref()
                } else {
                    None
                }
            },
            None => None,
        }
    }

    /// Mutable access to the component of type `component_type` of entity
    /// `entity_id`, or `None` where the entity has none. What is written
    /// through the reference is what the entity then holds; nothing else
    /// changes.
    pub fn component_mut(&mut self, component_type: ComponentType, entity_id: EntityId) -> (component:
        Option<&mut C>)
        requires
            old(self).wf(),
        ensures
            match component {
                Some(value) => old(self).slot(component_type, entity_id) == Some(*value) && final(self).slot(component_type, entity_id) == Some(*final(value)),
                None => old(self).slot(component_type, entity_id).is_none() && final(self).slot(
                    component_type,
                    entity_id,
                ).is_none(),
            },
            final(self).wf(),
            final(self).ids() == old(self).ids(),
            final(self).types() == old(self).types(),
            forall|ty: ComponentType, other: EntityId|
                (ty != component_type || other != entity_id) ==> #[trigger] final(self).slot(
                    ty,
                    other,
                ) == old(self).slot(ty, other),
    {
        match self.find_column(component_type) {
            Some(k) => {
                if entity_id < self.components[k].len() {
                    self.components[k][entity_id].as_mut()
                } else {
                    None
                }
            },
            None => None,
        }
    }

    /// Removes entity `entity_id`: it holds no component afterwards, and its
    /// identifier is the next one to be handed out again.
    pub fn remove_entity(&mut self, entity_id: EntityId)
        requires
            old(self).wf(),
            old(self).ids().is_live(entity_id),
        ensures
            final(self).wf(),
            final(self).ids() == old(self).ids().after_release(entity_id),
            final(self).types() == old(self).types(),
            forall|ty: ComponentType| (#[trigger] final(self).slot(ty, entity_id)).is_none(),
            forall|ty: ComponentType, other: EntityId|
                other != entity_id ==> #[trigger] final(self).slot(ty, other) == old(self).slot(
                    ty,
                    other,
                ),
    {
        let mut k: usize = 0;
        while k < self.components.len()
            invariant
                k <= self.components@.len(),
                old(self).wf(),
                entity_id < old(self).next_entity_id,
                self.next_entity_id == old(self).next_entity_id,
                self.entity_free_list == old(self).entity_free_list,
                self.component_types == old(self).component_types,
                self.components@.len() == old(self).components@.len(),
                forall|j: int|
                    0 <= j < k ==> (#[trigger] self.components@[j])@ == old(self).components@[j]@.update(entity_id as int, None),
                forall|j: int|
                    k <= j < self.components@.len() ==> (#[trigger] self.components@[j])@ == old(self).components@[j]@,
            decreases self.components@.len() - k,
        {
            assert(old(self).components@[k as int]@.len() == old(self).next_entity_id);
            self.components[k].set(entity_id, None);
            k += 1;
        }
        self.entity_free_list.push(entity_id);
        proof {
            old(self).ids().lemma_release(entity_id);
            let before = old(self).entity_free_list@;
            assert forall|j: int| 0 <= j < self.components@.len() implies (
            #[trigger] self.components@[j])@.len() == self.next_entity_id by {
                assert(old(self).components@[j]@.len() == old(self).next_entity_id);
            }
            assert forall|j: int, f: int|
                0 <= j < self.components@.len() && 0 <= f < self.entity_free_list@.len()
                    && self.entity_free_list@[f] < self.next_entity_id implies (
            #[trigger] self.components@[j])@[(#[trigger] self.entity_free_list@[f]) as int].is_none() by {
                assert(self.components@[j]@ == old(self).components@[j]@.update(
                    entity_id as int,
                    None,
                ));
                assert(old(self).components@[j]@.len() == old(self).next_entity_id);
                if f < before.len() {
                    assert(self.entity_free_list@[f] == before[f]);
                    assert(old(self).components@[j]@[before[f] as int].is_none());
                }
            }
            assert forall|ty: ComponentType| (#[trigger] self.slot(ty, entity_id)).is_none() by {
                if self.types().contains(ty) {
                    let j = self.types().index_of(ty);
                    assert(self.components@[j]@ == old(self).components@[j]@.update(
                        entity_id as int,
                        None,
                    ));
                    assert(old(self).components@[j]@.len() == old(self).next_entity_id);
                }
            }
            assert forall|ty: ComponentType, other: EntityId|
                other != entity_id implies #[trigger] self.slot(ty, other) == old(self).slot(
                ty,
                other,
            ) by {
                if self.types().contains(ty) {
                    let j = self.types().index_of(ty);
                    assert(self.components@[j]@ == old(self).components@[j]@.update(
                        entity_id as int,
                        None,
                    ));
                }
            }
        }
    }

    /// Gives entity `entity_id` the component `component` of type
    /// `component_type`, in place of the one it may hold. A type without a
    /// column gets one.
    pub fn set_component(&mut self, component_type: ComponentType, entity_id: EntityId, component: C)
        requires
            old(self).wf(),
            old(self).ids().is_live(entity_id),
        ensures
            final(self).wf(),
            final(self).ids() == old(self).ids(),
            final(self).slot(component_type, entity_id) == Some(component),
            forall|ty: ComponentType, other: EntityId|
                (ty != component_type || other != entity_id) ==> #[trigger] final(self).slot(
                    ty,
                    other,
                ) == old(self).slot(ty, other),
            final(self).types() == if old(self).types().contains(component_type) {
                old(self).types()
            } else {
                old(self).types().push(component_type)
            },
    {
        match self.find_column(component_type) {
            Some(k) => {
                assert(self.components@[k as int]@.len() == self.next_entity_id);
                self.components[k].set(entity_id, Some(component));
                proof {
                    assert forall|j: int, f: int|
                        0 <= j < self.components@.len() && 0 <= f < self.entity_free_list@.len()
                            && self.entity_free_list@[f] < self.next_entity_id implies (
                    #[trigger] self.components@[j])@[(
                    #[trigger] self.entity_free_list@[f]) as int].is_none() by {
                        assert(old(self).components@[j]@[old(self).entity_free_list@[f] as int].is_none());
                        assert(old(self).entity_free_list@.contains(self.entity_free_list@[f]));
                    }
                    assert forall|j: int| 0 <= j < self.components@.len() implies (
                    #[trigger] self.components@[j])@.len() == self.next_entity_id by {
                        assert(old(self).components@[j]@.len() == old(self).next_entity_id);
                    }
                    assert forall|ty: ComponentType, other: EntityId|
                        (ty != component_type || other != entity_id) implies #[trigger] self.slot(
                        ty,
                        other,
                    ) == old(self).slot(ty, other) by {
                        if self.types().contains(ty) {
                            let j = self.types().index_of(ty);
                            if j == k {
                                lemma_index_of_unique(self.types(), j);
                            }
                        }
                    }
                }
            },
            None => {
                let mut storage: Vec<Option<C>> = Vec::new();
                let mut i: usize = 0;
                while i < self.next_entity_id
                    invariant
                        i <= self.next_entity_id,
                        storage@.len() == i,
                        forall|j: int| 0 <= j < i ==> (#[trigger] storage@[j]).is_none(),
                    decreases self.next_entity_id - i,
                {
                    storage.push(None);
                    i += 1;
                }
                storage.set(entity_id, Some(component));
                self.component_types.push(component_type);
                self.components.push(storage);
                proof {
                    let count = old(self).components@.len() as int;
                    assert forall|a: int, b: int|
                        0 <= a < self.component_types@.len() && 0 <= b
                            < self.component_types@.len() && a
                            != b implies self.component_types@[a] != self.component_types@[b] by {
                        if a < count {
                            assert(old(self).component_types@.contains(self.component_types@[a]));
                        }
                        if b < count {
                            assert(old(self).component_types@.contains(self.component_types@[b]));
                        }
                    }
                    assert forall|j: int| 0 <= j < self.components@.len() implies (
                    #[trigger] self.components@[j])@.len() == self.next_entity_id by {
                        if j < count {
                            assert(old(self).components@[j]@.len() == old(self).next_entity_id);
                        }
                    }
                    assert forall|j: int, f: int|
                        0 <= j < self.components@.len() && 0 <= f < self.entity_free_list@.len()
                            && self.entity_free_list@[f] < self.next_entity_id implies (
                    #[trigger] self.components@[j])@[(
                    #[trigger] self.entity_free_list@[f]) as int].is_none() by {
                        assert(old(self).entity_free_list@.contains(self.entity_free_list@[f]));
                        if j < count {
                            assert(old(self).components@[j]@[old(self).entity_free_list@[f] as int].is_none());
                        }
                    }
                    lemma_index_of_unique(self.types(), count);
                    assert forall|ty: ComponentType, other: EntityId|
                        (ty != component_type || other != entity_id) implies #[trigger] self.slot(
                        ty,
                        other,
                    ) == old(self).slot(ty, other) by {
                        if ty != component_type {
                            if old(self).types().contains(ty) {
                                let j = old(self).types().index_of(ty);
                                assert(self.types()[j] == ty);
                                lemma_index_of_unique(self.types(), j);
                            } else if self.types().contains(ty) {
                                let j = self.types().index_of(ty);
                                assert(old(self).types()[j] == ty);
                            }
                        }
                    }
                }
            },
        }
    }

    /// Starts the construction of a new entity.
    pub fn new_entity(&mut self) -> (builder: EntityBuilder<'_, C>)
        ensures
            *builder.ecs == *old(self),
            *final(builder.ecs) == *final(self),
            builder.components@ == Seq::<(ComponentType, C)>::empty(),
    {
        EntityBuilder::new(self)
    }

    /// An iterator over the components of type `component_type`, in
    /// ascending order of entity identifier. It is empty for a type that no
    /// entity ever held.
    pub fn component_iter(&self, component_type: ComponentType) -> (iter: ComponentIter<'_, C>)
        ensures
            iter.store() == *self,
            iter.ty() == component_type,
            iter.cursor() == 0,
    {
        ComponentIter::new(self, component_type)
    }

    /// An iterator that gives mutable access to the components of type
    /// `component_type`, in ascending order of entity identifier.
    pub fn component_iter_mut(&mut self, component_type: ComponentType) -> (iter: ComponentIterMut<
        '_,
        C,
    >)
        ensures
            *iter.ecs == *old(self),
            *final(iter.ecs) == *final(self),
            iter.component_type == component_type,
            iter.position == 0,
    {
        ComponentIterMut::new(self, component_type)
    }

    /// The identifier that will be issued next for the first time: every
    /// identifier issued so far is below it.
    pub fn next_entity_id(&self) -> (next: EntityId)
        ensures
            next == self.ids().next_id,
    {
        self.next_entity_id
    }

    /// Tells whether `entity_id` was issued and not removed since.
    pub fn is_live(&self, entity_id: EntityId) -> (live: bool)
        ensures
            live == self.ids().is_live(entity_id),
    {
        if entity_id >= self.next_entity_id {
            return false;
        }
        let mut i: usize = 0;
        while i < self.entity_free_list.len()
            invariant
                i <= self.entity_free_list@.len(),
                forall|k: int| 0 <= k < i ==> self.entity_free_list@[k] != entity_id,
            decreases self.entity_free_list@.len() - i,
        {
            if self.entity_free_list[i] == entity_id {
                return false;
            }
            i += 1;
        }
        true
    }

    /// Tells whether an identifier is left for a new entity.
    pub fn can_allocate(&self) -> (possible: bool)
        ensures
            possible == self.ids().can_allocate(),
    {
        !self.entity_free_list.is_empty() || self.next_entity_id < usize::MAX
    }

    /// Number of live entities.
    pub fn entity_count(&self) -> (count: usize)
        requires
            self.wf(),
        ensures
            count == self.ids().live_count(),
    {
        proof {
            self.ids().lemma_free_list_bounded();
        }
        self.next_entity_id - self.entity_free_list.len()
    }

    /// Gives every column one more, empty, slot.
    fn resize_component_stores(&mut self)
        requires
            old(self).shaped(old(self).ids().next_id),
            old(self).ids().wf(),
            old(self).ids().next_id < usize::MAX,
        ensures
            final(self).shaped(old(self).ids().next_id + 1),
            final(self).ids() == old(self).ids(),
            final(self).types() == old(self).types(),
            forall|k: int|
                0 <= k < old(self).types().len() ==> #[trigger] final(self).column(k) == old(self).column(k).push(None),
    {
        let mut k: usize = 0;
        while k < self.components.len()
            invariant
                k <= self.components@.len(),
                self.next_entity_id == old(self).next_entity_id,
                self.entity_free_list == old(self).entity_free_list,
                self.component_types == old(self).component_types,
                self.components@.len() == old(self).components@.len(),
                old(self).shaped(old(self).ids().next_id),
                forall|j: int|
                    0 <= j < k ==> (#[trigger] self.components@[j])@ == old(self).components@[j]@.push(None),
                forall|j: int|
                    k <= j < self.components@.len() ==> (#[trigger] self.components@[j])@ == old(self).components@[j]@,
            decreases self.components@.len() - k,
        {
            self.components[k].push(None);
            k += 1;
        }
        proof {
            assert forall|j: int, f: int|
                0 <= j < self.components@.len() && 0 <= f < self.entity_free_list@.len()
                    && self.entity_free_list@[f] < old(self).ids().next_id + 1 implies (
            #[trigger] self.components@[j])@[(#[trigger] self.entity_free_list@[f]) as int].is_none() by {
                assert(self.components@[j]@ == old(self).components@[j]@.push(None));
                if self.entity_free_list@[f] < old(self).ids().next_id {
                    assert(old(self).components@[j]@[old(self).entity_free_list@[f] as int].is_none());
                }
            }
        }
    }

    /// Takes the identifier released last, or issues a new one and gives
    /// every column a slot for it. The identifier holds no component.
    pub fn fetch_next_entity_id(&mut self) -> (id: EntityId)
        requires
            old(self).wf(),
            old(self).ids().can_allocate(),
        ensures
            final(self).wf(),
            id == old(self).ids().allocate_id(),
            final(self).ids() == old(self).ids().after_allocate(),
            final(self).types() == old(self).types(),
            forall|ty: ComponentType, other: EntityId| #[trigger]
                final(self).slot(ty, other) == old(self).slot(ty, other),
            forall|ty: ComponentType| (#[trigger] final(self).slot(ty, id)).is_none(),
    {
        proof {
            old(self).ids().lemma_allocate_is_fresh();
        }
        let id = match self.entity_free_list.pop() {
            Some(id) => {
                proof {
                    let before = old(self).entity_free_list@;
                    assert forall|k: int, f: int|
                        0 <= k < self.components@.len() && 0 <= f < self.entity_free_list@.len()
                            && self.entity_free_list@[f] < self.next_entity_id implies (
                    #[trigger] self.components@[k])@[(
                    #[trigger] self.entity_free_list@[f]) as int].is_none() by {
                        assert(self.entity_free_list@[f] == before[f]);
                        assert(old(self).components@[k]@[before[f] as int].is_none());
                    }
                    assert(before[before.len() - 1] == id);
                    assert(before.contains(id));
                    assert forall|ty: ComponentType| (#[trigger] self.slot(ty, id)).is_none() by {
                        old(self).lemma_released_holds_nothing(ty, id);
                    }
                }
                id
            },
            None => {
                let id = self.next_entity_id;
                self.resize_component_stores();
                let ghost resized = *self;
                self.next_entity_id += 1;
                proof {
                    assert forall|ty: ComponentType, other: EntityId| #[trigger]
                        self.slot(ty, other) == old(self).slot(ty, other) by {
                        if self.types().contains(ty) {
                            let k = self.types().index_of(ty);
                            assert(resized.column(k) == old(self).column(k).push(None));
                            assert(old(self).components@[k]@.len() == old(self).next_entity_id);
                        }
                    }
                    assert forall|ty: ComponentType| (#[trigger] self.slot(ty, id)).is_none() by {
                        old(self).lemma_unissued_holds_nothing(ty, id);
                    }
                }
                id
            },
        };
        id
    }
}

/// The first index from `from` on at which `column` holds a value, or the
/// length of the column where it holds none from there on.
pub open spec fn first_present<C>(column: Seq<Option<C>>, from: int) -> int
    decreases column.len() - from,
{
    if from < 0 || from >= column.len() {
        column.len() as int
    } else if column[from].is_some() {
        from
    } else {
        first_present(column, from + 1)
    }
}

/// Number of values that `column` holds from index `from` on.
pub open spec fn count_present<C>(column: Seq<Option<C>>, from: int) -> nat
    decreases column.len() - from,
{
    if from < 0 || from >= column.len() {
        0
    } else if column[from].is_some() {
        1 + count_present(column, from + 1)
    } else {
        count_present(column, from + 1)
    }
}

/// The index of the value that comes after `skip` values, counted from index
/// `from` on, or the length of the column where there are not that many.
pub open spec fn nth_present<C>(column: Seq<Option<C>>, from: int, skip: nat) -> int
    decreases skip,
{
    if skip == 0 {
        first_present(column, from)
    } else {
        nth_present(column, first_present(column, from) + 1, (skip - 1) as nat)
    }
}

/// The indices from `from` on at which `column` holds a value.
pub open spec fn holders<C>(column: Seq<Option<C>>, from: int) -> Set<int> {
    Set::new(|i: int| from <= i < column.len() && column[i].is_some())
}

/// Counting the values from `from` on gives the number of indices that hold
/// one.
pub proof fn lemma_count_present_is_number_of_holders<C>(column: Seq<Option<C>>, from: int)
    requires
        0 <= from,
    ensures
        holders(column, from).finite(),
        holders(column, from).len() == count_present(column, from),
    decreases column.len() - from,
{
    if from >= column.len() {
        assert(holders(column, from) =~= Set::<int>::empty());
    } else {
        lemma_count_present_is_number_of_holders(column, from + 1);
        if column[from].is_some() {
            assert(holders(column, from) =~= holders(column, from + 1).insert(from));
        } else {
            assert(holders(column, from) =~= holders(column, from + 1));
        }
    }
}

/// The first value from `from` on is at an index from `from` to the length,
/// and no value lies between `from` and that index.
pub proof fn lemma_first_present<C>(column: Seq<Option<C>>, from: int)
    requires
        0 <= from,
    ensures
        from <= first_present(column, from) || first_present(column, from) == column.len(),
        first_present(column, from) <= column.len(),
        first_present(column, from) < column.len() ==> column[first_present(
            column,
            from,
        )].is_some(),
        forall|i: int| from <= i < first_present(column, from) ==> (#[trigger] column[i]).is_none(),
    decreases column.len() - from,
{
    if from < column.len() && column[from].is_none() {
        lemma_first_present(column, from + 1);
    }
}

/// Counting the values from `from` on counts the first of them and those
/// after it.
pub proof fn lemma_count_from_first<C>(column: Seq<Option<C>>, from: int)
    requires
        0 <= from,
    ensures
        count_present(column, from) == if first_present(column, from) < column.len() {
            1 + count_present(column, first_present(column, from) + 1)
        } else {
            0
        },
    decreases column.len() - from,
{
    if from < column.len() && column[from].is_none() {
        lemma_count_from_first(column, from + 1);
    }
}

/// Walks over the components of one type, in ascending order of entity
/// identifier.
pub struct ComponentIter<'a, C> {
    ecs: &'a Ecs<C>,
    component_type: ComponentType,
    position: EntityId,
}

impl<'a, C> ComponentIter<'a, C> {
    /// The store that is walked over.
    pub closed spec fn store(&self) -> Ecs<C> {
        *self.ecs
    }

    /// The component type that is walked over.
    pub closed spec fn ty(&self) -> ComponentType {
        self.component_type
    }

    /// The identifier at which the search for the next component starts.
    pub closed spec fn cursor(&self) -> int {
        self.position as int
    }

    /// The cursor is an identifier, or the end of the column.
    pub proof fn lemma_cursor_bounds(&self)
        ensures
            0 <= self.cursor() <= usize::MAX,
    {
    }

    /// The column that is walked over: empty for a type without a column.
    pub open spec fn column(&self) -> Seq<Option<C>> {
        if self.store().types().contains(self.ty()) {
            self.store().storage(self.ty())
        } else {
            Seq::empty()
        }
    }

    /// An iterator over the components of type `component_type`, placed
    /// before the first of them.
    pub fn new(ecs: &'a Ecs<C>, component_type: ComponentType) -> (iter: Self)
        ensures
            iter.store() == *ecs,
            iter.ty() == component_type,
            iter.cursor() == 0,
    {
        ComponentIter { ecs, component_type, position: 0 }
    }

    /// The next component, or `None` where none is left.
    pub fn next(&mut self) -> (component: Option<&'a C>)
        requires
            old(self).store().wf(),
        ensures
            final(self).store() == old(self).store(),
            final(self).ty() == old(self).ty(),
            match component {
                Some(value) => {
                    let found = first_present(old(self).column(), old(self).cursor());
                    &&& found < old(self).column().len()
                    &&& old(self).column()[found] == Some(*value)
                    &&& old(self).store().slot(old(self).ty(), found as EntityId) == Some(*value)
                    &&& final(self).cursor() == found + 1
                },
                None => {
                    &&& first_present(old(self).column(), old(self).cursor()) == old(self).column().len()
                    &&& final(self).cursor() == old(self).column().len()
                },
            },
    {
        let ecs: &'a Ecs<C> = self.ecs;
        let k = match ecs.find_column(self.component_type) {
            Some(k) => k,
            None => {
                self.position = 0;
                return None;
            },
        };
        let ghost column = ecs.components@[k as int]@;
        assert(column == old(self).column());
        if self.position >= ecs.components[k].len() {
            self.position = ecs.components[k].len();
            return None;
        }
        let ghost start = self.position as int;
        while self.position < ecs.components[k].len()
            invariant
                self.ecs == ecs,
                ecs == old(self).ecs,
                self.component_type == old(self).component_type,
                k < ecs.components@.len(),
                column == ecs.components@[k as int]@,
                column == old(self).column(),
                start == old(self).cursor(),
                start <= self.position <= column.len(),
                first_present(column, start) == first_present(column, self.position as int),
            decreases column.len() - self.position,
        {
            let i = self.position;
            self.position += 1;
            match ecs.components[k][i].as_ref() {
                Some(value) => {
                    assert(column[i as int] == Some(*value));
                    assert(first_present(column, i as int) == i);
                    return Some(value);
                },
                None => {
                    assert(column[i as int].is_none());
                    assert(first_present(column, i as int) == first_present(column, i + 1));
                },
            }
        }
        None
    }

    /// Number of components that are left.
    pub fn count(self) -> (count: usize)
        requires
            self.store().wf(),
        ensures
            count == count_present(self.column(), self.cursor()),
            count == holders(self.column(), self.cursor()).len(),
    {
        proof {
            lemma_count_present_is_number_of_holders(self.column(), self.cursor());
        }
        let mut iter = self;
        let mut count: usize = 0;
        let ghost column = iter.column();
        loop
            invariant
                iter.store() == self.store(),
                iter.store().wf(),
                iter.ty() == self.ty(),
                column == iter.column(),
                0 <= iter.cursor(),
                count <= iter.cursor(),
                count + count_present(column, iter.cursor()) == count_present(
                    column,
                    self.cursor(),
                ),
                holders(column, self.cursor()).len() == count_present(column, self.cursor()),
            decreases column.len() + 1 - iter.cursor(),
        {
            proof {
                lemma_count_from_first(column, iter.cursor());
                lemma_first_present(column, iter.cursor());
            }
            match iter.next() {
                Some(_) => {
                    count += 1;
                },
                None => {
                    return count;
                },
            }
        }
    }

    /// The component that comes after `n` others, or `None` where there are
    /// not that many left.
    pub fn nth(&mut self, n: usize) -> (component: Option<&'a C>)
        requires
            old(self).store().wf(),
        ensures
            final(self).store() == old(self).store(),
            final(self).ty() == old(self).ty(),
            match component {
                Some(value) => {
                    let found = nth_present(old(self).column(), old(self).cursor(), n as nat);
                    &&& found < old(self).column().len()
                    &&& old(self).column()[found] == Some(*value)
                    &&& final(self).cursor() == found + 1
                },
                None => nth_present(old(self).column(), old(self).cursor(), n as nat) >= old(self).column().len(),
            },
    {
        let ghost column = self.column();
        let mut skipped: usize = 0;
        while skipped < n
            invariant
                self.store() == old(self).store(),
                self.store().wf(),
                self.ty() == old(self).ty(),
                column == self.column(),
                skipped <= n,
                nth_present(column, self.cursor(), (n - skipped) as nat) == nth_present(
                    column,
                    old(self).cursor(),
                    n as nat,
                ),
            decreases n - skipped,
        {
            match self.next() {
                Some(_) => {},
                None => {
                    proof {
                        lemma_nth_past_end(column, (column.len() + 1) as int, (n - skipped - 1) as nat);
                    }
                    return None;
                },
            }
            skipped += 1;
        }
        self.next()
    }
}

/// Walks over the components of one type, in ascending order of entity
/// identifier, and lets each be changed in place.
pub struct ComponentIterMut<'a, C> {
    pub ecs: &'a mut Ecs<C>,
    pub component_type: ComponentType,
    pub position: EntityId,
}

impl<'a, C> ComponentIterMut<'a, C> {
    /// An iterator over the components of type `component_type`, placed
    /// before the first of them.
    pub fn new(ecs: &'a mut Ecs<C>, component_type: ComponentType) -> (iter: Self)
        ensures
            *iter.ecs == *old(ecs),
            *final(iter.ecs) == *final(ecs),
            iter.component_type == component_type,
            iter.position == 0,
    {
        ComponentIterMut { ecs, component_type, position: 0 }
    }

    /// Mutable access to the next component, or `None` where none is left.
    /// What is written through the reference is what the entity then holds;
    /// nothing else in the store changes.
    pub fn next(&mut self) -> (component: Option<&mut C>)
        requires
            old(self).ecs.wf(),
        ensures
            final(self).component_type == old(self).component_type,
            final(self).ecs.wf(),
            final(self).ecs.ids() == old(self).ecs.ids(),
            final(self).ecs.types() == old(self).ecs.types(),
            *final(final(self).ecs) == *final(old(self).ecs),
            match component {
                Some(value) => {
                    let column = column_of(*old(self).ecs, old(self).component_type);
                    let found = first_present(column, old(self).position as int);
                    &&& found < column.len()
                    &&& column[found] == Some(*value)
                    &&& final(self).position == found + 1
                    &&& final(self).ecs.slot(old(self).component_type, found as EntityId) == Some(
                        *final(value),
                    )
                    &&& forall|ty: ComponentType, other: EntityId|
                        (ty != old(self).component_type || other != found) ==> #[trigger] final(self).ecs.slot(ty, other) == old(self).ecs.slot(ty, other)
                },
                None => {
                    let column = column_of(*old(self).ecs, old(self).component_type);
                    &&& first_present(column, old(self).position as int) == column.len()
                    &&& final(self).position == column.len()
                    &&& *final(self).ecs == *old(self).ecs
                },
            },
    {
        let k = match self.ecs.find_column(self.component_type) {
            Some(k) => k,
            None => {
                self.position = 0;
                return None;
            },
        };
        let ghost column = self.ecs.components@[k as int]@;
        assert(column == column_of(*old(self).ecs, old(self).component_type));
        if self.position >= self.ecs.components[k].len() {
            self.position = self.ecs.components[k].len();
            return None;
        }
        let ghost start = self.position as int;
        while self.position < self.ecs.components[k].len()
            invariant
                *self.ecs == *old(self).ecs,
                *final(self.ecs) == *final(old(self).ecs),
                self.ecs.wf(),
                self.component_type == old(self).component_type,
                k < self.ecs.components@.len(),
                self.ecs.types().contains(self.component_type),
                self.ecs.types().index_of(self.component_type) == k,
                column == self.ecs.components@[k as int]@,
                column == column_of(*old(self).ecs, old(self).component_type),
                start == old(self).position as int,
                start <= self.position <= column.len(),
                first_present(column, start) == first_present(column, self.position as int),
            decreases column.len() - self.position,
        {
            let i = self.position;
            self.position += 1;
            if self.ecs.components[k][i].is_some() {
                assert(first_present(column, i as int) == i);
                return self.ecs.component_mut(self.component_type, i);
            }
            assert(column[i as int].is_none());
            assert(first_present(column, i as int) == first_present(column, i + 1));
        }
        None
    }
}

/// The column of component type `ty` in `ecs`: empty for a type without a
/// column.
pub open spec fn column_of<C>(ecs: Ecs<C>, ty: ComponentType) -> Seq<Option<C>> {
    if ecs.types().contains(ty) {
        ecs.storage(ty)
    } else {
        Seq::empty()
    }
}

/// From the end of the column on there is no value to find.
pub proof fn lemma_nth_past_end<C>(column: Seq<Option<C>>, from: int, skip: nat)
    requires
        from >= column.len(),
    ensures
        nth_present(column, from, skip) >= column.len(),
    decreases skip,
{
    if skip > 0 {
        lemma_nth_past_end(column, first_present(column, from) + 1, (skip - 1) as nat);
    }
}

/// The value that a list of typed components gives for component type `ty`:
/// that of the last entry of that type.
pub open spec fn last_value<C>(components: Seq<(ComponentType, C)>, ty: ComponentType) -> Option<C>
    decreases components.len(),
{
    if components.len() == 0 {
        None
    } else if components.last().0 == ty {
        Some(components.last().1)
    } else {
        last_value(components.drop_last(), ty)
    }
}

/// With one more entry in front, a list gives the values it gave, and the
/// new entry's value for a type it had none for.
pub proof fn lemma_last_value_prepend<C>(
    entry: (ComponentType, C),
    components: Seq<(ComponentType, C)>,
    ty: ComponentType,
)
    ensures
        last_value(seq![entry] + components, ty) == if last_value(components, ty).is_some() {
            last_value(components, ty)
        } else if entry.0 == ty {
            Some(entry.1)
        } else {
            None
        },
    decreases components.len(),
{
    let longer = seq![entry] + components;
    if components.len() == 0 {
        assert(longer.last() == entry);
        assert(longer.drop_last() =~= Seq::<(ComponentType, C)>::empty());
    } else {
        assert(longer.last() == components.last());
        assert(longer.drop_last() =~= seq![entry] + components.drop_last());
        lemma_last_value_prepend(entry, components.drop_last(), ty);
    }
}

/// Collects the components of an entity that is being created.
pub struct EntityBuilder<'a, C> {
    pub ecs: &'a mut Ecs<C>,
    pub components: Vec<(ComponentType, C)>,
}

impl<'a, C> EntityBuilder<'a, C> {
    /// A builder for a new entity of `ecs`, without components yet.
    pub fn new(ecs: &'a mut Ecs<C>) -> (builder: Self)
        ensures
            *builder.ecs == *old(ecs),
            *final(builder.ecs) == *final(ecs),
            builder.components@ == Seq::<(ComponentType, C)>::empty(),
    {
        EntityBuilder { ecs, components: Vec::new() }
    }

    /// Adds a component of type `component_type` to the entity that is being
    /// created.
    pub fn with_component(self, component_type: ComponentType, component: C) -> (builder: Self)
        ensures
            *builder.ecs == *old(self.ecs),
            *final(builder.ecs) == *final(self.ecs),
            builder.components@ == self.components@.push((component_type, component)),
    {
        let mut builder = self;
        builder.components.push((component_type, component));
        builder
    }

    /// Creates the entity and returns its identifier: the one released last,
    /// or a new one. The entity holds, for each component type, the value
    /// that was added last; every other entity keeps its components.
    pub fn build(self) -> (id: EntityId)
        requires
            old(self.ecs).wf(),
            old(self.ecs).ids().can_allocate(),
        ensures
            final(self.ecs).wf(),
            id == old(self.ecs).ids().allocate_id(),
            final(self.ecs).ids() == old(self.ecs).ids().after_allocate(),
            !old(self.ecs).ids().is_live(id),
            final(self.ecs).ids().is_live(id),
            forall|ty: ComponentType| #[trigger]
                final(self.ecs).slot(ty, id) == last_value(self.components@, ty),
            forall|ty: ComponentType, other: EntityId|
                other != id ==> #[trigger] final(self.ecs).slot(ty, other) == old(self.ecs).slot(
                    ty,
                    other,
                ),
    {
        let ecs = self.ecs;
        let mut pending = self.components;
        let ghost all = pending@;
        proof {
            ecs.ids().lemma_allocate_is_fresh();
        }
        let id = ecs.fetch_next_entity_id();
        let ghost start = *ecs;
        proof {
            assert(all.subrange(all.len() as int, all.len() as int) =~= Seq::<
                (ComponentType, C),
            >::empty());
        }
        while pending.len() > 0
            invariant
                ecs.wf(),
                ecs.ids() == start.ids(),
                ecs.ids().is_live(id),
                pending@.len() <= all.len(),
                pending@ == all.subrange(0, pending@.len() as int),
                forall|ty: ComponentType| #[trigger]
                    ecs.slot(ty, id) == last_value(
                        all.subrange(pending@.len() as int, all.len() as int),
                        ty,
                    ),
                forall|ty: ComponentType, other: EntityId|
                    other != id ==> #[trigger] ecs.slot(ty, other) == start.slot(ty, other),
            decreases pending@.len(),
        {
            let ghost before = *ecs;
            let ghost done = all.subrange(pending@.len() as int, all.len() as int);
            let ghost remaining = pending@.len();
            let (component_type, component) = pending.pop().unwrap();
            proof {
                assert(all[remaining - 1] == (component_type, component));
                assert(all.subrange(remaining - 1, all.len() as int) =~= seq![
                    (component_type, component),
                ] + done);
                assert(pending@ =~= all.subrange(0, remaining - 1));
            }
            if ecs.component(component_type, id).is_none() {
                ecs.set_component(component_type, id, component);
            }
            proof {
                assert forall|ty: ComponentType| #[trigger]
                    ecs.slot(ty, id) == last_value(
                        all.subrange(pending@.len() as int, all.len() as int),
                        ty,
                    ) by {
                    lemma_last_value_prepend((component_type, component), done, ty);
                    assert(before.slot(ty, id) == last_value(done, ty));
                }
                assert forall|ty: ComponentType, other: EntityId|
                    other != id implies #[trigger] ecs.slot(ty, other) == start.slot(ty, other) by {
                    assert(before.slot(ty, other) == start.slot(ty, other));
                }
            }
        }
        proof {
            assert(all.subrange(0, all.len() as int) =~= all);
        }
        id
    }
}

} // verus!
