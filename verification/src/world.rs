//! The store: the registry that maps each signature to its archetype, and the
//! allocator of entity identifiers.

use vstd::prelude::*;
use crate::archetype::next_capacity;
use crate::archetype::Archetype;
use crate::components::ComponentsDefinition;
use crate::entity::EntityId;
use crate::entity::EntityStore;
use crate::entity::IdPool;
use crate::layout::buffer_size;
use crate::layout::compute_layout;
use crate::layout::ComponentType;
use crate::layout::TypeMetadata;
use crate::signature::has_type;
use crate::signature::has_types;
use crate::signature::ComponentsMetadata;

verus! {

/// All entities, grouped into one archetype per signature.
pub struct Ecs {
    archetypes: Vec<Archetype>,
    entity_store: EntityStore,
}

/// No archetype of `archetypes` has the signature `signature`.
pub open spec fn no_archetype_for(
    archetypes: Seq<Archetype>,
    signature: Seq<TypeMetadata>,
) -> bool {
    forall|i: int| 0 <= i < archetypes.len() ==> (#[trigger] archetypes[i]).metadata() != signature
}

/// `after` is `before` with one more slot, occupied by `id`, that holds the
/// values `definition` gives; what `before` stored is still there.
pub open spec fn entity_added<D: ComponentsDefinition>(
    before: Archetype,
    after: Archetype,
    id: EntityId,
    definition: D,
) -> bool {
    &&& after.metadata() == before.metadata()
    &&& after.entities() == before.entities().push(id)
    &&& after.spec_entity_count() == before.spec_entity_count() + 1
    &&& after.spec_capacity() == if before.spec_entity_count() == before.spec_capacity() {
        next_capacity(before.spec_capacity())
    } else {
        before.spec_capacity()
    }
    &&& forall|column: nat|
        column < after.metadata().len() ==> #[trigger] after.component(
            column,
            before.spec_entity_count(),
        ) == definition.value(after.metadata()[column as int].component_type)
    &&& forall|column: nat, slot: nat|
        column < after.metadata().len() && slot < before.spec_entity_count()
            ==> #[trigger] after.component(column, slot) == before.component(column, slot)
}

/// The entities of the first `n` archetypes whose signature holds every type
/// in `types`: archetype by archetype, each in slot order.
pub open spec fn query_result(
    archetypes: Seq<Archetype>,
    types: Seq<ComponentType>,
    n: nat,
) -> Seq<EntityId>
    decreases n,
{
    if n == 0 {
        Seq::empty()
    } else {
        let rest = query_result(archetypes, types, (n - 1) as nat);
        if has_types(archetypes[n - 1].metadata(), types) {
            rest + archetypes[n - 1].entities()
        } else {
            rest
        }
    }
}

/// The result over the first `n` archetypes holds an entity exactly where one
/// of those archetypes stores it and has every requested type.
pub proof fn lemma_query_result_contains(
    archetypes: Seq<Archetype>,
    types: Seq<ComponentType>,
    n: nat,
    id: EntityId,
)
    requires
        n <= archetypes.len(),
    ensures
        query_result(archetypes, types, n).contains(id) <==> exists|a: int|
            0 <= a < n && has_types((#[trigger] archetypes[a]).metadata(), types)
                && archetypes[a].entities().contains(id),
    decreases n,
{
    if n > 0 {
        let rest = query_result(archetypes, types, (n - 1) as nat);
        let all = query_result(archetypes, types, n);
        let top = archetypes[n - 1];
        lemma_query_result_contains(archetypes, types, (n - 1) as nat, id);
        if all.contains(id) {
            let k = choose|k: int| 0 <= k < all.len() && all[k] == id;
            if has_types(top.metadata(), types) && k >= rest.len() {
                assert(top.entities()[k - rest.len()] == id);
                assert(has_types(archetypes[n - 1].metadata(), types) && archetypes[n
                    - 1].entities().contains(id));
            } else {
                assert(rest[k] == id);
                assert(rest.contains(id));
            }
        }
        if exists|a: int|
            0 <= a < n && has_types((#[trigger] archetypes[a]).metadata(), types)
                && archetypes[a].entities().contains(id) {
            let a = choose|a: int|
                0 <= a < n && has_types((#[trigger] archetypes[a]).metadata(), types)
                    && archetypes[a].entities().contains(id);
            if a == n - 1 {
                let s = choose|s: int| 0 <= s < top.entities().len() && top.entities()[s] == id;
                assert(all[rest.len() + s] == id);
            } else {
                assert(rest.contains(id));
                let k = choose|k: int| 0 <= k < rest.len() && rest[k] == id;
                assert(all[k] == id);
            }
        }
    }
}

impl Ecs {
    /// The archetypes, in order of creation.
    pub closed spec fn archetypes(&self) -> Seq<Archetype> {
        self.archetypes@
    }

    /// The state of the identifier allocator.
    pub closed spec fn ids(&self) -> IdPool {
        self.entity_store@
    }

    /// Slot `slot` of archetype `archetype` is occupied by entity `id`.
    pub open spec fn stores(&self, archetype: int, slot: int, id: EntityId) -> bool {
        &&& 0 <= archetype < self.archetypes().len()
        &&& 0 <= slot < self.archetypes()[archetype].entities().len()
        &&& self.archetypes()[archetype].entities()[slot] == id
    }

    /// Every archetype is well formed, no two have the same signature, the
    /// allocator is well formed, and every stored entity is live and occupies
    /// one slot only.
    pub open spec fn wf(&self) -> bool {
        &&& self.ids().wf()
        &&& forall|i: int| 0 <= i < self.archetypes().len() ==> (#[trigger] self.archetypes()[i]).wf()
        &&& forall|i: int, j: int|
            0 <= i < j < self.archetypes().len() ==> (#[trigger] self.archetypes()[i]).metadata()
                != (#[trigger] self.archetypes()[j]).metadata()
        &&& forall|a: int, s: int, id: EntityId| #[trigger]
            self.stores(a, s, id) ==> self.ids().is_live(id)
        &&& forall|a: int, s: int, b: int, t: int, id: EntityId|
            #[trigger] self.stores(a, s, id) && #[trigger] self.stores(b, t, id) ==> a == b && s
                == t
    }

    /// Entity `id` occupies slot `slot` of archetype `archetype`, whose
    /// column `column` holds the components of type `ty`.
    pub open spec fn holds(
        &self,
        archetype: int,
        slot: int,
        column: int,
        id: EntityId,
        ty: ComponentType,
    ) -> bool {
        &&& self.stores(archetype, slot, id)
        &&& 0 <= column < self.archetypes()[archetype].metadata().len()
        &&& self.archetypes()[archetype].metadata()[column].component_type == ty
    }

    /// The bytes of the component of type `ty` that entity `id` holds, if any.
    pub open spec fn component_of(&self, id: EntityId, ty: ComponentType) -> Option<Seq<u8>> {
        if exists|a: int, s: int, c: int| self.holds(a, s, c, id, ty) {
            let (a, s, c) = choose|a: int, s: int, c: int| self.holds(a, s, c, id, ty);
            Some(self.archetypes()[a].component(c as nat, s as nat))
        } else {
            None
        }
    }

    /// An identifier is left, and the archetype of `signature` has room for
    /// one more slot or can grow.
    pub open spec fn can_create(&self, signature: Seq<TypeMetadata>) -> bool {
        &&& self.ids().can_allocate()
        &&& forall|i: int|
            0 <= i < self.archetypes().len() && (#[trigger] self.archetypes()[i]).metadata()
                == signature ==> self.archetypes()[i].can_reserve()
        &&& no_archetype_for(self.archetypes(), signature) ==> buffer_size(signature, 1)
            <= usize::MAX
    }

    /// An entity's component of a type is the one in its slot of the column
    /// of that type: there is no second place to find it.
    pub proof fn lemma_component_at(
        &self,
        archetype: int,
        slot: int,
        column: int,
        id: EntityId,
        ty: ComponentType,
    )
        requires
            self.wf(),
            self.holds(archetype, slot, column, id, ty),
        ensures
            self.component_of(id, ty) == Some(
                self.archetypes()[archetype].component(column as nat, slot as nat),
            ),
    {
        let (a, s, c) = choose|a: int, s: int, c: int| self.holds(a, s, c, id, ty);
        assert(self.stores(a, s, id) && self.stores(archetype, slot, id));
        self.archetypes()[archetype].lemma_wf();
        let meta = self.archetypes()[archetype].metadata();
        if c < column {
            assert(meta[c].component_type < meta[column].component_type);
        }
        if column < c {
            assert(meta[column].component_type < meta[c].component_type);
        }
    }

    /// A store without entities and without archetypes.
    pub fn new() -> (ecs: Ecs)
        ensures
            ecs.wf(),
            ecs.archetypes() == Seq::<Archetype>::empty(),
            ecs.ids().next_id == 0,
            ecs.ids().free_list == Seq::<EntityId>::empty(),
    {
        Ecs { archetypes: Vec::new(), entity_store: EntityStore::new() }
    }

    /// Number of live entities.
    pub fn entity_count(&self) -> (count: usize)
        requires
            self.wf(),
        ensures
            count == self.ids().live_count(),
    {
        self.entity_store.entity_count()
    }

    /// Tells whether `id` is the identifier of a live entity.
    pub fn is_live(&self, id: EntityId) -> (live: bool)
        ensures
            live == self.ids().is_live(id),
    {
        self.entity_store.is_live(id)
    }

    /// Number of archetypes.
    pub fn archetype_count(&self) -> (count: usize)
        ensures
            count == self.archetypes().len(),
    {
        self.archetypes.len()
    }

    /// Position of the archetype with the signature `metadata`, if there is one.
    pub fn find_archetype(&self, metadata: &ComponentsMetadata) -> (found: Option<usize>)
        ensures
            match found {
                Some(i) => i < self.archetypes().len() && self.archetypes()[i as int].metadata()
                    == metadata@,
                None => no_archetype_for(self.archetypes(), metadata@),
            },
    {
        let mut i: usize = 0;
        while i < self.archetypes.len()
            invariant
                i <= self.archetypes@.len(),
                forall|k: int|
                    0 <= k < i ==> (#[trigger] self.archetypes@[k]).metadata() != metadata@,
            decreases self.archetypes@.len() - i,
        {
            if self.archetypes[i].components_metadata().same_signature(metadata) {
                return Some(i);
            }
            i += 1;
        }
        None
    }

    /// The archetype with the signature `metadata`, if there is one.
    pub fn archetype(&self, metadata: &ComponentsMetadata) -> (found: Option<&Archetype>)
        ensures
            match found {
                Some(archetype) => archetype.metadata() == metadata@ && self.archetypes().contains(
                    *archetype,
                ),
                None => no_archetype_for(self.archetypes(), metadata@),
            },
    {
        match self.find_archetype(metadata) {
            Some(i) => {
                assert(self.archetypes@[i as int] == self.archetypes@[i as int]);
                Some(&self.archetypes[i])
            },
            None => None,
        }
    }

    /// Position of the archetype with the signature `metadata`. Where there
    /// is none yet, an empty one is appended.
    pub fn get_or_insert_archetype(&mut self, metadata: ComponentsMetadata) -> (index: usize)
        requires
            old(self).wf(),
            metadata.wf(),
        ensures
            final(self).wf(),
            final(self).ids() == old(self).ids(),
            index < final(self).archetypes().len(),
            final(self).archetypes()[index as int].metadata() == metadata@,
            !no_archetype_for(old(self).archetypes(), metadata@) ==> final(self).archetypes()
                == old(self).archetypes(),
            no_archetype_for(old(self).archetypes(), metadata@) ==> {
                &&& index == old(self).archetypes().len()
                &&& final(self).archetypes().len() == index + 1
                &&& final(self).archetypes().subrange(0, index as int) == old(self).archetypes()
                &&& final(self).archetypes()[index as int].spec_entity_count() == 0
                &&& final(self).archetypes()[index as int].spec_capacity() == 0
                &&& final(self).archetypes()[index as int].entities() == Seq::<EntityId>::empty()
            },
    {
        match self.find_archetype(&metadata) {
            Some(i) => i,
            None => {
                let index = self.archetypes.len();
                self.archetypes.push(Archetype::new(metadata));
                proof {
                    assert(self.archetypes@.subrange(0, index as int) =~= old(self).archetypes@);
                    assert forall|a: int, s: int, id: EntityId| #[trigger]
                        self.stores(a, s, id) implies old(self).stores(a, s, id) by {
                        if a < index {
                            assert(self.archetypes@[a] == old(self).archetypes@[a]);
                        }
                    }
                }
                index
            },
        }
    }

    /// Tells whether an entity with the components of `definition` can be
    /// created.
    pub fn can_create_entity<D: ComponentsDefinition>(&self, definition: &D) -> (possible: bool)
        requires
            self.wf(),
            definition.wf(),
        ensures
            possible == self.can_create(definition.signature()),
    {
        if !self.entity_store.can_allocate() {
            return false;
        }
        let metadata = definition.metadata();
        match self.find_archetype(&metadata) {
            Some(i) => {
                let possible = self.archetypes[i].can_reserve_slot();
                proof {
                    assert forall|k: int|
                        0 <= k < self.archetypes().len() && (#[trigger] self.archetypes()[k]).metadata()
                            == metadata@ implies k == i by {
                        if k < i {
                            assert(self.archetypes()[k].metadata() != self.archetypes()[i as int].metadata());
                        }
                        if i < k {
                            assert(self.archetypes()[i as int].metadata() != self.archetypes()[k].metadata());
                        }
                    }
                }
                possible
            },
            None => compute_layout(&metadata.types_metadata, 1).is_some(),
        }
    }

    /// Creates an entity with the components of `components_definition` and
    /// returns its identifier. The entity takes the next slot of the archetype
    /// of its signature; every other entity keeps its components.
    pub fn create_entity<D: ComponentsDefinition>(&mut self, components_definition: D) -> (id:
        EntityId)
        requires
            old(self).wf(),
            components_definition.wf(),
            old(self).can_create(components_definition.signature()),
        ensures
            final(self).wf(),
            id == old(self).ids().allocate_id(),
            final(self).ids() == old(self).ids().after_allocate(),
            forall|i: int|
                0 <= i < old(self).archetypes().len() && (#[trigger] old(self).archetypes()[i]).metadata() != components_definition.signature() ==> final(self).archetypes()[i] == old(self).archetypes()[i],
            forall|i: int|
                0 <= i < old(self).archetypes().len() && (#[trigger] old(self).archetypes()[i]).metadata() == components_definition.signature()
                    ==> final(self).archetypes().len() == old(self).archetypes().len()
                    && entity_added(
                    old(self).archetypes()[i],
                    final(self).archetypes()[i],
                    id,
                    components_definition,
                ),
            forall|ty: ComponentType| #[trigger]
                final(self).component_of(id, ty) == if has_type(
                    components_definition.signature(),
                    ty,
                ) {
                    Some(components_definition.value(ty))
                } else {
                    None
                },
            forall|other: EntityId, ty: ComponentType|
                other != id ==> #[trigger] final(self).component_of(other, ty) == old(self).component_of(other, ty),
            no_archetype_for(old(self).archetypes(), components_definition.signature()) ==> {
                let last = old(self).archetypes().len() as int;
                &&& final(self).archetypes().len() == last + 1
                &&& final(self).archetypes()[last].metadata() == components_definition.signature()
                &&& final(self).archetypes()[last].entities() == seq![id]
                &&& final(self).archetypes()[last].spec_entity_count() == 1
                &&& final(self).archetypes()[last].spec_capacity() == 1
                &&& forall|column: nat|
                    column < components_definition.signature().len() ==> #[trigger] final(self).archetypes()[last].component(column, 0) == components_definition.value(
                        components_definition.signature()[column as int].component_type,
                    )
            },
    {
        let metadata = components_definition.metadata();
        let index = self.get_or_insert_archetype(metadata);
        let ghost registered = *self;
        let ghost before = self.archetypes@[index as int];
        proof {
            before.lemma_wf();
            old(self).ids().lemma_allocate_is_fresh();
            if no_archetype_for(old(self).archetypes(), components_definition.signature()) {
                crate::layout::lemma_empty_capacity(before.metadata(), 0);
            } else {
                assert(registered.archetypes() == old(self).archetypes());
            }
        }
        let entity_id = self.entity_store.allocate_entity();
        let data_index = self.archetypes[index].allocate_storage_for_entity(entity_id);
        let ghost reserved = self.archetypes@[index as int];
        components_definition.store_components(&mut self.archetypes[index], data_index);
        proof {
            let after = self.archetypes@[index as int];
            assert(self.archetypes@ =~= registered.archetypes().update(index as int, after));
            assert forall|column: nat, slot: nat|
                column < after.metadata().len() && slot < before.spec_entity_count()
                    implies #[trigger] after.component(column, slot) == before.component(
                column,
                slot,
            ) by {
                reserved.lemma_wf();
                assert(reserved.component(column, slot) == before.component(column, slot));
            }
            assert(entity_added(before, after, entity_id, components_definition));
            assert forall|i: int, j: int|
                0 <= i < j < self.archetypes@.len() implies (#[trigger] self.archetypes@[i]).metadata()
                != (#[trigger] self.archetypes@[j]).metadata() by {
                assert(registered.archetypes()[i].metadata() != registered.archetypes()[j].metadata());
            }
            assert forall|i: int|
                0 <= i < old(self).archetypes().len() && (#[trigger] old(self).archetypes()[i]).metadata() == components_definition.signature() implies i
                == index by {
                assert(registered.archetypes()[i] == old(self).archetypes()[i]);
                if i < index {
                    assert(registered.archetypes()[i].metadata() != registered.archetypes()[index as int].metadata());
                }
                if index < i {
                    assert(registered.archetypes()[index as int].metadata() != registered.archetypes()[i].metadata());
                }
            }
            if no_archetype_for(old(self).archetypes(), components_definition.signature()) {
                assert(after.entities() =~= seq![entity_id]);
            }
            let last = before.entities().len() as int;
            assert forall|a: int, s: int, id: EntityId| #[trigger]
                self.stores(a, s, id) implies (a == index && s == last && id == entity_id) || (
            registered.stores(a, s, id) && id != entity_id) by {
                if a != index || s != last {
                    assert(registered.stores(a, s, id));
                    assert(registered.ids().is_live(id));
                }
            }
            assert forall|a: int, s: int, id: EntityId| #[trigger]
                self.stores(a, s, id) implies self.ids().is_live(id) by {
                if !(a == index && s == last && id == entity_id) {
                    assert(registered.stores(a, s, id));
                }
            }
            assert forall|a: int, s: int, b: int, t: int, id: EntityId|
                #[trigger] self.stores(a, s, id) && #[trigger] self.stores(b, t, id) implies a == b
                && s == t by {
                if id != entity_id {
                    assert(registered.stores(a, s, id));
                    assert(registered.stores(b, t, id));
                }
            }
            assert(self.wf());
            assert(self.stores(index as int, last, entity_id));
            let signature = components_definition.signature();
            assert forall|ty: ComponentType| #[trigger]
                self.component_of(entity_id, ty) == if has_type(signature, ty) {
                    Some(components_definition.value(ty))
                } else {
                    None
                } by {
                if has_type(signature, ty) {
                    let c = choose|c: int|
                        0 <= c < signature.len() && (#[trigger] signature[c]).component_type == ty;
                    assert(self.holds(index as int, last, c, entity_id, ty));
                    self.lemma_component_at(index as int, last, c, entity_id, ty);
                    assert(after.component(c as nat, before.spec_entity_count())
                        == components_definition.value(after.metadata()[c].component_type));
                } else {
                    if exists|a: int, s: int, c: int| self.holds(a, s, c, entity_id, ty) {
                        let (a, s, c) = choose|a: int, s: int, c: int|
                            self.holds(a, s, c, entity_id, ty);
                        assert(self.stores(a, s, entity_id));
                        assert(signature[c].component_type == ty);
                    }
                }
            }
            assert forall|other: EntityId, ty: ComponentType|
                other != entity_id implies #[trigger] self.component_of(other, ty) == old(self).component_of(other, ty) by {
                if exists|a: int, s: int, c: int| old(self).holds(a, s, c, other, ty) {
                    let (a, s, c) = choose|a: int, s: int, c: int|
                        old(self).holds(a, s, c, other, ty);
                    assert(old(self).stores(a, s, other));
                    assert(registered.archetypes()[a] == old(self).archetypes()[a]);
                    assert(registered.stores(a, s, other));
                    assert(self.stores(a, s, other));
                    assert(self.holds(a, s, c, other, ty));
                    old(self).lemma_component_at(a, s, c, other, ty);
                    self.lemma_component_at(a, s, c, other, ty);
                    if a == index {
                        assert(after.component(c as nat, s as nat) == before.component(
                            c as nat,
                            s as nat,
                        ));
                    }
                } else {
                    if exists|a: int, s: int, c: int| self.holds(a, s, c, other, ty) {
                        let (a, s, c) = choose|a: int, s: int, c: int|
                            self.holds(a, s, c, other, ty);
                        assert(self.stores(a, s, other));
                        assert(registered.stores(a, s, other));
                        assert(old(self).stores(a, s, other));
                        assert(registered.archetypes()[a] == old(self).archetypes()[a]);
                        assert(old(self).holds(a, s, c, other, ty));
                    }
                }
            }
        }
        entity_id
    }

    /// The archetype and the slot that hold entity `id`, if it is stored.
    pub fn locate(&self, id: EntityId) -> (found: Option<(usize, usize)>)
        requires
            self.wf(),
        ensures
            match found {
                Some((archetype, slot)) => self.stores(archetype as int, slot as int, id),
                None => forall|a: int, s: int| !self.stores(a, s, id),
            },
    {
        let mut a: usize = 0;
        while a < self.archetypes.len()
            invariant
                self.wf(),
                a <= self.archetypes@.len(),
                forall|b: int, s: int| 0 <= b < a ==> !self.stores(b, s, id),
            decreases self.archetypes@.len() - a,
        {
            assert(self.archetypes()[a as int].wf());
            match self.archetypes[a].find_entity(id) {
                Some(slot) => {
                    proof {
                        self.archetypes@[a as int].lemma_wf();
                    }
                    return Some((a, slot));
                },
                None => {
                    assert forall|s: int| !self.stores(a as int, s, id) by {
                        if self.stores(a as int, s, id) {
                            assert(self.archetypes@[a as int].entities().contains(id));
                        }
                    }
                },
            }
            a += 1;
        }
        None
    }

    /// The bytes of the component of type `ty` of entity `id`, or `None`
    /// where the entity is not stored or holds no such component.
    pub fn component(&self, id: EntityId, ty: ComponentType) -> (component: Option<&[u8]>)
        requires
            self.wf(),
        ensures
            match component {
                Some(bytes) => self.component_of(id, ty) == Some(bytes@),
                None => self.component_of(id, ty).is_none(),
            },
    {
        let (a, slot) = match self.locate(id) {
            Some(place) => place,
            None => {
                return None;
            },
        };
        proof {
            assert(self.archetypes()[a as int].wf());
            self.archetypes@[a as int].lemma_wf();
        }
        match self.archetypes[a].components_metadata().index_of(ty) {
            Some(column) => {
                proof {
                    self.lemma_component_at(a as int, slot as int, column as int, id, ty);
                }
                Some(self.archetypes[a].component_bytes(column, slot))
            },
            None => {
                proof {
                    if exists|b: int, s: int, c: int| self.holds(b, s, c, id, ty) {
                        let (b, s, c) = choose|b: int, s: int, c: int| self.holds(b, s, c, id, ty);
                        assert(self.stores(b, s, id) && self.stores(a as int, slot as int, id));
                        assert(self.archetypes@[a as int].metadata()[c].component_type == ty);
                    }
                }
                None
            },
        }
    }

    /// Replaces the component of type `ty` of entity `id` by `bytes`, where
    /// the entity holds such a component and `bytes` has the size of the type.
    /// Returns whether it did; nothing else changes.
    pub fn set_component(&mut self, id: EntityId, ty: ComponentType, bytes: &[u8]) -> (written:
        bool)
        requires
            old(self).wf(),
        ensures
            final(self).wf(),
            final(self).ids() == old(self).ids(),
            written == match old(self).component_of(id, ty) {
                Some(previous) => previous.len() == bytes@.len(),
                None => false,
            },
            written ==> final(self).component_of(id, ty) == Some(bytes@),
            !written ==> final(self).archetypes() == old(self).archetypes(),
            forall|a: int, s: int, other: EntityId| #[trigger]
                final(self).stores(a, s, other) == old(self).stores(a, s, other),
            forall|other: EntityId, other_ty: ComponentType|
                (other != id || other_ty != ty) ==> #[trigger] final(self).component_of(
                    other,
                    other_ty,
                ) == old(self).component_of(other, other_ty),
    {
        let (a, slot) = match self.locate(id) {
            Some(place) => place,
            None => {
                return false;
            },
        };
        proof {
            assert(self.archetypes()[a as int].wf());
            self.archetypes@[a as int].lemma_wf();
        }
        let column = match self.archetypes[a].components_metadata().index_of(ty) {
            Some(column) => column,
            None => {
                proof {
                    if exists|b: int, s: int, c: int| self.holds(b, s, c, id, ty) {
                        let (b, s, c) = choose|b: int, s: int, c: int| self.holds(b, s, c, id, ty);
                        assert(self.stores(b, s, id) && self.stores(a as int, slot as int, id));
                        assert(self.archetypes@[a as int].metadata()[c].component_type == ty);
                    }
                }
                return false;
            },
        };
        proof {
            self.lemma_component_at(a as int, slot as int, column as int, id, ty);
            crate::archetype::lemma_slot_in_column(
                self.archetypes@[a as int].metadata(),
                self.archetypes@[a as int].spec_capacity(),
                column as nat,
                slot as nat,
            );
        }
        let size: usize = self.archetypes[a].components_metadata().types_metadata[column].size;
        if bytes.len() != size {
            return false;
        }
        self.archetypes[a].store_component(bytes, column, slot);
        proof {
            let before = old(self).archetypes@[a as int];
            let after = self.archetypes@[a as int];
            assert(self.archetypes@ =~= old(self).archetypes@.update(a as int, after));
            assert forall|b: int, s: int, other: EntityId| #[trigger]
                self.stores(b, s, other) == old(self).stores(b, s, other) by {
                if 0 <= b < self.archetypes@.len() {
                    assert(self.archetypes@[b].entities() == old(self).archetypes@[b].entities());
                }
            }
            assert forall|i: int, j: int|
                0 <= i < j < self.archetypes@.len() implies (#[trigger] self.archetypes@[i]).metadata()
                != (#[trigger] self.archetypes@[j]).metadata() by {
                assert(old(self).archetypes@[i].metadata() != old(self).archetypes@[j].metadata());
            }
            assert forall|b: int, s: int, other: EntityId| #[trigger]
                self.stores(b, s, other) implies self.ids().is_live(other) by {
                assert(old(self).stores(b, s, other));
            }
            assert forall|b: int, s: int, d: int, t: int, other: EntityId|
                #[trigger] self.stores(b, s, other) && #[trigger] self.stores(
                    d,
                    t,
                    other,
                ) implies b == d && s == t by {
                assert(old(self).stores(b, s, other) && old(self).stores(d, t, other));
            }
            assert(self.wf());
            self.lemma_component_at(a as int, slot as int, column as int, id, ty);
            assert forall|other: EntityId, other_ty: ComponentType|
                (other != id || other_ty != ty) implies #[trigger] self.component_of(
                other,
                other_ty,
            ) == old(self).component_of(other, other_ty) by {
                if exists|b: int, s: int, c: int| old(self).holds(b, s, c, other, other_ty) {
                    let (b, s, c) = choose|b: int, s: int, c: int|
                        old(self).holds(b, s, c, other, other_ty);
                    assert(old(self).stores(b, s, other));
                    assert(self.stores(b, s, other));
                    assert(self.holds(b, s, c, other, other_ty));
                    old(self).lemma_component_at(b, s, c, other, other_ty);
                    self.lemma_component_at(b, s, c, other, other_ty);
                    if b == a {
                        old(self).archetypes@[b].lemma_wf();
                        if s == slot {
                            assert(old(self).stores(a as int, slot as int, id));
                            assert(other == id);
                            assert(c != column);
                        }
                        assert(after.component(c as nat, s as nat) == before.component(
                            c as nat,
                            s as nat,
                        ));
                    }
                } else {
                    if exists|b: int, s: int, c: int| self.holds(b, s, c, other, other_ty) {
                        let (b, s, c) = choose|b: int, s: int, c: int|
                            self.holds(b, s, c, other, other_ty);
                        assert(self.stores(b, s, other));
                        assert(old(self).stores(b, s, other));
                        assert(old(self).holds(b, s, c, other, other_ty));
                    }
                }
            }
        }
        true
    }

    /// Removes entity `id`: it is stored nowhere afterwards and holds no
    /// component, its identifier is the next one to be handed out again, and
    /// every other entity keeps its components.
    pub fn remove_entity(&mut self, id: EntityId)
        requires
            old(self).wf(),
            old(self).ids().is_live(id),
        ensures
            final(self).wf(),
            final(self).ids() == old(self).ids().after_release(id),
            final(self).archetypes().len() == old(self).archetypes().len(),
            forall|a: int, s: int| !final(self).stores(a, s, id),
            forall|ty: ComponentType| (#[trigger] final(self).component_of(id, ty)).is_none(),
            forall|other: EntityId, ty: ComponentType|
                other != id ==> #[trigger] final(self).component_of(other, ty) == old(self).component_of(other, ty),
    {
        proof {
            old(self).ids().lemma_release(id);
        }
        match self.locate(id) {
            Some((a, slot)) => {
                let ghost before = self.archetypes@[a as int];
                proof {
                    assert(self.archetypes()[a as int].wf());
                    before.lemma_wf();
                }
                self.archetypes[a].remove_slot(slot);
                self.entity_store.free_entity(id);
                proof {
                    let after = self.archetypes@[a as int];
                    let last = before.entities().len() - 1;
                    assert(self.archetypes@ =~= old(self).archetypes@.update(a as int, after));
                    assert forall|i: int| 0 <= i < self.archetypes().len() implies (
                    #[trigger] self.archetypes()[i]).wf() by {
                        if i != a {
                            assert(old(self).archetypes()[i].wf());
                        }
                    }
                    assert forall|i: int, j: int|
                        0 <= i < j < self.archetypes@.len() implies (
                    #[trigger] self.archetypes@[i]).metadata() != (
                    #[trigger] self.archetypes@[j]).metadata() by {
                        assert(old(self).archetypes@[i].metadata() != old(self).archetypes@[j].metadata());
                    }
                    assert(old(self).stores(a as int, slot as int, id));
                    // Where an entity of the new state was before.
                    assert forall|b: int, t: int, x: EntityId| #[trigger]
                        self.stores(b, t, x) implies x != id && old(self).stores(
                        b,
                        if b == a && t == slot {
                            last
                        } else {
                            t
                        },
                        x,
                    ) by {
                        let origin = if b == a && t == slot {
                            last
                        } else {
                            t
                        };
                        assert(old(self).stores(b, origin, x));
                        if x == id {
                            assert(old(self).stores(a as int, slot as int, id));
                        }
                    }
                    assert forall|b: int, t: int, x: EntityId| #[trigger]
                        self.stores(b, t, x) implies self.ids().is_live(x) by {
                        let origin = if b == a && t == slot {
                            last
                        } else {
                            t
                        };
                        assert(old(self).stores(b, origin, x));
                    }
                    assert forall|b: int, t: int, d: int, u: int, x: EntityId|
                        #[trigger] self.stores(b, t, x) && #[trigger] self.stores(
                            d,
                            u,
                            x,
                        ) implies b == d && t == u by {
                        let first = if b == a && t == slot {
                            last
                        } else {
                            t
                        };
                        let second = if d == a && u == slot {
                            last
                        } else {
                            u
                        };
                        assert(old(self).stores(b, first, x) && old(self).stores(d, second, x));
                    }
                    assert(self.wf());
                    assert forall|ty: ComponentType| (#[trigger] self.component_of(
                        id,
                        ty,
                    )).is_none() by {
                        if exists|b: int, t: int, c: int| self.holds(b, t, c, id, ty) {
                            let (b, t, c) = choose|b: int, t: int, c: int|
                                self.holds(b, t, c, id, ty);
                            assert(self.stores(b, t, id));
                        }
                    }
                    assert forall|other: EntityId, ty: ComponentType|
                        other != id implies #[trigger] self.component_of(other, ty) == old(self).component_of(other, ty) by {
                        if exists|b: int, t: int, c: int| old(self).holds(b, t, c, other, ty) {
                            let (b, t, c) = choose|b: int, t: int, c: int|
                                old(self).holds(b, t, c, other, ty);
                            assert(old(self).stores(b, t, other));
                            let place = if b == a && t == last {
                                slot as int
                            } else {
                                t
                            };
                            if b == a && t == slot {
                                assert(old(self).stores(a as int, slot as int, id));
                            }
                            assert(self.stores(b, place, other));
                            assert(self.holds(b, place, c, other, ty));
                            old(self).lemma_component_at(b, t, c, other, ty);
                            self.lemma_component_at(b, place, c, other, ty);
                            if b == a {
                                assert(after.component(c as nat, place as nat)
                                    == before.component(c as nat, t as nat));
                            }
                        } else {
                            if exists|b: int, t: int, c: int| self.holds(b, t, c, other, ty) {
                                let (b, t, c) = choose|b: int, t: int, c: int|
                                    self.holds(b, t, c, other, ty);
                                assert(self.stores(b, t, other));
                                let origin = if b == a && t == slot {
                                    last
                                } else {
                                    t
                                };
                                assert(old(self).stores(b, origin, other));
                                assert(old(self).holds(b, origin, c, other, ty));
                            }
                        }
                    }
                }
            },
            None => {
                self.entity_store.free_entity(id);
                proof {
                    assert forall|b: int, t: int, x: EntityId| #[trigger]
                        self.stores(b, t, x) implies self.ids().is_live(x) by {
                        assert(old(self).stores(b, t, x));
                    }
                    assert forall|b: int, t: int, d: int, u: int, x: EntityId|
                        #[trigger] self.stores(b, t, x) && #[trigger] self.stores(
                            d,
                            u,
                            x,
                        ) implies b == d && t == u by {
                        assert(old(self).stores(b, t, x) && old(self).stores(d, u, x));
                    }
                    assert forall|ty: ComponentType| (#[trigger] self.component_of(
                        id,
                        ty,
                    )).is_none() by {
                        if exists|b: int, t: int, c: int| self.holds(b, t, c, id, ty) {
                            let (b, t, c) = choose|b: int, t: int, c: int|
                                self.holds(b, t, c, id, ty);
                            assert(old(self).stores(b, t, id));
                        }
                    }
                    assert(self.wf());
                    assert forall|other: EntityId, ty: ComponentType|
                        other != id implies #[trigger] self.component_of(other, ty) == old(self).component_of(other, ty) by {
                        if exists|b: int, t: int, c: int| old(self).holds(b, t, c, other, ty) {
                            let (b, t, c) = choose|b: int, t: int, c: int|
                                old(self).holds(b, t, c, other, ty);
                            assert(old(self).stores(b, t, other));
                            assert(self.stores(b, t, other));
                            assert(self.holds(b, t, c, other, ty));
                            old(self).lemma_component_at(b, t, c, other, ty);
                            self.lemma_component_at(b, t, c, other, ty);
                        } else {
                            if exists|b: int, t: int, c: int| self.holds(b, t, c, other, ty) {
                                let (b, t, c) = choose|b: int, t: int, c: int|
                                    self.holds(b, t, c, other, ty);
                                assert(self.stores(b, t, other));
                                assert(old(self).stores(b, t, other));
                                assert(old(self).holds(b, t, c, other, ty));
                            }
                        }
                    }
                }
            },
        }
    }

    /// The entities that hold every component type in `types`: those of the
    /// archetypes whose signature holds all of them, archetype by archetype in
    /// order of creation, each in slot order.
    pub fn query(&self, types: &Vec<ComponentType>) -> (ids: Vec<EntityId>)
        requires
            self.wf(),
        ensures
            ids@ == query_result(self.archetypes(), types@, self.archetypes().len()),
    {
        let mut ids: Vec<EntityId> = Vec::new();
        let mut a: usize = 0;
        while a < self.archetypes.len()
            invariant
                self.wf(),
                a <= self.archetypes@.len(),
                ids@ == query_result(self.archetypes(), types@, a as nat),
            decreases self.archetypes@.len() - a,
        {
            assert(self.archetypes()[a as int].wf());
            proof {
                self.archetypes()[a as int].lemma_wf();
            }
            let archetype = &self.archetypes[a];
            if archetype.components_metadata().holds_all(types) {
                let ghost rest = ids@;
                let count = archetype.entity_count();
                let mut slot: usize = 0;
                while slot < count
                    invariant
                        archetype.wf(),
                        count == archetype.spec_entity_count(),
                        count == archetype.entities().len(),
                        slot <= count,
                        ids@ == rest + archetype.entities().subrange(0, slot as int),
                    decreases count - slot,
                {
                    ids.push(archetype.entity_at(slot));
                    proof {
                        assert(ids@ =~= rest + archetype.entities().subrange(0, slot + 1));
                    }
                    slot += 1;
                }
                proof {
                    assert(archetype.entities().subrange(0, count as int)
                        =~= archetype.entities());
                }
            }
            a += 1;
        }
        ids
    }

    /// A query yields exactly the stored entities that hold a component of
    /// every requested type.
    pub proof fn lemma_query_complete(&self, types: Seq<ComponentType>, id: EntityId)
        requires
            self.wf(),
        ensures
            query_result(self.archetypes(), types, self.archetypes().len()).contains(id) <==> (
            exists|a: int, s: int| self.stores(a, s, id)) && forall|i: int|
                0 <= i < types.len() ==> (#[trigger] self.component_of(id, types[i])).is_some(),
    {
        let archetypes = self.archetypes();
        lemma_query_result_contains(archetypes, types, archetypes.len(), id);
        if query_result(archetypes, types, archetypes.len()).contains(id) {
            let a = choose|a: int|
                0 <= a < archetypes.len() && has_types((#[trigger] archetypes[a]).metadata(), types)
                    && archetypes[a].entities().contains(id);
            let s = choose|s: int|
                0 <= s < archetypes[a].entities().len() && archetypes[a].entities()[s] == id;
            assert(self.stores(a, s, id));
            assert forall|i: int| 0 <= i < types.len() implies (#[trigger] self.component_of(
                id,
                types[i],
            )).is_some() by {
                assert(has_type(archetypes[a].metadata(), types[i]));
                let c = choose|c: int|
                    0 <= c < archetypes[a].metadata().len() && (
                    #[trigger] archetypes[a].metadata()[c]).component_type == types[i];
                assert(self.holds(a, s, c, id, types[i]));
                self.lemma_component_at(a, s, c, id, types[i]);
            }
        }
        if (exists|a: int, s: int| self.stores(a, s, id)) && forall|i: int|
            0 <= i < types.len() ==> (#[trigger] self.component_of(id, types[i])).is_some() {
            let (a, s) = choose|a: int, s: int| self.stores(a, s, id);
            assert(archetypes[a].entities().contains(id));
            assert forall|i: int| 0 <= i < types.len() implies has_type(
                archetypes[a].metadata(),
                #[trigger] types[i],
            ) by {
                assert(self.component_of(id, types[i]).is_some());
                let (b, t, c) = choose|b: int, t: int, c: int| self.holds(b, t, c, id, types[i]);
                assert(self.stores(b, t, id) && self.stores(a, s, id));
                assert(archetypes[a].metadata()[c].component_type == types[i]);
            }
            assert(has_types(archetypes[a].metadata(), types));
        }
    }
}

} // verus!
