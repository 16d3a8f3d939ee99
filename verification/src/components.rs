//! Component values as the store sees them: a type's layout and the bytes of
//! one value, and the set of components that makes up one entity.

use vstd::prelude::*;
use crate::archetype::Archetype;
use crate::layout::alignments_valid;
use crate::layout::ComponentType;
use crate::layout::TypeMetadata;
use crate::signature::has_type;
use crate::signature::strictly_sorted;
use crate::signature::ComponentsMetadata;

verus! {

/// The component types of a signature, in signature order.
pub open spec fn type_keys(signature: Seq<TypeMetadata>) -> Seq<ComponentType> {
    Seq::new(signature.len(), |i: int| signature[i].component_type)
}

/// A fixed set of component values that can be stored as one entity.
pub trait ComponentsDefinition {
    /// The definition is usable: its signature is strictly sorted with non-zero
    /// alignments, and each value has the size of its type.
    spec fn wf(&self) -> bool;

    /// The component types, each once, in increasing order.
    spec fn signature(&self) -> Seq<TypeMetadata>;

    /// The bytes of the value of component type `ty`.
    spec fn value(&self, ty: ComponentType) -> Seq<u8>;

    /// The component types in signature order.
    fn component_types(&self) -> (types: Vec<ComponentType>)
        requires
            self.wf(),
        ensures
            types@ == type_keys(self.signature()),
    ;

    /// The signature with each type's layout.
    fn metadata(&self) -> (metadata: ComponentsMetadata)
        requires
            self.wf(),
        ensures
            metadata.wf(),
            metadata@ == self.signature(),
    ;

    /// Writes every value into its column at slot `index`. Other slots keep
    /// their components.
    fn store_components(&self, archetype: &mut Archetype, index: usize)
        requires
            self.wf(),
            old(archetype).wf(),
            old(archetype).metadata() == self.signature(),
            index < old(archetype).spec_capacity(),
        ensures
            final(archetype).wf(),
            final(archetype).metadata() == old(archetype).metadata(),
            final(archetype).spec_capacity() == old(archetype).spec_capacity(),
            final(archetype).spec_entity_count() == old(archetype).spec_entity_count(),
            final(archetype).entities() == old(archetype).entities(),
            forall|column: nat|
                column < self.signature().len() ==> #[trigger] final(archetype).component(
                    column,
                    index as nat,
                ) == self.value(self.signature()[column as int].component_type),
            forall|column: nat, slot: nat|
                column < self.signature().len() && slot < old(archetype).spec_capacity() && slot
                    != index ==> #[trigger] final(archetype).component(column, slot) == old(
                    archetype,
                ).component(column, slot),
    ;
}

/// One component value: the layout of its type and its bytes.
pub struct Component {
    pub metadata: TypeMetadata,
    pub bytes: Vec<u8>,
}

impl Component {
    /// The alignment is non-zero and there are as many bytes as the type is large.
    pub open spec fn wf(&self) -> bool {
        self.metadata.align > 0 && self.bytes@.len() == self.metadata.size
    }

    /// A value of component type `component_type` made of `bytes`, aligned to
    /// `align`, or `None` where the alignment is zero.
    pub fn new(component_type: ComponentType, align: usize, bytes: Vec<u8>) -> (component: Option<
        Self,
    >)
        ensures
            component.is_some() == (align > 0),
            match component {
                Some(component) => {
                    &&& component.wf()
                    &&& component.metadata.component_type == component_type
                    &&& component.metadata.align == align
                    &&& component.bytes@ == bytes@
                },
                None => true,
            },
    {
        if align == 0 {
            return None;
        }
        let size: usize = bytes.len();
        Some(Component { metadata: TypeMetadata { component_type, size, align }, bytes })
    }
}

/// The layouts of a list of components, in the order of the list.
pub open spec fn metadata_of(components: Seq<Component>) -> Seq<TypeMetadata> {
    Seq::new(components.len(), |i: int| components[i].metadata)
}

/// The components of one entity, kept in signature order.
pub struct ComponentSet {
    components: Vec<Component>,
}

impl View for ComponentSet {
    type V = Seq<Component>;

    closed spec fn view(&self) -> Seq<Component> {
        self.components@
    }
}

impl ComponentSet {
    /// A set without components.
    pub fn new() -> (set: Self)
        ensures
            set.wf(),
            set@ == Seq::<Component>::empty(),
    {
        let set = ComponentSet { components: Vec::new() };
        assert(metadata_of(set@) =~= Seq::<TypeMetadata>::empty());
        set
    }

    /// Number of components.
    pub fn len(&self) -> (n: usize)
        ensures
            n == self@.len(),
    {
        self.components.len()
    }

    /// Adds `component` to the set. A value of the same component type that
    /// the set already holds is replaced.
    pub fn with(self, component: Component) -> (set: Self)
        requires
            self.wf(),
            component.wf(),
        ensures
            set.wf(),
            forall|ty: ComponentType|
                has_type(set.signature(), ty) == (has_type(self.signature(), ty) || ty
                    == component.metadata.component_type),
            set.value(component.metadata.component_type) == component.bytes@,
            forall|ty: ComponentType|
                ty != component.metadata.component_type ==> set.value(ty) == self.value(ty),
            forall|i: int|
                0 <= i < set.signature().len() ==> #[trigger] set.signature()[i]
                    == component.metadata || (self.signature().contains(set.signature()[i])
                    && set.signature()[i].component_type != component.metadata.component_type),
    {
        let mut set = self;
        let ty = component.metadata.component_type;
        let mut position: usize = 0;
        while position < set.components.len() && set.components[position].metadata.component_type
            < ty
            invariant
                set == self,
                position <= set.components@.len(),
                forall|k: int|
                    0 <= k < position ==> (#[trigger] set.components@[k]).metadata.component_type
                        < ty,
            decreases set.components@.len() - position,
        {
            position += 1;
        }
        let ghost before = set.components@;
        let ghost entry = component;
        let present = position < set.components.len()
            && set.components[position].metadata.component_type == ty;
        if present {
            set.components.set(position, component);
        } else {
            set.components.insert(position, component);
        }
        proof {
            let after = set.components@;
            let shift = |k: int|
                if present || k < position {
                    k
                } else {
                    k - 1
                };
            assert forall|k: int| 0 <= k < after.len() && k != position implies after[k]
                == before[shift(k)] by {}
            assert(after[position as int] == entry);
            assert forall|a: int, b: int| 0 <= a < b < after.len() implies (#[trigger] metadata_of(
                after,
            )[a]).component_type < (#[trigger] metadata_of(after)[b]).component_type by {
                let before_meta = metadata_of(before);
                if a != position && b != position {
                    assert(before_meta[shift(a)].component_type < before_meta[shift(
                        b,
                    )].component_type);
                } else if a == position {
                    if shift(b) > position {
                        assert(before_meta[position as int].component_type < before_meta[shift(
                            b,
                        )].component_type);
                    }
                    assert(before_meta[shift(b)].component_type >= ty);
                    assert(before_meta[shift(b)].component_type > ty);
                }
            }
            assert forall|other: ComponentType|
                has_type(metadata_of(after), other) == (has_type(metadata_of(before), other)
                    || other == ty) by {
                if has_type(metadata_of(after), other) {
                    let k = choose|k: int|
                        0 <= k < after.len() && (#[trigger] metadata_of(after)[k]).component_type
                            == other;
                    if k != position {
                        assert(metadata_of(before)[shift(k)].component_type == other);
                    }
                }
                if has_type(metadata_of(before), other) && other != ty {
                    let k = choose|k: int|
                        0 <= k < before.len() && (#[trigger] metadata_of(
                            before,
                        )[k]).component_type == other;
                    let moved = if present || k < position {
                        k
                    } else {
                        k + 1
                    };
                    assert(metadata_of(after)[moved].component_type == other);
                }
                if other == ty {
                    assert(metadata_of(after)[position as int].component_type == other);
                }
            }
            set.lemma_value_at(position as int);
            assert forall|other: ComponentType| other != ty implies set.value(other) == self.value(
                other,
            ) by {
                if has_type(metadata_of(before), other) {
                    let k = choose|k: int|
                        0 <= k < before.len() && (#[trigger] metadata_of(
                            before,
                        )[k]).component_type == other;
                    let moved = if present || k < position {
                        k
                    } else {
                        k + 1
                    };
                    self.lemma_value_at(k);
                    set.lemma_value_at(moved);
                } else {
                    assert(!has_type(metadata_of(after), other));
                }
            }
            assert forall|i: int| 0 <= i < set.signature().len() implies #[trigger] set.signature()[i]
                == component.metadata || (self.signature().contains(set.signature()[i])
                && set.signature()[i].component_type != component.metadata.component_type) by {
                if i != position {
                    assert(self.signature()[shift(i)] == set.signature()[i]);
                    let meta = metadata_of(after);
                    if i < position {
                        assert(meta[i].component_type < meta[position as int].component_type);
                    } else {
                        assert(meta[position as int].component_type < meta[i].component_type);
                    }
                }
            }
        }
        set
    }

    /// The value of the component type at position `i` of the signature is
    /// the `i`-th component.
    pub proof fn lemma_value_at(&self, i: int)
        requires
            strictly_sorted(metadata_of(self@)),
            0 <= i < self@.len(),
        ensures
            self.value(self.signature()[i].component_type) == self@[i].bytes@,
    {
        let meta = metadata_of(self@);
        let ty = meta[i].component_type;
        assert(has_type(meta, ty));
        let k = choose|k: int| 0 <= k < meta.len() && (#[trigger] meta[k]).component_type == ty;
        if k < i {
            assert(meta[k].component_type < meta[i].component_type);
        }
        if i < k {
            assert(meta[i].component_type < meta[k].component_type);
        }
    }
}

impl ComponentsDefinition for ComponentSet {
    open spec fn wf(&self) -> bool {
        &&& strictly_sorted(metadata_of(self@))
        &&& forall|i: int| 0 <= i < self@.len() ==> (#[trigger] self@[i]).wf()
    }

    open spec fn signature(&self) -> Seq<TypeMetadata> {
        metadata_of(self@)
    }

    open spec fn value(&self, ty: ComponentType) -> Seq<u8> {
        if has_type(metadata_of(self@), ty) {
            let k = choose|k: int|
                0 <= k < self@.len() && (#[trigger] metadata_of(self@)[k]).component_type == ty;
            self@[k].bytes@
        } else {
            Seq::empty()
        }
    }

    fn component_types(&self) -> (types: Vec<ComponentType>) {
        let mut types: Vec<ComponentType> = Vec::new();
        let mut i: usize = 0;
        while i < self.components.len()
            invariant
                i <= self@.len(),
                types@.len() == i,
                forall|k: int| 0 <= k < i ==> types@[k] == self@[k].metadata.component_type,
            decreases self@.len() - i,
        {
            types.push(self.components[i].metadata.component_type);
            i += 1;
        }
        assert(types@ =~= type_keys(self.signature()));
        types
    }

    fn metadata(&self) -> (metadata: ComponentsMetadata) {
        let mut types_metadata: Vec<TypeMetadata> = Vec::new();
        let mut i: usize = 0;
        while i < self.components.len()
            invariant
                i <= self@.len(),
                types_metadata@.len() == i,
                forall|k: int| 0 <= k < i ==> types_metadata@[k] == self@[k].metadata,
            decreases self@.len() - i,
        {
            types_metadata.push(self.components[i].metadata);
            i += 1;
        }
        assert(types_metadata@ =~= metadata_of(self@));
        assert forall|k: int| 0 <= k < types_metadata@.len() implies (
        #[trigger] types_metadata@[k]).align > 0 by {
            assert(self@[k].wf());
        }
        ComponentsMetadata { types_metadata }
    }

    fn store_components(&self, archetype: &mut Archetype, index: usize) {
        let mut i: usize = 0;
        while i < self.components.len()
            invariant
                self.wf(),
                i <= self@.len(),
                archetype.wf(),
                archetype.metadata() == old(archetype).metadata(),
                archetype.metadata() == metadata_of(self@),
                archetype.spec_capacity() == old(archetype).spec_capacity(),
                archetype.spec_entity_count() == old(archetype).spec_entity_count(),
                archetype.entities() == old(archetype).entities(),
                index < archetype.spec_capacity(),
                forall|column: nat|
                    column < i ==> #[trigger] archetype.component(column, index as nat)
                        == self@[column as int].bytes@,
                forall|column: nat, slot: nat|
                    column < self@.len() && slot < archetype.spec_capacity() && slot != index
                        ==> #[trigger] archetype.component(column, slot) == old(
                        archetype,
                    ).component(column, slot),
            decreases self@.len() - i,
        {
            let ghost before = *archetype;
            assert(self@[i as int].wf());
            archetype.store_component(self.components[i].bytes.as_slice(), i, index);
            proof {
                assert forall|column: nat| column < i + 1 implies #[trigger] archetype.component(
                    column,
                    index as nat,
                ) == self@[column as int].bytes@ by {
                    if column < i {
                        assert(before.component(column, index as nat)
                            == self@[column as int].bytes@);
                    }
                }
                assert forall|column: nat, slot: nat|
                    column < self@.len() && slot < archetype.spec_capacity() && slot
                        != index implies #[trigger] archetype.component(column, slot) == old(
                    archetype,
                ).component(column, slot) by {
                    assert(before.component(column, slot) == old(archetype).component(
                        column,
                        slot,
                    ));
                }
            }
            i += 1;
        }
        proof {
            assert forall|column: nat|
                column < self.signature().len() implies #[trigger] archetype.component(
                column,
                index as nat,
            ) == self.value(self.signature()[column as int].component_type) by {
                self.lemma_value_at(column as int);
            }
        }
    }
}

} // verus!
