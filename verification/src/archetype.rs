//! The column store: one buffer per archetype, sliced into one aligned column
//! per component type. A slot index is the handle of one entity's data.

use vstd::prelude::*;
use vstd::slice::slice_subrange;
use crate::entity::EntityId;
use crate::layout::alignments_valid;
use crate::layout::buffer_size;
use crate::layout::column_start;
use crate::layout::compute_layout;
use crate::layout::lemma_column_in_buffer;
use crate::layout::lemma_columns_disjoint;
use crate::layout::lemma_empty_capacity;
use crate::layout::TypeMetadata;
use crate::signature::ComponentsMetadata;

verus! {

/// Byte offset of slot `slot` of column `column`.
pub open spec fn slot_start(meta: Seq<TypeMetadata>, capacity: nat, column: nat, slot: nat) -> nat {
    (column_start(meta, capacity, column) + slot * meta[column as int].size) as nat
}

/// The bytes of one component: slot `slot` of column `column`.
pub open spec fn read_component(
    data: Seq<u8>,
    meta: Seq<TypeMetadata>,
    capacity: nat,
    column: nat,
    slot: nat,
) -> Seq<u8> {
    let start = slot_start(meta, capacity, column, slot);
    data.subrange(start as int, start + meta[column as int].size)
}

/// The buffer after `bytes` replaced the component in slot `slot` of column
/// `column`.
pub open spec fn write_component(
    data: Seq<u8>,
    meta: Seq<TypeMetadata>,
    capacity: nat,
    column: nat,
    slot: nat,
    bytes: Seq<u8>,
) -> Seq<u8> {
    let start = slot_start(meta, capacity, column, slot);
    data.subrange(0, start as int) + bytes + data.subrange(
        start + meta[column as int].size,
        data.len() as int,
    )
}

/// A slot of a column lies inside that column, and so inside the buffer.
pub proof fn lemma_slot_in_column(meta: Seq<TypeMetadata>, capacity: nat, column: nat, slot: nat)
    requires
        alignments_valid(meta),
        column < meta.len(),
        slot < capacity,
    ensures
        column_start(meta, capacity, column) <= slot_start(meta, capacity, column, slot),
        slot_start(meta, capacity, column, slot) + meta[column as int].size <= column_start(
            meta,
            capacity,
            column,
        ) + meta[column as int].size * capacity,
        slot_start(meta, capacity, column, slot) + meta[column as int].size <= buffer_size(
            meta,
            capacity,
        ),
{
    let size = meta[column as int].size as int;
    lemma_column_in_buffer(meta, capacity, column);
    assert(slot * size >= 0 && slot * size + size <= size * capacity) by (nonlinear_arith)
        requires
            0 <= slot < capacity,
            size >= 0,
    ;
}

/// Two different components never share a byte: the one that comes first ends
/// before the other starts.
pub proof fn lemma_slots_disjoint(
    meta: Seq<TypeMetadata>,
    capacity: nat,
    column: nat,
    slot: nat,
    other_column: nat,
    other_slot: nat,
)
    requires
        alignments_valid(meta),
        column < meta.len(),
        other_column < meta.len(),
        slot < capacity,
        other_slot < capacity,
        column != other_column || slot != other_slot,
    ensures
        slot_start(meta, capacity, column, slot) + meta[column as int].size <= slot_start(
            meta,
            capacity,
            other_column,
            other_slot,
        ) || slot_start(meta, capacity, other_column, other_slot) + meta[other_column as int].size
            <= slot_start(meta, capacity, column, slot),
{
    lemma_slot_in_column(meta, capacity, column, slot);
    lemma_slot_in_column(meta, capacity, other_column, other_slot);
    if column < other_column {
        lemma_columns_disjoint(meta, capacity, column, other_column);
    } else if other_column < column {
        lemma_columns_disjoint(meta, capacity, other_column, column);
    } else {
        let size = meta[column as int].size as int;
        if slot < other_slot {
            assert(slot * size + size <= other_slot * size) by (nonlinear_arith)
                requires
                    0 <= slot < other_slot,
                    size >= 0,
            ;
        } else {
            assert(other_slot * size + size <= slot * size) by (nonlinear_arith)
                requires
                    0 <= other_slot < slot,
                    size >= 0,
            ;
        }
    }
}

/// Reading a component back gives the bytes that were written to it.
pub proof fn lemma_read_after_write(
    data: Seq<u8>,
    meta: Seq<TypeMetadata>,
    capacity: nat,
    column: nat,
    slot: nat,
    bytes: Seq<u8>,
)
    requires
        alignments_valid(meta),
        column < meta.len(),
        slot < capacity,
        data.len() == buffer_size(meta, capacity),
        bytes.len() == meta[column as int].size,
    ensures
        write_component(data, meta, capacity, column, slot, bytes).len() == data.len(),
        read_component(
            write_component(data, meta, capacity, column, slot, bytes),
            meta,
            capacity,
            column,
            slot,
        ) == bytes,
{
    lemma_slot_in_column(meta, capacity, column, slot);
    let written = write_component(data, meta, capacity, column, slot, bytes);
    assert(read_component(written, meta, capacity, column, slot) =~= bytes);
}

/// Writing one component leaves every other component as it was.
pub proof fn lemma_write_keeps_others(
    data: Seq<u8>,
    meta: Seq<TypeMetadata>,
    capacity: nat,
    column: nat,
    slot: nat,
    bytes: Seq<u8>,
    other_column: nat,
    other_slot: nat,
)
    requires
        alignments_valid(meta),
        column < meta.len(),
        other_column < meta.len(),
        slot < capacity,
        other_slot < capacity,
        column != other_column || slot != other_slot,
        data.len() == buffer_size(meta, capacity),
        bytes.len() == meta[column as int].size,
    ensures
        read_component(
            write_component(data, meta, capacity, column, slot, bytes),
            meta,
            capacity,
            other_column,
            other_slot,
        ) == read_component(data, meta, capacity, other_column, other_slot),
{
    lemma_slot_in_column(meta, capacity, column, slot);
    lemma_slot_in_column(meta, capacity, other_column, other_slot);
    lemma_slots_disjoint(meta, capacity, column, slot, other_column, other_slot);
    let written = write_component(data, meta, capacity, column, slot, bytes);
    assert(read_component(written, meta, capacity, other_column, other_slot) =~= read_component(
        data,
        meta,
        capacity,
        other_column,
        other_slot,
    ));
}

/// The bytes of the first `count` slots of column `column`.
pub open spec fn column_prefix(
    data: Seq<u8>,
    meta: Seq<TypeMetadata>,
    capacity: nat,
    column: nat,
    count: nat,
) -> Seq<u8> {
    let start = column_start(meta, capacity, column);
    data.subrange(start as int, start + count * meta[column as int].size)
}

/// The first `count` slots of a column lie inside that column.
pub proof fn lemma_prefix_in_column(meta: Seq<TypeMetadata>, capacity: nat, column: nat, count: nat)
    requires
        alignments_valid(meta),
        column < meta.len(),
        count <= capacity,
    ensures
        0 <= count * meta[column as int].size <= meta[column as int].size * capacity,
        column_start(meta, capacity, column) + count * meta[column as int].size <= buffer_size(
            meta,
            capacity,
        ),
{
    let size = meta[column as int].size as int;
    lemma_column_in_buffer(meta, capacity, column);
    assert(0 <= count * size <= size * capacity) by (nonlinear_arith)
        requires
            0 <= count <= capacity,
            size >= 0,
    ;
}

/// A component of an occupied slot is a piece of its column's occupied prefix,
/// at a place that does not depend on the capacity.
pub proof fn lemma_component_in_prefix(
    data: Seq<u8>,
    meta: Seq<TypeMetadata>,
    capacity: nat,
    column: nat,
    slot: nat,
    count: nat,
)
    requires
        alignments_valid(meta),
        column < meta.len(),
        slot < count <= capacity,
        data.len() == buffer_size(meta, capacity),
    ensures
        read_component(data, meta, capacity, column, slot) == column_prefix(
            data,
            meta,
            capacity,
            column,
            count,
        ).subrange(slot * meta[column as int].size, slot * meta[column as int].size + meta[column as int].size),
{
    let size = meta[column as int].size as int;
    lemma_prefix_in_column(meta, capacity, column, count);
    lemma_slot_in_column(meta, capacity, column, slot);
    assert(0 <= slot * size && slot * size + size <= count * size) by (nonlinear_arith)
        requires
            0 <= slot < count,
            size >= 0,
    ;
    assert(read_component(data, meta, capacity, column, slot) =~= column_prefix(
        data,
        meta,
        capacity,
        column,
        count,
    ).subrange(slot * size, slot * size + size));
}

/// The capacity after one growth step: one slot at first, then twice as many.
pub open spec fn next_capacity(capacity: nat) -> nat {
    if capacity == 0 {
        1
    } else {
        capacity * 2
    }
}

/// Storage of all entities that hold exactly one set of component types.
pub struct Archetype {
    components_metadata: ComponentsMetadata,
    data: Vec<u8>,
    stored_entities: Vec<EntityId>,
    entity_count: usize,
    types_offset: Vec<usize>,
    capacity: usize,
}

impl Archetype {
    /// The component types of this archetype, in column order.
    pub closed spec fn metadata(&self) -> Seq<TypeMetadata> {
        self.components_metadata@
    }

    /// The whole buffer.
    pub closed spec fn bytes(&self) -> Seq<u8> {
        self.data@
    }

    /// Number of allocated slots.
    pub closed spec fn spec_capacity(&self) -> nat {
        self.capacity as nat
    }

    /// Number of occupied slots.
    pub closed spec fn spec_entity_count(&self) -> nat {
        self.entity_count as nat
    }

    /// The entity that occupies each slot, by slot index.
    pub closed spec fn entities(&self) -> Seq<EntityId> {
        self.stored_entities@
    }

    /// The bytes of the component in slot `slot` of column `column`.
    pub open spec fn component(&self, column: nat, slot: nat) -> Seq<u8> {
        read_component(self.bytes(), self.metadata(), self.spec_capacity(), column, slot)
    }

    /// The buffer has the size its layout asks for, the offsets are those of
    /// the layout, and every occupied slot has its entity.
    pub closed spec fn wf(&self) -> bool {
        &&& self.components_metadata.wf()
        &&& self.entity_count <= self.capacity
        &&& self.stored_entities@.len() == self.entity_count
        &&& self.types_offset@.len() == self.components_metadata@.len()
        &&& forall|i: int|
            0 <= i < self.types_offset@.len() ==> #[trigger] self.types_offset@[i] == column_start(
                self.components_metadata@,
                self.capacity as nat,
                i as nat,
            )
        &&& self.data@.len() == buffer_size(self.components_metadata@, self.capacity as nat)
    }

    /// What well-formedness says in terms of the public view.
    pub proof fn lemma_wf(&self)
        requires
            self.wf(),
        ensures
            alignments_valid(self.metadata()),
            crate::signature::strictly_sorted(self.metadata()),
            self.spec_entity_count() <= self.spec_capacity(),
            self.entities().len() == self.spec_entity_count(),
            self.bytes().len() == buffer_size(self.metadata(), self.spec_capacity()),
    {
    }

    /// An archetype for the given component types, with no slot and no buffer.
    pub fn new(components_metadata: ComponentsMetadata) -> (archetype: Self)
        requires
            components_metadata.wf(),
        ensures
            archetype.wf(),
            archetype.metadata() == components_metadata@,
            archetype.spec_capacity() == 0,
            archetype.spec_entity_count() == 0,
            archetype.entities() == Seq::<EntityId>::empty(),
            archetype.bytes() == Seq::<u8>::empty(),
    {
        let mut types_offset: Vec<usize> = Vec::new();
        let mut i: usize = 0;
        while i < components_metadata.len()
            invariant
                components_metadata.wf(),
                i <= components_metadata@.len(),
                types_offset@.len() == i,
                forall|k: int| 0 <= k < i ==> #[trigger] types_offset@[k] == 0,
            decreases components_metadata@.len() - i,
        {
            types_offset.push(0);
            i += 1;
        }
        proof {
            lemma_empty_capacity(components_metadata@, components_metadata@.len());
            assert forall|k: int| 0 <= k < types_offset@.len() implies #[trigger] types_offset@[k]
                == column_start(components_metadata@, 0, k as nat) by {
                lemma_empty_capacity(components_metadata@, k as nat);
            }
        }
        Archetype {
            components_metadata,
            data: Vec::new(),
            stored_entities: Vec::new(),
            entity_count: 0,
            types_offset,
            capacity: 0,
        }
    }

    /// Number of entities stored.
    pub fn entity_count(&self) -> (count: usize)
        ensures
            count == self.spec_entity_count(),
    {
        self.entity_count
    }

    /// Number of slots the buffer has room for.
    pub fn capacity(&self) -> (capacity: usize)
        ensures
            capacity == self.spec_capacity(),
    {
        self.capacity
    }

    /// The component types of this archetype.
    pub fn components_metadata(&self) -> (metadata: &ComponentsMetadata)
        ensures
            metadata@ == self.metadata(),
            self.wf() ==> metadata.wf(),
    {
        &self.components_metadata
    }

    /// A slot is free, or the buffer that the next growth step asks for fits
    /// the address space.
    pub open spec fn can_reserve(&self) -> bool {
        self.spec_entity_count() < self.spec_capacity() || (next_capacity(self.spec_capacity())
            <= usize::MAX && buffer_size(self.metadata(), next_capacity(self.spec_capacity()))
            <= usize::MAX)
    }

    /// Tells whether a slot can be reserved.
    pub fn can_reserve_slot(&self) -> (possible: bool)
        requires
            self.wf(),
        ensures
            possible == self.can_reserve(),
    {
        if self.entity_count < self.capacity {
            return true;
        }
        let grown: usize = if self.capacity == 0 {
            1
        } else {
            match self.capacity.checked_mul(2) {
                Some(grown) => grown,
                None => {
                    return false;
                },
            }
        };
        compute_layout(&self.components_metadata.types_metadata, grown).is_some()
    }

    /// Reserves the next slot for `entity_id` and returns its index. A full
    /// buffer grows first; the components stored so far keep their bytes.
    pub fn allocate_storage_for_entity(&mut self, entity_id: EntityId) -> (index: usize)
        requires
            old(self).wf(),
            old(self).can_reserve(),
        ensures
            final(self).wf(),
            final(self).metadata() == old(self).metadata(),
            index == old(self).spec_entity_count(),
            final(self).spec_entity_count() == old(self).spec_entity_count() + 1,
            final(self).spec_capacity() == if old(self).spec_entity_count() == old(self).spec_capacity() {
                next_capacity(old(self).spec_capacity())
            } else {
                old(self).spec_capacity()
            },
            final(self).entities() == old(self).entities().push(entity_id),
            old(self).spec_entity_count() < old(self).spec_capacity() ==> final(self).bytes()
                == old(self).bytes(),
            forall|column: nat, slot: nat|
                column < old(self).metadata().len() && slot < old(self).spec_entity_count()
                    ==> #[trigger] final(self).component(column, slot) == old(self).component(
                    column,
                    slot,
                ),
    {
        if self.entity_count == self.capacity {
            if self.capacity == 0 {
                self.grow(1);
            } else {
                self.grow(self.capacity * 2);
            }
        }
        let ghost grown = *self;
        self.stored_entities.push(entity_id);
        self.entity_count += 1;
        proof {
            assert forall|column: nat, slot: nat|
                column < old(self).metadata().len() && slot < old(self).spec_entity_count() implies #[trigger] self.component(column, slot) == old(self).component(column, slot) by {
                assert(grown.component(column, slot) == old(self).component(column, slot));
            }
        }
        self.entity_count - 1
    }

    /// Moves the columns into a buffer laid out for `new_capacity` slots. The
    /// components of all occupied slots keep their bytes and their slot index.
    pub fn grow(&mut self, new_capacity: usize)
        requires
            old(self).wf(),
            old(self).spec_capacity() <= new_capacity,
            buffer_size(old(self).metadata(), new_capacity as nat) <= usize::MAX,
        ensures
            final(self).wf(),
            final(self).metadata() == old(self).metadata(),
            final(self).spec_capacity() == new_capacity,
            final(self).spec_entity_count() == old(self).spec_entity_count(),
            final(self).entities() == old(self).entities(),
            forall|column: nat, slot: nat|
                column < old(self).metadata().len() && slot < old(self).spec_entity_count()
                    ==> #[trigger] final(self).component(column, slot) == old(self).component(
                    column,
                    slot,
                ),
    {
        let layout = compute_layout(&self.components_metadata.types_metadata, new_capacity);
        let (types_offset, new_size) = layout.unwrap();
        let mut new_data: Vec<u8> = vec![0u8; new_size];
        let ghost meta = self.components_metadata@;
        let ghost old_capacity = self.capacity as nat;
        let ghost count = self.entity_count as nat;
        let mut i: usize = 0;
        while i < self.components_metadata.len()
            invariant
                *self == *old(self),
                self.wf(),
                meta == self.components_metadata@,
                old_capacity == self.capacity,
                count == self.entity_count,
                old_capacity <= new_capacity,
                i <= meta.len(),
                new_data@.len() == new_size == buffer_size(meta, new_capacity as nat),
                types_offset@.len() == meta.len(),
                forall|k: int|
                    0 <= k < meta.len() ==> #[trigger] types_offset@[k] == column_start(
                        meta,
                        new_capacity as nat,
                        k as nat,
                    ),
                forall|c: nat|
                    c < i ==> #[trigger] column_prefix(
                        new_data@,
                        meta,
                        new_capacity as nat,
                        c,
                        count,
                    ) == column_prefix(self.data@, meta, old_capacity, c, count),
            decreases meta.len() - i,
        {
            let component_size: usize = self.components_metadata.types_metadata[i].size;
            let old_type_offset: usize = self.types_offset[i];
            let type_offset: usize = types_offset[i];
            proof {
                lemma_prefix_in_column(meta, old_capacity, i as nat, count);
                lemma_prefix_in_column(meta, new_capacity as nat, i as nat, count);
                assert(component_size * self.entity_count == count * meta[i as int].size)
                    by (nonlinear_arith)
                    requires
                        component_size == meta[i as int].size,
                        self.entity_count == count,
                ;
            }
            let length: usize = component_size * self.entity_count;
            let ghost before = new_data@;
            copy_bytes(self.data.as_slice(), old_type_offset, &mut new_data, type_offset, length);
            proof {
                assert(column_prefix(new_data@, meta, new_capacity as nat, i as nat, count)
                    =~= column_prefix(self.data@, meta, old_capacity, i as nat, count));
                assert forall|c: nat| c < i implies #[trigger] column_prefix(
                    new_data@,
                    meta,
                    new_capacity as nat,
                    c,
                    count,
                ) == column_prefix(self.data@, meta, old_capacity, c, count) by {
                    lemma_prefix_in_column(meta, new_capacity as nat, c, count);
                    lemma_columns_disjoint(meta, new_capacity as nat, c, i as nat);
                    assert(column_prefix(new_data@, meta, new_capacity as nat, c, count)
                        =~= column_prefix(before, meta, new_capacity as nat, c, count));
                }
            }
            i += 1;
        }
        proof {
            assert forall|column: nat, slot: nat|
                column < meta.len() && slot < count implies #[trigger] read_component(
                new_data@,
                meta,
                new_capacity as nat,
                column,
                slot,
            ) == read_component(self.data@, meta, old_capacity, column, slot) by {
                lemma_component_in_prefix(
                    new_data@,
                    meta,
                    new_capacity as nat,
                    column,
                    slot,
                    count,
                );
                lemma_component_in_prefix(self.data@, meta, old_capacity, column, slot, count);
            }
        }
        self.capacity = new_capacity;
        self.data = new_data;
        self.types_offset = types_offset;
    }

    /// The entity that occupies slot `data_index`.
    pub fn entity_at(&self, data_index: usize) -> (id: EntityId)
        requires
            self.wf(),
            data_index < self.spec_entity_count(),
        ensures
            id == self.entities()[data_index as int],
    {
        self.stored_entities[data_index]
    }

    /// The slot that entity `id` occupies, if it is stored here.
    pub fn find_entity(&self, id: EntityId) -> (found: Option<usize>)
        requires
            self.wf(),
        ensures
            match found {
                Some(slot) => slot < self.spec_entity_count() && self.entities()[slot as int]
                    == id,
                None => !self.entities().contains(id),
            },
    {
        let mut slot: usize = 0;
        while slot < self.stored_entities.len()
            invariant
                slot <= self.stored_entities@.len(),
                self.stored_entities@.len() == self.entity_count,
                forall|k: int| 0 <= k < slot ==> self.stored_entities@[k] != id,
            decreases self.stored_entities@.len() - slot,
        {
            if self.stored_entities[slot] == id {
                return Some(slot);
            }
            slot += 1;
        }
        None
    }

    /// Frees slot `data_index`. The entity of the last occupied slot moves
    /// into it with its components, so that the occupied slots stay without a
    /// hole; every other entity keeps its slot and its components.
    pub fn remove_slot(&mut self, data_index: usize)
        requires
            old(self).wf(),
            data_index < old(self).spec_entity_count(),
        ensures
            final(self).wf(),
            final(self).metadata() == old(self).metadata(),
            final(self).spec_capacity() == old(self).spec_capacity(),
            final(self).spec_entity_count() == old(self).spec_entity_count() - 1,
            final(self).entities() == old(self).entities().update(
                data_index as int,
                old(self).entities().last(),
            ).drop_last(),
            forall|column: nat, slot: nat|
                column < old(self).metadata().len() && slot < final(self).spec_entity_count()
                    && slot != data_index ==> #[trigger] final(self).component(column, slot)
                    == old(self).component(column, slot),
            forall|column: nat|
                column < old(self).metadata().len() && data_index < final(self).spec_entity_count() ==> #[trigger] final(self).component(
                    column,
                    data_index as nat,
                ) == old(self).component(column, (old(self).spec_entity_count() - 1) as nat),
    {
        let last: usize = self.entity_count - 1;
        if data_index != last {
            let mut i: usize = 0;
            while i < self.components_metadata.len()
                invariant
                    self.wf(),
                    self.components_metadata == old(self).components_metadata,
                    self.capacity == old(self).capacity,
                    self.entity_count == old(self).entity_count,
                    self.stored_entities == old(self).stored_entities,
                    self.types_offset == old(self).types_offset,
                    last == self.entity_count - 1,
                    data_index < last,
                    i <= self.components_metadata@.len(),
                    forall|column: nat, slot: nat|
                        column < self.metadata().len() && slot < self.spec_capacity() && slot
                            != data_index ==> #[trigger] self.component(column, slot) == old(self).component(column, slot),
                    forall|column: nat|
                        column < i ==> #[trigger] self.component(column, data_index as nat)
                            == old(self).component(column, last as nat),
                    forall|column: nat|
                        i <= column < self.metadata().len() ==> #[trigger] self.component(
                            column,
                            data_index as nat,
                        ) == old(self).component(column, data_index as nat),
                decreases self.components_metadata@.len() - i,
            {
                let ghost before = *self;
                let size: usize = self.components_metadata.types_metadata[i].size;
                let source: usize = self.slot_offset(i, last);
                let destination: usize = self.slot_offset(i, data_index);
                proof {
                    lemma_slots_disjoint(
                        self.components_metadata@,
                        self.capacity as nat,
                        i as nat,
                        last as nat,
                        i as nat,
                        data_index as nat,
                    );
                }
                copy_within(&mut self.data, source, destination, size);
                proof {
                    let meta = self.components_metadata@;
                    let capacity = self.capacity as nat;
                    let moved = read_component(before.data@, meta, capacity, i as nat, last as nat);
                    assert(self.data@ =~= write_component(
                        before.data@,
                        meta,
                        capacity,
                        i as nat,
                        data_index as nat,
                        moved,
                    ));
                    lemma_read_after_write(
                        before.data@,
                        meta,
                        capacity,
                        i as nat,
                        data_index as nat,
                        moved,
                    );
                    assert(before.component(i as nat, last as nat) == old(self).component(
                        i as nat,
                        last as nat,
                    ));
                    assert forall|column: nat, slot: nat|
                        column < meta.len() && slot < capacity && (column != i || slot
                            != data_index) implies #[trigger] self.component(column, slot)
                        == before.component(column, slot) by {
                        lemma_write_keeps_others(
                            before.data@,
                            meta,
                            capacity,
                            i as nat,
                            data_index as nat,
                            moved,
                            column,
                            slot,
                        );
                    }
                    assert forall|column: nat, slot: nat|
                        column < self.metadata().len() && slot < self.spec_capacity() && slot
                            != data_index implies #[trigger] self.component(column, slot) == old(self).component(column, slot) by {
                        assert(self.component(column, slot) == before.component(column, slot));
                    }
                    assert forall|column: nat| column < i + 1 implies #[trigger] self.component(
                        column,
                        data_index as nat,
                    ) == old(self).component(column, last as nat) by {
                        if column < i {
                            assert(self.component(column, data_index as nat) == before.component(
                                column,
                                data_index as nat,
                            ));
                        }
                    }
                    assert forall|column: nat|
                        i + 1 <= column < self.metadata().len() implies #[trigger] self.component(
                        column,
                        data_index as nat,
                    ) == old(self).component(column, data_index as nat) by {
                        assert(self.component(column, data_index as nat) == before.component(
                            column,
                            data_index as nat,
                        ));
                    }
                }
                i += 1;
            }
        }
        let ghost moved = *self;
        self.stored_entities.swap_remove(data_index);
        self.entity_count -= 1;
        proof {
            assert forall|column: nat, slot: nat|
                column < old(self).metadata().len() && slot < self.spec_entity_count() && slot
                    != data_index implies #[trigger] self.component(column, slot) == old(self).component(column, slot) by {
                assert(moved.component(column, slot) == old(self).component(column, slot));
            }
            assert forall|column: nat|
                column < old(self).metadata().len() && data_index
                    < self.spec_entity_count() implies #[trigger] self.component(
                column,
                data_index as nat,
            ) == old(self).component(column, (old(self).spec_entity_count() - 1) as nat) by {
                assert(moved.component(column, data_index as nat) == old(self).component(
                    column,
                    last as nat,
                ));
            }
        }
    }

    /// Where the component in slot `data_index` of column `type_index` starts.
    fn slot_offset(&self, type_index: usize, data_index: usize) -> (start: usize)
        requires
            self.wf(),
            type_index < self.metadata().len(),
            data_index < self.spec_capacity(),
        ensures
            start == slot_start(
                self.metadata(),
                self.spec_capacity(),
                type_index as nat,
                data_index as nat,
            ),
            start + self.metadata()[type_index as int].size <= self.bytes().len(),
    {
        proof {
            lemma_slot_in_column(
                self.components_metadata@,
                self.capacity as nat,
                type_index as nat,
                data_index as nat,
            );
        }
        let size: usize = self.components_metadata.types_metadata[type_index].size;
        let offset: usize = self.types_offset[type_index];
        assert(offset + data_index * size == slot_start(
            self.components_metadata@,
            self.capacity as nat,
            type_index as nat,
            data_index as nat,
        )) by (nonlinear_arith)
            requires
                offset == column_start(
                    self.components_metadata@,
                    self.capacity as nat,
                    type_index as nat,
                ),
                size == self.components_metadata@[type_index as int].size,
        ;
        assert(data_index * size >= 0) by (nonlinear_arith);
        let total: usize = self.data.len();
        assert(offset + data_index * size + size <= total);
        offset + data_index * size
    }

    /// The bytes of one component, borrowed from the buffer.
    pub fn component_bytes(&self, type_index: usize, data_index: usize) -> (bytes: &[u8])
        requires
            self.wf(),
            type_index < self.metadata().len(),
            data_index < self.spec_capacity(),
        ensures
            bytes@ == self.component(type_index as nat, data_index as nat),
    {
        let size: usize = self.components_metadata.types_metadata[type_index].size;
        let start: usize = self.slot_offset(type_index, data_index);
        let total: usize = self.data.len();
        assert(start + size <= total);
        slice_subrange(self.data.as_slice(), start, start + size)
    }

    /// Copies `component_data` into slot `data_index` of column `type_index`.
    /// Nothing else in the buffer changes.
    pub fn store_component(&mut self, component_data: &[u8], type_index: usize, data_index: usize)
        requires
            old(self).wf(),
            type_index < old(self).metadata().len(),
            data_index < old(self).spec_capacity(),
            component_data@.len() == old(self).metadata()[type_index as int].size,
        ensures
            final(self).wf(),
            final(self).metadata() == old(self).metadata(),
            final(self).spec_capacity() == old(self).spec_capacity(),
            final(self).spec_entity_count() == old(self).spec_entity_count(),
            final(self).entities() == old(self).entities(),
            final(self).bytes() == write_component(
                old(self).bytes(),
                old(self).metadata(),
                old(self).spec_capacity(),
                type_index as nat,
                data_index as nat,
                component_data@,
            ),
            final(self).component(type_index as nat, data_index as nat) == component_data@,
            forall|column: nat, slot: nat|
                column < old(self).metadata().len() && slot < old(self).spec_capacity() && (column
                    != type_index || slot != data_index) ==> #[trigger] final(self).component(
                    column,
                    slot,
                ) == old(self).component(column, slot),
    {
        let start: usize = self.slot_offset(type_index, data_index);
        copy_bytes(component_data, 0, &mut self.data, start, component_data.len());
        proof {
            let meta = self.components_metadata@;
            let capacity = self.capacity as nat;
            let before = old(self).data@;
            assert(component_data@.subrange(0, component_data@.len() as int) =~= component_data@);
            assert(self.data@ =~= write_component(
                before,
                meta,
                capacity,
                type_index as nat,
                data_index as nat,
                component_data@,
            ));
            lemma_read_after_write(
                before,
                meta,
                capacity,
                type_index as nat,
                data_index as nat,
                component_data@,
            );
            assert forall|column: nat, slot: nat|
                column < meta.len() && slot < capacity && (column != type_index || slot
                    != data_index) implies #[trigger] read_component(
                self.data@,
                meta,
                capacity,
                column,
                slot,
            ) == read_component(before, meta, capacity, column, slot) by {
                lemma_write_keeps_others(
                    before,
                    meta,
                    capacity,
                    type_index as nat,
                    data_index as nat,
                    component_data@,
                    column,
                    slot,
                );
            }
        }
    }
}

/// Copies `length` bytes of `source`, from `source_start` on, over the bytes of
/// `destination` from `destination_start` on.
pub fn copy_bytes(
    source: &[u8],
    source_start: usize,
    destination: &mut Vec<u8>,
    destination_start: usize,
    length: usize,
)
    requires
        source_start + length <= source@.len(),
        destination_start + length <= old(destination)@.len(),
    ensures
        final(destination)@ == old(destination)@.subrange(0, destination_start as int)
            + source@.subrange(source_start as int, source_start + length) + old(
            destination,
        )@.subrange(destination_start + length, old(destination)@.len() as int),
{
    let source_length: usize = source.len();
    let destination_length: usize = destination.len();
    let mut k: usize = 0;
    while k < length
        invariant
            k <= length,
            source_start + length <= source_length == source@.len(),
            destination_start + length <= destination_length == old(destination)@.len(),
            destination@ =~= old(destination)@.subrange(0, destination_start as int)
                + source@.subrange(source_start as int, source_start + k) + old(
                destination,
            )@.subrange(destination_start + k, old(destination)@.len() as int),
        decreases length - k,
    {
        let byte: u8 = source[source_start + k];
        destination.set(destination_start + k, byte);
        k += 1;
    }
}

/// Copies `length` bytes of `data`, from `source_start` on, over the bytes of
/// the same buffer from `destination_start` on. The two ranges do not overlap.
pub fn copy_within(data: &mut Vec<u8>, source_start: usize, destination_start: usize, length: usize)
    requires
        source_start + length <= old(data)@.len(),
        destination_start + length <= old(data)@.len(),
        source_start + length <= destination_start || destination_start + length <= source_start,
    ensures
        final(data)@ == old(data)@.subrange(0, destination_start as int) + old(data)@.subrange(
            source_start as int,
            source_start + length,
        ) + old(data)@.subrange(destination_start + length, old(data)@.len() as int),
{
    let total: usize = data.len();
    let mut k: usize = 0;
    while k < length
        invariant
            k <= length,
            total == old(data)@.len(),
            source_start + length <= total,
            destination_start + length <= total,
            source_start + length <= destination_start || destination_start + length
                <= source_start,
            data@ =~= old(data)@.subrange(0, destination_start as int) + old(data)@.subrange(
                source_start as int,
                source_start + k,
            ) + old(data)@.subrange(destination_start + k, old(data)@.len() as int),
        decreases length - k,
    {
        let byte: u8 = data[source_start + k];
        data.set(destination_start + k, byte);
        k += 1;
    }
}

} // verus!
