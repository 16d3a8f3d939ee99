//! Column layout: where each component column starts inside an archetype's
//! buffer, and how large the buffer has to be for a given capacity.

use vstd::prelude::*;
use vstd::arithmetic::div_mod::lemma_fundamental_div_mod;
use vstd::arithmetic::div_mod::lemma_fundamental_div_mod_converse;

verus! {

/// Runtime key of a component type. It only selects a column; values are never
/// dispatched on it.
pub type ComponentType = u64;

/// What the storage engine knows about one component type.
#[derive(Clone, Copy, Debug)]
pub struct TypeMetadata {
    pub component_type: ComponentType,
    pub size: usize,
    pub align: usize,
}

/// `value` rounded up to the next multiple of `alignment`.
pub open spec fn align_up(value: nat, alignment: nat) -> nat {
    if alignment == 0 {
        value
    } else {
        (((value + alignment - 1) / (alignment as int)) * alignment) as nat
    }
}

/// Rounding up adds the distance to the next multiple, and nothing to a multiple.
pub proof fn lemma_align_up_by_remainder(value: nat, alignment: nat)
    requires
        alignment > 0,
    ensures
        value % alignment == 0 ==> align_up(value, alignment) == value,
        value % alignment != 0 ==> align_up(value, alignment) == value + alignment - (value
            % alignment),
        value <= align_up(value, alignment) < value + alignment,
        align_up(value, alignment) % alignment == 0,
{
    let v = value as int;
    let a = alignment as int;
    let q = v / a;
    let r = v % a;
    lemma_fundamental_div_mod(v, a);
    assert(v == a * q + r);
    assert(a * q == q * a) by (nonlinear_arith);
    if r == 0 {
        lemma_fundamental_div_mod_converse(v + a - 1, a, q, a - 1);
        lemma_fundamental_div_mod_converse(q * a, a, q, 0);
    } else {
        assert((q + 1) * a == q * a + a) by (nonlinear_arith);
        lemma_fundamental_div_mod_converse(v + a - 1, a, q + 1, r - 1);
        lemma_fundamental_div_mod_converse((q + 1) * a, a, q + 1, 0);
    }
}

/// Rounds `value` up to the next multiple of `alignment`.
pub fn align(value: usize, alignment: usize) -> (aligned: usize)
    requires
        alignment > 0,
        align_up(value as nat, alignment as nat) <= usize::MAX,
    ensures
        aligned == align_up(value as nat, alignment as nat),
{
    proof {
        lemma_align_up_by_remainder(value as nat, alignment as nat);
    }
    let remainder: usize = value % alignment;
    if remainder == 0 {
        value
    } else {
        value + (alignment - remainder)
    }
}

/// Byte offset just past the first `n` columns of a buffer that holds
/// `capacity` slots: each column starts at the running offset rounded up to
/// its alignment and takes `size * capacity` bytes.
pub open spec fn column_end(meta: Seq<TypeMetadata>, capacity: nat, n: nat) -> nat
    decreases n,
{
    if n == 0 {
        0
    } else {
        let i = (n - 1) as nat;
        (align_up(column_end(meta, capacity, i), meta[i as int].align as nat) + meta[i as int].size
            * capacity) as nat
    }
}

/// Byte offset of the first element of column `i`.
pub open spec fn column_start(meta: Seq<TypeMetadata>, capacity: nat, i: nat) -> nat {
    align_up(column_end(meta, capacity, i), meta[i as int].align as nat)
}

/// Size of the buffer that holds `capacity` slots of every column.
pub open spec fn buffer_size(meta: Seq<TypeMetadata>, capacity: nat) -> nat {
    column_end(meta, capacity, meta.len())
}

/// Every column has a non-zero alignment.
pub open spec fn alignments_valid(meta: Seq<TypeMetadata>) -> bool {
    forall|i: int| 0 <= i < meta.len() ==> (#[trigger] meta[i]).align > 0
}

/// A column lies between the end of the columns before it and the end of the
/// columns up to it.
pub proof fn lemma_column_bounds(meta: Seq<TypeMetadata>, capacity: nat, i: nat)
    requires
        alignments_valid(meta),
        i < meta.len(),
    ensures
        column_end(meta, capacity, i) <= column_start(meta, capacity, i),
        column_start(meta, capacity, i) + meta[i as int].size * capacity == column_end(
            meta,
            capacity,
            i + 1,
        ),
        column_start(meta, capacity, i) % (meta[i as int].align as nat) == 0,
{
    lemma_align_up_by_remainder(column_end(meta, capacity, i), meta[i as int].align as nat);
}

/// The running end offset never decreases from one column to the next.
pub proof fn lemma_column_end_monotone(meta: Seq<TypeMetadata>, capacity: nat, i: nat, j: nat)
    requires
        alignments_valid(meta),
        i <= j <= meta.len(),
    ensures
        column_end(meta, capacity, i) <= column_end(meta, capacity, j),
    decreases j,
{
    if i < j {
        let k = (j - 1) as nat;
        lemma_column_end_monotone(meta, capacity, i, k);
        lemma_column_bounds(meta, capacity, k);
        assert(meta[k as int].size * capacity >= 0) by (nonlinear_arith);
    }
}

/// Offsets increase with the column index and columns do not overlap: an earlier
/// column ends before a later one starts.
pub proof fn lemma_columns_disjoint(meta: Seq<TypeMetadata>, capacity: nat, i: nat, j: nat)
    requires
        alignments_valid(meta),
        i < j < meta.len(),
    ensures
        column_start(meta, capacity, i) + meta[i as int].size * capacity <= column_start(
            meta,
            capacity,
            j,
        ),
{
    lemma_column_bounds(meta, capacity, i);
    lemma_column_bounds(meta, capacity, j);
    lemma_column_end_monotone(meta, capacity, i + 1, j);
}

/// Every column lies inside the buffer.
pub proof fn lemma_column_in_buffer(meta: Seq<TypeMetadata>, capacity: nat, i: nat)
    requires
        alignments_valid(meta),
        i < meta.len(),
    ensures
        column_start(meta, capacity, i) + meta[i as int].size * capacity <= buffer_size(
            meta,
            capacity,
        ),
{
    lemma_column_bounds(meta, capacity, i);
    lemma_column_end_monotone(meta, capacity, i + 1, meta.len());
}

/// A buffer without slots is empty, whatever the columns are.
pub proof fn lemma_empty_capacity(meta: Seq<TypeMetadata>, n: nat)
    requires
        alignments_valid(meta),
        n <= meta.len(),
    ensures
        column_end(meta, 0, n) == 0,
        n < meta.len() ==> column_start(meta, 0, n) == 0,
    decreases n,
{
    if n > 0 {
        let i = (n - 1) as nat;
        lemma_empty_capacity(meta, i);
        lemma_align_up_by_remainder(0, meta[i as int].align as nat);
        assert(meta[i as int].size * 0 == 0) by (nonlinear_arith);
    }
    if n < meta.len() {
        lemma_align_up_by_remainder(0, meta[n as int].align as nat);
    }
}

/// Computes the offset of every column and the size of the whole buffer for
/// `capacity` slots, or `None` where the buffer would not fit the address space.
pub fn compute_layout(meta: &Vec<TypeMetadata>, capacity: usize) -> (layout: Option<
    (Vec<usize>, usize),
>)
    requires
        alignments_valid(meta@),
    ensures
        layout.is_some() <==> buffer_size(meta@, capacity as nat) <= usize::MAX,
        match layout {
            Some((offsets, size)) => {
                &&& size == buffer_size(meta@, capacity as nat)
                &&& offsets@.len() == meta@.len()
                &&& forall|i: int|
                    0 <= i < meta@.len() ==> offsets@[i] == column_start(
                        meta@,
                        capacity as nat,
                        i as nat,
                    )
            },
            None => true,
        },
{
    let mut offsets: Vec<usize> = Vec::new();
    let mut end: usize = 0;
    let mut i: usize = 0;
    while i < meta.len()
        invariant
            alignments_valid(meta@),
            i <= meta@.len(),
            offsets@.len() == i,
            end == column_end(meta@, capacity as nat, i as nat),
            forall|k: int|
                0 <= k < i ==> offsets@[k] == column_start(meta@, capacity as nat, k as nat),
        decreases meta@.len() - i,
    {
        let entry = meta[i];
        proof {
            lemma_align_up_by_remainder(end as nat, entry.align as nat);
            lemma_column_bounds(meta@, capacity as nat, i as nat);
            lemma_column_end_monotone(meta@, capacity as nat, (i + 1) as nat, meta@.len());
        }
        let remainder: usize = end % entry.align;
        if remainder != 0 && entry.align - remainder > usize::MAX - end {
            return None;
        }
        let start: usize = align(end, entry.align);
        let bytes: usize = match entry.size.checked_mul(capacity) {
            Some(bytes) => bytes,
            None => {
                return None;
            },
        };
        end =
        match start.checked_add(bytes) {
            Some(next) => next,
            None => {
                return None;
            },
        };
        offsets.push(start);
        i += 1;
    }
    Some((offsets, end))
}

} // verus!
