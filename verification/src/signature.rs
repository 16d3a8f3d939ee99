//! Type signatures: the duplicate-free, ordered list of component types that
//! selects an archetype, together with each type's size and alignment.

use vstd::prelude::*;
use crate::layout::alignments_valid;
use crate::layout::ComponentType;
use crate::layout::TypeMetadata;

verus! {

/// The entries are ordered by strictly increasing component type, so no type
/// occurs twice and the order does not depend on how the list was built.
pub open spec fn strictly_sorted(meta: Seq<TypeMetadata>) -> bool {
    forall|i: int, j: int|
        0 <= i < j < meta.len() ==> (#[trigger] meta[i]).component_type < (
        #[trigger] meta[j]).component_type
}

/// Some entry of `meta` describes the component type `ty`.
pub open spec fn has_type(meta: Seq<TypeMetadata>, ty: ComponentType) -> bool {
    exists|i: int| 0 <= i < meta.len() && (#[trigger] meta[i]).component_type == ty
}

/// No two entries describe one component type differently.
pub open spec fn consistent(types: Seq<TypeMetadata>) -> bool {
    forall|i: int, j: int|
        0 <= i < types.len() && 0 <= j < types.len() && (#[trigger] types[i]).component_type == (
        #[trigger] types[j]).component_type ==> types[i] == types[j]
}

/// `signature` is the normal form of `types`: the same component types, each
/// once, in increasing order, with entries taken from `types`.
pub open spec fn is_signature_of(signature: Seq<TypeMetadata>, types: Seq<TypeMetadata>) -> bool {
    &&& strictly_sorted(signature)
    &&& forall|ty: ComponentType| has_type(signature, ty) == has_type(types, ty)
    &&& forall|i: int| 0 <= i < signature.len() ==> types.contains(#[trigger] signature[i])
}

/// Two strictly sorted lists that hold the same component types, and describe
/// each type alike, are the same list.
pub proof fn lemma_sorted_lists_equal(a: Seq<TypeMetadata>, b: Seq<TypeMetadata>)
    requires
        strictly_sorted(a),
        strictly_sorted(b),
        forall|ty: ComponentType| has_type(a, ty) == has_type(b, ty),
        forall|i: int, j: int|
            0 <= i < a.len() && 0 <= j < b.len() && (#[trigger] a[i]).component_type == (
            #[trigger] b[j]).component_type ==> a[i] == b[j],
    ensures
        a == b,
    decreases a.len(),
{
    if a.len() == 0 {
        if b.len() > 0 {
            assert(has_type(b, b[0].component_type));
            assert(has_type(a, b[0].component_type));
        }
        assert(a =~= b);
    } else {
        let top = a.last();
        assert(has_type(a, top.component_type));
        assert(has_type(b, top.component_type));
        let j = choose|j: int| 0 <= j < b.len() && (#[trigger] b[j]).component_type == top.component_type;
        let b_top = b.last();
        assert(has_type(b, b_top.component_type));
        assert(has_type(a, b_top.component_type));
        let i = choose|i: int| 0 <= i < a.len() && (#[trigger] a[i]).component_type == b_top.component_type;
        assert(top.component_type == b_top.component_type) by {
            if i < a.len() - 1 {
                assert(a[i].component_type < a[a.len() - 1].component_type);
            }
            if j < b.len() - 1 {
                assert(b[j].component_type < b[b.len() - 1].component_type);
            }
        }
        assert(a[a.len() - 1] == b[b.len() - 1]);
        let a_rest = a.drop_last();
        let b_rest = b.drop_last();
        assert forall|ty: ComponentType| has_type(a_rest, ty) == has_type(b_rest, ty) by {
            if has_type(a_rest, ty) {
                let k = choose|k: int| 0 <= k < a_rest.len() && (#[trigger] a_rest[k]).component_type == ty;
                assert(a[k].component_type == ty);
                assert(a[k].component_type < a[a.len() - 1].component_type);
                assert(has_type(a, ty));
                let m = choose|m: int| 0 <= m < b.len() && (#[trigger] b[m]).component_type == ty;
                assert(m < b.len() - 1);
                assert(b_rest[m].component_type == ty);
            }
            if has_type(b_rest, ty) {
                let k = choose|k: int| 0 <= k < b_rest.len() && (#[trigger] b_rest[k]).component_type == ty;
                assert(b[k].component_type == ty);
                assert(b[k].component_type < b[b.len() - 1].component_type);
                assert(has_type(b, ty));
                let m = choose|m: int| 0 <= m < a.len() && (#[trigger] a[m]).component_type == ty;
                assert(m < a.len() - 1);
                assert(a_rest[m].component_type == ty);
            }
        }
        assert forall|i: int, j: int|
            0 <= i < a_rest.len() && 0 <= j < b_rest.len() && (#[trigger] a_rest[i]).component_type == (
            #[trigger] b_rest[j]).component_type implies a_rest[i] == b_rest[j] by {
            assert(a[i].component_type == b[j].component_type);
        }
        assert(strictly_sorted(a_rest)) by {
            assert forall|i: int, j: int| 0 <= i < j < a_rest.len() implies (#[trigger] a_rest[i]).component_type < (
            #[trigger] a_rest[j]).component_type by {
                assert(a[i].component_type < a[j].component_type);
            }
        }
        assert(strictly_sorted(b_rest)) by {
            assert forall|i: int, j: int| 0 <= i < j < b_rest.len() implies (#[trigger] b_rest[i]).component_type < (
            #[trigger] b_rest[j]).component_type by {
                assert(b[i].component_type < b[j].component_type);
            }
        }
        lemma_sorted_lists_equal(a_rest, b_rest);
        assert(a =~= a_rest.push(a.last()));
        assert(b =~= b_rest.push(b.last()));
    }
}

/// The signature depends on the set of component types alone, not on the
/// order in which they were listed: two lists with the same types have the
/// same signature, and two lists whose types differ have different ones.
pub proof fn lemma_signature_identity(
    first: Seq<TypeMetadata>,
    second: Seq<TypeMetadata>,
    first_signature: Seq<TypeMetadata>,
    second_signature: Seq<TypeMetadata>,
)
    requires
        is_signature_of(first_signature, first),
        is_signature_of(second_signature, second),
        consistent(first + second),
    ensures
        (forall|ty: ComponentType| has_type(first, ty) == has_type(second, ty)) <==> first_signature
            == second_signature,
{
    if forall|ty: ComponentType| has_type(first, ty) == has_type(second, ty) {
        let both = first + second;
        assert forall|i: int, j: int|
            0 <= i < first_signature.len() && 0 <= j < second_signature.len() && (
            #[trigger] first_signature[i]).component_type == (
            #[trigger] second_signature[j]).component_type implies first_signature[i]
            == second_signature[j] by {
            assert(first.contains(first_signature[i]));
            assert(second.contains(second_signature[j]));
            let m = choose|m: int| 0 <= m < first.len() && first[m] == first_signature[i];
            let n = choose|n: int| 0 <= n < second.len() && second[n] == second_signature[j];
            assert(both[m] == first[m]);
            assert(both[first.len() + n] == second[n]);
        }
        assert forall|ty: ComponentType|
            has_type(first_signature, ty) == has_type(second_signature, ty) by {
            assert(has_type(first_signature, ty) == has_type(first, ty));
            assert(has_type(second_signature, ty) == has_type(second, ty));
        }
        lemma_sorted_lists_equal(first_signature, second_signature);
    }
    if first_signature == second_signature {
        assert forall|ty: ComponentType| has_type(first, ty) == has_type(second, ty) by {
            assert(has_type(first_signature, ty) == has_type(first, ty));
            assert(has_type(second_signature, ty) == has_type(second, ty));
        }
    }
}

/// A list with one entry inserted holds the types it held, and that entry's.
pub proof fn lemma_has_type_insert(
    list: Seq<TypeMetadata>,
    position: int,
    entry: TypeMetadata,
    ty: ComponentType,
)
    requires
        0 <= position <= list.len(),
    ensures
        has_type(list.insert(position, entry), ty) == (has_type(list, ty) || entry.component_type
            == ty),
{
    let longer = list.insert(position, entry);
    if has_type(longer, ty) {
        let k = choose|k: int| 0 <= k < longer.len() && (#[trigger] longer[k]).component_type == ty;
        if k < position {
            assert(list[k].component_type == ty);
        } else if k > position {
            assert(list[k - 1].component_type == ty);
        }
    }
    if has_type(list, ty) {
        let k = choose|k: int| 0 <= k < list.len() && (#[trigger] list[k]).component_type == ty;
        if k < position {
            assert(longer[k].component_type == ty);
        } else {
            assert(longer[k + 1].component_type == ty);
        }
    }
    if entry.component_type == ty {
        assert(longer[position].component_type == ty);
    }
}

/// A prefix that is one entry longer holds the types of the shorter one, and
/// that entry's.
pub proof fn lemma_has_type_prefix(types: Seq<TypeMetadata>, length: int, ty: ComponentType)
    requires
        0 <= length < types.len(),
    ensures
        has_type(types.subrange(0, length + 1), ty) == (has_type(types.subrange(0, length), ty)
            || types[length].component_type == ty),
{
    let shorter = types.subrange(0, length);
    let longer = types.subrange(0, length + 1);
    if has_type(longer, ty) {
        let k = choose|k: int| 0 <= k < longer.len() && (#[trigger] longer[k]).component_type == ty;
        if k < length {
            assert(shorter[k].component_type == ty);
        }
    }
    if has_type(shorter, ty) {
        let k = choose|k: int|
            0 <= k < shorter.len() && (#[trigger] shorter[k]).component_type == ty;
        assert(longer[k].component_type == ty);
    }
    if types[length].component_type == ty {
        assert(longer[length].component_type == ty);
    }
}

/// The list `meta` describes every component type in `types`.
pub open spec fn has_types(meta: Seq<TypeMetadata>, types: Seq<ComponentType>) -> bool {
    forall|i: int| 0 <= i < types.len() ==> has_type(meta, #[trigger] types[i])
}

/// `entry` is the first entry of `types` for its component type.
pub open spec fn is_first_of_its_type(types: Seq<TypeMetadata>, entry: TypeMetadata) -> bool {
    exists|k: int|
        0 <= k < types.len() && #[trigger] types[k] == entry && forall|j: int|
            0 <= j < k ==> (#[trigger] types[j]).component_type != entry.component_type
}

/// The component types of one archetype, with the layout of each.
pub struct ComponentsMetadata {
    pub types_metadata: Vec<TypeMetadata>,
}

impl View for ComponentsMetadata {
    type V = Seq<TypeMetadata>;

    open spec fn view(&self) -> Seq<TypeMetadata> {
        self.types_metadata@
    }
}

impl ComponentsMetadata {
    /// Alignments are non-zero and the entries are in signature order.
    pub open spec fn wf(&self) -> bool {
        &&& alignments_valid(self@)
        &&& strictly_sorted(self@)
    }

    /// The signature of a list of component types: the same types, each once,
    /// in increasing order. Of two entries for one type the first one stays.
    pub fn from_types(types: &Vec<TypeMetadata>) -> (metadata: Self)
        ensures
            alignments_valid(types@) ==> metadata.wf(),
            is_signature_of(metadata@, types@),
            forall|i: int|
                0 <= i < metadata@.len() ==> is_first_of_its_type(types@, #[trigger] metadata@[i]),
    {
        let mut sorted: Vec<TypeMetadata> = Vec::new();
        let mut i: usize = 0;
        while i < types.len()
            invariant
                i <= types@.len(),
                alignments_valid(types@) ==> alignments_valid(sorted@),
                strictly_sorted(sorted@),
                forall|ty: ComponentType|
                    has_type(sorted@, ty) == has_type(types@.subrange(0, i as int), ty),
                forall|k: int| 0 <= k < sorted@.len() ==> types@.contains(#[trigger] sorted@[k]),
                forall|k: int|
                    0 <= k < sorted@.len() ==> is_first_of_its_type(types@, #[trigger] sorted@[k]),
            decreases types@.len() - i,
        {
            let entry = types[i];
            let mut position: usize = 0;
            while position < sorted.len() && sorted[position].component_type
                < entry.component_type
                invariant
                    position <= sorted@.len(),
                    forall|k: int|
                        0 <= k < position ==> (#[trigger] sorted@[k]).component_type
                            < entry.component_type,
                decreases sorted@.len() - position,
            {
                position += 1;
            }
            let ghost before = sorted@;
            let present = position < sorted.len() && sorted[position].component_type
                == entry.component_type;
            if !present {
                sorted.insert(position, entry);
                proof {
                    assert forall|a: int, b: int| 0 <= a < b < sorted@.len() implies (
                    #[trigger] sorted@[a]).component_type < (
                    #[trigger] sorted@[b]).component_type by {
                        let a_before = if a < position { a } else { a - 1 };
                        let b_before = if b < position { b } else { b - 1 };
                        if a != position && b != position {
                            assert(before[a_before].component_type
                                < before[b_before].component_type);
                        } else if a == position {
                            assert(before[position as int].component_type
                                <= before[b_before].component_type) by {
                                if position < b_before {
                                    assert(before[position as int].component_type
                                        < before[b_before].component_type);
                                }
                            }
                        }
                    }
                    assert forall|k: int| 0 <= k < sorted@.len() implies types@.contains(
                        #[trigger] sorted@[k],
                    ) by {
                        if k < position {
                            assert(sorted@[k] == before[k]);
                        } else if k > position {
                            assert(sorted@[k] == before[k - 1]);
                        } else {
                            assert(types@[i as int] == entry);
                        }
                    }
                    assert forall|k: int| 0 <= k < sorted@.len() implies is_first_of_its_type(
                        types@,
                        #[trigger] sorted@[k],
                    ) by {
                        if k < position {
                            assert(sorted@[k] == before[k]);
                        } else if k > position {
                            assert(sorted@[k] == before[k - 1]);
                        } else {
                            assert(types@[i as int] == entry);
                            assert forall|j: int| 0 <= j < i implies (
                            #[trigger] types@[j]).component_type != entry.component_type by {
                                if types@[j].component_type == entry.component_type {
                                    assert(types@.subrange(0, i as int)[j].component_type
                                        == entry.component_type);
                                    assert(has_type(
                                        types@.subrange(0, i as int),
                                        entry.component_type,
                                    ));
                                    assert(has_type(before, entry.component_type));
                                    let m = choose|m: int|
                                        0 <= m < before.len() && (
                                        #[trigger] before[m]).component_type
                                            == entry.component_type;
                                    if m < position {
                                        assert(before[m].component_type < entry.component_type);
                                    } else {
                                        if m > position {
                                            assert(before[position as int].component_type
                                                < before[m].component_type);
                                        }
                                    }
                                }
                            }
                        }
                    }
                    if alignments_valid(types@) {
                        assert forall|k: int| 0 <= k < sorted@.len() implies (
                        #[trigger] sorted@[k]).align > 0 by {
                            if k < position {
                                assert(sorted@[k] == before[k]);
                            } else if k > position {
                                assert(sorted@[k] == before[k - 1]);
                            } else {
                                assert(types@[i as int] == entry);
                            }
                        }
                    }
                }
            }
            proof {
                assert forall|ty: ComponentType|
                    has_type(sorted@, ty) == has_type(types@.subrange(0, i + 1), ty) by {
                    lemma_has_type_prefix(types@, i as int, ty);
                    if present {
                        assert(has_type(before, entry.component_type));
                    } else {
                        lemma_has_type_insert(before, position as int, entry, ty);
                    }
                }
            }
            i += 1;
        }
        proof {
            assert(types@.subrange(0, i as int) =~= types@);
        }
        ComponentsMetadata { types_metadata: sorted }
    }

    /// Number of component types.
    pub fn len(&self) -> (n: usize)
        ensures
            n == self@.len(),
    {
        self.types_metadata.len()
    }

    /// Tells whether two signatures are the same list of types and layouts.
    pub fn same_signature(&self, other: &ComponentsMetadata) -> (same: bool)
        ensures
            same == (self@ == other@),
    {
        if self.types_metadata.len() != other.types_metadata.len() {
            return false;
        }
        let mut i: usize = 0;
        while i < self.types_metadata.len()
            invariant
                self@.len() == other@.len(),
                i <= self@.len(),
                forall|k: int| 0 <= k < i ==> self@[k] == other@[k],
            decreases self@.len() - i,
        {
            let left = self.types_metadata[i];
            let right = other.types_metadata[i];
            if left.component_type != right.component_type || left.size != right.size || left.align
                != right.align {
                return false;
            }
            i += 1;
        }
        assert(self@ =~= other@);
        true
    }

    /// Tells whether the signature holds every component type in `types`.
    pub fn holds_all(&self, types: &Vec<ComponentType>) -> (all: bool)
        ensures
            all == has_types(self@, types@),
    {
        let mut i: usize = 0;
        while i < types.len()
            invariant
                i <= types@.len(),
                forall|k: int| 0 <= k < i ==> has_type(self@, #[trigger] types@[k]),
            decreases types@.len() - i,
        {
            match self.index_of(types[i]) {
                Some(_) => {},
                None => {
                    return false;
                },
            }
            i += 1;
        }
        true
    }

    /// The column of component type `ty`, if the signature holds that type.
    pub fn index_of(&self, ty: ComponentType) -> (found: Option<usize>)
        ensures
            match found {
                Some(i) => i < self@.len() && self@[i as int].component_type == ty,
                None => !has_type(self@, ty),
            },
    {
        let mut i: usize = 0;
        while i < self.types_metadata.len()
            invariant
                i <= self@.len(),
                forall|k: int| 0 <= k < i ==> (#[trigger] self@[k]).component_type != ty,
            decreases self@.len() - i,
        {
            if self.types_metadata[i].component_type == ty {
                return Some(i);
            }
            i += 1;
        }
        None
    }
}

} // verus!
