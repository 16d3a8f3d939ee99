//! The entity identifier allocator: issues identifiers, takes them back and
//! hands the one released last out again first.

use vstd::prelude::*;
use vstd::relations::injective;
use vstd::set_lib::lemma_int_range;
use vstd::set_lib::lemma_len_subset;
use vstd::set_lib::set_int_range;

verus! {

/// Handle of an entity.
pub type EntityId = usize;

/// The state of an allocator: the next identifier that was never issued, and
/// the stack of released identifiers. Identifiers start at zero, so every
/// identifier below `next_id` was issued.
pub struct IdPool {
    pub next_id: nat,
    pub free_list: Seq<EntityId>,
}

impl IdPool {
    /// Released identifiers were issued before, and none is on the stack twice.
    pub open spec fn wf(self) -> bool {
        &&& self.free_list.no_duplicates()
        &&& forall|i: int|
            0 <= i < self.free_list.len() ==> #[trigger] self.free_list[i]
                < self.next_id
    }

    /// `id` was issued and not released since.
    pub open spec fn is_live(self, id: EntityId) -> bool {
        id < self.next_id && !self.free_list.contains(id)
    }

    /// Number of live identifiers.
    pub open spec fn live_count(self) -> int {
        self.next_id - self.free_list.len()
    }

    /// The identifier that the next allocation returns: the one released last,
    /// or the next new one where none is released.
    pub open spec fn allocate_id(self) -> nat {
        if self.free_list.len() > 0 {
            self.free_list.last() as nat
        } else {
            self.next_id
        }
    }

    /// An identifier is left to allocate: a released one, or a new one below
    /// the largest integer.
    pub open spec fn can_allocate(self) -> bool {
        self.free_list.len() > 0 || self.next_id < usize::MAX
    }

    /// The state after an allocation.
    pub open spec fn after_allocate(self) -> IdPool {
        if self.free_list.len() > 0 {
            IdPool { next_id: self.next_id, free_list: self.free_list.drop_last() }
        } else {
            IdPool { next_id: self.next_id + 1, free_list: self.free_list }
        }
    }

    /// The state after `id` was released.
    pub open spec fn after_release(self, id: EntityId) -> IdPool {
        IdPool { next_id: self.next_id, free_list: self.free_list.push(id) }
    }

    /// An allocation never returns a live identifier; afterwards that identifier
    /// is live and no other identifier changed. A new identifier is issued only
    /// when no released one is left.
    pub proof fn lemma_allocate_is_fresh(self)
        requires
            self.wf(),
            self.can_allocate(),
        ensures
            self.after_allocate().wf(),
            self.allocate_id() <= usize::MAX,
            !self.is_live(self.allocate_id() as EntityId),
            self.after_allocate().is_live(self.allocate_id() as EntityId),
            forall|other: EntityId|
                other != self.allocate_id() ==> self.after_allocate().is_live(other)
                    == self.is_live(other),
            self.after_allocate().next_id > self.next_id ==> self.free_list.len() == 0,
            self.after_allocate().live_count() == self.live_count() + 1,
    {
        let after = self.after_allocate();
        if self.free_list.len() > 0 {
            let last = self.free_list.last();
            let rest = self.free_list.drop_last();
            assert(self.free_list[self.free_list.len() - 1] == last);
            assert(self.free_list.contains(last));
            assert forall|i: int| 0 <= i < rest.len() implies #[trigger] rest[i]
                < self.next_id by {
                assert(rest[i] == self.free_list[i]);
            }
            assert(!rest.contains(last)) by {
                if rest.contains(last) {
                    let i = choose|i: int| 0 <= i < rest.len() && rest[i] == last;
                    assert(self.free_list[i] == self.free_list[self.free_list.len() - 1]);
                }
            }
            assert forall|other: EntityId| other != last implies after.is_live(other)
                == self.is_live(other) by {
                if rest.contains(other) {
                    let i = choose|i: int| 0 <= i < rest.len() && rest[i] == other;
                    assert(self.free_list[i] == other);
                }
                if self.free_list.contains(other) {
                    let i = choose|i: int|
                        0 <= i < self.free_list.len() && self.free_list[i] == other;
                    assert(rest[i] == other);
                }
            }
        } else {
            assert forall|other: EntityId| other != self.next_id implies after.is_live(other)
                == self.is_live(other) by {}
        }
    }

    /// Releasing a live identifier keeps the state well formed, ends the life
    /// of that identifier and of no other.
    pub proof fn lemma_release(self, id: EntityId)
        requires
            self.wf(),
            self.is_live(id),
        ensures
            self.after_release(id).wf(),
            !self.after_release(id).is_live(id),
            forall|other: EntityId|
                other != id ==> self.after_release(id).is_live(other) == self.is_live(other),
            self.after_release(id).live_count() == self.live_count() - 1,
    {
        let after = self.after_release(id);
        assert(after.free_list[self.free_list.len() as int] == id);
        assert(after.free_list.contains(id));
        assert forall|i: int, j: int|
            0 <= i < after.free_list.len() && 0 <= j < after.free_list.len() && i
                != j implies after.free_list[i] != after.free_list[j] by {
            if i < self.free_list.len() {
                assert(self.free_list.contains(self.free_list[i]));
            }
            if j < self.free_list.len() {
                assert(self.free_list.contains(self.free_list[j]));
            }
        }
        assert forall|other: EntityId| other != id implies after.is_live(other) == self.is_live(
            other,
        ) by {
            if after.free_list.contains(other) {
                let i = choose|i: int|
                    0 <= i < after.free_list.len() && after.free_list[i] == other;
                assert(self.free_list[i] == other);
            }
            if self.free_list.contains(other) {
                let i = choose|i: int| 0 <= i < self.free_list.len() && self.free_list[i] == other;
                assert(after.free_list[i] == other);
            }
        }
    }

    /// A released identifier comes back with the very next allocation, before
    /// any identifier is issued for the first time, and the allocator is then
    /// in the state it had before the release.
    pub proof fn lemma_released_id_is_reused_first(self, id: EntityId)
        requires
            self.wf(),
            self.is_live(id),
        ensures
            self.after_release(id).allocate_id() == id,
            self.after_release(id).after_allocate() == self,
    {
        let released = self.after_release(id);
        assert(released.free_list.drop_last() =~= self.free_list);
    }

    /// While an identifier waits on the stack of released ones, no identifier
    /// is issued for the first time: an allocation returns it, or returns
    /// another released identifier and leaves it waiting; a release leaves it
    /// waiting too.
    pub proof fn lemma_released_id_waits_for_reuse(self, id: EntityId, other: EntityId)
        requires
            self.wf(),
            self.free_list.contains(id),
        ensures
            self.allocate_id() == id || self.after_allocate().free_list.contains(id),
            self.after_allocate().next_id == self.next_id,
            self.after_release(other).free_list.contains(id),
            self.after_release(other).next_id == self.next_id,
    {
        let i = choose|i: int| 0 <= i < self.free_list.len() && self.free_list[i] == id;
        if i < self.free_list.len() - 1 {
            assert(self.free_list.drop_last()[i] == id);
        }
        assert(self.free_list.push(other)[i] == id);
    }

    /// There are never more released identifiers than issued ones.
    pub proof fn lemma_free_list_bounded(self)
        requires
            self.wf(),
        ensures
            self.live_count() >= 0,
    {
        let widen = |id: EntityId| id as int;
        let ids = self.free_list.map_values(widen);
        assert(injective(widen));
        self.free_list.lemma_no_duplicates_injective(widen);
        ids.unique_seq_to_set();
        lemma_int_range(0, self.next_id as int);
        assert(ids.to_set().subset_of(set_int_range(0, self.next_id as int)))
            by {
            assert forall|value: int| ids.to_set().contains(value) implies set_int_range(
                0,
                self.next_id as int,
            ).contains(value) by {
                let i = choose|i: int| 0 <= i < ids.len() && ids[i] == value;
                assert(ids[i] == self.free_list[i] as int);
            }
        }
        lemma_len_subset(
            ids.to_set(),
            set_int_range(0, self.next_id as int),
        );
    }
}

/// Issues and recycles entity identifiers.
pub struct EntityStore {
    next_id: EntityId,
    free_list: Vec<EntityId>,
}

impl View for EntityStore {
    type V = IdPool;

    closed spec fn view(&self) -> IdPool {
        IdPool { next_id: self.next_id as nat, free_list: self.free_list@ }
    }
}

impl EntityStore {
    /// An allocator that has issued nothing yet.
    pub fn new() -> (store: Self)
        ensures
            store@.wf(),
            store@.next_id == 0,
            store@.free_list == Seq::<EntityId>::empty(),
    {
        Self { next_id: 0, free_list: Vec::new() }
    }

    /// Tells whether an identifier is left to allocate.
    pub fn can_allocate(&self) -> (possible: bool)
        ensures
            possible == self@.can_allocate(),
    {
        !self.free_list.is_empty() || self.next_id < usize::MAX
    }

    /// Tells whether `id` was issued and not released since.
    pub fn is_live(&self, id: EntityId) -> (live: bool)
        ensures
            live == self@.is_live(id),
    {
        if id >= self.next_id {
            return false;
        }
        let mut i: usize = 0;
        while i < self.free_list.len()
            invariant
                i <= self.free_list@.len(),
                forall|k: int| 0 <= k < i ==> self.free_list@[k] != id,
            decreases self.free_list@.len() - i,
        {
            if self.free_list[i] == id {
                return false;
            }
            i += 1;
        }
        true
    }

    /// Returns the identifier released last, or a new one where none is released.
    pub fn allocate_entity(&mut self) -> (id: EntityId)
        requires
            old(self)@.wf(),
            old(self)@.can_allocate(),
        ensures
            id == old(self)@.allocate_id(),
            final(self)@ == old(self)@.after_allocate(),
            final(self)@.wf(),
            !old(self)@.is_live(id),
            final(self)@.is_live(id),
            forall|other: EntityId|
                other != id ==> final(self)@.is_live(other) == old(self)@.is_live(other),
            final(self)@.live_count() == old(self)@.live_count() + 1,
    {
        proof {
            old(self)@.lemma_allocate_is_fresh();
        }
        let id = if self.free_list.is_empty() {
            let next_id = self.next_id;
            self.next_id += 1;
            next_id
        } else {
            self.free_list.pop().unwrap()
        };
        id
    }

    /// Puts a live identifier on the stack of released ones.
    pub fn free_entity(&mut self, id: EntityId)
        requires
            old(self)@.wf(),
            old(self)@.is_live(id),
        ensures
            final(self)@ == old(self)@.after_release(id),
            final(self)@.wf(),
            !final(self)@.is_live(id),
            forall|other: EntityId|
                other != id ==> final(self)@.is_live(other) == old(self)@.is_live(other),
            final(self)@.live_count() == old(self)@.live_count() - 1,
    {
        proof {
            old(self)@.lemma_release(id);
        }
        self.free_list.push(id);
    }

    /// Number of live identifiers.
    pub fn entity_count(&self) -> (count: usize)
        requires
            self@.wf(),
        ensures
            count == self@.live_count(),
    {
        proof {
            self@.lemma_free_list_bounded();
        }
        self.next_id - self.free_list.len()
    }
}

} // verus!
