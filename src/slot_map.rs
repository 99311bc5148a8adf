use vstd::prelude::*;

verus! {

/// A handle into a `SlotMap`: the slot's position and the generation of the
/// map that issued it. Handles of an earlier generation never resolve.
#[derive(Clone, Copy, Debug, PartialEq, Eq, Structural)]
pub struct SlotId {
    pub(crate) index: usize,
    pub(crate) generation: u64,
}

/// Growable slot storage whose handles stay valid until the next `clear`.
#[derive(Debug)]
pub struct SlotMap<T> {
    slots: Vec<T>,
    generation: u64,
}

impl SlotId {
    /// The position of the slot.
    pub closed spec fn slot(self) -> int {
        self.index as int
    }

    /// The generation of the map that issued the handle.
    pub closed spec fn epoch(self) -> u64 {
        self.generation
    }

    /// A handle is determined by its slot and its generation.
    pub proof fn lemma_determined(a: SlotId, b: SlotId)
        requires
            a.slot() == b.slot(),
            a.epoch() == b.epoch(),
        ensures
            a == b,
    {
    }
}

impl<T> SlotMap<T> {
    /// The values stored, by slot.
    pub closed spec fn view(&self) -> Seq<T> {
        self.slots@
    }

    /// The generation that handles must carry to resolve.
    pub closed spec fn epoch(&self) -> u64 {
        self.generation
    }

    /// `id` resolves in this map.
    pub open spec fn valid(&self, id: SlotId) -> bool {
        id.epoch() == self.epoch() && 0 <= id.slot() < self@.len()
    }

    /// What `id` resolves to, if anything.
    pub open spec fn lookup(&self, id: SlotId) -> Option<T> {
        if self.valid(id) {
            Some(self@[id.slot()])
        } else {
            None
        }
    }

    /// The map keeps every entry of `prev` under the same handle.
    pub open spec fn extends(&self, prev: &SlotMap<T>) -> bool {
        self.epoch() == prev.epoch() && prev@.len() <= self@.len() && prev@ =~= self@.subrange(
            0,
            prev@.len() as int,
        )
    }

    pub fn new() -> (r: SlotMap<T>)
        ensures
            r@.len() == 0,
            r.epoch() == 0,
    {
        SlotMap { slots: Vec::new(), generation: 0 }
    }

    pub fn len(&self) -> (r: usize)
        ensures
            r == self@.len(),
    {
        self.slots.len()
    }

    /// Stores `value` in a fresh slot and returns its handle.
    pub fn insert(&mut self, value: T) -> (r: SlotId)
        requires
            old(self)@.len() < usize::MAX,
        ensures
            final(self)@ == old(self)@.push(value),
            final(self).epoch() == old(self).epoch(),
            r.slot() == old(self)@.len(),
            r.epoch() == old(self).epoch(),
            final(self).valid(r),
            final(self).lookup(r) == Some(value),
            final(self).extends(old(self)),
    {
        let id = SlotId { index: self.slots.len(), generation: self.generation };
        self.slots.push(value);
        id
    }

    /// The value stored under `id`, or `None` for a stale or foreign handle.
    pub fn get(&self, id: &SlotId) -> (r: Option<&T>)
        ensures
            r.is_some() == self.valid(*id),
            r matches Some(v) ==> Some(*v) == self.lookup(*id),
    {
        if id.generation == self.generation && id.index < self.slots.len() {
            Some(&self.slots[id.index])
        } else {
            None
        }
    }

    /// Empties the map and moves it to a new generation, so that no handle
    /// issued so far resolves again.
    pub fn clear(&mut self)
        ensures
            final(self)@.len() == 0,
            final(self).epoch() == (if old(self).epoch() < u64::MAX {
                (old(self).epoch() + 1) as u64
            } else {
                0u64
            }),
            forall|id: SlotId| !#[trigger] final(self).valid(id),
    {
        self.slots.clear();
        self.generation = self.generation.wrapping_add(1);
    }
}

/// A handle issued before a `clear` does not resolve after it, nor after any
/// number of later inserts, as long as the generation has not wrapped round.
pub proof fn lemma_stale_handle<T>(before: &SlotMap<T>, after: &SlotMap<T>, id: SlotId)
    requires
        before.valid(id),
        after.epoch() != before.epoch(),
    ensures
        after.lookup(id) is None,
{
}

} // verus!
