use vstd::prelude::*;

verus! {

/// An opaque handle on an entity: a slot index paired with the generation the
/// slot had when the handle was issued. A handle is live while its slot is
/// allocated and still carries the same generation, so a handle that outlived
/// a free never validates against a reissued slot.
#[derive(Clone, Copy, PartialEq, Eq, Structural, Debug)]
pub struct Entity {
    pub index: usize,
    pub generation: u64,
}

struct Slot {
    generation: u64,
    alive: bool,
}

/// Issues entity handles. Freed slots are reissued with an incremented
/// generation.
pub struct EntityAllocator {
    slots: Vec<Slot>,
    free_list: Vec<usize>,
}

impl EntityAllocator {
    /// Whether the handle `e` is currently allocated.
    pub closed spec fn live(self, e: Entity) -> bool {
        &&& e.index < self.slots@.len()
        &&& self.slots@[e.index as int].alive
        &&& self.slots@[e.index as int].generation == e.generation
    }

    pub closed spec fn wf(self) -> bool {
        &&& forall|k: int|
            0 <= k < self.free_list@.len() ==> #[trigger] self.free_list@[k] < self.slots@.len()
                && !self.slots@[self.free_list@[k] as int].alive
        &&& forall|k1: int, k2: int|
            0 <= k1 < k2 < self.free_list@.len() ==> self.free_list@[k1] != self.free_list@[k2]
    }

    /// Two live handles with the same slot index are the same handle.
    pub proof fn lemma_live_same_index(self, e1: Entity, e2: Entity)
        requires
            self.live(e1),
            self.live(e2),
            e1.index == e2.index,
        ensures
            e1 == e2,
    {
    }

    pub fn new() -> (r: EntityAllocator)
        ensures
            r.wf(),
            forall|e: Entity| !r.live(e),
    {
        EntityAllocator { slots: Vec::new(), free_list: Vec::new() }
    }

    /// Issues a fresh handle: one that was not live before the call. All
    /// handles live before the call stay live.
    pub fn allocate(&mut self) -> (e: Entity)
        requires
            old(self).wf(),
        ensures
            final(self).wf(),
            final(self).live(e),
            !old(self).live(e),
            forall|e2: Entity| e2 != e ==> final(self).live(e2) == old(self).live(e2),
    {
        match self.free_list.pop() {
            Some(i) => {
                let generation = self.slots[i].generation;
                self.slots[i] = Slot { generation, alive: true };
                Entity { index: i, generation }
            },
            None => {
                let index = self.slots.len();
                self.slots.push(Slot { generation: 0, alive: true });
                Entity { index, generation: 0 }
            },
        }
    }

    /// Retires a live handle. The slot's generation advances (saturating at
    /// the largest representable generation), so a handle freed below that
    /// ceiling never aliases a handle issued later for the same slot.
    pub fn free(&mut self, e: Entity)
        requires
            old(self).wf(),
            old(self).live(e),
        ensures
            final(self).wf(),
            forall|e2: Entity| final(self).live(e2) == (old(self).live(e2) && e2 != e),
    {
        let generation = self.slots[e.index].generation;
        let next_generation: u64 = if generation < u64::MAX {
            generation + 1
        } else {
            generation
        };
        self.slots[e.index] = Slot { generation: next_generation, alive: false };
        self.free_list.push(e.index);
        proof {
            assert forall|e2: Entity| self.live(e2) == (old(self).live(e2) && e2 != e) by {
                if e2.index == e.index {
                    assert(!self.slots@[e2.index as int].alive);
                }
            }
        }
    }
}

} // verus!
