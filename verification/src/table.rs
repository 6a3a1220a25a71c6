use crate::entity::Entity;
use vstd::prelude::*;

verus! {

/// A sparse attribute table: a mapping from entity handles to values of one
/// attribute kind, stored densely by slot index. An entry is visible only
/// through a handle whose generation matches the one recorded with the value,
/// so values left behind by a freed entity are unreachable.
pub struct ComponentTable<T> {
    entries: Vec<Option<(u64, T)>>,
}

impl<T> ComponentTable<T> {
    closed spec fn has(&self, e: Entity) -> bool {
        &&& (e.index as int) < self.entries@.len()
        &&& match self.entries@[e.index as int] {
            Some(p) => p.0 == e.generation,
            None => false,
        }
    }

    closed spec fn val(&self, e: Entity) -> T {
        match self.entries@[e.index as int] {
            Some(p) => p.1,
            None => arbitrary(),
        }
    }
}

impl<T> View for ComponentTable<T> {
    type V = Map<Entity, T>;

    closed spec fn view(&self) -> Map<Entity, T> {
        Map::new(|e: Entity| self.has(e), |e: Entity| self.val(e))
    }
}

impl<T> ComponentTable<T> {
    /// Two keys of the table with the same slot index are the same handle.
    pub proof fn lemma_key_same_index(&self, e1: Entity, e2: Entity)
        requires
            self@.contains_key(e1),
            self@.contains_key(e2),
            e1.index == e2.index,
        ensures
            e1 == e2,
    {
    }

    pub fn new() -> (r: ComponentTable<T>)
        ensures
            r@ == Map::<Entity, T>::empty(),
    {
        let r = ComponentTable { entries: Vec::new() };
        proof {
            assert(r@ =~= Map::<Entity, T>::empty());
        }
        r
    }

    /// Inserts or overwrites the value held for `e`. The caller must know
    /// that no other handle with the same slot index is a key, which holds
    /// whenever every key is a live handle and `e` is live or fresh.
    pub fn insert(&mut self, e: Entity, value: T)
        requires
            forall|e2: Entity|
                old(self)@.contains_key(e2) && e2.index == e.index ==> e2 == e,
        ensures
            final(self)@ == old(self)@.insert(e, value),
    {
        while self.entries.len() <= e.index
            invariant
                self.entries@.len() >= old(self).entries@.len(),
                self.entries@.subrange(0, old(self).entries@.len() as int) =~= old(
                    self,
                ).entries@,
                forall|k: int|
                    old(self).entries@.len() <= k < self.entries@.len()
                        ==> self.entries@[k] is None,
            decreases e.index + 1 - self.entries@.len(),
        {
            self.entries.push(None);
        }
        self.entries[e.index] = Some((e.generation, value));
        proof {
            assert forall|e2: Entity| #[trigger]
                self@.contains_key(e2) == old(self)@.insert(e, value).contains_key(e2) by {
                if e2.index != e.index {
                    assert(old(self).has(e2) == self.has(e2));
                }
            }
            assert(self@ =~= old(self)@.insert(e, value));
        }
    }

    /// Removes the value held for `e`, if any.
    pub fn remove(&mut self, e: Entity)
        ensures
            final(self)@ == old(self)@.remove(e),
    {
        if e.index < self.entries.len() {
            let matches = match &self.entries[e.index] {
                Some(p) => p.0 == e.generation,
                None => false,
            };
            if matches {
                self.entries[e.index] = None;
            }
        }
        proof {
            assert(self@ =~= old(self)@.remove(e));
        }
    }

    /// Removes and returns the value held for `e`, if any.
    pub fn take(&mut self, e: Entity) -> (r: Option<T>)
        ensures
            final(self)@ == old(self)@.remove(e),
            match r {
                Some(v) => old(self)@.contains_key(e) && v == old(self)@[e],
                None => !old(self)@.contains_key(e),
            },
    {
        let mut out: Option<T> = None;
        if e.index < self.entries.len() {
            let matches = match &self.entries[e.index] {
                Some(p) => p.0 == e.generation,
                None => false,
            };
            if matches {
                let slot = &mut self.entries[e.index];
                match slot.take() {
                    Some(p) => {
                        out = Some(p.1);
                    },
                    None => {},
                }
            }
        }
        proof {
            assert(self@ =~= old(self)@.remove(e));
        }
        out
    }

    /// The value held for `e`, if any.
    pub fn get(&self, e: Entity) -> (r: Option<&T>)
        ensures
            match r {
                Some(v) => self@.contains_key(e) && *v == self@[e],
                None => !self@.contains_key(e),
            },
    {
        if e.index < self.entries.len() {
            match &self.entries[e.index] {
                Some(p) => if p.0 == e.generation {
                    Some(&p.1)
                } else {
                    None
                },
                None => None,
            }
        } else {
            None
        }
    }

    /// Whether the table holds a value for `e`.
    pub fn contains(&self, e: Entity) -> (r: bool)
        ensures
            r == self@.contains_key(e),
    {
        match self.get(e) {
            Some(_) => true,
            None => false,
        }
    }

    /// Whether the table holds no value at all.
    pub fn is_empty(&self) -> (r: bool)
        ensures
            r == !(exists|e: Entity| self@.contains_key(e)),
    {
        let mut i: usize = 0;
        while i < self.entries.len()
            invariant
                i <= self.entries@.len(),
                forall|e: Entity| #[trigger]
                    self@.contains_key(e) ==> (e.index as int) >= i,
            decreases self.entries@.len() - i,
        {
            let occupied = match &self.entries[i] {
                Some(p) => true,
                None => false,
            };
            if occupied {
                proof {
                    let p = self.entries@[i as int]->Some_0;
                    assert(self.has(Entity { index: i, generation: p.0 }));
                    assert(self@.contains_key(Entity { index: i, generation: p.0 }));
                }
                return false;
            }
            i += 1;
        }
        true
    }

    /// Every key of the table, in increasing slot-index order.
    pub fn keys(&self) -> (r: Vec<Entity>)
        ensures
            forall|i: int| 0 <= i < r@.len() ==> self@.contains_key(#[trigger] r@[i]),
            forall|e: Entity| #[trigger] self@.contains_key(e) ==> r@.contains(e),
            forall|i: int, j: int|
                0 <= i < j < r@.len() ==> r@[i].index < r@[j].index,
    {
        let mut out: Vec<Entity> = Vec::new();
        let mut i: usize = 0;
        while i < self.entries.len()
            invariant
                i <= self.entries@.len(),
                forall|k: int| 0 <= k < out@.len() ==> self@.contains_key(#[trigger] out@[k]),
                forall|k: int| 0 <= k < out@.len() ==> (#[trigger] out@[k].index as int) < i,
                forall|e: Entity| #[trigger]
                    self@.contains_key(e) && (e.index as int) < i ==> out@.contains(e),
                forall|k1: int, k2: int|
                    0 <= k1 < k2 < out@.len() ==> out@[k1].index < out@[k2].index,
            decreases self.entries@.len() - i,
        {
            let entry = match &self.entries[i] {
                Some(p) => Some(p.0),
                None => None,
            };
            match entry {
                Some(generation) => {
                    let e = Entity { index: i, generation };
                    let ghost prev = out@;
                    out.push(e);
                    proof {
                        assert forall|e2: Entity| #[trigger]
                            self@.contains_key(e2) && (e2.index as int) < i + 1 implies out@.contains(
                            e2,
                        ) by {
                            if e2.index as int == i as int {
                                assert(e2 == e);
                                assert(out@[out@.len() - 1] == e);
                            } else {
                                let k = choose|k: int| 0 <= k < prev.len() && prev[k] == e2;
                                assert(out@[k] == e2);
                            }
                        }
                    }
                },
                None => {
                    proof {
                        assert forall|e2: Entity| #[trigger]
                            self@.contains_key(e2) && (e2.index as int) < i + 1 implies out@.contains(
                            e2,
                        ) by {
                            if e2.index as int == i as int {
                                assert(!self.has(e2));
                            }
                        }
                    }
                },
            }
            i += 1;
        }
        out
    }
}

} // verus!
