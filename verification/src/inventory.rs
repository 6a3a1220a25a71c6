use crate::entity::Entity;
use vstd::prelude::*;

verus! {


/// The number of empty slots in a slot sequence.
pub open spec fn spec_vacancies(s: Seq<Option<Entity>>) -> nat
    decreases s.len(),
{
    if s.len() == 0 {
        0
    } else {
        (if s[0] is None {
            1nat
        } else {
            0nat
        }) + spec_vacancies(s.drop_first())
    }
}

/// A slot sequence has an empty slot exactly when its vacancy count is
/// positive; with `Inventory::insert`'s contract this gives: inserts
/// succeed while vacancies remain and fail once none do.
pub proof fn lemma_vacancies_positive(s: Seq<Option<Entity>>)
    ensures
        (spec_vacancies(s) > 0) <==> (exists|i: int| 0 <= i < s.len() && s[i] is None),
    decreases s.len(),
{
    if s.len() > 0 {
        lemma_vacancies_positive(s.drop_first());
        if s[0] is None {
            assert(s[0] is None && 0 < s.len());
        } else {
            if exists|i: int| 0 <= i < s.len() && s[i] is None {
                let i = choose|i: int| 0 <= i < s.len() && s[i] is None;
                assert(s.drop_first()[i - 1] is None);
            }
            if spec_vacancies(s.drop_first()) > 0 {
                let j = choose|j: int| 0 <= j < s.drop_first().len() && s.drop_first()[j] is None;
                assert(s[j + 1] is None);
            }
        }
    }
}

/// Filling an empty slot reduces the vacancy count by exactly one, so a
/// fresh inventory of capacity `C` accepts exactly `C` inserts.
pub proof fn lemma_vacancies_fill(s: Seq<Option<Entity>>, i: int, x: Entity)
    requires
        0 <= i < s.len(),
        s[i] is None,
    ensures
        spec_vacancies(s.update(i, Some(x))) + 1 == spec_vacancies(s),
    decreases s.len(),
{
    if i == 0 {
        assert(s.update(0, Some(x)).drop_first() =~= s.drop_first());
    } else {
        lemma_vacancies_fill(s.drop_first(), i - 1, x);
        assert(s.update(i, Some(x)).drop_first() =~= s.drop_first().update(i - 1, Some(x)));
        assert(s.update(i, Some(x))[0] == s[0]);
    }
}

/// Emptying an occupied slot raises the vacancy count by exactly one.
pub proof fn lemma_vacancies_clear(s: Seq<Option<Entity>>, i: int)
    requires
        0 <= i < s.len(),
        s[i] is Some,
    ensures
        spec_vacancies(s.update(i, None)) == spec_vacancies(s) + 1,
    decreases s.len(),
{
    if i == 0 {
        assert(s.update(0, None::<Entity>).drop_first() =~= s.drop_first());
    } else {
        lemma_vacancies_clear(s.drop_first(), i - 1);
        assert(s.update(i, None::<Entity>).drop_first() =~= s.drop_first().update(
            i - 1,
            None::<Entity>,
        ));
        assert(s.update(i, None::<Entity>)[0] == s[0]);
    }
}

/// Returned when an insert finds every slot occupied.
#[derive(Debug)]
pub struct InventoryIsFull;

/// Returned when a read or a removal addresses a slot that is empty or out
/// of range.
#[derive(Debug)]
pub struct InventorySlotIsEmpty;

/// A fixed-capacity, ordered container of item entities. The slot count is
/// fixed at creation and never changes.
#[derive(Clone, Debug)]
pub struct Inventory {
    slots: Vec<Option<Entity>>,
}

impl View for Inventory {
    type V = Seq<Option<Entity>>;

    closed spec fn view(&self) -> Seq<Option<Entity>> {
        self.slots@
    }
}

impl Inventory {
    pub fn new(capacity: usize) -> (r: Inventory)
        ensures
            r@.len() == capacity,
            forall|i: int| 0 <= i < capacity ==> r@[i] is None,
    {
        let mut slots: Vec<Option<Entity>> = Vec::new();
        let mut k: usize = 0;
        while k < capacity
            invariant
                k <= capacity,
                slots@.len() == k,
                forall|i: int| 0 <= i < k ==> slots@[i] is None,
            decreases capacity - k,
        {
            slots.push(None);
            k += 1;
        }
        Inventory { slots }
    }

    /// A read-only view of the slots.
    pub fn slots(&self) -> (r: &[Option<Entity>])
        ensures
            r@ == self@,
    {
        self.slots.as_slice()
    }

    /// Places `item` in the first empty slot. Fails, changing nothing, iff
    /// every slot is occupied.
    pub fn insert(&mut self, item: Entity) -> (r: Result<(), InventoryIsFull>)
        ensures
            final(self)@.len() == old(self)@.len(),
            match r {
                Ok(_) => exists|i: int|
                    {
                        &&& 0 <= i < old(self)@.len()
                        &&& old(self)@[i] is None
                        &&& (forall|j: int| 0 <= j < i ==> old(self)@[j] is Some)
                        &&& final(self)@ =~= old(self)@.update(i, Some(item))
                    },
                Err(_) => {
                    &&& *final(self) == *old(self)
                    &&& forall|i: int| 0 <= i < old(self)@.len() ==> old(self)@[i] is Some
                },
            },
    {
        let mut k: usize = 0;
        while k < self.slots.len()
            invariant
                k <= self.slots@.len(),
                self == old(self),
                forall|j: int| 0 <= j < k ==> self.slots@[j] is Some,
            decreases self.slots@.len() - k,
        {
            let empty = match &self.slots[k] {
                Some(_) => false,
                None => true,
            };
            if empty {
                self.slots[k] = Some(item);
                proof {
                    assert(self@ =~= old(self)@.update(k as int, Some(item)));
                }
                return Ok(());
            }
            k += 1;
        }
        Err(InventoryIsFull)
    }

    /// Takes the entity out of slot `index`. Fails, changing nothing, iff the
    /// slot is empty or `index` is out of range.
    pub fn remove(&mut self, index: usize) -> (r: Result<Entity, InventorySlotIsEmpty>)
        ensures
            final(self)@.len() == old(self)@.len(),
            match r {
                Ok(e) => {
                    &&& 0 <= index < old(self)@.len()
                    &&& old(self)@[index as int] == Some(e)
                    &&& final(self)@ =~= old(self)@.update(index as int, None::<Entity>)
                },
                Err(_) => {
                    &&& *final(self) == *old(self)
                    &&& (index >= old(self)@.len() || old(self)@[index as int] is None)
                },
            },
    {
        if index < self.slots.len() {
            let taken = self.slots[index];
            match taken {
                Some(e) => {
                    self.slots[index] = None;
                    Ok(e)
                },
                None => Err(InventorySlotIsEmpty),
            }
        } else {
            Err(InventorySlotIsEmpty)
        }
    }

    /// Reads the entity in slot `index` without removing it. Fails iff the
    /// slot is empty or `index` is out of range.
    pub fn get(&self, index: usize) -> (r: Result<Entity, InventorySlotIsEmpty>)
        ensures
            match r {
                Ok(e) => 0 <= index < self@.len() && self@[index as int] == Some(e),
                Err(_) => index >= self@.len() || self@[index as int] is None,
            },
    {
        if index < self.slots.len() {
            match &self.slots[index] {
                Some(e) => Ok(*e),
                None => Err(InventorySlotIsEmpty),
            }
        } else {
            Err(InventorySlotIsEmpty)
        }
    }
}

} // verus!
