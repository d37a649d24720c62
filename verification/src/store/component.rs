use vstd::prelude::*;
use super::entity::{EntityId, Generation};

verus! {

/// Whether `x` occurs in `ids`.
pub fn contains_id(ids: &[EntityId], x: EntityId) -> (r: bool)
    ensures
        r == ids@.contains(x),
{
    let mut i: usize = 0;
    while i < ids.len()
        invariant
            i <= ids@.len(),
            forall|j: int| 0 <= j < i ==> ids@[j] != x,
        decreases ids.len() - i,
    {
        if ids[i] == x {
            return true;
        }
        i = i + 1;
    }
    false
}

/// Copy a list of ids.
pub fn copy_ids(v: &[EntityId]) -> (r: Vec<EntityId>)
    ensures
        r@ == v@,
{
    let mut r: Vec<EntityId> = Vec::new();
    let mut i: usize = 0;
    while i < v.len()
        invariant
            i <= v.len(),
            r@ == v@.subrange(0, i as int),
        decreases v.len() - i,
    {
        r.push(v[i]);
        i = i + 1;
    }
    assert(r@ =~= v@);
    r
}

/// The component of an id in a slot table: present only when the id's
/// slot carries the id's generation.
pub open spec fn slot_lookup<T>(s: Seq<(Generation, Option<T>)>, id: EntityId) -> Option<T> {
    let i = id.index as int;
    if i < s.len() && s[i].0 == id.generation {
        s[i].1
    } else {
        None
    }
}

/// Values that can be copied with a known result: `same_value` says when a
/// copy carries the same content as its original.
pub trait Duplicable: Sized {
    spec fn same_value(a: &Self, b: &Self) -> bool;

    fn duplicate(&self) -> (r: Self)
        ensures
            Self::same_value(&r, self),
    ;
}

/// Two slot tables that hold the same content, slot by slot.
pub open spec fn same_slots<T: Duplicable>(
    a: Seq<(Generation, Option<T>)>,
    b: Seq<(Generation, Option<T>)>,
) -> bool {
    &&& a.len() == b.len()
    &&& forall|i: int|
        0 <= i < a.len() ==> {
            &&& (#[trigger] a[i]).0 == b[i].0
            &&& match (a[i].1, b[i].1) {
                (Some(x), Some(y)) => T::same_value(&x, &y),
                (None, None) => true,
                _ => false,
            }
        }
}

/// Generationally-indexed storage of one component type: slot `i` holds
/// the component of the entity with index `i`, tagged with that entity's
/// generation.
pub struct ComponentStore<T> {
    slots: Vec<(Generation, Option<T>)>,
}

/// The slot table after making room for index `idx`.
pub open spec fn padded<T>(s: Seq<(Generation, Option<T>)>, idx: int) -> Seq<(Generation, Option<T>)> {
    if idx < s.len() {
        s
    } else {
        s + Seq::new((idx + 1 - s.len()) as nat, |_i: int| (Generation(0), None::<T>))
    }
}

impl<T> ComponentStore<T> {
    pub closed spec fn slots(&self) -> Seq<(Generation, Option<T>)> {
        self.slots@
    }

    /// The component stored for `id`: present only when the slot of `id`
    /// carries `id`'s generation.
    pub open spec fn lookup(&self, id: EntityId) -> Option<T> {
        let i = id.index as int;
        if i < self.slots().len() && self.slots()[i].0 == id.generation {
            self.slots()[i].1
        } else {
            None
        }
    }

    pub fn new() -> (s: Self)
        ensures
            s.slots().len() == 0,
            forall|id: EntityId| s.lookup(id) is None,
    {
        ComponentStore { slots: Vec::new() }
    }

    fn ensure_capacity(&mut self, index: usize)
        ensures
            final(self).slots() == padded(old(self).slots(), index as int),
    {
        let ghost s0 = self.slots@;
        while self.slots.len() <= index
            invariant
                s0.len() <= self.slots@.len(),
                self.slots@.len() <= (if index < s0.len() { s0.len() as int } else { index as int + 1 }),
                self.slots@ == s0 + Seq::new(
                    (self.slots@.len() - s0.len()) as nat,
                    |_i: int| (Generation(0), None::<T>),
                ),
            decreases index + 1 - self.slots.len(),
        {
            self.slots.push((Generation::new(), None));
            assert(self.slots@ =~= s0 + Seq::new(
                (self.slots@.len() - s0.len()) as nat,
                |_i: int| (Generation(0), None::<T>),
            ));
        }
        proof {
            if (index as int) < s0.len() {
                assert(self.slots@ =~= s0);
            } else {
                assert(self.slots@ =~= padded(s0, index as int));
            }
        }
    }

    pub fn insert(&mut self, id: EntityId, component: T)
        ensures
            final(self).slots() == padded(old(self).slots(), id.index as int).update(
                id.index as int,
                (id.generation, Some(component)),
            ),
            final(self).lookup(id) == Some(component),
            forall|other: EntityId|
                other.index != id.index ==> #[trigger] final(self).lookup(other) == old(
                    self,
                ).lookup(other),
            forall|other: EntityId|
                other.index == id.index && other.generation != id.generation
                    ==> #[trigger] final(self).lookup(other) is None,
    {
        let idx = id.index as usize;
        self.ensure_capacity(idx);
        self.slots.set(idx, (id.generation, Some(component)));
    }

    pub fn get(&self, id: EntityId) -> (r: Option<&T>)
        ensures
            match r {
                Some(v) => self.lookup(id) == Some(*v),
                None => self.lookup(id) is None,
            },
    {
        let idx = id.index as usize;
        if idx >= self.slots.len() || self.slots[idx].0 != id.generation {
            return None;
        }
        self.slots[idx].1.as_ref()
    }

    pub fn get_mut(&mut self, id: EntityId) -> (r: Option<&mut T>)
        ensures
            old(self).lookup(id) is Some ==> {
                &&& r is Some
                &&& *r->0 == old(self).lookup(id)->0
                &&& final(self).slots() == old(self).slots().update(
                    id.index as int,
                    (id.generation, Some(*final(r->0))),
                )
            },
            old(self).lookup(id) is None ==> r is None && final(self).slots() == old(self).slots(),
    {
        let idx = id.index as usize;
        if idx >= self.slots.len() || self.slots[idx].0 != id.generation {
            return None;
        }
        let slot = &mut self.slots[idx];
        slot.1.as_mut()
    }

    pub fn remove(&mut self, id: EntityId) -> (r: Option<T>)
        ensures
            r == old(self).lookup(id),
            r is Some ==> final(self).slots() == old(self).slots().update(
                id.index as int,
                (id.generation, None),
            ),
            r is None ==> final(self).slots() == old(self).slots(),
            final(self).lookup(id) is None,
            forall|other: EntityId|
                other != id ==> #[trigger] final(self).lookup(other) == old(self).lookup(other),
    {
        let idx = id.index as usize;
        if idx >= self.slots.len() || self.slots[idx].0 != id.generation {
            return None;
        }
        let slot = &mut self.slots[idx];
        slot.1.take()
    }

    /// Number of slots (not the number of stored components).
    pub fn len(&self) -> (r: usize)
        ensures
            r == self.slots().len(),
    {
        self.slots.len()
    }

    /// Get the component at a raw slot index, with the slot's generation.
    pub fn get_by_index(&self, index: usize) -> (r: Option<(&Generation, &T)>)
        ensures
            match r {
                Some((g, v)) => index < self.slots().len() && self.slots()[index as int] == (
                    *g,
                    Some(*v),
                ),
                None => index >= self.slots().len() || self.slots()[index as int].1 is None,
            },
    {
        if index >= self.slots.len() {
            return None;
        }
        let slot = &self.slots[index];
        match &slot.1 {
            Some(d) => Some((&slot.0, d)),
            None => None,
        }
    }
}

impl<T: Duplicable> ComponentStore<T> {
    /// Copy the store slot by slot.
    pub fn duplicate(&self) -> (r: Self)
        ensures
            same_slots(r.slots(), self.slots()),
    {
        let mut out: Vec<(Generation, Option<T>)> = Vec::new();
        let mut i: usize = 0;
        while i < self.slots.len()
            invariant
                i <= self.slots@.len(),
                same_slots(out@, self.slots@.subrange(0, i as int)),
            decreases self.slots.len() - i,
        {
            let slot = &self.slots[i];
            let copy = match &slot.1 {
                Some(v) => Some(v.duplicate()),
                None => None,
            };
            out.push((slot.0, copy));
            i = i + 1;
        }
        assert(self.slots@.subrange(0, i as int) =~= self.slots@);
        ComponentStore { slots: out }
    }
}

} // verus!
