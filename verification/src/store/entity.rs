use vstd::prelude::*;

verus! {

/// Generation counter of an entity slot. Every time a slot is freed its
/// generation advances, so ids handed out for an earlier occupant stop
/// matching the slot.
#[derive(Clone, Copy, Debug, PartialEq, Eq, Hash, Structural)]
pub struct Generation(pub u32);

impl Generation {
    pub fn new() -> (g: Self)
        ensures
            g.0 == 0,
    {
        Generation(0)
    }

    /// Advance the counter by one. The counter never wraps around.
    pub fn increment(&mut self)
        requires
            old(self).0 < u32::MAX,
        ensures
            final(self).0 == old(self).0 + 1,
    {
        self.0 = self.0 + 1;
    }
}

impl Default for Generation {
    fn default() -> (g: Self)
        ensures
            g.0 == 0,
    {
        Generation(0)
    }
}

/// A generational entity handle: a slot index plus the generation the
/// slot had when the entity was created.
#[derive(Clone, Copy, Debug, PartialEq, Eq, Hash, Structural)]
pub struct EntityId {
    pub index: u32,
    pub generation: Generation,
}

/// Entity allocator that produces globally-unique `EntityId`s.
///
/// Local slot indices start at 0; `start_offset` is added to produce the
/// global `EntityId.index`, so allocators with disjoint offsets hand out
/// disjoint ids. `max_local`, when set, bounds the number of slots.
#[derive(Clone)]
pub struct EntityAllocator {
    generations: Vec<Generation>,
    free_list: Vec<u32>,
    alive: Vec<bool>,
    start_offset: u32,
    max_local: Option<u32>,
}

/// Number of `true` entries of a sequence of flags.
pub open spec fn count_true(s: Seq<bool>) -> nat
    decreases s.len(),
{
    if s.len() == 0 {
        0
    } else {
        count_true(s.drop_last()) + (if s.last() { 1nat } else { 0nat })
    }
}

pub proof fn lemma_count_true_update(s: Seq<bool>, i: int, b: bool)
    requires
        0 <= i < s.len(),
    ensures
        count_true(s.update(i, b)) == count_true(s) - (if s[i] { 1int } else { 0int }) + (if b {
            1int
        } else {
            0int
        }),
    decreases s.len(),
{
    if i == s.len() - 1 {
        assert(s.update(i, b).drop_last() =~= s.drop_last());
    } else {
        lemma_count_true_update(s.drop_last(), i, b);
        assert(s.update(i, b).drop_last() =~= s.drop_last().update(i, b));
    }
}

pub proof fn lemma_count_true_push(s: Seq<bool>, b: bool)
    ensures
        count_true(s.push(b)) == count_true(s) + (if b { 1nat } else { 0nat }),
{
    assert(s.push(b).drop_last() =~= s);
}

/// A stale id is not alive.
pub proof fn lemma_stale_not_alive(a: EntityAllocator, id: EntityId)
    requires
        a.is_stale(id),
    ensures
        !a.is_alive_spec(id),
{
}

/// An allocator evolves to itself.
pub proof fn lemma_evolves_refl(a: EntityAllocator)
    ensures
        a.evolves_to(&a),
{
}

/// Allocator histories compose: what one step keeps stale, the next keeps
/// stale too, so an id freed once is never handed out again.
pub proof fn lemma_evolves_trans(a: EntityAllocator, b: EntityAllocator, c: EntityAllocator)
    requires
        a.evolves_to(&b),
        b.evolves_to(&c),
    ensures
        a.evolves_to(&c),
{
    assert forall|id: EntityId| a.is_stale(id) implies #[trigger] c.is_stale(id) by {
        assert(b.is_stale(id));
    }
}

impl EntityAllocator {
    /// Generation recorded for each local slot.
    pub closed spec fn gens(&self) -> Seq<Generation> {
        self.generations@
    }

    /// Liveness flag of each local slot.
    pub closed spec fn live_flags(&self) -> Seq<bool> {
        self.alive@
    }

    /// Local slots that are free for reuse, in the order they were freed.
    pub closed spec fn free_slots(&self) -> Seq<u32> {
        self.free_list@
    }

    pub closed spec fn offset(&self) -> u32 {
        self.start_offset
    }

    pub closed spec fn limit(&self) -> Option<u32> {
        self.max_local
    }

    /// Internal consistency of the allocator's tables.
    pub open spec fn wf(&self) -> bool {
        &&& self.gens().len() == self.live_flags().len()
        &&& self.offset() + self.gens().len() <= u32::MAX as int + 1
        &&& forall|k: int|
            0 <= k < self.free_slots().len() ==> {
                let l = #[trigger] self.free_slots()[k] as int;
                &&& l < self.gens().len()
                &&& !self.live_flags()[l]
            }
        &&& self.free_slots().no_duplicates()
    }

    /// The local slot an id refers to, if it lies in this allocator's range.
    pub open spec fn local_of(&self, id: EntityId) -> int {
        id.index - self.offset()
    }

    pub open spec fn in_range(&self, id: EntityId) -> bool {
        0 <= self.local_of(id) < self.gens().len()
    }

    pub open spec fn is_alive_spec(&self, id: EntityId) -> bool {
        &&& self.in_range(id)
        &&& self.gens()[self.local_of(id)] == id.generation
        &&& self.live_flags()[self.local_of(id)]
    }

    /// An id that can never become alive again: its slot has moved on to a
    /// later generation, or the slot was retired with the id's generation.
    pub open spec fn is_stale(&self, id: EntityId) -> bool {
        &&& self.in_range(id)
        &&& {
            ||| id.generation.0 < self.gens()[self.local_of(id)].0
            ||| (id.generation == self.gens()[self.local_of(id)] && !self.live_flags()[self.local_of(
                id,
            )] && !self.free_slots().contains(self.local_of(id) as u32))
        }
    }

    /// Number of live entities.
    pub open spec fn live_count(&self) -> nat {
        count_true(self.live_flags())
    }

    /// Whether `allocate` can hand out another id without leaving the
    /// allocator's index range.
    pub open spec fn can_allocate(&self) -> bool {
        ||| self.free_slots().len() > 0
        ||| {
            &&& self.offset() + self.gens().len() <= u32::MAX
            &&& match self.limit() {
                Some(max) => self.gens().len() < max,
                None => true,
            }
        }
    }

    /// The id that the next `allocate` hands out: the most recently freed
    /// slot at its current generation, else a fresh slot at generation 0.
    pub open spec fn next_id(&self) -> EntityId {
        if self.free_slots().len() > 0 {
            let l = self.free_slots().last();
            EntityId { index: (l + self.offset()) as u32, generation: self.gens()[l as int] }
        } else {
            EntityId { index: (self.offset() + self.gens().len()) as u32, generation: Generation(0) }
        }
    }

    /// Generations only move forward and slots are never forgotten.
    pub open spec fn evolves_to(&self, other: &Self) -> bool {
        &&& self.offset() == other.offset()
        &&& self.limit() == other.limit()
        &&& self.gens().len() <= other.gens().len()
        &&& forall|id: EntityId| self.is_stale(id) ==> #[trigger] other.is_stale(id)
    }

    pub fn new() -> (a: Self)
        ensures
            a.wf(),
            a.offset() == 0,
            a.limit() is None,
            a.gens().len() == 0,
            a.free_slots().len() == 0,
            a.live_count() == 0,
    {
        EntityAllocator {
            generations: Vec::new(),
            free_list: Vec::new(),
            alive: Vec::new(),
            start_offset: 0,
            max_local: None,
        }
    }

    /// Create an allocator whose ids start at `start`, holding at most
    /// `block_size` slots.
    pub fn new_with_start(start: u32, block_size: u32) -> (a: Self)
        ensures
            a.wf(),
            a.offset() == start,
            a.limit() == Some(block_size),
            a.gens().len() == 0,
            a.free_slots().len() == 0,
            a.live_count() == 0,
    {
        EntityAllocator {
            generations: Vec::new(),
            free_list: Vec::new(),
            alive: Vec::new(),
            start_offset: start,
            max_local: Some(block_size),
        }
    }

    /// Create an allocator whose ids start at `start`, with no slot limit.
    pub fn new_unbounded_from(start: u32) -> (a: Self)
        ensures
            a.wf(),
            a.offset() == start,
            a.limit() is None,
            a.gens().len() == 0,
            a.free_slots().len() == 0,
            a.live_count() == 0,
    {
        EntityAllocator {
            generations: Vec::new(),
            free_list: Vec::new(),
            alive: Vec::new(),
            start_offset: start,
            max_local: None,
        }
    }

    pub fn start_offset(&self) -> (r: u32)
        ensures
            r == self.offset(),
    {
        self.start_offset
    }

    /// Hand out an id: the most recently freed slot is reused first,
    /// otherwise a new slot is appended.
    pub fn allocate(&mut self) -> (id: EntityId)
        requires
            old(self).wf(),
            old(self).can_allocate(),
        ensures
            final(self).wf(),
            !old(self).is_alive_spec(id),
            !old(self).is_stale(id),
            final(self).is_alive_spec(id),
            id == old(self).next_id(),
            forall|other: EntityId|
                other != id ==> (#[trigger] final(self).is_alive_spec(other)
                    == old(self).is_alive_spec(other)),
            final(self).live_count() == old(self).live_count() + 1,
            old(self).evolves_to(&*final(self)),
            old(self).free_slots().len() > 0 ==> {
                let l = old(self).free_slots().last();
                &&& id.index == l + old(self).offset()
                &&& id.generation == old(self).gens()[l as int]
                &&& final(self).free_slots() == old(self).free_slots().drop_last()
                &&& final(self).gens() == old(self).gens()
            },
            old(self).free_slots().len() == 0 ==> {
                &&& id.index == old(self).offset() + old(self).gens().len()
                &&& id.generation == Generation(0)
                &&& final(self).free_slots() == old(self).free_slots()
                &&& final(self).gens() == old(self).gens().push(Generation(0))
            },
    {
        let ghost old_self = *self;
        if self.free_list.len() > 0 {
            let local_index = self.free_list.pop().unwrap();
            let ghost l = local_index as int;
            assert(old_self.free_slots()[old_self.free_slots().len() - 1] == local_index);
            proof {
                lemma_count_true_update(self.alive@, l, true);
            }
            self.alive.set(local_index as usize, true);
            let id = EntityId {
                index: local_index + self.start_offset,
                generation: self.generations[local_index as usize],
            };
            assert(self.free_slots() =~= old_self.free_slots().drop_last());
            assert forall|k: int| 0 <= k < self.free_slots().len() implies #[trigger] self.free_slots()[k] != local_index by {
                assert(old_self.free_slots()[k] == self.free_slots()[k]);
                assert(old_self.free_slots().no_duplicates());
            }
            assert forall|other: EntityId| old_self.is_stale(other) implies #[trigger] self.is_stale(other) by {
                if self.local_of(other) == l {
                    assert(old_self.free_slots().contains(local_index));
                } else {
                    if old_self.free_slots().contains(self.local_of(other) as u32) == false {
                        assert forall|k: int| 0 <= k < self.free_slots().len() implies self.free_slots()[k] != self.local_of(other) as u32 by {
                            assert(old_self.free_slots()[k] == self.free_slots()[k]);
                        }
                    }
                }
            }
            id
        } else {
            let local_index = self.generations.len() as u32;
            proof {
                lemma_count_true_push(self.alive@, true);
            }
            self.generations.push(Generation::new());
            self.alive.push(true);
            let id = EntityId { index: local_index + self.start_offset, generation: Generation::new() };
            assert forall|other: EntityId| old_self.is_stale(other) implies #[trigger] self.is_stale(other) by {
                assert(old_self.gens()[self.local_of(other)] == self.gens()[self.local_of(other)]);
            }
            id
        }
    }

    /// Free a live id. Returns `false` (and changes nothing) when `id` is
    /// not alive. A slot whose generation counter is exhausted is retired
    /// instead of being offered for reuse.
    pub fn deallocate(&mut self, id: EntityId) -> (r: bool)
        requires
            old(self).wf(),
        ensures
            final(self).wf(),
            r == old(self).is_alive_spec(id),
            !r ==> *final(self) == *old(self),
            r ==> final(self).is_stale(id),
            !final(self).is_alive_spec(id),
            forall|other: EntityId|
                other != id ==> (#[trigger] final(self).is_alive_spec(other)
                    == old(self).is_alive_spec(other)),
            final(self).live_count() == old(self).live_count() - (if r { 1int } else { 0int }),
            old(self).evolves_to(&*final(self)),
            final(self).gens().len() == old(self).gens().len(),
            final(self).free_slots().len() <= old(self).free_slots().len() + 1,
            !r ==> final(self).gens() == old(self).gens(),
            r ==> {
                let l = old(self).local_of(id);
                let g = old(self).gens()[l];
                if g.0 < u32::MAX {
                    &&& final(self).gens() == old(self).gens().update(l, Generation((g.0 + 1) as u32))
                    &&& final(self).free_slots() == old(self).free_slots().push(l as u32)
                    &&& final(self).next_id() == (EntityId {
                        index: id.index,
                        generation: Generation((id.generation.0 + 1) as u32),
                    })
                } else {
                    &&& final(self).gens() == old(self).gens()
                    &&& final(self).free_slots() == old(self).free_slots()
                }
            },
    {
        if !self.is_alive(id) {
            return false;
        }
        let ghost old_self = *self;
        let local_idx = id.index - self.start_offset;
        let ghost l = local_idx as int;
        proof {
            lemma_count_true_update(self.alive@, l, false);
        }
        self.alive.set(local_idx as usize, false);
        let g = self.generations[local_idx as usize];
        if g.0 < u32::MAX {
            let mut g2 = g;
            g2.increment();
            self.generations.set(local_idx as usize, g2);
            assert(!old_self.free_slots().contains(local_idx)) by {
                if old_self.free_slots().contains(local_idx) {
                    let k = choose|k: int| 0 <= k < old_self.free_slots().len() && old_self.free_slots()[k] == local_idx;
                    assert(!old_self.live_flags()[old_self.free_slots()[k] as int]);
                }
            }
            self.free_list.push(local_idx);
            assert forall|other: EntityId| old_self.is_stale(other) implies #[trigger] self.is_stale(other) by {
                if self.local_of(other) != l {
                    if !old_self.free_slots().contains(self.local_of(other) as u32) {
                        assert(!self.free_slots().contains(self.local_of(other) as u32)) by {
                            if self.free_slots().contains(self.local_of(other) as u32) {
                                let k = choose|k: int| 0 <= k < self.free_slots().len() && self.free_slots()[k] == self.local_of(other) as u32;
                                if k < old_self.free_slots().len() {
                                    assert(old_self.free_slots()[k] == self.free_slots()[k]);
                                }
                            }
                        }
                    }
                }
            }
        } else {
            assert(!old_self.free_slots().contains(local_idx)) by {
                if old_self.free_slots().contains(local_idx) {
                    let k = choose|k: int| 0 <= k < old_self.free_slots().len() && old_self.free_slots()[k] == local_idx;
                    assert(!old_self.live_flags()[old_self.free_slots()[k] as int]);
                }
            }
        }
        true
    }

    /// Copy the allocator's tables.
    pub fn duplicate(&self) -> (r: Self)
        ensures
            r.gens() == self.gens(),
            r.live_flags() == self.live_flags(),
            r.free_slots() == self.free_slots(),
            r.offset() == self.offset(),
            r.limit() == self.limit(),
    {
        let mut generations: Vec<Generation> = Vec::new();
        let mut alive: Vec<bool> = Vec::new();
        let mut free_list: Vec<u32> = Vec::new();
        let mut i: usize = 0;
        while i < self.generations.len()
            invariant
                i <= self.generations@.len(),
                generations@ == self.generations@.subrange(0, i as int),
            decreases self.generations.len() - i,
        {
            generations.push(self.generations[i]);
            i = i + 1;
        }
        i = 0;
        while i < self.alive.len()
            invariant
                i <= self.alive@.len(),
                alive@ == self.alive@.subrange(0, i as int),
            decreases self.alive.len() - i,
        {
            alive.push(self.alive[i]);
            i = i + 1;
        }
        i = 0;
        while i < self.free_list.len()
            invariant
                i <= self.free_list@.len(),
                free_list@ == self.free_list@.subrange(0, i as int),
            decreases self.free_list.len() - i,
        {
            free_list.push(self.free_list[i]);
            i = i + 1;
        }
        assert(generations@ =~= self.generations@);
        assert(alive@ =~= self.alive@);
        assert(free_list@ =~= self.free_list@);
        EntityAllocator {
            generations,
            free_list,
            alive,
            start_offset: self.start_offset,
            max_local: self.max_local,
        }
    }

    pub fn is_alive(&self, id: EntityId) -> (r: bool)
        requires
            self.wf(),
        ensures
            r == self.is_alive_spec(id),
    {
        if id.index < self.start_offset {
            return false;
        }
        let local_idx = (id.index - self.start_offset) as usize;
        local_idx < self.generations.len() && self.generations[local_idx] == id.generation
            && self.alive[local_idx]
    }

    /// Number of slots handed out so far.
    pub fn slot_count(&self) -> (r: usize)
        ensures
            r == self.gens().len(),
    {
        self.generations.len()
    }

    /// How many ids the allocator can still hand out from fresh slots: the
    /// smaller of what its slot limit and the id range leave, and zero when
    /// the limit is already passed.
    pub fn fresh_left(&self) -> (r: u64)
        requires
            self.wf(),
        ensures
            ({
                let by_ids = u32::MAX as int + 1 - self.offset() - self.gens().len();
                match self.limit() {
                    Some(max) => {
                        let by_limit = max - self.gens().len();
                        r == if by_limit < 0 { 0 } else if by_limit < by_ids { by_limit } else { by_ids }
                    },
                    None => r == by_ids,
                }
            }),
    {
        let len: u64 = self.generations.len() as u64;
        let by_ids: u64 = 0x1_0000_0000u64 - self.start_offset as u64 - len;
        match self.max_local {
            Some(max) => {
                if (max as u64) < len {
                    0
                } else {
                    let by_limit: u64 = max as u64 - len;
                    if by_limit < by_ids {
                        by_limit
                    } else {
                        by_ids
                    }
                }
            },
            None => by_ids,
        }
    }

    pub fn alive_count(&self) -> (r: usize)
        requires
            self.wf(),
        ensures
            r == self.live_count(),
    {
        let mut n: usize = 0;
        let mut i: usize = 0;
        while i < self.alive.len()
            invariant
                i <= self.alive.len(),
                n == count_true(self.alive@.subrange(0, i as int)),
                n <= i,
            decreases self.alive.len() - i,
        {
            assert(self.alive@.subrange(0, i as int + 1).drop_last() =~= self.alive@.subrange(0, i as int));
            if self.alive[i] {
                n = n + 1;
            }
            i = i + 1;
        }
        assert(self.alive@.subrange(0, i as int) =~= self.alive@);
        n
    }
}

} // verus!
