use vstd::prelude::*;
use super::entity::{EntityAllocator, EntityId, Generation};
use super::component::{ComponentStore, same_slots};
use super::change::{ChangeTracker, ChangeRecord, ComponentType};
use super::components::{
    Components, Component, slots_consistent, lemma_components_evolve,
    lemma_components_same_content, lemma_components_fresh,
};
use super::component::{padded, slot_lookup};

verus! {

/// Lookups after writing slot `id.index`.
pub proof fn lemma_lookup_after_write<T>(
    s0: Seq<(Generation, Option<T>)>,
    s1: Seq<(Generation, Option<T>)>,
    id: EntityId,
    v: Option<T>,
)
    requires
        s1 == padded(s0, id.index as int).update(id.index as int, (id.generation, v)),
    ensures
        slot_lookup(s1, id) == v,
        forall|other: EntityId|
            other.index != id.index ==> #[trigger] slot_lookup(s1, other) == slot_lookup(s0, other),
        s1.len() >= s0.len(),
        s1.len() >= id.index + 1,
{
    assert forall|other: EntityId| other.index != id.index implies #[trigger] slot_lookup(s1, other) == slot_lookup(s0, other) by {
        let i = other.index as int;
        if i < s0.len() {
            assert(s1[i] == s0[i]);
        } else if i < s1.len() {
            assert(s1[i].1 is None);
        }
    }
}

pub proof fn lemma_write_consistent<F, T: Component<F>>(
    c0: Components<F>,
    c1: Components<F>,
    a: EntityAllocator,
    id: EntityId,
    v: Option<T>,
)
    requires
        c0.consistent_with(a),
        a.is_alive_spec(id),
        c1.same_except(c0, T::kind_spec()),
        T::table(c1) == padded(T::table(c0), id.index as int).update(id.index as int, (id.generation, v)),
    ensures
        c1.consistent_with(a),
{
    T::lemma_table_consistent(c0, a);
    let s0 = T::table(c0);
    let s1 = T::table(c1);
    assert forall|j: int| 0 <= j < s1.len() && (#[trigger] s1[j]).1 is Some implies {
        let e = EntityId { index: j as u32, generation: s1[j].0 };
        a.is_alive_spec(e) || a.is_stale(e)
    } by {
        if j == id.index {
            assert(s1[j].0 == id.generation);
            assert(EntityId { index: j as u32, generation: s1[j].0 } == id);
        } else if j < s0.len() {
            assert(s1[j] == s0[j]);
        } else {
            assert(s1[j].1 is None);
        }
    }
    T::lemma_replace_consistent(c0, c1, a);
}

/// Whatever value is written into the slot of a live `id` that already
/// holds a component, the stores stay consistent and only `id`'s lookup
/// changes.
pub proof fn lemma_overwrite_any<F, T: Component<F>>(c0: Components<F>, a: EntityAllocator, id: EntityId)
    requires
        c0.consistent_with(a),
        a.is_alive_spec(id),
    ensures
        forall|c1: Components<F>|
            #![trigger T::table(c1)]
            c1.same_except(c0, T::kind_spec()) && (slot_lookup(T::table(c0), id) is Some ==> (T::table(c1)
                == T::table(c0).update(id.index as int, (id.generation, T::table(c1)[id.index as int].1))
                && T::table(c1)[id.index as int].1 is Some))
                && (slot_lookup(T::table(c0), id) is None ==> T::table(c1) == T::table(c0)) ==> {
                &&& c1.consistent_with(a)
                &&& forall|other: EntityId|
                    other.index != id.index ==> #[trigger] slot_lookup(T::table(c1), other)
                        == slot_lookup(T::table(c0), other)
            },
{
    assert forall|c1: Components<F>|
        #![trigger T::table(c1)]
        c1.same_except(c0, T::kind_spec()) && (slot_lookup(T::table(c0), id) is Some ==> (T::table(c1)
            == T::table(c0).update(id.index as int, (id.generation, T::table(c1)[id.index as int].1))
            && T::table(c1)[id.index as int].1 is Some))
            && (slot_lookup(T::table(c0), id) is None ==> T::table(c1) == T::table(c0)) implies {
            &&& c1.consistent_with(a)
            &&& forall|other: EntityId|
                other.index != id.index ==> #[trigger] slot_lookup(T::table(c1), other)
                    == slot_lookup(T::table(c0), other)
        } by {
        if slot_lookup(T::table(c0), id) is Some {
            let v = T::table(c1)[id.index as int].1;
            assert(padded(T::table(c0), id.index as int) == T::table(c0));
            lemma_write_consistent::<F, T>(c0, c1, a, id, v);
            lemma_lookup_after_write(T::table(c0), T::table(c1), id, v);
        } else {
            T::lemma_table_consistent(c0, a);
            T::lemma_replace_consistent(c0, c1, a);
        }
    }
}

/// An entity store: generational entity ids plus one component store per
/// component kind, and a record of which components changed.
pub struct World<F> {
    allocator: EntityAllocator,
    components: Components<F>,
    pub change_tracker: ChangeTracker,
}

impl<F: Copy> World<F> {
    pub closed spec fn allocator_spec(&self) -> EntityAllocator {
        self.allocator
    }

    pub closed spec fn tracker(&self) -> ChangeTracker {
        self.change_tracker
    }

    pub closed spec fn comps(&self) -> Components<F> {
        self.components
    }

    pub open spec fn wf(&self) -> bool {
        &&& self.allocator_spec().wf()
        &&& self.comps().consistent_with(self.allocator_spec())
        &&& self.tracker().wf()
    }

    pub open spec fn alive(&self, id: EntityId) -> bool {
        self.allocator_spec().is_alive_spec(id)
    }

    /// The component of type `T` of a live entity.
    pub open spec fn comp<T: Component<F>>(&self, id: EntityId) -> Option<T> {
        if self.alive(id) {
            slot_lookup(T::table(self.comps()), id)
        } else {
            None
        }
    }

    /// The live entities that have a component of type `T`.
    pub open spec fn ids_with<T: Component<F>>(&self) -> Set<EntityId> {
        Set::new(|id: EntityId| self.comp::<T>(id) is Some)
    }

    pub open spec fn live_count(&self) -> nat {
        self.allocator_spec().live_count()
    }

    /// Whether `spawn` can hand out another id.
    pub open spec fn can_spawn(&self) -> bool {
        self.allocator_spec().can_allocate()
    }

    /// How many more entities `spawn` can create for sure.
    pub open spec fn room(&self) -> int {
        match self.allocator_spec().limit() {
            Some(max) => {
                let by_limit = max - self.allocator_spec().gens().len();
                let by_ids = u32::MAX as int + 1 - self.allocator_spec().offset() - self.allocator_spec().gens().len();
                if by_limit < by_ids { by_limit } else { by_ids }
            },
            None => u32::MAX as int + 1 - self.allocator_spec().offset() - self.allocator_spec().gens().len(),
        }
    }

    pub fn new() -> (w: Self)
        ensures
            w.wf(),
            w.allocator_spec().offset() == 0,
            w.allocator_spec().limit() is None,
            w.allocator_spec().gens().len() == 0,
            w.live_count() == 0,
            forall|id: EntityId| !w.alive(id),
            w.tracker().change_set() == Set::<ChangeRecord>::empty(),
    {
        World {
            allocator: EntityAllocator::new(),
            components: Components::new(),
            change_tracker: ChangeTracker::new(),
        }
    }

    /// Create a World whose entity ids start from `start_index`, so that
    /// several Worlds can coexist without id collisions.
    pub fn new_with_start(start_index: u32) -> (w: Self)
        ensures
            w.wf(),
            w.allocator_spec().offset() == start_index,
            w.allocator_spec().limit() is None,
            w.allocator_spec().gens().len() == 0,
            w.live_count() == 0,
            forall|id: EntityId| !w.alive(id),
            w.tracker().change_set() == Set::<ChangeRecord>::empty(),
    {
        World {
            allocator: EntityAllocator::new_unbounded_from(start_index),
            components: Components::new(),
            change_tracker: ChangeTracker::new(),
        }
    }

    /// An entity that no store holds data for has no component of any type.
    pub proof fn lemma_no_data_comp<T: Component<F>>(&self, id: EntityId)
        requires
            self.comps().no_data_for(id),
        ensures
            self.comp::<T>(id) is None,
    {
        T::lemma_no_data(self.comps(), id);
    }

    /// A component type whose store was not touched keeps the component of
    /// every entity whose liveness did not change.
    pub proof fn lemma_comp_kept<T: Component<F>>(&self, w0: &Self, ks: Set<crate::store::change::ComponentKind>, e: EntityId)
        requires
            self.comps().same_except_kinds(w0.comps(), ks),
            !ks.contains(T::kind_spec()),
            self.alive(e) == w0.alive(e),
        ensures
            self.comp::<T>(e) == w0.comp::<T>(e),
    {
        T::lemma_table_unchanged(self.comps(), w0.comps(), ks);
    }

    /// Create a new entity with no components.
    pub fn spawn(&mut self) -> (id: EntityId)
        requires
            old(self).wf(),
            old(self).can_spawn(),
        ensures
            final(self).wf(),
            !old(self).alive(id),
            final(self).alive(id),
            forall|other: EntityId|
                other != id ==> (#[trigger] final(self).alive(other) == old(self).alive(other)),
            final(self).comps() == old(self).comps(),
            final(self).comps().no_data_for(id),
            !old(self).allocator_spec().is_stale(id),
            id == old(self).allocator_spec().next_id(),
            old(self).allocator_spec().evolves_to(&final(self).allocator_spec()),
            final(self).live_count() == old(self).live_count() + 1,
            final(self).room() >= old(self).room() - 1,
            final(self).allocator_spec().offset() == old(self).allocator_spec().offset(),
            final(self).tracker() == old(self).tracker(),
            id.index >= final(self).allocator_spec().offset(),
    {
        let ghost a0 = self.allocator;
        let id = self.allocator.allocate();
        proof {
            self.lemma_consistent_after(a0);
            lemma_components_fresh(self.components, a0, id);
        }
        id
    }

    proof fn lemma_consistent_after(&self, a0: EntityAllocator)
        requires
            self.comps().consistent_with(a0),
            a0.evolves_to(&self.allocator_spec()),
            forall|id: EntityId| a0.is_alive_spec(id) ==> #[trigger] self.allocator_spec().is_alive_spec(id) || self.allocator_spec().is_stale(id),
        ensures
            self.comps().consistent_with(self.allocator_spec()),
    {
        lemma_components_evolve(self.comps(), a0, self.allocator_spec());
    }

    /// Destroy a live entity. Its components become unreachable.
    /// Returns `false` when `id` is not alive.
    pub fn despawn(&mut self, id: EntityId) -> (r: bool)
        requires
            old(self).wf(),
        ensures
            final(self).wf(),
            r == old(self).alive(id),
            !r ==> *final(self) == *old(self),
            !final(self).alive(id),
            forall|other: EntityId|
                other != id ==> (#[trigger] final(self).alive(other) == old(self).alive(other)),
            final(self).comps() == old(self).comps(),
            final(self).live_count() == old(self).live_count() - (if r { 1int } else { 0int }),
            r ==> final(self).allocator_spec().is_stale(id),
            old(self).allocator_spec().evolves_to(&final(self).allocator_spec()),
            final(self).room() == old(self).room(),
            final(self).allocator_spec().offset() == old(self).allocator_spec().offset(),
            final(self).tracker() == old(self).tracker(),
    {
        if !self.allocator.is_alive(id) {
            return false;
        }
        let ghost a0 = self.allocator;
        let r = self.allocator.deallocate(id);
        proof {
            self.lemma_consistent_after(a0);
        }
        r
    }

    pub fn is_alive(&self, id: EntityId) -> (r: bool)
        requires
            self.wf(),
        ensures
            r == self.alive(id),
    {
        self.allocator.is_alive(id)
    }

    /// Number of entity slots the world has used so far, live or not.
    pub fn slot_count(&self) -> (r: usize)
        requires
            self.wf(),
        ensures
            r == self.allocator_spec().gens().len(),
    {
        self.allocator.slot_count()
    }

    /// How many more entities can be spawned before the id range or the
    /// slot limit runs out (zero when `room` is negative).
    pub fn room_left(&self) -> (r: u64)
        requires
            self.wf(),
        ensures
            self.room() >= 0 ==> r == self.room(),
            self.room() < 0 ==> r == 0,
    {
        self.allocator.fresh_left()
    }

    /// Number of live entities.
    pub fn entity_count(&self) -> (r: usize)
        requires
            self.wf(),
        ensures
            r == self.live_count(),
    {
        self.allocator.alive_count()
    }

    /// Attach (or replace) the `T` component of a live entity. Nothing
    /// happens when `id` is not alive.
    pub fn insert<T: Component<F>>(&mut self, id: EntityId, component: T)
        requires
            old(self).wf(),
        ensures
            final(self).wf(),
            final(self).allocator_spec() == old(self).allocator_spec(),
            old(self).alive(id) ==> final(self).comp::<T>(id) == Some(component),
            forall|other: EntityId|
                other != id ==> #[trigger] final(self).comp::<T>(other) == old(self).comp::<T>(
                    other,
                ),
            !old(self).alive(id) ==> final(self).comps() == old(self).comps(),
            final(self).comps().same_except(old(self).comps(), T::kind_spec()),
            old(self).alive(id) ==> T::table(final(self).comps()) == crate::store::component::padded(
                T::table(old(self).comps()),
                id.index as int,
            ).update(id.index as int, (id.generation, Some(component))),
            old(self).alive(id) ==> final(self).tracker().change_set() == old(
                self,
            ).tracker().change_set().insert(
                ChangeRecord { entity: id, component_type: T::kind_spec() },
            ),
            !old(self).alive(id) ==> final(self).tracker() == old(self).tracker(),
    {
        if !self.allocator.is_alive(id) {
            return;
        }
        self.change_tracker.record::<T>(id);
        let ghost c0 = self.components;
        let store = T::store_mut(&mut self.components);
        store.insert(id, component);
        proof {
            lemma_write_consistent::<F, T>(c0, self.components, self.allocator, id, Some(component));
            lemma_lookup_after_write(T::table(c0), T::table(self.components), id, Some(component));
            assert forall|other: EntityId| other != id implies #[trigger] self.comp::<T>(other) == old(self).comp::<T>(other) by {
                if other.index == id.index && self.alive(other) {
                    assert(other.generation == id.generation);
                }
            }
        }
    }

    pub fn get<T: Component<F>>(&self, id: EntityId) -> (r: Option<&T>)
        requires
            self.wf(),
        ensures
            match r {
                Some(v) => self.comp::<T>(id) == Some(*v),
                None => self.comp::<T>(id) is None,
            },
    {
        if !self.allocator.is_alive(id) {
            return None;
        }
        T::store(&self.components).get(id)
    }

    /// Mutable access to the `T` component of a live entity. The access is
    /// recorded as a change.
    pub fn get_mut<T: Component<F>>(&mut self, id: EntityId) -> (r: Option<&mut T>)
        requires
            old(self).wf(),
        ensures
            final(self).wf(),
            final(self).allocator_spec() == old(self).allocator_spec(),
            old(self).comp::<T>(id) is Some ==> {
                &&& r is Some
                &&& *r->0 == old(self).comp::<T>(id)->0
                &&& final(self).comp::<T>(id) == Some(*final(r->0))
            },
            old(self).comp::<T>(id) is None ==> r is None && T::table(final(self).comps()) == T::table(
                old(self).comps(),
            ),
            forall|other: EntityId|
                other != id ==> #[trigger] final(self).comp::<T>(other) == old(self).comp::<T>(
                    other,
                ),
            final(self).comps().same_except(old(self).comps(), T::kind_spec()),
            old(self).alive(id) ==> final(self).tracker().change_set() == old(
                self,
            ).tracker().change_set().insert(
                ChangeRecord { entity: id, component_type: T::kind_spec() },
            ),
            !old(self).alive(id) ==> final(self).tracker() == old(self).tracker(),
    {
        if !self.allocator.is_alive(id) {
            return None;
        }
        self.change_tracker.record::<T>(id);
        let ghost c0 = self.components;
        proof {
            lemma_overwrite_any::<F, T>(c0, self.allocator, id);
        }
        let store = T::store_mut(&mut self.components);
        let r = store.get_mut(id);
        r
    }

    /// Detach and return the `T` component of a live entity.
    pub fn remove<T: Component<F>>(&mut self, id: EntityId) -> (r: Option<T>)
        requires
            old(self).wf(),
        ensures
            final(self).wf(),
            final(self).allocator_spec() == old(self).allocator_spec(),
            r == old(self).comp::<T>(id),
            final(self).comp::<T>(id) is None,
            forall|other: EntityId|
                other != id ==> #[trigger] final(self).comp::<T>(other) == old(self).comp::<T>(
                    other,
                ),
            final(self).comps().same_except(old(self).comps(), T::kind_spec()),
            old(self).alive(id) ==> final(self).tracker().change_set() == old(
                self,
            ).tracker().change_set().insert(
                ChangeRecord { entity: id, component_type: T::kind_spec() },
            ),
            !old(self).alive(id) ==> final(self).tracker() == old(self).tracker(),
    {
        if !self.allocator.is_alive(id) {
            return None;
        }
        self.change_tracker.record::<T>(id);
        let ghost c0 = self.components;
        let store = T::store_mut(&mut self.components);
        let r = store.remove(id);
        proof {
            if r is Some {
                assert(padded(T::table(c0), id.index as int) == T::table(c0));
                lemma_write_consistent::<F, T>(c0, self.components, self.allocator, id, None);
                lemma_lookup_after_write(T::table(c0), T::table(self.components), id, None);
            } else {
                T::lemma_table_consistent(c0, self.allocator);
                T::lemma_replace_consistent(c0, self.components, self.allocator);
            }
            assert forall|other: EntityId| other != id implies #[trigger] self.comp::<T>(other) == old(self).comp::<T>(other) by {
                if other.index == id.index && self.alive(other) {
                    assert(other.generation == id.generation);
                }
            }
        }
        r
    }

    pub fn has<T: Component<F>>(&self, id: EntityId) -> (r: bool)
        requires
            self.wf(),
        ensures
            r == self.comp::<T>(id) is Some,
    {
        if !self.allocator.is_alive(id) {
            return false;
        }
        T::store(&self.components).get(id).is_some()
    }

    /// All live entities with a `T` component, in increasing index order,
    /// with their components.
    pub fn query<T: Component<F>>(&self) -> (r: Vec<(EntityId, &T)>)
        requires
            self.wf(),
        ensures
            forall|k: int|
                0 <= k < r@.len() ==> self.comp::<T>(#[trigger] r@[k].0) == Some(*r@[k].1),
            forall|id: EntityId|
                self.comp::<T>(id) is Some ==> exists|k: int|
                    0 <= k < r@.len() && #[trigger] r@[k].0 == id,
            forall|a: int, b: int|
                0 <= a < b < r@.len() ==> (#[trigger] r@[a].0).index < (#[trigger] r@[b].0).index,
    {
        let store = T::store(&self.components);
        let mut r: Vec<(EntityId, &T)> = Vec::new();
        let mut j: usize = 0;
        let n = store.len();
        while j < n
            invariant
                n == store.slots().len(),
                store.slots() == T::table(self.comps()),
                self.wf(),
                j <= n,
                forall|k: int|
                    0 <= k < r@.len() ==> self.comp::<T>(#[trigger] r@[k].0) == Some(*r@[k].1),
                forall|k: int| 0 <= k < r@.len() ==> (#[trigger] r@[k].0).index < j,
                forall|id: EntityId|
                    (id.index as int) < j && self.comp::<T>(id) is Some ==> exists|k: int|
                        0 <= k < r@.len() && #[trigger] r@[k].0 == id,
                forall|a: int, b: int|
                    0 <= a < b < r@.len() ==> (#[trigger] r@[a].0).index < (#[trigger] r@[b].0).index,
            decreases n - j,
        {
            proof {
                T::lemma_table_consistent(self.comps(), self.allocator_spec());
            }
            match store.get_by_index(j) {
                Some((g, v)) => {
                    let id = EntityId { index: j as u32, generation: *g };
                    if self.allocator.is_alive(id) {
                        let ghost r0 = r@;
                        r.push((id, v));
                        assert forall|other: EntityId|
                            (other.index as int) < j + 1 && self.comp::<T>(other) is Some implies exists|k: int|
                                0 <= k < r@.len() && #[trigger] r@[k].0 == other by {
                            if (other.index as int) < j {
                                let k = choose|k: int| 0 <= k < r0.len() && #[trigger] r0[k].0 == other;
                                assert(r@[k] == r0[k]);
                            } else {
                                assert(r@[r@.len() - 1].0 == other);
                            }
                        }
                    }
                },
                None => {},
            }
            j = j + 1;
        }
        assert forall|id: EntityId| self.comp::<T>(id) is Some implies exists|k: int|
            0 <= k < r@.len() && #[trigger] r@[k].0 == id by {
            assert((id.index as int) < n);
        }
        r
    }

    /// All live entities with both an `A` and a `B` component, in increasing
    /// index order.
    pub fn query2<A: Component<F>, B: Component<F>>(&self) -> (r: Vec<(EntityId, &A, &B)>)
        requires
            self.wf(),
        ensures
            forall|k: int|
                0 <= k < r@.len() ==> self.comp::<A>(#[trigger] r@[k].0) == Some(*r@[k].1)
                    && self.comp::<B>(r@[k].0) == Some(*r@[k].2),
            forall|id: EntityId|
                self.comp::<A>(id) is Some && self.comp::<B>(id) is Some ==> exists|k: int|
                    0 <= k < r@.len() && #[trigger] r@[k].0 == id,
            forall|a: int, b: int|
                0 <= a < b < r@.len() ==> (#[trigger] r@[a].0).index < (#[trigger] r@[b].0).index,
    {
        let first = self.query::<A>();
        let mut r: Vec<(EntityId, &A, &B)> = Vec::new();
        let mut i: usize = 0;
        while i < first.len()
            invariant
                self.wf(),
                i <= first@.len(),
                forall|k: int|
                    0 <= k < first@.len() ==> self.comp::<A>(#[trigger] first@[k].0) == Some(*first@[k].1),
                forall|id: EntityId|
                    self.comp::<A>(id) is Some ==> exists|k: int|
                        0 <= k < first@.len() && #[trigger] first@[k].0 == id,
                forall|a: int, b: int|
                    0 <= a < b < first@.len() ==> (#[trigger] first@[a].0).index < (#[trigger] first@[b].0).index,
                forall|k: int|
                    0 <= k < r@.len() ==> self.comp::<A>(#[trigger] r@[k].0) == Some(*r@[k].1)
                        && self.comp::<B>(r@[k].0) == Some(*r@[k].2),
                forall|k: int| 0 <= k < r@.len() ==> exists|m: int| 0 <= m < i && first@[m].0 == #[trigger] r@[k].0,
                forall|id: EntityId|
                    (exists|m: int| 0 <= m < i && #[trigger] first@[m].0 == id) && self.comp::<B>(id) is Some
                        ==> exists|k: int| 0 <= k < r@.len() && #[trigger] r@[k].0 == id,
                forall|a: int, b: int|
                    0 <= a < b < r@.len() ==> (#[trigger] r@[a].0).index < (#[trigger] r@[b].0).index,
                r@.len() > 0 ==> exists|m: int| 0 <= m < i && first@[m].0 == r@[r@.len() - 1].0,
            decreases first.len() - i,
        {
            let (id, a) = first[i];
            match self.get::<B>(id) {
                Some(b) => {
                    let ghost r0 = r@;
                    proof {
                        if r0.len() > 0 {
                            let m = choose|m: int| 0 <= m < i && first@[m].0 == r0[r0.len() - 1].0;
                            assert(first@[m].0.index < first@[i as int].0.index);
                        }
                    }
                    r.push((id, a, b));
                    assert forall|k: int| 0 <= k < r@.len() implies exists|m: int| 0 <= m < i + 1 && first@[m].0 == #[trigger] r@[k].0 by {
                        if k < r0.len() {
                            assert(r@[k] == r0[k]);
                        } else {
                            assert(first@[i as int].0 == r@[k].0);
                        }
                    }
                    assert forall|other: EntityId|
                        (exists|m: int| 0 <= m < i + 1 && #[trigger] first@[m].0 == other) && self.comp::<B>(other) is Some
                            implies exists|k: int| 0 <= k < r@.len() && #[trigger] r@[k].0 == other by {
                        let m = choose|m: int| 0 <= m < i + 1 && #[trigger] first@[m].0 == other;
                        if m < i {
                            let k = choose|k: int| 0 <= k < r0.len() && #[trigger] r0[k].0 == other;
                            assert(r@[k] == r0[k]);
                        } else {
                            assert(r@[r@.len() - 1].0 == other);
                        }
                    }
                    assert(exists|m: int| 0 <= m < i + 1 && first@[m].0 == r@[r@.len() - 1].0) by {
                        assert(first@[i as int].0 == r@[r@.len() - 1].0);
                    }
                    assert forall|x: int, y: int| 0 <= x < y < r@.len() implies (#[trigger] r@[x].0).index < (#[trigger] r@[y].0).index by {
                        if y < r0.len() {
                            assert(r@[x] == r0[x]);
                            assert(r@[y] == r0[y]);
                        } else {
                            assert(r@[x] == r0[x]);
                            let m = choose|m: int| 0 <= m < i && first@[m].0 == #[trigger] r0[x].0;
                            if x == r0.len() - 1 {
                            } else {
                                let m2 = choose|m2: int| 0 <= m2 < i && first@[m2].0 == r0[r0.len() - 1].0;
                                assert(r0[x].0.index < r0[r0.len() - 1].0.index);
                            }
                        }
                    }
                },
                None => {
                    assert forall|other: EntityId|
                        (exists|m: int| 0 <= m < i + 1 && #[trigger] first@[m].0 == other) && self.comp::<B>(other) is Some
                            implies exists|k: int| 0 <= k < r@.len() && #[trigger] r@[k].0 == other by {
                        let m = choose|m: int| 0 <= m < i + 1 && #[trigger] first@[m].0 == other;
                        if m == i {
                            assert(false);
                        }
                    }
                    assert forall|k: int| 0 <= k < r@.len() implies exists|m: int| 0 <= m < i + 1 && first@[m].0 == #[trigger] r@[k].0 by {
                        let m = choose|m: int| 0 <= m < i && first@[m].0 == r@[k].0;
                    }
                },
            }
            i = i + 1;
        }
        assert forall|id: EntityId|
            self.comp::<A>(id) is Some && self.comp::<B>(id) is Some implies exists|k: int|
                0 <= k < r@.len() && #[trigger] r@[k].0 == id by {
            let m = choose|m: int| 0 <= m < first@.len() && #[trigger] first@[m].0 == id;
        }
        r
    }

    /// Number of live entities with a `T` component.
    pub fn count_with<T: Component<F>>(&self) -> (r: usize)
        requires
            self.wf(),
        ensures
            self.ids_with::<T>().finite(),
            r == self.ids_with::<T>().len(),
    {
        let q = self.query::<T>();
        let ghost ids = Seq::new(q@.len(), |k: int| q@[k].0);
        proof {
            assert(ids.no_duplicates()) by {
                assert forall|a: int, b: int| 0 <= a < ids.len() && 0 <= b < ids.len() && a != b implies ids[a] != ids[b] by {
                    if a < b {
                        assert(q@[a].0.index < q@[b].0.index);
                    } else {
                        assert(q@[b].0.index < q@[a].0.index);
                    }
                }
            }
            assert(ids.to_set() =~= self.ids_with::<T>()) by {
                assert forall|id: EntityId| ids.to_set().contains(id) <==> self.ids_with::<T>().contains(id) by {
                    if self.comp::<T>(id) is Some {
                        let k = choose|k: int| 0 <= k < q@.len() && #[trigger] q@[k].0 == id;
                        assert(ids[k] == id);
                    }
                    if ids.to_set().contains(id) {
                        let k = choose|k: int| 0 <= k < ids.len() && ids[k] == id;
                        assert(q@[k].0 == id);
                    }
                }
            }
            ids.unique_seq_to_set();
        }
        q.len()
    }

    /// Distinct live entities are at most as many as the slots the world
    /// has handed out.
    pub proof fn lemma_alive_bound(&self, s: Seq<EntityId>)
        requires
            s.no_duplicates(),
            forall|i: int| 0 <= i < s.len() ==> self.alive(#[trigger] s[i]),
        ensures
            s.len() <= self.allocator_spec().gens().len(),
    {
        let a = self.allocator_spec();
        let m = Seq::new(s.len(), |i: int| a.local_of(s[i]));
        assert(m.no_duplicates()) by {
            assert forall|i: int, j: int| 0 <= i < m.len() && 0 <= j < m.len() && i != j implies m[i] != m[j] by {
                assert(self.alive(s[i]) && self.alive(s[j]));
                if m[i] == m[j] {
                    assert(s[i].index == s[j].index);
                    assert(s[i].generation == s[j].generation);
                    assert(s[i] == s[j]);
                }
            }
        }
        m.unique_seq_to_set();
        vstd::set_lib::lemma_int_range(0, a.gens().len() as int);
        assert(m.to_set().subset_of(vstd::set_lib::set_int_range(0, a.gens().len() as int))) by {
            assert forall|x: int| m.to_set().contains(x) implies vstd::set_lib::set_int_range(0, a.gens().len() as int).contains(x) by {
                let i = choose|i: int| 0 <= i < m.len() && m[i] == x;
                assert(self.alive(s[i]));
            }
        }
        vstd::set_lib::lemma_len_subset(m.to_set(), vstd::set_lib::set_int_range(0, a.gens().len() as int));
    }

    /// Copy the whole world.
    pub fn duplicate(&self) -> (r: Self)
        requires
            self.wf(),
        ensures
            r.wf(),
            r.allocator_spec().gens() == self.allocator_spec().gens(),
            r.allocator_spec().live_flags() == self.allocator_spec().live_flags(),
            r.allocator_spec().free_slots() == self.allocator_spec().free_slots(),
            r.allocator_spec().offset() == self.allocator_spec().offset(),
            r.allocator_spec().limit() == self.allocator_spec().limit(),
            Components::same_content(r.comps(), self.comps()),
            r.tracker().records() == self.tracker().records(),
    {
        let allocator = self.allocator.duplicate();
        let components = self.components.duplicate();
        let r = World { allocator, components, change_tracker: self.change_tracker.duplicate() };
        proof {
            lemma_components_same_content(self.components, r.components, self.allocator, r.allocator);
        }
        r
    }
}

} // verus!
