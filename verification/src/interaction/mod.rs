pub mod controller;

use vstd::prelude::*;
use crate::store::EntityId;

verus! {

/// What a pointer position hits, by priority: ports, nodes, connections,
/// frames.
#[derive(Clone, Copy, Debug, PartialEq, Eq, Structural)]
pub enum HitTarget {
    Nothing,
    Node(EntityId),
    Port(EntityId),
    Connection(EntityId),
    Frame(EntityId),
}

#[derive(Clone, Copy, Debug, PartialEq, Eq, Structural)]
pub enum MouseButton {
    Left,
    Middle,
    Right,
}

/// Modifier keys held during an input event.
#[derive(Clone, Copy, Debug, PartialEq, Eq, Structural)]
pub struct Modifiers {
    pub shift: bool,
    pub ctrl: bool,
    pub alt: bool,
}

impl Default for Modifiers {
    fn default() -> (r: Self)
        ensures
            !r.shift && !r.ctrl && !r.alt,
    {
        Modifiers { shift: false, ctrl: false, alt: false }
    }
}

/// `s` without any occurrence of `id`, in order.
pub open spec fn dropped(s: Seq<EntityId>, id: EntityId) -> Seq<EntityId>
    decreases s.len(),
{
    if s.len() == 0 {
        s
    } else {
        let before = dropped(s.drop_last(), id);
        if s.last() != id {
            before.push(s.last())
        } else {
            before
        }
    }
}

proof fn lemma_dropped_push(p: Seq<EntityId>, e: EntityId, id: EntityId)
    ensures
        dropped(p.push(e), id) == if e != id { dropped(p, id).push(e) } else { dropped(p, id) },
{
    assert(p.push(e).drop_last() =~= p);
}

/// No occurrence of `id` is left.
pub proof fn lemma_dropped_lacks(s: Seq<EntityId>, id: EntityId)
    ensures
        !dropped(s, id).contains(id),
    decreases s.len(),
{
    if s.len() > 0 {
        lemma_dropped_lacks(s.drop_last(), id);
        let before = dropped(s.drop_last(), id);
        if s.last() != id {
            assert forall|k: int| 0 <= k < before.push(s.last()).len() implies before.push(s.last())[k] != id by {
                if k < before.len() {
                    assert(before[k] != id) by {
                        if before[k] == id {
                            assert(before.contains(id));
                        }
                    }
                }
            }
        }
    }
}

/// The selected entities, in selection order.
#[derive(Clone, Debug)]
pub struct SelectionState {
    pub selected: Vec<EntityId>,
}

impl SelectionState {
    pub fn new() -> (r: Self)
        ensures
            r.selected@.len() == 0,
    {
        SelectionState { selected: Vec::new() }
    }

    pub fn is_selected(&self, id: EntityId) -> (r: bool)
        ensures
            r == self.selected@.contains(id),
    {
        let mut i: usize = 0;
        while i < self.selected.len()
            invariant
                i <= self.selected@.len(),
                forall|j: int| 0 <= j < i ==> self.selected@[j] != id,
            decreases self.selected.len() - i,
        {
            if self.selected[i] == id {
                return true;
            }
            i = i + 1;
        }
        false
    }

    /// Add `id` at the end unless it is already selected.
    pub fn select(&mut self, id: EntityId)
        ensures
            final(self).selected@ == (if old(self).selected@.contains(id) {
                old(self).selected@
            } else {
                old(self).selected@.push(id)
            }),
    {
        if !self.is_selected(id) {
            self.selected.push(id);
        }
    }

    /// Remove every occurrence of `id`, keeping the order of the rest.
    pub fn deselect(&mut self, id: EntityId)
        ensures
            final(self).selected@ == dropped(old(self).selected@, id),
    {
        let mut kept: Vec<EntityId> = Vec::new();
        let mut i: usize = 0;
        while i < self.selected.len()
            invariant
                i <= self.selected@.len(),
                self.selected@ == old(self).selected@,
                kept@ == dropped(old(self).selected@.subrange(0, i as int), id),
            decreases self.selected.len() - i,
        {
            let e = self.selected[i];
            proof {
                let p = old(self).selected@.subrange(0, i as int);
                assert(old(self).selected@.subrange(0, i as int + 1) =~= p.push(e));
                lemma_dropped_push(p, e, id);
            }
            if e != id {
                kept.push(e);
            }
            i = i + 1;
        }
        proof {
            assert(old(self).selected@.subrange(0, i as int) =~= old(self).selected@);
        }
        self.selected = kept;
    }

    /// Select `id` if it is not selected, else deselect it.
    pub fn toggle(&mut self, id: EntityId)
        ensures
            old(self).selected@.contains(id) ==> final(self).selected@ == dropped(old(self).selected@, id),
            !old(self).selected@.contains(id) ==> final(self).selected@ == old(self).selected@.push(id),
    {
        if self.is_selected(id) {
            self.deselect(id);
        } else {
            self.select(id);
        }
    }

    pub fn clear(&mut self)
        ensures
            final(self).selected@.len() == 0,
    {
        self.selected.clear();
    }

    /// Replace the selection.
    pub fn set(&mut self, ids: Vec<EntityId>)
        ensures
            final(self).selected@ == ids@,
    {
        self.selected = ids;
    }

    /// Toggling an entity twice leaves its selection status as it was.
    pub proof fn lemma_toggle_twice(s: Seq<EntityId>, id: EntityId)
        ensures
            ({
                let once = if s.contains(id) { dropped(s, id) } else { s.push(id) };
                let twice = if once.contains(id) { dropped(once, id) } else { once.push(id) };
                twice.contains(id) == s.contains(id)
            }),
    {
        if s.contains(id) {
            let once = dropped(s, id);
            lemma_dropped_lacks(s, id);
            assert(once.push(id)[once.len() as int] == id);
        } else {
            let once = s.push(id);
            assert(once[s.len() as int] == id);
            lemma_dropped_lacks(once, id);
        }
    }
}

impl Default for SelectionState {
    fn default() -> (r: Self)
        ensures
            r.selected@.len() == 0,
    {
        SelectionState::new()
    }
}

} // verus!
