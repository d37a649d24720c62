use vstd::prelude::*;
use super::entity::EntityId;

verus! {

/// The kinds of component a `World` stores. Each component type has one.
#[derive(Clone, Copy, Debug, PartialEq, Eq, Hash, Structural)]
pub enum ComponentKind {
    NodeHeader,
    NodePosition,
    NodeTypeId,
    MuteState,
    CustomBodyHeight,
    PortOwner,
    PortDirection,
    PortSocketType,
    PortIndex,
    PortLabel,
    ConnectionEndpoints,
    FrameLabel,
    FrameColor,
    FrameRect,
    FrameMembers,
    SubgraphRoot,
    GroupIOLabel,
    GroupIOKind,
    IsReroute,
    ReroutePosition,
}

/// A type that is stored as a component and has a `ComponentKind`.
pub trait ComponentType {
    spec fn kind_spec() -> ComponentKind;

    fn kind() -> (k: ComponentKind)
        ensures
            k == Self::kind_spec(),
    ;
}

/// One recorded change: this entity's component of this kind was written.
#[derive(Clone, Copy, Debug, PartialEq, Eq, Hash, Structural)]
pub struct ChangeRecord {
    pub entity: EntityId,
    pub component_type: ComponentKind,
}

/// The set of (entity, component kind) pairs written since the last clear.
pub struct ChangeTracker {
    changes: Vec<ChangeRecord>,
}

impl ChangeTracker {
    /// The recorded changes, each once, in the order first recorded.
    pub closed spec fn records(&self) -> Seq<ChangeRecord> {
        self.changes@
    }

    pub open spec fn wf(&self) -> bool {
        self.records().no_duplicates()
    }

    pub open spec fn change_set(&self) -> Set<ChangeRecord> {
        self.records().to_set()
    }

    pub fn new() -> (t: Self)
        ensures
            t.wf(),
            t.records().len() == 0,
            t.change_set() == Set::<ChangeRecord>::empty(),
    {
        let t = ChangeTracker { changes: Vec::new() };
        assert(t.records().to_set() =~= Set::<ChangeRecord>::empty());
        t
    }

    /// Record that `entity`'s component of kind `kind` changed.
    pub fn record_kind(&mut self, entity: EntityId, kind: ComponentKind)
        requires
            old(self).wf(),
        ensures
            final(self).wf(),
            final(self).change_set() == old(self).change_set().insert(
                ChangeRecord { entity, component_type: kind },
            ),
    {
        let rec = ChangeRecord { entity, component_type: kind };
        let mut i: usize = 0;
        let mut found = false;
        while i < self.changes.len()
            invariant
                i <= self.changes@.len(),
                found ==> self.changes@.contains(rec),
                !found ==> forall|k: int| 0 <= k < i ==> self.changes@[k] != rec,
            decreases self.changes.len() - i,
        {
            if self.changes[i] == rec {
                found = true;
            }
            i = i + 1;
        }
        if found {
            assert(self.records().to_set().contains(rec));
            assert(self.change_set() =~= self.change_set().insert(rec));
            return;
        }
        let ghost old_records = self.changes@;
        self.changes.push(rec);
        assert(self.changes@.no_duplicates()) by {
            assert forall|a: int, b: int|
                0 <= a < self.changes@.len() && 0 <= b < self.changes@.len() && a != b implies self.changes@[a]
                != self.changes@[b] by {
                if a < old_records.len() && b < old_records.len() {
                    assert(old_records[a] == self.changes@[a]);
                    assert(old_records[b] == self.changes@[b]);
                }
            }
        }
        assert(self.change_set() =~= old_records.to_set().insert(rec)) by {
            assert forall|r: ChangeRecord| self.change_set().contains(r) <==> old_records.to_set().insert(rec).contains(r) by {
                if old_records.to_set().contains(r) {
                    let k = choose|k: int| 0 <= k < old_records.len() && old_records[k] == r;
                    assert(self.changes@[k] == r);
                }
                if self.change_set().contains(r) && r != rec {
                    let k = choose|k: int| 0 <= k < self.changes@.len() && self.changes@[k] == r;
                    assert(k < old_records.len());
                    assert(old_records[k] == r);
                }
                if r == rec {
                    assert(self.changes@[self.changes@.len() - 1] == rec);
                }
            }
        }
    }

    /// Record that `entity`'s component of type `T` changed.
    pub fn record<T: ComponentType>(&mut self, entity: EntityId)
        requires
            old(self).wf(),
        ensures
            final(self).wf(),
            final(self).change_set() == old(self).change_set().insert(
                ChangeRecord { entity, component_type: T::kind_spec() },
            ),
    {
        self.record_kind(entity, T::kind());
    }

    /// All recorded changes, each once.
    pub fn changes(&self) -> (r: &[ChangeRecord])
        ensures
            r@ == self.records(),
    {
        self.changes.as_slice()
    }

    /// The entities whose component of type `T` changed, each once.
    pub fn changed_entities<T: ComponentType>(&self) -> (r: Vec<EntityId>)
        requires
            self.wf(),
        ensures
            forall|e: EntityId|
                r@.contains(e) <==> self.change_set().contains(
                    ChangeRecord { entity: e, component_type: T::kind_spec() },
                ),
            r@.no_duplicates(),
    {
        let kind = T::kind();
        let mut r: Vec<EntityId> = Vec::new();
        let mut i: usize = 0;
        while i < self.changes.len()
            invariant
                i <= self.changes@.len(),
                self.changes@.no_duplicates(),
                kind == T::kind_spec(),
                r@.no_duplicates(),
                forall|e: EntityId|
                    r@.contains(e) <==> exists|k: int|
                        0 <= k < i && #[trigger] self.changes@[k] == (ChangeRecord {
                            entity: e,
                            component_type: kind,
                        }),
            decreases self.changes.len() - i,
        {
            let rec = self.changes[i];
            if rec.component_type == kind {
                let ghost old_r = r@;
                assert(!old_r.contains(rec.entity)) by {
                    if old_r.contains(rec.entity) {
                        let k = choose|k: int| 0 <= k < i && #[trigger] self.changes@[k] == (ChangeRecord {
                            entity: rec.entity,
                            component_type: kind,
                        });
                        assert(self.changes@[k] == self.changes@[i as int]);
                    }
                }
                r.push(rec.entity);
                assert forall|e: EntityId|
                    r@.contains(e) <==> exists|k: int|
                        0 <= k < i + 1 && #[trigger] self.changes@[k] == (ChangeRecord {
                            entity: e,
                            component_type: kind,
                        }) by {
                    if r@.contains(e) && e != rec.entity {
                        let j = choose|j: int| 0 <= j < r@.len() && r@[j] == e;
                        assert(old_r[j] == e);
                        assert(old_r.contains(e));
                    }
                    if e == rec.entity {
                        assert(r@[r@.len() - 1] == e);
                        assert(self.changes@[i as int] == (ChangeRecord { entity: e, component_type: kind }));
                    }
                    if exists|k: int|
                        0 <= k < i + 1 && #[trigger] self.changes@[k] == (ChangeRecord {
                            entity: e,
                            component_type: kind,
                        }) {
                        if e != rec.entity {
                            let k = choose|k: int|
                                0 <= k < i + 1 && #[trigger] self.changes@[k] == (ChangeRecord {
                                    entity: e,
                                    component_type: kind,
                                });
                            assert(k < i);
                            assert(old_r.contains(e));
                            let j = choose|j: int| 0 <= j < old_r.len() && old_r[j] == e;
                            assert(r@[j] == e);
                        }
                    }
                }
                assert(r@.no_duplicates()) by {
                    assert forall|a: int, b: int|
                        0 <= a < r@.len() && 0 <= b < r@.len() && a != b implies r@[a] != r@[b] by {
                        if a < old_r.len() && b < old_r.len() {
                            assert(old_r[a] == r@[a]);
                            assert(old_r[b] == r@[b]);
                        } else if a < old_r.len() {
                            assert(old_r[a] == r@[a]);
                            assert(old_r.contains(r@[a]));
                        } else if b < old_r.len() {
                            assert(old_r[b] == r@[b]);
                            assert(old_r.contains(r@[b]));
                        }
                    }
                }
            } else {
                assert forall|e: EntityId|
                    r@.contains(e) <==> exists|k: int|
                        0 <= k < i + 1 && #[trigger] self.changes@[k] == (ChangeRecord {
                            entity: e,
                            component_type: kind,
                        }) by {
                    if exists|k: int|
                        0 <= k < i + 1 && #[trigger] self.changes@[k] == (ChangeRecord {
                            entity: e,
                            component_type: kind,
                        }) {
                        let k = choose|k: int|
                            0 <= k < i + 1 && #[trigger] self.changes@[k] == (ChangeRecord {
                                entity: e,
                                component_type: kind,
                            });
                        assert(k < i);
                    }
                }
            }
            i = i + 1;
        }
        assert forall|e: EntityId|
            r@.contains(e) <==> self.change_set().contains(
                ChangeRecord { entity: e, component_type: T::kind_spec() },
            ) by {
            let rec = ChangeRecord { entity: e, component_type: T::kind_spec() };
            if self.change_set().contains(rec) {
                let k = choose|k: int| 0 <= k < self.changes@.len() && self.changes@[k] == rec;
                assert(self.changes@[k] == rec);
            }
        }
        r
    }

    pub fn has_changes(&self) -> (r: bool)
        ensures
            r == (self.records().len() > 0),
    {
        self.changes.len() > 0
    }

    pub fn clear(&mut self)
        ensures
            final(self).wf(),
            final(self).records().len() == 0,
            final(self).change_set() == Set::<ChangeRecord>::empty(),
    {
        self.changes.clear();
        assert(self.changes@.to_set() =~= Set::<ChangeRecord>::empty());
    }

    /// Copy the tracker.
    pub fn duplicate(&self) -> (r: Self)
        ensures
            r.records() == self.records(),
    {
        let mut out: Vec<ChangeRecord> = Vec::new();
        let mut i: usize = 0;
        while i < self.changes.len()
            invariant
                i <= self.changes@.len(),
                out@ == self.changes@.subrange(0, i as int),
            decreases self.changes.len() - i,
        {
            out.push(self.changes[i]);
            i = i + 1;
        }
        assert(out@ =~= self.changes@);
        ChangeTracker { changes: out }
    }
}

impl Default for ChangeTracker {
    fn default() -> (t: Self)
        ensures
            t.wf(),
            t.records().len() == 0,
    {
        ChangeTracker::new()
    }
}

} // verus!
