use vstd::prelude::*;
use crate::store::EntityId;

verus! {

/// For each subgraph, the parent graph that holds its group node and that
/// group node. Each subgraph occurs at most once.
pub struct ParentLinks {
    entries: Vec<(EntityId, (EntityId, EntityId))>,
}

impl View for ParentLinks {
    type V = Map<EntityId, (EntityId, EntityId)>;

    closed spec fn view(&self) -> Map<EntityId, (EntityId, EntityId)> {
        Map::new(
            |k: EntityId| exists|i: int| 0 <= i < self.entries@.len() && self.entries@[i].0 == k,
            |k: EntityId| self.entries@[choose|i: int| 0 <= i < self.entries@.len() && self.entries@[i].0 == k].1,
        )
    }
}

impl ParentLinks {
    /// No subgraph occurs twice.
    pub closed spec fn wf(&self) -> bool {
        forall|i: int, j: int|
            0 <= i < self.entries@.len() && 0 <= j < self.entries@.len() && self.entries@[i].0
                == self.entries@[j].0 ==> i == j
    }

    /// A copy with the same links.
    pub fn duplicate(&self) -> (r: Self)
        ensures
            r@ == self@,
            r.wf() == self.wf(),
    {
        let mut entries: Vec<(EntityId, (EntityId, EntityId))> = Vec::new();
        let mut i: usize = 0;
        while i < self.entries.len()
            invariant
                i <= self.entries@.len(),
                entries@ == self.entries@.subrange(0, i as int),
            decreases self.entries.len() - i,
        {
            entries.push(self.entries[i]);
            i = i + 1;
        }
        assert(entries@ =~= self.entries@);
        let r = Self { entries };
        assert(r.entries@ == self.entries@);
        assert(r.wf() == self.wf());
        r
    }

    pub fn new() -> (r: Self)
        ensures
            r.wf(),
            r@ == Map::<EntityId, (EntityId, EntityId)>::empty(),
    {
        let r = ParentLinks { entries: Vec::new() };
        assert(r@ =~= Map::<EntityId, (EntityId, EntityId)>::empty());
        r
    }

    fn find(&self, k: EntityId) -> (r: Option<usize>)
        requires
            self.wf(),
        ensures
            match r {
                Some(i) => i < self.entries@.len() && self.entries@[i as int].0 == k,
                None => !self@.contains_key(k),
            },
    {
        let mut i: usize = 0;
        while i < self.entries.len()
            invariant
                i <= self.entries@.len(),
                forall|j: int| 0 <= j < i ==> self.entries@[j].0 != k,
            decreases self.entries.len() - i,
        {
            if self.entries[i].0 == k {
                return Some(i);
            }
            i = i + 1;
        }
        None
    }

    proof fn lemma_at(&self, i: int)
        requires
            self.wf(),
            0 <= i < self.entries@.len(),
        ensures
            self@.contains_key(self.entries@[i].0),
            self@[self.entries@[i].0] == self.entries@[i].1,
    {
        let k = self.entries@[i].0;
        assert(exists|j: int| 0 <= j < self.entries@.len() && self.entries@[j].0 == k);
        let j = choose|j: int| 0 <= j < self.entries@.len() && self.entries@[j].0 == k;
        assert(j == i);
    }

    pub fn get(&self, k: EntityId) -> (r: Option<(EntityId, EntityId)>)
        requires
            self.wf(),
        ensures
            r == (if self@.contains_key(k) { Some(self@[k]) } else { None }),
    {
        match self.find(k) {
            Some(i) => {
                proof {
                    self.lemma_at(i as int);
                }
                Some(self.entries[i].1)
            },
            None => None,
        }
    }

    /// The links, each once.
    pub fn pairs(&self) -> (r: Vec<(EntityId, (EntityId, EntityId))>)
        requires
            self.wf(),
        ensures
            forall|i: int| 0 <= i < r@.len() ==> self@.contains_key(#[trigger] r@[i].0) && self@[r@[i].0] == r@[i].1,
            forall|k: EntityId| #[trigger] self@.contains_key(k) ==> exists|i: int| 0 <= i < r@.len() && r@[i].0 == k,
            forall|i: int, j: int| 0 <= i < r@.len() && 0 <= j < r@.len() && r@[i].0 == r@[j].0 ==> i == j,
    {
        let mut r: Vec<(EntityId, (EntityId, EntityId))> = Vec::new();
        let mut i: usize = 0;
        while i < self.entries.len()
            invariant
                self.wf(),
                i <= self.entries@.len(),
                r@ == self.entries@.subrange(0, i as int),
            decreases self.entries.len() - i,
        {
            r.push(self.entries[i]);
            i = i + 1;
        }
        proof {
            assert forall|j: int| 0 <= j < r@.len() implies self@.contains_key(#[trigger] r@[j].0) && self@[r@[j].0] == r@[j].1 by {
                self.lemma_at(j);
            }
            assert(r@ =~= self.entries@);
            assert forall|k: EntityId| #[trigger] self@.contains_key(k) implies exists|i: int| 0 <= i < r@.len() && r@[i].0 == k by {
                assert(exists|i: int| 0 <= i < self.entries@.len() && self.entries@[i].0 == k);
            }
        }
        r
    }

    /// Set the link of `k`, replacing an earlier one.
    pub fn insert(&mut self, k: EntityId, v: (EntityId, EntityId))
        requires
            old(self).wf(),
        ensures
            final(self).wf(),
            final(self)@ == old(self)@.insert(k, v),
    {
        let ghost at: int;
        match self.find(k) {
            Some(i) => {
                self.entries.set(i, (k, v));
                proof {
                    at = i as int;
                }
            },
            None => {
                proof {
                    at = self.entries@.len() as int;
                }
                self.entries.push((k, v));
            },
        }
        proof {
            assert(self.entries@[at] == (k, v));
            assert forall|x: EntityId| #[trigger] self@.contains_key(x) == old(self)@.insert(k, v).contains_key(x) by {
                if old(self)@.contains_key(x) {
                    let j = choose|j: int| 0 <= j < old(self).entries@.len() && old(self).entries@[j].0 == x;
                    if j != at {
                        assert(self.entries@[j].0 == x);
                    }
                }
                if self@.contains_key(x) && x != k {
                    let j = choose|j: int| 0 <= j < self.entries@.len() && self.entries@[j].0 == x;
                    assert(old(self).entries@[j].0 == x);
                }
                if x == k {
                    assert(0 <= at < self.entries@.len() && self.entries@[at].0 == k);
                }
            }
            assert forall|x: EntityId| #[trigger] self@.contains_key(x) implies self@[x] == old(self)@.insert(k, v)[x] by {
                let j = choose|j: int| 0 <= j < self.entries@.len() && self.entries@[j].0 == x;
                self.lemma_at(j);
                if x != k {
                    old(self).lemma_at(j);
                }
            }
            assert(self@ =~= old(self)@.insert(k, v));
        }
    }

    /// Drop the link of `k`, if there is one.
    pub fn remove(&mut self, k: EntityId)
        requires
            old(self).wf(),
        ensures
            final(self).wf(),
            final(self)@ == old(self)@.remove(k),
    {
        match self.find(k) {
            Some(i) => {
                self.entries.remove(i);
                proof {
                    let o = old(self).entries@;
                    assert forall|j: int| 0 <= j < self.entries@.len() implies #[trigger] self.entries@[j] == (if j < i {
                        o[j]
                    } else {
                        o[j + 1]
                    }) by {}
                    assert forall|x: EntityId| #[trigger] self@.contains_key(x) == old(self)@.remove(k).contains_key(x) by {
                        if old(self)@.contains_key(x) && x != k {
                            let j = choose|j: int| 0 <= j < o.len() && o[j].0 == x;
                            if j < i {
                                assert(self.entries@[j].0 == x);
                            } else {
                                assert(self.entries@[j - 1].0 == x);
                            }
                        }
                        if self@.contains_key(x) {
                            let j = choose|j: int| 0 <= j < self.entries@.len() && self.entries@[j].0 == x;
                            if j < i {
                                assert(o[j].0 == x);
                            } else {
                                assert(o[j + 1].0 == x);
                            }
                        }
                    }
                    assert forall|x: EntityId| #[trigger] self@.contains_key(x) implies self@[x] == old(self)@[x] by {
                        let j = choose|j: int| 0 <= j < self.entries@.len() && self.entries@[j].0 == x;
                        self.lemma_at(j);
                        if j < i {
                            old(self).lemma_at(j);
                        } else {
                            old(self).lemma_at(j + 1);
                        }
                    }
                    assert(self@ =~= old(self)@.remove(k));
                }
            },
            None => {
                assert(old(self)@.remove(k) =~= old(self)@);
            },
        }
    }
}

/// For each port of a group input or output node inside a subgraph, keyed
/// by the subgraph and the port, the matching port of the group node in the
/// parent graph. Each key occurs at most once.
pub struct IoPortLinks {
    entries: Vec<((EntityId, EntityId), EntityId)>,
}

impl View for IoPortLinks {
    type V = Map<(EntityId, EntityId), EntityId>;

    closed spec fn view(&self) -> Map<(EntityId, EntityId), EntityId> {
        Map::new(
            |k: (EntityId, EntityId)| exists|i: int| 0 <= i < self.entries@.len() && self.entries@[i].0 == k,
            |k: (EntityId, EntityId)| self.entries@[choose|i: int| 0 <= i < self.entries@.len() && self.entries@[i].0 == k].1,
        )
    }
}

impl IoPortLinks {
    /// No key occurs twice.
    pub closed spec fn wf(&self) -> bool {
        forall|i: int, j: int|
            0 <= i < self.entries@.len() && 0 <= j < self.entries@.len() && self.entries@[i].0
                == self.entries@[j].0 ==> i == j
    }

    /// A copy with the same links.
    pub fn duplicate(&self) -> (r: Self)
        ensures
            r@ == self@,
            r.wf() == self.wf(),
    {
        let mut entries: Vec<((EntityId, EntityId), EntityId)> = Vec::new();
        let mut i: usize = 0;
        while i < self.entries.len()
            invariant
                i <= self.entries@.len(),
                entries@ == self.entries@.subrange(0, i as int),
            decreases self.entries.len() - i,
        {
            entries.push(self.entries[i]);
            i = i + 1;
        }
        assert(entries@ =~= self.entries@);
        let r = Self { entries };
        assert(r.entries@ == self.entries@);
        assert(r.wf() == self.wf());
        r
    }

    pub fn new() -> (r: Self)
        ensures
            r.wf(),
            r@ == Map::<(EntityId, EntityId), EntityId>::empty(),
    {
        let r = IoPortLinks { entries: Vec::new() };
        assert(r@ =~= Map::<(EntityId, EntityId), EntityId>::empty());
        r
    }

    fn find(&self, k: (EntityId, EntityId)) -> (r: Option<usize>)
        requires
            self.wf(),
        ensures
            match r {
                Some(i) => i < self.entries@.len() && self.entries@[i as int].0 == k,
                None => !self@.contains_key(k),
            },
    {
        let mut i: usize = 0;
        while i < self.entries.len()
            invariant
                i <= self.entries@.len(),
                forall|j: int| 0 <= j < i ==> self.entries@[j].0 != k,
            decreases self.entries.len() - i,
        {
            if self.entries[i].0.0 == k.0 && self.entries[i].0.1 == k.1 {
                return Some(i);
            }
            i = i + 1;
        }
        None
    }

    proof fn lemma_at(&self, i: int)
        requires
            self.wf(),
            0 <= i < self.entries@.len(),
        ensures
            self@.contains_key(self.entries@[i].0),
            self@[self.entries@[i].0] == self.entries@[i].1,
    {
        let k = self.entries@[i].0;
        assert(exists|j: int| 0 <= j < self.entries@.len() && self.entries@[j].0 == k);
        let j = choose|j: int| 0 <= j < self.entries@.len() && self.entries@[j].0 == k;
        assert(j == i);
    }

    pub fn get(&self, k: (EntityId, EntityId)) -> (r: Option<EntityId>)
        requires
            self.wf(),
        ensures
            r == (if self@.contains_key(k) { Some(self@[k]) } else { None }),
    {
        match self.find(k) {
            Some(i) => {
                proof {
                    self.lemma_at(i as int);
                }
                Some(self.entries[i].1)
            },
            None => None,
        }
    }

    /// Set the link of `k`, replacing an earlier one.
    pub fn insert(&mut self, k: (EntityId, EntityId), v: EntityId)
        requires
            old(self).wf(),
        ensures
            final(self).wf(),
            final(self)@ == old(self)@.insert(k, v),
    {
        let ghost at: int;
        match self.find(k) {
            Some(i) => {
                self.entries.set(i, (k, v));
                proof {
                    at = i as int;
                }
            },
            None => {
                proof {
                    at = self.entries@.len() as int;
                }
                self.entries.push((k, v));
            },
        }
        proof {
            assert(self.entries@[at] == (k, v));
            assert forall|x: (EntityId, EntityId)| #[trigger] self@.contains_key(x) == old(self)@.insert(k, v).contains_key(x) by {
                if old(self)@.contains_key(x) {
                    let j = choose|j: int| 0 <= j < old(self).entries@.len() && old(self).entries@[j].0 == x;
                    if j != at {
                        assert(self.entries@[j].0 == x);
                    }
                }
                if self@.contains_key(x) && x != k {
                    let j = choose|j: int| 0 <= j < self.entries@.len() && self.entries@[j].0 == x;
                    assert(old(self).entries@[j].0 == x);
                }
                if x == k {
                    assert(0 <= at < self.entries@.len() && self.entries@[at].0 == k);
                }
            }
            assert forall|x: (EntityId, EntityId)| #[trigger] self@.contains_key(x) implies self@[x] == old(self)@.insert(k, v)[x] by {
                let j = choose|j: int| 0 <= j < self.entries@.len() && self.entries@[j].0 == x;
                self.lemma_at(j);
                if x != k {
                    old(self).lemma_at(j);
                }
            }
            assert(self@ =~= old(self)@.insert(k, v));
        }
    }

    /// Drop the link of `k`, if there is one.
    pub fn remove(&mut self, k: (EntityId, EntityId))
        requires
            old(self).wf(),
        ensures
            final(self).wf(),
            final(self)@ == old(self)@.remove(k),
    {
        match self.find(k) {
            Some(i) => {
                self.entries.remove(i);
                proof {
                    let o = old(self).entries@;
                    assert forall|j: int| 0 <= j < self.entries@.len() implies #[trigger] self.entries@[j] == (if j < i {
                        o[j]
                    } else {
                        o[j + 1]
                    }) by {}
                    assert forall|x: (EntityId, EntityId)| #[trigger] self@.contains_key(x) == old(self)@.remove(k).contains_key(x) by {
                        if old(self)@.contains_key(x) && x != k {
                            let j = choose|j: int| 0 <= j < o.len() && o[j].0 == x;
                            if j < i {
                                assert(self.entries@[j].0 == x);
                            } else {
                                assert(self.entries@[j - 1].0 == x);
                            }
                        }
                        if self@.contains_key(x) {
                            let j = choose|j: int| 0 <= j < self.entries@.len() && self.entries@[j].0 == x;
                            if j < i {
                                assert(o[j].0 == x);
                            } else {
                                assert(o[j + 1].0 == x);
                            }
                        }
                    }
                    assert forall|x: (EntityId, EntityId)| #[trigger] self@.contains_key(x) implies self@[x] == old(self)@[x] by {
                        let j = choose|j: int| 0 <= j < self.entries@.len() && self.entries@[j].0 == x;
                        self.lemma_at(j);
                        if j < i {
                            old(self).lemma_at(j);
                        } else {
                            old(self).lemma_at(j + 1);
                        }
                    }
                    assert(self@ =~= old(self)@.remove(k));
                }
            },
            None => {
                assert(old(self)@.remove(k) =~= old(self)@);
            },
        }
    }

    /// A key whose port is linked to `v`, if there is one.
    pub fn key_for_value(&self, v: EntityId) -> (r: Option<(EntityId, EntityId)>)
        requires
            self.wf(),
        ensures
            match r {
                Some(k) => self@.contains_key(k) && self@[k] == v,
                None => forall|k: (EntityId, EntityId)| #[trigger] self@.contains_key(k) ==> self@[k] != v,
            },
    {
        let mut i: usize = 0;
        while i < self.entries.len()
            invariant
                self.wf(),
                i <= self.entries@.len(),
                forall|j: int| 0 <= j < i ==> self.entries@[j].1 != v,
            decreases self.entries.len() - i,
        {
            if self.entries[i].1 == v {
                proof {
                    self.lemma_at(i as int);
                }
                return Some(self.entries[i].0);
            }
            i = i + 1;
        }
        proof {
            assert forall|k: (EntityId, EntityId)| #[trigger] self@.contains_key(k) implies self@[k] != v by {
                let j = choose|j: int| 0 <= j < self.entries@.len() && self.entries@[j].0 == k;
                self.lemma_at(j);
            }
        }
        None
    }

    /// Drop every link of subgraph `sub`.
    pub fn remove_subgraph(&mut self, sub: EntityId)
        requires
            old(self).wf(),
        ensures
            final(self).wf(),
            forall|k: (EntityId, EntityId)| #[trigger] final(self)@.contains_key(k) <==> old(self)@.contains_key(k)
                && k.0 != sub,
            forall|k: (EntityId, EntityId)| #[trigger] final(self)@.contains_key(k) ==> final(self)@[k] == old(self)@[k],
    {
        let mut kept: Vec<((EntityId, EntityId), EntityId)> = Vec::new();
        let ghost src: Seq<int> = Seq::empty();
        let mut i: usize = 0;
        while i < self.entries.len()
            invariant
                old(self).wf(),
                self.entries@ == old(self).entries@,
                i <= self.entries@.len(),
                src.len() == kept@.len(),
                forall|a: int| 0 <= a < kept@.len() ==> 0 <= #[trigger] src[a] < i && kept@[a] == self.entries@[src[a]],
                forall|a: int, b: int| 0 <= a < b < kept@.len() ==> #[trigger] src[a] < #[trigger] src[b],
                forall|j: int| 0 <= j < i && self.entries@[j].0.0 != sub ==> exists|a: int|
                    0 <= a < kept@.len() && #[trigger] src[a] == j,
                forall|a: int| 0 <= a < kept@.len() ==> (#[trigger] kept@[a]).0.0 != sub,
            decreases self.entries.len() - i,
        {
            let e = self.entries[i];
            let ghost src0 = src;
            if e.0.0 != sub {
                kept.push(e);
                proof {
                    src = src.push(i as int);
                    assert(src[src.len() - 1] == i);
                }
            }
            proof {
                assert forall|j: int| 0 <= j < i + 1 && self.entries@[j].0.0 != sub implies exists|a: int|
                    0 <= a < kept@.len() && #[trigger] src[a] == j by {
                    if j < i {
                        let a = choose|a: int| 0 <= a < src0.len() && #[trigger] src0[a] == j;
                        assert(src[a] == j);
                    } else {
                        assert(src[src.len() - 1] == j);
                    }
                }
            }
            i = i + 1;
        }
        let ghost o = old(self).entries@;
        self.entries = kept;
        proof {
            assert(self.wf()) by {
                assert forall|a: int, b: int|
                    0 <= a < self.entries@.len() && 0 <= b < self.entries@.len() && self.entries@[a].0
                        == self.entries@[b].0 implies a == b by {
                    assert(o[src[a]].0 == o[src[b]].0);
                    if a < b {
                        assert(src[a] < src[b]);
                    } else if b < a {
                        assert(src[b] < src[a]);
                    }
                }
            }
            assert forall|k: (EntityId, EntityId)| #[trigger] self@.contains_key(k) <==> old(self)@.contains_key(k)
                && k.0 != sub by {
                if self@.contains_key(k) {
                    let a = choose|a: int| 0 <= a < self.entries@.len() && self.entries@[a].0 == k;
                    assert(o[src[a]].0 == k);
                }
                if old(self)@.contains_key(k) && k.0 != sub {
                    let j = choose|j: int| 0 <= j < o.len() && o[j].0 == k;
                    let a = choose|a: int| 0 <= a < self.entries@.len() && #[trigger] src[a] == j;
                    assert(self.entries@[a].0 == k);
                }
            }
            assert forall|k: (EntityId, EntityId)| #[trigger] self@.contains_key(k) implies self@[k] == old(self)@[k] by {
                let a = choose|a: int| 0 <= a < self.entries@.len() && self.entries@[a].0 == k;
                self.lemma_at(a);
                old(self).lemma_at(src[a]);
            }
        }
    }
}

} // verus!
