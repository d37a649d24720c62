use vstd::prelude::*;
use crate::store::EntityId;

verus! {

/// A map from entity ids to lists of entity ids, kept as a list of
/// entries with distinct keys.
pub struct IdLists {
    entries: Vec<(EntityId, Vec<EntityId>)>,
    model: Ghost<Map<EntityId, Seq<EntityId>>>,
}

/// Remove every occurrence of `x` from `s`.
pub open spec fn without(s: Seq<EntityId>, x: EntityId) -> Seq<EntityId>
    decreases s.len(),
{
    if s.len() == 0 {
        Seq::empty()
    } else {
        let w = without(s.drop_last(), x);
        if s.last() == x {
            w
        } else {
            w.push(s.last())
        }
    }
}

impl IdLists {
    pub closed spec fn view(&self) -> Map<EntityId, Seq<EntityId>> {
        self.model@
    }

    pub closed spec fn wf(&self) -> bool {
        &&& forall|i: int|
            0 <= i < self.entries@.len() ==> {
                &&& self.model@.contains_key(#[trigger] self.entries@[i].0)
                &&& self.model@[self.entries@[i].0] == self.entries@[i].1@
            }
        &&& forall|k: EntityId|
            #[trigger] self.model@.contains_key(k) ==> exists|i: int|
                0 <= i < self.entries@.len() && self.entries@[i].0 == k
        &&& forall|i: int, j: int|
            0 <= i < self.entries@.len() && 0 <= j < self.entries@.len() && i != j
                ==> (#[trigger] self.entries@[i]).0 != (#[trigger] self.entries@[j]).0
    }

    /// The list stored for `k`, or the empty list.
    pub open spec fn list(&self, k: EntityId) -> Seq<EntityId> {
        if self.view().contains_key(k) {
            self.view()[k]
        } else {
            Seq::empty()
        }
    }

    pub fn new() -> (r: Self)
        ensures
            r.wf(),
            r.view() == Map::<EntityId, Seq<EntityId>>::empty(),
    {
        IdLists { entries: Vec::new(), model: Ghost(Map::empty()) }
    }

    fn find(&self, k: EntityId) -> (r: Option<usize>)
        requires
            self.wf(),
        ensures
            match r {
                Some(i) => i < self.entries@.len() && self.entries@[i as int].0 == k,
                None => !self.view().contains_key(k),
            },
    {
        let mut i: usize = 0;
        while i < self.entries.len()
            invariant
                i <= self.entries@.len(),
                forall|j: int| 0 <= j < i ==> self.entries@[j].0 != k,
            decreases self.entries.len() - i,
        {
            if self.entries[i].0 == k {
                return Some(i);
            }
            i = i + 1;
        }
        proof {
            if self.model@.contains_key(k) {
                let j = choose|j: int| 0 <= j < self.entries@.len() && self.entries@[j].0 == k;
            }
        }
        None
    }

    /// The list stored for `k` (empty when there is none).
    pub fn get(&self, k: EntityId) -> (r: &[EntityId])
        requires
            self.wf(),
        ensures
            r@ == self.list(k),
    {
        match self.find(k) {
            Some(i) => self.entries[i].1.as_slice(),
            None => &[],
        }
    }

    pub fn contains_key(&self, k: EntityId) -> (r: bool)
        requires
            self.wf(),
        ensures
            r == self.view().contains_key(k),
    {
        self.find(k).is_some()
    }

    /// Store `v` as the list of `k`, replacing any previous list.
    pub fn set(&mut self, k: EntityId, v: Vec<EntityId>)
        requires
            old(self).wf(),
        ensures
            final(self).wf(),
            final(self).view() == old(self).view().insert(k, v@),
    {
        let ghost vv = v@;
        match self.find(k) {
            Some(i) => {
                let ghost e0 = self.entries@;
                self.entries.set(i, (k, v));
                self.model = Ghost(self.model@.insert(k, vv));
                assert forall|j: int| 0 <= j < self.entries@.len() implies {
                    &&& self.model@.contains_key(#[trigger] self.entries@[j].0)
                    &&& self.model@[self.entries@[j].0] == self.entries@[j].1@
                } by {
                    if j != i {
                        assert(e0[j] == self.entries@[j]);
                    }
                }
                assert forall|kk: EntityId| #[trigger] self.model@.contains_key(kk) implies exists|j: int|
                    0 <= j < self.entries@.len() && self.entries@[j].0 == kk by {
                    if kk != k {
                        let j = choose|j: int| 0 <= j < e0.len() && e0[j].0 == kk;
                        assert(self.entries@[j].0 == kk);
                    } else {
                        assert(self.entries@[i as int].0 == kk);
                    }
                }
                assert forall|a: int, b: int|
                    0 <= a < self.entries@.len() && 0 <= b < self.entries@.len() && a != b implies (#[trigger] self.entries@[a]).0
                        != (#[trigger] self.entries@[b]).0 by {
                    assert(self.entries@[a].0 == e0[a].0);
                    assert(self.entries@[b].0 == e0[b].0);
                }
            },
            None => {
                let ghost e0 = self.entries@;
                self.entries.push((k, v));
                self.model = Ghost(self.model@.insert(k, vv));
                assert forall|j: int| 0 <= j < self.entries@.len() implies {
                    &&& self.model@.contains_key(#[trigger] self.entries@[j].0)
                    &&& self.model@[self.entries@[j].0] == self.entries@[j].1@
                } by {
                    if j < e0.len() {
                        assert(e0[j] == self.entries@[j]);
                        assert(old(self).model@.contains_key(e0[j].0));
                    }
                }
                assert forall|kk: EntityId| #[trigger] self.model@.contains_key(kk) implies exists|j: int|
                    0 <= j < self.entries@.len() && self.entries@[j].0 == kk by {
                    if kk != k {
                        let j = choose|j: int| 0 <= j < e0.len() && e0[j].0 == kk;
                        assert(self.entries@[j].0 == kk);
                    } else {
                        assert(self.entries@[e0.len() as int].0 == kk);
                    }
                }
                assert forall|a: int, b: int|
                    0 <= a < self.entries@.len() && 0 <= b < self.entries@.len() && a != b implies (#[trigger] self.entries@[a]).0
                        != (#[trigger] self.entries@[b]).0 by {
                    if a < e0.len() {
                        assert(self.entries@[a].0 == e0[a].0);
                        assert(old(self).model@.contains_key(e0[a].0));
                    }
                    if b < e0.len() {
                        assert(self.entries@[b].0 == e0[b].0);
                        assert(old(self).model@.contains_key(e0[b].0));
                    }
                }
            },
        }
    }

    /// Append `x` to the list of `k`, creating the list if needed.
    pub fn push(&mut self, k: EntityId, x: EntityId)
        requires
            old(self).wf(),
        ensures
            final(self).wf(),
            final(self).view() == old(self).view().insert(k, old(self).list(k).push(x)),
    {
        match self.find(k) {
            Some(i) => {
                let mut v = crate::store::component::copy_ids(self.entries[i].1.as_slice());
                v.push(x);
                self.set(k, v);
            },
            None => {
                let mut v: Vec<EntityId> = Vec::new();
                v.push(x);
                assert(v@ =~= Seq::<EntityId>::empty().push(x));
                self.set(k, v);
            },
        }
    }

    /// Remove `k` and its list.
    pub fn remove(&mut self, k: EntityId)
        requires
            old(self).wf(),
        ensures
            final(self).wf(),
            final(self).view() == old(self).view().remove(k),
    {
        match self.find(k) {
            Some(i) => {
                let ghost e0 = self.entries@;
                self.entries.remove(i);
                self.model = Ghost(self.model@.remove(k));
                assert forall|j: int| 0 <= j < self.entries@.len() implies {
                    &&& self.model@.contains_key(#[trigger] self.entries@[j].0)
                    &&& self.model@[self.entries@[j].0] == self.entries@[j].1@
                } by {
                    if j < i {
                        assert(self.entries@[j] == e0[j]);
                    } else {
                        assert(self.entries@[j] == e0[j + 1]);
                    }
                }
                assert forall|kk: EntityId| #[trigger] self.model@.contains_key(kk) implies exists|j: int|
                    0 <= j < self.entries@.len() && self.entries@[j].0 == kk by {
                    let j = choose|j: int| 0 <= j < e0.len() && e0[j].0 == kk;
                    assert(j != i);
                    if j < i {
                        assert(self.entries@[j] == e0[j]);
                    } else {
                        assert(self.entries@[j - 1] == e0[j]);
                    }
                }
                assert forall|a: int, b: int|
                    0 <= a < self.entries@.len() && 0 <= b < self.entries@.len() && a != b implies (#[trigger] self.entries@[a]).0
                        != (#[trigger] self.entries@[b]).0 by {
                    let a0 = if a < i { a } else { a + 1 };
                    let b0 = if b < i { b } else { b + 1 };
                    assert(self.entries@[a] == e0[a0]);
                    assert(self.entries@[b] == e0[b0]);
                }
            },
            None => {
                assert(self.model@.remove(k) =~= self.model@);
            },
        }
    }

    /// Remove every occurrence of `x` from the list of `k`, if `k` has one.
    pub fn remove_value(&mut self, k: EntityId, x: EntityId)
        requires
            old(self).wf(),
        ensures
            final(self).wf(),
            old(self).view().contains_key(k) ==> final(self).view() == old(self).view().insert(
                k,
                without(old(self).list(k), x),
            ),
            !old(self).view().contains_key(k) ==> final(self).view() == old(self).view(),
    {
        match self.find(k) {
            Some(i) => {
                let v = filter_out(&self.entries[i].1, x);
                self.set(k, v);
            },
            None => {},
        }
    }

    /// Copy the map.
    pub fn duplicate(&self) -> (r: Self)
        requires
            self.wf(),
        ensures
            r.wf(),
            r.view() == self.view(),
    {
        let mut entries: Vec<(EntityId, Vec<EntityId>)> = Vec::new();
        let mut i: usize = 0;
        while i < self.entries.len()
            invariant
                i <= self.entries@.len(),
                entries@.len() == i,
                forall|j: int| 0 <= j < i ==> (#[trigger] entries@[j]).0 == self.entries@[j].0 && entries@[j].1@ == self.entries@[j].1@,
            decreases self.entries.len() - i,
        {
            let k = self.entries[i].0;
            let v = crate::store::component::copy_ids(self.entries[i].1.as_slice());
            entries.push((k, v));
            i = i + 1;
        }
        let r = IdLists { entries, model: Ghost(self.model@) };
        assert forall|a: int, b: int|
            0 <= a < r.entries@.len() && 0 <= b < r.entries@.len() && a != b implies (#[trigger] r.entries@[a]).0
                != (#[trigger] r.entries@[b]).0 by {
            assert(r.entries@[a].0 == self.entries@[a].0);
            assert(r.entries@[b].0 == self.entries@[b].0);
        }
        assert forall|kk: EntityId| #[trigger] r.model@.contains_key(kk) implies exists|j: int|
            0 <= j < r.entries@.len() && r.entries@[j].0 == kk by {
            let j = choose|j: int| 0 <= j < self.entries@.len() && self.entries@[j].0 == kk;
            assert(r.entries@[j].0 == kk);
        }
        r
    }
}

/// The ids of `v` other than `x`, in order.
pub fn filter_out(v: &Vec<EntityId>, x: EntityId) -> (r: Vec<EntityId>)
    ensures
        r@ == without(v@, x),
{
    let mut r: Vec<EntityId> = Vec::new();
    let mut i: usize = 0;
    while i < v.len()
        invariant
            i <= v@.len(),
            r@ == without(v@.subrange(0, i as int), x),
        decreases v.len() - i,
    {
        let ghost s = v@.subrange(0, i as int);
        assert(v@.subrange(0, i as int + 1) =~= s.push(v@[i as int]));
        assert(s.push(v@[i as int]).drop_last() =~= s);
        if v[i] != x {
            r.push(v[i]);
        }
        i = i + 1;
    }
    assert(v@.subrange(0, i as int) =~= v@);
    r
}

} // verus!

verus! {

pub proof fn lemma_without_contains(s: Seq<EntityId>, x: EntityId)
    ensures
        forall|y: EntityId| #[trigger] without(s, x).contains(y) <==> (s.contains(y) && y != x),
        without(s, x).len() <= s.len(),
    decreases s.len(),
{
    if s.len() > 0 {
        lemma_without_contains(s.drop_last(), x);
        let w = without(s.drop_last(), x);
        assert forall|y: EntityId| #[trigger] without(s, x).contains(y) <==> (s.contains(y) && y != x) by {
            if s.contains(y) && y != x {
                let i = choose|i: int| 0 <= i < s.len() && s[i] == y;
                if i < s.len() - 1 {
                    assert(s.drop_last()[i] == y);
                    assert(w.contains(y));
                    if s.last() != x {
                        let j = choose|j: int| 0 <= j < w.len() && w[j] == y;
                        assert(w.push(s.last())[j] == y);
                    }
                } else {
                    assert(w.push(s.last())[w.len() as int] == y);
                }
            }
            if without(s, x).contains(y) {
                let j = choose|j: int| 0 <= j < without(s, x).len() && without(s, x)[j] == y;
                if s.last() != x && j == w.len() {
                    assert(s[s.len() - 1] == y);
                } else {
                    assert(w[j] == y);
                    assert(w.contains(y));
                    let i = choose|i: int| 0 <= i < s.drop_last().len() && s.drop_last()[i] == y;
                    assert(s[i] == y);
                }
            }
        }
    }
}

pub proof fn lemma_without_no_duplicates(s: Seq<EntityId>, x: EntityId)
    requires
        s.no_duplicates(),
    ensures
        without(s, x).no_duplicates(),
    decreases s.len(),
{
    if s.len() > 0 {
        let t = s.drop_last();
        assert(t.no_duplicates()) by {
            assert forall|a: int, b: int| 0 <= a < t.len() && 0 <= b < t.len() && a != b implies t[a] != t[b] by {
                assert(t[a] == s[a] && t[b] == s[b]);
            }
        }
        lemma_without_no_duplicates(t, x);
        lemma_without_contains(t, x);
        let w = without(t, x);
        if s.last() != x {
            assert(!w.contains(s.last())) by {
                if t.contains(s.last()) {
                    let i = choose|i: int| 0 <= i < t.len() && t[i] == s.last();
                    assert(s[i] == s[s.len() - 1]);
                }
            }
            assert forall|a: int, b: int|
                0 <= a < w.push(s.last()).len() && 0 <= b < w.push(s.last()).len() && a != b implies w.push(
                s.last(),
            )[a] != w.push(s.last())[b] by {
                if a == w.len() {
                    assert(w.contains(w.push(s.last())[b]));
                } else if b == w.len() {
                    assert(w.contains(w.push(s.last())[a]));
                }
            }
        }
    }
}

pub proof fn lemma_without_absent(s: Seq<EntityId>, x: EntityId)
    requires
        !s.contains(x),
    ensures
        without(s, x) == s,
    decreases s.len(),
{
    if s.len() > 0 {
        assert(!s.drop_last().contains(x)) by {
            if s.drop_last().contains(x) {
                let i = choose|i: int| 0 <= i < s.drop_last().len() && s.drop_last()[i] == x;
                assert(s[i] == x);
            }
        }
        lemma_without_absent(s.drop_last(), x);
        assert(s.drop_last().push(s.last()) =~= s);
    }
}

/// Removing the first element of a list without duplicates leaves the rest.
pub proof fn lemma_without_first(s: Seq<EntityId>)
    requires
        s.no_duplicates(),
        s.len() > 0,
    ensures
        without(s, s[0]) == s.skip(1),
    decreases s.len(),
{
    if s.len() == 1 {
        assert(without(s.drop_last(), s[0]) == Seq::<EntityId>::empty());
        assert(s.skip(1) =~= Seq::<EntityId>::empty());
    } else {
        let t = s.drop_last();
        assert(t.no_duplicates()) by {
            assert forall|a: int, b: int| 0 <= a < t.len() && 0 <= b < t.len() && a != b implies t[a] != t[b] by {
                assert(t[a] == s[a] && t[b] == s[b]);
            }
        }
        lemma_without_first(t);
        assert(t[0] == s[0]);
        assert(s.last() != s[0]);
        assert(t.skip(1).push(s.last()) =~= s.skip(1));
    }
}

} // verus!

verus! {

/// `s` without every element of `r`.
pub open spec fn minus(s: Seq<EntityId>, r: Seq<EntityId>) -> Seq<EntityId>
    decreases r.len(),
{
    if r.len() == 0 {
        s
    } else {
        without(minus(s, r.drop_last()), r.last())
    }
}

pub proof fn lemma_minus_contains(s: Seq<EntityId>, r: Seq<EntityId>)
    ensures
        forall|y: EntityId| #[trigger] minus(s, r).contains(y) <==> (s.contains(y) && !r.contains(y)),
    decreases r.len(),
{
    if r.len() > 0 {
        lemma_minus_contains(s, r.drop_last());
        lemma_without_contains(minus(s, r.drop_last()), r.last());
        assert forall|y: EntityId| #[trigger] minus(s, r).contains(y) <==> (s.contains(y) && !r.contains(y)) by {
            if r.contains(y) && y != r.last() {
                let k = choose|k: int| 0 <= k < r.len() && r[k] == y;
                assert(r.drop_last()[k] == y);
            }
            if r.drop_last().contains(y) {
                let k = choose|k: int| 0 <= k < r.drop_last().len() && r.drop_last()[k] == y;
                assert(r[k] == y);
            }
            if y == r.last() {
                assert(r[r.len() - 1] == y);
            }
        }
    }
}

pub proof fn lemma_minus_no_duplicates(s: Seq<EntityId>, r: Seq<EntityId>)
    requires
        s.no_duplicates(),
    ensures
        minus(s, r).no_duplicates(),
    decreases r.len(),
{
    if r.len() > 0 {
        lemma_minus_no_duplicates(s, r.drop_last());
        lemma_without_no_duplicates(minus(s, r.drop_last()), r.last());
    }
}

pub proof fn lemma_minus_empty(r: Seq<EntityId>)
    ensures
        minus(Seq::empty(), r) == Seq::<EntityId>::empty(),
    decreases r.len(),
{
    if r.len() > 0 {
        lemma_minus_empty(r.drop_last());
    }
}

/// A sequence that contains nothing is empty.
pub proof fn lemma_nothing_contained(s: Seq<EntityId>)
    requires
        forall|y: EntityId| !s.contains(y),
    ensures
        s == Seq::<EntityId>::empty(),
{
    if s.len() > 0 {
        assert(s.contains(s[0]));
    }
    assert(s =~= Seq::<EntityId>::empty());
}

} // verus!
