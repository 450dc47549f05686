//! Sets of events, and maps keyed by events.
use vstd::prelude::*;

use crate::execution::EventKey;

verus! {

/// A set of events, each held once.
#[derive(Debug)]
pub struct EventSet {
    items: Vec<EventKey>,
}

/// No event occurs twice in `s`.
pub open spec fn no_dups(s: Seq<EventKey>) -> bool {
    forall|i: int, j: int| 0 <= i < j < s.len() ==> s[i] != s[j]
}

/// The events of the first `i + 1` items of `s` are those of the first `i`,
/// and the next one.
pub proof fn lemma_take_one_more(s: Seq<EventKey>, i: int)
    requires
        0 <= i < s.len(),
    ensures
        s.take(i + 1) == s.take(i).push(s[i]),
        s.take(i + 1).to_set() == s.take(i).to_set().insert(s[i]),
{
    let pre = s.take(i);
    let next = s.take(i + 1);
    assert(next =~= pre.push(s[i]));
    assert forall|x: EventKey| next.to_set().contains(x) == pre.to_set().insert(s[i]).contains(x) by {
        if pre.contains(x) {
            let j = choose|j: int| 0 <= j < i && #[trigger] pre[j] == x;
            assert(next[j] == x);
        }
        if x == s[i] {
            assert(next[i] == x);
        }
        if next.contains(x) && x != s[i] {
            let j = choose|j: int| 0 <= j <= i && #[trigger] next[j] == x;
            assert(pre[j] == x);
        }
    }
    assert(next.to_set() =~= pre.to_set().insert(s[i]));
}

impl EventSet {
    /// The events of the set.
    pub closed spec fn set(&self) -> Set<EventKey> {
        self.items@.to_set()
    }

    /// The events of the set, in the order in which they are walked.
    pub closed spec fn seq(&self) -> Seq<EventKey> {
        self.items@
    }

    pub closed spec fn wf(&self) -> bool {
        no_dups(self.items@)
    }

    pub proof fn lemma_seq(&self)
        requires
            self.wf(),
        ensures
            no_dups(self.seq()),
            self.seq().to_set() == self.set(),
            self.seq().len() == self.set().len(),
            self.set().finite(),
    {
        self.items@.unique_seq_to_set();
    }

    pub fn new() -> (r: Self)
        ensures
            r.wf(),
            r.set() == Set::<EventKey>::empty(),
            r.seq() == Seq::<EventKey>::empty(),
    {
        let r = EventSet { items: Vec::new() };
        assert(r.set() =~= Set::<EventKey>::empty());
        r
    }

    pub fn len(&self) -> (r: usize)
        ensures
            r == self.seq().len(),
    {
        self.items.len()
    }

    /// The `i`-th event of the walk.
    pub fn at(&self, i: usize) -> (r: EventKey)
        requires
            i < self.seq().len(),
        ensures
            r == self.seq()[i as int],
    {
        self.items[i]
    }

    fn index_of(&self, k: EventKey) -> (r: Option<usize>)
        ensures
            match r {
                Some(i) => i < self.items@.len() && self.items@[i as int] == k,
                None => !self.items@.contains(k),
            },
    {
        let mut i: usize = 0;
        while i < self.items.len()
            invariant
                i <= self.items@.len(),
                forall|j: int| 0 <= j < i ==> self.items@[j] != k,
            decreases self.items@.len() - i,
        {
            if self.items[i] == k {
                return Some(i);
            }
            i = i + 1;
        }
        None
    }

    pub fn contains(&self, k: EventKey) -> (r: bool)
        ensures
            r == self.set().contains(k),
    {
        match self.index_of(k) {
            Some(_) => true,
            None => false,
        }
    }

    /// Adds `k`; returns whether it was not in the set.
    pub fn insert(&mut self, k: EventKey) -> (r: bool)
        requires
            old(self).wf(),
        ensures
            final(self).wf(),
            r == !old(self).set().contains(k),
            final(self).set() == old(self).set().insert(k),
    {
        match self.index_of(k) {
            Some(_) => false,
            None => {
                let ghost before = self.items@;
                self.items.push(k);
                assert(self.items@.to_set() =~= before.to_set().insert(k)) by {
                    assert forall|x: EventKey| self.items@.contains(x) <==> before.contains(x) || x == k by {
                        if before.contains(x) {
                            let j = choose|j: int| 0 <= j < before.len() && before[j] == x;
                            assert(self.items@[j] == x);
                        }
                        if x == k {
                            assert(self.items@[before.len() as int] == x);
                        }
                    }
                }
                true
            },
        }
    }

    /// Removes `k`; returns whether it was in the set.
    pub fn remove(&mut self, k: EventKey) -> (r: bool)
        requires
            old(self).wf(),
        ensures
            final(self).wf(),
            r == old(self).set().contains(k),
            final(self).set() == old(self).set().remove(k),
    {
        match self.index_of(k) {
            None => {
                assert(self.items@.to_set() =~= self.items@.to_set().remove(k));
                false
            },
            Some(i) => {
                let ghost before = self.items@;
                self.items.remove(i);
                assert(self.items@ == before.remove(i as int));
                assert(self.items@.to_set() =~= before.to_set().remove(k)) by {
                    assert forall|x: EventKey| self.items@.contains(x) <==> before.contains(x) && x != k by {
                        if self.items@.contains(x) {
                            let j = choose|j: int| 0 <= j < self.items@.len() && self.items@[j] == x;
                            if j < i {
                                assert(before[j] == x);
                            } else {
                                assert(before[j + 1] == x);
                            }
                        }
                        if before.contains(x) && x != k {
                            let j = choose|j: int| 0 <= j < before.len() && before[j] == x;
                            if j < i {
                                assert(self.items@[j] == x);
                            } else {
                                assert(j != i);
                                assert(self.items@[j - 1] == x);
                            }
                        }
                    }
                }
                true
            },
        }
    }
}

/// A map keyed by events, each key held once.
#[derive(Debug)]
pub struct EventMap<V> {
    entries: Vec<(EventKey, V)>,
}

impl<V> EventMap<V> {
    pub closed spec fn wf(&self) -> bool {
        forall|i: int, j: int|
            0 <= i < j < self.entries@.len() ==> self.entries@[i].0 != self.entries@[j].0
    }

    pub closed spec fn has(&self, k: EventKey) -> bool {
        exists|i: int| 0 <= i < self.entries@.len() && self.entries@[i].0 == k
    }

    pub closed spec fn index_for(&self, k: EventKey) -> int {
        choose|i: int| 0 <= i < self.entries@.len() && self.entries@[i].0 == k
    }

    /// The map.
    pub closed spec fn map(&self) -> Map<EventKey, V> {
        Map::new(|k: EventKey| self.has(k), |k: EventKey| self.entries@[self.index_for(k)].1)
    }

    /// The keys, in the order in which they are walked.
    pub closed spec fn key_seq(&self) -> Seq<EventKey> {
        self.entries@.map_values(|e: (EventKey, V)| e.0)
    }

    proof fn lemma_index(&self, k: EventKey, i: int)
        requires
            self.wf(),
            0 <= i < self.entries@.len(),
            self.entries@[i].0 == k,
        ensures
            self.map().contains_key(k),
            self.map()[k] == self.entries@[i].1,
    {
        let j = self.index_for(k);
        assert(self.has(k));
        assert(0 <= j < self.entries@.len() && self.entries@[j].0 == k);
        assert(j == i);
    }

    pub proof fn lemma_keys(&self)
        requires
            self.wf(),
        ensures
            no_dups(self.key_seq()),
            self.key_seq().len() == self.map().dom().len(),
            self.key_seq().to_set() == self.map().dom(),
            self.map().dom().finite(),
    {
        let ks = self.key_seq();
        assert(no_dups(ks));
        assert(ks.to_set() =~= self.map().dom()) by {
            assert forall|k: EventKey| ks.contains(k) <==> self.has(k) by {
                if ks.contains(k) {
                    let j = choose|j: int| 0 <= j < ks.len() && ks[j] == k;
                    assert(self.entries@[j].0 == k);
                }
                if self.has(k) {
                    let j = self.index_for(k);
                    assert(ks[j] == k);
                }
            }
        }
        ks.unique_seq_to_set();
    }

    pub fn new() -> (r: Self)
        ensures
            r.wf(),
            r.map() == Map::<EventKey, V>::empty(),
            r.key_seq() == Seq::<EventKey>::empty(),
    {
        let r = EventMap { entries: Vec::new() };
        assert(r.map() =~= Map::<EventKey, V>::empty());
        assert(r.key_seq() =~= Seq::<EventKey>::empty());
        r
    }

    pub fn len(&self) -> (r: usize)
        ensures
            r == self.key_seq().len(),
    {
        self.entries.len()
    }

    /// The `i`-th entry of the walk.
    pub fn entry_at(&self, i: usize) -> (r: (EventKey, &V))
        requires
            self.wf(),
            i < self.key_seq().len(),
        ensures
            r.0 == self.key_seq()[i as int],
            self.map().contains_key(r.0),
            self.map()[r.0] == *r.1,
    {
        proof {
            self.lemma_index(self.entries@[i as int].0, i as int);
        }
        (self.entries[i].0, &self.entries[i].1)
    }

    fn position(&self, k: EventKey) -> (r: Option<usize>)
        requires
            self.wf(),
        ensures
            match r {
                Some(i) => i < self.entries@.len() && self.entries@[i as int].0 == k,
                None => !self.map().contains_key(k),
            },
    {
        let mut i: usize = 0;
        while i < self.entries.len()
            invariant
                i <= self.entries@.len(),
                forall|j: int| 0 <= j < i ==> self.entries@[j].0 != k,
            decreases self.entries@.len() - i,
        {
            if self.entries[i].0 == k {
                return Some(i);
            }
            i = i + 1;
        }
        None
    }

    pub fn get(&self, k: EventKey) -> (r: Option<&V>)
        requires
            self.wf(),
        ensures
            match r {
                Some(v) => self.map().contains_key(k) && self.map()[k] == *v,
                None => !self.map().contains_key(k),
            },
    {
        match self.position(k) {
            Some(i) => {
                proof {
                    self.lemma_index(k, i as int);
                }
                Some(&self.entries[i].1)
            },
            None => None,
        }
    }

    /// Sets the value of `k` to `v`; returns the value it had.
    pub fn insert(&mut self, k: EventKey, v: V) -> (r: Option<V>)
        requires
            old(self).wf(),
        ensures
            final(self).wf(),
            final(self).map() == old(self).map().insert(k, v),
            match r {
                Some(w) => old(self).map().contains_key(k) && old(self).map()[k] == w,
                None => !old(self).map().contains_key(k),
            },
    {
        match self.position(k) {
            Some(i) => {
                proof {
                    self.lemma_index(k, i as int);
                }
                let ghost before = *self;
                let (_, old_v) = self.entries.remove(i);
                self.entries.insert(i, (k, v));
                proof {
                    assert(self.entries@ =~= before.entries@.update(i as int, (k, v)));
                    assert forall|x: EventKey| #![auto] self.has(x) <==> before.has(x) || x == k by {
                        if self.has(x) {
                            let j = self.index_for(x);
                            if j != i {
                                assert(before.entries@[j].0 == x);
                            }
                        }
                        if before.has(x) {
                            let j = before.index_for(x);
                            assert(self.entries@[j].0 == x);
                        }
                        if x == k {
                            assert(self.entries@[i as int].0 == x);
                        }
                    }
                    assert forall|x: EventKey| #![auto] self.has(x) implies self.map()[x] == old(self).map().insert(k, v)[x] by {
                        let j = self.index_for(x);
                        self.lemma_index(x, j);
                        if x != k {
                            assert(before.entries@[j].0 == x);
                            before.lemma_index(x, j);
                        }
                    }
                    assert(self.map() =~= old(self).map().insert(k, v));
                }
                Some(old_v)
            },
            None => {
                let ghost before = *self;
                self.entries.push((k, v));
                proof {
                    let n = before.entries@.len() as int;
                    assert forall|x: EventKey| #![auto] self.has(x) <==> before.has(x) || x == k by {
                        if self.has(x) {
                            let j = self.index_for(x);
                            if j != n {
                                assert(before.entries@[j].0 == x);
                            }
                        }
                        if before.has(x) {
                            let j = before.index_for(x);
                            assert(self.entries@[j].0 == x);
                        }
                        if x == k {
                            assert(self.entries@[n].0 == x);
                        }
                    }
                    assert forall|x: EventKey| #![auto] self.has(x) implies self.map()[x] == old(self).map().insert(k, v)[x] by {
                        let j = self.index_for(x);
                        self.lemma_index(x, j);
                        if x != k {
                            assert(before.entries@[j].0 == x);
                            before.lemma_index(x, j);
                        }
                    }
                    assert(self.map() =~= old(self).map().insert(k, v));
                }
                None
            },
        }
    }

    /// Removes `k`; returns the value it had.
    pub fn remove(&mut self, k: EventKey) -> (r: Option<V>)
        requires
            old(self).wf(),
        ensures
            final(self).wf(),
            final(self).map() == old(self).map().remove(k),
            match r {
                Some(w) => old(self).map().contains_key(k) && old(self).map()[k] == w,
                None => !old(self).map().contains_key(k),
            },
    {
        match self.position(k) {
            None => {
                assert(self.map() =~= old(self).map().remove(k));
                None
            },
            Some(i) => {
                proof {
                    self.lemma_index(k, i as int);
                }
                let ghost before = *self;
                let (_, old_v) = self.entries.remove(i);
                proof {
                    assert(self.entries@ == before.entries@.remove(i as int));
                    assert forall|x: EventKey| #![auto] self.has(x) <==> before.has(x) && x != k by {
                        if self.has(x) {
                            let j = self.index_for(x);
                            if j < i {
                                assert(before.entries@[j].0 == x);
                            } else {
                                assert(before.entries@[j + 1].0 == x);
                            }
                        }
                        if before.has(x) && x != k {
                            let j = before.index_for(x);
                            if j < i {
                                assert(self.entries@[j].0 == x);
                            } else {
                                assert(self.entries@[j - 1].0 == x);
                            }
                        }
                    }
                    assert forall|x: EventKey| #![auto] self.has(x) implies self.map()[x] == old(self).map().remove(k)[x] by {
                        let j = self.index_for(x);
                        self.lemma_index(x, j);
                        if j < i {
                            assert(before.entries@[j].0 == x);
                            before.lemma_index(x, j);
                        } else {
                            assert(before.entries@[j + 1].0 == x);
                            before.lemma_index(x, j + 1);
                        }
                    }
                    assert(self.map() =~= old(self).map().remove(k));
                }
                Some(old_v)
            },
        }
    }
}

/// Adds `item` to the set that `m` maps `key` to (an empty set, when `m`
/// maps `key` to none).
pub fn insert_into(m: &mut EventMap<EventSet>, key: EventKey, item: EventKey)
    requires
        old(m).wf(),
        forall|k: EventKey| #[trigger] old(m).map().contains_key(k) ==> old(m).map()[k].wf(),
    ensures
        final(m).wf(),
        forall|k: EventKey| #[trigger] final(m).map().contains_key(k) ==> final(m).map()[k].wf(),
        final(m).map().dom() == old(m).map().dom().insert(key),
        final(m).map()[key].set() == if old(m).map().contains_key(key) {
            old(m).map()[key].set().insert(item)
        } else {
            Set::<EventKey>::empty().insert(item)
        },
        forall|k: EventKey| k != key && #[trigger] old(m).map().contains_key(k) ==> final(m).map()[k] == old(m).map()[k],
{
    let mut s = match m.remove(key) {
        Some(s) => s,
        None => EventSet::new(),
    };
    s.insert(item);
    m.insert(key, s);
    assert(m.map().dom() =~= old(m).map().dom().insert(key));
}

} // verus!
