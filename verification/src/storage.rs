//! Handle-keyed storage.
//!
//! Resource storages map stable `u64` handles to live resources. The storage
//! is an association list with unique keys; its mathematical view is the map
//! from handle to stored value.

use vstd::prelude::*;

verus! {

/// Storage of values keyed by resource handle. Keys are unique.
pub struct Storage<T> {
    pub entries: Vec<(u64, T)>,
}

/// No handle occurs twice.
pub open spec fn entries_unique<T>(s: Seq<(u64, T)>) -> bool {
    forall|i: int, j: int| 0 <= i < j < s.len() ==> s[i].0 != s[j].0
}

/// The map that an association list denotes; later entries win (irrelevant
/// once keys are unique).
pub open spec fn entries_map<T>(s: Seq<(u64, T)>) -> Map<u64, T>
    decreases s.len(),
{
    if s.len() == 0 {
        Map::empty()
    } else {
        entries_map(s.drop_last()).insert(s.last().0, s.last().1)
    }
}

pub proof fn lemma_entries_map_contains<T>(s: Seq<(u64, T)>, id: u64)
    ensures
        entries_map(s).contains_key(id) <==> exists|k: int| 0 <= k < s.len() && s[k].0 == id,
    decreases s.len(),
{
    if s.len() > 0 {
        lemma_entries_map_contains(s.drop_last(), id);
        if s.last().0 == id {
            assert(s[s.len() - 1].0 == id);
        } else if entries_map(s).contains_key(id) {
            let k = choose|k: int| 0 <= k < s.drop_last().len() && s.drop_last()[k].0 == id;
            assert(s[k].0 == id);
        } else if exists|k: int| 0 <= k < s.len() && s[k].0 == id {
            let k = choose|k: int| 0 <= k < s.len() && s[k].0 == id;
            assert(s.drop_last()[k].0 == id);
        }
    }
}

pub proof fn lemma_entries_map_index<T>(s: Seq<(u64, T)>, i: int)
    requires
        entries_unique(s),
        0 <= i < s.len(),
    ensures
        entries_map(s).contains_key(s[i].0),
        entries_map(s)[s[i].0] == s[i].1,
    decreases s.len(),
{
    if i < s.len() - 1 {
        lemma_entries_map_index(s.drop_last(), i);
    }
}

pub proof fn lemma_entries_map_update<T>(s: Seq<(u64, T)>, i: int, v: T)
    requires
        entries_unique(s),
        0 <= i < s.len(),
    ensures
        entries_unique(s.update(i, (s[i].0, v))),
        entries_map(s.update(i, (s[i].0, v))) == entries_map(s).insert(s[i].0, v),
    decreases s.len(),
{
    let t = s.update(i, (s[i].0, v));
    if i == s.len() - 1 {
        assert(t.drop_last() =~= s.drop_last());
        assert(entries_map(t) =~= entries_map(s).insert(s[i].0, v));
    } else {
        lemma_entries_map_update(s.drop_last(), i, v);
        assert(t.drop_last() =~= s.drop_last().update(i, (s[i].0, v)));
        assert(entries_map(t) =~= entries_map(s).insert(s[i].0, v));
    }
}

pub proof fn lemma_entries_map_push<T>(s: Seq<(u64, T)>, id: u64, v: T)
    ensures
        entries_map(s.push((id, v))) == entries_map(s).insert(id, v),
{
    assert(s.push((id, v)).drop_last() =~= s);
}

pub proof fn lemma_entries_map_remove<T>(s: Seq<(u64, T)>, i: int)
    requires
        entries_unique(s),
        0 <= i < s.len(),
    ensures
        entries_unique(s.remove(i)),
        entries_map(s.remove(i)) == entries_map(s).remove(s[i].0),
    decreases s.len(),
{
    let t = s.remove(i);
    if i == s.len() - 1 {
        assert(t =~= s.drop_last());
        lemma_entries_map_contains(s.drop_last(), s[i].0);
        assert(entries_map(t) =~= entries_map(s).remove(s[i].0));
    } else {
        lemma_entries_map_remove(s.drop_last(), i);
        assert(t.drop_last() =~= s.drop_last().remove(i));
        assert(t.last() == s.last());
        assert(entries_map(t) =~= entries_map(s).remove(s[i].0));
    }
}

impl<T> View for Storage<T> {
    type V = Map<u64, T>;

    open spec fn view(&self) -> Map<u64, T> {
        entries_map(self.entries@)
    }
}

impl<T> Storage<T> {
    /// Keys are unique; every storage the library hands out satisfies this.
    pub open spec fn wf(self) -> bool {
        entries_unique(self.entries@)
    }

    pub fn new() -> (r: Storage<T>)
        ensures
            r.wf(),
            r@ == Map::<u64, T>::empty(),
    {
        Storage { entries: Vec::new() }
    }

    /// Index of the entry holding `id`, if any.
    fn find(&self, id: u64) -> (r: Option<usize>)
        ensures
            match r {
                Some(i) => i < self.entries@.len() && self.entries@[i as int].0 == id,
                None => forall|k: int| 0 <= k < self.entries@.len() ==> self.entries@[k].0 != id,
            },
    {
        let mut i: usize = 0;
        while i < self.entries.len()
            invariant
                i <= self.entries@.len(),
                forall|k: int| 0 <= k < i ==> self.entries@[k].0 != id,
            decreases self.entries@.len() - i,
        {
            if self.entries[i].0 == id {
                return Some(i);
            }
            i = i + 1;
        }
        None
    }

    pub fn contains(&self, id: u64) -> (r: bool)
        ensures
            r == self@.contains_key(id),
    {
        proof {
            lemma_entries_map_contains(self.entries@, id);
        }
        self.find(id).is_some()
    }

    pub fn get(&self, id: u64) -> (r: Option<&T>)
        requires
            self.wf(),
        ensures
            match r {
                Some(v) => self@.contains_key(id) && *v == self@[id],
                None => !self@.contains_key(id),
            },
    {
        proof {
            lemma_entries_map_contains(self.entries@, id);
        }
        match self.find(id) {
            Some(i) => {
                proof {
                    lemma_entries_map_index(self.entries@, i as int);
                }
                Some(&self.entries[i].1)
            }
            None => None,
        }
    }

    pub fn get_mut(&mut self, id: u64) -> (r: &mut T)
        requires
            old(self).wf(),
            old(self)@.contains_key(id),
        ensures
            *r == old(self)@[id],
            final(self)@ == old(self)@.insert(id, *final(r)),
            final(self).wf(),
            final(self)@.dom() == old(self)@.dom(),
    {
        proof {
            lemma_entries_map_contains(self.entries@, id);
        }
        let i = self.find(id).unwrap();
        proof {
            lemma_entries_map_index(self.entries@, i as int);
        }
        let r = &mut self.entries[i].1;
        proof {
            lemma_entries_map_update(old(self).entries@, i as int, *final(r));
            assert(old(self)@.insert(id, *final(r)).dom() =~= old(self)@.dom());
        }
        r
    }

    pub fn insert(&mut self, id: u64, v: T)
        requires
            old(self).wf(),
            !old(self)@.contains_key(id),
        ensures
            final(self).wf(),
            final(self)@ == old(self)@.insert(id, v),
    {
        proof {
            lemma_entries_map_contains(self.entries@, id);
            lemma_entries_map_push(self.entries@, id, v);
        }
        self.entries.push((id, v));
    }

    pub fn remove(&mut self, id: u64) -> (r: T)
        requires
            old(self).wf(),
            old(self)@.contains_key(id),
        ensures
            final(self).wf(),
            final(self)@ == old(self)@.remove(id),
            r == old(self)@[id],
    {
        proof {
            lemma_entries_map_contains(self.entries@, id);
        }
        let i = self.find(id).unwrap();
        proof {
            lemma_entries_map_index(self.entries@, i as int);
            lemma_entries_map_remove(self.entries@, i as int);
        }
        self.entries.remove(i).1
    }

    /// All stored handles, in storage order.
    pub fn keys(&self) -> (r: Vec<u64>)
        requires
            self.wf(),
        ensures
            r@.len() == self.entries@.len(),
            forall|i: int| 0 <= i < r@.len() ==> r@[i] == self.entries@[i].0,
            forall|i: int| 0 <= i < r@.len() ==> self@.contains_key(r@[i]),
            forall|id: u64| self@.contains_key(id) ==> r@.contains(id),
            forall|i: int, j: int| 0 <= i < j < r@.len() ==> r@[i] != r@[j],
    {
        let mut r: Vec<u64> = Vec::new();
        let mut i: usize = 0;
        while i < self.entries.len()
            invariant
                i <= self.entries@.len(),
                r@.len() == i,
                forall|k: int| 0 <= k < i ==> r@[k] == self.entries@[k].0,
            decreases self.entries@.len() - i,
        {
            r.push(self.entries[i].0);
            i = i + 1;
        }
        proof {
            assert forall|k: int| 0 <= k < r@.len() implies self@.contains_key(r@[k]) by {
                lemma_entries_map_index(self.entries@, k);
            }
            assert forall|id: u64| self@.contains_key(id) implies r@.contains(id) by {
                lemma_entries_map_contains(self.entries@, id);
                let k = choose|k: int| 0 <= k < self.entries@.len() && self.entries@[k].0 == id;
                assert(r@[k] == id);
            }
        }
        r
    }
}

} // verus!
