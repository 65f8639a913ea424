//! A small verified map from subject keys to values, backed by a vector
//! of entries with unique keys. Its view is a mathematical `Map`.

use vstd::prelude::*;
use crate::subject::Subject;

verus! {

/// Map from [`Subject`] to `V`, with insertion-order entry access (used
/// by the whole-graph decay pass).
pub struct SubjectMap<V> {
    entries: Vec<(Subject, V)>,
}

/// The mathematical map described by a sequence of entries; later entries
/// win, though well-formed maps never repeat a key.
pub open spec fn entries_map<V>(s: Seq<(Subject, V)>) -> Map<Subject, V>
    decreases s.len(),
{
    if s.len() == 0 {
        Map::empty()
    } else {
        entries_map(s.drop_last()).insert(s.last().0, s.last().1)
    }
}

/// Membership in the entry-sequence map is existence of an entry.
proof fn lemma_entries_map_dom<V>(s: Seq<(Subject, V)>, k: Subject)
    ensures
        entries_map(s).dom().contains(k) <==> exists|i: int|
            0 <= i < s.len() && (#[trigger] s[i]).0 == k,
    decreases s.len(),
{
    if s.len() > 0 {
        lemma_entries_map_dom(s.drop_last(), k);
        if s.last().0 == k {
            assert(s[s.len() - 1].0 == k);
        } else if entries_map(s.drop_last()).dom().contains(k) {
            let i = choose|i: int| 0 <= i < s.drop_last().len() && (#[trigger] s.drop_last()[i]).0
                == k;
            assert(s[i].0 == k);
        } else {
            assert forall|i: int| 0 <= i < s.len() && (#[trigger] s[i]).0 == k implies false by {
                if i < s.len() - 1 {
                    assert(s.drop_last()[i].0 == k);
                }
            }
        }
    }
}

/// With unique keys, the entry at any index gives the map's value for
/// its key.
proof fn lemma_entries_map_index<V>(s: Seq<(Subject, V)>, i: int)
    requires
        forall|a: int, b: int| 0 <= a < b < s.len() ==> (#[trigger] s[a]).0 != (#[trigger] s[b]).0,
        0 <= i < s.len(),
    ensures
        entries_map(s).dom().contains(s[i].0),
        entries_map(s)[s[i].0] == s[i].1,
    decreases s.len(),
{
    if i == s.len() - 1 {
    } else {
        assert(s[i].0 != s[s.len() - 1].0);
        lemma_entries_map_index(s.drop_last(), i);
        assert(s.drop_last()[i] == s[i]);
    }
}

impl<V> SubjectMap<V> {
    /// Entries in insertion order.
    pub closed spec fn entries(&self) -> Seq<(Subject, V)> {
        self.entries@
    }

    /// The map the entries describe.
    pub open spec fn view(&self) -> Map<Subject, V> {
        entries_map(self.entries())
    }

    /// Keys are unique.
    pub closed spec fn wf(&self) -> bool {
        forall|a: int, b: int|
            0 <= a < b < self.entries@.len() ==> (#[trigger] self.entries@[a]).0 != (
            #[trigger] self.entries@[b]).0
    }

    /// Every entry describes its key's value in the view.
    pub proof fn lemma_entry_in_view(&self, i: int)
        requires
            self.wf(),
            0 <= i < self.entries().len(),
        ensures
            self@.dom().contains(self.entries()[i].0),
            self@[self.entries()[i].0] == self.entries()[i].1,
    {
        lemma_entries_map_index(self.entries@, i);
    }

    /// Distinct entries hold distinct keys.
    pub proof fn lemma_keys_unique(&self, a: int, b: int)
        requires
            self.wf(),
            0 <= a < b < self.entries().len(),
        ensures
            self.entries()[a].0 != self.entries()[b].0,
    {
    }

    /// A key is in the view exactly when some entry holds it.
    pub proof fn lemma_view_dom(&self, k: Subject)
        ensures
            self@.dom().contains(k) <==> exists|i: int|
                0 <= i < self.entries().len() && (#[trigger] self.entries()[i]).0 == k,
    {
        lemma_entries_map_dom(self.entries@, k);
    }

    /// An empty map.
    pub fn new() -> (r: SubjectMap<V>)
        ensures
            r.wf(),
            r@ == Map::<Subject, V>::empty(),
            r.entries().len() == 0,
    {
        let r = SubjectMap { entries: Vec::new() };
        proof {
            assert(r@ =~= Map::<Subject, V>::empty());
        }
        r
    }

    /// Number of entries.
    pub fn len(&self) -> (r: usize)
        ensures
            r == self.entries().len(),
    {
        self.entries.len()
    }

    /// The key of the entry at `i`.
    pub fn key_at(&self, i: usize) -> (r: Subject)
        requires
            i < self.entries().len(),
        ensures
            r == self.entries()[i as int].0,
    {
        self.entries[i].0
    }

    /// Index of the entry holding `k`, if any.
    fn find(&self, k: &Subject) -> (r: Option<usize>)
        ensures
            match r {
                Some(i) => i < self.entries().len() && self.entries()[i as int].0 == *k,
                None => forall|i: int|
                    0 <= i < self.entries().len() ==> (#[trigger] self.entries()[i]).0 != *k,
            },
    {
        let mut i: usize = 0;
        while i < self.entries.len()
            invariant
                i <= self.entries@.len(),
                forall|j: int| 0 <= j < i ==> (#[trigger] self.entries@[j]).0 != *k,
            decreases self.entries@.len() - i,
        {
            if self.entries[i].0 == *k {
                return Some(i);
            }
            i = i + 1;
        }
        None
    }

    /// Look up the value stored for `k`.
    pub fn get(&self, k: &Subject) -> (r: Option<&V>)
        requires
            self.wf(),
        ensures
            match r {
                Some(v) => self@.dom().contains(*k) && *v == self@[*k],
                None => !self@.dom().contains(*k),
            },
    {
        proof {
            self.lemma_view_dom(*k);
        }
        match self.find(k) {
            Some(i) => {
                proof {
                    self.lemma_entry_in_view(i as int);
                }
                Some(&self.entries[i].1)
            },
            None => None,
        }
    }

    /// Insert or replace the value for `k`. Replacement keeps the entry's
    /// position; a new key is appended.
    pub fn insert(&mut self, k: Subject, v: V)
        requires
            old(self).wf(),
        ensures
            final(self).wf(),
            final(self)@ == old(self)@.insert(k, v),
            old(self)@.dom().contains(k) ==> {
                &&& final(self).entries().len() == old(self).entries().len()
                &&& exists|i: int|
                    0 <= i < old(self).entries().len() && (#[trigger] old(self).entries()[i]).0
                        == k && final(self).entries() == old(self).entries().update(i, (k, v))
            },
            !old(self)@.dom().contains(k) ==> final(self).entries() == old(self).entries().push(
                (k, v)),
    {
        proof {
            self.lemma_view_dom(k);
        }
        match self.find(&k) {
            Some(i) => {
                self.entries.set(i, (k, v));
                proof {
                    lemma_update_entry_view(old(self).entries(), i as int, k, v);
                }
            },
            None => {
                self.entries.push((k, v));
                proof {
                    assert(self.entries@.drop_last() =~= old(self).entries@);
                    assert(self@ =~= old(self)@.insert(k, v));
                }
            },
        }
    }

    /// Remove the entry for `k`, returning its value.
    pub fn remove(&mut self, k: &Subject) -> (r: Option<V>)
        requires
            old(self).wf(),
        ensures
            final(self).wf(),
            final(self)@ == old(self)@.remove(*k),
            match r {
                Some(v) => old(self)@.dom().contains(*k) && v == old(self)@[*k],
                None => !old(self)@.dom().contains(*k) && final(self)@ == old(self)@,
            },
    {
        proof {
            self.lemma_view_dom(*k);
        }
        match self.find(k) {
            Some(i) => {
                proof {
                    self.lemma_entry_in_view(i as int);
                }
                let (_, v) = self.entries.remove(i);
                proof {
                    lemma_remove_entry_view(old(self).entries(), i as int);
                    assert(self.entries@ =~= old(self).entries@.subrange(0, i as int) + old(
                    self).entries@.subrange(i as int + 1, old(self).entries@.len() as int));
                }
                Some(v)
            },
            None => {
                proof {
                    assert(self@ =~= old(self)@.remove(*k));
                }
                None
            },
        }
    }
}

/// Updating an entry in place updates the view at its key, when keys are
/// unique.
proof fn lemma_update_entry_view<V>(s: Seq<(Subject, V)>, i: int, k: Subject, v: V)
    requires
        forall|a: int, b: int| 0 <= a < b < s.len() ==> (#[trigger] s[a]).0 != (#[trigger] s[b]).0,
        0 <= i < s.len(),
        s[i].0 == k,
    ensures
        forall|a: int, b: int|
            0 <= a < b < s.update(i, (k, v)).len() ==> (#[trigger] s.update(i, (k, v))[a]).0 != (
            #[trigger] s.update(i, (k, v))[b]).0,
        entries_map(s.update(i, (k, v))) == entries_map(s).insert(k, v),
    decreases s.len(),
{
    if i == s.len() - 1 {
        assert(s.update(i, (k, v)).drop_last() =~= s.drop_last());
    } else {
        lemma_update_entry_view(s.drop_last(), i, k, v);
        assert(s.update(i, (k, v)).drop_last() =~= s.drop_last().update(i, (k, v)));
        assert(s.update(i, (k, v)).last() == s.last());
        assert(s[i].0 != s[s.len() - 1].0);
        assert(entries_map(s.update(i, (k, v))) == entries_map(s.drop_last()).insert(k, v).insert(
        s.last().0, s.last().1));
        assert(entries_map(s.drop_last()).insert(k, v).insert(s.last().0, s.last().1) =~= entries_map(
        s.drop_last()).insert(s.last().0, s.last().1).insert(k, v));
    }
}

/// Removing an entry removes its key from the view, when keys are unique.
proof fn lemma_remove_entry_view<V>(s: Seq<(Subject, V)>, i: int)
    requires
        forall|a: int, b: int| 0 <= a < b < s.len() ==> (#[trigger] s[a]).0 != (#[trigger] s[b]).0,
        0 <= i < s.len(),
    ensures
        ({
            let t = s.subrange(0, i) + s.subrange(i + 1, s.len() as int);
            &&& forall|a: int, b: int|
                0 <= a < b < t.len() ==> (#[trigger] t[a]).0 != (#[trigger] t[b]).0
            &&& entries_map(t) == entries_map(s).remove(s[i].0)
        }),
    decreases s.len(),
{
    let t = s.subrange(0, i) + s.subrange(i + 1, s.len() as int);
    assert forall|a: int, b: int| 0 <= a < b < t.len() implies (#[trigger] t[a]).0 != (
    #[trigger] t[b]).0 by {
        let a2 = if a < i { a } else { a + 1 };
        let b2 = if b < i { b } else { b + 1 };
        assert(t[a] == s[a2]);
        assert(t[b] == s[b2]);
    }
    if i == s.len() - 1 {
        assert(t =~= s.drop_last());
        lemma_entries_map_dom(s.drop_last(), s[i].0);
        assert forall|j: int| 0 <= j < s.drop_last().len() implies (#[trigger] s.drop_last()[j]).0
            != s[i].0 by {
            assert(s[j].0 != s[s.len() - 1].0);
        }
        assert(entries_map(t) =~= entries_map(s).remove(s[i].0));
    } else {
        lemma_remove_entry_view(s.drop_last(), i);
        let t0 = s.drop_last().subrange(0, i) + s.drop_last().subrange(i + 1, s.drop_last().len() as int);
        assert(t.drop_last() =~= t0);
        assert(t.last() == s.last());
        assert(entries_map(t) == entries_map(t0).insert(s.last().0, s.last().1));
        assert(s[i].0 != s[s.len() - 1].0);
        assert(entries_map(s.drop_last()).remove(s[i].0).insert(s.last().0, s.last().1) =~= entries_map(
        s.drop_last()).insert(s.last().0, s.last().1).remove(s[i].0));
    }
}

} // verus!
