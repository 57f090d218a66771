//! Finite maps held as lists of distinct keys with their values.

use vstd::prelude::*;
use crate::path::PyPath;

verus! {

/// Keys that can be compared and copied by their views.
pub trait KeyEq: View + Sized {
    /// Whether two keys are the same.
    fn key_eq(&self, other: &Self) -> (b: bool)
        ensures
            b == (self@ == other@),
    ;

    /// A copy of this key.
    fn key_clone(&self) -> (r: Self)
        ensures
            r@ == self@,
    ;
}

impl KeyEq for String {
    fn key_eq(&self, other: &Self) -> (b: bool) {
        self.eq(other)
    }

    fn key_clone(&self) -> (r: Self) {
        self.clone()
    }
}

impl KeyEq for (String, String) {
    fn key_eq(&self, other: &Self) -> (b: bool) {
        self.0.eq(&other.0) && self.1.eq(&other.1)
    }

    fn key_clone(&self) -> (r: Self) {
        (self.0.clone(), self.1.clone())
    }
}

impl KeyEq for PyPath {
    fn key_eq(&self, other: &Self) -> (b: bool) {
        self.same(other)
    }

    fn key_clone(&self) -> (r: Self) {
        self.duplicate()
    }
}

/// The map that a list of entries stands for; a later entry wins.
pub open spec fn map_of<K: View, V>(entries: Seq<(K, V)>) -> Map<K::V, V>
    decreases entries.len(),
{
    if entries.len() == 0 {
        Map::empty()
    } else {
        map_of(entries.drop_last()).insert(entries.last().0@, entries.last().1)
    }
}

/// No two entries have the same key.
pub open spec fn keys_distinct<K: View, V>(entries: Seq<(K, V)>) -> bool {
    forall|i: int, j: int|
        0 <= i < entries.len() && 0 <= j < entries.len() && i != j ==> entries[i].0@
            != entries[j].0@
}

pub proof fn lemma_map_of<K: View, V>(entries: Seq<(K, V)>)
    requires
        keys_distinct(entries),
    ensures
        forall|k: K::V|
            map_of(entries).dom().contains(k) <==> exists|i: int|
                0 <= i < entries.len() && entries[i].0@ == k,
        forall|i: int|
            0 <= i < entries.len() ==> map_of(entries)[#[trigger] entries[i].0@] == entries[i].1,
        map_of(entries).dom().finite(),
        map_of(entries).dom().len() == entries.len(),
    decreases entries.len(),
{
    if entries.len() > 0 {
        let rest = entries.drop_last();
        assert(keys_distinct(rest));
        lemma_map_of(rest);
        let last = entries.last();
        assert forall|k: K::V|
            map_of(entries).dom().contains(k) <==> exists|i: int|
                0 <= i < entries.len() && entries[i].0@ == k by {
            if map_of(entries).dom().contains(k) {
                if k == last.0@ {
                    assert(entries[entries.len() - 1].0@ == k);
                } else {
                    let i = choose|i: int| 0 <= i < rest.len() && rest[i].0@ == k;
                    assert(entries[i].0@ == k);
                }
            }
            if exists|i: int| 0 <= i < entries.len() && entries[i].0@ == k {
                let i = choose|i: int| 0 <= i < entries.len() && entries[i].0@ == k;
                if i < entries.len() - 1 {
                    assert(rest[i].0@ == k);
                }
            }
        }
        assert forall|i: int| 0 <= i < entries.len() implies map_of(entries)[#[trigger] entries[i].0@]
            == entries[i].1 by {
            if i < entries.len() - 1 {
                assert(rest[i] == entries[i]);
                assert(entries[i].0@ != last.0@);
            }
        }
        assert(!map_of(rest).dom().contains(last.0@)) by {
            if map_of(rest).dom().contains(last.0@) {
                let i = choose|i: int| 0 <= i < rest.len() && rest[i].0@ == last.0@;
                assert(entries[i].0@ == entries[entries.len() - 1].0@);
            }
        }
    }
}

pub proof fn lemma_update_entry<K: View, V>(entries: Seq<(K, V)>, i: int, e: (K, V))
    requires
        keys_distinct(entries),
        0 <= i < entries.len(),
        e.0@ == entries[i].0@,
    ensures
        keys_distinct(entries.update(i, e)),
        map_of(entries.update(i, e)) == map_of(entries).insert(e.0@, e.1),
{
    let u = entries.update(i, e);
    let kv = e.0@;
    let v = e.1;
    assert(keys_distinct(u));
    lemma_map_of(u);
    lemma_map_of(entries);
    assert(map_of(u) =~= map_of(entries).insert(kv, v)) by {
        assert forall|x: K::V| map_of(u).dom().contains(x) implies map_of(entries).insert(
            kv,
            v,
        ).dom().contains(x) by {
            let j = choose|j: int| 0 <= j < u.len() && u[j].0@ == x;
            if j != i {
                assert(entries[j] == u[j]);
            }
        }
        assert forall|x: K::V| map_of(entries).insert(kv, v).dom().contains(x) implies map_of(
            u,
        ).dom().contains(x) by {
            if x != kv {
                let j = choose|j: int| 0 <= j < entries.len() && entries[j].0@ == x;
                assert(u[j] == entries[j]);
            } else {
                assert(u[i].0@ == x);
            }
        }
        assert forall|x: K::V| #[trigger]
            map_of(u).dom().contains(x) implies map_of(u)[x] == map_of(entries).insert(kv, v)[x] by {
            let j = choose|j: int| 0 <= j < u.len() && u[j].0@ == x;
            assert(map_of(u)[u[j].0@] == u[j].1);
            if j != i {
                assert(entries[j] == u[j]);
                assert(map_of(entries)[entries[j].0@] == entries[j].1);
            }
        }
    }
}

/// A finite map whose entries keep the order in which their keys were first inserted.
#[derive(Debug)]
pub struct AssocMap<K, V> {
    entries: Vec<(K, V)>,
}

impl<K: View, V> View for AssocMap<K, V> {
    type V = Map<K::V, V>;

    closed spec fn view(&self) -> Map<K::V, V> {
        map_of(self.entries@)
    }
}

impl<K: KeyEq, V> AssocMap<K, V> {
    /// The map holds no key twice.
    pub closed spec fn wf(&self) -> bool {
        keys_distinct(self.entries@)
    }

    /// The keys, in the order of their first insertion.
    pub closed spec fn key_list(&self) -> Seq<K::V> {
        self.entries@.map_values(|e: (K, V)| e.0@)
    }

    /// What the key list says of the map.
    pub proof fn lemma_keys(&self)
        requires
            self.wf(),
        ensures
            self.key_list().no_duplicates(),
            self@.dom().finite(),
            self@.dom().len() == self.key_list().len(),
            forall|k: K::V| self@.dom().contains(k) <==> self.key_list().contains(k),
    {
        lemma_map_of(self.entries@);
        assert forall|k: K::V| self@.dom().contains(k) <==> self.key_list().contains(k) by {
            if self@.dom().contains(k) {
                let i = choose|i: int| 0 <= i < self.entries@.len() && self.entries@[i].0@ == k;
                assert(self.key_list()[i] == k);
            }
            if self.key_list().contains(k) {
                let i = choose|i: int| 0 <= i < self.key_list().len() && self.key_list()[i] == k;
                assert(self.entries@[i].0@ == k);
            }
        }
    }

    /// The empty map.
    pub fn new() -> (m: Self)
        ensures
            m.wf(),
            m@ == Map::<K::V, V>::empty(),
            m.key_list() == Seq::<K::V>::empty(),
    {
        let m = AssocMap { entries: Vec::new() };
        assert(m.key_list() =~= Seq::<K::V>::empty());
        m
    }

    /// Number of entries.
    pub fn len(&self) -> (n: usize)
        ensures
            n == self.key_list().len(),
    {
        self.entries.len()
    }

    /// Position of the entry for `k`.
    fn find(&self, k: &K) -> (r: Option<usize>)
        ensures
            match r {
                Some(i) => i < self.entries@.len() && self.entries@[i as int].0@ == k@,
                None => forall|i: int| 0 <= i < self.entries@.len() ==> self.entries@[i].0@ != k@,
            },
    {
        let n = self.entries.len();
        let mut i: usize = 0;
        while i < n
            invariant
                n == self.entries@.len(),
                i <= n,
                forall|j: int| 0 <= j < i ==> self.entries@[j].0@ != k@,
            decreases n - i,
        {
            if self.entries[i].0.key_eq(k) {
                return Some(i);
            }
            i = i + 1;
        }
        None
    }

    /// The value stored for `k`.
    pub fn get(&self, k: &K) -> (r: Option<&V>)
        requires
            self.wf(),
        ensures
            match r {
                Some(v) => self@.dom().contains(k@) && self@[k@] == *v,
                None => !self@.dom().contains(k@),
            },
    {
        proof {
            lemma_map_of(self.entries@);
        }
        match self.find(k) {
            Some(i) => Some(&self.entries[i].1),
            None => None,
        }
    }

    /// Whether `k` has a value.
    pub fn contains_key(&self, k: &K) -> (b: bool)
        requires
            self.wf(),
        ensures
            b == self@.dom().contains(k@),
    {
        proof {
            lemma_map_of(self.entries@);
        }
        self.find(k).is_some()
    }

    /// Stores `v` for `k`, replacing any earlier value.
    pub fn insert(&mut self, k: K, v: V)
        requires
            old(self).wf(),
        ensures
            final(self).wf(),
            final(self)@ == old(self)@.insert(k@, v),
            old(self)@.dom().contains(k@) ==> final(self).key_list() == old(self).key_list(),
            !old(self)@.dom().contains(k@) ==> final(self).key_list() == old(
                self,
            ).key_list().push(k@),
    {
        proof {
            lemma_map_of(self.entries@);
        }
        match self.find(&k) {
            Some(i) => {
                let ghost old_entries = self.entries@;
                self.entries.set(i, (k, v));
                proof {
                    lemma_update_entry(old_entries, i as int, self.entries@[i as int]);
                    assert(self.entries@ == old_entries.update(i as int, self.entries@[i as int]));
                    assert(self.key_list() =~= old(self).key_list());
                }
            },
            None => {
                let ghost kv = k@;
                self.entries.push((k, v));
                proof {
                    assert(self.entries@.drop_last() =~= old(self).entries@);
                    assert(keys_distinct(self.entries@));
                    assert(self.key_list() =~= old(self).key_list().push(kv));
                }
            },
        }
    }

    /// Position of the entry for `k` in the key list.
    pub fn index_of(&self, k: &K) -> (r: Option<usize>)
        requires
            self.wf(),
        ensures
            match r {
                Some(i) => i < self.key_list().len() && self.key_list()[i as int] == k@,
                None => !self@.dom().contains(k@),
            },
    {
        proof {
            lemma_map_of(self.entries@);
        }
        self.find(k)
    }

    /// The value of the `i`-th entry, to be changed in place.
    pub fn value_mut(&mut self, i: usize) -> (v: &mut V)
        requires
            old(self).wf(),
            i < old(self).key_list().len(),
        ensures
            *v == old(self)@[old(self).key_list()[i as int]],
            final(self).wf(),
            final(self).key_list() == old(self).key_list(),
            final(self)@ == old(self)@.insert(old(self).key_list()[i as int], *final(v)),
    {
        proof {
            lemma_map_of(self.entries@);
            assert(self.entries@[i as int].0@ == self.key_list()[i as int]);
        }
        let ghost old_entries = self.entries@;
        let r = &mut self.entries[i].1;
        proof {
            lemma_update_entry(old_entries, i as int, (old_entries[i as int].0, *final(r)));
        }
        r
    }

    /// The key and value of the `i`-th entry.
    pub fn entry_at(&self, i: usize) -> (r: (&K, &V))
        requires
            self.wf(),
            i < self.key_list().len(),
        ensures
            r.0@ == self.key_list()[i as int],
            self@.dom().contains(r.0@),
            self@[r.0@] == *r.1,
    {
        proof {
            lemma_map_of(self.entries@);
        }
        let e = &self.entries[i];
        (&e.0, &e.1)
    }
}

} // verus!
