//! An association map from string names to values.
//!
//! Configuration tables are keyed by step, service or recipe names. The map
//! is backed by a vector of entries with pairwise-distinct keys, so its
//! iteration order is the order in which keys were first inserted, and its
//! mathematical model is a `Map<Seq<char>, _>` over the value views.

use vstd::prelude::*;
use vstd::pervasive::VecAdditionalExecFns;

verus! {

/// The map described by a sequence of key/value pairs; a later entry with
/// the same key would win, so with distinct keys each entry is authoritative.
pub open spec fn map_of<T>(s: Seq<(Seq<char>, T)>) -> Map<Seq<char>, T>
    decreases s.len(),
{
    if s.len() == 0 {
        Map::empty()
    } else {
        map_of(s.drop_last()).insert(s.last().0, s.last().1)
    }
}

/// All keys in the sequence are pairwise distinct.
pub open spec fn distinct_keys<T>(s: Seq<(Seq<char>, T)>) -> bool {
    forall|i: int, j: int| 0 <= i < j < s.len() ==> s[i].0 != s[j].0
}

/// A key is in `map_of(s)` exactly when some entry holds it.
pub proof fn lemma_map_of_contains<T>(s: Seq<(Seq<char>, T)>, k: Seq<char>)
    ensures
        map_of(s).contains_key(k) <==> exists|i: int| 0 <= i < s.len() && s[i].0 == k,
    decreases s.len(),
{
    if s.len() == 0 {
    } else {
        lemma_map_of_contains(s.drop_last(), k);
        if s.last().0 == k {
            assert(s[s.len() - 1].0 == k);
        } else if map_of(s).contains_key(k) {
            let i = choose|i: int| 0 <= i < s.drop_last().len() && s.drop_last()[i].0 == k;
            assert(s[i].0 == k);
        } else if exists|i: int| 0 <= i < s.len() && s[i].0 == k {
            let i = choose|i: int| 0 <= i < s.len() && s[i].0 == k;
            assert(s.drop_last()[i].0 == k);
        }
    }
}

/// With distinct keys, each entry gives the value the map holds for its key.
pub proof fn lemma_map_of_index<T>(s: Seq<(Seq<char>, T)>, i: int)
    requires
        distinct_keys(s),
        0 <= i < s.len(),
    ensures
        map_of(s).contains_key(s[i].0),
        map_of(s)[s[i].0] == s[i].1,
    decreases s.len(),
{
    if i == s.len() - 1 {
    } else {
        assert(s.drop_last()[i] == s[i]);
        lemma_map_of_index(s.drop_last(), i);
        assert(s[i].0 != s.last().0);
    }
}

/// With distinct keys, the first entry may equally be inserted last.
pub proof fn lemma_map_of_drop_first<T>(s: Seq<(Seq<char>, T)>)
    requires
        distinct_keys(s),
        s.len() > 0,
    ensures
        map_of(s) == map_of(s.drop_first()).insert(s[0].0, s[0].1),
    decreases s.len(),
{
    if s.len() == 1 {
        assert(s.drop_first() =~= Seq::<(Seq<char>, T)>::empty());
        assert(s.drop_last() =~= Seq::<(Seq<char>, T)>::empty());
        assert(map_of(s.drop_last()) =~= Map::<Seq<char>, T>::empty());
        assert(map_of(s.drop_first()) =~= Map::<Seq<char>, T>::empty());
        assert(s.last() == s[0]);
        assert(map_of(s) =~= map_of(s.drop_first()).insert(s[0].0, s[0].1));
    } else {
        let dl = s.drop_last();
        assert(distinct_keys(dl)) by {
            assert(forall|i: int| 0 <= i < dl.len() ==> dl[i] == s[i]);
        }
        lemma_map_of_drop_first(dl);
        assert(dl.drop_first() =~= s.drop_first().drop_last());
        assert(dl[0] == s[0]);
        assert(s.drop_first().last() == s.last());
        assert(s[0].0 != s.last().0);
        assert(s.drop_first().len() > 0);
        assert(map_of(s.drop_first()) == map_of(s.drop_first().drop_last()).insert(
            s.drop_first().last().0,
            s.drop_first().last().1,
        ));
        assert(map_of(s) == map_of(dl).insert(s.last().0, s.last().1));
        assert(map_of(dl) == map_of(dl.drop_first()).insert(s[0].0, s[0].1));
        assert(map_of(dl.drop_first()) == map_of(s.drop_first().drop_last()));
        assert(map_of(s) =~= map_of(s.drop_first()).insert(s[0].0, s[0].1));
    }
}

/// An association map from string keys to values, with distinct keys and a
/// deterministic iteration order (first-insertion order).
pub struct StringMap<V> {
    entries: Vec<(String, V)>,
}

impl<V> StringMap<V> {
    /// Keys are pairwise distinct; the interface maintains this for every
    /// map it ever builds, so no caller has to state it. `use_type_invariant`
    /// recovers this fact for any map value.
    #[verifier::type_invariant]
    pub closed spec fn wf(&self) -> bool {
        forall|i: int, j: int|
            0 <= i < j < self.entries@.len() ==> self.entries@[i].0@ != self.entries@[j].0@
    }
}

impl<V: View> StringMap<V> {
    /// The entries as (key view, value view) pairs, in iteration order.
    pub closed spec fn kv_seq(&self) -> Seq<(Seq<char>, V::V)> {
        self.entries@.map_values(|e: (String, V)| (e.0@, e.1@))
    }

    /// The well-formedness every map carries means its entry keys are
    /// pairwise distinct.
    pub proof fn kv_distinct(&self)
        requires
            self.wf(),
        ensures
            distinct_keys(self.kv_seq()),
    {
    }

    /// Number of entries.
    pub open spec fn spec_len(&self) -> nat {
        self.kv_seq().len()
    }

    pub fn new() -> (r: Self)
        ensures
            r@ =~= Map::<Seq<char>, V::V>::empty(),
            r.spec_len() == 0,
    {
        StringMap { entries: Vec::new() }
    }

    pub fn len(&self) -> (n: usize)
        ensures
            n == self.spec_len(),
    {
        self.entries.len()
    }

    /// The key of the entry at a position in iteration order.
    pub fn key_at(&self, i: usize) -> (k: &String)
        requires
            i < self.spec_len(),
        ensures
            k@ == self.kv_seq()[i as int].0,
    {
        &self.entries[i].0
    }

    /// The value of the entry at a position in iteration order.
    pub fn value_at(&self, i: usize) -> (v: &V)
        requires
            i < self.spec_len(),
        ensures
            v@ == self.kv_seq()[i as int].1,
    {
        &self.entries[i].1
    }

    /// Position of the entry holding the key, or the length if there is none.
    fn index_of(&self, key: &String) -> (i: usize)
        ensures
            i <= self.spec_len(),
            i < self.spec_len() ==> self.kv_seq()[i as int].0 == key@,
            i == self.spec_len() ==> forall|j: int|
                0 <= j < self.kv_seq().len() ==> self.kv_seq()[j].0 != key@,
    {
        let n = self.entries.len();
        let mut i: usize = 0;
        while i < n
            invariant
                i <= n,
                n == self.spec_len(),
                forall|j: int| 0 <= j < i ==> self.kv_seq()[j].0 != key@,
            decreases n - i,
        {
            if self.entries[i].0 == *key {
                return i;
            }
            i = i + 1;
        }
        i
    }

    pub fn get(&self, key: &String) -> (r: Option<&V>)
        ensures
            match r {
                Some(v) => self@.contains_key(key@) && v@ == self@[key@],
                None => !self@.contains_key(key@),
            },
    {
        proof {
            use_type_invariant(&*self);
            self.kv_distinct();
        }
        let i = self.index_of(key);
        if i < self.entries.len() {
            proof {
                lemma_map_of_index(self.kv_seq(), i as int);
            }
            Some(&self.entries[i].1)
        } else {
            proof {
                lemma_map_of_contains(self.kv_seq(), key@);
            }
            None
        }
    }

    pub fn contains_key(&self, key: &String) -> (r: bool)
        ensures
            r == self@.contains_key(key@),
    {
        self.get(key).is_some()
    }

    /// Insert a value under a key: replaces the value of an existing entry
    /// in place, or appends a new entry at the end of the iteration order.
    pub fn insert(&mut self, key: String, value: V)
        ensures
            final(self)@ == old(self)@.insert(key@, value@),
            old(self)@.contains_key(key@) ==> final(self).spec_len() == old(self).spec_len(),
            !old(self)@.contains_key(key@) ==> {
                &&& final(self).spec_len() == old(self).spec_len() + 1
                &&& final(self).kv_seq() == old(self).kv_seq().push((key@, value@))
            },
    {
        proof {
            use_type_invariant(&*self);
            self.kv_distinct();
        }
        let ghost old_kv = self.kv_seq();
        let i = self.index_of(&key);
        let mut entries: Vec<(String, V)> = Vec::new();
        core::mem::swap(&mut entries, &mut self.entries);
        if i < entries.len() {
            proof {
                lemma_map_of_index(old_kv, i as int);
            }
            let ghost kview = key@;
            let ghost vview = value@;
            entries.set(i, (key, value));
            self.entries = entries;
            proof {
                let kv = self.kv_seq();
                assert(kv =~= old_kv.update(i as int, (old_kv[i as int].0, vview)));
                assert(old_kv[i as int].0 == kview);
                lemma_map_of_update_value(old_kv, i as int, vview);
                assert(map_of(kv) =~= map_of(old_kv).insert(kview, vview));
            }
        } else {
            let ghost kview = key@;
            let ghost vview = value@;
            let ghost pre = entries@;
            entries.push((key, value));
            proof {
                assert forall|a: int, b: int|
                    0 <= a < b < entries@.len() implies entries@[a].0@ != entries@[b].0@ by {
                    assert(old_kv[a].0 == pre[a].0@);
                    if b < entries@.len() - 1 {
                        assert(old_kv[b].0 == pre[b].0@);
                    } else {
                        assert(entries@[b].0@ == kview);
                        assert(old_kv[a].0 != kview);
                    }
                }
            }
            self.entries = entries;
            proof {
                let kv = self.kv_seq();
                assert(kv =~= old_kv.push((kview, vview)));
                assert(kv.drop_last() =~= old_kv);
                lemma_map_of_contains(old_kv, kview);
                assert(map_of(kv) =~= map_of(old_kv).insert(kview, vview));
            }
        }
    }
}

/// Updating the value of one entry updates the map at that entry's key.
proof fn lemma_map_of_update_value<T>(s: Seq<(Seq<char>, T)>, i: int, v: T)
    requires
        distinct_keys(s),
        0 <= i < s.len(),
    ensures
        map_of(s.update(i, (s[i].0, v))) =~= map_of(s).insert(s[i].0, v),
    decreases s.len(),
{
    let s2 = s.update(i, (s[i].0, v));
    if i == s.len() - 1 {
        assert(s2.drop_last() =~= s.drop_last());
    } else {
        assert(s2.drop_last() =~= s.drop_last().update(i, (s[i].0, v)));
        assert(s.drop_last()[i] == s[i]);
        lemma_map_of_update_value(s.drop_last(), i, v);
        assert(s[i].0 != s.last().0);
        assert(s2.last() == s.last());
    }
}

impl<V: View> View for StringMap<V> {
    type V = Map<Seq<char>, V::V>;

    open spec fn view(&self) -> Map<Seq<char>, V::V> {
        map_of(self.kv_seq())
    }
}

} // verus!
