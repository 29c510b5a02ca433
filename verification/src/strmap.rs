//! A map keyed by strings, kept as a list of entries: the front matter of a
//! note and the registry of vaults are such maps.
use vstd::prelude::*;

verus! {

/// A map from strings to values, kept as a list of entries in the order in
/// which their keys first arrived. A key occurs once.
pub struct StrMap<V> {
    entries: Vec<(String, V)>,
}

/// The map that a list of entries stands for, later entries winning.
pub open spec fn entries_map<V: View>(es: Seq<(String, V)>) -> Map<Seq<char>, V::V>
    decreases es.len(),
{
    if es.len() == 0 {
        Map::empty()
    } else {
        entries_map(es.drop_last()).insert(es.last().0@, es.last().1@)
    }
}

/// No key occurs twice.
pub open spec fn keys_distinct<V>(es: Seq<(String, V)>) -> bool {
    forall|i: int, j: int| 0 <= i < j < es.len() ==> (#[trigger] es[i]).0@ != (#[trigger] es[j]).0@
}

/// The map of a list of distinct keys holds exactly its entries.
proof fn lemma_entries_map<V: View>(es: Seq<(String, V)>)
    requires
        keys_distinct(es),
    ensures
        forall|k: Seq<char>|
            #[trigger] entries_map(es).contains_key(k) <==> exists|j: int|
                0 <= j < es.len() && (#[trigger] es[j]).0@ == k,
        forall|j: int|
            0 <= j < es.len() ==> #[trigger] entries_map(es)[es[j].0@] == es[j].1@,
    decreases es.len(),
{
    if es.len() > 0 {
        let init = es.drop_last();
        assert(keys_distinct(init)) by {
            assert forall|i: int, j: int| 0 <= i < j < init.len() implies (#[trigger] init[i]).0@
                != (#[trigger] init[j]).0@ by {
                assert(init[i] == es[i]);
                assert(init[j] == es[j]);
            }
        }
        lemma_entries_map(init);
        assert forall|k: Seq<char>| #[trigger]
            entries_map(es).contains_key(k) <==> exists|j: int|
                0 <= j < es.len() && (#[trigger] es[j]).0@ == k by {
            if entries_map(es).contains_key(k) {
                if k == es.last().0@ {
                    assert(es[es.len() - 1].0@ == k);
                } else {
                    assert(entries_map(init).contains_key(k));
                    let j = choose|j: int| 0 <= j < init.len() && (#[trigger] init[j]).0@ == k;
                    assert(es[j] == init[j]);
                }
            }
            if exists|j: int| 0 <= j < es.len() && (#[trigger] es[j]).0@ == k {
                let j = choose|j: int| 0 <= j < es.len() && (#[trigger] es[j]).0@ == k;
                if j < es.len() - 1 {
                    assert(init[j] == es[j]);
                    assert(entries_map(init).contains_key(k));
                }
            }
        }
        assert forall|j: int| 0 <= j < es.len() implies #[trigger] entries_map(es)[es[j].0@]
            == es[j].1@ by {
            if j < es.len() - 1 {
                assert(init[j] == es[j]);
                assert(es[j].0@ != es[es.len() - 1].0@);
                assert(entries_map(init).contains_key(init[j].0@));
                assert(entries_map(init)[init[j].0@] == init[j].1@);
            }
        }
    }
}

/// Replacing the value of the entry at `j` updates the map at its key.
proof fn lemma_entries_map_update<V: View>(es: Seq<(String, V)>, j: int, e: (String, V))
    requires
        keys_distinct(es),
        0 <= j < es.len(),
        e.0@ == es[j].0@,
    ensures
        keys_distinct(es.update(j, e)),
        entries_map(es.update(j, e)) == entries_map(es).insert(e.0@, e.1@),
{
    let es2 = es.update(j, e);
    assert(keys_distinct(es2)) by {
        assert forall|a: int, b: int| 0 <= a < b < es2.len() implies (#[trigger] es2[a]).0@
            != (#[trigger] es2[b]).0@ by {
            assert(es2[a].0@ == es[a].0@);
            assert(es2[b].0@ == es[b].0@);
        }
    }
    lemma_entries_map(es);
    lemma_entries_map(es2);
    let m1 = entries_map(es2);
    let m2 = entries_map(es).insert(e.0@, e.1@);
    assert forall|k: Seq<char>| m1.contains_key(k) <==> m2.contains_key(k) by {
        if m1.contains_key(k) {
            let a = choose|a: int| 0 <= a < es2.len() && (#[trigger] es2[a]).0@ == k;
            assert(es2[a].0@ == es[a].0@);
            assert(entries_map(es).contains_key(k));
        }
        if m2.contains_key(k) {
            if k == e.0@ {
                assert(es2[j].0@ == k);
                assert(m1.contains_key(k));
            } else {
                assert(entries_map(es).contains_key(k));
                let a = choose|a: int| 0 <= a < es.len() && (#[trigger] es[a]).0@ == k;
                assert(es2[a].0@ == es[a].0@);
                assert(m1.contains_key(k));
            }
        }
    }
    assert forall|k: Seq<char>| m1.contains_key(k) implies m1[k] == m2[k] by {
        let a = choose|a: int| 0 <= a < es2.len() && (#[trigger] es2[a]).0@ == k;
        if a == j {
            assert(m1[es2[a].0@] == es2[a].1@);
        } else {
            assert(es2[a] == es[a]);
            assert(m1[es2[a].0@] == es2[a].1@);
            assert(entries_map(es)[es[a].0@] == es[a].1@);
        }
    }
    assert(m1 =~= m2);
}

impl<V: View> View for StrMap<V> {
    type V = Map<Seq<char>, V::V>;

    closed spec fn view(&self) -> Map<Seq<char>, V::V> {
        entries_map(self.entries@)
    }
}

impl<V> StrMap<V> {
    #[verifier::type_invariant]
    closed spec fn inv(self) -> bool {
        keys_distinct(self.entries@)
    }
}

impl<V: View> StrMap<V> {
    /// An empty map.
    pub fn new() -> (r: Self)
        ensures
            r@ == Map::<Seq<char>, V::V>::empty(),
    {
        StrMap { entries: Vec::new() }
    }

    /// Sets `key` to `value` (`HashMap::insert`).
    pub fn insert(&mut self, key: String, value: V)
        ensures
            final(self)@ == old(self)@.insert(key@, value@),
    {
        proof {
            use_type_invariant(&*self);
        }
        let mut es: Vec<(String, V)> = Vec::new();
        std::mem::swap(&mut es, &mut self.entries);
        let ghost old_es = es@;
        let mut i: usize = 0;
        while i < es.len()
            invariant
                0 <= i <= es.len(),
                es@ == old_es,
                keys_distinct(old_es),
                old(self)@ == entries_map(old_es),
                forall|j: int| 0 <= j < i ==> (#[trigger] es@[j]).0@ != key@,
            decreases es.len() - i,
        {
            if es[i].0 == key {
                proof {
                    lemma_entries_map_update(es@, i as int, (key, value));
                }
                es.set(i, (key, value));
                self.entries = es;
                return;
            }
            i = i + 1;
        }
        proof {
            assert(es@.push((key, value)).drop_last() =~= es@);
        }
        es.push((key, value));
        proof {
            assert forall|a: int, b: int| 0 <= a < b < es@.len() implies (#[trigger] es@[a]).0@
                != (#[trigger] es@[b]).0@ by {
                if b < es@.len() - 1 {
                    assert(es@[a] == old_es[a]);
                    assert(es@[b] == old_es[b]);
                }
            }
        }
        self.entries = es;
    }

    /// The value under `key` (`HashMap::get`).
    pub fn get(&self, key: &str) -> (r: Option<&V>)
        ensures
            match r {
                Some(v) => self@.contains_key(key@) && self@[key@] == v@,
                None => !self@.contains_key(key@),
            },
    {
        proof {
            use_type_invariant(self);
            lemma_entries_map(self.entries@);
        }
        let k = key.to_owned();
        let mut i: usize = 0;
        while i < self.entries.len()
            invariant
                0 <= i <= self.entries@.len(),
                k@ == key@,
                keys_distinct(self.entries@),
                forall|j: int| 0 <= j < i ==> (#[trigger] self.entries@[j]).0@ != key@,
            decreases self.entries@.len() - i,
        {
            if self.entries[i].0 == k {
                proof {
                    lemma_entries_map(self.entries@);
                }
                return Some(&self.entries[i].1);
            }
            i = i + 1;
        }
        proof {
            lemma_entries_map(self.entries@);
        }
        None
    }

    /// The keys, in the order in which they first arrived.
    pub closed spec fn key_seq(&self) -> Seq<Seq<char>> {
        self.entries@.map_values(|e: (String, V)| e.0@)
    }

    /// The number of keys; the keys in order are distinct and are those of
    /// the map.
    pub fn len(&self) -> (n: usize)
        ensures
            self@.dom().finite(),
            n == self@.dom().len(),
            n == self.key_seq().len(),
            self.key_seq().no_duplicates(),
            forall|k: Seq<char>| #[trigger] self@.contains_key(k) <==> self.key_seq().contains(k),
    {
        proof {
            use_type_invariant(self);
            lemma_dom_len(self.entries@);
            lemma_entries_map(self.entries@);
            let ks = self.key_seq();
            assert forall|a: int, b: int| 0 <= a < ks.len() && 0 <= b < ks.len() && a != b implies ks[a] != ks[b] by {
                if a < b {
                    assert(self.entries@[a].0@ != self.entries@[b].0@);
                } else {
                    assert(self.entries@[b].0@ != self.entries@[a].0@);
                }
            }
            assert forall|k: Seq<char>| #[trigger] self@.contains_key(k) <==> ks.contains(k) by {
                if self@.contains_key(k) {
                    let j = choose|j: int| 0 <= j < self.entries@.len() && (#[trigger] self.entries@[j]).0@ == k;
                    assert(ks[j] == k);
                }
                if ks.contains(k) {
                    let j = choose|j: int| 0 <= j < ks.len() && ks[j] == k;
                    assert(self.entries@[j].0@ == k);
                }
            }
        }
        self.entries.len()
    }

    /// Whether `key` has a value.
    pub fn contains_key(&self, key: &str) -> (r: bool)
        ensures
            r == self@.contains_key(key@),
    {
        match self.get(key) {
            Some(_) => true,
            None => false,
        }
    }

    /// Removes `key` and returns its value (`HashMap::remove`).
    pub fn remove(&mut self, key: &str) -> (r: Option<V>)
        ensures
            final(self)@ == old(self)@.remove(key@),
            match r {
                Some(v) => old(self)@.contains_key(key@) && old(self)@[key@] == v@,
                None => !old(self)@.contains_key(key@),
            },
    {
        proof {
            use_type_invariant(&*self);
            lemma_entries_map(self.entries@);
        }
        let k = key.to_owned();
        let mut es: Vec<(String, V)> = Vec::new();
        std::mem::swap(&mut es, &mut self.entries);
        let ghost old_es = es@;
        let mut i: usize = 0;
        while i < es.len()
            invariant
                0 <= i <= es.len(),
                k@ == key@,
                es@ == old_es,
                keys_distinct(old_es),
                old(self)@ == entries_map(old_es),
                forall|j: int| 0 <= j < i ==> (#[trigger] es@[j]).0@ != key@,
            decreases es.len() - i,
        {
            if es[i].0 == k {
                proof {
                    lemma_entries_map(old_es);
                    lemma_entries_map_remove(old_es, i as int);
                }
                let (_, v) = es.remove(i);
                self.entries = es;
                return Some(v);
            }
            i = i + 1;
        }
        proof {
            lemma_entries_map(old_es);
            assert(!entries_map(old_es).contains_key(key@));
            assert(entries_map(old_es).remove(key@) =~= entries_map(old_es));
        }
        self.entries = es;
        None
    }

    /// The `i`-th entry, in the order in which keys first arrived.
    pub fn entry(&self, i: usize) -> (r: (&String, &V))
        requires
            i < self@.dom().len(),
        ensures
            r.0@ == self.key_seq()[i as int],
            self@.contains_key(r.0@),
            self@[r.0@] == r.1@,
    {
        proof {
            use_type_invariant(self);
            lemma_dom_len(self.entries@);
            lemma_entries_map(self.entries@);
        }
        (&self.entries[i].0, &self.entries[i].1)
    }
}

/// Removing the entry at `i` removes its key from the map.
proof fn lemma_entries_map_remove<V: View>(es: Seq<(String, V)>, i: int)
    requires
        keys_distinct(es),
        0 <= i < es.len(),
    ensures
        keys_distinct(es.remove(i)),
        entries_map(es.remove(i)) == entries_map(es).remove(es[i].0@),
{
    let es2 = es.remove(i);
    let key = es[i].0@;
    assert(keys_distinct(es2)) by {
        assert forall|a: int, b: int| 0 <= a < b < es2.len() implies (#[trigger] es2[a]).0@
            != (#[trigger] es2[b]).0@ by {
            let a2 = if a < i { a } else { a + 1 };
            let b2 = if b < i { b } else { b + 1 };
            assert(es2[a] == es[a2]);
            assert(es2[b] == es[b2]);
        }
    }
    lemma_entries_map(es);
    lemma_entries_map(es2);
    let m1 = entries_map(es2);
    let m2 = entries_map(es).remove(key);
    assert forall|k: Seq<char>| m1.contains_key(k) <==> m2.contains_key(k) by {
        if m1.contains_key(k) {
            let a = choose|a: int| 0 <= a < es2.len() && (#[trigger] es2[a]).0@ == k;
            let a2 = if a < i { a } else { a + 1 };
            assert(es2[a] == es[a2]);
            assert(entries_map(es).contains_key(k));
            assert(k != key);
        }
        if m2.contains_key(k) {
            assert(entries_map(es).contains_key(k));
            let a = choose|a: int| 0 <= a < es.len() && (#[trigger] es[a]).0@ == k;
            assert(a != i);
            let a2 = if a < i { a } else { a - 1 };
            assert(es2[a2] == es[a]);
            assert(m1.contains_key(k));
        }
    }
    assert forall|k: Seq<char>| m1.contains_key(k) implies m1[k] == m2[k] by {
        let a = choose|a: int| 0 <= a < es2.len() && (#[trigger] es2[a]).0@ == k;
        let a2 = if a < i { a } else { a + 1 };
        assert(es2[a] == es[a2]);
        assert(m1[es2[a].0@] == es2[a].1@);
        assert(entries_map(es)[es[a2].0@] == es[a2].1@);
    }
    assert(m1 =~= m2);
}

proof fn lemma_dom_len<V: View>(es: Seq<(String, V)>)
    requires
        keys_distinct(es),
    ensures
        entries_map(es).dom().finite(),
        entries_map(es).dom().len() == es.len(),
    decreases es.len(),
{
    if es.len() > 0 {
        let init = es.drop_last();
        assert(keys_distinct(init)) by {
            assert forall|i: int, j: int| 0 <= i < j < init.len() implies (#[trigger] init[i]).0@
                != (#[trigger] init[j]).0@ by {
                assert(init[i] == es[i]);
                assert(init[j] == es[j]);
            }
        }
        lemma_dom_len(init);
        lemma_entries_map(init);
        assert(!entries_map(init).contains_key(es.last().0@)) by {
            if entries_map(init).contains_key(es.last().0@) {
                let j = choose|j: int| 0 <= j < init.len() && (#[trigger] init[j]).0@ == es.last().0@;
                assert(es[j] == init[j]);
            }
        }
    }
}

} // verus!
