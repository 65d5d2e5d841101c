//! An insertion-ordered dictionary keyed by names, as Godot's `Dictionary`
//! keyed by `StringName`: setting an existing key replaces its value in place,
//! setting a new key appends it, erasing a key keeps the order of the others.

use vstd::prelude::*;

verus! {

/// Index of the last entry whose key is `k`.
pub open spec fn find_key<V>(s: Seq<(Seq<char>, V)>, k: Seq<char>) -> Option<int>
    decreases s.len(),
{
    if s.len() == 0 {
        None
    } else if s.last().0 == k {
        Some(s.len() - 1)
    } else {
        find_key(s.drop_last(), k)
    }
}

/// No key occurs twice.
pub open spec fn distinct_keys<V>(s: Seq<(Seq<char>, V)>) -> bool {
    forall|i: int, j: int| 0 <= i < s.len() && 0 <= j < s.len() && i != j ==> s[i].0 != s[j].0
}

/// Some entry has key `k`.
pub open spec fn has_key<V>(s: Seq<(Seq<char>, V)>, k: Seq<char>) -> bool {
    exists|i: int| 0 <= i < s.len() && s[i].0 == k
}

/// The value stored under `k`.
pub open spec fn value_of<V>(s: Seq<(Seq<char>, V)>, k: Seq<char>) -> Option<V> {
    match find_key(s, k) {
        Some(i) => Some(s[i].1),
        None => None,
    }
}

/// The entries after `k` is set to `v`.
pub open spec fn entries_set<V>(s: Seq<(Seq<char>, V)>, k: Seq<char>, v: V) -> Seq<(Seq<char>, V)> {
    match find_key(s, k) {
        Some(i) => s.update(i, (k, v)),
        None => s.push((k, v)),
    }
}

/// The entries after `k` is erased.
pub open spec fn entries_erase<V>(s: Seq<(Seq<char>, V)>, k: Seq<char>) -> Seq<(Seq<char>, V)> {
    match find_key(s, k) {
        Some(i) => s.remove(i),
        None => s,
    }
}

/// What `find_key` finds.
pub proof fn lemma_find_key<V>(s: Seq<(Seq<char>, V)>, k: Seq<char>)
    ensures
        find_key(s, k) matches Some(i) ==> 0 <= i < s.len() && s[i].0 == k,
        find_key(s, k) is None <==> !has_key(s, k),
        distinct_keys(s) ==> forall|j: int| 0 <= j < s.len() && s[j].0 == k ==> find_key(s, k) == Some(j),
    decreases s.len(),
{
    if s.len() > 0 {
        let t = s.drop_last();
        lemma_find_key(t, k);
        if s.last().0 != k {
            if has_key(t, k) {
                let i = choose|i: int| 0 <= i < t.len() && t[i].0 == k;
                assert(s[i].0 == k);
            }
            if has_key(s, k) {
                let i = choose|i: int| 0 <= i < s.len() && s[i].0 == k;
                assert(t[i].0 == k);
            }
            if distinct_keys(s) {
                assert(distinct_keys(t)) by {
                    assert forall|a: int, b: int| 0 <= a < t.len() && 0 <= b < t.len() && a != b implies t[a].0 != t[b].0 by {
                        assert(s[a] == t[a] && s[b] == t[b]);
                    }
                }
                assert forall|j: int| 0 <= j < s.len() && s[j].0 == k implies find_key(s, k) == Some(j) by {
                    assert(t[j] == s[j]);
                }
            }
        } else {
            assert(s[s.len() - 1].0 == k);
        }
    }
}

/// Setting and erasing keep keys distinct.
pub proof fn lemma_update_distinct<V>(s: Seq<(Seq<char>, V)>, k: Seq<char>, v: V)
    requires
        distinct_keys(s),
    ensures
        distinct_keys(entries_set(s, k, v)),
        distinct_keys(entries_erase(s, k)),
        s.len() == 0 ==> entries_set(s, k, v) == seq![(k, v)],
{
    lemma_find_key(s, k);
    let t = entries_set(s, k, v);
    assert forall|i: int, j: int| 0 <= i < t.len() && 0 <= j < t.len() && i != j implies t[i].0 != t[j].0 by {
        match find_key(s, k) {
            Some(x) => {}
            None => {
                if i == s.len() {
                    assert(s[j].0 != k);
                } else if j == s.len() {
                    assert(s[i].0 != k);
                }
            }
        }
    }
    let e = entries_erase(s, k);
    assert forall|i: int, j: int| 0 <= i < e.len() && 0 <= j < e.len() && i != j implies e[i].0 != e[j].0 by {
        match find_key(s, k) {
            Some(x) => {
                let ii = if i < x { i } else { i + 1 };
                let jj = if j < x { j } else { j + 1 };
                assert(e[i] == s[ii] && e[j] == s[jj]);
            }
            None => {}
        }
    }
    if s.len() == 0 {
        assert(entries_set(s, k, v) =~= seq![(k, v)]);
    }
}

/// Law: after `k` is set to `v`, reading `k` gives `v` and reading any other
/// key gives what it gave before; after `k` is erased, reading `k` gives
/// nothing and reading any other key gives what it gave before.
pub proof fn law_get_after_update<V>(s: Seq<(Seq<char>, V)>, k: Seq<char>, v: V, q: Seq<char>)
    requires
        distinct_keys(s),
    ensures
        value_of(entries_set(s, k, v), q) == (if q == k { Some(v) } else { value_of(s, q) }),
        value_of(entries_erase(s, k), q) == (if q == k { None } else { value_of(s, q) }),
{
    lemma_find_key(s, k);
    lemma_find_key(s, q);
    lemma_update_distinct(s, k, v);
    let t = entries_set(s, k, v);
    let e = entries_erase(s, k);
    lemma_find_key(t, q);
    lemma_find_key(e, q);
    match find_key(s, k) {
        Some(x) => {
            if q == k {
                assert(t[x].0 == q);
                assert(!has_key(e, q)) by {
                    if has_key(e, q) {
                        let i = choose|i: int| 0 <= i < e.len() && e[i].0 == q;
                        let ii = if i < x { i } else { i + 1 };
                        assert(e[i] == s[ii]);
                    }
                }
            } else {
                match find_key(s, q) {
                    Some(y) => {
                        assert(t[y] == s[y]);
                        let yy = if y < x { y } else { y - 1 };
                        assert(e[yy] == s[y]);
                    }
                    None => {
                        assert(!has_key(t, q)) by {
                            if has_key(t, q) {
                                let i = choose|i: int| 0 <= i < t.len() && t[i].0 == q;
                                assert(s[i].0 == q);
                            }
                        }
                        assert(!has_key(e, q)) by {
                            if has_key(e, q) {
                                let i = choose|i: int| 0 <= i < e.len() && e[i].0 == q;
                                let ii = if i < x { i } else { i + 1 };
                                assert(e[i] == s[ii]);
                            }
                        }
                    }
                }
            }
        }
        None => {
            if q == k {
                assert(t[s.len() as int].0 == q);
            } else {
                match find_key(s, q) {
                    Some(y) => {
                        assert(t[y] == s[y]);
                    }
                    None => {
                        assert(!has_key(t, q)) by {
                            if has_key(t, q) {
                                let i = choose|i: int| 0 <= i < t.len() && t[i].0 == q;
                                if i < s.len() {
                                    assert(s[i].0 == q);
                                }
                            }
                        }
                    }
                }
            }
        }
    }
}

/// The keys of a list of entries, in order.
pub open spec fn key_list<V>(s: Seq<(Seq<char>, V)>) -> Seq<Seq<char>> {
    s.map_values(|e: (Seq<char>, V)| e.0)
}

/// Whether a key differs from `k`.
pub open spec fn differs_from(k: Seq<char>) -> spec_fn(Seq<char>) -> bool {
    |x: Seq<char>| x != k
}

proof fn lemma_filter_without(keys: Seq<Seq<char>>, k: Seq<char>)
    requires
        !keys.contains(k),
    ensures
        keys.filter(differs_from(k)) == keys,
    decreases keys.len(),
{
    reveal_with_fuel(Seq::<_>::filter, 1);
    if keys.len() > 0 {
        let t = keys.drop_last();
        assert forall|j: int| 0 <= j < t.len() implies t[j] != k by {
            assert(keys[j] == t[j]);
        }
        lemma_filter_without(t, k);
        assert(keys[keys.len() - 1] != k);
        assert(t.push(keys.last()) =~= keys);
    }
}

proof fn lemma_filter_remove(keys: Seq<Seq<char>>, k: Seq<char>, i: int)
    requires
        0 <= i < keys.len(),
        keys[i] == k,
        forall|j: int| 0 <= j < keys.len() && j != i ==> keys[j] != k,
    ensures
        keys.filter(differs_from(k)) == keys.remove(i),
    decreases keys.len(),
{
    reveal_with_fuel(Seq::<_>::filter, 1);
    let t = keys.drop_last();
    if i == keys.len() - 1 {
        assert forall|j: int| 0 <= j < t.len() implies t[j] != k by {
            assert(keys[j] == t[j]);
        }
        assert(!t.contains(k));
        lemma_filter_without(t, k);
        assert(keys.remove(i) =~= t);
    } else {
        assert forall|j: int| 0 <= j < t.len() && j != i implies t[j] != k by {
            assert(keys[j] == t[j]);
        }
        assert(t[i] == keys[i]);
        lemma_filter_remove(t, k, i);
        assert(keys[keys.len() - 1] != k);
        assert(t.remove(i).push(keys.last()) =~= keys.remove(i));
    }
}

/// Law: setting a key that is present keeps every key in place; setting a
/// new key appends it; erasing a key removes just that key and keeps the
/// others in order.
pub proof fn law_keys_after_update<V>(s: Seq<(Seq<char>, V)>, k: Seq<char>, v: V)
    requires
        distinct_keys(s),
    ensures
        has_key(s, k) ==> key_list(entries_set(s, k, v)) == key_list(s),
        !has_key(s, k) ==> key_list(entries_set(s, k, v)) == key_list(s).push(k),
        key_list(entries_erase(s, k)) == key_list(s).filter(differs_from(k)),
{
    lemma_find_key(s, k);
    match find_key(s, k) {
        Some(i) => {
            assert(key_list(entries_set(s, k, v)) =~= key_list(s));
            assert forall|j: int| 0 <= j < key_list(s).len() && j != i implies key_list(s)[j] != k by {}
            lemma_filter_remove(key_list(s), k, i);
            assert(key_list(entries_erase(s, k)) =~= key_list(s).remove(i));
        }
        None => {
            assert(key_list(entries_set(s, k, v)) =~= key_list(s).push(k));
            assert(!key_list(s).contains(k)) by {
                if key_list(s).contains(k) {
                    let j = choose|j: int| 0 <= j < key_list(s).len() && key_list(s)[j] == k;
                    assert(s[j].0 == k);
                }
            }
            lemma_filter_without(key_list(s), k);
        }
    }
}

/// An insertion-ordered map from names to values.
pub struct NameMap<V> {
    entries: Vec<(String, V)>,
}

impl<V> NameMap<V> {
    /// The entries, in insertion order, each key by its characters.
    pub closed spec fn entries(&self) -> Seq<(Seq<char>, V)> {
        self.entries@.map_values(|e: (String, V)| (e.0@, e.1))
    }

    /// The map is well formed: no key occurs twice.
    pub open spec fn wf(&self) -> bool {
        distinct_keys(self.entries())
    }

    /// The value stored under `k`.
    pub open spec fn spec_get(&self, k: Seq<char>) -> Option<V> {
        value_of(self.entries(), k)
    }

    /// The keys, in insertion order.
    pub open spec fn spec_keys(&self) -> Seq<Seq<char>> {
        self.entries().map_values(|e: (Seq<char>, V)| e.0)
    }

    /// The values, in insertion order.
    pub open spec fn spec_values(&self) -> Seq<V> {
        self.entries().map_values(|e: (Seq<char>, V)| e.1)
    }

    /// An empty map.
    pub fn new() -> (m: Self)
        ensures
            m.wf(),
            m.entries() == Seq::<(Seq<char>, V)>::empty(),
    {
        let m = NameMap { entries: Vec::new() };
        assert(m.entries() =~= Seq::<(Seq<char>, V)>::empty());
        m
    }

    /// Number of entries.
    pub fn len(&self) -> (n: usize)
        ensures
            n == self.entries().len(),
    {
        self.entries.len()
    }

    /// The key of the entry at position `i`.
    pub fn key_at(&self, i: usize) -> (k: &String)
        requires
            i < self.entries().len(),
        ensures
            k@ == self.entries()[i as int].0,
    {
        &self.entries[i].0
    }

    /// The value of the entry at position `i`.
    pub fn value_at(&self, i: usize) -> (v: &V)
        requires
            i < self.entries().len(),
        ensures
            *v == self.entries()[i as int].1,
    {
        &self.entries[i].1
    }

    fn index_of(&self, k: &str) -> (r: Option<usize>)
        requires
            self.wf(),
        ensures
            r matches Some(i) ==> i < self.entries().len() && find_key(self.entries(), k@) == Some(i as int),
            r is None ==> find_key(self.entries(), k@) is None,
    {
        proof {
            lemma_find_key(self.entries(), k@);
        }
        let key: String = k.to_owned();
        let n = self.entries.len();
        let mut i: usize = 0;
        while i < n
            invariant
                n == self.entries@.len(),
                self.wf(),
                key@ == k@,
                i <= n,
                forall|j: int| 0 <= j < i ==> self.entries()[j].0 != k@,
                distinct_keys(self.entries()) ==> forall|j: int|
                    0 <= j < self.entries().len() && self.entries()[j].0 == k@ ==> find_key(self.entries(), k@) == Some(j),
                find_key(self.entries(), k@) is None <==> !has_key(self.entries(), k@),
            decreases n - i,
        {
            if self.entries[i].0 == key {
                assert(self.entries()[i as int].0 == k@);
                return Some(i);
            }
            i = i + 1;
        }
        assert(!has_key(self.entries(), k@));
        None
    }

    /// Whether some entry has key `k`.
    pub fn contains_key(&self, k: &str) -> (b: bool)
        requires
            self.wf(),
        ensures
            b == self.spec_get(k@).is_some(),
            b == has_key(self.entries(), k@),
    {
        proof {
            lemma_find_key(self.entries(), k@);
        }
        self.index_of(k).is_some()
    }

    /// The value stored under `k`.
    pub fn get(&self, k: &str) -> (r: Option<&V>)
        requires
            self.wf(),
        ensures
            r == (match self.spec_get(k@) {
                Some(v) => Some(&v),
                None => None::<&V>,
            }),
    {
        proof {
            lemma_find_key(self.entries(), k@);
        }
        match self.index_of(k) {
            Some(i) => {
                assert(self.entries()[i as int] == (self.entries@[i as int].0@, self.entries@[i as int].1));
                Some(&self.entries[i].1)
            },
            None => None,
        }
    }

    /// Stores `v` under `k`: in place when `k` is present, at the end otherwise.
    pub fn set(&mut self, k: &str, v: V)
        requires
            old(self).wf(),
        ensures
            final(self).wf(),
            final(self).entries() == entries_set(old(self).entries(), k@, v),
    {
        proof {
            lemma_update_distinct(self.entries(), k@, v);
            lemma_find_key(self.entries(), k@);
        }
        let ghost pre = self.entries();
        match self.index_of(k) {
            Some(i) => {
                self.entries.set(i, (k.to_owned(), v));
                assert(self.entries() =~= pre.update(i as int, (k@, v)));
            }
            None => {
                self.entries.push((k.to_owned(), v));
                assert(self.entries() =~= pre.push((k@, v)));
            }
        }
    }

    /// Removes the entry with key `k`, if any, keeping the others in order.
    pub fn erase(&mut self, k: &str)
        requires
            old(self).wf(),
        ensures
            final(self).wf(),
            final(self).entries() == entries_erase(old(self).entries(), k@),
    {
        proof {
            lemma_update_distinct(self.entries(), k@, arbitrary());
            lemma_find_key(self.entries(), k@);
        }
        let ghost pre = self.entries();
        match self.index_of(k) {
            Some(i) => {
                self.entries.remove(i);
                assert(self.entries() =~= pre.remove(i as int));
            }
            None => {}
        }
    }

    /// Removes every entry.
    pub fn clear(&mut self)
        ensures
            final(self).wf(),
            final(self).entries() == Seq::<(Seq<char>, V)>::empty(),
    {
        self.entries.clear();
        assert(self.entries() =~= Seq::<(Seq<char>, V)>::empty());
    }
}

} // verus!
