//! Small finite maps and sets keyed by strings or numbers.
//!
//! The tracker keeps crate name to version tables, dependency sets and
//! per-PR indexes.  They are stored as vectors of entries without duplicate
//! keys (the type invariant) and are viewed as mathematical maps and sets.

use vstd::prelude::*;

verus! {

/// A key type whose equality is decided by its deep view.
pub trait KeyEq: DeepView + Sized {
    /// Whether the two keys are the same.
    fn key_eq(&self, other: &Self) -> (r: bool)
        ensures
            r == (self.deep_view() == other.deep_view()),
    ;

    /// A copy of the key.
    fn key_clone(&self) -> (r: Self)
        ensures
            r.deep_view() == self.deep_view(),
    ;
}

impl KeyEq for String {
    fn key_eq(&self, other: &Self) -> (r: bool) {
        *self == *other
    }

    fn key_clone(&self) -> (r: Self) {
        self.clone()
    }
}

impl KeyEq for u64 {
    fn key_eq(&self, other: &Self) -> (r: bool) {
        *self == *other
    }

    fn key_clone(&self) -> (r: Self) {
        *self
    }
}

/// The keys of a sequence of entries, in order.
pub open spec fn entry_keys<K: DeepView, V>(s: Seq<(K, V)>) -> Seq<K::V> {
    Seq::new(s.len(), |i: int| s[i].0.deep_view())
}

/// The map that inserting the entries in order, later ones replacing earlier
/// ones with the same key, produces.
pub open spec fn entries_map<K: DeepView, V: DeepView>(s: Seq<(K, V)>) -> Map<K::V, V::V>
    decreases s.len(),
{
    if s.len() == 0 {
        Map::empty()
    } else {
        entries_map(s.drop_last()).insert(s.last().0.deep_view(), s.last().1.deep_view())
    }
}

/// The map of a sequence of entries has finitely many keys.
pub proof fn lemma_entries_map_finite<K: DeepView, V: DeepView>(s: Seq<(K, V)>)
    ensures
        entries_map(s).dom().finite(),
    decreases s.len(),
{
    if s.len() > 0 {
        lemma_entries_map_finite(s.drop_last());
    }
}

/// Domain and values of `entries_map` when the keys are distinct.
pub proof fn lemma_entries_map<K: DeepView, V: DeepView>(s: Seq<(K, V)>)
    requires
        entry_keys(s).no_duplicates(),
    ensures
        entries_map(s).dom() == entry_keys(s).to_set(),
        forall|i: int|
            0 <= i < s.len() ==> #[trigger] entries_map(s)[s[i].0.deep_view()]
                == s[i].1.deep_view(),
    decreases s.len(),
{
    if s.len() > 0 {
        let p = s.drop_last();
        assert(entry_keys(p) =~= entry_keys(s).drop_last());
        lemma_entries_map(p);
        assert(entries_map(s).dom() =~= entry_keys(s).to_set()) by {
            assert forall|k| entries_map(s).dom().contains(k) implies entry_keys(
                s,
            ).to_set().contains(k) by {
                if k != s.last().0.deep_view() {
                    let j = choose|j: int| 0 <= j < p.len() && entry_keys(p)[j] == k;
                    assert(entry_keys(s)[j] == k);
                } else {
                    assert(entry_keys(s)[s.len() - 1] == k);
                }
            }
            assert forall|k| entry_keys(s).to_set().contains(k) implies entries_map(
                s,
            ).dom().contains(k) by {
                let j = choose|j: int| 0 <= j < s.len() && entry_keys(s)[j] == k;
                if j < s.len() - 1 {
                    assert(entry_keys(p)[j] == k);
                }
            }
        }
        assert forall|i: int| 0 <= i < s.len() implies #[trigger] entries_map(
            s,
        )[s[i].0.deep_view()] == s[i].1.deep_view() by {
            if i < s.len() - 1 {
                assert(entry_keys(s)[i] != entry_keys(s)[s.len() - 1]);
                assert(p[i] == s[i]);
            }
        }
    }
}

/// A finite map with distinct keys, viewed as a `Map`.
pub struct KeyMap<K: KeyEq, V: DeepView> {
    entries: Vec<(K, V)>,
}

impl<K: KeyEq, V: DeepView> KeyMap<K, V> {
    /// The keys are distinct.
    #[verifier::type_invariant]
    closed spec fn inv(self) -> bool {
        entry_keys(self.entries@).no_duplicates()
    }

    /// The map this value stands for.
    pub closed spec fn view_map(self) -> Map<K::V, V::V> {
        entries_map(self.entries@)
    }

    /// An empty map.
    pub fn new() -> (m: Self)
        ensures
            m@ == Map::<K::V, V::V>::empty(),
    {
        let m = KeyMap { entries: Vec::new() };
        assert(entry_keys(m.entries@) =~= Seq::<K::V>::empty());
        m
    }

    /// Position of `key` among the entries.
    fn find(&self, key: &K) -> (r: Option<usize>)
        ensures
            r matches Some(i) ==> i < self.entries@.len() && self.entries@[i as int].0.deep_view()
                == key.deep_view(),
            r is None ==> !entry_keys(self.entries@).contains(key.deep_view()),
    {
        let mut i: usize = 0;
        while i < self.entries.len()
            invariant
                i <= self.entries@.len(),
                forall|j: int| 0 <= j < i ==> self.entries@[j].0.deep_view() != key.deep_view(),
            decreases self.entries@.len() - i,
        {
            if self.entries[i].0.key_eq(key) {
                return Some(i);
            }
            i += 1;
        }
        proof {
            if entry_keys(self.entries@).contains(key.deep_view()) {
                let j = choose|j: int|
                    0 <= j < self.entries@.len() && entry_keys(self.entries@)[j]
                        == key.deep_view();
                assert(self.entries@[j].0.deep_view() == key.deep_view());
            }
        }
        None
    }

    /// The map has finitely many keys.
    pub proof fn lemma_finite(self)
        ensures
            self@.dom().finite(),
    {
        lemma_entries_map_finite(self.entries@);
    }

    /// Number of entries.
    pub fn len(&self) -> (n: usize)
        ensures
            n == self@.len(),
            self@.dom().finite(),
    {
        proof {
            use_type_invariant(self);
            lemma_entries_map_finite(self.entries@);
            lemma_entries_map(self.entries@);
            entry_keys(self.entries@).unique_seq_to_set();
        }
        self.entries.len()
    }

    /// The value stored under `key`, if any.
    pub fn get(&self, key: &K) -> (r: Option<&V>)
        ensures
            r matches Some(v) ==> self@.contains_key(key.deep_view())
                && v.deep_view() == self@[key.deep_view()],
            r is None ==> !self@.contains_key(key.deep_view()),
    {
        proof {
            use_type_invariant(self);
            lemma_entries_map(self.entries@);
        }
        match self.find(key) {
            Some(i) => {
                assert(entry_keys(self.entries@)[i as int] == key.deep_view());
                assert(entry_keys(self.entries@).to_set().contains(key.deep_view()));
                assert(entries_map(self.entries@)[self.entries@[i as int].0.deep_view()]
                    == self.entries@[i as int].1.deep_view());
                Some(&self.entries[i].1)
            },
            None => {
                assert(!entry_keys(self.entries@).to_set().contains(key.deep_view()));
                None
            },
        }
    }

    /// Whether `key` has a value.
    pub fn contains_key(&self, key: &K) -> (r: bool)
        ensures
            r == self@.contains_key(key.deep_view()),
    {
        proof {
            use_type_invariant(self);
            lemma_entries_map(self.entries@);
        }
        match self.find(key) {
            Some(i) => {
                assert(entry_keys(self.entries@)[i as int] == key.deep_view());
                assert(entry_keys(self.entries@).to_set().contains(key.deep_view()));
                true
            },
            None => {
                assert(!entry_keys(self.entries@).to_set().contains(key.deep_view()));
                false
            },
        }
    }

    /// Stores `value` under `key`, replacing an earlier value.
    pub fn insert(&mut self, key: K, value: V)
        ensures
            final(self)@ == old(self)@.insert(
                key.deep_view(),
                value.deep_view(),
            ),
    {
        proof {
            use_type_invariant(&*self);
            lemma_entries_map(self.entries@);
        }
        let ghost old_entries = self.entries@;
        let ghost kv = key.deep_view();
        let ghost vv = value.deep_view();
        match self.find(&key) {
            Some(i) => {
                let mut entries = Vec::new();
                std::mem::swap(&mut entries, &mut self.entries);
                entries.set(i, (key, value));
                let ghost new_entries = entries@;
                proof {
                    assert(entry_keys(new_entries) =~= entry_keys(old_entries));
                    lemma_entries_map(new_entries);
                    let m = entries_map(new_entries);
                    let o = entries_map(old_entries).insert(kv, vv);
                    assert(entry_keys(old_entries)[i as int] == kv);
                    assert(entry_keys(old_entries).to_set().contains(kv));
                    assert(m.dom() =~= o.dom());
                    assert forall|k| m.dom().contains(k) implies m[k] == o[k] by {
                        let j = choose|j: int|
                            0 <= j < new_entries.len() && entry_keys(new_entries)[j] == k;
                        assert(m[new_entries[j].0.deep_view()] == new_entries[j].1.deep_view());
                        if j != i {
                            assert(new_entries[j] == old_entries[j]);
                            assert(entry_keys(old_entries)[j] != kv);
                            assert(entries_map(old_entries)[old_entries[j].0.deep_view()]
                                == old_entries[j].1.deep_view());
                        } else {
                            assert(new_entries[j].1 == value);
                        }
                    }
                    assert(m =~= o);
                }
                self.entries = entries;
            },
            None => {
                let mut entries = Vec::new();
                std::mem::swap(&mut entries, &mut self.entries);
                entries.push((key, value));
                proof {
                    assert(entries@.drop_last() =~= old_entries);
                    assert(entry_keys(entries@) =~= entry_keys(old_entries).push(kv));
                    assert(entry_keys(entries@).no_duplicates()) by {
                        assert forall|a: int, b: int|
                            0 <= a < entries@.len() && 0 <= b < entries@.len() && a != b
                            implies entry_keys(entries@)[a] != entry_keys(entries@)[b] by {
                            if a == entries@.len() - 1 {
                                assert(entry_keys(old_entries)[b] == entry_keys(entries@)[b]);
                            } else if b == entries@.len() - 1 {
                                assert(entry_keys(old_entries)[a] == entry_keys(entries@)[a]);
                            }
                        }
                    }
                }
                self.entries = entries;
            },
        }
    }

    /// Removes the entry of `key`, returning its value.
    pub fn remove(&mut self, key: &K) -> (r: Option<V>)
        ensures
            final(self)@ == old(self)@.remove(key.deep_view()),
            r matches Some(v) ==> old(self)@.contains_key(key.deep_view())
                && v.deep_view() == old(self)@[key.deep_view()],
            r is None ==> !old(self)@.contains_key(key.deep_view()),
    {
        proof {
            use_type_invariant(&*self);
            lemma_entries_map(self.entries@);
        }
        let ghost old_entries = self.entries@;
        let ghost kv = key.deep_view();
        match self.find(key) {
            Some(i) => {
                let mut entries = Vec::new();
                std::mem::swap(&mut entries, &mut self.entries);
                let (_k, v) = entries.remove(i);
                let ghost new_entries = entries@;
                proof {
                    assert(entry_keys(old_entries)[i as int] == kv);
                    assert(entry_keys(old_entries).to_set().contains(kv));
                    assert(entries_map(old_entries)[old_entries[i as int].0.deep_view()]
                        == old_entries[i as int].1.deep_view());
                    assert(entry_keys(new_entries) =~= entry_keys(old_entries).remove(i as int));
                    assert(entry_keys(new_entries).no_duplicates()) by {
                        assert forall|a: int, b: int|
                            0 <= a < new_entries.len() && 0 <= b < new_entries.len() && a != b
                            implies entry_keys(new_entries)[a] != entry_keys(new_entries)[b] by {
                            let a2 = if a < i {
                                a
                            } else {
                                a + 1
                            };
                            let b2 = if b < i {
                                b
                            } else {
                                b + 1
                            };
                            assert(entry_keys(new_entries)[a] == entry_keys(old_entries)[a2]);
                            assert(entry_keys(new_entries)[b] == entry_keys(old_entries)[b2]);
                        }
                    }
                    lemma_entries_map(new_entries);
                    let m = entries_map(new_entries);
                    let o = entries_map(old_entries).remove(kv);
                    assert forall|k| m.dom().contains(k) <==> o.dom().contains(k) by {
                        if m.dom().contains(k) {
                            let j = choose|j: int|
                                0 <= j < new_entries.len() && entry_keys(new_entries)[j] == k;
                            let j2 = if j < i {
                                j
                            } else {
                                j + 1
                            };
                            assert(entry_keys(old_entries)[j2] == k);
                            assert(entry_keys(old_entries)[i as int] == kv);
                        }
                        if o.dom().contains(k) {
                            let j = choose|j: int|
                                0 <= j < old_entries.len() && entry_keys(old_entries)[j] == k;
                            assert(j != i);
                            let j2 = if j < i {
                                j
                            } else {
                                j - 1
                            };
                            assert(entry_keys(new_entries)[j2] == k);
                        }
                    }
                    assert(m.dom() =~= o.dom());
                    assert forall|k| m.dom().contains(k) implies m[k] == o[k] by {
                        let j = choose|j: int|
                            0 <= j < new_entries.len() && entry_keys(new_entries)[j] == k;
                        let j2 = if j < i {
                            j
                        } else {
                            j + 1
                        };
                        assert(new_entries[j] == old_entries[j2]);
                    }
                    assert(m =~= o);
                }
                self.entries = entries;
                Some(v)
            },
            None => {
                proof {
                    assert(!entry_keys(old_entries).to_set().contains(kv));
                    assert(entries_map(old_entries).remove(kv) =~= entries_map(old_entries));
                }
                None
            },
        }
    }

    /// The keys, each once, in the order they were first inserted.
    pub fn keys(&self) -> (ks: Vec<K>)
        ensures
            ks.deep_view().no_duplicates(),
            ks.deep_view().to_set() == self@.dom(),
    {
        proof {
            use_type_invariant(self);
            lemma_entries_map(self.entries@);
        }
        let mut ks: Vec<K> = Vec::new();
        let mut i: usize = 0;
        while i < self.entries.len()
            invariant
                i <= self.entries@.len(),
                entry_keys(self.entries@).no_duplicates(),
                ks.deep_view() == entry_keys(self.entries@).take(i as int),
            decreases self.entries@.len() - i,
        {
            let k = self.entries[i].0.key_clone();
            let ghost old_ks = ks.deep_view();
            ks.push(k);
            assert(ks.deep_view() =~= old_ks.push(k.deep_view()));
            assert(entry_keys(self.entries@).take(i + 1) =~= entry_keys(self.entries@).take(
                i as int,
            ).push(k.deep_view()));
            i += 1;
        }
        assert(entry_keys(self.entries@).take(i as int) =~= entry_keys(self.entries@));
        ks
    }

    /// The map holding the given entries, inserted in order (a later entry
    /// replaces an earlier one with the same key).
    pub fn from_entries(pairs: Vec<(K, V)>) -> (m: Self)
        ensures
            m@ == entries_map(pairs@),
    {
        let mut m = KeyMap::new();
        let mut rest = pairs;
        let ghost all = rest@;
        let ghost mut taken: Seq<(K, V)> = Seq::empty();
        assert(taken + rest@ =~= all);
        while rest.len() > 0
            invariant
                taken + rest@ == all,
                m@ == entries_map(taken),
            decreases rest@.len(),
        {
            let ghost before = rest@;
            let (k, v) = rest.remove(0);
            let ghost e = (k, v);
            m.insert(k, v);
            proof {
                let t2 = taken.push(e);
                assert(t2.drop_last() =~= taken);
                assert(t2 + rest@ =~= taken + before);
                taken = t2;
            }
        }
        assert(taken =~= all);
        m
    }
}

impl<K: KeyEq, V: DeepView> View for KeyMap<K, V> {
    type V = Map<K::V, V::V>;

    open spec fn view(&self) -> Map<K::V, V::V> {
        self.view_map()
    }
}

impl<K: KeyEq, V: DeepView> DeepView for KeyMap<K, V> {
    type V = Map<K::V, V::V>;

    open spec fn deep_view(&self) -> Map<K::V, V::V> {
        self.view_map()
    }
}

/// Whether `vs` holds a string equal to `s`.
pub fn vec_contains_string(vs: &Vec<String>, s: &String) -> (r: bool)
    ensures
        r == vs.deep_view().contains(s@),
{
    let mut i: usize = 0;
    while i < vs.len()
        invariant
            i <= vs@.len(),
            forall|j: int| 0 <= j < i ==> vs@[j]@ != s@,
        decreases vs@.len() - i,
    {
        if vs[i] == *s {
            assert(vs.deep_view()[i as int] == s@);
            return true;
        }
        i += 1;
    }
    proof {
        if vs.deep_view().contains(s@) {
            let j = choose|j: int| 0 <= j < vs@.len() && vs.deep_view()[j] == s@;
            assert(vs@[j]@ == s@);
        }
    }
    false
}

/// A finite set with distinct elements, viewed as a `Set`.
pub struct KeySet<K: KeyEq> {
    items: Vec<K>,
}

impl<K: KeyEq> KeySet<K> {
    /// The elements are distinct.
    #[verifier::type_invariant]
    closed spec fn inv(self) -> bool {
        self.items.deep_view().no_duplicates()
    }

    /// The set this value stands for.
    pub closed spec fn view_set(self) -> Set<K::V> {
        self.items.deep_view().to_set()
    }

    /// An empty set.
    pub fn new() -> (s: Self)
        ensures
            s@ == Set::<K::V>::empty(),
    {
        let s = KeySet { items: Vec::new() };
        assert(s.items.deep_view() =~= Seq::<K::V>::empty());
        assert(s@ =~= Set::<K::V>::empty());
        s
    }

    /// Whether `key` is an element.
    pub fn contains(&self, key: &K) -> (r: bool)
        ensures
            r == self@.contains(key.deep_view()),
    {
        let mut i: usize = 0;
        while i < self.items.len()
            invariant
                i <= self.items@.len(),
                forall|j: int| 0 <= j < i ==> self.items@[j].deep_view() != key.deep_view(),
            decreases self.items@.len() - i,
        {
            if self.items[i].key_eq(key) {
                assert(self.items.deep_view()[i as int] == key.deep_view());
                return true;
            }
            i += 1;
        }
        proof {
            if self.items.deep_view().contains(key.deep_view()) {
                let j = choose|j: int|
                    0 <= j < self.items@.len() && self.items.deep_view()[j] == key.deep_view();
                assert(self.items@[j].deep_view() == key.deep_view());
            }
        }
        false
    }

    /// Adds `key`.
    pub fn insert(&mut self, key: K)
        ensures
            final(self)@ == old(self)@.insert(key.deep_view()),
    {
        proof {
            use_type_invariant(&*self);
        }
        if self.contains(&key) {
            assert(self@.insert(key.deep_view()) =~= self@);
            return ;
        }
        let mut items = Vec::new();
        std::mem::swap(&mut items, &mut self.items);
        let ghost old_items = items.deep_view();
        items.push(key);
        proof {
            assert(items.deep_view() =~= old_items.push(key.deep_view()));
            assert(items.deep_view().no_duplicates()) by {
                assert forall|a: int, b: int|
                    0 <= a < items@.len() && 0 <= b < items@.len() && a != b implies items.deep_view()[a]
                    != items.deep_view()[b] by {
                    if a == items@.len() - 1 {
                        assert(old_items[b] == items.deep_view()[b]);
                    } else if b == items@.len() - 1 {
                        assert(old_items[a] == items.deep_view()[a]);
                    }
                }
            }
            old_items.lemma_push_to_set_commute(key.deep_view());
        }
        self.items = items;
    }

    /// The set has finitely many elements.
    pub proof fn lemma_finite(self)
        ensures
            self@.finite(),
    {
        vstd::seq_lib::seq_to_set_is_finite(self.items.deep_view());
    }

    /// Number of elements.
    pub fn len(&self) -> (n: usize)
        ensures
            n == self@.len(),
            self@.finite(),
    {
        proof {
            vstd::seq_lib::seq_to_set_is_finite(self.items.deep_view());
            use_type_invariant(self);
            self.items.deep_view().unique_seq_to_set();
        }
        self.items.len()
    }

    /// The set holding the given elements.
    pub fn from_vec(v: Vec<K>) -> (s: Self)
        ensures
            s@ == v.deep_view().to_set(),
    {
        let mut s = KeySet::new();
        let mut i: usize = 0;
        while i < v.len()
            invariant
                i <= v@.len(),
                s@ == v.deep_view().take(i as int).to_set(),
            decreases v@.len() - i,
        {
            let k = v[i].key_clone();
            s.insert(k);
            assert(v.deep_view().take(i + 1) =~= v.deep_view().take(i as int).push(
                v@[i as int].deep_view(),
            ));
            proof {
                v.deep_view().take(i as int).lemma_push_to_set_commute(v@[i as int].deep_view());
            }
            i += 1;
        }
        assert(v.deep_view().take(i as int) =~= v.deep_view());
        s
    }
}

impl<K: KeyEq> View for KeySet<K> {
    type V = Set<K::V>;

    open spec fn view(&self) -> Set<K::V> {
        self.view_set()
    }
}

} // verus!
