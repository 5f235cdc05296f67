//! A small verified association map: keys are kept in insertion order, each
//! key at most once, and the map is modelled as a `Map` over key views.

use vstd::prelude::*;

verus! {

/// Keys that a [`KeyedMap`] can hold. Every key has a mathematical view, and
/// two keys name the same entry exactly when their views are equal.
pub trait MapKey: Sized {
    type KeyView;

    spec fn key_view(&self) -> Self::KeyView;

    fn same_key(&self, other: &Self) -> (r: bool)
        ensures
            r == (self.key_view() == other.key_view()),
    ;
}

impl MapKey for String {
    type KeyView = Seq<char>;

    open spec fn key_view(&self) -> Seq<char> {
        self@
    }

    fn same_key(&self, other: &Self) -> (r: bool) {
        *self == *other
    }
}

impl MapKey for u32 {
    type KeyView = u32;

    open spec fn key_view(&self) -> u32 {
        *self
    }

    fn same_key(&self, other: &Self) -> (r: bool) {
        *self == *other
    }
}

/// An association map whose entries keep the order in which their keys were
/// first inserted. Each key occurs at most once.
#[derive(Debug, Clone)]
pub struct KeyedMap<K: MapKey, T> {
    ks: Vec<K>,
    vs: Vec<T>,
}

impl<K: MapKey, T> KeyedMap<K, T> {
    /// The views of the keys, in entry order.
    pub closed spec fn keys(&self) -> Seq<K::KeyView> {
        self.ks@.map_values(|k: K| k.key_view())
    }

    /// The values, in entry order (the value at index `i` belongs to `keys()[i]`).
    pub closed spec fn vals(&self) -> Seq<T> {
        self.vs@
    }

    /// Keys are distinct and there is one value per key.
    pub open spec fn wf(&self) -> bool {
        &&& self.keys().no_duplicates()
        &&& self.keys().len() == self.vals().len()
    }

    /// The map that the entries stand for.
    pub open spec fn as_map(&self) -> Map<K::KeyView, T> {
        Map::new(
            |k: K::KeyView| self.keys().contains(k),
            |k: K::KeyView| self.vals()[self.keys().index_of(k)],
        )
    }

    /// Relates the map view to the entries: the key at each index is in the
    /// map with the value at that index, and nothing else is.
    pub proof fn lemma_entries(&self)
        requires
            self.wf(),
        ensures
            forall|i: int|
                #![trigger self.keys()[i]]
                0 <= i < self.keys().len() ==> self@.contains_key(self.keys()[i]) && self@[self.keys()[i]]
                    == self.vals()[i],
            forall|k: K::KeyView| #[trigger] self@.contains_key(k) <==> self.keys().contains(k),
            self@.dom() == self.keys().to_set(),
            self@.dom().finite(),
            self@.len() == self.keys().len(),
    {
        assert forall|i: int| #![trigger self.keys()[i]] 0 <= i < self.keys().len() implies self@.contains_key(
            self.keys()[i],
        ) && self@[self.keys()[i]] == self.vals()[i] by {
            let k = self.keys()[i];
            assert(self.keys().contains(k));
            let j = self.keys().index_of(k);
            assert(self.keys()[j] == k);
        }
        assert(self@.dom() =~= self.keys().to_set());
        self.keys().unique_seq_to_set();
        vstd::seq_lib::seq_to_set_is_finite(self.keys());
    }

    /// An empty map.
    pub fn new() -> (m: Self)
        ensures
            m.wf(),
            m@ == Map::<K::KeyView, T>::empty(),
            m.keys() == Seq::<K::KeyView>::empty(),
            m.vals() == Seq::<T>::empty(),
    {
        let m = KeyedMap { ks: Vec::new(), vs: Vec::new() };
        assert(m.keys() =~= Seq::<K::KeyView>::empty());
        assert(m@ =~= Map::<K::KeyView, T>::empty());
        m
    }

    /// Number of entries.
    pub fn len(&self) -> (n: usize)
        requires
            self.wf(),
        ensures
            n == self.keys().len(),
            n == self@.len(),
    {
        proof {
            self.lemma_entries();
        }
        self.ks.len()
    }

    /// Whether the map has no entries.
    pub fn is_empty(&self) -> (b: bool)
        requires
            self.wf(),
        ensures
            b == (self.keys().len() == 0),
            b == (self@.len() == 0),
    {
        self.len() == 0
    }

    /// The index of the entry whose key is `k`, if there is one.
    pub fn position(&self, k: &K) -> (r: Option<usize>)
        requires
            self.wf(),
        ensures
            match r {
                Some(i) => i < self.keys().len() && self.keys()[i as int] == k.key_view(),
                None => !self.keys().contains(k.key_view()),
            },
            r is Some <==> self@.contains_key(k.key_view()),
    {
        proof {
            self.lemma_entries();
        }
        let n = self.ks.len();
        let mut i: usize = 0;
        while i < n
            invariant
                n == self.ks@.len(),
                n == self.keys().len(),
                self.wf(),
                i <= n,
                forall|j: int| 0 <= j < i ==> self.keys()[j] != k.key_view(),
            decreases n - i,
        {
            if self.ks[i].same_key(k) {
                proof {
                    self.lemma_entries();
                    assert(self.keys()[i as int] == k.key_view());
                    assert(self.keys().contains(k.key_view()));
                }
                return Some(i);
            }
            i = i + 1;
        }
        None
    }

    /// Whether some entry has key `k`.
    pub fn has_key(&self, k: &K) -> (b: bool)
        requires
            self.wf(),
        ensures
            b == self@.contains_key(k.key_view()),
    {
        self.position(k).is_some()
    }

    /// The value stored under `k`, if any.
    pub fn lookup(&self, k: &K) -> (r: Option<&T>)
        requires
            self.wf(),
        ensures
            match r {
                Some(v) => self@.contains_key(k.key_view()) && *v == self@[k.key_view()],
                None => !self@.contains_key(k.key_view()),
            },
    {
        proof {
            self.lemma_entries();
        }
        match self.position(k) {
            Some(i) => Some(&self.vs[i]),
            None => None,
        }
    }

    /// The key of the entry at index `i`.
    pub fn key_at(&self, i: usize) -> (r: &K)
        requires
            self.wf(),
            i < self.keys().len(),
        ensures
            r.key_view() == self.keys()[i as int],
    {
        &self.ks[i]
    }

    /// The value of the entry at index `i`.
    pub fn value_at(&self, i: usize) -> (r: &T)
        requires
            self.wf(),
            i < self.keys().len(),
        ensures
            *r == self.vals()[i as int],
    {
        &self.vs[i]
    }

    /// Stores `v` under `k`: an existing entry keeps its place and gets the
    /// new value, a new key is appended.
    pub fn insert(&mut self, k: K, v: T)
        requires
            old(self).wf(),
        ensures
            final(self).wf(),
            final(self)@ == old(self)@.insert(k.key_view(), v),
            old(self).keys().contains(k.key_view()) ==> {
                &&& final(self).keys() == old(self).keys()
                &&& final(self).vals() == old(self).vals().update(
                    old(self).keys().index_of(k.key_view()),
                    v,
                )
            },
            !old(self).keys().contains(k.key_view()) ==> {
                &&& final(self).keys() == old(self).keys().push(k.key_view())
                &&& final(self).vals() == old(self).vals().push(v)
            },
    {
        proof {
            self.lemma_entries();
        }
        let ghost kv = k.key_view();
        match self.position(&k) {
            Some(i) => {
                proof {
                    assert(self.keys().contains(kv));
                    let j = self.keys().index_of(kv);
                    assert(self.keys()[j] == kv);
                    assert(j == i);
                }
                self.vs.set(i, v);
                proof {
                    assert(self.keys() == old(self).keys());
                    self.lemma_entries();
                    old(self).lemma_entries();
                    assert forall|x: K::KeyView| self@.dom().contains(x) implies #[trigger] self@[x] == old(
                        self,
                    )@.insert(kv, v)[x] by {
                        let j = self.keys().index_of(x);
                        assert(self.keys().contains(x));
                        assert(self.keys()[j] == x);
                        if x != kv {
                            assert(j != i);
                            assert(old(self).keys()[j] == x);
                        } else {
                            assert(j == i);
                            assert(self.vals()[j] == v);
                        }
                    }
                    assert(self@.dom() =~= old(self)@.insert(kv, v).dom());
                    assert(self@ =~= old(self)@.insert(kv, v));
                }
            },
            None => {
                self.ks.push(k);
                self.vs.push(v);
                proof {
                    assert(self.keys() =~= old(self).keys().push(kv));
                    assert(self.keys().no_duplicates());
                    self.lemma_entries();
                    old(self).lemma_entries();
                    assert forall|x: K::KeyView| self@.dom().contains(x) implies #[trigger] self@[x] == old(
                        self,
                    )@.insert(kv, v)[x] by {
                        let j = self.keys().index_of(x);
                        assert(self.keys().contains(x));
                        assert(self.keys()[j] == x);
                        if x != kv {
                            assert(j < old(self).keys().len());
                            assert(old(self).keys()[j] == x);
                        }
                    }
                    assert forall|x: K::KeyView| old(self)@.insert(kv, v).dom().contains(x) implies #[trigger] self@.dom().contains(x) by {
                        if x == kv {
                            assert(self.keys()[old(self).keys().len() as int] == kv);
                        } else {
                            let j = choose|j: int| 0 <= j < old(self).keys().len() && old(self).keys()[j] == x;
                            assert(self.keys()[j] == x);
                        }
                    }
                    assert(self@.dom() =~= old(self)@.insert(kv, v).dom());
                    assert(self@ =~= old(self)@.insert(kv, v));
                }
            },
        }
    }

    /// Removes the entry whose key is `k` and hands its value back; the other
    /// entries keep their order.
    pub fn remove_key(&mut self, k: &K) -> (r: Option<T>)
        requires
            old(self).wf(),
        ensures
            final(self).wf(),
            final(self)@ == old(self)@.remove(k.key_view()),
            match r {
                Some(v) => old(self)@.contains_key(k.key_view()) && v == old(self)@[k.key_view()],
                None => !old(self)@.contains_key(k.key_view()),
            },
            old(self).keys().contains(k.key_view()) ==> {
                let i = old(self).keys().index_of(k.key_view());
                &&& final(self).keys() == old(self).keys().remove(i)
                &&& final(self).vals() == old(self).vals().remove(i)
            },
            !old(self).keys().contains(k.key_view()) ==> final(self).keys() == old(self).keys()
                && final(self).vals() == old(self).vals(),
    {
        proof {
            self.lemma_entries();
        }
        match self.position(k) {
            Some(i) => {
                proof {
                    let kv = k.key_view();
                    assert(self.keys().contains(kv));
                    let j = self.keys().index_of(kv);
                    assert(self.keys()[j] == kv);
                    assert(j == i);
                }
                let (_, v) = self.remove_at(i);
                Some(v)
            },
            None => {
                proof {
                    assert(old(self)@.remove(k.key_view()) =~= old(self)@);
                }
                None
            },
        }
    }

    /// Removes the entry at index `i`; the other entries keep their order.
    pub fn remove_at(&mut self, i: usize) -> (r: (K, T))
        requires
            old(self).wf(),
            i < old(self).keys().len(),
        ensures
            final(self).wf(),
            r.0.key_view() == old(self).keys()[i as int],
            r.1 == old(self).vals()[i as int],
            final(self).keys() == old(self).keys().remove(i as int),
            final(self).vals() == old(self).vals().remove(i as int),
            final(self)@ == old(self)@.remove(old(self).keys()[i as int]),
    {
        proof {
            self.lemma_entries();
        }
        let ghost kv = self.keys()[i as int];
        let k = self.ks.remove(i);
        let v = self.vs.remove(i);
        proof {
            assert(self.keys() =~= old(self).keys().remove(i as int));
            assert(self.keys().no_duplicates());
            self.lemma_entries();
            assert forall|x: K::KeyView| #[trigger] self@.contains_key(x) implies old(self)@.remove(
                kv,
            ).contains_key(x) && self@[x] == old(self)@.remove(kv)[x] by {
                let j = self.keys().index_of(x);
                assert(self.keys().contains(x));
                assert(self.keys()[j] == x);
                if j < i {
                    assert(old(self).keys()[j] == x);
                } else {
                    assert(old(self).keys()[j + 1] == x);
                }
            }
            assert forall|x: K::KeyView| #[trigger] old(self)@.remove(kv).contains_key(x) implies self@.contains_key(x) by {
                assert(old(self).keys().contains(x));
                let j = choose|j: int| 0 <= j < old(self).keys().len() && old(self).keys()[j] == x;
                if j < i {
                    assert(self.keys()[j] == x);
                } else {
                    assert(j != i);
                    assert(self.keys()[j - 1] == x);
                }
            }
            assert(self@ =~= old(self)@.remove(kv));
        }
        (k, v)
    }

    /// A mutable handle on the value at index `i`; keys stay as they are.
    pub fn value_at_mut(&mut self, i: usize) -> (r: &mut T)
        requires
            old(self).wf(),
            i < old(self).keys().len(),
        ensures
            final(self).wf(),
            *r == old(self).vals()[i as int],
            final(self).keys() == old(self).keys(),
            final(self).vals() == old(self).vals().update(i as int, *final(r)),
    {
        &mut self.vs[i]
    }

    /// Removes every entry.
    pub fn clear(&mut self)
        requires
            old(self).wf(),
        ensures
            final(self).wf(),
            final(self)@ == Map::<K::KeyView, T>::empty(),
            final(self).keys() == Seq::<K::KeyView>::empty(),
            final(self).vals() == Seq::<T>::empty(),
    {
        self.ks.clear();
        self.vs.clear();
        proof {
            assert(self.keys() =~= Seq::<K::KeyView>::empty());
            assert(self@ =~= Map::<K::KeyView, T>::empty());
        }
    }
}

impl<T> KeyedMap<String, T> {
    /// The value stored under the text `key`, if any.
    pub fn get(&self, key: &str) -> (r: Option<&T>)
        requires
            self.wf(),
        ensures
            match r {
                Some(v) => self@.contains_key(key@) && *v == self@[key@],
                None => !self@.contains_key(key@),
            },
    {
        let k = key.to_owned();
        self.lookup(&k)
    }

    /// Whether some entry has the text `key` as its key.
    pub fn contains_key(&self, key: &str) -> (b: bool)
        requires
            self.wf(),
        ensures
            b == self@.contains_key(key@),
    {
        let k = key.to_owned();
        self.has_key(&k)
    }

    /// Removes the entry whose key is the text `key` and hands its value
    /// back; the other entries keep their order.
    pub fn remove(&mut self, key: &str) -> (r: Option<T>)
        requires
            old(self).wf(),
        ensures
            final(self).wf(),
            final(self)@ == old(self)@.remove(key@),
            match r {
                Some(v) => old(self)@.contains_key(key@) && v == old(self)@[key@],
                None => !old(self)@.contains_key(key@),
            },
            old(self).keys().contains(key@) ==> {
                let i = old(self).keys().index_of(key@);
                &&& final(self).keys() == old(self).keys().remove(i)
                &&& final(self).vals() == old(self).vals().remove(i)
            },
            !old(self).keys().contains(key@) ==> final(self).keys() == old(self).keys()
                && final(self).vals() == old(self).vals(),
    {
        let k = key.to_owned();
        self.remove_key(&k)
    }
}

impl<T> KeyedMap<String, T> {
    /// The index of the entry for the text `key`, inserting `default` under it
    /// first when there is none (`default` is dropped otherwise).
    pub fn slot(&mut self, key: &str, default: T) -> (i: usize)
        requires
            old(self).wf(),
        ensures
            final(self).wf(),
            i < final(self).keys().len(),
            final(self).keys()[i as int] == key@,
            old(self)@.contains_key(key@) ==> final(self).keys() == old(self).keys() && final(self).vals()
                == old(self).vals() && final(self)@ == old(self)@,
            !old(self)@.contains_key(key@) ==> final(self).keys() == old(self).keys().push(key@)
                && final(self).vals() == old(self).vals().push(default) && final(self)@ == old(
                self,
            )@.insert(key@, default),
            final(self)@ == old(self)@.insert(key@, final(self).vals()[i as int]),
    {
        proof {
            self.lemma_entries();
        }
        let k = key.to_owned();
        match self.position(&k) {
            Some(i) => {
                proof {
                    assert(self@ =~= old(self)@.insert(key@, self.vals()[i as int]));
                }
                i
            },
            None => {
                self.insert(k, default);
                self.ks.len() - 1
            },
        }
    }
}

/// Replacing the value at one index of a map's entries is inserting it under
/// that index's key.
pub proof fn lemma_update_at<K: MapKey, T>(m: KeyedMap<K, T>, m2: KeyedMap<K, T>, i: int, v: T)
    requires
        m.wf(),
        0 <= i < m.keys().len(),
        m2.keys() == m.keys(),
        m2.vals() == m.vals().update(i, v),
    ensures
        m2.wf(),
        m2@ == m@.insert(m.keys()[i], v),
{
    m.lemma_entries();
    m2.lemma_entries();
    let kv = m.keys()[i];
    assert forall|x: K::KeyView| m2@.dom().contains(x) implies #[trigger] m2@[x] == m@.insert(kv, v)[x] by {
        let j = m2.keys().index_of(x);
        assert(m2.keys().contains(x));
        assert(m2.keys()[j] == x);
    }
    assert(m2@.dom() =~= m@.insert(kv, v).dom());
    assert(m2@ =~= m@.insert(kv, v));
}

/// The same as [`lemma_update_at`], for every map whose entries are those of
/// `m` with the value at `i` replaced.
pub proof fn lemma_update_at_any<K: MapKey, T>(m: KeyedMap<K, T>, i: int, v: T)
    requires
        m.wf(),
        0 <= i < m.keys().len(),
    ensures
        forall|m2: KeyedMap<K, T>|
            #![trigger m2@]
            m2.keys() == m.keys() && m2.vals() == m.vals().update(i, v) ==> m2.wf() && m2@ == m@.insert(
                m.keys()[i],
                v,
            ),
{
    assert forall|m2: KeyedMap<K, T>|
        #![trigger m2@]
        m2.keys() == m.keys() && m2.vals() == m.vals().update(i, v) implies m2.wf() && m2@ == m@.insert(
            m.keys()[i],
            v,
        ) by {
        lemma_update_at(m, m2, i, v);
    }
}

impl MapKey for (u32, String) {
    type KeyView = (u32, Seq<char>);

    open spec fn key_view(&self) -> (u32, Seq<char>) {
        (self.0, self.1@)
    }

    fn same_key(&self, other: &Self) -> (r: bool) {
        self.0 == other.0 && self.1 == other.1
    }
}

impl<K: MapKey, T> View for KeyedMap<K, T> {
    type V = Map<K::KeyView, T>;

    open spec fn view(&self) -> Map<K::KeyView, T> {
        self.as_map()
    }
}

/// Filtering a sequence without duplicates keeps it without duplicates, and
/// keeps exactly the entries that pass.
pub proof fn lemma_filter_unique<A>(s: Seq<A>, p: spec_fn(A) -> bool)
    requires
        s.no_duplicates(),
    ensures
        s.filter(p).no_duplicates(),
        forall|x: A| #[trigger] s.filter(p).contains(x) <==> s.contains(x) && p(x),
    decreases s.len(),
{
    reveal(Seq::filter);
    if s.len() > 0 {
        let t = s.drop_last();
        assert(t.no_duplicates());
        lemma_filter_unique(t, p);
        let f = t.filter(p);
        assert forall|x: A| #[trigger] s.contains(x) <==> t.contains(x) || x == s.last() by {
            if s.contains(x) {
                let i = choose|i: int| 0 <= i < s.len() && s[i] == x;
                if i < s.len() - 1 {
                    assert(t[i] == x);
                }
            }
            if t.contains(x) {
                let i = choose|i: int| 0 <= i < t.len() && t[i] == x;
                assert(s[i] == x);
            }
            if x == s.last() {
                assert(s[s.len() - 1] == x);
            }
        }
        assert(!t.contains(s.last())) by {
            if t.contains(s.last()) {
                let i = choose|i: int| 0 <= i < t.len() && t[i] == s.last();
                assert(s[i] == s[s.len() - 1]);
            }
        }
        if p(s.last()) {
            let g = f.push(s.last());
            assert(s.filter(p) == g);
            assert forall|x: A| #[trigger] g.contains(x) <==> f.contains(x) || x == s.last() by {
                if g.contains(x) {
                    let i = choose|i: int| 0 <= i < g.len() && g[i] == x;
                    if i < f.len() {
                        assert(f[i] == x);
                    }
                }
                if f.contains(x) {
                    let i = choose|i: int| 0 <= i < f.len() && f[i] == x;
                    assert(g[i] == x);
                }
                if x == s.last() {
                    assert(g[f.len() as int] == x);
                }
            }
            assert forall|i: int, j: int| 0 <= i < g.len() && 0 <= j < g.len() && i != j implies g[i] != g[j] by {
                if i < f.len() && j < f.len() {
                } else if i < f.len() {
                    assert(f.contains(g[i]));
                } else if j < f.len() {
                    assert(f.contains(g[j]));
                }
            }
        } else {
            assert(s.filter(p) == f);
        }
    }
}

} // verus!
