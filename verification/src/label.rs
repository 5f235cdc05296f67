//! Key-value labels attached to processes or alerts, and selectors that pick
//! label sets holding given pairs.

use crate::keyed_map::KeyedMap;
use vstd::prelude::*;

verus! {

/// The texts of a map of strings.
pub open spec fn texts(m: Map<Seq<char>, String>) -> Map<Seq<char>, Seq<char>> {
    m.map_values(|s: String| s@)
}

/// The texts of a map have the same keys, each with its string's text.
pub proof fn lemma_texts(m: Map<Seq<char>, String>)
    ensures
        texts(m).dom() == m.dom(),
        texts(m).len() == m.len(),
        forall|k: Seq<char>| #[trigger] m.contains_key(k) ==> texts(m)[k] == m[k]@,
{
    assert(texts(m).dom() =~= m.dom());
}

/// Whether `labels` holds every pair that `required` asks for.
pub open spec fn selects(required: Map<Seq<char>, Seq<char>>, labels: Map<Seq<char>, Seq<char>>) -> bool {
    forall|k: Seq<char>| #[trigger]
        required.contains_key(k) ==> labels.contains_key(k) && labels[k] == required[k]
}

/// `base` with the pairs of `extra` added whose keys `base` lacks; the pairs
/// of `base` are never overwritten.
pub open spec fn merged(base: Map<Seq<char>, Seq<char>>, extra: Map<Seq<char>, Seq<char>>) -> Map<
    Seq<char>,
    Seq<char>,
> {
    extra.union_prefer_right(base)
}

/// A set of labels: at most one value per key.
#[derive(Debug, Clone)]
pub struct LabelSet {
    labels: KeyedMap<String, String>,
}

impl View for LabelSet {
    type V = Map<Seq<char>, Seq<char>>;

    closed spec fn view(&self) -> Map<Seq<char>, Seq<char>> {
        texts(self.labels@)
    }
}

impl LabelSet {
    /// The keys, in the order they were first set.
    pub closed spec fn spec_keys(&self) -> Seq<Seq<char>> {
        self.labels.keys()
    }

    pub closed spec fn wf(&self) -> bool {
        self.labels.wf()
    }

    /// The set's keys are those of its entries, one per entry.
    pub proof fn lemma_keys_dom(&self)
        requires
            self.wf(),
        ensures
            self@.dom() == self.spec_keys().to_set(),
    {
        self.labels.lemma_entries();
        lemma_texts(self.labels@);
    }

    /// The set holds as many labels as it has entries.
    pub proof fn lemma_len_keys(&self)
        requires
            self.wf(),
        ensures
            self@.len() == self.spec_keys().len(),
    {
        self.labels.lemma_entries();
        lemma_texts(self.labels@);
    }

    /// An empty set.
    pub fn new() -> (r: Self)
        ensures
            r.wf(),
            r@ == Map::<Seq<char>, Seq<char>>::empty(),
    {
        let r = LabelSet { labels: KeyedMap::new() };
        proof {
            assert(r@ =~= Map::<Seq<char>, Seq<char>>::empty());
        }
        r
    }

    /// The set holding the pairs of `map`.
    pub fn from_map(map: KeyedMap<String, String>) -> (r: Self)
        requires
            map.wf(),
        ensures
            r.wf(),
            r@ == texts(map@),
    {
        LabelSet { labels: map }
    }

    /// Sets `key` to `value`.
    pub fn insert(&mut self, key: &str, value: &str)
        requires
            old(self).wf(),
        ensures
            final(self).wf(),
            final(self)@ == old(self)@.insert(key@, value@),
    {
        self.labels.insert(key.to_owned(), value.to_owned());
        proof {
            assert(self@ =~= old(self)@.insert(key@, value@));
        }
    }

    /// The value of `key`, if set.
    pub fn get(&self, key: &str) -> (r: Option<&str>)
        requires
            self.wf(),
        ensures
            match r {
                Some(v) => self@.contains_key(key@) && v@ == self@[key@],
                None => !self@.contains_key(key@),
            },
    {
        match self.labels.get(key) {
            Some(v) => Some(v.as_str()),
            None => None,
        }
    }

    /// Removes `key` and hands back its value.
    pub fn remove(&mut self, key: &str) -> (r: Option<String>)
        requires
            old(self).wf(),
        ensures
            final(self).wf(),
            final(self)@ == old(self)@.remove(key@),
            match r {
                Some(v) => old(self)@.contains_key(key@) && v@ == old(self)@[key@],
                None => !old(self)@.contains_key(key@),
            },
    {
        let r = self.labels.remove(key);
        proof {
            assert(self@ =~= old(self)@.remove(key@));
        }
        r
    }

    /// Whether `key` is set.
    pub fn contains_key(&self, key: &str) -> (r: bool)
        requires
            self.wf(),
        ensures
            r == self@.contains_key(key@),
    {
        self.labels.contains_key(key)
    }

    /// Whether `selector` picks this set.
    pub fn matches(&self, selector: &LabelSelector) -> (r: bool)
        requires
            self.wf(),
            selector.wf(),
        ensures
            r == selects(selector@, self@),
    {
        selector.matches(self)
    }

    /// The number of labels.
    pub fn len(&self) -> (r: usize)
        requires
            self.wf(),
        ensures
            r == self@.len(),
    {
        proof {
            self.labels.lemma_entries();
            lemma_texts(self.labels@);
        }
        self.labels.len()
    }

    /// Whether no label is set.
    pub fn is_empty(&self) -> (r: bool)
        requires
            self.wf(),
        ensures
            r == (self@.len() == 0),
    {
        self.len() == 0
    }

    /// The (key, value) pairs, in the order the keys were first set.
    pub fn iter(&self) -> (r: Vec<(&String, &String)>)
        requires
            self.wf(),
        ensures
            r@.map_values(|p: (&String, &String)| p.0@) == self.spec_keys(),
            forall|j: int| 0 <= j < r@.len() ==> self@[#[trigger] r@[j].0@] == r@[j].1@,
    {
        proof {
            self.labels.lemma_entries();
        }
        let mut out: Vec<(&String, &String)> = Vec::new();
        let n = self.labels.len();
        let mut i: usize = 0;
        while i < n
            invariant
                self.wf(),
                n == self.labels.keys().len(),
                i <= n,
                out@.map_values(|p: (&String, &String)| p.0@) == self.spec_keys().take(i as int),
                forall|j: int| 0 <= j < out@.len() ==> self@[#[trigger] out@[j].0@] == out@[j].1@,
            decreases n - i,
        {
            proof {
                self.labels.lemma_entries();
            }
            let k = self.labels.key_at(i);
            let v = self.labels.value_at(i);
            let ghost before = out@;
            out.push((k, v));
            proof {
                lemma_texts(self.labels@);
                assert(out@.map_values(|p: (&String, &String)| p.0@) =~= before.map_values(
                    |p: (&String, &String)| p.0@,
                ).push(k@));
                assert(self.spec_keys().take(i + 1) =~= self.spec_keys().take(i as int).push(k@));
                assert(self.labels@.contains_key(k@));
                assert(self@[k@] == v@);
                assert forall|j: int| 0 <= j < out@.len() implies self@[#[trigger] out@[j].0@] == out@[j].1@ by {
                    if j < before.len() {
                        assert(out@[j] == before[j]);
                    }
                }
            }
            i = i + 1;
        }
        proof {
            assert(self.spec_keys().take(n as int) =~= self.spec_keys());
        }
        out
    }

    /// Adds the labels of `other` whose keys are not set here; labels already
    /// set keep their values.
    pub fn merge(&mut self, other: &LabelSet)
        requires
            old(self).wf(),
            other.wf(),
        ensures
            final(self).wf(),
            final(self)@ == merged(old(self)@, other@),
    {
        proof {
            other.labels.lemma_entries();
        }
        let n = other.labels.len();
        let mut i: usize = 0;
        while i < n
            invariant
                self.wf(),
                other.wf(),
                n == other.labels.keys().len(),
                i <= n,
                forall|k: Seq<char>| #[trigger]
                    self@.contains_key(k) <==> old(self)@.contains_key(k) || other.labels.keys().take(
                        i as int,
                    ).contains(k),
                forall|k: Seq<char>| #[trigger]
                    self@.contains_key(k) ==> self@[k] == if old(self)@.contains_key(k) {
                        old(self)@[k]
                    } else {
                        other@[k]
                    },
            decreases n - i,
        {
            proof {
                other.labels.lemma_entries();
                self.labels.lemma_entries();
                assert(other.labels.keys().take(i + 1) =~= other.labels.keys().take(i as int).push(
                    other.labels.keys()[i as int],
                ));
            }
            let k = other.labels.key_at(i);
            let ghost prev = self@;
            proof {
                lemma_texts(self.labels@);
                lemma_texts(other.labels@);
                assert(other@[k@] == other.labels.vals()[i as int]@);
            }
            if !self.labels.has_key(k) {
                let v = other.labels.value_at(i);
                self.labels.insert(k.clone(), v.clone());
                proof {
                    lemma_texts(self.labels@);
                    assert(self@ =~= prev.insert(k@, v@));
                }
            }
            proof {
                let t0 = other.labels.keys().take(i as int);
                let t1 = other.labels.keys().take(i + 1);
                assert(t1 =~= t0.push(k@));
                assert forall|x: Seq<char>| #[trigger] t1.contains(x) <==> t0.contains(x) || x == k@ by {
                    if t1.contains(x) && x != k@ {
                        let j = choose|j: int| 0 <= j < t1.len() && t1[j] == x;
                        assert(t0[j] == x);
                    }
                    if x == k@ {
                        assert(t1[i as int] == x);
                    }
                }
            }
            i = i + 1;
        }
        proof {
            other.labels.lemma_entries();
            assert(other.labels.keys().take(n as int) =~= other.labels.keys());
            assert(self@ =~= merged(old(self)@, other@));
        }
    }

    /// A copy of the set.
    pub fn duplicate(&self) -> (r: LabelSet)
        requires
            self.wf(),
        ensures
            r.wf(),
            r@ == self@,
    {
        let mut r = LabelSet::new();
        r.merge(self);
        proof {
            assert(r@ =~= self@);
        }
        r
    }
}

impl Default for LabelSet {
    fn default() -> (r: Self)
        ensures
            r.wf(),
            r@ == Map::<Seq<char>, Seq<char>>::empty(),
    {
        Self::new()
    }
}

/// Picks the label sets that hold all of its required pairs.
#[derive(Debug, Clone)]
pub struct LabelSelector {
    required: KeyedMap<String, String>,
}

impl View for LabelSelector {
    type V = Map<Seq<char>, Seq<char>>;

    closed spec fn view(&self) -> Map<Seq<char>, Seq<char>> {
        texts(self.required@)
    }
}

impl LabelSelector {
    pub closed spec fn wf(&self) -> bool {
        self.required.wf()
    }

    /// A selector that requires nothing (it picks every set).
    pub fn new() -> (r: Self)
        ensures
            r.wf(),
            r@ == Map::<Seq<char>, Seq<char>>::empty(),
    {
        let r = LabelSelector { required: KeyedMap::new() };
        proof {
            assert(r@ =~= Map::<Seq<char>, Seq<char>>::empty());
        }
        r
    }

    /// The selector that also requires `key` to be `value`.
    pub fn require(self, key: &str, value: &str) -> (r: Self)
        requires
            self.wf(),
        ensures
            r.wf(),
            r@ == self@.insert(key@, value@),
    {
        let mut s = self;
        s.required.insert(key.to_owned(), value.to_owned());
        proof {
            assert(s@ =~= self@.insert(key@, value@));
        }
        s
    }

    /// Whether `labels` holds every required pair.
    pub fn matches(&self, labels: &LabelSet) -> (r: bool)
        requires
            self.wf(),
            labels.wf(),
        ensures
            r == selects(self@, labels@),
    {
        proof {
            self.required.lemma_entries();
        }
        let n = self.required.len();
        let mut i: usize = 0;
        while i < n
            invariant
                self.wf(),
                labels.wf(),
                n == self.required.keys().len(),
                i <= n,
                forall|j: int|
                    0 <= j < i ==> labels@.contains_key(#[trigger] self.required.keys()[j])
                        && labels@[self.required.keys()[j]] == self@[self.required.keys()[j]],
            decreases n - i,
        {
            proof {
                self.required.lemma_entries();
            }
            let k = self.required.key_at(i);
            let v = self.required.value_at(i);
            proof {
                lemma_texts(self.required@);
                assert(self@.contains_key(k@));
                assert(self@[k@] == v@);
            }
            match labels.get(k.as_str()) {
                Some(found) => {
                    let want = v.as_str();
                    if !crate::text::same_text(found, want) {
                        return false;
                    }
                },
                None => {
                    return false;
                },
            }
            i = i + 1;
        }
        proof {
            lemma_texts(self.required@);
            assert forall|k: Seq<char>| #[trigger] self@.contains_key(k) implies labels@.contains_key(k)
                && labels@[k] == self@[k] by {
                assert(self.required.keys().contains(k));
                let j = self.required.keys().index_of(k);
                assert(self.required.keys()[j] == k);
            }
        }
        true
    }

    /// Whether nothing is required.
    pub fn is_empty(&self) -> (r: bool)
        requires
            self.wf(),
        ensures
            r == (self@.len() == 0),
    {
        proof {
            self.required.lemma_entries();
            lemma_texts(self.required@);
        }
        self.required.is_empty()
    }
}

impl Default for LabelSelector {
    fn default() -> (r: Self)
        ensures
            r.wf(),
            r@ == Map::<Seq<char>, Seq<char>>::empty(),
    {
        Self::new()
    }
}

/// The empty selector picks every label set.
pub proof fn lemma_empty_selector_selects_all(labels: Map<Seq<char>, Seq<char>>)
    ensures
        selects(Map::<Seq<char>, Seq<char>>::empty(), labels),
{
}

/// A set picked by a selector is picked by every selector that requires
/// fewer pairs.
pub proof fn lemma_selects_weaker(
    required: Map<Seq<char>, Seq<char>>,
    fewer: Map<Seq<char>, Seq<char>>,
    labels: Map<Seq<char>, Seq<char>>,
)
    requires
        selects(required, labels),
        fewer.submap_of(required),
    ensures
        selects(fewer, labels),
{
    assert forall|k: Seq<char>| #[trigger] fewer.contains_key(k) implies labels.contains_key(k) && labels[k]
        == fewer[k] by {
        assert(required.contains_key(k));
    }
}

/// Merging never overwrites a label that is already set, merging the same
/// labels twice changes nothing more, and the result holds every key of
/// both.
pub proof fn lemma_merge_laws(base: Map<Seq<char>, Seq<char>>, extra: Map<Seq<char>, Seq<char>>)
    ensures
        base.submap_of(merged(base, extra)),
        merged(merged(base, extra), extra) == merged(base, extra),
        merged(base, extra).dom() == base.dom().union(extra.dom()),
{
    assert(merged(merged(base, extra), extra) =~= merged(base, extra));
    assert(merged(base, extra).dom() =~= base.dom().union(extra.dom()));
}

} // verus!
