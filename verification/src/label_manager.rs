//! Label sets kept per process name, merged with a set of default labels.

use crate::keyed_map::KeyedMap;
use crate::label::{merged, selects, LabelSelector, LabelSet};
use vstd::prelude::*;

verus! {

/// The labels a process ends up with: the defaults, plus those of its own
/// labels whose keys the defaults lack (the defaults win on shared keys).
pub open spec fn effective_labels(
    defaults: Map<Seq<char>, Seq<char>>,
    own: Option<Map<Seq<char>, Seq<char>>>,
) -> Map<Seq<char>, Seq<char>> {
    match own {
        Some(l) => merged(defaults, l),
        None => defaults,
    }
}

/// Whether a process's labels, merged with the defaults, are picked by the
/// selector.
pub open spec fn picked(
    store: Map<Seq<char>, Map<Seq<char>, Seq<char>>>,
    defaults: Map<Seq<char>, Seq<char>>,
    selector: Map<Seq<char>, Seq<char>>,
) -> spec_fn(Seq<char>) -> bool {
    |p: Seq<char>| store.contains_key(p) && selects(selector, merged(defaults, store[p]))
}

/// Label sets by process name.
pub struct LabelManager {
    store: KeyedMap<String, LabelSet>,
    defaults: LabelSet,
}

impl LabelManager {
    /// [`LabelManager::find_matching`] names each process whose effective
    /// labels the selector `selector` picks, and only those, each once.
    pub proof fn lemma_matching_listing(&self, selector: Map<Seq<char>, Seq<char>>)
        requires
            self.wf(),
        ensures
            self.spec_processes().filter(picked(self.spec_store(), self.spec_defaults(), selector)).no_duplicates(),
            forall|p: Seq<char>|
                #[trigger] self.spec_processes().filter(
                    picked(self.spec_store(), self.spec_defaults(), selector),
                ).contains(p) <==> (self.spec_store().contains_key(p) && selects(
                    selector,
                    merged(self.spec_defaults(), self.spec_store()[p]),
                )),
    {
        self.lemma_key_order();
        crate::keyed_map::lemma_filter_unique(
            self.spec_processes(),
            picked(self.spec_store(), self.spec_defaults(), selector),
        );
    }

    /// The process names list each key of the map exactly once: they hold no
    /// duplicate, and as a set they are the map's keys, of which there are
    /// finitely many.
    pub proof fn lemma_key_order(&self)
        requires
            self.wf(),
        ensures
            self.spec_processes().no_duplicates(),
            self.spec_processes().to_set() == self.spec_store().dom(),
            self.spec_store().dom().finite(),
            self.spec_processes().len() == self.spec_store().len(),
            forall|k: Seq<char>| #[trigger] self.spec_store().contains_key(k) <==> self.spec_processes().contains(k),
    {
        self.store.lemma_entries();
        assert(self.spec_store().dom() =~= self.store@.dom());
    }

    /// The label sets, by process name.
    pub closed spec fn spec_store(&self) -> Map<Seq<char>, Map<Seq<char>, Seq<char>>> {
        self.store@.map_values(|l: LabelSet| l@)
    }

    /// The process names, in the order they were first given labels.
    pub closed spec fn spec_processes(&self) -> Seq<Seq<char>> {
        self.store.keys()
    }

    /// The default labels.
    pub closed spec fn spec_defaults(&self) -> Map<Seq<char>, Seq<char>> {
        self.defaults@
    }

    /// The labels of `process`, if it has its own.
    pub open spec fn own_labels(&self, process: Seq<char>) -> Option<Map<Seq<char>, Seq<char>>> {
        if self.spec_store().contains_key(process) {
            Some(self.spec_store()[process])
        } else {
            None
        }
    }

    pub closed spec fn wf(&self) -> bool {
        &&& self.store.wf()
        &&& self.defaults.wf()
        &&& forall|i: int| 0 <= i < self.store.vals().len() ==> (#[trigger] self.store.vals()[i]).wf()
    }

    /// A manager with the given defaults and no process labels.
    pub fn new(defaults: LabelSet) -> (r: Self)
        requires
            defaults.wf(),
        ensures
            r.wf(),
            r.spec_defaults() == defaults@,
            r.spec_store() == Map::<Seq<char>, Map<Seq<char>, Seq<char>>>::empty(),
    {
        let r = LabelManager { store: KeyedMap::new(), defaults };
        proof {
            assert(r.spec_store() =~= Map::<Seq<char>, Map<Seq<char>, Seq<char>>>::empty());
        }
        r
    }

    /// Gives `process` the labels `labels`, replacing any it had.
    pub fn set_labels(&mut self, process: &str, labels: LabelSet)
        requires
            old(self).wf(),
            labels.wf(),
        ensures
            final(self).wf(),
            final(self).spec_defaults() == old(self).spec_defaults(),
            final(self).spec_store() == old(self).spec_store().insert(process@, labels@),
    {
        let ghost lv = labels@;
        self.store.insert(process.to_owned(), labels);
        proof {
            assert forall|i: int| 0 <= i < self.store.vals().len() implies (
            #[trigger] self.store.vals()[i]).wf() by {
                if i < old(self).store.vals().len() && old(self).store.keys().contains(process@) {
                    if i != old(self).store.keys().index_of(process@) {
                        assert(self.store.vals()[i] == old(self).store.vals()[i]);
                    }
                } else if i < old(self).store.vals().len() {
                    assert(self.store.vals()[i] == old(self).store.vals()[i]);
                }
            }
            assert(self.spec_store() =~= old(self).spec_store().insert(process@, lv));
        }
    }

    /// The labels of `process` merged with the defaults (see
    /// [`effective_labels`]).
    pub fn get_labels(&self, process: &str) -> (r: LabelSet)
        requires
            self.wf(),
        ensures
            r.wf(),
            r@ == effective_labels(self.spec_defaults(), self.own_labels(process@)),
    {
        proof {
            self.store.lemma_entries();
        }
        let mut merged_set = self.defaults.duplicate();
        match self.store.get(process) {
            Some(specific) => {
                proof {
                    let j = self.store.keys().index_of(process@);
                    assert(self.store.keys().contains(process@));
                    assert(self.store.keys()[j] == process@);
                    assert(specific.wf());
                }
                merged_set.merge(specific);
            },
            None => {},
        }
        merged_set
    }

    /// Removes the labels of `process` and hands them back.
    pub fn remove(&mut self, process: &str) -> (r: Option<LabelSet>)
        requires
            old(self).wf(),
        ensures
            final(self).wf(),
            final(self).spec_defaults() == old(self).spec_defaults(),
            final(self).spec_store() == old(self).spec_store().remove(process@),
            match r {
                Some(l) => old(self).spec_store().contains_key(process@) && l@ == old(self).spec_store()[process@],
                None => !old(self).spec_store().contains_key(process@),
            },
    {
        let r = self.store.remove(process);
        proof {
            if old(self).store.keys().contains(process@) {
                let idx = old(self).store.keys().index_of(process@);
                assert forall|j: int| 0 <= j < self.store.vals().len() implies (
                #[trigger] self.store.vals()[j]).wf() by {
                    if j < idx {
                        assert(self.store.vals()[j] == old(self).store.vals()[j]);
                    } else {
                        assert(self.store.vals()[j] == old(self).store.vals()[j + 1]);
                    }
                }
            }
            assert(self.spec_store() =~= old(self).spec_store().remove(process@));
        }
        r
    }

    /// The processes whose labels, merged with the defaults, the selector
    /// picks, in the order they were first given labels.
    pub fn find_matching(&self, selector: &LabelSelector) -> (r: Vec<&str>)
        requires
            self.wf(),
            selector.wf(),
        ensures
            r@.map_values(|s: &str| s@) == self.spec_processes().filter(
                picked(self.spec_store(), self.spec_defaults(), selector@),
            ),
    {
        proof {
            self.store.lemma_entries();
        }
        let ghost pred = picked(self.spec_store(), self.spec_defaults(), selector@);
        let mut out: Vec<&str> = Vec::new();
        let n = self.store.len();
        let mut i: usize = 0;
        while i < n
            invariant
                self.wf(),
                selector.wf(),
                n == self.store.keys().len(),
                i <= n,
                pred == picked(self.spec_store(), self.spec_defaults(), selector@),
                out@.map_values(|s: &str| s@) == self.spec_processes().take(i as int).filter(pred),
            decreases n - i,
        {
            proof {
                self.store.lemma_entries();
                assert(self.spec_processes().take(i + 1) =~= self.spec_processes().take(i as int).push(
                    self.spec_processes()[i as int],
                ));
                self.spec_processes().take(i as int).lemma_filter_push(self.spec_processes()[i as int], pred);
            }
            let name = self.store.key_at(i);
            let labels = self.store.value_at(i);
            let mut merged_set = self.defaults.duplicate();
            merged_set.merge(labels);
            let ghost before = out@;
            if merged_set.matches(selector) {
                out.push(name.as_str());
                proof {
                    assert(out@.map_values(|s: &str| s@) =~= before.map_values(|s: &str| s@).push(
                        self.spec_processes()[i as int],
                    ));
                }
            }
            i = i + 1;
        }
        proof {
            assert(self.spec_processes().take(n as int) =~= self.spec_processes());
        }
        out
    }

    /// The number of processes with their own labels.
    pub fn process_count(&self) -> (r: usize)
        requires
            self.wf(),
        ensures
            r == self.spec_store().len(),
    {
        proof {
            self.store.lemma_entries();
            assert(self.spec_store().dom() =~= self.store@.dom());
        }
        self.store.len()
    }
}

/// Default labels always show through: every default label is among the
/// effective labels of every process, with its default value.
pub proof fn lemma_defaults_prevail(
    defaults: Map<Seq<char>, Seq<char>>,
    own: Option<Map<Seq<char>, Seq<char>>>,
)
    ensures
        defaults.submap_of(effective_labels(defaults, own)),
{
}

} // verus!
