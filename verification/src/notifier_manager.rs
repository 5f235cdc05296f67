//! A set of named notifiers.

use crate::circuit_breaker::{fresh_breaker, CircuitBreaker, CircuitState};
use crate::keyed_map::{KeyedMap, MapKey};
use crate::notifier::Notifier;
use crate::throttle::Throttle;
use crate::time::TimeSpan;
use crate::webhook::WebhookClient;
use vstd::prelude::*;

verus! {

/// The names in `notifiers` whose notifier is healthy.
pub open spec fn names_healthy(notifiers: Map<Seq<char>, Notifier>) -> spec_fn(Seq<char>) -> bool {
    |k: Seq<char>| notifiers.contains_key(k) && notifiers[k].spec_breaker().state == CircuitState::Closed
}

/// Whether `n` is the notifier that [`NotifierManager::register_default`]
/// makes for these settings.
pub open spec fn is_default_notifier(n: Notifier, url: Seq<char>, throttle_secs: u64, failure_threshold: u32) -> bool {
    &&& n.wf()
    &&& n.spec_url() == url
    &&& n.spec_throttle().spec_window() == throttle_secs * 1_000_000_000
    &&& n.spec_throttle().spec_last() == Map::<Seq<char>, u128>::empty()
    &&& n.spec_breaker() == fresh_breaker(failure_threshold as nat, 1, 60_000_000_000)
    &&& n.spec_timeout() == 10_000_000_000
    &&& !n.spec_has_attempt()
}

/// Notifiers by name, in the order the names were first registered.
#[derive(Debug)]
pub struct NotifierManager {
    notifiers: KeyedMap<String, Notifier>,
}

impl NotifierManager {
    /// The names that [`NotifierManager::healthy_count`] counts are each name
    /// whose notifier's breaker is closed, and only those, each once.
    pub proof fn lemma_healthy_listing(&self)
        requires
            self.wf(),
        ensures
            self.spec_names().filter(names_healthy(self.spec_notifiers())).no_duplicates(),
            forall|k: Seq<char>|
                #[trigger] self.spec_names().filter(names_healthy(self.spec_notifiers())).contains(k) <==> (
                self.spec_notifiers().contains_key(k) && self.spec_notifiers()[k].spec_breaker().state
                    == CircuitState::Closed),
    {
        self.lemma_key_order();
        crate::keyed_map::lemma_filter_unique(self.spec_names(), names_healthy(self.spec_notifiers()));
    }

    /// The names list each key of the map exactly once: they hold no
    /// duplicate, and as a set they are the map's keys, of which there are
    /// finitely many.
    pub proof fn lemma_key_order(&self)
        requires
            self.wf(),
        ensures
            self.spec_names().no_duplicates(),
            self.spec_names().to_set() == self.spec_notifiers().dom(),
            self.spec_notifiers().dom().finite(),
            self.spec_names().len() == self.spec_notifiers().len(),
            forall|k: Seq<char>| #[trigger] self.spec_notifiers().contains_key(k) <==> self.spec_names().contains(k),
    {
        self.notifiers.lemma_entries();
        assert(self.spec_notifiers().dom() =~= self.notifiers@.dom());
    }

    /// The notifiers, by name.
    pub closed spec fn spec_notifiers(&self) -> Map<Seq<char>, Notifier> {
        self.notifiers@
    }

    /// The names, in the order they were first registered.
    pub closed spec fn spec_names(&self) -> Seq<Seq<char>> {
        self.notifiers.keys()
    }

    pub closed spec fn wf(&self) -> bool {
        &&& self.notifiers.wf()
        &&& forall|i: int| 0 <= i < self.notifiers.vals().len() ==> (#[trigger] self.notifiers.vals()[i]).wf()
    }

    /// A manager with no notifiers.
    pub fn new() -> (r: Self)
        ensures
            r.wf(),
            r.spec_notifiers() == Map::<Seq<char>, Notifier>::empty(),
            r.spec_names() == Seq::<Seq<char>>::empty(),
    {
        NotifierManager { notifiers: KeyedMap::new() }
    }

    /// Registers `notifier` under `name`, replacing a notifier already there.
    pub fn register(&mut self, name: &str, notifier: Notifier)
        requires
            old(self).wf(),
            notifier.wf(),
        ensures
            final(self).wf(),
            final(self).spec_notifiers() == old(self).spec_notifiers().insert(name@, notifier),
    {
        proof {
            self.notifiers.lemma_entries();
        }
        let ghost n = notifier;
        self.notifiers.insert(name.to_owned(), notifier);
        proof {
            self.notifiers.lemma_entries();
            assert forall|i: int| 0 <= i < self.notifiers.vals().len() implies (
            #[trigger] self.notifiers.vals()[i]).wf() by {
                let k = self.notifiers.keys()[i];
                assert(self.notifiers@[k] == self.notifiers.vals()[i]);
                if k != name@ {
                    assert(old(self).notifiers@.contains_key(k));
                    assert(old(self).notifiers.keys().contains(k));
                    let j = old(self).notifiers.keys().index_of(k);
                    assert(old(self).notifiers.vals()[j].wf());
                } else {
                    assert(self.notifiers@[k] == n);
                }
            }
        }
    }

    /// Registers under `name` a notifier for the webhook at `url` that lets
    /// each process through at most once every `throttle_secs` seconds and
    /// stops sending after `failure_threshold` failures in a row, trying again
    /// one minute after the last failure.
    pub fn register_default(&mut self, name: &str, url: &str, throttle_secs: u64, failure_threshold: u32)
        requires
            old(self).wf(),
        ensures
            final(self).wf(),
            final(self).spec_notifiers().contains_key(name@),
            is_default_notifier(final(self).spec_notifiers()[name@], url@, throttle_secs, failure_threshold),
            final(self).spec_notifiers() == old(self).spec_notifiers().insert(
                name@,
                final(self).spec_notifiers()[name@],
            ),
    {
        let client = WebhookClient::new(url.to_owned());
        let throttle = Throttle::new(TimeSpan::from_secs(throttle_secs));
        let breaker = CircuitBreaker::new(failure_threshold, 1, TimeSpan::from_secs(60));
        let notifier = Notifier::new(client, throttle, breaker);
        let ghost n = notifier;
        self.register(name, notifier);
        proof {
            assert(self.spec_notifiers()[name@] == n);
        }
    }

    /// How many notifiers are healthy.
    pub fn healthy_count(&self) -> (r: usize)
        requires
            self.wf(),
        ensures
            r == self.spec_names().filter(names_healthy(self.spec_notifiers())).len(),
    {
        proof {
            self.notifiers.lemma_entries();
        }
        let n = self.notifiers.len();
        let mut count: usize = 0;
        let mut i: usize = 0;
        while i < n
            invariant
                self.wf(),
                n == self.notifiers.keys().len(),
                i <= n,
                count == self.spec_names().take(i as int).filter(names_healthy(self.spec_notifiers())).len(),
            decreases n - i,
        {
            proof {
                self.notifiers.lemma_entries();
                assert(self.spec_names().take(i + 1) =~= self.spec_names().take(i as int).push(
                    self.spec_names()[i as int],
                ));
                self.spec_names().take(i as int).lemma_filter_push(
                    self.spec_names()[i as int],
                    names_healthy(self.spec_notifiers()),
                );
                self.spec_names().take(i as int).lemma_filter_len(names_healthy(self.spec_notifiers()));
            }
            if self.notifiers.value_at(i).is_healthy() {
                count = count + 1;
            }
            i = i + 1;
        }
        proof {
            assert(self.spec_names().take(n as int) =~= self.spec_names());
        }
        count
    }

    /// How many notifiers are registered.
    pub fn total_count(&self) -> (r: usize)
        requires
            self.wf(),
        ensures
            r == self.spec_notifiers().len(),
            r == self.spec_names().len(),
    {
        self.notifiers.len()
    }

    /// The names, in the order they were first registered.
    pub fn names(&self) -> (r: Vec<String>)
        requires
            self.wf(),
        ensures
            r@.map_values(|s: String| s@) == self.spec_names(),
    {
        let n = self.notifiers.len();
        let mut out: Vec<String> = Vec::new();
        let mut i: usize = 0;
        while i < n
            invariant
                self.wf(),
                n == self.notifiers.keys().len(),
                i <= n,
                out@.map_values(|s: String| s@) == self.spec_names().take(i as int),
            decreases n - i,
        {
            let ghost before = out@;
            let key = self.notifiers.key_at(i);
            let owned = key.clone();
            proof {
                assert(key.key_view() == key@);
                assert(owned@ == self.spec_names()[i as int]);
            }
            out.push(owned);
            proof {
                assert(out@ == before.push(owned));
                assert(out@.map_values(|s: String| s@) =~= before.map_values(|s: String| s@).push(owned@));
                assert(out@.map_values(|s: String| s@) =~= self.spec_names().take(i + 1));
            }
            i = i + 1;
        }
        proof {
            assert(self.spec_names().take(n as int) =~= self.spec_names());
        }
        out
    }

    /// The notifier registered under `name`, to work with in place.
    pub fn notifier_mut(&mut self, name: &str) -> (r: Option<&mut Notifier>)
        requires
            old(self).wf(),
        ensures
            match r {
                Some(n) => {
                    &&& old(self).spec_notifiers().contains_key(name@)
                    &&& *n == old(self).spec_notifiers()[name@]
                    &&& final(self).spec_notifiers() == old(self).spec_notifiers().insert(name@, *final(n))
                    &&& final(self).spec_names() == old(self).spec_names()
                    &&& final(n).wf() ==> final(self).wf()
                },
                None => !old(self).spec_notifiers().contains_key(name@) && *final(self) == *old(self),
            },
    {
        proof {
            self.notifiers.lemma_entries();
        }
        let k = name.to_owned();
        match self.notifiers.position(&k) {
            Some(i) => {
                let ghost before = self.notifiers;
                proof {
                    crate::keyed_map::lemma_update_at_any(before, i as int, before.vals()[i as int]);
                }
                let n = self.notifiers.value_at_mut(i);
                Some(n)
            },
            None => None,
        }
    }
}

impl Default for NotifierManager {
    fn default() -> (r: Self)
        ensures
            r.wf(),
            r.spec_notifiers() == Map::<Seq<char>, Notifier>::empty(),
    {
        Self::new()
    }
}

} // verus!
