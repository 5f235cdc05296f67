//! One circuit breaker per key (for instance per webhook), created on first
//! use with shared settings.

use crate::circuit_breaker::{
    after_failure, after_request, after_success, allows, fresh_breaker, BreakerView, CircuitBreaker,
    CircuitState,
};
use crate::keyed_map::{lemma_update_at, KeyedMap};
use crate::time::{Clock, TimeSpan};
use vstd::prelude::*;

verus! {

/// Circuit breakers by key.
#[derive(Debug)]
pub struct CircuitBreakerManager {
    breakers: KeyedMap<String, CircuitBreaker>,
    failure_threshold: u32,
    success_threshold: u32,
    timeout: TimeSpan,
    clock: Clock,
}

/// Whether a key names an open breaker.
pub open spec fn names_open(views: Map<Seq<char>, BreakerView>) -> spec_fn(Seq<char>) -> bool {
    |k: Seq<char>| views.contains_key(k) && views[k].state == CircuitState::Open
}

impl CircuitBreakerManager {
    /// [`CircuitBreakerManager::open_circuits`] names each key whose breaker is
    /// open, and only those, each once.
    pub proof fn lemma_open_listing(&self)
        requires
            self.wf(),
        ensures
            self.spec_keys().filter(names_open(self.spec_breakers())).no_duplicates(),
            forall|k: Seq<char>|
                #[trigger] self.spec_keys().filter(names_open(self.spec_breakers())).contains(k) <==> (
                self.spec_breakers().contains_key(k) && self.spec_breakers()[k].state == CircuitState::Open),
    {
        self.lemma_key_order();
        crate::keyed_map::lemma_filter_unique(self.spec_keys(), names_open(self.spec_breakers()));
    }

    /// The keys list each key of the map exactly once: they hold no
    /// duplicate, and as a set they are the map's keys, of which there are
    /// finitely many.
    pub proof fn lemma_key_order(&self)
        requires
            self.wf(),
        ensures
            self.spec_keys().no_duplicates(),
            self.spec_keys().to_set() == self.spec_breakers().dom(),
            self.spec_breakers().dom().finite(),
            self.spec_keys().len() == self.spec_breakers().len(),
            forall|k: Seq<char>| #[trigger] self.spec_breakers().contains_key(k) <==> self.spec_keys().contains(k),
    {
        self.breakers.lemma_entries();
        assert(self.spec_breakers().dom() =~= self.breakers@.dom());
    }

    /// The breakers, by key.
    pub closed spec fn spec_breakers(&self) -> Map<Seq<char>, BreakerView> {
        self.breakers@.map_values(|b: CircuitBreaker| b@)
    }

    /// The keys, in the order their breakers were created.
    pub closed spec fn spec_keys(&self) -> Seq<Seq<char>> {
        self.breakers.keys()
    }

    /// The breaker that a key without one gets.
    pub closed spec fn spec_fresh(&self) -> BreakerView {
        fresh_breaker(
            self.failure_threshold as nat,
            self.success_threshold as nat,
            self.timeout.spec_nanos(),
        )
    }

    /// The breaker of `key`: its own if it has one, a fresh one otherwise.
    pub open spec fn breaker_of(&self, key: Seq<char>) -> BreakerView {
        if self.spec_breakers().contains_key(key) {
            self.spec_breakers()[key]
        } else {
            self.spec_fresh()
        }
    }

    /// The latest reading of the manager's clock that a call took.
    pub closed spec fn spec_clock(&self) -> u128 {
        self.clock.spec_last()
    }

    pub closed spec fn wf(&self) -> bool {
        &&& self.breakers.wf()
        &&& forall|i: int| 0 <= i < self.breakers.vals().len() ==> (#[trigger] self.breakers.vals()[i]).wf()
    }

    /// A manager with no breakers; new ones open after `failure_threshold`
    /// failures, close after `success_threshold` successful probes, and wait
    /// `timeout_secs` seconds before probing.
    pub fn new(failure_threshold: u32, success_threshold: u32, timeout_secs: u64) -> (r: Self)
        ensures
            r.wf(),
            r.spec_breakers() == Map::<Seq<char>, BreakerView>::empty(),
            r.spec_fresh() == fresh_breaker(
                failure_threshold as nat,
                success_threshold as nat,
                (timeout_secs * 1_000_000_000) as nat,
            ),
    {
        let r = CircuitBreakerManager {
            breakers: KeyedMap::new(),
            failure_threshold,
            success_threshold,
            timeout: TimeSpan::from_secs(timeout_secs),
            clock: Clock::start(),
        };
        proof {
            assert(r.spec_breakers() =~= Map::<Seq<char>, BreakerView>::empty());
        }
        r
    }

    /// The index of the breaker for `key`, creating a fresh one if needed.
    fn get_or_create(&mut self, key: &str) -> (i: usize)
        requires
            old(self).wf(),
        ensures
            final(self).wf(),
            i < final(self).breakers.keys().len(),
            final(self).breakers.keys()[i as int] == key@,
            final(self).breakers.vals()[i as int]@ == old(self).breaker_of(key@),
            final(self).spec_breakers() == old(self).spec_breakers().insert(key@, old(self).breaker_of(key@)),
            final(self).spec_fresh() == old(self).spec_fresh(),
            final(self).failure_threshold == old(self).failure_threshold,
            final(self).success_threshold == old(self).success_threshold,
            final(self).timeout == old(self).timeout,
            final(self).clock == old(self).clock,
    {
        proof {
            self.breakers.lemma_entries();
        }
        let fresh = CircuitBreaker::new(self.failure_threshold, self.success_threshold, self.timeout);
        let i = self.breakers.slot(key, fresh);
        proof {
            self.breakers.lemma_entries();
            assert forall|j: int| 0 <= j < self.breakers.vals().len() implies (
            #[trigger] self.breakers.vals()[j]).wf() by {
                if j < old(self).breakers.vals().len() {
                    assert(self.breakers.vals()[j] == old(self).breakers.vals()[j]);
                }
            }
            assert(self.spec_breakers() =~= old(self).spec_breakers().insert(key@, old(self).breaker_of(key@)));
        }
        i
    }

    proof fn lemma_replace(m: KeyedMap<String, CircuitBreaker>, m2: KeyedMap<String, CircuitBreaker>, i: int, b: CircuitBreaker)
        requires
            m.wf(),
            0 <= i < m.keys().len(),
            m2.keys() == m.keys(),
            m2.vals() == m.vals().update(i, b),
            forall|j: int| 0 <= j < m.vals().len() ==> (#[trigger] m.vals()[j]).wf(),
            b.wf(),
        ensures
            m2.wf(),
            m2@.map_values(|c: CircuitBreaker| c@) == m@.map_values(|c: CircuitBreaker| c@).insert(m.keys()[i], b@),
            forall|j: int| 0 <= j < m2.vals().len() ==> (#[trigger] m2.vals()[j]).wf(),
    {
        lemma_update_at(m, m2, i, b);
        assert(m2@.map_values(|c: CircuitBreaker| c@) =~= m@.map_values(|c: CircuitBreaker| c@).insert(
            m.keys()[i],
            b@,
        ));
    }

    /// Whether a request for `key` asked for at clock reading `now` may go
    /// through (see [`CircuitBreaker::allow_request_at`]); a key without a
    /// breaker gets a fresh one.
    pub fn allow_request_at(&mut self, key: &str, now: u128) -> (r: bool)
        requires
            old(self).wf(),
        ensures
            final(self).wf(),
            final(self).spec_fresh() == old(self).spec_fresh(),
            r == allows(old(self).breaker_of(key@), now),
            final(self).spec_breakers() == old(self).spec_breakers().insert(
                key@,
                after_request(old(self).breaker_of(key@), now),
            ),
            final(self).spec_clock() == old(self).spec_clock(),
    {
        let i = self.get_or_create(key);
        let ghost mid = self.breakers;
        let ghost mid_views = self.spec_breakers();
        let b = self.breakers.value_at_mut(i);
        let r = b.allow_request_at(now);
        proof {
            Self::lemma_replace(mid, self.breakers, i as int, self.breakers.vals()[i as int]);
            assert(self.spec_breakers() =~= mid_views.insert(key@, after_request(old(self).breaker_of(key@), now)));
            assert(self.spec_breakers() =~= old(self).spec_breakers().insert(key@, after_request(old(self).breaker_of(key@), now)));
            assert(final_is(self, old(self), key@, after_request(old(self).breaker_of(key@), now)));
        }
        r
    }

    /// Whether a request for `key` may go through now, by the manager's
    /// clock (see [`CircuitBreakerManager::allow_request_at`]).
    pub fn allow_request(&mut self, key: &str) -> (r: bool)
        requires
            old(self).wf(),
        ensures
            final(self).wf(),
            final(self).spec_fresh() == old(self).spec_fresh(),
            exists|now: u128|
                #![trigger after_request(old(self).breaker_of(key@), now)]
                {
                    &&& r == allows(old(self).breaker_of(key@), now)
                    &&& final(self).spec_breakers() == old(self).spec_breakers().insert(
                        key@,
                        after_request(old(self).breaker_of(key@), now),
                    )
                },
            final(self).spec_clock() >= old(self).spec_clock(),
            r == allows(old(self).breaker_of(key@), final(self).spec_clock()),
            final(self).spec_breakers() == old(self).spec_breakers().insert(
                key@,
                after_request(old(self).breaker_of(key@), final(self).spec_clock()),
            ),
    {
        let now = self.clock.tick();
        self.allow_request_at(key, now)
    }

    /// Records a successful request for `key`.
    pub fn record_success(&mut self, key: &str)
        requires
            old(self).wf(),
        ensures
            final(self).wf(),
            final(self).spec_fresh() == old(self).spec_fresh(),
            final(self).spec_breakers() == old(self).spec_breakers().insert(
                key@,
                after_success(old(self).breaker_of(key@)),
            ),
    {
        let i = self.get_or_create(key);
        let ghost mid = self.breakers;
        let ghost mid_views = self.spec_breakers();
        let b = self.breakers.value_at_mut(i);
        b.record_success();
        proof {
            Self::lemma_replace(mid, self.breakers, i as int, self.breakers.vals()[i as int]);
            assert(self.spec_breakers() =~= mid_views.insert(key@, after_success(old(self).breaker_of(key@))));
            assert(self.spec_breakers() =~= old(self).spec_breakers().insert(key@, after_success(old(self).breaker_of(key@))));
            assert(final_is(self, old(self), key@, after_success(old(self).breaker_of(key@))));
        }
    }

    /// Records a request for `key` that failed at clock reading `now`.
    pub fn record_failure_at(&mut self, key: &str, now: u128)
        requires
            old(self).wf(),
            old(self).breaker_of(key@).failure_count < u32::MAX,
        ensures
            final(self).wf(),
            final(self).spec_fresh() == old(self).spec_fresh(),
            final(self).spec_breakers() == old(self).spec_breakers().insert(
                key@,
                after_failure(old(self).breaker_of(key@), now),
            ),
            final(self).spec_clock() == old(self).spec_clock(),
    {
        let i = self.get_or_create(key);
        let ghost mid = self.breakers;
        let ghost mid_views = self.spec_breakers();
        let b = self.breakers.value_at_mut(i);
        b.record_failure_at(now);
        proof {
            Self::lemma_replace(mid, self.breakers, i as int, self.breakers.vals()[i as int]);
            assert(self.spec_breakers() =~= mid_views.insert(key@, after_failure(old(self).breaker_of(key@), now)));
            assert(self.spec_breakers() =~= old(self).spec_breakers().insert(key@, after_failure(old(self).breaker_of(key@), now)));
            assert(final_is(self, old(self), key@, after_failure(old(self).breaker_of(key@), now)));
        }
    }

    /// Records a request for `key` that failed now, by the manager's clock.
    pub fn record_failure(&mut self, key: &str)
        requires
            old(self).wf(),
            old(self).breaker_of(key@).failure_count < u32::MAX,
        ensures
            final(self).wf(),
            final(self).spec_fresh() == old(self).spec_fresh(),
            exists|now: u128|
                #![trigger after_failure(old(self).breaker_of(key@), now)]
                final(self).spec_breakers() == old(self).spec_breakers().insert(
                    key@,
                    after_failure(old(self).breaker_of(key@), now),
                ),
            final(self).spec_clock() >= old(self).spec_clock(),
            final(self).spec_breakers() == old(self).spec_breakers().insert(
                key@,
                after_failure(old(self).breaker_of(key@), final(self).spec_clock()),
            ),
    {
        let now = self.clock.tick();
        self.record_failure_at(key, now);
    }

    /// The state of the breaker for `key` (a key without one gets a fresh,
    /// closed breaker).
    pub fn state(&mut self, key: &str) -> (r: CircuitState)
        requires
            old(self).wf(),
        ensures
            final(self).wf(),
            final(self).spec_fresh() == old(self).spec_fresh(),
            r == old(self).breaker_of(key@).state,
            final(self).spec_breakers() == old(self).spec_breakers().insert(key@, old(self).breaker_of(key@)),
    {
        let i = self.get_or_create(key);
        *self.breakers.value_at(i).state()
    }

    /// The keys whose breakers are open, in the order the breakers were
    /// created.
    pub fn open_circuits(&self) -> (r: Vec<&str>)
        requires
            self.wf(),
        ensures
            r@.map_values(|s: &str| s@) == self.spec_keys().filter(names_open(self.spec_breakers())),
    {
        proof {
            self.breakers.lemma_entries();
        }
        let mut out: Vec<&str> = Vec::new();
        let n = self.breakers.len();
        let mut i: usize = 0;
        while i < n
            invariant
                self.wf(),
                n == self.breakers.keys().len(),
                i <= n,
                out@.map_values(|s: &str| s@) == self.spec_keys().take(i as int).filter(
                    names_open(self.spec_breakers()),
                ),
            decreases n - i,
        {
            proof {
                self.breakers.lemma_entries();
                assert(self.spec_keys().take(i + 1) =~= self.spec_keys().take(i as int).push(
                    self.spec_keys()[i as int],
                ));
                self.spec_keys().take(i as int).lemma_filter_push(
                    self.spec_keys()[i as int],
                    names_open(self.spec_breakers()),
                );
            }
            let ghost before = out@;
            if self.breakers.value_at(i).is_open() {
                out.push(self.breakers.key_at(i).as_str());
                proof {
                    assert(out@.map_values(|s: &str| s@) =~= before.map_values(|s: &str| s@).push(
                        self.spec_keys()[i as int],
                    ));
                }
            }
            i = i + 1;
        }
        proof {
            assert(self.spec_keys().take(n as int) =~= self.spec_keys());
        }
        out
    }

    /// Forgets the breaker for `key`; its next use starts a fresh one.
    pub fn reset(&mut self, key: &str)
        requires
            old(self).wf(),
        ensures
            final(self).wf(),
            final(self).spec_fresh() == old(self).spec_fresh(),
            final(self).spec_breakers() == old(self).spec_breakers().remove(key@),
    {
        let _ = self.breakers.remove(key);
        proof {
            if old(self).breakers.keys().contains(key@) {
                let idx = old(self).breakers.keys().index_of(key@);
                assert forall|j: int| 0 <= j < self.breakers.vals().len() implies (
                #[trigger] self.breakers.vals()[j]).wf() by {
                    if j < idx {
                        assert(self.breakers.vals()[j] == old(self).breakers.vals()[j]);
                    } else {
                        assert(self.breakers.vals()[j] == old(self).breakers.vals()[j + 1]);
                    }
                }
            }
            assert(self.spec_breakers() =~= old(self).spec_breakers().remove(key@));
        }
    }
}

/// `now` holds the breakers of `before` with `key`'s replaced by `b`.
spec fn final_is(now: &CircuitBreakerManager, before: &CircuitBreakerManager, key: Seq<char>, b: BreakerView) -> bool {
    now.spec_breakers() == before.spec_breakers().insert(key, b)
}

/// Breakers of different keys are independent: acting on one key leaves
/// every other key's breaker as it was.
pub proof fn lemma_keys_independent(views: Map<Seq<char>, BreakerView>, key: Seq<char>, other: Seq<char>, b: BreakerView)
    requires
        key != other,
    ensures
        views.insert(key, b).contains_key(other) == views.contains_key(other),
        views.contains_key(other) ==> views.insert(key, b)[other] == views[other],
{
}

} // verus!
