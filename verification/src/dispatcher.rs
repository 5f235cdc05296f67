//! Decides, cycle by cycle, which processes' alerts go out: the first cycle in
//! which a process alerts, and then every `repeat_interval`-th cycle in a row,
//! so that a lasting condition does not flood the webhook.

use std::collections::HashMap;
use vstd::prelude::*;

verus! {

broadcast use vstd::std_specs::hash::group_hash_axioms;

/// The repeat interval when none is configured.
pub const DEFAULT_REPEAT_INTERVAL: u32 = 5;

/// The repeat interval that `configured` stands for.
pub open spec fn repeat_interval(configured: Option<u32>) -> nat {
    match configured {
        Some(n) => n as nat,
        None => DEFAULT_REPEAT_INTERVAL as nat,
    }
}

/// Whether the `count`-th alerting cycle in a row sends its alerts.
pub open spec fn cycle_sends(count: nat, interval: nat) -> bool {
    count == 1 || (interval > 0 && count % interval == 0)
}

/// Counts each process's alerting cycles in a row and decides when they are
/// forwarded to the webhook.
#[derive(Debug)]
pub struct Dispatcher {
    webhook_url: String,
    repeat_interval_cycles: Option<u32>,
    alert_counts: HashMap<u32, u32>,
}

impl Dispatcher {
    /// The alerting cycles in a row, per process.
    pub closed spec fn spec_counts(&self) -> Map<u32, u32> {
        self.alert_counts@
    }

    /// The repeat interval.
    pub closed spec fn spec_interval(&self) -> nat {
        repeat_interval(self.repeat_interval_cycles)
    }

    /// The webhook's address.
    pub closed spec fn spec_url(&self) -> Seq<char> {
        self.webhook_url@
    }

    /// The alerting cycles in a row of process `pid` (0 when it is quiet).
    pub open spec fn count_of(&self, pid: u32) -> nat {
        if self.spec_counts().contains_key(pid) {
            self.spec_counts()[pid] as nat
        } else {
            0
        }
    }

    /// A dispatcher for the webhook at `webhook_url`, repeating alerts every
    /// `repeat_interval_cycles` cycles (every 5 when it is `None`).
    pub fn new(webhook_url: &str, repeat_interval_cycles: Option<u32>) -> (r: Self)
        ensures
            r.spec_url() == webhook_url@,
            r.spec_interval() == repeat_interval(repeat_interval_cycles),
            r.spec_counts() == Map::<u32, u32>::empty(),
    {
        Dispatcher {
            webhook_url: webhook_url.to_owned(),
            repeat_interval_cycles,
            alert_counts: HashMap::new(),
        }
    }

    /// The webhook's address.
    pub fn webhook_url(&self) -> (r: &str)
        ensures
            r@ == self.spec_url(),
    {
        self.webhook_url.as_str()
    }

    /// The alerting cycles in a row of process `pid` (0 when it is quiet).
    pub fn cycles_of(&self, pid: u32) -> (r: u32)
        ensures
            r == self.count_of(pid),
    {
        match self.alert_counts.get(&pid) {
            Some(n) => *n,
            None => 0,
        }
    }

    /// The repeat interval.
    pub fn repeat_interval(&self) -> (r: u32)
        ensures
            r == self.spec_interval(),
    {
        match self.repeat_interval_cycles {
            Some(n) => n,
            None => DEFAULT_REPEAT_INTERVAL,
        }
    }

    /// Records one cycle of process `pid`, which raised alerts or not, and
    /// answers whether its alerts are to be sent: a quiet cycle clears its
    /// count; an alerting one adds one to it and sends on the first cycle and
    /// on every multiple of the repeat interval.
    pub fn record_cycle(&mut self, pid: u32, alerting: bool) -> (r: bool)
        requires
            alerting ==> old(self).count_of(pid) < u32::MAX,
            alerting && old(self).count_of(pid) >= 1 ==> old(self).spec_interval() > 0,
        ensures
            final(self).spec_interval() == old(self).spec_interval(),
            final(self).spec_url() == old(self).spec_url(),
            !alerting ==> !r && final(self).spec_counts() == old(self).spec_counts().remove(pid),
            alerting ==> {
                let c = old(self).count_of(pid) + 1;
                &&& final(self).spec_counts() == old(self).spec_counts().insert(pid, c as u32)
                &&& r == cycle_sends(c, old(self).spec_interval())
            },
    {
        if !alerting {
            let _ = self.alert_counts.remove(&pid);
            return false;
        }
        let c: u32 = match self.alert_counts.get(&pid) {
            Some(n) => *n + 1,
            None => 1,
        };
        self.alert_counts.insert(pid, c);
        if c == 1 {
            true
        } else {
            c % self.repeat_interval() == 0
        }
    }
}

/// A process's first alerting cycle after a quiet one always sends, and after
/// that exactly the cycles whose number in the run is a multiple of the
/// interval do.
pub proof fn lemma_first_cycle_sends(interval: nat)
    ensures
        cycle_sends(1, interval),
        forall|c: nat| c > 1 && interval > 0 ==> (#[trigger] cycle_sends(c, interval) <==> c % interval == 0),
{
}

} // verus!
