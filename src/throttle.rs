//! The abuse throttle: a decaying per-address counter.
use vstd::prelude::*;
use std::collections::HashMap;

verus! {

broadcast use vstd::std_specs::hash::group_hash_axioms;

/// Counts traffic per IP address (IPv4 addresses as IPv4-mapped IPv6
/// numbers). An address whose count has reached the threshold is dropped
/// until periodic decay brings it down again.
pub struct SpamThrottle {
    counts: HashMap<u128, u32>,
    keys: Vec<u128>,
    threshold: u32,
}

impl SpamThrottle {
    pub closed spec fn wf(self) -> bool {
        forall|k: u128| self.counts@.contains_key(k) ==> #[trigger] self.keys@.contains(k)
    }

    /// The current count of `ip`.
    pub closed spec fn count(self, ip: u128) -> u32 {
        if self.counts@.contains_key(ip) {
            self.counts@[ip]
        } else {
            0
        }
    }

    pub closed spec fn spec_threshold(self) -> u32 {
        self.threshold
    }

    pub fn new(threshold: u32) -> (r: SpamThrottle)
        ensures
            r.wf(),
            r.spec_threshold() == threshold,
            forall|ip: u128| #[trigger] r.count(ip) == 0,
    {
        SpamThrottle { counts: HashMap::new(), keys: Vec::new(), threshold }
    }

    pub fn get_threshold(&self) -> (r: u32)
        ensures
            r == self.spec_threshold(),
    {
        self.threshold
    }

    /// Whether `ip` has reached the threshold.
    pub fn test(&self, ip: u128) -> (r: bool)
        ensures
            r == (self.count(ip) >= self.spec_threshold()),
    {
        let c: u32 = match self.counts.get(&ip) {
            Some(v) => *v,
            None => 0,
        };
        c >= self.threshold
    }

    /// Counts one more message from `ip` and tells whether `ip` had already
    /// reached the threshold, in which case the message is to be dropped.
    pub fn add_and_test(&mut self, ip: u128) -> (drop: bool)
        requires
            old(self).wf(),
        ensures
            final(self).wf(),
            drop == (old(self).count(ip) >= old(self).spec_threshold()),
            final(self).count(ip) == if old(self).count(ip) < u32::MAX {
                (old(self).count(ip) + 1) as u32
            } else {
                old(self).count(ip)
            },
            forall|k: u128| k != ip ==> #[trigger] final(self).count(k) == old(self).count(k),
            final(self).spec_threshold() == old(self).spec_threshold(),
    {
        let c: u32 = match self.counts.get(&ip) {
            Some(v) => *v,
            None => {
                self.keys.push(ip);
                0
            },
        };
        let next: u32 = if c < u32::MAX { c + 1 } else { c };
        self.counts.insert(ip, next);
        proof {
            assert forall|k: u128| self.counts@.contains_key(k) implies #[trigger] self.keys@.contains(k) by {
                if k == ip {
                    if old(self).counts@.contains_key(ip) {
                        assert(old(self).keys@.contains(ip));
                        assert(self.keys@ == old(self).keys@);
                    } else {
                        assert(self.keys@[self.keys@.len() - 1] == ip);
                    }
                } else {
                    assert(old(self).keys@.contains(k));
                    let j = choose|j: int| 0 <= j < old(self).keys@.len() && old(self).keys@[j] == k;
                    assert(self.keys@[j] == k);
                }
            }
        }
        c >= self.threshold
    }

    /// The periodic decay: every count is halved.
    pub fn decay(&mut self)
        requires
            old(self).wf(),
        ensures
            final(self).wf(),
            forall|k: u128| #[trigger] final(self).count(k) == old(self).count(k) / 2,
            final(self).spec_threshold() == old(self).spec_threshold(),
    {
        let mut counts: HashMap<u128, u32> = HashMap::new();
        let mut keys: Vec<u128> = Vec::new();
        let mut i: usize = 0;
        while i < self.keys.len()
            invariant
                self.wf(),
                *self == *old(self),
                i <= self.keys@.len(),
                forall|k: u128| counts@.contains_key(k) ==> #[trigger] keys@.contains(k),
                forall|k: u128|
                    #[trigger] counts@.contains_key(k) ==> counts@[k] == self.count(k) / 2 && counts@[k] > 0,
                forall|j: int|
                    0 <= j < i ==> (self.count(#[trigger] self.keys@[j]) / 2 > 0 ==> counts@.contains_key(
                        self.keys@[j],
                    )),
            decreases self.keys@.len() - i,
        {
            let k = self.keys[i];
            match self.counts.get(&k) {
                Some(v) => {
                    let h = *v / 2;
                    if h > 0 && !counts.contains_key(&k) {
                        let ghost cbefore = counts@;
                        counts.insert(k, h);
                        let ghost kbefore = keys@;
                        keys.push(k);
                        proof {
                            assert forall|q: u128| counts@.contains_key(q) implies #[trigger] keys@.contains(q) by {
                                if q == k {
                                    assert(keys@[keys@.len() - 1] == k);
                                } else {
                                    assert(cbefore.contains_key(q));
                                    assert(kbefore.contains(q));
                                    let j = choose|j: int| 0 <= j < kbefore.len() && kbefore[j] == q;
                                    assert(keys@[j] == q);
                                }
                            }
                        }
                    }
                },
                None => {},
            }
            i = i + 1;
        }
        proof {
            assert forall|k: u128| #[trigger] self.count(k) / 2 > 0 implies counts@.contains_key(k) by {
                assert(self.counts@.contains_key(k));
                assert(self.keys@.contains(k));
                let j = choose|j: int| 0 <= j < self.keys@.len() && self.keys@[j] == k;
            }
        }
        self.counts = counts;
        self.keys = keys;
        proof {
            assert forall|k: u128| #[trigger] self.count(k) == old(self).count(k) / 2 by {
                if !self.counts@.contains_key(k) {
                    assert(!(old(self).count(k) / 2 > 0));
                }
            }
        }
    }
}

} // verus!
