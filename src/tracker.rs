//! Calls forwarded to the fallback resolver, and the tracker that pairs
//! them with their replies and evicts the stalled ones.
use vstd::prelude::*;
use std::collections::HashMap;

verus! {

broadcast use vstd::std_specs::hash::group_hash_axioms;

/// Most calls outstanding at once.
pub const MAX_ACTIVE_CALLS: usize = 512;

/// Age in milliseconds after which a call counts as stalled.
pub const STALLED_TIME: u128 = 60000;

/// A transport address: an IP address (IPv4 as IPv4-mapped IPv6) and a port.
#[derive(PartialEq, Eq, Structural, Clone, Copy, Debug, Hash)]
pub struct Endpoint {
    pub ip: u128,
    pub port: u16,
}

/// A query forwarded to the fallback resolver: whom to answer and when it
/// was sent, in milliseconds since the epoch.
#[derive(PartialEq, Eq, Structural, Clone, Copy, Debug)]
pub struct Call {
    pub address: Endpoint,
    pub sent_time: u128,
}

impl Call {
    pub open spec fn spec_is_stalled(self, now: u128) -> bool {
        now >= self.sent_time && now - self.sent_time > STALLED_TIME
    }

    pub fn new(address: Endpoint, now: u128) -> (r: Call)
        ensures
            r.address == address,
            r.sent_time == now,
    {
        Call { address, sent_time: now }
    }

    pub fn get_address(&self) -> (r: Endpoint)
        ensures
            r == self.address,
    {
        self.address
    }

    pub fn set_sent_time(&mut self, sent_time: u128)
        ensures
            final(self).sent_time == sent_time,
            final(self).address == old(self).address,
    {
        self.sent_time = sent_time;
    }

    pub fn get_sent_time(&self) -> (r: u128)
        ensures
            r == self.sent_time,
    {
        self.sent_time
    }

    /// More than `STALLED_TIME` milliseconds have passed since the call was
    /// sent.
    pub fn is_stalled(&self, now: u128) -> (r: bool)
        ensures
            r == self.spec_is_stalled(now),
    {
        now >= self.sent_time && now - self.sent_time > STALLED_TIME
    }
}

/// Outstanding calls by transaction ID.
pub struct ResponseTracker {
    calls: HashMap<u16, Call>,
    ids: Vec<u16>,
}

impl View for ResponseTracker {
    type V = Map<u16, Call>;

    closed spec fn view(&self) -> Map<u16, Call> {
        self.calls@
    }
}

impl ResponseTracker {
    pub closed spec fn wf(self) -> bool {
        forall|k: u16| self.calls@.contains_key(k) ==> #[trigger] self.ids@.contains(k)
    }

    pub fn new() -> (r: ResponseTracker)
        ensures
            r.wf(),
            r@ == Map::<u16, Call>::empty(),
    {
        ResponseTracker { calls: HashMap::new(), ids: Vec::new() }
    }

    /// Records a call under its transaction ID, replacing one pending there.
    pub fn add(&mut self, id: u16, call: Call)
        requires
            old(self).wf(),
        ensures
            final(self).wf(),
            final(self)@ == old(self)@.insert(id, call),
    {
        if !self.calls.contains_key(&id) {
            self.ids.push(id);
        }
        self.calls.insert(id, call);
        proof {
            assert forall|k: u16| self.calls@.contains_key(k) implies #[trigger] self.ids@.contains(k) by {
                if k == id && !old(self).calls@.contains_key(id) {
                    assert(self.ids@[self.ids@.len() - 1] == id);
                } else {
                    assert(old(self).ids@.contains(k));
                    let j = choose|j: int| 0 <= j < old(self).ids@.len() && old(self).ids@[j] == k;
                    assert(self.ids@[j] == k);
                }
            }
        }
    }

    pub fn get(&self, id: u16) -> (r: Option<Call>)
        ensures
            r == if self@.contains_key(id) {
                Some(self@[id])
            } else {
                None
            },
    {
        match self.calls.get(&id) {
            Some(c) => Some(*c),
            None => None,
        }
    }

    pub fn contains(&self, id: u16) -> (r: bool)
        ensures
            r == self@.contains_key(id),
    {
        self.calls.contains_key(&id)
    }

    /// Removes the call pending under `id` and returns it.
    pub fn remove(&mut self, id: u16) -> (r: Option<Call>)
        requires
            old(self).wf(),
        ensures
            final(self).wf(),
            final(self)@ == old(self)@.remove(id),
            r == if old(self)@.contains_key(id) {
                Some(old(self)@[id])
            } else {
                None
            },
    {
        self.calls.remove(&id)
    }

    /// Takes the call that a reply with transaction ID `id` answers.
    pub fn poll(&mut self, id: u16) -> (r: Option<Call>)
        requires
            old(self).wf(),
        ensures
            final(self).wf(),
            final(self)@ == old(self)@.remove(id),
            r == if old(self)@.contains_key(id) {
                Some(old(self)@[id])
            } else {
                None
            },
    {
        self.remove(id)
    }

    /// The number of calls outstanding.
    pub fn len(&self) -> (r: usize)
        ensures
            r == self@.len(),
    {
        self.calls.len()
    }

    /// Another call may be forwarded without exceeding the budget.
    pub fn has_capacity(&self) -> (r: bool)
        ensures
            r == (self@.len() < MAX_ACTIVE_CALLS),
    {
        self.calls.len() < MAX_ACTIVE_CALLS
    }

    /// Evicts every call that is stalled at time `now`.
    pub fn remove_stalled(&mut self, now: u128)
        requires
            old(self).wf(),
        ensures
            final(self).wf(),
            forall|k: u16|
                #[trigger] final(self)@.contains_key(k) == (old(self)@.contains_key(k) && !old(
                    self,
                )@[k].spec_is_stalled(now)),
            forall|k: u16| #[trigger] final(self)@.contains_key(k) ==> final(self)@[k] == old(self)@[k],
    {
        let ghost start = self.calls@;
        let mut kept: Vec<u16> = Vec::new();
        let mut i: usize = 0;
        while i < self.ids.len()
            invariant
                i <= self.ids@.len(),
                self.ids@ == old(self).ids@,
                forall|k: u16| start.contains_key(k) ==> #[trigger] self.ids@.contains(k),
                forall|k: u16| #[trigger] self.calls@.contains_key(k) ==> start.contains_key(k) && self.calls@[k]
                    == start[k],
                forall|k: u16|
                    start.contains_key(k) && !start[k].spec_is_stalled(now) ==> #[trigger] self.calls@.contains_key(k),
                forall|j: int|
                    0 <= j < i && #[trigger] self.calls@.contains_key(self.ids@[j]) ==> kept@.contains(self.ids@[j])
                        && !start[self.ids@[j]].spec_is_stalled(now),
            decreases self.ids@.len() - i,
        {
            let id = self.ids[i];
            let ghost kb = kept@;
            let stalled = match self.calls.get(&id) {
                Some(c) => c.is_stalled(now),
                None => false,
            };
            if stalled {
                self.calls.remove(&id);
            } else if self.calls.contains_key(&id) {
                kept.push(id);
                proof {
                    assert(kept@[kept@.len() - 1] == id);
                }
            }
            proof {
                assert forall|j: int|
                    0 <= j < i + 1 && #[trigger] self.calls@.contains_key(self.ids@[j]) implies kept@.contains(self.ids@[j])
                        && !start[self.ids@[j]].spec_is_stalled(now) by {
                    if self.ids@[j] != id {
                        let w = choose|w: int| 0 <= w < kb.len() && kb[w] == self.ids@[j];
                        assert(kept@[w] == self.ids@[j]);
                    }
                }
            }
            i = i + 1;
        }
        let ghost ids0 = self.ids@;
        assert(i == ids0.len());
        self.ids = kept;
        proof {
            assert forall|k: u16|
                #[trigger] self.calls@.contains_key(k) == (start.contains_key(k) && !start[k].spec_is_stalled(now)) by {
                if self.calls@.contains_key(k) {
                    assert(start.contains_key(k));
                    assert(ids0.contains(k));
                    let j = choose|j: int| 0 <= j < ids0.len() && ids0[j] == k;
                    assert(self.calls@.contains_key(ids0[j]));
                }
            }
            assert forall|k: u16| self.calls@.contains_key(k) implies #[trigger] self.ids@.contains(k) by {
                assert(ids0.contains(k));
                let j = choose|j: int| 0 <= j < ids0.len() && ids0[j] == k;
                assert(self.calls@.contains_key(ids0[j]));
            }
        }
    }
}

} // verus!
