//! The server side of the input channel: per-client intents tagged with
//! ticks, consumed once per simulated tick, with the most recent known
//! intent reused when none arrived in time.
use vstd::prelude::*;
use crate::transform::{InputIntent, ONE};

verus! {

/// An intent tagged with the tick it is for.
#[derive(Clone, Copy, Debug, PartialEq, Eq, Structural)]
pub struct TaggedIntent {
    pub tick: u64,
    pub intent: InputIntent,
}

/// No action held and no turn.
pub open spec fn idle_spec() -> InputIntent {
    InputIntent { up: false, down: false, left: false, right: false, turn_cos: ONE, turn_sin: 0 }
}

pub fn idle() -> (r: InputIntent)
    ensures
        r == idle_spec(),
{
    InputIntent { up: false, down: false, left: false, right: false, turn_cos: ONE, turn_sin: 0 }
}

/// How many leading entries of `s` are for ticks up to `tick`.
pub open spec fn due_count(s: Seq<TaggedIntent>, tick: u64) -> int
    decreases s.len(),
{
    if s.len() == 0 || s[0].tick > tick {
        0
    } else {
        1 + due_count(s.drop_first(), tick)
    }
}

proof fn lemma_due_count(s: Seq<TaggedIntent>, tick: u64)
    ensures
        0 <= due_count(s, tick) <= s.len(),
        forall|j: int| 0 <= j < due_count(s, tick) ==> (#[trigger] s[j]).tick <= tick,
        due_count(s, tick) < s.len() ==> s[due_count(s, tick)].tick > tick,
    decreases s.len(),
{
    if s.len() > 0 && s[0].tick <= tick {
        let t = s.drop_first();
        lemma_due_count(t, tick);
        assert forall|j: int| 0 <= j < due_count(s, tick) implies (#[trigger] s[j]).tick <= tick by {
            if j > 0 {
                assert(s[j] == t[j - 1]);
            }
        }
    }
}

/// The inputs received from one client and not yet consumed, in increasing
/// tick order, and the most recent intent consumed.
pub struct ClientInputs {
    pub pending: Vec<TaggedIntent>,
    pub last: Option<InputIntent>,
    pub consumed: u64,
}

impl ClientInputs {
    pub open spec fn wf(&self) -> bool {
        &&& forall|i: int, j: int|
            0 <= i < j < self.pending@.len() ==> (#[trigger] self.pending@[i]).tick
                < (#[trigger] self.pending@[j]).tick
        &&& forall|i: int|
            0 <= i < self.pending@.len() ==> (#[trigger] self.pending@[i]).tick > self.consumed
    }

    /// What `take` returns for `tick`: the latest intent due by then, else
    /// the most recent known one, else an idle intent.
    pub open spec fn intent_for(&self, tick: u64) -> InputIntent {
        let n = due_count(self.pending@, tick);
        if n > 0 {
            self.pending@[n - 1].intent
        } else if self.last is Some {
            self.last.unwrap()
        } else {
            idle_spec()
        }
    }

    pub fn new() -> (r: ClientInputs)
        ensures
            r.wf(),
            r.pending@.len() == 0,
            r.last is None,
            r.consumed == 0,
    {
        ClientInputs { pending: Vec::new(), last: None, consumed: 0 }
    }

    /// Whether an intent for `tick` would be queued.
    pub open spec fn accepts(&self, tick: u64) -> bool {
        tick > self.consumed && (self.pending@.len() == 0 || self.pending@.last().tick < tick)
    }

    /// Queues an intent for `tick`. One for a tick already simulated, or not
    /// after the latest queued one, is stale: it is dropped and false is
    /// returned.
    pub fn receive(&mut self, tick: u64, intent: InputIntent) -> (r: bool)
        requires
            old(self).wf(),
        ensures
            final(self).wf(),
            r == old(self).accepts(tick),
            final(self).pending@ == if r {
                old(self).pending@.push(TaggedIntent { tick, intent })
            } else {
                old(self).pending@
            },
            final(self).last == old(self).last,
            final(self).consumed == old(self).consumed,
    {
        let n = self.pending.len();
        if tick <= self.consumed || (n > 0 && self.pending[n - 1].tick >= tick) {
            return false;
        }
        self.pending.push(TaggedIntent { tick, intent });
        proof {
            let s = self.pending@;
            let o = old(self).pending@;
            assert forall|i: int, j: int| 0 <= i < j < s.len() implies (#[trigger] s[i]).tick
                < (#[trigger] s[j]).tick by {
                assert(s[i] == if i < o.len() { o[i] } else { TaggedIntent { tick, intent } });
                if j == s.len() - 1 && i < o.len() {
                    if i < o.len() - 1 {
                        assert(o[i].tick < o[o.len() - 1].tick);
                    }
                } else if j < o.len() {
                    assert(s[j] == o[j]);
                }
            }
            assert forall|i: int| 0 <= i < s.len() implies (#[trigger] s[i]).tick
                > self.consumed by {
                if i < o.len() {
                    assert(s[i] == o[i]);
                }
            }
        }
        true
    }

    /// The intent to simulate `tick` with; entries up to `tick` are consumed.
    pub fn take(&mut self, tick: u64) -> (r: InputIntent)
        requires
            old(self).wf(),
            tick >= old(self).consumed,
        ensures
            final(self).wf(),
            r == old(self).intent_for(tick),
            final(self).pending@ == old(self).pending@.skip(due_count(old(self).pending@, tick)),
            final(self).last == if due_count(old(self).pending@, tick) > 0 || old(self).last is Some {
                Some(r)
            } else {
                None::<InputIntent>
            },
            final(self).consumed == tick,
    {
        proof {
            lemma_due_count(self.pending@, tick);
        }
        let ghost o = self.pending@;
        let mut n: usize = 0;
        while n < self.pending.len() && self.pending[n].tick <= tick
            invariant
                self.pending@ == o,
                n <= due_count(o, tick),
                0 <= due_count(o, tick) <= o.len(),
                forall|j: int| 0 <= j < due_count(o, tick) ==> (#[trigger] o[j]).tick <= tick,
                due_count(o, tick) < o.len() ==> o[due_count(o, tick)].tick > tick,
            decreases o.len() - n,
        {
            n = n + 1;
        }
        let r = if n > 0 {
            self.pending[n - 1].intent
        } else {
            match self.last {
                Some(i) => i,
                None => idle(),
            }
        };
        let mut rest: Vec<TaggedIntent> = Vec::new();
        let mut j: usize = n;
        while j < self.pending.len()
            invariant
                self.pending@ == o,
                n <= j <= o.len(),
                rest@ == o.subrange(n as int, j as int),
            decreases o.len() - j,
        {
            rest.push(self.pending[j]);
            proof {
                assert(o.subrange(n as int, j + 1) =~= o.subrange(n as int, j as int).push(o[j as int]));
            }
            j = j + 1;
        }
        proof {
            assert(rest@ =~= o.skip(n as int));
        }
        self.pending = rest;
        if n > 0 || self.last.is_some() {
            self.last = Some(r);
        }
        self.consumed = tick;
        proof {
            let s = self.pending@;
            assert forall|a: int, b: int| 0 <= a < b < s.len() implies (#[trigger] s[a]).tick
                < (#[trigger] s[b]).tick by {
                assert(s[a] == o[a + n]);
                assert(s[b] == o[b + n]);
            }
            assert forall|a: int| 0 <= a < s.len() implies (#[trigger] s[a]).tick > tick by {
                assert(s[a] == o[a + n]);
                if a + n > n {
                    assert(o[n as int].tick < o[a + n].tick);
                }
            }
        }
        r
    }
}

} // verus!
