//! The receiving side of the replication channel: spawn and despawn
//! records, and per-(entity, component) updates applied in tick order, with
//! stale and unknown updates dropped.
use vstd::prelude::*;
use crate::transform::Transform;

verus! {

/// The last committed value of one component of one entity.
#[derive(Clone, Copy, Debug, PartialEq, Eq, Structural)]
pub struct Slot {
    pub entity: u64,
    pub component: u32,
    pub tick: u64,
    pub value: Transform,
}

/// A message of the replication channel.
#[derive(Clone, Copy, Debug, PartialEq, Eq, Structural)]
pub enum Record {
    Spawn(u64),
    Despawn(u64),
    Update(Slot),
}

/// What the receiver did with a record.
#[derive(Clone, Copy, Debug, PartialEq, Eq, Structural)]
pub enum ApplyOutcome {
    Applied,
    StaleUpdateDropped,
    UnknownEntityReference,
}

/// Whether slot `s` is the slot of component `c` of entity `e`.
pub open spec fn same_key(s: Slot, e: u64, c: u32) -> bool {
    s.entity == e && s.component == c
}

/// The first index of `s` that holds the slot of `(e, c)`, or -1.
pub open spec fn find(s: Seq<Slot>, e: u64, c: u32) -> int
    decreases s.len(),
{
    if s.len() == 0 {
        -1
    } else if same_key(s[0], e, c) {
        0
    } else {
        let r = find(s.drop_first(), e, c);
        if r < 0 {
            -1
        } else {
            r + 1
        }
    }
}

/// `find` gives the first index holding the slot, or -1 when none does.
pub proof fn lemma_find(s: Seq<Slot>, e: u64, c: u32)
    ensures
        -1 <= find(s, e, c) < s.len(),
        find(s, e, c) >= 0 ==> same_key(s[find(s, e, c)], e, c),
        forall|j: int|
            0 <= j < s.len() && (find(s, e, c) < 0 || j < find(s, e, c)) ==> !same_key(
                #[trigger] s[j],
                e,
                c,
            ),
    decreases s.len(),
{
    if s.len() > 0 && !same_key(s[0], e, c) {
        let t = s.drop_first();
        lemma_find(t, e, c);
        assert forall|j: int|
            0 <= j < s.len() && (find(s, e, c) < 0 || j < find(s, e, c)) implies !same_key(
            #[trigger] s[j],
            e,
            c,
        ) by {
            if j > 0 {
                assert(s[j] == t[j - 1]);
            }
        }
    }
}

/// Whether slot `s` belongs to another entity than `e`.
pub open spec fn not_of(e: u64) -> spec_fn(Slot) -> bool {
    |s: Slot| s.entity != e
}

/// Whether `x` is another entity than `e`.
pub open spec fn other_than(e: u64) -> spec_fn(u64) -> bool {
    |x: u64| x != e
}

/// The replica state an observer holds: the entities it knows and the
/// committed component slots.
pub struct ReplicaView {
    pub known: Seq<u64>,
    pub slots: Seq<Slot>,
}

/// Applying the update `u`: dropped when its entity is unknown or its tick is
/// not after the committed one, otherwise committed.
pub open spec fn apply_spec(v: ReplicaView, u: Slot) -> (ApplyOutcome, ReplicaView) {
    let i = find(v.slots, u.entity, u.component);
    if !v.known.contains(u.entity) {
        (ApplyOutcome::UnknownEntityReference, v)
    } else if i >= 0 && u.tick <= v.slots[i].tick {
        (ApplyOutcome::StaleUpdateDropped, v)
    } else if i >= 0 {
        (ApplyOutcome::Applied, ReplicaView { known: v.known, slots: v.slots.update(i, u) })
    } else {
        (ApplyOutcome::Applied, ReplicaView { known: v.known, slots: v.slots.push(u) })
    }
}

/// Removing entity `e` and its slots.
pub open spec fn despawn_spec(v: ReplicaView, e: u64) -> (bool, ReplicaView) {
    if v.known.contains(e) {
        (
            true,
            ReplicaView {
                known: v.known.filter(other_than(e)),
                slots: v.slots.filter(not_of(e)),
            },
        )
    } else {
        (false, v)
    }
}

/// An observer's copy of the replicated entities.
pub struct ReplicaStore {
    pub known: Vec<u64>,
    pub slots: Vec<Slot>,
}

impl ReplicaStore {
    pub open spec fn view(&self) -> ReplicaView {
        ReplicaView { known: self.known@, slots: self.slots@ }
    }

    pub fn new() -> (r: ReplicaStore)
        ensures
            r.known@.len() == 0,
            r.slots@.len() == 0,
    {
        ReplicaStore { known: Vec::new(), slots: Vec::new() }
    }

    /// Whether `e` is a known entity.
    pub fn is_known(&self, e: u64) -> (r: bool)
        ensures
            r == self.known@.contains(e),
    {
        let mut i: usize = 0;
        while i < self.known.len()
            invariant
                i <= self.known@.len(),
                forall|j: int| 0 <= j < i ==> self.known@[j] != e,
            decreases self.known@.len() - i,
        {
            if self.known[i] == e {
                return true;
            }
            i = i + 1;
        }
        false
    }

    fn find_slot(&self, e: u64, c: u32) -> (r: Option<usize>)
        ensures
            match r {
                Some(i) => i == find(self.slots@, e, c) && i < self.slots@.len(),
                None => find(self.slots@, e, c) == -1,
            },
    {
        let mut i: usize = 0;
        while i < self.slots.len()
            invariant
                i <= self.slots@.len(),
                forall|j: int| 0 <= j < i ==> !same_key(#[trigger] self.slots@[j], e, c),
            decreases self.slots@.len() - i,
        {
            if self.slots[i].entity == e && self.slots[i].component == c {
                proof {
                    lemma_find(self.slots@, e, c);
                }
                return Some(i);
            }
            i = i + 1;
        }
        proof {
            lemma_find(self.slots@, e, c);
        }
        None
    }

    /// Records entity `e` as known; false when it already was.
    pub fn spawn(&mut self, e: u64) -> (r: bool)
        ensures
            r == !old(self).known@.contains(e),
            final(self).known@ == if r {
                old(self).known@.push(e)
            } else {
                old(self).known@
            },
            final(self).slots@ == old(self).slots@,
    {
        if self.is_known(e) {
            false
        } else {
            self.known.push(e);
            true
        }
    }

    /// Applies an authoritative update; a repeated or older tick for the
    /// same entity and component is dropped and changes nothing.
    pub fn apply_update(&mut self, u: Slot) -> (r: ApplyOutcome)
        ensures
            (r, final(self).view()) == apply_spec(old(self).view(), u),
    {
        if !self.is_known(u.entity) {
            return ApplyOutcome::UnknownEntityReference;
        }
        match self.find_slot(u.entity, u.component) {
            Some(i) => {
                if u.tick <= self.slots[i].tick {
                    ApplyOutcome::StaleUpdateDropped
                } else {
                    self.slots.set(i, u);
                    proof {
                        assert(self.view().slots =~= apply_spec(old(self).view(), u).1.slots);
                    }
                    ApplyOutcome::Applied
                }
            },
            None => {
                self.slots.push(u);
                ApplyOutcome::Applied
            },
        }
    }

    /// Removes entity `e` and its slots; false when it was not known.
    pub fn despawn(&mut self, e: u64) -> (r: bool)
        ensures
            (r, final(self).view()) == despawn_spec(old(self).view(), e),
    {
        if !self.is_known(e) {
            return false;
        }
        let ghost old_known = self.known@;
        proof {
            assert(old_known.subrange(0, 0) =~= Seq::<u64>::empty());
            reveal(Seq::filter);
        }
        let mut kept: Vec<u64> = Vec::new();
        let mut i: usize = 0;
        while i < self.known.len()
            invariant
                i <= self.known@.len(),
                self.known@ == old_known,
                kept@ == old_known.subrange(0, i as int).filter(other_than(e)),
            decreases self.known@.len() - i,
        {
            let x = self.known[i];
            proof {
                let t = old_known.subrange(0, i as int);
                assert(old_known.subrange(0, i + 1) =~= t.push(x));
                t.lemma_filter_push(x, other_than(e));
            }
            if x != e {
                kept.push(x);
            }
            i = i + 1;
        }
        proof {
            assert(old_known.subrange(0, old_known.len() as int) =~= old_known);
        }
        self.known = kept;
        let ghost old_slots = self.slots@;
        proof {
            assert(old_slots.subrange(0, 0) =~= Seq::<Slot>::empty());
            reveal(Seq::filter);
        }
        let mut fresh: Vec<Slot> = Vec::new();
        let mut j: usize = 0;
        while j < self.slots.len()
            invariant
                j <= self.slots@.len(),
                self.slots@ == old_slots,
                fresh@ == old_slots.subrange(0, j as int).filter(not_of(e)),
            decreases self.slots@.len() - j,
        {
            let s = self.slots[j];
            proof {
                let t = old_slots.subrange(0, j as int);
                assert(old_slots.subrange(0, j + 1) =~= t.push(s));
                t.lemma_filter_push(s, not_of(e));
            }
            if s.entity != e {
                fresh.push(s);
            }
            j = j + 1;
        }
        proof {
            assert(old_slots.subrange(0, old_slots.len() as int) =~= old_slots);
        }
        self.slots = fresh;
        true
    }

    /// Applies one record of the replication channel.
    pub fn receive(&mut self, rec: Record) -> (r: ApplyOutcome)
        ensures
            match rec {
                Record::Spawn(e) => {
                    &&& r == ApplyOutcome::Applied
                    &&& final(self).view().known == if old(self).known@.contains(e) {
                        old(self).known@
                    } else {
                        old(self).known@.push(e)
                    }
                    &&& final(self).view().slots == old(self).view().slots
                },
                Record::Despawn(e) => {
                    &&& final(self).view() == despawn_spec(old(self).view(), e).1
                    &&& r == if despawn_spec(old(self).view(), e).0 {
                        ApplyOutcome::Applied
                    } else {
                        ApplyOutcome::UnknownEntityReference
                    }
                },
                Record::Update(u) => (r, final(self).view()) == apply_spec(old(self).view(), u),
            },
    {
        match rec {
            Record::Spawn(e) => {
                self.spawn(e);
                ApplyOutcome::Applied
            },
            Record::Despawn(e) => {
                if self.despawn(e) {
                    ApplyOutcome::Applied
                } else {
                    ApplyOutcome::UnknownEntityReference
                }
            },
            Record::Update(u) => self.apply_update(u),
        }
    }
}

/// Applying the same update twice leaves the same state as applying it once.
pub proof fn lemma_apply_idempotent(v: ReplicaView, u: Slot)
    ensures
        apply_spec(apply_spec(v, u).1, u).1 == apply_spec(v, u).1,
        apply_spec(v, u).0 == ApplyOutcome::Applied ==> apply_spec(apply_spec(v, u).1, u).0
            == ApplyOutcome::StaleUpdateDropped,
{
    let w = apply_spec(v, u).1;
    lemma_find(v.slots, u.entity, u.component);
    lemma_find(w.slots, u.entity, u.component);
    if apply_spec(v, u).0 == ApplyOutcome::Applied {
        let i = find(v.slots, u.entity, u.component);
        if i >= 0 {
            assert(same_key(w.slots[i], u.entity, u.component));
            let k = find(w.slots, u.entity, u.component);
            assert(k >= 0);
            if k < i {
                assert(w.slots[k] == v.slots[k]);
            }
            if k > i {
                assert(!same_key(w.slots[i], u.entity, u.component));
            }
        } else {
            let n = v.slots.len() as int;
            assert(same_key(w.slots[n], u.entity, u.component));
            let k = find(w.slots, u.entity, u.component);
            assert(k >= 0);
            if k < n {
                assert(w.slots[k] == v.slots[k]);
                assert(same_key(v.slots[k], u.entity, u.component));
            }
        }
    }
}

/// Commits for one entity and component go in strictly increasing tick
/// order: an update is committed only when its tick is after the one
/// committed before, and what is committed is that update.
pub proof fn lemma_commits_increase(v: ReplicaView, u: Slot)
    requires
        apply_spec(v, u).0 == ApplyOutcome::Applied,
    ensures
        ({
            let i = find(v.slots, u.entity, u.component);
            let w = apply_spec(v, u).1;
            let k = find(w.slots, u.entity, u.component);
            &&& i >= 0 ==> u.tick > v.slots[i].tick
            &&& k >= 0
            &&& w.slots[k] == u
        }),
{
    let w = apply_spec(v, u).1;
    lemma_find(v.slots, u.entity, u.component);
    lemma_find(w.slots, u.entity, u.component);
    let i = find(v.slots, u.entity, u.component);
    if i >= 0 {
        assert(same_key(w.slots[i], u.entity, u.component));
        let k = find(w.slots, u.entity, u.component);
        if k < i {
            assert(w.slots[k] == v.slots[k]);
        }
        if k > i {
            assert(!same_key(w.slots[i], u.entity, u.component));
        }
    } else {
        let n = v.slots.len() as int;
        assert(same_key(w.slots[n], u.entity, u.component));
        let k = find(w.slots, u.entity, u.component);
        if k < n {
            assert(w.slots[k] == v.slots[k]);
            assert(same_key(v.slots[k], u.entity, u.component));
        }
    }
}

} // verus!
