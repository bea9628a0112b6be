//! The receiving client: each replication record is checked against the
//! replica store, and an applied update is routed by its component's
//! registration: reconciled for the locally predicted entity, smoothed for an
//! interpolated one, or kept as it is. Updates of components that only flow
//! from client to server are refused.
use vstd::prelude::*;
use crate::interpolation::{BlendFn, Interpolator, PERIOD_MAX};
use crate::prediction::{PredictedEntity, ReconcileOutcome, reconcile_post};
use crate::registry::{has_kind, Direction, Registration, Registry, SyncMode};
use crate::replication::{apply_spec, despawn_spec, ApplyOutcome, Record, ReplicaStore, Slot};

verus! {

/// Where a record went.
#[derive(Clone, Copy, Debug, PartialEq, Eq, Structural)]
pub enum Routed {
    /// A spawn or despawn, applied to the store with this outcome.
    Lifecycle(ApplyOutcome),
    /// The component type is not registered; the update was dropped.
    Unregistered,
    /// The component only flows from client to server; the update was dropped.
    WrongDirection,
    /// The store dropped the update (stale, or its entity is unknown).
    Dropped(ApplyOutcome),
    /// The value lies outside the world's bounds; only the store holds it.
    OutOfRange,
    /// The update was reconciled against the local prediction.
    Reconciled(ReconcileOutcome),
    /// The update became the newest sample of a remote entity.
    Interpolated,
    /// The update was committed as it is.
    Stored,
}

/// Whether `g` is the registration of `kind` in `s`.
pub open spec fn registered_as(s: Seq<Registration>, kind: u32, g: Registration) -> bool {
    s.contains(g) && g.kind == kind
}

/// The blend function an interpolated component uses.
pub open spec fn interp_fn(g: Registration) -> BlendFn {
    match g.interp {
        Some(f) => f,
        None => BlendFn::Linear,
    }
}

/// `n` plus one, held at the largest `u64`.
pub open spec fn bump(n: u64) -> u64 {
    if n < u64::MAX {
        (n + 1) as u64
    } else {
        n
    }
}

/// What taking sample `u` at `now` does to the smoothing states `o`, giving
/// `f`: the entity's state is promoted when the sample is newer and kept
/// otherwise; an entity without one gets a fresh state at the sample.
pub open spec fn interp_post(
    o: Seq<(u64, Interpolator)>,
    f: Seq<(u64, Interpolator)>,
    u: Slot,
    now: u64,
    period: u64,
    blend: BlendFn,
) -> bool {
    &&& forall|i: int|
        0 <= i < o.len() && (#[trigger] o[i]).0 == u.entity ==> f == if u.tick > o[i].1.tick1 {
            o.update(i, (u.entity, o[i].1.promoted(u.tick, u.value, now)))
        } else {
            o
        }
    &&& (forall|i: int| 0 <= i < o.len() ==> (#[trigger] o[i]).0 != u.entity) ==> f == o.push(
        (
            u.entity,
            Interpolator {
                tick0: u.tick,
                v0: u.value,
                tick1: u.tick,
                v1: u.value,
                start: now,
                period,
                f: blend,
            },
        ),
    )
}

/// The client side of a host-server or remote connection.
pub struct Client {
    pub registry: Registry,
    pub store: ReplicaStore,
    pub local_entity: u64,
    pub local: PredictedEntity,
    pub remote: Vec<(u64, Interpolator)>,
    pub period: u64,
    pub stale_dropped: u64,
}

impl Client {
    pub open spec fn wf(&self) -> bool {
        &&& self.registry.wf()
        &&& self.local.wf()
        &&& 1 <= self.period <= PERIOD_MAX
        &&& forall|i: int| 0 <= i < self.remote@.len() ==> (#[trigger] self.remote@[i]).1.wf()
        &&& forall|i: int, j: int|
            0 <= i < j < self.remote@.len() ==> (#[trigger] self.remote@[i]).0
                != (#[trigger] self.remote@[j]).0
    }

    /// A client that predicts `local_entity` and smooths remote entities over
    /// `period` nanoseconds.
    pub fn new(registry: Registry, local_entity: u64, local: PredictedEntity, period: u64) -> (r:
        Client)
        requires
            registry.wf(),
            local.wf(),
            1 <= period <= PERIOD_MAX,
        ensures
            r.wf(),
            r.registry == registry,
            r.local == local,
            r.local_entity == local_entity,
            r.period == period,
            r.stale_dropped == 0,
            r.store.known@.len() == 0,
            r.store.slots@.len() == 0,
            r.remote@.len() == 0,
    {
        Client {
            registry,
            store: ReplicaStore::new(),
            local_entity,
            local,
            remote: Vec::new(),
            period,
            stale_dropped: 0,
        }
    }

    fn count_stale(&mut self)
        ensures
            final(self).stale_dropped == bump(old(self).stale_dropped),
            final(self).registry == old(self).registry,
            final(self).store == old(self).store,
            final(self).local == old(self).local,
            final(self).local_entity == old(self).local_entity,
            final(self).remote == old(self).remote,
            final(self).period == old(self).period,
    {
        if self.stale_dropped < u64::MAX {
            self.stale_dropped = self.stale_dropped + 1;
        }
    }

    fn remote_index(&self, e: u64) -> (r: Option<usize>)
        ensures
            match r {
                Some(i) => i < self.remote@.len() && self.remote@[i as int].0 == e,
                None => forall|i: int| 0 <= i < self.remote@.len() ==> (#[trigger] self.remote@[i]).0 != e,
            },
    {
        let mut i: usize = 0;
        while i < self.remote.len()
            invariant
                i <= self.remote@.len(),
                forall|j: int| 0 <= j < i ==> (#[trigger] self.remote@[j]).0 != e,
            decreases self.remote@.len() - i,
        {
            if self.remote[i].0 == e {
                return Some(i);
            }
            i = i + 1;
        }
        None
    }

    fn interpolate(&mut self, u: Slot, f: BlendFn, now: u64)
        requires
            old(self).wf(),
            u.value.in_range(),
        ensures
            final(self).wf(),
            final(self).registry == old(self).registry,
            final(self).store == old(self).store,
            final(self).local == old(self).local,
            final(self).local_entity == old(self).local_entity,
            final(self).period == old(self).period,
            final(self).stale_dropped == old(self).stale_dropped,
            interp_post(old(self).remote@, final(self).remote@, u, now, old(self).period, f),
    {
        let ghost o = self.remote@;
        match self.remote_index(u.entity) {
            Some(i) => {
                let mut s = self.remote[i].1;
                s.push_sample(u.tick, u.value, now);
                self.remote.set(i, (u.entity, s));
                proof {
                    assert forall|k: int| 0 <= k < o.len() && (#[trigger] o[k]).0 == u.entity
                        implies k == i by {}
                    if u.tick <= o[i as int].1.tick1 {
                        assert(self.remote@ =~= o);
                    }
                }
            },
            None => {
                let s = Interpolator::new(u.tick, u.value, now, self.period, f);
                self.remote.push((u.entity, s));
            },
        }
        proof {
            let r = self.remote@;
            assert forall|k: int| 0 <= k < r.len() implies (#[trigger] r[k]).1.wf() by {
                if k < o.len() {
                    assert(o[k].1.wf());
                }
            }
            assert forall|a: int, b: int| 0 <= a < b < r.len() implies (#[trigger] r[a]).0
                != (#[trigger] r[b]).0 by {
                if b < o.len() {
                    assert(r[a].0 == o[a].0 && r[b].0 == o[b].0);
                } else {
                    assert(r[a].0 == o[a].0);
                }
            }
        }
    }

    fn forget_remote(&mut self, e: u64)
        requires
            old(self).wf(),
        ensures
            final(self).wf(),
            final(self).registry == old(self).registry,
            final(self).store == old(self).store,
            final(self).local == old(self).local,
            final(self).local_entity == old(self).local_entity,
            final(self).period == old(self).period,
            final(self).stale_dropped == old(self).stale_dropped,
            forall|i: int|
                0 <= i < final(self).remote@.len() ==> (#[trigger] final(self).remote@[i]).0 != e
                    && old(self).remote@.contains(final(self).remote@[i]),
            forall|i: int|
                0 <= i < old(self).remote@.len() && (#[trigger] old(self).remote@[i]).0 != e
                    ==> final(self).remote@.contains(old(self).remote@[i]),
    {
        let ghost o = self.remote@;
        let mut kept: Vec<(u64, Interpolator)> = Vec::new();
        let ghost mut idx: Seq<int> = Seq::empty();
        let mut i: usize = 0;
        while i < self.remote.len()
            invariant
                self.wf(),
                self.remote@ == o,
                self.registry == old(self).registry,
                self.store == old(self).store,
                self.local == old(self).local,
                self.local_entity == old(self).local_entity,
                self.period == old(self).period,
                self.stale_dropped == old(self).stale_dropped,
                i <= o.len(),
                idx.len() == kept@.len(),
                forall|j: int| 0 <= j < kept@.len() ==> 0 <= #[trigger] idx[j] < i && kept@[j] == o[idx[j]]
                    && kept@[j].0 != e,
                forall|a: int, b: int| 0 <= a < b < idx.len() ==> #[trigger] idx[a] < #[trigger] idx[b],
                forall|m: int| 0 <= m < i && (#[trigger] o[m]).0 != e ==> kept@.contains(o[m]),
            decreases o.len() - i,
        {
            let entry = self.remote[i];
            if entry.0 != e {
                let ghost before = kept@;
                kept.push(entry);
                proof {
                    idx = idx.push(i as int);
                    assert forall|m: int| 0 <= m <= i && (#[trigger] o[m]).0 != e implies kept@.contains(o[m]) by {
                        if m < i {
                            let j = choose|j: int| 0 <= j < before.len() && before[j] == o[m];
                            assert(kept@[j] == o[m]);
                        } else {
                            assert(kept@[kept@.len() - 1] == o[m]);
                        }
                    }
                }
            }
            i = i + 1;
        }
        self.remote = kept;
        proof {
            let r = self.remote@;
            assert forall|k: int| 0 <= k < r.len() implies (#[trigger] r[k]).1.wf() by {
                assert(r[k] == o[idx[k]]);
            }
            assert forall|a: int, b: int| 0 <= a < b < r.len() implies (#[trigger] r[a]).0
                != (#[trigger] r[b]).0 by {
                assert(r[a] == o[idx[a]] && r[b] == o[idx[b]]);
                assert(idx[a] < idx[b]);
            }
            assert forall|k: int| 0 <= k < r.len() implies (#[trigger] r[k]).0 != e && o.contains(r[k]) by {
                assert(r[k] == o[idx[k]]);
            }
        }
    }

    /// Receives one record at time `now`. A despawn also drops the smoothing
    /// state of the entity. Stale drops are counted in `stale_dropped`.
    pub fn receive(&mut self, rec: Record, now: u64) -> (r: Routed)
        requires
            old(self).wf(),
        ensures
            final(self).wf(),
            final(self).registry == old(self).registry,
            final(self).local_entity == old(self).local_entity,
            final(self).period == old(self).period,
            match rec {
                Record::Spawn(e) => {
                    &&& r == Routed::Lifecycle(ApplyOutcome::Applied)
                    &&& final(self).store.known@ == if old(self).store.known@.contains(e) {
                        old(self).store.known@
                    } else {
                        old(self).store.known@.push(e)
                    }
                    &&& final(self).store.slots@ == old(self).store.slots@
                    &&& final(self).local == old(self).local
                    &&& final(self).remote@ == old(self).remote@
                    &&& final(self).stale_dropped == old(self).stale_dropped
                },
                Record::Despawn(e) => {
                    &&& r == Routed::Lifecycle(
                        if despawn_spec(old(self).store.view(), e).0 {
                            ApplyOutcome::Applied
                        } else {
                            ApplyOutcome::UnknownEntityReference
                        },
                    )
                    &&& final(self).store.view() == despawn_spec(old(self).store.view(), e).1
                    &&& final(self).local == old(self).local
                    &&& final(self).stale_dropped == old(self).stale_dropped
                    &&& forall|i: int|
                        0 <= i < final(self).remote@.len()
                            ==> (#[trigger] final(self).remote@[i]).0 != e
                            && old(self).remote@.contains(final(self).remote@[i])
                    &&& forall|i: int|
                        0 <= i < old(self).remote@.len() && (#[trigger] old(self).remote@[i]).0
                            != e ==> final(self).remote@.contains(old(self).remote@[i])
                },
                Record::Update(u) => {
                    &&& !has_kind(old(self).registry.entries@, u.component) ==> {
                        &&& r == Routed::Unregistered
                        &&& final(self).store == old(self).store
                        &&& final(self).local == old(self).local
                        &&& final(self).remote@ == old(self).remote@
                        &&& final(self).stale_dropped == old(self).stale_dropped
                    }
                    &&& forall|g: Registration|
                        #[trigger] registered_as(old(self).registry.entries@, u.component, g)
                            ==> route_post(*old(self), *final(self), u, now, g, r)
                },
            },
    {
        match rec {
            Record::Spawn(_) => Routed::Lifecycle(self.store.receive(rec)),
            Record::Despawn(e) => {
                let o = self.store.receive(rec);
                self.forget_remote(e);
                Routed::Lifecycle(o)
            },
            Record::Update(u) => {
                let g = match self.registry.lookup(u.component) {
                    None => {
                        return Routed::Unregistered;
                    },
                    Some(g) => g,
                };
                proof {
                    lemma_registration_unique(self.registry, u.component, g);
                }
                if g.direction == Direction::ClientToServer {
                    return Routed::WrongDirection;
                }
                let o = self.store.apply_update(u);
                if o != ApplyOutcome::Applied {
                    if o == ApplyOutcome::StaleUpdateDropped {
                        self.count_stale();
                    }
                    return Routed::Dropped(o);
                }
                if !u.value.is_in_range() {
                    return Routed::OutOfRange;
                }
                match g.mode {
                    SyncMode::Predicted => {
                        if u.entity == self.local_entity {
                            let ro = self.local.reconcile(u.tick, u.value);
                            if ro == ReconcileOutcome::StaleUpdateDropped {
                                self.count_stale();
                            }
                            Routed::Reconciled(ro)
                        } else {
                            Routed::Stored
                        }
                    },
                    SyncMode::Interpolated => {
                        let f = match g.interp {
                            Some(f) => f,
                            None => BlendFn::Linear,
                        };
                        self.interpolate(u, f, now);
                        Routed::Interpolated
                    },
                    SyncMode::Unsynced => Routed::Stored,
                }
            },
        }
    }
}

/// What `receive` does with update `u` of a component registered as `g`.
pub open spec fn route_post(o: Client, f: Client, u: Slot, now: u64, g: Registration, r: Routed) -> bool {
    let (a, v) = apply_spec(o.store.view(), u);
    if g.direction == Direction::ClientToServer {
        &&& r == Routed::WrongDirection
        &&& f.store == o.store
        &&& f.local == o.local
        &&& f.remote@ == o.remote@
        &&& f.stale_dropped == o.stale_dropped
    } else {
        &&& f.store.view() == v
        &&& a != ApplyOutcome::Applied ==> {
            &&& r == Routed::Dropped(a)
            &&& f.local == o.local
            &&& f.remote@ == o.remote@
            &&& f.stale_dropped == if a == ApplyOutcome::StaleUpdateDropped {
                bump(o.stale_dropped)
            } else {
                o.stale_dropped
            }
        }
        &&& a == ApplyOutcome::Applied && !u.value.in_range() ==> {
            &&& r == Routed::OutOfRange
            &&& f.local == o.local
            &&& f.remote@ == o.remote@
            &&& f.stale_dropped == o.stale_dropped
        }
        &&& a == ApplyOutcome::Applied && u.value.in_range() ==> if g.mode == SyncMode::Predicted
            && u.entity == o.local_entity {
            &&& r is Reconciled
            &&& reconcile_post(o.local, f.local, u.tick, u.value, r->Reconciled_0)
            &&& f.remote@ == o.remote@
            &&& f.stale_dropped == if r->Reconciled_0 == ReconcileOutcome::StaleUpdateDropped {
                bump(o.stale_dropped)
            } else {
                o.stale_dropped
            }
        } else if g.mode == SyncMode::Interpolated {
            &&& r == Routed::Interpolated
            &&& f.local == o.local
            &&& interp_post(o.remote@, f.remote@, u, now, o.period, interp_fn(g))
            &&& f.stale_dropped == o.stale_dropped
        } else {
            &&& r == Routed::Stored
            &&& f.local == o.local
            &&& f.remote@ == o.remote@
            &&& f.stale_dropped == o.stale_dropped
        }
    }
}

/// A component type has one registration.
proof fn lemma_registration_unique(reg: Registry, kind: u32, g: Registration)
    requires
        reg.wf(),
        registered_as(reg.entries@, kind, g),
    ensures
        forall|h: Registration| #[trigger] registered_as(reg.entries@, kind, h) ==> h == g,
{
    assert forall|h: Registration| #[trigger] registered_as(reg.entries@, kind, h) implies h == g by {
        let s = reg.entries@;
        let i = choose|i: int| 0 <= i < s.len() && s[i] == g;
        let j = choose|j: int| 0 <= j < s.len() && s[j] == h;
        if i < j {
            assert(s[i].kind != s[j].kind);
        } else if j < i {
            assert(s[j].kind != s[i].kind);
        }
    }
}

} // verus!
