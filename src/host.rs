//! The authoritative side: one player entity per connected client, the
//! simulation tick that moves them, and the records it replicates. The local
//! client of a host-server goes through the same path as a remote one.
use vstd::prelude::*;
use crate::transform::{InputIntent, MoveParams, Transform, step, step_spec, trajectory};
use crate::prediction::{PredictedEntity, intents_of, lemma_history_is_trajectory};
use crate::input::ClientInputs;
use crate::replication::{Record, Slot, ReplicaView, despawn_spec, other_than, not_of};

verus! {

/// The client co-located with the authoritative simulation.
pub const LOCAL_CLIENT: u64 = 0;

/// A connected client's player entity, its authoritative value, its input
/// queue and the value last replicated.
pub struct Player {
    pub client: u64,
    pub entity: u64,
    pub value: Transform,
    pub inputs: ClientInputs,
    pub last_sent: Option<Transform>,
}

/// Whether some player in `s` belongs to `client`.
pub open spec fn has_client(s: Seq<Player>, client: u64) -> bool {
    exists|i: int| 0 <= i < s.len() && (#[trigger] s[i]).client == client
}

/// Whether player `p` belongs to another client than `client`.
pub open spec fn not_client(client: u64) -> spec_fn(Player) -> bool {
    |p: Player| p.client != client
}

/// The authoritative value of player `p` after simulating `tick`.
pub open spec fn advanced(p: Player, tick: u64, params: MoveParams) -> Transform {
    step_spec(p.value, p.inputs.intent_for(tick), params)
}

/// The update records simulating `tick` produces for the first `n` players:
/// one for each player whose new value differs from the value last
/// replicated, in player order.
pub open spec fn changed_updates(
    players: Seq<Player>,
    n: int,
    tick: u64,
    params: MoveParams,
    component: u32,
) -> Seq<Record>
    decreases n,
{
    if n <= 0 {
        Seq::empty()
    } else {
        let prev = changed_updates(players, n - 1, tick, params, component);
        let p = players[n - 1];
        let v = advanced(p, tick, params);
        if p.last_sent == Some(v) {
            prev
        } else {
            prev.push(Record::Update(Slot { entity: p.entity, component, tick, value: v }))
        }
    }
}

/// What happens to a client's entity when the client disconnects.
#[derive(Clone, Copy, Debug, PartialEq, Eq, Structural)]
pub enum DisconnectPolicy {
    /// The entity is removed and a despawn record is sent.
    Despawn,
    /// The entity is no longer simulated; observers keep its last state.
    Orphan,
}

/// The records that make the first `n` players visible to a new observer:
/// for each, its spawn and then its current value.
pub open spec fn snapshot_records(players: Seq<Player>, n: int, tick: u64, component: u32) -> Seq<
    Record,
>
    decreases n,
{
    if n <= 0 {
        Seq::empty()
    } else {
        let p = players[n - 1];
        snapshot_records(players, n - 1, tick, component).push(Record::Spawn(p.entity)).push(
            Record::Update(Slot { entity: p.entity, component, tick, value: p.value }),
        )
    }
}

/// The authoritative simulation of a host-server.
pub struct Host {
    pub players: Vec<Player>,
    pub next_entity: u64,
    pub tick: u64,
    pub params: MoveParams,
    pub component: u32,
    pub policy: DisconnectPolicy,
}

impl Host {
    pub open spec fn wf(&self) -> bool {
        &&& self.params.wf()
        &&& forall|i: int, j: int|
            0 <= i < j < self.players@.len() ==> (#[trigger] self.players@[i]).client
                != (#[trigger] self.players@[j]).client
        &&& forall|i: int|
            0 <= i < self.players@.len() ==> (#[trigger] self.players@[i]).inputs.wf()
                && self.players@[i].inputs.consumed <= self.tick
        &&& forall|i: int|
            0 <= i < self.players@.len() ==> (#[trigger] self.players@[i]).entity
                < self.next_entity
        &&& forall|i: int, j: int|
            0 <= i < j < self.players@.len() ==> (#[trigger] self.players@[i]).entity
                != (#[trigger] self.players@[j]).entity
    }

    /// A host with no client yet, replicating players under `component`.
    pub fn new(params: MoveParams, component: u32) -> (r: Host)
        requires
            params.wf(),
        ensures
            r.wf(),
            r.players@.len() == 0,
            r.tick == 0,
            r.next_entity == 0,
            r.params == params,
            r.component == component,
            r.policy == DisconnectPolicy::Despawn,
    {
        Host {
            players: Vec::new(),
            next_entity: 0,
            tick: 0,
            params,
            component,
            policy: DisconnectPolicy::Despawn,
        }
    }

    /// Sets what a disconnection does to the client's entity.
    pub fn set_policy(&mut self, policy: DisconnectPolicy)
        requires
            old(self).wf(),
        ensures
            final(self).wf(),
            final(self).policy == policy,
            final(self).players@ == old(self).players@,
            final(self).next_entity == old(self).next_entity,
            final(self).tick == old(self).tick,
            final(self).params == old(self).params,
            final(self).component == old(self).component,
    {
        self.policy = policy;
    }

    /// The records that make every player visible to an observer that has
    /// none of them yet: each player's spawn, then its current value.
    pub fn snapshot(&self) -> (r: Vec<Record>)
        ensures
            r@ == snapshot_records(self.players@, self.players@.len() as int, self.tick, self.component),
    {
        let mut out: Vec<Record> = Vec::new();
        let mut i: usize = 0;
        while i < self.players.len()
            invariant
                i <= self.players@.len(),
                out@ == snapshot_records(self.players@, i as int, self.tick, self.component),
            decreases self.players@.len() - i,
        {
            let e = self.players[i].entity;
            out.push(Record::Spawn(e));
            out.push(Record::Update(Slot { entity: e, component: self.component, tick: self.tick, value: self.players[i].value }));
            i = i + 1;
        }
        out
    }

    fn position(&self, client: u64) -> (r: Option<usize>)
        ensures
            match r {
                Some(i) => i < self.players@.len() && self.players@[i as int].client == client,
                None => !has_client(self.players@, client),
            },
    {
        let mut i: usize = 0;
        while i < self.players.len()
            invariant
                i <= self.players@.len(),
                forall|j: int| 0 <= j < i ==> (#[trigger] self.players@[j]).client != client,
            decreases self.players@.len() - i,
        {
            if self.players[i].client == client {
                return Some(i);
            }
            i = i + 1;
        }
        None
    }

    /// Connects `client` with a player entity at `start`, and returns the
    /// spawn record; none when the client is connected already, since its
    /// binding to its entity never changes.
    pub fn connect(&mut self, client: u64, start: Transform) -> (r: Option<Record>)
        requires
            old(self).wf(),
            old(self).next_entity < u64::MAX,
        ensures
            final(self).wf(),
            final(self).tick == old(self).tick,
            final(self).params == old(self).params,
            final(self).component == old(self).component,
            final(self).policy == old(self).policy,
            has_client(old(self).players@, client) ==> r is None && final(self).players@ == old(
                self,
            ).players@ && final(self).next_entity == old(self).next_entity,
            !has_client(old(self).players@, client) ==> {
                &&& r == Some(Record::Spawn(old(self).next_entity))
                &&& final(self).next_entity == old(self).next_entity + 1
                &&& final(self).players@.len() == old(self).players@.len() + 1
                &&& final(self).players@.drop_last() == old(self).players@
                &&& final(self).players@.last().client == client
                &&& final(self).players@.last().entity == old(self).next_entity
                &&& final(self).players@.last().value == start
                &&& final(self).players@.last().last_sent is None
                &&& final(self).players@.last().inputs.pending@.len() == 0
                &&& final(self).players@.last().inputs.last is None
                &&& final(self).players@.last().inputs.consumed == old(self).tick
            },
    {
        if self.position(client).is_some() {
            return None;
        }
        let entity = self.next_entity;
        let mut inputs = ClientInputs::new();
        inputs.consumed = self.tick;
        self.players.push(Player { client, entity, value: start, inputs, last_sent: None });
        self.next_entity = entity + 1;
        proof {
            let s = self.players@;
            let o = old(self).players@;
            assert(s.drop_last() =~= o);
            assert forall|i: int, j: int| 0 <= i < j < s.len() implies (#[trigger] s[i]).client
                != (#[trigger] s[j]).client by {
                assert(s[i] == o[i]);
                if j < o.len() {
                    assert(s[j] == o[j]);
                }
            }
            assert forall|i: int| 0 <= i < s.len() implies (#[trigger] s[i]).inputs.wf()
                && s[i].inputs.consumed <= self.tick by {
                if i < o.len() {
                    assert(s[i] == o[i]);
                }
            }
            assert forall|i: int| 0 <= i < s.len() implies (#[trigger] s[i]).entity
                < self.next_entity by {
                if i < o.len() {
                    assert(s[i] == o[i]);
                }
            }
            assert forall|i: int, j: int| 0 <= i < j < s.len() implies (#[trigger] s[i]).entity
                != (#[trigger] s[j]).entity by {
                assert(s[i] == o[i]);
                if j < o.len() {
                    assert(s[j] == o[j]);
                }
            }
        }
        Some(Record::Spawn(entity))
    }

    /// Routes an intent from `client` for `tick` to its queue; false when the
    /// client is unknown or the intent is stale.
    pub fn receive_input(&mut self, client: u64, tick: u64, intent: InputIntent) -> (r: bool)
        requires
            old(self).wf(),
        ensures
            final(self).wf(),
            final(self).tick == old(self).tick,
            final(self).next_entity == old(self).next_entity,
            final(self).params == old(self).params,
            final(self).component == old(self).component,
            final(self).policy == old(self).policy,
            final(self).players@.len() == old(self).players@.len(),
            !has_client(old(self).players@, client) ==> !r && final(self).players@ == old(
                self,
            ).players@,
            has_client(old(self).players@, client) ==> exists|i: int|
                0 <= i < old(self).players@.len() && (#[trigger] old(self).players@[i]).client
                    == client && {
                    let o = old(self).players@[i];
                    let p = final(self).players@[i];
                    &&& r == o.inputs.accepts(tick)
                    &&& p.client == o.client
                    &&& p.entity == o.entity
                    &&& p.value == o.value
                    &&& p.last_sent == o.last_sent
                    &&& p.inputs.last == o.inputs.last
                    &&& p.inputs.consumed == o.inputs.consumed
                    &&& p.inputs.pending@ == if r {
                        o.inputs.pending@.push(crate::input::TaggedIntent { tick, intent })
                    } else {
                        o.inputs.pending@
                    }
                    &&& forall|k: int|
                        0 <= k < old(self).players@.len() && k != i
                            ==> #[trigger] final(self).players@[k] == old(self).players@[k]
                },
    {
        match self.position(client) {
            None => false,
            Some(i) => {
                let mut p = self.players.remove(i);
                let ok = p.inputs.receive(tick, intent);
                self.players.insert(i, p);
                proof {
                    let s = self.players@;
                    let o = old(self).players@;
                    assert forall|a: int| 0 <= a < s.len() && a != i implies #[trigger] s[a]
                        == o[a] by {}
                    assert forall|a: int, b: int| 0 <= a < b < s.len() implies (#[trigger] s[
                        a
                    ]).client != (#[trigger] s[b]).client by {
                        assert(s[a].client == o[a].client);
                        assert(s[b].client == o[b].client);
                    }
                    assert forall|a: int| 0 <= a < s.len() implies (#[trigger] s[a]).inputs.wf()
                        && s[a].inputs.consumed <= self.tick by {
                        if a != i {
                            assert(s[a] == o[a]);
                        }
                    }
                }
                ok
            },
        }
    }

    /// Disconnects `client`: its player is removed, which drops its pending
    /// inputs, and under the despawn policy the despawn record of its entity
    /// is returned; none under the orphan policy or when the client is not
    /// connected.
    pub fn disconnect(&mut self, client: u64) -> (r: Option<Record>)
        requires
            old(self).wf(),
        ensures
            final(self).wf(),
            final(self).tick == old(self).tick,
            final(self).params == old(self).params,
            final(self).component == old(self).component,
            final(self).policy == old(self).policy,
            final(self).next_entity == old(self).next_entity,
            !has_client(final(self).players@, client),
            !has_client(old(self).players@, client) ==> r is None && final(self).players@ == old(
                self,
            ).players@,
            has_client(old(self).players@, client) ==> exists|i: int|
                0 <= i < old(self).players@.len() && (#[trigger] old(self).players@[i]).client
                    == client && r == (if old(self).policy == DisconnectPolicy::Despawn {
                    Some(Record::Despawn(old(self).players@[i].entity))
                } else {
                    None
                }) && final(self).players@ == old(self).players@.remove(i),
    {
        match self.position(client) {
            None => None,
            Some(i) => {
                let p = self.players.remove(i);
                proof {
                    let s = self.players@;
                    let o = old(self).players@;
                    assert forall|a: int| 0 <= a < s.len() implies #[trigger] s[a] == o[if a < i {
                        a
                    } else {
                        a + 1
                    }] by {}
                    assert forall|a: int, b: int| 0 <= a < b < s.len() implies (#[trigger] s[
                        a
                    ]).client != (#[trigger] s[b]).client by {
                        assert(s[a] == o[if a < i { a } else { a + 1 }]);
                        assert(s[b] == o[if b < i { b } else { b + 1 }]);
                    }
                    assert forall|a: int| 0 <= a < s.len() implies (#[trigger] s[a]).inputs.wf()
                        && s[a].inputs.consumed <= self.tick by {
                        assert(s[a] == o[if a < i { a } else { a + 1 }]);
                    }
                    if has_client(s, client) {
                        let a = choose|a: int| 0 <= a < s.len() && (#[trigger] s[a]).client == client;
                        assert(s[a] == o[if a < i { a } else { a + 1 }]);
                    }
                }
                match self.policy {
                    DisconnectPolicy::Despawn => Some(Record::Despawn(p.entity)),
                    DisconnectPolicy::Orphan => None,
                }
            },
        }
    }

    /// Runs one authoritative tick: every player, the local client's
    /// included, moves by its client's intent for the new tick (the latest
    /// one due, else the most recent known one), and an update record is
    /// produced for each player whose value changed since it was last sent.
    pub fn step_tick(&mut self) -> (records: Vec<Record>)
        requires
            old(self).wf(),
            old(self).tick < u64::MAX,
        ensures
            final(self).wf(),
            final(self).tick == old(self).tick + 1,
            final(self).policy == old(self).policy,
            final(self).params == old(self).params,
            final(self).component == old(self).component,
            final(self).next_entity == old(self).next_entity,
            final(self).players@.len() == old(self).players@.len(),
            forall|k: int|
                0 <= k < old(self).players@.len() ==> {
                    let o = #[trigger] old(self).players@[k];
                    let p = final(self).players@[k];
                    &&& p.client == o.client
                    &&& p.entity == o.entity
                    &&& p.value == advanced(o, final(self).tick, old(self).params)
                    &&& p.last_sent == Some(p.value)
                    &&& p.inputs.consumed == final(self).tick
                    &&& p.inputs.pending@ == o.inputs.pending@.skip(
                        crate::input::due_count(o.inputs.pending@, final(self).tick),
                    )
                    &&& p.inputs.last == if crate::input::due_count(
                        o.inputs.pending@,
                        final(self).tick,
                    ) > 0 || o.inputs.last is Some {
                        Some(o.inputs.intent_for(final(self).tick))
                    } else {
                        None::<InputIntent>
                    }
                },
            records@ == changed_updates(
                old(self).players@,
                old(self).players@.len() as int,
                final(self).tick,
                old(self).params,
                old(self).component,
            ),
    {
        let tick = self.tick + 1;
        let ghost o = self.players@;
        let mut src: Vec<Player> = Vec::new();
        std::mem::swap(&mut src, &mut self.players);
        let n = src.len();
        let mut out: Vec<Player> = Vec::new();
        let mut records: Vec<Record> = Vec::new();
        let mut j: usize = 0;
        while src.len() > 0
            invariant
                src@.len() + j == n,
                n == o.len(),
                src@ =~= o.subrange(j as int, n as int),
                out@.len() == j,
                self.params.wf(),
                forall|i: int, k: int| 0 <= i < k < o.len() ==> (#[trigger] o[i]).client != (#[trigger] o[k]).client,
                forall|i: int| 0 <= i < o.len() ==> (#[trigger] o[i]).inputs.wf() && o[i].inputs.consumed <= self.tick,
                tick == self.tick + 1,
                self.next_entity == old(self).next_entity,
                forall|i: int| 0 <= i < o.len() ==> (#[trigger] o[i]).entity < self.next_entity,
                forall|i: int, k: int| 0 <= i < k < o.len() ==> (#[trigger] o[i]).entity != (#[trigger] o[k]).entity,
                forall|k: int|
                    0 <= k < j ==> {
                        let q = #[trigger] o[k];
                        let p = out@[k];
                        &&& p.client == q.client
                        &&& p.entity == q.entity
                        &&& p.value == advanced(q, tick, self.params)
                        &&& p.last_sent == Some(p.value)
                        &&& p.inputs.wf()
                        &&& p.inputs.consumed == tick
                        &&& p.inputs.pending@ == q.inputs.pending@.skip(
                            crate::input::due_count(q.inputs.pending@, tick),
                        )
                        &&& p.inputs.last == if crate::input::due_count(q.inputs.pending@, tick)
                            > 0 || q.inputs.last is Some {
                            Some(q.inputs.intent_for(tick))
                        } else {
                            None::<InputIntent>
                        }
                    },
                records@ == changed_updates(o, j as int, tick, self.params, self.component),
            decreases src@.len(),
        {
            let mut p = src.remove(0);
            proof {
                assert(p == o[j as int]);
                assert(src@ =~= o.subrange(j + 1, n as int));
            }
            let intent = p.inputs.take(tick);
            let v = step(&p.value, &intent, &self.params);
            let changed = match p.last_sent {
                Some(s) => !(s == v),
                None => true,
            };
            if changed {
                records.push(Record::Update(Slot { entity: p.entity, component: self.component, tick, value: v }));
            }
            p.value = v;
            p.last_sent = Some(v);
            let ghost before = out@;
            out.push(p);
            proof {
                assert forall|k: int| 0 <= k < j + 1 implies {
                    let q = #[trigger] o[k];
                    let p = out@[k];
                    &&& p.client == q.client
                    &&& p.entity == q.entity
                    &&& p.value == advanced(q, tick, self.params)
                    &&& p.last_sent == Some(p.value)
                    &&& p.inputs.wf()
                    &&& p.inputs.consumed == tick
                    &&& p.inputs.pending@ == q.inputs.pending@.skip(
                        crate::input::due_count(q.inputs.pending@, tick),
                    )
                    &&& p.inputs.last == if crate::input::due_count(q.inputs.pending@, tick) > 0
                        || q.inputs.last is Some {
                        Some(q.inputs.intent_for(tick))
                    } else {
                        None::<InputIntent>
                    }
                } by {
                    if k < j {
                        assert(out@[k] == before[k]);
                    }
                }
            }
            j = j + 1;
        }
        self.players = out;
        self.tick = tick;
        proof {
            let s = self.players@;
            assert forall|a: int, b: int| 0 <= a < b < s.len() implies (#[trigger] s[a]).client
                != (#[trigger] s[b]).client by {
                assert(s[a].client == o[a].client);
                assert(s[b].client == o[b].client);
            }
            assert forall|a: int| 0 <= a < s.len() implies (#[trigger] s[a]).inputs.wf()
                && s[a].inputs.consumed <= self.tick by {
                assert(s[a].client == o[a].client);
            }
            assert forall|a: int| 0 <= a < s.len() implies (#[trigger] s[a]).entity
                < self.next_entity by {
                assert(s[a].entity == o[a].entity);
            }
            assert forall|a: int, b: int| 0 <= a < b < s.len() implies (#[trigger] s[a]).entity
                != (#[trigger] s[b]).entity by {
                assert(s[a].entity == o[a].entity);
                assert(s[b].entity == o[b].entity);
            }
        }
        records
    }
}

/// One host-server tick for the local client, with zero-latency handoff: the
/// intent goes to the host for the next tick, the client predicts with it,
/// and the host simulates that tick. Where the local player and the
/// prediction agreed before and no older input was queued, they agree after.
pub fn host_server_tick(host: &mut Host, local: &mut PredictedEntity, intent: InputIntent) -> (r:
    Vec<Record>)
    requires
        old(host).wf(),
        old(local).wf(),
        old(host).tick < u64::MAX,
        old(local).present_tick < u64::MAX,
        old(local).params == old(host).params,
    ensures
        final(host).wf(),
        final(local).wf(),
        final(host).tick == old(host).tick + 1,
        final(local).present == step_spec(old(local).present, intent, old(local).params),
        final(host).players@.len() == old(host).players@.len(),
        forall|k: int|
            0 <= k < old(host).players@.len() && (#[trigger] old(host).players@[k]).client
                == LOCAL_CLIENT && old(host).players@[k].value == old(local).present
                && old(host).players@[k].inputs.pending@.len() == 0 ==> final(host).players@[k].value
                == final(local).present,
{
    let tick = host.tick + 1;
    let ghost h0 = host.players@;
    host.receive_input(LOCAL_CLIENT, tick, intent);
    let ghost h1 = host.players@;
    local.predict(intent);
    let records = host.step_tick();
    proof {
        assert forall|k: int|
            0 <= k < h0.len() && (#[trigger] h0[k]).client == LOCAL_CLIENT && h0[k].value
                == old(local).present && h0[k].inputs.pending@.len() == 0 implies host.players@[k].value
            == local.present by {
            assert(has_client(h0, LOCAL_CLIENT));
            let i = choose|i: int|
                0 <= i < h0.len() && (#[trigger] h0[i]).client == LOCAL_CLIENT && {
                    let o = h0[i];
                    let p = h1[i];
                    &&& p.value == o.value
                    &&& p.inputs.last == o.inputs.last
                    &&& p.inputs.pending@ == if o.inputs.accepts(tick) {
                        o.inputs.pending@.push(crate::input::TaggedIntent { tick, intent })
                    } else {
                        o.inputs.pending@
                    }
                };
            if i != k {
                assert(h0[i].client != h0[k].client);
            }
            let q = h1[k].inputs.pending@;
            assert(q =~= seq![crate::input::TaggedIntent { tick, intent }]);
            assert(crate::input::due_count(q.drop_first(), tick) == 0);
            assert(crate::input::due_count(q, tick) == 1);
        }
    }
    records
}

/// A disconnection despawns the client's entity exactly once: after its
/// player is removed no player of that client is left and no other player
/// holds its entity id, so disconnecting
/// again yields nothing; an observer that applies the despawn record no
/// longer knows the entity or holds any of its slots, and applying the
/// record a second time finds nothing to remove.
pub proof fn lemma_despawned_once(players: Seq<Player>, i: int, observer: ReplicaView)
    requires
        0 <= i < players.len(),
        observer.known.contains(players[i].entity),
        forall|a: int, b: int|
            0 <= a < b < players.len() ==> (#[trigger] players[a]).client
                != (#[trigger] players[b]).client,
        forall|a: int, b: int|
            0 <= a < b < players.len() ==> (#[trigger] players[a]).entity
                != (#[trigger] players[b]).entity,
    ensures
        ({
            let client = players[i].client;
            let e = players[i].entity;
            let after = despawn_spec(observer, e).1;
            &&& !has_client(players.remove(i), client)
            &&& forall|k: int|
                0 <= k < players.len() - 1 ==> (#[trigger] players.remove(i)[k]).entity != e
            &&& !after.known.contains(e)
            &&& forall|k: int| 0 <= k < after.slots.len() ==> (#[trigger] after.slots[k]).entity != e
            &&& !despawn_spec(after, e).0
            &&& despawn_spec(after, e).1 == after
        }),
{
    let client = players[i].client;
    let e = players[i].entity;
    let s = players.remove(i);
    assert forall|k: int| 0 <= k < players.len() - 1 implies (#[trigger] players.remove(i)[k]).entity
        != e by {
        assert(s[k] == players[if k < i { k } else { k + 1 }]);
    }
    if has_client(s, client) {
        let a = choose|a: int| 0 <= a < s.len() && (#[trigger] s[a]).client == client;
        assert(s[a] == players[if a < i { a } else { a + 1 }]);
    }
    if observer.known.contains(e) {
        let k = observer.known.filter(other_than(e));
        if k.contains(e) {
            let x = choose|x: int| 0 <= x < k.len() && k[x] == e;
            observer.known.lemma_filter_pred(other_than(e), x);
        }
        let t = observer.slots.filter(not_of(e));
        assert forall|x: int| 0 <= x < t.len() implies (#[trigger] t[x]).entity != e by {
            observer.slots.lemma_filter_pred(not_of(e), x);
        }
    }
}

/// Determinism across the two sides: a predicted entity's present value is
/// the trajectory, from its oldest recorded value, of the intents it stored;
/// `replay`, the authoritative rule, computes that same trajectory.
pub proof fn lemma_prediction_matches_authority(e: PredictedEntity, intents: Seq<InputIntent>)
    requires
        e.wf(),
        e.history@.len() >= 1,
        intents == intents_of(e.history@).subrange(1, e.history@.len() as int),
    ensures
        e.history@.len() > 1 ==> e.present == trajectory(e.history@[0].value, intents, e.params).last(),
{
    lemma_history_is_trajectory(e.history@, e.params);
    if e.history@.len() > 1 {
        let n = e.history@.len();
        assert(e.history@[n - 1] == e.history@.last());
    }
}

} // verus!
