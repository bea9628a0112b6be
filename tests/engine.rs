use hostsync::client::{Client, Routed};
use hostsync::clock::TickClock;
use hostsync::host::{host_server_tick, DisconnectPolicy, Host, LOCAL_CLIENT};
use hostsync::input::{idle, ClientInputs};
use hostsync::interpolation::{blend, BlendFn, Interpolator};
use hostsync::prediction::{PredictedEntity, ReconcileOutcome};
use hostsync::registry::{ConfigurationError, Direction, Registry, SyncMode};
use hostsync::replication::{ApplyOutcome, Record, ReplicaStore, Slot};
use hostsync::transform::{replay, step, InputIntent, MoveParams, Transform, DIAG, ONE};

fn origin() -> Transform {
    Transform { x: 0, y: 0, z: 0, cos: ONE, sin: 0 }
}

fn params() -> MoveParams {
    MoveParams { speed: 15_000, tick_rate: 60 }
}

fn held(up: bool, down: bool, left: bool, right: bool) -> InputIntent {
    InputIntent { up, down, left, right, turn_cos: ONE, turn_sin: 0 }
}

fn turn_left_quarter() -> InputIntent {
    InputIntent { up: false, down: false, left: false, right: false, turn_cos: 0, turn_sin: ONE }
}

fn at(x: i64, z: i64) -> Transform {
    Transform { x, y: 0, z, cos: ONE, sin: 0 }
}

#[test]
fn holding_up_for_ten_ticks_moves_two_and_a_half_units() {
    let p = params();
    let mut e = PredictedEntity::new(origin(), 0, p, 64, 0, 4, BlendFn::Linear);
    let intents: Vec<InputIntent> = (0..10).map(|_| held(true, false, false, false)).collect();
    for i in &intents {
        e.predict(*i);
    }
    assert_eq!(e.present, Transform { x: 0, y: 0, z: -2500, cos: ONE, sin: 0 });
    assert_eq!(e.present_tick, 10);
    let auth = replay(&origin(), &intents, &p);
    assert_eq!(auth.len(), 10);
    assert_eq!(auth[9], e.present);
}

#[test]
fn prediction_matches_replay_at_every_tick() {
    let p = params();
    let intents = vec![
        held(true, false, false, true),
        turn_left_quarter(),
        held(true, false, false, false),
        held(false, true, true, false),
        held(true, true, false, false),
        held(false, false, true, false),
    ];
    let mut e = PredictedEntity::new(origin(), 100, p, 16, 0, 4, BlendFn::Linear);
    let mut predicted = Vec::new();
    for i in &intents {
        predicted.push(e.predict(*i));
    }
    assert_eq!(predicted, replay(&origin(), &intents, &p));
}

#[test]
fn diagonal_and_turned_moves_are_exact() {
    let p = params();
    let d = step(&origin(), &held(true, false, false, true), &p);
    let expected = (DIAG as i128 * 15_000 / (60 * ONE as i128)) as i64;
    assert_eq!(expected, 176);
    assert_eq!(d, Transform { x: 176, y: 0, z: -176, cos: ONE, sin: 0 });
    let turned = step(&origin(), &turn_left_quarter(), &p);
    assert_eq!(turned, Transform { x: 0, y: 0, z: 0, cos: 0, sin: ONE });
    let moved = step(&turned, &held(true, false, false, false), &p);
    assert_eq!(moved.x, -250);
    assert_eq!(moved.z, 0);
}

#[test]
fn no_action_leaves_position() {
    let p = params();
    let t = at(1234, -77);
    assert_eq!(step(&t, &idle(), &p), t);
}

fn update(tick: u64, x: i64) -> Slot {
    Slot { entity: 7, component: 1, tick, value: at(x, 0) }
}

#[test]
fn out_of_order_updates_commit_only_newer_ticks() {
    let mut s = ReplicaStore::new();
    assert!(s.spawn(7));
    let mut commits = Vec::new();
    for t in [5u64, 3, 7, 6] {
        if s.apply_update(update(t, t as i64)) == ApplyOutcome::Applied {
            commits.push(t);
        }
    }
    assert_eq!(commits, vec![5, 7]);
    assert_eq!(s.slots.len(), 1);
    assert_eq!(s.slots[0].tick, 7);
    assert_eq!(s.slots[0].value, at(7, 0));
}

#[test]
fn applying_an_update_twice_equals_once() {
    let mut once = ReplicaStore::new();
    once.spawn(7);
    assert_eq!(once.apply_update(update(4, 40)), ApplyOutcome::Applied);
    let mut twice = ReplicaStore::new();
    twice.spawn(7);
    twice.apply_update(update(4, 40));
    assert_eq!(twice.apply_update(update(4, 40)), ApplyOutcome::StaleUpdateDropped);
    assert_eq!(once.known, twice.known);
    assert_eq!(once.slots, twice.slots);
}

#[test]
fn update_for_unknown_entity_is_dropped() {
    let mut s = ReplicaStore::new();
    assert_eq!(s.apply_update(update(1, 1)), ApplyOutcome::UnknownEntityReference);
    assert!(s.slots.is_empty());
    assert_eq!(s.receive(Record::Despawn(7)), ApplyOutcome::UnknownEntityReference);
}

#[test]
fn despawn_removes_entity_and_its_slots() {
    let mut s = ReplicaStore::new();
    s.receive(Record::Spawn(7));
    s.receive(Record::Spawn(8));
    s.receive(Record::Update(update(1, 1)));
    s.receive(Record::Update(Slot { entity: 8, component: 1, tick: 1, value: at(2, 2) }));
    assert_eq!(s.receive(Record::Despawn(7)), ApplyOutcome::Applied);
    assert_eq!(s.known, vec![8]);
    assert_eq!(s.slots.len(), 1);
    assert_eq!(s.slots[0].entity, 8);
    assert_eq!(s.receive(Record::Despawn(7)), ApplyOutcome::UnknownEntityReference);
}

fn predicted_ten_up() -> PredictedEntity {
    let mut e = PredictedEntity::new(origin(), 0, params(), 64, 5, 4, BlendFn::Linear);
    for _ in 0..10 {
        e.predict(held(true, false, false, false));
    }
    e
}

#[test]
fn matching_authority_is_a_confirmation() {
    let mut e = predicted_ten_up();
    let before_present = e.present;
    let before_history = e.history.clone();
    assert_eq!(e.reconcile(4, at(3, -1000)), ReconcileOutcome::Confirmed);
    assert_eq!(e.present, before_present);
    assert_eq!(e.history, before_history);
}

#[test]
fn mismatch_is_resimulated_and_converges() {
    let mut e = predicted_ten_up();
    let old_present = e.present;
    assert_eq!(e.reconcile(4, at(400, -1000)), ReconcileOutcome::Corrected);
    assert_eq!(e.present, at(400, -2500));
    assert_eq!(e.history.len(), 7);
    assert_eq!(e.history[0].tick, 4);
    assert_eq!(e.history[0].value, at(400, -1000));
    assert_eq!(e.render(), old_present);
    let mut distances = vec![(e.render().x - e.present.x).abs()];
    for _ in 0..4 {
        e.advance_frame();
        distances.push((e.render().x - e.present.x).abs());
    }
    assert_eq!(distances, vec![400, 300, 200, 100, 0]);
    assert_eq!(e.render(), e.present);
}

#[test]
fn evicted_tick_is_a_hard_snap() {
    let mut e = PredictedEntity::new(origin(), 0, params(), 3, 0, 4, BlendFn::Linear);
    for _ in 0..10 {
        e.predict(held(true, false, false, false));
    }
    assert_eq!(e.history.len(), 3);
    assert_eq!(e.history[0].tick, 8);
    assert_eq!(e.reconcile(2, at(9, 9)), ReconcileOutcome::ReconciliationBufferExhausted);
    assert_eq!(e.present, at(9, 9));
    assert!(e.history.is_empty());
    assert_eq!(e.render(), at(9, 9));
}

#[test]
fn interpolation_is_continuous_across_promotion() {
    let mut s = Interpolator::new(1, at(0, 0), 1000, 100, BlendFn::Linear);
    assert!(s.push_sample(2, at(1000, 0), 1000));
    assert_eq!(s.render(1050), at(500, 0));
    let shown = s.render(1050);
    assert!(s.push_sample(3, at(2000, 0), 1050));
    assert_eq!(s.render(1050), shown);
    assert_eq!(s.v0, at(500, 0));
    assert_eq!(s.render(1100), at(1250, 0));
}

#[test]
fn interpolation_holds_latest_sample() {
    let mut s = Interpolator::new(1, at(0, 0), 0, 100, BlendFn::Linear);
    s.push_sample(2, at(1000, 0), 0);
    assert_eq!(s.render(100), at(1000, 0));
    assert_eq!(s.render(5000), at(1000, 0));
    assert!(!s.push_sample(2, at(9, 9), 5000));
    assert!(!s.push_sample(1, at(9, 9), 5000));
    assert_eq!(s.v1, at(1000, 0));
}

#[test]
fn clock_runs_every_due_tick() {
    let mut c = TickClock::new(16);
    assert_eq!(c.advance(10), 0);
    assert_eq!(c.overshoot, 10);
    assert_eq!(c.advance(40), 3);
    assert_eq!(c.tick, 3);
    assert_eq!(c.overshoot, 2);
    assert_eq!(c.next_tick(), 4);
}

#[test]
fn registry_rejects_bad_registrations() {
    let mut r = Registry::new();
    assert_eq!(r.register(1, Direction::ClientToServer, SyncMode::Unsynced, None, None), Ok(()));
    assert_eq!(
        r.register(2, Direction::ServerToClient, SyncMode::Predicted, Some(BlendFn::Linear), Some(BlendFn::Linear)),
        Ok(())
    );
    assert_eq!(
        r.register(1, Direction::ServerToClient, SyncMode::Unsynced, None, None),
        Err(ConfigurationError::DuplicateRegistration)
    );
    assert_eq!(
        r.register(3, Direction::ServerToClient, SyncMode::Interpolated, None, Some(BlendFn::Linear)),
        Err(ConfigurationError::MissingInterpolationFn)
    );
    assert_eq!(
        r.register(4, Direction::ServerToClient, SyncMode::Predicted, Some(BlendFn::Linear), None),
        Err(ConfigurationError::MissingCorrectionFn)
    );
    assert_eq!(r.lookup(2).map(|g| g.mode), Some(SyncMode::Predicted));
    assert_eq!(r.lookup(3), None);
    r.start();
    assert_eq!(
        r.register(5, Direction::Bidirectional, SyncMode::Unsynced, None, None),
        Err(ConfigurationError::AlreadyStarted)
    );
    assert_eq!(r.entries.len(), 2);
}

#[test]
fn blend_functions() {
    let a = at(0, 0);
    let b = at(100, -100);
    assert_eq!(blend(BlendFn::Linear, &a, &b, 1, 4), at(25, -25));
    assert_eq!(blend(BlendFn::Snap, &a, &b, 3, 4), a);
    assert_eq!(blend(BlendFn::Snap, &a, &b, 4, 4), b);
}

#[test]
fn missing_input_reuses_last_known() {
    let mut q = ClientInputs::new();
    assert_eq!(q.take(1), idle());
    let up = held(true, false, false, false);
    assert!(q.receive(2, up));
    assert!(!q.receive(2, idle()));
    assert!(!q.receive(1, idle()));
    assert_eq!(q.take(2), up);
    assert_eq!(q.take(3), up);
    let down = held(false, true, false, false);
    assert!(q.receive(4, down));
    assert!(q.receive(6, up));
    assert_eq!(q.take(5), down);
    assert_eq!(q.pending.len(), 1);
}

#[test]
fn host_ticks_replicate_changes_only() {
    let mut h = Host::new(params(), 1);
    assert_eq!(h.connect(LOCAL_CLIENT, origin()), Some(Record::Spawn(0)));
    assert_eq!(h.connect(LOCAL_CLIENT, origin()), None);
    assert_eq!(h.connect(9, at(5, 5)), Some(Record::Spawn(1)));
    assert!(h.receive_input(LOCAL_CLIENT, 1, held(true, false, false, false)));
    assert!(!h.receive_input(42, 1, idle()));
    let first = h.step_tick();
    assert_eq!(first.len(), 2);
    assert_eq!(
        first[0],
        Record::Update(Slot { entity: 0, component: 1, tick: 1, value: at(0, -250) })
    );
    let second = h.step_tick();
    assert_eq!(
        second,
        vec![Record::Update(Slot { entity: 0, component: 1, tick: 2, value: at(0, -500) })]
    );
}

#[test]
fn disconnect_despawns_once_on_observers() {
    let mut h = Host::new(params(), 1);
    let mut observer = ReplicaStore::new();
    for (c, start) in [(LOCAL_CLIENT, origin()), (3, at(1, 1))] {
        let rec = h.connect(c, start).unwrap();
        observer.receive(rec);
    }
    for rec in h.step_tick() {
        observer.receive(rec);
    }
    let gone = h.disconnect(3);
    assert_eq!(gone, Some(Record::Despawn(1)));
    assert_eq!(h.disconnect(3), None);
    assert_eq!(observer.receive(gone.unwrap()), ApplyOutcome::Applied);
    assert_eq!(observer.known, vec![0]);
    assert!(observer.slots.iter().all(|s| s.entity != 1));
    assert_eq!(observer.receive(Record::Despawn(1)), ApplyOutcome::UnknownEntityReference);
    assert_eq!(h.players.len(), 1);
}

#[test]
fn snap_correction_shows_new_value_at_once() {
    let mut e = PredictedEntity::new(origin(), 0, params(), 64, 0, 4, BlendFn::Snap);
    for _ in 0..3 {
        e.predict(held(true, false, false, false));
    }
    assert_eq!(e.reconcile(1, at(100, -250)), ReconcileOutcome::Corrected);
    assert_eq!(e.present, at(100, -750));
    assert_eq!(e.render(), at(100, -750));
}

#[test]
fn snap_interpolation_switches_at_interval_end() {
    let mut s = Interpolator::new(1, at(0, 0), 0, 100, BlendFn::Snap);
    s.push_sample(2, at(1000, 0), 0);
    assert_eq!(s.render(99), at(0, 0));
    assert_eq!(s.render(100), at(1000, 0));
}

#[test]
fn short_heading_moves_at_full_speed() {
    let p = params();
    let half = Transform { x: 0, y: 0, z: 0, cos: 32768, sin: 0 };
    let moved = step(&half, &held(true, false, false, false), &p);
    assert_eq!((moved.x, moved.z), (0, -250));
    assert_eq!((moved.cos, moved.sin), (32768, 0));
    let tiny = Transform { x: 0, y: 0, z: 0, cos: 1, sin: 0 };
    let moved = step(&tiny, &held(true, false, false, false), &p);
    assert_eq!((moved.x, moved.z), (0, -250));
}

#[test]
fn degenerate_turn_keeps_heading() {
    let p = params();
    let none = InputIntent { up: true, down: false, left: false, right: false, turn_cos: 0, turn_sin: 0 };
    let moved = step(&origin(), &none, &p);
    assert_eq!(moved, Transform { x: 0, y: 0, z: -250, cos: ONE, sin: 0 });
}

#[test]
fn stale_authority_after_correction_is_dropped() {
    let mut e = predicted_ten_up();
    assert_eq!(e.reconcile(5, at(400, -1250)), ReconcileOutcome::Corrected);
    assert_eq!(e.present, at(400, -2500));
    assert_eq!(e.reconcile(3, at(0, -750)), ReconcileOutcome::StaleUpdateDropped);
    assert_eq!(e.reconcile(5, at(400, -1250)), ReconcileOutcome::StaleUpdateDropped);
    assert_eq!(e.present, at(400, -2500));
    assert_eq!(e.history[0].tick, 5);
}

#[test]
fn reconnect_gets_a_fresh_entity() {
    let mut h = Host::new(params(), 1);
    assert_eq!(h.connect(LOCAL_CLIENT, origin()), Some(Record::Spawn(0)));
    assert_eq!(h.connect(3, origin()), Some(Record::Spawn(1)));
    assert_eq!(h.disconnect(3), Some(Record::Despawn(1)));
    assert_eq!(h.connect(3, origin()), Some(Record::Spawn(2)));
    assert!(h.receive_input(3, 1, idle()));
    assert_eq!(h.next_entity, 3);
}

#[test]
fn client_routes_updates_by_sync_mode() {
    let mut r = Registry::new();
    r.register(1, Direction::ServerToClient, SyncMode::Predicted, Some(BlendFn::Linear), Some(BlendFn::Linear))
        .unwrap();
    r.register(2, Direction::ServerToClient, SyncMode::Interpolated, Some(BlendFn::Linear), None).unwrap();
    r.start();
    let mut local = PredictedEntity::new(origin(), 0, params(), 64, 0, 4, BlendFn::Linear);
    for _ in 0..3 {
        local.predict(held(true, false, false, false));
    }
    let mut c = Client::new(r, 0, local, 100);
    assert_eq!(c.receive(Record::Spawn(0), 0), Routed::Lifecycle(ApplyOutcome::Applied));
    assert_eq!(c.receive(Record::Spawn(1), 0), Routed::Lifecycle(ApplyOutcome::Applied));
    let mine = Slot { entity: 0, component: 1, tick: 2, value: at(0, -500) };
    assert_eq!(c.receive(Record::Update(mine), 0), Routed::Reconciled(ReconcileOutcome::Confirmed));
    assert_eq!(c.receive(Record::Update(mine), 0), Routed::Dropped(ApplyOutcome::StaleUpdateDropped));
    let theirs = Slot { entity: 1, component: 2, tick: 2, value: at(700, 0) };
    assert_eq!(c.receive(Record::Update(theirs), 0), Routed::Interpolated);
    assert_eq!(c.remote.len(), 1);
    assert_eq!(c.remote[0].1.render(0), at(700, 0));
    let later = Slot { entity: 1, component: 2, tick: 3, value: at(900, 0) };
    assert_eq!(c.receive(Record::Update(later), 50), Routed::Interpolated);
    assert_eq!(c.remote[0].1.render(100), at(800, 0));
    let unknown_kind = Slot { entity: 1, component: 9, tick: 4, value: at(1, 1) };
    assert_eq!(c.receive(Record::Update(unknown_kind), 0), Routed::Unregistered);
    let ghost = Slot { entity: 5, component: 2, tick: 4, value: at(1, 1) };
    assert_eq!(c.receive(Record::Update(ghost), 0), Routed::Dropped(ApplyOutcome::UnknownEntityReference));
    assert_eq!(c.receive(Record::Despawn(1), 0), Routed::Lifecycle(ApplyOutcome::Applied));
    assert!(c.remote.is_empty());
    let after = Slot { entity: 1, component: 2, tick: 9, value: at(1, 1) };
    assert_eq!(c.receive(Record::Update(after), 0), Routed::Dropped(ApplyOutcome::UnknownEntityReference));
    assert!(c.remote.is_empty());
}

#[test]
fn heading_is_kept_without_a_turn() {
    let p = params();
    let h = Transform { x: 0, y: 0, z: 0, cos: 65535, sin: 0 };
    let moved = step(&h, &held(false, false, false, false), &p);
    assert_eq!(moved, h);
    let d = Transform { x: 0, y: 0, z: 0, cos: 46341, sin: 46341 };
    assert_eq!(step(&d, &idle(), &p), d);
}

#[test]
fn orphan_policy_sends_no_despawn() {
    let mut h = Host::new(params(), 1);
    h.connect(LOCAL_CLIENT, origin());
    h.connect(4, origin());
    h.set_policy(DisconnectPolicy::Orphan);
    assert_eq!(h.disconnect(4), None);
    assert_eq!(h.players.len(), 1);
    assert!(!h.receive_input(4, 1, idle()));
    h.set_policy(DisconnectPolicy::Despawn);
    assert_eq!(h.disconnect(LOCAL_CLIENT), Some(Record::Despawn(0)));
}

#[test]
fn snapshot_makes_idle_players_visible() {
    let mut h = Host::new(params(), 1);
    h.connect(LOCAL_CLIENT, origin());
    h.connect(4, at(5, 5));
    h.step_tick();
    h.step_tick();
    let records = h.snapshot();
    assert_eq!(
        records,
        vec![
            Record::Spawn(0),
            Record::Update(Slot { entity: 0, component: 1, tick: 2, value: origin() }),
            Record::Spawn(1),
            Record::Update(Slot { entity: 1, component: 1, tick: 2, value: at(5, 5) }),
        ]
    );
    let mut late = ReplicaStore::new();
    for r in records {
        late.receive(r);
    }
    assert_eq!(late.known, vec![0, 1]);
    assert_eq!(late.slots.len(), 2);
}

#[test]
fn client_refuses_client_to_server_components_and_counts_stale() {
    let mut r = Registry::new();
    r.register(1, Direction::ClientToServer, SyncMode::Unsynced, None, None).unwrap();
    r.register(2, Direction::ServerToClient, SyncMode::Unsynced, None, None).unwrap();
    let local = PredictedEntity::new(origin(), 0, params(), 8, 0, 4, BlendFn::Linear);
    let mut c = Client::new(r, 0, local, 100);
    assert_eq!(c.period, 100);
    c.receive(Record::Spawn(3), 0);
    let up = Slot { entity: 3, component: 1, tick: 1, value: at(1, 1) };
    assert_eq!(c.receive(Record::Update(up), 0), Routed::WrongDirection);
    assert!(c.store.slots.is_empty());
    let down = Slot { entity: 3, component: 2, tick: 2, value: at(1, 1) };
    assert_eq!(c.receive(Record::Update(down), 0), Routed::Stored);
    assert_eq!(c.stale_dropped, 0);
    assert_eq!(c.receive(Record::Update(down), 0), Routed::Dropped(ApplyOutcome::StaleUpdateDropped));
    assert_eq!(c.stale_dropped, 1);
}

#[test]
fn host_server_tick_keeps_prediction_and_authority_together() {
    let mut h = Host::new(params(), 1);
    h.connect(LOCAL_CLIENT, origin());
    let mut local = PredictedEntity::new(origin(), 0, params(), 16, 0, 4, BlendFn::Linear);
    let intents = [
        held(true, false, false, true),
        turn_left_quarter(),
        held(true, false, false, false),
        held(false, false, true, false),
    ];
    for i in intents {
        let records = host_server_tick(&mut h, &mut local, i);
        assert_eq!(h.players[0].value, local.present);
        assert!(records.len() <= 1);
    }
    assert_eq!(h.tick, 4);
    assert_eq!(local.present, replay(&origin(), &intents.to_vec(), &params())[3]);
}

#[test]
fn small_residual_shrinks_every_frame() {
    let mut e = PredictedEntity::new(origin(), 0, params(), 64, 0, 4, BlendFn::Linear);
    for _ in 0..3 {
        e.predict(held(true, false, false, false));
    }
    assert_eq!(e.reconcile(2, at(2, -500)), ReconcileOutcome::Corrected);
    assert_eq!(e.span, 2);
    let mut distances = vec![(e.render().x - e.present.x).abs()];
    for _ in 0..3 {
        e.advance_frame();
        distances.push((e.render().x - e.present.x).abs());
    }
    assert_eq!(distances, vec![2, 1, 0, 0]);
}
