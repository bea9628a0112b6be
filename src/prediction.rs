//! Client-side prediction of a controlled entity, its bounded history, and
//! reconciliation against authoritative values with smoothed correction.
use vstd::prelude::*;
use crate::interpolation::BlendFn;
use crate::transform::{
    InputIntent, MoveParams, Transform, ONE, POS_LIMIT, abs, step, step_spec, trajectory, div_tz,
};

verus! {

/// Longest accepted correction window, in frames.
pub const WINDOW_MAX: u64 = 1_000_000;

/// One predicted tick: its number, the value reached and the intent used.
#[derive(Clone, Copy, Debug, PartialEq, Eq, Structural)]
pub struct HistoryEntry {
    pub tick: u64,
    pub value: Transform,
    pub intent: InputIntent,
}

/// What reconciling one authoritative value did.
#[derive(Clone, Copy, Debug, PartialEq, Eq, Structural)]
pub enum ReconcileOutcome {
    /// The prediction matched within tolerance; nothing changed.
    Confirmed,
    /// The history was rewritten from the authoritative tick on, and a
    /// smoothed correction toward the new present value started.
    Corrected,
    /// The tick is no longer (or not yet) in the history: the value was
    /// taken as the present value without smoothing.
    ReconciliationBufferExhausted,
    /// The tick is at or before the last one reconciled; nothing changed.
    StaleUpdateDropped,
}

/// Every field of `a` is within `tol` of the same field of `b`.
pub open spec fn within(a: Transform, b: Transform, tol: int) -> bool {
    &&& abs(a.x - b.x) <= tol
    &&& abs(a.y - b.y) <= tol
    &&& abs(a.z - b.z) <= tol
    &&& abs(a.cos - b.cos) <= tol
    &&& abs(a.sin - b.sin) <= tol
}

/// The largest size of any field of `t`.
pub open spec fn max_abs(t: Transform) -> int {
    let a = if abs(t.x as int) >= abs(t.y as int) { abs(t.x as int) } else { abs(t.y as int) };
    let b = if a >= abs(t.z as int) { a } else { abs(t.z as int) };
    let c = if b >= abs(t.cos as int) { b } else { abs(t.cos as int) };
    if c >= abs(t.sin as int) { c } else { abs(t.sin as int) }
}

/// The frames a correction of residual `r` takes under a window of `w`: no
/// more than the residual's largest field, so that it shrinks at every frame.
pub open spec fn span_for(r: Transform, w: u64) -> u64 {
    if max_abs(r) < 1 {
        1
    } else if max_abs(r) < w {
        max_abs(r) as u64
    } else {
        w
    }
}

/// The part of a residual `e` still shown `k` frames into a window of `w`.
pub open spec fn faded(e: int, w: int, k: int) -> int {
    div_tz(e * (w - k), w)
}

/// The rendered value: the present value plus what remains of the residual.
pub open spec fn corrected_view(present: Transform, residual: Transform, w: int, k: int) -> Transform {
    Transform {
        x: (present.x + faded(residual.x as int, w, k)) as i64,
        y: (present.y + faded(residual.y as int, w, k)) as i64,
        z: (present.z + faded(residual.z as int, w, k)) as i64,
        cos: (present.cos + faded(residual.cos as int, w, k)) as i64,
        sin: (present.sin + faded(residual.sin as int, w, k)) as i64,
    }
}

/// The field-wise difference `a - b`.
pub open spec fn diff(a: Transform, b: Transform) -> Transform {
    Transform {
        x: (a.x - b.x) as i64,
        y: (a.y - b.y) as i64,
        z: (a.z - b.z) as i64,
        cos: (a.cos - b.cos) as i64,
        sin: (a.sin - b.sin) as i64,
    }
}

/// Each entry after the first is one step from the one before it.
pub open spec fn chained(h: Seq<HistoryEntry>, p: MoveParams) -> bool {
    forall|j: int|
        1 <= j < h.len() ==> #[trigger] h[j].value == step_spec(h[j - 1].value, h[j].intent, p)
}

/// Ticks run consecutively from the first entry.
pub open spec fn consecutive(h: Seq<HistoryEntry>) -> bool {
    forall|j: int| 0 <= j < h.len() ==> #[trigger] h[j].tick == h[0].tick + j
}

/// The intents stored along a history.
pub open spec fn intents_of(h: Seq<HistoryEntry>) -> Seq<InputIntent> {
    h.map_values(|e: HistoryEntry| e.intent)
}

/// What `reconcile` does to the entity `o`, giving `f`, for the
/// authoritative value `auth` of `tick`, with outcome `r`.
pub open spec fn reconcile_post(
    o: PredictedEntity,
    f: PredictedEntity,
    tick: u64,
    auth: Transform,
    r: ReconcileOutcome,
) -> bool {
    &&& f.wf()
    &&& f.params == o.params
    &&& f.capacity == o.capacity
    &&& f.tolerance == o.tolerance
    &&& f.window == o.window
    &&& f.correction == o.correction
    &&& o.is_stale(tick) ==> (r == ReconcileOutcome::StaleUpdateDropped && f == o)
    &&& !o.is_stale(tick) ==> f.last_auth == Some(tick)
    &&& !o.is_stale(tick) ==> match o.index_of(tick) {
            None => {
                &&& r == ReconcileOutcome::ReconciliationBufferExhausted
                &&& f.present == auth
                &&& f.present_tick == if tick > o.present_tick {
                    tick
                } else {
                    o.present_tick
                }
                &&& f.history@.len() == 0
                &&& f.span == o.span
                &&& f.elapsed == f.span
                &&& f.rendered() == auth
            },
            Some(k) => if within(o.history@[k].value, auth, o.tolerance as int) {
                &&& r == ReconcileOutcome::Confirmed
                &&& f.present == o.present
                &&& f.present_tick == o.present_tick
                &&& f.history@ == o.history@
                &&& f.residual == o.residual
                &&& f.span == o.span
                &&& f.elapsed == o.elapsed
            } else {
                &&& r == ReconcileOutcome::Corrected
                &&& f.present_tick == o.present_tick
                &&& f.history@.len() == o.history@.len() - k
                &&& f.history@[0].value == auth
                &&& forall|j: int|
                    0 <= j < f.history@.len() ==> {
                        &&& (#[trigger] f.history@[j]).tick == o.history@[k + j].tick
                        &&& f.history@[j].intent == o.history@[k + j].intent
                    }
                &&& f.residual == diff(o.present, f.present)
                &&& o.correction == BlendFn::Linear ==> {
                    &&& f.span == span_for(f.residual, o.window)
                    &&& f.elapsed == 0
                    &&& f.rendered() == o.present
                }
                &&& o.correction == BlendFn::Snap ==> {
                    &&& f.span == o.span
                    &&& f.elapsed == f.span
                    &&& f.rendered() == f.present
                }
            },
        }
}

/// A predicted entity: its present value and tick, the bounded history of
/// its predicted steps, and the correction being shown.
pub struct PredictedEntity {
    pub params: MoveParams,
    pub capacity: usize,
    pub tolerance: i64,
    pub present_tick: u64,
    pub present: Transform,
    pub history: Vec<HistoryEntry>,
    pub residual: Transform,
    pub window: u64,
    pub span: u64,
    pub elapsed: u64,
    pub correction: BlendFn,
    pub last_auth: Option<u64>,
}

impl PredictedEntity {
    pub open spec fn wf(self) -> bool {
        &&& self.params.wf()
        &&& 1 <= self.capacity
        &&& 0 <= self.tolerance
        &&& 1 <= self.window <= WINDOW_MAX
        &&& 1 <= self.span <= self.window
        &&& self.elapsed <= self.span
        &&& (self.elapsed < self.span && max_abs(self.residual) > 0) ==> self.span <= max_abs(
            self.residual,
        )
        &&& self.present.in_range()
        &&& -2 * POS_LIMIT <= self.residual.x <= 2 * POS_LIMIT
        &&& -2 * POS_LIMIT <= self.residual.y <= 2 * POS_LIMIT
        &&& -2 * POS_LIMIT <= self.residual.z <= 2 * POS_LIMIT
        &&& -2 * ONE <= self.residual.cos <= 2 * ONE
        &&& -2 * ONE <= self.residual.sin <= 2 * ONE
        &&& self.history@.len() <= self.capacity
        &&& consecutive(self.history@)
        &&& chained(self.history@, self.params)
        &&& forall|j: int|
            0 <= j < self.history@.len() ==> (#[trigger] self.history@[j]).value.in_range()
        &&& self.history@.len() > 0 ==> {
            &&& self.history@.last().tick == self.present_tick
            &&& self.history@.last().value == self.present
        }
    }

    /// The value to render now.
    pub open spec fn rendered(self) -> Transform {
        corrected_view(self.present, self.residual, self.span as int, self.elapsed as int)
    }

    /// Whether an authoritative value for `tick` is stale: at or before the
    /// last tick reconciled.
    pub open spec fn is_stale(self, tick: u64) -> bool {
        self.last_auth is Some && tick <= self.last_auth.unwrap()
    }

    /// The history index that holds `tick`, if any.
    pub open spec fn index_of(self, tick: u64) -> Option<int> {
        if self.history@.len() > 0 && self.history@[0].tick <= tick <= self.present_tick {
            Some(tick - self.history@[0].tick)
        } else {
            None
        }
    }

    /// A fresh entity at `start`, at tick `tick`, with an empty history.
    pub fn new(
        start: Transform,
        tick: u64,
        params: MoveParams,
        capacity: usize,
        tolerance: i64,
        window: u64,
        correction: BlendFn,
    ) -> (r: PredictedEntity)
        requires
            params.wf(),
            start.in_range(),
            1 <= capacity,
            0 <= tolerance,
            1 <= window <= WINDOW_MAX,
        ensures
            r.wf(),
            r.present == start,
            r.present_tick == tick,
            r.history@.len() == 0,
            r.params == params,
            r.capacity == capacity,
            r.tolerance == tolerance,
            r.window == window,
            r.correction == correction,
            r.last_auth is None,
            r.rendered() == start,
    {
        let r = PredictedEntity {
            params,
            capacity,
            tolerance,
            present_tick: tick,
            present: start,
            history: Vec::new(),
            residual: Transform { x: 0, y: 0, z: 0, cos: 0, sin: 0 },
            window,
            span: window,
            elapsed: window,
            correction,
            last_auth: None,
        };
        proof {
            assert(faded(0, window as int, window as int) == 0);
        }
        r
    }

    /// Predicts the next tick under `intent` and records it, dropping the
    /// oldest entry when the history is full.
    pub fn predict(&mut self, intent: InputIntent) -> (r: Transform)
        requires
            old(self).wf(),
            old(self).present_tick < u64::MAX,
        ensures
            final(self).wf(),
            r == step_spec(old(self).present, intent, old(self).params),
            final(self).present == r,
            final(self).present_tick == old(self).present_tick + 1,
            final(self).history@ == (if old(self).history@.len() == old(self).capacity {
                old(self).history@.drop_first()
            } else {
                old(self).history@
            }).push(HistoryEntry { tick: (old(self).present_tick + 1) as u64, value: r, intent }),
            final(self).params == old(self).params,
            final(self).capacity == old(self).capacity,
            final(self).tolerance == old(self).tolerance,
            final(self).residual == old(self).residual,
            final(self).window == old(self).window,
            final(self).span == old(self).span,
            final(self).elapsed == old(self).elapsed,
            final(self).correction == old(self).correction,
            final(self).last_auth == old(self).last_auth,
    {
        let next = step(&self.present, &intent, &self.params);
        proof {
            lemma_step_in_range(self.present, intent, self.params);
        }
        if self.history.len() == self.capacity {
            self.history.remove(0);
        }
        let ghost mid = self.history@;
        let tick = self.present_tick + 1;
        self.history.push(HistoryEntry { tick, value: next, intent });
        self.present_tick = tick;
        self.present = next;
        proof {
            let h = self.history@;
            assert forall|j: int| 0 <= j < h.len() implies #[trigger] h[j].tick == h[0].tick + j by {
                if j < h.len() - 1 && h.len() >= 2 {
                    assert(h[j] == mid[j]);
                }
            }
            assert forall|j: int| 1 <= j < h.len() implies #[trigger] h[j].value == step_spec(
                h[j - 1].value,
                h[j].intent,
                self.params,
            ) by {
                if j < h.len() - 1 {
                    assert(h[j] == mid[j]);
                }
            }
        }
        next
    }

    /// Moves the correction one frame forward; it ends after `span` frames.
    pub fn advance_frame(&mut self)
        requires
            old(self).wf(),
        ensures
            final(self).wf(),
            final(self).span == old(self).span,
            final(self).elapsed == if old(self).elapsed < old(self).span {
                old(self).elapsed + 1
            } else {
                old(self).elapsed as int
            },
            final(self).present == old(self).present,
            final(self).present_tick == old(self).present_tick,
            final(self).history@ == old(self).history@,
            final(self).residual == old(self).residual,
            final(self).window == old(self).window,
            final(self).correction == old(self).correction,
            final(self).last_auth == old(self).last_auth,
            final(self).params == old(self).params,
            final(self).capacity == old(self).capacity,
            final(self).tolerance == old(self).tolerance,
    {
        if self.elapsed < self.span {
            self.elapsed = self.elapsed + 1;
        }
    }

    /// The value to render now: the present value plus the part of the
    /// residual not yet faded out.
    pub fn render(&self) -> (r: Transform)
        requires
            self.wf(),
        ensures
            r == self.rendered(),
    {
        let w = self.span as i64;
        let k = self.elapsed as i64;
        Transform {
            x: self.present.x + fade(self.residual.x, w, k, 2 * POS_LIMIT),
            y: self.present.y + fade(self.residual.y, w, k, 2 * POS_LIMIT),
            z: self.present.z + fade(self.residual.z, w, k, 2 * POS_LIMIT),
            cos: self.present.cos + fade(self.residual.cos, w, k, 2 * ONE),
            sin: self.present.sin + fade(self.residual.sin, w, k, 2 * ONE),
        }
    }

    /// Takes the authoritative value `auth` for `tick` into account.
    /// Within tolerance it is a confirmation and nothing changes. Otherwise
    /// the history is restarted at `tick` with `auth`, every later stored
    /// tick is stepped again with its stored intent, and the rendered value
    /// fades from the old present value to the new one over the correction's
    /// span, at most the window and at most the residual's largest field (a
    /// linear correction) or moves to the new one at once (a snap).
    /// Where the history does not hold `tick`, `auth` becomes the present
    /// value at once and the history is emptied. A value for a tick at or
    /// before the last one reconciled is stale and dropped.
    #[verifier::rlimit(100)]
    pub fn reconcile(&mut self, tick: u64, auth: Transform) -> (r: ReconcileOutcome)
        requires
            old(self).wf(),
            auth.in_range(),
        ensures
            reconcile_post(*old(self), *final(self), tick, auth, r),
    {
        if let Some(t) = self.last_auth {
            if tick <= t {
                return ReconcileOutcome::StaleUpdateDropped;
            }
        }
        self.last_auth = Some(tick);
        let n = self.history.len();
        if n == 0 || tick < self.history[0].tick || tick > self.present_tick {
            self.present = auth;
            if tick > self.present_tick {
                self.present_tick = tick;
            }
            self.history = Vec::new();
            self.residual = Transform { x: 0, y: 0, z: 0, cos: 0, sin: 0 };
            self.elapsed = self.span;
            proof {
                lemma_faded_zero_any(0, self.span as int);
            }
            return ReconcileOutcome::ReconciliationBufferExhausted;
        }
        let k = (tick - self.history[0].tick) as usize;
        if within_exec(&self.history[k].value, &auth, self.tolerance) {
            return ReconcileOutcome::Confirmed;
        }
        let ghost old_h = self.history@;
        let fresh = resimulate(&self.history, k, auth, &self.params);
        let old_present = self.present;
        let new_present = fresh[n - k - 1].value;
        proof {
            assert(fresh@[n - k - 1] == fresh@.last());
        }
        self.history = fresh;
        self.present = new_present;
        self.residual = Transform {
            x: old_present.x - new_present.x,
            y: old_present.y - new_present.y,
            z: old_present.z - new_present.z,
            cos: old_present.cos - new_present.cos,
            sin: old_present.sin - new_present.sin,
        };
        match self.correction {
            BlendFn::Linear => {
                self.span = span_exec(&self.residual, self.window);
                self.elapsed = 0;
            },
            BlendFn::Snap => {
                self.elapsed = self.span;
            },
        }
        proof {
            lemma_faded_zero_any(self.residual.x as int, self.span as int);
            lemma_faded_zero_any(self.residual.y as int, self.span as int);
            lemma_faded_zero_any(self.residual.z as int, self.span as int);
            lemma_faded_zero_any(self.residual.cos as int, self.span as int);
            lemma_faded_zero_any(self.residual.sin as int, self.span as int);
            let h = self.history@;
            assert forall|i: int| 0 <= i < h.len() implies #[trigger] h[i].tick == h[0].tick + i by {
                assert(old_h[k + i].tick == old_h[0].tick + k + i);
            }
            assert(old_h[n - 1].tick == self.present_tick);
            lemma_faded_full(self.residual.x as int, self.span as int);
            lemma_faded_full(self.residual.y as int, self.span as int);
            lemma_faded_full(self.residual.z as int, self.span as int);
            lemma_faded_full(self.residual.cos as int, self.span as int);
            lemma_faded_full(self.residual.sin as int, self.span as int);
        }
        ReconcileOutcome::Corrected
    }
}

/// The history from index `k` on, restarted at `auth` and stepped again
/// with the stored intents.
fn resimulate(h: &Vec<HistoryEntry>, k: usize, auth: Transform, p: &MoveParams) -> (fresh: Vec<
    HistoryEntry,
>)
    requires
        k < h@.len(),
        p.wf(),
        auth.in_range(),
    ensures
        fresh@.len() == h@.len() - k,
        fresh@[0].value == auth,
        chained(fresh@, *p),
        forall|i: int|
            0 <= i < fresh@.len() ==> {
                &&& (#[trigger] fresh@[i]).tick == h@[k + i].tick
                &&& fresh@[i].intent == h@[k + i].intent
                &&& fresh@[i].value.in_range()
            },
{
    let n = h.len();
    let mut fresh: Vec<HistoryEntry> = Vec::new();
    fresh.push(HistoryEntry { tick: h[k].tick, value: auth, intent: h[k].intent });
    let mut j: usize = k + 1;
    while j < n
        invariant
            k < j <= n,
            n == h@.len(),
            p.wf(),
            auth.in_range(),
            fresh@.len() == j - k,
            fresh@[0].value == auth,
            chained(fresh@, *p),
            forall|i: int|
                0 <= i < fresh@.len() ==> {
                    &&& (#[trigger] fresh@[i]).tick == h@[k + i].tick
                    &&& fresh@[i].intent == h@[k + i].intent
                    &&& fresh@[i].value.in_range()
                },
        decreases n - j,
    {
        let prev = fresh[j - k - 1].value;
        let e = h[j];
        let v = step(&prev, &e.intent, p);
        proof {
            lemma_step_in_range(prev, e.intent, *p);
        }
        let ghost before = fresh@;
        fresh.push(HistoryEntry { tick: e.tick, value: v, intent: e.intent });
        proof {
            assert forall|i: int| 1 <= i < fresh@.len() implies #[trigger] fresh@[i].value
                == step_spec(fresh@[i - 1].value, fresh@[i].intent, *p) by {
                if i < fresh@.len() - 1 {
                    assert(fresh@[i] == before[i]);
                    assert(fresh@[i - 1] == before[i - 1]);
                }
            }
        }
        j = j + 1;
    }
    fresh
}

fn abs_exec(v: i64) -> (r: i64)
    requires
        v > i64::MIN,
    ensures
        r == abs(v as int),
{
    if v < 0 {
        -v
    } else {
        v
    }
}

fn span_exec(r: &Transform, w: u64) -> (s: u64)
    requires
        1 <= w <= WINDOW_MAX,
        -2 * POS_LIMIT <= r.x <= 2 * POS_LIMIT,
        -2 * POS_LIMIT <= r.y <= 2 * POS_LIMIT,
        -2 * POS_LIMIT <= r.z <= 2 * POS_LIMIT,
        -2 * ONE <= r.cos <= 2 * ONE,
        -2 * ONE <= r.sin <= 2 * ONE,
    ensures
        s == span_for(*r, w),
{
    let ax = abs_exec(r.x);
    let ay = abs_exec(r.y);
    let az = abs_exec(r.z);
    let ac = abs_exec(r.cos);
    let as_ = abs_exec(r.sin);
    let a = if ax >= ay { ax } else { ay };
    let b = if a >= az { a } else { az };
    let c = if b >= ac { b } else { ac };
    let m = if c >= as_ { c } else { as_ };
    if m < 1 {
        1
    } else if m < w as i64 {
        m as u64
    } else {
        w
    }
}

proof fn lemma_faded_zero_any(e: int, w: int)
    requires
        w >= 1,
    ensures
        faded(e, w, w) == 0,
{
    assert(e * (w - w) == 0);
}

proof fn lemma_faded_full(e: int, w: int)
    requires
        w >= 1,
    ensures
        faded(e, w, 0) == e,
{
    assert(e * (w - 0) == e * w);
    if e >= 0 {
        assert((e * w) / w == e) by (nonlinear_arith)
            requires w >= 1;
    } else {
        assert(-(e * w) == (-e) * w) by (nonlinear_arith);
        assert(((-e) * w) / w == -e) by (nonlinear_arith)
            requires w >= 1;
    }
}

proof fn lemma_faded_bound(e: int, w: int, k: int, m: int)
    requires
        1 <= w,
        0 <= k <= w,
        -m <= e <= m,
    ensures
        -m <= faded(e, w, k) <= m,
        abs(faded(e, w, k)) <= abs(e),
{
    let a = abs(e) * (w - k);
    assert(0 <= a <= abs(e) * w) by (nonlinear_arith)
        requires 0 <= k <= w, a == abs(e) * (w - k), abs(e) >= 0;
    assert(a / w <= abs(e)) by (nonlinear_arith)
        requires 0 <= a <= abs(e) * w, w >= 1;
    assert(a / w >= 0) by (nonlinear_arith)
        requires 0 <= a, w >= 1;
    if e < 0 {
        assert(-(e * (w - k)) == a) by (nonlinear_arith)
            requires e < 0, a == abs(e) * (w - k), abs(e) == -e;
        assert(e * (w - k) <= 0) by (nonlinear_arith)
            requires e < 0, k <= w;
        if e * (w - k) == 0 {
            assert(a == 0);
        }
    } else {
        assert(e * (w - k) == a);
    }
}

fn fade(e: i64, w: i64, k: i64, m: i64) -> (r: i64)
    requires
        1 <= w <= WINDOW_MAX,
        0 <= k <= w,
        0 <= m <= 2 * POS_LIMIT,
        -m <= e <= m,
    ensures
        r == faded(e as int, w as int, k as int),
        -m <= r <= m,
{
    assert(-m * WINDOW_MAX <= e * (w - k) <= m * WINDOW_MAX) by (nonlinear_arith)
        requires -m <= e <= m, 0 <= w - k <= WINDOW_MAX, m >= 0;
    assert(m * WINDOW_MAX <= 2 * POS_LIMIT * WINDOW_MAX) by (nonlinear_arith)
        requires 0 <= m <= 2 * POS_LIMIT;
    let a: i64 = e * (w - k);
    proof {
        lemma_faded_bound(e as int, w as int, k as int, m as int);
    }
    if a >= 0 {
        a / w
    } else {
        let b: i64 = -a;
        -(b / w)
    }
}

fn abs_diff_within(a: i64, b: i64, tol: i64) -> (r: bool)
    requires
        0 <= tol,
    ensures
        r == (abs(a - b) <= tol),
{
    let d: i128 = a as i128 - b as i128;
    if d < 0 {
        -d <= tol as i128
    } else {
        d <= tol as i128
    }
}

fn within_exec(a: &Transform, b: &Transform, tol: i64) -> (r: bool)
    requires
        0 <= tol,
    ensures
        r == within(*a, *b, tol as int),
{
    abs_diff_within(a.x, b.x, tol) && abs_diff_within(a.y, b.y, tol) && abs_diff_within(
        a.z,
        b.z,
        tol,
    ) && abs_diff_within(a.cos, b.cos, tol) && abs_diff_within(a.sin, b.sin, tol)
}

/// The movement rule keeps every value within the world's bounds.
pub proof fn lemma_step_in_range(t: Transform, i: InputIntent, p: MoveParams)
    ensures
        step_spec(t, i, p).in_range(),
{
    reveal(step_spec);
}

proof fn lemma_fade_monotone(e: int, w: int, k1: int, k2: int)
    requires
        1 <= w,
        0 <= k1 < k2 <= w,
    ensures
        abs(faded(e, w, k2)) <= abs(faded(e, w, k1)),
        faded(e, w, w) == 0,
        abs(e) >= w ==> abs(faded(e, w, k2)) < abs(faded(e, w, k1)),
{
    let a = abs(e);
    let x1 = a * (w - k1);
    let x2 = a * (w - k2);
    assert(0 <= x2 <= x1) by (nonlinear_arith)
        requires a >= 0, 0 <= k1 < k2 <= w, x1 == a * (w - k1), x2 == a * (w - k2);
    assert(x1 - x2 == a * (k2 - k1)) by (nonlinear_arith)
        requires x1 == a * (w - k1), x2 == a * (w - k2);
    assert(a * (k2 - k1) >= a) by (nonlinear_arith)
        requires a >= 0, k2 - k1 >= 1;
    assert(x2 / w <= x1 / w) by (nonlinear_arith)
        requires 0 <= x2 <= x1, w >= 1;
    assert(x1 - x2 >= w ==> x2 / w < x1 / w) by (nonlinear_arith)
        requires 0 <= x2 <= x1, w >= 1;
    assert(e * (w - w) == 0);
    assert(abs(faded(e, w, k1)) == x1 / w) by {
        if e < 0 {
            assert(e * (w - k1) == -x1) by (nonlinear_arith)
                requires a == -e, x1 == a * (w - k1);
            assert(x1 / w >= 0) by (nonlinear_arith)
                requires x1 >= 0, w >= 1;
        } else {
            assert(e * (w - k1) == x1);
        }
    }
    assert(abs(faded(e, w, k2)) == x2 / w) by {
        if e < 0 {
            assert(e * (w - k2) == -x2) by (nonlinear_arith)
                requires a == -e, x2 == a * (w - k2);
            assert(x2 / w >= 0) by (nonlinear_arith)
                requires x2 >= 0, w >= 1;
        } else {
            assert(e * (w - k2) == x2);
        }
    }
}

/// Convergence of a correction: for every field, the distance between the
/// rendered value and the corrected present value `k2` frames into the
/// span is no larger than at an earlier frame `k1`, strictly smaller for a
/// field whose residual is at least one unit per frame of the span, and
/// zero once the span has run out.
pub proof fn lemma_correction_converges(e: PredictedEntity, k1: u64, k2: u64)
    requires
        e.wf(),
        k1 < k2 <= e.span,
    ensures
        ({
            let w = e.span as int;
            let r1 = corrected_view(e.present, e.residual, w, k1 as int);
            let r2 = corrected_view(e.present, e.residual, w, k2 as int);
            &&& abs(r2.x - e.present.x) <= abs(r1.x - e.present.x)
            &&& abs(r2.y - e.present.y) <= abs(r1.y - e.present.y)
            &&& abs(r2.z - e.present.z) <= abs(r1.z - e.present.z)
            &&& abs(r2.cos - e.present.cos) <= abs(r1.cos - e.present.cos)
            &&& abs(r2.sin - e.present.sin) <= abs(r1.sin - e.present.sin)
            &&& abs(e.residual.x as int) >= w ==> abs(r2.x - e.present.x) < abs(r1.x - e.present.x)
            &&& abs(e.residual.y as int) >= w ==> abs(r2.y - e.present.y) < abs(r1.y - e.present.y)
            &&& abs(e.residual.z as int) >= w ==> abs(r2.z - e.present.z) < abs(r1.z - e.present.z)
            &&& abs(e.residual.cos as int) >= w ==> abs(r2.cos - e.present.cos) < abs(
                r1.cos - e.present.cos,
            )
            &&& abs(e.residual.sin as int) >= w ==> abs(r2.sin - e.present.sin) < abs(
                r1.sin - e.present.sin,
            )
            &&& corrected_view(e.present, e.residual, w, w) == e.present
        }),
{
    let w = e.span as int;
    let r = e.residual;
    lemma_fade_monotone(r.x as int, w, k1 as int, k2 as int);
    lemma_fade_monotone(r.y as int, w, k1 as int, k2 as int);
    lemma_fade_monotone(r.z as int, w, k1 as int, k2 as int);
    lemma_fade_monotone(r.cos as int, w, k1 as int, k2 as int);
    lemma_fade_monotone(r.sin as int, w, k1 as int, k2 as int);
    let m = 2 * POS_LIMIT;
    let n = 2 * ONE;
    lemma_faded_bound(r.x as int, w, k1 as int, m as int);
    lemma_faded_bound(r.x as int, w, k2 as int, m as int);
    lemma_faded_bound(r.y as int, w, k1 as int, m as int);
    lemma_faded_bound(r.y as int, w, k2 as int, m as int);
    lemma_faded_bound(r.z as int, w, k1 as int, m as int);
    lemma_faded_bound(r.z as int, w, k2 as int, m as int);
    lemma_faded_bound(r.cos as int, w, k1 as int, n as int);
    lemma_faded_bound(r.cos as int, w, k2 as int, n as int);
    lemma_faded_bound(r.sin as int, w, k1 as int, n as int);
    lemma_faded_bound(r.sin as int, w, k2 as int, n as int);
}

/// Prediction agrees with the authoritative simulation: every value that a
/// predicted history holds after its first is the authoritative trajectory
/// from that first value under the intents stored with the later entries.
pub proof fn lemma_history_is_trajectory(h: Seq<HistoryEntry>, p: MoveParams)
    requires
        h.len() >= 1,
        chained(h, p),
    ensures
        trajectory(h[0].value, intents_of(h).subrange(1, h.len() as int), p).len() == h.len() - 1,
        forall|j: int|
            1 <= j < h.len() ==> #[trigger] h[j].value == trajectory(
                h[0].value,
                intents_of(h).subrange(1, h.len() as int),
                p,
            )[j - 1],
    decreases h.len(),
{
    let ins = intents_of(h).subrange(1, h.len() as int);
    crate::transform::lemma_trajectory_len(h[0].value, ins, p);
    if h.len() > 1 {
        let g = h.drop_last();
        let gins = intents_of(g).subrange(1, g.len() as int);
        assert(chained(g, p)) by {
            assert forall|j: int| 1 <= j < g.len() implies #[trigger] g[j].value == step_spec(
                g[j - 1].value,
                g[j].intent,
                p,
            ) by {
                assert(h[j].value == step_spec(h[j - 1].value, h[j].intent, p));
            }
        }
        lemma_history_is_trajectory(g, p);
        assert(ins.drop_last() =~= gins);
        let t = trajectory(h[0].value, ins, p);
        let tg = trajectory(h[0].value, gins, p);
        assert(ins.last() == h.last().intent);
        assert(h.last().value == step_spec(h[h.len() - 2].value, h.last().intent, p));
        assert forall|j: int| 1 <= j < h.len() implies #[trigger] h[j].value == t[j - 1] by {
            if j < h.len() - 1 {
                assert(g[j] == h[j]);
            } else if h.len() > 2 {
                assert(g[h.len() - 2] == h[h.len() - 2]);
            }
        }
    }
}

proof fn lemma_faded_rounding(e: int, w: int, k: int)
    requires
        1 <= w,
        0 <= k <= w,
    ensures
        abs(faded(e, w, k)) * w <= abs(e) * (w - k),
        abs(e) * (w - k) < (abs(faded(e, w, k)) + 1) * w,
{
    let a = abs(e) * (w - k);
    assert(abs(e * (w - k)) == a) by (nonlinear_arith)
        requires a == abs(e) * (w - k), w - k >= 0;
    assert(a >= 0) by (nonlinear_arith)
        requires a == abs(e) * (w - k), w - k >= 0;
    assert((a / w) * w <= a && a < (a / w + 1) * w) by (nonlinear_arith)
        requires a >= 0, w >= 1;
    if e * (w - k) < 0 {
        assert(abs(faded(e, w, k)) == a / w);
    } else {
        assert(abs(faded(e, w, k)) == a / w);
    }
}

/// The distance shown during a correction is, on each field, the exact
/// remaining residual `|e| * (span - k) / span` rounded down: that exact
/// quantity falls strictly at every frame while the residual is not zero, so
/// the distance shown is within one unit of a strictly decreasing one.
pub proof fn lemma_correction_rounding(e: PredictedEntity, k: u64)
    requires
        e.wf(),
        k <= e.span,
    ensures
        ({
            let w = e.span as int;
            let r = e.residual;
            &&& abs(faded(r.x as int, w, k as int)) * w <= abs(r.x as int) * (w - k)
            &&& abs(r.x as int) * (w - k) < (abs(faded(r.x as int, w, k as int)) + 1) * w
            &&& abs(faded(r.y as int, w, k as int)) * w <= abs(r.y as int) * (w - k)
            &&& abs(r.y as int) * (w - k) < (abs(faded(r.y as int, w, k as int)) + 1) * w
            &&& abs(faded(r.z as int, w, k as int)) * w <= abs(r.z as int) * (w - k)
            &&& abs(r.z as int) * (w - k) < (abs(faded(r.z as int, w, k as int)) + 1) * w
            &&& abs(faded(r.cos as int, w, k as int)) * w <= abs(r.cos as int) * (w - k)
            &&& abs(r.cos as int) * (w - k) < (abs(faded(r.cos as int, w, k as int)) + 1) * w
            &&& abs(faded(r.sin as int, w, k as int)) * w <= abs(r.sin as int) * (w - k)
            &&& abs(r.sin as int) * (w - k) < (abs(faded(r.sin as int, w, k as int)) + 1) * w
            &&& corrected_view(e.present, r, w, k as int).x == e.present.x + faded(r.x as int, w, k as int)
            &&& corrected_view(e.present, r, w, k as int).z == e.present.z + faded(r.z as int, w, k as int)
        }),
{
    let w = e.span as int;
    let r = e.residual;
    lemma_faded_rounding(r.x as int, w, k as int);
    lemma_faded_rounding(r.y as int, w, k as int);
    lemma_faded_rounding(r.z as int, w, k as int);
    lemma_faded_rounding(r.cos as int, w, k as int);
    lemma_faded_rounding(r.sin as int, w, k as int);
    lemma_faded_bound(r.x as int, w, k as int, 2 * POS_LIMIT as int);
    lemma_faded_bound(r.z as int, w, k as int, 2 * POS_LIMIT as int);
}

/// The residual still shown `k` frames into a correction of `w` frames.
pub open spec fn faded_all(r: Transform, w: int, k: int) -> Transform {
    Transform {
        x: faded(r.x as int, w, k) as i64,
        y: faded(r.y as int, w, k) as i64,
        z: faded(r.z as int, w, k) as i64,
        cos: faded(r.cos as int, w, k) as i64,
        sin: faded(r.sin as int, w, k) as i64,
    }
}

/// The size of `faded(e, w, k)` is `|e| * (w - k) / w`, rounded down.
proof fn lemma_faded_abs(e: int, w: int, k: int)
    requires
        1 <= w,
        0 <= k <= w,
    ensures
        abs(faded(e, w, k)) == (abs(e) * (w - k)) / w,
{
    let a = abs(e) * (w - k);
    assert(abs(e * (w - k)) == a) by (nonlinear_arith)
        requires a == abs(e) * (w - k), w - k >= 0;
    assert(a >= 0) by (nonlinear_arith)
        requires a == abs(e) * (w - k), w - k >= 0;
    assert(a / w >= 0) by (nonlinear_arith)
        requires a >= 0, w >= 1;
}

/// `a * (w - k) / w` grows with `a`.
proof fn lemma_scaled_monotone(a: int, b: int, w: int, k: int)
    requires
        0 <= a <= b,
        1 <= w,
        0 <= k <= w,
    ensures
        (a * (w - k)) / w <= (b * (w - k)) / w,
{
    assert(a * (w - k) <= b * (w - k)) by (nonlinear_arith)
        requires 0 <= a <= b, w - k >= 0;
    assert(0 <= a * (w - k)) by (nonlinear_arith)
        requires 0 <= a, w - k >= 0;
    assert((a * (w - k)) / w <= (b * (w - k)) / w) by (nonlinear_arith)
        requires 0 <= a * (w - k) <= b * (w - k), w >= 1;
}

/// The larger of two sizes, scaled: scaling keeps which one is larger.
proof fn lemma_scaled_max(a: int, b: int, w: int, k: int)
    requires
        0 <= a,
        0 <= b,
        1 <= w,
        0 <= k <= w,
    ensures
        (if (a * (w - k)) / w >= (b * (w - k)) / w {
            (a * (w - k)) / w
        } else {
            (b * (w - k)) / w
        }) == ((if a >= b { a } else { b }) * (w - k)) / w,
{
    if a >= b {
        lemma_scaled_monotone(b, a, w, k);
    } else {
        lemma_scaled_monotone(a, b, w, k);
    }
}

proof fn lemma_max_abs_faded(r: Transform, w: int, k: int)
    requires
        1 <= w,
        0 <= k <= w,
        -2 * POS_LIMIT <= r.x <= 2 * POS_LIMIT,
        -2 * POS_LIMIT <= r.y <= 2 * POS_LIMIT,
        -2 * POS_LIMIT <= r.z <= 2 * POS_LIMIT,
        -2 * ONE <= r.cos <= 2 * ONE,
        -2 * ONE <= r.sin <= 2 * ONE,
    ensures
        max_abs(faded_all(r, w, k)) == (max_abs(r) * (w - k)) / w,
{
    let m = 2 * POS_LIMIT as int;
    lemma_faded_bound(r.x as int, w, k, m);
    lemma_faded_bound(r.y as int, w, k, m);
    lemma_faded_bound(r.z as int, w, k, m);
    lemma_faded_bound(r.cos as int, w, k, m);
    lemma_faded_bound(r.sin as int, w, k, m);
    lemma_faded_abs(r.x as int, w, k);
    lemma_faded_abs(r.y as int, w, k);
    lemma_faded_abs(r.z as int, w, k);
    lemma_faded_abs(r.cos as int, w, k);
    lemma_faded_abs(r.sin as int, w, k);
    let ax = abs(r.x as int);
    let ay = abs(r.y as int);
    let az = abs(r.z as int);
    let ac = abs(r.cos as int);
    let as_ = abs(r.sin as int);
    lemma_scaled_max(ax, ay, w, k);
    let a = if ax >= ay { ax } else { ay };
    lemma_scaled_max(a, az, w, k);
    let b = if a >= az { a } else { az };
    lemma_scaled_max(b, ac, w, k);
    let c = if b >= ac { b } else { ac };
    lemma_scaled_max(c, as_, w, k);
}

/// Strict convergence of a correction: while one runs, the largest field of
/// the distance between the rendered value and the corrected present value
/// falls at every later frame, and is zero at the end of the correction.
pub proof fn lemma_correction_strictly_converges(e: PredictedEntity, k1: u64, k2: u64)
    requires
        e.wf(),
        e.elapsed < e.span,
        e.elapsed <= k1 < k2 <= e.span,
        max_abs(e.residual) > 0,
    ensures
        max_abs(faded_all(e.residual, e.span as int, k2 as int)) < max_abs(
            faded_all(e.residual, e.span as int, k1 as int),
        ),
        max_abs(faded_all(e.residual, e.span as int, e.span as int)) == 0,
        corrected_view(e.present, e.residual, e.span as int, k1 as int).x == e.present.x
            + faded_all(e.residual, e.span as int, k1 as int).x,
        corrected_view(e.present, e.residual, e.span as int, k1 as int).z == e.present.z
            + faded_all(e.residual, e.span as int, k1 as int).z,
{
    let w = e.span as int;
    let m = max_abs(e.residual);
    lemma_max_abs_faded(e.residual, w, k1 as int);
    lemma_max_abs_faded(e.residual, w, k2 as int);
    lemma_max_abs_faded(e.residual, w, w);
    assert(m >= w);
    lemma_fade_monotone(m, w, k1 as int, k2 as int);
    lemma_faded_abs(m, w, k1 as int);
    lemma_faded_abs(m, w, k2 as int);
    assert((m * (w - w)) / w == 0) by (nonlinear_arith)
        requires w >= 1;
    lemma_faded_bound(e.residual.x as int, w, k1 as int, 2 * POS_LIMIT as int);
    lemma_faded_bound(e.residual.z as int, w, k1 as int, 2 * POS_LIMIT as int);
}

} // verus!
