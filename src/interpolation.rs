//! Smoothing of a remote entity between its two latest authoritative
//! samples, without extrapolation.
use vstd::prelude::*;
use crate::transform::{Transform, div_tz};

verus! {

/// Longest accepted interval between samples, in nanoseconds.
pub const PERIOD_MAX: u64 = 1_000_000_000_000;

/// `a + (b - a) * num / den`, rounded toward `a`.
pub open spec fn lerp_field(a: int, b: int, num: int, den: int) -> int {
    a + div_tz((b - a) * num, den)
}

/// The linear blend of two values, `num / den` of the way from `a` to `b`.
pub open spec fn lerp_spec(a: Transform, b: Transform, num: int, den: int) -> Transform {
    Transform {
        x: lerp_field(a.x as int, b.x as int, num, den) as i64,
        y: lerp_field(a.y as int, b.y as int, num, den) as i64,
        z: lerp_field(a.z as int, b.z as int, num, den) as i64,
        cos: lerp_field(a.cos as int, b.cos as int, num, den) as i64,
        sin: lerp_field(a.sin as int, b.sin as int, num, den) as i64,
    }
}

/// The closed set of blend functions a component can register.
#[derive(Clone, Copy, Debug, PartialEq, Eq, Structural)]
pub enum BlendFn {
    /// Linear blend of every field.
    Linear,
    /// The first value until the end of the interval, then the second.
    Snap,
}

/// `f(a, b, num / den)`.
pub open spec fn blend_spec(f: BlendFn, a: Transform, b: Transform, num: int, den: int) -> Transform {
    match f {
        BlendFn::Linear => lerp_spec(a, b, num, den),
        BlendFn::Snap => if num >= den {
            b
        } else {
            a
        },
    }
}

/// Whether `v` lies between `a` and `b`, in either order.
pub open spec fn between(v: int, a: int, b: int) -> bool {
    (a <= v <= b) || (b <= v <= a)
}

/// A blend at a fraction within `[0, 1]` lies between its two ends, and is
/// each end at the fractions 0 and 1.
pub proof fn lemma_lerp_between(a: int, b: int, num: int, den: int)
    requires
        1 <= den,
        0 <= num <= den,
    ensures
        between(lerp_field(a, b, num, den), a, b),
        lerp_field(a, b, 0, den) == a,
        lerp_field(a, b, den, den) == b,
{
    let d = b - a;
    if d >= 0 {
        assert(0 <= d * num <= d * den) by (nonlinear_arith)
            requires d >= 0, 0 <= num <= den;
        assert((d * num) / den <= d) by (nonlinear_arith)
            requires 0 <= d * num <= d * den, den >= 1, d >= 0;
        assert((d * num) / den >= 0) by (nonlinear_arith)
            requires 0 <= d * num, den >= 1;
        assert((d * den) / den == d) by (nonlinear_arith)
            requires den >= 1;
    } else {
        let m = -d;
        assert(d * num == -(m * num)) by (nonlinear_arith)
            requires m == -d;
        assert(d * den == -(m * den)) by (nonlinear_arith)
            requires m == -d;
        assert(0 <= m * num <= m * den) by (nonlinear_arith)
            requires m >= 0, 0 <= num <= den;
        assert((m * num) / den <= m) by (nonlinear_arith)
            requires 0 <= m * num <= m * den, den >= 1, m >= 0;
        assert((m * num) / den >= 0) by (nonlinear_arith)
            requires 0 <= m * num, den >= 1;
        assert((m * den) / den == m) by (nonlinear_arith)
            requires den >= 1;
        if m * num == 0 {
            assert(div_tz(d * num, den) == 0);
        }
    }
    assert(d * 0 == 0);
}

/// The two latest authoritative samples of a remote entity, the time the
/// newer one arrived, and the length of one sample interval.
#[derive(Clone, Copy, Debug, PartialEq, Eq, Structural)]
pub struct Interpolator {
    pub tick0: u64,
    pub v0: Transform,
    pub tick1: u64,
    pub v1: Transform,
    pub start: u64,
    pub period: u64,
    pub f: BlendFn,
}

impl Interpolator {
    pub open spec fn wf(self) -> bool {
        &&& 1 <= self.period <= PERIOD_MAX
        &&& self.v0.in_range()
        &&& self.v1.in_range()
        &&& self.tick0 <= self.tick1
    }

    /// Time into the current interval at `now`, held within `[0, period]`.
    pub open spec fn elapsed(self, now: u64) -> int {
        if now <= self.start {
            0
        } else if now - self.start >= self.period {
            self.period as int
        } else {
            now - self.start
        }
    }

    /// The value shown at time `now`.
    pub open spec fn rendered_at(self, now: u64) -> Transform {
        blend_spec(self.f, self.v0, self.v1, self.elapsed(now), self.period as int)
    }

    /// The state after sample `(tick, v)` arrives at `now`: the interval
    /// restarts from the value shown at that instant toward `v`.
    pub open spec fn promoted(self, tick: u64, v: Transform, now: u64) -> Interpolator {
        Interpolator {
            tick0: self.tick1,
            v0: self.rendered_at(now),
            tick1: tick,
            v1: v,
            start: now,
            period: self.period,
            f: self.f,
        }
    }

    /// Starts from a single sample, shown as it is, blending later ones
    /// with `f`.
    pub fn new(tick: u64, v: Transform, now: u64, period: u64, f: BlendFn) -> (r: Interpolator)
        requires
            v.in_range(),
            1 <= period <= PERIOD_MAX,
        ensures
            r.wf(),
            r == (Interpolator { tick0: tick, v0: v, tick1: tick, v1: v, start: now, period, f }),
    {
        Interpolator { tick0: tick, v0: v, tick1: tick, v1: v, start: now, period, f }
    }

    fn elapsed_exec(&self, now: u64) -> (r: u64)
        requires
            self.wf(),
        ensures
            r == self.elapsed(now),
    {
        if now <= self.start {
            0
        } else if now - self.start >= self.period {
            self.period
        } else {
            now - self.start
        }
    }

    /// The value to show at time `now`: `v1` once a whole interval has
    /// passed since it arrived, and never beyond it.
    pub fn render(&self, now: u64) -> (r: Transform)
        requires
            self.wf(),
        ensures
            r == self.rendered_at(now),
            r.in_range(),
            now >= self.start + self.period ==> r == self.v1,
    {
        let k = self.elapsed_exec(now);
        blend(self.f, &self.v0, &self.v1, k, self.period)
    }

    /// Takes a new authoritative sample arriving at `now`. One not newer
    /// than the latest sample is dropped and false is returned.
    pub fn push_sample(&mut self, tick: u64, v: Transform, now: u64) -> (r: bool)
        requires
            old(self).wf(),
            v.in_range(),
        ensures
            final(self).wf(),
            r == (tick > old(self).tick1),
            *final(self) == if r {
                old(self).promoted(tick, v, now)
            } else {
                *old(self)
            },
    {
        if tick <= self.tick1 {
            return false;
        }
        let shown = self.render(now);
        self.tick0 = self.tick1;
        self.v0 = shown;
        self.tick1 = tick;
        self.v1 = v;
        self.start = now;
        true
    }
}

/// The linear blend `num / den` of the way from `a` to `b`.
pub fn lerp(a: &Transform, b: &Transform, num: u64, den: u64) -> (r: Transform)
    requires
        a.in_range(),
        b.in_range(),
        1 <= den <= PERIOD_MAX,
        num <= den,
    ensures
        r == lerp_spec(*a, *b, num as int, den as int),
        r.in_range(),
{
    let r = Transform {
        x: lerp_exec(a.x, b.x, num, den),
        y: lerp_exec(a.y, b.y, num, den),
        z: lerp_exec(a.z, b.z, num, den),
        cos: lerp_exec(a.cos, b.cos, num, den),
        sin: lerp_exec(a.sin, b.sin, num, den),
    };
    proof {
        lemma_lerp_between(a.x as int, b.x as int, num as int, den as int);
        lemma_lerp_between(a.y as int, b.y as int, num as int, den as int);
        lemma_lerp_between(a.z as int, b.z as int, num as int, den as int);
        lemma_lerp_between(a.cos as int, b.cos as int, num as int, den as int);
        lemma_lerp_between(a.sin as int, b.sin as int, num as int, den as int);
    }
    r
}

/// Applies blend function `f` between `a` and `b` at `num / den`.
pub fn blend(f: BlendFn, a: &Transform, b: &Transform, num: u64, den: u64) -> (r: Transform)
    requires
        a.in_range(),
        b.in_range(),
        1 <= den <= PERIOD_MAX,
        num <= den,
    ensures
        r == blend_spec(f, *a, *b, num as int, den as int),
        r.in_range(),
        num == den ==> r == *b,
{
    proof {
        lemma_lerp_between(a.x as int, b.x as int, num as int, den as int);
        lemma_lerp_between(a.y as int, b.y as int, num as int, den as int);
        lemma_lerp_between(a.z as int, b.z as int, num as int, den as int);
        lemma_lerp_between(a.cos as int, b.cos as int, num as int, den as int);
        lemma_lerp_between(a.sin as int, b.sin as int, num as int, den as int);
    }
    match f {
        BlendFn::Linear => lerp(a, b, num, den),
        BlendFn::Snap => if num >= den {
            *b
        } else {
            *a
        },
    }
}

fn lerp_exec(a: i64, b: i64, num: u64, den: u64) -> (r: i64)
    requires
        1 <= den <= PERIOD_MAX,
        num <= den,
    ensures
        r == lerp_field(a as int, b as int, num as int, den as int),
{
    proof {
        lemma_lerp_between(a as int, b as int, num as int, den as int);
    }
    let d: i128 = b as i128 - a as i128;
    assert(-0x100_0000_0000_0000_0000_0000_0000 <= d * num <= 0x100_0000_0000_0000_0000_0000_0000)
        by (nonlinear_arith)
        requires
            -0x1_0000_0000_0000_0000 <= d <= 0x1_0000_0000_0000_0000,
            0 <= num <= 0x100_0000_0000,
    ;
    let p: i128 = d * (num as i128);
    let q: i128 = if p >= 0 {
        p / (den as i128)
    } else {
        -((-p) / (den as i128))
    };
    (a as i128 + q) as i64
}

/// Continuity across a promotion: at the instant a new sample arrives, the
/// value shown afterwards is the value shown just before.
pub proof fn lemma_promotion_continuous(s: Interpolator, tick: u64, v: Transform, now: u64)
    requires
        s.wf(),
    ensures
        s.promoted(tick, v, now).rendered_at(now) == s.rendered_at(now),
{
    let p = s.promoted(tick, v, now);
    let r = s.rendered_at(now);
    assert(p.elapsed(now) == 0);
    lemma_lerp_between(r.x as int, v.x as int, 0, s.period as int);
    lemma_lerp_between(r.y as int, v.y as int, 0, s.period as int);
    lemma_lerp_between(r.z as int, v.z as int, 0, s.period as int);
    lemma_lerp_between(r.cos as int, v.cos as int, 0, s.period as int);
    lemma_lerp_between(r.sin as int, v.sin as int, 0, s.period as int);
}

} // verus!
