//! The replicated spatial state of an entity and the deterministic movement
//! rule shared by the authoritative simulation and client prediction.
use vstd::prelude::*;

verus! {

/// Fixed-point one for headings and normalised directions.
pub const ONE: i64 = 65536;

/// `ONE / sqrt(2)`, rounded: the length of each axis of a diagonal unit move.
pub const DIAG: i64 = 46341;

/// Positions are kept within `[-POS_LIMIT, POS_LIMIT]` milli-units.
pub const POS_LIMIT: i64 = 1_000_000_000_000;

/// Largest accepted movement speed, in milli-units per second.
pub const SPEED_MAX: i64 = 1_000_000_000;

/// Largest accepted tick rate, in ticks per second.
pub const RATE_MAX: i64 = 1_000_000;

/// Position (milli-units) and yaw heading (a fixed-point unit vector
/// `(cos, sin)` scaled by `ONE`) of an entity.
#[derive(Clone, Copy, Debug, PartialEq, Eq, Structural)]
pub struct Transform {
    pub x: i64,
    pub y: i64,
    pub z: i64,
    pub cos: i64,
    pub sin: i64,
}

impl Transform {
    /// Every field lies within the world's bounds.
    pub open spec fn in_range(self) -> bool {
        &&& -POS_LIMIT <= self.x <= POS_LIMIT
        &&& -POS_LIMIT <= self.y <= POS_LIMIT
        &&& -POS_LIMIT <= self.z <= POS_LIMIT
        &&& -ONE <= self.cos <= ONE
        &&& -ONE <= self.sin <= ONE
    }

    /// Whether every field lies within the world's bounds.
    pub fn is_in_range(&self) -> (r: bool)
        ensures
            r == self.in_range(),
    {
        -POS_LIMIT <= self.x && self.x <= POS_LIMIT && -POS_LIMIT <= self.y && self.y <= POS_LIMIT
            && -POS_LIMIT <= self.z && self.z <= POS_LIMIT && -ONE <= self.cos && self.cos <= ONE
            && -ONE <= self.sin && self.sin <= ONE
    }
}

/// One client's action state for one tick: four movement actions and a yaw
/// turn given as a fixed-point unit vector `(cos, sin)` scaled by `ONE`.
#[derive(Clone, Copy, Debug, PartialEq, Eq, Structural)]
pub struct InputIntent {
    pub up: bool,
    pub down: bool,
    pub left: bool,
    pub right: bool,
    pub turn_cos: i64,
    pub turn_sin: i64,
}

/// Movement speed (milli-units per second) and tick rate (ticks per second).
#[derive(Clone, Copy, Debug, PartialEq, Eq, Structural)]
pub struct MoveParams {
    pub speed: i64,
    pub tick_rate: i64,
}

impl MoveParams {
    pub open spec fn wf(self) -> bool {
        &&& 0 <= self.speed <= SPEED_MAX
        &&& 1 <= self.tick_rate <= RATE_MAX
    }
}

/// `v` held within `[lo, hi]`.
pub open spec fn clamp(v: int, lo: int, hi: int) -> int {
    if v < lo {
        lo
    } else if v > hi {
        hi
    } else {
        v
    }
}

/// Division rounding toward zero, as machine division does.
pub open spec fn div_tz(a: int, b: int) -> int {
    if a >= 0 {
        a / b
    } else {
        -((-a) / b)
    }
}

/// `+1` when only `pos` is held, `-1` when only `neg` is, else 0.
pub open spec fn axis(neg: bool, pos: bool) -> int {
    (if pos { 1int } else { 0int }) - (if neg { 1int } else { 0int })
}

/// The local-frame move direction of an intent, normalised to length `ONE`
/// (diagonals use `DIAG` on each axis); zero when no net action is held.
pub open spec fn local_dir(i: InputIntent) -> (int, int) {
    let dx = axis(i.left, i.right);
    let dz = axis(i.up, i.down);
    if dx != 0 && dz != 0 {
        (dx * DIAG, dz * DIAG)
    } else {
        (dx * ONE, dz * ONE)
    }
}

/// The unit heading `(c, s)` rotates the local vector `(lx, lz)` about the y axis.
pub open spec fn rotate(c: int, s: int, lx: int, lz: int) -> (int, int) {
    (div_tz(c * lx + s * lz, ONE as int), div_tz(lz * c - lx * s, ONE as int))
}

/// The integer square root of `m`: the `r >= 0` with `r * r <= m < (r + 1) * (r + 1)`.
pub open spec fn isqrt(m: int) -> int {
    choose|r: int| #[trigger] is_root(m, r)
}

/// Whether `r` is the integer square root of `m`.
pub open spec fn is_root(m: int, r: int) -> bool {
    0 <= r && r * r <= m && m < (r + 1) * (r + 1)
}

/// The direction of `(wx, wz)` scaled to length `ONE`, rounded toward zero;
/// zero for the zero vector.
pub open spec fn unit_of(wx: int, wz: int) -> (int, int) {
    if wx == 0 && wz == 0 {
        (0, 0)
    } else {
        let l = isqrt((wx * wx + wz * wz) * (ONE * ONE));
        (div_tz(wx * (ONE * ONE), l), div_tz(wz * (ONE * ONE), l))
    }
}

/// The heading after composing `(c, s)` with the turn `(tc, ts)`, brought
/// back to length `ONE`; the identity turn `(ONE, 0)`, and a turn that
/// would leave no direction, keep the heading exactly as it is.
pub open spec fn turned(c: int, s: int, tc: int, ts: int) -> (int, int) {
    let hc = div_tz(c * tc - s * ts, ONE as int);
    let hs = div_tz(c * ts + s * tc, ONE as int);
    if (tc == ONE && ts == 0) || (hc == 0 && hs == 0) {
        (c, s)
    } else {
        let u = unit_of(hc, hs);
        (clamp_unit(u.0), clamp_unit(u.1))
    }
}

/// Displacement of one tick along a world direction of length `ONE`.
pub open spec fn displacement(w: int, p: MoveParams) -> int {
    div_tz(w * p.speed, p.tick_rate * ONE)
}

/// `v` held within `[-ONE, ONE]`.
pub open spec fn clamp_unit(v: int) -> int {
    clamp(v, -(ONE as int), ONE as int)
}

/// `v` held within the world's bounds.
pub open spec fn clamp_pos(v: int) -> int {
    clamp(v, -(POS_LIMIT as int), POS_LIMIT as int)
}

/// The movement rule: a pure function of the previous value, the intent and
/// the tick duration (through the tick rate). The held direction, turned by
/// the heading, is brought to length `ONE` before it is scaled by the speed,
/// so the speed does not depend on the heading's length.
#[verifier::opaque]
pub open spec fn step_spec(t: Transform, i: InputIntent, p: MoveParams) -> Transform {
    let c = clamp_unit(t.cos as int);
    let s = clamp_unit(t.sin as int);
    let l = local_dir(i);
    let w = rotate(c, s, l.0, l.1);
    let n = unit_of(w.0, w.1);
    let h = turned(c, s, clamp_unit(i.turn_cos as int), clamp_unit(i.turn_sin as int));
    Transform {
        x: clamp_pos(clamp_pos(t.x as int) + displacement(n.0, p)) as i64,
        y: clamp_pos(t.y as int) as i64,
        z: clamp_pos(clamp_pos(t.z as int) + displacement(n.1, p)) as i64,
        cos: h.0 as i64,
        sin: h.1 as i64,
    }
}

/// The values reached from `start` by applying `intents` one after another:
/// element `k` is the value after `k + 1` steps.
pub open spec fn trajectory(start: Transform, intents: Seq<InputIntent>, p: MoveParams) -> Seq<
    Transform,
>
    decreases intents.len(),
{
    if intents.len() == 0 {
        Seq::empty()
    } else {
        let prev = trajectory(start, intents.drop_last(), p);
        let last = if prev.len() == 0 {
            start
        } else {
            prev.last()
        };
        prev.push(step_spec(last, intents.last(), p))
    }
}

/// A trajectory has one value per intent.
pub proof fn lemma_trajectory_len(start: Transform, intents: Seq<InputIntent>, p: MoveParams)
    ensures
        trajectory(start, intents, p).len() == intents.len(),
    decreases intents.len(),
{
    if intents.len() > 0 {
        lemma_trajectory_len(start, intents.drop_last(), p);
    }
}

fn clamp_exec(v: i64, lo: i64, hi: i64) -> (r: i64)
    requires
        lo <= hi,
    ensures
        r == clamp(v as int, lo as int, hi as int),
{
    if v < lo {
        lo
    } else if v > hi {
        hi
    } else {
        v
    }
}

fn div_toward_zero(a: i64, b: i64) -> (r: i64)
    requires
        b > 0,
        a > i64::MIN,
    ensures
        r == div_tz(a as int, b as int),
{
    if a >= 0 {
        a / b
    } else {
        let n: i64 = -a;
        -(n / b)
    }
}

fn axis_exec(neg: bool, pos: bool) -> (r: i64)
    ensures
        r == axis(neg, pos),
        -1 <= r <= 1,
{
    let p: i64 = if pos { 1 } else { 0 };
    let n: i64 = if neg { 1 } else { 0 };
    p - n
}

proof fn lemma_div_tz_bound(a: int, b: int, m: int)
    requires
        b > 0,
        -m <= a <= m,
    ensures
        -m <= div_tz(a, b) <= m,
{
    if a >= 0 {
        assert(a / b <= a) by (nonlinear_arith)
            requires a >= 0, b > 0;
        assert(a / b >= 0) by (nonlinear_arith)
            requires a >= 0, b > 0;
    } else {
        assert((-a) / b <= -a) by (nonlinear_arith)
            requires -a >= 0, b > 0;
        assert((-a) / b >= 0) by (nonlinear_arith)
            requires -a >= 0, b > 0;
    }
}

proof fn lemma_isqrt_unique(m: int, r: int)
    requires
        0 <= r,
        r * r <= m,
        m < (r + 1) * (r + 1),
    ensures
        isqrt(m) == r,
{
    assert(is_root(m, r));
    let q = isqrt(m);
    assert(is_root(m, q));
    if q < r {
        assert((q + 1) * (q + 1) <= r * r) by (nonlinear_arith)
            requires 0 <= q, q + 1 <= r;
    }
    if r < q {
        assert((r + 1) * (r + 1) <= q * q) by (nonlinear_arith)
            requires 0 <= r, r + 1 <= q;
    }
}

/// The integer square root of `m`, by bisection.
fn isqrt_exec(m: u128) -> (r: u128)
    requires
        m < 0x1_0000_0000_0000_0000_00,
    ensures
        r == isqrt(m as int),
        r <= 0x10_0000_0000,
        r * r <= m,
        m < (r + 1) * (r + 1),
{
    let mut lo: u128 = 0;
    let mut hi: u128 = 0x10_0000_0000;
    assert(m < hi * hi) by (nonlinear_arith)
        requires m < 0x1_0000_0000_0000_0000_00, hi == 0x10_0000_0000;
    while hi - lo > 1
        invariant
            lo < hi <= 0x10_0000_0000,
            lo * lo <= m,
            m < hi * hi,
        decreases hi - lo,
    {
        let mid = lo + (hi - lo) / 2;
        assert(mid * mid <= 0x100_0000_0000_0000_0000) by (nonlinear_arith)
            requires mid <= 0x10_0000_0000;
        if mid * mid <= m {
            lo = mid;
        } else {
            hi = mid;
        }
    }
    proof {
        assert(hi == lo + 1);
        lemma_isqrt_unique(m as int, lo as int);
    }
    lo
}

/// `unit_of(wx, wz)`, for components within `2 * ONE`.
fn unit_exec(wx: i64, wz: i64) -> (r: (i64, i64))
    requires
        -2 * ONE <= wx <= 2 * ONE,
        -2 * ONE <= wz <= 2 * ONE,
    ensures
        r.0 == unit_of(wx as int, wz as int).0,
        r.1 == unit_of(wx as int, wz as int).1,
        -2 * ONE * ONE <= r.0 <= 2 * ONE * ONE,
        -2 * ONE * ONE <= r.1 <= 2 * ONE * ONE,
{
    if wx == 0 && wz == 0 {
        return (0, 0);
    }
    let ax: i128 = wx as i128;
    let az: i128 = wz as i128;
    assert(0 <= ax * ax <= 4 * ONE * ONE) by (nonlinear_arith)
        requires -2 * ONE <= ax <= 2 * ONE;
    assert(0 <= az * az <= 4 * ONE * ONE) by (nonlinear_arith)
        requires -2 * ONE <= az <= 2 * ONE;
    let w2: i128 = ax * ax + az * az;
    assert(w2 >= 1) by (nonlinear_arith)
        requires w2 == ax * ax + az * az, ax != 0 || az != 0;
    assert(ONE * ONE <= w2 * (ONE * ONE) <= 8 * ONE * ONE * ONE * ONE) by (nonlinear_arith)
        requires 1 <= w2 <= 8 * ONE * ONE;
    let m: i128 = w2 * ((ONE as i128) * (ONE as i128));
    let lu = isqrt_exec(m as u128);
    let l = lu as i128;
    assert(l >= ONE) by {
        if l < ONE {
            assert((l + 1) * (l + 1) <= ONE * ONE) by (nonlinear_arith)
                requires 0 <= l, l + 1 <= ONE;
        }
    }
    let big: i128 = (ONE as i128) * (ONE as i128);
    let px: i128 = ax * big;
    let pz: i128 = az * big;
    let qx: i128 = if px >= 0 { px / l } else { -((-px) / l) };
    let qz: i128 = if pz >= 0 { pz / l } else { -((-pz) / l) };
    proof {
        lemma_div_le_by_one(px as int, l as int, 2 * ONE * ONE * ONE);
        lemma_div_le_by_one(pz as int, l as int, 2 * ONE * ONE * ONE);
        assert(-2 * ONE * ONE * ONE <= px <= 2 * ONE * ONE * ONE) by (nonlinear_arith)
            requires -2 * ONE <= ax <= 2 * ONE, px == ax * big, big == ONE * ONE;
        assert(-2 * ONE * ONE * ONE <= pz <= 2 * ONE * ONE * ONE) by (nonlinear_arith)
            requires -2 * ONE <= az <= 2 * ONE, pz == az * big, big == ONE * ONE;
    }
    (qx as i64, qz as i64)
}

/// Dividing a value within `m` by at least `ONE` leaves it within `m / ONE`.
proof fn lemma_div_le_by_one(a: int, l: int, m: int)
    requires
        l >= ONE,
        -m <= a <= m,
        m >= 0,
    ensures
        -(m / ONE as int) <= div_tz(a, l) <= m / ONE as int,
{
    if a >= 0 {
        assert(a / l <= m / (ONE as int)) by (nonlinear_arith)
            requires 0 <= a <= m, l >= ONE, ONE > 0;
        assert(a / l >= 0) by (nonlinear_arith)
            requires 0 <= a, l >= 1;
    } else {
        assert((-a) / l <= m / (ONE as int)) by (nonlinear_arith)
            requires 0 <= -a <= m, l >= ONE, ONE > 0;
        assert((-a) / l >= 0) by (nonlinear_arith)
            requires 0 <= -a, l >= 1;
    }
}

/// One tick's displacement along a normalised direction component `n`.
fn displacement_exec(n: i64, p: &MoveParams) -> (r: i64)
    requires
        p.wf(),
        -2 * ONE * ONE <= n <= 2 * ONE * ONE,
    ensures
        r == displacement(n as int, *p),
        -2 * ONE * SPEED_MAX <= r <= 2 * ONE * SPEED_MAX,
{
    assert(-2 * ONE * ONE * SPEED_MAX <= n * p.speed <= 2 * ONE * ONE * SPEED_MAX) by (nonlinear_arith)
        requires -2 * ONE * ONE <= n <= 2 * ONE * ONE, 0 <= p.speed <= SPEED_MAX;
    let a: i128 = (n as i128) * (p.speed as i128);
    let den: i128 = (p.tick_rate as i128) * (ONE as i128);
    assert(den >= ONE) by (nonlinear_arith)
        requires den == p.tick_rate * ONE, p.tick_rate >= 1;
    let q: i128 = if a >= 0 { a / den } else { -((-a) / den) };
    proof {
        lemma_div_le_by_one(a as int, den as int, 2 * ONE * ONE * SPEED_MAX);
        assert((2 * ONE * ONE * SPEED_MAX) / (ONE as int) == 2 * ONE * SPEED_MAX);
    }
    q as i64
}

/// Advances `t` by one tick under `i`: exactly `step_spec`.
pub fn step(t: &Transform, i: &InputIntent, p: &MoveParams) -> (r: Transform)
    requires
        p.wf(),
    ensures
        r == step_spec(*t, *i, *p),
{
    reveal(step_spec);
    let c = clamp_exec(t.cos, -ONE, ONE);
    let s = clamp_exec(t.sin, -ONE, ONE);
    let dx = axis_exec(i.left, i.right);
    let dz = axis_exec(i.up, i.down);
    let k: i64 = if dx != 0 && dz != 0 { DIAG } else { ONE };
    let lx: i64 = if dx > 0 { k } else if dx < 0 { -k } else { 0 };
    let lz: i64 = if dz > 0 { k } else if dz < 0 { -k } else { 0 };
    assert(-ONE * ONE <= c * lx <= ONE * ONE) by (nonlinear_arith)
        requires -ONE <= c <= ONE, -ONE <= lx <= ONE;
    assert(-ONE * ONE <= s * lz <= ONE * ONE) by (nonlinear_arith)
        requires -ONE <= s <= ONE, -ONE <= lz <= ONE;
    assert(-ONE * ONE <= lz * c <= ONE * ONE) by (nonlinear_arith)
        requires -ONE <= c <= ONE, -ONE <= lz <= ONE;
    assert(-ONE * ONE <= lx * s <= ONE * ONE) by (nonlinear_arith)
        requires -ONE <= s <= ONE, -ONE <= lx <= ONE;
    let wx = div_toward_zero(c * lx + s * lz, ONE);
    let wz = div_toward_zero(lz * c - lx * s, ONE);
    proof {
        lemma_div_tz_bound(c * lx + s * lz, ONE as int, 2 * ONE * ONE);
        lemma_div_tz_bound(lz * c - lx * s, ONE as int, 2 * ONE * ONE);
    }
    let n = unit_exec(wx, wz);
    let ddx = displacement_exec(n.0, p);
    let ddz = displacement_exec(n.1, p);
    let tc = clamp_exec(i.turn_cos, -ONE, ONE);
    let ts = clamp_exec(i.turn_sin, -ONE, ONE);
    assert(-ONE * ONE <= c * tc <= ONE * ONE) by (nonlinear_arith)
        requires -ONE <= c <= ONE, -ONE <= tc <= ONE;
    assert(-ONE * ONE <= s * ts <= ONE * ONE) by (nonlinear_arith)
        requires -ONE <= s <= ONE, -ONE <= ts <= ONE;
    assert(-ONE * ONE <= c * ts <= ONE * ONE) by (nonlinear_arith)
        requires -ONE <= c <= ONE, -ONE <= ts <= ONE;
    assert(-ONE * ONE <= s * tc <= ONE * ONE) by (nonlinear_arith)
        requires -ONE <= s <= ONE, -ONE <= tc <= ONE;
    let hc = div_toward_zero(c * tc - s * ts, ONE);
    let hs = div_toward_zero(c * ts + s * tc, ONE);
    proof {
        lemma_div_tz_bound(c * tc - s * ts, ONE as int, 2 * ONE * ONE);
        lemma_div_tz_bound(c * ts + s * tc, ONE as int, 2 * ONE * ONE);
    }
    let (nc, ns) = if (tc == ONE && ts == 0) || (hc == 0 && hs == 0) {
        (c, s)
    } else {
        let u = unit_exec(hc, hs);
        (clamp_exec(u.0, -ONE, ONE), clamp_exec(u.1, -ONE, ONE))
    };
    let x0 = clamp_exec(t.x, -POS_LIMIT, POS_LIMIT);
    let z0 = clamp_exec(t.z, -POS_LIMIT, POS_LIMIT);
    let x = clamp_exec(x0 + ddx, -POS_LIMIT, POS_LIMIT);
    let y = clamp_exec(t.y, -POS_LIMIT, POS_LIMIT);
    let z = clamp_exec(z0 + ddz, -POS_LIMIT, POS_LIMIT);
    let r = Transform {
        x,
        y,
        z,
        cos: nc,
        sin: ns,
    };
    r
}

/// Replays `intents` from `start` as the authoritative simulation does,
/// returning the value after each tick.
pub fn replay(start: &Transform, intents: &Vec<InputIntent>, p: &MoveParams) -> (r: Vec<Transform>)
    requires
        p.wf(),
    ensures
        r@ == trajectory(*start, intents@, *p),
{
    let mut out: Vec<Transform> = Vec::new();
    let mut cur = *start;
    let mut i: usize = 0;
    while i < intents.len()
        invariant
            p.wf(),
            i <= intents@.len(),
            out@ == trajectory(*start, intents@.subrange(0, i as int), *p),
            cur == if i == 0 { *start } else { out@.last() },
        decreases intents@.len() - i,
    {
        proof {
            lemma_trajectory_len(*start, intents@.subrange(0, i as int), *p);
            assert(intents@.subrange(0, i + 1).drop_last() =~= intents@.subrange(0, i as int));
        }
        cur = step(&cur, &intents[i], p);
        out.push(cur);
        i = i + 1;
    }
    proof {
        assert(intents@.subrange(0, intents@.len() as int) =~= intents@);
    }
    out
}

/// Every `m >= 0` has an integer square root.
pub proof fn lemma_isqrt_exists(m: int)
    requires
        m >= 0,
    ensures
        is_root(m, isqrt(m)),
    decreases m,
{
    if m == 0 {
        assert(is_root(0, 0));
    } else {
        lemma_isqrt_exists(m - 1);
        let r = isqrt(m - 1);
        if (r + 1) * (r + 1) <= m {
            assert(m < (r + 2) * (r + 2)) by (nonlinear_arith)
                requires m - 1 < (r + 1) * (r + 1), r >= 0;
            assert(is_root(m, r + 1));
        } else {
            assert(is_root(m, r));
        }
    }
}

/// The normalised direction has length `ONE` up to rounding: its squared
/// length is below `(ONE + 1)^2`, and adding one to the size of each
/// component takes it beyond `ONE`.
pub proof fn lemma_unit_length(wx: int, wz: int)
    requires
        wx != 0 || wz != 0,
    ensures
        ({
            let n = unit_of(wx, wz);
            &&& n.0 * n.0 + n.1 * n.1 < (ONE + 1) * (ONE + 1)
            &&& (abs(n.0) + 1) * (abs(n.0) + 1) + (abs(n.1) + 1) * (abs(n.1) + 1)
                > ONE * ONE
        }),
{
    let p = ONE * ONE;
    let w = wx * wx + wz * wz;
    assert(w >= 1) by (nonlinear_arith)
        requires w == wx * wx + wz * wz, wx != 0 || wz != 0;
    let m = w * p;
    assert(m >= p) by (nonlinear_arith)
        requires m == w * p, w >= 1, p >= 0;
    lemma_isqrt_exists(m);
    let l = isqrt(m);
    assert(l >= ONE) by {
        if l < ONE {
            assert((l + 1) * (l + 1) <= ONE * ONE) by (nonlinear_arith)
                requires 0 <= l, l + 1 <= ONE;
        }
    }
    let n = unit_of(wx, wz);
    let ax = abs(wx);
    let az = abs(wz);
    let nx = abs(n.0);
    let nz = abs(n.1);
    lemma_trunc_bounds(wx * p, l);
    lemma_trunc_bounds(wz * p, l);
    assert(abs(wx * p) == ax * p) by (nonlinear_arith)
        requires ax == abs(wx), p >= 0;
    assert(abs(wz * p) == az * p) by (nonlinear_arith)
        requires az == abs(wz), p >= 0;
    assert(ax * ax + az * az == w) by (nonlinear_arith)
        requires ax == abs(wx), az == abs(wz), w == wx * wx + wz * wz;
    // nx * l <= ax * p < (nx + 1) * l, and likewise for z.
    let sx = nx * l;
    let sz = nz * l;
    let bx = ax * p;
    let bz = az * p;
    lemma_square_le(sx, bx);
    lemma_square_le(sz, bz);
    assert(sx * sx == nx * nx * (l * l)) by (nonlinear_arith)
        requires sx == nx * l;
    assert(sz * sz == nz * nz * (l * l)) by (nonlinear_arith)
        requires sz == nz * l;
    assert(bx * bx == ax * ax * (p * p)) by (nonlinear_arith)
        requires bx == ax * p;
    assert(bz * bz == az * az * (p * p)) by (nonlinear_arith)
        requires bz == az * p;
    assert(w * p * p == ax * ax * (p * p) + az * az * (p * p)) by (nonlinear_arith)
        requires ax * ax + az * az == w;
    assert((nx * nx + nz * nz) * (l * l) == nx * nx * (l * l) + nz * nz * (l * l))
        by (nonlinear_arith);
    assert(0 <= nx * l && 0 <= nz * l) by (nonlinear_arith)
        requires nx >= 0, nz >= 0, l >= 0;
    assert(w * p * p < p * ((l + 1) * (l + 1))) by (nonlinear_arith)
        requires m == w * p, m < (l + 1) * (l + 1), p > 0;
    assert(p * ((l + 1) * (l + 1)) <= (ONE + 1) * (ONE + 1) * (l * l)) by (nonlinear_arith)
        requires p == ONE * ONE, l >= ONE, ONE > 0;
    assert(n.0 * n.0 + n.1 * n.1 < (ONE + 1) * (ONE + 1)) by (nonlinear_arith)
        requires (nx * nx + nz * nz) * (l * l) < (ONE + 1) * (ONE + 1) * (l * l), l >= 1,
            nx == abs(n.0), nz == abs(n.1);
    let tx = (nx + 1) * l;
    let tz = (nz + 1) * l;
    assert(0 <= bx && 0 <= bz) by (nonlinear_arith)
        requires ax >= 0, az >= 0, p >= 0, bx == ax * p, bz == az * p;
    lemma_square_lt(bx, tx);
    lemma_square_lt(bz, tz);
    assert(tx * tx == (nx + 1) * (nx + 1) * (l * l)) by (nonlinear_arith)
        requires tx == (nx + 1) * l;
    assert(tz * tz == (nz + 1) * (nz + 1) * (l * l)) by (nonlinear_arith)
        requires tz == (nz + 1) * l;
    assert(((nx + 1) * (nx + 1) + (nz + 1) * (nz + 1)) * (l * l) == (nx + 1) * (nx + 1) * (l
        * l) + (nz + 1) * (nz + 1) * (l * l)) by (nonlinear_arith);
    assert(w * p * p >= p * (l * l)) by (nonlinear_arith)
        requires m == w * p, l * l <= m, p > 0;
    assert((nx + 1) * (nx + 1) + (nz + 1) * (nz + 1) > p) by (nonlinear_arith)
        requires ((nx + 1) * (nx + 1) + (nz + 1) * (nz + 1)) * (l * l) > p * (l * l), l >= 1;
}

proof fn lemma_square_le(a: int, b: int)
    requires
        0 <= a <= b,
    ensures
        a * a <= b * b,
{
    assert(a * a <= b * b) by (nonlinear_arith)
        requires 0 <= a <= b;
}

proof fn lemma_square_lt(a: int, b: int)
    requires
        0 <= a < b,
    ensures
        a * a < b * b,
{
    assert(a * a < b * b) by (nonlinear_arith)
        requires 0 <= a < b;
}

/// The absolute value of `v`.
pub open spec fn abs(v: int) -> int {
    if v < 0 {
        -v
    } else {
        v
    }
}

/// Division rounding toward zero by `l >= 1` leaves a result whose size `q`
/// satisfies `q * l <= |a| < (q + 1) * l`.
proof fn lemma_trunc_bounds(a: int, l: int)
    requires
        l >= 1,
    ensures
        abs(div_tz(a, l)) * l <= abs(a),
        abs(a) < (abs(div_tz(a, l)) + 1) * l,
{
    let b = abs(a);
    assert((b / l) * l <= b && b < (b / l + 1) * l && b / l >= 0) by (nonlinear_arith)
        requires b >= 0, l >= 1;
    if a < 0 {
        assert(abs(div_tz(a, l)) == b / l);
    }
}

/// The speed of a move does not depend on the heading's length: whenever
/// the held direction, turned by the heading, is not zero, the step moves
/// along that direction brought to length `ONE` (up to rounding, as
/// `lemma_unit_length` states), scaled by `speed / tick_rate` and rounded
/// toward zero on each axis.
pub proof fn lemma_step_speed(t: Transform, i: InputIntent, p: MoveParams)
    requires
        p.wf(),
    ensures
        ({
            let c = clamp_unit(t.cos as int);
            let s = clamp_unit(t.sin as int);
            let l = local_dir(i);
            let w = rotate(c, s, l.0, l.1);
            let n = unit_of(w.0, w.1);
            let r = step_spec(t, i, p);
            let den = p.tick_rate * ONE;
            &&& r.x == clamp_pos(clamp_pos(t.x as int) + displacement(n.0, p))
            &&& r.z == clamp_pos(clamp_pos(t.z as int) + displacement(n.1, p))
            &&& abs(displacement(n.0, p)) * den <= abs(n.0) * p.speed
            &&& abs(n.0) * p.speed < (abs(displacement(n.0, p)) + 1) * den
            &&& abs(displacement(n.1, p)) * den <= abs(n.1) * p.speed
            &&& abs(n.1) * p.speed < (abs(displacement(n.1, p)) + 1) * den
            &&& (w.0 != 0 || w.1 != 0) ==> {
                &&& n.0 * n.0 + n.1 * n.1 < (ONE + 1) * (ONE + 1)
                &&& (abs(n.0) + 1) * (abs(n.0) + 1) + (abs(n.1) + 1) * (abs(n.1)
                    + 1) > ONE * ONE
            }
        }),
{
    reveal(step_spec);
    let c = clamp_unit(t.cos as int);
    let s = clamp_unit(t.sin as int);
    let l = local_dir(i);
    let w = rotate(c, s, l.0, l.1);
    let n = unit_of(w.0, w.1);
    let den = p.tick_rate * ONE;
    assert(den >= 1) by (nonlinear_arith)
        requires den == p.tick_rate * ONE, p.tick_rate >= 1;
    lemma_trunc_bounds(n.0 * p.speed, den);
    lemma_trunc_bounds(n.1 * p.speed, den);
    assert(abs(n.0 * p.speed) == abs(n.0) * p.speed) by (nonlinear_arith)
        requires p.speed >= 0;
    assert(abs(n.1 * p.speed) == abs(n.1) * p.speed) by (nonlinear_arith)
        requires p.speed >= 0;
    if w.0 != 0 || w.1 != 0 {
        lemma_unit_length(w.0, w.1);
    }
}

} // verus!
