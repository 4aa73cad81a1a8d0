//! The piecewise-linear response curve: an ordered table of
//! (temperature, fan-speed) breakpoints and the interpolation algorithm
//! that maps a sampled temperature to a duty cycle.
//!
//! All values are fixed-point milli-units (see `SCALE` in the crate root):
//! a temperature of 50 °C is stored as 50_000, a fan speed of 30 % as
//! 30_000. Interpolation quotients round toward minus infinity, so a
//! result is exact whenever the division is exact — in particular at
//! every breakpoint.

use vstd::prelude::*;
use vstd::arithmetic::div_mod::lemma_div_of0;
use vstd::arithmetic::div_mod::lemma_div_is_ordered;
use vstd::arithmetic::div_mod::lemma_div_multiples_vanish;
use vstd::arithmetic::div_mod::lemma_fundamental_div_mod;
use vstd::arithmetic::div_mod::lemma_fundamental_div_mod_converse_div;
use crate::STEP_LIMIT;

verus! {

/// A configured breakpoint value must stay within this symmetric range so
/// that every intermediate product of curve evaluation fits in an `i64`.
pub open spec fn step_in_range(v: i64) -> bool {
    -STEP_LIMIT <= v <= STEP_LIMIT
}

/// Well-formedness of a pair of breakpoint tables: equal length, at least
/// one breakpoint, temperatures strictly increasing, and every value in
/// the representable range.
pub open spec fn curve_wf(ts: Seq<i64>, fs: Seq<i64>) -> bool {
    &&& ts.len() == fs.len()
    &&& ts.len() >= 1
    &&& forall|i: int, j: int| 0 <= i < j < ts.len() ==> ts[i] < ts[j]
    &&& forall|i: int| 0 <= i < ts.len() ==> step_in_range(#[trigger] ts[i])
    &&& forall|i: int| 0 <= i < fs.len() ==> step_in_range(#[trigger] fs[i])
}

/// Value of the linear segment from `(t0, f0)` to `(t1, f1)` at
/// temperature `t`: the interpolation formula, with the quotient rounded
/// toward minus infinity.
pub open spec fn segment_value(t0: int, f0: int, t1: int, f1: int, t: int) -> int {
    f0 + (f1 - f0) * (t - t0) / (t1 - t0)
}

/// Duty cycle commanded by the breakpoint scan starting at segment `i`:
/// the first segment `[ts[i], ts[i+1])` that contains `t` decides; if none
/// does, the curve saturates at the last fan speed.
pub open spec fn duty_from(ts: Seq<i64>, fs: Seq<i64>, i: int, t: i64) -> int
    decreases ts.len() - i,
{
    if i < 0 || i + 1 >= ts.len() {
        fs[ts.len() - 1] as int
    } else if ts[i] <= t < ts[i + 1] {
        segment_value(ts[i] as int, fs[i] as int, ts[i + 1] as int, fs[i + 1] as int, t as int)
    } else {
        duty_from(ts, fs, i + 1, t)
    }
}

/// The duty cycle a well-formed curve commands at temperature `t`:
/// zero below the first breakpoint, otherwise the breakpoint scan.
pub open spec fn duty_value(ts: Seq<i64>, fs: Seq<i64>, t: i64) -> int {
    if t < ts[0] {
        0
    } else {
        duty_from(ts, fs, 0, t)
    }
}

/// Division rounding toward minus infinity, which is what `/` means on
/// `int` when the divisor is positive. The bound on `n` keeps the
/// adjustment step away from `i64` overflow.
fn floor_div(n: i64, d: i64) -> (q: i64)
    requires
        0 < d,
        -0x4000_0000_0000_0000 <= n <= 0x4000_0000_0000_0000,
    ensures
        q == n as int / d as int,
{
    let q0 = n / d;
    let r0 = n % d;
    if r0 != 0 && n < 0 {
        proof {
            let m = -(n as int);
            lemma_fundamental_div_mod(m, d as int);
            let qm = m / (d as int);
            let rm = m % (d as int);
            assert((-qm - 1) * (d as int) + ((d as int) - rm) == -((d as int) * qm + rm))
                by (nonlinear_arith);
            lemma_fundamental_div_mod_converse_div(
                n as int,
                d as int,
                -qm - 1,
                d - rm,
            );
        }
        q0 - 1
    } else {
        proof {
            if n < 0 {
                let m = -(n as int);
                lemma_fundamental_div_mod(m, d as int);
                let qm = m / (d as int);
                assert((-qm) * (d as int) + 0 == -((d as int) * qm + 0)) by (nonlinear_arith);
                lemma_fundamental_div_mod_converse_div(n as int, d as int, -qm, 0);
            }
        }
        q0
    }
}

/// For `0 <= x < dt`, the rounded quotient `df * x / dt` lies between
/// `0` and `df`, whichever way round.
proof fn lemma_quotient_bounds(df: int, x: int, dt: int)
    requires
        0 < dt,
        0 <= x < dt,
    ensures
        df >= 0 ==> 0 <= df * x / dt <= df,
        df < 0 ==> df <= df * x / dt <= 0,
{
    lemma_div_of0(dt);
    if df >= 0 {
        assert(0 <= df * x <= df * dt) by (nonlinear_arith)
            requires
                0 < dt,
                0 <= x < dt,
                df >= 0;
        lemma_div_is_ordered(0, df * x, dt);
        lemma_div_is_ordered(df * x, df * dt, dt);
        lemma_div_multiples_vanish(df, dt);
    } else {
        assert(df * dt <= df * x <= 0) by (nonlinear_arith)
            requires
                0 < dt,
                0 <= x < dt,
                df < 0;
        lemma_div_is_ordered(df * x, 0, dt);
        lemma_div_is_ordered(df * dt, df * x, dt);
        lemma_div_multiples_vanish(df, dt);
    }
}

/// Why a pair of breakpoint tables was rejected.
#[derive(Clone, Copy, Debug, PartialEq, Eq, Structural)]
pub enum CurveError {
    /// The two tables differ in length.
    UnequalLengths,
    /// The tables are empty.
    Empty,
    /// A value lies outside the representable range.
    StepOutOfRange,
    /// The temperature table is not strictly increasing.
    NotIncreasing,
}

/// An immutable, validated response curve.
pub struct ResponseCurve {
    temperature_steps: Vec<i64>,
    fan_speed_steps: Vec<i64>,
}

impl ResponseCurve {
    /// The temperature breakpoints, in milli-degrees Celsius.
    pub closed spec fn temps(&self) -> Seq<i64> {
        self.temperature_steps@
    }

    /// The fan-speed breakpoints, in milli-percent.
    pub closed spec fn speeds(&self) -> Seq<i64> {
        self.fan_speed_steps@
    }

    pub open spec fn wf(&self) -> bool {
        curve_wf(self.temps(), self.speeds())
    }

    /// The duty cycle this curve commands at temperature `t`.
    pub open spec fn duty_at(&self, t: i64) -> int {
        duty_value(self.temps(), self.speeds(), t)
    }

    /// Validates a pair of breakpoint tables and builds the curve.
    /// Succeeds exactly on well-formed input; each error names the first
    /// violated rule, checked in the order length, emptiness, range,
    /// monotonicity.
    pub fn new(temperature_steps: Vec<i64>, fan_speed_steps: Vec<i64>) -> (r: Result<
        ResponseCurve,
        CurveError,
    >)
        ensures
            match r {
                Ok(c) => {
                    &&& c.temps() == temperature_steps@
                    &&& c.speeds() == fan_speed_steps@
                    &&& c.wf()
                },
                Err(CurveError::UnequalLengths) => temperature_steps@.len()
                    != fan_speed_steps@.len(),
                Err(CurveError::Empty) => temperature_steps@.len() == fan_speed_steps@.len()
                    && temperature_steps@.len() == 0,
                Err(CurveError::StepOutOfRange) => {
                    &&& temperature_steps@.len() == fan_speed_steps@.len()
                    &&& temperature_steps@.len() >= 1
                    &&& exists|i: int|
                        0 <= i < temperature_steps@.len() && (!step_in_range(
                            #[trigger] temperature_steps@[i],
                        ) || !step_in_range(fan_speed_steps@[i]))
                },
                Err(CurveError::NotIncreasing) => {
                    &&& temperature_steps@.len() == fan_speed_steps@.len()
                    &&& temperature_steps@.len() >= 1
                    &&& exists|i: int|
                        0 <= i < temperature_steps@.len() - 1 && #[trigger] temperature_steps@[i]
                            >= temperature_steps@[i + 1]
                },
            },
            curve_wf(temperature_steps@, fan_speed_steps@) ==> r is Ok,
    {
        let n = temperature_steps.len();
        if n != fan_speed_steps.len() {
            return Err(CurveError::UnequalLengths);
        }
        if n == 0 {
            return Err(CurveError::Empty);
        }
        for i in 0..n
            invariant
                n == temperature_steps@.len(),
                n == fan_speed_steps@.len(),
                forall|j: int| 0 <= j < i ==> step_in_range(#[trigger] temperature_steps@[j]),
                forall|j: int| 0 <= j < i ==> step_in_range(#[trigger] fan_speed_steps@[j]),
        {
            let t = temperature_steps[i];
            let f = fan_speed_steps[i];
            if t < -STEP_LIMIT || t > STEP_LIMIT || f < -STEP_LIMIT || f > STEP_LIMIT {
                return Err(CurveError::StepOutOfRange);
            }
        }
        for i in 0..n - 1
            invariant
                n == temperature_steps@.len(),
                n == fan_speed_steps@.len(),
                n >= 1,
                forall|j: int|
                    0 <= j < i ==> #[trigger] temperature_steps@[j] < temperature_steps@[j + 1],
        {
            if temperature_steps[i] >= temperature_steps[i + 1] {
                return Err(CurveError::NotIncreasing);
            }
        }
        proof {
            lemma_adjacent_increasing_sorted(temperature_steps@);
        }
        Ok(ResponseCurve { temperature_steps, fan_speed_steps })
    }

    /// Maps a sampled temperature (milli-degrees Celsius) to the duty
    /// cycle (milli-percent) this curve commands: zero below the first
    /// breakpoint, linear interpolation inside the first segment that
    /// contains the temperature, the last fan speed at or beyond the
    /// last breakpoint.
    pub fn evaluate(&self, temperature: i64) -> (duty: i64)
        requires
            self.wf(),
        ensures
            duty == self.duty_at(temperature),
    {
        let n = self.temperature_steps.len();
        if temperature < self.temperature_steps[0] {
            return 0;
        }
        let mut i: usize = 0;
        while i + 1 < n
            invariant
                self.wf(),
                n == self.temps().len(),
                0 <= i < n,
                self.temps()[i as int] <= temperature,
                duty_from(self.temps(), self.speeds(), 0, temperature) == duty_from(
                    self.temps(),
                    self.speeds(),
                    i as int,
                    temperature,
                ),
            decreases n - i,
        {
            if temperature < self.temperature_steps[i + 1] {
                let t0 = self.temperature_steps[i];
                let t1 = self.temperature_steps[i + 1];
                let f0 = self.fan_speed_steps[i];
                let f1 = self.fan_speed_steps[i + 1];
                let dt = t1 - t0;
                let df = f1 - f0;
                let x = temperature - t0;
                assert(-0x4000_0000_0000_0000 <= (df as int) * (x as int)
                    <= 0x4000_0000_0000_0000) by (nonlinear_arith)
                    requires
                        -2 * STEP_LIMIT <= df <= 2 * STEP_LIMIT,
                        0 <= x <= 2 * STEP_LIMIT,
                        STEP_LIMIT == 1_000_000_000;
                let num = df * x;
                let q = floor_div(num, dt);
                proof {
                    lemma_quotient_bounds(df as int, x as int, dt as int);
                }
                return f0 + q;
            }
            i = i + 1;
        }
        self.fan_speed_steps[n - 1]
    }
}

/// Every temperature below the first breakpoint commands a duty cycle of
/// zero.
pub proof fn lemma_below_range_clamp(ts: Seq<i64>, fs: Seq<i64>, t: i64)
    requires
        curve_wf(ts, fs),
        t < ts[0],
    ensures
        duty_value(ts, fs, t) == 0,
{
}

/// The scan starting at `k` saturates at the last fan speed once the
/// temperature is at or beyond the last breakpoint.
proof fn lemma_duty_from_high(ts: Seq<i64>, fs: Seq<i64>, k: int, t: i64)
    requires
        curve_wf(ts, fs),
        0 <= k < ts.len(),
        t >= ts[ts.len() - 1],
    ensures
        duty_from(ts, fs, k, t) == fs[ts.len() - 1] as int,
    decreases ts.len() - k,
{
    if k + 1 < ts.len() {
        assert(ts[k + 1] <= ts[ts.len() - 1]);
        lemma_duty_from_high(ts, fs, k + 1, t);
    }
}

/// Every temperature at or beyond the last breakpoint commands the last
/// configured fan speed.
pub proof fn lemma_saturation(ts: Seq<i64>, fs: Seq<i64>, t: i64)
    requires
        curve_wf(ts, fs),
        t >= ts[ts.len() - 1],
    ensures
        duty_value(ts, fs, t) == fs[ts.len() - 1] as int,
{
    assert(ts[0] <= ts[ts.len() - 1]);
    lemma_duty_from_high(ts, fs, 0, t);
}

/// The scan starting at `k` lands in segment `i` when segment `i`
/// contains the temperature and the scan has already passed `ts[k]`.
proof fn lemma_duty_from_finds(ts: Seq<i64>, fs: Seq<i64>, k: int, i: int, t: i64)
    requires
        curve_wf(ts, fs),
        0 <= k <= i,
        i + 1 < ts.len(),
        ts[i] <= t < ts[i + 1],
        ts[k] <= t,
    ensures
        duty_from(ts, fs, k, t) == segment_value(
            ts[i] as int,
            fs[i] as int,
            ts[i + 1] as int,
            fs[i + 1] as int,
            t as int,
        ),
    decreases i - k,
{
    if k < i {
        assert(ts[k + 1] <= ts[i]);
        lemma_duty_from_finds(ts, fs, k + 1, i, t);
    }
}

/// Inside a segment, the duty cycle is the affine interpolation between
/// the segment's two endpoints (with the quotient rounded toward minus
/// infinity, so exact whenever the division is exact).
pub proof fn lemma_segment_linearity(ts: Seq<i64>, fs: Seq<i64>, i: int, t: i64)
    requires
        curve_wf(ts, fs),
        0 <= i < ts.len() - 1,
        ts[i] <= t < ts[i + 1],
    ensures
        duty_value(ts, fs, t) == fs[i] + (fs[i + 1] - fs[i]) * (t - ts[i]) / (ts[i + 1] - ts[i]),
{
    if i > 0 {
        assert(ts[0] <= ts[i]);
    }
    lemma_duty_from_finds(ts, fs, 0, i, t);
}

/// Where the interpolation divides evenly, the duty cycle satisfies the
/// affine identity of the segment exactly:
/// `(duty - f0) * (t1 - t0) == (f1 - f0) * (t - t0)`.
pub proof fn lemma_segment_affine_when_exact(ts: Seq<i64>, fs: Seq<i64>, i: int, t: i64)
    requires
        curve_wf(ts, fs),
        0 <= i < ts.len() - 1,
        ts[i] <= t < ts[i + 1],
        (fs[i + 1] - fs[i]) * (t - ts[i]) % (ts[i + 1] - ts[i]) == 0,
    ensures
        (duty_value(ts, fs, t) - fs[i]) * (ts[i + 1] - ts[i]) == (fs[i + 1] - fs[i]) * (t
            - ts[i]),
{
    lemma_segment_linearity(ts, fs, i, t);
    let n = (fs[i + 1] - fs[i]) * (t - ts[i]);
    let d = ts[i + 1] - ts[i];
    lemma_fundamental_div_mod(n, d);
    assert(d * (n / d) == (n / d) * d) by (nonlinear_arith);
}

/// At every breakpoint the curve reproduces the configured fan speed
/// exactly.
pub proof fn lemma_breakpoint_exact(ts: Seq<i64>, fs: Seq<i64>, i: int)
    requires
        curve_wf(ts, fs),
        0 <= i < ts.len(),
    ensures
        duty_value(ts, fs, ts[i]) == fs[i] as int,
{
    let t = ts[i];
    if i == ts.len() - 1 {
        lemma_saturation(ts, fs, t);
    } else {
        lemma_segment_linearity(ts, fs, i, t);
        lemma_div_of0(ts[i + 1] - ts[i]);
        assert((fs[i + 1] - fs[i]) * (t - ts[i]) == 0);
    }
}

/// A curve with a single breakpoint `(T, F)` commands zero below `T` and
/// `F` at or above `T`.
pub proof fn lemma_single_breakpoint(ts: Seq<i64>, fs: Seq<i64>, t: i64)
    requires
        curve_wf(ts, fs),
        ts.len() == 1,
    ensures
        t < ts[0] ==> duty_value(ts, fs, t) == 0,
        t >= ts[0] ==> duty_value(ts, fs, t) == fs[0] as int,
{
    if t >= ts[0] {
        lemma_saturation(ts, fs, t);
    }
}

/// A sequence whose adjacent elements increase is increasing between any
/// two positions.
proof fn lemma_chain_increasing(ts: Seq<i64>, i: int, j: int)
    requires
        forall|k: int| 0 <= k < ts.len() - 1 ==> #[trigger] ts[k] < ts[k + 1],
        0 <= i < j < ts.len(),
    ensures
        ts[i] < ts[j],
    decreases j - i,
{
    if i + 1 < j {
        lemma_chain_increasing(ts, i, j - 1);
    }
}

proof fn lemma_adjacent_increasing_sorted(ts: Seq<i64>)
    requires
        forall|k: int| 0 <= k < ts.len() - 1 ==> #[trigger] ts[k] < ts[k + 1],
    ensures
        forall|i: int, j: int| 0 <= i < j < ts.len() ==> ts[i] < ts[j],
{
    assert forall|i: int, j: int| 0 <= i < j < ts.len() implies ts[i] < ts[j] by {
        lemma_chain_increasing(ts, i, j);
    }
}

} // verus!
