//! The Relative Strength Index with Wilder smoothing, on fixed-point prices.
//!
//! The first `period` price-to-price deltas (or all of them, where the
//! series is shorter) seed the average gain and loss as a simple mean; each
//! later delta updates them as `avg = (avg * (period - 1) + current) / period`.
//! The averages carry nine more fraction digits than the prices and are
//! rounded up at each step, so an average is zero exactly when the unrounded
//! one is. The index is `100 * avg_gain / (avg_gain + avg_loss)`: 100 points
//! where the average loss is zero, and the neutral 50 where both are zero.
//! It is reported in hundredths, rounded down; comparisons with a threshold
//! are made on the averages themselves.

use vstd::prelude::*;
use vstd::arithmetic::div_mod::{
    lemma_div_pos_is_pos, lemma_fundamental_div_mod, lemma_fundamental_div_mod_converse,
    lemma_mod_pos_bound,
};

verus! {

/// The largest index value: 100 points, in hundredths.
pub const RSI_MAX: u64 = 10000;

/// The index of a series whose prices never moved: 50 points, in hundredths.
pub const RSI_NEUTRAL: u64 = 5000;

/// The smoothing period used when none is given.
pub const DEFAULT_PERIOD: usize = 14;

/// Averages are kept in units of a billionth of a price unit.
pub const AVG_SCALE: u128 = 1_000_000_000;

/// The largest average: the largest price, in units of the averages.
pub const AVG_MAX: u128 = 18_446_744_073_709_551_615_000_000_000;

/// The gain of the delta from `s[i]` to `s[i + 1]`: its size if prices rose, else 0.
pub open spec fn gain(s: Seq<u64>, i: int) -> nat {
    if s[i + 1] > s[i] {
        (s[i + 1] - s[i]) as nat
    } else {
        0
    }
}

/// The loss of the delta from `s[i]` to `s[i + 1]`: its size if prices fell, else 0.
pub open spec fn loss(s: Seq<u64>, i: int) -> nat {
    if s[i + 1] < s[i] {
        (s[i] - s[i + 1]) as nat
    } else {
        0
    }
}

/// The sum of the gains of the first `k` deltas.
pub open spec fn gain_sum(s: Seq<u64>, k: nat) -> nat
    decreases k,
{
    if k == 0 {
        0
    } else {
        gain_sum(s, (k - 1) as nat) + gain(s, k - 1)
    }
}

/// The sum of the losses of the first `k` deltas.
pub open spec fn loss_sum(s: Seq<u64>, k: nat) -> nat
    decreases k,
{
    if k == 0 {
        0
    } else {
        loss_sum(s, (k - 1) as nat) + loss(s, k - 1)
    }
}

/// How many deltas seed the averages: `period`, or all of them where there are fewer.
pub open spec fn seed_len(s: Seq<u64>, period: nat) -> nat {
    if s.len() == 0 {
        0
    } else if period <= s.len() - 1 {
        period
    } else {
        (s.len() - 1) as nat
    }
}

/// `x / d`, rounded up; 0 when `d` is 0.
pub open spec fn ceil_div(x: nat, d: nat) -> nat {
    if d == 0 {
        0
    } else {
        ((x + d - 1) as nat) / d
    }
}

/// One step of Wilder smoothing, with `current` in price units and the
/// averages in units of `AVG_SCALE`.
pub open spec fn smooth(prev: nat, current: nat, period: nat) -> nat {
    ceil_div(prev * ((period - 1) as nat) + current * (AVG_SCALE as nat), period)
}

/// The average gain once the first `j` deltas have been consumed.
pub open spec fn avg_gain(s: Seq<u64>, period: nat, j: nat) -> nat
    decreases j,
{
    if j <= seed_len(s, period) {
        ceil_div(gain_sum(s, seed_len(s, period)) * (AVG_SCALE as nat), seed_len(s, period))
    } else {
        smooth(avg_gain(s, period, (j - 1) as nat), gain(s, j - 1), period)
    }
}

/// The average loss once the first `j` deltas have been consumed.
pub open spec fn avg_loss(s: Seq<u64>, period: nat, j: nat) -> nat
    decreases j,
{
    if j <= seed_len(s, period) {
        ceil_div(loss_sum(s, seed_len(s, period)) * (AVG_SCALE as nat), seed_len(s, period))
    } else {
        smooth(avg_loss(s, period, (j - 1) as nat), loss(s, j - 1), period)
    }
}

/// The index, in hundredths rounded down, for the given average gain and loss.
pub open spec fn rsi_from(g: nat, l: nat) -> nat {
    if g + l == 0 {
        RSI_NEUTRAL as nat
    } else {
        ((RSI_MAX as nat) * g) / (g + l)
    }
}

/// The index for the given averages lies strictly below `low` hundredths.
pub open spec fn below(g: nat, l: nat, low: nat) -> bool {
    if g + l == 0 {
        RSI_NEUTRAL < low
    } else {
        (RSI_MAX as nat) * g < low * (g + l)
    }
}

/// The index for the given averages lies strictly above `high` hundredths.
pub open spec fn above(g: nat, l: nat, high: nat) -> bool {
    if g + l == 0 {
        RSI_NEUTRAL > high
    } else {
        (RSI_MAX as nat) * g > high * (g + l)
    }
}

/// The index at the last point of `s`, or `None` where `s` has fewer than `period` points.
pub open spec fn rsi_of(s: Seq<u64>, period: nat) -> Option<nat> {
    if s.len() < period || s.len() == 0 {
        None
    } else {
        let n = (s.len() - 1) as nat;
        Some(rsi_from(avg_gain(s, period, n), avg_loss(s, period, n)))
    }
}

/// Some delta of `s` is a rise.
pub open spec fn has_gain(s: Seq<u64>) -> bool {
    exists|i: int| 0 <= i < s.len() - 1 && s[i] < #[trigger] s[i + 1]
}

/// Some delta of `s` is a fall.
pub open spec fn has_loss(s: Seq<u64>) -> bool {
    exists|i: int| 0 <= i < s.len() - 1 && s[i] > #[trigger] s[i + 1]
}

/// Prices never fall from one point to the next.
pub open spec fn non_decreasing(s: Seq<u64>) -> bool {
    forall|i: int| 0 <= i < s.len() - 1 ==> s[i] <= #[trigger] s[i + 1]
}

/// Prices never rise from one point to the next.
pub open spec fn non_increasing(s: Seq<u64>) -> bool {
    forall|i: int| 0 <= i < s.len() - 1 ==> s[i] >= #[trigger] s[i + 1]
}

/// The averages at the last point of a series, kept for display and for
/// exact comparison with thresholds.
#[derive(Clone, Copy, Debug, PartialEq, Eq, Structural)]
pub struct RsiReading {
    /// The average gain, in units of `AVG_SCALE`.
    pub avg_gain: u128,
    /// The average loss, in units of `AVG_SCALE`.
    pub avg_loss: u128,
}

impl RsiReading {
    /// Both averages lie within the range that a series of `u64` prices gives.
    pub open spec fn wf(self) -> bool {
        self.avg_gain <= AVG_MAX && self.avg_loss <= AVG_MAX
    }

    /// Tells whether both averages lie within range.
    pub fn is_well_formed(&self) -> (b: bool)
        ensures
            b == self.wf(),
    {
        self.avg_gain <= AVG_MAX && self.avg_loss <= AVG_MAX
    }

    /// The index in hundredths, rounded down.
    pub fn hundredths(&self) -> (r: u64)
        requires
            self.wf(),
        ensures
            r == rsi_from(self.avg_gain as nat, self.avg_loss as nat),
            r <= RSI_MAX,
    {
        proof {
            lemma_rsi_from_bounded(self.avg_gain as nat, self.avg_loss as nat);
        }
        let g = self.avg_gain;
        let l = self.avg_loss;
        if g + l == 0 {
            RSI_NEUTRAL
        } else {
            ((RSI_MAX as u128 * g) / (g + l)) as u64
        }
    }

    /// Tells whether the index lies strictly below `low` hundredths.
    pub fn is_below(&self, low: u64) -> (b: bool)
        requires
            self.wf(),
        ensures
            b == below(self.avg_gain as nat, self.avg_loss as nat, low as nat),
    {
        let g = self.avg_gain;
        let l = self.avg_loss;
        if g + l == 0 {
            RSI_NEUTRAL < low
        } else if low > RSI_MAX {
            proof {
                let (gn, t, lw) = (g as nat, (g + l) as nat, low as nat);
                assert((RSI_MAX as nat) * gn < lw * t) by (nonlinear_arith)
                    requires
                        gn <= t,
                        t > 0,
                        lw > RSI_MAX,
                ;
            }
            true
        } else {
            proof {
                assert((RSI_MAX as nat) * (g as nat) <= (RSI_MAX as nat) * (AVG_MAX as nat))
                    by (nonlinear_arith)
                    requires
                        g <= AVG_MAX,
                ;
                assert((low as nat) * ((g + l) as nat) <= (RSI_MAX as nat) * (2 * AVG_MAX as nat))
                    by (nonlinear_arith)
                    requires
                        low <= RSI_MAX,
                        g + l <= 2 * AVG_MAX,
                ;
            }
            (RSI_MAX as u128) * g < (low as u128) * (g + l)
        }
    }

    /// Tells whether the index lies strictly above `high` hundredths.
    pub fn is_above(&self, high: u64) -> (b: bool)
        requires
            self.wf(),
        ensures
            b == above(self.avg_gain as nat, self.avg_loss as nat, high as nat),
    {
        let g = self.avg_gain;
        let l = self.avg_loss;
        if g + l == 0 {
            RSI_NEUTRAL > high
        } else if high >= RSI_MAX {
            proof {
                let (gn, t, h) = (g as nat, (g + l) as nat, high as nat);
                assert(!((RSI_MAX as nat) * gn > h * t)) by (nonlinear_arith)
                    requires
                        gn <= t,
                        h >= RSI_MAX,
                ;
            }
            false
        } else {
            proof {
                assert((RSI_MAX as nat) * (g as nat) <= (RSI_MAX as nat) * (AVG_MAX as nat))
                    by (nonlinear_arith)
                    requires
                        g <= AVG_MAX,
                ;
                assert((high as nat) * ((g + l) as nat) <= (RSI_MAX as nat) * (2 * AVG_MAX as nat))
                    by (nonlinear_arith)
                    requires
                        high <= RSI_MAX,
                        g + l <= 2 * AVG_MAX,
                ;
            }
            (RSI_MAX as u128) * g > (high as u128) * (g + l)
        }
    }
}

proof fn lemma_div_parts(x: int, d: int)
    requires
        x >= 0,
        d > 0,
    ensures
        x == d * (x / d) + x % d,
        0 <= x % d < d,
        x / d >= 0,
{
    lemma_fundamental_div_mod(x, d);
    lemma_mod_pos_bound(x, d);
    lemma_div_pos_is_pos(x, d);
}

proof fn lemma_ceil_div_pos(x: nat, d: nat)
    requires
        d > 0,
    ensures
        (ceil_div(x, d) > 0) == (x > 0),
{
    let y = x + d - 1;
    lemma_div_parts(y, d as int);
    let q = y / (d as int);
    let r = y % (d as int);
    if x == 0 {
        lemma_fundamental_div_mod_converse(y, d as int, 0, y);
    } else {
        assert(q > 0) by (nonlinear_arith)
            requires
                y == d * q + r,
                r < d,
                x > 0,
                y == x + d - 1,
                q >= 0,
        ;
    }
}

proof fn lemma_ceil_div_le(x: nat, d: nat, m: nat)
    requires
        d > 0,
        x <= d * m,
    ensures
        ceil_div(x, d) <= m,
{
    let y = x + d - 1;
    lemma_div_parts(y, d as int);
    let q = y / (d as int);
    let r = y % (d as int);
    assert(q <= m) by (nonlinear_arith)
        requires
            y == d * q + r,
            0 <= r,
            y == x + d - 1,
            x <= d * m,
            d > 0,
    ;
}

/// The seed mean, computed without forming `sum * AVG_SCALE`.
proof fn lemma_seed_split(sum: nat, k: nat)
    requires
        k > 0,
    ensures
        ceil_div(sum * (AVG_SCALE as nat), k) == (sum / k) * (AVG_SCALE as nat) + ceil_div(
            (sum % k) * (AVG_SCALE as nat),
            k,
        ),
{
    let sc = AVG_SCALE as int;
    lemma_div_parts(sum as int, k as int);
    let q = sum / k;
    let r = sum % k;
    let x = r * sc + k - 1;
    lemma_div_parts(x, k as int);
    let q2 = x / (k as int);
    let r2 = x % (k as int);
    assert(sum * sc + k - 1 == (q * sc + q2) * k + r2) by (nonlinear_arith)
        requires
            sum == k * q + r,
            x == k * q2 + r2,
            x == r * sc + k - 1,
    ;
    lemma_fundamental_div_mod_converse(sum * sc + k - 1, k as int, q * sc + q2, r2);
}

/// A smoothing step, computed without forming `prev * (period - 1)`.
proof fn lemma_smooth_split(prev: nat, cur: nat, period: nat)
    requires
        period >= 1,
    ensures
        cur >= prev ==> ceil_div(prev * ((period - 1) as nat) + cur, period) == prev + ceil_div(
            (cur - prev) as nat,
            period,
        ),
        cur < prev ==> ceil_div(prev * ((period - 1) as nat) + cur, period) == prev - ((prev
            - cur) as nat) / period,
        cur < prev ==> ((prev - cur) as nat) / period <= prev,
{
    let p = period as int;
    let total = prev * (p - 1) + cur + p - 1;
    if cur >= prev {
        let x = cur - prev + p - 1;
        lemma_div_parts(x, p);
        let q = x / p;
        let r = x % p;
        assert(total == (prev + q) * p + r) by (nonlinear_arith)
            requires
                x == p * q + r,
                x == cur - prev + p - 1,
                total == prev * (p - 1) + cur + p - 1,
        ;
        lemma_fundamental_div_mod_converse(total, p, prev + q, r);
    } else {
        let d = prev - cur;
        lemma_div_parts(d, p);
        let q = d / p;
        let r = d % p;
        assert(q <= d) by (nonlinear_arith)
            requires
                d == p * q + r,
                r >= 0,
                q >= 0,
                p >= 1,
        ;
        assert(total == (prev - q) * p + (p - 1 - r)) by (nonlinear_arith)
            requires
                d == p * q + r,
                d == prev - cur,
                total == prev * (p - 1) + cur + p - 1,
        ;
        lemma_fundamental_div_mod_converse(total, p, prev - q, p - 1 - r);
    }
}

proof fn lemma_sums_bounded(s: Seq<u64>, k: nat)
    requires
        k < s.len(),
    ensures
        gain_sum(s, k) <= k * (u64::MAX as nat),
        loss_sum(s, k) <= k * (u64::MAX as nat),
    decreases k,
{
    if k > 0 {
        lemma_sums_bounded(s, (k - 1) as nat);
        assert((k - 1) * (u64::MAX as nat) + (u64::MAX as nat) == k * (u64::MAX as nat))
            by (nonlinear_arith);
    }
}

proof fn lemma_seed_bounded(sum: nat, k: nat)
    requires
        sum <= k * (u64::MAX as nat),
    ensures
        ceil_div(sum * (AVG_SCALE as nat), k) <= AVG_MAX,
{
    if k > 0 {
        assert(sum * (AVG_SCALE as nat) <= k * (AVG_MAX as nat)) by (nonlinear_arith)
            requires
                sum <= k * (u64::MAX as nat),
        ;
        lemma_ceil_div_le(sum * (AVG_SCALE as nat), k, AVG_MAX as nat);
    }
}

proof fn lemma_smooth_bounded(prev: nat, current: nat, period: nat)
    requires
        period >= 1,
        prev <= AVG_MAX,
        current <= u64::MAX,
    ensures
        smooth(prev, current, period) <= AVG_MAX,
{
    let x = prev * ((period - 1) as nat) + current * (AVG_SCALE as nat);
    assert(x <= period * (AVG_MAX as nat)) by (nonlinear_arith)
        requires
            period >= 1,
            prev <= AVG_MAX,
            current <= u64::MAX,
            x == prev * ((period - 1) as nat) + current * (AVG_SCALE as nat),
    ;
    lemma_ceil_div_le(x, period, AVG_MAX as nat);
}

proof fn lemma_rsi_from_bounded(g: nat, l: nat)
    ensures
        rsi_from(g, l) <= RSI_MAX,
{
    if g + l > 0 {
        assert(((RSI_MAX as nat) * g) / (g + l) <= RSI_MAX) by (nonlinear_arith)
            requires
                g + l > 0,
        ;
    }
}

proof fn lemma_gain_sum_pos(s: Seq<u64>, j: nat)
    requires
        j < s.len(),
    ensures
        (gain_sum(s, j) > 0) == (exists|i: int| 0 <= i < j && s[i] < #[trigger] s[i + 1]),
    decreases j,
{
    if j > 0 {
        lemma_gain_sum_pos(s, (j - 1) as nat);
        if gain_sum(s, j) > 0 {
            if gain(s, j - 1) > 0 {
                assert(s[j - 1] < s[(j - 1) + 1]);
            }
        } else {
            assert forall|i: int| 0 <= i < j implies !(s[i] < #[trigger] s[i + 1]) by {
                if i == j - 1 {
                    assert(gain(s, i) == 0);
                }
            }
        }
    }
}

proof fn lemma_loss_sum_pos(s: Seq<u64>, j: nat)
    requires
        j < s.len(),
    ensures
        (loss_sum(s, j) > 0) == (exists|i: int| 0 <= i < j && s[i] > #[trigger] s[i + 1]),
    decreases j,
{
    if j > 0 {
        lemma_loss_sum_pos(s, (j - 1) as nat);
        if loss_sum(s, j) > 0 {
            if loss(s, j - 1) > 0 {
                assert(s[j - 1] > s[(j - 1) + 1]);
            }
        } else {
            assert forall|i: int| 0 <= i < j implies !(s[i] > #[trigger] s[i + 1]) by {
                if i == j - 1 {
                    assert(loss(s, i) == 0);
                }
            }
        }
    }
}

proof fn lemma_smooth_pos(prev: nat, current: nat, period: nat)
    requires
        period >= 2,
    ensures
        (smooth(prev, current, period) > 0) == (prev > 0 || current > 0),
{
    let x = prev * ((period - 1) as nat) + current * (AVG_SCALE as nat);
    assert((x > 0) == (prev > 0 || current > 0)) by (nonlinear_arith)
        requires
            period >= 2,
            x == prev * ((period - 1) as nat) + current * (AVG_SCALE as nat),
    ;
    lemma_ceil_div_pos(x, period);
}

/// With a period of 2 or more, the average gain is positive exactly when
/// some delta consumed so far is a rise, and likewise for losses.
proof fn lemma_avgs_pos(s: Seq<u64>, period: nat, j: nat)
    requires
        period >= 2,
        seed_len(s, period) <= j < s.len(),
    ensures
        (avg_gain(s, period, j) > 0) == (gain_sum(s, j) > 0),
        (avg_loss(s, period, j) > 0) == (loss_sum(s, j) > 0),
    decreases j,
{
    let k = seed_len(s, period);
    if j == k {
        if k > 0 {
            lemma_ceil_div_pos(gain_sum(s, k) * (AVG_SCALE as nat), k);
            lemma_ceil_div_pos(loss_sum(s, k) * (AVG_SCALE as nat), k);
            assert((gain_sum(s, k) * (AVG_SCALE as nat) > 0) == (gain_sum(s, k) > 0))
                by (nonlinear_arith);
            assert((loss_sum(s, k) * (AVG_SCALE as nat) > 0) == (loss_sum(s, k) > 0))
                by (nonlinear_arith);
        }
    } else {
        lemma_avgs_pos(s, period, (j - 1) as nat);
        lemma_smooth_pos(avg_gain(s, period, (j - 1) as nat), gain(s, j - 1), period);
        lemma_smooth_pos(avg_loss(s, period, (j - 1) as nat), loss(s, j - 1), period);
    }
}

proof fn lemma_final_avgs_pos(s: Seq<u64>, period: nat)
    requires
        period >= 2,
        s.len() >= 1,
    ensures
        (avg_gain(s, period, (s.len() - 1) as nat) > 0) == has_gain(s),
        (avg_loss(s, period, (s.len() - 1) as nat) > 0) == has_loss(s),
{
    let n = (s.len() - 1) as nat;
    lemma_avgs_pos(s, period, n);
    lemma_gain_sum_pos(s, n);
    lemma_loss_sum_pos(s, n);
}

proof fn lemma_rising_whole(s: Seq<u64>, period: nat)
    requires
        period >= 2,
        s.len() >= period,
        non_decreasing(s),
    ensures
        rsi_of(s, period) == Some(if has_gain(s) { RSI_MAX as nat } else { RSI_NEUTRAL as nat }),
{
    let n = (s.len() - 1) as nat;
    lemma_final_avgs_pos(s, period);
    assert(!has_loss(s));
    let g = avg_gain(s, period, n);
    if g > 0 {
        assert(((RSI_MAX as nat) * g) / (g + 0) == RSI_MAX as nat) by (nonlinear_arith)
            requires
                g > 0,
        ;
    }
}

/// In a series whose prices never fall, the index at the last point, and at
/// every point after the seed window, is 100 points where the series holds a
/// rise and the neutral 50 where all its prices are equal.
pub proof fn law_rising_series(s: Seq<u64>, period: nat)
    requires
        period >= 2,
        s.len() >= period,
        non_decreasing(s),
    ensures
        rsi_of(s, period) == Some(if has_gain(s) { RSI_MAX as nat } else { RSI_NEUTRAL as nat }),
        forall|m: int|
            period <= m <= s.len() ==> #[trigger] rsi_of(s.take(m), period) == Some(
                if has_gain(s.take(m)) {
                    RSI_MAX as nat
                } else {
                    RSI_NEUTRAL as nat
                },
            ),
{
    lemma_rising_whole(s, period);
    assert forall|m: int| period <= m <= s.len() implies #[trigger] rsi_of(s.take(m), period)
        == Some(if has_gain(s.take(m)) { RSI_MAX as nat } else { RSI_NEUTRAL as nat }) by {
        let t = s.take(m);
        assert forall|i: int| 0 <= i < t.len() - 1 implies t[i] <= #[trigger] t[i + 1] by {
            assert(s[i] <= s[i + 1]);
        }
        lemma_rising_whole(t, period);
    }
}

proof fn lemma_falling_whole(s: Seq<u64>, period: nat)
    requires
        period >= 2,
        s.len() >= period,
        non_increasing(s),
    ensures
        rsi_of(s, period) == Some(if has_loss(s) { 0nat } else { RSI_NEUTRAL as nat }),
{
    lemma_final_avgs_pos(s, period);
    assert(!has_gain(s));
    assert((RSI_MAX as nat) * 0 == 0);
}

/// In a series whose prices never rise, the index at the last point, and at
/// every point after the seed window, is 0 where the series holds a fall and
/// the neutral 50 where all its prices are equal.
pub proof fn law_falling_series(s: Seq<u64>, period: nat)
    requires
        period >= 2,
        s.len() >= period,
        non_increasing(s),
    ensures
        rsi_of(s, period) == Some(if has_loss(s) { 0nat } else { RSI_NEUTRAL as nat }),
        forall|m: int|
            period <= m <= s.len() ==> #[trigger] rsi_of(s.take(m), period) == Some(
                if has_loss(s.take(m)) {
                    0nat
                } else {
                    RSI_NEUTRAL as nat
                },
            ),
{
    lemma_falling_whole(s, period);
    assert forall|m: int| period <= m <= s.len() implies #[trigger] rsi_of(s.take(m), period)
        == Some(if has_loss(s.take(m)) { 0nat } else { RSI_NEUTRAL as nat }) by {
        let t = s.take(m);
        assert forall|i: int| 0 <= i < t.len() - 1 implies t[i] >= #[trigger] t[i + 1] by {
            assert(s[i] >= s[i + 1]);
        }
        lemma_falling_whole(t, period);
    }
}

/// The neutral case, both averages zero, comes exactly when no delta of the
/// series is a rise or a fall, that is when all its prices are equal.
pub proof fn law_neutral_only_when_flat(s: Seq<u64>, period: nat)
    requires
        period >= 2,
        s.len() >= period,
    ensures
        (avg_gain(s, period, (s.len() - 1) as nat) == 0 && avg_loss(s, period, (s.len() - 1) as nat)
            == 0) == (!has_gain(s) && !has_loss(s)),
        !has_gain(s) && !has_loss(s) ==> rsi_of(s, period) == Some(RSI_NEUTRAL as nat),
{
    lemma_final_avgs_pos(s, period);
}

/// The index, wherever it is defined, lies between 0 and 100 points.
pub proof fn law_rsi_bounded(s: Seq<u64>, period: nat)
    ensures
        rsi_of(s, period) matches Some(v) ==> 0 <= v <= RSI_MAX,
{
    if s.len() >= period && s.len() > 0 {
        let n = (s.len() - 1) as nat;
        lemma_rsi_from_bounded(avg_gain(s, period, n), avg_loss(s, period, n));
    }
}

/// A series with fewer points than the period has no index.
pub proof fn law_short_series_undefined(s: Seq<u64>, period: nat)
    requires
        s.len() < period,
    ensures
        rsi_of(s, period) is None,
{
}

/// The index depends on the series and the period alone: two equal series
/// give the same result.
pub proof fn law_rsi_deterministic(a: Seq<u64>, b: Seq<u64>, period: nat)
    requires
        a == b,
    ensures
        rsi_of(a, period) == rsi_of(b, period),
{
}

/// Computes the averages at the last point of `closes`, or `None` where the
/// series holds fewer than `period` points.
pub fn rsi_reading(closes: &Vec<u64>, period: usize) -> (r: Option<RsiReading>)
    requires
        period >= 1,
    ensures
        r.is_none() <==> closes@.len() < period,
        r matches Some(rd) ==> rd.wf() && rd.avg_gain == avg_gain(
            closes@,
            period as nat,
            (closes@.len() - 1) as nat,
        ) && rd.avg_loss == avg_loss(closes@, period as nat, (closes@.len() - 1) as nat),
{
    let n = closes.len();
    if n < period {
        return None;
    }
    let ghost s = closes@;
    let ghost p = period as nat;
    let k: usize = if period <= n - 1 {
        period
    } else {
        n - 1
    };
    assert(k == seed_len(s, p));
    let mut sg: u128 = 0;
    let mut sl: u128 = 0;
    let mut i: usize = 0;
    while i < k
        invariant
            s == closes@,
            k < s.len(),
            i <= k,
            sg == gain_sum(s, i as nat),
            sl == loss_sum(s, i as nat),
        decreases k - i,
    {
        proof {
            lemma_sums_bounded(s, i as nat);
            assert(i * (u64::MAX as nat) <= (usize::MAX as nat) * (u64::MAX as nat))
                by (nonlinear_arith)
                requires
                    i <= usize::MAX,
            ;
        }
        let a = closes[i];
        let b = closes[i + 1];
        if b > a {
            sg = sg + (b - a) as u128;
        } else if b < a {
            sl = sl + (a - b) as u128;
        }
        i = i + 1;
    }
    proof {
        lemma_sums_bounded(s, k as nat);
        lemma_seed_bounded(gain_sum(s, k as nat), k as nat);
        lemma_seed_bounded(loss_sum(s, k as nat), k as nat);
    }
    let mut ag: u128 = 0;
    let mut al: u128 = 0;
    if k > 0 {
        let km = k as u128;
        proof {
            lemma_seed_split(sg as nat, k as nat);
            lemma_seed_split(sl as nat, k as nat);
            lemma_div_parts(sg as int, k as int);
            lemma_div_parts(sl as int, k as int);
            assert((sg / km) * AVG_SCALE <= (u64::MAX as nat) * (AVG_SCALE as nat))
                by (nonlinear_arith)
                requires
                    sg == km * (sg / km) + sg % km,
                    sg <= km * (u64::MAX as nat),
                    sg % km >= 0,
                    km > 0,
            ;
            assert((sl / km) * AVG_SCALE <= (u64::MAX as nat) * (AVG_SCALE as nat))
                by (nonlinear_arith)
                requires
                    sl == km * (sl / km) + sl % km,
                    sl <= km * (u64::MAX as nat),
                    sl % km >= 0,
                    km > 0,
            ;
            assert((sg % km) * AVG_SCALE + km - 1 <= (usize::MAX as nat) * (AVG_SCALE as nat)
                + usize::MAX) by (nonlinear_arith)
                requires
                    sg % km < km,
                    km <= usize::MAX,
            ;
            assert((sl % km) * AVG_SCALE + km - 1 <= (usize::MAX as nat) * (AVG_SCALE as nat)
                + usize::MAX) by (nonlinear_arith)
                requires
                    sl % km < km,
                    km <= usize::MAX,
            ;
        }
        ag = (sg / km) * AVG_SCALE + ((sg % km) * AVG_SCALE + km - 1) / km;
        al = (sl / km) * AVG_SCALE + ((sl % km) * AVG_SCALE + km - 1) / km;
    }
    let pm: u128 = period as u128;
    let mut j: usize = k;
    while j < n - 1
        invariant
            s == closes@,
            n == s.len(),
            p == period,
            pm == p,
            p >= 1,
            k == seed_len(s, p),
            k <= j <= n - 1,
            ag == avg_gain(s, p, j as nat),
            al == avg_loss(s, p, j as nat),
            ag <= AVG_MAX,
            al <= AVG_MAX,
        decreases n - 1 - j,
    {
        let a = closes[j];
        let b = closes[j + 1];
        let cg: u128 = if b > a {
            (b - a) as u128 * AVG_SCALE
        } else {
            0
        };
        let cl: u128 = if b < a {
            (a - b) as u128 * AVG_SCALE
        } else {
            0
        };
        proof {
            lemma_smooth_bounded(ag as nat, gain(s, j as int) as nat, p);
            lemma_smooth_bounded(al as nat, loss(s, j as int) as nat, p);
            lemma_smooth_split(ag as nat, cg as nat, p);
            lemma_smooth_split(al as nat, cl as nat, p);
            assert(cg == gain(s, j as int) * (AVG_SCALE as nat));
            assert(cl == loss(s, j as int) * (AVG_SCALE as nat));
        }
        ag = if cg >= ag {
            ag + (cg - ag + pm - 1) / pm
        } else {
            ag - (ag - cg) / pm
        };
        al = if cl >= al {
            al + (cl - al + pm - 1) / pm
        } else {
            al - (al - cl) / pm
        };
        j = j + 1;
    }
    Some(RsiReading { avg_gain: ag, avg_loss: al })
}

/// Computes the index, in hundredths, at the last point of `closes`, or
/// `None` where the series holds fewer than `period` points.
pub fn compute_rsi(closes: &Vec<u64>, period: usize) -> (r: Option<u64>)
    requires
        period >= 1,
    ensures
        r matches Some(v) ==> v <= RSI_MAX,
        r.is_none() <==> closes@.len() < period,
        r matches Some(v) ==> rsi_of(closes@, period as nat) == Some(v as nat),
        r is None ==> rsi_of(closes@, period as nat) is None,
{
    match rsi_reading(closes, period) {
        None => None,
        Some(rd) => Some(rd.hundredths()),
    }
}

} // verus!
