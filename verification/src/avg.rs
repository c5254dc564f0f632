//! A sliding average of integer samples, kept in fixed point (six
//! fractional bits), with the average deviation of the samples from it.
use vstd::prelude::*;

verus! {

/// Division rounding toward zero, as Rust's `/` on signed integers does.
pub open spec fn div_trunc(a: int, b: int) -> int {
    if a >= 0 {
        a / b
    } else {
        -((-a) / b)
    }
}

/// Absolute value.
pub open spec fn abs(a: int) -> int {
    if a < 0 {
        -a
    } else {
        a
    }
}

/// Whether `a` fits an `i32`.
pub open spec fn fits_i32(a: int) -> bool {
    i32::MIN <= a <= i32::MAX
}

/// The state of a sliding average: the fixed-point mean and average
/// deviation, the number of samples taken into account (which stops growing
/// at the inverted gain), and the inverted gain.
pub struct AvgState {
    pub mean: int,
    pub avg_deviation: int,
    pub num_samples: int,
    pub inverted_gain: int,
}

/// The state after adding sample `s` to `st`.
pub open spec fn add_sample_spec(st: AvgState, s: int) -> AvgState {
    let s64 = 64 * s;
    let deviation = if st.num_samples > 0 {
        abs(st.mean - s64)
    } else {
        0
    };
    let n = if st.num_samples < st.inverted_gain {
        st.num_samples + 1
    } else {
        st.num_samples
    };
    let mean = st.mean + div_trunc(s64 - st.mean, n);
    let avg_deviation = if n > 1 {
        st.avg_deviation + div_trunc(deviation - st.avg_deviation, n - 1)
    } else {
        st.avg_deviation
    };
    AvgState { mean, avg_deviation, num_samples: n, inverted_gain: st.inverted_gain }
}

/// Whether adding sample `s` to `st` stays within `i32` arithmetic.
pub open spec fn add_sample_fits(st: AvgState, s: int) -> bool {
    &&& fits_i32(64 * s)
    &&& fits_i32(64 * s - st.mean)
    &&& st.num_samples > 0 ==> i32::MIN < st.mean - 64 * s <= i32::MAX
}

/// The rounded mean of a state: zero before the first sample.
pub open spec fn mean_of(st: AvgState) -> int {
    if st.num_samples > 0 {
        div_trunc(st.mean + 32, 64)
    } else {
        0
    }
}

/// The rounded average deviation of a state: zero before the second sample.
pub open spec fn avg_deviation_of(st: AvgState) -> int {
    if st.num_samples > 1 {
        div_trunc(st.avg_deviation + 32, 64)
    } else {
        0
    }
}

/// A running average of samples in which each new sample weighs one over
/// the number of samples seen, until that number reaches the inverted gain.
#[derive(Debug)]
pub struct SlidingAvg {
    mean: i32,
    avg_deviation: i32,
    num_samples: i32,
    inverted_gain: i32,
}

impl View for SlidingAvg {
    type V = AvgState;

    closed spec fn view(&self) -> AvgState {
        AvgState {
            mean: self.mean as int,
            avg_deviation: self.avg_deviation as int,
            num_samples: self.num_samples as int,
            inverted_gain: self.inverted_gain as int,
        }
    }
}

impl Default for SlidingAvg {
    fn default() -> (r: Self)
        ensures
            r@ == (AvgState { mean: 0, avg_deviation: 0, num_samples: 0, inverted_gain: 0 }),
    {
        SlidingAvg { mean: 0, avg_deviation: 0, num_samples: 0, inverted_gain: 0 }
    }
}

/// A state that can take samples: a positive inverted gain, a sample count
/// between zero and the gain, no mean before the first sample, a
/// non-negative deviation, and a mean that rounds without overflow.
pub open spec fn avg_wf(st: AvgState) -> bool {
    &&& st.inverted_gain > 0
    &&& 0 <= st.num_samples <= st.inverted_gain
    &&& st.num_samples == 0 ==> st.mean == 0
    &&& st.avg_deviation >= 0
    &&& st.mean <= i32::MAX - 63
}

/// Quotients rounding toward zero lie between zero and the dividend.
proof fn lemma_div_trunc_bounds(a: int, b: int)
    requires
        b > 0,
    ensures
        a >= 0 ==> 0 <= div_trunc(a, b) <= a,
        a < 0 ==> a <= div_trunc(a, b) <= 0,
        b == 1 ==> div_trunc(a, b) == a,
{
    if b == 1 {
        assert(a / 1 == a);
        assert((-a) / 1 == -a);
    }
    if a >= 0 {
        assert(a / b <= a) by (nonlinear_arith)
            requires
                a >= 0,
                b > 0,
        ;
    } else {
        assert((-a) / b <= -a) by (nonlinear_arith)
            requires
                -a > 0,
                b > 0,
        ;
    }
}

/// Each sample moves the fixed-point mean toward the sample (times 64)
/// without passing it, and the average deviation toward the sample's
/// deviation from the old mean, which keeps it non-negative; the state stays
/// able to take samples.
pub proof fn law_add_sample_moves_toward(st: AvgState, s: int)
    requires
        avg_wf(st),
        add_sample_fits(st, s),
    ensures
        ({
            let next = add_sample_spec(st, s);
            &&& avg_wf(next)
            &&& st.mean <= 64 * s ==> st.mean <= next.mean <= 64 * s
            &&& 64 * s <= st.mean ==> 64 * s <= next.mean <= st.mean
            &&& next.num_samples == if st.num_samples < st.inverted_gain {
                st.num_samples + 1
            } else {
                st.num_samples
            }
        }),
{
    let next = add_sample_spec(st, s);
    lemma_div_trunc_bounds(64 * s - st.mean, next.num_samples);
    if next.num_samples > 1 {
        let deviation = if st.num_samples > 0 {
            abs(st.mean - 64 * s)
        } else {
            0
        };
        lemma_div_trunc_bounds(deviation - st.avg_deviation, next.num_samples - 1);
    }
}

/// The first sample of a non-negative value is the mean.
pub proof fn law_first_sample_is_mean(st: AvgState, s: int)
    requires
        avg_wf(st),
        st.num_samples == 0,
        0 <= s,
        add_sample_fits(st, s),
    ensures
        mean_of(add_sample_spec(st, s)) == s,
{
    lemma_div_trunc_bounds(64 * s, 1);
    assert((64 * s + 32) / 64 == s);
}

impl SlidingAvg {
    /// The state can take samples: a positive inverted gain, a sample count
    /// between zero and the gain, no mean before the first sample and a
    /// non-negative deviation.
    pub open spec fn wf(&self) -> bool {
        avg_wf(self@)
    }

    /// An empty average whose samples weigh at least one over
    /// `inverted_gain`.
    pub fn new(inverted_gain: i32) -> (r: Self)
        requires
            inverted_gain > 0,
        ensures
            r.wf(),
            r@ == (AvgState { mean: 0, avg_deviation: 0, num_samples: 0, inverted_gain: inverted_gain as int }),
    {
        Self { mean: 0, avg_deviation: 0, num_samples: 0, inverted_gain }
    }

    /// Takes sample `s` into the average.
    pub fn add_sample(&mut self, s: i32)
        requires
            old(self).wf(),
            add_sample_fits(old(self)@, s as int),
        ensures
            final(self).wf(),
            final(self)@ == add_sample_spec(old(self)@, s as int),
    {
        let s = s * 64;
        let deviation = if self.num_samples > 0 {
            let d = self.mean - s;
            if d < 0 {
                -d
            } else {
                d
            }
        } else {
            0
        };
        if self.num_samples < self.inverted_gain {
            self.num_samples = self.num_samples + 1;
        }
        let step = (s - self.mean) / self.num_samples;
        proof {
            lemma_div_trunc_bounds(s - self.mean, self.num_samples as int);
        }
        self.mean = self.mean + step;
        if self.num_samples > 1 {
            let dstep = (deviation - self.avg_deviation) / (self.num_samples - 1);
            proof {
                lemma_div_trunc_bounds(deviation - self.avg_deviation, self.num_samples - 1);
            }
            self.avg_deviation = self.avg_deviation + dstep;
        }
    }

    /// The mean of the samples, rounded to the nearest integer; zero before
    /// the first sample.
    pub fn mean(&self) -> (r: i32)
        requires
            self@.num_samples > 0 ==> self@.mean + 32 <= i32::MAX,
        ensures
            r == mean_of(self@),
    {
        if self.num_samples > 0 {
            (self.mean + 32) / 64
        } else {
            0
        }
    }

    /// The average deviation of the samples from the mean, rounded to the
    /// nearest integer; zero before the second sample.
    pub fn avg_deviation(&self) -> (r: i32)
        requires
            self@.num_samples > 1 ==> self@.avg_deviation + 32 <= i32::MAX,
        ensures
            r == avg_deviation_of(self@),
    {
        if self.num_samples > 1 {
            (self.avg_deviation + 32) / 64
        } else {
            0
        }
    }

    /// Whether sample `s` can be taken in without leaving `i32` arithmetic.
    pub fn fits_sample(&self, s: i32) -> (r: bool)
        ensures
            r == add_sample_fits(self@, s as int),
    {
        let s64 = (s as i64) * 64;
        let m = self.mean as i64;
        let fits = |x: i64| -> (b: bool)
            ensures
                b == fits_i32(x as int),
            { i32::MIN as i64 <= x && x <= i32::MAX as i64 };
        fits(s64) && fits(s64 - m) && (self.num_samples <= 0 || ((i32::MIN as i64) < m - s64 && m - s64 <= i32::MAX as i64))
    }

    /// The number of samples taken into account, at most the inverted gain.
    pub fn num_samples(&self) -> (r: i32)
        ensures
            r == self@.num_samples,
    {
        self.num_samples
    }
}

} // verus!
