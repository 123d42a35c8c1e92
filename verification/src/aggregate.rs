//! Aggregating one file's samples into its calendar day and the exact
//! arithmetic mean of its values.
//!
//! With every value the exact rational `mantissa / 10^scale`, the mean
//! of `n` values at common scale `S` is the exact rational
//! `sum_scaled / (n * 10^S)`; no rounding enters anywhere.

use vstd::prelude::*;
use crate::date::Date;
use crate::record::Sample;
use crate::value::{lemma_pow10_adds, lemma_pow10_mono, lemma_pow10_pos, lemma_pow10_small, pow10, Value};

verus! {

/// One file's aggregation result: its calendar day and its samples.
#[derive(Clone, PartialEq, Eq, Debug)]
pub struct DaySummary {
    pub day: Date,
    pub samples: Vec<Sample>,
}

impl DaySummary {
    /// A summary is made from a non-empty sample run and carries the
    /// calendar date of its first sample.
    pub open spec fn wf(self) -> bool {
        &&& self.day.valid()
        &&& self.samples@.len() >= 1
        &&& self.day == self.samples@[0].date
        &&& forall|k: int| 0 <= k < self.samples@.len() ==> (#[trigger] self.samples@[k]).wf()
    }
}

/// Why aggregation failed.
#[derive(Clone, Copy, PartialEq, Eq, Structural, Debug)]
pub enum AggError {
    /// The file contributed no data points.
    NoSamples,
    /// The exact sum of the values left the machine range.
    Overflow,
}

/// An exact mean: the rational `num / den`.
#[derive(Clone, Copy, PartialEq, Eq, Structural, Debug)]
pub struct Mean {
    pub num: i128,
    pub den: u128,
}

impl Mean {
    pub open spec fn wf(self) -> bool {
        self.den > 0
    }
}

/// Builds the summary of one file's samples: the calendar day is the
/// first sample's, and an empty run is reported rather than crashed on.
pub fn summarize(samples: Vec<Sample>) -> (r: Result<DaySummary, AggError>)
    ensures
        samples@.len() == 0 ==> r == Err::<DaySummary, AggError>(AggError::NoSamples),
        samples@.len() > 0 ==> (r matches Ok(ds) && ds.day == samples@[0].date && ds.samples@
            == samples@),
        (samples@.len() > 0 && forall|k: int|
            0 <= k < samples@.len() ==> (#[trigger] samples@[k]).wf()) ==> (r matches Ok(ds)
            && ds.wf()),
{
    if samples.len() == 0 {
        return Err(AggError::NoSamples);
    }
    let day: Date = samples[0].date;
    Ok(DaySummary { day, samples })
}

/// The values of a sample run, in order.
pub open spec fn values_of(samples: Seq<Sample>) -> Seq<Value> {
    samples.map_values(|s: Sample| s.value)
}

/// The largest scale among the values: the common denominator exponent.
pub open spec fn max_scale(vs: Seq<Value>) -> nat
    decreases vs.len(),
{
    if vs.len() == 0 {
        0
    } else {
        let m = max_scale(vs.drop_last());
        if vs.last().scale as nat > m {
            vs.last().scale as nat
        } else {
            m
        }
    }
}

pub proof fn lemma_max_scale_ge(vs: Seq<Value>, k: int)
    requires
        0 <= k < vs.len(),
    ensures
        vs[k].scale as nat <= max_scale(vs),
    decreases vs.len(),
{
    if k < vs.len() - 1 {
        lemma_max_scale_ge(vs.drop_last(), k);
        assert(vs.drop_last()[k] == vs[k]);
    }
}

/// A value brought to the common scale `s`: `v` times `10^(s - scale)`.
pub open spec fn scaled(v: Value, s: nat) -> int
    recommends
        v.scale <= s,
{
    v.mantissa * pow10((s - v.scale) as nat)
}

/// The exact sum of the values, all at common scale `s`.
pub open spec fn sum_scaled(vs: Seq<Value>, s: nat) -> int
    decreases vs.len(),
{
    if vs.len() == 0 {
        0
    } else {
        sum_scaled(vs.drop_last(), s) + scaled(vs.last(), s)
    }
}

/// Scaling loses nothing: a value brought to the common scale still
/// denotes the same rational, since
/// `scaled(v, s) / 10^s == v.mantissa / 10^(v.scale)` once both sides
/// are cross-multiplied.
pub proof fn lemma_scaled_exact(v: Value, s: nat)
    requires
        v.scale <= s,
    ensures
        scaled(v, s) * pow10(v.scale as nat) == v.mantissa * pow10(s),
{
    let d = (s - v.scale) as nat;
    lemma_pow10_adds(d, v.scale as nat);
    assert((v.mantissa * pow10(d)) * pow10(v.scale as nat) == v.mantissa * (pow10(d) * pow10(
        v.scale as nat,
    ))) by (nonlinear_arith);
}

/// Whether every partial sum of the values stays in machine range.
pub open spec fn sums_fit(vs: Seq<Value>, s: nat) -> bool
    decreases vs.len(),
{
    if vs.len() == 0 {
        true
    } else {
        sums_fit(vs.drop_last(), s) && i128::MIN <= sum_scaled(vs, s) <= i128::MAX
    }
}

pub proof fn lemma_sums_fit_prefix(vs: Seq<Value>, s: nat, i: int)
    requires
        0 <= i <= vs.len(),
        sums_fit(vs, s),
    ensures
        sums_fit(vs.take(i), s),
    decreases vs.len() - i,
{
    if i == vs.len() {
        assert(vs.take(i) =~= vs);
    } else {
        lemma_sums_fit_prefix(vs.drop_last(), s, i);
        assert(vs.drop_last().take(i) =~= vs.take(i));
    }
}

/// `10^k` for the small exponents the pipeline meets.
pub fn pow10_u64(k: u32) -> (r: u64)
    requires
        k <= 17,
    ensures
        r == pow10(k as nat),
{
    let mut r: u64 = 1;
    let mut j: u32 = 0;
    while j < k
        invariant
            0 <= j <= k <= 17,
            r == pow10(j as nat),
        decreases k - j,
    {
        proof {
            lemma_pow10_mono((j + 1) as nat, 17);
            lemma_pow10_small();
            assert(pow10((j + 1) as nat) == 10 * pow10(j as nat));
        }
        r = r * 10;
        j = j + 1;
    }
    r
}

/// The exact mean of a non-empty sample run: `num` is the values' sum
/// at the common scale, `den` is `count * 10^scale`. Succeeds exactly
/// when every partial sum stays in machine range.
pub fn mean_of(samples: &Vec<Sample>) -> (r: Result<Mean, AggError>)
    requires
        samples@.len() >= 1,
        forall|k: int| 0 <= k < samples@.len() ==> (#[trigger] samples@[k]).wf(),
    ensures
        r is Ok <==> sums_fit(values_of(samples@), max_scale(values_of(samples@))),
        r matches Ok(m) ==> {
            &&& m.num == sum_scaled(values_of(samples@), max_scale(values_of(samples@)))
            &&& m.den == samples@.len() * pow10(max_scale(values_of(samples@)))
            &&& m.wf()
        },
        r is Err ==> r == Err::<Mean, AggError>(AggError::Overflow),
{
    let ghost vs = values_of(samples@);
    let n: usize = samples.len();
    proof {
        assert(vs.len() == n);
    }
    let mut smax: u32 = 0;
    let mut i: usize = 0;
    while i < n
        invariant
            n == samples@.len(),
            vs == values_of(samples@),
            0 <= i <= n,
            smax <= 17,
            smax as nat == max_scale(vs.take(i as int)),
            forall|k: int| 0 <= k < samples@.len() ==> (#[trigger] samples@[k]).wf(),
        decreases n - i,
    {
        proof {
            assert(vs.take(i as int + 1).drop_last() =~= vs.take(i as int));
            assert(vs.take(i as int + 1).last() == vs[i as int]);
            assert(vs[i as int] == samples@[i as int].value);
        }
        let sc: u32 = samples[i].value.scale;
        if sc > smax {
            smax = sc;
        }
        i = i + 1;
    }
    proof {
        assert(vs.take(n as int) =~= vs);
    }
    let ghost s = max_scale(vs);
    let mut acc: i128 = 0;
    let mut i2: usize = 0;
    while i2 < n
        invariant
            n == samples@.len(),
            vs == values_of(samples@),
            s == max_scale(vs),
            0 <= i2 <= n,
            smax <= 17,
            smax as nat == s,
            acc == sum_scaled(vs.take(i2 as int), s),
            sums_fit(vs.take(i2 as int), s),
            forall|k: int| 0 <= k < samples@.len() ==> (#[trigger] samples@[k]).wf(),
        decreases n - i2,
    {
        proof {
            assert(vs[i2 as int] == samples@[i2 as int].value);
            lemma_max_scale_ge(vs, i2 as int);
        }
        let v: Value = samples[i2].value;
        let shift: u32 = smax - v.scale;
        let p: u64 = pow10_u64(shift);
        proof {
            lemma_pow10_mono(shift as nat, 17);
            lemma_pow10_small();
            lemma_pow10_pos(shift as nat);
            assert((v.mantissa as int) * (p as int)
                <= 10_000_000_000_000_000_000_000_000_000_000_000 && (v.mantissa as int) * (
            p as int) >= -10_000_000_000_000_000_000_000_000_000_000_000) by (nonlinear_arith)
                requires
                    -100_000_000_000_000_000 <= (v.mantissa as int) <= 100_000_000_000_000_000,
                    0 < (p as int) <= 100_000_000_000_000_000,
            ;
        }
        let term: i128 = (v.mantissa as i128) * (p as i128);
        proof {
            assert(term == scaled(vs[i2 as int], s));
            assert(vs.take(i2 as int + 1).drop_last() =~= vs.take(i2 as int));
            assert(vs.take(i2 as int + 1).last() == vs[i2 as int]);
        }
        let overflow: bool = if term >= 0 {
            acc > i128::MAX - term
        } else {
            acc < i128::MIN - term
        };
        if overflow {
            proof {
                if sums_fit(vs, s) {
                    lemma_sums_fit_prefix(vs, s, i2 as int + 1);
                }
            }
            return Err(AggError::Overflow);
        }
        acc = acc + term;
        i2 = i2 + 1;
    }
    proof {
        assert(vs.take(n as int) =~= vs);
    }
    let p_den: u64 = pow10_u64(smax);
    proof {
        lemma_pow10_small();
        lemma_pow10_pos(s);
        lemma_pow10_mono(s, 17);
        assert((n as int) * (p_den as int) < 0x1_00000000_00000000_00000000_00000000 && (
        n as int) * (p_den as int) >= 1) by (nonlinear_arith)
            requires
                1 <= (n as int) < 0x1_00000000_00000000,
                1 <= (p_den as int) <= 100_000_000_000_000_000,
        ;
    }
    let den: u128 = (n as u128) * (p_den as u128);
    Ok(Mean { num: acc, den })
}

} // verus!
