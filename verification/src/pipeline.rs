//! The pipeline driver: file contents in, chronologically ordered chart
//! points out.
//!
//! Each file's text is loaded and aggregated into a per-day summary;
//! the summaries are sorted by calendar day, stably; each becomes one
//! chart point carrying the `YYYY-MM-DD` label and the exact mean. The
//! whole run is pinned to `pipeline_spec`, a function of the file
//! contents alone, and aborts on the first failure as each stage does.

use vstd::prelude::*;
use crate::aggregate::{
    max_scale, mean_of, sum_scaled, summarize, sums_fit, values_of, DaySummary,
};
use crate::collect::{collect, lemma_collect_push, lemma_collect_split};
use crate::date::{date_label, format_date, lemma_label_order, lex_le, Date};
use crate::loader::{load_samples, load_spec};
use crate::record::{ParseError, Sample};
use crate::sort::{insert_sorted, insort, sort_by_day, sorted_by_day};
use crate::split::views_of;
use crate::value::pow10;

verus! {

/// Why a run failed.
#[derive(Clone, Copy, PartialEq, Eq, Structural, Debug)]
pub enum PipelineError {
    /// A data line of some file failed to parse.
    Parse(ParseError),
    /// A file contributed no data points.
    NoSamples,
    /// A file's exact value sum left the machine range.
    Overflow,
}

/// One chart point: a day, its `YYYY-MM-DD` label and the exact mean
/// `num / den` of the day's values.
#[derive(PartialEq, Eq, Debug)]
pub struct ChartPoint {
    pub day: Date,
    pub label: Vec<u8>,
    pub num: i128,
    pub den: u128,
}

/// What a summary is to the specification: its day and its samples.
pub type SummaryModel = (Date, Seq<Sample>);

/// What a chart point is to the specification: day, label, mean.
pub type PointModel = (Date, Seq<u8>, int, int);

impl ChartPoint {
    pub open spec fn model(self) -> PointModel {
        (self.day, self.label@, self.num as int, self.den as int)
    }

    pub open spec fn wf(self) -> bool {
        &&& self.day.valid()
        &&& self.label@ == date_label(self.day)
        &&& self.den > 0
    }
}

pub open spec fn summary_model(d: DaySummary) -> SummaryModel {
    (d.day, d.samples@)
}

pub open spec fn summary_models(s: Seq<DaySummary>) -> Seq<SummaryModel> {
    s.map_values(|d: DaySummary| summary_model(d))
}

pub open spec fn point_models(s: Seq<ChartPoint>) -> Seq<PointModel> {
    s.map_values(|p: ChartPoint| p.model())
}

/// What one file's text contributes: its samples' day and run, a parse
/// failure, or the report that it held no data points.
pub open spec fn file_summary_spec(content: Seq<u8>) -> Result<SummaryModel, PipelineError> {
    match load_spec(content) {
        Err(e) => Err(PipelineError::Parse(e)),
        Ok(ss) => if ss.len() == 0 {
            Err(PipelineError::NoSamples)
        } else {
            Ok((ss[0].date, ss))
        },
    }
}

pub open spec fn summary_fn() -> spec_fn(Seq<u8>) -> Result<SummaryModel, PipelineError> {
    |c: Seq<u8>| file_summary_spec(c)
}

/// All files' summaries in enumeration order, or the first failure.
pub open spec fn summaries_spec(files: Seq<Seq<u8>>) -> Result<Seq<SummaryModel>, PipelineError> {
    collect(summary_fn(), files)
}

/// `insert_sorted`, on summary models.
pub open spec fn insert_sorted_m(x: SummaryModel, s: Seq<SummaryModel>) -> Seq<SummaryModel>
    decreases s.len(),
{
    if s.len() == 0 {
        seq![x]
    } else if x.0.key() < s[0].0.key() {
        seq![x] + s
    } else {
        seq![s[0]] + insert_sorted_m(x, s.skip(1))
    }
}

/// Stable insertion sort by day, on summary models.
pub open spec fn insort_m(s: Seq<SummaryModel>) -> Seq<SummaryModel>
    decreases s.len(),
{
    if s.len() == 0 {
        Seq::empty()
    } else {
        insert_sorted_m(s.last(), insort_m(s.drop_last()))
    }
}

/// The chart point of one summary: the day's label and the exact mean,
/// unless the value sum leaves the machine range.
pub open spec fn chart_of(sm: SummaryModel) -> Result<PointModel, PipelineError> {
    let vs = values_of(sm.1);
    let sc = max_scale(vs);
    if sums_fit(vs, sc) {
        Ok((sm.0, date_label(sm.0), sum_scaled(vs, sc), (sm.1.len() * pow10(sc)) as int))
    } else {
        Err(PipelineError::Overflow)
    }
}

pub open spec fn chart_fn() -> spec_fn(SummaryModel) -> Result<PointModel, PipelineError> {
    |sm: SummaryModel| chart_of(sm)
}

pub open spec fn charts_spec(sms: Seq<SummaryModel>) -> Result<Seq<PointModel>, PipelineError> {
    collect(chart_fn(), sms)
}

/// What the whole run yields, as a function of the file contents alone.
pub open spec fn pipeline_spec(files: Seq<Seq<u8>>) -> Result<Seq<PointModel>, PipelineError> {
    match summaries_spec(files) {
        Err(e) => Err(e),
        Ok(sms) => charts_spec(insort_m(sms)),
    }
}

/// Taking models commutes with inserting a summary.
pub proof fn lemma_insert_models(x: DaySummary, s: Seq<DaySummary>)
    ensures
        summary_models(insert_sorted(x, s)) == insert_sorted_m(summary_model(x), summary_models(s)),
    decreases s.len(),
{
    if s.len() == 0 {
        assert(summary_models(insert_sorted(x, s)) =~= insert_sorted_m(
            summary_model(x),
            summary_models(s),
        ));
    } else if x.day.key() < s[0].day.key() {
        assert(summary_models(seq![x] + s) =~= seq![summary_model(x)] + summary_models(s));
        assert(summary_models(s)[0] == summary_model(s[0]));
    } else {
        lemma_insert_models(x, s.skip(1));
        assert(summary_models(s.skip(1)) =~= summary_models(s).skip(1));
        assert(summary_models(seq![s[0]] + insert_sorted(x, s.skip(1))) =~= seq![
            summary_model(s[0]),
        ] + summary_models(insert_sorted(x, s.skip(1))));
        assert(insert_sorted_m(summary_model(x), summary_models(s)) == seq![
            summary_models(s)[0],
        ] + insert_sorted_m(summary_model(x), summary_models(s).skip(1)));
    }
}

/// Taking models commutes with the sort.
pub proof fn lemma_insort_models(s: Seq<DaySummary>)
    ensures
        summary_models(insort(s)) == insort_m(summary_models(s)),
    decreases s.len(),
{
    if s.len() == 0 {
        assert(summary_models(insort(s)) =~= insort_m(summary_models(s)));
    } else {
        lemma_insort_models(s.drop_last());
        assert(summary_models(s.drop_last()) =~= summary_models(s).drop_last());
        assert(summary_models(s).last() == summary_model(s.last()));
        lemma_insert_models(s.last(), insort(s.drop_last()));
    }
}

/// A well-formed series that is non-decreasing by day is non-decreasing
/// by its `YYYY-MM-DD` labels too.
pub proof fn lemma_series_sorted_by_label(ps: Seq<ChartPoint>)
    requires
        forall|k: int| 0 <= k < ps.len() ==> (#[trigger] ps[k]).wf(),
        forall|i: int, j: int|
            0 <= i < j < ps.len() ==> (#[trigger] ps[i]).day.key() <= (#[trigger] ps[j]).day.key(),
    ensures
        forall|i: int, j: int|
            0 <= i < j < ps.len() ==> lex_le((#[trigger] ps[i]).label@, (#[trigger] ps[j]).label@),
{
    assert forall|i: int, j: int| 0 <= i < j < ps.len() implies lex_le(
        (#[trigger] ps[i]).label@,
        (#[trigger] ps[j]).label@,
    ) by {
        lemma_label_order(ps[i].day, ps[j].day);
    }
}

/// The chart series is a function of the input file contents alone:
/// two runs over equal inputs yield equal series.
pub proof fn lemma_pipeline_deterministic(a: Seq<Seq<u8>>, b: Seq<Seq<u8>>)
    requires
        a == b,
    ensures
        pipeline_spec(a) == pipeline_spec(b),
{
}

/// Runs the whole pipeline over the files' contents, in enumeration
/// order: exactly `pipeline_spec`, with the points sorted by day.
pub fn run_pipeline(files: &Vec<Vec<u8>>) -> (r: Result<Vec<ChartPoint>, PipelineError>)
    ensures
        r is Ok <==> pipeline_spec(views_of(files@)) is Ok,
        r matches Ok(ps) ==> {
            &&& point_models(ps@) == pipeline_spec(views_of(files@))->Ok_0
            &&& forall|i: int, j: int|
                0 <= i < j < ps@.len() ==> (#[trigger] ps@[i]).day.key() <= (
                #[trigger] ps@[j]).day.key()
            &&& forall|i: int, j: int|
                0 <= i < j < ps@.len() ==> lex_le(
                    (#[trigger] ps@[i]).label@,
                    (#[trigger] ps@[j]).label@,
                )
            &&& forall|k: int| 0 <= k < ps@.len() ==> (#[trigger] ps@[k]).wf()
        },
        r matches Err(e) ==> pipeline_spec(views_of(files@)) == Err::<Seq<PointModel>,
            PipelineError,
        >(e),
{
    let ghost fvs = views_of(files@);
    let n: usize = files.len();
    let mut summaries: Vec<DaySummary> = Vec::new();
    let mut i: usize = 0;
    proof {
        assert(fvs.take(0) =~= Seq::<Seq<u8>>::empty());
        assert(summary_models(summaries@) =~= Seq::<SummaryModel>::empty());
    }
    while i < n
        invariant
            n == files@.len(),
            fvs == views_of(files@),
            0 <= i <= n,
            collect(summary_fn(), fvs.take(i as int)) == Ok::<Seq<SummaryModel>, PipelineError>(
                summary_models(summaries@),
            ),
            forall|k: int| 0 <= k < summaries@.len() ==> (#[trigger] summaries@[k]).wf(),
        decreases n - i,
    {
        proof {
            assert(fvs[i as int] == files@[i as int]@);
            assert(fvs.take(i as int + 1) =~= fvs.take(i as int).push(fvs[i as int]));
            lemma_collect_push(summary_fn(), fvs.take(i as int), fvs[i as int]);
            assert(summary_fn()(fvs[i as int]) == file_summary_spec(fvs[i as int]));
        }
        match load_samples(&files[i]) {
            Err(e) => {
                proof {
                    lemma_collect_split(summary_fn(), fvs, i as int);
                    let rest = fvs.skip(i as int);
                    assert(rest[0] == fvs[i as int]);
                    assert(collect(summary_fn(), rest) == Err::<Seq<SummaryModel>, PipelineError>(
                        PipelineError::Parse(e),
                    ));
                }
                return Err(PipelineError::Parse(e));
            },
            Ok(ss) => {
                match summarize(ss) {
                    Err(_) => {
                        proof {
                            lemma_collect_split(summary_fn(), fvs, i as int);
                            let rest = fvs.skip(i as int);
                            assert(rest[0] == fvs[i as int]);
                            assert(collect(summary_fn(), rest) == Err::<
                                Seq<SummaryModel>,
                                PipelineError,
                            >(PipelineError::NoSamples));
                        }
                        return Err(PipelineError::NoSamples);
                    },
                    Ok(ds) => {
                        proof {
                            assert(file_summary_spec(fvs[i as int]) == Ok::<
                                SummaryModel,
                                PipelineError,
                            >(summary_model(ds)));
                            assert(summary_models(summaries@.push(ds)) =~= summary_models(
                                summaries@,
                            ).push(summary_model(ds)));
                        }
                        summaries.push(ds);
                    },
                }
            },
        }
        i = i + 1;
    }
    proof {
        assert(fvs.take(n as int) =~= fvs);
    }
    let ghost sms = summaries@;
    let sorted = sort_by_day(summaries);
    proof {
        lemma_insort_models(sms);
        broadcast use vstd::seq_lib::group_to_multiset_ensures;

        assert forall|k: int| 0 <= k < sorted@.len() implies (#[trigger] sorted@[k]).wf() by {
            assert(sorted@.contains(sorted@[k]));
            assert(sorted@.to_multiset().count(sorted@[k]) > 0);
            assert(sms.contains(sorted@[k]));
            let j = choose|j: int| 0 <= j < sms.len() && sms[j] == sorted@[k];
            assert(sms[j].wf());
        }
    }
    let ghost ms = summary_models(sorted@);
    let m: usize = sorted.len();
    let mut points: Vec<ChartPoint> = Vec::new();
    let mut t: usize = 0;
    proof {
        assert(ms.take(0) =~= Seq::<SummaryModel>::empty());
        assert(point_models(points@) =~= Seq::<PointModel>::empty());
    }
    while t < m
        invariant
            m == sorted@.len(),
            0 <= t <= m,
            ms == summary_models(sorted@),
            ms == insort_m(summaries_spec(fvs)->Ok_0),
            summaries_spec(fvs) is Ok,
            fvs == views_of(files@),
            sorted_by_day(sorted@),
            forall|k: int| 0 <= k < sorted@.len() ==> (#[trigger] sorted@[k]).wf(),
            collect(chart_fn(), ms.take(t as int)) == Ok::<Seq<PointModel>, PipelineError>(
                point_models(points@),
            ),
            points@.len() == t,
            forall|k: int|
                0 <= k < t ==> (#[trigger] points@[k]).wf() && points@[k].day == sorted@[k].day,
        decreases m - t,
    {
        proof {
            assert(ms[t as int] == summary_model(sorted@[t as int]));
            assert(ms.take(t as int + 1) =~= ms.take(t as int).push(ms[t as int]));
            lemma_collect_push(chart_fn(), ms.take(t as int), ms[t as int]);
            assert(chart_fn()(ms[t as int]) == chart_of(ms[t as int]));
        }
        let ds: &DaySummary = &sorted[t];
        let mean = match mean_of(&ds.samples) {
            Err(_) => {
                proof {
                    lemma_collect_split(chart_fn(), ms, t as int);
                    let rest = ms.skip(t as int);
                    assert(rest[0] == ms[t as int]);
                    assert(collect(chart_fn(), rest) == Err::<Seq<PointModel>, PipelineError>(
                        PipelineError::Overflow,
                    ));
                }
                return Err(PipelineError::Overflow);
            },
            Ok(mn) => mn,
        };
        let label = format_date(&ds.day);
        let point = ChartPoint { day: ds.day, label, num: mean.num, den: mean.den };
        proof {
            assert(chart_of(ms[t as int]) == Ok::<PointModel, PipelineError>(point.model()));
            assert(point_models(points@.push(point)) =~= point_models(points@).push(point.model()));
        }
        points.push(point);
        t = t + 1;
    }
    proof {
        assert(ms.take(m as int) =~= ms);
        lemma_series_sorted_by_label(points@);
    }
    Ok(points)
}

} // verus!
