//! The deferred-construction and dispatch core: an immutable, copyable
//! descriptor records which backend kind a statistic wants and with what
//! parameters; `build` materializes it into a live two-variant dispatch
//! object whose variant never changes afterwards, and `increment` /
//! `percentile` route to whichever backend is active.

use vstd::prelude::*;
use crate::error::SummaryError;
use crate::heatmap::{
    bucket_of, step_epoch, step_grid, Heatmap, lemma_zero_grid_cum,
};
use crate::percentile::valid_percentile;
use crate::streamstats::{stream_insert, Streamstats};

verus! {

/// The stored parameter bundle: pure data, read only by `build`.
#[derive(Clone, Copy, Debug, PartialEq, Eq, Structural)]
pub enum SummaryType {
    /// Value bound, precision, window count, window duration in ticks.
    Heatmap(u64, u8, usize, u64),
    /// Reservoir capacity in samples.
    Stream(usize),
}

/// The live dispatch object: exactly one of two backend kinds, fixed at
/// construction for the object's whole lifetime.
pub enum SummaryStruct {
    Heatmap(Heatmap),
    Stream(Streamstats),
}

impl SummaryStruct {
    /// Both backends keep their own structural soundness.
    pub open spec fn wf(self) -> bool {
        match self {
            SummaryStruct::Heatmap(h) => h.wf(),
            SummaryStruct::Stream(s) => s.wf(),
        }
    }

    /// Whether any observation is recorded in the active backend.
    pub open spec fn has_data(self) -> bool {
        match self {
            SummaryStruct::Heatmap(h) => h.total() > 0,
            SummaryStruct::Stream(s) => s@.len() > 0,
        }
    }

    /// Makes a live object around a fresh windowed histogram.
    pub fn heatmap(max: u64, precision: u8, windows: usize, resolution: u64) -> (s: Self)
        ensures
            s.wf(),
            s matches SummaryStruct::Heatmap(h) && h.is_fresh(max, precision, windows, resolution),
    {
        SummaryStruct::Heatmap(Heatmap::new(max, precision, windows, resolution))
    }

    /// Makes a live object around a fresh streaming reservoir.
    pub fn stream(samples: usize) -> (s: Self)
        ensures
            s.wf(),
            s matches SummaryStruct::Stream(st) && st.is_fresh(samples),
    {
        SummaryStruct::Stream(Streamstats::new(samples))
    }

    /// Records an observation and never fails. On the histogram variant
    /// all of timestamp, value and weight are honored. On the streaming
    /// variant a single sample of `value` is recorded: the reservoir is
    /// unweighted and untimed by design, so `time` and `count` are
    /// deliberately ignored rather than expanded into repeated inserts.
    pub fn increment(&mut self, time: u64, value: u64, count: u32)
        requires
            old(self).wf(),
        ensures
            final(self).wf(),
            (*old(self)) matches SummaryStruct::Heatmap(h0) ==> ((*final(self))
                matches SummaryStruct::Heatmap(h1) && h1.max_spec() == h0.max_spec()
                && h1.width() == h0.width() && h1.res() == h0.res() && h1.buckets()
                == h0.buckets() && h1.window_count() == h0.window_count() && h1.epoch_spec()
                == step_epoch(h0.epoch_spec(), time, h0.res()) && h1.grid() == step_grid(
                h0.grid(),
                h0.epoch_spec(),
                time,
                h0.res(),
                h0.buckets() as nat,
                bucket_of(value, h0.width(), h0.buckets()),
                count as u64,
            )),
            (*old(self)) matches SummaryStruct::Stream(s0) ==> ((*final(self))
                matches SummaryStruct::Stream(s1) && s1.cap() == s0.cap() && s1@ == stream_insert(
                s0@,
                s0.cap() as int,
                value,
            )),
    {
        match self {
            SummaryStruct::Heatmap(h) => h.increment(time, value, count),
            SummaryStruct::Stream(s) => s.insert(value),
        }
    }

    /// Returns the active backend's percentile estimate. For either
    /// variant the query fails with `InvalidPercentile` exactly when `p`
    /// is out of range and with `InsufficientData` exactly when nothing
    /// has been recorded; otherwise the backend's own answer, pinned by
    /// its `percentile_post`, is returned. A histogram answer never
    /// exceeds the histogram's declared value bound.
    pub fn percentile(&self, p: i64) -> (r: Result<u64, SummaryError>)
        requires
            self.wf(),
        ensures
            r == Err::<u64, SummaryError>(SummaryError::InvalidPercentile) <==> !valid_percentile(
                p,
            ),
            r == Err::<u64, SummaryError>(SummaryError::InsufficientData) <==> (valid_percentile(p)
                && !self.has_data()),
            r is Ok <==> (valid_percentile(p) && self.has_data()),
            self matches SummaryStruct::Heatmap(h) ==> (r matches Ok(v) ==> h.percentile_post(
                p,
                v,
            ) && v <= h.max_spec()),
            self matches SummaryStruct::Stream(s) ==> (r matches Ok(v) ==> s.percentile_post(
                p,
                v,
            )),
    {
        match self {
            SummaryStruct::Heatmap(h) => {
                proof {
                    h.lemma_total_nonneg();
                }
                h.percentile(p)
            },
            SummaryStruct::Stream(s) => s.percentile(p),
        }
    }
}

/// The immutable configuration descriptor: which backend kind a
/// statistic wants, with the construction parameters, recorded verbatim
/// and validated by nobody until the backend itself is exercised.
#[derive(Clone, Copy, Debug, PartialEq, Eq, Structural)]
pub struct Summary {
    inner: SummaryType,
}

/// What a live object built from a descriptor looks like: the matching
/// variant, holding a fresh backend made from the stored parameters.
pub open spec fn built_from(d: Summary, s: SummaryStruct) -> bool {
    match d.inner_spec() {
        SummaryType::Heatmap(max, precision, windows, resolution) => s
            matches SummaryStruct::Heatmap(h) && h.is_fresh(max, precision, windows, resolution),
        SummaryType::Stream(samples) => s matches SummaryStruct::Stream(st) && st.is_fresh(
            samples,
        ),
    }
}

impl Summary {
    /// The stored parameter bundle.
    pub closed spec fn inner_spec(self) -> SummaryType {
        self.inner
    }

    /// Declares a windowed-histogram statistic; the parameters are
    /// recorded verbatim and nothing is allocated until `build`.
    pub fn heatmap(max: u64, precision: u8, windows: usize, resolution: u64) -> (d: Summary)
        ensures
            d.inner_spec() == SummaryType::Heatmap(max, precision, windows, resolution),
    {
        Summary { inner: SummaryType::Heatmap(max, precision, windows, resolution) }
    }

    /// Declares a streaming-reservoir statistic with the given sample
    /// capacity; nothing is allocated until `build`.
    pub fn stream(samples: usize) -> (d: Summary)
        ensures
            d.inner_spec() == SummaryType::Stream(samples),
    {
        Summary { inner: SummaryType::Stream(samples) }
    }

    /// Allocates a fresh live backend from the stored parameters and
    /// wraps it in the matching dispatch variant. The descriptor is not
    /// consumed: every call yields an independent object whose state is
    /// determined by the descriptor alone.
    pub fn build(&self) -> (s: SummaryStruct)
        ensures
            s.wf(),
            built_from(*self, s),
    {
        match &self.inner {
            SummaryType::Heatmap(max, precision, windows, resolution) => SummaryStruct::heatmap(
                *max,
                *precision,
                *windows,
                *resolution,
            ),
            SummaryType::Stream(samples) => SummaryStruct::stream(*samples),
        }
    }
}

/// A live object fresh out of `build` holds no observations, whichever
/// kind the descriptor asked for: its first percentile query reports the
/// absence of data rather than a made-up number.
pub proof fn lemma_built_object_is_empty(d: Summary, s: SummaryStruct)
    requires
        built_from(d, s),
    ensures
        !s.has_data(),
{
    match d.inner_spec() {
        SummaryType::Heatmap(max, precision, windows, resolution) => {
            let h = s->Heatmap_0;
            h.lemma_wf_facts();
            lemma_zero_grid_cum(
                h.window_count() as nat,
                h.buckets() as nat,
                h.buckets() - 1,
            );
        },
        SummaryType::Stream(samples) => {},
    }
}

/// Two `build` calls from one descriptor yield live objects in exactly
/// the same state: the fresh state is a function of the descriptor
/// alone. Since each build hands back a separately owned value, a
/// recording into one can never change what a percentile query on the
/// other observes.
pub proof fn lemma_builds_are_independent(d: Summary, s1: SummaryStruct, s2: SummaryStruct)
    requires
        built_from(d, s1),
        built_from(d, s2),
    ensures
        s1 matches SummaryStruct::Heatmap(h1) ==> (s2 matches SummaryStruct::Heatmap(h2)
            && h1.grid() == h2.grid() && h1.epoch_spec() == h2.epoch_spec() && h1.max_spec()
            == h2.max_spec() && h1.width() == h2.width() && h1.res() == h2.res() && h1.buckets()
            == h2.buckets()),
        s1 matches SummaryStruct::Stream(t1) ==> (s2 matches SummaryStruct::Stream(t2) && t1@
            == t2@ && t1.cap() == t2.cap()),
        !s1.has_data() && !s2.has_data(),
{
    lemma_built_object_is_empty(d, s1);
    lemma_built_object_is_empty(d, s2);
}

} // verus!
