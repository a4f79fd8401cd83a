//! Loader for a single run: record translation, per-series staging, and
//! publication into the shared per-run commit.

use vstd::prelude::*;
use crate::commit::{
    into_blob_sequence_spec, into_scalar_spec, point_views, store_put, BlobSequenceValue,
    CommitPoint, CommitPointView, RunData, RunDataView, ScalarValue,
};
use crate::record::{
    clone_bytes, event_views, graphs_plugin, graphs_plugin_spec, record_views, run_graph_tag,
    run_graph_tag_spec, scalars_plugin, scalars_plugin_spec, tagged_run_metadata_plugin,
    tagged_run_metadata_plugin_spec, Event,
    EventValue, EventValueView, EventView, PluginData, PluginDataView, StageValue, StageValueView,
    Summary, SummaryMetadata, SummaryMetadataView, SummaryValuePayload, SummaryValuePayloadView,
    SummaryValueRecord, SummaryValueRecordView, What, WhatView,
};
use crate::reservoir::{
    pair_views, sample_seq, ReservoirView, StageReservoir, RNG_SEED,
};
use crate::types::{
    assoc_find, bytes_eq, bytes_lt, data_class_of, distinct_keys, lemma_assoc_find, DataClass,
    Step, Tag, WallTime,
};

verus! {

/// Reservoir capacity for a data class.
pub open spec fn capacity_for(c: DataClass) -> int {
    match c {
        DataClass::Scalar => 1000,
        DataClass::Tensor => 100,
        DataClass::BlobSequence => 10,
        DataClass::Unknown => 0,
    }
}

/// Staged state of one time series: the data class and metadata captured at
/// first sight, and the reservoir of staged samples.
#[derive(Debug)]
pub struct StageTimeSeries {
    pub data_class: DataClass,
    pub metadata: SummaryMetadata,
    pub rsv: StageReservoir<StageValue>,
}

#[verifier::ext_equal]
pub struct StageTimeSeriesView {
    pub data_class: DataClass,
    pub metadata: SummaryMetadataView,
    pub rsv: ReservoirView<StageValueView>,
}

impl View for StageTimeSeries {
    type V = StageTimeSeriesView;

    open spec fn view(&self) -> StageTimeSeriesView {
        StageTimeSeriesView { data_class: self.data_class, metadata: self.metadata@, rsv: self.rsv@ }
    }
}

/// A fresh series for metadata first sighted: class decoded from the
/// metadata, capacity fixed by the class, reservoir empty.
pub open spec fn series_new_spec(md: SummaryMetadataView) -> StageTimeSeriesView {
    let dc = data_class_of(md.data_class);
    StageTimeSeriesView {
        data_class: dc,
        metadata: md,
        rsv: ReservoirView {
            capacity: capacity_for(dc),
            retained: Seq::empty(),
            staged: Seq::empty(),
            rng: RNG_SEED,
        },
    }
}

/// The class and capacity agree with the captured metadata, and the
/// reservoir is internally consistent.
pub open spec fn series_well_formed(s: StageTimeSeriesView) -> bool {
    &&& crate::reservoir::sorted_by_step(s.rsv.retained)
    &&& s.rsv.retained.len() <= s.rsv.capacity
    &&& s.data_class == data_class_of(s.metadata.data_class)
    &&& s.rsv.capacity == capacity_for(s.data_class)
}

/// The retained population once the staged offers are merged.
pub open spec fn series_retained_after(s: StageTimeSeriesView) -> Seq<(Step, StageValueView)> {
    sample_seq(s.rsv.capacity, s.rsv.retained, s.rsv.rng, s.rsv.staged).0
}

/// The series once its reservoir has run the sampling pass. Only the stored
/// classes drain their stage buffer; tensor and unknown series are left as
/// they are.
pub open spec fn series_after_commit(s: StageTimeSeriesView) -> StageTimeSeriesView {
    if s.data_class == DataClass::Scalar || s.data_class == DataClass::BlobSequence {
        StageTimeSeriesView {
            rsv: ReservoirView {
                capacity: s.rsv.capacity,
                retained: series_retained_after(s),
                staged: Seq::empty(),
                rng: sample_seq(s.rsv.capacity, s.rsv.retained, s.rsv.rng, s.rsv.staged).1,
            },
            ..s
        }
    } else {
        s
    }
}

/// Retained samples projected to scalar commit points.
pub open spec fn scalar_points_spec(items: Seq<(Step, StageValueView)>) -> Seq<
    CommitPointView<ScalarValue>,
> {
    items.map(
        |i: int, p: (Step, StageValueView)|
            CommitPointView {
                step: p.0,
                wall_time: p.1.wall_time,
                value: into_scalar_spec(p.1.payload),
            },
    )
}

/// Retained samples projected to blob-sequence commit points.
pub open spec fn blob_points_spec(items: Seq<(Step, StageValueView)>) -> Seq<
    CommitPointView<Seq<Seq<u8>>>,
> {
    items.map(
        |i: int, p: (Step, StageValueView)|
            CommitPointView {
                step: p.0,
                wall_time: p.1.wall_time,
                value: into_blob_sequence_spec(p.1.payload),
            },
    )
}

/// The run storage after one series commits under `tag`: the store of the
/// series' class receives the projected retained samples; tensor series
/// are flagged and dropped, unknown series are ignored.
pub open spec fn commit_series_spec(
    rd: RunDataView,
    tag: Seq<u8>,
    s: StageTimeSeriesView,
) -> RunDataView {
    match s.data_class {
        DataClass::Scalar => RunDataView {
            scalars: store_put(
                rd.scalars,
                tag,
                s.metadata,
                scalar_points_spec(series_retained_after(s)),
            ),
            ..rd
        },
        DataClass::BlobSequence => RunDataView {
            blob_sequences: store_put(
                rd.blob_sequences,
                tag,
                s.metadata,
                blob_points_spec(series_retained_after(s)),
            ),
            ..rd
        },
        _ => rd,
    }
}

/// Projects retained samples to scalar commit points.
fn scalar_points(items: &Vec<(Step, StageValue)>) -> (pts: Vec<CommitPoint<ScalarValue>>)
    ensures
        point_views(pts@) == scalar_points_spec(pair_views(items@)),
{
    let mut pts: Vec<CommitPoint<ScalarValue>> = Vec::new();
    let mut i: usize = 0;
    while i < items.len()
        invariant
            i <= items.len(),
            pts@.len() == i,
            forall|j: int| 0 <= j < i ==> pts@[j]@ == scalar_points_spec(pair_views(items@))[j],
        decreases items.len() - i,
    {
        let sv = items[i].1.duplicate();
        let value = sv.payload.into_scalar();
        pts.push(CommitPoint { step: items[i].0, wall_time: sv.wall_time, value });
        proof {
            assert(pair_views(items@)[i as int] == (items@[i as int].0, items@[i as int].1@));
        }
        i += 1;
    }
    proof {
        assert(point_views(pts@) =~= scalar_points_spec(pair_views(items@)));
    }
    pts
}

/// Projects retained samples to blob-sequence commit points.
fn blob_points(items: &Vec<(Step, StageValue)>) -> (pts: Vec<CommitPoint<BlobSequenceValue>>)
    ensures
        point_views(pts@) == blob_points_spec(pair_views(items@)),
{
    let mut pts: Vec<CommitPoint<BlobSequenceValue>> = Vec::new();
    let mut i: usize = 0;
    while i < items.len()
        invariant
            i <= items.len(),
            pts@.len() == i,
            forall|j: int| 0 <= j < i ==> pts@[j]@ == blob_points_spec(pair_views(items@))[j],
        decreases items.len() - i,
    {
        let sv = items[i].1.duplicate();
        let value = sv.payload.into_blob_sequence();
        pts.push(CommitPoint { step: items[i].0, wall_time: sv.wall_time, value });
        proof {
            assert(pair_views(items@)[i as int] == (items@[i as int].0, items@[i as int].1@));
            assert(pts@[i as int]@ =~~= blob_points_spec(pair_views(items@))[i as int]);
        }
        i += 1;
    }
    proof {
        assert(point_views(pts@) =~= blob_points_spec(pair_views(items@)));
    }
    pts
}

impl StageTimeSeries {
    /// Creates the series for metadata seen at a tag's first sighting.
    pub fn new(metadata: SummaryMetadata) -> (r: Self)
        ensures
            series_well_formed(r@),
            r@ == series_new_spec(metadata@),
    {
        let data_class = DataClass::from_code(metadata.data_class);
        let capacity: usize = match data_class {
            DataClass::Scalar => 1000,
            DataClass::Tensor => 100,
            DataClass::BlobSequence => 10,
            DataClass::Unknown => 0,
        };
        let r = StageTimeSeries { data_class, metadata, rsv: StageReservoir::new(capacity) };
        proof {
            assert(r@ =~= series_new_spec(r.metadata@));
        }
        r
    }

    /// Writes all staged data for this series into the commit: a sampling
    /// pass, then a projection of the retained samples into the store of
    /// the series' class. The sink pins the first-sighted metadata.
    pub fn commit(&mut self, tag: &Tag, run: &mut RunData)
        requires
            series_well_formed(old(self)@),
            old(run).well_formed(),
        ensures
            series_well_formed(final(self)@),
            final(run).well_formed(),
            final(self)@ == series_after_commit(old(self)@),
            final(run)@ == commit_series_spec(old(run)@, tag@, old(self)@),
    {
        match self.data_class {
            DataClass::Scalar => {
                self.rsv.commit();
                let pts = scalar_points(self.rsv.retained());
                run.scalars.put_series(tag, &self.metadata, pts);
                proof {
                    assert(self@ =~= series_after_commit(old(self)@));
                    assert(run@ =~= commit_series_spec(old(run)@, tag@, old(self)@));
                }
            },
            DataClass::BlobSequence => {
                self.rsv.commit();
                let pts = blob_points(self.rsv.retained());
                run.blob_sequences.put_series(tag, &self.metadata, pts);
                proof {
                    assert(self@ =~= series_after_commit(old(self)@));
                    assert(run@ =~= commit_series_spec(old(run)@, tag@, old(self)@));
                }
            },
            DataClass::Tensor => {
                // Tensor time series are not stored yet: the samples stay
                // staged and nothing reaches the commit.
            },
            DataClass::Unknown => {},
        }
    }
}

/// The smaller of a current minimum and a record's (possibly absent) wall
/// time, under the rule that an absent value changes nothing and an absent
/// minimum counts as infinite.
pub open spec fn merge_min(cur: Option<WallTime>, wt: Option<WallTime>) -> Option<WallTime> {
    match wt {
        Option::None => cur,
        Option::Some(w) => match cur {
            Option::None => Option::Some(w),
            Option::Some(c) => if w.0 < c.0 {
                Option::Some(w)
            } else {
                Option::Some(c)
            },
        },
    }
}

/// The minimum valid wall time over a history of records, or nothing if no
/// record carried a valid wall time.
pub open spec fn min_wall(events: Seq<EventView>) -> Option<WallTime>
    decreases events.len(),
{
    if events.len() == 0 {
        Option::None
    } else {
        merge_min(min_wall(events.drop_last()), events.last().wall_time)
    }
}

/// Data staged by a run loader between commits: the earliest wall time seen
/// and the per-tag staged series, keyed in first-sight order. A ghost
/// history of every record handed to `read_event` supports the start-time
/// invariant.
pub struct RunLoaderData {
    pub start_time: Option<WallTime>,
    series: Vec<(Tag, StageTimeSeries)>,
    events: Ghost<Seq<EventView>>,
}

#[verifier::ext_equal]
pub struct RunLoaderDataView {
    pub start_time: Option<WallTime>,
    pub series: Seq<(Seq<u8>, StageTimeSeriesView)>,
    pub events: Seq<EventView>,
}

impl View for RunLoaderData {
    type V = RunLoaderDataView;

    closed spec fn view(&self) -> RunLoaderDataView {
        RunLoaderDataView {
            start_time: self.start_time,
            series: self.series@.map(|i: int, e: (Tag, StageTimeSeries)| (e.0@, e.1@)),
            events: self.events@,
        }
    }
}

/// Tags are distinct, every series is internally consistent, and the start
/// time is exactly the minimum valid wall time ever observed.
pub open spec fn data_well_formed(d: RunLoaderDataView) -> bool {
    &&& distinct_keys(d.series)
    &&& forall|k: int| 0 <= k < d.series.len() ==> series_well_formed(#[trigger] d.series[k].1)
    &&& d.start_time == min_wall(d.events)
}

/// Canonical metadata for the synthetic run-graph series.
pub open spec fn graph_metadata_spec() -> SummaryMetadataView {
    SummaryMetadataView {
        plugin_data: Option::Some(
            PluginDataView { plugin_name: graphs_plugin_spec(), content: Seq::empty() },
        ),
        data_class: 3,
    }
}

/// Canonical metadata for a tagged-run-metadata series.
pub open spec fn tagged_run_metadata_metadata_spec() -> SummaryMetadataView {
    SummaryMetadataView {
        plugin_data: Option::Some(
            PluginDataView {
                plugin_name: tagged_run_metadata_plugin_spec(),
                content: Seq::empty(),
            },
        ),
        data_class: 3,
    }
}

/// Metadata captured for a summary value first sighted: the supplied
/// descriptor as it stands when it names a known class, and otherwise the
/// descriptor enriched with the class the payload variant implies (a plain
/// scalar additionally names the scalar plugin).
pub open spec fn initial_metadata_spec(
    md: Option<SummaryMetadataView>,
    p: SummaryValuePayloadView,
) -> SummaryMetadataView {
    let base = match md {
        Option::Some(m) => m,
        Option::None => SummaryMetadataView { plugin_data: Option::None, data_class: 0 },
    };
    if data_class_of(base.data_class) != DataClass::Unknown {
        base
    } else {
        let dc: i32 = match p {
            SummaryValuePayloadView::SimpleValue(_) => 1,
            SummaryValuePayloadView::Tensor(_) => 2,
            SummaryValuePayloadView::BlobSequence(_) => 3,
        };
        let pd = if base.plugin_data is None && p is SimpleValue {
            Option::Some(
                PluginDataView { plugin_name: scalars_plugin_spec(), content: Seq::empty() },
            )
        } else {
            base.plugin_data
        };
        SummaryMetadataView { plugin_data: pd, data_class: dc }
    }
}

/// One sample routed to `tag`: the tag's series (created on first sight
/// from `md`) receives the offer in its stage buffer.
pub open spec fn stage_spec(
    d: RunLoaderDataView,
    tag: Seq<u8>,
    md: SummaryMetadataView,
    step: i64,
    wt: WallTime,
    payload: EventValueView,
) -> RunLoaderDataView {
    let sv = StageValueView { wall_time: wt, payload };
    let i = assoc_find(d.series, tag);
    if i >= 0 {
        let s = d.series[i].1;
        let s2 = StageTimeSeriesView {
            rsv: ReservoirView { staged: s.rsv.staged.push((Step(step), sv)), ..s.rsv },
            ..s
        };
        RunLoaderDataView { series: d.series.update(i, (tag, s2)), ..d }
    } else {
        let s = series_new_spec(md);
        let s2 = StageTimeSeriesView {
            rsv: ReservoirView { staged: seq![(Step(step), sv)], ..s.rsv },
            ..s
        };
        RunLoaderDataView { series: d.series.push((tag, s2)), ..d }
    }
}

/// The values of one summary record staged in turn; values without a
/// payload are skipped.
pub open spec fn stage_summary_spec(
    d: RunLoaderDataView,
    step: i64,
    wt: WallTime,
    vals: Seq<SummaryValueRecordView>,
) -> RunLoaderDataView
    decreases vals.len(),
{
    if vals.len() == 0 {
        d
    } else {
        let v0 = vals[0];
        let d2 = match v0.value {
            Option::None => d,
            Option::Some(p) => stage_spec(
                d,
                v0.tag,
                initial_metadata_spec(v0.metadata, p),
                step,
                wt,
                EventValueView::Summary(p),
            ),
        };
        stage_summary_spec(d2, step, wt, vals.skip(1))
    }
}

/// One record read and staged: the record joins the observed history; a
/// record without a valid wall time is dropped; otherwise the start time
/// absorbs the wall time and the payload is routed by variant. A graph is
/// staged under the synthetic graph tag, tagged run metadata under its own
/// tag, each summary value under its tag; version markers and unrecognised
/// variants leave only the start time updated.
pub open spec fn read_event_spec(d: RunLoaderDataView, e: EventView) -> RunLoaderDataView {
    let d0 = RunLoaderDataView { events: d.events.push(e), ..d };
    match e.wall_time {
        Option::None => d0,
        Option::Some(wt) => {
            let d1 = RunLoaderDataView {
                start_time: merge_min(d0.start_time, Option::Some(wt)),
                ..d0
            };
            match e.what {
                Option::None => d1,
                Option::Some(WhatView::FileVersion(_)) => d1,
                Option::Some(WhatView::GraphDef(b)) => stage_spec(
                    d1,
                    run_graph_tag_spec(),
                    graph_metadata_spec(),
                    e.step,
                    wt,
                    EventValueView::GraphDef(b),
                ),
                Option::Some(WhatView::TaggedRunMetadata(tag, bytes)) => stage_spec(
                    d1,
                    tag,
                    tagged_run_metadata_metadata_spec(),
                    e.step,
                    wt,
                    EventValueView::GraphDef(bytes),
                ),
                Option::Some(WhatView::Summary(vals)) => stage_summary_spec(d1, e.step, wt, vals),
            }
        },
    }
}

/// A whole stream of records read in order.
pub open spec fn read_records_spec(d: RunLoaderDataView, records: Seq<EventView>) -> RunLoaderDataView
    decreases records.len(),
{
    if records.len() == 0 {
        d
    } else {
        read_records_spec(read_event_spec(d, records[0]), records.skip(1))
    }
}

/// The run storage after every staged series commits in key order,
/// starting from the storage with the loader's start time written.
pub open spec fn commit_fold(
    series: Seq<(Seq<u8>, StageTimeSeriesView)>,
    rd: RunDataView,
) -> RunDataView
    decreases series.len(),
{
    if series.len() == 0 {
        rd
    } else {
        commit_fold(series.skip(1), commit_series_spec(rd, series[0].0, series[0].1))
    }
}

/// A whole-cycle commit: overwrite the start time, then commit every
/// staged series.
pub open spec fn commit_all_spec(d: RunLoaderDataView, rd: RunDataView) -> RunDataView {
    commit_fold(d.series, RunDataView { start_time: d.start_time, ..rd })
}

/// The staged data once every series has run its sampling pass.
pub open spec fn data_after_commit_spec(d: RunLoaderDataView) -> RunLoaderDataView {
    RunLoaderDataView {
        series: d.series.map(
            |i: int, e: (Seq<u8>, StageTimeSeriesView)| (e.0, series_after_commit(e.1)),
        ),
        ..d
    }
}

/// Builds the canonical metadata for the synthetic run-graph series.
fn graph_metadata() -> (md: SummaryMetadata)
    ensures
        md@ == graph_metadata_spec(),
{
    let md = SummaryMetadata {
        plugin_data: Option::Some(PluginData { plugin_name: graphs_plugin(), content: Vec::new() }),
        data_class: 3,
    };
    proof {
        assert(md@ =~= graph_metadata_spec());
    }
    md
}

/// Builds the canonical metadata for a tagged-run-metadata series.
fn tagged_run_metadata_metadata() -> (md: SummaryMetadata)
    ensures
        md@ == tagged_run_metadata_metadata_spec(),
{
    let md = SummaryMetadata {
        plugin_data: Option::Some(
            PluginData { plugin_name: tagged_run_metadata_plugin(), content: Vec::new() },
        ),
        data_class: 3,
    };
    proof {
        assert(md@ =~= tagged_run_metadata_metadata_spec());
    }
    md
}

/// Builds the metadata captured at a summary value's first sighting.
fn initial_metadata(md: &Option<SummaryMetadata>, p: &SummaryValuePayload) -> (r: SummaryMetadata)
    ensures
        r@ == initial_metadata_spec(
            match md {
                Option::Some(m) => Option::Some(m@),
                Option::None => Option::<SummaryMetadataView>::None,
            },
            p@,
        ),
{
    let base = match md {
        Option::Some(m) => m.duplicate(),
        Option::None => SummaryMetadata { plugin_data: Option::None, data_class: 0 },
    };
    let r = if !matches!(DataClass::from_code(base.data_class), DataClass::Unknown) {
        base
    } else {
        let dc: i32 = match p {
            SummaryValuePayload::SimpleValue(_) => 1,
            SummaryValuePayload::Tensor(_) => 2,
            SummaryValuePayload::BlobSequence(_) => 3,
        };
        let keep_scalar_default = base.plugin_data.is_none() && matches!(
            p,
            SummaryValuePayload::SimpleValue(_),
        );
        let pd = if keep_scalar_default {
            Option::Some(PluginData { plugin_name: scalars_plugin(), content: Vec::new() })
        } else {
            base.plugin_data
        };
        SummaryMetadata { plugin_data: pd, data_class: dc }
    };
    proof {
        assert(r@ =~= initial_metadata_spec(
            match md {
                Option::Some(m) => Option::Some(m@),
                Option::None => Option::<SummaryMetadataView>::None,
            },
            p@,
        ));
    }
    r
}

impl RunLoaderData {
    /// Fresh staging data: nothing observed, no series.
    pub fn new() -> (r: Self)
        ensures
            data_well_formed(r@),
            r@.start_time is None,
            r@.series == Seq::<(Seq<u8>, StageTimeSeriesView)>::empty(),
            r@.events == Seq::<EventView>::empty(),
    {
        let r = RunLoaderData {
            start_time: Option::None,
            series: Vec::new(),
            events: Ghost(Seq::empty()),
        };
        proof {
            assert(r@.series =~= Seq::<(Seq<u8>, StageTimeSeriesView)>::empty());
        }
        r
    }

    /// Routes one sample to its tag, creating the series on first sight.
    #[verifier::loop_isolation(false)]
    fn stage(&mut self, tag: Tag, md: SummaryMetadata, step: Step, wt: WallTime, payload: EventValue)
        requires
            data_well_formed(old(self)@),
        ensures
            data_well_formed(final(self)@),
            final(self)@ == stage_spec(old(self)@, tag@, md@, step.0, wt, payload@),
    {
        let ghost d0 = self@;
        let sv = StageValue { wall_time: wt, payload };
        let mut i: usize = 0;
        while i < self.series.len()
            invariant
                i <= self@.series.len(),
                self@ == d0,
                forall|j: int| 0 <= j < i ==> self@.series[j].0 != tag@,
            decreases self.series.len() - i,
        {
            proof {
                assert(self@.series[i as int] == (self.series@[i as int].0@, self.series@[i as int].1@));
            }
            if bytes_eq(&self.series[i].0.0, &tag.0) {
                proof {
                    lemma_assoc_find(d0.series, tag@);
                    if assoc_find(d0.series, tag@) < 0 {
                        assert(d0.series[i as int].0 != tag@);
                    }
                    assert(assoc_find(d0.series, tag@) == i as int);
                }
                let ghost entries0 = self.series@;
                let mut e = self.series.remove(i);
                e.1.rsv.offer(step, sv);
                self.series.insert(i, e);
                proof {
                    let s = d0.series[i as int].1;
                    let s2 = StageTimeSeriesView {
                        rsv: ReservoirView {
                            staged: s.rsv.staged.push((step, StageValueView { wall_time: wt, payload: payload@ })),
                            ..s.rsv
                        },
                        ..s
                    };
                    assert(e.1@ =~= s2);
                    assert forall|k: int| 0 <= k < self@.series.len() implies self@.series[k]
                        == d0.series.update(i as int, (tag@, s2))[k] by {
                        assert(self@.series[k] == (self.series@[k].0@, self.series@[k].1@));
                        assert(d0.series[k] == (entries0[k].0@, entries0[k].1@));
                    }
                    assert(self@.series =~= d0.series.update(i as int, (tag@, s2)));
                    assert(self@ =~= stage_spec(d0, tag@, md@, step.0, wt, payload@));
                    assert forall|a: int, b: int|
                        0 <= a < b < self@.series.len() implies self@.series[a].0
                        != self@.series[b].0 by {
                        assert(d0.series[a].0 != d0.series[b].0);
                    }
                    assert forall|k: int|
                        0 <= k < self@.series.len() implies series_well_formed(
                        #[trigger] self@.series[k].1) by {
                        assert(series_well_formed(d0.series[k].1));
                    }
                }
                return ;
            }
            i += 1;
        }
        proof {
            lemma_assoc_find(d0.series, tag@);
            if assoc_find(d0.series, tag@) >= 0 {
                assert(d0.series[assoc_find(d0.series, tag@)].0 == tag@);
            }
        }
        let mut ts = StageTimeSeries::new(md);
        ts.rsv.offer(step, sv);
        self.series.push((tag, ts));
        proof {
            let s = series_new_spec(md@);
            let s2 = StageTimeSeriesView {
                rsv: ReservoirView {
                    staged: seq![(step, StageValueView { wall_time: wt, payload: payload@ })],
                    ..s.rsv
                },
                ..s
            };
            assert(ts@ =~= s2);
            assert(self@.series =~= d0.series.push((tag@, s2)));
            assert(self@ =~= stage_spec(d0, tag@, md@, step.0, wt, payload@));
            assert forall|a: int, b: int|
                0 <= a < b < self@.series.len() implies self@.series[a].0 != self@.series[b].0 by {
                if b < d0.series.len() {
                    assert(d0.series[a].0 != d0.series[b].0);
                } else {
                    assert(d0.series[a].0 != tag@);
                }
            }
            assert forall|k: int|
                0 <= k < self@.series.len() implies series_well_formed(
                #[trigger] self@.series[k].1) by {
                if k < d0.series.len() {
                    assert(series_well_formed(d0.series[k].1));
                }
            }
        }
    }

    /// Reads a single record and stages it for future committing.
    #[verifier::loop_isolation(false)]
    pub fn read_event(&mut self, e: &Event)
        requires
            data_well_formed(old(self)@),
        ensures
            data_well_formed(final(self)@),
            final(self)@ == read_event_spec(old(self)@, e@),
    {
        let ghost dpre = self@;
        proof {
            self.events@ = self.events@.push(e@);
        }
        let ghost d0 = self@;
        proof {
            assert(dpre.events.push(e@).drop_last() =~= dpre.events);
            assert(dpre.events.push(e@).last() == e@);
            assert(min_wall(d0.events) == merge_min(min_wall(dpre.events), e@.wall_time));
        }
        let wt = match &e.wall_time {
            Option::None => {
                proof {
                    assert(self@ =~= read_event_spec(dpre, e@));
                }
                return ;
            },
            Option::Some(w) => *w,
        };
        if match &self.start_time {
            Option::None => true,
            Option::Some(c) => wt.0 < c.0,
        } {
            self.start_time = Option::Some(wt);
        }
        let ghost d1 = self@;
        proof {
            assert(d1.start_time == merge_min(dpre.start_time, Option::Some(wt)));
            assert(data_well_formed(d1));
        }
        match &e.what {
            Option::None => {
                proof {
                    assert(self@ =~= read_event_spec(dpre, e@));
                }
            },
            Option::Some(What::FileVersion(_)) => {
                proof {
                    assert(self@ =~= read_event_spec(dpre, e@));
                }
            },
            Option::Some(What::GraphDef(b)) => {
                self.stage(
                    Tag(run_graph_tag()),
                    graph_metadata(),
                    Step(e.step),
                    wt,
                    EventValue::GraphDef(clone_bytes(b)),
                );
                proof {
                    assert(self@ =~= read_event_spec(dpre, e@));
                }
            },
            Option::Some(What::TaggedRunMetadata(t)) => {
                self.stage(
                    Tag(clone_bytes(&t.tag)),
                    tagged_run_metadata_metadata(),
                    Step(e.step),
                    wt,
                    EventValue::GraphDef(clone_bytes(&t.run_metadata)),
                );
                proof {
                    assert(self@ =~= read_event_spec(dpre, e@));
                }
            },
            Option::Some(What::Summary(sum)) => {
                let ghost vals = record_views(sum.value@);
                let mut vi: usize = 0;
                proof {
                    assert(vals.skip(0) =~= vals);
                }
                while vi < sum.value.len()
                    invariant
                        vi <= sum.value.len(),
                        data_well_formed(self@),
                        stage_summary_spec(d1, e.step, wt, vals) == stage_summary_spec(
                            self@,
                            e.step,
                            wt,
                            vals.skip(vi as int),
                        ),
                    decreases sum.value.len() - vi,
                {
                    let v = &sum.value[vi];
                    proof {
                        assert(vals[vi as int] == sum.value@[vi as int]@);
                    }
                    let ghost dstep = self@;
                    match &v.value {
                        Option::None => {},
                        Option::Some(p) => {
                            let m = initial_metadata(&v.metadata, p);
                            self.stage(
                                Tag(clone_bytes(&v.tag)),
                                m,
                                Step(e.step),
                                wt,
                                EventValue::Summary(p.duplicate()),
                            );
                        },
                    }
                    proof {
                        assert(vals.skip(vi as int)[0] == vals[vi as int]);
                        assert(vals.skip(vi as int).skip(1) =~= vals.skip(vi as int + 1));
                    }
                    vi += 1;
                }
                proof {
                    assert(vals.skip(sum.value@.len() as int) =~= Seq::<SummaryValueRecordView>::empty());
                    assert(self@ =~= read_event_spec(dpre, e@));
                }
            },
        }
    }

    /// Commits all staged data into the given run storage: writes the start
    /// time, then commits every series in key order.
    #[verifier::loop_isolation(false)]
    pub fn commit_all(&mut self, run: &mut RunData)
        requires
            data_well_formed(old(self)@),
            old(run).well_formed(),
        ensures
            data_well_formed(final(self)@),
            final(run).well_formed(),
            final(self)@ == data_after_commit_spec(old(self)@),
            final(run)@ == commit_all_spec(old(self)@, old(run)@),
    {
        let ghost d0 = self@;
        run.start_time = self.start_time;
        proof {
            assert(run@ =~= RunDataView { start_time: d0.start_time, ..old(run)@ });
        }
        let mut k: usize = 0;
        proof {
            assert(d0.series.skip(0) =~= d0.series);
        }
        while k < self.series.len()
            invariant
                k <= self@.series.len(),
                self@.series.len() == d0.series.len(),
                self@.start_time == d0.start_time,
                self@.events == d0.events,
                run.well_formed(),
                data_well_formed(self@),
                forall|j: int| k <= j < d0.series.len() ==> self@.series[j] == d0.series[j],
                forall|j: int| 0 <= j < k ==> self@.series[j] == (
                    d0.series[j].0,
                    series_after_commit(d0.series[j].1),
                ),
                commit_fold(
                    d0.series,
                    RunDataView { start_time: d0.start_time, ..old(run)@ },
                ) == commit_fold(d0.series.skip(k as int), run@),
            decreases self.series.len() - k,
        {
            proof {
                assert(self@.series[k as int] == (self.series@[k as int].0@, self.series@[k as int].1@));
            }
            let ghost entries_pre = self.series@;
            let ghost sviews_pre = self@.series;
            let ghost run_pre = run@;
            let mut e = self.series.remove(k);
            e.1.commit(&e.0, run);
            self.series.insert(k, e);
            proof {
                assert(entries_pre[k as int].0@ == d0.series[k as int].0);
                assert(entries_pre[k as int].1@ == d0.series[k as int].1);
                assert(d0.series.skip(k as int)[0] == d0.series[k as int]);
                assert(d0.series.skip(k as int).skip(1) =~= d0.series.skip(k as int + 1));
                assert(run@ == commit_series_spec(run_pre, d0.series[k as int].0, d0.series[k as int].1));
                assert(self.series@ =~= entries_pre.update(k as int, e));
                assert(self@.series[k as int] == (self.series@[k as int].0@, self.series@[k as int].1@));
                assert(self@.series[k as int] == (
                    d0.series[k as int].0,
                    series_after_commit(d0.series[k as int].1),
                ));
                assert forall|j: int|
                    0 <= j < self@.series.len() && j != k as int implies self@.series[j] == (
                    entries_pre[j].0@,
                    entries_pre[j].1@,
                ) by {
                    assert(self@.series[j] == (self.series@[j].0@, self.series@[j].1@));
                    assert(entries_pre[j] == self.series@[j]);
                }
                assert(commit_fold(d0.series.skip(k as int), run_pre) == commit_fold(
                    d0.series.skip(k as int + 1),
                    run@,
                ));
                assert forall|j: int|
                    0 <= j < self@.series.len() implies (#[trigger] self@.series[j]).0
                    == sviews_pre[j].0 && series_well_formed(self@.series[j].1) by {
                    assert(sviews_pre[j] == (entries_pre[j].0@, entries_pre[j].1@));
                    if j != k as int {
                        assert(self@.series[j] == (entries_pre[j].0@, entries_pre[j].1@));
                        assert(series_well_formed(sviews_pre[j].1));
                    } else {
                        assert(sviews_pre[j] == d0.series[j]);
                    }
                }
                assert forall|a: int, b: int|
                    0 <= a < b < self@.series.len() implies self@.series[a].0
                    != self@.series[b].0 by {
                    assert(sviews_pre[a].0 != sviews_pre[b].0);
                }
            }
            k += 1;
        }
        proof {
            assert(d0.series.skip(d0.series.len() as int) =~= Seq::<(Seq<u8>, StageTimeSeriesView)>::empty());
            assert(self@ =~= data_after_commit_spec(d0));
        }
    }
}

/// Name of the training run a loader serves.
#[derive(Debug)]
pub struct Run(pub String);

impl View for Run {
    type V = Seq<char>;

    open spec fn view(&self) -> Seq<char> {
        self.0@
    }
}

/// State of one event file: still readable, or never to be read again. A
/// file becomes dead on a read failure or on leaving the current file list,
/// and a dead file never returns to service.
#[derive(Clone, Copy, Debug, PartialEq, Eq, Structural)]
pub enum EventFile {
    Active,
    Dead,
}

/// How a file's record stream ended this cycle: a well-formed prefix with
/// an incomplete tail (the file stays active and is resumed next cycle), or
/// a terminal read or decode failure (the file is dead).
#[derive(Clone, Copy, Debug, PartialEq, Eq, Structural)]
pub enum ReadTerminal {
    Truncated,
    Failed,
}

/// One file of the current cycle as the caller observed it: its identifier,
/// whether it could be opened (consulted only for files not yet known), the
/// records its reader yielded this cycle, and how the stream ended.
#[derive(Debug)]
pub struct FileInput {
    pub name: Vec<u8>,
    pub opened: bool,
    pub records: Vec<Event>,
    pub terminal: ReadTerminal,
}

#[verifier::ext_equal]
pub struct FileInputView {
    pub name: Seq<u8>,
    pub opened: bool,
    pub records: Seq<EventView>,
    pub terminal: ReadTerminal,
}

impl View for FileInput {
    type V = FileInputView;

    open spec fn view(&self) -> FileInputView {
        FileInputView {
            name: self.name@,
            opened: self.opened,
            records: event_views(self.records@),
            terminal: self.terminal,
        }
    }
}

/// The views of the cycle's file inputs, in order.
pub open spec fn input_views(s: Seq<FileInput>) -> Seq<FileInputView> {
    s.map(|i: int, f: FileInput| f@)
}

/// The views of the loader's file entries, in order.
pub open spec fn file_views(s: Seq<(Vec<u8>, EventFile)>) -> Seq<(Seq<u8>, EventFile)> {
    s.map(|i: int, e: (Vec<u8>, EventFile)| (e.0@, e.1))
}

/// The first input carrying `name`, or a negative answer.
pub open spec fn input_find(inputs: Seq<FileInputView>, name: Seq<u8>) -> int
    decreases inputs.len(),
{
    if inputs.len() == 0 {
        -1
    } else if inputs[0].name == name {
        0
    } else {
        let r = input_find(inputs.skip(1), name);
        if r < 0 {
            -1
        } else {
            r + 1
        }
    }
}

/// What `input_find` answers.
pub proof fn lemma_input_find(inputs: Seq<FileInputView>, name: Seq<u8>)
    ensures
        input_find(inputs, name) >= 0 ==> input_find(inputs, name) < inputs.len() && inputs[
            input_find(inputs, name)
        ].name == name,
        input_find(inputs, name) < 0 ==> (forall|j: int|
            0 <= j < inputs.len() ==> inputs[j].name != name),
    decreases inputs.len(),
{
    if inputs.len() == 0 {
    } else if inputs[0].name == name {
    } else {
        lemma_input_find(inputs.skip(1), name);
        let r = input_find(inputs.skip(1), name);
        if r >= 0 {
            assert(inputs[r + 1] == inputs.skip(1)[r]);
        } else {
            assert forall|j: int| 0 <= j < inputs.len() implies inputs[j].name != name by {
                if j >= 1 {
                    assert(inputs.skip(1)[j - 1].name != name);
                    assert(inputs[j] == inputs.skip(1)[j - 1]);
                }
            }
        }
    }
}

/// Keys strictly increase in lexicographic order.
pub open spec fn files_sorted(files: Seq<(Seq<u8>, EventFile)>) -> bool {
    forall|i: int, j: int|
        0 <= i < j < files.len() ==> crate::types::lex_less(files[i].0, files[j].0)
}

/// Every known file missing from the current list becomes dead; the rest
/// keep their state.
pub open spec fn mark_dead_spec(
    files: Seq<(Seq<u8>, EventFile)>,
    inputs: Seq<FileInputView>,
) -> Seq<(Seq<u8>, EventFile)> {
    Seq::new(
        files.len(),
        |k: int|
            if input_find(inputs, files[k].0) >= 0 {
                files[k]
            } else {
                (files[k].0, EventFile::Dead)
            },
    )
}

/// A new entry placed at its lexicographic position.
pub open spec fn file_insert_spec(
    files: Seq<(Seq<u8>, EventFile)>,
    name: Seq<u8>,
    st: EventFile,
) -> Seq<(Seq<u8>, EventFile)>
    decreases files.len(),
{
    if files.len() == 0 {
        seq![(name, st)]
    } else if crate::types::lex_less(files.last().0, name) {
        files.push((name, st))
    } else {
        file_insert_spec(files.drop_last(), name, st).push(files.last())
    }
}

/// Placing a new key is a positional insertion.
pub proof fn lemma_file_insert_positional(
    files: Seq<(Seq<u8>, EventFile)>,
    name: Seq<u8>,
    st: EventFile,
    pos: int,
)
    requires
        0 <= pos <= files.len(),
        forall|j: int| 0 <= j < pos ==> crate::types::lex_less(files[j].0, name),
        forall|j: int| pos <= j < files.len() ==> crate::types::lex_less(name, files[j].0),
    ensures
        file_insert_spec(files, name, st) == files.insert(pos, (name, st)),
    decreases files.len(),
{
    if files.len() == 0 {
        assert(seq![(name, st)] =~= files.insert(0, (name, st)));
    } else if pos == files.len() {
        assert(crate::types::lex_less(files.last().0, name));
        assert(files.push((name, st)) =~= files.insert(pos, (name, st)));
    } else {
        assert(crate::types::lex_less(name, files[files.len() - 1].0));
        crate::types::lemma_lex_trichotomy(files.last().0, name);
        lemma_file_insert_positional(files.drop_last(), name, st, pos);
        assert(files.drop_last().insert(pos, (name, st)).push(files.last()) =~= files.insert(
            pos,
            (name, st),
        ));
    }
}

/// One current file reconciled: a known identifier is left untouched
/// whatever its state; a new one enters at its ordered position, active if
/// it opened and dead otherwise.
pub open spec fn add_one_spec(
    files: Seq<(Seq<u8>, EventFile)>,
    inp: FileInputView,
) -> Seq<(Seq<u8>, EventFile)> {
    if assoc_find(files, inp.name) >= 0 {
        files
    } else {
        file_insert_spec(
            files,
            inp.name,
            if inp.opened {
                EventFile::Active
            } else {
                EventFile::Dead
            },
        )
    }
}

/// The whole current list reconciled, in list order.
pub open spec fn add_files_spec(
    files: Seq<(Seq<u8>, EventFile)>,
    inputs: Seq<FileInputView>,
) -> Seq<(Seq<u8>, EventFile)>
    decreases inputs.len(),
{
    if inputs.len() == 0 {
        files
    } else {
        add_files_spec(add_one_spec(files, inputs[0]), inputs.skip(1))
    }
}

/// File-set reconciliation: absent files become dead, then new files are
/// entered.
pub open spec fn update_files_spec(
    files: Seq<(Seq<u8>, EventFile)>,
    inputs: Seq<FileInputView>,
) -> Seq<(Seq<u8>, EventFile)> {
    add_files_spec(mark_dead_spec(files, inputs), inputs)
}

/// The files and staged data after the reading phase of one cycle, having
/// consumed the entries from position `k` on: each active file's records
/// are read in stream order, files in key order, and a file whose stream
/// ended in a failure is dead afterwards.
pub open spec fn read_files_spec(
    files: Seq<(Seq<u8>, EventFile)>,
    inputs: Seq<FileInputView>,
    d: RunLoaderDataView,
    k: int,
) -> (Seq<(Seq<u8>, EventFile)>, RunLoaderDataView)
    decreases files.len() - k,
{
    if k < 0 || files.len() <= k {
        (files, d)
    } else {
        let entry = files[k];
        if entry.1 == EventFile::Active && input_find(inputs, entry.0) >= 0 {
            let inp = inputs[input_find(inputs, entry.0)];
            let d2 = read_records_spec(d, inp.records);
            let files2 = if inp.terminal == ReadTerminal::Failed {
                files.update(k, (entry.0, EventFile::Dead))
            } else {
                files
            };
            read_files_spec(files2, inputs, d2, k + 1)
        } else {
            read_files_spec(files, inputs, d, k + 1)
        }
    }
}

/// A loader to accumulate reservoir-sampled records for a single run: the
/// known event files in key order, the record checksum switch handed to
/// newly opened readers, and the staged data.
pub struct RunLoader {
    run: Run,
    files: Vec<(Vec<u8>, EventFile)>,
    checksum: bool,
    pub data: RunLoaderData,
}

#[verifier::ext_equal]
pub struct RunLoaderView {
    pub run: Seq<char>,
    pub files: Seq<(Seq<u8>, EventFile)>,
    pub checksum: bool,
    pub data: RunLoaderDataView,
}

impl View for RunLoader {
    type V = RunLoaderView;

    closed spec fn view(&self) -> RunLoaderView {
        RunLoaderView {
            run: self.run.0@,
            files: file_views(self.files@),
            checksum: self.checksum,
            data: self.data@,
        }
    }
}

/// The file keys are strictly ordered and the staged data is consistent.
pub open spec fn loader_well_formed(l: RunLoaderView) -> bool {
    &&& files_sorted(l.files)
    &&& data_well_formed(l.data)
}

impl RunLoader {
    /// A fresh loader: no files known, nothing staged, checksums on.
    pub fn new(run: Run) -> (r: Self)
        ensures
            loader_well_formed(r@),
            r@.run == run@,
            r@.files == Seq::<(Seq<u8>, EventFile)>::empty(),
            r@.checksum == true,
            r@.data.start_time is None,
            r@.data.series == Seq::<(Seq<u8>, StageTimeSeriesView)>::empty(),
            r@.data.events == Seq::<EventView>::empty(),
    {
        let r = RunLoader { run, files: Vec::new(), checksum: true, data: RunLoaderData::new() };
        proof {
            assert(r@.files =~= Seq::<(Seq<u8>, EventFile)>::empty());
        }
        r
    }

    /// Sets whether readers opened from now on verify record checksums.
    pub fn checksum(&mut self, yes: bool)
        ensures
            final(self)@ == (RunLoaderView { checksum: yes, ..old(self)@ }),
    {
        self.checksum = yes;
        proof {
            assert(self@ =~= RunLoaderView { checksum: yes, ..old(self)@ });
        }
    }

    /// Whether readers opened for new files should verify checksums.
    pub fn checksum_enabled(&self) -> (r: bool)
        ensures
            r == self@.checksum,
    {
        self.checksum
    }


    /// The loader's recorded state for a file identifier, if it is known.
    #[verifier::loop_isolation(false)]
    pub fn file_state(&self, name: &Vec<u8>) -> (r: Option<EventFile>)
        ensures
            assoc_find(self@.files, name@) >= 0 ==> r == Option::Some(
                self@.files[assoc_find(self@.files, name@)].1,
            ),
            assoc_find(self@.files, name@) < 0 ==> r is None,
    {
        let mut k: usize = 0;
        while k < self.files.len()
            invariant
                k <= self@.files.len(),
                forall|j: int| 0 <= j < k ==> self@.files[j].0 != name@,
            decreases self.files.len() - k,
        {
            proof {
                assert(self@.files[k as int] == (self.files@[k as int].0@, self.files@[k as int].1));
            }
            if bytes_eq(&self.files[k].0, name) {
                proof {
                    crate::types::lemma_assoc_find_first(self@.files, name@, k as int);
                }
                return Option::Some(self.files[k].1);
            }
            k += 1;
        }
        proof {
            lemma_assoc_find(self@.files, name@);
            if assoc_find(self@.files, name@) >= 0 {
                assert(self@.files[assoc_find(self@.files, name@)].0 == name@);
            }
        }
        Option::None
    }

    /// The first input carrying `name`, if any.
    #[verifier::loop_isolation(false)]
    fn find_input<'a>(inputs: &'a Vec<FileInput>, name: &Vec<u8>) -> (r: Option<&'a FileInput>)
        ensures
            match r {
                Option::Some(inp) => input_find(input_views(inputs@), name@) >= 0 && inp@
                    == input_views(inputs@)[input_find(input_views(inputs@), name@)],
                Option::None => input_find(input_views(inputs@), name@) < 0,
            },
    {
        let ghost iv = input_views(inputs@);
        let mut j: usize = 0;
        while j < inputs.len()
            invariant
                j <= inputs.len(),
                forall|t: int| 0 <= t < j ==> iv[t].name != name@,
            decreases inputs.len() - j,
        {
            proof {
                assert(iv[j as int] == inputs@[j as int]@);
            }
            if bytes_eq(&inputs[j].name, name) {
                proof {
                    lemma_input_find(iv, name@);
                    if input_find(iv, name@) < 0 {
                        assert(iv[j as int].name != name@);
                    }
                    lemma_input_find_first(iv, name@, j as int);
                }
                return Option::Some(&inputs[j]);
            }
            j += 1;
        }
        proof {
            lemma_input_find(iv, name@);
            if input_find(iv, name@) >= 0 {
                assert(iv[input_find(iv, name@)].name == name@);
            }
        }
        Option::None
    }

    /// Updates the known file set to match the given current list: entries
    /// missing from the list become dead, known entries keep their state
    /// whatever it is, and new names enter at their ordered position,
    /// active exactly when they opened.
    #[verifier::loop_isolation(false)]
    pub fn update_file_set(&mut self, files_now: &Vec<FileInput>)
        requires
            loader_well_formed(old(self)@),
        ensures
            loader_well_formed(final(self)@),
            final(self)@ == (RunLoaderView {
                files: update_files_spec(old(self)@.files, input_views(files_now@)),
                ..old(self)@
            }),
    {
        let ghost files0 = self@.files;
        let ghost iv = input_views(files_now@);
        let ghost marked = mark_dead_spec(files0, iv);
        let mut k: usize = 0;
        while k < self.files.len()
            invariant
                k <= self@.files.len(),
                self@.files.len() == files0.len(),
                self@ == (RunLoaderView { files: self@.files, ..old(self)@ }),
                forall|j: int| 0 <= j < k ==> self@.files[j] == marked[j],
                forall|j: int| k <= j < files0.len() ==> self@.files[j] == files0[j],
            decreases self.files.len() - k,
        {
            proof {
                assert(self@.files[k as int] == (self.files@[k as int].0@, self.files@[k as int].1));
            }
            let ghost entries_pre = self.files@;
            let keep = match Self::find_input(files_now, &self.files[k].0) {
                Option::Some(_) => true,
                Option::None => false,
            };
            if !keep {
                let mut entry = self.files.remove(k);
                entry.1 = EventFile::Dead;
                self.files.insert(k, entry);
                proof {
                    assert(self.files@ =~= entries_pre.update(
                        k as int,
                        (entries_pre[k as int].0, EventFile::Dead),
                    ));
                }
            }
            proof {
                assert forall|j: int|
                    0 <= j < k + 1 implies self@.files[j] == marked[j] by {
                    assert(self@.files[j] == (self.files@[j].0@, self.files@[j].1));
                    if j < k as int {
                        assert(entries_pre[j] == self.files@[j]);
                    }
                }
                assert forall|j: int|
                    k + 1 <= j < files0.len() implies self@.files[j] == files0[j] by {
                    assert(self@.files[j] == (self.files@[j].0@, self.files@[j].1));
                    assert(entries_pre[j] == self.files@[j]);
                }
            }
            k += 1;
        }
        proof {
            assert(self@.files =~= marked);
            assert(files_sorted(marked));
            assert(iv.skip(0) =~= iv);
        }
        let mut j: usize = 0;
        while j < files_now.len()
            invariant
                j <= files_now.len(),
                self@ == (RunLoaderView { files: self@.files, ..old(self)@ }),
                files_sorted(self@.files),
                add_files_spec(marked, iv) == add_files_spec(self@.files, iv.skip(j as int)),
            decreases files_now.len() - j,
        {
            let ghost fv = self@.files;
            proof {
                assert(iv[j as int] == files_now@[j as int]@);
                assert(iv.skip(j as int)[0] == iv[j as int]);
                assert(iv.skip(j as int).skip(1) =~= iv.skip(j as int + 1));
            }
            let inp = &files_now[j];
            let mut known = false;
            let mut t: usize = 0;
            while t < self.files.len()
                invariant
                    t <= self@.files.len(),
                    self@.files == fv,
                    !known ==> forall|u: int| 0 <= u < t ==> fv[u].0 != inp@.name,
                    known ==> assoc_find(fv, inp@.name) >= 0,
                decreases self.files.len() - t,
            {
                proof {
                    assert(fv[t as int] == (self.files@[t as int].0@, self.files@[t as int].1));
                }
                if bytes_eq(&self.files[t].0, &inp.name) {
                    proof {
                        lemma_assoc_find(fv, inp@.name);
                        if assoc_find(fv, inp@.name) < 0 {
                            assert(fv[t as int].0 != inp@.name);
                        }
                    }
                    known = true;
                    break ;
                }
                t += 1;
            }
            if !known {
                proof {
                    lemma_assoc_find(fv, inp@.name);
                    if assoc_find(fv, inp@.name) >= 0 {
                        assert(fv[assoc_find(fv, inp@.name)].0 == inp@.name);
                    }
                }
                let mut pos: usize = 0;
                while pos < self.files.len()
                    invariant
                        pos <= self@.files.len(),
                        self@.files == fv,
                        forall|u: int|
                            0 <= u < pos ==> crate::types::lex_less(fv[u].0, inp@.name),
                    decreases self.files.len() - pos,
                {
                    proof {
                        assert(fv[pos as int] == (self.files@[pos as int].0@, self.files@[pos as int].1));
                    }
                    if !bytes_lt(&self.files[pos].0, &inp.name) {
                        break ;
                    }
                    pos += 1;
                }
                proof {
                    assert forall|u: int|
                        pos <= u < fv.len() implies crate::types::lex_less(inp@.name, fv[u].0) by {
                        crate::types::lemma_lex_trichotomy(fv[pos as int].0, inp@.name);
                        assert(fv[u].0 != inp@.name);
                        if u > pos {
                            crate::types::lemma_lex_transitive(inp@.name, fv[pos as int].0, fv[u].0);
                        }
                    }
                }
                let st = if inp.opened {
                    EventFile::Active
                } else {
                    EventFile::Dead
                };
                let ghost entries_pre = self.files@;
                self.files.insert(pos, (clone_bytes(&inp.name), st));
                proof {
                    lemma_file_insert_positional(fv, inp@.name, st, pos as int);
                    assert(self@.files =~= fv.insert(pos as int, (inp@.name, st)));
                    assert forall|a: int, b: int|
                        0 <= a < b < self@.files.len() implies crate::types::lex_less(
                        self@.files[a].0,
                        self@.files[b].0,
                    ) by {
                        if a < pos as int && b > pos as int {
                            assert(crate::types::lex_less(fv[a].0, inp@.name));
                            assert(crate::types::lex_less(inp@.name, fv[b - 1].0));
                            crate::types::lemma_lex_transitive(fv[a].0, inp@.name, fv[b - 1].0);
                        }
                    }
                }
            }
            proof {
                assert(add_one_spec(fv, iv[j as int]) =~= self@.files);
            }
            j += 1;
        }
        proof {
            assert(iv.skip(files_now@.len() as int) =~= Seq::<FileInputView>::empty());
            assert(self@ =~= RunLoaderView {
                files: update_files_spec(files0, iv),
                ..old(self)@
            });
        }
    }

    /// One load cycle over the given current file set: reconcile the known
    /// files, read every active file's records in key order, and publish
    /// the staged data into the run storage.
    #[verifier::loop_isolation(false)]
    pub fn reload(&mut self, files_now: &Vec<FileInput>, run_data: &mut RunData)
        requires
            loader_well_formed(old(self)@),
            old(run_data).well_formed(),
        ensures
            loader_well_formed(final(self)@),
            final(run_data).well_formed(),
            final(self)@.files == read_files_spec(
                update_files_spec(old(self)@.files, input_views(files_now@)),
                input_views(files_now@),
                old(self)@.data,
                0,
            ).0,
            final(self)@.data == data_after_commit_spec(
                read_files_spec(
                    update_files_spec(old(self)@.files, input_views(files_now@)),
                    input_views(files_now@),
                    old(self)@.data,
                    0,
                ).1,
            ),
            final(self)@.checksum == old(self)@.checksum,
            final(self)@.run == old(self)@.run,
            final(run_data)@ == commit_all_spec(
                read_files_spec(
                    update_files_spec(old(self)@.files, input_views(files_now@)),
                    input_views(files_now@),
                    old(self)@.data,
                    0,
                ).1,
            old(run_data)@),
    {
        let ghost iv = input_views(files_now@);
        self.update_file_set(files_now);
        let ghost files1 = self@.files;
        let ghost d_start = self@.data;
        let ghost goal = read_files_spec(files1, iv, d_start, 0);
        let mut k: usize = 0;
        while k < self.files.len()
            invariant
                k <= self@.files.len(),
                self@.run == old(self)@.run,
                self@.checksum == old(self)@.checksum,
                files_sorted(self@.files),
                data_well_formed(self@.data),
                goal == read_files_spec(self@.files, iv, self@.data, k as int),
            decreases self.files.len() - k,
        {
            proof {
                assert(self@.files[k as int] == (self.files@[k as int].0@, self.files@[k as int].1));
            }
            let ghost files_pre = self@.files;
            let ghost d_pre = self@.data;
            let is_active = match self.files[k].1 {
                EventFile::Active => true,
                EventFile::Dead => false,
            };
            if is_active {
                match Self::find_input(files_now, &self.files[k].0) {
                    Option::None => {},
                    Option::Some(inp) => {
                        let ghost recs = inp@.records;
                        let mut r: usize = 0;
                        proof {
                            assert(recs.skip(0) =~= recs);
                        }
                        while r < inp.records.len()
                            invariant
                                r <= inp.records.len(),
                                data_well_formed(self@.data),
                                self@.files == files_pre,
                                self@.run == old(self)@.run,
                                self@.checksum == old(self)@.checksum,
                                read_records_spec(d_pre, recs) == read_records_spec(
                                    self@.data,
                                    recs.skip(r as int),
                                ),
                            decreases inp.records.len() - r,
                        {
                            proof {
                                assert(recs[r as int] == inp.records@[r as int]@);
                                assert(recs.skip(r as int)[0] == recs[r as int]);
                                assert(recs.skip(r as int).skip(1) =~= recs.skip(r as int + 1));
                            }
                            self.data.read_event(&inp.records[r]);
                            r += 1;
                        }
                        proof {
                            assert(recs.skip(inp.records@.len() as int) =~= Seq::<EventView>::empty());
                            assert(read_records_spec(d_pre, recs) == self@.data);
                        }
                        let failed = match inp.terminal {
                            ReadTerminal::Failed => true,
                            ReadTerminal::Truncated => false,
                        };
                        if failed {
                            let ghost entries_pre = self.files@;
                            let mut entry = self.files.remove(k);
                            entry.1 = EventFile::Dead;
                            self.files.insert(k, entry);
                            proof {
                                assert(self.files@ =~= entries_pre.update(
                                    k as int,
                                    (entries_pre[k as int].0, EventFile::Dead),
                                ));
                                assert forall|u: int|
                                    0 <= u < self@.files.len() implies self@.files[u] == files_pre.update(
                                    k as int,
                                    (files_pre[k as int].0, EventFile::Dead),
                                )[u] by {
                                    assert(self@.files[u] == (self.files@[u].0@, self.files@[u].1));
                                    if u != k as int {
                                        assert(entries_pre[u] == self.files@[u]);
                                        assert(files_pre[u] == (entries_pre[u].0@, entries_pre[u].1));
                                    }
                                }
                                assert(self@.files =~= files_pre.update(
                                    k as int,
                                    (files_pre[k as int].0, EventFile::Dead),
                                ));
                                assert forall|a: int, b: int|
                                    0 <= a < b < self@.files.len() implies crate::types::lex_less(
                                    self@.files[a].0,
                                    self@.files[b].0,
                                ) by {
                                    assert(crate::types::lex_less(files_pre[a].0, files_pre[b].0));
                                }
                            }
                        }
                    },
                }
            }
            k += 1;
        }
        proof {
            assert(goal == (self@.files, self@.data));
        }
        self.data.commit_all(run_data);
        proof {
            assert(self@ =~= RunLoaderView {
                files: goal.0,
                data: data_after_commit_spec(goal.1),
                ..old(self)@
            });
        }
    }
}

/// `input_find` answers the index of the first match.
pub proof fn lemma_input_find_first(inputs: Seq<FileInputView>, name: Seq<u8>, j: int)
    requires
        0 <= j < inputs.len(),
        inputs[j].name == name,
        forall|t: int| 0 <= t < j ==> inputs[t].name != name,
    ensures
        input_find(inputs, name) == j,
    decreases inputs.len(),
{
    if j == 0 {
    } else {
        assert(inputs.skip(1)[j - 1] == inputs[j]);
        assert forall|t: int| 0 <= t < j - 1 implies inputs.skip(1)[t].name != name by {
            assert(inputs.skip(1)[t] == inputs[t + 1]);
        }
        lemma_input_find_first(inputs.skip(1), name, j - 1);
    }
}

} // verus!
