//! The loader's cross-cutting guarantees, each stated and proved over the
//! specification functions that the executable functions are verified
//! against.

use vstd::prelude::*;
use crate::commit::{store_put, CommitPointView, RunDataView, TimeSeriesView};
use crate::record::{EventView, SummaryMetadataView};
use crate::reservoir::{
    last_offer_at, lemma_dedup_lookup, lemma_sample_seq_append, lemma_sample_seq_no_evict,
    lookup_step, sample_seq, sorted_by_step,
};
use crate::run::{
    commit_fold,
    add_files_spec, add_one_spec, commit_series_spec, file_insert_spec, input_find,
    mark_dead_spec, merge_min, min_wall, read_event_spec, read_files_spec, read_records_spec,
    series_after_commit, series_retained_after, stage_spec, stage_summary_spec,
    update_files_spec, EventFile, FileInputView, RunLoaderDataView, StageTimeSeriesView,
};
use crate::types::{assoc_find, lemma_assoc_find, Step, WallTime};

verus! {

/// Staging a sample changes no series' metadata or class, and neither the
/// start time nor the observed history.
pub proof fn lemma_stage_frame(
    d: RunLoaderDataView,
    tag: Seq<u8>,
    md: SummaryMetadataView,
    step: i64,
    wt: WallTime,
    payload: crate::record::EventValueView,
)
    ensures
        stage_spec(d, tag, md, step, wt, payload).start_time == d.start_time,
        stage_spec(d, tag, md, step, wt, payload).events == d.events,
        stage_spec(d, tag, md, step, wt, payload).series.len() >= d.series.len(),
        forall|j: int|
            0 <= j < d.series.len() ==> (#[trigger] stage_spec(
                d,
                tag,
                md,
                step,
                wt,
                payload,
            ).series[j]).0 == d.series[j].0 && stage_spec(
                d,
                tag,
                md,
                step,
                wt,
                payload,
            ).series[j].1.metadata == d.series[j].1.metadata && stage_spec(
                d,
                tag,
                md,
                step,
                wt,
                payload,
            ).series[j].1.data_class == d.series[j].1.data_class,
{
    let r = stage_spec(d, tag, md, step, wt, payload);
    let i = assoc_find(d.series, tag);
    lemma_assoc_find(d.series, tag);
    assert forall|j: int|
        0 <= j < d.series.len() implies (#[trigger] r.series[j]).0 == d.series[j].0
        && r.series[j].1.metadata == d.series[j].1.metadata && r.series[j].1.data_class
        == d.series[j].1.data_class by {
        if i >= 0 {
            if j == i {
                assert(d.series[i].0 == tag);
                assert(r.series == d.series.update(i, (tag, r.series[i].1)));
            } else {
                assert(r.series[j] == d.series[j]);
            }
        } else {
            assert(r.series[j] == d.series[j]);
        }
    }
}

/// Staging a summary record list changes no start time, history, or
/// captured metadata either.
pub proof fn lemma_stage_summary_frame(
    d: RunLoaderDataView,
    step: i64,
    wt: WallTime,
    vals: Seq<crate::record::SummaryValueRecordView>,
)
    ensures
        stage_summary_spec(d, step, wt, vals).start_time == d.start_time,
        stage_summary_spec(d, step, wt, vals).events == d.events,
        stage_summary_spec(d, step, wt, vals).series.len() >= d.series.len(),
        forall|j: int|
            0 <= j < d.series.len() ==> (#[trigger] stage_summary_spec(
                d,
                step,
                wt,
                vals,
            ).series[j]).0 == d.series[j].0 && stage_summary_spec(
                d,
                step,
                wt,
                vals,
            ).series[j].1.metadata == d.series[j].1.metadata && stage_summary_spec(
                d,
                step,
                wt,
                vals,
            ).series[j].1.data_class == d.series[j].1.data_class,
    decreases vals.len(),
{
    if vals.len() == 0 {
    } else {
        let v0 = vals[0];
        let d2 = match v0.value {
            Option::None => d,
            Option::Some(p) => stage_spec(
                d,
                v0.tag,
                crate::run::initial_metadata_spec(v0.metadata, p),
                step,
                wt,
                crate::record::EventValueView::Summary(p),
            ),
        };
        match v0.value {
            Option::None => {},
            Option::Some(p) => {
                lemma_stage_frame(
                    d,
                    v0.tag,
                    crate::run::initial_metadata_spec(v0.metadata, p),
                    step,
                    wt,
                    crate::record::EventValueView::Summary(p),
                );
            },
        }
        lemma_stage_summary_frame(d2, step, wt, vals.skip(1));
        assert(stage_summary_spec(d, step, wt, vals) == stage_summary_spec(
            d2,
            step,
            wt,
            vals.skip(1),
        ));
    }
}

/// The start time tracks the minimum valid wall time over every record
/// ever observed: each record joins the history, and the start time is the
/// old one merged with the record's wall time (an invalid record leaves it
/// alone).
pub proof fn lemma_start_time_is_minimum(d: RunLoaderDataView, e: EventView)
    requires
        d.start_time == min_wall(d.events),
    ensures
        read_event_spec(d, e).events == d.events.push(e),
        read_event_spec(d, e).start_time == merge_min(d.start_time, e.wall_time),
        read_event_spec(d, e).start_time == min_wall(read_event_spec(d, e).events),
{
    let r = read_event_spec(d, e);
    assert(d.events.push(e).drop_last() =~= d.events);
    assert(d.events.push(e).last() == e);
    match e.wall_time {
        Option::None => {},
        Option::Some(wt) => {
            let d0 = RunLoaderDataView { events: d.events.push(e), ..d };
            let d1 = RunLoaderDataView {
                start_time: merge_min(d0.start_time, Option::Some(wt)),
                ..d0
            };
            match e.what {
                Option::None => {},
                Option::Some(crate::record::WhatView::FileVersion(_)) => {},
                Option::Some(crate::record::WhatView::GraphDef(b)) => {
                    lemma_stage_frame(
                        d1,
                        crate::record::run_graph_tag_spec(),
                        crate::run::graph_metadata_spec(),
                        e.step,
                        wt,
                        crate::record::EventValueView::GraphDef(b),
                    );
                },
                Option::Some(crate::record::WhatView::TaggedRunMetadata(tag, bytes)) => {
                    lemma_stage_frame(
                        d1,
                        tag,
                        crate::run::tagged_run_metadata_metadata_spec(),
                        e.step,
                        wt,
                        crate::record::EventValueView::GraphDef(bytes),
                    );
                },
                Option::Some(crate::record::WhatView::Summary(vals)) => {
                    lemma_stage_summary_frame(d1, e.step, wt, vals);
                },
            }
        },
    }
}

/// For every tag already known, reading any further record changes neither
/// the captured metadata nor the data class: the first sighting is sticky.
pub proof fn lemma_metadata_first_sight(d: RunLoaderDataView, e: EventView, j: int)
    requires
        0 <= j < d.series.len(),
    ensures
        read_event_spec(d, e).series[j].0 == d.series[j].0,
        read_event_spec(d, e).series[j].1.metadata == d.series[j].1.metadata,
        read_event_spec(d, e).series[j].1.data_class == d.series[j].1.data_class,
{
    match e.wall_time {
        Option::None => {},
        Option::Some(wt) => {
            let d0 = RunLoaderDataView { events: d.events.push(e), ..d };
            let d1 = RunLoaderDataView {
                start_time: merge_min(d0.start_time, Option::Some(wt)),
                ..d0
            };
            match e.what {
                Option::None => {},
                Option::Some(crate::record::WhatView::FileVersion(_)) => {},
                Option::Some(crate::record::WhatView::GraphDef(b)) => {
                    lemma_stage_frame(
                        d1,
                        crate::record::run_graph_tag_spec(),
                        crate::run::graph_metadata_spec(),
                        e.step,
                        wt,
                        crate::record::EventValueView::GraphDef(b),
                    );
                },
                Option::Some(crate::record::WhatView::TaggedRunMetadata(tag, bytes)) => {
                    lemma_stage_frame(
                        d1,
                        tag,
                        crate::run::tagged_run_metadata_metadata_spec(),
                        e.step,
                        wt,
                        crate::record::EventValueView::GraphDef(bytes),
                    );
                },
                Option::Some(crate::record::WhatView::Summary(vals)) => {
                    lemma_stage_summary_frame(d1, e.step, wt, vals);
                },
            }
        },
    }
}

/// At commit time, an existing sink entry keeps the metadata it was created
/// with whatever metadata is offered now, and a fresh entry is pinned to
/// the series' first-sighted metadata.
pub proof fn lemma_commit_pins_metadata<VV>(
    store: Seq<(Seq<u8>, TimeSeriesView<VV>)>,
    tag: Seq<u8>,
    md: SummaryMetadataView,
    points: Seq<CommitPointView<VV>>,
)
    ensures
        assoc_find(store, tag) >= 0 ==> store_put(store, tag, md, points)[assoc_find(
            store,
            tag,
        )].1.metadata == store[assoc_find(store, tag)].1.metadata,
        assoc_find(store, tag) < 0 ==> store_put(store, tag, md, points).last().1.metadata == md,
{
    lemma_assoc_find(store, tag);
}

/// Preemption, last write wins: while the population stays within
/// capacity, the sample retained at a step after a merge is the last offer
/// carrying that step; a later file's offer at an overlapping step
/// therefore overrides an earlier file's. Steps no offer carries keep
/// their prior sample.
pub proof fn lemma_preemption<VT>(
    cap: int,
    acc: Seq<(Step, VT)>,
    rng: u64,
    offers: Seq<(Step, VT)>,
    q: i64,
)
    requires
        sorted_by_step(acc),
        acc.len() + offers.len() <= cap,
    ensures
        lookup_step(sample_seq(cap, acc, rng, offers).0, q) == (match last_offer_at(offers, q) {
            Option::Some(v) => Option::Some(v),
            Option::None => lookup_step(acc, q),
        }),
{
    lemma_sample_seq_no_evict(cap, acc, rng, offers);
    lemma_dedup_lookup(acc, offers, q);
}

/// Reading a record stream in two batches equals reading the
/// concatenation.
pub proof fn lemma_read_records_append(d: RunLoaderDataView, e1: Seq<EventView>, e2: Seq<EventView>)
    ensures
        read_records_spec(d, e1 + e2) == read_records_spec(read_records_spec(d, e1), e2),
    decreases e1.len(),
{
    if e1.len() == 0 {
        assert(e1 + e2 =~= e2);
    } else {
        assert((e1 + e2)[0] == e1[0]);
        assert((e1 + e2).skip(1) =~= e1.skip(1) + e2);
        lemma_read_records_append(read_event_spec(d, e1[0]), e1.skip(1), e2);
    }
}

/// `s` with further offers appended to its stage buffer.
pub open spec fn with_staged(
    s: StageTimeSeriesView,
    t: Seq<(Step, crate::record::StageValueView)>,
) -> StageTimeSeriesView {
    StageTimeSeriesView {
        rsv: crate::reservoir::ReservoirView { staged: s.rsv.staged + t, ..s.rsv },
        ..s
    }
}

/// Cross-cycle continuity for one series: committing between two batches
/// of offers leaves exactly the state that staging both batches in one
/// cycle would, so splitting a stream across load cycles changes nothing.
pub proof fn lemma_series_cross_cycle(
    s: StageTimeSeriesView,
    extra: Seq<(Step, crate::record::StageValueView)>,
)
    ensures
        series_after_commit(with_staged(series_after_commit(s), extra)) == series_after_commit(
            with_staged(s, extra),
        ),
{
    if s.data_class == crate::types::DataClass::Scalar || s.data_class
        == crate::types::DataClass::BlobSequence {
        let cap = s.rsv.capacity;
        lemma_sample_seq_append(cap, s.rsv.retained, s.rsv.rng, s.rsv.staged, extra);
        assert(Seq::<(Step, crate::record::StageValueView)>::empty() + extra =~= extra);
        assert(series_after_commit(with_staged(series_after_commit(s), extra))
            =~= series_after_commit(with_staged(s, extra)));
    } else {
        assert(series_after_commit(with_staged(series_after_commit(s), extra))
            =~= series_after_commit(with_staged(s, extra)));
    }
}

/// Idempotence: a second commit with no intervening offers leaves the
/// series as it is and overwrites the sink entry with equal content.
pub proof fn lemma_commit_idempotent(rd: RunDataView, tag: Seq<u8>, s: StageTimeSeriesView)
    ensures
        series_after_commit(series_after_commit(s)) == series_after_commit(s),
        commit_series_spec(
            commit_series_spec(rd, tag, s),
            tag,
            series_after_commit(s),
        ) == commit_series_spec(rd, tag, s),
{
    let s1 = series_after_commit(s);
    assert(series_after_commit(s1) =~= s1);
    let rd1 = commit_series_spec(rd, tag, s);
    if s.data_class == crate::types::DataClass::Scalar {
        assert(series_retained_after(s1) == s1.rsv.retained);
        lemma_store_put_stable(rd.scalars, tag, s.metadata, crate::run::scalar_points_spec(
            series_retained_after(s),
        ));
        assert(commit_series_spec(rd1, tag, s1) =~= rd1);
    } else if s.data_class == crate::types::DataClass::BlobSequence {
        assert(series_retained_after(s1) == s1.rsv.retained);
        lemma_store_put_stable(rd.blob_sequences, tag, s.metadata, crate::run::blob_points_spec(
            series_retained_after(s),
        ));
        assert(commit_series_spec(rd1, tag, s1) =~= rd1);
    }
}

/// Writing the same points again under the same tag changes nothing: the
/// entry keeps its pinned metadata and its points are replaced by equals.
pub proof fn lemma_store_put_stable<VV>(
    store: Seq<(Seq<u8>, TimeSeriesView<VV>)>,
    tag: Seq<u8>,
    md: SummaryMetadataView,
    points: Seq<CommitPointView<VV>>,
)
    ensures
        store_put(store_put(store, tag, md, points), tag, md, points) == store_put(
            store,
            tag,
            md,
            points,
        ),
{
    let st1 = store_put(store, tag, md, points);
    let i = assoc_find(store, tag);
    lemma_assoc_find(store, tag);
    if i >= 0 {
        assert forall|t: int| 0 <= t < i implies st1[t].0 != tag by {
            assert(st1[t] == store[t]);
        }
        crate::types::lemma_assoc_find_first(st1, tag, i);
        assert(store_put(st1, tag, md, points) =~= st1);
    } else {
        assert forall|t: int| 0 <= t < store.len() implies st1[t].0 != tag by {
            assert(st1[t] == store[t]);
        }
        crate::types::lemma_assoc_find_first(st1, tag, store.len() as int);
        assert(store_put(st1, tag, md, points) =~= st1);
    }
}

/// The state a file map answers for an identifier.
pub open spec fn file_state(files: Seq<(Seq<u8>, EventFile)>, name: Seq<u8>) -> Option<EventFile> {
    if assoc_find(files, name) >= 0 {
        Option::Some(files[assoc_find(files, name)].1)
    } else {
        Option::None
    }
}

/// Marking absent files dead looks files up at unchanged positions: an
/// identifier in the current list keeps its state, one absent from it is
/// dead, and nothing is added or removed.
pub proof fn lemma_mark_dead_state(
    files: Seq<(Seq<u8>, EventFile)>,
    inputs: Seq<FileInputView>,
    q: Seq<u8>,
)
    ensures
        assoc_find(mark_dead_spec(files, inputs), q) == assoc_find(files, q),
        file_state(files, q) is Some ==> file_state(mark_dead_spec(files, inputs), q) == (
        if input_find(inputs, q) >= 0 {
            file_state(files, q)
        } else {
            Option::Some(EventFile::Dead)
        }),
    decreases files.len(),
{
    let m = mark_dead_spec(files, inputs);
    if files.len() == 0 {
    } else {
        assert(m.skip(1) =~= mark_dead_spec(files.skip(1), inputs));
        lemma_mark_dead_state(files.skip(1), inputs, q);
        assert(m[0].0 == files[0].0);
        if files[0].0 == q {
        } else {
            let r = assoc_find(files.skip(1), q);
            lemma_assoc_find(files.skip(1), q);
            if r >= 0 {
                assert(0 <= r < files.skip(1).len());
                assert(files[r + 1] == files.skip(1)[r]);
                assert(m.skip(1)[r] == m[r + 1]);
                assert(assoc_find(m, q) == r + 1);
            }
        }
    }
}

/// A new entry placed at its ordered position answers its own key with its
/// state and leaves every other key's answer alone.
pub proof fn lemma_file_insert_state(
    files: Seq<(Seq<u8>, EventFile)>,
    name: Seq<u8>,
    st: EventFile,
    q: Seq<u8>,
)
    requires
        assoc_find(files, name) < 0,
    ensures
        file_state(file_insert_spec(files, name, st), name) == Option::Some(st),
        q != name ==> file_state(file_insert_spec(files, name, st), q) == file_state(files, q),
    decreases files.len(),
{
    lemma_assoc_find(files, q);
    lemma_assoc_find(files, name);
    let r = file_insert_spec(files, name, st);
    if files.len() == 0 {
        assert(r =~= Seq::<(Seq<u8>, EventFile)>::empty().push((name, st)));
        crate::types::lemma_assoc_find_push(Seq::<(Seq<u8>, EventFile)>::empty(), (name, st), name);
        crate::types::lemma_assoc_find_push(Seq::<(Seq<u8>, EventFile)>::empty(), (name, st), q);
    } else if crate::types::lex_less(files.last().0, name) {
        crate::types::lemma_assoc_find_push(files, (name, st), name);
        crate::types::lemma_assoc_find_push(files, (name, st), q);
        lemma_assoc_find(files.push((name, st)), q);
    } else {
        assert(files.drop_last().push(files.last()) =~= files);
        crate::types::lemma_assoc_find_push(files.drop_last(), files.last(), name);
        crate::types::lemma_assoc_find_push(files.drop_last(), files.last(), q);
        assert(assoc_find(files.drop_last(), name) < 0);
        lemma_file_insert_state(files.drop_last(), name, st, q);
        let inner = file_insert_spec(files.drop_last(), name, st);
        crate::types::lemma_assoc_find_push(inner, files.last(), name);
        crate::types::lemma_assoc_find_push(inner, files.last(), q);
        lemma_assoc_find(inner, name);
        lemma_assoc_find(inner, q);
        assert(r == inner.push(files.last()));
    }
}

/// File-set reconciliation never loses a known identifier, never changes a
/// known entry's state (whatever it is) when the identifier is in the
/// current list, and never revives a dead one: a dead entry stays dead.
pub proof fn lemma_add_files_state(
    files: Seq<(Seq<u8>, EventFile)>,
    inputs: Seq<FileInputView>,
    q: Seq<u8>,
)
    requires
        file_state(files, q) is Some,
    ensures
        file_state(add_files_spec(files, inputs), q) == file_state(files, q),
    decreases inputs.len(),
{
    if inputs.len() == 0 {
    } else {
        let f2 = add_one_spec(files, inputs[0]);
        lemma_assoc_find(files, inputs[0].name);
        if assoc_find(files, inputs[0].name) >= 0 {
        } else {
            lemma_file_insert_state(files, inputs[0].name, if inputs[0].opened {
                EventFile::Active
            } else {
                EventFile::Dead
            }, q);
            if q == inputs[0].name {
                lemma_assoc_find(files, q);
            }
        }
        lemma_add_files_state(f2, inputs.skip(1), q);
    }
}

/// Once a file identifier is known it remains known forever, its state is
/// monotone (a dead file never returns to service), and a known
/// identifier's reappearance in the current list is a no-op: its state,
/// dead or active, is exactly what it was.
pub proof fn lemma_file_lifecycle(
    files: Seq<(Seq<u8>, EventFile)>,
    inputs: Seq<FileInputView>,
    q: Seq<u8>,
)
    requires
        file_state(files, q) is Some,
    ensures
        file_state(update_files_spec(files, inputs), q) is Some,
        file_state(files, q) == Option::Some(EventFile::Dead) ==> file_state(
            update_files_spec(files, inputs),
            q,
        ) == Option::Some(EventFile::Dead),
        input_find(inputs, q) >= 0 ==> file_state(update_files_spec(files, inputs), q)
            == file_state(files, q),
{
    lemma_mark_dead_state(files, inputs, q);
    lemma_add_files_state(mark_dead_spec(files, inputs), inputs, q);
}

/// The reading phase keeps every file entry's identifier and only ever
/// turns an active entry dead.
pub proof fn lemma_read_files_monotone(
    files: Seq<(Seq<u8>, EventFile)>,
    inputs: Seq<FileInputView>,
    d: RunLoaderDataView,
    k: int,
)
    ensures
        read_files_spec(files, inputs, d, k).0.len() == files.len(),
        forall|j: int|
            0 <= j < files.len() ==> (#[trigger] read_files_spec(files, inputs, d, k).0[j]).0
                == files[j].0,
        forall|j: int|
            0 <= j < files.len() && files[j].1 == EventFile::Dead ==> read_files_spec(
                files,
                inputs,
                d,
                k,
            ).0[j].1 == EventFile::Dead,
    decreases files.len() - k,
{
    if k < 0 || files.len() <= k {
    } else {
        let entry = files[k];
        if entry.1 == EventFile::Active && input_find(inputs, entry.0) >= 0 {
            let inp = inputs[input_find(inputs, entry.0)];
            let d2 = read_records_spec(d, inp.records);
            let files2 = if inp.terminal == crate::run::ReadTerminal::Failed {
                files.update(k, (entry.0, EventFile::Dead))
            } else {
                files
            };
            lemma_read_files_monotone(files2, inputs, d2, k + 1);
        } else {
            lemma_read_files_monotone(files, inputs, d, k + 1);
        }
    }
}

/// A commit touching a different tag leaves an entry untouched: writes to
/// other tags update other positions or append.
pub proof fn lemma_store_put_other<VV>(
    store: Seq<(Seq<u8>, TimeSeriesView<VV>)>,
    tag: Seq<u8>,
    md: SummaryMetadataView,
    points: Seq<CommitPointView<VV>>,
    j: int,
)
    requires
        0 <= j < store.len(),
        store[j].0 != tag,
    ensures
        store_put(store, tag, md, points).len() >= store.len(),
        store_put(store, tag, md, points)[j] == store[j],
        forall|t: int|
            0 <= t < store.len() ==> (#[trigger] store_put(store, tag, md, points)[t]).0
                == store[t].0,
{
    lemma_assoc_find(store, tag);
}

/// A commit never moves entries: lengths only grow and every existing
/// position keeps its key.
pub proof fn lemma_store_put_keys<VV>(
    store: Seq<(Seq<u8>, TimeSeriesView<VV>)>,
    tag: Seq<u8>,
    md: SummaryMetadataView,
    points: Seq<CommitPointView<VV>>,
)
    ensures
        store_put(store, tag, md, points).len() >= store.len(),
        forall|t: int|
            0 <= t < store.len() ==> (#[trigger] store_put(store, tag, md, points)[t]).0
                == store[t].0,
{
    lemma_assoc_find(store, tag);
}

/// One series commit leaves alone every entry, in either store, whose tag
/// differs from the committed one.
pub proof fn lemma_commit_series_other(
    rd: RunDataView,
    tag: Seq<u8>,
    s: StageTimeSeriesView,
    j: int,
    scalars_side: bool,
)
    requires
        scalars_side ==> 0 <= j < rd.scalars.len() && rd.scalars[j].0 != tag,
        !scalars_side ==> 0 <= j < rd.blob_sequences.len() && rd.blob_sequences[j].0 != tag,
    ensures
        scalars_side ==> commit_series_spec(rd, tag, s).scalars[j] == rd.scalars[j],
        !scalars_side ==> commit_series_spec(rd, tag, s).blob_sequences[j] == rd.blob_sequences[j],
{
    if scalars_side {
        if s.data_class == crate::types::DataClass::Scalar {
            lemma_store_put_other(
                rd.scalars,
                tag,
                s.metadata,
                crate::run::scalar_points_spec(series_retained_after(s)),
                j,
            );
        }
    } else {
        if s.data_class == crate::types::DataClass::BlobSequence {
            lemma_store_put_other(
                rd.blob_sequences,
                tag,
                s.metadata,
                crate::run::blob_points_spec(series_retained_after(s)),
                j,
            );
        }
    }
}

/// The whole-cycle commit fold keeps the start time and leaves every store
/// entry alone whose tag no committed series carries; existing entries keep
/// their positions and keys.
pub proof fn lemma_fold_preserves(series: Seq<(Seq<u8>, StageTimeSeriesView)>, rd: RunDataView)
    ensures
        commit_fold(series, rd).start_time == rd.start_time,
        commit_fold(series, rd).scalars.len() >= rd.scalars.len(),
        commit_fold(series, rd).blob_sequences.len() >= rd.blob_sequences.len(),
        forall|t: int|
            0 <= t < rd.scalars.len() ==> (#[trigger] commit_fold(series, rd).scalars[t]).0
                == rd.scalars[t].0,
        forall|t: int|
            0 <= t < rd.blob_sequences.len() ==> (#[trigger] commit_fold(
                series,
                rd,
            ).blob_sequences[t]).0 == rd.blob_sequences[t].0,
        forall|j: int|
            0 <= j < rd.scalars.len() && (forall|k: int|
                0 <= k < series.len() ==> (#[trigger] series[k]).0 != rd.scalars[j].0)
                ==> #[trigger] commit_fold(series, rd).scalars[j] == rd.scalars[j],
        forall|j: int|
            0 <= j < rd.blob_sequences.len() && (forall|k: int|
                0 <= k < series.len() ==> (#[trigger] series[k]).0 != rd.blob_sequences[j].0)
                ==> #[trigger] commit_fold(series, rd).blob_sequences[j] == rd.blob_sequences[j],
    decreases series.len(),
{
    if series.len() == 0 {
    } else {
        let rd2 = commit_series_spec(rd, series[0].0, series[0].1);
        lemma_assoc_find(rd.scalars, series[0].0);
        lemma_assoc_find(rd.blob_sequences, series[0].0);
        lemma_fold_preserves(series.skip(1), rd2);
        if series[0].1.data_class == crate::types::DataClass::Scalar {
            lemma_store_put_keys(
                rd.scalars,
                series[0].0,
                series[0].1.metadata,
                crate::run::scalar_points_spec(series_retained_after(series[0].1)),
            );
        }
        if series[0].1.data_class == crate::types::DataClass::BlobSequence {
            lemma_store_put_keys(
                rd.blob_sequences,
                series[0].0,
                series[0].1.metadata,
                crate::run::blob_points_spec(series_retained_after(series[0].1)),
            );
        }
        assert(rd2.scalars.len() >= rd.scalars.len());
        assert(rd2.blob_sequences.len() >= rd.blob_sequences.len());
        assert forall|t: int|
            0 <= t < rd.scalars.len() implies (#[trigger] rd2.scalars[t]).0 == rd.scalars[t].0 by {
        }
        assert forall|t: int|
            0 <= t < rd.blob_sequences.len() implies (#[trigger] rd2.blob_sequences[t]).0
            == rd.blob_sequences[t].0 by {
        }
        assert forall|j: int|
            0 <= j < rd.scalars.len() && (forall|k: int|
                0 <= k < series.len() ==> (#[trigger] series[k]).0 != rd.scalars[j].0)
            implies #[trigger] commit_fold(series, rd).scalars[j] == rd.scalars[j] by {
            assert(series[0].0 != rd.scalars[j].0);
            lemma_commit_series_other(rd, series[0].0, series[0].1, j, true);
            assert forall|k: int|
                0 <= k < series.skip(1).len() implies (#[trigger] series.skip(1)[k]).0
                != rd2.scalars[j].0 by {
                assert(series.skip(1)[k] == series[k + 1]);
            }
        }
        assert forall|j: int|
            0 <= j < rd.blob_sequences.len() && (forall|k: int|
                0 <= k < series.len() ==> (#[trigger] series[k]).0 != rd.blob_sequences[j].0)
            implies #[trigger] commit_fold(series, rd).blob_sequences[j] == rd.blob_sequences[j] by {
            assert(series[0].0 != rd.blob_sequences[j].0);
            lemma_commit_series_other(rd, series[0].0, series[0].1, j, false);
            assert forall|k: int|
                0 <= k < series.skip(1).len() implies (#[trigger] series.skip(1)[k]).0
                != rd2.blob_sequences[j].0 by {
                assert(series.skip(1)[k] == series[k + 1]);
            }
        }
    }
}

/// What one cycle's commit wrote for a series: the entry of its class's
/// store holds exactly the projection of the series' retained population.
pub open spec fn committed_matches(
    rd: RunDataView,
    tag: Seq<u8>,
    s: StageTimeSeriesView,
) -> bool {
    match s.data_class {
        crate::types::DataClass::Scalar => {
            let i = assoc_find(rd.scalars, tag);
            i >= 0 && rd.scalars[i].1.points == crate::run::scalar_points_spec(
                series_retained_after(s),
            )
        },
        crate::types::DataClass::BlobSequence => {
            let i = assoc_find(rd.blob_sequences, tag);
            i >= 0 && rd.blob_sequences[i].1.points == crate::run::blob_points_spec(
                series_retained_after(s),
            )
        },
        _ => true,
    }
}

/// After a whole-cycle commit, every committed series has its projection in
/// the sink: later series in the fold carry other tags and do not disturb
/// it.
pub proof fn lemma_fold_commits_each(
    series: Seq<(Seq<u8>, StageTimeSeriesView)>,
    rd: RunDataView,
    k: int,
)
    requires
        crate::types::distinct_keys(series),
        0 <= k < series.len(),
    ensures
        committed_matches(commit_fold(series, rd), series[k].0, series[k].1),
    decreases series.len(),
{
    let t0 = series[0].0;
    let s0 = series[0].1;
    let rd2 = commit_series_spec(rd, t0, s0);
    if k == 0 {
        assert forall|u: int|
            0 <= u < series.skip(1).len() implies (#[trigger] series.skip(1)[u]).0 != t0 by {
            assert(series.skip(1)[u] == series[u + 1]);
        }
        lemma_fold_preserves(series.skip(1), rd2);
        if s0.data_class == crate::types::DataClass::Scalar {
            let pts = crate::run::scalar_points_spec(series_retained_after(s0));
            let i = assoc_find(rd.scalars, t0);
            lemma_assoc_find(rd.scalars, t0);
            let fin = commit_fold(series.skip(1), rd2);
            if i >= 0 {
                assert(rd2.scalars[i] == (t0, TimeSeriesView {
                    metadata: rd.scalars[i].1.metadata,
                    points: pts,
                }));
                assert forall|u: int| 0 <= u < i implies rd2.scalars[u].0 != t0 by {
                    assert(rd2.scalars[u] == rd.scalars[u]);
                }
                assert(fin.scalars[i] == rd2.scalars[i]);
                assert forall|u: int| 0 <= u < i implies fin.scalars[u].0 != t0 by {
                    assert(fin.scalars[u].0 == rd2.scalars[u].0);
                }
                crate::types::lemma_assoc_find_first(fin.scalars, t0, i);
            } else {
                let n = rd.scalars.len() as int;
                assert(rd2.scalars[n] == (t0, TimeSeriesView { metadata: s0.metadata, points: pts }));
                assert forall|u: int| 0 <= u < n implies rd2.scalars[u].0 != t0 by {
                    assert(rd2.scalars[u] == rd.scalars[u]);
                }
                assert(fin.scalars[n] == rd2.scalars[n]);
                assert forall|u: int| 0 <= u < n implies fin.scalars[u].0 != t0 by {
                    assert(fin.scalars[u].0 == rd2.scalars[u].0);
                }
                crate::types::lemma_assoc_find_first(fin.scalars, t0, n);
            }
        } else if s0.data_class == crate::types::DataClass::BlobSequence {
            let pts = crate::run::blob_points_spec(series_retained_after(s0));
            let i = assoc_find(rd.blob_sequences, t0);
            lemma_assoc_find(rd.blob_sequences, t0);
            let fin = commit_fold(series.skip(1), rd2);
            if i >= 0 {
                assert(rd2.blob_sequences[i] == (t0, TimeSeriesView {
                    metadata: rd.blob_sequences[i].1.metadata,
                    points: pts,
                }));
                assert forall|u: int| 0 <= u < i implies rd2.blob_sequences[u].0 != t0 by {
                    assert(rd2.blob_sequences[u] == rd.blob_sequences[u]);
                }
                assert(fin.blob_sequences[i] == rd2.blob_sequences[i]);
                assert forall|u: int| 0 <= u < i implies fin.blob_sequences[u].0 != t0 by {
                    assert(fin.blob_sequences[u].0 == rd2.blob_sequences[u].0);
                }
                crate::types::lemma_assoc_find_first(fin.blob_sequences, t0, i);
            } else {
                let n = rd.blob_sequences.len() as int;
                assert(rd2.blob_sequences[n] == (t0, TimeSeriesView {
                    metadata: s0.metadata,
                    points: pts,
                }));
                assert forall|u: int| 0 <= u < n implies rd2.blob_sequences[u].0 != t0 by {
                    assert(rd2.blob_sequences[u] == rd.blob_sequences[u]);
                }
                assert(fin.blob_sequences[n] == rd2.blob_sequences[n]);
                assert forall|u: int| 0 <= u < n implies fin.blob_sequences[u].0 != t0 by {
                    assert(fin.blob_sequences[u].0 == rd2.blob_sequences[u].0);
                }
                crate::types::lemma_assoc_find_first(fin.blob_sequences, t0, n);
            }
        }
    } else {
        assert forall|a: int, b: int|
            0 <= a < b < series.skip(1).len() implies series.skip(1)[a].0 != series.skip(1)[b].0 by {
            assert(series.skip(1)[a] == series[a + 1]);
            assert(series.skip(1)[b] == series[b + 1]);
        }
        assert(series.skip(1)[k - 1] == series[k]);
        lemma_fold_commits_each(series.skip(1), rd2, k - 1);
    }
}

/// A whole-cycle commit whose every series already has its projection in
/// the sink changes nothing.
pub proof fn lemma_fold_stable(series: Seq<(Seq<u8>, StageTimeSeriesView)>, rd: RunDataView)
    requires
        crate::types::distinct_keys(series),
        forall|k: int|
            0 <= k < series.len() ==> committed_matches(rd, (#[trigger] series[k]).0, series[k].1),
    ensures
        commit_fold(series, rd) == rd,
    decreases series.len(),
{
    if series.len() == 0 {
    } else {
        let t0 = series[0].0;
        let s0 = series[0].1;
        let rd2 = commit_series_spec(rd, t0, s0);
        assert(committed_matches(rd, t0, s0));
        if s0.data_class == crate::types::DataClass::Scalar {
            let pts = crate::run::scalar_points_spec(series_retained_after(s0));
            let i = assoc_find(rd.scalars, t0);
            lemma_assoc_find(rd.scalars, t0);
            assert(rd.scalars[i].1.points == pts);
            assert(rd2.scalars =~= rd.scalars);
            assert(rd2 =~= rd);
        } else if s0.data_class == crate::types::DataClass::BlobSequence {
            let pts = crate::run::blob_points_spec(series_retained_after(s0));
            let i = assoc_find(rd.blob_sequences, t0);
            lemma_assoc_find(rd.blob_sequences, t0);
            assert(rd.blob_sequences[i].1.points == pts);
            assert(rd2.blob_sequences =~= rd.blob_sequences);
            assert(rd2 =~= rd);
        } else {
            assert(rd2 == rd);
        }
        assert forall|a: int, b: int|
            0 <= a < b < series.skip(1).len() implies series.skip(1)[a].0 != series.skip(1)[b].0 by {
            assert(series.skip(1)[a] == series[a + 1]);
            assert(series.skip(1)[b] == series[b + 1]);
        }
        assert forall|k: int|
            0 <= k < series.skip(1).len() implies committed_matches(
            rd2,
            (#[trigger] series.skip(1)[k]).0,
            series.skip(1)[k].1,
        ) by {
            assert(series.skip(1)[k] == series[k + 1]);
        }
        lemma_fold_stable(series.skip(1), rd2);
    }
}

/// Idempotence of the whole-cycle commit: with nothing new staged, a second
/// publication leaves both the staged data and the run storage exactly as
/// the first left them — it overwrites the sink with equal content.
pub proof fn lemma_cycle_idempotent(d: RunLoaderDataView, rd: RunDataView)
    requires
        crate::run::data_well_formed(d),
    ensures
        crate::run::data_after_commit_spec(crate::run::data_after_commit_spec(d))
            == crate::run::data_after_commit_spec(d),
        crate::run::commit_all_spec(
            crate::run::data_after_commit_spec(d),
            crate::run::commit_all_spec(d, rd),
        ) == crate::run::commit_all_spec(d, rd),
{
    let d1 = crate::run::data_after_commit_spec(d);
    let rd_a = RunDataView { start_time: d.start_time, ..rd };
    let rd1 = crate::run::commit_all_spec(d, rd);
    assert forall|k: int|
        0 <= k < d1.series.len() implies #[trigger] d1.series[k] == (
        d.series[k].0,
        series_after_commit(d.series[k].1),
    ) by {
    }
    assert forall|k: int|
        0 <= k < d1.series.len() implies (#[trigger] crate::run::data_after_commit_spec(
        d1,
    ).series[k]) == d1.series[k] by {
        lemma_commit_idempotent(rd, d.series[k].0, d.series[k].1);
    }
    assert(crate::run::data_after_commit_spec(d1).series =~= d1.series);
    assert(crate::run::data_after_commit_spec(d1) =~= d1);

    lemma_fold_preserves(d.series, rd_a);
    assert(rd1.start_time == d.start_time);
    assert(RunDataView { start_time: d1.start_time, ..rd1 } =~= rd1);
    assert forall|a: int, b: int|
        0 <= a < b < d1.series.len() implies d1.series[a].0 != d1.series[b].0 by {
        assert(d.series[a].0 != d.series[b].0);
    }
    assert forall|k: int|
        0 <= k < d1.series.len() implies committed_matches(
        rd1,
        (#[trigger] d1.series[k]).0,
        d1.series[k].1,
    ) by {
        lemma_fold_commits_each(d.series, rd_a, k);
        let s = d.series[k].1;
        let s1 = d1.series[k].1;
        assert(s1 == series_after_commit(s));
        if s.data_class == crate::types::DataClass::Scalar || s.data_class
            == crate::types::DataClass::BlobSequence {
            assert(s1.rsv.staged =~= Seq::<(Step, crate::record::StageValueView)>::empty());
            assert(series_retained_after(s1) == s1.rsv.retained);
        }
    }
    lemma_fold_stable(d1.series, rd1);
    assert(crate::run::commit_all_spec(d1, rd1) == commit_fold(d1.series, rd1));
}

} // verus!
