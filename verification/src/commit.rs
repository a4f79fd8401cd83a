//! The shared per-run commit storage: tag-keyed stores of downsampled,
//! class-typed time series, published by the loader and read by serving.

use vstd::prelude::*;
use crate::record::{
    clone_bytes, EventValue, EventValueView, SummaryMetadata, SummaryMetadataView,
    SummaryValuePayload, SummaryValuePayloadView,
};
use crate::types::{assoc_find, bytes_eq, distinct_keys, lemma_assoc_find, Step, Tag, WallTime};

verus! {

/// Marker for a staged sample that could not be translated to the sink's
/// data class.
#[derive(Clone, Copy, Debug, PartialEq, Eq, Structural)]
pub struct DataLoss;

/// A committed scalar, carried as the writer's opaque 64-bit token.
#[derive(Clone, Copy, Debug, PartialEq, Eq, Structural)]
pub struct ScalarValue(pub u64);

impl View for ScalarValue {
    type V = ScalarValue;

    open spec fn view(&self) -> ScalarValue {
        *self
    }
}

/// A committed sequence of opaque blobs.
#[derive(Debug)]
pub struct BlobSequenceValue(pub Vec<Vec<u8>>);

impl View for BlobSequenceValue {
    type V = Seq<Seq<u8>>;

    open spec fn view(&self) -> Seq<Seq<u8>> {
        self.0.deep_view()
    }
}

impl EventValue {
    /// Extracts a scalar from a staged payload; anything else is data loss.
    pub fn into_scalar(self) -> (r: Result<ScalarValue, DataLoss>)
        ensures
            r == into_scalar_spec(self@),
    {
        match self {
            EventValue::Summary(SummaryValuePayload::SimpleValue(v)) => Result::Ok(ScalarValue(v)),
            _ => Result::Err(DataLoss),
        }
    }

    /// Extracts a blob sequence from a staged payload: a graph is a single
    /// blob, a blob-sequence summary keeps its blobs, anything else is data
    /// loss.
    pub fn into_blob_sequence(self) -> (r: Result<BlobSequenceValue, DataLoss>)
        ensures
            match r {
                Result::Ok(b) => into_blob_sequence_spec(self@) == Result::<
                    Seq<Seq<u8>>,
                    DataLoss,
                >::Ok(b@),
                Result::Err(e) => into_blob_sequence_spec(self@) == Result::<
                    Seq<Seq<u8>>,
                    DataLoss,
                >::Err(e),
            },
    {
        match self {
            EventValue::GraphDef(b) => {
                let r = BlobSequenceValue(vec![b]);
                proof {
                    assert(r@ =~~= seq![b@]);
                }
                Result::Ok(r)
            },
            EventValue::Summary(SummaryValuePayload::BlobSequence(bs)) => {
                let r = BlobSequenceValue(bs);
                Result::Ok(r)
            },
            _ => Result::Err(DataLoss),
        }
    }
}

/// What `into_scalar` yields on a staged payload.
pub open spec fn into_scalar_spec(p: EventValueView) -> Result<ScalarValue, DataLoss> {
    match p {
        EventValueView::Summary(SummaryValuePayloadView::SimpleValue(v)) => Result::Ok(
            ScalarValue(v),
        ),
        _ => Result::Err(DataLoss),
    }
}

/// What `into_blob_sequence` yields on a staged payload.
pub open spec fn into_blob_sequence_spec(p: EventValueView) -> Result<Seq<Seq<u8>>, DataLoss> {
    match p {
        EventValueView::GraphDef(b) => Result::Ok(seq![b]),
        EventValueView::Summary(SummaryValuePayloadView::BlobSequence(bs)) => Result::Ok(bs),
        _ => Result::Err(DataLoss),
    }
}

/// One committed point of a series.
#[derive(Debug)]
pub struct CommitPoint<V> {
    pub step: Step,
    pub wall_time: WallTime,
    pub value: Result<V, DataLoss>,
}

#[verifier::ext_equal]
pub struct CommitPointView<VV> {
    pub step: Step,
    pub wall_time: WallTime,
    pub value: Result<VV, DataLoss>,
}

impl<V: View> View for CommitPoint<V> {
    type V = CommitPointView<V::V>;

    open spec fn view(&self) -> CommitPointView<V::V> {
        CommitPointView {
            step: self.step,
            wall_time: self.wall_time,
            value: match self.value {
                Result::Ok(v) => Result::Ok(v@),
                Result::Err(e) => Result::Err(e),
            },
        }
    }
}

/// The views of committed points, in order.
pub open spec fn point_views<V: View>(s: Seq<CommitPoint<V>>) -> Seq<CommitPointView<V::V>> {
    s.map(|i: int, p: CommitPoint<V>| p@)
}

/// A committed series: metadata pinned when the sink entry was created,
/// plus the current downsampled points.
#[derive(Debug)]
pub struct TimeSeries<V: View> {
    pub metadata: SummaryMetadata,
    pub points: Vec<CommitPoint<V>>,
}

#[verifier::ext_equal]
pub struct TimeSeriesView<VV> {
    pub metadata: SummaryMetadataView,
    pub points: Seq<CommitPointView<VV>>,
}

impl<V: View> View for TimeSeries<V> {
    type V = TimeSeriesView<V::V>;

    open spec fn view(&self) -> TimeSeriesView<V::V> {
        TimeSeriesView { metadata: self.metadata@, points: point_views(self.points@) }
    }
}

/// `store` after a commit of `points` under `tag`: an existing entry keeps
/// its pinned metadata and has its points replaced; a fresh entry is
/// appended with `md` pinned.
pub open spec fn store_put<VV>(
    store: Seq<(Seq<u8>, TimeSeriesView<VV>)>,
    tag: Seq<u8>,
    md: SummaryMetadataView,
    points: Seq<CommitPointView<VV>>,
) -> Seq<(Seq<u8>, TimeSeriesView<VV>)> {
    let i = assoc_find(store, tag);
    if i >= 0 {
        store.update(i, (tag, TimeSeriesView { metadata: store[i].1.metadata, points }))
    } else {
        store.push((tag, TimeSeriesView { metadata: md, points }))
    }
}

/// A tag-keyed store of committed series.
#[derive(Debug)]
pub struct TagStore<V: View> {
    entries: Vec<(Tag, TimeSeries<V>)>,
}

impl<V: View> View for TagStore<V> {
    type V = Seq<(Seq<u8>, TimeSeriesView<V::V>)>;

    closed spec fn view(&self) -> Seq<(Seq<u8>, TimeSeriesView<V::V>)> {
        self.entries@.map(|i: int, e: (Tag, TimeSeries<V>)| (e.0@, e.1@))
    }
}

impl<V: View> TagStore<V> {
    /// Keys are distinct.
    pub open spec fn well_formed(&self) -> bool {
        distinct_keys(self@)
    }

    /// An empty store.
    pub fn new() -> (r: Self)
        ensures
            r.well_formed(),
            r@ == Seq::<(Seq<u8>, TimeSeriesView<V::V>)>::empty(),
    {
        let r = TagStore { entries: Vec::new() };
        proof {
            assert(r@ =~= Seq::<(Seq<u8>, TimeSeriesView<V::V>)>::empty());
        }
        r
    }

    /// How many tags the store holds.
    pub fn len(&self) -> (n: usize)
        ensures
            n == self@.len(),
    {
        self.entries.len()
    }

    /// The committed series under `tag`, if any.
    pub fn get(&self, tag: &Tag) -> (r: Option<&TimeSeries<V>>)
        ensures
            match r {
                Option::Some(ts) => assoc_find(self@, tag@) >= 0 && ts@ == self@[assoc_find(
                    self@,
                    tag@,
                )].1,
                Option::None => assoc_find(self@, tag@) < 0,
            },
    {
        let mut i: usize = 0;
        while i < self.entries.len()
            invariant
                i <= self@.len(),
                forall|j: int| 0 <= j < i ==> self@[j].0 != tag@,
            decreases self.entries.len() - i,
        {
            proof {
                assert(self@[i as int] == (self.entries@[i as int].0@, self.entries@[i as int].1@));
            }
            if bytes_eq(&self.entries[i].0.0, &tag.0) {
                proof {
                    lemma_assoc_find(self@, tag@);
                    if assoc_find(self@, tag@) < 0 {
                        assert(self@[i as int].0 != tag@);
                    }
                    assert(assoc_find(self@, tag@) == i as int);
                }
                return Option::Some(&self.entries[i].1);
            }
            i += 1;
        }
        proof {
            lemma_assoc_find(self@, tag@);
            if assoc_find(self@, tag@) >= 0 {
                assert(self@[assoc_find(self@, tag@)].0 == tag@);
            }
        }
        Option::None
    }

    /// Commits `points` under `tag`: replaces the points of an existing
    /// entry (keeping its pinned metadata) or creates the entry with a copy
    /// of `md`.
    pub fn put_series(&mut self, tag: &Tag, md: &SummaryMetadata, points: Vec<CommitPoint<V>>)
        requires
            old(self).well_formed(),
        ensures
            final(self).well_formed(),
            final(self)@ == store_put(old(self)@, tag@, md@, point_views(points@)),
    {
        let ghost store0 = self@;
        let ghost pts = point_views(points@);
        let mut i: usize = 0;
        while i < self.entries.len()
            invariant
                i <= self@.len(),
                self@ == store0,
                store0 == old(self)@,
                distinct_keys(store0),
                pts == point_views(points@),
                forall|j: int| 0 <= j < i ==> self@[j].0 != tag@,
            decreases self.entries.len() - i,
        {
            proof {
                assert(self@[i as int] == (self.entries@[i as int].0@, self.entries@[i as int].1@));
            }
            if bytes_eq(&self.entries[i].0.0, &tag.0) {
                proof {
                    lemma_assoc_find(store0, tag@);
                    if assoc_find(store0, tag@) < 0 {
                        assert(store0[i as int].0 != tag@);
                    }
                    assert(assoc_find(store0, tag@) == i as int);
                }
                let ghost entries0 = self.entries@;
                let e = self.entries.remove(i);
                let fresh = TimeSeries { metadata: e.1.metadata, points };
                proof {
                    assert(e == entries0[i as int]);
                    assert(fresh.metadata == e.1.metadata);
                    assert(store0[i as int].1 == entries0[i as int].1@);
                    assert(fresh@.metadata == store0[i as int].1.metadata);
                    assert(fresh.points == points);
                    assert(fresh@.points == pts);
                    assert(fresh@ == TimeSeriesView { metadata: store0[i as int].1.metadata, points: pts });
                }
                self.entries.insert(i, (e.0, fresh));
                proof {
                    assert(self.entries@ =~= entries0.update(i as int, (e.0, fresh)));
                    assert(e.0@ == tag@);
                    assert forall|k: int| 0 <= k < self@.len() implies self@[k]
                        == store0.update(
                        i as int,
                        (tag@, TimeSeriesView { metadata: store0[i as int].1.metadata, points: pts }),
                    )[k] by {
                        assert(self@[k] == (self.entries@[k].0@, self.entries@[k].1@));
                        assert(store0[k] == (entries0[k].0@, entries0[k].1@));
                    }
                    assert(self@ =~= store0.update(
                        i as int,
                        (tag@, TimeSeriesView { metadata: store0[i as int].1.metadata, points: pts }),
                    ));
                    assert forall|a: int, b: int|
                        0 <= a < b < self@.len() implies self@[a].0 != self@[b].0 by {
                        assert(store0[a].0 != store0[b].0);
                    }
                }
                return ;
            }
            i += 1;
        }
        proof {
            lemma_assoc_find(store0, tag@);
            if assoc_find(store0, tag@) >= 0 {
                assert(store0[assoc_find(store0, tag@)].0 == tag@);
            }
        }
        self.entries.push((Tag(clone_bytes(&tag.0)), TimeSeries { metadata: md.duplicate(), points }));
        proof {
            assert(self@ =~= store0.push(
                (tag@, TimeSeriesView { metadata: md@, points: pts }),
            ));
            assert forall|a: int, b: int|
                0 <= a < b < self@.len() implies self@[a].0 != self@[b].0 by {
                if b < store0.len() {
                    assert(store0[a].0 != store0[b].0);
                } else {
                    assert(self@[a].0 == store0[a].0);
                    assert(self@[b].0 == tag@);
                    assert(store0[a].0 != tag@);
                }
            }
        }
    }
}

/// The per-run commit storage the loader publishes into.
#[derive(Debug)]
pub struct RunData {
    pub start_time: Option<WallTime>,
    pub scalars: TagStore<ScalarValue>,
    pub blob_sequences: TagStore<BlobSequenceValue>,
}

#[verifier::ext_equal]
pub struct RunDataView {
    pub start_time: Option<WallTime>,
    pub scalars: Seq<(Seq<u8>, TimeSeriesView<ScalarValue>)>,
    pub blob_sequences: Seq<(Seq<u8>, TimeSeriesView<Seq<Seq<u8>>>)>,
}

impl View for RunData {
    type V = RunDataView;

    open spec fn view(&self) -> RunDataView {
        RunDataView {
            start_time: self.start_time,
            scalars: self.scalars@,
            blob_sequences: self.blob_sequences@,
        }
    }
}

impl RunData {
    /// Both stores have distinct keys.
    pub open spec fn well_formed(&self) -> bool {
        &&& self.scalars.well_formed()
        &&& self.blob_sequences.well_formed()
    }

    /// Empty storage for a run not yet committed to.
    pub fn new() -> (r: Self)
        ensures
            r.well_formed(),
            r@.start_time is None,
            r@.scalars == Seq::<(Seq<u8>, TimeSeriesView<ScalarValue>)>::empty(),
            r@.blob_sequences == Seq::<(Seq<u8>, TimeSeriesView<Seq<Seq<u8>>>)>::empty(),
    {
        RunData {
            start_time: Option::None,
            scalars: TagStore::new(),
            blob_sequences: TagStore::new(),
        }
    }
}

} // verus!
