//! Decoded record shapes consumed by the loader, and the staged payload
//! forms they translate into, together with their mathematical views.

use vstd::prelude::*;
use crate::types::WallTime;

verus! {

/// Plugin descriptor carried inside summary metadata.
#[derive(Debug)]
pub struct PluginData {
    pub plugin_name: Vec<u8>,
    pub content: Vec<u8>,
}

#[verifier::ext_equal]
pub struct PluginDataView {
    pub plugin_name: Seq<u8>,
    pub content: Seq<u8>,
}

impl View for PluginData {
    type V = PluginDataView;

    open spec fn view(&self) -> PluginDataView {
        PluginDataView { plugin_name: self.plugin_name@, content: self.content@ }
    }
}

/// Descriptor of a time series: at least a plugin name and a data-class
/// code. Captured once per tag, at first sighting.
#[derive(Debug)]
pub struct SummaryMetadata {
    pub plugin_data: Option<PluginData>,
    pub data_class: i32,
}

#[verifier::ext_equal]
pub struct SummaryMetadataView {
    pub plugin_data: Option<PluginDataView>,
    pub data_class: i32,
}

impl View for SummaryMetadata {
    type V = SummaryMetadataView;

    open spec fn view(&self) -> SummaryMetadataView {
        SummaryMetadataView {
            plugin_data: match self.plugin_data {
                Option::Some(pd) => Option::Some(pd@),
                Option::None => Option::None,
            },
            data_class: self.data_class,
        }
    }
}

impl SummaryMetadata {
    /// A structural copy of this metadata.
    pub fn duplicate(&self) -> (r: SummaryMetadata)
        ensures
            r@ == self@,
    {
        let plugin_data = match &self.plugin_data {
            Option::Some(pd) => Option::Some(
                PluginData {
                    plugin_name: clone_bytes(&pd.plugin_name),
                    content: clone_bytes(&pd.content),
                },
            ),
            Option::None => Option::None,
        };
        let r = SummaryMetadata { plugin_data, data_class: self.data_class };
        proof {
            assert(r@ =~= self@);
        }
        r
    }
}

/// Payload attached to one value inside a summary record.
#[derive(Debug)]
pub enum SummaryValuePayload {
    /// A scalar reading, carried as an opaque 64-bit token (in practice the
    /// bit pattern of the writer's floating-point value, whose ordering the
    /// loader never consults).
    SimpleValue(u64),
    /// A tensor, carried as opaque encoded bytes.
    Tensor(Vec<u8>),
    /// A sequence of opaque blobs.
    BlobSequence(Vec<Vec<u8>>),
}

pub enum SummaryValuePayloadView {
    SimpleValue(u64),
    Tensor(Seq<u8>),
    BlobSequence(Seq<Seq<u8>>),
}

impl View for SummaryValuePayload {
    type V = SummaryValuePayloadView;

    open spec fn view(&self) -> SummaryValuePayloadView {
        match self {
            SummaryValuePayload::SimpleValue(v) => SummaryValuePayloadView::SimpleValue(*v),
            SummaryValuePayload::Tensor(b) => SummaryValuePayloadView::Tensor(b@),
            SummaryValuePayload::BlobSequence(bs) => SummaryValuePayloadView::BlobSequence(
                bs.deep_view(),
            ),
        }
    }
}

/// One tagged value inside a summary record.
#[derive(Debug)]
pub struct SummaryValueRecord {
    pub tag: Vec<u8>,
    pub metadata: Option<SummaryMetadata>,
    pub value: Option<SummaryValuePayload>,
}

#[verifier::ext_equal]
pub struct SummaryValueRecordView {
    pub tag: Seq<u8>,
    pub metadata: Option<SummaryMetadataView>,
    pub value: Option<SummaryValuePayloadView>,
}

impl View for SummaryValueRecord {
    type V = SummaryValueRecordView;

    open spec fn view(&self) -> SummaryValueRecordView {
        SummaryValueRecordView {
            tag: self.tag@,
            metadata: match self.metadata {
                Option::Some(md) => Option::Some(md@),
                Option::None => Option::None,
            },
            value: match self.value {
                Option::Some(v) => Option::Some(v@),
                Option::None => Option::None,
            },
        }
    }
}

/// A summary record: a list of tagged values.
#[derive(Debug)]
pub struct Summary {
    pub value: Vec<SummaryValueRecord>,
}

/// Run-level metadata bytes routed to a user-supplied tag.
#[derive(Debug)]
pub struct TaggedRunMetadata {
    pub tag: Vec<u8>,
    pub run_metadata: Vec<u8>,
}

/// The payload variants a decoded record can carry. Variants unknown to the
/// loader arrive as an absent payload.
#[derive(Debug)]
pub enum What {
    FileVersion(Vec<u8>),
    GraphDef(Vec<u8>),
    TaggedRunMetadata(TaggedRunMetadata),
    Summary(Summary),
}

pub enum WhatView {
    FileVersion(Seq<u8>),
    GraphDef(Seq<u8>),
    TaggedRunMetadata(Seq<u8>, Seq<u8>),
    Summary(Seq<SummaryValueRecordView>),
}

/// The views of summary value records, in order.
pub open spec fn record_views(s: Seq<SummaryValueRecord>) -> Seq<SummaryValueRecordView> {
    s.map(|i: int, r: SummaryValueRecord| r@)
}

/// The views of decoded records, in order.
pub open spec fn event_views(s: Seq<Event>) -> Seq<EventView> {
    s.map(|i: int, e: Event| e@)
}

impl View for What {
    type V = WhatView;

    open spec fn view(&self) -> WhatView {
        match self {
            What::FileVersion(v) => WhatView::FileVersion(v@),
            What::GraphDef(b) => WhatView::GraphDef(b@),
            What::TaggedRunMetadata(t) => WhatView::TaggedRunMetadata(t.tag@, t.run_metadata@),
            What::Summary(s) => WhatView::Summary(record_views(s.value@)),
        }
    }
}

/// One decoded record. The wall time is absent when the raw timestamp was
/// invalid (not a finite non-negative reading); such records are dropped.
#[derive(Debug)]
pub struct Event {
    pub step: i64,
    pub wall_time: Option<WallTime>,
    pub what: Option<What>,
}

#[verifier::ext_equal]
pub struct EventView {
    pub step: i64,
    pub wall_time: Option<WallTime>,
    pub what: Option<WhatView>,
}

impl View for Event {
    type V = EventView;

    open spec fn view(&self) -> EventView {
        EventView {
            step: self.step,
            wall_time: self.wall_time,
            what: match self.what {
                Option::Some(w) => Option::Some(w@),
                Option::None => Option::None,
            },
        }
    }
}

/// Payload staged in a reservoir, kept close to the decoded record form.
#[derive(Debug)]
pub enum EventValue {
    GraphDef(Vec<u8>),
    Summary(SummaryValuePayload),
}

pub enum EventValueView {
    GraphDef(Seq<u8>),
    Summary(SummaryValuePayloadView),
}

impl View for EventValue {
    type V = EventValueView;

    open spec fn view(&self) -> EventValueView {
        match self {
            EventValue::GraphDef(b) => EventValueView::GraphDef(b@),
            EventValue::Summary(p) => EventValueView::Summary(p@),
        }
    }
}

/// A value staged in the reservoir: the record's wall time plus its payload.
#[derive(Debug)]
pub struct StageValue {
    pub wall_time: WallTime,
    pub payload: EventValue,
}

#[verifier::ext_equal]
pub struct StageValueView {
    pub wall_time: WallTime,
    pub payload: EventValueView,
}

impl View for StageValue {
    type V = StageValueView;

    open spec fn view(&self) -> StageValueView {
        StageValueView { wall_time: self.wall_time, payload: self.payload@ }
    }
}

impl SummaryValuePayload {
    /// A structural copy of this payload.
    pub fn duplicate(&self) -> (r: SummaryValuePayload)
        ensures
            r@ == self@,
    {
        let r = match self {
            SummaryValuePayload::SimpleValue(v) => SummaryValuePayload::SimpleValue(*v),
            SummaryValuePayload::Tensor(b) => SummaryValuePayload::Tensor(clone_bytes(b)),
            SummaryValuePayload::BlobSequence(bs) => SummaryValuePayload::BlobSequence(
                clone_blobs(bs),
            ),
        };
        proof {
            assert(r@ =~~= self@);
        }
        r
    }
}

impl StageValue {
    /// A structural copy of this staged value.
    pub fn duplicate(&self) -> (r: StageValue)
        ensures
            r@ == self@,
    {
        let payload = match &self.payload {
            EventValue::GraphDef(b) => EventValue::GraphDef(clone_bytes(b)),
            EventValue::Summary(p) => EventValue::Summary(p.duplicate()),
        };
        let r = StageValue { wall_time: self.wall_time, payload };
        proof {
            assert(r@ =~~= self@);
        }
        r
    }
}

/// A structural copy of a byte string.
pub fn clone_bytes(v: &Vec<u8>) -> (r: Vec<u8>)
    ensures
        r@ == v@,
{
    let mut r: Vec<u8> = Vec::new();
    let mut i: usize = 0;
    while i < v.len()
        invariant
            i <= v.len(),
            r@ == v@.subrange(0, i as int),
        decreases v.len() - i,
    {
        r.push(v[i]);
        proof {
            assert(r@ =~= v@.subrange(0, i as int + 1));
        }
        i += 1;
    }
    proof {
        assert(v@.subrange(0, v@.len() as int) =~= v@);
    }
    r
}

/// A structural copy of a list of blobs.
pub fn clone_blobs(v: &Vec<Vec<u8>>) -> (r: Vec<Vec<u8>>)
    ensures
        r.deep_view() == v.deep_view(),
{
    let mut r: Vec<Vec<u8>> = Vec::new();
    let mut i: usize = 0;
    while i < v.len()
        invariant
            i <= v.len(),
            r@.len() == i,
            forall|j: int| 0 <= j < i ==> r@[j]@ == v@[j]@,
        decreases v.len() - i,
    {
        let cb = clone_bytes(&v[i]);
        r.push(cb);
        i += 1;
    }
    proof {
        assert forall|j: int| 0 <= j < v@.len() implies r.deep_view()[j] =~= v.deep_view()[j] by {
            assert(r@[j]@ == v@[j]@);
        }
        assert(r.deep_view() =~~= v.deep_view());
    }
    r
}

/// The synthetic tag under which run-level graphs are staged.
pub open spec fn run_graph_tag_spec() -> Seq<u8> {
    seq![95u8, 95u8, 114u8, 117u8, 110u8, 95u8, 103u8, 114u8, 97u8, 112u8, 104u8, 95u8, 95u8]
}

/// Builds the synthetic graph tag, `__run_graph__`.
pub fn run_graph_tag() -> (t: Vec<u8>)
    ensures
        t@ == run_graph_tag_spec(),
{
    let t = vec![95u8, 95u8, 114u8, 117u8, 110u8, 95u8, 103u8, 114u8, 97u8, 112u8, 104u8, 95u8, 95u8];
    proof {
        assert(t@ =~= run_graph_tag_spec());
    }
    t
}

/// The plugin name for scalar summaries, `scalars`.
pub open spec fn scalars_plugin_spec() -> Seq<u8> {
    seq![115u8, 99u8, 97u8, 108u8, 97u8, 114u8, 115u8]
}

/// The plugin name for run-level graphs, `graphs`.
pub open spec fn graphs_plugin_spec() -> Seq<u8> {
    seq![103u8, 114u8, 97u8, 112u8, 104u8, 115u8]
}

/// The plugin name for tagged run metadata, `graph_tagged_run_metadata`.
pub open spec fn tagged_run_metadata_plugin_spec() -> Seq<u8> {
    seq![
        103u8, 114u8, 97u8, 112u8, 104u8, 95u8, 116u8, 97u8, 103u8, 103u8, 101u8, 100u8, 95u8,
        114u8, 117u8, 110u8, 95u8, 109u8, 101u8, 116u8, 97u8, 100u8, 97u8, 116u8, 97u8,
    ]
}

/// Builds the plugin name for scalar summaries.
pub fn scalars_plugin() -> (p: Vec<u8>)
    ensures
        p@ == scalars_plugin_spec(),
{
    let p = vec![115u8, 99u8, 97u8, 108u8, 97u8, 114u8, 115u8];
    proof {
        assert(p@ =~= scalars_plugin_spec());
    }
    p
}

/// Builds the plugin name for run-level graphs.
pub fn graphs_plugin() -> (p: Vec<u8>)
    ensures
        p@ == graphs_plugin_spec(),
{
    let p = vec![103u8, 114u8, 97u8, 112u8, 104u8, 115u8];
    proof {
        assert(p@ =~= graphs_plugin_spec());
    }
    p
}

/// Builds the plugin name for tagged run metadata.
pub fn tagged_run_metadata_plugin() -> (p: Vec<u8>)
    ensures
        p@ == tagged_run_metadata_plugin_spec(),
{
    let p = vec![
        103u8, 114u8, 97u8, 112u8, 104u8, 95u8, 116u8, 97u8, 103u8, 103u8, 101u8, 100u8, 95u8,
        114u8, 117u8, 110u8, 95u8, 109u8, 101u8, 116u8, 97u8, 100u8, 97u8, 116u8, 97u8,
    ];
    proof {
        assert(p@ =~= tagged_run_metadata_plugin_spec());
    }
    p
}

} // verus!
