//! End-to-end tests of the run loader over concrete record streams.

use run_loader::commit::{BlobSequenceValue, DataLoss, RunData, ScalarValue};
use run_loader::record::{
    Event, PluginData, Summary, SummaryMetadata, SummaryValuePayload, SummaryValueRecord,
    TaggedRunMetadata, What,
};
use run_loader::run::{EventFile, FileInput, ReadTerminal, Run, RunLoader};
use run_loader::types::{Step, Tag, WallTime};

fn file_version(wall_time: u64) -> Event {
    Event {
        step: 0,
        wall_time: Some(WallTime(wall_time)),
        what: Some(What::FileVersion(b"brain.Event:2".to_vec())),
    }
}

fn scalar(tag: &[u8], step: i64, wall_time: u64, value: f64) -> Event {
    Event {
        step,
        wall_time: Some(WallTime(wall_time)),
        what: Some(What::Summary(Summary {
            value: vec![SummaryValueRecord {
                tag: tag.to_vec(),
                metadata: None,
                value: Some(SummaryValuePayload::SimpleValue(value.to_bits())),
            }],
        })),
    }
}

fn graph(step: i64, wall_time: u64, bytes: &[u8]) -> Event {
    Event {
        step,
        wall_time: Some(WallTime(wall_time)),
        what: Some(What::GraphDef(bytes.to_vec())),
    }
}

fn tagged_run_metadata(tag: &[u8], step: i64, wall_time: u64, bytes: &[u8]) -> Event {
    Event {
        step,
        wall_time: Some(WallTime(wall_time)),
        what: Some(What::TaggedRunMetadata(TaggedRunMetadata {
            tag: tag.to_vec(),
            run_metadata: bytes.to_vec(),
        })),
    }
}

fn ok_file(name: &[u8], records: Vec<Event>) -> FileInput {
    FileInput { name: name.to_vec(), opened: true, records, terminal: ReadTerminal::Truncated }
}

fn scalar_values(run_data: &RunData, tag: &[u8]) -> Vec<(i64, u64, Result<f64, DataLoss>)> {
    let ts = run_data.scalars.get(&Tag(tag.to_vec())).expect("scalar series present");
    ts.points
        .iter()
        .map(|p| {
            (p.step.0, p.wall_time.0, match &p.value {
                Ok(ScalarValue(bits)) => Ok(f64::from_bits(*bits)),
                Err(e) => Err(*e),
            })
        })
        .collect()
}

fn plugin_name(md: &SummaryMetadata) -> Vec<u8> {
    md.plugin_data.as_ref().map(|p| p.plugin_name.clone()).unwrap_or_default()
}

/// Two lexicographically ordered files whose step ranges overlap after a
/// preemption: the later file's samples win at equal steps, the start time
/// is the earliest wall time ever seen, and graphs and tagged run metadata
/// land in the blob store under their canonical plugins.
#[test]
fn test() {
    let mut loader = RunLoader::new(Run("train".to_string()));
    let mut run_data = RunData::new();

    let mut f1 = vec![file_version(1234)];
    f1.push(graph(0, 1235, b"<sample model graph>"));
    f1.push(tagged_run_metadata(b"step0000", 0, 1235, b"<sample run metadata>"));
    f1.push(scalar(b"accuracy", 0, 1235, 0.25));
    f1.push(scalar(b"accuracy", 1, 1236, 0.50));
    f1.push(scalar(b"accuracy", 2, 1237, 0.75));
    f1.push(scalar(b"accuracy", 3, 1238, 1.00));
    // preempt!
    let f2 = vec![
        file_version(2345),
        scalar(b"accuracy", 2, 2346, 0.70),
        scalar(b"accuracy", 3, 2347, 0.85),
        scalar(b"accuracy", 4, 2348, 0.90),
    ];

    loader.reload(
        &vec![ok_file(b"tfevents.123", f1), ok_file(b"tfevents.456", f2)],
        &mut run_data,
    );

    // Start time is the file-version event's, though it fed no series.
    assert_eq!(loader.data.start_time, Some(WallTime(1234)));
    assert_eq!(run_data.start_time, Some(WallTime(1234)));

    assert_eq!(run_data.scalars.len(), 1);
    let scalar_ts = run_data.scalars.get(&Tag(b"accuracy".to_vec())).unwrap();
    assert_eq!(plugin_name(&scalar_ts.metadata), b"scalars".to_vec());
    assert_eq!(scalar_ts.metadata.data_class, 1);
    assert_eq!(
        scalar_values(&run_data, b"accuracy"),
        vec![
            (0, 1235, Ok(0.25)),
            (1, 1236, Ok(0.50)),
            (2, 2346, Ok(0.70)),
            (3, 2347, Ok(0.85)),
            (4, 2348, Ok(0.90)),
        ]
    );

    assert_eq!(run_data.blob_sequences.len(), 2);

    let graph_ts = run_data.blob_sequences.get(&Tag(b"__run_graph__".to_vec())).unwrap();
    assert_eq!(plugin_name(&graph_ts.metadata), b"graphs".to_vec());
    assert_eq!(graph_ts.metadata.data_class, 3);
    assert_eq!(graph_ts.points.len(), 1);
    assert_eq!(graph_ts.points[0].step, Step(0));
    assert_eq!(graph_ts.points[0].wall_time, WallTime(1235));
    match &graph_ts.points[0].value {
        Ok(BlobSequenceValue(blobs)) => {
            assert_eq!(blobs, &vec![b"<sample model graph>".to_vec()])
        }
        Err(_) => panic!("graph committed as data loss"),
    }

    let rm_ts = run_data.blob_sequences.get(&Tag(b"step0000".to_vec())).unwrap();
    assert_eq!(plugin_name(&rm_ts.metadata), b"graph_tagged_run_metadata".to_vec());
    assert_eq!(rm_ts.points.len(), 1);
    assert_eq!(rm_ts.points[0].wall_time, WallTime(1235));
    match &rm_ts.points[0].value {
        Ok(BlobSequenceValue(blobs)) => {
            assert_eq!(blobs, &vec![b"<sample run metadata>".to_vec()])
        }
        Err(_) => panic!("run metadata committed as data loss"),
    }
}

/// A tensor-class summary value produces neither a scalar nor a
/// blob-sequence entry, but its wall time still updates the start time.
#[test]
fn tensor_drop() {
    let mut loader = RunLoader::new(Run("train".to_string()));
    let mut run_data = RunData::new();
    let ev = Event {
        step: 0,
        wall_time: Some(WallTime(777)),
        what: Some(What::Summary(Summary {
            value: vec![SummaryValueRecord {
                tag: b"t".to_vec(),
                metadata: None,
                value: Some(SummaryValuePayload::Tensor(b"tensor-bytes".to_vec())),
            }],
        })),
    };
    loader.reload(&vec![ok_file(b"tfevents.1", vec![ev])], &mut run_data);
    assert_eq!(run_data.start_time, Some(WallTime(777)));
    assert_eq!(run_data.scalars.len(), 0);
    assert_eq!(run_data.blob_sequences.len(), 0);
    assert!(run_data.scalars.get(&Tag(b"t".to_vec())).is_none());
}

/// A record with an invalid wall time is dropped; later records in the
/// same file are processed normally, and the dropped record does not touch
/// the start time.
#[test]
fn invalid_wall_time() {
    let mut loader = RunLoader::new(Run("train".to_string()));
    let mut run_data = RunData::new();
    let bad = Event {
        step: 7,
        wall_time: None, // a NaN or negative raw timestamp decodes to nothing
        what: Some(What::Summary(Summary {
            value: vec![SummaryValueRecord {
                tag: b"loss".to_vec(),
                metadata: None,
                value: Some(SummaryValuePayload::SimpleValue(1.0f64.to_bits())),
            }],
        })),
    };
    let good = scalar(b"loss", 8, 5000, 0.5);
    loader.reload(&vec![ok_file(b"tfevents.1", vec![bad, good])], &mut run_data);
    assert_eq!(run_data.start_time, Some(WallTime(5000)));
    assert_eq!(scalar_values(&run_data, b"loss"), vec![(8, 5000, Ok(0.5))]);
}

/// A file missing from the current list becomes dead and is never reopened:
/// records offered for it in a later cycle are ignored.
#[test]
fn file_disappearance() {
    let mut loader = RunLoader::new(Run("train".to_string()));
    let mut run_data = RunData::new();
    let a = b"tfevents.a";
    let b = b"tfevents.b";
    loader.reload(
        &vec![
            ok_file(a, vec![scalar(b"acc", 0, 100, 0.1)]),
            ok_file(b, vec![scalar(b"acc", 1, 101, 0.2)]),
        ],
        &mut run_data,
    );
    assert_eq!(loader.file_state(&b.to_vec()), Some(EventFile::Active));

    loader.reload(&vec![ok_file(a, vec![])], &mut run_data);
    assert_eq!(loader.file_state(&b.to_vec()), Some(EventFile::Dead));

    // The third cycle lists `b` again, with fresh records: it stays dead
    // and nothing it offers is read.
    loader.reload(
        &vec![ok_file(a, vec![]), ok_file(b, vec![scalar(b"acc", 9, 999, 0.9)])],
        &mut run_data,
    );
    assert_eq!(loader.file_state(&b.to_vec()), Some(EventFile::Dead));
    assert_eq!(
        scalar_values(&run_data, b"acc"),
        vec![(0, 100, Ok(0.1)), (1, 101, Ok(0.2))]
    );
}

/// A file whose open failed is recorded dead: its records are not read,
/// this cycle or later.
#[test]
fn open_failure() {
    let mut loader = RunLoader::new(Run("train".to_string()));
    let mut run_data = RunData::new();
    let bad = FileInput {
        name: b"tfevents.locked".to_vec(),
        opened: false,
        records: vec![scalar(b"acc", 0, 50, 0.5)],
        terminal: ReadTerminal::Truncated,
    };
    loader.reload(&vec![bad], &mut run_data);
    assert_eq!(loader.file_state(&b"tfevents.locked".to_vec()), Some(EventFile::Dead));
    assert!(run_data.scalars.get(&Tag(b"acc".to_vec())).is_none());
}

/// A read failure kills the file: records already yielded stay staged, and
/// the file is not read again.
#[test]
fn read_failure() {
    let mut loader = RunLoader::new(Run("train".to_string()));
    let mut run_data = RunData::new();
    let failing = FileInput {
        name: b"tfevents.1".to_vec(),
        opened: true,
        records: vec![scalar(b"acc", 0, 10, 0.25)],
        terminal: ReadTerminal::Failed,
    };
    loader.reload(&vec![failing], &mut run_data);
    assert_eq!(loader.file_state(&b"tfevents.1".to_vec()), Some(EventFile::Dead));
    assert_eq!(scalar_values(&run_data, b"acc"), vec![(0, 10, Ok(0.25))]);

    let more = FileInput {
        name: b"tfevents.1".to_vec(),
        opened: true,
        records: vec![scalar(b"acc", 1, 11, 0.75)],
        terminal: ReadTerminal::Truncated,
    };
    loader.reload(&vec![more], &mut run_data);
    assert_eq!(scalar_values(&run_data, b"acc"), vec![(0, 10, Ok(0.25))]);
}

/// Reloading the same file set with no file growth overwrites the commit
/// with equal content.
#[test]
fn reload_idempotent() {
    let mut loader = RunLoader::new(Run("train".to_string()));
    let mut run_data = RunData::new();
    let records = vec![file_version(1), scalar(b"acc", 0, 2, 0.5), scalar(b"acc", 1, 3, 0.75)];
    loader.reload(&vec![ok_file(b"tfevents.1", records)], &mut run_data);
    let before = scalar_values(&run_data, b"acc");
    let start_before = run_data.start_time;

    loader.reload(&vec![ok_file(b"tfevents.1", vec![])], &mut run_data);
    assert_eq!(scalar_values(&run_data, b"acc"), before);
    assert_eq!(run_data.start_time, start_before);
}

/// Splitting one stream across two load cycles yields the same final
/// commit as a single cycle over the union.
#[test]
fn cross_cycle_continuity() {
    fn first_batch() -> Vec<Event> {
        vec![file_version(10), scalar(b"acc", 0, 11, 0.1), scalar(b"acc", 1, 12, 0.2)]
    }
    fn second_batch() -> Vec<Event> {
        vec![scalar(b"acc", 1, 13, 0.3), scalar(b"acc", 2, 14, 0.4)]
    }

    let mut split_loader = RunLoader::new(Run("train".to_string()));
    let mut split_data = RunData::new();
    split_loader.reload(&vec![ok_file(b"tfevents.1", first_batch())], &mut split_data);
    split_loader.reload(&vec![ok_file(b"tfevents.1", second_batch())], &mut split_data);

    let mut whole = first_batch();
    whole.extend(second_batch());
    let mut whole_loader = RunLoader::new(Run("train".to_string()));
    let mut whole_data = RunData::new();
    whole_loader.reload(&vec![ok_file(b"tfevents.1", whole)], &mut whole_data);

    assert_eq!(
        scalar_values(&split_data, b"acc"),
        scalar_values(&whole_data, b"acc")
    );
    assert_eq!(split_data.start_time, whole_data.start_time);
}

/// The first metadata sighted for a tag is sticky: a later value under the
/// same tag with different metadata does not overwrite it.
#[test]
fn metadata_first_sight() {
    let mut loader = RunLoader::new(Run("train".to_string()));
    let mut run_data = RunData::new();
    let first = Event {
        step: 0,
        wall_time: Some(WallTime(1)),
        what: Some(What::Summary(Summary {
            value: vec![SummaryValueRecord {
                tag: b"acc".to_vec(),
                metadata: Some(SummaryMetadata {
                    plugin_data: Some(PluginData {
                        plugin_name: b"custom_scalars".to_vec(),
                        content: vec![],
                    }),
                    data_class: 1,
                }),
                value: Some(SummaryValuePayload::SimpleValue(0.5f64.to_bits())),
            }],
        })),
    };
    let second = Event {
        step: 1,
        wall_time: Some(WallTime(2)),
        what: Some(What::Summary(Summary {
            value: vec![SummaryValueRecord {
                tag: b"acc".to_vec(),
                metadata: Some(SummaryMetadata {
                    plugin_data: Some(PluginData {
                        plugin_name: b"other_plugin".to_vec(),
                        content: vec![],
                    }),
                    data_class: 1,
                }),
                value: Some(SummaryValuePayload::SimpleValue(0.6f64.to_bits())),
            }],
        })),
    };
    loader.reload(&vec![ok_file(b"tfevents.1", vec![first, second])], &mut run_data);
    let ts = run_data.scalars.get(&Tag(b"acc".to_vec())).unwrap();
    assert_eq!(plugin_name(&ts.metadata), b"custom_scalars".to_vec());
    assert_eq!(ts.points.len(), 2);
}

/// A payload that cannot be translated to the series' frozen class is
/// committed as data loss at its position, without aborting the commit.
#[test]
fn mismatched_payload_is_data_loss() {
    let mut loader = RunLoader::new(Run("train".to_string()));
    let mut run_data = RunData::new();
    let first = scalar(b"acc", 0, 1, 0.5);
    let second = Event {
        step: 1,
        wall_time: Some(WallTime(2)),
        what: Some(What::Summary(Summary {
            value: vec![SummaryValueRecord {
                tag: b"acc".to_vec(),
                metadata: None,
                value: Some(SummaryValuePayload::BlobSequence(vec![b"blob".to_vec()])),
            }],
        })),
    };
    loader.reload(&vec![ok_file(b"tfevents.1", vec![first, second])], &mut run_data);
    assert_eq!(
        scalar_values(&run_data, b"acc"),
        vec![(0, 1, Ok(0.5)), (1, 2, Err(DataLoss))]
    );
}

/// Beyond its capacity the blob-sequence reservoir downsamples: at most
/// ten samples are committed, the most recent offer is always among them,
/// and each committed sample is one that was offered.
#[test]
fn blob_reservoir_downsamples() {
    let mut loader = RunLoader::new(Run("train".to_string()));
    let mut run_data = RunData::new();
    let mut records = Vec::new();
    for step in 0..25i64 {
        records.push(graph(step, 1000 + step as u64, b"g"));
    }
    loader.reload(&vec![ok_file(b"tfevents.1", records)], &mut run_data);
    let ts = run_data.blob_sequences.get(&Tag(b"__run_graph__".to_vec())).unwrap();
    assert_eq!(ts.points.len(), 10);
    assert_eq!(ts.points.last().unwrap().step, Step(24));
    let mut prev = -1i64;
    for p in &ts.points {
        assert!(p.step.0 > prev);
        assert!(p.step.0 < 25);
        assert_eq!(p.wall_time.0, 1000 + p.step.0 as u64);
        prev = p.step.0;
    }
}

/// The checksum switch is stored for readers the caller opens later.
#[test]
fn checksum_toggle() {
    let mut loader = RunLoader::new(Run("train".to_string()));
    assert!(loader.checksum_enabled());
    loader.checksum(false);
    assert!(!loader.checksum_enabled());
}

/// The start time may decrease when an earlier record arrives from a
/// later-opened file.
#[test]
fn start_time_decreases() {
    let mut loader = RunLoader::new(Run("train".to_string()));
    let mut run_data = RunData::new();
    loader.reload(&vec![ok_file(b"tfevents.2", vec![file_version(500)])], &mut run_data);
    assert_eq!(run_data.start_time, Some(WallTime(500)));
    loader.reload(
        &vec![
            ok_file(b"tfevents.1", vec![file_version(100)]),
            ok_file(b"tfevents.2", vec![]),
        ],
        &mut run_data,
    );
    assert_eq!(run_data.start_time, Some(WallTime(100)));
}

/// A record whose payload variant the loader does not recognise feeds no
/// series; only the start time absorbs its wall time.
#[test]
fn unrecognised_variant() {
    let mut loader = RunLoader::new(Run("train".to_string()));
    let mut run_data = RunData::new();
    let unknown = Event { step: 3, wall_time: Some(WallTime(42)), what: None };
    loader.reload(&vec![ok_file(b"tfevents.1", vec![unknown])], &mut run_data);
    assert_eq!(run_data.start_time, Some(WallTime(42)));
    assert_eq!(run_data.scalars.len(), 0);
    assert_eq!(run_data.blob_sequences.len(), 0);
}

/// A summary value without a payload is skipped entirely: it creates no
/// series even though it names a tag.
#[test]
fn empty_summary_value() {
    let mut loader = RunLoader::new(Run("train".to_string()));
    let mut run_data = RunData::new();
    let ev = Event {
        step: 0,
        wall_time: Some(WallTime(9)),
        what: Some(What::Summary(Summary {
            value: vec![SummaryValueRecord { tag: b"ghostly".to_vec(), metadata: None, value: None }],
        })),
    };
    loader.reload(&vec![ok_file(b"tfevents.1", vec![ev])], &mut run_data);
    assert_eq!(run_data.start_time, Some(WallTime(9)));
    assert!(run_data.scalars.get(&Tag(b"ghostly".to_vec())).is_none());
    assert!(run_data.blob_sequences.get(&Tag(b"ghostly".to_vec())).is_none());
}
