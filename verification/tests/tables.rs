//! Partition files, registry files and what is decided about them.

use std::collections::BTreeMap;
use std::path::PathBuf;

use arrow::array::{Array, Int64Array, StringArray, UInt16Array, UInt32Array};
use arrow::datatypes::DataType;
use arrow::error::ArrowError;
use bytes::Bytes;
use fleet_midi::decimal::{append_decimal, append_signed_decimal};
use fleet_midi::persist::columnar::ColumnKind;
use fleet_midi::persist::event_table::{
    event_schema, read_partition, write_partition, EventColumns, PartitionWrite,
};
use fleet_midi::persist::merge::{drop_repeats, merge_rows, sort_by_time};
use fleet_midi::persist::partition::{
    hour_bucket, hour_dir, is_parquet_file, partition_path, sources_path, vessel_dir, vessels_path,
    window_hours, window_names, NS_PER_HOUR,
};
use fleet_midi::persist::select::select_latest_within_tolerance;
use fleet_midi::persist::sources::{enter_sources, load_sources, sources_schema, write_sources};
use fleet_midi::persist::store::read_events;
use fleet_midi::persist::vessels::{enter_vessels, load_vessels, vessels_schema, write_vessels};
use fleet_midi::persist::{EventStore, FlushEnd, PersistError, PersistedEvent};
use fleet_midi::{Context, Event};
use parquet::arrow::arrow_reader::ParquetRecordBatchReaderBuilder;
use parquet::errors::ParquetError;

/// A reading of a source at a time.
fn reading(source_id: u16, event_time: i64, seq: u32) -> PersistedEvent {
    let ctx = Context::new(5, event_time - 1, 600_000_000, -1_200_000_000, 150, 3);
    PersistedEvent::from_event(&Event::new(0x0100, event_time, source_id, seq), ctx)
}

/// The file of a partition that holds just these events.
fn file_of(events: &[PersistedEvent]) -> Vec<u8> {
    match write_partition(None, events).unwrap() {
        PartitionWrite::File(bytes) => bytes,
        _ => panic!("no file"),
    }
}

fn vessels_file() -> Vec<u8> {
    let mut vessels = BTreeMap::new();
    vessels.insert(7, "F/V Northstar".to_string());
    vessels.insert(42, "F/V Aurora".to_string());
    vessels.insert(1, "".to_string());
    write_vessels(&vessels).unwrap().unwrap()
}

// --- Text and paths ---

#[test]
fn decimal_texts() {
    let mut text = String::new();
    append_decimal(&mut text, 0);
    append_decimal(&mut text, u64::MAX);
    append_signed_decimal(&mut text, i64::MIN);
    append_signed_decimal(&mut text, 1234567890);
    assert_eq!(text, "018446744073709551615-92233720368547758081234567890");
}

#[test]
fn hours_are_rounded_down() {
    assert_eq!(hour_bucket(0), 0);
    assert_eq!(hour_bucket(NS_PER_HOUR - 1), 0);
    assert_eq!(hour_bucket(NS_PER_HOUR), 1);
    assert_eq!(hour_bucket(-1), -1);
    assert_eq!(hour_bucket(-NS_PER_HOUR), -1);
    assert_eq!(hour_bucket(-NS_PER_HOUR - 1), -2);
    assert_eq!(hour_bucket(i64::MIN), -2562048);
    assert_eq!(hour_bucket(i64::MAX), 2562047);
}

#[test]
fn window_hours_at_hour_boundaries() {
    assert_eq!(window_hours(NS_PER_HOUR, 0), (1, 1));
    assert_eq!(window_hours(NS_PER_HOUR, 1), (0, 1));
    assert_eq!(window_hours(NS_PER_HOUR - 1, 1), (0, 1));
    assert_eq!(window_hours(0, 2_000_000_000), (-1, 0));
    assert_eq!(window_hours(i64::MAX, i64::MAX), (0, 2562047));
    assert_eq!(window_hours(i64::MIN, i64::MAX), (-2562048, -1));
}

#[test]
fn window_files_in_the_order_of_the_hours() {
    let file = |hour: &str| vec![hour.to_string(), "events.parquet".to_string()];
    assert_eq!(window_names(NS_PER_HOUR, 0), vec![file("hour=1")]);
    assert_eq!(window_names(NS_PER_HOUR, 1), vec![file("hour=0"), file("hour=1")]);
    assert_eq!(
        window_names(0, NS_PER_HOUR),
        vec![file("hour=-1"), file("hour=0"), file("hour=1")]
    );
    assert_eq!(window_names(i64::MIN, 0), vec![file("hour=-2562048")]);
    assert_eq!(window_names(i64::MAX, 1), vec![file("hour=2562047")]);
    assert_eq!(window_names(NS_PER_HOUR, -1), Vec::<Vec<String>>::new());
    // The file of an event within the tolerance is among them.
    let (target, tolerance, time) = (5 * NS_PER_HOUR + 7, 2 * NS_PER_HOUR, 3 * NS_PER_HOUR + 8);
    let path = partition_path(42, hour_bucket(time));
    let mut names = window_names(target, tolerance).into_iter();
    assert!(names.any(|names| names == path[2..]));
}

#[test]
fn partition_paths() {
    assert_eq!(
        partition_path(4294967295, -3),
        vec!["data", "vessel=4294967295", "hour=-3", "events.parquet"]
    );
    assert_eq!(vessel_dir(0), "vessel=0");
    assert_eq!(hour_dir(277777), "hour=277777");
    assert_eq!(vessels_path(), vec!["registry", "vessels.parquet"]);
    assert_eq!(sources_path(), vec!["registry", "sources.parquet"]);
    assert_ne!(partition_path(1, 11), partition_path(11, 1));
}

#[test]
fn parquet_file_names() {
    assert!(is_parquet_file("events.parquet"));
    assert!(is_parquet_file(".events.parquet"));
    assert!(is_parquet_file("a.b.parquet"));
    assert!(!is_parquet_file(".parquet"));
    assert!(!is_parquet_file("parquet"));
    assert!(!is_parquet_file("events.parquet.tmp"));
    assert!(!is_parquet_file("eventsxparquet"));
    assert!(!is_parquet_file(""));
}

// --- Selection ---

#[test]
fn nearest_reading_wins_and_later_breaks_ties() {
    let candidates = vec![
        reading(2, 90, 1),
        reading(1, 105, 2),
        reading(1, 98, 3),
        reading(2, 110, 4),
        reading(1, 102, 5),
        reading(1, 102, 6),
    ];
    let results = select_latest_within_tolerance(candidates, 100, 10, None);
    assert_eq!(results, vec![reading(1, 102, 5), reading(2, 110, 4)]);
}

#[test]
fn results_are_ordered_by_source_and_type() {
    let mut other_type = reading(1, 100, 1);
    other_type.event_type = 0x00FF;
    let candidates = vec![reading(300, 100, 3), reading(1, 100, 2), other_type];
    let results = select_latest_within_tolerance(candidates, 100, 0, None);
    assert_eq!(results, vec![other_type, reading(1, 100, 2), reading(300, 100, 3)]);
}

#[test]
fn selection_at_the_ends_of_time() {
    let candidates = vec![reading(1, i64::MIN + 1, 1), reading(1, i64::MAX, 2)];
    assert_eq!(
        select_latest_within_tolerance(candidates.clone(), i64::MAX, i64::MAX, None),
        vec![reading(1, i64::MAX, 2)]
    );
    assert_eq!(select_latest_within_tolerance(candidates, 0, -1, None), vec![]);
}

#[test]
fn other_hours_have_no_influence() {
    let t = 10 * NS_PER_HOUR;
    let near = vec![reading(1, t - 5, 1), reading(1, t + 7, 2), reading(2, t + 1, 3)];
    let mut all = vec![reading(1, t - 3 * NS_PER_HOUR, 9), reading(3, t + 2 * NS_PER_HOUR, 9)];
    all.extend(near.clone());
    assert_eq!(window_hours(t, 10), (9, 10));
    assert_eq!(
        select_latest_within_tolerance(all, t, 10, None),
        select_latest_within_tolerance(near, t, 10, None)
    );
}

// --- Merging ---

#[test]
fn rows_of_the_same_time_keep_their_order() {
    let rows = vec![
        reading(1, 30, 1),
        reading(2, 10, 2),
        reading(3, 20, 3),
        reading(4, 10, 4),
        reading(5, 10, 5),
    ];
    let seqs: Vec<u32> = sort_by_time(&rows).iter().map(|row| row.seq).collect();
    assert_eq!(seqs, vec![2, 4, 5, 3, 1]);
    assert_eq!(sort_by_time(&[]), vec![]);
}

#[test]
fn repeats_next_to_each_other_are_dropped() {
    let mut moved = reading(1, 10, 1);
    moved.lat_e7 = 7;
    let rows = vec![reading(1, 10, 1), moved, reading(1, 10, 2), reading(1, 10, 1)];
    assert_eq!(
        drop_repeats(&rows),
        vec![reading(1, 10, 1), reading(1, 10, 2), reading(1, 10, 1)]
    );
}

#[test]
fn merging_sorts_and_keeps_the_row_that_was_there() {
    let mut moved = reading(1, 20, 1);
    moved.lat_e7 = 7;
    let merged = merge_rows(
        vec![reading(1, 20, 1), reading(1, 40, 2)],
        &[reading(1, 30, 3), moved, reading(1, 10, 4)],
    );
    assert_eq!(
        merged,
        vec![reading(1, 10, 4), reading(1, 20, 1), reading(1, 30, 3), reading(1, 40, 2)]
    );
    assert_eq!(merge_rows(merged.clone(), &[]), merged);
}

#[test]
fn different_readings_are_all_kept() {
    let rows: Vec<PersistedEvent> = (0..100).map(|i| reading(1, (i * 37) % 100, i as u32)).collect();
    let merged = merge_rows(rows[..50].to_vec(), &rows[50..]);
    assert_eq!(merged.len(), 100);
    for row in &rows {
        assert!(merged.contains(row));
    }
}

// --- Partition files ---

#[test]
fn event_columns_hold_the_events() {
    let rows = vec![reading(1, -5, 1), reading(2, 6, 2)];
    let columns = EventColumns::from_events(&rows);
    assert_eq!(columns.vessel_id, vec![5, 5]);
    assert_eq!(columns.event_type, vec![0x0100, 0x0100]);
    assert_eq!(columns.event_time, vec![-5, 6]);
    assert_eq!(columns.source_id, vec![1, 2]);
    assert_eq!(columns.seq, vec![1, 2]);
    assert_eq!(columns.fix_time, vec![-6, 5]);
    assert_eq!(columns.lat_e7, vec![600_000_000, 600_000_000]);
    assert_eq!(columns.lon_e7, vec![-1_200_000_000, -1_200_000_000]);
    assert_eq!(columns.hacc_cm, vec![150, 150]);
    assert_eq!(columns.clock_quality, vec![3, 3]);
    assert_eq!(columns.events(), rows);
}

#[test]
fn partition_is_read_back() {
    let rows = vec![reading(1, -5, 1), reading(2, 6, 2)];
    assert_eq!(read_partition(file_of(&rows)).unwrap(), Some(rows));
}

#[test]
fn large_partition_is_read_back_batch_by_batch() {
    let rows: Vec<PersistedEvent> =
        (0..30_000).map(|i| reading((i % 7) as u16, i, i as u32)).collect();
    let bytes = file_of(&rows);
    let reader = ParquetRecordBatchReaderBuilder::try_new(Bytes::from(bytes.clone()))
        .unwrap()
        .build()
        .unwrap();
    assert!(reader.count() > 1);
    assert_eq!(read_partition(bytes).unwrap(), Some(rows));
}

#[test]
fn partition_file_has_the_event_schema() {
    let bytes = file_of(&[reading(1, 2, 3)]);
    let builder = ParquetRecordBatchReaderBuilder::try_new(Bytes::from(bytes)).unwrap();
    let fields: Vec<(String, DataType, bool)> = builder
        .schema()
        .fields()
        .iter()
        .map(|field| (field.name().clone(), field.data_type().clone(), field.is_nullable()))
        .collect();
    let expected = [
        ("vessel_id", DataType::UInt32),
        ("event_type", DataType::UInt16),
        ("event_time", DataType::Int64),
        ("source_id", DataType::UInt16),
        ("seq", DataType::UInt32),
        ("fix_time", DataType::Int64),
        ("lat_e7", DataType::Int32),
        ("lon_e7", DataType::Int32),
        ("hacc_cm", DataType::UInt16),
        ("clock_quality", DataType::UInt8),
    ];
    assert_eq!(fields.len(), expected.len());
    for (field, (name, data_type)) in fields.iter().zip(expected) {
        assert_eq!(field.0, name);
        assert_eq!(field.1, data_type);
        assert!(!field.2);
    }
}

#[test]
fn partition_file_is_read_by_arrow_alone() {
    let bytes = file_of(&[reading(9, 2, 3), reading(8, 1, 4)]);
    let mut reader = ParquetRecordBatchReaderBuilder::try_new(Bytes::from(bytes))
        .unwrap()
        .build()
        .unwrap();
    let batch = reader.next().unwrap().unwrap();
    let times = batch.column(2).as_any().downcast_ref::<Int64Array>().unwrap();
    let sources = batch.column(3).as_any().downcast_ref::<UInt16Array>().unwrap();
    assert_eq!(times.values().to_vec(), vec![1, 2]);
    assert_eq!(sources.values().to_vec(), vec![8, 9]);
    assert!(reader.next().is_none());
}

#[test]
fn schemas() {
    let names: Vec<String> = event_schema().into_iter().map(|def| def.name).collect();
    assert_eq!(names[0], "vessel_id");
    assert_eq!(names[9], "clock_quality");
    let vessels = vessels_schema();
    assert_eq!(vessels[0].name, "vessel_id");
    assert_eq!(vessels[1].name, "name");
    assert_eq!(vessels[1].kind, ColumnKind::Utf8);
    let sources = sources_schema();
    assert_eq!(sources[0].name, "source_id");
    assert_eq!(sources[0].kind, ColumnKind::U16);
    assert_eq!(sources[1].name, "vessel_id");
    assert_eq!(sources[2].name, "name");
    assert!(!sources[2].nullable);
}

#[test]
fn bytes_that_are_no_parquet_file_are_unreadable() {
    assert!(matches!(read_partition(vec![]), Err(PersistError::Parquet(_))));
    assert!(matches!(read_partition(vec![1; 100]), Err(PersistError::Parquet(_))));
    let bytes = file_of(&[reading(1, 2, 3)]);
    let cut = bytes[..bytes.len() - 1].to_vec();
    assert!(matches!(read_partition(cut), Err(PersistError::Parquet(_))));
}

#[test]
fn file_of_other_columns_is_foreign() {
    assert!(matches!(read_partition(vessels_file()), Ok(None)));
    assert!(matches!(
        write_partition(Some(vessels_file()), &[reading(1, 2, 3)]),
        Ok(PartitionWrite::Foreign)
    ));
}

#[test]
fn nothing_is_written_without_events() {
    assert!(matches!(write_partition(None, &[]), Ok(PartitionWrite::Nothing)));
    assert!(matches!(write_partition(Some(vessels_file()), &[]), Ok(PartitionWrite::Nothing)));
}

#[test]
fn events_are_merged_into_the_file_that_is_there() {
    let there = file_of(&[reading(1, 20, 1), reading(1, 40, 2)]);
    let written = write_partition(Some(there), &[reading(1, 30, 3), reading(1, 20, 1)]).unwrap();
    match written {
        PartitionWrite::File(bytes) => assert_eq!(
            read_partition(bytes).unwrap(),
            Some(vec![reading(1, 20, 1), reading(1, 30, 3), reading(1, 40, 2)])
        ),
        _ => panic!("no file"),
    }
}

#[test]
fn unreadable_file_counts_as_empty() {
    match write_partition(Some(vec![0; 50]), &[reading(1, 30, 3)]).unwrap() {
        PartitionWrite::File(bytes) => {
            assert_eq!(read_partition(bytes).unwrap(), Some(vec![reading(1, 30, 3)]));
        }
        _ => panic!("no file"),
    }
}

#[test]
fn unreadable_files_are_passed_over() {
    let files = vec![file_of(&[reading(1, 2, 3)]), vec![0; 9], file_of(&[reading(2, 1, 4)])];
    assert_eq!(read_events(files), Some(vec![reading(1, 2, 3), reading(2, 1, 4)]));
    assert_eq!(read_events(vec![vec![0; 9], vessels_file()]), None);
    assert_eq!(read_events(vec![]), Some(vec![]));
}

// --- Registry files ---

#[test]
fn vessels_are_loaded_back() {
    let vessels = load_vessels(Some(vessels_file())).unwrap();
    assert_eq!(vessels.len(), 3);
    assert_eq!(vessels[&7], "F/V Northstar");
    assert_eq!(vessels[&42], "F/V Aurora");
    assert_eq!(vessels[&1], "");
}

#[test]
fn vessels_are_stored_in_ascending_order() {
    let mut reader = ParquetRecordBatchReaderBuilder::try_new(Bytes::from(vessels_file()))
        .unwrap()
        .build()
        .unwrap();
    let batch = reader.next().unwrap().unwrap();
    let ids = batch.column(0).as_any().downcast_ref::<UInt32Array>().unwrap();
    let names = batch.column(1).as_any().downcast_ref::<StringArray>().unwrap();
    assert_eq!(ids.values().to_vec(), vec![1, 7, 42]);
    assert_eq!(names.value(2), "F/V Aurora");
    assert_eq!(batch.schema().field(1).name(), "name");
}

#[test]
fn sources_are_loaded_back() {
    let mut sources = BTreeMap::new();
    sources.insert((2, 42), "temp-sensor".to_string());
    sources.insert((1, 42), "Tiefe – gemessen".to_string());
    sources.insert((1, 7), "bite-detector".to_string());
    let file = write_sources(&sources).unwrap().unwrap();
    assert_eq!(load_sources(Some(file.clone())), Some(sources));
    let mut reader = ParquetRecordBatchReaderBuilder::try_new(Bytes::from(file))
        .unwrap()
        .build()
        .unwrap();
    let batch = reader.next().unwrap().unwrap();
    let sids = batch.column(0).as_any().downcast_ref::<UInt16Array>().unwrap();
    let vids = batch.column(1).as_any().downcast_ref::<UInt32Array>().unwrap();
    assert_eq!(sids.values().to_vec(), vec![1, 1, 2]);
    assert_eq!(vids.values().to_vec(), vec![7, 42, 42]);
}

#[test]
fn large_registry_is_loaded_back() {
    let vessels: BTreeMap<u32, String> = (0..10_000).map(|i| (i, format!("vessel {}", i))).collect();
    let file = write_vessels(&vessels).unwrap().unwrap();
    assert_eq!(load_vessels(Some(file)), Some(vessels));
}

#[test]
fn empty_registries_are_loaded_back() {
    let file = write_vessels(&BTreeMap::new()).unwrap().unwrap();
    assert_eq!(load_vessels(Some(file)), Some(BTreeMap::new()));
    let file = write_sources(&BTreeMap::new()).unwrap().unwrap();
    assert_eq!(load_sources(Some(file)), Some(BTreeMap::new()));
}

#[test]
fn absent_or_unreadable_registry_is_empty() {
    assert_eq!(load_vessels(None), Some(BTreeMap::new()));
    assert_eq!(load_sources(None), Some(BTreeMap::new()));
    assert_eq!(load_vessels(Some(vec![7; 40])), Some(BTreeMap::new()));
    assert_eq!(load_sources(Some(vec![7; 40])), Some(BTreeMap::new()));
}

#[test]
fn registry_of_other_columns_is_none() {
    assert_eq!(load_vessels(Some(file_of(&[reading(1, 2, 3)]))), None);
    assert_eq!(load_sources(Some(vessels_file())), None);
    assert!(EventStore::open(PathBuf::new(), None, Some(vessels_file())).is_none());
}

#[test]
fn later_names_replace_earlier_ones() {
    let mut vessels = BTreeMap::new();
    let names = vec!["a".to_string(), "b".to_string(), "c".to_string()];
    enter_vessels(&mut vessels, &vec![1, 2, 1], &names);
    assert_eq!(vessels, BTreeMap::from([(1, "c".to_string()), (2, "b".to_string())]));
    let mut sources = BTreeMap::new();
    enter_sources(&mut sources, &vec![1, 1, 1], &vec![5, 6, 5], &names);
    assert_eq!(sources, BTreeMap::from([((1, 5), "c".to_string()), ((1, 6), "b".to_string())]));
}

// --- The store ---

fn store() -> EventStore {
    EventStore::open(PathBuf::from("/data/fleet"), None, None).unwrap()
}

#[test]
fn new_store_is_empty() {
    let store = store();
    assert_eq!(store.pending_count(), 0);
    assert_eq!(store.base_dir(), &PathBuf::from("/data/fleet"));
    assert!(store.vessels().is_empty());
    assert!(store.sources().is_empty());
    assert!(store.pending_paths().is_empty());
}

#[test]
fn persisting_counts_and_registers() {
    let mut store = store();
    store.register_vessel(1, "F/V Aurora");
    for (n, vessel) in [1, 99, 1].into_iter().enumerate() {
        store.persist(&Event::new(0x0100, 5, 1, n as u32), Context::new(vessel, 0, 0, 0, 0, 0));
        assert_eq!(store.pending_count(), n + 1);
        assert_eq!(store.checked_pending_count(), Some(n + 1));
    }
    assert_eq!(store.vessels()[&1], "F/V Aurora");
    assert_eq!(store.vessels()[&99], "vessel_99");
    assert!(store.sources().is_empty());
    store.register_vessel(99, "F/V Northstar");
    assert_eq!(store.vessels()[&99], "F/V Northstar");
}

#[test]
fn flush_writes_partitions_in_order_then_the_registry() {
    let mut store = store();
    store.register_source(3, 2, "bite-detector");
    let hour = NS_PER_HOUR;
    for (vessel, time, seq) in [(2, 5, 1), (1, -1, 2), (1, hour, 3), (1, -2, 4)] {
        store.persist(&Event::new(0x0100, time, 3, seq), Context::new(vessel, 0, 0, 0, 0, 0));
    }
    let paths = store.pending_paths();
    assert_eq!(paths, vec![partition_path(1, -1), partition_path(1, 1), partition_path(2, 0)]);
    let flushed = store.flush(vec![None, None, None]);
    assert!(matches!(flushed.end, FlushEnd::Done));
    assert_eq!(store.pending_count(), 0);
    assert_eq!(flushed.files.len(), 5);
    for (file, path) in flushed.files.iter().zip(&paths) {
        assert_eq!(&file.path, path);
    }
    let first = read_partition(flushed.files[0].bytes.clone()).unwrap().unwrap();
    assert_eq!(first.iter().map(|row| row.seq).collect::<Vec<u32>>(), vec![4, 2]);
    assert_eq!(flushed.files[3].path, vessels_path());
    assert_eq!(flushed.files[4].path, sources_path());
    let again = EventStore::open(
        PathBuf::from("/data/fleet"),
        Some(flushed.files[3].bytes.clone()),
        Some(flushed.files[4].bytes.clone()),
    )
    .unwrap();
    assert_eq!(again.vessels(), store.vessels());
    assert_eq!(again.sources(), store.sources());
}

#[test]
fn flush_stops_at_a_foreign_file() {
    let mut store = store();
    for vessel in [1, 2] {
        store.persist(&Event::new(0x0100, 5, 1, 1), Context::new(vessel, 0, 0, 0, 0, 0));
    }
    let flushed = store.flush(vec![None, Some(vessels_file())]);
    assert!(matches!(flushed.end, FlushEnd::Foreign));
    assert_eq!(flushed.files.len(), 1);
    assert_eq!(flushed.files[0].path, partition_path(1, 0));
    assert_eq!(store.pending_count(), 0);
}

#[test]
fn query_finds_stored_rows() {
    let store = store();
    let files = vec![file_of(&[reading(1, 90, 1), reading(2, 104, 2)]), file_of(&[reading(1, 97, 3)])];
    assert_eq!(
        store.query_latest_within_tolerance(files.clone(), 100, 5, None),
        Some(vec![reading(1, 97, 3), reading(2, 104, 2)])
    );
    assert_eq!(store.query_latest_within_tolerance(files, 100, 5, Some(1)), Some(vec![]));
    assert_eq!(store.query_latest_within_tolerance(vec![vessels_file()], 0, 0, None), None);
    assert_eq!(store.read_all(vec![vessels_file()]), None);
}

#[test]
fn errors_are_told_apart() {
    let io = PersistError::from(std::io::Error::other("x"));
    assert!(matches!(io, PersistError::Io(_)));
    let arrow = PersistError::from(ArrowError::DivideByZero);
    assert!(matches!(arrow, PersistError::Arrow(ArrowError::DivideByZero)));
    let parquet = PersistError::from(ParquetError::General("x".to_string()));
    assert!(matches!(parquet, PersistError::Parquet(ParquetError::General(_))));
}
