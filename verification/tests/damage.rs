//! Files of tables whose bytes are not as they were written.

use std::collections::BTreeMap;
use std::sync::Arc;

use arrow::array::{
    ArrayRef, Float64Array, Int32Array, Int64Array, ListArray, RecordBatch, StringArray,
    UInt16Array, UInt32Array, UInt8Array,
};
use arrow::datatypes::{DataType, Field, Int32Type, Schema};
use bytes::Bytes;
use fleet_midi::persist::columnar::{Chunk, ColumnKind, Leaf, RowGroup};
use fleet_midi::persist::compact::{
    find_field, find_number, find_struct, read_number, read_varint, skip_fields, skip_typed,
    skip_varint, LONGEST_I32, LONGEST_I64,
};
use fleet_midi::persist::deltas::{check_deltas, read_delta_head, DeltaHead};
use fleet_midi::persist::event_table::{read_partition, write_partition, PartitionWrite};
use fleet_midi::persist::file_schema::{check_footer, read_leaves};
use fleet_midi::persist::pages::{
    check_levels, check_page, check_pages, check_runs, check_texts, read_page_head, Page, PageHead,
    Soundness, PLAIN, RLE_DICTIONARY,
};
use fleet_midi::persist::store::read_events;
use fleet_midi::persist::table_file::{check_chunk, check_groups};
use fleet_midi::persist::vessels::{load_vessels, write_vessels};
use fleet_midi::persist::{PersistError, PersistedEvent};
use fleet_midi::{Context, Event};
use parquet::arrow::ArrowWriter;
use parquet::basic::Encoding;
use parquet::file::metadata::{ParquetMetaData, ParquetMetaDataReader};
use parquet::file::properties::{WriterProperties, WriterVersion};

const I32: Leaf = Leaf { kind: ColumnKind::I32, nullable: false };

const TEXT: Leaf = Leaf { kind: ColumnKind::Utf8, nullable: false };

const MAYBE_I32: Leaf = Leaf { kind: ColumnKind::I32, nullable: true };

/// A reading of a source at a time.
fn reading(source_id: u16, event_time: i64, seq: u32) -> PersistedEvent {
    let ctx = Context::new(5, event_time - 1, 600_000_000, -1_200_000_000, 150, 3);
    PersistedEvent::from_event(&Event::new(0x0100, event_time, source_id, seq), ctx)
}

/// The file of a partition that holds just these events.
fn file_of(events: &[PersistedEvent]) -> Vec<u8> {
    match write_partition(None, events).unwrap() {
        PartitionWrite::File(bytes) => bytes,
        _ => panic!("no file"),
    }
}

fn metadata_of(bytes: &[u8]) -> ParquetMetaData {
    ParquetMetaDataReader::new().parse_and_finish(&Bytes::copy_from_slice(bytes)).unwrap()
}

/// The bytes of a variable-length integer.
fn varint(mut value: u64) -> Vec<u8> {
    let mut bytes = Vec::new();
    while value >= 0x80 {
        bytes.push((value % 0x80) as u8 | 0x80);
        value /= 0x80;
    }
    bytes.push(value as u8);
    bytes
}

/// The place in a file of the compressed size of its first chunk: an integer of
/// 64 bits in the field behind the one of the uncompressed size, which is equal.
fn place_of_size(bytes: &[u8]) -> usize {
    let size = metadata_of(bytes).row_group(0).column(0).compressed_size();
    let mut field = vec![0x16];
    field.append(&mut varint(2 * size as u64));
    let both = [field.clone(), field.clone()].concat();
    let at = bytes.windows(both.len()).position(|part| part == both).unwrap();
    at + field.len() + 1
}

fn is_damaged(bytes: Vec<u8>) -> bool {
    matches!(read_partition(bytes), Err(PersistError::Damaged))
}

// --- Footers ---

#[test]
fn negative_size_of_a_chunk_is_damage() {
    let mut bytes = file_of(&[reading(1, 2, 3), reading(2, 3, 4)]);
    let at = place_of_size(&bytes);
    bytes[at] ^= 1;
    assert!(metadata_of(&bytes).row_group(0).column(0).compressed_size() < 0);
    assert!(is_damaged(bytes));
}

#[test]
fn size_beyond_the_pages_is_damage() {
    let mut bytes = file_of(&[reading(1, 2, 3), reading(2, 3, 4)]);
    let at = place_of_size(&bytes);
    bytes[at] ^= 2;
    assert!(is_damaged(bytes));
}

#[test]
fn chunks_lie_in_the_file() {
    let bytes = vec![0u8; 10];
    let sound = |data_start, dictionary_start, size| {
        let chunk = Chunk { compressed: false, data_start, dictionary_start, size };
        check_chunk(&chunk, &bytes, I32)
    };
    assert_eq!(sound(4, None, 0), Soundness::Whole);
    assert_eq!(sound(-1, Some(10), 0), Soundness::Whole);
    assert_eq!(sound(11, None, 0), Soundness::Damaged);
    assert_eq!(sound(-1, None, 0), Soundness::Damaged);
    assert_eq!(sound(4, Some(-1), 0), Soundness::Damaged);
    assert_eq!(sound(4, None, -1), Soundness::Damaged);
    assert_eq!(sound(4, None, 7), Soundness::Damaged);
    assert_eq!(sound(i64::MAX, None, i64::MAX), Soundness::Damaged);
    let chunk = Chunk { compressed: true, data_start: 4, dictionary_start: None, size: 0 };
    assert_eq!(check_chunk(&chunk, &bytes, I32), Soundness::Unsupported);
}

#[test]
fn row_groups_have_counts_and_chunks() {
    let bytes = vec![0u8; 10];
    let groups = |rows: &[i64]| -> Vec<RowGroup> {
        rows.iter().map(|rows| RowGroup { rows: *rows, chunks: vec![] }).collect()
    };
    let sound = |rows: &[i64]| check_groups(&groups(rows), &bytes, &vec![]);
    assert_eq!(sound(&[]), Soundness::Whole);
    assert_eq!(sound(&[3, i64::MAX - 3]), Soundness::Whole);
    assert_eq!(sound(&[4, i64::MAX - 3]), Soundness::Damaged);
    assert_eq!(sound(&[3, -1]), Soundness::Damaged);
    assert_eq!(check_groups(&groups(&[3]), &bytes, &vec![I32]), Soundness::Damaged);
}

/// The end of a file whose footer begins with these bytes.
fn footer_of(start: &[u8]) -> Vec<u8> {
    let mut bytes = vec![b'x'];
    bytes.extend(start);
    bytes.extend([start.len() as u8, 0, 0, 0]);
    bytes.extend(b"PAR1");
    bytes
}

fn leaf(kind: ColumnKind) -> Option<Leaf> {
    Some(Leaf { kind, nullable: false })
}

#[test]
fn schemas_of_files() {
    assert_eq!(
        read_leaves(&file_of(&[reading(1, 2, 3)])),
        Some(vec![
            leaf(ColumnKind::U32),
            leaf(ColumnKind::U16),
            leaf(ColumnKind::I64),
            leaf(ColumnKind::U16),
            leaf(ColumnKind::U32),
            leaf(ColumnKind::I64),
            leaf(ColumnKind::I32),
            leaf(ColumnKind::I32),
            leaf(ColumnKind::U16),
            leaf(ColumnKind::U8),
        ])
    );
    assert_eq!(
        read_leaves(&write_vessels(&BTreeMap::new()).unwrap().unwrap()),
        Some(vec![leaf(ColumnKind::U32), leaf(ColumnKind::Utf8)])
    );
}

/// The columns of a file with one column, described by an element.
fn leaves_of(element: &[u8]) -> Option<Vec<Option<Leaf>>> {
    let table = [0x15, 2, 0x19, 0x2C, 0x48, 1, b't', 0x15, 2, 0];
    read_leaves(&footer_of(&[&table, element, &[7]].concat()))
}

#[test]
fn elements_of_schemas() {
    // A required column of 32 bits, and what it may stand for by its former name.
    assert_eq!(leaves_of(&[0x15, 2, 0x25, 0, 0x18, 1, b'c', 0]), Some(vec![leaf(ColumnKind::I32)]));
    for (converted, kind) in [
        (11, leaf(ColumnKind::U8)),
        (12, leaf(ColumnKind::U16)),
        (13, leaf(ColumnKind::U32)),
        (17, leaf(ColumnKind::I32)),
        (6, None),
        (15, None),
    ] {
        let element = [0x15, 2, 0x25, 0, 0x18, 1, b'c', 0x25, 2 * converted, 0];
        assert_eq!(leaves_of(&element), Some(vec![kind]));
    }
    // What it stands for by its present name alone: integers of a width and sign.
    for (width, sign, kind) in [
        (8, 2, leaf(ColumnKind::U8)),
        (16, 2, leaf(ColumnKind::U16)),
        (32, 2, leaf(ColumnKind::U32)),
        (32, 1, leaf(ColumnKind::I32)),
        (16, 1, None),
    ] {
        let logical = [0x6C, 0xAC, 0x13, width, 0x10 + sign, 0, 0];
        let element = [&[0x15, 2, 0x25, 0, 0x18, 1, b'c'][..], &logical, &[0]].concat();
        assert_eq!(leaves_of(&element), Some(vec![kind]));
    }
    // Texts, by either name, and bytes.
    let texts = [0x15, 12, 0x25, 0, 0x18, 1, b'c', 0x6C, 0x1C, 0, 0, 0];
    assert_eq!(leaves_of(&texts), Some(vec![leaf(ColumnKind::Utf8)]));
    let texts = [0x15, 12, 0x25, 0, 0x18, 1, b'c', 0x25, 0, 0];
    assert_eq!(leaves_of(&texts), Some(vec![leaf(ColumnKind::Utf8)]));
    assert_eq!(leaves_of(&[0x15, 12, 0x25, 0, 0x18, 1, b'c', 0]), Some(vec![None]));
    // A column that may lack values, and one with many in a row.
    let maybe = Some(Leaf { kind: ColumnKind::I64, nullable: true });
    assert_eq!(leaves_of(&[0x15, 4, 0x25, 2, 0x18, 1, b'c', 0]), Some(vec![maybe]));
    assert_eq!(leaves_of(&[0x15, 4, 0x25, 4, 0x18, 1, b'c', 0]), Some(vec![None]));
    // A group is no column.
    assert_eq!(leaves_of(&[0x35, 0, 0x18, 1, b'g', 0x15, 2, 0]), Some(vec![]));
    // An element that is cut off, or of which fields hold lists.
    assert_eq!(leaves_of(&[0x15, 4, 0x25, 2, 0x18, 9]), None);
    assert_eq!(leaves_of(&[0x19, 0x15, 0]), None);
}

#[test]
fn files_without_schemas() {
    assert_eq!(read_leaves(&vec![]), None);
    assert_eq!(read_leaves(&vec![0; 40]), None);
    assert_eq!(read_leaves(&footer_of(&[0x15, 2])), None);
    assert_eq!(read_leaves(&footer_of(&[0x15, 2, 0x19])), None);
    assert_eq!(read_leaves(&footer_of(&[0x15, 2, 0x19, 0x0C, 0])), None);
    assert_eq!(read_leaves(&footer_of(&[0x15, 2, 0x19, 0x1C, 0])), Some(vec![]));
    assert_eq!(read_leaves(&footer_of(&[0x15, 2, 0x19, 0x1C])), None);
    // The number of elements behind the header of the list.
    let fifteen = [&[0x15, 2, 0x19, 0xFC, 15][..], &[0; 15]].concat();
    assert_eq!(read_leaves(&footer_of(&fifteen)), Some(vec![None; 14]));
    assert_eq!(read_leaves(&footer_of(&fifteen[..19])), None);
    let mut cut = footer_of(&fifteen);
    cut.drain(0..2);
    assert_eq!(read_leaves(&cut), None);
}

#[test]
fn integers_in_footers_end() {
    assert!(check_footer(&vec![]));
    assert!(check_footer(&footer_of(&[0xFF; 200])));
    assert!(check_footer(&file_of(&[reading(1, 2, 3)])));
}

#[test]
fn damaged_footer_is_unreadable() {
    let mut bytes = file_of(&[reading(1, 2, 3)]);
    let footer = bytes.len() - 8 - bytes[bytes.len() - 8] as usize
        - 256 * bytes[bytes.len() - 7] as usize;
    for byte in bytes.iter_mut().skip(footer + 4).take(40) {
        *byte = 0xFF;
    }
    assert!(matches!(read_partition(bytes), Err(PersistError::Parquet(_))));
}

/// A file of columns, written in a way.
fn file_written(
    fields: Vec<Field>,
    columns: Vec<ArrayRef>,
    properties: Option<WriterProperties>,
) -> Vec<u8> {
    let batch = RecordBatch::try_new(Arc::new(Schema::new(fields)), columns).unwrap();
    let mut bytes = Vec::new();
    let mut writer = ArrowWriter::try_new(&mut bytes, batch.schema(), properties).unwrap();
    writer.write(&batch).unwrap();
    writer.close().unwrap();
    bytes
}

fn file_with(fields: Vec<Field>, columns: Vec<ArrayRef>) -> Vec<u8> {
    file_written(fields, columns, None)
}

fn numbers(values: Vec<u32>) -> ArrayRef {
    Arc::new(UInt32Array::from(values))
}

fn texts(values: Vec<&str>) -> ArrayRef {
    Arc::new(StringArray::from(values))
}

fn vessel_fields(nullable: bool) -> Vec<Field> {
    vec![
        Field::new("vessel_id", DataType::UInt32, nullable),
        Field::new("name", DataType::Utf8, nullable),
    ]
}

#[test]
fn columns_of_other_kinds_are_no_vessels() {
    let fields = |kind| {
        vec![Field::new("n", kind, false), Field::new("name", DataType::Utf8, false)]
    };
    let columns = |values: Vec<i64>, names| -> Vec<ArrayRef> {
        vec![Arc::new(Int64Array::from(values)), texts(names)]
    };
    let file = file_with(fields(DataType::Int64), columns(vec![7], vec!["a"]));
    assert_eq!(load_vessels(Some(file)), None);
    let empty = file_with(fields(DataType::Int64), columns(vec![], vec![]));
    assert_eq!(load_vessels(Some(empty)), Some(BTreeMap::new()));
    let columns = |values: Vec<f64>, names| -> Vec<ArrayRef> {
        vec![Arc::new(Float64Array::from(values)), texts(names)]
    };
    let file = file_with(fields(DataType::Float64), columns(vec![0.5], vec!["a"]));
    assert_eq!(load_vessels(Some(file)), None);
    let empty = file_with(fields(DataType::Float64), columns(vec![], vec![]));
    assert_eq!(load_vessels(Some(empty)), Some(BTreeMap::new()));
    let narrow = file_with(
        vec![Field::new("vessel_id", DataType::UInt32, false)],
        vec![numbers(vec![7])],
    );
    assert_eq!(load_vessels(Some(narrow)), None);
}

#[test]
fn columns_that_may_lack_values_are_read() {
    let ids: ArrayRef = Arc::new(UInt32Array::from(vec![Some(7), Some(8), Some(5), Some(9)]));
    let names: ArrayRef = Arc::new(StringArray::from(vec![Some("x"), None, Some("y"), Some("z")]));
    let file = file_with(vessel_fields(true), vec![ids, names]);
    let loaded = load_vessels(Some(file)).unwrap();
    assert_eq!(loaded[&7], "x");
    assert_eq!(loaded[&8], "");
    assert_eq!(loaded[&9], "z");
    assert_eq!(loaded.len(), 4);
    for n in [1_u32, 9, 500, 3_000] {
        let maybe = |i: u32| if i % 7 == 3 { None } else { Some(format!("vessel {}", i % 50)) };
        let names: ArrayRef = Arc::new(StringArray::from((0..n).map(maybe).collect::<Vec<_>>()));
        let loaded = load_vessels(Some(file_with(
            vessel_fields(true),
            vec![numbers((0..n).collect()), names],
        )));
        let expected = (0..n).map(|i| (i, maybe(i).unwrap_or_default())).collect();
        assert_eq!(loaded, Some(expected));
    }
}

#[test]
fn columns_are_known_by_their_places() {
    let list = ListArray::from_iter_primitive::<Int32Type, _, _>(vec![Some(vec![Some(1)]), None]);
    let fields = vec![
        Field::new("a", DataType::UInt32, false),
        Field::new("b", DataType::Utf8, false),
        Field::new("c", DataType::Float64, false),
        Field::new("d", list.value_type(), true),
        Field::new("e", DataType::List(Arc::new(Field::new("item", DataType::Int32, true))), true),
    ];
    let columns: Vec<ArrayRef> = vec![
        numbers(vec![7, 8]),
        texts(vec!["x", "y"]),
        Arc::new(Float64Array::from(vec![0.5, 1.5])),
        Arc::new(Int32Array::from(vec![Some(1), None])),
        Arc::new(list),
    ];
    let loaded = load_vessels(Some(file_with(fields, columns))).unwrap();
    assert_eq!(loaded[&7], "x");
    assert_eq!(loaded[&8], "y");
    assert_eq!(loaded.len(), 2);
}

/// Vessels with names, of which some are missing.
fn some_vessels(nullable: bool) -> (Vec<ArrayRef>, BTreeMap<u32, String>) {
    let maybe = |i: u32| if nullable && i % 7 == 3 { None } else { Some(format!("v{}", i % 50)) };
    let names: ArrayRef = Arc::new(StringArray::from((0..3_000).map(maybe).collect::<Vec<_>>()));
    let expected = (0..3_000).map(|i| (i, maybe(i).unwrap_or_default())).collect();
    (vec![numbers((0..3_000).collect()), names], expected)
}

#[test]
fn pages_of_the_second_version_are_read() {
    for nullable in [false, true] {
        let properties = WriterProperties::builder()
            .set_writer_version(WriterVersion::PARQUET_2_0)
            .set_column_encoding("name".into(), Encoding::PLAIN)
            .set_column_dictionary_enabled("name".into(), false)
            .build();
        let (columns, expected) = some_vessels(nullable);
        let file = file_written(vessel_fields(nullable), columns, Some(properties));
        let metadata = metadata_of(&file);
        let page = read_page_head(
            &file,
            metadata.row_group(0).column(1).data_page_offset() as usize,
            file.len(),
        );
        assert!(matches!(page.unwrap().page, Page::DataV2 { encoding: PLAIN, .. }));
        assert_eq!(load_vessels(Some(file)), Some(expected));
    }
}

#[test]
fn split_integers_are_read() {
    let properties = || {
        WriterProperties::builder()
            .set_dictionary_enabled(false)
            .set_column_encoding("vessel_id".into(), Encoding::BYTE_STREAM_SPLIT)
            .build()
    };
    let (columns, expected) = some_vessels(false);
    for nullable in [false, true] {
        let file = file_written(vessel_fields(nullable), columns.clone(), Some(properties()));
        assert_eq!(load_vessels(Some(file)), Some(expected.clone()));
    }
    let ids: ArrayRef = Arc::new(UInt32Array::from(vec![Some(1), None]));
    let columns = vec![ids, texts(vec!["a", "b"])];
    let file = file_written(vessel_fields(true), columns, Some(properties()));
    assert_eq!(load_vessels(Some(file)), None);
}

#[test]
fn differences_of_integers_are_read() {
    let properties = WriterProperties::builder()
        .set_dictionary_enabled(false)
        .set_column_encoding("vessel_id".into(), Encoding::DELTA_BINARY_PACKED)
        .build();
    for nullable in [false, true] {
        for n in [1_u32, 2, 128, 129, 130, 3_000] {
            let ids: Vec<u32> = (0..n).map(|i| i * i % 9_973 + i * 10_000).collect();
            let file = file_written(
                vessel_fields(nullable),
                vec![numbers(ids.clone()), texts(vec!["a"; n as usize])],
                Some(properties.clone()),
            );
            let loaded = load_vessels(Some(file)).unwrap();
            assert!(loaded.into_keys().eq(ids));
        }
    }
    // Nothing but missing numbers.
    let ids: ArrayRef = Arc::new(UInt32Array::from(vec![None, None]));
    let columns = vec![ids, texts(vec!["a", "b"])];
    let file = file_written(vessel_fields(true), columns, Some(properties));
    assert_eq!(load_vessels(Some(file)), None);
}

#[test]
fn no_changed_byte_of_differences_stops_the_loading() {
    let properties = WriterProperties::builder()
        .set_writer_version(WriterVersion::PARQUET_2_0)
        .set_dictionary_enabled(false)
        .set_column_encoding("name".into(), Encoding::PLAIN)
        .build();
    let ids: Vec<u32> = (0..300).map(|i| i * i).collect();
    let maybe = |i: u32| if i % 7 == 3 { None } else { Some("x") };
    let names: ArrayRef = Arc::new(StringArray::from((0..300).map(maybe).collect::<Vec<_>>()));
    let file = file_written(vessel_fields(true), vec![numbers(ids), names], Some(properties));
    let (mut whole, mut failed) = (0, 0);
    with_each_byte_changed(&file, |bytes| match load_vessels(Some(bytes)) {
        Some(loaded) if loaded.len() == 300 => whole += 1,
        _ => failed += 1,
    });
    assert!(whole > 0 && failed > 0);
}

#[test]
fn forms_that_are_not_looked_into_are_kept() {
    for encoding in [Encoding::DELTA_LENGTH_BYTE_ARRAY, Encoding::DELTA_BYTE_ARRAY] {
        let properties = WriterProperties::builder()
            .set_dictionary_enabled(false)
            .set_column_encoding("name".into(), encoding)
            .build();
        let (columns, _) = some_vessels(false);
        let file = file_written(vessel_fields(false), columns, Some(properties));
        assert_eq!(load_vessels(Some(file)), None);
    }
}

#[test]
fn all_kinds_are_read_from_plain_pages() {
    let properties = WriterProperties::builder().set_dictionary_enabled(false).build();
    let fields = vec![
        Field::new("0", DataType::UInt32, false),
        Field::new("1", DataType::UInt16, true),
        Field::new("2", DataType::Int64, true),
        Field::new("3", DataType::UInt16, false),
        Field::new("4", DataType::UInt32, true),
        Field::new("5", DataType::Int64, false),
        Field::new("6", DataType::Int32, true),
        Field::new("7", DataType::Int32, false),
        Field::new("8", DataType::UInt16, true),
        Field::new("9", DataType::UInt8, true),
    ];
    let n = 2_500_i64;
    let columns: Vec<ArrayRef> = vec![
        Arc::new(UInt32Array::from((0..n as u32).collect::<Vec<_>>())),
        Arc::new(UInt16Array::from((0..n as u16).map(Some).collect::<Vec<_>>())),
        Arc::new(Int64Array::from((0..n).map(|i| Some(-i)).collect::<Vec<_>>())),
        Arc::new(UInt16Array::from(vec![7; n as usize])),
        Arc::new(UInt32Array::from((0..n as u32).collect::<Vec<_>>())),
        Arc::new(Int64Array::from((0..n).collect::<Vec<_>>())),
        Arc::new(Int32Array::from((0..n as i32).collect::<Vec<_>>())),
        Arc::new(Int32Array::from((0..n as i32).map(|i| -i).collect::<Vec<_>>())),
        Arc::new(UInt16Array::from(vec![9; n as usize])),
        Arc::new(UInt8Array::from(vec![3; n as usize])),
    ];
    let rows = read_partition(file_written(fields, columns, Some(properties))).unwrap().unwrap();
    assert_eq!(rows.len(), n as usize);
    for (i, row) in rows.iter().enumerate() {
        assert_eq!(row.vessel_id, i as u32);
        assert_eq!(row.event_type, i as u16);
        assert_eq!(row.event_time, -(i as i64));
        assert_eq!((row.source_id, row.seq, row.fix_time), (7, i as u32, i as i64));
        assert_eq!((row.lat_e7, row.lon_e7), (i as i32, -(i as i32)));
        assert_eq!((row.hacc_cm, row.clock_quality), (9, 3));
    }
}

// --- Pages ---

#[test]
fn missing_dictionary_is_damage() {
    let mut bytes = file_of(&[reading(1, 2, 3), reading(2, 3, 4)]);
    let head = read_page_head(&bytes, 4, bytes.len()).unwrap();
    assert!(matches!(head.page, Page::Dictionary { count: 1 }));
    // The dictionary page becomes an index page, which readers pass over.
    assert_eq!(bytes[4..6], [0x15, 4]);
    bytes[5] = 2;
    assert!(is_damaged(bytes));
}

#[test]
fn dictionary_without_entries_is_damage() {
    let mut bytes = file_of(&[reading(1, 2, 3), reading(2, 3, 4)]);
    let head = bytes.windows(3).position(|part| part == [0x4C, 0x15, 2]).unwrap();
    bytes[head + 2] = 0;
    assert!(is_damaged(bytes));
}

#[test]
fn dictionary_of_more_entries_than_bytes_is_damage() {
    let mut bytes = file_of(&[reading(1, 2, 3), reading(2, 3, 4)]);
    let head = bytes.windows(3).position(|part| part == [0x4C, 0x15, 2]).unwrap();
    bytes[head + 2] = 0x7E;
    assert!(is_damaged(bytes));
}

#[test]
fn overwritten_page_header_is_damage() {
    let mut bytes = file_of(&[reading(1, 2, 3)]);
    for byte in bytes.iter_mut().skip(4).take(16) {
        *byte = 0xFF;
    }
    assert!(is_damaged(bytes));
}

/// The data page of a column of which the first page is a dictionary.
fn data_page(bytes: &Vec<u8>, column: usize) -> PageHead {
    let start = metadata_of(bytes).row_group(0).column(column).dictionary_page_offset().unwrap();
    let first = read_page_head(bytes, start as usize, bytes.len()).unwrap();
    assert!(matches!(first.page, Page::Dictionary { .. }));
    let second = read_page_head(bytes, first.next, bytes.len()).unwrap();
    assert!(matches!(second.page, Page::Data { encoding: RLE_DICTIONARY, .. }));
    second
}

#[test]
fn overlong_run_is_damage() {
    let events: Vec<PersistedEvent> = (0..300).map(|i| reading(1, i, i as u32)).collect();
    let bytes = file_of(&events);
    let page = data_page(&bytes, 4);
    assert!(page.next - page.body > 20);
    // At once, behind a run without length, and behind two of them.
    for zeros in [0, 1, 2] {
        let mut long = bytes.clone();
        for at in page.body + 1..page.next {
            long[at] = if at < page.body + 1 + zeros { 0 } else { 0x80 };
        }
        assert!(is_damaged(long));
    }
    // Behind a run of one place, and one without length.
    let mut long = bytes.clone();
    let width = bytes[page.body].div_ceil(8) as usize;
    for at in page.body + 1..page.next {
        long[at] = 0x80;
    }
    long[page.body + 1] = 2;
    for at in page.body + 2..page.body + 2 + width + 1 {
        long[at] = 0;
    }
    assert!(is_damaged(long));
}

#[test]
fn overlong_run_of_texts_is_damage() {
    let vessels: BTreeMap<u32, String> = (0..300).map(|i| (i, format!("vessel {}", i))).collect();
    let bytes = write_vessels(&vessels).unwrap().unwrap();
    let page = data_page(&bytes, 1);
    for start in [&[][..], &[0], &[2, 0, 0, 0]] {
        let mut long = bytes.clone();
        for at in page.body + 1..page.next {
            long[at] = start.get(at - page.body - 1).copied().unwrap_or(0x80);
        }
        assert_eq!(load_vessels(Some(long)), Some(BTreeMap::new()));
    }
    assert_eq!(load_vessels(Some(bytes)), Some(vessels));
}

#[test]
fn places_that_are_too_wide_are_damage() {
    let bytes = file_of(&[reading(1, 2, 3), reading(2, 3, 4)]);
    let page = data_page(&bytes, 3);
    for width in [32, 33, 255] {
        let mut wide = bytes.clone();
        wide[page.body] = width;
        assert!(is_damaged(wide));
    }
}

#[test]
fn place_beyond_the_dictionary_breaks_the_reading() {
    let mut bytes = file_of(&[reading(1, 2, 3), reading(2, 3, 4), reading(3, 4, 5)]);
    let page = data_page(&bytes, 3);
    // One group of eight places, two bits each.
    assert_eq!(bytes[page.body..page.body + 2], [2, 3]);
    bytes[page.body + 2] = 0xFF;
    assert!(matches!(read_partition(bytes), Err(PersistError::Arrow(_))));
}

#[test]
fn damaged_files_are_passed_over_and_replaced() {
    let mut bytes = file_of(&[reading(1, 2, 3), reading(2, 3, 4)]);
    bytes[5] = 2;
    let whole = file_of(&[reading(3, 4, 5)]);
    assert_eq!(read_events(vec![bytes.clone(), whole]), Some(vec![reading(3, 4, 5)]));
    match write_partition(Some(bytes), &[reading(1, 30, 3)]).unwrap() {
        PartitionWrite::File(bytes) => {
            assert_eq!(read_partition(bytes).unwrap(), Some(vec![reading(1, 30, 3)]));
        }
        _ => panic!("no file"),
    }
}

#[test]
fn failing_batch_ends_the_registry() {
    let mut vessels = BTreeMap::new();
    vessels.insert(7, "F/V Northstar".to_string());
    let bytes = write_vessels(&vessels).unwrap().unwrap();
    let at = bytes.windows(9).position(|part| part == b"Northstar").unwrap();
    let mut no_text = bytes.clone();
    no_text[at] = 0xFF;
    assert_eq!(load_vessels(Some(no_text)), Some(BTreeMap::new()));
    let mut no_dictionary = bytes.clone();
    assert_eq!(no_dictionary[4..6], [0x15, 4]);
    no_dictionary[5] = 2;
    assert_eq!(load_vessels(Some(no_dictionary)), Some(BTreeMap::new()));
    assert_eq!(load_vessels(Some(bytes)), Some(vessels));
}

/// Reads files that differ from a whole one in one byte, in some ways for each.
fn with_each_byte_changed(bytes: &[u8], mut read: impl FnMut(Vec<u8>)) {
    for at in 0..bytes.len() {
        for change in [0x01, 0x02, 0x04, 0x08, 0x10, 0x20, 0x40, 0x80, 0xFF, bytes[at]] {
            let mut changed = bytes.to_vec();
            changed[at] ^= change;
            read(changed);
        }
    }
}

#[test]
fn no_changed_byte_of_a_partition_stops_the_reading() {
    let events: Vec<PersistedEvent> =
        (0..40).map(|i| reading((i % 3) as u16, i * i, i as u32)).collect();
    let (mut whole, mut failed) = (0, 0);
    with_each_byte_changed(&file_of(&events), |bytes| match read_partition(bytes) {
        Ok(_) => whole += 1,
        Err(_) => failed += 1,
    });
    assert!(whole > 0 && failed > 0);
}

#[test]
fn no_changed_byte_of_a_registry_stops_the_loading() {
    let vessels: BTreeMap<u32, String> = (0..40).map(|i| (i, format!("vessel {}", i % 7))).collect();
    let (mut whole, mut failed) = (0, 0);
    let file = write_vessels(&vessels).unwrap().unwrap();
    with_each_byte_changed(&file, |bytes| match load_vessels(Some(bytes)) {
        Some(loaded) if loaded.len() == 40 => whole += 1,
        _ => failed += 1,
    });
    assert!(whole > 0 && failed > 0);
}

// --- What is written ---

#[test]
fn pages_of_all_sizes_are_whole() {
    for n in [1, 7, 8, 9, 500, 1_000, 5_000, 30_000] {
        let events: Vec<PersistedEvent> = (0..n)
            .map(|i| reading((i * i % 41) as u16, i * i * 977, (i * 7) as u32))
            .collect();
        let bytes = file_of(&events);
        let read = read_partition(bytes).unwrap().unwrap();
        assert_eq!(read.len(), n as usize);
    }
}

#[test]
fn dictionary_that_grew_too_large_is_given_up() {
    let events: Vec<PersistedEvent> =
        (0..300_000).map(|i| reading(1, i * 1_000_003, i as u32)).collect();
    let bytes = file_of(&events);
    let start = metadata_of(&bytes).row_group(0).column(2).dictionary_page_offset().unwrap();
    let size = metadata_of(&bytes).row_group(0).column(2).compressed_size();
    let (mut at, end) = (start as usize, (start + size) as usize);
    let mut plain = 0;
    while at < end {
        let head = read_page_head(&bytes, at, end).unwrap();
        if let Page::Data { count, encoding: PLAIN, .. } = head.page {
            plain += count;
        }
        at = head.next;
    }
    assert!(plain > 0);
    let leaf = Leaf { kind: ColumnKind::I64, nullable: false };
    assert_eq!(check_pages(&bytes, start as usize, end, leaf), Soundness::Whole);
    assert_eq!(read_partition(bytes).unwrap().unwrap().len(), 300_000);
}

// --- Parts of pages ---

#[test]
fn variable_length_integers() {
    let bytes = vec![0x81, 0x80, 0x01, 0x7F];
    assert_eq!(read_varint(&bytes, 0, 4, LONGEST_I32), Some((0x4001, 3)));
    assert_eq!(read_varint(&bytes, 0, 4, 3), Some((0x4001, 3)));
    assert_eq!(read_varint(&bytes, 0, 4, 2), None);
    assert_eq!(read_varint(&bytes, 0, 2, LONGEST_I32), None);
    assert_eq!(read_varint(&bytes, 3, 4, 1), Some((0x7F, 4)));
    assert_eq!(read_varint(&vec![0xFF, 0xFF, 0xFF, 0xFF, 0x7F], 0, 5, 5), Some(((1 << 35) - 1, 5)));
    assert_eq!(skip_varint(&vec![0x80; 12], 0, 12, LONGEST_I64), None);
    assert_eq!(skip_varint(&varint(u64::MAX), 0, 10, LONGEST_I64), Some(10));
}

#[test]
fn numbers_are_not_negative_and_fit_32_bits() {
    assert_eq!(read_number(&vec![0x15, 6], 0, 2), Some(3));
    assert_eq!(read_number(&vec![0x35, 6], 0, 2), Some(3));
    assert_eq!(read_number(&vec![0x15, 5], 0, 2), None);
    assert_eq!(read_number(&vec![0x16, 6], 0, 2), None);
    assert_eq!(read_number(&vec![0x15], 0, 1), None);
    let largest = [vec![0x15], varint(2 * i32::MAX as u64)].concat();
    assert_eq!(read_number(&largest, 0, 6), Some(i32::MAX as u64));
    let larger = [vec![0x15], varint(2 * i32::MAX as u64 + 2)].concat();
    assert_eq!(read_number(&larger, 0, 6), None);
}

#[test]
fn structures_are_passed_over() {
    // A text, an integer, a flag.
    assert_eq!(skip_fields(&vec![0x18, 2, 9, 9, 0x26, 0x80, 1, 0x12, 0, 7], 0, 10, 0), Some(9));
    assert_eq!(skip_fields(&vec![0x18, 2, 9, 9], 0, 4, 0), None);
    // A structure in it.
    assert_eq!(skip_fields(&vec![0x1C, 0x13, 5, 0, 0], 0, 5, 0), None);
    assert_eq!(skip_fields(&vec![0x1C, 0x13, 5, 0, 0], 0, 5, 1), Some(5));
    assert_eq!(skip_fields(&vec![0x08, 1, 0, 0], 0, 4, 0), None);
    assert_eq!(skip_fields(&vec![0x18, 0xFF, 0xFF, 0xFF, 0xFF, 0x7F, 0], 0, 7, 0), None);
}

#[test]
fn fields_are_found_by_their_numbers() {
    // The first field is a number, the fourth a structure, the sixth a flag.
    let bytes = vec![0x15, 8, 0x3C, 0x25, 4, 0, 0x21, 0];
    assert_eq!(find_field(&bytes, 0, 8, 1, 1), Some(0));
    assert_eq!(find_field(&bytes, 0, 8, 4, 1), Some(2));
    assert_eq!(find_field(&bytes, 0, 8, 6, 1), Some(6));
    assert_eq!(find_field(&bytes, 0, 8, 2, 1), None);
    assert_eq!(find_field(&bytes, 0, 8, 6, 0), None);
    assert_eq!(find_number(&bytes, 0, 8, 1, 1), Some(4));
    assert_eq!(find_number(&bytes, 0, 8, 6, 1), None);
    assert_eq!(find_struct(&bytes, 0, 8, 4, 1), Some(3));
    assert_eq!(find_struct(&bytes, 0, 8, 1, 1), None);
    assert_eq!(find_number(&bytes, 3, 8, 2, 0), Some(2));
    assert_eq!(skip_typed(&bytes, 0, 8, 1, 6, 1), Some(8));
    assert_eq!(skip_typed(&bytes, 0, 8, 4, 6, 1), None);
    assert_eq!(skip_typed(&bytes, 0, 8, 1, 4, 1), None);
}

/// The bytes of a data page of five values in two bytes, with statistics.
fn five_values() -> Vec<u8> {
    vec![
        0x15, 0, 0x15, 4, 0x15, 4, 0x2C, 0x15, 10, 0x15, 0, 0x15, 6, 0x15, 6, 0x1C, 0x36, 0, 0, 0,
        0, 1, 2,
    ]
}

#[test]
fn page_headers() {
    let bytes = five_values();
    let head = read_page_head(&bytes, 0, 23).unwrap();
    assert_eq!(head.page, Page::Data { count: 5, encoding: PLAIN, levels: 3 });
    assert_eq!((head.body, head.next), (21, 23));
    assert_eq!(check_pages(&bytes, 0, 23, I32), Soundness::Whole);
    assert!(read_page_head(&bytes, 0, 22).is_none());
    // A checksum.
    let mut checked = bytes.clone();
    checked.splice(6..7, [0x15, 0xFF, 0xFF, 0xFF, 0xFF, 0x0F, 0x1C]);
    let head = read_page_head(&checked, 0, 29).unwrap();
    assert_eq!(head.page, Page::Data { count: 5, encoding: PLAIN, levels: 3 });
    assert_eq!((head.body, head.next), (27, 29));
    // A part for data pages of the second version, besides.
    let mut both = bytes.clone();
    both.splice(20..21, [0x3C, 0, 0]);
    assert!(read_page_head(&both, 0, 25).is_none());
    // A flag in place of a number.
    let mut flag = bytes.clone();
    flag.splice(9..11, [0x11]);
    assert!(read_page_head(&flag, 0, 22).is_none());
    // Places in a dictionary that is not there.
    let mut places = bytes.clone();
    places[10] = 16;
    let head = read_page_head(&places, 0, 23).unwrap();
    assert_eq!(head.page, Page::Data { count: 5, encoding: RLE_DICTIONARY, levels: 3 });
    assert_eq!(check_page(&places, &head, I32, false), Soundness::Damaged);
    assert_eq!(check_page(&places, &head, I32, true), Soundness::Whole);
    assert_eq!(check_pages(&places, 0, 23, I32), Soundness::Damaged);
    // An index page, and what is no page.
    assert_eq!(read_page_head(&vec![0x15, 2, 0x15, 0, 0x15, 0, 0], 0, 7).unwrap().page, Page::Index);
    assert!(read_page_head(&vec![0x15, 8, 0x15, 0, 0x15, 0, 0], 0, 7).is_none());
}

#[test]
fn pages_of_integers_by_their_encodings() {
    let sound = |encoding: u8, leaf| {
        let mut bytes = five_values();
        bytes[10] = 2 * encoding;
        check_pages(&bytes, 0, 23, leaf)
    };
    assert_eq!(sound(5, I32), Soundness::Damaged);
    assert_eq!(sound(6, I32), Soundness::Damaged);
    assert_eq!(sound(6, TEXT), Soundness::Unsupported);
    assert_eq!(sound(7, TEXT), Soundness::Unsupported);
    assert_eq!(sound(5, TEXT), Soundness::Damaged);
    assert_eq!(sound(9, I32), Soundness::Damaged);
    assert_eq!(sound(9, TEXT), Soundness::Damaged);
    assert_eq!(sound(60, I32), Soundness::Damaged);
    // Levels that are not there.
    assert_eq!(sound(0, MAYBE_I32), Soundness::Damaged);
}

#[test]
fn dictionary_pages_by_their_counts() {
    let sound = |count, body: usize| {
        let head = PageHead { page: Page::Dictionary { count }, body: 0, next: body };
        check_page(&vec![0; 8], &head, I32, false)
    };
    assert_eq!(sound(2, 8), Soundness::Whole);
    assert_eq!(sound(1, 8), Soundness::Whole);
    assert_eq!(sound(3, 8), Soundness::Damaged);
    assert_eq!(sound(0, 8), Soundness::Damaged);
    assert_eq!(sound(0, 0), Soundness::Whole);
}

#[test]
fn pages_of_the_second_version_by_their_sizes() {
    let bytes = vec![3, 9, 1, 0, 0, 0, b'x', 0, 0];
    let sound = |count, nulls, level_size, repeat_size, next, leaf| {
        let page = Page::DataV2 { count, nulls, encoding: PLAIN, level_size, repeat_size };
        check_page(&bytes, &PageHead { page, body: 0, next }, leaf, false)
    };
    assert_eq!(sound(1, 0, 0, 2, 7, TEXT), Soundness::Whole);
    // More bytes than the texts that were told take.
    assert_eq!(sound(1, 0, 0, 2, 8, TEXT), Soundness::Damaged);
    assert_eq!(sound(1, 1, 0, 2, 7, TEXT), Soundness::Damaged);
    assert_eq!(sound(1, 1, 0, 2, 2, TEXT), Soundness::Whole);
    assert_eq!(sound(1, 2, 0, 2, 2, TEXT), Soundness::Damaged);
    // Levels beyond the body, or cut off.
    assert_eq!(sound(1, 0, 4, 4, 7, I32), Soundness::Damaged);
    assert_eq!(sound(8, 0, 2, 0, 9, MAYBE_I32), Soundness::Whole);
    assert_eq!(sound(8, 0, 1, 0, 9, MAYBE_I32), Soundness::Damaged);
}

#[test]
fn differences() {
    // Blocks of 128 values, of four smaller blocks; one value, which is five.
    let one = vec![0x80, 1, 4, 1, 10];
    let head = DeltaHead { block: 128, minis: 4, total: 1, start: 5 };
    assert_eq!(read_delta_head(&one, 0, 5), Some(head));
    assert!(check_deltas(&one, 0, 5));
    assert!(!check_deltas(&one, 0, 4));
    let changed = |at: usize, value| {
        let mut bytes = one.clone();
        bytes[at] = value;
        bytes
    };
    assert!(!check_deltas(&changed(2, 0), 0, 5));
    assert!(!check_deltas(&changed(2, 3), 0, 5));
    assert!(!check_deltas(&changed(2, 8), 0, 5));
    assert!(!check_deltas(&changed(3, 0), 0, 5));
    assert!(!check_deltas(&vec![0, 4, 1, 10], 0, 4));
    assert!(!check_deltas(&vec![0x40, 1, 1, 10], 0, 4));
    // Two blocks: the first with widths of one, none, two and none bits.
    let head = [0x80, 1, 4, 0x82, 1, 10];
    let first = [&[6, 1, 0, 2, 0][..], &[0; 4 + 8]].concat();
    let behind = |rest: &[u8]| [&head[..], &first, rest].concat();
    let sound = |rest: &[u8]| {
        let bytes = behind(rest);
        check_deltas(&bytes, 0, bytes.len())
    };
    assert!(sound(&[6, 0, 0, 0, 0]));
    assert!(sound(&[0x80; 10]));
    assert!(!sound(&[0x80; 11]));
    assert!(sound(&[&[0x80; 9][..], &[0; 9]].concat()));
    // Values beyond the first block, of which there are none.
    let fewer = [&[0x80, 1, 4, 0x81, 1, 10][..], &first, &[0x80; 11]].concat();
    assert!(check_deltas(&fewer, 0, fewer.len()));
}

#[test]
fn texts_fill_their_bytes() {
    let bytes = vec![1, 0, 0, 0, b'x', 0, 0, 0, 0];
    assert!(check_texts(&bytes, 0, 9, 2));
    assert!(!check_texts(&bytes, 0, 9, 1));
    assert!(!check_texts(&bytes, 0, 9, 0));
    // The decoder notices texts that are cut off.
    assert!(check_texts(&bytes, 0, 9, 3));
    assert!(check_texts(&bytes, 0, 8, 2));
    assert!(check_texts(&bytes, 0, 4, 1));
}

#[test]
fn levels_are_there_to_their_ends() {
    assert!(check_levels(&vec![], 0, 0));
    assert!(check_levels(&vec![6, 1, 3, 0xFF], 0, 4));
    assert!(!check_levels(&vec![6, 1, 5, 0xFF], 0, 4));
    assert!(!check_levels(&vec![6], 0, 1));
    assert!(!check_levels(&vec![0x80; 12], 0, 12));
}

#[test]
fn runs() {
    // Eight packed places, then three times the same.
    assert!(check_runs(&vec![3, 9, 6, 1], 0, 4, 1));
    assert!(check_runs(&vec![3], 0, 1, 31));
    // So few bytes that no integer can be too long.
    assert!(check_runs(&vec![0xFF; 10], 0, 10, 1));
    assert!(!check_runs(&vec![0xFF; 11], 0, 11, 1));
    // A run without length ends nothing.
    let behind = |start: &[u8], n| [start, &vec![0x80; n][..]].concat();
    assert!(check_runs(&behind(&[0], 10), 0, 11, 1));
    assert!(!check_runs(&behind(&[0], 11), 0, 12, 1));
    assert!(!check_runs(&behind(&[3, 9], 11), 0, 13, 1));
    assert!(!check_runs(&behind(&[2, 0, 0], 11), 0, 14, 1));
    assert!(check_runs(&[&[0][..], &[3, 9].repeat(10)].concat(), 0, 21, 1));
    // A packed run to the end and beyond.
    assert!(check_runs(&behind(&[0x29], 20), 0, 21, 1));
    assert!(check_runs(&behind(&[0x7F], 20), 0, 21, 1));
    assert!(!check_runs(&behind(&[0x09], 20), 0, 21, 1));
}
