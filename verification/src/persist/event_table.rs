//! The table of a partition: one row per event, one column per field.

use vstd::prelude::*;

use super::columnar;
use super::columnar::{Batch, Column, ColumnDef, ColumnKind, ReadBatch};
use super::error::PersistError;
use super::merge;
use super::row::PersistedEvent;
use super::table_file;
use super::table_file::Opening;

verus! {

/// The columns of a partition, by their names and kinds.
pub open spec fn event_defs() -> Seq<columnar::ColumnDefView> {
    seq![
        columnar::filled("vessel_id"@, ColumnKind::U32),
        columnar::filled("event_type"@, ColumnKind::U16),
        columnar::filled("event_time"@, ColumnKind::I64),
        columnar::filled("source_id"@, ColumnKind::U16),
        columnar::filled("seq"@, ColumnKind::U32),
        columnar::filled("fix_time"@, ColumnKind::I64),
        columnar::filled("lat_e7"@, ColumnKind::I32),
        columnar::filled("lon_e7"@, ColumnKind::I32),
        columnar::filled("hacc_cm"@, ColumnKind::U16),
        columnar::filled("clock_quality"@, ColumnKind::U8),
    ]
}

/// Schema for event Parquet partitions.
pub fn event_schema() -> (res: Vec<ColumnDef>)
    ensures
        columnar::def_views(res@) == event_defs(),
{
    let mut defs: Vec<ColumnDef> = Vec::new();
    defs.push(columnar::filled_column("vessel_id", ColumnKind::U32));
    defs.push(columnar::filled_column("event_type", ColumnKind::U16));
    defs.push(columnar::filled_column("event_time", ColumnKind::I64));
    defs.push(columnar::filled_column("source_id", ColumnKind::U16));
    defs.push(columnar::filled_column("seq", ColumnKind::U32));
    defs.push(columnar::filled_column("fix_time", ColumnKind::I64));
    defs.push(columnar::filled_column("lat_e7", ColumnKind::I32));
    defs.push(columnar::filled_column("lon_e7", ColumnKind::I32));
    defs.push(columnar::filled_column("hacc_cm", ColumnKind::U16));
    defs.push(columnar::filled_column("clock_quality", ColumnKind::U8));
    assert(columnar::def_views(defs@) =~= event_defs());
    defs
}

/// No two columns of a partition have the same name.
proof fn lemma_event_defs_are_plain()
    ensures
        columnar::plain_defs(event_defs()),
{
    reveal_strlit("vessel_id");
    reveal_strlit("event_type");
    reveal_strlit("event_time");
    reveal_strlit("source_id");
    reveal_strlit("seq");
    reveal_strlit("fix_time");
    reveal_strlit("lat_e7");
    reveal_strlit("lon_e7");
    reveal_strlit("hacc_cm");
    reveal_strlit("clock_quality");
    assert("vessel_id"@[0] == 'v' && "source_id"@[0] == 's');
    assert("event_type"@[7] == 'y' && "event_time"@[7] == 'i');
    assert("lat_e7"@[1] == 'a' && "lon_e7"@[1] == 'o');
    assert("vessel_id"@.len() == 9 && "event_type"@.len() == 10 && "event_time"@.len() == 10
        && "source_id"@.len() == 9 && "seq"@.len() == 3 && "fix_time"@.len() == 8
        && "lat_e7"@.len() == 6 && "lon_e7"@.len() == 6 && "hacc_cm"@.len() == 7
        && "clock_quality"@.len() == 13);
}

/// The values of events, field by field.
pub struct EventColumns {
    pub vessel_id: Vec<u32>,
    pub event_type: Vec<u16>,
    pub event_time: Vec<i64>,
    pub source_id: Vec<u16>,
    pub seq: Vec<u32>,
    pub fix_time: Vec<i64>,
    pub lat_e7: Vec<i32>,
    pub lon_e7: Vec<i32>,
    pub hacc_cm: Vec<u16>,
    pub clock_quality: Vec<u8>,
}

impl View for EventColumns {
    type V = Seq<columnar::ColumnValues>;

    open spec fn view(&self) -> Seq<columnar::ColumnValues> {
        seq![
            columnar::ColumnValues::U32(self.vessel_id@),
            columnar::ColumnValues::U16(self.event_type@),
            columnar::ColumnValues::I64(self.event_time@),
            columnar::ColumnValues::U16(self.source_id@),
            columnar::ColumnValues::U32(self.seq@),
            columnar::ColumnValues::I64(self.fix_time@),
            columnar::ColumnValues::I32(self.lat_e7@),
            columnar::ColumnValues::I32(self.lon_e7@),
            columnar::ColumnValues::U16(self.hacc_cm@),
            columnar::ColumnValues::U8(self.clock_quality@),
        ]
    }
}

/// The columns that hold events.
pub open spec fn event_columns(events: Seq<PersistedEvent>) -> Seq<columnar::ColumnValues> {
    seq![
        columnar::ColumnValues::U32(events.map_values(|e: PersistedEvent| e.vessel_id)),
        columnar::ColumnValues::U16(events.map_values(|e: PersistedEvent| e.event_type)),
        columnar::ColumnValues::I64(events.map_values(|e: PersistedEvent| e.event_time)),
        columnar::ColumnValues::U16(events.map_values(|e: PersistedEvent| e.source_id)),
        columnar::ColumnValues::U32(events.map_values(|e: PersistedEvent| e.seq)),
        columnar::ColumnValues::I64(events.map_values(|e: PersistedEvent| e.fix_time)),
        columnar::ColumnValues::I32(events.map_values(|e: PersistedEvent| e.lat_e7)),
        columnar::ColumnValues::I32(events.map_values(|e: PersistedEvent| e.lon_e7)),
        columnar::ColumnValues::U16(events.map_values(|e: PersistedEvent| e.hacc_cm)),
        columnar::ColumnValues::U8(events.map_values(|e: PersistedEvent| e.clock_quality)),
    ]
}

/// Whether columns begin with those that hold events, by their kinds.
pub open spec fn are_event_columns(columns: Seq<columnar::ColumnValues>) -> bool {
    &&& columns.len() >= 10
    &&& columns[0] is U32
    &&& columns[1] is U16
    &&& columns[2] is I64
    &&& columns[3] is U16
    &&& columns[4] is U32
    &&& columns[5] is I64
    &&& columns[6] is I32
    &&& columns[7] is I32
    &&& columns[8] is U16
    &&& columns[9] is U8
}

/// The event that a row of columns holds.
pub open spec fn event_in(columns: Seq<columnar::ColumnValues>, i: int) -> PersistedEvent {
    PersistedEvent {
        vessel_id: columns[0]->U32_0[i],
        event_type: columns[1]->U16_0[i],
        event_time: columns[2]->I64_0[i],
        source_id: columns[3]->U16_0[i],
        seq: columns[4]->U32_0[i],
        fix_time: columns[5]->I64_0[i],
        lat_e7: columns[6]->I32_0[i],
        lon_e7: columns[7]->I32_0[i],
        hacc_cm: columns[8]->U16_0[i],
        clock_quality: columns[9]->U8_0[i],
    }
}

/// The events that columns hold, if they are the columns of events.
pub open spec fn events_in(columns: Seq<columnar::ColumnValues>) -> Option<Seq<PersistedEvent>> {
    if are_event_columns(columns) {
        Some(Seq::new(columnar::row_count(columns), |i: int| event_in(columns, i)))
    } else {
        None
    }
}

impl EventColumns {
    /// Whether every field has as many values as the others.
    pub open spec fn wf(self) -> bool {
        let n = self.vessel_id@.len();
        &&& self.event_type@.len() == n
        &&& self.event_time@.len() == n
        &&& self.source_id@.len() == n
        &&& self.seq@.len() == n
        &&& self.fix_time@.len() == n
        &&& self.lat_e7@.len() == n
        &&& self.lon_e7@.len() == n
        &&& self.hacc_cm@.len() == n
        &&& self.clock_quality@.len() == n
    }

    /// The values of events, field by field.
    pub fn from_events(events: &[PersistedEvent]) -> (res: Self)
        ensures
            res.wf(),
            res@ == event_columns(events@),
    {
        let mut columns = EventColumns {
            vessel_id: Vec::new(),
            event_type: Vec::new(),
            event_time: Vec::new(),
            source_id: Vec::new(),
            seq: Vec::new(),
            fix_time: Vec::new(),
            lat_e7: Vec::new(),
            lon_e7: Vec::new(),
            hacc_cm: Vec::new(),
            clock_quality: Vec::new(),
        };
        let mut n: usize = 0;
        assert(events@.take(0) =~= Seq::<PersistedEvent>::empty());
        while n < events.len()
            invariant
                n <= events@.len(),
                columns.vessel_id@ == events@.take(n as int).map_values(
                    |e: PersistedEvent| e.vessel_id,
                ),
                columns.event_type@ == events@.take(n as int).map_values(
                    |e: PersistedEvent| e.event_type,
                ),
                columns.event_time@ == events@.take(n as int).map_values(
                    |e: PersistedEvent| e.event_time,
                ),
                columns.source_id@ == events@.take(n as int).map_values(
                    |e: PersistedEvent| e.source_id,
                ),
                columns.seq@ == events@.take(n as int).map_values(|e: PersistedEvent| e.seq),
                columns.fix_time@ == events@.take(n as int).map_values(
                    |e: PersistedEvent| e.fix_time,
                ),
                columns.lat_e7@ == events@.take(n as int).map_values(
                    |e: PersistedEvent| e.lat_e7,
                ),
                columns.lon_e7@ == events@.take(n as int).map_values(
                    |e: PersistedEvent| e.lon_e7,
                ),
                columns.hacc_cm@ == events@.take(n as int).map_values(
                    |e: PersistedEvent| e.hacc_cm,
                ),
                columns.clock_quality@ == events@.take(n as int).map_values(
                    |e: PersistedEvent| e.clock_quality,
                ),
            decreases events@.len() - n,
        {
            let event = events[n];
            assert(events@.take(n + 1) =~= events@.take(n as int).push(event));
            columns.vessel_id.push(event.vessel_id);
            columns.event_type.push(event.event_type);
            columns.event_time.push(event.event_time);
            columns.source_id.push(event.source_id);
            columns.seq.push(event.seq);
            columns.fix_time.push(event.fix_time);
            columns.lat_e7.push(event.lat_e7);
            columns.lon_e7.push(event.lon_e7);
            columns.hacc_cm.push(event.hacc_cm);
            columns.clock_quality.push(event.clock_quality);
            n += 1;
        }
        assert(events@.take(n as int) =~= events@);
        assert(columns@ =~= event_columns(events@));
        columns
    }

    /// The events whose fields these are.
    pub fn events(&self) -> (res: Vec<PersistedEvent>)
        requires
            self.wf(),
        ensures
            events_in(self@) == Some(res@),
    {
        let mut events: Vec<PersistedEvent> = Vec::new();
        let mut n: usize = 0;
        while n < self.vessel_id.len()
            invariant
                self.wf(),
                n <= self.vessel_id@.len(),
                events@.len() == n,
                forall|i: int| 0 <= i < n ==> #[trigger] events@[i] == event_in(self@, i),
            decreases self.vessel_id@.len() - n,
        {
            events.push(
                PersistedEvent {
                    vessel_id: self.vessel_id[n],
                    event_type: self.event_type[n],
                    event_time: self.event_time[n],
                    source_id: self.source_id[n],
                    seq: self.seq[n],
                    fix_time: self.fix_time[n],
                    lat_e7: self.lat_e7[n],
                    lon_e7: self.lon_e7[n],
                    hacc_cm: self.hacc_cm[n],
                    clock_quality: self.clock_quality[n],
                },
            );
            n += 1;
        }
        assert(events_in(self@)->0 =~= events@);
        events
    }
}

/// The columns of events hold just these events.
pub proof fn law_event_columns_hold_the_events(events: Seq<PersistedEvent>)
    ensures
        events_in(event_columns(events)) == Some(events),
{
    assert(events_in(event_columns(events))->0 =~= events);
}

/// Taking a field of each of the first or the later events is taking the first or
/// the later of the fields.
proof fn lemma_field_split<T>(
    events: Seq<PersistedEvent>,
    field: spec_fn(PersistedEvent) -> T,
    n: int,
)
    requires
        0 <= n <= events.len(),
    ensures
        events.take(n).map_values(field) == events.map_values(field).take(n),
        events.skip(n).map_values(field) == events.map_values(field).skip(n),
{
    assert(events.take(n).map_values(field) =~= events.map_values(field).take(n));
    assert(events.skip(n).map_values(field) =~= events.map_values(field).skip(n));
}

/// The first and the later rows of the columns of events are the columns of the
/// first and the later events.
proof fn lemma_event_columns_split(events: Seq<PersistedEvent>, n: int)
    requires
        0 <= n <= events.len(),
    ensures
        columnar::first_rows(event_columns(events), n) == event_columns(events.take(n)),
        columnar::later_rows(event_columns(events), n) == event_columns(events.skip(n)),
{
    lemma_field_split(events, |e: PersistedEvent| e.vessel_id, n);
    lemma_field_split(events, |e: PersistedEvent| e.event_type, n);
    lemma_field_split(events, |e: PersistedEvent| e.event_time, n);
    lemma_field_split(events, |e: PersistedEvent| e.source_id, n);
    lemma_field_split(events, |e: PersistedEvent| e.seq, n);
    lemma_field_split(events, |e: PersistedEvent| e.fix_time, n);
    lemma_field_split(events, |e: PersistedEvent| e.lat_e7, n);
    lemma_field_split(events, |e: PersistedEvent| e.lon_e7, n);
    lemma_field_split(events, |e: PersistedEvent| e.hacc_cm, n);
    lemma_field_split(events, |e: PersistedEvent| e.clock_quality, n);
    let columns = event_columns(events);
    assert(columnar::first_rows(columns, n) =~= event_columns(events.take(n)));
    assert(columnar::later_rows(columns, n) =~= event_columns(events.skip(n)));
}

/// Build a single-row-per-event batch from a slice of [`PersistedEvent`]s.
pub(crate) fn build_event_batch(events: &[PersistedEvent]) -> (res: Batch)
    ensures
        columnar::batch_defs(res) == event_defs(),
        columnar::batch_columns(res) == event_columns(events@),
{
    let values = EventColumns::from_events(events);
    let mut columns: Vec<Column> = Vec::new();
    columns.push(columnar::u32_column(values.vessel_id));
    columns.push(columnar::u16_column(values.event_type));
    columns.push(columnar::i64_column(values.event_time));
    columns.push(columnar::u16_column(values.source_id));
    columns.push(columnar::u32_column(values.seq));
    columns.push(columnar::i64_column(values.fix_time));
    columns.push(columnar::i32_column(values.lat_e7));
    columns.push(columnar::i32_column(values.lon_e7));
    columns.push(columnar::u16_column(values.hacc_cm));
    columns.push(columnar::u8_column(values.clock_quality));
    assert(columnar::all_values(columns@) =~= event_columns(events@));
    proof {
        lemma_event_defs_are_plain();
    }
    let schema = columnar::table_schema(event_schema());
    columnar::record_batch(&schema, columns).unwrap()
}

/// The events of a batch, if its columns are those of events.
pub(crate) fn batch_events(batch: &ReadBatch) -> (res: Option<Vec<PersistedEvent>>)
    ensures
        match res {
            Some(events) => events_in(columnar::read_columns(*batch)) == Some(events@),
            None => events_in(columnar::read_columns(*batch)) is None,
        },
{
    let rows = columnar::num_rows(batch);
    let ghost columns = columnar::read_columns(*batch);
    let vessel_id = match columnar::u32_values(batch, 0) {
        Some(values) => values,
        None => return None,
    };
    let event_type = match columnar::u16_values(batch, 1) {
        Some(values) => values,
        None => return None,
    };
    let event_time = match columnar::i64_values(batch, 2) {
        Some(values) => values,
        None => return None,
    };
    let source_id = match columnar::u16_values(batch, 3) {
        Some(values) => values,
        None => return None,
    };
    let seq = match columnar::u32_values(batch, 4) {
        Some(values) => values,
        None => return None,
    };
    let fix_time = match columnar::i64_values(batch, 5) {
        Some(values) => values,
        None => return None,
    };
    let lat_e7 = match columnar::i32_values(batch, 6) {
        Some(values) => values,
        None => return None,
    };
    let lon_e7 = match columnar::i32_values(batch, 7) {
        Some(values) => values,
        None => return None,
    };
    let hacc_cm = match columnar::u16_values(batch, 8) {
        Some(values) => values,
        None => return None,
    };
    let clock_quality = match columnar::u8_values(batch, 9) {
        Some(values) => values,
        None => return None,
    };
    let values = EventColumns {
        vessel_id,
        event_type,
        event_time,
        source_id,
        seq,
        fix_time,
        lat_e7,
        lon_e7,
        hacc_cm,
        clock_quality,
    };
    assert(columns.len() >= 10);
    assert(values@ =~= columns.take(10));
    assert(columns[0].len() == rows && columns[1].len() == rows && columns[2].len() == rows
        && columns[3].len() == rows && columns[4].len() == rows && columns[5].len() == rows
        && columns[6].len() == rows && columns[7].len() == rows && columns[8].len() == rows
        && columns[9].len() == rows);
    let events = values.events();
    assert(events_in(columns)->0 =~= events_in(values@)->0);
    Some(events)
}

/// What reading a partition comes to.
pub enum PartitionRead {
    /// The bytes are not a Parquet file that can be opened.
    Unreadable,
    /// The parts of the file do not hold together.
    Damaged,
    /// A batch could not be read.
    Broken,
    /// The file holds rows of other columns than those of events, or in a form that
    /// is not read.
    Foreign,
    /// The events of the partition.
    Events(Seq<PersistedEvent>),
}

/// Events, followed by what reading on comes to.
pub open spec fn followed_by(events: Seq<PersistedEvent>, rest: PartitionRead) -> PartitionRead {
    match rest {
        PartitionRead::Events(more) => PartitionRead::Events(events + more),
        _ => rest,
    }
}

/// What reading a partition comes to from a point on: the reader has been asked
/// `k` times and is asked `asks` times more, at most. The first batch that fails,
/// or does not hold events, ends it.
pub open spec fn read_from(
    layout: columnar::LayoutView,
    bytes: Seq<u8>,
    k: nat,
    asks: nat,
) -> PartitionRead
    decreases asks,
{
    if asks == 0 {
        PartitionRead::Events(seq![])
    } else {
        match columnar::parquet_item(layout, bytes, k) {
            columnar::ReadItem::End => PartitionRead::Events(seq![]),
            columnar::ReadItem::Failed => PartitionRead::Broken,
            columnar::ReadItem::Batch(columns) => match events_in(columns) {
                None => PartitionRead::Foreign,
                Some(events) => followed_by(
                    events,
                    read_from(layout, bytes, k + 1, (asks - 1) as nat),
                ),
            },
        }
    }
}

/// What reading a partition's bytes comes to.
pub open spec fn partition_read(bytes: Seq<u8>) -> PartitionRead {
    match table_file::table_file(event_defs().len(), bytes) {
        table_file::TableFile::Other => PartitionRead::Foreign,
        table_file::TableFile::Unreadable => PartitionRead::Unreadable,
        table_file::TableFile::Damaged => PartitionRead::Damaged,
        table_file::TableFile::Readable(layout) => read_from(
            layout,
            bytes,
            0,
            columnar::MAX_ASKS as nat,
        ),
    }
}

/// Read all [`PersistedEvent`] rows from the bytes of a single Parquet partition
/// file; `None` if it holds rows of other columns than those of events, or in a form
/// that is not read.
pub fn read_partition(bytes: Vec<u8>) -> (res: Result<Option<Vec<PersistedEvent>>, PersistError>)
    ensures
        match res {
            Ok(Some(events)) => partition_read(bytes@) == PartitionRead::Events(events@),
            Ok(None) => partition_read(bytes@) == PartitionRead::Foreign,
            Err(PersistError::Parquet(_)) => partition_read(bytes@) == PartitionRead::Unreadable,
            Err(PersistError::Arrow(_)) => partition_read(bytes@) == PartitionRead::Broken,
            Err(PersistError::Damaged) => partition_read(bytes@) == PartitionRead::Damaged,
            Err(PersistError::Io(_)) => false,
        },
{
    let ghost all = bytes@;
    let mut reader = match table_file::open_table(10, bytes) {
        Opening::Readable(reader) => reader,
        Opening::Other => return Ok(None),
        Opening::Unreadable(e) => return Err(PersistError::from(e)),
        Opening::Damaged => return Err(PersistError::Damaged),
    };
    let mut events: Vec<PersistedEvent> = Vec::new();
    let ghost layout = columnar::reader_layout(reader);
    let mut asks: u64 = columnar::MAX_ASKS;
    assert(forall|rest: PartitionRead| #[trigger] followed_by(seq![], rest) == rest) by {
        assert forall|rest: PartitionRead| #[trigger] followed_by(seq![], rest) == rest by {
            if let PartitionRead::Events(more) = rest {
                assert(Seq::<PersistedEvent>::empty() + more =~= more);
            }
        }
    }
    while asks > 0
        invariant_except_break
            columnar::gives_batches(layout, all, columnar::reader_position(reader)),
            partition_read(all) == followed_by(
                events@,
                read_from(layout, all, columnar::reader_position(reader), asks as nat),
            ),
        invariant
            all == bytes@,
            columnar::reader_layout(reader) == layout,
            columnar::reader_bytes(reader) == all,
            table_file::is_sound(layout, all),
        ensures
            partition_read(all) == PartitionRead::Events(events@),
        decreases asks,
    {
        let ghost k = columnar::reader_position(reader);
        let ghost before = events@;
        match columnar::next_batch(&mut reader) {
            None => {
                assert(events@ + Seq::<PersistedEvent>::empty() =~= events@);
                break;
            },
            Some(Err(e)) => return Err(PersistError::from(e)),
            Some(Ok(batch)) => match batch_events(&batch) {
                None => return Ok(None),
                Some(more) => {
                    let mut more = more;
                    let ghost added = more@;
                    events.append(&mut more);
                    proof {
                        let rest = read_from(layout, all, k + 1, (asks - 1) as nat);
                        if let PartitionRead::Events(last) = rest {
                            assert(before + (added + last) =~= before + added + last);
                        }
                    }
                },
            },
        }
        asks -= 1;
        if asks == 0 {
            assert(events@ + Seq::<PersistedEvent>::empty() =~= events@);
        }
    }
    Ok(Some(events))
}

/// A file that gives the columns of events back is read as these events.
proof fn lemma_events_read_back(
    layout: columnar::LayoutView,
    bytes: Seq<u8>,
    k: nat,
    events: Seq<PersistedEvent>,
    asks: nat,
)
    requires
        columnar::reads_back(layout, bytes, k, event_columns(events)),
        events.len() <= asks,
    ensures
        read_from(layout, bytes, k, asks) == PartitionRead::Events(events),
    decreases asks,
{
    if asks == 0 {
        assert(events =~= seq![]);
    } else {
        match columnar::parquet_item(layout, bytes, k) {
            columnar::ReadItem::End => {
                assert(events =~= seq![]);
            },
            columnar::ReadItem::Failed => {},
            columnar::ReadItem::Batch(part) => {
                let n = columnar::row_count(part) as int;
                lemma_event_columns_split(events, n);
                law_event_columns_hold_the_events(events.take(n));
                lemma_events_read_back(layout, bytes, k + 1, events.skip(n), (asks - 1) as nat);
                assert(events.take(n) + events.skip(n) =~= events);
            },
        }
    }
}

/// The events that a partition holds before new ones are merged into it: none if
/// there is no file, or none that can be read.
pub open spec fn existing_events(existing: Option<Seq<u8>>) -> Option<Seq<PersistedEvent>> {
    match existing {
        None => Some(seq![]),
        Some(bytes) => match partition_read(bytes) {
            PartitionRead::Events(events) => Some(events),
            PartitionRead::Foreign => None,
            _ => Some(seq![]),
        },
    }
}

/// What becomes of a partition file when events are written to it.
pub enum PartitionWrite {
    /// There is nothing to write.
    Nothing,
    /// The file that is there holds rows of other columns than those of events, or
    /// in a form that is not read.
    Foreign,
    /// The bytes of the file.
    File(Vec<u8>),
}

/// The Parquet partition file containing `events`.
///
/// If the file already exists, its rows are merged with the new events, sorted
/// by `event_time`, and rewritten as a single file.
pub fn write_partition(existing: Option<Vec<u8>>, events: &[PersistedEvent]) -> (res: Result<
    PartitionWrite,
    PersistError,
>)
    ensures
        match res {
            Ok(PartitionWrite::Nothing) => events@.len() == 0,
            Ok(PartitionWrite::Foreign) => events@.len() > 0 && existing_events(
                columnar::file_bytes(existing),
            ) is None,
            Ok(PartitionWrite::File(bytes)) => {
                &&& events@.len() > 0
                &&& existing_events(columnar::file_bytes(existing)) matches Some(rows)
                &&& columnar::parquet_accepts(
                    event_defs(),
                    event_columns(merge::merged(rows, events@)),
                )
                &&& partition_read(bytes@) == PartitionRead::Events(merge::merged(rows, events@))
            },
            Err(PersistError::Parquet(_)) => {
                &&& events@.len() > 0
                &&& existing_events(columnar::file_bytes(existing)) matches Some(rows)
                &&& !columnar::parquet_accepts(
                    event_defs(),
                    event_columns(merge::merged(rows, events@)),
                )
            },
            Err(_) => false,
        },
{
    if events.len() == 0 {
        return Ok(PartitionWrite::Nothing);
    }
    let rows: Vec<PersistedEvent> = match existing {
        Some(bytes) => match read_partition(bytes) {
            Ok(Some(rows)) => rows,
            Ok(None) => return Ok(PartitionWrite::Foreign),
            Err(_) => Vec::new(),
        },
        None => Vec::new(),
    };
    assert(existing_events(columnar::file_bytes(existing)) == Some(rows@));
    let all = merge::merge_rows(rows, events);
    let batch = build_event_batch(all.as_slice());
    match columnar::write_batch(&batch) {
        Ok(bytes) => {
            proof {
                lemma_event_defs_are_plain();
                assert(all.len() <= usize::MAX);
                lemma_events_read_back(
                    columnar::def_layout(event_defs()),
                    bytes@,
                    0,
                    all@,
                    columnar::MAX_ASKS as nat,
                );
            }
            Ok(PartitionWrite::File(bytes))
        },
        Err(e) => Err(PersistError::from(e)),
    }
}

/// Whether columns hold an event in a row: the vessel, the type, the time, the source, the
/// number, the time of the fix, the latitude, the longitude, the accuracy and the quality
/// of the clock, in this order.
pub open spec fn is_row_of(
    columns: Seq<columnar::ColumnValues>,
    i: int,
    event: PersistedEvent,
) -> bool {
    &&& columns.len() >= 10
    &&& columns[0] matches columnar::ColumnValues::U32(values) && values[i] == event.vessel_id
    &&& columns[1] matches columnar::ColumnValues::U16(values) && values[i] == event.event_type
    &&& columns[2] matches columnar::ColumnValues::I64(values) && values[i] == event.event_time
    &&& columns[3] matches columnar::ColumnValues::U16(values) && values[i] == event.source_id
    &&& columns[4] matches columnar::ColumnValues::U32(values) && values[i] == event.seq
    &&& columns[5] matches columnar::ColumnValues::I64(values) && values[i] == event.fix_time
    &&& columns[6] matches columnar::ColumnValues::I32(values) && values[i] == event.lat_e7
    &&& columns[7] matches columnar::ColumnValues::I32(values) && values[i] == event.lon_e7
    &&& columns[8] matches columnar::ColumnValues::U16(values) && values[i] == event.hacc_cm
    &&& columns[9] matches columnar::ColumnValues::U8(values) && values[i] == event.clock_quality
}

/// The columns that are written for events hold each event in its row, and nothing else.
pub proof fn law_each_event_has_its_row(events: Seq<PersistedEvent>, i: int)
    requires
        0 <= i < events.len(),
    ensures
        is_row_of(event_columns(events), i, events[i]),
        event_columns(events).len() == 10,
        forall|k: int| 0 <= k < 10 ==> (#[trigger] event_columns(events)[k]).len() == events.len(),
{
    let columns = event_columns(events);
    assert(columns[0].len() == events.len() && columns[1].len() == events.len()
        && columns[2].len() == events.len() && columns[3].len() == events.len()
        && columns[4].len() == events.len() && columns[5].len() == events.len()
        && columns[6].len() == events.len() && columns[7].len() == events.len()
        && columns[8].len() == events.len() && columns[9].len() == events.len());
}

/// The events that are read from columns are those that their rows hold, one for each row,
/// whatever columns come behind.
pub proof fn law_each_row_is_read_as_its_event(columns: Seq<columnar::ColumnValues>, i: int)
    requires
        columns.len() >= 10,
        columns[0] is U32,
        columns[1] is U16,
        columns[2] is I64,
        columns[3] is U16,
        columns[4] is U32,
        columns[5] is I64,
        columns[6] is I32,
        columns[7] is I32,
        columns[8] is U16,
        columns[9] is U8,
        0 <= i < columns[0].len(),
    ensures
        events_in(columns) matches Some(events) && events.len() == columns[0].len() && is_row_of(
            columns,
            i,
            events[i],
        ),
{
}

/// The columns of a partition, by their names and kinds, all with a value in every row.
pub proof fn law_event_defs()
    ensures
        event_defs().len() == 10,
        event_defs()[0].name == "vessel_id"@ && event_defs()[0].kind == ColumnKind::U32,
        event_defs()[1].name == "event_type"@ && event_defs()[1].kind == ColumnKind::U16,
        event_defs()[2].name == "event_time"@ && event_defs()[2].kind == ColumnKind::I64,
        event_defs()[3].name == "source_id"@ && event_defs()[3].kind == ColumnKind::U16,
        event_defs()[4].name == "seq"@ && event_defs()[4].kind == ColumnKind::U32,
        event_defs()[5].name == "fix_time"@ && event_defs()[5].kind == ColumnKind::I64,
        event_defs()[6].name == "lat_e7"@ && event_defs()[6].kind == ColumnKind::I32,
        event_defs()[7].name == "lon_e7"@ && event_defs()[7].kind == ColumnKind::I32,
        event_defs()[8].name == "hacc_cm"@ && event_defs()[8].kind == ColumnKind::U16,
        event_defs()[9].name == "clock_quality"@ && event_defs()[9].kind == ColumnKind::U8,
        forall|i: int| 0 <= i < 10 ==> !(#[trigger] event_defs()[i]).nullable,
{
}

/// What a partition holds before new events come: the events of its file, if it can be
/// read, and none if there is no file or none that can be read; a file of other columns
/// is not touched.
pub proof fn law_events_that_are_there(bytes: Seq<u8>, events: Seq<PersistedEvent>)
    ensures
        existing_events(None) == Some(Seq::<PersistedEvent>::empty()),
        partition_read(bytes) == PartitionRead::Events(events) ==> existing_events(Some(bytes))
            == Some(events),
        partition_read(bytes) is Unreadable || partition_read(bytes) is Damaged || partition_read(
            bytes,
        ) is Broken ==> existing_events(Some(bytes)) == Some(Seq::<PersistedEvent>::empty()),
        partition_read(bytes) is Foreign ==> existing_events(Some(bytes)) is None,
{
}

/// Reading from one batch on, where the batches from there on hold rows.
proof fn lemma_read_from_batches(
    layout: columnar::LayoutView,
    bytes: Seq<u8>,
    batches: Seq<Seq<columnar::ColumnValues>>,
    rows: Seq<Seq<PersistedEvent>>,
    k: int,
    asks: nat,
)
    requires
        0 <= k <= batches.len() == rows.len(),
        batches.len() - k < asks,
        forall|i: int|
            0 <= i < batches.len() ==> columnar::parquet_item(layout, bytes, i as nat)
                == columnar::ReadItem::Batch(#[trigger] batches[i]) && events_in(batches[i]) == Some(
                rows[i],
            ),
    ensures
        ({
            let last = columnar::parquet_item(layout, bytes, batches.len());
            let res = read_from(layout, bytes, k as nat, asks);
            &&& last is End ==> res == PartitionRead::Events(rows.skip(k).flatten())
            &&& last is Failed ==> res is Broken
            &&& last is Batch && events_in(last->Batch_0) is None
                ==> res is Foreign
        }),
    decreases batches.len() - k,
{
    if k < batches.len() {
        lemma_read_from_batches(layout, bytes, batches, rows, k + 1, (asks - 1) as nat);
        assert(columnar::parquet_item(layout, bytes, k as nat) == columnar::ReadItem::Batch(
            batches[k],
        ));
        assert(rows.skip(k).first() == rows[k]);
        assert(rows.skip(k).drop_first() =~= rows.skip(k + 1));
    } else {
        assert(rows.skip(k) =~= Seq::empty());
        assert(rows.skip(k).flatten() =~= Seq::empty());
    }
}

/// A partition that can be read is read batch by batch: its events are those of the
/// batches, one after the other. A batch that fails breaks the reading, whatever came
/// before it, and so does one of other columns.
pub proof fn law_partition_is_read_batch_by_batch(
    layout: columnar::LayoutView,
    bytes: Seq<u8>,
    batches: Seq<Seq<columnar::ColumnValues>>,
    rows: Seq<Seq<PersistedEvent>>,
)
    requires
        table_file::table_file(10, bytes) == table_file::TableFile::Readable(layout),
        batches.len() == rows.len(),
        batches.len() < u64::MAX,
        forall|i: int|
            0 <= i < batches.len() ==> columnar::parquet_item(layout, bytes, i as nat)
                == columnar::ReadItem::Batch(#[trigger] batches[i]) && events_in(batches[i]) == Some(
                rows[i],
            ),
    ensures
        ({
            let last = columnar::parquet_item(layout, bytes, batches.len());
            &&& last is End ==> partition_read(bytes) == PartitionRead::Events(rows.flatten())
            &&& last is Failed ==> partition_read(bytes) is Broken
            &&& last is Batch && events_in(last->Batch_0) is None
                ==> partition_read(bytes) is Foreign
        }),
{
    lemma_read_from_batches(layout, bytes, batches, rows, 0, columnar::MAX_ASKS as nat);
    assert(rows.skip(0) =~= rows);
}

/// A partition that cannot be opened, whose parts do not hold together, or that holds rows
/// of other columns, is just that to whoever reads it.
pub proof fn law_partition_that_is_not_read(bytes: Seq<u8>)
    ensures
        table_file::table_file(10, bytes) is Unreadable ==> partition_read(bytes) is Unreadable,
        table_file::table_file(10, bytes) is Damaged ==> partition_read(bytes) is Damaged,
        table_file::table_file(10, bytes) is Other ==> partition_read(bytes) is Foreign,
{
}

} // verus!
