//! The boundary to Arrow and Parquet: tables as plain columns, and what the two
//! crates are relied upon for.
//!
//! Files are handed over and taken as bytes, so that a table is encoded and
//! decoded here whatever holds it.

use std::sync::Arc;

use arrow::array::{
    Array, ArrayRef, Int32Array, Int64Array, RecordBatch, StringArray, UInt16Array, UInt32Array,
    UInt8Array,
};
use arrow::datatypes::{DataType, Field, Schema, SchemaRef};
use arrow::error::ArrowError;
use bytes::Bytes;
use parquet::arrow::arrow_reader::{
    ArrowReaderOptions, ParquetRecordBatchReader, ParquetRecordBatchReaderBuilder,
};
use parquet::arrow::{ArrowSchemaConverter, ArrowWriter, ProjectionMask};
use parquet::basic::Compression;
use parquet::errors::ParquetError;
use parquet::file::metadata::{
    ColumnChunkMetaData, ParquetMetaDataOptions, ParquetMetaDataReader, RowGroupMetaData,
};
use vstd::prelude::*;

use super::file_schema;
use super::table_file;

verus! {

/// The error of Arrow's operations.
#[verifier::external_type_specification]
#[verifier::external_body]
pub struct ExArrowError(ArrowError);

/// The error of Parquet's operations.
#[verifier::external_type_specification]
#[verifier::external_body]
pub struct ExParquetError(ParquetError);

/// The kinds of column that tables are made of.
#[derive(Clone, Copy, Debug, PartialEq, Eq, Structural)]
pub enum ColumnKind {
    U8,
    U16,
    U32,
    I32,
    I64,
    Utf8,
}

/// The kind of a column of a file, and whether it may lack values.
#[derive(Clone, Copy, Debug, PartialEq, Eq, Structural)]
pub struct Leaf {
    pub kind: ColumnKind,
    pub nullable: bool,
}

/// The name and the kind of a column, and whether it may lack values.
pub struct ColumnDef {
    pub name: String,
    pub kind: ColumnKind,
    pub nullable: bool,
}

/// The mathematical form of a [`ColumnDef`].
pub struct ColumnDefView {
    pub name: Seq<char>,
    pub kind: ColumnKind,
    pub nullable: bool,
}

impl View for ColumnDef {
    type V = ColumnDefView;

    open spec fn view(&self) -> ColumnDefView {
        ColumnDefView { name: self.name@, kind: self.kind, nullable: self.nullable }
    }
}

/// The definition of a column that has a value in every row.
pub open spec fn filled(name: Seq<char>, kind: ColumnKind) -> ColumnDefView {
    ColumnDefView { name, kind, nullable: false }
}

/// The definition of a column that has a value in every row.
pub fn filled_column(name: &str, kind: ColumnKind) -> (res: ColumnDef)
    ensures
        res@ == filled(name@, kind),
{
    ColumnDef { name: name.to_owned(), kind, nullable: false }
}

/// The mathematical forms of the definitions of a table's columns.
pub open spec fn def_views(defs: Seq<ColumnDef>) -> Seq<ColumnDefView> {
    Seq::new(defs.len(), |i: int| defs[i]@)
}

/// The columns of a file: those that are read, and how many others come behind
/// them.
pub struct Layout {
    pub columns: Vec<Leaf>,
    pub others: usize,
}

/// The mathematical form of a [`Layout`].
#[verifier::ext_equal]
pub struct LayoutView {
    pub columns: Seq<Leaf>,
    pub others: nat,
}

impl View for Layout {
    type V = LayoutView;

    open spec fn view(&self) -> LayoutView {
        LayoutView { columns: self.columns@, others: self.others as nat }
    }
}

/// The columns of the file of a table.
pub open spec fn def_layout(defs: Seq<ColumnDefView>) -> LayoutView {
    LayoutView {
        columns: defs.map_values(
            |def: ColumnDefView| Leaf { kind: def.kind, nullable: def.nullable },
        ),
        others: 0,
    }
}

/// The values of a column. Of a column of another kind only the length is known.
pub enum ColumnValues {
    U8(Seq<u8>),
    U16(Seq<u16>),
    U32(Seq<u32>),
    I32(Seq<i32>),
    I64(Seq<i64>),
    Utf8(Seq<Seq<char>>),
    Other(nat),
}

impl ColumnValues {
    /// How many values there are.
    pub open spec fn len(self) -> nat {
        match self {
            ColumnValues::U8(v) => v.len(),
            ColumnValues::U16(v) => v.len(),
            ColumnValues::U32(v) => v.len(),
            ColumnValues::I32(v) => v.len(),
            ColumnValues::I64(v) => v.len(),
            ColumnValues::Utf8(v) => v.len(),
            ColumnValues::Other(n) => n,
        }
    }

    /// Whether the values are of a kind.
    pub open spec fn is_of(self, kind: ColumnKind) -> bool {
        match self {
            ColumnValues::U8(_) => kind == ColumnKind::U8,
            ColumnValues::U16(_) => kind == ColumnKind::U16,
            ColumnValues::U32(_) => kind == ColumnKind::U32,
            ColumnValues::I32(_) => kind == ColumnKind::I32,
            ColumnValues::I64(_) => kind == ColumnKind::I64,
            ColumnValues::Utf8(_) => kind == ColumnKind::Utf8,
            ColumnValues::Other(_) => false,
        }
    }

    /// The first `n` values.
    pub open spec fn take(self, n: int) -> ColumnValues {
        match self {
            ColumnValues::U8(v) => ColumnValues::U8(v.take(n)),
            ColumnValues::U16(v) => ColumnValues::U16(v.take(n)),
            ColumnValues::U32(v) => ColumnValues::U32(v.take(n)),
            ColumnValues::I32(v) => ColumnValues::I32(v.take(n)),
            ColumnValues::I64(v) => ColumnValues::I64(v.take(n)),
            ColumnValues::Utf8(v) => ColumnValues::Utf8(v.take(n)),
            ColumnValues::Other(_) => ColumnValues::Other(n as nat),
        }
    }

    /// The values but for the first `n`.
    pub open spec fn skip(self, n: int) -> ColumnValues {
        match self {
            ColumnValues::U8(v) => ColumnValues::U8(v.skip(n)),
            ColumnValues::U16(v) => ColumnValues::U16(v.skip(n)),
            ColumnValues::U32(v) => ColumnValues::U32(v.skip(n)),
            ColumnValues::I32(v) => ColumnValues::I32(v.skip(n)),
            ColumnValues::I64(v) => ColumnValues::I64(v.skip(n)),
            ColumnValues::Utf8(v) => ColumnValues::Utf8(v.skip(n)),
            ColumnValues::Other(m) => ColumnValues::Other((m - n) as nat),
        }
    }
}

/// How many rows columns of the same length make.
pub open spec fn row_count(columns: Seq<ColumnValues>) -> nat {
    if columns.len() == 0 {
        0
    } else {
        columns[0].len()
    }
}

/// The first `n` rows.
pub open spec fn first_rows(columns: Seq<ColumnValues>, n: int) -> Seq<ColumnValues> {
    Seq::new(columns.len(), |i: int| columns[i].take(n))
}

/// The rows but for the first `n`.
pub open spec fn later_rows(columns: Seq<ColumnValues>, n: int) -> Seq<ColumnValues> {
    Seq::new(columns.len(), |i: int| columns[i].skip(n))
}

/// Whether columns make a table of the given definitions: there is one column
/// for each definition, at least one, each of its kind, all of one length.
pub open spec fn makes_table(defs: Seq<ColumnDefView>, columns: Seq<ColumnValues>) -> bool {
    &&& 0 < columns.len() == defs.len()
    &&& forall|i: int|
        0 <= i < columns.len() ==> (#[trigger] columns[i]).is_of(defs[i].kind) && columns[i].len()
            == row_count(columns)
}

/// How many columns a table has, at most.
pub const MAX_COLUMNS: usize = 0xFF;

/// How many characters the name of a column has, at most.
pub const MAX_NAME_LEN: usize = 0xFF;

/// Whether no two columns have the same name and none may lack values, and
/// neither the columns nor the characters of their names are too many.
pub open spec fn plain_defs(defs: Seq<ColumnDefView>) -> bool {
    &&& defs.len() <= MAX_COLUMNS
    &&& forall|i: int| 0 <= i < defs.len() ==> (#[trigger] defs[i]).name.len() <= MAX_NAME_LEN
    &&& forall|i: int| 0 <= i < defs.len() ==> !(#[trigger] defs[i]).nullable
    &&& forall|i: int, j: int|
        0 <= i < j < defs.len() ==> (#[trigger] defs[i]).name != (#[trigger] defs[j]).name
}

/// An Arrow schema that was made from definitions.
#[verifier::external_body]
pub struct TableSchema {
    inner: SchemaRef,
}

/// An Arrow schema that was made from the columns of a file, and how many of them
/// are read.
#[verifier::external_body]
pub struct FileSchema {
    inner: SchemaRef,
    columns: usize,
}

/// An Arrow array that was made from values.
#[verifier::external_body]
pub struct Column {
    inner: ArrayRef,
}

/// An Arrow record batch that was made from columns.
#[verifier::external_body]
pub struct Batch {
    inner: RecordBatch,
}

/// An Arrow record batch that was read from a Parquet file.
#[verifier::external_body]
pub struct ReadBatch {
    inner: RecordBatch,
}

/// A reader of the record batches of a Parquet file.
#[verifier::external_body]
pub struct BatchReader {
    inner: ParquetRecordBatchReader,
}

/// Where a Parquet file says that the pages of a column of a row group lie.
#[derive(Clone, Copy)]
pub struct Chunk {
    /// Whether the bodies of the pages are compressed.
    pub compressed: bool,
    /// The position of the first data page.
    pub data_start: i64,
    /// The position of the dictionary page, if there is one.
    pub dictionary_start: Option<i64>,
    /// How many bytes the pages take.
    pub size: i64,
}

/// What a Parquet file says of a row group.
pub struct RowGroup {
    pub rows: i64,
    pub chunks: Vec<Chunk>,
}

/// The mathematical form of a [`RowGroup`].
pub struct RowGroupView {
    pub rows: i64,
    pub chunks: Seq<Chunk>,
}

impl View for RowGroup {
    type V = RowGroupView;

    open spec fn view(&self) -> RowGroupView {
        RowGroupView { rows: self.rows, chunks: self.chunks@ }
    }
}

/// The mathematical forms of row groups.
pub open spec fn group_views(groups: Seq<RowGroup>) -> Seq<RowGroupView> {
    Seq::new(groups.len(), |i: int| groups[i]@)
}

/// The definitions that a schema was made from.
pub uninterp spec fn schema_defs(schema: TableSchema) -> Seq<ColumnDefView>;

/// The columns that a schema was made from.
pub uninterp spec fn schema_layout(schema: FileSchema) -> LayoutView;

/// The values that a column holds.
pub uninterp spec fn column_values(column: Column) -> ColumnValues;

/// The definitions of the columns of a batch.
pub uninterp spec fn batch_defs(batch: Batch) -> Seq<ColumnDefView>;

/// The columns of a batch.
pub uninterp spec fn batch_columns(batch: Batch) -> Seq<ColumnValues>;

/// The columns of a batch that was read.
pub uninterp spec fn read_columns(batch: ReadBatch) -> Seq<ColumnValues>;

/// The columns of the file that a reader reads.
pub uninterp spec fn reader_layout(reader: BatchReader) -> LayoutView;

/// The bytes that a reader reads.
pub uninterp spec fn reader_bytes(reader: BatchReader) -> Seq<u8>;

/// How often a reader has been asked for a batch.
pub uninterp spec fn reader_position(reader: BatchReader) -> nat;

/// What a reader gives when it is asked for the next batch.
pub enum ReadItem {
    End,
    Failed,
    Batch(Seq<ColumnValues>),
}

/// Whether Parquet takes columns of the given definitions for a file.
pub uninterp spec fn parquet_accepts(defs: Seq<ColumnDefView>, columns: Seq<ColumnValues>) -> bool;

/// The row groups of a Parquet file of the given columns, as its footer gives them.
pub uninterp spec fn parquet_groups(layout: LayoutView, bytes: Seq<u8>) -> Option<
    Seq<RowGroupView>,
>;

/// Whether bytes are a Parquet file of the given columns that can be opened for
/// reading batches.
pub uninterp spec fn parquet_opens(layout: LayoutView, bytes: Seq<u8>) -> bool;

/// What a reader of these bytes, with the given columns, gives when it is asked for
/// a batch after having been asked `k` times.
pub uninterp spec fn parquet_item(layout: LayoutView, bytes: Seq<u8>, k: nat) -> ReadItem;

/// Whether a reader of these bytes gives a batch each time when it is asked `n`
/// times.
pub open spec fn gives_batches(layout: LayoutView, bytes: Seq<u8>, n: nat) -> bool {
    forall|k: nat| k < n ==> #[trigger] parquet_item(layout, bytes, k) is Batch
}

/// Whether a reader of these bytes that has been asked `k` times gives columns
/// back from there on: batch by batch, each with at least one row, and then the
/// end.
pub open spec fn reads_back(
    layout: LayoutView,
    bytes: Seq<u8>,
    k: nat,
    columns: Seq<ColumnValues>,
) -> bool
    decreases row_count(columns),
{
    match parquet_item(layout, bytes, k) {
        ReadItem::End => row_count(columns) == 0,
        ReadItem::Failed => false,
        ReadItem::Batch(part) => {
            let n = row_count(part) as int;
            &&& 0 < n <= row_count(columns)
            &&& part == first_rows(columns, n)
            &&& row_count(later_rows(columns, n)) < row_count(columns)
            &&& reads_back(layout, bytes, k + 1, later_rows(columns, n))
        },
    }
}

/// How often a reader is asked for a batch, at most.
pub const MAX_ASKS: u64 = 0xFFFF_FFFF_FFFF_FFFF;

/// The bytes of an optional file.
pub open spec fn file_bytes(file: Option<Vec<u8>>) -> Option<Seq<u8>> {
    match file {
        None => None,
        Some(bytes) => Some(bytes@),
    }
}

/// The column of a batch at an index; one of another kind if there is none.
pub open spec fn column_at(columns: Seq<ColumnValues>, index: usize) -> ColumnValues {
    if index < columns.len() {
        columns[index as int]
    } else {
        ColumnValues::Other(0)
    }
}

/// The texts of string slices.
pub open spec fn str_texts(values: Seq<&str>) -> Seq<Seq<char>> {
    Seq::new(values.len(), |i: int| values[i]@)
}

/// How many bytes texts take in UTF-8.
pub open spec fn text_size(texts: Seq<Seq<char>>) -> nat
    decreases texts.len(),
{
    if texts.len() == 0 {
        0
    } else {
        text_size(texts.drop_last()) + vstd::utf8::encode_utf8(texts.last()).len()
    }
}

/// `UInt8Array::from`: an array holds the values that it is made from.
#[verifier::external_body]
pub(crate) fn u8_column(values: Vec<u8>) -> (res: Column)
    ensures
        column_values(res) == ColumnValues::U8(values@),
{
    Column { inner: Arc::new(UInt8Array::from(values)) }
}

/// `UInt16Array::from`: an array holds the values that it is made from.
#[verifier::external_body]
pub(crate) fn u16_column(values: Vec<u16>) -> (res: Column)
    ensures
        column_values(res) == ColumnValues::U16(values@),
{
    Column { inner: Arc::new(UInt16Array::from(values)) }
}

/// `UInt32Array::from`: an array holds the values that it is made from.
#[verifier::external_body]
pub(crate) fn u32_column(values: Vec<u32>) -> (res: Column)
    ensures
        column_values(res) == ColumnValues::U32(values@),
{
    Column { inner: Arc::new(UInt32Array::from(values)) }
}

/// `Int32Array::from`: an array holds the values that it is made from.
#[verifier::external_body]
pub(crate) fn i32_column(values: Vec<i32>) -> (res: Column)
    ensures
        column_values(res) == ColumnValues::I32(values@),
{
    Column { inner: Arc::new(Int32Array::from(values)) }
}

/// `Int64Array::from`: an array holds the values that it is made from.
#[verifier::external_body]
pub(crate) fn i64_column(values: Vec<i64>) -> (res: Column)
    ensures
        column_values(res) == ColumnValues::I64(values@),
{
    Column { inner: Arc::new(Int64Array::from(values)) }
}

/// `StringArray::from`: an array holds the texts that it is made from. Their
/// offsets are 32-bit integers, and more bytes than these can count make it
/// panic.
#[verifier::external_body]
pub(crate) fn text_column(values: Vec<&str>) -> (res: Column)
    requires
        text_size(str_texts(values@)) <= i32::MAX,
    ensures
        column_values(res) == ColumnValues::Utf8(str_texts(values@)),
{
    Column { inner: Arc::new(StringArray::from(values)) }
}

/// The values that columns hold.
pub open spec fn all_values(columns: Seq<Column>) -> Seq<ColumnValues> {
    Seq::new(columns.len(), |i: int| column_values(columns[i]))
}

/// `Schema::new` and `Field::new`: the schema of the given definitions. It is kept
/// small: `ArrowWriter` panics on schemas of gigabytes.
#[verifier::external_body]
pub(crate) fn table_schema(defs: Vec<ColumnDef>) -> (res: TableSchema)
    requires
        plain_defs(def_views(defs@)),
    ensures
        schema_defs(res) == def_views(defs@),
{
    let field = |def: ColumnDef| {
        let data_type = match def.kind {
            ColumnKind::U8 => DataType::UInt8,
            ColumnKind::U16 => DataType::UInt16,
            ColumnKind::U32 => DataType::UInt32,
            ColumnKind::I32 => DataType::Int32,
            ColumnKind::I64 => DataType::Int64,
            ColumnKind::Utf8 => DataType::Utf8,
        };
        Field::new(def.name, data_type, def.nullable)
    };
    let fields = defs.into_iter().map(field).collect::<Vec<Field>>();
    TableSchema { inner: SchemaRef::new(Schema::new(fields)) }
}

/// `Schema::new` and `Field::new`: a schema of the given columns. Columns that are
/// not read pass for byte strings, which may have statistics of any length.
#[verifier::external_body]
pub(crate) fn file_schema(layout: &Layout) -> (res: FileSchema)
    ensures
        schema_layout(res) == layout@,
{
    let field = |leaf: &Leaf| {
        let data_type = match leaf.kind {
            ColumnKind::U8 => DataType::UInt8,
            ColumnKind::U16 => DataType::UInt16,
            ColumnKind::U32 => DataType::UInt32,
            ColumnKind::I32 => DataType::Int32,
            ColumnKind::I64 => DataType::Int64,
            ColumnKind::Utf8 => DataType::Utf8,
        };
        Field::new("", data_type, leaf.nullable)
    };
    let mut fields = layout.columns.iter().map(field).collect::<Vec<Field>>();
    fields.extend((0..layout.others).map(|_| Field::new("", DataType::Binary, false)));
    FileSchema { inner: SchemaRef::new(Schema::new(fields)), columns: layout.columns.len() }
}

/// `RecordBatch::try_new`: a batch has the definitions and the columns that it is
/// made from, and is made just if the columns make a table of the definitions.
#[verifier::external_body]
pub(crate) fn record_batch(schema: &TableSchema, columns: Vec<Column>) -> (res: Result<
    Batch,
    ArrowError,
>)
    ensures
        match res {
            Ok(batch) => makes_table(schema_defs(*schema), all_values(columns@)) && batch_defs(
                batch,
            ) == schema_defs(*schema) && batch_columns(batch) == all_values(columns@),
            Err(_) => !makes_table(schema_defs(*schema), all_values(columns@)),
        },
{
    let arrays = columns.into_iter().map(|column| column.inner).collect();
    RecordBatch::try_new(schema.inner.clone(), arrays).map(|inner| Batch { inner })
}

/// `ArrowWriter`, its `try_new`, `write` and `close` without properties of its
/// own: the bytes of a Parquet file of one batch. Whether there are any depends
/// on the batch alone. Where no two columns have the same name and none may lack
/// values, the file can be read: its schema tells the batch's columns, its pages are
/// whole, and it gives the batch's columns back. Which bytes they are is not said.
#[verifier::external_body]
pub(crate) fn write_batch(batch: &Batch) -> (res: Result<Vec<u8>, ParquetError>)
    ensures
        match res {
            Ok(bytes) => parquet_accepts(batch_defs(*batch), batch_columns(*batch)) && (plain_defs(
                batch_defs(*batch),
            ) ==> table_file::table_file(batch_defs(*batch).len(), bytes@)
                == table_file::TableFile::Readable(def_layout(batch_defs(*batch))) && reads_back(
                def_layout(batch_defs(*batch)),
                bytes@,
                0,
                batch_columns(*batch),
            )),
            Err(_) => !parquet_accepts(batch_defs(*batch), batch_columns(*batch)),
        },
{
    let mut bytes = Vec::new();
    let mut writer = ArrowWriter::try_new(&mut bytes, batch.inner.schema(), None)?;
    writer.write(&batch.inner)?;
    writer.close()?;
    Ok(bytes)
}

/// `ParquetMetaDataReader`, its `parse_and_finish`, with the schema that
/// `ArrowSchemaConverter` makes of the columns in place of the file's own, which is
/// passed over: the row groups that the footer tells of, or that there is no footer
/// that can be read. It depends on the columns and the bytes alone. An integer that
/// goes on for half a billion bytes can make it panic.
#[verifier::external_body]
pub(crate) fn read_groups(schema: &FileSchema, bytes: &Vec<u8>) -> (res: Result<
    Vec<RowGroup>,
    ParquetError,
>)
    requires
        file_schema::footer_ends(bytes@),
    ensures
        match res {
            Ok(groups) => parquet_groups(schema_layout(*schema), bytes@) == Some(
                group_views(groups@),
            ),
            Err(_) => parquet_groups(schema_layout(*schema), bytes@) is None,
        },
{
    let descr = Arc::new(ArrowSchemaConverter::new().convert(&schema.inner)?);
    let options = Some(ParquetMetaDataOptions::new().with_schema(descr));
    let reader = ParquetMetaDataReader::new().with_metadata_options(options);
    let found = reader.parse_and_finish(&Bytes::copy_from_slice(bytes))?;
    let chunk = |c: &ColumnChunkMetaData| Chunk {
        compressed: !matches!(c.compression(), Compression::UNCOMPRESSED),
        data_start: c.data_page_offset(),
        dictionary_start: c.dictionary_page_offset(),
        size: c.compressed_size(),
    };
    let group = |g: &RowGroupMetaData| {
        RowGroup { rows: g.num_rows(), chunks: g.columns().iter().map(chunk).collect() }
    };
    Ok(found.row_groups().iter().map(group).collect())
}

/// `ParquetRecordBatchReaderBuilder`, its `try_new_with_options`, `with_projection`
/// and `build`: a reader of these bytes, from their start, by the schema that
/// `ArrowSchemaConverter` makes of the columns; the file's own schemas are passed
/// over, and so are the columns that are not read. Whether there is one depends on
/// the columns and the bytes alone. Row counts that are negative, or too large in
/// all, can make it panic.
#[verifier::external_body]
pub(crate) fn open_reader(schema: &FileSchema, bytes: Vec<u8>) -> (res: Result<
    BatchReader,
    ParquetError,
>)
    requires
        table_file::is_sound(schema_layout(*schema), bytes@),
    ensures
        match res {
            Ok(reader) => parquet_opens(schema_layout(*schema), bytes@) && reader_layout(reader)
                == schema_layout(*schema) && reader_bytes(reader) == bytes@ && reader_position(
                reader,
            ) == 0,
            Err(_) => !parquet_opens(schema_layout(*schema), bytes@),
        },
{
    let descr = Arc::new(ArrowSchemaConverter::new().convert(&schema.inner)?);
    let mask = ProjectionMask::leaves(&descr, 0..schema.columns);
    let options = ArrowReaderOptions::new().with_parquet_schema(descr);
    let options = options.with_skip_arrow_metadata(true);
    let bytes = Bytes::from(bytes);
    let builder = ParquetRecordBatchReaderBuilder::try_new_with_options(bytes, options)?;
    Ok(BatchReader { inner: builder.with_projection(mask).build()? })
}

/// `ParquetRecordBatchReader::next`: what comes depends on the columns, the bytes and
/// on how often the reader has been asked before. What can make it panic are chunks
/// that lie at negative positions, dictionaries without an entry, places in a
/// dictionary that are negative or for which there is no dictionary, runs of
/// overlong length, levels that are cut off, and texts beyond the number that was
/// told. A reader that is asked again after a failure can panic too, or give texts
/// that are none.
#[verifier::external_body]
pub(crate) fn next_batch(reader: &mut BatchReader) -> (res: Option<Result<ReadBatch, ArrowError>>)
    requires
        table_file::is_sound(reader_layout(*old(reader)), reader_bytes(*old(reader))),
        gives_batches(
            reader_layout(*old(reader)),
            reader_bytes(*old(reader)),
            reader_position(*old(reader)),
        ),
    ensures
        reader_layout(*final(reader)) == reader_layout(*old(reader)),
        reader_bytes(*final(reader)) == reader_bytes(*old(reader)),
        reader_position(*final(reader)) == reader_position(*old(reader)) + 1,
        match res {
            None => parquet_item(
                reader_layout(*old(reader)),
                reader_bytes(*old(reader)),
                reader_position(*old(reader)),
            ) == ReadItem::End,
            Some(Err(_)) => parquet_item(
                reader_layout(*old(reader)),
                reader_bytes(*old(reader)),
                reader_position(*old(reader)),
            ) == ReadItem::Failed,
            Some(Ok(batch)) => parquet_item(
                reader_layout(*old(reader)),
                reader_bytes(*old(reader)),
                reader_position(*old(reader)),
            ) == ReadItem::Batch(read_columns(batch)),
        },
{
    Some(reader.inner.next()?.map(|inner| ReadBatch { inner }))
}

/// `RecordBatch::num_rows`: every column of a batch has that many values.
#[verifier::external_body]
pub(crate) fn num_rows(batch: &ReadBatch) -> (res: usize)
    ensures
        forall|i: int|
            0 <= i < read_columns(*batch).len() ==> (#[trigger] read_columns(*batch)[i]).len()
                == res,
{
    batch.inner.num_rows()
}

/// `RecordBatch::columns`, taken for a `UInt8Array`: the values of a column, if
/// there is one at the index and it is of that kind.
#[verifier::external_body]
pub(crate) fn u8_values(batch: &ReadBatch, index: usize) -> (res: Option<Vec<u8>>)
    ensures
        match res {
            Some(values) => column_at(read_columns(*batch), index) == ColumnValues::U8(values@),
            None => !column_at(read_columns(*batch), index).is_of(ColumnKind::U8),
        },
{
    let array = batch.inner.columns().get(index)?.as_any().downcast_ref::<UInt8Array>()?;
    Some(array.values().to_vec())
}

/// `RecordBatch::columns`, taken for a `UInt16Array`: the values of a column, if
/// there is one at the index and it is of that kind.
#[verifier::external_body]
pub(crate) fn u16_values(batch: &ReadBatch, index: usize) -> (res: Option<Vec<u16>>)
    ensures
        match res {
            Some(values) => column_at(read_columns(*batch), index) == ColumnValues::U16(values@),
            None => !column_at(read_columns(*batch), index).is_of(ColumnKind::U16),
        },
{
    let array = batch.inner.columns().get(index)?.as_any().downcast_ref::<UInt16Array>()?;
    Some(array.values().to_vec())
}

/// `RecordBatch::columns`, taken for a `UInt32Array`: the values of a column, if
/// there is one at the index and it is of that kind.
#[verifier::external_body]
pub(crate) fn u32_values(batch: &ReadBatch, index: usize) -> (res: Option<Vec<u32>>)
    ensures
        match res {
            Some(values) => column_at(read_columns(*batch), index) == ColumnValues::U32(values@),
            None => !column_at(read_columns(*batch), index).is_of(ColumnKind::U32),
        },
{
    let array = batch.inner.columns().get(index)?.as_any().downcast_ref::<UInt32Array>()?;
    Some(array.values().to_vec())
}

/// `RecordBatch::columns`, taken for an `Int32Array`: the values of a column, if
/// there is one at the index and it is of that kind.
#[verifier::external_body]
pub(crate) fn i32_values(batch: &ReadBatch, index: usize) -> (res: Option<Vec<i32>>)
    ensures
        match res {
            Some(values) => column_at(read_columns(*batch), index) == ColumnValues::I32(values@),
            None => !column_at(read_columns(*batch), index).is_of(ColumnKind::I32),
        },
{
    let array = batch.inner.columns().get(index)?.as_any().downcast_ref::<Int32Array>()?;
    Some(array.values().to_vec())
}

/// `RecordBatch::columns`, taken for an `Int64Array`: the values of a column, if
/// there is one at the index and it is of that kind.
#[verifier::external_body]
pub(crate) fn i64_values(batch: &ReadBatch, index: usize) -> (res: Option<Vec<i64>>)
    ensures
        match res {
            Some(values) => column_at(read_columns(*batch), index) == ColumnValues::I64(values@),
            None => !column_at(read_columns(*batch), index).is_of(ColumnKind::I64),
        },
{
    let array = batch.inner.columns().get(index)?.as_any().downcast_ref::<Int64Array>()?;
    Some(array.values().to_vec())
}

/// `RecordBatch::columns`, taken for a `StringArray`: the texts of a column, if
/// there is one at the index and it is of that kind.
#[verifier::external_body]
pub(crate) fn text_values(batch: &ReadBatch, index: usize) -> (res: Option<Vec<String>>)
    ensures
        match res {
            Some(values) => column_at(read_columns(*batch), index) == ColumnValues::Utf8(
                crate::broadcast::texts(values@),
            ),
            None => !column_at(read_columns(*batch), index).is_of(ColumnKind::Utf8),
        },
{
    let array = batch.inner.columns().get(index)?.as_any().downcast_ref::<StringArray>()?;
    Some((0..array.len()).map(|i| array.value(i).to_string()).collect())
}

/// The bytes of a file are those that it holds, and there are none without one.
pub proof fn law_file_bytes(file: Vec<u8>)
    ensures
        file_bytes(Some(file)) == Some(file@),
        file_bytes(None) is None,
{
}

/// The texts of string slices are those of each, at its place.
pub proof fn law_str_texts_are_in_place(values: Seq<&str>, i: int)
    requires
        0 <= i < values.len(),
    ensures
        str_texts(values).len() == values.len(),
        str_texts(values)[i] == values[i]@,
{
}

/// The layout of the file of a table has its columns in their order, and no others.
pub proof fn law_def_layout(defs: Seq<ColumnDefView>, i: int)
    requires
        0 <= i < defs.len(),
    ensures
        def_layout(defs).columns.len() == defs.len(),
        def_layout(defs).columns[i].kind == defs[i].kind,
        def_layout(defs).columns[i].nullable == defs[i].nullable,
        def_layout(defs).others == 0,
{
}

/// Texts take the bytes of their encodings, and together what they take one by one.
pub proof fn law_sizes_of_texts(a: Seq<Seq<char>>, b: Seq<Seq<char>>, text: Seq<char>)
    ensures
        text_size(seq![]) == 0,
        text_size(seq![text]) == vstd::utf8::encode_utf8(text).len(),
        text_size(a + b) == text_size(a) + text_size(b),
    decreases b.len(),
{
    reveal_with_fuel(text_size, 2);
    assert(seq![text].drop_last() =~= seq![]);
    if b.len() == 0 {
        assert(a + b =~= a);
    } else {
        law_sizes_of_texts(a, b.drop_last(), text);
        assert((a + b).drop_last() =~= a + b.drop_last());
    }
}

} // verus!
