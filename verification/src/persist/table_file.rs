//! The Parquet file of a table, before its rows are read: whether its parts hold
//! together, so that it can be opened.

use parquet::errors::ParquetError;
use vstd::prelude::*;

use super::columnar;
use super::columnar::{BatchReader, Chunk, Layout, Leaf, RowGroup};
use super::file_schema;
use super::pages;
use super::pages::Soundness;

verus! {

/// The position of the first page of a chunk.
pub open spec fn chunk_start(chunk: Chunk) -> int {
    match chunk.dictionary_start {
        Some(start) => start as int,
        None => chunk.data_start as int,
    }
}

/// What can be said of a chunk of a column: it lies in the file, and its pages are
/// not compressed and can be decoded.
pub open spec fn chunk_soundness(chunk: Chunk, bytes: Seq<u8>, leaf: Leaf) -> Soundness {
    let start = chunk_start(chunk);
    if start < 0 || chunk.size < 0 || start + chunk.size > bytes.len() {
        Soundness::Damaged
    } else if chunk.compressed {
        Soundness::Unsupported
    } else {
        pages::pages_soundness(bytes, start, start + chunk.size, leaf, false)
    }
}

/// What can be said of a chunk, see [`chunk_soundness`].
pub fn check_chunk(chunk: &Chunk, bytes: &Vec<u8>, leaf: Leaf) -> (res: Soundness)
    ensures
        res == chunk_soundness(*chunk, bytes@, leaf),
{
    let start: i64 = match chunk.dictionary_start {
        Some(start) => start,
        None => chunk.data_start,
    };
    if start < 0 || chunk.size < 0 || start as u64 > bytes.len() as u64 || chunk.size as u64 > (
    bytes.len() as u64 - start as u64) {
        return Soundness::Damaged;
    }
    if chunk.compressed {
        return Soundness::Unsupported;
    }
    pages::check_pages(bytes, start as usize, start as usize + chunk.size as usize, leaf)
}

/// What can be said of the chunks of columns, from one column on: what can be said
/// of the first that is not whole. There is one for each column.
pub open spec fn chunks_soundness(
    chunks: Seq<Chunk>,
    bytes: Seq<u8>,
    columns: Seq<Leaf>,
    i: int,
) -> Soundness
    decreases columns.len() - i,
{
    if !(0 <= i < columns.len()) {
        Soundness::Whole
    } else if i >= chunks.len() {
        Soundness::Damaged
    } else {
        let first = chunk_soundness(chunks[i], bytes, columns[i]);
        if first != Soundness::Whole {
            first
        } else {
            chunks_soundness(chunks, bytes, columns, i + 1)
        }
    }
}

/// What can be said of chunks, see [`chunks_soundness`].
fn check_chunks(chunks: &Vec<Chunk>, bytes: &Vec<u8>, columns: &Vec<Leaf>) -> (res: Soundness)
    ensures
        res == chunks_soundness(chunks@, bytes@, columns@, 0),
{
    let mut i: usize = 0;
    while i < columns.len()
        invariant
            i <= columns@.len(),
            chunks_soundness(chunks@, bytes@, columns@, 0) == chunks_soundness(
                chunks@,
                bytes@,
                columns@,
                i as int,
            ),
        decreases columns@.len() - i,
    {
        if i >= chunks.len() {
            return Soundness::Damaged;
        }
        let first = check_chunk(&chunks[i], bytes, columns[i]);
        if first != Soundness::Whole {
            return first;
        }
        i += 1;
    }
    Soundness::Whole
}

/// What can be said of row groups: what can be said of the first that is not whole.
/// None has a negative number of rows, and they have no more than a number of them
/// in all.
pub open spec fn groups_soundness(
    groups: Seq<columnar::RowGroupView>,
    bytes: Seq<u8>,
    columns: Seq<Leaf>,
    most_rows: int,
) -> Soundness
    decreases groups.len(),
{
    if groups.len() == 0 {
        Soundness::Whole
    } else if !(0 <= groups[0].rows <= most_rows) {
        Soundness::Damaged
    } else {
        let first = chunks_soundness(groups[0].chunks, bytes, columns, 0);
        if first != Soundness::Whole {
            first
        } else {
            groups_soundness(groups.drop_first(), bytes, columns, most_rows - groups[0].rows)
        }
    }
}

/// What can be said of row groups, see [`groups_soundness`].
pub fn check_groups(groups: &Vec<RowGroup>, bytes: &Vec<u8>, columns: &Vec<Leaf>) -> (res:
    Soundness)
    ensures
        res == groups_soundness(
            columnar::group_views(groups@),
            bytes@,
            columns@,
            i64::MAX as int,
        ),
{
    let ghost views = columnar::group_views(groups@);
    let mut left: i64 = i64::MAX;
    let mut n: usize = 0;
    assert(views.skip(0) =~= views);
    while n < groups.len()
        invariant
            n <= groups@.len(),
            0 <= left,
            views == columnar::group_views(groups@),
            groups_soundness(views, bytes@, columns@, i64::MAX as int) == groups_soundness(
                views.skip(n as int),
                bytes@,
                columns@,
                left as int,
            ),
        decreases groups@.len() - n,
    {
        assert(views.skip(n as int)[0] == groups@[n as int]@);
        assert(views.skip(n as int).drop_first() =~= views.skip(n + 1));
        let group = &groups[n];
        if group.rows < 0 || group.rows > left {
            return Soundness::Damaged;
        }
        let first = check_chunks(&group.chunks, bytes, columns);
        if first != Soundness::Whole {
            return first;
        }
        left -= group.rows;
        n += 1;
    }
    Soundness::Whole
}

/// What can be said of the columns of a file that are read, given the row groups that
/// its footer tells of.
pub open spec fn file_soundness(
    layout: columnar::LayoutView,
    groups: Seq<columnar::RowGroupView>,
    bytes: Seq<u8>,
) -> Soundness {
    groups_soundness(groups, bytes, layout.columns, i64::MAX as int)
}

/// Whether a file has a footer, and the parts that are read hold together.
#[verifier::opaque]
pub open spec fn is_sound(layout: columnar::LayoutView, bytes: Seq<u8>) -> bool {
    &&& file_schema::footer_ends(bytes)
    &&& columnar::parquet_groups(layout, bytes) matches Some(groups) && file_soundness(
        layout,
        groups,
        bytes,
    ) == Soundness::Whole
}

/// What a file is to a reader of tables.
pub enum TableFile {
    /// The file holds rows of other columns, or in another form, than are read.
    Other,
    /// The file cannot be opened.
    Unreadable,
    /// The parts of the file do not hold together.
    Damaged,
    /// The file can be read; its columns.
    Readable(columnar::LayoutView),
}

/// The columns of a file of which the first `n` are read, if they are of kinds that
/// tables are made of.
pub open spec fn leading_layout(leaves: Seq<Option<Leaf>>, n: nat) -> Option<
    columnar::LayoutView,
> {
    if n <= leaves.len() && forall|i: int| 0 <= i < n ==> #[trigger] leaves[i] is Some {
        Some(
            columnar::LayoutView {
                columns: Seq::new(n, |i: int| leaves[i]->0),
                others: (leaves.len() - n) as nat,
            },
        )
    } else {
        None
    }
}

/// The columns of a file of which none is read.
pub open spec fn unread_layout(n: nat) -> columnar::LayoutView {
    columnar::LayoutView { columns: seq![], others: n }
}

/// What a file of the given columns is.
pub open spec fn file_of_layout(layout: columnar::LayoutView, bytes: Seq<u8>) -> TableFile {
    match columnar::parquet_groups(layout, bytes) {
        None => TableFile::Unreadable,
        Some(groups) => match file_soundness(layout, groups, bytes) {
            Soundness::Damaged => TableFile::Damaged,
            Soundness::Unsupported => TableFile::Other,
            Soundness::Whole => if columnar::parquet_opens(layout, bytes) {
                TableFile::Readable(layout)
            } else {
                TableFile::Unreadable
            },
        },
    }
}

/// What a file is to a reader of its first `n` columns. One whose first columns are of
/// other kinds can be read if it has no rows. One without a schema has no columns of
/// which its footer could tell.
#[verifier::opaque]
pub open spec fn table_file(n: nat, bytes: Seq<u8>) -> TableFile {
    if !file_schema::footer_ends(bytes) {
        TableFile::Damaged
    } else {
        match file_schema::file_leaves(bytes) {
            None => if columnar::parquet_groups(unread_layout(0), bytes) is None {
                TableFile::Unreadable
            } else {
                TableFile::Damaged
            },
            Some(leaves) => match leading_layout(leaves, n) {
                Some(layout) => file_of_layout(layout, bytes),
                None => {
                    let layout = unread_layout(leaves.len());
                    match columnar::parquet_groups(layout, bytes) {
                        Some(groups) if groups.len() > 0 => TableFile::Other,
                        _ => file_of_layout(layout, bytes),
                    }
                },
            },
        }
    }
}

/// The columns of a file of which the first `n` are read, see [`leading_layout`].
fn lead(leaves: &Vec<Option<Leaf>>, n: usize) -> (res: Option<Layout>)
    ensures
        match res {
            Some(layout) => leading_layout(leaves@, n as nat) == Some(layout@),
            None => leading_layout(leaves@, n as nat) is None,
        },
{
    if n > leaves.len() {
        return None;
    }
    let mut columns: Vec<Leaf> = Vec::new();
    while columns.len() < n
        invariant
            columns@.len() <= n <= leaves@.len(),
            forall|i: int| 0 <= i < columns@.len() ==> #[trigger] leaves@[i] == Some(columns@[i]),
        decreases n - columns@.len(),
    {
        match leaves[columns.len()] {
            Some(leaf) => columns.push(leaf),
            None => {
                assert(leaves@[columns@.len() as int] is None);
                return None;
            },
        }
    }
    let layout = Layout { columns, others: leaves.len() - n };
    assert(layout@.columns =~= Seq::new(n as nat, |i: int| leaves@[i]->0));
    Some(layout)
}

/// What opening a file for the rows of a table comes to.
pub enum Opening {
    Other,
    Unreadable(ParquetError),
    Damaged,
    Readable(BatchReader),
}

/// Opens a file for its first `n` columns.
pub(crate) fn open_table(n: usize, bytes: Vec<u8>) -> (res: Opening)
    ensures
        match res {
            Opening::Other => table_file(n as nat, bytes@) == TableFile::Other,
            Opening::Unreadable(_) => table_file(n as nat, bytes@) == TableFile::Unreadable,
            Opening::Damaged => table_file(n as nat, bytes@) == TableFile::Damaged,
            Opening::Readable(reader) => {
                &&& table_file(n as nat, bytes@) == TableFile::Readable(
                    columnar::reader_layout(reader),
                )
                &&& columnar::reader_bytes(reader) == bytes@
                &&& columnar::reader_position(reader) == 0
                &&& is_sound(columnar::reader_layout(reader), bytes@)
            },
        },
{
    proof {
        reveal(is_sound);
        reveal(table_file);
    }
    if !file_schema::check_footer(&bytes) {
        return Opening::Damaged;
    }
    let leaves = match file_schema::read_leaves(&bytes) {
        Some(leaves) => leaves,
        None => {
            let unread = Layout { columns: Vec::new(), others: 0 };
            assert(unread@ =~= unread_layout(0));
            return match columnar::read_groups(&columnar::file_schema(&unread), &bytes) {
                Ok(_) => Opening::Damaged,
                Err(e) => Opening::Unreadable(e),
            };
        },
    };
    let leading = lead(&leaves, n);
    let is_other = leading.is_none();
    let layout = match leading {
        Some(layout) => layout,
        None => Layout { columns: Vec::new(), others: leaves.len() },
    };
    assert(is_other ==> layout@ =~= unread_layout(leaves@.len()));
    let schema = columnar::file_schema(&layout);
    let groups = match columnar::read_groups(&schema, &bytes) {
        Ok(groups) => groups,
        Err(e) => return Opening::Unreadable(e),
    };
    if is_other && groups.len() > 0 {
        return Opening::Other;
    }
    match check_groups(&groups, &bytes, &layout.columns) {
        Soundness::Damaged => Opening::Damaged,
        Soundness::Unsupported => Opening::Other,
        Soundness::Whole => match columnar::open_reader(&schema, bytes) {
            Ok(reader) => Opening::Readable(reader),
            Err(e) => Opening::Unreadable(e),
        },
    }
}

/// How many rows row groups have in all.
pub open spec fn all_rows(groups: Seq<columnar::RowGroupView>) -> int
    decreases groups.len(),
{
    if groups.len() == 0 {
        0
    } else {
        groups[0].rows + all_rows(groups.drop_first())
    }
}

/// Row groups can be read, however many they are and however many rows they have, where
/// the chunks of each are whole and their rows can be counted.
pub proof fn law_whole_groups_are_read(
    groups: Seq<columnar::RowGroupView>,
    bytes: Seq<u8>,
    columns: Seq<Leaf>,
    most_rows: int,
)
    requires
        forall|i: int| 0 <= i < groups.len() ==> 0 <= (#[trigger] groups[i]).rows,
        all_rows(groups) <= most_rows,
        forall|i: int, c: int|
            0 <= i < groups.len() && 0 <= c < columns.len() ==> c < groups[i].chunks.len()
                && chunk_soundness(#[trigger] groups[i].chunks[c], bytes, columns[c])
                == Soundness::Whole,
    ensures
        groups_soundness(groups, bytes, columns, most_rows) == Soundness::Whole,
    decreases groups.len(),
{
    if groups.len() > 0 {
        let rest = groups.drop_first();
        assert forall|i: int| 0 <= i < rest.len() implies 0 <= (#[trigger] rest[i]).rows by {
            assert(rest[i] == groups[i + 1]);
        }
        assert forall|i: int, c: int|
            0 <= i < rest.len() && 0 <= c < columns.len() implies c < rest[i].chunks.len()
            && chunk_soundness(#[trigger] rest[i].chunks[c], bytes, columns[c])
            == Soundness::Whole by {
            assert(rest[i] == groups[i + 1]);
            assert(chunk_soundness(groups[i + 1].chunks[c], bytes, columns[c])
                == Soundness::Whole);
        }
        assert forall|c: int| 0 <= c < columns.len() implies c < groups[0].chunks.len()
            && chunk_soundness(#[trigger] groups[0].chunks[c], bytes, columns[c])
            == Soundness::Whole by {}
        lemma_rows_are_not_negative(rest);
        lemma_whole_chunks(groups[0].chunks, bytes, columns, 0);
        law_whole_groups_are_read(rest, bytes, columns, most_rows - groups[0].rows);
    }
}

/// Rows that are not negative are not negative in all.
proof fn lemma_rows_are_not_negative(groups: Seq<columnar::RowGroupView>)
    requires
        forall|i: int| 0 <= i < groups.len() ==> 0 <= (#[trigger] groups[i]).rows,
    ensures
        0 <= all_rows(groups),
    decreases groups.len(),
{
    if groups.len() > 0 {
        let rest = groups.drop_first();
        assert forall|i: int| 0 <= i < rest.len() implies 0 <= (#[trigger] rest[i]).rows by {
            assert(rest[i] == groups[i + 1]);
        }
        lemma_rows_are_not_negative(rest);
    }
}

/// Chunks of which each is whole are whole.
proof fn lemma_whole_chunks(chunks: Seq<Chunk>, bytes: Seq<u8>, columns: Seq<Leaf>, from: int)
    requires
        0 <= from <= columns.len(),
        forall|c: int|
            0 <= c < columns.len() ==> c < chunks.len() && chunk_soundness(
                #[trigger] chunks[c],
                bytes,
                columns[c],
            ) == Soundness::Whole,
    ensures
        chunks_soundness(chunks, bytes, columns, from) == Soundness::Whole,
    decreases columns.len() - from,
{
    if from < columns.len() {
        assert(chunk_soundness(chunks[from], bytes, columns[from]) == Soundness::Whole);
        lemma_whole_chunks(chunks, bytes, columns, from + 1);
    }
}

/// Whether pages stand one after the other from a position on, each whole; a page may
/// refer to a dictionary if one came before it, which the flags tell.
pub open spec fn are_whole_pages(
    bytes: Seq<u8>,
    start: int,
    end: int,
    leaf: Leaf,
    pages_in: Seq<(pages::Page, int, int)>,
    flags: Seq<bool>,
) -> bool {
    &&& flags.len() == pages_in.len() + 1
    &&& !flags[0]
    &&& forall|i: int|
        0 <= i < pages_in.len() ==> flags[i + 1] == (#[trigger] flags[i] || pages_in[i].0 is Dictionary)
    &&& forall|i: int|
        0 <= i < pages_in.len() ==> is_whole_page(
            bytes,
            if i == 0 {
                start
            } else {
                pages_in[i - 1].2
            },
            end,
            leaf,
            #[trigger] pages_in[i],
            flags[i],
        )
}

/// Whether a page stands at a position and is whole.
pub open spec fn is_whole_page(
    bytes: Seq<u8>,
    at: int,
    end: int,
    leaf: Leaf,
    page: (pages::Page, int, int),
    has_dictionary: bool,
) -> bool {
    &&& at < page.2
    &&& pages::page_head(bytes, at, end) == Some(page)
    &&& pages::page_soundness(bytes, page.0, page.1, page.2, leaf, has_dictionary)
        == Soundness::Whole
}

/// A chunk of pages one after the other, from its start to its end, is whole where each
/// page is, however many they are.
pub proof fn law_chunks_of_whole_pages_are_whole(
    chunk: Chunk,
    bytes: Seq<u8>,
    leaf: Leaf,
    pages_in: Seq<(pages::Page, int, int)>,
    flags: Seq<bool>,
)
    requires
        !chunk.compressed,
        0 <= chunk_start(chunk),
        0 <= chunk.size,
        chunk_start(chunk) + chunk.size <= bytes.len(),
        pages_in.len() == 0 ==> chunk.size == 0,
        pages_in.len() > 0 ==> pages_in.last().2 == chunk_start(chunk) + chunk.size,
        are_whole_pages(
            bytes,
            chunk_start(chunk),
            chunk_start(chunk) + chunk.size,
            leaf,
            pages_in,
            flags,
        ),
    ensures
        chunk_soundness(chunk, bytes, leaf) == Soundness::Whole,
{
    lemma_whole_pages(
        bytes,
        chunk_start(chunk),
        chunk_start(chunk) + chunk.size,
        leaf,
        pages_in,
        flags,
        0,
    );
}

/// Pages of which each is whole are whole, from one on.
proof fn lemma_whole_pages(
    bytes: Seq<u8>,
    start: int,
    end: int,
    leaf: Leaf,
    pages_in: Seq<(pages::Page, int, int)>,
    flags: Seq<bool>,
    from: int,
)
    requires
        0 <= from <= pages_in.len(),
        pages_in.len() == 0 ==> start == end,
        pages_in.len() > 0 ==> pages_in.last().2 == end,
        are_whole_pages(bytes, start, end, leaf, pages_in, flags),
    ensures
        pages::pages_soundness(
            bytes,
            if from == 0 {
                start
            } else {
                pages_in[from - 1].2
            },
            end,
            leaf,
            flags[from],
        ) == Soundness::Whole,
    decreases pages_in.len() - from,
{
    if from < pages_in.len() {
        lemma_whole_pages(bytes, start, end, leaf, pages_in, flags, from + 1);
        let at = if from == 0 {
            start
        } else {
            pages_in[from - 1].2
        };
        assert(is_whole_page(bytes, at, end, leaf, pages_in[from], flags[from]));
        assert(flags[from + 1] == (flags[from] || pages_in[from].0 is Dictionary));
    }
}

/// Whether the first `n` columns of a file are of kinds that tables are made of.
pub open spec fn are_known(leaves: Seq<Option<Leaf>>, n: nat) -> bool {
    n <= leaves.len() && forall|i: int| 0 <= i < n ==> #[trigger] leaves[i] is Some
}

/// What a file is whose integers end and whose columns are known: it is opened with its
/// first columns where these are of kinds that tables are made of. What is said of its row
/// groups decides whether it can be read, and then whether Parquet opens it.
pub proof fn law_files_of_known_columns(
    n: nat,
    bytes: Seq<u8>,
    leaves: Seq<Option<Leaf>>,
    layout: columnar::LayoutView,
)
    requires
        file_schema::footer_ends(bytes),
        file_schema::file_leaves(bytes) == Some(leaves),
        are_known(leaves, n),
        layout.columns.len() == n,
        layout.others == leaves.len() - n,
        forall|i: int| 0 <= i < n ==> #[trigger] leaves[i] == Some(layout.columns[i]),
    ensures
        match columnar::parquet_groups(layout, bytes) {
            None => table_file(n, bytes) == TableFile::Unreadable,
            Some(groups) => {
                let said = groups_soundness(groups, bytes, layout.columns, 0x7FFF_FFFF_FFFF_FFFF);
                &&& said == Soundness::Damaged ==> table_file(n, bytes) == TableFile::Damaged
                &&& said == Soundness::Unsupported ==> table_file(n, bytes) == TableFile::Other
                &&& said == Soundness::Whole && columnar::parquet_opens(layout, bytes)
                    ==> table_file(n, bytes) == TableFile::Readable(layout)
                &&& said == Soundness::Whole && !columnar::parquet_opens(layout, bytes)
                    ==> table_file(n, bytes) == TableFile::Unreadable
            },
        },
{
    reveal(table_file);
    let found = leading_layout(leaves, n);
    assert(found is Some);
    assert(found->0.columns =~= layout.columns);
    assert(found->0 == layout);
}

/// What a file is whose first columns are of other kinds: one of another table, unless it
/// has no row groups, when it is opened without its columns.
pub proof fn law_files_of_other_columns(n: nat, bytes: Seq<u8>, leaves: Seq<Option<Leaf>>)
    requires
        file_schema::footer_ends(bytes),
        file_schema::file_leaves(bytes) == Some(leaves),
        !are_known(leaves, n),
    ensures
        ({
            let layout = columnar::LayoutView { columns: seq![], others: leaves.len() };
            match columnar::parquet_groups(layout, bytes) {
                None => table_file(n, bytes) == TableFile::Unreadable,
                Some(groups) => {
                    &&& groups.len() > 0 ==> table_file(n, bytes) == TableFile::Other
                    &&& groups.len() == 0 && columnar::parquet_opens(layout, bytes) ==> table_file(
                        n,
                        bytes,
                    ) == TableFile::Readable(layout)
                    &&& groups.len() == 0 && !columnar::parquet_opens(layout, bytes) ==> table_file(
                        n,
                        bytes,
                    ) == TableFile::Unreadable
                },
            }
        }),
{
    reveal(table_file);
}

/// What a file is whose columns are not known: one whose integers do not end, or that has a
/// footer but no schema, does not hold together.
pub proof fn law_files_without_columns(n: nat, bytes: Seq<u8>)
    ensures
        !file_schema::footer_ends(bytes) ==> table_file(n, bytes) == TableFile::Damaged,
        file_schema::footer_ends(bytes) && file_schema::file_leaves(bytes) is None ==> ({
            let layout = columnar::LayoutView { columns: seq![], others: 0 };
            table_file(n, bytes) == (if columnar::parquet_groups(layout, bytes) is None {
                TableFile::Unreadable
            } else {
                TableFile::Damaged
            })
        }),
{
    reveal(table_file);
}

/// A chunk begins with its dictionary, or else with its first data page. One that lies
/// outside the file does not hold together, and one that is compressed is not looked into;
/// what is said of another is what is said of its pages.
pub proof fn law_chunks_by_their_place(chunk: Chunk, bytes: Seq<u8>, leaf: Leaf, start: int)
    requires
        start == (match chunk.dictionary_start {
            Some(start) => start as int,
            None => chunk.data_start as int,
        }),
    ensures
        chunk_soundness(chunk, bytes, leaf) == (if start < 0 || chunk.size < 0 || start + chunk.size
            > bytes.len() {
            Soundness::Damaged
        } else if chunk.compressed {
            Soundness::Unsupported
        } else {
            pages::pages_soundness(bytes, start, start + chunk.size, leaf, false)
        }),
{
}

/// What is said of row groups is what is said of the first that is not whole: one that has
/// a negative number of rows, or too many, or lacks a chunk for a column, does not hold
/// together, and otherwise the first chunk that is not whole decides.
pub proof fn law_the_first_group_that_is_not_whole(
    groups: Seq<columnar::RowGroupView>,
    bytes: Seq<u8>,
    columns: Seq<Leaf>,
    most_rows: int,
    g: int,
    c: int,
)
    requires
        0 <= g < groups.len(),
        forall|i: int| 0 <= i < groups.len() ==> 0 <= (#[trigger] groups[i]).rows || i >= g,
        all_rows(groups.take(g)) <= most_rows,
        forall|i: int, k: int|
            0 <= i < g && 0 <= k < columns.len() ==> k < groups[i].chunks.len() && chunk_soundness(
                #[trigger] groups[i].chunks[k],
                bytes,
                columns[k],
            ) == Soundness::Whole,
        0 <= c < columns.len(),
        forall|k: int|
            0 <= k < c ==> k < groups[g].chunks.len() && chunk_soundness(
                #[trigger] groups[g].chunks[k],
                bytes,
                columns[k],
            ) == Soundness::Whole,
    ensures
        ({
            let said = groups_soundness(groups, bytes, columns, most_rows);
            let rows = groups[g].rows;
            if rows < 0 || rows > most_rows - all_rows(groups.take(g)) || c
                >= groups[g].chunks.len() {
                said == Soundness::Damaged
            } else {
                let chunk = chunk_soundness(groups[g].chunks[c], bytes, columns[c]);
                chunk != Soundness::Whole ==> said == chunk
            }
        }),
    decreases g,
{
    if g == 0 {
        assert(groups.take(0).len() == 0);
        lemma_first_chunk(groups[0].chunks, bytes, columns, 0, c);
    } else {
        let rest = groups.drop_first();
        assert(rest[g - 1] == groups[g]);
        assert(groups.take(g).drop_first() =~= rest.take(g - 1));
        assert(groups.take(g)[0] == groups[0]);
        assert forall|i: int| 0 <= i < rest.len() implies 0 <= (#[trigger] rest[i]).rows || i >= g
            - 1 by {
            assert(rest[i] == groups[i + 1]);
        }
        assert forall|i: int, k: int| 0 <= i < g - 1 && 0 <= k < columns.len() implies k
            < rest[i].chunks.len() && chunk_soundness(#[trigger] rest[i].chunks[k], bytes, columns[k])
            == Soundness::Whole by {
            assert(rest[i] == groups[i + 1]);
            assert(chunk_soundness(groups[i + 1].chunks[k], bytes, columns[k])
                == Soundness::Whole);
        }
        assert forall|i: int| 0 <= i < rest.take(g - 1).len() implies 0 <= (#[trigger] rest.take(
            g - 1,
        )[i]).rows by {
            assert(rest.take(g - 1)[i] == groups[i + 1]);
        }
        lemma_rows_are_not_negative(rest.take(g - 1));
        assert forall|k: int| 0 <= k < columns.len() implies k < groups[0].chunks.len()
            && chunk_soundness(#[trigger] groups[0].chunks[k], bytes, columns[k])
            == Soundness::Whole by {}
        lemma_whole_chunks(groups[0].chunks, bytes, columns, 0);
        assert(0 <= groups[0].rows);
        law_the_first_group_that_is_not_whole(
            rest,
            bytes,
            columns,
            most_rows - groups[0].rows,
            g - 1,
            c,
        );
    }
}

/// What is said of chunks is what is said of the first that is not whole.
proof fn lemma_first_chunk(chunks: Seq<Chunk>, bytes: Seq<u8>, columns: Seq<Leaf>, from: int, c: int)
    requires
        0 <= from <= c < columns.len(),
        forall|k: int|
            0 <= k < c ==> k < chunks.len() && chunk_soundness(
                #[trigger] chunks[k],
                bytes,
                columns[k],
            ) == Soundness::Whole,
    ensures
        c >= chunks.len() ==> chunks_soundness(chunks, bytes, columns, from) == Soundness::Damaged,
        c < chunks.len() && chunk_soundness(chunks[c], bytes, columns[c]) != Soundness::Whole
            ==> chunks_soundness(chunks, bytes, columns, from) == chunk_soundness(
            chunks[c],
            bytes,
            columns[c],
        ),
    decreases c - from,
{
    if from < c {
        assert(chunk_soundness(chunks[from], bytes, columns[from]) == Soundness::Whole);
        lemma_first_chunk(chunks, bytes, columns, from + 1, c);
    }
}

} // verus!
