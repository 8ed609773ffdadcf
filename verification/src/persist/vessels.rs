//! The registry of vessels and the file that holds it.

use std::collections::BTreeMap;

use vstd::prelude::*;

use super::columnar;
use super::columnar::{Column, ColumnDef, ColumnKind};
use super::error::PersistError;
use super::registry;
use super::table_file;
use super::table_file::Opening;

verus! {

broadcast use vstd::laws_cmp::group_laws_cmp;

/// The columns of the vessels registry, by their names and kinds.
pub open spec fn vessel_defs() -> Seq<columnar::ColumnDefView> {
    seq![
        columnar::filled("vessel_id"@, ColumnKind::U32),
        columnar::filled("name"@, ColumnKind::Utf8),
    ]
}

/// Schema for the `vessels` registry.
pub fn vessels_schema() -> (res: Vec<ColumnDef>)
    ensures
        columnar::def_views(res@) == vessel_defs(),
{
    let mut defs: Vec<ColumnDef> = Vec::new();
    defs.push(columnar::filled_column("vessel_id", ColumnKind::U32));
    defs.push(columnar::filled_column("name", ColumnKind::Utf8));
    assert(columnar::def_views(defs@) =~= vessel_defs());
    defs
}

/// The columns that hold vessels.
pub open spec fn vessel_columns(ids: Seq<u32>, names: Seq<Seq<char>>) -> Seq<
    columnar::ColumnValues,
> {
    seq![columnar::ColumnValues::U32(ids), columnar::ColumnValues::Utf8(names)]
}

/// Whether columns begin with those that hold vessels, by their kinds.
pub open spec fn are_vessel_columns(columns: Seq<columnar::ColumnValues>) -> bool {
    columns.len() >= 2 && columns[0] is U32 && columns[1] is Utf8
}

/// What the vessels registry comes to from a point on: the reader has been asked
/// `k` times and is asked `asks` times more, at most. A batch that fails ends it;
/// with one that does not hold vessels there is no registry.
pub open spec fn vessels_from(
    layout: columnar::LayoutView,
    bytes: Seq<u8>,
    k: nat,
    asks: nat,
    vessels: Map<u32, Seq<char>>,
) -> Option<Map<u32, Seq<char>>>
    decreases asks,
{
    if asks == 0 {
        Some(vessels)
    } else {
        match columnar::parquet_item(layout, bytes, k) {
            columnar::ReadItem::End => Some(vessels),
            columnar::ReadItem::Failed => Some(vessels),
            columnar::ReadItem::Batch(columns) => if are_vessel_columns(columns) {
                vessels_from(
                    layout,
                    bytes,
                    k + 1,
                    (asks - 1) as nat,
                    registry::entered(vessels, columns[0]->U32_0, columns[1]->Utf8_0),
                )
            } else {
                None
            },
        }
    }
}

/// The vessels registry that a file holds: an empty one if there is no file, or
/// none that can be read; `None` if it holds rows of other columns than those of
/// vessels, or in a form that is not read.
pub open spec fn vessels_in(file: Option<Seq<u8>>) -> Option<Map<u32, Seq<char>>> {
    match file {
        None => Some(Map::empty()),
        Some(bytes) => match table_file::table_file(vessel_defs().len(), bytes) {
            table_file::TableFile::Other => None,
            table_file::TableFile::Readable(layout) => vessels_from(
                layout,
                bytes,
                0,
                columnar::MAX_ASKS as nat,
                Map::empty(),
            ),
            _ => Some(Map::empty()),
        },
    }
}

/// Enters names into the vessels registry, each in place of the one that its
/// vessel had.
pub fn enter_vessels(vessels: &mut BTreeMap<u32, String>, ids: &Vec<u32>, names: &Vec<String>)
    requires
        ids@.len() == names@.len(),
    ensures
        registry::name_texts(final(vessels)@) == registry::entered(
            registry::name_texts(old(vessels)@),
            ids@,
            crate::broadcast::texts(names@),
        ),
{
    let ghost texts = crate::broadcast::texts(names@);
    let ghost before = registry::name_texts(vessels@);
    let mut n: usize = 0;
    while n < ids.len()
        invariant
            n <= ids@.len() == names@.len(),
            texts == crate::broadcast::texts(names@),
            registry::name_texts(vessels@) == registry::entered(
                before,
                ids@.take(n as int),
                texts.take(n as int),
            ),
        decreases ids@.len() - n,
    {
        let ghost current = vessels@;
        vessels.insert(ids[n], names[n].clone());
        proof {
            assert(ids@.take(n + 1).drop_last() =~= ids@.take(n as int));
            assert(texts.take(n + 1).drop_last() =~= texts.take(n as int));
            assert(registry::name_texts(vessels@) =~= registry::name_texts(current).insert(
                ids@[n as int],
                texts[n as int],
            ));
        }
        n += 1;
    }
    assert(ids@.take(n as int) =~= ids@);
    assert(texts.take(n as int) =~= texts);
}

/// Load the vessels registry from the bytes of its file (an empty map if it is
/// absent); `None` if it holds rows of other columns than those of vessels, or in a
/// form that is not read.
pub fn load_vessels(file: Option<Vec<u8>>) -> (res: Option<BTreeMap<u32, String>>)
    ensures
        match res {
            Some(vessels) => vessels_in(columnar::file_bytes(file)) == Some(
                registry::name_texts(vessels@),
            ),
            None => vessels_in(columnar::file_bytes(file)) is None,
        },
{
    let mut vessels: BTreeMap<u32, String> = BTreeMap::new();
    assert(registry::name_texts(vessels@) =~= Map::empty());
    let bytes = match file {
        Some(bytes) => bytes,
        None => return Some(vessels),
    };
    let ghost all = bytes@;
    let mut reader = match table_file::open_table(2, bytes) {
        Opening::Readable(reader) => reader,
        Opening::Other => return None,
        _ => return Some(vessels),
    };
    let ghost layout = columnar::reader_layout(reader);
    let mut asks: u64 = columnar::MAX_ASKS;
    while asks > 0
        invariant_except_break
            columnar::gives_batches(layout, all, columnar::reader_position(reader)),
            vessels_in(Some(all)) == vessels_from(
                layout,
                all,
                columnar::reader_position(reader),
                asks as nat,
                registry::name_texts(vessels@),
            ),
        invariant
            columnar::file_bytes(file) == Some(all),
            columnar::reader_layout(reader) == layout,
            columnar::reader_bytes(reader) == all,
            table_file::is_sound(layout, all),
        ensures
            vessels_in(Some(all)) == Some(registry::name_texts(vessels@)),
        decreases asks,
    {
        match columnar::next_batch(&mut reader) {
            None => break,
            Some(Err(_)) => break,
            Some(Ok(batch)) => {
                let rows = columnar::num_rows(&batch);
                let ghost columns = columnar::read_columns(batch);
                let ids = match columnar::u32_values(&batch, 0) {
                    Some(ids) => ids,
                    None => return None,
                };
                let names = match columnar::text_values(&batch, 1) {
                    Some(names) => names,
                    None => return None,
                };
                assert(columns[0].len() == rows && columns[1].len() == rows);
                enter_vessels(&mut vessels, &ids, &names);
            },
        }
        asks -= 1;
    }
    Some(vessels)
}

/// The order of vessels: by their numbers.
pub open spec fn vessel_rank() -> spec_fn(u32) -> int {
    |vessel_id: u32| vessel_id as int
}

/// The vessels of a registry in ascending order, with their names.
fn vessel_entries<'a>(vessels: &'a BTreeMap<u32, String>) -> (res: (Vec<u32>, Vec<&'a str>))
    ensures
        registry::lists(registry::name_texts(vessels@), res.0@, columnar::str_texts(res.1@)),
        registry::ascends(res.0@, vessel_rank()),
{
    let mut ids: Vec<u32> = Vec::new();
    let mut names: Vec<&'a str> = Vec::new();
    let iter = vessels.iter();
    let ghost entries = vstd::std_specs::iter::IteratorSpec::remaining(&iter);
    for entry in it: iter
        invariant
            it.seq() == entries,
            ids@.len() == it.index(),
            names@.len() == it.index(),
            forall|i: int| 0 <= i < ids@.len() ==> #[trigger] ids@[i] == *entries[i].0,
            forall|i: int| 0 <= i < names@.len() ==> (#[trigger] names@[i])@ == entries[i].1@,
    {
        ids.push(*entry.0);
        names.push(entry.1.as_str());
    }
    proof {
        let keys = entries.map_values(|kv: (&u32, &String)| *kv.0);
        assert(ids@ =~= keys);
        assert(vstd::std_specs::btree::increasing_seq(keys));
        lemma_vessels_ascend(keys);
        registry::lemma_lists_entries(*vessels, entries, ids@, columnar::str_texts(names@));
    }
    (ids, names)
}

/// Increasing keys are in ascending order.
proof fn lemma_vessels_ascend(ids: Seq<u32>)
    requires
        vstd::std_specs::btree::increasing_seq(ids),
    ensures
        registry::ascends(ids, vessel_rank()),
{
    let rank = vessel_rank();
    assert forall|i: int, j: int| 0 <= i < j < ids.len() implies rank(#[trigger] ids[i]) < rank(
        #[trigger] ids[j],
    ) by {
        assert(vstd::std_specs::cmp::OrdSpec::cmp_spec(&ids[i], &ids[j]) is Less);
    }
}

/// A file that gives the columns of vessels back is read as these vessels.
proof fn lemma_vessels_read_back(
    layout: columnar::LayoutView,
    bytes: Seq<u8>,
    k: nat,
    ids: Seq<u32>,
    names: Seq<Seq<char>>,
    asks: nat,
    vessels: Map<u32, Seq<char>>,
)
    requires
        columnar::reads_back(layout, bytes, k, vessel_columns(ids, names)),
        ids.len() == names.len(),
        ids.len() <= asks,
    ensures
        vessels_from(layout, bytes, k, asks, vessels) == Some(
            registry::entered(vessels, ids, names),
        ),
    decreases asks,
{
    if asks > 0 {
        let columns = vessel_columns(ids, names);
        match columnar::parquet_item(layout, bytes, k) {
            columnar::ReadItem::End => {},
            columnar::ReadItem::Failed => {},
            columnar::ReadItem::Batch(part) => {
                let n = columnar::row_count(part) as int;
                assert(part =~= vessel_columns(ids.take(n), names.take(n)));
                assert(columnar::later_rows(columns, n) =~= vessel_columns(
                    ids.skip(n),
                    names.skip(n),
                ));
                lemma_vessels_read_back(
                    layout,
                    bytes,
                    k + 1,
                    ids.skip(n),
                    names.skip(n),
                    (asks - 1) as nat,
                    registry::entered(vessels, ids.take(n), names.take(n)),
                );
                registry::lemma_entered_in_parts(vessels, ids, names, n);
            },
        }
    }
}

/// No two columns of the vessels registry have the same name.
proof fn lemma_vessel_defs_are_plain()
    ensures
        columnar::plain_defs(vessel_defs()),
{
    reveal_strlit("vessel_id");
    reveal_strlit("name");
    assert("vessel_id"@.len() != "name"@.len());
}

/// The file of the vessels registry; `None` if the names take more bytes than a
/// column of texts can hold. Loading the file gives the registry back.
pub fn write_vessels(vessels: &BTreeMap<u32, String>) -> (res: Result<
    Option<Vec<u8>>,
    PersistError,
>)
    ensures
        ({
            let texts = registry::name_texts(vessels@);
            let ids = registry::ordered_keys(texts, vessel_rank());
            let names = registry::names_of(texts, ids);
            match res {
                Ok(None) => columnar::text_size(names) > i32::MAX,
                Ok(Some(bytes)) => {
                    &&& columnar::text_size(names) <= i32::MAX
                    &&& columnar::parquet_accepts(vessel_defs(), vessel_columns(ids, names))
                    &&& vessels_in(Some(bytes@)) == Some(texts)
                },
                Err(PersistError::Parquet(_)) => {
                    &&& columnar::text_size(names) <= i32::MAX
                    &&& !columnar::parquet_accepts(vessel_defs(), vessel_columns(ids, names))
                },
                Err(_) => false,
            }
        }),
{
    let (ids, names) = vessel_entries(vessels);
    let ghost texts = registry::name_texts(vessels@);
    let ghost entry_ids = ids@;
    let ghost entry_names = columnar::str_texts(names@);
    proof {
        registry::lemma_listing_is_ordered(texts, entry_ids, entry_names, vessel_rank());
        assert(ids.len() <= usize::MAX);
    }
    if !registry::fits_text_column(&names) {
        return Ok(None);
    }
    let mut columns: Vec<Column> = Vec::new();
    columns.push(columnar::u32_column(ids));
    columns.push(columnar::text_column(names));
    assert(columnar::all_values(columns@) =~= vessel_columns(entry_ids, entry_names));
    proof {
        lemma_vessel_defs_are_plain();
    }
    let schema = columnar::table_schema(vessels_schema());
    let batch = columnar::record_batch(&schema, columns).unwrap();
    match columnar::write_batch(&batch) {
        Ok(bytes) => {
            proof {
                lemma_vessels_read_back(
                    columnar::def_layout(vessel_defs()),
                    bytes@,
                    0,
                    entry_ids,
                    entry_names,
                    columnar::MAX_ASKS as nat,
                    Map::empty(),
                );
                registry::law_listing_gives_the_registry(texts, entry_ids, entry_names);
            }
            Ok(Some(bytes))
        },
        Err(e) => Err(PersistError::from(e)),
    }
}

/// The vessels of a registry are listed in ascending order of their numbers.
pub proof fn law_vessels_are_listed_in_ascending_order(
    vessels: Map<u32, Seq<char>>,
    ids: Seq<u32>,
)
    requires
        forall|i: int, j: int| 0 <= i < j < ids.len() ==> #[trigger] ids[i] < #[trigger] ids[j],
        ids.to_set() == vessels.dom(),
    ensures
        registry::ordered_keys(vessels, vessel_rank()) == ids,
{
    let rank = vessel_rank();
    assert forall|i: int, j: int| 0 <= i < j < ids.len() implies rank(#[trigger] ids[i]) < rank(
        #[trigger] ids[j],
    ) by {
        assert(ids[i] < ids[j]);
    }
    assert(registry::ascends(ids, rank));
    let chosen = registry::ordered_keys(vessels, rank);
    assert(registry::ascends(chosen, rank) && chosen.to_set() == vessels.dom());
    registry::lemma_order_is_unique(chosen, ids, rank);
}

/// The file of the vessels registry has a column of numbers and a column of names, with
/// the name of each vessel at its place.
pub proof fn law_vessel_columns(ids: Seq<u32>, names: Seq<Seq<char>>)
    ensures
        vessel_columns(ids, names).len() == 2,
        vessel_columns(ids, names)[0] == columnar::ColumnValues::U32(ids),
        vessel_columns(ids, names)[1] == columnar::ColumnValues::Utf8(names),
        vessel_defs().len() == 2,
        vessel_defs()[0].name == "vessel_id"@ && vessel_defs()[0].kind == ColumnKind::U32,
        vessel_defs()[1].name == "name"@ && vessel_defs()[1].kind == ColumnKind::Utf8,
        !vessel_defs()[0].nullable && !vessel_defs()[1].nullable,
{
}

/// There are no vessels where there is no file.
pub proof fn law_no_file_holds_no_vessels()
    ensures
        vessels_in(None) == Some(Map::<u32, Seq<char>>::empty()),
{
}

/// A registry file of one batch gives each of its keys the last of its names there, and
/// nothing else a name.
pub proof fn law_vessels_are_loaded_from_a_batch(
    layout: columnar::LayoutView,
    bytes: Seq<u8>,
    ids: Seq<u32>,
    names: Seq<Seq<char>>,
    i: int,
)
    requires
        table_file::table_file(2, bytes) == table_file::TableFile::Readable(layout),
        columnar::parquet_item(layout, bytes, 0) == columnar::ReadItem::Batch(seq![columnar::ColumnValues::U32(ids), columnar::ColumnValues::Utf8(names)]),
        !(columnar::parquet_item(layout, bytes, 1) is Batch),
        ids.len() == names.len(),
    ensures
        vessels_in(Some(bytes)) is Some,
        0 <= i < ids.len() && (forall|j: int|
            i < j < ids.len() ==> #[trigger] ids[j] != ids[i]) ==> vessels_in(
            Some(bytes),
        )->0.contains_key(ids[i]) && vessels_in(Some(bytes))->0[ids[i]] == names[i],
        forall|key: u32| #[trigger] vessels_in(Some(bytes))->0.contains_key(key) ==> ids.contains(
            key,
        ),
{
    let none = Map::<u32, Seq<char>>::empty();
    reveal_with_fuel(vessels_from, 3);
    assert(vessels_in(Some(bytes)) == Some(registry::entered(none, ids, names)));
    if 0 <= i < ids.len() {
        registry::law_the_last_name_stays(none, ids, names, ids[i]);
    }
    assert forall|key: u32| #[trigger] vessels_in(Some(bytes))->0.contains_key(key) implies ids.contains(
        key,
    ) by {
        registry::law_the_last_name_stays(none, ids, names, key);
    }
}

/// A registry file that cannot be opened, or whose parts do not hold together, counts as
/// an empty one, and so does none; one of other columns is none at all.
pub proof fn law_vessels_that_are_not_loaded(bytes: Seq<u8>)
    ensures
        vessels_in(None) == Some(Map::<u32, Seq<char>>::empty()),
        table_file::table_file(2, bytes) is Unreadable || table_file::table_file(
            2,
            bytes,
        ) is Damaged ==> vessels_in(Some(bytes)) == Some(Map::<u32, Seq<char>>::empty()),
        table_file::table_file(2, bytes) is Other ==> vessels_in(Some(bytes)) is None,
{
}

} // verus!
