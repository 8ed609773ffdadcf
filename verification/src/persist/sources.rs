//! The registry of sources and the file that holds it.

use std::collections::BTreeMap;

use vstd::prelude::*;

use super::columnar;
use super::columnar::{Column, ColumnDef, ColumnKind};
use super::error::PersistError;
use super::registry;
use super::table_file;
use super::table_file::Opening;

verus! {

broadcast use vstd::laws_cmp::group_laws_cmp;

/// The columns of the sources registry, by their names and kinds.
pub open spec fn source_defs() -> Seq<columnar::ColumnDefView> {
    seq![
        columnar::filled("source_id"@, ColumnKind::U16),
        columnar::filled("vessel_id"@, ColumnKind::U32),
        columnar::filled("name"@, ColumnKind::Utf8),
    ]
}

/// Schema for the `sources` registry.
pub fn sources_schema() -> (res: Vec<ColumnDef>)
    ensures
        columnar::def_views(res@) == source_defs(),
{
    let mut defs: Vec<ColumnDef> = Vec::new();
    defs.push(columnar::filled_column("source_id", ColumnKind::U16));
    defs.push(columnar::filled_column("vessel_id", ColumnKind::U32));
    defs.push(columnar::filled_column("name", ColumnKind::Utf8));
    assert(columnar::def_views(defs@) =~= source_defs());
    defs
}

/// The columns that hold sources.
pub open spec fn source_columns(keys: Seq<(u16, u32)>, names: Seq<Seq<char>>) -> Seq<
    columnar::ColumnValues,
> {
    seq![
        columnar::ColumnValues::U16(keys.map_values(|key: (u16, u32)| key.0)),
        columnar::ColumnValues::U32(keys.map_values(|key: (u16, u32)| key.1)),
        columnar::ColumnValues::Utf8(names),
    ]
}

/// Whether columns begin with those that hold sources, by their kinds.
pub open spec fn are_source_columns(columns: Seq<columnar::ColumnValues>) -> bool {
    columns.len() >= 3 && columns[0] is U16 && columns[1] is U32 && columns[2] is Utf8
}

/// Sources and their vessels, paired.
pub open spec fn source_keys(source_ids: Seq<u16>, vessel_ids: Seq<u32>) -> Seq<(u16, u32)> {
    Seq::new(source_ids.len(), |i: int| (source_ids[i], vessel_ids[i]))
}

/// What the sources registry comes to from a point on: the reader has been asked
/// `k` times and is asked `asks` times more, at most. A batch that fails ends it;
/// with one that does not hold sources there is no registry.
pub open spec fn sources_from(
    layout: columnar::LayoutView,
    bytes: Seq<u8>,
    k: nat,
    asks: nat,
    sources: Map<(u16, u32), Seq<char>>,
) -> Option<Map<(u16, u32), Seq<char>>>
    decreases asks,
{
    if asks == 0 {
        Some(sources)
    } else {
        match columnar::parquet_item(layout, bytes, k) {
            columnar::ReadItem::End => Some(sources),
            columnar::ReadItem::Failed => Some(sources),
            columnar::ReadItem::Batch(columns) => if are_source_columns(columns) {
                sources_from(
                    layout,
                    bytes,
                    k + 1,
                    (asks - 1) as nat,
                    registry::entered(
                        sources,
                        source_keys(columns[0]->U16_0, columns[1]->U32_0),
                        columns[2]->Utf8_0,
                    ),
                )
            } else {
                None
            },
        }
    }
}

/// The sources registry that a file holds: an empty one if there is no file, or
/// none that can be read; `None` if it holds rows of other columns than those of
/// sources, or in a form that is not read.
pub open spec fn sources_in(file: Option<Seq<u8>>) -> Option<Map<(u16, u32), Seq<char>>> {
    match file {
        None => Some(Map::empty()),
        Some(bytes) => match table_file::table_file(source_defs().len(), bytes) {
            table_file::TableFile::Other => None,
            table_file::TableFile::Readable(layout) => sources_from(
                layout,
                bytes,
                0,
                columnar::MAX_ASKS as nat,
                Map::empty(),
            ),
            _ => Some(Map::empty()),
        },
    }
}

/// Enters names into the sources registry, each in place of the one that its
/// source had.
pub fn enter_sources(
    sources: &mut BTreeMap<(u16, u32), String>,
    source_ids: &Vec<u16>,
    vessel_ids: &Vec<u32>,
    names: &Vec<String>,
)
    requires
        source_ids@.len() == vessel_ids@.len(),
        source_ids@.len() == names@.len(),
    ensures
        registry::name_texts(final(sources)@) == registry::entered(
            registry::name_texts(old(sources)@),
            source_keys(source_ids@, vessel_ids@),
            crate::broadcast::texts(names@),
        ),
{
    let ghost keys = source_keys(source_ids@, vessel_ids@);
    let ghost texts = crate::broadcast::texts(names@);
    let ghost before = registry::name_texts(sources@);
    let mut n: usize = 0;
    while n < source_ids.len()
        invariant
            n <= source_ids@.len() == names@.len(),
            source_ids@.len() == vessel_ids@.len(),
            keys == source_keys(source_ids@, vessel_ids@),
            texts == crate::broadcast::texts(names@),
            registry::name_texts(sources@) == registry::entered(
                before,
                keys.take(n as int),
                texts.take(n as int),
            ),
        decreases source_ids@.len() - n,
    {
        let ghost current = sources@;
        sources.insert((source_ids[n], vessel_ids[n]), names[n].clone());
        proof {
            assert(keys.take(n + 1).drop_last() =~= keys.take(n as int));
            assert(texts.take(n + 1).drop_last() =~= texts.take(n as int));
            assert(registry::name_texts(sources@) =~= registry::name_texts(current).insert(
                keys[n as int],
                texts[n as int],
            ));
        }
        n += 1;
    }
    assert(keys.take(n as int) =~= keys);
    assert(texts.take(n as int) =~= texts);
}

/// Load the sources registry from the bytes of its file (an empty map if it is
/// absent); `None` if it holds rows of other columns than those of sources, or in a
/// form that is not read.
pub fn load_sources(file: Option<Vec<u8>>) -> (res: Option<BTreeMap<(u16, u32), String>>)
    ensures
        match res {
            Some(sources) => sources_in(columnar::file_bytes(file)) == Some(
                registry::name_texts(sources@),
            ),
            None => sources_in(columnar::file_bytes(file)) is None,
        },
{
    let mut sources: BTreeMap<(u16, u32), String> = BTreeMap::new();
    assert(registry::name_texts(sources@) =~= Map::empty());
    let bytes = match file {
        Some(bytes) => bytes,
        None => return Some(sources),
    };
    let ghost all = bytes@;
    let mut reader = match table_file::open_table(3, bytes) {
        Opening::Readable(reader) => reader,
        Opening::Other => return None,
        _ => return Some(sources),
    };
    let ghost layout = columnar::reader_layout(reader);
    let mut asks: u64 = columnar::MAX_ASKS;
    while asks > 0
        invariant_except_break
            columnar::gives_batches(layout, all, columnar::reader_position(reader)),
            sources_in(Some(all)) == sources_from(
                layout,
                all,
                columnar::reader_position(reader),
                asks as nat,
                registry::name_texts(sources@),
            ),
        invariant
            columnar::file_bytes(file) == Some(all),
            columnar::reader_layout(reader) == layout,
            columnar::reader_bytes(reader) == all,
            table_file::is_sound(layout, all),
        ensures
            sources_in(Some(all)) == Some(registry::name_texts(sources@)),
        decreases asks,
    {
        match columnar::next_batch(&mut reader) {
            None => break,
            Some(Err(_)) => break,
            Some(Ok(batch)) => {
                let rows = columnar::num_rows(&batch);
                let ghost columns = columnar::read_columns(batch);
                let source_ids = match columnar::u16_values(&batch, 0) {
                    Some(ids) => ids,
                    None => return None,
                };
                let vessel_ids = match columnar::u32_values(&batch, 1) {
                    Some(ids) => ids,
                    None => return None,
                };
                let names = match columnar::text_values(&batch, 2) {
                    Some(names) => names,
                    None => return None,
                };
                assert(columns[0].len() == rows && columns[1].len() == rows && columns[2].len()
                    == rows);
                enter_sources(&mut sources, &source_ids, &vessel_ids, &names);
            },
        }
        asks -= 1;
    }
    Some(sources)
}

/// The order of sources: by their numbers, then by those of their vessels.
pub open spec fn source_rank() -> spec_fn((u16, u32)) -> int {
    |key: (u16, u32)| key.0 * 0x1_0000_0000 + key.1
}

/// The sources of a registry in ascending order, with their names.
fn source_entries<'a>(sources: &'a BTreeMap<(u16, u32), String>) -> (res: (
    Vec<u16>,
    Vec<u32>,
    Vec<&'a str>,
))
    ensures
        res.0@.len() == res.1@.len(),
        registry::lists(
            registry::name_texts(sources@),
            source_keys(res.0@, res.1@),
            columnar::str_texts(res.2@),
        ),
        registry::ascends(source_keys(res.0@, res.1@), source_rank()),
{
    let mut source_ids: Vec<u16> = Vec::new();
    let mut vessel_ids: Vec<u32> = Vec::new();
    let mut names: Vec<&'a str> = Vec::new();
    let iter = sources.iter();
    let ghost entries = vstd::std_specs::iter::IteratorSpec::remaining(&iter);
    for entry in it: iter
        invariant
            it.seq() == entries,
            source_ids@.len() == it.index(),
            vessel_ids@.len() == it.index(),
            names@.len() == it.index(),
            forall|i: int|
                0 <= i < source_ids@.len() ==> #[trigger] source_ids@[i] == entries[i].0.0,
            forall|i: int|
                0 <= i < vessel_ids@.len() ==> #[trigger] vessel_ids@[i] == entries[i].0.1,
            forall|i: int| 0 <= i < names@.len() ==> (#[trigger] names@[i])@ == entries[i].1@,
    {
        source_ids.push(entry.0.0);
        vessel_ids.push(entry.0.1);
        names.push(entry.1.as_str());
    }
    proof {
        let keys = entries.map_values(|kv: (&(u16, u32), &String)| *kv.0);
        assert(source_keys(source_ids@, vessel_ids@) =~= keys);
        assert(vstd::std_specs::btree::increasing_seq(keys));
        lemma_sources_ascend(keys);
        registry::lemma_lists_entries(*sources, entries, keys, columnar::str_texts(names@));
    }
    (source_ids, vessel_ids, names)
}

/// Increasing keys are in ascending order.
proof fn lemma_sources_ascend(keys: Seq<(u16, u32)>)
    requires
        vstd::std_specs::btree::increasing_seq(keys),
    ensures
        registry::ascends(keys, source_rank()),
{
    let rank = source_rank();
    assert forall|i: int, j: int| 0 <= i < j < keys.len() implies rank(#[trigger] keys[i]) < rank(
        #[trigger] keys[j],
    ) by {
        assert(vstd::std_specs::cmp::OrdSpec::cmp_spec(&keys[i], &keys[j]) is Less);
    }
}

/// A file that gives the columns of sources back is read as these sources.
proof fn lemma_sources_read_back(
    layout: columnar::LayoutView,
    bytes: Seq<u8>,
    k: nat,
    keys: Seq<(u16, u32)>,
    names: Seq<Seq<char>>,
    asks: nat,
    sources: Map<(u16, u32), Seq<char>>,
)
    requires
        columnar::reads_back(layout, bytes, k, source_columns(keys, names)),
        keys.len() == names.len(),
        keys.len() <= asks,
    ensures
        sources_from(layout, bytes, k, asks, sources) == Some(
            registry::entered(sources, keys, names),
        ),
    decreases asks,
{
    if asks > 0 {
        let columns = source_columns(keys, names);
        match columnar::parquet_item(layout, bytes, k) {
            columnar::ReadItem::End => {},
            columnar::ReadItem::Failed => {},
            columnar::ReadItem::Batch(part) => {
                let n = columnar::row_count(part) as int;
                let source_ids = keys.map_values(|key: (u16, u32)| key.0);
                let vessel_ids = keys.map_values(|key: (u16, u32)| key.1);
                assert(source_keys(source_ids.take(n), vessel_ids.take(n)) =~= keys.take(n));
                assert(keys.skip(n).map_values(|key: (u16, u32)| key.0) =~= source_ids.skip(n));
                assert(keys.skip(n).map_values(|key: (u16, u32)| key.1) =~= vessel_ids.skip(n));
                assert(columnar::later_rows(columns, n) =~= source_columns(
                    keys.skip(n),
                    names.skip(n),
                ));
                lemma_sources_read_back(
                    layout,
                    bytes,
                    k + 1,
                    keys.skip(n),
                    names.skip(n),
                    (asks - 1) as nat,
                    registry::entered(sources, keys.take(n), names.take(n)),
                );
                registry::lemma_entered_in_parts(sources, keys, names, n);
            },
        }
    }
}

/// No two columns of the sources registry have the same name.
proof fn lemma_source_defs_are_plain()
    ensures
        columnar::plain_defs(source_defs()),
{
    reveal_strlit("source_id");
    reveal_strlit("vessel_id");
    reveal_strlit("name");
    assert("source_id"@[0] != "vessel_id"@[0]);
    assert("source_id"@.len() != "name"@.len());
    assert("vessel_id"@.len() != "name"@.len());
}

/// The file of the sources registry; `None` if the names take more bytes than a
/// column of texts can hold. Loading the file gives the registry back.
pub fn write_sources(sources: &BTreeMap<(u16, u32), String>) -> (res: Result<
    Option<Vec<u8>>,
    PersistError,
>)
    ensures
        ({
            let texts = registry::name_texts(sources@);
            let keys = registry::ordered_keys(texts, source_rank());
            let names = registry::names_of(texts, keys);
            match res {
                Ok(None) => columnar::text_size(names) > i32::MAX,
                Ok(Some(bytes)) => {
                    &&& columnar::text_size(names) <= i32::MAX
                    &&& columnar::parquet_accepts(source_defs(), source_columns(keys, names))
                    &&& sources_in(Some(bytes@)) == Some(texts)
                },
                Err(PersistError::Parquet(_)) => {
                    &&& columnar::text_size(names) <= i32::MAX
                    &&& !columnar::parquet_accepts(source_defs(), source_columns(keys, names))
                },
                Err(_) => false,
            }
        }),
{
    let (source_ids, vessel_ids, names) = source_entries(sources);
    let ghost texts = registry::name_texts(sources@);
    let ghost keys = source_keys(source_ids@, vessel_ids@);
    let ghost entry_names = columnar::str_texts(names@);
    proof {
        registry::lemma_listing_is_ordered(texts, keys, entry_names, source_rank());
        assert(source_ids.len() <= usize::MAX);
        assert(keys.map_values(|key: (u16, u32)| key.0) =~= source_ids@);
        assert(keys.map_values(|key: (u16, u32)| key.1) =~= vessel_ids@);
    }
    if !registry::fits_text_column(&names) {
        return Ok(None);
    }
    let mut columns: Vec<Column> = Vec::new();
    columns.push(columnar::u16_column(source_ids));
    columns.push(columnar::u32_column(vessel_ids));
    columns.push(columnar::text_column(names));
    assert(columnar::all_values(columns@) =~= source_columns(keys, entry_names));
    proof {
        lemma_source_defs_are_plain();
    }
    let schema = columnar::table_schema(sources_schema());
    let batch = columnar::record_batch(&schema, columns).unwrap();
    match columnar::write_batch(&batch) {
        Ok(bytes) => {
            proof {
                lemma_sources_read_back(
                    columnar::def_layout(source_defs()),
                    bytes@,
                    0,
                    keys,
                    entry_names,
                    columnar::MAX_ASKS as nat,
                    Map::empty(),
                );
                registry::law_listing_gives_the_registry(texts, keys, entry_names);
            }
            Ok(Some(bytes))
        },
        Err(e) => Err(PersistError::from(e)),
    }
}

/// The sources of a registry are listed in ascending order of their numbers and, for the
/// same number, of those of their vessels.
pub proof fn law_sources_are_listed_in_ascending_order(
    sources: Map<(u16, u32), Seq<char>>,
    keys: Seq<(u16, u32)>,
)
    requires
        forall|i: int, j: int|
            0 <= i < j < keys.len() ==> (#[trigger] keys[i]).0 < (#[trigger] keys[j]).0 || (
            keys[i].0 == keys[j].0 && keys[i].1 < keys[j].1),
        keys.to_set() == sources.dom(),
    ensures
        registry::ordered_keys(sources, source_rank()) == keys,
{
    let rank = source_rank();
    assert forall|i: int, j: int| 0 <= i < j < keys.len() implies rank(#[trigger] keys[i]) < rank(
        #[trigger] keys[j],
    ) by {
        assert(keys[i].0 < keys[j].0 || (keys[i].0 == keys[j].0 && keys[i].1 < keys[j].1));
    }
    assert(registry::ascends(keys, rank));
    let chosen = registry::ordered_keys(sources, rank);
    assert(registry::ascends(chosen, rank) && chosen.to_set() == sources.dom());
    registry::lemma_order_is_unique(chosen, keys, rank);
}

/// The file of the sources registry has a column of the sources' numbers, one of their
/// vessels' and one of names, with the name of each source at its place.
pub proof fn law_source_columns(keys: Seq<(u16, u32)>, names: Seq<Seq<char>>, i: int)
    requires
        0 <= i < keys.len(),
    ensures
        source_columns(keys, names).len() == 3,
        source_columns(keys, names)[0] matches columnar::ColumnValues::U16(ids) && ids.len()
            == keys.len() && ids[i] == keys[i].0,
        source_columns(keys, names)[1] matches columnar::ColumnValues::U32(ids) && ids.len()
            == keys.len() && ids[i] == keys[i].1,
        source_columns(keys, names)[2] == columnar::ColumnValues::Utf8(names),
        source_defs().len() == 3,
        source_defs()[0].name == "source_id"@ && source_defs()[0].kind == ColumnKind::U16,
        source_defs()[1].name == "vessel_id"@ && source_defs()[1].kind == ColumnKind::U32,
        source_defs()[2].name == "name"@ && source_defs()[2].kind == ColumnKind::Utf8,
        !source_defs()[0].nullable && !source_defs()[1].nullable && !source_defs()[2].nullable,
{
}

/// There are no sources where there is no file.
pub proof fn law_no_file_holds_no_sources()
    ensures
        sources_in(None) == Some(Map::<(u16, u32), Seq<char>>::empty()),
{
}

/// A registry file of one batch gives each of its keys the last of its names there, and
/// nothing else a name.
pub proof fn law_sources_are_loaded_from_a_batch(
    layout: columnar::LayoutView,
    bytes: Seq<u8>,
    keys: Seq<(u16, u32)>,
    names: Seq<Seq<char>>,
    i: int,
)
    requires
        table_file::table_file(3, bytes) == table_file::TableFile::Readable(layout),
        columnar::parquet_item(layout, bytes, 0) == columnar::ReadItem::Batch(seq![
            columnar::ColumnValues::U16(keys.map_values(|key: (u16, u32)| key.0)),
            columnar::ColumnValues::U32(keys.map_values(|key: (u16, u32)| key.1)),
            columnar::ColumnValues::Utf8(names),
        ]),
        !(columnar::parquet_item(layout, bytes, 1) is Batch),
        keys.len() == names.len(),
    ensures
        sources_in(Some(bytes)) is Some,
        0 <= i < keys.len() && (forall|j: int|
            i < j < keys.len() ==> #[trigger] keys[j] != keys[i]) ==> sources_in(
            Some(bytes),
        )->0.contains_key(keys[i]) && sources_in(Some(bytes))->0[keys[i]] == names[i],
        forall|key: (u16, u32)| #[trigger] sources_in(Some(bytes))->0.contains_key(key) ==> keys.contains(
            key,
        ),
{
    assert(source_keys(
        keys.map_values(|key: (u16, u32)| key.0),
        keys.map_values(|key: (u16, u32)| key.1),
    ) =~= keys);
    let none = Map::<(u16, u32), Seq<char>>::empty();
    reveal_with_fuel(sources_from, 3);
    assert(sources_in(Some(bytes)) == Some(registry::entered(none, keys, names)));
    if 0 <= i < keys.len() {
        registry::law_the_last_name_stays(none, keys, names, keys[i]);
    }
    assert forall|key: (u16, u32)| #[trigger] sources_in(Some(bytes))->0.contains_key(key) implies keys.contains(
        key,
    ) by {
        registry::law_the_last_name_stays(none, keys, names, key);
    }
}

/// A registry file that cannot be opened, or whose parts do not hold together, counts as
/// an empty one, and so does none; one of other columns is none at all.
pub proof fn law_sources_that_are_not_loaded(bytes: Seq<u8>)
    ensures
        sources_in(None) == Some(Map::<(u16, u32), Seq<char>>::empty()),
        table_file::table_file(3, bytes) is Unreadable || table_file::table_file(
            3,
            bytes,
        ) is Damaged ==> sources_in(Some(bytes)) == Some(Map::<(u16, u32), Seq<char>>::empty()),
        table_file::table_file(3, bytes) is Other ==> sources_in(Some(bytes)) is None,
{
}

} // verus!
