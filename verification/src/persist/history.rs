//! What becomes of rows over the life of a store: while events are persisted,
//! buffers flushed and stores opened again.

use vstd::prelude::*;

use super::event_table;
use super::flush;
use super::merge;
use super::partition;
use super::row::PersistedEvent;
use super::store;

verus! {

/// A store and the files under its base directory, by the names on their paths.
pub struct Moment {
    pub store: store::StoreView,
    pub disk: Map<Seq<Seq<char>>, Seq<u8>>,
}

/// What can be done with a store.
pub enum Call {
    /// A row is persisted.
    Persist(PersistedEvent),
    /// A vessel is named.
    RegisterVessel(u32, Seq<char>),
    /// A source is named.
    RegisterSource(u16, u32, Seq<char>),
    /// The buffer is flushed, and the files are written.
    Flush,
    /// The store is left, with nothing pending, and another one is opened.
    Reopen,
}

/// The file at a path, if there is one.
pub open spec fn file_at(disk: Map<Seq<Seq<char>>, Seq<u8>>, path: Seq<Seq<char>>) -> Option<
    Seq<u8>,
> {
    if disk.contains_key(path) {
        Some(disk[path])
    } else {
        None
    }
}

/// The files after some more are written, one after the other.
pub open spec fn written(
    disk: Map<Seq<Seq<char>>, Seq<u8>>,
    files: Seq<flush::StoredFile>,
) -> Map<Seq<Seq<char>>, Seq<u8>>
    decreases files.len(),
{
    if files.len() == 0 {
        disk
    } else {
        written(disk, files.drop_last()).insert(
            crate::broadcast::texts(files.last().path@),
            files.last().bytes@,
        )
    }
}

/// The path of a partition.
pub open spec fn key_path(key: (u32, i64)) -> Seq<Seq<char>> {
    partition::partition_path_names(key.0, key.1)
}

/// Whether a flush is handed the files that are there.
pub open spec fn hands_files(
    disk: Map<Seq<Seq<char>>, Seq<u8>>,
    partitions: Seq<store::Partition>,
    existing: Seq<Option<Vec<u8>>>,
) -> bool {
    forall|i: int|
        0 <= i < partitions.len() ==> flush::existing_at(existing, i) == file_at(
            disk,
            key_path((#[trigger] partitions[i]).key()),
        )
}

/// Whether one moment follows another by a flush that ended well and whose files
/// were written.
pub open spec fn is_flushed(
    before: Moment,
    after: Moment,
    res: flush::Flushed,
    partitions: Seq<store::Partition>,
    existing: Seq<Option<Vec<u8>>>,
) -> bool {
    &&& store::drains(before.store.buffer, partitions)
    &&& hands_files(before.disk, partitions, existing)
    &&& flush::is_flush(res, before.store, partitions, existing)
    &&& res.end is Done
    &&& after.store == (store::StoreView { buffer: Map::empty(), ..before.store })
    &&& after.disk == written(before.disk, res.files@)
}

/// Whether one moment follows another by a call.
pub open spec fn follows(before: Moment, after: Moment, call: Call) -> bool {
    match call {
        Call::Persist(row) => after.store == before.store.with_row(row) && after.disk
            == before.disk,
        Call::RegisterVessel(vessel_id, name) => after.store == (store::StoreView {
            vessels: before.store.vessels.insert(vessel_id, name),
            ..before.store
        }) && after.disk == before.disk,
        Call::RegisterSource(source_id, vessel_id, name) => after.store == (store::StoreView {
            sources: before.store.sources.insert((source_id, vessel_id), name),
            ..before.store
        }) && after.disk == before.disk,
        Call::Flush => exists|
            res: flush::Flushed,
            partitions: Seq<store::Partition>,
            existing: Seq<Option<Vec<u8>>>,
        | #[trigger]
            is_flushed(before, after, res, partitions, existing),
        Call::Reopen => before.store.buffer == Map::<(u32, i64), Seq<PersistedEvent>>::empty()
            && after.store.buffer == before.store.buffer && after.disk == before.disk,
    }
}

/// Whether moments are those of the life of a store that was opened on an empty
/// directory, from one call to the next.
pub open spec fn is_history(moments: Seq<Moment>, calls: Seq<Call>) -> bool {
    &&& moments.len() == calls.len() + 1
    &&& moments[0].store.buffer == Map::<(u32, i64), Seq<PersistedEvent>>::empty()
    &&& moments[0].disk == Map::<Seq<Seq<char>>, Seq<u8>>::empty()
    &&& forall|i: int|
        0 <= i < calls.len() ==> follows(moments[i], moments[i + 1], #[trigger] calls[i])
}

/// The rows that calls persist, in their order.
pub open spec fn handed_in(calls: Seq<Call>) -> Seq<PersistedEvent>
    decreases calls.len(),
{
    if calls.len() == 0 {
        seq![]
    } else {
        match calls.last() {
            Call::Persist(row) => handed_in(calls.drop_last()).push(row),
            _ => handed_in(calls.drop_last()),
        }
    }
}

/// Whether no two rows agree in vessel, source, number and type.
pub open spec fn are_distinct(rows: Seq<PersistedEvent>) -> bool {
    forall|i: int, j: int|
        0 <= i < j < rows.len() ==> (#[trigger] rows[i]).vessel_id != (#[trigger] rows[j]).vessel_id
            || rows[i].source_id != rows[j].source_id || rows[i].seq != rows[j].seq
            || rows[i].event_type != rows[j].event_type
}

/// Whether a path is that of a Parquet file under the data directory, as a full
/// scan looks for them.
pub open spec fn is_scanned(path: Seq<Seq<char>>) -> bool {
    path.len() >= 2 && path[0] == "data"@ && partition::is_parquet_name(path.last())
}

/// Whether paths are those of all files that a full scan looks for, each once.
pub open spec fn are_scanned_paths(
    disk: Map<Seq<Seq<char>>, Seq<u8>>,
    paths: Seq<Seq<Seq<char>>>,
) -> bool {
    &&& paths.no_duplicates()
    &&& forall|path: Seq<Seq<char>>| #[trigger]
        paths.contains(path) <==> disk.contains_key(path) && is_scanned(path)
}

/// The files at paths.
pub open spec fn files_at(
    disk: Map<Seq<Seq<char>>, Seq<u8>>,
    paths: Seq<Seq<Seq<char>>>,
) -> Seq<Seq<u8>> {
    paths.map_values(|path: Seq<Seq<char>>| disk[path])
}

/// The rows that the file of a partition holds.
spec fn stored(disk: Map<Seq<Seq<char>>, Seq<u8>>, key: (u32, i64)) -> Seq<PersistedEvent> {
    if disk.contains_key(key_path(key)) {
        event_table::partition_read(disk[key_path(key)])->Events_0
    } else {
        seq![]
    }
}

/// Whether a file holds rows of a partition.
spec fn is_partition(bytes: Seq<u8>, key: (u32, i64)) -> bool {
    event_table::partition_read(bytes) matches event_table::PartitionRead::Events(rows)
        && store::belong_to(rows, key)
}

/// Whether a path is that of a registry file.
spec fn is_registry(path: Seq<Seq<char>>) -> bool {
    path == seq!["registry"@, "vessels.parquet"@] || path == seq!["registry"@, "sources.parquet"@]
}

/// Whether a path is that of a partition.
spec fn is_key_path(path: Seq<Seq<char>>) -> bool {
    exists|key: (u32, i64)| path == #[trigger] key_path(key)
}

/// Whether rows are just those that are buffered or stored, each in its own
/// partition and once.
spec fn accounts_for(moment: Moment, rows: Seq<PersistedEvent>) -> bool {
    &&& forall|key: (u32, i64)| #[trigger]
        are_distinct(stored(moment.disk, key) + moment.store.buffered(key))
    &&& forall|key: (u32, i64)| #[trigger]
        store::belong_to(moment.store.buffered(key), key)
    &&& forall|key: (u32, i64)| #[trigger]
        moment.disk.contains_key(key_path(key)) ==> is_partition(moment.disk[key_path(key)], key)
    &&& forall|path: Seq<Seq<char>>| #[trigger]
        moment.disk.contains_key(path) ==> is_registry(path) || is_key_path(path)
    &&& forall|row: PersistedEvent| #[trigger]
        rows.contains(row) <==> (stored(moment.disk, store::partition_key(row))
            + moment.store.buffered(store::partition_key(row))).contains(row)
}

/// What two sequences hold, one after the other.
proof fn lemma_contains_either(
    a: Seq<PersistedEvent>,
    b: Seq<PersistedEvent>,
    row: PersistedEvent,
)
    ensures
        (a + b).contains(row) <==> a.contains(row) || b.contains(row),
{
    if a.contains(row) {
        let i = choose|i: int| 0 <= i < a.len() && a[i] == row;
        assert((a + b)[i] == row);
    }
    if b.contains(row) {
        let i = choose|i: int| 0 <= i < b.len() && b[i] == row;
        assert((a + b)[a.len() + i] == row);
    }
    if (a + b).contains(row) {
        let i = choose|i: int| 0 <= i < (a + b).len() && (a + b)[i] == row;
        if i >= a.len() {
            assert(b[i - a.len()] == row);
        } else {
            assert(a[i] == row);
        }
    }
}

/// Persisting a row of a reading that was not handed in before accounts for it.
proof fn lemma_persist_accounts(
    before: Moment,
    after: Moment,
    rows: Seq<PersistedEvent>,
    row: PersistedEvent,
)
    requires
        accounts_for(before, rows),
        follows(before, after, Call::Persist(row)),
        are_distinct(rows.push(row)),
    ensures
        accounts_for(after, rows.push(row)),
{
    let own = store::partition_key(row);
    let all = rows.push(row);
    assert forall|key: (u32, i64)| #[trigger]
        are_distinct(stored(after.disk, key) + after.store.buffered(key)) by {
        let held = stored(before.disk, key) + before.store.buffered(key);
        assert(are_distinct(held));
        if key == own {
            assert(stored(after.disk, key) + after.store.buffered(key) =~= held.push(row));
            assert forall|i: int| 0 <= i < held.len() implies !merge::same_reading(
                #[trigger] held[i],
                row,
            ) by {
                lemma_held_rows_belong(before, rows, key, i);
                assert(rows.contains(held[i]));
                let k = choose|k: int| 0 <= k < rows.len() && rows[k] == held[i];
                assert(all[k] == held[i] && all[rows.len() as int] == row);
            }
        } else {
            assert(after.store.buffered(key) == before.store.buffered(key));
        }
    }
    assert forall|key: (u32, i64)| #[trigger]
        store::belong_to(after.store.buffered(key), key) by {
        assert(store::belong_to(before.store.buffered(key), key));
    }
    assert forall|other: PersistedEvent| #[trigger]
        all.contains(other) <==> (stored(after.disk, store::partition_key(other))
            + after.store.buffered(store::partition_key(other))).contains(other) by {
        let key = store::partition_key(other);
        let held = stored(before.disk, key) + before.store.buffered(key);
        lemma_contains_either(rows, seq![row], other);
        assert(rows + seq![row] =~= all);
        assert(seq![row].contains(other) <==> other == row) by {
            assert(seq![row][0] == row);
        }
        assert(rows.contains(other) <==> held.contains(other));
        if key == own {
            lemma_contains_either(held, seq![row], other);
            assert(held + seq![row] =~= stored(after.disk, key) + after.store.buffered(key));
        }
    }
}

/// What a partition holds, in its file or in the buffer, belongs to it and was
/// handed in.
proof fn lemma_held_rows_belong(
    moment: Moment,
    rows: Seq<PersistedEvent>,
    key: (u32, i64),
    i: int,
)
    requires
        accounts_for(moment, rows),
        0 <= i < (stored(moment.disk, key) + moment.store.buffered(key)).len(),
    ensures
        store::partition_key((stored(moment.disk, key) + moment.store.buffered(key))[i]) == key,
        rows.contains((stored(moment.disk, key) + moment.store.buffered(key))[i]),
{
    let first = stored(moment.disk, key);
    let second = moment.store.buffered(key);
    let row = (first + second)[i];
    assert(store::belong_to(second, key));
    if i < first.len() {
        assert(moment.disk.contains_key(key_path(key)));
        assert(store::partition_key(first[i]) == key);
    } else {
        assert(store::partition_key(second[i - first.len()]) == key);
    }
    assert((first + second).contains(row));
    assert(rows.contains(row));
}

/// Where files of different paths are written, each is there afterwards, and the
/// others are as they were.
proof fn lemma_written(disk: Map<Seq<Seq<char>>, Seq<u8>>, files: Seq<flush::StoredFile>)
    requires
        forall|i: int, j: int|
            0 <= i < j < files.len() ==> crate::broadcast::texts((#[trigger] files[i]).path@)
                != crate::broadcast::texts((#[trigger] files[j]).path@),
    ensures
        forall|i: int|
            0 <= i < files.len() ==> file_at(
                written(disk, files),
                crate::broadcast::texts((#[trigger] files[i]).path@),
            ) == Some(files[i].bytes@),
        forall|path: Seq<Seq<char>>|
            (forall|i: int|
                0 <= i < files.len() ==> crate::broadcast::texts((#[trigger] files[i]).path@)
                    != path) ==> #[trigger] file_at(written(disk, files), path) == file_at(
                disk,
                path,
            ),
    decreases files.len(),
{
    if files.len() > 0 {
        let rest = files.drop_last();
        let last = files.len() - 1;
        assert forall|i: int, j: int|
            0 <= i < j < rest.len() implies crate::broadcast::texts((#[trigger] rest[i]).path@)
            != crate::broadcast::texts((#[trigger] rest[j]).path@) by {
            assert(rest[i] == files[i] && rest[j] == files[j]);
        }
        lemma_written(disk, rest);
        assert forall|i: int| 0 <= i < files.len() implies file_at(
            written(disk, files),
            crate::broadcast::texts((#[trigger] files[i]).path@),
        ) == Some(files[i].bytes@) by {
            if i < last {
                assert(rest[i] == files[i]);
                assert(crate::broadcast::texts(files[i].path@) != crate::broadcast::texts(
                    files[last].path@,
                ));
            }
        }
        assert forall|path: Seq<Seq<char>>|
            (forall|i: int|
                0 <= i < files.len() ==> crate::broadcast::texts((#[trigger] files[i]).path@)
                    != path) implies #[trigger] file_at(written(disk, files), path) == file_at(
            disk,
            path,
        ) by {
            assert(crate::broadcast::texts(files[last].path@) != path);
            assert forall|i: int| 0 <= i < rest.len() implies crate::broadcast::texts(
                (#[trigger] rest[i]).path@,
            ) != path by {
                assert(rest[i] == files[i]);
            }
            assert(file_at(written(disk, rest), path) == file_at(disk, path));
        }
    }
}

/// The paths of partitions are no paths of registry files, and different for
/// different partitions.
proof fn lemma_key_paths(a: (u32, i64), b: (u32, i64))
    ensures
        key_path(a).len() == 4,
        !is_registry(key_path(a)),
        key_path(a) == key_path(b) ==> a == b,
{
    if key_path(a) == key_path(b) {
        partition::law_partition_paths_are_distinct(a.0, a.1, b.0, b.1);
    }
    assert(seq!["registry"@, "vessels.parquet"@].len() == 2);
    assert(seq!["registry"@, "sources.parquet"@].len() == 2);
}

/// The files of a flush that ended well have different paths.
proof fn lemma_flush_paths(
    before: Moment,
    after: Moment,
    res: flush::Flushed,
    partitions: Seq<store::Partition>,
    existing: Seq<Option<Vec<u8>>>,
)
    requires
        is_flushed(before, after, res, partitions, existing),
    ensures
        forall|i: int|
            0 <= i < partitions.len() ==> crate::broadcast::texts((#[trigger] res.files@[i]).path@)
                == key_path(partitions[i].key()),
        forall|i: int|
            partitions.len() <= i < res.files@.len() ==> is_registry(
                crate::broadcast::texts((#[trigger] res.files@[i]).path@),
            ),
        forall|i: int, j: int|
            0 <= i < j < res.files@.len() ==> crate::broadcast::texts(
                (#[trigger] res.files@[i]).path@,
            ) != crate::broadcast::texts((#[trigger] res.files@[j]).path@),
{
    let n = partitions.len() as int;
    let files = res.files@;
    assert forall|i: int| 0 <= i < n implies crate::broadcast::texts((#[trigger] files[i]).path@)
        == key_path(partitions[i].key()) by {
        assert(flush::is_partition_file(
            files[i],
            partitions[i],
            flush::existing_at(existing, i),
        ));
    }
    assert(flush::is_vessels_file(files[n], before.store));
    assert(flush::is_sources_file(files[n + 1], before.store));
    assert("vessels.parquet"@ != "sources.parquet"@) by {
        reveal_strlit("vessels.parquet");
        reveal_strlit("sources.parquet");
        assert("vessels.parquet"@[0] != "sources.parquet"@[0]);
    }
    assert(seq!["registry"@, "vessels.parquet"@][1] != seq!["registry"@, "sources.parquet"@][1]);
    assert forall|i: int, j: int| 0 <= i < j < files.len() implies crate::broadcast::texts(
        (#[trigger] files[i]).path@,
    ) != crate::broadcast::texts((#[trigger] files[j]).path@) by {
        if i < n {
            lemma_key_paths(partitions[i].key(), partitions[i].key());
            if j < n {
                assert(store::key_before(partitions[i].key(), partitions[j].key()));
                lemma_key_paths(partitions[i].key(), partitions[j].key());
            }
        }
    }
}

/// The file of a partition after a flush that ended well holds its rows, those
/// that were stored and those that were buffered, each once.
proof fn lemma_flushed_partition(
    before: Moment,
    after: Moment,
    rows: Seq<PersistedEvent>,
    res: flush::Flushed,
    partitions: Seq<store::Partition>,
    existing: Seq<Option<Vec<u8>>>,
    key: (u32, i64),
)
    requires
        accounts_for(before, rows),
        is_flushed(before, after, res, partitions, existing),
    ensures
        are_distinct(stored(after.disk, key)),
        after.disk.contains_key(key_path(key)) ==> is_partition(after.disk[key_path(key)], key),
        forall|row: PersistedEvent| #[trigger]
            stored(after.disk, key).contains(row) <==> (stored(before.disk, key)
                + before.store.buffered(key)).contains(row),
{
    let first = stored(before.disk, key);
    let second = before.store.buffered(key);
    let files = res.files@;
    let n = partitions.len() as int;
    lemma_flush_paths(before, after, res, partitions, existing);
    lemma_written(before.disk, files);
    assert(are_distinct(first + second));
    lemma_key_paths(key, key);
    if before.store.buffer.contains_key(key) {
        let i = choose|i: int| 0 <= i < n && (#[trigger] partitions[i]).key() == key;
        let there = flush::existing_at(existing, i);
        assert(flush::is_partition_file(files[i], partitions[i], there));
        assert(there == file_at(before.disk, key_path(key)));
        assert(event_table::existing_events(there) == Some(first));
        assert(partitions[i].events@ == second);
        assert(file_at(after.disk, crate::broadcast::texts(files[i].path@)) == Some(
            files[i].bytes@,
        ));
        merge::law_distinct_readings_are_all_kept(first, second);
        merge::lemma_distinct_when_sorted(first + second);
        let now = merge::time_sorted(first + second);
        assert(stored(after.disk, key) == now);
        assert(store::belong_to(first, key));
        assert(store::belong_to(second, key));
        super::laws::law_partition_file_holds_its_own_rows(first, second, key);
        assert forall|row: PersistedEvent| #[trigger] now.contains(row) <==> (first
            + second).contains(row) by {
            merge::law_time_sort_keeps_the_rows(first + second, row);
        }
    } else {
        assert forall|i: int| 0 <= i < files.len() implies crate::broadcast::texts(
            (#[trigger] files[i]).path@,
        ) != key_path(key) by {
            if i < n {
                assert(before.store.buffer.contains_key(partitions[i].key()));
                lemma_key_paths(partitions[i].key(), key);
            }
        }
        assert(file_at(after.disk, key_path(key)) == file_at(before.disk, key_path(key)));
        assert(first + second =~= first);
    }
}

/// A flush that ended well accounts for the same rows.
proof fn lemma_flush_accounts(before: Moment, after: Moment, rows: Seq<PersistedEvent>)
    requires
        accounts_for(before, rows),
        follows(before, after, Call::Flush),
    ensures
        accounts_for(after, rows),
{
    let (res, partitions, existing) = choose|
        res: flush::Flushed,
        partitions: Seq<store::Partition>,
        existing: Seq<Option<Vec<u8>>>,
    | #[trigger]
        is_flushed(before, after, res, partitions, existing);
    assert forall|key: (u32, i64)| #[trigger]
        are_distinct(stored(after.disk, key) + after.store.buffered(key)) by {
        lemma_flushed_partition(before, after, rows, res, partitions, existing, key);
        assert(stored(after.disk, key) + after.store.buffered(key) =~= stored(after.disk, key));
    }
    assert forall|key: (u32, i64)| #[trigger]
        after.disk.contains_key(key_path(key)) implies is_partition(
        after.disk[key_path(key)],
        key,
    ) by {
        lemma_flushed_partition(before, after, rows, res, partitions, existing, key);
    }
    lemma_flush_paths(before, after, res, partitions, existing);
    lemma_written(before.disk, res.files@);
    assert forall|path: Seq<Seq<char>>| #[trigger]
        after.disk.contains_key(path) implies is_registry(path) || is_key_path(path) by {
        if forall|i: int|
            0 <= i < res.files@.len() ==> crate::broadcast::texts(
                (#[trigger] res.files@[i]).path@,
            ) != path {
            assert(file_at(after.disk, path) == file_at(before.disk, path));
            assert(before.disk.contains_key(path));
        } else {
            let i = choose|i: int|
                0 <= i < res.files@.len() && crate::broadcast::texts(
                    (#[trigger] res.files@[i]).path@,
                ) == path;
            if i < partitions.len() {
                assert(path == key_path(partitions[i].key()));
            }
        }
    }
    assert forall|row: PersistedEvent| #[trigger]
        rows.contains(row) <==> (stored(after.disk, store::partition_key(row))
            + after.store.buffered(store::partition_key(row))).contains(row) by {
        let key = store::partition_key(row);
        lemma_flushed_partition(before, after, rows, res, partitions, existing, key);
        assert(stored(after.disk, key) + after.store.buffered(key) =~= stored(after.disk, key));
    }
}

/// At every moment of a history, the rows that were handed in are accounted for.
proof fn lemma_history_accounts(moments: Seq<Moment>, calls: Seq<Call>)
    requires
        is_history(moments, calls),
        are_distinct(handed_in(calls)),
    ensures
        accounts_for(moments.last(), handed_in(calls)),
    decreases calls.len(),
{
    let now = moments.last();
    if calls.len() == 0 {
        assert forall|row: PersistedEvent| #[trigger]
            handed_in(calls).contains(row) <==> (stored(now.disk, store::partition_key(row))
                + now.store.buffered(store::partition_key(row))).contains(row) by {}
    } else {
        let earlier = calls.drop_last();
        let rows = handed_in(earlier);
        let call = calls[calls.len() - 1];
        let past = moments.drop_last();
        assert forall|i: int| 0 <= i < earlier.len() implies follows(
            past[i],
            past[i + 1],
            #[trigger] earlier[i],
        ) by {
            assert(earlier[i] == calls[i]);
        }
        assert(are_distinct(rows)) by {
            assert forall|i: int, j: int| 0 <= i < j < rows.len() implies !merge::same_reading(
                #[trigger] rows[i],
                #[trigger] rows[j],
            ) by {
                assert(handed_in(calls)[i] == rows[i] && handed_in(calls)[j] == rows[j]);
            }
        }
        lemma_history_accounts(past, earlier);
        let before = past.last();
        assert(follows(before, now, call));
        match call {
            Call::Persist(row) => {
                lemma_persist_accounts(before, now, rows, row);
            },
            Call::Flush => {
                lemma_flush_accounts(before, now, rows);
            },
            _ => {
                assert forall|key: (u32, i64)| now.store.buffered(key)
                    == #[trigger] before.store.buffered(key) by {}
                assert forall|key: (u32, i64)| #[trigger]
                    are_distinct(stored(now.disk, key) + now.store.buffered(key)) by {
                    assert(are_distinct(stored(before.disk, key) + before.store.buffered(key)));
                }
                assert forall|key: (u32, i64)| #[trigger]
                    store::belong_to(now.store.buffered(key), key) by {
                    assert(store::belong_to(before.store.buffered(key), key));
                }
                assert forall|row: PersistedEvent| #[trigger]
                    rows.contains(row) <==> (stored(now.disk, store::partition_key(row))
                        + now.store.buffered(store::partition_key(row))).contains(row) by {
                    assert(before.store.buffered(store::partition_key(row))
                        == now.store.buffered(store::partition_key(row)));
                }
            },
        }
    }
}

/// What a scan of some of the files finds: the rows of their partitions, each
/// once.
proof fn lemma_scan(
    moment: Moment,
    rows: Seq<PersistedEvent>,
    paths: Seq<Seq<Seq<char>>>,
)
    requires
        accounts_for(moment, rows),
        paths.no_duplicates(),
        forall|i: int|
            0 <= i < paths.len() ==> moment.disk.contains_key(#[trigger] paths[i]) && is_key_path(
                paths[i],
            ),
    ensures
        store::events_of_files(files_at(moment.disk, paths)) is Some,
        store::events_of_files(files_at(moment.disk, paths))->0.no_duplicates(),
        forall|row: PersistedEvent| #[trigger]
            store::events_of_files(files_at(moment.disk, paths))->0.contains(row) <==> (
            paths.contains(key_path(store::partition_key(row))) && stored(
                moment.disk,
                store::partition_key(row),
            ).contains(row)),
    decreases paths.len(),
{
    let files = files_at(moment.disk, paths);
    if paths.len() > 0 {
        let rest = paths.drop_last();
        let path = paths[paths.len() - 1];
        assert forall|i: int| 0 <= i < rest.len() implies moment.disk.contains_key(
            #[trigger] rest[i],
        ) && is_key_path(rest[i]) by {
            assert(rest[i] == paths[i]);
        }
        lemma_scan(moment, rows, rest);
        assert(files.drop_last() =~= files_at(moment.disk, rest));
        let before = store::events_of_files(files_at(moment.disk, rest))->0;
        let key = choose|key: (u32, i64)| path == #[trigger] key_path(key);
        let more = stored(moment.disk, key);
        let events = before + more;
        assert(is_partition(moment.disk[key_path(key)], key));
        assert(store::events_of_files(files) == Some(events));
        assert(are_distinct(more + moment.store.buffered(key)));
        assert forall|row: PersistedEvent| #[trigger] events.contains(row) <==> (paths.contains(
            key_path(store::partition_key(row)),
        ) && stored(moment.disk, store::partition_key(row)).contains(row)) by {
            let own = store::partition_key(row);
            lemma_contains_either(before, more, row);
            lemma_key_paths(own, key);
            if more.contains(row) {
                let k = choose|k: int| 0 <= k < more.len() && more[k] == row;
                assert(store::partition_key(more[k]) == key);
                assert(paths[paths.len() - 1] == key_path(own));
            }
            if rest.contains(key_path(own)) {
                let k = choose|k: int| 0 <= k < rest.len() && rest[k] == key_path(own);
                assert(paths[k] == key_path(own));
            }
            if paths.contains(key_path(own)) && !rest.contains(key_path(own)) {
                let k = choose|k: int| 0 <= k < paths.len() && paths[k] == key_path(own);
                if k < rest.len() {
                    assert(rest[k] == key_path(own));
                }
                assert(key_path(own) == key_path(key));
            }
        }
        assert forall|i: int, j: int| 0 <= i < j < events.len() implies events[i] != events[j] by {
            if j < before.len() {
                assert(before[i] != before[j]);
            } else if i >= before.len() {
                let held = more + moment.store.buffered(key);
                assert(held[i - before.len()] == events[i] && held[j - before.len()] == events[j]);
                assert(!merge::same_reading(held[i - before.len()], held[j - before.len()]));
            } else {
                assert(before.contains(before[i]));
                let own = store::partition_key(before[i]);
                let k = choose|k: int| 0 <= k < rest.len() && rest[k] == key_path(own);
                assert(paths[k] == key_path(own));
                assert(store::partition_key(more[j - before.len()]) == key);
            }
        }
    }
}

/// A full scan returns every row that was handed in exactly once, and nothing
/// else: opened on an empty directory, after any number of persisted events of
/// different readings, flushes that ended well, names and reopenings, with nothing
/// pending, the events of the files under the data directory are a permutation of
/// the persisted rows.
pub proof fn law_scan_returns_what_was_handed_in(
    moments: Seq<Moment>,
    calls: Seq<Call>,
    paths: Seq<Seq<Seq<char>>>,
)
    requires
        is_history(moments, calls),
        are_distinct(handed_in(calls)),
        moments.last().store.buffer == Map::<(u32, i64), Seq<PersistedEvent>>::empty(),
        are_scanned_paths(moments.last().disk, paths),
    ensures
        store::events_of_files(files_at(moments.last().disk, paths)) matches Some(events)
            && events.to_multiset() == handed_in(calls).to_multiset(),
{
    let now = moments.last();
    let rows = handed_in(calls);
    lemma_history_accounts(moments, calls);
    assert forall|i: int| 0 <= i < paths.len() implies now.disk.contains_key(#[trigger] paths[i])
        && is_key_path(paths[i]) by {
        assert(paths.contains(paths[i]));
        assert("data"@ != "registry"@) by {
            reveal_strlit("data");
            reveal_strlit("registry");
            assert("data"@.len() != "registry"@.len());
        }
        assert(seq!["registry"@, "vessels.parquet"@][0] == "registry"@);
        assert(seq!["registry"@, "sources.parquet"@][0] == "registry"@);
    }
    lemma_scan(now, rows, paths);
    let events = store::events_of_files(files_at(now.disk, paths))->0;
    assert forall|row: PersistedEvent| #[trigger] events.contains(row) <==> rows.contains(row) by {
        let key = store::partition_key(row);
        let held = stored(now.disk, key);
        assert(held + now.store.buffered(key) =~= held);
        assert(rows.contains(row) <==> held.contains(row));
        if held.contains(row) {
            lemma_partitions_are_scanned(key);
            assert(paths.contains(key_path(key)));
        }
    }
    assert(rows.no_duplicates()) by {
        assert forall|i: int, j: int| 0 <= i < j < rows.len() implies rows[i] != rows[j] by {
            assert(!merge::same_reading(rows[i], rows[j]));
        }
    }
    lemma_same_rows_once(events, rows);
}

/// A full scan looks at the files of partitions.
proof fn lemma_partitions_are_scanned(key: (u32, i64))
    ensures
        is_scanned(key_path(key)),
{
    reveal_strlit("events.parquet");
    reveal_strlit(".parquet");
    assert("events.parquet"@.skip(6) =~= ".parquet"@);
}

/// Sequences that hold the same rows, each once, are permutations of each other.
proof fn lemma_same_rows_once(a: Seq<PersistedEvent>, b: Seq<PersistedEvent>)
    requires
        a.no_duplicates(),
        b.no_duplicates(),
        forall|row: PersistedEvent| #[trigger] a.contains(row) <==> b.contains(row),
    ensures
        a.to_multiset() == b.to_multiset(),
{
    a.lemma_multiset_has_no_duplicates();
    b.lemma_multiset_has_no_duplicates();
    a.to_multiset_ensures();
    b.to_multiset_ensures();
    assert forall|row: PersistedEvent| a.to_multiset().count(row) == b.to_multiset().count(
        row,
    ) by {
        assert(a.contains(row) <==> b.contains(row));
        assert(a.contains(row) <==> a.to_multiset().count(row) > 0);
        assert(b.contains(row) <==> b.to_multiset().count(row) > 0);
        if a.contains(row) {
            assert(a.to_multiset().contains(row));
            assert(b.to_multiset().contains(row));
        }
    }
    assert(a.to_multiset() =~= b.to_multiset());
}

} // verus!
