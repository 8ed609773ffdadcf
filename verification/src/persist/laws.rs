//! What holds of the store as a whole.

use vstd::prelude::*;

use super::columnar;
use super::event_table;
use super::flush;
use super::merge;
use super::partition;
use super::registry;
use super::row::PersistedEvent;
use super::select;
use super::sources;
use super::store;
use super::vessels;

verus! {

/// Persisting an event adds one to the pending events.
pub proof fn law_persist_adds_one_pending(state: store::StoreView, row: PersistedEvent)
    requires
        state.wf(),
    ensures
        state.with_row(row).wf(),
        store::row_total(state.with_row(row).buffer) == store::row_total(state.buffer) + 1,
{
    let key = store::partition_key(row);
    let after = state.with_row(row).buffer;
    store::lemma_row_total_remove(after, key);
    if state.buffer.contains_key(key) {
        store::lemma_row_total_remove(state.buffer, key);
        assert(after.remove(key) =~= state.buffer.remove(key));
    } else {
        assert(after.remove(key) =~= state.buffer);
    }
}

/// Nothing is pending in an empty buffer, as a flush leaves it.
pub proof fn law_nothing_pending_after_flush()
    ensures
        store::row_total(Map::<(u32, i64), Seq<PersistedEvent>>::empty()) == 0,
{
}

/// Persisting an event appends its row to its own partition and leaves the other
/// partitions, the names of known vessels and the sources as they are. The
/// event's vessel is known afterwards.
pub proof fn law_persist_touches_its_partition_only(
    state: store::StoreView,
    row: PersistedEvent,
    key: (u32, i64),
    vessel_id: u32,
)
    ensures
        state.with_row(row).buffered(store::partition_key(row)) == state.buffered(
            store::partition_key(row),
        ).push(row),
        key != store::partition_key(row) ==> state.with_row(row).buffered(key) == state.buffered(
            key,
        ),
        state.vessels.contains_key(vessel_id) ==> state.with_row(row).vessels.contains_key(
            vessel_id,
        ) && state.with_row(row).vessels[vessel_id] == state.vessels[vessel_id],
        state.with_row(row).vessels.contains_key(row.vessel_id),
        state.with_row(row).sources == state.sources,
        state.with_row(row).base_dir == state.base_dir,
{
}

/// Every partition that a flush hands out holds at least one row, and only rows
/// of its vessel and hour; its vessel is in the registry.
pub proof fn law_flushed_rows_belong_to_their_partition(
    state: store::StoreView,
    partitions: Seq<store::Partition>,
    i: int,
)
    requires
        state.wf(),
        store::drains(state.buffer, partitions),
        0 <= i < partitions.len(),
    ensures
        partitions[i].events@.len() > 0,
        store::belong_to(partitions[i].events@, partitions[i].key()),
        state.vessels.contains_key(partitions[i].vessel_id),
{
    assert(state.buffer.contains_key(partitions[i].key()));
}

/// Every buffered row is handed out by a flush, in the partition of its vessel
/// and hour.
pub proof fn law_flush_hands_out_every_row(
    state: store::StoreView,
    partitions: Seq<store::Partition>,
    row: PersistedEvent,
)
    requires
        store::drains(state.buffer, partitions),
        state.buffered(store::partition_key(row)).contains(row),
    ensures
        exists|i: int|
            0 <= i < partitions.len() && (#[trigger] partitions[i]).key() == store::partition_key(
                row,
            ) && partitions[i].events@.contains(row),
{
    let key = store::partition_key(row);
    assert(state.buffer.contains_key(key));
    let i = choose|i: int| 0 <= i < partitions.len() && (#[trigger] partitions[i]).key() == key;
    assert(state.buffer[partitions[i].key()] == partitions[i].events@);
}

/// No two partitions of a flush are written to the same file.
pub proof fn law_flushed_partitions_have_their_own_files(
    state: store::StoreView,
    partitions: Seq<store::Partition>,
    i: int,
    j: int,
)
    requires
        store::drains(state.buffer, partitions),
        0 <= i < j < partitions.len(),
    ensures
        partition::partition_path_names(partitions[i].vessel_id, partitions[i].hour)
            != partition::partition_path_names(partitions[j].vessel_id, partitions[j].hour),
{
    assert(store::key_before(partitions[i].key(), partitions[j].key()));
    if partition::partition_path_names(partitions[i].vessel_id, partitions[i].hour)
        == partition::partition_path_names(partitions[j].vessel_id, partitions[j].hour) {
        partition::law_partition_paths_are_distinct(
            partitions[i].vessel_id,
            partitions[i].hour,
            partitions[j].vessel_id,
            partitions[j].hour,
        );
    }
}

/// The order of partitions as a number: by vessel, then by hour.
spec fn partition_rank() -> spec_fn((u32, i64)) -> int {
    |key: (u32, i64)| key.0 * 0x1_0000_0000_0000_0000 + key.1
}

/// The keys of partitions in ascending order are those of the buffer, each once.
proof fn lemma_drained_keys(
    buffer: Map<(u32, i64), Seq<PersistedEvent>>,
    partitions: Seq<store::Partition>,
)
    requires
        store::drains(buffer, partitions),
    ensures
        ({
            let keys = partitions.map_values(|p: store::Partition| p.key());
            registry::ascends(keys, partition_rank()) && keys.to_set() == buffer.dom()
        }),
{
    let keys = partitions.map_values(|p: store::Partition| p.key());
    let rank = partition_rank();
    assert forall|i: int, j: int| 0 <= i < j < keys.len() implies rank(#[trigger] keys[i]) < rank(
        #[trigger] keys[j],
    ) by {
        assert(store::key_before(partitions[i].key(), partitions[j].key()));
    }
    assert forall|key: (u32, i64)| keys.to_set().contains(key) <==> buffer.dom().contains(key) by {
        if keys.contains(key) {
            let i = choose|i: int| 0 <= i < keys.len() && keys[i] == key;
            assert(buffer.contains_key(partitions[i].key()));
        }
        if buffer.contains_key(key) {
            let i = choose|i: int|
                0 <= i < partitions.len() && (#[trigger] partitions[i]).key() == key;
            assert(keys[i] == key);
        }
    }
    assert(keys.to_set() =~= buffer.dom());
}

/// A buffer has its partitions in one order only, so what stands at a place of
/// the pending paths belongs to the partition at that place of the flush.
pub proof fn law_partitions_have_one_order(
    buffer: Map<(u32, i64), Seq<PersistedEvent>>,
    a: Seq<store::Partition>,
    b: Seq<store::Partition>,
)
    requires
        store::drains(buffer, a),
        store::drains(buffer, b),
    ensures
        a.len() == b.len(),
        forall|i: int|
            0 <= i < a.len() ==> (#[trigger] a[i]).key() == b[i].key() && a[i].events@
                == b[i].events@,
{
    let keys_a = a.map_values(|p: store::Partition| p.key());
    let keys_b = b.map_values(|p: store::Partition| p.key());
    lemma_drained_keys(buffer, a);
    lemma_drained_keys(buffer, b);
    registry::lemma_order_is_unique(keys_a, keys_b, partition_rank());
    assert(keys_a.len() == a.len() && keys_b.len() == b.len());
    assert forall|i: int| 0 <= i < a.len() implies (#[trigger] a[i]).key() == b[i].key()
        && a[i].events@ == b[i].events@ by {
        assert(keys_a[i] == keys_b[i]);
        assert(buffer[b[i].key()] == b[i].events@);
    }
}

/// After a flush that ended well, every buffered row's reading is in the file of
/// its vessel and hour, beside every reading of the file that was there.
pub proof fn law_flush_stores_every_reading(
    res: flush::Flushed,
    state: store::StoreView,
    partitions: Seq<store::Partition>,
    existing: Seq<Option<Vec<u8>>>,
    row: PersistedEvent,
)
    requires
        store::drains(state.buffer, partitions),
        flush::is_flush(res, state, partitions, existing),
        res.end is Done,
        state.buffered(store::partition_key(row)).contains(row),
    ensures
        exists|i: int|
            {
                &&& 0 <= i < res.files@.len()
                &&& crate::broadcast::texts((#[trigger] res.files@[i]).path@)
                    == partition::partition_path_names(
                    store::partition_key(row).0,
                    store::partition_key(row).1,
                )
                &&& event_table::partition_read(
                    res.files@[i].bytes@,
                ) matches event_table::PartitionRead::Events(stored)
                &&& merge::has_reading(stored, row)
            },
{
    law_flush_hands_out_every_row(state, partitions, row);
    let i = choose|i: int|
        0 <= i < partitions.len() && (#[trigger] partitions[i]).key() == store::partition_key(row)
            && partitions[i].events@.contains(row);
    let there = flush::existing_at(existing, i);
    assert(flush::is_partition_file(res.files@[i], partitions[i], there));
    let rows = event_table::existing_events(there)->0;
    merge::law_merging_loses_no_reading(rows, partitions[i].events@, row);
}

/// After a flush that ended well, a buffered row is in the file of its vessel and
/// hour with all its fields, where no other row, buffered or in the file that was
/// there, stands for its reading.
pub proof fn law_flush_stores_the_row(
    res: flush::Flushed,
    state: store::StoreView,
    partitions: Seq<store::Partition>,
    existing: Seq<Option<Vec<u8>>>,
    row: PersistedEvent,
)
    requires
        store::drains(state.buffer, partitions),
        flush::is_flush(res, state, partitions, existing),
        res.end is Done,
        state.buffered(store::partition_key(row)).contains(row),
        forall|other: PersistedEvent|
            state.buffered(store::partition_key(row)).contains(other) && #[trigger]
                merge::same_reading(other, row) ==> other == row,
        forall|i: int, other: PersistedEvent|
            0 <= i < partitions.len() && partitions[i].key() == store::partition_key(row)
                && #[trigger] event_table::existing_events(
                flush::existing_at(existing, i),
            )->0.contains(other) && merge::same_reading(other, row) ==> other == row,
    ensures
        exists|i: int|
            {
                &&& 0 <= i < res.files@.len()
                &&& crate::broadcast::texts((#[trigger] res.files@[i]).path@)
                    == partition::partition_path_names(
                    store::partition_key(row).0,
                    store::partition_key(row).1,
                )
                &&& holds_row(res.files@[i].bytes@, row)
            },
{
    law_flush_hands_out_every_row(state, partitions, row);
    let i = choose|i: int|
        0 <= i < partitions.len() && (#[trigger] partitions[i]).key() == store::partition_key(row)
            && partitions[i].events@.contains(row);
    let there = flush::existing_at(existing, i);
    assert(flush::is_partition_file(res.files@[i], partitions[i], there));
    let rows = event_table::existing_events(there)->0;
    assert(state.buffer[partitions[i].key()] == partitions[i].events@);
    merge::law_row_without_rival_is_kept(rows, partitions[i].events@, row);
    assert(holds_row(res.files@[i].bytes@, row));
}

/// After a flush that ended well, a store that is opened from its registry files
/// has the registry of the store that was flushed.
pub proof fn law_flushed_registry_reloads(
    res: flush::Flushed,
    state: store::StoreView,
    partitions: Seq<store::Partition>,
    existing: Seq<Option<Vec<u8>>>,
)
    requires
        flush::is_flush(res, state, partitions, existing),
        res.end is Done,
    ensures
        vessels::vessels_in(Some(res.files@[partitions.len() as int].bytes@)) == Some(
            state.vessels,
        ),
        sources::sources_in(Some(res.files@[partitions.len() as int + 1].bytes@)) == Some(
            state.sources,
        ),
{
}

/// A partition file holds only rows of its vessel and hour, as long as what is
/// merged into it are such rows.
pub proof fn law_partition_file_holds_its_own_rows(
    existing: Seq<PersistedEvent>,
    events: Seq<PersistedEvent>,
    key: (u32, i64),
)
    requires
        store::belong_to(existing, key),
        store::belong_to(events, key),
    ensures
        store::belong_to(merge::merged(existing, events), key),
{
    let rows = merge::merged(existing, events);
    assert forall|i: int| 0 <= i < rows.len() implies store::partition_key(#[trigger] rows[i])
        == key by {
        assert(rows.contains(rows[i]));
        merge::law_merged_rows_are_given(existing, events, rows[i]);
        if existing.contains(rows[i]) {
            let k = choose|k: int| 0 <= k < existing.len() && existing[k] == rows[i];
            assert(store::partition_key(existing[k]) == key);
        } else {
            let k = choose|k: int| 0 <= k < events.len() && events[k] == rows[i];
            assert(store::partition_key(events[k]) == key);
        }
    }
}

/// A full scan returns every row of every file that can be read.
pub proof fn law_scan_returns_every_row(
    files: Seq<Seq<u8>>,
    events: Seq<PersistedEvent>,
    i: int,
    stored: Seq<PersistedEvent>,
    row: PersistedEvent,
)
    requires
        store::events_of_files(files) == Some(events),
        0 <= i < files.len(),
        event_table::partition_read(files[i]) == event_table::PartitionRead::Events(stored),
        stored.contains(row),
    ensures
        events.contains(row),
    decreases files.len(),
{
    let before = store::events_of_files(files.drop_last())->0;
    if i < files.len() - 1 {
        law_scan_returns_every_row(files.drop_last(), before, i, stored, row);
        let k = choose|k: int| 0 <= k < before.len() && before[k] == row;
        assert(events[k] == row);
    } else {
        let k = choose|k: int| 0 <= k < stored.len() && stored[k] == row;
        assert(events[before.len() + k] == row);
    }
}

/// A scan returns nothing but rows of the files.
pub proof fn law_scan_returns_stored_rows_only(
    files: Seq<Seq<u8>>,
    events: Seq<PersistedEvent>,
    row: PersistedEvent,
)
    requires
        store::events_of_files(files) == Some(events),
        events.contains(row),
    ensures
        exists|i: int|
            0 <= i < files.len() && holds_row(#[trigger] files[i], row),
    decreases files.len(),
{
    let k = choose|k: int| 0 <= k < events.len() && events[k] == row;
    let before = store::events_of_files(files.drop_last())->0;
    let last = files.len() - 1;
    if k < before.len() {
        assert(before[k] == row);
        law_scan_returns_stored_rows_only(files.drop_last(), before, row);
        let i = choose|i: int|
            0 <= i < files.drop_last().len() && holds_row(#[trigger] files.drop_last()[i], row);
        assert(holds_row(files[i], row));
    } else {
        let stored = event_table::partition_read(files[last])->Events_0;
        assert(stored[k - before.len()] == row);
        assert(holds_row(files[last], row));
    }
}

/// Whether a file can be read and a row is in it.
pub open spec fn holds_row(file: Seq<u8>, row: PersistedEvent) -> bool {
    event_table::partition_read(file) matches event_table::PartitionRead::Events(stored)
        && stored.contains(row)
}

/// A query finds what is stored: if a file holds a row of the type asked for,
/// within the tolerance, then there is a result for the row's source and type,
/// and it is no farther from the target than the row.
pub proof fn law_query_finds_stored_rows(
    files: Seq<Seq<u8>>,
    candidates: Seq<PersistedEvent>,
    i: int,
    row: PersistedEvent,
    target_time: i64,
    tolerance_ns: i64,
    event_type_filter: Option<u16>,
    results: Seq<PersistedEvent>,
)
    requires
        store::events_of_files(files) == Some(candidates),
        0 <= i < files.len(),
        holds_row(files[i], row),
        select::qualifies(row, target_time, tolerance_ns, event_type_filter),
        select::is_selection(candidates, target_time, tolerance_ns, event_type_filter, results),
    ensures
        exists|m: int|
            0 <= m < results.len() && select::same_group(#[trigger] results[m], row)
                && select::distance(results[m], target_time) <= select::distance(row, target_time),
{
    let stored = event_table::partition_read(files[i])->Events_0;
    law_scan_returns_every_row(files, candidates, i, stored, row);
    let k = choose|k: int| 0 <= k < candidates.len() && candidates[k] == row;
    assert(select::has_group(results, candidates[k]));
    let m = select::lemma_group_index(results, row);
    select::law_results_are_nearest(
        candidates,
        target_time,
        tolerance_ns,
        event_type_filter,
        results,
        m,
        k,
    );
}

/// The rows of the partitions of some hours, one partition after the other.
pub open spec fn rows_of_hours(
    partitions: Seq<(i64, Seq<PersistedEvent>)>,
    hours: spec_fn(i64) -> bool,
) -> Seq<PersistedEvent>
    decreases partitions.len(),
{
    if partitions.len() == 0 {
        seq![]
    } else {
        let before = rows_of_hours(partitions.drop_last(), hours);
        if hours(partitions.last().0) {
            before + partitions.last().1
        } else {
            before
        }
    }
}

/// A query over the partitions of the hours of its window has the answer that it
/// would have over all partitions, where each holds rows of its own hour.
pub proof fn law_query_needs_its_hours_only(
    partitions: Seq<(i64, Seq<PersistedEvent>)>,
    target_time: i64,
    tolerance_ns: i64,
    event_type_filter: Option<u16>,
    results: Seq<PersistedEvent>,
)
    requires
        forall|i: int, j: int|
            0 <= i < partitions.len() && 0 <= j < partitions[i].1.len() ==> partition::hour_of(
                (#[trigger] partitions[i].1[j]).event_time as int,
            ) == partitions[i].0,
        select::is_selection(
            rows_of_hours(
                partitions,
                |hour: i64|
                    partition::hour_of(partition::clamp_time(target_time - tolerance_ns)) <= hour
                        <= partition::hour_of(partition::clamp_time(target_time + tolerance_ns)),
            ),
            target_time,
            tolerance_ns,
            event_type_filter,
            results,
        ),
    ensures
        select::is_selection(
            rows_of_hours(partitions, |hour: i64| true),
            target_time,
            tolerance_ns,
            event_type_filter,
            results,
        ),
{
    let hours = |hour: i64|
        partition::hour_of(partition::clamp_time(target_time - tolerance_ns)) <= hour
            <= partition::hour_of(partition::clamp_time(target_time + tolerance_ns));
    let keep = |event: PersistedEvent| select::in_window_hours(event, target_time, tolerance_ns);
    lemma_rows_of_hours_filtered(partitions, hours, keep);
    select::law_other_hours_do_not_matter(
        rows_of_hours(partitions, |hour: i64| true),
        target_time,
        tolerance_ns,
        event_type_filter,
        results,
    );
}

/// Taking the rows of some hours is taking all rows and keeping those.
proof fn lemma_rows_of_hours_filtered(
    partitions: Seq<(i64, Seq<PersistedEvent>)>,
    hours: spec_fn(i64) -> bool,
    keep: spec_fn(PersistedEvent) -> bool,
)
    requires
        forall|i: int, j: int|
            0 <= i < partitions.len() && 0 <= j < partitions[i].1.len() ==> keep(
                #[trigger] partitions[i].1[j],
            ) == hours(partitions[i].0),
    ensures
        rows_of_hours(partitions, hours) == rows_of_hours(partitions, |hour: i64| true).filter(
            keep,
        ),
    decreases partitions.len(),
{
    let any = |hour: i64| true;
    if partitions.len() == 0 {
        reveal(Seq::filter);
        assert(rows_of_hours(partitions, hours) =~= rows_of_hours(partitions, any).filter(keep));
    } else {
        let rest = partitions.drop_last();
        let last = partitions.len() - 1;
        let rows = partitions[last].1;
        assert forall|i: int, j: int| 0 <= i < rest.len() && 0 <= j < rest[i].1.len() implies keep(
            #[trigger] rest[i].1[j],
        ) == hours(rest[i].0) by {
            assert(keep(partitions[i].1[j]) == hours(partitions[i].0));
        }
        lemma_rows_of_hours_filtered(rest, hours, keep);
        Seq::filter_distributes_over_add(rows_of_hours(rest, any), rows, keep);
        assert forall|j: int| 0 <= j < rows.len() implies keep(#[trigger] rows[j]) == hours(
            partitions[last].0,
        ) by {
            assert(keep(partitions[last].1[j]) == hours(partitions[last].0));
        }
        if hours(partitions[last].0) {
            lemma_filter_keeps_all(rows, keep);
        } else {
            lemma_filter_keeps_none(rows, keep);
            assert(rows_of_hours(rest, any).filter(keep) + Seq::<PersistedEvent>::empty()
                =~= rows_of_hours(rest, any).filter(keep));
        }
    }
}

/// Where all rows are kept, they are kept as they are.
proof fn lemma_filter_keeps_all(
    rows: Seq<PersistedEvent>,
    keep: spec_fn(PersistedEvent) -> bool,
)
    requires
        forall|j: int| 0 <= j < rows.len() ==> keep(#[trigger] rows[j]),
    ensures
        rows.filter(keep) == rows,
    decreases rows.len(),
{
    reveal(Seq::filter);
    if rows.len() > 0 {
        lemma_filter_keeps_all(rows.drop_last(), keep);
        assert(keep(rows[rows.len() - 1]));
        assert(rows.filter(keep) =~= rows);
    } else {
        assert(rows.filter(keep) =~= rows);
    }
}

/// Where no row is kept, none is left.
proof fn lemma_filter_keeps_none(
    rows: Seq<PersistedEvent>,
    keep: spec_fn(PersistedEvent) -> bool,
)
    requires
        forall|j: int| 0 <= j < rows.len() ==> !keep(#[trigger] rows[j]),
    ensures
        rows.filter(keep) == Seq::<PersistedEvent>::empty(),
    decreases rows.len(),
{
    reveal(Seq::filter);
    if rows.len() > 0 {
        lemma_filter_keeps_none(rows.drop_last(), keep);
        assert(!keep(rows[rows.len() - 1]));
    }
}

/// A query finds what is stored: if a file holds a row of the type asked for, or of any if
/// none is asked for, whose time is within the tolerance of the target, then there is a
/// result of the row's source and type that is no farther from the target.
pub proof fn law_query_answers_from_the_files(
    files: Seq<Seq<u8>>,
    candidates: Seq<PersistedEvent>,
    f: int,
    row: PersistedEvent,
    target_time: i64,
    tolerance_ns: i64,
    event_type_filter: Option<u16>,
    results: Seq<PersistedEvent>,
)
    requires
        store::events_of_files(files) == Some(candidates),
        0 <= f < files.len(),
        holds_row(files[f], row),
        event_type_filter is None || event_type_filter == Some(row.event_type),
        target_time - tolerance_ns <= row.event_time <= target_time + tolerance_ns,
        select::is_selection(candidates, target_time, tolerance_ns, event_type_filter, results),
    ensures
        exists|i: int|
            {
                &&& 0 <= i < results.len()
                &&& (#[trigger] results[i]).source_id == row.source_id
                &&& results[i].event_type == row.event_type
                &&& (if results[i].event_time < target_time {
                    target_time - results[i].event_time
                } else {
                    results[i].event_time - target_time
                }) <= (if row.event_time < target_time {
                    target_time - row.event_time
                } else {
                    row.event_time - target_time
                })
            },
{
    let stored = event_table::partition_read(files[f])->Events_0;
    law_scan_returns_every_row(files, candidates, f, stored, row);
    let k = choose|k: int| 0 <= k < candidates.len() && candidates[k] == row;
    select::law_every_reading_in_the_window_is_answered(
        candidates,
        target_time,
        tolerance_ns,
        event_type_filter,
        results,
        k,
    );
    let i = choose|i: int|
        0 <= i < results.len() && (#[trigger] results[i]).source_id == candidates[k].source_id
            && results[i].event_type == candidates[k].event_type;
    select::law_results_are_the_nearest_in_the_window(
        candidates,
        target_time,
        tolerance_ns,
        event_type_filter,
        results,
        i,
    );
    assert(candidates[k].source_id == results[i].source_id);
}

/// After a flush that ended well, for every pending row there is a file at the path of its
/// vessel and hour that holds a row of the same vessel, source, number and type.
pub proof fn law_flush_files_every_reading(
    res: flush::Flushed,
    state: store::StoreView,
    partitions: Seq<store::Partition>,
    existing: Seq<Option<Vec<u8>>>,
    key: (u32, i64),
    row: PersistedEvent,
)
    requires
        store::drains(state.buffer, partitions),
        flush::is_flush(res, state, partitions, existing),
        res.end is Done,
        state.buffer.contains_key(key),
        state.buffer[key].contains(row),
    ensures
        exists|i: int|
            {
                &&& 0 <= i < res.files@.len()
                &&& crate::broadcast::texts((#[trigger] res.files@[i]).path@) == seq![
                    "data"@,
                    "vessel="@ + crate::decimal::decimal(key.0 as nat),
                    "hour="@ + crate::decimal::signed_decimal(key.1 as int),
                    "events.parquet"@,
                ]
                &&& event_table::partition_read(
                    res.files@[i].bytes@,
                ) matches event_table::PartitionRead::Events(stored)
                &&& holds_reading(stored, row)
            },
{
    let i = choose|i: int| 0 <= i < partitions.len() && (#[trigger] partitions[i]).key() == key;
    assert(partitions[i].events@ == state.buffer[key]);
    let there = flush::existing_at(existing, i);
    assert(flush::is_partition_file(res.files@[i], partitions[i], there));
    let rows = event_table::existing_events(there)->0;
    merge::law_every_reading_is_kept(rows, partitions[i].events@, row);
    partition::law_partition_paths(key.0, key.1);
}

/// Whether rows hold one of the same vessel, source, number and type as another.
pub open spec fn holds_reading(rows: Seq<PersistedEvent>, row: PersistedEvent) -> bool {
    exists|i: int|
        {
            &&& 0 <= i < rows.len()
            &&& (#[trigger] rows[i]).vessel_id == row.vessel_id
            &&& rows[i].source_id == row.source_id
            &&& rows[i].seq == row.seq
            &&& rows[i].event_type == row.event_type
        }
}

/// A flush that ended well writes, for each partition that was pending, the rows that its
/// file held, merged with the new ones behind them, and then the two registry files, from
/// which the vessels and sources are loaded back. It writes nothing else.
pub proof fn law_flush_writes_partitions_and_registry(
    res: flush::Flushed,
    state: store::StoreView,
    partitions: Seq<store::Partition>,
    existing: Seq<Option<Vec<u8>>>,
    i: int,
    old: Seq<PersistedEvent>,
)
    requires
        store::drains(state.buffer, partitions),
        flush::is_flush(res, state, partitions, existing),
        res.end is Done,
    ensures
        ({
            let n = partitions.len() as int;
            let files = res.files@;
            &&& files.len() == n + 2
            &&& 0 <= i < n && i < existing.len() && existing[i] is None
                ==> event_table::partition_read(files[i].bytes@)
                == event_table::PartitionRead::Events(merge::merged(seq![], partitions[i].events@))
            &&& 0 <= i < n && i < existing.len() && existing[i] is Some
                && event_table::partition_read(existing[i]->0@)
                == event_table::PartitionRead::Events(old) ==> event_table::partition_read(
                files[i].bytes@,
            ) == event_table::PartitionRead::Events(merge::merged(old, partitions[i].events@))
            &&& 0 <= i < n ==> crate::broadcast::texts(files[i].path@) == seq![
                "data"@,
                "vessel="@ + crate::decimal::decimal(partitions[i].vessel_id as nat),
                "hour="@ + crate::decimal::signed_decimal(partitions[i].hour as int),
                "events.parquet"@,
            ]
            &&& crate::broadcast::texts(files[n].path@) == seq!["registry"@, "vessels.parquet"@]
            &&& vessels::vessels_in(Some(files[n].bytes@)) == Some(state.vessels)
            &&& crate::broadcast::texts(files[n + 1].path@) == seq![
                "registry"@,
                "sources.parquet"@,
            ]
            &&& sources::sources_in(Some(files[n + 1].bytes@)) == Some(state.sources)
        }),
{
    if 0 <= i < partitions.len() {
        let there = flush::existing_at(existing, i);
        assert(flush::is_partition_file(res.files@[i], partitions[i], there));
        partition::law_partition_paths(partitions[i].vessel_id, partitions[i].hour);
    }
}

/// A flush stops at the first partition whose file is of other columns: the files of the
/// partitions before it are written, and nothing behind them.
pub proof fn law_flush_stops_at_a_foreign_file(
    res: flush::Flushed,
    state: store::StoreView,
    partitions: Seq<store::Partition>,
    existing: Seq<Option<Vec<u8>>>,
    i: int,
)
    requires
        flush::is_flush(res, state, partitions, existing),
        0 <= i < partitions.len(),
        i < existing.len(),
        existing[i] is Some,
        event_table::partition_read(existing[i]->0@) is Foreign,
    ensures
        !(res.end is Done),
        res.files@.len() <= i,
{
    let there = flush::existing_at(existing, i);
    if res.files@.len() > i {
        assert(flush::is_partition_file(res.files@[i], partitions[i], there));
    }
}

/// A flush ends well where nothing stands in its way: no file that is there is of other
/// columns, no column of names takes more than two gigabytes, and Parquet takes every
/// table.
pub proof fn law_flush_ends_well(
    res: flush::Flushed,
    state: store::StoreView,
    partitions: Seq<store::Partition>,
    existing: Seq<Option<Vec<u8>>>,
)
    requires
        flush::is_flush(res, state, partitions, existing),
        forall|i: int|
            0 <= i < partitions.len() ==> event_table::existing_events(
                flush::existing_at(existing, i),
            ) is Some && flush::partition_accepted(
                #[trigger] partitions[i],
                flush::existing_at(existing, i),
            ),
        columnar::text_size(flush::vessel_names(state)) <= 0x7FFF_FFFF,
        columnar::text_size(flush::source_names(state)) <= 0x7FFF_FFFF,
        flush::vessels_accepted(state),
        flush::sources_accepted(state),
    ensures
        res.end is Done,
{
    let at = res.files@.len() as int;
    if 0 <= at < partitions.len() {
        assert(flush::partition_accepted(partitions[at], flush::existing_at(existing, at)));
    }
}

/// What a flush hands to Parquet for a partition are the rows of the file that is there
/// and the new ones, merged, column by column, and for the registry its names in
/// ascending order of their keys.
pub proof fn law_what_parquet_is_asked_to_take(
    state: store::StoreView,
    partition: store::Partition,
    rows: Seq<PersistedEvent>,
    existing: Option<Seq<u8>>,
)
    requires
        event_table::existing_events(existing) == Some(rows),
    ensures
        flush::partition_accepted(partition, existing) == columnar::parquet_accepts(
            event_table::event_defs(),
            event_table::event_columns(merge::merged(rows, partition.events@)),
        ),
        flush::vessels_accepted(state) == columnar::parquet_accepts(
            vessels::vessel_defs(),
            vessels::vessel_columns(flush::vessel_list(state), flush::vessel_names(state)),
        ),
        flush::sources_accepted(state) == columnar::parquet_accepts(
            sources::source_defs(),
            sources::source_columns(flush::source_list(state), flush::source_names(state)),
        ),
        forall|i: int|
            0 <= i < flush::vessel_list(state).len() ==> #[trigger] flush::vessel_names(state)[i]
                == state.vessels[flush::vessel_list(state)[i]],
        forall|i: int|
            0 <= i < flush::source_list(state).len() ==> #[trigger] flush::source_names(state)[i]
                == state.sources[flush::source_list(state)[i]],
        flush::vessel_names(state).len() == flush::vessel_list(state).len(),
        flush::source_names(state).len() == flush::source_list(state).len(),
{
}

/// A scan returns the rows of the files, one file after the other, each in the order of
/// its rows. Files that cannot be read are passed over, and where all hold rows of events,
/// or cannot be read, there is an answer.
pub proof fn law_scan_returns_the_rows_in_order(
    files: Seq<Seq<u8>>,
    rows: Seq<Seq<PersistedEvent>>,
    res: Option<Seq<PersistedEvent>>,
)
    requires
        store::is_scan(files, res),
        files.len() == rows.len(),
        forall|i: int|
            0 <= i < files.len() ==> {
                ||| event_table::partition_read(#[trigger] files[i])
                    == event_table::PartitionRead::Events(rows[i])
                ||| rows[i].len() == 0 && (event_table::partition_read(files[i]) is Unreadable
                    || event_table::partition_read(files[i]) is Damaged
                    || event_table::partition_read(files[i]) is Broken)
            },
    ensures
        res == Some(rows.flatten()),
    decreases files.len(),
{
    if files.len() == 0 {
        assert(rows.flatten() =~= Seq::empty());
    } else {
        let before = files.drop_last();
        let earlier = rows.drop_last();
        let last = files.len() - 1;
        assert forall|i: int| 0 <= i < before.len() implies {
            ||| event_table::partition_read(#[trigger] before[i])
                == event_table::PartitionRead::Events(earlier[i])
            ||| earlier[i].len() == 0 && (event_table::partition_read(before[i]) is Unreadable
                || event_table::partition_read(before[i]) is Damaged || event_table::partition_read(
                before[i],
            ) is Broken)
        } by {
            assert(before[i] == files[i]);
        }
        law_scan_returns_the_rows_in_order(before, earlier, store::events_of_files(before));
        assert(files[last] == files.last());
        lemma_flatten_push(earlier, rows[last]);
        assert(earlier.push(rows[last]) =~= rows);
        assert(rows[last].len() == 0 ==> earlier.flatten() + rows[last] =~= earlier.flatten());
    }
}

/// What is added behind comes behind when all are put together.
proof fn lemma_flatten_push(parts: Seq<Seq<PersistedEvent>>, part: Seq<PersistedEvent>)
    ensures
        parts.push(part).flatten() == parts.flatten() + part,
    decreases parts.len(),
{
    if parts.len() == 0 {
        let none = Seq::<Seq<PersistedEvent>>::empty();
        assert(parts.push(part).drop_first() =~= none);
        assert(parts =~= none);
        assert(none.flatten() =~= Seq::empty());
        assert(parts.push(part).first() == part);
        assert(parts.push(part).flatten() == part + none.flatten());
        assert(parts.push(part).flatten() =~= parts.flatten() + part);
    } else {
        lemma_flatten_push(parts.drop_first(), part);
        assert(parts.push(part).drop_first() =~= parts.drop_first().push(part));
        assert(parts.push(part).first() == parts.first());
        assert(parts.flatten() == parts.first() + parts.drop_first().flatten());
        assert(parts.push(part).flatten() =~= parts.flatten() + part);
    }
}

/// A query over files answers for every reading of the type asked for in its window that
/// they hold, with a row that is as near or nearer; and every result is a row of one of
/// the files, of the type asked for, in the window.
pub proof fn law_query_answers_for_its_window(
    files: Seq<Seq<u8>>,
    target_time: i64,
    tolerance_ns: i64,
    event_type_filter: Option<u16>,
    results: Seq<PersistedEvent>,
    f: int,
    row: PersistedEvent,
    m: int,
)
    requires
        store::is_query(files, target_time, tolerance_ns, event_type_filter, Some(results)),
    ensures
        0 <= f < files.len() && holds_row(files[f], row) && (event_type_filter is None
            || event_type_filter == Some(row.event_type)) && target_time - tolerance_ns
            <= row.event_time <= target_time + tolerance_ns ==> exists|i: int|
            {
                &&& 0 <= i < results.len()
                &&& (#[trigger] results[i]).source_id == row.source_id
                &&& results[i].event_type == row.event_type
                &&& (if results[i].event_time < target_time {
                    target_time - results[i].event_time
                } else {
                    results[i].event_time - target_time
                }) <= (if row.event_time < target_time {
                    target_time - row.event_time
                } else {
                    row.event_time - target_time
                })
            },
        0 <= m < results.len() ==> {
            &&& exists|g: int| 0 <= g < files.len() && holds_row(#[trigger] files[g], results[m])
            &&& event_type_filter is None || event_type_filter == Some(results[m].event_type)
            &&& target_time - tolerance_ns <= results[m].event_time <= target_time + tolerance_ns
        },
{
    let candidates = store::events_of_files(files)->0;
    if 0 <= f < files.len() && holds_row(files[f], row) && (event_type_filter is None
        || event_type_filter == Some(row.event_type)) && target_time - tolerance_ns
        <= row.event_time <= target_time + tolerance_ns {
        law_query_answers_from_the_files(
            files,
            candidates,
            f,
            row,
            target_time,
            tolerance_ns,
            event_type_filter,
            results,
        );
    }
    if 0 <= m < results.len() {
        select::law_results_are_the_nearest_in_the_window(
            candidates,
            target_time,
            tolerance_ns,
            event_type_filter,
            results,
            m,
        );
        law_scan_returns_stored_rows_only(files, candidates, results[m]);
    }
}

/// A store that is opened has nothing pending, lies where it was told to, and knows the
/// vessels and sources of its files, and none without files.
pub proof fn law_opened_stores(
    base_dir: std::path::PathBuf,
    vessels_file: Option<Seq<u8>>,
    sources_file: Option<Seq<u8>>,
    state: store::StoreView,
)
    requires
        store::is_opening(base_dir, vessels_file, sources_file, Some(state)),
    ensures
        state.base_dir == base_dir,
        forall|key: (u32, i64)| !#[trigger] state.buffer.contains_key(key),
        vessels_file is None ==> forall|id: u32| !#[trigger] state.vessels.contains_key(id),
        sources_file is None ==> forall|key: (u16, u32)| !#[trigger] state.sources.contains_key(
            key,
        ),
        state.wf(),
{
}

/// A store that is opened from the registry files of a flush that ended well knows just
/// the vessels and sources that the flushed store knew.
pub proof fn law_reopened_stores_know_the_registry(
    res: flush::Flushed,
    before: store::StoreView,
    partitions: Seq<store::Partition>,
    existing: Seq<Option<Vec<u8>>>,
    base_dir: std::path::PathBuf,
    opened: Option<store::StoreView>,
)
    requires
        flush::is_flush(res, before, partitions, existing),
        res.end is Done,
        store::is_opening(
            base_dir,
            Some(res.files@[partitions.len() as int].bytes@),
            Some(res.files@[partitions.len() as int + 1].bytes@),
            opened,
        ),
    ensures
        opened matches Some(state) && state.vessels == before.vessels && state.sources
            == before.sources,
{
}

} // verus!
