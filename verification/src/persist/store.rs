//! The event store: what is buffered, what goes to which file, and what the files
//! answer.

use std::collections::BTreeMap;
use std::path::PathBuf;

use vstd::prelude::*;
use vstd::string::StringExecFns;

use super::columnar;
use super::event_table;
use super::partition;
use super::registry;
use super::row::PersistedEvent;
use super::select;
use super::sources;
use super::vessels;
use crate::context::Context;
use crate::decimal;
use crate::event::Event;

verus! {

broadcast use vstd::laws_cmp::group_laws_cmp;

/// A path of the file system.
#[verifier::external_type_specification]
#[verifier::external_body]
pub struct ExPathBuf(PathBuf);

/// The vessel and the hour of a partition.
pub open spec fn partition_key(row: PersistedEvent) -> (u32, i64) {
    (row.vessel_id, partition::hour_of(row.event_time as int) as i64)
}

/// What an [`EventStore`] holds.
#[verifier::ext_equal]
pub struct StoreView {
    /// Where its files are.
    pub base_dir: PathBuf,
    /// The buffered rows of each partition, in the order in which they came.
    pub buffer: Map<(u32, i64), Seq<PersistedEvent>>,
    /// The names of the known vessels.
    pub vessels: Map<u32, Seq<char>>,
    /// The names of the known sources, by source and vessel.
    pub sources: Map<(u16, u32), Seq<char>>,
}

impl StoreView {
    /// The buffered rows of a partition.
    pub open spec fn buffered(self, key: (u32, i64)) -> Seq<PersistedEvent> {
        if self.buffer.contains_key(key) {
            self.buffer[key]
        } else {
            seq![]
        }
    }

    /// The store with one more row in its buffer. The row's vessel is given a
    /// name if it has none.
    pub open spec fn with_row(self, row: PersistedEvent) -> StoreView {
        StoreView {
            buffer: self.buffer.insert(
                partition_key(row),
                self.buffered(partition_key(row)).push(row),
            ),
            vessels: if self.vessels.contains_key(row.vessel_id) {
                self.vessels
            } else {
                self.vessels.insert(row.vessel_id, default_name(row.vessel_id))
            },
            ..self
        }
    }

    /// The store after a vessel is named.
    pub open spec fn with_vessel(self, vessel_id: u32, name: Seq<char>) -> StoreView {
        StoreView { vessels: self.vessels.insert(vessel_id, name), ..self }
    }

    /// The store after a source is named.
    pub open spec fn with_source(self, source_id: u16, vessel_id: u32, name: Seq<char>) -> StoreView {
        StoreView { sources: self.sources.insert((source_id, vessel_id), name), ..self }
    }

    /// Whether the buffer is in order: there are finitely many partitions, and
    /// under the vessel and hour of each stand rows of that vessel and hour, at
    /// least one; the vessel is known.
    pub open spec fn wf(self) -> bool {
        &&& self.buffer.dom().finite()
        &&& forall|key: (u32, i64)| #[trigger]
            self.buffer.contains_key(key) ==> {
                &&& self.buffer[key].len() > 0
                &&& belong_to(self.buffer[key], key)
                &&& self.vessels.contains_key(key.0)
            }
    }
}

/// Whether all rows belong to one partition.
pub open spec fn belong_to(rows: Seq<PersistedEvent>, key: (u32, i64)) -> bool {
    forall|i: int| 0 <= i < rows.len() ==> partition_key(#[trigger] rows[i]) == key
}

/// The name of a vessel that was never named.
pub open spec fn default_name(vessel_id: u32) -> Seq<char> {
    "vessel_"@ + decimal::decimal(vessel_id as nat)
}

/// How many rows a buffer holds.
pub open spec fn row_total(buffer: Map<(u32, i64), Seq<PersistedEvent>>) -> nat
    decreases buffer.dom().len(),
    when buffer.dom().finite()
{
    if buffer.dom().len() == 0 {
        0
    } else {
        let key = buffer.dom().choose();
        buffer[key].len() + row_total(buffer.remove(key))
    }
}

/// The rows of a partition that are to be written.
pub struct Partition {
    pub vessel_id: u32,
    pub hour: i64,
    pub events: Vec<PersistedEvent>,
}

impl Partition {
    /// The vessel and the hour.
    pub open spec fn key(self) -> (u32, i64) {
        (self.vessel_id, self.hour)
    }
}

/// Whether one partition comes before another: by vessel, then by hour.
pub open spec fn key_before(a: (u32, i64), b: (u32, i64)) -> bool {
    a.0 < b.0 || (a.0 == b.0 && a.1 < b.1)
}

/// Whether partitions are just those of a buffer, in ascending order.
pub open spec fn drains(
    buffer: Map<(u32, i64), Seq<PersistedEvent>>,
    partitions: Seq<Partition>,
) -> bool {
    &&& forall|i: int, j: int|
        0 <= i < j < partitions.len() ==> key_before(
            (#[trigger] partitions[i]).key(),
            (#[trigger] partitions[j]).key(),
        )
    &&& forall|i: int|
        0 <= i < partitions.len() ==> buffer.contains_key((#[trigger] partitions[i]).key())
            && buffer[partitions[i].key()] == partitions[i].events@
    &&& forall|key: (u32, i64)| #[trigger]
        buffer.contains_key(key) ==> exists|i: int|
            0 <= i < partitions.len() && (#[trigger] partitions[i]).key() == key
}

/// Whether paths are those of the files of partitions.
pub open spec fn are_paths(paths: Seq<Vec<String>>, partitions: Seq<Partition>) -> bool {
    &&& paths.len() == partitions.len()
    &&& forall|i: int|
        0 <= i < paths.len() ==> crate::broadcast::texts((#[trigger] paths[i])@)
            == partition::partition_path_names(partitions[i].vessel_id, partitions[i].hour)
}

/// The events of partition files, one file after the other; a file that cannot
/// be read is passed over. `None` if one holds other columns than those of
/// events.
pub open spec fn events_of_files(files: Seq<Seq<u8>>) -> Option<Seq<PersistedEvent>>
    decreases files.len(),
{
    if files.len() == 0 {
        Some(seq![])
    } else {
        match events_of_files(files.drop_last()) {
            None => None,
            Some(events) => match event_table::partition_read(files.last()) {
                event_table::PartitionRead::Events(more) => Some(events + more),
                event_table::PartitionRead::Foreign => None,
                _ => Some(events),
            },
        }
    }
}

/// The contents of files.
pub open spec fn contents(files: Seq<Vec<u8>>) -> Seq<Seq<u8>> {
    files.map_values(|file: Vec<u8>| file@)
}

/// Whether this is what a scan of files returns.
pub open spec fn is_scan(files: Seq<Seq<u8>>, res: Option<Seq<PersistedEvent>>) -> bool {
    res == events_of_files(files)
}

/// Whether this is what a query over files returns.
pub open spec fn is_query(
    files: Seq<Seq<u8>>,
    target_time: i64,
    tolerance_ns: i64,
    event_type_filter: Option<u16>,
    res: Option<Seq<PersistedEvent>>,
) -> bool {
    match (events_of_files(files), res) {
        (Some(candidates), Some(results)) => select::is_selection(
            candidates,
            target_time,
            tolerance_ns,
            event_type_filter,
            results,
        ),
        (None, None) => true,
        _ => false,
    }
}

/// Whether this is what opening a store with registry files comes to.
pub open spec fn is_opening(
    base_dir: PathBuf,
    vessels_file: Option<Seq<u8>>,
    sources_file: Option<Seq<u8>>,
    res: Option<StoreView>,
) -> bool {
    match (vessels::vessels_in(vessels_file), sources::sources_in(sources_file)) {
        (Some(vessels), Some(sources)) => res == Some(
            StoreView { base_dir, buffer: Map::empty(), vessels, sources },
        ),
        _ => res is None,
    }
}

/// The rows in an optional list.
pub open spec fn listed(rows: Option<Vec<PersistedEvent>>) -> Option<Seq<PersistedEvent>> {
    match rows {
        None => None,
        Some(rows) => Some(rows@),
    }
}

/// What an optional store holds.
pub open spec fn opened(store: Option<EventStore>) -> Option<StoreView> {
    match store {
        None => None,
        Some(store) => Some(store@),
    }
}

/// Reads the events of partition files, one after the other. Files that cannot be
/// read are passed over; `None` if one holds other columns than those of events.
pub fn read_events(files: Vec<Vec<u8>>) -> (res: Option<Vec<PersistedEvent>>)
    ensures
        match res {
            Some(events) => events_of_files(contents(files@)) == Some(events@),
            None => events_of_files(contents(files@)) is None,
        },
{
    let ghost all = contents(files@);
    let mut rest = files;
    let mut events: Vec<PersistedEvent> = Vec::new();
    let mut n: usize = 0;
    while n < rest.len()
        invariant
            all == contents(files@),
            n <= rest@.len() == all.len(),
            forall|i: int| n <= i < rest@.len() ==> (#[trigger] rest@[i])@ == all[i],
            events_of_files(all.take(n as int)) == Some(events@),
        decreases rest@.len() - n,
    {
        let mut bytes: Vec<u8> = Vec::new();
        std::mem::swap(&mut bytes, &mut rest[n]);
        assert(bytes@ == all[n as int]);
        assert(all.take(n + 1).drop_last() =~= all.take(n as int));
        match event_table::read_partition(bytes) {
            Ok(Some(more)) => {
                let mut more = more;
                events.append(&mut more);
            },
            Ok(None) => {
                proof {
                    lemma_foreign_stays(all, n + 1);
                }
                return None;
            },
            Err(_) => {},
        }
        n += 1;
    }
    assert(all.take(n as int) =~= all);
    Some(events)
}

/// Once a file holds other columns, no more files help.
proof fn lemma_foreign_stays(files: Seq<Seq<u8>>, n: int)
    requires
        0 <= n <= files.len(),
        events_of_files(files.take(n)) is None,
    ensures
        events_of_files(files) is None,
    decreases files.len() - n,
{
    if n < files.len() {
        assert(files.take(n + 1).drop_last() =~= files.take(n));
        lemma_foreign_stays(files, n + 1);
    } else {
        assert(files.take(n) =~= files);
    }
}

/// The rows of a buffer are those of one partition and those of the others.
pub(crate) proof fn lemma_row_total_remove(
    buffer: Map<(u32, i64), Seq<PersistedEvent>>,
    key: (u32, i64),
)
    requires
        buffer.dom().finite(),
        buffer.contains_key(key),
    ensures
        row_total(buffer) == buffer[key].len() + row_total(buffer.remove(key)),
    decreases buffer.dom().len(),
{
    let chosen = buffer.dom().choose();
    assert(buffer.dom().contains(key));
    if chosen != key {
        let rest = buffer.remove(chosen);
        lemma_row_total_remove(rest, key);
        lemma_row_total_remove(buffer.remove(key), chosen);
        assert(rest.remove(key) =~= buffer.remove(key).remove(chosen));
    }
}

/// How many rows the given partitions of a buffer hold.
spec fn rows_under(
    buffer: Map<(u32, i64), Seq<PersistedEvent>>,
    keys: Seq<(u32, i64)>,
) -> nat
    decreases keys.len(),
{
    if keys.len() == 0 {
        0
    } else {
        rows_under(buffer, keys.drop_last()) + buffer[keys.last()].len()
    }
}

/// A partition that is not asked about may be left out.
proof fn lemma_rows_under_remove(
    buffer: Map<(u32, i64), Seq<PersistedEvent>>,
    keys: Seq<(u32, i64)>,
    key: (u32, i64),
)
    requires
        !keys.contains(key),
    ensures
        rows_under(buffer.remove(key), keys) == rows_under(buffer, keys),
    decreases keys.len(),
{
    if keys.len() > 0 {
        let rest = keys.drop_last();
        assert forall|i: int| 0 <= i < rest.len() implies #[trigger] rest[i] != key by {
            assert(keys[i] != key);
        }
        assert(keys[keys.len() - 1] != key);
        lemma_rows_under_remove(buffer, rest, key);
    }
}

/// The rows of a buffer are those of its partitions.
proof fn lemma_row_total_of_keys(
    buffer: Map<(u32, i64), Seq<PersistedEvent>>,
    keys: Seq<(u32, i64)>,
)
    requires
        buffer.dom().finite(),
        keys.no_duplicates(),
        keys.to_set() == buffer.dom(),
    ensures
        row_total(buffer) == rows_under(buffer, keys),
    decreases keys.len(),
{
    if keys.len() == 0 {
        assert(buffer.dom() =~= Set::empty());
    } else {
        let last = keys.last();
        let rest = keys.drop_last();
        assert(keys[keys.len() - 1] == last);
        assert(keys.to_set().contains(last));
        lemma_row_total_remove(buffer, last);
        assert forall|key: (u32, i64)|
            rest.to_set().contains(key) <==> buffer.remove(last).dom().contains(key) by {
            if rest.contains(key) {
                let i = choose|i: int| 0 <= i < rest.len() && rest[i] == key;
                assert(keys[i] == key);
                assert(keys.to_set().contains(key));
            }
            if buffer.remove(last).dom().contains(key) {
                assert(keys.to_set().contains(key));
                let i = choose|i: int| 0 <= i < keys.len() && keys[i] == key;
                assert(rest[i] == key);
            }
        }
        assert(rest.to_set() =~= buffer.remove(last).dom());
        assert(!rest.contains(last));
        lemma_row_total_of_keys(buffer.remove(last), rest);
        lemma_rows_under_remove(buffer, rest, last);
    }
}

/// More partitions hold no fewer rows.
proof fn lemma_rows_under_grows(
    buffer: Map<(u32, i64), Seq<PersistedEvent>>,
    keys: Seq<(u32, i64)>,
    n: int,
)
    requires
        0 <= n <= keys.len(),
    ensures
        rows_under(buffer, keys.take(n)) <= rows_under(buffer, keys),
    decreases keys.len() - n,
{
    if n < keys.len() {
        lemma_rows_under_grows(buffer, keys, n + 1);
        assert(keys.take(n + 1).drop_last() =~= keys.take(n));
    } else {
        assert(keys.take(n) =~= keys);
    }
}

/// Durable event store backed by Parquet files.
///
/// Events are accumulated in an in-memory buffer partitioned by
/// `(vessel_id, hour_bucket)`. [`EventStore::flush`] hands out the rows of each
/// partition for its Parquet file (where they are merged with any existing rows).
/// The vessels/sources registry names the known entities.
pub struct EventStore {
    base_dir: PathBuf,
    /// Buffered events keyed by `(vessel_id, hour_bucket)`.
    buffer: BTreeMap<(u32, i64), Vec<PersistedEvent>>,
    /// Vessel registry: `vessel_id → name`.
    vessels: BTreeMap<u32, String>,
    /// Source registry: `(source_id, vessel_id) → name`.
    sources: BTreeMap<(u16, u32), String>,
}

impl View for EventStore {
    type V = StoreView;

    closed spec fn view(&self) -> StoreView {
        StoreView {
            base_dir: self.base_dir,
            buffer: self.buffer@.map_values(|rows: Vec<PersistedEvent>| rows@),
            vessels: registry::name_texts(self.vessels@),
            sources: registry::name_texts(self.sources@),
        }
    }
}

impl EventStore {
    /// Open or create an event store rooted at `base_dir`, with the registry that
    /// its files hold.
    ///
    /// Existing event partitions are left untouched (they will be merged with
    /// buffered events on flush). `None` if a registry file holds other columns
    /// than those of the registry.
    pub fn open(
        base_dir: PathBuf,
        vessels_file: Option<Vec<u8>>,
        sources_file: Option<Vec<u8>>,
    ) -> (res: Option<Self>)
        ensures
            match res {
                Some(store) => {
                    &&& store@.wf()
                    &&& store@.base_dir == base_dir
                    &&& store@.buffer == Map::<(u32, i64), Seq<PersistedEvent>>::empty()
                    &&& vessels::vessels_in(columnar::file_bytes(vessels_file)) == Some(
                        store@.vessels,
                    )
                    &&& sources::sources_in(columnar::file_bytes(sources_file)) == Some(
                        store@.sources,
                    )
                },
                None => vessels::vessels_in(columnar::file_bytes(vessels_file)) is None
                    || sources::sources_in(columnar::file_bytes(sources_file)) is None,
            },
            is_opening(
                base_dir,
                columnar::file_bytes(vessels_file),
                columnar::file_bytes(sources_file),
                opened(res),
            ),
    {
        let vessels = match vessels::load_vessels(vessels_file) {
            Some(vessels) => vessels,
            None => return None,
        };
        let sources = match sources::load_sources(sources_file) {
            Some(sources) => sources,
            None => return None,
        };
        let store = EventStore { base_dir, buffer: BTreeMap::new(), vessels, sources };
        assert(store@.buffer =~= Map::<(u32, i64), Seq<PersistedEvent>>::empty());
        Some(store)
    }

    /// Register a vessel name.
    pub fn register_vessel(&mut self, vessel_id: u32, name: &str)
        ensures
            final(self)@ == (StoreView {
                vessels: old(self)@.vessels.insert(vessel_id, name@),
                ..old(self)@
            }),
            final(self)@ == old(self)@.with_vessel(vessel_id, name@),
            old(self)@.wf() ==> final(self)@.wf(),
    {
        self.vessels.insert(vessel_id, name.to_owned());
        assert(self@.vessels =~= old(self)@.vessels.insert(vessel_id, name@));
    }

    /// Register a source name.
    pub fn register_source(&mut self, source_id: u16, vessel_id: u32, name: &str)
        ensures
            final(self)@ == (StoreView {
                sources: old(self)@.sources.insert((source_id, vessel_id), name@),
                ..old(self)@
            }),
            final(self)@ == old(self)@.with_source(source_id, vessel_id, name@),
            old(self)@.wf() ==> final(self)@.wf(),
    {
        self.sources.insert((source_id, vessel_id), name.to_owned());
        assert(self@.sources =~= old(self)@.sources.insert((source_id, vessel_id), name@));
    }

    /// Buffer an event for later persistence.
    ///
    /// The event's fields are combined with the resolved `Context` (typically
    /// obtained from [`crate::EventRouter::handle_event`]) to form a complete
    /// persisted row. A vessel that is not known yet is registered.
    pub fn persist(&mut self, event: &Event, ctx: Context)
        ensures
            final(self)@ == old(self)@.with_row(PersistedEvent::spec_from_event(*event, ctx)),
            old(self)@.wf() ==> final(self)@.wf(),
    {
        let row = PersistedEvent::from_event(event, ctx);
        let key = (row.vessel_id, partition::hour_bucket(row.event_time));
        let mut rows = match self.buffer.remove(&key) {
            Some(rows) => rows,
            None => Vec::new(),
        };
        rows.push(row);
        self.buffer.insert(key, rows);
        if !self.vessels.contains_key(&ctx.vessel_id) {
            let mut name = "vessel_".to_owned();
            decimal::append_decimal(&mut name, ctx.vessel_id as u64);
            self.vessels.insert(ctx.vessel_id, name);
        }
        proof {
            assert(self@.buffer =~= old(self)@.with_row(row).buffer);
            assert(self@.vessels =~= old(self)@.with_row(row).vessels);
        }
    }

    /// Take all buffered events out, partition by partition.
    pub(crate) fn take_partitions(&mut self) -> (res: Vec<Partition>)
        ensures
            final(self)@ == (StoreView { buffer: Map::empty(), ..old(self)@ }),
            drains(old(self)@.buffer, res@),
    {
        let mut partitions: Vec<Partition> = Vec::new();
        let iter = self.buffer.iter();
        let ghost entries = vstd::std_specs::iter::IteratorSpec::remaining(&iter);
        for entry in it: iter
            invariant
                it.seq() == entries,
                partitions@.len() == it.index(),
                forall|i: int|
                    0 <= i < partitions@.len() ==> (#[trigger] partitions@[i]).key()
                        == *entries[i].0 && partitions@[i].events@ == entries[i].1@,
        {
            let mut events: Vec<PersistedEvent> = Vec::new();
            events.extend_from_slice(entry.1.as_slice());
            assert(events@ =~= entry.1@);
            partitions.push(Partition { vessel_id: entry.0.0, hour: entry.0.1, events });
        }
        proof {
            lemma_drains(self.buffer, entries, partitions@);
        }
        self.buffer = BTreeMap::new();
        assert(self@.buffer =~= Map::<(u32, i64), Seq<PersistedEvent>>::empty());
        partitions
    }

    /// The paths of the partition files that a flush would write, from the base
    /// directory, name by name, in the order in which it would write them.
    pub fn pending_paths(&self) -> (res: Vec<Vec<String>>)
        ensures
            exists|partitions: Seq<Partition>| #[trigger]
                drains(self@.buffer, partitions) && are_paths(res@, partitions),
    {
        let mut paths: Vec<Vec<String>> = Vec::new();
        let iter = self.buffer.iter();
        let ghost entries = vstd::std_specs::iter::IteratorSpec::remaining(&iter);
        let ghost partitions = Seq::new(
            entries.len(),
            |i: int|
                Partition {
                    vessel_id: entries[i].0.0,
                    hour: entries[i].0.1,
                    events: *entries[i].1,
                },
        );
        for entry in it: iter
            invariant
                it.seq() == entries,
                partitions.len() == entries.len(),
                forall|i: int|
                    0 <= i < entries.len() ==> (#[trigger] partitions[i]).key() == *entries[i].0,
                paths@.len() == it.index(),
                forall|i: int|
                    0 <= i < paths@.len() ==> crate::broadcast::texts((#[trigger] paths@[i])@)
                        == partition::partition_path_names(
                        partitions[i].vessel_id,
                        partitions[i].hour,
                    ),
        {
            assert(partitions[it.index() as int].key() == *entry.0);
            paths.push(partition::partition_path(entry.0.0, entry.0.1));
        }
        proof {
            lemma_drains(self.buffer, entries, partitions);
            assert(drains(self@.buffer, partitions));
            assert(are_paths(paths@, partitions));
        }
        paths
    }

    /// Return the number of buffered (not yet flushed) events.
    pub fn pending_count(&self) -> (res: usize)
        requires
            row_total(self@.buffer) <= usize::MAX,
        ensures
            res == row_total(self@.buffer),
    {
        self.checked_pending_count().unwrap()
    }

    /// Return the number of buffered (not yet flushed) events; `None` if a `usize`
    /// cannot hold it.
    pub fn checked_pending_count(&self) -> (res: Option<usize>)
        ensures
            match res {
                Some(count) => count == row_total(self@.buffer),
                None => row_total(self@.buffer) > usize::MAX,
            },
    {
        let mut total: usize = 0;
        let iter = self.buffer.iter();
        let ghost entries = vstd::std_specs::iter::IteratorSpec::remaining(&iter);
        let ghost keys = entries.map_values(|kv: (&(u32, i64), &Vec<PersistedEvent>)| *kv.0);
        let ghost buffer = self@.buffer;
        proof {
            lemma_keys_of_entries(self.buffer, entries);
            lemma_row_total_of_keys(buffer, keys);
        }
        for entry in it: iter
            invariant
                it.seq() == entries,
                keys == entries.map_values(|kv: (&(u32, i64), &Vec<PersistedEvent>)| *kv.0),
                forall|i: int|
                    0 <= i < entries.len() ==> buffer[*(#[trigger] entries[i]).0]
                        == entries[i].1@,
                buffer == self@.buffer,
                row_total(buffer) == rows_under(buffer, keys),
                total == rows_under(buffer, keys.take(it.index() as int)),
        {
            proof {
                let n = it.index() as int;
                lemma_rows_under_grows(buffer, keys, n + 1);
                assert(keys.take(n + 1).drop_last() =~= keys.take(n));
                assert(keys.take(n + 1).last() == *entries[n].0);
            }
            total = match total.checked_add(entry.1.len()) {
                Some(sum) => sum,
                None => return None,
            };
        }
        assert(keys.take(keys.len() as int) =~= keys);
        Some(total)
    }

    /// Return the base directory of this store.
    pub fn base_dir(&self) -> (res: &PathBuf)
        ensures
            *res == self@.base_dir,
    {
        &self.base_dir
    }

    /// Query the latest reading per `(source_id, event_type)` within
    /// `±tolerance_ns` of `target_time`, from the partition files of all vessels
    /// that [`partition::window_names`] gives.
    ///
    /// Since sources don't share a wall clock, this finds the nearest reading
    /// within the window rather than exact-timestamp equality.
    ///
    /// If `event_type_filter` is `Some`, only events of that type are
    /// considered.
    ///
    /// Buffered events are not among the answers; flush them to their files
    /// first. `None` if a file holds other columns than those of events.
    pub fn query_latest_within_tolerance(
        &self,
        files: Vec<Vec<u8>>,
        target_time: i64,
        tolerance_ns: i64,
        event_type_filter: Option<u16>,
    ) -> (res: Option<Vec<PersistedEvent>>)
        ensures
            match res {
                Some(results) => events_of_files(contents(files@)) matches Some(candidates)
                    && select::is_selection(
                    candidates,
                    target_time,
                    tolerance_ns,
                    event_type_filter,
                    results@,
                ),
                None => events_of_files(contents(files@)) is None,
            },
            is_query(
                contents(files@),
                target_time,
                tolerance_ns,
                event_type_filter,
                listed(res),
            ),
    {
        match read_events(files) {
            Some(candidates) => Some(
                select::select_latest_within_tolerance(
                    candidates,
                    target_time,
                    tolerance_ns,
                    event_type_filter,
                ),
            ),
            None => None,
        }
    }

    /// Read all persisted events (full scan) from the partition files. `None` if
    /// one holds other columns than those of events.
    pub fn read_all(&self, files: Vec<Vec<u8>>) -> (res: Option<Vec<PersistedEvent>>)
        ensures
            match res {
                Some(events) => events_of_files(contents(files@)) == Some(events@),
                None => events_of_files(contents(files@)) is None,
            },
            is_scan(contents(files@), listed(res)),
    {
        read_events(files)
    }

    /// Return a reference to the vessels registry.
    pub fn vessels(&self) -> (res: &BTreeMap<u32, String>)
        ensures
            registry::name_texts(res@) == self@.vessels,
    {
        &self.vessels
    }

    /// Return a reference to the sources registry.
    pub fn sources(&self) -> (res: &BTreeMap<(u16, u32), String>)
        ensures
            registry::name_texts(res@) == self@.sources,
    {
        &self.sources
    }
}

/// The keys of the entries of a buffer are those of its partitions, each once.
proof fn lemma_keys_of_entries(
    buffer: BTreeMap<(u32, i64), Vec<PersistedEvent>>,
    entries: Seq<(&(u32, i64), &Vec<PersistedEvent>)>,
)
    requires
        forall|i: int|
            0 <= i < entries.len() ==> buffer@.contains_key(*(#[trigger] entries[i]).0)
                && buffer@[*entries[i].0] == *entries[i].1,
        forall|key: (u32, i64)| #[trigger]
            buffer@.contains_key(key) ==> entries.contains((&key, &buffer@[key])),
        vstd::std_specs::btree::increasing_seq(
            entries.map_values(|kv: (&(u32, i64), &Vec<PersistedEvent>)| *kv.0),
        ),
    ensures
        ({
            let keys = entries.map_values(|kv: (&(u32, i64), &Vec<PersistedEvent>)| *kv.0);
            let rows = buffer@.map_values(|rows: Vec<PersistedEvent>| rows@);
            &&& keys.no_duplicates()
            &&& keys.to_set() == rows.dom()
            &&& rows.dom().finite()
            &&& forall|i: int|
                0 <= i < entries.len() ==> rows[*(#[trigger] entries[i]).0] == entries[i].1@
        }),
{
    let keys = entries.map_values(|kv: (&(u32, i64), &Vec<PersistedEvent>)| *kv.0);
    let rows = buffer@.map_values(|rows: Vec<PersistedEvent>| rows@);
    assert forall|i: int, j: int| 0 <= i < j < keys.len() implies keys[i] != keys[j] by {
        assert(vstd::std_specs::cmp::OrdSpec::cmp_spec(&keys[i], &keys[j]) is Less);
    }
    assert forall|key: (u32, i64)| keys.to_set().contains(key) <==> rows.dom().contains(key) by {
        if buffer@.contains_key(key) {
            let i = choose|i: int| 0 <= i < entries.len() && entries[i] == (&key, &buffer@[key]);
            assert(keys[i] == key);
        }
        if keys.contains(key) {
            let i = choose|i: int| 0 <= i < keys.len() && keys[i] == key;
            assert(buffer@.contains_key(*entries[i].0));
        }
    }
    assert(keys.to_set() =~= rows.dom());
    assert(rows.dom() =~= buffer@.dom());
    assert forall|i: int| 0 <= i < entries.len() implies rows[*(#[trigger] entries[i]).0]
        == entries[i].1@ by {
        assert(buffer@.contains_key(*entries[i].0));
    }
}

/// The entries of a buffer, taken one by one, are its partitions.
proof fn lemma_drains(
    buffer: BTreeMap<(u32, i64), Vec<PersistedEvent>>,
    entries: Seq<(&(u32, i64), &Vec<PersistedEvent>)>,
    partitions: Seq<Partition>,
)
    requires
        partitions.len() == entries.len(),
        forall|i: int|
            0 <= i < entries.len() ==> (#[trigger] partitions[i]).key() == *entries[i].0
                && partitions[i].events@ == entries[i].1@,
        forall|i: int|
            0 <= i < entries.len() ==> buffer@.contains_key(*(#[trigger] entries[i]).0)
                && buffer@[*entries[i].0] == *entries[i].1,
        forall|key: (u32, i64)| #[trigger]
            buffer@.contains_key(key) ==> entries.contains((&key, &buffer@[key])),
        vstd::std_specs::btree::increasing_seq(
            entries.map_values(|kv: (&(u32, i64), &Vec<PersistedEvent>)| *kv.0),
        ),
    ensures
        drains(buffer@.map_values(|rows: Vec<PersistedEvent>| rows@), partitions),
{
    let keys = entries.map_values(|kv: (&(u32, i64), &Vec<PersistedEvent>)| *kv.0);
    let rows = buffer@.map_values(|rows: Vec<PersistedEvent>| rows@);
    assert forall|i: int, j: int| 0 <= i < j < partitions.len() implies key_before(
        (#[trigger] partitions[i]).key(),
        (#[trigger] partitions[j]).key(),
    ) by {
        assert(vstd::std_specs::cmp::OrdSpec::cmp_spec(&keys[i], &keys[j]) is Less);
    }
    assert forall|key: (u32, i64)| #[trigger] rows.contains_key(key) implies exists|i: int|
        0 <= i < partitions.len() && (#[trigger] partitions[i]).key() == key by {
        let i = choose|i: int| 0 <= i < entries.len() && entries[i] == (&key, &buffer@[key]);
        assert(partitions[i].key() == key);
    }
    assert forall|i: int| 0 <= i < partitions.len() implies rows.contains_key(
        (#[trigger] partitions[i]).key(),
    ) && rows[partitions[i].key()] == partitions[i].events@ by {
        assert(buffer@.contains_key(*entries[i].0));
    }
}

/// A persisted event is filed under the vessel of its context and the hour of its time:
/// there its row comes behind those that are pending, and carries the fields of the event
/// and of the context. The other partitions and the sources are as they were, and so are
/// the vessels, but for the event's own, which is given a name if it has none.
pub proof fn law_persisted_events_are_filed(state: StoreView, event: Event, ctx: Context) -> (hour:
    i64)
    ensures
        hour * 3_600_000_000_000 <= event.event_time < (hour + 1) * 3_600_000_000_000,
        ({
            let after = state.with_row(PersistedEvent::spec_from_event(event, ctx));
            let key = (ctx.vessel_id, hour);
            &&& after.buffer.contains_key(key)
            &&& after.buffer[key].len() > 0
            &&& after.buffer[key].drop_last() == (if state.buffer.contains_key(key) {
                state.buffer[key]
            } else {
                seq![]
            })
            &&& after.buffer[key].last().vessel_id == ctx.vessel_id
            &&& after.buffer[key].last().event_type == event.event_type
            &&& after.buffer[key].last().event_time == event.event_time
            &&& after.buffer[key].last().source_id == event.source_id
            &&& after.buffer[key].last().seq == event.seq
            &&& after.buffer[key].last().fix_time == ctx.fix_time
            &&& after.buffer[key].last().lat_e7 == ctx.lat_e7
            &&& after.buffer[key].last().lon_e7 == ctx.lon_e7
            &&& after.buffer[key].last().hacc_cm == ctx.hacc_cm
            &&& after.buffer[key].last().clock_quality == ctx.clock_quality
            &&& after.buffer.remove(key) == state.buffer.remove(key)
            &&& after.vessels == (if state.vessels.contains_key(ctx.vessel_id) {
                state.vessels
            } else {
                state.vessels.insert(
                    ctx.vessel_id,
                    "vessel_"@ + decimal::decimal(ctx.vessel_id as nat),
                )
            })
            &&& after.sources == state.sources
            &&& after.base_dir == state.base_dir
        }),
{
    let row = PersistedEvent::spec_from_event(event, ctx);
    let key = partition_key(row);
    let after = state.with_row(row);
    partition::law_hours_have_3600_seconds(
        event.event_time as int,
        partition::hour_of(event.event_time as int),
    );
    assert(after.buffer[key].drop_last() =~= state.buffered(key));
    assert(after.buffer.remove(key) =~= state.buffer.remove(key));
    key.1
}

/// Scanning one file more, its events come behind those of the files before it; a file
/// that cannot be read adds nothing, and one of other columns leaves no answer.
pub proof fn law_scan_adds_a_file(
    files: Seq<Seq<u8>>,
    file: Seq<u8>,
    events: Seq<PersistedEvent>,
)
    requires
        events_of_files(files) == Some(events),
    ensures
        event_table::partition_read(file) matches event_table::PartitionRead::Events(more)
            ==> events_of_files(files.push(file)) == Some(events + more),
        event_table::partition_read(file) is Foreign ==> events_of_files(files.push(file)) is None,
        event_table::partition_read(file) is Unreadable || event_table::partition_read(
            file,
        ) is Damaged || event_table::partition_read(file) is Broken ==> events_of_files(
            files.push(file),
        ) == Some(events),
        events_of_files(Seq::empty()) == Some(Seq::<PersistedEvent>::empty()),
{
    assert(files.push(file).drop_last() =~= files);
}

/// The contents of files are those of each, at its place.
pub proof fn law_contents_are_in_place(files: Seq<Vec<u8>>, i: int)
    requires
        0 <= i < files.len(),
    ensures
        contents(files).len() == files.len(),
        contents(files)[i] == files[i]@,
{
}

/// How many rows are pending: none in an empty buffer, and with a partition more, the rows
/// of that partition more.
pub proof fn law_rows_are_counted_by_partition(
    buffer: Map<(u32, i64), Seq<PersistedEvent>>,
    key: (u32, i64),
    rows: Seq<PersistedEvent>,
)
    requires
        buffer.dom().finite(),
        !buffer.contains_key(key),
    ensures
        row_total(Map::<(u32, i64), Seq<PersistedEvent>>::empty()) == 0,
        row_total(buffer.insert(key, rows)) == row_total(buffer) + rows.len(),
{
    let more = buffer.insert(key, rows);
    lemma_row_total_remove(more, key);
    assert(more.remove(key) =~= buffer);
}

/// A flush hands the partitions out in ascending order of their vessels and, for the same
/// vessel, of their hours.
pub proof fn law_partitions_ascend(
    buffer: Map<(u32, i64), Seq<PersistedEvent>>,
    partitions: Seq<Partition>,
    i: int,
    j: int,
)
    requires
        drains(buffer, partitions),
        0 <= i < j < partitions.len(),
    ensures
        partitions[i].vessel_id <= partitions[j].vessel_id,
        partitions[i].vessel_id == partitions[j].vessel_id ==> partitions[i].hour
            < partitions[j].hour,
        buffer.contains_key((partitions[i].vessel_id, partitions[i].hour)),
        buffer[(partitions[i].vessel_id, partitions[i].hour)] == partitions[i].events@,
{
    assert(key_before(partitions[i].key(), partitions[j].key()));
    assert(buffer.contains_key(partitions[i].key()));
}

/// The pending paths are those of the partitions that a flush hands out, each at the place
/// of its partition.
pub proof fn law_pending_paths_are_in_place(
    paths: Seq<Vec<String>>,
    partitions: Seq<Partition>,
    i: int,
)
    requires
        are_paths(paths, partitions),
        0 <= i < partitions.len(),
    ensures
        paths.len() == partitions.len(),
        crate::broadcast::texts(paths[i]@) == seq![
            "data"@,
            "vessel="@ + decimal::decimal(partitions[i].vessel_id as nat),
            "hour="@ + decimal::signed_decimal(partitions[i].hour as int),
            "events.parquet"@,
        ],
{
    partition::law_partition_paths(partitions[i].vessel_id, partitions[i].hour);
}

/// Naming a vessel gives it that name, in place of the one that it had, and changes nothing
/// else: no other vessel, no source, and nothing that is pending.
pub proof fn law_named_vessels(state: StoreView, vessel_id: u32, name: Seq<char>, other: u32)
    ensures
        state.with_vessel(vessel_id, name).vessels.contains_key(vessel_id),
        state.with_vessel(vessel_id, name).vessels[vessel_id] == name,
        other != vessel_id ==> state.with_vessel(vessel_id, name).vessels.contains_key(other)
            == state.vessels.contains_key(other),
        other != vessel_id ==> state.with_vessel(vessel_id, name).vessels[other]
            == state.vessels[other],
        state.with_vessel(vessel_id, name).sources == state.sources,
        state.with_vessel(vessel_id, name).buffer == state.buffer,
        state.with_vessel(vessel_id, name).base_dir == state.base_dir,
{
}

/// Naming a source of a vessel gives it that name, in place of the one that it had, and
/// changes nothing else: neither the same source of another vessel, nor another source, nor
/// a vessel, nor anything that is pending.
pub proof fn law_named_sources(
    state: StoreView,
    source_id: u16,
    vessel_id: u32,
    name: Seq<char>,
    other: (u16, u32),
)
    ensures
        state.with_source(source_id, vessel_id, name).sources.contains_key((source_id, vessel_id)),
        state.with_source(source_id, vessel_id, name).sources[(source_id, vessel_id)] == name,
        other != (source_id, vessel_id) ==> state.with_source(
            source_id,
            vessel_id,
            name,
        ).sources.contains_key(other) == state.sources.contains_key(other),
        other != (source_id, vessel_id) ==> state.with_source(
            source_id,
            vessel_id,
            name,
        ).sources[other] == state.sources[other],
        state.with_source(source_id, vessel_id, name).vessels == state.vessels,
        state.with_source(source_id, vessel_id, name).buffer == state.buffer,
        state.with_source(source_id, vessel_id, name).base_dir == state.base_dir,
{
}

} // verus!
