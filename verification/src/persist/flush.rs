//! Flushing the store: from the buffered rows and the files that are there to the
//! files that are to be there.

use vstd::prelude::*;

use super::columnar;
use super::error::PersistError;
use super::event_table;
use super::event_table::PartitionWrite;
use super::merge;
use super::partition;
use super::registry;
use super::sources;
use super::store;
use super::store::EventStore;
use super::vessels;

verus! {

/// A file that is to be written.
pub struct StoredFile {
    /// The path from the base directory, name by name.
    pub path: Vec<String>,
    /// What the file is to hold.
    pub bytes: Vec<u8>,
}

/// How a flush ends.
pub enum FlushEnd {
    /// Every file could be made.
    Done,
    /// The next partition file is there and holds rows of other columns than those
    /// of events, or in a form that is not read.
    Foreign,
    /// The names of the next registry take more bytes than a column of texts can
    /// hold.
    NamesTooLong,
    /// The next file could not be made.
    Failed(PersistError),
}

/// What comes of a flush: the files that are to be written, in this order, and
/// how it ended.
pub struct Flushed {
    pub files: Vec<StoredFile>,
    pub end: FlushEnd,
}

/// The file that is there for a partition, by the partition's place in the flush.
pub open spec fn existing_at(existing: Seq<Option<Vec<u8>>>, i: int) -> Option<Seq<u8>> {
    if 0 <= i < existing.len() {
        columnar::file_bytes(existing[i])
    } else {
        None
    }
}

/// Whether Parquet takes the rows of a partition, merged with those of the file
/// that is there.
pub open spec fn partition_accepted(
    partition: store::Partition,
    existing: Option<Seq<u8>>,
) -> bool {
    event_table::existing_events(existing) matches Some(rows) && columnar::parquet_accepts(
        event_table::event_defs(),
        event_table::event_columns(merge::merged(rows, partition.events@)),
    )
}

/// Whether a file is the new file of a partition: it stands at the partition's
/// path and holds its rows, merged with those of the file that was there.
pub open spec fn is_partition_file(
    file: StoredFile,
    partition: store::Partition,
    existing: Option<Seq<u8>>,
) -> bool {
    &&& crate::broadcast::texts(file.path@) == partition::partition_path_names(
        partition.vessel_id,
        partition.hour,
    )
    &&& partition_accepted(partition, existing)
    &&& event_table::existing_events(existing) matches Some(rows)
    &&& event_table::partition_read(file.bytes@) == event_table::PartitionRead::Events(
        merge::merged(rows, partition.events@),
    )
}

/// The vessels in ascending order.
pub open spec fn vessel_list(state: store::StoreView) -> Seq<u32> {
    registry::ordered_keys(state.vessels, vessels::vessel_rank())
}

/// The names of the vessels in ascending order of the vessels.
pub open spec fn vessel_names(state: store::StoreView) -> Seq<Seq<char>> {
    registry::names_of(state.vessels, vessel_list(state))
}

/// Whether Parquet takes the vessels registry.
pub open spec fn vessels_accepted(state: store::StoreView) -> bool {
    columnar::parquet_accepts(
        vessels::vessel_defs(),
        vessels::vessel_columns(vessel_list(state), vessel_names(state)),
    )
}

/// Whether a file is the file of the vessels registry.
pub open spec fn is_vessels_file(file: StoredFile, state: store::StoreView) -> bool {
    &&& crate::broadcast::texts(file.path@) == seq!["registry"@, "vessels.parquet"@]
    &&& columnar::text_size(vessel_names(state)) <= i32::MAX
    &&& vessels_accepted(state)
    &&& vessels::vessels_in(Some(file.bytes@)) == Some(state.vessels)
}

/// The sources in ascending order.
pub open spec fn source_list(state: store::StoreView) -> Seq<(u16, u32)> {
    registry::ordered_keys(state.sources, sources::source_rank())
}

/// The names of the sources in ascending order of the sources.
pub open spec fn source_names(state: store::StoreView) -> Seq<Seq<char>> {
    registry::names_of(state.sources, source_list(state))
}

/// Whether Parquet takes the sources registry.
pub open spec fn sources_accepted(state: store::StoreView) -> bool {
    columnar::parquet_accepts(
        sources::source_defs(),
        sources::source_columns(source_list(state), source_names(state)),
    )
}

/// Whether a file is the file of the sources registry.
pub open spec fn is_sources_file(file: StoredFile, state: store::StoreView) -> bool {
    &&& crate::broadcast::texts(file.path@) == seq!["registry"@, "sources.parquet"@]
    &&& columnar::text_size(source_names(state)) <= i32::MAX
    &&& sources_accepted(state)
    &&& sources::sources_in(Some(file.bytes@)) == Some(state.sources)
}

/// Whether files are the first ones that a flush writes: those of the
/// partitions, then that of the vessels, then that of the sources.
pub open spec fn are_flush_files(
    files: Seq<StoredFile>,
    state: store::StoreView,
    partitions: Seq<store::Partition>,
    existing: Seq<Option<Vec<u8>>>,
) -> bool {
    let n = partitions.len() as int;
    &&& files.len() <= n + 2
    &&& forall|i: int|
        0 <= i < n && i < files.len() ==> is_partition_file(
            #[trigger] files[i],
            partitions[i],
            existing_at(existing, i),
        )
    &&& files.len() > n ==> is_vessels_file(files[n], state)
    &&& files.len() > n + 1 ==> is_sources_file(files[n + 1], state)
}

/// Whether a flush that has made some files ends in a way.
pub open spec fn ends_in(
    end: FlushEnd,
    files: Seq<StoredFile>,
    state: store::StoreView,
    partitions: Seq<store::Partition>,
    existing: Seq<Option<Vec<u8>>>,
) -> bool {
    let n = partitions.len() as int;
    let at = files.len() as int;
    match end {
        FlushEnd::Done => at == n + 2,
        FlushEnd::Foreign => at < n && event_table::existing_events(
            existing_at(existing, at),
        ) is None,
        FlushEnd::NamesTooLong => {
            ||| at == n && columnar::text_size(vessel_names(state)) > i32::MAX
            ||| at == n + 1 && columnar::text_size(source_names(state)) > i32::MAX
        },
        FlushEnd::Failed(PersistError::Parquet(_)) => {
            ||| at < n && event_table::existing_events(existing_at(existing, at)) is Some
                && !partition_accepted(partitions[at], existing_at(existing, at))
            ||| at == n && columnar::text_size(vessel_names(state)) <= i32::MAX
                && !vessels_accepted(state)
            ||| at == n + 1 && columnar::text_size(source_names(state)) <= i32::MAX
                && !sources_accepted(state)
        },
        FlushEnd::Failed(_) => false,
    }
}

/// What comes of a flush of these partitions, with these files there.
pub open spec fn is_flush(
    res: Flushed,
    state: store::StoreView,
    partitions: Seq<store::Partition>,
    existing: Seq<Option<Vec<u8>>>,
) -> bool {
    &&& are_flush_files(res.files@, state, partitions, existing)
    &&& ends_in(res.end, res.files@, state, partitions, existing)
}

impl EventStore {
    /// Make the Parquet files of all buffered events and of the registry.
    ///
    /// `existing` are the files that are there, each at the place of its path in
    /// [`EventStore::pending_paths`]; the buffered events are merged with their
    /// rows. After flushing, the in-memory buffer is cleared.
    pub fn flush(&mut self, existing: Vec<Option<Vec<u8>>>) -> (res: Flushed)
        requires
            old(self)@.wf(),
        ensures
            final(self)@ == (store::StoreView { buffer: Map::empty(), ..old(self)@ }),
            final(self)@.wf(),
            exists|partitions: Seq<store::Partition>| #[trigger]
                store::drains(old(self)@.buffer, partitions) && is_flush(
                    res,
                    old(self)@,
                    partitions,
                    existing@,
                ),
    {
        let ghost state = self@;
        let partitions = self.take_partitions();
        let mut files: Vec<StoredFile> = Vec::new();
        let mut rest = existing;
        let mut i: usize = 0;
        while i < partitions.len()
            invariant
                state.wf(),
                state == old(self)@,
                self@ == (store::StoreView { buffer: Map::empty(), ..state }),
                store::drains(state.buffer, partitions@),
                i <= partitions@.len(),
                files@.len() == i,
                rest@.len() == existing@.len(),
                forall|k: int| i <= k < rest@.len() ==> #[trigger] rest@[k] == existing@[k],
                are_flush_files(files@, state, partitions@, existing@),
            decreases partitions@.len() - i,
        {
            let mut there: Option<Vec<u8>> = None;
            if i < rest.len() {
                std::mem::swap(&mut there, &mut rest[i]);
            }
            assert(columnar::file_bytes(there) == existing_at(existing@, i as int));
            let part = &partitions[i];
            assert(state.buffer.contains_key(partitions@[i as int].key()));
            match event_table::write_partition(there, part.events.as_slice()) {
                Ok(PartitionWrite::File(bytes)) => {
                    let path = partition::partition_path(part.vessel_id, part.hour);
                    files.push(StoredFile { path, bytes });
                },
                Ok(PartitionWrite::Foreign) => {
                    return Flushed { files, end: FlushEnd::Foreign };
                },
                Ok(PartitionWrite::Nothing) => {},
                Err(e) => {
                    return Flushed { files, end: FlushEnd::Failed(e) };
                },
            }
            i += 1;
        }
        match vessels::write_vessels(self.vessels()) {
            Ok(Some(bytes)) => {
                files.push(StoredFile { path: partition::vessels_path(), bytes });
            },
            Ok(None) => {
                return Flushed { files, end: FlushEnd::NamesTooLong };
            },
            Err(e) => {
                return Flushed { files, end: FlushEnd::Failed(e) };
            },
        }
        match sources::write_sources(self.sources()) {
            Ok(Some(bytes)) => {
                files.push(StoredFile { path: partition::sources_path(), bytes });
            },
            Ok(None) => {
                return Flushed { files, end: FlushEnd::NamesTooLong };
            },
            Err(e) => {
                return Flushed { files, end: FlushEnd::Failed(e) };
            },
        }
        Flushed { files, end: FlushEnd::Done }
    }
}

} // verus!
