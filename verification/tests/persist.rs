//! The event store, over a disk that is held in memory.

use std::collections::{BTreeMap, BTreeSet};
use std::path::PathBuf;

use fleet_midi::persist::partition::{
    hour_bucket, is_parquet_file, partition_path, sources_path, vessels_path, window_names,
    NS_PER_HOUR,
};
use fleet_midi::persist::persisted_event_types::{BITE_TRIGGER, SCALAR_READING};
use fleet_midi::persist::{
    EventStore, FlushEnd, PersistError, PersistedEvent, DEFAULT_TOLERANCE_NS,
};
use fleet_midi::{decode_event, encode_event, Context, Event};

/// Files by the names on their paths.
struct Disk {
    files: BTreeMap<Vec<String>, Vec<u8>>,
}

impl Disk {
    fn new() -> Self {
        Disk { files: BTreeMap::new() }
    }

    fn has(&self, path: &Vec<String>) -> bool {
        self.files.contains_key(path)
    }

    fn open(&self) -> EventStore {
        let vessels = self.files.get(&vessels_path()).cloned();
        let sources = self.files.get(&sources_path()).cloned();
        EventStore::open(PathBuf::from("/data/fleet"), vessels, sources).unwrap()
    }

    fn flush(&mut self, store: &mut EventStore) -> Result<(), PersistError> {
        let existing =
            store.pending_paths().iter().map(|path| self.files.get(path).cloned()).collect();
        let flushed = store.flush(existing);
        for file in flushed.files {
            self.files.insert(file.path, file.bytes);
        }
        match flushed.end {
            FlushEnd::Done => Ok(()),
            FlushEnd::Failed(e) => Err(e),
            FlushEnd::Foreign => panic!("other columns in a partition file"),
            FlushEnd::NamesTooLong => panic!("names too long"),
        }
    }

    fn query(
        &self,
        store: &EventStore,
        target_time: i64,
        tolerance_ns: i64,
        event_type_filter: Option<u16>,
    ) -> Vec<PersistedEvent> {
        let mut vessel_dirs: BTreeSet<String> = BTreeSet::new();
        for path in self.files.keys() {
            if path[0] == "data" {
                vessel_dirs.insert(path[1].clone());
            }
        }
        let mut files = Vec::new();
        for vessel in vessel_dirs {
            for names in window_names(target_time, tolerance_ns) {
                let mut path = vec!["data".to_string(), vessel.clone()];
                path.extend(names);
                if let Some(bytes) = self.files.get(&path) {
                    files.push(bytes.clone());
                }
            }
        }
        store
            .query_latest_within_tolerance(files, target_time, tolerance_ns, event_type_filter)
            .unwrap()
    }

    fn read_all(&self, store: &EventStore) -> Vec<PersistedEvent> {
        let mut files = Vec::new();
        for (path, bytes) in &self.files {
            if path[0] == "data" && is_parquet_file(path.last().unwrap()) {
                files.push(bytes.clone());
            }
        }
        store.read_all(files).unwrap()
    }
}

/// Convenience: encode → decode → persist a single event, verifying the
/// binary round-trip along the way.
fn encode_decode_persist(store: &mut EventStore, event: &Event, ctx: Context) -> PersistedEvent {
    let bytes = encode_event(event);
    let decoded = decode_event(&bytes).expect("decode should succeed");
    assert_eq!(decoded, *event, "encode/decode round-trip");
    store.persist(&decoded, ctx);
    PersistedEvent::from_event(&decoded, ctx)
}

#[test]
fn round_trip_scalar_reading_all_fields_preserved() {
    let mut dir = Disk::new();
    let mut store = dir.open();

    let base_time: i64 = 1_000_000_000_000_000_000;
    let ctx = Context::new(42, base_time, 600_000_000, -1_200_000_000, 150, 3);

    let mut ev = Event::new(SCALAR_READING, base_time + 100_000, 7, 42);
    ev.set_payload(&[0xDE, 0xAD, 0xBE, 0xEF]); // temperature bytes, etc.

    let expected = encode_decode_persist(&mut store, &ev, ctx);
    dir.flush(&mut store).unwrap();
    assert_eq!(store.pending_count(), 0);

    let all = dir.read_all(&store);
    assert_eq!(all.len(), 1);
    assert_eq!(all[0], expected);
    // Verify every field individually for clarity.
    assert_eq!(all[0].vessel_id, 42);
    assert_eq!(all[0].event_type, SCALAR_READING);
    assert_eq!(all[0].event_time, base_time + 100_000);
    assert_eq!(all[0].source_id, 7);
    assert_eq!(all[0].seq, 42);
    assert_eq!(all[0].fix_time, ctx.fix_time);
    assert_eq!(all[0].lat_e7, ctx.lat_e7);
    assert_eq!(all[0].lon_e7, ctx.lon_e7);
    assert_eq!(all[0].hacc_cm, ctx.hacc_cm);
    assert_eq!(all[0].clock_quality, ctx.clock_quality);
}

#[test]
fn round_trip_bite_trigger() {
    let mut dir = Disk::new();
    let mut store = dir.open();

    let base_time: i64 = 2_000_000_000_000_000_000;
    let ctx = Context::new(7, base_time, -350_000_000, 1_800_000_000, 300, 2);

    let ev = Event::new(BITE_TRIGGER, base_time + 50_000, 3, 1);
    let expected = encode_decode_persist(&mut store, &ev, ctx);
    dir.flush(&mut store).unwrap();

    let all = dir.read_all(&store);
    assert_eq!(all, vec![expected]);
}

#[test]
fn round_trip_multiple_events_multiple_sources() {
    let mut dir = Disk::new();
    let mut store = dir.open();

    let base_time: i64 = 1_000_000_000_000_000_000;
    let ctx = Context::new(1, base_time, 500_000_000, -1_000_000_000, 100, 3);

    let mut events = Vec::new();
    for i in 0..10u32 {
        let mut ev = Event::new(SCALAR_READING, base_time + i as i64 * 1_000_000, (i % 3) as u16, i);
        ev.set_payload(&[(i % 256) as u8]);
        events.push(ev);
    }

    let mut expected_rows = Vec::new();
    for ev in &events {
        let bytes = encode_event(ev);
        let decoded = decode_event(&bytes).unwrap();
        assert_eq!(&decoded, ev);
        store.persist(&decoded, ctx);
        expected_rows.push(PersistedEvent::from_event(&decoded, ctx));
    }
    dir.flush(&mut store).unwrap();

    let mut all = dir.read_all(&store);
    all.sort_by_key(|e| e.seq);
    assert_eq!(all.len(), expected_rows.len());
    for (a, b) in all.iter().zip(&expected_rows) {
        assert_eq!(a, b);
    }
}

// -----------------------------------------------------------------------
// Tolerance-window query
// -----------------------------------------------------------------------

#[test]
fn tolerance_window_query_finds_closest_per_source() {
    let mut dir = Disk::new();
    let mut store = dir.open();

    // Use a realistic GPS-era timestamp.
    let t: i64 = 1_000_000_000_000_000_000;
    let tol = DEFAULT_TOLERANCE_NS; // ±2s

    let ctx = Context::new(1, t, 600_000_000, -1_200_000_000, 150, 3);

    // Source 1: three readings — T+0.5s (closest), T-1s (farther),
    // T-3s (outside window).
    let s1_closest = Event::new(SCALAR_READING, t + 500_000_000, 1, 10);
    let s1_far = Event::new(SCALAR_READING, t - 1_000_000_000, 1, 20);
    let s1_outside = Event::new(SCALAR_READING, t - 3_000_000_000, 1, 30);

    // Source 2: bite triggers — T-2s (at boundary), T+2s (at boundary,
    // equidistant but later), T+2s+1ns (just outside).
    let s2_lo = Event::new(BITE_TRIGGER, t - 2_000_000_000, 2, 100);
    let s2_hi = Event::new(BITE_TRIGGER, t + 2_000_000_000, 2, 200);
    let s2_outside = Event::new(BITE_TRIGGER, t + 2_000_000_001, 2, 300);

    // Source 3: exactly at negative boundary (T-2s), and 1ns beyond it.
    let s3_boundary = Event::new(SCALAR_READING, t - 2_000_000_000, 3, 1);
    let s3_outside = Event::new(SCALAR_READING, t - 2_000_000_001, 3, 2);

    for ev in &[
        &s1_closest, &s1_far, &s1_outside,
        &s2_lo, &s2_hi, &s2_outside,
        &s3_boundary, &s3_outside,
    ] {
        // Encode/decode to verify the real wire path.
        let bytes = encode_event(ev);
        let decoded = decode_event(&bytes).unwrap();
        assert_eq!(decoded, **ev);
        store.persist(&decoded, ctx);
    }
    dir.flush(&mut store).unwrap();

    let results = dir.query(&store, t, tol, None);

    // Exactly 3 (source_id, event_type) groups should be represented.
    assert_eq!(results.len(), 3, "expected one result per source/type group");

    // Source 1 SCALAR_READING → T+0.5s (closest within window).
    let r1 = results.iter().find(|e| e.source_id == 1).unwrap();
    assert_eq!(r1.event_time, t + 500_000_000);
    assert_eq!(r1.seq, 10);
    assert_eq!(r1.event_type, SCALAR_READING);

    // Source 2 BITE_TRIGGER → T+2s wins tie over T-2s (later event_time).
    let r2 = results.iter().find(|e| e.source_id == 2).unwrap();
    assert_eq!(r2.event_time, t + 2_000_000_000);
    assert_eq!(r2.seq, 200);
    assert_eq!(r2.event_type, BITE_TRIGGER);

    // Source 3 SCALAR_READING → T-2s (at boundary, included).
    let r3 = results.iter().find(|e| e.source_id == 3).unwrap();
    assert_eq!(r3.event_time, t - 2_000_000_000);
    assert_eq!(r3.seq, 1);
}

#[test]
fn tolerance_boundary_is_inclusive() {
    // Isolated boundary check: the exact ±tolerance timestamps must be
    // included, and 1ns beyond must be excluded.
    let mut dir = Disk::new();
    let mut store = dir.open();

    let t: i64 = 5_000_000_000_000_000_000;
    let tol: i64 = 2_000_000_000;
    let ctx = Context::new(1, t, 0, 0, 0, 0);

    // Exactly at +tolerance — should be included.
    let at_pos_boundary = Event::new(SCALAR_READING, t + tol, 1, 1);
    // Exactly at -tolerance — should be included.
    let at_neg_boundary = Event::new(SCALAR_READING, t - tol, 2, 1);
    // 1ns beyond +tolerance — should be excluded.
    let past_pos = Event::new(SCALAR_READING, t + tol + 1, 3, 1);
    // 1ns beyond -tolerance — should be excluded.
    let past_neg = Event::new(SCALAR_READING, t - tol - 1, 4, 1);

    for ev in &[&at_pos_boundary, &at_neg_boundary, &past_pos, &past_neg] {
        let bytes = encode_event(ev);
        let decoded = decode_event(&bytes).unwrap();
        store.persist(&decoded, ctx);
    }
    dir.flush(&mut store).unwrap();

    let results = dir.query(&store, t, tol, None);

    // Sources 1 and 2 (at boundary) are in; sources 3 and 4 (past) are out.
    let returned_sources: Vec<u16> = results.iter().map(|e| e.source_id).collect();
    assert!(returned_sources.contains(&1), "source at +boundary must be included");
    assert!(returned_sources.contains(&2), "source at -boundary must be included");
    assert!(!returned_sources.contains(&3), "source past +boundary must be excluded");
    assert!(!returned_sources.contains(&4), "source past -boundary must be excluded");
    assert_eq!(results.len(), 2);
}

#[test]
fn tolerance_query_with_event_type_filter() {
    let mut dir = Disk::new();
    let mut store = dir.open();

    let t: i64 = 1_000_000_000_000_000_000;
    let ctx = Context::new(1, t, 0, 0, 0, 0);

    // Same source, different event types at the same time.
    let scalar = Event::new(SCALAR_READING, t, 5, 1);
    let bite = Event::new(BITE_TRIGGER, t, 5, 2);

    for ev in &[&scalar, &bite] {
        let bytes = encode_event(ev);
        let decoded = decode_event(&bytes).unwrap();
        store.persist(&decoded, ctx);
    }
    dir.flush(&mut store).unwrap();

    let all = dir.query(&store, t, 1_000_000, None);
    assert_eq!(all.len(), 2, "both event types without filter");

    let only_scalar = dir.query(&store, t, 1_000_000, Some(SCALAR_READING));
    assert_eq!(only_scalar.len(), 1);
    assert_eq!(only_scalar[0].event_type, SCALAR_READING);

    let only_bite = dir.query(&store, t, 1_000_000, Some(BITE_TRIGGER));
    assert_eq!(only_bite.len(), 1);
    assert_eq!(only_bite[0].event_type, BITE_TRIGGER);
}

#[test]
fn empty_query_returns_empty_vec() {
    let dir = Disk::new();
    let store = dir.open();
    let results = dir.query(&store, 0, DEFAULT_TOLERANCE_NS, None);
    assert!(results.is_empty());
}

// -----------------------------------------------------------------------
// Partitioning: events go to the right (vessel, hour) files
// -----------------------------------------------------------------------

#[test]
fn events_partitioned_by_vessel_and_hour() {
    let mut dir = Disk::new();
    let mut store = dir.open();

    let t: i64 = 1_000_000_000_000_000_000;
    let ctx_a = Context::new(1, t, 100, 200, 10, 1);
    let ctx_b = Context::new(2, t, 300, 400, 20, 2);

    // Same hour, two vessels → two partition files.
    store.persist(&Event::new(SCALAR_READING, t, 1, 1), ctx_a);
    store.persist(&Event::new(SCALAR_READING, t + 10, 2, 1), ctx_b);

    // Different hour (next hour boundary).
    let t2 = t + NS_PER_HOUR + 1;
    let ctx_a2 = Context::new(1, t2, 100, 200, 10, 1);
    store.persist(&Event::new(SCALAR_READING, t2, 1, 2), ctx_a2);

    dir.flush(&mut store).unwrap();

    // Verify file paths.
    let bucket1 = hour_bucket(t);
    let bucket2 = hour_bucket(t2);

    let path_a1 = partition_path(1, bucket1);
    let path_b1 = partition_path(2, bucket1);
    let path_a2 = partition_path(1, bucket2);

    assert!(dir.has(&path_a1), "vessel=1, hour={} should exist", bucket1);
    assert!(dir.has(&path_b1), "vessel=2, hour={} should exist", bucket1);
    assert!(dir.has(&path_a2), "vessel=1, hour={} should exist", bucket2);
    assert!(path_b1 != path_a1, "different vessels get different files");
}

#[test]
fn flush_merges_into_existing_partition() {
    let mut dir = Disk::new();
    let mut store = dir.open();

    let t: i64 = 1_000_000_000_000_000_000;
    let ctx = Context::new(1, t, 0, 0, 0, 0);

    // First batch.
    store.persist(&Event::new(SCALAR_READING, t, 1, 1), ctx);
    store.persist(&Event::new(SCALAR_READING, t + 1, 1, 2), ctx);
    dir.flush(&mut store).unwrap();

    // Second batch, same partition.
    store.persist(&Event::new(SCALAR_READING, t + 2, 1, 3), ctx);
    dir.flush(&mut store).unwrap();

    let all = dir.read_all(&store);
    assert_eq!(all.len(), 3, "all three events should be present after merge");
    let seqs: Vec<u32> = all.iter().map(|e| e.seq).collect();
    assert!(seqs.contains(&1) && seqs.contains(&2) && seqs.contains(&3));
}

#[test]
fn full_scan_returns_what_was_handed_in() {
    let mut dir = Disk::new();
    let mut store = dir.open();
    let mut handed_in = Vec::new();
    for round in 0..4_i64 {
        for i in 0..40_i64 {
            // Earlier and later than the rows of the rounds before, over some hours
            // and vessels.
            let time = (i * 37 % 11 - 4) * NS_PER_HOUR / 2 - round;
            let ctx = Context::new((i % 3) as u32, time, 1, 2, 3, 4);
            let event = Event::new(SCALAR_READING, time, (i % 5) as u16, (round * 40 + i) as u32);
            handed_in.push(PersistedEvent::from_event(&event, ctx));
            store.persist(&event, ctx);
        }
        store.register_source(1, 2, "sonar");
        if round != 1 {
            dir.flush(&mut store).unwrap();
        }
        if round == 2 {
            store = dir.open();
        }
    }
    dir.flush(&mut store).unwrap();
    assert_eq!(store.pending_count(), 0);

    let order = |e: &PersistedEvent| e.seq;
    let mut all = dir.read_all(&store);
    all.sort_by_key(order);
    handed_in.sort_by_key(order);
    assert_eq!(all, handed_in);
}

// -----------------------------------------------------------------------
// Registry
// -----------------------------------------------------------------------

#[test]
fn registry_persists_and_reloads() {
    let mut dir = Disk::new();

    {
        let mut store = dir.open();
        store.register_vessel(42, "F/V Aurora");
        store.register_vessel(7, "F/V Northstar");
        store.register_source(1, 42, "depth-sounder");
        store.register_source(2, 42, "temp-sensor");
        store.register_source(3, 7, "bite-detector");
        dir.flush(&mut store).unwrap();
    }

    // Re-open and verify registry loaded from disk.
    let store = dir.open();
    assert_eq!(store.vessels().get(&42), Some(&"F/V Aurora".to_string()));
    assert_eq!(store.vessels().get(&7), Some(&"F/V Northstar".to_string()));
    assert_eq!(
        store.sources().get(&(1, 42)),
        Some(&"depth-sounder".to_string())
    );
    assert_eq!(
        store.sources().get(&(3, 7)),
        Some(&"bite-detector".to_string())
    );
}

#[test]
fn vessel_auto_registered_on_persist() {
    let mut dir = Disk::new();
    let mut store = dir.open();

    let t: i64 = 1_000_000_000_000_000_000;
    let ctx = Context::new(99, t, 0, 0, 0, 0);
    store.persist(&Event::new(SCALAR_READING, t, 1, 1), ctx);
    dir.flush(&mut store).unwrap();

    let store2 = dir.open();
    assert!(store2.vessels().contains_key(&99));
}

// -----------------------------------------------------------------------
// Cross-vessel query
// -----------------------------------------------------------------------

#[test]
fn query_spans_multiple_vessels() {
    let mut dir = Disk::new();
    let mut store = dir.open();

    let t: i64 = 1_000_000_000_000_000_000;
    let ctx_a = Context::new(1, t, 100, 200, 10, 3);
    let ctx_b = Context::new(2, t + 500_000_000, 300, 400, 20, 3);

    // Both vessels have depth readings near time T.
    store.persist(&Event::new(SCALAR_READING, t + 100_000, 1, 1), ctx_a);
    store.persist(&Event::new(SCALAR_READING, t + 200_000, 2, 1), ctx_b);
    dir.flush(&mut store).unwrap();

    let results = dir.query(&store, t, DEFAULT_TOLERANCE_NS, Some(SCALAR_READING));
    // Two different sources (source_id 1 on vessel 1, source_id 2 on vessel 2).
    assert_eq!(results.len(), 2);
    let vids: Vec<u32> = results.iter().map(|e| e.vessel_id).collect();
    assert!(vids.contains(&1) && vids.contains(&2));
}

// -----------------------------------------------------------------------
// Real Parquet file verification (not just "tests pass")
// -----------------------------------------------------------------------

#[test]
fn parquet_files_exist_and_have_content() {
    let mut dir = Disk::new();
    let mut store = dir.open();

    let t: i64 = 1_000_000_000_000_000_000;
    let ctx = Context::new(1, t, 600_000_000, -1_200_000_000, 150, 3);

    for i in 0..5u32 {
        store.persist(
            &Event::new(SCALAR_READING, t + i as i64 * 1_000_000_000, 1, i),
            ctx,
        );
    }
    dir.flush(&mut store).unwrap();

    // Verify the Parquet file exists and is non-empty.
    let bucket = hour_bucket(t);
    let path = partition_path(1, bucket);
    assert!(dir.has(&path), "Parquet file should exist at {:?}", path);

    let len = dir.files[&path].len();
    assert!(len > 0, "Parquet file should be non-empty (got {} bytes)", len);
    // A Parquet file with 5 rows and 10 columns should be at least a few hundred bytes
    // (footer + row group metadata + data).
    assert!(len > 100, "Parquet file seems suspiciously small: {} bytes", len);

    // Also verify registry files exist.
    let vessels_path = vec!["registry".to_string(), "vessels.parquet".to_string()];
    assert!(dir.has(&vessels_path), "vessels registry should exist");
    let sources_path = vec!["registry".to_string(), "sources.parquet".to_string()];
    assert!(dir.has(&sources_path), "sources registry should exist");
}

/// Verify that the written Parquet files are readable by a fresh,
/// independent reader (simulating a cloud DuckDB reading the same file).
#[test]
fn parquet_file_readable_by_independent_reader() {
    let mut dir = Disk::new();
    let mut store = dir.open();

    let t: i64 = 1_000_000_000_000_000_000;
    let ctx = Context::new(5, t, 123_456_789, -987_654_321, 250, 2);
    store.persist(&Event::new(SCALAR_READING, t, 3, 7), ctx);
    dir.flush(&mut store).unwrap();

    // Open a completely new store at the same path — it should see the
    // persisted data without any in-memory state.
    let store2 = dir.open();
    let all = dir.read_all(&store2);
    assert_eq!(all.len(), 1);
    assert_eq!(all[0].vessel_id, 5);
    assert_eq!(all[0].lat_e7, 123_456_789);
    assert_eq!(all[0].lon_e7, -987_654_321);
}
