//! One file per vessel and hour: which partition an event belongs to, where the
//! partition lies, and which hours a query has to look at.
//!
//! ```text
//! <base_dir>/
//!   data/
//!     vessel=<id>/
//!       hour=<unix_hour>/
//!         events.parquet
//!   registry/
//!     vessels.parquet
//!     sources.parquet
//! ```

use vstd::prelude::*;
use vstd::string::StringExecFns;

use crate::decimal;

verus! {

/// Nanoseconds in one hour. Used for `(vessel, hour)` partitioning.
pub const NS_PER_HOUR: i64 = 3_600_000_000_000;

/// The hour that a nanosecond timestamp falls into.
pub open spec fn hour_of(event_time: int) -> int {
    event_time / NS_PER_HOUR as int
}

/// Compute the hour-bucket for a nanosecond timestamp (Euclidean division so
/// it is correct for all `i64` values).
pub fn hour_bucket(event_time: i64) -> (res: i64)
    ensures
        res == hour_of(event_time as int),
{
    match event_time.checked_div_euclid(NS_PER_HOUR) {
        Some(hour) => hour,
        None => 0,
    }
}

/// An hour's bucket holds just the timestamps from its first nanosecond to its
/// last.
pub proof fn law_bucket_is_its_hour(event_time: int, bucket: int)
    ensures
        hour_of(event_time) == bucket <==> bucket * NS_PER_HOUR <= event_time < (bucket + 1)
            * NS_PER_HOUR,
{
}

/// The name of the directory of a vessel's partitions.
pub open spec fn vessel_dir_name(vessel_id: u32) -> Seq<char> {
    "vessel="@ + decimal::decimal(vessel_id as nat)
}

/// The name of the directory of an hour.
pub open spec fn hour_dir_name(bucket: i64) -> Seq<char> {
    "hour="@ + decimal::signed_decimal(bucket as int)
}

/// The directory names and the file name on the way from the base directory to
/// a partition.
pub open spec fn partition_path_names(vessel_id: u32, bucket: i64) -> Seq<Seq<char>> {
    seq!["data"@, vessel_dir_name(vessel_id), hour_dir_name(bucket), "events.parquet"@]
}

/// The name of the directory of a vessel's partitions.
pub fn vessel_dir(vessel_id: u32) -> (res: String)
    ensures
        res@ == vessel_dir_name(vessel_id),
{
    let mut name = "vessel=".to_owned();
    decimal::append_decimal(&mut name, vessel_id as u64);
    name
}

/// The name of the directory of an hour.
pub fn hour_dir(bucket: i64) -> (res: String)
    ensures
        res@ == hour_dir_name(bucket),
{
    let mut name = "hour=".to_owned();
    decimal::append_signed_decimal(&mut name, bucket);
    name
}

/// The path from the base directory to a given partition's Parquet file, name
/// by name.
pub fn partition_path(vessel_id: u32, bucket: i64) -> (res: Vec<String>)
    ensures
        crate::broadcast::texts(res@) == partition_path_names(vessel_id, bucket),
{
    let mut path: Vec<String> = Vec::new();
    path.push("data".to_owned());
    path.push(vessel_dir(vessel_id));
    path.push(hour_dir(bucket));
    path.push("events.parquet".to_owned());
    assert(crate::broadcast::texts(path@) =~= partition_path_names(vessel_id, bucket));
    path
}

/// The path from the base directory to the file of the vessels registry, name by
/// name.
pub fn vessels_path() -> (res: Vec<String>)
    ensures
        crate::broadcast::texts(res@) == seq!["registry"@, "vessels.parquet"@],
{
    let mut path: Vec<String> = Vec::new();
    path.push("registry".to_owned());
    path.push("vessels.parquet".to_owned());
    assert(crate::broadcast::texts(path@) =~= seq!["registry"@, "vessels.parquet"@]);
    path
}

/// The path from the base directory to the file of the sources registry, name by
/// name.
pub fn sources_path() -> (res: Vec<String>)
    ensures
        crate::broadcast::texts(res@) == seq!["registry"@, "sources.parquet"@],
{
    let mut path: Vec<String> = Vec::new();
    path.push("registry".to_owned());
    path.push("sources.parquet".to_owned());
    assert(crate::broadcast::texts(path@) =~= seq!["registry"@, "sources.parquet"@]);
    path
}

/// Different vessels and different hours have different files.
pub proof fn law_partition_paths_are_distinct(
    vessel_a: u32,
    bucket_a: i64,
    vessel_b: u32,
    bucket_b: i64,
)
    requires
        partition_path_names(vessel_a, bucket_a) == partition_path_names(vessel_b, bucket_b),
    ensures
        vessel_a == vessel_b,
        bucket_a == bucket_b,
{
    let a = partition_path_names(vessel_a, bucket_a);
    let b = partition_path_names(vessel_b, bucket_b);
    assert(a[1] == b[1] && a[2] == b[2]);
    let v = "vessel="@.len() as int;
    let h = "hour="@.len() as int;
    assert(a[1].skip(v) =~= decimal::decimal(vessel_a as nat));
    assert(b[1].skip(v) =~= decimal::decimal(vessel_b as nat));
    decimal::lemma_decimal_is_injective(vessel_a as nat, vessel_b as nat);
    assert(a[2].skip(h) =~= decimal::signed_decimal(bucket_a as int));
    assert(b[2].skip(h) =~= decimal::signed_decimal(bucket_b as int));
    decimal::lemma_signed_decimal_is_injective(bucket_a as int, bucket_b as int);
}

/// The nearest timestamp to an integer.
pub open spec fn clamp_time(t: int) -> int {
    if t < i64::MIN {
        i64::MIN as int
    } else if t > i64::MAX {
        i64::MAX as int
    } else {
        t
    }
}

/// The nearest timestamp to an integer.
fn clamp(t: i128) -> (res: i64)
    ensures
        res == clamp_time(t as int),
{
    if t < i64::MIN as i128 {
        i64::MIN
    } else if t > i64::MAX as i128 {
        i64::MAX
    } else {
        t as i64
    }
}

/// The first and the last hour that overlap the window
/// `[target_time - tolerance_ns, target_time + tolerance_ns]`.
///
/// Only these hours' partitions can hold an event in the window, so a query
/// need not scan every historical partition.
pub fn window_hours(target_time: i64, tolerance_ns: i64) -> (res: (i64, i64))
    ensures
        res.0 == hour_of(clamp_time(target_time - tolerance_ns)),
        res.1 == hour_of(clamp_time(target_time + tolerance_ns)),
{
    let lo = clamp(target_time as i128 - tolerance_ns as i128);
    let hi = clamp(target_time as i128 + tolerance_ns as i128);
    (hour_bucket(lo), hour_bucket(hi))
}

/// The paths of files, name by name.
pub open spec fn path_texts(paths: Seq<Vec<String>>) -> Seq<Seq<Seq<char>>> {
    paths.map_values(|path: Vec<String>| crate::broadcast::texts(path@))
}

/// The directory name and the file name on the way from the directory of a vessel
/// to its partition of an hour.
pub open spec fn hour_path_names(bucket: i64) -> Seq<Seq<char>> {
    seq![hour_dir_name(bucket), "events.parquet"@]
}

/// The paths of the partitions of the hours that overlap the window
/// `[target_time - tolerance_ns, target_time + tolerance_ns]`, from the directory
/// of a vessel, in the order of the hours.
pub open spec fn window_path_names(target_time: i64, tolerance_ns: i64) -> Seq<Seq<Seq<char>>> {
    let first = hour_of(clamp_time(target_time - tolerance_ns));
    let last = hour_of(clamp_time(target_time + tolerance_ns));
    Seq::new(
        if first <= last {
            (last - first + 1) as nat
        } else {
            0
        },
        |i: int| hour_path_names((first + i) as i64),
    )
}

/// The paths of the partitions of the hours that overlap the window
/// `[target_time - tolerance_ns, target_time + tolerance_ns]`, from the directory
/// of a vessel, name by name: the files that a query has to look at.
pub fn window_names(target_time: i64, tolerance_ns: i64) -> (res: Vec<Vec<String>>)
    ensures
        path_texts(res@) == window_path_names(target_time, tolerance_ns),
{
    let (first, last) = window_hours(target_time, tolerance_ns);
    let mut paths: Vec<Vec<String>> = Vec::new();
    let mut bucket: i64 = first;
    while bucket <= last
        invariant
            first <= bucket,
            last < i64::MAX,
            first <= last ==> bucket <= last + 1,
            first > last ==> bucket == first,
            paths@.len() == bucket - first,
            forall|i: int|
                0 <= i < paths@.len() ==> crate::broadcast::texts((#[trigger] paths@[i])@)
                    == hour_path_names((first + i) as i64),
        decreases last - bucket + 1,
    {
        let mut path: Vec<String> = Vec::new();
        path.push(hour_dir(bucket));
        path.push("events.parquet".to_owned());
        assert(crate::broadcast::texts(path@) =~= hour_path_names(bucket));
        paths.push(path);
        bucket += 1;
    }
    assert(path_texts(paths@) =~= window_path_names(target_time, tolerance_ns));
    paths
}

/// Looking only at the files of the window misses no event: the file of every
/// event within the tolerance is among them.
pub proof fn law_window_names_cover_the_window(
    target_time: i64,
    tolerance_ns: i64,
    vessel_id: u32,
    event_time: i64,
)
    requires
        target_time - tolerance_ns <= event_time <= target_time + tolerance_ns,
    ensures
        exists|i: int|
            0 <= i < window_path_names(target_time, tolerance_ns).len() && seq![
                "data"@,
                vessel_dir_name(vessel_id),
            ] + #[trigger] window_path_names(target_time, tolerance_ns)[i] == partition_path_names(
                vessel_id,
                hour_of(event_time as int) as i64,
            ),
{
    law_window_hours_cover_the_window(target_time, tolerance_ns, event_time);
    let first = hour_of(clamp_time(target_time - tolerance_ns));
    let bucket = hour_of(event_time as int);
    let i = bucket - first;
    let names = window_path_names(target_time, tolerance_ns);
    assert(names[i] == hour_path_names(bucket as i64));
    assert(seq!["data"@, vessel_dir_name(vessel_id)] + names[i] =~= partition_path_names(
        vessel_id,
        bucket as i64,
    ));
}

/// Looking only at the hours of the window misses no event: the partition of
/// every event within the tolerance is among them.
pub proof fn law_window_hours_cover_the_window(target_time: i64, tolerance_ns: i64, event_time: i64)
    requires
        target_time - tolerance_ns <= event_time <= target_time + tolerance_ns,
    ensures
        hour_of(clamp_time(target_time - tolerance_ns)) <= hour_of(event_time as int),
        hour_of(event_time as int) <= hour_of(clamp_time(target_time + tolerance_ns)),
{
    let lo = clamp_time(target_time - tolerance_ns);
    let hi = clamp_time(target_time + tolerance_ns);
    assert(lo <= event_time <= hi);
}

/// Whether a name under the data directory is that of a Parquet file: it ends
/// in `.parquet` and something stands before that.
pub open spec fn is_parquet_name(name: Seq<char>) -> bool {
    let suffix = ".parquet"@;
    name.len() > suffix.len() && name.skip(name.len() - suffix.len()) == suffix
}

/// Tells whether a file name under the data directory is that of a Parquet file.
pub fn is_parquet_file(name: &str) -> (res: bool)
    ensures
        res == is_parquet_name(name@),
{
    let suffix: &str = ".parquet";
    proof {
        reveal_strlit(".parquet");
    }
    let len = vstd::string::StrSliceExecFns::unicode_len(name);
    let suffix_len = vstd::string::StrSliceExecFns::unicode_len(suffix);
    if len <= suffix_len {
        return false;
    }
    let mut i: usize = 0;
    while i < suffix_len
        invariant
            i <= suffix_len,
            len == name@.len(),
            suffix_len == suffix@.len(),
            suffix@ == ".parquet"@,
            suffix_len < len,
            forall|k: int| 0 <= k < i ==> name@[len - suffix_len + k] == #[trigger] suffix@[k],
        decreases suffix_len - i,
    {
        if vstd::string::StrSliceExecFns::get_char(name, len - suffix_len + i)
            != vstd::string::StrSliceExecFns::get_char(suffix, i) {
            assert(name@.skip(len - suffix_len)[i as int] == name@[len - suffix_len + i]);
            return false;
        }
        i += 1;
    }
    assert(name@.skip(len - suffix_len) =~= suffix@);
    true
}

/// An hour holds the 3600 seconds from its first nanosecond on, also before the epoch.
pub proof fn law_hours_have_3600_seconds(event_time: int, bucket: int)
    ensures
        hour_of(event_time) == bucket <==> bucket * 3_600_000_000_000 <= event_time < (bucket + 1)
            * 3_600_000_000_000,
{
}

/// The file of a partition lies under the data directory, in the directory of its vessel
/// and there in that of its hour, each named by its number.
pub proof fn law_partition_paths(vessel_id: u32, bucket: i64)
    ensures
        partition_path_names(vessel_id, bucket) == seq![
            "data"@,
            "vessel="@ + decimal::decimal(vessel_id as nat),
            "hour="@ + decimal::signed_decimal(bucket as int),
            "events.parquet"@,
        ],
{
}

/// The files that a query looks at, under the directory of a vessel, are those of the
/// hours from the one in which its window begins to the one in which it ends, one after
/// the other. A window that reaches beyond what a timestamp can hold begins or ends there.
pub proof fn law_window_names_are_its_hours(target_time: i64, tolerance_ns: i64) -> (hours: (
    int,
    int,
))
    ensures
        ({
            let begin = target_time - tolerance_ns;
            let end = target_time + tolerance_ns;
            let (first, last) = hours;
            let names = window_path_names(target_time, tolerance_ns);
            &&& i64::MIN <= begin <= i64::MAX ==> first * 3_600_000_000_000 <= begin < (first + 1)
                * 3_600_000_000_000
            &&& begin < i64::MIN ==> first * 3_600_000_000_000 <= i64::MIN < (first + 1)
                * 3_600_000_000_000
            &&& begin > i64::MAX ==> first * 3_600_000_000_000 <= i64::MAX < (first + 1)
                * 3_600_000_000_000
            &&& i64::MIN <= end <= i64::MAX ==> last * 3_600_000_000_000 <= end < (last + 1)
                * 3_600_000_000_000
            &&& end < i64::MIN ==> last * 3_600_000_000_000 <= i64::MIN < (last + 1)
                * 3_600_000_000_000
            &&& end > i64::MAX ==> last * 3_600_000_000_000 <= i64::MAX < (last + 1)
                * 3_600_000_000_000
            &&& names.len() == (if first <= last {
                last - first + 1
            } else {
                0
            })
            &&& forall|i: int|
                0 <= i < names.len() ==> #[trigger] names[i] == seq![
                    "hour="@ + decimal::signed_decimal(first + i),
                    "events.parquet"@,
                ]
        }),
{
    let first = hour_of(clamp_time(target_time - tolerance_ns));
    let last = hour_of(clamp_time(target_time + tolerance_ns));
    law_hours_have_3600_seconds(clamp_time(target_time - tolerance_ns), first);
    law_hours_have_3600_seconds(clamp_time(target_time + tolerance_ns), last);
    (first, last)
}

/// A name is that of a Parquet file just if it is something followed by `.parquet`.
pub proof fn law_parquet_names(name: Seq<char>)
    ensures
        is_parquet_name(name) <==> exists|stem: Seq<char>|
            stem.len() > 0 && name == #[trigger] (stem + ".parquet"@),
{
    reveal_strlit(".parquet");
    let suffix = ".parquet"@;
    if is_parquet_name(name) {
        let stem = name.take(name.len() - suffix.len());
        assert(name =~= stem + suffix);
    }
    if exists|stem: Seq<char>| stem.len() > 0 && name == #[trigger] (stem + suffix) {
        let stem = choose|stem: Seq<char>| stem.len() > 0 && name == #[trigger] (stem + suffix);
        assert(name.skip(name.len() - suffix.len()) =~= suffix);
    }
}

/// The paths of files are those of each, at its place.
pub proof fn law_path_texts_are_in_place(paths: Seq<Vec<String>>, i: int, j: int)
    requires
        0 <= i < paths.len(),
        0 <= j < paths[i]@.len(),
    ensures
        path_texts(paths).len() == paths.len(),
        path_texts(paths)[i].len() == paths[i]@.len(),
        path_texts(paths)[i][j] == paths[i]@[j]@,
{
}

} // verus!
