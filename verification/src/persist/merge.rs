//! How new rows are merged into the rows of a partition: in the order of their
//! times, without repeats.

use vstd::prelude::*;

use super::row::PersistedEvent;

verus! {

/// Whether rows are in the order of their times.
pub open spec fn in_time_order(rows: Seq<PersistedEvent>) -> bool {
    forall|i: int, j: int|
        0 <= i < j < rows.len() ==> (#[trigger] rows[i]).event_time <= (
        #[trigger] rows[j]).event_time
}

/// The rows at a time, in their order.
pub open spec fn rows_at(rows: Seq<PersistedEvent>, time: i64) -> Seq<PersistedEvent> {
    rows.filter(|row: PersistedEvent| row.event_time == time)
}

/// Whether the second sequence is the first one sorted by time, with rows of the
/// same time left in their order.
pub open spec fn is_time_sort(rows: Seq<PersistedEvent>, sorted: Seq<PersistedEvent>) -> bool {
    &&& in_time_order(sorted)
    &&& forall|time: i64| #[trigger] rows_at(sorted, time) == rows_at(rows, time)
}

/// Rows in the order of their times, with one more put behind the last that is
/// not later.
pub open spec fn time_insert(sorted: Seq<PersistedEvent>, row: PersistedEvent) -> Seq<
    PersistedEvent,
>
    decreases sorted.len(),
{
    if sorted.len() == 0 || sorted.last().event_time <= row.event_time {
        sorted.push(row)
    } else {
        time_insert(sorted.drop_last(), row).push(sorted.last())
    }
}

/// Rows sorted by time, rows of the same time in their order.
pub open spec fn time_sorted(rows: Seq<PersistedEvent>) -> Seq<PersistedEvent>
    decreases rows.len(),
{
    if rows.len() == 0 {
        seq![]
    } else {
        time_insert(time_sorted(rows.drop_last()), rows.last())
    }
}

/// Whether two rows stand for the same reading of a source.
pub open spec fn same_reading(a: PersistedEvent, b: PersistedEvent) -> bool {
    &&& a.vessel_id == b.vessel_id
    &&& a.source_id == b.source_id
    &&& a.seq == b.seq
    &&& a.event_type == b.event_type
}

/// Rows without those that repeat the reading of the row just before them.
pub open spec fn without_repeats(rows: Seq<PersistedEvent>) -> Seq<PersistedEvent>
    decreases rows.len(),
{
    if rows.len() == 0 {
        seq![]
    } else {
        let kept = without_repeats(rows.drop_last());
        if rows.len() > 1 && same_reading(rows[rows.len() - 2], rows.last()) {
            kept
        } else {
            kept.push(rows.last())
        }
    }
}

/// What a partition holds once rows have been merged into it: the rows that it
/// held and the new ones, sorted by time, without repeats.
pub open spec fn merged(existing: Seq<PersistedEvent>, events: Seq<PersistedEvent>) -> Seq<
    PersistedEvent,
> {
    without_repeats(time_sorted(existing + events))
}

/// The rows at a time of a sequence with one row more.
proof fn lemma_rows_at_push(rows: Seq<PersistedEvent>, row: PersistedEvent, time: i64)
    ensures
        rows_at(rows.push(row), time) == (if row.event_time == time {
            rows_at(rows, time).push(row)
        } else {
            rows_at(rows, time)
        }),
{
    reveal(Seq::filter);
    assert(rows.push(row).drop_last() =~= rows);
}

/// No row of another time is among the rows at a time.
proof fn lemma_no_rows_at(rows: Seq<PersistedEvent>, time: i64)
    requires
        forall|i: int| 0 <= i < rows.len() ==> (#[trigger] rows[i]).event_time != time,
    ensures
        rows_at(rows, time) == Seq::<PersistedEvent>::empty(),
    decreases rows.len(),
{
    reveal(Seq::filter);
    if rows.len() > 0 {
        lemma_no_rows_at(rows.drop_last(), time);
    }
}

/// Inserting keeps the order of times, and puts the row last among the rows of
/// its time.
proof fn lemma_time_insert(sorted: Seq<PersistedEvent>, row: PersistedEvent)
    requires
        in_time_order(sorted),
    ensures
        is_time_sort(sorted.push(row), time_insert(sorted, row)),
        time_insert(sorted, row).len() == sorted.len() + 1,
        forall|bound: i64|
            row.event_time <= bound && (forall|i: int|
                0 <= i < sorted.len() ==> (#[trigger] sorted[i]).event_time <= bound)
                ==> #[trigger] all_until(time_insert(sorted, row), bound),
    decreases sorted.len(),
{
    if sorted.len() == 0 || sorted.last().event_time <= row.event_time {
        let res = sorted.push(row);
        assert forall|i: int, j: int| 0 <= i < j < res.len() implies (
        #[trigger] res[i]).event_time <= (#[trigger] res[j]).event_time by {
            if j == sorted.len() && i < sorted.len() - 1 {
                assert(sorted[i].event_time <= sorted[sorted.len() - 1].event_time);
            }
        }
    } else {
        let last = sorted.last();
        let rest = sorted.drop_last();
        let inner = time_insert(rest, row);
        lemma_time_insert(rest, row);
        assert forall|i: int| 0 <= i < rest.len() implies (#[trigger] rest[i]).event_time
            <= last.event_time by {
            assert(rest[i] == sorted[i]);
            assert(last == sorted[sorted.len() - 1]);
        }
        assert(all_until(inner, last.event_time));
        let res = inner.push(last);
        assert(time_insert(sorted, row) == res);
        assert(in_time_order(res));
        assert(sorted =~= rest.push(last));
        assert forall|time: i64| #[trigger]
            rows_at(res, time) == rows_at(sorted.push(row), time) by {
            lemma_rows_at_push(inner, last, time);
            lemma_rows_at_push(rest, row, time);
            lemma_rows_at_push(rest, last, time);
            lemma_rows_at_push(sorted, row, time);
            assert(rows_at(inner, time) == rows_at(rest.push(row), time));
        }
    }
}

/// Whether no row is later than a time.
pub open spec fn all_until(rows: Seq<PersistedEvent>, bound: i64) -> bool {
    forall|i: int| 0 <= i < rows.len() ==> (#[trigger] rows[i]).event_time <= bound
}

/// Sorting by time orders the rows by their times and leaves rows of the same
/// time in the order in which they came.
pub proof fn law_time_sort_is_stable(rows: Seq<PersistedEvent>)
    ensures
        is_time_sort(rows, time_sorted(rows)),
        time_sorted(rows).len() == rows.len(),
    decreases rows.len(),
{
    if rows.len() > 0 {
        let rest = rows.drop_last();
        let last = rows.last();
        law_time_sort_is_stable(rest);
        lemma_time_insert(time_sorted(rest), last);
        assert(rows =~= rest.push(last));
        assert forall|time: i64| #[trigger]
            rows_at(time_sorted(rows), time) == rows_at(rows, time) by {
            lemma_rows_at_push(rest, last, time);
            lemma_rows_at_push(time_sorted(rest), last, time);
            assert(rows_at(time_sorted(rest), time) == rows_at(rest, time));
        }
    } else {
        assert(time_sorted(rows) =~= rows);
    }
}

/// Rows are the same if they are in the order of their times and the same at
/// every time.
proof fn lemma_time_sort_is_unique(a: Seq<PersistedEvent>, b: Seq<PersistedEvent>)
    requires
        in_time_order(a),
        in_time_order(b),
        forall|time: i64| #[trigger] rows_at(a, time) == rows_at(b, time),
    ensures
        a == b,
    decreases a.len(),
{
    if a.len() == 0 {
        if b.len() > 0 {
            let time = b.last().event_time;
            lemma_rows_at_push(b.drop_last(), b.last(), time);
            assert(b =~= b.drop_last().push(b.last()));
            lemma_no_rows_at(a, time);
            assert(rows_at(a, time) == rows_at(b, time));
        }
        assert(a =~= b);
    } else {
        let time = a.last().event_time;
        assert(a =~= a.drop_last().push(a.last()));
        lemma_rows_at_push(a.drop_last(), a.last(), time);
        assert(rows_at(a, time) == rows_at(b, time));
        if b.len() == 0 {
            lemma_no_rows_at(b, time);
        } else {
            let other = b.last().event_time;
            assert(b =~= b.drop_last().push(b.last()));
            lemma_rows_at_push(b.drop_last(), b.last(), other);
            assert(rows_at(a, other) == rows_at(b, other));
            assert(rows_at(a, time).len() > 0);
            assert(rows_at(b, other).len() > 0);
            if other < time {
                assert forall|i: int| 0 <= i < b.len() implies (#[trigger] b[i]).event_time
                    != time by {
                    assert(i < b.len() - 1 ==> b[i].event_time <= b[b.len() - 1].event_time);
                }
                lemma_no_rows_at(b, time);
            } else if time < other {
                assert forall|i: int| 0 <= i < a.len() implies (#[trigger] a[i]).event_time
                    != other by {
                    assert(i < a.len() - 1 ==> a[i].event_time <= a[a.len() - 1].event_time);
                }
                lemma_no_rows_at(a, other);
            }
            assert(time == other);
            lemma_rows_at_push(b.drop_last(), b.last(), time);
            assert(rows_at(a, time).last() == a.last());
            assert(rows_at(b, time).last() == b.last());
            let rest_a = a.drop_last();
            let rest_b = b.drop_last();
            assert forall|t: i64| #[trigger] rows_at(rest_a, t) == rows_at(rest_b, t) by {
                lemma_rows_at_push(rest_a, a.last(), t);
                lemma_rows_at_push(rest_b, b.last(), t);
                assert(rows_at(a, t) == rows_at(b, t));
                if t == time {
                    assert(rows_at(rest_a, t) =~= rows_at(a, t).drop_last());
                    assert(rows_at(rest_b, t) =~= rows_at(b, t).drop_last());
                }
            }
            lemma_time_sort_is_unique(rest_a, rest_b);
        }
    }
}

/// Merges two runs of rows that are in the order of their times; of rows of the
/// same time, those of the first run come first.
fn merge_runs(left: &Vec<PersistedEvent>, right: &Vec<PersistedEvent>) -> (res: Vec<
    PersistedEvent,
>)
    requires
        in_time_order(left@),
        in_time_order(right@),
    ensures
        is_time_sort(left@ + right@, res@),
{
    let mut out: Vec<PersistedEvent> = Vec::new();
    let mut i: usize = 0;
    let mut j: usize = 0;
    proof {
        assert forall|time: i64| #[trigger]
            rows_at(out@, time) == rows_at(left@.take(0), time) + rows_at(right@.take(0), time) by {
            lemma_no_rows_at(out@, time);
            lemma_no_rows_at(left@.take(0), time);
            lemma_no_rows_at(right@.take(0), time);
        }
    }
    while i < left.len() || j < right.len()
        invariant
            in_time_order(left@),
            in_time_order(right@),
            i <= left@.len(),
            j <= right@.len(),
            in_time_order(out@),
            forall|m: int, k: int|
                0 <= m < out@.len() && i <= k < left@.len() ==> (#[trigger] out@[m]).event_time <= (
                #[trigger] left@[k]).event_time,
            forall|m: int, k: int|
                0 <= m < out@.len() && j <= k < right@.len() ==> (#[trigger] out@[m]).event_time
                    <= (#[trigger] right@[k]).event_time,
            forall|m: int, k: int|
                0 <= m < j && i <= k < left@.len() ==> (#[trigger] right@[m]).event_time < (
                #[trigger] left@[k]).event_time,
            forall|time: i64| #[trigger]
                rows_at(out@, time) == rows_at(left@.take(i as int), time) + rows_at(
                    right@.take(j as int),
                    time,
                ),
        decreases left@.len() - i + right@.len() - j,
    {
        let ghost before = out@;
        if j >= right.len() || (i < left.len() && left[i].event_time <= right[j].event_time) {
            let row = left[i];
            out.push(row);
            proof {
                assert(left@.take(i + 1) =~= left@.take(i as int).push(row));
                assert forall|time: i64| #[trigger]
                    rows_at(out@, time) == rows_at(left@.take(i + 1), time) + rows_at(
                        right@.take(j as int),
                        time,
                    ) by {
                    lemma_rows_at_push(before, row, time);
                    lemma_rows_at_push(left@.take(i as int), row, time);
                    assert(rows_at(before, time) == rows_at(left@.take(i as int), time) + rows_at(
                        right@.take(j as int),
                        time,
                    ));
                    if row.event_time == time {
                        assert(left@[i as int] == row);
                        lemma_no_rows_at(right@.take(j as int), time);
                    }
                    assert(rows_at(out@, time) =~= rows_at(left@.take(i + 1), time) + rows_at(
                        right@.take(j as int),
                        time,
                    ));
                }
            }
            i += 1;
        } else {
            let row = right[j];
            out.push(row);
            proof {
                assert(right@.take(j + 1) =~= right@.take(j as int).push(row));
                assert forall|time: i64| #[trigger]
                    rows_at(out@, time) == rows_at(left@.take(i as int), time) + rows_at(
                        right@.take(j + 1),
                        time,
                    ) by {
                    lemma_rows_at_push(before, row, time);
                    lemma_rows_at_push(right@.take(j as int), row, time);
                    assert(rows_at(before, time) == rows_at(left@.take(i as int), time) + rows_at(
                        right@.take(j as int),
                        time,
                    ));
                    assert(rows_at(out@, time) =~= rows_at(left@.take(i as int), time) + rows_at(
                        right@.take(j + 1),
                        time,
                    ));
                }
            }
            j += 1;
        }
    }
    proof {
        assert(left@.take(i as int) =~= left@);
        assert(right@.take(j as int) =~= right@);
        assert forall|time: i64| #[trigger]
            rows_at(out@, time) == rows_at(left@ + right@, time) by {
            Seq::filter_distributes_over_add(
                left@,
                right@,
                |row: PersistedEvent| row.event_time == time,
            );
        }
    }
    out
}

/// Sorts rows by time; rows of the same time stay in their order.
pub fn sort_by_time(rows: &[PersistedEvent]) -> (res: Vec<PersistedEvent>)
    ensures
        res@ == time_sorted(rows@),
    decreases rows@.len(),
{
    if rows.len() <= 1 {
        let mut res: Vec<PersistedEvent> = Vec::new();
        if rows.len() == 1 {
            res.push(rows[0]);
        }
        proof {
            law_time_sort_is_stable(rows@);
            assert(res@ =~= rows@);
            lemma_time_sort_is_unique(res@, time_sorted(rows@));
        }
        return res;
    }
    let mid = rows.len() / 2;
    let left = sort_by_time(vstd::slice::slice_subrange(rows, 0, mid));
    let right = sort_by_time(vstd::slice::slice_subrange(rows, mid, rows.len()));
    proof {
        law_time_sort_is_stable(rows@.subrange(0, mid as int));
        law_time_sort_is_stable(rows@.subrange(mid as int, rows@.len() as int));
    }
    let res = merge_runs(&left, &right);
    proof {
        let a = rows@.subrange(0, mid as int);
        let b = rows@.subrange(mid as int, rows@.len() as int);
        assert(a + b =~= rows@);
        assert forall|time: i64| #[trigger] rows_at(res@, time) == rows_at(rows@, time) by {
            Seq::filter_distributes_over_add(a, b, |row: PersistedEvent| row.event_time == time);
            Seq::filter_distributes_over_add(
                left@,
                right@,
                |row: PersistedEvent| row.event_time == time,
            );
            assert(rows_at(left@, time) == rows_at(a, time));
            assert(rows_at(right@, time) == rows_at(b, time));
            assert(rows_at(res@, time) == rows_at(left@ + right@, time));
        }
        law_time_sort_is_stable(rows@);
        assert forall|time: i64| #[trigger]
            rows_at(res@, time) == rows_at(time_sorted(rows@), time) by {}
        lemma_time_sort_is_unique(res@, time_sorted(rows@));
    }
    res
}

/// Whether two rows stand for the same reading of a source.
fn is_same_reading(a: &PersistedEvent, b: &PersistedEvent) -> (res: bool)
    ensures
        res == same_reading(*a, *b),
{
    a.vessel_id == b.vessel_id && a.source_id == b.source_id && a.seq == b.seq && a.event_type
        == b.event_type
}

/// Drops rows that repeat the reading of the row just before them.
pub fn drop_repeats(rows: &Vec<PersistedEvent>) -> (res: Vec<PersistedEvent>)
    ensures
        res@ == without_repeats(rows@),
{
    let mut kept: Vec<PersistedEvent> = Vec::new();
    let mut n: usize = 0;
    while n < rows.len()
        invariant
            n <= rows@.len(),
            kept@ == without_repeats(rows@.take(n as int)),
        decreases rows@.len() - n,
    {
        assert(rows@.take(n + 1).drop_last() =~= rows@.take(n as int));
        if n == 0 || !is_same_reading(&rows[n - 1], &rows[n]) {
            kept.push(rows[n]);
        }
        n += 1;
    }
    assert(rows@.take(n as int) =~= rows@);
    kept
}

/// Merges new rows into the rows of a partition.
pub fn merge_rows(existing: Vec<PersistedEvent>, events: &[PersistedEvent]) -> (res: Vec<
    PersistedEvent,
>)
    ensures
        res@ == merged(existing@, events@),
{
    let mut all = existing;
    all.extend_from_slice(events);
    assert(all@ =~= existing@ + events@);
    let sorted = sort_by_time(all.as_slice());
    drop_repeats(&sorted)
}

/// A row is among rows just if it is among the rows at its time.
proof fn lemma_row_at_its_time(rows: Seq<PersistedEvent>, row: PersistedEvent)
    ensures
        rows.contains(row) <==> rows_at(rows, row.event_time).contains(row),
    decreases rows.len(),
{
    if rows.len() == 0 {
        lemma_no_rows_at(rows, row.event_time);
    } else {
        let rest = rows.drop_last();
        let last = rows.last();
        let time = row.event_time;
        lemma_row_at_its_time(rest, row);
        assert(rows =~= rest.push(last));
        lemma_rows_at_push(rest, last, time);
        if rows.contains(row) {
            if rest.contains(row) {
                let i = choose|i: int|
                    0 <= i < rows_at(rest, time).len() && rows_at(rest, time)[i] == row;
                assert(rows_at(rows, time)[i] == row);
            } else {
                let i = choose|i: int| 0 <= i < rows.len() && rows[i] == row;
                assert(i < rest.len() ==> rest[i] == row);
                assert(rows_at(rows, time)[rows_at(rest, time).len() as int] == row);
            }
        }
        if rows_at(rows, time).contains(row) {
            let i = choose|i: int|
                0 <= i < rows_at(rows, time).len() && rows_at(rows, time)[i] == row;
            if i < rows_at(rest, time).len() {
                assert(rows_at(rest, time)[i] == row);
                let j = choose|j: int| 0 <= j < rest.len() && rest[j] == row;
                assert(rows[j] == row);
            } else {
                assert(rows[rest.len() as int] == row);
            }
        }
    }
}

/// Sorting by time neither adds a row nor loses one.
pub proof fn law_time_sort_keeps_the_rows(rows: Seq<PersistedEvent>, row: PersistedEvent)
    ensures
        time_sorted(rows).len() == rows.len(),
        time_sorted(rows).contains(row) <==> rows.contains(row),
{
    law_time_sort_is_stable(rows);
    lemma_row_at_its_time(rows, row);
    lemma_row_at_its_time(time_sorted(rows), row);
    assert(rows_at(time_sorted(rows), row.event_time) == rows_at(rows, row.event_time));
}

/// Whether no row repeats the reading of the row just before it.
pub open spec fn has_no_repeats(rows: Seq<PersistedEvent>) -> bool {
    forall|i: int, j: int|
        0 <= i && j == i + 1 && j < rows.len() ==> !same_reading(
            #[trigger] rows[i],
            #[trigger] rows[j],
        )
}

/// What dropping repeats does to rows.
proof fn lemma_without_repeats(rows: Seq<PersistedEvent>)
    ensures
        has_no_repeats(without_repeats(rows)),
        forall|row: PersistedEvent| #[trigger]
            without_repeats(rows).contains(row) ==> rows.contains(row),
        in_time_order(rows) ==> in_time_order(without_repeats(rows)),
        rows.len() > 0 ==> without_repeats(rows).len() > 0 && same_reading(
            without_repeats(rows).last(),
            rows.last(),
        ),
        forall|i: int|
            0 <= i < rows.len() ==> has_reading(without_repeats(rows), #[trigger] rows[i]),
    decreases rows.len(),
{
    if rows.len() > 0 {
        let rest = rows.drop_last();
        let kept = without_repeats(rest);
        let res = without_repeats(rows);
        lemma_without_repeats(rest);
        assert(rest.len() > 0 ==> rest.last() == rows[rows.len() - 2]);
        assert forall|row: PersistedEvent| #[trigger] res.contains(row) implies rows.contains(
            row,
        ) by {
            let i = choose|i: int| 0 <= i < res.len() && res[i] == row;
            if i < kept.len() {
                assert(kept[i] == row);
                assert(kept.contains(row));
                let j = choose|j: int| 0 <= j < rest.len() && rest[j] == row;
                assert(rows[j] == row);
            } else {
                assert(rows[rows.len() - 1] == row);
            }
        }
        assert forall|i: int| 0 <= i < rows.len() implies has_reading(
            res,
            #[trigger] rows[i],
        ) by {
            if i < rest.len() {
                assert(has_reading(kept, rest[i]));
                let j = choose|j: int|
                    0 <= j < kept.len() && same_reading(#[trigger] kept[j], rest[i]);
                assert(same_reading(res[j], rows[i]));
            } else {
                assert(same_reading(res[res.len() - 1], rows[i]));
            }
        }
        if in_time_order(rows) {
            assert forall|i: int, j: int| 0 <= i < j < rest.len() implies (
            #[trigger] rest[i]).event_time <= (#[trigger] rest[j]).event_time by {
                assert(rows[i].event_time <= rows[j].event_time);
            }
            assert forall|i: int, j: int| 0 <= i < j < res.len() implies (
            #[trigger] res[i]).event_time <= (#[trigger] res[j]).event_time by {
                assert(res[i] == kept[i]);
                if j == kept.len() {
                    assert(kept.contains(kept[i]));
                    let k = choose|k: int| 0 <= k < rest.len() && rest[k] == kept[i];
                    assert(rows[k].event_time <= rows[rows.len() - 1].event_time);
                } else {
                    assert(res[j] == kept[j]);
                }
            }
        }
        assert forall|i: int, j: int|
            0 <= i && j == i + 1 && j < res.len() implies !same_reading(
            #[trigger] res[i],
            #[trigger] res[j],
        ) by {
            assert(res[i] == kept[i]);
            if j < kept.len() {
                assert(res[j] == kept[j]);
            }
        }
    }
}

/// Whether a reading is among rows.
pub open spec fn has_reading(rows: Seq<PersistedEvent>, row: PersistedEvent) -> bool {
    exists|i: int| 0 <= i < rows.len() && same_reading(#[trigger] rows[i], row)
}

/// The rows of a partition are in the order of their times, and none repeats the
/// reading of the row before it.
pub proof fn law_merged_rows_are_ordered(
    existing: Seq<PersistedEvent>,
    events: Seq<PersistedEvent>,
)
    ensures
        in_time_order(merged(existing, events)),
        has_no_repeats(merged(existing, events)),
{
    law_time_sort_is_stable(existing + events);
    lemma_without_repeats(time_sorted(existing + events));
}

/// Merging makes no row up: every row was in the partition or is new.
pub proof fn law_merged_rows_are_given(
    existing: Seq<PersistedEvent>,
    events: Seq<PersistedEvent>,
    row: PersistedEvent,
)
    requires
        merged(existing, events).contains(row),
    ensures
        existing.contains(row) || events.contains(row),
{
    let all = existing + events;
    lemma_without_repeats(time_sorted(all));
    law_time_sort_keeps_the_rows(all, row);
    let i = choose|i: int| 0 <= i < all.len() && all[i] == row;
    if i < existing.len() {
        assert(existing[i] == row);
    } else {
        assert(events[i - existing.len()] == row);
    }
}

/// Merging loses no reading: every reading of the partition and every new one is
/// there afterwards.
pub proof fn law_merging_loses_no_reading(
    existing: Seq<PersistedEvent>,
    events: Seq<PersistedEvent>,
    row: PersistedEvent,
)
    requires
        existing.contains(row) || events.contains(row),
    ensures
        has_reading(merged(existing, events), row),
{
    let all = existing + events;
    if existing.contains(row) {
        let i = choose|i: int| 0 <= i < existing.len() && existing[i] == row;
        assert(all[i] == row);
    } else {
        let i = choose|i: int| 0 <= i < events.len() && events[i] == row;
        assert(all[existing.len() + i] == row);
    }
    assert(all.contains(row));
    law_time_sort_keeps_the_rows(all, row);
    lemma_without_repeats(time_sorted(all));
    let i = choose|i: int| 0 <= i < time_sorted(all).len() && time_sorted(all)[i] == row;
    assert(has_reading(without_repeats(time_sorted(all)), time_sorted(all)[i]));
}

/// Rows without repeats are left as they are.
proof fn lemma_no_repeats_to_drop(rows: Seq<PersistedEvent>)
    requires
        has_no_repeats(rows),
    ensures
        without_repeats(rows) == rows,
    decreases rows.len(),
{
    if rows.len() > 0 {
        let rest = rows.drop_last();
        assert forall|i: int, j: int|
            0 <= i && j == i + 1 && j < rest.len() implies !same_reading(
            #[trigger] rest[i],
            #[trigger] rest[j],
        ) by {
            assert(!same_reading(rows[i], rows[j]));
        }
        lemma_no_repeats_to_drop(rest);
        if rows.len() > 1 {
            assert(!same_reading(rows[rows.len() - 2], rows[rows.len() - 1]));
        }
        assert(without_repeats(rows) =~= rows);
    } else {
        assert(without_repeats(rows) =~= rows);
    }
}

/// Where no reading occurs twice, merging keeps every row, just as it is.
pub proof fn law_distinct_readings_are_all_kept(
    existing: Seq<PersistedEvent>,
    events: Seq<PersistedEvent>,
)
    requires
        forall|i: int, j: int|
            0 <= i < j < existing.len() + events.len() ==> !same_reading(
                #[trigger] (existing + events)[i],
                #[trigger] (existing + events)[j],
            ),
    ensures
        merged(existing, events) == time_sorted(existing + events),
{
    lemma_distinct_when_sorted(existing + events);
    lemma_no_repeats_to_drop(time_sorted(existing + events));
}

/// Rows of different readings stay so when sorted.
pub(crate) proof fn lemma_distinct_when_sorted(rows: Seq<PersistedEvent>)
    requires
        forall|i: int, j: int|
            0 <= i < j < rows.len() ==> !same_reading(#[trigger] rows[i], #[trigger] rows[j]),
    ensures
        forall|i: int, j: int|
            0 <= i < j < rows.len() ==> !same_reading(
                #[trigger] time_sorted(rows)[i],
                #[trigger] time_sorted(rows)[j],
            ),
        time_sorted(rows).len() == rows.len(),
    decreases rows.len(),
{
    law_time_sort_is_stable(rows);
    if rows.len() > 0 {
        let rest = rows.drop_last();
        let last = rows.last();
        let sorted = time_sorted(rest);
        assert forall|i: int, j: int| 0 <= i < j < rest.len() implies !same_reading(
            #[trigger] rest[i],
            #[trigger] rest[j],
        ) by {
            assert(!same_reading(rows[i], rows[j]));
        }
        lemma_distinct_when_sorted(rest);
        assert forall|i: int| 0 <= i < sorted.len() implies !same_reading(
            #[trigger] sorted[i],
            last,
        ) by {
            law_time_sort_keeps_the_rows(rest, sorted[i]);
            assert(sorted.contains(sorted[i]));
            let k = choose|k: int| 0 <= k < rest.len() && rest[k] == sorted[i];
            assert(!same_reading(rows[k], rows[rows.len() - 1]));
        }
        lemma_distinct_when_inserted(sorted, last);
    }
}

/// Inserting a row of another reading keeps readings different.
proof fn lemma_distinct_when_inserted(sorted: Seq<PersistedEvent>, row: PersistedEvent)
    requires
        forall|i: int, j: int|
            0 <= i < j < sorted.len() ==> !same_reading(#[trigger] sorted[i], #[trigger] sorted[j]),
        forall|i: int| 0 <= i < sorted.len() ==> !same_reading(#[trigger] sorted[i], row),
    ensures
        forall|i: int, j: int|
            0 <= i < j < time_insert(sorted, row).len() ==> !same_reading(
                #[trigger] time_insert(sorted, row)[i],
                #[trigger] time_insert(sorted, row)[j],
            ),
        forall|other: PersistedEvent|
            (forall|i: int| 0 <= i < sorted.len() ==> !same_reading(#[trigger] sorted[i], other))
                && !same_reading(row, other) ==> #[trigger] lacks_reading(
                time_insert(sorted, row),
                other,
            ),
    decreases sorted.len(),
{
    if !(sorted.len() == 0 || sorted.last().event_time <= row.event_time) {
        let rest = sorted.drop_last();
        let last = sorted.last();
        assert(last == sorted[sorted.len() - 1]);
        lemma_distinct_when_inserted(rest, row);
        assert(lacks_reading(time_insert(rest, row), last));
        assert forall|other: PersistedEvent|
            (forall|i: int| 0 <= i < sorted.len() ==> !same_reading(#[trigger] sorted[i], other))
                && !same_reading(row, other) implies #[trigger] lacks_reading(
            time_insert(sorted, row),
            other,
        ) by {
            assert(!same_reading(sorted[sorted.len() - 1], other));
            assert forall|i: int| 0 <= i < rest.len() implies !same_reading(
                #[trigger] rest[i],
                other,
            ) by {
                assert(!same_reading(sorted[i], other));
            }
            assert(lacks_reading(time_insert(rest, row), other));
        }
    }
}

/// Whether a reading is not among rows.
spec fn lacks_reading(rows: Seq<PersistedEvent>, row: PersistedEvent) -> bool {
    forall|i: int| 0 <= i < rows.len() ==> !same_reading(#[trigger] rows[i], row)
}

/// Merging nothing into a partition leaves it as it is.
pub proof fn law_merging_nothing_changes_nothing(
    existing: Seq<PersistedEvent>,
    events: Seq<PersistedEvent>,
)
    ensures
        merged(merged(existing, events), seq![]) == merged(existing, events),
{
    let rows = merged(existing, events);
    law_merged_rows_are_ordered(existing, events);
    assert(rows + seq![] =~= rows);
    law_time_sort_is_stable(rows);
    assert forall|time: i64| #[trigger] rows_at(rows, time) == rows_at(time_sorted(rows), time) by {
        assert(rows_at(time_sorted(rows), time) == rows_at(rows, time));
    }
    lemma_time_sort_is_unique(rows, time_sorted(rows));
    lemma_no_repeats_to_drop(rows);
}

/// A row is kept just as it is, where no other row stands for its reading.
pub proof fn law_row_without_rival_is_kept(
    existing: Seq<PersistedEvent>,
    events: Seq<PersistedEvent>,
    row: PersistedEvent,
)
    requires
        existing.contains(row) || events.contains(row),
        forall|other: PersistedEvent|
            (existing.contains(other) || events.contains(other)) && #[trigger] same_reading(
                other,
                row,
            ) ==> other == row,
    ensures
        merged(existing, events).contains(row),
{
    let rows = merged(existing, events);
    law_merging_loses_no_reading(existing, events, row);
    let i = choose|i: int| 0 <= i < rows.len() && same_reading(#[trigger] rows[i], row);
    assert(rows.contains(rows[i]));
    law_merged_rows_are_given(existing, events, rows[i]);
}

/// Merging loses no reading: for every row that was there or is new there is one
/// afterwards with the same vessel, source, number and type.
pub proof fn law_every_reading_is_kept(
    existing: Seq<PersistedEvent>,
    events: Seq<PersistedEvent>,
    row: PersistedEvent,
)
    requires
        existing.contains(row) || events.contains(row),
    ensures
        exists|i: int|
            {
                &&& 0 <= i < merged(existing, events).len()
                &&& (#[trigger] merged(existing, events)[i]).vessel_id == row.vessel_id
                &&& merged(existing, events)[i].source_id == row.source_id
                &&& merged(existing, events)[i].seq == row.seq
                &&& merged(existing, events)[i].event_type == row.event_type
            },
{
    law_merging_loses_no_reading(existing, events, row);
    let rows = merged(existing, events);
    let i = choose|i: int| 0 <= i < rows.len() && same_reading(#[trigger] rows[i], row);
    assert(rows[i].vessel_id == row.vessel_id && rows[i].event_type == row.event_type);
}

/// Putting a row among others adds just that row.
proof fn lemma_time_insert_adds_the_row(sorted: Seq<PersistedEvent>, row: PersistedEvent)
    ensures
        time_insert(sorted, row).to_multiset() == sorted.to_multiset().insert(row),
    decreases sorted.len(),
{
    broadcast use vstd::seq_lib::group_to_multiset_ensures;

    if !(sorted.len() == 0 || sorted.last().event_time <= row.event_time) {
        let rest = sorted.drop_last();
        lemma_time_insert_adds_the_row(rest, row);
        assert(rest.push(sorted.last()) =~= sorted);
        assert(time_insert(sorted, row).to_multiset() =~= sorted.to_multiset().insert(row));
    }
}

/// Sorting by time is putting the rows in another order.
pub proof fn law_time_sort_is_a_permutation(rows: Seq<PersistedEvent>)
    ensures
        time_sorted(rows).to_multiset() == rows.to_multiset(),
    decreases rows.len(),
{
    broadcast use vstd::seq_lib::group_to_multiset_ensures;

    if rows.len() > 0 {
        let rest = rows.drop_last();
        law_time_sort_is_a_permutation(rest);
        lemma_time_insert_adds_the_row(time_sorted(rest), rows.last());
        assert(rest.push(rows.last()) =~= rows);
    } else {
        assert(time_sorted(rows) =~= rows);
    }
}

/// Where no two rows agree in vessel, source, number and type, merging keeps all of them,
/// each just as it is and as often as it is there.
pub proof fn law_merging_different_readings_is_a_permutation(
    existing: Seq<PersistedEvent>,
    events: Seq<PersistedEvent>,
)
    requires
        forall|i: int, j: int|
            0 <= i < j < (existing + events).len() ==> !({
                let (a, b) = (#[trigger] (existing + events)[i], #[trigger] (existing + events)[j]);
                &&& a.vessel_id == b.vessel_id
                &&& a.source_id == b.source_id
                &&& a.seq == b.seq
                &&& a.event_type == b.event_type
            }),
    ensures
        merged(existing, events).to_multiset() == (existing + events).to_multiset(),
{
    let all = existing + events;
    assert forall|i: int, j: int| 0 <= i < j < existing.len() + events.len() implies !same_reading(
        #[trigger] all[i],
        #[trigger] all[j],
    ) by {}
    law_distinct_readings_are_all_kept(existing, events);
    law_time_sort_is_a_permutation(all);
}

/// The places of the rows that do not repeat the reading of the row just before them.
spec fn kept_places(rows: Seq<PersistedEvent>) -> Seq<int>
    decreases rows.len(),
{
    if rows.len() == 0 {
        seq![]
    } else {
        let kept = kept_places(rows.drop_last());
        if rows.len() > 1 && same_reading(rows[rows.len() - 2], rows.last()) {
            kept
        } else {
            kept.push(rows.len() - 1)
        }
    }
}

/// Whether places are, in ascending order, those of the rows that differ from the row
/// just before them in vessel, source, number or type.
pub open spec fn are_first_places(rows: Seq<PersistedEvent>, places: Seq<int>) -> bool {
    &&& forall|i: int, j: int|
        0 <= i < j < places.len() ==> #[trigger] places[i] < #[trigger] places[j]
    &&& forall|k: int| #[trigger]
        places.contains(k) <==> 0 <= k < rows.len() && (k == 0 || rows[k - 1].vessel_id
            != rows[k].vessel_id || rows[k - 1].source_id != rows[k].source_id || rows[k - 1].seq
            != rows[k].seq || rows[k - 1].event_type != rows[k].event_type)
}

/// Rows without repeats are those at the first places.
proof fn lemma_kept_places(rows: Seq<PersistedEvent>)
    ensures
        are_first_places(rows, kept_places(rows)),
        without_repeats(rows) == kept_places(rows).map_values(|k: int| rows[k]),
        forall|i: int| 0 <= i < kept_places(rows).len() ==> 0 <= #[trigger] kept_places(rows)[i]
            < rows.len(),
    decreases rows.len(),
{
    let places = kept_places(rows);
    let at = |k: int| rows[k];
    if rows.len() == 0 {
        assert(without_repeats(rows) =~= places.map_values(at));
    } else {
        let rest = rows.drop_last();
        let kept = kept_places(rest);
        let last = rows.len() - 1;
        lemma_kept_places(rest);
        assert forall|k: int| #[trigger]
            places.contains(k) <==> 0 <= k < rows.len() && (k == 0 || rows[k - 1].vessel_id
                != rows[k].vessel_id || rows[k - 1].source_id != rows[k].source_id || rows[k
                - 1].seq != rows[k].seq || rows[k - 1].event_type != rows[k].event_type) by {
            assert(kept.contains(k) <==> 0 <= k < rest.len() && (k == 0 || rest[k - 1].vessel_id
                != rest[k].vessel_id || rest[k - 1].source_id != rest[k].source_id || rest[k
                - 1].seq != rest[k].seq || rest[k - 1].event_type != rest[k].event_type));
            if kept.contains(k) {
                let i = choose|i: int| 0 <= i < kept.len() && kept[i] == k;
                assert(places[i] == k);
            }
            if places.contains(k) {
                let i = choose|i: int| 0 <= i < places.len() && places[i] == k;
                if i < kept.len() {
                    assert(kept[i] == k);
                }
            }
            if places != kept {
                assert(places[kept.len() as int] == last);
            }
        }
        assert(rest.len() > 0 ==> rest.last() == rows[rows.len() - 2]);
        assert forall|i: int| 0 <= i < kept.len() implies rest[#[trigger] kept[i]] == rows[kept[i]] by {
            assert(0 <= kept[i] < rest.len());
        }
        assert(without_repeats(rest) =~= kept.map_values(at));
        assert(without_repeats(rows) =~= places.map_values(at));
    }
}

/// What merging is: the rows that were there and then the new ones, put in ascending order
/// of their times, those of the same time left in their order, and then without each row
/// that agrees with the one just before it in vessel, source, number and type.
pub proof fn law_merging_sorts_and_drops_repeats(
    existing: Seq<PersistedEvent>,
    events: Seq<PersistedEvent>,
)
    ensures
        exists|sorted: Seq<PersistedEvent>, places: Seq<int>|
            {
                &&& forall|i: int, j: int|
                    0 <= i < j < sorted.len() ==> (#[trigger] sorted[i]).event_time <= (
                    #[trigger] sorted[j]).event_time
                &&& sorted.to_multiset() == (existing + events).to_multiset()
                &&& forall|time: i64|
                    sorted.filter(|row: PersistedEvent| row.event_time == time)
                        == #[trigger] at_time(existing + events, time)
                &&& #[trigger] are_first_places(sorted, places)
                &&& merged(existing, events) == places.map_values(|k: int| sorted[k])
            },
{
    let all = existing + events;
    let sorted = time_sorted(all);
    law_time_sort_is_stable(all);
    law_time_sort_is_a_permutation(all);
    lemma_kept_places(sorted);
    assert forall|time: i64|
        sorted.filter(|row: PersistedEvent| row.event_time == time) == #[trigger] at_time(
            all,
            time,
        ) by {
        assert(rows_at(sorted, time) == rows_at(all, time));
    }
    assert(are_first_places(sorted, kept_places(sorted)));
}

/// The rows of a time, in their order.
pub open spec fn at_time(rows: Seq<PersistedEvent>, time: i64) -> Seq<PersistedEvent> {
    rows.filter(|row: PersistedEvent| row.event_time == time)
}

/// The rows after a merge are in ascending order of their times, and no row agrees with
/// the one before it in vessel, source, number and type.
pub proof fn law_merged_rows_ascend(
    existing: Seq<PersistedEvent>,
    events: Seq<PersistedEvent>,
    i: int,
    j: int,
)
    requires
        0 <= i < j < merged(existing, events).len(),
    ensures
        merged(existing, events)[i].event_time <= merged(existing, events)[j].event_time,
        j == i + 1 ==> merged(existing, events)[i].vessel_id != merged(existing, events)[j].vessel_id
            || merged(existing, events)[i].source_id != merged(existing, events)[j].source_id
            || merged(existing, events)[i].seq != merged(existing, events)[j].seq || merged(
            existing,
            events,
        )[i].event_type != merged(existing, events)[j].event_type,
{
    law_merged_rows_are_ordered(existing, events);
    let rows = merged(existing, events);
    assert(rows[i].event_time <= rows[j].event_time);
    if j == i + 1 {
        assert(!same_reading(rows[i], rows[j]));
    }
}

/// Dropping repeats leaves the rows that differ from the row just before them in vessel,
/// source, number or type, and the first, in their order.
pub proof fn law_repeats_are_dropped(rows: Seq<PersistedEvent>) -> (places: Seq<int>)
    ensures
        are_first_places(rows, places),
        without_repeats(rows) == places.map_values(|k: int| rows[k]),
{
    lemma_kept_places(rows);
    kept_places(rows)
}

} // verus!
