//! The tolerance-window selection: since sources do not share a wall clock, a
//! synoptic query takes the reading nearest to a time, within a tolerance,
//! rather than the reading at exactly that time.

use vstd::prelude::*;

use super::partition;
use super::row::PersistedEvent;

verus! {

/// Default tolerance for synoptic queries: two seconds to either side.
pub const DEFAULT_TOLERANCE_NS: i64 = 2_000_000_000;

/// How far an event is from a time.
pub open spec fn distance(event: PersistedEvent, target_time: i64) -> int {
    if event.event_time < target_time {
        target_time - event.event_time
    } else {
        event.event_time - target_time
    }
}

/// Whether an event may answer a query: it is of the type asked for, if one is
/// asked for, and lies within the tolerance, bounds included.
pub open spec fn qualifies(
    event: PersistedEvent,
    target_time: i64,
    tolerance_ns: i64,
    event_type_filter: Option<u16>,
) -> bool {
    &&& match event_type_filter {
        Some(event_type) => event.event_type == event_type,
        None => true,
    }
    &&& distance(event, target_time) <= tolerance_ns
}

/// Whether two events are readings of the same source and type.
pub open spec fn same_group(a: PersistedEvent, b: PersistedEvent) -> bool {
    a.source_id == b.source_id && a.event_type == b.event_type
}

/// The order of groups: by source, then by type.
pub open spec fn group_before(a: PersistedEvent, b: PersistedEvent) -> bool {
    a.source_id < b.source_id || (a.source_id == b.source_id && a.event_type < b.event_type)
}

/// Whether one event answers a query better than another: it is closer to the
/// target or, at the same distance, later.
pub open spec fn better(a: PersistedEvent, b: PersistedEvent, target_time: i64) -> bool {
    ||| distance(a, target_time) < distance(b, target_time)
    ||| distance(a, target_time) == distance(b, target_time) && a.event_time > b.event_time
}

/// Whether the candidate at an index is the answer for its group: it qualifies,
/// is better than every qualifying candidate of its group that stands before it,
/// and no such candidate behind it is better.
pub open spec fn is_best(
    candidates: Seq<PersistedEvent>,
    k: int,
    target_time: i64,
    tolerance_ns: i64,
    event_type_filter: Option<u16>,
) -> bool {
    &&& 0 <= k < candidates.len()
    &&& qualifies(candidates[k], target_time, tolerance_ns, event_type_filter)
    &&& forall|j: int|
        0 <= j < candidates.len() && #[trigger] qualifies(
            candidates[j],
            target_time,
            tolerance_ns,
            event_type_filter,
        ) && same_group(candidates[j], candidates[k]) ==> {
            &&& j < k ==> better(candidates[k], candidates[j], target_time)
            &&& j > k ==> !better(candidates[j], candidates[k], target_time)
        }
}

/// Whether an event is the answer for its group.
#[verifier::opaque]
pub open spec fn is_answer(
    candidates: Seq<PersistedEvent>,
    event: PersistedEvent,
    target_time: i64,
    tolerance_ns: i64,
    event_type_filter: Option<u16>,
) -> bool {
    exists|k: int|
        #[trigger] is_best(candidates, k, target_time, tolerance_ns, event_type_filter)
            && candidates[k] == event
}

/// Whether a group is among the results.
#[verifier::opaque]
pub open spec fn has_group(results: Seq<PersistedEvent>, event: PersistedEvent) -> bool {
    exists|i: int| 0 <= i < results.len() && same_group(#[trigger] results[i], event)
}

/// What the answer to a query is: in the order of groups and one per group, the
/// answer of every group that has a qualifying candidate.
pub open spec fn is_selection(
    candidates: Seq<PersistedEvent>,
    target_time: i64,
    tolerance_ns: i64,
    event_type_filter: Option<u16>,
    results: Seq<PersistedEvent>,
) -> bool {
    &&& forall|i: int, j: int|
        0 <= i < j < results.len() ==> group_before(#[trigger] results[i], #[trigger] results[j])
    &&& forall|i: int|
        0 <= i < results.len() ==> is_answer(
            candidates,
            #[trigger] results[i],
            target_time,
            tolerance_ns,
            event_type_filter,
        )
    &&& forall|k: int|
        0 <= k < candidates.len() && qualifies(
            #[trigger] candidates[k],
            target_time,
            tolerance_ns,
            event_type_filter,
        ) ==> has_group(results, candidates[k])
}

/// How far an event is from a time.
fn distance_to(event: &PersistedEvent, target_time: i64) -> (res: i128)
    ensures
        res == distance(*event, target_time),
{
    let delta = event.event_time as i128 - target_time as i128;
    if delta < 0 {
        -delta
    } else {
        delta
    }
}

/// Where the group of an event stands, or is to be put, among results in the
/// order of groups.
fn group_position(results: &Vec<PersistedEvent>, event: &PersistedEvent) -> (res: usize)
    requires
        forall|i: int, j: int|
            0 <= i < j < results@.len() ==> group_before(
                #[trigger] results@[i],
                #[trigger] results@[j],
            ),
    ensures
        res <= results@.len(),
        forall|i: int| 0 <= i < res ==> group_before(#[trigger] results@[i], *event),
        forall|i: int|
            res <= i < results@.len() ==> !group_before(#[trigger] results@[i], *event),
{
    let mut lo: usize = 0;
    let mut hi: usize = results.len();
    while lo < hi
        invariant
            lo <= hi <= results@.len(),
            forall|i: int, j: int|
                0 <= i < j < results@.len() ==> group_before(
                    #[trigger] results@[i],
                    #[trigger] results@[j],
                ),
            forall|i: int| 0 <= i < lo ==> group_before(#[trigger] results@[i], *event),
            forall|i: int|
                hi <= i < results@.len() ==> !group_before(#[trigger] results@[i], *event),
        decreases hi - lo,
    {
        let mid = lo + (hi - lo) / 2;
        let row = &results[mid];
        if row.source_id < event.source_id || (row.source_id == event.source_id
            && row.event_type < event.event_type) {
            assert forall|i: int| 0 <= i <= mid implies group_before(
                #[trigger] results@[i],
                *event,
            ) by {
                if i < mid {
                    assert(group_before(results@[i], results@[mid as int]));
                }
            }
            lo = mid + 1;
        } else {
            assert forall|i: int| mid <= i < results@.len() implies !group_before(
                #[trigger] results@[i],
                *event,
            ) by {
                if mid < i {
                    assert(group_before(results@[mid as int], results@[i]));
                }
            }
            hi = mid;
        }
    }
    lo
}

/// The answer of a group stays the answer when a candidate is added that does
/// not qualify, is of another group, or is not better.
proof fn lemma_answer_stays(
    candidates: Seq<PersistedEvent>,
    event: PersistedEvent,
    added: PersistedEvent,
    target_time: i64,
    tolerance_ns: i64,
    event_type_filter: Option<u16>,
)
    requires
        is_answer(candidates, event, target_time, tolerance_ns, event_type_filter),
        qualifies(added, target_time, tolerance_ns, event_type_filter) && same_group(added, event)
            ==> !better(added, event, target_time),
    ensures
        is_answer(candidates.push(added), event, target_time, tolerance_ns, event_type_filter),
{
    reveal(is_answer);
    let k = choose|k: int|
        #[trigger] is_best(candidates, k, target_time, tolerance_ns, event_type_filter)
            && candidates[k] == event;
    let more = candidates.push(added);
    assert forall|j: int|
        0 <= j < more.len() && #[trigger] qualifies(
            more[j],
            target_time,
            tolerance_ns,
            event_type_filter,
        ) && same_group(more[j], more[k]) implies {
        &&& j < k ==> better(more[k], more[j], target_time)
        &&& j > k ==> !better(more[j], more[k], target_time)
    } by {
        if j < candidates.len() {
            assert(qualifies(candidates[j], target_time, tolerance_ns, event_type_filter));
        }
    }
    assert(is_best(more, k, target_time, tolerance_ns, event_type_filter));
}

/// An added candidate is the answer of its group if it is better than the answer
/// so far, or the first of its group.
proof fn lemma_added_is_answer(
    candidates: Seq<PersistedEvent>,
    results: Seq<PersistedEvent>,
    added: PersistedEvent,
    target_time: i64,
    tolerance_ns: i64,
    event_type_filter: Option<u16>,
)
    requires
        is_selection(candidates, target_time, tolerance_ns, event_type_filter, results),
        qualifies(added, target_time, tolerance_ns, event_type_filter),
        forall|i: int|
            0 <= i < results.len() && same_group(#[trigger] results[i], added) ==> better(
                added,
                results[i],
                target_time,
            ),
    ensures
        is_answer(candidates.push(added), added, target_time, tolerance_ns, event_type_filter),
{
    reveal(is_answer);
    reveal(has_group);
    let more = candidates.push(added);
    let n = candidates.len() as int;
    assert forall|j: int|
        0 <= j < more.len() && #[trigger] qualifies(
            more[j],
            target_time,
            tolerance_ns,
            event_type_filter,
        ) && same_group(more[j], more[n]) implies {
        &&& j < n ==> better(more[n], more[j], target_time)
        &&& j > n ==> !better(more[j], more[n], target_time)
    } by {
        if j < n {
            assert(candidates[j] == more[j]);
            assert(has_group(results, candidates[j]));
            let i = choose|i: int|
                0 <= i < results.len() && same_group(#[trigger] results[i], candidates[j]);
            let k = choose|k: int|
                #[trigger] is_best(candidates, k, target_time, tolerance_ns, event_type_filter)
                    && candidates[k] == results[i];
            assert(is_best(candidates, k, target_time, tolerance_ns, event_type_filter));
            assert(better(added, candidates[k], target_time));
            assert(qualifies(candidates[j], target_time, tolerance_ns, event_type_filter));
            assert(same_group(candidates[j], candidates[k]));
        }
    }
    assert(is_best(more, n, target_time, tolerance_ns, event_type_filter));
}

/// From a set of candidate events, select the one closest to `target_time`
/// per `(source_id, event_type)` group, keeping only those within tolerance.
///
/// Ties (two events equidistant from target) are broken by preferring the
/// event with the **later** `event_time`.
pub fn select_latest_within_tolerance(
    candidates: Vec<PersistedEvent>,
    target_time: i64,
    tolerance_ns: i64,
    event_type_filter: Option<u16>,
) -> (res: Vec<PersistedEvent>)
    ensures
        is_selection(candidates@, target_time, tolerance_ns, event_type_filter, res@),
{
    let mut best: Vec<PersistedEvent> = Vec::new();
    let mut n: usize = 0;
    while n < candidates.len()
        invariant
            n <= candidates@.len(),
            is_selection(
                candidates@.take(n as int),
                target_time,
                tolerance_ns,
                event_type_filter,
                best@,
            ),
        decreases candidates@.len() - n,
    {
        let event = candidates[n];
        let ghost seen = candidates@.take(n as int);
        let ghost old_best = best@;
        assert(candidates@.take(n + 1) =~= seen.push(event));
        let wanted = match event_type_filter {
            Some(event_type) => event.event_type == event_type,
            None => true,
        };
        if wanted && distance_to(&event, target_time) <= tolerance_ns as i128 {
            let at = group_position(&best, &event);
            if at < best.len() && best[at].source_id == event.source_id && best[at].event_type
                == event.event_type {
                let delta = distance_to(&event, target_time);
                let current_delta = distance_to(&best[at], target_time);
                if delta < current_delta || (delta == current_delta && event.event_time
                    > best[at].event_time) {
                    best.set(at, event);
                    proof {
                        lemma_replaced(
                            seen,
                            old_best,
                            at as int,
                            event,
                            target_time,
                            tolerance_ns,
                            event_type_filter,
                        );
                    }
                } else {
                    proof {
                        lemma_kept(
                            seen,
                            old_best,
                            event,
                            target_time,
                            tolerance_ns,
                            event_type_filter,
                        );
                    }
                }
            } else {
                best.insert(at, event);
                proof {
                    lemma_inserted(
                        seen,
                        old_best,
                        at as int,
                        event,
                        target_time,
                        tolerance_ns,
                        event_type_filter,
                    );
                }
            }
        } else {
            proof {
                lemma_kept(seen, old_best, event, target_time, tolerance_ns, event_type_filter);
            }
        }
        n += 1;
    }
    assert(candidates@.take(n as int) =~= candidates@);
    best
}

/// A candidate that does not qualify, or is not better than the answer of its
/// group, changes nothing.
proof fn lemma_kept(
    seen: Seq<PersistedEvent>,
    results: Seq<PersistedEvent>,
    added: PersistedEvent,
    target_time: i64,
    tolerance_ns: i64,
    event_type_filter: Option<u16>,
)
    requires
        is_selection(seen, target_time, tolerance_ns, event_type_filter, results),
        qualifies(added, target_time, tolerance_ns, event_type_filter) ==> exists|i: int|
            0 <= i < results.len() && same_group(#[trigger] results[i], added) && !better(
                added,
                results[i],
                target_time,
            ),
    ensures
        is_selection(seen.push(added), target_time, tolerance_ns, event_type_filter, results),
{
    let more = seen.push(added);
    assert forall|i: int| 0 <= i < results.len() implies is_answer(
        more,
        #[trigger] results[i],
        target_time,
        tolerance_ns,
        event_type_filter,
    ) by {
        if qualifies(added, target_time, tolerance_ns, event_type_filter) && same_group(
            added,
            results[i],
        ) {
            let m = choose|m: int|
                0 <= m < results.len() && same_group(#[trigger] results[m], added) && !better(
                    added,
                    results[m],
                    target_time,
                );
            if m < i {
                assert(group_before(results[m], results[i]));
            } else if i < m {
                assert(group_before(results[i], results[m]));
            }
        }
        lemma_answer_stays(
            seen,
            results[i],
            added,
            target_time,
            tolerance_ns,
            event_type_filter,
        );
    }
    assert forall|k: int|
        0 <= k < more.len() && qualifies(
            #[trigger] more[k],
            target_time,
            tolerance_ns,
            event_type_filter,
        ) implies has_group(results, more[k]) by {
        reveal(has_group);
        if k < seen.len() {
            assert(seen[k] == more[k]);
        }
    }
}

/// A better candidate takes the place of the answer of its group.
proof fn lemma_replaced(
    seen: Seq<PersistedEvent>,
    results: Seq<PersistedEvent>,
    at: int,
    added: PersistedEvent,
    target_time: i64,
    tolerance_ns: i64,
    event_type_filter: Option<u16>,
)
    requires
        is_selection(seen, target_time, tolerance_ns, event_type_filter, results),
        qualifies(added, target_time, tolerance_ns, event_type_filter),
        0 <= at < results.len(),
        same_group(results[at], added),
        better(added, results[at], target_time),
    ensures
        is_selection(
            seen.push(added),
            target_time,
            tolerance_ns,
            event_type_filter,
            results.update(at, added),
        ),
{
    let more = seen.push(added);
    let new = results.update(at, added);
    assert forall|i: int|
        0 <= i < results.len() && same_group(#[trigger] results[i], added) implies i == at by {
        if i < at {
            assert(group_before(results[i], results[at]));
        } else if at < i {
            assert(group_before(results[at], results[i]));
        }
    }
    lemma_added_is_answer(seen, results, added, target_time, tolerance_ns, event_type_filter);
    assert forall|i: int| 0 <= i < new.len() implies is_answer(
        more,
        #[trigger] new[i],
        target_time,
        tolerance_ns,
        event_type_filter,
    ) by {
        if i != at {
            assert(new[i] == results[i]);
            lemma_answer_stays(
                seen,
                results[i],
                added,
                target_time,
                tolerance_ns,
                event_type_filter,
            );
        }
    }
    assert forall|i: int, j: int| 0 <= i < j < new.len() implies group_before(
        #[trigger] new[i],
        #[trigger] new[j],
    ) by {
        assert(group_before(results[i], results[j]));
    }
    assert forall|k: int|
        0 <= k < more.len() && qualifies(
            #[trigger] more[k],
            target_time,
            tolerance_ns,
            event_type_filter,
        ) implies has_group(new, more[k]) by {
        reveal(has_group);
        if k < seen.len() {
            assert(seen[k] == more[k]);
            let i = choose|i: int|
                0 <= i < results.len() && same_group(#[trigger] results[i], seen[k]);
            assert(same_group(new[i], more[k]));
        } else {
            assert(same_group(new[at], more[k]));
        }
    }
}

/// The first qualifying candidate of a group is put where its group belongs.
proof fn lemma_inserted(
    seen: Seq<PersistedEvent>,
    results: Seq<PersistedEvent>,
    at: int,
    added: PersistedEvent,
    target_time: i64,
    tolerance_ns: i64,
    event_type_filter: Option<u16>,
)
    requires
        is_selection(seen, target_time, tolerance_ns, event_type_filter, results),
        qualifies(added, target_time, tolerance_ns, event_type_filter),
        0 <= at <= results.len(),
        forall|i: int| 0 <= i < at ==> group_before(#[trigger] results[i], added),
        forall|i: int| at <= i < results.len() ==> !group_before(#[trigger] results[i], added),
        at < results.len() ==> !same_group(results[at], added),
    ensures
        is_selection(
            seen.push(added),
            target_time,
            tolerance_ns,
            event_type_filter,
            results.insert(at, added),
        ),
{
    let more = seen.push(added);
    let new = results.insert(at, added);
    assert forall|i: int| at <= i < results.len() implies group_before(
        added,
        #[trigger] results[i],
    ) by {
        if at < i {
            assert(group_before(results[at], results[i]));
        }
    }
    assert forall|i: int| 0 <= i < results.len() implies !same_group(
        #[trigger] results[i],
        added,
    ) by {}
    lemma_added_is_answer(seen, results, added, target_time, tolerance_ns, event_type_filter);
    assert forall|i: int| 0 <= i < new.len() implies is_answer(
        more,
        #[trigger] new[i],
        target_time,
        tolerance_ns,
        event_type_filter,
    ) by {
        if i != at {
            let from = if i < at { i } else { i - 1 };
            assert(new[i] == results[from]);
            lemma_answer_stays(
                seen,
                results[from],
                added,
                target_time,
                tolerance_ns,
                event_type_filter,
            );
        }
    }
    assert forall|i: int, j: int| 0 <= i < j < new.len() implies group_before(
        #[trigger] new[i],
        #[trigger] new[j],
    ) by {
        let from_i = if i < at { i } else { i - 1 };
        let from_j = if j < at { j } else { j - 1 };
        if i != at {
            assert(new[i] == results[from_i]);
        }
        if j != at {
            assert(new[j] == results[from_j]);
        }
        if i != at && j != at {
            assert(group_before(results[from_i], results[from_j]));
        }
    }
    assert forall|k: int|
        0 <= k < more.len() && qualifies(
            #[trigger] more[k],
            target_time,
            tolerance_ns,
            event_type_filter,
        ) implies has_group(new, more[k]) by {
        reveal(has_group);
        if k < seen.len() {
            assert(seen[k] == more[k]);
            let i = choose|i: int|
                0 <= i < results.len() && same_group(#[trigger] results[i], seen[k]);
            let to = if i < at { i } else { i + 1 };
            assert(new[to] == results[i]);
            assert(same_group(new[to], more[k]));
        } else {
            assert(new[at] == added);
            assert(same_group(new[at], more[k]));
        }
    }
}

/// A group has one answer.
proof fn lemma_answer_is_unique(
    candidates: Seq<PersistedEvent>,
    a: PersistedEvent,
    b: PersistedEvent,
    target_time: i64,
    tolerance_ns: i64,
    event_type_filter: Option<u16>,
)
    requires
        is_answer(candidates, a, target_time, tolerance_ns, event_type_filter),
        is_answer(candidates, b, target_time, tolerance_ns, event_type_filter),
        same_group(a, b),
    ensures
        a == b,
{
    reveal(is_answer);
    let i = choose|i: int|
        #[trigger] is_best(candidates, i, target_time, tolerance_ns, event_type_filter)
            && candidates[i] == a;
    let j = choose|j: int|
        #[trigger] is_best(candidates, j, target_time, tolerance_ns, event_type_filter)
            && candidates[j] == b;
    assert(qualifies(candidates[i], target_time, tolerance_ns, event_type_filter));
    assert(qualifies(candidates[j], target_time, tolerance_ns, event_type_filter));
}

/// A query has one answer: two selections from the same candidates are equal.
pub proof fn law_selection_is_unique(
    candidates: Seq<PersistedEvent>,
    target_time: i64,
    tolerance_ns: i64,
    event_type_filter: Option<u16>,
    a: Seq<PersistedEvent>,
    b: Seq<PersistedEvent>,
)
    requires
        is_selection(candidates, target_time, tolerance_ns, event_type_filter, a),
        is_selection(candidates, target_time, tolerance_ns, event_type_filter, b),
    ensures
        a == b,
{
    let shared = if a.len() < b.len() { a.len() as int } else { b.len() as int };
    lemma_same_prefix(candidates, target_time, tolerance_ns, event_type_filter, a, b, shared);
    if a.len() > shared {
        lemma_group_is_ahead(
            candidates,
            target_time,
            tolerance_ns,
            event_type_filter,
            a,
            b,
            shared,
        );
    } else if b.len() > shared {
        lemma_group_is_ahead(
            candidates,
            target_time,
            tolerance_ns,
            event_type_filter,
            b,
            a,
            shared,
        );
    }
    assert(a.take(shared) =~= a);
    assert(b.take(shared) =~= b);
}

/// The index of a candidate that is the answer of its group.
proof fn lemma_answer_is_candidate(
    candidates: Seq<PersistedEvent>,
    event: PersistedEvent,
    target_time: i64,
    tolerance_ns: i64,
    event_type_filter: Option<u16>,
) -> (k: int)
    requires
        is_answer(candidates, event, target_time, tolerance_ns, event_type_filter),
    ensures
        0 <= k < candidates.len(),
        candidates[k] == event,
        qualifies(event, target_time, tolerance_ns, event_type_filter),
{
    reveal(is_answer);
    choose|k: int|
        #[trigger] is_best(candidates, k, target_time, tolerance_ns, event_type_filter)
            && candidates[k] == event
}

/// The index of a group among the results.
pub(crate) proof fn lemma_group_index(results: Seq<PersistedEvent>, event: PersistedEvent) -> (i:
    int)
    requires
        has_group(results, event),
    ensures
        0 <= i < results.len(),
        same_group(results[i], event),
{
    reveal(has_group);
    choose|i: int| 0 <= i < results.len() && same_group(#[trigger] results[i], event)
}

/// Where two selections agree on the first `n` groups, the next group of the one
/// is found in the other behind them.
proof fn lemma_group_is_ahead(
    candidates: Seq<PersistedEvent>,
    target_time: i64,
    tolerance_ns: i64,
    event_type_filter: Option<u16>,
    a: Seq<PersistedEvent>,
    b: Seq<PersistedEvent>,
    n: int,
) -> (at: int)
    requires
        is_selection(candidates, target_time, tolerance_ns, event_type_filter, a),
        is_selection(candidates, target_time, tolerance_ns, event_type_filter, b),
        0 <= n < a.len(),
        n <= b.len(),
        a.take(n) == b.take(n),
    ensures
        n <= at < b.len(),
        same_group(b[at], a[n]),
{
    assert(is_answer(candidates, a[n], target_time, tolerance_ns, event_type_filter));
    let k = lemma_answer_is_candidate(
        candidates,
        a[n],
        target_time,
        tolerance_ns,
        event_type_filter,
    );
    assert(has_group(b, candidates[k]));
    let at = lemma_group_index(b, candidates[k]);
    if at < n {
        assert(a[at] == a.take(n)[at]);
        assert(b[at] == b.take(n)[at]);
        assert(group_before(a[at], a[n]));
    }
    at
}

/// Two selections from the same candidates agree as far as both reach.
proof fn lemma_same_prefix(
    candidates: Seq<PersistedEvent>,
    target_time: i64,
    tolerance_ns: i64,
    event_type_filter: Option<u16>,
    a: Seq<PersistedEvent>,
    b: Seq<PersistedEvent>,
    n: int,
)
    requires
        is_selection(candidates, target_time, tolerance_ns, event_type_filter, a),
        is_selection(candidates, target_time, tolerance_ns, event_type_filter, b),
        0 <= n <= a.len(),
        n <= b.len(),
    ensures
        a.take(n) == b.take(n),
    decreases n,
{
    if n > 0 {
        let m = n - 1;
        lemma_same_prefix(candidates, target_time, tolerance_ns, event_type_filter, a, b, m);
        let in_b = lemma_group_is_ahead(
            candidates,
            target_time,
            tolerance_ns,
            event_type_filter,
            a,
            b,
            m,
        );
        let in_a = lemma_group_is_ahead(
            candidates,
            target_time,
            tolerance_ns,
            event_type_filter,
            b,
            a,
            m,
        );
        if in_b > m {
            assert(group_before(b[m], b[in_b]));
        }
        if in_a > m {
            assert(group_before(a[m], a[in_a]));
        }
        assert(same_group(a[m], b[m]));
        lemma_answer_is_unique(
            candidates,
            a[m],
            b[m],
            target_time,
            tolerance_ns,
            event_type_filter,
        );
        assert(a.take(n) =~= a.take(m).push(a[m]));
        assert(b.take(n) =~= b.take(m).push(b[m]));
    }
    assert(a.take(n) =~= b.take(n));
}

/// Every result is a candidate of the type asked for, within the tolerance, and
/// none of the qualifying candidates of its source and type is nearer, or as
/// near and later.
pub proof fn law_results_are_nearest(
    candidates: Seq<PersistedEvent>,
    target_time: i64,
    tolerance_ns: i64,
    event_type_filter: Option<u16>,
    results: Seq<PersistedEvent>,
    i: int,
    k: int,
)
    requires
        is_selection(candidates, target_time, tolerance_ns, event_type_filter, results),
        0 <= i < results.len(),
        0 <= k < candidates.len(),
        qualifies(candidates[k], target_time, tolerance_ns, event_type_filter),
        same_group(candidates[k], results[i]),
    ensures
        candidates.contains(results[i]),
        qualifies(results[i], target_time, tolerance_ns, event_type_filter),
        !better(candidates[k], results[i], target_time),
{
    reveal(is_answer);
    assert(is_answer(candidates, results[i], target_time, tolerance_ns, event_type_filter));
    let m = choose|m: int|
        #[trigger] is_best(candidates, m, target_time, tolerance_ns, event_type_filter)
            && candidates[m] == results[i];
    assert(is_best(candidates, m, target_time, tolerance_ns, event_type_filter));
}

/// Candidates outside the window, or of another type, have no influence: the
/// answer is the same without them.
pub proof fn law_only_qualifying_candidates_matter(
    candidates: Seq<PersistedEvent>,
    keep: spec_fn(PersistedEvent) -> bool,
    target_time: i64,
    tolerance_ns: i64,
    event_type_filter: Option<u16>,
    results: Seq<PersistedEvent>,
)
    requires
        forall|event: PersistedEvent| #[trigger]
            qualifies(event, target_time, tolerance_ns, event_type_filter) ==> keep(event),
        is_selection(
            candidates.filter(keep),
            target_time,
            tolerance_ns,
            event_type_filter,
            results,
        ),
    ensures
        is_selection(candidates, target_time, tolerance_ns, event_type_filter, results),
{
    lemma_selection_from_all(
        candidates,
        keep,
        target_time,
        tolerance_ns,
        event_type_filter,
    );
    let kept = candidates.filter(keep);
    assert forall|i: int| 0 <= i < results.len() implies is_answer(
        candidates,
        #[trigger] results[i],
        target_time,
        tolerance_ns,
        event_type_filter,
    ) by {
        assert(is_answer(kept, results[i], target_time, tolerance_ns, event_type_filter));
    }
    assert forall|k: int|
        0 <= k < candidates.len() && qualifies(
            #[trigger] candidates[k],
            target_time,
            tolerance_ns,
            event_type_filter,
        ) implies has_group(results, candidates[k]) by {
        reveal(has_group);
        candidates.lemma_filter_contains(keep, k);
        let m = choose|m: int| 0 <= m < kept.len() && kept[m] == candidates[k];
        assert(has_group(results, kept[m]));
    }
}

/// An answer among the kept candidates is an answer among all.
proof fn lemma_selection_from_all(
    candidates: Seq<PersistedEvent>,
    keep: spec_fn(PersistedEvent) -> bool,
    target_time: i64,
    tolerance_ns: i64,
    event_type_filter: Option<u16>,
)
    requires
        forall|event: PersistedEvent| #[trigger]
            qualifies(event, target_time, tolerance_ns, event_type_filter) ==> keep(event),
    ensures
        forall|event: PersistedEvent|
            is_answer(
                candidates.filter(keep),
                event,
                target_time,
                tolerance_ns,
                event_type_filter,
            ) ==> #[trigger] is_answer(
                candidates,
                event,
                target_time,
                tolerance_ns,
                event_type_filter,
            ),
    decreases candidates.len(),
{
    reveal(Seq::filter);
    if candidates.len() > 0 {
        let last = candidates.last();
        let rest = candidates.drop_last();
        lemma_selection_from_all(rest, keep, target_time, tolerance_ns, event_type_filter);
        assert(candidates =~= rest.push(last));
        assert forall|event: PersistedEvent|
            is_answer(
                candidates.filter(keep),
                event,
                target_time,
                tolerance_ns,
                event_type_filter,
            ) implies #[trigger] is_answer(
            candidates,
            event,
            target_time,
            tolerance_ns,
            event_type_filter,
        ) by {
            lemma_answer_of_extended(
                rest,
                keep,
                last,
                event,
                target_time,
                tolerance_ns,
                event_type_filter,
            );
        }
    }
}

/// The same, one candidate at a time.
proof fn lemma_answer_of_extended(
    rest: Seq<PersistedEvent>,
    keep: spec_fn(PersistedEvent) -> bool,
    last: PersistedEvent,
    event: PersistedEvent,
    target_time: i64,
    tolerance_ns: i64,
    event_type_filter: Option<u16>,
)
    requires
        qualifies(last, target_time, tolerance_ns, event_type_filter) ==> keep(last),
        forall|event: PersistedEvent| #[trigger]
            qualifies(event, target_time, tolerance_ns, event_type_filter) ==> keep(event),
        is_answer(rest.filter(keep), event, target_time, tolerance_ns, event_type_filter)
            ==> is_answer(rest, event, target_time, tolerance_ns, event_type_filter),
        is_answer(
            if keep(last) {
                rest.filter(keep).push(last)
            } else {
                rest.filter(keep)
            },
            event,
            target_time,
            tolerance_ns,
            event_type_filter,
        ),
    ensures
        is_answer(rest.push(last), event, target_time, tolerance_ns, event_type_filter),
{
    reveal(is_answer);
    let kept = rest.filter(keep);
    if !keep(last) {
        lemma_answer_stays(rest, event, last, target_time, tolerance_ns, event_type_filter);
    } else {
        let more = kept.push(last);
        let k = choose|k: int|
            #[trigger] is_best(more, k, target_time, tolerance_ns, event_type_filter) && more[k]
                == event;
        assert(is_best(more, k, target_time, tolerance_ns, event_type_filter));
        if k < kept.len() {
            assert forall|j: int|
                0 <= j < kept.len() && #[trigger] qualifies(
                    kept[j],
                    target_time,
                    tolerance_ns,
                    event_type_filter,
                ) && same_group(kept[j], kept[k]) implies {
                &&& j < k ==> better(kept[k], kept[j], target_time)
                &&& j > k ==> !better(kept[j], kept[k], target_time)
            } by {
                assert(qualifies(more[j], target_time, tolerance_ns, event_type_filter));
            }
            assert(is_best(kept, k, target_time, tolerance_ns, event_type_filter));
            assert(more[kept.len() as int] == last);
            lemma_answer_stays(rest, event, last, target_time, tolerance_ns, event_type_filter);
        } else {
            let all = rest.push(last);
            let n = rest.len() as int;
            assert forall|j: int|
                0 <= j < all.len() && #[trigger] qualifies(
                    all[j],
                    target_time,
                    tolerance_ns,
                    event_type_filter,
                ) && same_group(all[j], all[n]) implies {
                &&& j < n ==> better(all[n], all[j], target_time)
                &&& j > n ==> !better(all[j], all[n], target_time)
            } by {
                if j < n {
                    rest.lemma_filter_contains(keep, j);
                    let m = choose|m: int| 0 <= m < kept.len() && kept[m] == rest[j];
                    assert(qualifies(more[m], target_time, tolerance_ns, event_type_filter));
                }
            }
            assert(is_best(all, n, target_time, tolerance_ns, event_type_filter));
        }
    }
}

/// Whether an event belongs to one of the hours that overlap the window.
pub open spec fn in_window_hours(
    event: PersistedEvent,
    target_time: i64,
    tolerance_ns: i64,
) -> bool {
    partition::hour_of(partition::clamp_time(target_time - tolerance_ns)) <= partition::hour_of(
        event.event_time as int,
    ) <= partition::hour_of(partition::clamp_time(target_time + tolerance_ns))
}

/// Reading only the partitions of the hours that overlap the window gives the
/// answer that reading every partition would give.
pub proof fn law_other_hours_do_not_matter(
    candidates: Seq<PersistedEvent>,
    target_time: i64,
    tolerance_ns: i64,
    event_type_filter: Option<u16>,
    results: Seq<PersistedEvent>,
)
    requires
        is_selection(
            candidates.filter(
                |event: PersistedEvent| in_window_hours(event, target_time, tolerance_ns),
            ),
            target_time,
            tolerance_ns,
            event_type_filter,
            results,
        ),
    ensures
        is_selection(candidates, target_time, tolerance_ns, event_type_filter, results),
{
    let keep = |event: PersistedEvent| in_window_hours(event, target_time, tolerance_ns);
    assert forall|event: PersistedEvent| #[trigger]
        qualifies(event, target_time, tolerance_ns, event_type_filter) implies keep(event) by {
        partition::law_window_hours_cover_the_window(target_time, tolerance_ns, event.event_time);
    }
    law_only_qualifying_candidates_matter(
        candidates,
        keep,
        target_time,
        tolerance_ns,
        event_type_filter,
        results,
    );
}

/// The tolerance of a query that names none is two seconds, in nanoseconds.
pub proof fn law_default_tolerance()
    ensures
        DEFAULT_TOLERANCE_NS == 2 * 1_000_000_000,
{
}

/// No reading in the window goes without an answer: every candidate of the type asked
/// for, or of any if none is asked for, whose time is no farther from the target than the
/// tolerance, before it or after it, has a result of its source and type.
pub proof fn law_every_reading_in_the_window_is_answered(
    candidates: Seq<PersistedEvent>,
    target_time: i64,
    tolerance_ns: i64,
    event_type_filter: Option<u16>,
    results: Seq<PersistedEvent>,
    k: int,
)
    requires
        is_selection(candidates, target_time, tolerance_ns, event_type_filter, results),
        0 <= k < candidates.len(),
        event_type_filter is None || event_type_filter == Some(candidates[k].event_type),
        target_time - tolerance_ns <= candidates[k].event_time <= target_time + tolerance_ns,
    ensures
        exists|i: int|
            0 <= i < results.len() && (#[trigger] results[i]).source_id == candidates[k].source_id
                && results[i].event_type == candidates[k].event_type,
{
    assert(qualifies(candidates[k], target_time, tolerance_ns, event_type_filter));
    assert(has_group(results, candidates[k]));
    let i = lemma_group_index(results, candidates[k]);
    assert(results[i].source_id == candidates[k].source_id);
}

/// Nothing else is answered, and nothing nearer is passed over: every result is a
/// candidate of the type asked for, within the tolerance of the target, and of the
/// candidates of its source and type in the window none is nearer to the target, none as
/// near is later, and none at the same time came before it.
pub proof fn law_results_are_the_nearest_in_the_window(
    candidates: Seq<PersistedEvent>,
    target_time: i64,
    tolerance_ns: i64,
    event_type_filter: Option<u16>,
    results: Seq<PersistedEvent>,
    i: int,
)
    requires
        is_selection(candidates, target_time, tolerance_ns, event_type_filter, results),
        0 <= i < results.len(),
    ensures
        event_type_filter is None || event_type_filter == Some(results[i].event_type),
        target_time - tolerance_ns <= results[i].event_time <= target_time + tolerance_ns,
        exists|m: int|
            {
                &&& 0 <= m < candidates.len()
                &&& #[trigger] candidates[m] == results[i]
                &&& forall|k: int|
                    0 <= k < candidates.len() && (#[trigger] candidates[k]).source_id
                        == results[i].source_id && candidates[k].event_type
                        == results[i].event_type ==> {
                        let gap = if candidates[k].event_time < target_time {
                            target_time - candidates[k].event_time
                        } else {
                            candidates[k].event_time - target_time
                        };
                        let own = if results[i].event_time < target_time {
                            target_time - results[i].event_time
                        } else {
                            results[i].event_time - target_time
                        };
                        &&& own <= gap
                        &&& own == gap ==> candidates[k].event_time <= results[i].event_time
                        &&& candidates[k].event_time == results[i].event_time ==> m <= k
                    }
            },
{
    reveal(is_answer);
    assert(is_answer(candidates, results[i], target_time, tolerance_ns, event_type_filter));
    let m = choose|m: int|
        #[trigger] is_best(candidates, m, target_time, tolerance_ns, event_type_filter)
            && candidates[m] == results[i];
    assert(is_best(candidates, m, target_time, tolerance_ns, event_type_filter));
    assert forall|k: int|
        0 <= k < candidates.len() && (#[trigger] candidates[k]).source_id == results[i].source_id
            && candidates[k].event_type == results[i].event_type implies {
        let gap = if candidates[k].event_time < target_time {
            target_time - candidates[k].event_time
        } else {
            candidates[k].event_time - target_time
        };
        let own = if results[i].event_time < target_time {
            target_time - results[i].event_time
        } else {
            results[i].event_time - target_time
        };
        &&& own <= gap
        &&& own == gap ==> candidates[k].event_time <= results[i].event_time
        &&& candidates[k].event_time == results[i].event_time ==> m <= k
    } by {
        if distance(candidates[k], target_time) <= tolerance_ns {
            assert(qualifies(candidates[k], target_time, tolerance_ns, event_type_filter));
        }
    }
    assert(candidates[m] == results[i]);
}

/// The results are in ascending order of their sources and, for the same source, of
/// their types, and there is one for each.
pub proof fn law_results_ascend(
    candidates: Seq<PersistedEvent>,
    target_time: i64,
    tolerance_ns: i64,
    event_type_filter: Option<u16>,
    results: Seq<PersistedEvent>,
    i: int,
    j: int,
)
    requires
        is_selection(candidates, target_time, tolerance_ns, event_type_filter, results),
        0 <= i < j < results.len(),
    ensures
        results[i].source_id <= results[j].source_id,
        results[i].source_id == results[j].source_id ==> results[i].event_type
            < results[j].event_type,
{
    assert(group_before(results[i], results[j]));
}

} // verus!
