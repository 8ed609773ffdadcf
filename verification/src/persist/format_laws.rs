//! What bytes in the form of Parquet files are taken for, told of the bytes themselves.

use vstd::prelude::*;

use super::compact;

verus! {

/// Whether an integer of `k` bytes begins at a position: each byte but the last has its
/// highest bit set.
pub open spec fn is_varint(bytes: Seq<u8>, at: int, k: int) -> bool {
    &&& 0 <= at
    &&& 1 <= k
    &&& at + k <= bytes.len()
    &&& forall|i: int| at <= i < at + k - 1 ==> #[trigger] bytes[i] >= 0x80
    &&& bytes[at + k - 1] < 0x80
}

/// An integer ends behind the first byte without the highest bit; it is none where it has
/// more bytes than it may have, or than there are.
pub proof fn law_integers_end_with_a_low_byte(bytes: Seq<u8>, at: int, end: int, n: nat, k: int)
    requires
        is_varint(bytes, at, k),
        end <= bytes.len(),
    ensures
        compact::varint_end(bytes, at, end, n) == (if k <= n && at + k <= end {
            Some(at + k)
        } else {
            None
        }),
    decreases k,
{
    if k > 1 && n > 0 && at < end {
        assert(bytes[at] >= 0x80);
        law_integers_end_with_a_low_byte(bytes, at + 1, end, (n - 1) as nat, k - 1);
    }
}

/// Bytes that all have the highest bit make no integer.
pub proof fn law_integers_that_do_not_end(bytes: Seq<u8>, at: int, end: int, n: nat)
    requires
        0 <= at,
        end <= bytes.len(),
        forall|i: int| at <= i < at + n && i < end ==> #[trigger] bytes[i] >= 0x80,
    ensures
        compact::varint_end(bytes, at, end, n) is None,
    decreases n,
{
    if n > 0 && at < end {
        assert(bytes[at] >= 0x80);
        law_integers_that_do_not_end(bytes, at + 1, end, (n - 1) as nat);
    }
}

/// What a byte of an integer of `k` bytes adds to it, but for its place.
pub open spec fn digit_at(bytes: Seq<u8>, at: int, k: int, i: int) -> int {
    if i < k {
        bytes[at + i] as int % 0x80
    } else {
        0
    }
}

/// The bytes of an integer hold seven bits each, the lowest first.
pub proof fn law_integers_have_seven_bits_a_byte(bytes: Seq<u8>, at: int, k: int)
    requires
        is_varint(bytes, at, k),
        k <= 5,
    ensures
        compact::varint_value(bytes, at, 5) == digit_at(bytes, at, k, 0) + 0x80 * digit_at(
            bytes,
            at,
            k,
            1,
        ) + 0x4000 * digit_at(bytes, at, k, 2) + 0x20_0000 * digit_at(bytes, at, k, 3)
            + 0x1000_0000 * digit_at(bytes, at, k, 4),
{
    reveal_with_fuel(compact::varint_value, 6);
    assert(k > 1 ==> bytes[at] >= 0x80);
    assert(k > 2 ==> bytes[at + 1] >= 0x80);
    assert(k > 3 ==> bytes[at + 2] >= 0x80);
    assert(k > 4 ==> bytes[at + 3] >= 0x80);
}

/// A field is as long as its kind, the lower half of its header, tells: flags have nothing
/// behind the header, bytes one byte, integers an integer, texts their length and so many
/// bytes, and structures their fields. Fields of other kinds, and those whose header gives
/// no number, are not passed over.
pub proof fn law_fields_are_as_long_as_their_kind_tells(
    bytes: Seq<u8>,
    at: int,
    end: int,
    depth: nat,
    k: int,
)
    requires
        0 <= at < end <= bytes.len(),
        bytes[at] >= 16,
    ensures
        bytes[at] % 16 == 1 || bytes[at] % 16 == 2 ==> compact::field_end(bytes, at, end, depth)
            == Some(at + 1),
        bytes[at] % 16 == 3 && at + 2 <= end ==> compact::field_end(bytes, at, end, depth) == Some(
            at + 2,
        ),
        4 <= bytes[at] % 16 <= 6 && is_varint(bytes, at + 1, k) && k <= 10 && at + 1 + k <= end
            ==> compact::field_end(bytes, at, end, depth) == Some(at + 1 + k),
        bytes[at] % 16 == 8 && is_varint(bytes, at + 1, k) && k <= 5 && at + 1 + k
            + compact::varint_value(bytes, at + 1, 5) <= end ==> compact::field_end(
            bytes,
            at,
            end,
            depth,
        ) == Some(at + 1 + k + compact::varint_value(bytes, at + 1, 5)),
        bytes[at] % 16 == 12 && depth > 0 ==> compact::field_end(bytes, at, end, depth)
            == compact::fields_end(bytes, at + 1, end, (depth - 1) as nat),
{
    if is_varint(bytes, at + 1, k) {
        law_integers_end_with_a_low_byte(bytes, at + 1, end, 5, k);
        law_integers_end_with_a_low_byte(bytes, at + 1, end, 10, k);
    }
}

/// What no field is taken for: see [`law_fields_are_as_long_as_their_kind_tells`].
pub proof fn law_fields_that_are_not_passed_over(
    bytes: Seq<u8>,
    at: int,
    end: int,
    depth: nat,
    k: int,
)
    requires
        0 <= at < end <= bytes.len(),
        ({
            let kind = bytes[at] % 16;
            ||| bytes[at] < 16
            ||| kind == 0 || kind == 7 || kind == 9 || kind == 10 || kind == 11 || kind >= 13
            ||| kind == 12 && depth == 0
            ||| kind == 3 && at + 2 > end
            ||| 4 <= kind <= 6 && is_varint(bytes, at + 1, k) && (k > 10 || at + 1 + k > end)
            ||| kind == 8 && is_varint(bytes, at + 1, k) && (k > 5 || at + 1 + k
                + compact::varint_value(bytes, at + 1, 5) > end)
        }),
    ensures
        compact::field_end(bytes, at, end, depth) is None,
{
    if is_varint(bytes, at + 1, k) {
        law_integers_end_with_a_low_byte(bytes, at + 1, end, 5, k);
        law_integers_end_with_a_low_byte(bytes, at + 1, end, 10, k);
    }
}

/// Whether a field stands at the `i`-th of some positions, and ends at the next.
pub open spec fn is_field(bytes: Seq<u8>, starts: Seq<int>, i: int, end: int, depth: nat) -> bool {
    &&& 0 <= starts[i] < starts[i + 1] < end <= bytes.len()
    &&& bytes[starts[i]] >= 16
    &&& compact::field_end(bytes, starts[i], end, depth) == Some(starts[i + 1])
}

/// Whether fields stand one after the other at some positions, and a zero byte at the
/// last.
pub open spec fn is_structure(bytes: Seq<u8>, starts: Seq<int>, end: int, depth: nat) -> bool {
    &&& starts.len() > 0
    &&& 0 <= starts.last() < end <= bytes.len()
    &&& bytes[starts.last()] == 0
    &&& forall|i: int|
        0 <= i < starts.len() - 1 ==> #[trigger] is_field(bytes, starts, i, end, depth)
}

/// The number of a field: the sum of the upper halves of the headers up to its own.
pub open spec fn field_id(bytes: Seq<u8>, starts: Seq<int>, i: int) -> int
    decreases i + 1,
{
    if i < 0 {
        0
    } else {
        field_id(bytes, starts, i - 1) + bytes[starts[i]] / 16
    }
}

/// The numbers of fields ascend.
proof fn lemma_ids_ascend(bytes: Seq<u8>, starts: Seq<int>, end: int, depth: nat, i: int, j: int)
    requires
        is_structure(bytes, starts, end, depth),
        -1 <= i < j < starts.len() - 1,
    ensures
        field_id(bytes, starts, i) < field_id(bytes, starts, j),
    decreases j - i,
{
    assert(is_field(bytes, starts, j, end, depth));
    if i < j - 1 {
        lemma_ids_ascend(bytes, starts, end, depth, i, j - 1);
    }
}

/// A structure ends behind the zero byte that follows its fields, however many they are.
pub proof fn law_structures_end_with_a_zero_byte(
    bytes: Seq<u8>,
    starts: Seq<int>,
    end: int,
    depth: nat,
)
    requires
        is_structure(bytes, starts, end, depth),
    ensures
        compact::fields_end(bytes, starts[0], end, depth) == Some(starts.last() + 1),
{
    lemma_fields_end(bytes, starts, end, depth, 0);
}

proof fn lemma_fields_end(bytes: Seq<u8>, starts: Seq<int>, end: int, depth: nat, from: int)
    requires
        is_structure(bytes, starts, end, depth),
        0 <= from < starts.len(),
    ensures
        compact::fields_end(bytes, starts[from], end, depth) == Some(starts.last() + 1),
    decreases starts.len() - from,
{
    if from < starts.len() - 1 {
        assert(is_field(bytes, starts, from, end, depth));
        lemma_fields_end(bytes, starts, end, depth, from + 1);
    }
}

/// A field is found by its number.
pub proof fn law_fields_are_found_by_their_number(
    bytes: Seq<u8>,
    starts: Seq<int>,
    end: int,
    depth: nat,
    j: int,
)
    requires
        is_structure(bytes, starts, end, depth),
        0 <= j < starts.len() - 1,
    ensures
        compact::field_at(bytes, starts[0], end, 0, field_id(bytes, starts, j), depth) == Some(
            starts[j],
        ),
{
    lemma_field_at(bytes, starts, end, depth, 0, j);
}

proof fn lemma_field_at(
    bytes: Seq<u8>,
    starts: Seq<int>,
    end: int,
    depth: nat,
    from: int,
    j: int,
)
    requires
        is_structure(bytes, starts, end, depth),
        0 <= from <= j < starts.len() - 1,
    ensures
        compact::field_at(
            bytes,
            starts[from],
            end,
            field_id(bytes, starts, from - 1),
            field_id(bytes, starts, j),
            depth,
        ) == Some(starts[j]),
    decreases j - from,
{
    assert(is_field(bytes, starts, from, end, depth));
    if from < j {
        lemma_ids_ascend(bytes, starts, end, depth, from, j);
        lemma_field_at(bytes, starts, end, depth, from + 1, j);
    }
}

/// No field is found by a number that none has.
pub proof fn law_fields_that_are_not_there(
    bytes: Seq<u8>,
    starts: Seq<int>,
    end: int,
    depth: nat,
    wanted: int,
)
    requires
        is_structure(bytes, starts, end, depth),
        forall|j: int| 0 <= j < starts.len() - 1 ==> #[trigger] field_id(bytes, starts, j) != wanted,
    ensures
        compact::field_at(bytes, starts[0], end, 0, wanted, depth) is None,
{
    lemma_no_field_at(bytes, starts, end, depth, 0, wanted);
}

proof fn lemma_no_field_at(
    bytes: Seq<u8>,
    starts: Seq<int>,
    end: int,
    depth: nat,
    from: int,
    wanted: int,
)
    requires
        is_structure(bytes, starts, end, depth),
        0 <= from < starts.len(),
        forall|j: int| 0 <= j < starts.len() - 1 ==> #[trigger] field_id(bytes, starts, j) != wanted,
    ensures
        compact::field_at(
            bytes,
            starts[from],
            end,
            field_id(bytes, starts, from - 1),
            wanted,
            depth,
        ) is None,
    decreases starts.len() - from,
{
    if from < starts.len() - 1 {
        assert(is_field(bytes, starts, from, end, depth));
        assert(field_id(bytes, starts, from) != wanted);
        lemma_no_field_at(bytes, starts, end, depth, from + 1, wanted);
    }
}

/// Whether a field is of a kind that its number asks for: those up to a number hold
/// integers of 32 bits, and that with another number a flag.
pub open spec fn is_typed(bytes: Seq<u8>, starts: Seq<int>, i: int, numbers: int, flag: int) -> bool {
    let kind = bytes[starts[i]] % 16;
    &&& field_id(bytes, starts, i) <= numbers ==> kind == 5
    &&& field_id(bytes, starts, i) == flag ==> kind == 1 || kind == 2
}

/// A structure of fields of known kinds ends behind its zero byte, where each field is of
/// the kind that its number asks for, and has no end where one is not.
pub proof fn law_fields_of_known_kinds(
    bytes: Seq<u8>,
    starts: Seq<int>,
    end: int,
    numbers: int,
    flag: int,
    depth: nat,
)
    requires
        is_structure(bytes, starts, end, depth),
    ensures
        compact::typed_end(bytes, starts[0], end, 0, numbers, flag, depth) == (if forall|i: int|
            0 <= i < starts.len() - 1 ==> #[trigger] is_typed(bytes, starts, i, numbers, flag) {
            Some(starts.last() + 1)
        } else {
            None
        }),
{
    lemma_typed_end(bytes, starts, end, numbers, flag, depth, 0);
}

proof fn lemma_typed_end(
    bytes: Seq<u8>,
    starts: Seq<int>,
    end: int,
    numbers: int,
    flag: int,
    depth: nat,
    from: int,
)
    requires
        is_structure(bytes, starts, end, depth),
        0 <= from < starts.len(),
    ensures
        compact::typed_end(
            bytes,
            starts[from],
            end,
            field_id(bytes, starts, from - 1),
            numbers,
            flag,
            depth,
        ) == (if forall|i: int|
            from <= i < starts.len() - 1 ==> #[trigger] is_typed(bytes, starts, i, numbers, flag) {
            Some(starts.last() + 1)
        } else {
            None
        }),
    decreases starts.len() - from,
{
    if from < starts.len() - 1 {
        assert(is_field(bytes, starts, from, end, depth));
        lemma_typed_end(bytes, starts, end, numbers, flag, depth, from + 1);
        if is_typed(bytes, starts, from, numbers, flag) {
            assert((forall|i: int|
                from <= i < starts.len() - 1 ==> #[trigger] is_typed(bytes, starts, i, numbers, flag))
                == (forall|i: int|
                from + 1 <= i < starts.len() - 1 ==> #[trigger] is_typed(
                    bytes,
                    starts,
                    i,
                    numbers,
                    flag,
                )));
        }
    }
}

/// A field of kind 5 holds a number of 32 bits, stored as its double; an odd integer
/// stands for a negative number and is not taken, nor is one that is too large, nor a field
/// of another kind.
pub proof fn law_numbers_are_stored_doubled(bytes: Seq<u8>, at: int, end: int, k: int)
    requires
        0 <= at < end <= bytes.len(),
        is_varint(bytes, at + 1, k),
    ensures
        compact::number_at(bytes, at, end) == ({
            let stored = compact::varint_value(bytes, at + 1, 5);
            if bytes[at] % 16 == 5 && k <= 5 && at + 1 + k <= end && stored % 2 == 0 && stored
                <= 0xFFFF_FFFF {
                Some(stored / 2)
            } else {
                None
            }
        }),
{
    law_integers_end_with_a_low_byte(bytes, at + 1, end, 5, k);
}

/// A number is looked for in the field that has the number asked for, and a structure
/// begins behind the header of a field of kind 12.
pub proof fn law_what_is_in_a_field(bytes: Seq<u8>, at: int, end: int, wanted: int, depth: nat)
    ensures
        match compact::field_at(bytes, at, end, 0, wanted, depth) {
            None => {
                &&& compact::number_in(bytes, at, end, wanted, depth) is None
                &&& compact::struct_in(bytes, at, end, wanted, depth) is None
            },
            Some(p) => {
                &&& compact::number_in(bytes, at, end, wanted, depth) == compact::number_at(
                    bytes,
                    p,
                    end,
                )
                &&& bytes[p] % 16 == 12 ==> compact::struct_in(bytes, at, end, wanted, depth)
                    == Some(p + 1)
                &&& bytes[p] % 16 != 12 ==> compact::struct_in(bytes, at, end, wanted, depth)
                    is None
            },
        },
{
}

} // verus!
