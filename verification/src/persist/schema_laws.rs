//! What the footers of Parquet files are taken for, told of the bytes themselves.

use vstd::prelude::*;

use super::columnar::{ColumnKind, Leaf};
use super::compact;
use super::file_schema;
use super::file_schema::Meaning;
use super::format_laws;

verus! {

/// A footer stands before its length, of four bytes, the lowest first, and the letters
/// `PAR1`, which end the file. Without the letters, and with a length that is too large,
/// there is none.
pub proof fn law_footers_stand_before_their_length(bytes: Seq<u8>, size: int)
    requires
        0 <= size < 0x1_0000_0000,
        bytes.len() >= 8,
        bytes[bytes.len() - 8] == size % 0x100,
        bytes[bytes.len() - 7] == size / 0x100 % 0x100,
        bytes[bytes.len() - 6] == size / 0x1_0000 % 0x100,
        bytes[bytes.len() - 5] == size / 0x100_0000,
    ensures
        file_schema::footer_span(bytes) == (if bytes.skip(bytes.len() - 4) == seq![
            0x50u8,
            0x41,
            0x52,
            0x31,
        ] && size <= bytes.len() - 8 {
            Some((bytes.len() - 8 - size, bytes.len() - 8))
        } else {
            None
        }),
{
    let n = bytes.len() as int;
    let last = bytes.skip(n - 4);
    assert(last[0] == bytes[n - 4] && last[1] == bytes[n - 3] && last[2] == bytes[n - 2] && last[3]
        == bytes[n - 1]);
    if bytes[n - 4] == 0x50 && bytes[n - 3] == 0x41 && bytes[n - 2] == 0x52 && bytes[n - 1]
        == 0x31 {
        assert(last =~= seq![0x50u8, 0x41, 0x52, 0x31]);
    }
    let (low, high) = (size % 0x1_0000, size / 0x1_0000);
    assert(size == low + 0x1_0000 * high);
    assert(low == size % 0x100 + 0x100 * (size / 0x100 % 0x100));
    assert(high == size / 0x1_0000 % 0x100 + 0x100 * (size / 0x100_0000));
}

/// Fewer than eight bytes have no footer.
pub proof fn law_short_files_have_no_footer(bytes: Seq<u8>)
    requires
        bytes.len() < 8,
    ensures
        file_schema::footer_span(bytes) is None,
        file_schema::footer_ends(bytes),
        file_schema::file_leaves(bytes) is None,
{
}

/// Whether one of the next `n` bytes has no highest bit.
pub open spec fn has_low_byte(bytes: Seq<u8>, at: int, n: int) -> bool {
    exists|j: int| at <= j < at + n && #[trigger] bytes[j] < 0x80
}

/// The integers of a footer end, unless 2^29 bytes in a row have the highest bit set.
pub proof fn law_integers_of_a_footer_end(bytes: Seq<u8>, start: int, end: int)
    requires
        file_schema::footer_span(bytes) == Some((start, end)),
    ensures
        file_schema::footer_ends(bytes) == (forall|i: int|
            start <= i && i + 0x2000_0000 <= end ==> #[trigger] has_low_byte(
                bytes,
                i,
                0x2000_0000,
            )),
{
    if forall|i: int|
        start <= i && i + 0x2000_0000 <= end ==> #[trigger] has_low_byte(bytes, i, 0x2000_0000) {
        lemma_integers_end(bytes, start, end, start, 0);
    } else {
        let i = choose|i: int|
            start <= i && i + 0x2000_0000 <= end && !#[trigger] has_low_byte(
                bytes,
                i,
                0x2000_0000,
            );
        lemma_integers_go_on(bytes, start, end, 0, i, 0x2000_0000);
    }
}

proof fn lemma_integers_end(bytes: Seq<u8>, start: int, end: int, at: int, run: nat)
    requires
        0 <= start <= at - run,
        at <= end <= bytes.len(),
        run < 0x2000_0000,
        forall|i: int| at - run <= i < at ==> #[trigger] bytes[i] >= 0x80,
        forall|i: int|
            start <= i && i + 0x2000_0000 <= end ==> #[trigger] has_low_byte(
                bytes,
                i,
                0x2000_0000,
            ),
    ensures
        file_schema::integers_end(bytes, at, end, run),
    decreases end - at,
{
    if at < end {
        if bytes[at] < 0x80 {
            lemma_integers_end(bytes, start, end, at + 1, 0);
        } else {
            if run + 1 == 0x2000_0000 {
                assert(has_low_byte(bytes, at - run, 0x2000_0000));
            }
            lemma_integers_end(bytes, start, end, at + 1, run + 1);
        }
    }
}

proof fn lemma_integers_go_on(bytes: Seq<u8>, at: int, end: int, run: nat, from: int, n: int)
    requires
        0 <= at,
        end <= bytes.len(),
        at <= from,
        0 < n,
        from + n <= end,
        forall|j: int| from <= j < from + n ==> #[trigger] bytes[j] >= 0x80,
        (if at == from {
            run + n
        } else {
            n
        }) >= 0x2000_0000,
    ensures
        !file_schema::integers_end(bytes, at, end, run),
    decreases end - at,
{
    if at < from {
        let next: nat = if bytes[at] < 0x80 {
            0
        } else {
            run + 1
        };
        lemma_integers_go_on(bytes, at + 1, end, next, from, n);
    } else {
        assert(bytes[at] >= 0x80);
        if n > 1 {
            lemma_integers_go_on(bytes, at + 1, end, run + 1, from + 1, n - 1);
        }
    }
}

/// What values are: integers of 32 bits, stored as type 1, are signed unless it is said
/// that they are unsigned, of 8, 16 or 32 bits; integers of 64 bits are type 2, and texts
/// are type 6. Nothing else is in a table.
pub proof fn law_kinds_of_values(physical: nat, meaning: Meaning)
    ensures
        ({
            let kind = file_schema::value_kind(physical, meaning);
            &&& kind == Some(ColumnKind::U8) <==> physical == 1 && meaning == Meaning::Integer(
                8,
                false,
            )
            &&& kind == Some(ColumnKind::U16) <==> physical == 1 && meaning == Meaning::Integer(
                16,
                false,
            )
            &&& kind == Some(ColumnKind::U32) <==> physical == 1 && meaning == Meaning::Integer(
                32,
                false,
            )
            &&& kind == Some(ColumnKind::I32) <==> physical == 1 && (meaning == Meaning::Plain
                || meaning == Meaning::Integer(32, true))
            &&& kind == Some(ColumnKind::I64) <==> physical == 2 && (meaning == Meaning::Plain
                || meaning == Meaning::Integer(64, true))
            &&& kind == Some(ColumnKind::Utf8) <==> physical == 6 && meaning == Meaning::Text
        }),
{
}

/// What values stand for by its former name: texts are 0, and 19 in JSON; unsigned integers
/// of 8, 16 and 32 bits are 11, 12 and 13, and signed ones of 32 and 64 bits 17 and 18.
pub proof fn law_former_names(converted: nat)
    ensures
        ({
            let meaning = file_schema::converted_meaning(converted);
            &&& meaning == Meaning::Text <==> converted == 0 || converted == 19
            &&& meaning == Meaning::Integer(8, false) <==> converted == 11
            &&& meaning == Meaning::Integer(16, false) <==> converted == 12
            &&& meaning == Meaning::Integer(32, false) <==> converted == 13
            &&& meaning == Meaning::Integer(32, true) <==> converted == 17
            &&& meaning == Meaning::Integer(64, true) <==> converted == 18
            &&& meaning != Meaning::Plain
        }),
{
}

/// What the values of an element stand for is told by its field 10, or else by its field 6:
/// a structure with a field 1 or 12 stands for texts, and one with a field 10 for integers,
/// whose width is in a field 1, and whose sign is the flag in a field 2.
pub proof fn law_meanings_of_elements(bytes: Seq<u8>, at: int, end: int, p: int, q: int)
    ensures
        ({
            let meaning = file_schema::element_meaning(bytes, at, end);
            let logical = compact::field_at(bytes, at, end, 0, 10, 4);
            let former = compact::field_at(bytes, at, end, 0, 6, 4);
            let is_logical = compact::struct_in(bytes, at, end, 10, 4) == Some(p);
            let is_text = compact::struct_in(bytes, p, end, 1, 4) is Some || compact::struct_in(
                bytes,
                p,
                end,
                12,
                4,
            ) is Some;
            let is_integer = compact::struct_in(bytes, p, end, 10, 4) == Some(q);
            &&& logical is None && former is None ==> meaning == Meaning::Plain
            &&& logical is None && former is Some ==> (match compact::number_in(
                bytes,
                at,
                end,
                6,
                4,
            ) {
                Some(converted) => meaning == file_schema::converted_meaning(converted),
                None => meaning == Meaning::Other,
            })
            &&& is_logical && is_text ==> meaning == Meaning::Text
            &&& is_logical && !is_text && is_integer ==> meaning == integers_told(bytes, q, end)
            &&& is_logical && !is_text && compact::struct_in(bytes, p, end, 10, 4) is None
                ==> meaning == Meaning::Other
            &&& logical is Some && compact::struct_in(bytes, at, end, 10, 4) is None ==> meaning
                == Meaning::Other
        }),
{
}

/// What integers are, told by the fields 1 and 2 of the structure at a position: a byte,
/// behind a header of kind 3, and a flag, which is set where the header is of kind 1.
pub open spec fn integers_told(bytes: Seq<u8>, q: int, end: int) -> Meaning {
    let width = compact::field_at(bytes, q, end, 0, 1, 4);
    let sign = compact::field_at(bytes, q, end, 0, 2, 4);
    if width is Some && sign is Some && bytes[width->0] % 16 == 3 && width->0 + 1 < end && (
    bytes[sign->0] % 16 == 1 || bytes[sign->0] % 16 == 2) {
        Meaning::Integer(bytes[width->0 + 1], bytes[sign->0] % 16 == 1)
    } else {
        Meaning::Other
    }
}

/// An element describes a column by the type in its field 1 and how often a value stands in
/// a row, in its field 3: once, or at most once.
pub proof fn law_columns_of_elements(bytes: Seq<u8>, at: int, end: int)
    ensures
        file_schema::element_leaf(bytes, at, end) == (match (
            compact::number_in(bytes, at, end, 1, 4),
            compact::number_in(bytes, at, end, 3, 4),
        ) {
            (Some(physical), Some(often)) => match file_schema::value_kind(
                physical,
                file_schema::element_meaning(bytes, at, end),
            ) {
                Some(kind) => if often == 0 {
                    Some(Leaf { kind, nullable: false })
                } else if often == 1 {
                    Some(Leaf { kind, nullable: true })
                } else {
                    None
                },
                None => None,
            },
            _ => None,
        }),
        file_schema::is_group(bytes, at, end) == (compact::field_at(bytes, at, end, 0, 5, 4) is Some
            && compact::number_in(bytes, at, end, 5, 4) != Some(0nat)),
{
}

/// Whether elements stand one after the other at some positions.
pub open spec fn are_elements(bytes: Seq<u8>, starts: Seq<int>, end: int) -> bool {
    forall|i: int| 0 <= i < starts.len() - 1 ==> #[trigger] is_element(bytes, starts, i, end)
}

/// Whether an element stands at the `i`-th of some positions, and ends at the next.
pub open spec fn is_element(bytes: Seq<u8>, starts: Seq<int>, i: int, end: int) -> bool {
    compact::fields_end(bytes, starts[i], end, 4) == Some(starts[i + 1])
}

/// The columns of a file are those of the elements in the list in field 2 of its footer, in
/// their order, but for the first element, which stands for the table. Where one of them
/// is a group, nothing is known of the columns that follow.
pub proof fn law_columns_are_listed_in_the_footer(
    bytes: Seq<u8>,
    start: int,
    end: int,
    p: int,
    k: int,
    starts: Seq<int>,
    group: int,
)
    requires
        file_schema::footer_span(bytes) == Some((start, end)),
        compact::field_at(bytes, start, end, 0, 2, 0) == Some(p),
        p + 1 < end,
        bytes[p] % 16 == 9,
        bytes[p + 1] % 16 == 12,
        starts.len() > 1,
        bytes[p + 1] / 16 < 15 ==> starts.len() - 1 == bytes[p + 1] / 16 && starts[0] == p + 2,
        bytes[p + 1] / 16 == 15 ==> format_laws::is_varint(bytes, p + 2, k) && k <= 5 && p + 2 + k
            <= end && starts.len() - 1 == compact::varint_value(bytes, p + 2, 5) && starts[0] == p
            + 2 + k,
        are_elements(bytes, starts, end),
        1 <= group <= starts.len() - 1,
        forall|i: int|
            1 <= i < starts.len() - 1 ==> file_schema::is_group(bytes, #[trigger] starts[i], end)
                == (i == group),
    ensures
        file_schema::file_leaves(bytes) == Some(
            Seq::new(
                if group < starts.len() - 1 {
                    (starts.len() - 3) as nat
                } else {
                    (starts.len() - 2) as nat
                },
                |i: int|
                    if i + 1 < group {
                        file_schema::element_leaf(bytes, starts[i + 1], end)
                    } else {
                        None
                    },
            ),
        ),
{
    if bytes[p + 1] / 16 == 15 {
        format_laws::law_integers_end_with_a_low_byte(bytes, p + 2, end, 5, k);
    }
    assert(is_element(bytes, starts, 0, end));
    lemma_leaves(bytes, starts, end, group, 1, seq![]);
    let n = if group < starts.len() - 1 {
        (starts.len() - 3) as nat
    } else {
        (starts.len() - 2) as nat
    };
    let leaves = Seq::new(
        n,
        |i: int|
            if i + 1 < group {
                file_schema::element_leaf(bytes, starts[i + 1], end)
            } else {
                None
            },
    );
    let found = file_schema::file_leaves(bytes);
    assert(found is Some);
    assert(found->0 =~= leaves);
}

proof fn lemma_leaves(
    bytes: Seq<u8>,
    starts: Seq<int>,
    end: int,
    group: int,
    from: int,
    before: Seq<Option<Leaf>>,
)
    requires
        starts.len() > 1,
        are_elements(bytes, starts, end),
        1 <= group <= starts.len() - 1,
        1 <= from <= starts.len() - 1,
        forall|i: int|
            1 <= i < starts.len() - 1 ==> file_schema::is_group(bytes, #[trigger] starts[i], end)
                == (i == group),
        before.len() == (if from > group {
            from - 2
        } else {
            from - 1
        }),
        forall|i: int|
            0 <= i < before.len() ==> #[trigger] before[i] == (if i + 1 < group {
                file_schema::element_leaf(bytes, starts[i + 1], end)
            } else {
                None
            }),
    ensures
        ({
            let res = file_schema::leaves_from(
                bytes,
                starts[from],
                end,
                (starts.len() - 1 - from) as nat,
                from > group,
                before,
            );
            &&& res matches Some(leaves)
            &&& leaves.len() == (if group < starts.len() - 1 {
                starts.len() - 3
            } else {
                starts.len() - 2
            })
            &&& forall|i: int|
                0 <= i < leaves.len() ==> #[trigger] leaves[i] == (if i + 1 < group {
                    file_schema::element_leaf(bytes, starts[i + 1], end)
                } else {
                    None
                })
        }),
    decreases starts.len() - from,
{
    if from < starts.len() - 1 {
        assert(is_element(bytes, starts, from, end));
        if from == group {
            assert(file_schema::is_group(bytes, starts[from], end));
            lemma_leaves(bytes, starts, end, group, from + 1, before);
        } else {
            assert(!file_schema::is_group(bytes, starts[from], end));
            let leaf = if from > group {
                None
            } else {
                file_schema::element_leaf(bytes, starts[from], end)
            };
            lemma_leaves(bytes, starts, end, group, from + 1, before.push(leaf));
        }
    }
}

/// A file has no columns to be read where its footer has no list of structures in field 2,
/// or an empty one.
pub proof fn law_footers_without_a_schema(bytes: Seq<u8>, start: int, end: int)
    requires
        file_schema::footer_span(bytes) == Some((start, end)),
        match compact::field_at(bytes, start, end, 0, 2, 0) {
            None => true,
            Some(p) => p + 1 >= end || bytes[p] % 16 != 9 || bytes[p + 1] % 16 != 12 || bytes[p + 1]
                == 12,
        },
    ensures
        file_schema::file_leaves(bytes) is None,
{
}

} // verus!
