//! The columns of a Parquet file, as its footer describes them.
//!
//! The schema stands at the start of the footer, as a list of elements: one for
//! the table, and one for each column, or group of columns, that follows.

use vstd::prelude::*;

use super::columnar::{ColumnKind, Leaf};
use super::compact;

verus! {

/// The letters at the end of a Parquet file.
pub const MAGIC: [u8; 4] = [0x50, 0x41, 0x52, 0x31];

/// How many bytes of an integer that goes on are in a row in a footer, less than:
/// with more the decoder of integers runs over.
pub const LONGEST_RUN: u64 = 0x2000_0000;

/// The field of a footer that holds the schema.
pub const SCHEMA_ID: u8 = 2;

/// How deep structures are nested in an element of a schema, at most.
pub const ELEMENT_DEPTH: u8 = 4;

/// The field of an element that holds the type in which values are stored.
pub const PHYSICAL_ID: u8 = 1;

/// The field of an element that tells how often a value stands in a row.
pub const REPETITION_ID: u8 = 3;

/// The field of an element that holds the number of elements in it.
pub const CHILDREN_ID: u8 = 5;

/// The field of an element that tells what values stand for, by its former name.
pub const CONVERTED_ID: u8 = 6;

/// The field of an element that tells what values stand for.
pub const LOGICAL_ID: u8 = 10;

/// The field of what values stand for, if they are texts.
pub const STRING_ID: u8 = 1;

/// The field of what values stand for, if they are integers.
pub const INTEGER_ID: u8 = 10;

/// The field of what values stand for, if they are texts in JSON.
pub const JSON_ID: u8 = 12;

/// The field of what integers are that holds their width.
pub const WIDTH_ID: u8 = 1;

/// The field of what integers are that tells whether they are signed.
pub const SIGNED_ID: u8 = 2;

/// The type of integers of 32 bits.
pub const INT32: u64 = 1;

/// The type of integers of 64 bits.
pub const INT64: u64 = 2;

/// The type of byte strings.
pub const BYTE_ARRAY: u64 = 6;

/// What texts are, by its former name.
pub const UTF8: u64 = 0;

/// What unsigned integers of 8 bits are, by its former name.
pub const UINT_8: u64 = 11;

/// What unsigned integers of 16 bits are, by its former name.
pub const UINT_16: u64 = 12;

/// What unsigned integers of 32 bits are, by its former name.
pub const UINT_32: u64 = 13;

/// What signed integers of 32 bits are, by its former name.
pub const INT_32: u64 = 17;

/// What signed integers of 64 bits are, by its former name.
pub const INT_64: u64 = 18;

/// What texts in JSON are, by its former name.
pub const JSON: u64 = 19;

/// A value in every row.
pub const REQUIRED: u64 = 0;

/// A value in a row, or none.
pub const OPTIONAL: u64 = 1;

/// The place of the footer of a Parquet file: it stands before its length, of
/// four bytes, and four letters.
pub open spec fn footer_span(bytes: Seq<u8>) -> Option<(int, int)> {
    let n = bytes.len() as int;
    if n < 8 || bytes[n - 4] != MAGIC[0] || bytes[n - 3] != MAGIC[1] || bytes[n - 2] != MAGIC[2]
        || bytes[n - 1] != MAGIC[3] {
        None
    } else {
        let size = bytes[n - 8] + 0x100 * bytes[n - 7] + 0x1_0000 * bytes[n - 6] + 0x100_0000
            * bytes[n - 5];
        if size > n - 8 {
            None
        } else {
            Some((n - 8 - size, n - 8))
        }
    }
}

/// The place of the footer, see [`footer_span`].
fn find_footer(bytes: &Vec<u8>) -> (res: Option<(usize, usize)>)
    ensures
        match res {
            Some((start, end)) => start <= end <= bytes@.len() && footer_span(bytes@) == Some(
                (start as int, end as int),
            ),
            None => footer_span(bytes@) is None,
        },
{
    let n = bytes.len();
    if n < 8 || bytes[n - 4] != MAGIC[0] || bytes[n - 3] != MAGIC[1] || bytes[n - 2] != MAGIC[2]
        || bytes[n - 1] != MAGIC[3] {
        return None;
    }
    let size: u64 = bytes[n - 8] as u64 + 0x100 * bytes[n - 7] as u64 + 0x1_0000 * bytes[n
        - 6] as u64 + 0x100_0000 * bytes[n - 5] as u64;
    if size > (n - 8) as u64 {
        None
    } else {
        Some((n - 8 - size as usize, n - 8))
    }
}

/// Whether no integer goes on for too long from a position to another, behind a
/// number of bytes of one that goes on.
pub open spec fn integers_end(bytes: Seq<u8>, at: int, end: int, run: nat) -> bool
    decreases end - at,
{
    if !(0 <= at < end <= bytes.len()) {
        true
    } else if bytes[at] < 0x80 {
        integers_end(bytes, at + 1, end, 0)
    } else {
        run + 1 < LONGEST_RUN && integers_end(bytes, at + 1, end, run + 1)
    }
}

/// Whether no integer in the footer of a file, if it has one, goes on for too long.
pub open spec fn footer_ends(bytes: Seq<u8>) -> bool {
    match footer_span(bytes) {
        None => true,
        Some((start, end)) => integers_end(bytes, start, end, 0),
    }
}

/// Whether no integer in the footer goes on for too long, see [`footer_ends`].
pub fn check_footer(bytes: &Vec<u8>) -> (res: bool)
    ensures
        res == footer_ends(bytes@),
{
    let (start, end) = match find_footer(bytes) {
        Some(span) => span,
        None => return true,
    };
    let mut pos: usize = start;
    let mut run: u64 = 0;
    while pos < end
        invariant
            start <= pos,
            end <= bytes@.len(),
            run < LONGEST_RUN,
            footer_span(bytes@) == Some((start as int, end as int)),
            integers_end(bytes@, start as int, end as int, 0) == integers_end(
                bytes@,
                pos as int,
                end as int,
                run as nat,
            ),
        decreases end - pos,
    {
        if bytes[pos] < 0x80 {
            run = 0;
        } else if run + 1 < LONGEST_RUN {
            run += 1;
        } else {
            return false;
        }
        pos += 1;
    }
    true
}

/// How many elements the schema of a file has, and where the first one stands: the
/// schema is a list of structures.
pub open spec fn schema_list(bytes: Seq<u8>, start: int, end: int) -> Option<(nat, int)> {
    match compact::field_at(bytes, start, end, 0, SCHEMA_ID as int, 0) {
        None => None,
        Some(p) => if !(p + 1 < end) || bytes[p] % 16 != compact::LIST_KIND || bytes[p + 1] % 16
            != compact::STRUCT_KIND {
            None
        } else if bytes[p + 1] / 16 < 15 {
            Some(((bytes[p + 1] / 16) as nat, p + 2))
        } else {
            match compact::varint_end(bytes, p + 2, end, compact::LONGEST_I32 as nat) {
                None => None,
                Some(next) => Some(
                    (compact::varint_value(bytes, p + 2, compact::LONGEST_I32 as nat), next),
                ),
            }
        },
    }
}

/// How many elements the schema of a file has, see [`schema_list`].
fn find_schema(bytes: &Vec<u8>, start: usize, end: usize) -> (res: Option<(u64, usize)>)
    requires
        end <= bytes@.len(),
    ensures
        match res {
            Some((size, at)) => at <= end && schema_list(bytes@, start as int, end as int) == Some(
                (size as nat, at as int),
            ),
            None => schema_list(bytes@, start as int, end as int) is None,
        },
{
    let p = match compact::find_field(bytes, start, end, SCHEMA_ID, 0) {
        Some(p) => p,
        None => return None,
    };
    if end - p < 2 || bytes[p] % 16 != compact::LIST_KIND || bytes[p + 1] % 16
        != compact::STRUCT_KIND {
        None
    } else if bytes[p + 1] / 16 < 15 {
        Some(((bytes[p + 1] / 16) as u64, p + 2))
    } else {
        compact::read_varint(bytes, p + 2, end, compact::LONGEST_I32)
    }
}

/// What an element of a schema says that values stand for.
#[derive(Clone, Copy, Debug, PartialEq, Eq, Structural)]
pub enum Meaning {
    /// Nothing is said.
    Plain,
    /// Texts.
    Text,
    /// Integers of so many bits, signed or not.
    Integer(u8, bool),
    /// Something else.
    Other,
}

/// What values stand for by its former name.
pub open spec fn converted_meaning(converted: nat) -> Meaning {
    if converted == UTF8 || converted == JSON {
        Meaning::Text
    } else if converted == UINT_8 {
        Meaning::Integer(8, false)
    } else if converted == UINT_16 {
        Meaning::Integer(16, false)
    } else if converted == UINT_32 {
        Meaning::Integer(32, false)
    } else if converted == INT_32 {
        Meaning::Integer(32, true)
    } else if converted == INT_64 {
        Meaning::Integer(64, true)
    } else {
        Meaning::Other
    }
}

/// What values stand for by its former name, see [`converted_meaning`].
fn meaning_of_converted(converted: u64) -> (res: Meaning)
    ensures
        res == converted_meaning(converted as nat),
{
    if converted == UTF8 || converted == JSON {
        Meaning::Text
    } else if converted == UINT_8 {
        Meaning::Integer(8, false)
    } else if converted == UINT_16 {
        Meaning::Integer(16, false)
    } else if converted == UINT_32 {
        Meaning::Integer(32, false)
    } else if converted == INT_32 {
        Meaning::Integer(32, true)
    } else if converted == INT_64 {
        Meaning::Integer(64, true)
    } else {
        Meaning::Other
    }
}

/// What integers are, from the structure that tells it.
pub open spec fn integer_meaning(bytes: Seq<u8>, at: int, end: int) -> Meaning {
    let depth = ELEMENT_DEPTH as nat;
    match (
        compact::field_at(bytes, at, end, 0, WIDTH_ID as int, depth),
        compact::field_at(bytes, at, end, 0, SIGNED_ID as int, depth),
    ) {
        (Some(width), Some(sign)) => if bytes[width] % 16 == compact::BYTE_KIND && width + 1 < end
            && (bytes[sign] % 16 == compact::TRUE_KIND || bytes[sign] % 16 == compact::FALSE_KIND) {
            Meaning::Integer(bytes[width + 1], bytes[sign] % 16 == compact::TRUE_KIND)
        } else {
            Meaning::Other
        },
        _ => Meaning::Other,
    }
}

/// What integers are, see [`integer_meaning`].
fn meaning_of_integer(bytes: &Vec<u8>, at: usize, end: usize) -> (res: Meaning)
    requires
        end <= bytes@.len(),
    ensures
        res == integer_meaning(bytes@, at as int, end as int),
{
    let width = compact::find_field(bytes, at, end, WIDTH_ID, ELEMENT_DEPTH);
    let sign = compact::find_field(bytes, at, end, SIGNED_ID, ELEMENT_DEPTH);
    match (width, sign) {
        (Some(width), Some(sign)) => if bytes[width] % 16 == compact::BYTE_KIND && end - width > 1
            && (bytes[sign] % 16 == compact::TRUE_KIND || bytes[sign] % 16 == compact::FALSE_KIND) {
            Meaning::Integer(bytes[width + 1], bytes[sign] % 16 == compact::TRUE_KIND)
        } else {
            Meaning::Other
        },
        _ => Meaning::Other,
    }
}

/// What the values of an element stand for.
pub open spec fn element_meaning(bytes: Seq<u8>, at: int, end: int) -> Meaning {
    let depth = ELEMENT_DEPTH as nat;
    if compact::field_at(bytes, at, end, 0, LOGICAL_ID as int, depth) is Some {
        match compact::struct_in(bytes, at, end, LOGICAL_ID as int, depth) {
            None => Meaning::Other,
            Some(p) => if compact::struct_in(bytes, p, end, STRING_ID as int, depth) is Some
                || compact::struct_in(bytes, p, end, JSON_ID as int, depth) is Some {
                Meaning::Text
            } else {
                match compact::struct_in(bytes, p, end, INTEGER_ID as int, depth) {
                    None => Meaning::Other,
                    Some(q) => integer_meaning(bytes, q, end),
                }
            },
        }
    } else if compact::field_at(bytes, at, end, 0, CONVERTED_ID as int, depth) is Some {
        match compact::number_in(bytes, at, end, CONVERTED_ID as int, depth) {
            None => Meaning::Other,
            Some(converted) => converted_meaning(converted),
        }
    } else {
        Meaning::Plain
    }
}

/// What the values of an element stand for, see [`element_meaning`].
fn meaning_of(bytes: &Vec<u8>, at: usize, end: usize) -> (res: Meaning)
    requires
        end <= bytes@.len(),
    ensures
        res == element_meaning(bytes@, at as int, end as int),
{
    if compact::find_field(bytes, at, end, LOGICAL_ID, ELEMENT_DEPTH).is_some() {
        match compact::find_struct(bytes, at, end, LOGICAL_ID, ELEMENT_DEPTH) {
            None => Meaning::Other,
            Some(p) => if compact::find_struct(bytes, p, end, STRING_ID, ELEMENT_DEPTH).is_some()
                || compact::find_struct(bytes, p, end, JSON_ID, ELEMENT_DEPTH).is_some() {
                Meaning::Text
            } else {
                match compact::find_struct(bytes, p, end, INTEGER_ID, ELEMENT_DEPTH) {
                    None => Meaning::Other,
                    Some(q) => meaning_of_integer(bytes, q, end),
                }
            },
        }
    } else if compact::find_field(bytes, at, end, CONVERTED_ID, ELEMENT_DEPTH).is_some() {
        match compact::find_number(bytes, at, end, CONVERTED_ID, ELEMENT_DEPTH) {
            None => Meaning::Other,
            Some(converted) => meaning_of_converted(converted),
        }
    } else {
        Meaning::Plain
    }
}

/// The kind of the values that are stored in a type and stand for something, if it
/// is one that tables are made of.
pub open spec fn value_kind(physical: nat, meaning: Meaning) -> Option<ColumnKind> {
    if physical == INT32 {
        match meaning {
            Meaning::Plain => Some(ColumnKind::I32),
            Meaning::Integer(32, true) => Some(ColumnKind::I32),
            Meaning::Integer(8, false) => Some(ColumnKind::U8),
            Meaning::Integer(16, false) => Some(ColumnKind::U16),
            Meaning::Integer(32, false) => Some(ColumnKind::U32),
            _ => None,
        }
    } else if physical == INT64 && (meaning == Meaning::Plain || meaning == Meaning::Integer(
        64,
        true,
    )) {
        Some(ColumnKind::I64)
    } else if physical == BYTE_ARRAY && meaning == Meaning::Text {
        Some(ColumnKind::Utf8)
    } else {
        None
    }
}

/// The kind of values, see [`value_kind`].
fn kind_of_value(physical: u64, meaning: Meaning) -> (res: Option<ColumnKind>)
    ensures
        res == value_kind(physical as nat, meaning),
{
    if physical == INT32 {
        match meaning {
            Meaning::Plain => Some(ColumnKind::I32),
            Meaning::Integer(32, true) => Some(ColumnKind::I32),
            Meaning::Integer(8, false) => Some(ColumnKind::U8),
            Meaning::Integer(16, false) => Some(ColumnKind::U16),
            Meaning::Integer(32, false) => Some(ColumnKind::U32),
            _ => None,
        }
    } else if physical == INT64 && (meaning == Meaning::Plain || meaning == Meaning::Integer(
        64,
        true,
    )) {
        Some(ColumnKind::I64)
    } else if physical == BYTE_ARRAY && meaning == Meaning::Text {
        Some(ColumnKind::Utf8)
    } else {
        None
    }
}

/// The column that an element describes, if it has at most one value in a row, of a
/// kind that tables are made of.
pub open spec fn element_leaf(bytes: Seq<u8>, at: int, end: int) -> Option<Leaf> {
    let depth = ELEMENT_DEPTH as nat;
    match (
        compact::number_in(bytes, at, end, PHYSICAL_ID as int, depth),
        compact::number_in(bytes, at, end, REPETITION_ID as int, depth),
    ) {
        (Some(physical), Some(repetition)) => match value_kind(
            physical,
            element_meaning(bytes, at, end),
        ) {
            Some(kind) => if repetition == REQUIRED || repetition == OPTIONAL {
                Some(Leaf { kind, nullable: repetition == OPTIONAL })
            } else {
                None
            },
            None => None,
        },
        _ => None,
    }
}

/// The column that an element describes, see [`element_leaf`].
fn leaf_of(bytes: &Vec<u8>, at: usize, end: usize) -> (res: Option<Leaf>)
    requires
        end <= bytes@.len(),
    ensures
        res == element_leaf(bytes@, at as int, end as int),
{
    let physical = compact::find_number(bytes, at, end, PHYSICAL_ID, ELEMENT_DEPTH);
    let repetition = compact::find_number(bytes, at, end, REPETITION_ID, ELEMENT_DEPTH);
    match (physical, repetition) {
        (Some(physical), Some(repetition)) => match kind_of_value(
            physical,
            meaning_of(bytes, at, end),
        ) {
            Some(kind) => if repetition == REQUIRED || repetition == OPTIONAL {
                Some(Leaf { kind, nullable: repetition == OPTIONAL })
            } else {
                None
            },
            None => None,
        },
        _ => None,
    }
}

/// Whether an element describes a group of columns: it has elements in it.
pub open spec fn is_group(bytes: Seq<u8>, at: int, end: int) -> bool {
    let depth = ELEMENT_DEPTH as nat;
    &&& compact::field_at(bytes, at, end, 0, CHILDREN_ID as int, depth) is Some
    &&& compact::number_in(bytes, at, end, CHILDREN_ID as int, depth) != Some(0nat)
}

/// Whether an element describes a group of columns, see [`is_group`].
fn check_group(bytes: &Vec<u8>, at: usize, end: usize) -> (res: bool)
    requires
        end <= bytes@.len(),
    ensures
        res == is_group(bytes@, at as int, end as int),
{
    compact::find_field(bytes, at, end, CHILDREN_ID, ELEMENT_DEPTH).is_some()
        && match compact::find_number(bytes, at, end, CHILDREN_ID, ELEMENT_DEPTH) {
        Some(children) => children != 0,
        None => true,
    }
}

/// The columns that `n` more elements describe from a position on, behind others;
/// `None` if the elements cannot be told from each other. Nothing more is known of
/// columns of other kinds, nor of columns behind a group.
pub open spec fn leaves_from(
    bytes: Seq<u8>,
    at: int,
    end: int,
    n: nat,
    grouped: bool,
    leaves: Seq<Option<Leaf>>,
) -> Option<Seq<Option<Leaf>>>
    decreases n,
{
    if n == 0 {
        Some(leaves)
    } else {
        match compact::fields_end(bytes, at, end, ELEMENT_DEPTH as nat) {
            None => None,
            Some(next) => if is_group(bytes, at, end) {
                leaves_from(bytes, next, end, (n - 1) as nat, true, leaves)
            } else {
                let leaf = if grouped {
                    None
                } else {
                    element_leaf(bytes, at, end)
                };
                leaves_from(bytes, next, end, (n - 1) as nat, grouped, leaves.push(leaf))
            },
        }
    }
}

/// The columns of a file, in their order; `None` if it has no schema that can be
/// read. The first element stands for the table.
pub open spec fn file_leaves(bytes: Seq<u8>) -> Option<Seq<Option<Leaf>>> {
    match footer_span(bytes) {
        None => None,
        Some((start, end)) => match schema_list(bytes, start, end) {
            None => None,
            Some((size, at)) => match compact::fields_end(bytes, at, end, ELEMENT_DEPTH as nat) {
                None => None,
                Some(next) => if size == 0 {
                    None
                } else {
                    leaves_from(bytes, next, end, (size - 1) as nat, false, seq![])
                },
            },
        },
    }
}

/// The columns of a file, see [`file_leaves`].
pub fn read_leaves(bytes: &Vec<u8>) -> (res: Option<Vec<Option<Leaf>>>)
    ensures
        match res {
            Some(leaves) => file_leaves(bytes@) == Some(leaves@),
            None => file_leaves(bytes@) is None,
        },
{
    let (start, end) = match find_footer(bytes) {
        Some(span) => span,
        None => return None,
    };
    let (size, at) = match find_schema(bytes, start, end) {
        Some(list) => list,
        None => return None,
    };
    let mut pos = match compact::skip_fields(bytes, at, end, ELEMENT_DEPTH) {
        Some(next) => next,
        None => return None,
    };
    if size == 0 {
        return None;
    }
    let mut left: u64 = size - 1;
    let mut grouped: bool = false;
    let mut leaves: Vec<Option<Leaf>> = Vec::new();
    while left > 0
        invariant
            end <= bytes@.len(),
            file_leaves(bytes@) == leaves_from(
                bytes@,
                pos as int,
                end as int,
                left as nat,
                grouped,
                leaves@,
            ),
        decreases left,
    {
        let next = match compact::skip_fields(bytes, pos, end, ELEMENT_DEPTH) {
            Some(next) => next,
            None => return None,
        };
        if check_group(bytes, pos, end) {
            grouped = true;
        } else if grouped {
            leaves.push(None);
        } else {
            leaves.push(leaf_of(bytes, pos, end));
        }
        pos = next;
        left -= 1;
    }
    Some(leaves)
}

} // verus!
