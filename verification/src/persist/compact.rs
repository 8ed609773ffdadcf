//! Thrift's compact protocol, as far as Parquet's footers and page headers are
//! looked through: where fields stand, and the integers that they hold.
//!
//! A structure is a list of fields, ended by a zero byte. The header of a field
//! holds, in its upper half, how much larger the field's number is than that of the
//! field before, and in its lower half the kind of its value.

use vstd::prelude::*;

verus! {

/// How many bytes an integer of 32 bits takes, at most.
pub const LONGEST_I32: u8 = 5;

/// How many bytes an integer of 64 bits takes, at most.
pub const LONGEST_I64: u8 = 10;

/// The kind of a flag that is set.
pub const TRUE_KIND: u8 = 1;

/// The kind of a flag that is not set.
pub const FALSE_KIND: u8 = 2;

/// The kind of a byte.
pub const BYTE_KIND: u8 = 3;

/// The kind of an integer of 32 bits.
pub const I32_KIND: u8 = 5;

/// The kind of a text.
pub const TEXT_KIND: u8 = 8;

/// The kind of a list.
pub const LIST_KIND: u8 = 9;

/// The kind of a structure.
pub const STRUCT_KIND: u8 = 12;

/// The position behind the variable-length integer of at most `n` bytes that
/// begins at a position and ends before another.
pub open spec fn varint_end(bytes: Seq<u8>, at: int, end: int, n: nat) -> Option<int>
    decreases n,
{
    if n == 0 || !(0 <= at < end <= bytes.len()) {
        None
    } else if bytes[at] < 0x80 {
        Some(at + 1)
    } else {
        varint_end(bytes, at + 1, end, (n - 1) as nat)
    }
}

/// The value of the variable-length integer of at most `n` bytes that begins at a
/// position: seven bits in each byte, the lowest first.
pub open spec fn varint_value(bytes: Seq<u8>, at: int, n: nat) -> nat
    decreases n,
{
    if n == 0 || !(0 <= at < bytes.len()) {
        0
    } else if bytes[at] < 0x80 {
        bytes[at] as nat
    } else {
        (bytes[at] - 0x80) as nat + 0x80 * varint_value(bytes, at + 1, (n - 1) as nat)
    }
}

/// The position behind a variable-length integer, see [`varint_end`].
pub fn skip_varint(bytes: &Vec<u8>, at: usize, end: usize, n: u8) -> (res: Option<usize>)
    requires
        end <= bytes@.len(),
    ensures
        match res {
            Some(next) => at < next <= end && varint_end(bytes@, at as int, end as int, n as nat)
                == Some(next as int),
            None => varint_end(bytes@, at as int, end as int, n as nat) is None,
        },
    decreases n,
{
    if n == 0 || at >= end {
        None
    } else if bytes[at] < 0x80 {
        Some(at + 1)
    } else {
        skip_varint(bytes, at + 1, end, n - 1)
    }
}

/// The value of a variable-length integer of at most `n` bytes, and the position
/// behind it; see [`varint_value`] and [`varint_end`].
pub fn read_varint(bytes: &Vec<u8>, at: usize, end: usize, n: u8) -> (res: Option<(u64, usize)>)
    requires
        end <= bytes@.len(),
        n <= LONGEST_I32,
    ensures
        match res {
            Some((value, next)) => {
                &&& at < next <= end
                &&& varint_end(bytes@, at as int, end as int, n as nat) == Some(next as int)
                &&& value == varint_value(bytes@, at as int, n as nat)
                &&& value < varint_limit(n as nat)
            },
            None => varint_end(bytes@, at as int, end as int, n as nat) is None,
        },
    decreases n,
{
    if n == 0 || at >= end {
        return None;
    }
    proof {
        reveal_with_fuel(varint_limit, 6);
    }
    let byte = bytes[at];
    if byte < 0x80 {
        return Some((byte as u64, at + 1));
    }
    match read_varint(bytes, at + 1, end, n - 1) {
        Some((rest, next)) => Some(((byte - 0x80) as u64 + 0x80 * rest, next)),
        None => None,
    }
}

/// What the variable-length integers of at most `n` bytes stay below.
pub open spec fn varint_limit(n: nat) -> nat
    decreases n,
{
    if n == 0 {
        1
    } else {
        0x80 * varint_limit((n - 1) as nat)
    }
}

/// The position behind a structure whose fields are flags, bytes, integers, texts
/// and structures, nested to a depth; `None` if it has other fields.
pub open spec fn fields_end(bytes: Seq<u8>, at: int, end: int, depth: nat) -> Option<int>
    decreases depth, end - at, 1nat,
{
    if !(0 <= at < end <= bytes.len()) {
        None
    } else if bytes[at] == 0 {
        Some(at + 1)
    } else {
        match field_end(bytes, at, end, depth) {
            None => None,
            Some(next) => if at < next < end {
                fields_end(bytes, next, end, depth)
            } else {
                None
            },
        }
    }
}

/// The position behind the field whose header stands at a position, see
/// [`fields_end`].
pub open spec fn field_end(bytes: Seq<u8>, at: int, end: int, depth: nat) -> Option<int>
    decreases depth, end - at, 0nat,
{
    if !(0 <= at < end <= bytes.len()) || bytes[at] < 16 {
        None
    } else {
        let kind = bytes[at] % 16;
        if kind == TRUE_KIND || kind == FALSE_KIND {
            Some(at + 1)
        } else if kind == BYTE_KIND {
            if at + 2 <= end {
                Some(at + 2)
            } else {
                None
            }
        } else if 4 <= kind <= 6 {
            varint_end(bytes, at + 1, end, LONGEST_I64 as nat)
        } else if kind == TEXT_KIND {
            match varint_end(bytes, at + 1, end, LONGEST_I32 as nat) {
                None => None,
                Some(next) => {
                    let size = varint_value(bytes, at + 1, LONGEST_I32 as nat);
                    if size <= end - next {
                        Some(next + size)
                    } else {
                        None
                    }
                },
            }
        } else if kind == STRUCT_KIND && depth > 0 {
            fields_end(bytes, at + 1, end, (depth - 1) as nat)
        } else {
            None
        }
    }
}

/// The position behind a structure, see [`fields_end`].
pub fn skip_fields(bytes: &Vec<u8>, at: usize, end: usize, depth: u8) -> (res: Option<usize>)
    requires
        end <= bytes@.len(),
    ensures
        match res {
            Some(next) => at < next <= end && fields_end(
                bytes@,
                at as int,
                end as int,
                depth as nat,
            ) == Some(next as int),
            None => fields_end(bytes@, at as int, end as int, depth as nat) is None,
        },
    decreases depth, end - at, 1nat,
{
    let mut pos: usize = at;
    while pos < end
        invariant
            at <= pos,
            end <= bytes@.len(),
            fields_end(bytes@, at as int, end as int, depth as nat) == fields_end(
                bytes@,
                pos as int,
                end as int,
                depth as nat,
            ),
        decreases end - pos,
    {
        if bytes[pos] == 0 {
            return Some(pos + 1);
        }
        match skip_field(bytes, pos, end, depth) {
            Some(next) => {
                pos = next;
            },
            None => return None,
        }
    }
    None
}

/// The position behind a field, see [`field_end`].
pub fn skip_field(bytes: &Vec<u8>, at: usize, end: usize, depth: u8) -> (res: Option<usize>)
    requires
        end <= bytes@.len(),
    ensures
        match res {
            Some(next) => at < next <= end && field_end(
                bytes@,
                at as int,
                end as int,
                depth as nat,
            ) == Some(next as int),
            None => field_end(bytes@, at as int, end as int, depth as nat) is None,
        },
    decreases depth, end - at, 0nat,
{
    if at >= end || bytes[at] < 16 {
        return None;
    }
    let kind = bytes[at] % 16;
    if kind == TRUE_KIND || kind == FALSE_KIND {
        Some(at + 1)
    } else if kind == BYTE_KIND {
        if end - at >= 2 {
            Some(at + 2)
        } else {
            None
        }
    } else if 4 <= kind && kind <= 6 {
        skip_varint(bytes, at + 1, end, LONGEST_I64)
    } else if kind == TEXT_KIND {
        match read_varint(bytes, at + 1, end, LONGEST_I32) {
            Some((size, next)) => if size <= (end - next) as u64 {
                Some(next + size as usize)
            } else {
                None
            },
            None => None,
        }
    } else if kind == STRUCT_KIND && depth > 0 {
        skip_fields(bytes, at + 1, end, depth - 1)
    } else {
        None
    }
}

/// The position of the header of the field with a number, in a structure of which
/// the fields stand from a position on, behind the one with another number.
pub open spec fn field_at(
    bytes: Seq<u8>,
    at: int,
    end: int,
    id: int,
    wanted: int,
    depth: nat,
) -> Option<int>
    decreases end - at,
{
    if !(0 <= at < end <= bytes.len()) || bytes[at] == 0 {
        None
    } else if id + bytes[at] / 16 == wanted {
        Some(at)
    } else {
        match field_end(bytes, at, end, depth) {
            None => None,
            Some(next) => if at < next < end {
                field_at(bytes, next, end, id + bytes[at] / 16, wanted, depth)
            } else {
                None
            },
        }
    }
}

/// The position of the header of the field with a number in the structure at a
/// position, see [`field_at`].
pub fn find_field(bytes: &Vec<u8>, at: usize, end: usize, wanted: u8, depth: u8) -> (res: Option<
    usize,
>)
    requires
        end <= bytes@.len(),
    ensures
        match res {
            Some(pos) => at <= pos < end && field_at(
                bytes@,
                at as int,
                end as int,
                0,
                wanted as int,
                depth as nat,
            ) == Some(pos as int),
            None => field_at(
                bytes@,
                at as int,
                end as int,
                0,
                wanted as int,
                depth as nat,
            ) is None,
        },
{
    let mut id: u128 = 0;
    let mut pos: usize = at;
    while pos < end
        invariant
            at <= pos,
            end <= bytes@.len(),
            id <= 15 * (pos - at),
            field_at(bytes@, at as int, end as int, 0, wanted as int, depth as nat) == field_at(
                bytes@,
                pos as int,
                end as int,
                id as int,
                wanted as int,
                depth as nat,
            ),
        decreases end - pos,
    {
        if bytes[pos] == 0 {
            return None;
        }
        let own: u128 = id + (bytes[pos] / 16) as u128;
        if own == wanted as u128 {
            return Some(pos);
        }
        match skip_field(bytes, pos, end, depth) {
            Some(next) => {
                pos = next;
                id = own;
            },
            None => return None,
        }
    }
    None
}

/// The integer of 32 bits in the field whose header stands at a position; `None` if
/// the field holds something else, a negative number, or one of more bits.
pub open spec fn number_at(bytes: Seq<u8>, at: int, end: int) -> Option<nat> {
    if !(0 <= at < end <= bytes.len()) || bytes[at] % 16 != I32_KIND || varint_end(
        bytes,
        at + 1,
        end,
        LONGEST_I32 as nat,
    ) is None {
        None
    } else {
        let value = varint_value(bytes, at + 1, LONGEST_I32 as nat);
        if value % 2 == 0 && value < 0x1_0000_0000 {
            Some(value / 2)
        } else {
            None
        }
    }
}

/// The integer in a field, see [`number_at`].
pub fn read_number(bytes: &Vec<u8>, at: usize, end: usize) -> (res: Option<u64>)
    requires
        end <= bytes@.len(),
    ensures
        match res {
            Some(value) => value <= i32::MAX && number_at(bytes@, at as int, end as int) == Some(
                value as nat,
            ),
            None => number_at(bytes@, at as int, end as int) is None,
        },
{
    if at >= end || bytes[at] % 16 != I32_KIND {
        return None;
    }
    match read_varint(bytes, at + 1, end, LONGEST_I32) {
        Some((value, _)) => {
            if value % 2 == 0 && value < 0x1_0000_0000 {
                Some(value / 2)
            } else {
                None
            }
        },
        None => None,
    }
}

/// The integer in the field with a number, in the structure at a position.
pub open spec fn number_in(bytes: Seq<u8>, at: int, end: int, wanted: int, depth: nat) -> Option<
    nat,
> {
    match field_at(bytes, at, end, 0, wanted, depth) {
        None => None,
        Some(pos) => number_at(bytes, pos, end),
    }
}

/// The integer in the field with a number, see [`number_in`].
pub fn find_number(bytes: &Vec<u8>, at: usize, end: usize, wanted: u8, depth: u8) -> (res: Option<
    u64,
>)
    requires
        end <= bytes@.len(),
    ensures
        match res {
            Some(value) => value <= i32::MAX && number_in(
                bytes@,
                at as int,
                end as int,
                wanted as int,
                depth as nat,
            ) == Some(value as nat),
            None => number_in(
                bytes@,
                at as int,
                end as int,
                wanted as int,
                depth as nat,
            ) is None,
        },
{
    match find_field(bytes, at, end, wanted, depth) {
        Some(pos) => read_number(bytes, pos, end),
        None => None,
    }
}

/// The position of the structure in the field with a number, in the structure at a
/// position.
pub open spec fn struct_in(bytes: Seq<u8>, at: int, end: int, wanted: int, depth: nat) -> Option<
    int,
> {
    match field_at(bytes, at, end, 0, wanted, depth) {
        None => None,
        Some(pos) => if bytes[pos] % 16 == STRUCT_KIND {
            Some(pos + 1)
        } else {
            None
        },
    }
}

/// The position of the structure in the field with a number, see [`struct_in`].
pub fn find_struct(bytes: &Vec<u8>, at: usize, end: usize, wanted: u8, depth: u8) -> (res: Option<
    usize,
>)
    requires
        end <= bytes@.len(),
    ensures
        match res {
            Some(pos) => at < pos <= end && struct_in(
                bytes@,
                at as int,
                end as int,
                wanted as int,
                depth as nat,
            ) == Some(pos as int),
            None => struct_in(
                bytes@,
                at as int,
                end as int,
                wanted as int,
                depth as nat,
            ) is None,
        },
{
    match find_field(bytes, at, end, wanted, depth) {
        Some(pos) => if bytes[pos] % 16 == STRUCT_KIND {
            Some(pos + 1)
        } else {
            None
        },
        None => None,
    }
}

/// The position behind a structure of which the fields up to a number hold integers
/// of 32 bits, and that with another number a flag. Those who know the fields read
/// their values without looking at their kinds.
pub open spec fn typed_end(
    bytes: Seq<u8>,
    at: int,
    end: int,
    id: int,
    numbers: int,
    flag: int,
    depth: nat,
) -> Option<int>
    decreases end - at,
{
    if !(0 <= at < end <= bytes.len()) {
        None
    } else if bytes[at] == 0 {
        Some(at + 1)
    } else {
        let own = id + bytes[at] / 16;
        let kind = bytes[at] % 16;
        if (own <= numbers && kind != I32_KIND) || (own == flag && kind != TRUE_KIND && kind
            != FALSE_KIND) {
            None
        } else {
            match field_end(bytes, at, end, depth) {
                None => None,
                Some(next) => if at < next < end {
                    typed_end(bytes, next, end, own, numbers, flag, depth)
                } else {
                    None
                },
            }
        }
    }
}

/// The position behind a structure of fields of known kinds, see [`typed_end`].
pub fn skip_typed(
    bytes: &Vec<u8>,
    at: usize,
    end: usize,
    numbers: u8,
    flag: u8,
    depth: u8,
) -> (res: Option<usize>)
    requires
        end <= bytes@.len(),
    ensures
        match res {
            Some(next) => at < next <= end && typed_end(
                bytes@,
                at as int,
                end as int,
                0,
                numbers as int,
                flag as int,
                depth as nat,
            ) == Some(next as int),
            None => typed_end(
                bytes@,
                at as int,
                end as int,
                0,
                numbers as int,
                flag as int,
                depth as nat,
            ) is None,
        },
{
    let mut id: u128 = 0;
    let mut pos: usize = at;
    while pos < end
        invariant
            at <= pos,
            end <= bytes@.len(),
            id <= 15 * (pos - at),
            typed_end(
                bytes@,
                at as int,
                end as int,
                0,
                numbers as int,
                flag as int,
                depth as nat,
            ) == typed_end(
                bytes@,
                pos as int,
                end as int,
                id as int,
                numbers as int,
                flag as int,
                depth as nat,
            ),
        decreases end - pos,
    {
        if bytes[pos] == 0 {
            return Some(pos + 1);
        }
        let own: u128 = id + (bytes[pos] / 16) as u128;
        let kind = bytes[pos] % 16;
        if (own <= numbers as u128 && kind != I32_KIND) || (own == flag as u128 && kind != TRUE_KIND
            && kind != FALSE_KIND) {
            return None;
        }
        match skip_field(bytes, pos, end, depth) {
            Some(next) => {
                pos = next;
                id = own;
            },
            None => return None,
        }
    }
    None
}

} // verus!
