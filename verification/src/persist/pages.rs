//! The pages of a Parquet column chunk, as they lie in the bytes of a file.
//!
//! A page is a header in Thrift's compact protocol and a body. What is told here
//! is whether the pages of a chunk can be handed to a decoder that counts on
//! their being whole: that a dictionary comes before the pages that refer to it,
//! that counts are not larger than what they count, and that no integer is longer
//! than integers are.

use vstd::prelude::*;

use super::columnar::{ColumnKind, Leaf};
use super::compact;
use super::deltas;

verus! {

/// How deep structures are nested in the header of a page, at most.
pub const HEAD_DEPTH: u8 = 2;

/// How deep structures are nested in the header of a kind of page, at most.
pub const PART_DEPTH: u8 = 1;

/// The number of a data page among the kinds of pages.
pub const DATA_PAGE: u64 = 0;

/// The number of an index page among the kinds of pages.
pub const INDEX_PAGE: u64 = 1;

/// The number of a dictionary page among the kinds of pages.
pub const DICTIONARY_PAGE: u64 = 2;

/// The number of a data page of the second version among the kinds of pages.
pub const DATA_PAGE_V2: u64 = 3;

/// The field of the header of data pages.
pub const DATA_PART: u8 = 5;

/// The field of the header of index pages.
pub const INDEX_PART: u8 = 6;

/// The field of the header of dictionary pages.
pub const DICTIONARY_PART: u8 = 7;

/// The field of the header of data pages of the second version.
pub const V2_PART: u8 = 8;

/// The encoding of values one after the other.
pub const PLAIN: u64 = 0;

/// The encoding of values by their places in a dictionary, by its former name.
pub const PLAIN_DICTIONARY: u64 = 2;

/// The encoding in runs.
pub const RLE: u64 = 3;

/// The encoding of bits one after the other.
pub const BIT_PACKED: u64 = 4;

/// The encoding of integers by their differences.
pub const DELTA_BINARY_PACKED: u64 = 5;

/// The encoding of texts by the differences of their lengths.
pub const DELTA_LENGTH_BYTE_ARRAY: u64 = 6;

/// The encoding of texts by what they share with the text before.
pub const DELTA_BYTE_ARRAY: u64 = 7;

/// The encoding of values by their places in a dictionary.
pub const RLE_DICTIONARY: u64 = 8;

/// The encoding of the first bytes of all integers, then of the second, and so on.
pub const BYTE_STREAM_SPLIT: u64 = 9;

/// How many bits a place in a dictionary has, at most: with one more it could be
/// negative.
pub const WIDEST_INDEX: u8 = 31;

/// What can be said of bytes that are to be decoded.
#[derive(Clone, Copy, Debug, PartialEq, Eq, Structural)]
pub enum Soundness {
    /// They can be handed to a decoder.
    Whole,
    /// They are in a form that is not looked into.
    Unsupported,
    /// They do not hold together.
    Damaged,
}

/// What the header of a page says.
#[derive(Clone, Copy, Debug, PartialEq, Eq, Structural)]
pub enum Page {
    /// A page that is passed over.
    Index,
    /// The entries of a dictionary.
    Dictionary { count: u64 },
    /// Values, behind their levels, which have an encoding of their own.
    Data { count: u64, encoding: u64, levels: u64 },
    /// Values, behind their levels, which take so many bytes.
    DataV2 { count: u64, nulls: u64, encoding: u64, level_size: u64, repeat_size: u64 },
}

/// What the header of a page says, and where the page's body lies.
#[derive(Clone, Copy, Debug, PartialEq, Eq, Structural)]
pub struct PageHead {
    pub page: Page,
    pub body: usize,
    pub next: usize,
}

/// The number in a field of the part of a header that belongs to a kind of page; no
/// number, if it is not there, counts as zero.
pub open spec fn part_number(bytes: Seq<u8>, part: int, end: int, wanted: int) -> u64 {
    match compact::number_in(bytes, part, end, wanted, PART_DEPTH as nat) {
        None => 0,
        Some(value) => value as u64,
    }
}

/// Whether the first fields of the part of a header all hold numbers, and those of
/// known kinds hold what they should.
pub open spec fn part_holds(bytes: Seq<u8>, part: int, end: int, numbers: int, flag: int) -> bool {
    &&& compact::typed_end(bytes, part, end, 0, numbers, flag, PART_DEPTH as nat) is Some
    &&& forall|i: int|
        1 <= i <= numbers ==> #[trigger] compact::number_in(
            bytes,
            part,
            end,
            i,
            PART_DEPTH as nat,
        ) is Some
}

/// Whether a header has no part for other kinds of pages than one.
pub open spec fn has_no_other_part(bytes: Seq<u8>, at: int, end: int, own: int) -> bool {
    forall|i: int|
        DATA_PART <= i <= V2_PART && i != own ==> #[trigger] compact::field_at(
            bytes,
            at,
            end,
            0,
            i,
            HEAD_DEPTH as nat,
        ) is None
}

/// What the header of a page of a kind says.
pub open spec fn page_of(bytes: Seq<u8>, at: int, end: int, kind: nat) -> Option<Page> {
    let own = DATA_PART + kind;
    if kind > DATA_PAGE_V2 || !has_no_other_part(bytes, at, end, own) {
        None
    } else if kind == INDEX_PAGE {
        if compact::field_at(bytes, at, end, 0, own, HEAD_DEPTH as nat) is None
            || compact::struct_in(bytes, at, end, own, HEAD_DEPTH as nat) is Some {
            Some(Page::Index)
        } else {
            None
        }
    } else {
        match compact::struct_in(bytes, at, end, own, HEAD_DEPTH as nat) {
            None => None,
            Some(part) => if kind == DATA_PAGE {
                if part_holds(bytes, part, end, 4, 0) {
                    Some(
                        Page::Data {
                            count: part_number(bytes, part, end, 1),
                            encoding: part_number(bytes, part, end, 2),
                            levels: part_number(bytes, part, end, 3),
                        },
                    )
                } else {
                    None
                }
            } else if kind == DICTIONARY_PAGE {
                if part_holds(bytes, part, end, 2, 3) {
                    Some(Page::Dictionary { count: part_number(bytes, part, end, 1) })
                } else {
                    None
                }
            } else {
                if part_holds(bytes, part, end, 6, 7) {
                    Some(
                        Page::DataV2 {
                            count: part_number(bytes, part, end, 1),
                            nulls: part_number(bytes, part, end, 2),
                            encoding: part_number(bytes, part, end, 4),
                            level_size: part_number(bytes, part, end, 5),
                            repeat_size: part_number(bytes, part, end, 6),
                        },
                    )
                } else {
                    None
                }
            },
        }
    }
}

/// The header of the page at a position, if there is one and its body ends in
/// time: the page's kind, its size in memory and in the file, perhaps a checksum,
/// and the part that belongs to its kind.
#[verifier::opaque]
pub open spec fn page_head(bytes: Seq<u8>, at: int, end: int) -> Option<(Page, int, int)> {
    match compact::typed_end(bytes, at, end, 0, 4, 0, HEAD_DEPTH as nat) {
        None => None,
        Some(body) => match (
            compact::number_in(bytes, at, end, 1, HEAD_DEPTH as nat),
            compact::number_in(bytes, at, end, 2, HEAD_DEPTH as nat),
            compact::number_in(bytes, at, end, 3, HEAD_DEPTH as nat),
        ) {
            (Some(kind), Some(_), Some(size)) => match page_of(bytes, at, end, kind) {
                Some(page) => if body + size <= end {
                    Some((page, body, body + size))
                } else {
                    None
                },
                None => None,
            },
            _ => None,
        },
    }
}

/// The numbers in the first fields of the part of a header, see [`part_holds`] and
/// [`part_number`].
fn read_part(bytes: &Vec<u8>, part: usize, end: usize, numbers: u8, flag: u8) -> (res: Option<
    Vec<u64>,
>)
    requires
        end <= bytes@.len(),
        numbers < 0xFF,
    ensures
        match res {
            Some(values) => {
                &&& part_holds(bytes@, part as int, end as int, numbers as int, flag as int)
                &&& values@.len() == numbers
                &&& forall|i: int|
                    0 <= i < numbers ==> #[trigger] values@[i] == part_number(
                        bytes@,
                        part as int,
                        end as int,
                        i + 1,
                    ) && values@[i] <= i32::MAX
            },
            None => !part_holds(bytes@, part as int, end as int, numbers as int, flag as int),
        },
{
    if compact::skip_typed(bytes, part, end, numbers, flag, PART_DEPTH).is_none() {
        return None;
    }
    let mut values: Vec<u64> = Vec::new();
    let mut i: u8 = 1;
    while i <= numbers
        invariant
            1 <= i <= numbers + 1,
            numbers < 0xFF,
            end <= bytes@.len(),
            values@.len() == i - 1,
            forall|j: int|
                1 <= j < i ==> #[trigger] compact::number_in(
                    bytes@,
                    part as int,
                    end as int,
                    j,
                    PART_DEPTH as nat,
                ) is Some,
            forall|j: int|
                0 <= j < i - 1 ==> #[trigger] values@[j] == part_number(
                    bytes@,
                    part as int,
                    end as int,
                    j + 1,
                ) && values@[j] <= i32::MAX,
        decreases numbers + 1 - i,
    {
        match compact::find_number(bytes, part, end, i, PART_DEPTH) {
            Some(value) => values.push(value),
            None => {
                assert(compact::number_in(
                    bytes@,
                    part as int,
                    end as int,
                    i as int,
                    PART_DEPTH as nat,
                ) is None);
                return None;
            },
        }
        i += 1;
    }
    Some(values)
}

/// Whether a header has no part for other kinds of pages, see
/// [`has_no_other_part`].
fn check_parts(bytes: &Vec<u8>, at: usize, end: usize, own: u8) -> (res: bool)
    requires
        end <= bytes@.len(),
    ensures
        res == has_no_other_part(bytes@, at as int, end as int, own as int),
{
    let mut i: u8 = DATA_PART;
    while i <= V2_PART
        invariant
            DATA_PART <= i <= V2_PART + 1,
            end <= bytes@.len(),
            forall|j: int|
                DATA_PART <= j < i && j != own ==> #[trigger] compact::field_at(
                    bytes@,
                    at as int,
                    end as int,
                    0,
                    j,
                    HEAD_DEPTH as nat,
                ) is None,
        decreases V2_PART + 1 - i,
    {
        if i != own && compact::find_field(bytes, at, end, i, HEAD_DEPTH).is_some() {
            assert(compact::field_at(
                bytes@,
                at as int,
                end as int,
                0,
                i as int,
                HEAD_DEPTH as nat,
            ) is Some);
            return false;
        }
        i += 1;
    }
    true
}

/// Whether the counts that a header gives are integers of 32 bits.
pub open spec fn is_counted(page: Page) -> bool {
    match page {
        Page::Index => true,
        Page::Dictionary { count } => count <= i32::MAX,
        Page::Data { count, .. } => count <= i32::MAX,
        Page::DataV2 { count, nulls, level_size, repeat_size, .. } => count <= i32::MAX && nulls
            <= i32::MAX && level_size <= i32::MAX && repeat_size <= i32::MAX,
    }
}

/// What the header of a page of a kind says, see [`page_of`].
fn read_page(bytes: &Vec<u8>, at: usize, end: usize, kind: u64) -> (res: Option<Page>)
    requires
        end <= bytes@.len(),
    ensures
        match res {
            Some(page) => is_counted(page) && page_of(bytes@, at as int, end as int, kind as nat)
                == Some(page),
            None => page_of(bytes@, at as int, end as int, kind as nat) is None,
        },
{
    if kind > DATA_PAGE_V2 {
        return None;
    }
    let own = DATA_PART + kind as u8;
    if !check_parts(bytes, at, end, own) {
        return None;
    }
    let found = compact::find_struct(bytes, at, end, own, HEAD_DEPTH);
    if kind == INDEX_PAGE {
        return if found.is_some() || compact::find_field(
            bytes,
            at,
            end,
            own,
            HEAD_DEPTH,
        ).is_none() {
            Some(Page::Index)
        } else {
            None
        };
    }
    let part = match found {
        Some(part) => part,
        None => return None,
    };
    if kind == DATA_PAGE {
        match read_part(bytes, part, end, 4, 0) {
            Some(values) => Some(
                Page::Data { count: values[0], encoding: values[1], levels: values[2] },
            ),
            None => None,
        }
    } else if kind == DICTIONARY_PAGE {
        match read_part(bytes, part, end, 2, 3) {
            Some(values) => Some(Page::Dictionary { count: values[0] }),
            None => None,
        }
    } else {
        match read_part(bytes, part, end, 6, 7) {
            Some(values) => Some(
                Page::DataV2 {
                    count: values[0],
                    nulls: values[1],
                    encoding: values[3],
                    level_size: values[4],
                    repeat_size: values[5],
                },
            ),
            None => None,
        }
    }
}

/// The header of the page at a position, see [`page_head`].
pub fn read_page_head(bytes: &Vec<u8>, at: usize, end: usize) -> (res: Option<PageHead>)
    requires
        end <= bytes@.len(),
    ensures
        match res {
            Some(head) => {
                &&& at < head.body <= head.next <= end
                &&& is_counted(head.page)
                &&& page_head(bytes@, at as int, end as int) == Some(
                    (head.page, head.body as int, head.next as int),
                )
            },
            None => page_head(bytes@, at as int, end as int) is None,
        },
{
    proof {
        reveal(page_head);
    }
    let body = match compact::skip_typed(bytes, at, end, 4, 0, HEAD_DEPTH) {
        Some(body) => body,
        None => return None,
    };
    let kind = match compact::find_number(bytes, at, end, 1, HEAD_DEPTH) {
        Some(kind) => kind,
        None => return None,
    };
    if compact::find_number(bytes, at, end, 2, HEAD_DEPTH).is_none() {
        return None;
    }
    let size = match compact::find_number(bytes, at, end, 3, HEAD_DEPTH) {
        Some(size) => size,
        None => return None,
    };
    match read_page(bytes, at, end, kind) {
        Some(page) => if size <= (end - body) as u64 {
            Some(PageHead { page, body, next: body + size as usize })
        } else {
            None
        },
        None => None,
    }
}

/// Whether the lengths of the runs of dictionary places from a position on can be
/// decoded. In so few bytes as are left for one integer, each can. A run of odd
/// length is packed, in groups of eight places; one of even length repeats one
/// place, and one without length is passed over.
pub open spec fn runs_hold(bytes: Seq<u8>, at: int, end: int, width: u8) -> bool
    decreases end - at,
{
    if !(0 <= at < end <= bytes.len()) || end - at <= compact::LONGEST_I64 {
        true
    } else {
        match compact::varint_end(bytes, at, end, compact::LONGEST_I32 as nat) {
            None => false,
            Some(next) => {
                let run = compact::varint_value(bytes, at, compact::LONGEST_I32 as nat);
                let behind = if run == 0 {
                    next
                } else if run % 2 == 1 {
                    next + (run / 2) * width as nat
                } else {
                    next + (width as nat + 7) / 8
                };
                behind >= end || (at < behind && runs_hold(bytes, behind, end, width))
            },
        }
    }
}

/// Whether the runs of dictionary places can be decoded, see [`runs_hold`].
pub fn check_runs(bytes: &Vec<u8>, at: usize, end: usize, width: u8) -> (res: bool)
    requires
        end <= bytes@.len(),
        width <= WIDEST_INDEX,
    ensures
        res == runs_hold(bytes@, at as int, end as int, width),
{
    let mut pos: usize = at;
    while pos < end
        invariant
            end <= bytes@.len(),
            width <= WIDEST_INDEX,
            runs_hold(bytes@, at as int, end as int, width) == runs_hold(
                bytes@,
                pos as int,
                end as int,
                width,
            ),
        decreases end - pos,
    {
        if end - pos <= compact::LONGEST_I64 as usize {
            return true;
        }
        match compact::read_varint(bytes, pos, end, compact::LONGEST_I32) {
            None => return false,
            Some((run, next)) => {
                proof {
                    reveal_with_fuel(compact::varint_limit, 6);
                }
                assert((run / 2) * width as u64 <= 0x4_0000_0000 * 31) by (nonlinear_arith)
                    requires
                        run <= 0x8_0000_0000,
                        width <= 31,
                ;
                let taken: u64 = if run == 0 {
                    0
                } else if run % 2 == 1 {
                    (run / 2) * width as u64
                } else {
                    (width as u64 + 7) / 8
                };
                if taken >= (end - next) as u64 {
                    return true;
                }
                pos = next + taken as usize;
            },
        }
    }
    true
}

/// Whether the runs of levels from a position on can be decoded: each run that is
/// packed, in groups of eight levels of one bit, is there to its end.
pub open spec fn levels_hold(bytes: Seq<u8>, at: int, end: int) -> bool
    decreases end - at,
{
    if !(0 <= at < end <= bytes.len()) {
        true
    } else {
        match compact::varint_end(bytes, at, end, compact::LONGEST_I32 as nat) {
            None => false,
            Some(next) => {
                let run = compact::varint_value(bytes, at, compact::LONGEST_I32 as nat);
                let behind = if run % 2 == 1 {
                    next + run / 2
                } else {
                    next + 1
                };
                at < behind <= end && levels_hold(bytes, behind, end)
            },
        }
    }
}

/// Whether the runs of levels can be decoded, see [`levels_hold`].
pub fn check_levels(bytes: &Vec<u8>, at: usize, end: usize) -> (res: bool)
    requires
        end <= bytes@.len(),
    ensures
        res == levels_hold(bytes@, at as int, end as int),
{
    let mut pos: usize = at;
    while pos < end
        invariant
            end <= bytes@.len(),
            levels_hold(bytes@, at as int, end as int) == levels_hold(
                bytes@,
                pos as int,
                end as int,
            ),
        decreases end - pos,
    {
        match compact::read_varint(bytes, pos, end, compact::LONGEST_I32) {
            None => return false,
            Some((run, next)) => {
                let taken: u64 = if run % 2 == 1 {
                    run / 2
                } else {
                    1
                };
                if taken > (end - next) as u64 {
                    return false;
                }
                pos = next + taken as usize;
            },
        }
    }
    true
}

/// The integer of four bytes at a position, the lowest first.
pub open spec fn four_bytes(bytes: Seq<u8>, at: int) -> int {
    bytes[at] + 0x100 * bytes[at + 1] + 0x1_0000 * bytes[at + 2] + 0x100_0000 * bytes[at + 3]
}

/// The integer of four bytes at a position, see [`four_bytes`].
fn read_four_bytes(bytes: &Vec<u8>, at: usize) -> (res: u64)
    requires
        at + 4 <= bytes@.len(),
    ensures
        res == four_bytes(bytes@, at as int),
{
    assert(bytes.len() <= usize::MAX);
    bytes[at] as u64 + 0x100 * bytes[at + 1] as u64 + 0x1_0000 * bytes[at + 2] as u64 + 0x100_0000
        * bytes[at + 3] as u64
}

/// Whether a number of texts, each behind its length, fill the bytes from a position
/// to another, unless they are cut off.
pub open spec fn texts_hold(bytes: Seq<u8>, at: int, end: int, n: nat) -> bool
    decreases n,
{
    if n == 0 {
        at == end
    } else {
        end - at < 4 || four_bytes(bytes, at) > end - at - 4 || texts_hold(
            bytes,
            at + 4 + four_bytes(bytes, at),
            end,
            (n - 1) as nat,
        )
    }
}

/// Whether texts fill bytes, see [`texts_hold`].
pub fn check_texts(bytes: &Vec<u8>, at: usize, end: usize, n: u64) -> (res: bool)
    requires
        at <= end <= bytes@.len(),
    ensures
        res == texts_hold(bytes@, at as int, end as int, n as nat),
{
    let mut pos: usize = at;
    let mut left: u64 = n;
    while left > 0
        invariant
            pos <= end <= bytes@.len(),
            texts_hold(bytes@, at as int, end as int, n as nat) == texts_hold(
                bytes@,
                pos as int,
                end as int,
                left as nat,
            ),
        decreases left,
    {
        if end - pos < 4 {
            return true;
        }
        let size = read_four_bytes(bytes, pos);
        if size > (end - pos - 4) as u64 {
            return true;
        }
        pos = pos + 4 + size as usize;
        left -= 1;
    }
    pos == end
}

/// How many bytes a value of a kind takes, at least.
pub open spec fn value_size(kind: ColumnKind) -> u64 {
    if kind == ColumnKind::I64 {
        8
    } else {
        4
    }
}

/// What can be said of the values of a data page, which stand from a position to
/// another: they stand one after the other, or are places in a dictionary that came
/// before, in runs that can be decoded, behind their width, or are integers, stored by
/// their differences or byte by byte. In a page that tells how many texts it holds,
/// there are so many. Of integers that may be missing, and of which there may be none,
/// some are not looked into.
pub open spec fn values_soundness(
    bytes: Seq<u8>,
    at: int,
    end: int,
    encoding: u64,
    count: u64,
    told: Option<u64>,
    leaf: Leaf,
    has_dictionary: bool,
) -> Soundness {
    let is_text = leaf.kind == ColumnKind::Utf8;
    if encoding == PLAIN {
        match told {
            Some(n) if is_text && !texts_hold(bytes, at, end, n as nat) => Soundness::Damaged,
            _ => Soundness::Whole,
        }
    } else if encoding == RLE_DICTIONARY || encoding == PLAIN_DICTIONARY {
        if has_dictionary && at < end && bytes[at] <= WIDEST_INDEX && runs_hold(
            bytes,
            at + 1,
            end,
            bytes[at],
        ) {
            Soundness::Whole
        } else {
            Soundness::Damaged
        }
    } else if is_text {
        if encoding == DELTA_LENGTH_BYTE_ARRAY || encoding == DELTA_BYTE_ARRAY {
            Soundness::Unsupported
        } else {
            Soundness::Damaged
        }
    } else if encoding == DELTA_BINARY_PACKED && deltas::deltas_hold(bytes, at, end) {
        Soundness::Whole
    } else if encoding == BYTE_STREAM_SPLIT && count * value_size(leaf.kind) <= end - at {
        Soundness::Whole
    } else if leaf.nullable && (encoding == DELTA_BINARY_PACKED || encoding == BYTE_STREAM_SPLIT) {
        Soundness::Unsupported
    } else {
        Soundness::Damaged
    }
}

/// What can be said of the values of a data page, see [`values_soundness`].
fn check_values(
    bytes: &Vec<u8>,
    at: usize,
    end: usize,
    encoding: u64,
    count: u64,
    told: Option<u64>,
    leaf: Leaf,
    has_dictionary: bool,
) -> (res: Soundness)
    requires
        at <= end <= bytes@.len(),
        count <= i32::MAX,
    ensures
        res == values_soundness(
            bytes@,
            at as int,
            end as int,
            encoding,
            count,
            told,
            leaf,
            has_dictionary,
        ),
{
    let is_text = leaf.kind == ColumnKind::Utf8;
    if encoding == PLAIN {
        if let Some(n) = told {
            if is_text && !check_texts(bytes, at, end, n) {
                return Soundness::Damaged;
            }
        }
        Soundness::Whole
    } else if encoding == RLE_DICTIONARY || encoding == PLAIN_DICTIONARY {
        if has_dictionary && at < end && bytes[at] <= WIDEST_INDEX && check_runs(
            bytes,
            at + 1,
            end,
            bytes[at],
        ) {
            Soundness::Whole
        } else {
            Soundness::Damaged
        }
    } else if is_text {
        if encoding == DELTA_LENGTH_BYTE_ARRAY || encoding == DELTA_BYTE_ARRAY {
            Soundness::Unsupported
        } else {
            Soundness::Damaged
        }
    } else {
        let size: u64 = if leaf.kind == ColumnKind::I64 {
            8
        } else {
            4
        };
        if encoding == DELTA_BINARY_PACKED && deltas::check_deltas(bytes, at, end) {
            Soundness::Whole
        } else if encoding == BYTE_STREAM_SPLIT && count * size <= (end - at) as u64 {
            Soundness::Whole
        } else if leaf.nullable && (encoding == DELTA_BINARY_PACKED || encoding
            == BYTE_STREAM_SPLIT) {
            Soundness::Unsupported
        } else {
            Soundness::Damaged
        }
    }
}

/// Where the values of a data page of the first version begin, if the levels before
/// them can be decoded: a column in which every row has a value has none, others
/// have them in runs, behind their length, or as bits.
pub open spec fn values_start(
    bytes: Seq<u8>,
    at: int,
    end: int,
    count: u64,
    levels: u64,
    leaf: Leaf,
) -> Option<int> {
    if !leaf.nullable {
        Some(at)
    } else if levels == RLE {
        if end - at >= 4 && four_bytes(bytes, at) <= end - at - 4 && levels_hold(
            bytes,
            at + 4,
            at + 4 + four_bytes(bytes, at),
        ) {
            Some(at + 4 + four_bytes(bytes, at))
        } else {
            None
        }
    } else if levels == BIT_PACKED && (count + 7) / 8 <= end - at {
        Some(at + (count + 7) / 8)
    } else {
        None
    }
}

/// Where the values of a data page begin, see [`values_start`].
fn find_values(bytes: &Vec<u8>, at: usize, end: usize, count: u64, levels: u64, leaf: Leaf) -> (res:
    Option<usize>)
    requires
        at <= end <= bytes@.len(),
        count <= i32::MAX,
    ensures
        match res {
            Some(start) => at <= start <= end && values_start(
                bytes@,
                at as int,
                end as int,
                count,
                levels,
                leaf,
            ) == Some(start as int),
            None => values_start(bytes@, at as int, end as int, count, levels, leaf) is None,
        },
{
    if !leaf.nullable {
        return Some(at);
    }
    if levels == RLE {
        if end - at < 4 {
            return None;
        }
        let size = read_four_bytes(bytes, at);
        if size > (end - at - 4) as u64 {
            return None;
        }
        let start = at + 4 + size as usize;
        if check_levels(bytes, at + 4, start) {
            Some(start)
        } else {
            None
        }
    } else {
        let size: u64 = (count + 7) / 8;
        if levels == BIT_PACKED && size <= (end - at) as u64 {
            Some(at + size as usize)
        } else {
            None
        }
    }
}

/// What can be said of a page of a column, given whether a dictionary came before. A
/// dictionary has four bytes for each entry, and nothing without entries.
#[verifier::opaque]
pub open spec fn page_soundness(
    bytes: Seq<u8>,
    page: Page,
    body: int,
    next: int,
    leaf: Leaf,
    has_dictionary: bool,
) -> Soundness {
    match page {
        Page::Index => Soundness::Whole,
        Page::Dictionary { count } => if 4 * count <= next - body && (count > 0 || body == next) {
            Soundness::Whole
        } else {
            Soundness::Damaged
        },
        Page::Data { count, encoding, levels } => match values_start(
            bytes,
            body,
            next,
            count,
            levels,
            leaf,
        ) {
            None => Soundness::Damaged,
            Some(start) => values_soundness(
                bytes,
                start,
                next,
                encoding,
                count,
                None,
                leaf,
                has_dictionary,
            ),
        },
        Page::DataV2 { count, nulls, encoding, level_size, repeat_size } => {
            let levels = body + repeat_size;
            let start = levels + level_size;
            if start > next || nulls > count || (leaf.nullable && !levels_hold(
                bytes,
                levels,
                start,
            )) {
                Soundness::Damaged
            } else {
                values_soundness(
                    bytes,
                    start,
                    next,
                    encoding,
                    (count - nulls) as u64,
                    Some((count - nulls) as u64),
                    leaf,
                    has_dictionary,
                )
            }
        },
    }
}

/// What can be said of a page, see [`page_soundness`].
pub fn check_page(bytes: &Vec<u8>, head: &PageHead, leaf: Leaf, has_dictionary: bool) -> (res:
    Soundness)
    requires
        head.body <= head.next <= bytes@.len(),
        is_counted(head.page),
    ensures
        res == page_soundness(
            bytes@,
            head.page,
            head.body as int,
            head.next as int,
            leaf,
            has_dictionary,
        ),
{
    proof {
        reveal(page_soundness);
    }
    let (body, next) = (head.body, head.next);
    match head.page {
        Page::Index => Soundness::Whole,
        Page::Dictionary { count } => if 4 * count <= (next - body) as u64 && (count > 0 || body
            == next) {
            Soundness::Whole
        } else {
            Soundness::Damaged
        },
        Page::Data { count, encoding, levels } => match find_values(
            bytes,
            body,
            next,
            count,
            levels,
            leaf,
        ) {
            None => Soundness::Damaged,
            Some(start) => check_values(
                bytes,
                start,
                next,
                encoding,
                count,
                None,
                leaf,
                has_dictionary,
            ),
        },
        Page::DataV2 { count, nulls, encoding, level_size, repeat_size } => {
            if repeat_size + level_size > (next - body) as u64 || nulls > count {
                return Soundness::Damaged;
            }
            let levels = body + repeat_size as usize;
            let start = levels + level_size as usize;
            if leaf.nullable && !check_levels(bytes, levels, start) {
                return Soundness::Damaged;
            }
            check_values(
                bytes,
                start,
                next,
                encoding,
                count - nulls,
                Some(count - nulls),
                leaf,
                has_dictionary,
            )
        },
    }
}

/// What can be said of the pages of a column that fill the bytes from a position to
/// another: what can be said of the first that is not whole.
pub open spec fn pages_soundness(
    bytes: Seq<u8>,
    at: int,
    end: int,
    leaf: Leaf,
    has_dictionary: bool,
) -> Soundness
    decreases end - at,
{
    if at >= end {
        Soundness::Whole
    } else {
        match page_head(bytes, at, end) {
            None => Soundness::Damaged,
            Some((page, body, next)) => {
                let first = page_soundness(bytes, page, body, next, leaf, has_dictionary);
                if first != Soundness::Whole || !(at < next <= end) {
                    first
                } else {
                    pages_soundness(
                        bytes,
                        next,
                        end,
                        leaf,
                        has_dictionary || page is Dictionary,
                    )
                }
            },
        }
    }
}

/// What can be said of pages, see [`pages_soundness`].
pub fn check_pages(bytes: &Vec<u8>, at: usize, end: usize, leaf: Leaf) -> (res: Soundness)
    requires
        end <= bytes@.len(),
    ensures
        res == pages_soundness(bytes@, at as int, end as int, leaf, false),
{
    let mut pos: usize = at;
    let mut has_dictionary: bool = false;
    while pos < end
        invariant
            end <= bytes@.len(),
            pages_soundness(bytes@, at as int, end as int, leaf, false) == pages_soundness(
                bytes@,
                pos as int,
                end as int,
                leaf,
                has_dictionary,
            ),
        decreases end - pos,
    {
        match read_page_head(bytes, pos, end) {
            None => return Soundness::Damaged,
            Some(head) => {
                let first = check_page(bytes, &head, leaf, has_dictionary);
                if first != Soundness::Whole {
                    return first;
                }
                pos = head.next;
                if let Page::Dictionary { .. } = head.page {
                    has_dictionary = true;
                }
            },
        }
    }
    Soundness::Whole
}

/// A data page whose values stand one after the other is whole, whatever they are and
/// however many, and so is a dictionary with four bytes or more for each entry.
pub proof fn law_plain_pages_are_whole(
    bytes: Seq<u8>,
    body: int,
    next: int,
    leaf: Leaf,
    count: u64,
    levels: u64,
    has_dictionary: bool,
)
    requires
        !leaf.nullable,
        0 <= body <= next,
    ensures
        page_soundness(
            bytes,
            Page::Data { count, encoding: 0, levels },
            body,
            next,
            leaf,
            has_dictionary,
        ) == Soundness::Whole,
        count > 0 && 4 * count <= next - body ==> page_soundness(
            bytes,
            Page::Dictionary { count },
            body,
            next,
            leaf,
            has_dictionary,
        ) == Soundness::Whole,
{
    reveal(page_soundness);
}

/// A data page of places in a dictionary that came before is whole where its runs are,
/// whatever the number of values; and runs are whole that stand one after the other, each
/// with its length in at most five bytes, to the end.
pub proof fn law_pages_of_places_are_whole(
    bytes: Seq<u8>,
    body: int,
    next: int,
    leaf: Leaf,
    count: u64,
    levels: u64,
    starts: Seq<int>,
)
    requires
        !leaf.nullable,
        0 <= body < next <= bytes.len(),
        bytes[body] < 32,
        starts.len() > 0,
        starts[0] == body + 1,
        starts.last() >= next,
        forall|i: int|
            0 <= i < starts.len() - 1 ==> ({
                let at = #[trigger] starts[i];
                let run = compact::varint_value(bytes, at, 5);
                &&& 0 <= at < next
                &&& at < starts[i + 1]
                &&& compact::varint_end(bytes, at, next, 5) matches Some(p) && starts[i + 1] == (
                if run == 0 {
                    p
                } else if run % 2 == 1 {
                    p + (run / 2) * bytes[body] as nat
                } else {
                    p + (bytes[body] as nat + 7) / 8
                })
            }),
    ensures
        page_soundness(
            bytes,
            Page::Data { count, encoding: 8, levels },
            body,
            next,
            leaf,
            true,
        ) == Soundness::Whole,
        page_soundness(
            bytes,
            Page::Data { count, encoding: 2, levels },
            body,
            next,
            leaf,
            true,
        ) == Soundness::Whole,
{
    reveal(page_soundness);
    lemma_runs_hold(bytes, next, bytes[body], starts, 0);
}

/// Runs that stand one after the other hold, from one on.
proof fn lemma_runs_hold(bytes: Seq<u8>, end: int, width: u8, starts: Seq<int>, from: int)
    requires
        0 <= from < starts.len(),
        starts.last() >= end,
        end <= bytes.len(),
        forall|i: int|
            0 <= i < starts.len() - 1 ==> ({
                let at = #[trigger] starts[i];
                let run = compact::varint_value(bytes, at, 5);
                &&& 0 <= at < end
                &&& at < starts[i + 1]
                &&& compact::varint_end(bytes, at, end, 5) matches Some(p) && starts[i + 1] == (
                if run == 0 {
                    p
                } else if run % 2 == 1 {
                    p + (run / 2) * width as nat
                } else {
                    p + (width as nat + 7) / 8
                })
            }),
    ensures
        runs_hold(bytes, starts[from], end, width),
    decreases starts.len() - from,
{
    if from < starts.len() - 1 {
        assert(0 <= starts[from] < end);
        lemma_runs_hold(bytes, end, width, starts, from + 1);
    }
}

} // verus!
