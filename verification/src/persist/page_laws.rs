//! What the pages of Parquet files are taken for, told of the bytes themselves.

use vstd::prelude::*;

use super::columnar::{ColumnKind, Leaf};
use super::compact;
use super::deltas;
use super::pages;
use super::pages::{Page, Soundness};

verus! {

/// Whether a header has, of the parts for kinds of pages, at most one.
pub open spec fn has_only_part(bytes: Seq<u8>, at: int, end: int, own: int) -> bool {
    &&& own == 5 || compact::field_at(bytes, at, end, 0, 5, 2) is None
    &&& own == 6 || compact::field_at(bytes, at, end, 0, 6, 2) is None
    &&& own == 7 || compact::field_at(bytes, at, end, 0, 7, 2) is None
    &&& own == 8 || compact::field_at(bytes, at, end, 0, 8, 2) is None
}

/// Whether the part of a header has numbers in its first fields, and a flag in another, if
/// that is there.
pub open spec fn is_part(bytes: Seq<u8>, part: int, end: int, numbers: int, flag: int) -> bool {
    &&& compact::typed_end(bytes, part, end, 0, numbers, flag, 1) is Some
    &&& forall|i: int|
        1 <= i <= numbers ==> #[trigger] compact::number_in(bytes, part, end, i, 1) is Some
}

/// The number in a field of the part of a header.
pub open spec fn number_of(bytes: Seq<u8>, part: int, end: int, i: int) -> u64 {
    compact::number_in(bytes, part, end, i, 1)->0 as u64
}

/// The header of a page has the page's kind in field 1, its size in memory and in the file
/// in fields 2 and 3, and what belongs to its kind in field 5, 6, 7 or 8: pages are of kind
/// 0, 2 or 3, and those of kind 1 are passed over. The body follows.
pub proof fn law_headers_of_pages(
    bytes: Seq<u8>,
    at: int,
    end: int,
    body: int,
    kind: nat,
    size: nat,
    part: int,
)
    requires
        compact::typed_end(bytes, at, end, 0, 4, 0, 2) == Some(body),
        compact::number_in(bytes, at, end, 1, 2) == Some(kind),
        compact::number_in(bytes, at, end, 2, 2) is Some,
        compact::number_in(bytes, at, end, 3, 2) == Some(size),
        body + size <= end,
        kind <= 3 && has_only_part(bytes, at, end, 5int + kind),
    ensures
        ({
            let head = pages::page_head(bytes, at, end);
            let next = body + size;
            let found = compact::struct_in(bytes, at, end, 5int + kind, 2) == Some(part);
            &&& kind == 0 && found && is_part(bytes, part, end, 4, 0) ==> head == Some(
                (
                    Page::Data {
                        count: number_of(bytes, part, end, 1),
                        encoding: number_of(bytes, part, end, 2),
                        levels: number_of(bytes, part, end, 3),
                    },
                    body,
                    next,
                ),
            )
            &&& kind == 0 && found && !is_part(bytes, part, end, 4, 0) ==> head is None
            &&& kind == 1 && (found || compact::field_at(bytes, at, end, 0, 6, 2) is None) ==> head
                == Some((Page::Index, body, next))
            &&& kind == 2 && found && is_part(bytes, part, end, 2, 3) ==> head == Some(
                (Page::Dictionary { count: number_of(bytes, part, end, 1) }, body, next),
            )
            &&& kind == 2 && found && !is_part(bytes, part, end, 2, 3) ==> head is None
            &&& kind == 3 && found && is_part(bytes, part, end, 6, 7) ==> head == Some(
                (
                    Page::DataV2 {
                        count: number_of(bytes, part, end, 1),
                        nulls: number_of(bytes, part, end, 2),
                        encoding: number_of(bytes, part, end, 4),
                        level_size: number_of(bytes, part, end, 5),
                        repeat_size: number_of(bytes, part, end, 6),
                    },
                    body,
                    next,
                ),
            )
            &&& kind == 3 && found && !is_part(bytes, part, end, 6, 7) ==> head is None
            &&& kind != 1 && compact::struct_in(bytes, at, end, 5int + kind, 2) is None ==> head
                is None
            &&& kind == 1 && compact::field_at(bytes, at, end, 0, 6, 2) is Some
                && compact::struct_in(bytes, at, end, 6, 2) is None ==> head is None
        }),
{
    reveal(pages::page_head);
    assert(pages::has_no_other_part(bytes, at, end, 5int + kind));
    if is_part(bytes, part, end, 4, 0) {
        assert(pages::part_holds(bytes, part, end, 4, 0));
        assert(compact::number_in(bytes, part, end, 1, 1) is Some);
        assert(compact::number_in(bytes, part, end, 2, 1) is Some);
        assert(compact::number_in(bytes, part, end, 3, 1) is Some);
    }
    if is_part(bytes, part, end, 2, 3) {
        assert(pages::part_holds(bytes, part, end, 2, 3));
        assert(compact::number_in(bytes, part, end, 1, 1) is Some);
    }
    if is_part(bytes, part, end, 6, 7) {
        assert(pages::part_holds(bytes, part, end, 6, 7));
        assert(compact::number_in(bytes, part, end, 1, 1) is Some);
        assert(compact::number_in(bytes, part, end, 2, 1) is Some);
        assert(compact::number_in(bytes, part, end, 4, 1) is Some);
        assert(compact::number_in(bytes, part, end, 5, 1) is Some);
        assert(compact::number_in(bytes, part, end, 6, 1) is Some);
    }
    assert(is_part(bytes, part, end, 4, 0) == pages::part_holds(bytes, part, end, 4, 0));
    assert(is_part(bytes, part, end, 2, 3) == pages::part_holds(bytes, part, end, 2, 3));
    assert(is_part(bytes, part, end, 6, 7) == pages::part_holds(bytes, part, end, 6, 7));
}

/// What is no header of a page: one without a kind or sizes, of another kind, with parts
/// for several kinds, or whose body is cut off.
pub proof fn law_headers_that_are_none(bytes: Seq<u8>, at: int, end: int)
    requires
        ({
            let kind = compact::number_in(bytes, at, end, 1, 2);
            let size = compact::number_in(bytes, at, end, 3, 2);
            let body = compact::typed_end(bytes, at, end, 0, 4, 0, 2);
            ||| body is None
            ||| kind is None
            ||| compact::number_in(bytes, at, end, 2, 2) is None
            ||| size is None
            ||| kind->0 > 3
            ||| body->0 + size->0 > end
            ||| !has_only_part(bytes, at, end, 5int + kind->0)
        }),
    ensures
        pages::page_head(bytes, at, end) is None,
{
    reveal(pages::page_head);
    if let Some(kind) = compact::number_in(bytes, at, end, 1, 2) {
        if kind <= 3 && pages::has_no_other_part(bytes, at, end, 5int + kind) {
            let own = 5int + kind;
            assert(own == 5 || compact::field_at(bytes, at, end, 0, 5, 2) is None);
            assert(own == 6 || compact::field_at(bytes, at, end, 0, 6, 2) is None);
            assert(own == 7 || compact::field_at(bytes, at, end, 0, 7, 2) is None);
            assert(own == 8 || compact::field_at(bytes, at, end, 0, 8, 2) is None);
        }
    }
}

/// What a data page of a column without missing values is, by its encoding. Values one
/// after the other are 0. Places in a dictionary are 2 or 8, and need one, and a width of
/// at most 31 bits. Integers by their differences are 5; 9 are their bytes one by one, of
/// which there are enough. Texts by differences are 6 and 7, which are not looked into.
pub proof fn law_encodings_of_values(
    bytes: Seq<u8>,
    body: int,
    next: int,
    kind: ColumnKind,
    count: u64,
    encoding: u64,
    levels: u64,
    has_dictionary: bool,
)
    ensures
        pages::page_soundness(
            bytes,
            Page::Data { count, encoding, levels },
            body,
            next,
            Leaf { kind, nullable: false },
            has_dictionary,
        ) == (if encoding == 0 {
            Soundness::Whole
        } else if encoding == 2 || encoding == 8 {
            if has_dictionary && body < next && bytes[body] <= 31 && pages::runs_hold(
                bytes,
                body + 1,
                next,
                bytes[body],
            ) {
                Soundness::Whole
            } else {
                Soundness::Damaged
            }
        } else if kind == ColumnKind::Utf8 {
            if encoding == 6 || encoding == 7 {
                Soundness::Unsupported
            } else {
                Soundness::Damaged
            }
        } else if encoding == 5 && deltas::deltas_hold(bytes, body, next) {
            Soundness::Whole
        } else if encoding == 9 && kind == ColumnKind::I64 && 8 * count <= next - body {
            Soundness::Whole
        } else if encoding == 9 && kind != ColumnKind::I64 && 4 * count <= next - body {
            Soundness::Whole
        } else {
            Soundness::Damaged
        }),
{
    reveal(pages::page_soundness);
}

/// What becomes of what is said of a page where values may be missing: integers by their
/// differences, or byte by byte, that do not hold are not looked into.
pub open spec fn with_gaps(inner: Soundness, encoding: u64, kind: ColumnKind) -> Soundness {
    if inner == Soundness::Damaged && kind != ColumnKind::Utf8 && (encoding == 5 || encoding == 9) {
        Soundness::Unsupported
    } else {
        inner
    }
}

/// In a column in which values may be missing, the values of a data page follow its levels:
/// those of encoding 3 are as many bytes as the four bytes before them tell, the lowest
/// first, and those of encoding 4 are one bit for each value.
pub proof fn law_pages_with_levels(
    bytes: Seq<u8>,
    body: int,
    next: int,
    kind: ColumnKind,
    count: u64,
    encoding: u64,
    levels: u64,
    has_dictionary: bool,
)
    ensures
        ({
            let page = Page::Data { count, encoding, levels };
            let res = pages::page_soundness(
                bytes,
                page,
                body,
                next,
                Leaf { kind, nullable: true },
                has_dictionary,
            );
            let size = bytes[body] + 0x100 * bytes[body + 1] + 0x1_0000 * bytes[body + 2]
                + 0x100_0000 * bytes[body + 3];
            let start = if levels == 3 {
                body + 4 + size
            } else {
                body + (count + 7) / 8
            };
            let holds = start <= next && (if levels == 3 {
                body + 4 <= next && pages::levels_hold(bytes, body + 4, start)
            } else {
                levels == 4
            });
            &&& holds ==> res == with_gaps(
                pages::page_soundness(
                    bytes,
                    page,
                    start,
                    next,
                    Leaf { kind, nullable: false },
                    has_dictionary,
                ),
                encoding,
                kind,
            )
            &&& !holds ==> res == Soundness::Damaged
        }),
{
    reveal(pages::page_soundness);
}

/// The values of a data page of the second version follow its levels, whose sizes are
/// told. No more values are missing than there are, and of texts one after the other there
/// are as many as are told.
pub proof fn law_pages_of_the_second_version(
    bytes: Seq<u8>,
    body: int,
    next: int,
    leaf: Leaf,
    count: u64,
    nulls: u64,
    encoding: u64,
    level_size: u64,
    repeat_size: u64,
    has_dictionary: bool,
)
    ensures
        ({
            let res = pages::page_soundness(
                bytes,
                Page::DataV2 { count, nulls, encoding, level_size, repeat_size },
                body,
                next,
                leaf,
                has_dictionary,
            );
            let start = body + repeat_size + level_size;
            let holds = start <= next && nulls <= count && (leaf.nullable ==> pages::levels_hold(
                bytes,
                body + repeat_size,
                start,
            ));
            let plain_texts = encoding == 0 && leaf.kind == ColumnKind::Utf8;
            let inner = pages::page_soundness(
                bytes,
                Page::Data { count: (count - nulls) as u64, encoding, levels: 3 },
                start,
                next,
                Leaf { kind: leaf.kind, nullable: false },
                has_dictionary,
            );
            &&& !holds ==> res == Soundness::Damaged
            &&& holds && plain_texts ==> res == (if pages::texts_hold(
                bytes,
                start,
                next,
                (count - nulls) as nat,
            ) {
                Soundness::Whole
            } else {
                Soundness::Damaged
            })
            &&& holds && !plain_texts ==> res == (if leaf.nullable {
                with_gaps(inner, encoding, leaf.kind)
            } else {
                inner
            })
        }),
{
    reveal(pages::page_soundness);
}

/// Pages of kind 1 are passed over, and a dictionary has four bytes or more for each entry,
/// and nothing without entries.
pub proof fn law_pages_without_values(
    bytes: Seq<u8>,
    body: int,
    next: int,
    leaf: Leaf,
    count: u64,
    has_dictionary: bool,
)
    ensures
        pages::page_soundness(bytes, Page::Index, body, next, leaf, has_dictionary)
            == Soundness::Whole,
        pages::page_soundness(bytes, Page::Dictionary { count }, body, next, leaf, has_dictionary)
            == (if 4 * count > next - body || (count == 0 && body < next) {
            Soundness::Damaged
        } else {
            Soundness::Whole
        }),
{
    reveal(pages::page_soundness);
}

/// Whether a run of levels stands at the `i`-th of some positions, and ends at the next: one
/// of odd length has half as many bytes, and one of even length one byte.
pub open spec fn is_level_run(bytes: Seq<u8>, starts: Seq<int>, i: int, end: int) -> bool {
    let run = compact::varint_value(bytes, starts[i], 5);
    &&& 0 <= starts[i] < end <= bytes.len()
    &&& compact::varint_end(bytes, starts[i], end, 5) matches Some(p) && starts[i] < p
        && starts[i + 1] == (if run % 2 == 1 {
        p + run / 2
    } else {
        p + 1
    })
}

/// Runs of levels hold where they stand one after the other and end where they should, and
/// do not where the last goes beyond.
pub proof fn law_runs_of_levels(bytes: Seq<u8>, starts: Seq<int>, end: int)
    requires
        starts.len() > 0,
        starts.last() >= end,
        forall|i: int| 0 <= i < starts.len() - 1 ==> #[trigger] is_level_run(bytes, starts, i, end),
    ensures
        pages::levels_hold(bytes, starts[0], end) == (starts.last() == end || starts.len() == 1),
{
    lemma_levels(bytes, starts, end, 0);
}

proof fn lemma_levels(bytes: Seq<u8>, starts: Seq<int>, end: int, from: int)
    requires
        0 <= from < starts.len(),
        starts.last() >= end,
        forall|i: int| 0 <= i < starts.len() - 1 ==> #[trigger] is_level_run(bytes, starts, i, end),
    ensures
        pages::levels_hold(bytes, starts[from], end) == (starts.last() == end || from
            == starts.len() - 1),
    decreases starts.len() - from,
{
    if from < starts.len() - 1 {
        assert(is_level_run(bytes, starts, from, end));
        lemma_levels(bytes, starts, end, from + 1);
        if from + 1 < starts.len() - 1 {
            assert(is_level_run(bytes, starts, from + 1, end));
        }
    }
}

/// Runs of places in a dictionary do not hold where the length of one goes on for more than
/// five bytes and more than ten bytes are left.
pub proof fn law_runs_without_a_length(bytes: Seq<u8>, at: int, end: int, width: u8)
    requires
        0 <= at,
        end - at > 10,
        end <= bytes.len(),
        compact::varint_end(bytes, at, end, 5) is None,
    ensures
        !pages::runs_hold(bytes, at, end, width),
        !pages::levels_hold(bytes, at, end),
{
}

/// Whether a text stands at the `i`-th of some positions, behind its length of four bytes,
/// the lowest first, and ends at the next.
pub open spec fn is_text_at(bytes: Seq<u8>, starts: Seq<int>, i: int, end: int) -> bool {
    let at = starts[i];
    &&& starts[i + 1] == at + 4 + bytes[at] + 0x100 * bytes[at + 1] + 0x1_0000 * bytes[at + 2]
        + 0x100_0000 * bytes[at + 3]
    &&& starts[i + 1] <= end
}

/// Texts fill bytes where the last ends where they should; if a text is cut off, the
/// decoder is left to say so.
pub proof fn law_texts_fill_their_bytes(bytes: Seq<u8>, starts: Seq<int>, end: int, n: nat)
    requires
        0 < starts.len() <= n + 1,
        forall|i: int| 0 <= i < starts.len() - 1 ==> #[trigger] is_text_at(bytes, starts, i, end),
        ({
            let at = starts.last();
            starts.len() == n + 1 || end - at < 4 || at + 4 + bytes[at] + 0x100 * bytes[at + 1]
                + 0x1_0000 * bytes[at + 2] + 0x100_0000 * bytes[at + 3] > end
        }),
    ensures
        pages::texts_hold(bytes, starts[0], end, n) == (starts.len() <= n || starts.last() == end),
{
    lemma_texts(bytes, starts, end, n, 0);
}

proof fn lemma_texts(bytes: Seq<u8>, starts: Seq<int>, end: int, n: nat, from: int)
    requires
        0 <= from < starts.len() <= n + 1,
        forall|i: int| 0 <= i < starts.len() - 1 ==> #[trigger] is_text_at(bytes, starts, i, end),
        ({
            let at = starts.last();
            starts.len() == n + 1 || end - at < 4 || at + 4 + bytes[at] + 0x100 * bytes[at + 1]
                + 0x1_0000 * bytes[at + 2] + 0x100_0000 * bytes[at + 3] > end
        }),
    ensures
        pages::texts_hold(bytes, starts[from], end, (n - from) as nat) == (starts.len() <= n
            || starts.last() == end),
    decreases starts.len() - from,
{
    if from < starts.len() - 1 {
        assert(is_text_at(bytes, starts, from, end));
        lemma_texts(bytes, starts, end, n, from + 1);
    }
}

/// The header of integers by their differences holds, as integers of at most five bytes,
/// how many values a block has, a multiple of 128, of how many smaller blocks it is made,
/// each with a multiple of 32 values, and how many values there are, of which there is at
/// least one; and then the first value.
pub proof fn law_headers_of_differences(
    bytes: Seq<u8>,
    at: int,
    end: int,
    p: int,
    q: int,
    r: int,
    start: int,
)
    requires
        compact::varint_end(bytes, at, end, 5) == Some(p),
        compact::varint_end(bytes, p, end, 5) == Some(q),
        compact::varint_end(bytes, q, end, 5) == Some(r),
        compact::varint_end(bytes, r, end, 10) == Some(start),
    ensures
        ({
            let block = compact::varint_value(bytes, at, 5);
            let minis = compact::varint_value(bytes, p, 5);
            let total = compact::varint_value(bytes, q, 5);
            deltas::deltas_hold(bytes, at, end) == (0 < block <= 0x7FFF_FFFF && 0 < minis && 0
                < total <= 0x7FFF_FFFF && block % 128 == 0 && block % minis == 0 && (block / minis)
                % 32 == 0 && deltas::blocks_hold(
                bytes,
                start,
                end,
                block,
                minis,
                (total - 1) as nat,
            ))
        }),
{
}

/// Integers by their differences do not hold where the header is cut off.
pub proof fn law_differences_without_a_header(bytes: Seq<u8>, at: int, end: int)
    requires
        match compact::varint_end(bytes, at, end, 5) {
            None => true,
            Some(p) => match compact::varint_end(bytes, p, end, 5) {
                None => true,
                Some(q) => match compact::varint_end(bytes, q, end, 5) {
                    None => true,
                    Some(r) => compact::varint_end(bytes, r, end, 10) is None,
                },
            },
        },
    ensures
        !deltas::deltas_hold(bytes, at, end),
{
}

/// Smaller blocks take their width in bits for each value, and together what they take one
/// by one.
pub proof fn law_sizes_of_smaller_blocks(bytes: Seq<u8>, at: int, a: nat, b: nat, values: nat)
    ensures
        deltas::minis_size(bytes, at, 0, values) == 0,
        deltas::minis_size(bytes, at, 1, values) == bytes[at] as nat * values / 8,
        deltas::minis_size(bytes, at, a + b, values) == deltas::minis_size(bytes, at, a, values)
            + deltas::minis_size(bytes, at + a, b, values),
    decreases b,
{
    reveal_with_fuel(deltas::minis_size, 2);
    if b > 0 {
        law_sizes_of_smaller_blocks(bytes, at, a, (b - 1) as nat, values);
        assert(at + (a + b) - 1 == at + a + b - 1);
    }
}

/// Whether a block stands at the `i`-th of some positions, and ends at the next: the
/// smallest difference, the widths of the smaller blocks, and these.
pub open spec fn is_block(
    bytes: Seq<u8>,
    starts: Seq<int>,
    i: int,
    end: int,
    block: nat,
    minis: nat,
) -> bool {
    compact::varint_end(bytes, starts[i], end, 10) matches Some(p) && starts[i + 1] == p + minis
        + deltas::minis_size(bytes, p, minis, block / minis)
}

/// Blocks hold that stand one after the other, until the values are there or no more than
/// ten bytes are left.
pub proof fn law_blocks_hold(
    bytes: Seq<u8>,
    starts: Seq<int>,
    end: int,
    block: nat,
    minis: nat,
    left: nat,
)
    requires
        starts.len() > 0,
        forall|i: int|
            0 <= i < starts.len() - 1 ==> #[trigger] is_block(bytes, starts, i, end, block, minis),
        left <= (starts.len() - 1) * block || starts.last() + 10 >= end,
    ensures
        deltas::blocks_hold(bytes, starts[0], end, block, minis, left),
{
    lemma_blocks(bytes, starts, end, block, minis, left, 0);
}

proof fn lemma_blocks(
    bytes: Seq<u8>,
    starts: Seq<int>,
    end: int,
    block: nat,
    minis: nat,
    left: nat,
    from: int,
)
    requires
        0 <= from < starts.len(),
        forall|i: int|
            0 <= i < starts.len() - 1 ==> #[trigger] is_block(bytes, starts, i, end, block, minis),
        left <= (starts.len() - 1 - from) * block || starts.last() + 10 >= end,
    ensures
        deltas::blocks_hold(bytes, starts[from], end, block, minis, left),
    decreases starts.len() - from,
{
    if from == starts.len() - 1 {
        assert((starts.len() - 1 - from) * block == 0) by (nonlinear_arith)
            requires
                starts.len() - 1 - from == 0,
        ;
    } else if left > block {
        assert(is_block(bytes, starts, from, end, block, minis));
        assert((starts.len() - 1 - from) * block == (starts.len() - 1 - (from + 1)) * block + block)
            by (nonlinear_arith);
        lemma_blocks(bytes, starts, end, block, minis, (left - block) as nat, from + 1);
    } else {
        assert(is_block(bytes, starts, from, end, block, minis));
    }
}

/// Blocks do not hold where more values are to come, more than ten bytes are left, and the
/// smallest difference of the next block goes on for too long.
pub proof fn law_blocks_that_do_not_hold(
    bytes: Seq<u8>,
    starts: Seq<int>,
    end: int,
    block: nat,
    minis: nat,
    left: nat,
)
    requires
        starts.len() > 0,
        block > 0,
        minis > 0,
        forall|i: int|
            0 <= i < starts.len() - 1 ==> #[trigger] is_block(bytes, starts, i, end, block, minis),
        forall|i: int| 0 <= i < starts.len() ==> (#[trigger] starts[i]) + 10 < end,
        left > (starts.len() - 1) * block,
        compact::varint_end(bytes, starts.last(), end, 10) is None,
    ensures
        !deltas::blocks_hold(bytes, starts[0], end, block, minis, left),
{
    lemma_no_blocks(bytes, starts, end, block, minis, left, 0);
}

proof fn lemma_no_blocks(
    bytes: Seq<u8>,
    starts: Seq<int>,
    end: int,
    block: nat,
    minis: nat,
    left: nat,
    from: int,
)
    requires
        0 <= from < starts.len(),
        block > 0,
        minis > 0,
        forall|i: int|
            0 <= i < starts.len() - 1 ==> #[trigger] is_block(bytes, starts, i, end, block, minis),
        forall|i: int| 0 <= i < starts.len() ==> (#[trigger] starts[i]) + 10 < end,
        left > (starts.len() - 1 - from) * block,
        compact::varint_end(bytes, starts.last(), end, 10) is None,
    ensures
        !deltas::blocks_hold(bytes, starts[from], end, block, minis, left),
    decreases starts.len() - from,
{
    let n = starts.len() - 1 - from;
    assert(n * block == (n - 1) * block + block && (n >= 0 ==> n * block >= 0) && (n >= 1 ==> n
        * block >= block)) by (nonlinear_arith)
        requires
            block > 0,
    ;
    assert(starts[from] + 10 < end);
    if n > 0 {
        assert(is_block(bytes, starts, from, end, block, minis));
        assert(starts[from + 1] + 10 < end);
        lemma_no_blocks(bytes, starts, end, block, minis, (left - block) as nat, from + 1);
        assert(block / minis >= 0) by (nonlinear_arith)
            requires
                minis > 0,
        ;
    }
}

/// What is said of pages one after the other is what is said of the first, where that is
/// not whole; and where there is no page, they do not hold together.
pub proof fn law_the_first_page_that_is_not_whole(
    bytes: Seq<u8>,
    at: int,
    end: int,
    leaf: Leaf,
    has_dictionary: bool,
)
    requires
        at < end,
    ensures
        pages::page_head(bytes, at, end) is None ==> pages::pages_soundness(
            bytes,
            at,
            end,
            leaf,
            has_dictionary,
        ) == Soundness::Damaged,
        pages::page_head(bytes, at, end) matches Some(head) ==> ({
            let first = pages::page_soundness(
                bytes,
                head.0,
                head.1,
                head.2,
                leaf,
                has_dictionary,
            );
            first != Soundness::Whole ==> pages::pages_soundness(
                bytes,
                at,
                end,
                leaf,
                has_dictionary,
            ) == first
        }),
{
}

} // verus!
