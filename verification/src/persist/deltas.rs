//! Integers that are stored by their differences, in blocks: whether the lengths and
//! counts among them can be decoded.
//!
//! The header tells how many values a block has, of how many smaller blocks it is
//! made, and how many values there are in all, and holds the first value. A block
//! holds the smallest difference, the widths of its smaller blocks in bits, and
//! these.

use vstd::prelude::*;

use super::compact;

verus! {

/// A block has a multiple of so many values.
pub const BLOCK_UNIT: u64 = 128;

/// A smaller block has a multiple of so many values.
pub const MINI_UNIT: u64 = 32;

/// The header of integers that are stored by their differences: how many values a
/// block has, of how many smaller blocks it is made, how many values there are in
/// all, and where the first block begins.
#[derive(Clone, Copy, Debug, PartialEq, Eq, Structural)]
pub struct DeltaHead {
    pub block: u64,
    pub minis: u64,
    pub total: u64,
    pub start: usize,
}

/// Whether the counts of a header fit together: they are integers of 32 bits, and
/// blocks and smaller blocks have multiples of values.
pub open spec fn counts_hold(block: nat, minis: nat, total: nat) -> bool {
    &&& 0 < block <= i32::MAX
    &&& 0 < minis
    &&& total <= i32::MAX
    &&& block % BLOCK_UNIT as nat == 0
    &&& block % minis == 0
    &&& (block / minis) % MINI_UNIT as nat == 0
}

/// The header at a position, if there is one whose counts fit together: how many
/// values a block has, of how many smaller blocks it is made, how many values there
/// are in all, and where the first block begins.
pub open spec fn delta_head(bytes: Seq<u8>, at: int, end: int) -> Option<(nat, nat, nat, int)> {
    let n = compact::LONGEST_I32 as nat;
    match compact::varint_end(bytes, at, end, n) {
        None => None,
        Some(p) => match compact::varint_end(bytes, p, end, n) {
            None => None,
            Some(q) => match compact::varint_end(bytes, q, end, n) {
                None => None,
                Some(r) => match compact::varint_end(bytes, r, end, compact::LONGEST_I64 as nat) {
                    None => None,
                    Some(start) => {
                        let block = compact::varint_value(bytes, at, n);
                        let minis = compact::varint_value(bytes, p, n);
                        let total = compact::varint_value(bytes, q, n);
                        if counts_hold(block, minis, total) {
                            Some((block, minis, total, start))
                        } else {
                            None
                        }
                    },
                },
            },
        },
    }
}

/// The header at a position, see [`delta_head`].
pub fn read_delta_head(bytes: &Vec<u8>, at: usize, end: usize) -> (res: Option<DeltaHead>)
    requires
        end <= bytes@.len(),
    ensures
        match res {
            Some(head) => {
                &&& at < head.start <= end
                &&& counts_hold(head.block as nat, head.minis as nat, head.total as nat)
                &&& delta_head(bytes@, at as int, end as int) == Some(
                    (head.block as nat, head.minis as nat, head.total as nat, head.start as int),
                )
            },
            None => delta_head(bytes@, at as int, end as int) is None,
        },
{
    let (block, p) = match compact::read_varint(bytes, at, end, compact::LONGEST_I32) {
        Some(found) => found,
        None => return None,
    };
    let (minis, q) = match compact::read_varint(bytes, p, end, compact::LONGEST_I32) {
        Some(found) => found,
        None => return None,
    };
    let (total, r) = match compact::read_varint(bytes, q, end, compact::LONGEST_I32) {
        Some(found) => found,
        None => return None,
    };
    let start = match compact::skip_varint(bytes, r, end, compact::LONGEST_I64) {
        Some(start) => start,
        None => return None,
    };
    if block == 0 || block > i32::MAX as u64 || minis == 0 || total > i32::MAX as u64 {
        return None;
    }
    if block % BLOCK_UNIT != 0 || block % minis != 0 || (block / minis) % MINI_UNIT != 0 {
        return None;
    }
    Some(DeltaHead { block, minis, total, start })
}

/// How many bytes the first `n` smaller blocks of a block take, given their widths,
/// which stand from a position on, and how many values each has.
pub open spec fn minis_size(bytes: Seq<u8>, at: int, n: nat, values: nat) -> nat
    decreases n,
{
    if n == 0 {
        0
    } else {
        minis_size(bytes, at, (n - 1) as nat, values) + bytes[at + n - 1] as nat * values / 8
    }
}

/// How many bytes the smaller blocks of a block take, see [`minis_size`].
fn add_minis(bytes: &Vec<u8>, at: usize, n: u64, values: u64) -> (res: u128)
    requires
        at + n <= bytes@.len(),
        n <= i32::MAX,
        values <= i32::MAX,
    ensures
        res == minis_size(bytes@, at as int, n as nat, values as nat),
        res <= n * 0x100_0000_0000,
{
    let mut size: u128 = 0;
    let mut i: u64 = 0;
    assert(bytes.len() <= usize::MAX);
    while i < n
        invariant
            i <= n <= i32::MAX,
            at + n <= bytes@.len() <= usize::MAX,
            values <= i32::MAX,
            size == minis_size(bytes@, at as int, i as nat, values as nat),
            size <= i * 0x100_0000_0000,
        decreases n - i,
    {
        let width = bytes[at + i as usize];
        assert(0 <= width * values <= 0xFF * 0x8000_0000) by (nonlinear_arith)
            requires
                width <= 0xFF,
                values <= 0x8000_0000,
        ;
        size = size + (width as u64 * values / 8) as u128;
        i += 1;
    }
    size
}

/// Whether the blocks of a number of values from a position on can be decoded: no
/// smallest difference is longer than an integer of 64 bits. In so few bytes as are
/// left for one integer, none is.
pub open spec fn blocks_hold(
    bytes: Seq<u8>,
    at: int,
    end: int,
    block: nat,
    minis: nat,
    left: nat,
) -> bool
    decreases left,
{
    if left == 0 || block == 0 || end - at <= compact::LONGEST_I64 {
        true
    } else {
        match compact::varint_end(bytes, at, end, compact::LONGEST_I64 as nat) {
            None => false,
            Some(p) => {
                let next = p + minis + minis_size(bytes, p, minis, block / minis);
                p + minis > end || left <= block || next >= end || blocks_hold(
                    bytes,
                    next,
                    end,
                    block,
                    minis,
                    (left - block) as nat,
                )
            },
        }
    }
}

/// Whether the blocks of a number of values can be decoded, see [`blocks_hold`].
fn check_blocks(bytes: &Vec<u8>, head: &DeltaHead, end: usize, values: u64) -> (res: bool)
    requires
        head.start <= end <= bytes@.len(),
        counts_hold(head.block as nat, head.minis as nat, head.total as nat),
    ensures
        res == blocks_hold(
            bytes@,
            head.start as int,
            end as int,
            head.block as nat,
            head.minis as nat,
            values as nat,
        ),
{
    let (block, minis) = (head.block, head.minis);
    let mut pos: usize = head.start;
    let mut left: u64 = values;
    assert(minis <= block && block / minis <= block) by (nonlinear_arith)
        requires
            block > 0,
            minis > 0,
            block % minis == 0,
    ;
    while left > 0
        invariant
            pos <= end <= bytes@.len(),
            0 < minis <= block <= i32::MAX,
            block / minis <= block,
            block == head.block,
            minis == head.minis,
            blocks_hold(
                bytes@,
                head.start as int,
                end as int,
                block as nat,
                minis as nat,
                values as nat,
            ) == blocks_hold(
                bytes@,
                pos as int,
                end as int,
                block as nat,
                minis as nat,
                left as nat,
            ),
        decreases left,
    {
        if end - pos <= compact::LONGEST_I64 as usize {
            return true;
        }
        let p = match compact::skip_varint(bytes, pos, end, compact::LONGEST_I64) {
            Some(p) => p,
            None => return false,
        };
        if minis > (end - p) as u64 || left <= block {
            return true;
        }
        let size = add_minis(bytes, p, minis, block / minis);
        let rest: u128 = (end - p) as u128 - minis as u128;
        if size >= rest {
            return true;
        }
        pos = p + minis as usize + size as usize;
        left -= block;
    }
    true
}

/// Whether integers that are stored by their differences from a position on can be
/// decoded: there is at least one.
pub open spec fn deltas_hold(bytes: Seq<u8>, at: int, end: int) -> bool {
    match delta_head(bytes, at, end) {
        None => false,
        Some((block, minis, total, start)) => total > 0 && blocks_hold(
            bytes,
            start,
            end,
            block,
            minis,
            (total - 1) as nat,
        ),
    }
}

/// Whether integers that are stored by their differences can be decoded, see
/// [`deltas_hold`].
pub fn check_deltas(bytes: &Vec<u8>, at: usize, end: usize) -> (res: bool)
    requires
        end <= bytes@.len(),
    ensures
        res == deltas_hold(bytes@, at as int, end as int),
{
    match read_delta_head(bytes, at, end) {
        None => false,
        Some(head) => head.total > 0 && check_blocks(bytes, &head, end, head.total - 1),
    }
}

} // verus!
