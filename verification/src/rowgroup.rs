//! Which row groups of a data file can hold the row that is looked for,
//! going by the least and the greatest index that their statistics give.

use vstd::prelude::*;

verus! {

/// The index of the row that is looked for.
pub const DESIRED_INDEX: i64 = 5000000;

/// The number that `bytes` spell, the first byte counting least.
pub open spec fn le_unsigned(bytes: Seq<u8>) -> nat
    decreases bytes.len(),
{
    if bytes.len() == 0 {
        0
    } else {
        bytes[0] as nat + 256 * le_unsigned(bytes.drop_first())
    }
}

/// The signed number that 8 bytes spell in two's complement, the first byte
/// counting least.
pub open spec fn le_i64(bytes: Seq<u8>) -> int {
    let unsigned = le_unsigned(bytes);
    if unsigned >= 0x8000_0000_0000_0000 {
        unsigned - 0x1_0000_0000_0000_0000
    } else {
        unsigned as int
    }
}

/// 256 to the power `n`.
pub open spec fn pow256(n: nat) -> nat
    decreases n,
{
    if n == 0 {
        1
    } else {
        256 * pow256((n - 1) as nat)
    }
}

/// Bytes spell a number below the power of 256 that their count gives.
pub proof fn lemma_le_unsigned_bound(bytes: Seq<u8>)
    ensures
        le_unsigned(bytes) < pow256(bytes.len()),
    decreases bytes.len(),
{
    if bytes.len() > 0 {
        lemma_le_unsigned_bound(bytes.drop_first());
    }
}

/// Reads a signed 64-bit number from its 8 bytes, the first byte counting
/// least.
pub fn read_le_i64(input: &[u8]) -> (r: i64)
    requires
        input@.len() == 8,
    ensures
        r == le_i64(input@),
{
    let mut unsigned: u64 = 0;
    let mut i: usize = 8;
    proof {
        reveal_with_fuel(pow256, 9);
        assert(input@.skip(8) =~= Seq::<u8>::empty());
    }
    while i > 0
        invariant
            i <= 8,
            input@.len() == 8,
            unsigned == le_unsigned(input@.skip(i as int)),
            unsigned < pow256((8 - i) as nat),
        decreases i,
    {
        i -= 1;
        proof {
            reveal_with_fuel(pow256, 9);
            assert(input@.skip(i as int).drop_first() =~= input@.skip(i + 1));
            lemma_le_unsigned_bound(input@.skip(i + 1));
        }
        unsigned = unsigned * 256 + input[i] as u64;
    }
    assert(input@.skip(0) =~= input@);
    if unsigned < 0x8000_0000_0000_0000 {
        unsigned as i64
    } else {
        (unsigned - 0x8000_0000_0000_0000) as i64 + i64::MIN
    }
}

/// Whether a row group can hold the row that is looked for: one without
/// statistics can; one with statistics can where the index lies between the
/// least and the greatest that they give, each in 8 bytes.
pub fn filter_row_group_for_idx(stats: Option<(&[u8], &[u8])>) -> (r: bool)
    requires
        stats matches Some(range) ==> range.0@.len() == 8 && range.1@.len() == 8,
    ensures
        r == match stats {
            Some(range) => le_i64(range.0@) <= DESIRED_INDEX <= le_i64(range.1@),
            None => true,
        },
{
    match stats {
        Some((min_bytes, max_bytes)) => {
            let min = read_le_i64(min_bytes);
            let max = read_le_i64(max_bytes);
            DESIRED_INDEX >= min && DESIRED_INDEX <= max
        },
        None => true,
    }
}

} // verus!
