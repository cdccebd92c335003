//! Blocks of a disc image.

use vstd::prelude::*;

verus! {

/// How a block is found in an image.
#[derive(Clone, Copy, Debug, PartialEq, Eq, Structural)]
pub enum BlockKind {
    /// The block lies behind the end of the disc.
    OutOfBounds,
    /// The block is stored as it is on the disc.
    Raw,
    /// The block consists of junk data, which is generated when it is read.
    Junk,
    /// The block consists of zeroes.
    Zero,
}

/// A block of an image.
#[derive(Clone, Copy, Debug, PartialEq, Eq, Structural)]
pub struct Block {
    /// Index of the block.
    pub block_idx: u32,
    /// Size in bytes of the block.
    pub block_size: u32,
    /// How the block is found.
    pub kind: BlockKind,
}

/// The index of the block that a sector lies in. Block indexes have 32 bits.
pub open spec fn block_at(sector: u32, block_size: u32) -> u32 {
    ((sector * 0x8000 / block_size as int) % 0x1_0000_0000) as u32
}

/// The index of the block that a sector lies in.
pub fn block_number(sector: u32, block_size: u32) -> (block_idx: u32)
    requires
        block_size > 0,
    ensures
        block_idx == block_at(sector, block_size),
{
    let index: u64 = sector as u64 * 0x8000 / block_size as u64;
    assert(index as u32 == index % 0x1_0000_0000) by (bit_vector);
    #[verifier::truncate]
    (index as u32)
}

/// How a block that is not stored is found, given what the NKit header says about it.
pub open spec fn unstored_kind(junk: Option<bool>) -> BlockKind {
    if junk == Some(true) {
        BlockKind::Junk
    } else {
        BlockKind::Zero
    }
}

/// The value `n / d`, rounded up.
pub open spec fn div_up(n: int, d: int) -> int {
    if n % d == 0 {
        n / d
    } else {
        n / d + 1
    }
}

/// Pieces of size `d` cover `n`, and one less of them does not.
pub proof fn lemma_div_up(n: int, d: int)
    requires
        n >= 0,
        d > 0,
    ensures
        div_up(n, d) >= 0,
        n <= div_up(n, d) * d,
        n > 0 ==> (div_up(n, d) - 1) * d < n,
{
    assert(n == n / d * d + n % d && 0 <= n % d < d && n / d >= 0) by (nonlinear_arith)
        requires
            n >= 0,
            d > 0,
    ;
    let q = n / d;
    assert((q + 1) * d == q * d + d) by (nonlinear_arith);
    assert((q - 1) * d == q * d - d) by (nonlinear_arith);
}

} // verus!
