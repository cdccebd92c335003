//! What the blocks that are read hold of the disc, byte by byte.

use vstd::prelude::*;

use crate::block::{
    joined, law_block_is_next_part, law_reading_splits_disc, lemma_joined, reads_all, BlockRead,
    ReadBlock,
};
use crate::error::Error;

verus! {

/// A block that is read holds the next bytes of the disc, as many as there are and fit in it. Its
/// block data goes on with zeroes up to the size of a block.
pub proof fn law_block_bytes(read: BlockRead, rest: Seq<u8>, block_size: int)
    requires
        block_size > 0,
        read.is_of(rest, block_size),
    ensures
        rest.len() >= block_size ==> read.disc_data.len() == block_size,
        rest.len() < block_size ==> read.disc_data.len() == rest.len(),
        forall|j: int|
            0 <= j < read.disc_data.len() ==> #[trigger] read.disc_data[j] == rest[j],
        read.block_data.len() == block_size,
        forall|j: int|
            0 <= j < read.disc_data.len() ==> #[trigger] read.block_data[j] == rest[j],
        forall|j: int|
            read.disc_data.len() <= j < block_size ==> #[trigger] read.block_data[j] == 0,
{
    law_block_is_next_part(read, rest, block_size);
}

/// Block `i` of a disc holds the bytes from `i * block_size` on, and there is a block for every
/// byte of the disc and none behind them.
#[verifier::rlimit(40)]
pub proof fn law_disc_bytes(
    disc: Seq<u8>,
    block_size: int,
    reads: Seq<BlockRead>,
    end: Seq<u8>,
    failed: Result<ReadBlock, Error>,
    i: int,
)
    requires
        block_size > 0,
        reads_all(disc, block_size, reads, end, failed),
        0 <= i < reads.len(),
    ensures
        disc.len() <= reads.len() * block_size,
        (reads.len() - 1) * block_size < disc.len(),
        i < reads.len() - 1 ==> reads[i].disc_data.len() == block_size,
        i == reads.len() - 1 ==> reads[i].disc_data.len() == disc.len() - i * block_size,
        reads[i].block_data.len() == block_size,
        forall|j: int|
            0 <= j < reads[i].disc_data.len() ==> #[trigger] reads[i].disc_data[j] == disc[i
                * block_size + j],
        forall|j: int|
            0 <= j < reads[i].disc_data.len() ==> #[trigger] reads[i].block_data[j] == disc[i
                * block_size + j],
        forall|j: int|
            reads[i].disc_data.len() <= j < block_size ==> #[trigger] reads[i].block_data[j] == 0,
{
    let n = reads.len() as int;
    law_reading_splits_disc(disc, block_size, reads, end, failed);
    lemma_joined(disc, block_size, reads, end, failed, i);
    lemma_joined(disc, block_size, reads, end, failed, i + 1);
    lemma_joined(disc, block_size, reads, end, failed, n);
    let start = joined(reads, i).len() as int;
    let rest = disc.skip(start);
    assert(reads[i].is_of(rest, block_size));
    law_block_bytes(reads[i], rest, block_size);
    law_block_is_next_part(reads[i], rest, block_size);
    assert(start < disc.len());
    assert(start == i * block_size);
    assert forall|j: int| 0 <= j < reads[i].disc_data.len() implies #[trigger] reads[i].disc_data[j]
        == disc[i * block_size + j] by {
        assert(rest[j] == disc[start + j]);
    }
    assert forall|j: int|
        0 <= j < reads[i].disc_data.len() implies #[trigger] reads[i].block_data[j]
        == disc[i * block_size + j] by {
        assert(rest[j] == disc[start + j]);
    }
    if i == n - 1 {
        assert(joined(reads, n).len() == start + reads[i].disc_data.len());
    }
}

} // verus!
