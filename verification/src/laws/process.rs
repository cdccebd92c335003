//! What processing hands on.

use vstd::prelude::*;

use crate::block::{padded, BlockResult};
use crate::buffers::contents;
use crate::check::{BlockView, CheckBlockResult};
use crate::ciso::BlockProcessorCISO;
use crate::disc::{DiscHeader, PartitionInfo, PartitionKind};
use crate::error::Error;
use crate::options::ScrubLevel;
use crate::processor::{BlockProcessor, ProcessorView};
use crate::wbfs::BlockProcessorWBFS;
use crate::writer::{is_processed_disc, settings_for, CheckedBlock};

verus! {

/// A processed block has the index that was asked for. Its disc data is what was read, whatever its
/// type, and its block data is what was read if it is normal and empty otherwise. Its type is that
/// of the data at the position of the block on the disc, and so is the error if there is none.
pub proof fn law_processed_block(
    settings: ProcessorView,
    block_idx: u32,
    block_data: Seq<u8>,
    disc_data: Seq<u8>,
    result: Result<BlockResult<CheckBlockResult>, Error>,
)
    requires
        settings.gives(block_idx, block_data, disc_data, result),
    ensures
        ({
            let view = BlockView {
                data: disc_data,
                position: block_idx * settings.block_size,
                disc_id: settings.disc_id,
                disc_num: settings.disc_num,
            };
            let found = view.result(
                settings.partitions,
                settings.usage,
                settings.scrub,
                settings.block_size as nat,
            );
            match result {
                Ok(block) => {
                    &&& block.block_idx == block_idx
                    &&& contents(block.disc_data) == disc_data
                    &&& block.meta == CheckBlockResult::Normal ==> contents(block.block_data)
                        == block_data
                    &&& block.meta != CheckBlockResult::Normal ==> contents(block.block_data).len()
                        == 0
                    &&& found == Ok::<CheckBlockResult, Error>(block.meta)
                },
                Err(e) => found == Err::<CheckBlockResult, Error>(e),
            }
        }),
{
}

/// The same of a processor for CISO files.
pub proof fn law_processed_ciso_block(
    settings: ProcessorView,
    block_idx: u32,
    block_data: Seq<u8>,
    disc_data: Seq<u8>,
    result: Result<BlockResult<CheckBlockResult>, Error>,
)
    requires
        BlockProcessorCISO::gives(settings, block_idx, block_data, disc_data, result),
    ensures
        ({
            let view = BlockView {
                data: disc_data,
                position: block_idx * settings.block_size,
                disc_id: settings.disc_id,
                disc_num: settings.disc_num,
            };
            let found = view.result(
                settings.partitions,
                settings.usage,
                settings.scrub,
                settings.block_size as nat,
            );
            match result {
                Ok(block) => {
                    &&& block.block_idx == block_idx
                    &&& contents(block.disc_data) == disc_data
                    &&& block.meta == CheckBlockResult::Normal ==> contents(block.block_data)
                        == block_data
                    &&& block.meta != CheckBlockResult::Normal ==> contents(block.block_data).len()
                        == 0
                    &&& found == Ok::<CheckBlockResult, Error>(block.meta)
                },
                Err(e) => found == Err::<CheckBlockResult, Error>(e),
            }
        }),
        settings.gives(block_idx, block_data, disc_data, result),
{
    law_processed_block(settings, block_idx, block_data, disc_data, result);
}

/// The same of a processor for WBFS files.
pub proof fn law_processed_wbfs_block(
    settings: ProcessorView,
    block_idx: u32,
    block_data: Seq<u8>,
    disc_data: Seq<u8>,
    result: Result<BlockResult<CheckBlockResult>, Error>,
)
    requires
        BlockProcessorWBFS::gives(settings, block_idx, block_data, disc_data, result),
    ensures
        ({
            let view = BlockView {
                data: disc_data,
                position: block_idx * settings.block_size,
                disc_id: settings.disc_id,
                disc_num: settings.disc_num,
            };
            let found = view.result(
                settings.partitions,
                settings.usage,
                settings.scrub,
                settings.block_size as nat,
            );
            match result {
                Ok(block) => {
                    &&& block.block_idx == block_idx
                    &&& contents(block.disc_data) == disc_data
                    &&& block.meta == CheckBlockResult::Normal ==> contents(block.block_data)
                        == block_data
                    &&& block.meta != CheckBlockResult::Normal ==> contents(block.block_data).len()
                        == 0
                    &&& found == Ok::<CheckBlockResult, Error>(block.meta)
                },
                Err(e) => found == Err::<CheckBlockResult, Error>(e),
            }
        }),
        settings.gives(block_idx, block_data, disc_data, result),
{
    law_processed_block(settings, block_idx, block_data, disc_data, result);
}

/// The disc data of the first `k` blocks, in the order in which they are delivered.
pub open spec fn digested(blocks: Seq<CheckedBlock>, k: int) -> Seq<u8>
    decreases k,
{
    if k <= 0 {
        seq![]
    } else {
        digested(blocks, k - 1) + contents(blocks[k - 1].disc_data)
    }
}

/// Whether the parts are those of a disc, each but the last of `block_size` bytes.
pub open spec fn is_split(disc: Seq<u8>, block_size: int, data: Seq<Seq<u8>>) -> bool {
    &&& data.len() * block_size >= disc.len()
    &&& forall|i: int|
        0 <= i < data.len() ==> i * block_size < disc.len() && #[trigger] data[i]
            == disc.subrange(
            i * block_size,
            if (i + 1) * block_size < disc.len() {
                (i + 1) * block_size
            } else {
                disc.len() as int
            },
        )
}

/// What goes to the digests is the disc, byte for byte, whatever type each block has.
pub proof fn law_digests_see_the_disc(
    settings: ProcessorView,
    disc: Seq<u8>,
    data: Seq<Seq<u8>>,
    blocks: Seq<CheckedBlock>,
)
    requires
        settings.block_size > 0,
        is_split(disc, settings.block_size as int, data),
        is_processed_disc(settings, data, blocks),
    ensures
        forall|i: int|
            0 <= i < blocks.len() ==> contents((#[trigger] blocks[i]).disc_data) == data[i],
        digested(blocks, blocks.len() as int) == disc,
{
    let n = blocks.len() as int;
    assert forall|i: int| 0 <= i < n implies contents((#[trigger] blocks[i]).disc_data)
        == data[i] by {
        law_processed_block(
            settings,
            blocks[i].block_idx,
            padded(data[i], settings.block_size as nat),
            data[i],
            Ok(blocks[i]),
        );
    }
    lemma_digested(disc, settings.block_size as int, data, blocks, n);
    assert(disc.take(disc.len() as int) =~= disc);
}

/// What goes to the digests with the first `k` blocks.
proof fn lemma_digested(
    disc: Seq<u8>,
    block_size: int,
    data: Seq<Seq<u8>>,
    blocks: Seq<CheckedBlock>,
    k: int,
)
    requires
        block_size > 0,
        is_split(disc, block_size, data),
        blocks.len() == data.len(),
        forall|i: int|
            0 <= i < blocks.len() ==> contents((#[trigger] blocks[i]).disc_data) == data[i],
        0 <= k <= blocks.len(),
    ensures
        digested(blocks, k) == disc.take(
            if k * block_size < disc.len() {
                k * block_size
            } else {
                disc.len() as int
            },
        ),
    decreases k,
{
    if k > 0 {
        lemma_digested(disc, block_size, data, blocks, k - 1);
        assert(contents(blocks[k - 1].disc_data) == data[k - 1]);
        let from = (k - 1) * block_size;
        let to = if k * block_size < disc.len() {
            k * block_size
        } else {
            disc.len() as int
        };
        assert(0 <= from < k * block_size) by (nonlinear_arith)
            requires
                from == (k - 1) * block_size,
                k >= 1,
                block_size > 0,
        ;
        assert(data[k - 1] == disc.subrange(from, to));
        assert(disc.take(from) + disc.subrange(from, to) =~= disc.take(to));
    } else {
        assert(k * block_size == 0) by (nonlinear_arith)
            requires
                k == 0,
        ;
    }
}

/// A processor for a disc goes by its partitions and by the ID and number in its header. It leaves
/// out the update partitions if that is asked for, and nothing otherwise.
pub proof fn law_settings(
    settings: ProcessorView,
    partitions: Seq<PartitionInfo>,
    header: DiscHeader,
    scrub: ScrubLevel,
)
    requires
        settings_for(settings, partitions, header, scrub),
    ensures
        settings.partitions == partitions,
        settings.usage.len() == partitions.len(),
        forall|i: int|
            0 <= i < partitions.len() ==> (#[trigger] settings.usage[i]).describes(partitions[i]),
        settings.disc_id == header.game_id@.subrange(0, 4),
        settings.disc_num == header.disc_num,
        scrub == ScrubLevel::UpdatePartition ==> settings.scrub == Some(PartitionKind::Update),
        scrub == ScrubLevel::Lossless ==> settings.scrub is None,
{
}

/// Padding keeps the data and fills up with zeroes.
pub proof fn law_padding(data: Seq<u8>, len: nat, j: int)
    requires
        0 <= j < len,
    ensures
        padded(data, len).len() == len,
        j < data.len() ==> padded(data, len)[j] == data[j],
        j >= data.len() ==> padded(data, len)[j] == 0,
{
}

/// The same of a classifier, which is made for a block size.
pub proof fn law_classifier_settings(
    settings: ProcessorView,
    block_size: u32,
    partitions: Seq<PartitionInfo>,
    disc_id: Seq<u8>,
    disc_num: u8,
    scrub_update_partition: bool,
)
    requires
        settings.is_for(block_size, partitions, disc_id, disc_num, scrub_update_partition),
    ensures
        settings.block_size == block_size,
        settings.partitions == partitions,
        settings.usage.len() == partitions.len(),
        forall|i: int|
            0 <= i < partitions.len() ==> (#[trigger] settings.usage[i]).describes(partitions[i]),
        settings.disc_id == disc_id,
        settings.disc_num == disc_num,
        scrub_update_partition ==> settings.scrub == Some(PartitionKind::Update),
        !scrub_update_partition ==> settings.scrub is None,
{
}

} // verus!
