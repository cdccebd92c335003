//! Processing of single blocks, which can be done in any order and in parallel.

use std::sync::Arc;

use bytes::Bytes;
use vstd::prelude::*;

use crate::block::BlockResult;
use crate::buffers::{bytes_as_ref, bytes_new, contents};
use crate::check::{
    check_block, is_leftover, lemma_enclosing, touches_other_kind, BlockView, CheckBlockResult,
};
use crate::disc::{PartitionInfo, PartitionKind};
use crate::error::Error;
use crate::lfg::LaggedFibonacci;
use crate::usage::PartitionUsage;

verus! {

/// Processes blocks one at a time.
///
/// Each thread has a processor of its own. The data of a block is read by the caller, who seeks to
/// [`BlockProcessor::input_position`] for it.
pub trait BlockProcessor: Sized {
    /// What is found out about a block.
    type BlockMeta;

    /// What the processor goes by.
    spec fn settings(&self) -> ProcessorView;

    /// Whether the processor is in working order.
    spec fn wf(&self) -> bool;

    /// Whether `result` is what a block with the given data becomes.
    spec fn gives(
        settings: ProcessorView,
        block_idx: u32,
        block_data: Seq<u8>,
        disc_data: Seq<u8>,
        result: Result<BlockResult<Self::BlockMeta>, Error>,
    ) -> bool;

    /// Where the data of a block starts on the disc.
    fn input_position(&self, block_idx: u32) -> (position: u64)
        requires
            self.wf(),
        ensures
            position == block_idx * self.settings().block_size,
    ;

    /// Processes a block. `disc_data` is what was read from the disc, and `block_data` the same,
    /// padded to the size of a block.
    fn process_block(&mut self, block_idx: u32, block_data: Bytes, disc_data: Bytes) -> (result:
        Result<BlockResult<Self::BlockMeta>, Error>)
        requires
            old(self).wf(),
            contents(disc_data).len() <= old(self).settings().block_size,
        ensures
            final(self).wf(),
            final(self).settings() == old(self).settings(),
            Self::gives(
                old(self).settings(),
                block_idx,
                contents(block_data),
                contents(disc_data),
                result,
            ),
    ;

    /// A processor for another thread, with a buffer of its own to decrypt blocks in.
    fn clone_with(&self, decrypted_block: Vec<u8>) -> (copy: Self)
        requires
            self.wf(),
            decrypted_block@.len() == self.settings().block_size,
        ensures
            copy.wf(),
            copy.settings() == self.settings(),
    ;

    /// A processor for another thread, with a buffer of its own. It fails only for want of memory,
    /// and is otherwise the one that [`BlockProcessor::clone_with`] gives.
    fn try_clone(&self) -> (r: Result<Self, Error>)
        requires
            self.wf(),
        ensures
            match r {
                Ok(copy) => copy.wf() && copy.settings() == self.settings(),
                Err(e) => e == Error::OutOfMemory,
            },
    ;
}

/// What a processor goes by.
pub struct ProcessorView {
    /// Size in bytes of a block.
    pub block_size: u32,
    /// The partitions of the disc.
    pub partitions: Seq<PartitionInfo>,
    /// The used ranges of each partition.
    pub usage: Seq<PartitionUsage>,
    /// The first four bytes of the game ID in the disc header.
    pub disc_id: Seq<u8>,
    /// The disc number in the disc header.
    pub disc_num: u8,
    /// The partitions that are left out.
    pub scrub: Option<PartitionKind>,
}

impl ProcessorView {
    /// What a block is judged by.
    pub open spec fn block(&self, block_idx: u32, disc_data: Seq<u8>) -> BlockView {
        BlockView {
            data: disc_data,
            position: block_idx * self.block_size,
            disc_id: self.disc_id,
            disc_num: self.disc_num,
        }
    }

    /// Whether this is what a processor goes by for a disc with the given partitions.
    pub open spec fn is_for(
        &self,
        block_size: u32,
        partitions: Seq<PartitionInfo>,
        disc_id: Seq<u8>,
        disc_num: u8,
        scrub_update_partition: bool,
    ) -> bool {
        &&& self.block_size == block_size
        &&& self.partitions == partitions
        &&& self.usage.len() == partitions.len()
        &&& forall|i: int|
            0 <= i < partitions.len() ==> (#[trigger] self.usage[i]).describes(partitions[i])
        &&& self.disc_id == disc_id
        &&& self.disc_num == disc_num
        &&& self.scrub == if scrub_update_partition {
            Some(PartitionKind::Update)
        } else {
            None
        }
    }

    /// The type of a block.
    pub open spec fn outcome(&self, block_idx: u32, disc_data: Seq<u8>) -> Result<
        CheckBlockResult,
        Error,
    > {
        self.block(block_idx, disc_data).result(
            self.partitions,
            self.usage,
            self.scrub,
            self.block_size as nat,
        )
    }

    /// Whether `result` is what a block becomes: only a normal block has data that is written.
    pub open spec fn gives(
        &self,
        block_idx: u32,
        block_data: Seq<u8>,
        disc_data: Seq<u8>,
        result: Result<BlockResult<CheckBlockResult>, Error>,
    ) -> bool {
        match self.outcome(block_idx, disc_data) {
            Ok(meta) => {
                &&& result matches Ok(block)
                &&& block.block_idx == block_idx
                &&& block.meta == meta
                &&& contents(block.disc_data) == disc_data
                &&& contents(block.block_data) == if meta == CheckBlockResult::Normal {
                    block_data
                } else {
                    Seq::empty()
                }
            },
            Err(error) => result matches Err(e) && e == error,
        }
    }
}

/// `Arc::clone`: another pointer to the same value.
#[verifier::external_body]
fn arc_clone<T>(shared: &Arc<T>) -> (copy: Arc<T>)
    ensures
        copy == *shared,
{
    Arc::clone(shared)
}

/// Of a block that starts at a sector, the sectors that scrubbing looks at lie inside its data.
proof fn lemma_leftovers_inside(
    view: BlockView,
    partitions: Seq<PartitionInfo>,
    kind: PartitionKind,
)
    requires
        view.position >= 0,
        view.position % 0x8000 == 0,
    ensures
        view.leftovers_inside(partitions, kind),
{
    assert forall|a: int, b: int| #[trigger]
        is_leftover(partitions, kind, view.first(), view.last(), a, b) && view.droppable_before(
            partitions,
            kind,
            a,
        ) && !touches_other_kind(partitions, kind, a, b) implies (b - view.first()) * 0x8000
        <= view.data.len() by {
        let start = view.position / 0x8000;
        let end = (view.position + view.data.len()) / 0x8000;
        assert(view.first() == start % 0x1_0000_0000);
        assert(view.last() == end % 0x1_0000_0000);
        assert(view.last() - view.first() <= end - start);
    }
}

/// Collects the used ranges of each partition.
pub fn partition_usages(partitions: &[PartitionInfo]) -> (usages: Vec<PartitionUsage>)
    ensures
        usages@.len() == partitions@.len(),
        forall|i: int|
            0 <= i < usages@.len() ==> (#[trigger] usages@[i]).describes(partitions@[i]),
{
    let mut usages: Vec<PartitionUsage> = Vec::new();
    let mut i: usize = 0;
    while i < partitions.len()
        invariant
            i <= partitions@.len(),
            usages@.len() == i,
            forall|k: int|
                0 <= k < i ==> (#[trigger] usages@[k]).describes(partitions@[k]),
        decreases partitions@.len() - i,
    {
        usages.push(PartitionUsage::new(&partitions[i]));
        i += 1;
    }
    usages
}

/// Determines the type of blocks that all have the same size.
pub struct BlockClassifier {
    block_size: u32,
    partitions: Arc<Vec<PartitionInfo>>,
    partition_usage: Arc<Vec<PartitionUsage>>,
    decrypted_block: Vec<u8>,
    lfg: LaggedFibonacci,
    disc_id: [u8; 4],
    disc_num: u8,
    scrub_update_partition: bool,
}

impl View for BlockClassifier {
    type V = ProcessorView;

    closed spec fn view(&self) -> ProcessorView {
        ProcessorView {
            block_size: self.block_size,
            partitions: self.partitions@,
            usage: self.partition_usage@,
            disc_id: self.disc_id@,
            disc_num: self.disc_num,
            scrub: if self.scrub_update_partition {
                Some(PartitionKind::Update)
            } else {
                None
            },
        }
    }
}

impl BlockClassifier {
    /// Whether the buffers fit the blocks, which consist of whole sectors.
    pub closed spec fn wf(&self) -> bool {
        &&& self.block_size % 0x8000 == 0
        &&& self.decrypted_block@.len() == self.block_size
        &&& self.partition_usage@.len() == self.partitions@.len()
    }

    /// A classifier for the blocks of a disc with the given partitions, with a buffer to decrypt
    /// blocks in.
    pub fn with_buffer(
        block_size: u32,
        partitions: Vec<PartitionInfo>,
        disc_id: [u8; 4],
        disc_num: u8,
        scrub_update_partition: bool,
        decrypted_block: Vec<u8>,
    ) -> (classifier: BlockClassifier)
        requires
            block_size % 0x8000 == 0,
            decrypted_block@.len() == block_size,
        ensures
            classifier.wf(),
            classifier@.is_for(
                block_size,
                partitions@,
                disc_id@,
                disc_num,
                scrub_update_partition,
            ),
    {
        // Build each partition's usage map once, rather than per block.
        let partition_usage: Vec<PartitionUsage> = partition_usages(partitions.as_slice());
        BlockClassifier {
            block_size,
            partitions: Arc::new(partitions),
            partition_usage: Arc::new(partition_usage),
            decrypted_block,
            lfg: LaggedFibonacci::default(),
            disc_id,
            disc_num,
            scrub_update_partition,
        }
    }

    /// Size in bytes of a block.
    pub fn block_size(&self) -> (r: u32)
        ensures
            r == self@.block_size,
    {
        self.block_size
    }

    /// Where the data of a block starts on the disc.
    pub fn input_position(&self, block_idx: u32) -> (position: u64)
        ensures
            position == block_idx * self@.block_size,
    {
        assert(block_idx * self.block_size <= u32::MAX * u32::MAX) by (nonlinear_arith)
            requires
                block_idx <= u32::MAX,
                self.block_size <= u32::MAX,
        ;
        block_idx as u64 * self.block_size as u64
    }

    /// Determines the type of a block, and drops its data if it need not be written.
    pub fn process(&mut self, block_idx: u32, block_data: Bytes, disc_data: Bytes) -> (result:
        Result<BlockResult<CheckBlockResult>, Error>)
        requires
            old(self).wf(),
            contents(disc_data).len() <= old(self)@.block_size,
        ensures
            final(self).wf(),
            final(self)@ == old(self)@,
            old(self)@.gives(block_idx, contents(block_data), contents(disc_data), result),
    {
        let input_position: u64 = self.input_position(block_idx);
        let scrub: Option<PartitionKind> = if self.scrub_update_partition {
            Some(PartitionKind::Update)
        } else {
            None
        };
        let buf: &[u8] = bytes_as_ref(&disc_data);
        proof {
            let block_size = self.block_size as int;
            assert(block_idx * block_size <= u32::MAX * u32::MAX) by (nonlinear_arith)
                requires
                    block_idx <= u32::MAX,
                    0 <= block_size <= u32::MAX,
            ;
            assert(input_position as int % 0x8000 == 0) by {
                let sectors = block_size / 0x8000;
                assert(block_idx * (sectors * 0x8000) == (block_idx * sectors) * 0x8000)
                    by (nonlinear_arith);
            }
            lemma_leftovers_inside(
                self@.block(block_idx, buf@),
                self.partitions@,
                PartitionKind::Update,
            );
            let view = self@.block(block_idx, buf@);
            lemma_enclosing(self.partitions@, view.first(), view.last());
        }
        let checked: Result<CheckBlockResult, Error> = check_block(
            buf,
            self.decrypted_block.as_mut_slice(),
            input_position,
            self.partitions.as_slice(),
            self.partition_usage.as_slice(),
            &mut self.lfg,
            self.disc_id,
            self.disc_num,
            scrub,
        );
        match checked {
            Ok(CheckBlockResult::Normal) => Ok(
                BlockResult { block_idx, disc_data, block_data, meta: CheckBlockResult::Normal },
            ),
            Ok(meta) => Ok(BlockResult { block_idx, disc_data, block_data: bytes_new(), meta }),
            Err(e) => Err(e),
        }
    }

    /// A classifier for the same disc, with a buffer of its own.
    pub fn clone_with(&self, decrypted_block: Vec<u8>) -> (copy: BlockClassifier)
        requires
            self.wf(),
            decrypted_block@.len() == self@.block_size,
        ensures
            copy.wf(),
            copy@ == self@,
    {
        BlockClassifier {
            block_size: self.block_size,
            partitions: arc_clone(&self.partitions),
            partition_usage: arc_clone(&self.partition_usage),
            decrypted_block,
            lfg: LaggedFibonacci::default(),
            disc_id: self.disc_id,
            disc_num: self.disc_num,
            scrub_update_partition: self.scrub_update_partition,
        }
    }
}

} // verus!
