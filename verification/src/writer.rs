//! Writing of disc images, block by block.

use bytes::Bytes;
use vstd::prelude::*;

use crate::block::{padded, same_block, BlockResult};
use crate::buffers::contents;
use crate::check::{
    data_range, decrypted_block, BlockView, CheckBlockResult,
};
use crate::disc::{DiscHeader, PartitionInfo, PartitionKind};
use crate::error::Error;
use crate::image::BlockKind;
use crate::laws::classify::{
    lemma_junk_bytes, lemma_zero_bytes, user_bytes_junk, user_bytes_zero,
};
use crate::lfg::junk_byte;
use crate::nkit::{DigestResult, DiscFinalization, NKitHeader};
use crate::options::{DiscWriterWeight, ScrubLevel};
use crate::order::{
    arrived, delivered_by, is_complete, is_history, law_all_blocks_delivered, OrderView,
};
use crate::processor::{BlockProcessor, ProcessorView};

verus! {

/// A block that has been checked.
pub type CheckedBlock = BlockResult<CheckBlockResult>;

/// A piece of the image, to be appended to what has been written.
pub struct WriteChunk {
    /// The piece.
    pub data: Bytes,
    /// How much of the disc has been processed.
    pub position: u64,
    /// The size of the disc.
    pub total: u64,
}

impl WriteChunk {
    /// Whether this is the piece with the given data and progress.
    pub open spec fn is(&self, data: Seq<u8>, position: int, total: u64) -> bool {
        &&& contents(self.data) == data
        &&& self.position == position
        &&& self.total == total
    }
}

/// The partitions that are left out.
pub open spec fn scrubbed_kind(scrub: ScrubLevel) -> Option<PartitionKind> {
    match scrub {
        ScrubLevel::UpdatePartition => Some(PartitionKind::Update),
        ScrubLevel::Lossless => None,
    }
}

/// Whether `settings` are those for a disc with the given partitions and header.
pub open spec fn settings_for(
    settings: ProcessorView,
    partitions: Seq<PartitionInfo>,
    header: DiscHeader,
    scrub: ScrubLevel,
) -> bool {
    &&& settings.partitions == partitions
    &&& settings.usage.len() == partitions.len()
    &&& forall|i: int|
        0 <= i < partitions.len() ==> (#[trigger] settings.usage[i]).describes(partitions[i])
    &&& settings.disc_id == header.id()
    &&& settings.disc_num == header.disc_num
    &&& settings.scrub == scrubbed_kind(scrub)
}

/// A writer for a format of disc images.
///
/// A caller appends the piece that [`DiscWriter::begin`] gives to the image, hands the blocks, in
/// order, to [`WriteProcess::write_block`] and appends what comes back, and in the end puts what
/// [`WriteProcess::finish`] gives at the end and at the start of the image.
pub trait DiscWriter: Sized {
    /// Processes single blocks.
    type Processor: BlockProcessor<BlockMeta = CheckBlockResult>;

    /// The image on its way.
    type Process: WriteProcess;

    /// Size in bytes of the disc.
    spec fn size(&self) -> u64;

    /// Number of blocks that the disc is split in.
    spec fn blocks(&self) -> int;

    /// Size in bytes of a block.
    spec fn unit(&self) -> u32;

    /// Whether the writer is in working order.
    spec fn wf(&self) -> bool;

    /// Whether `process` is an image of which only `first` has been written.
    spec fn begins(&self, disc_header: Seq<u8>, first: WriteChunk, process: Self::Process) -> bool;

    /// How many blocks the disc is split in.
    fn block_count(&self) -> (r: u32)
        ensures
            r == self.blocks(),
    ;

    /// Size in bytes of a block.
    fn block_size(&self) -> (r: u32)
        requires
            self.wf(),
        ensures
            r == self.unit(),
    ;

    /// A processor for the blocks of the disc, with a buffer to decrypt them in.
    fn processor_with(
        &self,
        partitions: Vec<PartitionInfo>,
        header: &DiscHeader,
        scrub: ScrubLevel,
        decrypted_block: Vec<u8>,
    ) -> (processor: Self::Processor)
        requires
            self.wf(),
            decrypted_block@.len() == self.unit(),
        ensures
            processor.wf(),
            processor.settings().block_size == self.unit(),
            settings_for(processor.settings(), partitions@, *header, scrub),
    ;

    /// A processor for the blocks of the disc. It fails only for want of memory, and is otherwise
    /// the one that [`DiscWriter::processor_with`] gives.
    fn processor(
        &self,
        partitions: Vec<PartitionInfo>,
        header: &DiscHeader,
        scrub: ScrubLevel,
    ) -> (r: Result<Self::Processor, Error>)
        requires
            self.wf(),
        ensures
            match r {
                Ok(processor) => {
                    &&& processor.wf()
                    &&& processor.settings().block_size == self.unit()
                    &&& settings_for(processor.settings(), partitions@, *header, scrub)
                },
                Err(e) => e == Error::OutOfMemory,
            },
    ;

    /// Starts an image. `disc_header` is the start of the disc. It fails only for want of memory.
    fn begin(&self, disc_header: &[u8]) -> (r: Result<(WriteChunk, Self::Process), Error>)
        requires
            self.wf(),
            2 * self.unit() <= isize::MAX,
            disc_header@.len() >= 0x100,
        ensures
            match r {
                Ok((first, process)) => process.wf() && self.begins(disc_header@, first, process),
                Err(e) => e == Error::OutOfMemory,
            },
    ;

    /// Returns the progress upper bound for the disc writer.
    ///
    /// For most formats, this has no relation to the written disc size, but can be used to display
    /// progress.
    fn progress_bound(&self) -> (r: u64)
        ensures
            r == self.size(),
    ;

    /// Returns the weight of the disc writer.
    ///
    /// This can help determine the number of threads to dedicate for output processing, and may
    /// differ based on the format's configuration, such as whether compression is enabled.
    fn weight(&self) -> (r: DiscWriterWeight);
}

/// An image that is being written.
pub trait WriteProcess: Sized {
    /// Whether the parts of the image fit each other.
    spec fn wf(&self) -> bool;

    /// Whether a block can be taken in: the image has a place for it.
    spec fn takes(&self, block: CheckedBlock) -> bool;

    /// Whether `chunk` is what a block adds to the image, and `after` the image with it.
    spec fn advances(&self, block: CheckedBlock, chunk: WriteChunk, after: Self) -> bool;

    /// Whether `header` is the NKit header of the image.
    spec fn described_by(&self, results: Seq<DigestResult>, header: NKitHeader) -> bool;

    /// Whether a buffer can hold what is made of an NKit header of the given length.
    spec fn holds(nkit_len: nat) -> bool;

    /// Whether `last` is appended to the image in the end, and `finalization` is what completes it.
    spec fn concludes(
        &self,
        nkit: Seq<u8>,
        results: Seq<DigestResult>,
        last: Option<WriteChunk>,
        finalization: DiscFinalization,
    ) -> bool;

    /// Whether a block can be taken in.
    fn can_take(&self, block: &CheckedBlock) -> (r: bool)
        requires
            self.wf(),
        ensures
            r == self.takes(*block),
    ;

    /// Takes in a block, and returns what is appended to the image.
    fn write_block(&mut self, block: CheckedBlock) -> (chunk: WriteChunk)
        requires
            old(self).wf(),
            old(self).takes(block),
        ensures
            final(self).wf(),
            old(self).advances(block, chunk, *final(self)),
    ;

    /// The NKit header of the image.
    fn nkit_header(&self, results: &[DigestResult]) -> (header: NKitHeader)
        requires
            self.wf(),
        ensures
            self.described_by(results@, header),
    ;

    /// Completes the image. `nkit` is the encoded NKit header. Returns what is appended to the
    /// image, and what is put at its start.
    fn finish(self, nkit: &[u8], results: &[DigestResult]) -> (r: (
        Option<WriteChunk>,
        DiscFinalization,
    ))
        requires
            self.wf(),
            Self::holds(nkit@.len()),
        ensures
            self.concludes(nkit@, results@, r.0, r.1),
    ;
}

/// The first `k` pieces, one behind the other.
pub open spec fn pieces(chunks: Seq<WriteChunk>, k: int) -> Seq<u8>
    decreases k,
{
    if k <= 0 {
        seq![]
    } else {
        pieces(chunks, k - 1) + contents(chunks[k - 1].data)
    }
}

/// A file with `header` put over its start.
pub open spec fn completed(file: Seq<u8>, header: Seq<u8>) -> Seq<u8> {
    header + file.skip(header.len() as int)
}

/// Whether `states` and `chunks` are what comes of an image when blocks are written to it one
/// after the other.
pub open spec fn is_writing<P: WriteProcess>(
    states: Seq<P>,
    blocks: Seq<CheckedBlock>,
    chunks: Seq<WriteChunk>,
) -> bool {
    &&& states.len() == blocks.len() + 1
    &&& chunks.len() == blocks.len()
    &&& forall|i: int|
        0 <= i < blocks.len() ==> (#[trigger] states[i]).takes(blocks[i]) && states[i].advances(
            blocks[i],
            chunks[i],
            states[i + 1],
        )
}

/// How many of the first `k` blocks are stored.
pub open spec fn stored_before(blocks: Seq<CheckedBlock>, k: int) -> nat
    decreases k,
{
    if k <= 0 {
        0
    } else if blocks[k - 1].meta == CheckBlockResult::Normal {
        stored_before(blocks, k - 1) + 1
    } else {
        stored_before(blocks, k - 1)
    }
}

/// What the first `k` blocks add to the image.
pub open spec fn stored_data(blocks: Seq<CheckedBlock>, k: int) -> Seq<u8>
    decreases k,
{
    if k <= 0 {
        seq![]
    } else {
        stored_data(blocks, k - 1) + contents(blocks[k - 1].block_data)
    }
}

/// Whether the blocks come in order, each of them either stored with `block_size` bytes or not at
/// all. The blocks that a processor gives are such blocks.
pub open spec fn is_sequence(blocks: Seq<CheckedBlock>, block_size: u32) -> bool {
    &&& forall|i: int| 0 <= i < blocks.len() ==> (#[trigger] blocks[i]).block_idx == i
    &&& forall|i: int|
        0 <= i < blocks.len() ==> contents((#[trigger] blocks[i]).block_data).len() == (
        if blocks[i].meta == CheckBlockResult::Normal {
            block_size as nat
        } else {
            0
        })
}

/// The stored blocks have no gaps between them.
pub proof fn lemma_stored_len(blocks: Seq<CheckedBlock>, block_size: u32, k: int)
    requires
        is_sequence(blocks, block_size),
        0 <= k <= blocks.len(),
    ensures
        stored_before(blocks, k) <= k,
        stored_data(blocks, k).len() == stored_before(blocks, k) * block_size,
    decreases k,
{
    if k > 0 {
        lemma_stored_len(blocks, block_size, k - 1);
        let n = stored_before(blocks, k - 1);
        assert((n + 1) * block_size == n * block_size + block_size) by (nonlinear_arith);
        assert(blocks[k - 1].block_idx == k - 1);
    } else {
        let n = stored_before(blocks, k);
        assert(n * block_size == 0) by (nonlinear_arith)
            requires
                n == 0,
        ;
    }
}

/// A stored block stands behind those that are stored before it.
pub proof fn lemma_stored_at(blocks: Seq<CheckedBlock>, block_size: u32, idx: int, k: int)
    requires
        is_sequence(blocks, block_size),
        0 <= idx < k <= blocks.len(),
        blocks[idx].meta == CheckBlockResult::Normal,
    ensures
        ({
            let at = stored_before(blocks, idx) * block_size;
            &&& 0 <= at <= at + block_size <= stored_data(blocks, k).len()
            &&& stored_data(blocks, k).subrange(at, at + block_size) == contents(
                blocks[idx].block_data,
            )
        }),
    decreases k,
{
    let at = stored_before(blocks, idx) * block_size;
    let before = stored_data(blocks, k - 1);
    let after = stored_data(blocks, k);
    if idx < k - 1 {
        lemma_stored_at(blocks, block_size, idx, k - 1);
        assert(after.subrange(at, at + block_size) =~= before.subrange(at, at + block_size));
    } else {
        lemma_stored_len(blocks, block_size, idx);
        assert(after.subrange(at, at + block_size) =~= contents(blocks[idx].block_data));
    }
}

/// Whether `block` is what becomes of its part of the disc.
pub open spec fn is_processed(
    settings: ProcessorView,
    data: Seq<Seq<u8>>,
    block: CheckedBlock,
) -> bool {
    let idx = block.block_idx;
    &&& idx < data.len()
    &&& settings.gives(
        idx,
        padded(data[idx as int], settings.block_size as nat),
        data[idx as int],
        Ok(block),
    )
}

/// Whether the blocks are the whole disc, processed and in order.
pub open spec fn is_processed_disc(
    settings: ProcessorView,
    data: Seq<Seq<u8>>,
    blocks: Seq<CheckedBlock>,
) -> bool {
    &&& blocks.len() == data.len()
    &&& forall|i: int|
        0 <= i < blocks.len() ==> (#[trigger] blocks[i]).block_idx == i && is_processed(
            settings,
            data,
            blocks[i],
        )
}

/// The blocks that a processor gives for the data of a disc, in order, can be written: each of
/// them is stored with its padded data or not at all.
pub proof fn law_processed_blocks(
    settings: ProcessorView,
    data: Seq<Seq<u8>>,
    blocks: Seq<CheckedBlock>,
)
    requires
        is_processed_disc(settings, data, blocks),
    ensures
        is_sequence(blocks, settings.block_size),
        forall|i: int|
            0 <= i < blocks.len() && (#[trigger] blocks[i]).meta == CheckBlockResult::Normal
                ==> contents(blocks[i].block_data) == padded(data[i], settings.block_size as nat),
        forall|i: int|
            0 <= i < blocks.len() ==> settings.outcome(i as u32, data[i])
                == Ok::<CheckBlockResult, Error>((#[trigger] blocks[i]).meta),
{
}

/// Whether a block of the disc can be restored from how it is found in an image, and from what
/// stands there if it is stored.
///
/// A stored block is found with its data, padded at the end of the disc. A block that is found as
/// zeroes or junk data consists of those, or it is one that is scrubbed. In a hashed partition this
/// holds of the decrypted user data, and no such block holds used content.
pub open spec fn restores(
    settings: ProcessorView,
    idx: int,
    data: Seq<u8>,
    kind: BlockKind,
    stored: Seq<u8>,
) -> bool {
    let view = BlockView {
        data,
        position: (idx as u32) * settings.block_size,
        disc_id: settings.disc_id,
        disc_num: settings.disc_num,
    };
    if kind == BlockKind::Raw {
        &&& stored.len() == settings.block_size
        &&& forall|j: int|
            0 <= j < stored.len() ==> #[trigger] stored[j] == if j < data.len() {
                data[j]
            } else {
                0
            }
    } else if view.dropped(settings.partitions, settings.scrub) {
        kind == BlockKind::Zero
    } else {
        match view.partition(settings.partitions) {
            None => match kind {
                BlockKind::Zero => forall|j: int|
                    0 <= j < data.len() ==> #[trigger] data[j] == 0,
                BlockKind::Junk => forall|j: int|
                    0 <= j < data.len() ==> #[trigger] data[j] == junk_byte(
                        settings.disc_id,
                        settings.disc_num,
                        view.position + j,
                    ),
                _ => false,
            },
            Some(i) => {
                let partition = settings.partitions[i];
                let plain = if partition.has_encryption {
                    decrypted_block(data, partition.key@)
                } else {
                    data
                };
                let (start, end) = data_range(view, partition);
                &&& !settings.usage[i].overlaps(start, end)
                &&& match kind {
                    BlockKind::Zero => user_bytes_zero(plain),
                    BlockKind::Junk => user_bytes_junk(plain, partition, view),
                    _ => false,
                }
            },
        }
    }
}

/// A block that is dropped can be restored.
#[verifier::rlimit(40)]
pub proof fn lemma_dropped_restores(
    settings: ProcessorView,
    idx: int,
    data: Seq<u8>,
    stored: Seq<u8>,
)
    ensures
        settings.outcome(idx as u32, data) == Ok::<CheckBlockResult, Error>(
            CheckBlockResult::Zeroed,
        ) ==> restores(settings, idx, data, BlockKind::Zero, stored),
        settings.outcome(idx as u32, data) == Ok::<CheckBlockResult, Error>(
            CheckBlockResult::Junk,
        ) ==> restores(settings, idx, data, BlockKind::Junk, stored),
{
    let view = settings.block(idx as u32, data);
    if let Some(i) = view.partition(settings.partitions) {
        let partition = settings.partitions[i];
        let plain = if partition.has_encryption {
            decrypted_block(data, partition.key@)
        } else {
            data
        };
        if view.position % 0x8000 == 0 && data.len() % 0x8000 == 0 {
            lemma_zero_bytes(plain);
            lemma_junk_bytes(plain, partition, view);
        }
    }
}

/// A part of what stands behind the first part of a file.
pub proof fn lemma_behind(head: Seq<u8>, data: Seq<u8>, rest: Seq<u8>, at: int, len: int)
    requires
        0 <= at <= at + len <= data.len(),
    ensures
        (head + data + rest).len() == head.len() + data.len() + rest.len(),
        (head + data + rest).subrange(head.len() + at, head.len() + at + len) == data.subrange(
            at,
            at + len,
        ),
{
    assert((head + data + rest).subrange(head.len() + at, head.len() + at + len)
        =~= data.subrange(at, at + len));
}

/// A run of a writer: what its calls took and gave.
pub struct WriteRun<P> {
    /// The first piece.
    pub first: WriteChunk,
    /// The image before and after each block.
    pub states: Seq<P>,
    /// The blocks, in the order in which they were written.
    pub blocks: Seq<CheckedBlock>,
    /// What was appended for each of them.
    pub chunks: Seq<WriteChunk>,
    /// The NKit header of the image.
    pub nkit_header: NKitHeader,
    /// What was appended in the end.
    pub last: Option<WriteChunk>,
    /// What completes the image.
    pub finalization: DiscFinalization,
}

/// Whether this is a run of a writer, from the first piece to the last. `nkit` is the encoded NKit
/// header.
pub open spec fn is_run<W: DiscWriter>(
    writer: W,
    disc_header: Seq<u8>,
    run: WriteRun<W::Process>,
    nkit: Seq<u8>,
    results: Seq<DigestResult>,
) -> bool {
    &&& is_writing(run.states, run.blocks, run.chunks)
    &&& writer.begins(disc_header, run.first, run.states[0])
    &&& run.states.last().described_by(results, run.nkit_header)
    &&& run.states.last().concludes(nkit, results, run.last, run.finalization)
}

/// Whether two sequences consist of the same blocks.
pub open spec fn same_blocks(a: Seq<CheckedBlock>, b: Seq<CheckedBlock>) -> bool {
    &&& a.len() == b.len()
    &&& forall|i: int| 0 <= i < a.len() ==> same_block(#[trigger] a[i], b[i])
}

/// Whether two pieces are the same.
pub open spec fn same_chunk(a: WriteChunk, b: WriteChunk) -> bool {
    a.is(contents(b.data), b.position as int, b.total)
}

/// Whether two runs have the same output: the same pieces, one after the other, the same NKit
/// header, and the same finalization.
pub open spec fn same_output<P>(a: WriteRun<P>, b: WriteRun<P>) -> bool {
    &&& same_chunk(a.first, b.first)
    &&& a.chunks.len() == b.chunks.len()
    &&& forall|i: int| 0 <= i < a.chunks.len() ==> same_chunk(#[trigger] a.chunks[i], b.chunks[i])
    &&& a.nkit_header.says_the_same(b.nkit_header)
    &&& match (a.last, b.last) {
        (Some(x), Some(y)) => same_chunk(x, y),
        (None, None) => true,
        _ => false,
    }
    &&& contents(a.finalization.header) == contents(b.finalization.header)
    &&& a.finalization.digests == b.finalization.digests
}

/// However many threads process the blocks of a disc, and in whatever order they are done, what is
/// delivered is the whole disc, processed and in order.
pub proof fn law_delivered_disc(
    settings: ProcessorView,
    data: Seq<Seq<u8>>,
    arrivals: Seq<CheckedBlock>,
    states: Seq<OrderView<CheckBlockResult>>,
    steps: Seq<Seq<CheckedBlock>>,
)
    requires
        is_complete(arrivals, data.len()),
        is_history(arrivals, states, steps),
        forall|j: int|
            0 <= j < arrivals.len() ==> is_processed(settings, data, #[trigger] arrivals[j]),
    ensures
        is_processed_disc(settings, data, delivered_by(steps, arrivals.len())),
{
    let n = arrivals.len();
    let delivered = delivered_by(steps, n);
    law_all_blocks_delivered(arrivals, states, steps, data.len());
    assert forall|i: int| 0 <= i < delivered.len() implies (#[trigger] delivered[i]).block_idx == i
        && is_processed(settings, data, delivered[i]) by {
        assert(arrived(arrivals, n as int, delivered[i]));
        let j = choose|j: int| 0 <= j < n && #[trigger] arrivals[j] == delivered[i];
        assert(is_processed(settings, data, arrivals[j]));
    }
}

/// Processing depends on the disc and the settings alone: a disc that is processed twice gives the
/// same blocks.
pub proof fn law_processing_is_determined(
    settings: ProcessorView,
    data: Seq<Seq<u8>>,
    a: Seq<CheckedBlock>,
    b: Seq<CheckedBlock>,
)
    requires
        is_processed_disc(settings, data, a),
        is_processed_disc(settings, data, b),
    ensures
        same_blocks(a, b),
{
    assert forall|i: int| 0 <= i < a.len() implies same_block(#[trigger] a[i], b[i]) by {
        assert(b[i].block_idx == i);
    }
}

} // verus!
