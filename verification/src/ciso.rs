//! The CISO format: a header with a map of the blocks that are stored, and those blocks.

use bytes::Bytes;
use vstd::prelude::*;
use vstd::slice::{slice_subrange, slice_to_vec};

use crate::block::{same_block, BlockResult};
use crate::buffers::{bytes_as_ref, bytes_from_vec, bytes_mut_freeze, bytes_mut_zeroed, contents};
use crate::check::CheckBlockResult;
use crate::disc::{DiscHeader, PartitionInfo, SECTOR_SIZE};
use crate::endian::{
    law_le_u32_round_trip, le_u32, le_u32_bytes, le_u32_seq, read_le_u32, zeroed_bytes,
    zeroed_words,
};
use crate::error::Error;
use crate::image::{
    block_at, block_number, div_up, lemma_div_up, unstored_kind, Block, BlockKind,
};
use crate::nkit::{
    junk_capacity, with_bit, DigestResult, Digests, DiscFinalization, DiscMeta, JunkBits,
    NKitHeader,
};
use crate::options::{
    Compression, DiscWriterWeight, Format, FormatOptions, ScrubLevel, DL_DVD_SIZE,
};
use crate::processor::{BlockClassifier, BlockProcessor, ProcessorView};
use crate::writer::{
    completed, is_processed_disc, is_run, is_sequence, is_writing, law_processed_blocks,
    law_processing_is_determined, lemma_behind, lemma_dropped_restores, lemma_stored_at,
    lemma_stored_len, pieces, restores, same_blocks, same_chunk, same_output, stored_before,
    stored_data, CheckedBlock, DiscWriter, WriteChunk, WriteProcess, WriteRun,
};

verus! {

/// What a CISO file starts with.
pub const CISO_MAGIC: [u8; 4] = [0x43, 0x49, 0x53, 0x4F];

/// Number of entries of the map in a CISO header.
pub const CISO_MAP_SIZE: usize = SECTOR_SIZE - 8;

/// Size in bytes of the blocks that are written.
pub const DEFAULT_BLOCK_SIZE: u32 = 0x200000;

/// A CISO header: the magic, the block size in little-endian order, and a byte per block, which is
/// 1 if the block is stored.
pub open spec fn ciso_header(block_size: u32, present: Seq<u8>) -> Seq<u8> {
    CISO_MAGIC@ + le_u32_seq(block_size) + present
}

/// Whether a header starts with the CISO magic.
pub open spec fn is_ciso(header: Seq<u8>) -> bool {
    header.subrange(0, 4) == CISO_MAGIC@
}

/// The block size in a header.
pub open spec fn header_block_size(header: Seq<u8>) -> u32 {
    le_u32(header.subrange(4, 8))
}

/// The map in a header.
pub open spec fn header_present(header: Seq<u8>) -> Seq<u8> {
    header.subrange(8, 0x8000)
}

/// How many of the first `k` blocks of a map are stored.
pub open spec fn present_before(present: Seq<u8>, k: int) -> nat
    decreases k,
{
    if k <= 0 {
        0
    } else if present[k - 1] == 1 {
        present_before(present, k - 1) + 1
    } else {
        present_before(present, k - 1)
    }
}

/// Where each block stands among those that are stored.
pub open spec fn places(present: Seq<u8>) -> Seq<u16> {
    Seq::new(
        present.len(),
        |i: int|
            if present[i] == 1 {
                present_before(present, i) as u16
            } else {
                u16::MAX
            },
    )
}

/// Where the stored blocks end.
pub open spec fn ciso_data_end(header: Seq<u8>) -> int {
    0x8000 + present_before(header_present(header), CISO_MAP_SIZE as int) * header_block_size(
        header,
    )
}

/// Why a file with the given header and length is no valid CISO file.
pub open spec fn ciso_fault(header: Seq<u8>, len: u64) -> Option<Error> {
    if !is_ciso(header) {
        Some(Error::CisoMagic)
    } else if ciso_data_end(header) > len {
        Some(Error::CisoFileSize { expected: ciso_data_end(header) as u64, len })
    } else {
        None
    }
}

/// What a reader knows of a CISO file.
pub struct CisoImage {
    /// Size in bytes of a block.
    pub block_size: u32,
    /// Where each block stands among those that are stored.
    pub places: Seq<u16>,
    /// Where an NKit header may stand.
    pub nkit_offset: Option<u64>,
    /// The NKit header.
    pub nkit: Option<NKitHeader>,
}

impl CisoImage {
    /// What the header and the length of a file say.
    pub open spec fn opened(header: Seq<u8>, len: u64) -> CisoImage {
        CisoImage {
            block_size: header_block_size(header),
            places: places(header_present(header)),
            nkit_offset: if len > ciso_data_end(header) + 12 {
                Some(ciso_data_end(header) as u64)
            } else {
                None
            },
            nkit: None,
        }
    }

    /// The block that a sector lies in, and where it stands in the file if it is stored.
    pub open spec fn find(&self, sector: u32) -> (Block, Option<int>) {
        let block_idx = block_at(sector, self.block_size);
        if block_idx >= CISO_MAP_SIZE {
            (
                Block { block_idx, block_size: self.block_size, kind: BlockKind::OutOfBounds },
                None,
            )
        } else if self.places[block_idx as int] == u16::MAX {
            (
                Block {
                    block_idx,
                    block_size: self.block_size,
                    kind: unstored_kind(
                        match self.nkit {
                            Some(header) => header.junk_at(block_idx as int),
                            None => None,
                        },
                    ),
                },
                None,
            )
        } else {
            (
                Block { block_idx, block_size: self.block_size, kind: BlockKind::Raw },
                Some(0x8000 + self.places[block_idx as int] * self.block_size),
            )
        }
    }
}

/// A reader for CISO files.
pub struct BlockReaderCISO {
    block_size: u32,
    block_map: Vec<u16>,
    nkit_offset: Option<u64>,
    nkit_header: Option<NKitHeader>,
}

impl View for BlockReaderCISO {
    type V = CisoImage;

    closed spec fn view(&self) -> CisoImage {
        CisoImage {
            block_size: self.block_size,
            places: self.block_map@,
            nkit_offset: self.nkit_offset,
            nkit: self.nkit_header,
        }
    }
}

/// A map has room for all places.
pub proof fn lemma_present_before(present: Seq<u8>, k: int)
    ensures
        0 <= present_before(present, k) <= if k < 0 {
            0
        } else {
            k
        },
    decreases k,
{
    if k > 0 {
        lemma_present_before(present, k - 1);
    }
}

impl BlockReaderCISO {
    /// Whether the map is complete.
    pub open spec fn wf(&self) -> bool {
        self@.places.len() == CISO_MAP_SIZE
    }

    /// Checks that a file starts with the CISO magic.
    pub fn check_magic(header: &[u8]) -> (r: Result<(), Error>)
        requires
            header@.len() >= 4,
        ensures
            match r {
                Ok(_) => is_ciso(header@),
                Err(e) => !is_ciso(header@) && e == Error::CisoMagic,
            },
    {
        let magic: [u8; 4] = CISO_MAGIC;
        let mut i: usize = 0;
        while i < 4
            invariant
                i <= 4,
                header@.len() >= 4,
                magic@ == CISO_MAGIC@,
                magic@.len() == 4,
                forall|k: int| 0 <= k < i ==> #[trigger] header@[k] == magic@[k],
            decreases 4 - i,
        {
            if header[i] != magic[i] {
                assert(header@.subrange(0, 4)[i as int] != magic@[i as int]);
                return Err(Error::CisoMagic);
            }
            i += 1;
        }
        assert(header@.subrange(0, 4) =~= magic@);
        Ok(())
    }

    /// Opens a file with the given header and length, and fills the map of its blocks.
    pub fn with_map(header: &[u8], len: u64, map: Vec<u16>) -> (r: Result<BlockReaderCISO, Error>)
        requires
            header@.len() == SECTOR_SIZE,
            is_ciso(header@),
            map@.len() == CISO_MAP_SIZE,
        ensures
            match r {
                Ok(reader) => {
                    &&& ciso_fault(header@, len) is None
                    &&& reader.wf()
                    &&& reader@ == CisoImage::opened(header@, len)
                },
                Err(e) => ciso_fault(header@, len) == Some(e),
            },
    {
        let block_size: u32 = read_le_u32(slice_subrange(header, 4, 8));
        let ghost present = header_present(header@);

        // Build block map
        let mut block_map: Vec<u16> = map;
        let mut block: u16 = 0;
        let mut i: usize = 0;
        while i < CISO_MAP_SIZE
            invariant
                i <= CISO_MAP_SIZE,
                header@.len() == SECTOR_SIZE,
                present == header_present(header@),
                block_map@.len() == CISO_MAP_SIZE,
                block == present_before(present, i as int),
                block <= i,
                forall|k: int| 0 <= k < i ==> #[trigger] block_map@[k] == places(present)[k],
            decreases CISO_MAP_SIZE - i,
        {
            assert(header@[8 + i] == present[i as int]);
            if header[8 + i] == 1 {
                block_map.set(i, block);
                block += 1;
            } else {
                block_map.set(i, u16::MAX);
            }
            i += 1;
        }
        assert(block_map@ =~= places(present));
        proof {
            assert(block * block_size <= 0x8000 * 0x1_0000_0000) by (nonlinear_arith)
                requires
                    0 <= block <= 0x8000,
                    0 <= block_size <= 0x1_0000_0000,
            ;
        }
        let file_size: u64 = SECTOR_SIZE as u64 + block as u64 * block_size as u64;
        if file_size > len {
            return Err(Error::CisoFileSize { expected: file_size, len });
        }
        let nkit_offset: Option<u64> = if len > file_size + 12 {
            Some(file_size)
        } else {
            None
        };
        Ok(BlockReaderCISO { block_size, block_map, nkit_offset, nkit_header: None })
    }

    /// Opens a file with the given header and length. A file without the magic is refused. What
    /// becomes of any other is what [`BlockReaderCISO::with_map`] says, unless there is no memory
    /// for the map.
    pub fn new(header: &[u8], len: u64) -> (r: Result<BlockReaderCISO, Error>)
        requires
            header@.len() == SECTOR_SIZE,
        ensures
            match r {
                Ok(reader) => {
                    &&& ciso_fault(header@, len) is None
                    &&& reader.wf()
                    &&& reader@ == CisoImage::opened(header@, len)
                },
                Err(e) => ciso_fault(header@, len) == Some(e) || (is_ciso(header@) && e
                    == Error::OutOfMemory),
            },
    {
        if let Err(e) = Self::check_magic(header) {
            return Err(e);
        }
        match zeroed_words(CISO_MAP_SIZE) {
            Ok(map) => Self::with_map(header, len, map),
            Err(e) => Err(e),
        }
    }

    /// Where the NKit header is to be read, if there can be one.
    pub fn nkit_offset(&self) -> (r: Option<u64>)
        ensures
            r == self@.nkit_offset,
    {
        self.nkit_offset
    }

    /// Takes the NKit header that was read.
    pub fn set_nkit_header(&mut self, nkit_header: Option<NKitHeader>)
        ensures
            final(self)@ == (CisoImage { nkit: nkit_header, ..old(self)@ }),
    {
        self.nkit_header = nkit_header;
    }

    /// Finds the block that a sector lies in, and where it stands in the file if it is stored.
    pub fn read_block(&self, sector: u32) -> (r: (Block, Option<u64>))
        requires
            self.wf(),
            self@.block_size > 0,
        ensures
            r.0 == self@.find(sector).0,
            match r.1 {
                Some(offset) => self@.find(sector).1 == Some(offset as int),
                None => self@.find(sector).1 is None,
            },
    {
        let block_size: u32 = self.block_size;
        let block_idx: u32 = block_number(sector, block_size);
        if block_idx >= CISO_MAP_SIZE as u32 {
            // Out of bounds
            return (Block { block_idx, block_size, kind: BlockKind::OutOfBounds }, None);
        }
        // Find the block in the map
        let phys_block: u16 = self.block_map[block_idx as usize];
        if phys_block == u16::MAX {
            // Check if block is junk data
            let junk: Option<bool> = match &self.nkit_header {
                Some(header) => header.is_junk_block(block_idx),
                None => None,
            };
            let kind: BlockKind = match junk {
                Some(true) => BlockKind::Junk,
                // Otherwise, read zeroes
                _ => BlockKind::Zero,
            };
            return (Block { block_idx, block_size, kind }, None);
        }
        proof {
            assert(phys_block * block_size <= 0x1_0000 * 0x1_0000_0000) by (nonlinear_arith)
                requires
                    0 <= phys_block <= 0x1_0000,
                    0 <= block_size <= 0x1_0000_0000,
            ;
        }
        let file_offset: u64 = SECTOR_SIZE as u64 + phys_block as u64 * block_size as u64;
        (Block { block_idx, block_size, kind: BlockKind::Raw }, Some(file_offset))
    }

    /// Size in bytes of a block.
    pub fn block_size(&self) -> (r: u32)
        ensures
            r == self@.block_size,
    {
        self.block_size
    }

    /// What the image says about itself.
    pub fn meta(&self) -> (r: DiscMeta)
        ensures
            r == DiscMeta::of(Format::Ciso, self@.block_size, self@.nkit),
    {
        DiscMeta::new(Format::Ciso, self.block_size, &self.nkit_header)
    }
}

/// Processes the blocks of a CISO file.
pub struct BlockProcessorCISO {
    classifier: BlockClassifier,
}

impl BlockProcessor for BlockProcessorCISO {
    type BlockMeta = CheckBlockResult;

    closed spec fn settings(&self) -> ProcessorView {
        self.classifier@
    }

    closed spec fn wf(&self) -> bool {
        self.classifier.wf()
    }

    open spec fn gives(
        settings: ProcessorView,
        block_idx: u32,
        block_data: Seq<u8>,
        disc_data: Seq<u8>,
        result: Result<BlockResult<CheckBlockResult>, Error>,
    ) -> bool {
        settings.gives(block_idx, block_data, disc_data, result)
    }

    fn input_position(&self, block_idx: u32) -> (position: u64) {
        self.classifier.input_position(block_idx)
    }

    fn process_block(&mut self, block_idx: u32, block_data: Bytes, disc_data: Bytes) -> (result:
        Result<BlockResult<CheckBlockResult>, Error>) {
        self.classifier.process(block_idx, block_data, disc_data)
    }

    fn clone_with(&self, decrypted_block: Vec<u8>) -> (copy: Self) {
        BlockProcessorCISO { classifier: self.classifier.clone_with(decrypted_block) }
    }

    fn try_clone(&self) -> (r: Result<Self, Error>) {
        match zeroed_bytes(self.classifier.block_size() as usize) {
            Ok(decrypted_block) => Ok(self.clone_with(decrypted_block)),
            Err(e) => Err(e),
        }
    }
}

/// A writer for CISO files.
#[derive(Clone, Copy, Debug)]
pub struct DiscWriterCISO {
    block_size: u32,
    block_count: u32,
    disc_size: u64,
}

/// How many blocks a disc is split in. Block counts have 32 bits.
pub open spec fn ciso_block_count(disc_size: u64) -> u32 {
    (div_up(disc_size as int, DEFAULT_BLOCK_SIZE as int) % 0x1_0000_0000) as u32
}

/// Why a disc cannot be written as asked for.
pub open spec fn ciso_refusal(disc_size: u64, options: FormatOptions) -> Option<Error> {
    if options.format != Format::Ciso {
        Some(Error::CisoFormat)
    } else if options.compression != Compression::Store {
        Some(Error::CisoCompression)
    } else if ciso_block_count(disc_size) > CISO_MAP_SIZE {
        Some(Error::CisoBlockCount { count: ciso_block_count(disc_size) })
    } else {
        None
    }
}

impl DiscWriterCISO {
    /// A writer for a disc of the given size.
    pub fn new(disc_size: u64, options: &FormatOptions) -> (r: Result<DiscWriterCISO, Error>)
        ensures
            match r {
                Ok(writer) => {
                    &&& ciso_refusal(disc_size, *options) is None
                    &&& writer.wf()
                    &&& writer.size() == disc_size
                    &&& writer.blocks() == ciso_block_count(disc_size)
                    &&& writer.unit() == DEFAULT_BLOCK_SIZE
                },
                Err(e) => ciso_refusal(disc_size, *options) == Some(e),
            },
    {
        if options.format != Format::Ciso {
            return Err(Error::CisoFormat);
        }
        if options.compression != Compression::Store {
            return Err(Error::CisoCompression);
        }
        let block_size: u32 = DEFAULT_BLOCK_SIZE;
        let whole: u64 = disc_size / 0x200000;
        let count: u64 = if disc_size % 0x200000 == 0 {
            whole
        } else {
            whole + 1
        };
        assert(count as u32 == count % 0x1_0000_0000) by (bit_vector);
        let block_count: u32 = #[verifier::truncate]
        (count as u32);
        if block_count > CISO_MAP_SIZE as u32 {
            return Err(Error::CisoBlockCount { count: block_count });
        }
        Ok(DiscWriterCISO { block_size, block_count, disc_size })
    }
}

/// What has been written of a CISO file.
pub struct CisoProgress {
    /// Size in bytes of a block.
    pub block_size: u32,
    /// Size in bytes of the disc.
    pub disc_size: u64,
    /// A byte per block, which is 1 if the block is stored.
    pub present: Seq<u8>,
    /// Which blocks are junk.
    pub junk: Seq<bool>,
    /// How much of the disc has been processed.
    pub position: int,
}

impl CisoProgress {
    /// Before any block has been written.
    pub open spec fn start(block_size: u32, disc_size: u64) -> CisoProgress {
        CisoProgress {
            block_size,
            disc_size,
            present: Seq::new(CISO_MAP_SIZE as nat, |i: int| 0u8),
            junk: Seq::new(junk_capacity(block_size) as nat, |i: int| false),
            position: 0,
        }
    }

    /// After one more block.
    pub open spec fn after(self, block: CheckedBlock) -> CisoProgress {
        let position = self.position + contents(block.disc_data).len();
        match block.meta {
            CheckBlockResult::Normal => CisoProgress {
                present: self.present.update(block.block_idx as int, 1),
                position,
                ..self
            },
            CheckBlockResult::Zeroed => CisoProgress { position, ..self },
            CheckBlockResult::Junk => CisoProgress {
                junk: with_bit(self.junk, block.block_idx as int, true),
                position,
                ..self
            },
        }
    }

    /// After the first `k` blocks.
    pub open spec fn after_all(self, blocks: Seq<CheckedBlock>, k: int) -> CisoProgress
        decreases k,
    {
        if k <= 0 {
            self
        } else {
            self.after_all(blocks, k - 1).after(blocks[k - 1])
        }
    }
}

/// A CISO file that is being written.
pub struct ProcessCISO {
    block_size: u32,
    disc_size: u64,
    block_present: Vec<u8>,
    junk_bits: JunkBits,
    input_position: u64,
}

impl View for ProcessCISO {
    type V = CisoProgress;

    closed spec fn view(&self) -> CisoProgress {
        CisoProgress {
            block_size: self.block_size,
            disc_size: self.disc_size,
            present: self.block_present@,
            junk: self.junk_bits@,
            position: self.input_position as int,
        }
    }
}

impl DiscWriterCISO {
    /// Starts an image with an empty map, of which there is a byte per block.
    pub fn begin_with(&self, map: Vec<u8>) -> (r: (WriteChunk, ProcessCISO))
        requires
            self.wf(),
            map@ == Seq::new(CISO_MAP_SIZE as nat, |i: int| 0u8),
        ensures
            r.1.wf(),
            forall|disc_header: Seq<u8>| #[trigger] self.begins(disc_header, r.0, r.1),
    {
        let first: WriteChunk = WriteChunk {
            data: bytes_mut_freeze(bytes_mut_zeroed(SECTOR_SIZE)),
            position: 0,
            total: self.disc_size,
        };
        let process: ProcessCISO = ProcessCISO {
            block_size: self.block_size,
            disc_size: self.disc_size,
            block_present: map,
            junk_bits: JunkBits::new(self.block_size),
            input_position: 0,
        };
        proof {
            let start = CisoProgress::start(self.block_size, self.disc_size);
            assert(process@.junk =~= start.junk);
            assert(process@.present =~= start.present);
        }
        (first, process)
    }
}

impl DiscWriter for DiscWriterCISO {
    type Processor = BlockProcessorCISO;

    type Process = ProcessCISO;

    closed spec fn size(&self) -> u64 {
        self.disc_size
    }

    closed spec fn blocks(&self) -> int {
        self.block_count as int
    }

    closed spec fn unit(&self) -> u32 {
        self.block_size
    }

    closed spec fn wf(&self) -> bool {
        self.block_size == DEFAULT_BLOCK_SIZE
    }

    open spec fn begins(
        &self,
        disc_header: Seq<u8>,
        first: WriteChunk,
        process: ProcessCISO,
    ) -> bool {
        &&& first.is(Seq::new(SECTOR_SIZE as nat, |i: int| 0u8), 0, self.size())
        &&& process@ == CisoProgress::start(self.unit(), self.size())
    }

    fn block_count(&self) -> (r: u32) {
        self.block_count
    }

    fn block_size(&self) -> (r: u32) {
        self.block_size
    }

    fn processor_with(
        &self,
        partitions: Vec<PartitionInfo>,
        header: &DiscHeader,
        scrub: ScrubLevel,
        decrypted_block: Vec<u8>,
    ) -> (processor: BlockProcessorCISO) {
        let scrub_update_partition: bool = scrub == ScrubLevel::UpdatePartition;
        let classifier: BlockClassifier = BlockClassifier::with_buffer(
            self.block_size,
            partitions,
            header.junk_id(),
            header.disc_num,
            scrub_update_partition,
            decrypted_block,
        );
        BlockProcessorCISO { classifier }
    }

    fn processor(
        &self,
        partitions: Vec<PartitionInfo>,
        header: &DiscHeader,
        scrub: ScrubLevel,
    ) -> (r: Result<BlockProcessorCISO, Error>) {
        match zeroed_bytes(self.block_size() as usize) {
            Ok(decrypted_block) => Ok(
                self.processor_with(partitions, header, scrub, decrypted_block),
            ),
            Err(e) => Err(e),
        }
    }

    fn begin(&self, disc_header: &[u8]) -> (r: Result<(WriteChunk, ProcessCISO), Error>) {
        match zeroed_bytes(CISO_MAP_SIZE) {
            Ok(map) => Ok(self.begin_with(map)),
            Err(e) => Err(e),
        }
    }

    fn progress_bound(&self) -> (r: u64) {
        self.disc_size
    }

    fn weight(&self) -> (r: DiscWriterWeight)
        ensures
            r == DiscWriterWeight::Medium,
    {
        DiscWriterWeight::Medium
    }
}

impl WriteProcess for ProcessCISO {
    open spec fn wf(&self) -> bool {
        self@.present.len() == CISO_MAP_SIZE
    }

    open spec fn takes(&self, block: CheckedBlock) -> bool {
        &&& block.meta == CheckBlockResult::Normal ==> block.block_idx < CISO_MAP_SIZE
        &&& self@.position + contents(block.disc_data).len() <= u64::MAX
    }

    open spec fn advances(&self, block: CheckedBlock, chunk: WriteChunk, after: Self) -> bool {
        &&& after@ == self@.after(block)
        &&& chunk.is(contents(block.block_data), after@.position, self@.disc_size)
    }

    open spec fn described_by(&self, results: Seq<DigestResult>, header: NKitHeader) -> bool {
        &&& header.version == 2
        &&& header.size == Some(self@.disc_size)
        &&& header.digests == Digests::unknown().with_all(results)
        &&& header.junk_bits matches Some(map)
        &&& map@ == self@.junk
        &&& header.encrypted
    }

    open spec fn holds(nkit_len: nat) -> bool {
        true
    }

    open spec fn concludes(
        &self,
        nkit: Seq<u8>,
        results: Seq<DigestResult>,
        last: Option<WriteChunk>,
        finalization: DiscFinalization,
    ) -> bool {
        &&& last matches Some(chunk)
        &&& chunk.is(nkit, self@.disc_size as int, self@.disc_size)
        &&& contents(finalization.header) == ciso_header(self@.block_size, self@.present)
        &&& finalization.digests == Digests::unknown().with_all(results)
    }

    fn can_take(&self, block: &CheckedBlock) -> (r: bool) {
        let disc_data_len: u64 = bytes_as_ref(&block.disc_data).len() as u64;
        let placed: bool = match block.meta {
            CheckBlockResult::Normal => block.block_idx < CISO_MAP_SIZE as u32,
            _ => true,
        };
        placed && disc_data_len <= u64::MAX - self.input_position
    }

    fn write_block(&mut self, block: CheckedBlock) -> (chunk: WriteChunk) {
        let disc_data_len: u64 = bytes_as_ref(&block.disc_data).len() as u64;
        match block.meta {
            CheckBlockResult::Normal => {
                self.block_present.set(block.block_idx as usize, 1);
            },
            CheckBlockResult::Zeroed => {},
            CheckBlockResult::Junk => {
                self.junk_bits.set(block.block_idx, true);
            },
        }
        self.input_position = self.input_position + disc_data_len;
        WriteChunk {
            data: block.block_data,
            position: self.input_position,
            total: self.disc_size,
        }
    }

    fn nkit_header(&self, results: &[DigestResult]) -> (header: NKitHeader) {
        let mut header: NKitHeader = NKitHeader {
            version: 2,
            size: Some(self.disc_size),
            digests: Digests::new(),
            junk_bits: Some(self.junk_bits.clone()),
            encrypted: true,
        };
        header.apply_digests(results);
        header
    }

    fn finish(self, nkit: &[u8], results: &[DigestResult]) -> (r: (
        Option<WriteChunk>,
        DiscFinalization,
    )) {
        // Write NKit header after data
        let last: WriteChunk = WriteChunk {
            data: bytes_from_vec(slice_to_vec(nkit)),
            position: self.disc_size,
            total: self.disc_size,
        };
        let magic: [u8; 4] = CISO_MAGIC;
        let size: [u8; 4] = le_u32_bytes(self.block_size);
        let mut header: Vec<u8> = slice_to_vec(magic.as_slice());
        header.extend_from_slice(size.as_slice());
        header.extend_from_slice(self.block_present.as_slice());
        assert(header@ =~= ciso_header(self@.block_size, self@.present));
        let mut finalization: DiscFinalization = DiscFinalization {
            header: bytes_from_vec(header),
            digests: Digests::new(),
        };
        finalization.apply_digests(results);
        (Some(last), finalization)
    }
}

/// The blocks cover the whole disc, and one block less would not, as long as their count has 32
/// bits.
pub proof fn law_ciso_blocks_cover_disc(disc_size: u64)
    requires
        div_up(disc_size as int, DEFAULT_BLOCK_SIZE as int) <= u32::MAX,
    ensures
        disc_size <= ciso_block_count(disc_size) * DEFAULT_BLOCK_SIZE,
        disc_size > 0 ==> (ciso_block_count(disc_size) - 1) * DEFAULT_BLOCK_SIZE < disc_size,
{
    lemma_div_up(disc_size as int, DEFAULT_BLOCK_SIZE as int);
}

/// The file that becomes of a disc with the given blocks, and an encoded NKit header.
pub open spec fn ciso_file(
    block_size: u32,
    disc_size: u64,
    blocks: Seq<CheckedBlock>,
    nkit: Seq<u8>,
) -> Seq<u8> {
    let n = blocks.len() as int;
    ciso_header(
        block_size,
        CisoProgress::start(block_size, disc_size).after_all(blocks, n).present,
    ) + stored_data(blocks, n) + nkit
}

/// The stages of an image, and the pieces that are written.
proof fn lemma_writing(
    states: Seq<ProcessCISO>,
    blocks: Seq<CheckedBlock>,
    chunks: Seq<WriteChunk>,
    k: int,
)
    requires
        is_writing(states, blocks, chunks),
        states[0].wf(),
        0 <= k <= blocks.len(),
    ensures
        states[k]@ == states[0]@.after_all(blocks, k),
        states[k]@.block_size == states[0]@.block_size,
        states[k].wf(),
        pieces(chunks, k) == stored_data(blocks, k),
    decreases k,
{
    if k > 0 {
        lemma_writing(states, blocks, chunks, k - 1);
        assert(states[k - 1].advances(blocks[k - 1], chunks[k - 1], states[k]));
    }
}

/// What the calls of a writer give, put together, is the file of the disc.
pub proof fn law_ciso_writes_file(
    writer: DiscWriterCISO,
    disc_header: Seq<u8>,
    first: WriteChunk,
    states: Seq<ProcessCISO>,
    blocks: Seq<CheckedBlock>,
    chunks: Seq<WriteChunk>,
    nkit: Seq<u8>,
    results: Seq<DigestResult>,
    last: WriteChunk,
    finalization: DiscFinalization,
)
    requires
        is_writing(states, blocks, chunks),
        writer.begins(disc_header, first, states[0]),
        states.last().concludes(nkit, results, Some(last), finalization),
    ensures
        completed(
            contents(first.data) + pieces(chunks, blocks.len() as int) + contents(last.data),
            contents(finalization.header),
        ) == ciso_file(writer.unit(), writer.size(), blocks, nkit),
{
    let n = blocks.len() as int;
    lemma_writing(states, blocks, chunks, n);
    let header = contents(finalization.header);
    assert(header.len() == 0x8000);
    assert(completed(
        contents(first.data) + pieces(chunks, n) + contents(last.data),
        header,
    ) =~= ciso_file(writer.unit(), writer.size(), blocks, nkit));
}

/// What the maps say after the first `k` blocks.
#[verifier::rlimit(40)]
proof fn lemma_progress(block_size: u32, disc_size: u64, blocks: Seq<CheckedBlock>, k: int)
    requires
        is_sequence(blocks, block_size),
        blocks.len() <= CISO_MAP_SIZE,
        block_size > 0,
        0 <= k <= blocks.len(),
    ensures
        ({
            let p = CisoProgress::start(block_size, disc_size).after_all(blocks, k);
            &&& p.present.len() == CISO_MAP_SIZE
            &&& p.junk.len() == junk_capacity(block_size)
            &&& forall|i: int|
                0 <= i < CISO_MAP_SIZE ==> #[trigger] p.present[i] == if i < k && blocks[i].meta
                    == CheckBlockResult::Normal {
                    1u8
                } else {
                    0u8
                }
            &&& forall|i: int|
                0 <= i < p.junk.len() ==> #[trigger] p.junk[i] == (i < k && blocks[i].meta
                    == CheckBlockResult::Junk)
        }),
    decreases k,
{
    if k > 0 {
        lemma_progress(block_size, disc_size, blocks, k - 1);
        assert(blocks[k - 1].block_idx == k - 1);
    } else {
        lemma_div_up(DL_DVD_SIZE as int, block_size as int);
        lemma_div_up(div_up(DL_DVD_SIZE as int, block_size as int), 8);
    }
}

/// The map of the file counts the blocks that are stored.
proof fn lemma_counted(present: Seq<u8>, blocks: Seq<CheckedBlock>, k: int)
    requires
        0 <= k <= present.len(),
        blocks.len() <= present.len(),
        forall|i: int|
            0 <= i < present.len() ==> #[trigger] present[i] == if i < blocks.len()
                && blocks[i].meta == CheckBlockResult::Normal {
                1u8
            } else {
                0u8
            },
    ensures
        present_before(present, k) == stored_before(
            blocks,
            if k < blocks.len() {
                k
            } else {
                blocks.len() as int
            },
        ),
    decreases k,
{
    if k > 0 {
        lemma_counted(present, blocks, k - 1);
        assert(present[k - 1] == present[k - 1]);
    }
}

/// A file that was written can be opened: its header is valid, and the NKit header stands where
/// the reader looks for it.
#[verifier::rlimit(40)]
pub proof fn law_ciso_opens(
    block_size: u32,
    disc_size: u64,
    blocks: Seq<CheckedBlock>,
    nkit: Seq<u8>,
)
    requires
        is_sequence(blocks, block_size),
        blocks.len() <= CISO_MAP_SIZE,
        block_size > 0,
        ciso_file(block_size, disc_size, blocks, nkit).len() <= u64::MAX,
    ensures
        ({
            let file = ciso_file(block_size, disc_size, blocks, nkit);
            let header = file.subrange(0, 0x8000);
            let data_end = file.len() - nkit.len();
            &&& ciso_fault(header, file.len() as u64) is None
            &&& ciso_data_end(header) == data_end
            &&& header_block_size(header) == block_size
            &&& header_present(header) == CisoProgress::start(block_size, disc_size).after_all(
                blocks,
                blocks.len() as int,
            ).present
            &&& file.subrange(data_end, file.len() as int) == nkit
            &&& CisoImage::opened(header, file.len() as u64).nkit_offset == if nkit.len() > 12 {
                Some(data_end as u64)
            } else {
                None
            }
        }),
{
    let n = blocks.len() as int;
    let file = ciso_file(block_size, disc_size, blocks, nkit);
    let header = file.subrange(0, 0x8000);
    let present = CisoProgress::start(block_size, disc_size).after_all(blocks, n).present;
    lemma_progress(block_size, disc_size, blocks, n);
    lemma_stored_len(blocks, block_size, n);
    lemma_counted(present, blocks, CISO_MAP_SIZE as int);
    law_le_u32_round_trip(block_size);
    assert(header =~= ciso_header(block_size, present));
    assert(header.subrange(0, 4) =~= CISO_MAGIC@);
    assert(header.subrange(4, 8) =~= le_u32_seq(block_size));
    assert(header_present(header) =~= present);
    assert(file.subrange(file.len() - nkit.len(), file.len() as int) =~= nkit);
}

/// The map of the file says where a block stands.
proof fn lemma_place(block_size: u32, disc_size: u64, blocks: Seq<CheckedBlock>, idx: int)
    requires
        is_sequence(blocks, block_size),
        blocks.len() <= CISO_MAP_SIZE,
        block_size > 0,
        0 <= idx < blocks.len(),
    ensures
        ({
            let present = CisoProgress::start(block_size, disc_size).after_all(
                blocks,
                blocks.len() as int,
            ).present;
            &&& present.len() == CISO_MAP_SIZE
            &&& present_before(present, idx) == stored_before(blocks, idx)
            &&& present_before(present, idx) <= idx
        }),
{
    let n = blocks.len() as int;
    let present = CisoProgress::start(block_size, disc_size).after_all(blocks, n).present;
    lemma_progress(block_size, disc_size, blocks, n);
    lemma_counted(present, blocks, idx);
    lemma_present_before(present, idx);
}

/// A stored block stands where the map says.
#[verifier::rlimit(40)]
proof fn lemma_stored_block(
    block_size: u32,
    disc_size: u64,
    blocks: Seq<CheckedBlock>,
    nkit: Seq<u8>,
    idx: int,
)
    requires
        is_sequence(blocks, block_size),
        blocks.len() <= CISO_MAP_SIZE,
        block_size > 0,
        0 <= idx < blocks.len(),
        blocks[idx].meta == CheckBlockResult::Normal,
    ensures
        ({
            let file = ciso_file(block_size, disc_size, blocks, nkit);
            let present = CisoProgress::start(block_size, disc_size).after_all(
                blocks,
                blocks.len() as int,
            ).present;
            let place = present_before(present, idx);
            let at = 0x8000 + place * block_size;
            &&& place < CISO_MAP_SIZE
            &&& 0x8000 <= at <= at + block_size <= file.len()
            &&& file.subrange(at, at + block_size) == contents(blocks[idx].block_data)
        }),
{
    let n = blocks.len() as int;
    let present = CisoProgress::start(block_size, disc_size).after_all(blocks, n).present;
    lemma_place(block_size, disc_size, blocks, idx);
    lemma_stored_at(blocks, block_size, idx, n);
    let at = stored_before(blocks, idx) * block_size;
    let header = ciso_header(block_size, present);
    assert(header.len() == 0x8000);
    lemma_behind(header, stored_data(blocks, n), nkit, at, block_size as int);
}

/// A file that was written gives back what was written: a stored block is found with its data, a
/// block that was dropped is found as zeroes or junk data, whichever it was, and what lies behind
/// the disc is found as zeroes.
///
/// `nkit_header` is the NKit header that the writer made, as it was read back. A junk block has to
/// be one that the junk map has a bit for: those of a dual-layer disc are.
#[verifier::rlimit(40)]
pub proof fn law_ciso_read_back(
    block_size: u32,
    disc_size: u64,
    blocks: Seq<CheckedBlock>,
    nkit: Seq<u8>,
    nkit_header: NKitHeader,
    sector: u32,
)
    requires
        is_sequence(blocks, block_size),
        blocks.len() <= CISO_MAP_SIZE,
        block_size > 0,
        ciso_file(block_size, disc_size, blocks, nkit).len() <= u64::MAX,
        nkit_header.junk_bits matches Some(map) && map@ == CisoProgress::start(
            block_size,
            disc_size,
        ).after_all(blocks, blocks.len() as int).junk,
    ensures
        ({
            let file = ciso_file(block_size, disc_size, blocks, nkit);
            let image = CisoImage {
                nkit: Some(nkit_header),
                ..CisoImage::opened(file.subrange(0, 0x8000), file.len() as u64)
            };
            let (block, offset) = image.find(sector);
            let idx = block_at(sector, block_size);
            &&& block.block_idx == idx
            &&& block.block_size == block_size
            &&& if idx >= CISO_MAP_SIZE {
                block.kind == BlockKind::OutOfBounds
            } else if idx >= blocks.len() {
                block.kind == BlockKind::Zero
            } else {
                match blocks[idx as int].meta {
                    CheckBlockResult::Normal => {
                        &&& block.kind == BlockKind::Raw
                        &&& offset matches Some(at)
                        &&& 0 <= at <= at + block_size <= file.len()
                        &&& file.subrange(at, at + block_size) == contents(
                            blocks[idx as int].block_data,
                        )
                    },
                    CheckBlockResult::Zeroed => block.kind == BlockKind::Zero,
                    CheckBlockResult::Junk => idx < junk_capacity(block_size) ==> block.kind
                        == BlockKind::Junk,
                }
            }
        }),
{
    let n = blocks.len() as int;
    let file = ciso_file(block_size, disc_size, blocks, nkit);
    let header = file.subrange(0, 0x8000);
    let present = CisoProgress::start(block_size, disc_size).after_all(blocks, n).present;
    let idx = block_at(sector, block_size) as int;
    law_ciso_opens(block_size, disc_size, blocks, nkit);
    lemma_progress(block_size, disc_size, blocks, n);
    assert(header_present(header) == present);
    if idx < CISO_MAP_SIZE {
        assert(present[idx] == present[idx]);
        if idx < n && blocks[idx].meta == CheckBlockResult::Normal {
            lemma_stored_block(block_size, disc_size, blocks, nkit, idx);
        }
    }
}

/// A disc that was written can be restored block by block from the file.
///
/// `data` is the disc, block by block; `settings` and `nkit_header` are as in
/// [`law_processed_blocks`] and [`law_ciso_read_back`].
#[verifier::rlimit(40)]
pub proof fn law_ciso_restores_disc(
    settings: ProcessorView,
    disc_size: u64,
    data: Seq<Seq<u8>>,
    blocks: Seq<CheckedBlock>,
    nkit: Seq<u8>,
    nkit_header: NKitHeader,
    sector: u32,
)
    requires
        blocks.len() <= CISO_MAP_SIZE,
        settings.block_size > 0,
        is_processed_disc(settings, data, blocks),
        ciso_file(settings.block_size, disc_size, blocks, nkit).len() <= u64::MAX,
        nkit_header.junk_bits matches Some(map) && map@ == CisoProgress::start(
            settings.block_size,
            disc_size,
        ).after_all(blocks, blocks.len() as int).junk,
        block_at(sector, settings.block_size) < blocks.len(),
        blocks[block_at(sector, settings.block_size) as int].meta == CheckBlockResult::Junk
            ==> block_at(sector, settings.block_size) < junk_capacity(settings.block_size),
    ensures
        ({
            let file = ciso_file(settings.block_size, disc_size, blocks, nkit);
            let image = CisoImage {
                nkit: Some(nkit_header),
                ..CisoImage::opened(file.subrange(0, 0x8000), file.len() as u64)
            };
            let (block, offset) = image.find(sector);
            let at = offset.unwrap_or(0);
            restores(
                settings,
                block.block_idx as int,
                data[block.block_idx as int],
                block.kind,
                file.subrange(at, at + settings.block_size),
            )
        }),
{
    let block_size = settings.block_size;
    let idx = block_at(sector, block_size) as int;
    let file = ciso_file(block_size, disc_size, blocks, nkit);
    let image = CisoImage {
        nkit: Some(nkit_header),
        ..CisoImage::opened(file.subrange(0, 0x8000), file.len() as u64)
    };
    let at = image.find(sector).1.unwrap_or(0);
    law_processed_blocks(settings, data, blocks);
    law_ciso_read_back(block_size, disc_size, blocks, nkit, nkit_header, sector);
    assert(blocks[idx].block_idx == idx);
    lemma_dropped_restores(settings, idx, data[idx], file.subrange(at, at + block_size));
}

/// Two runs over the same blocks go through the same stages.
proof fn lemma_same_stages(
    writer: DiscWriterCISO,
    disc_header: Seq<u8>,
    a: WriteRun<ProcessCISO>,
    b: WriteRun<ProcessCISO>,
    k: int,
)
    requires
        is_writing(a.states, a.blocks, a.chunks),
        is_writing(b.states, b.blocks, b.chunks),
        writer.begins(disc_header, a.first, a.states[0]),
        writer.begins(disc_header, b.first, b.states[0]),
        same_blocks(a.blocks, b.blocks),
        0 <= k <= a.blocks.len(),
    ensures
        a.states[k]@ == b.states[k]@,
        k > 0 ==> same_chunk(a.chunks[k - 1], b.chunks[k - 1]),
    decreases k,
{
    if k > 0 {
        lemma_same_stages(writer, disc_header, a, b, k - 1);
        assert(a.states[k - 1].advances(a.blocks[k - 1], a.chunks[k - 1], a.states[k]));
        assert(b.states[k - 1].advances(b.blocks[k - 1], b.chunks[k - 1], b.states[k]));
        assert(same_block(a.blocks[k - 1], b.blocks[k - 1]));
    }
}

/// Two runs of a writer over the same blocks have the same output.
pub proof fn law_ciso_runs_agree(
    writer: DiscWriterCISO,
    disc_header: Seq<u8>,
    a: WriteRun<ProcessCISO>,
    b: WriteRun<ProcessCISO>,
    nkit: Seq<u8>,
    results: Seq<DigestResult>,
)
    requires
        is_run(writer, disc_header, a, nkit, results),
        is_run(writer, disc_header, b, nkit, results),
        same_blocks(a.blocks, b.blocks),
    ensures
        same_output(a, b),
{
    let n = a.blocks.len() as int;
    lemma_same_stages(writer, disc_header, a, b, 0);
    lemma_same_stages(writer, disc_header, a, b, n);
    assert forall|i: int| 0 <= i < a.chunks.len() implies same_chunk(
        #[trigger] a.chunks[i],
        b.chunks[i],
    ) by {
        lemma_same_stages(writer, disc_header, a, b, i + 1);
    }
}

/// The output of a writer depends on the disc alone: two runs over a disc that was processed have
/// the same output, however many threads processed it.
pub proof fn law_ciso_output_is_determined(
    settings: ProcessorView,
    data: Seq<Seq<u8>>,
    writer: DiscWriterCISO,
    disc_header: Seq<u8>,
    a: WriteRun<ProcessCISO>,
    b: WriteRun<ProcessCISO>,
    nkit: Seq<u8>,
    results: Seq<DigestResult>,
)
    requires
        is_processed_disc(settings, data, a.blocks),
        is_processed_disc(settings, data, b.blocks),
        is_run(writer, disc_header, a, nkit, results),
        is_run(writer, disc_header, b, nkit, results),
    ensures
        same_output(a, b),
{
    law_processing_is_determined(settings, data, a.blocks, b.blocks);
    law_ciso_runs_agree(writer, disc_header, a, b, nkit, results);
}

} // verus!
