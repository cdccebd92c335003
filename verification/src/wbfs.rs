//! The WBFS format: a header block with a map from the blocks of the disc to those of the file.

use bytes::{Bytes, BytesMut};
use vstd::arithmetic::power2::{
    lemma2_to64, lemma_pow2_adds, lemma_pow2_pos, lemma_pow2_strictly_increases, pow2,
};
use vstd::bits::{lemma_u32_shl_is_mul, lemma_u32_shr_is_div};
use vstd::prelude::*;
use vstd::slice::{slice_subrange, slice_to_vec};
use vstd::std_specs::bits::{axiom_u32_trailing_zeros, u32_trailing_zeros};

use crate::block::{padded, same_block, BlockResult};
use crate::buffers::{
    bytes_as_ref, bytes_mut_freeze, bytes_mut_put_slice, bytes_mut_resize, bytes_mut_with_capacity,
    contents, contents_mut,
};
use crate::check::CheckBlockResult;
use crate::disc::{DiscHeader, PartitionInfo, SECTOR_SIZE};
use crate::endian::{
    be_u16, be_u16_bytes, be_u16_seq, be_u32_bytes, be_u32_seq, law_be_u16_round_trip,
    law_be_u32_rewrite, law_be_u32_round_trip, read_be_u16, read_be_u32, zeroed_bytes,
    zeroed_words,
};
use crate::error::Error;
use crate::image::{
    block_at, block_number, div_up, lemma_div_up, unstored_kind, Block, BlockKind,
};
use crate::nkit::{
    junk_capacity, with_bit, DigestResult, Digests, DiscFinalization, DiscMeta, JunkBits,
    NKitHeader,
};
use crate::options::{
    Compression, DiscWriterWeight, Format, FormatOptions, ScrubLevel, DL_DVD_SIZE,
};
use crate::processor::{BlockClassifier, BlockProcessor, ProcessorView};
use crate::writer::{
    completed, is_processed_disc, is_run, is_sequence, is_writing, law_processed_blocks,
    law_processing_is_determined, lemma_behind, lemma_dropped_restores, lemma_stored_at,
    lemma_stored_len, pieces, restores, same_blocks, same_chunk, same_output, stored_before,
    stored_data, CheckedBlock, DiscWriter, WriteChunk, WriteProcess, WriteRun,
};

verus! {

/// What a WBFS file starts with.
pub const WBFS_MAGIC: [u8; 4] = [0x57, 0x42, 0x46, 0x53];

/// Size in bytes of a WBFS header.
pub const WBFS_HEADER_SIZE: usize = 12;

/// Size in bytes of the part of the disc header that a WBFS file repeats.
pub const DISC_HEADER_SIZE: usize = 0x100;

/// Number of sectors of a dual-layer disc.
pub const NUM_WII_SECTORS: u32 = 143432 * 2;

/// Where the NKit header stands in a WBFS file.
pub const NKIT_HEADER_OFFSET: u64 = 0x10000;

/// Size in bytes of the blocks that are written by default.
pub const DEFAULT_BLOCK_SIZE: u32 = 0x200000;

/// A WBFS header.
#[derive(Clone, Copy, Debug)]
pub struct WBFSHeader {
    /// What the file starts with.
    pub magic: [u8; 4],
    /// Size of the file in WBFS sectors.
    pub num_sectors: u32,
    /// Exponent of the size of a WBFS sector.
    pub sector_size_shift: u8,
    /// Exponent of the size of a block.
    pub block_size_shift: u8,
    /// Version of the format.
    pub version: u8,
    /// Unused.
    pub pad: u8,
}

/// Powers of two that fit in 32 bits.
pub proof fn lemma_size(shift: nat)
    requires
        shift < 32,
    ensures
        0 < pow2(shift) <= 0x8000_0000,
        15 <= shift ==> pow2(shift) % 0x8000 == 0 && pow2(shift) >= 0x8000 && pow2(shift) == 0x8000
            * pow2((shift - 15) as nat),
        4 <= shift ==> pow2(shift) >= 16,
{
    lemma2_to64();
    lemma_pow2_pos(shift);
    if shift < 31 {
        lemma_pow2_strictly_increases(shift, 31);
    }
    if 15 <= shift {
        lemma_pow2_adds(15, (shift - 15) as nat);
        lemma_pow2_pos((shift - 15) as nat);
    }
    if 4 < shift {
        lemma_pow2_strictly_increases(4, shift);
    }
}

impl WBFSHeader {
    /// The header as it stands in the file, with numbers in big-endian order.
    pub open spec fn encoded(&self) -> Seq<u8> {
        self.magic@ + be_u32_seq(self.num_sectors) + seq![
            self.sector_size_shift,
            self.block_size_shift,
            self.version,
            self.pad,
        ]
    }

    /// Size in bytes of a WBFS sector.
    pub open spec fn sector_bytes(&self) -> nat {
        pow2(self.sector_size_shift as nat)
    }

    /// Size in bytes of a block.
    pub open spec fn block_bytes(&self) -> nat {
        pow2(self.block_size_shift as nat)
    }

    /// How many blocks the map has entries for.
    pub open spec fn entries(&self) -> nat {
        NUM_WII_SECTORS as nat / pow2((self.block_size_shift - 15) as nat)
    }

    /// The size that the file must have.
    pub open spec fn file_size(&self) -> int {
        self.num_sectors * self.sector_bytes()
    }

    /// Whether blocks consist of whole sectors, and their size has 32 bits.
    pub open spec fn has_blocks(&self) -> bool {
        15 <= self.block_size_shift < 32
    }

    /// Reads a header.
    pub fn from_bytes(bytes: &[u8]) -> (header: WBFSHeader)
        requires
            bytes@.len() == WBFS_HEADER_SIZE,
        ensures
            header.encoded() == bytes@,
    {
        let magic: [u8; 4] = [bytes[0], bytes[1], bytes[2], bytes[3]];
        let num: &[u8] = slice_subrange(bytes, 4, 8);
        let num_sectors: u32 = read_be_u32(num);
        let header: WBFSHeader = WBFSHeader {
            magic,
            num_sectors,
            sector_size_shift: bytes[8],
            block_size_shift: bytes[9],
            version: bytes[10],
            pad: bytes[11],
        };
        proof {
            law_be_u32_rewrite(num@);
        }
        assert(header.encoded() =~= bytes@);
        header
    }

    /// The header as it stands in the file.
    pub fn to_bytes(&self) -> (bytes: Vec<u8>)
        ensures
            bytes@ == self.encoded(),
    {
        let magic: [u8; 4] = self.magic;
        let num_sectors: [u8; 4] = be_u32_bytes(self.num_sectors);
        let mut bytes: Vec<u8> = slice_to_vec(magic.as_slice());
        bytes.extend_from_slice(num_sectors.as_slice());
        bytes.push(self.sector_size_shift);
        bytes.push(self.block_size_shift);
        bytes.push(self.version);
        bytes.push(self.pad);
        assert(bytes@ =~= self.encoded());
        bytes
    }

    /// Size in bytes of a WBFS sector.
    pub fn sector_size(&self) -> (r: u32)
        requires
            self.sector_size_shift < 32,
        ensures
            r == self.sector_bytes(),
    {
        proof {
            lemma_size(self.sector_size_shift as nat);
            lemma_u32_shl_is_mul(1, self.sector_size_shift as u32);
        }
        1u32 << (self.sector_size_shift as u32)
    }

    /// Size in bytes of a block.
    pub fn block_size(&self) -> (r: u32)
        requires
            self.block_size_shift < 32,
        ensures
            r == self.block_bytes(),
    {
        proof {
            lemma_size(self.block_size_shift as nat);
            lemma_u32_shl_is_mul(1, self.block_size_shift as u32);
        }
        1u32 << (self.block_size_shift as u32)
    }

    /// How many blocks the map has entries for.
    pub fn max_blocks(&self) -> (r: u32)
        requires
            self.has_blocks(),
        ensures
            r == self.entries(),
            r <= NUM_WII_SECTORS,
    {
        let shift: u32 = (self.block_size_shift - 15) as u32;
        proof {
            lemma_u32_shr_is_div(NUM_WII_SECTORS, shift);
            lemma_pow2_pos(shift as nat);
            let n = NUM_WII_SECTORS as int;
            let d = pow2(shift as nat) as int;
            assert(n / d <= n) by (nonlinear_arith)
                requires
                    n >= 0,
                    d > 0,
            ;
        }
        NUM_WII_SECTORS >> shift
    }

    /// Checks that the file starts with the WBFS magic.
    pub fn check_magic(&self) -> (r: Result<(), Error>)
        ensures
            match r {
                Ok(_) => self.magic@ == WBFS_MAGIC@,
                Err(e) => self.magic@ != WBFS_MAGIC@ && e == Error::WbfsMagic,
            },
    {
        let magic: [u8; 4] = WBFS_MAGIC;
        if self.magic[0] == magic[0] && self.magic[1] == magic[1] && self.magic[2] == magic[2]
            && self.magic[3] == magic[3] {
            assert(self.magic@ =~= magic@);
            Ok(())
        } else {
            Err(Error::WbfsMagic)
        }
    }

    /// Checks the size of the file.
    pub fn check_file_size(&self, file_len: u64) -> (r: Result<(), Error>)
        requires
            self.sector_size_shift < 32,
        ensures
            match r {
                Ok(_) => file_len == self.file_size(),
                Err(e) => file_len != self.file_size() && e == (Error::WbfsFileSize {
                    len: file_len,
                    expected: self.file_size() as u64,
                }),
            },
    {
        let sector_size: u32 = self.sector_size();
        proof {
            assert(self.num_sectors * sector_size <= 0xFFFF_FFFF * 0xFFFF_FFFF)
                by (nonlinear_arith)
                requires
                    0 <= self.num_sectors <= 0xFFFF_FFFF,
                    0 <= sector_size <= 0xFFFF_FFFF,
            ;
        }
        let expected: u64 = self.num_sectors as u64 * sector_size as u64;
        if file_len != expected {
            return Err(Error::WbfsFileSize { len: file_len, expected });
        }
        Ok(())
    }
}

/// Why a disc table is not that of a file with one disc.
pub open spec fn table_fault(disc_table: Seq<u8>) -> Option<Error> {
    if disc_table[0] != 1 {
        Some(Error::WbfsNoDisc)
    } else if exists|i: int| 1 <= i < disc_table.len() && #[trigger] disc_table[i] != 0 {
        Some(Error::WbfsMultipleDiscs)
    } else {
        None
    }
}

/// Checks that a file holds exactly one disc.
pub fn check_disc_table(disc_table: &[u8]) -> (r: Result<(), Error>)
    requires
        disc_table@.len() > 0,
    ensures
        match r {
            Ok(_) => table_fault(disc_table@) is None,
            Err(e) => table_fault(disc_table@) == Some(e),
        },
{
    if disc_table[0] != 1 {
        return Err(Error::WbfsNoDisc);
    }
    let mut i: usize = 1;
    while i < disc_table.len()
        invariant
            1 <= i <= disc_table@.len(),
            disc_table@[0] == 1,
            forall|k: int| 1 <= k < i ==> #[trigger] disc_table@[k] == 0,
        decreases disc_table@.len() - i,
    {
        if disc_table[i] != 0 {
            return Err(Error::WbfsMultipleDiscs);
        }
        i += 1;
    }
    Ok(())
}

/// Why a file with the given header, length and disc table is no valid WBFS file.
pub open spec fn wbfs_fault(header: WBFSHeader, file_len: u64, disc_table: Seq<u8>) -> Option<
    Error,
> {
    if header.magic@ != WBFS_MAGIC@ {
        Some(Error::WbfsMagic)
    } else if file_len != header.file_size() {
        Some(Error::WbfsFileSize { len: file_len, expected: header.file_size() as u64 })
    } else {
        table_fault(disc_table)
    }
}

/// The numbers that stand in `bytes`, two bytes each in big-endian order.
pub open spec fn words(bytes: Seq<u8>) -> Seq<u16> {
    Seq::new(bytes.len() / 2, |i: int| be_u16(bytes.subrange(2 * i, 2 * i + 2)))
}

/// Numbers as two bytes each in big-endian order.
pub open spec fn word_bytes(values: Seq<u16>) -> Seq<u8> {
    Seq::new(2 * values.len(), |i: int| be_u16_seq(values[i / 2])[i % 2])
}

/// What a reader knows of a WBFS file.
pub struct WbfsImage {
    /// The header.
    pub header: WBFSHeader,
    /// Which block of the file holds a block of the disc; zero if none does.
    pub map: Seq<u16>,
    /// The NKit header.
    pub nkit: Option<NKitHeader>,
}

impl WbfsImage {
    /// The block that a sector lies in, and where it stands in the file if it is stored.
    pub open spec fn find(&self, sector: u32) -> (Block, Option<int>) {
        let block_size = self.header.block_bytes() as u32;
        let block_idx = block_at(sector, block_size);
        if block_idx >= self.header.entries() {
            (Block { block_idx, block_size, kind: BlockKind::OutOfBounds }, None)
        } else if self.map[block_idx as int] == 0 {
            (
                Block {
                    block_idx,
                    block_size,
                    kind: unstored_kind(
                        match self.nkit {
                            Some(header) => header.junk_at(block_idx as int),
                            None => None,
                        },
                    ),
                },
                None,
            )
        } else {
            (
                Block { block_idx, block_size, kind: BlockKind::Raw },
                Some(block_size * self.map[block_idx as int]),
            )
        }
    }
}

/// A reader for WBFS files.
pub struct BlockReaderWBFS {
    /// WBFS header
    header: WBFSHeader,
    /// Map of Wii LBAs to WBFS LBAs
    block_map: Vec<u16>,
    /// Optional NKit header
    nkit_header: Option<NKitHeader>,
}

impl View for BlockReaderWBFS {
    type V = WbfsImage;

    closed spec fn view(&self) -> WbfsImage {
        WbfsImage { header: self.header, map: self.block_map@, nkit: self.nkit_header }
    }
}

impl BlockReaderWBFS {
    /// Whether the header and the map fit each other.
    pub open spec fn wf(&self) -> bool {
        &&& self@.header.has_blocks()
        &&& self@.map.len() == self@.header.entries()
    }

    /// Opens a file with the given header and length. The disc table fills the rest of the first
    /// WBFS sector, and the map follows the copy of the disc header in the second.
    pub fn new(header: &WBFSHeader, file_len: u64, disc_table: &[u8], block_map: &[u8]) -> (r:
        Result<BlockReaderWBFS, Error>)
        requires
            header.magic@ == WBFS_MAGIC@ ==> header.sector_size_shift < 32,
            header.magic@ == WBFS_MAGIC@ && file_len == header.file_size() ==> 4
                <= header.sector_size_shift && disc_table@.len() == header.sector_bytes()
                - WBFS_HEADER_SIZE,
            wbfs_fault(*header, file_len, disc_table@) is None ==> header.has_blocks()
                && block_map@.len() == 2 * header.entries(),
        ensures
            match r {
                Ok(reader) => {
                    &&& wbfs_fault(*header, file_len, disc_table@) is None
                    &&& reader.wf()
                    &&& reader@ == (WbfsImage {
                        header: *header,
                        map: words(block_map@),
                        nkit: None,
                    })
                },
                Err(e) => wbfs_fault(*header, file_len, disc_table@) == Some(e),
            },
    {
        if let Err(e) = header.check_magic() {
            return Err(e);
        }
        if let Err(e) = header.check_file_size(file_len) {
            return Err(e);
        }
        proof {
            lemma_size(header.sector_size_shift as nat);
        }
        if let Err(e) = check_disc_table(disc_table) {
            return Err(e);
        }
        let count: usize = header.max_blocks() as usize;
        let mut map: Vec<u16> = Vec::new();
        let mut i: usize = 0;
        while i < count
            invariant
                i <= count,
                block_map@.len() == 2 * count,
                block_map@.len() <= usize::MAX,
                map@.len() == i,
                forall|k: int| 0 <= k < i ==> #[trigger] map@[k] == words(block_map@)[k],
            decreases count - i,
        {
            map.push(read_be_u16(slice_subrange(block_map, 2 * i, 2 * i + 2)));
            i += 1;
        }
        assert(map@ =~= words(block_map@));
        Ok(BlockReaderWBFS { header: *header, block_map: map, nkit_header: None })
    }

    /// Where the NKit header is to be read.
    pub fn nkit_offset(&self) -> (r: u64)
        ensures
            r == NKIT_HEADER_OFFSET,
    {
        NKIT_HEADER_OFFSET
    }

    /// Takes the NKit header that was read.
    pub fn set_nkit_header(&mut self, nkit_header: Option<NKitHeader>)
        ensures
            final(self)@ == (WbfsImage { nkit: nkit_header, ..old(self)@ }),
    {
        self.nkit_header = nkit_header;
    }

    /// Finds the block that a sector lies in, and where it stands in the file if it is stored.
    pub fn read_block(&self, sector: u32) -> (r: (Block, Option<u64>))
        requires
            self.wf(),
        ensures
            r.0 == self@.find(sector).0,
            match r.1 {
                Some(offset) => self@.find(sector).1 == Some(offset as int),
                None => self@.find(sector).1 is None,
            },
    {
        let block_size: u32 = self.header.block_size();
        proof {
            lemma_size(self.header.block_size_shift as nat);
        }
        let block_idx: u32 = block_number(sector, block_size);
        if block_idx >= self.header.max_blocks() {
            // Out of bounds
            return (Block { block_idx, block_size, kind: BlockKind::OutOfBounds }, None);
        }
        // Find the block in the map
        let phys_block: u16 = self.block_map[block_idx as usize];
        if phys_block == 0 {
            // Check if block is junk data
            let junk: Option<bool> = match &self.nkit_header {
                Some(header) => header.is_junk_block(block_idx),
                None => None,
            };
            let kind: BlockKind = match junk {
                Some(true) => BlockKind::Junk,
                // Otherwise, read zeroes
                _ => BlockKind::Zero,
            };
            return (Block { block_idx, block_size, kind }, None);
        }
        proof {
            assert(block_size * phys_block <= 0x1_0000_0000 * 0x1_0000) by (nonlinear_arith)
                requires
                    0 <= phys_block <= 0x1_0000,
                    0 <= block_size <= 0x1_0000_0000,
            ;
        }
        let block_start: u64 = block_size as u64 * phys_block as u64;
        (Block { block_idx, block_size, kind: BlockKind::Raw }, Some(block_start))
    }

    /// Size in bytes of a block.
    pub fn block_size(&self) -> (r: u32)
        requires
            self.wf(),
        ensures
            r == self@.header.block_bytes(),
    {
        self.header.block_size()
    }

    /// What the image says about itself.
    pub fn meta(&self) -> (r: DiscMeta)
        requires
            self.wf(),
        ensures
            r == DiscMeta::of(Format::Wbfs, self@.header.block_bytes() as u32, self@.nkit),
    {
        DiscMeta::new(Format::Wbfs, self.header.block_size(), &self.nkit_header)
    }
}

/// Processes the blocks of a WBFS file.
pub struct BlockProcessorWBFS {
    classifier: BlockClassifier,
}

impl BlockProcessor for BlockProcessorWBFS {
    type BlockMeta = CheckBlockResult;

    closed spec fn settings(&self) -> ProcessorView {
        self.classifier@
    }

    closed spec fn wf(&self) -> bool {
        self.classifier.wf()
    }

    open spec fn gives(
        settings: ProcessorView,
        block_idx: u32,
        block_data: Seq<u8>,
        disc_data: Seq<u8>,
        result: Result<BlockResult<CheckBlockResult>, Error>,
    ) -> bool {
        settings.gives(block_idx, block_data, disc_data, result)
    }

    fn input_position(&self, block_idx: u32) -> (position: u64) {
        self.classifier.input_position(block_idx)
    }

    fn process_block(&mut self, block_idx: u32, block_data: Bytes, disc_data: Bytes) -> (result:
        Result<BlockResult<CheckBlockResult>, Error>) {
        self.classifier.process(block_idx, block_data, disc_data)
    }

    fn clone_with(&self, decrypted_block: Vec<u8>) -> (copy: Self) {
        BlockProcessorWBFS { classifier: self.classifier.clone_with(decrypted_block) }
    }

    fn try_clone(&self) -> (r: Result<Self, Error>) {
        match zeroed_bytes(self.classifier.block_size() as usize) {
            Ok(decrypted_block) => Ok(self.clone_with(decrypted_block)),
            Err(e) => Err(e),
        }
    }
}

/// The header of a file with blocks of `2^shift` bytes, before its size is known.
pub open spec fn is_fresh(header: WBFSHeader, shift: int) -> bool {
    &&& header.magic@ == WBFS_MAGIC@
    &&& header.num_sectors == 0
    &&& header.sector_size_shift == 9
    &&& header.block_size_shift == shift
    &&& header.version == 1
    &&& header.pad == 0
}

/// The disc table of a file with one disc.
pub open spec fn single_disc_table() -> Seq<u8> {
    Seq::new(
        500,
        |i: int|
            if i == 0 {
                1u8
            } else {
                0u8
            },
    )
}

/// The exponent of the largest power of two that divides a block size.
pub open spec fn block_shift(block_size: u32) -> int {
    u32_trailing_zeros(block_size) as int
}

/// How many entries the map has if blocks have `2^shift` bytes.
pub open spec fn map_len(shift: int) -> nat {
    NUM_WII_SECTORS as nat / pow2((shift - 15) as nat)
}

/// Size in bytes of the header, the disc table, the copy of the disc header and the map.
pub open spec fn info_size(shift: int) -> nat {
    768 + 2 * map_len(shift)
}

/// Why a disc cannot be written as asked for.
pub open spec fn wbfs_refusal(disc_size: u64, options: FormatOptions) -> Option<Error> {
    if options.format != Format::Wbfs {
        Some(Error::WbfsFormat)
    } else if options.compression != Compression::Store {
        Some(Error::WbfsCompression)
    } else if options.block_size < 0x8000 || options.block_size % 0x8000 != 0 {
        Some(Error::WbfsBlockSize)
    } else if div_up(disc_size as int, options.block_size as int) > u16::MAX {
        Some(Error::WbfsBlockCount)
    } else if info_size(block_shift(options.block_size)) > options.block_size {
        Some(Error::WbfsInfoTooLarge)
    } else {
        None
    }
}

/// The exponent of a block size lies in range.
pub proof fn lemma_block_shift(block_size: u32)
    requires
        block_size >= 0x8000,
        block_size % 0x8000 == 0,
    ensures
        15 <= block_shift(block_size) < 32,
{
    axiom_u32_trailing_zeros(block_size);
    let t = u32_trailing_zeros(block_size);
    if t < 15 {
        assert((block_size >> t) & 1u32 == 0u32) by (bit_vector)
            requires
                block_size % 0x8000 == 0,
                t < 15,
        ;
    }
}

/// The exponent of a power of two.
pub proof fn law_block_shift(shift: u32)
    requires
        shift < 32,
    ensures
        block_shift(pow2(shift as nat) as u32) == shift,
{
    lemma_size(shift as nat);
    lemma_u32_shl_is_mul(1, shift);
    let size = 1u32 << shift;
    assert(size != 0) by (bit_vector)
        requires
            size == 1u32 << shift,
            shift < 32,
    ;
    axiom_u32_trailing_zeros(size);
    let t = u32_trailing_zeros(size);
    assert(t == shift) by (bit_vector)
        requires
            size == 1u32 << shift,
            shift < 32,
            t < 32,
            (size >> t) & 1u32 == 1u32,
    ;
}

/// A writer for WBFS files.
pub struct DiscWriterWBFS {
    header: WBFSHeader,
    disc_table: Vec<u8>,
    block_count: u16,
    disc_size: u64,
}

impl DiscWriterWBFS {
    /// The exponent of the size of a block.
    pub closed spec fn shift(&self) -> int {
        self.header.block_size_shift as int
    }

    /// A writer for a disc that is split in `block_count` blocks, given an empty disc table.
    /// `header` is the header for the block size.
    pub fn with_table(
        disc_size: u64,
        block_size: u32,
        block_count: u16,
        header: WBFSHeader,
        table: Vec<u8>,
    ) -> (r: Result<DiscWriterWBFS, Error>)
        requires
            15 <= block_shift(block_size) < 32,
            is_fresh(header, block_shift(block_size)),
            table@ == Seq::new(500, |i: int| 0u8),
        ensures
            match r {
                Ok(writer) => {
                    &&& info_size(block_shift(block_size)) <= block_size
                    &&& writer.wf()
                    &&& writer.size() == disc_size
                    &&& writer.blocks() == block_count
                    &&& writer.shift() == block_shift(block_size)
                    &&& writer.unit() == pow2(writer.shift() as nat)
                },
                Err(e) => info_size(block_shift(block_size)) > block_size && e
                    == Error::WbfsInfoTooLarge,
            },
    {
        let mut disc_table: Vec<u8> = table;
        disc_table.set(0, 1);
        assert(disc_table@ =~= single_disc_table());

        let header_size: usize = WBFS_HEADER_SIZE + disc_table.len() + DISC_HEADER_SIZE
            + header.max_blocks() as usize * 2;
        if header_size > block_size as usize {
            return Err(Error::WbfsInfoTooLarge);
        }
        proof {
            lemma_size(header.block_size_shift as nat);
        }
        Ok(DiscWriterWBFS { header, disc_table, block_count, disc_size })
    }

    /// A writer for a disc of the given size. What the options rule out is refused. What becomes
    /// of the rest is what [`DiscWriterWBFS::with_table`] says, unless there is no memory for the
    /// disc table.
    pub fn new(disc_size: u64, options: &FormatOptions) -> (r: Result<DiscWriterWBFS, Error>)
        ensures
            match r {
                Ok(writer) => {
                    &&& wbfs_refusal(disc_size, *options) is None
                    &&& writer.wf()
                    &&& writer.size() == disc_size
                    &&& writer.blocks() == div_up(disc_size as int, options.block_size as int)
                    &&& writer.shift() == block_shift(options.block_size)
                    &&& writer.unit() == pow2(writer.shift() as nat)
                },
                Err(e) => wbfs_refusal(disc_size, *options) == Some(e) || (e == Error::OutOfMemory
                    && !(wbfs_refusal(disc_size, *options) matches Some(f) && f
                    != Error::WbfsInfoTooLarge)),
            },
    {
        if options.format != Format::Wbfs {
            return Err(Error::WbfsFormat);
        }
        if options.compression != Compression::Store {
            return Err(Error::WbfsCompression);
        }
        let block_size: u32 = options.block_size;
        if block_size < SECTOR_SIZE as u32 || block_size % SECTOR_SIZE as u32 != 0 {
            return Err(Error::WbfsBlockSize);
        }
        let size: u64 = block_size as u64;
        let whole: u64 = disc_size / size;
        proof {
            assert(disc_size as int / size as int <= disc_size as int / 0x8000) by (nonlinear_arith)
                requires
                    size >= 0x8000,
                    disc_size >= 0,
            ;
        }
        let block_count: u64 = if disc_size % size == 0 {
            whole
        } else {
            whole + 1
        };
        if block_count > u16::MAX as u64 {
            return Err(Error::WbfsBlockCount);
        }
        // Create header
        proof {
            lemma_block_shift(block_size);
        }
        let shift: u32 = block_size.trailing_zeros();
        let header: WBFSHeader = WBFSHeader {
            magic: WBFS_MAGIC,
            // Written during finalization
            num_sectors: 0,
            sector_size_shift: 9,
            block_size_shift: shift as u8,
            version: 1,
            pad: 0,
        };
        // Create disc table
        match zeroed_bytes(512 - WBFS_HEADER_SIZE) {
            Ok(table) => Self::with_table(
                disc_size,
                block_size,
                block_count as u16,
                header,
                table,
            ),
            Err(e) => Err(e),
        }
    }
}

/// What has been written of a WBFS file.
pub struct WbfsProgress {
    /// The header, before the size of the file is known.
    pub header: WBFSHeader,
    /// The disc table.
    pub table: Seq<u8>,
    /// The copy of the disc header.
    pub disc_header: Seq<u8>,
    /// Which block of the file holds a block of the disc; zero if none does.
    pub map: Seq<u16>,
    /// Which blocks are junk.
    pub junk: Seq<bool>,
    /// Number of blocks of the file.
    pub phys: int,
    /// How much of the disc has been processed.
    pub position: int,
    /// Size in bytes of the disc.
    pub disc_size: u64,
}

impl WbfsProgress {
    /// Before any block has been written.
    pub open spec fn start(header: WBFSHeader, disc_header: Seq<u8>, disc_size: u64) -> Self {
        WbfsProgress {
            header,
            table: single_disc_table(),
            disc_header: disc_header.take(0x100),
            map: Seq::new(header.entries(), |i: int| 0u16),
            junk: Seq::new(junk_capacity(header.block_bytes() as u32) as nat, |i: int| false),
            phys: 1,
            position: 0,
            disc_size,
        }
    }

    /// After one more block.
    pub open spec fn after(self, block: CheckedBlock) -> WbfsProgress {
        let position = self.position + contents(block.disc_data).len();
        match block.meta {
            CheckBlockResult::Normal => WbfsProgress {
                map: self.map.update(block.block_idx as int, self.phys as u16),
                phys: self.phys + 1,
                position,
                ..self
            },
            CheckBlockResult::Zeroed => WbfsProgress { position, ..self },
            CheckBlockResult::Junk => WbfsProgress {
                junk: with_bit(self.junk, block.block_idx as int, true),
                position,
                ..self
            },
        }
    }

    /// After the first `k` blocks.
    pub open spec fn after_all(self, blocks: Seq<CheckedBlock>, k: int) -> WbfsProgress
        decreases k,
    {
        if k <= 0 {
            self
        } else {
            self.after_all(blocks, k - 1).after(blocks[k - 1])
        }
    }

    /// The size of the file in WBFS sectors. Sector counts have 32 bits.
    pub open spec fn sectors(self) -> u32 {
        ((self.phys * self.header.block_bytes() / self.header.sector_bytes() as int)
            % 0x1_0000_0000) as u32
    }

    /// The header of the complete file.
    pub open spec fn final_header(self) -> WBFSHeader {
        WBFSHeader { num_sectors: self.sectors(), ..self.header }
    }

    /// What the file starts with, given its header.
    pub open spec fn info(self, header: WBFSHeader) -> Seq<u8> {
        header.encoded() + self.table + self.disc_header + word_bytes(self.map)
    }

    /// The first block as long as the file is not complete.
    pub open spec fn placeholder(self) -> Seq<u8> {
        padded(self.info(self.header), self.header.block_bytes())
    }

    /// What the complete file starts with.
    pub open spec fn final_info(self, nkit: Seq<u8>) -> Seq<u8> {
        padded(self.info(self.final_header()), NKIT_HEADER_OFFSET as nat) + nkit
    }

    /// Whether the parts fit each other.
    pub open spec fn wf(self) -> bool {
        &&& self.header.has_blocks()
        &&& self.header.sector_size_shift == 9
        &&& self.table.len() == 500
        &&& self.disc_header.len() == DISC_HEADER_SIZE
        &&& self.map.len() == self.header.entries()
        &&& 1 <= self.phys <= u16::MAX
    }
}

/// A WBFS file that is being written.
pub struct ProcessWBFS {
    header: WBFSHeader,
    disc_table: Vec<u8>,
    disc_header: Vec<u8>,
    block_map: Vec<u16>,
    junk_bits: JunkBits,
    phys_block: u16,
    input_position: u64,
    disc_size: u64,
}

impl View for ProcessWBFS {
    type V = WbfsProgress;

    closed spec fn view(&self) -> WbfsProgress {
        WbfsProgress {
            header: self.header,
            table: self.disc_table@,
            disc_header: self.disc_header@,
            map: self.block_map@,
            junk: self.junk_bits@,
            phys: self.phys_block as int,
            position: self.input_position as int,
            disc_size: self.disc_size,
        }
    }
}

/// The map as it stands in the file.
fn map_bytes(map: &Vec<u16>) -> (bytes: Vec<u8>)
    ensures
        bytes@ == word_bytes(map@),
{
    let mut bytes: Vec<u8> = Vec::new();
    let mut i: usize = 0;
    while i < map.len()
        invariant
            i <= map@.len(),
            bytes@.len() == 2 * i,
            forall|k: int| 0 <= k < bytes@.len() ==> #[trigger] bytes@[k] == word_bytes(map@)[k],
        decreases map@.len() - i,
    {
        let word: [u8; 2] = be_u16_bytes(map[i]);
        bytes.push(word[0]);
        bytes.push(word[1]);
        i += 1;
    }
    assert(bytes@ =~= word_bytes(map@));
    bytes
}

/// What the file starts with, cut or filled up to `len` bytes.
fn info_buffer(
    header: &WBFSHeader,
    disc_table: &Vec<u8>,
    disc_header: &Vec<u8>,
    block_map: &Vec<u16>,
    capacity: usize,
    len: usize,
) -> (buf: BytesMut)
    requires
        disc_table@.len() == 500,
        disc_header@.len() == DISC_HEADER_SIZE,
        block_map@.len() <= NUM_WII_SECTORS,
        capacity <= isize::MAX,
        2 * len <= isize::MAX,
    ensures
        contents_mut(buf) == padded(
            header.encoded() + disc_table@ + disc_header@ + word_bytes(block_map@),
            len as nat,
        ),
{
    let mut buf: BytesMut = bytes_mut_with_capacity(capacity);
    let header_bytes: Vec<u8> = header.to_bytes();
    let map: Vec<u8> = map_bytes(block_map);
    assert(header.encoded().len() == 12);
    bytes_mut_put_slice(&mut buf, header_bytes.as_slice());
    bytes_mut_put_slice(&mut buf, disc_table.as_slice());
    bytes_mut_put_slice(&mut buf, disc_header.as_slice());
    bytes_mut_put_slice(&mut buf, map.as_slice());
    let ghost info = header.encoded() + disc_table@ + disc_header@ + word_bytes(block_map@);
    assert(contents_mut(buf) =~= info);
    bytes_mut_resize(&mut buf, len, 0);
    assert(contents_mut(buf) =~= padded(info, len as nat));
    buf
}

impl DiscWriterWBFS {
    /// Starts an image with an empty map, which has an entry per block. `disc_header` is the start
    /// of the disc.
    pub fn begin_with(&self, disc_header: &[u8], map: Vec<u16>) -> (r: (WriteChunk, ProcessWBFS))
        requires
            self.wf(),
            2 * self.unit() <= isize::MAX,
            disc_header@.len() >= DISC_HEADER_SIZE,
            map@ == Seq::new(map_len(self.shift()), |i: int| 0u16),
        ensures
            r.1.wf(),
            self.begins(disc_header@, r.0, r.1),
    {
        proof {
            lemma_size(self.header.block_size_shift as nat);
        }
        let block_size: u32 = self.header.block_size();
        let max_blocks: u32 = self.header.max_blocks();
        assert(map@.len() == max_blocks);
        let process: ProcessWBFS = ProcessWBFS {
            header: self.header,
            disc_table: slice_to_vec(self.disc_table.as_slice()),
            disc_header: slice_to_vec(slice_subrange(disc_header, 0, DISC_HEADER_SIZE)),
            block_map: map,
            junk_bits: JunkBits::new(block_size),
            phys_block: 1,
            input_position: 0,
            disc_size: self.disc_size,
        };
        let first: BytesMut = info_buffer(
            &process.header,
            &process.disc_table,
            &process.disc_header,
            &process.block_map,
            block_size as usize,
            block_size as usize,
        );
        proof {
            let start = WbfsProgress::start(self.header, disc_header@, self.disc_size);
            assert(process@.junk =~= start.junk);
            assert(process@.map =~= start.map);
            assert(process@.table =~= start.table);
            assert(process@.disc_header =~= start.disc_header);
        }
        (
            WriteChunk { data: bytes_mut_freeze(first), position: 0, total: self.disc_size },
            process,
        )
    }
}

impl DiscWriter for DiscWriterWBFS {
    type Processor = BlockProcessorWBFS;

    type Process = ProcessWBFS;

    closed spec fn size(&self) -> u64 {
        self.disc_size
    }

    closed spec fn blocks(&self) -> int {
        self.block_count as int
    }

    closed spec fn unit(&self) -> u32 {
        self.header.block_bytes() as u32
    }

    closed spec fn wf(&self) -> bool {
        &&& 15 <= self.header.block_size_shift < 32
        &&& is_fresh(self.header, self.header.block_size_shift as int)
        &&& self.disc_table@ == single_disc_table()
    }

    open spec fn begins(
        &self,
        disc_header: Seq<u8>,
        first: WriteChunk,
        process: ProcessWBFS,
    ) -> bool {
        &&& is_fresh(process@.header, self.shift())
        &&& process@ == WbfsProgress::start(process@.header, disc_header, self.size())
        &&& first.is(process@.placeholder(), 0, self.size())
    }

    fn block_count(&self) -> (r: u32) {
        self.block_count as u32
    }

    fn block_size(&self) -> (r: u32) {
        proof {
            lemma_size(self.header.block_size_shift as nat);
        }
        self.header.block_size()
    }

    fn processor_with(
        &self,
        partitions: Vec<PartitionInfo>,
        header: &DiscHeader,
        scrub: ScrubLevel,
        decrypted_block: Vec<u8>,
    ) -> (processor: BlockProcessorWBFS) {
        proof {
            lemma_size(self.header.block_size_shift as nat);
        }
        let scrub_update_partition: bool = scrub == ScrubLevel::UpdatePartition;
        let classifier: BlockClassifier = BlockClassifier::with_buffer(
            self.header.block_size(),
            partitions,
            header.junk_id(),
            header.disc_num,
            scrub_update_partition,
            decrypted_block,
        );
        BlockProcessorWBFS { classifier }
    }

    fn processor(
        &self,
        partitions: Vec<PartitionInfo>,
        header: &DiscHeader,
        scrub: ScrubLevel,
    ) -> (r: Result<BlockProcessorWBFS, Error>) {
        match zeroed_bytes(self.block_size() as usize) {
            Ok(decrypted_block) => Ok(
                self.processor_with(partitions, header, scrub, decrypted_block),
            ),
            Err(e) => Err(e),
        }
    }

    fn begin(&self, disc_header: &[u8]) -> (r: Result<(WriteChunk, ProcessWBFS), Error>) {
        match zeroed_words(self.header.max_blocks() as usize) {
            Ok(map) => Ok(self.begin_with(disc_header, map)),
            Err(e) => Err(e),
        }
    }

    fn progress_bound(&self) -> (r: u64) {
        self.disc_size
    }

    fn weight(&self) -> (r: DiscWriterWeight)
        ensures
            r == DiscWriterWeight::Medium,
    {
        DiscWriterWeight::Medium
    }
}

impl WriteProcess for ProcessWBFS {
    open spec fn wf(&self) -> bool {
        &&& self@.wf()
        &&& self@.header.block_bytes() <= isize::MAX
    }

    open spec fn takes(&self, block: CheckedBlock) -> bool {
        &&& block.meta == CheckBlockResult::Normal ==> block.block_idx < self@.map.len()
            && self@.phys < u16::MAX
        &&& self@.position + contents(block.disc_data).len() <= u64::MAX
    }

    open spec fn advances(&self, block: CheckedBlock, chunk: WriteChunk, after: Self) -> bool {
        &&& after@ == self@.after(block)
        &&& chunk.is(contents(block.block_data), after@.position, self@.disc_size)
    }

    open spec fn described_by(&self, results: Seq<DigestResult>, header: NKitHeader) -> bool {
        &&& header.version == 2
        &&& header.size == Some(self@.disc_size)
        &&& header.digests == Digests::unknown().with_all(results)
        &&& header.junk_bits matches Some(map)
        &&& map@ == self@.junk
        &&& header.encrypted
    }

    open spec fn holds(nkit_len: nat) -> bool {
        2 * (NKIT_HEADER_OFFSET + nkit_len) <= isize::MAX
    }

    open spec fn concludes(
        &self,
        nkit: Seq<u8>,
        results: Seq<DigestResult>,
        last: Option<WriteChunk>,
        finalization: DiscFinalization,
    ) -> bool {
        &&& last is None
        &&& contents(finalization.header) == self@.final_info(nkit)
        &&& finalization.digests == Digests::unknown().with_all(results)
    }

    fn can_take(&self, block: &CheckedBlock) -> (r: bool) {
        let disc_data_len: u64 = bytes_as_ref(&block.disc_data).len() as u64;
        let placed: bool = match block.meta {
            CheckBlockResult::Normal => block.block_idx < self.header.max_blocks()
                && self.phys_block < u16::MAX,
            _ => true,
        };
        placed && disc_data_len <= u64::MAX - self.input_position
    }

    fn write_block(&mut self, block: CheckedBlock) -> (chunk: WriteChunk) {
        let disc_data_len: u64 = bytes_as_ref(&block.disc_data).len() as u64;
        match block.meta {
            CheckBlockResult::Normal => {
                self.block_map.set(block.block_idx as usize, self.phys_block);
                self.phys_block = self.phys_block + 1;
            },
            CheckBlockResult::Zeroed => {},
            CheckBlockResult::Junk => {
                self.junk_bits.set(block.block_idx, true);
            },
        }
        self.input_position = self.input_position + disc_data_len;
        WriteChunk {
            data: block.block_data,
            position: self.input_position,
            total: self.disc_size,
        }
    }

    fn nkit_header(&self, results: &[DigestResult]) -> (header: NKitHeader) {
        let mut header: NKitHeader = NKitHeader {
            version: 2,
            size: Some(self.disc_size),
            digests: Digests::new(),
            junk_bits: Some(self.junk_bits.clone()),
            encrypted: true,
        };
        header.apply_digests(results);
        header
    }

    fn finish(self, nkit: &[u8], results: &[DigestResult]) -> (r: (
        Option<WriteChunk>,
        DiscFinalization,
    )) {
        proof {
            lemma_size(self.header.block_size_shift as nat);
            lemma_size(self.header.sector_size_shift as nat);
        }
        let block_size: u32 = self.header.block_size();
        let sector_size: u32 = self.header.sector_size();
        let max_blocks: u32 = self.header.max_blocks();
        // Update header
        proof {
            assert(self.phys_block * block_size <= 0x1_0000 * 0x1_0000_0000) by (nonlinear_arith)
                requires
                    0 <= self.phys_block <= 0x1_0000,
                    0 <= block_size <= 0x1_0000_0000,
            ;
        }
        let sectors: u64 = self.phys_block as u64 * block_size as u64 / sector_size as u64;
        assert(sectors as u32 == sectors % 0x1_0000_0000) by (bit_vector);
        let num_sectors: u32 = #[verifier::truncate]
        (sectors as u32);
        let header: WBFSHeader = WBFSHeader {
            magic: self.header.magic,
            num_sectors,
            sector_size_shift: self.header.sector_size_shift,
            block_size_shift: self.header.block_size_shift,
            version: self.header.version,
            pad: self.header.pad,
        };
        assert(header == self@.final_header());
        let mut header_data: BytesMut = info_buffer(
            &header,
            &self.disc_table,
            &self.disc_header,
            &self.block_map,
            block_size as usize,
            NKIT_HEADER_OFFSET as usize,
        );
        bytes_mut_put_slice(&mut header_data, nkit);
        let mut finalization: DiscFinalization = DiscFinalization {
            header: bytes_mut_freeze(header_data),
            digests: Digests::new(),
        };
        finalization.apply_digests(results);
        (None, finalization)
    }
}

/// The blocks cover the whole disc, and one block less would not, if their size is a power of two.
pub proof fn law_wbfs_blocks_cover_disc(disc_size: u64, shift: u32)
    requires
        15 <= shift < 32,
    ensures
        ({
            let block_size = pow2(shift as nat) as u32;
            let count = div_up(disc_size as int, block_size as int);
            &&& pow2(block_shift(block_size) as nat) == block_size
            &&& disc_size <= count * block_size
            &&& disc_size > 0 ==> (count - 1) * block_size < disc_size
        }),
{
    lemma_size(shift as nat);
    law_block_shift(shift);
    lemma_div_up(disc_size as int, pow2(shift as nat) as int);
}

/// The file that becomes of a disc with the given blocks, and an encoded NKit header: what
/// completes it is put over the start of the first block.
pub open spec fn wbfs_file(start: WbfsProgress, blocks: Seq<CheckedBlock>, nkit: Seq<u8>) -> Seq<
    u8,
> {
    let n = blocks.len() as int;
    let info = start.after_all(blocks, n).final_info(nkit);
    info + start.placeholder().skip(info.len() as int) + stored_data(blocks, n)
}

/// Whether `start` is the begin of a file with blocks of `block_size` bytes, and the blocks and
/// the NKit header can be written to it.
///
/// All tables fit in the first block, and so does the NKit header. The map has an entry for each
/// block that is stored. The size of the file in WBFS sectors has 32 bits.
pub open spec fn can_write(
    start: WbfsProgress,
    block_size: u32,
    blocks: Seq<CheckedBlock>,
    nkit: Seq<u8>,
) -> bool {
    &&& is_fresh(start.header, start.header.block_size_shift as int)
    &&& start.header.has_blocks()
    &&& start.header.block_bytes() == block_size
    &&& start.disc_header.len() == DISC_HEADER_SIZE
    &&& start == WbfsProgress::start(start.header, start.disc_header, start.disc_size)
    &&& is_sequence(blocks, block_size)
    &&& forall|i: int|
        0 <= i < blocks.len() && (#[trigger] blocks[i]).meta == CheckBlockResult::Normal ==> i
            < start.header.entries()
    &&& info_size(start.header.block_size_shift as int) <= block_size
    &&& NKIT_HEADER_OFFSET + nkit.len() <= block_size
    &&& stored_before(blocks, blocks.len() as int) < u16::MAX
    &&& (stored_before(blocks, blocks.len() as int) + 1) * block_size < 0x200_0000_0000
}

/// The stages of an image, and the pieces that are written.
proof fn lemma_writing(
    states: Seq<ProcessWBFS>,
    blocks: Seq<CheckedBlock>,
    chunks: Seq<WriteChunk>,
    k: int,
)
    requires
        is_writing(states, blocks, chunks),
        0 <= k <= blocks.len(),
    ensures
        states[k]@ == states[0]@.after_all(blocks, k),
        pieces(chunks, k) == stored_data(blocks, k),
    decreases k,
{
    if k > 0 {
        lemma_writing(states, blocks, chunks, k - 1);
        assert(states[k - 1].advances(blocks[k - 1], chunks[k - 1], states[k]));
    }
}

/// What the calls of a writer give, put together, is the file of the disc.
///
/// What completes the file has to fit in the first block.
pub proof fn law_wbfs_writes_file(
    writer: DiscWriterWBFS,
    disc_header: Seq<u8>,
    first: WriteChunk,
    states: Seq<ProcessWBFS>,
    blocks: Seq<CheckedBlock>,
    chunks: Seq<WriteChunk>,
    nkit: Seq<u8>,
    results: Seq<DigestResult>,
    last: Option<WriteChunk>,
    finalization: DiscFinalization,
)
    requires
        disc_header.len() >= DISC_HEADER_SIZE,
        is_writing(states, blocks, chunks),
        writer.begins(disc_header, first, states[0]),
        states.last().concludes(nkit, results, last, finalization),
        NKIT_HEADER_OFFSET + nkit.len() <= states[0]@.header.block_bytes(),
    ensures
        ({
            let start = states[0]@;
            &&& last is None
            &&& completed(
                contents(first.data) + pieces(chunks, blocks.len() as int),
                contents(finalization.header),
            ) == wbfs_file(start, blocks, nkit)
            &&& is_fresh(start.header, writer.shift())
            &&& start.disc_header == disc_header.take(0x100)
            &&& start == WbfsProgress::start(start.header, start.disc_header, start.disc_size)
        }),
{
    let n = blocks.len() as int;
    let start = states[0]@;
    lemma_writing(states, blocks, chunks, n);
    let info = contents(finalization.header);
    assert(info == start.after_all(blocks, n).final_info(nkit));
    assert(info.len() == NKIT_HEADER_OFFSET + nkit.len());
    assert(completed(contents(first.data) + pieces(chunks, n), info) =~= wbfs_file(
        start,
        blocks,
        nkit,
    ));
    assert(disc_header.take(0x100).take(0x100) =~= disc_header.take(0x100));
}

/// Two headers that look the same in the file are the same.
proof fn lemma_encoded(a: WBFSHeader, b: WBFSHeader)
    requires
        a.encoded() == b.encoded(),
    ensures
        a.magic@ == b.magic@,
        a.num_sectors == b.num_sectors,
        a.sector_size_shift == b.sector_size_shift,
        a.block_size_shift == b.block_size_shift,
{
    assert(a.magic@ =~= a.encoded().subrange(0, 4));
    assert(b.magic@ =~= b.encoded().subrange(0, 4));
    assert(be_u32_seq(a.num_sectors) =~= a.encoded().subrange(4, 8));
    assert(be_u32_seq(b.num_sectors) =~= b.encoded().subrange(4, 8));
    law_be_u32_round_trip(a.num_sectors);
    law_be_u32_round_trip(b.num_sectors);
    assert(a.encoded()[8] == a.sector_size_shift && a.encoded()[9] == a.block_size_shift);
    assert(b.encoded()[8] == b.sector_size_shift && b.encoded()[9] == b.block_size_shift);
}

/// What the maps say after the first `k` blocks.
#[verifier::rlimit(40)]
proof fn lemma_progress(
    start: WbfsProgress,
    block_size: u32,
    blocks: Seq<CheckedBlock>,
    nkit: Seq<u8>,
    k: int,
)
    requires
        can_write(start, block_size, blocks, nkit),
        0 <= k <= blocks.len(),
    ensures
        ({
            let p = start.after_all(blocks, k);
            &&& p.header == start.header
            &&& p.table == start.table
            &&& p.disc_header == start.disc_header
            &&& p.phys == stored_before(blocks, k) + 1
            &&& stored_before(blocks, k) <= stored_before(blocks, blocks.len() as int)
            &&& p.map.len() == start.header.entries()
            &&& p.junk.len() == junk_capacity(block_size)
            &&& forall|i: int|
                0 <= i < p.map.len() ==> #[trigger] p.map[i] == if i < k && blocks[i].meta
                    == CheckBlockResult::Normal {
                    (stored_before(blocks, i) + 1) as u16
                } else {
                    0u16
                }
            &&& forall|i: int|
                0 <= i < p.junk.len() ==> #[trigger] p.junk[i] == (i < k && blocks[i].meta
                    == CheckBlockResult::Junk)
        }),
    decreases k,
{
    if k > 0 {
        lemma_progress(start, block_size, blocks, nkit, k - 1);
        lemma_stored_grows(blocks, k);
        assert(blocks[k - 1].block_idx == k - 1);
    } else {
        lemma_size(start.header.block_size_shift as nat);
        lemma_div_up(DL_DVD_SIZE as int, block_size as int);
        lemma_div_up(div_up(DL_DVD_SIZE as int, block_size as int), 8);
        lemma_stored_grows(blocks, k);
    }
}

/// No more blocks are stored before a block than in all.
proof fn lemma_stored_grows(blocks: Seq<CheckedBlock>, k: int)
    requires
        k <= blocks.len(),
    ensures
        stored_before(blocks, k) <= stored_before(blocks, blocks.len() as int),
    decreases blocks.len() - k,
{
    if k < blocks.len() {
        lemma_stored_grows(blocks, k + 1);
        assert(stored_before(blocks, k) <= stored_before(blocks, k + 1));
    }
}

/// How the complete file is laid out.
#[verifier::rlimit(40)]
proof fn lemma_layout(
    start: WbfsProgress,
    block_size: u32,
    blocks: Seq<CheckedBlock>,
    nkit: Seq<u8>,
)
    requires
        can_write(start, block_size, blocks, nkit),
    ensures
        ({
            let n = blocks.len() as int;
            let end = start.after_all(blocks, n);
            let file = wbfs_file(start, blocks, nkit);
            let info = end.info(end.final_header());
            &&& file.len() == end.phys * block_size
            &&& file.len() >= block_size
            &&& info.len() == info_size(start.header.block_size_shift as int)
            &&& forall|i: int|
                0 <= i < NKIT_HEADER_OFFSET && i < info.len() ==> #[trigger] file[i] == info[i]
            &&& file.subrange(
                NKIT_HEADER_OFFSET as int,
                NKIT_HEADER_OFFSET + nkit.len(),
            ) == nkit
        }),
{
    let n = blocks.len() as int;
    let end = start.after_all(blocks, n);
    let file = wbfs_file(start, blocks, nkit);
    let info = end.info(end.final_header());
    let head = end.final_info(nkit);
    let stored = stored_before(blocks, n) as int;
    lemma_progress(start, block_size, blocks, nkit, n);
    lemma_stored_len(blocks, block_size, n);
    assert((stored + 1) * block_size == stored * block_size + block_size) by (nonlinear_arith);
    assert(stored * block_size >= 0) by (nonlinear_arith)
        requires
            stored >= 0,
    ;
    assert(end.final_header().encoded().len() == 12);
    assert(head.len() == NKIT_HEADER_OFFSET + nkit.len());
    assert(start.placeholder().len() == block_size);
    assert(file.len() == block_size + stored_data(blocks, n).len());
    assert(file.subrange(NKIT_HEADER_OFFSET as int, NKIT_HEADER_OFFSET + nkit.len()) =~= nkit);
    assert forall|i: int| 0 <= i < NKIT_HEADER_OFFSET && i < info.len() implies #[trigger] file[i]
        == info[i] by {
        assert(file[i] == head[i]);
    }
}

/// A file that was written can be opened: its header and its disc table are valid, and the NKit
/// header stands where the reader looks for it.
///
/// `header` is the header as it was read from the file.
#[verifier::rlimit(40)]
pub proof fn law_wbfs_opens(
    start: WbfsProgress,
    block_size: u32,
    blocks: Seq<CheckedBlock>,
    nkit: Seq<u8>,
    header: WBFSHeader,
)
    requires
        can_write(start, block_size, blocks, nkit),
        header.encoded() == wbfs_file(start, blocks, nkit).subrange(0, 12),
    ensures
        ({
            let file = wbfs_file(start, blocks, nkit);
            let table = file.subrange(12, 512);
            &&& header.sector_bytes() == 512
            &&& header.has_blocks()
            &&& header.block_bytes() == block_size
            &&& file.len() <= u64::MAX
            &&& wbfs_fault(header, file.len() as u64, table) is None
            &&& 768 + 2 * header.entries() <= file.len()
            &&& file.subrange(NKIT_HEADER_OFFSET as int, NKIT_HEADER_OFFSET + nkit.len()) == nkit
        }),
{
    let n = blocks.len() as int;
    let end = start.after_all(blocks, n);
    let file = wbfs_file(start, blocks, nkit);
    let info = end.info(end.final_header());
    let table = file.subrange(12, 512);
    lemma_layout(start, block_size, blocks, nkit);
    lemma_progress(start, block_size, blocks, nkit, n);
    lemma2_to64();
    assert(end.final_header().encoded().len() == 12);
    assert forall|i: int| 0 <= i < 12 implies file.subrange(0, 12)[i]
        == end.final_header().encoded()[i] by {
        assert(file[i] == info[i]);
    }
    assert(file.subrange(0, 12) =~= end.final_header().encoded());
    lemma_encoded(header, end.final_header());
    assert forall|i: int| 0 <= i < 500 implies #[trigger] table[i] == single_disc_table()[i] by {
        assert(file[12 + i] == info[12 + i]);
    }
    assert(table[0] == 1);
    // The file consists of whole blocks, and a block of whole sectors.
    let shift = start.header.block_size_shift as nat;
    lemma_size(shift);
    let per_block = 64 * pow2((shift - 15) as nat) as int;
    let sectors = end.phys * per_block;
    assert(end.phys * block_size == sectors * 512) by (nonlinear_arith)
        requires
            block_size == 512 * per_block,
            sectors == end.phys * per_block,
    ;
    assert(sectors >= 0) by (nonlinear_arith)
        requires
            sectors == end.phys * per_block,
            end.phys >= 0,
            per_block >= 0,
    ;
    assert(end.header.block_bytes() == block_size && end.header.sector_bytes() == 512);
    let total = end.phys * end.header.block_bytes();
    let d = end.header.sector_bytes() as int;
    assert(total / d == sectors) by (nonlinear_arith)
        requires
            total == sectors * 512,
            d == 512,
    ;
    assert(sectors < 0x1_0000_0000);
    assert(end.sectors() == sectors);
    assert(header.num_sectors == sectors);
    assert(header.file_size() == sectors * 512);
}

/// A file that was written gives back what was written: a stored block is found with its data, and
/// a block that was dropped is found as zeroes or junk data, whichever it was.
///
/// `header` is the header as it was read from the file, and `nkit_header` the NKit header that the
/// writer made, as it was read back. The entry of the block in the map has to lie in front of the
/// NKit header, and a junk block has to be one that the junk map has a bit for. All blocks are such
/// blocks if they have 512 KiB or more and belong to a disc of at most two layers: see
/// [`law_map_before_nkit`] and `law_junk_map_covers_disc`.
#[verifier::rlimit(40)]
pub proof fn law_wbfs_read_back(
    start: WbfsProgress,
    block_size: u32,
    blocks: Seq<CheckedBlock>,
    nkit: Seq<u8>,
    header: WBFSHeader,
    nkit_header: NKitHeader,
    sector: u32,
)
    requires
        can_write(start, block_size, blocks, nkit),
        header.encoded() == wbfs_file(start, blocks, nkit).subrange(0, 12),
        nkit_header.junk_bits matches Some(map) && map@ == start.after_all(
            blocks,
            blocks.len() as int,
        ).junk,
        768 + 2 * block_at(sector, block_size) + 2 <= NKIT_HEADER_OFFSET,
    ensures
        ({
            let file = wbfs_file(start, blocks, nkit);
            let image = WbfsImage {
                header,
                map: words(file.subrange(768, 768 + 2 * header.entries() as int)),
                nkit: Some(nkit_header),
            };
            let (block, offset) = image.find(sector);
            let idx = block_at(sector, block_size);
            &&& block.block_idx == idx
            &&& block.block_size == block_size
            &&& if idx >= header.entries() {
                block.kind == BlockKind::OutOfBounds
            } else if idx >= blocks.len() {
                block.kind == BlockKind::Zero
            } else {
                match blocks[idx as int].meta {
                    CheckBlockResult::Normal => {
                        &&& block.kind == BlockKind::Raw
                        &&& offset matches Some(at)
                        &&& 0 <= at <= at + block_size <= file.len()
                        &&& file.subrange(at, at + block_size) == contents(
                            blocks[idx as int].block_data,
                        )
                    },
                    CheckBlockResult::Zeroed => block.kind == BlockKind::Zero,
                    CheckBlockResult::Junk => idx < junk_capacity(block_size) ==> block.kind
                        == BlockKind::Junk,
                }
            }
        }),
{
    let n = blocks.len() as int;
    let end = start.after_all(blocks, n);
    let file = wbfs_file(start, blocks, nkit);
    let idx = block_at(sector, block_size) as int;
    law_wbfs_opens(start, block_size, blocks, nkit, header);
    lemma_progress(start, block_size, blocks, nkit, n);
    lemma_entry_shift(header, start.header);
    if idx < header.entries() {
        lemma_map_entry(start, block_size, blocks, nkit, idx);
        assert(end.map[idx] == end.map[idx]);
        if idx < n && blocks[idx].meta == CheckBlockResult::Normal {
            lemma_stored_block(start, block_size, blocks, nkit, idx);
        }
    }
}

/// If blocks have 512 KiB or more, the whole map stands in front of the NKit header.
pub proof fn law_map_before_nkit(header: WBFSHeader, block: int)
    requires
        19 <= header.block_size_shift < 32,
        0 <= block < header.entries(),
    ensures
        768 + 2 * block + 2 <= NKIT_HEADER_OFFSET,
{
    let n = NUM_WII_SECTORS as int;
    let d = pow2((header.block_size_shift - 15) as nat) as int;
    lemma2_to64();
    if header.block_size_shift > 19 {
        lemma_pow2_strictly_increases(4, (header.block_size_shift - 15) as nat);
    }
    assert(n / d <= n / 16) by (nonlinear_arith)
        requires
            n >= 0,
            d >= 16,
    ;
}

/// Headers with the same block size have the same exponent, and so maps of the same size.
proof fn lemma_entry_shift(a: WBFSHeader, b: WBFSHeader)
    requires
        a.has_blocks(),
        b.has_blocks(),
        a.block_bytes() == b.block_bytes(),
    ensures
        a.entries() == b.entries(),
{
    let i = a.block_size_shift as nat;
    let j = b.block_size_shift as nat;
    if i < j {
        lemma_pow2_strictly_increases(i, j);
    }
    if j < i {
        lemma_pow2_strictly_increases(j, i);
    }
}

/// The map in the file, as far as it lies in front of the NKit header.
#[verifier::rlimit(40)]
proof fn lemma_map_entry(
    start: WbfsProgress,
    block_size: u32,
    blocks: Seq<CheckedBlock>,
    nkit: Seq<u8>,
    idx: int,
)
    requires
        can_write(start, block_size, blocks, nkit),
        0 <= idx < start.header.entries(),
        768 + 2 * idx + 2 <= NKIT_HEADER_OFFSET,
    ensures
        words(
            wbfs_file(start, blocks, nkit).subrange(
                768,
                768 + 2 * start.header.entries() as int,
            ),
        )[idx] == start.after_all(blocks, blocks.len() as int).map[idx],
{
    let n = blocks.len() as int;
    let end = start.after_all(blocks, n);
    let file = wbfs_file(start, blocks, nkit);
    let info = end.info(end.final_header());
    let bytes = file.subrange(768, 768 + 2 * start.header.entries() as int);
    lemma_layout(start, block_size, blocks, nkit);
    lemma_progress(start, block_size, blocks, nkit, n);
    assert(end.final_header().encoded().len() == 12);
    let v = end.map[idx];
    assert(file[768 + 2 * idx] == info[768 + 2 * idx]);
    assert(file[768 + 2 * idx + 1] == info[768 + 2 * idx + 1]);
    assert(info[768 + 2 * idx] == word_bytes(end.map)[2 * idx]);
    assert(info[768 + 2 * idx + 1] == word_bytes(end.map)[2 * idx + 1]);
    assert((2 * idx + 1) / 2 == idx && (2 * idx + 1) % 2 == 1);
    assert(bytes.subrange(2 * idx, 2 * idx + 2) =~= be_u16_seq(v));
    law_be_u16_round_trip(v);
}

/// A stored block stands where the map says.
#[verifier::rlimit(40)]
proof fn lemma_stored_block(
    start: WbfsProgress,
    block_size: u32,
    blocks: Seq<CheckedBlock>,
    nkit: Seq<u8>,
    idx: int,
)
    requires
        can_write(start, block_size, blocks, nkit),
        0 <= idx < blocks.len(),
        blocks[idx].meta == CheckBlockResult::Normal,
    ensures
        ({
            let file = wbfs_file(start, blocks, nkit);
            let place = (stored_before(blocks, idx) + 1) as u16;
            let at = block_size * place;
            &&& place != 0
            &&& 0 <= at <= at + block_size <= file.len()
            &&& file.subrange(at, at + block_size) == contents(blocks[idx].block_data)
        }),
{
    let n = blocks.len() as int;
    let before = stored_before(blocks, idx) as int;
    lemma_stored_at(blocks, block_size, idx, n);
    lemma_stored_grows(blocks, idx + 1);
    let at = before * block_size;
    let place = (before + 1) as u16;
    assert(place == before + 1);
    assert(block_size * place == at + block_size) by (nonlinear_arith)
        requires
            place == before + 1,
            at == before * block_size,
    ;
    let info = start.after_all(blocks, n).final_info(nkit);
    let head = info + start.placeholder().skip(info.len() as int);
    assert(info.len() == NKIT_HEADER_OFFSET + nkit.len());
    assert(head.len() == block_size);
    let data = stored_data(blocks, n);
    lemma_behind(head, data, Seq::empty(), at, block_size as int);
    assert(head + data + Seq::<u8>::empty() =~= wbfs_file(start, blocks, nkit));
}

/// A disc that was written can be restored block by block from the file.
///
/// `data` is the disc, block by block; the other arguments are as in [`law_processed_blocks`] and
/// [`law_wbfs_read_back`].
#[verifier::rlimit(40)]
pub proof fn law_wbfs_restores_disc(
    settings: ProcessorView,
    start: WbfsProgress,
    data: Seq<Seq<u8>>,
    blocks: Seq<CheckedBlock>,
    nkit: Seq<u8>,
    header: WBFSHeader,
    nkit_header: NKitHeader,
    sector: u32,
)
    requires
        is_processed_disc(settings, data, blocks),
        can_write(start, settings.block_size, blocks, nkit),
        header.encoded() == wbfs_file(start, blocks, nkit).subrange(0, 12),
        nkit_header.junk_bits matches Some(map) && map@ == start.after_all(
            blocks,
            blocks.len() as int,
        ).junk,
        768 + 2 * block_at(sector, settings.block_size) + 2 <= NKIT_HEADER_OFFSET,
        block_at(sector, settings.block_size) < blocks.len(),
        block_at(sector, settings.block_size) < start.header.entries(),
        blocks[block_at(sector, settings.block_size) as int].meta == CheckBlockResult::Junk
            ==> block_at(sector, settings.block_size) < junk_capacity(settings.block_size),
    ensures
        ({
            let file = wbfs_file(start, blocks, nkit);
            let image = WbfsImage {
                header,
                map: words(file.subrange(768, 768 + 2 * header.entries() as int)),
                nkit: Some(nkit_header),
            };
            let (block, offset) = image.find(sector);
            let at = offset.unwrap_or(0);
            restores(
                settings,
                block.block_idx as int,
                data[block.block_idx as int],
                block.kind,
                file.subrange(at, at + settings.block_size),
            )
        }),
{
    let block_size = settings.block_size;
    let idx = block_at(sector, block_size) as int;
    let file = wbfs_file(start, blocks, nkit);
    let image = WbfsImage {
        header,
        map: words(file.subrange(768, 768 + 2 * header.entries() as int)),
        nkit: Some(nkit_header),
    };
    let at = image.find(sector).1.unwrap_or(0);
    law_processed_blocks(settings, data, blocks);
    law_wbfs_opens(start, block_size, blocks, nkit, header);
    lemma_entry_shift(header, start.header);
    law_wbfs_read_back(start, block_size, blocks, nkit, header, nkit_header, sector);
    assert(blocks[idx].block_idx == idx);
    lemma_dropped_restores(settings, idx, data[idx], file.subrange(at, at + block_size));
}

/// Two runs over the same blocks go through the same stages.
proof fn lemma_same_stages(
    writer: DiscWriterWBFS,
    disc_header: Seq<u8>,
    a: WriteRun<ProcessWBFS>,
    b: WriteRun<ProcessWBFS>,
    k: int,
)
    requires
        is_writing(a.states, a.blocks, a.chunks),
        is_writing(b.states, b.blocks, b.chunks),
        writer.begins(disc_header, a.first, a.states[0]),
        writer.begins(disc_header, b.first, b.states[0]),
        same_blocks(a.blocks, b.blocks),
        0 <= k <= a.blocks.len(),
    ensures
        a.states[k]@ == b.states[k]@,
        k > 0 ==> same_chunk(a.chunks[k - 1], b.chunks[k - 1]),
    decreases k,
{
    if k == 0 {
        let x = a.states[0]@.header;
        let y = b.states[0]@.header;
        assert(x.magic =~= y.magic);
    }
    if k > 0 {
        lemma_same_stages(writer, disc_header, a, b, k - 1);
        assert(a.states[k - 1].advances(a.blocks[k - 1], a.chunks[k - 1], a.states[k]));
        assert(b.states[k - 1].advances(b.blocks[k - 1], b.chunks[k - 1], b.states[k]));
        assert(same_block(a.blocks[k - 1], b.blocks[k - 1]));
    }
}

/// Two runs of a writer over the same blocks have the same output.
pub proof fn law_wbfs_runs_agree(
    writer: DiscWriterWBFS,
    disc_header: Seq<u8>,
    a: WriteRun<ProcessWBFS>,
    b: WriteRun<ProcessWBFS>,
    nkit: Seq<u8>,
    results: Seq<DigestResult>,
)
    requires
        is_run(writer, disc_header, a, nkit, results),
        is_run(writer, disc_header, b, nkit, results),
        same_blocks(a.blocks, b.blocks),
    ensures
        same_output(a, b),
{
    let n = a.blocks.len() as int;
    lemma_same_stages(writer, disc_header, a, b, 0);
    lemma_same_stages(writer, disc_header, a, b, n);
    assert forall|i: int| 0 <= i < a.chunks.len() implies same_chunk(
        #[trigger] a.chunks[i],
        b.chunks[i],
    ) by {
        lemma_same_stages(writer, disc_header, a, b, i + 1);
    }
}

/// The output of a writer depends on the disc alone: two runs over a disc that was processed have
/// the same output, however many threads processed it.
pub proof fn law_wbfs_output_is_determined(
    settings: ProcessorView,
    data: Seq<Seq<u8>>,
    writer: DiscWriterWBFS,
    disc_header: Seq<u8>,
    a: WriteRun<ProcessWBFS>,
    b: WriteRun<ProcessWBFS>,
    nkit: Seq<u8>,
    results: Seq<DigestResult>,
)
    requires
        is_processed_disc(settings, data, a.blocks),
        is_processed_disc(settings, data, b.blocks),
        is_run(writer, disc_header, a, nkit, results),
        is_run(writer, disc_header, b, nkit, results),
    ensures
        same_output(a, b),
{
    law_processing_is_determined(settings, data, a.blocks, b.blocks);
    law_wbfs_runs_agree(writer, disc_header, a, b, nkit, results);
}

} // verus!
