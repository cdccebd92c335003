//! What stands in a WBFS file, byte by byte.

use vstd::arithmetic::power2::{lemma2_to64, lemma_pow2_pos, lemma_pow2_unfold, pow2};
use vstd::bits::lemma_u32_shl_is_mul;
use vstd::prelude::*;
use vstd::std_specs::bits::{axiom_u32_trailing_zeros, u32_trailing_zeros};

use crate::buffers::contents;
use crate::check::CheckBlockResult;
use crate::endian::{be_u16, be_u16_seq, be_u32, be_u32_seq, law_be_u32_round_trip};
use crate::error::Error;
use crate::image::BlockKind;
use crate::laws::ciso::bytes_read;
use crate::laws::nkit::law_junk_map_size;
use crate::nkit::{junk_capacity, DigestResult, Digests, DiscMeta};
use crate::options::{Compression, Format, FormatOptions};
use crate::wbfs::{
    block_shift, info_size, is_fresh, lemma_block_shift, lemma_size, map_len, table_fault,
    wbfs_fault, wbfs_refusal, word_bytes, words, DiscWriterWBFS, ProcessWBFS, WBFSHeader, WbfsImage,
    WBFS_MAGIC,
};
use crate::writer::{is_run, is_writing, CheckedBlock, DiscWriter, WriteProcess, WriteRun};

verus! {

/// Whether a header starts with "WBFS".
pub open spec fn has_magic(header: WBFSHeader) -> bool {
    header.magic@[0] == 87 && header.magic@[1] == 66 && header.magic@[2] == 70 && header.magic@[3]
        == 83
}

/// The magic of a header that starts with "WBFS".
proof fn lemma_magic(header: WBFSHeader)
    ensures
        (header.magic@ == WBFS_MAGIC@) == has_magic(header),
{
    assert(WBFS_MAGIC@ =~= seq![87u8, 66u8, 70u8, 83u8]);
    if has_magic(header) {
        assert(header.magic@ =~= WBFS_MAGIC@);
    }
}

/// A header in the file: the magic, the number of sectors with its highest byte first, the two
/// exponents, the version and an unused byte.
pub proof fn law_wbfs_header_bytes(header: WBFSHeader)
    ensures
        ({
            let b = header.encoded();
            &&& b.len() == 12
            &&& b[0] == header.magic@[0] && b[1] == header.magic@[1] && b[2] == header.magic@[2]
                && b[3] == header.magic@[3]
            &&& b[4] * 16777216 + b[5] * 65536 + b[6] * 256 + b[7] == header.num_sectors
            &&& b[8] == header.sector_size_shift
            &&& b[9] == header.block_size_shift
            &&& b[10] == header.version
            &&& b[11] == header.pad
        }),
{
    let b = header.encoded();
    let s = be_u32_seq(header.num_sectors);
    law_be_u32_round_trip(header.num_sectors);
    assert(b[4] == s[0] && b[5] == s[1] && b[6] == s[2] && b[7] == s[3]);
    assert(be_u32(s) == header.num_sectors);
}

/// An exponent of zero stands for one byte, and one more for twice as many.
pub proof fn law_wbfs_sizes(header: WBFSHeader, next: WBFSHeader)
    ensures
        header.sector_size_shift == 0 ==> header.sector_bytes() == 1,
        header.block_size_shift == 0 ==> header.block_bytes() == 1,
        next.sector_size_shift == header.sector_size_shift + 1 ==> next.sector_bytes() == 2
            * header.sector_bytes(),
        next.block_size_shift == header.block_size_shift + 1 ==> next.block_bytes() == 2
            * header.block_bytes(),
        header.file_size() == header.num_sectors * header.sector_bytes(),
{
    lemma2_to64();
    if next.sector_size_shift == header.sector_size_shift + 1 {
        lemma_pow2_unfold(next.sector_size_shift as nat);
    }
    if next.block_size_shift == header.block_size_shift + 1 {
        lemma_pow2_unfold(next.block_size_shift as nat);
    }
}

/// The map has an entry for each whole block of a dual-layer disc.
pub proof fn law_wbfs_entries(header: WBFSHeader)
    requires
        15 <= header.block_size_shift < 32,
    ensures
        header.entries() * header.block_bytes() <= 286864 * 0x8000,
        (header.entries() + 1) * header.block_bytes() > 286864 * 0x8000,
        map_len(header.block_size_shift as int) == header.entries(),
        info_size(header.block_size_shift as int) == 12 + 500 + 256 + 2 * header.entries(),
{
    let shift = header.block_size_shift as nat;
    lemma_size(shift);
    let d = pow2((shift - 15) as nat) as int;
    lemma_pow2_pos((shift - 15) as nat);
    let n = 286864int;
    let e = header.entries() as int;
    let bs = header.block_bytes() as int;
    assert(e == n / d);
    assert(n / d * d <= n < (n / d + 1) * d) by (nonlinear_arith)
        requires
            n >= 0,
            d > 0,
    ;
    assert(bs == 0x8000 * d);
    assert(e * bs == 0x8000 * (e * d)) by (nonlinear_arith)
        requires
            bs == 0x8000 * d,
    ;
    assert((e + 1) * bs == 0x8000 * ((e + 1) * d)) by (nonlinear_arith)
        requires
            bs == 0x8000 * d,
    ;
}

/// The numbers in a map have their highest byte first.
pub proof fn law_wbfs_words(bytes: Seq<u8>, i: int)
    requires
        0 <= i < bytes.len() / 2,
    ensures
        words(bytes).len() == bytes.len() / 2,
        words(bytes)[i] == bytes[2 * i] * 256 + bytes[2 * i + 1],
{
    let b = bytes.subrange(2 * i, 2 * i + 2);
    assert(b[0] == bytes[2 * i] && b[1] == bytes[2 * i + 1]);
}

/// A map is written with the highest byte of each number first.
pub proof fn law_wbfs_word_bytes(values: Seq<u16>, i: int)
    requires
        0 <= i < values.len(),
    ensures
        word_bytes(values).len() == 2 * values.len(),
        word_bytes(values)[2 * i] * 256 + word_bytes(values)[2 * i + 1] == values[i],
{
    assert((2 * i) / 2 == i && (2 * i) % 2 == 0);
    assert((2 * i + 1) / 2 == i && (2 * i + 1) % 2 == 1);
    let s = be_u16_seq(values[i]);
    assert(be_u16(s) == values[i]);
}

/// A file is refused if and only if it does not start with the magic, does not have the size that
/// its header says, holds no disc, or holds another disc besides.
pub proof fn law_wbfs_faults(header: WBFSHeader, file_len: u64, disc_table: Seq<u8>)
    requires
        disc_table.len() > 0,
    ensures
        ({
            let fault = wbfs_fault(header, file_len, disc_table);
            let size = header.num_sectors * header.sector_bytes();
            let others = exists|i: int| 1 <= i < disc_table.len() && #[trigger] disc_table[i] != 0;
            &&& !has_magic(header) ==> fault == Some(Error::WbfsMagic)
            &&& has_magic(header) && file_len != size ==> fault == Some(
                Error::WbfsFileSize { len: file_len, expected: size as u64 },
            )
            &&& has_magic(header) && file_len == size && disc_table[0] != 1 ==> fault == Some(
                Error::WbfsNoDisc,
            )
            &&& has_magic(header) && file_len == size && disc_table[0] == 1 && others ==> fault
                == Some(Error::WbfsMultipleDiscs)
            &&& has_magic(header) && file_len == size && disc_table[0] == 1 && !others
                ==> fault is None
            &&& disc_table[0] != 1 ==> table_fault(disc_table) == Some(Error::WbfsNoDisc)
            &&& disc_table[0] == 1 && others ==> table_fault(disc_table) == Some(
                Error::WbfsMultipleDiscs,
            )
            &&& disc_table[0] == 1 && !others ==> table_fault(disc_table) is None
        }),
{
    lemma_magic(header);
}

/// The block of a sector is found from the map: behind the map there is none. A block whose entry
/// is not zero is stored, in the block of the file that the entry names. Any other is junk if the
/// NKit header has a junk map with its bit set, and otherwise zeroes; without an NKit header, or
/// with one that has no junk map, it is zeroes.
pub proof fn law_wbfs_kinds(image: WbfsImage, block_size: u32, sector: u32)
    requires
        15 <= image.header.block_size_shift < 32,
        image.header.block_bytes() == block_size,
        image.map.len() == image.header.entries(),
    ensures
        ({
            let idx = sector * 0x8000 / block_size as int;
            let (block, offset) = image.find(sector);
            &&& block.block_idx == idx
            &&& block.block_size == block_size
            &&& if idx >= image.map.len() {
                block.kind == BlockKind::OutOfBounds && offset is None
            } else if image.map[idx] != 0 {
                &&& block.kind == BlockKind::Raw
                &&& offset == Some(image.map[idx] * block_size)
            } else {
                &&& offset is None
                &&& match image.nkit {
                    Some(nkit_header) => match nkit_header.junk_bits {
                        Some(map) => block.kind == if idx < map@.len() && map@[idx] {
                            BlockKind::Junk
                        } else {
                            BlockKind::Zero
                        },
                        None => block.kind == BlockKind::Zero,
                    },
                    None => block.kind == BlockKind::Zero,
                }
            }
        }),
{
    lemma_size(image.header.block_size_shift as nat);
    let n = sector * 0x8000;
    let d = block_size as int;
    assert(0 <= n / d && n / d <= n / 0x8000) by (nonlinear_arith)
        requires
            n >= 0,
            d >= 0x8000,
    ;
    let idx = n / d;
    if idx < image.map.len() {
        assert(block_size * image.map[idx] == image.map[idx] * block_size) by (nonlinear_arith);
    }
}

/// A file has blocks of the largest power of two that divides the block size asked for.
pub proof fn law_wbfs_block_shift(block_size: u32)
    requires
        block_size >= 0x8000,
        block_size % 0x8000 == 0,
    ensures
        15 <= block_shift(block_size) < 32,
        ({
            let unit = pow2(block_shift(block_size) as nat) as int;
            &&& block_size as int % unit == 0
            &&& block_size as int % (2 * unit) != 0
        }),
{
    lemma_block_shift(block_size);
    axiom_u32_trailing_zeros(block_size);
    let t = u32_trailing_zeros(block_size);
    lemma_size(t as nat);
    lemma_u32_shl_is_mul(1, t);
    let unit = 1u32 << t;
    assert(unit > 0 && block_size % unit == 0 && (block_size / unit) % 2 == 1) by (bit_vector)
        requires
            unit == 1u32 << t,
            t < 32,
            (block_size >> t) & 1u32 == 1u32,
            block_size << ((32 - t) as u32) == 0u32,
            t > 0,
    ;
    let (n, u) = (block_size as int, unit as int);
    assert(n % (2 * u) != 0) by (nonlinear_arith)
        requires
            u > 0,
            n % u == 0,
            (n / u) % 2 == 1,
    ;
}

/// A disc is written as asked for if and only if WBFS is asked for, without compression, in blocks
/// of whole sectors that are few enough to be numbered with 16 bits, and large enough for the
/// tables.
pub proof fn law_wbfs_refusals(disc_size: u64, options: FormatOptions)
    ensures
        ({
            let refusal = wbfs_refusal(disc_size, options);
            let bs = options.block_size as int;
            let plain = options.format == Format::Wbfs && options.compression == Compression::Store;
            let whole = plain && bs >= 0x8000 && bs % 0x8000 == 0;
            let few = disc_size <= 65535 * bs;
            let fits = info_size(block_shift(options.block_size)) <= bs;
            &&& options.format != Format::Wbfs ==> refusal == Some(Error::WbfsFormat)
            &&& options.format == Format::Wbfs && options.compression != Compression::Store
                ==> refusal == Some(Error::WbfsCompression)
            &&& plain && !whole ==> refusal == Some(Error::WbfsBlockSize)
            &&& whole && !few ==> refusal == Some(Error::WbfsBlockCount)
            &&& whole && few && !fits ==> refusal == Some(Error::WbfsInfoTooLarge)
            &&& whole && few && fits ==> refusal is None
        }),
{
    let bs = options.block_size as int;
    if bs >= 0x8000 {
        let n = disc_size as int;
        crate::image::lemma_div_up(n, bs);
        let count = crate::image::div_up(n, bs);
        if n <= 65535 * bs {
            assert(count <= 65535) by (nonlinear_arith)
                requires
                    n <= 65535 * bs,
                    n > 0 ==> (count - 1) * bs < n,
                    n == 0 ==> count == 0,
                    n >= 0,
                    bs > 0,
            ;
        } else {
            assert(count > 65535) by (nonlinear_arith)
                requires
                    n > 65535 * bs,
                    n <= count * bs,
                    bs > 0,
            ;
        }
    }
}

/// What stays the same during a run, and how much of the disc has been read after `k` blocks.
proof fn lemma_run(
    writer: DiscWriterWBFS,
    disc_header: Seq<u8>,
    run: WriteRun<ProcessWBFS>,
    k: int,
)
    requires
        disc_header.len() >= 0x100,
        is_writing(run.states, run.blocks, run.chunks),
        writer.begins(disc_header, run.first, run.states[0]),
        15 <= writer.shift() < 32,
        forall|i: int| 0 <= i < run.blocks.len() ==> (#[trigger] run.blocks[i]).block_idx == i,
        0 <= k <= run.blocks.len(),
    ensures
        ({
            let p = run.states[k]@;
            &&& p.header == run.states[0]@.header
            &&& p.disc_size == writer.size()
            &&& p.position == bytes_read(run.blocks, k)
            &&& p.table.len() == 500
            &&& p.table[0] == 1
            &&& forall|j: int| 1 <= j < 500 ==> #[trigger] p.table[j] == 0
            &&& p.disc_header.len() == 0x100
            &&& forall|j: int| 0 <= j < 0x100 ==> #[trigger] p.disc_header[j] == disc_header[j]
        }),
        k > 0 ==> run.chunks[k - 1].is(
            contents(run.blocks[k - 1].block_data),
            bytes_read(run.blocks, k),
            writer.size(),
        ),
    decreases k,
{
    if k > 0 {
        lemma_run(writer, disc_header, run, k - 1);
        assert(run.states[k - 1].takes(run.blocks[k - 1]));
        assert(run.states[k - 1].advances(run.blocks[k - 1], run.chunks[k - 1], run.states[k]));
        assert(run.blocks[k - 1].block_idx == k - 1);
    }
}

/// How many of the first `k` blocks are stored.
pub open spec fn stored_count(blocks: Seq<CheckedBlock>, k: int) -> nat
    decreases k,
{
    if k <= 0 {
        0
    } else if blocks[k - 1].meta == CheckBlockResult::Normal {
        stored_count(blocks, k - 1) + 1
    } else {
        stored_count(blocks, k - 1)
    }
}

/// The map after the first `k` blocks of a run.
proof fn lemma_run_map(
    writer: DiscWriterWBFS,
    disc_header: Seq<u8>,
    run: WriteRun<ProcessWBFS>,
    k: int,
)
    requires
        disc_header.len() >= 0x100,
        is_writing(run.states, run.blocks, run.chunks),
        writer.begins(disc_header, run.first, run.states[0]),
        15 <= writer.shift() < 32,
        forall|i: int| 0 <= i < run.blocks.len() ==> (#[trigger] run.blocks[i]).block_idx == i,
        0 <= k <= run.blocks.len(),
    ensures
        ({
            let p = run.states[k]@;
            &&& p.map.len() == map_len(writer.shift())
            &&& p.phys == stored_count(run.blocks, k) + 1
            &&& p.phys <= 0xFFFF
            &&& forall|i: int|
                0 <= i < p.map.len() ==> #[trigger] p.map[i] == if i < k && run.blocks[i].meta
                    == CheckBlockResult::Normal {
                    stored_count(run.blocks, i) as int + 1
                } else {
                    0
                }
        }),
    decreases k,
{
    if k > 0 {
        lemma_run_map(writer, disc_header, run, k - 1);
        assert(run.states[k - 1].takes(run.blocks[k - 1]));
        assert(run.states[k - 1].advances(run.blocks[k - 1], run.chunks[k - 1], run.states[k]));
        assert(run.blocks[k - 1].block_idx == k - 1);
    }
}

/// The junk map after the first `k` blocks of a run.
proof fn lemma_run_junk(
    writer: DiscWriterWBFS,
    disc_header: Seq<u8>,
    run: WriteRun<ProcessWBFS>,
    k: int,
)
    requires
        disc_header.len() >= 0x100,
        is_writing(run.states, run.blocks, run.chunks),
        writer.begins(disc_header, run.first, run.states[0]),
        15 <= writer.shift() < 32,
        forall|i: int| 0 <= i < run.blocks.len() ==> (#[trigger] run.blocks[i]).block_idx == i,
        0 <= k <= run.blocks.len(),
    ensures
        ({
            let p = run.states[k]@;
            &&& p.junk.len() == junk_capacity(pow2(writer.shift() as nat) as u32)
            &&& forall|i: int|
                0 <= i < p.junk.len() ==> #[trigger] p.junk[i] == (i < k && run.blocks[i].meta
                    == CheckBlockResult::Junk)
        }),
    decreases k,
{
    if k > 0 {
        lemma_run_junk(writer, disc_header, run, k - 1);
        assert(run.states[k - 1].takes(run.blocks[k - 1]));
        assert(run.states[k - 1].advances(run.blocks[k - 1], run.chunks[k - 1], run.states[k]));
        assert(run.blocks[k - 1].block_idx == k - 1);
    } else {
        lemma_size(writer.shift() as nat);
        let bs = pow2(writer.shift() as nat) as u32;
        law_junk_map_size(bs);
        let capacity = junk_capacity(bs);
        assert(capacity >= 0) by (nonlinear_arith)
            requires
                capacity * bs >= 8_511_160_320,
                bs > 0,
        ;
    }
}

/// The first block that a run hands out.
proof fn lemma_first(writer: DiscWriterWBFS, disc_header: Seq<u8>, run: WriteRun<ProcessWBFS>)
    requires
        disc_header.len() >= 0x100,
        writer.begins(disc_header, run.first, run.states[0]),
        15 <= writer.shift() < 32,
    ensures
        ({
            let data = contents(run.first.data);
            &&& data.len() == pow2(writer.shift() as nat)
            &&& data[0] == 87 && data[1] == 66 && data[2] == 70 && data[3] == 83
            &&& data[4] == 0 && data[5] == 0 && data[6] == 0 && data[7] == 0
            &&& data[8] == 9 && data[9] == writer.shift() && data[10] == 1 && data[11] == 0
            &&& data[12] == 1
            &&& forall|j: int| 13 <= j < 512 ==> #[trigger] data[j] == 0
            &&& forall|j: int| 512 <= j < 768 ==> #[trigger] data[j] == disc_header[j - 512]
            &&& forall|j: int| 768 <= j < data.len() ==> #[trigger] data[j] == 0
        }),
{
    let p = run.states[0]@;
    let data = contents(run.first.data);
    lemma_size(writer.shift() as nat);
    law_wbfs_header_bytes(p.header);
    lemma_magic(p.header);
    let info = p.info(p.header);
    assert(info.len() == 768 + 2 * p.map.len());
    assert forall|j: int| 0 <= j < 12 implies #[trigger] data[j] == p.header.encoded()[j] by {
        assert(info[j] == p.header.encoded()[j]);
    }
    assert forall|j: int| 12 <= j < 512 implies #[trigger] data[j] == p.table[j - 12] by {
        assert(info[j] == p.table[j - 12]);
    }
    assert forall|j: int| 512 <= j < 768 implies #[trigger] data[j] == disc_header[j - 512] by {
        assert(info[j] == p.disc_header[j - 512]);
    }
    assert forall|j: int| 768 <= j < data.len() implies #[trigger] data[j] == 0 by {
        if j < info.len() {
            assert(info[j] == word_bytes(p.map)[j - 768]);
            let i = (j - 768) / 2;
            law_wbfs_word_bytes(p.map, i);
            assert(j - 768 == 2 * i || j - 768 == 2 * i + 1);
        }
    }
}

/// What a run hands out: a first block, then for each block its block data with the number of
/// bytes of the disc that have been read so far. Every piece comes with the size of the disc, and
/// nothing is appended in the end.
pub proof fn law_wbfs_pieces(
    writer: DiscWriterWBFS,
    disc_header: Seq<u8>,
    run: WriteRun<ProcessWBFS>,
    nkit: Seq<u8>,
    results: Seq<DigestResult>,
)
    requires
        disc_header.len() >= 0x100,
        is_run(writer, disc_header, run, nkit, results),
        15 <= writer.shift() < 32,
        forall|i: int| 0 <= i < run.blocks.len() ==> (#[trigger] run.blocks[i]).block_idx == i,
    ensures
        ({
            let data = contents(run.first.data);
            &&& data.len() == pow2(writer.shift() as nat)
            &&& data[0] == 87 && data[1] == 66 && data[2] == 70 && data[3] == 83
            &&& data[4] == 0 && data[5] == 0 && data[6] == 0 && data[7] == 0
            &&& data[8] == 9 && data[9] == writer.shift() && data[10] == 1 && data[11] == 0
            &&& data[12] == 1
            &&& forall|j: int| 13 <= j < 512 ==> #[trigger] data[j] == 0
            &&& forall|j: int| 512 <= j < 768 ==> #[trigger] data[j] == disc_header[j - 512]
            &&& forall|j: int| 768 <= j < data.len() ==> #[trigger] data[j] == 0
        }),
        run.first.position == 0,
        run.first.total == writer.size(),
        run.chunks.len() == run.blocks.len(),
        forall|i: int|
            0 <= i < run.chunks.len() ==> {
                &&& contents((#[trigger] run.chunks[i]).data) == contents(run.blocks[i].block_data)
                &&& run.chunks[i].position == bytes_read(run.blocks, i + 1)
                &&& run.chunks[i].total == writer.size()
            },
        run.last is None,
{
    lemma_run(writer, disc_header, run, run.blocks.len() as int);
    lemma_first(writer, disc_header, run);
    assert forall|i: int| 0 <= i < run.chunks.len() implies {
        &&& contents((#[trigger] run.chunks[i]).data) == contents(run.blocks[i].block_data)
        &&& run.chunks[i].position == bytes_read(run.blocks, i + 1)
        &&& run.chunks[i].total == writer.size()
    } by {
        lemma_run(writer, disc_header, run, i + 1);
    }
}

/// Entry `i` of the map in the tables of a file.
pub open spec fn map_entry(info: Seq<u8>, i: int) -> int {
    info[768 + 2 * i] * 256 + info[768 + 2 * i + 1]
}

/// What completes a file: the header with its size in sectors of 512 bytes, a table with one disc,
/// the start of the disc header, the map, and at 0x10000 the encoded NKit header. The first block
/// that is stored has the number 1 in the map, each other one the number that follows that of the
/// one stored before it, and a block that is not stored has the number zero. This holds of all
/// entries that stand in front of the NKit header.
#[verifier::rlimit(60)]
pub proof fn law_wbfs_final_info(
    writer: DiscWriterWBFS,
    disc_header: Seq<u8>,
    run: WriteRun<ProcessWBFS>,
    nkit: Seq<u8>,
    results: Seq<DigestResult>,
    stored: int,
)
    requires
        disc_header.len() >= 0x100,
        is_run(writer, disc_header, run, nkit, results),
        15 <= writer.shift() < 32,
        forall|i: int| 0 <= i < run.blocks.len() ==> (#[trigger] run.blocks[i]).block_idx == i,
        stored == stored_count(run.blocks, run.blocks.len() as int),
        (stored + 1) * pow2(writer.shift() as nat) < 0x200_0000_0000,
    ensures
        ({
            let info = contents(run.finalization.header);
            &&& info.len() == 0x10000 + nkit.len()
            &&& info.skip(0x10000) == nkit
            &&& info[0] == 87 && info[1] == 66 && info[2] == 70 && info[3] == 83
            &&& (info[4] * 16777216 + info[5] * 65536 + info[6] * 256 + info[7]) * 512 == (stored
                + 1) * pow2(writer.shift() as nat)
            &&& info[8] == 9 && info[9] == writer.shift() && info[10] == 1 && info[11] == 0
            &&& info[12] == 1
            &&& forall|j: int| 13 <= j < 512 ==> #[trigger] info[j] == 0
            &&& forall|j: int| 512 <= j < 768 ==> #[trigger] info[j] == disc_header[j - 512]
            &&& forall|i: int|
                0 <= i < map_len(writer.shift()) && 768 + 2 * i + 2 <= 0x10000
                    ==> #[trigger] map_entry(info, i) == if i < run.blocks.len()
                    && run.blocks[i].meta == CheckBlockResult::Normal {
                    stored_count(run.blocks, i) as int + 1
                } else {
                    0
                }
        }),
        run.finalization.digests == (Digests {
            crc32: None,
            md5: None,
            sha1: None,
            xxh64: None,
        }).with_all(results),
{
    let n = run.blocks.len() as int;
    lemma_run(writer, disc_header, run, n);
    lemma_run_map(writer, disc_header, run, n);
    let p = run.states[n]@;
    let header = p.final_header();
    let info = contents(run.finalization.header);
    let front = p.info(header);
    assert(info == p.final_info(nkit));
    law_wbfs_header_bytes(header);
    lemma_magic(p.header);
    lemma_sectors(writer, p, stored);
    assert(info.skip(0x10000) =~= nkit);
    assert forall|j: int| 0 <= j < 0x10000 && j < front.len() implies #[trigger] info[j]
        == front[j] by {}
    assert forall|j: int| 0 <= j < 12 implies #[trigger] info[j] == header.encoded()[j] by {
        assert(info[j] == front[j]);
    }
    assert(info[12] == p.table[0]);
    assert forall|j: int| 13 <= j < 512 implies #[trigger] info[j] == 0 by {
        assert(info[j] == front[j]);
        assert(front[j] == p.table[j - 12]);
    }
    assert forall|j: int| 512 <= j < 768 implies #[trigger] info[j] == disc_header[j - 512] by {
        assert(info[j] == front[j]);
        assert(front[j] == p.disc_header[j - 512]);
    }
    assert forall|i: int|
        0 <= i < map_len(writer.shift()) && 768 + 2 * i + 2 <= 0x10000 implies #[trigger] map_entry(
        info,
        i,
    ) == if i < run.blocks.len() && run.blocks[i].meta == CheckBlockResult::Normal {
        stored_count(run.blocks, i) as int + 1
    } else {
        0
    } by {
        law_wbfs_word_bytes(p.map, i);
        assert(info[768 + 2 * i] == front[768 + 2 * i]);
        assert(info[768 + 2 * i + 1] == front[768 + 2 * i + 1]);
        assert(front[768 + 2 * i] == word_bytes(p.map)[2 * i]);
        assert(front[768 + 2 * i + 1] == word_bytes(p.map)[2 * i + 1]);
    }
}

/// The size of the file in sectors.
proof fn lemma_sectors(writer: DiscWriterWBFS, p: crate::wbfs::WbfsProgress, stored: int)
    requires
        15 <= writer.shift() < 32,
        is_fresh(p.header, writer.shift()),
        p.phys == stored + 1,
        stored >= 0,
        (stored + 1) * pow2(writer.shift() as nat) < 0x200_0000_0000,
    ensures
        p.final_header().num_sectors * 512 == (stored + 1) * pow2(writer.shift() as nat),
{
    let shift = writer.shift() as nat;
    let bs = pow2(shift) as int;
    lemma_size(shift);
    lemma2_to64();
    let per_block = 64 * pow2((shift - 15) as nat) as int;
    let sectors = p.phys * per_block;
    assert(bs == 512 * per_block);
    assert(p.phys * bs == sectors * 512) by (nonlinear_arith)
        requires
            bs == 512 * per_block,
            sectors == p.phys * per_block,
    ;
    assert(sectors >= 0) by (nonlinear_arith)
        requires
            sectors == p.phys * per_block,
            p.phys >= 0,
            per_block >= 0,
    ;
    let total = p.phys * p.header.block_bytes();
    let d = p.header.sector_bytes() as int;
    assert(total / d == sectors) by (nonlinear_arith)
        requires
            total == sectors * 512,
            d == 512,
    ;
    assert(p.sectors() == sectors);
}

/// The NKit header of a run for a disc of `disc_size` bytes says that the disc has that size. Its
/// junk map has the bits of the junk blocks set and no other, and it holds the digests that were
/// computed. A reader that takes it reports that size and those digests.
pub proof fn law_wbfs_nkit_header(
    writer: DiscWriterWBFS,
    disc_size: u64,
    disc_header: Seq<u8>,
    run: WriteRun<ProcessWBFS>,
    nkit: Seq<u8>,
    results: Seq<DigestResult>,
)
    requires
        disc_header.len() >= 0x100,
        is_run(writer, disc_header, run, nkit, results),
        writer.size() == disc_size,
        15 <= writer.shift() < 32,
        forall|i: int| 0 <= i < run.blocks.len() ==> (#[trigger] run.blocks[i]).block_idx == i,
    ensures
        run.nkit_header.version == 2,
        run.nkit_header.size == Some(disc_size),
        run.nkit_header.encrypted,
        run.nkit_header.digests == (Digests {
            crc32: None,
            md5: None,
            sha1: None,
            xxh64: None,
        }).with_all(results),
        run.nkit_header.junk_bits matches Some(map) && map@.len() == junk_capacity(
            pow2(writer.shift() as nat) as u32,
        ) && forall|i: int|
            0 <= i < map@.len() ==> #[trigger] map@[i] == (i < run.blocks.len()
                && run.blocks[i].meta == CheckBlockResult::Junk),
        ({
            let meta = DiscMeta::of(
                Format::Wbfs,
                pow2(writer.shift() as nat) as u32,
                Some(run.nkit_header),
            );
            &&& meta.disc_size == Some(disc_size)
            &&& meta.digests == run.nkit_header.digests
        }),
{
    lemma_run(writer, disc_header, run, run.blocks.len() as int);
    lemma_run_junk(writer, disc_header, run, run.blocks.len() as int);
}

/// A writer takes every block that has an entry in the map, as long as the blocks that are stored
/// can be numbered and what has been read can be counted. A block that is not stored needs no
/// entry.
pub proof fn law_wbfs_takes_disc(
    writer: DiscWriterWBFS,
    disc_header: Seq<u8>,
    run: WriteRun<ProcessWBFS>,
    next: CheckedBlock,
)
    requires
        disc_header.len() >= 0x100,
        is_writing(run.states, run.blocks, run.chunks),
        writer.begins(disc_header, run.first, run.states[0]),
        15 <= writer.shift() < 32,
        forall|i: int| 0 <= i < run.blocks.len() ==> (#[trigger] run.blocks[i]).block_idx == i,
        next.meta == CheckBlockResult::Normal ==> (next.block_idx + 1) * pow2(
            writer.shift() as nat,
        ) <= 286864 * 0x8000 && stored_count(run.blocks, run.blocks.len() as int) + 1 < 65535,
        bytes_read(run.blocks, run.blocks.len() as int) + contents(next.disc_data).len()
            <= 0xFFFF_FFFF_FFFF_FFFF,
    ensures
        run.states.last().takes(next),
{
    let n = run.blocks.len() as int;
    let shift = writer.shift() as nat;
    lemma_run(writer, disc_header, run, n);
    lemma_run_map(writer, disc_header, run, n);
    lemma_size(shift);
    if next.meta == CheckBlockResult::Normal {
        let d = pow2((shift - 15) as nat) as int;
        lemma_pow2_pos((shift - 15) as nat);
        let k = next.block_idx as int;
        let bs = pow2(shift) as int;
        assert(bs == 0x8000 * d);
        assert(k < 286864int / d) by (nonlinear_arith)
            requires
                (k + 1) * bs <= 286864 * 0x8000,
                bs == 0x8000 * d,
                d > 0,
                k >= 0,
        ;
    }
}

} // verus!
