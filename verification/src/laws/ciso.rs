//! What stands in a CISO file, byte by byte.

use vstd::prelude::*;

use crate::buffers::contents;
use crate::check::CheckBlockResult;
use crate::ciso::{
    ciso_block_count, ciso_data_end, ciso_fault, ciso_header, ciso_refusal, header_block_size,
    header_present, is_ciso, places, present_before, CisoImage, DiscWriterCISO, ProcessCISO,
    CISO_MAGIC,
};
use crate::endian::le_u32;
use crate::error::Error;
use crate::image::BlockKind;
use crate::laws::nkit::law_junk_map_size;
use crate::nkit::{junk_capacity, DigestResult, Digests, DiscMeta, NKitHeader};
use crate::options::{Compression, Format, FormatOptions};
use crate::writer::{is_run, is_writing, CheckedBlock, DiscWriter, WriteProcess, WriteRun};

verus! {

/// Whether a file starts with "CISO".
pub open spec fn has_magic(header: Seq<u8>) -> bool {
    header[0] == 67 && header[1] == 73 && header[2] == 83 && header[3] == 79
}

/// The block size that stands behind the magic, its lowest byte first.
pub open spec fn size_of_blocks(header: Seq<u8>) -> int {
    header[4] + 256 * header[5] + 65536 * header[6] + 16777216 * header[7]
}

/// Whether the header says that a block is stored: its byte is 1.
pub open spec fn is_stored(header: Seq<u8>, idx: int) -> bool {
    0 <= idx < 32760 && header[8 + idx] == 1
}

/// What is read from the header: the magic, the block size and the byte of each block.
proof fn lemma_header(header: Seq<u8>)
    requires
        header.len() == 0x8000,
    ensures
        is_ciso(header) == has_magic(header),
        header_block_size(header) == size_of_blocks(header),
        header_present(header).len() == 32760,
        forall|i: int| 0 <= i < 32760 ==> #[trigger] header_present(header)[i] == header[8 + i],
{
    let magic = header.subrange(0, 4);
    assert(CISO_MAGIC@ =~= seq![67u8, 73u8, 83u8, 79u8]);
    if has_magic(header) {
        assert(magic =~= CISO_MAGIC@);
    }
    if magic == CISO_MAGIC@ {
        assert(magic[0] == 67 && magic[1] == 73 && magic[2] == 83 && magic[3] == 79);
    }
    let b = header.subrange(4, 8);
    assert(b[0] == header[4] && b[1] == header[5] && b[2] == header[6] && b[3] == header[7]);
}

/// No more blocks are stored up to a block if none is stored in between.
proof fn lemma_none_between(present: Seq<u8>, i: int, j: int)
    requires
        0 <= i <= j <= present.len(),
        forall|k: int| i <= k < j ==> #[trigger] present[k] != 1,
    ensures
        present_before(present, j) == present_before(present, i),
    decreases j,
{
    if i < j {
        assert(present[j - 1] != 1);
        lemma_none_between(present, i, j - 1);
    }
}

/// The block of a sector is found from the header: behind the map there is none. A block whose byte
/// is 1 is stored. Any other is junk if the NKit header has a junk map with its bit set, and
/// otherwise zeroes; without an NKit header, or with one that has no junk map, it is zeroes.
pub proof fn law_ciso_kinds(header: Seq<u8>, len: u64, nkit: Option<NKitHeader>, sector: u32)
    requires
        header.len() == 0x8000,
        size_of_blocks(header) > 0,
    ensures
        ({
            let image = CisoImage { nkit, ..CisoImage::opened(header, len) };
            let idx = (sector * 0x8000 / size_of_blocks(header)) % 0x1_0000_0000;
            let (block, offset) = image.find(sector);
            &&& block.block_idx == idx
            &&& block.block_size == size_of_blocks(header)
            &&& offset is Some <==> is_stored(header, idx)
            &&& if idx >= 32760 {
                block.kind == BlockKind::OutOfBounds
            } else if is_stored(header, idx) {
                block.kind == BlockKind::Raw
            } else {
                match nkit {
                    Some(nkit_header) => match nkit_header.junk_bits {
                        Some(map) => block.kind == if idx < map@.len() && map@[idx] {
                            BlockKind::Junk
                        } else {
                            BlockKind::Zero
                        },
                        None => block.kind == BlockKind::Zero,
                    },
                    None => block.kind == BlockKind::Zero,
                }
            }
        }),
{
    lemma_header(header);
    let present = header_present(header);
    let idx = (sector * 0x8000 / size_of_blocks(header)) % 0x1_0000_0000;
    assert(0 <= sector * 0x8000 / size_of_blocks(header)) by (nonlinear_arith)
        requires
            size_of_blocks(header) > 0,
            sector >= 0,
    ;
    if idx < 32760 {
        assert(present[idx] == header[8 + idx]);
        crate::ciso::lemma_present_before(present, idx);
    }
}

/// The first stored block stands right behind the header, and each other one right behind the one
/// that is stored before it.
pub proof fn law_ciso_places(
    header: Seq<u8>,
    len: u64,
    nkit: Option<NKitHeader>,
    sector: u32,
    before: int,
)
    requires
        header.len() == 0x8000,
        size_of_blocks(header) > 0,
        ({
            let idx = (sector * 0x8000 / size_of_blocks(header)) % 0x1_0000_0000;
            &&& is_stored(header, idx)
            &&& -1 <= before < idx
            &&& before >= 0 ==> is_stored(header, before)
            &&& forall|k: int| before < k < idx ==> !#[trigger] is_stored(header, k)
        }),
    ensures
        ({
            let image = CisoImage { nkit, ..CisoImage::opened(header, len) };
            let at = image.find(sector).1.unwrap();
            &&& before < 0 ==> at == 0x8000
            &&& before >= 0 ==> at == 0x8000 + (image.places[before] + 1) * size_of_blocks(header)
            &&& forall|s: u32| #![trigger image.find(s)]
                (s * 0x8000 / size_of_blocks(header)) % 0x1_0000_0000 == before ==> image.find(
                    s,
                ).1 == Some(at - size_of_blocks(header))
        }),
{
    lemma_header(header);
    let present = header_present(header);
    let bs = size_of_blocks(header);
    let image = CisoImage { nkit, ..CisoImage::opened(header, len) };
    let idx = (sector * 0x8000 / bs) % 0x1_0000_0000;
    crate::ciso::lemma_present_before(present, idx);
    assert(present[idx] == header[8 + idx]);
    assert forall|k: int| before < k < idx implies #[trigger] present[k] != 1 by {
        assert(!is_stored(header, k));
    }
    lemma_none_between(present, before + 1, idx);
    let n = present_before(present, idx) as int;
    if before >= 0 {
        crate::ciso::lemma_present_before(present, before);
        assert(present[before] == header[8 + before]);
        let m = present_before(present, before) as int;
        assert(n == m + 1);
        assert(image.places[before] == m);
        assert((m + 1) * bs == m * bs + bs) by (nonlinear_arith);
        assert forall|s: u32| #![trigger image.find(s)]
            (s * 0x8000 / bs) % 0x1_0000_0000 == before implies image.find(s).1 == Some(
            image.find(sector).1.unwrap() - bs,
        ) by {}
    } else {
        assert(n == 0);
        assert(n * bs == 0) by (nonlinear_arith)
            requires
                n == 0,
        ;
        assert forall|s: u32| #![trigger image.find(s)]
            (s * 0x8000 / bs) % 0x1_0000_0000 == before implies image.find(s).1 == Some(
            image.find(sector).1.unwrap() - bs,
        ) by {
            assert(0 <= (s * 0x8000 / bs) % 0x1_0000_0000);
        }
    }
}

/// The stored blocks end behind the last of them, or behind the header if there is none.
pub proof fn law_ciso_data_end(header: Seq<u8>, last: int)
    requires
        header.len() == 0x8000,
        -1 <= last < 32760,
        last >= 0 ==> is_stored(header, last),
        forall|k: int| last < k < 32760 ==> !#[trigger] is_stored(header, k),
    ensures
        last < 0 ==> ciso_data_end(header) == 0x8000,
        last >= 0 ==> ciso_data_end(header) == 0x8000 + (places(header_present(header))[last] + 1)
            * size_of_blocks(header),
{
    lemma_header(header);
    let present = header_present(header);
    assert forall|k: int| last < k < 32760 implies #[trigger] present[k] != 1 by {
        assert(!is_stored(header, k));
    }
    lemma_none_between(present, last + 1, 32760);
    if last >= 0 {
        crate::ciso::lemma_present_before(present, last);
        assert(present[last] == header[8 + last]);
    } else {
        let n = present_before(present, 32760);
        assert(n * size_of_blocks(header) == 0) by (nonlinear_arith)
            requires
                n == 0,
        ;
    }
}

/// A file is refused if and only if it does not start with the magic, or ends before its stored
/// blocks do. An NKit header is looked for behind them, if more than twelve bytes follow.
pub proof fn law_ciso_faults(header: Seq<u8>, len: u64)
    requires
        header.len() == 0x8000,
    ensures
        !has_magic(header) ==> ciso_fault(header, len) == Some(Error::CisoMagic),
        has_magic(header) && ciso_data_end(header) > len ==> ciso_fault(header, len) == Some(
            Error::CisoFileSize { expected: ciso_data_end(header) as u64, len },
        ),
        has_magic(header) && ciso_data_end(header) <= len ==> ciso_fault(header, len) is None,
        len > ciso_data_end(header) + 12 ==> CisoImage::opened(header, len).nkit_offset == Some(
            ciso_data_end(header) as u64,
        ),
        len <= ciso_data_end(header) + 12 ==> CisoImage::opened(header, len).nkit_offset is None,
        CisoImage::opened(header, len).nkit is None,
        CisoImage::opened(header, len).block_size == size_of_blocks(header),
{
    lemma_header(header);
}

/// A disc is written as asked for if and only if CISO is asked for, without compression, and the
/// map has an entry for each block of 2 MiB.
pub proof fn law_ciso_refusals(disc_size: u64, options: FormatOptions)
    ensures
        ({
            let count = ((disc_size + 0x1F_FFFF) / 0x20_0000) % 0x1_0000_0000;
            let refusal = ciso_refusal(disc_size, options);
            &&& ciso_block_count(disc_size) == count
            &&& options.format != Format::Ciso ==> refusal == Some(Error::CisoFormat)
            &&& options.format == Format::Ciso && options.compression != Compression::Store
                ==> refusal == Some(Error::CisoCompression)
            &&& options.format == Format::Ciso && options.compression == Compression::Store && count
                > 32760 ==> refusal == Some(Error::CisoBlockCount { count: count as u32 })
            &&& options.format == Format::Ciso && options.compression == Compression::Store && count
                <= 32760 ==> refusal is None
        }),
{
}

/// How many bytes of the disc the first `k` blocks hold.
pub open spec fn bytes_read(blocks: Seq<CheckedBlock>, k: int) -> int
    decreases k,
{
    if k <= 0 {
        0
    } else {
        bytes_read(blocks, k - 1) + contents(blocks[k - 1].disc_data).len()
    }
}

/// What the image knows after the first `k` blocks of a run.
proof fn lemma_run(
    writer: DiscWriterCISO,
    disc_header: Seq<u8>,
    run: WriteRun<ProcessCISO>,
    k: int,
)
    requires
        is_writing(run.states, run.blocks, run.chunks),
        writer.begins(disc_header, run.first, run.states[0]),
        writer.unit() > 0,
        forall|i: int| 0 <= i < run.blocks.len() ==> (#[trigger] run.blocks[i]).block_idx == i,
        0 <= k <= run.blocks.len(),
    ensures
        ({
            let p = run.states[k]@;
            &&& p.block_size == writer.unit()
            &&& p.disc_size == writer.size()
            &&& p.position == bytes_read(run.blocks, k)
            &&& p.present.len() == 32760
            &&& p.junk.len() == junk_capacity(writer.unit())
            &&& forall|i: int|
                0 <= i < 32760 ==> #[trigger] p.present[i] == if i < k && run.blocks[i].meta
                    == CheckBlockResult::Normal {
                    1u8
                } else {
                    0u8
                }
            &&& forall|i: int|
                0 <= i < p.junk.len() ==> #[trigger] p.junk[i] == (i < k && run.blocks[i].meta
                    == CheckBlockResult::Junk)
        }),
        k > 0 ==> run.chunks[k - 1].is(
            contents(run.blocks[k - 1].block_data),
            bytes_read(run.blocks, k),
            writer.size(),
        ),
    decreases k,
{
    if k > 0 {
        lemma_run(writer, disc_header, run, k - 1);
        assert(run.states[k - 1].takes(run.blocks[k - 1]));
        assert(run.states[k - 1].advances(run.blocks[k - 1], run.chunks[k - 1], run.states[k]));
        assert(run.blocks[k - 1].block_idx == k - 1);
    } else {
        law_junk_map_size(writer.unit());
        let capacity = junk_capacity(writer.unit());
        assert(capacity >= 0) by (nonlinear_arith)
            requires
                capacity * writer.unit() >= 8_511_160_320,
                writer.unit() > 0,
        ;
    }
}

/// What a run hands out: a placeholder of zeroes, then for each block its block data with the
/// number of bytes of the disc that have been read so far, and in the end the encoded NKit header.
/// Every piece comes with the size of the disc.
pub proof fn law_ciso_pieces(
    writer: DiscWriterCISO,
    disc_header: Seq<u8>,
    run: WriteRun<ProcessCISO>,
    nkit: Seq<u8>,
    results: Seq<DigestResult>,
)
    requires
        is_run(writer, disc_header, run, nkit, results),
        writer.unit() > 0,
        forall|i: int| 0 <= i < run.blocks.len() ==> (#[trigger] run.blocks[i]).block_idx == i,
    ensures
        contents(run.first.data).len() == 0x8000,
        forall|j: int| 0 <= j < 0x8000 ==> #[trigger] contents(run.first.data)[j] == 0,
        run.first.position == 0,
        run.first.total == writer.size(),
        run.chunks.len() == run.blocks.len(),
        forall|i: int|
            0 <= i < run.chunks.len() ==> {
                &&& contents((#[trigger] run.chunks[i]).data) == contents(run.blocks[i].block_data)
                &&& run.chunks[i].position == bytes_read(run.blocks, i + 1)
                &&& run.chunks[i].total == writer.size()
            },
        run.last matches Some(last) && contents(last.data) == nkit && last.position == writer.size()
            && last.total == writer.size(),
{
    lemma_run(writer, disc_header, run, run.blocks.len() as int);
    assert forall|i: int| 0 <= i < run.chunks.len() implies {
        &&& contents((#[trigger] run.chunks[i]).data) == contents(run.blocks[i].block_data)
        &&& run.chunks[i].position == bytes_read(run.blocks, i + 1)
        &&& run.chunks[i].total == writer.size()
    } by {
        lemma_run(writer, disc_header, run, i + 1);
    }
}

/// The header that completes a file starts with the magic and the block size. The byte of a block
/// is 1 if and only if the block is stored, and zero otherwise.
pub proof fn law_ciso_final_header(
    writer: DiscWriterCISO,
    disc_header: Seq<u8>,
    run: WriteRun<ProcessCISO>,
    nkit: Seq<u8>,
    results: Seq<DigestResult>,
)
    requires
        is_run(writer, disc_header, run, nkit, results),
        writer.unit() > 0,
        forall|i: int| 0 <= i < run.blocks.len() ==> (#[trigger] run.blocks[i]).block_idx == i,
    ensures
        ({
            let header = contents(run.finalization.header);
            &&& header.len() == 0x8000
            &&& has_magic(header)
            &&& size_of_blocks(header) == writer.unit()
            &&& forall|i: int|
                0 <= i < 32760 ==> #[trigger] is_stored(header, i) == (i < run.blocks.len()
                    && run.blocks[i].meta == CheckBlockResult::Normal)
            &&& forall|i: int|
                0 <= i < 32760 ==> header[8 + i] == 1 || #[trigger] header[8 + i] == 0
        }),
        run.finalization.digests == (Digests {
            crc32: None,
            md5: None,
            sha1: None,
            xxh64: None,
        }).with_all(results),
{
    let n = run.blocks.len() as int;
    lemma_run(writer, disc_header, run, n);
    let p = run.states[n]@;
    let header = contents(run.finalization.header);
    assert(header == ciso_header(p.block_size, p.present));
    assert(CISO_MAGIC@ =~= seq![67u8, 73u8, 83u8, 79u8]);
    crate::endian::law_le_u32_round_trip(p.block_size);
    let b = crate::endian::le_u32_seq(p.block_size);
    assert(header[4] == b[0] && header[5] == b[1] && header[6] == b[2] && header[7] == b[3]);
    assert(le_u32(b) == p.block_size);
    assert forall|i: int| 0 <= i < 32760 implies #[trigger] header[8 + i] == p.present[i] by {}
    assert forall|i: int| 0 <= i < 32760 implies #[trigger] is_stored(header, i) == (i
        < run.blocks.len() && run.blocks[i].meta == CheckBlockResult::Normal) by {
        assert(header[8 + i] == p.present[i]);
    }
}

/// The NKit header of a run for a disc of `disc_size` bytes says that the disc has that size. Its
/// junk map has the bits of the junk blocks set and no other, and it holds the digests that were
/// computed. A reader that takes it reports that size and those digests.
pub proof fn law_ciso_nkit_header(
    writer: DiscWriterCISO,
    disc_size: u64,
    disc_header: Seq<u8>,
    run: WriteRun<ProcessCISO>,
    nkit: Seq<u8>,
    results: Seq<DigestResult>,
)
    requires
        is_run(writer, disc_header, run, nkit, results),
        writer.size() == disc_size,
        writer.unit() > 0,
        forall|i: int| 0 <= i < run.blocks.len() ==> (#[trigger] run.blocks[i]).block_idx == i,
    ensures
        run.nkit_header.version == 2,
        run.nkit_header.size == Some(disc_size),
        run.nkit_header.encrypted,
        run.nkit_header.digests == (Digests {
            crc32: None,
            md5: None,
            sha1: None,
            xxh64: None,
        }).with_all(results),
        run.nkit_header.junk_bits matches Some(map) && map@.len() == junk_capacity(writer.unit())
            && forall|i: int|
            0 <= i < map@.len() ==> #[trigger] map@[i] == (i < run.blocks.len()
                && run.blocks[i].meta == CheckBlockResult::Junk),
        ({
            let meta = DiscMeta::of(Format::Ciso, writer.unit(), Some(run.nkit_header));
            &&& meta.disc_size == Some(disc_size)
            &&& meta.digests == run.nkit_header.digests
        }),
{
    lemma_run(writer, disc_header, run, run.blocks.len() as int);
}

/// A writer takes every block of a disc that it was not refused for, as long as what has been read
/// can be counted.
#[verifier::rlimit(40)]
pub proof fn law_ciso_takes_disc(
    writer: DiscWriterCISO,
    disc_size: u64,
    options: FormatOptions,
    disc_header: Seq<u8>,
    run: WriteRun<ProcessCISO>,
    next: CheckedBlock,
)
    requires
        ciso_refusal(disc_size, options) is None,
        disc_size <= 0x1F_FFFF_FFE0_0000,
        is_writing(run.states, run.blocks, run.chunks),
        writer.begins(disc_header, run.first, run.states[0]),
        writer.unit() > 0,
        forall|i: int| 0 <= i < run.blocks.len() ==> (#[trigger] run.blocks[i]).block_idx == i,
        next.block_idx == run.blocks.len(),
        next.block_idx * 0x200000 < disc_size,
        bytes_read(run.blocks, run.blocks.len() as int) + contents(next.disc_data).len()
            <= 0xFFFF_FFFF_FFFF_FFFF,
    ensures
        run.states.last().takes(next),
{
    let n = run.blocks.len() as int;
    lemma_run(writer, disc_header, run, n);
    law_ciso_refusals(disc_size, options);
    let count = (disc_size + 0x1F_FFFF) / 0x20_0000;
    assert(0 <= count < 0x1_0000_0000 && count % 0x1_0000_0000 == count);
    assert(next.block_idx < count);
    assert(count <= 32760);
}

} // verus!
