use bytes::Bytes;
use nod::block::{read_block, BlockResult, ReadBlock};
use nod::check::CheckBlockResult;
use nod::ciso::{BlockReaderCISO, DiscWriterCISO, CISO_MAP_SIZE};
use nod::disc::{BootHeader, DiscHeader, PartitionInfo, PartitionKind, SECTOR_SIZE};
use nod::error::Error;
use nod::image::{Block, BlockKind};
use nod::lfg::LaggedFibonacci;
use nod::nkit::{DigestResult, JunkBits, NKitHeader};
use nod::options::{Compression, DiscWriterWeight, Format, FormatOptions, ScrubLevel};
use nod::processor::BlockProcessor;
use nod::wbfs::{check_disc_table, BlockReaderWBFS, DiscWriterWBFS, WBFSHeader};
use nod::writer::{DiscWriter, WriteProcess};

const HEADER: DiscHeader = DiscHeader { game_id: *b"GALE01", disc_num: 0, wii: false };

/// A disc of four blocks and a half: content, zeroes, junk data, content, and content again.
fn disc(block_size: usize) -> Vec<u8> {
    let mut disc: Vec<u8> =
        (0..block_size * 9 / 2).map(|i| (i.wrapping_mul(31) >> 3) as u8 | 1).collect();
    disc[..6].copy_from_slice(b"GALE01");
    disc[block_size..2 * block_size].fill(0);
    LaggedFibonacci::default().fill_sector_chunked(
        &mut disc[2 * block_size..3 * block_size],
        *b"GALE",
        0,
        2 * block_size as u64,
    );
    disc
}

fn read(disc: &[u8], position: usize, block_size: usize) -> (Bytes, Bytes) {
    // The reader has one sector at a time at hand.
    let end = disc.len().min(position + SECTOR_SIZE);
    let initial = Bytes::copy_from_slice(&disc[position..end]);
    match read_block(&initial, block_size).unwrap() {
        ReadBlock::Full { block_data, disc_data } => (block_data, disc_data),
        ReadBlock::Partial(partial) => {
            let end = disc.len().min(end + partial.remaining());
            partial.push(&disc[position + initial.len()..end]).finish()
        }
    }
}

struct Written {
    file: Vec<u8>,
    nkit_header: NKitHeader,
    progress: Vec<u64>,
}

fn write<W: DiscWriter>(
    writer: &W,
    disc: &[u8],
    block_size: usize,
    partitions: Vec<PartitionInfo>,
    scrub: ScrubLevel,
    nkit: &[u8],
) -> Written {
    let digests = [DigestResult::Crc32(0x1234), DigestResult::Xxh64(5)];
    let (first, mut process) = writer.begin(&disc[..0x400]).ok().unwrap();
    let mut file = first.data.to_vec();
    let mut progress = vec![first.position];
    let mut processor = writer.processor(partitions, &HEADER, scrub).ok().unwrap();
    for block_idx in 0..writer.block_count() {
        let position = processor.input_position(block_idx) as usize;
        assert_eq!(position, block_idx as usize * block_size);
        let (block_data, disc_data) = read(disc, position, block_size);
        // Every thread has a processor of its own.
        processor = processor.try_clone().ok().unwrap();
        let block = processor.process_block(block_idx, block_data, disc_data).unwrap();
        let chunk = process.write_block(block);
        assert_eq!(chunk.total, disc.len() as u64);
        file.extend_from_slice(&chunk.data);
        progress.push(chunk.position);
    }
    let nkit_header = process.nkit_header(&digests);
    let (last, finalization) = process.finish(nkit, &digests);
    if let Some(chunk) = last {
        file.extend_from_slice(&chunk.data);
        progress.push(chunk.position);
    }
    file[..finalization.header.len()].copy_from_slice(&finalization.header);
    assert_eq!(finalization.digests.crc32, Some(0x1234));
    assert_eq!(finalization.digests.md5, None);
    assert_eq!(finalization.digests.xxh64, Some(5));
    Written { file, nkit_header, progress }
}

fn options(format: Format, compression: Compression, block_size: u32) -> FormatOptions {
    FormatOptions { format, compression, block_size }
}

#[test]
fn ciso_writer_refusals() {
    let new = |size, format, compression| {
        DiscWriterCISO::new(size, &options(format, compression, 0x200000)).err()
    };
    assert_eq!(new(1, Format::Wbfs, Compression::Store), Some(Error::CisoFormat));
    assert_eq!(new(1, Format::Ciso, Compression::Zstandard(-5)), Some(Error::CisoCompression));
    let max = CISO_MAP_SIZE as u64 * 0x200000;
    assert_eq!(new(max, Format::Ciso, Compression::Store), None);
    assert_eq!(
        new(max + 1, Format::Ciso, Compression::Store),
        Some(Error::CisoBlockCount { count: 32761 })
    );
    let writer =
        DiscWriterCISO::new(0x200001, &options(Format::Ciso, Compression::Store, 0)).ok().unwrap();
    assert_eq!(writer.block_count(), 2);
    assert_eq!(writer.progress_bound(), 0x200001);
    assert_eq!(writer.weight(), DiscWriterWeight::Medium);
}

#[test]
fn ciso_gives_back_what_was_written() {
    let block_size = 0x200000;
    let disc = disc(block_size);
    let writer =
        DiscWriterCISO::new(disc.len() as u64, &options(Format::Ciso, Compression::Store, 0))
            .ok()
            .unwrap();
    let nkit = [0x4Eu8; 40];
    let written = write(&writer, &disc, block_size, vec![], ScrubLevel::Lossless, &nkit);
    let file = written.file;
    let bs = block_size as u64;
    assert_eq!(
        written.progress,
        vec![0, bs, 2 * bs, 3 * bs, 4 * bs, disc.len() as u64, disc.len() as u64]
    );
    assert_eq!(&file[..8], b"CISO\0\0\x20\0");
    assert_eq!(&file[8..15], &[1, 0, 0, 1, 1, 0, 0]);
    assert_eq!(file.len(), SECTOR_SIZE + 3 * block_size + 40);

    let mut reader =
        BlockReaderCISO::new(&file[..SECTOR_SIZE], file.len() as u64).ok().unwrap();
    let data_end = SECTOR_SIZE + 3 * block_size;
    assert_eq!(reader.nkit_offset(), Some(data_end as u64));
    assert_eq!(&file[data_end..], &nkit);
    assert_eq!(reader.meta().disc_size, None);
    reader.set_nkit_header(Some(written.nkit_header));
    assert_eq!(reader.block_size(), 0x200000);
    let meta = reader.meta();
    assert_eq!((meta.format, meta.block_size), (Format::Ciso, Some(0x200000)));
    assert_eq!((meta.disc_size, meta.digests.crc32), (Some(disc.len() as u64), Some(0x1234)));

    let sectors_per_block = (block_size / SECTOR_SIZE) as u32;
    let kinds = [
        BlockKind::Raw,
        BlockKind::Zero,
        BlockKind::Junk,
        BlockKind::Raw,
        BlockKind::Raw,
        BlockKind::Zero,
    ];
    for (i, kind) in kinds.into_iter().enumerate() {
        for sector in [0, sectors_per_block - 1] {
            let (block, offset) = reader.read_block(i as u32 * sectors_per_block + sector);
            assert_eq!(block, Block { block_idx: i as u32, block_size: 0x200000, kind });
            assert_eq!(offset.is_some(), kind == BlockKind::Raw);
            if let Some(offset) = offset {
                let data = &file[offset as usize..offset as usize + block_size];
                let on_disc = &disc[i * block_size..disc.len().min((i + 1) * block_size)];
                assert_eq!(&data[..on_disc.len()], on_disc);
                assert!(data[on_disc.len()..].iter().all(|&b| b == 0));
            }
        }
    }
    let (block, offset) = reader.read_block(CISO_MAP_SIZE as u32 * sectors_per_block);
    assert_eq!((block.kind, offset), (BlockKind::OutOfBounds, None));
}

#[test]
fn ciso_reader_with_a_given_map() {
    let mut header = vec![0u8; SECTOR_SIZE];
    header[..8].copy_from_slice(b"CISO\0\0\x01\0");
    header[10] = 1;
    // What the map held before does not show.
    let map = vec![7u16; CISO_MAP_SIZE];
    assert_eq!(
        BlockReaderCISO::with_map(&header, 0x17FFF, map.clone()).err(),
        Some(Error::CisoFileSize { expected: 0x18000, len: 0x17FFF })
    );
    let reader = BlockReaderCISO::with_map(&header, 0x18000, map).ok().unwrap();
    assert_eq!(reader.read_block(0).0.kind, BlockKind::Zero);
    assert_eq!(reader.read_block(5), (
        Block { block_idx: 2, block_size: 0x10000, kind: BlockKind::Raw },
        Some(0x8000)
    ));
}

#[test]
fn ciso_image_with_a_given_map() {
    let writer =
        DiscWriterCISO::new(10, &options(Format::Ciso, Compression::Store, 0)).ok().unwrap();
    let (first, process) = writer.begin_with(vec![0u8; CISO_MAP_SIZE]);
    assert_eq!((first.data.len(), first.position, first.total), (SECTOR_SIZE, 0, 10));
    assert!(first.data.iter().all(|&b| b == 0));
    let (last, finalization) = process.finish(b"nkit", &[]);
    assert_eq!(last.unwrap().data.as_ref(), b"nkit");
    assert_eq!(&finalization.header[..12], b"CISO\0\0\x20\0\0\0\0\0");
}

#[test]
fn ciso_reader_faults() {
    let mut header = vec![0u8; SECTOR_SIZE];
    header[..4].copy_from_slice(b"CISX");
    assert_eq!(BlockReaderCISO::check_magic(&header), Err(Error::CisoMagic));
    assert_eq!(BlockReaderCISO::new(&header, 0).err(), Some(Error::CisoMagic));
    header[..8].copy_from_slice(b"CISO\0\x01\0\0");
    header[8] = 1;
    header[9] = 2;
    header[11] = 1;
    assert_eq!(BlockReaderCISO::check_magic(&header), Ok(()));
    let size = SECTOR_SIZE as u64 + 0x200;
    assert_eq!(
        BlockReaderCISO::new(&header, size - 1).err(),
        Some(Error::CisoFileSize { expected: size, len: size - 1 })
    );
    // An NKit header has more than twelve bytes.
    let offset = |len| BlockReaderCISO::new(&header, len).ok().unwrap().nkit_offset();
    assert_eq!(offset(size), None);
    assert_eq!(offset(size + 12), None);
    assert_eq!(offset(size + 13), Some(size));

    // Blocks smaller than a sector: only every 128th can be found. A byte other than 1 means that
    // the block is not stored.
    let reader = BlockReaderCISO::new(&header, size).ok().unwrap();
    assert_eq!(reader.read_block(0).1, Some(0x8000));
    assert_eq!(reader.read_block(1).0.block_idx, 0x80);
    header[4..8].copy_from_slice(&0x8000u32.to_le_bytes());
    let reader = BlockReaderCISO::new(&header, u64::MAX).ok().unwrap();
    assert_eq!(reader.read_block(0).1, Some(0x8000));
    assert_eq!(reader.read_block(1).0.kind, BlockKind::Zero);
    assert_eq!(reader.read_block(3).1, Some(0x10000));
}

#[test]
fn scrubbed_partition_is_left_out() {
    let block_size = 0x200000;
    let disc = disc(block_size);
    let writer =
        DiscWriterCISO::new(disc.len() as u64, &options(Format::Ciso, Compression::Store, 0))
            .ok()
            .unwrap();
    let update = PartitionInfo {
        index: 0,
        kind: PartitionKind::Update,
        start_sector: 192,
        data_start_sector: 192,
        data_end_sector: 256,
        key: [0; 16],
        has_encryption: false,
        has_hashes: false,
        disc_header: HEADER,
        boot_header: BootHeader { fst_offset: 0, fst_size: 0 },
        fst: None,
    };
    let scrubbed =
        write(&writer, &disc, block_size, vec![update.clone()], ScrubLevel::UpdatePartition, &[]);
    assert_eq!(&scrubbed.file[8..13], &[1, 0, 0, 0, 1]);
    let kept = write(&writer, &disc, block_size, vec![update], ScrubLevel::Lossless, &[]);
    assert_eq!(&kept.file[8..13], &[1, 0, 0, 1, 1]);
}

#[test]
fn block_in_partition_cannot_be_partial() {
    let writer =
        DiscWriterCISO::new(0x200000, &options(Format::Ciso, Compression::Store, 0)).ok().unwrap();
    let partition = PartitionInfo {
        index: 0,
        kind: PartitionKind::Data,
        start_sector: 0,
        data_start_sector: 0,
        data_end_sector: 1000,
        key: [0; 16],
        has_encryption: true,
        has_hashes: true,
        disc_header: HEADER,
        boot_header: BootHeader { fst_offset: 0, fst_size: 0 },
        fst: None,
    };
    let mut processor =
        writer.processor(vec![partition], &HEADER, ScrubLevel::Lossless).ok().unwrap();
    let data = Bytes::from(vec![1u8; 100]);
    assert_eq!(
        processor.process_block(0, data.clone(), data).err(),
        Some(Error::PartitionBlockPartial)
    );
    let zeroed = Bytes::from(vec![0u8; SECTOR_SIZE]);
    let block = processor.process_block(0, zeroed.clone(), zeroed.clone()).unwrap();
    assert_eq!((block.meta, block.disc_data), (CheckBlockResult::Normal, zeroed));
}

#[test]
fn wbfs_header_layout() {
    let bytes = *b"WBFS\x01\x02\x03\x04\x09\x15\x01\x00";
    let header = WBFSHeader::from_bytes(&bytes);
    assert_eq!(&header.magic, b"WBFS");
    assert_eq!(header.num_sectors, 0x01020304);
    assert_eq!((header.sector_size(), header.block_size()), (512, 0x200000));
    assert_eq!(header.max_blocks(), 4482);
    assert_eq!((header.version, header.pad), (1, 0));
    assert_eq!(header.to_bytes(), bytes);
    let smallest = WBFSHeader { block_size_shift: 15, ..header };
    assert_eq!((smallest.block_size(), smallest.max_blocks()), (0x8000, 286864));
}

#[test]
fn wbfs_writer_refusals() {
    let new = |size, format, compression, block_size| {
        DiscWriterWBFS::new(size, &options(format, compression, block_size)).err()
    };
    let store = Compression::Store;
    assert_eq!(new(1, Format::Ciso, store, 0x200000), Some(Error::WbfsFormat));
    assert_eq!(new(1, Format::Wbfs, Compression::Lzma(1), 0x200000), Some(Error::WbfsCompression));
    assert_eq!(new(1, Format::Wbfs, store, 0x7FFF), Some(Error::WbfsBlockSize));
    assert_eq!(new(1, Format::Wbfs, store, 0x8001), Some(Error::WbfsBlockSize));
    assert_eq!(new(0x8000 * 65535 + 1, Format::Wbfs, store, 0x8000), Some(Error::WbfsBlockCount));
    assert_eq!(new(0x8000 * 65535, Format::Wbfs, store, 0x8000), Some(Error::WbfsInfoTooLarge));
    assert_eq!(new(1, Format::Wbfs, store, 0x20000), Some(Error::WbfsInfoTooLarge));
    assert_eq!(new(1, Format::Wbfs, store, 0x40000), None);
    // 35 sectors: the map is made for blocks of one sector.
    assert_eq!(new(1, Format::Wbfs, store, 0x118000), None);
    assert_eq!(new(1, Format::Wbfs, store, 0x78000), Some(Error::WbfsInfoTooLarge));
}

#[test]
fn wbfs_writer_with_a_given_table() {
    let header = WBFSHeader::from_bytes(b"WBFS\0\0\0\0\x09\x12\x01\0");
    let writer =
        DiscWriterWBFS::with_table(100, 0x40000, 1, header, vec![0u8; 500]).ok().unwrap();
    assert_eq!((writer.block_count(), writer.progress_bound()), (1, 100));
    assert_eq!(writer.block_size(), 0x40000);
    let map = vec![0u16; header.max_blocks() as usize];
    let (first, process) = writer.begin_with(&[0xAB; 0x100], map);
    assert_eq!((first.data.len(), first.position, first.total), (0x40000, 0, 100));
    assert_eq!(&first.data[..13], b"WBFS\0\0\0\0\x09\x12\x01\0\x01");
    assert_eq!((first.data[511], first.data[512], first.data[768]), (0, 0xAB, 0));
    let (last, finalization) = process.finish(b"nkit", &[]);
    assert!(last.is_none());
    assert_eq!(finalization.header.len(), 0x10004);
    // One block of 512 sectors
    assert_eq!(&finalization.header[..8], b"WBFS\0\0\x02\0");

    let header = WBFSHeader { block_size_shift: 17, ..header };
    assert_eq!(
        DiscWriterWBFS::with_table(100, 0x20000, 1, header, vec![0u8; 500]).err(),
        Some(Error::WbfsInfoTooLarge)
    );
}

#[test]
fn processor_with_a_given_buffer() {
    let block_size = 0x40000;
    let disc = disc(block_size);
    let writer = DiscWriterWBFS::new(
        disc.len() as u64,
        &options(Format::Wbfs, Compression::Store, block_size as u32),
    )
    .ok()
    .unwrap();
    let mut processor = writer.processor_with(
        vec![],
        &HEADER,
        ScrubLevel::Lossless,
        vec![0xEE; block_size],
    );
    let mut copy = processor.clone_with(vec![0x11; block_size]);
    let expected = [CheckBlockResult::Normal, CheckBlockResult::Zeroed, CheckBlockResult::Junk];
    for (i, meta) in expected.into_iter().enumerate() {
        for p in [&mut processor, &mut copy] {
            let (block_data, disc_data) = read(&disc, i * block_size, block_size);
            let block = p.process_block(i as u32, block_data, disc_data).unwrap();
            assert_eq!((block.block_idx, block.meta), (i as u32, meta));
        }
    }
}

#[test]
fn two_runs_have_the_same_output() {
    let block_size = 0x40000;
    let disc = disc(block_size);
    let writer = DiscWriterWBFS::new(
        disc.len() as u64,
        &options(Format::Wbfs, Compression::Store, block_size as u32),
    )
    .ok()
    .unwrap();
    let run = || write(&writer, &disc, block_size, vec![], ScrubLevel::Lossless, b"nkit");
    let (a, b) = (run(), run());
    assert_eq!((a.file, a.progress), (b.file, b.progress));
    assert_eq!(
        a.nkit_header.junk_bits.unwrap().as_bytes(),
        b.nkit_header.junk_bits.unwrap().as_bytes()
    );
}

#[test]
fn dropped_blocks_need_no_entry_in_the_map() {
    // A disc with one block more than the map has entries; all but the first are zeroes.
    let block_size = 0x4000000;
    let header = WBFSHeader::from_bytes(b"WBFS\0\0\0\0\x09\x1A\x01\0");
    assert_eq!(header.max_blocks(), 140);
    let writer =
        DiscWriterWBFS::with_table(141 * block_size, block_size as u32, 141, header, vec![0; 500])
            .ok()
            .unwrap();
    let (_, mut process) = writer.begin_with(&[0; 0x100], vec![0; 140]);
    let block = |block_idx, meta| BlockResult {
        block_idx,
        disc_data: Bytes::new(),
        block_data: Bytes::new(),
        meta,
    };
    assert!(process.can_take(&block(139, CheckBlockResult::Normal)));
    assert!(!process.can_take(&block(140, CheckBlockResult::Normal)));
    let dropped = block(140, CheckBlockResult::Zeroed);
    assert!(process.can_take(&dropped));
    assert!(process.write_block(dropped).data.is_empty());
}

#[test]
fn wbfs_gives_back_what_was_written() {
    let block_size = 0x40000;
    let disc = disc(block_size);
    let writer = DiscWriterWBFS::new(
        disc.len() as u64,
        &options(Format::Wbfs, Compression::Store, block_size as u32),
    )
    .ok()
    .unwrap();
    assert_eq!(writer.block_count(), 5);
    assert_eq!(writer.progress_bound(), disc.len() as u64);
    assert_eq!(writer.weight(), DiscWriterWeight::Medium);
    let nkit = [0x4Eu8; 40];
    let written = write(&writer, &disc, block_size, vec![], ScrubLevel::Lossless, &nkit);
    let file = written.file;
    assert_eq!(file.len(), 4 * block_size);
    // Header, disc table, copy of the disc header, map
    assert_eq!(&file[..14], b"WBFS\0\0\x08\0\x09\x12\x01\0\x01\0");
    assert!(file[13..512].iter().all(|&b| b == 0));
    assert_eq!(&file[512..768], &disc[..256]);
    assert_eq!(&file[768..780], &[0, 1, 0, 0, 0, 0, 0, 2, 0, 3, 0, 0]);
    assert_eq!(&file[0x10000..0x10000 + 40], &nkit);

    let header = WBFSHeader::from_bytes(&file[..12]);
    assert_eq!(header.check_magic(), Ok(()));
    assert_eq!(header.check_file_size(file.len() as u64), Ok(()));
    let map_end = 768 + 2 * header.max_blocks() as usize;
    let mut reader = BlockReaderWBFS::new(
        &header,
        file.len() as u64,
        &file[12..512],
        &file[768..map_end],
    )
    .ok()
    .unwrap();
    assert_eq!(reader.nkit_offset(), 0x10000);
    reader.set_nkit_header(Some(written.nkit_header));
    assert_eq!(reader.block_size(), 0x40000);
    let meta = reader.meta();
    assert_eq!((meta.format, meta.block_size), (Format::Wbfs, Some(0x40000)));
    assert_eq!((meta.disc_size, meta.digests.xxh64), (Some(disc.len() as u64), Some(5)));

    let kinds = [
        BlockKind::Raw,
        BlockKind::Zero,
        BlockKind::Junk,
        BlockKind::Raw,
        BlockKind::Raw,
        BlockKind::Zero,
    ];
    for (i, kind) in kinds.into_iter().enumerate() {
        let (block, offset) = reader.read_block(i as u32 * 8 + 7);
        assert_eq!(block, Block { block_idx: i as u32, block_size: 0x40000, kind });
        assert_eq!(offset.is_some(), kind == BlockKind::Raw);
        if let Some(offset) = offset {
            let data = &file[offset as usize..offset as usize + block_size];
            let on_disc = &disc[i * block_size..disc.len().min((i + 1) * block_size)];
            assert_eq!(&data[..on_disc.len()], on_disc);
            assert!(data[on_disc.len()..].iter().all(|&b| b == 0));
        }
    }
    let (block, offset) = reader.read_block(286864);
    assert_eq!((block.kind, offset), (BlockKind::OutOfBounds, None));
}

#[test]
fn wbfs_reader_faults() {
    let good = WBFSHeader::from_bytes(b"WBFS\0\0\0\x02\x09\x18\x01\0");
    let mut table = vec![0u8; 500];
    let map = vec![0u8; 2 * good.max_blocks() as usize];
    let new = |header: &WBFSHeader, len, table: &[u8]| {
        BlockReaderWBFS::new(header, len, table, &map).err()
    };
    let bad = WBFSHeader { magic: *b"CISO", ..good };
    assert_eq!(new(&bad, 1024, &table), Some(Error::WbfsMagic));
    assert_eq!(
        new(&good, 1023, &table),
        Some(Error::WbfsFileSize { len: 1023, expected: 1024 })
    );
    assert_eq!(new(&good, 1024, &table), Some(Error::WbfsNoDisc));
    table[0] = 1;
    table[499] = 1;
    assert_eq!(new(&good, 1024, &table), Some(Error::WbfsMultipleDiscs));
    assert_eq!(check_disc_table(&table), Err(Error::WbfsMultipleDiscs));
    table[499] = 0;
    assert_eq!(new(&good, 1024, &table), None);
    assert_eq!(check_disc_table(&table), Ok(()));
}

#[test]
fn junk_map() {
    let mut map = JunkBits::new(0x200000);
    assert_eq!(map.as_bytes().len(), 508);
    map.set(0, true);
    map.set(9, true);
    map.set(10, true);
    map.set(9, false);
    // Behind the map
    map.set(4064, true);
    assert_eq!(&map.as_bytes()[..3], &[0x80, 0x20, 0]);
    assert!(map.get(0) && map.get(10));
    assert!(!map.get(1) && !map.get(9) && !map.get(4064) && !map.get(u32::MAX));
    let copy = JunkBits::from_bytes(map.as_bytes().to_vec());
    assert!(copy.get(10) && !copy.get(11));
    assert_eq!(map.clone().as_bytes(), copy.as_bytes());
    assert_eq!(JunkBits::new(0x8000).as_bytes().len(), 32468);
}

#[test]
fn digests_are_taken_over() {
    let mut header = NKitHeader {
        version: 2,
        size: None,
        digests: nod::nkit::Digests::new(),
        junk_bits: None,
        encrypted: true,
    };
    assert_eq!(header.is_junk_block(0), None);
    header.apply_digests(&[
        DigestResult::Crc32(1),
        DigestResult::Md5([2; 16]),
        DigestResult::Sha1([3; 20]),
        DigestResult::Crc32(4),
    ]);
    assert_eq!(header.digests.crc32, Some(4));
    assert_eq!(header.digests.md5, Some([2; 16]));
    assert_eq!(header.digests.sha1, Some([3; 20]));
    assert_eq!(header.digests.xxh64, None);
    header.junk_bits = Some(JunkBits::new(0x200000));
    assert_eq!(header.is_junk_block(0), Some(false));
}
