use bytes::Bytes;
use nod::block::{read_block, BlockResult, ReadBlock};
use nod::error::{Error, ErrorKind};
use nod::order::BlockOrder;

#[test]
fn full_block_is_sliced() {
    let data = Bytes::from_static(b"abcdefgh");
    match read_block(&data, 5).unwrap() {
        ReadBlock::Full { block_data, disc_data } => {
            assert_eq!(block_data.as_ref(), b"abcde");
            assert_eq!(disc_data.as_ref(), b"abcde");
        }
        ReadBlock::Partial(_) => panic!("the block is complete"),
    }
}

#[test]
fn smaller_blocks_are_combined() {
    let data = Bytes::from_static(b"abc");
    match read_block(&data, 8).unwrap() {
        ReadBlock::Full { .. } => panic!("the block is not complete"),
        ReadBlock::Partial(partial) => {
            assert_eq!(partial.remaining(), 5);
            let partial = partial.push(b"de").push(b"f");
            assert_eq!(partial.remaining(), 2);
            let (block_data, disc_data) = partial.finish();
            assert_eq!(block_data.as_ref(), b"abcdef\0\0");
            assert_eq!(disc_data.as_ref(), b"abcdef");
        }
    }
}

#[test]
fn end_of_disc() {
    assert!(matches!(read_block(&Bytes::new(), 8), Err(Error::UnexpectedEof)));
}

/// Reads block after block, with `at_hand` bytes at hand and up to `step` bytes at a time.
fn split(disc: &[u8], block_size: usize, at_hand: usize, step: usize) -> Vec<(Bytes, Bytes)> {
    let mut parts = Vec::new();
    let mut position = 0;
    loop {
        let initial =
            Bytes::copy_from_slice(&disc[position..disc.len().min(position + at_hand)]);
        match read_block(&initial, block_size) {
            Ok(ReadBlock::Full { block_data, disc_data }) => {
                position += disc_data.len();
                parts.push((block_data, disc_data));
            }
            Ok(ReadBlock::Partial(mut partial)) => {
                position += initial.len();
                while partial.remaining() > 0 && position < disc.len() {
                    let len = step.min(partial.remaining()).min(disc.len() - position);
                    partial = partial.push(&disc[position..position + len]);
                    position += len;
                }
                parts.push(partial.finish());
            }
            Err(e) => {
                assert_eq!(e, Error::UnexpectedEof);
                return parts;
            }
        }
    }
}

#[test]
fn reading_splits_the_disc_without_loss() {
    for len in [0usize, 1, 4, 5, 10, 13] {
        let disc: Vec<u8> = (1..=len as u8).collect();
        for at_hand in 1..8 {
            for step in 1..4 {
                let parts = split(&disc, 5, at_hand, step);
                assert_eq!(parts.len(), len.div_ceil(5));
                let joined: Vec<u8> =
                    parts.iter().flat_map(|(_, disc_data)| disc_data.to_vec()).collect();
                assert_eq!(joined, disc);
                for (i, (block_data, disc_data)) in parts.iter().enumerate() {
                    assert_eq!(block_data.len(), 5);
                    assert_eq!(&block_data[..disc_data.len()], disc_data.as_ref());
                    assert!(i + 1 == parts.len() || disc_data.len() == 5);
                }
            }
        }
    }
}

#[test]
fn empty_block_result() {
    let block: BlockResult<u32> = BlockResult::default();
    assert_eq!((block.block_idx, block.meta), (0, 0));
    assert!(block.disc_data.is_empty() && block.block_data.is_empty());
}

fn block(block_idx: u32) -> BlockResult<u32> {
    BlockResult { block_idx, meta: block_idx * 10, ..Default::default() }
}

fn accept(order: &mut BlockOrder<u32>, block_idx: u32) -> Vec<(u32, u32)> {
    let delivered = order.accept(block(block_idx)).unwrap();
    delivered.iter().map(|b| (b.block_idx, b.meta)).collect()
}

#[test]
fn blocks_are_delivered_in_order() {
    let mut order = BlockOrder::new();
    assert_eq!(accept(&mut order, 3), vec![]);
    assert_eq!(accept(&mut order, 1), vec![]);
    assert_eq!(accept(&mut order, 0), vec![(0, 0), (1, 10)]);
    assert_eq!(accept(&mut order, 5), vec![]);
    assert_eq!(accept(&mut order, 4), vec![]);
    assert_eq!(accept(&mut order, 2), vec![(2, 20), (3, 30), (4, 40), (5, 50)]);
    assert_eq!(accept(&mut order, 6), vec![(6, 60)]);
}

#[test]
fn every_order_of_arrival_delivers_all_blocks() {
    let mut arrivals = vec![0u32, 1, 2, 3, 4];
    // All permutations, by Heap's algorithm
    let mut count = vec![0usize; 5];
    let mut i = 0;
    loop {
        let mut order = BlockOrder::new();
        let delivered: Vec<u32> =
            arrivals.iter().flat_map(|&idx| accept(&mut order, idx)).map(|(idx, _)| idx).collect();
        assert_eq!(delivered, vec![0, 1, 2, 3, 4]);
        while i < 5 && count[i] >= i {
            count[i] = 0;
            i += 1;
        }
        if i == 5 {
            break;
        }
        let j = if i % 2 == 0 { 0 } else { count[i] };
        arrivals.swap(j, i);
        count[i] += 1;
        i = 0;
    }
}

#[test]
fn duplicate_block_is_an_error() {
    let mut order = BlockOrder::new();
    accept(&mut order, 7);
    accept(&mut order, 4);
    accept(&mut order, 9);
    let error = order.accept(block(7)).err().unwrap();
    // The place among the blocks that wait
    assert_eq!(error, Error::DuplicateBlock { idx: 1 });
    assert_eq!(error.message(), "Unexpected duplicate block 1");
    assert_eq!(error.kind(), ErrorKind::Other);
}

#[test]
fn error_messages() {
    let cases = [
        (Error::UnexpectedEof, ErrorKind::Io, "unexpected end of file"),
        (Error::OutOfMemory, ErrorKind::Io, "allocation failed"),
        (
            Error::PartitionBlockUnaligned,
            ErrorKind::Io,
            "Partition block not aligned to sector boundary",
        ),
        (
            Error::PartitionBlockPartial,
            ErrorKind::Io,
            "Partition block not a multiple of sector size",
        ),
        (Error::DecryptedBlockTooSmall, ErrorKind::Io, "Decrypted block buffer too small"),
        (Error::CisoMagic, ErrorKind::DiscFormat, "Invalid CISO magic"),
        (
            Error::CisoFileSize { expected: u64::MAX, len: 0 },
            ErrorKind::DiscFormat,
            "CISO file size mismatch: expected at least 18446744073709551615 bytes, got 0",
        ),
        (Error::CisoFormat, ErrorKind::DiscFormat, "Invalid format for CISO writer"),
        (Error::CisoCompression, ErrorKind::DiscFormat, "CISO does not support compression"),
        (
            Error::CisoBlockCount { count: 32761 },
            ErrorKind::DiscFormat,
            "CISO block count exceeds maximum: 32761 > 32760",
        ),
        (Error::WbfsMagic, ErrorKind::DiscFormat, "Invalid WBFS magic"),
        (
            Error::WbfsFileSize { len: 1024, expected: 10 },
            ErrorKind::DiscFormat,
            "Invalid WBFS file size: 1024, expected 10",
        ),
        (Error::WbfsNoDisc, ErrorKind::DiscFormat, "WBFS doesn't contain a disc"),
        (
            Error::WbfsMultipleDiscs,
            ErrorKind::DiscFormat,
            "Only single WBFS discs are supported",
        ),
        (Error::WbfsFormat, ErrorKind::DiscFormat, "Invalid format for WBFS writer"),
        (Error::WbfsCompression, ErrorKind::DiscFormat, "WBFS does not support compression"),
        (Error::WbfsBlockSize, ErrorKind::DiscFormat, "Invalid block size for WBFS"),
        (Error::WbfsBlockCount, ErrorKind::DiscFormat, "Block size too small"),
        (Error::WbfsInfoTooLarge, ErrorKind::Other, "WBFS info too large for block"),
    ];
    for (error, kind, message) in cases {
        assert_eq!(error.kind(), kind);
        assert_eq!(error.message(), message);
    }
}
