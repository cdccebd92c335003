use aes::Aes128;
use cbc::cipher::block_padding::NoPadding;
use cbc::cipher::{BlockEncryptMut, KeyIvInit};
use cbc::Encryptor;
use nod::check::{check_block, sector_data_iter, CheckBlockResult};
use nod::crypt::SECTOR_IV_OFFSET;
use nod::disc::{
    BootHeader, DiscHeader, Node, PartitionInfo, PartitionKind, HASHES_SIZE, SECTOR_DATA_SIZE,
    SECTOR_SIZE,
};
use nod::error::Error;
use nod::lfg::LaggedFibonacci;
use nod::usage::PartitionUsage;

const PARTITION_ID: [u8; 4] = *b"GKQJ";
const OUTER_ID: [u8; 4] = *b"GKQE";

fn partition_info() -> PartitionInfo {
    let mut game_id = [0u8; 6];
    game_id[..4].copy_from_slice(&PARTITION_ID);
    game_id[4..6].copy_from_slice(b"01");
    PartitionInfo {
        index: 0,
        kind: PartitionKind::Data,
        start_sector: 0,
        data_start_sector: 0,
        data_end_sector: 16,
        key: [0u8; 16],
        has_encryption: false,
        has_hashes: true,
        disc_header: DiscHeader { game_id, disc_num: 0, wii: false },
        boot_header: BootHeader { fst_offset: 0, fst_size: 0 },
        fst: None,
    }
}

fn junk_sector(disc_id: [u8; 4]) -> Vec<u8> {
    let mut buf = vec![0u8; SECTOR_SIZE];
    let mut lfg = LaggedFibonacci::default();
    lfg.fill_sector_chunked(&mut buf[HASHES_SIZE..], disc_id, 0, 0);
    buf
}

fn run_check_block(buf: &[u8], partition: &PartitionInfo) -> CheckBlockResult {
    let mut decrypted = vec![0u8; buf.len()];
    let partition_usage = [PartitionUsage::new(partition)];
    check_block(
        buf,
        &mut decrypted,
        0,
        std::slice::from_ref(partition),
        &partition_usage,
        &mut LaggedFibonacci::default(),
        OUTER_ID,
        0,
        None,
    )
    .unwrap()
}

/// Junk inside a partition is seeded from the partition's own disc header, which may differ
/// from the outer disc header (and is what read-time regeneration uses).
#[test]
fn check_block_seeds_partition_junk_from_partition_header() {
    let partition = partition_info();
    let result = run_check_block(&junk_sector(PARTITION_ID), &partition);
    assert!(matches!(result, CheckBlockResult::Junk));
}

/// Junk generated from the outer disc header's ID must NOT be detected inside a partition
/// with a different ID: read-time regeneration would produce different bytes.
#[test]
fn check_block_rejects_outer_header_junk_in_partition() {
    let partition = partition_info();
    let result = run_check_block(&junk_sector(OUTER_ID), &partition);
    assert!(matches!(result, CheckBlockResult::Normal));
}

/// The same block is dropped or kept by the given settings.
fn check(
    buf: &[u8],
    position: u64,
    partitions: &[PartitionInfo],
    decrypted_len: usize,
    scrub: Option<PartitionKind>,
) -> Result<CheckBlockResult, Error> {
    let usage: Vec<PartitionUsage> = partitions.iter().map(PartitionUsage::new).collect();
    let mut decrypted = vec![0u8; decrypted_len];
    check_block(
        buf,
        &mut decrypted,
        position,
        partitions,
        &usage,
        &mut LaggedFibonacci::default(),
        OUTER_ID,
        0,
        scrub,
    )
}

fn disc_junk(len: usize, position: u64) -> Vec<u8> {
    let mut buf = vec![0u8; len];
    LaggedFibonacci::default().fill_sector_chunked(&mut buf, OUTER_ID, 0, position);
    buf
}

fn update_partition(start_sector: u32, data_end_sector: u32) -> PartitionInfo {
    PartitionInfo {
        kind: PartitionKind::Update,
        start_sector,
        data_start_sector: start_sector,
        data_end_sector,
        has_hashes: false,
        ..partition_info()
    }
}

#[test]
fn block_outside_of_partitions() {
    let zeroed = vec![0u8; 100];
    assert_eq!(check(&zeroed, 0x123, &[], 0, None), Ok(CheckBlockResult::Zeroed));
    let junk = disc_junk(0x9000, 0x7123);
    assert_eq!(check(&junk, 0x7123, &[], 0, None), Ok(CheckBlockResult::Junk));
    assert_eq!(check(&junk, 0x7124, &[], 0, None), Ok(CheckBlockResult::Normal));
    let mut content = junk.clone();
    content[0x8FFF] ^= 1;
    assert_eq!(check(&content, 0x7123, &[], 0, None), Ok(CheckBlockResult::Normal));
}

#[test]
fn zeroed_block_in_partition_ignores_hashes() {
    let mut buf = vec![0u8; SECTOR_SIZE * 2];
    buf[..HASHES_SIZE].fill(0xAB);
    buf[SECTOR_SIZE..SECTOR_SIZE + HASHES_SIZE].fill(0xCD);
    assert_eq!(check(&buf, 0, &[partition_info()], 0, None), Ok(CheckBlockResult::Zeroed));
    buf[SECTOR_SIZE - 1] = 1;
    assert_eq!(check(&buf, 0, &[partition_info()], 0, None), Ok(CheckBlockResult::Normal));
}

#[test]
fn block_at_the_end_of_a_partition_is_judged_by_the_disc() {
    // The end of the block has to lie in front of the last sector's end.
    let mut buf = vec![0u8; SECTOR_SIZE];
    buf[..HASHES_SIZE].fill(0xAB);
    let partition = [partition_info()];
    assert_eq!(
        check(&buf, 14 * SECTOR_SIZE as u64, &partition, 0, None),
        Ok(CheckBlockResult::Zeroed)
    );
    assert_eq!(
        check(&buf, 15 * SECTOR_SIZE as u64, &partition, 0, None),
        Ok(CheckBlockResult::Normal)
    );
}

#[test]
fn used_content_is_kept() {
    let mut partition = partition_info();
    partition.boot_header = BootHeader { fst_offset: 0x100, fst_size: 0x20 };
    partition.fst = Some(vec![
        Node { file: false, offset: 0, length: 3 },
        Node { file: true, offset: 0x7C00 * 2 + 5, length: 1 },
    ]);
    let partition = [partition];
    let zeroed = vec![0u8; SECTOR_SIZE];
    let results: Vec<_> = (0..4)
        .map(|i| check(&zeroed, i * SECTOR_SIZE as u64, &partition, 0, None).unwrap())
        .collect();
    assert_eq!(
        results,
        vec![
            // Up to the end of the file system table
            CheckBlockResult::Normal,
            CheckBlockResult::Zeroed,
            // A file
            CheckBlockResult::Normal,
            CheckBlockResult::Zeroed,
        ]
    );
}

#[test]
fn partition_block_errors() {
    let mut partition = partition_info();
    partition.has_encryption = true;
    let partition = [partition];
    let buf = vec![0u8; SECTOR_SIZE];
    assert_eq!(check(&buf, 1, &partition, SECTOR_SIZE, None), Err(Error::PartitionBlockUnaligned));
    assert_eq!(
        check(&buf[1..], 0, &partition, SECTOR_SIZE, None),
        Err(Error::PartitionBlockPartial)
    );
    assert_eq!(
        check(&buf, 0, &partition, SECTOR_SIZE - 1, None),
        Err(Error::DecryptedBlockTooSmall)
    );
}

#[test]
fn encrypted_block_is_judged_by_its_plaintext() {
    let key = [7u8; 16];
    let mut partition = partition_info();
    partition.has_encryption = true;
    partition.key = key;
    // The user data decrypts to junk data of the partition.
    let plain = junk_sector(PARTITION_ID);
    let mut sector = vec![0u8; SECTOR_SIZE];
    sector[..HASHES_SIZE].fill(0x5A);
    let iv: [u8; 16] = sector[SECTOR_IV_OFFSET..SECTOR_IV_OFFSET + 16].try_into().unwrap();
    let mut data = plain[HASHES_SIZE..].to_vec();
    let len = data.len();
    Encryptor::<Aes128>::new(&key.into(), &iv.into())
        .encrypt_padded_mut::<NoPadding>(&mut data, len)
        .unwrap();
    sector[HASHES_SIZE..].copy_from_slice(&data);

    let usage = [PartitionUsage::new(&partition)];
    let mut decrypted = vec![0xEEu8; SECTOR_SIZE + 3];
    let result = check_block(
        &sector,
        &mut decrypted,
        0,
        std::slice::from_ref(&partition),
        &usage,
        &mut LaggedFibonacci::default(),
        OUTER_ID,
        0,
        None,
    );
    assert_eq!(result, Ok(CheckBlockResult::Junk));
    assert_eq!(&decrypted[HASHES_SIZE..SECTOR_SIZE], &plain[HASHES_SIZE..]);
    assert_eq!(&decrypted[SECTOR_SIZE..], &[0xEE; 3]);

    partition.key = [8u8; 16];
    assert_eq!(
        check(&sector, 0, &[partition], SECTOR_SIZE, None),
        Ok(CheckBlockResult::Normal)
    );
}

#[test]
fn scrubbed_block_is_dropped() {
    let kind = Some(PartitionKind::Update);
    let buf = vec![0xFFu8; SECTOR_SIZE * 4];
    // Inside of one partition, and of two that touch
    assert_eq!(check(&buf, 0, &[update_partition(0, 4)], 0, kind), Ok(CheckBlockResult::Zeroed));
    assert_eq!(
        check(&buf, 0, &[update_partition(2, 9), update_partition(0, 2)], 0, kind),
        Ok(CheckBlockResult::Zeroed)
    );
    // The kind has to match, and scrubbing has to be asked for.
    assert_eq!(
        check(&buf, 0, &[update_partition(0, 4)], 0, Some(PartitionKind::Channel)),
        Ok(CheckBlockResult::Normal)
    );
    assert_eq!(check(&buf, 0, &[update_partition(0, 4)], 0, None), Ok(CheckBlockResult::Normal));
    // A leftover with content
    assert_eq!(check(&buf, 0, &[update_partition(0, 3)], 0, kind), Ok(CheckBlockResult::Normal));
}

#[test]
fn scrubbed_block_with_droppable_leftovers() {
    let kind = Some(PartitionKind::Update);
    let partitions = [update_partition(1, 2), update_partition(3, 4)];
    let mut buf = vec![0xFFu8; SECTOR_SIZE * 5];
    buf[..SECTOR_SIZE].fill(0);
    let junk = disc_junk(SECTOR_SIZE, 2 * SECTOR_SIZE as u64);
    buf[2 * SECTOR_SIZE..3 * SECTOR_SIZE].copy_from_slice(&junk);
    buf[4 * SECTOR_SIZE..].fill(0);
    assert_eq!(check(&buf, 0, &partitions, 0, kind), Ok(CheckBlockResult::Zeroed));

    // The gap belongs to another partition.
    let mut three = partitions.to_vec();
    three.push(PartitionInfo { kind: PartitionKind::Data, ..update_partition(2, 3) });
    assert_eq!(check(&buf, 0, &three, 0, kind), Ok(CheckBlockResult::Normal));

    // The gap is no longer junk data.
    buf[2 * SECTOR_SIZE] ^= 1;
    assert_eq!(check(&buf, 0, &partitions, 0, kind), Ok(CheckBlockResult::Normal));
}

#[test]
fn sector_data_without_hashes() {
    let mut buf = vec![0u8; 2 * SECTOR_SIZE + 7];
    buf[HASHES_SIZE] = 1;
    buf[2 * SECTOR_SIZE - 1] = 2;
    let sectors = sector_data_iter(&buf);
    assert_eq!(sectors.len(), 2);
    assert_eq!((sectors[0].len(), sectors[1].len()), (SECTOR_DATA_SIZE, SECTOR_DATA_SIZE));
    assert_eq!(sectors[0][0], 1);
    assert_eq!(sectors[1][SECTOR_DATA_SIZE - 1], 2);
}

#[test]
fn usage_is_asked_only_where_it_decides() {
    let zeroed = vec![0u8; SECTOR_SIZE];
    let partition = [partition_info()];
    let mut lfg = LaggedFibonacci::default();
    let mut check_at = |position: u64| {
        check_block(&zeroed, &mut [], position, &partition, &[], &mut lfg, OUTER_ID, 0, None)
    };
    assert_eq!(check_at(100 * SECTOR_SIZE as u64), Ok(CheckBlockResult::Zeroed));
    assert_eq!(check_at(1), Err(Error::PartitionBlockUnaligned));
}
