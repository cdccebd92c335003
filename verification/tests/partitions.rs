use nod::disc::{BootHeader, DiscHeader, Node, PartitionInfo, PartitionKind, WII_PART_GROUP_OFF};
use nod::endian::{zeroed_bytes, zeroed_words};
use nod::error::Error;
use nod::processor::partition_usages;
use nod::removal::PartitionRemoval;
use nod::spans::{merge_spans, Span};
use nod::usage::PartitionUsage;

fn merged(spans: &[(u64, u64)]) -> Vec<(u64, u64)> {
    let spans = spans.iter().map(|&(start, end)| Span { start, end }).collect();
    merge_spans(spans).iter().map(|s| (s.start, s.end)).collect()
}

#[test]
fn spans_are_sorted_and_merged() {
    assert_eq!(merged(&[]), vec![]);
    assert_eq!(merged(&[(7, 9), (0, 2), (3, 4)]), vec![(0, 2), (3, 4), (7, 9)]);
    // Overlapping, touching and nested
    assert_eq!(merged(&[(5, 8), (0, 3), (2, 4), (4, 5)]), vec![(0, 8)]);
    assert_eq!(merged(&[(0, 10), (2, 3), (11, 12)]), vec![(0, 10), (11, 12)]);
}

fn partition(wii: bool, fst: Option<Vec<Node>>) -> PartitionInfo {
    PartitionInfo {
        index: 0,
        kind: PartitionKind::Data,
        start_sector: 0,
        data_start_sector: 0,
        data_end_sector: 16,
        key: [0; 16],
        has_encryption: false,
        has_hashes: true,
        disc_header: DiscHeader { game_id: *b"RSPE01", disc_num: 0, wii },
        boot_header: BootHeader { fst_offset: 0x10, fst_size: 0x8 },
        fst,
    }
}

#[test]
fn usage_without_file_system() {
    let usage = PartitionUsage::new(&partition(true, None));
    assert!(!usage.overlaps_used(0, u64::MAX));
}

#[test]
fn usage_of_files() {
    let nodes = vec![
        Node { file: false, offset: 0, length: 4 },
        Node { file: true, offset: 0x100, length: 0x10 },
        Node { file: false, offset: 0x80, length: 0x1000 },
        Node { file: true, offset: 0x40, length: 5 },
    ];
    // On a Wii disc offsets are stored in units of four bytes.
    let usage = PartitionUsage::new(&partition(true, Some(nodes.clone())));
    assert!(usage.overlaps_used(0, 1));
    assert!(usage.overlaps_used(0x5F, 0x100));
    assert!(!usage.overlaps_used(0x60, 0x100));
    assert!(usage.overlaps_used(0x104, 0x105));
    assert!(!usage.overlaps_used(0x105, 0x400));
    assert!(usage.overlaps_used(0x105, 0x401));
    assert!(usage.overlaps_used(0x40F, 0x10000));
    assert!(!usage.overlaps_used(0x410, 0x10000));

    let usage = PartitionUsage::new(&partition(false, Some(nodes)));
    assert!(usage.overlaps_used(0x17, 0x18));
    assert!(!usage.overlaps_used(0x18, 0x40));
    assert!(usage.overlaps_used(0x44, 0x45));
    assert!(!usage.overlaps_used(0x45, 0x100));
    assert!(usage.overlaps_used(0x10F, 0x110));
}

#[test]
fn usage_of_each_partition() {
    let usages = partition_usages(&[partition(true, None), partition(true, Some(vec![]))]);
    assert_eq!(usages.len(), 2);
    assert!(!usages[0].overlaps_used(0, 1));
    assert!(usages[1].overlaps_used(0, 1));
}

#[test]
fn partition_kinds() {
    assert_eq!(PartitionKind::from(0), PartitionKind::Data);
    assert_eq!(PartitionKind::from(1), PartitionKind::Update);
    assert_eq!(PartitionKind::from(2), PartitionKind::Channel);
    assert_eq!(PartitionKind::from(0x48414141), PartitionKind::Other(0x48414141));
}

const GROUPS: usize = WII_PART_GROUP_OFF as usize;

fn put(disc: &mut [u8], offset: usize, value: u32) {
    disc[offset..offset + 4].copy_from_slice(&value.to_be_bytes());
}

/// A disc with an update, a data and a channel partition in the first group, and an update
/// partition alone in the third.
fn disc() -> Vec<u8> {
    let mut disc = vec![0u8; GROUPS + 0x100];
    let tables: [(usize, &[(u32, u32)]); 4] = [
        (GROUPS + 0x20, &[(0x1000, 0), (0x2000, 1), (0x3000, 2)]),
        (0, &[]),
        (GROUPS + 0x60, &[(0x4000, 1)]),
        (GROUPS + 0x80, &[(0x5000, 0)]),
    ];
    for (g, (offset, entries)) in tables.iter().enumerate() {
        put(&mut disc, GROUPS + g * 8, entries.len() as u32);
        put(&mut disc, GROUPS + g * 8 + 4, (offset / 4) as u32);
        for (i, (start, kind)) in entries.iter().enumerate() {
            put(&mut disc, offset + i * 8, *start);
            put(&mut disc, offset + i * 8 + 4, *kind);
        }
    }
    disc
}

fn removal(disc: &[u8], wii: bool, kind: PartitionKind) -> Option<PartitionRemoval> {
    let groups = &disc[GROUPS..GROUPS + 32];
    let entries: Vec<Vec<u8>> = PartitionRemoval::entry_reads(groups)
        .iter()
        .map(|&(offset, len)| disc[offset as usize..(offset + len) as usize].to_vec())
        .collect();
    PartitionRemoval::new(wii, groups, &entries, kind)
}

#[test]
fn removal_of_a_partition() {
    let disc = disc();
    let removal = removal(&disc, true, PartitionKind::Update).unwrap();
    let mut edited = disc.clone();
    removal.apply(&mut edited, 0);

    let mut expected = disc.clone();
    put(&mut expected, GROUPS, 2);
    put(&mut expected, GROUPS + 0x28, 0x3000);
    put(&mut expected, GROUPS + 0x2C, 2);
    put(&mut expected, GROUPS + 16, 0);
    assert_eq!(edited, expected);

    // The edits are the same if they are applied block by block.
    let mut blockwise = disc.clone();
    for (i, block) in blockwise.chunks_mut(5).enumerate() {
        let start = i as u64 * 5;
        let before = block.to_vec();
        removal.apply(block, start);
        if !removal.overlaps(start, block.len() as u64) {
            assert_eq!(block, &before[..]);
        }
    }
    assert_eq!(blockwise, expected);
}

#[test]
fn removal_overlaps() {
    let disc = disc();
    let removal = removal(&disc, true, PartitionKind::Update).unwrap();
    let groups = WII_PART_GROUP_OFF;
    assert!(!removal.overlaps(0, groups));
    assert!(removal.overlaps(0, groups + 1));
    assert!(removal.overlaps(groups + 3, 1));
    assert!(!removal.overlaps(groups + 4, 12));
    assert!(removal.overlaps(groups + 0x28, 1));
    assert!(!removal.overlaps(groups + 0x30, 1000));
}

#[test]
fn nothing_to_remove() {
    let disc = disc();
    assert!(removal(&disc, false, PartitionKind::Update).is_none());
    assert!(removal(&disc, true, PartitionKind::Other(5)).is_none());
}

#[test]
fn zeroed_buffers() {
    assert_eq!(zeroed_bytes(5), Ok(vec![0u8; 5]));
    assert_eq!(zeroed_words(3), Ok(vec![0u16; 3]));
    assert_eq!(zeroed_bytes(0), Ok(vec![]));
    assert_eq!(zeroed_bytes(usize::MAX), Err(Error::OutOfMemory));
    assert_eq!(zeroed_words(usize::MAX), Err(Error::OutOfMemory));
}
