//! Layout of a disc: sectors, partitions and the parts of their headers that the writers read.

use vstd::prelude::*;

verus! {

/// Size in bytes of a disc sector.
pub const SECTOR_SIZE: usize = 0x8000;

/// Size in bytes of the hash block at the start of a sector of a hashed partition.
pub const HASHES_SIZE: usize = 0x400;

/// Size in bytes of the user data in a sector of a hashed partition.
pub const SECTOR_DATA_SIZE: usize = 0x7C00;

/// Offset of the partition group table on a Wii disc.
pub const WII_PART_GROUP_OFF: u64 = 0x40000;

/// What a partition holds.
#[derive(Clone, Copy, Debug, PartialEq, Eq, Structural)]
pub enum PartitionKind {
    Data,
    Update,
    Channel,
    Other(u32),
}

/// The kind that a number in a partition entry stands for.
pub open spec fn partition_kind(v: u32) -> PartitionKind {
    if v == 0 {
        PartitionKind::Data
    } else if v == 1 {
        PartitionKind::Update
    } else if v == 2 {
        PartitionKind::Channel
    } else {
        PartitionKind::Other(v)
    }
}

impl From<u32> for PartitionKind {
    fn from(v: u32) -> (kind: Self) {
        match v {
            0 => PartitionKind::Data,
            1 => PartitionKind::Update,
            2 => PartitionKind::Channel,
            _ => PartitionKind::Other(v),
        }
    }
}

impl vstd::std_specs::convert::FromSpecImpl<u32> for PartitionKind {
    open spec fn obeys_from_spec() -> bool {
        true
    }

    open spec fn from_spec(v: u32) -> Self {
        partition_kind(v)
    }
}

/// The fields of a disc header that the writers read.
#[derive(Clone, Copy, Debug)]
pub struct DiscHeader {
    /// Game ID, of which the first four bytes seed the junk data.
    pub game_id: [u8; 6],
    /// Disc number, zero for the first disc of a game.
    pub disc_num: u8,
    /// Whether the header carries the Wii magic.
    pub wii: bool,
}

impl DiscHeader {
    /// Whether this is the header of a Wii disc or partition.
    pub fn is_wii(&self) -> (r: bool)
        ensures
            r == self.wii,
    {
        self.wii
    }

    /// The first four bytes of the game ID.
    pub open spec fn id(&self) -> Seq<u8> {
        self.game_id@.subrange(0, 4)
    }

    /// The first four bytes of the game ID, from which junk data is seeded.
    pub fn junk_id(&self) -> (id: [u8; 4])
        ensures
            id@ == self.id(),
    {
        let id: [u8; 4] = [self.game_id[0], self.game_id[1], self.game_id[2], self.game_id[3]];
        assert(id@ =~= self.id());
        id
    }
}

/// A stored offset or size in bytes: on a Wii disc it is stored in units of four bytes.
pub open spec fn stored_bytes(value: u32, is_wii: bool) -> u64 {
    if is_wii {
        (value * 4) as u64
    } else {
        value as u64
    }
}

/// The fields of a boot header that locate the file system table.
#[derive(Clone, Copy, Debug)]
pub struct BootHeader {
    /// Offset of the file system table, as stored.
    pub fst_offset: u32,
    /// Size of the file system table, as stored.
    pub fst_size: u32,
}

impl BootHeader {
    /// Offset in bytes of the file system table.
    pub fn fst_offset(&self, is_wii: bool) -> (r: u64)
        ensures
            r == stored_bytes(self.fst_offset, is_wii),
    {
        if is_wii {
            self.fst_offset as u64 * 4
        } else {
            self.fst_offset as u64
        }
    }

    /// Size in bytes of the file system table.
    pub fn fst_size(&self, is_wii: bool) -> (r: u64)
        ensures
            r == stored_bytes(self.fst_size, is_wii),
    {
        if is_wii {
            self.fst_size as u64 * 4
        } else {
            self.fst_size as u64
        }
    }
}

/// An entry of the file system table.
#[derive(Clone, Copy, Debug)]
pub struct Node {
    /// Whether the entry is a file, not a directory.
    pub file: bool,
    /// Offset of the file, as stored, or the index of a directory's parent.
    pub offset: u32,
    /// Length in bytes of the file, or the index behind a directory's last entry.
    pub length: u32,
}

impl Node {
    /// Whether the entry is a file.
    pub fn is_file(&self) -> (r: bool)
        ensures
            r == self.file,
    {
        self.file
    }

    /// Offset in bytes of a file.
    pub fn offset(&self, is_wii: bool) -> (r: u64)
        ensures
            r == stored_bytes(self.offset, is_wii && self.file),
    {
        if is_wii && self.file {
            self.offset as u64 * 4
        } else {
            self.offset as u64
        }
    }

    /// Length in bytes of a file.
    pub fn length(&self) -> (r: u32)
        ensures
            r == self.length,
    {
        self.length
    }
}

/// A partition of a disc.
#[derive(Clone, Debug)]
pub struct PartitionInfo {
    /// Index of the partition on the disc.
    pub index: usize,
    /// What the partition holds.
    pub kind: PartitionKind,
    /// First sector of the partition.
    pub start_sector: u32,
    /// First sector of the partition's data area.
    pub data_start_sector: u32,
    /// Sector behind the last one of the partition's data area.
    pub data_end_sector: u32,
    /// Title key.
    pub key: [u8; 16],
    /// Whether the data area is encrypted.
    pub has_encryption: bool,
    /// Whether each sector of the data area starts with a block of hashes.
    pub has_hashes: bool,
    /// The partition's own disc header.
    pub disc_header: DiscHeader,
    /// The partition's boot header.
    pub boot_header: BootHeader,
    /// Entries of the file system table, if it could be read.
    pub fst: Option<Vec<Node>>,
}

} // verus!
