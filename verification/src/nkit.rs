//! What an NKit header says about a disc image: its size, its digests and its junk blocks.

use bytes::Bytes;
use vstd::prelude::*;
use vstd::slice::slice_to_vec;

use crate::image::{div_up, lemma_div_up};
use crate::options::{Format, DL_DVD_SIZE};

verus! {

/// The bit at `i`, counted from the highest bit of the first byte.
pub open spec fn bit_at(bytes: Seq<u8>, i: int) -> bool {
    (bytes[i / 8] >> ((7 - i % 8) as u8)) & 1u8 == 1u8
}

/// All bits, from the highest bit of the first byte on.
pub open spec fn bits(bytes: Seq<u8>) -> Seq<bool> {
    Seq::new((bytes.len() * 8) as nat, |i: int| bit_at(bytes, i))
}

/// How many blocks a junk map for blocks of `block_size` bytes has bits for: those of a dual-layer
/// disc, rounded up to whole bytes.
pub open spec fn junk_capacity(block_size: u32) -> int {
    div_up(div_up(DL_DVD_SIZE as int, block_size as int), 8) * 8
}

/// `bits` with the one at `i` set to `value`, if there is one.
pub open spec fn with_bit(bits: Seq<bool>, i: int, value: bool) -> Seq<bool> {
    if i < bits.len() {
        bits.update(i, value)
    } else {
        bits
    }
}

/// A map of the blocks that consist of junk data.
#[derive(Debug)]
pub struct JunkBits {
    bytes: Vec<u8>,
}

impl View for JunkBits {
    type V = Seq<bool>;

    closed spec fn view(&self) -> Seq<bool> {
        bits(self.bytes@)
    }
}

/// Reading a byte after one of its bits has been written.
proof fn lemma_write_bit(byte: u8, s: u8, t: u8)
    requires
        s < 8,
        t < 8,
    ensures
        ((byte | (1u8 << s)) >> t) & 1u8 == (if s == t {
            1u8
        } else {
            (byte >> t) & 1u8
        }),
        ((byte & !(1u8 << s)) >> t) & 1u8 == (if s == t {
            0u8
        } else {
            (byte >> t) & 1u8
        }),
{
    assert(((byte | (1u8 << s)) >> t) & 1u8 == (if s == t {
        1u8
    } else {
        (byte >> t) & 1u8
    })) by (bit_vector)
        requires
            s < 8,
            t < 8,
    ;
    assert(((byte & !(1u8 << s)) >> t) & 1u8 == (if s == t {
        0u8
    } else {
        (byte >> t) & 1u8
    })) by (bit_vector)
        requires
            s < 8,
            t < 8,
    ;
}

impl JunkBits {
    /// A map without junk blocks.
    pub fn new(block_size: u32) -> (r: JunkBits)
        requires
            block_size > 0,
        ensures
            r@.len() == junk_capacity(block_size),
            forall|i: int| 0 <= i < r@.len() ==> !#[trigger] r@[i],
    {
        let size: u64 = block_size as u64;
        let blocks: u64 = if DL_DVD_SIZE % size == 0 {
            DL_DVD_SIZE / size
        } else {
            DL_DVD_SIZE / size + 1
        };
        assert(DL_DVD_SIZE / size <= DL_DVD_SIZE) by (nonlinear_arith)
            requires
                size > 0,
        ;
        let count: u64 = if blocks % 8 == 0 {
            blocks / 8
        } else {
            blocks / 8 + 1
        };
        let mut bytes: Vec<u8> = Vec::new();
        let mut i: u64 = 0;
        while i < count
            invariant
                i <= count,
                bytes@.len() == i,
                forall|k: int| 0 <= k < i ==> #[trigger] bytes@[k] == 0,
            decreases count - i,
        {
            bytes.push(0);
            i += 1;
        }
        let r: JunkBits = JunkBits { bytes };
        proof {
            assert forall|k: int| 0 <= k < r@.len() implies !#[trigger] r@[k] by {
                let s = (7 - k % 8) as u8;
                assert(bytes@[k / 8] == 0);
                assert((0u8 >> s) & 1u8 == 0u8) by (bit_vector);
            }
        }
        r
    }

    /// The map whose bits stand in `bytes`.
    pub fn from_bytes(bytes: Vec<u8>) -> (r: JunkBits)
        ensures
            r@ == bits(bytes@),
    {
        JunkBits { bytes }
    }

    /// The bytes that the bits stand in.
    pub fn as_bytes(&self) -> (bytes: &[u8])
        ensures
            bits(bytes@) == self@,
    {
        self.bytes.as_slice()
    }

    /// Notes whether a block is junk. A block that the map has no bit for is passed over.
    pub fn set(&mut self, block: u32, is_junk: bool)
        ensures
            final(self)@ == with_bit(old(self)@, block as int, is_junk),
    {
        let i: usize = (block / 8) as usize;
        if i < self.bytes.len() {
            let ghost before = self.bytes@;
            let s: u8 = 7 - (block % 8) as u8;
            assert(s < 8);
            let byte: u8 = self.bytes[i];
            let new: u8 = if is_junk {
                byte | (1u8 << s)
            } else {
                byte & !(1u8 << s)
            };
            self.bytes.set(i, new);
            proof {
                assert forall|k: int| 0 <= k < bits(before).len() implies #[trigger] bits(
                    self.bytes@,
                )[k] == with_bit(bits(before), block as int, is_junk)[k] by {
                    let t = (7 - k % 8) as u8;
                    lemma_write_bit(byte, s, t);
                    if k / 8 == i {
                        assert((s == t) == (k == block));
                    }
                }
                assert(self@ =~= with_bit(old(self)@, block as int, is_junk));
            }
        }
    }

    /// Whether a block is junk. A block that the map has no bit for is none.
    pub fn get(&self, block: u32) -> (r: bool)
        ensures
            r == (block < self@.len() && self@[block as int]),
    {
        let i: usize = (block / 8) as usize;
        if i < self.bytes.len() {
            let s: u8 = 7 - (block % 8) as u8;
            assert(s < 8);
            (self.bytes[i] >> s) & 1 == 1
        } else {
            false
        }
    }
}

impl Clone for JunkBits {
    fn clone(&self) -> (r: JunkBits)
        ensures
            r@ == self@,
    {
        JunkBits { bytes: slice_to_vec(self.bytes.as_slice()) }
    }
}

/// A block that was noted is read back as it was noted, as far as the map has a bit for it, and
/// noting it leaves all other blocks as they were.
pub proof fn law_junk_bits(map: Seq<bool>, block: int, value: bool, other: int)
    requires
        0 <= block,
        0 <= other < map.len(),
    ensures
        with_bit(map, block, value).len() == map.len(),
        block < map.len() ==> with_bit(map, block, value)[block] == value,
        other != block ==> with_bit(map, block, value)[other] == map[other],
{
}

/// A junk map has a bit for every block of a dual-layer disc.
pub proof fn law_junk_map_covers_disc(block_size: u32, block: int)
    requires
        block_size > 0,
        0 <= block,
        block * block_size < DL_DVD_SIZE,
    ensures
        block < junk_capacity(block_size),
{
    let blocks = div_up(DL_DVD_SIZE as int, block_size as int);
    lemma_div_up(DL_DVD_SIZE as int, block_size as int);
    lemma_div_up(blocks, 8);
    assert(block < blocks) by (nonlinear_arith)
        requires
            block * block_size < DL_DVD_SIZE,
            DL_DVD_SIZE <= blocks * block_size,
            block_size > 0,
    ;
}

/// A digest of the disc.
#[derive(Clone, Copy, Debug)]
pub enum DigestResult {
    Crc32(u32),
    Md5([u8; 16]),
    Sha1([u8; 20]),
    Xxh64(u64),
}

/// The digests that are known of a disc.
#[derive(Clone, Copy, Debug)]
pub struct Digests {
    pub crc32: Option<u32>,
    pub md5: Option<[u8; 16]>,
    pub sha1: Option<[u8; 20]>,
    pub xxh64: Option<u64>,
}

impl Digests {
    /// No digest.
    pub open spec fn unknown() -> Digests {
        Digests { crc32: None, md5: None, sha1: None, xxh64: None }
    }

    /// These digests, with one more known.
    pub open spec fn with(self, result: DigestResult) -> Digests {
        match result {
            DigestResult::Crc32(v) => Digests { crc32: Some(v), ..self },
            DigestResult::Md5(v) => Digests { md5: Some(v), ..self },
            DigestResult::Sha1(v) => Digests { sha1: Some(v), ..self },
            DigestResult::Xxh64(v) => Digests { xxh64: Some(v), ..self },
        }
    }

    /// These digests, with all of `results` known; of two of the same kind the later one counts.
    pub open spec fn with_all(self, results: Seq<DigestResult>) -> Digests
        decreases results.len(),
    {
        if results.len() == 0 {
            self
        } else {
            self.with_all(results.drop_last()).with(results.last())
        }
    }

    /// Without any digest.
    pub fn new() -> (r: Digests)
        ensures
            r == Digests::unknown(),
    {
        Digests { crc32: None, md5: None, sha1: None, xxh64: None }
    }

    /// Takes over all digests that were computed.
    pub fn apply(&mut self, results: &[DigestResult])
        ensures
            *final(self) == old(self).with_all(results@),
    {
        let ghost before = *self;
        let mut i: usize = 0;
        assert(results@.take(0) =~= Seq::<DigestResult>::empty());
        while i < results.len()
            invariant
                i <= results@.len(),
                *self == before.with_all(results@.take(i as int)),
            decreases results@.len() - i,
        {
            match results[i] {
                DigestResult::Crc32(v) => self.crc32 = Some(v),
                DigestResult::Md5(v) => self.md5 = Some(v),
                DigestResult::Sha1(v) => self.sha1 = Some(v),
                DigestResult::Xxh64(v) => self.xxh64 = Some(v),
            }
            proof {
                let taken = results@.take(i + 1);
                assert(taken.drop_last() =~= results@.take(i as int));
                assert(taken.last() == results@[i as int]);
            }
            i += 1;
        }
        assert(results@.take(i as int) =~= results@);
    }
}

/// An NKit header.
#[derive(Debug)]
pub struct NKitHeader {
    /// Version of the header.
    pub version: u8,
    /// Size in bytes of the disc.
    pub size: Option<u64>,
    /// Digests of the disc.
    pub digests: Digests,
    /// Which blocks are junk.
    pub junk_bits: Option<JunkBits>,
    /// Whether the image holds encrypted partitions as they are on the disc.
    pub encrypted: bool,
}

impl NKitHeader {
    /// Whether a block is junk, as far as the header says so.
    pub open spec fn junk_at(&self, block: int) -> Option<bool> {
        match self.junk_bits {
            Some(map) => Some(block < map@.len() && map@[block]),
            None => None,
        }
    }

    /// Whether two headers say the same.
    pub open spec fn says_the_same(&self, other: NKitHeader) -> bool {
        &&& self.version == other.version
        &&& self.size == other.size
        &&& self.digests == other.digests
        &&& match (self.junk_bits, other.junk_bits) {
            (Some(a), Some(b)) => a@ == b@,
            (None, None) => true,
            _ => false,
        }
        &&& self.encrypted == other.encrypted
    }

    /// Whether a block is junk, if the header says so.
    pub fn is_junk_block(&self, block: u32) -> (r: Option<bool>)
        ensures
            r == self.junk_at(block as int),
    {
        match &self.junk_bits {
            Some(map) => Some(map.get(block)),
            None => None,
        }
    }

    /// Takes over the digests that were computed.
    pub fn apply_digests(&mut self, results: &[DigestResult])
        ensures
            final(self).digests == old(self).digests.with_all(results@),
            final(self).version == old(self).version,
            final(self).size == old(self).size,
            final(self).junk_bits == old(self).junk_bits,
            final(self).encrypted == old(self).encrypted,
    {
        self.digests.apply(results);
    }

    /// Adds to `meta` what the header says about the disc.
    pub fn apply(&self, meta: &mut DiscMeta)
        ensures
            *final(meta) == (DiscMeta {
                disc_size: if old(meta).disc_size is Some {
                    old(meta).disc_size
                } else {
                    self.size
                },
                digests: self.digests,
                ..*old(meta)
            }),
    {
        if meta.disc_size.is_none() {
            meta.disc_size = self.size;
        }
        meta.digests = self.digests;
    }
}

/// What a disc image says about itself.
#[derive(Clone, Copy, Debug)]
pub struct DiscMeta {
    /// Format of the image.
    pub format: Format,
    /// Size in bytes of a block.
    pub block_size: Option<u32>,
    /// Size in bytes of the disc.
    pub disc_size: Option<u64>,
    /// Digests of the disc.
    pub digests: Digests,
}

impl DiscMeta {
    /// What an image of the given format, block size and NKit header says.
    pub open spec fn of(format: Format, block_size: u32, nkit: Option<NKitHeader>) -> DiscMeta {
        DiscMeta {
            format,
            block_size: Some(block_size),
            disc_size: match nkit {
                Some(header) => header.size,
                None => None,
            },
            digests: match nkit {
                Some(header) => header.digests,
                None => Digests::unknown(),
            },
        }
    }

    /// What an image of the given format, block size and NKit header says.
    pub fn new(format: Format, block_size: u32, nkit: &Option<NKitHeader>) -> (r: DiscMeta)
        ensures
            r == DiscMeta::of(format, block_size, *nkit),
    {
        let mut meta: DiscMeta = DiscMeta {
            format,
            block_size: Some(block_size),
            disc_size: None,
            digests: Digests::new(),
        };
        if let Some(header) = nkit {
            header.apply(&mut meta);
        }
        meta
    }
}

/// What remains to be written to the image when all blocks have been, and the digests of the disc.
pub struct DiscFinalization {
    /// What stands at the start of the image.
    pub header: Bytes,
    /// Digests of the disc.
    pub digests: Digests,
}

impl DiscFinalization {
    /// Takes over the digests that were computed.
    pub fn apply_digests(&mut self, results: &[DigestResult])
        ensures
            final(self).digests == old(self).digests.with_all(results@),
            final(self).header == old(self).header,
    {
        self.digests.apply(results);
    }
}

} // verus!
