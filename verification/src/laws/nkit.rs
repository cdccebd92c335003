//! What an NKit header says.

use vstd::prelude::*;

use crate::image::{block_at, div_up, lemma_div_up, unstored_kind, BlockKind};
use crate::nkit::{
    bits, junk_capacity, with_bit, DigestResult, Digests, DiscMeta, NKitHeader,
};
use crate::options::{Format, DL_DVD_SIZE};

verus! {

/// The bits of a junk map stand in its bytes from the highest bit of the first byte on.
pub proof fn law_bit_places(bytes: Seq<u8>, i: int)
    requires
        0 <= i < 8 * bytes.len(),
    ensures
        bits(bytes).len() == 8 * bytes.len(),
        i % 8 == 0 ==> bits(bytes)[i] == (bytes[i / 8] >= 128),
        i % 8 == 1 ==> bits(bytes)[i] == (bytes[i / 8] / 64 % 2 == 1),
        i % 8 == 2 ==> bits(bytes)[i] == (bytes[i / 8] / 32 % 2 == 1),
        i % 8 == 3 ==> bits(bytes)[i] == (bytes[i / 8] / 16 % 2 == 1),
        i % 8 == 4 ==> bits(bytes)[i] == (bytes[i / 8] / 8 % 2 == 1),
        i % 8 == 5 ==> bits(bytes)[i] == (bytes[i / 8] / 4 % 2 == 1),
        i % 8 == 6 ==> bits(bytes)[i] == (bytes[i / 8] / 2 % 2 == 1),
        i % 8 == 7 ==> bits(bytes)[i] == (bytes[i / 8] % 2 == 1),
{
    let b = bytes[i / 8];
    assert(((b >> 7u8) & 1u8 == 1u8) == (b >= 128)) by (bit_vector);
    assert(((b >> 6u8) & 1u8 == 1u8) == (b / 64 % 2 == 1)) by (bit_vector);
    assert(((b >> 5u8) & 1u8 == 1u8) == (b / 32 % 2 == 1)) by (bit_vector);
    assert(((b >> 4u8) & 1u8 == 1u8) == (b / 16 % 2 == 1)) by (bit_vector);
    assert(((b >> 3u8) & 1u8 == 1u8) == (b / 8 % 2 == 1)) by (bit_vector);
    assert(((b >> 2u8) & 1u8 == 1u8) == (b / 4 % 2 == 1)) by (bit_vector);
    assert(((b >> 1u8) & 1u8 == 1u8) == (b / 2 % 2 == 1)) by (bit_vector);
    assert(((b >> 0u8) & 1u8 == 1u8) == (b % 2 == 1)) by (bit_vector);
}

/// A junk map has whole bytes of bits: as many as the blocks of a dual-layer disc need, and no byte
/// more.
pub proof fn law_junk_map_size(block_size: u32)
    requires
        block_size > 0,
    ensures
        junk_capacity(block_size) % 8 == 0,
        junk_capacity(block_size) * block_size >= 8_511_160_320,
        (junk_capacity(block_size) - 8) * block_size < 8_511_160_320,
{
    let n = DL_DVD_SIZE as int;
    let d = block_size as int;
    let blocks = div_up(n, d);
    let capacity = junk_capacity(block_size);
    lemma_div_up(n, d);
    lemma_div_up(blocks, 8);
    assert(blocks > 0) by (nonlinear_arith)
        requires
            n <= blocks * d,
            n > 0,
            d > 0,
    ;
    assert(capacity >= blocks);
    assert(capacity - 8 <= blocks - 1);
    assert(capacity * d >= blocks * d) by (nonlinear_arith)
        requires
            capacity >= blocks,
            d > 0,
    ;
    assert((capacity - 8) * d <= (blocks - 1) * d) by (nonlinear_arith)
        requires
            capacity - 8 <= blocks - 1,
            d > 0,
    ;
}

/// Noting a block that the map has no bit for changes nothing.
pub proof fn law_note_behind_map(map: Seq<bool>, block: int, value: bool)
    requires
        block >= map.len(),
    ensures
        with_bit(map, block, value) == map,
{
}

/// Only a junk map tells that a block is junk, and only of a block whose bit is set.
pub proof fn law_junk_blocks(header: NKitHeader, block: int)
    requires
        block >= 0,
    ensures
        match header.junk_bits {
            None => header.junk_at(block) is None,
            Some(map) => header.junk_at(block) == Some(block < map@.len() && map@[block]),
        },
{
}

/// A block that is not stored reads as junk data if it is known to be junk, and as zeroes
/// otherwise, also where nothing is known.
pub proof fn law_unstored_blocks(junk: Option<bool>)
    ensures
        junk is None ==> unstored_kind(junk) == BlockKind::Zero,
        junk == Some(false) ==> unstored_kind(junk) == BlockKind::Zero,
        junk == Some(true) ==> unstored_kind(junk) == BlockKind::Junk,
{
}

/// The block of a sector is the one whose bytes the sector starts in, unless its index does not
/// fit in 32 bits.
pub proof fn law_block_of_sector(sector: u32, block_size: u32)
    requires
        block_size > 0,
        sector * 0x8000 < block_size * 0x1_0000_0000,
    ensures
        block_at(sector, block_size) * block_size <= sector * 0x8000,
        sector * 0x8000 < (block_at(sector, block_size) + 1) * block_size,
{
    let n = sector * 0x8000;
    let d = block_size as int;
    assert(n / d * d <= n < (n / d + 1) * d && 0 <= n / d && n / d < 0x1_0000_0000)
        by (nonlinear_arith)
        requires
            0 <= n < d * 0x1_0000_0000,
            d > 0,
    ;
}

/// Of two digests of the same kind the later one counts, and a digest that was not computed leaves
/// what was known.
pub proof fn law_crc32(digests: Digests, results: Seq<DigestResult>, i: int)
    requires
        -1 <= i < results.len(),
        i >= 0 ==> results[i] is Crc32,
        forall|k: int| i < k < results.len() ==> !(#[trigger] results[k] is Crc32),
    ensures
        i < 0 ==> digests.with_all(results).crc32 == digests.crc32,
        i >= 0 ==> digests.with_all(results).crc32 == Some(results[i]->Crc32_0),
    decreases results.len(),
{
    if results.len() > 0 {
        let rest = results.drop_last();
        assert(results.last() == results[results.len() - 1]);
        if i < results.len() - 1 {
            assert(!(results[results.len() - 1] is Crc32));
            assert forall|k: int| i < k < rest.len() implies !(#[trigger] rest[k] is Crc32) by {
                assert(rest[k] == results[k]);
            }
            law_crc32(digests, rest, i);
        }
    }
}

/// The same of MD5.
pub proof fn law_md5(digests: Digests, results: Seq<DigestResult>, i: int)
    requires
        -1 <= i < results.len(),
        i >= 0 ==> results[i] is Md5,
        forall|k: int| i < k < results.len() ==> !(#[trigger] results[k] is Md5),
    ensures
        i < 0 ==> digests.with_all(results).md5 == digests.md5,
        i >= 0 ==> digests.with_all(results).md5 == Some(results[i]->Md5_0),
    decreases results.len(),
{
    if results.len() > 0 {
        let rest = results.drop_last();
        assert(results.last() == results[results.len() - 1]);
        if i < results.len() - 1 {
            assert(!(results[results.len() - 1] is Md5));
            assert forall|k: int| i < k < rest.len() implies !(#[trigger] rest[k] is Md5) by {
                assert(rest[k] == results[k]);
            }
            law_md5(digests, rest, i);
        }
    }
}

/// The same of SHA-1.
pub proof fn law_sha1(digests: Digests, results: Seq<DigestResult>, i: int)
    requires
        -1 <= i < results.len(),
        i >= 0 ==> results[i] is Sha1,
        forall|k: int| i < k < results.len() ==> !(#[trigger] results[k] is Sha1),
    ensures
        i < 0 ==> digests.with_all(results).sha1 == digests.sha1,
        i >= 0 ==> digests.with_all(results).sha1 == Some(results[i]->Sha1_0),
    decreases results.len(),
{
    if results.len() > 0 {
        let rest = results.drop_last();
        assert(results.last() == results[results.len() - 1]);
        if i < results.len() - 1 {
            assert(!(results[results.len() - 1] is Sha1));
            assert forall|k: int| i < k < rest.len() implies !(#[trigger] rest[k] is Sha1) by {
                assert(rest[k] == results[k]);
            }
            law_sha1(digests, rest, i);
        }
    }
}

/// The same of XXH64.
pub proof fn law_xxh64(digests: Digests, results: Seq<DigestResult>, i: int)
    requires
        -1 <= i < results.len(),
        i >= 0 ==> results[i] is Xxh64,
        forall|k: int| i < k < results.len() ==> !(#[trigger] results[k] is Xxh64),
    ensures
        i < 0 ==> digests.with_all(results).xxh64 == digests.xxh64,
        i >= 0 ==> digests.with_all(results).xxh64 == Some(results[i]->Xxh64_0),
    decreases results.len(),
{
    if results.len() > 0 {
        let rest = results.drop_last();
        assert(results.last() == results[results.len() - 1]);
        if i < results.len() - 1 {
            assert(!(results[results.len() - 1] is Xxh64));
            assert forall|k: int| i < k < rest.len() implies !(#[trigger] rest[k] is Xxh64) by {
                assert(rest[k] == results[k]);
            }
            law_xxh64(digests, rest, i);
        }
    }
}

/// Before any digest is computed none is known.
pub proof fn law_no_digests()
    ensures
        Digests::unknown().crc32 is None,
        Digests::unknown().md5 is None,
        Digests::unknown().sha1 is None,
        Digests::unknown().xxh64 is None,
{
}

/// An image reports its format and its block size, and of the disc what its NKit header says:
/// nothing without one.
pub proof fn law_image_report(format: Format, block_size: u32, nkit: Option<NKitHeader>)
    ensures
        ({
            let meta = DiscMeta::of(format, block_size, nkit);
            &&& meta.format == format
            &&& meta.block_size == Some(block_size)
            &&& match nkit {
                Some(header) => meta.disc_size == header.size && meta.digests == header.digests,
                None => {
                    &&& meta.disc_size is None
                    &&& meta.digests.crc32 is None
                    &&& meta.digests.md5 is None
                    &&& meta.digests.sha1 is None
                    &&& meta.digests.xxh64 is None
                },
            }
        }),
{
}

} // verus!
