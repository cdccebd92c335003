//! What junk data is, number by number.

use vstd::prelude::*;

use crate::lfg::{
    be_byte, disc_seed, drawn_word, is_junk, is_junk_up_to, junk_byte, lcg, lcg_bits, lemma_lcg_add,
    lfg_word, output_word, raw_word, sector_seed, stream_byte,
};

verus! {

/// A prefix counts as junk data as far as every byte of it is the junk byte of its offset, and no
/// further.
pub proof fn law_junk_prefix(
    data: Seq<u8>,
    disc_id: Seq<u8>,
    disc_num: u8,
    offset: int,
    same: int,
    i: int,
)
    requires
        is_junk_up_to(data, disc_id, disc_num, offset, same),
        0 <= i < data.len(),
    ensures
        0 <= same <= data.len(),
        i < same ==> data[i] == junk_byte(disc_id, disc_num, offset + i),
        i == same ==> data[i] != junk_byte(disc_id, disc_num, offset + i),
{
    if i < same {
        assert(data.take(same)[i] == data[i]);
    }
}

/// Every byte of junk data is the junk byte of its offset.
pub proof fn law_junk_bytes(data: Seq<u8>, disc_id: Seq<u8>, disc_num: u8, offset: int)
    ensures
        is_junk(data, disc_id, disc_num, offset) <==> forall|i: int|
            0 <= i < data.len() ==> #[trigger] data[i] == junk_byte(disc_id, disc_num, offset + i),
{
}

/// Every sector has a stream of its own, from which its bytes are taken in their order.
pub proof fn law_junk_sectors(disc_id: Seq<u8>, disc_num: u8, sector: u32, r: int)
    requires
        0 <= r < 0x8000,
    ensures
        junk_byte(disc_id, disc_num, 0x8000 * sector + r) == stream_byte(
            sector_seed(disc_id, disc_num, sector),
            r as nat,
        ),
{
    let offset = 0x8000 * sector + r;
    assert(offset / 0x8000 == sector && offset % 0x8000 == r);
}

/// The seed of a sector: the four bytes of the disc ID are mixed, the disc number is combined with
/// the lowest byte, and the sector's index is mixed in.
pub proof fn law_junk_seed(disc_id: Seq<u8>, disc_num: u8, sector: u32)
    ensures
        ({
            let id = disc_id[2] * 0x1000000 + disc_id[1] * 0x10000 + (disc_id[3] + disc_id[2]) % 256
                * 0x100 + (disc_id[0] + disc_id[1]) % 256;
            let seed = disc_seed(disc_id, disc_num);
            &&& seed ^ (disc_num as u32) == id
            &&& sector_seed(disc_id, disc_num, sector) == (((seed * 0x260BCD5) % 0x1_0000_0000) as
            u32) ^ (((sector * 0x1EF29123) % 0x1_0000_0000) as u32)
        }),
{
    let b0 = disc_id[2] as u32;
    let b1 = disc_id[1] as u32;
    let b2 = disc_id[3].wrapping_add(disc_id[2]) as u32;
    let b3 = disc_id[0].wrapping_add(disc_id[1]) as u32;
    let d = disc_num as u32;
    let seed = disc_seed(disc_id, disc_num);
    assert(seed ^ d == b0 * 0x1000000 + b1 * 0x10000 + b2 * 0x100 + b3) by (bit_vector)
        requires
            seed == ((b0 << 24) | (b1 << 16) | (b2 << 8) | b3) ^ d,
            b0 < 256,
            b1 < 256,
            b2 < 256,
            b3 < 256,
    ;
}

/// A sum can be reduced before one is added.
proof fn lemma_one_more(z: int)
    requires
        z >= 0,
    ensures
        (z % 0x1_0000_0000 + 1) % 0x1_0000_0000 == (z + 1) % 0x1_0000_0000,
{
}

/// The numbers that words are drawn from: each is the one before it times a constant plus one.
#[verifier::rlimit(40)]
pub proof fn law_junk_generator(n: u32, k: nat)
    ensures
        lcg(n, 0) == n,
        lcg(n, k + 1) == (lcg(n, k) * 0x5D588B65 + 1) % 0x1_0000_0000,
{
    let x = lcg(n, k);
    let z = x * 0x5D588B65;
    assert(lcg(n, k + 1) == x.wrapping_mul(0x5D588B65).wrapping_add(1));
    assert(x.wrapping_mul(0x5D588B65) == z % 0x1_0000_0000);
    lemma_one_more(z);
}

/// Bit `b` of a word that is drawn is the highest bit of one number: 32 numbers in a row make a
/// word, from its lowest bit to its highest.
pub proof fn law_drawn_bits(n: u32, i: nat, b: u32)
    requires
        b < 32,
    ensures
        (drawn_word(n, i) >> b) & 1 == 1 <==> lcg(n, (32 * i + b + 1) as nat) >= 0x8000_0000,
{
    lemma_bits(lcg(n, 32 * i), 32, b);
    lemma_lcg_add(n, 32 * i, (b + 1) as nat);
}

/// The bits that have been drawn so far.
proof fn lemma_bits(n: u32, count: nat, b: u32)
    requires
        count <= 32,
        32 - count <= b < 32,
    ensures
        (lcg_bits(n, count) >> b) & 1 == 1 <==> lcg(n, (b - (32 - count) + 1) as nat)
            >= 0x8000_0000,
    decreases count,
{
    let before = lcg_bits(n, (count - 1) as nat);
    let x = lcg(n, count);
    let v = lcg_bits(n, count);
    assert(v == (before >> 1) | (x & 0x8000_0000));
    if b == 31 {
        assert((v >> 31) & 1 == 1 <==> x >= 0x8000_0000) by (bit_vector)
            requires
                v == (before >> 1) | (x & 0x8000_0000),
        ;
    } else {
        let c = (b + 1) as u32;
        assert((v >> b) & 1 == (before >> c) & 1) by (bit_vector)
            requires
                v == (before >> 1) | (x & 0x8000_0000),
                c == b + 1,
                b < 31,
        ;
        lemma_bits(n, (count - 1) as nat, c);
    }
}

/// How the first state is filled: sixteen words are drawn, the seventeenth is drawn and mixed with
/// the first, and each further one comes from three before it.
pub proof fn law_first_state(n: u32, i: nat)
    ensures
        i < 16 ==> raw_word(n, i) == drawn_word(n, i),
        i == 16 ==> raw_word(n, i) ^ drawn_word(n, 16) == (raw_word(n, 0) >> 9) ^ (drawn_word(n, 16)
            << 23),
        i > 16 ==> raw_word(n, i) ^ raw_word(n, (i - 1) as nat) == (raw_word(n, (i - 17) as nat)
            << 23) ^ (raw_word(n, (i - 16) as nat) >> 9),
{
    if i == 16 {
        let (w, d, o) = (raw_word(n, i), drawn_word(n, 16), (raw_word(n, 0) >> 9) ^ (drawn_word(
            n,
            16,
        ) << 23));
        assert(raw_word(n, 0) == drawn_word(n, 0));
        assert(w ^ d == o) by (bit_vector)
            requires
                w == d ^ o,
        ;
    } else if i > 16 {
        let (w, p, o) = (
            raw_word(n, i),
            raw_word(n, (i - 1) as nat),
            (raw_word(n, (i - 17) as nat) << 23) ^ (raw_word(n, (i - 16) as nat) >> 9),
        );
        assert(w ^ p == o) by (bit_vector)
            requires
                w == o ^ p,
        ;
    }
}

/// The words of the first state, before they are used: the highest byte and the two lowest stay,
/// and the other one is bits 18 to 25.
pub proof fn law_output_bytes(x: u32)
    ensures
        output_word(x) as int / 0x1000000 == x as int / 0x1000000,
        output_word(x) as int / 0x10000 % 256 == x as int / 0x40000 % 256,
        output_word(x) as int % 0x10000 == x as int % 0x10000,
{
    let w = output_word(x);
    assert(w / 0x1000000 == x / 0x1000000 && w / 0x10000 % 256 == x / 0x40000 % 256 && w % 0x10000
        == x % 0x10000) by (bit_vector)
        requires
            w == (x & 0xFF00_FFFF) | ((x >> 2) & 0x00FF_0000),
    ;
}

/// The words: those of the first state, then each the sum without carries of two before it.
pub proof fn law_junk_words(n: u32, i: nat)
    ensures
        i < 521 ==> lfg_word(n, i) == output_word(raw_word(n, i)),
        lfg_word(n, i + 521) == lfg_word(n, i) ^ lfg_word(n, i + 489),
{
}

/// The bytes of a stream are those of the words that follow the first four states, the highest
/// byte of a word first.
pub proof fn law_stream_bytes(n: u32, k: nat)
    ensures
        stream_byte(n, 4 * k) * 16777216 + stream_byte(n, 4 * k + 1) * 65536 + stream_byte(
            n,
            4 * k + 2,
        ) * 256 + stream_byte(n, 4 * k + 3) == lfg_word(n, 2084 + k),
{
    let w = lfg_word(n, 2084 + k);
    assert((4 * k) / 4 == k && (4 * k + 1) / 4 == k && (4 * k + 2) / 4 == k && (4 * k + 3) / 4
        == k);
    let (b0, b1, b2, b3) = (be_byte(w, 0), be_byte(w, 1), be_byte(w, 2), be_byte(w, 3));
    assert(b0 * 16777216 + b1 * 65536 + b2 * 256 + b3 == w) by (bit_vector)
        requires
            b0 == (w >> 24) as u8,
            b1 == (w >> 16) as u8,
            b2 == (w >> 8) as u8,
            b3 == w as u8,
    ;
}

/// Every byte of a stream is the sum without carries of the bytes 2084 and 128 before it.
pub proof fn law_stream_recurrence(n: u32, p: nat)
    ensures
        stream_byte(n, p + 2084) == stream_byte(n, p) ^ stream_byte(n, p + 1956),
{
    let k = p / 4;
    let i = (p % 4) as int;
    assert((p + 2084) / 4 == k + 521 && (p + 2084) % 4 == i);
    assert((p + 1956) / 4 == k + 489 && (p + 1956) % 4 == i);
    law_junk_words(n, 2084 + k);
    let (u, v, w) = (
        lfg_word(n, 2084 + k),
        lfg_word(n, 2084 + k + 489),
        lfg_word(n, 2084 + k + 521),
    );
    assert((w >> 24) as u8 == ((u >> 24) as u8) ^ ((v >> 24) as u8) && (w >> 16) as u8 == ((u >> 16)
        as u8) ^ ((v >> 16) as u8) && (w >> 8) as u8 == ((u >> 8) as u8) ^ ((v >> 8) as u8)
        && w as u8 == (u as u8) ^ (v as u8)) by (bit_vector)
        requires
            w == u ^ v,
    ;
}

} // verus!
