//! Junk data: the pseudorandom padding that fills the unused areas of a disc.
//!
//! Every sector is padded from a stream of its own, which depends on the disc ID, on the disc
//! number and on the sector's index. The stream comes from a lagged Fibonacci generator.

use vstd::prelude::*;

use crate::disc::SECTOR_SIZE;

verus! {

/// Number of words in the generator's state, which is also its long lag.
pub const LFG_K: usize = 521;

/// Short lag of the generator.
pub const LFG_J: usize = 32;

/// Number of bytes that one state of the generator yields.
pub const LFG_K_BYTES: usize = 2084;

/// Number of words of the state that are drawn from the seed.
pub const SEED_SIZE: usize = 17;

/// Word that a disc ID and a disc number are reduced to.
pub open spec fn disc_seed(disc_id: Seq<u8>, disc_num: u8) -> u32 {
    let b0 = disc_id[2] as u32;
    let b1 = disc_id[1] as u32;
    let b2 = disc_id[3].wrapping_add(disc_id[2]) as u32;
    let b3 = disc_id[0].wrapping_add(disc_id[1]) as u32;
    ((b0 << 24) | (b1 << 16) | (b2 << 8) | b3) ^ disc_num as u32
}

/// Start of the linear congruential generator for one sector.
pub open spec fn sector_seed(disc_id: Seq<u8>, disc_num: u8, sector: u32) -> u32 {
    disc_seed(disc_id, disc_num).wrapping_mul(0x260BCD5) ^ sector.wrapping_mul(0x1EF29123)
}

/// The linear congruential generator after `steps` steps from `n`.
pub open spec fn lcg(n: u32, steps: nat) -> u32
    decreases steps,
{
    if steps == 0 {
        n
    } else {
        lcg(n, (steps - 1) as nat).wrapping_mul(0x5D588B65).wrapping_add(1)
    }
}

/// The top bits of the `count` states that follow `n`, the latest in the highest place.
pub open spec fn lcg_bits(n: u32, count: nat) -> u32
    decreases count,
{
    if count == 0 {
        0
    } else {
        (lcg_bits(n, (count - 1) as nat) >> 1) | (lcg(n, count) & 0x8000_0000)
    }
}

/// Word `i` that is drawn from the seed `n`.
pub open spec fn drawn_word(n: u32, i: nat) -> u32 {
    lcg_bits(lcg(n, 32 * i), 32)
}

/// Word `i` of the first state for the seed `n`, before the output transformation.
pub open spec fn raw_word(n: u32, i: nat) -> u32
    decreases i,
{
    if i < 16 {
        drawn_word(n, i)
    } else if i == 16 {
        drawn_word(n, 16) ^ ((drawn_word(n, 0) >> 9) ^ (drawn_word(n, 16) << 23))
    } else {
        ((raw_word(n, (i - 17) as nat) << 23) ^ (raw_word(n, (i - 16) as nat) >> 9))
            ^ raw_word(n, (i - 1) as nat)
    }
}

/// The output transformation: the third byte is taken from bits 18 to 25.
pub open spec fn output_word(x: u32) -> u32 {
    (x & 0xFF00_FFFF) | ((x >> 2) & 0x00FF_0000)
}

/// Word `i` of the generator's sequence for the seed `n`.
pub open spec fn lfg_word(n: u32, i: nat) -> u32
    decreases i,
{
    if i < 521 {
        output_word(raw_word(n, i))
    } else {
        lfg_word(n, (i - 521) as nat) ^ lfg_word(n, (i - 32) as nat)
    }
}

/// Byte `i` of a word, counted from the most significant one.
pub open spec fn be_byte(w: u32, i: int) -> u8 {
    if i == 0 {
        (w >> 24) as u8
    } else if i == 1 {
        (w >> 16) as u8
    } else if i == 2 {
        (w >> 8) as u8
    } else {
        w as u8
    }
}

/// Byte `p` of the junk stream for the seed `n`: four states are discarded first.
pub open spec fn stream_byte(n: u32, p: nat) -> u8 {
    be_byte(lfg_word(n, 4 * 521 + p / 4), (p % 4) as int)
}

/// The junk byte at `offset` bytes into the partition or disc with the given ID and number.
pub open spec fn junk_byte(disc_id: Seq<u8>, disc_num: u8, offset: int) -> u8 {
    let sector = ((offset / 0x8000) % 0x1_0000_0000) as u32;
    stream_byte(sector_seed(disc_id, disc_num, sector), (offset % 0x8000) as nat)
}

/// Whether `data` is junk data that starts at `offset`.
pub open spec fn is_junk(data: Seq<u8>, disc_id: Seq<u8>, disc_num: u8, offset: int) -> bool {
    forall|i: int|
        0 <= i < data.len() ==> #[trigger] data[i] == junk_byte(disc_id, disc_num, offset + i)
}

/// Whether exactly the first `same` bytes of `data` are junk data that starts at `offset`.
pub open spec fn is_junk_up_to(
    data: Seq<u8>,
    disc_id: Seq<u8>,
    disc_num: u8,
    offset: int,
    same: int,
) -> bool {
    &&& 0 <= same <= data.len()
    &&& is_junk(data.take(same), disc_id, disc_num, offset)
    &&& same < data.len() ==> data[same] != junk_byte(disc_id, disc_num, offset + same)
}

/// Junk data is recognised as such over its whole length, and other data is not.
pub proof fn law_junk_is_recognised(
    data: Seq<u8>,
    disc_id: Seq<u8>,
    disc_num: u8,
    offset: int,
    same: int,
)
    requires
        is_junk_up_to(data, disc_id, disc_num, offset, same),
    ensures
        same == data.len() <==> is_junk(data, disc_id, disc_num, offset),
{
    if same == data.len() {
        assert(data.take(same) =~= data);
    }
}

/// Lagged Fibonacci generator for junk data.
///
/// A value is scratch space: every public method seeds the generator anew, so what an earlier
/// call left behind never shows in a later result.
pub struct LaggedFibonacci {
    buffer: [u32; 521],
    position: usize,
}

impl LaggedFibonacci {
    /// Whether the state holds the `base`-th and the following words of the sequence of `n`.
    spec fn holds(&self, n: u32, base: nat) -> bool {
        forall|i: int|
            0 <= i < 521 ==> #[trigger] self.buffer@[i] == lfg_word(n, (base + i) as nat)
    }

    /// Whether the next byte that comes out is byte `p` of the stream of `n`.
    spec fn at(&self, n: u32, p: nat) -> bool {
        &&& self.position == p % 2084
        &&& self.holds(n, 4 * 521 + 521 * (p / 2084))
    }

    /// Advances the state by one whole period of the long lag.
    fn forward(&mut self, Ghost(n): Ghost<u32>, Ghost(base): Ghost<nat>)
        requires
            old(self).holds(n, base),
        ensures
            final(self).holds(n, base + 521),
            final(self).position == old(self).position,
    {
        let mut i: usize = 0;
        while i < LFG_J
            invariant
                i <= 32,
                self.position == old(self).position,
                forall|k: int|
                    0 <= k < i ==> #[trigger] self.buffer@[k] == lfg_word(
                        n,
                        (base + 521 + k) as nat,
                    ),
                forall|k: int|
                    i <= k < 521 ==> #[trigger] self.buffer@[k] == lfg_word(n, (base + k) as nat),
            decreases 32 - i,
        {
            assert(self.buffer@[i as int] == lfg_word(n, (base + i) as nat));
            assert(self.buffer@[i + 489] == lfg_word(n, (base + (i + 489)) as nat));
            self.buffer[i] = self.buffer[i] ^ self.buffer[i + LFG_K - LFG_J];
            i += 1;
        }
        while i < LFG_K
            invariant
                32 <= i <= 521,
                self.position == old(self).position,
                forall|k: int|
                    0 <= k < i ==> #[trigger] self.buffer@[k] == lfg_word(
                        n,
                        (base + 521 + k) as nat,
                    ),
                forall|k: int|
                    i <= k < 521 ==> #[trigger] self.buffer@[k] == lfg_word(n, (base + k) as nat),
            decreases 521 - i,
        {
            assert(self.buffer@[i as int] == lfg_word(n, (base + i) as nat));
            assert(self.buffer@[i - 32] == lfg_word(n, (base + 521 + (i - 32)) as nat));
            self.buffer[i] = self.buffer[i] ^ self.buffer[i - LFG_J];
            i += 1;
        }
        assert forall|k: int| 0 <= k < 521 implies #[trigger] self.buffer@[k] == lfg_word(
            n,
            (base + 521 + k) as nat,
        ) by {}
    }

    /// Puts the generator at the start of the stream for one sector.
    fn init_with_seed(&mut self, disc_id: [u8; 4], disc_num: u8, sector: u32)
        ensures
            final(self).at(sector_seed(disc_id@, disc_num, sector), 0),
    {
        let b0: u32 = disc_id[2] as u32;
        let b1: u32 = disc_id[1] as u32;
        let b2: u32 = disc_id[3].wrapping_add(disc_id[2]) as u32;
        let b3: u32 = disc_id[0].wrapping_add(disc_id[1]) as u32;
        let id_seed: u32 = ((b0 << 24) | (b1 << 16) | (b2 << 8) | b3) ^ disc_num as u32;
        let start: u32 = id_seed.wrapping_mul(0x260BCD5) ^ sector.wrapping_mul(0x1EF29123);
        let ghost n0 = sector_seed(disc_id@, disc_num, sector);
        assert(start == n0);

        let mut n: u32 = start;
        let mut i: usize = 0;
        while i < SEED_SIZE
            invariant
                i <= 17,
                n == lcg(n0, 32 * i as nat),
                forall|k: int|
                    0 <= k < i ==> #[trigger] self.buffer@[k] == drawn_word(n0, k as nat),
            decreases 17 - i,
        {
            let mut v: u32 = 0;
            let mut j: usize = 0;
            let ghost from = n;
            while j < LFG_J
                invariant
                    j <= 32,
                    from == lcg(n0, 32 * i as nat),
                    n == lcg(from, j as nat),
                    v == lcg_bits(from, j as nat),
                decreases 32 - j,
            {
                n = n.wrapping_mul(0x5D588B65).wrapping_add(1);
                v = (v >> 1) | (n & 0x8000_0000);
                j += 1;
            }
            proof {
                lemma_lcg_add(n0, 32 * i as nat, 32);
            }
            self.buffer[i] = v;
            i += 1;
        }
        self.buffer[16] = self.buffer[16] ^ ((self.buffer[0] >> 9) ^ (self.buffer[16] << 23));
        assert forall|k: int| 0 <= k < 17 implies #[trigger] self.buffer@[k] == raw_word(
            n0,
            k as nat,
        ) by {}
        while i < LFG_K
            invariant
                17 <= i <= 521,
                forall|k: int|
                    0 <= k < i ==> #[trigger] self.buffer@[k] == raw_word(n0, k as nat),
            decreases 521 - i,
        {
            assert(self.buffer@[i - 17] == raw_word(n0, (i - 17) as nat));
            assert(self.buffer@[i - 16] == raw_word(n0, (i - 16) as nat));
            assert(self.buffer@[i - 1] == raw_word(n0, (i - 1) as nat));
            self.buffer[i] = ((self.buffer[i - 17] << 23) ^ (self.buffer[i - 16] >> 9))
                ^ self.buffer[i - 1];
            i += 1;
        }
        i = 0;
        while i < LFG_K
            invariant
                i <= 521,
                forall|k: int|
                    0 <= k < i ==> #[trigger] self.buffer@[k] == output_word(
                        raw_word(n0, k as nat),
                    ),
                forall|k: int|
                    i <= k < 521 ==> #[trigger] self.buffer@[k] == raw_word(n0, k as nat),
            decreases 521 - i,
        {
            let x: u32 = self.buffer[i];
            self.buffer[i] = (x & 0xFF00_FFFF) | ((x >> 2) & 0x00FF_0000);
            i += 1;
        }
        assert(self.holds(n0, 0));
        i = 0;
        while i < 4
            invariant
                i <= 4,
                self.holds(n0, 521 * i as nat),
            decreases 4 - i,
        {
            self.forward(Ghost(n0), Ghost(521 * i as nat));
            i += 1;
        }
        self.position = 0;
    }

    /// Skips the next `count` bytes of the stream.
    fn skip(&mut self, count: usize, Ghost(n): Ghost<u32>, Ghost(p): Ghost<nat>)
        requires
            old(self).at(n, p),
            count <= SECTOR_SIZE,
        ensures
            final(self).at(n, p + count as nat),
    {
        let mut left: usize = count;
        let ghost mut q: nat = p;
        while left >= LFG_K_BYTES - self.position
            invariant
                self.at(n, q),
                q + left == p + count,
                left <= 0x8000,
            decreases left,
        {
            let step: usize = LFG_K_BYTES - self.position;
            self.forward(Ghost(n), Ghost(4 * 521 + 521 * (q / 2084)));
            self.position = 0;
            left = left - step;
            proof {
                assert((q + step) as nat / 2084 == q / 2084 + 1);
                q = q + step as nat;
            }
        }
        self.position = self.position + left;
    }

    /// Takes the next byte of the stream.
    fn next_byte(&mut self, Ghost(n): Ghost<u32>, Ghost(p): Ghost<nat>) -> (byte: u8)
        requires
            old(self).at(n, p),
        ensures
            byte == stream_byte(n, p),
            final(self).at(n, p + 1),
    {
        let w: u32 = self.buffer[self.position / 4];
        let shift: usize = self.position % 4;
        proof {
            assert(p / 4 == 521 * (p / 2084) + (p % 2084) / 4);
            assert(p % 4 == (p % 2084) % 4);
        }
        let byte: u8 = if shift == 0 {
            #[verifier::truncate]
            ((w >> 24) as u8)
        } else if shift == 1 {
            #[verifier::truncate]
            ((w >> 16) as u8)
        } else if shift == 2 {
            #[verifier::truncate]
            ((w >> 8) as u8)
        } else {
            #[verifier::truncate]
            (w as u8)
        };
        self.position = self.position + 1;
        if self.position == LFG_K_BYTES {
            self.forward(Ghost(n), Ghost(4 * 521 + 521 * (p / 2084)));
            self.position = 0;
        }
        byte
    }
}

impl LaggedFibonacci {
    /// Fills `buf` with the junk data that starts at `partition_offset`.
    pub fn fill_sector_chunked(
        &mut self,
        buf: &mut [u8],
        disc_id: [u8; 4],
        disc_num: u8,
        partition_offset: u64,
    )
        requires
            partition_offset + old(buf)@.len() <= u64::MAX,
        ensures
            final(buf)@.len() == old(buf)@.len(),
            is_junk(final(buf)@, disc_id@, disc_num, partition_offset as int),
    {
        let len: usize = buf.len();
        let mut done: usize = 0;
        while done < len
            invariant
                done <= len == buf@.len() == old(buf)@.len(),
                partition_offset + len <= u64::MAX,
                forall|i: int|
                    0 <= i < done ==> #[trigger] buf@[i] == junk_byte(
                        disc_id@,
                        disc_num,
                        partition_offset + i,
                    ),
            decreases len - done,
        {
            let offset: u64 = partition_offset + done as u64;
            let chunk: usize = self.seek(disc_id, disc_num, offset, len - done);
            let ghost n = offset_seed(disc_id@, disc_num, offset as int);
            let end: usize = done + chunk;
            let start: usize = done;
            while done < end
                invariant
                    start <= done <= end <= len == buf@.len() == old(buf)@.len(),
                    partition_offset + len <= u64::MAX,
                    offset == partition_offset + start,
                    offset % 0x8000 + (end - start) <= 0x8000,
                    n == offset_seed(disc_id@, disc_num, offset as int),
                    self.at(n, (offset % 0x8000 + (done - start)) as nat),
                    forall|i: int|
                        0 <= i < done ==> #[trigger] buf@[i] == junk_byte(
                            disc_id@,
                            disc_num,
                            partition_offset + i,
                        ),
                decreases end - done,
            {
                proof {
                    lemma_same_sector(disc_id@, disc_num, offset as int, done - start);
                }
                let byte: u8 = self.next_byte(
                    Ghost(n),
                    Ghost((offset % 0x8000 + (done - start)) as nat),
                );
                buf[done] = byte;
                done += 1;
            }
        }
    }

    /// Returns how many of the first bytes of `buf` are the junk data that starts at
    /// `partition_offset`.
    pub fn check_sector_chunked(
        &mut self,
        buf: &[u8],
        disc_id: [u8; 4],
        disc_num: u8,
        partition_offset: u64,
    ) -> (same: usize)
        requires
            partition_offset + buf@.len() <= u64::MAX,
        ensures
            is_junk_up_to(
                buf@,
                disc_id@,
                disc_num,
                partition_offset as int,
                same as int,
            ),
    {
        let len: usize = buf.len();
        let mut done: usize = 0;
        while done < len
            invariant
                done <= len == buf@.len(),
                partition_offset + len <= u64::MAX,
                is_junk(buf@.take(done as int), disc_id@, disc_num, partition_offset as int),
            decreases len - done,
        {
            let offset: u64 = partition_offset + done as u64;
            let chunk: usize = self.seek(disc_id, disc_num, offset, len - done);
            let ghost n = offset_seed(disc_id@, disc_num, offset as int);
            let end: usize = done + chunk;
            let start: usize = done;
            while done < end
                invariant
                    start <= done <= end <= len == buf@.len(),
                    partition_offset + len <= u64::MAX,
                    offset == partition_offset + start,
                    offset % 0x8000 + (end - start) <= 0x8000,
                    n == offset_seed(disc_id@, disc_num, offset as int),
                    self.at(n, (offset % 0x8000 + (done - start)) as nat),
                    is_junk(buf@.take(done as int), disc_id@, disc_num, partition_offset as int),
                decreases end - done,
            {
                proof {
                    lemma_same_sector(disc_id@, disc_num, offset as int, done - start);
                }
                let byte: u8 = self.next_byte(
                    Ghost(n),
                    Ghost((offset % 0x8000 + (done - start)) as nat),
                );
                if buf[done] != byte {
                    return done;
                }
                let ghost before = buf@.take(done as int);
                done += 1;
                assert forall|i: int| 0 <= i < done implies #[trigger] buf@.take(done as int)[i]
                    == junk_byte(disc_id@, disc_num, partition_offset + i) by {
                    if i < done - 1 {
                        assert(buf@.take(done as int)[i] == before[i]);
                    }
                }
            }
        }
        len
    }

    /// Puts the generator at the junk byte of `offset` and returns how many of the next `wanted`
    /// bytes lie in the same sector.
    fn seek(&mut self, disc_id: [u8; 4], disc_num: u8, offset: u64, wanted: usize) -> (len: usize)
        ensures
            len <= wanted,
            wanted > 0 ==> len > 0,
            offset % 0x8000 + len <= 0x8000,
            final(self).at(
                offset_seed(disc_id@, disc_num, offset as int),
                (offset % 0x8000) as nat,
            ),
    {
        let sector_index: u64 = offset / SECTOR_SIZE as u64;
        let sector: u32 =
            #[verifier::truncate]
            (sector_index as u32);
        assert(sector_index as u32 == sector_index % 0x1_0000_0000) by (bit_vector);
        let sector_offset: usize = (offset % SECTOR_SIZE as u64) as usize;
        self.init_with_seed(disc_id, disc_num, sector);
        let ghost n = sector_seed(disc_id@, disc_num, sector);
        self.skip(sector_offset, Ghost(n), Ghost(0));
        let rest: usize = SECTOR_SIZE - sector_offset;
        if rest < wanted {
            rest
        } else {
            wanted
        }
    }
}

impl View for LaggedFibonacci {
    type V = (Seq<u32>, int);

    closed spec fn view(&self) -> (Seq<u32>, int) {
        (self.buffer@, self.position as int)
    }
}

impl Default for LaggedFibonacci {
    fn default() -> (r: Self)
        ensures
            r@ == (Seq::new(521, |i: int| 0u32), 0int),
    {
        let r: LaggedFibonacci = LaggedFibonacci { buffer: [0u32; 521], position: 0 };
        assert(r.buffer@ =~= Seq::new(521, |i: int| 0u32));
        r
    }
}

/// The seed of the stream that the junk byte at `offset` belongs to.
spec fn offset_seed(disc_id: Seq<u8>, disc_num: u8, offset: int) -> u32 {
    sector_seed(disc_id, disc_num, ((offset / 0x8000) % 0x1_0000_0000) as u32)
}

/// Within a sector the junk bytes follow each other in one stream.
proof fn lemma_same_sector(disc_id: Seq<u8>, disc_num: u8, offset: int, i: int)
    requires
        0 <= offset,
        0 <= i,
        offset % 0x8000 + i < 0x8000,
    ensures
        junk_byte(disc_id, disc_num, offset + i) == stream_byte(
            offset_seed(disc_id, disc_num, offset),
            (offset % 0x8000 + i) as nat,
        ),
{
    assert((offset + i) / 0x8000 == offset / 0x8000);
    assert((offset + i) % 0x8000 == offset % 0x8000 + i);
}

/// Steps of the linear congruential generator add up.
pub proof fn lemma_lcg_add(n: u32, a: nat, b: nat)
    ensures
        lcg(lcg(n, a), b) == lcg(n, a + b),
    decreases b,
{
    if b > 0 {
        lemma_lcg_add(n, a, (b - 1) as nat);
    }
}

} // verus!
