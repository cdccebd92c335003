//! Classification of the blocks of a disc: real content, zeroes or junk data.

use vstd::prelude::*;
use vstd::slice::slice_subrange;

use crate::crypt::{decrypt_sector, decrypted_sector};
use crate::disc::{DiscHeader, PartitionInfo, PartitionKind, HASHES_SIZE, SECTOR_SIZE};
use crate::error::Error;
use crate::lfg::{is_junk, law_junk_is_recognised, LaggedFibonacci};
use crate::spans::{any_hits, hits, merge_spans, ordered, proper, separated, Span};
use crate::usage::{content_hits, PartitionUsage};

verus! {

/// The determined block type.
#[derive(Clone, Copy, Debug, PartialEq, Eq, Structural)]
pub enum CheckBlockResult {
    Normal,
    Zeroed,
    Junk,
}

/// Whether all bytes are zero.
pub open spec fn is_zero(data: Seq<u8>) -> bool {
    forall|i: int| 0 <= i < data.len() ==> #[trigger] data[i] == 0
}

/// The number of the sector that a position lies in. Sector numbers have 32 bits.
pub open spec fn sector_at(position: int) -> int {
    (position / 0x8000) % 0x1_0000_0000
}

/// Whether a sector belongs to a partition of the given kind.
pub open spec fn in_kind(partitions: Seq<PartitionInfo>, kind: PartitionKind, sector: int) -> bool {
    exists|i: int|
        0 <= i < partitions.len() && (#[trigger] partitions[i]).kind == kind
            && partitions[i].start_sector <= sector < partitions[i].data_end_sector
}

/// Whether the sectors from `start` to `end` touch a partition of another kind.
pub open spec fn touches_other_kind(
    partitions: Seq<PartitionInfo>,
    kind: PartitionKind,
    start: int,
    end: int,
) -> bool {
    exists|i: int|
        0 <= i < partitions.len() && (#[trigger] partitions[i]).kind != kind && start
            < partitions[i].data_end_sector && end > partitions[i].start_sector
}

/// Whether the sectors from `start` to `end` are a longest run, within the block from `first` to
/// `last`, that belongs to no partition of the given kind.
pub open spec fn is_leftover(
    partitions: Seq<PartitionInfo>,
    kind: PartitionKind,
    first: int,
    last: int,
    start: int,
    end: int,
) -> bool {
    &&& first <= start < end <= last
    &&& forall|x: int| start <= x < end ==> !#[trigger] in_kind(partitions, kind, x)
    &&& start == first || in_kind(partitions, kind, start - 1)
    &&& end == last || in_kind(partitions, kind, end)
}

/// What a block is judged by, apart from the partitions.
pub struct BlockView {
    /// The block's data.
    pub data: Seq<u8>,
    /// Where the block starts on the disc.
    pub position: int,
    /// The first four bytes of the game ID in the disc header.
    pub disc_id: Seq<u8>,
    /// The disc number in the disc header.
    pub disc_num: u8,
}

impl BlockView {
    /// The first sector of the block.
    pub open spec fn first(&self) -> int {
        sector_at(self.position)
    }

    /// The sector that the end of the block lies in.
    pub open spec fn last(&self) -> int {
        sector_at(self.position + self.data.len())
    }

    /// The data of the sectors from `start` to `end`.
    pub open spec fn sectors(&self, start: int, end: int) -> Seq<u8> {
        self.data.subrange((start - self.first()) * 0x8000, (end - self.first()) * 0x8000)
    }

    /// Whether a leftover of a block that is being scrubbed can be dropped: it belongs to no
    /// other partition, and it is zeroed or junk data of the disc.
    pub open spec fn droppable(
        &self,
        partitions: Seq<PartitionInfo>,
        kind: PartitionKind,
        start: int,
        end: int,
    ) -> bool {
        &&& !touches_other_kind(partitions, kind, start, end)
        &&& {
            ||| is_zero(self.sectors(start, end))
            ||| is_junk(
                self.sectors(start, end),
                self.disc_id,
                self.disc_num,
                self.position + (start - self.first()) * 0x8000,
            )
        }
    }

    /// Whether some sector of the block belongs to a partition that is being scrubbed.
    pub open spec fn touches_scrubbed(
        &self,
        partitions: Seq<PartitionInfo>,
        kind: PartitionKind,
    ) -> bool {
        exists|x: int|
            self.first() <= x < self.last() && #[trigger] in_kind(partitions, kind, x)
    }

    /// Whether the block can be dropped because of the partitions that are being scrubbed: it
    /// touches one, and whatever does not belong to one is droppable.
    pub open spec fn scrubbed(&self, partitions: Seq<PartitionInfo>, kind: PartitionKind) -> bool {
        &&& self.touches_scrubbed(partitions, kind)
        &&& forall|a: int, b: int|
            is_leftover(partitions, kind, self.first(), self.last(), a, b)
                ==> #[trigger] self.droppable(partitions, kind, a, b)
    }

    /// Whether all leftovers in front of sector `x` can be dropped, so that scrubbing gets there.
    pub open spec fn droppable_before(
        &self,
        partitions: Seq<PartitionInfo>,
        kind: PartitionKind,
        x: int,
    ) -> bool {
        forall|a: int, b: int|
            is_leftover(partitions, kind, self.first(), self.last(), a, b) && a < x
                ==> #[trigger] self.droppable(partitions, kind, a, b)
    }

    /// Whether the sectors that scrubbing has to look at lie inside the block's data. Of a block
    /// that starts at a sector they always do.
    pub open spec fn leftovers_inside(
        &self,
        partitions: Seq<PartitionInfo>,
        kind: PartitionKind,
    ) -> bool {
        self.touches_scrubbed(partitions, kind) ==> forall|a: int, b: int| #[trigger]
            is_leftover(partitions, kind, self.first(), self.last(), a, b)
                && self.droppable_before(partitions, kind, a) && !touches_other_kind(
                partitions,
                kind,
                a,
                b,
            ) ==> (b - self.first()) * 0x8000 <= self.data.len()
    }
}

/// Whether all bytes are zero.
fn all_zero(data: &[u8]) -> (r: bool)
    ensures
        r == is_zero(data@),
{
    let mut i: usize = 0;
    while i < data.len()
        invariant
            i <= data@.len(),
            forall|k: int| 0 <= k < i ==> #[trigger] data@[k] == 0,
        decreases data@.len() - i,
    {
        if data[i] != 0 {
            return false;
        }
        i += 1;
    }
    true
}

/// Whether all bytes are the junk data that starts at `offset`.
fn all_junk(
    data: &[u8],
    lfg: &mut LaggedFibonacci,
    disc_id: [u8; 4],
    disc_num: u8,
    offset: u64,
) -> (r: bool)
    requires
        offset + data@.len() <= u64::MAX,
    ensures
        r == is_junk(data@, disc_id@, disc_num, offset as int),
{
    let same: usize = lfg.check_sector_chunked(data, disc_id, disc_num, offset);
    proof {
        law_junk_is_recognised(data@, disc_id@, disc_num, offset as int, same as int);
    }
    same == data.len()
}

/// The number of the sector that a position lies in.
fn sector_number(position: u64) -> (sector: u32)
    ensures
        sector == sector_at(position as int),
{
    let index: u64 = position / SECTOR_SIZE as u64;
    assert(index as u32 == index % 0x1_0000_0000) by (bit_vector);
    #[verifier::truncate]
    (index as u32)
}

/// The parts of a block's sectors that belong to partitions of the given kind.
fn covered_sectors(
    partitions: &[PartitionInfo],
    kind: PartitionKind,
    first: u32,
    last: u32,
) -> (covered: Vec<Span>)
    ensures
        proper(covered@, first as int, last as int),
        forall|x: int|
            first <= x < last ==> #[trigger] in_kind(partitions@, kind, x) == any_hits(
                covered@,
                x,
                x + 1,
            ),
{
    let mut covered: Vec<Span> = Vec::new();
    let mut i: usize = 0;
    while i < partitions.len()
        invariant
            i <= partitions@.len(),
            proper(covered@, first as int, last as int),
            forall|x: int|
                first <= x < last ==> #[trigger] in_kind(partitions@.take(i as int), kind, x)
                    == any_hits(covered@, x, x + 1),
        decreases partitions@.len() - i,
    {
        let ghost before = covered@;
        let p: &PartitionInfo = &partitions[i];
        let start: u32 = if p.start_sector > first {
            p.start_sector
        } else {
            first
        };
        let end: u32 = if p.data_end_sector < last {
            p.data_end_sector
        } else {
            last
        };
        if p.kind == kind && start < end {
            covered.push(Span { start: start as u64, end: end as u64 });
        }
        proof {
            assert forall|x: int| first <= x < last implies #[trigger] in_kind(
                partitions@.take(i + 1),
                kind,
                x,
            ) == any_hits(covered@, x, x + 1) by {
                let a = partitions@.take(i as int);
                let b = partitions@.take(i + 1);
                assert(b[i as int] == *p);
                let here = p.kind == kind && p.start_sector <= x < p.data_end_sector;
                assert(in_kind(a, kind, x) == any_hits(before, x, x + 1));
                assert(in_kind(b, kind, x) == (in_kind(a, kind, x) || here)) by {
                    if in_kind(a, kind, x) {
                        let k = choose|k: int|
                            0 <= k < a.len() && (#[trigger] a[k]).kind == kind
                                && a[k].start_sector <= x < a[k].data_end_sector;
                        assert(b[k] == a[k]);
                    }
                    if in_kind(b, kind, x) {
                        let k = choose|k: int|
                            0 <= k < b.len() && (#[trigger] b[k]).kind == kind
                                && b[k].start_sector <= x < b[k].data_end_sector;
                        if k < i {
                            assert(a[k] == b[k]);
                        }
                    }
                }
                assert(any_hits(covered@, x, x + 1) == (any_hits(before, x, x + 1) || here)) by {
                    if any_hits(before, x, x + 1) {
                        let k = choose|k: int|
                            0 <= k < before.len() && hits(#[trigger] before[k], x, x + 1);
                        assert(covered@[k] == before[k]);
                    }
                    if here {
                        assert(hits(covered@[before.len() as int], x, x + 1));
                    }
                    if any_hits(covered@, x, x + 1) {
                        let k = choose|k: int|
                            0 <= k < covered@.len() && hits(#[trigger] covered@[k], x, x + 1);
                        if k < before.len() {
                            assert(before[k] == covered@[k]);
                        }
                    }
                }
            }
        }
        i += 1;
    }
    assert(partitions@.take(i as int) =~= partitions@);
    covered
}

/// Whether the sectors from `start` to `end` touch a partition of another kind.
fn other_kind_touched(
    partitions: &[PartitionInfo],
    kind: PartitionKind,
    start: u32,
    end: u32,
) -> (r: bool)
    ensures
        r == touches_other_kind(partitions@, kind, start as int, end as int),
{
    let mut i: usize = 0;
    while i < partitions.len()
        invariant
            i <= partitions@.len(),
            forall|k: int|
                0 <= k < i ==> !((#[trigger] partitions@[k]).kind != kind && start
                    < partitions@[k].data_end_sector && end > partitions@[k].start_sector),
        decreases partitions@.len() - i,
    {
        let p: &PartitionInfo = &partitions[i];
        if p.kind != kind && start < p.data_end_sector && end > p.start_sector {
            return true;
        }
        i += 1;
    }
    false
}

/// Whether the leftover from `start` to `end`, possibly empty, can be dropped.
fn leftover_droppable(
    buf: &[u8],
    input_position: u64,
    partitions: &[PartitionInfo],
    lfg: &mut LaggedFibonacci,
    disc_id: [u8; 4],
    disc_num: u8,
    kind: PartitionKind,
    start: u32,
    end: u32,
) -> (r: bool)
    requires
        input_position + buf@.len() <= u64::MAX,
        start < end ==> ({
            let view = BlockView {
                data: buf@,
                position: input_position as int,
                disc_id: disc_id@,
                disc_num,
            };
            &&& view.first() <= start
            &&& !touches_other_kind(partitions@, kind, start as int, end as int) ==> (end
                - view.first()) * 0x8000 <= buf@.len()
        }),
    ensures
        start >= end ==> r,
        start < end ==> r == (BlockView {
            data: buf@,
            position: input_position as int,
            disc_id: disc_id@,
            disc_num,
        }).droppable(partitions@, kind, start as int, end as int),
{
    if start >= end {
        return true;
    }
    if other_kind_touched(partitions, kind, start, end) {
        return false;
    }
    let first: u32 = sector_number(input_position);
    let rel_start: u64 = (start - first) as u64 * 0x8000;
    let rel_end: u64 = (end - first) as u64 * 0x8000;
    assert(rel_start <= rel_end <= buf.len());
    let chunk: &[u8] = slice_subrange(buf, rel_start as usize, rel_end as usize);
    if all_zero(chunk) {
        return true;
    }
    all_junk(chunk, lfg, disc_id, disc_num, input_position + rel_start)
}

/// Whether a block can be dropped because of the partitions that are being scrubbed.
///
/// A block fully inside the scrubbed partitions can be dropped outright. A block that only
/// partially overlaps can still be dropped, but only if the leftover is droppable and is not
/// part of a different partition.
fn scrub_block(
    buf: &[u8],
    input_position: u64,
    partitions: &[PartitionInfo],
    lfg: &mut LaggedFibonacci,
    disc_id: [u8; 4],
    disc_num: u8,
    kind: PartitionKind,
) -> (r: bool)
    requires
        input_position + buf@.len() <= u64::MAX,
        (BlockView {
            data: buf@,
            position: input_position as int,
            disc_id: disc_id@,
            disc_num,
        }).leftovers_inside(partitions@, kind),
    ensures
        r == (BlockView {
            data: buf@,
            position: input_position as int,
            disc_id: disc_id@,
            disc_num,
        }).scrubbed(partitions@, kind),
{
    let ghost view = BlockView {
        data: buf@,
        position: input_position as int,
        disc_id: disc_id@,
        disc_num,
    };
    let first: u32 = sector_number(input_position);
    let last: u32 = sector_number(input_position + buf.len() as u64);
    let covered: Vec<Span> = covered_sectors(partitions, kind, first, last);
    if covered.len() == 0 {
        return false;
    }
    let ghost spans = covered@;
    let merged: Vec<Span> = merge_spans(covered);
    proof {
        assert forall|x: int| first <= x < last implies #[trigger] in_kind(partitions@, kind, x)
            == any_hits(merged@, x, x + 1) by {
            assert(any_hits(merged@, x, x + 1) == any_hits(spans, x, x + 1));
        }
        assert(hits(spans[0], spans[0].start as int, spans[0].start + 1));
        assert(any_hits(spans, spans[0].start as int, spans[0].start + 1));
        assert(in_kind(partitions@, kind, spans[0].start as int));
        assert(view.touches_scrubbed(partitions@, kind));
    }
    if merged.len() == 1 && merged[0].start <= first as u64 && merged[0].end >= last as u64 {
        assert forall|a: int, b: int|
            is_leftover(partitions@, kind, view.first(), view.last(), a, b) implies #[trigger]
        view.droppable(partitions@, kind, a, b) by {
            assert(hits(merged@[0], a, a + 1));
            assert(in_kind(partitions@, kind, a));
        }
        return true;
    }
    let mut cursor: u32 = first;
    let mut i: usize = 0;
    while i < merged.len()
        invariant
            i <= merged@.len(),
            merged@.len() > 0,
            input_position + buf@.len() <= u64::MAX,
            view == (BlockView {
                data: buf@,
                position: input_position as int,
                disc_id: disc_id@,
                disc_num,
            }),
            first == view.first(),
            last == view.last(),
            view.touches_scrubbed(partitions@, kind),
            view.leftovers_inside(partitions@, kind),
            ordered(merged@),
            separated(merged@),
            proper(merged@, first as int, last as int),
            forall|x: int|
                first <= x < last ==> #[trigger] in_kind(partitions@, kind, x) == any_hits(
                    merged@,
                    x,
                    x + 1,
                ),
            i == 0 ==> cursor == first,
            i > 0 ==> cursor == merged@[i - 1].end,
            view.droppable_before(partitions@, kind, cursor as int),
        decreases merged@.len() - i,
    {
        let r: Span = merged[i];
        let start: u32 = r.start as u32;
        let end: u32 = r.end as u32;
        proof {
            lemma_gap(partitions@, kind, first as int, last as int, merged@, i as int);
            if cursor < start {
                assert(is_leftover(
                    partitions@,
                    kind,
                    view.first(),
                    view.last(),
                    cursor as int,
                    start as int,
                ));
            }
        }
        if !leftover_droppable(
            buf,
            input_position,
            partitions,
            lfg,
            disc_id,
            disc_num,
            kind,
            cursor,
            start,
        ) {
            return false;
        }
        cursor = end;
        i += 1;
    }
    proof {
        lemma_gap(partitions@, kind, first as int, last as int, merged@, i as int);
        if cursor < last {
            assert(is_leftover(
                partitions@,
                kind,
                view.first(),
                view.last(),
                cursor as int,
                last as int,
            ));
        }
    }
    leftover_droppable(
        buf,
        input_position,
        partitions,
        lfg,
        disc_id,
        disc_num,
        kind,
        cursor,
        last,
    )
}

/// The leftover in front of span `i`, or behind the last one, is the run of sectors up to it, and
/// no other leftover starts between the end of the span before and the end of span `i`.
proof fn lemma_gap(
    partitions: Seq<PartitionInfo>,
    kind: PartitionKind,
    first: int,
    last: int,
    merged: Seq<Span>,
    i: int,
)
    requires
        0 <= i <= merged.len(),
        merged.len() > 0,
        ordered(merged),
        separated(merged),
        proper(merged, first, last),
        forall|x: int|
            first <= x < last ==> #[trigger] in_kind(partitions, kind, x) == any_hits(
                merged,
                x,
                x + 1,
            ),
    ensures
        ({
            let from = if i == 0 {
                first
            } else {
                merged[i - 1].end as int
            };
            let to = if i == merged.len() {
                last
            } else {
                merged[i].start as int
            };
            let next = if i == merged.len() {
                last
            } else {
                merged[i].end as int
            };
            &&& first <= from <= to <= last
            &&& from < to ==> is_leftover(partitions, kind, first, last, from, to)
            &&& forall|a: int, b: int|
                #[trigger] is_leftover(partitions, kind, first, last, a, b) && from <= a < next
                    ==> a == from && b == to
        }),
{
    let from = if i == 0 {
        first
    } else {
        merged[i - 1].end as int
    };
    let to = if i == merged.len() {
        last
    } else {
        merged[i].start as int
    };
    let next = if i == merged.len() {
        last
    } else {
        merged[i].end as int
    };
    assert forall|x: int| from <= x < to implies !#[trigger] in_kind(partitions, kind, x) by {
        if any_hits(merged, x, x + 1) {
            let k = choose|k: int| 0 <= k < merged.len() && hits(#[trigger] merged[k], x, x + 1);
            if k < i - 1 {
                assert(merged[k].end < merged[i - 1].start);
            }
            if k > i {
                assert(merged[i].end < merged[k].start);
            }
        }
    }
    if i > 0 {
        assert(first <= merged[i - 1].start < merged[i - 1].end <= last);
        assert(hits(merged[i - 1], from - 1, from));
        assert(any_hits(merged, from - 1, (from - 1) + 1));
        assert(in_kind(partitions, kind, from - 1));
    }
    if i < merged.len() {
        assert(first <= merged[i].start < merged[i].end <= last);
        assert forall|x: int| to <= x < next implies #[trigger] in_kind(partitions, kind, x) by {
            assert(hits(merged[i], x, x + 1));
        }
        if i > 0 {
            assert(merged[i - 1].end < merged[i].start);
        }
    }
    assert forall|a: int, b: int|
        #[trigger] is_leftover(partitions, kind, first, last, a, b) && from <= a
            < next implies a == from && b == to by {
        assert(!in_kind(partitions, kind, a));
        assert(a < to);
        if a > from {
            assert(!in_kind(partitions, kind, a - 1));
        }
        if b < to {
            assert(!in_kind(partitions, kind, b));
        }
        if b > to {
            assert(in_kind(partitions, kind, to));
        }
    }
}

/// The user data of sector `i` of a block of a hashed partition.
pub open spec fn sector_data(block: Seq<u8>, i: int) -> Seq<u8> {
    block.subrange(i * 0x8000 + 0x400, i * 0x8000 + 0x8000)
}

/// The user data of each whole sector of a block, without the hashes in front of it.
pub fn sector_data_iter(buf: &[u8]) -> (sectors: Vec<&[u8]>)
    ensures
        sectors@.len() == buf@.len() / 0x8000,
        forall|i: int|
            0 <= i < sectors@.len() ==> (#[trigger] sectors@[i])@ == sector_data(buf@, i),
{
    let count: usize = buf.len() / SECTOR_SIZE;
    let mut sectors: Vec<&[u8]> = Vec::new();
    let mut i: usize = 0;
    while i < count
        invariant
            i <= count == buf@.len() / 0x8000,
            buf@.len() <= usize::MAX,
            sectors@.len() == i,
            forall|k: int| 0 <= k < i ==> (#[trigger] sectors@[k])@ == sector_data(buf@, k),
        decreases count - i,
    {
        let at: usize = i * 0x8000;
        let sector: &[u8] = slice_subrange(buf, at + HASHES_SIZE, at + SECTOR_SIZE);
        sectors.push(sector);
        i += 1;
    }
    sectors
}

/// A block in which every sector is decrypted.
pub open spec fn decrypted_block(block: Seq<u8>, key: Seq<u8>) -> Seq<u8> {
    Seq::new(
        block.len(),
        |i: int|
            decrypted_sector(
                block.subrange(i / 0x8000 * 0x8000, i / 0x8000 * 0x8000 + 0x8000),
                key,
            )[i % 0x8000],
    )
}

/// Decrypts the sectors of a block into the front of `out`.
fn decrypt_block(buf: &[u8], out: &mut [u8], key: &[u8; 16])
    requires
        buf@.len() % 0x8000 == 0,
        buf@.len() <= old(out)@.len(),
    ensures
        final(out)@ == decrypted_block(buf@, key@) + old(out)@.skip(buf@.len() as int),
{
    let count: usize = buf.len() / SECTOR_SIZE;
    let mut i: usize = 0;
    let ghost plain = decrypted_block(buf@, key@);
    while i < count
        invariant
            i <= count,
            count * 0x8000 == buf@.len() <= usize::MAX,
            buf@.len() <= out@.len() == old(out)@.len(),
            plain == decrypted_block(buf@, key@),
            forall|k: int| 0 <= k < i * 0x8000 ==> #[trigger] out@[k] == plain[k],
            forall|k: int|
                buf@.len() <= k < out@.len() ==> #[trigger] out@[k] == old(out)@[k],
        decreases count - i,
    {
        let at: usize = i * 0x8000;
        let sector: Vec<u8> = decrypt_sector(slice_subrange(buf, at, at + SECTOR_SIZE), key);
        let mut j: usize = 0;
        while j < SECTOR_SIZE
            invariant
                j <= 0x8000,
                i < count,
                at == i * 0x8000,
                count * 0x8000 == buf@.len() <= usize::MAX,
                buf@.len() <= out@.len() == old(out)@.len(),
                plain == decrypted_block(buf@, key@),
                sector@.len() == 0x8000,
                sector@ == decrypted_sector(buf@.subrange(at as int, at + 0x8000), key@),
                forall|k: int| 0 <= k < at + j ==> #[trigger] out@[k] == plain[k],
                forall|k: int|
                    buf@.len() <= k < out@.len() ==> #[trigger] out@[k] == old(out)@[k],
            decreases 0x8000 - j,
        {
            assert((at + j) as int / 0x8000 == i);
            assert((at + j) as int % 0x8000 == j);
            out[at + j] = sector[j];
            j += 1;
        }
        i += 1;
    }
    assert(out@ =~= plain + old(out)@.skip(buf@.len() as int));
}

/// Whether a block lies in the data area of a hashed partition.
pub open spec fn encloses(partition: PartitionInfo, first: int, last: int) -> bool {
    partition.has_hashes && first >= partition.data_start_sector && last
        < partition.data_end_sector
}

/// The first hashed partition whose data area a block lies in.
pub open spec fn enclosing(partitions: Seq<PartitionInfo>, first: int, last: int) -> Option<int>
    decreases partitions.len(),
{
    if partitions.len() == 0 {
        None
    } else {
        match enclosing(partitions.drop_last(), first, last) {
            Some(i) => Some(i),
            None => if encloses(partitions.last(), first, last) {
                Some(partitions.len() - 1)
            } else {
                None
            },
        }
    }
}

/// The partition that encloses a block is one of the partitions.
pub proof fn lemma_enclosing(partitions: Seq<PartitionInfo>, first: int, last: int)
    ensures
        enclosing(partitions, first, last) matches Some(i) ==> 0 <= i < partitions.len()
            && encloses(partitions[i], first, last),
    decreases partitions.len(),
{
    if partitions.len() > 0 {
        lemma_enclosing(partitions.drop_last(), first, last);
    }
}

/// Finds the hashed partition whose data area a block lies in.
fn find_enclosing(partitions: &[PartitionInfo], first: u32, last: u32) -> (found: Option<usize>)
    ensures
        found matches Some(i) ==> i < partitions@.len() && encloses(
            partitions@[i as int],
            first as int,
            last as int,
        ) && enclosing(partitions@, first as int, last as int) == Some(i as int),
        found is None ==> enclosing(partitions@, first as int, last as int) is None,
{
    let mut i: usize = 0;
    while i < partitions.len()
        invariant
            i <= partitions@.len(),
            enclosing(partitions@.take(i as int), first as int, last as int) is None,
        decreases partitions@.len() - i,
    {
        let p: &PartitionInfo = &partitions[i];
        assert(partitions@.take(i + 1).drop_last() =~= partitions@.take(i as int));
        if p.has_hashes && first >= p.data_start_sector && last < p.data_end_sector {
            proof {
                lemma_enclosing_prefix(partitions@, i + 1, first as int, last as int);
            }
            return Some(i);
        }
        i += 1;
    }
    assert(partitions@.take(i as int) =~= partitions@);
    None
}

/// What encloses a block among the first partitions encloses it among all.
proof fn lemma_enclosing_prefix(partitions: Seq<PartitionInfo>, n: int, first: int, last: int)
    requires
        0 <= n <= partitions.len(),
        enclosing(partitions.take(n), first, last) is Some,
    ensures
        enclosing(partitions, first, last) == enclosing(partitions.take(n), first, last),
    decreases partitions.len(),
{
    if n == partitions.len() {
        assert(partitions.take(n) =~= partitions);
    } else {
        assert(partitions.drop_last().take(n) =~= partitions.take(n));
        lemma_enclosing_prefix(partitions.drop_last(), n, first, last);
    }
}

/// Offset, among the user data of a partition, of the sector that a position lies in.
pub open spec fn data_offset(partition: PartitionInfo, position: int) -> int {
    (position - partition.data_start_sector * 0x8000) / 0x8000 * 0x7C00
}

/// Whether the user data of a block is zeroed.
pub open spec fn data_zeroed(block: Seq<u8>) -> bool {
    forall|i: int| 0 <= i < block.len() / 0x8000 ==> is_zero(#[trigger] sector_data(block, i))
}

/// Whether the user data of a block is the junk data that starts at `offset`.
pub open spec fn data_is_junk(block: Seq<u8>, disc_id: Seq<u8>, disc_num: u8, offset: int) -> bool {
    forall|i: int|
        0 <= i < block.len() / 0x8000 ==> is_junk(
            #[trigger] sector_data(block, i),
            disc_id,
            disc_num,
            offset + i * 0x7C00,
        )
}

/// The type of a decrypted block in a hashed partition: only what lies outside of the used ranges
/// can be dropped. Junk data is seeded from the partition's own disc header.
pub open spec fn partition_result(
    block: Seq<u8>,
    partition: PartitionInfo,
    usage: PartitionUsage,
    position: int,
) -> CheckBlockResult {
    let offset = data_offset(partition, position);
    let count = block.len() / 0x8000;
    if usage.overlaps(offset, offset + count * 0x7C00) {
        CheckBlockResult::Normal
    } else if data_zeroed(block) {
        CheckBlockResult::Zeroed
    } else if data_is_junk(
        block,
        partition.disc_header.id(),
        partition.disc_header.disc_num,
        offset,
    ) {
        CheckBlockResult::Junk
    } else {
        CheckBlockResult::Normal
    }
}

impl BlockView {
    /// The partition that decides about the block, unless scrubbing drops it.
    pub open spec fn partition(&self, partitions: Seq<PartitionInfo>) -> Option<int> {
        enclosing(partitions, self.first(), self.last())
    }

    /// Whether the block is dropped by scrubbing.
    pub open spec fn dropped(
        &self,
        partitions: Seq<PartitionInfo>,
        scrub: Option<PartitionKind>,
    ) -> bool {
        scrub matches Some(kind) && self.scrubbed(partitions, kind)
    }

    /// Why a block in `partition` cannot be judged.
    pub open spec fn partition_error(
        &self,
        partition: PartitionInfo,
        decrypted_len: nat,
    ) -> Option<Error> {
        if self.position % 0x8000 != 0 {
            Some(Error::PartitionBlockUnaligned)
        } else if self.data.len() % 0x8000 != 0 {
            Some(Error::PartitionBlockPartial)
        } else if partition.has_encryption && decrypted_len < self.data.len() {
            Some(Error::DecryptedBlockTooSmall)
        } else {
            None
        }
    }

    /// The block's type, given a buffer of `decrypted_len` bytes to decrypt it in.
    pub open spec fn result(
        &self,
        partitions: Seq<PartitionInfo>,
        usage: Seq<PartitionUsage>,
        scrub: Option<PartitionKind>,
        decrypted_len: nat,
    ) -> Result<CheckBlockResult, Error> {
        if self.dropped(partitions, scrub) {
            Ok(CheckBlockResult::Zeroed)
        } else {
            match self.partition(partitions) {
                Some(i) => match self.partition_error(partitions[i], decrypted_len) {
                    Some(error) => Err(error),
                    None => Ok(
                        partition_result(
                            if partitions[i].has_encryption {
                                decrypted_block(self.data, partitions[i].key@)
                            } else {
                                self.data
                            },
                            partitions[i],
                            usage[i],
                            self.position,
                        ),
                    ),
                },
                None => if is_zero(self.data) {
                    Ok(CheckBlockResult::Zeroed)
                } else if is_junk(self.data, self.disc_id, self.disc_num, self.position) {
                    Ok(CheckBlockResult::Junk)
                } else {
                    Ok(CheckBlockResult::Normal)
                },
            }
        }
    }

    /// The partition whose used ranges decide about the block.
    pub open spec fn asks_usage(
        &self,
        partitions: Seq<PartitionInfo>,
        scrub: Option<PartitionKind>,
        decrypted_len: nat,
    ) -> Option<int> {
        match self.partition(partitions) {
            Some(i) => if !self.dropped(partitions, scrub) && self.partition_error(
                partitions[i],
                decrypted_len,
            ) is None {
                Some(i)
            } else {
                None
            },
            None => None,
        }
    }

    /// Whether the block has to be decrypted to be judged.
    pub open spec fn decrypts(
        &self,
        partitions: Seq<PartitionInfo>,
        scrub: Option<PartitionKind>,
        decrypted_len: nat,
    ) -> bool {
        &&& self.asks_usage(partitions, scrub, decrypted_len) matches Some(i)
        &&& partitions[i].has_encryption
    }
}

/// Whether the user data of a block is zeroed.
fn all_data_zero(block: &[u8]) -> (r: bool)
    ensures
        r == data_zeroed(block@),
{
    let sectors: Vec<&[u8]> = sector_data_iter(block);
    let mut i: usize = 0;
    while i < sectors.len()
        invariant
            i <= sectors@.len() == block@.len() / 0x8000,
            forall|k: int|
                0 <= k < sectors@.len() ==> (#[trigger] sectors@[k])@ == sector_data(block@, k),
            forall|k: int| 0 <= k < i ==> is_zero(#[trigger] sector_data(block@, k)),
        decreases sectors@.len() - i,
    {
        assert(sectors@[i as int]@ == sector_data(block@, i as int));
        if !all_zero(sectors[i]) {
            return false;
        }
        i += 1;
    }
    true
}

/// Whether the user data of a block is the junk data that starts at `offset`.
fn all_data_junk(
    block: &[u8],
    lfg: &mut LaggedFibonacci,
    disc_id: [u8; 4],
    disc_num: u8,
    offset: u64,
) -> (r: bool)
    requires
        offset + block@.len() <= u64::MAX,
    ensures
        r == data_is_junk(block@, disc_id@, disc_num, offset as int),
{
    let sectors: Vec<&[u8]> = sector_data_iter(block);
    let mut i: usize = 0;
    while i < sectors.len()
        invariant
            i <= sectors@.len() == block@.len() / 0x8000,
            offset + block@.len() <= u64::MAX,
            forall|k: int|
                0 <= k < sectors@.len() ==> (#[trigger] sectors@[k])@ == sector_data(block@, k),
            forall|k: int|
                0 <= k < i ==> is_junk(
                    #[trigger] sector_data(block@, k),
                    disc_id@,
                    disc_num,
                    offset + k * 0x7C00,
                ),
        decreases sectors@.len() - i,
    {
        let sector: &[u8] = sectors[i];
        assert(sector@ == sector_data(block@, i as int));
        assert(i * 0x8000 + 0x8000 <= block@.len());
        if !all_junk(sector, lfg, disc_id, disc_num, offset + i as u64 * 0x7C00) {
            return false;
        }
        i += 1;
    }
    true
}

/// Determines the type of a decrypted block in a hashed partition.
fn check_partition_block(
    block: &[u8],
    input_position: u64,
    partition: &PartitionInfo,
    usage: &PartitionUsage,
    lfg: &mut LaggedFibonacci,
) -> (result: CheckBlockResult)
    requires
        input_position + block@.len() <= u64::MAX,
        input_position >= partition.data_start_sector * 0x8000,
    ensures
        result == partition_result(block@, *partition, *usage, input_position as int),
{
    let partition_start: u64 = partition.data_start_sector as u64 * 0x8000;
    let partition_offset: u64 = (input_position - partition_start) / SECTOR_SIZE as u64 * 0x7C00;
    let num_sectors: u64 = block.len() as u64 / SECTOR_SIZE as u64;
    let block_end: u64 = partition_offset + num_sectors * 0x7C00;

    // Only blocks outside of the used ranges are dropped, regardless of content.
    if usage.overlaps_used(partition_offset, block_end) {
        return CheckBlockResult::Normal;
    }
    if all_data_zero(block) {
        return CheckBlockResult::Zeroed;
    }
    // Junk data within a partition is seeded from the partition's own disc header, which is also
    // what junk regeneration uses at read time. It usually matches the outer disc header, but
    // nothing guarantees that.
    let header: &DiscHeader = &partition.disc_header;
    if all_data_junk(block, lfg, header.junk_id(), header.disc_num, partition_offset) {
        return CheckBlockResult::Junk;
    }
    CheckBlockResult::Normal
}

/// Checks whether a block is zeroed, junk data, or safe to drop because it belongs to a partition
/// that is being scrubbed.
///
/// `decrypted_block` is the buffer that a block of an encrypted partition is decrypted in.
pub fn check_block(
    buf: &[u8],
    decrypted_block: &mut [u8],
    input_position: u64,
    partition_info: &[PartitionInfo],
    partition_usage: &[PartitionUsage],
    lfg: &mut LaggedFibonacci,
    disc_id: [u8; 4],
    disc_num: u8,
    scrub_partition_kind: Option<PartitionKind>,
) -> (result: Result<CheckBlockResult, Error>)
    requires
        input_position + buf@.len() <= u64::MAX,
        ({
            let view = BlockView {
                data: buf@,
                position: input_position as int,
                disc_id: disc_id@,
                disc_num,
            };
            &&& scrub_partition_kind matches Some(kind) ==> view.leftovers_inside(
                partition_info@,
                kind,
            )
            &&& view.asks_usage(
                partition_info@,
                scrub_partition_kind,
                old(decrypted_block)@.len(),
            ) matches Some(i) ==> i < partition_usage@.len()
        }),
    ensures
        ({
            let view = BlockView {
                data: buf@,
                position: input_position as int,
                disc_id: disc_id@,
                disc_num,
            };
            let len = old(decrypted_block)@.len();
            &&& result == view.result(
                partition_info@,
                partition_usage@,
                scrub_partition_kind,
                len,
            )
            &&& final(decrypted_block)@ == if view.decrypts(
                partition_info@,
                scrub_partition_kind,
                len,
            ) {
                self::decrypted_block(
                    buf@,
                    partition_info@[view.partition(partition_info@).unwrap()].key@,
                ) + old(decrypted_block)@.skip(buf@.len() as int)
            } else {
                old(decrypted_block)@
            }
        }),
{
    let start_sector: u32 = sector_number(input_position);
    let end_sector: u32 = sector_number(input_position + buf.len() as u64);

    if let Some(kind) = scrub_partition_kind {
        if scrub_block(buf, input_position, partition_info, lfg, disc_id, disc_num, kind) {
            return Ok(CheckBlockResult::Zeroed);
        }
    }

    match find_enclosing(partition_info, start_sector, end_sector) {
        Some(partition_idx) => {
            let partition: &PartitionInfo = &partition_info[partition_idx];
            if input_position % SECTOR_SIZE as u64 != 0 {
                return Err(Error::PartitionBlockUnaligned);
            }
            if buf.len() % SECTOR_SIZE != 0 {
                return Err(Error::PartitionBlockPartial);
            }
            if !partition.has_encryption {
                let usage: &PartitionUsage = &partition_usage[partition_idx];
                return Ok(check_partition_block(buf, input_position, partition, usage, lfg));
            }
            if decrypted_block.len() < buf.len() {
                return Err(Error::DecryptedBlockTooSmall);
            }
            decrypt_block(buf, decrypted_block, &partition.key);
            let block: &[u8] = slice_subrange(decrypted_block, 0, buf.len());
            assert(block@ =~= self::decrypted_block(buf@, partition.key@));
            let usage: &PartitionUsage = &partition_usage[partition_idx];
            Ok(check_partition_block(block, input_position, partition, usage, lfg))
        },
        None => {
            if all_zero(buf) {
                return Ok(CheckBlockResult::Zeroed);
            }
            if all_junk(buf, lfg, disc_id, disc_num, input_position) {
                Ok(CheckBlockResult::Junk)
            } else {
                Ok(CheckBlockResult::Normal)
            }
        },
    }
}

/// The user data of a partition that a block holds, from its start to its end.
pub open spec fn data_range(view: BlockView, partition: PartitionInfo) -> (int, int) {
    let offset = data_offset(partition, view.position);
    (offset, offset + view.data.len() / 0x8000 * 0x7C00)
}

/// A block of a hashed partition that holds a part of a file, or of what stands in front of the
/// files, is never dropped unless its partition is scrubbed, whatever the block contains.
pub proof fn law_used_content_is_kept(
    view: BlockView,
    partitions: Seq<PartitionInfo>,
    usage: Seq<PartitionUsage>,
    scrub: Option<PartitionKind>,
    decrypted_len: nat,
    i: int,
)
    requires
        0 <= i < partitions.len(),
        view.partition(partitions) == Some(i),
        usage[i].describes(partitions[i]),
        !view.dropped(partitions, scrub),
        view.partition_error(partitions[i], decrypted_len) is None,
        view.data.len() > 0,
        partitions[i].fst matches Some(nodes) && content_hits(
            partitions[i],
            nodes@,
            data_range(view, partitions[i]).0,
            data_range(view, partitions[i]).1,
        ),
    ensures
        view.result(partitions, usage, scrub, decrypted_len) == Ok::<CheckBlockResult, Error>(
            CheckBlockResult::Normal,
        ),
{
    let (start, end) = data_range(view, partitions[i]);
    assert(start < end);
    assert(any_hits(usage[i].ranges().unwrap(), start, end));
}

/// Nothing is lost with a block that is dropped outside of the hashed partitions, unless it is
/// scrubbed: its data is zeroed, or the junk data of the disc at its position.
pub proof fn law_dropped_block_is_known(
    view: BlockView,
    partitions: Seq<PartitionInfo>,
    usage: Seq<PartitionUsage>,
    scrub: Option<PartitionKind>,
    decrypted_len: nat,
)
    requires
        view.partition(partitions) is None,
        !view.dropped(partitions, scrub),
    ensures
        view.result(partitions, usage, scrub, decrypted_len) is Ok,
        view.result(partitions, usage, scrub, decrypted_len) == Ok::<CheckBlockResult, Error>(
            CheckBlockResult::Zeroed,
        ) ==> is_zero(view.data),
        view.result(partitions, usage, scrub, decrypted_len) == Ok::<CheckBlockResult, Error>(
            CheckBlockResult::Junk,
        ) ==> is_junk(view.data, view.disc_id, view.disc_num, view.position),
{
}

/// Junk data within a hashed partition is seeded from the partition's own disc header, not from
/// that of the disc: a block is junk only if its user data is what is generated from that header.
pub proof fn law_partition_junk_seed(
    view: BlockView,
    partitions: Seq<PartitionInfo>,
    usage: Seq<PartitionUsage>,
    scrub: Option<PartitionKind>,
    decrypted_len: nat,
    i: int,
)
    requires
        view.partition(partitions) == Some(i),
        view.result(partitions, usage, scrub, decrypted_len) == Ok::<CheckBlockResult, Error>(
            CheckBlockResult::Junk,
        ),
    ensures
        data_is_junk(
            if partitions[i].has_encryption {
                decrypted_block(view.data, partitions[i].key@)
            } else {
                view.data
            },
            partitions[i].disc_header.id(),
            partitions[i].disc_header.disc_num,
            data_offset(partitions[i], view.position),
        ),
{
}

/// A block fully inside of scrubbed partitions is dropped outright.
pub proof fn law_scrub_inside(
    view: BlockView,
    partitions: Seq<PartitionInfo>,
    usage: Seq<PartitionUsage>,
    kind: PartitionKind,
    decrypted_len: nat,
)
    requires
        view.first() < view.last(),
        forall|x: int|
            view.first() <= x < view.last() ==> #[trigger] in_kind(partitions, kind, x),
    ensures
        view.result(partitions, usage, Some(kind), decrypted_len) == Ok::<CheckBlockResult, Error>(
            CheckBlockResult::Zeroed,
        ),
{
    assert(in_kind(partitions, kind, view.first()));
    assert forall|a: int, b: int|
        is_leftover(partitions, kind, view.first(), view.last(), a, b) implies #[trigger]
        view.droppable(partitions, kind, a, b) by {
        assert(in_kind(partitions, kind, a));
    }
}

/// Scrubbing never drops a block that holds a part of another partition, outside of the scrubbed
/// ones, or content that is neither zeroed nor junk data.
pub proof fn law_scrub_keeps_leftover(
    view: BlockView,
    partitions: Seq<PartitionInfo>,
    kind: PartitionKind,
    start: int,
    end: int,
)
    requires
        is_leftover(partitions, kind, view.first(), view.last(), start, end),
        touches_other_kind(partitions, kind, start, end) || (!is_zero(view.sectors(start, end))
            && !is_junk(
            view.sectors(start, end),
            view.disc_id,
            view.disc_num,
            view.position + (start - view.first()) * 0x8000,
        )),
    ensures
        !view.dropped(partitions, Some(kind)),
{
    assert(!view.droppable(partitions, kind, start, end));
}

} // verus!
