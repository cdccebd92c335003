//! What counts as content of a partition.

use vstd::prelude::*;

use crate::disc::{
    partition_kind, stored_bytes, DiscHeader, Node, PartitionInfo, PartitionKind,
};
use crate::spans::{any_hits, hits, is_merge_of, Span};
use crate::usage::PartitionUsage;

verus! {

/// How many bytes a unit of stored offsets has.
pub open spec fn unit(partition: PartitionInfo) -> int {
    if partition.disc_header.wii {
        4
    } else {
        1
    }
}

/// Where the file system table ends.
pub open spec fn table_end(partition: PartitionInfo) -> int {
    (partition.boot_header.fst_offset + partition.boot_header.fst_size) * unit(partition)
}

/// Whether a position lies in front of the end of the file system table, or in a file.
pub open spec fn is_content(partition: PartitionInfo, nodes: Seq<Node>, position: int) -> bool {
    ||| 0 <= position < table_end(partition)
    ||| exists|k: int|
        0 <= k < nodes.len() && (#[trigger] nodes[k]).file && nodes[k].offset * unit(partition)
            <= position < nodes[k].offset * unit(partition) + nodes[k].length
}

/// Whether what is asked for reaches into what stands in front of the end of the file system
/// table, or into a file. A file without bytes counts if it lies inside.
pub open spec fn touches_content(
    partition: PartitionInfo,
    nodes: Seq<Node>,
    start: int,
    end: int,
) -> bool {
    ||| table_end(partition) > start && end > 0
    ||| exists|k: int|
        0 <= k < nodes.len() && (#[trigger] nodes[k]).file && nodes[k].offset * unit(partition)
            + nodes[k].length > start && nodes[k].offset * unit(partition) < end
}

/// Every query that is not empty is answered by the fields of the partition: it touches used
/// content if it reaches into the system area or into a file, and not otherwise.
pub proof fn law_used_ranges(
    partition: PartitionInfo,
    usage: PartitionUsage,
    start: int,
    end: int,
)
    requires
        usage.describes(partition),
        0 <= start < end,
    ensures
        match partition.fst {
            Some(nodes) => usage.overlaps(start, end) == touches_content(
                partition,
                nodes@,
                start,
                end,
            ),
            None => !usage.overlaps(start, end),
        },
{
    if let Some(nodes) = partition.fst {
        let ranges = usage.ranges().unwrap();
        let wii = partition.disc_header.wii;
        assert(any_hits(ranges, start, end) == usage.overlaps(start, end));
        assert forall|k: int| 0 <= k < nodes@.len() && (#[trigger] nodes@[k]).file implies hits(
            crate::usage::file_span(nodes@[k], wii),
            start,
            end,
        ) == (nodes@[k].offset * unit(partition) + nodes@[k].length > start && nodes@[k].offset
            * unit(partition) < end) by {
            assert(stored_bytes(nodes@[k].offset, wii) == nodes@[k].offset * unit(partition));
        }
        assert(hits(crate::usage::system_span(partition), start, end) == (table_end(partition)
            > start && end > 0));
        if touches_content(partition, nodes@, start, end) {
            if !(table_end(partition) > start && end > 0) {
                let k = choose|k: int|
                    0 <= k < nodes@.len() && (#[trigger] nodes@[k]).file && nodes@[k].offset
                        * unit(partition) + nodes@[k].length > start && nodes@[k].offset * unit(
                        partition,
                    ) < end;
                assert(nodes@[k].file);
                assert(hits(crate::usage::file_span(nodes@[k], wii), start, end));
            }
            assert(crate::usage::content_hits(partition, nodes@, start, end));
        }
    }
}

/// Every byte of the system area and of every file is used, and no other byte is.
pub proof fn law_used_bytes(partition: PartitionInfo, usage: PartitionUsage, position: int)
    requires
        usage.describes(partition),
        position >= 0,
    ensures
        match partition.fst {
            Some(nodes) => usage.overlaps(position, position + 1) == is_content(
                partition,
                nodes@,
                position,
            ),
            None => !usage.overlaps(position, position + 1),
        },
{
    law_used_ranges(partition, usage, position, position + 1);
    if let Some(nodes) = partition.fst {
        if touches_content(partition, nodes@, position, position + 1) && !(table_end(partition)
            > position) {
            let k = choose|k: int|
                0 <= k < nodes@.len() && (#[trigger] nodes@[k]).file && nodes@[k].offset * unit(
                    partition,
                ) + nodes@[k].length > position && nodes@[k].offset * unit(partition) < position
                    + 1;
            assert(nodes@[k].file);
        }
        if is_content(partition, nodes@, position) && !(0 <= position < table_end(partition)) {
            let k = choose|k: int|
                0 <= k < nodes@.len() && (#[trigger] nodes@[k]).file && nodes@[k].offset * unit(
                    partition,
                ) <= position < nodes@[k].offset * unit(partition) + nodes@[k].length;
            assert(nodes@[k].file);
        }
    }
}

/// A larger query touches whatever a smaller one inside of it touches.
pub proof fn law_used_ranges_grow(
    usage: PartitionUsage,
    start: int,
    end: int,
    from: int,
    to: int,
)
    requires
        from <= start,
        end <= to,
        usage.overlaps(start, end),
    ensures
        usage.overlaps(from, to),
{
    let ranges = usage.ranges().unwrap();
    let k = choose|k: int| 0 <= k < ranges.len() && hits(#[trigger] ranges[k], start, end);
    assert(hits(ranges[k], from, to));
}

/// Merged spans cover the same positions, come in ascending order, and leave a gap between any two.
pub proof fn law_merged_positions(merged: Seq<Span>, spans: Seq<Span>, position: int)
    requires
        is_merge_of(merged, spans),
    ensures
        (exists|i: int|
            0 <= i < merged.len() && (#[trigger] merged[i]).start <= position < merged[i].end) == (
        exists|i: int|
            0 <= i < spans.len() && (#[trigger] spans[i]).start <= position < spans[i].end),
        forall|i: int, j: int|
            0 <= i < j < merged.len() ==> (#[trigger] merged[i]).start <= merged[i].end < (
            #[trigger] merged[j]).start,
{
    assert(any_hits(merged, position, position + 1) == any_hits(spans, position, position + 1));
    lemma_any_hits(merged, position);
    lemma_any_hits(spans, position);
    assert forall|i: int, j: int| 0 <= i < j < merged.len() implies (#[trigger] merged[i]).start
        <= merged[i].end < (#[trigger] merged[j]).start by {
        assert(merged[i].end < merged[j].start);
    }
}

/// A query for one position is hit by what contains it.
proof fn lemma_any_hits(spans: Seq<Span>, position: int)
    ensures
        any_hits(spans, position, position + 1) == (exists|i: int|
            0 <= i < spans.len() && (#[trigger] spans[i]).start <= position < spans[i].end),
{
    if any_hits(spans, position, position + 1) {
        let i = choose|i: int|
            0 <= i < spans.len() && hits(#[trigger] spans[i], position, position + 1);
        assert(spans[i].start <= position < spans[i].end);
    }
    if exists|i: int|
        0 <= i < spans.len() && (#[trigger] spans[i]).start <= position < spans[i].end {
        let i = choose|i: int|
            0 <= i < spans.len() && (#[trigger] spans[i]).start <= position < spans[i].end;
        assert(hits(spans[i], position, position + 1));
    }
}

/// Offsets and sizes are stored in bytes on a GameCube disc and in units of four bytes on a Wii
/// disc.
pub proof fn law_stored_units(value: u32)
    ensures
        stored_bytes(value, false) == value,
        stored_bytes(value, true) == 4 * value,
{
}

/// The kinds of partitions are numbered: data, update and channel partitions from zero on, and any
/// other number stands for itself.
pub proof fn law_partition_kinds(v: u32)
    ensures
        partition_kind(v) == PartitionKind::Data <==> v == 0,
        partition_kind(v) == PartitionKind::Update <==> v == 1,
        partition_kind(v) == PartitionKind::Channel <==> v == 2,
        v > 2 ==> partition_kind(v) == PartitionKind::Other(v),
        forall|w: u32| partition_kind(v) == #[trigger] partition_kind(w) ==> v == w,
{
}

/// Junk data is seeded from the first four bytes of the game ID, in their order.
pub proof fn law_header_id(header: DiscHeader)
    ensures
        header.id().len() == 4,
        forall|k: int| 0 <= k < 4 ==> #[trigger] header.id()[k] == header.game_id@[k],
{
}

} // verus!
