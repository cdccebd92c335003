//! Which parts of a partition's data area hold real content.

use vstd::prelude::*;

use crate::disc::{stored_bytes, Node, PartitionInfo};
use crate::spans::{any_hits, hits, merge_spans, ordered, separated, Span};

verus! {

/// The area from the start of the partition to the end of its file system table.
pub open spec fn system_span(partition: PartitionInfo) -> Span {
    let is_wii = partition.disc_header.wii;
    Span {
        start: 0,
        end: (stored_bytes(partition.boot_header.fst_offset, is_wii) + stored_bytes(
            partition.boot_header.fst_size,
            is_wii,
        )) as u64,
    }
}

/// The area that a file occupies.
pub open spec fn file_span(node: Node, is_wii: bool) -> Span {
    let start = stored_bytes(node.offset, is_wii && node.file);
    Span { start, end: (start + node.length) as u64 }
}

/// Whether the query from `start` to `end` hits the system area or one of the files.
pub open spec fn content_hits(
    partition: PartitionInfo,
    nodes: Seq<Node>,
    start: int,
    end: int,
) -> bool {
    ||| hits(system_span(partition), start, end)
    ||| exists|i: int|
        0 <= i < nodes.len() && (#[trigger] nodes[i]).file && hits(
            file_span(nodes[i], partition.disc_header.wii),
            start,
            end,
        )
}

/// The byte ranges within a partition's data area that contain real disc content.
///
/// They are derived from the partition structure and the file system table rather than from the
/// block data, because block data may be zeroed or match the junk fill pattern.
pub struct PartitionUsage {
    ranges: Option<Vec<Span>>,
}

impl PartitionUsage {
    #[verifier::type_invariant]
    spec fn inv(&self) -> bool {
        self.ranges matches Some(ranges) ==> ordered(ranges@) && separated(ranges@)
    }

    /// The used ranges, in ascending order and with gaps between them; `None` if the partition
    /// has no file system table to tell.
    pub closed spec fn ranges(&self) -> Option<Seq<Span>> {
        match self.ranges {
            Some(ranges) => Some(ranges@),
            None => None,
        }
    }

    /// Whether a used range hits the query.
    pub open spec fn overlaps(&self, start: int, end: int) -> bool {
        self.ranges() matches Some(ranges) && any_hits(ranges, start, end)
    }

    /// Whether this describes exactly the content of `partition`.
    pub open spec fn describes(&self, partition: PartitionInfo) -> bool {
        match partition.fst {
            None => self.ranges() is None,
            Some(nodes) => {
                &&& self.ranges() matches Some(ranges)
                &&& ordered(ranges)
                &&& separated(ranges)
                &&& forall|start: int, end: int|
                    start < end ==> #[trigger] any_hits(ranges, start, end) == content_hits(
                        partition,
                        nodes@,
                        start,
                        end,
                    )
            },
        }
    }

    /// Collects the used ranges of a partition.
    pub fn new(partition: &PartitionInfo) -> (usage: Self)
        ensures
            usage.describes(*partition),
    {
        let nodes: &Vec<Node> = match &partition.fst {
            Some(nodes) => nodes,
            None => {
                return PartitionUsage { ranges: None };
            },
        };
        let is_wii: bool = partition.disc_header.is_wii();

        let mut ranges: Vec<Span> = Vec::new();
        // Conservatively protect everything up to the end of the file system table.
        let system_end: u64 = partition.boot_header.fst_offset(is_wii)
            + partition.boot_header.fst_size(is_wii);
        ranges.push(Span { start: 0, end: system_end });

        proof {
            assert(ranges@[0] == system_span(*partition));
            assert forall|start: int, end: int| #[trigger]
                any_hits(ranges@, start, end) == content_hits(
                *partition,
                nodes@.take(0),
                start,
                end,
            ) by {
                if hits(system_span(*partition), start, end) {
                    assert(hits(ranges@[0], start, end));
                }
            }
        }
        let mut i: usize = 0;
        while i < nodes.len()
            invariant
                i <= nodes@.len(),
                is_wii == partition.disc_header.wii,
                ordered(ranges@),
                ranges@.len() > 0,
                forall|start: int, end: int| #[trigger]
                    any_hits(ranges@, start, end) == content_hits(
                        *partition,
                        nodes@.take(i as int),
                        start,
                        end,
                    ),
            decreases nodes@.len() - i,
        {
            let node: Node = nodes[i];
            let ghost before = ranges@;
            if node.is_file() {
                let start: u64 = node.offset(is_wii);
                ranges.push(Span { start, end: start + node.length() as u64 });
            }
            proof {
                lemma_add_node(*partition, nodes@, i as int, before, ranges@);
            }
            i += 1;
        }
        assert(nodes@.take(i as int) =~= nodes@);
        let merged: Vec<Span> = merge_spans(ranges);
        PartitionUsage { ranges: Some(merged) }
    }

    /// Whether the query from `start` to `end` touches used content.
    pub fn overlaps_used(&self, start: u64, end: u64) -> (r: bool)
        ensures
            r == self.overlaps(start as int, end as int),
    {
        proof {
            use_type_invariant(self);
        }
        let ranges: &Vec<Span> = match &self.ranges {
            Some(ranges) => ranges,
            None => {
                return false;
            },
        };
        let idx: usize = first_ending_after(ranges, start);
        idx < ranges.len() && ranges[idx].start < end
    }
}

/// Index of the first range that ends after `start`, found by bisection.
fn first_ending_after(ranges: &Vec<Span>, start: u64) -> (idx: usize)
    requires
        ordered(ranges@),
        separated(ranges@),
    ensures
        idx <= ranges@.len(),
        forall|i: int| 0 <= i < idx ==> (#[trigger] ranges@[i]).end <= start,
        forall|i: int| idx <= i < ranges@.len() ==> (#[trigger] ranges@[i]).end > start,
{
    let mut low: usize = 0;
    let mut high: usize = ranges.len();
    while low < high
        invariant
            low <= high <= ranges@.len(),
            ordered(ranges@),
            separated(ranges@),
            forall|i: int| 0 <= i < low ==> (#[trigger] ranges@[i]).end <= start,
            forall|i: int| high <= i < ranges@.len() ==> (#[trigger] ranges@[i]).end > start,
        decreases high - low,
    {
        let mid: usize = low + (high - low) / 2;
        if ranges[mid].end <= start {
            low = mid + 1;
        } else {
            high = mid;
        }
    }
    low
}

/// One more entry of the file system table adds its span exactly if it is a file.
proof fn lemma_add_node(
    partition: PartitionInfo,
    nodes: Seq<Node>,
    i: int,
    before: Seq<Span>,
    after: Seq<Span>,
)
    requires
        0 <= i < nodes.len(),
        forall|start: int, end: int| #[trigger]
            any_hits(before, start, end) == content_hits(partition, nodes.take(i), start, end),
        after == if nodes[i].file {
            before.push(file_span(nodes[i], partition.disc_header.wii))
        } else {
            before
        },
    ensures
        forall|start: int, end: int| #[trigger]
            any_hits(after, start, end) == content_hits(partition, nodes.take(i + 1), start, end),
{
    let is_wii = partition.disc_header.wii;
    assert forall|start: int, end: int| #[trigger]
        any_hits(after, start, end) == content_hits(
        partition,
        nodes.take(i + 1),
        start,
        end,
    ) by {
        assert(any_hits(before, start, end) == content_hits(partition, nodes.take(i), start, end));
        let new = file_span(nodes[i], is_wii);
        let new_hits = nodes[i].file && hits(new, start, end);
        assert(any_hits(after, start, end) == (any_hits(before, start, end) || new_hits)) by {
            if any_hits(before, start, end) {
                let k = choose|k: int|
                    0 <= k < before.len() && hits(#[trigger] before[k], start, end);
                assert(after[k] == before[k]);
            }
            if new_hits {
                assert(after[before.len() as int] == new);
            }
            if any_hits(after, start, end) {
                let k = choose|k: int|
                    0 <= k < after.len() && hits(#[trigger] after[k], start, end);
                if k < before.len() {
                    assert(before[k] == after[k]);
                }
            }
        }
        assert(content_hits(partition, nodes.take(i + 1), start, end) == (content_hits(
            partition,
            nodes.take(i),
            start,
            end,
        ) || new_hits)) by {
            let a = nodes.take(i);
            let b = nodes.take(i + 1);
            assert forall|k: int| 0 <= k < i implies a[k] == b[k] by {}
            assert(b[i] == nodes[i]);
            if exists|k: int|
                0 <= k < a.len() && (#[trigger] a[k]).file && hits(
                    file_span(a[k], is_wii),
                    start,
                    end,
                ) {
                let k = choose|k: int|
                    0 <= k < a.len() && (#[trigger] a[k]).file && hits(
                        file_span(a[k], is_wii),
                        start,
                        end,
                    );
                assert(b[k].file && hits(file_span(b[k], is_wii), start, end));
            }
            if exists|k: int|
                0 <= k < b.len() && (#[trigger] b[k]).file && hits(
                    file_span(b[k], is_wii),
                    start,
                    end,
                ) {
                let k = choose|k: int|
                    0 <= k < b.len() && (#[trigger] b[k]).file && hits(
                        file_span(b[k], is_wii),
                        start,
                        end,
                    );
                if k < i {
                    assert(a[k].file && hits(file_span(a[k], is_wii), start, end));
                }
            }
        }
    }
}

} // verus!
