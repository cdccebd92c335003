//! Removal of a partition from the partition tables of a Wii disc.

use vstd::prelude::*;
use vstd::slice::{slice_subrange, slice_to_vec};

use crate::disc::{partition_kind, PartitionKind, WII_PART_GROUP_OFF};
use crate::endian::{be_u32, be_u32_bytes, be_u32_seq, read_be_u32};

verus! {

/// Number of partition groups in the group table.
pub const WII_PART_GROUPS: usize = 4;

/// Number of partitions in group `g` of a group table.
pub open spec fn group_count(groups: Seq<u8>, g: int) -> u32 {
    be_u32(groups.subrange(g * 8, g * 8 + 4))
}

/// Offset on the disc of the entries of group `g`, which is stored in units of four bytes.
pub open spec fn group_entry_off(groups: Seq<u8>, g: int) -> int {
    be_u32(groups.subrange(g * 8 + 4, g * 8 + 8)) * 4
}

/// Kind of the partition in entry `i`.
pub open spec fn entry_kind(entries: Seq<u8>, i: int) -> PartitionKind {
    partition_kind(be_u32(entries.subrange(i * 8 + 4, i * 8 + 8)))
}

/// Index of the first of the `count` entries that has the given kind.
pub open spec fn first_of_kind(entries: Seq<u8>, count: nat, kind: PartitionKind) -> Option<int>
    decreases count,
{
    if count == 0 {
        None
    } else {
        match first_of_kind(entries, (count - 1) as nat, kind) {
            Some(i) => Some(i),
            None => if entry_kind(entries, count - 1) == kind {
                Some(count - 1)
            } else {
                None
            },
        }
    }
}

/// The edits for one group: one entry less in the group table, and every entry behind the removed
/// one shifted back by one slot.
pub open spec fn group_edits(
    g: int,
    count: u32,
    entry_off: int,
    entries: Seq<u8>,
    kind: PartitionKind,
) -> Seq<(int, Seq<u8>)> {
    match first_of_kind(entries, count as nat, kind) {
        None => seq![],
        Some(i) => {
            let counted = seq![(0x40000 + g * 8, be_u32_seq((count - 1) as u32))];
            if i + 1 < count {
                counted.push(
                    (entry_off + i * 8, entries.subrange((i + 1) * 8, count * 8)),
                )
            } else {
                counted
            }
        },
    }
}

/// The edits for the first `n` groups.
pub open spec fn removal_edits(
    groups: Seq<u8>,
    entries: Seq<Seq<u8>>,
    kind: PartitionKind,
    n: nat,
) -> Seq<(int, Seq<u8>)>
    decreases n,
{
    if n == 0 {
        seq![]
    } else {
        removal_edits(groups, entries, kind, (n - 1) as nat) + group_edits(
            n - 1,
            group_count(groups, n - 1),
            group_entry_off(groups, n - 1),
            entries[n - 1],
            kind,
        )
    }
}

/// Whether an edit covers a position on the disc.
pub open spec fn covers(edit: (int, Seq<u8>), position: int) -> bool {
    edit.0 <= position < edit.0 + edit.1.len()
}

/// The byte at a position after the edits, of which a later one prevails.
pub open spec fn edited_byte(edits: Seq<(int, Seq<u8>)>, position: int, byte: u8) -> u8
    decreases edits.len(),
{
    if edits.len() == 0 {
        byte
    } else if covers(edits.last(), position) {
        edits.last().1[position - edits.last().0]
    } else {
        edited_byte(edits.drop_last(), position, byte)
    }
}

/// The bytes from `start` on after the edits.
pub open spec fn edited(edits: Seq<(int, Seq<u8>)>, data: Seq<u8>, start: int) -> Seq<u8> {
    Seq::new(data.len(), |i: int| edited_byte(edits, start + i, data[i]))
}

/// Bytes to be put in the place of others.
struct Edit {
    offset: u64,
    data: Vec<u8>,
}

/// The edits that take partitions of a kind out of the partition tables.
///
/// Used when scrubbing a partition, so the output doesn't claim to still have a real partition
/// where the data has been discarded.
pub struct PartitionRemoval {
    edits: Vec<Edit>,
}

/// The edits as offsets with the bytes to be put there.
spec fn edits_view(edits: Seq<Edit>) -> Seq<(int, Seq<u8>)> {
    Seq::new(edits.len(), |i: int| (edits[i].offset as int, edits[i].data@))
}

/// Whether no edit reaches beyond what a 64-bit position can address.
spec fn addressable(edits: Seq<Edit>) -> bool {
    forall|i: int|
        0 <= i < edits.len() ==> (#[trigger] edits[i]).offset + edits[i].data@.len() <= u64::MAX
}

impl View for PartitionRemoval {
    type V = Seq<(int, Seq<u8>)>;

    closed spec fn view(&self) -> Seq<(int, Seq<u8>)> {
        edits_view(self.edits@)
    }
}

impl PartitionRemoval {
    #[verifier::type_invariant]
    spec fn inv(&self) -> bool {
        addressable(self.edits@)
    }

    /// Where the entries of each group are to be read from: the offset on the disc, and the
    /// number of bytes, which is zero for an empty group.
    pub fn entry_reads(groups: &[u8]) -> (reads: Vec<(u64, u64)>)
        requires
            groups@.len() == 32,
        ensures
            reads@.len() == 4,
            forall|g: int|
                0 <= g < 4 ==> (#[trigger] reads@[g]).0 == group_entry_off(groups@, g)
                    && reads@[g].1 == group_count(groups@, g) * 8,
    {
        let mut reads: Vec<(u64, u64)> = Vec::new();
        let mut g: usize = 0;
        while g < WII_PART_GROUPS
            invariant
                g <= 4,
                groups@.len() == 32,
                reads@.len() == g,
                forall|k: int|
                    0 <= k < g ==> (#[trigger] reads@[k]).0 == group_entry_off(groups@, k)
                        && reads@[k].1 == group_count(groups@, k) * 8,
            decreases 4 - g,
        {
            let count: u32 = read_be_u32(slice_subrange(groups, g * 8, g * 8 + 4));
            let off: u32 = read_be_u32(slice_subrange(groups, g * 8 + 4, g * 8 + 8));
            reads.push((off as u64 * 4, count as u64 * 8));
            g += 1;
        }
        reads
    }

    /// Removes the first partition of the given kind from each group.
    ///
    /// `groups` is the group table of the disc, `entries` the entries of each group. There is
    /// nothing to remove on a disc that is no Wii disc, or if no group holds such a partition.
    pub fn new(
        is_wii: bool,
        groups: &[u8],
        entries: &[Vec<u8>],
        kind: PartitionKind,
    ) -> (removal: Option<Self>)
        requires
            is_wii ==> groups@.len() == 32,
            is_wii ==> entries@.len() == 4,
            is_wii ==> forall|g: int|
                0 <= g < 4 ==> (#[trigger] entries@[g])@.len() == group_count(groups@, g) * 8,
        ensures
            ({
                let edits = removal_edits(
                    groups@,
                    entries@.map_values(|e: Vec<u8>| e@),
                    kind,
                    4,
                );
                match removal {
                    Some(r) => is_wii && edits.len() > 0 && r@ == edits,
                    None => !is_wii || edits.len() == 0,
                }
            }),
    {
        if !is_wii {
            return None;
        }
        let ghost tables = entries@.map_values(|e: Vec<u8>| e@);
        let mut edits: Vec<Edit> = Vec::new();
        let mut g: usize = 0;
        while g < WII_PART_GROUPS
            invariant
                g <= 4,
                groups@.len() == 32,
                entries@.len() == 4,
                tables == entries@.map_values(|e: Vec<u8>| e@),
                forall|k: int|
                    0 <= k < 4 ==> (#[trigger] entries@[k])@.len() == group_count(groups@, k) * 8,
                addressable(edits@),
                edits_view(edits@) == removal_edits(groups@, tables, kind, g as nat),
            decreases 4 - g,
        {
            let count: u32 = read_be_u32(slice_subrange(groups, g * 8, g * 8 + 4));
            let off: u32 = read_be_u32(slice_subrange(groups, g * 8 + 4, g * 8 + 8));
            let ghost before = edits@;
            assert(tables[g as int] == entries@[g as int]@);
            push_group_edits(&mut edits, g, count, off, &entries[g], kind);
            g += 1;
        }
        assert(edits_view(edits@).len() == edits@.len());
        if edits.len() == 0 {
            None
        } else {
            Some(PartitionRemoval { edits })
        }
    }

    /// Whether an edit changes a block on the disc.
    pub fn overlaps(&self, block_start: u64, block_len: u64) -> (r: bool)
        requires
            block_start + block_len <= u64::MAX,
        ensures
            r == exists|i: int|
                0 <= i < self@.len() && (#[trigger] self@[i]).0 < block_start + block_len
                    && self@[i].0 + self@[i].1.len() > block_start,
    {
        proof {
            use_type_invariant(self);
        }
        let block_end: u64 = block_start + block_len;
        let mut i: usize = 0;
        while i < self.edits.len()
            invariant
                i <= self.edits@.len(),
                addressable(self.edits@),
                block_end == block_start + block_len,
                forall|k: int|
                    0 <= k < i ==> !((#[trigger] self@[k]).0 < block_end && self@[k].0
                        + self@[k].1.len() > block_start),
            decreases self.edits@.len() - i,
        {
            let edit: &Edit = &self.edits[i];
            assert(self@[i as int] == (edit.offset as int, edit.data@));
            if edit.offset < block_end && edit.offset + edit.data.len() as u64 > block_start {
                return true;
            }
            i += 1;
        }
        false
    }

    /// Applies the edits to a block that starts at `block_start` on the disc.
    pub fn apply(&self, block: &mut [u8], block_start: u64)
        requires
            block_start + old(block)@.len() <= u64::MAX,
        ensures
            final(block)@ == edited(self@, old(block)@, block_start as int),
    {
        proof {
            use_type_invariant(self);
        }
        let len: usize = block.len();
        let block_end: u64 = block_start + len as u64;
        let ghost unedited = block@;
        let mut i: usize = 0;
        assert(block@ =~= edited(self@.take(0), unedited, block_start as int));
        while i < self.edits.len()
            invariant
                i <= self.edits@.len(),
                addressable(self.edits@),
                len == block@.len() == unedited.len(),
                block_end == block_start + len,
                block@ == edited(self@.take(i as int), unedited, block_start as int),
            decreases self.edits@.len() - i,
        {
            let edit: &Edit = &self.edits[i];
            let ghost view = (edit.offset as int, edit.data@);
            assert(self@[i as int] == view);
            assert(self@.take(i + 1).drop_last() =~= self@.take(i as int));
            let ghost before = block@;
            let edit_end: u64 = edit.offset + edit.data.len() as u64;
            if edit.offset >= block_end || edit_end <= block_start {
                i += 1;
                assert(block@ =~= edited(self@.take(i as int), unedited, block_start as int));
                continue ;
            }
            let overlap_start: u64 = if edit.offset > block_start {
                edit.offset
            } else {
                block_start
            };
            let overlap_end: u64 = if edit_end < block_end {
                edit_end
            } else {
                block_end
            };
            let src: usize = (overlap_start - edit.offset) as usize;
            let dst: usize = (overlap_start - block_start) as usize;
            let count: usize = (overlap_end - overlap_start) as usize;
            let mut k: usize = 0;
            while k < count
                invariant
                    k <= count,
                    len == block@.len() == before.len(),
                    src + count <= edit.data.len(),
                    dst + count <= len,
                    forall|j: int|
                        0 <= j < len ==> #[trigger] block@[j] == if dst <= j < dst + k {
                            edit.data@[src + (j - dst)]
                        } else {
                            before[j]
                        },
                decreases count - k,
            {
                block[dst + k] = edit.data[src + k];
                k += 1;
            }
            i += 1;
            assert(block@ =~= edited(self@.take(i as int), unedited, block_start as int));
        }
        assert(self@.take(i as int) =~= self@);
    }
}

/// Appends the edits for one group.
fn push_group_edits(
    edits: &mut Vec<Edit>,
    g: usize,
    count: u32,
    off: u32,
    entries: &Vec<u8>,
    kind: PartitionKind,
)
    requires
        g < 4,
        entries@.len() == count * 8,
        addressable(old(edits)@),
    ensures
        addressable(final(edits)@),
        edits_view(final(edits)@) == edits_view(old(edits)@) + group_edits(
            g as int,
            count,
            off * 4,
            entries@,
            kind,
        ),
{
    let mut i: usize = 0;
    let n: usize = entries.len() / 8;
    while i < n
        invariant
            i <= n,
            n == count,
            entries@.len() == count * 8,
            entries@.len() <= usize::MAX,
            first_of_kind(entries@, i as nat, kind) is None,
        ensures
            i <= n,
            i < n ==> first_of_kind(entries@, (i + 1) as nat, kind) == Some(i as int),
            i == n ==> first_of_kind(entries@, n as nat, kind) is None,
        decreases n - i,
    {
        let found: u32 = read_be_u32(slice_subrange(entries.as_slice(), i * 8 + 4, i * 8 + 8));
        if PartitionKind::from(found) == kind {
            break;
        }
        i += 1;
    }
    if i == n {
        assert(edits_view(edits@) =~= edits_view(edits@) + Seq::<(int, Seq<u8>)>::empty());
        return;
    }
    proof {
        lemma_first_of_kind_prefix(entries@, (i + 1) as nat, count as nat, kind);
    }
    let ghost before = edits@;
    let counted: Vec<u8> = slice_to_vec(be_u32_bytes(count - 1).as_slice());
    edits.push(Edit { offset: WII_PART_GROUP_OFF + g as u64 * 8, data: counted });
    // Shift every entry after the removed one back by one slot.
    if i + 1 < n {
        let remaining: Vec<u8> = slice_to_vec(
            slice_subrange(entries.as_slice(), (i + 1) * 8, entries.len()),
        );
        edits.push(Edit { offset: off as u64 * 4 + i as u64 * 8, data: remaining });
    }
    assert(edits_view(edits@) =~= edits_view(before) + group_edits(
        g as int,
        count,
        off * 4,
        entries@,
        kind,
    ));
}

/// The first entry of a kind among some is the first among more.
proof fn lemma_first_of_kind_prefix(entries: Seq<u8>, n: nat, m: nat, kind: PartitionKind)
    requires
        n <= m,
        first_of_kind(entries, n, kind) is Some,
    ensures
        first_of_kind(entries, m, kind) == first_of_kind(entries, n, kind),
    decreases m,
{
    if n < m {
        lemma_first_of_kind_prefix(entries, n, (m - 1) as nat, kind);
    }
}

/// A block that no edit overlaps is left as it is.
pub proof fn law_apply_without_overlap(edits: Seq<(int, Seq<u8>)>, block: Seq<u8>, start: int)
    requires
        !exists|i: int|
            0 <= i < edits.len() && (#[trigger] edits[i]).0 < start + block.len() && edits[i].0
                + edits[i].1.len() > start,
    ensures
        edited(edits, block, start) == block,
{
    assert forall|k: int| 0 <= k < block.len() implies edited_byte(edits, start + k, block[k])
        == block[k] by {
        assert forall|i: int| 0 <= i < edits.len() implies !covers(
            #[trigger] edits[i],
            start + k,
        ) by {}
        lemma_not_covered(edits, start + k, block[k]);
    }
    assert(edited(edits, block, start) =~= block);
}

/// Applying the edits to the disc block by block gives the same as applying them to the whole.
pub proof fn law_apply_blockwise(
    edits: Seq<(int, Seq<u8>)>,
    data: Seq<u8>,
    start: int,
    from: int,
    to: int,
)
    requires
        0 <= from <= to <= data.len(),
    ensures
        edited(edits, data.subrange(from, to), start + from) == edited(
            edits,
            data,
            start,
        ).subrange(from, to),
{
    assert(edited(edits, data.subrange(from, to), start + from) =~= edited(
        edits,
        data,
        start,
    ).subrange(from, to));
}

/// A byte that no edit covers is left as it is.
pub proof fn lemma_not_covered(edits: Seq<(int, Seq<u8>)>, position: int, byte: u8)
    requires
        forall|i: int| 0 <= i < edits.len() ==> !covers(#[trigger] edits[i], position),
    ensures
        edited_byte(edits, position, byte) == byte,
    decreases edits.len(),
{
    if edits.len() > 0 {
        let last = edits[edits.len() - 1];
        assert forall|i: int| 0 <= i < edits.drop_last().len() implies !covers(
            #[trigger] edits.drop_last()[i],
            position,
        ) by {
            assert(edits.drop_last()[i] == edits[i]);
        }
        lemma_not_covered(edits.drop_last(), position, byte);
    }
}

/// Edits can be applied in two steps.
pub proof fn lemma_edited_concat(
    a: Seq<(int, Seq<u8>)>,
    b: Seq<(int, Seq<u8>)>,
    position: int,
    byte: u8,
)
    ensures
        edited_byte(a + b, position, byte) == edited_byte(
            b,
            position,
            edited_byte(a, position, byte),
        ),
    decreases b.len(),
{
    if b.len() == 0 {
        assert(a + b =~= a);
    } else {
        assert((a + b).last() == b.last());
        assert((a + b).drop_last() =~= a + b.drop_last());
        lemma_edited_concat(a, b.drop_last(), position, byte);
    }
}

/// The group table of a disc.
pub open spec fn group_table(disc: Seq<u8>) -> Seq<u8> {
    disc.subrange(0x40000, 0x40020)
}

/// The entries of group `g` of a disc.
pub open spec fn group_entries(disc: Seq<u8>, g: int) -> Seq<u8> {
    let groups = group_table(disc);
    if group_count(groups, g) == 0 {
        seq![]
    } else {
        disc.subrange(
            group_entry_off(groups, g),
            group_entry_off(groups, g) + group_count(groups, g) * 8,
        )
    }
}

/// The bytes of entry `i` of group `g` of a disc.
pub open spec fn disc_entry(disc: Seq<u8>, g: int, i: int) -> Seq<u8> {
    group_entries(disc, g).subrange(i * 8, i * 8 + 8)
}

/// Whether the partition tables of a disc lie on the disc, and none of them overlaps another. Of an
/// empty group it does not matter where its entries would be.
pub open spec fn tables_apart(disc: Seq<u8>) -> bool {
    let groups = group_table(disc);
    &&& disc.len() >= 0x40020
    &&& forall|g: int|
        #![trigger group_entry_off(groups, g)]
        0 <= g < 4 && group_count(groups, g) > 0 ==> {
            let start = group_entry_off(groups, g);
            let end = start + group_count(groups, g) * 8;
            end <= disc.len() && (end <= 0x40000 || start >= 0x40020)
        }
    &&& forall|g: int, h: int|
        #![trigger group_entry_off(groups, g), group_entry_off(groups, h)]
        0 <= g < 4 && 0 <= h < 4 && g != h && group_count(groups, g) > 0 && group_count(groups, h)
            > 0 ==> {
            let end_g = group_entry_off(groups, g) + group_count(groups, g) * 8;
            let end_h = group_entry_off(groups, h) + group_count(groups, h) * 8;
            end_g <= group_entry_off(groups, h) || end_h <= group_entry_off(groups, g)
        }
}

/// The edits that remove the partitions of a kind from a disc.
pub open spec fn disc_edits(disc: Seq<u8>, kind: PartitionKind) -> Seq<(int, Seq<u8>)> {
    removal_edits(
        group_table(disc),
        Seq::new(4, |g: int| group_entries(disc, g)),
        kind,
        4,
    )
}

/// The edits of group `g` change its count and its entries only.
pub proof fn lemma_group_edits_place(
    g: int,
    count: u32,
    entry_off: int,
    entries: Seq<u8>,
    kind: PartitionKind,
    position: int,
)
    requires
        entries.len() == count * 8,
        position < 0x40000 + g * 8 || position >= 0x40000 + g * 8 + 4,
        position < entry_off || position >= entry_off + count * 8,
    ensures
        forall|i: int|
            0 <= i < group_edits(g, count, entry_off, entries, kind).len() ==> !covers(
                #[trigger] group_edits(g, count, entry_off, entries, kind)[i],
                position,
            ),
{
    if first_of_kind(entries, count as nat, kind) is Some {
        lemma_first_of_kind_bound(entries, count as nat, kind);
    }
}

/// The first entry of a kind is one of the entries and has that kind, and none before it has.
pub proof fn lemma_first_of_kind_bound(entries: Seq<u8>, count: nat, kind: PartitionKind)
    ensures
        first_of_kind(entries, count, kind) matches Some(i) ==> 0 <= i < count && entry_kind(
            entries,
            i,
        ) == kind && forall|j: int| 0 <= j < i ==> #[trigger] entry_kind(entries, j) != kind,
        first_of_kind(entries, count, kind) is None ==> forall|j: int|
            0 <= j < count ==> #[trigger] entry_kind(entries, j) != kind,
    decreases count,
{
    if count > 0 {
        lemma_first_of_kind_bound(entries, (count - 1) as nat, kind);
    }
}

/// A byte of the tables of group `g` is changed by the edits of that group only.
pub proof fn lemma_only_own_group(disc: Seq<u8>, kind: PartitionKind, g: int, position: int, n: nat)
    requires
        tables_apart(disc),
        0 <= g < 4,
        n <= 4,
        0x40000 + g * 8 <= position < 0x40000 + g * 8 + 8 || group_entry_off(
            group_table(disc),
            g,
        ) <= position < group_entry_off(group_table(disc), g) + group_count(group_table(disc), g)
            * 8,
        0 <= position < disc.len(),
    ensures
        ({
            let groups = group_table(disc);
            let tables = Seq::new(4, |g: int| group_entries(disc, g));
            edited_byte(removal_edits(groups, tables, kind, n), position, disc[position]) == if n
                <= g {
                disc[position]
            } else {
                edited_byte(
                    group_edits(
                        g,
                        group_count(groups, g),
                        group_entry_off(groups, g),
                        group_entries(disc, g),
                        kind,
                    ),
                    position,
                    disc[position],
                )
            }
        }),
    decreases n,
{
    let groups = group_table(disc);
    let tables = Seq::new(4, |g: int| group_entries(disc, g));
    if n > 0 {
        let h = n - 1;
        lemma_only_own_group(disc, kind, g, position, (n - 1) as nat);
        let a = removal_edits(groups, tables, kind, (n - 1) as nat);
        let b = group_edits(
            h,
            group_count(groups, h),
            group_entry_off(groups, h),
            tables[h],
            kind,
        );
        let byte = disc[position];
        lemma_edited_concat(a, b, position, byte);
        if h != g {
            assert(group_entry_off(groups, g) >= 0 && group_entry_off(groups, h) >= 0);
            assert(tables[h].len() == group_count(groups, h) * 8);
            lemma_group_edits_place(
                h,
                group_count(groups, h),
                group_entry_off(groups, h),
                tables[h],
                kind,
                position,
            );
            lemma_not_covered(b, position, edited_byte(a, position, byte));
        }
    }
}

/// After the edits each group that held a partition of the kind has lost the first one: its count
/// is one less, its entries are where they were, the ones before the removed one are unchanged,
/// and the ones behind it have moved up by one slot. A group without one is unchanged.
pub proof fn law_removal(disc: Seq<u8>, kind: PartitionKind, g: int)
    requires
        tables_apart(disc),
        0 <= g < 4,
    ensures
        ({
            let after = edited(disc_edits(disc, kind), disc, 0);
            let groups = group_table(disc);
            let count = group_count(groups, g);
            &&& after.len() == disc.len()
            &&& group_entry_off(group_table(after), g) == group_entry_off(groups, g)
            &&& match first_of_kind(group_entries(disc, g), count as nat, kind) {
                None => {
                    &&& group_count(group_table(after), g) == count
                    &&& group_entries(after, g) == group_entries(disc, g)
                },
                Some(i) => {
                    &&& group_count(group_table(after), g) == count - 1
                    &&& forall|j: int|
                        0 <= j < count - 1 ==> #[trigger] disc_entry(after, g, j) == disc_entry(
                            disc,
                            g,
                            if j < i {
                                j
                            } else {
                                j + 1
                            },
                        )
                },
            }
        }),
{
    let after = edited(disc_edits(disc, kind), disc, 0);
    let groups = group_table(disc);
    let count = group_count(groups, g);
    let off = group_entry_off(groups, g);
    let entries = group_entries(disc, g);
    let own = group_edits(g, count, off, entries, kind);
    assert(off >= 0 && (count > 0 ==> off + count * 8 <= disc.len()));
    assert forall|p: int|
        0x40000 + g * 8 <= p < 0x40000 + g * 8 + 8 || off <= p < off + count * 8 implies #[trigger]
    after[p] == edited_byte(own, p, disc[p]) by {
        lemma_only_own_group(disc, kind, g, p, 4);
    }
    lemma_first_of_kind_bound(entries, count as nat, kind);
    assert(entries.len() == count * 8);
    let table_after = group_table(after);
    match first_of_kind(entries, count as nat, kind) {
        None => {
            assert forall|p: int| g * 8 <= p < g * 8 + 8 implies #[trigger] table_after[p]
                == groups[p] by {
                assert(after[0x40000 + p] == disc[0x40000 + p]);
            }
            assert(table_after.subrange(g * 8, g * 8 + 4) =~= groups.subrange(g * 8, g * 8 + 4));
            assert(table_after.subrange(g * 8 + 4, g * 8 + 8) =~= groups.subrange(
                g * 8 + 4,
                g * 8 + 8,
            ));
            assert(group_entries(after, g) =~= entries);
        },
        Some(i) => {
            let fresh = be_u32_seq((count - 1) as u32);
            assert forall|p: int| g * 8 <= p < g * 8 + 8 implies #[trigger] table_after[p] == if p
                < g * 8 + 4 {
                fresh[p - g * 8]
            } else {
                groups[p]
            } by {
                assert(after[0x40000 + p] == edited_byte(own, 0x40000 + p, disc[0x40000 + p]));
                lemma_own_edits(g, count, off, entries, kind, 0x40000 + p, disc[0x40000 + p]);
            }
            assert(table_after.subrange(g * 8, g * 8 + 4) =~= fresh);
            crate::endian::law_be_u32_round_trip((count - 1) as u32);
            assert(table_after.subrange(g * 8 + 4, g * 8 + 8) =~= groups.subrange(
                g * 8 + 4,
                g * 8 + 8,
            ));
            assert forall|j: int| 0 <= j < count - 1 implies #[trigger] disc_entry(after, g, j)
                == disc_entry(
                disc,
                g,
                if j < i {
                    j
                } else {
                    j + 1
                },
            ) by {
                let from = if j < i {
                    j
                } else {
                    j + 1
                };
                assert forall|k: int| 0 <= k < 8 implies #[trigger] disc_entry(after, g, j)[k]
                    == disc_entry(disc, g, from)[k] by {
                    let p = off + (j * 8 + k);
                    assert(after[p] == edited_byte(own, p, disc[p]));
                    lemma_own_edits(g, count, off, entries, kind, p, disc[p]);
                }
                assert(disc_entry(after, g, j) =~= disc_entry(disc, g, from));
            }
        },
    }
}

/// What the edits of one group put where, if the group holds a partition of the kind.
pub proof fn lemma_own_edits(
    g: int,
    count: u32,
    off: int,
    entries: Seq<u8>,
    kind: PartitionKind,
    position: int,
    byte: u8,
)
    requires
        0 <= g < 4,
        entries.len() == count * 8,
        count > 0 ==> off + count * 8 <= 0x40000 || off >= 0x40020,
        first_of_kind(entries, count as nat, kind) is Some,
    ensures
        ({
            let i = first_of_kind(entries, count as nat, kind).unwrap();
            edited_byte(
                group_edits(g, count, off, entries, kind),
                position,
                byte,
            ) == if 0x40000 + g * 8 <= position < 0x40000 + g * 8 + 4 {
                be_u32_seq((count - 1) as u32)[position - (0x40000 + g * 8)]
            } else if off + i * 8 <= position < off + (count - 1) * 8 {
                entries[position - off + 8]
            } else {
                byte
            }
        }),
{
    lemma_first_of_kind_bound(entries, count as nat, kind);
    let own = group_edits(g, count, off, entries, kind);
    let i = first_of_kind(entries, count as nat, kind).unwrap();
    let counted = (0x40000 + g * 8, be_u32_seq((count - 1) as u32));
    assert(own[0] == counted);
    if i + 1 < count {
        assert(own.drop_last() =~= seq![counted]);
        assert(own.drop_last().drop_last() =~= seq![]);
    } else {
        assert(own.drop_last() =~= seq![]);
    }
    reveal_with_fuel(edited_byte, 3);
}

/// If no group lists more than one partition of the kind, the edited disc lists none.
pub proof fn law_removal_leaves_none(disc: Seq<u8>, kind: PartitionKind, g: int)
    requires
        tables_apart(disc),
        0 <= g < 4,
        forall|i: int, j: int|
            0 <= i < j < group_count(group_table(disc), g) ==> !(#[trigger] entry_kind(
                group_entries(disc, g),
                i,
            ) == kind && #[trigger] entry_kind(group_entries(disc, g), j) == kind),
    ensures
        ({
            let after = edited(disc_edits(disc, kind), disc, 0);
            forall|j: int|
                0 <= j < group_count(group_table(after), g) ==> #[trigger] entry_kind(
                    group_entries(after, g),
                    j,
                ) != kind
        }),
{
    let after = edited(disc_edits(disc, kind), disc, 0);
    let groups = group_table(disc);
    let count = group_count(groups, g);
    let entries = group_entries(disc, g);
    law_removal(disc, kind, g);
    lemma_first_of_kind_bound(entries, count as nat, kind);
    if let Some(i) = first_of_kind(entries, count as nat, kind) {
        assert forall|j: int| 0 <= j < count - 1 implies #[trigger] entry_kind(
            group_entries(after, g),
            j,
        ) != kind by {
            let from = if j < i {
                j
            } else {
                j + 1
            };
            assert(disc_entry(after, g, j) == disc_entry(disc, g, from));
            assert(group_entries(after, g).subrange(j * 8 + 4, j * 8 + 8) =~= disc_entry(
                after,
                g,
                j,
            ).subrange(4, 8));
            assert(entries.subrange(from * 8 + 4, from * 8 + 8) =~= disc_entry(
                disc,
                g,
                from,
            ).subrange(4, 8));
            assert(entry_kind(entries, from) != kind);
        }
    }
}

} // verus!
