//! What a removal of partitions does to the bytes of a disc.

use vstd::prelude::*;

use crate::disc::PartitionKind;
use crate::endian::{be_u32_seq, law_be_u32_round_trip};
use crate::removal::{
    disc_edits, edited, edited_byte, first_of_kind, group_count, group_edits, group_entries,
    group_entry_off, group_table, lemma_edited_concat, lemma_first_of_kind_bound,
    lemma_group_edits_place, lemma_not_covered, lemma_only_own_group, lemma_own_edits,
    removal_edits, tables_apart,
};

verus! {

/// The number in the four bytes from `at` on, its highest byte first.
pub open spec fn number(bytes: Seq<u8>, at: int) -> int {
    bytes[at] * 16777216 + bytes[at + 1] * 65536 + bytes[at + 2] * 256 + bytes[at + 3]
}

/// How many partitions group `g` of a disc lists.
pub open spec fn listed(disc: Seq<u8>, g: int) -> int {
    number(disc, 0x40000 + 8 * g)
}

/// Where the list of group `g` of a disc starts.
pub open spec fn list_start(disc: Seq<u8>, g: int) -> int {
    4 * number(disc, 0x40004 + 8 * g)
}

/// Where the list of group `g` of a disc ends.
pub open spec fn list_end(disc: Seq<u8>, g: int) -> int {
    list_start(disc, g) + 8 * listed(disc, g)
}

/// Whether a number in a list stands for a kind.
pub open spec fn stands_for(v: int, kind: PartitionKind) -> bool {
    match kind {
        PartitionKind::Data => v == 0,
        PartitionKind::Update => v == 1,
        PartitionKind::Channel => v == 2,
        PartitionKind::Other(w) => v > 2 && v == w,
    }
}

/// Whether partition `i` in the list of group `g` has a kind.
pub open spec fn has_kind(disc: Seq<u8>, g: int, i: int, kind: PartitionKind) -> bool {
    stands_for(number(disc, list_start(disc, g) + 8 * i + 4), kind)
}

/// Whether partition `i` is the first of a kind in the list of group `g`.
pub open spec fn is_first(disc: Seq<u8>, g: int, i: int, kind: PartitionKind) -> bool {
    &&& 0 <= i < listed(disc, g)
    &&& has_kind(disc, g, i, kind)
    &&& forall|j: int| 0 <= j < i ==> !#[trigger] has_kind(disc, g, j, kind)
}

/// Whether the lists lie on the disc, outside the group table, and none overlaps another.
pub open spec fn lists_apart(disc: Seq<u8>) -> bool {
    &&& disc.len() >= 0x40020
    &&& forall|g: int|
        #![trigger list_start(disc, g)]
        0 <= g < 4 && listed(disc, g) > 0 ==> list_end(disc, g) <= disc.len() && (list_end(disc, g)
            <= 0x40000 || list_start(disc, g) >= 0x40020)
    &&& forall|g: int, h: int|
        #![trigger list_start(disc, g), list_start(disc, h)]
        0 <= g < 4 && 0 <= h < 4 && g != h && listed(disc, g) > 0 && listed(disc, h) > 0
            ==> list_end(disc, g) <= list_start(disc, h) || list_end(disc, h) <= list_start(disc, g)
}

/// The group table holds a count and the start of a list, in units of four bytes, for each group.
pub proof fn law_group_table(groups: Seq<u8>, g: int)
    requires
        groups.len() == 32,
        0 <= g < 4,
    ensures
        group_count(groups, g) == number(groups, 8 * g),
        group_entry_off(groups, g) == 4 * number(groups, 8 * g + 4),
{
    let a = groups.subrange(g * 8, g * 8 + 4);
    let b = groups.subrange(g * 8 + 4, g * 8 + 8);
    assert(a[0] == groups[8 * g] && a[1] == groups[8 * g + 1] && a[2] == groups[8 * g + 2] && a[3]
        == groups[8 * g + 3]);
    assert(b[0] == groups[8 * g + 4] && b[1] == groups[8 * g + 5] && b[2] == groups[8 * g + 6]
        && b[3] == groups[8 * g + 7]);
}

/// The tables of a disc as numbers in its bytes.
proof fn lemma_tables(disc: Seq<u8>, g: int)
    requires
        disc.len() >= 0x40020,
        0 <= g < 4,
    ensures
        group_count(group_table(disc), g) == listed(disc, g),
        group_entry_off(group_table(disc), g) == list_start(disc, g),
{
    let groups = group_table(disc);
    law_group_table(groups, g);
    assert forall|k: int| 0 <= k < 32 implies #[trigger] groups[k] == disc[0x40000 + k] by {}
    assert(number(groups, 8 * g) == number(disc, 0x40000 + 8 * g));
    assert(number(groups, 8 * g + 4) == number(disc, 0x40004 + 8 * g));
}

/// Lists that lie apart are tables that lie apart.
proof fn lemma_apart(disc: Seq<u8>)
    requires
        lists_apart(disc),
    ensures
        tables_apart(disc),
{
    lemma_tables(disc, 0);
    lemma_tables(disc, 1);
    lemma_tables(disc, 2);
    lemma_tables(disc, 3);
    let groups = group_table(disc);
    assert forall|g: int|
        #![trigger group_entry_off(groups, g)]
        0 <= g < 4 && group_count(groups, g) > 0 implies {
        let start = group_entry_off(groups, g);
        let end = start + group_count(groups, g) * 8;
        end <= disc.len() && (end <= 0x40000 || start >= 0x40020)
    } by {
        lemma_tables(disc, g);
        assert(list_start(disc, g) == group_entry_off(groups, g));
    }
    assert forall|g: int, h: int|
        #![trigger group_entry_off(groups, g), group_entry_off(groups, h)]
        0 <= g < 4 && 0 <= h < 4 && g != h && group_count(groups, g) > 0 && group_count(groups, h)
            > 0 implies {
        let end_g = group_entry_off(groups, g) + group_count(groups, g) * 8;
        let end_h = group_entry_off(groups, h) + group_count(groups, h) * 8;
        end_g <= group_entry_off(groups, h) || end_h <= group_entry_off(groups, g)
    } by {
        lemma_tables(disc, g);
        lemma_tables(disc, h);
        assert(list_start(disc, g) == group_entry_off(groups, g));
        assert(list_start(disc, h) == group_entry_off(groups, h));
    }
}

/// The kind of a listed partition is a number in the bytes of the disc.
proof fn lemma_kind(disc: Seq<u8>, g: int, i: int, kind: PartitionKind)
    requires
        lists_apart(disc),
        0 <= g < 4,
        0 <= i < listed(disc, g),
    ensures
        (crate::removal::entry_kind(group_entries(disc, g), i) == kind) == has_kind(
            disc,
            g,
            i,
            kind,
        ),
{
    lemma_tables(disc, g);
    let start = list_start(disc, g);
    let entries = group_entries(disc, g);
    assert(list_end(disc, g) <= disc.len());
    assert(entries.len() == 8 * listed(disc, g));
    let b = entries.subrange(i * 8 + 4, i * 8 + 8);
    assert forall|k: int| 0 <= k < 4 implies #[trigger] b[k] == disc[start + 8 * i + 4 + k] by {}
    assert(b[0] == disc[start + 8 * i + 4]);
    assert(b[1] == disc[start + 8 * i + 4 + 1]);
    assert(b[2] == disc[start + 8 * i + 4 + 2]);
    assert(b[3] == disc[start + 8 * i + 4 + 3]);
}

/// The first partition of a kind in a list.
proof fn lemma_first(disc: Seq<u8>, g: int, kind: PartitionKind)
    requires
        lists_apart(disc),
        0 <= g < 4,
    ensures
        match first_of_kind(group_entries(disc, g), listed(disc, g) as nat, kind) {
            Some(i) => is_first(disc, g, i, kind),
            None => forall|j: int|
                0 <= j < listed(disc, g) ==> !#[trigger] has_kind(disc, g, j, kind),
        },
{
    let entries = group_entries(disc, g);
    lemma_tables(disc, g);
    lemma_first_of_kind_bound(entries, listed(disc, g) as nat, kind);
    match first_of_kind(entries, listed(disc, g) as nat, kind) {
        Some(i) => {
            lemma_kind(disc, g, i, kind);
            assert forall|j: int| 0 <= j < i implies !#[trigger] has_kind(disc, g, j, kind) by {
                lemma_kind(disc, g, j, kind);
            }
        },
        None => {
            assert forall|j: int| 0 <= j < listed(disc, g) implies !#[trigger] has_kind(
                disc,
                g,
                j,
                kind,
            ) by {
                lemma_kind(disc, g, j, kind);
            }
        },
    }
}

/// A group whose list holds a partition of the kind loses the first one. Its count is one less,
/// and what is listed behind the partition moves up by eight bytes. The start of the list, what is
/// listed before the partition and the last slot stay as they are.
pub proof fn law_removed_partition(disc: Seq<u8>, kind: PartitionKind, g: int, i: int)
    requires
        lists_apart(disc),
        0 <= g < 4,
        is_first(disc, g, i, kind),
    ensures
        ({
            let after = edited(disc_edits(disc, kind), disc, 0);
            let start = list_start(disc, g);
            let end = list_end(disc, g);
            &&& listed(after, g) == listed(disc, g) - 1
            &&& list_start(after, g) == start
            &&& forall|p: int| start <= p < start + 8 * i ==> #[trigger] after[p] == disc[p]
            &&& forall|p: int|
                start + 8 * i <= p < end - 8 ==> #[trigger] after[p] == disc[p + 8]
            &&& forall|p: int| end - 8 <= p < end ==> #[trigger] after[p] == disc[p]
        }),
{
    let after = edited(disc_edits(disc, kind), disc, 0);
    let groups = group_table(disc);
    let count = group_count(groups, g);
    let entries = group_entries(disc, g);
    let start = list_start(disc, g);
    let end = list_end(disc, g);
    lemma_apart(disc);
    lemma_tables(disc, g);
    lemma_first(disc, g, kind);
    assert(has_kind(disc, g, i, kind));
    let found = first_of_kind(entries, count as nat, kind).unwrap();
    assert(found == i);
    assert(end <= disc.len() && (end <= 0x40000 || start >= 0x40020));
    let fresh = be_u32_seq((count - 1) as u32);
    law_be_u32_round_trip((count - 1) as u32);
    assert forall|p: int|
        0x40000 + g * 8 <= p < 0x40000 + g * 8 + 8 || start <= p < end implies #[trigger] after[p]
        == if 0x40000 + g * 8 <= p < 0x40000 + g * 8 + 4 {
        fresh[p - (0x40000 + g * 8)]
    } else if start + i * 8 <= p < end - 8 {
        disc[p + 8]
    } else {
        disc[p]
    } by {
        lemma_only_own_group(disc, kind, g, p, 4);
        lemma_own_edits(g, count, start, entries, kind, p, disc[p]);
    }
    let at = 0x40000 + 8 * g;
    assert(after[at] == fresh[0] && after[at + 1] == fresh[1] && after[at + 2] == fresh[2]
        && after[at + 3] == fresh[3]);
    assert(after[at + 4] == disc[at + 4] && after[at + 5] == disc[at + 5] && after[at + 6]
        == disc[at + 6] && after[at + 7] == disc[at + 7]);
    assert(crate::endian::be_u32(fresh) == count - 1);
}

/// A byte that belongs neither to the count nor to the list of a group that holds a partition of
/// the kind stays as it is.
pub proof fn law_removal_elsewhere(disc: Seq<u8>, kind: PartitionKind, p: int)
    requires
        lists_apart(disc),
        0 <= p < disc.len(),
        forall|g: int, i: int|
            0 <= g < 4 && #[trigger] is_first(disc, g, i, kind) ==> !(0x40000 + 8 * g <= p < 0x40004
                + 8 * g) && !(list_start(disc, g) <= p < list_end(disc, g)),
    ensures
        edited(disc_edits(disc, kind), disc, 0).len() == disc.len(),
        edited(disc_edits(disc, kind), disc, 0)[p] == disc[p],
{
    lemma_elsewhere(disc, kind, p, 4);
}

/// The edits of the first `n` groups leave a byte elsewhere as it is.
proof fn lemma_elsewhere(disc: Seq<u8>, kind: PartitionKind, p: int, n: nat)
    requires
        lists_apart(disc),
        0 <= p < disc.len(),
        n <= 4,
        forall|g: int, i: int|
            0 <= g < 4 && #[trigger] is_first(disc, g, i, kind) ==> !(0x40000 + 8 * g <= p < 0x40004
                + 8 * g) && !(list_start(disc, g) <= p < list_end(disc, g)),
    ensures
        edited_byte(
            removal_edits(
                group_table(disc),
                Seq::new(4, |g: int| group_entries(disc, g)),
                kind,
                n,
            ),
            p,
            disc[p],
        ) == disc[p],
    decreases n,
{
    let groups = group_table(disc);
    let tables = Seq::new(4, |g: int| group_entries(disc, g));
    if n > 0 {
        let h = n - 1;
        lemma_elsewhere(disc, kind, p, (n - 1) as nat);
        lemma_tables(disc, h);
        lemma_first(disc, h, kind);
        let a = removal_edits(groups, tables, kind, (n - 1) as nat);
        let b = group_edits(h, group_count(groups, h), group_entry_off(groups, h), tables[h], kind);
        lemma_edited_concat(a, b, p, disc[p]);
        match first_of_kind(tables[h], listed(disc, h) as nat, kind) {
            Some(i) => {
                assert(is_first(disc, h, i, kind));
                assert(list_end(disc, h) <= disc.len());
                lemma_group_edits_place(
                    h,
                    group_count(groups, h),
                    group_entry_off(groups, h),
                    tables[h],
                    kind,
                    p,
                );
                lemma_not_covered(b, p, disc[p]);
            },
            None => {
                assert(b =~= seq![]);
            },
        }
    }
}

/// The last edit that covers a byte decides what it becomes, and a byte that none covers stays as
/// it is.
pub proof fn law_edited_byte(edits: Seq<(int, Seq<u8>)>, data: Seq<u8>, start: int, j: int, k: int)
    requires
        0 <= j < data.len(),
        -1 <= k < edits.len(),
        k >= 0 ==> edits[k].0 <= start + j < edits[k].0 + edits[k].1.len(),
        forall|i: int|
            k < i < edits.len() ==> !((#[trigger] edits[i]).0 <= start + j < edits[i].0
                + edits[i].1.len()),
    ensures
        edited(edits, data, start).len() == data.len(),
        k >= 0 ==> edited(edits, data, start)[j] == edits[k].1[start + j - edits[k].0],
        k < 0 ==> edited(edits, data, start)[j] == data[j],
{
    lemma_edited_byte(edits, start + j, data[j], k);
}

/// What the last edit that covers a position puts there.
proof fn lemma_edited_byte(edits: Seq<(int, Seq<u8>)>, position: int, byte: u8, k: int)
    requires
        -1 <= k < edits.len(),
        k >= 0 ==> edits[k].0 <= position < edits[k].0 + edits[k].1.len(),
        forall|i: int|
            k < i < edits.len() ==> !((#[trigger] edits[i]).0 <= position < edits[i].0
                + edits[i].1.len()),
    ensures
        edited_byte(edits, position, byte) == if k >= 0 {
            edits[k].1[position - edits[k].0]
        } else {
            byte
        },
    decreases edits.len(),
{
    if edits.len() > 0 {
        let rest = edits.drop_last();
        assert(edits.last() == edits[edits.len() - 1]);
        if k < edits.len() - 1 {
            assert forall|i: int| k < i < rest.len() implies !((#[trigger] rest[i]).0 <= position
                < rest[i].0 + rest[i].1.len()) by {
                assert(rest[i] == edits[i]);
            }
            lemma_edited_byte(rest, position, byte, k);
        }
    }
}

} // verus!
