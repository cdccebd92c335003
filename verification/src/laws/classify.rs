//! What the type of a block says about its bytes.

use vstd::prelude::*;

use crate::check::{
    decrypted_block, in_kind, is_leftover, sector_data, touches_other_kind, BlockView,
    CheckBlockResult,
};
use crate::crypt::aes_128_cbc_decrypted;
use crate::disc::{PartitionInfo, PartitionKind};
use crate::error::Error;
use crate::laws::content::{law_used_ranges, touches_content};
use crate::lfg::{is_junk, junk_byte};
use crate::usage::PartitionUsage;

verus! {

/// The sector that a position lies in; sectors are counted with 32 bits.
pub open spec fn sector_of(position: int) -> int {
    (position / 0x8000) % 0x1_0000_0000
}

/// Whether a block from one sector to another lies in the data area of a hashed partition.
pub open spec fn is_in_data_area(partition: PartitionInfo, view: BlockView) -> bool {
    &&& partition.has_hashes
    &&& sector_of(view.position) >= partition.data_start_sector
    &&& sector_of(view.position + view.data.len()) < partition.data_end_sector
}

/// Whether a sector lies between the start of a partition and the end of its data area.
pub open spec fn is_sector_of(partition: PartitionInfo, sector: int) -> bool {
    partition.start_sector <= sector < partition.data_end_sector
}

/// Whether a sector belongs to a partition of the given kind.
pub open spec fn is_scrubbed(
    partitions: Seq<PartitionInfo>,
    kind: PartitionKind,
    sector: int,
) -> bool {
    exists|i: int|
        0 <= i < partitions.len() && (#[trigger] partitions[i]).kind == kind && is_sector_of(
            partitions[i],
            sector,
        )
}

/// Whether a byte of a block of a hashed partition is user data: the hashes take the first 0x400
/// bytes of each sector.
pub open spec fn is_user_byte(j: int) -> bool {
    j % 0x8000 >= 0x400
}

/// Whether all user data is zero.
pub open spec fn user_bytes_zero(plain: Seq<u8>) -> bool {
    forall|j: int| 0 <= j < plain.len() && is_user_byte(j) ==> #[trigger] plain[j] == 0
}

/// Where a user byte of a block stands among the user data of the partition: each sector holds
/// 0x7C00 bytes of it.
pub open spec fn user_offset(partition: PartitionInfo, view: BlockView, j: int) -> int {
    (view.position / 0x8000 - partition.data_start_sector + j / 0x8000) * 0x7C00 + (j % 0x8000
        - 0x400)
}

/// Whether all user data is junk data that is generated from the disc header of the partition.
pub open spec fn user_bytes_junk(
    plain: Seq<u8>,
    partition: PartitionInfo,
    view: BlockView,
) -> bool {
    let id = partition.disc_header.game_id@.subrange(0, 4);
    let num = partition.disc_header.disc_num;
    forall|j: int|
        0 <= j < plain.len() && is_user_byte(j) ==> #[trigger] plain[j] == junk_byte(
            id,
            num,
            user_offset(partition, view, j),
        )
}

/// The byte at `j` of a block of an encrypted partition, decrypted: the hashes of its sector under
/// a zero initialization vector, and behind them the user data under the one at 0x3D0 in the
/// sector.
pub open spec fn plain_byte(data: Seq<u8>, key: Seq<u8>, j: int) -> u8 {
    let at = j - j % 0x8000;
    (aes_128_cbc_decrypted(key, Seq::new(16, |k: int| 0u8), data.subrange(at, at + 0x400))
        + aes_128_cbc_decrypted(
        key,
        data.subrange(at + 0x3D0, at + 0x3E0),
        data.subrange(at + 0x400, at + 0x8000),
    ))[j % 0x8000]
}

/// Whether `plain` is the block as it reads once it is decrypted, if it is encrypted.
pub open spec fn is_plain(plain: Seq<u8>, data: Seq<u8>, partition: PartitionInfo) -> bool {
    &&& plain.len() == data.len()
    &&& forall|j: int|
        0 <= j < data.len() ==> #[trigger] plain[j] == if partition.has_encryption {
            plain_byte(data, partition.key@, j)
        } else {
            data[j]
        }
}

/// No hashed partition encloses a block that lies in none.
proof fn lemma_no_partition(partitions: Seq<PartitionInfo>, view: BlockView)
    requires
        forall|i: int|
            0 <= i < partitions.len() ==> !is_in_data_area(#[trigger] partitions[i], view),
    ensures
        view.partition(partitions) is None,
    decreases partitions.len(),
{
    if partitions.len() > 0 {
        let rest = partitions.drop_last();
        assert forall|i: int| 0 <= i < rest.len() implies !is_in_data_area(
            #[trigger] rest[i],
            view,
        ) by {
            assert(rest[i] == partitions[i]);
        }
        lemma_no_partition(rest, view);
        assert(partitions.last() == partitions[partitions.len() - 1]);
    }
}

/// The first hashed partition that a block lies in decides about it.
proof fn lemma_first_partition(partitions: Seq<PartitionInfo>, view: BlockView, i: int)
    requires
        0 <= i < partitions.len(),
        is_in_data_area(partitions[i], view),
        forall|k: int| 0 <= k < i ==> !is_in_data_area(#[trigger] partitions[k], view),
    ensures
        view.partition(partitions) == Some(i),
    decreases partitions.len(),
{
    let rest = partitions.drop_last();
    assert(forall|k: int| 0 <= k < rest.len() ==> rest[k] == partitions[k]);
    if i == partitions.len() - 1 {
        assert forall|k: int| 0 <= k < rest.len() implies !is_in_data_area(
            #[trigger] rest[k],
            view,
        ) by {
            assert(rest[k] == partitions[k]);
        }
        lemma_no_partition(rest, view);
    } else {
        assert forall|k: int| 0 <= k < i implies !is_in_data_area(#[trigger] rest[k], view) by {
            assert(rest[k] == partitions[k]);
        }
        lemma_first_partition(rest, view, i);
    }
}

/// Outside of the hashed partitions the type of a block says what its bytes are: zeroed if and only
/// if all bytes are zero, junk if and only if they are not and all are the junk data of the disc
/// at their position, and normal otherwise.
pub proof fn law_block_outside_partitions(
    view: BlockView,
    partitions: Seq<PartitionInfo>,
    usage: Seq<PartitionUsage>,
    decrypted_len: nat,
)
    requires
        forall|i: int|
            0 <= i < partitions.len() ==> !is_in_data_area(#[trigger] partitions[i], view),
    ensures
        ({
            let zero = forall|j: int| 0 <= j < view.data.len() ==> #[trigger] view.data[j] == 0;
            let junk = forall|j: int|
                0 <= j < view.data.len() ==> #[trigger] view.data[j] == junk_byte(
                    view.disc_id,
                    view.disc_num,
                    view.position + j,
                );
            match view.result(partitions, usage, None, decrypted_len) {
                Ok(CheckBlockResult::Zeroed) => zero,
                Ok(CheckBlockResult::Junk) => !zero && junk,
                Ok(CheckBlockResult::Normal) => !zero && !junk,
                Err(_) => false,
            }
        }),
{
    lemma_no_partition(partitions, view);
}

/// The user data of the sectors is what stands behind their hashes.
proof fn lemma_user_data(plain: Seq<u8>, j: int)
    requires
        plain.len() % 0x8000 == 0,
        0 <= j < plain.len(),
        is_user_byte(j),
    ensures
        ({
            let i = j / 0x8000;
            let r = j % 0x8000 - 0x400;
            &&& 0 <= i < plain.len() / 0x8000
            &&& 0 <= r < sector_data(plain, i).len()
            &&& sector_data(plain, i).len() == 0x7C00
            &&& sector_data(plain, i)[r] == plain[j]
        }),
{
}

/// The user data of a sector consists of user bytes.
proof fn lemma_user_bytes(plain: Seq<u8>, i: int, r: int)
    requires
        0 <= i < plain.len() / 0x8000,
        0 <= r < 0x7C00,
    ensures
        ({
            let j = i * 0x8000 + 0x400 + r;
            &&& 0 <= j < plain.len()
            &&& is_user_byte(j)
            &&& j / 0x8000 == i
            &&& j % 0x8000 - 0x400 == r
            &&& sector_data(plain, i).len() == 0x7C00
            &&& sector_data(plain, i)[r] == plain[j]
        }),
{
}

/// Zeroed user data, sector by sector and byte by byte.
pub proof fn lemma_zero_bytes(plain: Seq<u8>)
    requires
        plain.len() % 0x8000 == 0,
    ensures
        crate::check::data_zeroed(plain) == user_bytes_zero(plain),
{
    if crate::check::data_zeroed(plain) {
        assert forall|j: int| 0 <= j < plain.len() && is_user_byte(j) implies #[trigger] plain[j]
            == 0 by {
            lemma_user_data(plain, j);
            assert(crate::check::is_zero(sector_data(plain, j / 0x8000)));
        }
    }
    if user_bytes_zero(plain) {
        assert forall|i: int| 0 <= i < plain.len() / 0x8000 implies crate::check::is_zero(
            #[trigger] sector_data(plain, i),
        ) by {
            assert forall|r: int|
                0 <= r < sector_data(plain, i).len() implies #[trigger] sector_data(plain, i)[r]
                == 0 by {
                lemma_user_bytes(plain, i, r);
            }
        }
    }
}

/// Junk user data, sector by sector and byte by byte.
pub proof fn lemma_junk_bytes(plain: Seq<u8>, partition: PartitionInfo, view: BlockView)
    requires
        plain.len() % 0x8000 == 0,
        view.position % 0x8000 == 0,
    ensures
        crate::check::data_is_junk(
            plain,
            partition.disc_header.id(),
            partition.disc_header.disc_num,
            crate::check::data_offset(partition, view.position),
        ) == user_bytes_junk(plain, partition, view),
{
    let id = partition.disc_header.id();
    let num = partition.disc_header.disc_num;
    let offset = crate::check::data_offset(partition, view.position);
    assert(offset == (view.position / 0x8000 - partition.data_start_sector) * 0x7C00);
    if crate::check::data_is_junk(plain, id, num, offset) {
        assert forall|j: int| 0 <= j < plain.len() && is_user_byte(j) implies #[trigger] plain[j]
            == junk_byte(id, num, user_offset(partition, view, j)) by {
            lemma_user_data(plain, j);
            let i = j / 0x8000;
            let r = j % 0x8000 - 0x400;
            assert(is_junk(sector_data(plain, i), id, num, offset + i * 0x7C00));
            assert(sector_data(plain, i)[r] == junk_byte(id, num, offset + i * 0x7C00 + r));
            assert(offset + i * 0x7C00 + r == user_offset(partition, view, j));
        }
    }
    if user_bytes_junk(plain, partition, view) {
        assert forall|i: int| 0 <= i < plain.len() / 0x8000 implies is_junk(
            #[trigger] sector_data(plain, i),
            id,
            num,
            offset + i * 0x7C00,
        ) by {
            assert forall|r: int|
                0 <= r < sector_data(plain, i).len() implies #[trigger] sector_data(plain, i)[r]
                == junk_byte(id, num, offset + i * 0x7C00 + r) by {
                lemma_user_bytes(plain, i, r);
                let j = i * 0x8000 + 0x400 + r;
                assert(plain[j] == junk_byte(id, num, user_offset(partition, view, j)));
                assert(offset + i * 0x7C00 + r == user_offset(partition, view, j));
            }
        }
    }
}

/// A decrypted block, byte by byte.
pub proof fn law_decrypted_bytes(data: Seq<u8>, key: Seq<u8>, j: int)
    requires
        data.len() % 0x8000 == 0,
        0 <= j < data.len(),
    ensures
        decrypted_block(data, key).len() == data.len(),
        decrypted_block(data, key)[j] == plain_byte(data, key, j),
{
    let at = j - j % 0x8000;
    assert(at == j / 0x8000 * 0x8000);
    let sector = data.subrange(at, at + 0x8000);
    assert(sector.subrange(0, 0x400) =~= data.subrange(at, at + 0x400));
    assert(sector.subrange(0x3D0, 0x3E0) =~= data.subrange(at + 0x3D0, at + 0x3E0));
    assert(sector.subrange(0x400, 0x8000) =~= data.subrange(at + 0x400, at + 0x8000));
}

/// In a hashed partition the type of a block says what its user data is: no block is dropped that
/// reaches into the system area or into a file. Any other is zeroed if and only if all user bytes
/// are zero, junk if and only if they are not and all are what is generated from the disc header
/// of the partition, and normal otherwise. A block that is not aligned, not made of whole sectors
/// or too long for the buffer is refused.
pub proof fn law_block_in_partition(
    view: BlockView,
    partitions: Seq<PartitionInfo>,
    usage: Seq<PartitionUsage>,
    decrypted_len: nat,
    i: int,
    plain: Seq<u8>,
)
    requires
        0 <= i < partitions.len(),
        is_in_data_area(partitions[i], view),
        forall|k: int| 0 <= k < i ==> !is_in_data_area(#[trigger] partitions[k], view),
        usage[i].describes(partitions[i]),
        view.data.len() > 0,
        0 <= view.position,
        view.position / 0x8000 < 0x1_0000_0000,
        is_plain(plain, view.data, partitions[i]),
    ensures
        ({
            let result = view.result(partitions, usage, None, decrypted_len);
            let start = (view.position / 0x8000 - partitions[i].data_start_sector) * 0x7C00;
            let end = start + view.data.len() / 0x8000 * 0x7C00;
            let used = match partitions[i].fst {
                Some(nodes) => touches_content(partitions[i], nodes@, start, end),
                None => false,
            };
            let zero = user_bytes_zero(plain);
            let junk = user_bytes_junk(plain, partitions[i], view);
            if view.position % 0x8000 != 0 {
                result matches Err(e) && e == Error::PartitionBlockUnaligned
            } else if view.data.len() % 0x8000 != 0 {
                result matches Err(e) && e == Error::PartitionBlockPartial
            } else if partitions[i].has_encryption && decrypted_len < view.data.len() {
                result matches Err(e) && e == Error::DecryptedBlockTooSmall
            } else {
                match result {
                    Ok(CheckBlockResult::Zeroed) => !used && zero,
                    Ok(CheckBlockResult::Junk) => !used && !zero && junk,
                    Ok(CheckBlockResult::Normal) => used || (!zero && !junk),
                    Err(_) => false,
                }
            }
        }),
{
    lemma_first_partition(partitions, view, i);
    let partition = partitions[i];
    if view.position % 0x8000 == 0 && view.data.len() % 0x8000 == 0 {
        let block = if partition.has_encryption {
            decrypted_block(view.data, partition.key@)
        } else {
            view.data
        };
        assert forall|j: int| 0 <= j < view.data.len() implies plain[j] == block[j] by {
            if partition.has_encryption {
                law_decrypted_bytes(view.data, partition.key@, j);
            }
        }
        assert(plain =~= block);
        lemma_zero_bytes(plain);
        lemma_junk_bytes(plain, partition, view);
        let start = (view.position / 0x8000 - partition.data_start_sector) * 0x7C00;
        let end = start + view.data.len() / 0x8000 * 0x7C00;
        assert(crate::check::data_offset(partition, view.position) == start);
        law_used_ranges(partition, usage[i], start, end);
    }
}

/// A longest run of sectors, around a sector that is not scrubbed, in which none is.
proof fn lemma_run_start(
    partitions: Seq<PartitionInfo>,
    kind: PartitionKind,
    first: int,
    x: int,
) -> (a: int)
    requires
        first <= x,
        !is_scrubbed(partitions, kind, x),
    ensures
        first <= a <= x,
        forall|y: int| a <= y <= x ==> !#[trigger] is_scrubbed(partitions, kind, y),
        a == first || is_scrubbed(partitions, kind, a - 1),
    decreases x - first,
{
    if x == first || is_scrubbed(partitions, kind, x - 1) {
        x
    } else {
        lemma_run_start(partitions, kind, first, x - 1)
    }
}

/// Where a run of sectors that are not scrubbed ends.
proof fn lemma_run_end(
    partitions: Seq<PartitionInfo>,
    kind: PartitionKind,
    last: int,
    x: int,
) -> (b: int)
    requires
        x < last,
        !is_scrubbed(partitions, kind, x),
    ensures
        x < b <= last,
        forall|y: int| x <= y < b ==> !#[trigger] is_scrubbed(partitions, kind, y),
        b == last || is_scrubbed(partitions, kind, b),
    decreases last - x,
{
    if x + 1 == last || is_scrubbed(partitions, kind, x + 1) {
        x + 1
    } else {
        lemma_run_end(partitions, kind, last, x + 1)
    }
}

/// Two ways to say that a sector is scrubbed.
proof fn lemma_scrubbed(partitions: Seq<PartitionInfo>, kind: PartitionKind)
    ensures
        forall|x: int| #[trigger]
            is_scrubbed(partitions, kind, x) == in_kind(partitions, kind, x),
        forall|x: int|
            is_scrubbed(partitions, kind, x) == #[trigger] in_kind(partitions, kind, x),
{
    assert forall|x: int| is_scrubbed(partitions, kind, x) == #[trigger] in_kind(
        partitions,
        kind,
        x,
    ) by {
        if is_scrubbed(partitions, kind, x) {
            let i = choose|i: int|
                0 <= i < partitions.len() && (#[trigger] partitions[i]).kind == kind
                    && is_sector_of(partitions[i], x);
            assert(partitions[i].kind == kind);
        }
        if in_kind(partitions, kind, x) {
            let i = choose|i: int|
                0 <= i < partitions.len() && (#[trigger] partitions[i]).kind == kind
                    && partitions[i].start_sector <= x < partitions[i].data_end_sector;
            assert(is_sector_of(partitions[i], x));
        }
    }
}

/// Whether all bytes of a sector of the block are zero.
pub open spec fn sector_zero(view: BlockView, sector: int) -> bool {
    let at = (sector - sector_of(view.position)) * 0x8000;
    forall|j: int| at <= j < at + 0x8000 ==> #[trigger] view.data[j] == 0
}

/// Whether all bytes of a sector of the block are the junk data of the disc.
pub open spec fn sector_junk(view: BlockView, sector: int) -> bool {
    let at = (sector - sector_of(view.position)) * 0x8000;
    forall|j: int|
        at <= j < at + 0x8000 ==> #[trigger] view.data[j] == junk_byte(
            view.disc_id,
            view.disc_num,
            view.position + j,
        )
}

/// Whether all sectors of the block lie inside its data. Of a block that starts at a sector they
/// do.
pub open spec fn sectors_inside(view: BlockView) -> bool {
    &&& 0 <= view.position
    &&& (sector_of(view.position + view.data.len()) - sector_of(view.position)) * 0x8000
        <= view.data.len()
}

/// A run of sectors is zeroed if each of its sectors is.
proof fn lemma_run_zero(view: BlockView, a: int, b: int)
    requires
        sectors_inside(view),
        sector_of(view.position) <= a < b <= sector_of(view.position + view.data.len()),
    ensures
        crate::check::is_zero(view.sectors(a, b)) == (forall|x: int|
            a <= x < b ==> #[trigger] sector_zero(view, x)),
{
    let s0 = sector_of(view.position);
    let run = view.sectors(a, b);
    let at = (a - s0) * 0x8000;
    assert(run.len() == (b - a) * 0x8000);
    if crate::check::is_zero(run) {
        assert forall|x: int| a <= x < b implies #[trigger] sector_zero(view, x) by {
            assert forall|j: int| (x - s0) * 0x8000 <= j < (x - s0) * 0x8000 + 0x8000 implies
                #[trigger] view.data[j] == 0 by {
                assert(run[j - at] == view.data[j]);
            }
        }
    }
    if forall|x: int| a <= x < b ==> #[trigger] sector_zero(view, x) {
        assert forall|k: int| 0 <= k < run.len() implies #[trigger] run[k] == 0 by {
            let x = a + k / 0x8000;
            assert(sector_zero(view, x));
            assert(run[k] == view.data[at + k]);
        }
    }
}

/// A run of sectors is junk data if each of its sectors is.
proof fn lemma_run_junk(view: BlockView, a: int, b: int)
    requires
        sectors_inside(view),
        sector_of(view.position) <= a < b <= sector_of(view.position + view.data.len()),
    ensures
        is_junk(
            view.sectors(a, b),
            view.disc_id,
            view.disc_num,
            view.position + (a - sector_of(view.position)) * 0x8000,
        ) == (forall|x: int| a <= x < b ==> #[trigger] sector_junk(view, x)),
{
    let s0 = sector_of(view.position);
    let run = view.sectors(a, b);
    let at = (a - s0) * 0x8000;
    let pos = view.position + at;
    assert(run.len() == (b - a) * 0x8000);
    if is_junk(run, view.disc_id, view.disc_num, pos) {
        assert forall|x: int| a <= x < b implies #[trigger] sector_junk(view, x) by {
            assert forall|j: int| (x - s0) * 0x8000 <= j < (x - s0) * 0x8000 + 0x8000 implies
                #[trigger] view.data[j] == junk_byte(
                view.disc_id,
                view.disc_num,
                view.position + j,
            ) by {
                assert(run[j - at] == view.data[j]);
                assert(pos + (j - at) == view.position + j);
            }
        }
    }
    if forall|x: int| a <= x < b ==> #[trigger] sector_junk(view, x) {
        assert forall|k: int| 0 <= k < run.len() implies #[trigger] run[k] == junk_byte(
            view.disc_id,
            view.disc_num,
            pos + k,
        ) by {
            let x = a + k / 0x8000;
            assert(sector_junk(view, x));
            assert(run[k] == view.data[at + k]);
            assert(view.position + (at + k) == pos + k);
        }
    }
}

/// Scrubbing changes the type of a block only to drop it.
pub proof fn law_scrubbing_only_drops(
    view: BlockView,
    partitions: Seq<PartitionInfo>,
    usage: Seq<PartitionUsage>,
    kind: PartitionKind,
    decrypted_len: nat,
)
    ensures
        ({
            let scrubbed = view.result(partitions, usage, Some(kind), decrypted_len);
            ||| scrubbed == view.result(partitions, usage, None, decrypted_len)
            ||| scrubbed == Ok::<CheckBlockResult, Error>(CheckBlockResult::Zeroed)
        }),
{
}

/// A block that is dropped by scrubbing, and would not be without, holds a sector of a scrubbed
/// partition. Each of its other sectors belongs to no partition of another kind, and is zeroed or
/// the junk data of the disc.
pub proof fn law_scrubbing_loses_nothing_else(
    view: BlockView,
    partitions: Seq<PartitionInfo>,
    usage: Seq<PartitionUsage>,
    kind: PartitionKind,
    decrypted_len: nat,
    sector: int,
)
    requires
        sectors_inside(view),
        view.result(partitions, usage, Some(kind), decrypted_len) != view.result(
            partitions,
            usage,
            None,
            decrypted_len,
        ),
        sector_of(view.position) <= sector < sector_of(view.position + view.data.len()),
        !is_scrubbed(partitions, kind, sector),
    ensures
        exists|x: int|
            sector_of(view.position) <= x < sector_of(view.position + view.data.len())
                && #[trigger] is_scrubbed(partitions, kind, x),
        forall|i: int|
            0 <= i < partitions.len() && (#[trigger] partitions[i]).kind != kind
                ==> !is_sector_of(partitions[i], sector),
        sector_zero(view, sector) || sector_junk(view, sector),
{
    let s0 = sector_of(view.position);
    let s1 = sector_of(view.position + view.data.len());
    lemma_scrubbed(partitions, kind);
    assert(view.dropped(partitions, Some(kind)));
    let touched = choose|x: int| view.first() <= x < view.last() && #[trigger] in_kind(
        partitions,
        kind,
        x,
    );
    assert(is_scrubbed(partitions, kind, touched));
    let a = lemma_run_start(partitions, kind, s0, sector);
    let b = lemma_run_end(partitions, kind, s1, sector);
    assert(is_leftover(partitions, kind, s0, s1, a, b)) by {
        assert forall|x: int| a <= x < b implies !#[trigger] in_kind(partitions, kind, x) by {
            assert(!is_scrubbed(partitions, kind, x));
        }
    }
    assert(view.droppable(partitions, kind, a, b));
    lemma_run_zero(view, a, b);
    lemma_run_junk(view, a, b);
    assert forall|i: int|
        0 <= i < partitions.len() && (#[trigger] partitions[i]).kind != kind implies !is_sector_of(
        partitions[i],
        sector,
    ) by {
        if is_sector_of(partitions[i], sector) {
            assert(touches_other_kind(partitions, kind, a, b));
        }
    }
}

/// A block is dropped if it holds a sector of a scrubbed partition, and all its other sectors
/// belong to no partition and are zeroed, or are all junk data of the disc.
pub proof fn law_scrubbing_drops(
    view: BlockView,
    partitions: Seq<PartitionInfo>,
    usage: Seq<PartitionUsage>,
    kind: PartitionKind,
    decrypted_len: nat,
    touched: int,
)
    requires
        sectors_inside(view),
        sector_of(view.position) <= touched < sector_of(view.position + view.data.len()),
        is_scrubbed(partitions, kind, touched),
        forall|i: int|
            0 <= i < partitions.len() ==> (#[trigger] partitions[i]).start_sector
                < partitions[i].data_end_sector,
        forall|i: int, x: int|
            0 <= i < partitions.len() && sector_of(view.position) <= x < sector_of(
                view.position + view.data.len(),
            ) && partitions[i].kind != kind && !is_scrubbed(partitions, kind, x)
                ==> !#[trigger] is_sector_of(partitions[i], x),
        (forall|x: int|
            sector_of(view.position) <= x < sector_of(view.position + view.data.len())
                && !is_scrubbed(partitions, kind, x) ==> #[trigger] sector_zero(view, x)) || (
        forall|x: int|
            sector_of(view.position) <= x < sector_of(view.position + view.data.len())
                && !is_scrubbed(partitions, kind, x) ==> #[trigger] sector_junk(view, x)),
    ensures
        view.result(partitions, usage, Some(kind), decrypted_len) == Ok::<CheckBlockResult, Error>(
            CheckBlockResult::Zeroed,
        ),
{
    let s0 = sector_of(view.position);
    let s1 = sector_of(view.position + view.data.len());
    lemma_scrubbed(partitions, kind);
    assert(in_kind(partitions, kind, touched));
    assert forall|a: int, b: int| is_leftover(partitions, kind, s0, s1, a, b) implies #[trigger]
        view.droppable(partitions, kind, a, b) by {
        assert forall|x: int| a <= x < b implies !#[trigger] is_scrubbed(partitions, kind, x) by {
            assert(!in_kind(partitions, kind, x));
        }
        lemma_run_zero(view, a, b);
        lemma_run_junk(view, a, b);
        if touches_other_kind(partitions, kind, a, b) {
            let i = choose|i: int|
                0 <= i < partitions.len() && (#[trigger] partitions[i]).kind != kind && a
                    < partitions[i].data_end_sector && b > partitions[i].start_sector;
            assert(partitions[i].start_sector < partitions[i].data_end_sector);
            let x = if a > partitions[i].start_sector {
                a
            } else {
                partitions[i].start_sector as int
            };
            assert(!is_scrubbed(partitions, kind, x));
            assert(is_sector_of(partitions[i], x));
        }
    }
}

/// A longest run of sectors outside of the scrubbed partitions keeps a block from being dropped by
/// scrubbing if a sector of it belongs to another partition, or if it holds a byte that is not
/// zero and one that is not junk data.
pub proof fn law_scrubbing_keeps(
    view: BlockView,
    partitions: Seq<PartitionInfo>,
    usage: Seq<PartitionUsage>,
    kind: PartitionKind,
    decrypted_len: nat,
    a: int,
    b: int,
)
    requires
        sectors_inside(view),
        sector_of(view.position) <= a < b <= sector_of(view.position + view.data.len()),
        forall|x: int| a <= x < b ==> !#[trigger] is_scrubbed(partitions, kind, x),
        a == sector_of(view.position) || is_scrubbed(partitions, kind, a - 1),
        b == sector_of(view.position + view.data.len()) || is_scrubbed(partitions, kind, b),
        (exists|i: int, x: int|
            0 <= i < partitions.len() && a <= x < b && partitions[i].kind != kind
                && #[trigger] is_sector_of(partitions[i], x)) || ((exists|x: int|
            a <= x < b && !#[trigger] sector_zero(view, x)) && (exists|x: int|
            a <= x < b && !#[trigger] sector_junk(view, x))),
    ensures
        view.result(partitions, usage, Some(kind), decrypted_len) == view.result(
            partitions,
            usage,
            None,
            decrypted_len,
        ),
{
    let s0 = sector_of(view.position);
    let s1 = sector_of(view.position + view.data.len());
    lemma_scrubbed(partitions, kind);
    lemma_run_zero(view, a, b);
    lemma_run_junk(view, a, b);
    assert(is_leftover(partitions, kind, s0, s1, a, b)) by {
        assert forall|x: int| a <= x < b implies !#[trigger] in_kind(partitions, kind, x) by {
            assert(!is_scrubbed(partitions, kind, x));
        }
    }
    if exists|i: int, x: int|
        0 <= i < partitions.len() && a <= x < b && partitions[i].kind != kind
            && #[trigger] is_sector_of(partitions[i], x) {
        let (i, x) = choose|i: int, x: int|
            0 <= i < partitions.len() && a <= x < b && partitions[i].kind != kind
                && #[trigger] is_sector_of(partitions[i], x);
        assert(partitions[i].kind != kind);
        assert(touches_other_kind(partitions, kind, a, b));
    }
    assert(!view.droppable(partitions, kind, a, b));
    assert(!view.dropped(partitions, Some(kind)));
}

/// Scrubbing leaves a block alone that holds no sector of a scrubbed partition.
pub proof fn law_scrubbing_elsewhere(
    view: BlockView,
    partitions: Seq<PartitionInfo>,
    usage: Seq<PartitionUsage>,
    kind: PartitionKind,
    decrypted_len: nat,
)
    requires
        forall|x: int|
            sector_of(view.position) <= x < sector_of(view.position + view.data.len())
                ==> !#[trigger] is_scrubbed(partitions, kind, x),
    ensures
        view.result(partitions, usage, Some(kind), decrypted_len) == view.result(
            partitions,
            usage,
            None,
            decrypted_len,
        ),
{
    lemma_scrubbed(partitions, kind);
    if view.dropped(partitions, Some(kind)) {
        let x = choose|x: int| view.first() <= x < view.last() && #[trigger] in_kind(
            partitions,
            kind,
            x,
        );
        assert(is_scrubbed(partitions, kind, x));
    }
}

/// The sector data of a block is what stands behind the hashes of each sector.
pub proof fn law_sector_data(block: Seq<u8>, i: int, r: int)
    requires
        0 <= i,
        i * 0x8000 + 0x8000 <= block.len(),
        0 <= r < 0x7C00,
    ensures
        sector_data(block, i).len() == 0x7C00,
        sector_data(block, i)[r] == block[i * 0x8000 + 0x400 + r],
{
}

/// A block is decrypted if and only if it lies in an encrypted partition and can be judged.
pub proof fn law_decryption(
    view: BlockView,
    partitions: Seq<PartitionInfo>,
    decrypted_len: nat,
    i: int,
)
    requires
        0 <= i < partitions.len(),
        is_in_data_area(partitions[i], view),
        forall|k: int| 0 <= k < i ==> !is_in_data_area(#[trigger] partitions[k], view),
    ensures
        view.decrypts(partitions, None, decrypted_len) == (partitions[i].has_encryption
            && view.position % 0x8000 == 0 && view.data.len() % 0x8000 == 0 && view.data.len()
            <= decrypted_len),
{
    lemma_first_partition(partitions, view, i);
}

} // verus!
