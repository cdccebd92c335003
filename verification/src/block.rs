//! Blocks of a disc on their way from the reader to the output.

use bytes::{Bytes, BytesMut};
use vstd::prelude::*;

use crate::buffers::{
    bytes_as_ref, bytes_clone, bytes_mut_freeze, bytes_mut_len, bytes_mut_write, bytes_mut_zeroed,
    bytes_new, bytes_slice, contents, contents_mut,
};
use crate::error::Error;
use crate::image::{div_up, lemma_div_up};

verus! {

/// A processed block.
pub struct BlockResult<T> {
    /// Input block index
    pub block_idx: u32,
    /// Input disc data (before processing)
    pub disc_data: Bytes,
    /// Output block data (after processing), empty for a block that is not stored
    pub block_data: Bytes,
    /// Output metadata
    pub meta: T,
}

/// Whether two processed blocks are the same: the index, the data and the metadata are.
pub open spec fn same_block<T>(a: BlockResult<T>, b: BlockResult<T>) -> bool {
    &&& a.block_idx == b.block_idx
    &&& contents(a.disc_data) == contents(b.disc_data)
    &&& contents(a.block_data) == contents(b.block_data)
    &&& a.meta == b.meta
}

impl<T: Default> Default for BlockResult<T> {
    fn default() -> (r: Self)
        ensures
            r.block_idx == 0,
            contents(r.disc_data) == Seq::<u8>::empty(),
            contents(r.block_data) == Seq::<u8>::empty(),
            T::default.ensures((), r.meta),
    {
        BlockResult {
            block_idx: 0,
            disc_data: bytes_new(),
            block_data: bytes_new(),
            meta: T::default(),
        }
    }
}

/// `data`, padded with zeroes to `len` bytes.
pub open spec fn padded(data: Seq<u8>, len: nat) -> Seq<u8> {
    Seq::new(
        len,
        |i: int|
            if i < data.len() {
                data[i]
            } else {
                0u8
            },
    )
}

/// A block of which a part has been read.
pub struct PartialBlock {
    buf: BytesMut,
    len: usize,
}

/// A block that is being read from the disc.
pub enum ReadBlock {
    /// The block is complete.
    Full {
        /// The block.
        block_data: Bytes,
        /// What was read from the disc, which here is the same.
        disc_data: Bytes,
    },
    /// More has to be read.
    Partial(PartialBlock),
}

/// Whether `r` is the start of a block of `block_size` bytes, given the data at hand.
pub open spec fn starts_reading(
    data: Seq<u8>,
    block_size: int,
    r: Result<ReadBlock, Error>,
) -> bool {
    if data.len() >= block_size {
        &&& r matches Ok(ReadBlock::Full { block_data, disc_data })
        &&& contents(block_data) == data.take(block_size)
        &&& contents(disc_data) == data.take(block_size)
    } else if data.len() == 0 {
        r matches Err(e) && e == Error::UnexpectedEof
    } else {
        &&& r matches Ok(ReadBlock::Partial(partial))
        &&& partial.data() == data
        &&& partial.size() == block_size
    }
}

/// Starts to read a block of `block_size` bytes with the data that the reader has at hand.
///
/// A full block is cheaply sliced from it, and that many bytes are then consumed. Otherwise all of
/// it is consumed and copied to a buffer that takes the rest of the block. If there is no data the
/// disc has ended.
pub fn read_block(initial_block: &Bytes, block_size: usize) -> (r: Result<ReadBlock, Error>)
    requires
        contents(*initial_block).len() > 0 ==> block_size <= isize::MAX,
    ensures
        starts_reading(contents(*initial_block), block_size as int, r),
{
    let initial: &[u8] = bytes_as_ref(initial_block);
    let len: usize = initial.len();
    if len >= block_size {
        // Happy path: we have a full block that we can cheaply slice.
        let data: Bytes = bytes_slice(initial_block, 0, block_size);
        return Ok(ReadBlock::Full { block_data: bytes_clone(&data), disc_data: data });
    }
    if len == 0 {
        return Err(Error::UnexpectedEof);
    }
    // Combine smaller blocks into a new buffer.
    let mut buf: BytesMut = bytes_mut_zeroed(block_size);
    bytes_mut_write(&mut buf, 0, len, initial);
    let partial: PartialBlock = PartialBlock { buf, len };
    assert(partial.data() =~= contents(*initial_block));
    Ok(ReadBlock::Partial(partial))
}

impl PartialBlock {
    #[verifier::type_invariant]
    spec fn inv(&self) -> bool {
        &&& self.len <= contents_mut(self.buf).len() <= isize::MAX
        &&& forall|i: int|
            self.len <= i < contents_mut(self.buf).len() ==> #[trigger] contents_mut(self.buf)[i]
                == 0
    }

    /// What has been read so far.
    pub closed spec fn data(&self) -> Seq<u8> {
        contents_mut(self.buf).take(self.len as int)
    }

    /// The size of the whole block.
    pub closed spec fn size(&self) -> nat {
        contents_mut(self.buf).len()
    }

    /// How many bytes the block still lacks.
    pub fn remaining(&self) -> (r: usize)
        ensures
            r == self.size() - self.data().len(),
    {
        proof {
            use_type_invariant(self);
        }
        bytes_mut_len(&self.buf) - self.len
    }

    /// Takes what has been read next.
    pub fn push(self, read: &[u8]) -> (r: PartialBlock)
        requires
            self.data().len() + read@.len() <= self.size(),
        ensures
            pushed(self, read@, r),
    {
        proof {
            use_type_invariant(&self);
        }
        let ghost before = contents_mut(self.buf);
        let mut buf: BytesMut = self.buf;
        let len: usize = self.len + read.len();
        bytes_mut_write(&mut buf, self.len, len, read);
        let r: PartialBlock = PartialBlock { buf, len };
        assert(r.data() =~= self.data() + read@);
        r
    }

    /// Ends the reading, because the block is complete or the disc has ended.
    ///
    /// The block data is full size, padded with zeroes. The disc data is the actual data read,
    /// without padding.
    pub fn finish(self) -> (r: (Bytes, Bytes))
        ensures
            contents(r.0) == padded(self.data(), self.size()),
            contents(r.1) == self.data(),
    {
        proof {
            use_type_invariant(&self);
        }
        let block_data: Bytes = bytes_mut_freeze(self.buf);
        let disc_data: Bytes = bytes_slice(&block_data, 0, self.len);
        assert(contents(block_data) =~= padded(self.data(), self.size()));
        (block_data, disc_data)
    }
}

/// Whether a reader that has `rest` in front of it can have `data` at hand: the start of it, and
/// nothing only at the end of the disc.
pub open spec fn at_hand(data: Seq<u8>, rest: Seq<u8>) -> bool {
    &&& data.len() <= rest.len()
    &&& data == rest.take(data.len() as int)
    &&& data.len() == 0 ==> rest.len() == 0
}

/// How a block was read.
pub struct BlockRead {
    /// The data that was at hand.
    pub initial: Seq<u8>,
    /// What the reading started with.
    pub first: Result<ReadBlock, Error>,
    /// What was read next, one after the other.
    pub reads: Seq<Seq<u8>>,
    /// The block on its way, before and after each of them.
    pub partials: Seq<PartialBlock>,
    /// The block data that was returned.
    pub block_data: Seq<u8>,
    /// The disc data that was returned.
    pub disc_data: Seq<u8>,
}

impl BlockRead {
    /// Whether a block was read by a reader that has `rest` in front of it: what is read is what
    /// comes next on the disc, until the block is complete or the disc has ended.
    #[verifier::opaque]
    pub open spec fn is_of(self, rest: Seq<u8>, block_size: int) -> bool {
        &&& at_hand(self.initial, rest)
        &&& starts_reading(self.initial, block_size, self.first)
        &&& match self.first {
            Ok(ReadBlock::Full { block_data, disc_data }) => {
                &&& self.block_data == contents(block_data)
                &&& self.disc_data == contents(disc_data)
            },
            Ok(ReadBlock::Partial(partial)) => {
                let last = self.partials.last();
                &&& self.partials.len() == self.reads.len() + 1
                &&& self.partials[0] == partial
                &&& forall|i: int|
                    0 <= i < self.reads.len() ==> pushed(
                        self.partials[i],
                        #[trigger] self.reads[i],
                        self.partials[i + 1],
                    ) && comes_next(self.partials[i].data(), self.reads[i], rest)
                &&& last.data().len() == last.size() || last.data().len() == rest.len()
                &&& self.block_data == padded(last.data(), last.size())
                &&& self.disc_data == last.data()
            },
            Err(_) => false,
        }
    }
}

/// Whether `after` is the partial block with `read` appended, which fits in it.
pub open spec fn pushed(before: PartialBlock, read: Seq<u8>, after: PartialBlock) -> bool {
    &&& before.data().len() + read.len() <= before.size()
    &&& after.data() == before.data() + read
    &&& after.size() == before.size()
}

/// Whether `read` is what follows `data` on the rest of the disc.
pub open spec fn comes_next(data: Seq<u8>, read: Seq<u8>, rest: Seq<u8>) -> bool {
    &&& data.len() + read.len() <= rest.len()
    &&& read == rest.subrange(data.len() as int, (data.len() + read.len()) as int)
}

/// The next part of the disc, of `block_size` bytes or up to its end.
pub open spec fn next_part(rest: Seq<u8>, block_size: int) -> Seq<u8> {
    if rest.len() < block_size {
        rest
    } else {
        rest.take(block_size)
    }
}

/// A partial block is always the start of the rest of the disc.
proof fn lemma_partial(read: BlockRead, rest: Seq<u8>, block_size: int, k: int)
    requires
        block_size > 0,
        read.is_of(rest, block_size),
        read.first matches Ok(ReadBlock::Partial(partial)),
        0 <= k < read.partials.len(),
    ensures
        ({
            let data = read.partials[k].data();
            &&& read.partials[k].size() == block_size
            &&& data.len() <= block_size
            &&& data.len() <= rest.len()
            &&& data == rest.take(data.len() as int)
        }),
    decreases k,
{
    reveal(BlockRead::is_of);
    if k > 0 {
        lemma_partial(read, rest, block_size, k - 1);
        let before = read.partials[k - 1].data();
        let after = read.partials[k].data();
        assert(pushed(read.partials[k - 1], read.reads[k - 1], read.partials[k]));
        assert(after =~= rest.take(after.len() as int));
    }
}

/// A block that is read is the next part of the disc: the disc data is that part, and the block
/// data is padded with zeroes to the size of a block.
pub proof fn law_block_is_next_part(read: BlockRead, rest: Seq<u8>, block_size: int)
    requires
        block_size > 0,
        read.is_of(rest, block_size),
    ensures
        rest.len() > 0,
        read.disc_data == next_part(rest, block_size),
        read.block_data == padded(read.disc_data, block_size as nat),
{
    reveal(BlockRead::is_of);
    match read.first {
        Ok(ReadBlock::Full { .. }) => {
            assert(read.disc_data =~= rest.take(block_size));
            assert(rest.len() == block_size ==> rest.take(block_size) =~= rest);
            assert(read.block_data =~= padded(read.disc_data, block_size as nat));
        },
        _ => {
            lemma_partial(read, rest, block_size, read.partials.len() - 1);
            assert(rest.take(rest.len() as int) =~= rest);
        },
    }
}

/// The disc data of the first `k` blocks, one behind the other.
pub open spec fn joined(reads: Seq<BlockRead>, k: int) -> Seq<u8>
    decreases k,
{
    if k <= 0 {
        seq![]
    } else {
        joined(reads, k - 1) + reads[k - 1].disc_data
    }
}

/// Whether blocks were read one after the other, up to the end of the disc: the reading that
/// starts with `end` fails.
pub open spec fn reads_all(
    disc: Seq<u8>,
    block_size: int,
    reads: Seq<BlockRead>,
    end: Seq<u8>,
    failed: Result<ReadBlock, Error>,
) -> bool {
    &&& forall|i: int|
        0 <= i < reads.len() ==> (#[trigger] reads[i]).is_of(
            disc.skip(joined(reads, i).len() as int),
            block_size,
        )
    &&& at_hand(end, disc.skip(joined(reads, reads.len() as int).len() as int))
    &&& starts_reading(end, block_size, failed)
    &&& failed is Err
}

/// What the first `k` blocks hold.
#[verifier::rlimit(40)]
pub proof fn lemma_joined(
    disc: Seq<u8>,
    block_size: int,
    reads: Seq<BlockRead>,
    end: Seq<u8>,
    failed: Result<ReadBlock, Error>,
    k: int,
)
    requires
        block_size > 0,
        reads_all(disc, block_size, reads, end, failed),
        0 <= k <= reads.len(),
    ensures
        joined(reads, k).len() <= disc.len(),
        joined(reads, k) == disc.take(joined(reads, k).len() as int),
        joined(reads, k).len() == k * block_size || joined(reads, k).len() == disc.len(),
        joined(reads, k).len() <= k * block_size,
        k > 0 ==> (k - 1) * block_size < disc.len(),
    decreases k,
{
    if k > 0 {
        lemma_joined(disc, block_size, reads, end, failed, k - 1);
        let before = joined(reads, k - 1);
        let rest = disc.skip(before.len() as int);
        assert(reads[k - 1].is_of(rest, block_size));
        law_block_is_next_part(reads[k - 1], rest, block_size);
        assert(joined(reads, k) =~= disc.take(joined(reads, k).len() as int));
        assert((k - 1) * block_size + block_size == k * block_size) by (nonlinear_arith);
    } else {
        assert(k * block_size == 0) by (nonlinear_arith)
            requires
                k == 0,
        ;
    }
}

/// Reading block after block splits the disc without loss: the disc data of all blocks, one behind
/// the other, is the disc. There are as many blocks as it takes to cover it, each but the last is
/// complete, and all block data has the size of a block.
#[verifier::rlimit(40)]
pub proof fn law_reading_splits_disc(
    disc: Seq<u8>,
    block_size: int,
    reads: Seq<BlockRead>,
    end: Seq<u8>,
    failed: Result<ReadBlock, Error>,
)
    requires
        block_size > 0,
        reads_all(disc, block_size, reads, end, failed),
    ensures
        joined(reads, reads.len() as int) == disc,
        reads.len() == div_up(disc.len() as int, block_size),
        forall|i: int|
            0 <= i < reads.len() - 1 ==> (#[trigger] reads[i]).disc_data.len() == block_size,
        forall|i: int|
            0 <= i < reads.len() ==> (#[trigger] reads[i]).block_data == padded(
                reads[i].disc_data,
                block_size as nat,
            ),
{
    let n = reads.len() as int;
    lemma_joined(disc, block_size, reads, end, failed, n);
    assert(joined(reads, n).len() == disc.len());
    assert(disc.take(disc.len() as int) =~= disc);
    lemma_div_up(disc.len() as int, block_size);
    let count = div_up(disc.len() as int, block_size);
    assert(n == count) by (nonlinear_arith)
        requires
            block_size > 0,
            0 <= n,
            0 <= count,
            disc.len() <= n * block_size,
            n > 0 ==> (n - 1) * block_size < disc.len(),
            disc.len() <= count * block_size,
            disc.len() > 0 ==> (count - 1) * block_size < disc.len(),
            disc.len() == 0 ==> count == 0,
    ;
    assert forall|i: int| 0 <= i < n implies (#[trigger] reads[i]).block_data == padded(
        reads[i].disc_data,
        block_size as nat,
    ) && (i < n - 1 ==> reads[i].disc_data.len() == block_size) by {
        let rest = disc.skip(joined(reads, i).len() as int);
        lemma_joined(disc, block_size, reads, end, failed, i);
        law_block_is_next_part(reads[i], rest, block_size);
        if i < n - 1 {
            let after = disc.skip(joined(reads, i + 1).len() as int);
            lemma_joined(disc, block_size, reads, end, failed, i + 1);
            assert(reads[i + 1].is_of(after, block_size));
            law_block_is_next_part(reads[i + 1], after, block_size);
        }
    }
}

} // verus!
