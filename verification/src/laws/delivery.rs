//! What becomes of a block that arrives.

use vstd::prelude::*;

use crate::block::BlockResult;
use crate::order::{ascending, lemma_run, OrderView};

verus! {

/// No block is lost and none comes twice: what waited and what arrived is delivered or waits, and
/// nothing else does. This holds of any block, also of one whose turn has passed.
pub proof fn law_no_block_is_lost<T>(
    before: OrderView<T>,
    result: BlockResult<T>,
    after: OrderView<T>,
    delivered: Seq<BlockResult<T>>,
)
    requires
        before.accepts(result, after, delivered),
    ensures
        delivered.len() + after.waiting.len() == before.waiting.len() + 1,
        (delivered + after.waiting).to_multiset() == before.waiting.to_multiset().insert(result),
{
    broadcast use vstd::seq_lib::group_to_multiset_ensures;

    if result.block_idx == before.next {
        let n = crate::order::run_length(before.waiting, before.next + 1) as int;
        lemma_run(before.waiting, before.next + 1);
        assert(delivered + after.waiting =~= before.waiting.insert(0, result)) by {
            assert(before.waiting.take(n) + before.waiting.skip(n) =~= before.waiting);
        }
    } else {
        assert(delivered + after.waiting =~= after.waiting);
    }
}

/// A block is delivered at once if and only if it is its turn. With it come those that follow it
/// without a gap, in order, and the next one is not among those that wait.
pub proof fn law_delivery_at_once<T>(
    before: OrderView<T>,
    result: BlockResult<T>,
    after: OrderView<T>,
    delivered: Seq<BlockResult<T>>,
)
    requires
        before.accepts(result, after, delivered),
        ascending(before.waiting),
    ensures
        result.block_idx != before.next ==> delivered.len() == 0,
        result.block_idx == before.next ==> delivered.len() > 0 && delivered[0] == result,
        after.next == before.next + delivered.len(),
        forall|i: int|
            0 <= i < delivered.len() ==> (#[trigger] delivered[i]).block_idx == before.next + i,
        result.block_idx == before.next && after.waiting.len() > 0
            ==> after.waiting[0].block_idx != after.next,
        forall|i: int, j: int|
            0 <= i < j < after.waiting.len() ==> (#[trigger] after.waiting[i]).block_idx < (
            #[trigger] after.waiting[j]).block_idx,
{
    if result.block_idx == before.next {
        let n = crate::order::run_length(before.waiting, before.next + 1) as int;
        lemma_run(before.waiting, before.next + 1);
        assert forall|i: int| 0 <= i < delivered.len() implies (#[trigger] delivered[i]).block_idx
            == before.next + i by {
            if i > 0 {
                assert(delivered[i] == before.waiting[i - 1]);
            }
        }
        assert forall|i: int, j: int| 0 <= i < j < after.waiting.len() implies (
        #[trigger] after.waiting[i]).block_idx < (#[trigger] after.waiting[j]).block_idx by {
            assert(after.waiting[i] == before.waiting[n + i]);
            assert(after.waiting[j] == before.waiting[n + j]);
        }
    }
}

} // verus!
