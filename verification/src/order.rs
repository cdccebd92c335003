//! Delivery of blocks in order, whatever the order in which they are processed.

use std::collections::VecDeque;

use vstd::prelude::*;

use crate::block::{same_block, BlockResult};
use crate::error::Error;

verus! {

/// How many of the waiting blocks follow each other from `next` on.
pub open spec fn run_length<T>(waiting: Seq<BlockResult<T>>, next: int) -> nat
    decreases waiting.len(),
{
    if waiting.len() > 0 && waiting[0].block_idx == next {
        1 + run_length(waiting.drop_first(), next + 1)
    } else {
        0
    }
}

/// Whether the blocks are in strictly ascending order.
pub open spec fn ascending<T>(waiting: Seq<BlockResult<T>>) -> bool {
    forall|i: int, j: int|
        0 <= i < j < waiting.len() ==> (#[trigger] waiting[i]).block_idx < (
        #[trigger] waiting[j]).block_idx
}

/// What is known of the blocks that have arrived: how many were delivered, and which wait.
pub struct OrderView<T> {
    /// Index of the block that is to be delivered next.
    pub next: int,
    /// Blocks that arrived before their turn.
    pub waiting: Seq<BlockResult<T>>,
}

impl<T> OrderView<T> {
    /// Before any block has arrived.
    pub open spec fn start() -> Self {
        OrderView { next: 0, waiting: seq![] }
    }

    /// Whether a block with the index of `result` already waits.
    pub open spec fn is_waiting(self, result: BlockResult<T>) -> bool {
        exists|i: int|
            0 <= i < self.waiting.len() && (#[trigger] self.waiting[i]).block_idx
                == result.block_idx
    }

    /// Whether `after` is what remains once `result` has arrived, and `delivered` what is
    /// delivered then. The block whose turn it is is delivered with those that follow it without
    /// a gap; another one waits at its place in the ascending order.
    pub open spec fn accepts(
        self,
        result: BlockResult<T>,
        after: OrderView<T>,
        delivered: Seq<BlockResult<T>>,
    ) -> bool {
        if result.block_idx == self.next {
            let n = run_length(self.waiting, self.next + 1) as int;
            &&& delivered == seq![result] + self.waiting.take(n)
            &&& after.next == self.next + 1 + n
            &&& after.waiting == self.waiting.skip(n)
        } else {
            &&& delivered == Seq::<BlockResult<T>>::empty()
            &&& after.next == self.next
            &&& exists|p: int|
                0 <= p <= self.waiting.len() && after.waiting == #[trigger] self.waiting.insert(
                    p,
                    result,
                )
            &&& ascending(after.waiting)
        }
    }
}

/// The blocks that have been processed, put back in order.
pub struct BlockOrder<T> {
    current_block: u32,
    out_of_order: VecDeque<BlockResult<T>>,
}

impl<T> View for BlockOrder<T> {
    type V = OrderView<T>;

    closed spec fn view(&self) -> OrderView<T> {
        OrderView { next: self.current_block as int, waiting: self.out_of_order@ }
    }
}

impl<T> BlockOrder<T> {
    /// Whether the waiting blocks are in ascending order, and all indexes have a successor.
    pub open spec fn wf(&self) -> bool {
        &&& 0 <= self@.next
        &&& ascending(self@.waiting)
        &&& forall|i: int|
            0 <= i < self@.waiting.len() ==> (#[trigger] self@.waiting[i]).block_idx < u32::MAX
    }

    /// Starts with the first block.
    pub fn new() -> (r: Self)
        ensures
            r@ == OrderView::<T>::start(),
            r.wf(),
    {
        BlockOrder { current_block: 0, out_of_order: VecDeque::new() }
    }

    /// Takes a processed block and returns the blocks that can be delivered now, in order.
    pub fn accept(&mut self, result: BlockResult<T>) -> (r: Result<Vec<BlockResult<T>>, Error>)
        requires
            old(self).wf(),
            result.block_idx < u32::MAX,
        ensures
            final(self).wf(),
            match r {
                Ok(delivered) => old(self)@.accepts(result, final(self)@, delivered@) && (
                result.block_idx == old(self)@.next || !old(self)@.is_waiting(result)),
                Err(e) => {
                    &&& result.block_idx != old(self)@.next
                    &&& final(self)@ == old(self)@
                    &&& e matches Error::DuplicateBlock { idx }
                    &&& idx < old(self)@.waiting.len()
                    &&& old(self)@.waiting[idx as int].block_idx == result.block_idx
                },
            },
    {
        let mut delivered: Vec<BlockResult<T>> = Vec::new();
        if result.block_idx == self.current_block {
            delivered.push(result);
            self.current_block = self.current_block + 1;
            let ghost waiting = self.out_of_order@;
            let ghost first = self.current_block;
            let ghost mut n: int = 0;
            // Check if any out of order blocks can be written.
            while self.out_of_order.len() > 0 && self.out_of_order[0].block_idx
                == self.current_block
                invariant
                    0 <= n <= waiting.len(),
                    self.out_of_order@ == waiting.skip(n),
                    self.current_block == first + n,
                    delivered@ == seq![result] + waiting.take(n),
                    run_length(waiting, first as int) == n + run_length(
                        waiting.skip(n),
                        first + n,
                    ),
                    forall|i: int|
                        0 <= i < waiting.len() ==> (#[trigger] waiting[i]).block_idx < u32::MAX,
                decreases self.out_of_order@.len(),
            {
                assert(waiting.skip(n)[0] == waiting[n]);
                assert(waiting.skip(n).drop_first() =~= waiting.skip(n + 1));
                if let Some(block) = self.out_of_order.pop_front() {
                    delivered.push(block);
                }
                self.current_block = self.current_block + 1;
                proof {
                    assert(waiting.take(n + 1) =~= waiting.take(n).push(waiting[n]));
                    n = n + 1;
                    assert(delivered@ =~= seq![result] + waiting.take(n));
                }
            }
            Ok(delivered)
        } else {
            // Insert sorted.
            let idx: usize = self.place(result.block_idx);
            if idx < self.out_of_order.len() && self.out_of_order[idx].block_idx
                == result.block_idx {
                return Err(Error::DuplicateBlock { idx });
            }
            let ghost waiting = self.out_of_order@;
            self.out_of_order.insert(idx, result);
            assert(self.out_of_order@ == waiting.insert(idx as int, result));
            assert(ascending(self.out_of_order@)) by {
                assert forall|i: int, j: int| 0 <= i < j < self.out_of_order@.len() implies (
                #[trigger] self.out_of_order@[i]).block_idx < (
                #[trigger] self.out_of_order@[j]).block_idx by {
                    let a = if i < idx {
                        i
                    } else {
                        i - 1
                    };
                    let b = if j < idx {
                        j
                    } else {
                        j - 1
                    };
                    if i != idx && j != idx {
                        assert(waiting[a].block_idx < waiting[b].block_idx);
                    }
                }
            }
            Ok(delivered)
        }
    }

    /// The place of a block among the waiting ones, found by bisection.
    fn place(&self, block_idx: u32) -> (idx: usize)
        requires
            self.wf(),
        ensures
            idx <= self.out_of_order@.len(),
            forall|i: int|
                0 <= i < idx ==> (#[trigger] self.out_of_order@[i]).block_idx < block_idx,
            forall|i: int|
                idx <= i < self.out_of_order@.len() ==> (
                #[trigger] self.out_of_order@[i]).block_idx >= block_idx,
    {
        let mut low: usize = 0;
        let mut high: usize = self.out_of_order.len();
        while low < high
            invariant
                self.wf(),
                low <= high <= self.out_of_order@.len(),
                forall|i: int|
                    0 <= i < low ==> (#[trigger] self.out_of_order@[i]).block_idx < block_idx,
                forall|i: int|
                    high <= i < self.out_of_order@.len() ==> (
                    #[trigger] self.out_of_order@[i]).block_idx >= block_idx,
            decreases high - low,
        {
            let mid: usize = low + (high - low) / 2;
            if self.out_of_order[mid].block_idx < block_idx {
                low = mid + 1;
            } else {
                high = mid;
            }
        }
        low
    }
}

/// All that has been delivered in the first `k` steps, in the order of delivery.
pub open spec fn delivered_by<T>(steps: Seq<Seq<BlockResult<T>>>, k: nat) -> Seq<BlockResult<T>>
    decreases k,
{
    if k == 0 {
        seq![]
    } else {
        delivered_by(steps, (k - 1) as nat) + steps[k - 1]
    }
}

/// Whether `states` and `steps` are what blocks go through that arrive one after the other.
pub open spec fn is_history<T>(
    arrivals: Seq<BlockResult<T>>,
    states: Seq<OrderView<T>>,
    steps: Seq<Seq<BlockResult<T>>>,
) -> bool {
    &&& states.len() == arrivals.len() + 1
    &&& steps.len() == arrivals.len()
    &&& states[0] == OrderView::<T>::start()
    &&& forall|i: int|
        0 <= i < arrivals.len() ==> (#[trigger] states[i]).accepts(
            arrivals[i],
            states[i + 1],
            steps[i],
        )
}

/// Whether no two blocks have the same index.
pub open spec fn distinct<T>(arrivals: Seq<BlockResult<T>>) -> bool {
    forall|i: int, j: int|
        0 <= i < j < arrivals.len() ==> (#[trigger] arrivals[i]).block_idx != (
        #[trigger] arrivals[j]).block_idx
}

/// Whether one of the blocks has the index.
pub open spec fn has_index<T>(arrivals: Seq<BlockResult<T>>, idx: int) -> bool {
    exists|j: int| 0 <= j < arrivals.len() && (#[trigger] arrivals[j]).block_idx == idx
}

/// Whether the block is among the first `k`.
pub open spec fn arrived<T>(arrivals: Seq<BlockResult<T>>, k: int, block: BlockResult<T>) -> bool {
    exists|j: int| 0 <= j < k && #[trigger] arrivals[j] == block
}

/// The blocks that follow each other without a gap, and the one behind them.
pub proof fn lemma_run<T>(waiting: Seq<BlockResult<T>>, next: int)
    ensures
        run_length(waiting, next) <= waiting.len(),
        forall|j: int|
            0 <= j < run_length(waiting, next) ==> (#[trigger] waiting[j]).block_idx == next + j,
        run_length(waiting, next) < waiting.len() ==> waiting[run_length(
            waiting,
            next,
        ) as int].block_idx != next + run_length(waiting, next),
    decreases waiting.len(),
{
    if waiting.len() > 0 && waiting[0].block_idx == next {
        let rest = waiting.drop_first();
        lemma_run(rest, next + 1);
        assert forall|j: int| 0 <= j < run_length(waiting, next) implies (
        #[trigger] waiting[j]).block_idx == next + j by {
            if j > 0 {
                assert(rest[j - 1] == waiting[j]);
            }
        }
    }
}

/// What has been delivered after some distinct blocks have arrived, and what waits.
spec fn settled<T>(
    arrivals: Seq<BlockResult<T>>,
    k: int,
    state: OrderView<T>,
    delivered: Seq<BlockResult<T>>,
) -> bool {
    &&& delivered.len() == state.next
    &&& forall|i: int| 0 <= i < delivered.len() ==> (#[trigger] delivered[i]).block_idx == i
    &&& forall|i: int| 0 <= i < delivered.len() ==> arrived(arrivals, k, #[trigger] delivered[i])
    &&& ascending(state.waiting)
    &&& forall|i: int|
        0 <= i < state.waiting.len() ==> (#[trigger] state.waiting[i]).block_idx > state.next
    &&& forall|i: int|
        0 <= i < state.waiting.len() ==> arrived(arrivals, k, #[trigger] state.waiting[i])
    &&& forall|j: int|
        0 <= j < k ==> delivered.contains(#[trigger] arrivals[j]) || state.waiting.contains(
            arrivals[j],
        )
}

/// One more distinct block keeps the delivery in order.
#[verifier::rlimit(40)]
proof fn lemma_step<T>(
    arrivals: Seq<BlockResult<T>>,
    k: int,
    state: OrderView<T>,
    delivered: Seq<BlockResult<T>>,
    after: OrderView<T>,
    step: Seq<BlockResult<T>>,
)
    requires
        distinct(arrivals),
        0 <= k < arrivals.len(),
        settled(arrivals, k, state, delivered),
        state.accepts(arrivals[k], after, step),
    ensures
        settled(arrivals, k + 1, after, delivered + step),
{
    let r = arrivals[k];
    assert forall|b: BlockResult<T>| arrived(arrivals, k, b) implies b.block_idx != r.block_idx
        && #[trigger] arrived(arrivals, k + 1, b) by {
        let j = choose|j: int| 0 <= j < k && #[trigger] arrivals[j] == b;
        assert(arrivals[j].block_idx != arrivals[k].block_idx);
    }
    assert(arrived(arrivals, k + 1, r)) by {
        assert(arrivals[k] == r);
    }
    if r.block_idx < state.next {
        assert(arrived(arrivals, k, delivered[r.block_idx as int]));
    }
    let now = delivered + step;
    if r.block_idx == state.next {
        let n = run_length(state.waiting, state.next + 1) as int;
        lemma_run(state.waiting, state.next + 1);
        assert forall|i: int| 0 <= i < now.len() implies (#[trigger] now[i]).block_idx == i
            && arrived(arrivals, k + 1, now[i]) by {
            if i < delivered.len() {
                assert(now[i] == delivered[i]);
                assert(arrived(arrivals, k, delivered[i]));
            } else if i > delivered.len() {
                assert(now[i] == state.waiting[i - delivered.len() - 1]);
                assert(arrived(arrivals, k, state.waiting[i - delivered.len() - 1]));
            }
        }
        assert forall|i: int| 0 <= i < after.waiting.len() implies (
        #[trigger] after.waiting[i]).block_idx > after.next && arrived(
            arrivals,
            k + 1,
            after.waiting[i],
        ) by {
            assert(after.waiting[i] == state.waiting[n + i]);
            assert(arrived(arrivals, k, state.waiting[n + i]));
            assert(state.waiting[n].block_idx > state.next + n) by {
                if n > 0 {
                    assert(state.waiting[n - 1].block_idx < state.waiting[n].block_idx);
                }
            }
            if i > 0 {
                assert(state.waiting[n].block_idx < state.waiting[n + i].block_idx);
            }
        }
        assert(ascending(after.waiting)) by {
            assert forall|i: int, j: int| 0 <= i < j < after.waiting.len() implies (
            #[trigger] after.waiting[i]).block_idx < (#[trigger] after.waiting[j]).block_idx by {
                assert(state.waiting[n + i].block_idx < state.waiting[n + j].block_idx);
            }
        }
        assert forall|j: int| 0 <= j < k + 1 implies now.contains(#[trigger] arrivals[j])
            || after.waiting.contains(arrivals[j]) by {
            if j == k {
                assert(now[delivered.len() as int] == r);
            } else if delivered.contains(arrivals[j]) {
                let i = choose|i: int| 0 <= i < delivered.len() && delivered[i] == arrivals[j];
                assert(now[i] == arrivals[j]);
            } else {
                let i = choose|i: int|
                    0 <= i < state.waiting.len() && state.waiting[i] == arrivals[j];
                if i < n {
                    assert(now[delivered.len() + 1 + i] == arrivals[j]);
                } else {
                    assert(after.waiting[i - n] == arrivals[j]);
                }
            }
        }
    } else {
        let p = choose|p: int|
            0 <= p <= state.waiting.len() && after.waiting == #[trigger] state.waiting.insert(p, r);
        assert(now =~= delivered);
        assert forall|i: int| 0 <= i < after.waiting.len() implies (
        #[trigger] after.waiting[i]).block_idx > after.next && arrived(
            arrivals,
            k + 1,
            after.waiting[i],
        ) by {
            if i < p {
                assert(after.waiting[i] == state.waiting[i]);
                assert(arrived(arrivals, k, state.waiting[i]));
            } else if i > p {
                assert(after.waiting[i] == state.waiting[i - 1]);
                assert(arrived(arrivals, k, state.waiting[i - 1]));
            }
        }
        assert forall|j: int| 0 <= j < k + 1 implies now.contains(#[trigger] arrivals[j])
            || after.waiting.contains(arrivals[j]) by {
            if j == k {
                assert(after.waiting[p] == r);
            } else if !delivered.contains(arrivals[j]) {
                let i = choose|i: int|
                    0 <= i < state.waiting.len() && state.waiting[i] == arrivals[j];
                assert(after.waiting[if i < p {
                    i
                } else {
                    i + 1
                }] == arrivals[j]);
            }
        }
        assert forall|i: int| 0 <= i < now.len() implies arrived(
            arrivals,
            k + 1,
            #[trigger] now[i],
        ) by {
            assert(arrived(arrivals, k, delivered[i]));
        }
    }
}

/// Every stage of a history of distinct blocks is settled.
proof fn lemma_history<T>(
    arrivals: Seq<BlockResult<T>>,
    states: Seq<OrderView<T>>,
    steps: Seq<Seq<BlockResult<T>>>,
    k: nat,
)
    requires
        distinct(arrivals),
        is_history(arrivals, states, steps),
        k <= arrivals.len(),
    ensures
        settled(arrivals, k as int, states[k as int], delivered_by(steps, k)),
    decreases k,
{
    if k > 0 {
        let i = k - 1;
        lemma_history(arrivals, states, steps, i as nat);
        assert(states[i].accepts(arrivals[i], states[i + 1], steps[i]));
        lemma_step(
            arrivals,
            i,
            states[i],
            delivered_by(steps, i as nat),
            states[k as int],
            steps[i],
        );
    }
}

/// At any time the blocks that have been delivered are the first ones, in order and each once.
pub proof fn law_delivery_in_order<T>(
    arrivals: Seq<BlockResult<T>>,
    states: Seq<OrderView<T>>,
    steps: Seq<Seq<BlockResult<T>>>,
    k: nat,
)
    requires
        distinct(arrivals),
        is_history(arrivals, states, steps),
        k <= arrivals.len(),
    ensures
        delivered_by(steps, k).len() == states[k as int].next,
        forall|i: int|
            0 <= i < delivered_by(steps, k).len() ==> (#[trigger] delivered_by(
                steps,
                k,
            )[i]).block_idx == i,
        forall|i: int|
            0 <= i < delivered_by(steps, k).len() ==> arrived(
                arrivals,
                k as int,
                #[trigger] delivered_by(steps, k)[i],
            ),
{
    lemma_history(arrivals, states, steps, k);
}

/// Nothing is held back: at any time the block that is to be delivered next has not arrived, and
/// every block before it has been delivered.
pub proof fn law_nothing_held_back<T>(
    arrivals: Seq<BlockResult<T>>,
    states: Seq<OrderView<T>>,
    steps: Seq<Seq<BlockResult<T>>>,
    k: nat,
    j: int,
)
    requires
        distinct(arrivals),
        is_history(arrivals, states, steps),
        k <= arrivals.len(),
        0 <= j < k,
    ensures
        ({
            let delivered = delivered_by(steps, k);
            let idx = arrivals[j].block_idx as int;
            &&& idx != delivered.len()
            &&& idx < delivered.len() ==> delivered[idx] == arrivals[j]
            &&& idx > delivered.len() ==> states[k as int].waiting.contains(arrivals[j])
        }),
{
    lemma_history(arrivals, states, steps, k);
    let delivered = delivered_by(steps, k);
    let waiting = states[k as int].waiting;
    let block = arrivals[j];
    if delivered.contains(block) {
        let i = choose|i: int| 0 <= i < delivered.len() && delivered[i] == block;
        assert(delivered[i].block_idx == i);
    } else {
        assert(waiting.contains(block));
        let i = choose|i: int| 0 <= i < waiting.len() && waiting[i] == block;
        assert(waiting[i].block_idx > states[k as int].next);
    }
}

/// A block is never taken for a duplicate if no two blocks have the same index: whatever has
/// arrived before it, it is the one whose turn it is, or none with its index waits.
pub proof fn law_distinct_blocks_accepted<T>(
    arrivals: Seq<BlockResult<T>>,
    states: Seq<OrderView<T>>,
    steps: Seq<Seq<BlockResult<T>>>,
    k: nat,
)
    requires
        distinct(arrivals),
        k < arrivals.len(),
        is_history(arrivals.take(k as int), states, steps),
    ensures
        arrivals[k as int].block_idx == states[k as int].next || !states[k as int].is_waiting(
            arrivals[k as int],
        ),
{
    let before = arrivals.take(k as int);
    let state = states[k as int];
    let r = arrivals[k as int];
    lemma_history(before, states, steps, k);
    if state.is_waiting(r) {
        let i = choose|i: int|
            0 <= i < state.waiting.len() && (#[trigger] state.waiting[i]).block_idx == r.block_idx;
        assert(arrived(before, k as int, state.waiting[i]));
        let j = choose|j: int| 0 <= j < k && #[trigger] before[j] == state.waiting[i];
        assert(arrivals[j].block_idx != arrivals[k as int].block_idx);
    }
}

/// Once each of `count` blocks has arrived, in whatever order, all have been delivered in order
/// and none waits.
pub proof fn law_all_blocks_delivered<T>(
    arrivals: Seq<BlockResult<T>>,
    states: Seq<OrderView<T>>,
    steps: Seq<Seq<BlockResult<T>>>,
    count: nat,
)
    requires
        is_complete(arrivals, count),
        is_history(arrivals, states, steps),
    ensures
        ({
            let delivered = delivered_by(steps, arrivals.len());
            &&& delivered.len() == count
            &&& forall|i: int| 0 <= i < count ==> (#[trigger] delivered[i]).block_idx == i
            &&& forall|i: int|
                0 <= i < count ==> arrived(
                    arrivals,
                    arrivals.len() as int,
                    #[trigger] delivered[i],
                )
            &&& states.last().waiting.len() == 0
        }),
{
    let n = arrivals.len();
    lemma_history(arrivals, states, steps, n);
    let state = states[n as int];
    let delivered = delivered_by(steps, n);
    if state.next < count {
        assert(has_index(arrivals, state.next));
        let j = choose|j: int|
            0 <= j < arrivals.len() && (#[trigger] arrivals[j]).block_idx == state.next;
        assert(delivered.contains(arrivals[j]) || state.waiting.contains(arrivals[j]));
    }
    if state.next > count {
        assert(delivered[count as int].block_idx == count);
        assert(arrived(arrivals, n as int, delivered[count as int]));
    }
    if state.waiting.len() > 0 {
        assert(arrived(arrivals, n as int, state.waiting[0]));
    }
}

/// Whether blocks with the indexes from zero to `count` arrive, each of them once.
pub open spec fn is_complete<T>(arrivals: Seq<BlockResult<T>>, count: nat) -> bool {
    &&& distinct(arrivals)
    &&& forall|j: int| 0 <= j < arrivals.len() ==> (#[trigger] arrivals[j]).block_idx < count
    &&& forall|b: int| 0 <= b < count ==> #[trigger] has_index(arrivals, b)
}

/// Whether the blocks of the two sequences that have the same index are the same.
pub open spec fn agree<T>(a: Seq<BlockResult<T>>, b: Seq<BlockResult<T>>) -> bool {
    forall|i: int, j: int|
        0 <= i < a.len() && 0 <= j < b.len() && (#[trigger] a[i]).block_idx == (
        #[trigger] b[j]).block_idx ==> same_block(a[i], b[j])
}

/// Blocks that arrive in any order are delivered as they would be without any reordering, if they
/// were processed one after the other.
pub proof fn law_delivered_as_in_sequence<T>(
    arrivals: Seq<BlockResult<T>>,
    states: Seq<OrderView<T>>,
    steps: Seq<Seq<BlockResult<T>>>,
    sequence: Seq<BlockResult<T>>,
)
    requires
        is_complete(arrivals, sequence.len()),
        is_history(arrivals, states, steps),
        forall|i: int| 0 <= i < sequence.len() ==> (#[trigger] sequence[i]).block_idx == i,
        agree(arrivals, sequence),
    ensures
        delivered_by(steps, arrivals.len()).len() == sequence.len(),
        forall|i: int|
            0 <= i < sequence.len() ==> same_block(
                #[trigger] delivered_by(steps, arrivals.len())[i],
                sequence[i],
            ),
{
    let n = arrivals.len();
    let delivered = delivered_by(steps, n);
    law_all_blocks_delivered(arrivals, states, steps, sequence.len());
    assert forall|i: int| 0 <= i < sequence.len() implies same_block(
        #[trigger] delivered[i],
        sequence[i],
    ) by {
        assert(arrived(arrivals, n as int, delivered[i]));
        let j = choose|j: int| 0 <= j < n && #[trigger] arrivals[j] == delivered[i];
        assert(sequence[i].block_idx == i);
        assert(arrivals[j].block_idx == sequence[i].block_idx);
    }
}

/// What is delivered does not depend on the order of arrival: two runs in which the same blocks
/// arrive deliver the same sequence.
pub proof fn law_arrival_order_is_irrelevant<T>(
    a: Seq<BlockResult<T>>,
    a_states: Seq<OrderView<T>>,
    a_steps: Seq<Seq<BlockResult<T>>>,
    b: Seq<BlockResult<T>>,
    b_states: Seq<OrderView<T>>,
    b_steps: Seq<Seq<BlockResult<T>>>,
    count: nat,
)
    requires
        is_complete(a, count),
        is_complete(b, count),
        is_history(a, a_states, a_steps),
        is_history(b, b_states, b_steps),
        agree(a, b),
    ensures
        delivered_by(a_steps, a.len()).len() == delivered_by(b_steps, b.len()).len(),
        forall|i: int|
            0 <= i < delivered_by(a_steps, a.len()).len() ==> same_block(
                #[trigger] delivered_by(a_steps, a.len())[i],
                delivered_by(b_steps, b.len())[i],
            ),
{
    let sequence = delivered_by(b_steps, b.len());
    law_all_blocks_delivered(b, b_states, b_steps, count);
    assert forall|i: int, j: int|
        0 <= i < a.len() && 0 <= j < sequence.len() && (#[trigger] a[i]).block_idx == (
        #[trigger] sequence[j]).block_idx implies same_block(a[i], sequence[j]) by {
        assert(arrived(b, b.len() as int, sequence[j]));
        let k = choose|k: int| 0 <= k < b.len() && #[trigger] b[k] == sequence[j];
        assert(a[i].block_idx == b[k].block_idx);
    }
    law_delivered_as_in_sequence(a, a_states, a_steps, sequence);
}

} // verus!
