//! Depth over a window: the number of intervals that cover each position,
//! gathered in a difference array.

use crate::blocks::Interval;
use vstd::prelude::*;

verus! {

/// Why a depth query gives no result.
#[derive(Clone, Copy, Debug, PartialEq, Eq, Structural)]
pub enum DepthError {
    /// The window is empty or reversed: `start >= stop`.
    InvalidRegion,
    /// A coordinate does not fit the unsigned 32-bit domain of the window.
    CoordinateOutOfRange,
    /// A running sum of the difference array fell below zero.
    NegativeDepth,
    /// A depth does not fit the unsigned 32-bit depth field.
    DepthOverflow,
}

/// Number of intervals of `blocks` that cover position `p`.
pub open spec fn depth_at(blocks: Seq<Interval>, p: int) -> nat
    decreases blocks.len(),
{
    if blocks.len() == 0 {
        0
    } else {
        depth_at(blocks.drop_last(), p) + if blocks.last().covers(p) {
            1nat
        } else {
            0nat
        }
    }
}

/// Sum of the first `k` entries of a difference array.
pub open spec fn prefix_sum(delta: Seq<i128>, k: int) -> int
    decreases k,
{
    if k <= 0 {
        0
    } else {
        prefix_sum(delta, k - 1) + delta[k - 1]
    }
}

/// Whether a coordinate fits the window's unsigned 32-bit domain.
pub open spec fn in_window_domain(x: int) -> bool {
    0 <= x <= u32::MAX
}

/// Most intervals that an accumulator takes.
pub open spec fn max_blocks() -> int {
    i128::MAX as int
}

/// One more interval adds one to the depth of the positions it covers.
pub proof fn lemma_depth_push(blocks: Seq<Interval>, b: Interval, p: int)
    ensures
        depth_at(blocks.push(b), p) == depth_at(blocks, p) + if b.covers(p) {
            1nat
        } else {
            0nat
        },
        depth_at(blocks, p) <= blocks.len(),
    decreases blocks.len(),
{
    assert(blocks.push(b).drop_last() =~= blocks);
    if blocks.len() > 0 {
        lemma_depth_push(blocks.drop_last(), blocks.last(), p);
        assert(blocks.drop_last().push(blocks.last()) =~= blocks);
    }
}

/// The depth over two lists of intervals is the sum of the depths over each.
pub proof fn lemma_depth_concat(a: Seq<Interval>, b: Seq<Interval>, p: int)
    ensures
        depth_at(a + b, p) == depth_at(a, p) + depth_at(b, p),
    decreases b.len(),
{
    if b.len() == 0 {
        assert(a + b =~= a);
    } else {
        lemma_depth_concat(a, b.drop_last(), p);
        assert((a + b).drop_last() =~= a + b.drop_last());
    }
}

/// A position has depth exactly where some interval covers it.
pub proof fn lemma_depth_positive_iff_covered(blocks: Seq<Interval>, p: int)
    ensures
        depth_at(blocks, p) > 0 <==> exists|k: int|
            0 <= k < blocks.len() && (#[trigger] blocks[k]).covers(p),
    decreases blocks.len(),
{
    if blocks.len() > 0 {
        let init = blocks.drop_last();
        lemma_depth_positive_iff_covered(init, p);
        if depth_at(blocks, p) > 0 {
            if blocks.last().covers(p) {
                assert(blocks[blocks.len() - 1].covers(p));
            } else {
                let k = choose|k: int| 0 <= k < init.len() && (#[trigger] init[k]).covers(p);
                assert(blocks[k].covers(p));
            }
        }
        if exists|k: int| 0 <= k < blocks.len() && (#[trigger] blocks[k]).covers(p) {
            let k = choose|k: int| 0 <= k < blocks.len() && (#[trigger] blocks[k]).covers(p);
            if k < init.len() {
                assert(init[k].covers(p));
            }
        }
    }
}

/// An interval that starts before the window and ends inside it counts
/// from the first position of the window up to its own end, and no further.
pub proof fn lemma_left_clipped_block(
    blocks: Seq<Interval>,
    b: Interval,
    start: int,
    stop: int,
    p: int,
)
    requires
        b.start < start < b.end < stop,
        start <= p < stop,
    ensures
        depth_at(blocks.push(b), p) == depth_at(blocks, p) + if p < b.end {
            1nat
        } else {
            0nat
        },
{
    lemma_depth_push(blocks, b, p);
}

/// An interval that ends at or past the right edge of the window counts at
/// every position of the window from its start on, the last one included.
pub proof fn lemma_right_edge_block(
    blocks: Seq<Interval>,
    b: Interval,
    start: int,
    stop: int,
    p: int,
)
    requires
        b.start < stop <= b.end,
        start <= p < stop,
    ensures
        depth_at(blocks.push(b), p) == depth_at(blocks, p) + if b.start <= p {
            1nat
        } else {
            0nat
        },
        b.start <= stop - 1 && start <= stop - 1 ==> depth_at(blocks.push(b), stop - 1) == depth_at(
            blocks,
            stop - 1,
        ) + 1,
{
    lemma_depth_push(blocks, b, p);
    lemma_depth_push(blocks, b, stop - 1);
}

/// Changing one entry of a difference array shifts every prefix sum that
/// includes the entry by the change, and no other.
pub proof fn lemma_prefix_sum_update(delta: Seq<i128>, i: int, v: i128, k: int)
    requires
        0 <= i < delta.len(),
        0 <= k <= delta.len(),
    ensures
        prefix_sum(delta.update(i, v), k) == prefix_sum(delta, k) + if i < k {
            v - delta[i]
        } else {
            0
        },
    decreases k,
{
    if k > 0 {
        lemma_prefix_sum_update(delta, i, v, k - 1);
    }
}

/// A difference array over the window `[start, stop)`.
pub struct DepthAccumulator {
    start: u32,
    stop: u32,
    delta: Vec<i128>,
    blocks: Ghost<Seq<Interval>>,
}

impl DepthAccumulator {
    /// The array has the width of the window, and its running sums are the
    /// depths of the intervals taken so far. Holds of every accumulator that
    /// `new` made, whatever was added since.
    pub closed spec fn wf(&self) -> bool {
        &&& self.start < self.stop
        &&& self.delta.len() == self.stop - self.start
        &&& self.blocks@.len() <= max_blocks()
        &&& forall|j: int|
            0 <= j < self.delta.len() ==> -self.blocks@.len() <= #[trigger] self.delta[j]
                <= self.blocks@.len()
        &&& forall|j: int|
            0 <= j < self.delta.len() ==> #[trigger] prefix_sum(self.delta@, j + 1) == depth_at(
                self.blocks@,
                self.start + j,
            )
    }

    /// First position of the window.
    pub closed spec fn start(&self) -> u32 {
        self.start
    }

    /// One past the last position of the window.
    pub closed spec fn stop(&self) -> u32 {
        self.stop
    }

    /// Every interval taken so far, in the order of arrival.
    pub closed spec fn blocks(&self) -> Seq<Interval> {
        self.blocks@
    }

    /// An accumulator over `[start, stop)` that has taken nothing yet.
    /// Refuses the window exactly when it is empty or reversed.
    pub fn new(start: u32, stop: u32) -> (out: Result<Self, DepthError>)
        ensures
            match out {
                Ok(acc) => start < stop && acc.wf() && acc.start() == start && acc.stop() == stop
                    && acc.blocks() == Seq::<Interval>::empty(),
                Err(e) => start >= stop && e == DepthError::InvalidRegion,
            },
    {
        if start >= stop {
            return Err(DepthError::InvalidRegion);
        }
        let n: usize = (stop - start) as usize;
        let mut delta: Vec<i128> = Vec::new();
        let mut i: usize = 0;
        while i < n
            invariant
                i <= n,
                delta.len() == i,
                forall|j: int| 0 <= j < i ==> delta[j] == 0,
                forall|j: int| 0 <= j <= i ==> prefix_sum(delta@, j) == 0,
            decreases n - i,
        {
            delta.push(0);
            i = i + 1;
            proof {
                assert forall|j: int| 0 <= j <= i implies prefix_sum(delta@, j) == 0 by {
                    lemma_prefix_sum_zero(delta@, j);
                }
            }
        }
        Ok(DepthAccumulator { start, stop, delta, blocks: Ghost(Seq::empty()) })
    }

    /// Takes the interval `[rec_start, rec_end)`. It is clipped to the
    /// window: what lies outside adds to no depth. Refuses the interval, and
    /// leaves the accumulator as it was, exactly when one of its ends does
    /// not fit the window's coordinate domain.
    pub fn add_block(&mut self, rec_start: i64, rec_end: i64) -> (out: Result<(), DepthError>)
        requires
            old(self).wf(),
            rec_start <= rec_end,
            old(self).blocks().len() < max_blocks(),
        ensures
            final(self).wf(),
            final(self).start() == old(self).start(),
            final(self).stop() == old(self).stop(),
            match out {
                Ok(()) => {
                    &&& in_window_domain(rec_start as int)
                    &&& in_window_domain(rec_end as int)
                    &&& final(self).blocks() == old(self).blocks().push(
                        Interval { start: rec_start as int, end: rec_end as int },
                    )
                },
                Err(e) => {
                    &&& e == DepthError::CoordinateOutOfRange
                    &&& !(in_window_domain(rec_start as int) && in_window_domain(rec_end as int))
                    &&& final(self).blocks() == old(self).blocks()
                },
            },
    {
        let block_start: u32 = match u32::try_from(rec_start) {
            Ok(v) => v,
            Err(_) => {
                return Err(DepthError::CoordinateOutOfRange);
            },
        };
        let block_stop: u32 = match u32::try_from(rec_end) {
            Ok(v) => v,
            Err(_) => {
                return Err(DepthError::CoordinateOutOfRange);
            },
        };
        let start = self.start;
        let stop = self.stop;
        let ghost before = self.delta@;
        let ghost taken = self.blocks@;
        let ghost block = Interval { start: rec_start as int, end: rec_end as int };
        proof {
            assert forall|p: int| true implies #[trigger] depth_at(taken.push(block), p)
                == depth_at(taken, p) + if block.covers(p) {
                1nat
            } else {
                0nat
            } by {
                lemma_depth_push(taken, block, p);
            }
        }
        self.blocks = Ghost(taken.push(block));
        // The interval may lie wholly before or wholly after the window.
        if block_start >= stop || block_stop <= start {
            return Ok(());
        }
        // Bring its ends inside the window.

        let adjusted_start: usize = if block_start < start {
            0
        } else {
            (block_start - start) as usize
        };
        // An interval that reaches the right edge is never closed inside the window.
        let mut dont_count_stop = false;
        let adjusted_stop: usize = if block_stop >= stop {
            dont_count_stop = true;
            self.delta.len() - 1
        } else {
            (block_stop - start) as usize
        };
        let opened: i128 = self.delta[adjusted_start] + 1;
        self.delta.set(adjusted_start, opened);
        proof {
            assert forall|k: int| 0 <= k <= before.len() implies #[trigger] prefix_sum(
                self.delta@,
                k,
            ) == prefix_sum(before, k) + if adjusted_start < k {
                1int
            } else {
                0int
            } by {
                lemma_prefix_sum_update(before, adjusted_start as int, opened, k);
            }
        }
        if !dont_count_stop {
            let ghost mid = self.delta@;
            let closed: i128 = self.delta[adjusted_stop] - 1;
            self.delta.set(adjusted_stop, closed);
            proof {
                assert forall|k: int| 0 <= k <= before.len() implies #[trigger] prefix_sum(
                    self.delta@,
                    k,
                ) == prefix_sum(mid, k) - if adjusted_stop < k {
                    1int
                } else {
                    0int
                } by {
                    lemma_prefix_sum_update(mid, adjusted_stop as int, closed, k);
                }
            }
        }
        proof {
            assert forall|j: int| 0 <= j < self.delta.len() implies #[trigger] prefix_sum(
                self.delta@,
                j + 1,
            ) == depth_at(self.blocks@, self.start + j) by {
                assert(prefix_sum(before, j + 1) == depth_at(taken, start + j));
            }
        }
        Ok(())
    }

    /// Hands out the difference array: its length is the width of the
    /// window, and the sum of its first `j + 1` entries is the depth at
    /// offset `j`.
    pub fn into_counter(self) -> (counter: Vec<i128>)
        requires
            self.wf(),
        ensures
            counter.len() == self.stop() - self.start(),
            forall|j: int|
                0 <= j < counter.len() ==> #[trigger] prefix_sum(counter@, j + 1) == depth_at(
                    self.blocks(),
                    self.start() + j,
                ),
    {
        self.delta
    }
}

/// Every prefix sum of an array of zeros is zero.
pub proof fn lemma_prefix_sum_zero(delta: Seq<i128>, k: int)
    requires
        0 <= k <= delta.len(),
        forall|j: int| 0 <= j < delta.len() ==> delta[j] == 0,
    ensures
        prefix_sum(delta, k) == 0,
    decreases k,
{
    if k > 0 {
        lemma_prefix_sum_zero(delta, k - 1);
    }
}

} // verus!
