//! From one record's operation list to the reference intervals that the
//! read covers.

use crate::depth::{depth_at, lemma_depth_push};
use crate::record::{
    lemma_ref_span_monotone, lemma_ref_span_step, op_start, AlignmentRecord, AlignmentRecordView,
    CigarOp,
};
use vstd::prelude::*;

verus! {

/// A half-open interval `[start, end)` of reference positions.
pub struct Interval {
    pub start: int,
    pub end: int,
}

impl Interval {
    /// Whether position `p` lies in the interval.
    pub open spec fn covers(self, p: int) -> bool {
        self.start <= p < self.end
    }
}

/// The interval that operation `i` spans on the reference.
pub open spec fn op_block(ref_start: int, ops: Seq<CigarOp>, i: int) -> Interval {
    Interval {
        start: op_start(ref_start, ops, i),
        end: op_start(ref_start, ops, i) + ops[i].len(),
    }
}

/// The covered blocks of an alignment, in the order of its operations: one
/// for each operation that yields a block, none for skips, insertions,
/// clips and padding.
pub open spec fn blocks_of(ref_start: int, ops: Seq<CigarOp>) -> Seq<Interval>
    decreases ops.len(),
{
    if ops.len() == 0 {
        Seq::empty()
    } else {
        let init = blocks_of(ref_start, ops.drop_last());
        if ops.last().emits_block() {
            init.push(op_block(ref_start, ops, ops.len() - 1))
        } else {
            init
        }
    }
}

impl AlignmentRecordView {
    /// The covered blocks of the record.
    pub open spec fn blocks(self) -> Seq<Interval> {
        blocks_of(self.ref_start, self.cigar)
    }
}

/// Taking one more operation appends its block, if it yields one.
pub proof fn lemma_blocks_step(ref_start: int, ops: Seq<CigarOp>, i: int)
    requires
        0 <= i < ops.len(),
    ensures
        blocks_of(ref_start, ops.take(i + 1)) == if ops[i].emits_block() {
            blocks_of(ref_start, ops.take(i)).push(op_block(ref_start, ops, i))
        } else {
            blocks_of(ref_start, ops.take(i))
        },
{
    let t = ops.take(i + 1);
    assert(t.drop_last() =~= ops.take(i));
    assert(t.take(i) =~= ops.take(i));
    assert(t.last() == ops[i]);
}

/// The blocks of a prefix of the operations are a prefix of the blocks.
pub proof fn lemma_blocks_prefix(ref_start: int, ops: Seq<CigarOp>, i: int)
    requires
        0 <= i <= ops.len(),
    ensures
        blocks_of(ref_start, ops.take(i)).len() <= blocks_of(ref_start, ops).len(),
        blocks_of(ref_start, ops.take(i)) == blocks_of(ref_start, ops).take(
            blocks_of(ref_start, ops.take(i)).len() as int,
        ),
    decreases ops.len() - i,
{
    if i == ops.len() {
        assert(ops.take(i) =~= ops);
        assert(blocks_of(ref_start, ops).take(blocks_of(ref_start, ops).len() as int)
            =~= blocks_of(ref_start, ops));
    } else {
        lemma_blocks_prefix(ref_start, ops, i + 1);
        lemma_blocks_step(ref_start, ops, i);
        let all = blocks_of(ref_start, ops);
        let next = blocks_of(ref_start, ops.take(i + 1));
        let here = blocks_of(ref_start, ops.take(i));
        assert(here =~= all.take(here.len() as int)) by {
            assert(next == all.take(next.len() as int));
            assert forall|k: int| 0 <= k < here.len() implies here[k] == all[k] by {
                assert(here[k] == next[k]);
                assert(next[k] == all.take(next.len() as int)[k]);
            }
        }
    }
}

/// No list of operations yields more blocks than it has operations, and no
/// block ends before it starts.
pub proof fn lemma_blocks_bounds(ref_start: int, ops: Seq<CigarOp>)
    ensures
        blocks_of(ref_start, ops).len() <= ops.len(),
        forall|k: int|
            0 <= k < blocks_of(ref_start, ops).len() ==> (#[trigger] blocks_of(
                ref_start,
                ops,
            )[k]).start <= blocks_of(ref_start, ops)[k].end,
    decreases ops.len(),
{
    if ops.len() > 0 {
        lemma_blocks_bounds(ref_start, ops.drop_last());
    }
}

/// The depth that the first `n` operations of an alignment give position
/// `p`: none, where no block-yielding operation among them spans `p`;
/// one, where exactly the operation `hit` does.
pub proof fn lemma_depth_of_ops(ref_start: int, ops: Seq<CigarOp>, n: int, p: int, hit: int)
    requires
        0 <= n <= ops.len(),
        forall|j: int|
            0 <= j < n && j != hit && ops[j].emits_block() ==> !(#[trigger] op_block(
                ref_start,
                ops,
                j,
            )).covers(p),
        0 <= hit < n ==> ops[hit].emits_block() && op_block(ref_start, ops, hit).covers(p),
    ensures
        depth_at(blocks_of(ref_start, ops.take(n)), p) == if 0 <= hit < n {
            1nat
        } else {
            0nat
        },
    decreases n,
{
    if n == 0 {
        assert(ops.take(0).len() == 0);
    } else {
        lemma_depth_of_ops(ref_start, ops, n - 1, p, hit);
        lemma_blocks_step(ref_start, ops, n - 1);
        lemma_depth_push(
            blocks_of(ref_start, ops.take(n - 1)),
            op_block(ref_start, ops, n - 1),
            p,
        );
        if ops[n - 1].emits_block() && n - 1 != hit {
            assert(!op_block(ref_start, ops, n - 1).covers(p));
        }
    }
}

/// The blocks of one read do not overlap: each operation starts where the
/// one before it ends, so no position is held by two of them.
pub proof fn lemma_ops_disjoint(ref_start: int, ops: Seq<CigarOp>, i: int, j: int, p: int)
    requires
        0 <= i < j < ops.len(),
        ops[i].consumes_reference(),
    ensures
        !(op_block(ref_start, ops, i).covers(p) && op_block(ref_start, ops, j).covers(p)),
{
    lemma_ref_span_step(ops, i);
    lemma_ref_span_monotone(ops, i + 1, j);
}

/// A read adds at most one to the depth of any position.
pub proof fn lemma_read_counts_once(r: AlignmentRecordView, p: int)
    ensures
        depth_at(r.blocks(), p) <= 1,
{
    let ops = r.cigar;
    let n = ops.len() as int;
    assert(ops.take(n) =~= ops);
    if exists|j: int| 0 <= j < n && ops[j].emits_block() && op_block(r.ref_start, ops, j).covers(p) {
        let hit = choose|j: int|
            0 <= j < n && ops[j].emits_block() && op_block(r.ref_start, ops, j).covers(p);
        assert forall|j: int| 0 <= j < n && j != hit && ops[j].emits_block() implies !(
        #[trigger] op_block(r.ref_start, ops, j)).covers(p) by {
            if j < hit {
                lemma_ops_disjoint(r.ref_start, ops, j, hit, p);
            } else {
                lemma_ops_disjoint(r.ref_start, ops, hit, j, p);
            }
        }
        lemma_depth_of_ops(r.ref_start, ops, n, p, hit);
    } else {
        lemma_depth_of_ops(r.ref_start, ops, n, p, -1);
    }
}

/// The span of a reference skip is not covered by the read that skips it,
/// whatever the read covers before and after.
pub proof fn lemma_skip_is_uncovered(r: AlignmentRecordView, i: int, p: int)
    requires
        0 <= i < r.cigar.len(),
        r.cigar[i] is RefSkip,
        op_start(r.ref_start, r.cigar, i) <= p < op_start(r.ref_start, r.cigar, i)
            + r.cigar[i].len(),
    ensures
        depth_at(r.blocks(), p) == 0,
{
    let ops = r.cigar;
    let n = ops.len() as int;
    assert(ops.take(n) =~= ops);
    assert forall|j: int| 0 <= j < n && j != -1 && ops[j].emits_block() implies !(
    #[trigger] op_block(r.ref_start, ops, j)).covers(p) by {
        if j < i {
            lemma_ops_disjoint(r.ref_start, ops, j, i, p);
        } else {
            lemma_ops_disjoint(r.ref_start, ops, i, j, p);
        }
    }
    lemma_depth_of_ops(r.ref_start, ops, n, p, -1);
}

/// A read with one block-yielding operation and no skip covers exactly the
/// span of that operation, which starts at the read's reference start.
pub proof fn lemma_single_block_read(r: AlignmentRecordView, i: int, p: int)
    requires
        0 <= i < r.cigar.len(),
        r.cigar[i].emits_block(),
        forall|j: int| 0 <= j < r.cigar.len() && j != i ==> !r.cigar[j].consumes_reference(),
    ensures
        op_start(r.ref_start, r.cigar, i) == r.ref_start,
        depth_at(r.blocks(), p) == if r.ref_start <= p < r.ref_start + r.cigar[i].len() {
            1nat
        } else {
            0nat
        },
{
    let ops = r.cigar;
    let n = ops.len() as int;
    assert(ops.take(n) =~= ops);
    lemma_ref_span_of_idle(ops, i);
    if op_block(r.ref_start, ops, i).covers(p) {
        lemma_depth_of_ops(r.ref_start, ops, n, p, i);
    } else {
        lemma_depth_of_ops(r.ref_start, ops, n, p, -1);
    }
}

/// Operations that consume no reference leave the cursor where it was.
pub proof fn lemma_ref_span_of_idle(ops: Seq<CigarOp>, n: int)
    requires
        0 <= n <= ops.len(),
        forall|j: int| 0 <= j < n ==> !ops[j].consumes_reference(),
    ensures
        crate::record::ref_span(ops.take(n)) == 0,
    decreases n,
{
    if n == 0 {
        assert(ops.take(0).len() == 0);
    } else {
        lemma_ref_span_of_idle(ops, n - 1);
        lemma_ref_span_step(ops, n - 1);
    }
}

/// One covered block of a read, with the name of the read it came from.
#[derive(Debug)]
pub struct AlignedBlock {
    /// First reference position of the block.
    pub start: i64,
    /// One past its last reference position.
    pub end: i64,
    /// Reserved for mate-overlap detection; always `false`.
    pub is_overlapping_mate: bool,
    /// Name of the read.
    pub read_id: String,
}

impl AlignedBlock {
    /// The interval of the block.
    pub open spec fn interval(&self) -> Interval {
        Interval { start: self.start as int, end: self.end as int }
    }
}

/// Walks the operation list of one record and hands out its covered blocks
/// one by one. Single use: once exhausted it stays exhausted.
pub struct IterAlignedBlocks<'a> {
    pos: i64,
    cigar_index: usize,
    overlap_status: bool,
    record: &'a AlignmentRecord,
}

impl<'a> IterAlignedBlocks<'a> {
    #[verifier::type_invariant]
    spec fn inv(&self) -> bool {
        &&& self.cigar_index <= self.record@.cigar.len()
        &&& self.pos == op_start(
            self.record@.ref_start,
            self.record@.cigar,
            self.cigar_index as int,
        )
        &&& !self.overlap_status
    }

    /// The record that the blocks are taken from.
    pub closed spec fn record(&self) -> AlignmentRecordView {
        self.record@
    }

    /// How many blocks have been handed out so far.
    pub closed spec fn yielded(&self) -> nat {
        blocks_of(self.record@.ref_start, self.record@.cigar.take(self.cigar_index as int)).len()
    }

    /// The blocks still to come.
    pub open spec fn remaining(&self) -> Seq<Interval> {
        self.record().blocks().skip(self.yielded() as int)
    }

    /// Starts at the record's first operation, with the cursor on its
    /// reference start.
    pub fn new(record: &'a AlignmentRecord) -> (it: Self)
        ensures
            it.record() == record@,
            it.yielded() == 0,
    {
        let overlap = false;
        proof {
            assert(record@.cigar.take(0).len() == 0);
        }
        Self { pos: record.reference_start(), cigar_index: 0, overlap_status: overlap, record }
    }

    /// The next covered block, or `None` when the operations are used up.
    pub fn next(&mut self) -> (out: Option<AlignedBlock>)
        ensures
            final(self).record() == old(self).record(),
            old(self).yielded() <= old(self).record().blocks().len(),
            match out {
                Some(b) => {
                    &&& old(self).yielded() < old(self).record().blocks().len()
                    &&& b.interval() == old(self).record().blocks()[old(self).yielded() as int]
                    &&& !b.is_overlapping_mate
                    &&& b.read_id@ == old(self).record().qname
                    &&& final(self).yielded() == old(self).yielded() + 1
                },
                None => {
                    &&& old(self).yielded() == old(self).record().blocks().len()
                    &&& final(self).yielded() == old(self).yielded()
                },
            },
    {
        proof {
            use_type_invariant(&*self);
            use_type_invariant(self.record);
        }
        let record = self.record;
        let cigar = record.cigar();
        let ghost ref_start = record@.ref_start;
        let ghost ops = record@.cigar;
        let mut pos = self.pos;
        let mut idx = self.cigar_index;
        proof {
            lemma_blocks_prefix(ref_start, ops, idx as int);
        }
        while idx < cigar.len()
            invariant
                cigar@ == ops,
                record@.in_domain(),
                record@.ref_start == ref_start,
                record@.cigar == ops,
                0 <= idx <= ops.len(),
                pos == op_start(ref_start, ops, idx as int),
                blocks_of(ref_start, ops.take(idx as int)) == blocks_of(
                    ref_start,
                    ops.take(old(self).cigar_index as int),
                ),
                self.record == record,
                old(self).record == record,
                old(self).cigar_index <= ops.len(),
                blocks_of(ref_start, ops.take(old(self).cigar_index as int)).len() <= blocks_of(
                    ref_start,
                    ops,
                ).len(),
                self.overlap_status == old(self).overlap_status,
                !self.overlap_status,
            decreases ops.len() - idx,
        {
            let entry = cigar[idx];
            proof {
                lemma_ref_span_step(ops, idx as int);
                lemma_ref_span_monotone(ops, idx as int + 1, ops.len() as int);
                lemma_ref_span_monotone(ops, 0, idx as int);
                assert(ops.take(ops.len() as int) =~= ops);
                lemma_blocks_step(ref_start, ops, idx as int);
                lemma_blocks_prefix(ref_start, ops, idx as int + 1);
            }
            match entry {
                CigarOp::Match(len) | CigarOp::Equal(len) | CigarOp::Diff(len) | CigarOp::Del(
                    len,
                ) => {
                    let out_pos = pos;
                    let end = out_pos + len as i64;
                    proof {
                        let all = blocks_of(ref_start, ops);
                        let here = blocks_of(ref_start, ops.take(idx as int));
                        let upto = blocks_of(ref_start, ops.take(idx as int + 1));
                        assert(upto == here.push(op_block(ref_start, ops, idx as int)));
                        assert(all.take(upto.len() as int)[here.len() as int] == all[here.len() as int]);
                    }
                    let block = AlignedBlock {
                        start: out_pos,
                        end,
                        is_overlapping_mate: self.overlap_status,
                        read_id: record.qname().clone(),
                    };
                    *self = IterAlignedBlocks {
                        pos: end,
                        cigar_index: idx + 1,
                        overlap_status: self.overlap_status,
                        record,
                    };
                    return Some(block);
                },
                CigarOp::RefSkip(len) => {
                    pos = pos + len as i64;
                },
                _ => {},
            }
            idx = idx + 1;
        }
        proof {
            assert(ops.take(ops.len() as int) =~= ops);
        }
        *self = IterAlignedBlocks {
            pos,
            cigar_index: idx,
            overlap_status: self.overlap_status,
            record,
        };
        None
    }
}

} // verus!
