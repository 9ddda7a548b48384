//! Depth records, read filters, and the processor that turns the records of
//! a region into one depth per position.

use crate::blocks::{
    lemma_blocks_bounds, lemma_read_counts_once, lemma_single_block_read,
    lemma_skip_is_uncovered, Interval, IterAlignedBlocks,
};
use crate::depth::{
    depth_at, in_window_domain, lemma_depth_concat, lemma_depth_positive_iff_covered, prefix_sum,
    DepthAccumulator, DepthError,
};
use crate::record::op_start;
use crate::record::{AlignmentContext, AlignmentRecord, AlignmentRecordView, MAX_CIGAR_OPS};
use crate::text::{decimal, is_digit, lemma_decimal_round_trip, push_decimal};
use std::path::PathBuf;
use vstd::prelude::*;
use vstd::string::StringExecFns;

verus! {

/// `std::path::PathBuf`, carried through as an opaque value: nothing is
/// claimed of what a path holds.
#[verifier::external_type_specification]
#[verifier::external_body]
pub struct ExPathBuf(std::path::PathBuf);

/// A record that stands for one position of a reference sequence.
pub trait Position: Default {
    /// Name of the reference sequence.
    spec fn spec_ref_seq(&self) -> Seq<char>;

    /// Coordinate in the sequence.
    spec fn spec_pos(&self) -> u32;

    /// Create a new position with all other values zeroed.
    fn new(ref_seq: String, pos: u32) -> (out: Self)
        ensures
            out.spec_ref_seq() == ref_seq@,
            out.spec_pos() == pos,
    ;
}

/// Depth at one position.
#[derive(Debug)]
pub struct BedGraph {
    /// Reference sequence name.
    pub ref_seq: String,
    /// Position in the sequence.
    pub pos: u32,
    /// Total depth at this position.
    pub depth: u32,
}

/// A depth record as mathematical values.
pub struct BedGraphView {
    pub ref_seq: Seq<char>,
    pub pos: u32,
    pub depth: u32,
}

impl View for BedGraph {
    type V = BedGraphView;

    open spec fn view(&self) -> BedGraphView {
        BedGraphView { ref_seq: self.ref_seq@, pos: self.pos, depth: self.depth }
    }
}

/// The text of a row: name, position and depth, each set off from the next
/// by one tab.
pub open spec fn row_text(row: BedGraphView) -> Seq<char> {
    row.ref_seq + seq!['\t'] + decimal(row.pos as nat) + seq!['\t'] + decimal(row.depth as nat)
}

/// What stands between the tabs of a text, from left to right.
pub open spec fn tab_fields(text: Seq<char>) -> Seq<Seq<char>>
    decreases text.len(),
{
    if text.len() == 0 {
        seq![Seq::empty()]
    } else {
        let init = tab_fields(text.drop_last());
        if text.last() == '\t' {
            init.push(Seq::empty())
        } else {
            init.update(init.len() - 1, init.last().push(text.last()))
        }
    }
}

/// Text without a tab, put behind another text, lengthens its last field.
pub proof fn lemma_fields_of_plain_suffix(head: Seq<char>, tail: Seq<char>)
    requires
        forall|i: int| 0 <= i < tail.len() ==> tail[i] != '\t',
    ensures
        tab_fields(head).len() >= 1,
        tab_fields(head + tail) == tab_fields(head).update(
            tab_fields(head).len() - 1,
            tab_fields(head).last() + tail,
        ),
    decreases tail.len(), head.len(),
{
    if head.len() > 0 {
        lemma_fields_of_plain_suffix(head.drop_last(), Seq::empty());
    }
    let fields = tab_fields(head);
    if tail.len() == 0 {
        assert(head + tail =~= head);
        assert(fields.last() + tail =~= fields.last());
        assert(fields.update(fields.len() - 1, fields.last()) =~= fields);
    } else {
        lemma_fields_of_plain_suffix(head, tail.drop_last());
        assert((head + tail).drop_last() =~= head + tail.drop_last());
        assert((fields.last() + tail.drop_last()).push(tail.last()) =~= fields.last() + tail);
        assert(tab_fields(head + tail) =~= fields.update(
            fields.len() - 1,
            fields.last() + tail,
        ));
    }
}

/// The text of a row whose name holds no tab splits on its tabs into three
/// fields: the name, the digits of the position, the digits of the depth.
pub proof fn lemma_row_text_fields(row: BedGraphView)
    requires
        !row.ref_seq.contains('\t'),
    ensures
        tab_fields(row_text(row)) == seq![
            row.ref_seq,
            decimal(row.pos as nat),
            decimal(row.depth as nat),
        ],
{
    let tab = seq!['\t'];
    let pos = decimal(row.pos as nat);
    let depth = decimal(row.depth as nat);
    lemma_decimal_round_trip(row.pos as nat);
    lemma_decimal_round_trip(row.depth as nat);
    assert forall|i: int| 0 <= i < pos.len() implies pos[i] != '\t' by {
        assert(is_digit(pos[i]));
    }
    assert forall|i: int| 0 <= i < depth.len() implies depth[i] != '\t' by {
        assert(is_digit(depth[i]));
    }
    assert forall|i: int| 0 <= i < row.ref_seq.len() implies row.ref_seq[i] != '\t' by {
        if row.ref_seq[i] == '\t' {
            assert(row.ref_seq.contains('\t'));
        }
    }
    let empty = Seq::<char>::empty();
    // the name
    lemma_fields_of_plain_suffix(empty, row.ref_seq);
    assert(empty + row.ref_seq =~= row.ref_seq);
    assert(tab_fields(row.ref_seq) =~= seq![row.ref_seq]);
    // the first tab and the position
    let one = row.ref_seq + tab;
    assert(one.drop_last() =~= row.ref_seq);
    assert(tab_fields(one) =~= seq![row.ref_seq, empty]);
    lemma_fields_of_plain_suffix(one, pos);
    assert(empty + pos =~= pos);
    assert(tab_fields(one + pos) =~= seq![row.ref_seq, pos]);
    // the second tab and the depth
    let two = one + pos + tab;
    assert(two.drop_last() =~= one + pos);
    assert(tab_fields(two) =~= seq![row.ref_seq, pos, empty]);
    lemma_fields_of_plain_suffix(two, depth);
    assert(empty + depth =~= depth);
    assert(row_text(row) =~= two + depth);
    assert(tab_fields(two + depth) =~= seq![row.ref_seq, pos, depth]);
}

impl BedGraph {
    /// The row as text: `ref_seq`, `pos` and `depth`, tab-separated.
    pub fn to_string(&self) -> (text: String)
        ensures
            text@ == row_text(self@),
    {
        proof {
            reveal_strlit("\t");
        }
        let mut text = self.ref_seq.clone();
        text.append("\t");
        push_decimal(&mut text, self.pos as u64);
        text.append("\t");
        push_decimal(&mut text, self.depth as u64);
        proof {
            assert("\t"@ =~= seq!['\t']);
            assert(text@ =~= row_text(self@));
        }
        text
    }
}

impl Default for BedGraph {
    fn default() -> (out: Self)
        ensures
            out@ == (BedGraphView { ref_seq: Seq::<char>::empty(), pos: 0, depth: 0 }),
    {
        BedGraph { ref_seq: String::new(), pos: 0, depth: 0 }
    }
}

impl Position for BedGraph {
    open spec fn spec_ref_seq(&self) -> Seq<char> {
        self.ref_seq@
    }

    open spec fn spec_pos(&self) -> u32 {
        self.pos
    }

    /// Create a new position for the given ref_seq name.
    fn new(ref_seq: String, pos: u32) -> (out: Self)
        ensures
            out.depth == 0,
    {
        BedGraph { ref_seq, pos, depth: 0 }
    }
}

/// Anything that implements ReadFilter can apply a filter set to read.
pub trait ReadFilter {
    /// The decision of the filter: it depends on nothing but the filter, the
    /// record and the context.
    spec fn accepts(&self, read: AlignmentRecordView, alignment: Option<AlignmentContext>) -> bool;

    /// filters a read, true is pass, false if fail
    fn filter_read(&self, read: &AlignmentRecord, alignment: Option<&AlignmentContext>) -> (pass:
        bool)
        ensures
            pass == self.accepts(
                read@,
                match alignment {
                    Some(a) => Some(*a),
                    None => None,
                },
            ),
    ;
}

/// A straightforward read filter.
pub struct DefaultReadFilter {
    include_flags: u16,
    exclude_flags: u16,
    min_mapq: u8,
}

/// The rule of the default filter: every bit of `required` is set in `flags`,
/// no bit of `forbidden` is, and the mapping quality reaches `min_mapq`.
pub open spec fn flags_pass(required: u16, forbidden: u16, min_mapq: u8, flags: u16, mapq: u8) -> bool {
    &&& flags & required == required
    &&& flags & forbidden == 0
    &&& mapq >= min_mapq
}

impl DefaultReadFilter {
    /// Bits that a read must have.
    pub closed spec fn include_flags(&self) -> u16 {
        self.include_flags
    }

    /// Bits that a read must not have.
    pub closed spec fn exclude_flags(&self) -> u16 {
        self.exclude_flags
    }

    /// Least mapping quality that a read must have.
    pub closed spec fn min_mapq(&self) -> u8 {
        self.min_mapq
    }

    /// Create a filter from the flag masks and the least mapping quality.
    pub fn new(include_flags: u16, exclude_flags: u16, min_mapq: u8) -> (out: Self)
        ensures
            out.include_flags() == include_flags,
            out.exclude_flags() == exclude_flags,
            out.min_mapq() == min_mapq,
    {
        Self { include_flags, exclude_flags, min_mapq }
    }
}

impl ReadFilter for DefaultReadFilter {
    open spec fn accepts(&self, read: AlignmentRecordView, alignment: Option<AlignmentContext>) -> bool {
        flags_pass(
            self.include_flags(),
            self.exclude_flags(),
            self.min_mapq(),
            read.flags,
            read.mapq,
        )
    }

    /// Filter reads based SAM flags and mapping quality
    #[inline(always)]
    fn filter_read(&self, read: &AlignmentRecord, _alignment: Option<&AlignmentContext>) -> (pass:
        bool) {
        let flags = read.flags();
        let required = self.include_flags;
        assert(((!flags) & required == 0) == (flags & required == required)) by (bit_vector);
        (!flags) & self.include_flags == 0 && flags & self.exclude_flags == 0 && read.mapq()
            >= self.min_mapq
    }
}

/// What stands in the way of the depth record at offset `i`, if anything:
/// its position does not fit the coordinate domain, or the running sum of
/// the difference array up to it is negative or too large for a depth.
pub open spec fn row_fault(counter: Seq<i128>, region_start: int, i: int) -> Option<DepthError> {
    if region_start + i > u32::MAX {
        Some(DepthError::CoordinateOutOfRange)
    } else if prefix_sum(counter, i + 1) < 0 {
        Some(DepthError::NegativeDepth)
    } else if prefix_sum(counter, i + 1) > u32::MAX {
        Some(DepthError::DepthOverflow)
    } else {
        None
    }
}

/// The depth record at offset `i` of a window that starts at `region_start`.
pub open spec fn depth_row(contig: Seq<char>, region_start: int, i: int, depth: int) -> BedGraphView {
    BedGraphView { ref_seq: contig, pos: (region_start + i) as u32, depth: depth as u32 }
}

/// The covered blocks of the records that the filter lets pass, record by
/// record in the order given.
pub open spec fn region_blocks<F: ReadFilter>(filter: &F, records: Seq<AlignmentRecordView>) -> Seq<
    Interval,
>
    decreases records.len(),
{
    if records.len() == 0 {
        Seq::empty()
    } else {
        let init = region_blocks(filter, records.drop_last());
        if filter.accepts(records.last(), None) {
            init + records.last().blocks()
        } else {
            init
        }
    }
}

/// Both ends of the interval fit the window's coordinate domain.
pub open spec fn block_in_domain(b: Interval) -> bool {
    in_window_domain(b.start) && in_window_domain(b.end)
}

/// Why the window `[start, stop)` has no depth records over `blocks`, if
/// it has none: the window is empty or reversed; else a block leaves the
/// coordinate domain; else a depth in the window does not fit its field.
pub open spec fn region_fault(blocks: Seq<Interval>, start: int, stop: int) -> Option<DepthError> {
    if start >= stop {
        Some(DepthError::InvalidRegion)
    } else if exists|k: int| 0 <= k < blocks.len() && !block_in_domain(#[trigger] blocks[k]) {
        Some(DepthError::CoordinateOutOfRange)
    } else if exists|p: int| start <= p < stop && #[trigger] depth_at(blocks, p) > u32::MAX {
        Some(DepthError::DepthOverflow)
    } else {
        None
    }
}

/// One more record appends its blocks, if the filter lets it pass.
pub proof fn lemma_region_blocks_step<F: ReadFilter>(
    filter: &F,
    records: Seq<AlignmentRecordView>,
    i: int,
)
    requires
        0 <= i < records.len(),
    ensures
        region_blocks(filter, records.take(i + 1)) == if filter.accepts(records[i], None) {
            region_blocks(filter, records.take(i)) + records[i].blocks()
        } else {
            region_blocks(filter, records.take(i))
        },
{
    assert(records.take(i + 1).drop_last() =~= records.take(i));
}

/// The blocks of the first records are a prefix of the blocks of all.
pub proof fn lemma_region_blocks_prefix<F: ReadFilter>(
    filter: &F,
    records: Seq<AlignmentRecordView>,
    i: int,
)
    requires
        0 <= i <= records.len(),
    ensures
        region_blocks(filter, records.take(i)).len() <= region_blocks(filter, records).len(),
        region_blocks(filter, records.take(i)) == region_blocks(filter, records).take(
            region_blocks(filter, records.take(i)).len() as int,
        ),
    decreases records.len() - i,
{
    let all = region_blocks(filter, records);
    if i == records.len() {
        assert(records.take(i) =~= records);
        assert(all.take(all.len() as int) =~= all);
    } else {
        lemma_region_blocks_prefix(filter, records, i + 1);
        lemma_region_blocks_step(filter, records, i);
        let next = region_blocks(filter, records.take(i + 1));
        let here = region_blocks(filter, records.take(i));
        assert(here =~= all.take(here.len() as int)) by {
            assert(next == all.take(next.len() as int));
            assert forall|k: int| 0 <= k < here.len() implies here[k] == all[k] by {
                assert(here[k] == next[k]);
                assert(next[k] == all.take(next.len() as int)[k]);
            }
        }
    }
}

/// The rows of a result as mathematical values.
pub open spec fn rows_view(rows: Seq<BedGraph>) -> Seq<BedGraphView> {
    rows.map_values(|row: BedGraph| row@)
}

/// What a depth query over `blocks` owes: the fault, where there is one;
/// else one row per position of `[start, stop)`, in ascending order, each
/// with the name `tid`, its position, and the number of blocks that cover it.
pub open spec fn is_region_result(
    out: Result<Vec<BedGraph>, DepthError>,
    blocks: Seq<Interval>,
    tid: Seq<char>,
    start: int,
    stop: int,
) -> bool {
    match out {
        Ok(rows) => {
            &&& region_fault(blocks, start, stop) is None
            &&& rows.len() == stop - start
            &&& forall|i: int|
                0 <= i < rows.len() ==> (#[trigger] rows[i])@ == depth_row(
                    tid,
                    start,
                    i,
                    depth_at(blocks, start + i) as int,
                )
        },
        Err(e) => region_fault(blocks, start, stop) == Some(e),
    }
}

/// A query has one answer: two results for the same blocks, name and
/// window are the same fault, or hold the same rows.
pub proof fn lemma_region_result_unique(
    first: Result<Vec<BedGraph>, DepthError>,
    second: Result<Vec<BedGraph>, DepthError>,
    blocks: Seq<Interval>,
    tid: Seq<char>,
    start: int,
    stop: int,
)
    requires
        is_region_result(first, blocks, tid, start, stop),
        is_region_result(second, blocks, tid, start, stop),
    ensures
        match (first, second) {
            (Ok(a), Ok(b)) => rows_view(a@) == rows_view(b@),
            (Err(a), Err(b)) => a == b,
            _ => false,
        },
{
    match (first, second) {
        (Ok(a), Ok(b)) => {
            assert(rows_view(a@) =~= rows_view(b@));
        },
        _ => {},
    }
}

/// No query fails for a negative depth, and none holds one: a depth is a
/// count of blocks.
pub proof fn lemma_depth_never_negative(blocks: Seq<Interval>, start: int, stop: int, p: int)
    ensures
        region_fault(blocks, start, stop) != Some(DepthError::NegativeDepth),
        depth_at(blocks, p) >= 0,
{
}

/// The blocks of a region with one record are the blocks of that record,
/// if the filter lets it pass, and none if not.
pub proof fn lemma_region_blocks_single<F: ReadFilter>(filter: &F, r: AlignmentRecordView)
    ensures
        region_blocks(filter, seq![r]) == if filter.accepts(r, None) {
            r.blocks()
        } else {
            Seq::<Interval>::empty()
        },
{
    let one = seq![r];
    assert(one.drop_last() =~= Seq::<AlignmentRecordView>::empty());
    assert(region_blocks(filter, one.drop_last()) =~= Seq::<Interval>::empty());
    assert(Seq::<Interval>::empty() + r.blocks() =~= r.blocks());
}

/// Whether one of the covered blocks of the read holds position `p`.
pub open spec fn read_covers(r: AlignmentRecordView, p: int) -> bool {
    exists|k: int| 0 <= k < r.blocks().len() && (#[trigger] r.blocks()[k]).covers(p)
}

/// Number of records that the filter lets pass and that cover position `p`.
pub open spec fn reads_covering<F: ReadFilter>(
    filter: &F,
    records: Seq<AlignmentRecordView>,
    p: int,
) -> nat
    decreases records.len(),
{
    if records.len() == 0 {
        0
    } else {
        reads_covering(filter, records.drop_last(), p) + if filter.accepts(records.last(), None)
            && read_covers(records.last(), p) {
            1nat
        } else {
            0nat
        }
    }
}

/// The depth at a position is the number of reads that cover it: the
/// blocks of one read never overlap, so counting blocks counts reads.
pub proof fn lemma_depth_counts_reads<F: ReadFilter>(
    filter: &F,
    records: Seq<AlignmentRecordView>,
    p: int,
)
    ensures
        depth_at(region_blocks(filter, records), p) == reads_covering(filter, records, p),
    decreases records.len(),
{
    if records.len() > 0 {
        let r = records.last();
        lemma_depth_counts_reads(filter, records.drop_last(), p);
        lemma_depth_concat(region_blocks(filter, records.drop_last()), r.blocks(), p);
        lemma_read_counts_once(r, p);
        lemma_depth_positive_iff_covered(r.blocks(), p);
    }
}

/// A read alone in the region, with one block-yielding operation and no
/// skip, whose block reaches from the left of the window to its right edge
/// or past either, gives depth 1 at every position of the window.
pub proof fn lemma_full_cover_uniform_depth<F: ReadFilter>(
    filter: &F,
    r: AlignmentRecordView,
    i: int,
    start: int,
    stop: int,
    p: int,
)
    requires
        filter.accepts(r, None),
        0 <= i < r.cigar.len(),
        r.cigar[i].emits_block(),
        forall|j: int| 0 <= j < r.cigar.len() && j != i ==> !r.cigar[j].consumes_reference(),
        r.ref_start <= start,
        stop <= r.ref_start + r.cigar[i].len(),
        start <= p < stop,
    ensures
        depth_at(region_blocks(filter, seq![r]), p) == 1,
{
    lemma_region_blocks_single(filter, r);
    lemma_single_block_read(r, i, p);
}

/// Where a read alone in the region skips the reference, the depth is 0,
/// though the read starts before the span and ends after it.
pub proof fn lemma_skipped_span_has_no_depth<F: ReadFilter>(
    filter: &F,
    r: AlignmentRecordView,
    i: int,
    p: int,
)
    requires
        0 <= i < r.cigar.len(),
        r.cigar[i] is RefSkip,
        op_start(r.ref_start, r.cigar, i) <= p < op_start(r.ref_start, r.cigar, i)
            + r.cigar[i].len(),
    ensures
        depth_at(region_blocks(filter, seq![r]), p) == 0,
{
    lemma_region_blocks_single(filter, r);
    lemma_skip_is_uncovered(r, i, p);
}

/// Computes the depth of a region from the records fetched for it.
pub struct DepthProcessor<F: ReadFilter + Send> {
    /// path to indexed BAM/CRAM
    pub reads: PathBuf,
    /// implementation of [ReadFilter] that will be used
    pub read_filter: F,
}

impl<F: ReadFilter + Send> DepthProcessor<F> {
    /// Create a new processor
    pub fn new(reads: PathBuf, read_filter: F) -> (out: Self)
        ensures
            out.reads == reads,
            out.read_filter == read_filter,
    {
        Self { reads, read_filter }
    }

    /// Sum the counts within the region to get the depths at each position:
    /// the record at offset `i` holds the sum of the first `i + 1` counts.
    /// Fails with the first fault met, going from the left.
    pub fn sum_counter(&self, counter: Vec<i128>, contig: &str, region_start: u32) -> (out: Result<
        Vec<BedGraph>,
        DepthError,
    >)
        ensures
            match out {
                Ok(rows) => {
                    &&& rows.len() == counter.len()
                    &&& forall|i: int|
                        0 <= i < counter.len() ==> row_fault(counter@, region_start as int, i)
                            is None
                    &&& forall|i: int|
                        0 <= i < rows.len() ==> (#[trigger] rows[i])@ == depth_row(
                            contig@,
                            region_start as int,
                            i,
                            prefix_sum(counter@, i + 1),
                        )
                },
                Err(e) => exists|i: int|
                    {
                        &&& 0 <= i < counter.len()
                        &&& #[trigger] row_fault(counter@, region_start as int, i) == Some(e)
                        &&& forall|k: int|
                            0 <= k < i ==> row_fault(counter@, region_start as int, k) is None
                    },
            },
    {
        let mut sum: i128 = 0;
        let mut results: Vec<BedGraph> = Vec::new();
        let mut i: usize = 0;
        while i < counter.len()
            invariant
                0 <= i <= counter.len(),
                results.len() == i,
                sum == prefix_sum(counter@, i as int),
                0 <= sum <= u32::MAX,
                forall|k: int| 0 <= k < i ==> row_fault(counter@, region_start as int, k) is None,
                forall|k: int|
                    0 <= k < i ==> (#[trigger] results[k])@ == depth_row(
                        contig@,
                        region_start as int,
                        k,
                        prefix_sum(counter@, k + 1),
                    ),
            decreases counter.len() - i,
        {
            let count = counter[i];
            if i > (u32::MAX - region_start) as usize {
                assert(row_fault(counter@, region_start as int, i as int) == Some(
                    DepthError::CoordinateOutOfRange,
                ));
                return Err(DepthError::CoordinateOutOfRange);
            }
            let total: i128 = match sum.checked_add(count) {
                Some(t) => t,
                None => {
                    assert(row_fault(counter@, region_start as int, i as int) == Some(
                        DepthError::DepthOverflow,
                    ));
                    return Err(DepthError::DepthOverflow);
                },
            };
            if total < 0 {
                assert(row_fault(counter@, region_start as int, i as int) == Some(
                    DepthError::NegativeDepth,
                ));
                return Err(DepthError::NegativeDepth);
            }
            let depth: u32 = match u32::try_from(total) {
                Ok(d) => d,
                Err(_) => {
                    assert(row_fault(counter@, region_start as int, i as int) == Some(
                        DepthError::DepthOverflow,
                    ));
                    return Err(DepthError::DepthOverflow);
                },
            };
            sum = total;
            let mut pos = BedGraph::new(contig.to_owned(), region_start + i as u32);
            pos.depth = depth;
            results.push(pos);
            i = i + 1;
        }
        Ok(results)
    }

    /// Process a region, taking into account REF_SKIPs: from the records
    /// fetched for `[start, stop)` on `tid`, one depth record per position,
    /// in ascending order. The depth at a position is the number of covered
    /// blocks, of the records that the filter lets pass, that hold it.
    pub fn process_region(
        &self,
        records: &Vec<AlignmentRecord>,
        tid: &str,
        start: u32,
        stop: u32,
    ) -> (out: Result<Vec<BedGraph>, DepthError>)
        ensures
            is_region_result(
                out,
                region_blocks(&self.read_filter, records.deep_view()),
                tid@,
                start as int,
                stop as int,
            ),
    {
        let mut acc = match DepthAccumulator::new(start, stop) {
            Ok(acc) => acc,
            Err(e) => {
                return Err(e);
            },
        };
        let ghost all = records.deep_view();
        let ghost whole = region_blocks(&self.read_filter, all);
        // Walk over each read, counting the starts and ends
        let mut ri: usize = 0;
        while ri < records.len()
            invariant
                0 <= ri <= records.len(),
                all == records.deep_view(),
                whole == region_blocks(&self.read_filter, all),
                start < stop,
                acc.wf(),
                acc.start() == start,
                acc.stop() == stop,
                acc.blocks() == region_blocks(&self.read_filter, all.take(ri as int)),
                acc.blocks().len() <= ri * MAX_CIGAR_OPS,
                forall|k: int|
                    0 <= k < acc.blocks().len() ==> block_in_domain(#[trigger] acc.blocks()[k]),
            decreases records.len() - ri,
        {
            let record = &records[ri];
            proof {
                use_type_invariant(record);
                assert(all[ri as int] == record@);
                lemma_region_blocks_step(&self.read_filter, all, ri as int);
                lemma_region_blocks_prefix(&self.read_filter, all, ri as int + 1);
                lemma_blocks_bounds(record@.ref_start, record@.cigar);
            }
            if self.read_filter.filter_read(record, None) {
                let ghost before = acc.blocks();
                let mut it = IterAlignedBlocks::new(record);
                loop
                    invariant
                        0 <= ri < records.len(),
                        record@.in_domain(),
                        whole == region_blocks(&self.read_filter, records.deep_view()),
                        start < stop,
                        acc.wf(),
                        acc.start() == start,
                        acc.stop() == stop,
                        it.record() == record@,
                        it.yielded() <= record@.blocks().len(),
                        record@.blocks().len() <= MAX_CIGAR_OPS,
                        forall|k: int|
                            0 <= k < record@.blocks().len() ==> (#[trigger] record@.blocks()[k]).start
                                <= record@.blocks()[k].end,
                        before.len() <= ri * MAX_CIGAR_OPS,
                        acc.blocks() == before + record@.blocks().take(it.yielded() as int),
                        before + record@.blocks() == whole.take(
                            (before + record@.blocks()).len() as int,
                        ),
                        (before + record@.blocks()).len() <= whole.len(),
                        forall|k: int|
                            0 <= k < acc.blocks().len() ==> block_in_domain(
                                #[trigger] acc.blocks()[k],
                            ),
                    ensures
                        acc.blocks() == before + record@.blocks(),
                    decreases record@.blocks().len() - it.yielded(),
                {
                    let ghost taken = it.yielded() as int;
                    match it.next() {
                        Some(block) => {
                            proof {
                                assert(record@.blocks().take(taken + 1) =~= record@.blocks().take(
                                    taken,
                                ).push(record@.blocks()[taken]));
                                assert(before + record@.blocks().take(taken + 1) =~= (before
                                    + record@.blocks().take(taken)).push(record@.blocks()[taken]));
                            }
                            match acc.add_block(block.start, block.end) {
                                Ok(()) => {},
                                Err(e) => {
                                    proof {
                                        let k = before.len() + taken;
                                        assert(whole.take(
                                            (before + record@.blocks()).len() as int,
                                        )[k] == whole[k]);
                                        assert((before + record@.blocks())[k]
                                            == record@.blocks()[taken]);
                                        assert(whole[k] == block.interval());
                                        assert(!block_in_domain(whole[k]));
                                    }
                                    return Err(e);
                                },
                            }
                        },
                        None => {
                            proof {
                                assert(record@.blocks().take(taken) =~= record@.blocks());
                            }
                            break ;
                        },
                    }
                }
            }
            ri = ri + 1;
        }
        proof {
            assert(all.take(ri as int) =~= all);
        }
        // Sum the counter
        let counter = acc.into_counter();
        let out = self.sum_counter(counter, tid, start);
        proof {
            assert forall|i: int| 0 <= i < counter.len() implies #[trigger] prefix_sum(
                counter@,
                i + 1,
            ) == depth_at(whole, start + i) by {}
            match &out {
                Ok(_) => {
                    assert forall|p: int| start <= p < stop implies depth_at(whole, p)
                        <= u32::MAX by {
                        assert(row_fault(counter@, start as int, p - start) is None);
                        assert(prefix_sum(counter@, p - start + 1) == depth_at(whole, start + (p - start)));
                    }
                },
                Err(e) => {
                    let i = choose|i: int|
                        0 <= i < counter.len() && #[trigger] row_fault(counter@, start as int, i)
                            == Some(*e);
                    assert(prefix_sum(counter@, i + 1) == depth_at(whole, start + i));
                    assert(depth_at(whole, start + i) > u32::MAX);
                },
            }
        }
        out
    }
}

} // verus!
