//! Alignment records as plain values: the reference start, the operation
//! list, the flag bits, the mapping quality and the read name.

use vstd::prelude::*;

verus! {

/// One alignment operation and its length.
#[derive(Clone, Copy, Debug, PartialEq, Eq, Structural)]
pub enum CigarOp {
    Match(u32),
    Ins(u32),
    Del(u32),
    RefSkip(u32),
    SoftClip(u32),
    HardClip(u32),
    Pad(u32),
    Equal(u32),
    Diff(u32),
}

impl CigarOp {
    /// The length that the operation carries.
    pub open spec fn len(self) -> int {
        match self {
            CigarOp::Match(n) => n as int,
            CigarOp::Ins(n) => n as int,
            CigarOp::Del(n) => n as int,
            CigarOp::RefSkip(n) => n as int,
            CigarOp::SoftClip(n) => n as int,
            CigarOp::HardClip(n) => n as int,
            CigarOp::Pad(n) => n as int,
            CigarOp::Equal(n) => n as int,
            CigarOp::Diff(n) => n as int,
        }
    }

    /// Whether the operation yields a covered block on the reference:
    /// match, sequence match, mismatch and deletion do.
    pub open spec fn emits_block(self) -> bool {
        self is Match || self is Equal || self is Diff || self is Del
    }

    /// Whether the operation advances the reference cursor: the ones that
    /// yield a block, and the reference skip.
    pub open spec fn consumes_reference(self) -> bool {
        self.emits_block() || self is RefSkip
    }

    /// Number of reference positions that the operation advances the cursor by.
    pub open spec fn ref_len(self) -> int {
        if self.consumes_reference() {
            self.len()
        } else {
            0
        }
    }
}

/// Reference positions consumed by a whole operation list.
pub open spec fn ref_span(ops: Seq<CigarOp>) -> int
    decreases ops.len(),
{
    if ops.len() == 0 {
        0
    } else {
        ref_span(ops.drop_last()) + ops.last().ref_len()
    }
}

/// The reference cursor in front of operation `i` of an alignment that
/// starts at `ref_start`.
pub open spec fn op_start(ref_start: int, ops: Seq<CigarOp>, i: int) -> int {
    ref_start + ref_span(ops.take(i))
}

/// Longest operation list that a record can carry.
pub const MAX_CIGAR_OPS: usize = 0xffff_ffff;

/// What a record holds, as mathematical values.
pub struct AlignmentRecordView {
    pub ref_start: int,
    pub cigar: Seq<CigarOp>,
    pub flags: u16,
    pub mapq: u8,
    pub qname: Seq<char>,
}

impl AlignmentRecordView {
    /// The alignment stays inside the signed 64-bit coordinate domain and
    /// its operation list has a length that an alignment file can store.
    pub open spec fn in_domain(self) -> bool {
        &&& self.cigar.len() <= MAX_CIGAR_OPS
        &&& i64::MIN <= self.ref_start
        &&& self.ref_start + ref_span(self.cigar) <= i64::MAX
    }
}

/// A read-only alignment record.
pub struct AlignmentRecord {
    ref_start: i64,
    cigar: Vec<CigarOp>,
    flags: u16,
    mapq: u8,
    qname: String,
}

impl View for AlignmentRecord {
    type V = AlignmentRecordView;

    closed spec fn view(&self) -> AlignmentRecordView {
        AlignmentRecordView {
            ref_start: self.ref_start as int,
            cigar: self.cigar@,
            flags: self.flags,
            mapq: self.mapq,
            qname: self.qname@,
        }
    }
}

impl DeepView for AlignmentRecord {
    type V = AlignmentRecordView;

    open spec fn deep_view(&self) -> AlignmentRecordView {
        self.view()
    }
}

/// Where one read stands in one column of a pileup, for filters that look
/// at single bases.
#[derive(Clone, Copy, Debug)]
pub struct AlignmentContext {
    /// Position in the read, unless the column falls in a deletion or skip.
    pub qpos: Option<usize>,
    /// The column falls in a deletion of the read.
    pub is_del: bool,
    /// The column falls in a reference skip of the read.
    pub is_refskip: bool,
    /// The column is the first of the read.
    pub is_head: bool,
    /// The column is the last of the read.
    pub is_tail: bool,
}

/// `ref_span` never shrinks when the list grows, and is never negative.
pub proof fn lemma_ref_span_monotone(ops: Seq<CigarOp>, i: int, j: int)
    requires
        0 <= i <= j <= ops.len(),
    ensures
        0 <= ref_span(ops.take(i)) <= ref_span(ops.take(j)),
    decreases j,
{
    if i == 0 {
        assert(ops.take(0).len() == 0);
    }
    if j > i {
        lemma_ref_span_monotone(ops, i, j - 1);
        assert(ops.take(j).drop_last() =~= ops.take(j - 1));
    } else if i > 0 {
        lemma_ref_span_monotone(ops, i - 1, i - 1);
        assert(ops.take(i).drop_last() =~= ops.take(i - 1));
    }
}

/// One step of the cursor: the operation at `i` moves it by its `ref_len`.
pub proof fn lemma_ref_span_step(ops: Seq<CigarOp>, i: int)
    requires
        0 <= i < ops.len(),
    ensures
        ref_span(ops.take(i + 1)) == ref_span(ops.take(i)) + ops[i].ref_len(),
{
    assert(ops.take(i + 1).drop_last() =~= ops.take(i));
}

impl AlignmentRecord {
    /// Holds of every record: see `AlignmentRecordView::in_domain`.
    #[verifier::type_invariant]
    pub open spec fn inv(&self) -> bool {
        self@.in_domain()
    }

    /// Builds a record. `None` exactly when the alignment would leave the
    /// coordinate domain or the operation list is longer than a file can
    /// store.
    pub fn new(ref_start: i64, cigar: Vec<CigarOp>, flags: u16, mapq: u8, qname: String) -> (out:
        Option<Self>)
        ensures
            match out {
                Some(r) => r@ == (AlignmentRecordView {
                    ref_start: ref_start as int,
                    cigar: cigar@,
                    flags,
                    mapq,
                    qname: qname@,
                }) && r@.in_domain(),
                None => !(AlignmentRecordView {
                    ref_start: ref_start as int,
                    cigar: cigar@,
                    flags,
                    mapq,
                    qname: qname@,
                }).in_domain(),
            },
    {
        if cigar.len() > MAX_CIGAR_OPS {
            return None;
        }
        let mut pos: i64 = ref_start;
        let mut i: usize = 0;
        while i < cigar.len()
            invariant
                0 <= i <= cigar.len(),
                pos == ref_start + ref_span(cigar@.take(i as int)),
            decreases cigar.len() - i,
        {
            let step: u32 = match cigar[i] {
                CigarOp::Match(n) | CigarOp::Equal(n) | CigarOp::Diff(n) | CigarOp::Del(n)
                | CigarOp::RefSkip(n) => n,
                _ => 0,
            };
            proof {
                lemma_ref_span_step(cigar@, i as int);
                lemma_ref_span_monotone(cigar@, i as int + 1, cigar@.len() as int);
                assert(cigar@.take(cigar@.len() as int) =~= cigar@);
            }
            match pos.checked_add(step as i64) {
                Some(next) => {
                    pos = next;
                },
                None => {
                    return None;
                },
            }
            i = i + 1;
        }
        proof {
            assert(cigar@.take(cigar@.len() as int) =~= cigar@);
        }
        Some(AlignmentRecord { ref_start, cigar, flags, mapq, qname })
    }

    /// 0-based reference coordinate of the first aligned position.
    pub fn reference_start(&self) -> (pos: i64)
        ensures
            pos == self@.ref_start,
    {
        self.ref_start
    }

    /// The operation list.
    pub fn cigar(&self) -> (ops: &Vec<CigarOp>)
        ensures
            ops@ == self@.cigar,
    {
        &self.cigar
    }

    /// The raw flag bits.
    pub fn flags(&self) -> (f: u16)
        ensures
            f == self@.flags,
    {
        self.flags
    }

    /// The mapping quality.
    pub fn mapq(&self) -> (q: u8)
        ensures
            q == self@.mapq,
    {
        self.mapq
    }

    /// The read name.
    pub fn qname(&self) -> (name: &String)
        ensures
            name@ == self@.qname,
    {
        &self.qname
    }
}

} // verus!
