use std::path::PathBuf;
use tcov::blocks::IterAlignedBlocks;
use tcov::cov::{BedGraph, DefaultReadFilter, DepthProcessor, Position, ReadFilter};
use tcov::depth::{DepthAccumulator, DepthError};
use tcov::record::{AlignmentRecord, CigarOp};
use tcov::region::Region;

fn read(start: i64, cigar: Vec<CigarOp>, flags: u16, mapq: u8, name: &str) -> AlignmentRecord {
    AlignmentRecord::new(start, cigar, flags, mapq, name.to_string()).unwrap()
}

fn processor(include_flags: u16, exclude_flags: u16, min_mapq: u8) -> DepthProcessor<DefaultReadFilter> {
    DepthProcessor::new(
        PathBuf::from("reads.bam"),
        DefaultReadFilter::new(include_flags, exclude_flags, min_mapq),
    )
}

fn depths(rows: &[BedGraph]) -> Vec<u32> {
    rows.iter().map(|r| r.depth).collect()
}

#[test]
fn two_reads_over_a_window() {
    let a = read(95, vec![CigarOp::Match(10)], 0, 60, "A");
    let b = read(102, vec![CigarOp::Match(18)], 0, 60, "B");
    let rows = processor(0, 0, 0).process_region(&vec![a, b], "chr1", 100, 110).unwrap();
    // A holds 100..=104, B holds 102..=109: both hold 102..=104.
    assert_eq!(depths(&rows), vec![1, 1, 2, 2, 2, 1, 1, 1, 1, 1]);
}

#[test]
fn one_row_per_position_in_ascending_order() {
    let a = read(95, vec![CigarOp::Match(10)], 0, 60, "A");
    let rows = processor(0, 0, 0).process_region(&vec![a], "chr7", 100, 110).unwrap();
    assert_eq!(rows.len(), 10);
    for (i, row) in rows.iter().enumerate() {
        assert_eq!(row.pos, 100 + i as u32);
        assert_eq!(row.ref_seq, "chr7");
    }
}

#[test]
fn no_reads_give_zero_depth() {
    let rows = processor(0, 0, 0).process_region(&vec![], "chr1", 5, 9).unwrap();
    assert_eq!(depths(&rows), vec![0, 0, 0, 0]);
}

#[test]
fn full_cover_gives_uniform_depth_one() {
    let a = read(90, vec![CigarOp::SoftClip(3), CigarOp::Match(40), CigarOp::HardClip(2)], 0, 0, "A");
    let rows = processor(0, 0, 0).process_region(&vec![a], "chr1", 100, 110).unwrap();
    assert_eq!(depths(&rows), vec![1; 10]);
}

#[test]
fn skipped_span_has_depth_zero() {
    // 100..103 covered, 103..107 skipped, 107..110 covered
    let a = read(100, vec![CigarOp::Match(3), CigarOp::RefSkip(4), CigarOp::Match(3)], 0, 0, "A");
    let rows = processor(0, 0, 0).process_region(&vec![a], "chr1", 100, 110).unwrap();
    assert_eq!(depths(&rows), vec![1, 1, 1, 0, 0, 0, 0, 1, 1, 1]);
}

#[test]
fn deletion_counts_as_covered() {
    let a = read(100, vec![CigarOp::Equal(2), CigarOp::Del(3), CigarOp::Diff(1), CigarOp::Ins(7), CigarOp::Pad(4)], 0, 0, "A");
    let rows = processor(0, 0, 0).process_region(&vec![a], "chr1", 98, 108).unwrap();
    assert_eq!(depths(&rows), vec![0, 0, 1, 1, 1, 1, 1, 1, 0, 0]);
}

#[test]
fn block_starting_before_the_window_counts_from_its_start() {
    let a = read(90, vec![CigarOp::Match(13)], 0, 0, "A");
    let rows = processor(0, 0, 0).process_region(&vec![a], "chr1", 100, 106).unwrap();
    assert_eq!(depths(&rows), vec![1, 1, 1, 0, 0, 0]);
}

#[test]
fn block_reaching_the_right_edge_counts_to_the_last_position() {
    let exact = read(103, vec![CigarOp::Match(3)], 0, 0, "exact");
    let past = read(104, vec![CigarOp::Match(30)], 0, 0, "past");
    let rows = processor(0, 0, 0).process_region(&vec![exact, past], "chr1", 100, 106).unwrap();
    assert_eq!(depths(&rows), vec![0, 0, 0, 1, 2, 2]);
}

#[test]
fn blocks_outside_the_window_are_ignored() {
    let before = read(10, vec![CigarOp::Match(90)], 0, 0, "before");
    let after = read(106, vec![CigarOp::Match(5)], 0, 0, "after");
    let rows = processor(0, 0, 0).process_region(&vec![before, after], "chr1", 100, 106).unwrap();
    assert_eq!(depths(&rows), vec![0; 6]);
}

#[test]
fn filter_example() {
    let filter = DefaultReadFilter::new(0x2, 0x400, 0);
    assert!(filter.filter_read(&read(0, vec![], 0x2, 0, "r"), None));
    assert!(!filter.filter_read(&read(0, vec![], 0x402, 0, "r"), None));
    assert!(!filter.filter_read(&read(0, vec![], 0x0, 0, "r"), None));
}

#[test]
fn filter_needs_every_required_bit() {
    let filter = DefaultReadFilter::new(0x3, 0, 0);
    assert!(!filter.filter_read(&read(0, vec![], 0x1, 0, "r"), None));
    assert!(!filter.filter_read(&read(0, vec![], 0x2, 0, "r"), None));
    assert!(filter.filter_read(&read(0, vec![], 0x13, 0, "r"), None));
}

#[test]
fn filter_mapping_quality_threshold() {
    let filter = DefaultReadFilter::new(0, 0, 20);
    assert!(!filter.filter_read(&read(0, vec![], 0, 19, "r"), None));
    assert!(filter.filter_read(&read(0, vec![], 0, 20, "r"), None));
    assert!(filter.filter_read(&read(0, vec![], 0, 255, "r"), None));
}

#[test]
fn filtered_reads_add_no_depth() {
    let kept = read(100, vec![CigarOp::Match(5)], 0x2, 30, "kept");
    let duplicate = read(100, vec![CigarOp::Match(5)], 0x402, 30, "dup");
    let low = read(100, vec![CigarOp::Match(5)], 0x2, 3, "low");
    let rows = processor(0x2, 0x400, 10)
        .process_region(&vec![kept, duplicate, low], "chr1", 100, 105)
        .unwrap();
    assert_eq!(depths(&rows), vec![1; 5]);
}

#[test]
fn empty_or_reversed_window_is_refused() {
    let p = processor(0, 0, 0);
    assert_eq!(p.process_region(&vec![], "chr1", 10, 10).unwrap_err(), DepthError::InvalidRegion);
    assert_eq!(p.process_region(&vec![], "chr1", 11, 10).unwrap_err(), DepthError::InvalidRegion);
}

#[test]
fn negative_coordinate_is_refused() {
    let a = read(-5, vec![CigarOp::Match(10)], 0, 0, "A");
    let out = processor(0, 0, 0).process_region(&vec![a], "chr1", 0, 10);
    assert_eq!(out.unwrap_err(), DepthError::CoordinateOutOfRange);
}

#[test]
fn coordinate_past_u32_is_refused() {
    let a = read(4_294_967_290, vec![CigarOp::Match(10)], 0, 0, "A");
    let out = processor(0, 0, 0).process_region(&vec![a], "chr1", 0, 10);
    assert_eq!(out.unwrap_err(), DepthError::CoordinateOutOfRange);
}

#[test]
fn filtered_read_with_bad_coordinates_is_no_fault() {
    let a = read(-5, vec![CigarOp::Match(10)], 0x400, 0, "A");
    let rows = processor(0, 0x400, 0).process_region(&vec![a], "chr1", 0, 3).unwrap();
    assert_eq!(depths(&rows), vec![0, 0, 0]);
}

#[test]
fn running_twice_gives_the_same_rows() {
    let reads = vec![
        read(95, vec![CigarOp::Match(10)], 0, 60, "A"),
        read(102, vec![CigarOp::Match(2), CigarOp::RefSkip(2), CigarOp::Match(9)], 0, 60, "B"),
    ];
    let p = processor(0, 0, 0);
    let first: Vec<String> = p.process_region(&reads, "chr1", 100, 110).unwrap().iter().map(|r| r.to_string()).collect();
    let second: Vec<String> = p.process_region(&reads, "chr1", 100, 110).unwrap().iter().map(|r| r.to_string()).collect();
    assert_eq!(first, second);
    assert_eq!(first[0], "chr1\t100\t1");
    assert_eq!(first[9], "chr1\t109\t1");
}

#[test]
fn record_out_of_the_coordinate_domain_is_not_built() {
    assert!(AlignmentRecord::new(i64::MAX - 3, vec![CigarOp::Match(4)], 0, 0, String::new()).is_none());
    assert!(AlignmentRecord::new(i64::MAX - 3, vec![CigarOp::RefSkip(2), CigarOp::Del(2)], 0, 0, String::new()).is_none());
    assert!(AlignmentRecord::new(i64::MAX - 3, vec![CigarOp::Match(3)], 0, 0, String::new()).is_some());
    assert!(AlignmentRecord::new(i64::MAX, vec![CigarOp::Ins(9), CigarOp::SoftClip(9)], 0, 0, String::new()).is_some());
}

#[test]
fn record_getters_hand_back_what_was_given() {
    let r = read(7, vec![CigarOp::Match(3), CigarOp::Ins(1)], 0x63, 42, "read/1");
    assert_eq!(r.reference_start(), 7);
    assert_eq!(r.cigar(), &vec![CigarOp::Match(3), CigarOp::Ins(1)]);
    assert_eq!(r.flags(), 0x63);
    assert_eq!(r.mapq(), 42);
    assert_eq!(r.qname(), "read/1");
}

#[test]
fn extractor_yields_blocks_in_order() {
    let r = read(
        100,
        vec![
            CigarOp::SoftClip(5),
            CigarOp::Match(10),
            CigarOp::Ins(2),
            CigarOp::Del(3),
            CigarOp::RefSkip(100),
            CigarOp::Equal(4),
            CigarOp::Diff(1),
            CigarOp::HardClip(8),
        ],
        0,
        0,
        "q1",
    );
    let mut it = IterAlignedBlocks::new(&r);
    let mut got = Vec::new();
    while let Some(b) = it.next() {
        assert!(!b.is_overlapping_mate);
        assert_eq!(b.read_id, "q1");
        got.push((b.start, b.end));
    }
    assert_eq!(got, vec![(100, 110), (110, 113), (213, 217), (217, 218)]);
    assert!(it.next().is_none());
    assert!(it.next().is_none());
}

#[test]
fn extractor_of_a_read_without_blocks_is_empty() {
    let r = read(5, vec![CigarOp::SoftClip(3), CigarOp::RefSkip(4), CigarOp::Pad(1)], 0, 0, "q");
    let mut it = IterAlignedBlocks::new(&r);
    assert!(it.next().is_none());
}

#[test]
fn accumulator_clips_at_both_edges() {
    let mut acc = DepthAccumulator::new(100, 105).unwrap();
    acc.add_block(90, 102).unwrap();
    acc.add_block(103, 200).unwrap();
    acc.add_block(0, 100).unwrap();
    acc.add_block(105, 110).unwrap();
    acc.add_block(101, 101).unwrap();
    assert_eq!(acc.into_counter(), vec![1, 0, -1, 1, 0]);
}

#[test]
fn accumulator_refuses_an_empty_window() {
    assert_eq!(DepthAccumulator::new(5, 5).err(), Some(DepthError::InvalidRegion));
    assert_eq!(DepthAccumulator::new(6, 5).err(), Some(DepthError::InvalidRegion));
}

#[test]
fn accumulator_refuses_coordinates_out_of_range() {
    let mut acc = DepthAccumulator::new(0, 4).unwrap();
    assert_eq!(acc.add_block(-1, 3), Err(DepthError::CoordinateOutOfRange));
    assert_eq!(acc.add_block(1, 4_294_967_296), Err(DepthError::CoordinateOutOfRange));
    acc.add_block(1, 4_294_967_295).unwrap();
    assert_eq!(acc.into_counter(), vec![0, 1, 0, 0]);
}

#[test]
fn sum_counter_gives_running_sums() {
    let rows = processor(0, 0, 0).sum_counter(vec![2, 0, -1, 3], "c", 7).unwrap();
    assert_eq!(depths(&rows), vec![2, 2, 1, 4]);
    assert_eq!(rows[3].pos, 10);
    assert_eq!(rows[3].ref_seq, "c");
}

#[test]
fn sum_counter_fails_on_negative_depth() {
    let out = processor(0, 0, 0).sum_counter(vec![1, -2, 5], "c", 0);
    assert_eq!(out.unwrap_err(), DepthError::NegativeDepth);
}

#[test]
fn sum_counter_fails_on_depth_past_u32() {
    let p = processor(0, 0, 0);
    assert_eq!(p.sum_counter(vec![4_294_967_295, 1], "c", 0).unwrap_err(), DepthError::DepthOverflow);
    assert_eq!(p.sum_counter(vec![1, i128::MAX], "c", 0).unwrap_err(), DepthError::DepthOverflow);
    let rows = p.sum_counter(vec![4_294_967_295, 0], "c", 0).unwrap();
    assert_eq!(depths(&rows), vec![4_294_967_295, 4_294_967_295]);
}

#[test]
fn sum_counter_fails_on_position_past_u32() {
    let p = processor(0, 0, 0);
    assert_eq!(p.sum_counter(vec![0, 0], "c", u32::MAX).unwrap_err(), DepthError::CoordinateOutOfRange);
    assert_eq!(p.sum_counter(vec![0], "c", u32::MAX).unwrap().len(), 1);
}

#[test]
fn sum_counter_reports_the_leftmost_fault() {
    let p = processor(0, 0, 0);
    assert_eq!(p.sum_counter(vec![-1, 5_000_000_000], "c", 0).unwrap_err(), DepthError::NegativeDepth);
    assert_eq!(p.sum_counter(vec![5_000_000_000, -6_000_000_000], "c", 0).unwrap_err(), DepthError::DepthOverflow);
}

#[test]
fn new_position_has_depth_zero() {
    let p = <BedGraph as Position>::new("chr2".to_string(), 17);
    assert_eq!(p.ref_seq, "chr2");
    assert_eq!(p.pos, 17);
    assert_eq!(p.depth, 0);
    let d = BedGraph::default();
    assert_eq!((d.ref_seq.as_str(), d.pos, d.depth), ("", 0, 0));
}

#[test]
fn row_text_is_tab_separated() {
    let row = BedGraph { ref_seq: "chrX".to_string(), pos: 1234567, depth: 0 };
    assert_eq!(row.to_string(), "chrX\t1234567\t0");
    let parts: Vec<String> = row.to_string().split('\t').map(|s| s.to_string()).collect();
    assert_eq!(parts, vec!["chrX", "1234567", "0"]);
    let big = BedGraph { ref_seq: String::new(), pos: u32::MAX, depth: 10 };
    assert_eq!(big.to_string(), "\t4294967295\t10");
}

#[test]
fn region_text_to_depth_rows() {
    let region = Region::parse("chr1:100-110").unwrap();
    let a = read(95, vec![CigarOp::Match(10)], 0, 60, "A");
    let b = read(102, vec![CigarOp::Match(18)], 0, 60, "B");
    let rows = processor(0, 0, 0)
        .process_region(&vec![a, b], region.contig(), region.start(), region.stop())
        .unwrap();
    assert_eq!(rows.len() as u32, region.len());
    let text: Vec<String> = rows.iter().map(|r| r.to_string()).collect();
    assert_eq!(
        text,
        vec![
            "chr1\t100\t1",
            "chr1\t101\t1",
            "chr1\t102\t2",
            "chr1\t103\t2",
            "chr1\t104\t2",
            "chr1\t105\t1",
            "chr1\t106\t1",
            "chr1\t107\t1",
            "chr1\t108\t1",
            "chr1\t109\t1",
        ]
    );
}
