use cassette_reannotation::annot::{AnnotationGraph, FeatureRow};
use cassette_reannotation::assemble::{cov_parts, header_fields, make_row, rpkm_parts};
use cassette_reannotation::cigar::{cigar2exons, CigarOp, Span};
use cassette_reannotation::coverage::{
    interval_coverage, overlap_len, strand_matches, ReadRec, SourceReads,
};
use cassette_reannotation::extract::{extract_exons, group_exons, TypeFilter};
use cassette_reannotation::intervals::{merge_exons, sort_exons_by_start, Exon};
use cassette_reannotation::rows::{row_before, sort_rows, Row};

fn s(x: &str) -> String {
    x.to_string()
}

#[test]
fn cigar_single_match() {
    let ops = vec![CigarOp::Match(5)];
    let exons = cigar2exons(&ops, 100);
    assert_eq!(exons, vec![Span { start: 100, end: 105 }]);
}

#[test]
fn cigar_match_del_match() {
    let ops = vec![CigarOp::Match(3), CigarOp::Del(2), CigarOp::Match(4)];
    let exons = cigar2exons(&ops, 0);
    assert_eq!(
        exons,
        vec![Span { start: 0, end: 3 }, Span { start: 5, end: 9 }]
    );
}

#[test]
fn cigar_softclip_does_not_advance() {
    let ops = vec![CigarOp::SoftClip(10), CigarOp::Match(5)];
    let exons = cigar2exons(&ops, 0);
    assert_eq!(exons, vec![Span { start: 0, end: 5 }]);
}

#[test]
fn cigar_equal_and_diff_emit_ranges() {
    let ops = vec![CigarOp::Equal(3), CigarOp::RefSkip(7), CigarOp::Diff(2)];
    let exons = cigar2exons(&ops, 10);
    assert_eq!(
        exons,
        vec![Span { start: 10, end: 13 }, Span { start: 20, end: 22 }]
    );
}

#[test]
fn cigar_zero_length_match_emits_nothing() {
    let ops = vec![CigarOp::Match(0), CigarOp::Ins(4), CigarOp::HardClip(2), CigarOp::Pad(1)];
    let exons = cigar2exons(&ops, 42);
    assert!(exons.is_empty());
}

#[test]
fn overlap_partial_and_disjoint() {
    assert_eq!(overlap_len(15, 25, 10, 20), 5);
    assert_eq!(overlap_len(30, 40, 10, 20), 0);
    assert_eq!(overlap_len(10, 20, 10, 20), 10);
    assert_eq!(overlap_len(0, 5, 5, 10), 0);
}

#[test]
fn strand_filter_truth_table() {
    for &m in &[false, true] {
        for &first in &[false, true] {
            for &rev in &[false, true] {
                for &plus in &[false, true] {
                    let expect = ((m == first) == !rev) == plus;
                    assert_eq!(strand_matches(m, first, rev, plus), expect);
                }
            }
        }
    }
    // a read with read1-indicates-plus, first mate, forward alignment is
    // kept only on a plus-strand interval
    assert!(strand_matches(true, true, false, true));
    assert!(!strand_matches(true, true, false, false));
}

#[test]
fn merge_overlapping_intervals() {
    let exons = vec![
        Exon { start: 100, end: 150, origin: Some(2) },
        Exon { start: 140, end: 160, origin: Some(3) },
    ];
    let sorted = sort_exons_by_start(&exons);
    let merged = merge_exons(&sorted);
    assert_eq!(merged, vec![Exon { start: 100, end: 160, origin: None }]);
}

#[test]
fn merge_is_idempotent_and_disjoint() {
    let exons = vec![
        Exon { start: 5, end: 8, origin: Some(0) },
        Exon { start: 1, end: 4, origin: Some(1) },
        Exon { start: 3, end: 6, origin: Some(2) },
        Exon { start: 20, end: 30, origin: Some(3) },
        Exon { start: 25, end: 26, origin: Some(4) },
    ];
    let sorted = sort_exons_by_start(&exons);
    let merged = merge_exons(&sorted);
    assert_eq!(
        merged,
        vec![
            Exon { start: 1, end: 8, origin: None },
            Exon { start: 20, end: 30, origin: None },
        ]
    );
    // merging the merged output again yields the same output
    let again = merge_exons(&merged);
    assert_eq!(again, merged);
    // the merged intervals are disjoint and cover the same positions
    for w in merged.windows(2) {
        assert!(w[0].end <= w[1].start);
    }
}

#[test]
fn adjacent_intervals_do_not_merge() {
    let exons = vec![
        Exon { start: 1, end: 2, origin: Some(0) },
        Exon { start: 2, end: 3, origin: Some(1) },
    ];
    let merged = merge_exons(&exons);
    assert_eq!(merged.len(), 2);
}

fn toy_annotation() -> AnnotationGraph {
    let gene = FeatureRow {
        feature_type: s("gene"),
        seqname: s("chr1"),
        strand: s("+"),
        start: 101,
        end: 250,
        attributes: vec![(s("ID"), s("gene1"))],
    };
    let transcript = FeatureRow {
        feature_type: s("transcript"),
        seqname: s("chr1"),
        strand: s("+"),
        start: 101,
        end: 250,
        attributes: vec![(s("ID"), s("tx1"))],
    };
    let exon1 = FeatureRow {
        feature_type: s("exon"),
        seqname: s("chr1"),
        strand: s("+"),
        start: 101,
        end: 150,
        attributes: vec![(s("gene_id"), s("G1")), (s("transcript_id"), s("T1"))],
    };
    let exon2 = FeatureRow {
        feature_type: s("exon"),
        seqname: s("chr1"),
        strand: s("+"),
        start: 201,
        end: 250,
        attributes: vec![(s("gene_id"), s("G1")), (s("transcript_id"), s("T1"))],
    };
    AnnotationGraph {
        rows: vec![gene, transcript, exon1, exon2],
        children: vec![vec![1], vec![2, 3], vec![], vec![]],
    }
}

#[test]
fn extraction_walks_gene_transcript_exon() {
    let annot = toy_annotation();
    let filter = TypeFilter {
        gene_types: vec![s("gene")],
        transcript_types: vec![],
        exon_types: vec![s("exon")],
    };
    let raw = extract_exons(&annot, &filter);
    assert_eq!(raw.len(), 2);
    assert_eq!(raw[0].seqname, "chr1");
    assert_eq!(raw[0].strand, "+");
    assert_eq!(raw[0].exon, Exon { start: 100, end: 150, origin: Some(2) });
    assert_eq!(raw[1].exon, Exon { start: 200, end: 250, origin: Some(3) });
    let groups = group_exons(&raw);
    assert_eq!(groups.len(), 1);
    assert_eq!(groups[0].exons.len(), 2);
}

#[test]
fn transcript_on_other_strand_is_skipped() {
    let mut annot = toy_annotation();
    annot.rows[1].strand = s("-");
    let filter = TypeFilter {
        gene_types: vec![s("gene")],
        transcript_types: vec![],
        exon_types: vec![s("exon")],
    };
    let raw = extract_exons(&annot, &filter);
    assert!(raw.is_empty());
}

fn read(name: &str, pos: u64, len: u32) -> ReadRec {
    ReadRec {
        name: s(name),
        is_first: true,
        is_reverse: false,
        pos,
        cigar: vec![CigarOp::Match(len)],
    }
}

#[test]
fn coverage_counts_bases_and_distinct_templates() {
    let source = SourceReads {
        read1_strand: None,
        reads: vec![read("r1", 100, 10), read("r1", 120, 10), read("r2", 140, 20)],
    };
    let stats = interval_coverage(100, 150, true, &vec![source]).unwrap();
    // r1 twice: 10 + 10; r2 overlaps [140,150) for 10 of its 20 bases
    assert_eq!(stats.coverage_bases, 30);
    assert_eq!(stats.distinct_reads, 2);
}

#[test]
fn stranded_source_drops_mismatched_reads() {
    let mut forward = read("r1", 100, 10);
    forward.is_reverse = false;
    let mut reverse = read("r2", 100, 10);
    reverse.is_reverse = true;
    let source = SourceReads { read1_strand: Some(true), reads: vec![forward, reverse] };
    let stats = interval_coverage(100, 150, true, &vec![source]).unwrap();
    assert_eq!(stats.coverage_bases, 10);
    assert_eq!(stats.distinct_reads, 1);
}

#[test]
fn rpkm_formula_exact_parts() {
    let row = Row {
        seqname: s("chr1"),
        strand: s("+"),
        start: 0,
        end: 1000,
        coverage_bases: 500,
        distinct_reads: 2,
        total_reads: 1_000_000,
        transcript_id: s(""),
        gene_id: s(""),
    };
    let (num, den) = rpkm_parts(&row);
    assert_eq!(num, 20_000_000_000u128);
    assert_eq!(den, 1_000_000_000u128);
    let rpkm = num as f64 / den as f64;
    assert_eq!(rpkm, 20.0);
    let (cn, cd) = cov_parts(&row);
    assert_eq!(cn as f64 / cd as f64, 0.5);
}

#[test]
fn end_to_end_two_exons() {
    let annot = toy_annotation();
    let filter = TypeFilter {
        gene_types: vec![s("gene")],
        transcript_types: vec![],
        exon_types: vec![s("exon")],
    };
    let raw = extract_exons(&annot, &filter);
    let groups = group_exons(&raw);
    assert_eq!(groups.len(), 1);
    let total_reads = 100u64;
    let mut rows = Vec::new();
    for exon in &groups[0].exons {
        // reads of the unstranded source that a region query for this
        // interval would return: three templates inside the first exon,
        // nothing in the second
        let reads = if exon.start == 100 {
            vec![read("a", 100, 10), read("b", 110, 10), read("c", 120, 10)]
        } else {
            vec![]
        };
        let source = SourceReads { read1_strand: None, reads };
        let row = make_row(
            &groups[0].seqname,
            &groups[0].strand,
            exon,
            &vec![source],
            total_reads,
            &annot,
        )
        .unwrap();
        rows.push(row);
    }
    let sorted = sort_rows(rows);
    assert_eq!(sorted.len(), 2);
    let first = &sorted[0];
    assert_eq!(first.start, 100);
    assert_eq!(first.end, 150);
    assert_eq!(first.coverage_bases, 30);
    assert_eq!(first.distinct_reads, 3);
    assert_eq!(first.gene_id, "G1");
    assert_eq!(first.transcript_id, "T1");
    let (num, den) = rpkm_parts(first);
    assert_eq!(num, 30_000_000_000u128);
    assert_eq!(den, 5_000u128);
    assert_eq!(num as f64 / den as f64, 1e10 * 3.0 / (100.0 * 50.0));
    let second = &sorted[1];
    assert_eq!(second.start, 200);
    assert_eq!(second.coverage_bases, 0);
    assert_eq!(second.distinct_reads, 0);
    let (num2, den2) = rpkm_parts(second);
    assert_eq!(num2, 0u128);
    assert_eq!(num2 as f64 / den2 as f64, 0.0);
    let (cn2, cd2) = cov_parts(second);
    assert_eq!(cn2 as f64 / cd2 as f64, 0.0);
    // merged report: overlapping exons coalesce with empty identifiers
    let overlapping = vec![
        Exon { start: 100, end: 150, origin: Some(2) },
        Exon { start: 140, end: 160, origin: Some(3) },
    ];
    let merged = merge_exons(&sort_exons_by_start(&overlapping));
    assert_eq!(merged, vec![Exon { start: 100, end: 160, origin: None }]);
    let mrow = make_row(
        &s("chr1"),
        &s("+"),
        &merged[0],
        &vec![SourceReads { read1_strand: None, reads: vec![] }],
        total_reads,
        &annot,
    )
    .unwrap();
    assert_eq!(mrow.gene_id, "");
    assert_eq!(mrow.transcript_id, "");
}

#[test]
fn rows_sort_in_output_order() {
    let mk = |seq: &str, strand: &str, start: u64, end: u64, cov: u64| Row {
        seqname: s(seq),
        strand: s(strand),
        start,
        end,
        coverage_bases: cov,
        distinct_reads: 0,
        total_reads: 10,
        transcript_id: s(""),
        gene_id: s(""),
    };
    let rows = vec![
        mk("chr2", "+", 5, 10, 0),
        mk("chr1", "-", 5, 10, 0),
        mk("chr1", "+", 7, 10, 0),
        mk("chr1", "+", 5, 10, 4),
        mk("chr1", "+", 5, 10, 2),
    ];
    let sorted = sort_rows(rows);
    assert_eq!(sorted[0].seqname, "chr1");
    assert_eq!(sorted[0].strand, "+");
    assert_eq!(sorted[0].start, 5);
    assert_eq!(sorted[0].coverage_bases, 2);
    assert_eq!(sorted[1].coverage_bases, 4);
    assert_eq!(sorted[2].start, 7);
    assert_eq!(sorted[3].strand, "-");
    assert_eq!(sorted[4].seqname, "chr2");
    assert!(row_before(&sorted[0], &sorted[1]));
    assert!(!row_before(&sorted[1], &sorted[0]));
}

#[test]
fn header_has_eight_columns() {
    let h = header_fields();
    let names: Vec<&str> = h.iter().map(|x| x.as_str()).collect();
    assert_eq!(
        names,
        vec!["seqname", "strand", "start", "end", "cov", "rpkm", "transcript_id", "gene_id"]
    );
}
