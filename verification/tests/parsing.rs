use cassette_reannotation::annot::{get_attr, get_gene_name, get_name, remap_chr, AnnotationGraph, FeatureRow};
use cassette_reannotation::power_set::PowerSet;
use cassette_reannotation::sizes::{
    get_column, parse_size_line, parse_u64, read_sizes, sum_idxstats, trim_line_end,
};

fn s(x: &str) -> String {
    x.to_string()
}

#[test]
fn columns_split_on_tabs() {
    let line = b"chr1\t1000\textra".to_vec();
    assert_eq!(get_column(&line, 0), Some(b"chr1".to_vec()));
    assert_eq!(get_column(&line, 1), Some(b"1000".to_vec()));
    assert_eq!(get_column(&line, 2), Some(b"extra".to_vec()));
    assert_eq!(get_column(&line, 3), None);
    assert_eq!(get_column(&b"solo".to_vec(), 0), Some(b"solo".to_vec()));
    assert_eq!(get_column(&b"solo".to_vec(), 1), None);
    assert_eq!(get_column(&b"a\t".to_vec(), 1), Some(b"".to_vec()));
}

#[test]
fn decimal_parsing() {
    assert_eq!(parse_u64(&b"0".to_vec()), Some(0));
    assert_eq!(parse_u64(&b"1000".to_vec()), Some(1000));
    assert_eq!(parse_u64(&b"+42".to_vec()), Some(42));
    assert_eq!(parse_u64(&b"18446744073709551615".to_vec()), Some(u64::MAX));
    assert_eq!(parse_u64(&b"18446744073709551616".to_vec()), None);
    assert_eq!(parse_u64(&b"".to_vec()), None);
    assert_eq!(parse_u64(&b"+".to_vec()), None);
    assert_eq!(parse_u64(&b"12a".to_vec()), None);
    assert_eq!(parse_u64(&b"-5".to_vec()), None);
}

#[test]
fn line_trimming() {
    assert_eq!(trim_line_end(&b"chr1\t5\n".to_vec()), b"chr1\t5".to_vec());
    assert_eq!(trim_line_end(&b"chr1\t5\r\n".to_vec()), b"chr1\t5".to_vec());
    assert_eq!(trim_line_end(&b"chr1\t5\n\n".to_vec()), b"chr1\t5".to_vec());
    assert_eq!(trim_line_end(&b"chr1".to_vec()), b"chr1".to_vec());
}

#[test]
fn size_lines_parse_and_remap() {
    let chrmap = vec![(b"1".to_vec(), b"chr1".to_vec())];
    assert_eq!(
        parse_size_line(&b"1\t248956422\n".to_vec(), &chrmap),
        Some((b"chr1".to_vec(), 248956422))
    );
    assert_eq!(
        parse_size_line(&b"chrM\t16569\n".to_vec(), &chrmap),
        Some((b"chrM".to_vec(), 16569))
    );
    assert_eq!(parse_size_line(&b"chrM\tnotanumber\n".to_vec(), &chrmap), None);
    assert_eq!(parse_size_line(&b"chrM".to_vec(), &chrmap), None);
}

#[test]
fn sizes_sorted_with_later_lines_overriding() {
    let chrmap = vec![];
    let lines = vec![
        b"chr2\t200\n".to_vec(),
        b"chr10\t1000\n".to_vec(),
        b"chr2\t222\n".to_vec(),
        b"bad line".to_vec(),
    ];
    let sizes = read_sizes(&lines, &chrmap);
    // byte order puts chr10 before chr2; the later chr2 entry wins
    assert_eq!(
        sizes,
        vec![(b"chr10".to_vec(), 1000), (b"chr2".to_vec(), 222)]
    );
}

#[test]
fn idxstats_counts_sum() {
    let lines = vec![
        b"chr1\t1000\t150\t0".to_vec(),
        b"chr2\t500\t50\t0".to_vec(),
        b"*\t0\tnot_a_number\t7".to_vec(),
        b"short".to_vec(),
    ];
    assert_eq!(sum_idxstats(&lines), Some(200));
}

#[test]
fn idxstats_sum_overflow_is_reported() {
    let lines = vec![
        b"a\t0\t18446744073709551615\t0".to_vec(),
        b"b\t0\t18446744073709551615\t0".to_vec(),
    ];
    assert_eq!(sum_idxstats(&lines), None);
}

#[test]
fn attribute_priority_orders() {
    let row = FeatureRow {
        feature_type: s("exon"),
        seqname: s("chr1"),
        strand: s("+"),
        start: 1,
        end: 10,
        attributes: vec![
            (s("gene_id"), s("G")),
            (s("transcript_id"), s("T")),
            (s("Name"), s("N")),
        ],
    };
    let annot = AnnotationGraph { rows: vec![row], children: vec![vec![]] };
    // gene resolution prefers Name over gene_id
    assert_eq!(get_gene_name(0, &annot), Some(s("N")));
    // transcript resolution prefers transcript_id's precursors over Name
    // only via transcript_name/transcript; here Name wins over transcript_id
    assert_eq!(get_name(0, &annot), Some(s("N")));
    assert_eq!(get_attr(&annot.rows[0].attributes, "transcript_id"), Some(&s("T")));
    assert_eq!(get_attr(&annot.rows[0].attributes, "absent"), None);
}

#[test]
fn gene_name_falls_back_and_can_be_absent() {
    let row = FeatureRow {
        feature_type: s("exon"),
        seqname: s("chr1"),
        strand: s("+"),
        start: 1,
        end: 10,
        attributes: vec![(s("gene_id"), s("G9"))],
    };
    let empty = FeatureRow {
        feature_type: s("exon"),
        seqname: s("chr1"),
        strand: s("+"),
        start: 1,
        end: 10,
        attributes: vec![],
    };
    let annot = AnnotationGraph { rows: vec![row, empty], children: vec![vec![], vec![]] };
    assert_eq!(get_gene_name(0, &annot), Some(s("G9")));
    assert_eq!(get_name(0, &annot), Some(s("G9")));
    assert_eq!(get_gene_name(1, &annot), None);
    assert_eq!(get_name(1, &annot), None);
}

#[test]
fn chromosome_remapping() {
    let chrmap = vec![(s("1"), s("chr1")), (s("MT"), s("chrM"))];
    assert_eq!(remap_chr(&chrmap, &s("1")), s("chr1"));
    assert_eq!(remap_chr(&chrmap, &s("MT")), s("chrM"));
    assert_eq!(remap_chr(&chrmap, &s("chr7")), s("chr7"));
}

#[test]
fn power_set_enumerates_subsets() {
    let items = [1u32, 2];
    let mut ps = PowerSet::new(&items);
    assert_eq!(ps.next(), Some(vec![]));
    assert_eq!(ps.next(), Some(vec![1]));
    assert_eq!(ps.next(), Some(vec![2]));
    assert_eq!(ps.next(), Some(vec![1, 2]));
    assert_eq!(ps.next(), None);
    assert_eq!(ps.next(), None);
}

#[test]
fn power_set_of_empty_slice() {
    let items: [u8; 0] = [];
    let mut ps = PowerSet::new(&items);
    assert_eq!(ps.next(), Some(vec![]));
    assert_eq!(ps.next(), None);
}
