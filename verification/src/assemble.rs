use vstd::prelude::*;

verus! {

use vstd::string::StringExecFns;
use crate::annot::{AnnotationGraph, gene_name_spec, name_spec, get_gene_name, get_name};
use crate::intervals::{Exon, exon_valid};
use crate::coverage::{
    SourceReads,
    srcs_view,
    sources_wf,
    sources_cov,
    sources_names,
    interval_coverage,
    CovError,
};
use crate::rows::{Row, row_wf, rpkm_num, rpkm_den, cov_num, cov_den};

/// The gene identifier an interval reports: the origin row's resolved gene
/// name, or the empty string when the interval has no origin or the row has
/// none of the name attributes.
pub open spec fn resolved_gene(annot: AnnotationGraph, origin: Option<usize>) -> Seq<char> {
    match origin {
        Some(o) => match gene_name_spec(annot.rows@[o as int]) {
            Some(n) => n,
            None => Seq::<char>::empty(),
        },
        None => Seq::<char>::empty(),
    }
}

/// The transcript identifier an interval reports, resolved the same way.
pub open spec fn resolved_transcript(annot: AnnotationGraph, origin: Option<usize>) -> Seq<char> {
    match origin {
        Some(o) => match name_spec(annot.rows@[o as int]) {
            Some(n) => n,
            None => Seq::<char>::empty(),
        },
        None => Seq::<char>::empty(),
    }
}

/// Computes one interval's output row: scans every source's reads under the
/// strand filter, accumulates base-level coverage and the distinct-template
/// count, and resolves the gene and transcript identifiers from the origin
/// row. Fails exactly when the interval's total coverage does not fit in a
/// machine word; the run's other intervals are unaffected.
pub fn make_row(
    seqname: &String,
    strand: &String,
    exon: &Exon,
    sources: &Vec<SourceReads>,
    total_reads: u64,
    annot: &AnnotationGraph,
) -> (r: Result<Row, CovError>)
    requires
        exon_valid(*exon),
        sources_wf(srcs_view(sources@)),
        exon.origin matches Some(o) ==> o < annot.rows@.len(),
    ensures
        (sources_cov(srcs_view(sources@), strand@ == "+"@, exon.start as int, exon.end as int)
            <= u64::MAX) <==> (r is Ok),
        r matches Ok(row) ==> {
            &&& row.seqname@ == seqname@
            &&& row.strand@ == strand@
            &&& row.start == exon.start
            &&& row.end == exon.end
            &&& row_wf(row)
            &&& row.coverage_bases as int == sources_cov(
                srcs_view(sources@),
                strand@ == "+"@,
                exon.start as int,
                exon.end as int,
            )
            &&& row.distinct_reads as int == sources_names(
                srcs_view(sources@),
                strand@ == "+"@,
            ).len()
            &&& row.total_reads == total_reads
            &&& row.gene_id@ == resolved_gene(*annot, exon.origin)
            &&& row.transcript_id@ == resolved_transcript(*annot, exon.origin)
        },
{
    let plus_literal = String::from_str("+");
    let strand_is_plus = *strand == plus_literal;
    let stats = match interval_coverage(exon.start, exon.end, strand_is_plus, sources) {
        Ok(st) => st,
        Err(e) => {
            return Result::Err(e);
        },
    };
    let gene_id = match exon.origin {
        Some(o) => match get_gene_name(o, annot) {
            Some(n) => n,
            None => String::new(),
        },
        None => String::new(),
    };
    let transcript_id = match exon.origin {
        Some(o) => match get_name(o, annot) {
            Some(n) => n,
            None => String::new(),
        },
        None => String::new(),
    };
    Result::Ok(
        Row {
            seqname: seqname.clone(),
            strand: strand.clone(),
            start: exon.start,
            end: exon.end,
            coverage_bases: stats.coverage_bases,
            distinct_reads: stats.distinct_reads,
            total_reads,
            transcript_id,
            gene_id,
        },
    )
}

/// The exact ratio behind a row's average coverage: covered bases over
/// interval length.
pub fn cov_parts(r: &Row) -> (p: (u64, u64))
    requires
        row_wf(*r),
    ensures
        p.0 as int == cov_num(*r),
        p.1 as int == cov_den(*r),
{
    (r.coverage_bases, r.end - r.start)
}

/// The exact ratio behind a row's RPKM: the scale constant times the
/// distinct-read count, over the run's total reads times the interval
/// length.
pub fn rpkm_parts(r: &Row) -> (p: (u128, u128))
    requires
        row_wf(*r),
    ensures
        p.0 as int == rpkm_num(*r),
        p.1 as int == rpkm_den(*r),
{
    proof {
        assert((r.total_reads as int) * ((r.end - r.start) as int) <= u64::MAX * u64::MAX)
            by (nonlinear_arith)
            requires
                r.total_reads <= u64::MAX,
                r.start < r.end,
                r.end <= u64::MAX,
        ;
    }
    let num = 10000000000u128 * (r.distinct_reads as u128);
    let den = (r.total_reads as u128) * ((r.end - r.start) as u128);
    (num, den)
}

/// The eight column names of the output header, in order.
pub fn header_fields() -> (h: Vec<String>)
    ensures
        h@.len() == 8,
        h@[0]@ == "seqname"@,
        h@[1]@ == "strand"@,
        h@[2]@ == "start"@,
        h@[3]@ == "end"@,
        h@[4]@ == "cov"@,
        h@[5]@ == "rpkm"@,
        h@[6]@ == "transcript_id"@,
        h@[7]@ == "gene_id"@,
{
    let mut h: Vec<String> = Vec::new();
    h.push(String::from_str("seqname"));
    h.push(String::from_str("strand"));
    h.push(String::from_str("start"));
    h.push(String::from_str("end"));
    h.push(String::from_str("cov"));
    h.push(String::from_str("rpkm"));
    h.push(String::from_str("transcript_id"));
    h.push(String::from_str("gene_id"));
    h
}

} // verus!
