//! Per-exon read coverage and RPKM computation against a gene, transcript
//! and exon annotation model: interval extraction and merging, cigar
//! projection of aligned reads, strand-filtered coverage accumulation, and
//! assembly and ordering of the output rows.
pub mod annot;
pub mod assemble;
pub mod cigar;
pub mod coverage;
pub mod extract;
pub mod intervals;
pub mod power_set;
pub mod rows;
pub mod sizes;
