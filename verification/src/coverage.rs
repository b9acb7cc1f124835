use vstd::prelude::*;

verus! {

use crate::cigar::{CigarOp, ref_len, cigar_spans, spans_view, cigar2exons};

/// One aligned read, reduced to what the coverage computation reads of it:
/// template name, mate flags, leftmost reference position and cigar
/// operations.
pub struct ReadRec {
    pub name: String,
    pub is_first: bool,
    pub is_reverse: bool,
    pub pos: u64,
    pub cigar: Vec<CigarOp>,
}

/// The mathematical value of a read.
pub ghost struct ReadRecV {
    pub name: Seq<char>,
    pub is_first: bool,
    pub is_reverse: bool,
    pub pos: u64,
    pub cigar: Seq<CigarOp>,
}

impl View for ReadRec {
    type V = ReadRecV;

    open spec fn view(&self) -> ReadRecV {
        ReadRecV {
            name: self.name@,
            is_first: self.is_first,
            is_reverse: self.is_reverse,
            pos: self.pos,
            cigar: self.cigar@,
        }
    }
}

/// The reads one alignment source returned for an interval, with the
/// source's strand-pairing mode: `None` for unstranded, `Some(true)` when
/// mate 1 indicates the plus strand, `Some(false)` when mate 2 does.
pub struct SourceReads {
    pub read1_strand: Option<bool>,
    pub reads: Vec<ReadRec>,
}

pub ghost struct SourceReadsV {
    pub read1_strand: Option<bool>,
    pub reads: Seq<ReadRecV>,
}

impl View for SourceReads {
    type V = SourceReadsV;

    open spec fn view(&self) -> SourceReadsV {
        SourceReadsV {
            read1_strand: self.read1_strand,
            reads: self.reads@.map_values(|r: ReadRec| r@),
        }
    }
}

pub open spec fn srcs_view(s: Seq<SourceReads>) -> Seq<SourceReadsV> {
    s.map_values(|x: SourceReads| x@)
}

/// Every read's cigar stays within the reference coordinate space.
pub open spec fn sources_wf(sv: Seq<SourceReadsV>) -> bool {
    forall|i: int, j: int|
        0 <= i < sv.len() && 0 <= j < sv[i].reads.len() ==> (#[trigger] sv[i].reads[j]).pos
            + ref_len(sv[i].reads[j].cigar) <= u64::MAX
}

/// Whether a read passes the strand filter: kept always when the source is
/// unstranded, otherwise kept iff
/// `((read1_indicates_plus == is_first) == !is_reverse) == interval_is_plus`.
pub open spec fn read_kept(mode: Option<bool>, r: ReadRecV, plus: bool) -> bool {
    match mode {
        None => true,
        Some(m) => ((m == r.is_first) == !r.is_reverse) == plus,
    }
}

/// Decides whether a read's inferred strand agrees with an interval's
/// strand: `is_read1_plus` is the source's configuration (true when mate 1
/// indicates the plus strand), `is_first` whether the read is the first
/// mate, `is_reverse` whether it aligned to the reverse complement, and
/// `interval_is_plus` whether the interval lies on the plus strand.
pub fn strand_matches(
    is_read1_plus: bool,
    is_first: bool,
    is_reverse: bool,
    interval_is_plus: bool,
) -> (r: bool)
    ensures
        r == (((is_read1_plus == is_first) == !is_reverse) == interval_is_plus),
{
    ((is_read1_plus == is_first) == !is_reverse) == interval_is_plus
}

/// How many positions of `[s, e)` the range `[rs, re)` covers.
pub open spec fn overlap_amount(rs: int, re: int, s: int, e: int) -> int {
    let lo = if rs >= s {
        rs
    } else {
        s
    };
    let hi = if re <= e {
        re
    } else {
        e
    };
    if lo < hi {
        hi - lo
    } else {
        0
    }
}

/// The number of positions of the interval `[start, end)` that the range
/// `[range_start, range_end)` covers.
pub fn overlap_len(range_start: u64, range_end: u64, start: u64, end: u64) -> (r: u64)
    ensures
        r as int == overlap_amount(range_start as int, range_end as int, start as int, end as int),
{
    let lo = if range_start >= start {
        range_start
    } else {
        start
    };
    let hi = if range_end <= end {
        range_end
    } else {
        end
    };
    if lo < hi {
        hi - lo
    } else {
        0
    }
}

/// The positions of `[s, e)` covered by a sequence of ranges, counted with
/// multiplicity.
pub open spec fn spans_cov(spans: Seq<(int, int)>, s: int, e: int) -> int
    decreases spans.len(),
{
    if spans.len() == 0 {
        0
    } else {
        overlap_amount(spans[0].0, spans[0].1, s, e) + spans_cov(spans.drop_first(), s, e)
    }
}

/// The coverage one read contributes to `[s, e)`: the overlap of each of its
/// projected match ranges with the interval.
pub open spec fn read_cov(r: ReadRecV, s: int, e: int) -> int {
    spans_cov(cigar_spans(r.cigar, r.pos as int), s, e)
}

/// The coverage the strand-kept reads of one source contribute to `[s, e)`.
pub open spec fn reads_cov(reads: Seq<ReadRecV>, mode: Option<bool>, plus: bool, s: int, e: int) -> int
    decreases reads.len(),
{
    if reads.len() == 0 {
        0
    } else {
        (if read_kept(mode, reads[0], plus) {
            read_cov(reads[0], s, e)
        } else {
            0
        }) + reads_cov(reads.drop_first(), mode, plus, s, e)
    }
}

/// The coverage all sources contribute to `[s, e)`.
pub open spec fn sources_cov(sv: Seq<SourceReadsV>, plus: bool, s: int, e: int) -> int
    decreases sv.len(),
{
    if sv.len() == 0 {
        0
    } else {
        reads_cov(sv[0].reads, sv[0].read1_strand, plus, s, e) + sources_cov(
            sv.drop_first(),
            plus,
            s,
            e,
        )
    }
}

/// The template names of the strand-kept reads of one source.
pub open spec fn kept_names(reads: Seq<ReadRecV>, mode: Option<bool>, plus: bool) -> Set<Seq<char>>
    decreases reads.len(),
{
    if reads.len() == 0 {
        Set::<Seq<char>>::empty()
    } else {
        let rest = kept_names(reads.drop_first(), mode, plus);
        if read_kept(mode, reads[0], plus) {
            rest.insert(reads[0].name)
        } else {
            rest
        }
    }
}

/// The distinct template names the strand-kept reads of all sources carry.
pub open spec fn sources_names(sv: Seq<SourceReadsV>, plus: bool) -> Set<Seq<char>>
    decreases sv.len(),
{
    if sv.len() == 0 {
        Set::<Seq<char>>::empty()
    } else {
        kept_names(sv[0].reads, sv[0].read1_strand, plus).union(
            sources_names(sv.drop_first(), plus),
        )
    }
}

proof fn lemma_spans_cov_nonneg(spans: Seq<(int, int)>, s: int, e: int)
    ensures
        spans_cov(spans, s, e) >= 0,
    decreases spans.len(),
{
    if spans.len() > 0 {
        lemma_spans_cov_nonneg(spans.drop_first(), s, e);
    }
}

proof fn lemma_reads_cov_nonneg(reads: Seq<ReadRecV>, mode: Option<bool>, plus: bool, s: int, e: int)
    ensures
        reads_cov(reads, mode, plus, s, e) >= 0,
    decreases reads.len(),
{
    if reads.len() > 0 {
        lemma_reads_cov_nonneg(reads.drop_first(), mode, plus, s, e);
        if read_kept(mode, reads[0], plus) {
            lemma_spans_cov_nonneg(cigar_spans(reads[0].cigar, reads[0].pos as int), s, e);
        }
    }
}

proof fn lemma_sources_cov_nonneg(sv: Seq<SourceReadsV>, plus: bool, s: int, e: int)
    ensures
        sources_cov(sv, plus, s, e) >= 0,
    decreases sv.len(),
{
    if sv.len() > 0 {
        lemma_sources_cov_nonneg(sv.drop_first(), plus, s, e);
        lemma_reads_cov_nonneg(sv[0].reads, sv[0].read1_strand, plus, s, e);
    }
}

/// The coverage one read contributes to the interval `[start, end)`, or
/// `None` exactly when that coverage does not fit in a machine word.
pub fn read_coverage(read: &ReadRec, start: u64, end: u64) -> (r: Option<u64>)
    requires
        read@.pos + ref_len(read@.cigar) <= u64::MAX,
    ensures
        (read_cov(read@, start as int, end as int) <= u64::MAX) <==> (r is Some),
        r matches Some(c) ==> c as int == read_cov(read@, start as int, end as int),
{
    let spans = cigar2exons(&read.cigar, read.pos);
    let ghost sv = spans_view(spans@);
    let mut acc: u64 = 0;
    let mut j: usize = 0;
    proof {
        assert(sv.subrange(0, sv.len() as int) =~= sv);
    }
    while j < spans.len()
        invariant
            0 <= j <= spans@.len(),
            sv == spans_view(spans@),
            sv == cigar_spans(read@.cigar, read@.pos as int),
            acc as int + spans_cov(sv.subrange(j as int, sv.len() as int), start as int, end as int)
                == read_cov(read@, start as int, end as int),
        decreases spans@.len() - j,
    {
        let ghost suffix = sv.subrange(j as int, sv.len() as int);
        proof {
            assert(suffix.drop_first() =~= sv.subrange(j as int + 1, sv.len() as int));
            assert(suffix[0] == sv[j as int]);
            lemma_spans_cov_nonneg(suffix.drop_first(), start as int, end as int);
        }
        let sp = spans[j];
        let c = overlap_len(sp.start, sp.end, start, end);
        if c > u64::MAX - acc {
            proof {
                assert(read_cov(read@, start as int, end as int) > u64::MAX);
            }
            return None;
        }
        acc = acc + c;
        j = j + 1;
    }
    proof {
        assert(sv.subrange(sv.len() as int, sv.len() as int) =~= Seq::<(int, int)>::empty());
    }
    Some(acc)
}

/// The outcome of scanning one interval: total covered bases and the number
/// of distinct contributing template names.
pub struct IntervalStats {
    pub coverage_bases: u64,
    pub distinct_reads: u64,
}

/// Why one interval's computation was given up.
#[derive(Clone, Copy, PartialEq, Eq, Structural, Debug)]
pub enum CovError {
    CoverageOverflow,
}

/// Scans all sources' reads for one interval `[start, end)`: drops reads
/// failing the strand filter of their source, sums the base-level overlap of
/// every kept read's projected ranges with the interval, and counts the
/// distinct template names among kept reads. Fails exactly when the total
/// coverage does not fit in a machine word.
pub fn interval_coverage(
    start: u64,
    end: u64,
    interval_is_plus: bool,
    sources: &Vec<SourceReads>,
) -> (r: Result<IntervalStats, CovError>)
    requires
        sources_wf(srcs_view(sources@)),
    ensures
        (sources_cov(srcs_view(sources@), interval_is_plus, start as int, end as int) <= u64::MAX)
            <==> (r is Ok),
        r matches Ok(st) ==> st.coverage_bases as int == sources_cov(
            srcs_view(sources@),
            interval_is_plus,
            start as int,
            end as int,
        ) && st.distinct_reads as int == sources_names(
            srcs_view(sources@),
            interval_is_plus,
        ).len(),
{
    let ghost sv = srcs_view(sources@);
    let ghost s = start as int;
    let ghost e = end as int;
    let mut cov: u64 = 0;
    let mut seen: Vec<String> = Vec::new();
    let mut i: usize = 0;
    proof {
        assert(sv.subrange(0, sv.len() as int) =~= sv);
        assert(seen@.map_values(|x: String| x@).to_set() =~= Set::<Seq<char>>::empty());
        assert(Set::<Seq<char>>::empty().union(sources_names(sv, interval_is_plus))
            =~= sources_names(sv, interval_is_plus));
    }
    while i < sources.len()
        invariant
            0 <= i <= sources@.len(),
            sv == srcs_view(sources@),
            sources_wf(sv),
            s == start as int,
            e == end as int,
            cov as int + sources_cov(sv.subrange(i as int, sv.len() as int), interval_is_plus, s, e)
                == sources_cov(sv, interval_is_plus, s, e),
            seen@.map_values(|x: String| x@).no_duplicates(),
            seen@.map_values(|x: String| x@).to_set().union(
                sources_names(sv.subrange(i as int, sv.len() as int), interval_is_plus),
            ) == sources_names(sv, interval_is_plus),
        decreases sources@.len() - i,
    {
        let ghost src_suffix = sv.subrange(i as int, sv.len() as int);
        proof {
            assert(src_suffix.drop_first() =~= sv.subrange(i as int + 1, sv.len() as int));
            assert(src_suffix[0] == sv[i as int]);
        }
        let mode = sources[i].read1_strand;
        let ghost rv = sv[i as int].reads;
        let mut j: usize = 0;
        proof {
            assert(rv.subrange(0, rv.len() as int) =~= rv);
        }
        while j < sources[i].reads.len()
            invariant
                0 <= i < sources@.len(),
                0 <= j <= rv.len(),
                sv == srcs_view(sources@),
                sources_wf(sv),
                s == start as int,
                e == end as int,
                rv == sv[i as int].reads,
                rv.len() == sources@[i as int].reads@.len(),
                mode == sv[i as int].read1_strand,
                cov as int + reads_cov(rv.subrange(j as int, rv.len() as int), mode, interval_is_plus, s, e)
                    + sources_cov(sv.subrange(i as int + 1, sv.len() as int), interval_is_plus, s, e)
                    == sources_cov(sv, interval_is_plus, s, e),
                seen@.map_values(|x: String| x@).no_duplicates(),
                seen@.map_values(|x: String| x@).to_set().union(
                    kept_names(rv.subrange(j as int, rv.len() as int), mode, interval_is_plus).union(
                        sources_names(sv.subrange(i as int + 1, sv.len() as int), interval_is_plus),
                    ),
                ) == sources_names(sv, interval_is_plus),
            decreases rv.len() - j,
        {
            let ghost read_suffix = rv.subrange(j as int, rv.len() as int);
            proof {
                assert(read_suffix.drop_first() =~= rv.subrange(j as int + 1, rv.len() as int));
                assert(read_suffix[0] == rv[j as int]);
                assert(rv[j as int] == sources@[i as int].reads@[j as int]@);
            }
            let read = &sources[i].reads[j];
            let kept = match mode {
                None => true,
                Some(m) => strand_matches(m, read.is_first, read.is_reverse, interval_is_plus),
            };
            proof {
                assert(kept == read_kept(mode, rv[j as int], interval_is_plus));
            }
            let ghost old_names = seen@.map_values(|x: String| x@);
            if kept {
                proof {
                    assert(sv[i as int].reads[j as int].pos + ref_len(sv[i as int].reads[j as int].cigar)
                        <= u64::MAX);
                    lemma_reads_cov_nonneg(read_suffix.drop_first(), mode, interval_is_plus, s, e);
                    lemma_sources_cov_nonneg(
                        sv.subrange(i as int + 1, sv.len() as int),
                        interval_is_plus,
                        s,
                        e,
                    );
                }
                let rcov = match read_coverage(read, start, end) {
                    Some(c) => c,
                    None => {
                        proof {
                            assert(sources_cov(sv, interval_is_plus, s, e) > u64::MAX);
                        }
                        return Result::Err(CovError::CoverageOverflow);
                    },
                };
                if rcov > u64::MAX - cov {
                    proof {
                        assert(sources_cov(sv, interval_is_plus, s, e) > u64::MAX);
                    }
                    return Result::Err(CovError::CoverageOverflow);
                }
                cov = cov + rcov;
                // record the template name once
                let mut present = false;
                let mut x: usize = 0;
                while x < seen.len() && !present
                    invariant
                        0 <= x <= seen@.len(),
                        0 <= j < rv.len(),
                        rv == sv[i as int].reads,
                        rv[j as int] == sources@[i as int].reads@[j as int]@,
                        sv == srcs_view(sources@),
                        0 <= i < sources@.len(),
                        j < sources@[i as int].reads@.len(),
                        !present ==> forall|y: int|
                            0 <= y < x ==> (#[trigger] seen@[y])@ != rv[j as int].name,
                        present ==> seen@.map_values(|q: String| q@).to_set().contains(
                            rv[j as int].name,
                        ),
                    decreases seen@.len() - x + (if present {
                        0int
                    } else {
                        1int
                    }),
                {
                    if seen[x] == sources[i].reads[j].name {
                        present = true;
                        proof {
                            assert(seen@.map_values(|q: String| q@)[x as int] == seen@[x as int]@);
                            assert(seen@.map_values(|q: String| q@).to_set().contains(
                                rv[j as int].name,
                            ));
                        }
                    } else {
                        x = x + 1;
                    }
                }
                if !present {
                    let nm = sources[i].reads[j].name.clone();
                    proof {
                        assert(nm@ == rv[j as int].name);
                    }
                    seen.push(nm);
                    proof {
                        let new_names = seen@.map_values(|q: String| q@);
                        assert(new_names =~= old_names.push(rv[j as int].name));
                        old_names.lemma_push_to_set_commute(rv[j as int].name);
                        assert(new_names.to_set() =~= old_names.to_set().insert(
                            rv[j as int].name,
                        ));
                        assert forall|y: int, z: int| 0 <= y < z < new_names.len() implies
                            new_names[y] != new_names[z] by {
                            if z < new_names.len() - 1 {
                                assert(old_names[y] != old_names[z]);
                            } else {
                                assert(new_names[z] == rv[j as int].name);
                                assert(seen@[y]@ != rv[j as int].name);
                            }
                        }
                    }
                }
            }
            proof {
                let names_now = seen@.map_values(|q: String| q@);
                assert(names_now.to_set().union(
                    kept_names(rv.subrange(j as int + 1, rv.len() as int), mode, interval_is_plus)
                        .union(
                        sources_names(sv.subrange(i as int + 1, sv.len() as int), interval_is_plus),
                    ),
                ) =~= sources_names(sv, interval_is_plus));
            }
            j = j + 1;
        }
        proof {
            assert(rv.subrange(rv.len() as int, rv.len() as int) =~= Seq::<ReadRecV>::empty());
            assert(seen@.map_values(|q: String| q@).to_set().union(
                sources_names(sv.subrange(i as int + 1, sv.len() as int), interval_is_plus),
            ) =~= sources_names(sv, interval_is_plus));
        }
        i = i + 1;
    }
    proof {
        assert(sv.subrange(sv.len() as int, sv.len() as int) =~= Seq::<SourceReadsV>::empty());
        assert(seen@.map_values(|q: String| q@).to_set() =~= sources_names(sv, interval_is_plus));
        seen@.map_values(|q: String| q@).unique_seq_to_set();
        assert(seen@.map_values(|q: String| q@).len() == seen@.len());
    }
    let distinct = seen.len();
    Result::Ok(IntervalStats { coverage_bases: cov, distinct_reads: distinct as u64 })
}

} // verus!
