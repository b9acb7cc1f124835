use vstd::prelude::*;

verus! {

use crate::annot::{AnnotationGraph, graph_wf};
use crate::intervals::{Exon, exon_valid};

/// The three feature-type allow-lists; an empty list accepts any type.
pub struct TypeFilter {
    pub gene_types: Vec<String>,
    pub transcript_types: Vec<String>,
    pub exon_types: Vec<String>,
}

/// One raw exon interval tagged with the chromosome and strand of the exon
/// row it came from.
pub struct RawExon {
    pub seqname: String,
    pub strand: String,
    pub exon: Exon,
}

/// The mathematical value of a raw exon.
pub ghost struct RawExonV {
    pub seqname: Seq<char>,
    pub strand: Seq<char>,
    pub exon: Exon,
}

impl View for RawExon {
    type V = RawExonV;

    open spec fn view(&self) -> RawExonV {
        RawExonV { seqname: self.seqname@, strand: self.strand@, exon: self.exon }
    }
}

pub open spec fn raw_view(s: Seq<RawExon>) -> Seq<RawExonV> {
    s.map_values(|x: RawExon| x@)
}

/// Whether a feature type passes an allow-list: an empty list accepts any.
pub open spec fn type_ok(allow: Seq<String>, t: Seq<char>) -> bool {
    allow.len() == 0 || exists|i: int| 0 <= i < allow.len() && (#[trigger] allow[i])@ == t
}

/// Tests a feature type against an allow-list.
pub fn type_matches(allow: &Vec<String>, t: &String) -> (r: bool)
    ensures
        r == type_ok(allow@, t@),
{
    if allow.len() == 0 {
        return true;
    }
    let mut i: usize = 0;
    while i < allow.len()
        invariant
            0 <= i <= allow@.len(),
            forall|j: int| 0 <= j < i ==> (#[trigger] allow@[j])@ != t@,
        decreases allow@.len() - i,
    {
        if allow[i] == *t {
            return true;
        }
        i = i + 1;
    }
    false
}

/// The interval a single exon row contributes: the row's half-open range
/// (its 1-based inclusive range shifted to a 0-based half-open one), tagged
/// with the row index as origin.
pub open spec fn exon_item(annot: AnnotationGraph, e: int) -> RawExonV {
    RawExonV {
        seqname: annot.rows@[e].seqname@,
        strand: annot.rows@[e].strand@,
        exon: Exon {
            start: (annot.rows@[e].start - 1) as u64,
            end: annot.rows@[e].end,
            origin: Some(e as usize),
        },
    }
}

pub open spec fn exon_contrib(annot: AnnotationGraph, f: TypeFilter, e: int) -> Seq<RawExonV> {
    if type_ok(f.exon_types@, annot.rows@[e].feature_type@) {
        seq![exon_item(annot, e)]
    } else {
        Seq::<RawExonV>::empty()
    }
}

pub open spec fn exons_upto(annot: AnnotationGraph, f: TypeFilter, t: int, k: int) -> Seq<
    RawExonV,
>
    decreases k,
{
    if k <= 0 {
        Seq::<RawExonV>::empty()
    } else {
        exons_upto(annot, f, t, k - 1) + exon_contrib(annot, f, annot.children@[t]@[k - 1] as int)
    }
}

/// A child row is accepted as a transcript of a gene when it passes the
/// transcript allow-list and its chromosome and strand match the gene's.
pub open spec fn transcript_ok(annot: AnnotationGraph, f: TypeFilter, g: int, t: int) -> bool {
    &&& type_ok(f.transcript_types@, annot.rows@[t].feature_type@)
    &&& annot.rows@[t].seqname@ == annot.rows@[g].seqname@
    &&& annot.rows@[t].strand@ == annot.rows@[g].strand@
}

pub open spec fn transcript_contrib(annot: AnnotationGraph, f: TypeFilter, g: int, t: int) -> Seq<
    RawExonV,
> {
    if transcript_ok(annot, f, g, t) {
        exons_upto(annot, f, t, annot.children@[t]@.len() as int)
    } else {
        Seq::<RawExonV>::empty()
    }
}

pub open spec fn transcripts_upto(annot: AnnotationGraph, f: TypeFilter, g: int, k: int) -> Seq<
    RawExonV,
>
    decreases k,
{
    if k <= 0 {
        Seq::<RawExonV>::empty()
    } else {
        transcripts_upto(annot, f, g, k - 1) + transcript_contrib(
            annot,
            f,
            g,
            annot.children@[g]@[k - 1] as int,
        )
    }
}

pub open spec fn gene_contrib(annot: AnnotationGraph, f: TypeFilter, g: int) -> Seq<RawExonV> {
    if type_ok(f.gene_types@, annot.rows@[g].feature_type@) {
        transcripts_upto(annot, f, g, annot.children@[g]@.len() as int)
    } else {
        Seq::<RawExonV>::empty()
    }
}

pub open spec fn genes_upto(annot: AnnotationGraph, f: TypeFilter, n: int) -> Seq<RawExonV>
    decreases n,
{
    if n <= 0 {
        Seq::<RawExonV>::empty()
    } else {
        genes_upto(annot, f, n - 1) + gene_contrib(annot, f, n - 1)
    }
}

/// Every raw exon interval the annotation graph yields under a type filter,
/// walking genes in row order, each gene's accepted transcripts in adjacency
/// order, and each transcript's accepted exons in adjacency order.
pub open spec fn extracted(annot: AnnotationGraph, f: TypeFilter) -> Seq<RawExonV> {
    genes_upto(annot, f, annot.rows@.len() as int)
}

/// Walks the annotation graph and collects every accepted exon interval,
/// tagged with its chromosome, strand and originating row.
pub fn extract_exons(annot: &AnnotationGraph, f: &TypeFilter) -> (r: Vec<RawExon>)
    requires
        graph_wf(*annot),
    ensures
        raw_view(r@) == extracted(*annot, *f),
        forall|k: int|
            0 <= k < r@.len() ==> exon_valid((#[trigger] r@[k]).exon) && (r@[k].exon.origin matches
            Some(o) && o < annot.rows@.len()),
{
    let mut acc: Vec<RawExon> = Vec::new();
    let mut g: usize = 0;
    proof {
        assert(raw_view(acc@) =~= Seq::<RawExonV>::empty());
    }
    while g < annot.rows.len()
        invariant
            graph_wf(*annot),
            0 <= g <= annot.rows@.len(),
            raw_view(acc@) == genes_upto(*annot, *f, g as int),
            forall|k: int|
                0 <= k < acc@.len() ==> exon_valid((#[trigger] acc@[k]).exon) && (
                acc@[k].exon.origin matches Some(o) && o < annot.rows@.len()),
        decreases annot.rows@.len() - g,
    {
        let gene = &annot.rows[g];
        if type_matches(&f.gene_types, &gene.feature_type) {
            let ghost base_g = genes_upto(*annot, *f, g as int);
            let mut k: usize = 0;
            while k < annot.children[g].len()
                invariant
                    graph_wf(*annot),
                    g < annot.rows@.len(),
                    0 <= k <= annot.children@[g as int]@.len(),
                    type_ok(f.gene_types@, annot.rows@[g as int].feature_type@),
                    raw_view(acc@) == base_g + transcripts_upto(*annot, *f, g as int, k as int),
                    base_g == genes_upto(*annot, *f, g as int),
                    forall|x: int|
                        0 <= x < acc@.len() ==> exon_valid((#[trigger] acc@[x]).exon) && (
                        acc@[x].exon.origin matches Some(o) && o < annot.rows@.len()),
                decreases annot.children@[g as int]@.len() - k,
            {
                let t = annot.children[g][k];
                let transcript = &annot.rows[t];
                let gene = &annot.rows[g];
                let accept = type_matches(&f.transcript_types, &transcript.feature_type)
                    && transcript.seqname == gene.seqname && transcript.strand == gene.strand;
                if accept {
                    let ghost base_t = base_g + transcripts_upto(*annot, *f, g as int, k as int);
                    let mut j: usize = 0;
                    while j < annot.children[t].len()
                        invariant
                            graph_wf(*annot),
                            g < annot.rows@.len(),
                            t < annot.rows@.len(),
                            t == annot.children@[g as int]@[k as int],
                            k < annot.children@[g as int]@.len(),
                            0 <= j <= annot.children@[t as int]@.len(),
                            transcript_ok(*annot, *f, g as int, t as int),
                            raw_view(acc@) == base_t + exons_upto(*annot, *f, t as int, j as int),
                            base_t == base_g + transcripts_upto(*annot, *f, g as int, k as int),
                            base_g == genes_upto(*annot, *f, g as int),
                            forall|x: int|
                                0 <= x < acc@.len() ==> exon_valid((#[trigger] acc@[x]).exon) && (
                                acc@[x].exon.origin matches Some(o) && o < annot.rows@.len()),
                        decreases annot.children@[t as int]@.len() - j,
                    {
                        let e = annot.children[t][j];
                        let exon = &annot.rows[e];
                        if type_matches(&f.exon_types, &exon.feature_type) {
                            let ghost before = raw_view(acc@);
                            let item = RawExon {
                                seqname: exon.seqname.clone(),
                                strand: exon.strand.clone(),
                                exon: Exon { start: exon.start - 1, end: exon.end, origin: Some(e) },
                            };
                            proof {
                                assert(item@ == exon_item(*annot, e as int));
                            }
                            acc.push(item);
                            proof {
                                assert(raw_view(acc@) =~= before + seq![exon_item(*annot, e as int)]);
                                assert(raw_view(acc@) =~= base_t + (exons_upto(
                                    *annot,
                                    *f,
                                    t as int,
                                    j as int,
                                ) + exon_contrib(*annot, *f, e as int)));
                            }
                        } else {
                            proof {
                                assert(exons_upto(*annot, *f, t as int, j as int) + exon_contrib(
                                    *annot,
                                    *f,
                                    e as int,
                                ) =~= exons_upto(*annot, *f, t as int, j as int));
                            }
                        }
                        j = j + 1;
                    }
                    proof {
                        assert(transcripts_upto(*annot, *f, g as int, k as int + 1)
                            == transcripts_upto(*annot, *f, g as int, k as int)
                            + transcript_contrib(*annot, *f, g as int, t as int));
                        assert(raw_view(acc@) =~= base_g + transcripts_upto(
                            *annot,
                            *f,
                            g as int,
                            k as int + 1,
                        ));
                    }
                } else {
                    proof {
                        assert(transcript_contrib(*annot, *f, g as int, t as int) =~= Seq::<
                            RawExonV,
                        >::empty());
                        assert(transcripts_upto(*annot, *f, g as int, k as int + 1)
                            =~= transcripts_upto(*annot, *f, g as int, k as int));
                    }
                }
                k = k + 1;
            }
            proof {
                assert(genes_upto(*annot, *f, g as int + 1) == genes_upto(*annot, *f, g as int)
                    + gene_contrib(*annot, *f, g as int));
            }
        } else {
            proof {
                assert(gene_contrib(*annot, *f, g as int) =~= Seq::<RawExonV>::empty());
                assert(genes_upto(*annot, *f, g as int + 1) =~= genes_upto(*annot, *f, g as int));
            }
        }
        g = g + 1;
    }
    acc
}

/// The exon intervals of one `(chromosome, strand)` group, in extraction
/// order.
pub open spec fn key_filter(s: Seq<RawExonV>, sq: Seq<char>, st: Seq<char>) -> Seq<Exon>
    decreases s.len(),
{
    if s.len() == 0 {
        Seq::<Exon>::empty()
    } else {
        key_filter(s.drop_last(), sq, st) + (if s.last().seqname == sq && s.last().strand == st {
            seq![s.last().exon]
        } else {
            Seq::<Exon>::empty()
        })
    }
}

/// Collects the intervals of `raw` that carry the given chromosome and
/// strand, keeping their order.
pub fn filter_group(raw: &Vec<RawExon>, seqname: &String, strand: &String) -> (r: Vec<Exon>)
    ensures
        r@ == key_filter(raw_view(raw@), seqname@, strand@),
{
    let ghost rv = raw_view(raw@);
    let mut r: Vec<Exon> = Vec::new();
    let mut i: usize = 0;
    proof {
        assert(rv.subrange(0, 0) =~= Seq::<RawExonV>::empty());
        assert(r@ =~= key_filter(rv.subrange(0, 0), seqname@, strand@));
    }
    while i < raw.len()
        invariant
            0 <= i <= raw@.len(),
            rv == raw_view(raw@),
            r@ == key_filter(rv.subrange(0, i as int), seqname@, strand@),
        decreases raw@.len() - i,
    {
        proof {
            assert(rv.subrange(0, i as int + 1).drop_last() =~= rv.subrange(0, i as int));
            assert(rv.subrange(0, i as int + 1).last() == raw@[i as int]@);
        }
        let keep = raw[i].seqname == *seqname && raw[i].strand == *strand;
        if keep {
            r.push(raw[i].exon);
            proof {
                assert(r@ =~= key_filter(rv.subrange(0, i as int), seqname@, strand@) + seq![
                    raw@[i as int]@.exon,
                ]);
            }
        } else {
            proof {
                assert(key_filter(rv.subrange(0, i as int + 1), seqname@, strand@) =~= key_filter(
                    rv.subrange(0, i as int),
                    seqname@,
                    strand@,
                ));
            }
        }
        i = i + 1;
    }
    proof {
        assert(rv.subrange(0, raw@.len() as int) =~= rv);
    }
    r
}

/// Whether a group carries the given `(chromosome, strand)` key.
pub open spec fn group_key_is(g: ExonGroup, sq: Seq<char>, st: Seq<char>) -> bool {
    g.seqname@ == sq && g.strand@ == st
}

/// Whether some group carries the given key.
pub open spec fn has_key(groups: Seq<ExonGroup>, sq: Seq<char>, st: Seq<char>) -> bool {
    exists|a: int| 0 <= a < groups.len() && group_key_is(#[trigger] groups[a], sq, st)
}

/// Every raw exon's `(chromosome, strand)` key appears among the groups.
pub open spec fn keys_complete(raw: Seq<RawExon>, groups: Seq<ExonGroup>) -> bool {
    forall|k: int|
        #![trigger raw[k]]
        0 <= k < raw.len() ==> has_key(groups, raw[k]@.seqname, raw[k]@.strand)
}

/// Every group's `(chromosome, strand)` key occurs among the raw exons.
pub open spec fn keys_sound(raw: Seq<RawExon>, groups: Seq<ExonGroup>) -> bool {
    forall|a: int|
        #![trigger groups[a]]
        0 <= a < groups.len() ==> exists|k: int|
            0 <= k < raw.len() && group_key_is(groups[a], (#[trigger] raw[k])@.seqname, raw[k]@.strand)
}

/// One `(chromosome, strand)` group of exon intervals.
pub struct ExonGroup {
    pub seqname: String,
    pub strand: String,
    pub exons: Vec<Exon>,
}

/// Groups raw exon intervals by `(chromosome, strand)`: each distinct key of
/// the input appears exactly once, holding exactly the input's intervals with
/// that key, in their original order.
pub fn group_exons(raw: &Vec<RawExon>) -> (groups: Vec<ExonGroup>)
    ensures
        forall|a: int, b: int|
            0 <= a < b < groups@.len() ==> !group_key_is(
                #[trigger] groups@[a],
                (#[trigger] groups@[b]).seqname@,
                groups@[b].strand@,
            ),
        forall|a: int|
            0 <= a < groups@.len() ==> (#[trigger] groups@[a]).exons@ == key_filter(
                raw_view(raw@),
                groups@[a].seqname@,
                groups@[a].strand@,
            ),
        keys_complete(raw@, groups@),
        keys_sound(raw@, groups@),
{
    let mut groups: Vec<ExonGroup> = Vec::new();
    let mut i: usize = 0;
    while i < raw.len()
        invariant
            0 <= i <= raw@.len(),
            forall|a: int, b: int|
                0 <= a < b < groups@.len() ==> !group_key_is(
                    #[trigger] groups@[a],
                    (#[trigger] groups@[b]).seqname@,
                    groups@[b].strand@,
                ),
            forall|a: int|
                0 <= a < groups@.len() ==> (#[trigger] groups@[a]).exons@ == key_filter(
                    raw_view(raw@),
                    groups@[a].seqname@,
                    groups@[a].strand@,
                ),
            keys_complete(raw@.subrange(0, i as int), groups@),
            keys_sound(raw@, groups@),
        decreases raw@.len() - i,
    {
        let mut found = false;
        let mut a: usize = 0;
        while a < groups.len() && !found
            invariant
                0 <= a <= groups@.len(),
                0 <= i < raw@.len(),
                !found ==> forall|b: int|
                    0 <= b < a ==> !group_key_is(
                        #[trigger] groups@[b],
                        raw@[i as int]@.seqname,
                        raw@[i as int]@.strand,
                    ),
                found ==> has_key(groups@, raw@[i as int]@.seqname, raw@[i as int]@.strand),
            decreases groups@.len() - a + (if found {
                0int
            } else {
                1int
            }),
        {
            if groups[a].seqname == raw[i].seqname && groups[a].strand == raw[i].strand {
                found = true;
                proof {
                    assert(group_key_is(
                        groups@[a as int],
                        raw@[i as int]@.seqname,
                        raw@[i as int]@.strand,
                    ));
                }
            } else {
                a = a + 1;
            }
        }
        let ghost old_groups = groups@;
        if !found {
            let exons = filter_group(raw, &raw[i].seqname, &raw[i].strand);
            let g = ExonGroup {
                seqname: raw[i].seqname.clone(),
                strand: raw[i].strand.clone(),
                exons,
            };
            groups.push(g);
            proof {
                assert(group_key_is(
                    groups@[groups@.len() - 1],
                    raw@[i as int]@.seqname,
                    raw@[i as int]@.strand,
                ));
            }
        }
        proof {
            assert forall|a: int| #![trigger groups@[a]] 0 <= a < groups@.len() implies exists|k: int|
                0 <= k < raw@.len() && group_key_is(
                    groups@[a],
                    (#[trigger] raw@[k])@.seqname,
                    raw@[k]@.strand,
                ) by {
                if a < old_groups.len() {
                    assert(groups@[a] == old_groups[a]);
                    let k = choose|k: int|
                        0 <= k < raw@.len() && group_key_is(
                            old_groups[a],
                            (#[trigger] raw@[k])@.seqname,
                            raw@[k]@.strand,
                        );
                    assert(group_key_is(groups@[a], raw@[k]@.seqname, raw@[k]@.strand));
                } else {
                    assert(group_key_is(groups@[a], raw@[i as int]@.seqname, raw@[i as int]@.strand));
                }
            }
            let ghost cur = raw@.subrange(0, i as int + 1);
            assert forall|k: int| #![trigger cur[k]] 0 <= k < cur.len() implies has_key(
                groups@,
                cur[k]@.seqname,
                cur[k]@.strand,
            ) by {
                assert(cur[k] == raw@[k]);
                if k == i as int {
                    assert(has_key(groups@, raw@[i as int]@.seqname, raw@[i as int]@.strand));
                } else {
                    assert(raw@.subrange(0, i as int)[k] == raw@[k]);
                    assert(has_key(old_groups, raw@[k]@.seqname, raw@[k]@.strand));
                    let b = choose|b: int|
                        0 <= b < old_groups.len() && group_key_is(
                            #[trigger] old_groups[b],
                            raw@[k]@.seqname,
                            raw@[k]@.strand,
                        );
                    assert(groups@[b] == old_groups[b]);
                    assert(group_key_is(groups@[b], raw@[k]@.seqname, raw@[k]@.strand));
                }
            }
            assert(keys_complete(cur, groups@));
        }
        i = i + 1;
    }
    proof {
        assert(raw@.subrange(0, i as int) =~= raw@);
    }
    groups
}

} // verus!
