use vstd::prelude::*;

verus! {

use vstd::multiset::Multiset;
use vstd::string::StrSliceExecFns;

broadcast use vstd::seq_lib::group_to_multiset_ensures;

/// One output record: an interval's coordinates, its coverage and RPKM held
/// as exact ratios (covered bases over interval length; scaled distinct
/// reads over total reads times interval length), and the resolved
/// identifiers.
pub struct Row {
    pub seqname: String,
    pub strand: String,
    pub start: u64,
    pub end: u64,
    pub coverage_bases: u64,
    pub distinct_reads: u64,
    pub total_reads: u64,
    pub transcript_id: String,
    pub gene_id: String,
}

pub open spec fn row_wf(r: Row) -> bool {
    r.start < r.end
}

/// The scale constant of the RPKM formula.
pub open spec fn rpkm_scale() -> int {
    10000000000
}

pub open spec fn cov_num(r: Row) -> int {
    r.coverage_bases as int
}

pub open spec fn cov_den(r: Row) -> int {
    r.end - r.start
}

pub open spec fn rpkm_num(r: Row) -> int {
    rpkm_scale() * r.distinct_reads
}

pub open spec fn rpkm_den(r: Row) -> int {
    (r.total_reads as int) * (r.end - r.start)
}

/// Strict lexicographic order on character sequences by code point, the
/// order Rust's strings sort in.
pub open spec fn seq_lt(a: Seq<char>, b: Seq<char>) -> bool
    decreases a.len(),
{
    if b.len() == 0 {
        false
    } else if a.len() == 0 {
        true
    } else if a[0] != b[0] {
        (a[0] as u32) < (b[0] as u32)
    } else {
        seq_lt(a.drop_first(), b.drop_first())
    }
}

proof fn lemma_seq_lt_irrefl(a: Seq<char>)
    ensures
        !seq_lt(a, a),
    decreases a.len(),
{
    if a.len() > 0 {
        lemma_seq_lt_irrefl(a.drop_first());
    }
}

proof fn lemma_seq_lt_trans(a: Seq<char>, b: Seq<char>, c: Seq<char>)
    requires
        seq_lt(a, b),
        seq_lt(b, c),
    ensures
        seq_lt(a, c),
    decreases a.len(),
{
    if a.len() > 0 && b.len() > 0 && c.len() > 0 && a[0] == b[0] && b[0] == c[0] {
        lemma_seq_lt_trans(a.drop_first(), b.drop_first(), c.drop_first());
    }
}

proof fn lemma_frac_trans(an: int, ad: int, bn: int, bd: int, cn: int, cd: int)
    requires
        ad > 0,
        bd > 0,
        cd > 0,
    ensures
        (an * bd == bn * ad && bn * cd == cn * bd) ==> an * cd == cn * ad,
        (an * bd == bn * ad && bn * cd < cn * bd) ==> an * cd < cn * ad,
        (an * bd < bn * ad && bn * cd == cn * bd) ==> an * cd < cn * ad,
        (an * bd < bn * ad && bn * cd < cn * bd) ==> an * cd < cn * ad,
{
    assert((an * bd == bn * ad && bn * cd == cn * bd) ==> an * cd == cn * ad) by (nonlinear_arith)
        requires
            ad > 0,
            bd > 0,
            cd > 0,
    ;
    assert((an * bd == bn * ad && bn * cd < cn * bd) ==> an * cd < cn * ad) by (nonlinear_arith)
        requires
            ad > 0,
            bd > 0,
            cd > 0,
    ;
    assert((an * bd < bn * ad && bn * cd == cn * bd) ==> an * cd < cn * ad) by (nonlinear_arith)
        requires
            ad > 0,
            bd > 0,
            cd > 0,
    ;
    assert((an * bd < bn * ad && bn * cd < cn * bd) ==> an * cd < cn * ad) by (nonlinear_arith)
        requires
            ad > 0,
            bd > 0,
            cd > 0,
    ;
}

pub open spec fn cov_lt(a: Row, b: Row) -> bool {
    cov_num(a) * cov_den(b) < cov_num(b) * cov_den(a)
}

pub open spec fn cov_eq(a: Row, b: Row) -> bool {
    cov_num(a) * cov_den(b) == cov_num(b) * cov_den(a)
}

pub open spec fn rpkm_lt(a: Row, b: Row) -> bool {
    rpkm_num(a) * rpkm_den(b) < rpkm_num(b) * rpkm_den(a)
}

pub open spec fn rpkm_eq(a: Row, b: Row) -> bool {
    rpkm_num(a) * rpkm_den(b) == rpkm_num(b) * rpkm_den(a)
}

/// The strict total order of the output: lexicographic over chromosome,
/// strand, start, end, average coverage, RPKM, transcript identifier and
/// gene identifier, the two ratios compared numerically.
pub open spec fn row_lt(a: Row, b: Row) -> bool {
    if a.seqname@ != b.seqname@ {
        seq_lt(a.seqname@, b.seqname@)
    } else if a.strand@ != b.strand@ {
        seq_lt(a.strand@, b.strand@)
    } else if a.start != b.start {
        a.start < b.start
    } else if a.end != b.end {
        a.end < b.end
    } else if !cov_eq(a, b) {
        cov_lt(a, b)
    } else if !rpkm_eq(a, b) {
        rpkm_lt(a, b)
    } else if a.transcript_id@ != b.transcript_id@ {
        seq_lt(a.transcript_id@, b.transcript_id@)
    } else if a.gene_id@ != b.gene_id@ {
        seq_lt(a.gene_id@, b.gene_id@)
    } else {
        false
    }
}

/// `row_lt` is transitive over well-formed rows of one run (rows sharing the
/// run's total-read count).
proof fn lemma_row_lt_trans(a: Row, b: Row, c: Row)
    requires
        row_wf(a),
        row_wf(b),
        row_wf(c),
        a.total_reads == b.total_reads,
        b.total_reads == c.total_reads,
        row_lt(a, b),
        row_lt(b, c),
    ensures
        row_lt(a, c),
{
    if seq_lt(a.seqname@, b.seqname@) && seq_lt(b.seqname@, c.seqname@) {
        lemma_seq_lt_trans(a.seqname@, b.seqname@, c.seqname@);
    }
    if seq_lt(a.strand@, b.strand@) && seq_lt(b.strand@, c.strand@) {
        lemma_seq_lt_trans(a.strand@, b.strand@, c.strand@);
    }
    if seq_lt(a.transcript_id@, b.transcript_id@) && seq_lt(b.transcript_id@, c.transcript_id@) {
        lemma_seq_lt_trans(a.transcript_id@, b.transcript_id@, c.transcript_id@);
    }
    if seq_lt(a.gene_id@, b.gene_id@) && seq_lt(b.gene_id@, c.gene_id@) {
        lemma_seq_lt_trans(a.gene_id@, b.gene_id@, c.gene_id@);
    }
    lemma_seq_lt_irrefl(a.seqname@);
    lemma_seq_lt_irrefl(a.strand@);
    lemma_seq_lt_irrefl(a.transcript_id@);
    lemma_seq_lt_irrefl(a.gene_id@);
    lemma_frac_trans(cov_num(a), cov_den(a), cov_num(b), cov_den(b), cov_num(c), cov_den(c));
    if a.total_reads > 0 {
        assert(rpkm_den(a) > 0 && rpkm_den(b) > 0 && rpkm_den(c) > 0) by (nonlinear_arith)
            requires
                a.total_reads > 0,
                b.total_reads > 0,
                c.total_reads > 0,
                a.start < a.end,
                b.start < b.end,
                c.start < c.end,
                rpkm_den(a) == (a.total_reads as int) * (a.end - a.start),
                rpkm_den(b) == (b.total_reads as int) * (b.end - b.start),
                rpkm_den(c) == (c.total_reads as int) * (c.end - c.start),
        ;
        lemma_frac_trans(
            rpkm_num(a),
            rpkm_den(a),
            rpkm_num(b),
            rpkm_den(b),
            rpkm_num(c),
            rpkm_den(c),
        );
    } else {
        assert(rpkm_den(a) == 0 && rpkm_den(b) == 0 && rpkm_den(c) == 0 && rpkm_eq(a, b) && rpkm_eq(
            b,
            c,
        ) && rpkm_eq(a, c) && !rpkm_lt(a, b) && !rpkm_lt(b, c) && !rpkm_lt(a, c)) by (nonlinear_arith)
            requires
                a.total_reads == 0,
                b.total_reads == 0,
                c.total_reads == 0,
                rpkm_den(a) == (a.total_reads as int) * (a.end - a.start),
                rpkm_den(b) == (b.total_reads as int) * (b.end - b.start),
                rpkm_den(c) == (c.total_reads as int) * (c.end - c.start),
                rpkm_eq(a, b) == (rpkm_num(a) * rpkm_den(b) == rpkm_num(b) * rpkm_den(a)),
                rpkm_eq(b, c) == (rpkm_num(b) * rpkm_den(c) == rpkm_num(c) * rpkm_den(b)),
                rpkm_eq(a, c) == (rpkm_num(a) * rpkm_den(c) == rpkm_num(c) * rpkm_den(a)),
                rpkm_lt(a, b) == (rpkm_num(a) * rpkm_den(b) < rpkm_num(b) * rpkm_den(a)),
                rpkm_lt(b, c) == (rpkm_num(b) * rpkm_den(c) < rpkm_num(c) * rpkm_den(b)),
                rpkm_lt(a, c) == (rpkm_num(a) * rpkm_den(c) < rpkm_num(c) * rpkm_den(a)),
        ;
    }
}

/// Compares two strings in the order their character sequences sort.
pub fn str_lt(a: &String, b: &String) -> (r: bool)
    ensures
        r == seq_lt(a@, b@),
{
    let abytes = a.as_str();
    let bbytes = b.as_str();
    let mut i: usize = 0;
    let alen = abytes.unicode_len();
    let blen = bbytes.unicode_len();
    proof {
        assert(a@.skip(0) =~= a@);
        assert(b@.skip(0) =~= b@);
    }
    loop
        invariant
            0 <= i <= alen,
            0 <= i <= blen,
            alen == a@.len(),
            blen == b@.len(),
            abytes@ == a@,
            bbytes@ == b@,
            seq_lt(a@, b@) == seq_lt(a@.skip(i as int), b@.skip(i as int)),
        decreases alen - i,
    {
        if i >= blen {
            proof {
                assert(b@.skip(i as int).len() == 0);
            }
            return false;
        }
        if i >= alen {
            proof {
                assert(a@.skip(i as int).len() == 0);
                assert(b@.skip(i as int).len() > 0);
            }
            return true;
        }
        let ca = abytes.get_char(i);
        let cb = bbytes.get_char(i);
        proof {
            assert(a@.skip(i as int)[0] == a@[i as int]);
            assert(b@.skip(i as int)[0] == b@[i as int]);
            assert(a@.skip(i as int).drop_first() =~= a@.skip(i as int + 1));
            assert(b@.skip(i as int).drop_first() =~= b@.skip(i as int + 1));
        }
        if ca != cb {
            return (ca as u32) < (cb as u32);
        }
        i = i + 1;
    }
}

/// Compares two rows of one run in the output's total order.
pub fn row_before(a: &Row, b: &Row) -> (r: bool)
    requires
        row_wf(*a),
        row_wf(*b),
        a.total_reads == b.total_reads,
    ensures
        r == row_lt(*a, *b),
{
    if !(a.seqname == b.seqname) {
        return str_lt(&a.seqname, &b.seqname);
    }
    if !(a.strand == b.strand) {
        return str_lt(&a.strand, &b.strand);
    }
    if a.start != b.start {
        return a.start < b.start;
    }
    if a.end != b.end {
        return a.end < b.end;
    }
    let la = a.end - a.start;
    let lb = b.end - b.start;
    proof {
        assert((a.coverage_bases as int) * (lb as int) <= u64::MAX * u64::MAX) by (nonlinear_arith)
            requires
                a.coverage_bases <= u64::MAX,
                lb <= u64::MAX,
        ;
        assert((b.coverage_bases as int) * (la as int) <= u64::MAX * u64::MAX) by (nonlinear_arith)
            requires
                b.coverage_bases <= u64::MAX,
                la <= u64::MAX,
        ;
    }
    let cov_ab = (a.coverage_bases as u128) * (lb as u128);
    let cov_ba = (b.coverage_bases as u128) * (la as u128);
    if cov_ab != cov_ba {
        return cov_ab < cov_ba;
    }
    if a.total_reads > 0 {
        proof {
            assert((a.distinct_reads as int) * (lb as int) <= u64::MAX * u64::MAX) by (nonlinear_arith)
                requires
                    a.distinct_reads <= u64::MAX,
                    lb <= u64::MAX,
            ;
            assert((b.distinct_reads as int) * (la as int) <= u64::MAX * u64::MAX) by (nonlinear_arith)
                requires
                    b.distinct_reads <= u64::MAX,
                    la <= u64::MAX,
            ;
        }
        let rp_ab = (a.distinct_reads as u128) * (lb as u128);
        let rp_ba = (b.distinct_reads as u128) * (la as u128);
        proof {
            let t = a.total_reads as int;
            let da = a.distinct_reads as int;
            let db = b.distinct_reads as int;
            let lai = la as int;
            let lbi = lb as int;
            assert((rpkm_num(*a) * rpkm_den(*b) < rpkm_num(*b) * rpkm_den(*a)) == (da * lbi < db
                * lai)) by (nonlinear_arith)
                requires
                    t > 0,
                    lai > 0,
                    lbi > 0,
                    rpkm_num(*a) == 10000000000 * da,
                    rpkm_num(*b) == 10000000000 * db,
                    rpkm_den(*a) == t * lai,
                    rpkm_den(*b) == t * lbi,
            ;
            assert((rpkm_num(*a) * rpkm_den(*b) == rpkm_num(*b) * rpkm_den(*a)) == (da * lbi == db
                * lai)) by (nonlinear_arith)
                requires
                    t > 0,
                    lai > 0,
                    lbi > 0,
                    rpkm_num(*a) == 10000000000 * da,
                    rpkm_num(*b) == 10000000000 * db,
                    rpkm_den(*a) == t * lai,
                    rpkm_den(*b) == t * lbi,
            ;
        }
        if rp_ab != rp_ba {
            return rp_ab < rp_ba;
        }
    } else {
        proof {
            assert(rpkm_den(*a) == 0 && rpkm_den(*b) == 0 && rpkm_eq(*a, *b)) by (nonlinear_arith)
                requires
                    a.total_reads == 0,
                    b.total_reads == 0,
                    rpkm_den(*a) == (a.total_reads as int) * (a.end - a.start),
                    rpkm_den(*b) == (b.total_reads as int) * (b.end - b.start),
                    rpkm_eq(*a, *b) == (rpkm_num(*a) * rpkm_den(*b) == rpkm_num(*b) * rpkm_den(*a)),
            ;
        }
    }
    if !(a.transcript_id == b.transcript_id) {
        return str_lt(&a.transcript_id, &b.transcript_id);
    }
    if !(a.gene_id == b.gene_id) {
        return str_lt(&a.gene_id, &b.gene_id);
    }
    false
}

/// Ascending order: no later row sorts strictly before an earlier one.
pub open spec fn sorted_rows(s: Seq<Row>) -> bool {
    forall|i: int, j: int| #![trigger s[i], s[j]] 0 <= i < j < s.len() ==> !row_lt(s[j], s[i])
}

pub open spec fn rows_wf(s: Seq<Row>, total: int) -> bool {
    forall|i: int| 0 <= i < s.len() ==> row_wf(#[trigger] s[i]) && s[i].total_reads == total
}

/// The rows of one run: each valid, all carrying the run's total-read count.
pub open spec fn rows_one_run(s: Seq<Row>) -> bool {
    exists|total: int| rows_wf(s, total)
}

proof fn lemma_insert_multiset_row(s: Seq<Row>, k: int, x: Row)
    requires
        0 <= k <= s.len(),
    ensures
        s.insert(k, x).to_multiset() == s.to_multiset().insert(x),
{
    broadcast use vstd::seq_lib::group_to_multiset_ensures;

    let left = s.subrange(0, k);
    let right = s.subrange(k, s.len() as int);
    assert(s =~= left + right);
    assert(s.insert(k, x) =~= left + (seq![x] + right));
    vstd::seq_lib::lemma_multiset_commutative(left, right);
    vstd::seq_lib::lemma_multiset_commutative(left, seq![x] + right);
    vstd::seq_lib::lemma_multiset_commutative(seq![x], right);
    assert(seq![x] =~= Seq::<Row>::empty().push(x));
    assert(Seq::<Row>::empty().to_multiset() =~= Multiset::<Row>::empty());
    assert(s.insert(k, x).to_multiset() =~= s.to_multiset().insert(x));
}

/// Sorts the rows of one run into the output's total order. The result is a
/// permutation of the input; ties keep no particular order.
pub fn sort_rows(rows: Vec<Row>) -> (r: Vec<Row>)
    requires
        rows_one_run(rows@),
    ensures
        sorted_rows(r@),
        r@.to_multiset() == rows@.to_multiset(),
        rows_one_run(r@),
{
    broadcast use vstd::seq_lib::group_to_multiset_ensures;

    let ghost total = choose|total: int| rows_wf(rows@, total);
    let rows = rows;
    let mut r: Vec<Row> = Vec::new();
    proof {
        assert(r@.to_multiset() =~= Multiset::<Row>::empty());
        assert(rows@.subrange(0, 0) =~= Seq::<Row>::empty());
        assert(Seq::<Row>::empty().to_multiset() =~= Multiset::<Row>::empty());
    }
    let mut i: usize = 0;
    while i < rows.len()
        invariant
            0 <= i <= rows@.len(),
            rows_wf(rows@, total),
            rows_wf(r@, total),
            sorted_rows(r@),
            r@.to_multiset() == rows@.subrange(0, i as int).to_multiset(),
        decreases rows@.len() - i,
    {
        let x = &rows[i];
        let mut k: usize = 0;
        while k < r.len() && !row_before(x, &r[k])
            invariant
                0 <= k <= r@.len(),
                0 <= i < rows@.len(),
                rows_wf(rows@, total),
                rows_wf(r@, total),
                *x == rows@[i as int],
                forall|j: int| 0 <= j < k ==> !row_lt(rows@[i as int], #[trigger] r@[j]),
            decreases r@.len() - k,
        {
            k = k + 1;
        }
        let ghost old_r = r@;
        let ghost xv = rows@[i as int];
        let x_owned = Row {
            seqname: rows[i].seqname.clone(),
            strand: rows[i].strand.clone(),
            start: rows[i].start,
            end: rows[i].end,
            coverage_bases: rows[i].coverage_bases,
            distinct_reads: rows[i].distinct_reads,
            total_reads: rows[i].total_reads,
            transcript_id: rows[i].transcript_id.clone(),
            gene_id: rows[i].gene_id.clone(),
        };
        proof {
            assert(x_owned == xv);
        }
        r.insert(k, x_owned);
        proof {
            lemma_insert_multiset_row(old_r, k as int, xv);
            assert(rows@.subrange(0, i as int + 1) =~= rows@.subrange(0, i as int).push(
                rows@[i as int],
            ));
            old_r.insert_ensures(k as int, xv);
            assert forall|y: int| 0 <= y < r@.len() implies row_wf(#[trigger] r@[y]) && r@[y].total_reads
                == total by {
                if y < k {
                    assert(r@[y] == old_r[y]);
                } else if y > k {
                    assert(r@[y] == old_r[y - 1]);
                }
            }
            assert forall|p: int, q: int| #![trigger r@[p], r@[q]] 0 <= p < q < r@.len() implies
                !row_lt(r@[q], r@[p]) by {
                if q < k {
                    assert(r@[p] == old_r[p] && r@[q] == old_r[q]);
                } else if q == k {
                    if p < k {
                        assert(r@[p] == old_r[p]);
                        assert(!row_lt(xv, old_r[p]));
                    }
                } else {
                    assert(r@[q] == old_r[q - 1]);
                    if p < k {
                        assert(r@[p] == old_r[p]);
                        assert(!row_lt(old_r[q - 1], old_r[p]));
                    } else if p == k {
                        // the scan stopped because the element at k sorts
                        // strictly after the inserted row
                        assert(k < old_r.len());
                        assert(row_lt(xv, old_r[k as int]));
                        if row_lt(old_r[q - 1], xv) {
                            lemma_row_lt_trans(old_r[q - 1], xv, old_r[k as int]);
                            assert(row_lt(old_r[q - 1], old_r[k as int]));
                            if (k as int) < q - 1 {
                                assert(!row_lt(old_r[q - 1], old_r[k as int]));
                            }
                            assert(false);
                        }
                    } else {
                        assert(r@[p] == old_r[p - 1]);
                        assert(!row_lt(old_r[q - 1], old_r[p - 1]));
                    }
                }
            }
        }
        i = i + 1;
    }
    proof {
        assert(rows@.subrange(0, rows@.len() as int) =~= rows@);
        assert(rows_one_run(r@)) by {
            assert(rows_wf(r@, total));
        }
    }
    r
}

} // verus!
