use vstd::prelude::*;

verus! {

use vstd::multiset::Multiset;

broadcast use vstd::seq_lib::group_to_multiset_ensures;

/// One exon interval: a half-open reference range `[start, end)` paired with
/// the originating annotation row when the interval is unmerged, or no origin
/// when it came out of merging.
#[derive(Clone, Copy, Debug, PartialEq, Eq)]
pub struct Exon {
    pub start: u64,
    pub end: u64,
    pub origin: Option<usize>,
}

/// A well-formed interval covers at least one position.
pub open spec fn exon_valid(e: Exon) -> bool {
    e.start < e.end
}

pub open spec fn valid_exons(s: Seq<Exon>) -> bool {
    forall|i: int| 0 <= i < s.len() ==> exon_valid(#[trigger] s[i])
}

pub open spec fn sorted_by_start(s: Seq<Exon>) -> bool {
    forall|i: int, j: int| #![trigger s[i], s[j]] 0 <= i < j < s.len() ==> s[i].start <= s[j].start
}

/// Consecutive intervals do not overlap: each begins at or after the end of
/// the one before it.
pub open spec fn separated(s: Seq<Exon>) -> bool {
    forall|i: int| #![trigger s[i]] 0 <= i && i + 1 < s.len() ==> s[i].end <= s[i + 1].start
}

/// The set of reference positions inside `[start, end)`.
pub open spec fn range_set(start: int, end: int) -> Set<int> {
    Set::new(|p: int| start <= p < end)
}

/// The union of the positions covered by a sequence of intervals.
pub open spec fn covered(s: Seq<Exon>) -> Set<int> {
    Set::new(|p: int| exists|i: int| 0 <= i < s.len() && (#[trigger] s[i]).start <= p < s[i].end)
}

/// Left fold of the merge rule over a sequence: an interval overlapping the
/// last emitted merged interval extends its end to the larger of the two
/// ends; any other interval starts a new merged interval with no origin.
pub open spec fn merge_spec(s: Seq<Exon>) -> Seq<Exon>
    decreases s.len(),
{
    if s.len() == 0 {
        Seq::<Exon>::empty()
    } else {
        let m = merge_spec(s.drop_last());
        let e = s.last();
        if m.len() > 0 && e.start < m.last().end && m.last().start < e.end {
            let ext = Exon {
                start: m.last().start,
                end: if m.last().end >= e.end {
                    m.last().end
                } else {
                    e.end
                },
                origin: None,
            };
            m.update(m.len() - 1, ext)
        } else {
            m.push(Exon { start: e.start, end: e.end, origin: None })
        }
    }
}

proof fn lemma_covered_push(s: Seq<Exon>, e: Exon)
    ensures
        covered(s.push(e)) == covered(s).union(range_set(e.start as int, e.end as int)),
{
    let lhs = covered(s.push(e));
    let rhs = covered(s).union(range_set(e.start as int, e.end as int));
    assert forall|p: int| lhs.contains(p) implies rhs.contains(p) by {
        let i = choose|i: int|
            0 <= i < s.push(e).len() && (#[trigger] s.push(e)[i]).start <= p < s.push(e)[i].end;
        if i < s.len() {
            assert(s[i] == s.push(e)[i]);
            assert(covered(s).contains(p));
        } else {
            assert(s.push(e)[i] == e);
        }
    }
    assert forall|p: int| rhs.contains(p) implies lhs.contains(p) by {
        if covered(s).contains(p) {
            let i = choose|i: int| 0 <= i < s.len() && (#[trigger] s[i]).start <= p < s[i].end;
            assert(s.push(e)[i] == s[i]);
        } else {
            assert(s.push(e)[s.len() as int] == e);
        }
    }
    assert(lhs =~= rhs);
}

/// What merging does to a sorted sequence of valid intervals: the output is a
/// sorted, pairwise-disjoint, valid, origin-free sequence covering exactly
/// the positions that the input covered.
pub proof fn lemma_merge_spec_props(s: Seq<Exon>)
    requires
        sorted_by_start(s),
        valid_exons(s),
    ensures
        merge_spec(s).len() <= s.len(),
        s.len() > 0 ==> merge_spec(s).len() > 0,
        valid_exons(merge_spec(s)),
        forall|i: int| 0 <= i < merge_spec(s).len() ==> (#[trigger] merge_spec(s)[i]).origin is None,
        sorted_by_start(merge_spec(s)),
        separated(merge_spec(s)),
        covered(merge_spec(s)) == covered(s),
        s.len() > 0 ==> merge_spec(s).last().start <= s.last().start,
    decreases s.len(),
{
    if s.len() == 0 {
        assert(covered(merge_spec(s)) =~= covered(s));
    } else {
        let t = s.drop_last();
        let e = s.last();
        assert(sorted_by_start(t));
        assert(valid_exons(t));
        lemma_merge_spec_props(t);
        let m = merge_spec(t);
        assert(s =~= t.push(e));
        lemma_covered_push(t, e);
        assert(exon_valid(e)) by {
            assert(s[s.len() - 1] == e);
        }
        if t.len() > 0 {
            assert(t.last() == s[s.len() - 2]);
            assert(s[s.len() - 2].start <= s[s.len() - 1].start);
        }
        if m.len() > 0 && e.start < m.last().end && m.last().start < e.end {
            let a = m.last().start;
            let b = m.last().end;
            let ext = Exon {
                start: a,
                end: if b >= e.end {
                    b
                } else {
                    e.end
                },
                origin: None,
            };
            let r = m.update(m.len() - 1, ext);
            assert(merge_spec(s) == r);
            // the extended interval covers exactly the union of the two
            assert(a <= e.start) by {
                assert(m.last().start <= t.last().start);
            }
            assert(range_set(a as int, ext.end as int) =~= range_set(a as int, b as int).union(
                range_set(e.start as int, e.end as int),
            ));
            // rewrite both m and r as drop_last + push
            assert(m =~= m.drop_last().push(m.last()));
            assert(r =~= m.drop_last().push(ext));
            lemma_covered_push(m.drop_last(), m.last());
            lemma_covered_push(m.drop_last(), ext);
            assert(covered(r) =~= covered(m).union(range_set(e.start as int, e.end as int)));
            assert(covered(r) =~= covered(s));
            // order and separation: only the last element changed, keeping its start
            assert forall|i: int, j: int| 0 <= i < j < r.len() implies #[trigger] r[i].start
                <= #[trigger] r[j].start by {
                assert(m[i].start <= m[j].start);
            }
            assert forall|i: int| 0 <= i && i + 1 < r.len() implies #[trigger] r[i].end <= r[i
                + 1].start by {
                assert(m[i].end <= m[i + 1].start);
            }
            assert(valid_exons(r)) by {
                assert forall|i: int| 0 <= i < r.len() implies exon_valid(#[trigger] r[i]) by {
                    if i < r.len() - 1 {
                        assert(r[i] == m[i]);
                    }
                }
            }
        } else {
            let n = Exon { start: e.start, end: e.end, origin: None };
            let r = m.push(n);
            assert(merge_spec(s) == r);
            lemma_covered_push(m, n);
            assert(covered(r) =~= covered(s));
            if m.len() > 0 {
                // under sortedness the only way not to merge is to start at or
                // past the end of the last merged interval
                assert(m.last().start <= t.last().start);
                assert(m.last().start < e.end);
                assert(e.start >= m.last().end);
            }
            assert forall|i: int, j: int| 0 <= i < j < r.len() implies #[trigger] r[i].start
                <= #[trigger] r[j].start by {
                if j < r.len() - 1 {
                    assert(m[i].start <= m[j].start);
                } else {
                    assert(r[j] == n);
                    if i < r.len() - 1 {
                        assert(r[i] == m[i]);
                        assert(m[i].start <= m.last().start);
                    }
                }
            }
            assert forall|i: int| 0 <= i && i + 1 < r.len() implies #[trigger] r[i].end <= r[i
                + 1].start by {
                if i + 1 < r.len() - 1 {
                    assert(m[i].end <= m[i + 1].start);
                } else {
                    assert(r[i] == m[i]);
                    assert(m[i].end <= m.last().end) by {
                        if i < m.len() - 1 {
                            assert(m[i].end <= m[i + 1].start);
                            assert(m[i + 1].start <= m.last().start);
                            assert(m.last().start < m.last().end);
                        }
                    }
                }
            }
            assert(valid_exons(r)) by {
                assert forall|i: int| 0 <= i < r.len() implies exon_valid(#[trigger] r[i]) by {
                    if i < r.len() - 1 {
                        assert(r[i] == m[i]);
                    }
                }
            }
        }
    }
}

/// A sequence that already has the shape of a merge output — sorted,
/// pairwise disjoint, valid, with no origins — merges to itself.
proof fn lemma_merge_fixed(s: Seq<Exon>)
    requires
        sorted_by_start(s),
        separated(s),
        valid_exons(s),
        forall|i: int| 0 <= i < s.len() ==> (#[trigger] s[i]).origin is None,
    ensures
        merge_spec(s) == s,
    decreases s.len(),
{
    if s.len() == 0 {
        assert(merge_spec(s) =~= s);
    } else {
        let t = s.drop_last();
        let e = s.last();
        assert(sorted_by_start(t));
        assert(separated(t));
        assert(valid_exons(t));
        lemma_merge_fixed(t);
        if t.len() > 0 {
            assert(t.last() == s[s.len() - 2]);
            assert(s[s.len() - 2].end <= s[s.len() - 1].start);
            assert(!(e.start < t.last().end));
        }
        assert(e == s[s.len() - 1]);
        assert(Exon { start: e.start, end: e.end, origin: None } == e);
        assert(merge_spec(s) =~= s);
    }
}

/// Merging is idempotent: running the merged output through the merge again
/// yields the same output.
pub proof fn lemma_merge_idempotent(s: Seq<Exon>)
    requires
        sorted_by_start(s),
        valid_exons(s),
    ensures
        merge_spec(merge_spec(s)) == merge_spec(s),
{
    lemma_merge_spec_props(s);
    lemma_merge_fixed(merge_spec(s));
}

/// Two interval sequences that are permutations of one another cover the
/// same positions.
pub proof fn lemma_covered_permutation(a: Seq<Exon>, b: Seq<Exon>)
    requires
        a.to_multiset() == b.to_multiset(),
    ensures
        covered(a) == covered(b),
{
    assert forall|p: int| covered(a).contains(p) implies covered(b).contains(p) by {
        let i = choose|i: int| 0 <= i < a.len() && (#[trigger] a[i]).start <= p < a[i].end;
        assert(a.contains(a[i]));
        assert(b.to_multiset().count(a[i]) > 0);
        assert(b.contains(a[i]));
        let j = choose|j: int| 0 <= j < b.len() && b[j] == a[i];
        assert(b[j].start <= p < b[j].end);
    }
    assert forall|p: int| covered(b).contains(p) implies covered(a).contains(p) by {
        let i = choose|i: int| 0 <= i < b.len() && (#[trigger] b[i]).start <= p < b[i].end;
        assert(b.contains(b[i]));
        assert(a.to_multiset().count(b[i]) > 0);
        assert(a.contains(b[i]));
        let j = choose|j: int| 0 <= j < a.len() && a[j] == b[i];
        assert(a[j].start <= p < a[j].end);
    }
    assert(covered(a) =~= covered(b));
}

/// The merge law: sorting a group's valid intervals and folding them through
/// the merge yields a sorted sequence of disjoint valid intervals covering
/// exactly the positions the group covered.
pub proof fn lemma_sorted_merge_cover(input: Seq<Exon>, sorted: Seq<Exon>)
    requires
        valid_exons(input),
        sorted.to_multiset() == input.to_multiset(),
        sorted_by_start(sorted),
    ensures
        valid_exons(merge_spec(sorted)),
        sorted_by_start(merge_spec(sorted)),
        separated(merge_spec(sorted)),
        covered(merge_spec(sorted)) == covered(input),
{
    assert forall|i: int| 0 <= i < sorted.len() implies exon_valid(#[trigger] sorted[i]) by {
        assert(sorted.contains(sorted[i]));
        assert(input.to_multiset().count(sorted[i]) > 0);
        assert(input.contains(sorted[i]));
        let j = choose|j: int| 0 <= j < input.len() && input[j] == sorted[i];
        assert(exon_valid(input[j]));
    }
    lemma_covered_permutation(sorted, input);
    lemma_merge_spec_props(sorted);
}

proof fn lemma_insert_multiset(s: Seq<Exon>, k: int, x: Exon)
    requires
        0 <= k <= s.len(),
    ensures
        s.insert(k, x).to_multiset() == s.to_multiset().insert(x),
{
    let left = s.subrange(0, k);
    let right = s.subrange(k, s.len() as int);
    assert(s =~= left + right);
    assert(s.insert(k, x) =~= left + (seq![x] + right));
    vstd::seq_lib::lemma_multiset_commutative(left, right);
    vstd::seq_lib::lemma_multiset_commutative(left, seq![x] + right);
    vstd::seq_lib::lemma_multiset_commutative(seq![x], right);
    assert(seq![x] =~= Seq::<Exon>::empty().push(x));
    assert(Seq::<Exon>::empty().to_multiset() =~= Multiset::<Exon>::empty());
    assert(s.insert(k, x).to_multiset() =~= s.to_multiset().insert(x));
}

/// Sorts intervals by start coordinate. The result is a permutation of the
/// input ordered by ascending start; equal starts keep no particular order.
pub fn sort_exons_by_start(exons: &Vec<Exon>) -> (r: Vec<Exon>)
    ensures
        sorted_by_start(r@),
        r@.to_multiset() == exons@.to_multiset(),
{
    let mut r: Vec<Exon> = Vec::new();
    let mut i: usize = 0;
    proof {
        assert(exons@.subrange(0, 0) =~= Seq::<Exon>::empty());
        assert(Seq::<Exon>::empty().to_multiset() =~= Multiset::<Exon>::empty());
        assert(r@.to_multiset() =~= Multiset::<Exon>::empty());
    }
    while i < exons.len()
        invariant
            0 <= i <= exons@.len(),
            sorted_by_start(r@),
            r@.to_multiset() == exons@.subrange(0, i as int).to_multiset(),
        decreases exons@.len() - i,
    {
        let x = exons[i];
        let mut k: usize = 0;
        while k < r.len() && r[k].start <= x.start
            invariant
                0 <= k <= r@.len(),
                forall|j: int| 0 <= j < k ==> (#[trigger] r@[j]).start <= x.start,
            decreases r@.len() - k,
        {
            k = k + 1;
        }
        let ghost old_r = r@;
        r.insert(k, x);
        proof {
            lemma_insert_multiset(old_r, k as int, x);
            assert(exons@.subrange(0, i as int + 1) =~= exons@.subrange(0, i as int).push(
                exons@[i as int],
            ));
            old_r.insert_ensures(k as int, x);
            assert forall|a: int, b: int| 0 <= a < b < r@.len() implies (#[trigger] r@[a]).start
                <= (#[trigger] r@[b]).start by {
                if b < k {
                    assert(r@[a] == old_r[a] && r@[b] == old_r[b]);
                } else if b == k {
                    if a < k {
                        assert(r@[a] == old_r[a]);
                    }
                } else {
                    assert(r@[b] == old_r[b - 1]);
                    if a < k {
                        assert(r@[a] == old_r[a]);
                        assert(old_r[k as int].start > x.start || k as int == old_r.len());
                        if a <= k - 1 && k <= old_r.len() && k as int - 1 <= b - 1 {
                            if a < k - 1 {
                                assert(old_r[a].start <= old_r[k - 1].start);
                            }
                        }
                        assert(old_r[a].start <= old_r[b - 1].start);
                    } else if a == k {
                        assert(r@[a] == x);
                        assert(old_r[b - 1].start >= x.start) by {
                            assert(k < old_r.len() + 1);
                            assert(old_r[k as int].start > x.start);
                            if (k as int) < b - 1 {
                                assert(old_r[k as int].start <= old_r[b - 1].start);
                            }
                        }
                    } else {
                        assert(r@[a] == old_r[a - 1]);
                        assert(old_r[a - 1].start <= old_r[b - 1].start);
                    }
                }
            }
        }
        i = i + 1;
    }
    proof {
        assert(exons@.subrange(0, exons@.len() as int) =~= exons@);
    }
    r
}

/// Coalesces a sorted run of intervals within one `(chromosome, strand)`
/// group: overlapping intervals are folded into one whose end is the larger
/// of the two ends; the merged intervals carry no origin.
pub fn merge_exons(exons: &Vec<Exon>) -> (merged: Vec<Exon>)
    ensures
        merged@ == merge_spec(exons@),
{
    let mut merged: Vec<Exon> = Vec::new();
    let mut i: usize = 0;
    proof {
        assert(exons@.subrange(0, 0) =~= Seq::<Exon>::empty());
    }
    while i < exons.len()
        invariant
            0 <= i <= exons@.len(),
            merged@ == merge_spec(exons@.subrange(0, i as int)),
        decreases exons@.len() - i,
    {
        let e = exons[i];
        let ghost prefix = exons@.subrange(0, i as int + 1);
        proof {
            assert(prefix.drop_last() =~= exons@.subrange(0, i as int));
            assert(prefix.last() == exons@[i as int]);
        }
        let mut extended = false;
        if merged.len() > 0 {
            let last = merged[merged.len() - 1];
            if e.start < last.end && last.start < e.end {
                let new_end = if last.end >= e.end {
                    last.end
                } else {
                    e.end
                };
                let ghost before = merged@;
                let _ = merged.pop();
                merged.push(Exon { start: last.start, end: new_end, origin: None });
                extended = true;
                proof {
                    assert(merged@ =~= before.update(
                        before.len() - 1,
                        Exon { start: last.start, end: new_end, origin: None },
                    ));
                }
            }
        }
        if !extended {
            merged.push(Exon { start: e.start, end: e.end, origin: None });
        }
        i = i + 1;
    }
    proof {
        assert(exons@.subrange(0, exons@.len() as int) =~= exons@);
    }
    merged
}

} // verus!
