use vstd::prelude::*;

verus! {

/// One alignment operation of a read's cigar sequence, carrying its length.
#[derive(Clone, Copy, PartialEq, Eq, Structural, Debug)]
pub enum CigarOp {
    Match(u32),
    Ins(u32),
    Del(u32),
    RefSkip(u32),
    SoftClip(u32),
    HardClip(u32),
    Pad(u32),
    Equal(u32),
    Diff(u32),
}

/// A half-open range `[start, end)` of reference coordinates.
#[derive(Clone, Copy, PartialEq, Eq, Structural, Debug)]
pub struct Span {
    pub start: u64,
    pub end: u64,
}

/// The length carried by a cigar operation.
pub open spec fn op_len(op: CigarOp) -> int {
    match op {
        CigarOp::Match(l) => l as int,
        CigarOp::Ins(l) => l as int,
        CigarOp::Del(l) => l as int,
        CigarOp::RefSkip(l) => l as int,
        CigarOp::SoftClip(l) => l as int,
        CigarOp::HardClip(l) => l as int,
        CigarOp::Pad(l) => l as int,
        CigarOp::Equal(l) => l as int,
        CigarOp::Diff(l) => l as int,
    }
}

/// Whether an operation stands for aligned sequence match and so emits a span.
pub open spec fn op_emits(op: CigarOp) -> bool {
    match op {
        CigarOp::Match(_) => true,
        CigarOp::Equal(_) => true,
        CigarOp::Diff(_) => true,
        _ => false,
    }
}

/// Whether an operation advances the reference-coordinate cursor.
pub open spec fn op_consumes_ref(op: CigarOp) -> bool {
    match op {
        CigarOp::Match(_) => true,
        CigarOp::Equal(_) => true,
        CigarOp::Diff(_) => true,
        CigarOp::Del(_) => true,
        CigarOp::RefSkip(_) => true,
        _ => false,
    }
}

/// How far a sequence of operations advances the reference cursor in all.
pub open spec fn ref_len(ops: Seq<CigarOp>) -> int
    decreases ops.len(),
{
    if ops.len() == 0 {
        0
    } else {
        (if op_consumes_ref(ops[0]) {
            op_len(ops[0])
        } else {
            0
        }) + ref_len(ops.drop_first())
    }
}

/// The reference ranges covered by sequence match when the operations are
/// applied starting at reference position `pos`: matching operations of
/// positive length emit `[pos, pos + len)`; reference-consuming operations
/// advance `pos`; all others leave it unchanged.
pub open spec fn cigar_spans(ops: Seq<CigarOp>, pos: int) -> Seq<(int, int)>
    decreases ops.len(),
{
    if ops.len() == 0 {
        Seq::<(int, int)>::empty()
    } else {
        let op = ops[0];
        let adv: int = if op_consumes_ref(op) {
            op_len(op)
        } else {
            0
        };
        let tail = cigar_spans(ops.drop_first(), pos + adv);
        if op_emits(op) && op_len(op) > 0 {
            seq![(pos, pos + op_len(op))] + tail
        } else {
            tail
        }
    }
}

/// The mathematical view of a vector of spans.
pub open spec fn spans_view(s: Seq<Span>) -> Seq<(int, int)> {
    s.map_values(|sp: Span| (sp.start as int, sp.end as int))
}

proof fn lemma_ref_len_nonneg(ops: Seq<CigarOp>)
    ensures
        ref_len(ops) >= 0,
    decreases ops.len(),
{
    if ops.len() > 0 {
        lemma_ref_len_nonneg(ops.drop_first());
    }
}

/// Converts one read's cigar operations, starting at reference position
/// `pos`, into the ordered half-open reference ranges covered by sequence
/// match. A pure coordinate transform: reference-consuming non-match
/// operations advance the cursor without emitting a range; insertions,
/// clips and padding neither advance nor emit; zero-length matches emit
/// nothing.
pub fn cigar2exons(cigar: &Vec<CigarOp>, pos: u64) -> (exons: Vec<Span>)
    requires
        pos + ref_len(cigar@) <= u64::MAX,
    ensures
        spans_view(exons@) == cigar_spans(cigar@, pos as int),
        forall|i: int| 0 <= i < exons@.len() ==> exons@[i].start < exons@[i].end,
{
    let mut exons: Vec<Span> = Vec::new();
    let mut cur: u64 = pos;
    let mut i: usize = 0;
    proof {
        lemma_ref_len_nonneg(cigar@);
        assert(cigar@.subrange(0, cigar@.len() as int) =~= cigar@);
    }
    while i < cigar.len()
        invariant
            0 <= i <= cigar@.len(),
            cur + ref_len(cigar@.subrange(i as int, cigar@.len() as int)) <= u64::MAX,
            spans_view(exons@) + cigar_spans(
                cigar@.subrange(i as int, cigar@.len() as int),
                cur as int,
            ) == cigar_spans(cigar@, pos as int),
            forall|j: int| 0 <= j < exons@.len() ==> exons@[j].start < exons@[j].end,
        decreases cigar@.len() - i,
    {
        let ghost suffix = cigar@.subrange(i as int, cigar@.len() as int);
        let ghost next_suffix = cigar@.subrange(i as int + 1, cigar@.len() as int);
        proof {
            assert(suffix.drop_first() =~= next_suffix);
            lemma_ref_len_nonneg(next_suffix);
        }
        let op = cigar[i];
        let (emits, advances) = match op {
            CigarOp::Match(_) => (true, true),
            CigarOp::Equal(_) => (true, true),
            CigarOp::Diff(_) => (true, true),
            CigarOp::Del(_) => (false, true),
            CigarOp::RefSkip(_) => (false, true),
            CigarOp::Ins(_) => (false, false),
            CigarOp::SoftClip(_) => (false, false),
            CigarOp::HardClip(_) => (false, false),
            CigarOp::Pad(_) => (false, false),
        };
        let len: u32 = match op {
            CigarOp::Match(l) => l,
            CigarOp::Ins(l) => l,
            CigarOp::Del(l) => l,
            CigarOp::RefSkip(l) => l,
            CigarOp::SoftClip(l) => l,
            CigarOp::HardClip(l) => l,
            CigarOp::Pad(l) => l,
            CigarOp::Equal(l) => l,
            CigarOp::Diff(l) => l,
        };
        let ghost old_exons = exons@;
        let ghost old_cur = cur as int;
        if advances {
            cur = cur + len as u64;
        }
        if emits && len > 0 {
            exons.push(Span { start: cur - len as u64, end: cur });
            proof {
                assert(spans_view(exons@) =~= spans_view(old_exons) + seq![
                    (old_cur, old_cur + op_len(op)),
                ]);
            }
        }
        proof {
            assert(spans_view(exons@) + cigar_spans(next_suffix, cur as int) == cigar_spans(
                cigar@,
                pos as int,
            ));
        }
        i = i + 1;
    }
    proof {
        assert(cigar@.subrange(cigar@.len() as int, cigar@.len() as int) =~= Seq::<
            CigarOp,
        >::empty());
        assert(spans_view(exons@) + Seq::<(int, int)>::empty() =~= spans_view(exons@));
    }
    exons
}

} // verus!
