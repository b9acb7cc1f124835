use vstd::prelude::*;

verus! {

use vstd::arithmetic::power2::{pow2, lemma_pow2_unfold, lemma_pow2_pos, lemma_pow2_strictly_increases};
use vstd::arithmetic::div_mod::lemma_div_denominator;
use vstd::pervasive::cloned;

/// Enumerates the subsets of a slice. Subset number `position` holds the
/// elements whose index has its bit set in `position`; the subsets come in
/// increasing numeric order, the empty one first.
pub struct PowerSet<'a, T: 'a> {
    pub source: &'a [T],
    pub position: usize,
}

/// The indices below `n` whose bit is set in `p`, in ascending order.
pub open spec fn set_bit_indices(p: int, n: int) -> Seq<int>
    decreases n,
{
    if n <= 0 {
        Seq::<int>::empty()
    } else {
        set_bit_indices(p, n - 1) + (if (p / pow2((n - 1) as nat) as int) % 2 == 1 {
            seq![n - 1]
        } else {
            Seq::<int>::empty()
        })
    }
}

proof fn lemma_set_bit_indices_in_range(p: int, n: int)
    ensures
        forall|k: int|
            0 <= k < set_bit_indices(p, n).len() ==> 0 <= #[trigger] set_bit_indices(p, n)[k] < n,
    decreases n,
{
    if n > 0 {
        lemma_set_bit_indices_in_range(p, n - 1);
        let prev = set_bit_indices(p, n - 1);
        let cur = set_bit_indices(p, n);
        assert forall|k: int| 0 <= k < cur.len() implies 0 <= #[trigger] cur[k] < n by {
            if k < prev.len() {
                assert(cur[k] == prev[k]);
            } else {
                assert(cur[k] == n - 1);
            }
        }
    }
}

impl<'a, T> PowerSet<'a, T> where T: Clone {
    /// Starts the enumeration at the empty subset.
    pub fn new(source: &'a [T]) -> (r: PowerSet<'a, T>)
        ensures
            r.source == source,
            r.position == 0,
    {
        PowerSet { source: source, position: 0 }
    }

    /// The next subset, or nothing once all of them came out: clones of
    /// exactly the elements whose index bit is set in the current position,
    /// in ascending index order. The enumeration needs one position number
    /// per subset, so the slice must be short enough for their count to fit
    /// in a machine word.
    pub fn next(&mut self) -> (r: Option<Vec<T>>)
        requires
            pow2(old(self).source@.len() as nat) <= usize::MAX as nat,
        ensures
            final(self).source == old(self).source,
            ((old(self).position as nat) < pow2(old(self).source@.len() as nat)) <==> (r is Some),
            r is None ==> final(self).position == old(self).position,
            r matches Some(v) ==> {
                let picked = set_bit_indices(
                    old(self).position as int,
                    old(self).source@.len() as int,
                );
                &&& final(self).position == old(self).position + 1
                &&& v@.len() == picked.len()
                &&& forall|k: int|
                    0 <= k < v@.len() ==> 0 <= #[trigger] picked[k] < old(self).source@.len()
                        && cloned::<T>(old(self).source@[picked[k]], v@[k])
            },
    {
        let n = self.source.len();
        // 2^n, computed without overflow thanks to the bound above
        let mut cap: usize = 1;
        let mut i: usize = 0;
        proof {
            lemma_pow2_pos(n as nat);
            vstd::arithmetic::power2::lemma2_to64();
        }
        while i < n
            invariant
                0 <= i <= n,
                n == self.source@.len(),
                cap == pow2(i as nat),
                pow2(n as nat) <= usize::MAX as nat,
            decreases n - i,
        {
            proof {
                lemma_pow2_unfold((i + 1) as nat);
                if (i as nat) + 1 < n as nat {
                    lemma_pow2_strictly_increases((i + 1) as nat, n as nat);
                }
            }
            cap = cap * 2;
            i = i + 1;
        }
        if self.position >= cap {
            return None;
        }
        let ghost p = self.position as int;
        let mut subset: Vec<T> = Vec::new();
        let mut rem: usize = self.position;
        let mut idx: usize = 0;
        proof {
            vstd::arithmetic::power2::lemma2_to64();
            assert(pow2(0) == 1);
            lemma_set_bit_indices_in_range(p, n as int);
        }
        while idx < n
            invariant
                0 <= idx <= n,
                n == self.source@.len(),
                p == self.position as int,
                rem as int == p / (pow2(idx as nat) as int),
                subset@.len() == set_bit_indices(p, idx as int).len(),
                forall|k: int|
                    0 <= k < subset@.len() ==> 0 <= #[trigger] set_bit_indices(p, idx as int)[k]
                        < idx && cloned::<T>(
                        self.source@[set_bit_indices(p, idx as int)[k]],
                        subset@[k],
                    ),
            decreases n - idx,
        {
            let ghost before = set_bit_indices(p, idx as int);
            let ghost after = set_bit_indices(p, idx as int + 1);
            proof {
                lemma_set_bit_indices_in_range(p, idx as int);
            }
            let bit = rem % 2 == 1;
            proof {
                lemma_pow2_unfold((idx + 1) as nat);
                lemma_pow2_pos(idx as nat);
                lemma_div_denominator(p, pow2(idx as nat) as int, 2);
                if bit {
                    assert(after =~= before + seq![idx as int]);
                } else {
                    assert(after =~= before);
                }
            }
            if bit {
                let element = self.source[idx].clone();
                proof {
                    assert(cloned::<T>(self.source@[idx as int], element));
                }
                subset.push(element);
                proof {
                    assert forall|k: int| 0 <= k < subset@.len() implies 0 <= #[trigger] after[k]
                        < idx + 1 && cloned::<T>(self.source@[after[k]], subset@[k]) by {
                        if k < subset@.len() - 1 {
                            assert(after[k] == before[k]);
                            assert(subset@[k] == subset@.drop_last()[k]);
                        } else {
                            assert(after[k] == idx as int);
                        }
                    }
                }
            }
            rem = rem / 2;
            idx = idx + 1;
        }
        self.position = self.position + 1;
        Some(subset)
    }
}

} // verus!
