//! Lazy enumeration of all permutations of a vector. Each step rotates a
//! suffix of the element vector in place, driven by one rotation counter per
//! position; every yielded vector is a rearrangement of the elements given
//! at construction.

use vstd::prelude::*;
use crate::vec_util::{vec_dup, vec_replace, vec_swap};

verus! {

/// `n` factorial.
pub open spec fn factorial(n: nat) -> nat
    decreases n,
{
    if n <= 1 {
        1
    } else {
        n * factorial((n - 1) as nat)
    }
}

/// Factorial never shrinks as its argument grows.
proof fn lemma_factorial_monotone(a: nat, b: nat)
    requires
        a <= b,
    ensures
        factorial(a) <= factorial(b),
    decreases b,
{
    if a < b && b > 1 {
        lemma_factorial_monotone(a, (b - 1) as nat);
        assert(factorial(b) == b * factorial((b - 1) as nat));
        assert(b * factorial((b - 1) as nat) >= 1 * factorial((b - 1) as nat))
            by (nonlinear_arith)
            requires
                b >= 1,
        ;
    }
}

pub struct PermuteIter<T> {
    elems: Vec<T>,
    items_left: usize,
    indices: Option<Vec<usize>>,
}

impl<T: Copy> PermuteIter<T> {
    /// Iterator state soundness: one rotation counter per element, each
    /// keeping its swap target in range.
    pub closed spec fn wf(&self) -> bool {
        match self.indices {
            None => true,
            Some(ind) => ind@.len() == self.elems@.len() && forall|i: int|
                0 <= i < ind@.len() ==> i + (#[trigger] ind@[i]) < self.elems@.len(),
        }
    }

    /// The elements being permuted, in their current order.
    pub closed spec fn contents(&self) -> Seq<T> {
        self.elems@
    }

    /// How many arrangements are still to come.
    pub closed spec fn remaining(&self) -> nat {
        self.items_left as nat
    }

    /// Whether the enumeration has yielded anything yet.
    pub closed spec fn started(&self) -> bool {
        self.indices is Some
    }

    /// Every rotation counter sits at its last value: the cycle is
    /// complete, and the next call yields nothing.
    pub closed spec fn exhausted(&self) -> bool {
        match self.indices {
            None => false,
            Some(ind) => ind@.len() == self.elems@.len() && forall|i: int|
                0 <= i < ind@.len() ==> i + (#[trigger] ind@[i]) == self.elems@.len() - 1,
        }
    }

    pub fn new(elems: Vec<T>) -> (r: Self)
        requires
            factorial(elems@.len()) <= usize::MAX,
        ensures
            r.wf(),
            !r.started(),
            r.contents() == elems@,
            r.remaining() == factorial(elems@.len()),
    {
        let items_left = Self::permutation_count(&elems);
        PermuteIter { elems, items_left, indices: None }
    }

    /// How many permutations `elems` has: the factorial of its length.
    fn permutation_count(elems: &Vec<T>) -> (r: usize)
        requires
            factorial(elems@.len()) <= usize::MAX,
        ensures
            r == factorial(elems@.len()),
    {
        let n = elems.len();
        let mut acc: usize = 1;
        let mut k: usize = 1;
        while k < n
            invariant
                n == elems@.len(),
                factorial(n as nat) <= usize::MAX,
                n == 0 ==> k == 1,
                n >= 1 ==> 1 <= k <= n,
                acc == factorial(k as nat),
            decreases n - k,
        {
            proof {
                lemma_factorial_monotone((k + 1) as nat, n as nat);
                assert(factorial((k + 1) as nat) == (k + 1) * factorial(k as nat));
            }
            k = k + 1;
            acc = acc * k;
        }
        proof {
            assert(factorial(0) == factorial(1));
        }
        acc
    }

    /// How many arrangements are still to come.
    pub fn len(&self) -> (r: usize)
        ensures
            r == self.remaining(),
    {
        self.items_left
    }

    /// The next arrangement, or `None` once the enumeration is exhausted.
    /// Whatever comes out holds exactly the elements given at construction.
    pub fn next(&mut self) -> (r: Option<Vec<T>>)
        requires
            old(self).wf(),
        ensures
            final(self).wf(),
            final(self).started(),
            final(self).contents().to_multiset() == old(self).contents().to_multiset(),
            !old(self).started() ==> r is Some && final(self).contents() == old(self).contents(),
            r is None <==> old(self).exhausted(),
            final(self).remaining() == if r is Some && old(self).started() && old(self).remaining()
                > 0 {
                (old(self).remaining() - 1) as nat
            } else {
                old(self).remaining()
            },
            match r {
                Some(v) => v@ == final(self).contents(),
                None => true,
            },
    {
        let n = self.elems.len();
        let mut indices_opt: Option<Vec<usize>> = None;
        core::mem::swap(&mut indices_opt, &mut self.indices);
        match indices_opt {
            None => {
                let mut zeros: Vec<usize> = Vec::new();
                while zeros.len() < n
                    invariant
                        zeros@.len() <= n,
                        forall|i: int| 0 <= i < zeros@.len() ==> (#[trigger] zeros@[i]) == 0,
                    decreases n - zeros@.len(),
                {
                    zeros.push(0);
                }
                self.indices = Some(zeros);
                Some(vec_dup(&self.elems))
            },
            Some(mut indices) => {
                let ghost m0 = self.elems@.to_multiset();
                let ghost ind0 = indices@;
                let mut i: usize = indices.len();
                while i > 0
                    invariant
                        i <= indices@.len(),
                        indices@.len() == n,
                        ind0.len() == n,
                        self.elems@.len() == n,
                        self.items_left == old(self).items_left,
                        old(self).started(),
                        old(self).exhausted() == (forall|p: int|
                            0 <= p < n ==> p + (#[trigger] ind0[p]) == n - 1),
                        self.indices is None,
                        self.elems@.to_multiset() == m0,
                        m0 == old(self).contents().to_multiset(),
                        forall|p: int| 0 <= p < i ==> indices@[p] == ind0[p],
                        forall|p: int| i <= p < n ==> p + (#[trigger] ind0[p]) == n - 1,
                        forall|p: int|
                            0 <= p < indices@.len() ==> p + (#[trigger] indices@[p]) < n,
                    decreases i,
                {
                    i = i - 1;
                    let choice = indices[i];
                    proof {
                        assert(choice == ind0[i as int]);
                    }
                    let index = i + choice;
                    vec_swap(&mut self.elems, i, index);
                    let next_index = index + 1;
                    if next_index < n {
                        vec_replace(&mut indices, i, choice + 1);
                        vec_swap(&mut self.elems, next_index, i);
                        // The remaining-count bookkeeping stops at zero
                        // rather than wrapping.
                        if self.items_left > 0 {
                            self.items_left = self.items_left - 1;
                        }
                        self.indices = Some(indices);
                        proof {
                            // This position could still advance, so the old
                            // counters were not all at their last value.
                            assert(i + ind0[i as int] < n - 1);
                            assert(!old(self).exhausted());
                        }
                        return Some(vec_dup(&self.elems));
                    } else {
                        proof {
                            assert(i + ind0[i as int] == n - 1);
                        }
                        vec_replace(&mut indices, i, 0);
                    }
                }
                proof {
                    assert(old(self).exhausted());
                }
                self.indices = Some(indices);
                None
            },
        }
    }
}

} // verus!
