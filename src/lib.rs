//! Longest common subsequences and substrings of two sequences, and diffs derived from them.
//!
//! `LcsTable` builds the dynamic-programming table of common-subsequence lengths once and
//! answers every query from it: one longest common subsequence, all of them, or a diff.
//! `Subsequence` offers the same engine with projection helpers, and `Substring` finds the
//! longest contiguous run that two sequences share.
//!
//! Elements are compared with their type's `==`, which must behave as its specification
//! says (`obeys_eq_spec`). Results are described over positions in `model`: a result pair
//! `(i, j)` stands for the elements `a[i]` and `b[j]`, and two results that use different
//! positions are different even where their elements are equal. The single best
//! subsequence and the diff break ties the same way: where dropping the last element of
//! `a` or the last element of `b` keeps the same length, the element of `a` is dropped.
//! `laws` states what holds of every pair of inputs.
use vstd::prelude::*;
use vstd::std_specs::cmp::PartialEqSpec;

pub mod engine;
pub mod laws;
pub mod model;
pub mod ptr_eq_vec;
pub mod subsequence;
pub mod substring;

pub use ptr_eq_vec::PtrEqVecPair;
pub use subsequence::Subsequence;
pub use substring::Substring;

use crate::engine::{
    all_refs, best_positions, build_lengths, diff_positions, holds_lengths, pick_refs, widen_step,
    widen_steps,
};
use crate::model::{
    all_paths, best_path, diff_path, lcs_len, lemma_best_path_within, lemma_diff_path_within, lists,
    picks, steps_within,
};

verus! {

/// One step of a diff from `a` to `b`: an element only in `b`, an element kept from both,
/// or an element only in `a`.
#[derive(Debug, PartialEq, Eq)]
pub enum DiffComponent<T> {
    Insertion(T),
    Unchanged(T, T),
    Deletion(T),
}

/// The table of longest-common-subsequence lengths between two borrowed sequences `a` and
/// `b`, built once at construction. Every query backtracks through it from the cell
/// `(a.len(), b.len())` without changing it.
#[derive(Debug)]
pub struct LcsTable<'a, T: Eq> {
    lengths: Vec<Vec<usize>>,
    a: &'a [T],
    b: &'a [T],
}

impl<'a, T: Eq> LcsTable<'a, T> {
    /// The first sequence.
    pub closed spec fn seq_a(&self) -> Seq<T> {
        self.a@
    }

    /// The second sequence.
    pub closed spec fn seq_b(&self) -> Seq<T> {
        self.b@
    }

    #[verifier::type_invariant]
    spec fn inv(&self) -> bool {
        &&& T::obeys_eq_spec()
        &&& holds_lengths(self.lengths@, self.a@, self.b@)
    }

    /// Builds the `(a.len() + 1) x (b.len() + 1)` table for matching `a` against `b`. A row
    /// holds `b.len() + 1` entries, so `b` is shorter than `usize::MAX`.
    pub fn new(a: &'a [T], b: &'a [T]) -> (r: LcsTable<'a, T>)
        requires
            T::obeys_eq_spec(),
            b@.len() < usize::MAX,
        ensures
            r.seq_a() == a@,
            r.seq_b() == b@,
    {
        let lengths = build_lengths(a, b);
        LcsTable { lengths, a, b }
    }

    /// The table itself: entry `[i][j]` is the length of a longest common subsequence of the
    /// first `i` elements of `a` and the first `j` of `b`.
    pub fn lengths(&self) -> (r: &Vec<Vec<usize>>)
        ensures
            holds_lengths(r@, self.seq_a(), self.seq_b()),
    {
        proof {
            use_type_invariant(self);
        }
        &self.lengths
    }

    /// One longest common subsequence, as pairs `(elem_a, elem_b)` of equal elements in
    /// increasing order of position. Where dropping the last element of `a` or of `b` keeps
    /// the same length, the backtrack drops the one of `a`.
    pub fn longest_common_subsequence(&self) -> (r: Vec<(&T, &T)>)
        ensures
            picks(r@, self.seq_a(), self.seq_b(), best_path(self.seq_a(), self.seq_b(), self.seq_a().len(), self.seq_b().len())),
    {
        proof {
            use_type_invariant(self);
            lemma_best_path_within(self.a@, self.b@, self.a@.len(), self.b@.len());
        }
        let p = best_positions(self.a, self.b, &self.lengths, self.a.len(), self.b.len());
        pick_refs(self.a, self.b, &p)
    }

    /// All longest common subsequences, each as pairs `(elem_a, elem_b)` in increasing order
    /// of position. Two results are distinct when they use different positions, even where
    /// their elements are equal. The number of results can grow exponentially with the
    /// length of the inputs.
    pub fn longest_common_subsequences(&self) -> (r: Vec<Vec<(&T, &T)>>)
        ensures
            lists(r@, self.seq_a(), self.seq_b(), all_paths(self.seq_a(), self.seq_b())),
    {
        proof {
            use_type_invariant(self);
        }
        all_refs(self.a, self.b, &self.lengths, self.a.len(), self.b.len())
    }

    /// The diff from `a` to `b`: every element of `a` appears once, as a deletion or kept,
    /// and every element of `b` once, as an insertion or kept, in order. Ties are broken as
    /// in `longest_common_subsequence`, so the kept pairs are exactly that subsequence.
    pub fn diff(&self) -> (r: Vec<DiffComponent<&T>>)
        ensures
            diff_picks(r@, self.seq_a(), self.seq_b(), diff_path(self.seq_a(), self.seq_b(), self.seq_a().len(), self.seq_b().len())),
    {
        proof {
            use_type_invariant(self);
            lemma_diff_path_within(self.a@, self.b@, self.a@.len(), self.b@.len());
        }
        let steps = diff_positions(self.a, self.b, &self.lengths, self.a.len(), self.b.len());
        let mut r: Vec<DiffComponent<&T>> = Vec::new();
        let mut k: usize = 0;
        while k < steps.len()
            invariant
                widen_steps(steps@) == diff_path(self.a@, self.b@, self.a@.len(), self.b@.len()),
                steps_within(widen_steps(steps@), self.a@.len() as int, self.b@.len() as int),
                k <= steps@.len(),
                r@.len() == k,
                forall|q: int| 0 <= q < k ==> diff_pick(#[trigger] r@[q], self.a@, self.b@, widen_steps(steps@)[q]),
            decreases steps@.len() - k,
        {
            proof {
                assert(widen_steps(steps@)[k as int] == widen_step(steps@[k as int]));
            }
            let c = match &steps[k] {
                DiffComponent::Insertion(j) => DiffComponent::Insertion(&self.b[*j]),
                DiffComponent::Unchanged(i, j) => DiffComponent::Unchanged(&self.a[*i], &self.b[*j]),
                DiffComponent::Deletion(i) => DiffComponent::Deletion(&self.a[*i]),
            };
            r.push(c);
            k += 1;
        }
        r
    }

    /// The length of a longest common subsequence of `a` and `b`.
    pub fn length(&self) -> (r: usize)
        ensures
            r == lcs_len(self.seq_a(), self.seq_b(), self.seq_a().len(), self.seq_b().len()),
    {
        proof {
            use_type_invariant(self);
        }
        if self.a.len() == 0 || self.b.len() == 0 {
            return 0;
        }
        self.lengths[self.a.len()][self.b.len()]
    }
}

/// `c` is the step `d`, with the elements of `a` and `b` at its positions.
pub open spec fn diff_pick<T>(c: DiffComponent<&T>, a: Seq<T>, b: Seq<T>, d: DiffComponent<int>) -> bool {
    match (c, d) {
        (DiffComponent::Insertion(y), DiffComponent::Insertion(j)) => *y == b[j],
        (DiffComponent::Unchanged(x, y), DiffComponent::Unchanged(i, j)) => *x == a[i] && *y == b[j],
        (DiffComponent::Deletion(x), DiffComponent::Deletion(i)) => *x == a[i],
        _ => false,
    }
}

/// `r` is the diff `d` over positions, step by step, with the elements at those positions.
pub open spec fn diff_picks<T>(r: Seq<DiffComponent<&T>>, a: Seq<T>, b: Seq<T>, d: Seq<DiffComponent<int>>) -> bool {
    &&& r.len() == d.len()
    &&& forall|k: int| 0 <= k < r.len() ==> diff_pick(#[trigger] r[k], a, b, d[k])
}

} // verus!
