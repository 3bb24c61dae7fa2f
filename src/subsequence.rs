//! The longest-common-subsequence engine with projection helpers: the best subsequence or
//! all of them, as pairs or as the elements of one side only, and the diff.
use vstd::prelude::*;
use vstd::std_specs::cmp::PartialEqSpec;

use crate::engine::{
    all_refs, best_positions, build_lengths, diff_positions, holds_lengths, pick_refs, widen_step,
    widen_steps,
};
use crate::model::{
    all_paths, best_path, diff_path, lcs_len, lemma_best_path_within, lemma_diff_path_within, lists,
    paths_from, picks, steps_within,
};
use crate::ptr_eq_vec::PtrEqVecPair;

verus! {

/// One step of a diff from `a` to `b`: an element only in `b`, an element kept from both,
/// or an element only in `a`.
#[derive(Debug, PartialEq, Eq)]
pub enum DiffComponent<T> {
    Insertion(T),
    Unchanged(T, T),
    Deletion(T),
}

/// `c` is the step `d` over positions, with the elements of `a` and `b` at its positions.
pub open spec fn step_pick<T>(c: DiffComponent<&T>, a: Seq<T>, b: Seq<T>, d: crate::DiffComponent<int>) -> bool {
    match (c, d) {
        (DiffComponent::Insertion(y), crate::DiffComponent::Insertion(j)) => *y == b[j],
        (DiffComponent::Unchanged(x, y), crate::DiffComponent::Unchanged(i, j)) => *x == a[i] && *y == b[j],
        (DiffComponent::Deletion(x), crate::DiffComponent::Deletion(i)) => *x == a[i],
        _ => false,
    }
}

/// `r` is the diff `d` over positions, step by step, with the elements at those positions.
pub open spec fn step_picks<T>(r: Seq<DiffComponent<&T>>, a: Seq<T>, b: Seq<T>, d: Seq<crate::DiffComponent<int>>) -> bool {
    &&& r.len() == d.len()
    &&& forall|k: int| 0 <= k < r.len() ==> step_pick(#[trigger] r[k], a, b, d[k])
}

/// `r` holds the elements of `s` at the positions that `p` names on the side `first`
/// (the side of `a`) or the other.
pub open spec fn picks_side<T>(r: Seq<&T>, s: Seq<T>, p: Seq<(int, int)>, first: bool) -> bool {
    &&& r.len() == p.len()
    &&& forall|k: int| 0 <= k < r.len() ==> *(#[trigger] r[k]) == s[if first { p[k].0 } else { p[k].1 }]
}

/// `r` lists, one for each position sequence of `paths` and each once, the elements of `s`
/// on one side.
pub open spec fn lists_side<T>(r: Seq<Vec<&T>>, s: Seq<T>, paths: Set<Seq<(int, int)>>, first: bool) -> bool {
    exists|ps: Seq<Seq<(int, int)>>|
        {
            &&& ps.len() == r.len()
            &&& ps.no_duplicates()
            &&& ps.to_set() == paths
            &&& forall|k: int| 0 <= k < r.len() ==> picks_side((#[trigger] r[k])@, s, ps[k], first)
        }
}

/// The pair lists that a list of wrappers holds.
pub open spec fn inners<'a, T>(r: Seq<PtrEqVecPair<'a, T>>) -> Seq<Vec<(&'a T, &'a T)>> {
    r.map_values(|p: PtrEqVecPair<'a, T>| p.inner)
}

/// One side of a list of pairs.
fn side<'a, T>(v: &Vec<(&'a T, &'a T)>, first: bool) -> (r: Vec<&'a T>)
    ensures
        r@.len() == v@.len(),
        forall|k: int| 0 <= k < r@.len() ==> (#[trigger] r@[k]) == if first { v@[k].0 } else { v@[k].1 },
{
    let mut r: Vec<&'a T> = Vec::new();
    let mut k: usize = 0;
    while k < v.len()
        invariant
            k <= v@.len(),
            r@.len() == k,
            forall|q: int| 0 <= q < k ==> (#[trigger] r@[q]) == if first { v@[q].0 } else { v@[q].1 },
        decreases v@.len() - k,
    {
        let e = if first {
            v[k].0
        } else {
            v[k].1
        };
        r.push(e);
        k += 1;
    }
    r
}

/// One side of every list of pairs.
fn sides<'a, T>(vs: Vec<PtrEqVecPair<'a, T>>, first: bool) -> (r: Vec<Vec<&'a T>>)
    ensures
        r@.len() == vs@.len(),
        forall|k: int|
            0 <= k < r@.len() ==> {
                &&& (#[trigger] r@[k])@.len() == vs@[k].inner@.len()
                &&& forall|q: int| 0 <= q < r@[k]@.len() ==> r@[k]@[q] == if first { vs@[k].inner@[q].0 } else { vs@[k].inner@[q].1 }
            },
{
    let mut r: Vec<Vec<&'a T>> = Vec::new();
    let mut k: usize = 0;
    while k < vs.len()
        invariant
            k <= vs@.len(),
            r@.len() == k,
            forall|x: int|
                0 <= x < k ==> {
                    &&& (#[trigger] r@[x])@.len() == vs@[x].inner@.len()
                    &&& forall|q: int| 0 <= q < r@[x]@.len() ==> r@[x]@[q] == if first { vs@[x].inner@[q].0 } else { vs@[x].inner@[q].1 }
                },
        decreases vs@.len() - k,
    {
        let one = side(&vs[k].inner, first);
        r.push(one);
        k += 1;
    }
    r
}

/// The table of longest-common-subsequence lengths between two borrowed sequences `a` and
/// `b`, with queries that project their results onto either side.
#[derive(Debug)]
pub struct Subsequence<'a, T: Eq> {
    lengths: Vec<Vec<usize>>,
    a: &'a [T],
    b: &'a [T],
}

impl<'a, T: Eq> Subsequence<'a, T> {
    /// The first sequence.
    pub closed spec fn seq_a(&self) -> Seq<T> {
        self.a@
    }

    /// The second sequence.
    pub closed spec fn seq_b(&self) -> Seq<T> {
        self.b@
    }

    /// The single best subsequence of the whole sequences, over positions.
    pub open spec fn best(&self) -> Seq<(int, int)> {
        best_path(self.seq_a(), self.seq_b(), self.seq_a().len(), self.seq_b().len())
    }

    #[verifier::type_invariant]
    spec fn inv(&self) -> bool {
        &&& T::obeys_eq_spec()
        &&& holds_lengths(self.lengths@, self.a@, self.b@)
    }

    /// Builds the `(a.len() + 1) x (b.len() + 1)` table for matching `a` against `b`. A row
    /// holds `b.len() + 1` entries, so `b` is shorter than `usize::MAX`.
    pub fn new(a: &'a [T], b: &'a [T]) -> (r: Subsequence<'a, T>)
        requires
            T::obeys_eq_spec(),
            b@.len() < usize::MAX,
        ensures
            r.seq_a() == a@,
            r.seq_b() == b@,
    {
        let lengths = build_lengths(a, b);
        Subsequence { lengths, a, b }
    }

    /// The table itself: entry `[i][j]` is the length of a longest common subsequence of the
    /// first `i` elements of `a` and the first `j` of `b`.
    pub fn lengths(&self) -> (r: &Vec<Vec<usize>>)
        ensures
            holds_lengths(r@, self.seq_a(), self.seq_b()),
    {
        proof {
            use_type_invariant(self);
        }
        &self.lengths
    }

    /// The longest common subsequence, as pairs `(elem_a, elem_b)` in increasing order of
    /// position. Ties drop the element of `a` first.
    pub fn as_ref_both(&self) -> (r: Vec<(&T, &T)>)
        ensures
            picks(r@, self.seq_a(), self.seq_b(), self.best()),
    {
        proof {
            use_type_invariant(self);
        }
        self.find_lcs(self.a.len(), self.b.len())
    }

    /// The elements of `a` in the longest common subsequence.
    pub fn as_ref_a(&self) -> (r: Vec<&T>)
        ensures
            picks_side(r@, self.seq_a(), self.best(), true),
    {
        proof {
            use_type_invariant(self);
        }
        let v = self.find_lcs(self.a.len(), self.b.len());
        side(&v, true)
    }

    /// The elements of `b` in the longest common subsequence.
    pub fn as_ref_b(&self) -> (r: Vec<&T>)
        ensures
            picks_side(r@, self.seq_b(), self.best(), false),
    {
        proof {
            use_type_invariant(self);
        }
        let v = self.find_lcs(self.a.len(), self.b.len());
        side(&v, false)
    }

    /// The longest common subsequence of `a[..i]` and `b[..j]` that the backtrack from
    /// `(i, j)` finds.
    fn find_lcs(&self, i: usize, j: usize) -> (r: Vec<(&T, &T)>)
        requires
            i <= self.seq_a().len(),
            j <= self.seq_b().len(),
        ensures
            picks(r@, self.seq_a(), self.seq_b(), best_path(self.seq_a(), self.seq_b(), i as nat, j as nat)),
    {
        proof {
            use_type_invariant(self);
            lemma_best_path_within(self.a@, self.b@, i as nat, j as nat);
        }
        let p = best_positions(self.a, self.b, &self.lengths, i, j);
        pick_refs(self.a, self.b, &p)
    }

    /// All longest common subsequences, as pairs `(elem_a, elem_b)`, each sequence of
    /// positions once. The number of results can grow exponentially with the length of
    /// the inputs.
    pub fn all_as_ref_both(&self) -> (r: Vec<Vec<(&T, &T)>>)
        ensures
            lists(r@, self.seq_a(), self.seq_b(), all_paths(self.seq_a(), self.seq_b())),
    {
        proof {
            use_type_invariant(self);
        }
        let found = self.find_all_lcs(self.a.len(), self.b.len());
        let ghost before = inners(found@);
        let mut r: Vec<Vec<(&T, &T)>> = Vec::new();
        let mut rest = found;
        let mut k: usize = 0;
        let n = rest.len();
        // Unwrapping from the back keeps each list in place without copying it.
        while k < n
            invariant
                n == before.len(),
                k <= n,
                rest@.len() == n - k,
                forall|q: int| 0 <= q < rest@.len() ==> (#[trigger] rest@[q]).inner == before[q],
                r@.len() == k,
                forall|q: int| 0 <= q < k ==> (#[trigger] r@[q]) == before[n - 1 - q],
            decreases n - k,
        {
            let last = rest.pop().unwrap();
            r.push(last.unpack());
            k += 1;
        }
        let mut out: Vec<Vec<(&T, &T)>> = Vec::new();
        while r.len() > 0
            invariant
                r@.len() + out@.len() == n,
                forall|q: int| 0 <= q < r@.len() ==> (#[trigger] r@[q]) == before[n - 1 - q],
                forall|q: int| 0 <= q < out@.len() ==> (#[trigger] out@[q]) == before[q],
            decreases r@.len(),
        {
            let v = r.pop().unwrap();
            out.push(v);
        }
        assert(out@ =~= before);
        out
    }

    /// The elements of `a` in each longest common subsequence, one list for each sequence
    /// of positions.
    pub fn all_as_ref_a(&self) -> (r: Vec<Vec<&T>>)
        ensures
            lists_side(r@, self.seq_a(), all_paths(self.seq_a(), self.seq_b()), true),
    {
        proof {
            use_type_invariant(self);
        }
        let found = self.find_all_lcs(self.a.len(), self.b.len());
        let ghost before = found@;
        let r = sides(found, true);
        proof {
            self.lemma_sides(before, r@, true);
        }
        r
    }

    /// The elements of `b` in each longest common subsequence, one list for each sequence
    /// of positions.
    pub fn all_as_ref_b(&self) -> (r: Vec<Vec<&T>>)
        ensures
            lists_side(r@, self.seq_b(), all_paths(self.seq_a(), self.seq_b()), false),
    {
        proof {
            use_type_invariant(self);
        }
        let found = self.find_all_lcs(self.a.len(), self.b.len());
        let ghost before = found@;
        let r = sides(found, false);
        proof {
            self.lemma_sides(before, r@, false);
        }
        r
    }

    /// Projecting each enumerated pair list onto one side keeps the enumeration exact.
    proof fn lemma_sides(&self, found: Seq<PtrEqVecPair<'a, T>>, r: Seq<Vec<&'a T>>, first: bool)
        requires
            lists(inners(found), self.seq_a(), self.seq_b(), all_paths(self.seq_a(), self.seq_b())),
            r.len() == found.len(),
            forall|k: int|
                0 <= k < r.len() ==> {
                    &&& (#[trigger] r[k])@.len() == found[k].inner@.len()
                    &&& forall|q: int| 0 <= q < r[k]@.len() ==> r[k]@[q] == if first { found[k].inner@[q].0 } else { found[k].inner@[q].1 }
                },
        ensures
            lists_side(r, if first { self.seq_a() } else { self.seq_b() }, all_paths(self.seq_a(), self.seq_b()), first),
    {
        let s = if first { self.seq_a() } else { self.seq_b() };
        let vs = inners(found);
        let ps = choose|ps: Seq<Seq<(int, int)>>|
            {
                &&& ps.len() == vs.len()
                &&& ps.no_duplicates()
                &&& ps.to_set() == all_paths(self.seq_a(), self.seq_b())
                &&& forall|k: int| 0 <= k < vs.len() ==> picks((#[trigger] vs[k])@, self.seq_a(), self.seq_b(), ps[k])
            };
        assert forall|k: int| 0 <= k < r.len() implies picks_side((#[trigger] r[k])@, s, ps[k], first) by {
            assert(vs[k] == found[k].inner);
            assert(picks(vs[k]@, self.seq_a(), self.seq_b(), ps[k]));
        }
    }

    /// Every longest common subsequence of `a[..i]` and `b[..j]`, each sequence of positions
    /// once, wrapped one by one.
    fn find_all_lcs(&self, i: usize, j: usize) -> (r: Vec<PtrEqVecPair<'a, T>>)
        requires
            i <= self.seq_a().len(),
            j <= self.seq_b().len(),
        ensures
            lists(inners(r@), self.seq_a(), self.seq_b(), paths_from(self.seq_a(), self.seq_b(), i as nat, j as nat, Seq::empty())),
    {
        proof {
            use_type_invariant(self);
        }
        let mut lists_found = all_refs(self.a, self.b, &self.lengths, i, j);
        let ghost before = lists_found@;
        let mut rev: Vec<PtrEqVecPair<'a, T>> = Vec::new();
        let n = lists_found.len();
        while lists_found.len() > 0
            invariant
                n == before.len(),
                lists_found@.len() + rev@.len() == n,
                forall|q: int| 0 <= q < lists_found@.len() ==> (#[trigger] lists_found@[q]) == before[q],
                forall|q: int| 0 <= q < rev@.len() ==> (#[trigger] rev@[q]).inner == before[n - 1 - q],
            decreases lists_found@.len(),
        {
            let v = lists_found.pop().unwrap();
            let mut w = PtrEqVecPair::new();
            w.inner = v;
            rev.push(w);
        }
        let mut out: Vec<PtrEqVecPair<'a, T>> = Vec::new();
        while rev.len() > 0
            invariant
                rev@.len() + out@.len() == n,
                forall|q: int| 0 <= q < rev@.len() ==> (#[trigger] rev@[q]).inner == before[n - 1 - q],
                forall|q: int| 0 <= q < out@.len() ==> (#[trigger] out@[q]).inner == before[q],
            decreases rev@.len(),
        {
            let w = rev.pop().unwrap();
            out.push(w);
        }
        assert(inners(out@) =~= before);
        out
    }

    /// The diff from `a` to `b`: every element of `a` appears once, as a deletion or kept,
    /// and every element of `b` once, as an insertion or kept, in order. Ties are broken as
    /// in `as_ref_both`, so the kept pairs are exactly that subsequence.
    pub fn diff(&self) -> (r: Vec<DiffComponent<&T>>)
        ensures
            step_picks(r@, self.seq_a(), self.seq_b(), diff_path(self.seq_a(), self.seq_b(), self.seq_a().len(), self.seq_b().len())),
    {
        proof {
            use_type_invariant(self);
        }
        self.compute_diff(self.a.len(), self.b.len())
    }

    /// The diff from `a[..i]` to `b[..j]` that the backtrack from `(i, j)` derives.
    fn compute_diff(&self, i: usize, j: usize) -> (r: Vec<DiffComponent<&T>>)
        requires
            i <= self.seq_a().len(),
            j <= self.seq_b().len(),
        ensures
            step_picks(r@, self.seq_a(), self.seq_b(), diff_path(self.seq_a(), self.seq_b(), i as nat, j as nat)),
    {
        proof {
            use_type_invariant(self);
            lemma_diff_path_within(self.a@, self.b@, i as nat, j as nat);
        }
        let steps = diff_positions(self.a, self.b, &self.lengths, i, j);
        let mut r: Vec<DiffComponent<&T>> = Vec::new();
        let mut k: usize = 0;
        while k < steps.len()
            invariant
                i <= self.a@.len(),
                j <= self.b@.len(),
                widen_steps(steps@) == diff_path(self.a@, self.b@, i as nat, j as nat),
                steps_within(widen_steps(steps@), i as int, j as int),
                k <= steps@.len(),
                r@.len() == k,
                forall|q: int| 0 <= q < k ==> step_pick(#[trigger] r@[q], self.a@, self.b@, widen_steps(steps@)[q]),
            decreases steps@.len() - k,
        {
            proof {
                assert(widen_steps(steps@)[k as int] == widen_step(steps@[k as int]));
            }
            let c = match &steps[k] {
                crate::DiffComponent::Insertion(y) => DiffComponent::Insertion(&self.b[*y]),
                crate::DiffComponent::Unchanged(x, y) => DiffComponent::Unchanged(&self.a[*x], &self.b[*y]),
                crate::DiffComponent::Deletion(x) => DiffComponent::Deletion(&self.a[*x]),
            };
            r.push(c);
            k += 1;
        }
        r
    }

    /// The length of a longest common subsequence of `a` and `b`.
    pub fn len(&self) -> (r: usize)
        ensures
            r == lcs_len(self.seq_a(), self.seq_b(), self.seq_a().len(), self.seq_b().len()),
    {
        proof {
            use_type_invariant(self);
        }
        if self.a.len() == 0 || self.b.len() == 0 {
            return 0;
        }
        self.lengths[self.a.len()][self.b.len()]
    }
}

} // verus!
