//! The mathematical model: the length recurrence, and the paths that the queries walk
//! through the table, all over positions of the two input sequences.
use vstd::prelude::*;
use vstd::std_specs::cmp::PartialEqSpec;

use crate::DiffComponent;

verus! {

/// Whether two elements compare equal under their type's `==`.
pub open spec fn same<T: PartialEq>(x: T, y: T) -> bool {
    x.eq_spec(&y)
}

/// Length of a longest common subsequence of `a[..i]` and `b[..j]`, by the table recurrence.
pub open spec fn lcs_len<T: PartialEq>(a: Seq<T>, b: Seq<T>, i: nat, j: nat) -> nat
    decreases i + j,
{
    if i == 0 || j == 0 {
        0
    } else if same(a[i - 1], b[j - 1]) {
        lcs_len(a, b, (i - 1) as nat, (j - 1) as nat) + 1
    } else {
        let left = lcs_len(a, b, i, (j - 1) as nat);
        let up = lcs_len(a, b, (i - 1) as nat, j);
        if left > up {
            left
        } else {
            up
        }
    }
}

/// Whether the backtrack at cell `(i, j)` (both positive, elements differ) may step to
/// `(i, j - 1)`, dropping the last element of `b`.
pub open spec fn may_drop_b<T: PartialEq>(a: Seq<T>, b: Seq<T>, i: nat, j: nat) -> bool {
    lcs_len(a, b, i, (j - 1) as nat) >= lcs_len(a, b, (i - 1) as nat, j)
}

/// Whether the backtrack at cell `(i, j)` (both positive, elements differ) may step to
/// `(i - 1, j)`, dropping the last element of `a`.
pub open spec fn may_drop_a<T: PartialEq>(a: Seq<T>, b: Seq<T>, i: nat, j: nat) -> bool {
    lcs_len(a, b, (i - 1) as nat, j) >= lcs_len(a, b, i, (j - 1) as nat)
}

/// Whether the single-path backtrack at `(i, j)` steps to `(i, j - 1)`: only where that
/// cell is strictly longer; ties step through `a`.
pub open spec fn prefers_b<T: PartialEq>(a: Seq<T>, b: Seq<T>, i: nat, j: nat) -> bool {
    lcs_len(a, b, i, (j - 1) as nat) > lcs_len(a, b, (i - 1) as nat, j)
}

/// The matched position pairs, in increasing order, that the single-path backtrack from
/// `(i, j)` collects.
pub open spec fn best_path<T: PartialEq>(a: Seq<T>, b: Seq<T>, i: nat, j: nat) -> Seq<(int, int)>
    decreases i + j,
{
    if i == 0 || j == 0 {
        Seq::empty()
    } else if same(a[i - 1], b[j - 1]) {
        best_path(a, b, (i - 1) as nat, (j - 1) as nat).push((i - 1, j - 1))
    } else if prefers_b(a, b, i, j) {
        best_path(a, b, i, (j - 1) as nat)
    } else {
        best_path(a, b, (i - 1) as nat, j)
    }
}

/// Every complete path that the exhaustive backtrack from `(i, j)` can take, where `taken`
/// holds the pairs matched before reaching `(i, j)`, latest match first. Each result is in
/// increasing order.
pub open spec fn paths_from<T: PartialEq>(
    a: Seq<T>,
    b: Seq<T>,
    i: nat,
    j: nat,
    taken: Seq<(int, int)>,
) -> Set<Seq<(int, int)>>
    decreases i + j,
{
    if i == 0 || j == 0 {
        set![taken.reverse()]
    } else if same(a[i - 1], b[j - 1]) {
        paths_from(a, b, (i - 1) as nat, (j - 1) as nat, taken.push((i - 1, j - 1)))
    } else {
        let via_b = if may_drop_b(a, b, i, j) {
            paths_from(a, b, i, (j - 1) as nat, taken)
        } else {
            Set::empty()
        };
        let via_a = if may_drop_a(a, b, i, j) {
            paths_from(a, b, (i - 1) as nat, j, taken)
        } else {
            Set::empty()
        };
        via_b.union(via_a)
    }
}

/// All longest common subsequences of `a` and `b`, as sequences of position pairs.
pub open spec fn all_paths<T: PartialEq>(a: Seq<T>, b: Seq<T>) -> Set<Seq<(int, int)>> {
    paths_from(a, b, a.len(), b.len(), Seq::empty())
}

/// The diff, over positions, that the backtrack from `(i, j)` derives: the steps in
/// order from the start of both sequences.
pub open spec fn diff_path<T: PartialEq>(a: Seq<T>, b: Seq<T>, i: nat, j: nat) -> Seq<DiffComponent<int>>
    decreases i + j,
{
    if i == 0 && j == 0 {
        Seq::empty()
    } else if i == 0 {
        diff_path(a, b, i, (j - 1) as nat).push(DiffComponent::Insertion(j - 1))
    } else if j == 0 {
        diff_path(a, b, (i - 1) as nat, j).push(DiffComponent::Deletion(i - 1))
    } else if same(a[i - 1], b[j - 1]) {
        diff_path(a, b, (i - 1) as nat, (j - 1) as nat).push(DiffComponent::Unchanged(i - 1, j - 1))
    } else if prefers_b(a, b, i, j) {
        diff_path(a, b, i, (j - 1) as nat).push(DiffComponent::Insertion(j - 1))
    } else {
        diff_path(a, b, (i - 1) as nat, j).push(DiffComponent::Deletion(i - 1))
    }
}

/// Position pairs held as machine integers, seen as mathematical integers.
pub open spec fn wide(s: Seq<(usize, usize)>) -> Seq<(int, int)> {
    s.map_values(|p: (usize, usize)| (p.0 as int, p.1 as int))
}

/// The length `lcs_len` gives never exceeds either prefix.
pub proof fn lemma_lcs_len_bound<T: PartialEq>(a: Seq<T>, b: Seq<T>, i: nat, j: nat)
    ensures
        lcs_len(a, b, i, j) <= i,
        lcs_len(a, b, i, j) <= j,
    decreases i + j,
{
    if i > 0 && j > 0 {
        lemma_lcs_len_bound(a, b, (i - 1) as nat, (j - 1) as nat);
        lemma_lcs_len_bound(a, b, i, (j - 1) as nat);
        lemma_lcs_len_bound(a, b, (i - 1) as nat, j);
    }
}

/// Every pair of `p` points into `a[..n]` and `b[..m]`.
pub open spec fn within(p: Seq<(int, int)>, n: int, m: int) -> bool {
    forall|k: int| 0 <= k < p.len() ==> 0 <= (#[trigger] p[k]).0 < n && 0 <= p[k].1 < m
}

/// Every step of `d` points into `a[..n]` and `b[..m]`.
pub open spec fn steps_within(d: Seq<DiffComponent<int>>, n: int, m: int) -> bool {
    forall|k: int|
        0 <= k < d.len() ==> match #[trigger] d[k] {
            DiffComponent::Insertion(y) => 0 <= y < m,
            DiffComponent::Unchanged(x, y) => 0 <= x < n && 0 <= y < m,
            DiffComponent::Deletion(x) => 0 <= x < n,
        }
}

/// The single backtrack only collects pairs inside the prefixes it starts from.
pub proof fn lemma_best_path_within<T: PartialEq>(a: Seq<T>, b: Seq<T>, i: nat, j: nat)
    ensures
        within(best_path(a, b, i, j), i as int, j as int),
    decreases i + j,
{
    if i > 0 && j > 0 {
        lemma_best_path_within(a, b, (i - 1) as nat, (j - 1) as nat);
        lemma_best_path_within(a, b, i, (j - 1) as nat);
        lemma_best_path_within(a, b, (i - 1) as nat, j);
        let p = best_path(a, b, i, j);
        if same(a[i - 1], b[j - 1]) {
            let q = best_path(a, b, (i - 1) as nat, (j - 1) as nat);
            assert forall|k: int| 0 <= k < p.len() implies 0 <= (#[trigger] p[k]).0 < i && 0 <= p[k].1 < j by {
                if k < q.len() {
                    assert(p[k] == q[k]);
                }
            }
        }
    }
}

/// The exhaustive backtrack only yields pairs inside the prefixes, given pairs already
/// taken inside them.
pub proof fn lemma_paths_from_within<T: PartialEq>(
    a: Seq<T>,
    b: Seq<T>,
    i: nat,
    j: nat,
    taken: Seq<(int, int)>,
    n: int,
    m: int,
)
    requires
        i <= n,
        j <= m,
        within(taken, n, m),
    ensures
        forall|p: Seq<(int, int)>| #[trigger] paths_from(a, b, i, j, taken).contains(p) ==> within(p, n, m),
    decreases i + j,
{
    if i == 0 || j == 0 {
        assert forall|p: Seq<(int, int)>| #[trigger] paths_from(a, b, i, j, taken).contains(p) implies within(p, n, m) by {
            assert(p == taken.reverse());
            assert forall|k: int| 0 <= k < p.len() implies 0 <= (#[trigger] p[k]).0 < n && 0 <= p[k].1 < m by {
                assert(p[k] == taken[taken.len() - 1 - k]);
            }
        }
    } else if same(a[i - 1], b[j - 1]) {
        let t2 = taken.push((i - 1, j - 1));
        assert forall|k: int| 0 <= k < t2.len() implies 0 <= (#[trigger] t2[k]).0 < n && 0 <= t2[k].1 < m by {
            if k < taken.len() {
                assert(t2[k] == taken[k]);
            }
        }
        lemma_paths_from_within(a, b, (i - 1) as nat, (j - 1) as nat, t2, n, m);
        assert forall|p: Seq<(int, int)>| #[trigger] paths_from(a, b, i, j, taken).contains(p) implies within(p, n, m) by {
            assert(paths_from(a, b, (i - 1) as nat, (j - 1) as nat, t2).contains(p));
        }
    } else {
        lemma_paths_from_within(a, b, i, (j - 1) as nat, taken, n, m);
        lemma_paths_from_within(a, b, (i - 1) as nat, j, taken, n, m);
        assert forall|p: Seq<(int, int)>| #[trigger] paths_from(a, b, i, j, taken).contains(p) implies within(p, n, m) by {
            if paths_from(a, b, i, (j - 1) as nat, taken).contains(p) {
            } else if paths_from(a, b, (i - 1) as nat, j, taken).contains(p) {
            }
        }
    }
}

/// The diff only names positions inside the prefixes it starts from.
pub proof fn lemma_diff_path_within<T: PartialEq>(a: Seq<T>, b: Seq<T>, i: nat, j: nat)
    ensures
        steps_within(diff_path(a, b, i, j), i as int, j as int),
    decreases i + j,
{
    if i > 0 || j > 0 {
        let d = diff_path(a, b, i, j);
        let (pi, pj): (nat, nat) = if i == 0 {
            (i, (j - 1) as nat)
        } else if j == 0 {
            ((i - 1) as nat, j)
        } else if same(a[i - 1], b[j - 1]) {
            ((i - 1) as nat, (j - 1) as nat)
        } else if prefers_b(a, b, i, j) {
            (i, (j - 1) as nat)
        } else {
            ((i - 1) as nat, j)
        };
        lemma_diff_path_within(a, b, pi, pj);
        let q = diff_path(a, b, pi, pj);
        assert(d == q.push(d.last()));
        assert forall|k: int| 0 <= k < d.len() implies match #[trigger] d[k] {
            DiffComponent::Insertion(y) => 0 <= y < j,
            DiffComponent::Unchanged(x, y) => 0 <= x < i && 0 <= y < j,
            DiffComponent::Deletion(x) => 0 <= x < i,
        } by {
            if k < q.len() {
                assert(d[k] == q[k]);
            }
        }
    }
}

/// `r` holds, pair by pair, the elements of `a` and `b` at the positions `p` names.
pub open spec fn picks<T>(r: Seq<(&T, &T)>, a: Seq<T>, b: Seq<T>, p: Seq<(int, int)>) -> bool {
    &&& r.len() == p.len()
    &&& forall|k: int| 0 <= k < r.len() ==> *(#[trigger] r[k]).0 == a[p[k].0] && *r[k].1 == b[p[k].1]
}

/// `r` lists, one for each and each once, the elements at the position sequences of `paths`.
pub open spec fn lists<T>(r: Seq<Vec<(&T, &T)>>, a: Seq<T>, b: Seq<T>, paths: Set<Seq<(int, int)>>) -> bool {
    exists|ps: Seq<Seq<(int, int)>>|
        {
            &&& ps.len() == r.len()
            &&& ps.no_duplicates()
            &&& ps.to_set() == paths
            &&& forall|k: int| 0 <= k < r.len() ==> picks((#[trigger] r[k])@, a, b, ps[k])
        }
}

} // verus!
