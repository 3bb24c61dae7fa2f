//! What holds of every pair of inputs: the laws that relate the length, the single best
//! subsequence, the enumeration of all of them, and the diff.
use vstd::prelude::*;

use crate::model::{
    all_paths, best_path, diff_path, lcs_len, lists, may_drop_a, may_drop_b, paths_from, picks,
    prefers_b, same,
};
use crate::{diff_pick, diff_picks, DiffComponent};

verus! {

/// The positions of `a` that a diff walks through: those deleted or kept, in order.
pub open spec fn a_side(d: Seq<DiffComponent<int>>) -> Seq<int>
    decreases d.len(),
{
    if d.len() == 0 {
        Seq::empty()
    } else {
        let rest = a_side(d.drop_last());
        match d.last() {
            DiffComponent::Insertion(_) => rest,
            DiffComponent::Unchanged(x, _) => rest.push(x),
            DiffComponent::Deletion(x) => rest.push(x),
        }
    }
}

/// The positions of `b` that a diff walks through: those inserted or kept, in order.
pub open spec fn b_side(d: Seq<DiffComponent<int>>) -> Seq<int>
    decreases d.len(),
{
    if d.len() == 0 {
        Seq::empty()
    } else {
        let rest = b_side(d.drop_last());
        match d.last() {
            DiffComponent::Insertion(y) => rest.push(y),
            DiffComponent::Unchanged(_, y) => rest.push(y),
            DiffComponent::Deletion(_) => rest,
        }
    }
}

/// The pairs that a diff keeps, in order.
pub open spec fn kept(d: Seq<DiffComponent<int>>) -> Seq<(int, int)>
    decreases d.len(),
{
    if d.len() == 0 {
        Seq::empty()
    } else {
        let rest = kept(d.drop_last());
        match d.last() {
            DiffComponent::Unchanged(x, y) => rest.push((x, y)),
            _ => rest,
        }
    }
}

/// The positions `0, 1, ..., n - 1`.
pub open spec fn upto(n: nat) -> Seq<int> {
    Seq::new(n, |k: int| k)
}

proof fn lemma_best_len_at<T: PartialEq>(a: Seq<T>, b: Seq<T>, i: nat, j: nat)
    ensures
        best_path(a, b, i, j).len() == lcs_len(a, b, i, j),
    decreases i + j,
{
    if i > 0 && j > 0 {
        lemma_best_len_at(a, b, (i - 1) as nat, (j - 1) as nat);
        lemma_best_len_at(a, b, i, (j - 1) as nat);
        lemma_best_len_at(a, b, (i - 1) as nat, j);
    }
}

/// The length query agrees with the single best subsequence: `lcs_len` of the whole
/// sequences is the number of pairs that `best_path` collects.
pub proof fn lemma_length_is_best_len<T: PartialEq>(a: Seq<T>, b: Seq<T>)
    ensures
        best_path(a, b, a.len(), b.len()).len() == lcs_len(a, b, a.len(), b.len()),
{
    lemma_best_len_at(a, b, a.len(), b.len());
}

proof fn lemma_paths_len_at<T: PartialEq>(a: Seq<T>, b: Seq<T>, i: nat, j: nat, taken: Seq<(int, int)>)
    ensures
        forall|p: Seq<(int, int)>| #[trigger] paths_from(a, b, i, j, taken).contains(p) ==> p.len() == lcs_len(a, b, i, j) + taken.len(),
    decreases i + j,
{
    if i == 0 || j == 0 {
        assert forall|p: Seq<(int, int)>| #[trigger] paths_from(a, b, i, j, taken).contains(p) implies p.len() == lcs_len(a, b, i, j) + taken.len() by {
            assert(p == taken.reverse());
        }
    } else if same(a[i - 1], b[j - 1]) {
        let t2 = taken.push((i - 1, j - 1));
        lemma_paths_len_at(a, b, (i - 1) as nat, (j - 1) as nat, t2);
        assert forall|p: Seq<(int, int)>| #[trigger] paths_from(a, b, i, j, taken).contains(p) implies p.len() == lcs_len(a, b, i, j) + taken.len() by {
            assert(paths_from(a, b, (i - 1) as nat, (j - 1) as nat, t2).contains(p));
        }
    } else {
        lemma_paths_len_at(a, b, i, (j - 1) as nat, taken);
        lemma_paths_len_at(a, b, (i - 1) as nat, j, taken);
        assert forall|p: Seq<(int, int)>| #[trigger] paths_from(a, b, i, j, taken).contains(p) implies p.len() == lcs_len(a, b, i, j) + taken.len() by {
            if may_drop_b(a, b, i, j) && paths_from(a, b, i, (j - 1) as nat, taken).contains(p) {
            } else {
                assert(may_drop_a(a, b, i, j) && paths_from(a, b, (i - 1) as nat, j, taken).contains(p));
            }
        }
    }
}

proof fn lemma_best_in_paths_at<T: PartialEq>(a: Seq<T>, b: Seq<T>, i: nat, j: nat, taken: Seq<(int, int)>)
    ensures
        paths_from(a, b, i, j, taken).contains(best_path(a, b, i, j) + taken.reverse()),
    decreases i + j,
{
    if i == 0 || j == 0 {
        assert(best_path(a, b, i, j) + taken.reverse() =~= taken.reverse());
    } else if same(a[i - 1], b[j - 1]) {
        let t2 = taken.push((i - 1, j - 1));
        lemma_best_in_paths_at(a, b, (i - 1) as nat, (j - 1) as nat, t2);
        assert(best_path(a, b, (i - 1) as nat, (j - 1) as nat) + t2.reverse() =~= best_path(a, b, i, j) + taken.reverse());
    } else if prefers_b(a, b, i, j) {
        lemma_best_in_paths_at(a, b, i, (j - 1) as nat, taken);
    } else {
        lemma_best_in_paths_at(a, b, (i - 1) as nat, j, taken);
    }
}

/// Every subsequence that the enumeration yields is as long as the length query says, and
/// the single best subsequence is one of them.
pub proof fn lemma_all_tied_and_best_among<T: PartialEq>(a: Seq<T>, b: Seq<T>)
    ensures
        forall|p: Seq<(int, int)>| #[trigger] all_paths(a, b).contains(p) ==> p.len() == lcs_len(a, b, a.len(), b.len()),
        all_paths(a, b).contains(best_path(a, b, a.len(), b.len())),
{
    lemma_paths_len_at(a, b, a.len(), b.len(), Seq::empty());
    lemma_best_in_paths_at(a, b, a.len(), b.len(), Seq::empty());
    assert(best_path(a, b, a.len(), b.len()) + Seq::<(int, int)>::empty().reverse() =~= best_path(a, b, a.len(), b.len()));
}

proof fn lemma_diff_sides_at<T: PartialEq>(a: Seq<T>, b: Seq<T>, i: nat, j: nat)
    ensures
        a_side(diff_path(a, b, i, j)) == upto(i),
        b_side(diff_path(a, b, i, j)) == upto(j),
        kept(diff_path(a, b, i, j)) == best_path(a, b, i, j),
    decreases i + j,
{
    if i == 0 && j == 0 {
        assert(upto(0) =~= Seq::empty());
    } else {
        let d = diff_path(a, b, i, j);
        let (pi, pj): (nat, nat) = if i == 0 {
            (i, (j - 1) as nat)
        } else if j == 0 {
            ((i - 1) as nat, j)
        } else if same(a[i - 1], b[j - 1]) {
            ((i - 1) as nat, (j - 1) as nat)
        } else if prefers_b(a, b, i, j) {
            (i, (j - 1) as nat)
        } else {
            ((i - 1) as nat, j)
        };
        lemma_diff_sides_at(a, b, pi, pj);
        let q = diff_path(a, b, pi, pj);
        assert(d.drop_last() =~= q);
        assert(upto(i) =~= if pi < i { upto(pi).push(pi as int) } else { upto(pi) });
        assert(upto(j) =~= if pj < j { upto(pj).push(pj as int) } else { upto(pj) });
        if i == 0 || j == 0 {
            assert(best_path(a, b, i, j) == best_path(a, b, pi, pj)) by {
                if i == 0 {
                    assert(pi == 0);
                } else {
                    assert(pj == 0);
                }
            }
        }
    }
}

/// The diff walks every position of `a` once, in order, as a deletion or kept, and every
/// position of `b` once, in order, as an insertion or kept; the pairs it keeps are exactly
/// the single best subsequence. So its deleted and kept elements spell `a`, and its
/// inserted and kept elements spell `b`.
pub proof fn lemma_diff_rebuilds_both<T: PartialEq>(a: Seq<T>, b: Seq<T>)
    ensures
        a_side(diff_path(a, b, a.len(), b.len())) == upto(a.len()),
        b_side(diff_path(a, b, a.len(), b.len())) == upto(b.len()),
        a_side(diff_path(a, b, a.len(), b.len())).map_values(|x: int| a[x]) == a,
        b_side(diff_path(a, b, a.len(), b.len())).map_values(|y: int| b[y]) == b,
        kept(diff_path(a, b, a.len(), b.len())) == best_path(a, b, a.len(), b.len()),
{
    lemma_diff_sides_at(a, b, a.len(), b.len());
    assert(upto(a.len()).map_values(|x: int| a[x]) =~= a);
    assert(upto(b.len()).map_values(|y: int| b[y]) =~= b);
}

/// The elements of `a` that a diff of elements walks through: those deleted or kept.
pub open spec fn a_values<T>(r: Seq<DiffComponent<&T>>) -> Seq<T>
    decreases r.len(),
{
    if r.len() == 0 {
        Seq::empty()
    } else {
        let rest = a_values(r.drop_last());
        match r.last() {
            DiffComponent::Insertion(_) => rest,
            DiffComponent::Unchanged(x, _) => rest.push(*x),
            DiffComponent::Deletion(x) => rest.push(*x),
        }
    }
}

/// The elements of `b` that a diff of elements walks through: those inserted or kept.
pub open spec fn b_values<T>(r: Seq<DiffComponent<&T>>) -> Seq<T>
    decreases r.len(),
{
    if r.len() == 0 {
        Seq::empty()
    } else {
        let rest = b_values(r.drop_last());
        match r.last() {
            DiffComponent::Insertion(y) => rest.push(*y),
            DiffComponent::Unchanged(_, y) => rest.push(*y),
            DiffComponent::Deletion(_) => rest,
        }
    }
}

proof fn lemma_values_follow_sides<T>(r: Seq<DiffComponent<&T>>, a: Seq<T>, b: Seq<T>, d: Seq<DiffComponent<int>>)
    requires
        diff_picks(r, a, b, d),
    ensures
        a_values(r) == a_side(d).map_values(|x: int| a[x]),
        b_values(r) == b_side(d).map_values(|y: int| b[y]),
    decreases r.len(),
{
    if r.len() > 0 {
        let r0 = r.drop_last();
        let d0 = d.drop_last();
        assert forall|k: int| 0 <= k < r0.len() implies diff_pick(#[trigger] r0[k], a, b, d0[k]) by {
            assert(r0[k] == r[k]);
            assert(d0[k] == d[k]);
        }
        lemma_values_follow_sides(r0, a, b, d0);
        assert(diff_pick(r[r.len() - 1], a, b, d[d.len() - 1]));
        assert(a_values(r) =~= a_side(d).map_values(|x: int| a[x]));
        assert(b_values(r) =~= b_side(d).map_values(|y: int| b[y]));
    }
}

/// What `diff` returns rebuilds both inputs: dropping its insertions leaves the elements of
/// `a` in order, and dropping its deletions leaves the elements of `b` in order.
pub proof fn lemma_diff_values_rebuild<T: PartialEq>(r: Seq<DiffComponent<&T>>, a: Seq<T>, b: Seq<T>)
    requires
        diff_picks(r, a, b, diff_path(a, b, a.len(), b.len())),
    ensures
        a_values(r) == a,
        b_values(r) == b,
{
    lemma_values_follow_sides(r, a, b, diff_path(a, b, a.len(), b.len()));
    lemma_diff_rebuilds_both(a, b);
}

/// Asking twice gives the same single best subsequence: any two results that meet the
/// contract of `longest_common_subsequence` are equal.
pub proof fn lemma_best_result_determined<T: PartialEq>(r1: Seq<(&T, &T)>, r2: Seq<(&T, &T)>, a: Seq<T>, b: Seq<T>)
    requires
        picks(r1, a, b, best_path(a, b, a.len(), b.len())),
        picks(r2, a, b, best_path(a, b, a.len(), b.len())),
    ensures
        r1 == r2,
{
    assert(r1 =~= r2);
}

/// Asking twice gives the same diff: any two results that meet the contract of `diff` are
/// equal.
pub proof fn lemma_diff_result_determined<T: PartialEq>(
    r1: Seq<DiffComponent<&T>>,
    r2: Seq<DiffComponent<&T>>,
    a: Seq<T>,
    b: Seq<T>,
)
    requires
        diff_picks(r1, a, b, diff_path(a, b, a.len(), b.len())),
        diff_picks(r2, a, b, diff_path(a, b, a.len(), b.len())),
    ensures
        r1 == r2,
{
    let d = diff_path(a, b, a.len(), b.len());
    assert forall|k: int| 0 <= k < r1.len() implies r1[k] == r2[k] by {
        assert(diff_pick(r1[k], a, b, d[k]));
        assert(diff_pick(r2[k], a, b, d[k]));
    }
    assert(r1 =~= r2);
}

/// Whether some member of `r` holds exactly the pairs `v`.
pub open spec fn has_member<T>(r: Seq<Vec<(&T, &T)>>, v: Seq<(&T, &T)>) -> bool {
    exists|l: int| 0 <= l < r.len() && (#[trigger] r[l])@ == v
}

/// Asking twice gives the same set of longest common subsequences: any two results that
/// meet the contract of `longest_common_subsequences` have as many members, and each member
/// of one is a member of the other.
pub proof fn lemma_all_results_determined<T: PartialEq>(
    r1: Seq<Vec<(&T, &T)>>,
    r2: Seq<Vec<(&T, &T)>>,
    a: Seq<T>,
    b: Seq<T>,
)
    requires
        lists(r1, a, b, all_paths(a, b)),
        lists(r2, a, b, all_paths(a, b)),
    ensures
        r1.len() == r2.len(),
        forall|k: int| 0 <= k < r1.len() ==> has_member(r2, (#[trigger] r1[k])@),
{
    let ps1 = choose|ps: Seq<Seq<(int, int)>>|
        {
            &&& ps.len() == r1.len()
            &&& ps.no_duplicates()
            &&& ps.to_set() == all_paths(a, b)
            &&& forall|k: int| 0 <= k < r1.len() ==> picks((#[trigger] r1[k])@, a, b, ps[k])
        };
    let ps2 = choose|ps: Seq<Seq<(int, int)>>|
        {
            &&& ps.len() == r2.len()
            &&& ps.no_duplicates()
            &&& ps.to_set() == all_paths(a, b)
            &&& forall|k: int| 0 <= k < r2.len() ==> picks((#[trigger] r2[k])@, a, b, ps[k])
        };
    ps1.unique_seq_to_set();
    ps2.unique_seq_to_set();
    assert forall|k: int| 0 <= k < r1.len() implies has_member(r2, (#[trigger] r1[k])@) by {
        assert(ps1.to_set().contains(ps1[k]));
        assert(ps2.to_set().contains(ps1[k]));
        let l = choose|l: int| 0 <= l < ps2.len() && ps2[l] == ps1[k];
        assert(picks(r1[k]@, a, b, ps1[k]));
        assert(picks(r2[l]@, a, b, ps2[l]));
        assert(r2[l]@ =~= r1[k]@);
    }
}

proof fn lemma_diff_from_empty_a<T: PartialEq>(a: Seq<T>, b: Seq<T>, j: nat)
    ensures
        diff_path(a, b, 0, j) == Seq::new(j, |k: int| DiffComponent::<int>::Insertion(k)),
    decreases j,
{
    if j > 0 {
        lemma_diff_from_empty_a(a, b, (j - 1) as nat);
    }
    assert(diff_path(a, b, 0, j) =~= Seq::new(j, |k: int| DiffComponent::<int>::Insertion(k)));
}

proof fn lemma_diff_from_empty_b<T: PartialEq>(a: Seq<T>, b: Seq<T>, i: nat)
    ensures
        diff_path(a, b, i, 0) == Seq::new(i, |k: int| DiffComponent::<int>::Deletion(k)),
    decreases i,
{
    if i > 0 {
        lemma_diff_from_empty_b(a, b, (i - 1) as nat);
    }
    assert(diff_path(a, b, i, 0) =~= Seq::new(i, |k: int| DiffComponent::<int>::Deletion(k)));
}

/// With an empty input the length is 0, the best subsequence is empty, the enumeration
/// holds exactly one subsequence, the empty one, and the diff inserts every element of `b`
/// (when `a` is empty) or deletes every element of `a` (when `b` is empty). With both empty
/// the diff is empty and the enumeration still holds the empty subsequence.
pub proof fn lemma_empty_input<T: PartialEq>(a: Seq<T>, b: Seq<T>)
    requires
        a.len() == 0 || b.len() == 0,
    ensures
        lcs_len(a, b, a.len(), b.len()) == 0,
        best_path(a, b, a.len(), b.len()) == Seq::<(int, int)>::empty(),
        all_paths(a, b) == set![Seq::<(int, int)>::empty()],
        a.len() == 0 ==> diff_path(a, b, a.len(), b.len()) == Seq::new(b.len(), |k: int| DiffComponent::<int>::Insertion(k)),
        b.len() == 0 ==> diff_path(a, b, a.len(), b.len()) == Seq::new(a.len(), |k: int| DiffComponent::<int>::Deletion(k)),
        a.len() == 0 && b.len() == 0 ==> diff_path(a, b, a.len(), b.len()).len() == 0,
{
    assert(Seq::<(int, int)>::empty().reverse() =~= Seq::<(int, int)>::empty());
    if a.len() == 0 {
        lemma_diff_from_empty_a(a, b, b.len());
    }
    if b.len() == 0 {
        lemma_diff_from_empty_b(a, b, a.len());
    }
}

/// `p` is a common subsequence of `a[..n]` and `b[..m]`: each pair points into both
/// prefixes at equal elements, and both coordinates strictly increase along `p`.
pub open spec fn is_common<T: PartialEq>(a: Seq<T>, b: Seq<T>, p: Seq<(int, int)>, n: int, m: int) -> bool {
    &&& forall|k: int|
        0 <= k < p.len() ==> {
            &&& 0 <= (#[trigger] p[k]).0 < n
            &&& 0 <= p[k].1 < m
            &&& same(a[p[k].0], b[p[k].1])
        }
    &&& forall|k: int, l: int| 0 <= k < l < p.len() ==> (#[trigger] p[k]).0 < (#[trigger] p[l]).0 && p[k].1 < p[l].1
}

/// Dropping one element from either prefix lowers `lcs_len` by at most one.
proof fn lemma_lcs_len_steps<T: PartialEq>(a: Seq<T>, b: Seq<T>, i: nat, j: nat)
    ensures
        i > 0 ==> lcs_len(a, b, (i - 1) as nat, j) <= lcs_len(a, b, i, j) <= lcs_len(a, b, (i - 1) as nat, j) + 1,
        j > 0 ==> lcs_len(a, b, i, (j - 1) as nat) <= lcs_len(a, b, i, j) <= lcs_len(a, b, i, (j - 1) as nat) + 1,
    decreases i + j,
{
    if i > 0 && j > 0 {
        lemma_lcs_len_steps(a, b, (i - 1) as nat, j);
        lemma_lcs_len_steps(a, b, i, (j - 1) as nat);
    }
}

/// No common subsequence of `a[..i]` and `b[..j]` is longer than `lcs_len(a, b, i, j)`.
proof fn lemma_common_bounded_at<T: PartialEq>(a: Seq<T>, b: Seq<T>, i: nat, j: nat, p: Seq<(int, int)>)
    requires
        is_common(a, b, p, i as int, j as int),
    ensures
        p.len() <= lcs_len(a, b, i, j),
    decreases i + j,
{
    if p.len() > 0 {
        let (x, y) = p.last();
        assert(0 <= p[p.len() - 1].0 < i);
        lemma_lcs_len_steps(a, b, i, j);
        if x < i - 1 {
            assert(is_common(a, b, p, (i - 1) as int, j as int)) by {
                assert forall|k: int| 0 <= k < p.len() implies 0 <= (#[trigger] p[k]).0 < i - 1 by {
                    if k < p.len() - 1 {
                        assert(p[k].0 < p[p.len() - 1].0);
                    }
                }
            }
            lemma_common_bounded_at(a, b, (i - 1) as nat, j, p);
        } else if y < j - 1 {
            assert(is_common(a, b, p, i as int, (j - 1) as int)) by {
                assert forall|k: int| 0 <= k < p.len() implies 0 <= (#[trigger] p[k]).1 < j - 1 by {
                    if k < p.len() - 1 {
                        assert(p[k].1 < p[p.len() - 1].1);
                    }
                }
            }
            lemma_common_bounded_at(a, b, i, (j - 1) as nat, p);
        } else {
            let q = p.drop_last();
            assert(same(a[i - 1], b[j - 1]));
            assert(is_common(a, b, q, (i - 1) as int, (j - 1) as int)) by {
                assert forall|k: int| 0 <= k < q.len() implies {
                    &&& 0 <= (#[trigger] q[k]).0 < i - 1
                    &&& 0 <= q[k].1 < j - 1
                    &&& same(a[q[k].0], b[q[k].1])
                } by {
                    assert(q[k] == p[k]);
                    assert(p[k].0 < p[p.len() - 1].0);
                }
                assert forall|k: int, l: int| 0 <= k < l < q.len() implies (#[trigger] q[k]).0 < (#[trigger] q[l]).0 && q[k].1 < q[l].1 by {
                    assert(q[k] == p[k]);
                    assert(q[l] == p[l]);
                }
            }
            lemma_common_bounded_at(a, b, (i - 1) as nat, (j - 1) as nat, q);
        }
    }
}

/// `lcs_len` is the length of a longest common subsequence: no common subsequence of `a`
/// and `b` is longer, and the single best subsequence is a common one of that length.
pub proof fn lemma_best_is_longest_common<T: PartialEq>(a: Seq<T>, b: Seq<T>)
    ensures
        is_common(a, b, best_path(a, b, a.len(), b.len()), a.len() as int, b.len() as int),
        best_path(a, b, a.len(), b.len()).len() == lcs_len(a, b, a.len(), b.len()),
        forall|p: Seq<(int, int)>| is_common(a, b, p, a.len() as int, b.len() as int) ==> p.len() <= lcs_len(a, b, a.len(), b.len()),
{
    lemma_best_common_at(a, b, a.len(), b.len());
    lemma_best_len_at(a, b, a.len(), b.len());
    assert forall|p: Seq<(int, int)>| is_common(a, b, p, a.len() as int, b.len() as int) implies p.len() <= lcs_len(a, b, a.len(), b.len()) by {
        lemma_common_bounded_at(a, b, a.len(), b.len(), p);
    }
}

proof fn lemma_best_common_at<T: PartialEq>(a: Seq<T>, b: Seq<T>, i: nat, j: nat)
    requires
        i <= a.len(),
        j <= b.len(),
    ensures
        is_common(a, b, best_path(a, b, i, j), i as int, j as int),
    decreases i + j,
{
    if i > 0 && j > 0 {
        let p = best_path(a, b, i, j);
        if same(a[i - 1], b[j - 1]) {
            lemma_best_common_at(a, b, (i - 1) as nat, (j - 1) as nat);
            let q = best_path(a, b, (i - 1) as nat, (j - 1) as nat);
            assert forall|k: int| 0 <= k < p.len() implies {
                &&& 0 <= (#[trigger] p[k]).0 < i
                &&& 0 <= p[k].1 < j
                &&& same(a[p[k].0], b[p[k].1])
            } by {
                if k < q.len() {
                    assert(p[k] == q[k]);
                }
            }
            assert forall|k: int, l: int| 0 <= k < l < p.len() implies (#[trigger] p[k]).0 < (#[trigger] p[l]).0 && p[k].1 < p[l].1 by {
                assert(p[k] == q[k]);
                if l < q.len() {
                    assert(p[l] == q[l]);
                }
            }
        } else if prefers_b(a, b, i, j) {
            lemma_best_common_at(a, b, i, (j - 1) as nat);
        } else {
            lemma_best_common_at(a, b, (i - 1) as nat, j);
        }
    }
}

/// `taken`, latest match first, holds matched pairs that all lie at or beyond `(i, j)`,
/// with both coordinates strictly decreasing along it.
pub open spec fn taken_ok<T: PartialEq>(a: Seq<T>, b: Seq<T>, taken: Seq<(int, int)>, i: int, j: int) -> bool {
    &&& forall|k: int|
        0 <= k < taken.len() ==> {
            &&& i <= (#[trigger] taken[k]).0 < a.len()
            &&& j <= taken[k].1 < b.len()
            &&& same(a[taken[k].0], b[taken[k].1])
        }
    &&& forall|k: int, l: int| 0 <= k < l < taken.len() ==> (#[trigger] taken[k]).0 > (#[trigger] taken[l]).0 && taken[k].1 > taken[l].1
}

proof fn lemma_paths_common_at<T: PartialEq>(a: Seq<T>, b: Seq<T>, i: nat, j: nat, taken: Seq<(int, int)>)
    requires
        i <= a.len(),
        j <= b.len(),
        taken_ok(a, b, taken, i as int, j as int),
    ensures
        forall|p: Seq<(int, int)>| #[trigger] paths_from(a, b, i, j, taken).contains(p) ==> is_common(a, b, p, a.len() as int, b.len() as int),
    decreases i + j,
{
    if i == 0 || j == 0 {
        let p = taken.reverse();
        assert forall|k: int| 0 <= k < p.len() implies {
            &&& 0 <= (#[trigger] p[k]).0 < a.len()
            &&& 0 <= p[k].1 < b.len()
            &&& same(a[p[k].0], b[p[k].1])
        } by {
            assert(p[k] == taken[taken.len() - 1 - k]);
        }
        assert forall|k: int, l: int| 0 <= k < l < p.len() implies (#[trigger] p[k]).0 < (#[trigger] p[l]).0 && p[k].1 < p[l].1 by {
            assert(p[k] == taken[taken.len() - 1 - k]);
            assert(p[l] == taken[taken.len() - 1 - l]);
        }
        assert forall|q: Seq<(int, int)>| #[trigger] paths_from(a, b, i, j, taken).contains(q) implies is_common(a, b, q, a.len() as int, b.len() as int) by {
            assert(q == p);
        }
    } else if same(a[i - 1], b[j - 1]) {
        let t2 = taken.push((i - 1, j - 1));
        assert forall|k: int| 0 <= k < t2.len() implies {
            &&& i - 1 <= (#[trigger] t2[k]).0 < a.len()
            &&& j - 1 <= t2[k].1 < b.len()
            &&& same(a[t2[k].0], b[t2[k].1])
        } by {
            if k < taken.len() {
                assert(t2[k] == taken[k]);
            }
        }
        assert forall|k: int, l: int| 0 <= k < l < t2.len() implies (#[trigger] t2[k]).0 > (#[trigger] t2[l]).0 && t2[k].1 > t2[l].1 by {
            assert(t2[k] == taken[k]);
            if l < taken.len() {
                assert(t2[l] == taken[l]);
            }
        }
        lemma_paths_common_at(a, b, (i - 1) as nat, (j - 1) as nat, t2);
        assert forall|q: Seq<(int, int)>| #[trigger] paths_from(a, b, i, j, taken).contains(q) implies is_common(a, b, q, a.len() as int, b.len() as int) by {
            assert(paths_from(a, b, (i - 1) as nat, (j - 1) as nat, t2).contains(q));
        }
    } else {
        lemma_paths_common_at(a, b, i, (j - 1) as nat, taken);
        lemma_paths_common_at(a, b, (i - 1) as nat, j, taken);
        assert forall|q: Seq<(int, int)>| #[trigger] paths_from(a, b, i, j, taken).contains(q) implies is_common(a, b, q, a.len() as int, b.len() as int) by {
            if paths_from(a, b, i, (j - 1) as nat, taken).contains(q) {
            } else {
                assert(paths_from(a, b, (i - 1) as nat, j, taken).contains(q));
            }
        }
    }
}

/// Every subsequence that the enumeration yields is a common subsequence of `a` and `b`
/// of the greatest length: as long as `lcs_len`, which no common subsequence exceeds.
pub proof fn lemma_all_are_longest_common<T: PartialEq>(a: Seq<T>, b: Seq<T>)
    ensures
        forall|p: Seq<(int, int)>| #[trigger] all_paths(a, b).contains(p) ==> {
            &&& is_common(a, b, p, a.len() as int, b.len() as int)
            &&& p.len() == lcs_len(a, b, a.len(), b.len())
        },
        forall|p: Seq<(int, int)>| is_common(a, b, p, a.len() as int, b.len() as int) ==> p.len() <= lcs_len(a, b, a.len(), b.len()),
{
    lemma_paths_common_at(a, b, a.len(), b.len(), Seq::empty());
    lemma_all_tied_and_best_among(a, b);
    lemma_best_is_longest_common(a, b);
}

} // verus!
