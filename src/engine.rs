//! The engine over positions: the length table, and the three backtracks through it.
use vstd::prelude::*;
use vstd::std_specs::cmp::PartialEqSpec;

use crate::model::{
    best_path, diff_path, lcs_len, lemma_lcs_len_bound, lemma_paths_from_within, lists,
    may_drop_a, may_drop_b, paths_from, picks, same, wide, within,
};
use crate::DiffComponent;

verus! {

/// `t` is the length table of `a` and `b`: `t[i][j]` is `lcs_len(a, b, i, j)` for every
/// `i <= a.len()` and `j <= b.len()`.
pub open spec fn holds_lengths<T: PartialEq>(t: Seq<Vec<usize>>, a: Seq<T>, b: Seq<T>) -> bool {
    &&& t.len() == a.len() + 1
    &&& forall|i: int| 0 <= i < t.len() ==> #[trigger] t[i]@.len() == b.len() + 1
    &&& forall|i: int, j: int|
        0 <= i <= a.len() && 0 <= j <= b.len() ==> #[trigger] t[i]@[j] == lcs_len(
            a,
            b,
            i as nat,
            j as nat,
        )
}

/// Builds the `(a.len() + 1) x (b.len() + 1)` table of common-subsequence lengths.
pub fn build_lengths<T: Eq>(a: &[T], b: &[T]) -> (t: Vec<Vec<usize>>)
    requires
        T::obeys_eq_spec(),
        b@.len() < usize::MAX,
    ensures
        holds_lengths(t@, a@, b@),
{
    let n = a.len();
    let m = b.len();
    let mut first: Vec<usize> = Vec::new();
    let mut j: usize = 0;
    while j <= m
        invariant
            m == b@.len(),
            m < usize::MAX,
            j <= m + 1,
            first@.len() == j,
            forall|c: int| 0 <= c < j ==> #[trigger] first@[c] == 0,
        decreases m + 1 - j,
    {
        first.push(0);
        j += 1;
    }
    let mut t: Vec<Vec<usize>> = Vec::new();
    t.push(first);
    let mut i: usize = 0;
    while i < n
        invariant
            T::obeys_eq_spec(),
            n == a@.len(),
            m == b@.len(),
            m < usize::MAX,
            i <= n,
            t@.len() == i + 1,
            forall|r: int| 0 <= r < t@.len() ==> #[trigger] t@[r]@.len() == m + 1,
            forall|r: int, c: int|
                0 <= r <= i && 0 <= c <= m ==> #[trigger] t@[r]@[c] == lcs_len(
                    a@,
                    b@,
                    r as nat,
                    c as nat,
                ),
        decreases n - i,
    {
        let mut row: Vec<usize> = Vec::new();
        row.push(0);
        let mut j: usize = 0;
        while j < m
            invariant
                T::obeys_eq_spec(),
                n == a@.len(),
                m == b@.len(),
                m < usize::MAX,
                i < n,
                j <= m,
                t@.len() == i + 1,
                forall|r: int| 0 <= r < t@.len() ==> #[trigger] t@[r]@.len() == m + 1,
                forall|r: int, c: int|
                    0 <= r <= i && 0 <= c <= m ==> #[trigger] t@[r]@[c] == lcs_len(
                        a@,
                        b@,
                        r as nat,
                        c as nat,
                    ),
                row@.len() == j + 1,
                forall|c: int|
                    0 <= c <= j ==> #[trigger] row@[c] == lcs_len(a@, b@, (i + 1) as nat, c as nat),
            decreases m - j,
        {
            proof {
                lemma_lcs_len_bound(a@, b@, i as nat, j as nat);
            }
            let value = if a[i] == b[j] {
                t[i][j] + 1
            } else {
                let left = row[j];
                let up = t[i][j + 1];
                if left > up {
                    left
                } else {
                    up
                }
            };
            row.push(value);
            j += 1;
        }
        t.push(row);
        i += 1;
    }
    t
}

/// A diff step over machine positions, seen over mathematical integers.
pub open spec fn widen_step(s: DiffComponent<usize>) -> DiffComponent<int> {
    match s {
        DiffComponent::Insertion(j) => DiffComponent::Insertion(j as int),
        DiffComponent::Unchanged(i, j) => DiffComponent::Unchanged(i as int, j as int),
        DiffComponent::Deletion(i) => DiffComponent::Deletion(i as int),
    }
}

/// Diff steps over machine positions, seen over mathematical integers.
pub open spec fn widen_steps(s: Seq<DiffComponent<usize>>) -> Seq<DiffComponent<int>> {
    s.map_values(|d: DiffComponent<usize>| widen_step(d))
}

/// The single longest common subsequence that the backtrack from `(i0, j0)` finds, as
/// position pairs in increasing order. On a tie between dropping an element of `a` and one
/// of `b`, the backtrack drops the element of `a`.
pub fn best_positions<T: Eq>(a: &[T], b: &[T], t: &Vec<Vec<usize>>, i0: usize, j0: usize) -> (r: Vec<(usize, usize)>)
    requires
        T::obeys_eq_spec(),
        holds_lengths(t@, a@, b@),
        i0 <= a@.len(),
        j0 <= b@.len(),
    ensures
        wide(r@) == best_path(a@, b@, i0 as nat, j0 as nat),
{
    let mut rev: Vec<(usize, usize)> = Vec::new();
    let ghost mut tail: Seq<(int, int)> = Seq::empty();
    let mut i = i0;
    let mut j = j0;
    while i > 0 && j > 0
        invariant
            T::obeys_eq_spec(),
            holds_lengths(t@, a@, b@),
            i <= i0 <= a@.len(),
            j <= j0 <= b@.len(),
            best_path(a@, b@, i0 as nat, j0 as nat) == best_path(a@, b@, i as nat, j as nat) + tail,
            rev@.len() == tail.len(),
            forall|k: int|
                0 <= k < rev@.len() ==> (#[trigger] rev@[k].0 as int, rev@[k].1 as int) == tail[tail.len() - 1 - k],
        decreases i + j,
    {
        if a[i - 1] == b[j - 1] {
            let ghost old_tail = tail;
            proof {
                tail = seq![(i - 1, j - 1)] + tail;
                assert(best_path(a@, b@, i as nat, j as nat) + old_tail =~= best_path(
                    a@,
                    b@,
                    (i - 1) as nat,
                    (j - 1) as nat,
                ) + tail);
            }
            rev.push((i - 1, j - 1));
            i -= 1;
            j -= 1;
        } else if t[i][j - 1] > t[i - 1][j] {
            j -= 1;
        } else {
            i -= 1;
        }
    }
    assert(best_path(a@, b@, i as nat, j as nat) + tail =~= tail);
    let mut out: Vec<(usize, usize)> = Vec::new();
    let mut k = rev.len();
    while k > 0
        invariant
            k <= rev@.len(),
            out@.len() == rev@.len() - k,
            forall|q: int| 0 <= q < out@.len() ==> #[trigger] out@[q] == rev@[rev@.len() - 1 - q],
        decreases k,
    {
        k -= 1;
        out.push(rev[k]);
    }
    assert(wide(out@) =~= tail);
    out
}

/// The diff from `a[..i0]` to `b[..j0]` that the backtrack from `(i0, j0)` derives, over
/// positions, in order from the start of both sequences. It breaks ties as
/// `best_positions` does.
pub fn diff_positions<T: Eq>(a: &[T], b: &[T], t: &Vec<Vec<usize>>, i0: usize, j0: usize) -> (r: Vec<DiffComponent<usize>>)
    requires
        T::obeys_eq_spec(),
        holds_lengths(t@, a@, b@),
        i0 <= a@.len(),
        j0 <= b@.len(),
    ensures
        widen_steps(r@) == diff_path(a@, b@, i0 as nat, j0 as nat),
{
    let mut rev: Vec<DiffComponent<usize>> = Vec::new();
    let ghost mut tail: Seq<DiffComponent<int>> = Seq::empty();
    let mut i = i0;
    let mut j = j0;
    while i > 0 || j > 0
        invariant
            T::obeys_eq_spec(),
            holds_lengths(t@, a@, b@),
            i <= i0 <= a@.len(),
            j <= j0 <= b@.len(),
            diff_path(a@, b@, i0 as nat, j0 as nat) == diff_path(a@, b@, i as nat, j as nat) + tail,
            rev@.len() == tail.len(),
            forall|k: int|
                0 <= k < rev@.len() ==> widen_step(#[trigger] rev@[k]) == tail[tail.len() - 1 - k],
        decreases i + j,
    {
        let ghost old_tail = tail;
        let ghost (oi, oj) = (i, j);
        let step = if i == 0 {
            j -= 1;
            DiffComponent::Insertion(j)
        } else if j == 0 {
            i -= 1;
            DiffComponent::Deletion(i)
        } else if a[i - 1] == b[j - 1] {
            i -= 1;
            j -= 1;
            DiffComponent::Unchanged(i, j)
        } else if t[i][j - 1] > t[i - 1][j] {
            j -= 1;
            DiffComponent::Insertion(j)
        } else {
            i -= 1;
            DiffComponent::Deletion(i)
        };
        proof {
            tail = seq![widen_step(step)] + tail;
            assert(diff_path(a@, b@, oi as nat, oj as nat) == diff_path(a@, b@, i as nat, j as nat).push(widen_step(step)));
            assert(diff_path(a@, b@, oi as nat, oj as nat) + old_tail =~= diff_path(
                a@,
                b@,
                i as nat,
                j as nat,
            ) + tail);
        }
        rev.push(step);
    }
    assert(diff_path(a@, b@, i as nat, j as nat) + tail =~= tail);
    let mut out: Vec<DiffComponent<usize>> = Vec::new();
    let mut k = rev.len();
    while k > 0
        invariant
            k <= rev@.len(),
            out@.len() == rev@.len() - k,
            forall|q: int| 0 <= q < out@.len() ==> #[trigger] out@[q] == rev@[rev@.len() - 1 - q],
        decreases k,
    {
        k -= 1;
        let step = match &rev[k] {
            DiffComponent::Insertion(j) => DiffComponent::Insertion(*j),
            DiffComponent::Unchanged(i, j) => DiffComponent::Unchanged(*i, *j),
            DiffComponent::Deletion(i) => DiffComponent::Deletion(*i),
        };
        out.push(step);
    }
    assert(widen_steps(out@) =~= tail);
    out
}

/// A pending piece of the exhaustive backtrack: resume at cell `(i, j)`, with the first
/// `keep` pairs of the shared trail of matches as the pairs already taken.
struct Frame {
    i: usize,
    j: usize,
    keep: usize,
}

/// The paths that a pending frame stands for, given the shared trail.
spec fn frame_paths<T: PartialEq>(a: Seq<T>, b: Seq<T>, f: Frame, trail: Seq<(usize, usize)>) -> Set<Seq<(int, int)>> {
    paths_from(a, b, f.i as nat, f.j as nat, wide(trail.subrange(0, f.keep as int)))
}

/// The paths that all frames on the stack still stand for.
spec fn pending<T: PartialEq>(a: Seq<T>, b: Seq<T>, st: Seq<Frame>, trail: Seq<(usize, usize)>) -> Set<Seq<(int, int)>>
    decreases st.len(),
{
    if st.len() == 0 {
        Set::empty()
    } else {
        pending(a, b, st.drop_last(), trail).union(frame_paths(a, b, st.last(), trail))
    }
}

/// The number of cells that the exhaustive backtrack visits from `(i, j)`.
spec fn visits<T: PartialEq>(a: Seq<T>, b: Seq<T>, i: nat, j: nat) -> nat
    decreases i + j,
{
    if i == 0 || j == 0 {
        1
    } else if same(a[i - 1], b[j - 1]) {
        1 + visits(a, b, (i - 1) as nat, (j - 1) as nat)
    } else {
        1 + (if may_drop_b(a, b, i, j) {
            visits(a, b, i, (j - 1) as nat)
        } else {
            0
        }) + (if may_drop_a(a, b, i, j) {
            visits(a, b, (i - 1) as nat, j)
        } else {
            0
        })
    }
}

/// The number of cells that the frames on the stack still have to visit.
spec fn work<T: PartialEq>(a: Seq<T>, b: Seq<T>, st: Seq<Frame>) -> nat
    decreases st.len(),
{
    if st.len() == 0 {
        0
    } else {
        work(a, b, st.drop_last()) + visits(a, b, st.last().i as nat, st.last().j as nat)
    }
}

/// The paths that a list of found position sequences holds.
pub open spec fn path_set(found: Seq<Vec<(usize, usize)>>) -> Set<Seq<(int, int)>> {
    wide_all(found).to_set()
}

/// Each found position sequence, seen over mathematical integers.
pub open spec fn wide_all(found: Seq<Vec<(usize, usize)>>) -> Seq<Seq<(int, int)>> {
    found.map_values(|v: Vec<(usize, usize)>| wide(v@))
}

/// Frames whose kept prefix lies within the first `k` pairs see the same paths in two
/// trails that agree on those pairs.
proof fn lemma_pending_prefix<T: PartialEq>(
    a: Seq<T>,
    b: Seq<T>,
    st: Seq<Frame>,
    t1: Seq<(usize, usize)>,
    t2: Seq<(usize, usize)>,
    k: int,
)
    requires
        0 <= k <= t1.len(),
        k <= t2.len(),
        t1.subrange(0, k) == t2.subrange(0, k),
        forall|q: int| 0 <= q < st.len() ==> #[trigger] st[q].keep <= k,
    ensures
        pending(a, b, st, t1) == pending(a, b, st, t2),
    decreases st.len(),
{
    if st.len() > 0 {
        let f = st.last();
        assert(st[st.len() - 1].keep <= k);
        assert(t1.subrange(0, f.keep as int) =~= t2.subrange(0, f.keep as int)) by {
            assert forall|q: int| 0 <= q < f.keep implies t1[q] == t2[q] by {
                assert(t1.subrange(0, k)[q] == t2.subrange(0, k)[q]);
            }
        }
        lemma_pending_prefix(a, b, st.drop_last(), t1, t2, k);
    }
}

/// Position sequences are told apart by their wide view.
proof fn lemma_wide_injective(x: Seq<(usize, usize)>, y: Seq<(usize, usize)>)
    requires
        wide(x) == wide(y),
    ensures
        x == y,
{
    assert(x.len() == wide(x).len());
    assert(x =~= y) by {
        assert forall|q: int| 0 <= q < x.len() implies x[q] == y[q] by {
            assert(wide(x)[q] == wide(y)[q]);
        }
    }
}

/// Adding a found sequence adds its wide view to the set of found paths.
proof fn lemma_path_set_push(found: Seq<Vec<(usize, usize)>>, v: Vec<(usize, usize)>)
    ensures
        path_set(found.push(v)) == path_set(found).insert(wide(v@)),
{
    let m = wide_all(found);
    let m2 = wide_all(found.push(v));
    assert(m2 =~= m.push(wide(v@)));
    assert forall|p: Seq<(int, int)>| m2.contains(p) <==> m.contains(p) || p == wide(v@) by {
        if m.contains(p) {
            let q = choose|q: int| 0 <= q < m.len() && m[q] == p;
            assert(m2[q] == p);
        }
        if p == wide(v@) {
            assert(m2[m.len() as int] == p);
        }
        if m2.contains(p) {
            let q = choose|q: int| 0 <= q < m2.len() && m2[q] == p;
            if q < m.len() {
                assert(m[q] == p);
            }
        }
    }
    assert(path_set(found.push(v)) =~= path_set(found).insert(wide(v@)));
}

/// Whether two position sequences are equal.
fn same_pairs(x: &Vec<(usize, usize)>, y: &Vec<(usize, usize)>) -> (r: bool)
    ensures
        r == (x@ == y@),
{
    if x.len() != y.len() {
        return false;
    }
    let mut k: usize = 0;
    while k < x.len()
        invariant
            x@.len() == y@.len(),
            k <= x@.len(),
            forall|q: int| 0 <= q < k ==> x@[q] == y@[q],
        decreases x@.len() - k,
    {
        if x[k].0 != y[k].0 || x[k].1 != y[k].1 {
            assert(x@[k as int] != y@[k as int]);
            return false;
        }
        k += 1;
    }
    assert(x@ =~= y@);
    true
}

/// Whether `found` already holds the position sequence `p`.
fn holds_path(found: &Vec<Vec<(usize, usize)>>, p: &Vec<(usize, usize)>) -> (r: bool)
    ensures
        r == (exists|q: int| 0 <= q < found@.len() && (#[trigger] found@[q])@ == p@),
{
    let mut k: usize = 0;
    while k < found.len()
        invariant
            k <= found@.len(),
            forall|q: int| 0 <= q < k ==> (#[trigger] found@[q])@ != p@,
        decreases found@.len() - k,
    {
        if same_pairs(&found[k], p) {
            return true;
        }
        k += 1;
    }
    false
}

/// The pairs of `v` in reverse order.
fn reversed(v: &Vec<(usize, usize)>) -> (r: Vec<(usize, usize)>)
    ensures
        r@ == v@.reverse(),
{
    let mut out: Vec<(usize, usize)> = Vec::new();
    let mut k = v.len();
    while k > 0
        invariant
            k <= v@.len(),
            out@.len() == v@.len() - k,
            forall|q: int| 0 <= q < out@.len() ==> #[trigger] out@[q] == v@[v@.len() - 1 - q],
        decreases k,
    {
        k -= 1;
        out.push(v[k]);
    }
    assert(out@ =~= v@.reverse());
    out
}

/// Every longest common subsequence of `a[..i0]` and `b[..j0]` that the exhaustive
/// backtrack from `(i0, j0)` reaches, as position pairs in increasing order, each exactly
/// once. Where the two cells beside the current one tie, both are explored. The walk keeps
/// an explicit stack of small frames and one shared trail of matches, so its depth is not
/// bounded by the call stack: each frame records its cell and how many matches of the
/// trail it keeps, so resuming it drops the matches made below it. Two walks that reach the
/// same sequence of positions give one result. The number of results can grow
/// exponentially with the length of the inputs.
pub fn all_positions<T: Eq>(a: &[T], b: &[T], t: &Vec<Vec<usize>>, i0: usize, j0: usize) -> (r: Vec<Vec<(usize, usize)>>)
    requires
        T::obeys_eq_spec(),
        holds_lengths(t@, a@, b@),
        i0 <= a@.len(),
        j0 <= b@.len(),
    ensures
        path_set(r@) == paths_from(a@, b@, i0 as nat, j0 as nat, Seq::empty()),
        forall|x: int, y: int| 0 <= x < y < r@.len() ==> r@[x]@ != r@[y]@,
{
    let ghost target = paths_from(a@, b@, i0 as nat, j0 as nat, Seq::empty());
    let mut found: Vec<Vec<(usize, usize)>> = Vec::new();
    let mut trail: Vec<(usize, usize)> = Vec::new();
    let mut stack: Vec<Frame> = Vec::new();
    stack.push(Frame { i: i0, j: j0, keep: 0 });
    proof {
        assert(wide(trail@.subrange(0, 0)) =~= Seq::empty());
        assert(stack@.drop_last() =~= Seq::empty());
        assert(wide_all(found@) =~= Seq::<Seq<(int, int)>>::empty());
        assert(path_set(found@) =~= Set::empty());
        assert(pending(a@, b@, stack@.drop_last(), trail@) == Set::<Seq<(int, int)>>::empty());
        assert(pending(a@, b@, stack@, trail@) == frame_paths(a@, b@, stack@.last(), trail@));
        assert(path_set(found@).union(pending(a@, b@, stack@, trail@)) =~= target);
    }
    while stack.len() > 0
        invariant
            T::obeys_eq_spec(),
            holds_lengths(t@, a@, b@),
            i0 <= a@.len(),
            j0 <= b@.len(),
            forall|q: int|
                0 <= q < stack@.len() ==> {
                    &&& #[trigger] stack@[q].i <= i0
                    &&& stack@[q].j <= j0
                    &&& stack@[q].keep <= trail@.len()
                    &&& stack@[q].keep + stack@[q].i <= i0
                },
            forall|x: int, y: int| 0 <= x < y < stack@.len() ==> #[trigger] stack@[x].keep <= #[trigger] stack@[y].keep,
            path_set(found@).union(pending(a@, b@, stack@, trail@)) == target,
            forall|x: int, y: int| 0 <= x < y < found@.len() ==> found@[x]@ != found@[y]@,
        decreases work(a@, b@, stack@),
    {
        let ghost st0 = stack@;
        let ghost tr0 = trail@;
        let f = stack.pop().unwrap();
        let ghost rest = stack@;
        assert(rest == st0.drop_last());
        assert(f == st0.last());
        trail.truncate(f.keep);
        proof {
            assert(forall|q: int| 0 <= q < rest.len() ==> #[trigger] rest[q].keep <= f.keep) by {
                assert forall|q: int| 0 <= q < rest.len() implies #[trigger] rest[q].keep <= f.keep by {
                    assert(st0[q].keep <= st0[st0.len() - 1].keep);
                }
            }
            assert(trail@ =~= tr0.subrange(0, f.keep as int));
            assert(trail@.subrange(0, f.keep as int) =~= tr0.subrange(0, f.keep as int));
            lemma_pending_prefix(a@, b@, rest, tr0, trail@, f.keep as int);
            assert(frame_paths(a@, b@, f, trail@) == frame_paths(a@, b@, f, tr0));
        }
        if f.i == 0 || f.j == 0 {
            let p = reversed(&trail);
            proof {
                assert(wide(trail@.subrange(0, f.keep as int)) =~= wide(trail@));
                assert(wide(p@) =~= wide(trail@).reverse());
                assert(frame_paths(a@, b@, f, trail@) == set![wide(p@)]);
            }
            if !holds_path(&found, &p) {
                proof {
                    lemma_path_set_push(found@, p);
                    assert forall|x: int, y: int| 0 <= x < y < found@.push(p).len() implies found@.push(p)[x]@ != found@.push(p)[y]@ by {
                        if y == found@.len() {
                            assert(found@.push(p)[y] == p);
                            assert(found@.push(p)[x] == found@[x]);
                        } else {
                            assert(found@.push(p)[x] == found@[x]);
                            assert(found@.push(p)[y] == found@[y]);
                        }
                    }
                }
                found.push(p);
                proof {
                    assert(path_set(found@).union(pending(a@, b@, stack@, trail@)) =~= target);
                }
            } else {
                proof {
                    let q = choose|q: int| 0 <= q < found@.len() && (#[trigger] found@[q])@ == p@;
                    assert(wide_all(found@)[q] == wide(p@));
                    assert(path_set(found@).contains(wide(p@)));
                    assert(path_set(found@).union(pending(a@, b@, stack@, trail@)) =~= target);
                }
            }
        } else if a[f.i - 1] == b[f.j - 1] {
            let ghost tr1 = trail@;
            trail.push((f.i - 1, f.j - 1));
            let g = Frame { i: f.i - 1, j: f.j - 1, keep: f.keep + 1 };
            proof {
                assert(tr1.len() == f.keep);
                assert(trail@.subrange(0, f.keep as int) =~= tr1.subrange(0, f.keep as int));
                lemma_pending_prefix(a@, b@, rest, tr1, trail@, f.keep as int);
                assert(trail@.subrange(0, g.keep as int) =~= trail@);
                assert(wide(trail@) =~= wide(tr1.subrange(0, f.keep as int)).push((f.i - 1, f.j - 1)));
                assert(frame_paths(a@, b@, g, trail@) == frame_paths(a@, b@, f, tr1));
            }
            stack.push(g);
            proof {
                assert(stack@.drop_last() =~= rest);
                assert(path_set(found@).union(pending(a@, b@, stack@, trail@)) =~= target);
                assert(work(a@, b@, stack@) < work(a@, b@, st0));
            }
        } else {
            let left = t[f.i][f.j - 1];
            let up = t[f.i - 1][f.j];
            let ghost mid = stack@;
            let ghost taken = wide(trail@.subrange(0, f.keep as int));
            let ghost via_b = if left >= up {
                paths_from(a@, b@, f.i as nat, (f.j - 1) as nat, taken)
            } else {
                Set::empty()
            };
            let ghost via_a = if up >= left {
                paths_from(a@, b@, (f.i - 1) as nat, f.j as nat, taken)
            } else {
                Set::empty()
            };
            let ghost size_b = if left >= up {
                visits(a@, b@, f.i as nat, (f.j - 1) as nat)
            } else {
                0
            };
            let ghost size_a = if up >= left {
                visits(a@, b@, (f.i - 1) as nat, f.j as nat)
            } else {
                0
            };
            proof {
                assert(left == lcs_len(a@, b@, f.i as nat, (f.j - 1) as nat));
                assert(up == lcs_len(a@, b@, (f.i - 1) as nat, f.j as nat));
                assert(frame_paths(a@, b@, f, trail@) == via_b.union(via_a));
                assert(visits(a@, b@, f.i as nat, f.j as nat) == 1 + size_b + size_a);
            }
            if up >= left {
                stack.push(Frame { i: f.i - 1, j: f.j, keep: f.keep });
                proof {
                    assert(stack@.drop_last() =~= mid);
                }
            }
            let ghost mid2 = stack@;
            proof {
                assert(pending(a@, b@, mid2, trail@) == pending(a@, b@, mid, trail@).union(via_a));
                assert(work(a@, b@, mid2) == work(a@, b@, mid) + size_a);
            }
            if left >= up {
                stack.push(Frame { i: f.i, j: f.j - 1, keep: f.keep });
                proof {
                    assert(stack@.drop_last() =~= mid2);
                }
            }
            proof {
                assert(pending(a@, b@, stack@, trail@) == pending(a@, b@, mid2, trail@).union(via_b));
                assert(work(a@, b@, stack@) == work(a@, b@, mid2) + size_b);
                assert(path_set(found@).union(pending(a@, b@, stack@, trail@)) =~= target);
                assert(work(a@, b@, stack@) < work(a@, b@, st0));
            }
        }
    }
    assert(path_set(found@) =~= target);
    found
}

/// The elements of `a` and `b` at the position pairs of `p`.
pub fn pick_refs<'a, T>(a: &'a [T], b: &'a [T], p: &Vec<(usize, usize)>) -> (r: Vec<(&'a T, &'a T)>)
    requires
        within(wide(p@), a@.len() as int, b@.len() as int),
    ensures
        picks(r@, a@, b@, wide(p@)),
{
    let mut r: Vec<(&'a T, &'a T)> = Vec::new();
    let mut k: usize = 0;
    while k < p.len()
        invariant
            within(wide(p@), a@.len() as int, b@.len() as int),
            k <= p@.len(),
            r@.len() == k,
            forall|q: int|
                0 <= q < k ==> *(#[trigger] r@[q]).0 == a@[p@[q].0 as int] && *r@[q].1 == b@[p@[q].1 as int],
        decreases p@.len() - k,
    {
        let (x, y) = p[k];
        proof {
            assert(wide(p@)[k as int] == (x as int, y as int));
        }
        r.push((&a[x], &b[y]));
        k += 1;
    }
    r
}

/// Every longest common subsequence of `a[..i0]` and `b[..j0]` as pairs of elements, each
/// position sequence once.
pub fn all_refs<'a, T: Eq>(a: &'a [T], b: &'a [T], t: &Vec<Vec<usize>>, i0: usize, j0: usize) -> (r: Vec<Vec<(&'a T, &'a T)>>)
    requires
        T::obeys_eq_spec(),
        holds_lengths(t@, a@, b@),
        i0 <= a@.len(),
        j0 <= b@.len(),
    ensures
        lists(r@, a@, b@, paths_from(a@, b@, i0 as nat, j0 as nat, Seq::empty())),
{
    let ps = all_positions(a, b, t, i0, j0);
    let ghost target = paths_from(a@, b@, i0 as nat, j0 as nat, Seq::empty());
    let ghost views = wide_all(ps@);
    proof {
        lemma_paths_from_within(a@, b@, i0 as nat, j0 as nat, Seq::empty(), a@.len() as int, b@.len() as int);
    }
    let mut r: Vec<Vec<(&'a T, &'a T)>> = Vec::new();
    let mut k: usize = 0;
    while k < ps.len()
        invariant
            path_set(ps@) == target,
            views == wide_all(ps@),
            forall|p: Seq<(int, int)>| #[trigger] target.contains(p) ==> within(p, a@.len() as int, b@.len() as int),
            k <= ps@.len(),
            r@.len() == k,
            forall|q: int| 0 <= q < k ==> picks((#[trigger] r@[q])@, a@, b@, views[q]),
        decreases ps@.len() - k,
    {
        proof {
            assert(views[k as int] == wide(ps@[k as int]@));
            assert(target.contains(views[k as int]));
        }
        let one = pick_refs(a, b, &ps[k]);
        r.push(one);
        k += 1;
    }
    proof {
        assert(views.no_duplicates()) by {
            assert forall|x: int, y: int| 0 <= x < views.len() && 0 <= y < views.len() && x != y implies views[x] != views[y] by {
                if views[x] == views[y] {
                    lemma_wide_injective(ps@[x]@, ps@[y]@);
                    if x < y {
                        assert(ps@[x]@ != ps@[y]@);
                    } else {
                        assert(ps@[y]@ != ps@[x]@);
                    }
                }
            }
        }
        assert(lists(r@, a@, b@, target));
    }
    r
}

} // verus!
