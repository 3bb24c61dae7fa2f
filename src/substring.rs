//! The longest common substring: the longest contiguous run that two sequences share,
//! found by a scan over every pair of start positions.
use vstd::prelude::*;
use vstd::std_specs::cmp::PartialEqSpec;

use std::ops::Range;

use crate::model::same;

verus! {

/// How far `a[i..]` and `b[j..]` agree from their start: the number of leading positions
/// at which they hold equal elements.
pub open spec fn run_len<T: PartialEq>(a: Seq<T>, b: Seq<T>, i: int, j: int) -> nat
    decreases a.len() - i,
{
    if 0 <= i < a.len() && 0 <= j < b.len() && same(a[i], b[j]) {
        1 + run_len(a, b, i + 1, j + 1)
    } else {
        0
    }
}

/// Whether start `(i, j)` comes before `(x, y)` in the scan: by `i` first, then by `j`.
pub open spec fn scanned_before(i: int, j: int, x: int, y: int) -> bool {
    i < x || (i == x && j < y)
}

/// Every position of a run holds equal elements, and the run stays inside both sequences.
pub proof fn lemma_run_matches<T: PartialEq>(a: Seq<T>, b: Seq<T>, i: int, j: int)
    ensures
        run_len(a, b, i, j) > 0 ==> 0 <= i && i + run_len(a, b, i, j) <= a.len() && 0 <= j && j
            + run_len(a, b, i, j) <= b.len(),
        forall|k: int| 0 <= k < run_len(a, b, i, j) ==> #[trigger] same(a[i + k], b[j + k]),
    decreases a.len() - i,
{
    if 0 <= i < a.len() && 0 <= j < b.len() && same(a[i], b[j]) {
        lemma_run_matches(a, b, i + 1, j + 1);
        assert forall|k: int| 0 <= k < run_len(a, b, i, j) implies #[trigger] same(a[i + k], b[j + k]) by {
            if k > 0 {
                assert(same(a[(i + 1) + (k - 1)], b[(j + 1) + (k - 1)]));
            }
        }
    }
}

/// Relies on `String::push`: appends one character to the end of the string.
#[verifier::external_body]
fn push_char(s: &mut String, c: char)
    ensures
        final(s)@ == old(s)@.push(c),
{
    s.push(c);
}

/// The longest run that two borrowed sequences `a` and `b` share, as a range into each.
pub struct Substring<'a, T: Eq> {
    sub_a: Range<usize>,
    sub_b: Range<usize>,
    a: &'a [T],
    b: &'a [T],
}

impl<'a, T: Eq> Substring<'a, T> {
    /// The first sequence.
    pub closed spec fn seq_a(&self) -> Seq<T> {
        self.a@
    }

    /// The second sequence.
    pub closed spec fn seq_b(&self) -> Seq<T> {
        self.b@
    }

    /// Where the run starts in `a`.
    pub closed spec fn start_a(&self) -> int {
        self.sub_a.start as int
    }

    /// Where the run starts in `b`.
    pub closed spec fn start_b(&self) -> int {
        self.sub_b.start as int
    }

    /// The length of the run.
    pub closed spec fn run(&self) -> nat {
        (self.sub_a.end - self.sub_a.start) as nat
    }

    #[verifier::type_invariant]
    spec fn inv(&self) -> bool {
        &&& self.sub_a.start <= self.sub_a.end <= self.a@.len()
        &&& self.sub_b.start <= self.sub_b.end <= self.b@.len()
        &&& self.sub_a.end - self.sub_a.start == self.sub_b.end - self.sub_b.start
    }

    /// Scans every pair of start positions `(i, j)`, `i` first, extends each while the
    /// elements agree, and keeps the first run that is strictly longer than all before it.
    /// Where nothing matches, both ranges are empty at position 0.
    pub fn new(a: &'a [T], b: &'a [T]) -> (r: Substring<'a, T>)
        requires
            T::obeys_eq_spec(),
        ensures
            r.seq_a() == a@,
            r.seq_b() == b@,
            r.run() == run_len(a@, b@, r.start_a(), r.start_b()),
            forall|i: int, j: int| 0 <= i < a@.len() && 0 <= j < b@.len() ==> #[trigger] run_len(a@, b@, i, j) <= r.run(),
            forall|i: int, j: int|
                0 <= i < a@.len() && 0 <= j < b@.len() && scanned_before(i, j, r.start_a(), r.start_b())
                    ==> #[trigger] run_len(a@, b@, i, j) < r.run(),
            r.run() == 0 ==> r.start_a() == 0 && r.start_b() == 0,
            forall|k: int| 0 <= k < r.run() ==> #[trigger] same(a@[r.start_a() + k], b@[r.start_b() + k]),
    {
        let n = a.len();
        let m = b.len();
        let mut start_a: usize = 0;
        let mut start_b: usize = 0;
        let mut max: usize = 0;
        let mut i: usize = 0;
        while i < n
            invariant
                T::obeys_eq_spec(),
                n == a@.len(),
                m == b@.len(),
                i <= n,
                max > 0 ==> max == run_len(a@, b@, start_a as int, start_b as int),
                max == 0 ==> start_a == 0 && start_b == 0,
                max > 0 ==> start_a < i && start_b < m,
                forall|x: int, y: int| 0 <= x < i && 0 <= y < m ==> #[trigger] run_len(a@, b@, x, y) <= max,
                forall|x: int, y: int|
                    0 <= x < i && 0 <= y < m && scanned_before(x, y, start_a as int, start_b as int)
                        ==> #[trigger] run_len(a@, b@, x, y) < max,
            decreases n - i,
        {
            let mut j: usize = 0;
            while j < m
                invariant
                    T::obeys_eq_spec(),
                    n == a@.len(),
                    m == b@.len(),
                    i < n,
                    j <= m,
                    max > 0 ==> max == run_len(a@, b@, start_a as int, start_b as int),
                    max == 0 ==> start_a == 0 && start_b == 0,
                    max > 0 ==> start_b < m && scanned_before(start_a as int, start_b as int, i as int, j as int),
                    forall|x: int, y: int|
                        (0 <= x < i && 0 <= y < m) || (x == i && 0 <= y < j) ==> #[trigger] run_len(a@, b@, x, y) <= max,
                    forall|x: int, y: int|
                        ((0 <= x < i && 0 <= y < m) || (x == i && 0 <= y < j)) && scanned_before(x, y, start_a as int, start_b as int)
                            ==> #[trigger] run_len(a@, b@, x, y) < max,
                decreases m - j,
            {
                let mut x: usize = 0;
                while i + x < n && j + x < m && a[i + x] == b[j + x]
                    invariant
                        T::obeys_eq_spec(),
                        n == a@.len(),
                        m == b@.len(),
                        i < n,
                        j < m,
                        i + x <= n,
                        j + x <= m,
                        run_len(a@, b@, i as int, j as int) == x + run_len(a@, b@, (i + x) as int, (j + x) as int),
                    decreases n - (i + x),
                {
                    x += 1;
                }
                if x > max {
                    max = x;
                    start_a = i;
                    start_b = j;
                }
                j += 1;
            }
            i += 1;
        }
        proof {
            if max == 0 && n > 0 && m > 0 {
                assert(run_len(a@, b@, 0, 0) <= max);
            }
            lemma_run_matches(a@, b@, start_a as int, start_b as int);
        }
        Substring { sub_a: start_a..start_a + max, sub_b: start_b..start_b + max, a, b }
    }

    /// Where the run lies in `a`.
    pub fn sub_a(&self) -> (r: Range<usize>)
        ensures
            r.start == self.start_a(),
            r.end == self.start_a() + self.run(),
    {
        proof {
            use_type_invariant(self);
        }
        self.sub_a.start..self.sub_a.end
    }

    /// Where the run lies in `b`.
    pub fn sub_b(&self) -> (r: Range<usize>)
        ensures
            r.start == self.start_b(),
            r.end == self.start_b() + self.run(),
    {
        proof {
            use_type_invariant(self);
        }
        self.sub_b.start..self.sub_b.end
    }

    /// The length of the run.
    pub fn len(&self) -> (r: usize)
        ensures
            r == self.run(),
    {
        proof {
            use_type_invariant(self);
        }
        self.sub_a.end - self.sub_a.start
    }

    /// The run as a slice of `a`.
    pub fn as_ref_a(&self) -> (r: &'a [T])
        ensures
            r@ == self.seq_a().subrange(self.start_a(), self.start_a() + self.run()),
    {
        proof {
            use_type_invariant(self);
        }
        &self.a[self.sub_a.start..self.sub_a.end]
    }

    /// The run as a slice of `b`.
    pub fn as_ref_b(&self) -> (r: &'a [T])
        ensures
            r@ == self.seq_b().subrange(self.start_b(), self.start_b() + self.run()),
    {
        proof {
            use_type_invariant(self);
        }
        &self.b[self.sub_b.start..self.sub_b.end]
    }

    /// The run as pairs `(elem_a, elem_b)` of elements at the same offset in each sequence.
    pub fn as_ref_both(&self) -> (r: Vec<(&'a T, &'a T)>)
        ensures
            r@.len() == self.run(),
            forall|k: int|
                0 <= k < r@.len() ==> *(#[trigger] r@[k]).0 == self.seq_a()[self.start_a() + k] && *r@[k].1
                    == self.seq_b()[self.start_b() + k],
    {
        proof {
            use_type_invariant(self);
        }
        let len = self.sub_a.end - self.sub_a.start;
        let mut r: Vec<(&'a T, &'a T)> = Vec::new();
        let mut k: usize = 0;
        while k < len
            invariant
                len == self.run(),
                self.sub_a.start + len <= self.a@.len(),
                self.sub_b.start + len <= self.b@.len(),
                k <= len,
                r@.len() == k,
                forall|q: int|
                    0 <= q < k ==> *(#[trigger] r@[q]).0 == self.a@[self.sub_a.start + q] && *r@[q].1
                        == self.b@[self.sub_b.start + q],
            decreases len - k,
        {
            r.push((&self.a[self.sub_a.start + k], &self.b[self.sub_b.start + k]));
            k += 1;
        }
        r
    }

    /// The run, cloned out of `a`.
    pub fn cloned(&self) -> (r: Vec<T>) where T: Clone
        ensures
            r@.len() == self.run(),
            forall|k: int| 0 <= k < r@.len() ==> cloned(self.seq_a()[self.start_a() + k], #[trigger] r@[k]),
    {
        proof {
            use_type_invariant(self);
        }
        let len = self.sub_a.end - self.sub_a.start;
        let mut r: Vec<T> = Vec::new();
        let mut k: usize = 0;
        while k < len
            invariant
                len == self.run(),
                self.sub_a.start + len <= self.a@.len(),
                k <= len,
                r@.len() == k,
                forall|q: int| 0 <= q < k ==> cloned(self.a@[self.sub_a.start + q], #[trigger] r@[q]),
            decreases len - k,
        {
            let e = self.a[self.sub_a.start + k].clone();
            r.push(e);
            k += 1;
        }
        r
    }
}

impl<'a> Substring<'a, char> {
    /// The run, as a string of the characters of `a`.
    pub fn to_string(&self) -> (r: String)
        ensures
            r@ == self.seq_a().subrange(self.start_a(), self.start_a() + self.run()),
    {
        proof {
            use_type_invariant(self);
        }
        let mut r = String::new();
        let mut k: usize = self.sub_a.start;
        while k < self.sub_a.end
            invariant
                self.sub_a.start <= k <= self.sub_a.end <= self.a@.len(),
                r@ == self.a@.subrange(self.sub_a.start as int, k as int),
            decreases self.sub_a.end - k,
        {
            push_char(&mut r, self.a[k]);
            k += 1;
            assert(r@ =~= self.a@.subrange(self.sub_a.start as int, k as int));
        }
        r
    }
}

/// A string of the run's characters: the same as `to_string`. No contract is claimed
/// through `From` itself: two strings with the same characters are not known to be equal
/// values, so callers that need the characters call `to_string`.
impl<'a> From<&'a Substring<'a, char>> for String {
    fn from(substr: &'a Substring<'a, char>) -> String {
        substr.to_string()
    }
}

impl<'a> vstd::std_specs::convert::FromSpecImpl<&'a Substring<'a, char>> for String {
    open spec fn obeys_from_spec() -> bool {
        false
    }

    open spec fn from_spec(substr: &'a Substring<'a, char>) -> String {
        arbitrary()
    }
}

/// A string of the run's characters: the same as `to_string`, consuming the substring.
impl<'a> From<Substring<'a, char>> for String {
    fn from(substr: Substring<'a, char>) -> String {
        substr.to_string()
    }
}

impl<'a> vstd::std_specs::convert::FromSpecImpl<Substring<'a, char>> for String {
    open spec fn obeys_from_spec() -> bool {
        false
    }

    open spec fn from_spec(substr: Substring<'a, char>) -> String {
        arbitrary()
    }
}

} // verus!
