//! Sorting and searching vectors of numbers.
use vstd::prelude::*;

verus! {

/// Whether no element of `v` is smaller than its first one; `true` for an
/// empty vector.
pub fn check_sorted(v: &Vec<i32>) -> (r: bool)
    ensures
        r == forall|i: int| 0 <= i < v@.len() ==> v@[0] <= #[trigger] v@[i],
{
    if v.len() == 0 {
        return true;
    }
    let prev = v[0];
    let mut i: usize = 1;
    while i < v.len()
        invariant
            1 <= i <= v@.len(),
            prev == v@[0],
            forall|j: int| 0 <= j < i ==> v@[0] <= #[trigger] v@[j],
        decreases v@.len() - i,
    {
        if v[i] < prev {
            return false;
        }
        i += 1;
    }
    true
}

/// How often `x` occurs in `s`.
pub open spec fn count_of(s: Seq<i32>, x: i32) -> nat
    decreases s.len(),
{
    if s.len() == 0 {
        0
    } else {
        count_of(s.drop_last(), x) + if s.last() == x {
            1nat
        } else {
            0nat
        }
    }
}

/// `a` holds the same values as `b`, each as often.
pub open spec fn permutes(a: Seq<i32>, b: Seq<i32>) -> bool {
    a.len() == b.len() && forall|x: i32| #[trigger] count_of(a, x) == count_of(b, x)
}

/// `s` is in non-decreasing order between positions `lo` and `hi`.
pub open spec fn sorted_between(s: Seq<i32>, lo: int, hi: int) -> bool {
    forall|i: int, j: int| lo <= i <= j < hi ==> #[trigger] s[i] <= #[trigger] s[j]
}

proof fn lemma_count_concat(a: Seq<i32>, b: Seq<i32>, x: i32)
    ensures
        count_of(a + b, x) == count_of(a, x) + count_of(b, x),
    decreases b.len(),
{
    if b.len() == 0 {
        assert(a + b =~= a);
    } else {
        lemma_count_concat(a, b.drop_last(), x);
        assert((a + b).drop_last() =~= a + b.drop_last());
    }
}

proof fn lemma_count_update(s: Seq<i32>, i: int, v: i32, x: i32)
    requires
        0 <= i < s.len(),
    ensures
        count_of(s.update(i, v), x) + (if s[i] == x {
            1nat
        } else {
            0nat
        }) == count_of(s, x) + (if v == x {
            1nat
        } else {
            0nat
        }),
    decreases s.len(),
{
    let u = s.update(i, v);
    if i < s.len() - 1 {
        assert(u.drop_last() =~= s.drop_last().update(i, v));
        lemma_count_update(s.drop_last(), i, v, x);
    } else {
        assert(u.drop_last() =~= s.drop_last());
    }
}

/// Exchanging two entries keeps the values.
pub proof fn lemma_swap_permutes(s: Seq<i32>, i: int, j: int)
    requires
        0 <= i < s.len(),
        0 <= j < s.len(),
    ensures
        permutes(s.update(i, s[j]).update(j, s[i]), s),
{
    let t = s.update(i, s[j]);
    assert forall|x: i32| #[trigger] count_of(t.update(j, s[i]), x) == count_of(s, x) by {
        lemma_count_update(s, i, s[j], x);
        lemma_count_update(t, j, s[i], x);
    }
}

pub proof fn lemma_count_positive(s: Seq<i32>, x: i32)
    ensures
        count_of(s, x) > 0 <==> s.contains(x),
    decreases s.len(),
{
    if s.len() > 0 {
        lemma_count_positive(s.drop_last(), x);
        let p = s.drop_last();
        if p.contains(x) {
            let k = choose|k: int| 0 <= k < p.len() && p[k] == x;
            assert(s[k] == x);
        }
        if s.contains(x) {
            let k = choose|k: int| 0 <= k < s.len() && s[k] == x;
            if k < s.len() - 1 {
                assert(p[k] == x);
            }
        }
    }
}

/// Values of a permutation of `b` keep every bound that all of `b` meets.
proof fn lemma_permutes_bounds(a: Seq<i32>, b: Seq<i32>, lo: int, hi: int)
    requires
        permutes(a, b),
        forall|k: int| 0 <= k < b.len() ==> lo <= #[trigger] b[k] <= hi,
    ensures
        forall|k: int| 0 <= k < a.len() ==> lo <= #[trigger] a[k] <= hi,
{
    assert forall|k: int| 0 <= k < a.len() implies lo <= #[trigger] a[k] <= hi by {
        let x = a[k];
        lemma_count_positive(a, x);
        lemma_count_positive(b, x);
        assert(a.contains(x));
        assert(count_of(b, x) == count_of(a, x));
        let j = choose|j: int| 0 <= j < b.len() && b[j] == x;
        assert(lo <= b[j] <= hi);
    }
}

/// Exchanges `s[i]` and `s[j]`.
fn swap_entries(s: &mut [i32], i: usize, j: usize)
    requires
        i < old(s)@.len(),
        j < old(s)@.len(),
    ensures
        final(s)@ == old(s)@.update(i as int, old(s)@[j as int]).update(j as int, old(s)@[i as int]),
{
    let a = s[i];
    let b = s[j];
    s[i] = b;
    s[j] = a;
}

/// Exchanging two entries of `lo..hi` permutes that range and leaves the
/// rest alone.
proof fn lemma_swap_in_range(s: Seq<i32>, i: int, j: int, lo: int, hi: int)
    requires
        0 <= lo <= i < hi <= s.len(),
        lo <= j < hi,
    ensures
        ({
            let t = s.update(i, s[j]).update(j, s[i]);
            &&& t.len() == s.len()
            &&& permutes(t.subrange(lo, hi), s.subrange(lo, hi))
            &&& forall|k: int| 0 <= k < s.len() && !(lo <= k < hi) ==> #[trigger] t[k] == s[k]
        }),
{
    let t = s.update(i, s[j]).update(j, s[i]);
    let sub = s.subrange(lo, hi);
    assert(t.subrange(lo, hi) =~= sub.update(i - lo, sub[j - lo]).update(j - lo, sub[i - lo]));
    lemma_swap_permutes(sub, i - lo, j - lo);
}

/// Splits `s[lo..hi]` around its last entry, Lomuto's way: returns the
/// pivot's new position `p`, with no larger entry before it and no smaller
/// one after it.
fn partition(s: &mut [i32], lo: usize, hi: usize) -> (p: usize)
    requires
        lo < hi <= old(s)@.len(),
    ensures
        lo <= p < hi,
        final(s)@.len() == old(s)@.len(),
        permutes(final(s)@.subrange(lo as int, hi as int), old(s)@.subrange(lo as int, hi as int)),
        forall|k: int|
            0 <= k < old(s)@.len() && !(lo <= k < hi) ==> #[trigger] final(s)@[k] == old(s)@[k],
        forall|k: int| lo <= k < p ==> #[trigger] final(s)@[k] <= final(s)@[p as int],
        forall|k: int| p < k < hi ==> #[trigger] final(s)@[k] >= final(s)@[p as int],
{
    let pvt = hi - 1;
    let mut i = lo;
    let mut j = lo;
    while j < pvt
        invariant
            lo <= i <= j <= pvt < hi <= s@.len(),
            s@.len() == old(s)@.len(),
            s@[pvt as int] == old(s)@[pvt as int],
            permutes(s@.subrange(lo as int, hi as int), old(s)@.subrange(lo as int, hi as int)),
            forall|k: int|
                0 <= k < old(s)@.len() && !(lo <= k < hi) ==> #[trigger] s@[k] == old(s)@[k],
            forall|k: int| lo <= k < i ==> #[trigger] s@[k] <= s@[pvt as int],
            forall|k: int| i <= k < j ==> #[trigger] s@[k] > s@[pvt as int],
        decreases pvt - j,
    {
        if s[j] <= s[pvt] {
            let ghost before = s@;
            swap_entries(s, j, i);
            proof {
                lemma_swap_in_range(before, j as int, i as int, lo as int, hi as int);
            }
            i = i + 1;
        }
        j += 1;
    }
    let ghost before = s@;
    swap_entries(s, i, pvt);
    proof {
        lemma_swap_in_range(before, i as int, pvt as int, lo as int, hi as int);
    }
    i
}

fn sort_range(s: &mut [i32], lo: usize, hi: usize)
    requires
        lo <= hi <= old(s)@.len(),
    ensures
        final(s)@.len() == old(s)@.len(),
        permutes(final(s)@.subrange(lo as int, hi as int), old(s)@.subrange(lo as int, hi as int)),
        forall|k: int|
            0 <= k < old(s)@.len() && !(lo <= k < hi) ==> #[trigger] final(s)@[k] == old(s)@[k],
        sorted_between(final(s)@, lo as int, hi as int),
    decreases hi - lo,
{
    if hi - lo > 1 {
        let p = partition(s, lo, hi);
        let ghost s1 = s@;
        sort_range(s, lo, p);
        let ghost s2 = s@;
        sort_range(s, p + 1, hi);
        let ghost s3 = s@;
        proof {
            let pv = s1[p as int];
            assert(s2[p as int] == pv && s3[p as int] == pv);
            lemma_permutes_bounds(
                s2.subrange(lo as int, p as int),
                s1.subrange(lo as int, p as int),
                i32::MIN as int,
                pv as int,
            );
            lemma_permutes_bounds(
                s3.subrange(p + 1, hi as int),
                s2.subrange(p + 1, hi as int),
                pv as int,
                i32::MAX as int,
            );
            assert forall|k: int| lo <= k < p implies #[trigger] s3[k] <= pv by {
                assert(s3[k] == s2[k]);
                assert(s2.subrange(lo as int, p as int)[k - lo] == s2[k]);
            }
            assert forall|k: int| p < k < hi implies #[trigger] s3[k] >= pv by {
                assert(s3.subrange(p + 1, hi as int)[k - p - 1] == s3[k]);
            }
            assert forall|k: int| p + 1 <= k < hi implies #[trigger] s2[k] == s1[k] by {}
            assert forall|x: i32| #[trigger] count_of(s3.subrange(lo as int, hi as int), x)
                == count_of(s1.subrange(lo as int, hi as int), x) by {
                let (l, m, r) = (lo as int, p as int, hi as int);
                assert(s3.subrange(l, r) =~= s3.subrange(l, m) + s3.subrange(m, m + 1)
                    + s3.subrange(m + 1, r));
                assert(s1.subrange(l, r) =~= s1.subrange(l, m) + s1.subrange(m, m + 1)
                    + s1.subrange(m + 1, r));
                lemma_count_concat(s3.subrange(l, m) + s3.subrange(m, m + 1), s3.subrange(m + 1, r), x);
                lemma_count_concat(s3.subrange(l, m), s3.subrange(m, m + 1), x);
                lemma_count_concat(s1.subrange(l, m) + s1.subrange(m, m + 1), s1.subrange(m + 1, r), x);
                lemma_count_concat(s1.subrange(l, m), s1.subrange(m, m + 1), x);
                assert(s3.subrange(l, m) =~= s2.subrange(l, m));
                assert(s2.subrange(m + 1, r) =~= s1.subrange(m + 1, r));
                assert(s3.subrange(m, m + 1) =~= s1.subrange(m, m + 1));
            }
        }
    }
}

/// Sorts `s` in non-decreasing order by quicksort.
pub fn quicksort(s: &mut [i32])
    ensures
        permutes(final(s)@, old(s)@),
        sorted_between(final(s)@, 0, final(s)@.len() as int),
{
    let n = s.len();
    sort_range(s, 0, n);
    proof {
        assert(s@.subrange(0, n as int) =~= s@);
        assert(old(s)@.subrange(0, n as int) =~= old(s)@);
    }
}

/// Binary search for `query` in a vector in non-decreasing order. Returns
/// the position found, or `-1`, and the number of probes.
pub fn binary_search(input: &mut Vec<i32>, query: i32) -> (r: (i32, i32))
    requires
        1 <= old(input)@.len() <= i32::MAX,
    ensures
        final(input)@ == old(input)@,
        r.0 == -1 || (0 <= r.0 < old(input)@.len() && old(input)@[r.0 as int] == query),
        1 <= r.1 <= old(input)@.len(),
        sorted_between(old(input)@, 0, old(input)@.len() as int) && old(input)@.contains(query) ==> r.0 != -1,
{
    let ghost s = input@;
    let mut left: usize = 0;
    let mut right: usize = input.len() - 1;
    let mut tests: i32 = 0;
    let mut done = false;
    while !done && left <= right
        invariant
            input@ == s,
            1 <= s.len() <= i32::MAX,
            left <= right + 1,
            right < s.len(),
            0 <= tests,
            tests + (right + 1 - left) <= s.len() + (if done {
                1int
            } else {
                0int
            }),
            done ==> left <= right,
            tests == 0 ==> left == 0 && right == s.len() - 1 && !done,
            !done ==> (sorted_between(s, 0, s.len() as int) && s.contains(query) ==> exists|k: int|
                left <= k <= right && #[trigger] s[k] == query),
            done ==> !(sorted_between(s, 0, s.len() as int) && s.contains(query)),
            done ==> 1 <= tests,
        decreases right + 1 - left + (if done { 0int } else { 1int }),
    {
        tests += 1;
        let middle = (left + right) / 2;
        if input[middle] < query {
            proof {
                if sorted_between(s, 0, s.len() as int) && s.contains(query) {
                    let k = choose|k: int| left <= k <= right && #[trigger] s[k] == query;
                    if k <= middle {
                        assert(s[k] <= s[middle as int]);
                    }
                }
            }
            left = middle + 1;
        } else if input[middle] > query {
            proof {
                if sorted_between(s, 0, s.len() as int) && s.contains(query) {
                    let k = choose|k: int| left <= k <= right && #[trigger] s[k] == query;
                    if k >= middle {
                        assert(s[middle as int] <= s[k]);
                    }
                }
            }
            if middle > 0 {
                right = middle - 1;
            } else {
                done = true;
            }
        } else {
            return (middle as i32, tests);
        }
    }
    proof {
        if !done && sorted_between(s, 0, s.len() as int) && s.contains(query) {
            let k = choose|k: int| left <= k <= right && #[trigger] s[k] == query;
        }
    }
    (-1, tests)
}

proof fn lemma_adjacent_sorted(s: Seq<i32>)
    requires
        forall|k: int| 0 <= k < s.len() - 1 ==> #[trigger] s[k] <= s[k + 1],
    ensures
        sorted_between(s, 0, s.len() as int),
    decreases s.len(),
{
    if s.len() > 1 {
        let p = s.drop_last();
        assert forall|k: int| 0 <= k < p.len() - 1 implies #[trigger] p[k] <= p[k + 1] by {
            assert(p[k] == s[k] && p[k + 1] == s[k + 1]);
        }
        lemma_adjacent_sorted(p);
        assert forall|i: int, j: int| 0 <= i <= j < s.len() implies #[trigger] s[i] <= #[trigger] s[j] by {
            if j == s.len() - 1 && i < j {
                assert(p[i] <= p[j - 1]);
            } else if j < s.len() - 1 {
                assert(p[i] <= p[j]);
            }
        }
    }
}

/// Sorts `v` in non-decreasing order by bubble sort: passes that swap
/// neighbours out of order, until a pass swaps none.
pub fn bubble_sort(v: &mut Vec<i32>)
    ensures
        permutes(final(v)@, old(v)@),
        sorted_between(final(v)@, 0, final(v)@.len() as int),
{
    if v.len() < 2 {
        proof {
            assert forall|x: i32| #[trigger] count_of(v@, x) == count_of(old(v)@, x) by {}
        }
        return;
    }
    let n = v.len();
    let mut sorted = false;
    let ghost mut p: int = 0;
    while !sorted
        invariant
            n == v@.len() >= 2,
            permutes(v@, old(v)@),
            0 <= p <= n,
            sorted_between(v@, n - p, n as int),
            forall|a: int, b: int| 0 <= a < n - p <= b < n ==> #[trigger] v@[a] <= #[trigger] v@[b],
            sorted ==> sorted_between(v@, 0, n as int),
            !sorted ==> p < n,
        decreases n - p,
    {
        let ghost st = v@;
        sorted = true;
        let mut i: usize = 0;
        while i < n - 1
            invariant
                n == v@.len() == st.len() >= 2,
                0 <= p < n,
                sorted_between(st, n - p, n as int),
                forall|a: int, b: int| 0 <= a < n - p <= b < n ==> #[trigger] st[a] <= #[trigger] st[b],
                permutes(st, old(v)@),
                i <= n - 1,
                permutes(v@, st),
                permutes(v@.subrange(0, i + 1), st.subrange(0, i + 1)),
                forall|k: int| i < k < n ==> #[trigger] v@[k] == st[k],
                forall|k: int| 0 <= k < i ==> #[trigger] v@[k] <= v@[i as int],
                sorted ==> v@ == st,
                sorted ==> forall|k: int| 0 <= k < i ==> #[trigger] st[k] <= st[k + 1],
                sorted_between(st, 0, n as int) ==> sorted,
                i >= n - p - 1 ==> forall|k: int| 0 <= k < n - p - 1 ==> #[trigger] v@[k] <= v@[n - p - 1],
                i >= n - p && p >= 1 ==> v@[n - p - 1] <= v@[n - p],
                forall|k: int| n - p <= k < n ==> #[trigger] v@[k] == st[k],
            decreases n - 1 - i,
        {
            let ghost before = v@;
            proof {
                if i + 1 >= n - p {
                    // Everything up to i is at most st[i + 1].
                    lemma_permutes_bounds(
                        v@.subrange(0, i + 1),
                        st.subrange(0, i + 1),
                        i32::MIN as int,
                        st[i + 1] as int,
                    );
                    assert forall|k: int| 0 <= k < i + 1 implies #[trigger] st.subrange(0, i + 1)[k] <= st[i + 1] by {
                        assert(st.subrange(0, i + 1)[k] == st[k]);
                        if k >= n - p {
                            assert(st[k] <= st[i + 1]);
                        }
                    }
                    assert(v@.subrange(0, i + 1)[i as int] == v@[i as int]);
                }
            }
            if v[i] > v[i + 1] {
                let a = v[i];
                let b = v[i + 1];
                v.set(i, b);
                v.set(i + 1, a);
                sorted = false;
                proof {
                    assert(v@ == before.update(i as int, before[i + 1]).update(i + 1, before[i as int]));
                    lemma_swap_permutes(before, i as int, i + 1);
                    lemma_swap_in_range(before, i as int, i + 1, 0, i + 2);
                    assert forall|x: i32| #[trigger] count_of(v@, x) == count_of(old(v)@, x) by {
                        assert(count_of(v@, x) == count_of(before, x));
                        assert(count_of(before, x) == count_of(st, x));
                    }
                }
            }
            proof {
                let ii = i as int;
                assert(v@.subrange(0, ii + 2) =~= v@.subrange(0, ii + 1).push(v@[ii + 1]));
                assert(before.subrange(0, ii + 2) =~= before.subrange(0, ii + 1).push(before[ii + 1]));
                assert(st.subrange(0, ii + 2) =~= st.subrange(0, ii + 1).push(st[ii + 1]));
                assert forall|x: i32| #[trigger] count_of(v@.subrange(0, ii + 2), x) == count_of(st.subrange(0, ii + 2), x) by {
                    assert(v@.subrange(0, ii + 1).push(v@[ii + 1]).drop_last() =~= v@.subrange(0, ii + 1));
                    assert(before.subrange(0, ii + 1).push(before[ii + 1]).drop_last() =~= before.subrange(0, ii + 1));
                    assert(st.subrange(0, ii + 1).push(st[ii + 1]).drop_last() =~= st.subrange(0, ii + 1));
                    assert(count_of(before.subrange(0, ii + 1), x) == count_of(st.subrange(0, ii + 1), x));
                    assert(before[ii + 1] == st[ii + 1]);
                    let bs = before.subrange(0, ii + 1);
                    let ss = st.subrange(0, ii + 1);
                    assert(count_of(bs.push(before[ii + 1]), x) == count_of(bs, x) + (if before[ii + 1] == x { 1nat } else { 0nat }));
                    assert(count_of(ss.push(st[ii + 1]), x) == count_of(ss, x) + (if st[ii + 1] == x { 1nat } else { 0nat }));
                    if v@ != before {
                        lemma_swap_in_range(before, ii, ii + 1, 0, ii + 2);
                        assert(count_of(v@.subrange(0, ii + 2), x) == count_of(before.subrange(0, ii + 2), x));
                    }
                }
            }
            i += 1;
        }
        proof {
            if sorted {
                lemma_adjacent_sorted(st);
            }
            p = p + 1;
            assert forall|a: int, b: int| n - p <= a <= b < n implies #[trigger] v@[a] <= #[trigger] v@[b] by {
                if a == n - p && b > a {
                    assert(v@[n - p] <= v@[b]) by {
                        assert(st[n - p] <= st[b]);
                    }
                }
                if a > n - p {
                    assert(st[a] <= st[b]);
                }
            }
        }
    }
}

/// How many entries of `s` are at most `v`.
pub open spec fn count_at_most(s: Seq<i32>, v: int) -> nat
    decreases s.len(),
{
    if s.len() == 0 {
        0
    } else {
        count_at_most(s.drop_last(), v) + if s.last() <= v {
            1nat
        } else {
            0nat
        }
    }
}

pub proof fn lemma_at_most_step(s: Seq<i32>, v: int)
    requires
        i32::MIN <= v <= i32::MAX,
    ensures
        count_at_most(s, v) == count_at_most(s, v - 1) + count_of(s, v as i32),
    decreases s.len(),
{
    if s.len() > 0 {
        lemma_at_most_step(s.drop_last(), v);
    }
}

pub proof fn lemma_at_most_monotone(s: Seq<i32>, v: int, w: int)
    requires
        v <= w,
    ensures
        count_at_most(s, v) <= count_at_most(s, w),
    decreases s.len(),
{
    if s.len() > 0 {
        lemma_at_most_monotone(s.drop_last(), v, w);
    }
}

pub proof fn lemma_at_most_bounds(s: Seq<i32>, m: int)
    requires
        forall|k: int| 0 <= k < s.len() ==> 0 <= #[trigger] s[k] <= m,
    ensures
        count_at_most(s, m) == s.len(),
        count_at_most(s, -1) == 0,
        forall|v: int| #[trigger] count_at_most(s, v) <= s.len(),
    decreases s.len(),
{
    if s.len() > 0 {
        let p = s.drop_last();
        assert forall|k: int| 0 <= k < p.len() implies 0 <= #[trigger] p[k] <= m by {
            assert(p[k] == s[k]);
        }
        lemma_at_most_bounds(p, m);
        assert forall|v: int| #[trigger] count_at_most(s, v) <= s.len() by {
            assert(count_at_most(p, v) <= p.len());
        }
    }
}

pub proof fn lemma_count_prefix(s: Seq<i32>, j: int, x: i32)
    requires
        0 <= j < s.len(),
    ensures
        count_of(s.take(j + 1), x) == count_of(s.take(j), x) + (if s[j] == x {
            1nat
        } else {
            0nat
        }),
        count_of(s.take(j + 1), x) <= count_of(s, x),
{
    assert(s.take(j + 1).drop_last() =~= s.take(j));
    lemma_count_concat(s.take(j + 1), s.skip(j + 1), x);
    assert(s.take(j + 1) + s.skip(j + 1) =~= s);
}

/// `s` holds `x` exactly at the positions `a..b`.
pub proof fn lemma_count_block(s: Seq<i32>, x: i32, a: int, b: int)
    requires
        0 <= a <= b <= s.len(),
        forall|p: int| 0 <= p < s.len() ==> (#[trigger] s[p] == x <==> a <= p < b),
    ensures
        count_of(s, x) == b - a,
    decreases s.len(),
{
    if s.len() > 0 {
        let q = s.drop_last();
        if b == s.len() && a < b {
            assert forall|p: int| 0 <= p < q.len() implies (#[trigger] q[p] == x <==> a <= p < b - 1) by {
                assert(q[p] == s[p]);
            }
            lemma_count_block(q, x, a, b - 1);
            assert(s[s.len() - 1] == x);
        } else {
            let (a2, b2) = if b < s.len() {
                (a, b)
            } else {
                (0, 0)
            };
            assert forall|p: int| 0 <= p < q.len() implies (#[trigger] q[p] == x <==> a2 <= p < b2) by {
                assert(q[p] == s[p]);
            }
            lemma_count_block(q, x, a2, b2);
            assert(s[s.len() - 1] != x);
        }
    }
}

/// Every position below `count_at_most(s, m)` lies in the block of some
/// value `v <= m`.
pub proof fn lemma_blocks_cover(s: Seq<i32>, m: int, p: int)
    requires
        0 <= m,
        0 <= p < count_at_most(s, m),
        count_at_most(s, -1) == 0,
    ensures
        exists|v: int|
            0 <= v <= m && count_at_most(s, v - 1) <= p < #[trigger] count_at_most(s, v),
    decreases m,
{
    if m > 0 && p < count_at_most(s, m - 1) {
        lemma_blocks_cover(s, m - 1, p);
        let v = choose|v: int|
            0 <= v <= m - 1 && count_at_most(s, v - 1) <= p < #[trigger] count_at_most(s, v);
        assert(0 <= v <= m);
    } else {
        assert(count_at_most(s, m - 1) <= p < count_at_most(s, m));
    }
}

/// Sorts non-negative numbers by counting sort: counts each value, turns
/// the counts into end positions, and places the entries from the back.
pub fn counting_sort(input: Vec<i32>) -> (r: Vec<i32>)
    requires
        input@.len() <= i32::MAX,
        forall|k: int| 0 <= k < input@.len() ==> 0 <= #[trigger] input@[k],
    ensures
        permutes(r@, input@),
        sorted_between(r@, 0, r@.len() as int),
{
    let ghost s = input@;
    let n = input.len();
    let mut max: i32 = 0;
    let mut i: usize = 0;
    while i < n
        invariant
            n == s.len() == input@.len(),
            input@ == s,
            i <= n,
            0 <= max,
            forall|k: int| 0 <= k < i ==> #[trigger] s[k] <= max,
        decreases n - i,
    {
        if input[i] > max {
            max = input[i];
        }
        i += 1;
    }
    let m = max as usize;
    proof {
        assert forall|k: int| 0 <= k < n implies 0 <= #[trigger] s[k] <= m by {}
        lemma_at_most_bounds(s, m as int);
    }
    let mut counts: Vec<i32> = Vec::new();
    let mut c: usize = 0;
    while c <= m
        invariant
            m <= i32::MAX,
            c <= m + 1,
            counts@.len() == c,
            forall|v: int| 0 <= v < c ==> #[trigger] counts@[v] == 0,
        decreases m + 1 - c,
    {
        counts.push(0);
        c += 1;
    }
    // Count each value.
    let mut i: usize = 0;
    while i < n
        invariant
            n == s.len() == input@.len() <= i32::MAX,
            input@ == s,
            forall|k: int| 0 <= k < n ==> 0 <= #[trigger] s[k] <= m,
            m <= i32::MAX,
            counts@.len() == m + 1,
            i <= n,
            forall|v: int| 0 <= v <= m ==> #[trigger] counts@[v] == count_of(s.take(i as int), v as i32),
            forall|v: int| 0 <= v <= m ==> #[trigger] counts@[v] <= i,
        decreases n - i,
    {
        let e = input[i] as usize;
        proof {
            assert forall|x: i32| #[trigger] count_of(s.take(i + 1), x) == count_of(s.take(i as int), x)
                + (if s[i as int] == x { 1nat } else { 0nat }) by {
                lemma_count_prefix(s, i as int, x);
            }
        }
        let cur = counts[e];
        counts.set(e, cur + 1);
        i += 1;
    }
    proof {
        assert(s.take(n as int) =~= s);
        lemma_at_most_step(s, 0);
    }
    // Turn the counts into end positions.
    let mut idx: usize = 1;
    while idx <= m
        invariant
            n == s.len() <= i32::MAX,
            forall|k: int| 0 <= k < n ==> 0 <= #[trigger] s[k] <= m,
            m <= i32::MAX,
            counts@.len() == m + 1,
            1 <= idx <= m + 1,
            forall|v: int| 0 <= v < idx ==> #[trigger] counts@[v] == count_at_most(s, v),
            forall|v: int| idx <= v <= m ==> #[trigger] counts@[v] == count_of(s, v as i32),
            count_at_most(s, m as int) == n,
            count_at_most(s, -1) == 0,
            forall|v: int| #[trigger] count_at_most(s, v) <= n,
        decreases m + 1 - idx,
    {
        proof {
            lemma_at_most_step(s, idx as int);
            lemma_at_most_step(s, 0);
        }
        let a = counts[idx];
        let b = counts[idx - 1];
        counts.set(idx, a + b);
        idx += 1;
    }
    proof {
        if m == 0 {
            lemma_at_most_step(s, 0);
        }
    }
    // Place the entries from the back.
    let mut output: Vec<i32> = Vec::new();
    let mut t: usize = 0;
    while t < n
        invariant
            output@.len() == t,
            t <= n,
            forall|p: int| 0 <= p < t ==> #[trigger] output@[p] == 0,
        decreases n - t,
    {
        output.push(0);
        t += 1;
    }
    proof {
        assert(s.take(n as int) =~= s);
        assert forall|v: int| 0 <= v <= m implies #[trigger] counts@[v] == count_at_most(s, v - 1)
            + count_of(s.take(n as int), v as i32) by {
            lemma_at_most_step(s, v);
        }
    }
    let mut j: usize = n;
    while j > 0
        invariant
            n == s.len() == input@.len() <= i32::MAX,
            input@ == s,
            forall|k: int| 0 <= k < n ==> 0 <= #[trigger] s[k] <= m,
            m <= i32::MAX,
            counts@.len() == m + 1,
            output@.len() == n,
            j <= n,
            count_at_most(s, m as int) == n,
            count_at_most(s, -1) == 0,
            forall|v: int| #[trigger] count_at_most(s, v) <= n,
            forall|v: int|
                0 <= v <= m ==> #[trigger] counts@[v] == count_at_most(s, v - 1) + count_of(
                    s.take(j as int),
                    v as i32,
                ),
            forall|v: int, p: int|
                0 <= v <= m && #[trigger] counts@[v] <= p < count_at_most(s, v) ==> #[trigger] output@[p]
                    == v,
        decreases j,
    {
        let k = input[j - 1];
        let e = k as usize;
        let ghost jj = (j - 1) as int;
        proof {
            lemma_count_prefix(s, jj, k);
            assert(s.take(jj + 1) =~= s.take(j as int));
            assert forall|x: i32| #[trigger] count_of(s.take(j as int), x) == count_of(s.take(jj), x)
                + (if s[jj] == x { 1nat } else { 0nat }) by {
                lemma_count_prefix(s, jj, x);
            }
            lemma_at_most_step(s, e as int);
            lemma_count_prefix(s, jj, k);
        }
        let pos = counts[e] - 1;
        counts.set(e, pos);
        let ghost before = output@;
        output.set(pos as usize, k);
        proof {
            assert forall|v: int, p: int|
                0 <= v <= m && #[trigger] counts@[v] <= p < count_at_most(s, v) implies #[trigger] output@[p]
                    == v by {
                if p != pos && v != e {
                    assert(before[p] == v);
                } else if v != e && p == pos {
                    if v < e {
                        lemma_at_most_monotone(s, v, e - 1);
                    } else {
                        lemma_at_most_monotone(s, e as int, v - 1);
                        lemma_count_prefix(s, jj, v as i32);
                    }
                } else if p != pos {
                    assert(before[p] == v);
                }
            }
        }
        j -= 1;
    }
    proof {
        assert(s.take(0) =~= Seq::<i32>::empty());
        let r = output@;
        // Each position lies in the block of its value.
        assert forall|p: int| 0 <= p < n implies 0 <= #[trigger] r[p] <= m && count_at_most(s, r[p] - 1) <= p < count_at_most(s, r[p] as int) by {
            lemma_blocks_cover(s, m as int, p);
            let v = choose|v: int|
                0 <= v <= m && count_at_most(s, v - 1) <= p < #[trigger] count_at_most(s, v);
            assert(counts@[v] == count_at_most(s, v - 1));
        }
        assert forall|a: int, b: int| 0 <= a <= b < n implies #[trigger] r[a] <= #[trigger] r[b] by {
            if r[b] < r[a] {
                lemma_at_most_monotone(s, r[b] as int, r[a] - 1);
            }
        }
        assert forall|x: i32| #[trigger] count_of(r, x) == count_of(s, x) by {
            if 0 <= x <= m {
                lemma_at_most_step(s, x as int);
                assert forall|p: int| 0 <= p < r.len() implies (#[trigger] r[p] == x <==> count_at_most(s, x - 1) <= p < count_at_most(s, x as int)) by {
                    if r[p] != x && count_at_most(s, x - 1) <= p < count_at_most(s, x as int) {
                        assert(counts@[x as int] == count_at_most(s, x - 1));
                    }
                }
                lemma_at_most_monotone(s, x - 1, x as int);
                lemma_count_block(r, x, count_at_most(s, x - 1) as int, count_at_most(s, x as int) as int);
            } else {
                lemma_count_positive(r, x);
                lemma_count_positive(s, x);
                if s.contains(x) {
                    let k = choose|k: int| 0 <= k < s.len() && s[k] == x;
                }
                if r.contains(x) {
                    let p = choose|p: int| 0 <= p < r.len() && r[p] == x;
                }
            }
        }
    }
    output
}

} // verus!
