//! The towers of Hanoi on three posts, each a column of disk sizes with `0`
//! for an empty slot, top first.
use vstd::prelude::*;

verus! {

/// The first position from `i` on that holds a disk, or `0` when there is
/// none.
pub open spec fn top_from(s: Seq<usize>, i: int) -> int
    decreases s.len() - i,
{
    if i >= s.len() {
        0
    } else if s[i] != 0 {
        i
    } else {
        top_from(s, i + 1)
    }
}

/// The last position before `k` that is empty, or `0` when there is none.
pub open spec fn free_below(s: Seq<usize>, k: int) -> int
    decreases k,
{
    if k <= 0 {
        0
    } else if s[k - 1] == 0 {
        k - 1
    } else {
        free_below(s, k - 1)
    }
}

proof fn lemma_top_in_range(s: Seq<usize>, i: int)
    requires
        0 <= i,
        s.len() > 0,
    ensures
        0 <= top_from(s, i) < s.len(),
    decreases s.len() - i,
{
    if i < s.len() && s[i] == 0 {
        lemma_top_in_range(s, i + 1);
    }
}

proof fn lemma_free_in_range(s: Seq<usize>, k: int)
    requires
        k <= s.len(),
        s.len() > 0,
    ensures
        0 <= free_below(s, k) < s.len(),
    decreases k,
{
    if k > 0 && s[k - 1] != 0 {
        lemma_free_in_range(s, k - 1);
    }
}

/// Moves the top disk of post `from_post` into the lowest free slot of post
/// `to_post` (posts are numbered from 1): the two slots swap their contents.
pub fn move_disk(posts: &mut [Vec<usize>], from_post: usize, to_post: usize)
    requires
        1 <= from_post <= old(posts)@.len(),
        1 <= to_post <= old(posts)@.len(),
        from_post != to_post,
        old(posts)@[from_post - 1]@.len() > 0,
        old(posts)@[to_post - 1]@.len() > 0,
    ensures
        ({
            let f = from_post - 1;
            let t = to_post - 1;
            let src = old(posts)@[f]@;
            let dst = old(posts)@[t]@;
            let fr = top_from(src, 0);
            let tr = free_below(dst, dst.len() as int);
            &&& final(posts)@.len() == old(posts)@.len()
            &&& final(posts)@[f]@ == src.update(fr, dst[tr])
            &&& final(posts)@[t]@ == dst.update(tr, src[fr])
            &&& forall|p: int|
                0 <= p < old(posts)@.len() && p != f && p != t ==> #[trigger] final(posts)@[p]
                    == old(posts)@[p]
        }),
{
    let f = from_post - 1;
    let t = to_post - 1;
    let ghost src = posts@[f as int]@;
    let ghost dst = posts@[t as int]@;

    let mut from_row: usize = 0;
    let mut i: usize = 0;
    let mut found = false;
    while i < posts[f].len()
        invariant
            posts@ == old(posts)@,
            f < posts@.len(),
            t < posts@.len(),
            posts@[f as int]@ == src,
            posts@[t as int]@ == dst,
            i <= src.len(),
            !found ==> top_from(src, 0) == top_from(src, i as int),
            !found ==> from_row == 0,
            found ==> from_row == top_from(src, 0),
        decreases src.len() - i,
    {
        if !found && posts[f][i] != 0 {
            from_row = i;
            found = true;
        }
        i += 1;
    }
    proof {
        if !found {
            assert(i == src.len());
        }
    }
    let mut to_row: usize = 0;
    let mut k: usize = posts[t].len();
    let mut found_free = false;
    while k > 0
        invariant
            posts@ == old(posts)@,
            f < posts@.len(),
            t < posts@.len(),
            posts@[f as int]@ == src,
            posts@[t as int]@ == dst,
            found ==> from_row == top_from(src, 0),
            !found ==> from_row == 0 && top_from(src, 0) == top_from(src, src.len() as int),
            k <= dst.len(),
            !found_free ==> free_below(dst, dst.len() as int) == free_below(dst, k as int),
            found_free ==> to_row == free_below(dst, dst.len() as int),
            !found_free ==> to_row == 0,
        decreases k,
    {
        if !found_free && posts[t][k - 1] == 0 {
            to_row = k - 1;
            found_free = true;
        }
        k -= 1;
    }
    proof {
        lemma_top_in_range(src, 0);
        lemma_free_in_range(dst, dst.len() as int);
    }
    let a = posts[f][from_row];
    let b = posts[t][to_row];
    posts[f].set(from_row, b);
    posts[t].set(to_row, a);
}

/// Moves the top `num` disks from post `from` to post `to`, using
/// `tmp_post` to hold disks in between.
pub fn move_disks(posts: &mut [Vec<usize>], num: usize, from: usize, to: usize, tmp_post: usize)
    requires
        1 <= from <= old(posts)@.len(),
        1 <= to <= old(posts)@.len(),
        1 <= tmp_post <= old(posts)@.len(),
        from != to && to != tmp_post && from != tmp_post,
        forall|p: int| 0 <= p < old(posts)@.len() ==> (#[trigger] old(posts)@[p])@.len() > 0,
    ensures
        final(posts)@.len() == old(posts)@.len(),
        forall|p: int|
            0 <= p < old(posts)@.len() ==> (#[trigger] final(posts)@[p])@.len() == old(
                posts,
            )@[p]@.len(),
    decreases num,
{
    match num {
        0 => (),
        n => {
            move_disks(posts, n - 1, from, tmp_post, to);
            let ghost mid = posts@;
            move_disk(posts, from, to);
            proof {
                assert forall|p: int| 0 <= p < posts@.len() implies (#[trigger] posts@[p])@.len()
                    == mid[p]@.len() by {
                    let f = from - 1;
                    let t = to - 1;
                    assert(mid[f]@.len() == old(posts)@[f]@.len());
                    assert(mid[t]@.len() == old(posts)@[t]@.len());
                    lemma_top_in_range(mid[f]@, 0);
                    lemma_free_in_range(mid[t]@, mid[t]@.len() as int);
                    if p != f && p != t {
                        assert(posts@[p] == mid[p]);
                    } else if p == f {
                        assert(posts@[p]@ == mid[f]@.update(top_from(mid[f]@, 0), mid[t]@[free_below(mid[t]@, mid[t]@.len() as int)]));
                    } else {
                        assert(posts@[p]@ == mid[t]@.update(free_below(mid[t]@, mid[t]@.len() as int), mid[f]@[top_from(mid[f]@, 0)]));
                    }
                }
            }
            move_disks(posts, n - 1, tmp_post, to, from);
        },
    }
}

} // verus!
