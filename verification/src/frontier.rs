//! Merge frontiers: which regions of the grid are done, and what lies beyond
//! them.
//!
//! A frontier over a window `top` is a list of blocks that all start at the
//! window's origin. Together they look like a staircase: from one block to the
//! next the first length grows and the second shrinks.
use vstd::prelude::*;

use crate::block::Rect;
use crate::error::{res, ErrorView, ImergeError};
use crate::text::{cat5, decimal, number};

verus! {

// ---------------------------------------------------------------------
// Bisection
// ---------------------------------------------------------------------

/// Whether `f`, asked about `i`, can only answer `answer`.
pub open spec fn answers<F: Fn(usize) -> Result<bool, ImergeError>>(
    f: F,
    i: usize,
    answer: bool,
) -> bool {
    forall|r: Result<bool, ImergeError>|
        #[trigger] call_ensures(f, (i,), r) ==> (r matches Ok(b) && b == answer)
}

/// Whether `f` is true from `lo` up to `k` and false from `k` to `hi`.
pub open spec fn turns_at<F: Fn(usize) -> Result<bool, ImergeError>>(
    f: F,
    lo: usize,
    hi: usize,
    k: usize,
) -> bool {
    &&& lo <= k <= hi
    &&& forall|i: usize| lo <= i < k ==> #[trigger] answers(f, i, true)
    &&& forall|i: usize| k <= i < hi ==> #[trigger] answers(f, i, false)
}

/// Bisection for the smallest `i` in `lo..hi` for which `f` is false, where `f`
/// is true up to some place and false from there on. The result is `hi` if there
/// is no such `i`. The first error of `f` ends the search.
pub fn find_first_false<F>(lo: usize, hi: usize, f: F) -> (r: Result<usize, ImergeError>) where
    F: Fn(usize) -> Result<bool, ImergeError>,

    requires
        forall|i: usize| lo <= i < hi ==> call_requires(f, (i,)),
    ensures
        r matches Ok(n) ==> {
            &&& lo <= hi ==> lo <= n <= hi
            &&& lo > hi ==> n == lo
            &&& n > lo && lo < hi ==> call_ensures(f, ((n - 1) as usize,), Ok(true))
            &&& n < hi ==> call_ensures(f, (n,), Ok(false))
        },
        r matches Err(e) ==> exists|i: usize|
            lo <= i < hi && #[trigger] call_ensures(f, (i,), Err(e)),
        forall|k: usize| #[trigger] turns_at(f, lo, hi, k) ==> (r matches Ok(n) && n == k),
{
    let mut low = lo;
    let mut high = hi;
    while low < high
        invariant
            lo <= hi ==> lo <= low <= high <= hi,
            lo > hi ==> low == lo && high == hi,
            forall|i: usize| lo <= i < hi ==> call_requires(f, (i,)),
            low > lo ==> call_ensures(f, ((low - 1) as usize,), Ok(true)),
            high < hi ==> call_ensures(f, (high,), Ok(false)),
            forall|k: usize| #[trigger] turns_at(f, lo, hi, k) ==> low <= k <= high,
        decreases high - low,
    {
        let mid: usize = low + (high - low) / 2;
        let answer = f(mid);
        assert forall|k: usize| #[trigger] turns_at(f, lo, hi, k) implies (answer matches Ok(b) && b
            == (mid < k)) by {
            assert(answers(f, mid, mid < k));
        }
        match answer {
            Err(e) => {
                return Err(e);
            },
            Ok(true) => {
                low = mid + 1;
            },
            Ok(false) => {
                high = mid;
            },
        }
    }
    Ok(low)
}

// ---------------------------------------------------------------------
// Staircases
// ---------------------------------------------------------------------

/// Whether `a` is at least as long as `b` both ways.
pub open spec fn contains(a: Rect, b: Rect) -> bool {
    a.len1 >= b.len1 && a.len2 >= b.len2
}

/// Whether `b` has no cells.
pub open spec fn is_empty(b: Rect) -> bool {
    b.len1 == 0 || b.len2 == 0
}

/// Whether `a` and `b` have the same lengths.
pub open spec fn same_size(a: Rect, b: Rect) -> bool {
    a.len1 == b.len1 && a.len2 == b.len2
}

/// From each block to every later one the first length grows and the second
/// shrinks.
pub open spec fn is_staircase(blocks: Seq<Rect>) -> bool {
    forall|i: int, j: int|
        0 <= i < j < blocks.len() ==> (#[trigger] blocks[i]).len1 < (#[trigger] blocks[j]).len1
            && blocks[i].len2 > blocks[j].len2
}

/// Whether `b` is in `blocks`, before any other block of its size.
#[verifier::opaque]
pub open spec fn first_of_size(blocks: Seq<Rect>, b: Rect) -> bool {
    exists|i: int|
        0 <= i < blocks.len() && #[trigger] blocks[i] == b && forall|j: int|
            0 <= j < i ==> !same_size(#[trigger] blocks[j], b)
}

/// Whether some block of `blocks` contains `b`.
#[verifier::opaque]
pub open spec fn covered(blocks: Seq<Rect>, b: Rect) -> bool {
    exists|k: int| 0 <= k < blocks.len() && contains(#[trigger] blocks[k], b)
}

/// `r` is the normal form of `blocks`: the blocks that are neither empty nor
/// contained in a larger one, once each, as a staircase.
pub open spec fn is_normal_form(r: Seq<Rect>, blocks: Seq<Rect>) -> bool {
    &&& is_staircase(r)
    &&& forall|k: int| 0 <= k < r.len() ==> !is_empty(#[trigger] r[k])
    &&& forall|k: int| 0 <= k < r.len() ==> first_of_size(blocks, #[trigger] r[k])
    &&& forall|i: int|
        0 <= i < blocks.len() && !is_empty(#[trigger] blocks[i]) ==> covered(r, blocks[i])
}

/// The normal form of `blocks`.
pub open spec fn normal_form(blocks: Seq<Rect>) -> Seq<Rect> {
    choose|r: Seq<Rect>| is_normal_form(r, blocks)
}

pub(crate) proof fn lemma_first_index(blocks: Seq<Rect>, b: Rect) -> (i: int)
    requires
        first_of_size(blocks, b),
    ensures
        0 <= i < blocks.len(),
        blocks[i] == b,
        forall|j: int| 0 <= j < i ==> !same_size(#[trigger] blocks[j], b),
{
    reveal(first_of_size);
    choose|i: int|
        0 <= i < blocks.len() && #[trigger] blocks[i] == b && forall|j: int|
            0 <= j < i ==> !same_size(#[trigger] blocks[j], b)
}

proof fn lemma_first(blocks: Seq<Rect>, i: int)
    requires
        0 <= i < blocks.len(),
        forall|j: int| 0 <= j < i ==> !same_size(#[trigger] blocks[j], blocks[i]),
    ensures
        first_of_size(blocks, blocks[i]),
{
    reveal(first_of_size);
}

pub(crate) proof fn lemma_cover_index(blocks: Seq<Rect>, b: Rect) -> (k: int)
    requires
        covered(blocks, b),
    ensures
        0 <= k < blocks.len(),
        contains(blocks[k], b),
{
    reveal(covered);
    choose|k: int| 0 <= k < blocks.len() && contains(#[trigger] blocks[k], b)
}

proof fn lemma_cover(blocks: Seq<Rect>, k: int, b: Rect)
    requires
        0 <= k < blocks.len(),
        contains(blocks[k], b),
    ensures
        covered(blocks, b),
{
    reveal(covered);
}

proof fn lemma_normal_forms_share(a: Seq<Rect>, b: Seq<Rect>, blocks: Seq<Rect>, k: int) -> (m: int)
    requires
        is_normal_form(a, blocks),
        is_normal_form(b, blocks),
        0 <= k < a.len(),
    ensures
        0 <= m < b.len(),
        b[m] == a[k],
{
    let i = lemma_first_index(blocks, a[k]);
    let m = lemma_cover_index(b, blocks[i]);
    let j = lemma_first_index(blocks, b[m]);
    let n = lemma_cover_index(a, blocks[j]);
    assert(n == k) by {
        if n < k {
            assert(a[n].len1 < a[k].len1);
        }
        if k < n {
            assert(a[k].len2 > a[n].len2);
        }
    }
    assert(same_size(a[k], b[m]));
    if i < j {
        assert(same_size(blocks[i], b[m]));
    }
    if j < i {
        assert(same_size(blocks[j], a[k]));
    }
    m
}

/// A list of blocks has one normal form only.
pub proof fn law_normal_form_is_unique(a: Seq<Rect>, b: Seq<Rect>, blocks: Seq<Rect>)
    requires
        is_normal_form(a, blocks),
        is_normal_form(b, blocks),
    ensures
        a == b,
{
    lemma_normal_forms_agree(a, b, blocks, a.len());
    lemma_normal_forms_agree(b, a, blocks, b.len());
    assert(a =~= b);
}

proof fn lemma_normal_forms_agree(a: Seq<Rect>, b: Seq<Rect>, blocks: Seq<Rect>, n: nat)
    requires
        is_normal_form(a, blocks),
        is_normal_form(b, blocks),
        n <= a.len(),
    ensures
        n <= b.len(),
        forall|k: int| 0 <= k < n ==> a[k] == b[k],
    decreases n,
{
    if n > 0 {
        lemma_normal_forms_agree(a, b, blocks, (n - 1) as nat);
        let k = n - 1;
        let m = lemma_normal_forms_share(a, b, blocks, k);
        if m < k {
            assert(a[m] == b[m] && a[m].len1 < a[k].len1);
        }
        let l = lemma_normal_forms_share(b, a, blocks, k);
        if l < k {
            assert(b[l] == a[l] && b[l].len1 < b[k].len1);
        }
        if m > k {
            assert(b[k].len1 < b[m].len1);
            if l > k {
                assert(a[k].len1 < a[l].len1);
            }
        }
    }
}

/// A normal form stays one where a block is added that is empty or contained in
/// another.
proof fn lemma_keep(ret: Seq<Rect>, b: Rect, done: Seq<Rect>)
    requires
        is_normal_form(ret, done),
        is_empty(b) || covered(ret, b),
    ensures
        is_normal_form(ret, done.push(b)),
{
    let all = done.push(b);
    assert forall|k: int| 0 <= k < ret.len() implies first_of_size(all, #[trigger] ret[k]) by {
        lemma_first_stays(done, b, ret[k]);
    }
    assert forall|i: int| 0 <= i < all.len() && !is_empty(#[trigger] all[i]) implies covered(
        ret,
        all[i],
    ) by {
        if i < done.len() {
            assert(all[i] == done[i]);
        }
    }
}

proof fn lemma_first_stays(done: Seq<Rect>, b: Rect, x: Rect)
    requires
        first_of_size(done, x),
    ensures
        first_of_size(done.push(b), x),
{
    let all = done.push(b);
    let i = lemma_first_index(done, x);
    assert(all[i] == x);
    assert forall|j: int| 0 <= j < i implies !same_size(#[trigger] all[j], x) by {
        assert(all[j] == done[j]);
    }
    lemma_first(all, i);
}

/// Where `ret[..p]` lies left of `b` and `ret[q..]` right of it, and `b` contains
/// what is between, `b` takes the place of what is between.
proof fn lemma_insert(ret: Seq<Rect>, b: Rect, done: Seq<Rect>, p: int, q: int)
    requires
        is_normal_form(ret, done),
        !is_empty(b),
        0 <= p <= q <= ret.len(),
        forall|j: int| 0 <= j < p ==> (#[trigger] ret[j]).len1 < b.len1 && ret[j].len2 > b.len2,
        forall|j: int| p <= j < q ==> contains(b, #[trigger] ret[j]) && !contains(ret[j], b),
        forall|j: int| q <= j < ret.len() ==> (#[trigger] ret[j]).len1 > b.len1 && ret[j].len2
            < b.len2,
    ensures
        is_normal_form(ret.take(p).push(b) + ret.skip(q), done.push(b)),
{
    let all = done.push(b);
    let s = ret.take(p).push(b) + ret.skip(q);
    assert(forall|j: int| 0 <= j < p ==> s[j] == ret[j]);
    assert(s[p] == b);
    assert(forall|j: int| p < j < s.len() ==> #[trigger] s[j] == ret[j - p - 1 + q]);
    assert(all[done.len() as int] == b);
    assert forall|i: int, j: int| 0 <= i < j < s.len() implies (#[trigger] s[i]).len1 < (
    #[trigger] s[j]).len1 && s[i].len2 > s[j].len2 by {
        if i > p {
            assert(s[i] == ret[i - p - 1 + q]);
        }
        if j > p {
            assert(s[j] == ret[j - p - 1 + q]);
        }
    }
    assert(first_of_size(all, b)) by {
        assert forall|j: int| 0 <= j < done.len() implies !same_size(#[trigger] all[j], b) by {
            assert(all[j] == done[j]);
            if same_size(done[j], b) {
                let l = lemma_cover_index(ret, done[j]);
                assert(contains(ret[l], b));
            }
        }
        lemma_first(all, done.len() as int);
    }
    assert forall|i: int| 0 <= i < s.len() implies first_of_size(all, #[trigger] s[i]) && !is_empty(
        s[i],
    ) by {
        if i < p {
            lemma_first_stays(done, b, ret[i]);
        } else if i > p {
            lemma_first_stays(done, b, ret[i - p - 1 + q]);
        }
    }
    assert forall|i: int| 0 <= i < all.len() && !is_empty(#[trigger] all[i]) implies covered(
        s,
        all[i],
    ) by {
        if i < done.len() {
            assert(all[i] == done[i]);
            let l = lemma_cover_index(ret, done[i]);
            if l < p {
                lemma_cover(s, l, all[i]);
            } else if l < q {
                lemma_cover(s, p, all[i]);
            } else {
                assert(s[l - q + p + 1] == ret[l]);
                lemma_cover(s, l - q + p + 1, all[i]);
            }
        } else {
            lemma_cover(s, p, b);
        }
    }
}

proof fn lemma_left_of(ret: Seq<Rect>, b: Rect, from: int) -> (p: int)
    requires
        0 <= from <= ret.len(),
        forall|j: int| 0 <= j < from ==> (#[trigger] ret[j]).len1 < b.len1 && ret[j].len2 > b.len2,
    ensures
        0 <= p <= ret.len(),
        forall|j: int| 0 <= j < p ==> (#[trigger] ret[j]).len1 < b.len1 && ret[j].len2 > b.len2,
        p < ret.len() ==> !(ret[p].len1 < b.len1 && ret[p].len2 > b.len2),
    decreases ret.len() - from,
{
    if from < ret.len() && ret[from].len1 < b.len1 && ret[from].len2 > b.len2 {
        lemma_left_of(ret, b, from + 1)
    } else {
        from
    }
}

proof fn lemma_inside(ret: Seq<Rect>, b: Rect, p: int, from: int) -> (q: int)
    requires
        0 <= p <= from <= ret.len(),
        forall|j: int| p <= j < from ==> contains(b, #[trigger] ret[j]),
    ensures
        p <= q <= ret.len(),
        forall|j: int| p <= j < q ==> contains(b, #[trigger] ret[j]),
        q < ret.len() ==> !contains(b, ret[q]),
    decreases ret.len() - from,
{
    if from < ret.len() && contains(b, ret[from]) {
        lemma_inside(ret, b, p, from + 1)
    } else {
        from
    }
}

/// Every list of blocks has a normal form.
pub proof fn law_normal_form_exists(blocks: Seq<Rect>)
    ensures
        is_normal_form(normal_form(blocks), blocks),
    decreases blocks.len(),
{
    if blocks.len() == 0 {
        assert(is_normal_form(Seq::<Rect>::empty(), blocks));
    } else {
        let done = blocks.drop_last();
        let b = blocks.last();
        law_normal_form_exists(done);
        let ret = normal_form(done);
        assert(done.push(b) =~= blocks);
        if is_empty(b) || covered(ret, b) {
            lemma_keep(ret, b, done);
        } else {
            assert forall|j: int| 0 <= j < ret.len() implies !contains(#[trigger] ret[j], b) by {
                if contains(ret[j], b) {
                    lemma_cover(ret, j, b);
                }
            }
            let p = lemma_left_of(ret, b, 0);
            let q = lemma_inside(ret, b, p, p);
            assert forall|j: int| q <= j < ret.len() implies (#[trigger] ret[j]).len1 > b.len1
                && ret[j].len2 < b.len2 by {
                assert(!contains(ret[p], b) && !contains(ret[q], b) && !contains(ret[j], b));
                assert(j > q ==> ret[q].len1 < ret[j].len1);
                assert(q > p ==> ret[p].len2 > ret[q].len2);
                assert(j > p ==> ret[p].len2 > ret[j].len2);
            }
            lemma_insert(ret, b, done, p, q);
        }
    }
}

/// Adds `b` to a staircase: nothing changes if a block contains it, and the
/// blocks that it contains give way to it.
fn add_block(ret: &Vec<Rect>, b: Rect, Ghost(done): Ghost<Seq<Rect>>) -> (r: Vec<Rect>)
    requires
        is_normal_form(ret@, done),
    ensures
        is_normal_form(r@, done.push(b)),
{
    let mut r: Vec<Rect> = Vec::new();
    let mut k: usize = 0;
    while k < ret.len() && ret[k].len1 < b.len1 && ret[k].len2 > b.len2
        invariant
            k <= ret.len(),
            r@ == ret@.take(k as int),
            forall|j: int|
                0 <= j < k ==> (#[trigger] ret@[j]).len1 < b.len1 && ret@[j].len2 > b.len2,
        decreases ret.len() - k,
    {
        r.push(ret[k]);
        k += 1;
        assert(r@ =~= ret@.take(k as int));
    }
    let keep = b.len1 == 0 || b.len2 == 0 || (k < ret.len() && ret[k].len1 >= b.len1
        && ret[k].len2 >= b.len2);
    let ghost p = k as int;
    if !keep {
        r.push(b);
        while k < ret.len() && ret[k].len1 <= b.len1
            invariant
                p <= k <= ret.len(),
                is_staircase(ret@),
                0 <= p,
                p < ret.len() ==> ret@[p].len2 <= b.len2 && !contains(ret@[p], b),
                forall|j: int|
                    p <= j < k ==> contains(b, #[trigger] ret@[j]) && !contains(ret@[j], b),
            decreases ret.len() - k,
        {
            assert(k > p ==> ret@[p].len2 > ret@[k as int].len2);
            k += 1;
        }
    }
    let ghost q = k as int;
    let ghost head = r@;
    while k < ret.len()
        invariant
            0 <= q <= k <= ret.len(),
            r@ == head + ret@.subrange(q, k as int),
        decreases ret.len() - k,
    {
        r.push(ret[k]);
        k += 1;
        assert(r@ =~= head + ret@.subrange(q, k as int));
    }
    proof {
        if keep {
            if !is_empty(b) {
                lemma_cover(ret@, p, b);
            }
            lemma_keep(ret@, b, done);
            assert(r@ =~= ret@);
        } else {
            assert forall|j: int| q <= j < ret@.len() implies (#[trigger] ret@[j]).len1 > b.len1
                && ret@[j].len2 < b.len2 by {
                assert(j > q ==> ret@[q].len1 < ret@[j].len1);
                assert(j > p ==> ret@[p].len2 > ret@[j].len2);
            }
            lemma_insert(ret@, b, done, p, q);
            assert(r@ =~= ret@.take(p).push(b) + ret@.skip(q));
        }
    }
    r
}

/// Brings `blocks` into normal form: drops the empty ones and those that are
/// contained in another, and sorts the rest by their first length.
pub fn normalized_blocks(blocks: Vec<Rect>) -> (r: Vec<Rect>)
    ensures
        is_normal_form(r@, blocks@),
        r@ == normal_form(blocks@),
{
    let mut ret: Vec<Rect> = Vec::new();
    let mut i: usize = 0;
    while i < blocks.len()
        invariant
            i <= blocks.len(),
            is_normal_form(ret@, blocks@.take(i as int)),
        decreases blocks.len() - i,
    {
        let ghost done = blocks@.take(i as int);
        ret = add_block(&ret, blocks[i], Ghost(done));
        i += 1;
        assert(blocks@.take(i as int) =~= done.push(blocks@[i - 1]));
    }
    assert(blocks@.take(i as int) =~= blocks@);
    proof {
        law_normal_form_is_unique(ret@, normal_form(blocks@), blocks@);
    }
    ret
}

// ---------------------------------------------------------------------
// Taking a failed merge out of a frontier
// ---------------------------------------------------------------------

/// Whether the local cell `(i1, i2)` lies inside `b`.
pub open spec fn holds(b: Rect, i1: int, i2: int) -> bool {
    0 <= i1 < b.len1 && 0 <= i2 < b.len2
}

/// What is left of `b` when the merge `(i1, i2)` cannot be made: the part before
/// it along each axis, where that reaches beyond the edge. A block that does not
/// hold the merge stays as it is.
pub open spec fn shrunk(b: Rect, i1: int, i2: int) -> Seq<Rect> {
    if holds(b, i1, i2) {
        (if i1 > 1 {
            seq![b.part(0, i1, 0, b.len2 as int)]
        } else {
            Seq::empty()
        }) + (if i2 > 1 {
            seq![b.part(0, b.len1 as int, 0, i2)]
        } else {
            Seq::empty()
        })
    } else {
        seq![b]
    }
}

/// What is left of all blocks when the merge `(i1, i2)` cannot be made.
pub open spec fn all_shrunk(blocks: Seq<Rect>, i1: int, i2: int) -> Seq<Rect>
    decreases blocks.len(),
{
    if blocks.len() == 0 {
        Seq::empty()
    } else {
        all_shrunk(blocks.drop_last(), i1, i2) + shrunk(blocks.last(), i1, i2)
    }
}

/// Whether some block holds the merge `(i1, i2)`.
pub open spec fn any_holds(blocks: Seq<Rect>, i1: int, i2: int) -> bool {
    exists|k: int| 0 <= k < blocks.len() && holds(#[trigger] blocks[k], i1, i2)
}

/// The frontier without the merge `(i1, i2)`.
pub open spec fn without_failure(blocks: Seq<Rect>, i1: int, i2: int) -> Seq<Rect> {
    if any_holds(blocks, i1, i2) {
        normal_form(all_shrunk(blocks, i1, i2))
    } else {
        blocks
    }
}

/// Takes the merge `(i1, i2)`, which cannot be made, out of the blocks that hold
/// it.
pub fn remove_failure(blocks: &[Rect], i1: usize, i2: usize) -> (r: Vec<Rect>)
    ensures
        r@ == without_failure(blocks@, i1 as int, i2 as int),
        any_holds(blocks@, i1 as int, i2 as int) ==> is_normal_form(
            r@,
            all_shrunk(blocks@, i1 as int, i2 as int),
        ),
{
    let mut newblocks: Vec<Rect> = Vec::new();
    let mut same: Vec<Rect> = Vec::new();
    let mut hit = false;
    let mut k: usize = 0;
    let ghost all = blocks@;
    while k < blocks.len()
        invariant
            all == blocks@,
            k <= blocks.len(),
            newblocks@ == all_shrunk(all.take(k as int), i1 as int, i2 as int),
            same@ == all.take(k as int),
            hit <==> any_holds(all.take(k as int), i1 as int, i2 as int),
        decreases blocks.len() - k,
    {
        let block = blocks[k];
        let ghost before = newblocks@;
        let ghost part = all.take(k as int);
        if i1 < block.len1 && i2 < block.len2 {
            if i1 > 1 {
                newblocks.push(block.sub(0, i1, 0, block.len2));
            }
            if i2 > 1 {
                newblocks.push(block.sub(0, block.len1, 0, i2));
            }
            hit = true;
        } else {
            newblocks.push(block);
        }
        same.push(block);
        k += 1;
        proof {
            let more = all.take(k as int);
            assert(more.drop_last() =~= part);
            assert(newblocks@ =~= before + shrunk(block, i1 as int, i2 as int));
            assert(same@ =~= more);
            if any_holds(part, i1 as int, i2 as int) {
                let m = choose|m: int|
                    0 <= m < part.len() && holds(#[trigger] part[m], i1 as int, i2 as int);
                assert(holds(more[m], i1 as int, i2 as int));
            }
            if holds(block, i1 as int, i2 as int) {
                assert(holds(more[k - 1], i1 as int, i2 as int));
            } else if any_holds(more, i1 as int, i2 as int) {
                let m = choose|m: int|
                    0 <= m < more.len() && holds(#[trigger] more[m], i1 as int, i2 as int);
                assert(m < k - 1);
                assert(holds(part[m], i1 as int, i2 as int));
            }
        }
    }
    assert(all.take(k as int) =~= all);
    if hit {
        normalized_blocks(newblocks)
    } else {
        same
    }
}

proof fn lemma_shrunk_misses(blocks: Seq<Rect>, i1: int, i2: int, k: int)
    requires
        0 <= i1,
        0 <= i2,
        0 <= k < all_shrunk(blocks, i1, i2).len(),
    ensures
        !holds(all_shrunk(blocks, i1, i2)[k], i1, i2),
    decreases blocks.len(),
{
    if blocks.len() > 0 {
        let head = all_shrunk(blocks.drop_last(), i1, i2);
        if k < head.len() {
            lemma_shrunk_misses(blocks.drop_last(), i1, i2, k);
        }
    }
}

/// After a failed merge has been taken out of a frontier, no block holds it.
pub proof fn law_failure_is_gone(blocks: Seq<Rect>, i1: int, i2: int)
    requires
        0 <= i1,
        0 <= i2,
    ensures
        !any_holds(without_failure(blocks, i1, i2), i1, i2),
{
    if any_holds(blocks, i1, i2) {
        let parts = all_shrunk(blocks, i1, i2);
        law_normal_form_exists(parts);
        let r = normal_form(parts);
        assert forall|k: int| 0 <= k < r.len() implies !holds(#[trigger] r[k], i1, i2) by {
            let i = lemma_first_index(parts, r[k]);
            lemma_shrunk_misses(blocks, i1, i2, i);
        }
    }
}

// ---------------------------------------------------------------------
// Splitting a frontier
// ---------------------------------------------------------------------

/// Whether `b` lies left of `target`: shorter along the first axis and longer
/// along the second.
pub open spec fn is_left(b: Rect, target: Rect) -> bool {
    b.len1 < target.len1 && b.len2 > target.len2
}

/// Whether `b` lies right of `target`.
pub open spec fn is_right(b: Rect, target: Rect) -> bool {
    b.len1 > target.len1 && b.len2 < target.len2
}

/// The part of `b` below `target`, with the edge of `target`.
pub open spec fn below(b: Rect, target: Rect) -> Rect {
    b.part(0, b.len1 as int, target.len2 - 1, b.len2 - (target.len2 - 1))
}

/// The part of `b` to the right of `target`, with the edge of `target`.
pub open spec fn beside(b: Rect, target: Rect) -> Rect {
    b.part(target.len1 - 1, b.len1 - (target.len1 - 1), 0, b.len2 as int)
}

/// The parts below `target` of the blocks left of it.
pub open spec fn left_parts(blocks: Seq<Rect>, target: Rect) -> Seq<Rect>
    decreases blocks.len(),
{
    if blocks.len() == 0 {
        Seq::empty()
    } else {
        let rest = left_parts(blocks.drop_last(), target);
        if is_left(blocks.last(), target) {
            rest.push(below(blocks.last(), target))
        } else {
            rest
        }
    }
}

/// The parts beside `target` of the blocks right of it.
pub open spec fn right_parts(blocks: Seq<Rect>, target: Rect) -> Seq<Rect>
    decreases blocks.len(),
{
    if blocks.len() == 0 {
        Seq::empty()
    } else {
        let rest = right_parts(blocks.drop_last(), target);
        if is_right(blocks.last(), target) {
            rest.push(beside(blocks.last(), target))
        } else {
            rest
        }
    }
}

/// Whether every block is as large as `target`, left of it or right of it.
pub open spec fn splits(blocks: Seq<Rect>, target: Rect) -> bool {
    forall|k: int|
        0 <= k < blocks.len() ==> same_size(#[trigger] blocks[k], target) || is_left(
            blocks[k],
            target,
        ) || is_right(blocks[k], target)
}

/// The frontiers on both sides of `target` inside `top`.
pub open spec fn both_sides(top: Rect, blocks: Seq<Rect>, target: Rect) -> Seq<(Rect, Seq<Rect>)> {
    (if target.len2 < top.len2 {
        seq![
            (
                top.part(0, target.len1 as int, target.len2 - 1, top.len2 - (target.len2 - 1)),
                normal_form(left_parts(blocks, target)),
            ),
        ]
    } else {
        Seq::empty()
    }) + (if target.len1 < top.len1 {
        seq![
            (
                top.part(target.len1 - 1, top.len1 - (target.len1 - 1), 0, target.len2 as int),
                normal_form(right_parts(blocks, target)),
            ),
        ]
    } else {
        Seq::empty()
    })
}

/// Splits the frontier `blocks` over `top` at the block `target`, whose outline
/// is known: at most two frontiers, the one below and the one beside it.
pub fn partition(top: Rect, blocks: &[Rect], target: Rect) -> (r: Result<
    Vec<(Rect, Vec<Rect>)>,
    ImergeError,
>)
    requires
        target.len1 >= 1,
        target.len2 >= 1,
        top.fits(),
        forall|k: int| 0 <= k < blocks@.len() ==> (#[trigger] blocks@[k]).fits(),
    ensures
        res(r) == (if splits(blocks@, target) {
            Ok(both_sides(top, blocks@, target))
        } else {
            Err(
                ErrorView::Failure(
                    "BlockwiseMergeFrontier partitioned with inappropriate block"@,
                ),
            )
        }),
{
    let mut left: Vec<Rect> = Vec::new();
    let mut right: Vec<Rect> = Vec::new();
    let mut k: usize = 0;
    let ghost all = blocks@;
    while k < blocks.len()
        invariant
            all == blocks@,
            k <= blocks.len(),
            target.len1 >= 1,
            target.len2 >= 1,
            forall|k: int| 0 <= k < all.len() ==> (#[trigger] all[k]).fits(),
            left@ == left_parts(all.take(k as int), target),
            right@ == right_parts(all.take(k as int), target),
            splits(all.take(k as int), target),
        decreases blocks.len() - k,
    {
        let b = blocks[k];
        assert(all.take(k + 1).drop_last() =~= all.take(k as int));
        assert(all.take(k + 1).last() == b);
        if b.len1 == target.len1 && b.len2 == target.len2 {
        } else if b.len1 < target.len1 && b.len2 > target.len2 {
            left.push(b.sub(0, b.len1, target.len2 - 1, b.len2 - (target.len2 - 1)));
        } else if b.len1 > target.len1 && b.len2 < target.len2 {
            right.push(b.sub(target.len1 - 1, b.len1 - (target.len1 - 1), 0, b.len2));
        } else {
            assert(!splits(all, target)) by {
                assert(all[k as int] == b);
            }
            return Err(
                ImergeError::Failure(
                    "BlockwiseMergeFrontier partitioned with inappropriate block".to_owned(),
                ),
            );
        }
        assert forall|m: int| 0 <= m < k + 1 implies same_size(
            #[trigger] all.take(k + 1)[m],
            target,
        ) || is_left(all.take(k + 1)[m], target) || is_right(all.take(k + 1)[m], target) by {
            if m < k {
                assert(all.take(k as int)[m] == all.take(k + 1)[m]);
            }
        }
        k += 1;
    }
    assert(all.take(k as int) =~= all);
    let mut result: Vec<(Rect, Vec<Rect>)> = Vec::new();
    if target.len2 < top.len2 {
        let new_top = top.sub(
            0,
            target.len1,
            target.len2 - 1,
            top.len2 - (target.len2 - 1),
        );
        result.push((new_top, normalized_blocks(left)));
    }
    if target.len1 < top.len1 {
        let new_top = top.sub(
            target.len1 - 1,
            top.len1 - (target.len1 - 1),
            0,
            target.len2,
        );
        result.push((new_top, normalized_blocks(right)));
    }
    assert(result.deep_view() =~= both_sides(top, all, target)) by {
        assert forall|m: int| 0 <= m < result@.len() implies result@[m].1.deep_view()
            =~= #[trigger] result@[m].1@ by {}
    }
    Ok(result)
}

// ---------------------------------------------------------------------
// What lies beyond a frontier
// ---------------------------------------------------------------------

/// `blocks` is a frontier over `top`: a staircase of nonempty blocks inside it.
pub open spec fn is_frontier(top: Rect, blocks: Seq<Rect>) -> bool {
    &&& top.len1 >= 1
    &&& top.len2 >= 1
    &&& top.fits()
    &&& is_staircase(blocks)
    &&& forall|k: int|
        0 <= k < blocks.len() ==> !is_empty(#[trigger] blocks[k]) && contains(top, blocks[k])
}

/// The blocks of a frontier, with the edges of `top` before and after them where
/// they do not reach so far.
pub open spec fn boundary(top: Rect, blocks: Seq<Rect>) -> Seq<Rect> {
    (if blocks.len() == 0 || blocks[0].len2 < top.len2 {
        seq![top.part(0, 1, 0, top.len2 as int)]
    } else {
        Seq::empty()
    }) + blocks + (if blocks.len() == 0 || blocks.last().len1 < top.len1 {
        seq![top.part(0, top.len1 as int, 0, 1)]
    } else {
        Seq::empty()
    })
}

/// The region between two neighbours on the boundary: it starts at the corner
/// between them.
pub open spec fn gap(top: Rect, b1: Rect, b2: Rect) -> Rect {
    top.part(b1.len1 - 1, b2.len1 - (b1.len1 - 1), b2.len2 - 1, b1.len2 - (b2.len2 - 1))
}

/// The regions beyond the frontier, each behind one of its inner corners.
pub open spec fn blockers(top: Rect, blocks: Seq<Rect>) -> Seq<Rect> {
    let edge = boundary(top, blocks);
    Seq::new((edge.len() - 1) as nat, |k: int| gap(top, edge[k], edge[k + 1]))
}

fn iter_boundary_blocks(top: Rect, blocks: &[Rect]) -> (r: Vec<Rect>)
    requires
        is_frontier(top, blocks@),
    ensures
        r@ == boundary(top, blocks@),
{
    let mut r: Vec<Rect> = Vec::new();
    let n: usize = blocks.len();
    if n == 0 || blocks[0].len2 < top.len2 {
        r.push(top.sub(0, 1, 0, top.len2));
    }
    let ghost head = r@;
    let mut k: usize = 0;
    while k < n
        invariant
            k <= n,
            n == blocks@.len(),
            r@ == head + blocks@.take(k as int),
        decreases n - k,
    {
        r.push(blocks[k]);
        k += 1;
        assert(r@ =~= head + blocks@.take(k as int));
    }
    if n == 0 || blocks[n - 1].len1 < top.len1 {
        r.push(top.sub(0, top.len1, 0, 1));
    }
    assert(r@ =~= boundary(top, blocks@));
    r
}

/// What holds of two neighbours on the boundary.
pub open spec fn are_neighbours(top: Rect, b1: Rect, b2: Rect) -> bool {
    1 <= b1.len1 <= b2.len1 <= top.len1 && 1 <= b2.len2 <= b1.len2 <= top.len2
}

pub(crate) proof fn lemma_boundary(top: Rect, blocks: Seq<Rect>, k: int)
    requires
        is_frontier(top, blocks),
        0 <= k,
        k + 1 < boundary(top, blocks).len(),
    ensures
        are_neighbours(top, boundary(top, blocks)[k], boundary(top, blocks)[k + 1]),
{
    let edge = boundary(top, blocks);
    let first = if blocks.len() == 0 || blocks[0].len2 < top.len2 {
        1int
    } else {
        0int
    };
    assert(forall|m: int| first <= m < first + blocks.len() ==> #[trigger] edge[m] == blocks[m - first]);
}

/// The regions beyond the frontier.
pub fn iter_blocker_blocks(top: Rect, blocks: &[Rect]) -> (r: Vec<Rect>)
    requires
        is_frontier(top, blocks@),
    ensures
        r@ == blockers(top, blocks@),
{
    let edge = iter_boundary_blocks(top, blocks);
    let mut r: Vec<Rect> = Vec::new();
    let mut k: usize = 0;
    proof {
        assert forall|m: int| 0 <= m < edge@.len() - 1 implies #[trigger] are_neighbours(
            top,
            edge@[m],
            edge@[m + 1],
        ) by {
            lemma_boundary(top, blocks@, m);
        }
    }
    while k + 1 < edge.len()
        invariant
            top.fits(),
            k < edge.len(),
            r.len() == k,
            forall|m: int| 0 <= m < edge@.len() - 1 ==> #[trigger] are_neighbours(
                top,
                edge@[m],
                edge@[m + 1],
            ),
            forall|m: int| 0 <= m < k ==> #[trigger] r[m] == gap(top, edge@[m], edge@[m + 1]),
        decreases edge.len() - k,
    {
        let b1 = edge[k];
        let b2 = edge[k + 1];
        assert(are_neighbours(top, edge@[k as int], edge@[k + 1]));
        r.push(
            top.sub(
                b1.len1 - 1,
                b2.len1 - (b1.len1 - 1),
                b2.len2 - 1,
                b1.len2 - (b2.len2 - 1),
            ),
        );
        k += 1;
    }
    assert(r@ =~= blockers(top, blocks@));
    r
}

/// Whether the frontier is all of `top`.
pub open spec fn is_whole(top: Rect, blocks: Seq<Rect>) -> bool {
    blocks.len() == 1 && same_size(blocks[0], top)
}

/// Nothing lies beyond a frontier exactly where it is all of its window.
pub proof fn law_no_blockers_iff_whole(top: Rect, blocks: Seq<Rect>)
    requires
        is_frontier(top, blocks),
    ensures
        blockers(top, blocks).len() == 0 <==> is_whole(top, blocks),
        blocks.len() == 0 ==> blockers(top, blocks) == seq![top],
{
    if blocks.len() == 0 {
        assert(blockers(top, blocks) =~= seq![top]);
    } else if blocks.len() >= 2 {
        assert(blocks[0].len1 < blocks[1].len1);
    }
}

/// The first region that holds the cell `(i1, i2)` of the grid, if that cell is
/// its inner corner.
pub open spec fn affected(regions: Seq<Rect>, i1: usize, i2: usize) -> Result<Rect, ErrorView>
    decreases regions.len(),
{
    if regions.len() == 0 {
        Err(
            ErrorView::NotABlockingCommit(
                "Commit "@ + decimal(i1 as nat) + "-"@ + decimal(i2 as nat)
                    + " was not on the frontier."@,
            ),
        )
    } else {
        match regions[0].located(i1 as int, i2 as int) {
            Some((n1, n2)) => if n1 == 1 && n2 == 1 {
                Ok(regions[0])
            } else {
                Err(
                    ErrorView::NotABlockingCommit(
                        "Commit "@ + decimal(i1 as nat) + "-"@ + decimal(i2 as nat)
                            + " was not blocking the frontier."@,
                    ),
                )
            },
            None => affected(regions.skip(1), i1, i2),
        }
    }
}

pub(crate) fn get_affected_blocker_block(top: Rect, blocks: &[Rect], i1: usize, i2: usize) -> (r: Result<
    Rect,
    ImergeError,
>)
    requires
        is_frontier(top, blocks@),
    ensures
        res(r) == affected(blockers(top, blocks@), i1, i2),
{
    let regions = iter_blocker_blocks(top, blocks);
    let mut k: usize = 0;
    assert(regions@.skip(0) =~= regions@);
    while k < regions.len()
        invariant
            is_frontier(top, blocks@),
            regions@ == blockers(top, blocks@),
            k <= regions.len(),
            affected(regions@.skip(k as int), i1, i2) == affected(regions@, i1, i2),
        decreases regions.len() - k,
    {
        let block = regions[k];
        proof {
            lemma_boundary(top, blocks@, k as int);
            assert(regions@.skip(k as int).skip(1) =~= regions@.skip(k + 1));
            assert(regions@.skip(k as int)[0] == block);
        }
        match block.to_local(i1, i2) {
            Some((n1, n2)) => {
                if n1 == 1 && n2 == 1 {
                    return Ok(block);
                }
                return Err(
                    ImergeError::NotABlockingCommit(
                        cat5(
                            "Commit ",
                            &number(i1),
                            "-",
                            &number(i2),
                            " was not blocking the frontier.",
                        ),
                    ),
                );
            },
            None => {},
        }
        k += 1;
    }
    Err(
        ImergeError::NotABlockingCommit(
            cat5("Commit ", &number(i1), "-", &number(i2), " was not on the frontier."),
        ),
    )
}

} // verus!
