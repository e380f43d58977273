//! Dependency-tree recovery from the split points of Eisner's algorithm.
//!
//! Eisner's chart fills, for every span `(i, j)`, the best split point of the
//! complete span headed by `i` and reaching `j` (`p_c[i][j]`), and of the
//! incomplete span that holds the arc `i -> j` (`p_i[i][j]`).  Walking these
//! split points from the complete span `(0, n - 1)` writes the head of every
//! word.  This module proves that the walk yields a projective tree rooted at
//! position 0 whenever every split point it visits lies inside its span.
use vstd::prelude::*;

verus! {

/// The smaller end of the span between `a` and `b`.
pub open spec fn lo_of(a: int, b: int) -> int {
    if a <= b {
        a
    } else {
        b
    }
}

/// The larger end of the span between `a` and `b`.
pub open spec fn hi_of(a: int, b: int) -> int {
    if a <= b {
        b
    } else {
        a
    }
}

/// Number of steps from one end of the span between `a` and `b` to the other.
pub open spec fn width(a: int, b: int) -> nat {
    (hi_of(a, b) - lo_of(a, b)) as nat
}

/// `0` for an incomplete span, `1` for a complete one: the second component
/// of the measure that the walk decreases.
pub open spec fn rank(complete: bool) -> int {
    if complete {
        1
    } else {
        0
    }
}

/// A split table with `n` rows of `n` entries.
pub open spec fn square(t: Seq<Vec<usize>>, n: int) -> bool {
    &&& t.len() == n
    &&& forall|k: int| 0 <= k < n ==> (#[trigger] t[k])@.len() == n
}

/// The split point that the chart recorded for span `(i, j)`.
pub open spec fn split_of(p_i: Seq<Vec<usize>>, p_c: Seq<Vec<usize>>, i: int, j: int, complete: bool) -> int {
    if complete {
        p_c[i]@[j] as int
    } else {
        p_i[i]@[j] as int
    }
}

/// The split point `r` of span `(i, j)` lies where the walk needs it: for a
/// complete span strictly past `i` and up to `j`, for an incomplete span in
/// `[lo, hi)`.
pub open spec fn split_in_span(i: int, j: int, complete: bool, r: int) -> bool {
    if complete {
        if i < j {
            i < r <= j
        } else {
            j <= r < i
        }
    } else {
        lo_of(i, j) <= r < hi_of(i, j)
    }
}

/// Every split point that the walk from span `(i, j)` visits lies in its span.
pub open spec fn sound(p_i: Seq<Vec<usize>>, p_c: Seq<Vec<usize>>, i: int, j: int, complete: bool) -> bool
    decreases width(i, j), rank(complete),
{
    if i == j {
        true
    } else {
        let r = split_of(p_i, p_c, i, j, complete);
        if !split_in_span(i, j, complete, r) {
            false
        } else if complete {
            sound(p_i, p_c, i, r, false) && sound(p_i, p_c, r, j, true)
        } else {
            sound(p_i, p_c, lo_of(i, j), r, true) && sound(p_i, p_c, hi_of(i, j), r + 1, true)
        }
    }
}

/// The heads after the walk from span `(i, j)` has written them into `h`.
pub open spec fn assign(
    p_i: Seq<Vec<usize>>,
    p_c: Seq<Vec<usize>>,
    h: Seq<usize>,
    i: int,
    j: int,
    complete: bool,
) -> Seq<usize>
    decreases width(i, j), rank(complete),
{
    if i == j {
        h
    } else {
        let r = split_of(p_i, p_c, i, j, complete);
        if !split_in_span(i, j, complete, r) {
            h
        } else if complete {
            assign(p_i, p_c, assign(p_i, p_c, h, i, r, false), r, j, true)
        } else {
            assign(
                p_i,
                p_c,
                assign(p_i, p_c, h.update(j, i as usize), lo_of(i, j), r, true),
                hi_of(i, j),
                r + 1,
                true,
            )
        }
    }
}

/// Following heads from `k`, staying inside `[lo, hi]`, reaches `root` within
/// `fuel` steps.
pub open spec fn reaches(h: Seq<usize>, lo: int, hi: int, k: int, root: int, fuel: nat) -> bool
    decreases fuel,
{
    k == root || (fuel > 0 && lo <= k <= hi && 0 <= k < h.len() && reaches(
        h,
        lo,
        hi,
        h[k] as int,
        root,
        (fuel - 1) as nat,
    ))
}

/// Inside `[lo, hi]` every position but `root` has a head in the span other
/// than itself, and the chain of heads leads it to `root` inside the span.
pub open spec fn tree_in(h: Seq<usize>, lo: int, hi: int, root: int) -> bool {
    forall|k: int|
        lo <= k <= hi && k != root ==> {
            &&& lo <= #[trigger] h[k] <= hi
            &&& h[k] != k
            &&& reaches(h, lo, hi, k, root, (hi - lo) as nat)
        }
}

/// Every arc inside `[lo, hi]` is projective: each position strictly between
/// a dependent and its head leads to that head inside the span.
pub open spec fn projective_in(h: Seq<usize>, lo: int, hi: int, root: int) -> bool {
    forall|d: int, k: int|
        #![trigger h[d], h[k]]
        lo <= d <= hi && d != root && lo_of(d, h[d] as int) < k < hi_of(d, h[d] as int) ==> reaches(
            h,
            lo,
            hi,
            k,
            h[d] as int,
            (hi - lo) as nat,
        )
}

proof fn lemma_reaches_frame(h1: Seq<usize>, h2: Seq<usize>, lo: int, hi: int, k: int, root: int, f: nat)
    requires
        h1.len() == h2.len(),
        forall|x: int| lo <= x <= hi && 0 <= x < h1.len() ==> h1[x] == h2[x],
    ensures
        reaches(h1, lo, hi, k, root, f) == reaches(h2, lo, hi, k, root, f),
    decreases f,
{
    if k != root && f > 0 && lo <= k <= hi && 0 <= k < h1.len() {
        lemma_reaches_frame(h1, h2, lo, hi, h1[k] as int, root, (f - 1) as nat);
    }
}

proof fn lemma_reaches_widen(h: Seq<usize>, lo: int, hi: int, lo2: int, hi2: int, k: int, root: int, f: nat, f2: nat)
    requires
        reaches(h, lo, hi, k, root, f),
        lo2 <= lo,
        hi <= hi2,
        f <= f2,
    ensures
        reaches(h, lo2, hi2, k, root, f2),
    decreases f,
{
    if k != root {
        lemma_reaches_widen(h, lo, hi, lo2, hi2, h[k] as int, root, (f - 1) as nat, (f2 - 1) as nat);
    }
}

proof fn lemma_reaches_trans(h: Seq<usize>, lo: int, hi: int, k: int, mid: int, root: int, f1: nat, f2: nat)
    requires
        reaches(h, lo, hi, k, mid, f1),
        reaches(h, lo, hi, mid, root, f2),
    ensures
        reaches(h, lo, hi, k, root, f1 + f2),
    decreases f1,
{
    if k == mid {
        lemma_reaches_widen(h, lo, hi, lo, hi, k, root, f2, f1 + f2);
    } else if k != root {
        lemma_reaches_trans(h, lo, hi, h[k] as int, mid, root, (f1 - 1) as nat, f2);
    }
}

/// A position whose head is `t`, inside the span, reaches `t` in one step.
proof fn lemma_reaches_step(h: Seq<usize>, lo: int, hi: int, k: int, t: int, f: nat)
    requires
        lo <= k <= hi,
        0 <= k < h.len(),
        h[k] == t,
        f >= 1,
    ensures
        reaches(h, lo, hi, k, t, f),
{
    assert(reaches(h, lo, hi, t, t, (f - 1) as nat));
}

/// `tree_in` and `projective_in` depend only on the heads inside the span.
proof fn lemma_span_frame(h1: Seq<usize>, h2: Seq<usize>, lo: int, hi: int, root: int)
    requires
        h1.len() == h2.len(),
        0 <= lo,
        hi < h1.len(),
        forall|x: int| lo <= x <= hi ==> h1[x] == h2[x],
        tree_in(h1, lo, hi, root),
        projective_in(h1, lo, hi, root),
    ensures
        tree_in(h2, lo, hi, root),
        projective_in(h2, lo, hi, root),
{
    assert forall|k: int| lo <= k <= hi && k != root implies {
        &&& lo <= #[trigger] h2[k] <= hi
        &&& h2[k] != k
        &&& reaches(h2, lo, hi, k, root, (hi - lo) as nat)
    } by {
        assert(h1[k] == h2[k]);
        lemma_reaches_frame(h1, h2, lo, hi, k, root, (hi - lo) as nat);
    }
    assert forall|d: int, k: int|
        #![trigger h2[d], h2[k]]
        lo <= d <= hi && d != root && lo_of(d, h2[d] as int) < k < hi_of(d, h2[d] as int) implies reaches(
            h2,
            lo,
            hi,
            k,
            h2[d] as int,
            (hi - lo) as nat,
        ) by {
        assert(h1[d] == h2[d]);
        lemma_reaches_frame(h1, h2, lo, hi, k, h1[d] as int, (hi - lo) as nat);
    }
}

/// What the walk from span `(i, j)` does to the heads: it writes only the
/// positions of the span other than `i`, makes the span a projective tree
/// rooted at `i`, and for an incomplete span makes `i` the head of `j`.
pub proof fn lemma_assign(
    p_i: Seq<Vec<usize>>,
    p_c: Seq<Vec<usize>>,
    h: Seq<usize>,
    i: int,
    j: int,
    complete: bool,
)
    requires
        0 <= i < h.len(),
        0 <= j < h.len(),
        h.len() <= usize::MAX,
        sound(p_i, p_c, i, j, complete),
    ensures
        assign(p_i, p_c, h, i, j, complete).len() == h.len(),
        forall|k: int|
            0 <= k < h.len() && !(lo_of(i, j) <= k <= hi_of(i, j) && k != i) ==> #[trigger] assign(
                p_i,
                p_c,
                h,
                i,
                j,
                complete,
            )[k] == h[k],
        tree_in(assign(p_i, p_c, h, i, j, complete), lo_of(i, j), hi_of(i, j), i),
        projective_in(assign(p_i, p_c, h, i, j, complete), lo_of(i, j), hi_of(i, j), i),
        !complete && i != j ==> assign(p_i, p_c, h, i, j, complete)[j] == i,
    decreases width(i, j), rank(complete), 1int,
{
    if i == j {
    } else if complete {
        lemma_assign_complete(p_i, p_c, h, i, j);
    } else {
        lemma_assign_incomplete(p_i, p_c, h, i, j);
    }
}

/// `lemma_assign` for a complete span.
proof fn lemma_assign_complete(p_i: Seq<Vec<usize>>, p_c: Seq<Vec<usize>>, h: Seq<usize>, i: int, j: int)
    requires
        0 <= i < h.len(),
        0 <= j < h.len(),
        h.len() <= usize::MAX,
        i != j,
        sound(p_i, p_c, i, j, true),
    ensures
        assign(p_i, p_c, h, i, j, true).len() == h.len(),
        forall|k: int|
            0 <= k < h.len() && !(lo_of(i, j) <= k <= hi_of(i, j) && k != i) ==> #[trigger] assign(
                p_i,
                p_c,
                h,
                i,
                j,
                true,
            )[k] == h[k],
        tree_in(assign(p_i, p_c, h, i, j, true), lo_of(i, j), hi_of(i, j), i),
        projective_in(assign(p_i, p_c, h, i, j, true), lo_of(i, j), hi_of(i, j), i),
    decreases width(i, j), rank(true), 0int,
{
    let r = split_of(p_i, p_c, i, j, true);
    let lo = lo_of(i, j);
    let hi = hi_of(i, j);
    let w = (hi - lo) as nat;
    // The incomplete span `(i, r)`, then the complete span `(r, j)`.
    let h1 = assign(p_i, p_c, h, i, r, false);
    let h2 = assign(p_i, p_c, h1, r, j, true);
    lemma_assign(p_i, p_c, h, i, r, false);
    lemma_assign(p_i, p_c, h1, r, j, true);
    let lo1 = lo_of(i, r);
    let hi1 = hi_of(i, r);
    let lo2 = lo_of(r, j);
    let hi2 = hi_of(r, j);
    // The second walk leaves the first span untouched.
    assert forall|x: int| lo1 <= x <= hi1 implies h1[x] == h2[x] by {
        assert(h2[x] == h1[x]);
    }
    lemma_span_frame(h1, h2, lo1, hi1, i);
    assert(h2[r] == i) by {
        assert(h2[r] == h1[r]);
    }
    assert forall|k: int| lo <= k <= hi && k != i implies {
        &&& lo <= #[trigger] h2[k] <= hi
        &&& h2[k] != k
        &&& reaches(h2, lo, hi, k, i, w)
    } by {
        if lo2 <= k <= hi2 && k != r {
            assert(lo2 <= h2[k] <= hi2);
            let w2 = (hi2 - lo2) as nat;
            lemma_reaches_widen(h2, lo2, hi2, lo, hi, k, r, w2, w2);
            lemma_reaches_step(h2, lo, hi, r, i, 1);
            lemma_reaches_trans(h2, lo, hi, k, r, i, w2, 1);
            lemma_reaches_widen(h2, lo, hi, lo, hi, k, i, w2 + 1, w);
        } else {
            assert(lo1 <= h2[k] <= hi1);
            lemma_reaches_widen(h2, lo1, hi1, lo, hi, k, i, (hi1 - lo1) as nat, w);
        }
    }
    assert forall|d: int, k: int|
        #![trigger h2[d], h2[k]]
        lo <= d <= hi && d != i && lo_of(d, h2[d] as int) < k < hi_of(d, h2[d] as int) implies reaches(
            h2,
            lo,
            hi,
            k,
            h2[d] as int,
            w,
        ) by {
        if lo2 <= d <= hi2 && d != r {
            lemma_reaches_widen(h2, lo2, hi2, lo, hi, k, h2[d] as int, (hi2 - lo2) as nat, w);
        } else {
            lemma_reaches_widen(h2, lo1, hi1, lo, hi, k, h2[d] as int, (hi1 - lo1) as nat, w);
        }
    }
    assert forall|k: int|
        0 <= k < h.len() && !(lo <= k <= hi && k != i) implies #[trigger] h2[k] == h[k] by {
        assert(h2[k] == h1[k]);
    }
}

/// `lemma_assign` for an incomplete span.
proof fn lemma_assign_incomplete(p_i: Seq<Vec<usize>>, p_c: Seq<Vec<usize>>, h: Seq<usize>, i: int, j: int)
    requires
        0 <= i < h.len(),
        0 <= j < h.len(),
        h.len() <= usize::MAX,
        i != j,
        sound(p_i, p_c, i, j, false),
    ensures
        assign(p_i, p_c, h, i, j, false).len() == h.len(),
        forall|k: int|
            0 <= k < h.len() && !(lo_of(i, j) <= k <= hi_of(i, j) && k != i) ==> #[trigger] assign(
                p_i,
                p_c,
                h,
                i,
                j,
                false,
            )[k] == h[k],
        tree_in(assign(p_i, p_c, h, i, j, false), lo_of(i, j), hi_of(i, j), i),
        projective_in(assign(p_i, p_c, h, i, j, false), lo_of(i, j), hi_of(i, j), i),
        assign(p_i, p_c, h, i, j, false)[j] == i,
    decreases width(i, j), rank(false), 0int,
{
    let r = split_of(p_i, p_c, i, j, false);
    let lo = lo_of(i, j);
    let hi = hi_of(i, j);
    let w = (hi - lo) as nat;
    let h0 = h.update(j, i as usize);
    // The walk over the span on the side of `lo`, then over the side of `hi`.
    let a = lo;
    let b = hi;
    let h1 = assign(p_i, p_c, h0, a, r, true);
    let h2 = assign(p_i, p_c, h1, b, r + 1, true);
    lemma_assign(p_i, p_c, h0, a, r, true);
    lemma_assign(p_i, p_c, h1, b, r + 1, true);
    let w1 = (r - a) as nat;
    let w2 = (b - (r + 1)) as nat;
    assert forall|x: int| a <= x <= r implies h1[x] == h2[x] by {
        assert(h2[x] == h1[x]);
    }
    lemma_span_frame(h1, h2, a, r, a);
    assert(h2[j] == i) by {
        if i < j {
            assert(!(r + 1 <= j <= b && j != b));
            assert(h2[j] == h1[j]);
            assert(!(a <= j <= r));
            assert(h1[j] == h0[j]);
        } else {
            assert(!(r + 1 <= j <= b));
            assert(h2[j] == h1[j]);
            assert(h1[j] == h0[j]);
        }
    }
    // Every position of the span leads to `i`.
    assert forall|k: int| lo <= k <= hi && k != i implies {
        &&& lo <= #[trigger] h2[k] <= hi
        &&& h2[k] != k
        &&& reaches(h2, lo, hi, k, i, w)
    } by {
        if k == j {
            lemma_reaches_step(h2, lo, hi, j, i, w);
        } else if a <= k <= r {
            // `k` leads to `a`, which is `i` itself or `j`, whose head is `i`.
            assert(a <= h2[k] <= r);
            lemma_reaches_widen(h2, a, r, lo, hi, k, a, w1, w1);
            if a == j {
                lemma_reaches_step(h2, lo, hi, j, i, 1);
                lemma_reaches_trans(h2, lo, hi, k, j, i, w1, 1);
                lemma_reaches_widen(h2, lo, hi, lo, hi, k, i, w1 + 1, w);
            } else {
                lemma_reaches_widen(h2, lo, hi, lo, hi, k, i, w1, w);
            }
        } else {
            assert(r + 1 <= h2[k] <= b);
            lemma_reaches_widen(h2, r + 1, b, lo, hi, k, b, w2, w2);
            if b == j {
                lemma_reaches_step(h2, lo, hi, j, i, 1);
                lemma_reaches_trans(h2, lo, hi, k, j, i, w2, 1);
                lemma_reaches_widen(h2, lo, hi, lo, hi, k, i, w2 + 1, w);
            } else {
                lemma_reaches_widen(h2, lo, hi, lo, hi, k, i, w2, w);
            }
        }
    }
    assert forall|d: int, k: int|
        #![trigger h2[d], h2[k]]
        lo <= d <= hi && d != i && lo_of(d, h2[d] as int) < k < hi_of(d, h2[d] as int) implies reaches(
            h2,
            lo,
            hi,
            k,
            h2[d] as int,
            w,
        ) by {
        if d == j {
            assert(lo <= k <= hi && k != i);
        } else if a <= d <= r {
            lemma_reaches_widen(h2, a, r, lo, hi, k, h2[d] as int, w1, w);
        } else {
            lemma_reaches_widen(h2, r + 1, b, lo, hi, k, h2[d] as int, w2, w);
        }
    }
    assert forall|k: int|
        0 <= k < h.len() && !(lo <= k <= hi && k != i) implies #[trigger] h2[k] == h[k] by {
        assert(h2[k] == h1[k]);
        assert(h1[k] == h0[k]);
    }
}

/// Law: walking the split points from the complete span `(0, n - 1)` turns
/// any head vector into a projective dependency tree over positions
/// `0..n` rooted at 0, and leaves the value at the root as it was.
pub proof fn lemma_walk_builds_projective_tree(
    p_i: Seq<Vec<usize>>,
    p_c: Seq<Vec<usize>>,
    h: Seq<usize>,
)
    requires
        1 <= h.len() <= usize::MAX,
        sound(p_i, p_c, 0, h.len() - 1, true),
    ensures
        assign(p_i, p_c, h, 0, h.len() - 1, true).len() == h.len(),
        assign(p_i, p_c, h, 0, h.len() - 1, true)[0] == h[0],
        tree_in(assign(p_i, p_c, h, 0, h.len() - 1, true), 0, h.len() - 1, 0),
        projective_in(assign(p_i, p_c, h, 0, h.len() - 1, true), 0, h.len() - 1, 0),
{
    lemma_assign(p_i, p_c, h, 0, h.len() - 1, true);
}

/// Span `(a, b)` (complete when `c2`) is one that the walk from span
/// `(i, j)` (complete when `c`) visits: the walk cuts a complete span at
/// `p_c[i][j]` into an incomplete and a complete one, and an incomplete span
/// at `p_i[i][j]` into two complete ones, for as long as the split points lie
/// in their spans.
pub open spec fn visits(
    p_i: Seq<Vec<usize>>,
    p_c: Seq<Vec<usize>>,
    i: int,
    j: int,
    c: bool,
    a: int,
    b: int,
    c2: bool,
) -> bool
    decreases width(i, j), rank(c),
{
    if i == a && j == b && c == c2 {
        true
    } else if i == j {
        false
    } else if c {
        let r = p_c[i]@[j] as int;
        &&& (if i < j {
            i < r <= j
        } else {
            j <= r < i
        })
        &&& (visits(p_i, p_c, i, r, false, a, b, c2) || visits(p_i, p_c, r, j, true, a, b, c2))
    } else {
        let r = p_i[i]@[j] as int;
        &&& lo_of(i, j) <= r < hi_of(i, j)
        &&& (visits(p_i, p_c, lo_of(i, j), r, true, a, b, c2) || visits(
            p_i,
            p_c,
            hi_of(i, j),
            r + 1,
            true,
            a,
            b,
            c2,
        ))
    }
}

/// The position to which span `(a, b)` gives the head `a`: the split point
/// `p_c[a][b]` of a complete span, the end `b` of an incomplete one.
pub open spec fn headed_by_span(p_c: Seq<Vec<usize>>, a: int, b: int, c2: bool) -> int {
    if c2 {
        p_c[a]@[b] as int
    } else {
        b
    }
}

/// The walk from span `(i, j)` gives every span it visits its head.
proof fn lemma_visits_heads(
    p_i: Seq<Vec<usize>>,
    p_c: Seq<Vec<usize>>,
    h: Seq<usize>,
    i: int,
    j: int,
    c: bool,
    a: int,
    b: int,
    c2: bool,
)
    requires
        0 <= i < h.len(),
        0 <= j < h.len(),
        h.len() <= usize::MAX,
        sound(p_i, p_c, i, j, c),
        visits(p_i, p_c, i, j, c, a, b, c2),
        a != b,
    ensures
        lo_of(i, j) <= headed_by_span(p_c, a, b, c2) <= hi_of(i, j),
        assign(p_i, p_c, h, i, j, c)[headed_by_span(p_c, a, b, c2)] == a,
    decreases width(i, j), rank(c),
{
    lemma_assign(p_i, p_c, h, i, j, c);
    if c {
        let r = p_c[i]@[j] as int;
        assert(split_of(p_i, p_c, i, j, c) == r);
        assert(split_in_span(i, j, true, r));
        assert(sound(p_i, p_c, i, r, false) && sound(p_i, p_c, r, j, true));
        let inner = assign(p_i, p_c, h, i, r, false);
        assert(assign(p_i, p_c, h, i, j, true) == assign(p_i, p_c, inner, r, j, true));
        lemma_assign(p_i, p_c, h, i, r, false);
        lemma_assign(p_i, p_c, inner, r, j, true);
        if i == a && j == b && c2 {
        } else if visits(p_i, p_c, i, r, false, a, b, c2) {
            lemma_visits_heads(p_i, p_c, h, i, r, false, a, b, c2);
        } else {
            lemma_visits_heads(p_i, p_c, inner, r, j, true, a, b, c2);
        }
    } else {
        let r = p_i[i]@[j] as int;
        assert(split_of(p_i, p_c, i, j, c) == r);
        let lo = lo_of(i, j);
        let hi = hi_of(i, j);
        assert(sound(p_i, p_c, lo, r, true) && sound(p_i, p_c, hi, r + 1, true));
        let h0 = h.update(j, i as usize);
        let first = assign(p_i, p_c, h0, lo, r, true);
        assert(assign(p_i, p_c, h, i, j, false) == assign(p_i, p_c, first, hi, r + 1, true));
        lemma_assign(p_i, p_c, h0, lo, r, true);
        lemma_assign(p_i, p_c, first, hi, r + 1, true);
        if i == a && j == b && !c2 {
        } else if visits(p_i, p_c, lo, r, true, a, b, c2) {
            lemma_visits_heads(p_i, p_c, h0, lo, r, true, a, b, c2);
        } else {
            lemma_visits_heads(p_i, p_c, first, hi, r + 1, true, a, b, c2);
        }
    }
}

/// Law: the walk follows the chart.  For every span `(a, b)` that the walk
/// from the complete span `(0, n - 1)` visits, the split point `p_c[a][b]`
/// of a complete span, and the end `b` of an incomplete span, get the head
/// `a`.
pub proof fn lemma_walk_follows_chart(p_i: Seq<Vec<usize>>, p_c: Seq<Vec<usize>>, h: Seq<usize>)
    requires
        1 <= h.len() <= usize::MAX,
        sound(p_i, p_c, 0, h.len() - 1, true),
    ensures
        forall|a: int, b: int, c2: bool|
            #[trigger] visits(p_i, p_c, 0, h.len() - 1, true, a, b, c2) && a != b ==> assign(
                p_i,
                p_c,
                h,
                0,
                h.len() - 1,
                true,
            )[headed_by_span(p_c, a, b, c2)] == a,
{
    assert forall|a: int, b: int, c2: bool|
        #[trigger] visits(p_i, p_c, 0, h.len() - 1, true, a, b, c2) && a != b implies assign(
            p_i,
            p_c,
            h,
            0,
            h.len() - 1,
            true,
        )[headed_by_span(p_c, a, b, c2)] == a by {
        lemma_visits_heads(p_i, p_c, h, 0, h.len() - 1, true, a, b, c2);
    }
}

/// Law: walking the split points from the complete span `(0, n - 1)`, with
/// `n >= 2`, makes `r = p_c[0][n - 1]` a dependent of the root, and the root
/// has no other dependent exactly when the incomplete span `(0, r)` splits at
/// 0, that is when `p_i[0][r] == 0`.
pub proof fn lemma_single_root_dependent(p_i: Seq<Vec<usize>>, p_c: Seq<Vec<usize>>, h: Seq<usize>)
    requires
        2 <= h.len() <= usize::MAX,
        sound(p_i, p_c, 0, h.len() - 1, true),
    ensures
        ({
            let heads = assign(p_i, p_c, h, 0, h.len() - 1, true);
            let r = p_c[0]@[h.len() - 1] as int;
            &&& 1 <= r < h.len()
            &&& heads[r] == 0
            &&& (forall|k: int| 1 <= k < h.len() && #[trigger] heads[k] == 0 ==> k == r) <==> p_i[0]@[r] == 0
        }),
{
    let n = h.len() as int;
    let r = p_c[0]@[n - 1] as int;
    assert(sound(p_i, p_c, 0, r, false) && sound(p_i, p_c, r, n - 1, true));
    let h1 = assign(p_i, p_c, h, 0, r, false);
    let heads = assign(p_i, p_c, h1, r, n - 1, true);
    assert(assign(p_i, p_c, h, 0, n - 1, true) == heads);
    lemma_assign(p_i, p_c, h, 0, r, false);
    lemma_assign(p_i, p_c, h1, r, n - 1, true);
    let s = p_i[0]@[r] as int;
    assert(0 <= s < r);
    let h0 = h.update(r, 0usize);
    assert(sound(p_i, p_c, 0, s, true) && sound(p_i, p_c, r, s + 1, true));
    let ha = assign(p_i, p_c, h0, 0, s, true);
    assert(h1 == assign(p_i, p_c, ha, r, s + 1, true));
    lemma_assign(p_i, p_c, h0, 0, s, true);
    lemma_assign(p_i, p_c, ha, r, s + 1, true);
    assert(heads[r] == 0);
    if s == 0 {
        assert forall|k: int| 1 <= k < n && #[trigger] heads[k] == 0 implies k == r by {
            if k > r {
                assert(r <= heads[k] <= n - 1);
            } else if k < r {
                assert(heads[k] == h1[k]);
                assert(s + 1 <= h1[k] <= r);
            }
        }
    } else {
        let r2 = p_c[0]@[s] as int;
        assert(0 < r2 <= s);
        assert(sound(p_i, p_c, 0, r2, false) && sound(p_i, p_c, r2, s, true));
        let hb = assign(p_i, p_c, h0, 0, r2, false);
        assert(ha == assign(p_i, p_c, hb, r2, s, true));
        lemma_assign(p_i, p_c, h0, 0, r2, false);
        lemma_assign(p_i, p_c, hb, r2, s, true);
        assert(ha[r2] == 0);
        assert(h1[r2] == 0);
        assert(heads[r2] == 0);
        assert(r2 != r);
    }
}

/// Writes into `heads` the head of every position of span `(i, j)`, following
/// the split points `p_i` (incomplete spans) and `p_c` (complete spans).
pub fn backtrack(
    p_i: &[Vec<usize>],
    p_c: &[Vec<usize>],
    heads: &mut [usize],
    i: usize,
    j: usize,
    complete: bool,
)
    requires
        square(p_i@, old(heads)@.len() as int),
        square(p_c@, old(heads)@.len() as int),
        i < old(heads)@.len(),
        j < old(heads)@.len(),
        sound(p_i@, p_c@, i as int, j as int, complete),
    ensures
        final(heads)@ == assign(p_i@, p_c@, old(heads)@, i as int, j as int, complete),
    decreases width(i as int, j as int), rank(complete),
{
    if i == j {
        return;
    }
    let len = heads.len();
    proof {
        assert(heads@.len() == len);
        lemma_assign(p_i@, p_c@, heads@, i as int, j as int, complete);
    }
    if complete {
        let r = p_c[i][j];
        proof {
            lemma_assign(p_i@, p_c@, heads@, i as int, r as int, false);
        }
        backtrack(p_i, p_c, heads, i, r, false);
        backtrack(p_i, p_c, heads, r, j, true);
    } else {
        let r = p_i[i][j];
        heads[j] = i;
        let (low, high) = if i < j {
            (i, j)
        } else {
            (j, i)
        };
        proof {
            lemma_assign(p_i@, p_c@, heads@, low as int, r as int, true);
        }
        backtrack(p_i, p_c, heads, low, r, true);
        backtrack(p_i, p_c, heads, high, r + 1, true);
    }
}

/// Whether every split point that the walk from span `(i, j)` visits lies in
/// its span.
pub fn splits_sound(p_i: &[Vec<usize>], p_c: &[Vec<usize>], i: usize, j: usize, complete: bool) -> (ok: bool)
    requires
        square(p_i@, p_i@.len() as int),
        square(p_c@, p_i@.len() as int),
        i < p_i@.len(),
        j < p_i@.len(),
    ensures
        ok == sound(p_i@, p_c@, i as int, j as int, complete),
    decreases width(i as int, j as int), rank(complete),
{
    if i == j {
        return true;
    }
    let r = if complete {
        p_c[i][j]
    } else {
        p_i[i][j]
    };
    if complete {
        let in_span = if i < j {
            i < r && r <= j
        } else {
            j <= r && r < i
        };
        if !in_span {
            return false;
        }
        splits_sound(p_i, p_c, i, r, false) && splits_sound(p_i, p_c, r, j, true)
    } else {
        let (low, high) = if i < j {
            (i, j)
        } else {
            (j, i)
        };
        if !(low <= r && r < high) {
            return false;
        }
        splits_sound(p_i, p_c, low, r, true) && splits_sound(p_i, p_c, high, r + 1, true)
    }
}

/// Whether both split tables have `n` rows of `n` entries.
pub fn tables_square(p_i: &[Vec<usize>], p_c: &[Vec<usize>], n: usize) -> (ok: bool)
    ensures
        ok == (square(p_i@, n as int) && square(p_c@, n as int)),
{
    if p_i.len() != n || p_c.len() != n {
        return false;
    }
    let mut k: usize = 0;
    while k < n
        invariant
            k <= n,
            p_i@.len() == n,
            p_c@.len() == n,
            forall|x: int| 0 <= x < k ==> (#[trigger] p_i@[x])@.len() == n,
            forall|x: int| 0 <= x < k ==> (#[trigger] p_c@[x])@.len() == n,
        decreases n - k,
    {
        if p_i[k].len() != n || p_c[k].len() != n {
            assert(!square(p_i@, n as int) || !square(p_c@, n as int)) by {
                assert(p_i@[k as int]@.len() != n || p_c@[k as int]@.len() != n);
            }
            return false;
        }
        k += 1;
    }
    true
}

/// The heads that Eisner's split points give the `n` positions of a sentence
/// (position 0 is the artificial root and keeps the value 1): `None` when the
/// tables are not `n` by `n` or the walk from span `(0, n - 1)` meets a split
/// point outside its span.
pub fn decode_heads(p_i: &[Vec<usize>], p_c: &[Vec<usize>], n: usize) -> (res: Option<Vec<usize>>)
    ensures
        res is Some <==> (n >= 1 && square(p_i@, n as int) && square(p_c@, n as int) && sound(
            p_i@,
            p_c@,
            0,
            n - 1,
            true,
        )),
        res matches Some(heads) ==> {
            &&& heads@ == assign(p_i@, p_c@, Seq::new(n as nat, |k: int| 1usize), 0, n - 1, true)
            &&& heads@.len() == n
            &&& heads@[0] == 1
            &&& tree_in(heads@, 0, n - 1, 0)
            &&& projective_in(heads@, 0, n - 1, 0)
            // The heads follow the chart's split points.
            &&& forall|a: int, b: int, c2: bool|
                #[trigger] visits(p_i@, p_c@, 0, n - 1, true, a, b, c2) && a != b ==> heads@[headed_by_span(
                    p_c@,
                    a,
                    b,
                    c2,
                )] == a
        },
{
    if n == 0 || !tables_square(p_i, p_c, n) {
        return None;
    }
    if !splits_sound(p_i, p_c, 0, n - 1, true) {
        return None;
    }
    let mut heads = vec![1usize; n];
    let ghost start = heads@;
    assert(start =~= Seq::new(n as nat, |k: int| 1usize));
    backtrack(p_i, p_c, heads.as_mut_slice(), 0, n - 1, true);
    proof {
        lemma_walk_builds_projective_tree(p_i@, p_c@, start);
        lemma_walk_follows_chart(p_i@, p_c@, start);
    }
    Some(heads)
}

} // verus!
