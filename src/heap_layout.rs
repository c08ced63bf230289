use vstd::prelude::*;

verus! {

/// Midpoint at which a node's range `[lo, hi]` splits between its children.
pub open spec fn mid(lo: int, hi: int) -> int {
    (lo + hi) / 2
}

/// Node `x` lies in the subtree rooted at node `a` of the implicit heap layout.
pub open spec fn desc(x: int, a: int) -> bool
    decreases x,
{
    if x <= a || x <= 0 {
        x == a
    } else {
        desc((x - 1) / 2, a)
    }
}

/// Every node of the subtree at `x` covering `[lo, hi]` has an index below `len`.
pub open spec fn fits(len: int, x: int, lo: int, hi: int) -> bool
    decreases hi - lo,
{
    &&& 0 <= x < len
    &&& lo < hi ==> {
        &&& fits(len, 2 * x + 1, lo, mid(lo, hi))
        &&& fits(len, 2 * x + 2, mid(lo, hi) + 1, hi)
    }
}

/// A node below `a` has an index at least `a`'s.
pub proof fn lemma_desc_ge(x: int, a: int)
    requires
        desc(x, a),
    ensures
        x >= a,
    decreases x,
{
    if !(x <= a || x <= 0) {
        lemma_desc_ge((x - 1) / 2, a);
    }
}

/// A node below a child is below the parent.
pub proof fn lemma_desc_child(x: int, a: int)
    requires
        a >= 0,
        desc(x, 2 * a + 1) || desc(x, 2 * a + 2),
    ensures
        desc(x, a),
    decreases x,
{
    if x == 2 * a + 1 || x == 2 * a + 2 {
        assert((x - 1) / 2 == a);
        assert(desc(a, a));
    } else {
        if desc(x, 2 * a + 1) {
            lemma_desc_ge(x, 2 * a + 1);
        } else {
            lemma_desc_ge(x, 2 * a + 2);
        }
        lemma_desc_child((x - 1) / 2, a);
    }
}

/// The subtrees of two siblings share no node.
pub proof fn lemma_desc_disjoint(x: int, a: int)
    requires
        a >= 0,
    ensures
        !(desc(x, 2 * a + 1) && desc(x, 2 * a + 2)),
    decreases x,
{
    if desc(x, 2 * a + 1) && desc(x, 2 * a + 2) {
        lemma_desc_ge(x, 2 * a + 2);
        if x == 2 * a + 2 {
            assert((x - 1) / 2 == a);
            lemma_desc_ge(a, 2 * a + 1);
        } else {
            lemma_desc_disjoint((x - 1) / 2, a);
        }
    }
}

proof fn lemma_fits_scaled(len: int, x: int, lo: int, hi: int, p: int)
    requires
        p >= 1,
        0 <= x < len,
        x + 1 <= 2 * p - 1,
        (hi - lo) * p < len / 4,
        lo <= hi,
    ensures
        fits(len, x, lo, hi),
    decreases hi - lo,
{
    if lo < hi {
        let m = mid(lo, hi);
        assert(p <= (hi - lo) * p) by (nonlinear_arith)
            requires
                hi - lo >= 1,
                p >= 1,
        ;
        assert((m - lo) * (2 * p) <= (hi - lo) * p) by (nonlinear_arith)
            requires
                2 * (m - lo) <= hi - lo,
                p >= 1,
        ;
        assert((hi - (m + 1)) * (2 * p) <= (hi - lo) * p) by (nonlinear_arith)
            requires
                2 * (hi - (m + 1)) <= hi - lo,
                p >= 1,
        ;
        lemma_fits_scaled(len, 2 * x + 1, lo, m, 2 * p);
        lemma_fits_scaled(len, 2 * x + 2, m + 1, hi, 2 * p);
    }
}

/// Four slots per element hold every node of a tree over `n` elements.
pub proof fn lemma_fits_root(n: int)
    requires
        n >= 1,
    ensures
        fits(4 * n, 0, 0, n - 1),
{
    lemma_fits_scaled(4 * n, 0, 0, n - 1, 1);
}

} // verus!
