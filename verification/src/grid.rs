//! Walking over the cells of a grid: which cells are next to each other and which can be
//! reached from which.

use vstd::prelude::*;

verus! {

/// Whether two cells share an edge.
pub open spec fn adjacent(a: (int, int), b: (int, int)) -> bool {
    ||| a.1 == b.1 && (a.0 == b.0 + 1 || b.0 == a.0 + 1)
    ||| a.0 == b.0 && (a.1 == b.1 + 1 || b.1 == a.1 + 1)
}

/// Whether `p` is a walk over cells of `floor`, each step going to a cell next to the last.
pub open spec fn is_walk(floor: Set<(int, int)>, p: Seq<(int, int)>) -> bool {
    &&& p.len() > 0
    &&& forall|i: int| 0 <= i < p.len() ==> floor.contains(#[trigger] p[i])
    &&& forall|i: int| 0 <= i < p.len() - 1 ==> adjacent(#[trigger] p[i], p[i + 1])
}

/// Whether `p` is a walk over `floor` from `a` to `b`.
pub open spec fn walk_between(
    floor: Set<(int, int)>,
    p: Seq<(int, int)>,
    a: (int, int),
    b: (int, int),
) -> bool {
    is_walk(floor, p) && p.first() == a && p.last() == b
}

/// Whether `b` can be reached from `a` by walking over `floor`.
pub open spec fn connected(floor: Set<(int, int)>, a: (int, int), b: (int, int)) -> bool {
    exists|p: Seq<(int, int)>| #[trigger] walk_between(floor, p, a, b)
}

/// Every cell of the floor reaches itself.
pub proof fn lemma_connected_refl(floor: Set<(int, int)>, a: (int, int))
    requires
        floor.contains(a),
    ensures
        connected(floor, a, a),
{
    let p = seq![a];
    assert(walk_between(floor, p, a, a));
}

/// Two floor cells next to each other reach each other.
pub proof fn lemma_connected_step(floor: Set<(int, int)>, a: (int, int), b: (int, int))
    requires
        floor.contains(a),
        floor.contains(b),
        adjacent(a, b),
    ensures
        connected(floor, a, b),
{
    let p = seq![a, b];
    assert(walk_between(floor, p, a, b));
}

/// A walk can be taken backwards.
pub proof fn lemma_connected_sym(floor: Set<(int, int)>, a: (int, int), b: (int, int))
    requires
        connected(floor, a, b),
    ensures
        connected(floor, b, a),
{
    let p = choose|p: Seq<(int, int)>| #[trigger] walk_between(floor, p, a, b);
    let n = p.len() as int;
    let q = Seq::new(p.len(), |i: int| p[n - 1 - i]);
    assert forall|i: int| 0 <= i < q.len() - 1 implies adjacent(#[trigger] q[i], q[i + 1]) by {
        assert(adjacent(p[n - 2 - i], p[n - 2 - i + 1]));
    }
    assert(walk_between(floor, q, b, a));
}

/// Two walks that meet make one walk.
pub proof fn lemma_connected_trans(
    floor: Set<(int, int)>,
    a: (int, int),
    b: (int, int),
    c: (int, int),
)
    requires
        connected(floor, a, b),
        connected(floor, b, c),
    ensures
        connected(floor, a, c),
{
    let p = choose|p: Seq<(int, int)>| #[trigger] walk_between(floor, p, a, b);
    let q = choose|q: Seq<(int, int)>| #[trigger] walk_between(floor, q, b, c);
    let r = p.drop_last() + q;
    let m = p.len() - 1;
    assert forall|i: int| 0 <= i < r.len() - 1 implies adjacent(#[trigger] r[i], r[i + 1]) by {
        if i < m - 1 {
            assert(adjacent(p[i], p[i + 1]));
        } else if i == m - 1 {
            assert(adjacent(p[i], p[i + 1]));
            assert(r[i + 1] == q[0]);
        } else {
            assert(adjacent(q[i - m], q[i - m + 1]));
        }
    }
    assert forall|i: int| 0 <= i < r.len() implies floor.contains(#[trigger] r[i]) by {
        if i < m {
            assert(floor.contains(p[i]));
        } else {
            assert(floor.contains(q[i - m]));
        }
    }
    assert(r.first() == a) by {
        if m == 0 {
            assert(r[0] == q[0]);
        }
    }
    assert(walk_between(floor, r, a, c));
}

/// A walk stays a walk when the floor grows.
pub proof fn lemma_connected_mono(
    small: Set<(int, int)>,
    large: Set<(int, int)>,
    a: (int, int),
    b: (int, int),
)
    requires
        connected(small, a, b),
        small.subset_of(large),
    ensures
        connected(large, a, b),
{
    let p = choose|p: Seq<(int, int)>| #[trigger] walk_between(small, p, a, b);
    assert forall|i: int| 0 <= i < p.len() implies large.contains(#[trigger] p[i]) by {
        assert(small.contains(p[i]));
    }
    assert(walk_between(large, p, a, b));
}

/// The two ends of a stretch of floor along a row reach each other.
pub proof fn lemma_row_connected(floor: Set<(int, int)>, y: int, x0: int, x1: int)
    requires
        x0 <= x1,
        forall|x: int| x0 <= x <= x1 ==> floor.contains((x, y)),
    ensures
        connected(floor, (x0, y), (x1, y)),
        connected(floor, (x1, y), (x0, y)),
    decreases x1 - x0,
{
    if x0 == x1 {
        lemma_connected_refl(floor, (x0, y));
    } else {
        lemma_row_connected(floor, y, x0, x1 - 1);
        lemma_connected_step(floor, (x1 - 1, y), (x1, y));
        lemma_connected_trans(floor, (x0, y), (x1 - 1, y), (x1, y));
        lemma_connected_sym(floor, (x0, y), (x1, y));
    }
}

/// The two ends of a stretch of floor along a column reach each other.
pub proof fn lemma_column_connected(floor: Set<(int, int)>, x: int, y0: int, y1: int)
    requires
        y0 <= y1,
        forall|y: int| y0 <= y <= y1 ==> floor.contains((x, y)),
    ensures
        connected(floor, (x, y0), (x, y1)),
        connected(floor, (x, y1), (x, y0)),
    decreases y1 - y0,
{
    if y0 == y1 {
        lemma_connected_refl(floor, (x, y0));
    } else {
        lemma_column_connected(floor, x, y0, y1 - 1);
        lemma_connected_step(floor, (x, y1 - 1), (x, y1));
        lemma_connected_trans(floor, (x, y0), (x, y1 - 1), (x, y1));
        lemma_connected_sym(floor, (x, y0), (x, y1));
    }
}

} // verus!
