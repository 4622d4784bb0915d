use vstd::prelude::*;
use vstd::set_lib::{lemma_int_range, lemma_len_subset, set_int_range};
use crate::types::{Cell, GridModel, Point, lemma_in_bounds_index_ok};
use crate::random::{
    adjacent, lemma_idx_eq, lemma_opposite, lemma_point_of_idx, lemma_reach_mono, opposite_spec, paint_pairs,
    pocket_pass, pocket_step, point_of, reach, region, spread, sweep, sweep_row, symmetric,
};

verus! {

// ------------------------------------------------------------------ regions

/// A square next to a square of a region, on the board and admitted, belongs to the region.
pub proof fn lemma_region_closed(g: GridModel<Cell>, pass: spec_fn(Point) -> bool, a: Point, x: Point, y: Point)
    requires
        region(g, pass, a).contains(x),
        adjacent(x, y),
        g.in_bounds(y),
        pass(y),
    ensures
        region(g, pass, a).contains(y),
{
    let n = choose|n: nat| #[trigger] reach(g, pass, a, n).contains(x);
    assert(reach(g, pass, a, n).contains(x) && adjacent(x, y));
    assert(spread(g, pass, reach(g, pass, a, n)).contains(y));
    assert(reach(g, pass, a, n + 1).contains(y));
}

/// The squares reached in `n` steps, but the start, are on the board and admitted.
pub proof fn lemma_reach_members(g: GridModel<Cell>, pass: spec_fn(Point) -> bool, a: Point, n: nat)
    ensures
        forall|x: Point| #[trigger] reach(g, pass, a, n).contains(x) && x != a ==> g.in_bounds(x) && pass(x),
    decreases n,
{
    if n > 0 {
        lemma_reach_members(g, pass, a, (n - 1) as nat);
        let r = reach(g, pass, a, (n - 1) as nat);
        assert forall|x: Point| #[trigger] reach(g, pass, a, n).contains(x) && x != a implies g.in_bounds(x) && pass(x) by {
            if !r.contains(x) {
                assert(spread(g, pass, r).contains(x));
            }
        }
    }
}

/// The squares of a region, but its start, are on the board and admitted.
pub proof fn lemma_region_members(g: GridModel<Cell>, pass: spec_fn(Point) -> bool, a: Point, x: Point)
    requires
        region(g, pass, a).contains(x),
        x != a,
    ensures
        g.in_bounds(x),
        pass(x),
{
    let n = choose|n: nat| #[trigger] reach(g, pass, a, n).contains(x);
    lemma_reach_members(g, pass, a, n);
}

/// What a square of a region reaches in `n` steps lies in the region.
pub proof fn lemma_reach_within(g: GridModel<Cell>, pass: spec_fn(Point) -> bool, a: Point, b: Point, n: nat)
    requires
        region(g, pass, a).contains(b),
    ensures
        reach(g, pass, b, n).subset_of(region(g, pass, a)),
    decreases n,
{
    if n == 0 {
        assert forall|y: Point| #[trigger] reach(g, pass, b, 0).contains(y) implies region(g, pass, a).contains(y) by {
            assert(y == b);
        }
    } else {
        lemma_reach_within(g, pass, a, b, (n - 1) as nat);
        let r = reach(g, pass, b, (n - 1) as nat);
        assert forall|y: Point| #[trigger] reach(g, pass, b, n).contains(y) implies region(g, pass, a).contains(y) by {
            if !r.contains(y) {
                assert(spread(g, pass, r).contains(y));
                let x = choose|x: Point| #![trigger r.contains(x), adjacent(x, y)] r.contains(x) && adjacent(x, y) && g.in_bounds(y) && pass(y);
                lemma_region_closed(g, pass, a, x, y);
            }
        }
    }
}

/// The region of a square of a region lies within it.
pub proof fn lemma_region_trans(g: GridModel<Cell>, pass: spec_fn(Point) -> bool, a: Point, b: Point)
    requires
        region(g, pass, a).contains(b),
    ensures
        region(g, pass, b).subset_of(region(g, pass, a)),
{
    assert forall|y: Point| #[trigger] region(g, pass, b).contains(y) implies region(g, pass, a).contains(y) by {
        let n = choose|n: nat| #[trigger] reach(g, pass, b, n).contains(y);
        lemma_reach_within(g, pass, a, b, n);
    }
}

/// From an admitted square of the board, every square it reaches reaches it back.
pub proof fn lemma_reach_back(g: GridModel<Cell>, pass: spec_fn(Point) -> bool, a: Point, n: nat)
    requires
        g.in_bounds(a),
        pass(a),
    ensures
        forall|x: Point| #[trigger] reach(g, pass, a, n).contains(x) ==> region(g, pass, x).contains(a),
    decreases n,
{
    if n == 0 {
        assert(reach(g, pass, a, 0).contains(a));
    } else {
        lemma_reach_back(g, pass, a, (n - 1) as nat);
        lemma_reach_members(g, pass, a, (n - 1) as nat);
        let r = reach(g, pass, a, (n - 1) as nat);
        assert forall|x: Point| #[trigger] reach(g, pass, a, n).contains(x) implies region(g, pass, x).contains(a) by {
            if !r.contains(x) {
                assert(spread(g, pass, r).contains(x));
                let y = choose|y: Point| #![trigger r.contains(y), adjacent(y, x)] r.contains(y) && adjacent(y, x) && g.in_bounds(x) && pass(x);
                assert(reach(g, pass, x, 0).contains(x));
                assert(g.in_bounds(y) && pass(y));
                assert(adjacent(x, y));
                lemma_region_closed(g, pass, x, x, y);
                assert(region(g, pass, y).contains(a));
                lemma_region_trans(g, pass, x, y);
            }
        }
    }
}

/// Two squares of a region that starts on an admitted square of the board have the same region.
pub proof fn lemma_region_same(g: GridModel<Cell>, pass: spec_fn(Point) -> bool, a: Point, b: Point)
    requires
        g.in_bounds(a),
        pass(a),
        region(g, pass, a).contains(b),
    ensures
        region(g, pass, b) == region(g, pass, a),
{
    lemma_region_trans(g, pass, a, b);
    let n = choose|n: nat| #[trigger] reach(g, pass, a, n).contains(b);
    lemma_reach_back(g, pass, a, n);
    lemma_region_trans(g, pass, b, a);
    assert(region(g, pass, b) =~= region(g, pass, a));
}

/// A region does not change when the board keeps its size and the squares admitted are fewer but
/// still include all squares of the region.
pub proof fn lemma_region_pass(
    g1: GridModel<Cell>,
    p1: spec_fn(Point) -> bool,
    g2: GridModel<Cell>,
    p2: spec_fn(Point) -> bool,
    a: Point,
)
    requires
        g1.width == g2.width,
        g1.height == g2.height,
        forall|q: Point| #[trigger] g1.in_bounds(q) && p2(q) ==> p1(q),
        forall|x: Point| #[trigger] region(g1, p1, a).contains(x) && x != a ==> p2(x),
    ensures
        region(g2, p2, a) == region(g1, p1, a),
{
    assert forall|n: nat| #[trigger] reach(g2, p2, a, n) == reach(g1, p1, a, n) by {
        lemma_reach_pass(g1, p1, g2, p2, a, n);
    }
    assert forall|q: Point| #[trigger] region(g2, p2, a).contains(q) == region(g1, p1, a).contains(q) by {
        if region(g2, p2, a).contains(q) {
            let n = choose|n: nat| #[trigger] reach(g2, p2, a, n).contains(q);
            assert(reach(g1, p1, a, n).contains(q));
        }
        if region(g1, p1, a).contains(q) {
            let n = choose|n: nat| #[trigger] reach(g1, p1, a, n).contains(q);
            assert(reach(g2, p2, a, n).contains(q));
        }
    }
    assert(region(g2, p2, a) =~= region(g1, p1, a));
}

/// What a square reaches in `n` steps does not change when the board keeps its size and the squares
/// admitted are fewer but still include all squares of its region.
pub proof fn lemma_reach_pass(
    g1: GridModel<Cell>,
    p1: spec_fn(Point) -> bool,
    g2: GridModel<Cell>,
    p2: spec_fn(Point) -> bool,
    a: Point,
    n: nat,
)
    requires
        g1.width == g2.width,
        g1.height == g2.height,
        forall|q: Point| #[trigger] g1.in_bounds(q) && p2(q) ==> p1(q),
        forall|x: Point| #[trigger] region(g1, p1, a).contains(x) && x != a ==> p2(x),
    ensures
        reach(g2, p2, a, n) == reach(g1, p1, a, n),
    decreases n,
{
    if n > 0 {
        lemma_reach_pass(g1, p1, g2, p2, a, (n - 1) as nat);
        let s = reach(g1, p1, a, (n - 1) as nat);
        lemma_reach_mono(g1, p1, a, 0, (n - 1) as nat);
        assert(reach(g1, p1, a, 0).contains(a));
        assert forall|y: Point| #[trigger] spread(g2, p2, s).contains(y) implies spread(g1, p1, s).contains(y) by {
            let x = choose|x: Point| #![trigger s.contains(x), adjacent(x, y)] s.contains(x) && adjacent(x, y) && g2.in_bounds(y) && p2(y);
            assert(g1.in_bounds(y) && p2(y));
            assert(s.contains(x) && adjacent(x, y));
        }
        assert forall|y: Point| #[trigger] spread(g1, p1, s).contains(y) && !s.contains(y) implies spread(g2, p2, s).contains(y) by {
            let x = choose|x: Point| #![trigger s.contains(x), adjacent(x, y)] s.contains(x) && adjacent(x, y) && g1.in_bounds(y) && p1(y);
            assert(reach(g1, p1, a, n).contains(y));
            assert(region(g1, p1, a).contains(y));
            assert(s.contains(x) && adjacent(x, y));
        }
        assert(reach(g2, p2, a, n) =~= reach(g1, p1, a, n));
    }
}

/// The squares of the board.
pub open spec fn board_set(g: GridModel<Cell>) -> Set<Point> {
    Set::new(|q: Point| g.in_bounds(q))
}

/// The squares of a well-formed board form a finite set.
pub proof fn lemma_board_finite(g: GridModel<Cell>)
    requires
        g.wf(),
    ensures
        board_set(g).finite(),
{
    let n = g.cells.len() as int;
    lemma_int_range(0, n);
    let f = |i: int| point_of(g, i);
    set_int_range(0, n).lemma_map_finite(f);
    let all = set_int_range(0, n).map(f);
    assert forall|q: Point| #[trigger] board_set(g).contains(q) implies all.contains(q) by {
        lemma_in_bounds_index_ok(g, q);
        lemma_point_of_idx(g, q);
        assert(set_int_range(0, n).contains(g.idx(q)));
    }
    lemma_len_subset(board_set(g), all);
}

/// A region that starts on the board is a finite set of squares of the board.
pub proof fn lemma_region_finite(g: GridModel<Cell>, pass: spec_fn(Point) -> bool, a: Point)
    requires
        g.wf(),
        g.in_bounds(a),
    ensures
        region(g, pass, a).finite(),
        forall|x: Point| #[trigger] region(g, pass, a).contains(x) ==> g.in_bounds(x),
{
    let b = board_set(g);
    lemma_board_finite(g);
    assert forall|x: Point| #[trigger] region(g, pass, a).contains(x) implies g.in_bounds(x) by {
        if x != a {
            lemma_region_members(g, pass, a, x);
        }
    }
    assert(region(g, pass, a).subset_of(b));
    lemma_len_subset(region(g, pass, a), b);
}

// ------------------------------------------------------------------ mirror

/// The squares that are not walls.
pub open spec fn open_at(g: GridModel<Cell>) -> spec_fn(Point) -> bool {
    |q: Point| g.at(q) != Cell::Wall
}

/// The mirror of a square across the middle column of the board.
pub open spec fn mirror_point(g: GridModel<Cell>) -> spec_fn(Point) -> Point {
    |q: Point| opposite_spec(q, g.width as int)
}

/// On a symmetric board the mirror of an open square of the board is an open square of the
/// board, and mirroring twice gives the square back.
pub proof fn lemma_mirror_open(g: GridModel<Cell>, q: Point)
    requires
        g.wf(),
        symmetric(g),
        g.in_bounds(q),
    ensures
        g.in_bounds(mirror_point(g)(q)),
        mirror_point(g)(mirror_point(g)(q)) == q,
        open_at(g)(mirror_point(g)(q)) == open_at(g)(q),
{
    lemma_opposite(g, q);
    assert(g.in_bounds(q));
}

/// On a symmetric board, what the mirror of `a` reaches in `n` steps over open squares is the
/// mirror of what `a` reaches.
pub proof fn lemma_reach_mirror(g: GridModel<Cell>, a: Point, n: nat)
    requires
        g.wf(),
        symmetric(g),
        g.in_bounds(a),
    ensures
        reach(g, open_at(g), mirror_point(g)(a), n) == reach(g, open_at(g), a, n).map(mirror_point(g)),
    decreases n,
{
    let m = mirror_point(g);
    let o = m(a);
    let op = open_at(g);
    lemma_mirror_open(g, a);
    if n == 0 {
        assert(reach(g, op, a, 0).contains(a) && o == m(a));
        assert forall|y: Point| #[trigger] reach(g, op, a, 0).map(m).contains(y) implies y == o by {
            let s = choose|s: Point| reach(g, op, a, 0).contains(s) && y == m(s);
        }
        assert(reach(g, op, o, 0) =~= reach(g, op, a, 0).map(m));
    } else {
        lemma_reach_mirror(g, a, (n - 1) as nat);
        lemma_reach_members(g, op, a, (n - 1) as nat);
        lemma_reach_members(g, op, a, n);
        let sa = reach(g, op, a, (n - 1) as nat);
        let t = reach(g, op, o, (n - 1) as nat);
        assert forall|y: Point| #[trigger] reach(g, op, o, n).contains(y) implies reach(g, op, a, n).map(m).contains(y) by {
            if t.contains(y) {
                let s = choose|s: Point| sa.contains(s) && y == m(s);
                assert(reach(g, op, a, n).contains(s) && y == m(s));
            } else {
                assert(spread(g, op, t).contains(y));
                let x = choose|x: Point| #![trigger t.contains(x), adjacent(x, y)] t.contains(x) && adjacent(x, y) && g.in_bounds(y) && op(y);
                let s = choose|s: Point| sa.contains(s) && x == m(s);
                assert(g.in_bounds(s));
                lemma_mirror_open(g, s);
                lemma_mirror_open(g, y);
                let z = m(y);
                assert(adjacent(s, z));
                assert(sa.contains(s) && adjacent(s, z));
                assert(spread(g, op, sa).contains(z));
                assert(reach(g, op, a, n).contains(z) && y == m(z));
            }
        }
        assert forall|y: Point| #[trigger] reach(g, op, a, n).map(m).contains(y) implies reach(g, op, o, n).contains(y) by {
            let z = choose|z: Point| reach(g, op, a, n).contains(z) && y == m(z);
            if sa.contains(z) {
                assert(sa.contains(z) && y == m(z));
                assert(t.contains(y));
            } else {
                assert(spread(g, op, sa).contains(z));
                let s = choose|s: Point| #![trigger sa.contains(s), adjacent(s, z)] sa.contains(s) && adjacent(s, z) && g.in_bounds(z) && op(z);
                assert(g.in_bounds(s));
                lemma_mirror_open(g, s);
                lemma_mirror_open(g, z);
                assert(sa.contains(s) && m(s) == m(s));
                assert(t.contains(m(s)));
                assert(adjacent(m(s), y));
                assert(t.contains(m(s)) && adjacent(m(s), y));
                assert(spread(g, op, t).contains(y));
            }
        }
        assert(reach(g, op, o, n) =~= reach(g, op, a, n).map(m));
    }
}

/// On a symmetric board, the open region of the mirror of `a` is the mirror of the open region
/// of `a`, and has as many squares.
pub proof fn lemma_region_mirror(g: GridModel<Cell>, a: Point)
    requires
        g.wf(),
        symmetric(g),
        g.in_bounds(a),
    ensures
        region(g, open_at(g), mirror_point(g)(a)) == region(g, open_at(g), a).map(mirror_point(g)),
        region(g, open_at(g), mirror_point(g)(a)).len() == region(g, open_at(g), a).len(),
{
    let m = mirror_point(g);
    let op = open_at(g);
    let o = m(a);
    let ra = region(g, op, a);
    assert forall|n: nat| #[trigger] reach(g, op, o, n) == reach(g, op, a, n).map(m) by {
        lemma_reach_mirror(g, a, n);
    }
    assert forall|y: Point| #[trigger] region(g, op, o).contains(y) == ra.map(m).contains(y) by {
        if region(g, op, o).contains(y) {
            let n = choose|n: nat| #[trigger] reach(g, op, o, n).contains(y);
            let s = choose|s: Point| reach(g, op, a, n).contains(s) && y == m(s);
            assert(ra.contains(s) && y == m(s));
        }
        if ra.map(m).contains(y) {
            let s = choose|s: Point| ra.contains(s) && y == m(s);
            let n = choose|n: nat| #[trigger] reach(g, op, a, n).contains(s);
            assert(reach(g, op, a, n).contains(s) && y == m(s));
            assert(reach(g, op, o, n).contains(y));
        }
    }
    assert(region(g, op, o) =~= ra.map(m));
    lemma_region_finite(g, op, a);
    assert forall|x1: Point, x2: Point| ra.contains(x1) && ra.contains(x2) && #[trigger] m(x1) == #[trigger] m(x2) implies x1 == x2 by {
        lemma_mirror_open(g, x1);
        lemma_mirror_open(g, x2);
    }
    vstd::set_lib::lemma_map_size(ra, ra.map(m), m);
}

// ------------------------------------------------------------------ pockets

/// Painting the squares `k` of the board and their mirrors with `v`: a square of the board holds
/// `v` when it is in `k` or mirrors one of `k`, and what it held otherwise.
pub proof fn lemma_paint_pairs_at(g: GridModel<Cell>, k: Set<Point>, v: Cell, x: Point)
    requires
        g.wf(),
        forall|q: Point| #[trigger] k.contains(q) ==> g.in_bounds(q),
        g.in_bounds(x),
    ensures
        paint_pairs(g, k, v).wf(),
        paint_pairs(g, k, v).same_shape(g),
        paint_pairs(g, k, v).at(x) == if k.contains(x) || k.map(mirror_point(g)).contains(x) {
            v
        } else {
            g.at(x)
        },
{
    let m = mirror_point(g);
    let i = g.idx(x);
    lemma_in_bounds_index_ok(g, x);
    let painted = exists|q: Point| #[trigger] k.contains(q) && (g.idx(q) == i || g.idx(opposite_spec(q, g.width as int)) == i);
    if k.contains(x) {
        assert(k.contains(x) && g.idx(x) == i);
    } else if k.map(m).contains(x) {
        let q = choose|q: Point| k.contains(q) && x == m(q);
        assert(k.contains(q) && g.idx(opposite_spec(q, g.width as int)) == i);
    } else if painted {
        let q = choose|q: Point| #[trigger] k.contains(q) && (g.idx(q) == i || g.idx(opposite_spec(q, g.width as int)) == i);
        lemma_opposite(g, q);
        if g.idx(q) == i {
            lemma_idx_eq(g, q, x);
        } else {
            lemma_idx_eq(g, opposite_spec(q, g.width as int), x);
            assert(k.contains(q) && x == m(q));
        }
    }
}

/// Painting squares of a symmetric board together with their mirrors keeps it symmetric.
pub proof fn lemma_paint_pairs_symmetric(g: GridModel<Cell>, k: Set<Point>, v: Cell)
    requires
        g.wf(),
        symmetric(g),
        forall|q: Point| #[trigger] k.contains(q) ==> g.in_bounds(q),
    ensures
        symmetric(paint_pairs(g, k, v)),
        paint_pairs(g, k, v).wf(),
        paint_pairs(g, k, v).same_shape(g),
{
    let m = mirror_point(g);
    let h = paint_pairs(g, k, v);
    assert forall|x: Point| #[trigger] h.in_bounds(x) implies h.at(x) == h.at(opposite_spec(x, h.width as int)) by {
        assert(g.in_bounds(x));
        lemma_mirror_open(g, x);
        let y = m(x);
        lemma_paint_pairs_at(g, k, v, x);
        lemma_paint_pairs_at(g, k, v, y);
        if k.contains(x) {
            assert(k.contains(x) && y == m(x));
        }
        if k.map(m).contains(x) {
            let q = choose|q: Point| k.contains(q) && x == m(q);
            lemma_mirror_open(g, q);
        }
        if k.contains(y) {
            assert(k.contains(y) && x == m(y));
        }
        if k.map(m).contains(y) {
            let q = choose|q: Point| k.contains(q) && y == m(q);
            lemma_mirror_open(g, q);
        }
    }
    assert(h.cells.len() == g.cells.len());
}

/// Every open square of the board lies in an open region of ten squares or more.
pub open spec fn no_small_pockets(g: GridModel<Cell>) -> bool {
    forall|p: Point| #[trigger] g.in_bounds(p) && g.at(p) != Cell::Wall ==> region(g, open_at(g), p).len() >= 10
}

/// `q` comes before `(x, y)` in a sweep: on an earlier row, or earlier on row `y`.
pub open spec fn swept(q: Point, y: int, x: int) -> bool {
    q.y < y || (q.y == y && q.x < x)
}

/// What holds while pockets are walled up: the board stays symmetric and of its shape, the
/// visited squares are on the board, an open visited square lies in a visited open region of ten
/// squares or more, and every open square swept is visited.
pub open spec fn pocket_inv(g0: GridModel<Cell>, s: (GridModel<Cell>, Set<Point>), y: int, x: int) -> bool {
    let (g, vis) = s;
    &&& g.wf()
    &&& g.same_shape(g0)
    &&& symmetric(g)
    &&& forall|q: Point| #[trigger] vis.contains(q) ==> g.in_bounds(q)
    &&& forall|q: Point|
        #[trigger] vis.contains(q) && g.at(q) != Cell::Wall ==> region(g, open_at(g), q).subset_of(vis) && region(
            g,
            open_at(g),
            q,
        ).len() >= 10
    &&& forall|q: Point| #[trigger] g.in_bounds(q) && swept(q, y, x) && g.at(q) != Cell::Wall ==> vis.contains(q)
}

/// Looking at one more square keeps the invariant.
pub proof fn lemma_pocket_step(g0: GridModel<Cell>, s: (GridModel<Cell>, Set<Point>), p: Point)
    requires
        pocket_inv(g0, s, p.y as int, p.x as int),
        s.0.in_bounds(p),
    ensures
        pocket_inv(g0, pocket_step(s, p), p.y as int, p.x + 1),
{
    let (g, vis) = s;
    let op = open_at(g);
    let y = p.y as int;
    let x = p.x as int;
    if g.at(p) == Cell::Wall || vis.contains(p) {
        assert forall|q: Point| #[trigger] g.in_bounds(q) && swept(q, y, x + 1) && g.at(q) != Cell::Wall implies vis.contains(q) by {
            if q != p {
                assert(swept(q, y, x));
            }
        }
    } else {
        let k = region(g, op, p);
        lemma_region_finite(g, op, p);
        assert(reach(g, op, p, 0).contains(p));
        assert(k.contains(p));
        assert forall|q: Point| #[trigger] k.contains(q) implies !vis.contains(q) by {
            if vis.contains(q) && q != p {
                lemma_region_members(g, op, p, q);
                lemma_region_same(g, op, p, q);
                assert(region(g, op, q).subset_of(vis));
            }
        }
        assert forall|q: Point| #[trigger] k.contains(q) && q != p implies pocket_pass(g, vis)(q) by {
            lemma_region_members(g, op, p, q);
        }
        lemma_region_pass(g, op, g, pocket_pass(g, vis), p);
        let vis2 = vis.union(k);
        if k.len() < 10 {
            let m = mirror_point(g);
            let g2 = paint_pairs(g, k, Cell::Wall);
            let mk = k.map(m);
            let op2 = open_at(g2);
            lemma_paint_pairs_symmetric(g, k, Cell::Wall);
            lemma_region_mirror(g, p);
            lemma_mirror_open(g, p);
            assert(pocket_step(s, p) == (g2, vis2));
            assert forall|r: Point| #[trigger] g.in_bounds(r) && op2(r) implies op(r) && !k.contains(r) && !mk.contains(r) by {
                lemma_paint_pairs_at(g, k, Cell::Wall, r);
            }
            assert forall|q: Point| #[trigger] vis2.contains(q) && g2.at(q) != Cell::Wall implies region(g2, op2, q).subset_of(vis2)
                && region(g2, op2, q).len() >= 10 by {
                assert(g.in_bounds(q));
                assert(op2(q));
                assert(vis.contains(q));
                let kq = region(g, op, q);
                assert(kq.subset_of(vis) && kq.len() >= 10);
                assert forall|z: Point| #[trigger] kq.contains(z) implies !k.contains(z) && !mk.contains(z) by {
                    if mk.contains(z) {
                        lemma_region_same(g, op, q, z);
                        lemma_region_same(g, op, m(p), z);
                    }
                }
                assert forall|z: Point| #[trigger] kq.contains(z) && z != q implies op2(z) by {
                    lemma_region_members(g, op, q, z);
                    lemma_paint_pairs_at(g, k, Cell::Wall, z);
                }
                lemma_region_pass(g, op, g2, op2, q);
            }
            assert forall|q: Point| #[trigger] g2.in_bounds(q) && swept(q, y, x + 1) && g2.at(q) != Cell::Wall implies vis2.contains(q) by {
                assert(g.in_bounds(q) && op2(q));
                if q != p {
                    assert(swept(q, y, x));
                }
            }
        } else {
            assert(pocket_step(s, p) == (g, vis2));
            assert forall|q: Point| #[trigger] vis2.contains(q) && g.at(q) != Cell::Wall implies region(g, op, q).subset_of(vis2)
                && region(g, op, q).len() >= 10 by {
                if !vis.contains(q) {
                    lemma_region_same(g, op, p, q);
                }
            }
            assert forall|q: Point| #[trigger] g.in_bounds(q) && swept(q, y, x + 1) && g.at(q) != Cell::Wall implies vis2.contains(q) by {
                if q != p {
                    assert(swept(q, y, x));
                }
            }
        }
    }
}

/// Looking at the first `x` squares of row `y`.
pub proof fn lemma_pocket_row(g0: GridModel<Cell>, s: (GridModel<Cell>, Set<Point>), y: int, x: int)
    requires
        pocket_inv(g0, s, y, 0),
        0 <= y < g0.height,
        0 <= x <= g0.width,
    ensures
        pocket_inv(g0, sweep_row(s, y, x, |s: (GridModel<Cell>, Set<Point>), p: Point| pocket_step(s, p)), y, x),
    decreases x,
{
    if x > 0 {
        lemma_pocket_row(g0, s, y, x - 1);
        let m = sweep_row(s, y, x - 1, |s: (GridModel<Cell>, Set<Point>), p: Point| pocket_step(s, p));
        let p = Point { x: (x - 1) as i16, y: y as i16 };
        assert(m.0.in_bounds(p));
        lemma_pocket_step(g0, m, p);
    }
}

/// Looking at every square of the rows `0 .. y` of a symmetric board.
pub proof fn lemma_pocket_sweep(g0: GridModel<Cell>, y: int)
    requires
        g0.wf(),
        symmetric(g0),
        0 <= y <= g0.height,
    ensures
        pocket_inv(
            g0,
            sweep((g0, Set::<Point>::empty()), g0.width as int, y, |s: (GridModel<Cell>, Set<Point>), p: Point| pocket_step(s, p)),
            y,
            0,
        ),
    decreases y,
{
    let f = |s: (GridModel<Cell>, Set<Point>), p: Point| pocket_step(s, p);
    if y > 0 {
        lemma_pocket_sweep(g0, y - 1);
        let s = sweep((g0, Set::<Point>::empty()), g0.width as int, y - 1, f);
        lemma_pocket_row(g0, s, y - 1, g0.width as int);
        let r = sweep_row(s, y - 1, g0.width as int, f);
        assert(r == sweep((g0, Set::<Point>::empty()), g0.width as int, y, f));
        assert forall|q: Point| #[trigger] r.0.in_bounds(q) && swept(q, y, 0) && r.0.at(q) != Cell::Wall implies r.1.contains(q) by {
            assert(swept(q, y - 1, g0.width as int));
        }
    }
}

/// Walling up small pockets on a symmetric board leaves no small pocket.
pub proof fn lemma_no_small_pockets(g0: GridModel<Cell>)
    requires
        g0.wf(),
        symmetric(g0),
    ensures
        no_small_pockets(
            sweep(
                (g0, Set::<Point>::empty()),
                g0.width as int,
                g0.height as int,
                |s: (GridModel<Cell>, Set<Point>), p: Point| pocket_step(s, p),
            ).0,
        ),
{
    lemma_pocket_sweep(g0, g0.height as int);
    let r = sweep(
        (g0, Set::<Point>::empty()),
        g0.width as int,
        g0.height as int,
        |s: (GridModel<Cell>, Set<Point>), p: Point| pocket_step(s, p),
    );
    assert forall|q: Point| #[trigger] r.0.in_bounds(q) && r.0.at(q) != Cell::Wall implies region(r.0, open_at(r.0), q).len() >= 10 by {
        assert(swept(q, g0.height as int, 0));
        assert(r.1.contains(q));
    }
}

} // verus!
