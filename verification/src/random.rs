use vstd::prelude::*;
use crate::types::{Cell, Coord, Direction, Grid, GridModel, Point, all_directions, directions, step, lemma_in_bounds_index_ok};
use crate::pockets::{lemma_no_small_pockets, lemma_pocket_sweep, no_small_pockets};
use crate::rounding::{round53, round53_exec, round53_split, two_pow, lemma_round53_bound, lemma_round53_scale};
use vstd::arithmetic::power2::{pow2, lemma_pow2_adds, lemma_pow2_pos, lemma_pow2_strictly_increases, lemma2_to64};
use vstd::arithmetic::div_mod::{lemma_div_is_ordered, lemma_div_multiples_vanish, lemma_div_multiples_vanish_fancy, lemma_div_multiples_vanish_quotient};

verus! {

// ------------------------------------------------------------------ random numbers

/// One xorshift step of the generator state.
pub open spec fn xorshift(s: u64) -> u64 {
    let a = s ^ (s << 13u64);
    let b = a ^ (a >> 7u64);
    b ^ (b << 17u64)
}

/// The draw, in millionths, that follows generator state `s`; the state moves to `xorshift(s)`.
pub open spec fn draw_after(s: u64) -> int {
    (xorshift(s) % 1_000_000) as int
}

/// The draw `k` millionths as the nearest binary64 number, scaled by 2^73 (where that number is
/// a whole one).
pub open spec fn draw_bits(k: int) -> nat {
    round53(((k * 0x2000000000000000000) / 1_000_000) as nat, (k * 0x2000000000000000000) % 1_000_000 != 0)
}

/// `d` times the draw `k` millionths, taken in binary64 and rounded to a whole number with halves
/// away from zero: the draw and the product are each the nearest binary64 number (scaled by 2^73
/// here), and the product is then rounded.
pub open spec fn scaled_round(d: int, k: int) -> int {
    let m: nat = if d >= 0 { d as nat } else { (-d) as nat };
    let r = (round53(m * draw_bits(k), false) + 0x1000000000000000000) / 0x2000000000000000000;
    if d >= 0 { r as int } else { -r }
}

/// The item picked in a list of `len` items by the draw `k` millionths: the whole part of the
/// draw times the length, taken in binary64 (the length, and the product, each the nearest
/// binary64 number; scaled by 2^73 here).
pub open spec fn pick_index(k: int, len: int) -> int {
    (round53(draw_bits(k) * round53(len as nat, false), false) / 0x2000000000000000000) as int
}

/// A draw as a binary64 number lies below 1 by more than 2^-20.
pub proof fn lemma_draw_bits_bound(k: int)
    requires
        0 <= k < 1_000_000,
    ensures
        draw_bits(k) <= 0x2000000000000000000 - 0x20000000000000,
{
    let a = (k * 0x2000000000000000000) / 1_000_000;
    lemma_div_is_ordered(k * 0x2000000000000000000, (999_999 * 0x2000000000000000000) as int, 1_000_000);
    assert(a <= 9444723521006324688101);
    lemma_div_is_ordered(a, 0x2000000000000000000, 0x20000000000000);
    assert(0x2000000000000000000int / 0x20000000000000 == 0x100000);
    lemma_round53_bound(a as nat, (k * 0x2000000000000000000) % 1_000_000 != 0);
}

/// `scaled_round(d, k)` lies between 0 and `d`.
pub proof fn lemma_scaled_round_bound(d: int, k: int)
    requires
        0 <= k < 1_000_000,
    ensures
        d >= 0 ==> 0 <= scaled_round(d, k) <= d,
        d < 0 ==> d <= scaled_round(d, k) <= 0,
{
    let m: nat = if d >= 0 { d as nat } else { (-d) as nat };
    let x = draw_bits(k);
    lemma_draw_bits_bound(k);
    let p = m * x;
    assert(p <= m * 0x2000000000000000000 - m * 0x20000000000000) by (nonlinear_arith)
        requires
            p == m * x,
            x <= 0x2000000000000000000 - 0x20000000000000,
            m >= 0,
    ;
    lemma_round53_bound(p, false);
    lemma_div_is_ordered(p as int, (m * 0x2000000000000000000) as int, 0x20000000000000);
    lemma_div_multiples_vanish((m * 0x100000) as int, 0x20000000000000);
    assert(0x20000000000000 * (m * 0x100000) == m * 0x2000000000000000000);
    let y = round53(p, false);
    assert(y <= m * 0x2000000000000000000);
    lemma_div_is_ordered((y + 0x1000000000000000000) as int, (m * 0x2000000000000000000 + 0x1000000000000000000) as int, 0x2000000000000000000);
    lemma_div_multiples_vanish_fancy(m as int, 0x1000000000000000000, 0x2000000000000000000);
    assert(0x2000000000000000000 * m + 0x1000000000000000000 == m * 0x2000000000000000000 + 0x1000000000000000000);
}

/// `pick_index(k, len)` is the place of an item of a list `len` long.
pub proof fn lemma_pick_index_bound(k: int, len: int)
    requires
        0 <= k < 1_000_000,
        len > 0,
    ensures
        0 <= pick_index(k, len) < len,
{
    let x = draw_bits(k);
    lemma_draw_bits_bound(k);
    let n = round53(len as nat, false);
    lemma_round53_bound(len as nat, false);
    let e1 = len / 0x20000000000000;
    assert(e1 * 0x20000000000000 <= len);
    assert(0 <= e1);
    let p = x * n;
    assert(p <= (0x2000000000000000000 - 0x20000000000000) * (len + e1)) by (nonlinear_arith)
        requires
            p == x * n,
            0 <= x <= 0x2000000000000000000 - 0x20000000000000,
            0 <= n <= len + e1,
    ;
    lemma_round53_bound(p, false);
    lemma_div_is_ordered(p as int, 0x2000000000000000000 * (len + e1), 0x20000000000000);
    lemma_div_multiples_vanish(0x100000 * (len + e1), 0x20000000000000);
    assert(0x20000000000000 * (0x100000 * (len + e1)) == 0x2000000000000000000 * (len + e1));
    let r = round53(p, false);
    assert(r < len * 0x2000000000000000000);
    lemma_div_is_ordered(r as int, len * 0x2000000000000000000 - 1, 0x2000000000000000000);
    lemma_div_multiples_vanish_fancy(len - 1, 0x2000000000000000000 - 1, 0x2000000000000000000);
    assert(0x2000000000000000000 * (len - 1) + (0x2000000000000000000 - 1) == len * 0x2000000000000000000 - 1);
}

/// The draw `k` millionths as the nearest binary64 number, scaled by 2^73.
fn draw_as_binary64(k: u64) -> (x: u128)
    requires
        k < 1_000_000,
    ensures
        x == draw_bits(k as int),
        x <= 0x2000000000000000000 - 0x20000000000000,
{
    proof {
        lemma_draw_bits_bound(k as int);
    }
    let a = (k as u128) * 0x2000000000000000000;
    round53_exec(a / 1_000_000, a % 1_000_000 != 0)
}

/// A small pseudo-random generator (xorshift); each draw is a whole number of millionths in
/// `0 .. 1_000_000`.
pub struct SimpleRng {
    pub seed: u64,
}

impl SimpleRng {
    /// A generator at its fixed starting state.
    pub fn new() -> (r: Self)
        ensures
            r.seed == 0x12345678abcdef,
    {
        Self { seed: 0x12345678abcdef }
    }

    /// Advances the state and returns the next draw, in millionths.
    pub fn next_draw(&mut self) -> (k: u64)
        ensures
            final(self).seed == xorshift(old(self).seed),
            k == draw_after(old(self).seed),
            k < 1_000_000,
    {
        self.seed ^= self.seed << 13;
        self.seed ^= self.seed >> 7;
        self.seed ^= self.seed << 17;
        self.seed % 1_000_000
    }

    /// A whole number between `min` and `max`: `min` plus `max - min` times a draw, the product
    /// taken in binary64 and rounded to the nearest whole number with halves away from zero.
    pub fn range(&mut self, min: Coord, max: Coord) -> (r: Coord)
        requires
            i16::MIN <= max - min <= i16::MAX,
        ensures
            final(self).seed == xorshift(old(self).seed),
            r == min + scaled_round(max - min, draw_after(old(self).seed)),
            min <= max ==> min <= r <= max,
            max < min ==> max <= r <= min,
    {
        let d = (max - min) as i64;
        let k = self.next_draw();
        let x = draw_as_binary64(k);
        let m: u128 = if d >= 0 { d as u128 } else { (-d) as u128 };
        assert(m * x <= 0x8000 * 0x2000000000000000000) by (nonlinear_arith)
            requires
                m <= 0x8000,
                x <= 0x2000000000000000000,
        ;
        let y = round53_exec(m * x, false);
        proof {
            lemma_round53_bound((m * x) as nat, false);
            lemma_div_is_ordered((m * x) as int, (0x8000 * 0x2000000000000000000) as int, 0x20000000000000);
            lemma_scaled_round_bound(d as int, k as int);
        }
        let q = (y + 0x1000000000000000000) / 0x2000000000000000000;
        assert(q <= m);
        let r: i64 = if d >= 0 { q as i64 } else { -(q as i64) };
        min + r as Coord
    }

    /// An item of `slice` chosen by a draw, or `None` (and no draw) when it is empty: the item at
    /// the whole part of the draw times the length, the product taken in binary64.
    pub fn choose_item<'a, T>(&mut self, slice: &'a [T]) -> (r: Option<&'a T>)
        ensures
            slice@.len() == 0 ==> r is None && final(self).seed == old(self).seed,
            slice@.len() > 0 ==> {
                &&& final(self).seed == xorshift(old(self).seed)
                &&& 0 <= pick_index(draw_after(old(self).seed), slice@.len() as int) < slice@.len()
                &&& r == Some(&slice@[pick_index(draw_after(old(self).seed), slice@.len() as int)])
            },
    {
        if slice.len() == 0 {
            None
        } else {
            let k = self.next_draw();
            let n = slice.len();
            let x = draw_as_binary64(k);
            let (w, t) = round53_split(n as u128, false);
            assert(x * w <= 0x2000000000000000000 * 0x20000000000000) by (nonlinear_arith)
                requires
                    x <= 0x2000000000000000000,
                    w <= 0x20000000000000,
            ;
            let p = x * w;
            let y = round53_exec(p, false);
            proof {
                lemma_round53_bound(n as nat, false);
                lemma_div_is_ordered(n as int, 0x10000000000000000, 0x20000000000000);
                lemma2_to64();
                lemma_pow2_adds(64, 1);
                if t > 65 {
                    lemma_pow2_strictly_increases(65, t as nat);
                }
                lemma_pow2_pos(t as nat);
                assert(pow2(t as nat) <= w * pow2(t as nat)) by (nonlinear_arith)
                    requires
                        w >= 1,
                        pow2(t as nat) > 0,
                ;
                assert(t <= 65);
            }
            let dv = two_pow(73 - t);
            proof {
                lemma_pow2_pos((73 - t) as nat);
            }
            let i = y / dv;
            proof {
                let ghost tt = t as nat;
                let ghost n2 = round53(n as nat, false);
                lemma_round53_scale(p as nat, tt);
                assert(draw_bits(k as int) * n2 == p * pow2(tt)) by (nonlinear_arith)
                    requires
                        n2 == w * pow2(tt),
                        p == x * w,
                        x == draw_bits(k as int),
                ;
                lemma_pow2_adds(tt, (73 - tt) as nat);
                lemma_pow2_pos(tt);
                lemma_pow2_pos((73 - tt) as nat);
                lemma_div_multiples_vanish_quotient(pow2(tt) as int, y as int, dv as int);
                lemma_pow2_adds(64, 9);
                assert(pow2(73) == 0x2000000000000000000);
                assert(pow2(tt) * pow2((73 - tt) as nat) == pow2(73));
                lemma_pick_index_bound(k as int, n as int);
            }
            Some(&slice[i as usize])
        }
    }
}

// ------------------------------------------------------------------ symmetry

/// The square in the same row, mirrored across the middle column.
pub open spec fn opposite_spec(p: Point, width: int) -> Point {
    Point { x: (width - p.x - 1) as i16, y: p.y }
}

/// The square in the same row, mirrored across the middle column of a grid `width` wide.
pub fn opposite(p: Point, width: Coord) -> (q: Point)
    requires
        i16::MIN <= width - p.x <= i16::MAX,
        i16::MIN <= width - p.x - 1 <= i16::MAX,
    ensures
        q == opposite_spec(p, width as int),
{
    Point::new(width - p.x - 1, p.y)
}

/// Every square of the board holds what its mirror square holds.
pub open spec fn symmetric(g: GridModel<Cell>) -> bool {
    forall|p: Point| #[trigger] g.in_bounds(p) ==> g.at(p) == g.at(opposite_spec(p, g.width as int))
}

/// The mirror of a square of the board is on the board, and mirroring twice gives the square back.
pub proof fn lemma_opposite(g: GridModel<Cell>, p: Point)
    requires
        g.in_bounds(p),
    ensures
        g.in_bounds(opposite_spec(p, g.width as int)),
        opposite_spec(opposite_spec(p, g.width as int), g.width as int) == p,
{
}

/// Writing the same value at a square and at its mirror keeps a grid symmetric.
pub proof fn lemma_pair_write_symmetric(g: GridModel<Cell>, p: Point, v: Cell)
    requires
        g.wf(),
        symmetric(g),
        g.in_bounds(p),
    ensures
        symmetric(g.set(p, v).set(opposite_spec(p, g.width as int), v)),
{
    let o = opposite_spec(p, g.width as int);
    let g2 = g.set(p, v).set(o, v);
    lemma_opposite(g, p);
    lemma_in_bounds_index_ok(g, p);
    lemma_in_bounds_index_ok(g, o);
    assert forall|q: Point| #[trigger] g2.in_bounds(q) implies g2.at(q) == g2.at(opposite_spec(q, g2.width as int)) by {
        let oq = opposite_spec(q, g.width as int);
        lemma_opposite(g, q);
        lemma_in_bounds_index_ok(g, q);
        lemma_in_bounds_index_ok(g, oq);
        assert(g.in_bounds(q));
        if g.idx(q) == g.idx(p) {
            lemma_idx_eq(g, q, p);
        }
        if g.idx(q) == g.idx(o) {
            lemma_idx_eq(g, q, o);
        }
        if g.idx(oq) == g.idx(p) {
            lemma_idx_eq(g, oq, p);
        }
        if g.idx(oq) == g.idx(o) {
            lemma_idx_eq(g, oq, o);
        }
    }
}

/// Squares of the board at the same position are the same square.
pub proof fn lemma_idx_eq(g: GridModel<Cell>, p: Point, q: Point)
    requires
        g.in_bounds(p),
        g.in_bounds(q),
        g.idx(p) == g.idx(q),
    ensures
        p == q,
{
    crate::ai2::lemma_idx_injective(g, p, q);
}

/// Writing `v` at `p` changes the square `p` only.
pub proof fn lemma_set_at(g: GridModel<Cell>, p: Point, v: Cell, q: Point)
    requires
        g.wf(),
        g.in_bounds(p),
        g.in_bounds(q),
    ensures
        g.set(p, v).at(q) == if q == p {
            v
        } else {
            g.at(q)
        },
        g.set(p, v).wf(),
{
    lemma_in_bounds_index_ok(g, p);
    lemma_in_bounds_index_ok(g, q);
    if q != p && g.idx(q) == g.idx(p) {
        lemma_idx_eq(g, q, p);
    }
}

// ------------------------------------------------------------------ mirror

/// Column `x` mirrored within a row `w` wide, keeping the left half.
pub open spec fn left_column(x: int, w: int) -> int {
    if x <= w - 1 - x {
        x
    } else {
        w - 1 - x
    }
}

/// The square of the left half that `p` mirrors.
pub open spec fn left_point(p: Point, w: int) -> Point {
    Point { x: left_column(p.x as int, w) as i16, y: p.y }
}

/// Copies the left half of every row onto its right half.
pub fn mirror(grid: &mut Grid)
    requires
        old(grid)@.wf(),
    ensures
        final(grid)@.same_shape(old(grid)@),
        final(grid)@.wf(),
        forall|p: Point|
            #[trigger] final(grid)@.in_bounds(p) ==> final(grid)@.at(p) == old(grid)@.at(left_point(p, old(grid)@.width as int)),
        symmetric(final(grid)@),
{
    let ghost g0 = grid@;
    let w = grid.width;
    let h = grid.height;
    let mut y: Coord = 0;
    while y < h
        invariant
            0 <= y <= h,
            w == g0.width,
            h == g0.height,
            g0.wf(),
            grid@.same_shape(g0),
            forall|q: Point|
                #[trigger] g0.in_bounds(q) ==> grid@.at(q) == if q.y < y {
                    g0.at(left_point(q, w as int))
                } else {
                    g0.at(q)
                },
        decreases h - y,
    {
        let mut x: Coord = 0;
        while x < w
            invariant
                0 <= y < h,
                0 <= x <= w,
                w == g0.width,
                h == g0.height,
                g0.wf(),
                grid@.same_shape(g0),
                forall|q: Point|
                    #[trigger] g0.in_bounds(q) ==> grid@.at(q) == if q.y < y || (q.y == y && w - 1 - q.x < x) {
                        g0.at(left_point(q, w as int))
                    } else {
                        g0.at(q)
                    },
            decreases w - x,
        {
            let p = Point::new(x, y);
            let opp = opposite(p, w);
            proof {
                lemma_in_bounds_index_ok(grid@, p);
                lemma_in_bounds_index_ok(grid@, opp);
                assert(g0.in_bounds(p));
                if x > w - 1 - x {
                    assert(left_point(p, w as int) == opp);
                } else {
                    assert(left_point(opp, w as int) == p);
                }
            }
            let v = *grid.get(p);
            let ghost before = grid@;
            grid.set(opp, v);
            proof {
                assert forall|q: Point| #[trigger] g0.in_bounds(q) implies grid@.at(q) == if q.y < y || (q.y == y && w - 1 - q.x < x + 1) {
                    g0.at(left_point(q, w as int))
                } else {
                    g0.at(q)
                } by {
                    lemma_set_at(before, opp, v, q);
                    assert(before.in_bounds(q));
                }
            }
            x += 1;
        }
        proof {
            assert forall|q: Point| #[trigger] g0.in_bounds(q) implies grid@.at(q) == if q.y < y + 1 {
                g0.at(left_point(q, w as int))
            } else {
                g0.at(q)
            } by {
                if q.y == y {
                    assert(w - 1 - q.x < x);
                }
            }
        }
        y += 1;
    }
    proof {
        assert forall|p: Point| #[trigger] grid@.in_bounds(p) implies grid@.at(p) == g0.at(left_point(p, g0.width as int)) by {
            assert(g0.in_bounds(p));
        }
        assert forall|p: Point| #[trigger] grid@.in_bounds(p) implies grid@.at(p) == grid@.at(opposite_spec(p, grid@.width as int)) by {
            assert(g0.in_bounds(p));
            let o = opposite_spec(p, w as int);
            lemma_opposite(g0, p);
            assert(g0.in_bounds(o));
            assert(left_point(o, w as int) == left_point(p, w as int));
        }
    }
}

// ------------------------------------------------------------------ sweeps

/// `f` applied to the squares `(0, y) .. (x - 1, y)` of row `y`, left to right.
pub open spec fn sweep_row<S>(s: S, y: int, x: int, f: spec_fn(S, Point) -> S) -> S
    decreases x,
{
    if x <= 0 {
        s
    } else {
        f(sweep_row(s, y, x - 1, f), Point { x: (x - 1) as i16, y: y as i16 })
    }
}

/// `f` applied to the first `w` squares of rows `0 .. y`, row after row.
pub open spec fn sweep<S>(s: S, w: int, y: int, f: spec_fn(S, Point) -> S) -> S
    decreases y,
{
    if y <= 0 {
        s
    } else {
        sweep_row(sweep(s, w, y - 1, f), y - 1, w, f)
    }
}

/// Writes `v` at `p` and at its mirror square.
fn set_pair(grid: &mut Grid, p: Point, v: Cell)
    requires
        old(grid)@.wf(),
        old(grid)@.in_bounds(p),
    ensures
        final(grid)@ == old(grid)@.set(p, v).set(opposite_spec(p, old(grid)@.width as int), v),
        final(grid)@.wf(),
        symmetric(old(grid)@) ==> symmetric(final(grid)@),
{
    let opp = opposite(p, grid.width);
    proof {
        lemma_opposite(grid@, p);
        lemma_in_bounds_index_ok(grid@, p);
        lemma_in_bounds_index_ok(grid@, opp);
        if symmetric(grid@) {
            lemma_pair_write_symmetric(grid@, p, v);
        }
    }
    grid.set(p, v);
    grid.set(opp, v);
}

/// The squares next to `p` that lie on the board, in the order Right, Left, Up, Down.
pub open spec fn neighbour_points(g: GridModel<Cell>, p: Point) -> Seq<Point> {
    directions().map_values(|d: Direction| step(p, d)).filter(|q: Point| g.in_bounds(q))
}

/// The squares next to `p` that lie on the board, in the order Right, Left, Up, Down.
pub fn neighbours(grid: &Grid, p: Point) -> (r: Vec<Point>)
    requires
        grid@.in_bounds(p),
    ensures
        r@ == neighbour_points(grid@, p),
        forall|i: int| 0 <= i < r@.len() ==> grid@.in_bounds(#[trigger] r@[i]),
{
    let all = all_directions();
    let ghost steps = directions().map_values(|d: Direction| step(p, d));
    let mut r: Vec<Point> = Vec::new();
    let mut i: usize = 0;
    while i < all.len()
        invariant
            0 <= i <= all@.len(),
            all@ == directions(),
            grid@.in_bounds(p),
            steps == directions().map_values(|d: Direction| step(p, d)),
            r@ == steps.take(i as int).filter(|q: Point| grid@.in_bounds(q)),
        decreases all@.len() - i,
    {
        let q = p + all[i];
        proof {
            assert(steps.take(i + 1) =~= steps.take(i as int).push(q));
            steps.take(i as int).lemma_filter_push(q, |q: Point| grid@.in_bounds(q));
        }
        if grid.in_bounds(q) {
            r.push(q);
        }
        i += 1;
    }
    assert(steps.take(4) =~= steps);
    proof {
        assert forall|i: int| 0 <= i < r@.len() implies grid@.in_bounds(#[trigger] r@[i]) by {
            steps.lemma_filter_pred(|q: Point| grid@.in_bounds(q), i);
        }
    }
    r
}

// ------------------------------------------------------------------ food

/// At an empty square, a draw; below 25_000 millionths the square and its mirror get food.
pub open spec fn spawn_step(s: (GridModel<Cell>, u64), p: Point) -> (GridModel<Cell>, u64) {
    let (g, seed) = s;
    if g.at(p) == Cell::Empty {
        if draw_after(seed) < 25_000 {
            (g.set(p, Cell::Food).set(opposite_spec(p, g.width as int), Cell::Food), xorshift(seed))
        } else {
            (g, xorshift(seed))
        }
    } else {
        s
    }
}

/// `b` is `a` with some empty squares turned into food: nothing else changed.
pub open spec fn food_on_empty(a: GridModel<Cell>, b: GridModel<Cell>) -> bool {
    &&& b.same_shape(a)
    &&& forall|q: Point|
        #[trigger] a.in_bounds(q) ==> b.at(q) == a.at(q) || (a.at(q) == Cell::Empty && b.at(q) == Cell::Food)
}

/// A step of laying food on a symmetric board only turns empty squares into food.
pub proof fn lemma_spawn_step(g0: GridModel<Cell>, s: (GridModel<Cell>, u64), p: Point)
    requires
        s.0.wf(),
        symmetric(s.0),
        s.0.in_bounds(p),
        food_on_empty(g0, s.0),
    ensures
        spawn_step(s, p).0.wf(),
        symmetric(spawn_step(s, p).0),
        food_on_empty(g0, spawn_step(s, p).0),
{
    let (g, seed) = s;
    if g.at(p) == Cell::Empty && draw_after(seed) < 25_000 {
        let o = opposite_spec(p, g.width as int);
        lemma_opposite(g, p);
        lemma_pair_write_symmetric(g, p, Cell::Food);
        let g1 = g.set(p, Cell::Food);
        let h = g1.set(o, Cell::Food);
        lemma_set_at(g, p, Cell::Food, p);
        lemma_set_at(g1, o, Cell::Food, o);
        assert(g.in_bounds(p));
        assert(g.at(o) == Cell::Empty);
        assert forall|q: Point| #[trigger] g0.in_bounds(q) implies h.at(q) == g0.at(q) || (g0.at(q) == Cell::Empty
            && h.at(q) == Cell::Food) by {
            assert(g.in_bounds(q));
            lemma_set_at(g, p, Cell::Food, q);
            lemma_set_at(g1, o, Cell::Food, q);
        }
    }
}

/// Laying food over the first `x` squares of row `y` of a symmetric board.
pub proof fn lemma_spawn_row(g0: GridModel<Cell>, s: (GridModel<Cell>, u64), y: int, x: int)
    requires
        s.0.wf(),
        symmetric(s.0),
        food_on_empty(g0, s.0),
        0 <= y < s.0.height,
        x <= s.0.width,
    ensures
        sweep_row(s, y, x, |s: (GridModel<Cell>, u64), p: Point| spawn_step(s, p)).0.wf(),
        symmetric(sweep_row(s, y, x, |s: (GridModel<Cell>, u64), p: Point| spawn_step(s, p)).0),
        food_on_empty(g0, sweep_row(s, y, x, |s: (GridModel<Cell>, u64), p: Point| spawn_step(s, p)).0),
    decreases x,
{
    if x > 0 {
        lemma_spawn_row(g0, s, y, x - 1);
        let m = sweep_row(s, y, x - 1, |s: (GridModel<Cell>, u64), p: Point| spawn_step(s, p));
        let p = Point { x: (x - 1) as i16, y: y as i16 };
        assert(m.0.in_bounds(p));
        lemma_spawn_step(g0, m, p);
    }
}

/// Laying food over the first `w` squares of the rows `0 .. y` of a symmetric board.
pub proof fn lemma_spawn_sweep(g0: GridModel<Cell>, s: (GridModel<Cell>, u64), w: int, y: int)
    requires
        s.0.wf(),
        symmetric(s.0),
        food_on_empty(g0, s.0),
        w <= s.0.width,
        y <= s.0.height,
    ensures
        sweep(s, w, y, |s: (GridModel<Cell>, u64), p: Point| spawn_step(s, p)).0.wf(),
        symmetric(sweep(s, w, y, |s: (GridModel<Cell>, u64), p: Point| spawn_step(s, p)).0),
        food_on_empty(g0, sweep(s, w, y, |s: (GridModel<Cell>, u64), p: Point| spawn_step(s, p)).0),
    decreases y,
{
    if y > 0 {
        lemma_spawn_sweep(g0, s, w, y - 1);
        let m = sweep(s, w, y - 1, |s: (GridModel<Cell>, u64), p: Point| spawn_step(s, p));
        lemma_spawn_row(g0, m, y - 1, w);
    }
}

/// Lays food, mirrored, on empty squares of the left half, each with a chance of one in forty.
pub fn spawn_food(grid: &mut Grid, rng: &mut SimpleRng)
    requires
        old(grid)@.wf(),
    ensures
        (final(grid)@, final(rng).seed) == sweep(
            (old(grid)@, old(rng).seed),
            (old(grid)@.width / 2) as int,
            old(grid)@.height as int,
            |s: (GridModel<Cell>, u64), p: Point| spawn_step(s, p),
        ),
        final(grid)@.wf(),
        final(grid)@.same_shape(old(grid)@),
        symmetric(old(grid)@) ==> symmetric(final(grid)@),
        symmetric(old(grid)@) ==> food_on_empty(old(grid)@, final(grid)@),
{
    let ghost s0 = (grid@, rng.seed);
    proof {
        if symmetric(grid@) {
            lemma_spawn_sweep(grid@, s0, grid@.width / 2, grid@.height as int);
        }
    }
    let ghost g0 = grid@;
    let half = grid.width / 2;
    let mut y: Coord = 0;
    while y < grid.height
        invariant
            0 <= y <= grid@.height,
            half == grid@.width / 2,
            grid@.wf(),
            grid@.same_shape(g0),
            symmetric(g0) ==> symmetric(grid@),
            (grid@, rng.seed) == sweep(s0, half as int, y as int, |s: (GridModel<Cell>, u64), p: Point| spawn_step(s, p)),
        decreases grid@.height - y,
    {
        let mut x: Coord = 0;
        while x < half
            invariant
                0 <= y < grid@.height,
                0 <= x <= half,
                half == grid@.width / 2,
                grid@.wf(),
                grid@.same_shape(g0),
                symmetric(g0) ==> symmetric(grid@),
                (grid@, rng.seed) == sweep_row(sweep(s0, half as int, y as int, |s: (GridModel<Cell>, u64), p: Point| spawn_step(s, p)), y as int, x as int, |s: (GridModel<Cell>, u64), p: Point| spawn_step(s, p)),
            decreases half - x,
        {
            let p = Point::new(x, y);
            proof {
                lemma_in_bounds_index_ok(grid@, p);
            }
            let ghost before = (grid@, rng.seed);
            if *grid.get(p) == Cell::Empty && rng.next_draw() < 25_000 {
                set_pair(grid, p, Cell::Food);
            }
            assert((grid@, rng.seed) == spawn_step(before, p));
            x += 1;
        }
        y += 1;
    }
}

/// A wall without walls next to it turns, with its mirror, into food.
pub open spec fn lonely_step(g: GridModel<Cell>, p: Point) -> GridModel<Cell> {
    if g.at(p) == Cell::Wall && neighbour_points(g, p).filter(|q: Point| g.at(q) == Cell::Wall).len() == 0 {
        g.set(p, Cell::Food).set(opposite_spec(p, g.width as int), Cell::Food)
    } else {
        g
    }
}

/// The number of the squares `pts` that hold a wall.
fn count_walls(grid: &Grid, pts: &Vec<Point>) -> (n: usize)
    requires
        grid@.wf(),
        forall|i: int| 0 <= i < pts@.len() ==> grid@.in_bounds(#[trigger] pts@[i]),
    ensures
        n == pts@.filter(|q: Point| grid@.at(q) == Cell::Wall).len(),
{
    let mut n: usize = 0;
    let mut i: usize = 0;
    while i < pts.len()
        invariant
            0 <= i <= pts@.len(),
            grid@.wf(),
            forall|k: int| 0 <= k < pts@.len() ==> grid@.in_bounds(#[trigger] pts@[k]),
            n == pts@.take(i as int).filter(|q: Point| grid@.at(q) == Cell::Wall).len(),
            n <= i,
        decreases pts@.len() - i,
    {
        proof {
            assert(pts@.take(i + 1) =~= pts@.take(i as int).push(pts@[i as int]));
            pts@.take(i as int).lemma_filter_push(pts@[i as int], |q: Point| grid@.at(q) == Cell::Wall);
            lemma_in_bounds_index_ok(grid@, pts@[i as int]);
        }
        if *grid.get(pts[i]) == Cell::Wall {
            n += 1;
        }
        i += 1;
    }
    assert(pts@.take(i as int) =~= pts@);
    n
}

/// Turns every wall that touches no other wall, with its mirror, into food; squares are visited
/// row after row and see the changes already made.
pub fn cleanup_lonely_walls(grid: &mut Grid)
    requires
        old(grid)@.wf(),
    ensures
        final(grid)@ == sweep(old(grid)@, old(grid)@.width as int, old(grid)@.height as int, |g: GridModel<Cell>, p: Point| lonely_step(g, p)),
        final(grid)@.wf(),
        final(grid)@.same_shape(old(grid)@),
        symmetric(old(grid)@) ==> symmetric(final(grid)@),
        symmetric(old(grid)@) ==> no_lonely_walls(final(grid)@),
{
    let ghost g0 = grid@;
    proof {
        if symmetric(g0) {
            lemma_lonely_sweep(g0, g0.height as int);
        }
    }
    let mut y: Coord = 0;
    while y < grid.height
        invariant
            0 <= y <= grid@.height,
            grid@.wf(),
            grid@.same_shape(g0),
            symmetric(g0) ==> symmetric(grid@),
            grid@ == sweep(g0, g0.width as int, y as int, |g: GridModel<Cell>, p: Point| lonely_step(g, p)),
        decreases grid@.height - y,
    {
        let mut x: Coord = 0;
        while x < grid.width
            invariant
                0 <= y < grid@.height,
                0 <= x <= grid@.width,
                grid@.wf(),
                grid@.same_shape(g0),
                symmetric(g0) ==> symmetric(grid@),
                grid@ == sweep_row(sweep(g0, g0.width as int, y as int, |g: GridModel<Cell>, p: Point| lonely_step(g, p)), y as int, x as int, |g: GridModel<Cell>, p: Point| lonely_step(g, p)),
            decreases grid@.width - x,
        {
            let p = Point::new(x, y);
            proof {
                lemma_in_bounds_index_ok(grid@, p);
            }
            let ghost before = grid@;
            if *grid.get(p) == Cell::Wall {
                let near = neighbours(grid, p);
                let count = count_walls(grid, &near);
                if count == 0 {
                    set_pair(grid, p, Cell::Food);
                }
            }
            assert(grid@ == lonely_step(before, p));
            x += 1;
        }
        y += 1;
    }
}

/// Some square next to `p` on the board holds a wall.
pub open spec fn touches_wall(g: GridModel<Cell>, p: Point) -> bool {
    exists|q: Point| #[trigger] adjacent(p, q) && g.in_bounds(q) && g.at(q) == Cell::Wall
}

/// No wall stands alone: every wall of the board touches another wall.
pub open spec fn no_lonely_walls(g: GridModel<Cell>) -> bool {
    forall|p: Point| #[trigger] g.in_bounds(p) && g.at(p) == Cell::Wall ==> touches_wall(g, p)
}

/// A square of the board has no wall among its neighbours exactly when it touches no wall.
pub proof fn lemma_lonely_iff(g: GridModel<Cell>, p: Point)
    requires
        g.in_bounds(p),
    ensures
        (neighbour_points(g, p).filter(|q: Point| g.at(q) == Cell::Wall).len() == 0) == !touches_wall(g, p),
{
    let np = neighbour_points(g, p);
    let f = |q: Point| g.at(q) == Cell::Wall;
    if touches_wall(g, p) {
        let q = choose|q: Point| #[trigger] adjacent(p, q) && g.in_bounds(q) && g.at(q) == Cell::Wall;
        lemma_neighbour_points(g, p, q);
        let i = choose|i: int| 0 <= i < np.len() && np[i] == q;
        np.lemma_filter_contains(f, i);
    }
    if np.filter(f).len() > 0 {
        let q = np.filter(f)[0];
        np.lemma_filter_pred(f, 0);
        assert(np.filter(f).contains(q));
        np.lemma_filter_contains_rev(f, q);
        lemma_neighbour_points(g, p, q);
        assert(adjacent(p, q) && g.in_bounds(q) && g.at(q) == Cell::Wall);
    }
}

/// On a symmetric board, the mirror of a square that touches no wall touches no wall either.
pub proof fn lemma_mirror_touches(g: GridModel<Cell>, p: Point)
    requires
        g.wf(),
        symmetric(g),
        g.in_bounds(p),
        !touches_wall(g, p),
    ensures
        !touches_wall(g, opposite_spec(p, g.width as int)),
{
    let o = opposite_spec(p, g.width as int);
    if touches_wall(g, o) {
        let q = choose|q: Point| #[trigger] adjacent(o, q) && g.in_bounds(q) && g.at(q) == Cell::Wall;
        let oq = opposite_spec(q, g.width as int);
        lemma_opposite(g, q);
        assert(g.in_bounds(q));
        assert(g.at(q) == g.at(oq));
        assert(adjacent(p, oq) && g.in_bounds(oq) && g.at(oq) == Cell::Wall);
    }
}

/// One step of the cleanup on a symmetric board keeps it symmetric and of the same shape, makes
/// no new wall, keeps a wall touching a wall when both stay, and leaves `p` a wall only when it
/// touches a wall.
pub proof fn lemma_lonely_step(g: GridModel<Cell>, p: Point)
    requires
        g.wf(),
        symmetric(g),
        g.in_bounds(p),
    ensures
        lonely_step(g, p).wf(),
        lonely_step(g, p).same_shape(g),
        symmetric(lonely_step(g, p)),
        forall|q: Point|
            #[trigger] g.in_bounds(q) && lonely_step(g, p).at(q) == Cell::Wall ==> g.at(q) == Cell::Wall,
        forall|q: Point|
            #[trigger] g.in_bounds(q) && lonely_step(g, p).at(q) == Cell::Wall && touches_wall(g, q) ==> touches_wall(
                lonely_step(g, p),
                q,
            ),
        lonely_step(g, p).at(p) == Cell::Wall ==> touches_wall(lonely_step(g, p), p),
{
    let h = lonely_step(g, p);
    let o = opposite_spec(p, g.width as int);
    lemma_opposite(g, p);
    lemma_lonely_iff(g, p);
    if g.at(p) == Cell::Wall && neighbour_points(g, p).filter(|q: Point| g.at(q) == Cell::Wall).len() == 0 {
        lemma_pair_write_symmetric(g, p, Cell::Food);
        lemma_mirror_touches(g, p);
        let g1 = g.set(p, Cell::Food);
        lemma_set_at(g, p, Cell::Food, p);
        lemma_set_at(g1, o, Cell::Food, o);
        assert forall|q: Point| #[trigger] g.in_bounds(q) implies h.at(q) == (if q == p || q == o {
            Cell::Food
        } else {
            g.at(q)
        }) by {
            lemma_set_at(g, p, Cell::Food, q);
            lemma_set_at(g1, o, Cell::Food, q);
        }
        assert forall|q: Point| #[trigger] g.in_bounds(q) && h.at(q) == Cell::Wall && touches_wall(g, q) implies touches_wall(h, q) by {
            let n = choose|n: Point| #[trigger] adjacent(q, n) && g.in_bounds(n) && g.at(n) == Cell::Wall;
            if n == p {
                assert(adjacent(p, q) && g.in_bounds(q) && g.at(q) == Cell::Wall);
            } else if n == o {
                assert(adjacent(o, q) && g.in_bounds(q) && g.at(q) == Cell::Wall);
            } else {
                assert(g.in_bounds(n));
                assert(h.at(n) == Cell::Wall);
            }
        }
        assert(g.in_bounds(p));
    }
}

/// Every wall among the squares a sweep visited before `(x, y)` touches a wall.
pub open spec fn swept_walls_touch(g: GridModel<Cell>, y: int, x: int) -> bool {
    forall|q: Point|
        #[trigger] g.in_bounds(q) && (q.y < y || (q.y == y && q.x < x)) && g.at(q) == Cell::Wall ==> touches_wall(g, q)
}

/// The cleanup of the first `x` squares of row `y` on a symmetric board.
pub proof fn lemma_lonely_row(s: GridModel<Cell>, y: int, x: int)
    requires
        s.wf(),
        symmetric(s),
        0 <= y < s.height,
        0 <= x <= s.width,
        swept_walls_touch(s, y, 0),
    ensures
        sweep_row(s, y, x, |g: GridModel<Cell>, p: Point| lonely_step(g, p)).wf(),
        sweep_row(s, y, x, |g: GridModel<Cell>, p: Point| lonely_step(g, p)).same_shape(s),
        symmetric(sweep_row(s, y, x, |g: GridModel<Cell>, p: Point| lonely_step(g, p))),
        swept_walls_touch(sweep_row(s, y, x, |g: GridModel<Cell>, p: Point| lonely_step(g, p)), y, x),
    decreases x,
{
    if x > 0 {
        lemma_lonely_row(s, y, x - 1);
        let r0 = sweep_row(s, y, x - 1, |g: GridModel<Cell>, p: Point| lonely_step(g, p));
        let p = Point { x: (x - 1) as i16, y: y as i16 };
        assert(r0.in_bounds(p));
        lemma_lonely_step(r0, p);
        let r = lonely_step(r0, p);
        assert(r == sweep_row(s, y, x, |g: GridModel<Cell>, p: Point| lonely_step(g, p)));
        assert forall|q: Point| #[trigger] r.in_bounds(q) && (q.y < y || (q.y == y && q.x < x)) && r.at(q) == Cell::Wall implies touches_wall(r, q) by {
            assert(r0.in_bounds(q));
            if q != p {
                assert(r0.at(q) == Cell::Wall);
            }
        }
    }
}

/// The cleanup of the first `y` rows of a symmetric board.
pub proof fn lemma_lonely_sweep(g0: GridModel<Cell>, y: int)
    requires
        g0.wf(),
        symmetric(g0),
        0 <= y <= g0.height,
    ensures
        sweep(g0, g0.width as int, y, |g: GridModel<Cell>, p: Point| lonely_step(g, p)).wf(),
        sweep(g0, g0.width as int, y, |g: GridModel<Cell>, p: Point| lonely_step(g, p)).same_shape(g0),
        symmetric(sweep(g0, g0.width as int, y, |g: GridModel<Cell>, p: Point| lonely_step(g, p))),
        swept_walls_touch(sweep(g0, g0.width as int, y, |g: GridModel<Cell>, p: Point| lonely_step(g, p)), y, 0),
        y == g0.height ==> no_lonely_walls(sweep(g0, g0.width as int, y, |g: GridModel<Cell>, p: Point| lonely_step(g, p))),
    decreases y,
{
    let w = g0.width as int;
    if y > 0 {
        lemma_lonely_sweep(g0, y - 1);
        let s = sweep(g0, w, y - 1, |g: GridModel<Cell>, p: Point| lonely_step(g, p));
        lemma_lonely_row(s, y - 1, w);
        let r = sweep_row(s, y - 1, w, |g: GridModel<Cell>, p: Point| lonely_step(g, p));
        assert(r == sweep(g0, w, y, |g: GridModel<Cell>, p: Point| lonely_step(g, p)));
        assert forall|q: Point| #[trigger] r.in_bounds(q) && (q.y < y || (q.y == y && q.x < 0)) && r.at(q) == Cell::Wall implies touches_wall(r, q) by {
            assert(r.in_bounds(q) && (q.y < y - 1 || (q.y == y - 1 && q.x < w)) && r.at(q) == Cell::Wall);
        }
    }
    let r = sweep(g0, w, y, |g: GridModel<Cell>, p: Point| lonely_step(g, p));
    if y == g0.height {
        assert forall|q: Point| #[trigger] r.in_bounds(q) && r.at(q) == Cell::Wall implies touches_wall(r, q) by {
            assert(r.in_bounds(q) && (q.y < y || (q.y == y && q.x < 0)) && r.at(q) == Cell::Wall);
        }
    }
}

// ------------------------------------------------------------------ regions

/// `q` is one of the four squares next to `p`.
pub open spec fn adjacent(p: Point, q: Point) -> bool {
    (p.x == q.x && (q.y == p.y + 1 || q.y == p.y - 1)) || (p.y == q.y && (q.x == p.x + 1 || q.x == p.x - 1))
}

/// The squares of the board next to some point of `r` that `pass` admits.
pub open spec fn spread(g: GridModel<Cell>, pass: spec_fn(Point) -> bool, r: Set<Point>) -> Set<Point> {
    Set::new(|q: Point| exists|p: Point| #![trigger r.contains(p), adjacent(p, q)] r.contains(p) && adjacent(p, q) && g.in_bounds(q) && pass(q))
}

/// The squares reached from `start` in at most `n` steps onto squares that `pass` admits.
pub open spec fn reach(g: GridModel<Cell>, pass: spec_fn(Point) -> bool, start: Point, n: nat) -> Set<Point>
    decreases n,
{
    if n == 0 {
        set![start]
    } else {
        let r = reach(g, pass, start, (n - 1) as nat);
        r.union(spread(g, pass, r))
    }
}

/// The squares reached from `start` in any number of steps onto squares that `pass` admits.
pub open spec fn region(g: GridModel<Cell>, pass: spec_fn(Point) -> bool, start: Point) -> Set<Point> {
    Set::new(|q: Point| exists|n: nat| #[trigger] reach(g, pass, start, n).contains(q))
}

/// The squares first reached in exactly `n` steps.
pub open spec fn reach_layer(g: GridModel<Cell>, pass: spec_fn(Point) -> bool, start: Point, n: nat) -> Set<Point> {
    if n == 0 {
        reach(g, pass, start, 0)
    } else {
        reach(g, pass, start, n).difference(reach(g, pass, start, (n - 1) as nat))
    }
}

/// What is reached in `m` steps is reached in `n >= m` steps.
pub proof fn lemma_reach_mono(g: GridModel<Cell>, pass: spec_fn(Point) -> bool, start: Point, m: nat, n: nat)
    requires
        m <= n,
    ensures
        reach(g, pass, start, m).subset_of(reach(g, pass, start, n)),
    decreases n - m,
{
    if m < n {
        lemma_reach_mono(g, pass, start, m, (n - 1) as nat);
    }
}

/// Once a step reaches nothing new, no later step does.
pub proof fn lemma_reach_stable(g: GridModel<Cell>, pass: spec_fn(Point) -> bool, start: Point, m: nat, n: nat)
    requires
        m <= n,
        reach(g, pass, start, m + 1) == reach(g, pass, start, m),
    ensures
        reach(g, pass, start, n) == reach(g, pass, start, m),
    decreases n - m,
{
    if m < n {
        lemma_reach_stable(g, pass, start, m, (n - 1) as nat);
    }
}

/// Spreading from a union is spreading from each part.
pub proof fn lemma_spread_union(g: GridModel<Cell>, pass: spec_fn(Point) -> bool, a: Set<Point>, b: Set<Point>)
    ensures
        spread(g, pass, a.union(b)) == spread(g, pass, a).union(spread(g, pass, b)),
{
    let ab = a.union(b);
    assert forall|q: Point| spread(g, pass, ab).contains(q) implies spread(g, pass, a).union(spread(g, pass, b)).contains(q) by {
        let p = choose|p: Point| #![trigger ab.contains(p), adjacent(p, q)] ab.contains(p) && adjacent(p, q) && g.in_bounds(q) && pass(q);
        if a.contains(p) {
            assert(spread(g, pass, a).contains(q));
        } else {
            assert(spread(g, pass, b).contains(q));
        }
    }
    assert forall|q: Point| spread(g, pass, a).union(spread(g, pass, b)).contains(q) implies spread(g, pass, ab).contains(q) by {
        if spread(g, pass, a).contains(q) {
            let p = choose|p: Point| #![trigger a.contains(p), adjacent(p, q)] a.contains(p) && adjacent(p, q) && g.in_bounds(q) && pass(q);
            assert(ab.contains(p));
        } else {
            let p = choose|p: Point| #![trigger b.contains(p), adjacent(p, q)] b.contains(p) && adjacent(p, q) && g.in_bounds(q) && pass(q);
            assert(ab.contains(p));
        }
    }
    assert(spread(g, pass, ab) =~= spread(g, pass, a).union(spread(g, pass, b)));
}

/// One step more reaches what the newest squares spread to.
pub proof fn lemma_reach_widen(g: GridModel<Cell>, pass: spec_fn(Point) -> bool, start: Point, n: nat)
    ensures
        reach(g, pass, start, n + 1) == reach(g, pass, start, n).union(spread(g, pass, reach_layer(g, pass, start, n))),
{
    if n > 0 {
        let prev = reach(g, pass, start, (n - 1) as nat);
        let w = reach(g, pass, start, n);
        lemma_reach_mono(g, pass, start, (n - 1) as nat, n);
        assert(w =~= prev.union(reach_layer(g, pass, start, n)));
        lemma_spread_union(g, pass, prev, reach_layer(g, pass, start, n));
        assert(reach(g, pass, start, n + 1) =~= w.union(spread(g, pass, reach_layer(g, pass, start, n))));
    }
}

/// When one step more reaches nothing new, the region is what was reached.
pub proof fn lemma_region_stable(g: GridModel<Cell>, pass: spec_fn(Point) -> bool, start: Point, m: nat)
    requires
        reach(g, pass, start, m + 1) == reach(g, pass, start, m),
    ensures
        region(g, pass, start) == reach(g, pass, start, m),
{
    assert forall|q: Point| region(g, pass, start).contains(q) implies reach(g, pass, start, m).contains(q) by {
        let n = choose|n: nat| #[trigger] reach(g, pass, start, n).contains(q);
        if n <= m {
            lemma_reach_mono(g, pass, start, n, m);
        } else {
            lemma_reach_stable(g, pass, start, m, n);
        }
    }
    assert forall|q: Point| reach(g, pass, start, m).contains(q) implies region(g, pass, start).contains(q) by {
        assert(reach(g, pass, start, m).contains(q));
    }
    assert(region(g, pass, start) =~= reach(g, pass, start, m));
}

/// The neighbours of a square of the board are the adjacent squares of the board.
pub proof fn lemma_neighbour_points(g: GridModel<Cell>, p: Point, q: Point)
    requires
        g.in_bounds(p),
    ensures
        neighbour_points(g, p).contains(q) <==> (g.in_bounds(q) && adjacent(p, q)),
{
    let f = |q: Point| g.in_bounds(q);
    let steps = directions().map_values(|d: Direction| step(p, d));
    assert(steps[0] == step(p, Direction::Right));
    assert(steps[1] == step(p, Direction::Left));
    assert(steps[2] == step(p, Direction::Up));
    assert(steps[3] == step(p, Direction::Down));
    if neighbour_points(g, p).contains(q) {
        let i = choose|i: int| 0 <= i < neighbour_points(g, p).len() && neighbour_points(g, p)[i] == q;
        steps.lemma_filter_pred(f, i);
        steps.lemma_filter_contains_rev(f, q);
    }
    if g.in_bounds(q) && adjacent(p, q) {
        let i: int = if q.x == p.x + 1 {
            0
        } else if q.x == p.x - 1 {
            1
        } else if q.y == p.y - 1 {
            2
        } else {
            3
        };
        assert(steps[i] == q);
        steps.lemma_filter_contains(f, i);
    }
}

/// `q` is a square of the board whose mark is set in `seen`.
pub open spec fn marked(g: GridModel<Cell>, seen: Seq<bool>, q: Point) -> bool {
    g.in_bounds(q) && seen[g.idx(q)]
}

/// The squares a search may step on: not marked in `seen`, and a wall when `want_wall`, anything
/// but a wall otherwise.
pub open spec fn search_pass(g: GridModel<Cell>, seen: Seq<bool>, want_wall: bool) -> spec_fn(Point) -> bool {
    |q: Point| !marked(g, seen, q) && (if want_wall { g.at(q) == Cell::Wall } else { g.at(q) != Cell::Wall })
}

/// `acc` with the squares of `near`, in order, that `pass` admits and that are neither in `seen`
/// nor already listed.
pub open spec fn add_neighbours(pass: spec_fn(Point) -> bool, seen: Set<Point>, acc: Seq<Point>, near: Seq<Point>) -> Seq<Point>
    decreases near.len(),
{
    if near.len() == 0 {
        acc
    } else {
        let a = add_neighbours(pass, seen, acc, near.drop_last());
        let q = near.last();
        if pass(q) && !seen.contains(q) && !a.contains(q) {
            a.push(q)
        } else {
            a
        }
    }
}

/// The next layer of a breadth-first search: the squares of `frontier`, in order, each adding
/// its neighbours on the board (Right, Left, Up, Down) that `pass` admits and that are neither
/// in `seen` nor listed yet.
pub open spec fn next_layer(g: GridModel<Cell>, pass: spec_fn(Point) -> bool, seen: Set<Point>, frontier: Seq<Point>) -> Seq<Point>
    decreases frontier.len(),
{
    if frontier.len() == 0 {
        Seq::empty()
    } else {
        add_neighbours(pass, seen, next_layer(g, pass, seen, frontier.drop_last()), neighbour_points(g, frontier.last()))
    }
}

/// The squares found by a breadth-first search from `start` after `d` layers, and its last layer.
pub open spec fn bfs_layers(g: GridModel<Cell>, pass: spec_fn(Point) -> bool, start: Point, d: nat) -> (Seq<Point>, Seq<Point>)
    decreases d,
{
    if d == 0 {
        (seq![start], seq![start])
    } else {
        let (found, frontier) = bfs_layers(g, pass, start, (d - 1) as nat);
        let next = next_layer(g, pass, found.to_set(), frontier);
        (found + next, next)
    }
}

/// `found` lists breadth first the squares reached from `start` in steps onto squares of the
/// board that `pass` admits: `start`, then layer after layer until a layer adds nothing.
pub open spec fn breadth_first(g: GridModel<Cell>, pass: spec_fn(Point) -> bool, start: Point, found: Seq<Point>) -> bool {
    exists|d: nat|
        #[trigger] bfs_layers(g, pass, start, d).0 == found && next_layer(g, pass, found.to_set(), bfs_layers(g, pass, start, d).1).len() == 0
}

/// What was listed stays listed.
pub proof fn lemma_add_neighbours_keeps(pass: spec_fn(Point) -> bool, seen: Set<Point>, acc: Seq<Point>, near: Seq<Point>, q: Point)
    requires
        acc.contains(q),
    ensures
        add_neighbours(pass, seen, acc, near).contains(q),
    decreases near.len(),
{
    if near.len() > 0 {
        lemma_add_neighbours_keeps(pass, seen, acc, near.drop_last(), q);
        let a = add_neighbours(pass, seen, acc, near.drop_last());
        let i = choose|i: int| 0 <= i < a.len() && a[i] == q;
        assert(a.push(near.last())[i] == q);
    }
}

/// Leaving out the squares of `seen` and those listed at first through the admitted squares is
/// leaving them out through `seen`.
pub proof fn lemma_add_neighbours_shift(
    pass1: spec_fn(Point) -> bool,
    pass0: spec_fn(Point) -> bool,
    seen: Set<Point>,
    acc: Seq<Point>,
    near: Seq<Point>,
)
    requires
        forall|q: Point| #[trigger] pass1(q) == (pass0(q) && !seen.contains(q) && !acc.contains(q)),
    ensures
        add_neighbours(pass1, Set::empty(), acc, near) == add_neighbours(pass0, seen, acc, near),
    decreases near.len(),
{
    if near.len() > 0 {
        lemma_add_neighbours_shift(pass1, pass0, seen, acc, near.drop_last());
        let q = near.last();
        if acc.contains(q) {
            lemma_add_neighbours_keeps(pass0, seen, acc, near.drop_last(), q);
        }
    }
}

/// Marks, and appends to `next`, the squares next to `p` that the search may step on and that
/// are not marked yet.
fn spread_from(grid: &Grid, p: Point, seen: &mut Vec<bool>, next: &mut Vec<Point>, want_wall: bool)
    requires
        grid@.wf(),
        grid@.in_bounds(p),
        old(seen)@.len() == grid@.cells.len(),
        forall|a: int| 0 <= a < old(next)@.len() ==> marked(grid@, old(seen)@, #[trigger] old(next)@[a]),
        old(next)@.no_duplicates(),
    ensures
        final(seen)@.len() == old(seen)@.len(),
        final(next)@.len() >= old(next)@.len(),
        final(next)@.take(old(next)@.len() as int) == old(next)@,
        final(next)@.no_duplicates(),
        forall|a: int| 0 <= a < final(next)@.len() ==> marked(grid@, final(seen)@, #[trigger] final(next)@[a]),
        final(next)@.to_set() == old(next)@.to_set().union(
            spread(grid@, search_pass(grid@, old(seen)@, want_wall), set![p]),
        ),
        forall|q: Point| #[trigger] marked(grid@, final(seen)@, q) == (marked(grid@, old(seen)@, q) || spread(grid@, search_pass(grid@, old(seen)@, want_wall), set![p]).contains(q)),
        crate::ai2::count_false(final(seen)@) + final(next)@.len() == crate::ai2::count_false(old(seen)@) + old(next)@.len(),
        final(next)@ == add_neighbours(search_pass(grid@, old(seen)@, want_wall), Set::empty(), old(next)@, neighbour_points(grid@, p)),
{
    let ghost g = grid@;
    let ghost s0 = seen@;
    let ghost n0 = next@;
    let ghost pass = search_pass(g, s0, want_wall);
    let near = neighbours(grid, p);
    let mut m: usize = 0;
    while m < near.len()
        invariant
            0 <= m <= near@.len(),
            g == grid@,
            g.wf(),
            g.in_bounds(p),
            near@ == neighbour_points(g, p),
            forall|i: int| 0 <= i < near@.len() ==> g.in_bounds(#[trigger] near@[i]),
            seen@.len() == s0.len(),
            s0.len() == g.cells.len(),
            pass == search_pass(g, s0, want_wall),
            next@.len() >= n0.len(),
            next@.take(n0.len() as int) == n0,
            next@.no_duplicates(),
            forall|a: int| 0 <= a < next@.len() ==> marked(g, seen@, #[trigger] next@[a]),
            next@.to_set() == n0.to_set().union(near@.take(m as int).to_set().filter(pass)),
            forall|q: Point| #[trigger] marked(g, seen@, q) == (marked(g, s0, q) || near@.take(m as int).to_set().filter(pass).contains(q)),
            crate::ai2::count_false(seen@) + next@.len() == crate::ai2::count_false(s0) + n0.len(),
            forall|a: int| 0 <= a < n0.len() ==> marked(g, s0, #[trigger] n0[a]),
            next@ == add_neighbours(pass, Set::empty(), n0, near@.take(m as int)),
        decreases near@.len() - m,
    {
        let q = near[m];
        proof {
            assert(near@.take(m + 1).drop_last() =~= near@.take(m as int));
            if next@.contains(q) {
                let a = choose|a: int| 0 <= a < next@.len() && next@[a] == q;
                assert(marked(g, seen@, next@[a]));
            }
            if !marked(g, seen@, q) && pass(q) {
                if n0.contains(q) {
                    let a = choose|a: int| 0 <= a < n0.len() && n0[a] == q;
                    assert(marked(g, s0, n0[a]));
                }
                if next@.contains(q) {
                    assert(next@.to_set().contains(q));
                    assert(near@.take(m as int).to_set().filter(pass).contains(q));
                }
            }
        }
        proof {
            lemma_in_bounds_index_ok(g, q);
            assert(near@.take(m + 1) =~= near@.take(m as int).push(q));
            near@.take(m as int).lemma_push_to_set_commute(q);
        }
        let qi = grid.index_of(q);
        let c = *grid.get(q);
        let fits = if want_wall { c == Cell::Wall } else { c != Cell::Wall };
        let ghost sb = seen@;
        let ghost nb = next@;
        proof {
            assert(marked(g, seen@, q) == seen@[qi as int]);
            if marked(g, seen@, q) && !marked(g, s0, q) && pass(q) {
                assert(near@.take(m as int).to_set().filter(pass).contains(q));
                assert(next@.to_set().contains(q));
            }
            assert((!seen@[qi as int] && fits) == (pass(q) && !next@.contains(q)));
            assert(near@.take(m + 1).last() == q);
            assert(add_neighbours(pass, Set::empty(), n0, near@.take(m + 1)) == if pass(q) && !next@.contains(q) {
                next@.push(q)
            } else {
                next@
            });
        }
        if !seen[qi] && fits {
            proof {
                crate::ai2::lemma_count_false_mark(seen@, qi as int);
                assert(!marked(g, sb, q));
                assert(!marked(g, s0, q));
                assert(pass(q));
            }
            seen.set(qi, true);
            next.push(q);
            proof {
                nb.lemma_push_to_set_commute(q);
                assert forall|r: Point| #[trigger] marked(g, seen@, r) == (marked(g, sb, r) || r == q) by {
                    if g.in_bounds(r) {
                        lemma_in_bounds_index_ok(g, r);
                        if r != q && g.idx(r) == g.idx(q) {
                            lemma_idx_eq(g, r, q);
                        }
                    }
                }
                assert forall|a: int| 0 <= a < next@.len() implies marked(g, seen@, #[trigger] next@[a]) by {
                    if a < nb.len() {
                        assert(marked(g, sb, nb[a]));
                    }
                }
                assert(next@.take(n0.len() as int) =~= nb.take(n0.len() as int));
                assert forall|a: int, b: int| 0 <= a < b < next@.len() implies next@[a] != next@[b] by {
                    if b == nb.len() {
                        assert(marked(g, sb, nb[a]));
                    }
                }
                assert(next@.to_set() =~= n0.to_set().union(near@.take(m + 1).to_set().filter(pass)));
            }
        } else {
            proof {
                if marked(g, sb, q) && !marked(g, s0, q) {
                    assert(near@.take(m as int).to_set().filter(pass).contains(q));
                }
                assert(near@.take(m + 1).to_set().filter(pass) =~= near@.take(m as int).to_set().filter(pass).union(
                    if pass(q) { set![q] } else { Set::empty() },
                ));
                if pass(q) {
                    assert(marked(g, sb, q));
                    assert(near@.take(m as int).to_set().filter(pass).contains(q));
                }
                assert(next@.to_set() =~= n0.to_set().union(near@.take(m + 1).to_set().filter(pass)));
            }
        }
        m += 1;
    }
    proof {
        assert(near@.take(m as int) =~= near@);
        assert(near@.take(m as int) == neighbour_points(g, p));
        assert forall|q: Point| near@.to_set().filter(pass).contains(q) == spread(g, pass, set![p]).contains(q) by {
            lemma_neighbour_points(g, p, q);
            if spread(g, pass, set![p]).contains(q) {
                let pp = choose|pp: Point| #![trigger set![p].contains(pp), adjacent(pp, q)] set![p].contains(pp) && adjacent(pp, q) && g.in_bounds(q) && pass(q);
                assert(pp == p);
            }
            if near@.to_set().filter(pass).contains(q) {
                assert(set![p].contains(p));
                assert(adjacent(p, q));
            }
        }
        assert(near@.to_set().filter(pass) =~= spread(g, pass, set![p]));
    }
}

/// Steps onto squares unmarked in `cur` are the steps `pass0` admits outside `extra`, when `cur`
/// marks what `seen0` marks plus `extra`.
pub proof fn lemma_spread_marked(g: GridModel<Cell>, seen0: Seq<bool>, cur: Seq<bool>, want_wall: bool, extra: Set<Point>, p: Point)
    requires
        forall|q: Point| #[trigger] marked(g, cur, q) == (marked(g, seen0, q) || extra.contains(q)),
    ensures
        spread(g, search_pass(g, cur, want_wall), set![p]) == spread(g, search_pass(g, seen0, want_wall), set![p]).difference(extra),
{
    let pc = search_pass(g, cur, want_wall);
    let p0 = search_pass(g, seen0, want_wall);
    assert forall|q: Point| spread(g, pc, set![p]).contains(q) == spread(g, p0, set![p]).difference(extra).contains(q) by {
        assert(marked(g, cur, q) == (marked(g, seen0, q) || extra.contains(q)));
        if spread(g, pc, set![p]).contains(q) {
            let pp = choose|pp: Point| #![trigger set![p].contains(pp), adjacent(pp, q)] set![p].contains(pp) && adjacent(pp, q) && g.in_bounds(q) && pc(q);
            assert(set![p].contains(pp) && adjacent(pp, q));
        }
        if spread(g, p0, set![p]).difference(extra).contains(q) {
            let pp = choose|pp: Point| #![trigger set![p].contains(pp), adjacent(pp, q)] set![p].contains(pp) && adjacent(pp, q) && g.in_bounds(q) && p0(q);
            assert(set![p].contains(pp) && adjacent(pp, q));
        }
    }
    assert(spread(g, pc, set![p]) =~= spread(g, p0, set![p]).difference(extra));
}

/// Marks and lists the region of `start`: the squares reached from it in steps onto squares not
/// marked in `seen` that are walls when `want_wall` and not walls otherwise. The list starts with
/// `start` and goes outwards one step at a time.
fn explore(grid: &Grid, start: Point, seen: &mut Vec<bool>, want_wall: bool) -> (found: Vec<Point>)
    requires
        grid@.wf(),
        grid@.in_bounds(start),
        old(seen)@.len() == grid@.cells.len(),
    ensures
        breadth_first(grid@, search_pass(grid@, old(seen)@, want_wall), start, found@),
        found@.to_set() == region(grid@, search_pass(grid@, old(seen)@, want_wall), start),
        found@.no_duplicates(),
        found@.len() > 0,
        found@[0] == start,
        forall|a: int| 0 <= a < found@.len() ==> grid@.in_bounds(#[trigger] found@[a]),
        final(seen)@.len() == old(seen)@.len(),
        forall|q: Point| #[trigger] marked(grid@, final(seen)@, q) == (marked(grid@, old(seen)@, q) || region(
            grid@,
            search_pass(grid@, old(seen)@, want_wall),
            start,
        ).contains(q)),
{
    let ghost g = grid@;
    let ghost s0 = seen@;
    let ghost pass = search_pass(g, s0, want_wall);
    proof {
        lemma_in_bounds_index_ok(g, start);
    }
    let si = grid.index_of(start);
    let ghost sb = seen@;
    if !seen[si] {
        proof {
            crate::ai2::lemma_count_false_mark(seen@, si as int);
        }
    }
    seen.set(si, true);
    proof {
        assert forall|r: Point| #[trigger] marked(g, seen@, r) == (marked(g, s0, r) || reach(g, pass, start, 0).contains(r)) by {
            if g.in_bounds(r) {
                lemma_in_bounds_index_ok(g, r);
                if r != start && g.idx(r) == g.idx(start) {
                    lemma_idx_eq(g, r, start);
                }
            }
        }
        crate::ai2::lemma_count_false_le(seen@);
    }
    let mut found: Vec<Point> = vec![start];
    let mut frontier: Vec<Point> = vec![start];
    proof {
        assert(found@ =~= seq![start]);
        assert(found@.to_set() =~= set![start]);
    }
    let ghost mut d: nat = 0;
    loop
        invariant
            g == grid@,
            g.wf(),
            g.in_bounds(start),
            pass == search_pass(g, s0, want_wall),
            s0.len() == g.cells.len(),
            seen@.len() == s0.len(),
            found@.to_set() == reach(g, pass, start, d),
            found@.no_duplicates(),
            found@.len() > 0,
            found@[0] == start,
            forall|a: int| 0 <= a < found@.len() ==> g.in_bounds(#[trigger] found@[a]),
            frontier@.to_set() == reach_layer(g, pass, start, d),
            forall|a: int| 0 <= a < frontier@.len() ==> g.in_bounds(#[trigger] frontier@[a]),
            forall|q: Point| #[trigger] marked(g, seen@, q) == (marked(g, s0, q) || reach(g, pass, start, d).contains(q)),
            found@ == bfs_layers(g, pass, start, d).0,
            frontier@ == bfs_layers(g, pass, start, d).1,
        ensures
            breadth_first(g, pass, start, found@),
            found@.to_set() == region(g, pass, start),
            found@.no_duplicates(),
            found@.len() > 0,
            found@[0] == start,
            forall|a: int| 0 <= a < found@.len() ==> g.in_bounds(#[trigger] found@[a]),
            seen@.len() == s0.len(),
            forall|q: Point| #[trigger] marked(g, seen@, q) == (marked(g, s0, q) || region(g, pass, start).contains(q)),
        decreases crate::ai2::count_false(seen@),
    {
        let ghost rd = reach(g, pass, start, d);
        let ghost cf0 = crate::ai2::count_false(seen@);
        let mut next: Vec<Point> = Vec::new();
        let mut k: usize = 0;
        proof {
            assert(next@.to_set() =~= Set::empty());
            assert(frontier@.take(0).to_set() =~= Set::empty());
            assert(spread(g, pass, Set::empty()) =~= Set::empty());
            assert forall|q: Point| #[trigger] marked(g, seen@, q) == (marked(g, s0, q) || rd.union(next@.to_set()).contains(q)) by {}
        }
        while k < frontier.len()
            invariant
                0 <= k <= frontier@.len(),
                g == grid@,
                g.wf(),
                pass == search_pass(g, s0, want_wall),
                s0.len() == g.cells.len(),
                seen@.len() == s0.len(),
                rd == reach(g, pass, start, d),
                forall|a: int| 0 <= a < frontier@.len() ==> g.in_bounds(#[trigger] frontier@[a]),
                next@.no_duplicates(),
                forall|a: int| 0 <= a < next@.len() ==> marked(g, seen@, #[trigger] next@[a]),
                forall|a: int| 0 <= a < next@.len() ==> g.in_bounds(#[trigger] next@[a]),
                next@.to_set() == spread(g, pass, frontier@.take(k as int).to_set()).difference(rd),
                forall|q: Point| #[trigger] marked(g, seen@, q) == (marked(g, s0, q) || rd.union(next@.to_set()).contains(q)),
                crate::ai2::count_false(seen@) + next@.len() == cf0,
                next@ == next_layer(g, pass, rd, frontier@.take(k as int)),
            decreases frontier@.len() - k,
        {
            let p = frontier[k];
            let ghost sb = seen@;
            let ghost nb = next@;
            proof {
                lemma_spread_marked(g, s0, sb, want_wall, rd.union(nb.to_set()), p);
                assert forall|q: Point| #[trigger] search_pass(g, sb, want_wall)(q) == (pass(q) && !rd.contains(q) && !nb.contains(q)) by {
                    assert(marked(g, sb, q) == (marked(g, s0, q) || rd.union(nb.to_set()).contains(q)));
                }
                lemma_add_neighbours_shift(search_pass(g, sb, want_wall), pass, rd, nb, neighbour_points(g, p));
                assert(frontier@.take(k + 1).drop_last() =~= frontier@.take(k as int));
                assert(frontier@.take(k + 1).last() == p);
            }
            spread_from(grid, p, seen, &mut next, want_wall);
            proof {
                assert forall|a: int| 0 <= a < next@.len() implies g.in_bounds(#[trigger] next@[a]) by {
                    assert(marked(g, seen@, next@[a]));
                }
                assert(frontier@.take(k + 1) =~= frontier@.take(k as int).push(p));
                frontier@.take(k as int).lemma_push_to_set_commute(p);
                assert(frontier@.take(k + 1).to_set() =~= frontier@.take(k as int).to_set().union(set![p]));
                lemma_spread_union(g, pass, frontier@.take(k as int).to_set(), set![p]);
                assert(next@.to_set() =~= spread(g, pass, frontier@.take(k + 1).to_set()).difference(rd));
                assert forall|q: Point| #[trigger] marked(g, seen@, q) == (marked(g, s0, q) || rd.union(next@.to_set()).contains(q)) by {
                    assert(marked(g, seen@, q) == (marked(g, sb, q) || spread(g, search_pass(g, sb, want_wall), set![p]).contains(q)));
                    assert(marked(g, sb, q) == (marked(g, s0, q) || rd.union(nb.to_set()).contains(q)));
                }
            }
            k += 1;
        }
        proof {
            assert(frontier@.take(k as int) =~= frontier@);
            lemma_reach_widen(g, pass, start, d);
            assert(reach(g, pass, start, d + 1) =~= rd.union(next@.to_set()));
            assert(next@ == next_layer(g, pass, found@.to_set(), bfs_layers(g, pass, start, d).1));
        }
        if next.len() == 0 {
            proof {
                assert(next@.to_set() =~= Set::empty());
                assert(reach(g, pass, start, d + 1) =~= rd);
                lemma_region_stable(g, pass, start, d);
                assert(bfs_layers(g, pass, start, d).0 == found@);
            }
            break;
        }
        let ghost fb = found@;
        proof {
            assert forall|i: int, j: int| 0 <= i < fb.len() && 0 <= j < next@.len() implies fb[i] != next@[j] by {
                assert(fb.to_set().contains(fb[i]));
                assert(next@.to_set().contains(next@[j]));
            }
            vstd::seq_lib::lemma_no_dup_in_concat(fb, next@);
            let cat = fb + next@;
            assert forall|x: Point| cat.to_set().contains(x) == fb.to_set().union(next@.to_set()).contains(x) by {
                if cat.to_set().contains(x) {
                    let i = choose|i: int| 0 <= i < cat.len() && cat[i] == x;
                    if i < fb.len() {
                        assert(fb[i] == x);
                    } else {
                        assert(next@[i - fb.len()] == x);
                    }
                }
                if fb.to_set().contains(x) {
                    let i = choose|i: int| 0 <= i < fb.len() && fb[i] == x;
                    assert(cat[i] == x);
                }
                if next@.to_set().contains(x) {
                    let i = choose|i: int| 0 <= i < next@.len() && next@[i] == x;
                    assert(cat[i + fb.len()] == x);
                }
            }
            assert(cat.to_set() =~= fb.to_set().union(next@.to_set()));
        }
        let mut more = next.clone();
        found.append(&mut more);
        proof {
            assert(found@ =~= fb + next@);
            assert(bfs_layers(g, pass, start, d + 1).0 == found@);
            assert(bfs_layers(g, pass, start, d + 1).1 == next@);
            assert(reach_layer(g, pass, start, d + 1) =~= next@.to_set());
            d = d + 1;
        }
        frontier = next;
    }
    found
}

/// Collects, breadth first, the squares reachable from `start` through squares that are neither
/// walls nor marked in `visited`, marking them; `start` itself is always included.
pub fn flood_fill_empty(grid: &Grid, start: Point, visited: &mut Vec<bool>) -> (comp: Vec<Point>)
    requires
        grid@.wf(),
        grid@.in_bounds(start),
        old(visited)@.len() == grid@.cells.len(),
    ensures
        breadth_first(grid@, search_pass(grid@, old(visited)@, false), start, comp@),
        comp@.to_set() == region(grid@, search_pass(grid@, old(visited)@, false), start),
        comp@.no_duplicates(),
        forall|a: int| 0 <= a < comp@.len() ==> grid@.in_bounds(#[trigger] comp@[a]),
        final(visited)@.len() == old(visited)@.len(),
        forall|q: Point| #[trigger] marked(grid@, final(visited)@, q) == (marked(grid@, old(visited)@, q) || region(
            grid@,
            search_pass(grid@, old(visited)@, false),
            start,
        ).contains(q)),
{
    explore(grid, start, visited, false)
}

/// The grid with `v` written at every square of `pts` and at the mirror of each.
pub open spec fn paint_pairs(g: GridModel<Cell>, pts: Set<Point>, v: Cell) -> GridModel<Cell> {
    GridModel {
        width: g.width,
        height: g.height,
        cells: Seq::new(
            g.cells.len(),
            |i: int|
                if exists|q: Point| #[trigger] pts.contains(q) && (g.idx(q) == i || g.idx(opposite_spec(q, g.width as int)) == i) {
                    v
                } else {
                    g.cells[i]
                },
        ),
    }
}

/// Painting no square changes nothing.
pub proof fn lemma_paint_pairs_empty(g: GridModel<Cell>, v: Cell)
    ensures
        paint_pairs(g, Set::empty(), v) == g,
{
    assert(paint_pairs(g, Set::empty(), v).cells =~= g.cells);
}

/// Painting one more square and its mirror.
pub proof fn lemma_paint_pairs_insert(g: GridModel<Cell>, pts: Set<Point>, c: Point, v: Cell)
    requires
        g.wf(),
        g.in_bounds(c),
    ensures
        paint_pairs(g, pts.insert(c), v) == paint_pairs(g, pts, v).set(c, v).set(opposite_spec(c, g.width as int), v),
{
    let o = opposite_spec(c, g.width as int);
    lemma_opposite(g, c);
    lemma_in_bounds_index_ok(g, c);
    lemma_in_bounds_index_ok(g, o);
    let a = paint_pairs(g, pts.insert(c), v);
    let b = paint_pairs(g, pts, v).set(c, v).set(o, v);
    assert forall|i: int| 0 <= i < a.cells.len() implies a.cells[i] == b.cells[i] by {
        if i == g.idx(c) || i == g.idx(o) {
            assert(pts.insert(c).contains(c));
        } else {
            let ea = exists|q: Point| #[trigger] pts.insert(c).contains(q) && (g.idx(q) == i || g.idx(opposite_spec(q, g.width as int)) == i);
            let eb = exists|q: Point| #[trigger] pts.contains(q) && (g.idx(q) == i || g.idx(opposite_spec(q, g.width as int)) == i);
            if ea {
                let q = choose|q: Point| #[trigger] pts.insert(c).contains(q) && (g.idx(q) == i || g.idx(opposite_spec(q, g.width as int)) == i);
                assert(q != c);
                assert(pts.contains(q));
                assert(eb);
            }
            if eb {
                let q = choose|q: Point| #[trigger] pts.contains(q) && (g.idx(q) == i || g.idx(opposite_spec(q, g.width as int)) == i);
                assert(pts.insert(c).contains(q));
                assert(ea);
            }
            assert(ea == eb);
        }
    }
    assert(a.cells =~= b.cells);
}

/// Writes `v` at each square of `pts` and at its mirror.
fn paint_pairs_exec(grid: &mut Grid, pts: &Vec<Point>, v: Cell)
    requires
        old(grid)@.wf(),
        forall|a: int| 0 <= a < pts@.len() ==> old(grid)@.in_bounds(#[trigger] pts@[a]),
    ensures
        final(grid)@ == paint_pairs(old(grid)@, pts@.to_set(), v),
        final(grid)@.wf(),
        final(grid)@.same_shape(old(grid)@),
        symmetric(old(grid)@) ==> symmetric(final(grid)@),
{
    let ghost g0 = grid@;
    proof {
        lemma_paint_pairs_empty(g0, v);
        assert(pts@.take(0).to_set() =~= Set::empty());
    }
    let mut j: usize = 0;
    while j < pts.len()
        invariant
            0 <= j <= pts@.len(),
            g0.wf(),
            forall|a: int| 0 <= a < pts@.len() ==> g0.in_bounds(#[trigger] pts@[a]),
            grid@ == paint_pairs(g0, pts@.take(j as int).to_set(), v),
            grid@.wf(),
            grid@.same_shape(g0),
            symmetric(g0) ==> symmetric(grid@),
        decreases pts@.len() - j,
    {
        let c = pts[j];
        proof {
            assert(pts@.take(j + 1) =~= pts@.take(j as int).push(c));
            pts@.take(j as int).lemma_push_to_set_commute(c);
            assert(g0.in_bounds(c));
            lemma_paint_pairs_insert(g0, pts@.take(j as int).to_set(), c, v);
            assert(grid@.in_bounds(c));
        }
        set_pair(grid, c, v);
        j += 1;
    }
    assert(pts@.take(j as int) =~= pts@);
}

/// The squares a pocket search may step on: not yet visited, and not walls.
pub open spec fn pocket_pass(g: GridModel<Cell>, visited: Set<Point>) -> spec_fn(Point) -> bool {
    |q: Point| !visited.contains(q) && g.at(q) != Cell::Wall
}

/// At an open square not yet visited: its pocket (the open squares it reaches through unvisited
/// open squares) becomes visited, and when the pocket has fewer than ten squares it is walled
/// up, mirrored.
pub open spec fn pocket_step(s: (GridModel<Cell>, Set<Point>), p: Point) -> (GridModel<Cell>, Set<Point>) {
    let (g, vis) = s;
    if g.at(p) == Cell::Wall || vis.contains(p) {
        s
    } else {
        let comp = region(g, pocket_pass(g, vis), p);
        (if comp.len() < 10 { paint_pairs(g, comp, Cell::Wall) } else { g }, vis.union(comp))
    }
}

/// The squares of the board marked in `seen`.
pub open spec fn marked_set(g: GridModel<Cell>, seen: Seq<bool>) -> Set<Point> {
    Set::new(|q: Point| marked(g, seen, q))
}

/// Walls up, mirrored, every pocket of fewer than ten open squares; squares are visited row
/// after row and each pocket is looked at once, on the grid as it is by then.
pub fn fill_small_air_pockets(grid: &mut Grid)
    requires
        old(grid)@.wf(),
    ensures
        final(grid)@ == sweep(
            (old(grid)@, Set::<Point>::empty()),
            old(grid)@.width as int,
            old(grid)@.height as int,
            |s: (GridModel<Cell>, Set<Point>), p: Point| pocket_step(s, p),
        ).0,
        final(grid)@.wf(),
        final(grid)@.same_shape(old(grid)@),
        symmetric(old(grid)@) ==> symmetric(final(grid)@),
        symmetric(old(grid)@) ==> no_small_pockets(final(grid)@),
{
    let ghost g0 = grid@;
    proof {
        if symmetric(g0) {
            lemma_no_small_pockets(g0);
        }
    }
    let mut visited = crate::ai2::all_unmarked(grid.cells.len());
    proof {
        assert(marked_set(g0, visited@) =~= Set::<Point>::empty()) by {
            assert forall|q: Point| !marked(g0, visited@, q) by {
                if g0.in_bounds(q) {
                    lemma_in_bounds_index_ok(g0, q);
                }
            }
        }
    }
    let mut y: Coord = 0;
    while y < grid.height
        invariant
            0 <= y <= grid@.height,
            g0.wf(),
            grid@.wf(),
            grid@.same_shape(g0),
            visited@.len() == g0.cells.len(),
            symmetric(g0) ==> symmetric(grid@),
            (grid@, marked_set(g0, visited@)) == sweep(
                (g0, Set::<Point>::empty()),
                g0.width as int,
                y as int,
                |s: (GridModel<Cell>, Set<Point>), p: Point| pocket_step(s, p),
            ),
        decreases grid@.height - y,
    {
        let mut x: Coord = 0;
        while x < grid.width
            invariant
                0 <= y < grid@.height,
                0 <= x <= grid@.width,
                g0.wf(),
                grid@.wf(),
                grid@.same_shape(g0),
                visited@.len() == g0.cells.len(),
                symmetric(g0) ==> symmetric(grid@),
                (grid@, marked_set(g0, visited@)) == sweep_row(
                    sweep(
                        (g0, Set::<Point>::empty()),
                        g0.width as int,
                        y as int,
                        |s: (GridModel<Cell>, Set<Point>), p: Point| pocket_step(s, p),
                    ),
                    y as int,
                    x as int,
                    |s: (GridModel<Cell>, Set<Point>), p: Point| pocket_step(s, p),
                ),
            decreases grid@.width - x,
        {
            let p = Point::new(x, y);
            let ghost gb = grid@;
            let ghost vb = marked_set(g0, visited@);
            proof {
                lemma_in_bounds_index_ok(grid@, p);
            }
            let pi = grid.index_of(p);
            if *grid.get(p) == Cell::Wall || visited[pi] {
                proof {
                    assert(vb.contains(p) == visited@[pi as int]);
                }
            } else {
                let ghost seen0 = visited@;
                proof {
                    assert(!vb.contains(p));
                    assert(search_pass(grid@, seen0, false) =~= pocket_pass(gb, vb)) by {
                        assert forall|q: Point| #[trigger] search_pass(grid@, seen0, false)(q) == pocket_pass(gb, vb)(q) by {}
                    }
                }
                let comp = flood_fill_empty(grid, p, &mut visited);
                proof {
                    assert forall|q: Point| #[trigger] marked_set(g0, visited@).contains(q) == vb.union(comp@.to_set()).contains(q) by {
                        assert(marked(grid@, visited@, q) == (marked(grid@, seen0, q) || region(grid@, search_pass(grid@, seen0, false), p).contains(q)));
                        assert(marked(grid@, visited@, q) == marked(g0, visited@, q));
                        assert(marked(grid@, seen0, q) == marked(g0, seen0, q));
                    }
                    assert(marked_set(g0, visited@) =~= vb.union(comp@.to_set()));
                    comp@.unique_seq_to_set();
                }
                if comp.len() < 10 {
                    paint_pairs_exec(grid, &comp, Cell::Wall);
                }
            }
            x += 1;
        }
        y += 1;
    }
}

// ------------------------------------------------------------------ tight spaces

/// The squares holding a wall.
pub open spec fn wall_at(g: GridModel<Cell>) -> spec_fn(Point) -> bool {
    |q: Point| g.at(q) == Cell::Wall
}

/// The squares not below row `y`.
pub open spec fn not_below(y: Coord) -> spec_fn(Point) -> bool {
    |q: Point| q.y <= y
}

/// The squares of `pts` that hold a wall, in order.
fn walls_among(grid: &Grid, pts: &Vec<Point>) -> (r: Vec<Point>)
    requires
        grid@.wf(),
        forall|i: int| 0 <= i < pts@.len() ==> grid@.in_bounds(#[trigger] pts@[i]),
    ensures
        r@ == pts@.filter(wall_at(grid@)),
        forall|i: int| 0 <= i < r@.len() ==> grid@.in_bounds(#[trigger] r@[i]) && grid@.at(r@[i]) == Cell::Wall,
{
    let mut r: Vec<Point> = Vec::new();
    let mut i: usize = 0;
    while i < pts.len()
        invariant
            0 <= i <= pts@.len(),
            grid@.wf(),
            forall|k: int| 0 <= k < pts@.len() ==> grid@.in_bounds(#[trigger] pts@[k]),
            r@ == pts@.take(i as int).filter(wall_at(grid@)),
            forall|k: int| 0 <= k < r@.len() ==> grid@.in_bounds(#[trigger] r@[k]) && grid@.at(r@[k]) == Cell::Wall,
        decreases pts@.len() - i,
    {
        proof {
            assert(pts@.take(i + 1) =~= pts@.take(i as int).push(pts@[i as int]));
            pts@.take(i as int).lemma_filter_push(pts@[i as int], wall_at(grid@));
            lemma_in_bounds_index_ok(grid@, pts@[i as int]);
        }
        if *grid.get(pts[i]) == Cell::Wall {
            r.push(pts[i]);
        }
        i += 1;
    }
    assert(pts@.take(i as int) =~= pts@);
    r
}

/// The squares of `pts` not below row `y`, in order.
fn not_below_among(pts: &Vec<Point>, y: Coord) -> (r: Vec<Point>)
    ensures
        r@ == pts@.filter(not_below(y)),
{
    let mut r: Vec<Point> = Vec::new();
    let mut i: usize = 0;
    while i < pts.len()
        invariant
            0 <= i <= pts@.len(),
            r@ == pts@.take(i as int).filter(not_below(y)),
        decreases pts@.len() - i,
    {
        proof {
            assert(pts@.take(i + 1) =~= pts@.take(i as int).push(pts@[i as int]));
            pts@.take(i as int).lemma_filter_push(pts@[i as int], not_below(y));
        }
        if pts[i].y <= y {
            r.push(pts[i]);
        }
        i += 1;
    }
    assert(pts@.take(i as int) =~= pts@);
    r
}

/// At an open square with at least three walls next to it: one of those walls that is not
/// below it, picked by a draw, is knocked down with its mirror.
pub open spec fn tight_step(s: (GridModel<Cell>, u64, bool), p: Point) -> (GridModel<Cell>, u64, bool) {
    let (g, seed, changed) = s;
    if g.at(p) == Cell::Wall {
        s
    } else {
        let walls = neighbour_points(g, p).filter(wall_at(g));
        if walls.len() >= 3 {
            let dest = walls.filter(not_below(p.y));
            if dest.len() == 0 {
                s
            } else {
                let t = dest[pick_index(draw_after(seed), dest.len() as int)];
                (g.set(t, Cell::Empty).set(opposite_spec(t, g.width as int), Cell::Empty), xorshift(seed), true)
            }
        } else {
            s
        }
    }
}

/// The number of walls among `cells`.
pub open spec fn wall_count(cells: Seq<Cell>) -> nat
    decreases cells.len(),
{
    if cells.len() == 0 {
        0
    } else {
        wall_count(cells.drop_last()) + if cells.last() == Cell::Wall {
            1nat
        } else {
            0nat
        }
    }
}

/// Emptying a cell takes one wall off the count when it held one.
pub proof fn lemma_wall_count_empty(cells: Seq<Cell>, i: int)
    requires
        0 <= i < cells.len(),
    ensures
        wall_count(cells.update(i, Cell::Empty)) + (if cells[i] == Cell::Wall { 1int } else { 0int }) == wall_count(cells),
    decreases cells.len(),
{
    let t = cells.update(i, Cell::Empty);
    if i == cells.len() - 1 {
        assert(t.drop_last() =~= cells.drop_last());
    } else {
        assert(t.drop_last() =~= cells.drop_last().update(i, Cell::Empty));
        lemma_wall_count_empty(cells.drop_last(), i);
    }
}

/// The walls only go down, and when the flag gets set they went down.
pub open spec fn walls_fall(a: (GridModel<Cell>, u64, bool), b: (GridModel<Cell>, u64, bool)) -> bool {
    &&& wall_count(b.0.cells) <= wall_count(a.0.cells)
    &&& b.2 ==> (a.2 || wall_count(b.0.cells) < wall_count(a.0.cells))
    &&& b.0.same_shape(a.0)
    &&& b.0.wf() == a.0.wf()
}

/// A step of opening tight spaces only removes walls, and sets the flag only when it removes one.
pub proof fn lemma_tight_step(s: (GridModel<Cell>, u64, bool), p: Point)
    requires
        s.0.wf(),
        s.0.in_bounds(p),
    ensures
        walls_fall(s, tight_step(s, p)),
{
    let (g, seed, changed) = s;
    if g.at(p) != Cell::Wall {
        let walls = neighbour_points(g, p).filter(wall_at(g));
        if walls.len() >= 3 {
            let dest = walls.filter(not_below(p.y));
            if dest.len() > 0 {
                let k = pick_index(draw_after(seed), dest.len() as int);
                lemma_pick_index_bound(draw_after(seed), dest.len() as int);
                let t = dest[k];
                walls.lemma_filter_pred(not_below(p.y), k);
                walls.lemma_filter_contains_rev(not_below(p.y), t);
                let wi = choose|wi: int| 0 <= wi < walls.len() && walls[wi] == t;
                neighbour_points(g, p).lemma_filter_pred(wall_at(g), wi);
                neighbour_points(g, p).lemma_filter_contains_rev(wall_at(g), t);
                lemma_neighbour_points(g, p, t);
                let o = opposite_spec(t, g.width as int);
                lemma_opposite(g, t);
                lemma_in_bounds_index_ok(g, t);
                lemma_in_bounds_index_ok(g, o);
                lemma_wall_count_empty(g.cells, g.idx(t));
                let g1 = g.set(t, Cell::Empty);
                lemma_wall_count_empty(g1.cells, g.idx(o));
            }
        }
    }
}

/// A row of steps of opening tight spaces only removes walls.
pub proof fn lemma_tight_sweep_row(s: (GridModel<Cell>, u64, bool), y: int, x: int)
    requires
        s.0.wf(),
        0 <= y < s.0.height,
        x <= s.0.width,
    ensures
        walls_fall(s, sweep_row(s, y, x, |s: (GridModel<Cell>, u64, bool), p: Point| tight_step(s, p))),
    decreases x,
{
    if x > 0 {
        let f = |s: (GridModel<Cell>, u64, bool), p: Point| tight_step(s, p);
        lemma_tight_sweep_row(s, y, x - 1);
        let m = sweep_row(s, y, x - 1, f);
        lemma_tight_step(m, Point { x: (x - 1) as i16, y: y as i16 });
    }
}

/// A sweep of opening tight spaces only removes walls.
pub proof fn lemma_tight_sweep(s: (GridModel<Cell>, u64, bool), y: int)
    requires
        s.0.wf(),
        y <= s.0.height,
    ensures
        walls_fall(s, sweep(s, s.0.width as int, y, |s: (GridModel<Cell>, u64, bool), p: Point| tight_step(s, p))),
    decreases y,
{
    if y > 0 {
        let f = |s: (GridModel<Cell>, u64, bool), p: Point| tight_step(s, p);
        lemma_tight_sweep(s, y - 1);
        let m = sweep(s, s.0.width as int, y - 1, f);
        lemma_tight_sweep_row(m, y - 1, s.0.width as int);
    }
}

/// `p` is no tight space: it is a wall, or fewer than three walls touch it, or none of the walls
/// touching it is at or above its row.
pub open spec fn tight_ok(g: GridModel<Cell>, p: Point) -> bool {
    let walls = neighbour_points(g, p).filter(wall_at(g));
    g.at(p) == Cell::Wall || walls.len() < 3 || walls.filter(not_below(p.y)).len() == 0
}

/// No square of the board is a tight space.
pub open spec fn no_tight_space(g: GridModel<Cell>) -> bool {
    forall|p: Point| #[trigger] g.in_bounds(p) ==> tight_ok(g, p)
}

/// A step that leaves the flag unset changed nothing, and its square was no tight space; a set
/// flag stays set.
pub proof fn lemma_tight_step_flag(s: (GridModel<Cell>, u64, bool), p: Point)
    ensures
        s.2 ==> tight_step(s, p).2,
        !tight_step(s, p).2 ==> tight_step(s, p) == s && tight_ok(s.0, p),
{
}

/// A row of steps that leaves the flag unset changed nothing, and its squares were no tight
/// spaces.
pub proof fn lemma_tight_row_flag(s: (GridModel<Cell>, u64, bool), y: int, x: int)
    ensures
        s.2 ==> sweep_row(s, y, x, |s: (GridModel<Cell>, u64, bool), p: Point| tight_step(s, p)).2,
        !sweep_row(s, y, x, |s: (GridModel<Cell>, u64, bool), p: Point| tight_step(s, p)).2 ==> {
            &&& sweep_row(s, y, x, |s: (GridModel<Cell>, u64, bool), p: Point| tight_step(s, p)) == s
            &&& forall|q: Point| q.y == y && 0 <= q.x < x ==> #[trigger] tight_ok(s.0, q)
        },
    decreases x,
{
    if x > 0 {
        lemma_tight_row_flag(s, y, x - 1);
        let m = sweep_row(s, y, x - 1, |s: (GridModel<Cell>, u64, bool), p: Point| tight_step(s, p));
        let p = Point { x: (x - 1) as i16, y: y as i16 };
        lemma_tight_step_flag(m, p);
        if !tight_step(m, p).2 {
            assert forall|q: Point| q.y == y && 0 <= q.x < x implies #[trigger] tight_ok(s.0, q) by {
                if q.x == x - 1 {
                    assert(q == p);
                }
            }
        }
    }
}

/// A sweep that leaves the flag unset changed nothing, and the squares of its rows were no tight
/// spaces.
pub proof fn lemma_tight_sweep_flag(s: (GridModel<Cell>, u64, bool), w: int, y: int)
    ensures
        s.2 ==> sweep(s, w, y, |s: (GridModel<Cell>, u64, bool), p: Point| tight_step(s, p)).2,
        !sweep(s, w, y, |s: (GridModel<Cell>, u64, bool), p: Point| tight_step(s, p)).2 ==> {
            &&& sweep(s, w, y, |s: (GridModel<Cell>, u64, bool), p: Point| tight_step(s, p)) == s
            &&& forall|q: Point| 0 <= q.y < y && 0 <= q.x < w ==> #[trigger] tight_ok(s.0, q)
        },
    decreases y,
{
    if y > 0 {
        lemma_tight_sweep_flag(s, w, y - 1);
        let m = sweep(s, w, y - 1, |s: (GridModel<Cell>, u64, bool), p: Point| tight_step(s, p));
        lemma_tight_row_flag(m, y - 1, w);
        if !sweep(s, w, y, |s: (GridModel<Cell>, u64, bool), p: Point| tight_step(s, p)).2 {
            assert forall|q: Point| 0 <= q.y < y && 0 <= q.x < w implies #[trigger] tight_ok(s.0, q) by {
                if q.y == y - 1 {
                    assert(q.y == y - 1 && 0 <= q.x < w);
                } else {
                    assert(0 <= q.y < y - 1 && 0 <= q.x < w);
                }
            }
        }
    }
}

/// Opening tight spaces goes on until none is left.
pub proof fn lemma_destroy_no_tight_space(g: GridModel<Cell>, seed: u64)
    requires
        g.wf(),
    ensures
        no_tight_space(destroy_spec(g, seed).0),
    decreases wall_count(g.cells),
{
    let f = |s: (GridModel<Cell>, u64, bool), p: Point| tight_step(s, p);
    let r = sweep((g, seed, false), g.width as int, g.height as int, f);
    lemma_tight_sweep((g, seed, false), g.height as int);
    if r.2 && wall_count(r.0.cells) < wall_count(g.cells) {
        lemma_destroy_no_tight_space(r.0, r.1);
    } else {
        lemma_tight_sweep_flag((g, seed, false), g.width as int, g.height as int);
        assert forall|p: Point| #[trigger] g.in_bounds(p) implies tight_ok(g, p) by {
            assert(0 <= p.y < g.height && 0 <= p.x < g.width);
        }
    }
}

/// Sweeps over the board knocking down walls around tight spaces until a sweep changes nothing.
pub open spec fn destroy_spec(g: GridModel<Cell>, seed: u64) -> (GridModel<Cell>, u64)
    decreases wall_count(g.cells),
{
    let r = sweep((g, seed, false), g.width as int, g.height as int, |s: (GridModel<Cell>, u64, bool), p: Point| tight_step(s, p));
    if r.2 && wall_count(r.0.cells) < wall_count(g.cells) {
        destroy_spec(r.0, r.1)
    } else {
        (r.0, r.1)
    }
}

/// Knocks down, with their mirrors, walls that hem in open squares: an open square with three
/// walls or more next to it loses one of them (not one below it, picked by a draw); sweeps repeat
/// until one changes nothing.
pub fn destroy_tight_spaces(grid: &mut Grid, rng: &mut SimpleRng)
    requires
        old(grid)@.wf(),
    ensures
        (final(grid)@, final(rng).seed) == destroy_spec(old(grid)@, old(rng).seed),
        final(grid)@.wf(),
        final(grid)@.same_shape(old(grid)@),
        symmetric(old(grid)@) ==> symmetric(final(grid)@),
        no_tight_space(final(grid)@),
{
    let ghost g0 = grid@;
    proof {
        lemma_destroy_no_tight_space(g0, rng.seed);
    }
    let ghost target = destroy_spec(grid@, rng.seed);
    let mut changed = true;
    while changed
        invariant
            grid@.wf(),
            grid@.same_shape(g0),
            symmetric(g0) ==> symmetric(grid@),
            changed ==> destroy_spec(grid@, rng.seed) == target,
            !changed ==> (grid@, rng.seed) == target,
        decreases (if changed { wall_count(grid@.cells) + 1 } else { 0 }),
    {
        let ghost gs = grid@;
        let ghost ss = rng.seed;
        changed = false;
        let mut y: Coord = 0;
        while y < grid.height
            invariant
                0 <= y <= grid@.height,
                grid@.wf(),
                grid@.same_shape(gs),
                gs.same_shape(g0),
                symmetric(g0) ==> symmetric(grid@),
                (grid@, rng.seed, changed) == sweep(
                    (gs, ss, false),
                    gs.width as int,
                    y as int,
                    |s: (GridModel<Cell>, u64, bool), p: Point| tight_step(s, p),
                ),
            decreases grid@.height - y,
        {
            let mut x: Coord = 0;
            while x < grid.width
                invariant
                    0 <= y < grid@.height,
                    0 <= x <= grid@.width,
                    grid@.wf(),
                    grid@.same_shape(gs),
                    gs.same_shape(g0),
                    symmetric(g0) ==> symmetric(grid@),
                    (grid@, rng.seed, changed) == sweep_row(
                        sweep(
                            (gs, ss, false),
                            gs.width as int,
                            y as int,
                            |s: (GridModel<Cell>, u64, bool), p: Point| tight_step(s, p),
                        ),
                        y as int,
                        x as int,
                        |s: (GridModel<Cell>, u64, bool), p: Point| tight_step(s, p),
                    ),
                decreases grid@.width - x,
            {
                let p = Point::new(x, y);
                let ghost before = (grid@, rng.seed, changed);
                proof {
                    lemma_in_bounds_index_ok(grid@, p);
                }
                if *grid.get(p) != Cell::Wall {
                    let neigh = neighbours(grid, p);
                    let walls = walls_among(grid, &neigh);
                    if walls.len() >= 3 {
                        let destroyable = not_below_among(&walls, p.y);
                        let pick = rng.choose_item(destroyable.as_slice());
                        match pick {
                            Some(target) => {
                                let t = *target;
                                proof {
                                    let k = pick_index(draw_after(before.1), destroyable@.len() as int);
                                    walls@.lemma_filter_pred(not_below(p.y), k);
                                    walls@.lemma_filter_contains_rev(not_below(p.y), t);
                                }
                                set_pair(grid, t, Cell::Empty);
                                changed = true;
                            },
                            None => {},
                        }
                    }
                }
                assert((grid@, rng.seed, changed) == tight_step(before, p));
                x += 1;
            }
            y += 1;
        }
        proof {
            lemma_tight_sweep((gs, ss, false), gs.height as int);
        }
    }
}

// ------------------------------------------------------------------ lowest island

/// The bottom-left square.
pub open spec fn bottom_left(g: GridModel<Cell>) -> Point {
    Point { x: 0, y: (g.height - 1) as i16 }
}

/// The walls connected to the bottom-left square when it is a wall; no square otherwise.
pub open spec fn lowest_island(g: GridModel<Cell>) -> Set<Point> {
    if g.at(bottom_left(g)) == Cell::Wall {
        region(g, wall_at(g), bottom_left(g))
    } else {
        Set::empty()
    }
}

/// Lists the walls connected to the bottom-left square, breadth first from it, when it is a wall.
pub fn detect_lowest_island(grid: &Grid) -> (island: Vec<Point>)
    requires
        grid@.wf(),
        grid@.width >= 1,
        grid@.height >= 1,
    ensures
        island@.to_set() == lowest_island(grid@),
        grid@.at(bottom_left(grid@)) == Cell::Wall ==> breadth_first(grid@, wall_at(grid@), bottom_left(grid@), island@),
        island@.no_duplicates(),
        forall|a: int| 0 <= a < island@.len() ==> grid@.in_bounds(#[trigger] island@[a]),
{
    let start = Point::new(0, grid.height - 1);
    proof {
        lemma_in_bounds_index_ok(grid@, start);
    }
    if *grid.get(start) != Cell::Wall {
        let v: Vec<Point> = Vec::new();
        assert(v@.to_set() =~= Set::<Point>::empty());
        return v;
    }
    let mut seen = crate::ai2::all_unmarked(grid.cells.len());
    proof {
        assert(search_pass(grid@, seen@, true) =~= wall_at(grid@)) by {
            assert forall|q: Point| #[trigger] search_pass(grid@, seen@, true)(q) == wall_at(grid@)(q) by {
                if grid@.in_bounds(q) {
                    lemma_in_bounds_index_ok(grid@, q);
                }
            }
        }
    }
    explore(grid, start, &mut seen, true)
}

/// Row `y` lies wholly in `s`, over a board `w` wide.
pub open spec fn row_full(s: Set<Point>, w: int, y: int) -> bool {
    forall|x: int| 0 <= x < w ==> #[trigger] s.contains(Point { x: x as i16, y: y as i16 })
}

/// How many full rows of `s` lie right above the bottom row, counting from `lb` up.
pub open spec fn lower_depth(s: Set<Point>, w: int, h: int, lb: int) -> int
    decreases h - lb,
{
    if h - 2 - lb < 0 || !row_full(s, w, h - 2 - lb) {
        lb
    } else {
        lower_depth(s, w, h, lb + 1)
    }
}

/// The depth counted from `lb` is at least `lb`, and at most the board height.
pub proof fn lemma_lower_depth_bound(s: Set<Point>, w: int, h: int, lb: int)
    requires
        0 <= lb,
    ensures
        lb <= lower_depth(s, w, h, lb) <= if lb < h { h } else { lb },
    decreases h - lb,
{
    if !(h - 2 - lb < 0 || !row_full(s, w, h - 2 - lb)) {
        lemma_lower_depth_bound(s, w, h, lb + 1);
    }
}

/// Whether `island` holds every square of row `y`.
fn island_row_full(island: &Vec<Point>, w: Coord, y: Coord) -> (r: bool)
    ensures
        r == row_full(island@.to_set(), w as int, y as int),
{
    let mut x: Coord = 0;
    while x < w
        invariant
            0 <= x,
            w >= 0 ==> x <= w,
            forall|k: int| 0 <= k < x ==> #[trigger] island@.to_set().contains(Point { x: k as i16, y }),
        decreases w - x,
    {
        let p = Point::new(x, y);
        let mut found = false;
        let mut i: usize = 0;
        while i < island.len()
            invariant
                0 <= i <= island@.len(),
                found == exists|a: int| 0 <= a < i && island@[a] == p,
            decreases island@.len() - i,
        {
            if island[i] == p {
                found = true;
            }
            i += 1;
        }
        if !found {
            proof {
                if island@.to_set().contains(p) {
                    let a = choose|a: int| 0 <= a < island@.len() && island@[a] == p;
                }
                let xi = x as int;
                assert(Point { x: xi as i16, y: (y as int) as i16 } == p);
                assert(!island@.to_set().contains(Point { x: xi as i16, y: (y as int) as i16 }));
                assert(!row_full(island@.to_set(), w as int, y as int));
            }
            return false;
        }
        proof {
            let a = choose|a: int| 0 <= a < i && island@[a] == p;
            assert(island@.to_set().contains(p));
        }
        x += 1;
    }
    proof {
        assert forall|k: int| 0 <= k < w implies #[trigger] island@.to_set().contains(Point { x: k as i16, y: y as int as i16 }) by {
            assert(island@.to_set().contains(Point { x: k as i16, y }));
        }
    }
    true
}

/// The squares of the board that the squares of `s` reach `lb` rows lower.
pub open spec fn lowered(g: GridModel<Cell>, s: Set<Point>, lb: int) -> Set<Point> {
    Set::new(|q: Point| g.in_bounds(q) && exists|c: Point| #[trigger] s.contains(c) && q == Point { x: c.x, y: (c.y + lb) as i16 })
}

/// How far the lowest island sinks, and the generator state after.
pub open spec fn sink_depth(g: GridModel<Cell>, seed: u64) -> (int, u64) {
    let lb = lower_depth(lowest_island(g), g.width as int, g.height as int, 0);
    if lb >= 2 {
        (2 + scaled_round(lb - 2, draw_after(seed)), xorshift(seed))
    } else {
        (lb, seed)
    }
}

/// The lowest island, with its mirror, is cleared and put back `sink_depth` rows lower, where the
/// board goes on.
pub open spec fn sink_result(g: GridModel<Cell>, seed: u64) -> (GridModel<Cell>, u64) {
    let s = lowest_island(g);
    if s.len() == 0 {
        (g, seed)
    } else {
        let (lb, seed2) = sink_depth(g, seed);
        (paint_pairs(paint_pairs(g, s, Cell::Empty), lowered(g, s, lb), Cell::Wall), seed2)
    }
}

/// The island sinks by the number of rows above the bottom row that lie full of it when that is
/// below two, and otherwise by between two and that number.
pub proof fn lemma_sink_depth_range(g: GridModel<Cell>, seed: u64)
    ensures
        lower_depth(lowest_island(g), g.width as int, g.height as int, 0) < 2 ==> sink_depth(g, seed).0
            == lower_depth(lowest_island(g), g.width as int, g.height as int, 0),
        lower_depth(lowest_island(g), g.width as int, g.height as int, 0) >= 2 ==> 2 <= sink_depth(g, seed).0
            <= lower_depth(lowest_island(g), g.width as int, g.height as int, 0),
{
    let lb = lower_depth(lowest_island(g), g.width as int, g.height as int, 0);
    if lb >= 2 {
        let k = draw_after(seed);
        lemma_scaled_round_bound(lb - 2, k);
    }
}

/// Lowering the island stays within `Coord`.
pub open spec fn sink_ok(g: GridModel<Cell>, seed: u64) -> bool {
    forall|c: Point| #[trigger] lowest_island(g).contains(c) ==> c.y + sink_depth(g, seed).0 <= i16::MAX
}

/// Sinks the lowest island: the walls connected to the bottom-left square are cleared, with their
/// mirrors, and put back lower by as many rows as lie full of them above the bottom row (by a draw
/// between 2 and that when there are 2 or more).
pub fn sink_lowest_island(grid: &mut Grid, rng: &mut SimpleRng)
    requires
        old(grid)@.wf(),
        old(grid)@.width >= 1,
        old(grid)@.height >= 1,
        sink_ok(old(grid)@, old(rng).seed),
    ensures
        (final(grid)@, final(rng).seed) == sink_result(old(grid)@, old(rng).seed),
        final(grid)@.wf(),
        final(grid)@.same_shape(old(grid)@),
        symmetric(old(grid)@) ==> symmetric(final(grid)@),
{
    let ghost g0 = grid@;
    let island = detect_lowest_island(grid);
    let ghost s = island@.to_set();
    proof {
        island@.unique_seq_to_set();
    }
    if island.len() == 0 {
        return;
    }
    let mut lower_by: Coord = 0;
    loop
        invariant
            g0 == grid@,
            g0.wf(),
            g0.width >= 1,
            s == island@.to_set(),
            s == lowest_island(g0),
            forall|a: int| 0 <= a < island@.len() ==> g0.in_bounds(#[trigger] island@[a]),
            0 <= lower_by < g0.height,
            lower_depth(s, g0.width as int, g0.height as int, lower_by as int) == lower_depth(s, g0.width as int, g0.height as int, 0),
        ensures
            lower_by == lower_depth(s, g0.width as int, g0.height as int, 0),
            0 <= lower_by < g0.height,
        decreases g0.height - lower_by,
    {
        let y = grid.height - 2 - lower_by;
        if y < 0 {
            break;
        }
        if !island_row_full(&island, grid.width, y) {
            break;
        }
        lower_by += 1;
    }
    let ghost lb0 = lower_by;
    if lower_by >= 2 {
        lower_by = rng.range(2, lower_by);
    }
    paint_pairs_exec(grid, &island, Cell::Empty);
    let ghost g1 = grid@;
    proof {
        assert(lower_by as int == sink_depth(g0, old(rng).seed).0);
    }
    let mut low: Vec<Point> = Vec::new();
    let mut i: usize = 0;
    while i < island.len()
        invariant
            0 <= i <= island@.len(),
            g0.wf(),
            grid@.same_shape(g0),
            s == island@.to_set(),
            s == lowest_island(g0),
            lower_by as int == sink_depth(g0, old(rng).seed).0,
            sink_ok(g0, old(rng).seed),
            forall|a: int| 0 <= a < island@.len() ==> g0.in_bounds(#[trigger] island@[a]),
            forall|a: int| 0 <= a < low@.len() ==> g0.in_bounds(#[trigger] low@[a]),
            low@.to_set() == lowered(g0, island@.take(i as int).to_set(), lower_by as int),
        decreases island@.len() - i,
    {
        let c = island[i];
        proof {
            assert(island@.to_set().contains(c));
            assert(c.y + lower_by <= i16::MAX);
            assert(island@.take(i + 1) =~= island@.take(i as int).push(c));
            island@.take(i as int).lemma_push_to_set_commute(c);
        }
        let q = Point::new(c.x, c.y + lower_by);
        let ghost lb_before = low@;
        if grid.in_bounds(q) {
            low.push(q);
            proof {
                lb_before.lemma_push_to_set_commute(q);
            }
        }
        proof {
            let pre = island@.take(i as int).to_set();
            let post = island@.take(i + 1).to_set();
            assert forall|r: Point| #[trigger] low@.to_set().contains(r) == lowered(g0, post, lower_by as int).contains(r) by {
                if lowered(g0, post, lower_by as int).contains(r) {
                    let cc = choose|cc: Point| #[trigger] post.contains(cc) && r == Point { x: cc.x, y: (cc.y + lower_by) as i16 };
                    if cc != c {
                        assert(pre.contains(cc));
                        assert(lowered(g0, pre, lower_by as int).contains(r));
                    }
                }
                if lowered(g0, pre, lower_by as int).contains(r) {
                    let cc = choose|cc: Point| #[trigger] pre.contains(cc) && r == Point { x: cc.x, y: (cc.y + lower_by) as i16 };
                    assert(post.contains(cc));
                }
                if r == q && g0.in_bounds(q) {
                    assert(post.contains(c));
                }
            }
            assert(low@.to_set() =~= lowered(g0, post, lower_by as int));
        }
        i += 1;
    }
    proof {
        assert(island@.take(i as int) =~= island@);
        assert forall|a: int| 0 <= a < low@.len() implies g1.in_bounds(#[trigger] low@[a]) by {}
    }
    paint_pairs_exec(grid, &low, Cell::Wall);
    proof {
        assert(lowered(g1, s, lower_by as int) =~= lowered(g0, s, lower_by as int));
    }
}

// ------------------------------------------------------------------ whole boards

/// The square at position `i` of a grid's cells.
pub open spec fn point_of(g: GridModel<Cell>, i: int) -> Point {
    Point { x: (i % g.width as int) as i16, y: (i / g.width as int) as i16 }
}

/// Every position of a well-formed grid's cells is a square of the board.
pub proof fn lemma_point_of(g: GridModel<Cell>, i: int)
    requires
        g.wf(),
        0 <= i < g.cells.len(),
    ensures
        g.in_bounds(point_of(g, i)),
        g.idx(point_of(g, i)) == i,
{
    let w = g.width as int;
    let h = g.height as int;
    assert(w > 0) by (nonlinear_arith)
        requires
            0 <= i < w * h,
            0 <= w,
            0 <= h,
    ;
    vstd::arithmetic::div_mod::lemma_fundamental_div_mod(i, w);
    assert(0 <= i % w < w);
    assert(0 <= i / w < h) by (nonlinear_arith)
        requires
            0 <= i < w * h,
            w > 0,
            i == w * (i / w) + i % w,
            0 <= i % w < w,
    {
        if i / w >= h {
            assert(w * (i / w) >= w * h);
        }
        if i / w < 0 {
            assert(w * (i / w) <= -w);
        }
    }
    assert(w * (i / w) == (i / w) * w) by (nonlinear_arith);
}

/// Two grids of the same shape that agree on every square are equal.
pub proof fn lemma_grid_ext(a: GridModel<Cell>, b: GridModel<Cell>)
    requires
        a.wf(),
        a.same_shape(b),
        forall|p: Point| #[trigger] a.in_bounds(p) ==> a.at(p) == b.at(p),
    ensures
        a == b,
{
    assert forall|i: int| 0 <= i < a.cells.len() implies a.cells[i] == b.cells[i] by {
        lemma_point_of(a, i);
        assert(a.in_bounds(point_of(a, i)));
    }
    assert(a.cells =~= b.cells);
}

/// The grid with the left half of every row copied onto its right half.
pub open spec fn mirror_spec(g: GridModel<Cell>) -> GridModel<Cell> {
    GridModel {
        width: g.width,
        height: g.height,
        cells: Seq::new(g.cells.len(), |i: int| g.at(left_point(point_of(g, i), g.width as int))),
    }
}

/// The point of the position of a square of the board is that square.
pub proof fn lemma_point_of_idx(g: GridModel<Cell>, p: Point)
    requires
        g.wf(),
        g.in_bounds(p),
    ensures
        point_of(g, g.idx(p)) == p,
{
    lemma_in_bounds_index_ok(g, p);
    lemma_point_of(g, g.idx(p));
    lemma_idx_eq(g, point_of(g, g.idx(p)), p);
}

/// The board is square, and one wider when that makes its width even.
pub open spec fn board_width(h: int) -> int {
    if h % 2 != 0 {
        h + 1
    } else {
        h
    }
}

/// The generator state after `n` draws.
pub open spec fn nth_state(seed: u64, n: nat) -> u64
    decreases n,
{
    if n == 0 {
        seed
    } else {
        xorshift(nth_state(seed, (n - 1) as nat))
    }
}

/// The position of square `(x, y)` among the draws of the rough board: rows from the second
/// lowest one up, left to right.
pub open spec fn draw_number(h: int, w: int, x: int, y: int) -> int {
    (h - 2 - y) * w + x
}

/// The rough board: the bottom row is wall, and a square above it is a wall when its draw is
/// below the threshold of its row.
pub open spec fn rough_cell(h: int, w: int, th: Seq<u64>, seed: u64, x: int, y: int) -> Cell {
    if y == h - 1 {
        Cell::Wall
    } else if draw_after(nth_state(seed, draw_number(h, w, x, y) as nat)) < th[y] {
        Cell::Wall
    } else {
        Cell::Empty
    }
}

/// The board before mirroring: a rough cell for every square.
pub open spec fn rough_grid(h: int, th: Seq<u64>, seed: u64) -> GridModel<Cell> {
    let w = board_width(h);
    GridModel {
        width: w as i16,
        height: h as i16,
        cells: Seq::new((w * h) as nat, |i: int| rough_cell(h, w, th, seed, i % w, i / w)),
    }
}

/// The board generated from a rough board of `h` rows (thresholds `th`) and generator state
/// `seed`: mirrored, small pockets walled up, tight spaces opened, lowest island sunk, food laid
/// and lonely walls turned into food.
pub open spec fn generated(h: int, th: Seq<u64>, seed: u64) -> GridModel<Cell> {
    let w = board_width(h);
    let g1 = rough_grid(h, th, seed);
    let s1 = nth_state(seed, ((h - 1) * w) as nat);
    let g2 = mirror_spec(g1);
    let g3 = sweep((g2, Set::<Point>::empty()), w, h, |s: (GridModel<Cell>, Set<Point>), p: Point| pocket_step(s, p)).0;
    let d = destroy_spec(g3, s1);
    let k = sink_result(d.0, d.1);
    let f = sweep((k.0, k.1), w / 2, h, |s: (GridModel<Cell>, u64), p: Point| spawn_step(s, p));
    sweep(f.0, w, h, |g: GridModel<Cell>, p: Point| lonely_step(g, p))
}

/// What follows the walling up of small pockets when a board is generated: tight spaces opened
/// with the generator at `s1`, the lowest island sunk, food laid, lonely walls turned into food.
pub open spec fn finish_board(g3: GridModel<Cell>, s1: u64) -> GridModel<Cell> {
    let w = g3.width as int;
    let h = g3.height as int;
    let d = destroy_spec(g3, s1);
    let k = sink_result(d.0, d.1);
    let f = sweep((k.0, k.1), w / 2, h, |s: (GridModel<Cell>, u64), p: Point| spawn_step(s, p));
    sweep(f.0, w, h, |g: GridModel<Cell>, p: Point| lonely_step(g, p))
}

/// `g` has the shape of `g0`, and each of its squares holds what `g0` holds there or a wall.
pub open spec fn walls_added(g0: GridModel<Cell>, g: GridModel<Cell>) -> bool {
    &&& g.width == g0.width
    &&& g.height == g0.height
    &&& g.cells.len() == g0.cells.len()
    &&& forall|i: int| 0 <= i < g.cells.len() ==> #[trigger] g.cells[i] == g0.cells[i] || g.cells[i] == Cell::Wall
}

/// Walling up pockets along a row only turns squares into walls.
proof fn lemma_pocket_row_walls(g0: GridModel<Cell>, s: (GridModel<Cell>, Set<Point>), y: int, x: int)
    requires
        walls_added(g0, s.0),
    ensures
        walls_added(g0, sweep_row(s, y, x, |s: (GridModel<Cell>, Set<Point>), p: Point| pocket_step(s, p)).0),
    decreases x,
{
    if x > 0 {
        let f = |s: (GridModel<Cell>, Set<Point>), p: Point| pocket_step(s, p);
        lemma_pocket_row_walls(g0, s, y, x - 1);
        let m = sweep_row(s, y, x - 1, f);
        let p = Point { x: (x - 1) as i16, y: y as i16 };
        let r = pocket_step(m, p);
        assert(r == sweep_row(s, y, x, f));
        assert forall|i: int| 0 <= i < r.0.cells.len() implies #[trigger] r.0.cells[i] == g0.cells[i] || r.0.cells[i] == Cell::Wall by {
            assert(m.0.cells[i] == g0.cells[i] || m.0.cells[i] == Cell::Wall);
        }
    }
}

/// Walling up pockets over the rows `0 .. y` only turns squares into walls.
proof fn lemma_pocket_sweep_walls(g0: GridModel<Cell>, w: int, y: int)
    ensures
        walls_added(g0, sweep((g0, Set::<Point>::empty()), w, y, |s: (GridModel<Cell>, Set<Point>), p: Point| pocket_step(s, p)).0),
    decreases y,
{
    let f = |s: (GridModel<Cell>, Set<Point>), p: Point| pocket_step(s, p);
    if y > 0 {
        lemma_pocket_sweep_walls(g0, w, y - 1);
        lemma_pocket_row_walls(g0, sweep((g0, Set::<Point>::empty()), w, y - 1, f), y - 1, w);
    }
}

/// A mirrored board is symmetric.
pub proof fn lemma_mirror_spec_symmetric(g: GridModel<Cell>)
    requires
        g.wf(),
    ensures
        mirror_spec(g).wf(),
        mirror_spec(g).same_shape(g),
        symmetric(mirror_spec(g)),
{
    let m = mirror_spec(g);
    let w = g.width as int;
    assert forall|p: Point| #[trigger] m.in_bounds(p) implies m.at(p) == m.at(opposite_spec(p, m.width as int)) by {
        let o = opposite_spec(p, w);
        lemma_opposite(g, p);
        lemma_point_of_idx(g, p);
        lemma_point_of_idx(g, o);
        lemma_in_bounds_index_ok(g, p);
        lemma_in_bounds_index_ok(g, o);
        assert(left_point(p, w) == left_point(o, w));
    }
}

/// A generated board is the board on which the small pockets of the mirrored rough board were
/// walled up, then finished: some board with no open square in an open region of fewer than ten
/// squares, symmetric, made from the mirrored rough board by turning squares into walls only, is
/// what tight spaces, sinking, food and lonely walls are then applied to.
pub proof fn lemma_generated_pockets(h: int, th: Seq<u64>, seed: u64)
    requires
        1 <= h,
        board_width(h) * h <= i16::MAX,
    ensures
        exists|g3: GridModel<Cell>| #![trigger finish_board(g3, nth_state(seed, ((h - 1) * board_width(h)) as nat))] {
            &&& no_small_pockets(g3)
            &&& symmetric(g3)
            &&& walls_added(mirror_spec(rough_grid(h, th, seed)), g3)
            &&& generated(h, th, seed) == finish_board(g3, nth_state(seed, ((h - 1) * board_width(h)) as nat))
        },
{
    let w = board_width(h);
    assert(h <= w && w <= h + 1);
    assert(w <= i16::MAX) by (nonlinear_arith)
        requires
            w * h <= i16::MAX,
            h >= 1,
            w >= 0,
    ;
    assert(w * h >= 0) by (nonlinear_arith)
        requires
            w >= 0,
            h >= 0,
    ;
    let g1 = rough_grid(h, th, seed);
    assert(g1.wf());
    lemma_mirror_spec_symmetric(g1);
    let g2 = mirror_spec(g1);
    let f = |s: (GridModel<Cell>, Set<Point>), p: Point| pocket_step(s, p);
    let g3 = sweep((g2, Set::<Point>::empty()), w, h, f).0;
    lemma_no_small_pockets(g2);
    lemma_pocket_sweep(g2, h);
    lemma_pocket_sweep_walls(g2, w, h);
    assert(g3.width == w && g3.height == h);
    assert(generated(h, th, seed) == finish_board(g3, nth_state(seed, ((h - 1) * w) as nat)));
}

/// The squares reached from a square of the board lie on the board.
pub proof fn lemma_reach_in_bounds(g: GridModel<Cell>, pass: spec_fn(Point) -> bool, start: Point, n: nat)
    requires
        g.in_bounds(start),
    ensures
        forall|q: Point| #[trigger] reach(g, pass, start, n).contains(q) ==> g.in_bounds(q),
    decreases n,
{
    if n > 0 {
        lemma_reach_in_bounds(g, pass, start, (n - 1) as nat);
        let r = reach(g, pass, start, (n - 1) as nat);
        assert forall|q: Point| #[trigger] reach(g, pass, start, n).contains(q) implies g.in_bounds(q) by {
            if !r.contains(q) {
                assert(spread(g, pass, r).contains(q));
            }
        }
    }
}

/// The lowest island lies on the board.
pub proof fn lemma_island_in_bounds(g: GridModel<Cell>)
    requires
        g.height >= 1,
        g.width >= 1,
    ensures
        forall|q: Point| #[trigger] lowest_island(g).contains(q) ==> g.in_bounds(q),
{
    assert forall|q: Point| #[trigger] lowest_island(g).contains(q) implies g.in_bounds(q) by {
        let n = choose|n: nat| #[trigger] reach(g, wall_at(g), bottom_left(g), n).contains(q);
        lemma_reach_in_bounds(g, wall_at(g), bottom_left(g), n);
    }
}

/// A small board keeps sinking within `Coord`.
pub proof fn lemma_sink_ok(g: GridModel<Cell>, seed: u64)
    requires
        g.height >= 1,
        g.width >= 1,
        2 * g.height <= i16::MAX,
    ensures
        sink_ok(g, seed),
{
    lemma_island_in_bounds(g);
    let s = lowest_island(g);
    let lb = lower_depth(s, g.width as int, g.height as int, 0);
    lemma_lower_depth_bound(s, g.width as int, g.height as int, 0);
    if lb >= 2 {
        let k = draw_after(seed);
        lemma_scaled_round_bound(lb - 2, k);
    }
}

/// A board `height` rows high from the generator `rng` and the thresholds of its rows: the
/// bottom row is wall; each square above it, row by row from the second lowest one up, becomes a
/// wall when its draw is below the threshold of its row. The board is then mirrored, its small
/// pockets are walled up, its tight spaces opened, its lowest island sunk, food laid, and its
/// lonely walls turned into food.
#[verifier::spinoff_prover]
#[verifier::rlimit(40)]
pub fn generate_grid(height: Coord, block_thresholds: &Vec<u64>, rng: SimpleRng) -> (grid: Grid)
    requires
        1 <= height,
        board_width(height as int) * height <= i16::MAX,
        block_thresholds@.len() >= height - 1,
    ensures
        grid.width == board_width(height as int),
        grid.height == height,
        grid@.wf(),
        grid@ == generated(height as int, block_thresholds@, rng.seed),
        symmetric(grid@),
        no_lonely_walls(grid@),
{
    let ghost seed0 = rng.seed;
    let ghost th = block_thresholds@;
    let mut rng = rng;
    assert(height <= 181) by (nonlinear_arith)
        requires
            board_width(height as int) * height <= 32767,
            board_width(height as int) >= height,
            height >= 1,
    ;
    let mut width = height;
    if width % 2 != 0 {
        width += 1;
    }
    let ghost w = width as int;
    let ghost h = height as int;
    assert(w * h >= 0) by (nonlinear_arith)
        requires
            w >= 0,
            h >= 0,
    ;
    let n = (width * height) as usize;
    let mut cells: Vec<Cell> = Vec::new();
    let mut i: usize = 0;
    while i < n
        invariant
            0 <= i <= n,
            cells@ == Seq::new(i as nat, |k: int| Cell::Empty),
        decreases n - i,
    {
        cells.push(Cell::Empty);
        i += 1;
        assert(cells@ =~= Seq::new(i as nat, |k: int| Cell::Empty));
    }
    let mut grid = Grid { width, height, cells };
    assert(grid@.wf());
    proof {
        assert forall|q: Point| #[trigger] grid@.in_bounds(q) implies grid@.at(q) == Cell::Empty by {
            lemma_in_bounds_index_ok(grid@, q);
        }
    }
    let mut x: Coord = 0;
    while x < width
        invariant
            0 <= x <= width,
            width == w,
            height == h,
            1 <= h,
            grid@.wf(),
            grid@.width == w,
            grid@.height == h,
            forall|q: Point| #[trigger] grid@.in_bounds(q) ==> grid@.at(q) == if q.y == h - 1 && q.x < x {
                Cell::Wall
            } else {
                Cell::Empty
            },
        decreases w - x,
    {
        let p = Point::new(x, height - 1);
        let ghost before = grid@;
        proof {
            lemma_in_bounds_index_ok(grid@, p);
        }
        grid.set(p, Cell::Wall);
        proof {
            assert forall|q: Point| #[trigger] grid@.in_bounds(q) implies grid@.at(q) == if q.y == h - 1 && q.x < x + 1 {
                Cell::Wall
            } else {
                Cell::Empty
            } by {
                lemma_set_at(before, p, Cell::Wall, q);
            }
        }
        x += 1;
    }
    let mut y: Coord = height - 1;
    assert(draw_number(h, w, 0, y as int - 1) == 0) by (nonlinear_arith)
        requires
            y == h - 1,
            draw_number(h, w, 0, y as int - 1) == (h - 2 - (y - 1)) * w + 0,
    ;
    assert(rng.seed == nth_state(seed0, 0));
    while y > 0
        invariant
            0 <= y <= h - 1,
            width == w,
            height == h,
            1 <= h,
            w * h <= i16::MAX,
            th == block_thresholds@,
            th.len() >= h - 1,
            grid@.wf(),
            grid@.width == w,
            grid@.height == h,
            rng.seed == nth_state(seed0, draw_number(h, w, 0, y as int - 1) as nat),
            forall|q: Point| #[trigger] grid@.in_bounds(q) ==> grid@.at(q) == if q.y == h - 1 || q.y >= y {
                rough_cell(h, w, th, seed0, q.x as int, q.y as int)
            } else {
                Cell::Empty
            },
        decreases y,
    {
        y -= 1;
        let mut x: Coord = 0;
        while x < width
            invariant
                0 <= y < h - 1,
                0 <= x <= width,
                width == w,
                height == h,
                w * h <= i16::MAX,
                th == block_thresholds@,
                th.len() >= h - 1,
                grid@.wf(),
                grid@.width == w,
                grid@.height == h,
                rng.seed == nth_state(seed0, draw_number(h, w, x as int, y as int) as nat),
                forall|q: Point| #[trigger] grid@.in_bounds(q) ==> grid@.at(q) == if q.y == h - 1 || q.y > y || (q.y == y && q.x < x) {
                    rough_cell(h, w, th, seed0, q.x as int, q.y as int)
                } else {
                    Cell::Empty
                },
            decreases w - x,
        {
            let p = Point::new(x, y);
            let ghost before = grid@;
            proof {
                lemma_in_bounds_index_ok(grid@, p);
                assert(draw_number(h, w, x as int, y as int) >= 0) by (nonlinear_arith)
                    requires
                        0 <= y < h - 1,
                        0 <= x,
                        w >= 0,
                        draw_number(h, w, x as int, y as int) == (h - 2 - y) * w + x,
                ;
            }
            let k = rng.next_draw();
            if k < block_thresholds[y as usize] {
                grid.set(p, Cell::Wall);
            }
            proof {
                assert(draw_number(h, w, x + 1, y as int) == draw_number(h, w, x as int, y as int) + 1);
                assert forall|q: Point| #[trigger] grid@.in_bounds(q) implies grid@.at(q) == if q.y == h - 1 || q.y > y || (q.y == y && q.x < x + 1) {
                    rough_cell(h, w, th, seed0, q.x as int, q.y as int)
                } else {
                    Cell::Empty
                } by {
                    if k < block_thresholds[y as int] {
                        lemma_set_at(before, p, Cell::Wall, q);
                    }
                }
            }
            x += 1;
        }
        proof {
            assert(draw_number(h, w, w, y as int) == draw_number(h, w, 0, y as int - 1)) by (nonlinear_arith)
                requires
                    draw_number(h, w, w, y as int) == (h - 2 - y) * w + w,
                    draw_number(h, w, 0, y as int - 1) == (h - 2 - (y - 1)) * w + 0,
            ;
        }
    }
    proof {
        assert(draw_number(h, w, 0, -1) == (h - 1) * w) by (nonlinear_arith)
            requires
                draw_number(h, w, 0, -1) == (h - 2 - (-1)) * w + 0,
        ;
        let r = rough_grid(h, th, seed0);
        assert(grid@.same_shape(r));
        assert forall|q: Point| #[trigger] grid@.in_bounds(q) implies grid@.at(q) == r.at(q) by {
            lemma_point_of_idx(grid@, q);
            lemma_in_bounds_index_ok(grid@, q);
            assert(point_of(grid@, grid@.idx(q)) == q);
        }
        lemma_grid_ext(grid@, r);
    }
    let ghost g1 = grid@;
    mirror(&mut grid);
    proof {
        let m = mirror_spec(g1);
        assert forall|q: Point| #[trigger] grid@.in_bounds(q) implies grid@.at(q) == m.at(q) by {
            lemma_point_of_idx(g1, q);
            lemma_in_bounds_index_ok(g1, q);
        }
        lemma_grid_ext(grid@, m);
    }
    fill_small_air_pockets(&mut grid);
    destroy_tight_spaces(&mut grid, &mut rng);
    proof {
        assert(2 * h <= i16::MAX) by (nonlinear_arith)
            requires
                w * h <= i16::MAX,
                w >= h,
                h >= 1,
        ;
        lemma_sink_ok(grid@, rng.seed);
    }
    sink_lowest_island(&mut grid, &mut rng);
    spawn_food(&mut grid, &mut rng);
    cleanup_lonely_walls(&mut grid);
    grid
}

} // verus!
