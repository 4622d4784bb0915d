use vstd::prelude::*;
use crate::types::{
    Cell, Direction, GameModel, GameState, Grid, GridModel, Point, Snake, SnakeModel, all_directions,
    directions, step, lemma_in_bounds_index_ok,
};
use crate::ai::side_snakes;
use crate::engine::{apply_result, snake_models};

verus! {

/// Squares a snake may enter: empty ones and food.
pub open spec fn is_open(c: Cell) -> bool {
    c == Cell::Empty || c == Cell::Food
}

/// Moving from `p` in `d` lands on an open square of the board.
pub open spec fn open_step(g: GridModel<Cell>, p: Point, d: Direction) -> bool {
    g.in_bounds(step(p, d)) && is_open(g.at(step(p, d)))
}

/// The moves from `p` onto open squares, in the order of `directions()`.
pub open spec fn open_dirs(g: GridModel<Cell>, p: Point) -> Seq<Direction> {
    directions().filter(|d: Direction| open_step(g, p, d))
}

/// The moves tried for a snake: its open moves, or `Up` when it has none.
pub open spec fn snake_moves_spec(g: GridModel<Cell>, s: SnakeModel) -> Seq<Direction> {
    let n = open_dirs(g, s.head());
    if n.len() == 0 {
        seq![Direction::Up]
    } else {
        n
    }
}

/// All four steps from `p` stay within `Coord`.
pub open spec fn steps_ok(p: Point) -> bool {
    i16::MIN < p.x < i16::MAX && i16::MIN < p.y < i16::MAX
}

/// A square of the board is far from the ends of `Coord`.
pub proof fn lemma_in_bounds_steps_ok(g: GridModel<Cell>, p: Point)
    requires
        g.in_bounds(p),
    ensures
        steps_ok(p),
{
}

/// The moves from `p` onto open squares, in the order Right, Left, Up, Down.
pub fn neighbours(grid: &Grid, p: Point) -> (dirs: Vec<Direction>)
    requires
        grid@.wf(),
        steps_ok(p),
    ensures
        dirs@ == open_dirs(grid@, p),
{
    let all = all_directions();
    let mut dirs: Vec<Direction> = Vec::new();
    let mut i: usize = 0;
    while i < all.len()
        invariant
            0 <= i <= all@.len(),
            all@ == directions(),
            grid@.wf(),
            steps_ok(p),
            dirs@ == directions().take(i as int).filter(|d: Direction| open_step(grid@, p, d)),
        decreases all@.len() - i,
    {
        let d = all[i];
        let q = p + d;
        let open = if grid.in_bounds(q) {
            proof {
                lemma_in_bounds_index_ok(grid@, q);
            }
            let c = *grid.get(q);
            c == Cell::Empty || c == Cell::Food
        } else {
            false
        };
        proof {
            assert(directions().take(i + 1) =~= directions().take(i as int).push(d));
            directions().take(i as int).lemma_filter_push(d, |d: Direction| open_step(grid@, p, d));
        }
        if open {
            dirs.push(d);
        }
        i += 1;
    }
    assert(directions().take(4) =~= directions());
    dirs
}

/// The moves tried for `snake`: its open moves, or just `Up` when it is boxed in.
pub fn snake_moves(grid: &Grid, snake: &Snake) -> (moves: Vec<Direction>)
    requires
        grid@.wf(),
        snake.body@.len() > 0,
        steps_ok(snake.body@[0]),
    ensures
        moves@ == snake_moves_spec(grid@, snake@),
        moves@.len() > 0,
{
    let neighbours = neighbours(grid, snake.head());
    if neighbours.len() == 0 {
        let v = vec![Direction::Up];
        assert(v@ =~= seq![Direction::Up]);
        v
    } else {
        neighbours
    }
}

// ------------------------------------------------------------------ distance to food

/// The points reached from `r` by one move onto an open square.
pub open spec fn next_points(g: GridModel<Cell>, r: Set<Point>) -> Set<Point> {
    Set::new(|q: Point| exists|p: Point, d: Direction| #![trigger r.contains(p), open_step(g, p, d)] r.contains(p) && open_step(g, p, d) && q == step(p, d))
}

/// The points reached from `start` in at most `n` moves onto open squares.
pub open spec fn within(g: GridModel<Cell>, start: Point, n: nat) -> Set<Point>
    decreases n,
{
    if n == 0 {
        set![start]
    } else {
        let r = within(g, start, (n - 1) as nat);
        r.union(next_points(g, r))
    }
}

/// Some point reached in at most `n` moves holds food.
pub open spec fn food_within(g: GridModel<Cell>, start: Point, n: nat) -> bool {
    exists|q: Point| #[trigger] within(g, start, n).contains(q) && g.at(q) == Cell::Food
}

/// The fewest moves from `start` to food over open squares, or 0 when no food can be reached.
pub open spec fn food_distance(g: GridModel<Cell>, start: Point) -> int {
    if exists|n: nat| food_within(g, start, n) {
        (choose|n: nat| food_within(g, start, n) && forall|m: nat| m < n ==> !food_within(g, start, m)) as int
    } else {
        0
    }
}

/// Squares within `m` moves are within `n >= m` moves.
pub proof fn lemma_within_mono(g: GridModel<Cell>, start: Point, m: nat, n: nat)
    requires
        m <= n,
    ensures
        within(g, start, m).subset_of(within(g, start, n)),
    decreases n - m,
{
    if m < n {
        lemma_within_mono(g, start, m, (n - 1) as nat);
    }
}

/// Once a move adds no square, no later move does.
pub proof fn lemma_within_stable(g: GridModel<Cell>, start: Point, m: nat, n: nat)
    requires
        m <= n,
        within(g, start, m + 1) == within(g, start, m),
    ensures
        within(g, start, n) == within(g, start, m),
    decreases n - m,
{
    if m < n {
        lemma_within_stable(g, start, m, (n - 1) as nat);
    }
}

/// The points seen by the search: `start`, and the points on the board marked in `seen`.
pub open spec fn seen_set(g: GridModel<Cell>, seen: Seq<bool>, start: Point) -> Set<Point> {
    Set::new(|q: Point| q == start || (g.in_bounds(q) && seen[g.idx(q)]))
}

/// Number of unmarked entries.
pub open spec fn count_false(s: Seq<bool>) -> nat
    decreases s.len(),
{
    if s.len() == 0 {
        0
    } else {
        count_false(s.drop_last()) + if s.last() {
            0nat
        } else {
            1nat
        }
    }
}

/// The unmarked entries are at most all entries.
pub proof fn lemma_count_false_le(s: Seq<bool>)
    ensures
        count_false(s) <= s.len(),
    decreases s.len(),
{
    if s.len() > 0 {
        lemma_count_false_le(s.drop_last());
    }
}

/// Marking an unmarked entry leaves one unmarked entry less.
pub proof fn lemma_count_false_mark(s: Seq<bool>, i: int)
    requires
        0 <= i < s.len(),
        !s[i],
    ensures
        count_false(s.update(i, true)) + 1 == count_false(s),
    decreases s.len(),
{
    let t = s.update(i, true);
    if i == s.len() - 1 {
        assert(t.drop_last() =~= s.drop_last());
    } else {
        assert(t.drop_last() =~= s.drop_last().update(i, true));
        lemma_count_false_mark(s.drop_last(), i);
    }
}

/// Distinct points of the board have distinct positions.
pub proof fn lemma_idx_injective(g: GridModel<Cell>, p: Point, q: Point)
    requires
        g.in_bounds(p),
        g.in_bounds(q),
        g.idx(p) == g.idx(q),
    ensures
        p == q,
{
    assert(p.y == q.y) by (nonlinear_arith)
        requires
            0 <= p.x < g.width,
            0 <= q.x < g.width,
            p.y * g.width + p.x == q.y * g.width + q.x,
            0 <= p.y,
            0 <= q.y,
    {
        if p.y < q.y {
            assert(p.y * g.width + g.width <= q.y * g.width);
        } else if p.y > q.y {
            assert(q.y * g.width + g.width <= p.y * g.width);
        }
    }
}

/// The points added at the `n`-th widening of the search.
pub open spec fn layer(g: GridModel<Cell>, start: Point, n: nat) -> Set<Point> {
    if n == 0 {
        within(g, start, 0)
    } else {
        within(g, start, n).difference(within(g, start, (n - 1) as nat))
    }
}

/// The targets of the moves `dirs` from `p`.
pub open spec fn targets(p: Point, dirs: Seq<Direction>) -> Set<Point> {
    dirs.map_values(|d: Direction| step(p, d)).to_set()
}

/// The squares one move from a union are the union of the squares one move from each part.
pub proof fn lemma_next_points_union(g: GridModel<Cell>, a: Set<Point>, b: Set<Point>)
    ensures
        next_points(g, a.union(b)) == next_points(g, a).union(next_points(g, b)),
{
    assert forall|q: Point| next_points(g, a.union(b)).contains(q) implies next_points(g, a).union(next_points(g, b)).contains(q) by {
        let (p, d) = choose|p: Point, d: Direction| #![trigger a.union(b).contains(p), open_step(g, p, d)] a.union(b).contains(p) && open_step(g, p, d) && q == step(p, d);
        if a.contains(p) {
            assert(next_points(g, a).contains(q));
        } else {
            assert(next_points(g, b).contains(q));
        }
    }
    assert forall|q: Point| next_points(g, a).union(next_points(g, b)).contains(q) implies next_points(g, a.union(b)).contains(q) by {
        if next_points(g, a).contains(q) {
            let (p, d) = choose|p: Point, d: Direction| #![trigger a.contains(p), open_step(g, p, d)] a.contains(p) && open_step(g, p, d) && q == step(p, d);
            assert(a.union(b).contains(p));
        } else {
            let (p, d) = choose|p: Point, d: Direction| #![trigger b.contains(p), open_step(g, p, d)] b.contains(p) && open_step(g, p, d) && q == step(p, d);
            assert(a.union(b).contains(p));
        }
    }
    assert(next_points(g, a.union(b)) =~= next_points(g, a).union(next_points(g, b)));
}

/// The targets of the open moves of `p` are the points one move from `{p}`.
pub proof fn lemma_targets_open(g: GridModel<Cell>, p: Point)
    ensures
        targets(p, open_dirs(g, p)) == next_points(g, set![p]),
{
    let f = |d: Direction| open_step(g, p, d);
    let od = open_dirs(g, p);
    let ds = directions();
    assert forall|q: Point| targets(p, od).contains(q) implies next_points(g, set![p]).contains(q) by {
        let ms = od.map_values(|d: Direction| step(p, d));
        let b = choose|b: int| 0 <= b < ms.len() && #[trigger] ms[b] == q;
        ds.lemma_filter_pred(f, b);
        assert(set![p].contains(p));
    }
    assert forall|q: Point| next_points(g, set![p]).contains(q) implies targets(p, od).contains(q) by {
        let (p2, d) = choose|p2: Point, d: Direction| #![trigger set![p].contains(p2), open_step(g, p2, d)] set![p].contains(p2) && open_step(g, p2, d) && q == step(p2, d);
        assert(p2 == p);
        let i: int = match d {
            Direction::Right => 0,
            Direction::Left => 1,
            Direction::Up => 2,
            Direction::Down => 3,
        };
        assert(ds[i] == d);
        ds.lemma_filter_contains(f, i);
        let b = choose|b: int| 0 <= b < od.len() && #[trigger] od[b] == d;
        assert(od.map_values(|d: Direction| step(p, d))[b] == q);
    }
    assert(targets(p, od) =~= next_points(g, set![p]));
}

/// One widening of the search from layer `n` gives layer `n + 1` and what was seen grows by it.
pub proof fn lemma_widen(g: GridModel<Cell>, start: Point, n: nat)
    ensures
        within(g, start, n + 1) == within(g, start, n).union(next_points(g, layer(g, start, n))),
{
    let w = within(g, start, n);
    if n == 0 {
    } else {
        let prev = within(g, start, (n - 1) as nat);
        lemma_within_mono(g, start, (n - 1) as nat, n);
        assert(w =~= prev.union(layer(g, start, n)));
        lemma_next_points_union(g, prev, layer(g, start, n));
        assert(next_points(g, prev).subset_of(w));
        assert(within(g, start, n + 1) =~= w.union(next_points(g, layer(g, start, n))));
    }
}

/// `n` unmarked entries.
pub(crate) fn all_unmarked(n: usize) -> (v: Vec<bool>)
    ensures
        v@ == Seq::new(n as nat, |i: int| false),
{
    let mut v: Vec<bool> = Vec::new();
    let mut i: usize = 0;
    while i < n
        invariant
            0 <= i <= n,
            v@ == Seq::new(i as nat, |k: int| false),
        decreases n - i,
    {
        v.push(false);
        i += 1;
        assert(v@ =~= Seq::new(i as nat, |k: int| false));
    }
    v
}

/// Whether one of `points` holds food.
fn any_food(grid: &Grid, points: &Vec<Point>, start: Point) -> (r: bool)
    requires
        grid@.wf(),
        grid@.index_ok(start),
        forall|a: int| 0 <= a < points@.len() ==> (#[trigger] points@[a] == start || grid@.in_bounds(points@[a])),
    ensures
        r == exists|a: int| 0 <= a < points@.len() && grid@.at(#[trigger] points@[a]) == Cell::Food,
{
    let mut k: usize = 0;
    while k < points.len()
        invariant
            0 <= k <= points@.len(),
            grid@.wf(),
            grid@.index_ok(start),
            forall|a: int| 0 <= a < points@.len() ==> (#[trigger] points@[a] == start || grid@.in_bounds(points@[a])),
            forall|a: int| 0 <= a < k ==> grid@.at(#[trigger] points@[a]) != Cell::Food,
        decreases points@.len() - k,
    {
        let p = points[k];
        proof {
            if p != start {
                lemma_in_bounds_index_ok(grid@, p);
            }
        }
        if *grid.get(p) == Cell::Food {
            return true;
        }
        k += 1;
    }
    false
}

/// Moves from the head of `snake` to the nearest food over open squares, or 0 when no food can
/// be reached; the search widens one move at a time.
pub fn distance_to_closest_food(grid: &Grid, snake: &Snake) -> (dist: i32)
    requires
        grid@.wf(),
        snake.body@.len() > 0,
        grid@.index_ok(snake.body@[0]),
        steps_ok(snake.body@[0]),
    ensures
        dist == food_distance(grid@, snake.body@[0]),
{
    let ghost g = grid@;
    let start = snake.head();
    let mut seen: Vec<bool> = all_unmarked(grid.cells.len());
    if grid.in_bounds(start) {
        let si = grid.index_of(start);
        seen.set(si, true);
    }
    proof {
        assert forall|q: Point| #[trigger] seen_set(g, seen@, start).contains(q) implies q == start by {
            if q != start {
                lemma_in_bounds_index_ok(g, q);
                lemma_idx_injective(g, q, start);
            }
        }
        assert(seen_set(g, seen@, start) =~= within(g, start, 0));
        lemma_count_false_le(seen@);
    }
    let mut frontier: Vec<Point> = vec![start];
    proof {
        assert(frontier@ =~= seq![start]);
        assert(frontier@.to_set() =~= set![start]);
    }
    let mut dist: i32 = 0;
    loop
        invariant
            g == grid@,
            start == snake.body@[0],
            g.wf(),
            g.index_ok(start),
            steps_ok(start),
            seen@.len() == g.cells.len(),
            g.in_bounds(start) ==> seen@[g.idx(start)],
            frontier@.len() > 0,
            forall|k: int| 0 <= k < frontier@.len() ==> (#[trigger] frontier@[k] == start || g.in_bounds(frontier@[k])),
            0 <= dist,
            dist + count_false(seen@) <= seen@.len(),
            seen_set(g, seen@, start) == within(g, start, dist as nat),
            frontier@.to_set() == layer(g, start, dist as nat),
            forall|m: nat| m < dist ==> !food_within(g, start, m),
        decreases count_false(seen@),
    {
        // food among the newest points?
        if any_food(grid, &frontier, start) {
            proof {
                let n = dist as nat;
                let a = choose|a: int| 0 <= a < frontier@.len() && g.at(#[trigger] frontier@[a]) == Cell::Food;
                let p = frontier@[a];
                assert(frontier@.to_set().contains(p));
                assert(within(g, start, n).contains(p));
                assert(food_within(g, start, n));
                let c = choose|c: nat| food_within(g, start, c) && forall|m: nat| m < c ==> !food_within(g, start, m);
                assert(food_within(g, start, c) && forall|m: nat| m < c ==> !food_within(g, start, m));
                if c < n {
                    assert(!food_within(g, start, c));
                } else if c > n {
                    assert(!food_within(g, start, n));
                }
                assert(exists|n: nat| food_within(g, start, n));
                assert(food_distance(g, start) == c as int);
            }
            return dist;
        }
        proof {
            // no food within `dist` moves
            assert forall|q: Point| #[trigger] within(g, start, dist as nat).contains(q) implies g.at(q) != Cell::Food by {
                if dist > 0 && within(g, start, (dist - 1) as nat).contains(q) {
                    assert(!food_within(g, start, (dist - 1) as nat));
                } else {
                    assert(frontier@.to_set().contains(q));
                    let a = choose|a: int| 0 <= a < frontier@.len() && frontier@[a] == q;
                    assert(g.at(frontier@[a]) != Cell::Food);
                }
            }
            assert(!food_within(g, start, dist as nat));
        }
        // widen by one move
        let ghost seen0 = seen_set(g, seen@, start);
        let ghost cf0 = count_false(seen@);
        let mut next: Vec<Point> = Vec::new();
        let mut k: usize = 0;
        proof {
            assert(next@.to_set() =~= Set::empty());
            assert(frontier@.take(0).to_set() =~= Set::empty());
            assert(next_points(g, Set::empty()) =~= Set::empty());
            assert(seen0.union(next@.to_set()) =~= seen0);
        }
        while k < frontier.len()
            invariant
                0 <= k <= frontier@.len(),
                g == grid@,
                g.wf(),
                g.index_ok(start),
                steps_ok(start),
                seen@.len() == g.cells.len(),
                g.in_bounds(start) ==> seen@[g.idx(start)],
                forall|a: int| 0 <= a < frontier@.len() ==> (#[trigger] frontier@[a] == start || g.in_bounds(frontier@[a])),
                forall|a: int| 0 <= a < next@.len() ==> g.in_bounds(#[trigger] next@[a]),
                seen_set(g, seen@, start) == seen0.union(next@.to_set()),
                seen0.disjoint(next@.to_set()),
                next@.to_set() == next_points(g, frontier@.take(k as int).to_set()).difference(seen0),
                count_false(seen@) + next@.len() == cf0,
            decreases frontier@.len() - k,
        {
            let p = frontier[k];
            proof {
                if p != start {
                    lemma_in_bounds_steps_ok(g, p);
                }
            }
            let dirs = neighbours(grid, p);
            let ghost next_k = next@;
            let mut m: usize = 0;
            proof {
                assert(dirs@.take(0).map_values(|d: Direction| step(p, d)).to_set() =~= Set::empty());
                assert(next@.to_set() =~= next_k.to_set().union(targets(p, dirs@.take(0)).difference(seen0)));
            }
            while m < dirs.len()
                invariant
                    0 <= m <= dirs@.len(),
                    dirs@ == open_dirs(g, p),
                    g == grid@,
                    g.wf(),
                    g.index_ok(start),
                    seen@.len() == g.cells.len(),
                    g.in_bounds(start) ==> seen@[g.idx(start)],
                    steps_ok(p),
                    forall|a: int| 0 <= a < next@.len() ==> g.in_bounds(#[trigger] next@[a]),
                    seen_set(g, seen@, start) == seen0.union(next@.to_set()),
                    seen0.disjoint(next@.to_set()),
                    next@.to_set() == next_k.to_set().union(targets(p, dirs@.take(m as int)).difference(seen0)),
                    count_false(seen@) + next@.len() == cf0,
                decreases dirs@.len() - m,
            {
                let d = dirs[m];
                proof {
                    directions().lemma_filter_pred(|d: Direction| open_step(g, p, d), m as int);
                }
                let q = p + d;
                proof {
                    lemma_in_bounds_index_ok(g, q);
                    assert(dirs@.take(m + 1).map_values(|d: Direction| step(p, d)) =~= dirs@.take(m as int).map_values(|d: Direction| step(p, d)).push(q));
                    dirs@.take(m as int).map_values(|d: Direction| step(p, d)).lemma_push_to_set_commute(q);
                    assert(targets(p, dirs@.take(m + 1)) =~= targets(p, dirs@.take(m as int)).insert(q));
                }
                let qi = grid.index_of(q);
                let ghost s_before = seen@;
                let ghost n_before = next@;
                if !seen[qi] {
                    proof {
                        lemma_count_false_mark(seen@, qi as int);
                        if q == start {
                            assert(seen@[g.idx(start)]);
                        }
                        assert(!seen_set(g, seen@, start).contains(q));
                    }
                    seen.set(qi, true);
                    next.push(q);
                    proof {
                        if g.in_bounds(start) {
                            assert(s_before[g.idx(start)]);
                            assert(seen@[g.idx(start)]);
                        }
                        n_before.lemma_push_to_set_commute(q);
                        assert(next@.to_set() =~= n_before.to_set().insert(q));
                        assert forall|r: Point| #[trigger] seen_set(g, seen@, start).contains(r) == seen_set(g, s_before, start).insert(q).contains(r) by {
                            if g.in_bounds(r) && r != q {
                                lemma_in_bounds_index_ok(g, r);
                                if g.idx(r) == qi {
                                    lemma_idx_injective(g, r, q);
                                }
                            }
                        }
                        assert(seen_set(g, seen@, start) =~= seen0.union(next@.to_set()));
                        assert(next@.to_set() =~= next_k.to_set().union(targets(p, dirs@.take(m + 1)).difference(seen0)));
                    }
                } else {
                    proof {
                        assert(seen_set(g, seen@, start).contains(q));
                        assert(next@.to_set() =~= next_k.to_set().union(targets(p, dirs@.take(m + 1)).difference(seen0)));
                    }
                }
                m += 1;
            }
            proof {
                assert(dirs@.take(m as int) =~= dirs@);
                lemma_targets_open(g, p);
                assert(frontier@.take(k + 1) =~= frontier@.take(k as int).push(p));
                frontier@.take(k as int).lemma_push_to_set_commute(p);
                assert(frontier@.take(k + 1).to_set() =~= frontier@.take(k as int).to_set().union(set![p]));
                lemma_next_points_union(g, frontier@.take(k as int).to_set(), set![p]);
                assert(next@.to_set() =~= next_points(g, frontier@.take(k + 1).to_set()).difference(seen0));
            }
            k += 1;
        }
        proof {
            assert(frontier@.take(k as int) =~= frontier@);
            lemma_widen(g, start, dist as nat);
            assert(within(g, start, (dist + 1) as nat) =~= seen0.union(next@.to_set()));
        }
        if next.len() == 0 {
            proof {
                assert(next@.to_set() =~= Set::empty());
                assert(within(g, start, (dist + 1) as nat) =~= within(g, start, dist as nat));
                assert forall|n: nat| !food_within(g, start, n) by {
                    if n <= dist {
                        lemma_within_mono(g, start, n, dist as nat);
                        if food_within(g, start, n) {
                            let q = choose|q: Point| #[trigger] within(g, start, n).contains(q) && g.at(q) == Cell::Food;
                            assert(within(g, start, dist as nat).contains(q));
                        }
                    } else {
                        lemma_within_stable(g, start, dist as nat, n);
                    }
                }
                assert(!(exists|n: nat| food_within(g, start, n)));
                assert(food_distance(g, start) == 0);
            }
            return 0;
        }
        proof {
            assert(layer(g, start, (dist + 1) as nat) =~= next@.to_set());
            assert forall|a: int| 0 <= a < next@.len() implies (#[trigger] next@[a] == start || g.in_bounds(next@[a])) by {}
        }
        proof {
            assert(g.width * g.height <= 32767 * 32767) by (nonlinear_arith)
                requires
                    0 <= g.width <= 32767,
                    0 <= g.height <= 32767,
            ;
        }
        frontier = next;
        dist = dist + 1;
    }
}

// ------------------------------------------------------------------ cartesian product

/// All ways of picking one item of each pool, the last pool varying fastest.
pub open spec fn product<T>(pools: Seq<Seq<T>>) -> Seq<Seq<T>>
    decreases pools.len(),
{
    if pools.len() == 0 {
        seq![Seq::empty()]
    } else {
        let r = product(pools.drop_last());
        let l = pools.last();
        Seq::new(r.len() * l.len(), |k: int| r[k / l.len() as int].push(l[k % l.len() as int]))
    }
}

/// The number of picks over the first `m` pools.
pub open spec fn product_len<T>(pools: Seq<Seq<T>>, m: int) -> int
    decreases m,
{
    if m <= 0 {
        1
    } else {
        product_len(pools, m - 1) * pools[m - 1].len()
    }
}

/// The position, among all picks of the first `m` pools, of the pick `ind`.
pub open spec fn rank<T>(ind: Seq<usize>, pools: Seq<Seq<T>>, m: int) -> int
    decreases m,
{
    if m <= 0 {
        0
    } else {
        rank(ind, pools, m - 1) * pools[m - 1].len() + ind[m - 1]
    }
}

/// `ind` picks an item of each pool.
pub open spec fn valid_pick<T>(ind: Seq<usize>, pools: Seq<Seq<T>>) -> bool {
    &&& ind.len() == pools.len()
    &&& forall|i: int| 0 <= i < ind.len() ==> #[trigger] ind[i] < pools[i].len()
}

/// The items picked by `ind`.
pub open spec fn pick<T>(ind: Seq<usize>, pools: Seq<Seq<T>>) -> Seq<T> {
    Seq::new(ind.len(), |i: int| pools[i][ind[i] as int])
}

/// The product has as many picks as the product of the pool sizes.
pub proof fn lemma_product_len<T>(pools: Seq<Seq<T>>)
    ensures
        product(pools).len() == product_len(pools, pools.len() as int),
        product_len(pools, pools.len() as int) >= 0,
    decreases pools.len(),
{
    if pools.len() > 0 {
        let p = pools.drop_last();
        lemma_product_len(p);
        lemma_product_len_prefix(pools, p, p.len() as int);
        assert(product_len(pools, pools.len() as int) >= 0) by (nonlinear_arith)
            requires
                product_len(pools, pools.len() as int) == product_len(pools, pools.len() - 1) * pools[pools.len() - 1].len(),
                product_len(pools, pools.len() - 1) >= 0,
        ;
    }
}

/// Pools equal on a prefix have the same number of picks over it.
pub proof fn lemma_product_len_prefix<T>(pools: Seq<Seq<T>>, other: Seq<Seq<T>>, m: int)
    requires
        0 <= m <= pools.len(),
        m <= other.len(),
        forall|i: int| 0 <= i < m ==> pools[i] == other[i],
    ensures
        product_len(pools, m) == product_len(other, m),
    decreases m,
{
    if m > 0 {
        lemma_product_len_prefix(pools, other, m - 1);
    }
}

/// Picks equal on a prefix, over pools of equal sizes on it, have the same position over it.
pub proof fn lemma_rank_prefix<T>(ind: Seq<usize>, ind2: Seq<usize>, pools: Seq<Seq<T>>, pools2: Seq<Seq<T>>, m: int)
    requires
        0 <= m,
        m <= ind.len(),
        m <= ind2.len(),
        m <= pools.len(),
        m <= pools2.len(),
        forall|i: int| 0 <= i < m ==> #[trigger] ind[i] == ind2[i],
        forall|i: int| 0 <= i < m ==> (#[trigger] pools[i]).len() == pools2[i].len(),
    ensures
        rank(ind, pools, m) == rank(ind2, pools2, m),
    decreases m,
{
    if m > 0 {
        lemma_rank_prefix(ind, ind2, pools, pools2, m - 1);
        assert(ind[m - 1] == ind2[m - 1] && pools[m - 1].len() == pools2[m - 1].len());
    }
}

/// A pick of the first `m` pools has a position below their number of picks.
pub proof fn lemma_rank_bound<T>(ind: Seq<usize>, pools: Seq<Seq<T>>, m: int)
    requires
        valid_pick(ind, pools),
        0 <= m <= pools.len(),
    ensures
        0 <= rank(ind, pools, m) < product_len(pools, m),
    decreases m,
{
    if m > 0 {
        lemma_rank_bound(ind, pools, m - 1);
        let r = rank(ind, pools, m - 1);
        let p = product_len(pools, m - 1);
        let l = pools[m - 1].len() as int;
        let x = ind[m - 1] as int;
        assert(0 <= r * l + x < p * l) by (nonlinear_arith)
            requires
                0 <= r < p,
                0 <= x < l,
        ;
    }
}

/// The pick `ind` stands at position `rank(ind)` of the product.
pub proof fn lemma_product_pick<T>(ind: Seq<usize>, pools: Seq<Seq<T>>)
    requires
        valid_pick(ind, pools),
    ensures
        0 <= rank(ind, pools, pools.len() as int) < product(pools).len(),
        product(pools)[rank(ind, pools, pools.len() as int)] == pick(ind, pools),
    decreases pools.len(),
{
    lemma_product_len(pools);
    lemma_rank_bound(ind, pools, pools.len() as int);
    if pools.len() == 0 {
        assert(pick(ind, pools) =~= Seq::<T>::empty());
    } else {
        let n = pools.len() as int;
        let p = pools.drop_last();
        let ip = ind.drop_last();
        assert(valid_pick(ip, p));
        lemma_product_pick(ip, p);
        lemma_rank_prefix(ip, ind, p, pools, n - 1);
        let r = rank(ind, pools, n - 1);
        let l = pools[n - 1].len() as int;
        let x = ind[n - 1] as int;
        let k = r * l + x;
        vstd::arithmetic::div_mod::lemma_fundamental_div_mod_converse_div(k, l, r, x);
        vstd::arithmetic::div_mod::lemma_fundamental_div_mod_converse_mod(k, l, r, x);
        assert(product(pools)[k] == product(p)[r].push(pools.last()[x]));
        assert(product(pools)[k] =~= pick(ind, pools));
    }
}

/// Moving the odometer at position `i` (later positions at their last item go back to 0) adds one
/// to the position of the pick.
pub proof fn lemma_rank_carry<T>(old_ind: Seq<usize>, new_ind: Seq<usize>, pools: Seq<Seq<T>>, i: int, m: int)
    requires
        0 <= i < m <= pools.len(),
        old_ind.len() == pools.len(),
        new_ind.len() == pools.len(),
        forall|j: int| 0 <= j < i ==> #[trigger] old_ind[j] == new_ind[j],
        new_ind[i] == old_ind[i] + 1,
        forall|j: int| i < j < m ==> #[trigger] new_ind[j] == 0,
        forall|j: int| i < j < m ==> #[trigger] old_ind[j] + 1 == pools[j].len(),
    ensures
        rank(new_ind, pools, m) == rank(old_ind, pools, m) + 1,
    decreases m,
{
    if m == i + 1 {
        lemma_rank_prefix(old_ind, new_ind, pools, pools, i);
    } else {
        lemma_rank_carry(old_ind, new_ind, pools, i, m - 1);
        assert(i < m - 1 < m);
        assert(new_ind[m - 1] == 0 && old_ind[m - 1] + 1 == pools[m - 1].len());
        let r = rank(old_ind, pools, m - 1);
        let l = pools[m - 1].len() as int;
        assert((r + 1) * l + 0 == r * l + (l - 1) + 1) by (nonlinear_arith);
    }
}

/// When every position is at its last item, the pick is the last one.
pub proof fn lemma_rank_last<T>(ind: Seq<usize>, pools: Seq<Seq<T>>, m: int)
    requires
        0 <= m <= pools.len(),
        ind.len() == pools.len(),
        forall|j: int| 0 <= j < m ==> #[trigger] ind[j] + 1 == pools[j].len(),
    ensures
        rank(ind, pools, m) + 1 == product_len(pools, m),
    decreases m,
{
    if m > 0 {
        lemma_rank_last(ind, pools, m - 1);
        let r = rank(ind, pools, m - 1);
        let l = pools[m - 1].len() as int;
        assert(r * l + (l - 1) + 1 == (r + 1) * l) by (nonlinear_arith);
    }
}

/// Every combination of the product has one item per pool, its `i`-th item taken from pool `i`.
pub proof fn lemma_product_item<T>(pools: Seq<Seq<T>>, k: int)
    requires
        0 <= k < product(pools).len(),
    ensures
        product(pools)[k].len() == pools.len(),
        forall|i: int| 0 <= i < pools.len() ==> #[trigger] pools[i].contains(product(pools)[k][i]),
    decreases pools.len(),
{
    if pools.len() > 0 {
        let p = pools.drop_last();
        let l = pools.last().len() as int;
        lemma_product_len(p);
        assert(l > 0) by (nonlinear_arith)
            requires
                0 <= k < product(p).len() * l,
        ;
        assert(0 <= k / l < product(p).len()) by (nonlinear_arith)
            requires
                0 <= k < product(p).len() * l,
                l > 0,
        ;
        lemma_product_item(p, k / l);
        let item = product(pools)[k];
        assert(item == product(p)[k / l].push(pools.last()[k % l]));
        assert forall|i: int| 0 <= i < pools.len() implies #[trigger] pools[i].contains(item[i]) by {
            if i < pools.len() - 1 {
                assert(p[i] == pools[i]);
                assert(item[i] == product(p)[k / l][i]);
                assert(p[i].contains(product(p)[k / l][i]));
            } else {
                assert(pools[i][k % l] == item[i]);
            }
        }
    }
}

/// Iterates over all ways of picking one item of each pool, the last pool varying fastest.
pub trait CartesianProductIterTrait<T: Clone> {
    spec fn pools_view(&self) -> Seq<Seq<T>>;

    fn cartesian_product_iter(&self) -> (it: CartesianProductIter<'_, T>)
        ensures
            it.pools_view() == self.pools_view(),
            it.wf(),
            it.current() == Seq::new(self.pools_view().len(), |i: int| 0usize),
            it.is_done() == exists|i: int| 0 <= i < self.pools_view().len() && #[trigger] self.pools_view()[i].len() == 0,
    ;
}

/// An odometer over the pools: the next pick, and whether every pick was given.
pub struct CartesianProductIter<'a, T: Clone> {
    pools: &'a [Vec<T>],
    indices: Vec<usize>,
    done: bool,
}

impl<'a, T: Clone> CartesianProductIter<'a, T> {
    /// The pools, as sequences.
    pub closed spec fn pools_view(&self) -> Seq<Seq<T>> {
        self.pools@.map_values(|v: Vec<T>| v@)
    }

    /// The current pick; meaningful while the iteration is not done.
    pub closed spec fn current(&self) -> Seq<usize> {
        self.indices@
    }

    /// Every pick was given.
    pub closed spec fn is_done(&self) -> bool {
        self.done
    }

    /// The position of the next pick among all picks.
    pub open spec fn position(&self) -> int {
        rank(self.current(), self.pools_view(), self.pools_view().len() as int)
    }

    /// One index per pool, and while not done each index picks an item.
    pub closed spec fn wf(&self) -> bool {
        &&& self.indices@.len() == self.pools@.len()
        &&& !self.done ==> valid_pick(self.indices@, self.pools_view())
    }

    /// What one call of `next` does: from `before` it gives `r` and leaves `after`. The pools stay;
    /// once done, nothing is given; otherwise the current pick is given (cloned item by item),
    /// which is the item of the product at the current position, and the odometer moves to the
    /// next position or, after the last one, is done.
    pub open spec fn next_step(before: Self, after: Self, r: Option<Vec<T>>) -> bool {
        &&& after.pools_view() == before.pools_view()
        &&& before.is_done() ==> r is None && after.is_done()
        &&& !before.is_done() ==> {
            &&& r is Some
            &&& r->0@.len() == before.pools_view().len()
            &&& forall|i: int| 0 <= i < r->0@.len() ==> cloned(
                #[trigger] pick(before.current(), before.pools_view())[i],
                r->0@[i],
            )
            &&& 0 <= before.position() < product(before.pools_view()).len()
            &&& product(before.pools_view())[before.position()] == pick(before.current(), before.pools_view())
            &&& before.pools_view().len() == 0 ==> !after.is_done() && after.current() == before.current()
            &&& before.pools_view().len() > 0 ==> if after.is_done() {
                before.position() + 1 == product(before.pools_view()).len()
            } else {
                after.position() == before.position() + 1
            }
        }
    }

    /// The next pick, then the odometer moves on; `None` once every pick was given.
    pub fn next(&mut self) -> (r: Option<Vec<T>>)
        requires
            old(self).wf(),
        ensures
            final(self).wf(),
            Self::next_step(*old(self), *final(self), r),
    {
        if self.done {
            return None;
        }
        let ghost pv = self.pools_view();
        let ghost ind0 = self.indices@;
        proof {
            lemma_product_pick(ind0, pv);
            lemma_product_len(pv);
        }
        let n = self.indices.len();
        let mut result: Vec<T> = Vec::new();
        let mut i: usize = 0;
        while i < n
            invariant
                0 <= i <= n,
                n == self.indices@.len(),
                self.indices@ == ind0,
                pv == self.pools_view(),
                self.pools == old(self).pools,
                !old(self).done,
                self.wf(),
                !self.done,
                result@.len() == i,
                forall|k: int| 0 <= k < i ==> cloned(#[trigger] pick(ind0, pv)[k], result@[k]),
            decreases n - i,
        {
            assert(pv[i as int] == self.pools@[i as int]@);
            let item = self.pools[i][self.indices[i]].clone();
            result.push(item);
            i += 1;
        }
        let mut i: usize = n;
        while i > 0
            invariant
                0 <= i <= n,
                n == ind0.len(),
                n == pv.len(),
                pv == self.pools_view(),
                self.pools == old(self).pools,
                !old(self).done,
                ind0 == old(self).indices@,
                self.indices@.len() == n,
                valid_pick(ind0, pv),
                self.done == (i == 0 && n > 0),
                result@.len() == n,
                forall|k: int| 0 <= k < n ==> cloned(#[trigger] pick(ind0, pv)[k], result@[k]),
                forall|j: int| 0 <= j < i ==> #[trigger] self.indices@[j] == ind0[j],
                forall|j: int| i <= j < n ==> #[trigger] self.indices@[j] == 0,
                forall|j: int| i <= j < n ==> #[trigger] ind0[j] + 1 == pv[j].len(),
            decreases i,
        {
            let k = i - 1;
            assert(pv[k as int] == self.pools@[k as int]@);
            assert(self.indices@[k as int] == ind0[k as int]);
            assert(ind0[k as int] < pv[k as int].len());
            let lk = self.pools[k].len();
            let bumped = self.indices[k] + 1;
            if bumped < lk {
                let ghost before = self.indices@;
                self.indices.set(k, bumped);
                proof {
                    assert forall|j: int| 0 <= j < k implies #[trigger] ind0[j] == self.indices@[j] by {
                        assert(before[j] == ind0[j]);
                    }
                    assert forall|j: int| k < j < n implies #[trigger] self.indices@[j] == 0 by {
                        assert(before[j] == 0);
                    }
                    lemma_rank_carry(ind0, self.indices@, pv, k as int, n as int);
                    assert forall|j: int| 0 <= j < self.indices@.len() implies #[trigger] self.indices@[j] < pv[j].len() by {
                        if j < k {
                            assert(ind0[j] < pv[j].len());
                        } else if j > k {
                            assert(ind0[j] + 1 == pv[j].len());
                        }
                    }
                    assert(valid_pick(self.indices@, pv));
                    lemma_product_pick(ind0, pv);
                    lemma_product_len(pv);
                }
                return Some(result);
            } else {
                self.indices.set(k, 0);
                if k == 0 {
                    self.done = true;
                }
            }
            i = k;
        }
        proof {
            lemma_product_pick(ind0, pv);
            lemma_product_len(pv);
            if n > 0 {
                lemma_rank_last(ind0, pv, n as int);
            } else {
                assert(self.indices@ =~= ind0);
            }
        }
        Some(result)
    }
}

/// With an empty pool among the first `m`, there is no pick.
pub proof fn lemma_product_len_empty<T>(pools: Seq<Seq<T>>, m: int, e: int)
    requires
        0 <= e < m <= pools.len(),
        pools[e].len() == 0,
    ensures
        product_len(pools, m) == 0,
    decreases m,
{
    let l = pools[m - 1].len() as int;
    let before = product_len(pools, m - 1);
    assert(product_len(pools, m) == before * l);
    if m - 1 > e {
        lemma_product_len_empty(pools, m - 1, e);
        assert(before * l == 0) by (nonlinear_arith)
            requires
                before == 0,
        ;
    } else {
        assert(before * l == 0) by (nonlinear_arith)
            requires
                l == 0,
        ;
    }
}

/// The state before call `j` of a run of `next` calls from the first state of an iteration: the
/// same pools, not done and at position `j` while `j` is below the product's size, done from then
/// on (for every state that is called again).
proof fn lemma_product_iter_state<'a, T: Clone>(
    its: Seq<CartesianProductIter<'a, T>>,
    rs: Seq<Option<Vec<T>>>,
    j: int,
)
    requires
        its.len() == rs.len() + 1,
        its[0].pools_view().len() >= 1,
        its[0].current() == Seq::new(its[0].pools_view().len(), |i: int| 0usize),
        its[0].is_done() == exists|i: int| 0 <= i < its[0].pools_view().len() && #[trigger] its[0].pools_view()[i].len() == 0,
        forall|k: int| 0 <= k < rs.len() ==> CartesianProductIter::next_step(its[k], its[k + 1], #[trigger] rs[k]),
        0 <= j < its.len(),
    ensures
        its[j].pools_view() == its[0].pools_view(),
        j < product(its[0].pools_view()).len() ==> !its[j].is_done() && its[j].position() == j,
        product(its[0].pools_view()).len() <= j < rs.len() ==> its[j].is_done(),
    decreases j,
{
    let pv = its[0].pools_view();
    let size = product(pv).len();
    lemma_product_len(pv);
    if j == 0 {
        if its[0].is_done() {
            let e = choose|i: int| 0 <= i < pv.len() && #[trigger] pv[i].len() == 0;
            lemma_product_len_empty(pv, pv.len() as int, e);
        } else {
            lemma_rank_zero(its[0].current(), pv, pv.len() as int);
            if 0 < rs.len() {
                assert(CartesianProductIter::next_step(its[0], its[1], rs[0]));
            }
        }
    } else {
        lemma_product_iter_state(its, rs, j - 1);
        assert(CartesianProductIter::next_step(its[j - 1], its[j], rs[j - 1]));
        if j < rs.len() {
            assert(CartesianProductIter::next_step(its[j], its[j + 1], rs[j]));
        }
    }
}

/// The whole run of an iteration over at least one pool: starting from the state that
/// `cartesian_product_iter` gives, call `j` of `next` gives item `j` of the product (cloned item
/// by item) while `j` is below the product's size, and `None` from then on; the pools stay the
/// same. With an empty pool the product has no item, so every call gives `None`.
pub proof fn lemma_product_iter_run<'a, T: Clone>(
    its: Seq<CartesianProductIter<'a, T>>,
    rs: Seq<Option<Vec<T>>>,
)
    requires
        its.len() == rs.len() + 1,
        its[0].wf(),
        its[0].pools_view().len() >= 1,
        its[0].current() == Seq::new(its[0].pools_view().len(), |i: int| 0usize),
        its[0].is_done() == exists|i: int| 0 <= i < its[0].pools_view().len() && #[trigger] its[0].pools_view()[i].len() == 0,
        forall|k: int| 0 <= k < rs.len() ==> CartesianProductIter::next_step(its[k], its[k + 1], #[trigger] rs[k]),
    ensures
        product(its[0].pools_view()).len() == product_len(its[0].pools_view(), its[0].pools_view().len() as int),
        (exists|i: int| 0 <= i < its[0].pools_view().len() && #[trigger] its[0].pools_view()[i].len() == 0)
            ==> product(its[0].pools_view()).len() == 0,
        forall|j: int| 0 <= j < rs.len() && j < product(its[0].pools_view()).len() ==> {
            &&& #[trigger] rs[j] is Some
            &&& rs[j]->0@.len() == its[0].pools_view().len()
            &&& forall|i: int| 0 <= i < rs[j]->0@.len() ==> cloned(
                #[trigger] product(its[0].pools_view())[j][i],
                rs[j]->0@[i],
            )
        },
        forall|j: int| product(its[0].pools_view()).len() <= j < rs.len() ==> #[trigger] rs[j] is None,
        forall|j: int| 0 <= j < its.len() ==> #[trigger] its[j].pools_view() == its[0].pools_view(),
{
    let pv = its[0].pools_view();
    lemma_product_len(pv);
    if exists|i: int| 0 <= i < pv.len() && #[trigger] pv[i].len() == 0 {
        let e = choose|i: int| 0 <= i < pv.len() && #[trigger] pv[i].len() == 0;
        lemma_product_len_empty(pv, pv.len() as int, e);
    }
    assert forall|j: int| 0 <= j < rs.len() && j < product(pv).len() implies {
        &&& #[trigger] rs[j] is Some
        &&& rs[j]->0@.len() == pv.len()
        &&& forall|i: int| 0 <= i < rs[j]->0@.len() ==> cloned(#[trigger] product(pv)[j][i], rs[j]->0@[i])
    } by {
        lemma_product_iter_state(its, rs, j);
        assert(CartesianProductIter::next_step(its[j], its[j + 1], rs[j]));
        assert(product(pv)[j] == pick(its[j].current(), pv));
    }
    assert forall|j: int| product(pv).len() <= j < rs.len() implies #[trigger] rs[j] is None by {
        lemma_product_iter_state(its, rs, j);
        assert(CartesianProductIter::next_step(its[j], its[j + 1], rs[j]));
    }
    assert forall|j: int| 0 <= j < its.len() implies #[trigger] its[j].pools_view() == pv by {
        lemma_product_iter_state(its, rs, j);
    }
}

impl<T: Clone> CartesianProductIterTrait<T> for Vec<Vec<T>> {
    open spec fn pools_view(&self) -> Seq<Seq<T>> {
        self@.map_values(|v: Vec<T>| v@)
    }

    fn cartesian_product_iter(&self) -> (it: CartesianProductIter<'_, T>) {
        let mut done = false;
        let mut indices: Vec<usize> = Vec::new();
        let mut i: usize = 0;
        while i < self.len()
            invariant
                0 <= i <= self@.len(),
                indices@ == Seq::new(i as nat, |k: int| 0usize),
                done == exists|k: int| 0 <= k < i && #[trigger] self@[k]@.len() == 0,
            decreases self@.len() - i,
        {
            if self[i].len() == 0 {
                done = true;
            }
            indices.push(0);
            i += 1;
            assert(indices@ =~= Seq::new(i as nat, |k: int| 0usize));
        }
        let it = CartesianProductIter { pools: self.as_slice(), indices, done };
        assert(it.pools_view() =~= self.pools_view());
        assert(forall|k: int| 0 <= k < self@.len() ==> #[trigger] self.pools_view()[k] == self@[k]@);
        proof {
            if done {
                let k = choose|k: int| 0 <= k < self@.len() && #[trigger] self@[k]@.len() == 0;
                assert(self.pools_view()[k].len() == 0);
            } else {
                assert forall|k: int| 0 <= k < self@.len() implies #[trigger] self.pools_view()[k].len() != 0 by {
                    assert(self@[k]@.len() != 0);
                }
            }
        }
        proof {
            if !done {
                assert forall|k: int| 0 <= k < indices@.len() implies indices@[k] < #[trigger] it.pools_view()[k].len() by {
                    assert(self@[k]@.len() != 0);
                }
            }
        }
        it
    }
}


// ------------------------------------------------------------------ evaluation

/// Total length of the snakes of side `mine`.
pub open spec fn side_length(snakes: Seq<SnakeModel>, mine: bool) -> int
    decreases snakes.len(),
{
    if snakes.len() == 0 {
        0
    } else {
        side_length(snakes.drop_last(), mine) + if snakes.last().mine == mine {
            snakes.last().body.len() as int
        } else {
            0
        }
    }
}

/// Total, over the snakes of side `mine`, of the moves from their heads to the nearest food.
pub open spec fn side_distance(g: GridModel<Cell>, snakes: Seq<SnakeModel>, mine: bool) -> int
    decreases snakes.len(),
{
    if snakes.len() == 0 {
        0
    } else {
        side_distance(g, snakes.drop_last(), mine) + if snakes.last().mine == mine {
            food_distance(g, snakes.last().head())
        } else {
            0
        }
    }
}

/// The heads of the snakes of side `mine` are on cells, and one step from them stays within `Coord`.
pub open spec fn heads_ok(g: GameModel, mine: bool) -> bool {
    &&& g.grid.wf()
    &&& forall|i: int|
        0 <= i < g.snakes.len() && (#[trigger] g.snakes[i]).mine == mine ==> {
            &&& g.snakes[i].body.len() > 0
            &&& g.grid.index_ok(g.snakes[i].head())
            &&& steps_ok(g.snakes[i].head())
        }
}

/// The length total taken as an `i32`.
pub open spec fn length_score(g: GameModel, mine: bool) -> int {
    (side_length(g.snakes, mine) as usize) as i32 as int
}

/// The evaluation of a game for side `mine` can be computed without overflow.
pub open spec fn evaluate_ok(g: GameModel, mine: bool) -> bool {
    &&& heads_ok(g, mine)
    &&& side_length(g.snakes, mine) <= usize::MAX
    &&& side_distance(g.grid, g.snakes, mine) <= i32::MAX
    &&& 100 + length_score(g, mine) <= i32::MAX
    &&& i32::MIN <= 100 + length_score(g, mine) - side_distance(g.grid, g.snakes, mine)
}

/// 100, plus the length of the side's snakes, minus their distances to food.
pub open spec fn evaluation(g: GameModel, mine: bool) -> int {
    100 + length_score(g, mine) - side_distance(g.grid, g.snakes, mine)
}

/// The length total over a prefix of the snakes is at most the total over all of them.
pub proof fn lemma_side_length_mono(snakes: Seq<SnakeModel>, mine: bool, i: int)
    requires
        0 <= i <= snakes.len(),
    ensures
        0 <= side_length(snakes.take(i), mine) <= side_length(snakes, mine),
    decreases snakes.len() - i,
{
    if i < snakes.len() {
        lemma_side_length_mono(snakes, mine, i + 1);
        assert(snakes.take(i + 1).drop_last() =~= snakes.take(i));
    } else {
        assert(snakes.take(i) =~= snakes);
    }
    lemma_side_length_nonneg(snakes.take(i), mine);
}

/// A length total is never negative.
pub proof fn lemma_side_length_nonneg(snakes: Seq<SnakeModel>, mine: bool)
    ensures
        0 <= side_length(snakes, mine),
    decreases snakes.len(),
{
    if snakes.len() > 0 {
        lemma_side_length_nonneg(snakes.drop_last(), mine);
    }
}

/// A distance to food is never negative.
pub proof fn lemma_food_distance_nonneg(g: GridModel<Cell>, start: Point)
    ensures
        0 <= food_distance(g, start),
{
}

/// A distance total is never negative.
pub proof fn lemma_side_distance_nonneg(g: GridModel<Cell>, snakes: Seq<SnakeModel>, mine: bool)
    ensures
        0 <= side_distance(g, snakes, mine),
    decreases snakes.len(),
{
    if snakes.len() > 0 {
        lemma_side_distance_nonneg(g, snakes.drop_last(), mine);
        lemma_food_distance_nonneg(g, snakes.last().head());
    }
}

/// The distance total over a prefix of the snakes is at most the total over all of them.
pub proof fn lemma_side_distance_mono(g: GridModel<Cell>, snakes: Seq<SnakeModel>, mine: bool, i: int)
    requires
        0 <= i <= snakes.len(),
    ensures
        0 <= side_distance(g, snakes.take(i), mine) <= side_distance(g, snakes, mine),
    decreases snakes.len() - i,
{
    if i < snakes.len() {
        lemma_side_distance_mono(g, snakes, mine, i + 1);
        assert(snakes.take(i + 1).drop_last() =~= snakes.take(i));
        lemma_food_distance_nonneg(g, snakes[i].head());
    } else {
        assert(snakes.take(i) =~= snakes);
    }
    lemma_side_distance_nonneg(g, snakes.take(i), mine);
}

/// 100, plus the total length of the snakes of side `mine`, minus the total of their distances to
/// the nearest food.
pub fn evaluate(game: &GameState, mine: bool) -> (score: i32)
    requires
        evaluate_ok(game@, mine),
    ensures
        score == evaluation(game@, mine),
{
    let ghost ss = game@.snakes;
    let mut total_length: usize = 0;
    let mut i: usize = 0;
    while i < game.snakes.len()
        invariant
            0 <= i <= ss.len(),
            ss == snake_models(game.snakes@),
            side_length(ss, mine) <= usize::MAX,
            total_length == side_length(ss.take(i as int), mine),
        decreases ss.len() - i,
    {
        proof {
            lemma_side_length_mono(ss, mine, i + 1);
            assert(ss.take(i + 1).drop_last() =~= ss.take(i as int));
            assert(ss[i as int] == game.snakes@[i as int]@);
        }
        if game.snakes[i].mine == mine {
            total_length = total_length + game.snakes[i].len();
        }
        i += 1;
    }
    assert(ss.take(i as int) =~= ss);
    let total_length = #[verifier::truncate] (total_length as i32);
    let mut total_distance: i32 = 0;
    let mut i: usize = 0;
    while i < game.snakes.len()
        invariant
            0 <= i <= ss.len(),
            ss == snake_models(game.snakes@),
            heads_ok(game@, mine),
            side_distance(game@.grid, ss, mine) <= i32::MAX,
            total_distance == side_distance(game@.grid, ss.take(i as int), mine),
        decreases ss.len() - i,
    {
        proof {
            lemma_side_distance_mono(game@.grid, ss, mine, i + 1);
            assert(ss.take(i + 1).drop_last() =~= ss.take(i as int));
            assert(ss[i as int] == game.snakes@[i as int]@);
            assert(game@.snakes[i as int] == ss[i as int]);
        }
        if game.snakes[i].mine == mine {
            let d = distance_to_closest_food(&game.grid, &game.snakes[i]);
            total_distance = total_distance + d;
        }
        i += 1;
    }
    assert(ss.take(i as int) =~= ss);
    assert(total_length as int == length_score(game@, mine));
    assert(total_distance as int == side_distance(game@.grid, game@.snakes, mine));
    proof {
        lemma_side_distance_nonneg(game@.grid, game@.snakes, mine);
    }
    100 + total_length - total_distance
}

// ------------------------------------------------------------------ search

/// The snakes of side `mine` can have their moves listed.
pub open spec fn moves_ok(g: GameModel, mine: bool) -> bool {
    &&& g.grid.wf()
    &&& forall|i: int|
        0 <= i < g.snakes.len() && (#[trigger] g.snakes[i]).mine == mine ==> {
            &&& g.snakes[i].body.len() > 0
            &&& steps_ok(g.snakes[i].head())
        }
}

/// The moves tried for each snake of side `mine`, in the order of the snakes.
pub open spec fn side_pools(g: GameModel, mine: bool) -> Seq<Seq<Direction>> {
    side_snakes(g.snakes, mine).map_values(|s: SnakeModel| snake_moves_spec(g.grid, s))
}

/// The best score reachable from `g` in `depth` turns of side `mine` (0 at least, the evaluation
/// at depth 0). `None` when a turn or an evaluation on the way cannot be played, or when at a
/// positive depth the side has no snake left.
pub open spec fn search(g: GameModel, mine: bool, depth: int) -> Option<int>
    decreases depth, 1int, 0int,
{
    if depth < 0 {
        None
    } else if depth == 0 {
        if evaluate_ok(g, mine) {
            Some(evaluation(g, mine))
        } else {
            None
        }
    } else if !moves_ok(g, mine) || side_snakes(g.snakes, mine).len() == 0 {
        None
    } else {
        search_combos(g, mine, depth, product(side_pools(g, mine)).len() as int)
    }
}

/// The best score over the first `k` combinations of moves from `g`, starting from 0.
pub open spec fn search_combos(g: GameModel, mine: bool, depth: int, k: int) -> Option<int>
    decreases depth, 0int, k,
{
    if depth <= 0 || k <= 0 {
        Some(0)
    } else {
        match search_combos(g, mine, depth, k - 1) {
            None => None,
            Some(best) => match apply_result(g, product(side_pools(g, mine))[k - 1], Some(mine)) {
                None => None,
                Some(g2) => match search(g2, mine, depth - 1) {
                    None => None,
                    Some(score) => Some(if score > best { score } else { best }),
                },
            },
        }
    }
}

/// A search over `n` combinations that can be played can be played over fewer.
pub proof fn lemma_search_combos_prefix(g: GameModel, mine: bool, depth: int, k: int, n: int)
    requires
        0 <= k <= n,
        search_combos(g, mine, depth, n) is Some,
    ensures
        search_combos(g, mine, depth, k) is Some,
    decreases n - k,
{
    if k < n {
        lemma_search_combos_prefix(g, mine, depth, k, n - 1);
    }
}

/// Every snake of the side is a snake of the game, of that side.
pub proof fn lemma_side_member(g: GameModel, mine: bool, j: int)
    requires
        0 <= j < side_snakes(g.snakes, mine).len(),
    ensures
        exists|i: int| 0 <= i < g.snakes.len() && g.snakes[i] == side_snakes(g.snakes, mine)[j] && g.snakes[i].mine == mine,
{
    let f = |s: SnakeModel| s.mine == mine;
    let m = side_snakes(g.snakes, mine)[j];
    g.snakes.lemma_filter_pred(f, j);
    assert(g.snakes.filter(f).contains(m));
    g.snakes.lemma_filter_contains_rev(f, m);
    let i = choose|i: int| 0 <= i < g.snakes.len() && g.snakes[i] == m;
}

/// The side's snakes can have their moves listed.
pub proof fn lemma_side_moves_ok(g: GameModel, mine: bool, j: int)
    requires
        moves_ok(g, mine),
        0 <= j < side_snakes(g.snakes, mine).len(),
    ensures
        side_snakes(g.snakes, mine)[j].body.len() > 0,
        steps_ok(side_snakes(g.snakes, mine)[j].head()),
{
    lemma_side_member(g, mine, j);
    let i = choose|i: int| 0 <= i < g.snakes.len() && g.snakes[i] == side_snakes(g.snakes, mine)[j] && g.snakes[i].mine == mine;
    assert(g.snakes[i].mine == mine);
}

/// The first pick of every pool stands first.
pub proof fn lemma_rank_zero<T>(ind: Seq<usize>, pools: Seq<Seq<T>>, m: int)
    requires
        0 <= m <= ind.len(),
        forall|i: int| 0 <= i < ind.len() ==> #[trigger] ind[i] == 0,
    ensures
        rank(ind, pools, m) == 0,
    decreases m,
{
    if m > 0 {
        lemma_rank_zero(ind, pools, m - 1);
        assert(ind[m - 1] == 0);
    }
}

/// The snakes of side `mine`, by reference, in order.
fn side_refs(game: &GameState, mine: bool) -> (r: Vec<&Snake>)
    ensures
        r@.map_values(|s: &Snake| s@) == side_snakes(game@.snakes, mine),
{
    let ghost ms = game@.snakes;
    let mut r: Vec<&Snake> = Vec::new();
    let mut i: usize = 0;
    while i < game.snakes.len()
        invariant
            0 <= i <= ms.len(),
            ms == snake_models(game.snakes@),
            r@.map_values(|s: &Snake| s@) == side_snakes(ms.take(i as int), mine),
        decreases ms.len() - i,
    {
        proof {
            assert(ms.take(i + 1) =~= ms.take(i as int).push(ms[i as int]));
            ms.take(i as int).lemma_filter_push(ms[i as int], |s: SnakeModel| s.mine == mine);
            assert(ms[i as int] == game.snakes@[i as int]@);
        }
        if game.snakes[i].mine == mine {
            let ghost before = r@;
            r.push(&game.snakes[i]);
            proof {
                assert(r@.map_values(|s: &Snake| s@) =~= before.map_values(|s: &Snake| s@).push(ms[i as int]));
            }
        }
        i += 1;
    }
    assert(ms.take(i as int) =~= ms);
    r
}

/// The moves tried for each of `snakes`.
fn moves_per_snake(grid: &Grid, snakes: &Vec<&Snake>) -> (pools: Vec<Vec<Direction>>)
    requires
        grid@.wf(),
        forall|j: int| 0 <= j < snakes@.len() ==> (#[trigger] snakes@[j]).body@.len() > 0 && steps_ok(snakes@[j].body@[0]),
    ensures
        pools@.map_values(|v: Vec<Direction>| v@) == snakes@.map_values(|s: &Snake| snake_moves_spec(grid@, s@)),
        forall|j: int| 0 <= j < pools@.len() ==> (#[trigger] pools@[j])@.len() > 0,
{
    let mut pools: Vec<Vec<Direction>> = Vec::new();
    let mut j: usize = 0;
    while j < snakes.len()
        invariant
            0 <= j <= snakes@.len(),
            grid@.wf(),
            forall|q: int| 0 <= q < snakes@.len() ==> (#[trigger] snakes@[q]).body@.len() > 0 && steps_ok(snakes@[q].body@[0]),
            pools@.len() == j,
            forall|q: int| 0 <= q < j ==> (#[trigger] pools@[q])@ == snake_moves_spec(grid@, snakes@[q]@),
            forall|q: int| 0 <= q < j ==> (#[trigger] pools@[q])@.len() > 0,
        decreases snakes@.len() - j,
    {
        let m = snake_moves(grid, snakes[j]);
        pools.push(m);
        j += 1;
    }
    assert(pools@.map_values(|v: Vec<Direction>| v@) =~= snakes@.map_values(|s: &Snake| snake_moves_spec(grid@, s@)));
    pools
}

/// The best score reachable from `game` in `depth` turns of side `mine`.
fn recursive(game: &GameState, mine: bool, depth: i32, history: &Vec<Vec<Direction>>) -> (score: i32)
    requires
        search(game@, mine, depth as int) is Some,
    ensures
        score == search(game@, mine, depth as int)->0,
    decreases depth,
{
    if depth == 0 {
        return evaluate(game, mine);
    }
    let ghost g = game@;
    let my_snakes = side_refs(game, mine);
    proof {
        assert forall|j: int| 0 <= j < my_snakes@.len() implies (#[trigger] my_snakes@[j]).body@.len() > 0 && steps_ok(my_snakes@[j].body@[0]) by {
            lemma_side_moves_ok(g, mine, j);
            assert(my_snakes@.map_values(|s: &Snake| s@)[j] == my_snakes@[j]@);
        }
    }
    let moves_per_snake = moves_per_snake(&game.grid, &my_snakes);
    let ghost pools = side_pools(g, mine);
    proof {
        assert(pools =~= my_snakes@.map_values(|s: &Snake| snake_moves_spec(g.grid, s@))) by {
            assert forall|j: int| 0 <= j < pools.len() implies pools[j] == my_snakes@.map_values(|s: &Snake| snake_moves_spec(g.grid, s@))[j] by {
                assert(my_snakes@.map_values(|s: &Snake| s@)[j] == my_snakes@[j]@);
            }
        }
        lemma_product_len(pools);
    }
    let mut best_score: i32 = 0;
    let mut it = moves_per_snake.cartesian_product_iter();
    proof {
        lemma_rank_zero(it.current(), pools, pools.len() as int);
        assert(moves_per_snake.pools_view() =~= pools);
        if it.is_done() {
            let q = choose|q: int| 0 <= q < pools.len() && #[trigger] pools[q].len() == 0;
            assert(moves_per_snake@[q]@.len() > 0);
        }
    }
    let ghost total = product(pools).len() as int;
    let ghost mut k: int = 0;
    loop
        invariant
            g == game@,
            0 < depth,
            search(g, mine, depth as int) is Some,
            pools == side_pools(g, mine),
            pools.len() > 0,
            total == product(pools).len(),
            it.wf(),
            it.pools_view() == pools,
            0 <= k <= total,
            !it.is_done() ==> k == it.position(),
            it.is_done() ==> k == total,
            search_combos(g, mine, depth as int, total) is Some,
            search_combos(g, mine, depth as int, k) == Some(best_score as int),
        ensures
            search_combos(g, mine, depth as int, total) == Some(best_score as int),
        decreases total - k,
    {
        match it.next() {
            None => {
                break;
            },
            Some(combo) => {
                proof {
                    lemma_search_combos_prefix(g, mine, depth as int, k + 1, total);
                    assert(combo@ =~= product(pools)[k]);
                }
                let mut new_game = game.duplicate();
                new_game.apply(&combo, Some(mine));
                let mut new_history = history.clone();
                new_history.push(combo.clone());
                let score = recursive(&new_game, mine, depth - 1, &new_history);
                if score > best_score {
                    best_score = score;
                }
                proof {
                    k = k + 1;
                }
            },
        }
    }
    best_score
}


/// The position among the first `k` combinations of `pools` of the best one, and its score,
/// starting from none (position -1) at score `i32::MIN`; a combination replaces the best one only
/// with a higher score. `None` when a turn or a search on the way cannot be played.
pub open spec fn best_fold(g: GameModel, mine: bool, depth: int, pools: Seq<Seq<Direction>>, k: int) -> Option<(int, int)>
    decreases k,
{
    if k <= 0 {
        Some((-1, i32::MIN as int))
    } else {
        match best_fold(g, mine, depth, pools, k - 1) {
            None => None,
            Some((bi, bs)) => match apply_result(g, product(pools)[k - 1], Some(mine)) {
                None => None,
                Some(g2) => match search(g2, mine, depth - 1) {
                    None => None,
                    Some(score) => Some(if score > bs { (k - 1, score) } else { (bi, bs) }),
                },
            },
        }
    }
}

/// A fold over `n` combinations that can be played can be played over fewer.
pub proof fn lemma_best_fold_prefix(g: GameModel, mine: bool, depth: int, pools: Seq<Seq<Direction>>, k: int, n: int)
    requires
        0 <= k <= n,
        best_fold(g, mine, depth, pools, n) is Some,
    ensures
        best_fold(g, mine, depth, pools, k) is Some,
    decreases n - k,
{
    if k < n {
        lemma_best_fold_prefix(g, mine, depth, pools, k, n - 1);
    }
}

/// The position of the best combination is among the combinations looked at, or -1.
pub proof fn lemma_best_fold_index(g: GameModel, mine: bool, depth: int, pools: Seq<Seq<Direction>>, k: int)
    requires
        0 <= k,
        best_fold(g, mine, depth, pools, k) is Some,
    ensures
        -1 <= best_fold(g, mine, depth, pools, k).unwrap().0 < k,
    decreases k,
{
    if k > 0 {
        lemma_best_fold_index(g, mine, depth, pools, k - 1);
    }
}

/// The score a combination `c` of moves of side `mine` reaches: the turn it plays from `g`, then
/// the best evaluation found `depth - 1` turns further. `None` when the turn or the search
/// cannot be played.
pub open spec fn turn_score(g: GameModel, mine: bool, depth: int, c: Seq<Direction>) -> Option<int> {
    match apply_result(g, c, Some(mine)) {
        None => None,
        Some(g2) => search(g2, mine, depth - 1),
    }
}

/// Over the first `k` combinations: each one scores at most the kept score; a kept position
/// holds the first combination with that score, which is above `i32::MIN`; no position is kept
/// only when every score is at most `i32::MIN`.
proof fn lemma_best_fold_max(g: GameModel, mine: bool, depth: int, pools: Seq<Seq<Direction>>, k: int)
    requires
        0 <= k,
        best_fold(g, mine, depth, pools, k) is Some,
    ensures
        forall|m: int| 0 <= m < k ==> #[trigger] turn_score(g, mine, depth, product(pools)[m]) is Some
            && turn_score(g, mine, depth, product(pools)[m])->0 <= best_fold(g, mine, depth, pools, k).unwrap().1,
        best_fold(g, mine, depth, pools, k).unwrap().0 == -1 ==> best_fold(g, mine, depth, pools, k).unwrap().1 == i32::MIN,
        best_fold(g, mine, depth, pools, k).unwrap().0 != -1 ==> {
            let b = best_fold(g, mine, depth, pools, k).unwrap().0;
            let bs = best_fold(g, mine, depth, pools, k).unwrap().1;
            &&& 0 <= b < k
            &&& turn_score(g, mine, depth, product(pools)[b]) == Some(bs)
            &&& bs > i32::MIN
            &&& forall|m: int| 0 <= m < b ==> (#[trigger] turn_score(g, mine, depth, product(pools)[m]))->0 < bs
        },
    decreases k,
{
    if k > 0 {
        lemma_best_fold_max(g, mine, depth, pools, k - 1);
        lemma_best_fold_index(g, mine, depth, pools, k - 1);
    }
}

/// The search keeps the best combination: the moves it gives are a combination of the pools whose
/// score no combination beats and that no earlier combination reaches, and that scores above
/// `i32::MIN`.
pub proof fn lemma_best_moves_best(g: GameModel, mine: bool, depth: int, pools: Seq<Seq<Direction>>)
    requires
        best_moves(g, mine, depth, pools) is Some,
    ensures
        exists|b: int| #![trigger product(pools)[b]] {
            &&& 0 <= b < product(pools).len()
            &&& best_moves(g, mine, depth, pools)->0 == product(pools)[b]
            &&& turn_score(g, mine, depth, product(pools)[b]) is Some
            &&& turn_score(g, mine, depth, product(pools)[b])->0 > i32::MIN
            &&& forall|m: int| 0 <= m < product(pools).len() ==> #[trigger] turn_score(g, mine, depth, product(pools)[m]) is Some
                && turn_score(g, mine, depth, product(pools)[m])->0 <= turn_score(g, mine, depth, product(pools)[b])->0
            &&& forall|m: int| 0 <= m < b ==> (#[trigger] turn_score(g, mine, depth, product(pools)[m]))->0
                < turn_score(g, mine, depth, product(pools)[b])->0
        },
{
    let n = product(pools).len() as int;
    lemma_best_fold_max(g, mine, depth, pools, n);
    let b = best_fold(g, mine, depth, pools, n).unwrap().0;
    assert(0 <= b < n);
    assert(best_moves(g, mine, depth, pools)->0 == product(pools)[b]);
}

/// The five-turn search of side `mine` gives a combination of its snakes' moves that no other
/// combination beats, the first of the best ones.
pub proof fn lemma_ai2_best(g: GameModel, mine: bool)
    requires
        ai2_result(g, mine) is Some,
    ensures
        exists|b: int| #![trigger product(side_pools(g, mine))[b]] {
            &&& 0 <= b < product(side_pools(g, mine)).len()
            &&& ai2_result(g, mine)->0 == product(side_pools(g, mine))[b]
            &&& forall|m: int| 0 <= m < product(side_pools(g, mine)).len() ==> #[trigger] turn_score(g, mine, 5, product(side_pools(g, mine))[m]) is Some
                && turn_score(g, mine, 5, product(side_pools(g, mine))[m])->0 <= turn_score(g, mine, 5, product(side_pools(g, mine))[b])->0
            &&& forall|m: int| 0 <= m < b ==> (#[trigger] turn_score(g, mine, 5, product(side_pools(g, mine))[m]))->0
                < turn_score(g, mine, 5, product(side_pools(g, mine))[b])->0
        },
{
    lemma_best_moves_best(g, mine, 5, side_pools(g, mine));
}

/// The combination of moves, one per pool, with the best search score over `depth` turns from
/// `g`: the first of the best ones. `None` when there are no pools (the combinations never end),
/// when no combination scores above `i32::MIN`, or when a turn or search cannot be played.
pub open spec fn best_moves(g: GameModel, mine: bool, depth: int, pools: Seq<Seq<Direction>>) -> Option<Seq<Direction>> {
    if pools.len() == 0 {
        None
    } else {
        match best_fold(g, mine, depth, pools, product(pools).len() as int) {
            None => None,
            Some((bi, _)) => if bi < 0 {
                None
            } else {
                Some(product(pools)[bi])
            },
        }
    }
}

/// The combination of moves, one per snake of `my_snakes`, whose turn leads to the best score
/// over `depth` turns of side `mine`; ties go to the first combination.
pub fn find_best_moves(game: &GameState, mine: bool, depth: i32, my_snakes: &Vec<&Snake>) -> (moves: Vec<Direction>)
    requires
        game@.grid.wf(),
        forall|j: int| 0 <= j < my_snakes@.len() ==> (#[trigger] my_snakes@[j]).body@.len() > 0 && steps_ok(my_snakes@[j].body@[0]),
        best_moves(game@, mine, depth as int, my_snakes@.map_values(|s: &Snake| snake_moves_spec(game@.grid, s@))) is Some,
    ensures
        moves@ == best_moves(game@, mine, depth as int, my_snakes@.map_values(|s: &Snake| snake_moves_spec(game@.grid, s@)))->0,
{
    let ghost g = game@;
    let ghost pools = my_snakes@.map_values(|s: &Snake| snake_moves_spec(g.grid, s@));
    let moves_per_snake = moves_per_snake(&game.grid, my_snakes);
    let mut it = moves_per_snake.cartesian_product_iter();
    proof {
        lemma_product_len(pools);
        lemma_rank_zero(it.current(), pools, pools.len() as int);
        assert(moves_per_snake.pools_view() =~= pools);
        if it.is_done() {
            let q = choose|q: int| 0 <= q < pools.len() && #[trigger] pools[q].len() == 0;
            assert(moves_per_snake@[q]@.len() > 0);
        }
    }
    let ghost total = product(pools).len() as int;
    let mut best_combo: Option<Vec<Direction>> = None;
    let mut best_score = i32::MIN;
    let ghost mut k: int = 0;
    let ghost mut bi: int = -1;
    loop
        invariant
            g == game@,
            pools.len() > 0,
            total == product(pools).len(),
            it.wf(),
            it.pools_view() == pools,
            0 <= k <= total,
            !it.is_done() ==> k == it.position(),
            it.is_done() ==> k == total,
            best_fold(g, mine, depth as int, pools, total) is Some,
            best_fold(g, mine, depth as int, pools, k) == Some((bi, best_score as int)),
            bi < 0 <==> best_combo is None,
            -1 <= bi < total,
            best_combo is Some ==> best_combo->0@ == product(pools)[bi],
        ensures
            best_fold(g, mine, depth as int, pools, total) == Some((bi, best_score as int)),
            bi < 0 <==> best_combo is None,
            best_combo is Some ==> best_combo->0@ == product(pools)[bi],
        decreases total - k,
    {
        match it.next() {
            None => {
                break;
            },
            Some(combo) => {
                proof {
                    lemma_best_fold_prefix(g, mine, depth as int, pools, k + 1, total);
                    assert(combo@ =~= product(pools)[k]);
                }
                let mut new_game = game.duplicate();
                new_game.apply(&combo, Some(mine));
                let history = vec![combo.clone()];
                let score = recursive(&new_game, mine, depth - 1, &history);
                if score > best_score {
                    best_score = score;
                    best_combo = Some(combo);
                    proof {
                        bi = k;
                    }
                }
                proof {
                    k = k + 1;
                }
            },
        }
    }
    match best_combo {
        Some(c) => c,
        None => {
            proof {
                assert(false);
            }
            Vec::new()
        },
    }
}

// ------------------------------------------------------------------ checks

/// Whether `grid` is a `width` by `height` rectangle.
fn grid_wf_check(grid: &Grid) -> (r: bool)
    ensures
        r == grid@.wf(),
{
    if grid.width < 0 || grid.height < 0 {
        return false;
    }
    let w = grid.width as u64;
    let h = grid.height as u64;
    assert(w * h <= 32767 * 32767) by (nonlinear_arith)
        requires
            w <= 32767,
            h <= 32767,
    ;
    grid.cells.len() as u64 == w * h
}

/// Whether the snakes of side `mine` can have their moves listed.
pub fn moves_ok_check(game: &GameState, mine: bool) -> (r: bool)
    ensures
        r == moves_ok(game@, mine),
{
    if !grid_wf_check(&game.grid) {
        return false;
    }
    let mut i: usize = 0;
    while i < game.snakes.len()
        invariant
            0 <= i <= game.snakes@.len(),
            game@.grid.wf(),
            forall|k: int|
                0 <= k < i && (#[trigger] game@.snakes[k]).mine == mine ==> {
                    &&& game@.snakes[k].body.len() > 0
                    &&& steps_ok(game@.snakes[k].head())
                },
        decreases game.snakes@.len() - i,
    {
        assert(game@.snakes[i as int] == game.snakes@[i as int]@);
        if game.snakes[i].mine == mine {
            if game.snakes[i].body.len() == 0 {
                return false;
            }
            let p = game.snakes[i].head();
            if !(-32768 < p.x && p.x < 32767 && -32768 < p.y && p.y < 32767) {
                return false;
            }
        }
        i += 1;
    }
    true
}

/// Whether the evaluation of a game for side `mine` can be computed without overflow.
#[verifier::rlimit(40)]
pub fn evaluate_check(game: &GameState, mine: bool) -> (r: bool)
    ensures
        r == evaluate_ok(game@, mine),
{
    let ghost ss = game@.snakes;
    if !grid_wf_check(&game.grid) {
        return false;
    }
    let mut i: usize = 0;
    while i < game.snakes.len()
        invariant
            0 <= i <= game.snakes@.len(),
            ss == snake_models(game.snakes@),
            game@.grid.wf(),
            forall|k: int|
                0 <= k < i && (#[trigger] game@.snakes[k]).mine == mine ==> {
                    &&& game@.snakes[k].body.len() > 0
                    &&& game@.grid.index_ok(game@.snakes[k].head())
                    &&& steps_ok(game@.snakes[k].head())
                },
        decreases game.snakes@.len() - i,
    {
        assert(game@.snakes[i as int] == game.snakes@[i as int]@);
        if game.snakes[i].mine == mine {
            if game.snakes[i].body.len() == 0 {
                return false;
            }
            let p = game.snakes[i].head();
            if !crate::checks::index_fits(&game.grid, p) || !(-32768 < p.x && p.x < 32767 && -32768 < p.y && p.y < 32767) {
                return false;
            }
        }
        i += 1;
    }
    assert(heads_ok(game@, mine));
    let mut total_length: u128 = 0;
    let mut i: usize = 0;
    while i < game.snakes.len()
        invariant
            0 <= i <= ss.len(),
            ss == snake_models(game.snakes@),
            total_length == side_length(ss.take(i as int), mine),
            total_length <= usize::MAX,
        decreases ss.len() - i,
    {
        proof {
            lemma_side_length_mono(ss, mine, i + 1);
            assert(ss.take(i + 1).drop_last() =~= ss.take(i as int));
            assert(ss[i as int] == game.snakes@[i as int]@);
        }
        if game.snakes[i].mine == mine {
            total_length = total_length + game.snakes[i].len() as u128;
        }
        if total_length > usize::MAX as u128 {
            proof {
                lemma_side_length_mono(ss, mine, i + 1);
            }
            return false;
        }
        i += 1;
    }
    assert(ss.take(i as int) =~= ss);
    let tl = total_length as usize;
    let ls = #[verifier::truncate] (tl as i32);
    let mut total_distance: i64 = 0;
    let mut i: usize = 0;
    while i < game.snakes.len()
        invariant
            0 <= i <= ss.len(),
            ss == snake_models(game.snakes@),
            heads_ok(game@, mine),
            total_distance == side_distance(game@.grid, ss.take(i as int), mine),
            total_distance <= i32::MAX,
        decreases ss.len() - i,
    {
        proof {
            lemma_side_distance_mono(game@.grid, ss, mine, i + 1);
            assert(ss.take(i + 1).drop_last() =~= ss.take(i as int));
            assert(ss[i as int] == game.snakes@[i as int]@);
            assert(game@.snakes[i as int] == ss[i as int]);
            lemma_food_distance_nonneg(game@.grid, ss[i as int].head());
        }
        if game.snakes[i].mine == mine {
            let d = distance_to_closest_food(&game.grid, &game.snakes[i]);
            total_distance = total_distance + d as i64;
        }
        if total_distance > i32::MAX as i64 {
            proof {
                lemma_side_distance_mono(game@.grid, ss, mine, i + 1);
            }
            return false;
        }
        i += 1;
    }
    assert(ss.take(i as int) =~= ss);
    assert(ls as int == length_score(game@, mine));
    proof {
        lemma_side_distance_nonneg(game@.grid, ss, mine);
    }
    100 + (ls as i64) <= i32::MAX as i64 && i32::MIN as i64 <= 100 + (ls as i64) - total_distance
}

/// The best score reachable from `game` in `depth` turns of side `mine`, or `None` when a turn or
/// an evaluation on the way cannot be played.
pub fn search_check(game: &GameState, mine: bool, depth: i32) -> (r: Option<i32>)
    requires
        depth >= 0,
    ensures
        (r is Some) == (search(game@, mine, depth as int) is Some),
        r is Some ==> r->0 == search(game@, mine, depth as int)->0,
    decreases depth,
{
    if depth == 0 {
        if evaluate_check(game, mine) {
            return Some(evaluate(game, mine));
        } else {
            return None;
        }
    }
    let ghost g = game@;
    if !moves_ok_check(game, mine) {
        return None;
    }
    let my_snakes = side_refs(game, mine);
    if my_snakes.len() == 0 {
        return None;
    }
    proof {
        assert forall|j: int| 0 <= j < my_snakes@.len() implies (#[trigger] my_snakes@[j]).body@.len() > 0 && steps_ok(my_snakes@[j].body@[0]) by {
            lemma_side_moves_ok(g, mine, j);
            assert(my_snakes@.map_values(|s: &Snake| s@)[j] == my_snakes@[j]@);
        }
    }
    let moves_per_snake = moves_per_snake(&game.grid, &my_snakes);
    let ghost pools = side_pools(g, mine);
    proof {
        assert(pools =~= my_snakes@.map_values(|s: &Snake| snake_moves_spec(g.grid, s@))) by {
            assert forall|j: int| 0 <= j < pools.len() implies pools[j] == my_snakes@.map_values(|s: &Snake| snake_moves_spec(g.grid, s@))[j] by {
                assert(my_snakes@.map_values(|s: &Snake| s@)[j] == my_snakes@[j]@);
            }
        }
        lemma_product_len(pools);
    }
    let mut best_score: i32 = 0;
    let mut it = moves_per_snake.cartesian_product_iter();
    proof {
        lemma_rank_zero(it.current(), pools, pools.len() as int);
        assert(moves_per_snake.pools_view() =~= pools);
        if it.is_done() {
            let q = choose|q: int| 0 <= q < pools.len() && #[trigger] pools[q].len() == 0;
            assert(moves_per_snake@[q]@.len() > 0);
        }
    }
    let ghost total = product(pools).len() as int;
    let ghost mut k: int = 0;
    loop
        invariant
            g == game@,
            0 < depth,
            moves_ok(g, mine),
            side_snakes(g.snakes, mine).len() > 0,
            pools == side_pools(g, mine),
            pools.len() > 0,
            total == product(pools).len(),
            it.wf(),
            it.pools_view() == pools,
            0 <= k <= total,
            !it.is_done() ==> k == it.position(),
            it.is_done() ==> k == total,
            search_combos(g, mine, depth as int, k) == Some(best_score as int),
        ensures
            search_combos(g, mine, depth as int, total) == Some(best_score as int),
        decreases total - k,
    {
        match it.next() {
            None => {
                break;
            },
            Some(combo) => {
                proof {
                    assert(combo@ =~= product(pools)[k]);
                }
                let mut new_game = game.duplicate();
                if !new_game.try_apply(&combo, Some(mine)) {
                    proof {
                        assert(search_combos(g, mine, depth as int, k + 1) is None);
                        if search_combos(g, mine, depth as int, total) is Some {
                            lemma_search_combos_prefix(g, mine, depth as int, k + 1, total);
                        }
                    }
                    return None;
                }
                match search_check(&new_game, mine, depth - 1) {
                    None => {
                        proof {
                            assert(search_combos(g, mine, depth as int, k + 1) is None);
                            if search_combos(g, mine, depth as int, total) is Some {
                                lemma_search_combos_prefix(g, mine, depth as int, k + 1, total);
                            }
                        }
                        return None;
                    },
                    Some(score) => {
                        if score > best_score {
                            best_score = score;
                        }
                    },
                }
                proof {
                    k = k + 1;
                }
            },
        }
    }
    Some(best_score)
}

/// The moves the five-turn search chooses for side `mine`, or `None` when it chooses none: when
/// the side has no snake, when no combination scores above `i32::MIN`, or when a turn or an
/// evaluation on the way cannot be played.
pub fn ai2_check(game: &GameState, mine: bool) -> (r: Option<Vec<Direction>>)
    requires
        moves_ok(game@, mine),
    ensures
        (r is Some) == (ai2_result(game@, mine) is Some),
        r is Some ==> r->0@ == ai2_result(game@, mine)->0,
{
    let ghost g = game@;
    let my_snakes = side_refs(game, mine);
    proof {
        assert forall|j: int| 0 <= j < my_snakes@.len() implies (#[trigger] my_snakes@[j]).body@.len() > 0 && steps_ok(my_snakes@[j].body@[0]) by {
            lemma_side_moves_ok(g, mine, j);
            assert(my_snakes@.map_values(|s: &Snake| s@)[j] == my_snakes@[j]@);
        }
    }
    let ghost pools = side_pools(g, mine);
    proof {
        assert(pools =~= my_snakes@.map_values(|s: &Snake| snake_moves_spec(g.grid, s@))) by {
            assert forall|j: int| 0 <= j < pools.len() implies pools[j] == my_snakes@.map_values(|s: &Snake| snake_moves_spec(g.grid, s@))[j] by {
                assert(my_snakes@.map_values(|s: &Snake| s@)[j] == my_snakes@[j]@);
            }
        }
    }
    if my_snakes.len() == 0 {
        return None;
    }
    let moves_per_snake = moves_per_snake(&game.grid, &my_snakes);
    let mut it = moves_per_snake.cartesian_product_iter();
    proof {
        lemma_product_len(pools);
        lemma_rank_zero(it.current(), pools, pools.len() as int);
        assert(moves_per_snake.pools_view() =~= pools);
        if it.is_done() {
            let q = choose|q: int| 0 <= q < pools.len() && #[trigger] pools[q].len() == 0;
            assert(moves_per_snake@[q]@.len() > 0);
        }
    }
    let ghost total = product(pools).len() as int;
    let mut best_combo: Option<Vec<Direction>> = None;
    let mut best_score = i32::MIN;
    let ghost mut k: int = 0;
    let ghost mut bi: int = -1;
    loop
        invariant
            g == game@,
            pools == side_pools(g, mine),
            pools.len() > 0,
            total == product(pools).len(),
            it.wf(),
            it.pools_view() == pools,
            0 <= k <= total,
            !it.is_done() ==> k == it.position(),
            it.is_done() ==> k == total,
            best_fold(g, mine, 5, pools, k) == Some((bi, best_score as int)),
            bi < 0 <==> best_combo is None,
            -1 <= bi < total,
            best_combo is Some ==> best_combo->0@ == product(pools)[bi],
        ensures
            best_fold(g, mine, 5, pools, total) == Some((bi, best_score as int)),
            bi < 0 <==> best_combo is None,
            best_combo is Some ==> best_combo->0@ == product(pools)[bi],
        decreases total - k,
    {
        match it.next() {
            None => {
                break;
            },
            Some(combo) => {
                proof {
                    assert(combo@ =~= product(pools)[k]);
                }
                let mut new_game = game.duplicate();
                if !new_game.try_apply(&combo, Some(mine)) {
                    proof {
                        assert(best_fold(g, mine, 5, pools, k + 1) is None);
                        if best_fold(g, mine, 5, pools, total) is Some {
                            lemma_best_fold_prefix(g, mine, 5, pools, k + 1, total);
                        }
                    }
                    return None;
                }
                match search_check(&new_game, mine, 4) {
                    None => {
                        proof {
                            assert(best_fold(g, mine, 5, pools, k + 1) is None);
                            if best_fold(g, mine, 5, pools, total) is Some {
                                lemma_best_fold_prefix(g, mine, 5, pools, k + 1, total);
                            }
                        }
                        return None;
                    },
                    Some(score) => {
                        if score > best_score {
                            best_score = score;
                            best_combo = Some(combo);
                            proof {
                                bi = k;
                            }
                        }
                    },
                }
                proof {
                    k = k + 1;
                }
            },
        }
    }
    best_combo
}

/// The moves for side `mine` chosen by a five-turn search.
pub open spec fn ai2_result(g: GameModel, mine: bool) -> Option<Seq<Direction>> {
    best_moves(g, mine, 5, side_pools(g, mine))
}

/// The search gives one move per snake of side `mine`, in the order of the snakes, and the move
/// of each snake is one of those tried for it: an open move from its head, or `Up` when it has
/// none.
pub proof fn lemma_ai2_moves(g: GameModel, mine: bool)
    requires
        ai2_result(g, mine) is Some,
    ensures
        ai2_result(g, mine)->0.len() == side_snakes(g.snakes, mine).len(),
        forall|i: int|
            0 <= i < side_snakes(g.snakes, mine).len() ==> #[trigger] snake_moves_spec(
                g.grid,
                side_snakes(g.snakes, mine)[i],
            ).contains(ai2_result(g, mine)->0[i]),
{
    let pools = side_pools(g, mine);
    lemma_product_len(pools);
    let total = product(pools).len() as int;
    lemma_best_fold_index(g, mine, 5, pools, total);
    let bi = best_fold(g, mine, 5, pools, total).unwrap().0;
    lemma_product_item(pools, bi);
    assert forall|i: int| 0 <= i < side_snakes(g.snakes, mine).len() implies #[trigger] snake_moves_spec(
        g.grid,
        side_snakes(g.snakes, mine)[i],
    ).contains(ai2_result(g, mine)->0[i]) by {
        assert(pools[i] == snake_moves_spec(g.grid, side_snakes(g.snakes, mine)[i]));
    }
}

/// The moves of the snakes of side `mine`, one per snake in the order of the snakes, that lead to
/// the best score five turns ahead.
pub fn ai2(game: &GameState, mine: bool) -> (moves: Vec<Direction>)
    requires
        moves_ok(game@, mine),
        ai2_result(game@, mine) is Some,
    ensures
        moves@ == ai2_result(game@, mine)->0,
{
    let depth: i32 = 5;
    let my_snakes = side_refs(game, mine);
    proof {
        let g = game@;
        assert forall|j: int| 0 <= j < my_snakes@.len() implies (#[trigger] my_snakes@[j]).body@.len() > 0 && steps_ok(my_snakes@[j].body@[0]) by {
            lemma_side_moves_ok(g, mine, j);
            assert(my_snakes@.map_values(|s: &Snake| s@)[j] == my_snakes@[j]@);
        }
        assert(side_pools(g, mine) =~= my_snakes@.map_values(|s: &Snake| snake_moves_spec(g.grid, s@))) by {
            assert forall|j: int| 0 <= j < side_pools(g, mine).len() implies side_pools(g, mine)[j] == my_snakes@.map_values(|s: &Snake| snake_moves_spec(g.grid, s@))[j] by {
                assert(my_snakes@.map_values(|s: &Snake| s@)[j] == my_snakes@[j]@);
            }
        }
    }
    find_best_moves(game, mine, depth, &my_snakes)
}

} // verus!
