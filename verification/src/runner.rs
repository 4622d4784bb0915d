use vstd::prelude::*;
use crate::types::{Cell, Coord, Direction, GameModel, GameState, GridModel, Point, Snake, SnakeModel, place_foods, place_snakes, setup_ok};
use crate::ai::{ai, fixed_move, side_snakes};
use crate::ai2::{ai2, ai2_check, ai2_result, moves_ok, moves_ok_check, lemma_ai2_moves};
use crate::engine::{apply_result, snake_models, turn_keeps};
use crate::marks::{mine_first, mark_cells, snake_cells};
use crate::random::{SimpleRng, board_width, generate_grid, generated, sweep, sweep_row};

verus! {

/// Adds `p` to the list when it holds food; `p` comes with its coordinates swapped, so that a
/// sweep over rows visits the board column by column.
pub open spec fn food_step(g: GridModel<Cell>, acc: Seq<Point>, p: Point) -> Seq<Point> {
    let q = Point { x: p.y, y: p.x };
    if g.at(q) == Cell::Food {
        acc.push(q)
    } else {
        acc
    }
}

/// The squares of `g` holding food, column by column, each column from the top.
pub open spec fn food_points(g: GridModel<Cell>) -> Seq<Point> {
    sweep(Seq::<Point>::empty(), g.height as int, g.width as int, |acc: Seq<Point>, p: Point| food_step(g, acc, p))
}

/// A snake of three squares, head first.
pub open spec fn three(id: Coord, mine: bool, x: Coord, y: Coord) -> SnakeModel {
    SnakeModel { body: seq![Point { x, y }, Point { x, y: (y + 1) as i16 }, Point { x, y: (y + 2) as i16 }], id, mine }
}

/// The snakes a game starts with: two of mine, then two of the other side.
pub open spec fn start_snakes() -> Seq<SnakeModel> {
    seq![three(0, true, 5, 8), three(1, true, 0, 1), three(3, false, 20, 7), three(4, false, 22, 4)]
}

/// The starting snakes fit on a board `h` rows high.
pub open spec fn start_fits(h: int) -> bool {
    let g = GridModel { width: board_width(h) as i16, height: h as i16, cells: Seq::new((board_width(h) * h) as nat, |i: int| Cell::Empty) };
    forall|i: int| 0 <= i < start_snakes().len() ==> (#[trigger] start_snakes()[i]).placeable(g)
}

/// A game played turn by turn for at most `max_steps` states.
#[derive(Clone)]
pub struct GameIter {
    game: GameState,
    max_steps: usize,
    step: usize,
    finished: bool,
}

impl GameIter {
    /// The game played so far.
    pub closed spec fn game(&self) -> GameModel {
        self.game@
    }

    /// How many states are given at most.
    pub closed spec fn max_steps(&self) -> usize {
        self.max_steps
    }

    /// How many states were given.
    pub closed spec fn steps(&self) -> usize {
        self.step
    }

    /// Only one side has snakes left.
    pub closed spec fn finished(&self) -> bool {
        self.finished
    }

    /// A new game on the board generated from `height`, the row thresholds and `rng`, with food
    /// on every square that holds food and the four starting snakes.
    pub fn new(height: Coord, block_thresholds: &Vec<u64>, rng: SimpleRng, max_steps: usize) -> (it: Self)
        requires
            1 <= height,
            board_width(height as int) * height <= i16::MAX,
            block_thresholds@.len() >= height - 1,
            start_fits(height as int),
        ensures
            it.game().snakes == start_snakes(),
            it.game().food == food_points(generated(height as int, block_thresholds@, rng.seed)),
            it.game().grid == place_foods(
                place_snakes(generated(height as int, block_thresholds@, rng.seed), start_snakes()),
                food_points(generated(height as int, block_thresholds@, rng.seed)),
            ),
            it.max_steps() == max_steps,
            it.steps() == 0,
            !it.finished(),
            it.wf(),
    {
        let grid = generate_grid(height, block_thresholds, rng);
        let ghost g = grid@;
        let mut food: Vec<Point> = Vec::new();
        let mut x: Coord = 0;
        while x < grid.width
            invariant
                0 <= x <= g.width,
                g == grid@,
                g.wf(),
                food@ == sweep(Seq::<Point>::empty(), g.height as int, x as int, |acc: Seq<Point>, p: Point| food_step(g, acc, p)),
                forall|a: int| 0 <= a < food@.len() ==> g.in_bounds(#[trigger] food@[a]),
            decreases g.width - x,
        {
            let mut y: Coord = 0;
            while y < grid.height
                invariant
                    0 <= x < g.width,
                    0 <= y <= g.height,
                    g == grid@,
                    g.wf(),
                    food@ == sweep_row(
                        sweep(Seq::<Point>::empty(), g.height as int, x as int, |acc: Seq<Point>, p: Point| food_step(g, acc, p)),
                        x as int,
                        y as int,
                        |acc: Seq<Point>, p: Point| food_step(g, acc, p),
                    ),
                    forall|a: int| 0 <= a < food@.len() ==> g.in_bounds(#[trigger] food@[a]),
                decreases g.height - y,
            {
                let p = Point::new(x, y);
                proof {
                    crate::types::lemma_in_bounds_index_ok(g, p);
                }
                let ghost before = food@;
                if *grid.get(p) == Cell::Food {
                    food.push(p);
                }
                assert(food@ == food_step(g, before, Point { x: y, y: x }));
                y += 1;
            }
            x += 1;
        }
        let snakes = vec![
            Snake { body: vec![Point::new(5, 8), Point::new(5, 9), Point::new(5, 10)], id: 0, mine: true },
            Snake { body: vec![Point::new(0, 1), Point::new(0, 2), Point::new(0, 3)], id: 1, mine: true },
            Snake { body: vec![Point::new(20, 7), Point::new(20, 8), Point::new(20, 9)], id: 3, mine: false },
            Snake { body: vec![Point::new(22, 4), Point::new(22, 5), Point::new(22, 6)], id: 4, mine: false },
        ];
        proof {
            assert(snake_models(snakes@) =~= start_snakes());
            let e = GridModel { width: board_width(height as int) as i16, height, cells: Seq::new((board_width(height as int) * height) as nat, |i: int| Cell::Empty) };
            assert(e.same_shape(g));
            assert forall|i: int| 0 <= i < start_snakes().len() implies (#[trigger] start_snakes()[i]).placeable(g) by {
                assert(start_snakes()[i].placeable(e));
                assert forall|k: int| 0 <= k < start_snakes()[i].body.len() implies g.index_ok(#[trigger] start_snakes()[i].body[k]) by {
                    assert(e.index_ok(start_snakes()[i].body[k]));
                }
            }
            assert forall|i: int| 0 <= i < food@.len() && g.in_bounds(#[trigger] food@[i]) implies g.index_ok(food@[i]) by {
                crate::types::lemma_in_bounds_index_ok(g, food@[i]);
            }
            assert(snake_models(snakes@) == start_snakes());
            assert(setup_ok(g, snake_models(snakes@), food@));
        }
        let game = GameState::new(grid, snakes, food);
        proof {
            let ss = start_snakes();
            assert(ss[0].mine && ss[1].mine && !ss[2].mine && !ss[3].mine);
            assert forall|i: int, j: int| 0 <= i < j < ss.len() && (#[trigger] ss[j]).mine implies (#[trigger] ss[i]).mine by {}
            assert(mine_first(ss));
        }
        Self { game, max_steps, step: 0, finished: false }
    }
}

/// `(x, y)` addresses a cell of an empty board `w` wide holding `n` cells.
pub open spec fn cell_ok(x: int, y: int, w: int, n: int) -> bool {
    0 <= x && 0 <= y && y * w + x < n
}

/// Whether `(x, y)` addresses a cell of an empty board `w` wide holding `n` cells.
fn fits_at(x: i32, y: i32, w: i32, n: i32) -> (r: bool)
    requires
        0 <= x <= 22,
        0 <= y <= 10,
        1 <= w <= 32767,
    ensures
        r == cell_ok(x as int, y as int, w as int, n as int),
{
    assert(0 <= y * w <= 10 * 32767) by (nonlinear_arith)
        requires
            0 <= y <= 10,
            1 <= w <= 32767,
    ;
    y * w + x < n
}

/// The squares of the three-square snake with head `(x, y)` address cells of an empty board `w`
/// wide holding `n` cells.
pub open spec fn three_ok(x: int, y: int, w: int, n: int) -> bool {
    cell_ok(x, y, w, n) && cell_ok(x, y + 1, w, n) && cell_ok(x, y + 2, w, n)
}

/// Whether a game can start on a board `height` rows high: the board's cells can be counted in
/// `Coord`, and every square of the starting snakes addresses one of them.
pub fn board_fits(height: Coord) -> (r: bool)
    ensures
        r == (1 <= height && board_width(height as int) * height <= i16::MAX && start_fits(height as int)),
{
    if height < 1 {
        return false;
    }
    let h = height as i32;
    let w: i32 = if h % 2 != 0 { h + 1 } else { h };
    assert(w * h <= 32768 * 32767) by (nonlinear_arith)
        requires
            1 <= h <= 32767,
            w <= h + 1,
    ;
    if w * h > 32767 {
        return false;
    }
    let n = w * h;
    let ok = fits_at(5, 8, w, n) && fits_at(5, 9, w, n) && fits_at(5, 10, w, n)
        && fits_at(0, 1, w, n) && fits_at(0, 2, w, n) && fits_at(0, 3, w, n)
        && fits_at(20, 7, w, n) && fits_at(20, 8, w, n) && fits_at(20, 9, w, n)
        && fits_at(22, 4, w, n) && fits_at(22, 5, w, n) && fits_at(22, 6, w, n);
    proof {
        let wi = w as int;
        let ni = n as int;
        let g = GridModel {
            width: board_width(height as int) as i16,
            height: height,
            cells: Seq::new((board_width(height as int) * height) as nat, |i: int| Cell::Empty),
        };
        assert(g.width as int == wi);
        assert(g.cells.len() == ni);
        let ss = start_snakes();
        assert(ss[0].placeable(g) == three_ok(5, 8, wi, ni));
        assert(ss[1].placeable(g) == three_ok(0, 1, wi, ni));
        assert(ss[2].placeable(g) == three_ok(20, 7, wi, ni));
        assert(ss[3].placeable(g) == three_ok(22, 4, wi, ni));
        assert(ok == (three_ok(5, 8, wi, ni) && three_ok(0, 1, wi, ni) && three_ok(20, 7, wi, ni) && three_ok(22, 4, wi, ni)));
        if ok {
            assert forall|k: int| 0 <= k < ss.len() implies (#[trigger] ss[k]).placeable(g) by {
                if k == 0 {
                } else if k == 1 {
                } else if k == 2 {
                } else {
                }
            }
        }
    }
    ok
}

/// The moves of the side with the fixed moves: one per snake of the side.
pub open spec fn ai_moves(g: GameModel, mine: bool) -> Seq<Direction> {
    Seq::new(side_snakes(g.snakes, mine).len(), |i: int| fixed_move(mine))
}

/// The moves of a turn: my snakes' searched moves, then the other side's fixed moves.
pub open spec fn turn_moves(g: GameModel) -> Seq<Direction> {
    ai2_result(g, true)->0 + ai_moves(g, false)
}

/// A turn can be searched and played.
pub open spec fn turn_ok(g: GameModel) -> bool {
    &&& moves_ok(g, true)
    &&& ai2_result(g, true) is Some
    &&& apply_result(g, turn_moves(g), None) is Some
}

/// The game after a turn.
pub open spec fn next_game(g: GameModel) -> GameModel {
    apply_result(g, turn_moves(g), None)->0
}

/// All the snakes left are on one side.
pub open spec fn one_side_left(snakes: Seq<SnakeModel>) -> bool {
    (forall|i: int| 0 <= i < snakes.len() ==> (#[trigger] snakes[i]).mine) || (forall|i: int| 0 <= i < snakes.len() ==> !(#[trigger] snakes[i]).mine)
}

/// The number of snakes of side `mine`.
fn count_side(game: &GameState, mine: bool) -> (n: usize)
    ensures
        n == side_snakes(game@.snakes, mine).len(),
{
    let ghost ms = game@.snakes;
    let mut n: usize = 0;
    let mut i: usize = 0;
    while i < game.snakes.len()
        invariant
            0 <= i <= ms.len(),
            ms == snake_models(game.snakes@),
            n == side_snakes(ms.take(i as int), mine).len(),
            n <= i,
        decreases ms.len() - i,
    {
        proof {
            assert(ms.take(i + 1) =~= ms.take(i as int).push(ms[i as int]));
            ms.take(i as int).lemma_filter_push(ms[i as int], |s: SnakeModel| s.mine == mine);
            assert(ms[i as int] == game.snakes@[i as int]@);
        }
        if game.snakes[i].mine == mine {
            n += 1;
        }
        i += 1;
    }
    assert(ms.take(i as int) =~= ms);
    n
}

/// Whether all snakes of the game are on side `mine`.
fn all_on_side(game: &GameState, mine: bool) -> (r: bool)
    ensures
        r == forall|i: int| 0 <= i < game@.snakes.len() ==> (#[trigger] game@.snakes[i]).mine == mine,
{
    let mut i: usize = 0;
    while i < game.snakes.len()
        invariant
            0 <= i <= game.snakes@.len(),
            forall|k: int| 0 <= k < i ==> (#[trigger] game@.snakes[k]).mine == mine,
        decreases game.snakes@.len() - i,
    {
        assert(game@.snakes[i as int] == game.snakes@[i as int]@);
        if game.snakes[i].mine != mine {
            return false;
        }
        i += 1;
    }
    true
}

/// The snakes of the two sides together are all the snakes.
pub proof fn lemma_sides_len(snakes: Seq<SnakeModel>)
    ensures
        side_snakes(snakes, true).len() + side_snakes(snakes, false).len() == snakes.len(),
    decreases snakes.len(),
{
    if snakes.len() > 0 {
        let pre = snakes.drop_last();
        lemma_sides_len(pre);
        assert(pre.push(snakes.last()) =~= snakes);
        pre.lemma_filter_push(snakes.last(), |s: SnakeModel| s.mine == true);
        pre.lemma_filter_push(snakes.last(), |s: SnakeModel| s.mine == false);
    }
}

/// With my snakes first, a snake is mine exactly when it stands before the count of my snakes.
pub proof fn lemma_mine_first_count(snakes: Seq<SnakeModel>)
    requires
        mine_first(snakes),
    ensures
        side_snakes(snakes, true).len() <= snakes.len(),
        forall|k: int| 0 <= k < snakes.len() ==> ((#[trigger] snakes[k]).mine <==> k < side_snakes(snakes, true).len()),
    decreases snakes.len(),
{
    lemma_sides_len(snakes);
    if snakes.len() > 0 {
        let pre = snakes.drop_last();
        assert(mine_first(pre)) by {
            assert forall|i: int, j: int| 0 <= i < j < pre.len() && (#[trigger] pre[j]).mine implies (#[trigger] pre[i]).mine by {
                assert(pre[j] == snakes[j] && pre[i] == snakes[i]);
            }
        }
        lemma_mine_first_count(pre);
        lemma_sides_len(pre);
        assert(pre.push(snakes.last()) =~= snakes);
        pre.lemma_filter_push(snakes.last(), |s: SnakeModel| s.mine == true);
        let n = snakes.len() as int;
        let c = side_snakes(pre, true).len() as int;
        if snakes.last().mine {
            assert forall|k: int| 0 <= k < n - 1 implies (#[trigger] pre[k]).mine by {
                assert(snakes[k] == pre[k]);
                assert(snakes[n - 1].mine);
            }
            if c < n - 1 {
                assert(pre[c].mine);
            }
            assert(side_snakes(snakes, true).len() == n);
        } else {
            assert(side_snakes(snakes, true) == side_snakes(pre, true));
            assert(!snakes[n - 1].mine);
        }
        assert forall|k: int| 0 <= k < snakes.len() implies ((#[trigger] snakes[k]).mine <==> k < side_snakes(snakes, true).len()) by {
            if k < n - 1 {
                assert(snakes[k] == pre[k]);
            }
        }
    }
}

/// In a turn of a game with my snakes first, each of my snakes moves by the search, in the order
/// of the snakes, and each snake of the other side moves right: a turn played with any list of
/// directions made that way gives the next game.
pub proof fn lemma_turn_directions(g: GameModel, dirs: Seq<Direction>)
    requires
        mine_first(g.snakes),
        ai2_result(g, true) is Some,
        dirs.len() == g.snakes.len(),
        forall|k: int| 0 <= k < g.snakes.len() && (#[trigger] g.snakes[k]).mine ==> dirs[k] == ai2_result(g, true)->0[k],
        forall|k: int| 0 <= k < g.snakes.len() && !(#[trigger] g.snakes[k]).mine ==> dirs[k] == Direction::Right,
    ensures
        turn_moves(g) == dirs,
        next_game(g) == apply_result(g, dirs, None)->0,
{
    lemma_mine_first_count(g.snakes);
    lemma_sides_len(g.snakes);
    lemma_ai2_moves(g, true);
    let m = side_snakes(g.snakes, true).len() as int;
    assert forall|k: int| 0 <= k < dirs.len() implies turn_moves(g)[k] == dirs[k] by {
        if k < m {
            assert(g.snakes[k].mine);
        } else {
            assert(!g.snakes[k].mine);
        }
    }
    assert(turn_moves(g) =~= dirs);
}

/// The game is over exactly when the snakes left are all mine or all the other side's: when one
/// side has no snake left.
pub proof fn lemma_one_side_left(snakes: Seq<SnakeModel>)
    ensures
        one_side_left(snakes) <==> ((forall|i: int| 0 <= i < snakes.len() ==> (#[trigger] snakes[i]).mine)
            || (forall|i: int| 0 <= i < snakes.len() ==> !(#[trigger] snakes[i]).mine)),
        one_side_left(snakes) <==> (side_snakes(snakes, true).len() == 0 || side_snakes(snakes, false).len() == 0),
{
    let fm = |s: SnakeModel| s.mine == true;
    let fo = |s: SnakeModel| s.mine == false;
    if side_snakes(snakes, false).len() == 0 {
        assert forall|i: int| 0 <= i < snakes.len() implies (#[trigger] snakes[i]).mine by {
            if !snakes[i].mine {
                snakes.lemma_filter_contains(fo, i);
            }
        }
    }
    if side_snakes(snakes, true).len() == 0 {
        assert forall|i: int| 0 <= i < snakes.len() implies !(#[trigger] snakes[i]).mine by {
            if snakes[i].mine {
                snakes.lemma_filter_contains(fm, i);
            }
        }
    }
    if side_snakes(snakes, false).len() > 0 {
        snakes.lemma_filter_pred(fo, 0);
        let x = snakes.filter(fo)[0];
        assert(snakes.filter(fo).contains(x));
        snakes.lemma_filter_contains_rev(fo, x);
        let i = choose|i: int| 0 <= i < snakes.len() && snakes[i] == x;
        assert(!snakes[i].mine);
    }
    if side_snakes(snakes, true).len() > 0 {
        snakes.lemma_filter_pred(fm, 0);
        let x = snakes.filter(fm)[0];
        assert(snakes.filter(fm).contains(x));
        snakes.lemma_filter_contains_rev(fm, x);
        let i = choose|i: int| 0 <= i < snakes.len() && snakes[i] == x;
        assert(snakes[i].mine);
    }
}

impl GameIter {
    /// What holds of every game produced from `new`: no more states given than allowed, and my
    /// snakes before the others.
    pub open spec fn wf(&self) -> bool {
        &&& self.steps() <= self.max_steps()
        &&& mine_first(self.game().snakes)
    }

    /// The next state can be produced.
    pub open spec fn can_advance(&self) -> bool {
        !self.finished() && self.steps() < self.max_steps() && self.steps() > 0 ==> turn_ok(self.game())
    }

    /// Whether the next state can be produced: what `next` needs. When a turn is due this plays
    /// the search and the turn on a copy of the game.
    pub fn can_advance_now(&self) -> (r: bool)
        ensures
            r == self.can_advance(),
    {
        if self.finished || self.step >= self.max_steps || self.step == 0 {
            return true;
        }
        let ghost g = self.game@;
        if !moves_ok_check(&self.game, true) {
            return false;
        }
        match ai2_check(&self.game, true) {
            None => false,
            Some(my_directions) => {
                let his_directions = ai(&self.game, false);
                let mut directions = my_directions;
                let mut his = his_directions;
                directions.append(&mut his);
                proof {
                    assert(directions@ =~= turn_moves(g));
                }
                self.game.apply_ok(&directions, None)
            },
        }
    }

    /// The next state of the game: none once it is finished or after `max_steps` states; first
    /// the starting state; then the state after each turn, where my snakes move as the search
    /// says and the others as their fixed moves, both lists given in the order of the snakes. The
    /// game finishes once only one side has snakes left.
    pub fn next(&mut self) -> (r: Option<GameState>)
        requires
            old(self).can_advance(),
            old(self).wf(),
        ensures
            final(self).wf(),
            final(self).max_steps() == old(self).max_steps(),
            !old(self).finished() && old(self).steps() < old(self).max_steps() && old(self).steps() > 0 ==> {
                &&& turn_keeps(old(self).game(), final(self).game())
                &&& mark_cells(old(self).game().grid).subset_of(snake_cells(old(self).game().grid.width as int, old(self).game().snakes))
                    ==> mark_cells(final(self).game().grid) == snake_cells(final(self).game().grid.width as int, final(self).game().snakes)
            },
            old(self).finished() || old(self).steps() >= old(self).max_steps() ==> r is None && final(self).game() == old(self).game()
                && final(self).steps() == old(self).steps() && final(self).finished() == old(self).finished(),
            !old(self).finished() && old(self).steps() < old(self).max_steps() && old(self).steps() == 0 ==> r is Some
                && r->0@ == old(self).game() && final(self).game() == old(self).game() && final(self).steps() == 1
                && final(self).finished() == old(self).finished(),
            !old(self).finished() && old(self).steps() < old(self).max_steps() && old(self).steps() > 0 ==> r is Some
                && r->0@ == next_game(old(self).game()) && final(self).game() == next_game(old(self).game())
                && final(self).steps() == old(self).steps() + 1
                && final(self).finished() == one_side_left(next_game(old(self).game()).snakes),
            !old(self).finished() && old(self).steps() < old(self).max_steps() && old(self).steps() > 0 ==> (final(self).finished() <==> (
                (forall|i: int| 0 <= i < final(self).game().snakes.len() ==> (#[trigger] final(self).game().snakes[i]).mine)
                || (forall|i: int| 0 <= i < final(self).game().snakes.len() ==> !(#[trigger] final(self).game().snakes[i]).mine))),
    {
        if self.finished || self.step >= self.max_steps {
            return None;
        }
        if self.step == 0 {
            self.step += 1;
            return Some(self.game.duplicate());
        }
        let ghost g = self.game@;
        let my_directions = ai2(&self.game, true);
        let his_directions = ai(&self.game, false);
        let my_snakes = count_side(&self.game, true);
        let his_snakes = count_side(&self.game, false);
        proof {
            lemma_ai2_moves(g, true);
        }
        assert(my_directions@.len() == my_snakes);
        assert(his_directions@.len() == his_snakes);
        let mut directions = my_directions;
        let mut his = his_directions;
        directions.append(&mut his);
        proof {
            assert(directions@ =~= turn_moves(g));
            lemma_sides_len(g.snakes);
        }
        self.game.apply(&directions, None);
        let all_mine = all_on_side(&self.game, true);
        let all_his = all_on_side(&self.game, false);
        if all_mine || all_his {
            self.finished = true;
        }
        self.step += 1;
        Some(self.game.duplicate())
    }
}

} // verus!
