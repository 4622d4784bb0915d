use vstd::prelude::*;
use crate::types::{Cell, Direction, GameModel, GameState, Grid, GridModel, Point, Snake, SnakeModel, step, step_ok, point_read_ok, place_snakes, lemma_paint_shape, lemma_same_shape_ok, lemma_place_snake_shape, lemma_place_snakes_shape, lemma_in_bounds_index_ok};
use crate::engine::{all_placeable, any_below_filled, body_height, fall_round, lemma_fall_round, lemma_fall_round_len, settle, snake_models, snakes_height};

verus! {

// ------------------------------------------------------------------ heights

/// Lowering a body by a row takes one off its height per square.
pub proof fn lemma_body_height_fallen(s: SnakeModel)
    requires
        s.can_fall(),
    ensures
        body_height(s.fallen().body) + s.body.len() == body_height(s.body),
    decreases s.body.len(),
{
    if s.body.len() > 0 {
        let t = SnakeModel { body: s.body.drop_last(), id: s.id, mine: s.mine };
        assert(t.can_fall()) by {
            assert forall|i: int| 0 <= i < t.body.len() implies #[trigger] t.body[i].y < i16::MAX by {
                assert(s.body[i].y < i16::MAX);
            }
        }
        lemma_body_height_fallen(t);
        assert(s.fallen().body.drop_last() =~= t.fallen().body);
        assert(s.body[s.body.len() - 1].y < i16::MAX);
    }
}

/// Replacing a snake changes the height of all snakes by the change of its own.
pub proof fn lemma_snakes_height_update(s: Seq<SnakeModel>, i: int, t: SnakeModel)
    requires
        0 <= i < s.len(),
    ensures
        snakes_height(s.update(i, t)) + body_height(s[i].body) == snakes_height(s) + body_height(t.body),
    decreases s.len(),
{
    let u = s.update(i, t);
    if i == s.len() - 1 {
        assert(u.drop_last() =~= s.drop_last());
    } else {
        lemma_snakes_height_update(s.drop_last(), i, t);
        assert(u.drop_last() =~= s.drop_last().update(i, t));
    }
}

/// A pass of gravity never raises the snakes, and lowers them when one fell.
pub proof fn lemma_fall_round_height(grid: GridModel<Cell>, snakes: Seq<SnakeModel>, i: int)
    requires
        0 <= i <= snakes.len(),
        fall_round(grid, snakes, i) is Some,
    ensures
        snakes_height(fall_round(grid, snakes, i).unwrap().1) <= snakes_height(snakes),
        fall_round(grid, snakes, i).unwrap().2 ==> snakes_height(fall_round(grid, snakes, i).unwrap().1) < snakes_height(snakes),
    decreases i,
{
    if i > 0 {
        lemma_fall_round(grid, snakes, i - 1, i);
        lemma_fall_round_height(grid, snakes, i - 1);
        lemma_fall_round_len(grid, snakes, i - 1);
        let (g, s, moved) = fall_round(grid, snakes, i - 1).unwrap();
        let sn = s[i - 1];
        if any_below_filled(g, sn.body, 0) == Some(false) {
            lemma_body_height_fallen(sn);
            lemma_snakes_height_update(s, i - 1, sn.fallen());
            assert(sn.body.len() > 0);
        }
    }
}

/// When a pass of gravity moved a snake, gravity goes on from where it left.
pub proof fn lemma_settle_step(grid: GridModel<Cell>, snakes: Seq<SnakeModel>)
    requires
        fall_round(grid, snakes, snakes.len() as int) is Some,
        fall_round(grid, snakes, snakes.len() as int).unwrap().2,
    ensures
        settle(grid, snakes) == settle(
            fall_round(grid, snakes, snakes.len() as int).unwrap().0,
            fall_round(grid, snakes, snakes.len() as int).unwrap().1,
        ),
{
    lemma_fall_round_height(grid, snakes, snakes.len() as int);
}

// ------------------------------------------------------------------ small checks

/// Whether `p` addresses a cell of `grid`.
pub fn index_fits(grid: &Grid, p: Point) -> (r: bool)
    ensures
        r == grid@.index_ok(p),
{
    if p.x < 0 || p.y < 0 || grid.width < 0 {
        return false;
    }
    let y = p.y as u64;
    let w = grid.width as u64;
    assert(y * w <= 32767 * 32767) by (nonlinear_arith)
        requires
            0 <= y <= 32767,
            0 <= w <= 32767,
    ;
    (y * w + p.x as u64) < grid.cells.len() as u64
}

/// Whether each of `pts` addresses a cell of `grid`.
pub fn all_fit(grid: &Grid, pts: &Vec<Point>) -> (r: bool)
    ensures
        r == grid@.all_ok(pts@),
{
    let mut i: usize = 0;
    while i < pts.len()
        invariant
            0 <= i <= pts@.len(),
            forall|k: int| 0 <= k < i ==> grid@.index_ok(#[trigger] pts@[k]),
        decreases pts@.len() - i,
    {
        if !index_fits(grid, pts[i]) {
            return false;
        }
        i += 1;
    }
    true
}

/// Whether one step from `p` in `d` stays within `Coord`.
pub fn step_fits(p: Point, d: Direction) -> (r: bool)
    ensures
        r == step_ok(p, d),
{
    let x = p.x as i32 + match d {
        Direction::Left => -1i32,
        Direction::Right => 1i32,
        _ => 0i32,
    };
    let y = p.y as i32 + match d {
        Direction::Up => -1i32,
        Direction::Down => 1i32,
        _ => 0i32,
    };
    -32768 <= x && x <= 32767 && -32768 <= y && y <= 32767
}

/// Whether every square of `snake` can go one row lower within `Coord`.
pub fn fall_fits(snake: &Snake) -> (r: bool)
    ensures
        r == snake@.can_fall(),
{
    let mut i: usize = 0;
    while i < snake.body.len()
        invariant
            0 <= i <= snake.body@.len(),
            forall|k: int| 0 <= k < i ==> #[trigger] snake.body@[k].y < i16::MAX,
        decreases snake.body@.len() - i,
    {
        assert(snake@.body[i as int] == snake.body@[i as int]);
        if snake.body[i].y == 32767 {
            assert(snake@.body[i as int].y == i16::MAX);
            return false;
        }
        i += 1;
    }
    true
}

/// Whether a square of `snake` has a non-empty square below it, or `None` when a square looked at
/// before the first one has no cell below it.
pub fn below_filled_checked(snake: &Snake, grid: &Grid) -> (r: Option<bool>)
    ensures
        r == any_below_filled(grid@, snake.body@, 0),
{
    let mut k: usize = 0;
    while k < snake.body.len()
        invariant
            0 <= k <= snake.body@.len(),
            any_below_filled(grid@, snake.body@, k as int) == any_below_filled(grid@, snake.body@, 0),
        decreases snake.body@.len() - k,
    {
        let p = snake.body[k];
        if !step_fits(p, Direction::Down) {
            return None;
        }
        let below = p + Direction::Down;
        if !index_fits(grid, below) {
            return None;
        }
        if *grid.get(below) != Cell::Empty {
            return Some(true);
        }
        k += 1;
    }
    Some(false)
}

/// Whether every one of `snakes` can be marked on `grid`.
pub fn all_placeable_check(grid: &Grid, snakes: &Vec<Snake>) -> (r: bool)
    ensures
        r == all_placeable(grid@, snake_models(snakes@)),
{
    let mut i: usize = 0;
    while i < snakes.len()
        invariant
            0 <= i <= snakes@.len(),
            forall|k: int| 0 <= k < i ==> (#[trigger] snake_models(snakes@)[k]).placeable(grid@),
        decreases snakes@.len() - i,
    {
        assert(snake_models(snakes@)[i as int] == snakes@[i as int]@);
        if snakes[i].body.len() == 0 || !all_fit(grid, &snakes[i].body) {
            return false;
        }
        i += 1;
    }
    true
}

} // verus!
