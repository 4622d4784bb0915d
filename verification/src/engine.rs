use vstd::prelude::*;
use crate::marks::{mine_first, lemma_mine_first_places, lemma_mine_first_filter, mark_cells, snake_cells, lemma_turn_marks};
use crate::types::{Cell, Direction, GameModel, GameState, Grid, GridModel, Point, Snake, SnakeModel, step, step_ok, point_read_ok, place_snakes, lemma_paint_shape, lemma_same_shape_ok, lemma_place_snake_shape, lemma_place_snakes_shape};

verus! {

/// The models of a list of snakes.
pub open spec fn snake_models(v: Seq<Snake>) -> Seq<SnakeModel> {
    v.map_values(|s: Snake| s@)
}

/// `side` selects the snake: every snake for `None`, the snakes of one side otherwise.
pub open spec fn side_matches(side: Option<bool>, s: SnakeModel) -> bool {
    match side {
        Some(m) => s.mine == m,
        None => true,
    }
}

/// Snakes longer than two squares stay in play.
pub open spec fn long_enough(s: SnakeModel) -> bool {
    s.body.len() > 2
}

/// The snakes longer than two squares, in order.
pub open spec fn keep_long(snakes: Seq<SnakeModel>) -> Seq<SnakeModel> {
    snakes.filter(|s: SnakeModel| long_enough(s))
}

// ------------------------------------------------------------------ moves

/// Moves snake `i` when it is the next selected snake and a direction is left for it
/// (`used` directions are taken); `None` when that move leaves the board or `Coord`.
pub open spec fn move_one(g: GameModel, dirs: Seq<Direction>, side: Option<bool>, i: int, used: int) -> Option<(GameModel, int)> {
    let s = g.snakes[i];
    if used < dirs.len() && side_matches(side, s) {
        if s.body.len() > 0 && g.grid.all_ok(s.body) && step_ok(s.head(), dirs[used]) {
            let grid = g.grid.paint(s.body, Cell::Empty);
            let grow = grid.at(s.head()) == Cell::Food;
            Some((GameModel { grid, snakes: g.snakes.update(i, s.moved(dirs[used], grow)), food: g.food }, used + 1))
        } else {
            None
        }
    } else {
        Some((g, used))
    }
}

/// The game after the first `i` snakes had their turn to move.
pub open spec fn move_phase(g: GameModel, dirs: Seq<Direction>, side: Option<bool>, i: int) -> Option<(GameModel, int)>
    decreases i,
{
    if i <= 0 {
        Some((g, 0))
    } else {
        match move_phase(g, dirs, side, i - 1) {
            None => None,
            Some((h, used)) => move_one(h, dirs, side, i - 1, used),
        }
    }
}

/// Moves that can be played over `n` snakes can be played over fewer.
pub proof fn lemma_move_phase_prefix(g: GameModel, dirs: Seq<Direction>, side: Option<bool>, i: int, n: int)
    requires
        0 <= i <= n,
        move_phase(g, dirs, side, n) is Some,
    ensures
        move_phase(g, dirs, side, i) is Some,
    decreases n - i,
{
    if i < n {
        lemma_move_phase_prefix(g, dirs, side, i, n - 1);
    }
}

/// The moves keep the number of snakes, the shape of the board and the food, and use no more
/// directions than snakes.
pub proof fn lemma_move_phase_len(g: GameModel, dirs: Seq<Direction>, side: Option<bool>, i: int)
    requires
        0 <= i <= g.snakes.len(),
        move_phase(g, dirs, side, i) is Some,
    ensures
        move_phase(g, dirs, side, i).unwrap().0.snakes.len() == g.snakes.len(),
        move_phase(g, dirs, side, i).unwrap().0.grid.same_shape(g.grid),
        move_phase(g, dirs, side, i).unwrap().0.food == g.food,
        0 <= move_phase(g, dirs, side, i).unwrap().1 <= i,
    decreases i,
{
    if i > 0 {
        lemma_move_phase_prefix(g, dirs, side, i - 1, i);
        lemma_move_phase_len(g, dirs, side, i - 1);
        let (h, used) = move_phase(g, dirs, side, i - 1)->0;
        let s = h.snakes[i - 1];
        if used < dirs.len() && side_matches(side, s) {
            lemma_paint_shape(h.grid, s.body, Cell::Empty);
        }
    }
}

// ------------------------------------------------------------------ walls

/// Snake `i` loses its head when the head stands in a wall; `None` when it has no head on the board.
pub open spec fn wall_one(snakes: Seq<SnakeModel>, grid: GridModel<Cell>, i: int) -> Option<Seq<SnakeModel>> {
    let s = snakes[i];
    if s.body.len() > 0 && grid.index_ok(s.head()) {
        if grid.at(s.head()) == Cell::Wall {
            Some(snakes.update(i, s.headless()))
        } else {
            Some(snakes)
        }
    } else {
        None
    }
}

/// The first `i` snakes lose their heads when these stand in walls.
pub open spec fn wall_phase(snakes: Seq<SnakeModel>, grid: GridModel<Cell>, i: int) -> Option<Seq<SnakeModel>>
    decreases i,
{
    if i <= 0 {
        Some(snakes)
    } else {
        match wall_phase(snakes, grid, i - 1) {
            None => None,
            Some(t) => wall_one(t, grid, i - 1),
        }
    }
}

/// Wall checks that can be made over `n` snakes can be made over fewer.
pub proof fn lemma_wall_phase(snakes: Seq<SnakeModel>, grid: GridModel<Cell>, i: int, n: int)
    requires
        0 <= i <= n,
        wall_phase(snakes, grid, n) is Some,
    ensures
        wall_phase(snakes, grid, i) is Some,
    decreases n - i,
{
    if i < n {
        lemma_wall_phase(snakes, grid, i, n - 1);
    }
}

/// Wall checks keep the number of snakes.
pub proof fn lemma_wall_phase_len(snakes: Seq<SnakeModel>, grid: GridModel<Cell>, i: int)
    requires
        0 <= i <= snakes.len(),
        wall_phase(snakes, grid, i) is Some,
    ensures
        wall_phase(snakes, grid, i)->0.len() == snakes.len(),
    decreases i,
{
    if i > 0 {
        lemma_wall_phase(snakes, grid, i - 1, i);
        lemma_wall_phase_len(snakes, grid, i - 1);
    }
}

// ------------------------------------------------------------------ collisions

/// The meeting of snakes `i < j`: when `j`'s head lies in `i`'s body (head excluded) both lose
/// their head; then when `i`'s head lies in `j`'s body, `i` loses its head.
/// `None` when a snake without squares is looked at.
pub open spec fn pair_step(snakes: Seq<SnakeModel>, i: int, j: int) -> Option<Seq<SnakeModel>> {
    if !(0 <= i < j < snakes.len()) || snakes[i].body.len() == 0 || snakes[j].body.len() == 0 {
        None
    } else {
        let hit = snakes[i].body.skip(1).contains(snakes[j].head());
        let t = if hit {
            snakes.update(i, snakes[i].headless()).update(j, snakes[j].headless())
        } else {
            snakes
        };
        if t[i].body.len() == 0 || t[j].body.len() == 0 {
            None
        } else if t[j].body.skip(1).contains(t[i].head()) {
            Some(t.update(i, t[i].headless()))
        } else {
            Some(t)
        }
    }
}

/// The meeting of snakes `i < j` cuts heads that lie in the other snake's body: when `j`'s head
/// lies in `i`'s body below its head, both lose their head; then, when `i`'s head (as it is by
/// then) lies in `j`'s body below its head, `i` loses it too. The other snakes, and the numbers
/// and sides of all, stay.
pub proof fn lemma_pair_step_cuts(snakes: Seq<SnakeModel>, i: int, j: int)
    requires
        pair_step(snakes, i, j) is Some,
    ensures
        0 <= i < j < snakes.len(),
        pair_step(snakes, i, j)->0.len() == snakes.len(),
        forall|k: int| 0 <= k < snakes.len() && k != i && k != j ==> #[trigger] pair_step(snakes, i, j)->0[k] == snakes[k],
        pair_step(snakes, i, j)->0[i].id == snakes[i].id && pair_step(snakes, i, j)->0[i].mine == snakes[i].mine,
        pair_step(snakes, i, j)->0[j].id == snakes[j].id && pair_step(snakes, i, j)->0[j].mine == snakes[j].mine,
        ({
            let hit = snakes[i].body.skip(1).contains(snakes[j].body[0]);
            let bi = if hit { snakes[i].body.skip(1) } else { snakes[i].body };
            let bj = if hit { snakes[j].body.skip(1) } else { snakes[j].body };
            let r = pair_step(snakes, i, j)->0;
            &&& bi.len() > 0 && bj.len() > 0
            &&& r[j].body == bj
            &&& bj.skip(1).contains(bi[0]) ==> r[i].body == bi.skip(1)
            &&& !bj.skip(1).contains(bi[0]) ==> r[i].body == bi
        }),
{
    let hit = snakes[i].body.skip(1).contains(snakes[j].body[0]);
    let t = if hit {
        snakes.update(i, snakes[i].headless()).update(j, snakes[j].headless())
    } else {
        snakes
    };
    assert(snakes[i].headless().body =~= snakes[i].body.skip(1));
    assert(snakes[j].headless().body =~= snakes[j].body.skip(1));
    assert(t[i].headless().body =~= t[i].body.skip(1));
}

/// The meetings of snake `i` with the snakes `i+1 .. j`.
pub open spec fn collide_row(snakes: Seq<SnakeModel>, i: int, j: int) -> Option<Seq<SnakeModel>>
    decreases j - i,
{
    if j <= i + 1 {
        Some(snakes)
    } else {
        match collide_row(snakes, i, j - 1) {
            None => None,
            Some(t) => pair_step(t, i, j - 1),
        }
    }
}

/// The meetings of the snakes `0 .. i` with the snakes after them, up to `n`.
pub open spec fn collide_rows(snakes: Seq<SnakeModel>, i: int, n: int) -> Option<Seq<SnakeModel>>
    decreases i,
{
    if i <= 0 {
        Some(snakes)
    } else {
        match collide_rows(snakes, i - 1, n) {
            None => None,
            Some(t) => collide_row(t, i - 1, n),
        }
    }
}

/// Meetings that can be settled up to `n` can be settled up to fewer.
pub proof fn lemma_collide_row(snakes: Seq<SnakeModel>, i: int, j: int, n: int)
    requires
        i + 1 <= j <= n,
        collide_row(snakes, i, n) is Some,
    ensures
        collide_row(snakes, i, j) is Some,
    decreases n - j,
{
    if j < n {
        lemma_collide_row(snakes, i, j, n - 1);
    }
}

/// Meetings of one snake keep the number of snakes.
pub proof fn lemma_collide_row_len(snakes: Seq<SnakeModel>, i: int, j: int)
    requires
        collide_row(snakes, i, j) is Some,
    ensures
        collide_row(snakes, i, j)->0.len() == snakes.len(),
    decreases j,
{
    if j > i + 1 {
        lemma_collide_row_len(snakes, i, j - 1);
    }
}

/// Meetings that can be settled for `k` snakes can be settled for fewer.
pub proof fn lemma_collide_rows(snakes: Seq<SnakeModel>, i: int, k: int, n: int)
    requires
        0 <= i <= k,
        collide_rows(snakes, k, n) is Some,
    ensures
        collide_rows(snakes, i, n) is Some,
    decreases k - i,
{
    if i < k {
        lemma_collide_rows(snakes, i, k - 1, n);
    }
}

/// Meetings keep the number of snakes.
pub proof fn lemma_collide_rows_len(snakes: Seq<SnakeModel>, i: int, n: int)
    requires
        collide_rows(snakes, i, n) is Some,
    ensures
        collide_rows(snakes, i, n)->0.len() == snakes.len(),
    decreases i,
{
    if i > 0 {
        lemma_collide_rows_len(snakes, i - 1, n);
        lemma_collide_row_len(collide_rows(snakes, i - 1, n)->0, i - 1, n);
    }
}

// ------------------------------------------------------------------ gravity

/// Whether some square of `body` from index `k` on has a non-empty square below it; the search
/// stops at the first one. `None` when a square read before it has no cell below it.
pub open spec fn any_below_filled(g: GridModel<Cell>, body: Seq<Point>, k: int) -> Option<bool>
    decreases body.len() - k,
{
    if k < 0 || k >= body.len() {
        Some(false)
    } else if !point_read_ok(g, body[k]) {
        None
    } else if g.at(step(body[k], Direction::Down)) != Cell::Empty {
        Some(true)
    } else {
        any_below_filled(g, body, k + 1)
    }
}

/// Snake `i` falls one row when nothing holds it; the flag tells whether it fell.
pub open spec fn fall_one(grid: GridModel<Cell>, snakes: Seq<SnakeModel>, i: int) -> Option<(GridModel<Cell>, Seq<SnakeModel>, bool)> {
    let s = snakes[i];
    match any_below_filled(grid, s.body, 0) {
        None => None,
        Some(true) => Some((grid, snakes, false)),
        Some(false) => {
            let g1 = grid.paint(s.body, Cell::Empty);
            let s2 = s.fallen();
            if grid.all_ok(s.body) && s.can_fall() && s2.placeable(g1) {
                Some((g1.place_snake(s2), snakes.update(i, s2), true))
            } else {
                None
            }
        },
    }
}

/// One pass of gravity over the snakes `0 .. i`; the flag tells whether one of them fell.
pub open spec fn fall_round(grid: GridModel<Cell>, snakes: Seq<SnakeModel>, i: int) -> Option<(GridModel<Cell>, Seq<SnakeModel>, bool)>
    decreases i,
{
    if i <= 0 {
        Some((grid, snakes, false))
    } else {
        match fall_round(grid, snakes, i - 1) {
            None => None,
            Some((g, s, moved)) => match fall_one(g, s, i - 1) {
                None => None,
                Some((g2, s2, fell)) => Some((g2, s2, moved || fell)),
            },
        }
    }
}

/// A pass of gravity that can be made over `n` snakes can be made over fewer.
pub proof fn lemma_fall_round(grid: GridModel<Cell>, snakes: Seq<SnakeModel>, i: int, n: int)
    requires
        0 <= i <= n,
        fall_round(grid, snakes, n) is Some,
    ensures
        fall_round(grid, snakes, i) is Some,
    decreases n - i,
{
    if i < n {
        lemma_fall_round(grid, snakes, i, n - 1);
    }
}

/// A pass of gravity keeps the number of snakes.
pub proof fn lemma_fall_round_len(grid: GridModel<Cell>, snakes: Seq<SnakeModel>, i: int)
    requires
        0 <= i <= snakes.len(),
        fall_round(grid, snakes, i) is Some,
    ensures
        fall_round(grid, snakes, i).unwrap().1.len() == snakes.len(),
    decreases i,
{
    if i > 0 {
        lemma_fall_round(grid, snakes, i - 1, i);
        lemma_fall_round_len(grid, snakes, i - 1);
    }
}

/// How far the squares of `body` are from the bottom of the `Coord` range.
pub open spec fn body_height(body: Seq<Point>) -> nat
    decreases body.len(),
{
    if body.len() == 0 {
        0
    } else {
        body_height(body.drop_last()) + (40000 - body.last().y) as nat
    }
}

/// How far all squares of all snakes are from the bottom of the `Coord` range.
pub open spec fn snakes_height(snakes: Seq<SnakeModel>) -> nat
    decreases snakes.len(),
{
    if snakes.len() == 0 {
        0
    } else {
        snakes_height(snakes.drop_last()) + body_height(snakes.last().body)
    }
}

/// Gravity: passes over the snakes until none falls. Every pass in which a snake falls lowers
/// `snakes_height`, which bounds the number of passes.
pub open spec fn settle(grid: GridModel<Cell>, snakes: Seq<SnakeModel>) -> Option<(GridModel<Cell>, Seq<SnakeModel>)>
    decreases snakes_height(snakes),
{
    match fall_round(grid, snakes, snakes.len() as int) {
        None => None,
        Some((g2, s2, moved)) => {
            if !moved {
                Some((g2, s2))
            } else if snakes_height(s2) < snakes_height(snakes) {
                settle(g2, s2)
            } else {
                None
            }
        },
    }
}

// ------------------------------------------------------------------ whole turn

/// Every snake can be marked on `grid`.
pub open spec fn all_placeable(grid: GridModel<Cell>, snakes: Seq<SnakeModel>) -> bool {
    forall|i: int| 0 <= i < snakes.len() ==> (#[trigger] snakes[i]).placeable(grid)
}

/// Collisions of a game whose snakes have moved: heads in walls are lost, short snakes leave,
/// meetings of snakes are settled, short snakes leave, the snakes are marked, and gravity acts.
pub open spec fn resolve(g: GameModel) -> Option<GameModel> {
    match wall_phase(g.snakes, g.grid, g.snakes.len() as int) {
        None => None,
        Some(s1) => {
            let s2 = keep_long(s1);
            match collide_rows(s2, s2.len() as int, s2.len() as int) {
                None => None,
                Some(s3) => {
                    let s4 = keep_long(s3);
                    if all_placeable(g.grid, s4) {
                        match settle(place_snakes(g.grid, s4), s4) {
                            None => None,
                            Some((grid, snakes)) => Some(GameModel { grid, snakes, food: g.food }),
                        }
                    } else {
                        None
                    }
                },
            }
        },
    }
}

/// One turn: the selected snakes move (the `k`-th of them in `dirs[k]`), collisions are
/// resolved, and every snake is marked again. `None` when the turn leaves the board.
pub open spec fn apply_result(g: GameModel, dirs: Seq<Direction>, side: Option<bool>) -> Option<GameModel> {
    match move_phase(g, dirs, side, g.snakes.len() as int) {
        None => None,
        Some((g1, _)) => match resolve(g1) {
            None => None,
            Some(g2) => if all_placeable(g2.grid, g2.snakes) {
                Some(GameModel { grid: place_snakes(g2.grid, g2.snakes), snakes: g2.snakes, food: g2.food })
            } else {
                None
            },
        },
    }
}

// ------------------------------------------------------------------ laws

/// `b` holds the snakes of `a`, in order, with the same lengths, numbers and sides.
pub open spec fn same_snakes(a: Seq<SnakeModel>, b: Seq<SnakeModel>) -> bool {
    &&& a.len() == b.len()
    &&& forall|i: int|
        0 <= i < a.len() ==> {
            &&& (#[trigger] b[i]).body.len() == a[i].body.len()
            &&& b[i].id == a[i].id
            &&& b[i].mine == a[i].mine
        }
}

/// `b` has the shape of `a`, and every square that is not empty in `a` is not empty in `b`.
pub open spec fn keeps_filled(a: GridModel<Cell>, b: GridModel<Cell>) -> bool {
    &&& a.same_shape(b)
    &&& forall|j: int| 0 <= j < a.cells.len() && a.cells[j] != Cell::Empty ==> #[trigger] b.cells[j] != Cell::Empty
}

/// A pass of gravity keeps the snakes' lengths, numbers and sides and the board's shape; when no
/// snake fell, nothing changed and each snake looked at has a non-empty square below one of its
/// squares.
pub proof fn lemma_fall_round_keeps(grid: GridModel<Cell>, snakes: Seq<SnakeModel>, i: int)
    requires
        0 <= i <= snakes.len(),
        fall_round(grid, snakes, i) is Some,
    ensures
        same_snakes(snakes, fall_round(grid, snakes, i).unwrap().1),
        fall_round(grid, snakes, i).unwrap().0.same_shape(grid),
        !fall_round(grid, snakes, i).unwrap().2 ==> {
            &&& fall_round(grid, snakes, i).unwrap().0 == grid
            &&& fall_round(grid, snakes, i).unwrap().1 == snakes
            &&& forall|j: int| 0 <= j < i ==> any_below_filled(grid, (#[trigger] snakes[j]).body, 0) == Some(true)
        },
    decreases i,
{
    if i > 0 {
        lemma_fall_round(grid, snakes, i - 1, i);
        lemma_fall_round_keeps(grid, snakes, i - 1);
        let (g, s, moved) = fall_round(grid, snakes, i - 1).unwrap();
        let sn = s[i - 1];
        let (g2, s2, fell) = fall_one(g, s, i - 1).unwrap();
        if any_below_filled(g, sn.body, 0) == Some(false) {
            let g1 = g.paint(sn.body, Cell::Empty);
            lemma_paint_shape(g, sn.body, Cell::Empty);
            lemma_place_snake_shape(g1, sn.fallen());
            assert(s2 == s.update(i - 1, sn.fallen()));
        }
        assert forall|k: int| 0 <= k < snakes.len() implies {
            &&& (#[trigger] s2[k]).body.len() == snakes[k].body.len()
            &&& s2[k].id == snakes[k].id
            &&& s2[k].mine == snakes[k].mine
        } by {
            assert(s[k].body.len() == snakes[k].body.len());
        }
    }
}

/// Gravity keeps the snakes' lengths, numbers and sides and the board's shape, and leaves every
/// snake resting on something.
pub proof fn lemma_settle(grid: GridModel<Cell>, snakes: Seq<SnakeModel>)
    requires
        settle(grid, snakes) is Some,
    ensures
        same_snakes(snakes, settle(grid, snakes).unwrap().1),
        settle(grid, snakes).unwrap().0.same_shape(grid),
        forall|j: int|
            0 <= j < settle(grid, snakes).unwrap().1.len() ==> any_below_filled(
                settle(grid, snakes).unwrap().0,
                (#[trigger] settle(grid, snakes).unwrap().1[j]).body,
                0,
            ) == Some(true),
    decreases snakes_height(snakes),
{
    lemma_fall_round_keeps(grid, snakes, snakes.len() as int);
    let (g2, s2, moved) = fall_round(grid, snakes, snakes.len() as int).unwrap();
    if moved {
        lemma_settle(g2, s2);
        let (g3, s3) = settle(g2, s2).unwrap();
        assert forall|k: int| 0 <= k < snakes.len() implies {
            &&& (#[trigger] s3[k]).body.len() == snakes[k].body.len()
            &&& s3[k].id == snakes[k].id
            &&& s3[k].mine == snakes[k].mine
        } by {
            assert(s2[k].body.len() == snakes[k].body.len());
        }
    } else {
        assert forall|j: int| 0 <= j < s2.len() implies any_below_filled(g2, (#[trigger] s2[j]).body, 0) == Some(true) by {
            assert(snakes[j] == s2[j]);
        }
    }
}

/// A square addressed on the grid has a position within the cells.
pub proof fn lemma_index_ok_idx(g: GridModel<Cell>, p: Point)
    requires
        g.index_ok(p),
    ensures
        0 <= g.idx(p) < g.cells.len(),
{
    assert(0 <= p.y * g.width) by (nonlinear_arith)
        requires
            0 <= p.y,
            0 <= g.width,
    ;
}

/// Writing a non-empty value keeps every non-empty square non-empty.
pub proof fn lemma_paint_keeps_filled(g: GridModel<Cell>, pts: Seq<Point>, v: Cell)
    requires
        g.all_ok(pts),
        v != Cell::Empty,
    ensures
        keeps_filled(g, g.paint(pts, v)),
    decreases pts.len(),
{
    if pts.len() > 0 {
        let pre = pts.drop_last();
        assert(g.all_ok(pre));
        lemma_paint_keeps_filled(g, pre, v);
        lemma_paint_shape(g, pre, v);
        let h = g.paint(pre, v);
        lemma_same_shape_ok(h, g, pts.last());
        lemma_index_ok_idx(h, pts.last());
    }
}

/// Marking a snake keeps every non-empty square non-empty.
pub proof fn lemma_place_snake_keeps_filled(g: GridModel<Cell>, s: SnakeModel)
    requires
        s.placeable(g),
    ensures
        keeps_filled(g, g.place_snake(s)),
{
    let h = g.set(s.body[0], Cell::Snake(crate::types::head_mark(s.id)));
    lemma_index_ok_idx(g, s.body[0]);
    assert(keeps_filled(g, h));
    assert forall|i: int| 0 <= i < s.body.skip(1).len() implies h.index_ok(#[trigger] s.body.skip(1)[i]) by {
        assert(g.index_ok(s.body[i + 1]));
    }
    lemma_paint_keeps_filled(h, s.body.skip(1), Cell::Snake(crate::types::body_mark(s.id)));
}

/// Marking snakes keeps every non-empty square non-empty.
pub proof fn lemma_place_snakes_keeps_filled(g: GridModel<Cell>, snakes: Seq<SnakeModel>)
    requires
        all_placeable(g, snakes),
    ensures
        keeps_filled(g, place_snakes(g, snakes)),
    decreases snakes.len(),
{
    if snakes.len() > 0 {
        let pre = snakes.drop_last();
        assert forall|i: int| 0 <= i < pre.len() implies (#[trigger] pre[i]).placeable(g) by {
            assert(pre[i] == snakes[i]);
        }
        lemma_place_snakes_keeps_filled(g, pre);
        lemma_place_snakes_shape(g, pre);
        let h = place_snakes(g, pre);
        let s = snakes.last();
        assert(snakes[snakes.len() - 1].placeable(g));
        assert forall|i: int| 0 <= i < s.body.len() implies h.index_ok(#[trigger] s.body[i]) by {
            lemma_same_shape_ok(h, g, s.body[i]);
        }
        lemma_place_snake_keeps_filled(h, s);
    }
}

/// A body that rests on something still does on a grid where no non-empty square was emptied.
pub proof fn lemma_below_filled_mono(a: GridModel<Cell>, b: GridModel<Cell>, body: Seq<Point>, k: int)
    requires
        keeps_filled(a, b),
        any_below_filled(a, body, k) == Some(true),
    ensures
        any_below_filled(b, body, k) == Some(true),
    decreases body.len() - k,
{
    if 0 <= k < body.len() {
        let below = step(body[k], Direction::Down);
        lemma_same_shape_ok(a, b, below);
        if a.at(below) != Cell::Empty {
            lemma_index_ok_idx(a, below);
        } else if b.at(below) == Cell::Empty {
            lemma_below_filled_mono(a, b, body, k + 1);
        }
    }
}

/// The number of squares of all the snakes.
pub open spec fn total_len(snakes: Seq<SnakeModel>) -> int
    decreases snakes.len(),
{
    if snakes.len() == 0 {
        0
    } else {
        total_len(snakes.drop_last()) + snakes.last().body.len()
    }
}

/// `b` has as many snakes as `a`, each with the number and side of the snake at its place in `a`
/// and not longer than it.
pub open spec fn no_longer(a: Seq<SnakeModel>, b: Seq<SnakeModel>) -> bool {
    &&& a.len() == b.len()
    &&& forall|i: int|
        0 <= i < a.len() ==> {
            &&& #[trigger] b[i].body.len() <= a[i].body.len()
            &&& b[i].id == a[i].id
            &&& b[i].mine == a[i].mine
        }
}

/// Every snake of `after` has the number and side of a snake of `before`.
pub open spec fn from_snakes(before: Seq<SnakeModel>, after: Seq<SnakeModel>) -> bool {
    forall|i: int|
        0 <= i < after.len() ==> exists|j: int|
            0 <= j < before.len() && (#[trigger] after[i]).id == (#[trigger] before[j]).id && after[i].mine == before[j].mine
}

/// Snakes no longer than others have no more squares in all.
pub proof fn lemma_total_no_longer(a: Seq<SnakeModel>, b: Seq<SnakeModel>)
    requires
        no_longer(a, b),
    ensures
        total_len(b) <= total_len(a),
    decreases a.len(),
{
    if a.len() > 0 {
        assert(no_longer(a.drop_last(), b.drop_last())) by {
            assert forall|i: int| 0 <= i < a.len() - 1 implies {
                &&& #[trigger] b.drop_last()[i].body.len() <= a.drop_last()[i].body.len()
                &&& b.drop_last()[i].id == a.drop_last()[i].id
                &&& b.drop_last()[i].mine == a.drop_last()[i].mine
            } by {
                assert(b[i].body.len() <= a[i].body.len());
            }
        }
        lemma_total_no_longer(a.drop_last(), b.drop_last());
        assert(b[b.len() - 1].body.len() <= a[a.len() - 1].body.len());
    }
}

/// Leaving out the short snakes leaves no more squares in all.
pub proof fn lemma_total_keep_long(snakes: Seq<SnakeModel>)
    ensures
        total_len(keep_long(snakes)) <= total_len(snakes),
        total_len(snakes) >= 0,
    decreases snakes.len(),
{
    if snakes.len() > 0 {
        let pre = snakes.drop_last();
        lemma_total_keep_long(pre);
        assert(pre.push(snakes.last()) =~= snakes);
        pre.lemma_filter_push(snakes.last(), |t: SnakeModel| long_enough(t));
        if long_enough(snakes.last()) {
            assert(keep_long(snakes).drop_last() =~= keep_long(pre));
        }
    }
}

/// Writing `v` at each of `pts` leaves `v` at each of them.
pub proof fn lemma_paint_at(g: GridModel<Cell>, pts: Seq<Point>, v: Cell, i: int)
    requires
        g.all_ok(pts),
        0 <= i < pts.len(),
    ensures
        g.paint(pts, v).at(pts[i]) == v,
    decreases pts.len(),
{
    let pre = pts.drop_last();
    assert(g.all_ok(pre));
    lemma_paint_shape(g, pre, v);
    let h = g.paint(pre, v);
    let q = pts[i];
    let l = pts.last();
    lemma_same_shape_ok(h, g, q);
    lemma_same_shape_ok(h, g, l);
    lemma_index_ok_idx(h, q);
    lemma_index_ok_idx(h, l);
    if i < pts.len() - 1 && h.idx(q) != h.idx(l) {
        assert(pre[i] == q);
        lemma_paint_at(g, pre, v, i);
    }
}

/// The moves keep the number, length and side of every snake: a snake never grows, since the
/// square it grows on is read after its own squares were emptied.
pub proof fn lemma_move_phase_same(g: GameModel, dirs: Seq<Direction>, side: Option<bool>, i: int)
    requires
        0 <= i <= g.snakes.len(),
        move_phase(g, dirs, side, i) is Some,
    ensures
        same_snakes(g.snakes, move_phase(g, dirs, side, i).unwrap().0.snakes),
    decreases i,
{
    if i > 0 {
        lemma_move_phase_prefix(g, dirs, side, i - 1, i);
        lemma_move_phase_same(g, dirs, side, i - 1);
        lemma_move_phase_len(g, dirs, side, i - 1);
        let (h, used) = move_phase(g, dirs, side, i - 1).unwrap();
        let sn = h.snakes[i - 1];
        let h2 = move_one(h, dirs, side, i - 1, used).unwrap().0;
        if used < dirs.len() && side_matches(side, sn) {
            lemma_paint_at(h.grid, sn.body, Cell::Empty, 0);
            assert(h2.snakes[i - 1] == sn.moved(dirs[used], false));
        }
        assert forall|k: int| 0 <= k < g.snakes.len() implies {
            &&& (#[trigger] h2.snakes[k]).body.len() == g.snakes[k].body.len()
            &&& h2.snakes[k].id == g.snakes[k].id
            &&& h2.snakes[k].mine == g.snakes[k].mine
        } by {
            assert(h.snakes[k].body.len() == g.snakes[k].body.len());
        }
    }
}

/// Heads in walls only shorten snakes.
pub proof fn lemma_wall_phase_shorter(snakes: Seq<SnakeModel>, grid: GridModel<Cell>, i: int)
    requires
        0 <= i <= snakes.len(),
        wall_phase(snakes, grid, i) is Some,
    ensures
        no_longer(snakes, wall_phase(snakes, grid, i)->0),
    decreases i,
{
    if i > 0 {
        lemma_wall_phase(snakes, grid, i - 1, i);
        lemma_wall_phase_shorter(snakes, grid, i - 1);
        let t = wall_phase(snakes, grid, i - 1)->0;
        let t2 = wall_phase(snakes, grid, i)->0;
        assert forall|k: int| 0 <= k < snakes.len() implies {
            &&& #[trigger] t2[k].body.len() <= snakes[k].body.len()
            &&& t2[k].id == snakes[k].id
            &&& t2[k].mine == snakes[k].mine
        } by {
            assert(t[k].body.len() <= snakes[k].body.len());
        }
    }
}

/// The meeting of two snakes only shortens snakes.
pub proof fn lemma_pair_step_shorter(snakes: Seq<SnakeModel>, i: int, j: int)
    requires
        pair_step(snakes, i, j) is Some,
    ensures
        no_longer(snakes, pair_step(snakes, i, j)->0),
{
}

/// The meetings of a snake with the snakes after it only shorten snakes.
pub proof fn lemma_collide_row_shorter(snakes: Seq<SnakeModel>, i: int, j: int)
    requires
        collide_row(snakes, i, j) is Some,
    ensures
        no_longer(snakes, collide_row(snakes, i, j)->0),
    decreases j - i,
{
    if j > i + 1 {
        lemma_collide_row_shorter(snakes, i, j - 1);
        let t = collide_row(snakes, i, j - 1)->0;
        lemma_pair_step_shorter(t, i, j - 1);
        let t2 = collide_row(snakes, i, j)->0;
        assert forall|k: int| 0 <= k < snakes.len() implies {
            &&& #[trigger] t2[k].body.len() <= snakes[k].body.len()
            &&& t2[k].id == snakes[k].id
            &&& t2[k].mine == snakes[k].mine
        } by {
            assert(t2[k].body.len() <= t[k].body.len());
            assert(t[k].body.len() <= snakes[k].body.len());
        }
    }
}

/// All meetings of snakes only shorten snakes.
pub proof fn lemma_collide_rows_shorter(snakes: Seq<SnakeModel>, i: int, n: int)
    requires
        collide_rows(snakes, i, n) is Some,
    ensures
        no_longer(snakes, collide_rows(snakes, i, n)->0),
    decreases i,
{
    if i > 0 {
        lemma_collide_rows_shorter(snakes, i - 1, n);
        let t = collide_rows(snakes, i - 1, n)->0;
        lemma_collide_row_shorter(t, i - 1, n);
        let t2 = collide_rows(snakes, i, n)->0;
        assert forall|k: int| 0 <= k < snakes.len() implies {
            &&& #[trigger] t2[k].body.len() <= snakes[k].body.len()
            &&& t2[k].id == snakes[k].id
            &&& t2[k].mine == snakes[k].mine
        } by {
            assert(t2[k].body.len() <= t[k].body.len());
            assert(t[k].body.len() <= snakes[k].body.len());
        }
    }
}

/// What a turn keeps: no more snakes than before, each with the number and side of a snake of
/// before, my snakes still before the others when they were, and no more squares of snakes in all (snakes never grow), every snake left longer than
/// two squares, the same food, the same board shape,
/// and every snake resting on something (some square of it has a non-empty square right below).
pub open spec fn turn_keeps(before: GameModel, after: GameModel) -> bool {
    &&& after.snakes.len() <= before.snakes.len()
    &&& from_snakes(before.snakes, after.snakes)
    &&& mine_first(before.snakes) ==> mine_first(after.snakes)
    &&& total_len(after.snakes) <= total_len(before.snakes)
    &&& forall|i: int| 0 <= i < after.snakes.len() ==> (#[trigger] after.snakes[i]).body.len() > 2
    &&& after.food == before.food
    &&& after.grid.same_shape(before.grid)
    &&& forall|i: int|
        0 <= i < after.snakes.len() ==> any_below_filled(after.grid, (#[trigger] after.snakes[i]).body, 0) == Some(true)
}

/// Every turn that can be played keeps the snakes long, their number and their squares bounded,
/// the food and the board shape, and leaves every snake resting on something.
pub proof fn lemma_turn_keeps(g: GameModel, dirs: Seq<Direction>, side: Option<bool>)
    requires
        apply_result(g, dirs, side) is Some,
    ensures
        turn_keeps(g, apply_result(g, dirs, side)->0),
{
    let n = g.snakes.len() as int;
    lemma_move_phase_len(g, dirs, side, n);
    let (g1, used) = move_phase(g, dirs, side, n).unwrap();
    lemma_wall_phase_len(g1.snakes, g1.grid, n);
    let s1 = wall_phase(g1.snakes, g1.grid, n)->0;
    let s2 = keep_long(s1);
    s1.lemma_filter_len(|t: SnakeModel| long_enough(t));
    let m = s2.len() as int;
    lemma_collide_rows_len(s2, m, m);
    let s3 = collide_rows(s2, m, m)->0;
    let s4 = keep_long(s3);
    s3.lemma_filter_len(|t: SnakeModel| long_enough(t));
    assert forall|i: int| 0 <= i < s4.len() implies (#[trigger] s4[i]).body.len() > 2 by {
        s3.lemma_filter_pred(|t: SnakeModel| long_enough(t), i);
    }
    lemma_place_snakes_shape(g1.grid, s4);
    let big = place_snakes(g1.grid, s4);
    lemma_settle(big, s4);
    let (grid2, snakes2) = settle(big, s4).unwrap();
    assert forall|i: int| 0 <= i < snakes2.len() implies (#[trigger] snakes2[i]).body.len() > 2 by {
        assert(s4[i].body.len() > 2);
    }
    lemma_place_snakes_shape(grid2, snakes2);
    lemma_place_snakes_keeps_filled(grid2, snakes2);
    let r = apply_result(g, dirs, side)->0;
    assert(r.snakes == snakes2);
    lemma_move_phase_same(g, dirs, side, n);
    lemma_total_no_longer(g.snakes, g1.snakes);
    lemma_wall_phase_shorter(g1.snakes, g1.grid, n);
    lemma_total_no_longer(g1.snakes, s1);
    lemma_total_keep_long(s1);
    lemma_collide_rows_shorter(s2, m, m);
    lemma_total_no_longer(s2, s3);
    lemma_total_keep_long(s3);
    lemma_total_no_longer(s4, snakes2);
    assert forall|i: int| 0 <= i < r.snakes.len() implies exists|j: int|
        0 <= j < g.snakes.len() && (#[trigger] r.snakes[i]).id == (#[trigger] g.snakes[j]).id && r.snakes[i].mine
            == g.snakes[j].mine by {
        let f = |t: SnakeModel| long_enough(t);
        assert(s4[i].id == r.snakes[i].id && s4[i].mine == r.snakes[i].mine);
        assert(s3.filter(f).contains(s4[i]));
        s3.lemma_filter_contains_rev(f, s4[i]);
        let j1 = choose|j1: int| 0 <= j1 < s3.len() && s3[j1] == s4[i];
        assert(s3[j1].id == s2[j1].id && s3[j1].mine == s2[j1].mine);
        assert(s1.filter(f).contains(s2[j1]));
        s1.lemma_filter_contains_rev(f, s2[j1]);
        let j2 = choose|j2: int| 0 <= j2 < s1.len() && s1[j2] == s2[j1];
        assert(s1[j2].id == g1.snakes[j2].id && s1[j2].mine == g1.snakes[j2].mine);
        assert(g1.snakes[j2].id == g.snakes[j2].id && g1.snakes[j2].mine == g.snakes[j2].mine);
    }
    if mine_first(g.snakes) {
        let f = |t: SnakeModel| long_enough(t);
        lemma_mine_first_places(g.snakes, g1.snakes);
        assert forall|i: int| 0 <= i < g1.snakes.len() implies (#[trigger] s1[i]).mine == g1.snakes[i].mine by {
            assert(s1[i].body.len() <= g1.snakes[i].body.len());
        }
        lemma_mine_first_places(g1.snakes, s1);
        lemma_mine_first_filter(s1, f);
        assert forall|i: int| 0 <= i < s2.len() implies (#[trigger] s3[i]).mine == s2[i].mine by {
            assert(s3[i].body.len() <= s2[i].body.len());
        }
        lemma_mine_first_places(s2, s3);
        lemma_mine_first_filter(s3, f);
        lemma_mine_first_places(s4, snakes2);
    }
    assert(r.grid == place_snakes(grid2, snakes2));
    assert forall|i: int| 0 <= i < r.snakes.len() implies any_below_filled(r.grid, (#[trigger] r.snakes[i]).body, 0) == Some(true) by {
        assert(any_below_filled(grid2, snakes2[i].body, 0) == Some(true));
        lemma_below_filled_mono(grid2, r.grid, snakes2[i].body, 0);
    }
}

/// A meeting of two snakes that cannot be settled leaves all meetings unsettled.
proof fn lemma_pair_fails(s2: Seq<SnakeModel>, t0: Seq<SnakeModel>, t: Seq<SnakeModel>, i: int, j: int, m: int)
    requires
        0 <= i < j < m,
        m == s2.len(),
        collide_rows(s2, i, m) == Some(t0),
        collide_row(t0, i, j) == Some(t),
        pair_step(t, i, j) is None,
    ensures
        collide_rows(s2, m, m) is None,
{
    if collide_row(t0, i, m) is Some {
        lemma_collide_row(t0, i, j + 1, m);
    }
    if collide_rows(s2, m, m) is Some {
        lemma_collide_rows(s2, i + 1, m, m);
    }
}

// ------------------------------------------------------------------ exec

/// Whether `body` without its head contains `p`.
fn tail_contains(body: &Vec<Point>, p: Point) -> (r: bool)
    requires
        body@.len() > 0,
    ensures
        r == body@.skip(1).contains(p),
{
    let mut k: usize = 1;
    while k < body.len()
        invariant
            1 <= k <= body@.len(),
            forall|m: int| 1 <= m < k ==> body@[m] != p,
        decreases body@.len() - k,
    {
        if body[k] == p {
            assert(body@.skip(1)[k - 1] == p);
            return true;
        }
        k += 1;
    }
    assert forall|m: int| 0 <= m < body@.skip(1).len() implies body@.skip(1)[m] != p by {
        assert(body@.skip(1)[m] == body@[m + 1]);
    }
    false
}

/// The snakes of `snakes` longer than two squares, in order.
fn retain_long(snakes: Vec<Snake>) -> (r: Vec<Snake>)
    ensures
        snake_models(r@) == keep_long(snake_models(snakes@)),
{
    let ghost ms = snake_models(snakes@);
    let mut rest = snakes;
    let mut kept: Vec<Snake> = Vec::new();
    let mut i: usize = 0;
    let n = rest.len();
    while rest.len() > 0
        invariant
            0 <= i <= n,
            n == ms.len(),
            rest@.len() == n - i,
            snake_models(rest@) == ms.skip(i as int),
            snake_models(kept@) == keep_long(ms.take(i as int)),
        decreases rest@.len(),
    {
        let ghost before = rest@;
        let s = rest.remove(0);
        proof {
            assert(snake_models(before)[0] == ms.skip(i as int)[0]);
            assert(s@ == ms[i as int]);
            assert(rest@ =~= before.skip(1));
        }
        let keep = s.len() > 2;
        proof {
            assert(ms.take(i + 1) =~= ms.take(i as int).push(ms[i as int]));
            ms.take(i as int).lemma_filter_push(ms[i as int], |t: SnakeModel| long_enough(t));
        }
        if keep {
            kept.push(s);
            assert(snake_models(kept@) =~= keep_long(ms.take(i as int)).push(ms[i as int]));
        }
        proof {
            assert forall|k: int| 0 <= k < rest@.len() implies snake_models(rest@)[k] == ms.skip(i + 1)[k] by {
                assert(rest@[k] == before[k + 1]);
                assert(snake_models(before)[k + 1] == ms.skip(i as int)[k + 1]);
            }
            assert(snake_models(rest@) =~= ms.skip(i + 1));
        }
        i += 1;
    }
    assert(ms.take(i as int) =~= ms);
    kept
}

/// Whether a square of `snake` has a non-empty square below it.
fn below_filled(snake: &Snake, grid: &Grid) -> (r: bool)
    requires
        any_below_filled(grid@, snake.body@, 0) is Some,
    ensures
        r == any_below_filled(grid@, snake.body@, 0)->0,
{
    let mut k: usize = 0;
    while k < snake.body.len()
        invariant
            0 <= k <= snake.body@.len(),
            any_below_filled(grid@, snake.body@, 0) is Some,
            any_below_filled(grid@, snake.body@, k as int) == any_below_filled(grid@, snake.body@, 0),
        decreases snake.body@.len() - k,
    {
        assert(any_below_filled(grid@, snake.body@, k as int) is Some);
        if *grid.get(snake.body[k] + Point::new(0, 1)) != Cell::Empty {
            return true;
        }
        k += 1;
    }
    false
}

/// Takes the head off snake `i`.
fn lose_head_at(snakes: &mut Vec<Snake>, i: usize)
    requires
        i < old(snakes)@.len(),
        old(snakes)@[i as int].body@.len() > 0,
    ensures
        final(snakes)@.len() == old(snakes)@.len(),
        snake_models(final(snakes)@) == snake_models(old(snakes)@).update(i as int, old(snakes)@[i as int]@.headless()),
{
    let mut s = snakes.remove(i);
    s.lose_head();
    snakes.insert(i, s);
    assert(snake_models(snakes@) =~= snake_models(old(snakes)@).update(i as int, old(snakes)@[i as int]@.headless()));
}

/// Lowers snake `i` by one row.
fn fall_at(snakes: &mut Vec<Snake>, i: usize)
    requires
        i < old(snakes)@.len(),
        old(snakes)@[i as int]@.can_fall(),
    ensures
        final(snakes)@.len() == old(snakes)@.len(),
        snake_models(final(snakes)@) == snake_models(old(snakes)@).update(i as int, old(snakes)@[i as int]@.fallen()),
{
    let mut s = snakes.remove(i);
    s.fall();
    snakes.insert(i, s);
    assert(snake_models(snakes@) =~= snake_models(old(snakes)@).update(i as int, old(snakes)@[i as int]@.fallen()));
}

impl GameState {
    /// Settles the game after the snakes have moved: heads in walls are lost, snakes of two
    /// squares or less leave, meeting snakes lose their heads, short snakes leave again, the
    /// snakes are marked, and unsupported snakes fall until every snake is held.
    fn resolve_collisions(&mut self)
        requires
            resolve(old(self)@) is Some,
        ensures
            final(self)@ == resolve(old(self)@)->0,
    {
        let ghost g0 = self@;
        let n = self.snakes.len();
        // heads in walls
        let mut i: usize = 0;
        while i < n
            invariant
                0 <= i <= n,
                n == g0.snakes.len(),
                self.snakes@.len() == n,
                self.grid@ == g0.grid,
                self.food@ == g0.food,
                wall_phase(g0.snakes, g0.grid, n as int) is Some,
                wall_phase(g0.snakes, g0.grid, i as int) == Some(snake_models(self.snakes@)),
            decreases n - i,
        {
            proof {
                lemma_wall_phase(g0.snakes, g0.grid, i + 1, n as int);
                assert(snake_models(self.snakes@)[i as int] == self.snakes@[i as int]@);
            }
            let head = self.snakes[i].head();
            if *self.grid.get(head) == Cell::Wall {
                lose_head_at(&mut self.snakes, i);
            }
            i += 1;
        }
        let mut taken: Vec<Snake> = Vec::new();
        std::mem::swap(&mut taken, &mut self.snakes);
        self.snakes = retain_long(taken);
        // meetings of snakes
        let ghost s2 = snake_models(self.snakes@);
        let m = self.snakes.len();
        let mut i: usize = 0;
        while i < m
            invariant
                0 <= i <= m,
                m == s2.len(),
                self.snakes@.len() == m,
                self.grid@ == g0.grid,
                self.food@ == g0.food,
                s2 == keep_long(wall_phase(g0.snakes, g0.grid, n as int)->0),
                collide_rows(s2, m as int, m as int) is Some,
                collide_rows(s2, i as int, m as int) == Some(snake_models(self.snakes@)),
            decreases m - i,
        {
            proof {
                lemma_collide_rows(s2, i + 1, m as int, m as int);
            }
            let ghost t0 = snake_models(self.snakes@);
            let mut j: usize = i + 1;
            while j < m
                invariant
                    0 <= i < j <= m,
                    m == s2.len(),
                    self.snakes@.len() == m,
                    t0.len() == m,
                    self.grid@ == g0.grid,
                    self.food@ == g0.food,
                    collide_row(t0, i as int, m as int) is Some,
                    collide_row(t0, i as int, j as int) == Some(snake_models(self.snakes@)),
                decreases m - j,
            {
                proof {
                    lemma_collide_row(t0, i as int, j + 1, m as int);
                    assert(snake_models(self.snakes@)[i as int] == self.snakes@[i as int]@);
                    assert(snake_models(self.snakes@)[j as int] == self.snakes@[j as int]@);
                }
                let ghost t = snake_models(self.snakes@);
                assert(pair_step(t, i as int, j as int) is Some);
                let hit = tail_contains(&self.snakes[i].body, self.snakes[j].head());
                if hit {
                    if tail_contains(&self.snakes[i].body, self.snakes[j].head()) {
                        lose_head_at(&mut self.snakes, i);
                    }
                    assert(snake_models(self.snakes@)[j as int] == self.snakes@[j as int]@);
                    lose_head_at(&mut self.snakes, j);
                }
                proof {
                    let t2 = if hit {
                        t.update(i as int, t[i as int].headless()).update(j as int, t[j as int].headless())
                    } else {
                        t
                    };
                    assert(snake_models(self.snakes@) =~= t2);
                    assert(snake_models(self.snakes@)[i as int] == self.snakes@[i as int]@);
                    assert(snake_models(self.snakes@)[j as int] == self.snakes@[j as int]@);
                }
                if tail_contains(&self.snakes[j].body, self.snakes[i].head()) {
                    lose_head_at(&mut self.snakes, i);
                }
                assert(snake_models(self.snakes@) == pair_step(t, i as int, j as int)->0);
                j += 1;
            }
            i += 1;
        }
        let mut taken: Vec<Snake> = Vec::new();
        std::mem::swap(&mut taken, &mut self.snakes);
        self.snakes = retain_long(taken);
        // mark the snakes
        let ghost s4 = snake_models(self.snakes@);
        let ghost v4 = self.snakes@;
        let k = self.snakes.len();
        let mut j: usize = 0;
        while j < k
            invariant
                0 <= j <= k,
                k == s4.len(),
                self.snakes@ == v4,
                snake_models(v4) == s4,
                self.food@ == g0.food,
                all_placeable(g0.grid, s4),
                self.grid@ == place_snakes(g0.grid, s4.take(j as int)),
            decreases k - j,
        {
            proof {
                let pre = s4.take(j as int);
                assert forall|q: int| 0 <= q < pre.len() implies (#[trigger] pre[q]).placeable(g0.grid) by {
                    assert(pre[q] == s4[q]);
                }
                lemma_place_snakes_shape(g0.grid, pre);
                assert(s4[j as int].placeable(g0.grid));
                assert(s4[j as int] == self.snakes@[j as int]@);
                assert forall|q: int| 0 <= q < s4[j as int].body.len() implies self.grid@.index_ok(
                    #[trigger] s4[j as int].body[q],
                ) by {
                    lemma_same_shape_ok(self.grid@, g0.grid, s4[j as int].body[q]);
                }
                assert(s4.take(j + 1).drop_last() =~= pre);
            }
            self.grid.place_snake(&self.snakes[j]);
            j += 1;
        }
        assert(s4.take(k as int) =~= s4);
        // gravity
        let ghost target = settle(self.grid@, s4);
        let mut moved = true;
        while moved
            invariant
                target is Some,
                self.food@ == g0.food,
                target == settle(place_snakes(g0.grid, s4), s4),
                moved ==> settle(self.grid@, snake_models(self.snakes@)) == target,
                !moved ==> target == Some((self.grid@, snake_models(self.snakes@))),
            decreases (if moved { snakes_height(snake_models(self.snakes@)) + 1 } else { 0 }),
        {
            let ghost gs = self.grid@;
            let ghost ss = snake_models(self.snakes@);
            let cnt = self.snakes.len();
            moved = false;
            let mut i: usize = 0;
            while i < cnt
                invariant
                    0 <= i <= cnt,
                    cnt == ss.len(),
                    self.snakes@.len() == cnt,
                    self.food@ == g0.food,
                    fall_round(gs, ss, cnt as int) is Some,
                    fall_round(gs, ss, i as int) == Some((self.grid@, snake_models(self.snakes@), moved)),
                decreases cnt - i,
            {
                proof {
                    lemma_fall_round(gs, ss, i + 1, cnt as int);
                    lemma_fall_round_len(gs, ss, i as int);
                    assert(snake_models(self.snakes@)[i as int] == self.snakes@[i as int]@);
                }
                if !below_filled(&self.snakes[i], &self.grid) {
                    moved = true;
                    let ghost s = self.snakes@[i as int]@;
                    let ghost g = self.grid@;
                    self.grid.clear_snake(&self.snakes[i]);
                    fall_at(&mut self.snakes, i);
                    proof {
                        assert(snake_models(self.snakes@)[i as int] == self.snakes@[i as int]@);
                    }
                    self.grid.place_snake(&self.snakes[i]);
                }
                i += 1;
            }
        }
        assert(self@ =~= resolve(g0)->0);
    }

    fn try_resolve(&mut self) -> (ok: bool)
        ensures
            ok == (resolve(old(self)@) is Some),
            ok ==> final(self)@ == resolve(old(self)@)->0,
    {
        let ghost g0 = self@;
        let n = self.snakes.len();
        // heads in walls
        let mut i: usize = 0;
        while i < n
            invariant
                old(self)@ == g0,
                0 <= i <= n,
                n == g0.snakes.len(),
                self.snakes@.len() == n,
                self.grid@ == g0.grid,
                self.food@ == g0.food,
                wall_phase(g0.snakes, g0.grid, i as int) == Some(snake_models(self.snakes@)),
            decreases n - i,
        {
            proof {
                assert(snake_models(self.snakes@)[i as int] == self.snakes@[i as int]@);
            }
            if self.snakes[i].body.len() == 0 || !crate::checks::index_fits(&self.grid, self.snakes[i].head()) {
                proof {
                    assert(wall_one(snake_models(self.snakes@), g0.grid, i as int) is None);
                    assert(wall_phase(g0.snakes, g0.grid, i + 1) is None);
                    if wall_phase(g0.snakes, g0.grid, n as int) is Some {
                        lemma_wall_phase(g0.snakes, g0.grid, i + 1, n as int);
                    }
                    assert(wall_phase(g0.snakes, g0.grid, n as int) is None);
                    assert(resolve(g0) is None);
                }
                return false;
            }
            let head = self.snakes[i].head();
            if *self.grid.get(head) == Cell::Wall {
                lose_head_at(&mut self.snakes, i);
            }
            i += 1;
        }
        let mut taken: Vec<Snake> = Vec::new();
        std::mem::swap(&mut taken, &mut self.snakes);
        self.snakes = retain_long(taken);
        // meetings of snakes
        let ghost s2 = snake_models(self.snakes@);
        let m = self.snakes.len();
        assert(collide_rows(s2, m as int, m as int) is None ==> resolve(g0) is None);
        let mut i: usize = 0;
        while i < m
            invariant
                old(self)@ == g0,
                0 <= i <= m,
                m == s2.len(),
                self.snakes@.len() == m,
                self.grid@ == g0.grid,
                self.food@ == g0.food,
                s2 == keep_long(wall_phase(g0.snakes, g0.grid, n as int)->0),
                wall_phase(g0.snakes, g0.grid, n as int) is Some,
                collide_rows(s2, i as int, m as int) == Some(snake_models(self.snakes@)),
                collide_rows(s2, m as int, m as int) is None ==> resolve(g0) is None,
            decreases m - i,
        {
            let ghost t0 = snake_models(self.snakes@);
            let mut j: usize = i + 1;
            while j < m
                invariant
                    old(self)@ == g0,
                    0 <= i < j <= m,
                    m == s2.len(),
                    self.snakes@.len() == m,
                    t0.len() == m,
                    self.grid@ == g0.grid,
                    self.food@ == g0.food,
                    s2 == keep_long(wall_phase(g0.snakes, g0.grid, n as int)->0),
                    wall_phase(g0.snakes, g0.grid, n as int) is Some,
                    collide_rows(s2, i as int, m as int) == Some(t0),
                    collide_row(t0, i as int, j as int) == Some(snake_models(self.snakes@)),
                    collide_rows(s2, m as int, m as int) is None ==> resolve(g0) is None,
                decreases m - j,
            {
                proof {
                    assert(snake_models(self.snakes@)[i as int] == self.snakes@[i as int]@);
                    assert(snake_models(self.snakes@)[j as int] == self.snakes@[j as int]@);
                }
                let ghost t = snake_models(self.snakes@);
                if self.snakes[i].body.len() == 0 || self.snakes[j].body.len() == 0 {
                    proof {
                        lemma_pair_fails(s2, t0, t, i as int, j as int, m as int);
                    }
                    return false;
                }
                let hit = tail_contains(&self.snakes[i].body, self.snakes[j].head());
                if hit {
                    if tail_contains(&self.snakes[i].body, self.snakes[j].head()) {
                        lose_head_at(&mut self.snakes, i);
                    }
                    assert(snake_models(self.snakes@)[j as int] == self.snakes@[j as int]@);
                    lose_head_at(&mut self.snakes, j);
                }
                proof {
                    let t2 = if hit {
                        t.update(i as int, t[i as int].headless()).update(j as int, t[j as int].headless())
                    } else {
                        t
                    };
                    assert(snake_models(self.snakes@) =~= t2);
                    assert(snake_models(self.snakes@)[i as int] == self.snakes@[i as int]@);
                    assert(snake_models(self.snakes@)[j as int] == self.snakes@[j as int]@);
                }
                if self.snakes[i].body.len() == 0 || self.snakes[j].body.len() == 0 {
                    proof {
                        lemma_pair_fails(s2, t0, t, i as int, j as int, m as int);
                    }
                    return false;
                }
                if tail_contains(&self.snakes[j].body, self.snakes[i].head()) {
                    lose_head_at(&mut self.snakes, i);
                }
                assert(snake_models(self.snakes@) == pair_step(t, i as int, j as int)->0);
                j += 1;
            }
            i += 1;
        }
        let mut taken: Vec<Snake> = Vec::new();
        std::mem::swap(&mut taken, &mut self.snakes);
        self.snakes = retain_long(taken);
        // mark the snakes
        let ghost s4 = snake_models(self.snakes@);
        proof {
            assert(s4 == keep_long(collide_rows(s2, m as int, m as int)->0));
        }
        if !crate::checks::all_placeable_check(&self.grid, &self.snakes) {
            return false;
        }
        let ghost v4 = self.snakes@;
        let k = self.snakes.len();
        let mut j: usize = 0;
        while j < k
            invariant
                old(self)@ == g0,
                0 <= j <= k,
                k == s4.len(),
                self.snakes@ == v4,
                snake_models(v4) == s4,
                self.food@ == g0.food,
                all_placeable(g0.grid, s4),
                self.grid@ == place_snakes(g0.grid, s4.take(j as int)),
            decreases k - j,
        {
            proof {
                let pre = s4.take(j as int);
                assert forall|q: int| 0 <= q < pre.len() implies (#[trigger] pre[q]).placeable(g0.grid) by {
                    assert(pre[q] == s4[q]);
                }
                lemma_place_snakes_shape(g0.grid, pre);
                assert(s4[j as int].placeable(g0.grid));
                assert(s4[j as int] == self.snakes@[j as int]@);
                assert forall|q: int| 0 <= q < s4[j as int].body.len() implies self.grid@.index_ok(
                    #[trigger] s4[j as int].body[q],
                ) by {
                    lemma_same_shape_ok(self.grid@, g0.grid, s4[j as int].body[q]);
                }
                assert(s4.take(j + 1).drop_last() =~= pre);
            }
            self.grid.place_snake(&self.snakes[j]);
            j += 1;
        }
        assert(s4.take(k as int) =~= s4);
        // gravity
        let ghost target = settle(self.grid@, s4);
        assert(target is None ==> resolve(g0) is None);
        let mut moved = true;
        while moved
            invariant
                old(self)@ == g0,
                self.food@ == g0.food,
                target == settle(place_snakes(g0.grid, s4), s4),
                target is None ==> resolve(g0) is None,
                moved ==> settle(self.grid@, snake_models(self.snakes@)) == target,
                !moved ==> target == Some((self.grid@, snake_models(self.snakes@))),
            decreases (if moved { snakes_height(snake_models(self.snakes@)) + 1 } else { 0 }),
        {
            let ghost gs = self.grid@;
            let ghost ss = snake_models(self.snakes@);
            let cnt = self.snakes.len();
            moved = false;
            let mut i: usize = 0;
            while i < cnt
                invariant
                    old(self)@ == g0,
                    0 <= i <= cnt,
                    cnt == ss.len(),
                    self.snakes@.len() == cnt,
                    self.food@ == g0.food,
                    settle(gs, ss) == target,
                    target is None ==> resolve(g0) is None,
                    fall_round(gs, ss, i as int) == Some((self.grid@, snake_models(self.snakes@), moved)),
                decreases cnt - i,
            {
                proof {
                    lemma_fall_round_len(gs, ss, i as int);
                    assert(snake_models(self.snakes@)[i as int] == self.snakes@[i as int]@);
                }
                let below = crate::checks::below_filled_checked(&self.snakes[i], &self.grid);
                let ghost g = self.grid@;
                let ghost sn = self.snakes@[i as int]@;
                let mut fits = true;
                let mut falls = false;
                match below {
                    None => {
                        fits = false;
                    },
                    Some(b) => {
                        if !b {
                            falls = true;
                            let ok1 = crate::checks::all_fit(&self.grid, &self.snakes[i].body);
                            let ok2 = crate::checks::fall_fits(&self.snakes[i]);
                            if ok1 && ok2 {
                                let mut f = self.snakes[i].duplicate();
                                f.fall();
                                let ok3 = f.body.len() > 0 && crate::checks::all_fit(&self.grid, &f.body);
                                proof {
                                    lemma_paint_shape(g, sn.body, Cell::Empty);
                                    assert forall|k: int| 0 <= k < sn.fallen().body.len() implies g.paint(sn.body, Cell::Empty).index_ok(
                                        #[trigger] sn.fallen().body[k],
                                    ) == g.index_ok(sn.fallen().body[k]) by {
                                        lemma_same_shape_ok(g.paint(sn.body, Cell::Empty), g, sn.fallen().body[k]);
                                    }
                                    assert(f@ == sn.fallen());
                                    assert(ok3 == sn.fallen().placeable(g.paint(sn.body, Cell::Empty)));
                                }
                                fits = ok3;
                            } else {
                                fits = false;
                            }
                        }
                    },
                }
                proof {
                    assert(fits == (fall_one(g, snake_models(self.snakes@), i as int) is Some));
                    assert(falls == (any_below_filled(g, sn.body, 0) == Some(false)));
                }
                if !fits {
                    proof {
                        if fall_round(gs, ss, cnt as int) is Some {
                            lemma_fall_round(gs, ss, i + 1, cnt as int);
                        }
                        assert(settle(gs, ss) is None);
                    }
                    return false;
                }
                proof {
                    if falls {
                        lemma_paint_shape(g, sn.body, Cell::Empty);
                        assert forall|k: int| 0 <= k < sn.fallen().body.len() implies g.paint(sn.body, Cell::Empty).index_ok(#[trigger] sn.fallen().body[k]) by {
                            lemma_same_shape_ok(g.paint(sn.body, Cell::Empty), g, sn.fallen().body[k]);
                        }
                    }
                }
                if falls {
                    moved = true;
                    self.grid.clear_snake(&self.snakes[i]);
                    fall_at(&mut self.snakes, i);
                    proof {
                        assert(snake_models(self.snakes@)[i as int] == self.snakes@[i as int]@);
                    }
                    self.grid.place_snake(&self.snakes[i]);
                }
                i += 1;
            }
            proof {
                crate::checks::lemma_fall_round_height(gs, ss, cnt as int);
                if moved {
                    crate::checks::lemma_settle_step(gs, ss);
                }
            }
        }
        assert(self@ =~= resolve(g0)->0);
        true
    }
}

impl GameState {
    /// Plays one turn: the snakes that `side` selects move, the `k`-th of them in
    /// `directions[k]`; then collisions are resolved and every snake is marked again.
    pub fn apply(&mut self, directions: &Vec<Direction>, side: Option<bool>)
        requires
            apply_result(old(self)@, directions@, side) is Some,
        ensures
            final(self)@ == apply_result(old(self)@, directions@, side)->0,
            turn_keeps(old(self)@, final(self)@),
            side is None && directions@.len() >= old(self).snakes@.len() && mark_cells(old(self)@.grid).subset_of(
                snake_cells(old(self).grid.width as int, old(self)@.snakes),
            ) ==> mark_cells(final(self)@.grid) == snake_cells(final(self).grid.width as int, final(self)@.snakes),
    {
        let ghost g0 = self@;
        proof {
            lemma_turn_keeps(g0, directions@, side);
            if side is None && directions@.len() >= g0.snakes.len() && mark_cells(g0.grid).subset_of(
                snake_cells(g0.grid.width as int, g0.snakes),
            ) {
                lemma_turn_marks(g0, directions@);
            }
        }
        let n = self.snakes.len();
        let mut used: usize = 0;
        let mut i: usize = 0;
        while i < n
            invariant
                0 <= i <= n,
                n == g0.snakes.len(),
                self.snakes@.len() == n,
                move_phase(g0, directions@, side, n as int) is Some,
                move_phase(g0, directions@, side, i as int) == Some((self@, used as int)),
            decreases n - i,
        {
            proof {
                lemma_move_phase_prefix(g0, directions@, side, i + 1, n as int);
            }
            let mine = self.snakes[i].mine;
            let selected = match side {
                Some(m) => mine == m,
                None => true,
            };
            if used < directions.len() && selected {
                let ghost g = self@;
                assert(g.snakes[i as int] == self.snakes@[i as int]@);
                self.grid.clear_snake(&self.snakes[i]);
                proof {
                    lemma_paint_shape(g.grid, g.snakes[i as int].body, Cell::Empty);
                    lemma_same_shape_ok(self.grid@, g.grid, g.snakes[i as int].head());
                }
                let grow = *self.grid.get(self.snakes[i].head()) == Cell::Food;
                let mut s = self.snakes.remove(i);
                s.move_to(&directions[used], grow);
                self.snakes.insert(i, s);
                used += 1;
                assert(self@ =~= move_one(g, directions@, side, i as int, (used - 1) as int).unwrap().0);
            }
            i += 1;
        }
        proof {
            lemma_move_phase_len(g0, directions@, side, n as int);
        }
        self.resolve_collisions();
        let ghost g2 = self@;
        let ghost v2 = self.snakes@;
        let m = self.snakes.len();
        let mut j: usize = 0;
        while j < m
            invariant
                0 <= j <= m,
                m == g2.snakes.len(),
                self.snakes@ == v2,
                snake_models(v2) == g2.snakes,
                self.food@ == g2.food,
                all_placeable(g2.grid, g2.snakes),
                self.grid@ == place_snakes(g2.grid, g2.snakes.take(j as int)),
            decreases m - j,
        {
            proof {
                let pre = g2.snakes.take(j as int);
                assert forall|k: int| 0 <= k < pre.len() implies (#[trigger] pre[k]).placeable(g2.grid) by {
                    assert(pre[k] == g2.snakes[k]);
                }
                lemma_place_snakes_shape(g2.grid, pre);
                assert(g2.snakes[j as int].placeable(g2.grid));
                assert(g2.snakes[j as int] == self.snakes@[j as int]@);
                assert forall|k: int| 0 <= k < g2.snakes[j as int].body.len() implies self.grid@.index_ok(
                    #[trigger] g2.snakes[j as int].body[k],
                ) by {
                    lemma_same_shape_ok(self.grid@, g2.grid, g2.snakes[j as int].body[k]);
                }
                assert(g2.snakes.take(j + 1).drop_last() =~= pre);
            }
            self.grid.place_snake(&self.snakes[j]);
            j += 1;
        }
        assert(g2.snakes.take(m as int) =~= g2.snakes);
        assert(self@ =~= apply_result(g0, directions@, side)->0);
    }

    /// Plays the turn as `apply` does when it can be played, and tells whether it could.
    pub(crate) fn try_apply(&mut self, directions: &Vec<Direction>, side: Option<bool>) -> (ok: bool)
        ensures
            ok == (apply_result(old(self)@, directions@, side) is Some),
            ok ==> final(self)@ == apply_result(old(self)@, directions@, side)->0,
    {
        let ghost g0 = self@;
        let n = self.snakes.len();
        let mut used: usize = 0;
        let mut i: usize = 0;
        while i < n
            invariant
                0 <= i <= n,
                n == g0.snakes.len(),
                self.snakes@.len() == n,
                old(self)@ == g0,
                move_phase(g0, directions@, side, i as int) == Some((self@, used as int)),
            decreases n - i,
        {
            let mine = self.snakes[i].mine;
            let selected = match side {
                Some(m) => mine == m,
                None => true,
            };
            if used < directions.len() && selected {
                let ghost g = self@;
                assert(g.snakes[i as int] == self.snakes@[i as int]@);
                if self.snakes[i].body.len() == 0 || !crate::checks::all_fit(&self.grid, &self.snakes[i].body)
                    || !crate::checks::step_fits(self.snakes[i].head(), directions[used]) {
                    proof {
                        assert(move_one(g, directions@, side, i as int, used as int) is None);
                        assert(move_phase(g0, directions@, side, i + 1) is None);
                        if move_phase(g0, directions@, side, n as int) is Some {
                            lemma_move_phase_prefix(g0, directions@, side, i + 1, n as int);
                        }
                    }
                    return false;
                }
                self.grid.clear_snake(&self.snakes[i]);
                proof {
                    lemma_paint_shape(g.grid, g.snakes[i as int].body, Cell::Empty);
                    lemma_same_shape_ok(self.grid@, g.grid, g.snakes[i as int].head());
                }
                let grow = *self.grid.get(self.snakes[i].head()) == Cell::Food;
                let mut s = self.snakes.remove(i);
                s.move_to(&directions[used], grow);
                self.snakes.insert(i, s);
                used += 1;
                assert(self@ =~= move_one(g, directions@, side, i as int, (used - 1) as int).unwrap().0);
            }
            i += 1;
        }
        proof {
            lemma_move_phase_len(g0, directions@, side, n as int);
        }
        if !self.try_resolve() {
            return false;
        }
        let ghost g2 = self@;
        if !crate::checks::all_placeable_check(&self.grid, &self.snakes) {
            return false;
        }
        let ghost v2 = self.snakes@;
        let m = self.snakes.len();
        let mut j: usize = 0;
        while j < m
            invariant
                0 <= j <= m,
                m == g2.snakes.len(),
                self.snakes@ == v2,
                snake_models(v2) == g2.snakes,
                self.food@ == g2.food,
                all_placeable(g2.grid, g2.snakes),
                self.grid@ == place_snakes(g2.grid, g2.snakes.take(j as int)),
            decreases m - j,
        {
            proof {
                let pre = g2.snakes.take(j as int);
                assert forall|k: int| 0 <= k < pre.len() implies (#[trigger] pre[k]).placeable(g2.grid) by {
                    assert(pre[k] == g2.snakes[k]);
                }
                lemma_place_snakes_shape(g2.grid, pre);
                assert(g2.snakes[j as int].placeable(g2.grid));
                assert(g2.snakes[j as int] == self.snakes@[j as int]@);
                assert forall|k: int| 0 <= k < g2.snakes[j as int].body.len() implies self.grid@.index_ok(
                    #[trigger] g2.snakes[j as int].body[k],
                ) by {
                    lemma_same_shape_ok(self.grid@, g2.grid, g2.snakes[j as int].body[k]);
                }
                assert(g2.snakes.take(j + 1).drop_last() =~= pre);
            }
            self.grid.place_snake(&self.snakes[j]);
            j += 1;
        }
        assert(g2.snakes.take(m as int) =~= g2.snakes);
        assert(self@ =~= apply_result(g0, directions@, side)->0);
        true
    }

    /// Whether the turn in which the snakes that `side` selects move, the `k`-th of them in
    /// `directions[k]`, can be played: what `apply` needs.
    pub fn apply_ok(&self, directions: &Vec<Direction>, side: Option<bool>) -> (r: bool)
        ensures
            r == (apply_result(self@, directions@, side) is Some),
    {
        let mut g = self.duplicate();
        g.try_apply(directions, side)
    }
}

} // verus!
