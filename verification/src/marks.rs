use vstd::prelude::*;
use crate::types::{Cell, Direction, GameModel, GridModel, Point, SnakeModel, place_snakes, body_mark, head_mark, lemma_paint_shape, lemma_same_shape_ok, lemma_place_snake_shape, lemma_place_snakes_shape};
use crate::engine::{
    all_placeable, apply_result, fall_one, fall_round, keep_long, lemma_fall_round, lemma_fall_round_len,
    lemma_index_ok_idx, lemma_move_phase_len, lemma_move_phase_prefix, lemma_settle, long_enough, move_one, move_phase,
    collide_rows, settle, snakes_height, wall_phase,
};

verus! {

// ------------------------------------------------------------------ order of the sides

/// The snakes of my side all come before the others.
pub open spec fn mine_first(snakes: Seq<SnakeModel>) -> bool {
    forall|i: int, j: int| 0 <= i < j < snakes.len() && (#[trigger] snakes[j]).mine ==> (#[trigger] snakes[i]).mine
}

/// Snakes with the sides of an ordered list, place by place, are ordered.
pub proof fn lemma_mine_first_places(a: Seq<SnakeModel>, b: Seq<SnakeModel>)
    requires
        mine_first(a),
        a.len() == b.len(),
        forall|i: int| 0 <= i < a.len() ==> (#[trigger] b[i]).mine == a[i].mine,
    ensures
        mine_first(b),
{
    assert forall|i: int, j: int| 0 <= i < j < b.len() && (#[trigger] b[j]).mine implies (#[trigger] b[i]).mine by {
        assert(a[j].mine == b[j].mine && a[i].mine == b[i].mine);
        assert(a[j].mine ==> a[i].mine);
    }
}

/// Leaving out snakes keeps the others in their order.
pub proof fn lemma_mine_first_filter(s: Seq<SnakeModel>, f: spec_fn(SnakeModel) -> bool)
    requires
        mine_first(s),
    ensures
        mine_first(s.filter(f)),
    decreases s.len(),
{
    if s.len() > 0 {
        let pre = s.drop_last();
        let e = s.last();
        assert(mine_first(pre)) by {
            assert forall|i: int, j: int| 0 <= i < j < pre.len() && (#[trigger] pre[j]).mine implies (#[trigger] pre[i]).mine by {
                assert(s[j].mine ==> s[i].mine);
            }
        }
        lemma_mine_first_filter(pre, f);
        assert(pre.push(e) =~= s);
        pre.lemma_filter_push(e, f);
        if f(e) {
            let t = pre.filter(f);
            let u = t.push(e);
            assert forall|i: int, j: int| 0 <= i < j < u.len() && (#[trigger] u[j]).mine implies (#[trigger] u[i]).mine by {
                if j == u.len() - 1 {
                    assert(t.contains(t[i]));
                    pre.lemma_filter_contains_rev(f, t[i]);
                    let k = choose|k: int| 0 <= k < pre.len() && pre[k] == t[i];
                    assert(s[k] == t[i]);
                    assert(s[s.len() - 1].mine ==> s[k].mine);
                } else {
                    assert(u[i] == t[i] && u[j] == t[j]);
                }
            }
        }
    }
}

// ------------------------------------------------------------------ snake marks

/// The position among the cells of a board `w` wide of square `p`.
pub open spec fn cell_of(w: int, p: Point) -> int {
    p.y * w + p.x
}

/// The cells of the squares of `body`.
pub open spec fn body_cells(w: int, body: Seq<Point>) -> Set<int> {
    Set::new(|j: int| exists|k: int| 0 <= k < body.len() && #[trigger] cell_of(w, body[k]) == j)
}

/// The cells of the squares of the snakes.
pub open spec fn snake_cells(w: int, snakes: Seq<SnakeModel>) -> Set<int> {
    Set::new(|j: int| exists|i: int| 0 <= i < snakes.len() && #[trigger] body_cells(w, snakes[i].body).contains(j))
}

/// The cells holding a snake mark.
pub open spec fn mark_cells(g: GridModel<Cell>) -> Set<int> {
    Set::new(|j: int| 0 <= j < g.cells.len() && g.cells[j] is Snake)
}

/// Writing `v` at each of `pts` leaves `v` at their cells and every other cell as it was.
pub proof fn lemma_paint_cells(g: GridModel<Cell>, pts: Seq<Point>, v: Cell)
    requires
        g.all_ok(pts),
    ensures
        g.paint(pts, v).cells.len() == g.cells.len(),
        g.paint(pts, v).width == g.width,
        forall|j: int| #[trigger] body_cells(g.width as int, pts).contains(j) ==> 0 <= j < g.cells.len(),
        forall|j: int|
            0 <= j < g.cells.len() ==> #[trigger] g.paint(pts, v).cells[j] == if body_cells(g.width as int, pts).contains(j) {
                v
            } else {
                g.cells[j]
            },
    decreases pts.len(),
{
    let w = g.width as int;
    if pts.len() == 0 {
        assert forall|j: int| #[trigger] body_cells(w, pts).contains(j) implies 0 <= j < g.cells.len() by {
            let k = choose|k: int| 0 <= k < pts.len() && #[trigger] cell_of(w, pts[k]) == j;
        }
    } else {
        let pre = pts.drop_last();
        let l = pts.last();
        assert(g.all_ok(pre));
        lemma_paint_cells(g, pre, v);
        lemma_paint_shape(g, pre, v);
        let h = g.paint(pre, v);
        lemma_same_shape_ok(h, g, l);
        lemma_index_ok_idx(h, l);
        assert forall|j: int| #[trigger] body_cells(w, pts).contains(j) == (body_cells(w, pre).contains(j) || j == cell_of(w, l)) by {
            if body_cells(w, pts).contains(j) {
                let k = choose|k: int| 0 <= k < pts.len() && #[trigger] cell_of(w, pts[k]) == j;
                if k < pts.len() - 1 {
                    assert(pre[k] == pts[k]);
                    assert(body_cells(w, pre).contains(j));
                }
            }
            if body_cells(w, pre).contains(j) {
                let k = choose|k: int| 0 <= k < pre.len() && #[trigger] cell_of(w, pre[k]) == j;
                assert(pts[k] == pre[k]);
                assert(body_cells(w, pts).contains(j));
            }
            if j == cell_of(w, l) {
                assert(cell_of(w, pts[pts.len() - 1]) == j);
            }
        }
    }
}

/// Marking a snake marks the cells of its squares and leaves every other cell as it was.
pub proof fn lemma_place_snake_cells(g: GridModel<Cell>, s: SnakeModel)
    requires
        s.placeable(g),
    ensures
        g.place_snake(s).cells.len() == g.cells.len(),
        g.place_snake(s).width == g.width,
        forall|j: int| #[trigger] mark_cells(g.place_snake(s)).contains(j) == (body_cells(g.width as int, s.body).contains(j)
            || mark_cells(g).contains(j)),
{
    let w = g.width as int;
    let hd = s.body[0];
    let h = g.set(hd, Cell::Snake(head_mark(s.id)));
    let rest = s.body.skip(1);
    lemma_index_ok_idx(g, hd);
    assert forall|i: int| 0 <= i < rest.len() implies h.index_ok(#[trigger] rest[i]) by {
        assert(g.index_ok(s.body[i + 1]));
    }
    lemma_paint_cells(h, rest, Cell::Snake(body_mark(s.id)));
    let r = g.place_snake(s);
    assert forall|j: int| #[trigger] body_cells(w, s.body).contains(j) == (body_cells(w, rest).contains(j) || j == cell_of(w, hd)) by {
        if body_cells(w, s.body).contains(j) {
            let k = choose|k: int| 0 <= k < s.body.len() && #[trigger] cell_of(w, s.body[k]) == j;
            if k > 0 {
                assert(rest[k - 1] == s.body[k]);
                assert(body_cells(w, rest).contains(j));
            }
        }
        if body_cells(w, rest).contains(j) {
            let k = choose|k: int| 0 <= k < rest.len() && #[trigger] cell_of(w, rest[k]) == j;
            assert(s.body[k + 1] == rest[k]);
            assert(body_cells(w, s.body).contains(j));
        }
        if j == cell_of(w, hd) {
            assert(cell_of(w, s.body[0]) == j);
        }
    }
    assert forall|j: int| #[trigger] mark_cells(r).contains(j) == (body_cells(w, s.body).contains(j) || mark_cells(g).contains(j)) by {
        if body_cells(w, rest).contains(j) {
            assert(0 <= j < h.cells.len());
        }
    }
}

/// Marking snakes marks the cells of their squares and leaves every other cell as it was.
pub proof fn lemma_place_snakes_cells(g: GridModel<Cell>, snakes: Seq<SnakeModel>)
    requires
        all_placeable(g, snakes),
    ensures
        place_snakes(g, snakes).cells.len() == g.cells.len(),
        place_snakes(g, snakes).width == g.width,
        forall|j: int| #[trigger] mark_cells(place_snakes(g, snakes)).contains(j) == (snake_cells(g.width as int, snakes).contains(j)
            || mark_cells(g).contains(j)),
    decreases snakes.len(),
{
    let w = g.width as int;
    if snakes.len() == 0 {
        assert forall|j: int| !#[trigger] snake_cells(w, snakes).contains(j) by {}
    } else {
        let pre = snakes.drop_last();
        assert forall|i: int| 0 <= i < pre.len() implies (#[trigger] pre[i]).placeable(g) by {
            assert(pre[i] == snakes[i]);
        }
        lemma_place_snakes_cells(g, pre);
        lemma_place_snakes_shape(g, pre);
        let h = place_snakes(g, pre);
        let s = snakes.last();
        assert(snakes[snakes.len() - 1].placeable(g));
        assert forall|i: int| 0 <= i < s.body.len() implies h.index_ok(#[trigger] s.body[i]) by {
            lemma_same_shape_ok(h, g, s.body[i]);
        }
        lemma_place_snake_cells(h, s);
        assert forall|j: int| #[trigger] snake_cells(w, snakes).contains(j) == (snake_cells(w, pre).contains(j)
            || body_cells(w, s.body).contains(j)) by {
            if snake_cells(w, snakes).contains(j) {
                let i = choose|i: int| 0 <= i < snakes.len() && #[trigger] body_cells(w, snakes[i].body).contains(j);
                if i < pre.len() {
                    assert(pre[i] == snakes[i]);
                    assert(snake_cells(w, pre).contains(j));
                }
            }
            if snake_cells(w, pre).contains(j) {
                let i = choose|i: int| 0 <= i < pre.len() && #[trigger] body_cells(w, pre[i].body).contains(j);
                assert(snakes[i] == pre[i]);
                assert(snake_cells(w, snakes).contains(j));
            }
            if body_cells(w, s.body).contains(j) {
                assert(body_cells(w, snakes[snakes.len() - 1].body).contains(j));
            }
        }
    }
}

/// When every snake moves, the moves of the first `i` snakes empty their squares: the snake marks
/// left stand on squares of the snakes not moved yet.
pub proof fn lemma_move_phase_marks(g: GameModel, dirs: Seq<Direction>, i: int)
    requires
        0 <= i <= g.snakes.len(),
        dirs.len() >= g.snakes.len(),
        move_phase(g, dirs, None, i) is Some,
        mark_cells(g.grid).subset_of(snake_cells(g.grid.width as int, g.snakes)),
    ensures
        move_phase(g, dirs, None, i).unwrap().1 == i,
        move_phase(g, dirs, None, i).unwrap().0.grid.width == g.grid.width,
        forall|k: int| i <= k < g.snakes.len() ==> #[trigger] move_phase(g, dirs, None, i).unwrap().0.snakes[k] == g.snakes[k],
        mark_cells(move_phase(g, dirs, None, i).unwrap().0.grid).subset_of(
            snake_cells(g.grid.width as int, g.snakes.subrange(i, g.snakes.len() as int)),
        ),
    decreases i,
{
    let w = g.grid.width as int;
    let n = g.snakes.len() as int;
    if i == 0 {
        assert(g.snakes.subrange(0, n) =~= g.snakes);
    } else {
        lemma_move_phase_prefix(g, dirs, None, i - 1, i);
        lemma_move_phase_marks(g, dirs, i - 1);
        lemma_move_phase_len(g, dirs, None, i - 1);
        let (h, used) = move_phase(g, dirs, None, i - 1).unwrap();
        let sn = h.snakes[i - 1];
        assert(sn == g.snakes[i - 1]);
        let h2 = move_one(h, dirs, None, i - 1, used).unwrap().0;
        lemma_paint_cells(h.grid, sn.body, Cell::Empty);
        assert(h2.grid == h.grid.paint(sn.body, Cell::Empty));
        let sub = g.snakes.subrange(i - 1, n);
        let sub2 = g.snakes.subrange(i, n);
        assert forall|j: int| #[trigger] mark_cells(h2.grid).contains(j) implies snake_cells(w, sub2).contains(j) by {
            assert(mark_cells(h.grid).contains(j));
            assert(!body_cells(w, sn.body).contains(j));
            assert(snake_cells(w, sub).contains(j));
            let t = choose|t: int| 0 <= t < sub.len() && #[trigger] body_cells(w, sub[t].body).contains(j);
            assert(t != 0);
            assert(sub2[t - 1] == sub[t]);
            assert(body_cells(w, sub2[t - 1].body).contains(j));
        }
        assert forall|k: int| i <= k < n implies #[trigger] h2.snakes[k] == g.snakes[k] by {
            assert(h.snakes[k] == g.snakes[k]);
        }
    }
}

/// A pass of gravity keeps every snake mark on a square of a snake.
pub proof fn lemma_fall_round_marks(grid: GridModel<Cell>, snakes: Seq<SnakeModel>, i: int)
    requires
        0 <= i <= snakes.len(),
        fall_round(grid, snakes, i) is Some,
        mark_cells(grid).subset_of(snake_cells(grid.width as int, snakes)),
    ensures
        fall_round(grid, snakes, i).unwrap().0.width == grid.width,
        mark_cells(fall_round(grid, snakes, i).unwrap().0).subset_of(
            snake_cells(grid.width as int, fall_round(grid, snakes, i).unwrap().1),
        ),
    decreases i,
{
    let w = grid.width as int;
    if i > 0 {
        lemma_fall_round(grid, snakes, i - 1, i);
        lemma_fall_round_marks(grid, snakes, i - 1);
        lemma_fall_round_len(grid, snakes, i - 1);
        let (g, s, moved) = fall_round(grid, snakes, i - 1).unwrap();
        let sn = s[i - 1];
        let (g3, s3, fell) = fall_one(g, s, i - 1).unwrap();
        if fell {
            let g1 = g.paint(sn.body, Cell::Empty);
            let s2 = sn.fallen();
            lemma_paint_cells(g, sn.body, Cell::Empty);
            lemma_place_snake_cells(g1, s2);
            assert(g3 == g1.place_snake(s2));
            assert(s3 == s.update(i - 1, s2));
            assert forall|j: int| #[trigger] mark_cells(g3).contains(j) implies snake_cells(w, s3).contains(j) by {
                if body_cells(w, s2.body).contains(j) {
                    assert(body_cells(w, s3[i - 1].body).contains(j));
                } else {
                    assert(mark_cells(g1).contains(j));
                    assert(mark_cells(g).contains(j));
                    assert(!body_cells(w, sn.body).contains(j));
                    let t = choose|t: int| 0 <= t < s.len() && #[trigger] body_cells(w, s[t].body).contains(j);
                    assert(t != i - 1);
                    assert(s3[t] == s[t]);
                    assert(body_cells(w, s3[t].body).contains(j));
                }
            }
        }
    }
}

/// Gravity keeps every snake mark on a square of a snake.
pub proof fn lemma_settle_marks(grid: GridModel<Cell>, snakes: Seq<SnakeModel>)
    requires
        settle(grid, snakes) is Some,
        mark_cells(grid).subset_of(snake_cells(grid.width as int, snakes)),
    ensures
        settle(grid, snakes).unwrap().0.width == grid.width,
        mark_cells(settle(grid, snakes).unwrap().0).subset_of(snake_cells(grid.width as int, settle(grid, snakes).unwrap().1)),
    decreases snakes_height(snakes),
{
    lemma_fall_round_marks(grid, snakes, snakes.len() as int);
    let (g2, s2, moved) = fall_round(grid, snakes, snakes.len() as int).unwrap();
    if moved {
        lemma_settle_marks(g2, s2);
    }
}

/// After a turn in which every snake moves, the cells holding snake marks are exactly the cells
/// of the squares of the snakes left, when before it every snake mark stood on a snake's square.
pub proof fn lemma_turn_marks(g: GameModel, dirs: Seq<Direction>)
    requires
        apply_result(g, dirs, None) is Some,
        dirs.len() >= g.snakes.len(),
        mark_cells(g.grid).subset_of(snake_cells(g.grid.width as int, g.snakes)),
    ensures
        mark_cells(apply_result(g, dirs, None)->0.grid) == snake_cells(
            apply_result(g, dirs, None)->0.grid.width as int,
            apply_result(g, dirs, None)->0.snakes,
        ),
{
    let w = g.grid.width as int;
    let n = g.snakes.len() as int;
    lemma_move_phase_marks(g, dirs, n);
    lemma_move_phase_len(g, dirs, None, n);
    let (g1, used) = move_phase(g, dirs, None, n).unwrap();
    let empty = g.snakes.subrange(n, n);
    assert forall|j: int| !#[trigger] mark_cells(g1.grid).contains(j) by {
        if mark_cells(g1.grid).contains(j) {
            assert(snake_cells(w, empty).contains(j));
            let t = choose|t: int| 0 <= t < empty.len() && #[trigger] body_cells(w, empty[t].body).contains(j);
        }
    }
    let s1 = wall_phase(g1.snakes, g1.grid, n)->0;
    let s2 = keep_long(s1);
    let m = s2.len() as int;
    let s3 = collide_rows(s2, m, m)->0;
    let s4 = keep_long(s3);
    let big = place_snakes(g1.grid, s4);
    lemma_place_snakes_cells(g1.grid, s4);
    assert(mark_cells(big).subset_of(snake_cells(w, s4)));
    lemma_settle_marks(big, s4);
    let (grid2, snakes2) = settle(big, s4).unwrap();
    lemma_place_snakes_cells(grid2, snakes2);
    let r = apply_result(g, dirs, None)->0;
    assert(r.grid == place_snakes(grid2, snakes2));
    assert(r.snakes == snakes2);
    assert(mark_cells(r.grid) =~= snake_cells(w, snakes2));
}

} // verus!
