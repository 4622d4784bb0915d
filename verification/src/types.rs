use vstd::prelude::*;
use vstd::std_specs::ops::{AddSpecImpl, MulSpecImpl, SubSpecImpl};
use vstd::std_specs::convert::FromSpecImpl;

verus! {

/// Coordinates on the board.
pub type Coord = i16;

/// The content of one square of the board.
#[derive(Clone, Copy, PartialEq, Eq, Debug, Structural)]
pub enum Cell {
    Empty,
    Wall,
    Snake(Coord),
    Food,
}

/// A square of the board, column `x` and row `y` (rows grow downwards).
#[derive(Clone, Copy, PartialEq, Eq, Debug, Hash, Structural)]
pub struct Point {
    pub x: Coord,
    pub y: Coord,
}

/// The four moves of a snake.
#[derive(Clone, Copy, PartialEq, Eq, Debug, Structural)]
pub enum Direction {
    Up,
    Down,
    Left,
    Right,
}

/// The order in which the moves are tried.
pub open spec fn directions() -> Seq<Direction> {
    seq![Direction::Right, Direction::Left, Direction::Up, Direction::Down]
}

/// All four moves, in the order of `directions()`.
pub fn all_directions() -> (v: Vec<Direction>)
    ensures
        v@ == directions(),
{
    let v = vec![Direction::Right, Direction::Left, Direction::Up, Direction::Down];
    assert(v@ =~= directions());
    v
}

/// Column offset of a direction.
pub open spec fn dir_dx(d: Direction) -> int {
    match d {
        Direction::Left => -1,
        Direction::Right => 1,
        _ => 0,
    }
}

/// Row offset of a direction.
pub open spec fn dir_dy(d: Direction) -> int {
    match d {
        Direction::Up => -1,
        Direction::Down => 1,
        _ => 0,
    }
}

/// One step from `p` in direction `d` stays within `Coord`.
pub open spec fn step_ok(p: Point, d: Direction) -> bool {
    &&& i16::MIN <= p.x + dir_dx(d) <= i16::MAX
    &&& i16::MIN <= p.y + dir_dy(d) <= i16::MAX
}

/// The point one step from `p` in direction `d`.
pub open spec fn step(p: Point, d: Direction) -> Point {
    Point { x: (p.x + dir_dx(d)) as i16, y: (p.y + dir_dy(d)) as i16 }
}

/// The cell value that marks the body of snake `id`.
pub open spec fn body_mark(id: Coord) -> Coord {
    id << 1
}

/// The cell value that marks the head of snake `id`.
pub open spec fn head_mark(id: Coord) -> Coord {
    (id << 1) | 1
}

impl Point {
    /// The point of column `x` and row `y`.
    pub fn new(x: Coord, y: Coord) -> (p: Self)
        ensures
            p.x == x,
            p.y == y,
    {
        Self { x, y }
    }

    /// The square below rests on something that is neither empty nor a part of `snake`.
    pub fn supported(&self, grid: &Grid, snake: &Snake) -> (r: bool)
        requires
            point_read_ok(grid@, *self),
        ensures
            r == point_supported(grid@, *self, snake.id),
    {
        let below = *grid.get(*self + Direction::Down);
        below != Cell::Empty && !(match below {
            Cell::Snake(id) => id >> 1 == snake.id,
            _ => false,
        })
    }
}

/// Reading the square below `p` stays on the board.
pub open spec fn point_read_ok(g: GridModel<Cell>, p: Point) -> bool {
    step_ok(p, Direction::Down) && g.index_ok(step(p, Direction::Down))
}

/// The square below `p` holds something, and not a part of snake `id`.
pub open spec fn point_supported(g: GridModel<Cell>, p: Point, id: Coord) -> bool {
    let below = g.at(step(p, Direction::Down));
    below != Cell::Empty && !(match below {
        Cell::Snake(k) => k >> 1 == id,
        _ => false,
    })
}

impl core::ops::Add for Point {
    type Output = Point;

    fn add(self, rhs: Point) -> (r: Point) {
        Point { x: self.x + rhs.x, y: self.y + rhs.y }
    }
}

impl AddSpecImpl for Point {
    open spec fn obeys_add_spec() -> bool {
        true
    }

    open spec fn add_req(self, rhs: Point) -> bool {
        &&& i16::MIN <= self.x + rhs.x <= i16::MAX
        &&& i16::MIN <= self.y + rhs.y <= i16::MAX
    }

    open spec fn add_spec(self, rhs: Point) -> Point {
        Point { x: (self.x + rhs.x) as i16, y: (self.y + rhs.y) as i16 }
    }
}

impl core::ops::Sub for Point {
    type Output = Point;

    fn sub(self, rhs: Point) -> (r: Point) {
        Point { x: self.x - rhs.x, y: self.y - rhs.y }
    }
}

impl SubSpecImpl for Point {
    open spec fn obeys_sub_spec() -> bool {
        true
    }

    open spec fn sub_req(self, rhs: Point) -> bool {
        &&& i16::MIN <= self.x - rhs.x <= i16::MAX
        &&& i16::MIN <= self.y - rhs.y <= i16::MAX
    }

    open spec fn sub_spec(self, rhs: Point) -> Point {
        Point { x: (self.x - rhs.x) as i16, y: (self.y - rhs.y) as i16 }
    }
}

impl core::ops::Mul<Coord> for Point {
    type Output = Point;

    fn mul(self, rhs: Coord) -> (r: Point) {
        Point { x: self.x * rhs, y: self.y * rhs }
    }
}

impl MulSpecImpl<Coord> for Point {
    open spec fn obeys_mul_spec() -> bool {
        true
    }

    open spec fn mul_req(self, rhs: Coord) -> bool {
        &&& i16::MIN <= self.x * rhs <= i16::MAX
        &&& i16::MIN <= self.y * rhs <= i16::MAX
    }

    open spec fn mul_spec(self, rhs: Coord) -> Point {
        Point { x: (self.x * rhs) as i16, y: (self.y * rhs) as i16 }
    }
}

impl core::ops::Add<Direction> for Point {
    type Output = Point;

    fn add(self, rhs: Direction) -> (r: Point) {
        self + Point::from(rhs)
    }
}

impl AddSpecImpl<Direction> for Point {
    open spec fn obeys_add_spec() -> bool {
        true
    }

    open spec fn add_req(self, rhs: Direction) -> bool {
        step_ok(self, rhs)
    }

    open spec fn add_spec(self, rhs: Direction) -> Point {
        step(self, rhs)
    }
}

impl From<Direction> for Point {
    fn from(dir: Direction) -> (p: Point) {
        match dir {
            Direction::Up => Point::new(0, -1),
            Direction::Down => Point::new(0, 1),
            Direction::Left => Point::new(-1, 0),
            Direction::Right => Point::new(1, 0),
        }
    }
}

impl FromSpecImpl<Direction> for Point {
    open spec fn obeys_from_spec() -> bool {
        true
    }

    open spec fn from_spec(dir: Direction) -> Point {
        Point { x: dir_dx(dir) as i16, y: dir_dy(dir) as i16 }
    }
}

impl<'a> core::ops::Add<&'a Direction> for Point {
    type Output = Point;

    fn add(self, rhs: &'a Direction) -> (r: Point) {
        self + *rhs
    }
}

impl<'a> AddSpecImpl<&'a Direction> for Point {
    open spec fn obeys_add_spec() -> bool {
        true
    }

    open spec fn add_req(self, rhs: &'a Direction) -> bool {
        step_ok(self, *rhs)
    }

    open spec fn add_spec(self, rhs: &'a Direction) -> Point {
        step(self, *rhs)
    }
}

impl<'a> From<&'a Direction> for Point {
    fn from(dir: &'a Direction) -> (p: Point) {
        Point::from(*dir)
    }
}

impl<'a> FromSpecImpl<&'a Direction> for Point {
    open spec fn obeys_from_spec() -> bool {
        true
    }

    open spec fn from_spec(dir: &'a Direction) -> Point {
        Point { x: dir_dx(*dir) as i16, y: dir_dy(*dir) as i16 }
    }
}

impl Direction {
    /// The name of the move, in capitals.
    pub fn to_string(&self) -> (s: String)
        ensures
            s@ == direction_name(*self),
    {
        match self {
            Direction::Up => "UP".to_string(),
            Direction::Down => "DOWN".to_string(),
            Direction::Left => "LEFT".to_string(),
            Direction::Right => "RIGHT".to_string(),
        }
    }
}

/// The name of a move.
pub open spec fn direction_name(d: Direction) -> Seq<char> {
    match d {
        Direction::Up => "UP"@,
        Direction::Down => "DOWN"@,
        Direction::Left => "LEFT"@,
        Direction::Right => "RIGHT"@,
    }
}

// ------------------------------------------------------------------ grid

/// What a grid holds: its size and its cells, row after row.
#[verifier::ext_equal]
pub struct GridModel<T> {
    pub width: Coord,
    pub height: Coord,
    pub cells: Seq<T>,
}

impl<T> GridModel<T> {
    /// Position of `p` in the row-major cell sequence.
    pub open spec fn idx(self, p: Point) -> int {
        p.y * self.width + p.x
    }

    /// Reading or writing at `p` addresses an existing cell.
    pub open spec fn index_ok(self, p: Point) -> bool {
        &&& 0 <= p.x
        &&& 0 <= p.y
        &&& 0 <= self.width
        &&& self.idx(p) < self.cells.len()
    }

    /// `p` is a square of the board.
    pub open spec fn in_bounds(self, p: Point) -> bool {
        0 <= p.x < self.width && 0 <= p.y < self.height
    }

    /// The grid is a `width` by `height` rectangle.
    pub open spec fn wf(self) -> bool {
        &&& 0 <= self.width
        &&& 0 <= self.height
        &&& self.cells.len() == self.width * self.height
    }

    /// The cell at `p`.
    pub open spec fn at(self, p: Point) -> T {
        self.cells[self.idx(p)]
    }

    /// The grid with `v` at `p`.
    pub open spec fn set(self, p: Point, v: T) -> Self {
        GridModel { width: self.width, height: self.height, cells: self.cells.update(self.idx(p), v) }
    }

    /// Each of `pts` addresses a cell.
    pub open spec fn all_ok(self, pts: Seq<Point>) -> bool {
        forall|i: int| 0 <= i < pts.len() ==> self.index_ok(#[trigger] pts[i])
    }

    /// Writes `v` at each point of `pts`, first to last.
    pub open spec fn paint(self, pts: Seq<Point>, v: T) -> Self
        decreases pts.len(),
    {
        if pts.len() == 0 {
            self
        } else {
            self.paint(pts.drop_last(), v).set(pts.last(), v)
        }
    }

    /// The same shape: width, height and number of cells.
    pub open spec fn same_shape<U>(self, other: GridModel<U>) -> bool {
        &&& self.width == other.width
        &&& self.height == other.height
        &&& self.cells.len() == other.cells.len()
    }
}

/// A point on the board of a well-formed grid addresses a cell.
pub proof fn lemma_in_bounds_index_ok<T>(g: GridModel<T>, p: Point)
    requires
        g.wf(),
        g.in_bounds(p),
    ensures
        g.index_ok(p),
        0 <= g.idx(p) < g.cells.len(),
{
    assert(p.y * g.width + p.x < g.width * g.height) by (nonlinear_arith)
        requires
            0 <= p.x < g.width,
            0 <= p.y < g.height,
    ;
    assert(0 <= p.y * g.width) by (nonlinear_arith)
        requires
            0 <= p.y,
            0 <= g.width,
    ;
}

/// Painting keeps the shape of the grid.
pub proof fn lemma_paint_shape<T>(g: GridModel<T>, pts: Seq<Point>, v: T)
    requires
        g.all_ok(pts),
    ensures
        g.paint(pts, v).same_shape(g),
    decreases pts.len(),
{
    if pts.len() > 0 {
        assert(g.all_ok(pts.drop_last()));
        lemma_paint_shape(g, pts.drop_last(), v);
    }
}

/// Reading index validity only depends on the shape.
pub proof fn lemma_same_shape_ok<T, U>(g: GridModel<T>, h: GridModel<U>, p: Point)
    requires
        g.same_shape(h),
    ensures
        g.index_ok(p) == h.index_ok(p),
        g.idx(p) == h.idx(p),
{
}

/// Rows of `w` cells each, flattened: the cell of row `y` and column `x` stands at `y * w + x`.
pub proof fn lemma_flatten_rect<T>(rs: Seq<Seq<T>>, w: int)
    requires
        w >= 0,
        forall|i: int| 0 <= i < rs.len() ==> #[trigger] rs[i].len() == w,
    ensures
        rs.flatten().len() == rs.len() * w,
        forall|y: int, x: int| 0 <= y < rs.len() && 0 <= x < w ==> rs.flatten()[y * w + x] == #[trigger] rs[y][x],
    decreases rs.len(),
{
    if rs.len() > 0 {
        let n = rs.len() as int;
        let pre = rs.drop_last();
        assert forall|i: int| 0 <= i < pre.len() implies #[trigger] pre[i].len() == w by {
            assert(pre[i] == rs[i]);
        }
        lemma_flatten_rect(pre, w);
        assert(pre.push(rs.last()) =~= rs);
        pre.lemma_flatten_push(rs.last());
        assert((n - 1) * w + w == n * w) by (nonlinear_arith);
        assert forall|y: int, x: int| 0 <= y < rs.len() && 0 <= x < w implies rs.flatten()[y * w + x] == #[trigger] rs[y][x] by {
            if y < n - 1 {
                assert(pre[y] == rs[y]);
                assert(y * w + x < (n - 1) * w) by (nonlinear_arith)
                    requires
                        0 <= y < n - 1,
                        0 <= x < w,
                ;
                assert(0 <= y * w) by (nonlinear_arith)
                    requires
                        0 <= y,
                        0 <= w,
                ;
            } else {
                assert(y * w == (n - 1) * w);
            }
        }
    }
}

/// A rectangular board of cells, stored row after row.
#[derive(Clone)]
pub struct Grid<T = Cell> {
    pub width: Coord,
    pub height: Coord,
    pub cells: Vec<T>,
}

impl<T> View for Grid<T> {
    type V = GridModel<T>;

    open spec fn view(&self) -> GridModel<T> {
        GridModel { width: self.width, height: self.height, cells: self.cells@ }
    }
}

impl<T> Grid<T> {
    /// Whether `point` is a square of the board.
    pub fn in_bounds(&self, point: Point) -> (r: bool)
        ensures
            r == self@.in_bounds(point),
    {
        point.x >= 0 && point.x < self.width as Coord && point.y >= 0 && point.y
            < self.height as Coord
    }

    /// The cell at `point`.
    pub fn get(&self, point: Point) -> (r: &T)
        requires
            self@.index_ok(point),
        ensures
            *r == self@.at(point),
    {
        assert(0 <= point.y * self.width) by (nonlinear_arith)
            requires
                0 <= point.y,
                0 <= self.width,
        ;
        let n = self.cells.len();
        let y = point.y as usize;
        let w = self.width as usize;
        assert(y as int == point.y && w as int == self.width);
        assert(y * w + point.x < n);
        let idx = y * w + (point.x as usize);
        &self.cells[idx]
    }

    /// The position of `point` in `cells`.
    pub fn index_of(&self, point: Point) -> (i: usize)
        requires
            self@.index_ok(point),
        ensures
            i == self@.idx(point),
            i < self.cells@.len(),
    {
        let n = self.cells.len();
        let y = point.y as usize;
        let w = self.width as usize;
        assert(y as int == point.y && w as int == self.width);
        assert(y * w + point.x < n);
        y * w + (point.x as usize)
    }

    /// Overwrites the cell at `point`.
    pub fn set(&mut self, point: Point, value: T)
        requires
            old(self)@.index_ok(point),
        ensures
            final(self)@ == old(self)@.set(point, value),
    {
        assert(0 <= point.y * self.width) by (nonlinear_arith)
            requires
                0 <= point.y,
                0 <= self.width,
        ;
        let n = self.cells.len();
        let y = point.y as usize;
        let w = self.width as usize;
        assert(y as int == point.y && w as int == self.width);
        assert(y * w + point.x < n);
        let idx = y * w + (point.x as usize);
        self.cells.set(idx, value);
    }
}

impl<T: Copy> Grid<T> {
    /// Writes `value` at each of `points[start..]`, first to last.
    pub fn paint(&mut self, points: &Vec<Point>, start: usize, value: T)
        requires
            start <= points@.len(),
            old(self)@.all_ok(points@.skip(start as int)),
        ensures
            final(self)@ == old(self)@.paint(points@.skip(start as int), value),
    {
        let ghost g0 = self@;
        let ghost pts = points@.skip(start as int);
        let mut i: usize = start;
        while i < points.len()
            invariant
                start <= i <= points@.len(),
                pts == points@.skip(start as int),
                g0.all_ok(pts),
                self@ == g0.paint(pts.take(i - start), value),
            decreases points@.len() - i,
        {
            proof {
                let k = i - start;
                assert(g0.all_ok(pts.take(k)));
                lemma_paint_shape(g0, pts.take(k), value);
                assert(pts.take(k + 1).drop_last() =~= pts.take(k));
                assert(pts[k] == points@[i as int]);
                lemma_same_shape_ok(self@, g0, pts[k]);
            }
            self.set(points[i], value);
            i += 1;
        }
        assert(pts.take(i - start) =~= pts);
    }
}

impl Grid<Cell> {
    /// A grid made of the given rows, the first row on top.
    pub fn new(rows: Vec<Vec<Cell>>) -> (g: Self)
        requires
            rows.len() > 0,
        ensures
            g.width == rows[0].len() as Coord,
            g.height == rows.len() as Coord,
            g.cells@ == rows@.map_values(|r: Vec<Cell>| r@).flatten(),
            (forall|i: int| 0 <= i < rows@.len() ==> #[trigger] rows@[i]@.len() == rows@[0]@.len())
                && rows@[0]@.len() <= i16::MAX && rows@.len() <= i16::MAX ==> {
                &&& g@.wf()
                &&& forall|p: Point| #[trigger] g@.in_bounds(p) ==> g@.at(p) == rows@[p.y as int]@[p.x as int]
            },
    {
        let width = rows[0].len() as Coord;
        let height = rows.len() as Coord;
        let ghost rs = rows@.map_values(|r: Vec<Cell>| r@);
        let mut cells: Vec<Cell> = Vec::new();
        let mut i: usize = 0;
        while i < rows.len()
            invariant
                0 <= i <= rows@.len(),
                rs == rows@.map_values(|r: Vec<Cell>| r@),
                cells@ == rs.take(i as int).flatten(),
            decreases rows@.len() - i,
        {
            let row = &rows[i];
            let mut j: usize = 0;
            while j < row.len()
                invariant
                    0 <= i < rows@.len(),
                    row == rows@[i as int],
                    0 <= j <= row@.len(),
                    cells@ == rs.take(i as int).flatten() + row@.take(j as int),
                decreases row@.len() - j,
            {
                cells.push(row[j]);
                j += 1;
                assert(cells@ =~= rs.take(i as int).flatten() + row@.take(j as int));
            }
            proof {
                assert(rs.take(i + 1) =~= rs.take(i as int).push(row@));
                rs.take(i as int).lemma_flatten_push(row@);
                assert(row@.take(j as int) =~= row@);
            }
            i += 1;
        }
        assert(rs.take(i as int) =~= rs);
        let g = Grid { width, height, cells };
        proof {
            let w = rows@[0]@.len() as int;
            if (forall|i: int| 0 <= i < rows@.len() ==> #[trigger] rows@[i]@.len() == w) && w <= i16::MAX
                && rows@.len() <= i16::MAX {
                assert forall|i: int| 0 <= i < rs.len() implies #[trigger] rs[i].len() == w by {
                    assert(rows@[i]@.len() == w);
                }
                lemma_flatten_rect(rs, w);
                let n = rows@.len() as int;
                assert(g.width as int == w && g.height as int == n);
                assert(w * n == n * w) by (nonlinear_arith);
                assert(g@.wf());
                assert forall|p: Point| #[trigger] g@.in_bounds(p) implies g@.at(p) == rows@[p.y as int]@[p.x as int] by {
                    assert(rs[p.y as int] == rows@[p.y as int]@);
                }
            }
        }
        g
    }

    /// Puts food at `point` when it lies on the board.
    pub fn place_food(&mut self, point: Point)
        requires
            old(self)@.in_bounds(point) ==> old(self)@.index_ok(point),
        ensures
            final(self)@ == (if old(self)@.in_bounds(point) {
                old(self)@.set(point, Cell::Food)
            } else {
                old(self)@
            }),
    {
        if self.in_bounds(point) {
            self.set(point, Cell::Food);
        }
    }

    /// Marks the head of `snake`.
    pub fn place_head(&mut self, snake: &Snake)
        requires
            snake.body@.len() > 0,
            old(self)@.index_ok(snake.body@[0]),
        ensures
            final(self)@ == old(self)@.set(snake.body@[0], Cell::Snake(head_mark(snake.id))),
    {
        self.set(snake.head(), Cell::Snake(snake.id << 1 | 1));
    }

    /// Marks the whole of `snake`: its head, then the rest of its body.
    pub fn place_snake(&mut self, snake: &Snake)
        requires
            snake@.placeable(old(self)@),
        ensures
            final(self)@ == old(self)@.place_snake(snake@),
    {
        self.place_head(snake);
        proof {
            lemma_same_shape_ok(self@, old(self)@, snake.body@[0]);
            assert forall|i: int| 0 <= i < snake.body@.skip(1).len() implies self@.index_ok(
                #[trigger] snake.body@.skip(1)[i],
            ) by {
                lemma_same_shape_ok(self@, old(self)@, snake.body@[i + 1]);
            }
        }
        self.paint(&snake.body, 1, Cell::Snake(snake.id << 1));
    }

    /// Empties every square of `snake`.
    pub fn clear_snake(&mut self, snake: &Snake)
        requires
            old(self)@.all_ok(snake.body@),
        ensures
            final(self)@ == old(self)@.paint(snake.body@, Cell::Empty),
    {
        assert(snake.body@.skip(0) =~= snake.body@);
        self.paint(&snake.body, 0, Cell::Empty);
        assert(snake.body@.skip(0) =~= snake.body@);
    }

    /// A grid of the same size whose cells are `f` of the cells of this one.
    pub fn map<F, T: Clone>(&self, f: F) -> (g: Grid<T>) where F: Fn(&Cell) -> T
        requires
            forall|i: int| 0 <= i < self.cells@.len() ==> call_requires(f, (&self.cells@[i],)),
        ensures
            g.width == self.width,
            g.height == self.height,
            g.cells@.len() == self.cells@.len(),
            forall|i: int|
                0 <= i < self.cells@.len() ==> call_ensures(f, (&self.cells@[i],), #[trigger] g.cells@[i]),
    {
        let mut cells: Vec<T> = Vec::new();
        let mut i: usize = 0;
        while i < self.cells.len()
            invariant
                0 <= i <= self.cells@.len(),
                cells@.len() == i,
                forall|k: int| 0 <= k < self.cells@.len() ==> call_requires(f, (&self.cells@[k],)),
                forall|k: int| 0 <= k < i ==> call_ensures(f, (&self.cells@[k],), #[trigger] cells@[k]),
            decreases self.cells@.len() - i,
        {
            let c = f(&self.cells[i]);
            cells.push(c);
            i += 1;
        }
        Grid { width: self.width, height: self.height, cells }
    }
}

impl GridModel<Cell> {
    /// The grid with `s` marked: its head, then the rest of its body.
    pub open spec fn place_snake(self, s: SnakeModel) -> Self {
        self.set(s.body[0], Cell::Snake(head_mark(s.id))).paint(s.body.skip(1), Cell::Snake(body_mark(s.id)))
    }
}

// ------------------------------------------------------------------ snakes

/// What a snake is: its squares from head to tail, its number and its side.
#[verifier::ext_equal]
pub struct SnakeModel {
    pub body: Seq<Point>,
    pub id: Coord,
    pub mine: bool,
}

impl SnakeModel {
    /// The first square of the snake.
    pub open spec fn head(self) -> Point {
        self.body[0]
    }

    /// The snake has a head and all its squares address cells of `g`.
    pub open spec fn placeable(self, g: GridModel<Cell>) -> bool {
        self.body.len() > 0 && g.all_ok(self.body)
    }

    /// The snake after moving its head one step in `d`, keeping its tail when it grows.
    pub open spec fn moved(self, d: Direction, grow: bool) -> SnakeModel {
        let longer = self.body.insert(0, step(self.head(), d));
        SnakeModel {
            body: if grow { longer } else { longer.drop_last() },
            id: self.id,
            mine: self.mine,
        }
    }

    /// The snake one row lower.
    pub open spec fn fallen(self) -> SnakeModel {
        SnakeModel {
            body: self.body.map_values(|p: Point| Point { x: p.x, y: (p.y + 1) as i16 }),
            id: self.id,
            mine: self.mine,
        }
    }

    /// Every square of the snake can go one row lower within `Coord`.
    pub open spec fn can_fall(self) -> bool {
        forall|i: int| 0 <= i < self.body.len() ==> #[trigger] self.body[i].y < i16::MAX
    }

    /// The snake without its head.
    pub open spec fn headless(self) -> SnakeModel {
        SnakeModel { body: self.body.remove(0), id: self.id, mine: self.mine }
    }
}

/// Whether some square of `body`, from index `k` on, is supported on `g`; `None` when a square
/// read before the first supported one has nothing below it on the board.
pub open spec fn any_point_supported(g: GridModel<Cell>, body: Seq<Point>, id: Coord, k: int) -> Option<bool>
    decreases body.len() - k,
{
    if k < 0 || k >= body.len() {
        Some(false)
    } else if !point_read_ok(g, body[k]) {
        None
    } else if point_supported(g, body[k], id) {
        Some(true)
    } else {
        any_point_supported(g, body, id, k + 1)
    }
}

#[derive(Clone, Debug)]
pub struct Snake {
    pub body: Vec<Point>,
    pub id: Coord,
    pub mine: bool,
}

impl View for Snake {
    type V = SnakeModel;

    open spec fn view(&self) -> SnakeModel {
        SnakeModel { body: self.body@, id: self.id, mine: self.mine }
    }
}

impl Snake {
    /// A copy of the snake.
    pub fn duplicate(&self) -> (r: Snake)
        ensures
            r@ == self@,
    {
        let body = self.body.clone();
        assert(body@ =~= self.body@);
        Snake { body, id: self.id, mine: self.mine }
    }

    /// The first square of the snake.
    pub fn head(&self) -> (p: Point)
        requires
            self.body@.len() > 0,
        ensures
            p == self.body@[0],
    {
        self.body[0]
    }

    /// The last square of the snake.
    pub fn tail(&self) -> (p: Point)
        requires
            self.body@.len() > 0,
        ensures
            p == self.body@.last(),
    {
        self.body[self.body.len() - 1]
    }

    /// Moves the head one step in `dir`; the tail follows unless the snake grows.
    pub fn move_to(&mut self, dir: &Direction, grow: bool)
        requires
            old(self).body@.len() > 0,
            step_ok(old(self).body@[0], *dir),
        ensures
            final(self)@ == old(self)@.moved(*dir, grow),
            final(self).body@[0] == step(old(self).body@[0], *dir),
            final(self).body@.len() == old(self).body@.len() + if grow { 1int } else { 0int },
            final(self).id == old(self).id,
            final(self).mine == old(self).mine,
    {
        let new_head = self.head() + *dir;
        self.body.insert(0, new_head);
        if !grow {
            self.body.pop();
        }
        assert(self@ =~= old(self)@.moved(*dir, grow));
    }

    /// Moves every square one row down.
    pub fn fall(&mut self)
        requires
            old(self)@.can_fall(),
        ensures
            final(self)@ == old(self)@.fallen(),
    {
        let ghost b0 = self.body@;
        let mut i: usize = 0;
        while i < self.body.len()
            invariant
                0 <= i <= b0.len(),
                self.body@.len() == b0.len(),
                self.id == old(self).id,
                self.mine == old(self).mine,
                b0 == old(self).body@,
                old(self)@.can_fall(),
                forall|k: int| 0 <= k < i ==> #[trigger] self.body@[k] == (Point { x: b0[k].x, y: (b0[k].y + 1) as i16 }),
                forall|k: int| i <= k < b0.len() ==> #[trigger] self.body@[k] == b0[k],
            decreases b0.len() - i,
        {
            let p = self.body[i];
            assert(old(self)@.body[i as int].y < i16::MAX);
            self.body.set(i, Point { x: p.x, y: p.y + 1 });
            i += 1;
        }
        assert(self@ =~= old(self)@.fallen());
    }

    /// Drops the first square of the snake.
    pub fn lose_head(&mut self)
        requires
            old(self).body@.len() > 0,
        ensures
            final(self)@ == old(self)@.headless(),
    {
        self.body.remove(0);
    }

    /// The number of squares of the snake.
    pub fn len(&self) -> (n: usize)
        ensures
            n == self.body@.len(),
    {
        self.body.len()
    }

    /// Some square of the snake rests on something other than itself.
    pub fn supported(&self, grid: &Grid) -> (r: bool)
        requires
            any_point_supported(grid@, self.body@, self.id, 0) is Some,
        ensures
            r == any_point_supported(grid@, self.body@, self.id, 0)->0,
    {
        let mut i: usize = 0;
        while i < self.body.len()
            invariant
                0 <= i <= self.body@.len(),
                any_point_supported(grid@, self.body@, self.id, 0) is Some,
                any_point_supported(grid@, self.body@, self.id, i as int) == any_point_supported(
                    grid@,
                    self.body@,
                    self.id,
                    0,
                ),
            decreases self.body@.len() - i,
        {
            proof {
                assert(self.body@[i as int] == self.body@[i as int]);
                assert(any_point_supported(grid@, self.body@, self.id, i as int) is Some);
            }
            if self.body[i].supported(grid, self) {
                return true;
            }
            i += 1;
        }
        false
    }
}

// ------------------------------------------------------------------ game state

/// What a game is: the board, the snakes in play and the food that was laid out.
#[verifier::ext_equal]
pub struct GameModel {
    pub grid: GridModel<Cell>,
    pub snakes: Seq<SnakeModel>,
    pub food: Seq<Point>,
}

/// The grid with the snakes `snakes[0..n]` marked, in order.
pub open spec fn place_snakes(g: GridModel<Cell>, snakes: Seq<SnakeModel>) -> GridModel<Cell>
    decreases snakes.len(),
{
    if snakes.len() == 0 {
        g
    } else {
        place_snakes(g, snakes.drop_last()).place_snake(snakes.last())
    }
}

/// The grid with food put on each of `food` that lies on the board, in order.
pub open spec fn place_foods(g: GridModel<Cell>, food: Seq<Point>) -> GridModel<Cell>
    decreases food.len(),
{
    if food.len() == 0 {
        g
    } else {
        let h = place_foods(g, food.drop_last());
        if h.in_bounds(food.last()) {
            h.set(food.last(), Cell::Food)
        } else {
            h
        }
    }
}

/// Putting food down keeps the shape of the grid, and every food point on the board then holds
/// food.
pub proof fn lemma_place_foods(g: GridModel<Cell>, food: Seq<Point>)
    requires
        forall|i: int| 0 <= i < food.len() ==> g.in_bounds(#[trigger] food[i]) ==> g.index_ok(food[i]),
    ensures
        place_foods(g, food).same_shape(g),
        forall|i: int| 0 <= i < food.len() && g.in_bounds(#[trigger] food[i]) ==> place_foods(g, food).at(food[i]) == Cell::Food,
    decreases food.len(),
{
    if food.len() > 0 {
        let pre = food.drop_last();
        assert forall|i: int| 0 <= i < pre.len() && g.in_bounds(#[trigger] pre[i]) implies g.index_ok(pre[i]) by {
            assert(pre[i] == food[i]);
        }
        lemma_place_foods(g, pre);
        let h = place_foods(g, pre);
        let p = food.last();
        assert forall|i: int| 0 <= i < food.len() && g.in_bounds(#[trigger] food[i]) implies place_foods(g, food).at(food[i]) == Cell::Food by {
            lemma_same_shape_ok(h, g, food[i]);
            lemma_same_shape_ok(h, g, p);
            assert(0 <= food[i].y * g.width) by (nonlinear_arith)
                requires
                    0 <= food[i].y,
                    0 <= g.width,
            ;
            assert(0 <= p.y * g.width || !h.in_bounds(p)) by (nonlinear_arith)
                requires
                    h.in_bounds(p) ==> 0 <= p.y,
                    0 <= g.width,
            ;
            if i < food.len() - 1 {
                assert(pre[i] == food[i]);
            }
        }
    }
}

/// Every snake can be marked on `g` and every food point on the board addresses a cell.
pub open spec fn setup_ok(g: GridModel<Cell>, snakes: Seq<SnakeModel>, food: Seq<Point>) -> bool {
    &&& forall|i: int| 0 <= i < snakes.len() ==> (#[trigger] snakes[i]).placeable(g)
    &&& forall|i: int| 0 <= i < food.len() ==> g.in_bounds(#[trigger] food[i]) ==> g.index_ok(food[i])
}

/// Marking a snake keeps the shape of the grid.
pub proof fn lemma_place_snake_shape(g: GridModel<Cell>, s: SnakeModel)
    requires
        s.placeable(g),
    ensures
        g.place_snake(s).same_shape(g),
{
    let h = g.set(s.body[0], Cell::Snake(head_mark(s.id)));
    assert forall|i: int| 0 <= i < s.body.skip(1).len() implies h.index_ok(#[trigger] s.body.skip(1)[i]) by {
        assert(g.index_ok(s.body[i + 1]));
    }
    lemma_paint_shape(h, s.body.skip(1), Cell::Snake(body_mark(s.id)));
}

/// Marking snakes keeps the shape of the grid.
pub proof fn lemma_place_snakes_shape(g: GridModel<Cell>, snakes: Seq<SnakeModel>)
    requires
        forall|i: int| 0 <= i < snakes.len() ==> (#[trigger] snakes[i]).placeable(g),
    ensures
        place_snakes(g, snakes).same_shape(g),
    decreases snakes.len(),
{
    if snakes.len() > 0 {
        let pre = snakes.drop_last();
        assert forall|i: int| 0 <= i < pre.len() implies (#[trigger] pre[i]).placeable(g) by {
            assert(pre[i] == snakes[i]);
        }
        lemma_place_snakes_shape(g, pre);
        let h = place_snakes(g, pre);
        let s = snakes.last();
        assert(snakes[snakes.len() - 1].placeable(g));
        assert forall|i: int| 0 <= i < s.body.len() implies h.index_ok(#[trigger] s.body[i]) by {
            lemma_same_shape_ok(h, g, s.body[i]);
        }
        lemma_place_snake_shape(h, s);
    }
}

#[derive(Clone)]
pub struct GameState {
    pub grid: Grid,
    pub snakes: Vec<Snake>,
    pub food: Vec<Point>,
}

impl View for GameState {
    type V = GameModel;

    open spec fn view(&self) -> GameModel {
        GameModel { grid: self.grid@, snakes: self.snakes@.map_values(|s: Snake| s@), food: self.food@ }
    }
}

impl GameState {
    /// A copy of the game.
    pub fn duplicate(&self) -> (r: GameState)
        ensures
            r@ == self@,
    {
        let cells = self.grid.cells.clone();
        assert(cells@ =~= self.grid.cells@);
        let food = self.food.clone();
        assert(food@ =~= self.food@);
        let mut snakes: Vec<Snake> = Vec::new();
        let mut i: usize = 0;
        while i < self.snakes.len()
            invariant
                0 <= i <= self.snakes@.len(),
                snakes@.len() == i,
                forall|k: int| 0 <= k < i ==> #[trigger] snakes@[k]@ == self.snakes@[k]@,
            decreases self.snakes@.len() - i,
        {
            snakes.push(self.snakes[i].duplicate());
            i += 1;
        }
        let r = GameState { grid: Grid { width: self.grid.width, height: self.grid.height, cells }, snakes, food };
        assert(r@.snakes =~= self@.snakes);
        r
    }

    /// A game on `grid` with the snakes marked, then the food put down.
    pub fn new(grid: Grid, snakes: Vec<Snake>, food: Vec<Point>) -> (r: Self)
        requires
            setup_ok(grid@, snakes@.map_values(|s: Snake| s@), food@),
        ensures
            r.grid@ == place_foods(place_snakes(grid@, snakes@.map_values(|s: Snake| s@)), food@),
            r.snakes@ == snakes@,
            r.food@ == food@,
            forall|i: int| 0 <= i < food@.len() && grid@.in_bounds(#[trigger] food@[i]) ==> r.grid@.at(food@[i]) == Cell::Food,
    {
        let ghost ss = snakes@.map_values(|s: Snake| s@);
        let ghost g0 = grid@;
        let mut grid = grid;
        let mut i: usize = 0;
        while i < snakes.len()
            invariant
                0 <= i <= snakes@.len(),
                ss == snakes@.map_values(|s: Snake| s@),
                setup_ok(g0, ss, food@),
                grid@ == place_snakes(g0, ss.take(i as int)),
            decreases snakes@.len() - i,
        {
            proof {
                let pre = ss.take(i as int);
                assert forall|k: int| 0 <= k < pre.len() implies (#[trigger] pre[k]).placeable(g0) by {
                    assert(pre[k] == ss[k]);
                }
                lemma_place_snakes_shape(g0, pre);
                assert(ss[i as int].placeable(g0));
                assert forall|k: int| 0 <= k < ss[i as int].body.len() implies grid@.index_ok(
                    #[trigger] ss[i as int].body[k],
                ) by {
                    lemma_same_shape_ok(grid@, g0, ss[i as int].body[k]);
                }
                assert(ss.take(i + 1).drop_last() =~= pre);
            }
            grid.place_snake(&snakes[i]);
            i += 1;
        }
        assert(ss.take(i as int) =~= ss);
        let ghost g1 = grid@;
        proof {
            assert forall|k: int| 0 <= k < ss.len() implies (#[trigger] ss[k]).placeable(g0) by {}
            lemma_place_snakes_shape(g0, ss);
        }
        let mut j: usize = 0;
        while j < food.len()
            invariant
                0 <= j <= food@.len(),
                setup_ok(g0, ss, food@),
                g1.same_shape(g0),
                grid@ == place_foods(g1, food@.take(j as int)),
                grid@.same_shape(g0),
            decreases food@.len() - j,
        {
            proof {
                assert(food@.take(j + 1).drop_last() =~= food@.take(j as int));
                lemma_same_shape_ok(grid@, g0, food@[j as int]);
            }
            grid.place_food(food[j]);

            j += 1;
        }
        assert(food@.take(j as int) =~= food@);
        proof {
            assert forall|i: int| 0 <= i < food@.len() && g1.in_bounds(#[trigger] food@[i]) implies g1.index_ok(food@[i]) by {
                lemma_same_shape_ok(g1, g0, food@[i]);
            }
            lemma_place_foods(g1, food@);
        }
        Self { grid, snakes, food }
    }
}

// ------------------------------------------------------------------ text

/// The digit `n` (below ten) as a character.
pub open spec fn digit_char(n: u32) -> char {
    ((48 + n) as u32) as char
}

/// How a cell is printed: its symbol and a space.
pub open spec fn cell_text(c: Cell) -> Seq<char> {
    match c {
        Cell::Empty => seq!['.', ' '],
        Cell::Wall => seq!['#', ' '],
        Cell::Food => seq!['F', ' '],
        Cell::Snake(id) => seq![digit_char((id as u32) >> 1u32), ' '],
    }
}

/// Every snake cell of the board prints as a single digit.
pub open spec fn printable(g: GridModel<Cell>) -> bool {
    forall|p: Point| #[trigger] g.in_bounds(p) ==> match g.at(p) {
        Cell::Snake(id) => (id as u32) >> 1u32 < 10,
        _ => true,
    }
}

/// The first `x` squares of row `y`, printed with `f`.
pub open spec fn row_text<T>(g: GridModel<T>, y: int, x: int, f: spec_fn(T) -> Seq<char>) -> Seq<char>
    decreases x,
{
    if x <= 0 {
        Seq::empty()
    } else {
        row_text(g, y, x - 1, f) + f(g.at(Point { x: (x - 1) as i16, y: y as i16 }))
    }
}

/// The first `y` rows, each printed then ended by a newline.
pub open spec fn grid_text<T>(g: GridModel<T>, y: int, f: spec_fn(T) -> Seq<char>) -> Seq<char>
    decreases y,
{
    if y <= 0 {
        Seq::empty()
    } else {
        grid_text(g, y - 1, f) + row_text(g, y - 1, g.width as int, f) + seq!['\n']
    }
}

/// How a square of a grid of flags is printed.
pub open spec fn flag_text(b: bool) -> Seq<char> {
    if b {
        seq!['#', ' ']
    } else {
        seq!['.', ' ']
    }
}

/// The printed form of a cell.
fn cell_symbol(c: Cell) -> (s: &'static str)
    requires
        match c {
            Cell::Snake(id) => (id as u32) >> 1u32 < 10,
            _ => true,
        },
    ensures
        s@ == cell_text(c),
{
    match c {
        Cell::Empty => {
            proof {
                reveal_strlit(". ");
            }
            ". "
        },
        Cell::Wall => {
            proof {
                reveal_strlit("# ");
            }
            "# "
        },
        Cell::Food => {
            proof {
                reveal_strlit("F ");
            }
            "F "
        },
        Cell::Snake(id) => {
            let n = (id as u32) >> 1;
            if n == 0 {
                proof { reveal_strlit("0 "); }
                "0 "
            } else if n == 1 {
                proof { reveal_strlit("1 "); }
                "1 "
            } else if n == 2 {
                proof { reveal_strlit("2 "); }
                "2 "
            } else if n == 3 {
                proof { reveal_strlit("3 "); }
                "3 "
            } else if n == 4 {
                proof { reveal_strlit("4 "); }
                "4 "
            } else if n == 5 {
                proof { reveal_strlit("5 "); }
                "5 "
            } else if n == 6 {
                proof { reveal_strlit("6 "); }
                "6 "
            } else if n == 7 {
                proof { reveal_strlit("7 "); }
                "7 "
            } else if n == 8 {
                proof { reveal_strlit("8 "); }
                "8 "
            } else {
                proof { reveal_strlit("9 "); }
                "9 "
            }
        },
    }
}

impl Grid<Cell> {
    /// Whether every snake cell of the board prints as a single digit, as `to_text` needs.
    pub fn is_printable(&self) -> (r: bool)
        requires
            self@.wf(),
        ensures
            r == printable(self@),
    {
        let mut y: Coord = 0;
        while y < self.height
            invariant
                0 <= y <= self.height,
                self@.wf(),
                forall|p: Point| #[trigger] self@.in_bounds(p) && p.y < y ==> match self@.at(p) {
                    Cell::Snake(id) => (id as u32) >> 1u32 < 10,
                    _ => true,
                },
            decreases self.height - y,
        {
            let mut x: Coord = 0;
            while x < self.width
                invariant
                    0 <= y < self.height,
                    0 <= x <= self.width,
                    self@.wf(),
                    forall|p: Point| #[trigger] self@.in_bounds(p) && (p.y < y || (p.y == y && p.x < x)) ==> match self@.at(p) {
                        Cell::Snake(id) => (id as u32) >> 1u32 < 10,
                        _ => true,
                    },
                decreases self.width - x,
            {
                let p = Point::new(x, y);
                proof {
                    lemma_in_bounds_index_ok(self@, p);
                }
                match *self.get(p) {
                    Cell::Snake(id) => {
                        if (id as u32) >> 1 >= 10 {
                            assert(self@.in_bounds(p));
                            return false;
                        }
                    },
                    _ => {},
                }
                x += 1;
            }
            y += 1;
        }
        true
    }

    /// The board as text: a row per line, each square printed as its symbol (`.` empty, `#`
    /// wall, `F` food, the snake's number for a snake) and a space.
    pub fn to_text(&self) -> (t: String)
        requires
            self@.wf(),
            printable(self@),
        ensures
            t@ == grid_text(self@, self.height as int, |c: Cell| cell_text(c)),
    {
        let mut t = String::new();
        let mut y: Coord = 0;
        while y < self.height
            invariant
                0 <= y <= self.height,
                self@.wf(),
                printable(self@),
                t@ == grid_text(self@, y as int, |c: Cell| cell_text(c)),
            decreases self.height - y,
        {
            let ghost t0 = t@;
            let mut x: Coord = 0;
            while x < self.width
                invariant
                    0 <= y < self.height,
                    0 <= x <= self.width,
                    self@.wf(),
                    printable(self@),
                    t@ == t0 + row_text(self@, y as int, x as int, |c: Cell| cell_text(c)),
                decreases self.width - x,
            {
                let p = Point::new(x, y);
                proof {
                    lemma_in_bounds_index_ok(self@, p);
                    assert(self@.in_bounds(p));
                }
                let c = *self.get(p);
                t.append(cell_symbol(c));
                assert(Point { x: (x + 1 - 1) as i16, y: y as int as i16 } == p);
                x += 1;
            }
            proof {
                reveal_strlit("\n");
            }
            t.append("\n");
            y += 1;
        }
        t
    }
}

impl Grid<bool> {
    /// The grid as text: a row per line, `#` for a set square and `.` otherwise, each followed by
    /// a space.
    pub fn to_text(&self) -> (t: String)
        requires
            self@.wf(),
        ensures
            t@ == grid_text(self@, self.height as int, |b: bool| flag_text(b)),
    {
        let mut t = String::new();
        let mut y: Coord = 0;
        while y < self.height
            invariant
                0 <= y <= self.height,
                self@.wf(),
                t@ == grid_text(self@, y as int, |b: bool| flag_text(b)),
            decreases self.height - y,
        {
            let ghost t0 = t@;
            let mut x: Coord = 0;
            while x < self.width
                invariant
                    0 <= y < self.height,
                    0 <= x <= self.width,
                    self@.wf(),
                    t@ == t0 + row_text(self@, y as int, x as int, |b: bool| flag_text(b)),
                decreases self.width - x,
            {
                let p = Point::new(x, y);
                proof {
                    lemma_in_bounds_index_ok(self@, p);
                }
                let set = *self.get(p);
                if set {
                    proof {
                        reveal_strlit("# ");
                    }
                    t.append("# ");
                } else {
                    proof {
                        reveal_strlit(". ");
                    }
                    t.append(". ");
                }
                assert(Point { x: (x + 1 - 1) as i16, y: y as int as i16 } == p);
                x += 1;
            }
            proof {
                reveal_strlit("\n");
            }
            t.append("\n");
            y += 1;
        }
        t
    }
}

} // verus!
