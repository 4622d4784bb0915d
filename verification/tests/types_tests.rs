use exotech::types::{all_directions, Cell, Direction, GameState, Grid, Point, Snake};

fn rows(text: &[&str]) -> Vec<Vec<Cell>> {
    text.iter()
        .map(|line| {
            line.chars()
                .map(|c| match c {
                    '#' => Cell::Wall,
                    'F' => Cell::Food,
                    _ => Cell::Empty,
                })
                .collect()
        })
        .collect()
}

fn snake(body: &[(i16, i16)], id: i16, mine: bool) -> Snake {
    Snake { body: body.iter().map(|&(x, y)| Point::new(x, y)).collect(), id, mine }
}

#[test]
fn point_new_keeps_coordinates() {
    let p = Point::new(3, -4);
    assert_eq!(p.x, 3);
    assert_eq!(p.y, -4);
}

#[test]
fn point_plus_point_adds_coordinates() {
    assert_eq!(Point::new(1, 2) + Point::new(10, -5), Point::new(11, -3));
}

#[test]
fn point_plus_direction_steps_once() {
    let p = Point::new(3, 4);
    assert_eq!(p + Direction::Up, Point::new(3, 3));
    assert_eq!(p + Direction::Down, Point::new(3, 5));
    assert_eq!(p + Direction::Left, Point::new(2, 4));
    assert_eq!(p + Direction::Right, Point::new(4, 4));
}

#[test]
fn point_from_direction_is_unit_offset() {
    assert_eq!(Point::from(Direction::Up), Point::new(0, -1));
    assert_eq!(Point::from(Direction::Down), Point::new(0, 1));
    assert_eq!(Point::from(Direction::Left), Point::new(-1, 0));
    assert_eq!(Point::from(Direction::Right), Point::new(1, 0));
}

#[test]
fn direction_names_are_capitals() {
    assert_eq!(Direction::Up.to_string(), "UP");
    assert_eq!(Direction::Down.to_string(), "DOWN");
    assert_eq!(Direction::Left.to_string(), "LEFT");
    assert_eq!(Direction::Right.to_string(), "RIGHT");
}

#[test]
fn directions_come_right_left_up_down() {
    assert_eq!(all_directions(), vec![Direction::Right, Direction::Left, Direction::Up, Direction::Down]);
}

#[test]
fn grid_new_flattens_rows() {
    let g = Grid::new(rows(&["..#", "F.."]));
    assert_eq!(g.width, 3);
    assert_eq!(g.height, 2);
    assert_eq!(g.cells, vec![Cell::Empty, Cell::Empty, Cell::Wall, Cell::Food, Cell::Empty, Cell::Empty]);
    assert_eq!(*g.get(Point::new(2, 0)), Cell::Wall);
    assert_eq!(*g.get(Point::new(0, 1)), Cell::Food);
}

#[test]
fn grid_in_bounds_edges() {
    let g = Grid::new(rows(&["...", "..."]));
    assert!(g.in_bounds(Point::new(0, 0)));
    assert!(g.in_bounds(Point::new(2, 1)));
    assert!(!g.in_bounds(Point::new(3, 0)));
    assert!(!g.in_bounds(Point::new(0, 2)));
    assert!(!g.in_bounds(Point::new(-1, 0)));
    assert!(!g.in_bounds(Point::new(0, -1)));
}

#[test]
fn grid_set_then_get_reads_back() {
    let mut g = Grid::new(rows(&["...", "..."]));
    g.set(Point::new(1, 1), Cell::Wall);
    assert_eq!(*g.get(Point::new(1, 1)), Cell::Wall);
    assert_eq!(*g.get(Point::new(1, 0)), Cell::Empty);
    assert_eq!(g.index_of(Point::new(1, 1)), 4);
}

#[test]
fn place_food_on_and_off_the_board() {
    let mut g = Grid::new(rows(&["...", "..."]));
    g.place_food(Point::new(2, 0));
    assert_eq!(*g.get(Point::new(2, 0)), Cell::Food);
    let before = g.cells.clone();
    g.place_food(Point::new(5, 5));
    g.place_food(Point::new(-1, 0));
    assert_eq!(g.cells, before);
}

#[test]
fn place_snake_marks_head_and_body() {
    let mut g = Grid::new(rows(&["....", "....", "...."]));
    let s = snake(&[(1, 0), (1, 1), (2, 1)], 2, true);
    g.place_snake(&s);
    assert_eq!(*g.get(Point::new(1, 0)), Cell::Snake(5));
    assert_eq!(*g.get(Point::new(1, 1)), Cell::Snake(4));
    assert_eq!(*g.get(Point::new(2, 1)), Cell::Snake(4));
    assert_eq!(*g.get(Point::new(0, 0)), Cell::Empty);
}

#[test]
fn place_head_marks_only_the_head() {
    let mut g = Grid::new(rows(&["...", "..."]));
    let s = snake(&[(0, 1), (1, 1), (2, 1)], 3, false);
    g.place_head(&s);
    assert_eq!(*g.get(Point::new(0, 1)), Cell::Snake(7));
    assert_eq!(*g.get(Point::new(1, 1)), Cell::Empty);
}

#[test]
fn clear_snake_empties_its_squares() {
    let mut g = Grid::new(rows(&["...", "..#"]));
    let s = snake(&[(0, 0), (1, 0), (2, 0)], 1, true);
    g.place_snake(&s);
    g.clear_snake(&s);
    assert_eq!(g.cells, vec![Cell::Empty, Cell::Empty, Cell::Empty, Cell::Empty, Cell::Empty, Cell::Wall]);
}

#[test]
fn map_gives_a_grid_of_the_same_size() {
    let g = Grid::new(rows(&["#.", ".#"]));
    let walls = g.map(|c: &Cell| *c == Cell::Wall);
    assert_eq!(walls.width, 2);
    assert_eq!(walls.height, 2);
    assert_eq!(walls.cells, vec![true, false, false, true]);
    assert_eq!(walls.to_text(), "# . \n. # \n");
}

#[test]
fn grid_text_prints_each_square() {
    let mut g = Grid::new(rows(&[".#", "F."]));
    g.set(Point::new(1, 1), Cell::Snake(3));
    assert_eq!(g.to_text(), ". # \nF 1 \n");
}

#[test]
fn snake_head_tail_len() {
    let s = snake(&[(4, 1), (4, 2), (5, 2)], 0, true);
    assert_eq!(s.head(), Point::new(4, 1));
    assert_eq!(s.tail(), Point::new(5, 2));
    assert_eq!(s.len(), 3);
}

#[test]
fn move_without_growing_keeps_length() {
    let mut s = snake(&[(1, 1), (1, 2), (1, 3)], 0, true);
    s.move_to(&Direction::Up, false);
    assert_eq!(s.body, vec![Point::new(1, 0), Point::new(1, 1), Point::new(1, 2)]);
}

#[test]
fn move_while_growing_keeps_the_tail() {
    let mut s = snake(&[(1, 1), (1, 2), (1, 3)], 0, true);
    s.move_to(&Direction::Right, true);
    assert_eq!(s.body, vec![Point::new(2, 1), Point::new(1, 1), Point::new(1, 2), Point::new(1, 3)]);
}

#[test]
fn fall_lowers_every_square() {
    let mut s = snake(&[(1, 1), (2, 1), (2, 0)], 0, true);
    s.fall();
    assert_eq!(s.body, vec![Point::new(1, 2), Point::new(2, 2), Point::new(2, 1)]);
}

#[test]
fn lose_head_drops_the_first_square() {
    let mut s = snake(&[(1, 1), (2, 1), (3, 1)], 0, true);
    s.lose_head();
    assert_eq!(s.body, vec![Point::new(2, 1), Point::new(3, 1)]);
}

#[test]
fn point_supported_by_wall_or_other_snake_only() {
    let mut g = Grid::new(rows(&["....", "....", "#..."]));
    let me = snake(&[(1, 0), (2, 0), (3, 0)], 1, true);
    let other = snake(&[(1, 1)], 4, false);
    g.place_snake(&me);
    g.set(Point::new(1, 1), Cell::Snake(9));
    assert!(Point::new(0, 1).supported(&g, &me));
    assert!(Point::new(1, 0).supported(&g, &me));
    assert!(!Point::new(2, 1).supported(&g, &me));
    g.set(Point::new(2, 1), Cell::Snake(3));
    assert!(!Point::new(2, 0).supported(&g, &me));
    assert!(Point::new(2, 0).supported(&g, &other));
}

#[test]
fn snake_supported_when_one_square_rests() {
    let mut g = Grid::new(rows(&["....", "....", "..##"]));
    let floating = snake(&[(0, 0), (1, 0), (2, 0)], 0, true);
    g.place_snake(&floating);
    assert!(!floating.supported(&g));
    let resting = snake(&[(1, 1), (2, 1), (3, 1)], 1, true);
    assert!(resting.supported(&g));
}

#[test]
fn game_new_marks_snakes_then_food() {
    let g = Grid::new(rows(&["....", "....", "####"]));
    let snakes = vec![snake(&[(0, 1), (1, 1), (2, 1)], 1, true)];
    let food = vec![Point::new(3, 0), Point::new(2, 1), Point::new(7, 7)];
    let game = GameState::new(g, snakes, food);
    assert_eq!(*game.grid.get(Point::new(0, 1)), Cell::Snake(3));
    assert_eq!(*game.grid.get(Point::new(1, 1)), Cell::Snake(2));
    assert_eq!(*game.grid.get(Point::new(2, 1)), Cell::Food);
    assert_eq!(*game.grid.get(Point::new(3, 0)), Cell::Food);
    assert_eq!(game.food.len(), 3);
    assert_eq!(game.snakes.len(), 1);
}

#[test]
fn duplicate_copies_the_game() {
    let g = Grid::new(rows(&["...", "###"]));
    let game = GameState::new(g, vec![snake(&[(0, 0), (1, 0), (2, 0)], 0, true)], vec![]);
    let copy = game.duplicate();
    assert_eq!(copy.grid.cells, game.grid.cells);
    assert_eq!(copy.snakes[0].body, game.snakes[0].body);
    let s = game.snakes[0].duplicate();
    assert_eq!(s.body, game.snakes[0].body);
    assert_eq!(s.id, 0);
}

#[test]
fn point_minus_point_subtracts_coordinates() {
    assert_eq!(Point::new(1, 2) - Point::new(3, 5), Point::new(-2, -3));
}

#[test]
fn point_times_scalar_scales_coordinates() {
    assert_eq!(Point::new(2, -3) * 4, Point::new(8, -12));
}

#[test]
fn point_plus_direction_reference() {
    assert_eq!(Point::new(0, 0) + &Direction::Left, Point::new(-1, 0));
    assert_eq!(Point::from(&Direction::Down), Point::new(0, 1));
}

#[test]
fn printable_only_with_one_digit_snake_numbers() {
    let mut g = Grid::new(rows(&["..", ".."]));
    g.set(Point::new(0, 0), Cell::Snake(19));
    assert!(g.is_printable());
    g.set(Point::new(1, 1), Cell::Snake(20));
    assert!(!g.is_printable());
    g.set(Point::new(1, 1), Cell::Snake(-2));
    assert!(!g.is_printable());
}
