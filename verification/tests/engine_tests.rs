use exotech::types::{Cell, Direction, GameState, Grid, Point, Snake};

fn board(text: &[&str]) -> Grid {
    Grid::new(
        text.iter()
            .map(|line| line.chars().map(|c| if c == '#' { Cell::Wall } else { Cell::Empty }).collect())
            .collect(),
    )
}

fn snake(body: &[(i16, i16)], id: i16, mine: bool) -> Snake {
    Snake { body: body.iter().map(|&(x, y)| Point::new(x, y)).collect(), id, mine }
}

fn points(body: &[(i16, i16)]) -> Vec<Point> {
    body.iter().map(|&(x, y)| Point::new(x, y)).collect()
}

#[test]
fn apply_moves_a_resting_snake() {
    let g = board(&[".....", ".....", ".....", ".....", "#####"]);
    let mut game = GameState::new(g, vec![snake(&[(1, 3), (1, 2), (1, 1)], 0, true)], vec![]);
    game.apply(&vec![Direction::Right], None);
    assert_eq!(game.snakes.len(), 1);
    assert_eq!(game.snakes[0].body, points(&[(2, 3), (1, 3), (1, 2)]));
    assert_eq!(*game.grid.get(Point::new(2, 3)), Cell::Snake(1));
    assert_eq!(*game.grid.get(Point::new(1, 3)), Cell::Snake(0));
    assert_eq!(*game.grid.get(Point::new(1, 2)), Cell::Snake(0));
    assert_eq!(*game.grid.get(Point::new(1, 1)), Cell::Empty);
}

#[test]
fn apply_into_a_wall_removes_a_short_snake() {
    let g = board(&[".....", ".....", ".....", ".....", "#####"]);
    let mut game = GameState::new(g, vec![snake(&[(1, 3), (1, 2), (1, 1)], 0, true)], vec![]);
    game.apply(&vec![Direction::Down], None);
    assert_eq!(game.snakes.len(), 0);
    assert_eq!(*game.grid.get(Point::new(1, 4)), Cell::Wall);
    assert_eq!(*game.grid.get(Point::new(1, 3)), Cell::Empty);
    assert_eq!(*game.grid.get(Point::new(1, 2)), Cell::Empty);
}

#[test]
fn apply_lets_a_floating_snake_fall() {
    let g = board(&[".....", ".....", ".....", ".....", ".....", "#####"]);
    let mut game = GameState::new(g, vec![snake(&[(1, 1), (2, 1), (3, 1)], 0, true)], vec![]);
    // the side given selects no snake: nothing moves, only gravity acts
    game.apply(&vec![], Some(false));
    assert_eq!(game.snakes[0].body, points(&[(1, 4), (2, 4), (3, 4)]));
    assert_eq!(*game.grid.get(Point::new(1, 1)), Cell::Empty);
    assert_eq!(*game.grid.get(Point::new(1, 4)), Cell::Snake(1));
    assert_eq!(*game.grid.get(Point::new(3, 4)), Cell::Snake(0));
}

#[test]
fn apply_cuts_the_heads_of_meeting_snakes() {
    let g = board(&["......", "......", "......", "......", "......", "######"]);
    let a = snake(&[(1, 4), (2, 4), (3, 4), (4, 4)], 0, true);
    let b = snake(&[(2, 3), (2, 2), (2, 1), (2, 0)], 2, false);
    let mut game = GameState::new(g, vec![a, b], vec![]);
    game.apply(&vec![Direction::Left, Direction::Down], None);
    assert_eq!(game.snakes.len(), 2);
    assert_eq!(game.snakes[0].body, points(&[(1, 4), (2, 4), (3, 4)]));
    assert_eq!(game.snakes[1].body, points(&[(2, 3), (2, 2), (2, 1)]));
    assert_eq!(*game.grid.get(Point::new(1, 4)), Cell::Snake(1));
    assert_eq!(*game.grid.get(Point::new(2, 3)), Cell::Snake(5));
    assert_eq!(*game.grid.get(Point::new(2, 1)), Cell::Snake(4));
    assert_eq!(*game.grid.get(Point::new(2, 0)), Cell::Empty);
    assert_eq!(*game.grid.get(Point::new(0, 4)), Cell::Empty);
}

#[test]
fn apply_moves_only_the_selected_side() {
    let g = board(&["......", "......", "......", "......", "######"]);
    let a = snake(&[(1, 3), (2, 3), (3, 3)], 0, true);
    let b = snake(&[(5, 1), (5, 2), (5, 3)], 1, false);
    let mut game = GameState::new(g, vec![a, b], vec![]);
    game.apply(&vec![Direction::Up], Some(false));
    assert_eq!(game.snakes[0].body, points(&[(1, 3), (2, 3), (3, 3)]));
    assert_eq!(game.snakes[1].body, points(&[(5, 0), (5, 1), (5, 2)]));
}

#[test]
fn snakes_never_grow_on_food() {
    let g = board(&[".....", ".....", ".....", "#####"]);
    let mut game = GameState::new(g, vec![snake(&[(1, 2), (2, 2), (3, 2)], 0, true)], vec![Point::new(0, 2)]);
    game.apply(&vec![Direction::Left], None);
    assert_eq!(game.snakes[0].len(), 3);
    assert_eq!(game.snakes[0].body, points(&[(0, 2), (1, 2), (2, 2)]));
    assert_eq!(*game.grid.get(Point::new(0, 2)), Cell::Snake(1));
    assert_eq!(game.food, vec![Point::new(0, 2)]);
}

fn marks_match_snakes(game: &GameState) -> bool {
    (0..game.grid.height).all(|y| {
        (0..game.grid.width).all(|x| {
            let p = Point::new(x, y);
            let marked = matches!(*game.grid.get(p), Cell::Snake(_));
            marked == game.snakes.iter().any(|s| s.body.contains(&p))
        })
    })
}

#[test]
fn after_a_turn_marks_are_the_snakes_squares() {
    let g = board(&["......", "......", "......", "......", "......", "######"]);
    let a = snake(&[(1, 4), (2, 4), (3, 4), (4, 4)], 0, true);
    let b = snake(&[(2, 3), (2, 2), (2, 1), (2, 0)], 2, false);
    let c = snake(&[(5, 2), (5, 3), (5, 4)], 3, false);
    let mut game = GameState::new(g, vec![a, b, c], vec![]);
    assert!(marks_match_snakes(&game));
    game.apply(&vec![Direction::Left, Direction::Down, Direction::Up], None);
    assert!(marks_match_snakes(&game));
    assert!(game.snakes[0].mine && !game.snakes[1].mine && !game.snakes[2].mine);
}

#[test]
fn apply_ok_tells_whether_a_turn_can_be_played() {
    let g = board(&[".....", ".....", ".....", ".....", "#####"]);
    let game = GameState::new(g, vec![snake(&[(1, 3), (1, 2), (1, 1)], 0, true)], vec![]);
    assert!(game.apply_ok(&vec![Direction::Right], None));
    assert!(game.apply_ok(&vec![], None));

    let top = board(&["...", "...", "###"]);
    let game = GameState::new(top, vec![snake(&[(0, 0), (1, 0), (1, 1)], 0, true)], vec![]);
    assert!(!game.apply_ok(&vec![Direction::Up], None));
    assert!(!game.apply_ok(&vec![Direction::Left], None));
    assert!(game.apply_ok(&vec![Direction::Left], Some(false)));
}
