use exotech::ai::ai;
use exotech::ai2::{ai2, ai2_check, distance_to_closest_food, evaluate_check, moves_ok_check, search_check, evaluate, find_best_moves, neighbours, snake_moves, CartesianProductIterTrait};
use exotech::types::{Cell, Direction, GameState, Grid, Point, Snake};

fn board(text: &[&str]) -> Grid {
    Grid::new(
        text.iter()
            .map(|line| {
                line.chars()
                    .map(|c| match c {
                        '#' => Cell::Wall,
                        'F' => Cell::Food,
                        _ => Cell::Empty,
                    })
                    .collect()
            })
            .collect(),
    )
}

fn snake(body: &[(i16, i16)], id: i16, mine: bool) -> Snake {
    Snake { body: body.iter().map(|&(x, y)| Point::new(x, y)).collect(), id, mine }
}

fn shafts(width_pattern: &str) -> Grid {
    let mut text: Vec<&str> = vec![width_pattern; 9];
    let floor = "#".repeat(width_pattern.len());
    text.push(&floor);
    board(&text)
}

#[test]
fn ai_gives_each_side_its_fixed_move() {
    let g = board(&["........", "........", "########"]);
    let snakes = vec![
        snake(&[(0, 1), (1, 1), (2, 1)], 0, true),
        snake(&[(5, 1), (6, 1), (7, 1)], 1, false),
        snake(&[(3, 0), (3, 1), (4, 1)], 2, true),
    ];
    let game = GameState::new(g, snakes, vec![]);
    assert_eq!(ai(&game, true), vec![Direction::Left, Direction::Left]);
    assert_eq!(ai(&game, false), vec![Direction::Right]);
}

#[test]
fn ai_with_no_snake_of_the_side_gives_nothing() {
    let g = board(&["....", "####"]);
    let game = GameState::new(g, vec![snake(&[(0, 0), (1, 0), (2, 0)], 0, true)], vec![]);
    assert_eq!(ai(&game, false), Vec::<Direction>::new());
}

#[test]
fn ai2_climbs_the_only_way_out() {
    let g = shafts("#.#");
    let game = GameState::new(g, vec![snake(&[(1, 6), (1, 7), (1, 8)], 0, true)], vec![]);
    assert_eq!(ai2(&game, true), vec![Direction::Up]);
}

#[test]
fn ai2_gives_one_move_per_snake_of_the_side() {
    let g = shafts("#.#.#.#");
    let snakes = vec![
        snake(&[(1, 6), (1, 7), (1, 8)], 0, true),
        snake(&[(5, 6), (5, 7), (5, 8)], 1, false),
        snake(&[(3, 6), (3, 7), (3, 8)], 2, true),
    ];
    let game = GameState::new(g, snakes, vec![]);
    assert_eq!(ai2(&game, true), vec![Direction::Up, Direction::Up]);
    assert_eq!(ai2(&game, false), vec![Direction::Up]);
}

#[test]
fn cartesian_product_in_odometer_order() {
    let pools: Vec<Vec<u32>> = vec![vec![1, 2], vec![3, 4, 5]];
    let mut it = pools.cartesian_product_iter();
    let mut seen = Vec::new();
    while let Some(item) = it.next() {
        seen.push(item);
        assert!(seen.len() <= 6);
    }
    assert_eq!(
        seen,
        vec![vec![1, 3], vec![1, 4], vec![1, 5], vec![2, 3], vec![2, 4], vec![2, 5]]
    );
    assert_eq!(it.next(), None);
}

#[test]
fn cartesian_product_with_an_empty_pool_is_empty() {
    let pools: Vec<Vec<u32>> = vec![vec![1, 2], vec![]];
    let mut it = pools.cartesian_product_iter();
    assert_eq!(it.next(), None);
    assert_eq!(it.next(), None);
}

#[test]
fn cartesian_product_of_no_pools_repeats_the_empty_pick() {
    let pools: Vec<Vec<u32>> = vec![];
    let mut it = pools.cartesian_product_iter();
    assert_eq!(it.next(), Some(vec![]));
    assert_eq!(it.next(), Some(vec![]));
}

#[test]
fn cartesian_product_of_one_pool_lists_it() {
    let pools = vec![vec![Direction::Left, Direction::Up]];
    let mut it = pools.cartesian_product_iter();
    assert_eq!(it.next(), Some(vec![Direction::Left]));
    assert_eq!(it.next(), Some(vec![Direction::Up]));
    assert_eq!(it.next(), None);
}

#[test]
fn neighbours_are_open_squares_in_order() {
    let mut g = board(&["#..", "..F", ".#."]);
    g.set(Point::new(1, 0), Cell::Snake(4));
    assert_eq!(neighbours(&g, Point::new(1, 1)), vec![Direction::Right, Direction::Left]);
    assert_eq!(neighbours(&g, Point::new(0, 2)), vec![Direction::Up]);
    assert_eq!(neighbours(&g, Point::new(2, 0)), vec![Direction::Down]);
}

#[test]
fn a_boxed_in_snake_tries_up() {
    let g = board(&["#.#", "#.#", "###"]);
    let mut game = GameState::new(g, vec![snake(&[(1, 1), (1, 0)], 0, true)], vec![]);
    assert_eq!(snake_moves(&game.grid, &game.snakes[0]), vec![Direction::Up]);
    game.grid.set(Point::new(1, 0), Cell::Food);
    assert_eq!(snake_moves(&game.grid, &game.snakes[0]), vec![Direction::Up]);
    game.grid.set(Point::new(0, 1), Cell::Empty);
    assert_eq!(snake_moves(&game.grid, &game.snakes[0]), vec![Direction::Left, Direction::Up]);
}

#[test]
fn distance_to_food_goes_around_walls() {
    let g = board(&["..#.F", "..#..", "....."]);
    let game = GameState::new(g, vec![snake(&[(0, 0)], 0, true)], vec![]);
    assert_eq!(distance_to_closest_food(&game.grid, &game.snakes[0]), 8);
}

#[test]
fn distance_without_reachable_food_is_zero() {
    let g = board(&["..#.F", "..#..", "..#.."]);
    let game = GameState::new(g, vec![snake(&[(0, 0)], 0, true)], vec![]);
    assert_eq!(distance_to_closest_food(&game.grid, &game.snakes[0]), 0);
}

#[test]
fn evaluation_adds_lengths_and_takes_distances() {
    let g = board(&["F.....", "......", "......", "######"]);
    let snakes = vec![
        snake(&[(1, 2), (2, 2), (3, 2)], 0, true),
        snake(&[(5, 0), (5, 1), (5, 2), (4, 2)], 1, true),
        snake(&[(4, 1), (3, 1), (2, 1)], 2, false),
    ];
    let game = GameState::new(g, snakes, vec![]);
    assert_eq!(evaluate(&game, true), 99);
    assert_eq!(evaluate(&game, false), 98);
}

#[test]
fn best_moves_of_a_snake_with_one_way_out() {
    let g = shafts("#.#.#");
    let snakes = vec![snake(&[(1, 6), (1, 7), (1, 8)], 0, true), snake(&[(3, 6), (3, 7), (3, 8)], 1, true)];
    let game = GameState::new(g, snakes, vec![]);
    let mine = vec![&game.snakes[0], &game.snakes[1]];
    assert_eq!(find_best_moves(&game, true, 3, &mine), vec![Direction::Up, Direction::Up]);
    let first = vec![&game.snakes[0]];
    assert_eq!(find_best_moves(&game, true, 1, &first), vec![Direction::Up]);
}

#[test]
fn search_checks_agree_with_the_search() {
    let g = shafts("#.#.#");
    let snakes = vec![snake(&[(1, 6), (1, 7), (1, 8)], 0, true), snake(&[(3, 6), (3, 7), (3, 8)], 1, false)];
    let game = GameState::new(g, snakes, vec![]);
    assert!(moves_ok_check(&game, true));
    assert!(evaluate_check(&game, true));
    assert_eq!(search_check(&game, true, 0), Some(evaluate(&game, true)));
    assert!(search_check(&game, true, 2).is_some());
    assert_eq!(ai2_check(&game, true), Some(vec![Direction::Up]));
    assert_eq!(ai2_check(&game, true), Some(ai2(&game, true)));
}

#[test]
fn search_check_refuses_a_side_without_snakes() {
    let g = shafts("#.#");
    let game = GameState::new(g, vec![snake(&[(1, 6), (1, 7), (1, 8)], 0, true)], vec![]);
    assert_eq!(search_check(&game, false, 1), None);
    assert_eq!(ai2_check(&game, false), None);
}
