use exotech::random::{
    cleanup_lonely_walls, destroy_tight_spaces, detect_lowest_island, fill_small_air_pockets, sink_lowest_island,
    spawn_food, SimpleRng,
};
use exotech::types::{Cell, Grid, Point};

fn board(text: &[&str]) -> Grid {
    Grid::new(
        text.iter()
            .map(|line| {
                line.chars()
                    .map(|c| match c {
                        '#' => Cell::Wall,
                        'F' => Cell::Food,
                        _ => Cell::Empty,
                    })
                    .collect()
            })
            .collect(),
    )
}

fn rows_of(g: &Grid) -> Vec<String> {
    (0..g.height)
        .map(|y| {
            (0..g.width)
                .map(|x| match *g.get(Point::new(x, y)) {
                    Cell::Wall => '#',
                    Cell::Food => 'F',
                    Cell::Empty => '.',
                    Cell::Snake(_) => 'S',
                })
                .collect()
        })
        .collect()
}

#[test]
fn small_pockets_get_walled_up() {
    let mut g = board(&["......", ".#..#.", "#.##.#", "######"]);
    fill_small_air_pockets(&mut g);
    assert_eq!(rows_of(&g), vec!["......", ".#..#.", "######", "######"]);
}

#[test]
fn a_region_under_ten_squares_is_walled_up() {
    let mut g = board(&["#....#", "#.##.#", "#.##.#", "######"]);
    fill_small_air_pockets(&mut g);
    assert_eq!(rows_of(&g), vec!["######", "######", "######", "######"]);
}

#[test]
fn tight_spaces_lose_a_wall_not_below_them() {
    let mut g = board(&["......", ".#..#.", "#.##.#", "......"]);
    let mut rng = SimpleRng { seed: 7 };
    destroy_tight_spaces(&mut g, &mut rng);
    assert_eq!(rows_of(&g), vec!["......", "......", "#.##.#", "......"]);
    assert_eq!(rng.seed, 7575888327);
}

#[test]
fn lonely_walls_turn_into_food() {
    let mut g = board(&["#....#", "......", "..##..", "......"]);
    cleanup_lonely_walls(&mut g);
    assert_eq!(rows_of(&g), vec!["F....F", "......", "..##..", "......"]);
}

#[test]
fn food_is_laid_in_mirrored_pairs_on_empty_squares() {
    let mut g = board(&["......", "......", "......", "......", "......", "......", "######"]);
    let mut rng = SimpleRng { seed: 3 };
    spawn_food(&mut g, &mut rng);
    assert_eq!(rows_of(&g), vec!["..FF..", "......", "......", "......", "......", "......", "######"]);
    assert_eq!(rng.seed, 4224249298074605188);
}

#[test]
fn lowest_island_holds_the_walls_joined_to_the_corner() {
    let g = board(&["......", "##....", "######", "######"]);
    let island = detect_lowest_island(&g);
    let order: Vec<(i16, i16)> = island.iter().map(|p| (p.x, p.y)).collect();
    assert_eq!(
        order,
        vec![
            (0, 3), (1, 3), (0, 2), (2, 3), (1, 2), (0, 1), (3, 3), (2, 2), (1, 1), (4, 3), (3, 2), (5, 3), (4, 2),
            (5, 2)
        ]
    );
    let mut island = island;
    island.sort_by_key(|p| (p.y, p.x));
    let mut expected = vec![Point::new(0, 1), Point::new(1, 1)];
    for y in 2..4 {
        for x in 0..6 {
            expected.push(Point::new(x, y));
        }
    }
    assert_eq!(island, expected);
    let empty_corner = board(&["#.....", "......"]);
    assert_eq!(detect_lowest_island(&empty_corner), vec![]);
}

#[test]
fn island_sinks_by_its_full_rows() {
    let mut g = board(&["......", "##....", "######", "######"]);
    let mut rng = SimpleRng { seed: 7 };
    sink_lowest_island(&mut g, &mut rng);
    assert_eq!(rows_of(&g), vec!["......", "......", "##..##", "######"]);
    assert_eq!(rng.seed, 7);
}

#[test]
fn island_with_many_full_rows_sinks_by_a_draw() {
    let mut g = board(&["......", "######", "######", "######", "######"]);
    let mut rng = SimpleRng { seed: 7 };
    sink_lowest_island(&mut g, &mut rng);
    assert_eq!(rows_of(&g), vec!["......", "......", "......", "......", "######"]);
    assert_eq!(rng.seed, 7575888327);
}
