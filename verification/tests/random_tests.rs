use exotech::random::{flood_fill_empty, generate_grid, mirror, opposite, SimpleRng};
use exotech::types::{Cell, Grid, Point};

fn board(text: &[&str]) -> Grid {
    Grid::new(
        text.iter()
            .map(|line| {
                line.chars()
                    .map(|c| match c {
                        '#' => Cell::Wall,
                        'F' => Cell::Food,
                        _ => Cell::Empty,
                    })
                    .collect()
            })
            .collect(),
    )
}

fn is_symmetric(g: &Grid) -> bool {
    (0..g.height).all(|y| (0..g.width).all(|x| g.get(Point::new(x, y)) == g.get(Point::new(g.width - 1 - x, y))))
}

fn no_lonely_wall(g: &Grid) -> bool {
    (0..g.height).all(|y| {
        (0..g.width).all(|x| {
            *g.get(Point::new(x, y)) != Cell::Wall
                || [(1i16, 0i16), (-1, 0), (0, 1), (0, -1)].iter().any(|&(dx, dy)| {
                    let q = Point::new(x + dx, y + dy);
                    g.in_bounds(q) && *g.get(q) == Cell::Wall
                })
        })
    })
}

#[test]
fn rng_starts_from_its_fixed_seed() {
    assert_eq!(SimpleRng::new().seed, 0x12345678abcdef);
}

#[test]
fn rng_draws_xorshift_millionths() {
    let mut rng = SimpleRng::new();
    assert_eq!(rng.next_draw(), 966132);
    assert_eq!(rng.seed, 15239834369879966132);
    let mut other = SimpleRng { seed: 1 };
    assert_eq!(other.next_draw(), 269761);
    assert_eq!(other.next_draw(), 853505);
    assert_eq!(other.next_draw(), 764457);
}

#[test]
fn rng_range_rounds_the_scaled_draw() {
    assert_eq!(SimpleRng::new().range(2, 9), 9);
    assert_eq!(SimpleRng::new().range(5, 5), 5);
    assert_eq!(SimpleRng::new().range(9, 2), 2);
    assert_eq!(SimpleRng::new().range(-10, 10), 9);
    let mut rng = SimpleRng { seed: 1 };
    for _ in 0..50 {
        let r = rng.range(3, 7);
        assert!(3 <= r && r <= 7);
    }
}

#[test]
fn rng_choose_picks_by_the_draw() {
    let items = [10, 20, 30];
    let mut rng = SimpleRng::new();
    assert_eq!(rng.choose_item(&items), Some(&30));
    assert_eq!(rng.seed, 15239834369879966132);
}

#[test]
fn rng_choose_from_nothing_draws_nothing() {
    let items: [u8; 0] = [];
    let mut rng = SimpleRng::new();
    assert_eq!(rng.choose_item(&items), None);
    assert_eq!(rng.seed, 0x12345678abcdef);
}

#[test]
fn opposite_mirrors_the_column() {
    assert_eq!(opposite(Point::new(1, 2), 6), Point::new(4, 2));
    assert_eq!(opposite(Point::new(0, 0), 6), Point::new(5, 0));
    assert_eq!(opposite(opposite(Point::new(3, 1), 6), 6), Point::new(3, 1));
}

#[test]
fn mirror_copies_the_left_half() {
    let mut g = board(&["#.F.", "..#F"]);
    mirror(&mut g);
    assert_eq!(g.to_text(), "# . . # \n. . . . \n");
    assert!(is_symmetric(&g));
}

#[test]
fn flood_fill_finds_the_open_region() {
    let g = board(&["..#..", "..#..", "#####"]);
    let mut visited = vec![false; g.cells.len()];
    let mut left = flood_fill_empty(&g, Point::new(0, 0), &mut visited);
    left.sort_by_key(|p| (p.y, p.x));
    assert_eq!(left, vec![Point::new(0, 0), Point::new(1, 0), Point::new(0, 1), Point::new(1, 1)]);
    assert_eq!(visited, vec![true, true, false, false, false, true, true, false, false, false, false, false, false, false, false]);
    let mut right = flood_fill_empty(&g, Point::new(4, 1), &mut visited);
    right.sort_by_key(|p| (p.y, p.x));
    assert_eq!(right, vec![Point::new(3, 0), Point::new(4, 0), Point::new(3, 1), Point::new(4, 1)]);
}

#[test]
fn flood_fill_skips_visited_squares() {
    let g = board(&["....", "####"]);
    let mut visited = vec![false; g.cells.len()];
    visited[2] = true;
    let comp = flood_fill_empty(&g, Point::new(0, 0), &mut visited);
    let mut comp = comp;
    comp.sort_by_key(|p| (p.y, p.x));
    assert_eq!(comp, vec![Point::new(0, 0), Point::new(1, 0)]);
}

#[test]
fn generate_open_board_lays_mirrored_food() {
    let g = generate_grid(10, &vec![0; 9], SimpleRng { seed: 7 });
    assert_eq!(g.width, 10);
    assert_eq!(g.height, 10);
    let expected = [
        ". . . . . . . . . . \n",
        ". . . . . . . . . . \n",
        ". . . . . . . . . . \n",
        ". . . . . . . . . . \n",
        ". . . . . . . . . . \n",
        ". . . . . . . . . . \n",
        ". . . F . . F . . . \n",
        ". . . . . . . . . . \n",
        ". . . . . . . . . . \n",
        "# # # # # # # # # # \n",
    ]
    .concat();
    assert_eq!(g.to_text(), expected);
}

#[test]
fn generate_solid_board_sinks_its_island() {
    let g = generate_grid(10, &vec![1_000_000; 9], SimpleRng { seed: 7 });
    let expected = [
        ". . . . . . . . . . \n",
        ". . . . . . . . . . \n",
        ". . . . . . . . . . \n",
        ". . . . . . . . . . \n",
        ". . . . . . . . . . \n",
        ". . . . . . . . . . \n",
        "# # # # # # # # # # \n",
        "# # # # # # # # # # \n",
        "# # # # # # # # # # \n",
        "# # # # # # # # # # \n",
    ]
    .concat();
    assert_eq!(g.to_text(), expected);
}

#[test]
fn generate_odd_height_gives_even_width() {
    let g = generate_grid(11, &vec![0; 10], SimpleRng { seed: 7 });
    assert_eq!(g.width, 12);
    assert_eq!(g.height, 11);
    assert_eq!(g.cells.len(), 132);
    assert!(is_symmetric(&g));
}

#[test]
fn generate_board_of_the_first_league() {
    let thresholds: Vec<u64> = vec![63774, 66399, 69248, 72354, 75750, 79482, 83600, 88169, 93265, 98987, 105456, 112831, 121314, 131177, 142786, 156649, 173492, 194395, 221024, 256108, 304430, 375227, 488932];
    let g = generate_grid(24, &thresholds, SimpleRng { seed: 6201155962022925495 });
    assert_eq!(g.width, 24);
    assert!(is_symmetric(&g));
    assert!(no_lonely_wall(&g));
    let expected = [
        ". . . . . . . . . . . . . . . . . . . . . . . . \n",
        ". . . . . . . . F . . . . . . F . . . . . . . . \n",
        ". . . F F F . . . . . . . . . . . . F F F . . . \n",
        ". . . . . . . . . . . F F . . . . . . . . . . . \n",
        "F . . . . . . . . . . . . . . . . . . . . . . F \n",
        ". . . . . . F F . . . . . . . . F F . . . . . . \n",
        ". . . . . . . . . . F # # F . . . . . . . . . . \n",
        ". F . . . . F . . . . . . . . . . F . . . . F . \n",
        ". . . . . . . . . F . . . . F . . . . . . . . . \n",
        ". . . . . . F . . . . . . . . . . F . . . . . . \n",
        ". . . F . . . . . . . . . . . . . . . . F . . . \n",
        ". # # . . F . . . . . . . . . . . . F . . # # . \n",
        ". . . . . . . . . . # . . # . . . . . . . . . . \n",
        ". . . F . . F . . F # # # # F . . F . . F . . . \n",
        ". . F . . . . . . . . . . . . . . . . . . F . . \n",
        ". . . . F . . . . . . . . . . . . . . F . . . . \n",
        ". . F . . F . . . F . . . . F . . . F . . F . . \n",
        ". . . . . . . . . . F . . F . . . . . . . . . . \n",
        ". . # . . . # # . . . # # . . . # # . . . # . . \n",
        ". . # . . . . . # # . # # . # # . . . . . # . . \n",
        ". # # . F . F . . . . . . . . . . F . F . # # . \n",
        "F . . . . . . . # . F # # F . # . . . . . . . F \n",
        ". . # . . # . . # . . . . . . # . . # . . # . . \n",
        "# # # # # # # # # # # # # # # # # # # # # # # # \n",
    ]
    .concat();
    assert_eq!(g.to_text(), expected);
}

#[test]
fn rng_range_rounds_a_binary64_product() {
    // The draw is 0.58 and 0.58 * 25 in binary64 falls just below 14.5.
    let mut rng = SimpleRng { seed: 2118537788428239847 };
    assert_eq!(rng.range(0, 25), 14);
    let mut rng = SimpleRng { seed: 2118537788428239847 };
    assert_eq!(rng.range(25, 0), 11);
}

#[test]
fn rng_choose_truncates_a_binary64_product() {
    // The draw is 0.29 and 0.29 * 100 in binary64 falls just below 29.
    let items: Vec<u32> = (0..100).collect();
    let mut rng = SimpleRng { seed: 1061520419183456755 };
    assert_eq!(rng.choose_item(&items), Some(&28));
}

#[test]
fn rng_range_agrees_with_f64_arithmetic() {
    let spans: [(i16, i16); 8] = [(0, 25), (2, 9), (-10, 10), (0, 100), (5, 0), (-16384, 16383), (16383, -16384), (7, 7)];
    let mut seed: u64 = 99;
    for _ in 0..20000 {
        seed = seed.wrapping_mul(6364136223846793005).wrapping_add(1442695040888963407);
        for &(min, max) in spans.iter() {
            let mut probe = SimpleRng { seed };
            let x = (probe.next_draw() as f64) / 1_000_000.0;
            let expected = min + (((max as i32 - min as i32) as f64) * x).round() as i16;
            let mut rng = SimpleRng { seed };
            assert_eq!(rng.range(min, max), expected);
        }
    }
}

#[test]
fn rng_choose_agrees_with_f64_arithmetic() {
    let lens: [usize; 6] = [1, 3, 4, 7, 100, 1000];
    let items: Vec<usize> = (0..1000).collect();
    let mut seed: u64 = 12345;
    for _ in 0..20000 {
        seed = seed.wrapping_mul(6364136223846793005).wrapping_add(1442695040888963407);
        for &n in lens.iter() {
            let mut probe = SimpleRng { seed };
            let x = (probe.next_draw() as f64) / 1_000_000.0;
            let expected = (x * n as f64) as usize;
            let mut rng = SimpleRng { seed };
            assert_eq!(rng.choose_item(&items[..n]), Some(&expected));
        }
    }
}
