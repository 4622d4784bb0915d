use exotech::random::SimpleRng;
use exotech::runner::GameIter;
use exotech::types::{Cell, Point};

#[test]
fn game_iter_starts_with_the_four_snakes() {
    let mut it = GameIter::new(11, &vec![0; 10], SimpleRng { seed: 7 }, 3);
    let first = it.next().expect("a first state");
    assert_eq!(first.snakes.len(), 4);
    assert_eq!(first.snakes[0].body, vec![Point::new(5, 8), Point::new(5, 9), Point::new(5, 10)]);
    assert_eq!(first.snakes[3].id, 4);
    assert!(first.snakes[0].mine && first.snakes[1].mine);
    assert!(!first.snakes[2].mine && !first.snakes[3].mine);
    assert_eq!(first.food, vec![Point::new(2, 8), Point::new(3, 0), Point::new(8, 0), Point::new(9, 8)]);
    assert_eq!(*first.grid.get(Point::new(5, 8)), Cell::Snake(1));
    let expected = [
        ". . . F . . . . F . . . \n",
        "1 . . . . . . . . . . . \n",
        "1 . . . . . . . . . . . \n",
        "1 . . . . . . . . . . . \n",
        ". . . . . . . . . . . . \n",
        ". . . . . . . . . . 4 . \n",
        ". . . . . . . . . . 4 . \n",
        ". . . . . . . . . . 4 . \n",
        ". . F . . 0 . . 3 F . . \n",
        ". . . . . 0 . . 3 . . . \n",
        "# # # # # 0 # # 3 # # # \n",
    ]
    .concat();
    assert_eq!(first.grid.to_text(), expected);
}

#[test]
fn game_iter_stops_after_max_steps() {
    let mut it = GameIter::new(11, &vec![0; 10], SimpleRng { seed: 7 }, 1);
    assert!(it.next().is_some());
    assert!(it.next().is_none());
    assert!(it.next().is_none());
}

#[test]
fn game_iter_without_steps_gives_nothing() {
    let mut it = GameIter::new(11, &vec![0; 10], SimpleRng { seed: 7 }, 0);
    assert!(it.next().is_none());
}

#[test]
fn game_iter_can_give_its_first_state() {
    let mut it = GameIter::new(11, &vec![0; 10], SimpleRng { seed: 7 }, 1);
    assert!(it.can_advance_now());
    assert!(it.next().is_some());
    assert!(it.can_advance_now());
    assert!(it.next().is_none());
}
