use vstd::prelude::*;
use crate::types::{Direction, GameState, SnakeModel};
use crate::engine::snake_models;

verus! {

/// The snakes of one side, in order.
pub open spec fn side_snakes(snakes: Seq<SnakeModel>, mine: bool) -> Seq<SnakeModel> {
    snakes.filter(|s: SnakeModel| s.mine == mine)
}

/// The fixed move of a side: my snakes go left, the others go right.
pub open spec fn fixed_move(mine: bool) -> Direction {
    if mine {
        Direction::Left
    } else {
        Direction::Right
    }
}

/// One move per snake of side `mine`, in the order of the snakes: all of them `fixed_move(mine)`.
pub fn ai(game: &GameState, mine: bool) -> (moves: Vec<Direction>)
    ensures
        moves@.len() == side_snakes(game@.snakes, mine).len(),
        forall|i: int| 0 <= i < moves@.len() ==> moves@[i] == fixed_move(mine),
{
    let ghost ms = game@.snakes;
    let mut moves: Vec<Direction> = Vec::new();
    let mut i: usize = 0;
    while i < game.snakes.len()
        invariant
            0 <= i <= game.snakes@.len(),
            ms == snake_models(game.snakes@),
            moves@.len() == side_snakes(ms.take(i as int), mine).len(),
            forall|k: int| 0 <= k < moves@.len() ==> moves@[k] == fixed_move(mine),
        decreases game.snakes@.len() - i,
    {
        proof {
            assert(ms.take(i + 1) =~= ms.take(i as int).push(ms[i as int]));
            ms.take(i as int).lemma_filter_push(ms[i as int], |s: SnakeModel| s.mine == mine);
            assert(ms[i as int] == game.snakes@[i as int]@);
        }
        if game.snakes[i].mine == mine {
            moves.push(if mine { Direction::Left } else { Direction::Right });
        }
        i += 1;
    }
    assert(ms.take(i as int) =~= ms);
    moves
}

} // verus!
