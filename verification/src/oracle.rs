//! Whether a game can still be won by anybody.

use crate::board::{
    check_winner, first_won_line, free_cells, marks_upto, mover, outcome,
    GameState, EMPTY, O, X,
};
use crate::moves::{boards, get_next_moves, lemma_placements, lemma_successor, successors};
use vstd::prelude::*;

verus! {

/// Somebody has won: a line is complete.
pub open spec fn decided(cells: Seq<i8>) -> bool {
    outcome(cells) matches Some(winner) && winner != EMPTY
}

/// Some play of at most `plies` further moves ends with a winner.
pub open spec fn winnable_within(cells: Seq<i8>, plies: nat) -> bool
    decreases plies,
{
    decided(cells) || (plies > 0 && exists|k: int|
        0 <= k < successors(cells).len() && winnable_within(
            #[trigger] successors(cells)[k],
            (plies - 1) as nat,
        ))
}

/// Some continuation of the game ends with a winner. No continuation is
/// longer than the number of free cells.
pub open spec fn winnable(cells: Seq<i8>) -> bool {
    winnable_within(cells, free_cells(cells))
}

/// Tells whether the game can still end with a winner, for whatever moves
/// the two players may choose. It searches the whole tree of continuations,
/// and the order in which it visits them does not matter to the answer.
pub fn is_winnable(game_state: GameState) -> (answer: bool)
    ensures
        answer == winnable(game_state@),
    decreases free_cells(game_state@),
{
    match check_winner(game_state) {
        Some(winner) => {
            if winner != EMPTY {
                return true;
            }
        },
        None => {},
    }
    let children = get_next_moves(game_state);
    let ghost all = successors(game_state@);
    let mut i: usize = 0;
    while i < children.len()
        invariant
            i <= children.len(),
            game_state@.len() == 9,
            all == successors(game_state@),
            !decided(game_state@),
            children@.len() == all.len(),
            forall|j: int| 0 <= j < children@.len() ==> all.contains(#[trigger] children@[j]@),
            forall|k: int| 0 <= k < all.len() ==> boards(children@).contains(#[trigger] all[k]),
            forall|j: int| 0 <= j < i ==> !winnable(#[trigger] children@[j]@),
        decreases children.len() - i,
    {
        let child = children[i];
        let ghost k = choose|k: int| 0 <= k < all.len() && all[k] == child@;
        proof {
            assert(all.contains(children@[i as int]@));
            lemma_successor(game_state@, k);
        }
        if is_winnable(child) {
            assert(winnable_within(all[k], (free_cells(game_state@) - 1) as nat));
            return true;
        }
        i += 1;
    }
    proof {
        assert forall|k: int| 0 <= k < all.len() implies !winnable_within(
            #[trigger] successors(game_state@)[k],
            (free_cells(game_state@) - 1) as nat,
        ) by {
            lemma_successor(game_state@, k);
            assert(boards(children@).contains(all[k]));
            let j = choose|j: int| 0 <= j < children@.len() && boards(children@)[j] == all[k];
            assert(!winnable(children@[j]@));
        }
    }
    false
}

/// A drawn game cannot be won any more: a full board without a complete
/// line has no winner and no continuation.
pub proof fn lemma_drawn_board_is_not_winnable(cells: Seq<i8>)
    requires
        outcome(cells) == Some(EMPTY),
    ensures
        !winnable(cells),
{
}

/// A position stays winnable if the mover can mark a free cell and reach a
/// winnable position.
pub proof fn lemma_winnable_through(cells: Seq<i8>, index: int)
    requires
        cells.len() == 9,
        0 <= index < 9,
        cells[index] == EMPTY,
        outcome(cells) is None,
        winnable(cells.update(index, mover(cells))),
    ensures
        winnable(cells),
{
    let next = cells.update(index, mover(cells));
    lemma_placements(cells, mover(cells), 9);
    assert(successors(cells).contains(next));
    let k = choose|k: int| 0 <= k < successors(cells).len() && successors(cells)[k] == next;
    lemma_successor(cells, k);
    assert(winnable_within(successors(cells)[k], (free_cells(cells) - 1) as nat));
}

/// The empty board is winnable: X takes the top row while O fills two cells
/// of the middle row.
pub proof fn lemma_empty_board_is_winnable()
    ensures
        winnable(seq![EMPTY, EMPTY, EMPTY, EMPTY, EMPTY, EMPTY, EMPTY, EMPTY, EMPTY]),
{
    let e = EMPTY;
    let b0 = seq![e, e, e, e, e, e, e, e, e];
    let b1 = seq![X, e, e, e, e, e, e, e, e];
    let b2 = seq![X, e, e, O, e, e, e, e, e];
    let b3 = seq![X, X, e, O, e, e, e, e, e];
    let b4 = seq![X, X, e, O, O, e, e, e, e];
    let b5 = seq![X, X, X, O, O, e, e, e, e];
    reveal_with_fuel(marks_upto, 10);
    reveal_with_fuel(first_won_line, 9);
    assert(outcome(b5) == Some(X));
    assert(winnable(b5));
    assert(outcome(b4) is None && mover(b4) == X && b4.update(2, X) =~= b5);
    lemma_winnable_through(b4, 2);
    assert(outcome(b3) is None && mover(b3) == O && b3.update(4, O) =~= b4);
    lemma_winnable_through(b3, 4);
    assert(outcome(b2) is None && mover(b2) == X && b2.update(1, X) =~= b3);
    lemma_winnable_through(b2, 1);
    assert(outcome(b1) is None && mover(b1) == O && b1.update(3, O) =~= b2);
    lemma_winnable_through(b1, 3);
    assert(outcome(b0) is None && mover(b0) == X && b0.update(0, X) =~= b1);
    lemma_winnable_through(b0, 0);
}

} // verus!
