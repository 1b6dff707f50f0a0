//! What best play achieves: the result of a game in which both sides play as
//! well as can be, and how the search's best moves carry it along.
//!
//! The search values a win by the number of moves it takes. Whether a
//! position is won, drawn or lost does not depend on that: it is the sign of
//! the value. A best move keeps that result, so a game that is drawn under
//! best play stays drawn as long as both sides follow the search.

use crate::board::{
    first_won_line, free_cells, lemma_turns_alternate, marks, mover, opponent, outcome, EMPTY, O, X,
};
use crate::moves::{lemma_successor, successors};
use crate::score::{lemma_order_total, Rational};
use crate::search::{
    beats, best_upto, better_of, is_best_move, lemma_best_is_game_score,
    lemma_game_score_in_range, lemma_value_is_game_score, value, worst,
};
use vstd::prelude::*;

verus! {

/// Every cell holds X, O or nothing.
pub open spec fn valid_board(cells: Seq<i8>) -> bool {
    &&& cells.len() == 9
    &&& forall|i: int| 0 <= i < 9 ==> #[trigger] cells[i] == X || cells[i] == O || cells[i] == EMPTY
}

/// What a finished game is to `player`: 1 for a win, 0 for a draw, -1 for a
/// loss.
pub open spec fn result_for(winner: i8, player: i8) -> int {
    if winner == player {
        1
    } else if winner == EMPTY {
        0
    } else {
        -1
    }
}

/// The better of two results for the side to move.
pub open spec fn better_result(is_max: bool, best: int, new: int) -> int {
    if is_max {
        if new > best {
            new
        } else {
            best
        }
    } else {
        if new < best {
            new
        } else {
            best
        }
    }
}

/// The result of the game for `player` when both sides play as well as can
/// be from `cells` on, with at most `plies` moves left: `player` is to move
/// when `is_max` holds, the opponent when not.
pub open spec fn result_within(cells: Seq<i8>, player: i8, is_max: bool, plies: nat) -> int
    decreases plies, 1nat, 0nat,
{
    match outcome(cells) {
        Some(winner) => result_for(winner, player),
        None => best_result_upto(cells, player, is_max, plies, successors(cells).len()),
    }
}

/// The best result among the first `n` successors of an open position, for
/// the side to move. With no successor it is a result worse than any.
pub open spec fn best_result_upto(
    cells: Seq<i8>,
    player: i8,
    is_max: bool,
    plies: nat,
    n: nat,
) -> int
    decreases plies, 0nat, n,
{
    if n == 0 || plies == 0 {
        if is_max {
            -2
        } else {
            2
        }
    } else {
        better_result(
            is_max,
            best_result_upto(cells, player, is_max, plies, (n - 1) as nat),
            result_within(successors(cells)[n - 1], player, !is_max, (plies - 1) as nat),
        )
    }
}

/// The result of the game for `player` under best play from `cells` on.
pub open spec fn result(cells: Seq<i8>, player: i8, is_max: bool) -> int {
    result_within(cells, player, is_max, free_cells(cells))
}

/// The sign of a fraction with a positive denominator.
pub open spec fn sign(v: Rational) -> int {
    if v.num > 0 {
        1
    } else if v.num < 0 {
        -1
    } else {
        0
    }
}

/// A greater fraction has no smaller sign, and equal fractions have the
/// same sign.
pub proof fn lemma_sign_is_monotone(x: Rational, y: Rational)
    requires
        x.wf(),
        y.wf(),
        x.le(y),
    ensures
        sign(x) <= sign(y),
{
    let (a, b, c, d) = (x.num, x.den, y.num, y.den);
    assert(a * d <= c * b ==> (a > 0 ==> c > 0) && (a >= 0 ==> c >= 0)) by (nonlinear_arith)
        requires
            b > 0,
            d > 0,
    ;
}

/// The result of a game under best play is the sign of the value that the
/// search gives the position, at whatever level.
pub proof fn lemma_result_is_sign_of_value(cells: Seq<i8>, player: i8, is_max: bool, level: int)
    requires
        cells.len() == 9,
        level >= 0,
        level >= 1 || outcome(cells) is None,
    ensures
        result(cells, player, is_max) == sign(value(cells, player, is_max, level)),
        -1 <= result(cells, player, is_max) <= 1,
    decreases free_cells(cells), 1nat, 0nat,
{
    if outcome(cells) is None {
        crate::moves::lemma_open_position_has_successor(cells);
        lemma_best_result_is_sign(cells, player, is_max, level, successors(cells).len());
    }
}

/// The best result among the first `n` successors is the sign of the best
/// value among them.
pub proof fn lemma_best_result_is_sign(cells: Seq<i8>, player: i8, is_max: bool, level: int, n: nat)
    requires
        cells.len() == 9,
        level >= 0,
        outcome(cells) is None,
        n <= successors(cells).len(),
    ensures
        n > 0 ==> best_result_upto(cells, player, is_max, free_cells(cells), n) == sign(
            best_upto(cells, player, is_max, level, free_cells(cells), n),
        ),
        n > 0 ==> -1 <= best_result_upto(cells, player, is_max, free_cells(cells), n) <= 1,
    decreases free_cells(cells), 0nat, n,
{
    if n > 0 {
        let plies = free_cells(cells);
        let next = successors(cells)[n - 1];
        let before = best_upto(cells, player, is_max, level, plies, (n - 1) as nat);
        let last = value(next, player, !is_max, level + 1);
        lemma_successor(cells, n - 1);
        lemma_best_result_is_sign(cells, player, is_max, level, (n - 1) as nat);
        lemma_result_is_sign_of_value(next, player, !is_max, level + 1);
        lemma_best_is_game_score(cells, player, is_max, level, (n - 1) as nat);
        lemma_value_is_game_score(next, player, !is_max, level + 1);
        lemma_game_score_in_range(last, level + 1);
        let here = best_upto(cells, player, is_max, level, plies, n);
        let before_r = best_result_upto(cells, player, is_max, plies, (n - 1) as nat);
        let last_r = result(next, player, !is_max);
        let here_r = best_result_upto(cells, player, is_max, plies, n);
        assert(here == better_of(is_max, before, last));
        assert(here_r == better_result(is_max, before_r, last_r));
        assert(last_r == sign(last));
        if n == 1 {
            assert(before == worst(is_max));
            assert(beats(is_max, last, before));
            assert(here == last);
            assert(here_r == last_r);
        }
        if n > 1 {
            assert(before_r == sign(before));
            lemma_game_score_in_range(before, level + 1);
            lemma_order_total(before, last);
            if before.le(last) {
                lemma_sign_is_monotone(before, last);
            }
            if last.le(before) {
                lemma_sign_is_monotone(last, before);
            }
        }
    }
}

/// The best result among the first `n` successors is no worse for the side
/// to move than the result of any of them, and is the result of one of them.
pub proof fn lemma_best_result_bounds(cells: Seq<i8>, player: i8, is_max: bool, n: nat)
    requires
        cells.len() == 9,
        outcome(cells) is None,
        n <= successors(cells).len(),
    ensures
        forall|k: int|
            0 <= k < n ==> better_result(
                is_max,
                best_result_upto(cells, player, is_max, free_cells(cells), n),
                result(#[trigger] successors(cells)[k], player, !is_max),
            ) == best_result_upto(cells, player, is_max, free_cells(cells), n),
        n > 0 ==> exists|k: int|
            0 <= k < n && best_result_upto(cells, player, is_max, free_cells(cells), n) == result(
                #[trigger] successors(cells)[k],
                player,
                !is_max,
            ),
    decreases n,
{
    if n > 0 {
        let plies = free_cells(cells);
        let here = best_result_upto(cells, player, is_max, plies, n);
        let before = best_result_upto(cells, player, is_max, plies, (n - 1) as nat);
        let last = result(successors(cells)[n - 1], player, !is_max);
        lemma_successor(cells, n - 1);
        lemma_result_is_sign_of_value(successors(cells)[n - 1], player, !is_max, 1);
        lemma_best_result_bounds(cells, player, is_max, (n - 1) as nat);
        assert(here == better_result(is_max, before, last));
        assert forall|k: int| 0 <= k < n implies better_result(
            is_max,
            here,
            result(#[trigger] successors(cells)[k], player, !is_max),
        ) == here by {
            lemma_successor(cells, k);
        }
        if here == last {
            assert(here == result(successors(cells)[n - 1], player, !is_max));
        } else {
            let k = choose|k: int|
                0 <= k < n - 1 && before == result(#[trigger] successors(cells)[k], player, !is_max);
            assert(here == result(successors(cells)[k], player, !is_max));
        }
    }
}

/// The result of an open position is the best, for the side to move, of the
/// results that its moves lead to: no move leads to a better one, and some
/// move leads to this one.
pub proof fn lemma_result_of_open_position(cells: Seq<i8>, player: i8, is_max: bool)
    requires
        cells.len() == 9,
        outcome(cells) is None,
    ensures
        forall|i: int|
            0 <= i < 9 && cells[i] == EMPTY ==> better_result(
                is_max,
                result(cells, player, is_max),
                result(#[trigger] cells.update(i, mover(cells)), player, !is_max),
            ) == result(cells, player, is_max),
        exists|i: int|
            0 <= i < 9 && cells[i] == EMPTY && result(cells, player, is_max) == result(
                #[trigger] cells.update(i, mover(cells)),
                player,
                !is_max,
            ),
{
    let all = successors(cells);
    crate::moves::lemma_open_position_has_successor(cells);
    crate::moves::lemma_placements(cells, mover(cells), 9);
    lemma_best_result_bounds(cells, player, is_max, all.len());
    assert forall|i: int| 0 <= i < 9 && cells[i] == EMPTY implies better_result(
        is_max,
        result(cells, player, is_max),
        result(#[trigger] cells.update(i, mover(cells)), player, !is_max),
    ) == result(cells, player, is_max) by {
        assert(all.contains(cells.update(i, mover(cells))));
        let k = choose|k: int| 0 <= k < all.len() && all[k] == cells.update(i, mover(cells));
        assert(result(all[k], player, !is_max) == result(
            cells.update(i, mover(cells)),
            player,
            !is_max,
        ));
    }
    let k = choose|k: int|
        0 <= k < all.len() && result(cells, player, is_max) == result(
            #[trigger] all[k],
            player,
            !is_max,
        );
    lemma_successor(cells, k);
    let i = choose|i: int|
        0 <= i < 9 && cells[i] == EMPTY && all[k] == #[trigger] cells.update(i, mover(cells));
    assert(result(cells, player, is_max) == result(cells.update(i, mover(cells)), player, !is_max));
}

/// A move on a valid board gives a valid board.
pub proof fn lemma_successor_is_valid(cells: Seq<i8>, k: int)
    requires
        valid_board(cells),
        0 <= k < successors(cells).len(),
    ensures
        valid_board(successors(cells)[k]),
{
    lemma_successor(cells, k);
    let next = successors(cells)[k];
    let i = choose|i: int|
        0 <= i < 9 && cells[i] == EMPTY && next == #[trigger] cells.update(i, mover(cells));
    assert forall|j: int| 0 <= j < 9 implies #[trigger] next[j] == X || next[j] == O || next[j]
        == EMPTY by {
        assert(cells[j] == X || cells[j] == O || cells[j] == EMPTY);
    }
}

/// The winner of a finished game on a valid board is X, O or nobody.
pub proof fn lemma_winner_is_a_player(cells: Seq<i8>)
    requires
        valid_board(cells),
    ensures
        outcome(cells) matches Some(winner) ==> winner == X || winner == O || winner == EMPTY,
{
    reveal_with_fuel(first_won_line, 9);
    assert(forall|i: int| 0 <= i < 9 ==> #[trigger] cells[i] == X || cells[i] == O || cells[i] == EMPTY);
}

/// What one player wins the other loses: under best play the result for a
/// player is the opposite of the result for the opponent.
pub proof fn lemma_results_are_opposite(cells: Seq<i8>, player: i8, is_max: bool)
    requires
        valid_board(cells),
        player == X || player == O,
    ensures
        result(cells, player, is_max) == -result(cells, opponent(player), !is_max),
    decreases free_cells(cells), 1nat, 0nat,
{
    lemma_winner_is_a_player(cells);
    if outcome(cells) is None {
        lemma_best_results_are_opposite(cells, player, is_max, successors(cells).len());
    }
}

/// The best result among the first `n` successors for one side is the
/// opposite of the best result among them for the other.
pub proof fn lemma_best_results_are_opposite(cells: Seq<i8>, player: i8, is_max: bool, n: nat)
    requires
        valid_board(cells),
        player == X || player == O,
        outcome(cells) is None,
        n <= successors(cells).len(),
    ensures
        best_result_upto(cells, player, is_max, free_cells(cells), n) == -best_result_upto(
            cells,
            opponent(player),
            !is_max,
            free_cells(cells),
            n,
        ),
    decreases free_cells(cells), 0nat, n,
{
    if n > 0 {
        lemma_successor(cells, n - 1);
        lemma_successor_is_valid(cells, n - 1);
        lemma_best_results_are_opposite(cells, player, is_max, (n - 1) as nat);
        lemma_results_are_opposite(successors(cells)[n - 1], player, !is_max);
    }
}

/// The game is drawn under best play: it has ended in a draw, or it is open
/// and neither side can secure more than a draw.
pub open spec fn drawn_under_best_play(cells: Seq<i8>) -> bool {
    match outcome(cells) {
        Some(winner) => winner == EMPTY,
        None => result(cells, mover(cells), true) == 0,
    }
}

/// A best move keeps the draw: from a position that is drawn under best
/// play it leads to a position that is drawn under best play.
pub proof fn lemma_best_move_keeps_the_draw(cells: Seq<i8>, next: Seq<i8>)
    requires
        valid_board(cells),
        drawn_under_best_play(cells),
        is_best_move(cells, next),
    ensures
        valid_board(next),
        drawn_under_best_play(next),
{
    let player = mover(cells);
    let k = choose|k: int| 0 <= k < successors(cells).len() && successors(cells)[k] == next;
    lemma_successor(cells, k);
    lemma_successor_is_valid(cells, k);
    let i = choose|i: int|
        0 <= i < 9 && cells[i] == EMPTY && next == #[trigger] cells.update(i, mover(cells));
    lemma_turns_alternate(cells, i);
    let top = value(cells, player, true, 0);
    let got = value(next, player, false, 1);
    lemma_result_is_sign_of_value(cells, player, true, 0);
    lemma_result_is_sign_of_value(next, player, false, 1);
    lemma_value_is_game_score(cells, player, true, 0);
    lemma_value_is_game_score(next, player, false, 1);
    lemma_game_score_in_range(top, 0);
    lemma_game_score_in_range(got, 1);
    lemma_order_total(got, top);
    lemma_sign_is_monotone(got, top);
    lemma_sign_is_monotone(top, got);
    assert(result(next, player, false) == 0);
    lemma_winner_is_a_player(next);
    if outcome(next) is None {
        lemma_results_are_opposite(next, player, false);
        assert(marks(next) < 9) by {
            crate::board::lemma_marks_upto_bound(next, 9, 9);
        }
        assert(mover(next) == opponent(player));
    }
}

/// Each position of the game but the first comes from the one before it by
/// a best move.
pub open spec fn best_play(game: Seq<Seq<i8>>) -> bool {
    forall|i: int| 0 <= i < game.len() - 1 ==> is_best_move(#[trigger] game[i], game[i + 1])
}

/// Best play from a position that is drawn under best play never leaves
/// the draw: every position of the game is drawn under best play, so where
/// the game ends, it ends in a draw.
pub proof fn lemma_best_play_keeps_the_draw(game: Seq<Seq<i8>>, i: int)
    requires
        0 <= i < game.len(),
        valid_board(game[0]),
        drawn_under_best_play(game[0]),
        best_play(game),
    ensures
        valid_board(game[i]),
        drawn_under_best_play(game[i]),
        outcome(game[i]) is Some ==> outcome(game[i]) == Some(EMPTY),
    decreases i,
{
    if i > 0 {
        lemma_best_play_keeps_the_draw(game, i - 1);
        assert(is_best_move(game[i - 1], game[i - 1 + 1]));
        lemma_best_move_keeps_the_draw(game[i - 1], game[i]);
    }
}

} // verus!
