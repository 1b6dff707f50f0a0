//! Tic-tac-toe is a draw: from the empty board neither player can force a
//! win, so a game in which both sides follow the search ends in a draw.
//!
//! The proof walks through the game. For the second player it shows an
//! answer to every move of the first that leaves the first unable to win, and
//! for the first player an opening and an answer to every move of the second.
//! Positions that differ by a symmetry of the board are treated once.

use crate::board::{
    first_won_line, lemma_marks_upto_bound, lemma_turns_alternate, marks, marks_upto,
    mover, outcome, EMPTY, O, X,
};
use crate::play::{
    best_play, better_result, drawn_under_best_play, lemma_best_play_keeps_the_draw,
    lemma_result_of_open_position, lemma_results_are_opposite, result, valid_board,
};
use crate::symmetry::{
    image, lemma_image_marks, lemma_image_outcome, lemma_image_result, lemma_move_has_one_owner,
    one_owner,
};
use vstd::prelude::*;

verus! {

/// The player to move cannot win from this position, whatever the moves.
pub open spec fn held(cells: Seq<i8>) -> bool {
    result(cells, mover(cells), true) <= 0
}

/// The position after `turns` quarter turns, taken after a reflection where
/// `flip` holds.
pub open spec fn laid(cells: Seq<i8>, flip: bool, turns: nat) -> Seq<i8>
    decreases turns,
{
    if turns == 0 {
        if flip {
            image(cells, true)
        } else {
            cells
        }
    } else {
        image(laid(cells, flip, (turns - 1) as nat), false)
    }
}

/// Laying the board another way changes nothing for the player to move.
pub proof fn lemma_held_however_laid(cells: Seq<i8>, flip: bool, turns: nat)
    requires
        cells.len() == 9,
        one_owner(cells),
    ensures
        laid(cells, flip, turns).len() == 9,
        one_owner(laid(cells, flip, turns)),
        outcome(laid(cells, flip, turns)) == outcome(cells),
        mover(laid(cells, flip, turns)) == mover(cells),
        held(laid(cells, flip, turns)) == held(cells),
    decreases turns,
{
    if turns == 0 {
        if flip {
            lemma_image_outcome(cells, true);
            lemma_image_marks(cells, true);
            lemma_image_result(cells, true, mover(cells), true);
        }
    } else {
        let before = laid(cells, flip, (turns - 1) as nat);
        lemma_held_however_laid(cells, flip, (turns - 1) as nat);
        lemma_image_outcome(before, false);
        lemma_image_marks(before, false);
        lemma_image_result(before, false, mover(before), true);
    }
}

/// A move is answered: the player to move marks cell `i` without winning,
/// and unless the game is over, the opponent marks cell `j`, after which the
/// game is over without a win for the first, or stands, laid another way, as
/// a position from which the first cannot win. Then the move does not win.
pub proof fn lemma_answered(cells: Seq<i8>, i: int, j: int, flip: bool, turns: nat, like: Seq<i8>)
    requires
        cells.len() == 9,
        outcome(cells) is None,
        0 <= i < 9,
        cells[i] == EMPTY,
        outcome(cells.update(i, mover(cells))) != Some(mover(cells)),
        outcome(cells.update(i, mover(cells))) is None ==> {
            let after = cells.update(i, mover(cells));
            let next = after.update(j, mover(after));
            &&& 0 <= j < 9
            &&& after[j] == EMPTY
            &&& outcome(next) != Some(mover(cells))
            &&& outcome(next) is None ==> laid(next, flip, turns) =~= like && held(like)
        },
    ensures
        result(cells.update(i, mover(cells)), mover(cells), false) <= 0,
{
    let p = mover(cells);
    let after = cells.update(i, p);
    lemma_turns_alternate(cells, i);
    if outcome(after) is None {
        let q = mover(after);
        let next = after.update(j, q);
        lemma_marks_upto_bound(after, 9, 9);
        lemma_turns_alternate(after, j);
        lemma_result_of_open_position(after, p, false);
        assert(better_result(false, result(after, p, false), result(next, p, true)) == result(
            after,
            p,
            false,
        ));
        if outcome(next) is None {
            lemma_marks_upto_bound(next, 9, 9);
            lemma_move_has_one_owner(after, j, q);
            lemma_held_however_laid(next, flip, turns);
        }
    }
}

/// A board written out cell by cell, row by row. On a board in this form
/// the rules are plain formulas, with no sequence to walk through.
pub struct Grid {
    pub c0: i8,
    pub c1: i8,
    pub c2: i8,
    pub c3: i8,
    pub c4: i8,
    pub c5: i8,
    pub c6: i8,
    pub c7: i8,
    pub c8: i8,
}

/// The board with the given marks on its nine cells.
pub open spec fn grid(c0: i8, c1: i8, c2: i8, c3: i8, c4: i8, c5: i8, c6: i8, c7: i8, c8: i8) -> Grid {
    Grid { c0, c1, c2, c3, c4, c5, c6, c7, c8 }
}

/// One if the cell holds a mark, zero if it is free.
pub open spec fn taken(mark: i8) -> int {
    if mark != EMPTY {
        1
    } else {
        0
    }
}

/// Three equal marks.
pub open spec fn three(a: i8, b: i8, c: i8) -> bool {
    a != EMPTY && b == a && c == a
}

impl Grid {
    /// The board as the sequence of its cells.
    pub open spec fn cells(self) -> Seq<i8> {
        seq![self.c0, self.c1, self.c2, self.c3, self.c4, self.c5, self.c6, self.c7, self.c8]
    }

    /// The mark on cell `k`.
    pub open spec fn at(self, k: int) -> i8 {
        if k == 0 {
            self.c0
        } else if k == 1 {
            self.c1
        } else if k == 2 {
            self.c2
        } else if k == 3 {
            self.c3
        } else if k == 4 {
            self.c4
        } else if k == 5 {
            self.c5
        } else if k == 6 {
            self.c6
        } else if k == 7 {
            self.c7
        } else {
            self.c8
        }
    }

    /// The board with `mark` on cell `k`.
    pub open spec fn put(self, k: int, mark: i8) -> Grid {
        Grid {
            c0: if k == 0 { mark } else { self.c0 },
            c1: if k == 1 { mark } else { self.c1 },
            c2: if k == 2 { mark } else { self.c2 },
            c3: if k == 3 { mark } else { self.c3 },
            c4: if k == 4 { mark } else { self.c4 },
            c5: if k == 5 { mark } else { self.c5 },
            c6: if k == 6 { mark } else { self.c6 },
            c7: if k == 7 { mark } else { self.c7 },
            c8: if k == 8 { mark } else { self.c8 },
        }
    }

    /// The number of marks on the board.
    pub open spec fn count(self) -> int {
        taken(self.c0) + taken(self.c1) + taken(self.c2) + taken(self.c3) + taken(self.c4) + taken(
            self.c5,
        ) + taken(self.c6) + taken(self.c7) + taken(self.c8)
    }

    /// The player to move.
    pub open spec fn to_move(self) -> i8 {
        if self.count() == 9 {
            EMPTY
        } else if self.count() % 2 == 0 {
            X
        } else {
            O
        }
    }

    /// The outcome of the game.
    pub open spec fn ended(self) -> Option<i8> {
        if three(self.c0, self.c1, self.c2) {
            Some(self.c0)
        } else if three(self.c3, self.c4, self.c5) {
            Some(self.c3)
        } else if three(self.c6, self.c7, self.c8) {
            Some(self.c6)
        } else if three(self.c0, self.c3, self.c6) {
            Some(self.c0)
        } else if three(self.c1, self.c4, self.c7) {
            Some(self.c1)
        } else if three(self.c2, self.c5, self.c8) {
            Some(self.c2)
        } else if three(self.c0, self.c4, self.c8) {
            Some(self.c0)
        } else if three(self.c2, self.c4, self.c6) {
            Some(self.c2)
        } else if self.count() == 9 {
            Some(EMPTY)
        } else {
            None
        }
    }

    /// The board after a quarter turn clockwise, or, with `flip`, after the
    /// reflection that swaps left and right.
    pub open spec fn turned(self, flip: bool) -> Grid {
        if flip {
            grid(
                self.c2,
                self.c1,
                self.c0,
                self.c5,
                self.c4,
                self.c3,
                self.c8,
                self.c7,
                self.c6,
            )
        } else {
            grid(
                self.c6,
                self.c3,
                self.c0,
                self.c7,
                self.c4,
                self.c1,
                self.c8,
                self.c5,
                self.c2,
            )
        }
    }

    /// The board after up to three quarter turns, taken after a reflection
    /// where `flip` holds.
    pub open spec fn laid(self, flip: bool, turns: nat) -> Grid {
        let start = if flip {
            self.turned(true)
        } else {
            self
        };
        if turns == 0 {
            start
        } else if turns == 1 {
            start.turned(false)
        } else if turns == 2 {
            start.turned(false).turned(false)
        } else {
            start.turned(false).turned(false).turned(false)
        }
    }

    /// The move on cell `k` is answered by the move on cell `j`: the first
    /// does not win, and unless it ends the game, nor does the game end with
    /// a win for the player who made it after the second, and if it goes on,
    /// it stands as `like` when laid as `flip` and `turns` say.
    pub open spec fn answered(self, k: int, j: int, flip: bool, turns: nat, like: Grid) -> bool {
        let after = self.put(k, self.to_move());
        let next = after.put(j, after.to_move());
        &&& 0 <= k < 9
        &&& self.at(k) == EMPTY
        &&& after.ended() != Some(self.to_move())
        &&& after.ended() is None ==> {
            &&& 0 <= j < 9
            &&& after.at(j) == EMPTY
            &&& next.ended() != Some(self.to_move())
            &&& next.ended() is None ==> turns <= 3 && next.laid(flip, turns) == like
        }
    }

    /// The game goes on after the move on cell `k` and the answer on cell `j`.
    pub open spec fn goes_on(self, k: int, j: int) -> bool {
        let after = self.put(k, self.to_move());
        after.ended() is None && after.put(j, after.to_move()).ended() is None
    }

    /// The move on cell `k` does not win for the player to move.
    pub open spec fn no_win_on(self, k: int) -> bool {
        result(self.cells().update(k, mover(self.cells())), mover(self.cells()), false) <= 0
    }
}

/// The rules on a board written out cell by cell are the rules of the game.
pub proof fn lemma_grid_rules(g: Grid)
    ensures
        g.cells().len() == 9,
        forall|k: int| 0 <= k < 9 ==> #[trigger] g.cells()[k] == g.at(k),
        marks(g.cells()) == g.count(),
        mover(g.cells()) == g.to_move(),
        outcome(g.cells()) == g.ended(),
{
    let cells = g.cells();
    assert(marks(cells) == g.count()) by {
        reveal_with_fuel(marks_upto, 10);
    }
    assert(first_won_line(cells, 0) == (if three(g.c0, g.c1, g.c2) {
        0int
    } else if three(g.c3, g.c4, g.c5) {
        1
    } else if three(g.c6, g.c7, g.c8) {
        2
    } else if three(g.c0, g.c3, g.c6) {
        3
    } else if three(g.c1, g.c4, g.c7) {
        4
    } else if three(g.c2, g.c5, g.c8) {
        5
    } else if three(g.c0, g.c4, g.c8) {
        6
    } else if three(g.c2, g.c4, g.c6) {
        7
    } else {
        8
    })) by {
        reveal_with_fuel(first_won_line, 9);
    }
}

/// A mark, a quarter turn and a reflection on a board written out cell by
/// cell are those on the sequence of its cells.
pub proof fn lemma_grid_changes(g: Grid, k: int, mark: i8, flip: bool, turns: nat)
    ensures
        0 <= k < 9 ==> g.cells().update(k, mark) == g.put(k, mark).cells(),
        image(g.cells(), flip) == g.turned(flip).cells(),
        turns <= 3 ==> laid(g.cells(), flip, turns) == g.laid(flip, turns).cells(),
{
    if 0 <= k < 9 {
        assert(g.cells().update(k, mark) =~= g.put(k, mark).cells());
    }
    assert(image(g.cells(), flip) =~= g.turned(flip).cells());
    let start = if flip {
        g.turned(true)
    } else {
        g
    };
    assert(image(g.cells(), true) =~= g.turned(true).cells());
    assert(laid(g.cells(), flip, 0) == start.cells());
    let once = start.turned(false);
    let twice = once.turned(false);
    let thrice = twice.turned(false);
    assert(image(start.cells(), false) =~= once.cells());
    assert(image(once.cells(), false) =~= twice.cells());
    assert(image(twice.cells(), false) =~= thrice.cells());
    reveal_with_fuel(laid, 4);
}

/// A move that is answered does not win, if the player who made it cannot
/// win from the position in which the answer leaves the game.
pub proof fn lemma_answered_on_grid(g: Grid, k: int, j: int, flip: bool, turns: nat, like: Grid)
    requires
        g.ended() is None,
        g.answered(k, j, flip, turns, like),
        g.goes_on(k, j) ==> held(like.cells()),
    ensures
        g.no_win_on(k),
{
    let after = g.put(k, g.to_move());
    let next = after.put(j, after.to_move());
    lemma_grid_rules(g);
    lemma_grid_rules(after);
    lemma_grid_rules(next);
    lemma_grid_changes(g, k, g.to_move(), flip, turns);
    lemma_grid_changes(after, j, after.to_move(), flip, turns);
    lemma_grid_changes(next, 0, EMPTY, flip, turns);
    assert(g.cells()[k] == g.at(k));
    if after.ended() is None {
        assert(after.cells()[j] == after.at(j));
    }
    lemma_answered(g.cells(), k, j, flip, turns, like.cells());
}

/// A move that ends the game without a win does not win.
pub proof fn lemma_ends_on_grid(g: Grid, k: int)
    requires
        g.ended() is None,
        0 <= k < 9,
        g.at(k) == EMPTY,
        g.put(k, g.to_move()).ended() is Some,
        g.put(k, g.to_move()).ended() != Some(g.to_move()),
    ensures
        g.no_win_on(k),
{
    lemma_answered_on_grid(g, k, 0, false, 0, g);
}

/// A move does not win if the answer to it ends the game without a win
/// for the player who made the move.
pub proof fn lemma_answer_ends_on_grid(g: Grid, k: int, j: int)
    requires
        g.ended() is None,
        0 <= k < 9,
        g.at(k) == EMPTY,
        g.put(k, g.to_move()).ended() is None,
        0 <= j < 9,
        g.put(k, g.to_move()).at(j) == EMPTY,
        g.put(k, g.to_move()).put(j, g.put(k, g.to_move()).to_move()).ended() is Some,
        g.put(k, g.to_move()).put(j, g.put(k, g.to_move()).to_move()).ended() != Some(g.to_move()),
    ensures
        g.no_win_on(k),
{
    lemma_answered_on_grid(g, k, j, false, 0, g);
}

/// Where no move wins, the player to move cannot win.
pub proof fn lemma_held_on_grid(g: Grid)
    requires
        g.ended() is None,
        g.c0 == EMPTY ==> g.no_win_on(0),
        g.c1 == EMPTY ==> g.no_win_on(1),
        g.c2 == EMPTY ==> g.no_win_on(2),
        g.c3 == EMPTY ==> g.no_win_on(3),
        g.c4 == EMPTY ==> g.no_win_on(4),
        g.c5 == EMPTY ==> g.no_win_on(5),
        g.c6 == EMPTY ==> g.no_win_on(6),
        g.c7 == EMPTY ==> g.no_win_on(7),
        g.c8 == EMPTY ==> g.no_win_on(8),
    ensures
        held(g.cells()),
{
    let cells = g.cells();
    lemma_grid_rules(g);
    lemma_result_of_open_position(cells, mover(cells), true);
    let i = choose|i: int|
        0 <= i < 9 && cells[i] == EMPTY && result(cells, mover(cells), true) == result(
            #[trigger] cells.update(i, mover(cells)),
            mover(cells),
            false,
        );
    assert(cells[i] == g.at(i));
    assert(g.no_win_on(i));
}

/// The board before the first move.
pub open spec fn empty_board() -> Seq<i8> {
    grid(EMPTY, EMPTY, EMPTY, EMPTY, EMPTY, EMPTY, EMPTY, EMPTY, EMPTY).cells()
}

/// Tic-tac-toe is a draw: from the empty board neither player can secure
/// more. X cannot win, for O has an answer to every move; and O cannot win
/// once X has opened in the centre, for X has an answer to every move.
pub proof fn lemma_empty_board_is_drawn()
    ensures
        valid_board(empty_board()),
        drawn_under_best_play(empty_board()),
{
    let start = grid(EMPTY, EMPTY, EMPTY, EMPTY, EMPTY, EMPTY, EMPTY, EMPTY, EMPTY);
    let centre = grid(EMPTY, EMPTY, EMPTY, EMPTY, X, EMPTY, EMPTY, EMPTY, EMPTY);
    lemma_grid_rules(start);
    lemma_grid_rules(centre);
    lemma_grid_changes(start, 4, X, false, 0);
    held_eee_eee_eee();
    held_eee_exe_eee();
    assert(valid_board(start.cells()));
    assert(valid_board(centre.cells()));
    assert(start.cells()[4] == EMPTY);
    lemma_result_of_open_position(start.cells(), X, true);
    lemma_results_are_opposite(centre.cells(), X, false);
}

/// A game from the empty board in which every move is a best move is drawn
/// under best play at each of its positions: where it ends, it ends in a
/// draw.
pub proof fn lemma_best_play_from_the_empty_board_is_a_draw(game: Seq<Seq<i8>>, i: int)
    requires
        0 <= i < game.len(),
        game[0] == empty_board(),
        best_play(game),
    ensures
        drawn_under_best_play(game[i]),
        outcome(game[i]) is Some ==> outcome(game[i]) == Some(EMPTY),
{
    lemma_empty_board_is_drawn();
    lemma_best_play_keeps_the_draw(game, i);
}

/// X to move cannot win from `X X O / O O X / X O .`.
pub proof fn held_xxo_oox_xoe()
    ensures
        held(grid(X, X, O, O, O, X, X, O, EMPTY).cells()),
{
    let g = grid(X, X, O, O, O, X, X, O, EMPTY);
    lemma_ends_on_grid(g, 8);
    lemma_held_on_grid(g);
}

/// X to move cannot win from `X X O / O O . / X . .`.
pub proof fn held_xxo_ooe_xee()
    ensures
        held(grid(X, X, O, O, O, EMPTY, X, EMPTY, EMPTY).cells()),
{
    let g = grid(X, X, O, O, O, EMPTY, X, EMPTY, EMPTY);
    held_xxo_oox_xoe();
    lemma_answered_on_grid(g, 5, 7, false, 0, grid(X, X, O, O, O, X, X, O, EMPTY));
    lemma_answer_ends_on_grid(g, 7, 5);
    lemma_answer_ends_on_grid(g, 8, 5);
    lemma_held_on_grid(g);
}

/// X to move cannot win from `X X O / . O . / . . .`.
pub proof fn held_xxo_eoe_eee()
    ensures
        held(grid(X, X, O, EMPTY, O, EMPTY, EMPTY, EMPTY, EMPTY).cells()),
{
    let g = grid(X, X, O, EMPTY, O, EMPTY, EMPTY, EMPTY, EMPTY);
    held_xxo_ooe_xee();
    lemma_answer_ends_on_grid(g, 3, 6);
    lemma_answer_ends_on_grid(g, 5, 6);
    lemma_answered_on_grid(g, 6, 3, false, 0, grid(X, X, O, O, O, EMPTY, X, EMPTY, EMPTY));
    lemma_answer_ends_on_grid(g, 7, 6);
    lemma_answer_ends_on_grid(g, 8, 6);
    lemma_held_on_grid(g);
}

/// X to move cannot win from `X . . / O O X / X O .`.
pub proof fn held_xee_oox_xoe()
    ensures
        held(grid(X, EMPTY, EMPTY, O, O, X, X, O, EMPTY).cells()),
{
    let g = grid(X, EMPTY, EMPTY, O, O, X, X, O, EMPTY);
    held_xxo_oox_xoe();
    lemma_answered_on_grid(g, 1, 2, false, 0, grid(X, X, O, O, O, X, X, O, EMPTY));
    lemma_answer_ends_on_grid(g, 2, 1);
    lemma_answer_ends_on_grid(g, 8, 1);
    lemma_held_on_grid(g);
}

/// X to move cannot win from `X . . / O O . / X . .`.
pub proof fn held_xee_ooe_xee()
    ensures
        held(grid(X, EMPTY, EMPTY, O, O, EMPTY, X, EMPTY, EMPTY).cells()),
{
    let g = grid(X, EMPTY, EMPTY, O, O, EMPTY, X, EMPTY, EMPTY);
    held_xee_oox_xoe();
    lemma_answer_ends_on_grid(g, 1, 5);
    lemma_answer_ends_on_grid(g, 2, 5);
    lemma_answered_on_grid(g, 5, 1, true, 2, grid(X, EMPTY, EMPTY, O, O, X, X, O, EMPTY));
    lemma_answer_ends_on_grid(g, 7, 5);
    lemma_answer_ends_on_grid(g, 8, 5);
    lemma_held_on_grid(g);
}

/// X to move cannot win from `X X O / . O X / . O .`.
pub proof fn held_xxo_eox_eoe()
    ensures
        held(grid(X, X, O, EMPTY, O, X, EMPTY, O, EMPTY).cells()),
{
    let g = grid(X, X, O, EMPTY, O, X, EMPTY, O, EMPTY);
    held_xxo_oox_xoe();
    lemma_answer_ends_on_grid(g, 3, 6);
    lemma_answered_on_grid(g, 6, 3, false, 0, grid(X, X, O, O, O, X, X, O, EMPTY));
    lemma_answer_ends_on_grid(g, 8, 6);
    lemma_held_on_grid(g);
}

/// X to move cannot win from `X . . / . O X / . O .`.
pub proof fn held_xee_eox_eoe()
    ensures
        held(grid(X, EMPTY, EMPTY, EMPTY, O, X, EMPTY, O, EMPTY).cells()),
{
    let g = grid(X, EMPTY, EMPTY, EMPTY, O, X, EMPTY, O, EMPTY);
    held_xxo_eox_eoe();
    lemma_answered_on_grid(g, 1, 2, false, 0, grid(X, X, O, EMPTY, O, X, EMPTY, O, EMPTY));
    lemma_answer_ends_on_grid(g, 2, 1);
    lemma_answer_ends_on_grid(g, 3, 1);
    lemma_answer_ends_on_grid(g, 6, 1);
    lemma_answer_ends_on_grid(g, 8, 1);
    lemma_held_on_grid(g);
}

/// X to move cannot win from `X X O / O O . / X O X`.
pub proof fn held_xxo_ooe_xox()
    ensures
        held(grid(X, X, O, O, O, EMPTY, X, O, X).cells()),
{
    let g = grid(X, X, O, O, O, EMPTY, X, O, X);
    lemma_ends_on_grid(g, 5);
    lemma_held_on_grid(g);
}

/// X to move cannot win from `X X O / . O . / . O X`.
pub proof fn held_xxo_eoe_eox()
    ensures
        held(grid(X, X, O, EMPTY, O, EMPTY, EMPTY, O, X).cells()),
{
    let g = grid(X, X, O, EMPTY, O, EMPTY, EMPTY, O, X);
    held_xxo_ooe_xox();
    lemma_answer_ends_on_grid(g, 3, 6);
    lemma_answer_ends_on_grid(g, 5, 6);
    lemma_answered_on_grid(g, 6, 3, false, 0, grid(X, X, O, O, O, EMPTY, X, O, X));
    lemma_held_on_grid(g);
}

/// X to move cannot win from `X . . / . O . / . O X`.
pub proof fn held_xee_eoe_eox()
    ensures
        held(grid(X, EMPTY, EMPTY, EMPTY, O, EMPTY, EMPTY, O, X).cells()),
{
    let g = grid(X, EMPTY, EMPTY, EMPTY, O, EMPTY, EMPTY, O, X);
    held_xxo_eoe_eox();
    lemma_answered_on_grid(g, 1, 2, false, 0, grid(X, X, O, EMPTY, O, EMPTY, EMPTY, O, X));
    lemma_answer_ends_on_grid(g, 2, 1);
    lemma_answer_ends_on_grid(g, 3, 1);
    lemma_answer_ends_on_grid(g, 5, 1);
    lemma_answer_ends_on_grid(g, 6, 1);
    lemma_held_on_grid(g);
}

/// X to move cannot win from `X . . / . O . / . . .`.
pub proof fn held_xee_eoe_eee()
    ensures
        held(grid(X, EMPTY, EMPTY, EMPTY, O, EMPTY, EMPTY, EMPTY, EMPTY).cells()),
{
    let g = grid(X, EMPTY, EMPTY, EMPTY, O, EMPTY, EMPTY, EMPTY, EMPTY);
    held_xxo_eoe_eee();
    held_xee_ooe_xee();
    held_xee_eox_eoe();
    held_xee_eoe_eox();
    lemma_answered_on_grid(g, 1, 2, false, 0, grid(X, X, O, EMPTY, O, EMPTY, EMPTY, EMPTY, EMPTY));
    lemma_answered_on_grid(g, 2, 1, false, 3, grid(X, EMPTY, EMPTY, O, O, EMPTY, X, EMPTY, EMPTY));
    lemma_answered_on_grid(g, 3, 6, true, 3, grid(X, X, O, EMPTY, O, EMPTY, EMPTY, EMPTY, EMPTY));
    lemma_answered_on_grid(g, 5, 7, false, 0, grid(X, EMPTY, EMPTY, EMPTY, O, X, EMPTY, O, EMPTY));
    lemma_answered_on_grid(g, 6, 3, false, 0, grid(X, EMPTY, EMPTY, O, O, EMPTY, X, EMPTY, EMPTY));
    lemma_answered_on_grid(g, 7, 5, true, 3, grid(X, EMPTY, EMPTY, EMPTY, O, X, EMPTY, O, EMPTY));
    lemma_answered_on_grid(g, 8, 1, false, 2, grid(X, EMPTY, EMPTY, EMPTY, O, EMPTY, EMPTY, O, X));
    lemma_held_on_grid(g);
}

/// X to move cannot win from `X X O / O O X / X . O`.
pub proof fn held_xxo_oox_xeo()
    ensures
        held(grid(X, X, O, O, O, X, X, EMPTY, O).cells()),
{
    let g = grid(X, X, O, O, O, X, X, EMPTY, O);
    lemma_ends_on_grid(g, 7);
    lemma_held_on_grid(g);
}

/// X to move cannot win from `X . . / . O X / O X O`.
pub proof fn held_xee_eox_oxo()
    ensures
        held(grid(X, EMPTY, EMPTY, EMPTY, O, X, O, X, O).cells()),
{
    let g = grid(X, EMPTY, EMPTY, EMPTY, O, X, O, X, O);
    held_xxo_oox_xeo();
    lemma_answer_ends_on_grid(g, 1, 2);
    lemma_answered_on_grid(g, 2, 1, false, 3, grid(X, X, O, O, O, X, X, EMPTY, O));
    lemma_answer_ends_on_grid(g, 3, 2);
    lemma_held_on_grid(g);
}

/// X to move cannot win from `. X O / . O X / . . .`.
pub proof fn held_exo_eox_eee()
    ensures
        held(grid(EMPTY, X, O, EMPTY, O, X, EMPTY, EMPTY, EMPTY).cells()),
{
    let g = grid(EMPTY, X, O, EMPTY, O, X, EMPTY, EMPTY, EMPTY);
    held_xee_eox_oxo();
    lemma_answer_ends_on_grid(g, 0, 6);
    lemma_answer_ends_on_grid(g, 3, 6);
    lemma_answered_on_grid(g, 6, 0, true, 2, grid(X, EMPTY, EMPTY, EMPTY, O, X, O, X, O));
    lemma_answer_ends_on_grid(g, 7, 6);
    lemma_answer_ends_on_grid(g, 8, 6);
    lemma_held_on_grid(g);
}

/// X to move cannot win from `X X O / . O . / . X O`.
pub proof fn held_xxo_eoe_exo()
    ensures
        held(grid(X, X, O, EMPTY, O, EMPTY, EMPTY, X, O).cells()),
{
    let g = grid(X, X, O, EMPTY, O, EMPTY, EMPTY, X, O);
    lemma_answer_ends_on_grid(g, 3, 5);
    lemma_answer_ends_on_grid(g, 5, 6);
    lemma_answer_ends_on_grid(g, 6, 5);
    lemma_held_on_grid(g);
}

/// X to move cannot win from `. X . / . O . / . X O`.
pub proof fn held_exe_eoe_exo()
    ensures
        held(grid(EMPTY, X, EMPTY, EMPTY, O, EMPTY, EMPTY, X, O).cells()),
{
    let g = grid(EMPTY, X, EMPTY, EMPTY, O, EMPTY, EMPTY, X, O);
    held_xxo_eoe_exo();
    lemma_answered_on_grid(g, 0, 2, false, 0, grid(X, X, O, EMPTY, O, EMPTY, EMPTY, X, O));
    lemma_answer_ends_on_grid(g, 2, 0);
    lemma_answer_ends_on_grid(g, 3, 0);
    lemma_answer_ends_on_grid(g, 5, 0);
    lemma_answer_ends_on_grid(g, 6, 0);
    lemma_held_on_grid(g);
}

/// X to move cannot win from `. X . / . O . / . . .`.
pub proof fn held_exe_eoe_eee()
    ensures
        held(grid(EMPTY, X, EMPTY, EMPTY, O, EMPTY, EMPTY, EMPTY, EMPTY).cells()),
{
    let g = grid(EMPTY, X, EMPTY, EMPTY, O, EMPTY, EMPTY, EMPTY, EMPTY);
    held_xxo_eoe_eee();
    held_exo_eox_eee();
    held_xee_eox_eoe();
    held_exe_eoe_exo();
    lemma_answered_on_grid(g, 0, 2, false, 0, grid(X, X, O, EMPTY, O, EMPTY, EMPTY, EMPTY, EMPTY));
    lemma_answered_on_grid(g, 2, 0, true, 0, grid(X, X, O, EMPTY, O, EMPTY, EMPTY, EMPTY, EMPTY));
    lemma_answered_on_grid(g, 3, 0, false, 1, grid(EMPTY, X, O, EMPTY, O, X, EMPTY, EMPTY, EMPTY));
    lemma_answered_on_grid(g, 5, 2, false, 0, grid(EMPTY, X, O, EMPTY, O, X, EMPTY, EMPTY, EMPTY));
    lemma_answered_on_grid(g, 6, 5, false, 1, grid(X, EMPTY, EMPTY, EMPTY, O, X, EMPTY, O, EMPTY));
    lemma_answered_on_grid(g, 7, 0, false, 2, grid(EMPTY, X, EMPTY, EMPTY, O, EMPTY, EMPTY, X, O));
    lemma_answered_on_grid(g, 8, 3, true, 1, grid(X, EMPTY, EMPTY, EMPTY, O, X, EMPTY, O, EMPTY));
    lemma_held_on_grid(g);
}

/// X to move cannot win from `X X O / O X X / . O O`.
pub proof fn held_xxo_oxx_eoo()
    ensures
        held(grid(X, X, O, O, X, X, EMPTY, O, O).cells()),
{
    let g = grid(X, X, O, O, X, X, EMPTY, O, O);
    lemma_ends_on_grid(g, 6);
    lemma_held_on_grid(g);
}

/// X to move cannot win from `X . O / O X X / X O O`.
pub proof fn held_xeo_oxx_xoo()
    ensures
        held(grid(X, EMPTY, O, O, X, X, X, O, O).cells()),
{
    let g = grid(X, EMPTY, O, O, X, X, X, O, O);
    lemma_ends_on_grid(g, 1);
    lemma_held_on_grid(g);
}

/// X to move cannot win from `X O . / O X X / O X O`.
pub proof fn held_xoe_oxx_oxo()
    ensures
        held(grid(X, O, EMPTY, O, X, X, O, X, O).cells()),
{
    let g = grid(X, O, EMPTY, O, X, X, O, X, O);
    lemma_ends_on_grid(g, 2);
    lemma_held_on_grid(g);
}

/// X to move cannot win from `X . O / O X X / . . O`.
pub proof fn held_xeo_oxx_eeo()
    ensures
        held(grid(X, EMPTY, O, O, X, X, EMPTY, EMPTY, O).cells()),
{
    let g = grid(X, EMPTY, O, O, X, X, EMPTY, EMPTY, O);
    held_xxo_oxx_eoo();
    held_xeo_oxx_xoo();
    held_xoe_oxx_oxo();
    lemma_answered_on_grid(g, 1, 7, false, 0, grid(X, X, O, O, X, X, EMPTY, O, O));
    lemma_answered_on_grid(g, 6, 1, true, 2, grid(X, EMPTY, O, O, X, X, X, O, O));
    lemma_answered_on_grid(g, 7, 1, true, 3, grid(X, O, EMPTY, O, X, X, O, X, O));
    lemma_held_on_grid(g);
}

/// X to move cannot win from `X . . / . X . / O . O`.
pub proof fn held_xee_exe_oeo()
    ensures
        held(grid(X, EMPTY, EMPTY, EMPTY, X, EMPTY, O, EMPTY, O).cells()),
{
    let g = grid(X, EMPTY, EMPTY, EMPTY, X, EMPTY, O, EMPTY, O);
    held_xeo_oxx_eeo();
    lemma_answer_ends_on_grid(g, 1, 7);
    lemma_answer_ends_on_grid(g, 2, 7);
    lemma_answer_ends_on_grid(g, 3, 7);
    lemma_answer_ends_on_grid(g, 5, 7);
    lemma_answered_on_grid(g, 7, 1, true, 3, grid(X, EMPTY, O, O, X, X, EMPTY, EMPTY, O));
    lemma_held_on_grid(g);
}

/// X to move cannot win from `X . . / O X X / O . O`.
pub proof fn held_xee_oxx_oeo()
    ensures
        held(grid(X, EMPTY, EMPTY, O, X, X, O, EMPTY, O).cells()),
{
    let g = grid(X, EMPTY, EMPTY, O, X, X, O, EMPTY, O);
    held_xoe_oxx_oxo();
    lemma_answer_ends_on_grid(g, 1, 7);
    lemma_answer_ends_on_grid(g, 2, 7);
    lemma_answered_on_grid(g, 7, 1, false, 0, grid(X, O, EMPTY, O, X, X, O, X, O));
    lemma_held_on_grid(g);
}

/// X to move cannot win from `. X . / . X . / . O O`.
pub proof fn held_exe_exe_eoo()
    ensures
        held(grid(EMPTY, X, EMPTY, EMPTY, X, EMPTY, EMPTY, O, O).cells()),
{
    let g = grid(EMPTY, X, EMPTY, EMPTY, X, EMPTY, EMPTY, O, O);
    held_xee_oxx_oeo();
    lemma_answer_ends_on_grid(g, 0, 6);
    lemma_answer_ends_on_grid(g, 2, 6);
    lemma_answer_ends_on_grid(g, 3, 6);
    lemma_answer_ends_on_grid(g, 5, 6);
    lemma_answered_on_grid(g, 6, 2, false, 1, grid(X, EMPTY, EMPTY, O, X, X, O, EMPTY, O));
    lemma_held_on_grid(g);
}

/// X to move cannot win from `X X O / . X . / . O O`.
pub proof fn held_xxo_exe_eoo()
    ensures
        held(grid(X, X, O, EMPTY, X, EMPTY, EMPTY, O, O).cells()),
{
    let g = grid(X, X, O, EMPTY, X, EMPTY, EMPTY, O, O);
    lemma_answer_ends_on_grid(g, 3, 5);
    lemma_answer_ends_on_grid(g, 5, 6);
    lemma_answer_ends_on_grid(g, 6, 5);
    lemma_held_on_grid(g);
}

/// X to move cannot win from `. X . / X X O / O O .`.
pub proof fn held_exe_xxo_ooe()
    ensures
        held(grid(EMPTY, X, EMPTY, X, X, O, O, O, EMPTY).cells()),
{
    let g = grid(EMPTY, X, EMPTY, X, X, O, O, O, EMPTY);
    held_xoe_oxx_oxo();
    lemma_answer_ends_on_grid(g, 0, 8);
    lemma_answer_ends_on_grid(g, 2, 8);
    lemma_answered_on_grid(g, 8, 0, true, 1, grid(X, O, EMPTY, O, X, X, O, X, O));
    lemma_held_on_grid(g);
}

/// X to move cannot win from `. X O / O X X / . O .`.
pub proof fn held_exo_oxx_eoe()
    ensures
        held(grid(EMPTY, X, O, O, X, X, EMPTY, O, EMPTY).cells()),
{
    let g = grid(EMPTY, X, O, O, X, X, EMPTY, O, EMPTY);
    held_xxo_oxx_eoo();
    held_xoe_oxx_oxo();
    lemma_answered_on_grid(g, 0, 8, false, 0, grid(X, X, O, O, X, X, EMPTY, O, O));
    lemma_answered_on_grid(g, 6, 0, true, 2, grid(X, O, EMPTY, O, X, X, O, X, O));
    lemma_answered_on_grid(g, 8, 0, true, 1, grid(X, X, O, O, X, X, EMPTY, O, O));
    lemma_held_on_grid(g);
}

/// X to move cannot win from `. X O / . X . / . O .`.
pub proof fn held_exo_exe_eoe()
    ensures
        held(grid(EMPTY, X, O, EMPTY, X, EMPTY, EMPTY, O, EMPTY).cells()),
{
    let g = grid(EMPTY, X, O, EMPTY, X, EMPTY, EMPTY, O, EMPTY);
    held_xxo_exe_eoo();
    held_exe_xxo_ooe();
    held_exo_oxx_eoe();
    held_xeo_oxx_eeo();
    lemma_answered_on_grid(g, 0, 8, false, 0, grid(X, X, O, EMPTY, X, EMPTY, EMPTY, O, O));
    lemma_answered_on_grid(g, 3, 5, true, 3, grid(EMPTY, X, EMPTY, X, X, O, O, O, EMPTY));
    lemma_answered_on_grid(g, 5, 3, false, 0, grid(EMPTY, X, O, O, X, X, EMPTY, O, EMPTY));
    lemma_answered_on_grid(g, 6, 0, false, 1, grid(X, EMPTY, O, O, X, X, EMPTY, EMPTY, O));
    lemma_answered_on_grid(g, 8, 0, true, 1, grid(X, EMPTY, O, O, X, X, EMPTY, EMPTY, O));
    lemma_held_on_grid(g);
}

/// X to move cannot win from `. . . / . X . / . . O`.
pub proof fn held_eee_exe_eeo()
    ensures
        held(grid(EMPTY, EMPTY, EMPTY, EMPTY, X, EMPTY, EMPTY, EMPTY, O).cells()),
{
    let g = grid(EMPTY, EMPTY, EMPTY, EMPTY, X, EMPTY, EMPTY, EMPTY, O);
    held_xee_exe_oeo();
    held_exe_exe_eoo();
    held_exo_exe_eoe();
    lemma_answered_on_grid(g, 0, 2, true, 3, grid(X, EMPTY, EMPTY, EMPTY, X, EMPTY, O, EMPTY, O));
    lemma_answered_on_grid(g, 1, 7, false, 0, grid(EMPTY, X, EMPTY, EMPTY, X, EMPTY, EMPTY, O, O));
    lemma_answered_on_grid(g, 2, 6, true, 0, grid(X, EMPTY, EMPTY, EMPTY, X, EMPTY, O, EMPTY, O));
    lemma_answered_on_grid(g, 3, 5, true, 3, grid(EMPTY, X, EMPTY, EMPTY, X, EMPTY, EMPTY, O, O));
    lemma_answered_on_grid(g, 5, 3, false, 3, grid(EMPTY, X, O, EMPTY, X, EMPTY, EMPTY, O, EMPTY));
    lemma_answered_on_grid(g, 6, 2, false, 1, grid(X, EMPTY, EMPTY, EMPTY, X, EMPTY, O, EMPTY, O));
    lemma_answered_on_grid(g, 7, 1, true, 2, grid(EMPTY, X, O, EMPTY, X, EMPTY, EMPTY, O, EMPTY));
    lemma_held_on_grid(g);
}

/// X to move cannot win from `. . . / . . . / . . .`.
pub proof fn held_eee_eee_eee()
    ensures
        held(grid(EMPTY, EMPTY, EMPTY, EMPTY, EMPTY, EMPTY, EMPTY, EMPTY, EMPTY).cells()),
{
    let g = grid(EMPTY, EMPTY, EMPTY, EMPTY, EMPTY, EMPTY, EMPTY, EMPTY, EMPTY);
    held_xee_eoe_eee();
    held_exe_eoe_eee();
    held_eee_exe_eeo();
    lemma_answered_on_grid(
        g,
        0,
        4,
        false,
        0,
        grid(X, EMPTY, EMPTY, EMPTY, O, EMPTY, EMPTY, EMPTY, EMPTY),
    );
    lemma_answered_on_grid(
        g,
        1,
        4,
        false,
        0,
        grid(EMPTY, X, EMPTY, EMPTY, O, EMPTY, EMPTY, EMPTY, EMPTY),
    );
    lemma_answered_on_grid(
        g,
        2,
        4,
        false,
        3,
        grid(X, EMPTY, EMPTY, EMPTY, O, EMPTY, EMPTY, EMPTY, EMPTY),
    );
    lemma_answered_on_grid(
        g,
        3,
        4,
        false,
        1,
        grid(EMPTY, X, EMPTY, EMPTY, O, EMPTY, EMPTY, EMPTY, EMPTY),
    );
    lemma_answered_on_grid(
        g,
        4,
        0,
        false,
        2,
        grid(EMPTY, EMPTY, EMPTY, EMPTY, X, EMPTY, EMPTY, EMPTY, O),
    );
    lemma_answered_on_grid(
        g,
        5,
        4,
        false,
        3,
        grid(EMPTY, X, EMPTY, EMPTY, O, EMPTY, EMPTY, EMPTY, EMPTY),
    );
    lemma_answered_on_grid(
        g,
        6,
        4,
        false,
        1,
        grid(X, EMPTY, EMPTY, EMPTY, O, EMPTY, EMPTY, EMPTY, EMPTY),
    );
    lemma_answered_on_grid(
        g,
        7,
        4,
        false,
        2,
        grid(EMPTY, X, EMPTY, EMPTY, O, EMPTY, EMPTY, EMPTY, EMPTY),
    );
    lemma_answered_on_grid(
        g,
        8,
        4,
        false,
        2,
        grid(X, EMPTY, EMPTY, EMPTY, O, EMPTY, EMPTY, EMPTY, EMPTY),
    );
    lemma_held_on_grid(g);
}

/// O to move cannot win from `X O . / O X X / O X .`.
pub proof fn held_xoe_oxx_oxe()
    ensures
        held(grid(X, O, EMPTY, O, X, X, O, X, EMPTY).cells()),
{
    let g = grid(X, O, EMPTY, O, X, X, O, X, EMPTY);
    lemma_answer_ends_on_grid(g, 2, 8);
    lemma_answer_ends_on_grid(g, 8, 2);
    lemma_held_on_grid(g);
}

/// O to move cannot win from `. X . / X X O / O . .`.
pub proof fn held_exe_xxo_oee()
    ensures
        held(grid(EMPTY, X, EMPTY, X, X, O, O, EMPTY, EMPTY).cells()),
{
    let g = grid(EMPTY, X, EMPTY, X, X, O, O, EMPTY, EMPTY);
    held_xoe_oxx_oxe();
    lemma_answer_ends_on_grid(g, 0, 7);
    lemma_answer_ends_on_grid(g, 2, 7);
    lemma_answered_on_grid(g, 7, 8, true, 1, grid(X, O, EMPTY, O, X, X, O, X, EMPTY));
    lemma_answer_ends_on_grid(g, 8, 7);
    lemma_held_on_grid(g);
}

/// O to move cannot win from `. X O / . X . / . . .`.
pub proof fn held_exo_exe_eee()
    ensures
        held(grid(EMPTY, X, O, EMPTY, X, EMPTY, EMPTY, EMPTY, EMPTY).cells()),
{
    let g = grid(EMPTY, X, O, EMPTY, X, EMPTY, EMPTY, EMPTY, EMPTY);
    held_exe_xxo_oee();
    lemma_answer_ends_on_grid(g, 0, 7);
    lemma_answer_ends_on_grid(g, 3, 7);
    lemma_answer_ends_on_grid(g, 5, 7);
    lemma_answer_ends_on_grid(g, 6, 7);
    lemma_answered_on_grid(g, 7, 3, true, 3, grid(EMPTY, X, EMPTY, X, X, O, O, EMPTY, EMPTY));
    lemma_answer_ends_on_grid(g, 8, 7);
    lemma_held_on_grid(g);
}

/// O to move cannot win from `X X . / O X . / . . O`.
pub proof fn held_xxe_oxe_eeo()
    ensures
        held(grid(X, X, EMPTY, O, X, EMPTY, EMPTY, EMPTY, O).cells()),
{
    let g = grid(X, X, EMPTY, O, X, EMPTY, EMPTY, EMPTY, O);
    lemma_answer_ends_on_grid(g, 2, 7);
    lemma_answer_ends_on_grid(g, 5, 2);
    lemma_answer_ends_on_grid(g, 6, 2);
    lemma_answer_ends_on_grid(g, 7, 2);
    lemma_held_on_grid(g);
}

/// O to move cannot win from `X . . / O X . / . . .`.
pub proof fn held_xee_oxe_eee()
    ensures
        held(grid(X, EMPTY, EMPTY, O, X, EMPTY, EMPTY, EMPTY, EMPTY).cells()),
{
    let g = grid(X, EMPTY, EMPTY, O, X, EMPTY, EMPTY, EMPTY, EMPTY);
    held_xxe_oxe_eeo();
    lemma_answer_ends_on_grid(g, 1, 8);
    lemma_answer_ends_on_grid(g, 2, 8);
    lemma_answer_ends_on_grid(g, 5, 8);
    lemma_answer_ends_on_grid(g, 6, 8);
    lemma_answer_ends_on_grid(g, 7, 8);
    lemma_answered_on_grid(g, 8, 1, false, 0, grid(X, X, EMPTY, O, X, EMPTY, EMPTY, EMPTY, O));
    lemma_held_on_grid(g);
}

/// O to move cannot win from `. . . / . X . / . . .`.
pub proof fn held_eee_exe_eee()
    ensures
        held(grid(EMPTY, EMPTY, EMPTY, EMPTY, X, EMPTY, EMPTY, EMPTY, EMPTY).cells()),
{
    let g = grid(EMPTY, EMPTY, EMPTY, EMPTY, X, EMPTY, EMPTY, EMPTY, EMPTY);
    held_exo_exe_eee();
    held_xee_oxe_eee();
    lemma_answered_on_grid(
        g,
        0,
        1,
        true,
        0,
        grid(EMPTY, X, O, EMPTY, X, EMPTY, EMPTY, EMPTY, EMPTY),
    );
    lemma_answered_on_grid(
        g,
        1,
        0,
        true,
        3,
        grid(X, EMPTY, EMPTY, O, X, EMPTY, EMPTY, EMPTY, EMPTY),
    );
    lemma_answered_on_grid(
        g,
        2,
        1,
        false,
        0,
        grid(EMPTY, X, O, EMPTY, X, EMPTY, EMPTY, EMPTY, EMPTY),
    );
    lemma_answered_on_grid(
        g,
        3,
        0,
        false,
        0,
        grid(X, EMPTY, EMPTY, O, X, EMPTY, EMPTY, EMPTY, EMPTY),
    );
    lemma_answered_on_grid(
        g,
        5,
        2,
        true,
        0,
        grid(X, EMPTY, EMPTY, O, X, EMPTY, EMPTY, EMPTY, EMPTY),
    );
    lemma_answered_on_grid(
        g,
        6,
        3,
        true,
        3,
        grid(EMPTY, X, O, EMPTY, X, EMPTY, EMPTY, EMPTY, EMPTY),
    );
    lemma_answered_on_grid(
        g,
        7,
        6,
        false,
        1,
        grid(X, EMPTY, EMPTY, O, X, EMPTY, EMPTY, EMPTY, EMPTY),
    );
    lemma_answered_on_grid(
        g,
        8,
        5,
        false,
        3,
        grid(EMPTY, X, O, EMPTY, X, EMPTY, EMPTY, EMPTY, EMPTY),
    );
    lemma_held_on_grid(g);
}

} // verus!
