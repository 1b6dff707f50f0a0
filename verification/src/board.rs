//! The board and its rules: whose turn it is, who has won, placing a mark.

use vstd::prelude::*;

verus! {

/// Nine cells in row-major order: index `3 * row + column`.
pub type GameState = [i8; 9];

/// The mark of the player who moves first.
pub const X: i8 = -1;

/// The mark of the player who moves second.
pub const O: i8 = 1;

/// A cell without a mark. Also stands for "nobody": no mover, no winner.
pub const EMPTY: i8 = 0;

/// How many of the first `n` cells hold a mark.
pub open spec fn marks_upto(cells: Seq<i8>, n: nat) -> nat
    decreases n,
{
    if n == 0 {
        0
    } else {
        marks_upto(cells, (n - 1) as nat) + if cells[n - 1] != EMPTY {
            1nat
        } else {
            0nat
        }
    }
}

/// How many cells of the board hold a mark.
pub open spec fn marks(cells: Seq<i8>) -> nat {
    marks_upto(cells, cells.len())
}

/// The player to move: nobody on a full board, otherwise `X` after an even
/// number of marks and `O` after an odd number.
pub open spec fn mover(cells: Seq<i8>) -> i8 {
    if marks(cells) == 9 {
        EMPTY
    } else if marks(cells) % 2 == 0 {
        X
    } else {
        O
    }
}

/// How many cells of the board are free. No more moves than that can follow.
pub open spec fn free_cells(cells: Seq<i8>) -> nat {
    if marks(cells) <= cells.len() {
        (cells.len() - marks(cells)) as nat
    } else {
        0
    }
}

/// The other player; nobody has nobody for an opponent.
pub open spec fn opponent(player: i8) -> i8 {
    if player == X {
        O
    } else if player == O {
        X
    } else {
        EMPTY
    }
}

/// The three cells of line `k`. Lines 0 to 2 are the rows from the top,
/// 3 to 5 the columns from the left, 6 and 7 the two diagonals.
pub open spec fn line(k: int) -> (int, int, int) {
    if 0 <= k < 3 {
        (3 * k, 3 * k + 1, 3 * k + 2)
    } else if 3 <= k < 6 {
        (k - 3, k, k + 3)
    } else if k == 6 {
        (0, 4, 8)
    } else {
        (2, 4, 6)
    }
}

/// Line `k` holds three equal marks.
pub open spec fn line_won(cells: Seq<i8>, k: int) -> bool {
    let (a, b, c) = line(k);
    cells[a] != EMPTY && cells[b] == cells[a] && cells[c] == cells[a]
}

/// The least line index from `from` on whose line is won, or 8 if there is none.
pub open spec fn first_won_line(cells: Seq<i8>, from: int) -> int
    decreases 8 - from,
{
    if from >= 8 {
        8
    } else if line_won(cells, from) {
        from
    } else {
        first_won_line(cells, from + 1)
    }
}

/// The state of the game: `Some(mark)` when `mark` owns the first won line,
/// `Some(EMPTY)` for a draw (no line won, no cell free), `None` while the game
/// is still open.
pub open spec fn outcome(cells: Seq<i8>) -> Option<i8> {
    let k = first_won_line(cells, 0);
    if k < 8 {
        Some(cells[line(k).0])
    } else if marks(cells) == 9 {
        Some(EMPTY)
    } else {
        None
    }
}

/// Tells whose turn it is, from the number of marks on the board.
pub fn whos_turn(game_state: GameState) -> (player: i8)
    ensures
        player == mover(game_state@),
{
    let mut count: u8 = 0;
    let mut i: usize = 0;
    while i < 9
        invariant
            i <= 9,
            count <= i,
            count == marks_upto(game_state@, i as nat),
        decreases 9 - i,
    {
        if game_state[i] != EMPTY {
            count += 1;
        }
        i += 1;
    }
    if count == 9 {
        EMPTY
    } else if count % 2 == 0 {
        X
    } else {
        O
    }
}

/// The cells of line `k`, for the executable code.
fn line_cells(k: usize) -> (cells: (usize, usize, usize))
    requires
        k < 8,
    ensures
        cells.0 == line(k as int).0,
        cells.1 == line(k as int).1,
        cells.2 == line(k as int).2,
        cells.0 < 9,
        cells.1 < 9,
        cells.2 < 9,
{
    if k < 3 {
        (3 * k, 3 * k + 1, 3 * k + 2)
    } else if k < 6 {
        (k - 3, k, k + 3)
    } else if k == 6 {
        (0, 4, 8)
    } else {
        (2, 4, 6)
    }
}

/// Looks for a winner. The eight lines are tried in a fixed order, rows, then
/// columns, then diagonals, and the first line that holds three equal marks
/// decides. Without such a line a full board is a draw, `Some(EMPTY)`, and
/// any other board is still open, `None`.
pub fn check_winner(game_state: GameState) -> (winner: Option<i8>)
    ensures
        winner == outcome(game_state@),
{
    let mut k: usize = 0;
    while k < 8
        invariant
            k <= 8,
            first_won_line(game_state@, 0) == first_won_line(game_state@, k as int),
        decreases 8 - k,
    {
        let (a, b, c) = line_cells(k);
        let player = game_state[a];
        if player != EMPTY && game_state[b] == player && game_state[c] == player {
            return Some(player);
        }
        k += 1;
    }
    let mut i: usize = 0;
    while i < 9
        invariant
            i <= 9,
            first_won_line(game_state@, 0) == 8,
            marks_upto(game_state@, i as nat) == i,
        decreases 9 - i,
    {
        if game_state[i] == EMPTY {
            proof {
                lemma_marks_upto_bound(game_state@, (i + 1) as nat, 9);
            }
            return None;
        }
        i += 1;
    }
    Some(EMPTY)
}

/// Places the mover's mark on cell `index`. Whether the cell is free is the
/// caller's concern: a mark that is already there is overwritten.
pub fn play_move(game_state: GameState, index: usize) -> (next: GameState)
    requires
        index < 9,
    ensures
        next@ == game_state@.update(index as int, mover(game_state@)),
{
    let mut next = game_state;
    let player = whos_turn(game_state);
    next[index] = player;
    next
}

/// A prefix never holds more marks than it has cells, and a longer prefix
/// holds at most as many more marks as it has more cells.
pub proof fn lemma_marks_upto_bound(cells: Seq<i8>, n: nat, m: nat)
    requires
        n <= m,
    ensures
        marks_upto(cells, n) <= n,
        marks_upto(cells, n) <= marks_upto(cells, m) <= marks_upto(cells, n) + (m - n),
    decreases m,
{
    if n < m {
        lemma_marks_upto_bound(cells, n, (m - 1) as nat);
    } else if n > 0 {
        lemma_marks_upto_bound(cells, (n - 1) as nat, (n - 1) as nat);
    }
}

/// Writing a cell changes the count of marks among the first `n` cells by
/// what that cell adds to it, if it is among them.
pub proof fn lemma_marks_upto_after_update(cells: Seq<i8>, index: int, mark: i8, n: nat)
    requires
        0 <= index < cells.len(),
        n <= cells.len(),
    ensures
        index >= n ==> marks_upto(cells.update(index, mark), n) == marks_upto(cells, n),
        index < n ==> marks_upto(cells.update(index, mark), n) + (if cells[index] != EMPTY {
            1nat
        } else {
            0nat
        }) == marks_upto(cells, n) + (if mark != EMPTY {
            1nat
        } else {
            0nat
        }),
    decreases n,
{
    if n > 0 {
        lemma_marks_upto_after_update(cells, index, mark, (n - 1) as nat);
    }
}

/// A mark on a free cell is one mark more, and one free cell less.
pub proof fn lemma_marks_after_placing(cells: Seq<i8>, index: int, mark: i8)
    requires
        0 <= index < cells.len(),
        cells[index] == EMPTY,
        mark != EMPTY,
    ensures
        marks(cells.update(index, mark)) == marks(cells) + 1,
        marks(cells) < cells.len(),
        free_cells(cells.update(index, mark)) + 1 == free_cells(cells),
{
    lemma_marks_upto_after_update(cells, index, mark, cells.len());
    lemma_marks_upto_bound(cells.update(index, mark), cells.len(), cells.len());
}

/// The turn passes from one player to the other with every mark placed on a
/// free cell, until the last cell is taken and nobody is left to move.
pub proof fn lemma_turns_alternate(cells: Seq<i8>, index: int)
    requires
        cells.len() == 9,
        0 <= index < 9,
        cells[index] == EMPTY,
    ensures
        mover(cells) == X || mover(cells) == O,
        marks(cells.update(index, mover(cells))) == marks(cells) + 1,
        marks(cells) < 8 ==> mover(cells.update(index, mover(cells))) == opponent(mover(cells)),
        marks(cells) == 8 ==> mover(cells.update(index, mover(cells))) == EMPTY,
{
    lemma_marks_upto_after_update(cells, index, X, 9);
    lemma_marks_upto_bound(cells.update(index, X), 9, 9);
    lemma_marks_after_placing(cells, index, mover(cells));
}

} // verus!
