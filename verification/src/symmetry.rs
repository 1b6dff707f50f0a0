//! The symmetries of the board: a quarter turn and a reflection, and with
//! them all eight ways to lay the square on itself. Nothing that matters to
//! the game changes under them: the lines go to lines, so a position and its
//! image have the same result under best play.

use crate::board::{
    first_won_line, free_cells, lemma_marks_after_placing, line, line_won, marks, marks_upto,
    mover, outcome, EMPTY,
};
use crate::play::{better_result, lemma_result_of_open_position, result};
use vstd::prelude::*;

verus! {

/// The cell of a board that shows at cell `i` of its image: under a quarter
/// turn clockwise, or, with `flip`, under the reflection that swaps left and
/// right.
pub open spec fn source(flip: bool, i: int) -> int {
    if flip {
        3 * (i / 3) + 2 - i % 3
    } else {
        6 - 3 * (i % 3) + i / 3
    }
}

/// The cell of the image at which cell `i` of a board shows.
pub open spec fn target(flip: bool, i: int) -> int {
    if flip {
        3 * (i / 3) + 2 - i % 3
    } else {
        3 * (i % 3) + 2 - i / 3
    }
}

/// The board turned a quarter clockwise, or reflected.
pub open spec fn image(cells: Seq<i8>, flip: bool) -> Seq<i8> {
    Seq::new(9, |i: int| cells[source(flip, i)])
}

/// All complete lines, if there are any, belong to one player.
pub open spec fn one_owner(cells: Seq<i8>) -> bool {
    forall|k: int|
        0 <= k < 8 && #[trigger] line_won(cells, k) ==> cells[line(k).0] == cells[line(
            first_won_line(cells, 0),
        ).0]
}

/// `source` and `target` are inverse permutations of the nine cells.
pub proof fn lemma_cells_correspond(flip: bool, i: int)
    requires
        0 <= i < 9,
    ensures
        0 <= source(flip, i) < 9,
        0 <= target(flip, i) < 9,
        source(flip, target(flip, i)) == i,
        target(flip, source(flip, i)) == i,
{
}

/// A mark on a cell of the board is a mark on the corresponding cell of the
/// image.
pub proof fn lemma_image_of_move(cells: Seq<i8>, flip: bool, i: int, mark: i8)
    requires
        cells.len() == 9,
        0 <= i < 9,
    ensures
        image(cells.update(source(flip, i), mark), flip) == image(cells, flip).update(i, mark),
{
    assert forall|j: int| 0 <= j < 9 implies image(cells.update(source(flip, i), mark), flip)[j]
        == image(cells, flip).update(i, mark)[j] by {
        lemma_cells_correspond(flip, i);
        lemma_cells_correspond(flip, j);
    }
    assert(image(cells.update(source(flip, i), mark), flip) =~= image(cells, flip).update(i, mark));
}

/// The image holds as many marks as the board, so the same player moves.
pub proof fn lemma_image_marks(cells: Seq<i8>, flip: bool)
    requires
        cells.len() == 9,
    ensures
        marks(image(cells, flip)) == marks(cells),
        mover(image(cells, flip)) == mover(cells),
        free_cells(image(cells, flip)) == free_cells(cells),
{
    let turned = image(cells, flip);
    assert(marks(turned) == marks(cells)) by {
        reveal_with_fuel(marks_upto, 10);
        if flip {
            assert(turned[0] == cells[2] && turned[1] == cells[1] && turned[2] == cells[0]);
            assert(turned[3] == cells[5] && turned[4] == cells[4] && turned[5] == cells[3]);
            assert(turned[6] == cells[8] && turned[7] == cells[7] && turned[8] == cells[6]);
        } else {
            assert(turned[0] == cells[6] && turned[1] == cells[3] && turned[2] == cells[0]);
            assert(turned[3] == cells[7] && turned[4] == cells[4] && turned[5] == cells[1]);
            assert(turned[6] == cells[8] && turned[7] == cells[5] && turned[8] == cells[2]);
        }
    }
}

/// Where all complete lines belong to one player, the image has the same
/// outcome as the board, and its complete lines belong to one player too.
pub proof fn lemma_image_outcome(cells: Seq<i8>, flip: bool)
    requires
        cells.len() == 9,
        one_owner(cells),
    ensures
        outcome(image(cells, flip)) == outcome(cells),
        one_owner(image(cells, flip)),
{
    lemma_image_marks(cells, flip);
    reveal_with_fuel(first_won_line, 9);
    lemma_image_lines(cells, flip);
}

/// A line of the image is complete exactly when the line it shows is, and
/// for the same player.
pub proof fn lemma_image_lines(cells: Seq<i8>, flip: bool)
    requires
        cells.len() == 9,
    ensures
        forall|k: int|
            0 <= k < 8 ==> #[trigger] line_won(image(cells, flip), k) == line_won(
                cells,
                line_source(flip, k),
            ),
        forall|k: int|
            0 <= k < 8 && #[trigger] line_won(image(cells, flip), k) ==> image(cells, flip)[line(
                k,
            ).0] == cells[line(line_source(flip, k)).0],
        forall|k: int| 0 <= k < 8 ==> 0 <= #[trigger] line_source(flip, k) < 8,
{
    let turned = image(cells, flip);
    assert forall|k: int| 0 <= k < 8 implies (#[trigger] line_won(turned, k) == line_won(
        cells,
        line_source(flip, k),
    )) && (line_won(turned, k) ==> turned[line(k).0] == cells[line(line_source(flip, k)).0]) by {
        let (a, b, c) = line(k);
        assert(turned[a] == cells[source(flip, a)]);
        assert(turned[b] == cells[source(flip, b)]);
        assert(turned[c] == cells[source(flip, c)]);
    }
}

/// The line of a board that shows as line `k` of its image.
pub open spec fn line_source(flip: bool, k: int) -> int {
    if flip {
        if k == 3 {
            5
        } else if k == 5 {
            3
        } else if k == 6 {
            7
        } else if k == 7 {
            6
        } else {
            k
        }
    } else {
        if k < 3 {
            k + 3
        } else if k < 6 {
            5 - k
        } else if k == 6 {
            7
        } else {
            6
        }
    }
}

/// A mark placed on an open board completes lines for its owner only.
pub proof fn lemma_move_has_one_owner(cells: Seq<i8>, i: int, mark: i8)
    requires
        cells.len() == 9,
        0 <= i < 9,
        outcome(cells) is None,
    ensures
        one_owner(cells.update(i, mark)),
{
    let next = cells.update(i, mark);
    reveal_with_fuel(first_won_line, 9);
    assert forall|k: int| 0 <= k < 8 && #[trigger] line_won(next, k) implies next[line(k).0]
        == mark by {
        assert(!line_won(cells, k));
    }
    assert(forall|k: int| 0 <= k < 8 && #[trigger] line_won(next, k) ==> first_won_line(next, 0) < 8);
    if first_won_line(next, 0) < 8 {
        assert(line_won(next, first_won_line(next, 0)));
    }
}

/// A position and its image have the same result under best play.
pub proof fn lemma_image_result(cells: Seq<i8>, flip: bool, player: i8, is_max: bool)
    requires
        cells.len() == 9,
        one_owner(cells),
    ensures
        result(image(cells, flip), player, is_max) == result(cells, player, is_max),
    decreases free_cells(cells),
{
    let turned = image(cells, flip);
    let q = mover(cells);
    lemma_image_outcome(cells, flip);
    lemma_image_marks(cells, flip);
    if outcome(cells) is None {
        let r = result(cells, player, is_max);
        let rt = result(turned, player, is_max);
        lemma_result_of_open_position(cells, player, is_max);
        lemma_result_of_open_position(turned, player, is_max);
        assert forall|i: int| 0 <= i < 9 && turned[i] == EMPTY implies result(
            #[trigger] turned.update(i, q),
            player,
            !is_max,
        ) == result(cells.update(source(flip, i), q), player, !is_max) by {
            let j = source(flip, i);
            lemma_cells_correspond(flip, i);
            lemma_image_of_move(cells, flip, i, q);
            crate::board::lemma_turns_alternate(cells, j);
            lemma_marks_after_placing(cells, j, q);
            lemma_move_has_one_owner(cells, j, q);
            lemma_image_result(cells.update(j, q), flip, player, !is_max);
        }
        let i = choose|i: int|
            0 <= i < 9 && turned[i] == EMPTY && rt == result(
                #[trigger] turned.update(i, q),
                player,
                !is_max,
            );
        lemma_cells_correspond(flip, i);
        assert(cells[source(flip, i)] == EMPTY);
        assert(better_result(
            is_max,
            r,
            result(cells.update(source(flip, i), q), player, !is_max),
        ) == r);
        let j = choose|j: int|
            0 <= j < 9 && cells[j] == EMPTY && r == result(
                #[trigger] cells.update(j, q),
                player,
                !is_max,
            );
        lemma_cells_correspond(flip, j);
        assert(turned[target(flip, j)] == EMPTY);
        assert(better_result(
            is_max,
            rt,
            result(turned.update(target(flip, j), q), player, !is_max),
        ) == rt);
    }
}

} // verus!
