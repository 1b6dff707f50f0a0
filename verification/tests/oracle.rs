use tictactoe::board::{GameState, EMPTY, O, X};
use tictactoe::oracle::is_winnable;

const E: i8 = EMPTY;

#[test]
fn empty_board_is_winnable() {
    assert!(is_winnable([E; 9]));
}

#[test]
fn drawn_board_is_not_winnable() {
    assert!(!is_winnable([X, O, X, O, X, O, O, X, O]));
    assert!(!is_winnable([X, O, X, X, O, O, O, X, X]));
}

#[test]
fn won_board_is_winnable() {
    assert!(is_winnable([X, X, X, O, O, E, E, E, E]));
}

#[test]
fn full_board_with_a_line_is_winnable() {
    assert!(is_winnable([X, X, X, O, O, X, O, X, O]));
}

#[test]
fn last_move_that_completes_a_line_keeps_the_game_winnable() {
    // X to move on cell 8 completes the diagonal 0, 4, 8.
    let game: GameState = [X, O, X, O, X, O, O, X, E];
    assert!(is_winnable(game));
}

#[test]
fn last_move_that_completes_nothing_leaves_a_forced_draw() {
    // X to move on cell 7, which completes no line.
    let game: GameState = [X, O, X, O, X, O, O, E, O];
    assert!(!is_winnable(game));
}

#[test]
fn forced_draw_is_seen_before_the_board_is_full() {
    // Three cells free, and every line already holds both marks.
    let game: GameState = [O, X, E, X, E, O, E, O, X];
    assert!(!is_winnable(game));
    // Two cells free: O on 3, then X on 5 completes the right column.
    let game: GameState = [X, O, X, E, O, E, O, X, X];
    assert!(is_winnable(game));
}
