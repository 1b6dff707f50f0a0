use tictactoe::board::{check_winner, play_move, whos_turn, GameState, EMPTY, O, X};

const E: i8 = EMPTY;

#[test]
fn marks_have_their_values() {
    assert_eq!(X, -1);
    assert_eq!(O, 1);
    assert_eq!(EMPTY, 0);
}

#[test]
fn x_moves_first_on_the_empty_board() {
    assert_eq!(whos_turn([E; 9]), X);
}

#[test]
fn o_moves_after_one_mark() {
    assert_eq!(whos_turn([E, E, E, E, X, E, E, E, E]), O);
}

#[test]
fn x_moves_after_an_even_number_of_marks() {
    assert_eq!(whos_turn([X, X, E, O, O, E, E, E, E]), X);
    assert_eq!(whos_turn([X, O, X, O, X, O, E, E, E]), X);
}

#[test]
fn o_moves_after_an_odd_number_of_marks() {
    assert_eq!(whos_turn([X, O, X, E, E, E, E, E, E]), O);
    assert_eq!(whos_turn([X, O, X, O, X, O, O, E, E]), O);
}

#[test]
fn nobody_moves_on_a_full_board() {
    assert_eq!(whos_turn([X, O, X, O, X, O, O, X, O]), EMPTY);
}

#[test]
fn turns_alternate_through_a_whole_game() {
    let mut game: GameState = [E; 9];
    let order = [4usize, 0, 8, 2, 6, 3, 5, 7, 1];
    let mut expected = X;
    for index in order {
        assert_eq!(whos_turn(game), expected);
        game = play_move(game, index);
        assert_eq!(game[index], expected);
        expected = -expected;
    }
    assert_eq!(whos_turn(game), EMPTY);
}

#[test]
fn play_move_places_the_movers_mark_and_nothing_else() {
    let game: GameState = [X, E, E, E, O, E, E, E, E];
    let next = play_move(game, 8);
    assert_eq!(next, [X, E, E, E, O, E, E, E, X]);
    assert_eq!(game, [X, E, E, E, O, E, E, E, E]);
    let after = play_move(next, 1);
    assert_eq!(after, [X, O, E, E, O, E, E, E, X]);
}

#[test]
fn play_move_overwrites_a_taken_cell() {
    let game: GameState = [X, E, E, E, E, E, E, E, E];
    assert_eq!(play_move(game, 0), [O, E, E, E, E, E, E, E, E]);
}

#[test]
fn open_game_has_no_winner() {
    assert_eq!(check_winner([E; 9]), None);
    assert_eq!(check_winner([X, X, E, O, O, E, E, E, E]), None);
}

#[test]
fn top_row_wins_for_x() {
    assert_eq!(check_winner([X, X, X, O, O, E, E, E, E]), Some(X));
}

#[test]
fn every_line_wins() {
    let lines = [
        [0usize, 1, 2],
        [3, 4, 5],
        [6, 7, 8],
        [0, 3, 6],
        [1, 4, 7],
        [2, 5, 8],
        [0, 4, 8],
        [2, 4, 6],
    ];
    for line in lines {
        for mark in [X, O] {
            let mut game: GameState = [E; 9];
            for cell in line {
                game[cell] = mark;
            }
            assert_eq!(check_winner(game), Some(mark));
        }
    }
}

#[test]
fn two_marks_in_a_line_do_not_win() {
    assert_eq!(check_winner([X, X, O, E, E, E, E, E, E]), None);
    assert_eq!(check_winner([X, E, E, E, X, E, E, E, O]), None);
}

#[test]
fn full_board_without_a_line_is_a_draw() {
    assert_eq!(check_winner([X, O, X, O, X, O, O, X, O]), Some(EMPTY));
}

#[test]
fn full_board_with_a_line_has_a_winner() {
    assert_eq!(check_winner([X, X, X, O, O, X, O, X, O]), Some(X));
}

#[test]
fn first_line_in_order_decides_between_two() {
    // A board that no game reaches: the top row is X's, the middle row O's.
    assert_eq!(check_winner([X, X, X, O, O, O, E, E, E]), Some(X));
    // Rows come before columns: the bottom row is O's, the left column X's.
    assert_eq!(check_winner([X, E, E, X, E, E, O, O, O]), Some(O));
    assert_eq!(check_winner([X, E, O, X, E, O, X, E, O]), Some(X));
    // Columns come before diagonals.
    assert_eq!(check_winner([X, O, E, E, O, E, E, O, X]), Some(O));
}

fn reachable() -> Vec<GameState> {
    let mut seen: Vec<GameState> = Vec::new();
    let mut stack: Vec<GameState> = vec![[E; 9]];
    while let Some(game) = stack.pop() {
        if seen.contains(&game) {
            continue;
        }
        seen.push(game);
        if check_winner(game).is_none() {
            for index in 0..9 {
                if game[index] == E {
                    stack.push(play_move(game, index));
                }
            }
        }
    }
    seen
}

#[test]
fn there_are_5478_positions_in_the_game() {
    assert_eq!(reachable().len(), 5478);
}

#[test]
fn in_every_position_of_the_game_the_marks_tell_the_turn() {
    for game in reachable() {
        let xs = game.iter().filter(|&&mark| mark == X).count();
        let os = game.iter().filter(|&&mark| mark == O).count();
        let expected = if xs + os == 9 {
            EMPTY
        } else if xs == os {
            X
        } else {
            O
        };
        assert!(xs == os || xs == os + 1);
        assert_eq!(whos_turn(game), expected);
    }
}
