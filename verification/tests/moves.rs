use tictactoe::board::{GameState, EMPTY, O, X};
use tictactoe::moves::{arrange_next_moves, get_next_moves};

const E: i8 = EMPTY;

fn sorted(mut states: Vec<GameState>) -> Vec<GameState> {
    states.sort();
    states
}

fn placements(game: GameState, mark: i8, cells: &[usize]) -> Vec<GameState> {
    let mut all = Vec::new();
    for &cell in cells {
        let mut next = game;
        next[cell] = mark;
        all.push(next);
    }
    all
}

#[test]
fn open_position_yields_one_move_for_each_free_cell() {
    let game: GameState = [X, X, E, O, O, E, E, E, E];
    let expected = sorted(placements(game, X, &[2, 5, 6, 7, 8]));
    for _ in 0..50 {
        let moves = get_next_moves(game);
        assert_eq!(moves.len(), 5);
        assert_eq!(sorted(moves), expected);
    }
}

#[test]
fn won_position_has_no_moves() {
    assert_eq!(get_next_moves([X, X, X, O, O, E, E, E, E]).len(), 0);
    assert_eq!(arrange_next_moves([X, X, X, O, O, E, E, E, E], &vec![]).len(), 0);
}

#[test]
fn drawn_position_has_no_moves() {
    assert_eq!(get_next_moves([X, O, X, O, X, O, O, X, O]).len(), 0);
}

#[test]
fn empty_board_has_nine_moves_for_x() {
    let game: GameState = [E; 9];
    let moves = get_next_moves(game);
    assert_eq!(sorted(moves), sorted(placements(game, X, &[0, 1, 2, 3, 4, 5, 6, 7, 8])));
}

#[test]
fn moves_carry_the_mark_of_the_player_to_move() {
    let game: GameState = [X, E, E, E, E, E, E, E, E];
    let moves = get_next_moves(game);
    assert_eq!(sorted(moves), sorted(placements(game, O, &[1, 2, 3, 4, 5, 6, 7, 8])));
}

#[test]
fn chance_changes_the_order_of_the_moves() {
    let game: GameState = [E; 9];
    let first = get_next_moves(game);
    let mut differs = false;
    for _ in 0..200 {
        if get_next_moves(game) != first {
            differs = true;
        }
    }
    assert!(differs);
}

#[test]
fn without_picks_the_moves_come_in_board_order() {
    let game: GameState = [X, X, E, O, O, E, E, E, E];
    assert_eq!(arrange_next_moves(game, &vec![]), placements(game, X, &[2, 5, 6, 7, 8]));
}

#[test]
fn picks_of_zero_keep_the_board_order() {
    let game: GameState = [X, X, E, O, O, E, E, E, E];
    assert_eq!(
        arrange_next_moves(game, &vec![0, 0, 0, 0, 0]),
        placements(game, X, &[2, 5, 6, 7, 8])
    );
}

#[test]
fn picks_of_one_keep_the_board_order_too() {
    let game: GameState = [X, X, E, O, O, E, E, E, E];
    assert_eq!(
        arrange_next_moves(game, &vec![1, 1, 1, 1, 1]),
        placements(game, X, &[2, 5, 6, 7, 8])
    );
}

#[test]
fn first_bucket_comes_before_the_second() {
    let game: GameState = [X, X, E, O, O, E, E, E, E];
    // Free cells 2, 5, 6, 7, 8 with picks 1, 0, 1, 0, 0.
    assert_eq!(
        arrange_next_moves(game, &vec![1, 0, 1, 0, 0]),
        placements(game, X, &[5, 7, 8, 2, 6])
    );
}

#[test]
fn any_pick_but_zero_means_the_second_bucket() {
    let game: GameState = [X, X, E, O, O, E, E, E, E];
    assert_eq!(
        arrange_next_moves(game, &vec![7, 0, 255, 0, 0]),
        placements(game, X, &[5, 7, 8, 2, 6])
    );
}

#[test]
fn missing_picks_count_as_the_first_bucket() {
    let game: GameState = [X, X, E, O, O, E, E, E, E];
    assert_eq!(arrange_next_moves(game, &vec![1, 1]), placements(game, X, &[6, 7, 8, 2, 5]));
}

#[test]
fn surplus_picks_are_ignored() {
    let game: GameState = [X, O, X, O, X, O, O, E, E];
    assert_eq!(
        arrange_next_moves(game, &vec![1, 0, 1, 1, 1, 0]),
        placements(game, O, &[8, 7])
    );
}

#[test]
fn a_position_has_no_moves_exactly_when_the_game_is_over() {
    let mut seen: Vec<GameState> = Vec::new();
    let mut stack: Vec<GameState> = vec![[E; 9]];
    while let Some(game) = stack.pop() {
        if seen.contains(&game) {
            continue;
        }
        seen.push(game);
        let moves = get_next_moves(game);
        let free = game.iter().filter(|&&mark| mark == E).count();
        match tictactoe::board::check_winner(game) {
            Some(_) => assert!(moves.is_empty()),
            None => assert_eq!(moves.len(), free),
        }
        for next in moves {
            stack.push(next);
        }
    }
    assert_eq!(seen.len(), 5478);
}
