use tictactoe::board::{check_winner, whos_turn, GameState, EMPTY, O, X};
use tictactoe::moves::arrange_next_moves;
use tictactoe::oracle::is_winnable;
use tictactoe::score::Score;
use tictactoe::search::{minimax, minimax_rec, Node};

const E: i8 = EMPTY;

fn root(game_state: GameState) -> Node {
    Node { game_state, value: Score::zero(), children: Vec::new() }
}

fn search(game_state: GameState, player: i8, is_max: bool, level: u8) -> (Score, Node) {
    let mut node = root(game_state);
    let value = minimax_rec(&mut node, player, is_max, level, Score::lowest(), Score::highest());
    (value, node)
}

fn is_fraction(score: Score, num: i32, den: i32) -> bool {
    score.same(&Score { num, den })
}

#[test]
fn scores_are_ordered_as_fractions() {
    let half = Score { num: 1, den: 2 };
    let third = Score { num: 1, den: 3 };
    let minus_half = Score { num: -1, den: 2 };
    let minus_third = Score { num: -1, den: 3 };
    let zero = Score::zero();
    assert!(third.less(&half));
    assert!(!half.less(&third));
    assert!(minus_half.less(&minus_third));
    assert!(minus_third.less(&zero));
    assert!(zero.less(&third));
    assert!(!zero.less(&zero));
    assert!(Score::lowest().less(&Score { num: -1, den: 1 }));
    assert!(Score { num: 1, den: 1 }.less(&Score::highest()));
}

#[test]
fn equal_fractions_are_the_same_score() {
    assert!(Score { num: 1, den: 2 }.same(&Score { num: 2, den: 4 }));
    assert!(Score { num: 0, den: 1 }.same(&Score { num: 0, den: 7 }));
    assert!(!Score { num: 1, den: 2 }.same(&Score { num: 1, den: 3 }));
    assert!(!Score { num: 1, den: 2 }.same(&Score { num: -1, den: 2 }));
}

#[test]
fn sentinels_are_a_thousand_either_way() {
    assert_eq!((Score::lowest().num, Score::lowest().den), (-1000, 1));
    assert_eq!((Score::highest().num, Score::highest().den), (1000, 1));
    assert_eq!((Score::zero().num, Score::zero().den), (0, 1));
}

#[test]
fn large_scores_do_not_overflow() {
    let big = Score { num: i32::MAX, den: i32::MAX };
    let small = Score { num: i32::MIN, den: i32::MAX };
    assert!(small.less(&big));
    assert!(!big.less(&small));
    assert!(big.same(&Score { num: 1, den: 1 }));
}

#[test]
fn finished_game_scores_one_over_the_level_for_the_winner() {
    let won: GameState = [X, X, X, O, O, E, E, E, E];
    let (value, node) = search(won, X, true, 3);
    assert_eq!((value.num, value.den), (1, 3));
    assert!(node.children.is_empty());
    let (value, _) = search(won, O, false, 4);
    assert_eq!((value.num, value.den), (-1, 4));
}

#[test]
fn drawn_game_scores_nothing() {
    let drawn: GameState = [X, O, X, O, X, O, O, X, O];
    let (value, node) = search(drawn, X, true, 9);
    assert_eq!((value.num, value.den), (0, 1));
    assert!(node.children.is_empty());
    let (value, _) = search(drawn, O, false, 9);
    assert_eq!((value.num, value.den), (0, 1));
}

#[test]
fn search_leaves_the_node_itself_as_it_was() {
    let game: GameState = [X, O, X, O, X, O, O, E, E];
    let mut node = Node { game_state: game, value: Score { num: 5, den: 7 }, children: Vec::new() };
    minimax_rec(&mut node, O, true, 0, Score::lowest(), Score::highest());
    assert_eq!(node.game_state, game);
    assert_eq!((node.value.num, node.value.den), (5, 7));
}

#[test]
fn win_in_one_scores_one() {
    // X completes the top row at once.
    let game: GameState = [X, X, E, O, O, E, E, E, E];
    let (value, node) = search(game, X, true, 0);
    assert!(is_fraction(value, 1, 1));
    assert!(!node.children.is_empty());
    assert!(node.children.len() <= 5);
}

#[test]
fn loss_in_two_scores_minus_a_half() {
    // O to move; X threatens both the top row and the left column.
    let game: GameState = [X, X, E, X, O, E, E, O, E];
    assert_eq!(whos_turn(game), O);
    // O has no line to complete and can block only one of the two.
    let (value, _) = search(game, O, true, 0);
    assert!(is_fraction(value, -1, 2));
}

#[test]
fn recorded_children_are_successors_with_their_scores() {
    let game: GameState = [X, O, X, O, X, O, O, E, E];
    // O to move on 7 or 8; X then takes the other. X on 8 completes the diagonal.
    let (value, node) = search(game, O, true, 0);
    let all = arrange_next_moves(game, &vec![]);
    assert!(!node.children.is_empty());
    for child in &node.children {
        assert!(all.contains(&child.game_state));
        if child.game_state[8] == O {
            assert!(is_fraction(child.value, 0, 1));
        } else {
            assert!(is_fraction(child.value, -1, 2));
        }
    }
    assert!(is_fraction(value, 0, 1));
}

#[test]
fn narrow_window_cuts_the_search_short() {
    let game: GameState = [E; 9];
    let mut node = root(game);
    // With beta at minus one the first score reaches the bound at once.
    let value = minimax_rec(
        &mut node,
        X,
        true,
        0,
        Score::lowest(),
        Score { num: -1, den: 1 },
    );
    assert_eq!(node.children.len(), 1);
    assert!(!value.less(&Score { num: -1, den: 1 }));
}

#[test]
fn value_of_the_empty_board_is_a_draw() {
    let (value, node) = search([E; 9], X, true, 0);
    assert!(is_fraction(value, 0, 1));
    assert_eq!(node.children.len(), 9);
}

#[test]
fn finished_game_has_no_best_move() {
    assert_eq!(minimax([X, X, X, O, O, E, E, E, E]), None);
    assert_eq!(minimax([X, O, X, O, X, O, O, X, O]), None);
}

#[test]
fn best_move_takes_the_immediate_win() {
    let game: GameState = [X, X, E, O, O, E, E, E, E];
    for _ in 0..20 {
        assert_eq!(minimax(game), Some([X, X, X, O, O, E, E, E, E]));
    }
}

#[test]
fn best_move_prefers_the_win_to_the_block() {
    // O to move can complete the middle row, or block X's top row.
    let game: GameState = [X, X, E, O, O, E, X, E, E];
    for _ in 0..20 {
        assert_eq!(minimax(game), Some([X, X, E, O, O, O, X, E, E]));
    }
}

#[test]
fn best_move_blocks_a_threat() {
    // O must take cell 2, or X completes the top row.
    let game: GameState = [X, X, E, E, O, E, E, E, E];
    for _ in 0..20 {
        assert_eq!(minimax(game), Some([X, X, O, E, O, E, E, E, E]));
    }
}

#[test]
fn best_move_on_the_last_free_cell() {
    let game: GameState = [X, O, X, O, X, O, O, X, E];
    assert_eq!(minimax(game), Some([X, O, X, O, X, O, O, X, X]));
    let game: GameState = [X, O, X, O, X, O, O, E, O];
    assert_eq!(minimax(game), Some([X, O, X, O, X, O, O, X, O]));
}

#[test]
fn best_move_is_a_successor_of_the_position() {
    let mut game: GameState = [E; 9];
    while check_winner(game).is_none() {
        let next = minimax(game).unwrap();
        assert!(arrange_next_moves(game, &vec![]).contains(&next));
        game = next;
    }
}

#[test]
fn best_play_against_itself_ends_in_a_draw() {
    for _ in 0..25 {
        let mut game: GameState = [E; 9];
        let mut moves = 0;
        while check_winner(game).is_none() {
            game = minimax(game).unwrap();
            moves += 1;
        }
        assert_eq!(check_winner(game), Some(EMPTY));
        assert_eq!(moves, 9);
    }
}

#[test]
fn best_play_stays_winnable_only_while_a_line_is_open() {
    let mut game: GameState = [E; 9];
    let mut moves = 0;
    while check_winner(game).is_none() && is_winnable(game) {
        game = minimax(game).unwrap();
        moves += 1;
    }
    assert!(moves <= 9);
    assert!(!is_winnable(game));
}

#[test]
fn search_never_loses_to_any_reply() {
    // The search plays O against every line of play that X can choose.
    fn explore(game: GameState) {
        match check_winner(game) {
            Some(winner) => assert!(winner != X),
            None => {
                if whos_turn(game) == O {
                    explore(minimax(game).unwrap());
                } else {
                    for next in arrange_next_moves(game, &vec![]) {
                        explore(next);
                    }
                }
            }
        }
    }
    explore([E; 9]);
}

fn check_tree(node: &Node, value: Score, player: i8, is_max: bool, level: u8) {
    match check_winner(node.game_state) {
        Some(winner) => {
            assert!(node.children.is_empty());
            let expected = if winner == player {
                Score { num: 1, den: level as i32 }
            } else if winner == EMPTY {
                Score::zero()
            } else {
                Score { num: -1, den: level as i32 }
            };
            assert_eq!((value.num, value.den), (expected.num, expected.den));
        }
        None => {
            assert!(!node.children.is_empty());
            let all = arrange_next_moves(node.game_state, &vec![]);
            let mut best = if is_max { Score::lowest() } else { Score::highest() };
            for (j, child) in node.children.iter().enumerate() {
                assert!(all.contains(&child.game_state));
                for earlier in &node.children[..j] {
                    assert!(earlier.game_state != child.game_state);
                }
                if is_max && best.less(&child.value) || !is_max && child.value.less(&best) {
                    best = child.value;
                }
                check_tree(child, child.value, player, !is_max, level + 1);
            }
            assert_eq!((value.num, value.den), (best.num, best.den));
        }
    }
}

#[test]
fn every_node_of_the_tree_carries_the_best_of_its_children() {
    for game in [
        [E; 9],
        [X, E, E, E, O, E, E, E, E],
        [X, X, E, O, O, E, E, E, E],
        [X, O, X, O, X, O, O, E, E],
    ] {
        let player = whos_turn(game);
        let (value, node) = search(game, player, true, 0);
        check_tree(&node, value, player, true, 0);
    }
}

#[test]
fn search_appends_to_the_children_that_are_there() {
    let game: GameState = [X, O, X, O, X, O, O, E, E];
    let kept = Node { game_state: [O; 9], value: Score { num: 3, den: 4 }, children: Vec::new() };
    let mut node = Node { game_state: game, value: Score::zero(), children: vec![kept] };
    minimax_rec(&mut node, O, true, 0, Score::lowest(), Score::highest());
    assert_eq!(node.children[0].game_state, [O; 9]);
    assert_eq!((node.children[0].value.num, node.children[0].value.den), (3, 4));
    assert_eq!(node.children.len(), 3);
}

#[test]
fn value_does_not_depend_on_the_order_of_the_search() {
    let game: GameState = [X, E, E, E, O, E, E, E, E];
    let (first, _) = search(game, X, true, 0);
    for _ in 0..20 {
        let (again, _) = search(game, X, true, 0);
        assert!(again.same(&first));
    }
}
