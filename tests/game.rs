use connect4::board::{is_winning_position, move_column, move_row};
use connect4::search::{max_value, min_value};
use connect4::state::{Player, State, StateKind, Strategy};
use connect4::strategy::{
    best_among, evaluate_actions, manual_move, minimax_candidates, minimax_move_with,
    minimax_strategy, minimax_strategy1, play, random_strategy, root_value,
};

fn player(name: &str, strategy: Strategy) -> Player {
    Player { name: name.to_string(), strategy }
}

fn manual_game() -> State {
    State::new(player("Ann", Strategy::Manual), player("Bob", Strategy::Manual))
}

/// Plays the columns (0-based) in turn from a fresh manual game.
fn after_columns(columns: &[usize]) -> State {
    let mut s = manual_game();
    for &c in columns {
        s = play(&s, Some(c + 1)).expect("legal column");
    }
    s
}

#[test]
fn winning_quad_ground_truth() {
    assert!(is_winning_position(0, 6, 12, 18));
    assert!(is_winning_position(0, 1, 2, 3));
    assert!(!is_winning_position(3, 10, 17, 24));
    assert!(is_winning_position(0, 7, 14, 21));
    assert!(!is_winning_position(2, 7, 12, 17));
}

#[test]
fn winning_quad_other_cases() {
    // falling diagonal from row 3 of column 0
    assert!(is_winning_position(3, 8, 13, 18));
    // four consecutive codes across the top of a column
    assert!(!is_winning_position(21, 22, 23, 24));
    // uneven spacing
    assert!(!is_winning_position(0, 6, 12, 19));
    // vertical from row 2 reaches row 5
    assert!(is_winning_position(2, 3, 4, 5));
}

#[test]
fn encoding_decodes() {
    assert_eq!(move_column(41), 6);
    assert_eq!(move_row(41), 5);
    assert_eq!(move_column(17), 2);
    assert_eq!(move_row(17), 5);
    assert_eq!(move_column(0), 0);
    assert_eq!(move_row(0), 0);
}

#[test]
fn fresh_state_actions() {
    let s = manual_game();
    assert_eq!(s.actions(), vec![0, 6, 12, 18, 24, 30, 36]);
    assert_eq!(s.kind, StateKind::Live);
    assert_eq!(s.winner(), None);
}

#[test]
fn actions_skip_full_columns() {
    let s = after_columns(&[2, 2, 2, 2, 2, 2]);
    assert_eq!(s.height, [0, 0, 6, 0, 0, 0, 0]);
    assert_eq!(s.actions(), vec![0, 6, 18, 24, 30, 36]);
    let s = after_columns(&[0, 1, 1]);
    assert_eq!(s.actions(), vec![1, 8, 12, 18, 24, 30, 36]);
}

#[test]
fn result_keeps_input_and_grows_one_history() {
    let s = manual_game();
    let n = s.result(18);
    assert_eq!(s.moves_player1, Vec::<u8>::new());
    assert_eq!(s.height, [0; 7]);
    assert_eq!(n.moves_player1, vec![18]);
    assert!(n.moves_player2.is_empty());
    assert_eq!(n.height, [0, 0, 0, 1, 0, 0, 0]);
    let m = n.result(19);
    assert_eq!(m.moves_player1, vec![18]);
    assert_eq!(m.moves_player2, vec![19]);
    assert_eq!(m.height, [0, 0, 0, 2, 0, 0, 0]);
    assert_eq!(m.player1.name, "Ann");
    assert_eq!(m.player2.name, "Bob");
}

#[test]
fn winning_move_needs_three_earlier_moves() {
    let s = after_columns(&[0, 6, 1, 6]);
    // player one has 0 and 6 only
    assert!(!s.is_winning_move(12));
    let s = after_columns(&[0, 6, 1, 6, 2, 6]);
    assert!(s.is_winning_move(18));
    assert!(!s.is_winning_move(24));
}

#[test]
fn four_in_a_column_ends_the_game() {
    // player one plays column 1 four times, player two column 7
    let mut s = manual_game();
    for turn in 0..7 {
        let c = if turn % 2 == 0 { 1 } else { 7 };
        if turn == 6 {
            assert!(s.is_winning_move(3));
        }
        s = play(&s, Some(c)).unwrap();
    }
    assert_eq!(s.kind, StateKind::Final);
    assert_eq!(s.moves_player1, vec![0, 1, 2, 3]);
    assert_eq!(s.moves_player2, vec![36, 37, 38]);
    assert_eq!(s.winner(), Some(1));
    assert!(s.actions().is_empty());
}

#[test]
fn player_two_wins_on_equal_counts() {
    let s = after_columns(&[0, 1, 0, 1, 2, 1, 3]);
    // no line yet for either player
    assert_eq!(s.kind, StateKind::Live);
    let s = after_columns(&[0, 1, 0, 1, 6, 1, 6, 1]);
    assert_eq!(s.kind, StateKind::Final);
    assert_eq!(s.winner(), Some(2));
}

#[test]
fn full_board_without_winner_is_a_draw() {
    let columns = [
        4, 3, 6, 0, 1, 4, 5, 5, 1, 1, 5, 0, 1, 6, 0, 1, 5, 5, 1, 0, 4, 6, 3, 2, 6, 6, 0, 4, 6, 5,
        2, 0, 4, 2, 4, 2, 2, 2, 3, 3, 3, 3,
    ];
    let mut s = manual_game();
    for &c in columns.iter() {
        let m = manual_move(&s, c + 1).unwrap();
        assert!(!s.is_winning_move(m));
        s = s.result(m);
    }
    assert_eq!(s.height, [6; 7]);
    assert_eq!(s.kind, StateKind::Live);
    assert!(s.actions().is_empty());
    assert!(s.is_draw());
    assert_eq!(s.winner(), None);
}

#[test]
fn manual_move_rejects_bad_columns() {
    let s = after_columns(&[2, 2, 2, 2, 2, 2]);
    assert_eq!(manual_move(&s, 0), None);
    assert_eq!(manual_move(&s, 8), None);
    assert_eq!(manual_move(&s, 3), None);
    assert_eq!(manual_move(&s, 1), Some(0));
    assert_eq!(manual_move(&s, 7), Some(36));
    assert!(play(&s, None).is_none());
    assert!(play(&s, Some(3)).is_none());
    assert!(!s.is_draw());
}

#[test]
fn scores_at_the_ends() {
    let won = after_columns(&[0, 6, 0, 6, 0, 6, 0]);
    assert_eq!(won.kind, StateKind::Final);
    assert_eq!(min_value(&won, 0, 3), 1000);
    assert_eq!(max_value(&won, 0, 3), -1000);
    assert_eq!(min_value(&won, 4, 3), 996);
    assert_eq!(max_value(&won, 4, 3), -996);
    let live = manual_game();
    assert_eq!(max_value(&live, 0, 0), -999);
    assert_eq!(min_value(&live, 0, 0), 999);
}

#[test]
fn level_zero_scores_are_placeholders() {
    let s = manual_game();
    assert_eq!(evaluate_actions(&s, 0), vec![999; 7]);
    // player one to move with three in the bottom row
    let s = after_columns(&[0, 0, 1, 1, 2, 2]);
    assert_eq!(
        evaluate_actions(&s, 0),
        vec![999, 999, 999, 1000, 999, 999, 999]
    );
    assert_eq!(root_value(&s, 18, 0), 1000);
    assert_eq!(minimax_candidates(&s, 0), vec![18]);
    assert_eq!(minimax_strategy(&s, 0), 18);
}

#[test]
fn level_one_sees_the_win() {
    let s = after_columns(&[0, 0, 1, 1, 2, 2]);
    assert_eq!(
        evaluate_actions(&s, 1),
        vec![-999, -999, -999, 1000, -999, -999, -999]
    );
    assert_eq!(minimax_candidates(&s, 1), vec![18]);
}

#[test]
fn best_among_keeps_all_ties_in_order() {
    assert_eq!(best_among(&vec![0, 6, 12], &vec![5, 3, 5]), vec![0, 12]);
    assert_eq!(best_among(&vec![0, 6, 12], &vec![-999, -999, -999]), vec![0, 6, 12]);
    assert_eq!(best_among(&vec![7], &vec![-5]), vec![7]);
}

#[test]
fn fixed_draw_gives_the_same_move() {
    let s = after_columns(&[3, 3]);
    let best = minimax_candidates(&s, 2);
    for draw in 0..10usize {
        let a = minimax_move_with(&s, 2, draw);
        let b = minimax_move_with(&s, 2, draw);
        assert_eq!(a, b);
        assert_eq!(a, best[draw % best.len()]);
    }
    for _ in 0..10 {
        assert!(best.contains(&minimax_strategy(&s, 2)));
    }
}

#[test]
fn computer_players_make_legal_moves() {
    let mut s = State::new(
        player("Rand", Strategy::UniformRandom),
        player("Max", Strategy::Minimax(2)),
    );
    let mut turns = 0;
    while s.kind == StateKind::Live && !s.actions().is_empty() {
        let legal = s.actions();
        if turns % 2 == 0 {
            assert!(legal.contains(&random_strategy(&s)));
        }
        let before = s.moves_player1.len() + s.moves_player2.len();
        s = play(&s, None).unwrap();
        assert_eq!(s.moves_player1.len() + s.moves_player2.len(), before + 1);
        turns += 1;
    }
    assert!(s.winner().is_some() || s.is_draw());
}

#[test]
fn default_game() {
    let s = State::default();
    assert_eq!(s.player1.name, "Adrian");
    assert_eq!(s.player2.name, "Bottie");
    assert_eq!(s.player1.strategy, Strategy::Manual);
    assert_eq!(s.player2.strategy, Strategy::Minimax(6));
    assert_eq!(s.actions().len(), 7);
    let p = s.player2.clone();
    assert_eq!(p.name, "Bottie");
}

#[test]
fn line_found_whatever_the_order_of_play() {
    // player one plays columns 4, 1, 3 and then 2: moves 18, 0, 12, then 6
    let s = after_columns(&[3, 6, 0, 6, 2, 6]);
    assert_eq!(s.moves_player1, vec![18, 0, 12]);
    assert!(s.is_winning_move(6));
    assert!(!s.is_winning_move(24));
    let n = s.result(6);
    assert_eq!(n.kind, StateKind::Final);
    assert_eq!(n.winner(), Some(1));
}

#[test]
fn short_search_takes_the_last_best_move() {
    assert_eq!(minimax_strategy1(&manual_game()), 36);
    let s = after_columns(&[0, 0, 1, 1, 2, 2]);
    assert_eq!(minimax_strategy1(&s), 18);
}
