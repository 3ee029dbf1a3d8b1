use go::error::GoError;
use go::game::Game;
use go::stone::Stone;
use go::ui::{parse_move_position, ScriptedUi};

#[test]
fn scripted_session_first_move() {
    let mv = parse_move_position("a1\n").unwrap();
    let mut game = Game::new_game(9, 9, ScriptedUi::new(vec![mv]));
    game.update().unwrap();
    assert_eq!(Stone::Black, game.board.stone_at(0, 0));
}

#[test]
fn scripted_session_two_moves() {
    let first = parse_move_position("a1\n").unwrap();
    let second = parse_move_position("b2\n").unwrap();
    let mut game = Game::new_game(9, 9, ScriptedUi::new(vec![first, second]));
    game.update().unwrap();
    game.update().unwrap();
    assert_eq!(Stone::Black, game.board.stone_at(0, 0));
    assert_eq!(Stone::White, game.board.stone_at(1, 1));
}

#[test]
fn game_integrations_make_move() {
    let mut game = Game::new_game(9, 9, ScriptedUi::new(vec![]));
    let mv = parse_move_position("A1\n").unwrap();
    game.make_move(mv.0, mv.1).unwrap();
    assert_eq!(Stone::Black, game.board.stone_at(0, 0));
}

#[test]
fn game_integrations_make_two_moves() {
    let mut game = Game::new_game(9, 9, ScriptedUi::new(vec![]));
    let first = parse_move_position("A1\n").unwrap();
    let second = parse_move_position("B2\n").unwrap();
    game.make_move(first.0, first.1).unwrap();
    game.make_move(second.0, second.1).unwrap();
    assert_eq!(Stone::Black, game.board.stone_at(0, 0));
    assert_eq!(Stone::White, game.board.stone_at(1, 1));
}

#[test]
fn make_two_connecting_moves() {
    let mut game = Game::new_game(5, 5, ScriptedUi::new(vec![]));
    game.make_move(0, 0).unwrap();
    game.turn = !game.turn;
    game.make_move(0, 1).unwrap();
    assert_eq!(Stone::Black, game.board.stone_at(0, 0));
    assert_eq!(Stone::Black, game.board.stone_at(0, 1));
    let a = game.board.index_of_pos((0, 0));
    let b = game.board.index_of_pos((0, 1));
    assert!(game.stone_groups.connected(a, b));
}

#[test]
fn merge_two_chains_together() {
    let mut game = Game::new_game(5, 5, ScriptedUi::new(vec![]));
    game.make_move(0, 0).unwrap();
    game.turn = !game.turn;
    game.make_move(0, 2).unwrap();
    game.turn = !game.turn;
    game.make_move(0, 1).unwrap();
    assert_eq!(Stone::Black, game.board.stone_at(0, 0));
    assert_eq!(Stone::Black, game.board.stone_at(0, 1));
    assert_eq!(Stone::Black, game.board.stone_at(0, 2));
    let a = game.board.index_of_pos((0, 0));
    let b = game.board.index_of_pos((0, 1));
    let c = game.board.index_of_pos((0, 2));
    assert!(game.stone_groups.connected(a, b));
    assert!(game.stone_groups.connected(a, c));
    assert!(game.stone_groups.connected(b, c));
}

#[test]
fn game_dead_corner_stone() {
    let mut game = Game::new_game(3, 3, ScriptedUi::new(vec![]));
    game.make_move(0, 0).unwrap();
    game.make_move(0, 1).unwrap();
    game.make_move(2, 2).unwrap();
    game.make_move(1, 0).unwrap();
    let expected_board_state = vec![
        vec![Stone::Empty, Stone::White, Stone::Empty],
        vec![Stone::White, Stone::Empty, Stone::Empty],
        vec![Stone::Empty, Stone::Empty, Stone::Black],
    ];
    assert_eq!(game.board.state, expected_board_state);
}

#[test]
fn correct_liberty_assignments() {
    let mut game = Game::new_game(3, 3, ScriptedUi::new(vec![]));
    game.make_move(0, 0).unwrap();
    game.make_move(1, 1).unwrap();
    game.make_move(2, 2).unwrap();

    // beginning of array
    let libs = &game.stone_groups.liberties[0];
    assert_eq!(libs.len(), 2);
    assert!(libs.contains(1));
    assert!(libs.contains(3));

    // middle of board
    let libs = &game.stone_groups.liberties[4];
    assert_eq!(libs.len(), 4);
    assert!(libs.contains(1));
    assert!(libs.contains(3));
    assert!(libs.contains(5));
    assert!(libs.contains(7));

    // end of array
    let libs = &game.stone_groups.liberties[8];
    assert_eq!(libs.len(), 2);
    assert!(libs.contains(5));
    assert!(libs.contains(7));
}

#[test]
fn it_works() {
    let ui = ScriptedUi::new(vec![(0, 0), (1, 1), (2, 2)]);
    let mut game = Game::new_game(3, 3, ui);
    while !game.game_over {
        game.view_board().unwrap();
        game.update().unwrap();
    }
    let state = game.board.get_state();
    assert_eq!(state[0][0], Stone::Black);
    assert_eq!(state[1][1], Stone::White);
    assert_eq!(state[2][2], Stone::Black);
}

#[test]
fn corner_capture_scenario() {
    // a 3x3 board: Black 0,0; White 0,1; White 1,0 takes the corner stone
    let mut game = Game::new_game(3, 3, ScriptedUi::new(vec![]));
    game.make_move(0, 0).unwrap();
    game.make_move(0, 1).unwrap();
    game.turn = false;
    game.make_move(1, 0).unwrap();
    assert_eq!(Stone::Empty, game.board.stone_at(0, 0));
    assert_eq!(Stone::White, game.board.stone_at(0, 1));
    assert_eq!(Stone::White, game.board.stone_at(1, 0));
}

#[test]
fn captured_group_reports_no_liberties_first() {
    // the surrounded stone's chain reports an empty liberty set once its
    // last liberty is taken, and is then cleared
    let mut game = Game::new_game(3, 3, ScriptedUi::new(vec![]));
    game.make_move(0, 0).unwrap();
    game.make_move(0, 1).unwrap();
    let corner = game.board.index_of_pos((0, 0));
    assert!(!game.stone_groups.no_liberties(corner));
    game.turn = false;
    game.make_move(1, 0).unwrap();
    assert_eq!(Stone::Empty, game.board.stone_at(0, 0));
    assert!(game.stone_groups.no_liberties(corner));
}

#[test]
fn occupied_target_rejected_without_any_change() {
    let mut game = Game::new_game(9, 9, ScriptedUi::new(vec![]));
    game.make_move(4, 4).unwrap();
    let board_before = game.board.get_state();
    let parent_before = game.stone_groups.parent.clone();
    let size_before = game.stone_groups.size.clone();
    let turn_before = game.turn;
    let number_before = game.move_number;
    let res = game.make_move(4, 4);
    assert_eq!(res, Err(GoError::InvalidMove));
    assert_eq!(game.board.get_state(), board_before);
    assert_eq!(game.stone_groups.parent, parent_before);
    assert_eq!(game.stone_groups.size, size_before);
    assert_eq!(game.turn, turn_before);
    assert_eq!(game.move_number, number_before);
}

#[test]
fn out_of_bounds_target_rejected() {
    let mut game = Game::new_game(3, 3, ScriptedUi::new(vec![]));
    assert_eq!(game.make_move(3, 0), Err(GoError::InvalidMove));
    assert_eq!(game.make_move(0, 3), Err(GoError::InvalidMove));
    assert_eq!(game.turn, true);
    assert_eq!(game.move_number, 0);
}

#[test]
fn fresh_stone_liberty_counts() {
    // corner: 2, edge: 3, interior: 4
    let mut game = Game::new_game(9, 9, ScriptedUi::new(vec![]));
    game.make_move(0, 0).unwrap();
    game.make_move(0, 4).unwrap();
    game.turn = true;
    game.make_move(4, 4).unwrap();
    let corner = game.board.index_of_pos((0, 0));
    let edge = game.board.index_of_pos((0, 4));
    let interior = game.board.index_of_pos((4, 4));
    assert_eq!(game.stone_groups.liberties[corner].len(), 2);
    assert_eq!(game.stone_groups.liberties[edge].len(), 3);
    assert_eq!(game.stone_groups.liberties[interior].len(), 4);
}

#[test]
fn fresh_stone_liberties_skip_occupied_neighbors() {
    // a neighbor already holding a stone is not a liberty at placement
    let mut game = Game::new_game(9, 9, ScriptedUi::new(vec![]));
    game.make_move(4, 4).unwrap();
    game.make_move(4, 5).unwrap();
    let second = game.board.index_of_pos((4, 5));
    assert_eq!(game.stone_groups.liberties[second].len(), 3);
}

#[test]
fn merged_chain_pools_liberties() {
    // two adjacent same-colored stones share one liberty set: the union
    // of their neighbor-liberties minus the two occupied positions
    let mut game = Game::new_game(9, 9, ScriptedUi::new(vec![]));
    game.make_move(0, 0).unwrap();
    game.turn = !game.turn;
    game.make_move(0, 1).unwrap();
    let a = game.board.index_of_pos((0, 0));
    let b = game.board.index_of_pos((0, 1));
    assert!(game.stone_groups.connected(a, b));
    // the representative's pooled set: (0,1)+(1,0)+(0,2)+(1,1) as flat
    // indices 1, 9, 2, 10, minus the occupied 0 and 1
    let root = if game.stone_groups.liberties[a].len() > 0 { a } else { b };
    let libs = &game.stone_groups.liberties[root];
    assert_eq!(libs.len(), 3);
    assert!(libs.contains(9));
    assert!(libs.contains(2));
    assert!(libs.contains(10));
    assert!(!libs.contains(0));
    assert!(!libs.contains(1));
}

#[test]
fn queries_do_not_change_results() {
    let mut game = Game::new_game(5, 5, ScriptedUi::new(vec![]));
    game.make_move(2, 2).unwrap();
    game.turn = !game.turn;
    game.make_move(2, 3).unwrap();
    let a = game.board.index_of_pos((2, 2));
    let b = game.board.index_of_pos((2, 3));
    let c = game.board.index_of_pos((0, 0));
    for _ in 0..3 {
        assert_eq!(game.board.stone_at(2, 2), Stone::Black);
        assert!(game.stone_groups.connected(a, b));
        assert!(!game.stone_groups.connected(a, c));
    }
}

#[test]
fn quit_action_ends_game() {
    let mut game = Game::new_game(3, 3, ScriptedUi::new(vec![]));
    assert!(!game.game_over);
    game.update().unwrap();
    assert!(game.game_over);
}

#[test]
fn turn_alternates_and_moves_are_numbered() {
    let mut game = Game::new_game(5, 5, ScriptedUi::new(vec![]));
    assert!(game.turn);
    assert_eq!(game.move_number, 0);
    game.make_move(0, 0).unwrap();
    assert!(!game.turn);
    assert_eq!(game.move_number, 1);
    game.make_move(1, 1).unwrap();
    assert!(game.turn);
    assert_eq!(game.move_number, 2);
}

#[test]
fn lone_stone_on_single_cell_board() {
    // a 1x1 board leaves the stone with no liberties; nothing captures it
    // (the engine enforces no suicide rule)
    let mut game = Game::new_game(1, 1, ScriptedUi::new(vec![]));
    game.make_move(0, 0).unwrap();
    assert_eq!(game.board.stone_at(0, 0), Stone::Black);
    assert!(game.stone_groups.no_liberties(0));
}

#[test]
fn capture_of_two_stone_chain_clears_both() {
    //   . B B .
    //   B W W B      then Black plays the two covering points
    let mut game = Game::new_game(4, 4, ScriptedUi::new(vec![]));
    game.make_move(0, 1).unwrap();
    game.make_move(1, 1).unwrap();
    game.make_move(0, 2).unwrap();
    game.make_move(1, 2).unwrap();
    game.make_move(1, 0).unwrap();
    game.turn = true;
    game.make_move(1, 3).unwrap();
    game.turn = true;
    game.make_move(2, 1).unwrap();
    game.turn = true;
    game.make_move(2, 2).unwrap();
    assert_eq!(game.board.stone_at(1, 1), Stone::Empty);
    assert_eq!(game.board.stone_at(1, 2), Stone::Empty);
    assert_eq!(game.board.stone_at(0, 1), Stone::Black);
    assert_eq!(game.board.stone_at(2, 2), Stone::Black);
}

#[test]
fn game_make_move() {
    let mv = parse_move_position("a1\n").unwrap();
    let mut game = Game::new_game(9, 9, ScriptedUi::new(vec![mv]));
    game.update().unwrap();
    assert_eq!(Stone::Black, game.board.stone_at(0, 0));
}

#[test]
fn game_make_two_moves() {
    let first = parse_move_position("a1\n").unwrap();
    let second = parse_move_position("b2\n").unwrap();
    let mut game = Game::new_game(9, 9, ScriptedUi::new(vec![first, second]));
    game.update().unwrap();
    game.update().unwrap();
    assert_eq!(Stone::Black, game.board.stone_at(0, 0));
    assert_eq!(Stone::White, game.board.stone_at(1, 1));
}
