use std::io::{BufRead, BufReader, Cursor};

use go::game::Game;
use go::stone::Stone;
use go::ui::{decode_action, parse_move_position, ScriptedUi, UserAction};

fn read_move_line<R: BufRead>(mut reader: R) -> String {
    let mut resp = String::new();
    reader.read_line(&mut resp).expect("Failed to readline");
    resp.trim().to_ascii_uppercase()
}

fn read_action<R: BufRead>(mut reader: R) -> UserAction {
    let mut inp = String::new();
    reader.read_line(&mut inp).expect("Failed to read input");
    decode_action(&inp).unwrap()
}

#[test]
fn get_move() {
    let reader = Cursor::new(String::from("a1\n"));
    let line = read_move_line(BufReader::new(reader));
    let res = parse_move_position(&line);
    assert_eq!((0, 0), res.unwrap());
}

#[test]
fn game_integrations_get_move() {
    let reader = Cursor::new(String::from("a1\n"));
    let res = read_move_line(BufReader::new(reader));
    assert_eq!("A1", res);
}

#[test]
fn text_ui_get_move() {
    let reader = Cursor::new(String::from("a1\n"));
    let action = read_action(BufReader::new(reader));
    assert_eq!(UserAction::Move(0, 0), action);
}

#[test]
fn get_quit() {
    let reader = Cursor::new(String::from("q\n"));
    let action = read_action(BufReader::new(reader));
    assert_eq!(UserAction::Quit, action);
}

#[test]
fn make_move() {
    let mut game = Game::new_game(9, 9, ScriptedUi::new(vec![]));
    let reader = Cursor::new(String::from("A1\n"));
    let line = read_move_line(BufReader::new(reader));
    let mv = parse_move_position(&line).unwrap();
    game.make_move(mv.0, mv.1).unwrap();
    assert_eq!(Stone::Black, game.board.stone_at(0, 0));
}

#[test]
fn make_two_moves() {
    let mut game = Game::new_game(9, 9, ScriptedUi::new(vec![]));
    let reader_1 = Cursor::new(String::from("A1\n"));
    let reader_2 = Cursor::new(String::from("B2\n"));
    let first = parse_move_position(&read_move_line(BufReader::new(reader_1))).unwrap();
    let second = parse_move_position(&read_move_line(BufReader::new(reader_2))).unwrap();
    game.make_move(first.0, first.1).unwrap();
    game.make_move(second.0, second.1).unwrap();
    assert_eq!(Stone::Black, game.board.stone_at(0, 0));
    assert_eq!(Stone::White, game.board.stone_at(1, 1));
}

#[test]
fn decode_quit_with_surrounding_whitespace() {
    assert_eq!(decode_action(" q \n").unwrap(), UserAction::Quit);
    assert_eq!(decode_action("q").unwrap(), UserAction::Quit);
}

#[test]
fn decode_move_and_rejects() {
    assert_eq!(decode_action("b3\n").unwrap(), UserAction::Move(1, 2));
    assert!(decode_action("qq\n").is_err());
    assert!(decode_action("\n").is_err());
}

#[test]
fn scripted_ui_plays_list_then_quits() {
    let mut ui = ScriptedUi::new(vec![(0, 0), (2, 1)]);
    assert_eq!(ui.next_action().unwrap(), UserAction::Move(0, 0));
    assert_eq!(ui.next_action().unwrap(), UserAction::Move(2, 1));
    assert_eq!(ui.next_action().unwrap(), UserAction::Quit);
    assert_eq!(ui.next_action().unwrap(), UserAction::Quit);
}

#[test]
fn quit_and_noop_actions_leave_the_rules_state_alone() {
    let mut game = Game::new_game(3, 3, ScriptedUi::new(vec![]));
    game.make_move(1, 1).unwrap();
    let board_before = game.board.get_state();
    let turn_before = game.turn;
    let number_before = game.move_number;
    game.apply_action(UserAction::Noop).unwrap();
    assert!(!game.game_over);
    game.apply_action(UserAction::Quit).unwrap();
    assert!(game.game_over);
    assert_eq!(game.board.get_state(), board_before);
    assert_eq!(game.turn, turn_before);
    assert_eq!(game.move_number, number_before);
}

#[test]
fn move_action_applies_the_pipeline() {
    let mut game = Game::new_game(3, 3, ScriptedUi::new(vec![]));
    game.apply_action(UserAction::Move(0, 0)).unwrap();
    assert_eq!(game.board.stone_at(0, 0), Stone::Black);
    assert!(!game.turn);
    // an occupied target is swallowed and nothing changes
    game.apply_action(UserAction::Move(0, 0)).unwrap();
    assert_eq!(game.board.stone_at(0, 0), Stone::Black);
    assert!(!game.turn);
    assert_eq!(game.move_number, 1);
}
