use go::board::Board;
use go::game::Game;
use go::game_move::GameMove;
use go::stone::Stone;
use go::ui::ScriptedUi;

fn fresh_game(width: usize, height: usize) -> Game<ScriptedUi> {
    Game::new_game(width, height, ScriptedUi::new(vec![]))
}

#[test]
fn board_new_board_add_stone() {
    let mut board = Board::new(9, 9);
    let black = Stone::Black;
    let white = Stone::White;
    board.place_stone(&GameMove::new(black, (1, 0), 1));
    board.place_stone(&GameMove::new(white, (0, 1), 2));
    board.place_stone(&GameMove::new(black, (2, 1), 3));
    board.place_stone(&GameMove::new(white, (1, 2), 4));
    assert_eq!(black, board.stone_at(1, 0));
    assert_eq!(black, board.stone_at(2, 1));
    assert_eq!(white, board.stone_at(0, 1));
    assert_eq!(white, board.stone_at(1, 2));
}

#[test]
fn board_integrations_new_board_add_stone() {
    let mut game = fresh_game(9, 9);
    game.make_move(1, 0).unwrap();
    game.make_move(0, 1).unwrap();
    game.make_move(2, 1).unwrap();
    game.make_move(1, 2).unwrap();
    assert_eq!(Stone::Black, game.board.stone_at(1, 0));
    assert_eq!(Stone::Black, game.board.stone_at(2, 1));
    assert_eq!(Stone::White, game.board.stone_at(0, 1));
    assert_eq!(Stone::White, game.board.stone_at(1, 2));
}

#[test]
fn board_integrations_dead_corner_stone() {
    let mut game = fresh_game(9, 9);
    game.make_move(0, 0).unwrap();
    game.make_move(0, 1).unwrap();
    game.turn = false;
    game.make_move(1, 0).unwrap();
    assert_eq!(Stone::Empty, game.board.stone_at(0, 0));
    assert_eq!(Stone::White, game.board.stone_at(0, 1));
    assert_eq!(Stone::White, game.board.stone_at(1, 0));
}

#[test]
fn board_dead_corner_stone() {
    let mut game = fresh_game(9, 9);
    game.make_move(0, 0).unwrap();
    game.make_move(0, 1).unwrap();
    game.turn = false;
    game.make_move(1, 0).unwrap();
    assert_eq!(Stone::Empty, game.board.stone_at(0, 0));
    assert_eq!(Stone::White, game.board.stone_at(0, 1));
    assert_eq!(Stone::White, game.board.stone_at(1, 0));
}

#[test]
fn board_integrations_dead_side_stones() {
    let mut game = fresh_game(9, 9);
    game.make_move(0, 1).unwrap();
    game.turn = true;
    game.make_move(0, 2).unwrap();
    game.turn = false;
    game.make_move(0, 0).unwrap();
    game.turn = false;
    game.make_move(1, 1).unwrap();
    game.turn = false;
    game.make_move(1, 2).unwrap();
    game.turn = false;
    game.make_move(0, 3).unwrap();
    assert_eq!(Stone::Empty, game.board.stone_at(0, 1));
    assert_eq!(Stone::Empty, game.board.stone_at(0, 2));
    assert_eq!(Stone::White, game.board.stone_at(0, 0));
    assert_eq!(Stone::White, game.board.stone_at(1, 1));
    assert_eq!(Stone::White, game.board.stone_at(1, 2));
    assert_eq!(Stone::White, game.board.stone_at(0, 3));
}

#[test]
fn board_dead_side_stones() {
    let mut game = fresh_game(9, 9);
    game.make_move(0, 1).unwrap();
    game.turn = true;
    game.make_move(0, 2).unwrap();
    game.turn = false;
    game.make_move(0, 0).unwrap();
    game.turn = false;
    game.make_move(1, 1).unwrap();
    game.turn = false;
    game.make_move(1, 2).unwrap();
    game.turn = false;
    game.make_move(0, 3).unwrap();
    assert_eq!(Stone::Empty, game.board.stone_at(0, 1));
    assert_eq!(Stone::Empty, game.board.stone_at(0, 2));
    assert_eq!(Stone::White, game.board.stone_at(0, 0));
    assert_eq!(Stone::White, game.board.stone_at(1, 1));
    assert_eq!(Stone::White, game.board.stone_at(1, 2));
    assert_eq!(Stone::White, game.board.stone_at(0, 3));
}

#[test]
fn board_integrations_dead_center_stone() {
    let mut game = fresh_game(9, 9);
    game.make_move(4, 4).unwrap();
    game.make_move(3, 4).unwrap();
    game.turn = false;
    game.make_move(5, 4).unwrap();
    game.turn = false;
    game.make_move(4, 3).unwrap();
    game.turn = false;
    game.make_move(4, 5).unwrap();
    assert_eq!(Stone::Empty, game.board.stone_at(4, 4));
    assert_eq!(Stone::White, game.board.stone_at(3, 4));
    assert_eq!(Stone::White, game.board.stone_at(5, 4));
    assert_eq!(Stone::White, game.board.stone_at(4, 3));
    assert_eq!(Stone::White, game.board.stone_at(4, 5));
}

#[test]
fn board_dead_center_stone() {
    let mut game = fresh_game(9, 9);
    game.make_move(4, 4).unwrap();
    game.make_move(3, 4).unwrap();
    game.turn = false;
    game.make_move(5, 4).unwrap();
    game.turn = false;
    game.make_move(4, 3).unwrap();
    game.turn = false;
    game.make_move(4, 5).unwrap();
    assert_eq!(Stone::Empty, game.board.stone_at(4, 4));
    assert_eq!(Stone::White, game.board.stone_at(3, 4));
    assert_eq!(Stone::White, game.board.stone_at(5, 4));
    assert_eq!(Stone::White, game.board.stone_at(4, 3));
    assert_eq!(Stone::White, game.board.stone_at(4, 5));
}

#[test]
fn board_place_stone_in_corner() {
    let mut board = Board::new(3, 3);
    board.place_stone(&GameMove::new(Stone::Black, (2, 2), 1));
    assert_eq!(board.get_state()[2][2], Stone::Black);
}

#[test]
fn board_update_board_with_corner_move() {
    let mut game = fresh_game(3, 3);
    game.make_move(2, 2).unwrap();
    assert_eq!(game.board.get_state()[2][2], Stone::Black);
}

#[test]
fn get_liberties_of_corner() {
    let board = Board::new(3, 3);
    let libs = board.get_liberties_of_pos((2, 2));
    assert_eq!(libs, vec![(2, 1), (1, 2)]);
}

fn group_size(game: &mut Game<ScriptedUi>, row: usize, col: usize) -> usize {
    let anchor = game.board.index_of_pos((row, col));
    let n = game.board.width * game.board.height;
    let mut count = 0;
    let mut i = 0;
    while i < n {
        if game.stone_groups.connected(i, anchor) {
            count += 1;
        }
        i += 1;
    }
    count
}

#[test]
fn merge_two_chains_test() {
    let mut game = fresh_game(9, 9);
    game.make_move(0, 0).unwrap();
    game.turn = true;
    game.make_move(0, 2).unwrap();
    game.turn = true;
    game.make_move(0, 1).unwrap();
    assert_eq!(group_size(&mut game, 0, 0), 3);
    let a = game.board.index_of_pos((0, 0));
    let b = game.board.index_of_pos((0, 1));
    let c = game.board.index_of_pos((0, 2));
    assert!(game.stone_groups.connected(a, b));
    assert!(game.stone_groups.connected(a, c));
}

#[test]
fn merge_three_chains_test() {
    let mut game = fresh_game(9, 9);
    game.make_move(0, 0).unwrap();
    game.turn = true;
    game.make_move(0, 2).unwrap();
    game.turn = true;
    game.make_move(1, 1).unwrap();
    game.turn = true;
    game.make_move(0, 1).unwrap();
    assert_eq!(group_size(&mut game, 0, 1), 4);
    let a = game.board.index_of_pos((0, 0));
    let b = game.board.index_of_pos((0, 1));
    let c = game.board.index_of_pos((0, 2));
    let d = game.board.index_of_pos((1, 1));
    assert!(game.stone_groups.connected(a, b));
    assert!(game.stone_groups.connected(a, c));
    assert!(game.stone_groups.connected(a, d));
}

#[test]
fn merge_four_chains_test() {
    let mut game = fresh_game(9, 9);
    game.make_move(1, 0).unwrap();
    game.turn = true;
    game.make_move(0, 1).unwrap();
    game.turn = true;
    game.make_move(2, 1).unwrap();
    game.turn = true;
    game.make_move(1, 2).unwrap();
    game.turn = true;
    game.make_move(1, 1).unwrap();
    assert_eq!(group_size(&mut game, 1, 1), 5);
    let a = game.board.index_of_pos((1, 0));
    let b = game.board.index_of_pos((0, 1));
    let c = game.board.index_of_pos((2, 1));
    let d = game.board.index_of_pos((1, 2));
    let e = game.board.index_of_pos((1, 1));
    assert!(game.stone_groups.connected(e, a));
    assert!(game.stone_groups.connected(e, b));
    assert!(game.stone_groups.connected(e, c));
    assert!(game.stone_groups.connected(e, d));
}

#[test]
fn new_board_add_stone() {
    let mut board = Board::new(9, 9);
    let black = Stone::Black;
    let white = Stone::White;
    board.place_stone(&GameMove::new(black, (1, 0), 1));
    board.place_stone(&GameMove::new(white, (0, 1), 2));
    board.place_stone(&GameMove::new(black, (2, 1), 3));
    board.place_stone(&GameMove::new(white, (1, 2), 4));
    assert_eq!(black, board.stone_at(1, 0));
    assert_eq!(black, board.stone_at(2, 1));
    assert_eq!(white, board.stone_at(0, 1));
    assert_eq!(white, board.stone_at(1, 2));
}

#[test]
fn place_stone_in_corner() {
    let mut board = Board::new(3, 3);
    board.place_stone(&GameMove::new(Stone::Black, (2, 2), 1));
    assert_eq!(board.get_state()[2][2], Stone::Black);
}

#[test]
fn update_board_with_corner_move() {
    let mut game = fresh_game(3, 3);
    game.make_move(2, 2).unwrap();
    assert_eq!(game.board.get_state()[2][2], Stone::Black);
}
