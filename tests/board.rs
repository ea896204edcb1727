use uttt::game::{
    count_cells, find_kth_high_bit_index, Board, GameState, Player, ALL_CELLS,
};

fn sub_block(g: u32) -> u128 {
    0x1ffu128 << (9 * g)
}

#[test]
fn test_valid_moves() {
    let board = Board::default();

    assert_eq!(board.get_moves(), 0x1ffffffffffffffffffff);
    let board = board.unchecked_play(Board::move_from_gl(0, 0));

    assert_eq!(board.get_moves(), 0b111_111_110);
    let board = board.unchecked_play(Board::move_from_gl(0, 4));

    assert_eq!(board.get_moves(), 0x1ff000000000);
}

#[test]
fn initial_board_has_81_moves() {
    let board = Board::default();
    assert_eq!(board.get_moves().count_ones(), 81);
    assert_eq!(count_cells(board.get_moves()), 81);
    assert_eq!(board.next_player, Player::X);
    assert_eq!(board.last_move, None);
}

#[test]
fn moves_stay_in_undecided_target() {
    let board = Board::default()
        .unchecked_play(Board::move_from_gl(4, 2))
        .unchecked_play(Board::move_from_gl(2, 2));
    // sent to sub-board 2, which holds one O stone at cell 2
    let expected = sub_block(2) & !(1u128 << (9 * 2 + 2));
    assert_eq!(board.get_moves(), expected);
}

#[test]
fn decided_target_gives_free_choice() {
    // X owns the top row of sub-board 4; O to move was sent to sub-board 4
    let x = (0b111u128 << 36) | (1u128 << 3);
    let o = (1u128 << 10) | (1u128 << 20);
    let board = Board {
        x,
        o,
        gx: 1 << 4,
        go: 0,
        next_player: Player::O,
        last_move: Some(Board::move_from_gl(0, 4)),
    };
    let expected = ALL_CELLS & !(x | o) & !sub_block(4);
    assert_eq!(board.get_moves(), expected);
    assert_eq!(board.global_board_mask(), sub_block(4));
}

#[test]
fn diagonal_of_sub_boards_wins_for_x() {
    let x = 0b111u128 | (0b111u128 << 36) | (0b111u128 << 72);
    let o = (1u128 << 9) | (1u128 << 13) | (1u128 << 50) | (1u128 << 60);
    let board = Board {
        x,
        o,
        gx: 0b100_010_001,
        go: 0,
        next_player: Player::O,
        last_move: Some(Board::move_from_gl(8, 2)),
    };
    assert_eq!(board.check_game_state(), GameState::Won(Player::X));
    assert!(board.game_over());
}

#[test]
fn diagonal_win_through_play() {
    // the third stone of the last line completes sub-board 8 and the global diagonal
    let x = 0b111u128 | (0b111u128 << 36) | (0b011u128 << 72);
    let o = (1u128 << 9) | (1u128 << 13) | (1u128 << 50);
    let board = Board {
        x,
        o,
        gx: 0b000_010_001,
        go: 0,
        next_player: Player::X,
        last_move: Some(Board::move_from_gl(1, 8)),
    };
    assert_eq!(board.check_game_state(), GameState::InProgress);
    let after = board.unchecked_play(Board::move_from_gl(8, 2));
    assert_eq!(after.gx, 0b100_010_001);
    assert_eq!(after.check_game_state(), GameState::Won(Player::X));
}

#[test]
fn full_sub_board_without_line_is_drawn() {
    // sub-board 0: X O X / X O O / O X _, X to move fills the last cell
    let x = (1u128 << 0) | (1u128 << 2) | (1u128 << 3) | (1u128 << 7);
    let o = (1u128 << 1) | (1u128 << 4) | (1u128 << 5) | (1u128 << 6);
    let board = Board {
        x,
        o,
        gx: 0,
        go: 0,
        next_player: Player::X,
        last_move: Some(Board::move_from_gl(3, 0)),
    };
    let after = board.unchecked_play(Board::move_from_gl(0, 8));
    assert_eq!(after.gx & 1, 1);
    assert_eq!(after.go & 1, 1);
    assert_eq!(after.check_game_state(), GameState::InProgress);
    assert_eq!(after.global_board_mask() & sub_block(0), sub_block(0));
    assert_eq!(after.get_moves() & sub_block(0), 0);
}

#[test]
fn drawn_global_board() {
    let board = Board {
        x: 0,
        o: 0,
        gx: 0b111_111_111,
        go: 0b111_111_111,
        next_player: Player::X,
        last_move: Some(0),
    };
    assert_eq!(board.check_game_state(), GameState::Draw);
}

#[test]
fn won_for_o_on_a_column() {
    let board = Board {
        x: 0,
        o: 0,
        gx: 0b000_000_001,
        go: 0b010_010_010,
        next_player: Player::X,
        last_move: Some(0),
    };
    assert_eq!(board.check_game_state(), GameState::Won(Player::O));
}

#[test]
fn drawn_sub_boards_count_for_neither() {
    // sub-boards 0, 1, 2 are flagged for both sides: drawn, so no row for X
    let board = Board {
        x: 0,
        o: 0,
        gx: 0b000_000_111,
        go: 0b000_000_111,
        next_player: Player::X,
        last_move: Some(0),
    };
    assert_eq!(board.check_game_state(), GameState::InProgress);
}

#[test]
fn move_encoding() {
    assert_eq!(Board::move_from_gl(4, 4), 0x44);
    assert_eq!(Board::move_from_gl(8, 3), 0x83);
    assert_eq!(Board::move_from_index(40), 0x44);
    assert_eq!(Board::move_from_index(80), 0x88);
    assert_eq!(Board::move_from_index(9), 0x10);
}

#[test]
fn players_alternate() {
    assert_eq!(Player::X.other(), Player::O);
    assert_eq!(Player::O.other(), Player::X);
    assert_eq!(Player::default(), Player::X);
    let board = Board::default().unchecked_play(0);
    assert_eq!(board.next_player, Player::O);
    assert_eq!(board.x, 1);
    assert_eq!(board.last_move, Some(0));
}

#[test]
fn kth_set_bit() {
    assert_eq!(find_kth_high_bit_index(0b1011, 0), Some(0));
    assert_eq!(find_kth_high_bit_index(0b1011, 2), Some(3));
    assert_eq!(find_kth_high_bit_index(0b1011, 3), None);
    assert_eq!(find_kth_high_bit_index(1u128 << 80, 0), Some(80));
    assert_eq!(find_kth_high_bit_index(0, 0), None);
    assert_eq!(count_cells(0b1011), 3);
}
