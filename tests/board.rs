use reversi_core::bit_othello::{bit_count, get_corner_list, Board, InitGame};
use reversi_core::proto::{Color, Move};

fn sq(x: u32, y: u32) -> u64 {
    1u64 << ((x - 1) * 8 + y - 1)
}

#[test]
fn test_init_game() {
    let game = InitGame {
        opponent_name: String::from("Opponent"),
        assigned_time_ms: 60000,
    };
    assert_eq!(game.opponent_name, "Opponent");
    assert_eq!(game.assigned_time_ms, 60000);
}

#[test]
fn test_board_initialization() {
    let board = Board {
        black: 0x0000000810000000,
        white: 0x0000001008000000,
    };
    assert_eq!(board.black, 0x0000000810000000);
    assert_eq!(board.white, 0x0000001008000000);
}

#[test]
fn test_can_put() {
    let board = Board {
        black: 0x0000000810000000,
        white: 0x0000001008000000,
    };
    let can_put = board.can_put(Color::Black);
    println!("canput{:016x}", can_put);
    // C4, D3, E6, F5
    assert_eq!(can_put, sq(3, 4) | sq(4, 3) | sq(5, 6) | sq(6, 5));
}

#[test]
fn new_board_is_the_start() {
    let b = Board::new();
    assert_eq!(b.black, 0x0000000810000000);
    assert_eq!(b.white, 0x0000001008000000);
    assert_eq!(b.black & b.white, 0);
    assert_eq!(b.count_stones(), (2, 2));
    assert_eq!(b.sum_stones(), 4);
}

#[test]
fn start_has_four_black_moves() {
    let b = Board::new();
    let moves = b.valid_moves(Color::Black);
    assert_eq!(moves.len(), 4);
    assert_eq!(moves, vec![(3, 4), (4, 3), (5, 6), (6, 5)]);
    let white = b.valid_moves(Color::White);
    assert_eq!(white, vec![(3, 5), (4, 6), (5, 3), (6, 4)]);
}

#[test]
fn valid_moves_are_the_mask_bits() {
    let mut b = Board::new();
    b.do_move(Move::Mv { x_ah: 6, y_18: 5 }, Color::Black);
    for color in [Color::Black, Color::White] {
        let mask = b.can_put(color);
        let moves = b.valid_moves(color);
        assert_eq!(moves.len() as u64, bit_count(mask));
        for (x, y) in moves {
            assert!(mask & sq(x as u32, y as u32) != 0);
        }
    }
}

#[test]
fn do_move_flips_and_keeps_disjoint() {
    let mut b = Board::new();
    b.do_move(Move::Mv { x_ah: 6, y_18: 5 }, Color::Black);
    // F5 placed, E5 flipped
    assert_eq!(b.black, 0x0000000810000000 | sq(6, 5) | sq(5, 5));
    assert_eq!(b.white, 0x0000001008000000 & !sq(5, 5));
    assert_eq!(b.black & b.white, 0);
    assert_eq!(b.count_stones(), (4, 1));
    assert_eq!(b.sum_stones(), 5);
    assert_eq!(b.diff_stones(Color::Black), 3);
    assert_eq!(b.diff_stones(Color::White), -3);
}

#[test]
fn undo_from_flip_mask_restores() {
    let start = Board::new();
    let mut b = start;
    b.do_move(Move::Mv { x_ah: 6, y_18: 5 }, Color::Black);
    let placed = sq(6, 5);
    let flips = start.white & !b.white;
    let undone = Board { black: b.black ^ (placed | flips), white: b.white ^ flips };
    assert_eq!(undone, start);
}

#[test]
fn pass_and_giveup_change_nothing() {
    let mut b = Board::new();
    b.do_move(Move::Pass, Color::Black);
    assert_eq!(b, Board::new());
    b.do_move(Move::GiveUp, Color::White);
    assert_eq!(b, Board::new());
}

#[test]
fn popcount_exact() {
    assert_eq!(bit_count(0), 0);
    assert_eq!(bit_count(u64::MAX), 64);
    assert_eq!(bit_count(0x8000_0000_0000_0001), 2);
    assert_eq!(bit_count(0x0f0f), 8);
}

#[test]
fn stone_sum_is_both_popcounts() {
    let b = Board { black: 0x00ff_0000_0000_00f0, white: 0x0000_0000_0f00_0000 };
    assert_eq!(b.sum_stones(), bit_count(b.black) + bit_count(b.white));
    assert_eq!(b.sum_stones(), 16);
}

#[test]
fn corner_filter() {
    let moves = vec![(1, 1), (2, 1), (8, 8), (1, 8), (8, 3), (8, 1)];
    assert_eq!(get_corner_list(&moves), vec![(1, 1), (8, 8), (1, 8), (8, 1)]);
    assert_eq!(get_corner_list(&vec![]), vec![]);
}

#[test]
fn mobility_difference_is_antisymmetric() {
    let mut b = Board::new();
    assert_eq!(b.canput_diff(Color::Black), 0);
    b.do_move(Move::Mv { x_ah: 6, y_18: 5 }, Color::Black);
    let d = b.canput_diff(Color::Black);
    assert_eq!(d, -b.canput_diff(Color::White));
    // black then has 3 moves against white's 3
    assert_eq!(d, bit_count(b.can_put(Color::Black)) as i32 - bit_count(b.can_put(Color::White)) as i32);
}

#[test]
fn both_pass_is_terminal() {
    // full board: 35 black, 29 white
    let black: u64 = (1u64 << 35) - 1;
    let b = Board { black, white: !black };
    assert!(b.valid_moves(Color::Black).is_empty());
    assert!(b.valid_moves(Color::White).is_empty());
    assert_eq!(b.count_stones(), (35, 29));
    assert_eq!(b.win_or_lose(Color::Black), 1);
    assert_eq!(b.win_or_lose(Color::White), -1);
    assert_eq!(b.canput_diff(Color::Black), 64);
    assert_eq!(b.canput_diff(Color::White), -64);
}

#[test]
fn terminal_signs_cancel_on_tie() {
    let black: u64 = 0xffff_ffff;
    let b = Board { black, white: !black };
    assert_eq!(b.win_or_lose(Color::Black), 0);
    assert_eq!(b.win_or_lose(Color::White), 0);
    assert_eq!(b.canput_diff(Color::Black), 0);
}

#[test]
fn check_valid_move_rules() {
    let b = Board::new();
    assert!(b.check_valid_move(Move::Mv { x_ah: 3, y_18: 4 }, Color::Black));
    assert!(!b.check_valid_move(Move::Mv { x_ah: 1, y_18: 1 }, Color::Black));
    assert!(!b.check_valid_move(Move::Pass, Color::Black));
    assert!(!b.check_valid_move(Move::GiveUp, Color::Black));
    let black: u64 = (1u64 << 35) - 1;
    let full = Board { black, white: !black };
    assert!(full.check_valid_move(Move::Pass, Color::Black));
    assert!(!full.check_valid_move(Move::GiveUp, Color::Black));
}

#[test]
fn opposite_colors() {
    assert_eq!(Color::Black.opposite(), Color::White);
    assert_eq!(Color::White.opposite(), Color::Black);
    assert_eq!(Color::Blank.opposite(), Color::Blank);
    assert_eq!(Color::Sentinel.opposite(), Color::Sentinel);
}

#[test]
fn default_is_the_start() {
    assert_eq!(Board::default(), Board::new());
}

#[test]
fn flips_are_opponent_stones() {
    let start = Board::new();
    let mut b = start;
    b.do_move(Move::Mv { x_ah: 6, y_18: 5 }, Color::Black);
    let f = start.white ^ b.white;
    assert_eq!(f & !start.white, 0);
    assert_eq!(f, sq(5, 5));
    assert_eq!(b.black ^ (sq(6, 5) | f), start.black);
    assert_eq!(b.sum_stones(), start.sum_stones() + 1);
}
