use othello::bits::{count_bits, decompose_mask, index_of, isolate_lowest_bit};
use othello::board::{value_of_mask, Board, GameResult};
use othello::cpu::Cpu;
use othello::game::{OthelloGame, OthelloGameState};
use othello::kinds::Color;
use othello::player::Player;

const OPENING_BLACK: u64 = 0x0000000810000000;
const OPENING_WHITE: u64 = 0x0000001008000000;

#[test]
fn opening_has_four_legal_moves() {
    let board = Board::new();
    let legal = board.legalMoves();
    assert_eq!(legal, 0x0000102004080000);
    let moves = board.split_moves(legal);
    assert_eq!(moves, vec![0x80000, 0x4000000, 0x2000000000, 0x100000000000]);
    let squares: Vec<u32> = moves.iter().map(|m| index_of(*m)).collect();
    assert_eq!(squares, vec![19, 26, 37, 44]);
}

#[test]
fn opening_state() {
    let board = Board::new();
    assert_eq!(board.occupancy(), (OPENING_BLACK, OPENING_WHITE));
    assert_eq!(board.values(), (6, 6));
    assert_eq!(board.turns(), 0);
    assert_eq!(board.turn(), Color::Black);
    assert!(!board.end());
}

#[test]
fn every_opening_move_keeps_sides_apart() {
    let board = Board::new();
    for m in board.split_moves(board.legalMoves()) {
        let next = board.reverse(m);
        let (black, white) = next.occupancy();
        assert_eq!(black & white, 0);
        assert_eq!(count_bits(black), 4);
        assert_eq!(count_bits(white), 1);
        assert_eq!(count_bits(black) + count_bits(white), 5);
        assert_eq!(next.values(), (12, 3));
        assert_eq!(next.turns(), 1);
        assert_eq!(next.turn(), Color::White);
    }
}

#[test]
fn one_bracketed_disc_is_flipped() {
    let board = Board::new();
    let next = board.reverse(0x80000);
    let (black, white) = next.occupancy();
    assert_eq!(black, OPENING_BLACK | 0x80000 | 0x8000000);
    assert_eq!(white, OPENING_WHITE & !0x8000000);
    assert_eq!(count_bits(black), count_bits(OPENING_BLACK) + 2);
    assert_eq!(count_bits(white) + 1, count_bits(OPENING_WHITE));
}

#[test]
fn second_move_flips_for_white() {
    let board = Board::new().reverse(0x80000);
    let legal = board.legalMoves();
    let moves = board.split_moves(legal);
    assert!(!moves.is_empty());
    let next = board.reverse(moves[0]);
    let (black, white) = next.occupancy();
    assert_eq!(black & white, 0);
    assert_eq!(count_bits(black) + count_bits(white), 6);
    assert_eq!(next.turn(), Color::Black);
}

#[test]
fn first_choice_match_fills_the_board() {
    let mut game = OthelloGame::new(Player::new());
    let mut finished = false;
    let mut rounds = 0;
    while !finished && rounds < 200 {
        let moves = game.candidates();
        finished = if moves.is_empty() { game.pass_turn() } else { game.play(1) };
        rounds += 1;
    }
    assert!(finished);
    assert_eq!(game.state(), OthelloGameState::MatchFinished);
    let board = game.board();
    assert!(board.end());
    let (black, white) = board.occupancy();
    assert_eq!(count_bits(black | white), 64);
    assert_eq!(board.turns(), 64);
    assert_eq!(board.occupancy(), (0x3fb0888090a0c080, 0xc04f777f6f5f3f7f));
    assert_eq!(board.values(), (251, 125));
    assert_eq!(board.judge(), GameResult::Winner(Color::White));
}

#[test]
fn two_passes_in_a_row_end_the_match() {
    let board = Board::from_masks(1, 0, 0).unwrap();
    assert_eq!(board.legalMoves(), 0);
    let after_one = board.pass();
    assert_eq!(after_one.legalMoves(), 0);
    let after_two = after_one.pass();
    assert_eq!(after_two.occupancy(), (1, 0));
    assert_eq!(after_two.values(), (120, 0));
    assert_eq!(after_two.turns(), 2);
    assert!(!after_two.end());
}

#[test]
fn pass_changes_only_the_move_count() {
    let board = Board::new();
    let next = board.pass();
    assert_eq!(next.occupancy(), board.occupancy());
    assert_eq!(next.values(), board.values());
    assert_eq!(next.turns(), 1);
    assert_eq!(next.turn(), Color::White);
}

#[test]
fn judge_more_black_discs_wins() {
    let black: u64 = (1u64 << 33) - 1;
    let board = Board::from_masks(black, !black, 60).unwrap();
    assert!(board.end());
    assert_eq!(board.judge(), GameResult::Winner(Color::Black));
}

#[test]
fn judge_equal_counts_is_draw() {
    let black: u64 = 0x0000_0000_ffff_ffff;
    let board = Board::from_masks(black, !black, 60).unwrap();
    assert!(board.end());
    assert_eq!(board.judge(), GameResult::Draw);
}

#[test]
fn judge_more_white_discs_wins() {
    let black: u64 = (1u64 << 31) - 1;
    let board = Board::from_masks(black, !black, 60).unwrap();
    assert_eq!(board.judge(), GameResult::Winner(Color::White));
}

#[test]
fn overlapping_masks_are_refused() {
    assert!(Board::from_masks(3, 2, 0).is_none());
    assert!(Board::from_masks(1, 2, 0).is_some());
}

#[test]
fn decomposition_joins_back() {
    for m in [0u64, 1, 0x8000_0000_0000_0000, 0x0000102004080000, 0xdead_beef_0bad_f00d, u64::MAX] {
        let parts = decompose_mask(m);
        let mut joined = 0u64;
        for p in &parts {
            assert_eq!(p.count_ones(), 1);
            joined |= *p;
        }
        assert_eq!(joined, m);
        assert_eq!(parts.len() as u32, m.count_ones());
        assert!(parts.windows(2).all(|w| w[0] < w[1]));
    }
    assert!(decompose_mask(0).is_empty());
}

#[test]
fn indexer_recovers_every_square() {
    for k in 0..64u32 {
        let bit = isolate_lowest_bit(1u64 << k);
        assert_eq!(bit, 1u64 << k);
        assert_eq!(index_of(bit), k);
    }
    assert_eq!(isolate_lowest_bit(0b1011000), 0b1000);
    assert_eq!(isolate_lowest_bit(0), 0);
}

#[test]
fn counts_and_values_of_masks() {
    assert_eq!(count_bits(0), 0);
    assert_eq!(count_bits(u64::MAX), 64);
    assert_eq!(count_bits(0xf0f0), 8);
    assert_eq!(value_of_mask(0x8100_0000_0000_0081), 480);
    assert_eq!(value_of_mask(0x0000_0000_0000_0200), -40);
    assert_eq!(value_of_mask(0), 0);
}

#[test]
fn clock_choice_is_one_based() {
    assert_eq!(Cpu::choice_from_clock(10, 3), 2);
    assert_eq!(Cpu::choice_from_clock(9, 3), 1);
    assert_eq!(Cpu::choice_from_clock(0, 1), 1);
    for n in 1..6usize {
        let c = Cpu::cpuInput(n);
        assert!(1 <= c && c <= n);
        let g = OthelloGame::cpuInput(n);
        assert!(1 <= g && g <= n);
    }
}

#[test]
fn swapping_sides_hands_black_to_the_computer() {
    let mut game = OthelloGame::new(Player::new());
    assert_eq!(game.state(), OthelloGameState::BeforeMatch);
    assert!(game.human_to_move());
    game.swap_sides();
    assert!(!game.human_to_move());
    let mut cpu = Cpu::new();
    cpu.changeColor(Color::White);
    let mut player = Player::new();
    player.changeColor(Color::White);
}

#[test]
fn checked_move_refuses_illegal_squares() {
    let board = Board::new();
    assert!(board.try_reverse(0).is_none());
    assert!(board.try_reverse(1).is_none());
    assert!(board.try_reverse(OPENING_BLACK & OPENING_BLACK.wrapping_neg()).is_none());
    assert!(board.try_reverse(0x80000 | 0x4000000).is_none());
    let next = board.try_reverse(0x4000000).unwrap();
    let direct = board.reverse(0x4000000);
    assert_eq!(next.occupancy(), direct.occupancy());
    assert_eq!(next.values(), direct.values());
    assert_eq!(next.turns(), 1);
}

#[test]
fn edge_run_does_not_wrap_around() {
    // A white disc on the right edge of one row and a black disc at the start
    // of the next row must not bracket across the wrap.
    let black: u64 = 1 << 8;
    let white: u64 = 1 << 7;
    let board = Board::from_masks(black, white, 0).unwrap();
    assert_eq!(board.legalMoves() & (1 << 6), 0);
    let white_run: u64 = (1 << 9) | (1 << 10);
    let board = Board::from_masks(black, white_run, 0).unwrap();
    assert_eq!(board.legalMoves(), 1 << 11);
    let next = board.reverse(1 << 11);
    assert_eq!(next.occupancy(), (black | white_run | (1 << 11), 0));
    assert_eq!(next.values(), (-20 - 40 - 5 - 5, 0));
}
