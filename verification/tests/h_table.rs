use bm_core::board::{Color, Move, Piece, Position};
use bm_core::h_table::{CounterMoveTable, DoubleMoveHistory, HistoryTable, MAX_VALUE};

fn position(fen: &str) -> Position {
    Position::from_cozy(&fen.parse::<cozy_chess::Board>().unwrap())
}

fn square(name: &str) -> u8 {
    let bytes = name.as_bytes();
    (bytes[1] - b'1') * 8 + (bytes[0] - b'a')
}

fn mv(text: &str) -> Move {
    Move { from: square(&text[0..2]), to: square(&text[2..4]), promotion: None }
}

const START: &str = "rnbqkbnr/pppppppp/8/8/8/8/PPPPPPPP/RNBQKBNR w KQkq - 0 1";
const START_BLACK: &str = "rnbqkbnr/pppppppp/8/8/8/8/PPPPPPPP/RNBQKBNR b KQkq - 0 1";

#[test]
fn history_starts_at_zero() {
    let table = HistoryTable::new();
    for from in 0..64 {
        for to in 0..64 {
            assert_eq!(table.get(Color::White, from, to), 0);
            assert_eq!(table.get(Color::Black, from, to), 0);
        }
    }
    assert_eq!(MAX_VALUE, 512);
}

#[test]
fn history_saturation() {
    let pos = position(START);
    let m = mv("e2e4");
    let mut table = HistoryTable::new();
    let expected = [256, 384, 448, 480, 496, 504, 508, 510, 511, 512, 512, 512];
    let mut last = 0;
    for i in 0..100 {
        table.cutoff(&pos, m, &[], 16);
        let value = table.get(Color::White, m.from, m.to);
        if i < expected.len() {
            assert_eq!(value, expected[i]);
        }
        assert!(value >= last);
        assert!(value as i32 <= MAX_VALUE);
        last = value;
    }
    assert_eq!(last, 512);
}

#[test]
fn history_with_a_smaller_change_rises_more_slowly_to_the_same_bound() {
    let pos = position(START);
    let m = mv("g1f3");
    let mut table = HistoryTable::new();
    let expected = [100, 181, 246, 298, 340, 374, 401, 423];
    let mut last = 0;
    for i in 0..200 {
        table.cutoff(&pos, m, &[], 10);
        let value = table.get(Color::White, m.from, m.to);
        if i < expected.len() {
            assert_eq!(value, expected[i]);
        }
        if i == 23 {
            assert_eq!(last, 511);
            assert_eq!(value, 512);
        }
        assert!(value >= last && value <= 512);
        last = value;
    }
    assert_eq!(last, 512);
}

#[test]
fn history_penalizes_the_moves_that_failed() {
    let pos = position(START);
    let mut table = HistoryTable::new();
    let fails = [mv("d2d4"), mv("b1c3")];
    let expected = [-256, -384, -448, -480, -496, -504, -508, -510, -511, -512, -512];
    for i in 0..expected.len() {
        table.cutoff(&pos, mv("e2e4"), &fails, 16);
        assert_eq!(table.get(Color::White, square("d2"), square("d4")), expected[i]);
        assert_eq!(table.get(Color::White, square("b1"), square("c3")), expected[i]);
    }
    assert_eq!(table.get(Color::White, square("e2"), square("e4")), 512);
    assert_eq!(table.get(Color::White, square("d4"), square("d2")), 0);
}

#[test]
fn history_keeps_the_sides_apart() {
    let mut table = HistoryTable::new();
    table.cutoff(&position(START), mv("e2e4"), &[mv("d2d4")], 5);
    table.cutoff(&position(START_BLACK), mv("e7e5"), &[mv("e2e4")], 7);
    assert_eq!(table.get(Color::White, square("e2"), square("e4")), 25);
    assert_eq!(table.get(Color::White, square("d2"), square("d4")), -25);
    assert_eq!(table.get(Color::Black, square("e7"), square("e5")), 49);
    assert_eq!(table.get(Color::Black, square("e2"), square("e4")), -49);
    assert_eq!(table.get(Color::Black, square("d2"), square("d4")), 0);
    assert_eq!(table.get(Color::White, square("e7"), square("e5")), 0);
}

#[test]
fn history_takes_each_failed_move_in_turn() {
    let pos = position(START);
    let mut table = HistoryTable::new();
    // the cutoff move among the failed ones: first rewarded, then penalized
    table.cutoff(&pos, mv("e2e4"), &[mv("e2e4")], 16);
    assert_eq!(table.get(Color::White, square("e2"), square("e4")), 256 - (256 + 128));
    // a failed move named twice is penalized twice
    table.cutoff(&pos, mv("a2a3"), &[mv("h2h3"), mv("h2h3")], 16);
    assert_eq!(table.get(Color::White, square("h2"), square("h3")), -384);
    assert_eq!(table.get(Color::White, square("a2"), square("a3")), 256);
}

#[test]
fn history_decay_rounds_toward_zero() {
    let pos = position(START);
    let mut table = HistoryTable::new();
    table.cutoff(&pos, mv("e2e4"), &[mv("d2d4")], 3);
    table.cutoff(&pos, mv("e2e4"), &[mv("d2d4")], 22);
    // 9 + 484 - 484 * 9 / 512 = 9 + 484 - 8
    assert_eq!(table.get(Color::White, square("e2"), square("e4")), 485);
    // -9 - (484 + (484 * -9) / 512) = -9 - (484 - 8)
    assert_eq!(table.get(Color::White, square("d2"), square("d4")), -485);
    table.cutoff(&pos, mv("e2e4"), &[mv("d2d4")], 0);
    assert_eq!(table.get(Color::White, square("e2"), square("e4")), 485);
    assert_eq!(table.get(Color::White, square("d2"), square("d4")), -485);
}

#[test]
fn counter_move_is_recorded_for_small_amounts_only() {
    let pos = position("rnbqkbnr/pppp1ppp/8/4p3/4P3/8/PPPP1PPP/RNBQKBNR w KQkq - 0 2");
    let mut table = CounterMoveTable::new();
    assert_eq!(table.get(Color::White, Piece::Pawn, square("e5")), None);
    table.cutoff(&pos, mv("e7e5"), mv("g1f3"), 21);
    assert_eq!(table.get(Color::White, Piece::Pawn, square("e5")), None);
    table.cutoff(&pos, mv("e7e5"), mv("g1f3"), 20);
    assert_eq!(table.get(Color::White, Piece::Pawn, square("e5")), Some(mv("g1f3")));
    table.cutoff(&pos, mv("e7e5"), mv("b1c3"), 0);
    assert_eq!(table.get(Color::White, Piece::Pawn, square("e5")), Some(mv("b1c3")));
    table.cutoff(&pos, mv("e7e5"), mv("d2d4"), u32::MAX);
    assert_eq!(table.get(Color::White, Piece::Pawn, square("e5")), Some(mv("b1c3")));
    assert_eq!(table.get(Color::Black, Piece::Pawn, square("e5")), None);
    assert_eq!(table.get(Color::White, Piece::Knight, square("e5")), None);
    assert_eq!(table.get(Color::White, Piece::Pawn, square("e4")), None);
}

#[test]
fn counter_move_to_an_empty_square_is_filed_under_the_king() {
    let pos = position(START_BLACK);
    let mut table = CounterMoveTable::new();
    table.cutoff(&pos, mv("e2e4"), mv("e7e5"), 1);
    assert_eq!(table.get(Color::Black, Piece::King, square("e4")), Some(mv("e7e5")));
    assert_eq!(table.get(Color::Black, Piece::Pawn, square("e4")), None);
    let promoted = Move { from: 52, to: 60, promotion: Some(Piece::Queen) };
    table.cutoff(&pos, mv("g1f3"), promoted, 2);
    assert_eq!(table.get(Color::Black, Piece::King, square("f3")), Some(promoted));
}

#[test]
fn double_move_history_starts_at_zero() {
    let table = DoubleMoveHistory::new();
    assert_eq!(table.get(Color::White, Piece::Pawn, 0, Piece::Pawn, 0), 0);
    assert_eq!(table.get(Color::Black, Piece::King, 63, Piece::King, 63), 0);
    assert_eq!(table.get(Color::White, Piece::Queen, 17, Piece::Knight, 42), 0);
}

#[test]
fn double_move_history_rewards_the_follow_up() {
    // black has played e7e5; white answers
    let pos = position("rnbqkbnr/pppp1ppp/8/4p3/4P3/8/PPPP1PPP/RNBQKBNR w KQkq - 0 2");
    let mut table = DoubleMoveHistory::new();
    let fails = [mv("b1c3"), mv("d2d4")];
    table.cutoff(&pos, mv("e7e5"), mv("g1f3"), &fails, 16);
    let e5 = square("e5");
    assert_eq!(table.get(Color::White, Piece::Pawn, e5, Piece::Knight, square("f3")), 256);
    assert_eq!(table.get(Color::White, Piece::Pawn, e5, Piece::Knight, square("c3")), -256);
    assert_eq!(table.get(Color::White, Piece::Pawn, e5, Piece::Pawn, square("d4")), -256);
    assert_eq!(table.get(Color::Black, Piece::Pawn, e5, Piece::Knight, square("f3")), 0);
    assert_eq!(table.get(Color::White, Piece::Knight, e5, Piece::Knight, square("f3")), 0);
    assert_eq!(table.get(Color::White, Piece::Pawn, square("e4"), Piece::Knight, square("f3")), 0);
    assert_eq!(table.get(Color::White, Piece::Pawn, e5, Piece::Pawn, square("f3")), 0);
    table.cutoff(&pos, mv("e7e5"), mv("g1f3"), &fails, 16);
    assert_eq!(table.get(Color::White, Piece::Pawn, e5, Piece::Knight, square("f3")), 384);
    assert_eq!(table.get(Color::White, Piece::Pawn, e5, Piece::Knight, square("c3")), -384);
}

#[test]
fn double_move_history_stays_within_its_bound() {
    let pos = position("rnbqkbnr/pppp1ppp/8/4p3/4P3/8/PPPP1PPP/RNBQKBNR w KQkq - 0 2");
    let mut table = DoubleMoveHistory::new();
    let fails = [mv("b1c3")];
    for _ in 0..50 {
        table.cutoff(&pos, mv("e7e5"), mv("g1f3"), &fails, 22);
        let up = table.get(Color::White, Piece::Pawn, square("e5"), Piece::Knight, square("f3"));
        let down = table.get(Color::White, Piece::Pawn, square("e5"), Piece::Knight, square("c3"));
        assert!(-512 <= down && down <= 0 && 0 <= up && up <= 512);
    }
    assert_eq!(table.get(Color::White, Piece::Pawn, square("e5"), Piece::Knight, square("f3")), 512);
    assert_eq!(table.get(Color::White, Piece::Pawn, square("e5"), Piece::Knight, square("c3")), -512);
}

#[test]
fn double_move_history_after_a_move_to_an_empty_square() {
    let pos = position(START);
    let mut table = DoubleMoveHistory::new();
    // nothing stands on e5: the earlier move is filed under the king
    table.cutoff(&pos, mv("e7e5"), mv("e2e4"), &[], 4);
    assert_eq!(table.get(Color::White, Piece::King, square("e5"), Piece::Pawn, square("e4")), 16);
    assert_eq!(table.get(Color::White, Piece::Pawn, square("e5"), Piece::Pawn, square("e4")), 0);
}

#[test]
fn history_tells_an_entry_beyond_its_bound() {
    let mut table = HistoryTable::new();
    assert!(table.is_wf());
    table.cutoff(&position(START), mv("e2e4"), &[mv("d2d4")], 22);
    assert!(table.is_wf());
    table.table[1][63][63] = 512;
    table.table[0][0][0] = -512;
    assert!(table.is_wf());
    table.table[1][63][63] = 513;
    assert!(!table.is_wf());
    table.table[1][63][63] = 0;
    table.table[0][17][40] = -513;
    assert!(!table.is_wf());
}

#[test]
fn double_move_history_tells_an_entry_beyond_its_bound() {
    let mut table = DoubleMoveHistory::new();
    assert!(table.is_wf());
    table.table[1][5][63][5][63] = 512;
    table.table[0][0][0][0][0] = -512;
    assert!(table.is_wf());
    table.table[1][5][63][5][63] = 513;
    assert!(!table.is_wf());
    table.table[1][5][63][5][63] = 0;
    table.table[0][2][9][4][33] = i16::MIN;
    assert!(!table.is_wf());
}
