use bm_core::board::{Color, Move, Piece, Position};
use bm_core::layers::{BitLinear, Linear};
use bm_core::model::Nnue;
use bm_core::nnue::{changes_for, halfka_feature, ChangeList, FeatureChange, NnueState, MAX_PLY};
use bm_core::nnue_laws::holds_result_of;
use std::sync::Arc;

/// A network with small pseudo-random weights.
fn sample_nnue() -> Nnue {
    let mut state: u32 = 0x1234_5678;
    let mut next = move || {
        state = state.wrapping_mul(1664525).wrapping_add(1013904223);
        ((state >> 16) % 127) as i16 - 63
    };
    let mut rows: Vec<[i16; 256]> = Vec::with_capacity(49152);
    for _ in 0..49152 {
        let mut row = [0i16; 256];
        for w in row.iter_mut() {
            *w = next();
        }
        rows.push(row);
    }
    let weights: Box<[[i16; 256]; 49152]> = match rows.into_boxed_slice().try_into() {
        Ok(b) => b,
        Err(_) => panic!("wrong number of rows"),
    };
    let mut biases = [0i16; 256];
    for b in biases.iter_mut() {
        *b = next() + 100;
    }
    let mut l1_weights = [[0i8; 512]; 1];
    for w in l1_weights[0].iter_mut() {
        *w = next() as i8;
    }
    Nnue { ft: BitLinear { weights, biases }, l1: Linear { weights: l1_weights, biases: [1234] } }
}

fn board(fen: &str) -> cozy_chess::Board {
    fen.parse::<cozy_chess::Board>().unwrap()
}

fn square(name: &str) -> u8 {
    let bytes = name.as_bytes();
    (bytes[1] - b'1') * 8 + (bytes[0] - b'a')
}

/// A move in coordinate notation; castling is the king taking its rook.
fn mv(text: &str) -> Move {
    let promotion = match text.as_bytes().get(4) {
        Some(b'q') => Some(Piece::Queen),
        Some(b'r') => Some(Piece::Rook),
        Some(b'b') => Some(Piece::Bishop),
        Some(b'n') => Some(Piece::Knight),
        _ => None,
    };
    Move { from: square(&text[0..2]), to: square(&text[2..4]), promotion }
}

fn played(before: &cozy_chess::Board, text: &str) -> cozy_chess::Board {
    let mut after = before.clone();
    after.play_unchecked(text.parse::<cozy_chess::Move>().unwrap());
    after
}

/// The accumulator of a board, summed piece by piece from the definition.
fn from_scratch(nnue: &Nnue, b: &cozy_chess::Board) -> [[i16; 256]; 2] {
    let mut acc = [nnue.ft.biases; 2];
    for perspective in 0..2usize {
        let own = if perspective == 0 { cozy_chess::Color::White } else { cozy_chess::Color::Black };
        let king = b.king(own) as usize;
        for sq in b.occupied() {
            let piece = b.piece_on(sq).unwrap() as usize;
            let color = b.color_on(sq).unwrap() as usize;
            let s = sq as usize;
            let index = if perspective == 0 {
                ((king * 2 + color) * 6 + piece) * 64 + s
            } else {
                (((king ^ 56) * 2 + (1 - color)) * 6 + piece) * 64 + (s ^ 56)
            };
            for j in 0..256 {
                acc[perspective][j] = acc[perspective][j].wrapping_add(nnue.ft.weights[index][j]);
            }
        }
    }
    acc
}

/// The score of an accumulator, computed from the definition.
fn score_of(nnue: &Nnue, acc: &[[i16; 256]; 2], stm: usize) -> i16 {
    let mut sum: i64 = nnue.l1.biases[0] as i64;
    for half in 0..2usize {
        let side = if half == 0 { stm } else { 1 - stm };
        for k in 0..256 {
            let clamped = acc[side][k].max(0).min(255) as i64;
            let activation = (clamped * clamped) >> 8;
            sum += nnue.l1.weights[0][half * 256 + k] as i64 * activation;
        }
    }
    let q = sum * 400 / 16320;
    q.max(-32768).min(32767) as i16
}

fn top(state: &NnueState) -> [[i16; 256]; 2] {
    state.accumulator[state.head].accumulator
}

/// Follows `text` on `fen` and holds the result against a recomputation
/// from the board after the move.
fn follows_like_reset(fen: &str, text: &str) {
    let nnue = Arc::new(sample_nnue());
    let before = board(fen);
    let after = played(&before, text);
    let mut state = NnueState::new(nnue.clone());
    state.full_reset(&Position::from_cozy(&before));
    assert_eq!(top(&state), from_scratch(&nnue, &before));
    // but for moves of the king, the board that is left is as the library describes it
    let moved = Position::from_cozy(&before).piece_on(mv(text).from);
    assert_eq!(
        holds_result_of(&Position::from_cozy(&before), mv(text), &Position::from_cozy(&after)),
        moved != Some(Piece::King)
    );
    state.make_move(&before, mv(text));
    assert_eq!(state.head, 1);
    assert_eq!(top(&state), from_scratch(&nnue, &after));
    let mut fresh = NnueState::new(nnue.clone());
    fresh.full_reset(&Position::from_cozy(&after));
    assert_eq!(top(&state), top(&fresh));
    assert_eq!(state.feed_forward(Color::White), fresh.feed_forward(Color::White));
    assert_eq!(state.feed_forward(Color::Black), fresh.feed_forward(Color::Black));
}

#[test]
fn halfka_feature_of_white_perspective() {
    // king e1 (4), white (0), knight (1), on g1 (6)
    assert_eq!(halfka_feature(Color::White, 4, Color::White, Piece::Knight, 6), ((4 * 2) * 6 + 1) * 64 + 6);
    assert_eq!(halfka_feature(Color::White, 63, Color::Black, Piece::King, 63), 49151);
    assert_eq!(halfka_feature(Color::White, 0, Color::White, Piece::Pawn, 0), 0);
}

#[test]
fn halfka_feature_of_black_perspective_flips_ranks_and_colors() {
    // king e8 (60) is seen on e1 (4); a black pawn on e7 (52) is seen as a white pawn on e2 (12)
    assert_eq!(halfka_feature(Color::Black, 60, Color::Black, Piece::Pawn, 52), ((4 * 2) * 6) * 64 + 12);
    // a white queen on d1 (3) is seen as a black queen on d8 (59)
    assert_eq!(
        halfka_feature(Color::Black, 60, Color::White, Piece::Queen, 3),
        ((4 * 2 + 1) * 6 + 4) * 64 + 59
    );
}

#[test]
fn new_state_holds_biases_on_every_ply() {
    let nnue = Arc::new(sample_nnue());
    let state = NnueState::new(nnue.clone());
    assert_eq!(state.head, 0);
    assert_eq!(state.accumulator.len(), MAX_PLY + 1);
    for acc in state.accumulator.iter() {
        assert_eq!(acc.accumulator[0], nnue.ft.biases);
        assert_eq!(acc.accumulator[1], nnue.ft.biases);
    }
}

#[test]
fn reset_sums_every_piece() {
    let nnue = Arc::new(sample_nnue());
    let b = board("r1bqk2r/pppp1ppp/2n2n2/1B2p3/1b2P3/2N2N2/PPPP1PPP/R1BQK2R w KQkq - 6 5");
    let mut state = NnueState::new(nnue.clone());
    state.reset(&Position::from_cozy(&b));
    assert_eq!(top(&state), from_scratch(&nnue, &b));
    assert_ne!(top(&state), [nnue.ft.biases; 2]);
}

#[test]
fn starting_position_is_symmetric() {
    let nnue = Arc::new(sample_nnue());
    let mut state = NnueState::new(nnue.clone());
    state.reset(&Position::from_cozy(&cozy_chess::Board::default()));
    let acc = top(&state);
    assert_eq!(acc[0], acc[1]);
    let white = state.feed_forward(Color::White);
    let black = state.feed_forward(Color::Black);
    assert_eq!(white, black);
    assert_eq!(white, score_of(&nnue, &acc, 0));
}

#[test]
fn feed_forward_puts_the_side_to_move_first() {
    let nnue = Arc::new(sample_nnue());
    let b = board("r1bqk2r/pppp1ppp/2n2n2/1B2p3/1b2P3/2N2N2/PPPP1PPP/R1BQK2R w KQkq - 6 5");
    let mut state = NnueState::new(nnue.clone());
    state.reset(&Position::from_cozy(&played(&b, "b5c6")));
    let acc = top(&state);
    let white = state.feed_forward(Color::White);
    let black = state.feed_forward(Color::Black);
    assert_eq!(white, score_of(&nnue, &acc, 0));
    assert_eq!(black, score_of(&nnue, &acc, 1));
    assert_ne!(white, black);
    assert_eq!(top(&state), acc);
}

#[test]
fn incremental_equals_batch() {
    let nnue = Arc::new(sample_nnue());
    let moves = ["e2e4", "e7e5", "g1f3", "b8c6", "f1b5", "a7a6", "b5a4", "g8f6", "e1h1", "f8e7"];
    let mut state = NnueState::new(nnue.clone());
    let mut b = cozy_chess::Board::default();
    state.full_reset(&Position::from_cozy(&b));
    for (ply, text) in moves.iter().enumerate() {
        state.make_move(&b, mv(text));
        let before = Position::from_cozy(&b);
        b = played(&b, text);
        assert_eq!(holds_result_of(&before, mv(text), &Position::from_cozy(&b)), *text != "e1h1");
        assert_eq!(state.head, ply + 1);
        assert_eq!(top(&state), from_scratch(&nnue, &b));
    }
    let stm = Color::White;
    let incremental = state.feed_forward(stm);
    let mut fresh = NnueState::new(nnue.clone());
    fresh.full_reset(&Position::from_cozy(&b));
    assert_eq!(fresh.head, 0);
    assert_eq!(incremental, fresh.feed_forward(stm));
    assert_eq!(state.feed_forward(Color::Black), fresh.feed_forward(Color::Black));
}

#[test]
fn quiet_move_follows() {
    follows_like_reset("rnbqkbnr/pppppppp/8/8/8/8/PPPPPPPP/RNBQKBNR w KQkq - 0 1", "g1f3");
}

#[test]
fn capture_takes_the_captured_piece_away() {
    follows_like_reset("rnbqkbnr/ppp1pppp/8/3p4/4P3/8/PPPP1PPP/RNBQKBNR w KQkq - 0 2", "e4d5");
}

#[test]
fn black_capture_follows() {
    follows_like_reset("rnbqkbnr/ppp1pppp/8/3p4/4P3/5N2/PPPP1PPP/RNBQKB1R b KQkq - 1 2", "d5e4");
}

#[test]
fn king_move_refreshes() {
    follows_like_reset("4k3/8/8/8/8/8/8/4K3 w - - 0 1", "e1e2");
    follows_like_reset("4k3/8/8/8/8/8/8/4K3 b - - 0 1", "e8d7");
}

#[test]
fn king_capture_refreshes() {
    follows_like_reset("4k3/8/8/8/8/8/3p4/4K3 w - - 0 1", "e1d2");
}

#[test]
fn en_passant_takes_the_passed_pawn_away() {
    follows_like_reset("rnbqkbnr/ppp1pppp/8/3pP3/8/8/PPPP1PPP/RNBQKBNR w KQkq d6 0 3", "e5d6");
}

#[test]
fn en_passant_by_black_takes_the_passed_pawn_away() {
    follows_like_reset("rnbqkbnr/pppp1ppp/8/8/3Pp3/8/PPP1PPPP/RNBQKBNR b KQkq d3 0 3", "e4d3");
}

#[test]
fn pawn_move_beside_the_en_passant_file_is_a_plain_move() {
    follows_like_reset("rnbqkbnr/ppp1pppp/8/3pP3/8/8/PPPP1PPP/RNBQKBNR w KQkq d6 0 3", "e5e6");
}

#[test]
fn castling_kingside_places_king_and_rook() {
    follows_like_reset("r3k2r/8/8/8/8/8/8/R3K2R w KQkq - 0 1", "e1h1");
    follows_like_reset("r3k2r/8/8/8/8/8/8/R3K2R b KQkq - 0 1", "e8h8");
}

#[test]
fn castling_queenside_places_king_and_rook() {
    follows_like_reset("r3k2r/8/8/8/8/8/8/R3K2R w KQkq - 0 1", "e1a1");
    follows_like_reset("r3k2r/8/8/8/8/8/8/R3K2R b KQkq - 0 1", "e8a8");
}

#[test]
fn promotion_replaces_the_pawn() {
    follows_like_reset("8/P6k/8/8/8/8/8/K7 w - - 0 1", "a7a8q");
    follows_like_reset("8/P6k/8/8/8/8/8/K7 w - - 0 1", "a7a8n");
    follows_like_reset("7k/8/8/8/8/8/p7/7K b - - 0 1", "a2a1r");
}

#[test]
fn promotion_with_capture_follows() {
    follows_like_reset("1r5k/P7/8/8/8/8/8/K7 w - - 0 1", "a7b8q");
}

#[test]
fn changes_of_a_capture_are_lift_capture_drop() {
    let b = board("rnbqkbnr/ppp1pppp/8/3p4/4P3/8/PPPP1PPP/RNBQKBNR w KQkq - 0 2");
    let list = changes_for(&Position::from_cozy(&b), mv("e4d5"));
    assert_eq!(list.len, 3);
    let lifted = list.items[0];
    assert_eq!((lifted.incr, lifted.sq, lifted.piece, lifted.color), (false, 28, Piece::Pawn, Color::White));
    let captured = list.items[1];
    assert_eq!((captured.incr, captured.sq, captured.piece, captured.color), (false, 35, Piece::Pawn, Color::Black));
    let dropped = list.items[2];
    assert_eq!((dropped.incr, dropped.sq, dropped.piece, dropped.color), (true, 35, Piece::Pawn, Color::White));
}

#[test]
fn changes_of_en_passant_name_the_passed_pawn() {
    let b = board("rnbqkbnr/ppp1pppp/8/3pP3/8/8/PPPP1PPP/RNBQKBNR w KQkq d6 0 3");
    let list = changes_for(&Position::from_cozy(&b), mv("e5d6"));
    assert_eq!(list.len, 3);
    let passed = list.items[1];
    assert_eq!((passed.incr, passed.sq, passed.piece, passed.color), (false, 35, Piece::Pawn, Color::Black));
    let dropped = list.items[2];
    assert_eq!((dropped.incr, dropped.sq, dropped.piece, dropped.color), (true, 43, Piece::Pawn, Color::White));
}

#[test]
fn changes_of_a_move_onto_an_own_piece_place_king_and_rook() {
    let b = board("r3k2r/8/8/8/8/8/8/R3K2R w KQkq - 0 1");
    let pos = Position::from_cozy(&b);
    let short = changes_for(&pos, mv("a1h1"));
    assert_eq!(short.len, 4);
    assert_eq!((short.items[2].incr, short.items[2].sq, short.items[2].piece), (true, 6, Piece::King));
    assert_eq!((short.items[3].incr, short.items[3].sq, short.items[3].piece), (true, 5, Piece::Rook));
    let long = changes_for(&pos, mv("h1a1"));
    assert_eq!(long.len, 4);
    assert_eq!((long.items[2].incr, long.items[2].sq, long.items[2].piece), (true, 2, Piece::King));
    assert_eq!((long.items[3].incr, long.items[3].sq, long.items[3].piece), (true, 3, Piece::Rook));
}

#[test]
fn make_then_unmake_restores_head_and_accumulator() {
    let nnue = Arc::new(sample_nnue());
    let b = cozy_chess::Board::default();
    let mut state = NnueState::new(nnue.clone());
    state.full_reset(&Position::from_cozy(&b));
    let before = top(&state);
    state.make_move(&b, mv("e2e4"));
    assert_eq!(state.head, 1);
    assert_ne!(top(&state), before);
    assert_eq!(state.accumulator[0].accumulator, before);
    state.unmake_move();
    assert_eq!(state.head, 0);
    assert_eq!(top(&state), before);
}

#[test]
fn null_move_copies_the_accumulator() {
    let nnue = Arc::new(sample_nnue());
    let b = cozy_chess::Board::default();
    let mut state = NnueState::new(nnue.clone());
    state.full_reset(&Position::from_cozy(&b));
    let before = top(&state);
    state.null_move();
    assert_eq!(state.head, 1);
    assert_eq!(top(&state), before);
    state.unmake_move();
    assert_eq!(state.head, 0);
    assert_eq!(top(&state), before);
}

#[test]
fn full_reset_goes_back_to_ply_zero() {
    let nnue = Arc::new(sample_nnue());
    let b = cozy_chess::Board::default();
    let mut state = NnueState::new(nnue.clone());
    state.full_reset(&Position::from_cozy(&b));
    state.make_move(&b, mv("e2e4"));
    state.null_move();
    assert_eq!(state.head, 2);
    let after = played(&b, "d2d4");
    state.full_reset(&Position::from_cozy(&after));
    assert_eq!(state.head, 0);
    assert_eq!(top(&state), from_scratch(&nnue, &after));
}

#[test]
fn try_make_move_follows_a_legal_move() {
    let nnue = Arc::new(sample_nnue());
    let b = cozy_chess::Board::default();
    let mut state = NnueState::new(nnue.clone());
    state.full_reset(&Position::from_cozy(&b));
    assert!(state.try_make_move(&b, mv("g1f3")));
    assert_eq!(state.head, 1);
    assert_eq!(top(&state), from_scratch(&nnue, &played(&b, "g1f3")));
}

#[test]
fn try_make_move_refuses_a_move_from_an_empty_square() {
    let nnue = Arc::new(sample_nnue());
    let b = cozy_chess::Board::default();
    let mut state = NnueState::new(nnue.clone());
    state.full_reset(&Position::from_cozy(&b));
    let before = top(&state);
    assert!(!state.try_make_move(&b, mv("e4e5")));
    assert_eq!(state.head, 0);
    assert_eq!(top(&state), before);
    assert!(!state.try_make_move(&b, Move { from: 64, to: 0, promotion: None }));
    assert_eq!(state.head, 0);
}

#[test]
fn try_make_move_refuses_at_the_deepest_ply() {
    let nnue = Arc::new(sample_nnue());
    let b = cozy_chess::Board::default();
    let mut state = NnueState::new(nnue.clone());
    state.full_reset(&Position::from_cozy(&b));
    for _ in 0..MAX_PLY {
        state.null_move();
    }
    assert_eq!(state.head, MAX_PLY);
    assert!(!state.try_make_move(&b, mv("e2e4")));
    assert_eq!(state.head, MAX_PLY);
}

#[test]
fn position_from_cozy_reads_the_bitboards() {
    let b = board("rnbqkbnr/ppp1pppp/8/3pP3/8/8/PPPP1PPP/RNBQKBNR w KQkq d6 0 3");
    let pos = Position::from_cozy(&b);
    assert_eq!(pos.pieces[0], 0x00f7_0018_0000_ef00);
    assert_eq!(pos.pieces[5], 0x1000_0000_0000_0010);
    assert_eq!(pos.colors[0], 0x0000_0010_0000_efff);
    assert_eq!(pos.colors[1], 0xfff7_0008_0000_0000);
    assert_eq!(pos.side_to_move, Color::White);
    assert_eq!(pos.en_passant, Some(3));
    let after = played(&b, "e5d6");
    let next = Position::from_cozy(&after);
    assert_eq!(next.side_to_move, Color::Black);
    assert_eq!(next.en_passant, None);
    assert_eq!(next.pieces[0], 0x00f7_0800_0000_ef00);
}

#[test]
fn new_change_list_is_empty_with_blank_slots() {
    let mut list = ChangeList::new();
    assert_eq!(list.len, 0);
    for slot in list.items.iter() {
        assert_eq!((slot.incr, slot.sq, slot.piece, slot.color), (false, 0, Piece::Pawn, Color::White));
    }
    list.push(FeatureChange { incr: true, sq: 9, piece: Piece::Rook, color: Color::Black });
    assert_eq!(list.len, 1);
    let first = list.items[0];
    assert_eq!((first.incr, first.sq, first.piece, first.color), (true, 9, Piece::Rook, Color::Black));
    let second = list.items[1];
    assert_eq!((second.incr, second.sq, second.piece, second.color), (false, 0, Piece::Pawn, Color::White));
}

#[test]
fn state_tells_whether_it_is_in_order() {
    let mut state = NnueState::new(Arc::new(sample_nnue()));
    assert!(state.is_wf());
    state.head = MAX_PLY;
    assert!(state.is_wf());
    state.head = MAX_PLY + 1;
    assert!(!state.is_wf());
    state.head = 0;
    state.accumulator.pop();
    assert!(!state.is_wf());
    let mut nnue = sample_nnue();
    nnue.l1.biases[0] = i32::MAX;
    let unfit = NnueState { nnue: Arc::new(nnue), accumulator: vec![], head: 0 };
    assert!(!unfit.is_wf());
}

#[test]
fn holds_result_of_tells_another_board() {
    let before = board("rnbqkbnr/ppp1pppp/8/3pP3/8/8/PPPP1PPP/RNBQKBNR w KQkq d6 0 3");
    let pos = Position::from_cozy(&before);
    let taken = Position::from_cozy(&played(&before, "e5d6"));
    let pushed = Position::from_cozy(&played(&before, "e5e6"));
    assert!(holds_result_of(&pos, mv("e5d6"), &taken));
    assert!(holds_result_of(&pos, mv("e5e6"), &pushed));
    assert!(!holds_result_of(&pos, mv("e5d6"), &pushed));
    assert!(!holds_result_of(&pos, mv("e5e6"), &taken));
    assert!(!holds_result_of(&pos, mv("e5d6"), &pos));
    // the pawn that was passed still stands
    let mut left = taken;
    left.pieces[0] |= 1 << 35;
    left.colors[1] |= 1 << 35;
    assert!(!holds_result_of(&pos, mv("e5d6"), &left));
    // a piece more on a square that the move does not touch
    let mut more = pushed;
    more.pieces[1] |= 1 << 20;
    more.colors[0] |= 1 << 20;
    assert!(!holds_result_of(&pos, mv("e5e6"), &more));
    // nothing stands on the source, or the two squares are one, or a king moves
    assert!(!holds_result_of(&pos, mv("e4e5"), &pushed));
    assert!(!holds_result_of(&pos, mv("e5e5"), &pos));
    assert!(!holds_result_of(&pos, mv("e1e2"), &Position::from_cozy(&played(&before, "e1e2"))));
    // the piece of the other side, or a move onto a piece of the own side
    assert!(!holds_result_of(&pos, mv("d5d4"), &Position::from_cozy(&played(&before, "e5e6"))));
    assert!(!holds_result_of(&pos, mv("a1a2"), &pos));
    assert!(!holds_result_of(&pos, Move { from: 36, to: 64, promotion: None }, &pushed));
    // promotion to another kind than the board shows
    let last = board("8/P6k/8/8/8/8/8/K7 w - - 0 1");
    let queened = Position::from_cozy(&played(&last, "a7a8q"));
    assert!(holds_result_of(&Position::from_cozy(&last), mv("a7a8q"), &queened));
    assert!(!holds_result_of(&Position::from_cozy(&last), mv("a7a8r"), &queened));
    assert!(!holds_result_of(&Position::from_cozy(&last), mv("a7a8"), &queened));
}
