use bm_core::board::{has_square, lowest_square, popcnt, square_bit, Color, Move, Piece, Position};

fn position() -> Position {
    // white: Ke1, Qd1, pawns a2 e4; black: Ke8, Nf6, pawn e5; white to move
    Position {
        pieces: [
            (1 << 8) | (1 << 28) | (1 << 36),
            1 << 45,
            0,
            0,
            1 << 3,
            (1 << 4) | (1 << 60),
        ],
        colors: [(1 << 3) | (1 << 4) | (1 << 8) | (1 << 28), (1 << 36) | (1 << 45) | (1 << 60)],
        side_to_move: Color::White,
        en_passant: None,
    }
}

#[test]
fn colors_and_kinds_have_their_indices() {
    assert_eq!(Color::White.index(), 0);
    assert_eq!(Color::Black.index(), 1);
    assert_eq!(Color::White.flip(), Color::Black);
    assert_eq!(Color::Black.flip(), Color::White);
    let kinds = [Piece::Pawn, Piece::Knight, Piece::Bishop, Piece::Rook, Piece::Queen, Piece::King];
    for (i, kind) in kinds.iter().enumerate() {
        assert_eq!(kind.index(), i);
        assert_eq!(Piece::from_index(i), *kind);
    }
    assert_eq!(Piece::from_index(6), Piece::King);
}

#[test]
fn bitboard_helpers() {
    assert_eq!(popcnt(0), 0);
    assert_eq!(popcnt(1), 1);
    assert_eq!(popcnt(u64::MAX), 64);
    assert_eq!(popcnt(0x8000_0000_0000_0001), 2);
    assert_eq!(popcnt(0x00ff_0000_0000_ff00), 16);
    assert_eq!(lowest_square(0), 64);
    assert_eq!(lowest_square(1), 0);
    assert_eq!(lowest_square(0x8000_0000_0000_0000), 63);
    assert_eq!(lowest_square(0b1011000), 3);
    assert!(has_square(1, 0));
    assert!(!has_square(1, 1));
    assert!(has_square(1 << 63, 63));
    assert!(!has_square(u64::MAX, 64));
    assert!(!has_square(u64::MAX, 255));
    assert_eq!(square_bit(0), 1);
    assert_eq!(square_bit(63), 1 << 63);
    assert_eq!(square_bit(28), 0x1000_0000);
}

#[test]
fn moves_know_whether_they_are_on_the_board() {
    assert!(Move { from: 0, to: 63, promotion: None }.is_wf());
    assert!(!Move { from: 64, to: 0, promotion: None }.is_wf());
    assert!(!Move { from: 0, to: 64, promotion: Some(Piece::Queen) }.is_wf());
}

#[test]
fn position_answers_what_stands_where() {
    let pos = position();
    assert_eq!(pos.piece_on(4), Some(Piece::King));
    assert_eq!(pos.piece_on(3), Some(Piece::Queen));
    assert_eq!(pos.piece_on(45), Some(Piece::Knight));
    assert_eq!(pos.piece_on(36), Some(Piece::Pawn));
    assert_eq!(pos.piece_on(0), None);
    assert_eq!(pos.piece_on(64), None);
    assert_eq!(pos.color_on(28), Some(Color::White));
    assert_eq!(pos.color_on(36), Some(Color::Black));
    assert_eq!(pos.color_on(35), None);
    assert_eq!(pos.piece_and_color_on(60), Some((Piece::King, Color::Black)));
    assert_eq!(pos.piece_and_color_on(8), Some((Piece::Pawn, Color::White)));
    assert_eq!(pos.piece_and_color_on(9), None);
    assert_eq!(pos.pieces(Piece::Pawn), (1 << 8) | (1 << 28) | (1 << 36));
    assert_eq!(pos.pieces(Piece::King), (1 << 4) | (1 << 60));
    assert_eq!(pos.colors(Color::Black), (1 << 36) | (1 << 45) | (1 << 60));
    assert_eq!(pos.occupied(), (1 << 3) | (1 << 4) | (1 << 8) | (1 << 28) | (1 << 36) | (1 << 45) | (1 << 60));
}

#[test]
fn position_finds_its_kings() {
    let mut pos = position();
    assert_eq!(pos.king(Color::White), 4);
    assert_eq!(pos.king(Color::Black), 60);
    assert!(pos.both_kings());
    pos.pieces[5] = 1 << 4;
    assert!(!pos.both_kings());
    assert_eq!(pos.king(Color::Black), 64);
    pos.pieces[5] = 1 << 60;
    assert!(!pos.both_kings());
    assert_eq!(pos.king(Color::White), 64);
}

#[test]
fn kind_of_an_overlapping_square_is_the_first_in_order() {
    let mut pos = position();
    pos.pieces[1] |= 1 << 3;
    assert_eq!(pos.piece_on(3), Some(Piece::Knight));
    pos.colors[1] |= 1 << 3;
    assert_eq!(pos.color_on(3), Some(Color::White));
    pos.pieces[0] = 0;
    pos.pieces[1] = 0;
    assert_eq!(pos.piece_and_color_on(28), None);
    assert_eq!(pos.color_on(28), Some(Color::White));
}
