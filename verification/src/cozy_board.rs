use vstd::prelude::*;
use crate::board::{Color, Move, Piece, Position};

verus! {

/// A board of the `cozy_chess` crate; the library carries it through and
/// reads it by the functions below.
#[verifier::external_type_specification]
#[verifier::external_body]
pub struct ExCozyBoard(cozy_chess::Board);

/// What a board of the `cozy_chess` crate holds: its piece and color
/// bitboards, its side to move and its en-passant file.
pub uninterp spec fn cozy_position(board: cozy_chess::Board) -> Position;

/// The board that `cozy_chess::Board::play_unchecked` leaves for a move.
pub uninterp spec fn cozy_after(board: cozy_chess::Board, mv: Move) -> cozy_chess::Board;

/// Whether the `cozy_chess` crate can make `mv` on a board that holds `pos`:
/// both squares are on the board, a piece stands on the source, and the
/// side not to move has a king.
pub open spec fn movable(pos: Position, mv: Move) -> bool {
    &&& mv.wf()
    &&& pos.kind_at(mv.from as int) is Some
    &&& pos.king_mask(pos.side_to_move.other()) != 0
}

/// Calls `cozy_chess::Board::pieces`, which hands out the bitboard of one
/// kind.
#[verifier::external_body]
fn pieces_of(board: &cozy_chess::Board, kind: Piece) -> (r: u64)
    ensures
        r == cozy_position(*board).pieces@[kind.idx()],
{
    board.pieces(cozy_chess::Piece::index(kind.index())).0
}

/// Calls `cozy_chess::Board::colors`, which hands out the bitboard of one
/// color.
#[verifier::external_body]
fn colors_of(board: &cozy_chess::Board, color: Color) -> (r: u64)
    ensures
        r == cozy_position(*board).colors@[color.idx()],
{
    board.colors(cozy_chess::Color::index(color.index())).0
}

/// Calls `cozy_chess::Board::side_to_move`.
#[verifier::external_body]
fn side_to_move_of(board: &cozy_chess::Board) -> (r: Color)
    ensures
        r == cozy_position(*board).side_to_move,
{
    match board.side_to_move() {
        cozy_chess::Color::White => Color::White,
        cozy_chess::Color::Black => Color::Black,
    }
}

/// Calls `cozy_chess::Board::en_passant`, which hands out the file of a
/// possible en-passant capture, one of eight.
#[verifier::external_body]
fn en_passant_of(board: &cozy_chess::Board) -> (r: Option<u8>)
    ensures
        r == cozy_position(*board).en_passant,
        r matches Some(f) ==> f < 8,
{
    board.en_passant().map(|f| f as u8)
}

/// Calls `cozy_chess::Board::play_unchecked` on a copy of `board`. That
/// function does not test the move for legality; it expects a piece on the
/// source square and a king of the side not to move.
#[verifier::external_body]
pub(crate) fn play_unchecked(board: &cozy_chess::Board, mv: Move) -> (r: cozy_chess::Board)
    requires
        movable(cozy_position(*board), mv),
    ensures
        r == cozy_after(*board, mv),
{
    let mut next = board.clone();
    next.play_unchecked(cozy_chess::Move {
        from: cozy_chess::Square::index(mv.from as usize),
        to: cozy_chess::Square::index(mv.to as usize),
        promotion: mv.promotion.map(|p| cozy_chess::Piece::index(p.index())),
    });
    next
}

impl Position {
    /// The plain values of a board of the `cozy_chess` crate.
    pub fn from_cozy(board: &cozy_chess::Board) -> (r: Position)
        ensures
            r == cozy_position(*board),
            r.wf(),
    {
        let r = Position {
            pieces: [
                pieces_of(board, Piece::Pawn),
                pieces_of(board, Piece::Knight),
                pieces_of(board, Piece::Bishop),
                pieces_of(board, Piece::Rook),
                pieces_of(board, Piece::Queen),
                pieces_of(board, Piece::King),
            ],
            colors: [colors_of(board, Color::White), colors_of(board, Color::Black)],
            side_to_move: side_to_move_of(board),
            en_passant: en_passant_of(board),
        };
        proof {
            let named = cozy_position(*board);
            assert(r.pieces@ =~= named.pieces@);
            assert(r.colors@ =~= named.colors@);
            assert(r.pieces == named.pieces);
            assert(r.colors == named.colors);
        }
        r
    }
}

/// Whether `mv` can be made on a board that holds `pos`.
pub fn is_movable(pos: &Position, mv: Move) -> (r: bool)
    ensures
        r == movable(*pos, mv),
{
    mv.is_wf() && pos.piece_on(mv.from).is_some() && (pos.pieces[5]
        & pos.colors[pos.side_to_move.flip().index()]) != 0
}

} // verus!
