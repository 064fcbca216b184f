use vstd::prelude::*;
use crate::board::{bit, is_set, Position, Color, Move, Piece};

verus! {

/// A board of the `chess` crate; the library carries it through and reads
/// it by the functions below.
#[verifier::external_type_specification]
#[verifier::external_body]
pub struct ExChessBoard(chess::Board);

/// What a board of the `chess` crate holds: its piece and color bitboards,
/// its side to move and the file of its en-passant square.
pub uninterp spec fn chess_position(board: chess::Board) -> Position;

/// The board that `chess::Board::make_move_new` gives for a move.
pub uninterp spec fn chess_after(board: chess::Board, mv: Move) -> chess::Board;

/// Whether the `chess` crate can make `mv` on a board that holds `pos`: both
/// squares are on the board, exactly one color stands on the source, and the
/// side not to move has a king on a square other than the move's two.
pub open spec fn playable(pos: Position, mv: Move) -> bool {
    &&& mv.wf()
    &&& is_set(pos.colors@[0] ^ pos.colors@[1], mv.from as int)
    &&& pos.king_mask(pos.side_to_move.other()) & !bit(mv.from as int) & !bit(mv.to as int) != 0
}

/// Calls `chess::Board::pieces`, which hands out the bitboard of one
/// kind.
#[verifier::external_body]
fn pieces_of(board: &chess::Board, kind: Piece) -> (r: u64)
    ensures
        r == chess_position(*board).pieces@[kind.idx()],
{
    board.pieces(chess::ALL_PIECES[kind.index()]).0
}

/// Calls `chess::Board::color_combined`, which hands out the bitboard of
/// one color.
#[verifier::external_body]
fn colors_of(board: &chess::Board, color: Color) -> (r: u64)
    ensures
        r == chess_position(*board).colors@[color.idx()],
{
    board.color_combined(chess::ALL_COLORS[color.index()]).0
}

/// Calls `chess::Board::side_to_move`.
#[verifier::external_body]
fn side_to_move_of(board: &chess::Board) -> (r: Color)
    ensures
        r == chess_position(*board).side_to_move,
{
    match board.side_to_move() {
        chess::Color::White => Color::White,
        chess::Color::Black => Color::Black,
    }
}

/// Calls `chess::Board::en_passant`, which hands out the square of the pawn
/// that can be taken en passant; the square is given by its file, which is
/// below 8.
#[verifier::external_body]
fn en_passant_of(board: &chess::Board) -> (r: Option<u8>)
    ensures
        r == chess_position(*board).en_passant,
        r matches Some(f) ==> f < 8,
{
    board.en_passant().map(|s| s.get_file().to_index() as u8)
}

/// Calls `chess::Board::make_move_new`. That function does not test the
/// move for legality. It unwraps the piece on the source square, which it
/// finds where its board of all pieces, the exclusive or of its two color
/// boards, holds the square. Once the piece has left the source and
/// stands on the destination, and what stood there is gone, it looks up
/// the king of the side not to move; only then does it take away a pawn
/// that is captured en passant. So that king must stand on a square other
/// than the source and the destination.
#[verifier::external_body]
fn make_move_new(board: &chess::Board, mv: Move) -> (r: chess::Board)
    requires
        playable(chess_position(*board), mv),
    ensures
        r == chess_after(*board, mv),
{
    let promotion = mv.promotion.map(|p| chess::ALL_PIECES[p.index()]);
    let from = chess::ALL_SQUARES[mv.from as usize];
    let to = chess::ALL_SQUARES[mv.to as usize];
    board.make_move_new(chess::ChessMove::new(from, to, promotion))
}

impl Position {
    /// The plain values of a board of the `chess` crate.
    pub fn from_chess(board: &chess::Board) -> (r: Position)
        ensures
            r == chess_position(*board),
            r.wf(),
    {
        let r = Position {
            pieces: [
                pieces_of(board, Piece::Pawn),
                pieces_of(board, Piece::Knight),
                pieces_of(board, Piece::Bishop),
                pieces_of(board, Piece::Rook),
                pieces_of(board, Piece::Queen),
                pieces_of(board, Piece::King),
            ],
            colors: [colors_of(board, Color::White), colors_of(board, Color::Black)],
            side_to_move: side_to_move_of(board),
            en_passant: en_passant_of(board),
        };
        proof {
            let named = chess_position(*board);
            assert(r.pieces@ =~= named.pieces@);
            assert(r.colors@ =~= named.colors@);
            assert(r.pieces == named.pieces);
            assert(r.colors == named.colors);
        }
        r
    }
}

/// Whether `mv` can be made on a board that holds `pos`.
pub fn is_playable(pos: &Position, mv: Move) -> (r: bool)
    ensures
        r == playable(*pos, mv),
{
    if !mv.is_wf() {
        return false;
    }
    let enemy: Color = pos.side_to_move.flip();
    let kings: u64 = pos.pieces[5] & pos.colors[enemy.index()];
    let from_bit: u64 = 1u64 << (mv.from as u64);
    let to_bit: u64 = 1u64 << (mv.to as u64);
    let both: u64 = pos.colors[0] ^ pos.colors[1];
    ((both >> (mv.from as u64)) & 1 == 1) && (kings & !from_bit & !to_bit != 0)
}

/// Makes `mv` on `board` where the `chess` crate can make it.
pub fn play(board: &chess::Board, mv: Move) -> (r: Option<chess::Board>)
    ensures
        r == if playable(chess_position(*board), mv) {
            Some(chess_after(*board, mv))
        } else {
            None
        },
{
    let pos = Position::from_chess(board);
    if is_playable(&pos, mv) {
        Some(make_move_new(board, mv))
    } else {
        None
    }
}

} // verus!
