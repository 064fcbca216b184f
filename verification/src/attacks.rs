use vstd::prelude::*;
use crate::board::{
    bit, is_set, lemma_is_set_bit, lemma_is_set_or, lemma_zero_has_none, Color,
};

verus! {

/// The squares of the a-file.
pub const FILE_A: u64 = 0x0101_0101_0101_0101;

/// The bitboard of the squares below `n` of which `f` holds.
pub open spec fn squares_where(f: spec_fn(int) -> bool, n: int) -> u64
    decreases n,
{
    if n <= 0 {
        0
    } else if f(n - 1) {
        squares_where(f, n - 1) | bit(n - 1)
    } else {
        squares_where(f, n - 1)
    }
}

/// A square is in the bitboard of the squares of which `f` holds exactly
/// if `f` holds of it.
pub proof fn lemma_squares_where(f: spec_fn(int) -> bool, n: int, t: int)
    requires
        0 <= n <= 64,
    ensures
        is_set(squares_where(f, n), t) == (0 <= t < n && f(t)),
    decreases n,
{
    if n == 0 {
        lemma_zero_has_none(t);
    } else {
        lemma_squares_where(f, n - 1, t);
        if f(n - 1) {
            lemma_is_set_or(squares_where(f, n - 1), bit(n - 1), t);
            lemma_is_set_bit(n - 1, t);
        }
    }
}

/// Whether a knight on `sq` attacks `t`: two ranks and one file away, or
/// one rank and two files.
pub open spec fn knight_reach(sq: int, t: int) -> bool {
    let ranks = t / 8 - sq / 8;
    let files = t % 8 - sq % 8;
    &&& 0 <= sq < 64
    &&& 0 <= t < 64
    &&& (((ranks == 2 || ranks == -2) && (files == 1 || files == -1)) || ((ranks == 1 || ranks
        == -1) && (files == 2 || files == -2)))
}

/// Whether a king on `sq` attacks `t`: another square no more than one
/// rank and one file away.
pub open spec fn king_reach(sq: int, t: int) -> bool {
    let ranks = t / 8 - sq / 8;
    let files = t % 8 - sq % 8;
    &&& 0 <= sq < 64
    &&& 0 <= t < 64
    &&& sq != t
    &&& -1 <= ranks <= 1
    &&& -1 <= files <= 1
}

/// Whether a pawn of the color with index `color` on `sq` attacks `t`: on
/// the next rank in its direction, one file to the left or to the right.
pub open spec fn pawn_reach(sq: int, color: int, t: int) -> bool {
    let ranks = t / 8 - sq / 8;
    let files = t % 8 - sq % 8;
    &&& 0 <= sq < 64
    &&& 0 <= t < 64
    &&& ranks == (if color == 0 {
        1int
    } else {
        -1int
    })
    &&& (files == 1 || files == -1)
}

/// The squares a knight on `sq` attacks.
pub open spec fn knight_table(sq: int) -> u64 {
    squares_where(|t: int| knight_reach(sq, t), 64)
}

/// The squares a king on `sq` attacks.
pub open spec fn king_table(sq: int) -> u64 {
    squares_where(|t: int| king_reach(sq, t), 64)
}

/// The squares a pawn of the color with index `color` on `sq` attacks.
pub open spec fn pawn_table(sq: int, color: int) -> u64 {
    squares_where(|t: int| pawn_reach(sq, color, t), 64)
}

/// Whether `u` lies between `sq` and `t` on the rank or the file that
/// the two share.
pub open spec fn straight_between(sq: int, t: int, u: int) -> bool {
    &&& 0 <= u < 64
    &&& if t / 8 == sq / 8 {
        u / 8 == sq / 8 && (sq % 8 < u % 8 < t % 8 || t % 8 < u % 8 < sq % 8)
    } else {
        u % 8 == sq % 8 && (sq / 8 < u / 8 < t / 8 || t / 8 < u / 8 < sq / 8)
    }
}

/// Whether `u` lies between `sq` and `t` on the diagonal that the two
/// share.
pub open spec fn diagonal_between(sq: int, t: int, u: int) -> bool {
    let ranks = u / 8 - sq / 8;
    let files = u % 8 - sq % 8;
    &&& 0 <= u < 64
    &&& (0 < ranks < t / 8 - sq / 8 || t / 8 - sq / 8 < ranks < 0)
    &&& files == (if t / 8 - sq / 8 == t % 8 - sq % 8 {
        ranks
    } else {
        -ranks
    })
}

/// Whether a rook on `sq` reaches `t` with `blockers` in its way: another
/// square of its rank or file, with no blocker between the two.
pub open spec fn rook_reach(sq: int, blockers: u64, t: int) -> bool {
    &&& 0 <= sq < 64
    &&& 0 <= t < 64
    &&& sq != t
    &&& (t / 8 == sq / 8 || t % 8 == sq % 8)
    &&& forall|u: int| straight_between(sq, t, u) ==> !#[trigger] is_set(blockers, u)
}

/// Whether a bishop on `sq` reaches `t` with `blockers` in its way:
/// another square of one of its diagonals, with no blocker between the two.
pub open spec fn bishop_reach(sq: int, blockers: u64, t: int) -> bool {
    let ranks = t / 8 - sq / 8;
    let files = t % 8 - sq % 8;
    &&& 0 <= sq < 64
    &&& 0 <= t < 64
    &&& sq != t
    &&& (ranks == files || ranks == -files)
    &&& forall|u: int| diagonal_between(sq, t, u) ==> !#[trigger] is_set(blockers, u)
}

/// The squares a bishop on `sq` reaches with `blockers` in its way: along
/// each diagonal up to the first blocker, which is reached too.
pub open spec fn bishop_table(sq: int, blockers: u64) -> u64 {
    squares_where(|t: int| bishop_reach(sq, blockers, t), 64)
}

/// The squares a rook on `sq` reaches with `blockers` in its way: along
/// its rank and its file up to the first blocker, which is reached too.
pub open spec fn rook_table(sq: int, blockers: u64) -> u64 {
    squares_where(|t: int| rook_reach(sq, blockers, t), 64)
}

/// The squares of the file with index `file`.
pub open spec fn file_squares(file: int) -> u64 {
    FILE_A << (file as u64)
}

/// The squares of the files next to the file with index `file`.
pub open spec fn adjacent_file_squares(file: int) -> u64 {
    (if file > 0 {
        file_squares(file - 1)
    } else {
        0
    }) | (if file < 7 {
        file_squares(file + 1)
    } else {
        0
    })
}

/// Calls `chess::get_knight_moves`, a lookup in a table that the `chess`
/// crate builds by setting, for each square, every square that is two
/// ranks and one file away or one rank and two files.
#[verifier::external_body]
pub(crate) fn knight_moves(sq: u8) -> (r: u64)
    requires
        sq < 64,
    ensures
        r == knight_table(sq as int),
{
    chess::get_knight_moves(chess::ALL_SQUARES[sq as usize]).0
}

/// Calls `chess::get_king_moves`, a lookup in a table that the `chess`
/// crate builds by setting, for each square, every other square that is
/// no more than one rank and one file away.
#[verifier::external_body]
pub(crate) fn king_moves(sq: u8) -> (r: u64)
    requires
        sq < 64,
    ensures
        r == king_table(sq as int),
{
    chess::get_king_moves(chess::ALL_SQUARES[sq as usize]).0
}

/// Calls `chess::get_pawn_attacks`, which looks the attacked squares up in a
/// table by color and square and intersects them with `blockers`. The
/// `chess` crate builds the table by setting, for each color and square,
/// the squares one step forward and one file to either side, as far as
/// they are on the board.
#[verifier::external_body]
pub(crate) fn pawn_attacks(sq: u8, color: Color, blockers: u64) -> (r: u64)
    requires
        sq < 64,
    ensures
        r == pawn_table(sq as int, color.idx()) & blockers,
{
    let c = match color {
        Color::White => chess::Color::White,
        Color::Black => chess::Color::Black,
    };
    chess::get_pawn_attacks(chess::ALL_SQUARES[sq as usize], c, chess::BitBoard(blockers)).0
}

/// Calls `chess::get_bishop_moves`, a lookup by square and by the blockers
/// on the square's diagonals. The `chess` crate fills the table, for each
/// square and each set of such blockers, by walking from the square along
/// each diagonal and setting every square up to the first blocker or the
/// edge of the board; it accepts a lookup key only where no two sets with
/// different walks share an entry.
#[verifier::external_body]
pub(crate) fn bishop_moves(sq: u8, blockers: u64) -> (r: u64)
    requires
        sq < 64,
    ensures
        r == bishop_table(sq as int, blockers),
{
    chess::get_bishop_moves(chess::ALL_SQUARES[sq as usize], chess::BitBoard(blockers)).0
}

/// Calls `chess::get_rook_moves`, a lookup by square and by the blockers
/// on the square's rank and file. The `chess` crate fills the table, for
/// each square and each set of such blockers, by walking from the square
/// along its rank and its file and setting every square up to the first
/// blocker or the edge of the board; it accepts a lookup key only where no
/// two sets with different walks share an entry.
#[verifier::external_body]
pub(crate) fn rook_moves(sq: u8, blockers: u64) -> (r: u64)
    requires
        sq < 64,
    ensures
        r == rook_table(sq as int, blockers),
{
    chess::get_rook_moves(chess::ALL_SQUARES[sq as usize], chess::BitBoard(blockers)).0
}

/// Calls `chess::get_file`: the `chess` crate builds the mask of a file by
/// setting every square whose file index is `file`.
#[verifier::external_body]
pub(crate) fn file_mask(file: u8) -> (r: u64)
    requires
        file < 8,
    ensures
        r == file_squares(file as int),
{
    chess::get_file(chess::File::from_index(file as usize)).0
}

/// Calls `chess::get_adjacent_files`: the `chess` crate sets every square
/// whose file index is one less or one more than `file`.
#[verifier::external_body]
pub(crate) fn adjacent_files_mask(file: u8) -> (r: u64)
    requires
        file < 8,
    ensures
        r == adjacent_file_squares(file as int),
{
    chess::get_adjacent_files(chess::File::from_index(file as usize)).0
}

} // verus!
