use vstd::prelude::*;

verus! {

/// Side of the board. White is index 0, black is index 1.
#[derive(Clone, Copy, Debug, PartialEq, Eq, Structural)]
pub enum Color {
    White,
    Black,
}

/// Kind of a chess piece, ordered from least to most valuable.
#[derive(Clone, Copy, Debug, PartialEq, Eq, Structural)]
pub enum Piece {
    Pawn,
    Knight,
    Bishop,
    Rook,
    Queen,
    King,
}

impl Color {
    pub open spec fn idx(self) -> int {
        match self {
            Color::White => 0,
            Color::Black => 1,
        }
    }

    pub open spec fn other(self) -> Color {
        match self {
            Color::White => Color::Black,
            Color::Black => Color::White,
        }
    }

    pub fn index(self) -> (r: usize)
        ensures
            r == self.idx(),
    {
        match self {
            Color::White => 0,
            Color::Black => 1,
        }
    }

    /// The opposing side.
    pub fn flip(self) -> (r: Color)
        ensures
            r == self.other(),
    {
        match self {
            Color::White => Color::Black,
            Color::Black => Color::White,
        }
    }
}

impl Piece {
    pub open spec fn idx(self) -> int {
        match self {
            Piece::Pawn => 0,
            Piece::Knight => 1,
            Piece::Bishop => 2,
            Piece::Rook => 3,
            Piece::Queen => 4,
            Piece::King => 5,
        }
    }

    pub open spec fn of_idx(i: int) -> Piece {
        if i == 0 {
            Piece::Pawn
        } else if i == 1 {
            Piece::Knight
        } else if i == 2 {
            Piece::Bishop
        } else if i == 3 {
            Piece::Rook
        } else if i == 4 {
            Piece::Queen
        } else {
            Piece::King
        }
    }

    pub fn index(self) -> (r: usize)
        ensures
            r == self.idx(),
            r < 6,
    {
        match self {
            Piece::Pawn => 0,
            Piece::Knight => 1,
            Piece::Bishop => 2,
            Piece::Rook => 3,
            Piece::Queen => 4,
            Piece::King => 5,
        }
    }

    pub fn from_index(i: usize) -> (r: Piece)
        ensures
            r == Piece::of_idx(i as int),
            i < 6 ==> r.idx() == i,
    {
        if i == 0 {
            Piece::Pawn
        } else if i == 1 {
            Piece::Knight
        } else if i == 2 {
            Piece::Bishop
        } else if i == 3 {
            Piece::Rook
        } else if i == 4 {
            Piece::Queen
        } else {
            Piece::King
        }
    }
}

/// Whether square `sq` (0..64, rank-major from a1) is set in bitboard `bb`.
pub open spec fn is_set(bb: u64, sq: int) -> bool {
    0 <= sq < 64 && (bb >> (sq as u64)) & 1 == 1
}

pub fn has_square(bb: u64, sq: u8) -> (r: bool)
    ensures
        r == is_set(bb, sq as int),
{
    sq < 64 && (bb >> (sq as u64)) & 1 == 1
}

/// The bitboard holding exactly the square `sq`.
pub open spec fn bit(sq: int) -> u64 {
    1u64 << (sq as u64)
}

pub fn square_bit(sq: u8) -> (r: u64)
    requires
        sq < 64,
    ensures
        r == bit(sq as int),
{
    1u64 << (sq as u64)
}

/// Number of squares below `n` that are set in `bb`.
pub open spec fn count_below(bb: u64, n: int) -> int
    decreases n,
{
    if n <= 0 {
        0
    } else {
        count_below(bb, n - 1) + if is_set(bb, n - 1) { 1int } else { 0int }
    }
}

/// Number of set squares of a bitboard.
pub open spec fn popcount(bb: u64) -> int {
    count_below(bb, 64)
}

/// Counts the set squares of a bitboard.
pub fn popcnt(bb: u64) -> (r: u32)
    ensures
        r == popcount(bb),
        r <= 64,
{
    let mut n: u32 = 0;
    let mut sq: u8 = 0;
    while sq < 64
        invariant
            sq <= 64,
            n == count_below(bb, sq as int),
            n <= sq,
        decreases 64 - sq,
    {
        if has_square(bb, sq) {
            n += 1;
        }
        sq += 1;
    }
    n
}

/// A move record: source square, destination square and, for a pawn reaching
/// the last rank, the kind it turns into. Castling is written as the king
/// taking its own rook.
#[derive(Clone, Copy, Debug, PartialEq, Eq, Structural)]
pub struct Move {
    pub from: u8,
    pub to: u8,
    pub promotion: Option<Piece>,
}

impl Move {
    /// Both squares lie on the board.
    pub open spec fn wf(self) -> bool {
        self.from < 64 && self.to < 64
    }

    pub fn is_wf(&self) -> (r: bool)
        ensures
            r == self.wf(),
    {
        self.from < 64 && self.to < 64
    }
}

/// A board snapshot as plain values: one bitboard per piece kind, one per
/// color, the side to move and the file of a possible en-passant capture.
#[derive(Clone, Copy, Debug)]
pub struct Position {
    pub pieces: [u64; 6],
    pub colors: [u64; 2],
    pub side_to_move: Color,
    pub en_passant: Option<u8>,
}

impl Position {
    /// The en-passant file, where there is one, is a file of the board.
    pub open spec fn wf(self) -> bool {
        self.en_passant matches Some(f) ==> f < 8
    }

    pub open spec fn kind_mask(self, piece: Piece) -> u64 {
        self.pieces@[piece.idx()]
    }

    pub open spec fn color_mask(self, color: Color) -> u64 {
        self.colors@[color.idx()]
    }

    pub open spec fn occupied_mask(self) -> u64 {
        self.colors@[0] | self.colors@[1]
    }

    /// The first kind, in the order of `Piece`, whose bitboard holds `sq`.
    pub open spec fn kind_at_from(self, sq: int, k: int) -> Option<Piece>
        decreases 6 - k,
    {
        if k < 0 || k >= 6 {
            None
        } else if is_set(self.pieces@[k], sq) {
            Some(Piece::of_idx(k))
        } else {
            self.kind_at_from(sq, k + 1)
        }
    }

    pub open spec fn kind_at(self, sq: int) -> Option<Piece> {
        self.kind_at_from(sq, 0)
    }

    /// White where white's bitboard holds `sq`, else black where black's does.
    pub open spec fn color_at(self, sq: int) -> Option<Color> {
        if is_set(self.colors@[0], sq) {
            Some(Color::White)
        } else if is_set(self.colors@[1], sq) {
            Some(Color::Black)
        } else {
            None
        }
    }

    /// What stands on `sq`: a kind and a color, where both are known.
    pub open spec fn content(self, sq: int) -> Option<(Piece, Color)> {
        match (self.kind_at(sq), self.color_at(sq)) {
            (Some(piece), Some(color)) => Some((piece, color)),
            _ => None,
        }
    }

    /// The kings of one side.
    pub open spec fn king_mask(self, color: Color) -> u64 {
        self.pieces@[5] & self.colors@[color.idx()]
    }

    /// The lowest square holding a king of `color`, or 64 where it has none.
    pub open spec fn king_square(self, color: Color) -> int {
        lowest_from(self.king_mask(color), 0)
    }

    pub open spec fn has_kings(self) -> bool {
        self.king_mask(Color::White) != 0 && self.king_mask(Color::Black) != 0
    }

    pub fn pieces(&self, piece: Piece) -> (r: u64)
        ensures
            r == self.kind_mask(piece),
    {
        self.pieces[piece.index()]
    }

    pub fn colors(&self, color: Color) -> (r: u64)
        ensures
            r == self.color_mask(color),
    {
        self.colors[color.index()]
    }

    pub fn occupied(&self) -> (r: u64)
        ensures
            r == self.occupied_mask(),
    {
        self.colors[0] | self.colors[1]
    }

    pub fn piece_on(&self, sq: u8) -> (r: Option<Piece>)
        ensures
            r == self.kind_at(sq as int),
    {
        let mut k: usize = 0;
        while k < 6
            invariant
                k <= 6,
                self.kind_at(sq as int) == self.kind_at_from(sq as int, k as int),
            decreases 6 - k,
        {
            if has_square(self.pieces[k], sq) {
                return Some(Piece::from_index(k));
            }
            k += 1;
        }
        None
    }

    pub fn color_on(&self, sq: u8) -> (r: Option<Color>)
        ensures
            r == self.color_at(sq as int),
    {
        if has_square(self.colors[0], sq) {
            Some(Color::White)
        } else if has_square(self.colors[1], sq) {
            Some(Color::Black)
        } else {
            None
        }
    }

    /// Whether each side has a king.
    pub fn both_kings(&self) -> (r: bool)
        ensures
            r == self.has_kings(),
    {
        (self.pieces[5] & self.colors[0]) != 0 && (self.pieces[5] & self.colors[1]) != 0
    }

    /// What stands on `sq`.
    pub fn piece_and_color_on(&self, sq: u8) -> (r: Option<(Piece, Color)>)
        ensures
            r == self.content(sq as int),
    {
        match (self.piece_on(sq), self.color_on(sq)) {
            (Some(piece), Some(color)) => Some((piece, color)),
            _ => None,
        }
    }

    /// The square of the king of `color`.
    pub fn king(&self, color: Color) -> (r: u8)
        ensures
            r == self.king_square(color),
            r <= 64,
            self.king_mask(color) != 0 ==> r < 64,
    {
        lowest_square(self.pieces[5] & self.colors[color.index()])
    }
}

/// The lowest set square of `bb` at or above `from`, or 64 where none is set.
pub open spec fn lowest_from(bb: u64, from: int) -> int
    decreases 64 - from,
{
    if from < 0 || from >= 64 {
        64
    } else if is_set(bb, from) {
        from
    } else {
        lowest_from(bb, from + 1)
    }
}

pub proof fn lemma_zero_has_none(sq: int)
    ensures
        !is_set(0u64, sq),
{
    if 0 <= sq < 64 {
        let s = sq as u64;
        assert((0u64 >> s) & 1 == 0) by (bit_vector)
            requires
                s < 64,
        ;
    }
}

/// A bitboard with a set square is not zero.
pub proof fn lemma_has_nonzero(bb: u64, sq: int)
    requires
        is_set(bb, sq),
    ensures
        bb != 0,
{
    if bb == 0 {
        lemma_zero_has_none(sq);
    }
}

/// A bitboard that is not zero has a set square.
pub proof fn lemma_nonzero_has(bb: u64)
    requires
        bb != 0,
    ensures
        exists|sq: int| is_set(bb, sq),
{
    vstd::std_specs::bits::axiom_u64_trailing_zeros(bb);
    let s = vstd::std_specs::bits::u64_trailing_zeros(bb);
    assert(is_set(bb, s as int));
}

pub proof fn lemma_lowest_from(bb: u64, from: int)
    requires
        0 <= from <= 64,
    ensures
        from <= lowest_from(bb, from) <= 64,
        lowest_from(bb, from) < 64 ==> is_set(bb, lowest_from(bb, from)),
        forall|sq: int| from <= sq < lowest_from(bb, from) ==> !is_set(bb, sq),
    decreases 64 - from,
{
    if from < 64 && !is_set(bb, from) {
        lemma_lowest_from(bb, from + 1);
    }
}

/// The lowest set square of a bitboard, or 64 for the empty one.
pub fn lowest_square(bb: u64) -> (r: u8)
    ensures
        r == lowest_from(bb, 0),
        r <= 64,
        bb != 0 ==> r < 64 && is_set(bb, r as int),
{
    let tz: u32 = bb.trailing_zeros();
    proof {
        vstd::std_specs::bits::axiom_u64_trailing_zeros(bb);
        lemma_lowest_from(bb, 0);
        let low = lowest_from(bb, 0);
        if low < 64 {
            lemma_has_nonzero(bb, low);
            if low < tz {
                assert((bb >> (low as u64)) & 1 == 0);
            } else if tz < low {
                assert(is_set(bb, tz as int));
            }
        } else if tz < 64 {
            assert(is_set(bb, tz as int));
        }
    }
    tz as u8
}

/// A square is set in a union exactly if it is set in one of the two.
pub proof fn lemma_is_set_or(a: u64, b: u64, sq: int)
    ensures
        is_set(a | b, sq) == (is_set(a, sq) || is_set(b, sq)),
{
    if 0 <= sq < 64 {
        let s = sq as u64;
        assert((((a | b) >> s) & 1 == 1) == ((a >> s) & 1 == 1 || (b >> s) & 1 == 1))
            by (bit_vector)
            requires
                s < 64,
        ;
    }
}

/// A square is set in an intersection exactly if it is set in both.
pub proof fn lemma_is_set_and(a: u64, b: u64, sq: int)
    ensures
        is_set(a & b, sq) == (is_set(a, sq) && is_set(b, sq)),
{
    if 0 <= sq < 64 {
        let s = sq as u64;
        assert((((a & b) >> s) & 1 == 1) == ((a >> s) & 1 == 1 && (b >> s) & 1 == 1))
            by (bit_vector)
            requires
                s < 64,
        ;
    }
}

/// A square of the board is set in a complement exactly if it is not set.
pub proof fn lemma_is_set_not(a: u64, sq: int)
    requires
        0 <= sq < 64,
    ensures
        is_set(!a, sq) == !is_set(a, sq),
{
    let s = sq as u64;
    assert((((!a) >> s) & 1 == 1) == !((a >> s) & 1 == 1)) by (bit_vector)
        requires
            s < 64,
    ;
}

/// Two bitboards that hold the same squares are the same.
pub proof fn lemma_same_squares(a: u64, b: u64)
    requires
        forall|sq: int| 0 <= sq < 64 ==> is_set(a, sq) == is_set(b, sq),
    ensures
        a == b,
{
    if a != b {
        assert(a != b ==> a ^ b != 0) by (bit_vector);
        lemma_nonzero_has(a ^ b);
        let sq = choose|sq: int| is_set(a ^ b, sq);
        let s = sq as u64;
        assert((((a ^ b) >> s) & 1 == 1) == (((a >> s) & 1 == 1) != ((b >> s) & 1 == 1)))
            by (bit_vector)
            requires
                s < 64,
        ;
        assert(is_set(a, sq) == is_set(b, sq));
    }
}

/// The bitboard of one square holds that square and no other.
pub proof fn lemma_is_set_bit(at: int, sq: int)
    requires
        0 <= at < 64,
    ensures
        is_set(bit(at), sq) == (sq == at),
{
    if 0 <= sq < 64 {
        let s = sq as u64;
        let a = at as u64;
        assert((((1u64 << a) >> s) & 1 == 1) == (s == a)) by (bit_vector)
            requires
                s < 64,
                a < 64,
        ;
    }
}

/// Two bitboards share no square exactly if their intersection is empty.
pub proof fn lemma_disjoint(a: u64, b: u64)
    ensures
        (a & b == 0) == (forall|sq: int| !(is_set(a, sq) && is_set(b, sq))),
{
    if a & b == 0 {
        assert forall|sq: int| !(is_set(a, sq) && is_set(b, sq)) by {
            lemma_is_set_and(a, b, sq);
            lemma_zero_has_none(sq);
        }
    } else {
        lemma_nonzero_has(a & b);
        let sq = choose|sq: int| is_set(a & b, sq);
        lemma_is_set_and(a, b, sq);
    }
}

} // verus!
