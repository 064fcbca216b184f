use vstd::prelude::*;
use crate::attacks::{
    adjacent_file_squares, adjacent_files_mask, bishop_moves, bishop_table, file_mask,
    file_squares, king_moves, king_table, knight_moves, knight_table, pawn_attacks, pawn_table,
    rook_moves, rook_table,
};
use crate::board::{
    bit, has_square, is_set, lemma_disjoint, lemma_is_set_bit, lemma_is_set_or,
    lemma_same_squares,
    lemma_zero_has_none, lowest_from, lowest_square, popcnt, popcount, square_bit, Color, Move,
    Piece, Position,
};
use crate::chess_board::{chess_after, chess_position, play, playable};
use crate::tapered::{
    Evaluation, Score, TaperedEval, BISHOP_PHASE, KNIGHT_PHASE, PAWN_PHASE, QUEEN_PHASE,
    ROOK_PHASE, TOTAL_PHASE,
};

verus! {

/// Whether square `s` lies ahead of a pawn of `color` on square `k`: on the
/// same or a neighbouring file, and on a rank the pawn has yet to reach.
pub open spec fn is_ahead(color: Color, k: int, s: int) -> bool {
    &&& 0 <= k < 64
    &&& 0 <= s < 64
    &&& -1 <= s % 8 - k % 8 <= 1
    &&& match color {
        Color::White => s / 8 > k / 8,
        Color::Black => s / 8 < k / 8,
    }
}

/// For each square, the squares ahead of a white pawn and of a black pawn on
/// it.
#[derive(Debug, Clone, Copy)]
pub struct BasicEvalData {
    pub w_ahead: [u64; 64],
    pub b_ahead: [u64; 64],
}

impl BasicEvalData {
    /// Each mask holds exactly the squares ahead of its square.
    pub open spec fn wf(&self) -> bool {
        &&& forall|k: int, s: int|
            0 <= k < 64 ==> #[trigger] is_set(self.w_ahead@[k], s) == is_ahead(Color::White, k, s)
        &&& forall|k: int, s: int|
            0 <= k < 64 ==> #[trigger] is_set(self.b_ahead@[k], s) == is_ahead(Color::Black, k, s)
    }
}

/// The mask of the squares ahead of a pawn of `color` on square `k`.
fn ahead_mask(color: Color, k: u8) -> (r: u64)
    requires
        k < 64,
    ensures
        forall|s: int| #[trigger] is_set(r, s) == is_ahead(color, k as int, s),
{
    let mut mask: u64 = 0;
    let mut sq: u8 = 0;
    let own_rank: u8 = k / 8;
    let own_file: u8 = k % 8;
    proof {
        assert forall|s: int| !(#[trigger] is_set(0u64, s)) by {
            lemma_zero_has_none(s);
        }
    }
    while sq < 64
        invariant
            sq <= 64,
            k < 64,
            own_rank == k / 8,
            own_file == k % 8,
            forall|s: int| #[trigger]
                is_set(mask, s) == (s < sq && is_ahead(color, k as int, s)),
        decreases 64 - sq,
    {
        let rank: u8 = sq / 8;
        let file: u8 = sq % 8;
        let near: bool = file + 1 >= own_file && file <= own_file + 1;
        let beyond: bool = match color {
            Color::White => rank > own_rank,
            Color::Black => rank < own_rank,
        };
        if near && beyond {
            let ghost before = mask;
            mask = mask | square_bit(sq);
            proof {
                assert forall|s: int| #[trigger]
                    is_set(mask, s) == (s < sq + 1 && is_ahead(color, k as int, s)) by {
                    lemma_is_set_or(before, bit(sq as int), s);
                    lemma_is_set_bit(sq as int, s);
                }
            }
        }
        sq += 1;
    }
    mask
}

impl BasicEvalData {
    /// Whether each mask holds exactly the squares ahead of its square.
    pub fn is_wf(&self) -> (r: bool)
        ensures
            r == self.wf(),
    {
        let mut k: u8 = 0;
        while k < 64
            invariant
                k <= 64,
                forall|j: int, s: int|
                    0 <= j < k ==> #[trigger] is_set(self.w_ahead@[j], s) == is_ahead(
                        Color::White,
                        j,
                        s,
                    ),
                forall|j: int, s: int|
                    0 <= j < k ==> #[trigger] is_set(self.b_ahead@[j], s) == is_ahead(
                        Color::Black,
                        j,
                        s,
                    ),
            decreases 64 - k,
        {
            let w: u64 = ahead_mask(Color::White, k);
            let b: u64 = ahead_mask(Color::Black, k);
            if self.w_ahead[k as usize] != w || self.b_ahead[k as usize] != b {
                proof {
                    if self.wf() {
                        assert forall|s: int| 0 <= s < 64 implies is_set(
                            self.w_ahead@[k as int],
                            s,
                        ) == is_set(w, s) by {
                            assert(is_set(self.w_ahead@[k as int], s) == is_ahead(
                                Color::White,
                                k as int,
                                s,
                            ));
                        }
                        lemma_same_squares(self.w_ahead@[k as int], w);
                        assert forall|s: int| 0 <= s < 64 implies is_set(
                            self.b_ahead@[k as int],
                            s,
                        ) == is_set(b, s) by {
                            assert(is_set(self.b_ahead@[k as int], s) == is_ahead(
                                Color::Black,
                                k as int,
                                s,
                            ));
                        }
                        lemma_same_squares(self.b_ahead@[k as int], b);
                    }
                }
                return false;
            }
            k += 1;
        }
        true
    }
}

/// Builds the masks of the squares ahead of each square, for both colors.
pub fn get_basic_eval_data() -> (data: BasicEvalData)
    ensures
        data.wf(),
{
    let mut data = BasicEvalData { w_ahead: [0u64; 64], b_ahead: [0u64; 64] };
    let mut k: u8 = 0;
    while k < 64
        invariant
            k <= 64,
            forall|j: int, s: int|
                0 <= j < k ==> #[trigger] is_set(data.w_ahead@[j], s) == is_ahead(
                    Color::White,
                    j,
                    s,
                ),
            forall|j: int, s: int|
                0 <= j < k ==> #[trigger] is_set(data.b_ahead@[j], s) == is_ahead(
                    Color::Black,
                    j,
                    s,
                ),
        decreases 64 - k,
    {
        let w: u64 = ahead_mask(Color::White, k);
        let b: u64 = ahead_mask(Color::Black, k);
        data.w_ahead[k as usize] = w;
        data.b_ahead[k as usize] = b;
        k += 1;
    }
    data
}

/// No weight of the evaluator exceeds this in magnitude.
pub const WEIGHT_LIMIT: i32 = 1_000_000;

/// The light squares of the board.
pub const LIGHT_SQUARES: u64 = 0x55AA_55AA_55AA_55AA;

/// The dark squares of the board.
pub const DARK_SQUARES: u64 = 0xAA55_AA55_AA55_AA55;

/// The weights of the hand-crafted evaluator.
#[derive(Debug, Clone, Copy)]
pub struct EvalParams {
    /// Material value of each kind, in the order of `Piece`.
    pub piece_values: [TaperedEval; 6],
    /// One table per kind, in the order of `Piece`; each is laid out as a
    /// diagram seen from white's side, the eighth rank first.
    pub tables: [[TaperedEval; 64]; 6],
    pub passer: TaperedEval,
    pub doubled: TaperedEval,
    pub isolated: TaperedEval,
    pub threat_by_safe_pawn: TaperedEval,
    pub restricted: TaperedEval,
    pub threat_by_king: TaperedEval,
    pub tempo: i32,
}

impl EvalParams {
    /// Every weight lies within `WEIGHT_LIMIT` of zero.
    pub open spec fn wf(&self) -> bool {
        &&& forall|k: int| 0 <= k < 6 ==> (#[trigger] self.piece_values@[k])@.within(WEIGHT_LIMIT as int)
        &&& forall|k: int, i: int|
            0 <= k < 6 && 0 <= i < 64 ==> (#[trigger] self.tables@[k]@[i])@.within(WEIGHT_LIMIT as int)
        &&& self.passer@.within(WEIGHT_LIMIT as int)
        &&& self.doubled@.within(WEIGHT_LIMIT as int)
        &&& self.isolated@.within(WEIGHT_LIMIT as int)
        &&& self.threat_by_safe_pawn@.within(WEIGHT_LIMIT as int)
        &&& self.restricted@.within(WEIGHT_LIMIT as int)
        &&& self.threat_by_king@.within(WEIGHT_LIMIT as int)
        &&& -WEIGHT_LIMIT <= self.tempo <= WEIGHT_LIMIT
    }
}

/// Whether both values lie within `WEIGHT_LIMIT` of zero.
fn is_weight(w: TaperedEval) -> (r: bool)
    ensures
        r == w@.within(WEIGHT_LIMIT as int),
{
    -WEIGHT_LIMIT <= w.0 && w.0 <= WEIGHT_LIMIT && -WEIGHT_LIMIT <= w.1 && w.1 <= WEIGHT_LIMIT
}

impl EvalParams {
    /// Whether every weight lies within `WEIGHT_LIMIT` of zero.
    pub fn is_wf(&self) -> (r: bool)
        ensures
            r == self.wf(),
    {
        let mut k: usize = 0;
        while k < 6
            invariant
                k <= 6,
                forall|a: int| 0 <= a < k ==> (#[trigger] self.piece_values@[a])@.within(
                    WEIGHT_LIMIT as int,
                ),
                forall|a: int, i: int|
                    0 <= a < k && 0 <= i < 64 ==> (#[trigger] self.tables@[a]@[i])@.within(
                        WEIGHT_LIMIT as int,
                    ),
            decreases 6 - k,
        {
            if !is_weight(self.piece_values[k]) {
                return false;
            }
            let mut i: usize = 0;
            while i < 64
                invariant
                    k < 6,
                    i <= 64,
                    forall|b: int|
                        0 <= b < i ==> (#[trigger] self.tables@[k as int]@[b])@.within(
                            WEIGHT_LIMIT as int,
                        ),
                decreases 64 - i,
            {
                if !is_weight(self.tables[k][i]) {
                    return false;
                }
                i += 1;
            }
            k += 1;
        }
        is_weight(self.passer) && is_weight(self.doubled) && is_weight(self.isolated) && is_weight(
            self.threat_by_safe_pawn,
        ) && is_weight(self.restricted) && is_weight(self.threat_by_king) && -WEIGHT_LIMIT
            <= self.tempo && self.tempo <= WEIGHT_LIMIT
    }
}

/// Where a piece of `color` on square `sq` is looked up in a table: white
/// reads the diagram as printed, black reads it mirrored top to bottom.
pub open spec fn table_index(color: Color, sq: int) -> int {
    match color {
        Color::White => (7 - sq / 8) * 8 + sq % 8,
        Color::Black => sq,
    }
}

/// Sum of the table entries of the squares below `n` that `bb` holds.
pub open spec fn psqt_below(table: [TaperedEval; 64], bb: u64, color: Color, n: int) -> Score
    decreases n,
{
    if n <= 0 {
        Score::zero()
    } else {
        let rest = psqt_below(table, bb, color, n - 1);
        if is_set(bb, n - 1) {
            rest.plus(table@[table_index(color, n - 1)]@)
        } else {
            rest
        }
    }
}

/// Material and placement of one side: the table sums of its six kinds.
pub open spec fn side_psqt(params: EvalParams, board: Position, color: Color) -> Score {
    let own = board.color_mask(color);
    psqt_below(params.tables@[0], board.pieces@[0] & own, color, 64).plus(
        psqt_below(params.tables@[1], board.pieces@[1] & own, color, 64),
    ).plus(psqt_below(params.tables@[2], board.pieces@[2] & own, color, 64)).plus(
        psqt_below(params.tables@[3], board.pieces@[3] & own, color, 64),
    ).plus(psqt_below(params.tables@[4], board.pieces@[4] & own, color, 64)).plus(
        psqt_below(params.tables@[5], board.pieces@[5] & own, color, 64),
    )
}

/// The squares a piece of `kind` and `color` on `sq` attacks on an otherwise
/// empty board. Kings are not counted as attackers.
pub open spec fn piece_attacks(kind: Piece, color: Color, sq: int) -> u64 {
    match kind {
        Piece::Pawn => pawn_table(sq, color.idx()),
        Piece::Knight => knight_table(sq),
        Piece::Bishop => bishop_table(sq, 0),
        Piece::Rook => rook_table(sq, 0),
        Piece::Queen => bishop_table(sq, 0) | rook_table(sq, 0),
        Piece::King => 0,
    }
}

/// Union of the attacks of the pieces of `kind` on the squares below `n`
/// that `bb` holds.
pub open spec fn attacks_below(bb: u64, kind: Piece, color: Color, n: int) -> u64
    decreases n,
{
    if n <= 0 {
        0
    } else {
        let rest = attacks_below(bb, kind, color, n - 1);
        if is_set(bb, n - 1) {
            rest | piece_attacks(kind, color, n - 1)
        } else {
            rest
        }
    }
}

/// The pawns of one side.
pub open spec fn pawns_of(board: Position, color: Color) -> u64 {
    board.pieces@[0] & board.color_mask(color)
}

/// Every square that a pawn of `color` attacks.
pub open spec fn pawn_attacked_by(board: Position, color: Color) -> u64 {
    attacks_below(pawns_of(board, color), Piece::Pawn, color, 64)
}

/// Every square that a pawn, knight, bishop, rook or queen of `color`
/// attacks, sliders seeing through everything.
pub open spec fn attacked_by(board: Position, color: Color) -> u64 {
    let own = board.color_mask(color);
    pawn_attacked_by(board, color) | attacks_below(
        board.pieces@[1] & own,
        Piece::Knight,
        color,
        64,
    ) | attacks_below(board.pieces@[2] & own, Piece::Bishop, color, 64) | attacks_below(
        board.pieces@[3] & own,
        Piece::Rook,
        color,
        64,
    ) | attacks_below(board.pieces@[4] & own, Piece::Queen, color, 64)
}

/// The enemy pieces other than pawns that a safe pawn of `color` attacks. A
/// pawn is safe where the enemy does not attack it or a friend defends it.
pub open spec fn safe_pawn_threats(board: Position, color: Color) -> u64 {
    let enemy = color.other();
    let safe = !attacked_by(board, enemy) | attacked_by(board, color);
    let safe_pawns = pawns_of(board, color) & safe;
    let targets = board.color_mask(enemy) & !pawns_of(board, enemy);
    attacks_below(safe_pawns, Piece::Pawn, color, 64) & targets
}

/// The squares `color` holds firmly: those its pawns attack, and those it
/// attacks and the enemy does not.
pub open spec fn protected_by(board: Position, color: Color) -> u64 {
    pawn_attacked_by(board, color) | (attacked_by(board, color) & !attacked_by(
        board,
        color.other(),
    ))
}

/// The squares both sides attack and the enemy of `color` holds firmly.
pub open spec fn restricted_for(board: Position, color: Color) -> u64 {
    attacked_by(board, Color::Black) & attacked_by(board, Color::White) & protected_by(
        board,
        color.other(),
    )
}

/// The enemy pieces next to the king of `color` that nothing of theirs
/// defends.
pub open spec fn king_threats(board: Position, color: Color) -> u64 {
    let enemy = color.other();
    king_table(board.king_square(color)) & board.color_mask(enemy) & !attacked_by(board, enemy)
}

/// Whether no pawn of `enemy_pawns` stands ahead of a pawn of `color` on `sq`.
pub open spec fn is_passed(color: Color, sq: int, enemy_pawns: u64) -> bool {
    forall|s: int| is_set(enemy_pawns, s) ==> !is_ahead(color, sq, s)
}

/// Number of passed pawns among the pawns of `color` on squares below `n`.
pub open spec fn passed_below(pawns: u64, enemy_pawns: u64, color: Color, n: int) -> int
    decreases n,
{
    if n <= 0 {
        0
    } else {
        passed_below(pawns, enemy_pawns, color, n - 1) + if is_set(pawns, n - 1) && is_passed(
            color,
            n - 1,
            enemy_pawns,
        ) {
            1int
        } else {
            0int
        }
    }
}

/// Over the files below `n`: the pawns that stand behind another of their
/// own on the same file.
pub open spec fn doubled_below(pawns: u64, n: int) -> int
    decreases n,
{
    if n <= 0 {
        0
    } else {
        let on_file = popcount(file_squares(n - 1) & pawns);
        doubled_below(pawns, n - 1) + if on_file > 1 {
            on_file - 1
        } else {
            0
        }
    }
}

/// Number of files below `n` whose neighbouring files hold no pawn.
pub open spec fn isolated_below(pawns: u64, n: int) -> int
    decreases n,
{
    if n <= 0 {
        0
    } else {
        isolated_below(pawns, n - 1) + if adjacent_file_squares(n - 1) & pawns == 0 {
            1int
        } else {
            0int
        }
    }
}

/// The pawn-structure score from white's side.
pub open spec fn pawn_structure(params: EvalParams, white_pawns: u64, black_pawns: u64) -> Score {
    let passed = passed_below(white_pawns, black_pawns, Color::White, 64) - passed_below(
        black_pawns,
        white_pawns,
        Color::Black,
        64,
    );
    let doubled = doubled_below(white_pawns, 8) - doubled_below(black_pawns, 8);
    let isolated = isolated_below(white_pawns, 8) - isolated_below(black_pawns, 8);
    params.passer@.times(passed).plus(params.doubled@.times(doubled)).plus(
        params.isolated@.times(isolated),
    )
}

/// How far the game has gone, by the non-pawn material on the board:
/// `TOTAL_PHASE` less the weight of every knight, bishop, rook and queen,
/// and no less than 0. It is 0 with all of them on the board and
/// `TOTAL_PHASE` with none.
pub open spec fn phase_of(board: Position) -> int {
    let gone = popcount(board.pieces@[0]) * PAWN_PHASE + popcount(board.pieces@[1]) * KNIGHT_PHASE
        + popcount(board.pieces@[2]) * BISHOP_PHASE + popcount(board.pieces@[3]) * ROOK_PHASE
        + popcount(board.pieces@[4]) * QUEEN_PHASE;
    if gone >= TOTAL_PHASE {
        0
    } else {
        TOTAL_PHASE - gone
    }
}

/// Whether `side` has the material to force mate: a rook or a queen, bishops
/// on both square colors, a bishop and a knight, or two knights against an
/// enemy that still has a pawn.
pub open spec fn has_mating_material(board: Position, side: Color) -> bool {
    let own = board.color_mask(side);
    let bishops = board.pieces@[2] & own;
    let knights = board.pieces@[1] & own;
    ||| own & (board.pieces@[3] | board.pieces@[4]) != 0
    ||| (LIGHT_SQUARES & bishops != 0 && DARK_SQUARES & bishops != 0)
    ||| (bishops != 0 && knights != 0)
    ||| (popcount(knights) >= 2 && pawns_of(board, side.other()) != 0)
}

/// Whether a side can still deliver mate.
#[derive(Clone, Copy, Debug, PartialEq, Eq, Structural)]
pub enum Checkmate {
    Impossible,
    Unknown,
}

/// How the material on the board limits the result, from white's side.
#[derive(Clone, Copy, Debug, PartialEq, Eq, Structural)]
pub enum OutcomeState {
    Draw,
    Unknown,
    LikelyWin,
    LikelyLoss,
}

pub open spec fn checkmate_of(board: Position, side: Color) -> Checkmate {
    if has_mating_material(board, side) {
        Checkmate::Unknown
    } else {
        Checkmate::Impossible
    }
}

pub open spec fn outcome_of(board: Position) -> OutcomeState {
    match (checkmate_of(board, Color::White), checkmate_of(board, Color::Black)) {
        (Checkmate::Impossible, Checkmate::Impossible) => OutcomeState::Draw,
        (Checkmate::Impossible, Checkmate::Unknown) => OutcomeState::LikelyLoss,
        (Checkmate::Unknown, Checkmate::Impossible) => OutcomeState::LikelyWin,
        (Checkmate::Unknown, Checkmate::Unknown) => OutcomeState::Unknown,
    }
}

/// The score of the position from white's side, before the material left
/// on the board is taken into account.
pub open spec fn white_score(params: EvalParams, board: Position) -> Score {
    let psqt = side_psqt(params, board, Color::White).minus(
        side_psqt(params, board, Color::Black),
    );
    let pawns = pawn_structure(
        params,
        pawns_of(board, Color::White),
        pawns_of(board, Color::Black),
    );
    let threats = popcount(safe_pawn_threats(board, Color::White)) - popcount(
        safe_pawn_threats(board, Color::Black),
    );
    let restriction = popcount(restricted_for(board, Color::White)) - popcount(
        restricted_for(board, Color::Black),
    );
    let king = popcount(king_threats(board, Color::White)) - popcount(
        king_threats(board, Color::Black),
    );
    psqt.plus(pawns).plus(params.threat_by_safe_pawn@.times(threats)).plus(
        params.restricted@.times(restriction),
    ).plus(params.threat_by_king@.times(king))
}

/// 1 for white, -1 for black.
pub open spec fn turn_of(color: Color) -> int {
    match color {
        Color::White => 1,
        Color::Black => -1,
    }
}

/// The evaluation of a position.
pub open spec fn evaluation_of(params: EvalParams, board: Position) -> int {
    let score = white_score(params, board);
    let phase = phase_of(board);
    let turn = turn_of(board.side_to_move);
    match outcome_of(board) {
        OutcomeState::Draw => (score.shrunk(10).blend(phase) + params.tempo) * turn,
        OutcomeState::Unknown => (score.blend(phase) + params.tempo) * turn,
        OutcomeState::LikelyLoss => {
            let v = score.blend(phase);
            (if v < 0 {
                v
            } else {
                0
            }) * turn
        },
        OutcomeState::LikelyWin => {
            let v = score.blend(phase);
            (if v > 0 {
                v
            } else {
                0
            }) * turn
        },
    }
}

/// A multiple of a bounded score is bounded by the multiple of the bound.
pub proof fn lemma_times_within(s: Score, k: int, limit: int, c: int)
    requires
        s.within(limit),
        -c <= k <= c,
    ensures
        s.times(k).within(c * limit),
{
    assert(-(c * limit) <= s.mg * k <= c * limit) by (nonlinear_arith)
        requires
            -limit <= s.mg <= limit,
            -c <= k <= c,
    ;
    assert(-(c * limit) <= s.eg * k <= c * limit) by (nonlinear_arith)
        requires
            -limit <= s.eg <= limit,
            -c <= k <= c,
    ;
}

/// `weight` taken `a - b` times, for two counts of at most 512.
fn weighted(weight: TaperedEval, a: u32, b: u32) -> (r: TaperedEval)
    requires
        weight@.within(WEIGHT_LIMIT as int),
        a <= 512,
        b <= 512,
    ensures
        r@ == weight@.times(a - b),
{
    let k: i32 = a as i32 - b as i32;
    proof {
        lemma_times_within(weight@, k as int, WEIGHT_LIMIT as int, 512);
    }
    weight.times(k)
}

/// Union of the attacks of the pieces of `kind` and `color` that stand on
/// the squares of `bb`.
fn attacks_of(bb: u64, kind: Piece, color: Color) -> (r: u64)
    ensures
        r == attacks_below(bb, kind, color, 64),
{
    let mut all: u64 = 0;
    let mut sq: u8 = 0;
    while sq < 64
        invariant
            sq <= 64,
            all == attacks_below(bb, kind, color, sq as int),
        decreases 64 - sq,
    {
        if has_square(bb, sq) {
            let one: u64 = match kind {
                Piece::Pawn => {
                    let t: u64 = pawn_attacks(sq, color, !0u64);
                    proof {
                        let x = pawn_table(sq as int, color.idx());
                        assert(x & !0u64 == x) by (bit_vector);
                    }
                    t
                },
                Piece::Knight => knight_moves(sq),
                Piece::Bishop => bishop_moves(sq, 0),
                Piece::Rook => rook_moves(sq, 0),
                Piece::Queen => bishop_moves(sq, 0) | rook_moves(sq, 0),
                Piece::King => 0,
            };
            all = all | one;
        }
        sq += 1;
    }
    all
}

/// Every square that a pawn, knight, bishop, rook or queen of `color` attacks.
fn attacked(board: &Position, color: Color) -> (r: u64)
    ensures
        r == attacked_by(*board, color),
{
    let own: u64 = board.colors(color);
    attacks_of(board.pieces[0] & own, Piece::Pawn, color) | attacks_of(
        board.pieces[1] & own,
        Piece::Knight,
        color,
    ) | attacks_of(board.pieces[2] & own, Piece::Bishop, color) | attacks_of(
        board.pieces[3] & own,
        Piece::Rook,
        color,
    ) | attacks_of(board.pieces[4] & own, Piece::Queen, color)
}

/// The hand-crafted evaluator: material and piece-square tables, pawn
/// structure, threats and restriction, tapered by the material left.
#[derive(Debug, Clone, Copy)]
pub struct BasicEval {
    pub params: EvalParams,
    pub data: BasicEvalData,
}

impl BasicEval {
    pub open spec fn wf(&self) -> bool {
        self.params.wf() && self.data.wf()
    }

    /// Whether every weight lies within its limit and each mask holds
    /// the squares ahead of its square.
    pub fn is_wf(&self) -> (r: bool)
        ensures
            r == self.wf(),
    {
        self.params.is_wf() && self.data.is_wf()
    }

    pub fn new(params: EvalParams) -> (r: BasicEval)
        requires
            params.wf(),
        ensures
            r.wf(),
            r.params == params,
    {
        BasicEval { params, data: get_basic_eval_data() }
    }

    /// Nothing is cached between evaluations.
    pub fn clear_cache(&mut self)
        ensures
            *final(self) == *old(self),
    {
    }

    /// The middlegame value of a piece.
    pub fn piece_pts(&self, piece: Piece) -> (r: i32)
        ensures
            r == self.params.piece_values@[piece.idx()].0,
    {
        self.params.piece_values[piece.index()].0
    }

    /// How far the game has gone, by the non-pawn material on the board.
    pub fn phase(board: &Position) -> (r: i32)
        ensures
            r == phase_of(*board),
            0 <= r <= TOTAL_PHASE,
    {
        let gone: u32 = popcnt(board.pieces[0]) * PAWN_PHASE + popcnt(board.pieces[1])
            * KNIGHT_PHASE + popcnt(board.pieces[2]) * BISHOP_PHASE + popcnt(board.pieces[3])
            * ROOK_PHASE + popcnt(board.pieces[4]) * QUEEN_PHASE;
        if gone >= TOTAL_PHASE {
            0
        } else {
            (TOTAL_PHASE - gone) as i32
        }
    }

    /// Sum of the table entries of white's pieces on `board`.
    pub fn get_white_psqt_score(board: u64, table: &[TaperedEval; 64]) -> (r: TaperedEval)
        requires
            forall|i: int| 0 <= i < 64 ==> (#[trigger] table@[i])@.within(WEIGHT_LIMIT as int),
        ensures
            r@ == psqt_below(*table, board, Color::White, 64),
            r@.within(64 * WEIGHT_LIMIT),
    {
        let mut psqt_score = TaperedEval(0, 0);
        let mut sq: u8 = 0;
        while sq < 64
            invariant
                sq <= 64,
                forall|i: int| 0 <= i < 64 ==> (#[trigger] table@[i])@.within(WEIGHT_LIMIT as int),
                psqt_score@ == psqt_below(*table, board, Color::White, sq as int),
                psqt_score@.within(sq * WEIGHT_LIMIT),
            decreases 64 - sq,
        {
            if has_square(board, sq) {
                let rank: usize = 7 - (sq / 8) as usize;
                let file: usize = (sq % 8) as usize;
                let entry = table[rank * 8 + file];
                assert(entry@.within(WEIGHT_LIMIT as int));
                psqt_score = psqt_score.plus(entry);
            }
            sq += 1;
        }
        psqt_score
    }

    /// Sum of the table entries of black's pieces on `board`.
    pub fn get_black_psqt_score(board: u64, table: &[TaperedEval; 64]) -> (r: TaperedEval)
        requires
            forall|i: int| 0 <= i < 64 ==> (#[trigger] table@[i])@.within(WEIGHT_LIMIT as int),
        ensures
            r@ == psqt_below(*table, board, Color::Black, 64),
            r@.within(64 * WEIGHT_LIMIT),
    {
        let mut psqt_score = TaperedEval(0, 0);
        let mut sq: u8 = 0;
        while sq < 64
            invariant
                sq <= 64,
                forall|i: int| 0 <= i < 64 ==> (#[trigger] table@[i])@.within(WEIGHT_LIMIT as int),
                psqt_score@ == psqt_below(*table, board, Color::Black, sq as int),
                psqt_score@.within(sq * WEIGHT_LIMIT),
            decreases 64 - sq,
        {
            if has_square(board, sq) {
                let entry = table[sq as usize];
                assert(entry@.within(WEIGHT_LIMIT as int));
                psqt_score = psqt_score.plus(entry);
            }
            sq += 1;
        }
        psqt_score
    }

    /// The table sum of the pieces of one kind and color.
    fn get_kind_psqt_score(&self, board: &Position, color: Color, kind: Piece) -> (r: TaperedEval)
        requires
            self.wf(),
        ensures
            r@ == psqt_below(
                self.params.tables@[kind.idx()],
                board.pieces@[kind.idx()] & board.color_mask(color),
                color,
                64,
            ),
            r@.within(64 * WEIGHT_LIMIT),
    {
        let k: usize = kind.index();
        let table = &self.params.tables[k];
        assert forall|i: int| 0 <= i < 64 implies (#[trigger] table@[i])@.within(
            WEIGHT_LIMIT as int,
        ) by {
            assert(self.params.tables@[k as int]@[i]@.within(WEIGHT_LIMIT as int));
        }
        let own: u64 = board.pieces[k] & board.colors(color);
        match color {
            Color::White => Self::get_white_psqt_score(own, table),
            Color::Black => Self::get_black_psqt_score(own, table),
        }
    }

    /// Material and placement of one side.
    fn get_side_psqt_score(&self, board: &Position, color: Color) -> (r: TaperedEval)
        requires
            self.wf(),
        ensures
            r@ == side_psqt(self.params, *board, color),
            r@.within(384 * WEIGHT_LIMIT),
    {
        let pawns = self.get_kind_psqt_score(board, color, Piece::Pawn);
        let knights = self.get_kind_psqt_score(board, color, Piece::Knight);
        let bishops = self.get_kind_psqt_score(board, color, Piece::Bishop);
        let rooks = self.get_kind_psqt_score(board, color, Piece::Rook);
        let queens = self.get_kind_psqt_score(board, color, Piece::Queen);
        let king = self.get_kind_psqt_score(board, color, Piece::King);
        pawns.plus(knights).plus(bishops).plus(rooks).plus(queens).plus(king)
    }

    /// Number of passed pawns among `pawns`, the pawns of `color`.
    fn count_passed(&self, pawns: u64, enemy_pawns: u64, color: Color) -> (r: u32)
        requires
            self.data.wf(),
        ensures
            r == passed_below(pawns, enemy_pawns, color, 64),
            r <= 64,
    {
        let mut count: u32 = 0;
        let mut sq: u8 = 0;
        while sq < 64
            invariant
                sq <= 64,
                self.data.wf(),
                count == passed_below(pawns, enemy_pawns, color, sq as int),
                count <= sq,
            decreases 64 - sq,
        {
            if has_square(pawns, sq) {
                let ahead: u64 = match color {
                    Color::White => self.data.w_ahead[sq as usize],
                    Color::Black => self.data.b_ahead[sq as usize],
                };
                proof {
                    lemma_disjoint(ahead, enemy_pawns);
                    assert forall|s: int| #[trigger]
                        is_set(ahead, s) == is_ahead(color, sq as int, s) by {
                        match color {
                            Color::White => {
                                assert(is_set(self.data.w_ahead@[sq as int], s) == is_ahead(
                                    Color::White,
                                    sq as int,
                                    s,
                                ));
                            },
                            Color::Black => {
                                assert(is_set(self.data.b_ahead@[sq as int], s) == is_ahead(
                                    Color::Black,
                                    sq as int,
                                    s,
                                ));
                            },
                        }
                    }
                    if ahead & enemy_pawns == 0 {
                        assert forall|s: int| is_set(enemy_pawns, s) implies !is_ahead(
                            color,
                            sq as int,
                            s,
                        ) by {
                            assert(!(is_set(ahead, s) && is_set(enemy_pawns, s)));
                        }
                    } else {
                        let s = choose|s: int| is_set(ahead, s) && is_set(enemy_pawns, s);
                        assert(is_set(enemy_pawns, s) && is_ahead(color, sq as int, s));
                    }
                }
                if ahead & enemy_pawns == 0 {
                    count += 1;
                }
            }
            sq += 1;
        }
        count
    }

    /// The pawn-structure score from white's side: passed pawns, doubled
    /// pawns and files without a neighbour.
    pub fn get_pawn_score(&self, white_pawns: u64, black_pawns: u64) -> (r: TaperedEval)
        requires
            self.wf(),
        ensures
            r@ == pawn_structure(self.params, white_pawns, black_pawns),
            r@.within(576 * WEIGHT_LIMIT),
    {
        let w_passed: u32 = self.count_passed(white_pawns, black_pawns, Color::White);
        let b_passed: u32 = self.count_passed(black_pawns, white_pawns, Color::Black);
        let mut w_doubled: u32 = 0;
        let mut b_doubled: u32 = 0;
        let mut w_isolated: u32 = 0;
        let mut b_isolated: u32 = 0;
        let mut file: u8 = 0;
        while file < 8
            invariant
                file <= 8,
                w_doubled == doubled_below(white_pawns, file as int),
                b_doubled == doubled_below(black_pawns, file as int),
                w_isolated == isolated_below(white_pawns, file as int),
                b_isolated == isolated_below(black_pawns, file as int),
                w_doubled <= 63 * file,
                b_doubled <= 63 * file,
                w_isolated <= file,
                b_isolated <= file,
            decreases 8 - file,
        {
            let file_bb: u64 = file_mask(file);
            let adj_files: u64 = adjacent_files_mask(file);
            let w_on: u32 = popcnt(file_bb & white_pawns);
            let b_on: u32 = popcnt(file_bb & black_pawns);
            if w_on > 1 {
                w_doubled += w_on - 1;
            }
            if b_on > 1 {
                b_doubled += b_on - 1;
            }
            if adj_files & white_pawns == 0 {
                w_isolated += 1;
            }
            if adj_files & black_pawns == 0 {
                b_isolated += 1;
            }
            file += 1;
        }
        let passed_score = weighted(self.params.passer, w_passed, b_passed);
        let doubled_score = weighted(self.params.doubled, w_doubled, b_doubled);
        let isolated_score = weighted(self.params.isolated, w_isolated, b_isolated);
        proof {
            lemma_times_within(
                self.params.passer@,
                w_passed - b_passed,
                WEIGHT_LIMIT as int,
                64,
            );
            lemma_times_within(
                self.params.doubled@,
                w_doubled - b_doubled,
                WEIGHT_LIMIT as int,
                504,
            );
            lemma_times_within(
                self.params.isolated@,
                w_isolated - b_isolated,
                WEIGHT_LIMIT as int,
                8,
            );
        }
        passed_score.plus(doubled_score).plus(isolated_score)
    }

    /// Whether `side` has the material to force mate.
    pub fn can_checkmate(board: &Position, side: Color) -> (r: Checkmate)
        ensures
            r == checkmate_of(*board, side),
    {
        let pieces: u64 = board.colors(side);
        let enemy_pawns: u64 = board.pieces[0] & board.colors(side.flip());
        let single_piece_win: bool = pieces & (board.pieces[3] | board.pieces[4]) != 0;
        let knights: u64 = board.pieces[1] & pieces;
        let bishops: u64 = board.pieces[2] & pieces;
        let white_bishop: bool = (LIGHT_SQUARES & bishops) != 0;
        let black_bishop: bool = (DARK_SQUARES & bishops) != 0;
        let bishop_pair: bool = white_bishop && black_bishop;
        if single_piece_win || bishop_pair || (bishops != 0 && knights != 0) || (popcnt(knights)
            >= 2 && enemy_pawns != 0) {
            Checkmate::Unknown
        } else {
            Checkmate::Impossible
        }
    }

    /// How the material on the board limits the result, from white's side.
    pub fn outcome_state(board: &Position) -> (r: OutcomeState)
        ensures
            r == outcome_of(*board),
    {
        let w_checkmate = Self::can_checkmate(board, Color::White);
        let b_checkmate = Self::can_checkmate(board, Color::Black);
        match (w_checkmate, b_checkmate) {
            (Checkmate::Impossible, Checkmate::Impossible) => OutcomeState::Draw,
            (Checkmate::Impossible, Checkmate::Unknown) => OutcomeState::LikelyLoss,
            (Checkmate::Unknown, Checkmate::Impossible) => OutcomeState::LikelyWin,
            (Checkmate::Unknown, Checkmate::Unknown) => OutcomeState::Unknown,
        }
    }

    /// Scores a position for the side to move. Mate and stalemate are not
    /// looked for.
    pub fn evaluate(&mut self, board: &Position) -> (r: Evaluation)
        requires
            old(self).wf(),
            board.has_kings(),
        ensures
            *final(self) == *old(self),
            r.value() == evaluation_of(old(self).params, *board),
    {
        let turn: i32 = match board.side_to_move {
            Color::White => 1,
            Color::Black => -1,
        };
        let phase: i32 = Self::phase(board);
        let white: u64 = board.colors[0];
        let black: u64 = board.colors[1];
        let white_pawns: u64 = board.pieces[0] & white;
        let black_pawns: u64 = board.pieces[0] & black;

        let white_psqt_score = self.get_side_psqt_score(board, Color::White);
        let black_psqt_score = self.get_side_psqt_score(board, Color::Black);
        let psqt_score = white_psqt_score.minus(black_psqt_score);

        let white_attacked: u64 = attacked(board, Color::White);
        let black_attacked: u64 = attacked(board, Color::Black);
        let w_pawn_attack: u64 = attacks_of(white_pawns, Piece::Pawn, Color::White);
        let b_pawn_attack: u64 = attacks_of(black_pawns, Piece::Pawn, Color::Black);

        let w_safe_squares: u64 = !black_attacked | white_attacked;
        let w_safe_pawns: u64 = white_pawns & w_safe_squares;
        let b_safe_squares: u64 = !white_attacked | black_attacked;
        let b_safe_pawns: u64 = black_pawns & b_safe_squares;

        let white_non_pawn: u64 = white & !white_pawns;
        let black_non_pawn: u64 = black & !black_pawns;

        let w_pawn_threats: u64 = attacks_of(w_safe_pawns, Piece::Pawn, Color::White);
        let b_pawn_threats: u64 = attacks_of(b_safe_pawns, Piece::Pawn, Color::Black);

        let b_safe_pawn_threats: u64 = b_pawn_threats & white_non_pawn;
        let w_safe_pawn_threats: u64 = w_pawn_threats & black_non_pawn;

        let safe_pawn_threat_score = weighted(
            self.params.threat_by_safe_pawn,
            popcnt(w_safe_pawn_threats),
            popcnt(b_safe_pawn_threats),
        );

        let w_protected: u64 = w_pawn_attack | (white_attacked & !black_attacked);
        let b_protected: u64 = b_pawn_attack | (black_attacked & !white_attacked);

        let restriction: u64 = black_attacked & white_attacked;
        let restriction_score = weighted(
            self.params.restricted,
            popcnt(restriction & b_protected),
            popcnt(restriction & w_protected),
        );

        let w_king_threat: u64 = king_moves(board.king(Color::White)) & black & !black_attacked;
        let b_king_threat: u64 = king_moves(board.king(Color::Black)) & white & !white_attacked;
        let king_score = weighted(
            self.params.threat_by_king,
            popcnt(w_king_threat),
            popcnt(b_king_threat),
        );

        let pawn_score = self.get_pawn_score(white_pawns, black_pawns);
        proof {
            lemma_times_within(
                self.params.threat_by_safe_pawn@,
                popcount(w_safe_pawn_threats) - popcount(b_safe_pawn_threats),
                WEIGHT_LIMIT as int,
                64,
            );
            lemma_times_within(
                self.params.restricted@,
                popcount(restriction & b_protected) - popcount(restriction & w_protected),
                WEIGHT_LIMIT as int,
                64,
            );
            lemma_times_within(
                self.params.threat_by_king@,
                popcount(w_king_threat) - popcount(b_king_threat),
                WEIGHT_LIMIT as int,
                64,
            );
        }
        let white_score = psqt_score.plus(pawn_score).plus(safe_pawn_threat_score).plus(
            restriction_score,
        ).plus(king_score);
        assert(white_score@ == crate::basic_eval::white_score(self.params, *board));

        match Self::outcome_state(board) {
            OutcomeState::LikelyLoss => {
                let score: i32 = white_score.convert(phase);
                proof {
                    crate::tapered::lemma_blend_between(
                        white_score.0 as int,
                        white_score.1 as int,
                        phase as int,
                    );
                }
                let capped: i32 = if score < 0 {
                    score
                } else {
                    0
                };
                Evaluation::new(capped * turn)
            },
            OutcomeState::LikelyWin => {
                let score: i32 = white_score.convert(phase);
                proof {
                    crate::tapered::lemma_blend_between(
                        white_score.0 as int,
                        white_score.1 as int,
                        phase as int,
                    );
                }
                let capped: i32 = if score > 0 {
                    score
                } else {
                    0
                };
                Evaluation::new(capped * turn)
            },
            OutcomeState::Draw => {
                let tenth = white_score.shrunk(10);
                let score: i32 = tenth.convert(phase);
                proof {
                    crate::tapered::lemma_blend_between(
                        tenth.0 as int,
                        tenth.1 as int,
                        phase as int,
                    );
                }
                Evaluation::new((score + self.params.tempo) * turn)
            },
            OutcomeState::Unknown => {
                let score: i32 = white_score.convert(phase);
                proof {
                    crate::tapered::lemma_blend_between(
                        white_score.0 as int,
                        white_score.1 as int,
                        phase as int,
                    );
                }
                Evaluation::new((score + self.params.tempo) * turn)
            },
        }
    }
}

/// The pieces of `kind` of the side to move that attack `target`.
pub open spec fn attackers_of_kind(pos: Position, target: int, kind: Piece) -> u64 {
    let color = pos.side_to_move;
    let own = pos.color_mask(color);
    let blockers = pos.occupied_mask();
    match kind {
        Piece::Pawn => (pawn_table(target, color.other().idx()) & blockers) & own & pos.pieces@[0],
        Piece::Knight => knight_table(target) & pos.pieces@[1] & own,
        Piece::Bishop => bishop_table(target, blockers) & own & pos.pieces@[2],
        Piece::Rook => rook_table(target, blockers) & pos.pieces@[3] & own,
        Piece::Queen => (rook_table(target, blockers) | bishop_table(target, blockers))
            & pos.pieces@[4] & own,
        Piece::King => king_table(target) & pos.pieces@[5] & own,
    }
}

/// The square of the least valuable piece of the side to move that attacks
/// `target`, looking at the kinds from `k` on; among several of one kind,
/// the one on the lowest square.
pub open spec fn least_attacker_from(pos: Position, target: int, k: int) -> Option<u8>
    decreases 6 - k,
{
    if k < 0 || k >= 6 {
        None
    } else {
        let found = attackers_of_kind(pos, target, Piece::of_idx(k));
        if found != 0 {
            Some(lowest_from(found, 0) as u8)
        } else {
            least_attacker_from(pos, target, k + 1)
        }
    }
}

pub open spec fn least_attacker(pos: Position, target: int) -> Option<u8> {
    least_attacker_from(pos, target, 0)
}

/// The middlegame value of what stands on `sq`; an empty square is worth
/// nothing.
pub open spec fn value_on(params: EvalParams, pos: Position, sq: int) -> int {
    match pos.kind_at(sq) {
        Some(p) => params.piece_values@[p.idx()].0 as int,
        None => 0,
    }
}

/// The capture of `target` by the piece on `from`.
pub open spec fn capture(from: u8, target: u8) -> Move {
    Move { from, to: target, promotion: None }
}

/// The speculative gains of an exchange on `target` from its capture number
/// `i` on, where `cur` is the board after that capture and `prev` the gain
/// before it. Each entry is the value of the piece that has just captured,
/// less the gain before. The exchange goes on while the side to move has an
/// attacker, for 31 captures at most. Where the attacker's capture cannot
/// be made on the board, as when it takes the king, the exchange ends with
/// that capture: the piece that captures is the last to stand on the
/// square, and its value less the gain is the last entry.
pub open spec fn gains_from(
    params: EvalParams,
    cur: chess::Board,
    target: u8,
    prev: int,
    i: int,
) -> Seq<int>
    decreases 32 - i,
{
    let pos = chess_position(cur);
    let gain = value_on(params, pos, target as int) - prev;
    seq![gain] + match least_attacker(pos, target as int) {
        Some(from) => if i + 1 >= 32 {
            Seq::empty()
        } else if playable(pos, capture(from, target)) {
            gains_from(params, chess_after(cur, capture(from, target)), target, gain, i + 1)
        } else {
            seq![value_on(params, pos, from as int) - gain]
        },
        None => Seq::empty(),
    }
}

/// All gains of the exchange that `mv` starts: the value of what stands on
/// its destination, then the gains of the captures made.
pub open spec fn exchange_gains(params: EvalParams, board: chess::Board, mv: Move) -> Seq<int> {
    let pos = chess_position(board);
    let first = value_on(params, pos, mv.to as int);
    seq![first] + if playable(pos, mv) {
        gains_from(params, chess_after(board, mv), mv.to, first, 1)
    } else {
        Seq::empty()
    }
}

/// What entry `j` is worth once either side may stop capturing: the
/// entries from `index` on are left out.
pub open spec fn settled(gains: Seq<int>, j: int, index: int) -> int
    decreases index - j,
{
    if j + 1 >= index || j < 0 || j >= gains.len() {
        if 0 <= j < gains.len() {
            gains[j]
        } else {
            0
        }
    } else {
        let later = settled(gains, j + 1, index);
        if -gains[j] >= later {
            gains[j]
        } else {
            -later
        }
    }
}

/// The number of entries that count: the last one is speculative, since
/// nothing captures the piece that captured last.
pub open spec fn settle_index(len: int) -> int {
    len - 1
}

/// The static exchange evaluation of `mv`.
pub open spec fn see_of(params: EvalParams, board: chess::Board, mv: Move) -> int {
    let gains = exchange_gains(params, board, mv);
    settled(gains, 0, settle_index(gains.len() as int))
}

/// The pieces of `kind` of the side to move that attack `target`.
pub fn attackers(pos: &Position, target: u8, kind: Piece) -> (r: u64)
    requires
        target < 64,
    ensures
        r == attackers_of_kind(*pos, target as int, kind),
{
    let color: Color = pos.side_to_move;
    let own: u64 = pos.colors(color);
    let blockers: u64 = pos.occupied();
    match kind {
        Piece::Pawn => pawn_attacks(target, color.flip(), blockers) & own & pos.pieces[0],
        Piece::Knight => knight_moves(target) & pos.pieces[1] & own,
        Piece::Bishop => bishop_moves(target, blockers) & own & pos.pieces[2],
        Piece::Rook => rook_moves(target, blockers) & pos.pieces[3] & own,
        Piece::Queen => (rook_moves(target, blockers) | bishop_moves(target, blockers))
            & pos.pieces[4] & own,
        Piece::King => king_moves(target) & pos.pieces[5] & own,
    }
}

/// The square of the least valuable piece of the side to move that attacks
/// `target`.
pub fn least_valuable_attacker(pos: &Position, target: u8) -> (r: Option<u8>)
    requires
        target < 64,
    ensures
        r == least_attacker(*pos, target as int),
        r matches Some(from) ==> from < 64,
{
    let mut k: usize = 0;
    while k < 6
        invariant
            k <= 6,
            target < 64,
            least_attacker(*pos, target as int) == least_attacker_from(
                *pos,
                target as int,
                k as int,
            ),
        decreases 6 - k,
    {
        let found: u64 = attackers(pos, target, Piece::from_index(k));
        if found != 0 {
            return Some(lowest_square(found));
        }
        k += 1;
    }
    None
}

/// Works back through the first `index` gains of an exchange, letting each
/// side stop where going on would lose, and gives what the first capture
/// is worth.
pub fn settle(gains: &[i32; 32], index: usize) -> (r: i32)
    requires
        index <= 32,
        forall|j: int| 0 <= j < 32 ==> -i32::MAX <= #[trigger] gains@[j],
    ensures
        r == settled(gains@.map_values(|g: i32| g as int), 0, index as int),
{
    let ghost ints = gains@.map_values(|g: i32| g as int);
    if index <= 1 {
        return gains[0];
    }
    let mut i: usize = index - 1;
    let mut later: i32 = gains[i];
    assert(later == settled(ints, i as int, index as int));
    while i > 0
        invariant
            i < index <= 32,
            ints == gains@.map_values(|g: i32| g as int),
            forall|j: int| 0 <= j < 32 ==> -i32::MAX <= #[trigger] gains@[j],
            later == settled(ints, i as int, index as int),
            -i32::MAX <= later,
        decreases i,
    {
        i -= 1;
        let here: i32 = gains[i];
        later = if -here >= later {
            here
        } else {
            -later
        };
    }
    later
}

impl BasicEval {
    /// The middlegame value of what stands on `sq`.
    fn points_on(&self, pos: &Position, sq: u8) -> (r: i32)
        requires
            self.wf(),
        ensures
            r == value_on(self.params, *pos, sq as int),
            -WEIGHT_LIMIT <= r <= WEIGHT_LIMIT,
    {
        match pos.piece_on(sq) {
            Some(p) => {
                assert(self.params.piece_values@[p.idx()]@.within(WEIGHT_LIMIT as int));
                self.piece_pts(p)
            },
            None => 0,
        }
    }

    /// Static exchange evaluation: the material that `mv` wins or loses once
    /// both sides have captured on its destination, least valuable attacker
    /// first, as long as it pays.
    pub fn see(&self, board: &chess::Board, mv: Move) -> (r: i32)
        requires
            self.wf(),
        ensures
            r == see_of(self.params, *board, mv),
    {
        let target: u8 = mv.to;
        let start = Position::from_chess(board);
        let mut gains: [i32; 32] = [0i32; 32];
        gains[0] = self.points_on(&start, target);
        let ghost full = exchange_gains(self.params, *board, mv);
        let mut cur: chess::Board = match play(board, mv) {
            Some(b) => b,
            None => {
                return gains[0];
            },
        };
        let mut index: usize = 0;
        let mut i: usize = 1;
        let mut done: bool = false;
        while i < 32 && !done
            invariant
                1 <= i <= 32,
                self.wf(),
                target == mv.to,
                target < 64,
                full == exchange_gains(self.params, *board, mv),
                forall|j: int| 0 <= j < 32 ==> -(j + 1) * WEIGHT_LIMIT <= #[trigger] gains@[j] <= (j + 1) * WEIGHT_LIMIT,
                !done ==> i < 32,
                !done ==> full == gains@.map_values(|g: i32| g as int).take(i as int)
                    + gains_from(self.params, cur, target, gains@[i - 1] as int, i as int),
                done ==> full == gains@.map_values(|g: i32| g as int).take(index + 1),
                done ==> index < 32,
            decreases 32 - i, (if done { 0int } else { 1int }),
        {
            let pos = Position::from_chess(&cur);
            let ghost before = gains@.map_values(|g: i32| g as int);
            let gain: i32 = self.points_on(&pos, target) - gains[i - 1];
            gains[i] = gain;
            let ghost now = gains@.map_values(|g: i32| g as int);
            proof {
                assert(now.take(i as int) =~= before.take(i as int));
                assert(now.take(i + 1) =~= before.take(i as int) + seq![gain as int]);
            }
            match least_valuable_attacker(&pos, target) {
                None => {
                    index = i;
                    done = true;
                },
                Some(from) => {
                    let next = Move { from, to: target, promotion: None };
                    if i + 1 < 32 {
                        match play(&cur, next) {
                            Some(b) => {
                                cur = b;
                                i += 1;
                            },
                            None => {
                                let taker: i32 = self.points_on(&pos, from);
                                gains[i + 1] = taker - gain;
                                index = i + 1;
                                done = true;
                                proof {
                                    let last = gains@.map_values(|g: i32| g as int);
                                    assert(last.take(i + 2) =~= before.take(i as int) + seq![
                                        gain as int,
                                    ] + seq![taker - gain]);
                                }
                            },
                        }
                    } else {
                        index = i;
                        done = true;
                    }
                },
            }
        }
        proof {
            let ints = gains@.map_values(|g: i32| g as int);
            assert(full.len() == index + 1);
            lemma_settled_prefix(ints, full, 0, index as int);
        }
        settle(&gains, index)
    }
}

/// Settling looks at no entry from `index` on.
pub proof fn lemma_settled_prefix(a: Seq<int>, b: Seq<int>, j: int, index: int)
    requires
        0 <= j,
        index <= a.len(),
        index <= b.len(),
        forall|k: int| 0 <= k < index ==> a[k] == b[k],
        j < index || (j < a.len() && j < b.len() && a[j] == b[j]),
    ensures
        settled(a, j, index) == settled(b, j, index),
    decreases index - j,
{
    if j + 1 < index {
        lemma_settled_prefix(a, b, j + 1, index);
    }
}

} // verus!
