use vstd::prelude::*;
use crate::board::{
    count_below, is_set, lemma_is_set_and, lemma_is_set_not, lemma_is_set_or, lemma_lowest_from,
    lemma_nonzero_has, lemma_zero_has_none, popcount, Piece,
};
use crate::basic_eval::{
    doubled_below, evaluation_of, has_mating_material, is_ahead, is_passed, isolated_below,
    king_threats, outcome_of, passed_below, pawn_structure,
    pawns_of, phase_of, psqt_below, restricted_for, safe_pawn_threats, side_psqt, table_index,
    white_score, EvalParams, OutcomeState, DARK_SQUARES, LIGHT_SQUARES,
};
use crate::attacks::{
    adjacent_file_squares, bishop_reach, bishop_table, file_squares, king_reach, king_table,
    knight_reach, knight_table, lemma_squares_where, pawn_reach, pawn_table, rook_reach,
    rook_table,
};
use crate::basic_eval::{attacked_by, attacks_below, pawn_attacked_by, piece_attacks, protected_by};
use crate::board::{Color, Position};
use crate::nnue::flip_rank;
use crate::basic_eval::turn_of;
use crate::tapered::{trunc_div, Score, TaperedEval, TOTAL_PHASE};

verus! {

/// Sum of `f` over the squares below `n`.
pub open spec fn sum_below(f: spec_fn(int) -> int, n: int) -> int
    decreases n,
{
    if n <= 0 {
        0
    } else {
        sum_below(f, n - 1) + f(n - 1)
    }
}

/// Sum of `f` over the eight squares of rank `r`.
pub open spec fn rank_sum(f: spec_fn(int) -> int, r: int) -> int {
    f(8 * r) + f(8 * r + 1) + f(8 * r + 2) + f(8 * r + 3) + f(8 * r + 4) + f(8 * r + 5) + f(
        8 * r + 6,
    ) + f(8 * r + 7)
}

/// A sum up to the end of a rank is the sum up to its start and the sum
/// over the rank.
pub proof fn lemma_rank(f: spec_fn(int) -> int, r: int)
    requires
        0 <= r,
    ensures
        sum_below(f, 8 * r + 8) == sum_below(f, 8 * r) + rank_sum(f, r),
{
    let b = 8 * r;
    assert(sum_below(f, b + 1) == sum_below(f, b) + f(b));
    assert(sum_below(f, b + 2) == sum_below(f, b + 1) + f(b + 1));
    assert(sum_below(f, b + 3) == sum_below(f, b + 2) + f(b + 2));
    assert(sum_below(f, b + 4) == sum_below(f, b + 3) + f(b + 3));
    assert(sum_below(f, b + 5) == sum_below(f, b + 4) + f(b + 4));
    assert(sum_below(f, b + 6) == sum_below(f, b + 5) + f(b + 5));
    assert(sum_below(f, b + 7) == sum_below(f, b + 6) + f(b + 6));
    assert(sum_below(f, b + 8) == sum_below(f, b + 7) + f(b + 7));
}

/// A sum over the board is the sum of the sums over its ranks.
pub proof fn lemma_sum_by_ranks(f: spec_fn(int) -> int)
    ensures
        sum_below(f, 64) == rank_sum(f, 0) + rank_sum(f, 1) + rank_sum(f, 2) + rank_sum(f, 3)
            + rank_sum(f, 4) + rank_sum(f, 5) + rank_sum(f, 6) + rank_sum(f, 7),
{
    lemma_rank(f, 0);
    lemma_rank(f, 1);
    lemma_rank(f, 2);
    lemma_rank(f, 3);
    lemma_rank(f, 4);
    lemma_rank(f, 5);
    lemma_rank(f, 6);
    lemma_rank(f, 7);
    assert(sum_below(f, 0) == 0);
}

/// A sum over the board does not change when the board is turned top to
/// bottom.
pub proof fn lemma_sum_flipped(f: spec_fn(int) -> int, g: spec_fn(int) -> int)
    requires
        forall|s: int| 0 <= s < 64 ==> #[trigger] g(s) == f(flip_rank(s)),
    ensures
        sum_below(g, 64) == sum_below(f, 64),
{
    lemma_sum_by_ranks(f);
    lemma_sum_by_ranks(g);
    assert forall|r: int| 0 <= r < 8 implies rank_sum(g, r) == #[trigger] rank_sum(f, 7 - r) by {
        assert(flip_rank(8 * r + 0) == 8 * (7 - r) + 0);
        assert(flip_rank(8 * r + 1) == 8 * (7 - r) + 1);
        assert(flip_rank(8 * r + 2) == 8 * (7 - r) + 2);
        assert(flip_rank(8 * r + 3) == 8 * (7 - r) + 3);
        assert(flip_rank(8 * r + 4) == 8 * (7 - r) + 4);
        assert(flip_rank(8 * r + 5) == 8 * (7 - r) + 5);
        assert(flip_rank(8 * r + 6) == 8 * (7 - r) + 6);
        assert(flip_rank(8 * r + 7) == 8 * (7 - r) + 7);
        assert(g(8 * r + 0) == f(8 * (7 - r) + 0));
        assert(g(8 * r + 1) == f(8 * (7 - r) + 1));
        assert(g(8 * r + 2) == f(8 * (7 - r) + 2));
        assert(g(8 * r + 3) == f(8 * (7 - r) + 3));
        assert(g(8 * r + 4) == f(8 * (7 - r) + 4));
        assert(g(8 * r + 5) == f(8 * (7 - r) + 5));
        assert(g(8 * r + 6) == f(8 * (7 - r) + 6));
        assert(g(8 * r + 7) == f(8 * (7 - r) + 7));
    }
    assert(rank_sum(g, 0) == rank_sum(f, 7 - 0));
    assert(rank_sum(g, 1) == rank_sum(f, 7 - 1));
    assert(rank_sum(g, 2) == rank_sum(f, 7 - 2));
    assert(rank_sum(g, 3) == rank_sum(f, 7 - 3));
    assert(rank_sum(g, 4) == rank_sum(f, 7 - 4));
    assert(rank_sum(g, 5) == rank_sum(f, 7 - 5));
    assert(rank_sum(g, 6) == rank_sum(f, 7 - 6));
    assert(rank_sum(g, 7) == rank_sum(f, 7 - 7));
}

/// Whether `b` is `a` turned top to bottom: each square of `a` is found
/// on the same file of `b`, on the rank counted from the other side.
pub open spec fn turned(a: u64, b: u64) -> bool {
    forall|s: int| 0 <= s < 64 ==> #[trigger] is_set(b, s) == is_set(a, flip_rank(s))
}

/// Turning twice gives the board back.
pub proof fn lemma_turned_back(a: u64, b: u64)
    requires
        turned(a, b),
    ensures
        turned(b, a),
{
    assert forall|s: int| 0 <= s < 64 implies #[trigger] is_set(a, s) == is_set(b, flip_rank(s)) by {
        let t = flip_rank(s);
        assert(0 <= t < 64 && flip_rank(t) == s);
        assert(is_set(b, t) == is_set(a, flip_rank(t)));
    }
}

/// The squares that two turned boards share are the turned squares that
/// the two boards share.
pub proof fn lemma_turned_and(a1: u64, b1: u64, a2: u64, b2: u64)
    requires
        turned(a1, b1),
        turned(a2, b2),
    ensures
        turned(a1 & a2, b1 & b2),
{
    assert forall|s: int| 0 <= s < 64 implies #[trigger] is_set(b1 & b2, s) == is_set(
        a1 & a2,
        flip_rank(s),
    ) by {
        lemma_is_set_and(b1, b2, s);
        lemma_is_set_and(a1, a2, flip_rank(s));
    }
}

/// The squares of one of two turned boards are the turned squares of one
/// of the two boards.
pub proof fn lemma_turned_or(a1: u64, b1: u64, a2: u64, b2: u64)
    requires
        turned(a1, b1),
        turned(a2, b2),
    ensures
        turned(a1 | a2, b1 | b2),
{
    assert forall|s: int| 0 <= s < 64 implies #[trigger] is_set(b1 | b2, s) == is_set(
        a1 | a2,
        flip_rank(s),
    ) by {
        lemma_is_set_or(b1, b2, s);
        lemma_is_set_or(a1, a2, flip_rank(s));
    }
}

/// A board is empty exactly if the turned board is.
pub proof fn lemma_turned_empty(a: u64, b: u64)
    requires
        turned(a, b),
    ensures
        (a == 0) == (b == 0),
{
    if a != 0 {
        lemma_nonzero_has(a);
        let s = choose|s: int| is_set(a, s);
        let t = flip_rank(s);
        assert(0 <= t < 64 && flip_rank(t) == s);
        assert(is_set(b, t));
        if b == 0 {
            lemma_zero_has_none(t);
        }
    }
    if b != 0 {
        lemma_nonzero_has(b);
        let s = choose|s: int| is_set(b, s);
        assert(is_set(a, flip_rank(s)));
        if a == 0 {
            lemma_zero_has_none(flip_rank(s));
        }
    }
}

/// A count of squares is a sum of ones.
pub proof fn lemma_count_is_sum(bb: u64, n: int)
    requires
        0 <= n,
    ensures
        count_below(bb, n) == sum_below(
            |s: int|
                if is_set(bb, s) {
                    1int
                } else {
                    0int
                },
            n,
        ),
    decreases n,
{
    if n > 0 {
        lemma_count_is_sum(bb, n - 1);
    }
}

/// A turned board holds as many squares.
pub proof fn lemma_turned_count(a: u64, b: u64)
    requires
        turned(a, b),
    ensures
        popcount(a) == popcount(b),
{
    let f = |s: int|
        if is_set(a, s) {
            1int
        } else {
            0int
        };
    let g = |s: int|
        if is_set(b, s) {
            1int
        } else {
            0int
        };
    lemma_count_is_sum(a, 64);
    lemma_count_is_sum(b, 64);
    assert forall|s: int| 0 <= s < 64 implies #[trigger] g(s) == f(flip_rank(s)) by {
        assert(is_set(b, s) == is_set(a, flip_rank(s)));
    }
    lemma_sum_flipped(f, g);
}

/// The middlegame values of a table's entries for the squares of `bb`.
pub open spec fn table_mg(table: [TaperedEval; 64], bb: u64, color: Color) -> spec_fn(int) -> int {
    |s: int|
        if is_set(bb, s) {
            table@[table_index(color, s)].0 as int
        } else {
            0int
        }
}

/// The endgame values of a table's entries for the squares of `bb`.
pub open spec fn table_eg(table: [TaperedEval; 64], bb: u64, color: Color) -> spec_fn(int) -> int {
    |s: int|
        if is_set(bb, s) {
            table@[table_index(color, s)].1 as int
        } else {
            0int
        }
}

/// A table sum is the pair of the sums of its two values.
pub proof fn lemma_psqt_is_sum(table: [TaperedEval; 64], bb: u64, color: Color, n: int)
    requires
        0 <= n,
    ensures
        psqt_below(table, bb, color, n) == (Score {
            mg: sum_below(table_mg(table, bb, color), n),
            eg: sum_below(table_eg(table, bb, color), n),
        }),
    decreases n,
{
    if n > 0 {
        lemma_psqt_is_sum(table, bb, color, n - 1);
    }
}

/// White's pieces read from a table what black's pieces read on the
/// turned board.
pub proof fn lemma_turned_psqt(table: [TaperedEval; 64], a: u64, b: u64)
    requires
        turned(a, b),
    ensures
        psqt_below(table, b, Color::White, 64) == psqt_below(table, a, Color::Black, 64),
        psqt_below(table, b, Color::Black, 64) == psqt_below(table, a, Color::White, 64),
{
    lemma_psqt_is_sum(table, b, Color::White, 64);
    lemma_psqt_is_sum(table, a, Color::Black, 64);
    lemma_psqt_is_sum(table, b, Color::Black, 64);
    lemma_psqt_is_sum(table, a, Color::White, 64);
    assert forall|s: int| 0 <= s < 64 implies #[trigger] table_mg(table, b, Color::White)(s)
        == table_mg(table, a, Color::Black)(flip_rank(s)) by {
        assert(is_set(b, s) == is_set(a, flip_rank(s)));
    }
    lemma_sum_flipped(table_mg(table, a, Color::Black), table_mg(table, b, Color::White));
    assert forall|s: int| 0 <= s < 64 implies #[trigger] table_eg(table, b, Color::White)(s)
        == table_eg(table, a, Color::Black)(flip_rank(s)) by {
        assert(is_set(b, s) == is_set(a, flip_rank(s)));
    }
    lemma_sum_flipped(table_eg(table, a, Color::Black), table_eg(table, b, Color::White));
    assert forall|s: int| 0 <= s < 64 implies #[trigger] table_mg(table, b, Color::Black)(s)
        == table_mg(table, a, Color::White)(flip_rank(s)) by {
        assert(is_set(b, s) == is_set(a, flip_rank(s)));
    }
    lemma_sum_flipped(table_mg(table, a, Color::White), table_mg(table, b, Color::Black));
    assert forall|s: int| 0 <= s < 64 implies #[trigger] table_eg(table, b, Color::Black)(s)
        == table_eg(table, a, Color::White)(flip_rank(s)) by {
        assert(is_set(b, s) == is_set(a, flip_rank(s)));
    }
    lemma_sum_flipped(table_eg(table, a, Color::White), table_eg(table, b, Color::Black));
}

/// The mask of a file holds the squares of that file.
pub proof fn lemma_file_squares(file: int, s: int)
    requires
        0 <= file < 8,
        0 <= s < 64,
    ensures
        is_set(file_squares(file), s) == (s % 8 == file),
{
    let f = file as u64;
    let t = s as u64;
    assert((((0x0101_0101_0101_0101u64 << f) >> t) & 1 == 1) == (t % 8 == f)) by (bit_vector)
        requires
            f < 8,
            t < 64,
    ;
}

/// The mask of a file is its own turned board.
pub proof fn lemma_file_turned(file: int)
    requires
        0 <= file < 8,
    ensures
        turned(file_squares(file), file_squares(file)),
        turned(adjacent_file_squares(file), adjacent_file_squares(file)),
{
    assert forall|s: int| 0 <= s < 64 implies #[trigger] is_set(file_squares(file), s) == is_set(
        file_squares(file),
        flip_rank(s),
    ) by {
        lemma_file_squares(file, s);
        lemma_file_squares(file, flip_rank(s));
    }
    let left: u64 = if file > 0 {
        file_squares(file - 1)
    } else {
        0
    };
    let right: u64 = if file < 7 {
        file_squares(file + 1)
    } else {
        0
    };
    assert forall|s: int| 0 <= s < 64 implies #[trigger] is_set(left, s) == is_set(
        left,
        flip_rank(s),
    ) by {
        if file > 0 {
            lemma_file_squares(file - 1, s);
            lemma_file_squares(file - 1, flip_rank(s));
        } else {
            lemma_zero_has_none(s);
            lemma_zero_has_none(flip_rank(s));
        }
    }
    assert forall|s: int| 0 <= s < 64 implies #[trigger] is_set(right, s) == is_set(
        right,
        flip_rank(s),
    ) by {
        if file < 7 {
            lemma_file_squares(file + 1, s);
            lemma_file_squares(file + 1, flip_rank(s));
        } else {
            lemma_zero_has_none(s);
            lemma_zero_has_none(flip_rank(s));
        }
    }
    lemma_turned_or(left, left, right, right);
}

/// Turning the board makes the light squares dark and the dark squares
/// light.
pub proof fn lemma_square_colors_turned()
    ensures
        turned(LIGHT_SQUARES, DARK_SQUARES),
        turned(DARK_SQUARES, LIGHT_SQUARES),
{
    assert forall|s: int| 0 <= s < 64 implies #[trigger] is_set(DARK_SQUARES, s) == is_set(
        LIGHT_SQUARES,
        flip_rank(s),
    ) by {
        let t = s as u64;
        let u = flip_rank(s) as u64;
        assert(u == t ^ 56) by (bit_vector)
            requires
                t < 64,
                u == (7 - t / 8) * 8 + t % 8,
        ;
        assert((((0xAA55_AA55_AA55_AA55u64 >> t) & 1) == 1) == (((0x55AA_55AA_55AA_55AAu64 >> (t
            ^ 56)) & 1) == 1)) by (bit_vector)
            requires
                t < 64,
        ;
    }
    lemma_turned_back(LIGHT_SQUARES, DARK_SQUARES);
}

/// Doubled pawns and files without a neighbour are counted alike on the
/// turned board.
pub proof fn lemma_turned_files(a: u64, b: u64, n: int)
    requires
        turned(a, b),
        0 <= n <= 8,
    ensures
        doubled_below(a, n) == doubled_below(b, n),
        isolated_below(a, n) == isolated_below(b, n),
    decreases n,
{
    if n > 0 {
        lemma_turned_files(a, b, n - 1);
        lemma_file_turned(n - 1);
        lemma_turned_and(file_squares(n - 1), file_squares(n - 1), a, b);
        lemma_turned_count(file_squares(n - 1) & a, file_squares(n - 1) & b);
        lemma_turned_and(adjacent_file_squares(n - 1), adjacent_file_squares(n - 1), a, b);
        lemma_turned_empty(adjacent_file_squares(n - 1) & a, adjacent_file_squares(n - 1) & b);
    }
}

/// A white pawn is passed exactly if the black pawn on the turned board
/// is.
pub proof fn lemma_turned_passed(s: int, enemy_a: u64, enemy_b: u64)
    requires
        0 <= s < 64,
        turned(enemy_a, enemy_b),
    ensures
        is_passed(Color::White, s, enemy_b) == is_passed(Color::Black, flip_rank(s), enemy_a),
        is_passed(Color::Black, s, enemy_b) == is_passed(Color::White, flip_rank(s), enemy_a),
{
    lemma_turned_passed_one(Color::White, s, enemy_a, enemy_b);
    lemma_turned_passed_one(Color::Black, s, enemy_a, enemy_b);
}

proof fn lemma_turned_passed_one(color: Color, s: int, enemy_a: u64, enemy_b: u64)
    requires
        0 <= s < 64,
        turned(enemy_a, enemy_b),
    ensures
        is_passed(color, s, enemy_b) == is_passed(color.other(), flip_rank(s), enemy_a),
{
    let u = flip_rank(s);
    lemma_flip_twice(s);
    if is_passed(color, s, enemy_b) {
        assert forall|t: int| is_set(enemy_a, t) implies !is_ahead(color.other(), u, t) by {
            let v = flip_rank(t);
            lemma_flip_twice(t);
            lemma_ahead_turned(color, s, v);
            assert(is_set(enemy_b, v) == is_set(enemy_a, flip_rank(v)));
            assert(is_set(enemy_b, v) ==> !is_ahead(color, s, v));
        }
    }
    if is_passed(color.other(), u, enemy_a) {
        assert forall|t: int| is_set(enemy_b, t) implies !is_ahead(color, s, t) by {
            let v = flip_rank(t);
            lemma_flip_twice(t);
            lemma_ahead_turned(color, s, t);
            assert(is_set(enemy_b, t) == is_set(enemy_a, v));
            assert(is_set(enemy_a, v) ==> !is_ahead(color.other(), u, v));
        }
    }
}

/// Turning a square twice gives it back.
pub proof fn lemma_flip_twice(s: int)
    requires
        0 <= s < 64,
    ensures
        0 <= flip_rank(s) < 64,
        flip_rank(flip_rank(s)) == s,
        flip_rank(s) % 8 == s % 8,
        flip_rank(s) / 8 == 7 - s / 8,
{
}

/// What lies ahead of a pawn lies ahead of the pawn of the other color
/// on the turned board.
pub proof fn lemma_ahead_turned(color: Color, k: int, t: int)
    requires
        0 <= k < 64,
        0 <= t < 64,
    ensures
        is_ahead(color, k, t) == is_ahead(color.other(), flip_rank(k), flip_rank(t)),
{
    lemma_flip_twice(k);
    lemma_flip_twice(t);
}

/// The passed pawns of `color` among `pawns`, as a function to sum.
pub open spec fn passed_one(pawns: u64, enemy: u64, color: Color) -> spec_fn(int) -> int {
    |s: int|
        if is_set(pawns, s) && is_passed(color, s, enemy) {
            1int
        } else {
            0int
        }
}

pub proof fn lemma_passed_is_sum(pawns: u64, enemy: u64, color: Color, n: int)
    requires
        0 <= n,
    ensures
        passed_below(pawns, enemy, color, n) == sum_below(passed_one(pawns, enemy, color), n),
    decreases n,
{
    if n > 0 {
        lemma_passed_is_sum(pawns, enemy, color, n - 1);
    }
}

/// One side has as many passed pawns as the other side has on the turned
/// board.
pub proof fn lemma_turned_passed_count(color: Color, pawns_a: u64, enemy_a: u64, pawns_b: u64, enemy_b: u64)
    requires
        turned(pawns_a, pawns_b),
        turned(enemy_a, enemy_b),
    ensures
        passed_below(pawns_b, enemy_b, color, 64) == passed_below(
            pawns_a,
            enemy_a,
            color.other(),
            64,
        ),
{
    lemma_passed_is_sum(pawns_b, enemy_b, color, 64);
    lemma_passed_is_sum(pawns_a, enemy_a, color.other(), 64);
    let f = passed_one(pawns_a, enemy_a, color.other());
    let g = passed_one(pawns_b, enemy_b, color);
    assert forall|s: int| 0 <= s < 64 implies #[trigger] g(s) == f(flip_rank(s)) by {
        assert(is_set(pawns_b, s) == is_set(pawns_a, flip_rank(s)));
        lemma_turned_passed_one(color, s, enemy_a, enemy_b);
    }
    lemma_sum_flipped(f, g);
}

/// Rounding toward zero treats a number and its negation alike.
pub proof fn lemma_trunc_div_negates(a: int, b: int)
    requires
        b > 0,
    ensures
        trunc_div(-a, b) == -trunc_div(a, b),
{
    if a == 0 {
        assert(0int / b == 0) by (nonlinear_arith)
            requires
                b > 0,
        ;
    }
}

/// The tempo, counted for white and against black.
pub open spec fn tempo_of(params: EvalParams, pos: Position) -> int {
    params.tempo * turn_of(pos.side_to_move)
}

/// Two positions with the same side to move, of which the second scores
/// for white what the first scores against white, with the same material
/// left and the mating material of the two sides exchanged, are evaluated
/// to opposite numbers, the tempo aside. Where one side cannot mate, no
/// tempo is counted, and the evaluations are opposite numbers.
pub proof fn lemma_mirrored_scores_negate(params: EvalParams, pos: Position, mirrored: Position)
    requires
        mirrored.side_to_move == pos.side_to_move,
        white_score(params, mirrored) == white_score(params, pos).negated(),
        phase_of(mirrored) == phase_of(pos),
        has_mating_material(mirrored, Color::White) == has_mating_material(pos, Color::Black),
        has_mating_material(mirrored, Color::Black) == has_mating_material(pos, Color::White),
    ensures
        match outcome_of(pos) {
            OutcomeState::Draw | OutcomeState::Unknown => evaluation_of(params, mirrored)
                - tempo_of(params, pos) == -(evaluation_of(params, pos) - tempo_of(params, pos)),
            OutcomeState::LikelyWin | OutcomeState::LikelyLoss => evaluation_of(params, mirrored)
                == -evaluation_of(params, pos),
        },
{
    let score = white_score(params, pos);
    let phase = phase_of(pos);
    let turn = turn_of(pos.side_to_move);
    let total = score.mg * (TOTAL_PHASE - phase) + score.eg * phase;
    assert((-score.mg) * (TOTAL_PHASE - phase) + (-score.eg) * phase == -total)
        by (nonlinear_arith)
        requires
            total == score.mg * (TOTAL_PHASE - phase) + score.eg * phase,
    ;
    lemma_trunc_div_negates(total, TOTAL_PHASE as int);
    assert(score.negated().blend(phase) == -score.blend(phase));
    lemma_trunc_div_negates(score.mg, 10);
    lemma_trunc_div_negates(score.eg, 10);
    let tenth = score.shrunk(10);
    assert(score.negated().shrunk(10) == tenth.negated());
    let tenth_total = tenth.mg * (TOTAL_PHASE - phase) + tenth.eg * phase;
    assert((-tenth.mg) * (TOTAL_PHASE - phase) + (-tenth.eg) * phase == -tenth_total)
        by (nonlinear_arith)
        requires
            tenth_total == tenth.mg * (TOTAL_PHASE - phase) + tenth.eg * phase,
    ;
    lemma_trunc_div_negates(tenth_total, TOTAL_PHASE as int);
    assert(tenth.negated().blend(phase) == -tenth.blend(phase));
    let b = score.blend(phase);
    let t = tenth.blend(phase);
    assert((-b + params.tempo) * turn - params.tempo * turn == -((b + params.tempo) * turn
        - params.tempo * turn)) by (nonlinear_arith);
    assert((-t + params.tempo) * turn - params.tempo * turn == -((t + params.tempo) * turn
        - params.tempo * turn)) by (nonlinear_arith);
    assert((-b) * turn == -(b * turn)) by (nonlinear_arith);
    assert(0 * turn == 0);
}

/// Whether `b` is `a` with the colors exchanged and the board turned top
/// to bottom, the same side to move.
pub open spec fn is_mirror_of(a: Position, b: Position) -> bool {
    &&& forall|k: int| 0 <= k < 6 ==> turned(#[trigger] a.pieces@[k], b.pieces@[k])
    &&& turned(a.colors@[0], b.colors@[1])
    &&& turned(a.colors@[1], b.colors@[0])
    &&& b.side_to_move == a.side_to_move
}

/// The pieces of one kind and color are, on the mirrored board, the
/// turned pieces of that kind and the other color.
pub proof fn lemma_mirror_kind(a: Position, b: Position, k: int, color: Color)
    requires
        is_mirror_of(a, b),
        0 <= k < 6,
    ensures
        turned(a.pieces@[k] & a.color_mask(color.other()), b.pieces@[k] & b.color_mask(color)),
        turned(a.color_mask(color.other()), b.color_mask(color)),
{
    assert(turned(a.pieces@[k], b.pieces@[k]));
    lemma_turned_and(a.pieces@[k], b.pieces@[k], a.color_mask(color.other()), b.color_mask(color));
}

/// Material and placement of one side are, on the mirrored board, those
/// of the other side.
pub proof fn lemma_mirror_psqt(params: EvalParams, a: Position, b: Position, color: Color)
    requires
        is_mirror_of(a, b),
    ensures
        side_psqt(params, b, color) == side_psqt(params, a, color.other()),
{
    lemma_mirror_kind(a, b, 0, color);
    lemma_mirror_kind(a, b, 1, color);
    lemma_mirror_kind(a, b, 2, color);
    lemma_mirror_kind(a, b, 3, color);
    lemma_mirror_kind(a, b, 4, color);
    lemma_mirror_kind(a, b, 5, color);
    let other = a.color_mask(color.other());
    let own = b.color_mask(color);
    lemma_turned_psqt(params.tables@[0], a.pieces@[0] & other, b.pieces@[0] & own);
    lemma_turned_psqt(params.tables@[1], a.pieces@[1] & other, b.pieces@[1] & own);
    lemma_turned_psqt(params.tables@[2], a.pieces@[2] & other, b.pieces@[2] & own);
    lemma_turned_psqt(params.tables@[3], a.pieces@[3] & other, b.pieces@[3] & own);
    lemma_turned_psqt(params.tables@[4], a.pieces@[4] & other, b.pieces@[4] & own);
    lemma_turned_psqt(params.tables@[5], a.pieces@[5] & other, b.pieces@[5] & own);
}

/// The pawn structure of the mirrored board scores for white what the
/// pawn structure of the board scores against white.
pub proof fn lemma_mirror_pawns(params: EvalParams, a: Position, b: Position)
    requires
        is_mirror_of(a, b),
    ensures
        pawn_structure(params, pawns_of(b, Color::White), pawns_of(b, Color::Black))
            == pawn_structure(
            params,
            pawns_of(a, Color::White),
            pawns_of(a, Color::Black),
        ).negated(),
{
    let wa = pawns_of(a, Color::White);
    let ba = pawns_of(a, Color::Black);
    let wb = pawns_of(b, Color::White);
    let bb = pawns_of(b, Color::Black);
    lemma_mirror_kind(a, b, 0, Color::White);
    lemma_mirror_kind(a, b, 0, Color::Black);
    assert(turned(ba, wb));
    assert(turned(wa, bb));
    lemma_turned_passed_count(Color::White, ba, wa, wb, bb);
    lemma_turned_passed_count(Color::Black, wa, ba, bb, wb);
    lemma_turned_files(ba, wb, 8);
    lemma_turned_files(wa, bb, 8);
    let passed = passed_below(wa, ba, Color::White, 64) - passed_below(ba, wa, Color::Black, 64);
    let doubled = doubled_below(wa, 8) - doubled_below(ba, 8);
    let isolated = isolated_below(wa, 8) - isolated_below(ba, 8);
    lemma_times_negates(params.passer@, passed);
    lemma_times_negates(params.doubled@, doubled);
    lemma_times_negates(params.isolated@, isolated);
}

/// A score taken a negated number of times is the negated score.
pub proof fn lemma_times_negates(s: Score, k: int)
    ensures
        s.times(-k) == s.times(k).negated(),
{
    assert(s.mg * (-k) == -(s.mg * k)) by (nonlinear_arith);
    assert(s.eg * (-k) == -(s.eg * k)) by (nonlinear_arith);
}

/// The mirrored board has as much material left.
pub proof fn lemma_mirror_phase(a: Position, b: Position)
    requires
        is_mirror_of(a, b),
    ensures
        phase_of(b) == phase_of(a),
{
    assert(turned(a.pieces@[0], b.pieces@[0]));
    assert(turned(a.pieces@[1], b.pieces@[1]));
    assert(turned(a.pieces@[2], b.pieces@[2]));
    assert(turned(a.pieces@[3], b.pieces@[3]));
    assert(turned(a.pieces@[4], b.pieces@[4]));
    lemma_turned_count(a.pieces@[0], b.pieces@[0]);
    lemma_turned_count(a.pieces@[1], b.pieces@[1]);
    lemma_turned_count(a.pieces@[2], b.pieces@[2]);
    lemma_turned_count(a.pieces@[3], b.pieces@[3]);
    lemma_turned_count(a.pieces@[4], b.pieces@[4]);
}

/// One side has mating material on the mirrored board exactly if the
/// other side has it on the board.
pub proof fn lemma_mirror_material(a: Position, b: Position, side: Color)
    requires
        is_mirror_of(a, b),
    ensures
        has_mating_material(b, side) == has_mating_material(a, side.other()),
{
    let own_b = b.color_mask(side);
    let own_a = a.color_mask(side.other());
    lemma_mirror_kind(a, b, 0, side);
    lemma_mirror_kind(a, b, 1, side);
    lemma_mirror_kind(a, b, 2, side);
    lemma_mirror_kind(a, b, 0, side.other());
    assert(turned(a.pieces@[3], b.pieces@[3]));
    assert(turned(a.pieces@[4], b.pieces@[4]));
    lemma_turned_or(a.pieces@[3], b.pieces@[3], a.pieces@[4], b.pieces@[4]);
    lemma_turned_and(own_a, own_b, a.pieces@[3] | a.pieces@[4], b.pieces@[3] | b.pieces@[4]);
    lemma_turned_empty(own_a & (a.pieces@[3] | a.pieces@[4]), own_b & (b.pieces@[3] | b.pieces@[4]));
    let bishops_a = a.pieces@[2] & own_a;
    let bishops_b = b.pieces@[2] & own_b;
    let knights_a = a.pieces@[1] & own_a;
    let knights_b = b.pieces@[1] & own_b;
    lemma_square_colors_turned();
    lemma_turned_and(DARK_SQUARES, LIGHT_SQUARES, bishops_a, bishops_b);
    lemma_turned_and(LIGHT_SQUARES, DARK_SQUARES, bishops_a, bishops_b);
    lemma_turned_empty(DARK_SQUARES & bishops_a, LIGHT_SQUARES & bishops_b);
    lemma_turned_empty(LIGHT_SQUARES & bishops_a, DARK_SQUARES & bishops_b);
    lemma_turned_empty(bishops_a, bishops_b);
    lemma_turned_empty(knights_a, knights_b);
    lemma_turned_count(knights_a, knights_b);
    lemma_turned_empty(pawns_of(a, side), pawns_of(b, side.other()));
}

/// The complement of a turned board is the turned complement.
pub proof fn lemma_turned_not(a: u64, b: u64)
    requires
        turned(a, b),
    ensures
        turned(!a, !b),
{
    assert forall|s: int| 0 <= s < 64 implies #[trigger] is_set(!b, s) == is_set(!a, flip_rank(s)) by {
        lemma_is_set_not(b, s);
        lemma_is_set_not(a, flip_rank(s));
    }
}

/// Whether what a piece attacks from `s` is, turned top to bottom, what a
/// piece of the other color attacks from the turned square.
pub open spec fn attack_mirrors_at(kind: Piece, color: Color, s: int) -> bool {
    turned(piece_attacks(kind, color, s), piece_attacks(kind, color.other(), flip_rank(s)))
}

/// Whether what a king attacks from `s` is, turned top to bottom, what a
/// king attacks from the turned square.
pub open spec fn king_mirrors_at(s: int) -> bool {
    turned(king_table(s), king_table(flip_rank(s)))
}

/// Whether the attack tables look the same from both sides of the board.
pub open spec fn attacks_mirror() -> bool {
    &&& forall|kind: Piece, color: Color, s: int|
        0 <= s < 64 ==> #[trigger] attack_mirrors_at(kind, color, s)
    &&& forall|s: int| 0 <= s < 64 ==> #[trigger] king_mirrors_at(s)
}

/// A square is attacked from the squares below `n` exactly if a piece on
/// one of them attacks it.
pub proof fn lemma_attacks_member(bb: u64, kind: Piece, color: Color, n: int, t: int)
    requires
        0 <= n <= 64,
    ensures
        is_set(attacks_below(bb, kind, color, n), t) == (exists|s: int|
            0 <= s < n && is_set(bb, s) && #[trigger] is_set(piece_attacks(kind, color, s), t)),
    decreases n,
{
    if n == 0 {
        lemma_zero_has_none(t);
    } else {
        lemma_attacks_member(bb, kind, color, n - 1, t);
        let rest = attacks_below(bb, kind, color, n - 1);
        if is_set(bb, n - 1) {
            lemma_is_set_or(rest, piece_attacks(kind, color, n - 1), t);
        }
        if is_set(attacks_below(bb, kind, color, n), t) {
            if is_set(rest, t) {
                let s = choose|s: int|
                    0 <= s < n - 1 && is_set(bb, s) && #[trigger] is_set(
                        piece_attacks(kind, color, s),
                        t,
                    );
                assert(0 <= s < n && is_set(bb, s) && is_set(piece_attacks(kind, color, s), t));
            } else {
                assert(is_set(bb, n - 1) && is_set(piece_attacks(kind, color, n - 1), t));
            }
        }
        if exists|s: int|
            0 <= s < n && is_set(bb, s) && #[trigger] is_set(piece_attacks(kind, color, s), t) {
            let s = choose|s: int|
                0 <= s < n && is_set(bb, s) && #[trigger] is_set(piece_attacks(kind, color, s), t);
            if s < n - 1 {
                assert(0 <= s < n - 1 && is_set(bb, s) && is_set(
                    piece_attacks(kind, color, s),
                    t,
                ));
            }
        }
    }
}

/// What the pieces of one kind attack is, on the turned board, what the
/// pieces of that kind and the other color attack.
pub proof fn lemma_turned_attacks(a: u64, b: u64, kind: Piece, color: Color)
    requires
        turned(a, b),
    ensures
        turned(attacks_below(a, kind, color.other(), 64), attacks_below(b, kind, color, 64)),
{
    lemma_attacks_mirror();
    let all_a = attacks_below(a, kind, color.other(), 64);
    let all_b = attacks_below(b, kind, color, 64);
    assert forall|t: int| 0 <= t < 64 implies #[trigger] is_set(all_b, t) == is_set(
        all_a,
        flip_rank(t),
    ) by {
        let u = flip_rank(t);
        lemma_flip_twice(t);
        lemma_attacks_member(b, kind, color, 64, t);
        lemma_attacks_member(a, kind, color.other(), 64, u);
        if is_set(all_b, t) {
            let s = choose|s: int|
                0 <= s < 64 && is_set(b, s) && #[trigger] is_set(piece_attacks(kind, color, s), t);
            let r = flip_rank(s);
            lemma_flip_twice(s);
            assert(is_set(b, s) == is_set(a, r));
            assert(attack_mirrors_at(kind, color, s));
            lemma_turned_back(piece_attacks(kind, color, s), piece_attacks(kind, color.other(), r));
            assert(is_set(piece_attacks(kind, color, s), t) == is_set(
                piece_attacks(kind, color.other(), r),
                flip_rank(t),
            ));
            assert(0 <= r < 64 && is_set(a, r) && is_set(piece_attacks(kind, color.other(), r), u));
        }
        if is_set(all_a, u) {
            let r = choose|r: int|
                0 <= r < 64 && is_set(a, r) && #[trigger] is_set(
                    piece_attacks(kind, color.other(), r),
                    u,
                );
            let s = flip_rank(r);
            lemma_flip_twice(r);
            assert(is_set(b, s) == is_set(a, flip_rank(s)));
            assert(attack_mirrors_at(kind, color.other(), r));
            assert(is_set(piece_attacks(kind, color, s), t) == is_set(
                piece_attacks(kind, color.other(), r),
                flip_rank(t),
            ));
            assert(0 <= s < 64 && is_set(b, s) && is_set(piece_attacks(kind, color, s), t));
        }
    }
}

/// What one side attacks on the mirrored board is, turned, what the other
/// side attacks on the board.
pub proof fn lemma_mirror_attacked(a: Position, b: Position, color: Color)
    requires
        is_mirror_of(a, b),
    ensures
        turned(attacked_by(a, color.other()), attacked_by(b, color)),
        turned(pawn_attacked_by(a, color.other()), pawn_attacked_by(b, color)),
{
    lemma_attacks_mirror();
    let other = a.color_mask(color.other());
    let own = b.color_mask(color);
    lemma_mirror_kind(a, b, 0, color);
    lemma_mirror_kind(a, b, 1, color);
    lemma_mirror_kind(a, b, 2, color);
    lemma_mirror_kind(a, b, 3, color);
    lemma_mirror_kind(a, b, 4, color);
    lemma_turned_attacks(a.pieces@[0] & other, b.pieces@[0] & own, Piece::Pawn, color);
    lemma_turned_attacks(a.pieces@[1] & other, b.pieces@[1] & own, Piece::Knight, color);
    lemma_turned_attacks(a.pieces@[2] & other, b.pieces@[2] & own, Piece::Bishop, color);
    lemma_turned_attacks(a.pieces@[3] & other, b.pieces@[3] & own, Piece::Rook, color);
    lemma_turned_attacks(a.pieces@[4] & other, b.pieces@[4] & own, Piece::Queen, color);
    let c = color.other();
    let p_a = attacks_below(a.pieces@[0] & other, Piece::Pawn, c, 64);
    let n_a = attacks_below(a.pieces@[1] & other, Piece::Knight, c, 64);
    let b_a = attacks_below(a.pieces@[2] & other, Piece::Bishop, c, 64);
    let r_a = attacks_below(a.pieces@[3] & other, Piece::Rook, c, 64);
    let q_a = attacks_below(a.pieces@[4] & other, Piece::Queen, c, 64);
    let p_b = attacks_below(b.pieces@[0] & own, Piece::Pawn, color, 64);
    let n_b = attacks_below(b.pieces@[1] & own, Piece::Knight, color, 64);
    let b_b = attacks_below(b.pieces@[2] & own, Piece::Bishop, color, 64);
    let r_b = attacks_below(b.pieces@[3] & own, Piece::Rook, color, 64);
    let q_b = attacks_below(b.pieces@[4] & own, Piece::Queen, color, 64);
    lemma_turned_or(p_a, p_b, n_a, n_b);
    lemma_turned_or(p_a | n_a, p_b | n_b, b_a, b_b);
    lemma_turned_or(p_a | n_a | b_a, p_b | n_b | b_b, r_a, r_b);
    lemma_turned_or(p_a | n_a | b_a | r_a, p_b | n_b | b_b | r_b, q_a, q_b);
}

/// Safe pawns threaten on the mirrored board the turned pieces that the
/// other side's safe pawns threaten on the board.
pub proof fn lemma_mirror_threats(a: Position, b: Position, color: Color)
    requires
        is_mirror_of(a, b),
    ensures
        turned(safe_pawn_threats(a, color.other()), safe_pawn_threats(b, color)),
{
    lemma_attacks_mirror();
    let enemy = color.other();
    lemma_mirror_attacked(a, b, color);
    lemma_mirror_attacked(a, b, enemy);
    lemma_mirror_kind(a, b, 0, color);
    lemma_mirror_kind(a, b, 0, enemy);
    let att_own_a = attacked_by(a, enemy);
    let att_own_b = attacked_by(b, color);
    let att_opp_a = attacked_by(a, color);
    let att_opp_b = attacked_by(b, enemy);
    lemma_turned_not(att_opp_a, att_opp_b);
    lemma_turned_or(!att_opp_a, !att_opp_b, att_own_a, att_own_b);
    let safe_a = !att_opp_a | att_own_a;
    let safe_b = !att_opp_b | att_own_b;
    lemma_turned_and(pawns_of(a, enemy), pawns_of(b, color), safe_a, safe_b);
    let safe_pawns_a = pawns_of(a, enemy) & safe_a;
    let safe_pawns_b = pawns_of(b, color) & safe_b;
    lemma_turned_attacks(safe_pawns_a, safe_pawns_b, Piece::Pawn, color);
    lemma_turned_not(pawns_of(a, color), pawns_of(b, enemy));
    lemma_turned_and(
        a.color_mask(color),
        b.color_mask(enemy),
        !pawns_of(a, color),
        !pawns_of(b, enemy),
    );
    lemma_turned_and(
        attacks_below(safe_pawns_a, Piece::Pawn, enemy, 64),
        attacks_below(safe_pawns_b, Piece::Pawn, color, 64),
        a.color_mask(color) & !pawns_of(a, color),
        b.color_mask(enemy) & !pawns_of(b, enemy),
    );
}

/// The squares restricted for one side on the mirrored board are the
/// turned squares restricted for the other side on the board.
pub proof fn lemma_mirror_restricted(a: Position, b: Position, color: Color)
    requires
        is_mirror_of(a, b),
    ensures
        turned(restricted_for(a, color.other()), restricted_for(b, color)),
{
    lemma_attacks_mirror();
    let enemy = color.other();
    lemma_mirror_attacked(a, b, Color::White);
    lemma_mirror_attacked(a, b, Color::Black);
    let aw = attacked_by(a, Color::White);
    let ab = attacked_by(a, Color::Black);
    let bw = attacked_by(b, Color::White);
    let bk = attacked_by(b, Color::Black);
    lemma_turned_and(aw, bk, ab, bw);
    assert(aw & ab == ab & aw) by (bit_vector);
    // what the enemy of `color` holds firmly on the mirrored board
    let held_b = protected_by(b, enemy);
    let held_a = protected_by(a, color);
    lemma_turned_not(attacked_by(a, enemy), attacked_by(b, color));
    lemma_turned_and(
        attacked_by(a, color),
        attacked_by(b, enemy),
        !attacked_by(a, enemy),
        !attacked_by(b, color),
    );
    lemma_turned_or(
        pawn_attacked_by(a, color),
        pawn_attacked_by(b, enemy),
        attacked_by(a, color) & !attacked_by(a, enemy),
        attacked_by(b, enemy) & !attacked_by(b, color),
    );
    assert(turned(held_a, held_b));
    lemma_turned_and(ab & aw, bk & bw, held_a, held_b);
}

/// Whether each side has one king.
pub open spec fn one_king_each(a: Position) -> bool {
    forall|c: Color|
        0 <= #[trigger] a.king_square(c) < 64 && forall|s: int|
            is_set(a.king_mask(c), s) ==> s == a.king_square(c)
}

/// The king of one side stands, on the mirrored board, on the turned
/// square of the other side's king.
pub proof fn lemma_mirror_king(a: Position, b: Position, color: Color)
    requires
        is_mirror_of(a, b),
        one_king_each(a),
    ensures
        b.king_square(color) == flip_rank(a.king_square(color.other())),
{
    let enemy = color.other();
    let k = a.king_square(enemy);
    let turned_k = flip_rank(k);
    lemma_flip_twice(k);
    lemma_mirror_kind(a, b, 5, color);
    let mask_a = a.king_mask(enemy);
    let mask_b = b.king_mask(color);
    assert(turned(mask_a, mask_b));
    lemma_lowest_from(mask_a, 0);
    assert(is_set(mask_a, k));
    assert(is_set(mask_b, turned_k) == is_set(mask_a, flip_rank(turned_k)));
    lemma_lowest_from(mask_b, 0);
    let low = b.king_square(color);
    if low < 64 {
        assert(is_set(mask_b, low) == is_set(mask_a, flip_rank(low)));
        lemma_flip_twice(low);
        assert(flip_rank(low) == k);
    }
}

/// The pieces that threaten one king on the mirrored board are the turned
/// pieces that threaten the other king on the board.
pub proof fn lemma_mirror_king_threats(a: Position, b: Position, color: Color)
    requires
        is_mirror_of(a, b),
        one_king_each(a),
    ensures
        turned(king_threats(a, color.other()), king_threats(b, color)),
{
    lemma_attacks_mirror();
    let enemy = color.other();
    lemma_mirror_king(a, b, color);
    let k = a.king_square(enemy);
    assert(king_mirrors_at(k));
    lemma_mirror_attacked(a, b, enemy);
    lemma_mirror_kind(a, b, 0, enemy);
    lemma_turned_not(attacked_by(a, color), attacked_by(b, enemy));
    lemma_turned_and(king_table(k), king_table(flip_rank(k)), a.color_mask(color), b.color_mask(enemy));
    lemma_turned_and(
        king_table(k) & a.color_mask(color),
        king_table(flip_rank(k)) & b.color_mask(enemy),
        !attacked_by(a, color),
        !attacked_by(b, enemy),
    );
}

/// What a knight attacks from a square is, turned top to bottom, what a
/// knight attacks from the turned square.
pub proof fn lemma_knight_mirrors(s: int)
    requires
        0 <= s < 64,
    ensures
        turned(knight_table(s), knight_table(flip_rank(s))),
{
    let u = flip_rank(s);
    lemma_flip_twice(s);
    assert forall|t: int| 0 <= t < 64 implies #[trigger] is_set(knight_table(u), t) == is_set(
        knight_table(s),
        flip_rank(t),
    ) by {
        lemma_flip_twice(t);
        lemma_squares_where(|x: int| knight_reach(u, x), 64, t);
        lemma_squares_where(|x: int| knight_reach(s, x), 64, flip_rank(t));
        lemma_steps_turned(s, t);
    }
}

/// What a king attacks from a square is, turned top to bottom, what a king
/// attacks from the turned square.
pub proof fn lemma_king_mirrors(s: int)
    requires
        0 <= s < 64,
    ensures
        turned(king_table(s), king_table(flip_rank(s))),
{
    let u = flip_rank(s);
    lemma_flip_twice(s);
    assert forall|t: int| 0 <= t < 64 implies #[trigger] is_set(king_table(u), t) == is_set(
        king_table(s),
        flip_rank(t),
    ) by {
        lemma_flip_twice(t);
        lemma_squares_where(|x: int| king_reach(u, x), 64, t);
        lemma_squares_where(|x: int| king_reach(s, x), 64, flip_rank(t));
        lemma_steps_turned(s, t);
    }
}

/// What a pawn attacks from a square is, turned top to bottom, what a pawn
/// of the other color attacks from the turned square.
pub proof fn lemma_pawn_mirrors(s: int, color: Color)
    requires
        0 <= s < 64,
    ensures
        turned(pawn_table(s, color.idx()), pawn_table(flip_rank(s), color.other().idx())),
{
    let u = flip_rank(s);
    lemma_flip_twice(s);
    assert forall|t: int| 0 <= t < 64 implies #[trigger] is_set(
        pawn_table(u, color.other().idx()),
        t,
    ) == is_set(pawn_table(s, color.idx()), flip_rank(t)) by {
        lemma_flip_twice(t);
        lemma_squares_where(|x: int| pawn_reach(u, color.other().idx(), x), 64, t);
        lemma_squares_where(|x: int| pawn_reach(s, color.idx(), x), 64, flip_rank(t));
        lemma_steps_turned(s, t);
    }
}

/// From a turned square to a square it is as many files, and as many
/// ranks the other way, as from the square to the turned square.
pub proof fn lemma_steps_turned(s: int, t: int)
    requires
        0 <= s < 64,
        0 <= t < 64,
    ensures
        t / 8 - flip_rank(s) / 8 == -(flip_rank(t) / 8 - s / 8),
        t % 8 - flip_rank(s) % 8 == flip_rank(t) % 8 - s % 8,
        (flip_rank(s) == t) == (s == flip_rank(t)),
{
    lemma_flip_twice(s);
    lemma_flip_twice(t);
}

/// On an empty board a rook reaches every other square of its rank and
/// of its file, and a bishop every other square of its diagonals.
pub proof fn lemma_reach_on_empty_board(sq: int, t: int)
    ensures
        rook_reach(sq, 0, t) == (0 <= sq < 64 && 0 <= t < 64 && sq != t && (t / 8 == sq / 8 || t
            % 8 == sq % 8)),
        bishop_reach(sq, 0, t) == (0 <= sq < 64 && 0 <= t < 64 && sq != t && (t / 8 - sq / 8 == t
            % 8 - sq % 8 || t / 8 - sq / 8 == -(t % 8 - sq % 8))),
{
    assert forall|u: int| !#[trigger] is_set(0u64, u) by {
        lemma_zero_has_none(u);
    }
}

/// What a rook and what a bishop reach from a square on an empty board
/// is, turned top to bottom, what they reach from the turned square.
pub proof fn lemma_rays_mirror(s: int)
    requires
        0 <= s < 64,
    ensures
        turned(rook_table(s, 0), rook_table(flip_rank(s), 0)),
        turned(bishop_table(s, 0), bishop_table(flip_rank(s), 0)),
{
    let u = flip_rank(s);
    lemma_flip_twice(s);
    assert forall|t: int| 0 <= t < 64 implies #[trigger] is_set(rook_table(u, 0), t) == is_set(
        rook_table(s, 0),
        flip_rank(t),
    ) by {
        lemma_flip_twice(t);
        lemma_squares_where(|x: int| rook_reach(u, 0, x), 64, t);
        lemma_squares_where(|x: int| rook_reach(s, 0, x), 64, flip_rank(t));
        lemma_reach_on_empty_board(u, t);
        lemma_reach_on_empty_board(s, flip_rank(t));
        lemma_steps_turned(s, t);
    }
    assert forall|t: int| 0 <= t < 64 implies #[trigger] is_set(bishop_table(u, 0), t) == is_set(
        bishop_table(s, 0),
        flip_rank(t),
    ) by {
        lemma_flip_twice(t);
        lemma_squares_where(|x: int| bishop_reach(u, 0, x), 64, t);
        lemma_squares_where(|x: int| bishop_reach(s, 0, x), 64, flip_rank(t));
        lemma_reach_on_empty_board(u, t);
        lemma_reach_on_empty_board(s, flip_rank(t));
        lemma_steps_turned(s, t);
    }
}

/// Every attack table looks the same from both sides of the board.
pub proof fn lemma_attacks_mirror()
    ensures
        attacks_mirror(),
{
    assert forall|kind: Piece, color: Color, s: int| 0 <= s < 64 implies #[trigger] attack_mirrors_at(
        kind,
        color,
        s,
    ) by {
        let u = flip_rank(s);
        lemma_rays_mirror(s);
        match kind {
            Piece::Pawn => {
                lemma_pawn_mirrors(s, color);
            },
            Piece::Knight => {
                lemma_knight_mirrors(s);
            },
            Piece::Bishop => {},
            Piece::Rook => {},
            Piece::Queen => {
                lemma_turned_or(
                    bishop_table(s, 0),
                    bishop_table(u, 0),
                    rook_table(s, 0),
                    rook_table(u, 0),
                );
            },
            Piece::King => {
                assert forall|t: int| 0 <= t < 64 implies #[trigger] is_set(0u64, t) == is_set(
                    0u64,
                    flip_rank(t),
                ) by {
                    lemma_zero_has_none(t);
                    lemma_zero_has_none(flip_rank(t));
                }
            },
        }
    }
    assert forall|s: int| 0 <= s < 64 implies #[trigger] king_mirrors_at(s) by {
        lemma_king_mirrors(s);
    }
}

/// A position and its mirror image, with the colors exchanged and the
/// board turned top to bottom but the same side to move, are evaluated to
/// opposite numbers, the tempo aside, where each side has one king. Where
/// one side cannot mate, no tempo is counted, and the evaluations are
/// opposite numbers.
pub proof fn lemma_evaluation_mirrors(params: EvalParams, a: Position, b: Position)
    requires
        is_mirror_of(a, b),
        one_king_each(a),
    ensures
        match outcome_of(a) {
            OutcomeState::Draw | OutcomeState::Unknown => evaluation_of(params, b) - tempo_of(
                params,
                a,
            ) == -(evaluation_of(params, a) - tempo_of(params, a)),
            OutcomeState::LikelyWin | OutcomeState::LikelyLoss => evaluation_of(params, b)
                == -evaluation_of(params, a),
        },
{
    lemma_attacks_mirror();
    assert forall|c: Color|
        popcount(#[trigger] safe_pawn_threats(b, c)) == popcount(
            safe_pawn_threats(a, c.other()),
        ) by {
        lemma_mirror_threats(a, b, c);
        lemma_turned_count(safe_pawn_threats(a, c.other()), safe_pawn_threats(b, c));
    }
    assert forall|c: Color|
        popcount(#[trigger] restricted_for(b, c)) == popcount(restricted_for(a, c.other())) by {
        lemma_mirror_restricted(a, b, c);
        lemma_turned_count(restricted_for(a, c.other()), restricted_for(b, c));
    }
    assert forall|c: Color|
        popcount(#[trigger] king_threats(b, c)) == popcount(king_threats(a, c.other())) by {
        lemma_mirror_king_threats(a, b, c);
        lemma_turned_count(king_threats(a, c.other()), king_threats(b, c));
    }
    lemma_mirror_negates(params, a, b);
}

/// A position and its mirror image, with the colors exchanged and the
/// board turned top to bottom but the same side to move, are evaluated to
/// opposite numbers, the tempo aside, as long as the threats by safe
/// pawns, the restricted squares and the threats next to the kings are
/// counted for each side of the mirror image as for the other side of the
/// position. Where one side cannot mate, no tempo is counted, and the
/// evaluations are opposite numbers.
pub proof fn lemma_mirror_negates(params: EvalParams, a: Position, b: Position)
    requires
        is_mirror_of(a, b),
        forall|c: Color|
            popcount(#[trigger] safe_pawn_threats(b, c)) == popcount(
                safe_pawn_threats(a, c.other()),
            ),
        forall|c: Color|
            popcount(#[trigger] restricted_for(b, c)) == popcount(restricted_for(a, c.other())),
        forall|c: Color|
            popcount(#[trigger] king_threats(b, c)) == popcount(king_threats(a, c.other())),
    ensures
        match outcome_of(a) {
            OutcomeState::Draw | OutcomeState::Unknown => evaluation_of(params, b) - tempo_of(
                params,
                a,
            ) == -(evaluation_of(params, a) - tempo_of(params, a)),
            OutcomeState::LikelyWin | OutcomeState::LikelyLoss => evaluation_of(params, b)
                == -evaluation_of(params, a),
        },
{
    lemma_mirror_psqt(params, a, b, Color::White);
    lemma_mirror_psqt(params, a, b, Color::Black);
    lemma_mirror_pawns(params, a, b);
    lemma_mirror_phase(a, b);
    lemma_mirror_material(a, b, Color::White);
    lemma_mirror_material(a, b, Color::Black);
    let threats = popcount(safe_pawn_threats(a, Color::White)) - popcount(
        safe_pawn_threats(a, Color::Black),
    );
    let restriction = popcount(restricted_for(a, Color::White)) - popcount(
        restricted_for(a, Color::Black),
    );
    let king = popcount(king_threats(a, Color::White)) - popcount(king_threats(a, Color::Black));
    assert(popcount(safe_pawn_threats(b, Color::White)) == popcount(
        safe_pawn_threats(a, Color::Black),
    ));
    assert(popcount(safe_pawn_threats(b, Color::Black)) == popcount(
        safe_pawn_threats(a, Color::White),
    ));
    assert(popcount(restricted_for(b, Color::White)) == popcount(restricted_for(a, Color::Black)));
    assert(popcount(restricted_for(b, Color::Black)) == popcount(restricted_for(a, Color::White)));
    assert(popcount(king_threats(b, Color::White)) == popcount(king_threats(a, Color::Black)));
    assert(popcount(king_threats(b, Color::Black)) == popcount(king_threats(a, Color::White)));
    lemma_times_negates(params.threat_by_safe_pawn@, threats);
    lemma_times_negates(params.restricted@, restriction);
    lemma_times_negates(params.threat_by_king@, king);
    assert(white_score(params, b) == white_score(params, a).negated());
    lemma_mirrored_scores_negate(params, a, b);
}

} // verus!
