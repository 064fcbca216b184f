use vstd::prelude::*;
use crate::board::{Color, Move, Piece, Position};
use crate::cozy_board::{cozy_after, cozy_position};
use crate::layers::{lemma_wrap16_add, wrap16, BitLinear};
use crate::eval_laws::{lemma_flip_twice, lemma_sum_flipped, sum_below};
use crate::model::{Nnue, INPUT, MID};
use crate::nnue::flip_rank;
use crate::nnue::{activations, forward_of};
use crate::nnue::{
    changes_sum, contribution, en_passant_victim, feature_sum, move_changes, refreshed,
    Accumulator, FeatureChange, NnueState,
};

verus! {

/// Whether `after` holds what a move of a piece other than the king leaves
/// of `pos`: the piece of the side to move has left its square and stands,
/// as itself or as what it was promoted to, on the destination, which did
/// not hold a piece of its own side; a pawn taken en passant is gone; every
/// other square is as it was, and so are the squares of the kings.
pub open spec fn is_result_of(pos: Position, mv: Move, after: Position) -> bool {
    let stm = pos.side_to_move;
    let from = mv.from as int;
    let to = mv.to as int;
    let victim = en_passant_victim(pos, mv);
    &&& mv.wf()
    &&& pos.wf()
    &&& from != to
    &&& pos.kind_at(from) is Some
    &&& pos.kind_at(from) != Some(Piece::King)
    &&& pos.color_at(from) == Some(stm)
    &&& pos.color_at(to) != Some(stm)
    &&& (victim matches Some(v) ==> v != from && pos.content(v as int) == Some(
        (Piece::Pawn, stm.other()),
    ))
    &&& after.king_square(Color::White) == pos.king_square(Color::White)
    &&& after.king_square(Color::Black) == pos.king_square(Color::Black)
    &&& forall|s: int|
        0 <= s < 64 ==> #[trigger] after.content(s) == if s == from {
            None
        } else if s == to {
            Some(
                (
                    match mv.promotion {
                        Some(piece) => piece,
                        None => pos.kind_at(from).unwrap(),
                    },
                    stm,
                ),
            )
        } else if victim == Some(s as u8) {
            None
        } else {
            pos.content(s)
        }
}

/// Whether two squares hold the same.
fn same_content(a: Option<(Piece, Color)>, b: Option<(Piece, Color)>) -> (r: bool)
    ensures
        r == (a == b),
{
    match (a, b) {
        (None, None) => true,
        (Some((piece, color)), Some((other_piece, other_color))) => piece == other_piece && color
            == other_color,
        _ => false,
    }
}

/// Whether `after` holds what the move `mv` of a piece other than the king
/// leaves of `pos`, found out square by square.
pub fn holds_result_of(pos: &Position, mv: Move, after: &Position) -> (r: bool)
    ensures
        r == is_result_of(*pos, mv, *after),
{
    if !mv.is_wf() || mv.from == mv.to {
        return false;
    }
    let stm: Color = pos.side_to_move;
    let file: Option<u8> = match pos.en_passant {
        Some(f) => {
            if f >= 8 {
                return false;
            }
            Some(f)
        },
        None => None,
    };
    let from_type: Piece = match pos.piece_on(mv.from) {
        Some(piece) => piece,
        None => {
            return false;
        },
    };
    if from_type == Piece::King {
        return false;
    }
    if !same_content(pos.piece_and_color_on(mv.from), Some((from_type, stm))) {
        return false;
    }
    match pos.color_on(mv.to) {
        Some(color) => {
            if color == stm {
                return false;
            }
        },
        None => {},
    }
    let victim: Option<u8> = match file {
        Some(f) => {
            let (fifth, sixth): (u8, u8) = match stm {
                Color::White => (4, 5),
                Color::Black => (3, 2),
            };
            if from_type == Piece::Pawn && mv.to == sixth * 8 + f {
                Some(fifth * 8 + f)
            } else {
                None
            }
        },
        None => None,
    };
    assert(victim == en_passant_victim(*pos, mv));
    match victim {
        Some(v) => {
            if v == mv.from || !same_content(
                pos.piece_and_color_on(v),
                Some((Piece::Pawn, stm.flip())),
            ) {
                return false;
            }
        },
        None => {},
    }
    if after.king(Color::White) != pos.king(Color::White) || after.king(Color::Black) != pos.king(
        Color::Black,
    ) {
        return false;
    }
    let dropped: Piece = match mv.promotion {
        Some(piece) => piece,
        None => from_type,
    };
    let mut s: u8 = 0;
    while s < 64
        invariant
            s <= 64,
            mv.wf(),
            stm == pos.side_to_move,
            victim == en_passant_victim(*pos, mv),
            pos.kind_at(mv.from as int) == Some(from_type),
            dropped == match mv.promotion {
                Some(piece) => piece,
                None => from_type,
            },
            forall|x: int|
                0 <= x < s ==> #[trigger] after.content(x) == if x == mv.from {
                    None
                } else if x == mv.to {
                    Some((dropped, stm))
                } else if victim == Some(x as u8) {
                    None
                } else {
                    pos.content(x)
                },
        decreases 64 - s,
    {
        let expected: Option<(Piece, Color)> = if s == mv.from {
            None
        } else if s == mv.to {
            Some((dropped, stm))
        } else if victim == Some(s) {
            None
        } else {
            pos.piece_and_color_on(s)
        };
        if !same_content(after.piece_and_color_on(s), expected) {
            assert(!(after.content(s as int) == if s == mv.from {
                None
            } else if s == mv.to {
                Some((dropped, stm))
            } else if victim == Some(s) {
                None
            } else {
                pos.content(s as int)
            }));
            return false;
        }
        s += 1;
    }
    true
}

/// What two positions' sums differ by on the squares below `n`, where they
/// differ on the squares `d1`, `d2` and `d3` at most.
pub open spec fn difference_below(
    ft: BitLinear<INPUT, MID>,
    a: Position,
    b: Position,
    p: Color,
    j: int,
    d1: int,
    d2: int,
    d3: int,
    n: int,
) -> int {
    (if 0 <= d1 < n {
        contribution(ft, b, p, j, d1) - contribution(ft, a, p, j, d1)
    } else {
        0
    }) + (if 0 <= d2 < n {
        contribution(ft, b, p, j, d2) - contribution(ft, a, p, j, d2)
    } else {
        0
    }) + (if 0 <= d3 < n {
        contribution(ft, b, p, j, d3) - contribution(ft, a, p, j, d3)
    } else {
        0
    })
}

/// Two positions whose squares feed the same into an output, but for three
/// squares at most, have sums that differ by what those squares feed.
pub proof fn lemma_sum_differs(
    ft: BitLinear<INPUT, MID>,
    a: Position,
    b: Position,
    p: Color,
    j: int,
    d1: int,
    d2: int,
    d3: int,
    n: int,
)
    requires
        0 <= n <= 64,
        d1 != d2,
        d1 != d3,
        d2 != d3,
        forall|s: int|
            0 <= s < 64 && s != d1 && s != d2 && s != d3 ==> #[trigger] contribution(ft, b, p, j, s)
                == contribution(ft, a, p, j, s),
    ensures
        feature_sum(ft, b, p, j, n) - feature_sum(ft, a, p, j, n) == difference_below(
            ft,
            a,
            b,
            p,
            j,
            d1,
            d2,
            d3,
            n,
        ),
    decreases n,
{
    if n > 0 {
        lemma_sum_differs(ft, a, b, p, j, d1, d2, d3, n - 1);
        let s = n - 1;
        if s != d1 && s != d2 && s != d3 {
            assert(contribution(ft, b, p, j, s) == contribution(ft, a, p, j, s));
        }
    }
}

/// The changes of two lists one after the other add what each list adds.
pub proof fn lemma_changes_sum_concat(
    a: Seq<FeatureChange>,
    b: Seq<FeatureChange>,
    ft: BitLinear<INPUT, MID>,
    p: Color,
    king: int,
    j: int,
    n: int,
)
    requires
        0 <= n <= b.len(),
    ensures
        changes_sum(a + b, ft, p, king, j, a.len() + n) == changes_sum(
            a,
            ft,
            p,
            king,
            j,
            a.len() as int,
        ) + changes_sum(b, ft, p, king, j, n),
    decreases n,
{
    if n > 0 {
        lemma_changes_sum_concat(a, b, ft, p, king, j, n - 1);
        assert((a + b)[a.len() + n - 1] == b[n - 1]);
    } else {
        lemma_changes_sum_prefix(a, a + b, ft, p, king, j, a.len() as int);
    }
}

/// What the first `n` changes add depends on those changes alone.
pub proof fn lemma_changes_sum_prefix(
    a: Seq<FeatureChange>,
    b: Seq<FeatureChange>,
    ft: BitLinear<INPUT, MID>,
    p: Color,
    king: int,
    j: int,
    n: int,
)
    requires
        0 <= n <= a.len(),
        n <= b.len(),
        forall|i: int| 0 <= i < n ==> a[i] == b[i],
    ensures
        changes_sum(a, ft, p, king, j, n) == changes_sum(b, ft, p, king, j, n),
    decreases n,
{
    if n > 0 {
        lemma_changes_sum_prefix(a, b, ft, p, king, j, n - 1);
    }
}

/// What a list of no change or of one change adds.
pub proof fn lemma_changes_sum_small(
    a: Seq<FeatureChange>,
    ft: BitLinear<INPUT, MID>,
    p: Color,
    king: int,
    j: int,
)
    requires
        a.len() <= 1,
    ensures
        changes_sum(a, ft, p, king, j, a.len() as int) == if a.len() == 1 {
            a[0].term(ft, p, king, j)
        } else {
            0
        },
{
    if a.len() == 1 {
        assert(changes_sum(a, ft, p, king, j, 0) == 0);
    }
}

/// Following a move change by change gives what a recomputation from the
/// board after the move gives: an accumulator that is in step with a
/// position before a move of a piece other than the king, and that follows
/// the move's changes, is in step with the position after the move.
pub proof fn lemma_incremental_is_refresh(
    ft: BitLinear<INPUT, MID>,
    pos: Position,
    mv: Move,
    after: Position,
    acc_before: Accumulator,
    acc_after: Accumulator,
)
    requires
        is_result_of(pos, mv, after),
        acc_before.is_refresh_of(ft, pos),
        acc_after.is_update_of(
            acc_before,
            ft,
            pos.king_square(Color::White),
            pos.king_square(Color::Black),
            move_changes(pos, mv),
            move_changes(pos, mv).len() as int,
        ),
    ensures
        acc_after.is_refresh_of(ft, after),
{
    assert forall|p: Color, j: int| 0 <= j < MID implies #[trigger] acc_after.at(p, j) == refreshed(
        ft,
        after,
        p,
        j,
    ) by {
        lemma_move_adds_difference(ft, pos, mv, after, p, j);
        let king = pos.king_square(p);
        let changes = move_changes(pos, mv);
        let added = changes_sum(changes, ft, p, king, j, changes.len() as int);
        assert(king == if p == Color::White {
            pos.king_square(Color::White)
        } else {
            pos.king_square(Color::Black)
        });
        assert(acc_after.at(p, j) == wrap16(acc_before.at(p, j) + added));
        assert(acc_before.at(p, j) == refreshed(ft, pos, p, j));
        lemma_wrap16_add(ft.biases@[j] + feature_sum(ft, pos, p, j, 64), added);
    }
}

/// The weight that a piece of `color` and kind `piece` on `sq` feeds into
/// output `j` of perspective `p`, whose king stands on `king`.
pub open spec fn weight_of(
    ft: BitLinear<INPUT, MID>,
    p: Color,
    king: int,
    j: int,
    color: Color,
    piece: Piece,
    sq: int,
) -> int {
    ft.weights@[crate::nnue::feature_index(p, king, color, piece, sq)]@[j] as int
}

/// What the piece that leaves its square takes away.
pub open spec fn lifted_term(
    ft: BitLinear<INPUT, MID>,
    pos: Position,
    mv: Move,
    p: Color,
    j: int,
) -> int {
    -weight_of(
        ft,
        p,
        pos.king_square(p),
        j,
        pos.side_to_move,
        pos.kind_at(mv.from as int).unwrap(),
        mv.from as int,
    )
}

/// What the piece that is taken on the destination takes away.
pub open spec fn captured_term(
    ft: BitLinear<INPUT, MID>,
    pos: Position,
    mv: Move,
    p: Color,
    j: int,
) -> int {
    match pos.content(mv.to as int) {
        Some((piece, color)) => -weight_of(ft, p, pos.king_square(p), j, color, piece, mv.to as int),
        None => 0,
    }
}

/// What the pawn that is taken en passant takes away.
pub open spec fn passed_term(
    ft: BitLinear<INPUT, MID>,
    pos: Position,
    mv: Move,
    p: Color,
    j: int,
) -> int {
    match en_passant_victim(pos, mv) {
        Some(sq) => -weight_of(
            ft,
            p,
            pos.king_square(p),
            j,
            pos.side_to_move.other(),
            Piece::Pawn,
            sq as int,
        ),
        None => 0,
    }
}

/// What the piece that appears on the destination adds.
pub open spec fn dropped_term(
    ft: BitLinear<INPUT, MID>,
    pos: Position,
    mv: Move,
    p: Color,
    j: int,
) -> int {
    weight_of(
        ft,
        p,
        pos.king_square(p),
        j,
        pos.side_to_move,
        match mv.promotion {
            Some(piece) => piece,
            None => pos.kind_at(mv.from as int).unwrap(),
        },
        mv.to as int,
    )
}

/// The changes of a move that does not end on a piece of the moving side
/// add up to what leaves the board and what appears on it.
pub proof fn lemma_changes_of_move(
    ft: BitLinear<INPUT, MID>,
    pos: Position,
    mv: Move,
    p: Color,
    j: int,
)
    requires
        pos.color_at(mv.to as int) != Some(pos.side_to_move),
    ensures
        changes_sum(
            move_changes(pos, mv),
            ft,
            p,
            pos.king_square(p),
            j,
            move_changes(pos, mv).len() as int,
        ) == lifted_term(ft, pos, mv, p, j) + captured_term(ft, pos, mv, p, j) + passed_term(
            ft,
            pos,
            mv,
            p,
            j,
        ) + dropped_term(ft, pos, mv, p, j),
{
    let stm = pos.side_to_move;
    let king = pos.king_square(p);
    let from_type = pos.kind_at(mv.from as int).unwrap();
    let lifted = seq![FeatureChange { incr: false, sq: mv.from, piece: from_type, color: stm }];
    let captured = match pos.content(mv.to as int) {
        Some((piece, color)) => seq![FeatureChange { incr: false, sq: mv.to, piece, color }],
        None => Seq::empty(),
    };
    let passed = match en_passant_victim(pos, mv) {
        Some(sq) => seq![
            FeatureChange { incr: false, sq, piece: Piece::Pawn, color: stm.other() },
        ],
        None => Seq::empty(),
    };
    let dropped = seq![
        FeatureChange {
            incr: true,
            sq: mv.to,
            piece: match mv.promotion {
                Some(piece) => piece,
                None => from_type,
            },
            color: stm,
        },
    ];
    let changes = move_changes(pos, mv);
    assert(changes == lifted + captured + passed + dropped);
    lemma_changes_sum_small(lifted, ft, p, king, j);
    lemma_changes_sum_small(captured, ft, p, king, j);
    lemma_changes_sum_small(passed, ft, p, king, j);
    lemma_changes_sum_small(dropped, ft, p, king, j);
    lemma_changes_sum_concat(lifted, captured, ft, p, king, j, captured.len() as int);
    lemma_changes_sum_concat(lifted + captured, passed, ft, p, king, j, passed.len() as int);
    lemma_changes_sum_concat(
        lifted + captured + passed,
        dropped,
        ft,
        p,
        king,
        j,
        dropped.len() as int,
    );
    assert(lifted[0].term(ft, p, king, j) == lifted_term(ft, pos, mv, p, j));
    assert(dropped[0].term(ft, p, king, j) == dropped_term(ft, pos, mv, p, j));
    if captured.len() == 1 {
        assert(captured[0].term(ft, p, king, j) == captured_term(ft, pos, mv, p, j));
    }
    if passed.len() == 1 {
        assert(passed[0].term(ft, p, king, j) == passed_term(ft, pos, mv, p, j));
    }
}

/// The sums over the board before and after a move differ by what leaves
/// the board and what appears on it.
pub proof fn lemma_board_difference(
    ft: BitLinear<INPUT, MID>,
    pos: Position,
    mv: Move,
    after: Position,
    p: Color,
    j: int,
)
    requires
        is_result_of(pos, mv, after),
    ensures
        feature_sum(ft, after, p, j, 64) - feature_sum(ft, pos, p, j, 64) == lifted_term(
            ft,
            pos,
            mv,
            p,
            j,
        ) + captured_term(ft, pos, mv, p, j) + passed_term(ft, pos, mv, p, j) + dropped_term(
            ft,
            pos,
            mv,
            p,
            j,
        ),
{
    let stm = pos.side_to_move;
    let from = mv.from as int;
    let to = mv.to as int;
    let king = pos.king_square(p);
    let from_type = pos.kind_at(from).unwrap();
    let victim = en_passant_victim(pos, mv);
    let v: int = match victim {
        Some(sq) => sq as int,
        None => -1,
    };
    assert(v != to && v != from);
    assert(after.king_square(p) == king);
    assert forall|s: int| 0 <= s < 64 && s != from && s != to && s != v implies #[trigger] contribution(
        ft,
        after,
        p,
        j,
        s,
    ) == contribution(ft, pos, p, j, s) by {
        assert(after.content(s) == pos.content(s));
    }
    lemma_sum_differs(ft, pos, after, p, j, from, to, v, 64);
    assert(after.content(from) == None::<(Piece, Color)>);
    assert(pos.content(from) == Some((from_type, stm)));
    assert(after.content(to) is Some);
    assert(contribution(ft, after, p, j, from) - contribution(ft, pos, p, j, from) == lifted_term(
        ft,
        pos,
        mv,
        p,
        j,
    ));
    assert(contribution(ft, after, p, j, to) == dropped_term(ft, pos, mv, p, j));
    assert(contribution(ft, pos, p, j, to) == -captured_term(ft, pos, mv, p, j));
    if victim is Some {
        assert(0 <= v < 64);
        assert(after.content(v) == None::<(Piece, Color)>);
        assert(pos.content(v) == Some((Piece::Pawn, stm.other())));
        assert(contribution(ft, after, p, j, v) - contribution(ft, pos, p, j, v) == passed_term(
            ft,
            pos,
            mv,
            p,
            j,
        ));
    }
}

/// What the changes of a move add to an output is what the sums over the
/// board differ by before and after the move.
pub proof fn lemma_move_adds_difference(
    ft: BitLinear<INPUT, MID>,
    pos: Position,
    mv: Move,
    after: Position,
    p: Color,
    j: int,
)
    requires
        is_result_of(pos, mv, after),
    ensures
        feature_sum(ft, after, p, j, 64) == feature_sum(ft, pos, p, j, 64) + changes_sum(
            move_changes(pos, mv),
            ft,
            p,
            pos.king_square(p),
            j,
            move_changes(pos, mv).len() as int,
        ),
{
    lemma_changes_of_move(ft, pos, mv, p, j);
    lemma_board_difference(ft, pos, mv, after, p, j);
}

/// Whether the accumulators of a state are in step with a line of play:
/// the line has one position per ply up to the current one, and the
/// accumulator of each ply holds what a recomputation from that ply's
/// position gives.
pub open spec fn in_step(state: NnueState, line: Seq<Position>) -> bool {
    &&& state.wf()
    &&& line.len() == state.head + 1
    &&& forall|k: int|
        0 <= k <= state.head ==> (#[trigger] state.accumulator@[k]).is_refresh_of(
            state.ft(),
            line[k],
        )
}

/// Two positions with the same pieces on the same squares and the same
/// king squares give the same accumulator.
pub proof fn lemma_refresh_reads_pieces(
    ft: BitLinear<INPUT, MID>,
    a: Position,
    b: Position,
    acc: Accumulator,
)
    requires
        acc.is_refresh_of(ft, a),
        forall|s: int| 0 <= s < 64 ==> #[trigger] a.content(s) == b.content(s),
        a.king_square(Color::White) == b.king_square(Color::White),
        a.king_square(Color::Black) == b.king_square(Color::Black),
    ensures
        acc.is_refresh_of(ft, b),
{
    assert forall|p: Color, j: int| 0 <= j < MID implies #[trigger] acc.at(p, j) == refreshed(
        ft,
        b,
        p,
        j,
    ) by {
        assert(a.king_square(p) == b.king_square(p));
        assert forall|s: int| 0 <= s < 64 && s != -1 && s != -2 && s != -3 implies #[trigger] contribution(
            ft,
            b,
            p,
            j,
            s,
        ) == contribution(ft, a, p, j, s) by {
            assert(a.content(s) == b.content(s));
        }
        lemma_sum_differs(ft, a, b, p, j, -1, -2, -3, 64);
        assert(acc.at(p, j) == refreshed(ft, a, p, j));
    }
}

/// A state that was reset at ply 0 is in step with the line that starts
/// there.
pub proof fn lemma_reset_starts_line(state: NnueState, board: Position)
    requires
        state.wf(),
        state.head == 0,
        state.top().is_refresh_of(state.ft(), board),
    ensures
        in_step(state, seq![board]),
{
}

/// Following a move keeps the accumulators in step: where the state was
/// in step with a line that ends in the position of `board`, the state
/// that `make_move` leaves is in step with the line that goes on with
/// the position after the move. After a move of the king that is the
/// position of the board that `cozy_chess` leaves; after any other
/// move it is any position that holds what the move leaves.
pub proof fn lemma_make_move_keeps_step(
    before: NnueState,
    after: NnueState,
    board: cozy_chess::Board,
    mv: Move,
    line: Seq<Position>,
    next: Position,
)
    requires
        in_step(before, line),
        line.last() == cozy_position(board),
        after.follows(&before, board, mv),
        if cozy_position(board).kind_at(mv.from as int) == Some(Piece::King) {
            next == cozy_position(cozy_after(board, mv))
        } else {
            is_result_of(cozy_position(board), mv, next)
        },
    ensures
        in_step(after, line.push(next)),
{
    let pos = cozy_position(board);
    let longer = line.push(next);
    assert forall|k: int| 0 <= k <= after.head implies (#[trigger] after.accumulator@[k]).is_refresh_of(
        after.ft(),
        longer[k],
    ) by {
        if k < after.head {
            assert(after.accumulator@[k] == before.accumulator@[k]);
            assert(before.accumulator@[k].is_refresh_of(before.ft(), line[k]));
        } else if pos.kind_at(mv.from as int) != Some(Piece::King) {
            assert(before.accumulator@[before.head as int].is_refresh_of(before.ft(), line[
                before.head as int
            ]));
            lemma_incremental_is_refresh(before.ft(), pos, mv, next, before.top(), after.top());
        }
    }
}

/// A null move keeps the accumulators in step with a line that goes on
/// with a position of the same pieces.
pub proof fn lemma_null_move_keeps_step(
    before: NnueState,
    after: NnueState,
    line: Seq<Position>,
    next: Position,
)
    requires
        in_step(before, line),
        after.wf(),
        after.head == before.head + 1,
        after.differs_at_top(&before),
        after.top() == before.top(),
        forall|s: int| 0 <= s < 64 ==> #[trigger] line.last().content(s) == next.content(s),
        line.last().king_square(Color::White) == next.king_square(Color::White),
        line.last().king_square(Color::Black) == next.king_square(Color::Black),
    ensures
        in_step(after, line.push(next)),
{
    let longer = line.push(next);
    assert forall|k: int| 0 <= k <= after.head implies (#[trigger] after.accumulator@[k]).is_refresh_of(
        after.ft(),
        longer[k],
    ) by {
        if k < after.head {
            assert(after.accumulator@[k] == before.accumulator@[k]);
            assert(before.accumulator@[k].is_refresh_of(before.ft(), line[k]));
        } else {
            assert(before.accumulator@[before.head as int].is_refresh_of(before.ft(), line[
                before.head as int
            ]));
            lemma_refresh_reads_pieces(before.ft(), line.last(), next, before.top());
        }
    }
}

/// Taking a move back keeps the accumulators in step with the line
/// without its last position.
pub proof fn lemma_unmake_move_keeps_step(before: NnueState, after: NnueState, line: Seq<Position>)
    requires
        in_step(before, line),
        before.head > 0,
        after.head == before.head - 1,
        after.nnue == before.nnue,
        after.accumulator == before.accumulator,
    ensures
        in_step(after, line.drop_last()),
{
    assert forall|k: int| 0 <= k <= after.head implies (#[trigger] after.accumulator@[k]).is_refresh_of(
        after.ft(),
        line.drop_last()[k],
    ) by {
        assert(before.accumulator@[k].is_refresh_of(before.ft(), line[k]));
    }
}

/// Making a move and taking it back leaves the state at the ply it was
/// at, with the accumulators up to that ply as they were.
pub proof fn lemma_make_unmake_restores(
    before: NnueState,
    made: NnueState,
    after: NnueState,
    board: cozy_chess::Board,
    mv: Move,
)
    requires
        before.wf(),
        made.follows(&before, board, mv),
        after.head == made.head - 1,
        after.nnue == made.nnue,
        after.accumulator == made.accumulator,
    ensures
        after.head == before.head,
        after.nnue == before.nnue,
        after.top() == before.top(),
        forall|k: int| 0 <= k <= before.head ==> after.accumulator@[k] == before.accumulator@[k],
{
}

/// Whether no entry of the first layer exceeds `weight` in magnitude, and
/// no bias `bias`.
pub open spec fn weights_within(ft: BitLinear<INPUT, MID>, weight: int, bias: int) -> bool {
    &&& forall|i: int, j: int|
        0 <= i < INPUT && 0 <= j < MID ==> -weight <= #[trigger] ft.weights@[i]@[j] <= weight
    &&& forall|j: int| 0 <= j < MID ==> -bias <= #[trigger] ft.biases@[j] <= bias
}

/// A sum over the squares below `n` is no more than `n` weights.
pub proof fn lemma_feature_sum_within(
    ft: BitLinear<INPUT, MID>,
    pos: Position,
    p: Color,
    j: int,
    n: int,
    weight: int,
    bias: int,
)
    requires
        weights_within(ft, weight, bias),
        0 <= weight,
        0 <= j < MID,
        0 <= n <= 64,
        0 <= pos.king_square(p) < 64,
    ensures
        -(n * weight) <= feature_sum(ft, pos, p, j, n) <= n * weight,
    decreases n,
{
    if n <= 0 {
        assert(n * weight == 0) by (nonlinear_arith)
            requires
                n == 0,
        ;
    } else {
        lemma_feature_sum_within(ft, pos, p, j, n - 1, weight, bias);
        assert((n - 1) * weight + weight == n * weight) by (nonlinear_arith);
        assert(contribution(ft, pos, p, j, n - 1) == match pos.content(n - 1) {
            Some((piece, color)) => ft.weights@[crate::nnue::feature_index(
                p,
                pos.king_square(p),
                color,
                piece,
                n - 1,
            )]@[j] as int,
            None => 0,
        });
        match pos.content(n - 1) {
            Some((piece, color)) => {
                let i = crate::nnue::feature_index(p, pos.king_square(p), color, piece, n - 1);
                lemma_flip_in_range(pos.king_square(p));
                lemma_flip_in_range(n - 1);
                assert(0 <= i < INPUT);
                assert(-weight <= ft.weights@[i]@[j] <= weight);
            },
            None => {},
        }
    }
}

proof fn lemma_flip_in_range(s: int)
    requires
        0 <= s < 64,
    ensures
        0 <= crate::nnue::flip_rank(s) < 64,
{
}

/// With weights so small that a bias and one weight for each square of
/// the board stay within 16 bits, nothing wraps: an accumulator computed
/// from scratch holds the bias and the sum of the weights themselves.
pub proof fn lemma_refresh_is_exact(
    ft: BitLinear<INPUT, MID>,
    pos: Position,
    p: Color,
    j: int,
    weight: int,
    bias: int,
)
    requires
        weights_within(ft, weight, bias),
        0 <= weight,
        bias + 64 * weight <= i16::MAX,
        0 <= j < MID,
        0 <= pos.king_square(p) < 64,
    ensures
        refreshed(ft, pos, p, j) == ft.biases@[j] + feature_sum(ft, pos, p, j, 64),
{
    lemma_feature_sum_within(ft, pos, p, j, 64, weight, bias);
    lemma_wrap16_add(ft.biases@[j] + feature_sum(ft, pos, p, j, 64), 0);
}

/// Two accumulators that hold the same numbers are scored alike.
pub proof fn lemma_same_numbers_same_score(nnue: Nnue, a: Accumulator, b: Accumulator, stm: Color)
    requires
        forall|p: Color, j: int| 0 <= j < MID ==> #[trigger] a.at(p, j) == b.at(p, j),
    ensures
        forward_of(nnue, a, stm) == forward_of(nnue, b, stm),
{
    assert forall|k: int| 0 <= k < 2 * MID implies activations(a, stm)[k] == activations(b, stm)[k] by {
        if k < MID {
            assert(a.at(stm, k) == b.at(stm, k));
        } else {
            assert(a.at(stm.other(), k - MID) == b.at(stm.other(), k - MID));
        }
    }
    assert(activations(a, stm) =~= activations(b, stm));
}

/// A state that has followed a line of play scores its last position as
/// a state does that was reset to it: following move by move and
/// recomputing from scratch give the same score, for either side.
pub proof fn lemma_followed_line_scores_like_reset(
    state: NnueState,
    line: Seq<Position>,
    fresh: NnueState,
    stm: Color,
)
    requires
        in_step(state, line),
        fresh.wf(),
        fresh.nnue == state.nnue,
        fresh.top().is_refresh_of(fresh.ft(), line.last()),
    ensures
        forward_of(state.net(), state.top(), stm) == forward_of(fresh.net(), fresh.top(), stm),
{
    let top = state.top();
    assert(state.accumulator@[state.head as int].is_refresh_of(state.ft(), line[state.head as int]));
    assert forall|p: Color, j: int| 0 <= j < MID implies #[trigger] top.at(p, j) == fresh.top().at(
        p,
        j,
    ) by {
        assert(top.at(p, j) == refreshed(state.ft(), line.last(), p, j));
        assert(fresh.top().at(p, j) == refreshed(fresh.ft(), line.last(), p, j));
    }
    lemma_same_numbers_same_score(state.net(), top, fresh.top(), stm);
}

/// An accumulator whose two perspectives hold the same numbers gives both
/// sides the same score.
pub proof fn lemma_equal_perspectives_score_alike(nnue: Nnue, acc: Accumulator)
    requires
        forall|j: int| 0 <= j < MID ==> acc.at(Color::White, j) == acc.at(Color::Black, j),
    ensures
        forward_of(nnue, acc, Color::White) == forward_of(nnue, acc, Color::Black),
{
    assert forall|k: int| 0 <= k < 2 * MID implies activations(acc, Color::White)[k] == activations(
        acc,
        Color::Black,
    )[k] by {
        if k < MID {
            assert(acc.at(Color::White, k) == acc.at(Color::Black, k));
        } else {
            assert(acc.at(Color::White, k - MID) == acc.at(Color::Black, k - MID));
        }
    }
    assert(activations(acc, Color::White) =~= activations(acc, Color::Black));
}

/// Whether a position looks the same from both sides: each piece faces a
/// piece of its kind and of the other color on the turned square, and the
/// kings stand on turned squares.
pub open spec fn is_own_mirror(pos: Position) -> bool {
    &&& 0 <= pos.king_square(Color::White) < 64
    &&& pos.king_square(Color::Black) == flip_rank(pos.king_square(Color::White))
    &&& forall|s: int|
        0 <= s < 64 ==> #[trigger] pos.content(flip_rank(s)) == match pos.content(s) {
            Some((piece, color)) => Some((piece, color.other())),
            None => None,
        }
}

/// What a square feeds into an output, as a function of the square.
pub open spec fn contribution_at(
    ft: BitLinear<INPUT, MID>,
    pos: Position,
    p: Color,
    j: int,
) -> spec_fn(int) -> int {
    |s: int| contribution(ft, pos, p, j, s)
}

pub proof fn lemma_feature_sum_is_sum(
    ft: BitLinear<INPUT, MID>,
    pos: Position,
    p: Color,
    j: int,
    n: int,
)
    requires
        0 <= n,
    ensures
        feature_sum(ft, pos, p, j, n) == sum_below(contribution_at(ft, pos, p, j), n),
    decreases n,
{
    if n > 0 {
        lemma_feature_sum_is_sum(ft, pos, p, j, n - 1);
    }
}

/// For a position that looks the same from both sides, a recomputation
/// from scratch gives both perspectives the same numbers.
pub proof fn lemma_own_mirror_equal_perspectives(ft: BitLinear<INPUT, MID>, pos: Position, j: int)
    requires
        is_own_mirror(pos),
    ensures
        refreshed(ft, pos, Color::White, j) == refreshed(ft, pos, Color::Black, j),
{
    let white = contribution_at(ft, pos, Color::White, j);
    let black = contribution_at(ft, pos, Color::Black, j);
    let king = pos.king_square(Color::White);
    lemma_flip_twice(king);
    assert forall|s: int| 0 <= s < 64 implies #[trigger] black(s) == white(flip_rank(s)) by {
        lemma_flip_twice(s);
        assert(pos.content(flip_rank(s)) == match pos.content(s) {
            Some((piece, color)) => Some((piece, color.other())),
            None => None,
        });
    }
    lemma_sum_flipped(white, black);
    lemma_feature_sum_is_sum(ft, pos, Color::White, j, 64);
    lemma_feature_sum_is_sum(ft, pos, Color::Black, j, 64);
}

/// A position that looks the same from both sides, as the starting
/// position does, is scored alike for white and for black.
pub proof fn lemma_own_mirror_scores_alike(nnue: Nnue, pos: Position, acc: Accumulator)
    requires
        is_own_mirror(pos),
        acc.is_refresh_of(nnue.ft, pos),
    ensures
        forward_of(nnue, acc, Color::White) == forward_of(nnue, acc, Color::Black),
{
    assert forall|j: int| 0 <= j < MID implies acc.at(Color::White, j) == acc.at(Color::Black, j) by {
        lemma_own_mirror_equal_perspectives(nnue.ft, pos, j);
        assert(acc.at(Color::White, j) == refreshed(nnue.ft, pos, Color::White, j));
        assert(acc.at(Color::Black, j) == refreshed(nnue.ft, pos, Color::Black, j));
    }
    lemma_equal_perspectives_score_alike(nnue, acc);
}

} // verus!
