use vstd::prelude::*;
use crate::board::{Color, Move, Piece, Position};
use crate::tapered::trunc_div;

verus! {

/// Largest magnitude that a history entry reaches.
pub const MAX_VALUE: i32 = 512;

/// What an update takes back from an entry: the larger the entry, the more.
pub open spec fn decay_of(change: int, value: int) -> int {
    trunc_div(change * value, MAX_VALUE as int)
}

/// An entry after its move has cut off.
pub open spec fn rewarded(value: int, change: int) -> int {
    value + (change - decay_of(change, value))
}

/// An entry after its move was tried and did not cut off.
pub open spec fn penalized(value: int, change: int) -> int {
    value - (change + decay_of(change, value))
}

/// Whether an entry lies within `MAX_VALUE` of zero.
pub open spec fn bounded(value: int) -> bool {
    -MAX_VALUE <= value <= MAX_VALUE
}

/// Neither update takes a bounded entry out of bounds, as long as the
/// change is no more than `MAX_VALUE`.
pub proof fn lemma_gravity_bounded(value: int, change: int)
    requires
        bounded(value),
        0 <= change <= MAX_VALUE,
    ensures
        bounded(rewarded(value, change)),
        bounded(penalized(value, change)),
        -MAX_VALUE <= decay_of(change, value) <= MAX_VALUE,
{
    let d = decay_of(change, value);
    if value >= 0 {
        assert(0 <= change * value <= change * 512) by (nonlinear_arith)
            requires
                0 <= value <= 512,
                0 <= change,
        ;
        assert(change * value <= 512 * value) by (nonlinear_arith)
            requires
                0 <= value,
                change <= 512,
        ;
        assert(d == (change * value) / 512);
        assert(512 * d <= change * value && change * value < 512 * d + 512);
        assert((512 - change) * (512 - value) >= 0) by (nonlinear_arith)
            requires
                change <= 512,
                value <= 512,
        ;
        assert((512 - change) * (512 - value) == 512 * 512 - 512 * change - 512 * value + change
            * value) by (nonlinear_arith);
    } else {
        assert(0 <= change * (-value) <= change * 512) by (nonlinear_arith)
            requires
                0 <= -value <= 512,
                0 <= change,
        ;
        assert(change * value == -(change * (-value))) by (nonlinear_arith);
        assert(change * (-value) <= 512 * (-value)) by (nonlinear_arith)
            requires
                0 <= -value,
                change <= 512,
        ;
        let e = (change * (-value)) / 512;
        assert(d == -e);
        assert(512 * e <= change * (-value) && change * (-value) < 512 * e + 512);
        assert((512 - change) * (512 + value) >= 0) by (nonlinear_arith)
            requires
                change <= 512,
                -512 <= value,
        ;
        assert((512 - change) * (512 + value) == 512 * 512 - 512 * change + 512 * value - change
            * value) by (nonlinear_arith);
    }
}

/// The entry with key `key` after the entry `hit` was rewarded and then the
/// first `n` of `missed` were penalized, one after the other.
pub open spec fn gravity(value: int, key: int, hit: int, missed: Seq<int>, change: int, n: int) -> int
    decreases n,
{
    if n <= 0 {
        if key == hit {
            rewarded(value, change)
        } else {
            value
        }
    } else {
        let prev = gravity(value, key, hit, missed, change, n - 1);
        if key == missed[n - 1] {
            penalized(prev, change)
        } else {
            prev
        }
    }
}

/// The square of the change `amt * amt`, for an `amt` small enough that it
/// does not exceed `MAX_VALUE`.
pub open spec fn change_of(amt: u32) -> int {
    amt * amt
}

/// One gravity step on an entry.
fn pull(value: i16, change: i16, reward: bool) -> (r: i16)
    requires
        bounded(value as int),
        0 <= change <= MAX_VALUE,
    ensures
        r == if reward {
            rewarded(value as int, change as int)
        } else {
            penalized(value as int, change as int)
        },
        bounded(r as int),
{
    proof {
        lemma_gravity_bounded(value as int, change as int);
        assert(-512 * 512 <= change * value <= 512 * 512) by (nonlinear_arith)
            requires
                -512 <= value <= 512,
                0 <= change <= 512,
        ;
    }
    let decay: i16 = (change as i32 * value as i32 / MAX_VALUE) as i16;
    if reward {
        let increment: i16 = change - decay;
        value + increment
    } else {
        let decrement: i16 = change + decay;
        value - decrement
    }
}

/// Key of a from-to pair.
pub open spec fn butterfly_key(mv: Move) -> int {
    mv.from * 64 + mv.to
}

/// From-to scores per side, raised by cutoffs and lowered by failed tries.
#[derive(Debug, Clone)]
pub struct HistoryTable {
    pub table: Box<[[[i16; 64]; 64]; 2]>,
}

impl HistoryTable {
    pub open spec fn entry(&self, color: Color, from: int, to: int) -> int {
        self.table@[color.idx()]@[from]@[to] as int
    }

    /// Every entry lies within `MAX_VALUE` of zero.
    pub open spec fn wf(&self) -> bool {
        forall|color: Color, from: int, to: int|
            0 <= from < 64 && 0 <= to < 64 ==> bounded(#[trigger] self.entry(color, from, to))
    }

    pub fn new() -> (r: HistoryTable)
        ensures
            r.wf(),
            forall|color: Color, from: int, to: int|
                0 <= from < 64 && 0 <= to < 64 ==> #[trigger] r.entry(color, from, to) == 0,
    {
        HistoryTable { table: Box::new([[[0i16; 64]; 64]; 2]) }
    }

    pub fn get(&self, color: Color, from: u8, to: u8) -> (r: i16)
        requires
            from < 64,
            to < 64,
        ensures
            r == self.entry(color, from as int, to as int),
    {
        self.table[color.index()][from as usize][to as usize]
    }

    /// Whether every entry lies within `MAX_VALUE` of zero.
    pub fn is_wf(&self) -> (r: bool)
        ensures
            r == self.wf(),
    {
        let mut c: usize = 0;
        while c < 2
            invariant
                c <= 2,
                forall|a: int, f: int, t: int|
                    0 <= a < c && 0 <= f < 64 && 0 <= t < 64 ==> bounded(
                        #[trigger] self.table@[a]@[f]@[t] as int,
                    ),
            decreases 2 - c,
        {
            let mut from: usize = 0;
            while from < 64
                invariant
                    c < 2,
                    from <= 64,
                    forall|a: int, f: int, t: int|
                        0 <= a < c && 0 <= f < 64 && 0 <= t < 64 ==> bounded(
                            #[trigger] self.table@[a]@[f]@[t] as int,
                        ),
                    forall|f: int, t: int|
                        0 <= f < from && 0 <= t < 64 ==> bounded(
                            #[trigger] self.table@[c as int]@[f]@[t] as int,
                        ),
                decreases 64 - from,
            {
                let mut to: usize = 0;
                while to < 64
                    invariant
                        c < 2,
                        from < 64,
                        to <= 64,
                        forall|t: int|
                            0 <= t < to ==> bounded(
                                #[trigger] self.table@[c as int]@[from as int]@[t] as int,
                            ),
                    decreases 64 - to,
                {
                    let value: i16 = self.table[c][from][to];
                    if value < -512 || value > 512 {
                        proof {
                            let color = if c == 0 {
                                Color::White
                            } else {
                                Color::Black
                            };
                            assert(!bounded(self.entry(color, from as int, to as int)));
                        }
                        return false;
                    }
                    to += 1;
                }
                from += 1;
            }
            c += 1;
        }
        proof {
            assert forall|color: Color, f: int, t: int| 0 <= f < 64 && 0 <= t < 64 implies bounded(
                #[trigger] self.entry(color, f, t),
            ) by {
                assert(bounded(self.table@[color.idx()]@[f]@[t] as int));
            }
        }
        true
    }

    /// Rewards `make_move` and penalizes each of `fails` in turn, for the
    /// side to move on `board`, by the square of `amt`.
    pub fn cutoff(&mut self, board: &Position, make_move: Move, fails: &[Move], amt: u32)
        requires
            old(self).wf(),
            make_move.wf(),
            forall|i: int| 0 <= i < fails@.len() ==> (#[trigger] fails@[i]).wf(),
            amt * amt <= MAX_VALUE,
        ensures
            final(self).wf(),
            forall|from: int, to: int|
                0 <= from < 64 && 0 <= to < 64 ==> #[trigger] final(self).entry(
                    board.side_to_move,
                    from,
                    to,
                ) == gravity(
                    old(self).entry(board.side_to_move, from, to),
                    from * 64 + to,
                    butterfly_key(make_move),
                    fails@.map_values(|m: Move| butterfly_key(m)),
                    change_of(amt),
                    fails@.len() as int,
                ),
            forall|from: int, to: int|
                0 <= from < 64 && 0 <= to < 64 ==> #[trigger] final(self).entry(
                    board.side_to_move.other(),
                    from,
                    to,
                ) == old(self).entry(board.side_to_move.other(), from, to),
    {
        let color: Color = board.side_to_move;
        let c: usize = color.index();
        assert(amt <= 22) by (nonlinear_arith)
            requires
                amt * amt <= 512,
        ;
        let change: i16 = (amt * amt) as i16;
        let ghost missed = fails@.map_values(|m: Move| butterfly_key(m));
        let ghost hit = butterfly_key(make_move);
        let from: usize = make_move.from as usize;
        let to: usize = make_move.to as usize;
        assert(bounded(self.entry(color, from as int, to as int)));
        let value: i16 = self.table[c][from][to];
        self.table[c][from][to] = pull(value, change, true);
        proof {
            assert forall|f: int, t: int| 0 <= f < 64 && 0 <= t < 64 implies #[trigger] self.entry(
                color,
                f,
                t,
            ) == gravity(old(self).entry(color, f, t), f * 64 + t, hit, missed, change as int, 0)
                && bounded(self.entry(color, f, t)) by {
                assert(bounded(old(self).entry(color, f, t)));
                if f * 64 + t == hit {
                    assert(f == from && t == to);
                }
            }
        }
        let mut i: usize = 0;
        while i < fails.len()
            invariant
                i <= fails@.len(),
                c == color.idx(),
                color == board.side_to_move,
                0 <= change <= MAX_VALUE,
                change == change_of(amt),
                missed == fails@.map_values(|m: Move| butterfly_key(m)),
                hit == butterfly_key(make_move),
                forall|k: int| 0 <= k < fails@.len() ==> (#[trigger] fails@[k]).wf(),
                forall|f: int, t: int|
                    0 <= f < 64 && 0 <= t < 64 ==> bounded(#[trigger] self.entry(color, f, t)),
                forall|f: int, t: int|
                    0 <= f < 64 && 0 <= t < 64 ==> #[trigger] self.entry(color, f, t) == gravity(
                        old(self).entry(color, f, t),
                        f * 64 + t,
                        hit,
                        missed,
                        change as int,
                        i as int,
                    ),
                forall|f: int, t: int|
                    0 <= f < 64 && 0 <= t < 64 ==> #[trigger] self.entry(color.other(), f, t) == old(
                        self,
                    ).entry(color.other(), f, t),
            decreases fails@.len() - i,
        {
            let quiet: Move = fails[i];
            assert(quiet.wf());
            let qf: usize = quiet.from as usize;
            let qt: usize = quiet.to as usize;
            let ghost before = *self;
            assert(bounded(self.entry(color, qf as int, qt as int)));
            let value: i16 = self.table[c][qf][qt];
            self.table[c][qf][qt] = pull(value, change, false);
            proof {
                assert(missed[i as int] == butterfly_key(quiet));
                assert forall|f: int, t: int| 0 <= f < 64 && 0 <= t < 64 implies #[trigger] self.entry(
                    color,
                    f,
                    t,
                ) == gravity(
                    old(self).entry(color, f, t),
                    f * 64 + t,
                    hit,
                    missed,
                    change as int,
                    i + 1,
                ) && bounded(self.entry(color, f, t)) by {
                    assert(bounded(before.entry(color, f, t)));
                    if f * 64 + t == butterfly_key(quiet) {
                        assert(f == qf && t == qt);
                    }
                }
                assert forall|f: int, t: int| 0 <= f < 64 && 0 <= t < 64 implies #[trigger] self.entry(
                    color.other(),
                    f,
                    t,
                ) == old(self).entry(color.other(), f, t) by {
                    assert(before.entry(color.other(), f, t) == old(self).entry(color.other(), f, t));
                }
            }
            i += 1;
        }
        proof {
            assert forall|cl: Color, f: int, t: int| 0 <= f < 64 && 0 <= t < 64 implies bounded(
                #[trigger] self.entry(cl, f, t),
            ) by {
                if cl == color {
                } else {
                    assert(cl == color.other());
                    assert(bounded(old(self).entry(cl, f, t)));
                }
            }
        }
    }
}

/// For each side, piece and square that a move went to: the move that
/// refuted it last.
#[derive(Debug, Clone)]
pub struct CounterMoveTable {
    pub table: Box<[[[Option<Move>; 64]; 6]; 2]>,
}

/// The kind that stands on `sq`, taken to be a king where the square is
/// empty.
pub open spec fn kind_or_king(board: Position, sq: int) -> Piece {
    match board.kind_at(sq) {
        Some(piece) => piece,
        None => Piece::King,
    }
}

fn piece_or_king(board: &Position, sq: u8) -> (r: Piece)
    ensures
        r == kind_or_king(*board, sq as int),
{
    match board.piece_on(sq) {
        Some(piece) => piece,
        None => Piece::King,
    }
}

impl CounterMoveTable {
    pub open spec fn entry(&self, color: Color, piece: Piece, to: int) -> Option<Move> {
        self.table@[color.idx()]@[piece.idx()]@[to]
    }

    pub fn new() -> (r: CounterMoveTable)
        ensures
            forall|color: Color, piece: Piece, to: int|
                0 <= to < 64 ==> #[trigger] r.entry(color, piece, to) == None::<Move>,
    {
        CounterMoveTable { table: Box::new([[[None; 64]; 6]; 2]) }
    }

    pub fn get(&self, color: Color, piece: Piece, to: u8) -> (r: Option<Move>)
        requires
            to < 64,
        ensures
            r == self.entry(color, piece, to as int),
    {
        self.table[color.index()][piece.index()][to as usize]
    }

    /// Records `cutoff_move` as the answer to `prev_move`, for the side to
    /// move on `board` and the piece that now stands where `prev_move`
    /// went; nothing is recorded for an `amt` above 20.
    pub fn cutoff(&mut self, board: &Position, prev_move: Move, cutoff_move: Move, amt: u32)
        requires
            prev_move.wf(),
        ensures
            forall|color: Color, piece: Piece, to: int|
                0 <= to < 64 ==> #[trigger] final(self).entry(color, piece, to) == if amt <= 20
                    && color == board.side_to_move && piece == kind_or_king(
                    *board,
                    prev_move.to as int,
                ) && to == prev_move.to {
                    Some(cutoff_move)
                } else {
                    old(self).entry(color, piece, to)
                },
    {
        if amt > 20 {
            return ;
        }
        let to: usize = prev_move.to as usize;
        let color: usize = board.side_to_move.index();
        let piece: Piece = piece_or_king(board, prev_move.to);
        self.table[color][piece.index()][to] = Some(cutoff_move);
        proof {
            assert forall|cl: Color, pc: Piece, t: int| 0 <= t < 64 implies #[trigger] self.entry(
                cl,
                pc,
                t,
            ) == if cl == board.side_to_move && pc == piece && t == prev_move.to {
                Some(cutoff_move)
            } else {
                old(self).entry(cl, pc, t)
            } by {
                lemma_index_is_kind(cl, board.side_to_move, pc, piece);
            }
        }
    }
}

/// Colors and kinds with the same index are the same.
pub proof fn lemma_index_is_kind(c1: Color, c2: Color, p1: Piece, p2: Piece)
    ensures
        c1.idx() == c2.idx() <==> c1 == c2,
        p1.idx() == p2.idx() <==> p1 == p2,
        0 <= c1.idx() < 2,
        0 <= p1.idx() < 6,
{
}

/// Key of a move in the follow-up table: the piece that moves, and where
/// it goes.
pub open spec fn follow_key(board: Position, mv: Move) -> int {
    board.kind_at(mv.from as int).unwrap().idx() * 64 + mv.to
}

/// Scores of a move as the follow-up of the move before it, per side:
/// indexed by the piece and destination of the earlier move, then by the
/// piece and destination of the move itself.
#[derive(Debug, Clone)]
pub struct DoubleMoveHistory {
    pub table: Box<[[[[[i16; 64]; 6]; 64]; 6]; 2]>,
}

impl DoubleMoveHistory {
    pub open spec fn entry(
        &self,
        color: Color,
        piece_0: Piece,
        to_0: int,
        piece_1: Piece,
        to_1: int,
    ) -> int {
        self.table@[color.idx()]@[piece_0.idx()]@[to_0]@[piece_1.idx()]@[to_1] as int
    }

    /// Every entry lies within `MAX_VALUE` of zero.
    pub open spec fn wf(&self) -> bool {
        forall|color: Color, piece_0: Piece, to_0: int, piece_1: Piece, to_1: int|
            0 <= to_0 < 64 && 0 <= to_1 < 64 ==> bounded(
                #[trigger] self.entry(color, piece_0, to_0, piece_1, to_1),
            )
    }

    pub fn new() -> (r: DoubleMoveHistory)
        ensures
            r.wf(),
            forall|color: Color, piece_0: Piece, to_0: int, piece_1: Piece, to_1: int|
                0 <= to_0 < 64 && 0 <= to_1 < 64 ==> #[trigger] r.entry(
                    color,
                    piece_0,
                    to_0,
                    piece_1,
                    to_1,
                ) == 0,
    {
        let r = DoubleMoveHistory { table: Box::new([[[[[0i16; 64]; 6]; 64]; 6]; 2]) };
        proof {
            assert forall|color: Color, piece_0: Piece, to_0: int, piece_1: Piece, to_1: int|
                0 <= to_0 < 64 && 0 <= to_1 < 64 implies #[trigger] r.entry(
                color,
                piece_0,
                to_0,
                piece_1,
                to_1,
            ) == 0 by {
                lemma_index_is_kind(color, color, piece_0, piece_1);
                lemma_index_is_kind(color, color, piece_1, piece_0);
            }
        }
        r
    }

    pub fn get(&self, color: Color, piece_0: Piece, to_0: u8, piece_1: Piece, to_1: u8) -> (r: i16)
        requires
            to_0 < 64,
            to_1 < 64,
        ensures
            r == self.entry(color, piece_0, to_0 as int, piece_1, to_1 as int),
    {
        self.table[color.index()][piece_0.index()][to_0 as usize][piece_1.index()][to_1 as usize]
    }

    /// Whether every entry of the follow-ups of one earlier move lies
    /// within `MAX_VALUE` of zero.
    fn is_slice_wf(&self, c: usize, p0: usize, t0: usize) -> (r: bool)
        requires
            c < 2,
            p0 < 6,
            t0 < 64,
        ensures
            r == (forall|a: int, t: int|
                0 <= a < 6 && 0 <= t < 64 ==> bounded(
                    #[trigger] self.table@[c as int]@[p0 as int]@[t0 as int]@[a]@[t] as int,
                )),
    {
        let mut p1: usize = 0;
        while p1 < 6
            invariant
                c < 2,
                p0 < 6,
                t0 < 64,
                p1 <= 6,
                forall|a: int, t: int|
                    0 <= a < p1 && 0 <= t < 64 ==> bounded(
                        #[trigger] self.table@[c as int]@[p0 as int]@[t0 as int]@[a]@[t] as int,
                    ),
            decreases 6 - p1,
        {
            let mut t1: usize = 0;
            while t1 < 64
                invariant
                    c < 2,
                    p0 < 6,
                    t0 < 64,
                    p1 < 6,
                    t1 <= 64,
                    forall|t: int|
                        0 <= t < t1 ==> bounded(
                            #[trigger] self.table@[c as int]@[p0 as int]@[t0 as int]@[p1 as int]@[t]
                                as int,
                        ),
                decreases 64 - t1,
            {
                let value: i16 = self.table[c][p0][t0][p1][t1];
                if value < -512 || value > 512 {
                    assert(!bounded(
                        self.table@[c as int]@[p0 as int]@[t0 as int]@[p1 as int]@[t1 as int]
                            as int,
                    ));
                    return false;
                }
                t1 += 1;
            }
            p1 += 1;
        }
        true
    }

    /// Whether every entry lies within `MAX_VALUE` of zero.
    pub fn is_wf(&self) -> (r: bool)
        ensures
            r == self.wf(),
    {
        let mut c: usize = 0;
        while c < 2
            invariant
                c <= 2,
                forall|x: int, y: int, z: int, a: int, t: int|
                    0 <= x < c && 0 <= y < 6 && 0 <= z < 64 && 0 <= a < 6 && 0 <= t < 64
                        ==> bounded(#[trigger] self.table@[x]@[y]@[z]@[a]@[t] as int),
            decreases 2 - c,
        {
            let mut p0: usize = 0;
            while p0 < 6
                invariant
                    c < 2,
                    p0 <= 6,
                    forall|x: int, y: int, z: int, a: int, t: int|
                        0 <= x < c && 0 <= y < 6 && 0 <= z < 64 && 0 <= a < 6 && 0 <= t < 64
                            ==> bounded(#[trigger] self.table@[x]@[y]@[z]@[a]@[t] as int),
                    forall|y: int, z: int, a: int, t: int|
                        0 <= y < p0 && 0 <= z < 64 && 0 <= a < 6 && 0 <= t < 64 ==> bounded(
                            #[trigger] self.table@[c as int]@[y]@[z]@[a]@[t] as int,
                        ),
                decreases 6 - p0,
            {
                let mut t0: usize = 0;
                while t0 < 64
                    invariant
                        c < 2,
                        p0 < 6,
                        t0 <= 64,
                        forall|z: int, a: int, t: int|
                            0 <= z < t0 && 0 <= a < 6 && 0 <= t < 64 ==> bounded(
                                #[trigger] self.table@[c as int]@[p0 as int]@[z]@[a]@[t] as int,
                            ),
                    decreases 64 - t0,
                {
                    if !self.is_slice_wf(c, p0, t0) {
                        proof {
                            let (a, t) = choose|a: int, t: int|
                                0 <= a < 6 && 0 <= t < 64 && !bounded(
                                    #[trigger] self.table@[c as int]@[p0 as int]@[t0 as int]@[a]@[t]
                                        as int,
                                );
                            let color = if c == 0 {
                                Color::White
                            } else {
                                Color::Black
                            };
                            let first = Piece::of_idx(p0 as int);
                            let second = Piece::of_idx(a);
                            assert(!bounded(self.entry(color, first, t0 as int, second, t)));
                        }
                        return false;
                    }
                    t0 += 1;
                }
                p0 += 1;
            }
            c += 1;
        }
        proof {
            assert forall|color: Color, piece_0: Piece, to_0: int, piece_1: Piece, to_1: int|
                0 <= to_0 < 64 && 0 <= to_1 < 64 implies bounded(
                #[trigger] self.entry(color, piece_0, to_0, piece_1, to_1),
            ) by {
                lemma_index_is_kind(color, color, piece_0, piece_1);
                lemma_index_is_kind(color, color, piece_1, piece_0);
                assert(bounded(
                    self.table@[color.idx()]@[piece_0.idx()]@[to_0]@[piece_1.idx()]@[to_1] as int,
                ));
            }
        }
        true
    }

    /// Rewards `make_move` as the follow-up of `prev_move` and penalizes
    /// each of `fails` in turn, for the side to move on `board`, by the
    /// square of `amt`.
    pub fn cutoff(
        &mut self,
        board: &Position,
        prev_move: Move,
        make_move: Move,
        fails: &[Move],
        amt: u32,
    )
        requires
            old(self).wf(),
            prev_move.wf(),
            make_move.wf(),
            board.kind_at(make_move.from as int) is Some,
            forall|i: int|
                0 <= i < fails@.len() ==> (#[trigger] fails@[i]).wf() && board.kind_at(
                    fails@[i].from as int,
                ) is Some,
            amt * amt <= MAX_VALUE,
        ensures
            final(self).wf(),
            forall|color: Color, piece_0: Piece, to_0: int, piece_1: Piece, to_1: int|
                0 <= to_0 < 64 && 0 <= to_1 < 64 ==> #[trigger] final(self).entry(
                    color,
                    piece_0,
                    to_0,
                    piece_1,
                    to_1,
                ) == if color == board.side_to_move && piece_0 == kind_or_king(
                    *board,
                    prev_move.to as int,
                ) && to_0 == prev_move.to {
                    gravity(
                        old(self).entry(color, piece_0, to_0, piece_1, to_1),
                        piece_1.idx() * 64 + to_1,
                        follow_key(*board, make_move),
                        fails@.map_values(|m: Move| follow_key(*board, m)),
                        change_of(amt),
                        fails@.len() as int,
                    )
                } else {
                    old(self).entry(color, piece_0, to_0, piece_1, to_1)
                },
    {
        let color: Color = board.side_to_move;
        let c: usize = color.index();
        let prev_piece: Piece = piece_or_king(board, prev_move.to);
        let p0: usize = prev_piece.index();
        let t0: usize = prev_move.to as usize;
        assert(amt <= 22) by (nonlinear_arith)
            requires
                amt * amt <= 512,
        ;
        let change: i16 = (amt * amt) as i16;
        let ghost missed = fails@.map_values(|m: Move| follow_key(*board, m));
        let ghost hit = follow_key(*board, make_move);
        let piece: Piece = match board.piece_on(make_move.from) {
            Some(piece) => piece,
            None => Piece::King,
        };
        let p1: usize = piece.index();
        let t1: usize = make_move.to as usize;
        assert(bounded(self.entry(color, prev_piece, t0 as int, piece, t1 as int)));
        let value: i16 = self.table[c][p0][t0][p1][t1];
        self.table[c][p0][t0][p1][t1] = pull(value, change, true);
        proof {
            assert forall|cl: Color, a0: Piece, b0: int, a1: Piece, b1: int|
                0 <= b0 < 64 && 0 <= b1 < 64 implies bounded(
                #[trigger] self.entry(cl, a0, b0, a1, b1),
            ) && self.entry(cl, a0, b0, a1, b1) == if cl == color && a0 == prev_piece && b0
                == t0 {
                gravity(
                    old(self).entry(cl, a0, b0, a1, b1),
                    a1.idx() * 64 + b1,
                    hit,
                    missed,
                    change as int,
                    0,
                )
            } else {
                old(self).entry(cl, a0, b0, a1, b1)
            } by {
                assert(bounded(old(self).entry(cl, a0, b0, a1, b1)));
                lemma_index_is_kind(cl, color, a0, prev_piece);
                lemma_index_is_kind(cl, color, a1, piece);
            }
        }
        let mut i: usize = 0;
        while i < fails.len()
            invariant
                i <= fails@.len(),
                c == color.idx(),
                p0 == prev_piece.idx(),
                t0 == prev_move.to,
                t0 < 64,
                color == board.side_to_move,
                prev_piece == kind_or_king(*board, prev_move.to as int),
                0 <= change <= MAX_VALUE,
                change == change_of(amt),
                missed == fails@.map_values(|m: Move| follow_key(*board, m)),
                hit == follow_key(*board, make_move),
                forall|k: int|
                    0 <= k < fails@.len() ==> (#[trigger] fails@[k]).wf() && board.kind_at(
                        fails@[k].from as int,
                    ) is Some,
                forall|cl: Color, a0: Piece, b0: int, a1: Piece, b1: int|
                    0 <= b0 < 64 && 0 <= b1 < 64 ==> bounded(
                        #[trigger] self.entry(cl, a0, b0, a1, b1),
                    ),
                forall|cl: Color, a0: Piece, b0: int, a1: Piece, b1: int|
                    0 <= b0 < 64 && 0 <= b1 < 64 ==> #[trigger] self.entry(cl, a0, b0, a1, b1)
                        == if cl == color && a0 == prev_piece && b0 == t0 {
                        gravity(
                            old(self).entry(cl, a0, b0, a1, b1),
                            a1.idx() * 64 + b1,
                            hit,
                            missed,
                            change as int,
                            i as int,
                        )
                    } else {
                        old(self).entry(cl, a0, b0, a1, b1)
                    },
            decreases fails@.len() - i,
        {
            let quiet: Move = fails[i];
            assert(quiet.wf() && board.kind_at(quiet.from as int) is Some);
            let piece: Piece = match board.piece_on(quiet.from) {
                Some(piece) => piece,
                None => Piece::King,
            };
            let q1: usize = piece.index();
            let qt: usize = quiet.to as usize;
            let ghost before = *self;
            assert(bounded(self.entry(color, prev_piece, t0 as int, piece, qt as int)));
            let value: i16 = self.table[c][p0][t0][q1][qt];
            self.table[c][p0][t0][q1][qt] = pull(value, change, false);
            proof {
                assert(missed[i as int] == follow_key(*board, quiet));
                assert forall|cl: Color, a0: Piece, b0: int, a1: Piece, b1: int|
                    0 <= b0 < 64 && 0 <= b1 < 64 implies bounded(
                    #[trigger] self.entry(cl, a0, b0, a1, b1),
                ) && self.entry(cl, a0, b0, a1, b1) == if cl == color && a0 == prev_piece && b0
                    == t0 {
                    gravity(
                        old(self).entry(cl, a0, b0, a1, b1),
                        a1.idx() * 64 + b1,
                        hit,
                        missed,
                        change as int,
                        i + 1,
                    )
                } else {
                    old(self).entry(cl, a0, b0, a1, b1)
                } by {
                    assert(bounded(before.entry(cl, a0, b0, a1, b1)));
                    lemma_index_is_kind(cl, color, a0, prev_piece);
                    lemma_index_is_kind(cl, color, a1, piece);
                }
            }
            i += 1;
        }
    }
}

} // verus!
