use vstd::prelude::*;
use std::sync::Arc;
use crate::board::{Color, Move, Piece, Position};
use crate::layers::{activation, centipawns, lemma_wrap16_add, out, sq_clipped_relu, wrap16, BitLinear};
use crate::model::{Nnue, INPUT, MID, MID2};
use crate::cozy_board::{cozy_after, cozy_position, is_movable, movable, play_unchecked};

verus! {

/// Deepest ply that a search reaches.
pub const MAX_PLY: usize = 128;

/// The square on the same file whose rank is counted from the other side.
pub open spec fn flip_rank(sq: int) -> int {
    (7 - sq / 8) * 8 + sq % 8
}

/// The input feature of a piece on a square, seen from one side with its
/// king on `king`: king square, then piece color, then piece kind, then
/// piece square. Black sees the board turned and the colors swapped.
pub open spec fn feature_index(
    perspective: Color,
    king: int,
    color: Color,
    piece: Piece,
    square: int,
) -> int {
    match perspective {
        Color::White => ((king * 2 + color.idx()) * 6 + piece.idx()) * 64 + square,
        Color::Black => ((flip_rank(king) * 2 + color.other().idx()) * 6 + piece.idx()) * 64
            + flip_rank(square),
    }
}

pub fn halfka_feature(perspective: Color, king: u8, color: Color, piece: Piece, square: u8) -> (r:
    usize)
    requires
        king < 64,
        square < 64,
    ensures
        r == feature_index(perspective, king as int, color, piece, square as int),
        r < INPUT,
{
    let (king, square, color): (usize, usize, Color) = match perspective {
        Color::White => (king as usize, square as usize, color),
        Color::Black => (
            ((7 - king / 8) * 8 + king % 8) as usize,
            ((7 - square / 8) * 8 + square % 8) as usize,
            color.flip(),
        ),
    };
    let mut index: usize = 0;
    index = index * 64 + king;
    index = index * 2 + color.index();
    index = index * 6 + piece.index();
    index = index * 64 + square;
    index
}

/// The hidden layer before activation, once per perspective: white's view
/// first, black's second.
#[derive(Debug, Clone, Copy)]
pub struct Accumulator {
    pub accumulator: [[i16; 256]; 2],
}

/// One piece appearing on a square (`incr`) or leaving it.
#[derive(Debug, Clone, Copy)]
pub struct FeatureChange {
    pub incr: bool,
    pub sq: u8,
    pub piece: Piece,
    pub color: Color,
}

impl FeatureChange {
    /// What the change adds to output `j` of one perspective, with that
    /// perspective's king on `king`.
    pub open spec fn term(
        self,
        ft: BitLinear<INPUT, MID>,
        perspective: Color,
        king: int,
        j: int,
    ) -> int {
        let weight = ft.weights@[feature_index(
            perspective,
            king,
            self.color,
            self.piece,
            self.sq as int,
        )]@[j] as int;
        if self.incr {
            weight
        } else {
            -weight
        }
    }
}

/// What the first `n` of `changes` add to output `j` of one perspective.
pub open spec fn changes_sum(
    changes: Seq<FeatureChange>,
    ft: BitLinear<INPUT, MID>,
    perspective: Color,
    king: int,
    j: int,
    n: int,
) -> int
    decreases n,
{
    if n <= 0 {
        0
    } else {
        changes_sum(changes, ft, perspective, king, j, n - 1) + changes[n - 1].term(
            ft,
            perspective,
            king,
            j,
        )
    }
}

/// What the piece on `sq`, if there is one, feeds into output `j` of one
/// perspective.
pub open spec fn contribution(
    ft: BitLinear<INPUT, MID>,
    pos: Position,
    perspective: Color,
    j: int,
    sq: int,
) -> int {
    match pos.content(sq) {
        Some((piece, color)) => ft.weights@[feature_index(
            perspective,
            pos.king_square(perspective),
            color,
            piece,
            sq,
        )]@[j] as int,
        None => 0,
    }
}

/// Sum over the occupied squares below `n` of the weights that their
/// pieces feed into output `j` of one perspective.
pub open spec fn feature_sum(
    ft: BitLinear<INPUT, MID>,
    pos: Position,
    perspective: Color,
    j: int,
    n: int,
) -> int
    decreases n,
{
    if n <= 0 {
        0
    } else {
        feature_sum(ft, pos, perspective, j, n - 1) + contribution(ft, pos, perspective, j, n - 1)
    }
}

/// Output `j` of one perspective for a position, computed from scratch:
/// the bias and the weights of every piece on the board, wrapped to 16
/// bits.
pub open spec fn refreshed(ft: BitLinear<INPUT, MID>, pos: Position, perspective: Color, j: int) -> int {
    wrap16(ft.biases@[j] + feature_sum(ft, pos, perspective, j, 64))
}

impl Accumulator {
    /// Output `j` of one perspective.
    pub open spec fn at(self, perspective: Color, j: int) -> int {
        self.accumulator@[perspective.idx()]@[j] as int
    }

    /// Whether both perspectives hold what a recomputation from scratch
    /// gives for `pos`.
    pub open spec fn is_refresh_of(self, ft: BitLinear<INPUT, MID>, pos: Position) -> bool {
        forall|p: Color, j: int| 0 <= j < MID ==> #[trigger] self.at(p, j) == refreshed(ft, pos, p, j)
    }

    /// Whether both perspectives hold the biases alone.
    pub open spec fn is_zero_of(self, ft: BitLinear<INPUT, MID>) -> bool {
        forall|p: Color, j: int| 0 <= j < MID ==> #[trigger] self.at(p, j) == ft.biases@[j]
    }

    /// Whether `self` is `before` with the first `n` of `changes` applied,
    /// the kings standing on `w_king` and `b_king`.
    pub open spec fn is_update_of(
        self,
        before: Accumulator,
        ft: BitLinear<INPUT, MID>,
        w_king: int,
        b_king: int,
        changes: Seq<FeatureChange>,
        n: int,
    ) -> bool {
        forall|p: Color, j: int|
            0 <= j < MID ==> #[trigger] self.at(p, j) == wrap16(
                before.at(p, j) + changes_sum(
                    changes,
                    ft,
                    p,
                    if p == Color::White {
                        w_king
                    } else {
                        b_king
                    },
                    j,
                    n,
                ),
            )
    }

    pub fn new(ft: &BitLinear<INPUT, MID>) -> (r: Accumulator)
        ensures
            r.is_zero_of(*ft),
    {
        let mut accumulator = Accumulator { accumulator: [[0i16; 256]; 2] };
        accumulator.zero(ft);
        accumulator
    }

    /// Sets both perspectives to the biases.
    pub fn zero(&mut self, ft: &BitLinear<INPUT, MID>)
        ensures
            final(self).is_zero_of(*ft),
    {
        self.accumulator[0] = ft.biases;
        self.accumulator[1] = ft.biases;
        proof {
            assert forall|p: Color, j: int| 0 <= j < MID implies #[trigger] self.at(p, j)
                == ft.biases@[j] by {
                match p {
                    Color::White => {},
                    Color::Black => {},
                }
            }
        }
    }

    /// Adds (`INCR`) or takes away the weights of a piece of `color` on
    /// `sq`, in both perspectives.
    pub fn update<const INCR: bool>(
        &mut self,
        ft: &BitLinear<INPUT, MID>,
        w_king: u8,
        b_king: u8,
        sq: u8,
        piece: Piece,
        color: Color,
    )
        requires
            w_king < 64,
            b_king < 64,
            sq < 64,
        ensures
            final(self).is_update_of(
                *old(self),
                *ft,
                w_king as int,
                b_king as int,
                seq![FeatureChange { incr: INCR, sq, piece, color }],
                1,
            ),
    {
        let w_index = halfka_feature(Color::White, w_king, color, piece, sq);
        let b_index = halfka_feature(Color::Black, b_king, color, piece, sq);
        if INCR {
            ft.modify_feature(w_index, &mut self.accumulator[0], 1);
            ft.modify_feature(b_index, &mut self.accumulator[1], 1);
        } else {
            ft.modify_feature(w_index, &mut self.accumulator[0], -1);
            ft.modify_feature(b_index, &mut self.accumulator[1], -1);
        }
        proof {
            let change = FeatureChange { incr: INCR, sq, piece, color };
            let changes = seq![change];
            assert forall|p: Color, j: int| 0 <= j < MID implies #[trigger] self.at(p, j) == wrap16(
                old(self).at(p, j) + changes_sum(
                    changes,
                    *ft,
                    p,
                    if p == Color::White {
                        w_king as int
                    } else {
                        b_king as int
                    },
                    j,
                    1,
                ),
            ) by {
                let king = if p == Color::White {
                    w_king as int
                } else {
                    b_king as int
                };
                assert(changes_sum(changes, *ft, p, king, j, 0) == 0);
                assert(changes_sum(changes, *ft, p, king, j, 1) == change.term(*ft, p, king, j));
                let index = if p == Color::White {
                    w_index as int
                } else {
                    b_index as int
                };
                let weight = ft.weights@[index]@[j] as int;
                if INCR {
                    assert(change.term(*ft, p, king, j) == weight * 1);
                } else {
                    assert(change.term(*ft, p, king, j) == weight * (-1));
                }
                match p {
                    Color::White => {
                        assert(self.at(p, j) == self.accumulator@[0]@[j]);
                        assert(old(self).at(p, j) == old(self).accumulator@[0]@[j]);
                    },
                    Color::Black => {
                        assert(self.at(p, j) == self.accumulator@[1]@[j]);
                        assert(old(self).at(p, j) == old(self).accumulator@[1]@[j]);
                    },
                }
            }
        }
    }
}

/// Calls `bytemuck::cast_ref`, which hands back the same memory under
/// another type of the same size: here the two halves one after the other.
#[verifier::external_body]
fn joined(halves: &[[u8; 256]; 2]) -> (r: &[u8; 512])
    ensures
        r@ == halves@[0]@ + halves@[1]@,
{
    bytemuck::cast_ref(halves)
}

/// The activations that the output layer is fed: those of the side to
/// move first, then those of the other side.
pub open spec fn activations(acc: Accumulator, stm: Color) -> Seq<u8> {
    Seq::new(
        MID2 as nat,
        |k: int|
            if k < MID {
                activation(acc.accumulator@[stm.idx()]@[k]) as u8
            } else {
                activation(acc.accumulator@[stm.other().idx()]@[k - MID]) as u8
            },
    )
}

/// The network's score for the side to move, in centipawns.
pub open spec fn forward_of(nnue: Nnue, acc: Accumulator, stm: Color) -> int {
    centipawns(nnue.l1.output(activations(acc, stm), 0))
}

/// The network with its stack of accumulators, one per ply of the current
/// line of play.
#[derive(Debug, Clone)]
pub struct NnueState {
    pub nnue: Arc<Nnue>,
    pub accumulator: Vec<Accumulator>,
    pub head: usize,
}

impl NnueState {
    /// The stack has its full depth, the head lies in it, and the output
    /// layer cannot overflow.
    pub open spec fn wf(&self) -> bool {
        &&& self.accumulator@.len() == MAX_PLY + 1
        &&& self.head <= MAX_PLY
        &&& self.nnue.l1.fits()
    }

    /// Whether the stack has its full depth, the head lies in it, and the
    /// output layer cannot overflow.
    pub fn is_wf(&self) -> (r: bool)
        ensures
            r == self.wf(),
    {
        self.accumulator.len() == MAX_PLY + 1 && self.head <= MAX_PLY && self.nnue.l1.is_fit()
    }

    /// The accumulator of the current ply.
    pub open spec fn top(&self) -> Accumulator {
        self.accumulator@[self.head as int]
    }

    /// The first layer.
    pub open spec fn ft(&self) -> BitLinear<INPUT, MID> {
        self.nnue.ft
    }

    /// The network.
    pub open spec fn net(&self) -> Nnue {
        *self.nnue
    }

    /// Whether `self` is `before` but for the accumulator of its own
    /// current ply.
    pub open spec fn differs_at_top(&self, before: &NnueState) -> bool {
        &&& self.nnue == before.nnue
        &&& self.accumulator@.len() == before.accumulator@.len()
        &&& forall|k: int|
            0 <= k < self.accumulator@.len() && k != self.head ==> self.accumulator@[k]
                == before.accumulator@[k]
    }

    /// A state at ply 0 whose accumulators hold the biases.
    pub fn new(nnue: Arc<Nnue>) -> (r: NnueState)
        requires
            nnue.wf(),
        ensures
            r.wf(),
            r.head == 0,
            r.nnue == nnue,
            forall|k: int| 0 <= k <= MAX_PLY ==> (#[trigger] r.accumulator@[k]).is_zero_of(nnue.ft),
    {
        let first = Accumulator::new(&nnue.ft);
        let mut accumulator: Vec<Accumulator> = Vec::new();
        let mut k: usize = 0;
        while k < MAX_PLY + 1
            invariant
                k <= MAX_PLY + 1,
                accumulator@.len() == k,
                first.is_zero_of(nnue.ft),
                forall|i: int| 0 <= i < k ==> (#[trigger] accumulator@[i]) == first,
            decreases MAX_PLY + 1 - k,
        {
            accumulator.push(first);
            k += 1;
        }
        NnueState { nnue, accumulator, head: 0 }
    }

    /// Recomputes the accumulator of the current ply from `board`.
    pub fn reset(&mut self, board: &Position)
        requires
            old(self).wf(),
            board.has_kings(),
        ensures
            final(self).wf(),
            final(self).head == old(self).head,
            final(self).differs_at_top(old(self)),
            final(self).top().is_refresh_of(old(self).ft(), *board),
    {
        let w_king: u8 = board.king(Color::White);
        let b_king: u8 = board.king(Color::Black);
        let head: usize = self.head;
        let ghost ft = self.ft();
        self.accumulator[head].zero(&self.nnue.ft);
        let mut sq: u8 = 0;
        while sq < 64
            invariant
                sq <= 64,
                self.wf(),
                self.head == head,
                self.head == old(self).head,
                self.differs_at_top(old(self)),
                ft == self.nnue.ft,
                w_king == board.king_square(Color::White),
                b_king == board.king_square(Color::Black),
                w_king < 64,
                b_king < 64,
                forall|p: Color, j: int|
                    0 <= j < MID ==> #[trigger] self.top().at(p, j) == wrap16(
                        ft.biases@[j] + feature_sum(ft, *board, p, j, sq as int),
                    ),
            decreases 64 - sq,
        {
            if let Some((piece, color)) = board.piece_and_color_on(sq) {
                let ghost before = self.top();
                self.accumulator[head].update::<true>(
                    &self.nnue.ft,
                    w_king,
                    b_king,
                    sq,
                    piece,
                    color,
                );
                proof {
                    let change = FeatureChange { incr: true, sq, piece, color };
                    let changes = seq![change];
                    let after = self.top();
                    assert(after.is_update_of(before, ft, w_king as int, b_king as int, changes, 1));
                    assert forall|p: Color, j: int| 0 <= j < MID implies #[trigger] after.at(
                        p,
                        j,
                    ) == wrap16(ft.biases@[j] + feature_sum(ft, *board, p, j, sq + 1)) by {
                        let king = if p == Color::White {
                            w_king as int
                        } else {
                            b_king as int
                        };
                        assert(after.at(p, j) == wrap16(before.at(p, j) + changes_sum(changes, ft, p, king, j, 1)));
                        assert(board.content(sq as int) == Some((piece, color)));
                        assert(king == board.king_square(p));
                        assert(changes_sum(changes, ft, p, king, j, 0) == 0);
                        assert(changes_sum(changes, ft, p, king, j, 1) == change.term(
                            ft,
                            p,
                            king,
                            j,
                        ));
                        assert(before.at(p, j) == wrap16(
                            ft.biases@[j] + feature_sum(ft, *board, p, j, sq as int),
                        ));
                        lemma_wrap16_add(
                            ft.biases@[j] + feature_sum(ft, *board, p, j, sq as int),
                            change.term(ft, p, king, j),
                        );
                        match p {
                            Color::White => {},
                            Color::Black => {},
                        }
                    }
                }
            }
            sq += 1;
        }
    }

    /// Goes back to ply 0 and recomputes its accumulator from `board`.
    pub fn full_reset(&mut self, board: &Position)
        requires
            old(self).wf(),
            board.has_kings(),
        ensures
            final(self).wf(),
            final(self).head == 0,
            final(self).differs_at_top(old(self)),
            final(self).top().is_refresh_of(old(self).ft(), *board),
    {
        self.head = 0;
        self.reset(board);
    }

    /// Copies the accumulator of the current ply to the next and makes
    /// that the current one.
    fn push_accumulator(&mut self)
        requires
            old(self).wf(),
            old(self).head < MAX_PLY,
        ensures
            final(self).wf(),
            final(self).head == old(self).head + 1,
            final(self).differs_at_top(old(self)),
            final(self).top() == old(self).top(),
    {
        let top: Accumulator = self.accumulator[self.head];
        let next: usize = self.head + 1;
        self.accumulator[next] = top;
        self.head = next;
    }

    /// Goes one ply down without changing the board.
    pub fn null_move(&mut self)
        requires
            old(self).wf(),
            old(self).head < MAX_PLY,
        ensures
            final(self).wf(),
            final(self).head == old(self).head + 1,
            final(self).differs_at_top(old(self)),
            final(self).top() == old(self).top(),
    {
        self.push_accumulator();
    }

    /// Goes one ply up; the accumulators stay as they are.
    pub fn unmake_move(&mut self)
        requires
            old(self).wf(),
            old(self).head > 0,
        ensures
            final(self).wf(),
            final(self).head == old(self).head - 1,
            final(self).nnue == old(self).nnue,
            final(self).accumulator == old(self).accumulator,
    {
        self.head -= 1;
    }

    /// The network's score of the current ply for the side to move, in
    /// centipawns.
    pub fn feed_forward(&mut self, stm: Color) -> (r: i16)
        requires
            old(self).wf(),
        ensures
            *final(self) == *old(self),
            r == forward_of(*old(self).nnue, old(self).top(), stm),
    {
        let mut incr: [[u8; 256]; 2] = [[0u8; 256]; 2];
        sq_clipped_relu(&self.accumulator[self.head].accumulator[stm.index()], &mut incr[0]);
        sq_clipped_relu(
            &self.accumulator[self.head].accumulator[stm.flip().index()],
            &mut incr[1],
        );
        let inputs: &[u8; 512] = joined(&incr);
        proof {
            assert(inputs@ =~= activations(self.top(), stm));
        }
        let outputs: [i32; 1] = self.nnue.l1.forward(inputs);
        out(outputs[0])
    }
}

/// The square of the pawn that `mv` takes en passant, where it does: a pawn
/// moves to the square behind the pawn that has just advanced two ranks on
/// the en-passant file.
pub open spec fn en_passant_victim(pos: Position, mv: Move) -> Option<u8> {
    match pos.en_passant {
        Some(file) => {
            let (fifth, sixth): (int, int) = match pos.side_to_move {
                Color::White => (4, 5),
                Color::Black => (3, 2),
            };
            if pos.kind_at(mv.from as int) == Some(Piece::Pawn) && mv.to == sixth * 8 + file {
                Some((fifth * 8 + file) as u8)
            } else {
                None
            }
        },
        None => None,
    }
}

/// The first rank of a side.
pub open spec fn back_rank(color: Color) -> int {
    match color {
        Color::White => 0,
        Color::Black => 7,
    }
}

/// What a move of a piece other than the king changes on the board, in the
/// order in which the accumulator follows it: the piece leaves its square;
/// what stands on the destination leaves; a pawn taken en passant leaves;
/// then the piece, or what it is promoted to, appears on the destination.
/// Where the destination holds a piece of the moving side, the move is
/// read as castling, and king and rook appear on their castled squares.
pub open spec fn move_changes(pos: Position, mv: Move) -> Seq<FeatureChange> {
    let stm = pos.side_to_move;
    let from_type = pos.kind_at(mv.from as int).unwrap();
    let lifted = seq![FeatureChange { incr: false, sq: mv.from, piece: from_type, color: stm }];
    let captured = match pos.content(mv.to as int) {
        Some((piece, color)) => seq![FeatureChange { incr: false, sq: mv.to, piece, color }],
        None => Seq::empty(),
    };
    let passed = match en_passant_victim(pos, mv) {
        Some(sq) => seq![
            FeatureChange { incr: false, sq, piece: Piece::Pawn, color: stm.other() },
        ],
        None => Seq::empty(),
    };
    let first = back_rank(stm);
    let dropped = if pos.color_at(mv.to as int) == Some(stm) {
        if mv.to % 8 > mv.from % 8 {
            seq![
                FeatureChange { incr: true, sq: (first * 8 + 6) as u8, piece: Piece::King, color: stm },
                FeatureChange { incr: true, sq: (first * 8 + 5) as u8, piece: Piece::Rook, color: stm },
            ]
        } else {
            seq![
                FeatureChange { incr: true, sq: (first * 8 + 2) as u8, piece: Piece::King, color: stm },
                FeatureChange { incr: true, sq: (first * 8 + 3) as u8, piece: Piece::Rook, color: stm },
            ]
        }
    } else {
        seq![
            FeatureChange {
                incr: true,
                sq: mv.to,
                piece: match mv.promotion {
                    Some(piece) => piece,
                    None => from_type,
                },
                color: stm,
            },
        ]
    };
    lifted + captured + passed + dropped
}

/// Up to five changes, held without allocation.
#[derive(Debug, Clone, Copy)]
pub struct ChangeList {
    pub items: [FeatureChange; 5],
    pub len: usize,
}

impl View for ChangeList {
    type V = Seq<FeatureChange>;

    open spec fn view(&self) -> Seq<FeatureChange> {
        self.items@.take(self.len as int)
    }
}

impl ChangeList {
    pub open spec fn wf(&self) -> bool {
        self.len <= 5
    }

    /// What a slot holds before a change is put into it: a white pawn
    /// leaving the first square. It stands for nothing; only the slots
    /// below `len` count.
    pub open spec fn blank() -> FeatureChange {
        FeatureChange { incr: false, sq: 0, piece: Piece::Pawn, color: Color::White }
    }

    /// The list of no change: its length is 0, and each of its five slots
    /// holds the blank change.
    pub fn new() -> (r: ChangeList)
        ensures
            r.wf(),
            r.len == 0,
            r@ == Seq::<FeatureChange>::empty(),
            forall|k: int| 0 <= k < 5 ==> #[trigger] r.items@[k] == Self::blank(),
    {
        let blank = FeatureChange { incr: false, sq: 0, piece: Piece::Pawn, color: Color::White };
        let r = ChangeList { items: [blank; 5], len: 0 };
        assert(r@ =~= Seq::<FeatureChange>::empty());
        r
    }

    pub fn push(&mut self, change: FeatureChange)
        requires
            old(self).len < 5,
        ensures
            final(self).wf(),
            final(self).len == old(self).len + 1,
            final(self)@ == old(self)@.push(change),
    {
        let at: usize = self.len;
        self.items[at] = change;
        self.len = at + 1;
        assert(self@ =~= old(self)@.push(change));
    }
}

/// The changes that a move of a piece other than the king makes.
pub fn changes_for(pos: &Position, mv: Move) -> (r: ChangeList)
    requires
        pos.wf(),
        mv.wf(),
        pos.kind_at(mv.from as int) is Some,
    ensures
        r.wf(),
        r@ == move_changes(*pos, mv),
        forall|k: int| 0 <= k < r@.len() ==> (#[trigger] r@[k]).sq < 64,
{
    let stm: Color = pos.side_to_move;
    let from_type: Piece = match pos.piece_on(mv.from) {
        Some(piece) => piece,
        None => Piece::King,
    };
    let mut list = ChangeList::new();
    list.push(FeatureChange { incr: false, sq: mv.from, piece: from_type, color: stm });
    if let Some((piece, color)) = pos.piece_and_color_on(mv.to) {
        list.push(FeatureChange { incr: false, sq: mv.to, piece, color });
    }
    let ghost lifted_and_captured = list@;
    if let Some(file) = pos.en_passant {
        let (fifth, sixth): (u8, u8) = match stm {
            Color::White => (4, 5),
            Color::Black => (3, 2),
        };
        if from_type == Piece::Pawn && mv.to == sixth * 8 + file {
            list.push(
                FeatureChange {
                    incr: false,
                    sq: fifth * 8 + file,
                    piece: Piece::Pawn,
                    color: stm.flip(),
                },
            );
        }
    }
    let ghost before_drop = list@;
    if pos.color_on(mv.to) == Some(stm) {
        let first: u8 = match stm {
            Color::White => 0,
            Color::Black => 7,
        };
        if mv.to % 8 > mv.from % 8 {
            list.push(FeatureChange { incr: true, sq: first * 8 + 6, piece: Piece::King, color: stm });
            list.push(FeatureChange { incr: true, sq: first * 8 + 5, piece: Piece::Rook, color: stm });
        } else {
            list.push(FeatureChange { incr: true, sq: first * 8 + 2, piece: Piece::King, color: stm });
            list.push(FeatureChange { incr: true, sq: first * 8 + 3, piece: Piece::Rook, color: stm });
        }
    } else {
        let piece: Piece = match mv.promotion {
            Some(piece) => piece,
            None => from_type,
        };
        list.push(FeatureChange { incr: true, sq: mv.to, piece, color: stm });
    }
    assert(list@ =~= move_changes(*pos, mv));
    list
}

impl NnueState {
    /// Applies `changes` to the accumulator of the current ply.
    pub fn apply_changes(&mut self, w_king: u8, b_king: u8, changes: &ChangeList)
        requires
            old(self).wf(),
            changes.wf(),
            w_king < 64,
            b_king < 64,
            forall|k: int| 0 <= k < changes@.len() ==> (#[trigger] changes@[k]).sq < 64,
        ensures
            final(self).wf(),
            final(self).head == old(self).head,
            final(self).differs_at_top(old(self)),
            final(self).top().is_update_of(
                old(self).top(),
                old(self).ft(),
                w_king as int,
                b_king as int,
                changes@,
                changes@.len() as int,
            ),
    {
        let head: usize = self.head;
        let ghost ft = self.ft();
        let ghost start = self.top();
        let mut k: usize = 0;
        proof {
            assert forall|p: Color, j: int| 0 <= j < MID implies #[trigger] start.at(p, j) == wrap16(
                start.at(p, j) + changes_sum(
                    changes@,
                    ft,
                    p,
                    if p == Color::White {
                        w_king as int
                    } else {
                        b_king as int
                    },
                    j,
                    0,
                ),
            ) by {
                lemma_wrap16_add(start.at(p, j), 0);
            }
        }
        while k < changes.len
            invariant
                k <= changes.len <= 5,
                self.wf(),
                self.head == head,
                head == old(self).head,
                self.differs_at_top(old(self)),
                ft == self.ft(),
                start == old(self).top(),
                w_king < 64,
                b_king < 64,
                forall|i: int| 0 <= i < changes@.len() ==> (#[trigger] changes@[i]).sq < 64,
                self.top().is_update_of(start, ft, w_king as int, b_king as int, changes@, k as int),
            decreases changes.len - k,
        {
            let change: FeatureChange = changes.items[k];
            assert(change == changes@[k as int]);
            let ghost before = self.top();
            if change.incr {
                self.accumulator[head].update::<true>(
                    &self.nnue.ft,
                    w_king,
                    b_king,
                    change.sq,
                    change.piece,
                    change.color,
                );
            } else {
                self.accumulator[head].update::<false>(
                    &self.nnue.ft,
                    w_king,
                    b_king,
                    change.sq,
                    change.piece,
                    change.color,
                );
            }
            proof {
                let one = seq![change];
                let after = self.top();
                assert(after.is_update_of(before, ft, w_king as int, b_king as int, one, 1));
                assert forall|p: Color, j: int| 0 <= j < MID implies #[trigger] after.at(p, j)
                    == wrap16(
                    start.at(p, j) + changes_sum(
                        changes@,
                        ft,
                        p,
                        if p == Color::White {
                            w_king as int
                        } else {
                            b_king as int
                        },
                        j,
                        k + 1,
                    ),
                ) by {
                    let king = if p == Color::White {
                        w_king as int
                    } else {
                        b_king as int
                    };
                    assert(changes_sum(one, ft, p, king, j, 0) == 0);
                    assert(changes_sum(one, ft, p, king, j, 1) == change.term(ft, p, king, j));
                    assert(after.at(p, j) == wrap16(before.at(p, j) + changes_sum(one, ft, p, king, j, 1)));
                    assert(before.at(p, j) == wrap16(
                        start.at(p, j) + changes_sum(changes@, ft, p, king, j, k as int),
                    ));
                    lemma_wrap16_add(
                        start.at(p, j) + changes_sum(changes@, ft, p, king, j, k as int),
                        change.term(ft, p, king, j),
                    );
                }
            }
            k += 1;
        }
    }

    /// Whether `make_move` can follow `mv` on `board`: the `cozy_chess` crate
    /// can make the move, both kings are on the board, and they are still
    /// there after a move of the king.
    pub open spec fn can_follow(board: cozy_chess::Board, mv: Move) -> bool {
        let pos = cozy_position(board);
        &&& movable(pos, mv)
        &&& pos.has_kings()
        &&& (pos.kind_at(mv.from as int) == Some(Piece::King) ==> cozy_position(
            cozy_after(board, mv),
        ).has_kings())
    }

    /// What `make_move` leaves of `before`: one ply further down, with an
    /// accumulator that is recomputed from the board after the move where
    /// the king moves, and that follows the changes on the board otherwise.
    pub open spec fn follows(&self, before: &NnueState, board: cozy_chess::Board, mv: Move) -> bool {
        let pos = cozy_position(board);
        &&& self.wf()
        &&& self.head == before.head + 1
        &&& self.differs_at_top(before)
        &&& if pos.kind_at(mv.from as int) == Some(Piece::King) {
            self.top().is_refresh_of(before.ft(), cozy_position(cozy_after(board, mv)))
        } else {
            self.top().is_update_of(
                before.top(),
                before.ft(),
                pos.king_square(Color::White),
                pos.king_square(Color::Black),
                move_changes(pos, mv),
                move_changes(pos, mv).len() as int,
            )
        }
    }

    /// Goes one ply down, following `mv` on `board`.
    pub fn make_move(&mut self, board: &cozy_chess::Board, mv: Move)
        requires
            old(self).wf(),
            old(self).head < MAX_PLY,
            Self::can_follow(*board, mv),
        ensures
            final(self).follows(old(self), *board, mv),
    {
        self.push_accumulator();
        let pos = Position::from_cozy(board);
        if pos.piece_on(mv.from) == Some(Piece::King) {
            let after = Position::from_cozy(&play_unchecked(board, mv));
            self.reset(&after);
        } else {
            let w_king: u8 = pos.king(Color::White);
            let b_king: u8 = pos.king(Color::Black);
            let changes = changes_for(&pos, mv);
            self.apply_changes(w_king, b_king, &changes);
        }
    }

    /// Follows `mv` on `board` where `make_move` can, and says whether it
    /// did; where it cannot, nothing changes.
    pub fn try_make_move(&mut self, board: &cozy_chess::Board, mv: Move) -> (done: bool)
        requires
            old(self).wf(),
        ensures
            done == (old(self).head < MAX_PLY && Self::can_follow(*board, mv)),
            done ==> final(self).follows(old(self), *board, mv),
            !done ==> *final(self) == *old(self),
    {
        let pos = Position::from_cozy(board);
        if self.head >= MAX_PLY || !is_movable(&pos, mv) || !pos.both_kings() {
            return false;
        }
        if pos.piece_on(mv.from) == Some(Piece::King) {
            let after = Position::from_cozy(&play_unchecked(board, mv));
            if !after.both_kings() {
                return false;
            }
        }
        self.make_move(board, mv);
        true
    }
}

} // verus!
