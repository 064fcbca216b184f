use vstd::prelude::*;

verus! {

/// Weight of all non-pawn material of the starting position; the phase of
/// a position without any of it.
pub const TOTAL_PHASE: u32 = 24;

pub const PAWN_PHASE: u32 = 0;

pub const KNIGHT_PHASE: u32 = 1;

pub const BISHOP_PHASE: u32 = 1;

pub const ROOK_PHASE: u32 = 2;

pub const QUEEN_PHASE: u32 = 4;

/// A score as a pair of mathematical integers: its middlegame and its
/// endgame value.
pub struct Score {
    pub mg: int,
    pub eg: int,
}

impl Score {
    pub open spec fn zero() -> Score {
        Score { mg: 0, eg: 0 }
    }

    pub open spec fn plus(self, other: Score) -> Score {
        Score { mg: self.mg + other.mg, eg: self.eg + other.eg }
    }

    pub open spec fn minus(self, other: Score) -> Score {
        Score { mg: self.mg - other.mg, eg: self.eg - other.eg }
    }

    pub open spec fn times(self, k: int) -> Score {
        Score { mg: self.mg * k, eg: self.eg * k }
    }

    pub open spec fn negated(self) -> Score {
        Score { mg: -self.mg, eg: -self.eg }
    }

    /// Both values divided by `k`, rounded toward zero.
    pub open spec fn shrunk(self, k: int) -> Score {
        Score { mg: trunc_div(self.mg, k), eg: trunc_div(self.eg, k) }
    }

    /// The blend of both values at `phase`, rounded toward zero: the
    /// middlegame value at 0, the endgame value at `TOTAL_PHASE`.
    pub open spec fn blend(self, phase: int) -> int {
        trunc_div(self.mg * (TOTAL_PHASE - phase) + self.eg * phase, TOTAL_PHASE as int)
    }

    /// Both values lie within `limit` of zero.
    pub open spec fn within(self, limit: int) -> bool {
        -limit <= self.mg <= limit && -limit <= self.eg <= limit
    }
}

/// Quotient of `a` by a positive `b`, rounded toward zero.
pub open spec fn trunc_div(a: int, b: int) -> int {
    if a >= 0 {
        a / b
    } else {
        -((-a) / b)
    }
}

/// A middlegame and an endgame value, blended by the material left on the
/// board.
#[derive(Clone, Copy, Debug, PartialEq, Eq, Structural)]
pub struct TaperedEval(pub i32, pub i32);

impl View for TaperedEval {
    type V = Score;

    open spec fn view(&self) -> Score {
        Score { mg: self.0 as int, eg: self.1 as int }
    }
}

/// Whether `v` fits a signed 32-bit integer.
pub open spec fn fits_i32(v: int) -> bool {
    i32::MIN <= v <= i32::MAX
}

impl TaperedEval {
    pub fn plus(self, other: TaperedEval) -> (r: TaperedEval)
        requires
            fits_i32(self.0 + other.0),
            fits_i32(self.1 + other.1),
        ensures
            r@ == self@.plus(other@),
    {
        TaperedEval(self.0 + other.0, self.1 + other.1)
    }

    pub fn minus(self, other: TaperedEval) -> (r: TaperedEval)
        requires
            fits_i32(self.0 - other.0),
            fits_i32(self.1 - other.1),
        ensures
            r@ == self@.minus(other@),
    {
        TaperedEval(self.0 - other.0, self.1 - other.1)
    }

    pub fn times(self, k: i32) -> (r: TaperedEval)
        requires
            fits_i32(self.0 * k),
            fits_i32(self.1 * k),
        ensures
            r@ == self@.times(k as int),
    {
        TaperedEval(self.0 * k, self.1 * k)
    }

    /// Divides both values by a positive `k`, rounding toward zero.
    pub fn shrunk(self, k: i32) -> (r: TaperedEval)
        requires
            k > 0,
        ensures
            r@ == self@.shrunk(k as int),
    {
        TaperedEval(self.0 / k, self.1 / k)
    }

    /// Interpolates between the middlegame value (`phase` 0) and the endgame
    /// value (`phase` `TOTAL_PHASE`).
    pub fn convert(self, phase: i32) -> (r: i32)
        requires
            0 <= phase <= TOTAL_PHASE,
        ensures
            r == self@.blend(phase as int),
    {
        let mg: i64 = self.0 as i64;
        let eg: i64 = self.1 as i64;
        let p: i64 = phase as i64;
        assert(-0x8000_0000 * 24 <= eg * p <= 0x8000_0000 * 24) by (nonlinear_arith)
            requires
                -0x8000_0000 <= eg <= 0x8000_0000,
                0 <= p <= 24,
        ;
        assert(-0x8000_0000 * 24 <= mg * (24 - p) <= 0x8000_0000 * 24) by (nonlinear_arith)
            requires
                -0x8000_0000 <= mg <= 0x8000_0000,
                0 <= p <= 24,
        ;
        let total: i64 = mg * (24 - p) + eg * p;
        proof {
            lemma_blend_between(self.0 as int, self.1 as int, phase as int);
        }
        let q: i64 = total / 24;
        q as i32
    }
}

/// A blend lies between its two ends, so it fits wherever they do.
pub proof fn lemma_blend_between(mg: int, eg: int, phase: int)
    requires
        0 <= phase <= 24,
    ensures
        ({
            let b = trunc_div(mg * (24 - phase) + eg * phase, 24);
            &&& (mg <= eg ==> mg <= b <= eg)
            &&& (eg <= mg ==> eg <= b <= mg)
        }),
{
    let t = mg * (24 - phase) + eg * phase;
    let lo = if mg <= eg { mg } else { eg };
    let hi = if mg <= eg { eg } else { mg };
    assert(24 * lo <= t <= 24 * hi) by (nonlinear_arith)
        requires
            t == mg * (24 - phase) + eg * phase,
            0 <= phase <= 24,
            lo <= mg <= hi,
            lo <= eg <= hi,
    ;
    if t >= 0 {
        assert(lo <= t / 24 <= hi) by (nonlinear_arith)
            requires
                24 * lo <= t <= 24 * hi,
                t >= 0,
        ;
    } else {
        assert(lo <= -((-t) / 24) <= hi) by (nonlinear_arith)
            requires
                24 * lo <= t <= 24 * hi,
                t < 0,
        ;
    }
}

/// A score in centipawns, seen from the side to move.
#[derive(Clone, Copy, Debug, PartialEq, Eq, Structural)]
pub struct Evaluation {
    score: i32,
}

impl Evaluation {
    pub closed spec fn value(self) -> int {
        self.score as int
    }

    pub fn new(score: i32) -> (r: Evaluation)
        ensures
            r.value() == score,
    {
        Evaluation { score }
    }

    /// The score as a plain number.
    pub fn raw(&self) -> (r: i32)
        ensures
            r == self.value(),
    {
        self.score
    }
}

} // verus!
