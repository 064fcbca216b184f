use vstd::prelude::*;
use crate::board::Move;
use crate::tapered::Evaluation;

verus! {

/// Moves that a game is expected to last when a search starts.
pub const EXPECTED_MOVES: u32 = 80;

/// The fewest moves that the rest of a game is ever taken to last.
pub const MIN_MOVES: u32 = 25;

/// The spread of root evaluations at which a search takes its normal time.
pub const NORMAL_STD_DEV: u32 = 10;

/// Milliseconds kept in reserve.
pub const PANIC_TIME: u32 = 10000;

pub const PANIC_MUL: u32 = 4;

pub const PANIC_DIV: u32 = 5;

/// A policy that decides when a search stops. The search reports each
/// finished iteration with `deepen`, announces each new search with
/// `initiate`, polls `abort` with the milliseconds spent so far, and calls
/// `clear` between searches. Each operation is a function of the
/// manager's state, which `state` names.
pub trait TimeManager: Sized {
    /// The manager's state as a mathematical value.
    type V;

    spec fn state(&self) -> Self::V;

    /// What every manager of the type keeps true of itself.
    spec fn wf(&self) -> bool;

    /// Whether an iteration of `depth` can be reported in state `v`.
    spec fn accepts(v: Self::V, depth: u32) -> bool;

    /// The state after an iteration of `depth` over `nodes` nodes that
    /// found `eval`.
    spec fn deepened(v: Self::V, depth: u32, nodes: u32, eval: Evaluation) -> Self::V;

    /// The state at the start of a search with `time_left` milliseconds on
    /// the clock and `move_cnt` legal moves.
    spec fn initiated(v: Self::V, time_left: u32, move_cnt: usize) -> Self::V;

    /// Whether a search that has run for `elapsed` milliseconds stops.
    spec fn aborts(v: Self::V, elapsed: u32) -> bool;

    /// The state between two searches.
    spec fn cleared(v: Self::V) -> Self::V;

    /// Whether the manager keeps true of itself what `wf` says.
    fn is_wf(&self) -> (r: bool)
        ensures
            r == self.wf(),
    ;

    /// Whether an iteration of `depth` can be reported now.
    fn can_deepen(&self, depth: u32) -> (r: bool)
        requires
            self.wf(),
        ensures
            r == Self::accepts(self.state(), depth),
    ;

    fn deepen(
        &mut self,
        thread: u8,
        depth: u32,
        nodes: u32,
        eval: Evaluation,
        best_move: Move,
        delta_time: u32,
    )
        requires
            old(self).wf(),
            Self::accepts(old(self).state(), depth),
        ensures
            final(self).wf(),
            final(self).state() == Self::deepened(old(self).state(), depth, nodes, eval),
    ;

    fn initiate(&mut self, time_left: u32, move_cnt: usize)
        requires
            old(self).wf(),
        ensures
            final(self).wf(),
            final(self).state() == Self::initiated(old(self).state(), time_left, move_cnt),
    ;

    fn abort(&self, elapsed: u32) -> (r: bool)
        requires
            self.wf(),
        ensures
            r == Self::aborts(self.state(), elapsed),
    ;

    fn clear(&mut self)
        requires
            old(self).wf(),
        ensures
            final(self).wf(),
            final(self).state() == Self::cleared(old(self).state()),
    ;
}

/// A share of something, as a fraction.
#[derive(Debug, Copy, Clone)]
pub struct Percentage {
    pub numerator: u32,
    pub denominator: u32,
}

/// Stops once an iteration of the target depth has finished.
#[derive(Debug, Clone, Copy, PartialEq, Eq, Structural)]
pub struct ConstDepth {
    pub current_depth: u32,
    pub depth: u32,
    pub abort: bool,
}

impl ConstDepth {
    pub fn new(depth: u32) -> (r: ConstDepth)
        ensures
            r == (ConstDepth { current_depth: 0, depth, abort: false }),
    {
        ConstDepth { current_depth: 0, depth, abort: false }
    }

    /// Sets the target depth; the search stops at once where it has
    /// reached it already.
    pub fn set_depth(&mut self, depth: u32)
        ensures
            *final(self) == (ConstDepth {
                current_depth: old(self).current_depth,
                depth,
                abort: old(self).current_depth >= depth,
            }),
    {
        self.depth = depth;
        self.update_abort();
    }

    fn update_abort(&mut self)
        ensures
            *final(self) == (ConstDepth {
                current_depth: old(self).current_depth,
                depth: old(self).depth,
                abort: old(self).current_depth >= old(self).depth,
            }),
    {
        self.abort = self.current_depth >= self.depth;
    }
}

impl TimeManager for ConstDepth {
    type V = ConstDepth;

    open spec fn state(&self) -> ConstDepth {
        *self
    }

    open spec fn wf(&self) -> bool {
        true
    }

    open spec fn accepts(v: ConstDepth, depth: u32) -> bool {
        true
    }

    open spec fn deepened(v: ConstDepth, depth: u32, nodes: u32, eval: Evaluation) -> ConstDepth {
        ConstDepth { current_depth: depth, depth: v.depth, abort: depth >= v.depth }
    }

    open spec fn initiated(v: ConstDepth, time_left: u32, move_cnt: usize) -> ConstDepth {
        v
    }

    open spec fn aborts(v: ConstDepth, elapsed: u32) -> bool {
        v.abort
    }

    open spec fn cleared(v: ConstDepth) -> ConstDepth {
        ConstDepth { current_depth: 0, depth: v.depth, abort: false }
    }

    fn is_wf(&self) -> (r: bool) {
        true
    }

    fn can_deepen(&self, depth: u32) -> (r: bool) {
        true
    }

    fn deepen(
        &mut self,
        thread: u8,
        depth: u32,
        nodes: u32,
        eval: Evaluation,
        best_move: Move,
        delta_time: u32,
    ) {
        self.current_depth = depth;
        self.update_abort();
    }

    fn initiate(&mut self, time_left: u32, move_cnt: usize) {
    }

    fn abort(&self, elapsed: u32) -> (r: bool) {
        self.abort
    }

    fn clear(&mut self) {
        self.abort = false;
        self.current_depth = 0;
    }
}

/// Stops once the search has run longer than the target time.
#[derive(Debug, Clone, Copy, PartialEq, Eq, Structural)]
pub struct ConstTime {
    pub target_duration: u32,
}

impl ConstTime {
    pub fn new(target_duration: u32) -> (r: ConstTime)
        ensures
            r.target_duration == target_duration,
    {
        ConstTime { target_duration }
    }

    pub fn set_duration(&mut self, duration: u32)
        ensures
            final(self).target_duration == duration,
    {
        self.target_duration = duration;
    }
}

impl TimeManager for ConstTime {
    type V = ConstTime;

    open spec fn state(&self) -> ConstTime {
        *self
    }

    open spec fn wf(&self) -> bool {
        true
    }

    open spec fn accepts(v: ConstTime, depth: u32) -> bool {
        true
    }

    open spec fn deepened(v: ConstTime, depth: u32, nodes: u32, eval: Evaluation) -> ConstTime {
        v
    }

    open spec fn initiated(v: ConstTime, time_left: u32, move_cnt: usize) -> ConstTime {
        v
    }

    open spec fn aborts(v: ConstTime, elapsed: u32) -> bool {
        v.target_duration < elapsed
    }

    open spec fn cleared(v: ConstTime) -> ConstTime {
        ConstTime { target_duration: u32::MAX }
    }

    fn is_wf(&self) -> (r: bool) {
        true
    }

    fn can_deepen(&self, depth: u32) -> (r: bool) {
        true
    }

    fn deepen(
        &mut self,
        thread: u8,
        depth: u32,
        nodes: u32,
        eval: Evaluation,
        best_move: Move,
        delta_time: u32,
    ) {
    }

    fn initiate(&mut self, time_left: u32, move_cnt: usize) {
    }

    fn abort(&self, elapsed: u32) -> (r: bool) {
        self.target_duration < elapsed
    }

    fn clear(&mut self) {
        self.target_duration = u32::MAX;
    }
}

/// Stops when told to, until the next search starts or the manager is
/// cleared.
#[derive(Debug, Clone, Copy, PartialEq, Eq, Structural)]
pub struct ManualAbort {
    pub abort: bool,
}

impl ManualAbort {
    pub fn new() -> (r: ManualAbort)
        ensures
            !r.abort,
    {
        ManualAbort { abort: false }
    }

    /// Makes the search stop at its next poll.
    pub fn quick_abort(&mut self)
        ensures
            final(self).abort,
    {
        self.abort = true;
    }
}

impl TimeManager for ManualAbort {
    type V = ManualAbort;

    open spec fn state(&self) -> ManualAbort {
        *self
    }

    open spec fn wf(&self) -> bool {
        true
    }

    open spec fn accepts(v: ManualAbort, depth: u32) -> bool {
        true
    }

    open spec fn deepened(v: ManualAbort, depth: u32, nodes: u32, eval: Evaluation) -> ManualAbort {
        v
    }

    open spec fn initiated(v: ManualAbort, time_left: u32, move_cnt: usize) -> ManualAbort {
        ManualAbort { abort: false }
    }

    open spec fn aborts(v: ManualAbort, elapsed: u32) -> bool {
        v.abort
    }

    open spec fn cleared(v: ManualAbort) -> ManualAbort {
        ManualAbort { abort: false }
    }

    fn is_wf(&self) -> (r: bool) {
        true
    }

    fn can_deepen(&self, depth: u32) -> (r: bool) {
        true
    }

    fn deepen(
        &mut self,
        thread: u8,
        depth: u32,
        nodes: u32,
        eval: Evaluation,
        best_move: Move,
        delta_time: u32,
    ) {
    }

    fn initiate(&mut self, time_left: u32, move_cnt: usize) {
        self.abort = false;
    }

    fn abort(&self, elapsed: u32) -> (r: bool) {
        self.abort
    }

    fn clear(&mut self) {
        self.abort = false;
    }
}

/// Whether `r` is the square root of `n`, rounded down.
pub open spec fn is_sqrt_of(r: int, n: int) -> bool {
    0 <= r && r * r <= n < (r + 1) * (r + 1)
}

/// The square root of `n`, rounded down.
pub open spec fn int_sqrt(n: int) -> int {
    choose|r: int| is_sqrt_of(r, n)
}

/// A number has one rounded-down square root at most.
pub proof fn lemma_sqrt_unique(a: int, b: int, n: int)
    requires
        is_sqrt_of(a, n),
        is_sqrt_of(b, n),
    ensures
        a == b,
{
    if a < b {
        assert((a + 1) * (a + 1) <= b * b) by (nonlinear_arith)
            requires
                0 <= a,
                a + 1 <= b,
        ;
    } else if b < a {
        assert((b + 1) * (b + 1) <= a * a) by (nonlinear_arith)
            requires
                0 <= b,
                b + 1 <= a,
        ;
    }
}

/// The square root of `n`, rounded down.
pub fn isqrt(n: u128) -> (r: u64)
    ensures
        is_sqrt_of(r as int, n as int),
        r == int_sqrt(n as int),
{
    let mut lo: u128 = 0;
    let mut hi: u128 = 0x1_0000_0000_0000_0000;
    assert(0x1_0000_0000_0000_0000int * 0x1_0000_0000_0000_0000int > u128::MAX);
    while hi - lo > 1
        invariant
            lo < hi <= 0x1_0000_0000_0000_0000,
            lo * lo <= n < hi * hi,
        decreases hi - lo,
    {
        let mid: u128 = lo + (hi - lo) / 2;
        assert(mid * mid <= 0xffff_ffff_ffff_ffff * 0xffff_ffff_ffff_ffff) by (nonlinear_arith)
            requires
                0 <= mid <= 0xffff_ffff_ffff_ffff,
        ;
        assert(0xffff_ffff_ffff_ffffint * 0xffff_ffff_ffff_ffffint <= u128::MAX);
        if mid * mid <= n {
            lo = mid;
        } else {
            hi = mid;
        }
    }
    proof {
        assert(hi == lo + 1);
        let r = choose|r: int| is_sqrt_of(r, n as int);
        lemma_sqrt_unique(lo as int, r, n as int);
    }
    lo as u64
}

/// The weights of the first `n` recorded evaluations, added up.
pub open spec fn total_weight(evals: Seq<(i32, u32)>, n: int) -> int
    decreases n,
{
    if n <= 0 {
        0
    } else {
        total_weight(evals, n - 1) + evals[n - 1].1
    }
}

/// The squared distances of the first `n` recorded evaluations from
/// `center`, each taken as often as its weight says, added up.
pub open spec fn spread(evals: Seq<(i32, u32)>, center: int, n: int) -> int
    decreases n,
{
    if n <= 0 {
        0
    } else {
        spread(evals, center, n - 1) + evals[n - 1].1 * ((evals[n - 1].0 - center) * (evals[n
            - 1].0 - center))
    }
}

/// The weighted mean of the squared distances of the recorded evaluations
/// from `center`, rounded down. A record without weight, as at the
/// first iteration of a search, has spread over nothing: its variance is 0.
pub open spec fn variance_about(evals: Seq<(i32, u32)>, center: int) -> int {
    if total_weight(evals, evals.len() as int) > 0 {
        spread(evals, center, evals.len() as int) / total_weight(evals, evals.len() as int)
    } else {
        0
    }
}

/// The time for a search whose root evaluations have spread with
/// `variance`: the normal time where the standard deviation is no more
/// than `NORMAL_STD_DEV`, else the normal time stretched in proportion to
/// the standard deviation, rounded down and kept within 32 bits.
pub open spec fn stretched(normal: int, variance: int) -> int {
    if variance >= NORMAL_STD_DEV * NORMAL_STD_DEV {
        let exact = int_sqrt((normal * normal * variance) / (NORMAL_STD_DEV * NORMAL_STD_DEV));
        if exact > u32::MAX {
            u32::MAX as int
        } else {
            exact
        }
    } else {
        normal
    }
}

/// The state of the main manager.
pub struct MainState {
    pub expected_moves: u32,
    pub evals: Seq<(i32, u32)>,
    pub normal_duration: u32,
    pub max_duration: u32,
    pub target_duration: u32,
}

impl MainState {
    /// The target lies between the normal time and the most that a search
    /// may take.
    pub open spec fn in_budget(self) -> bool {
        self.normal_duration <= self.target_duration <= self.max_duration
    }
}

/// The time that is shared out among the moves to come: what is left but
/// the reserve, or a fifth of it where that is more.
pub open spec fn panic_budget(time_left: u32) -> int {
    let spare = if time_left > PANIC_TIME {
        time_left - PANIC_TIME
    } else {
        0
    };
    let share = time_left * (PANIC_DIV - PANIC_MUL) / (PANIC_DIV as int);
    if spare > share {
        spare
    } else {
        share
    }
}

/// Shares the clock out over the moves that the game is expected to last,
/// and takes longer where the evaluation at the root keeps changing from
/// one iteration to the next.
#[derive(Debug, Clone)]
pub struct MainTimeManager {
    pub expected_moves: u32,
    pub evals: Vec<(i32, u32)>,
    pub normal_duration: u32,
    pub max_duration: u32,
    pub target_duration: u32,
}

impl MainTimeManager {
    pub fn new() -> (r: MainTimeManager)
        ensures
            r.wf(),
            r.state() == (MainState {
                expected_moves: EXPECTED_MOVES,
                evals: Seq::empty(),
                normal_duration: 0,
                max_duration: 0,
                target_duration: 0,
            }),
    {
        MainTimeManager {
            expected_moves: EXPECTED_MOVES,
            evals: Vec::new(),
            normal_duration: 0,
            max_duration: 0,
            target_duration: 0,
        }
    }

    /// The total weight of the recorded evaluations, and their spread
    /// about `center`.
    fn weigh(&self, center: i32) -> (r: (u64, u128))
        requires
            self.evals@.len() <= u32::MAX,
        ensures
            r.0 == total_weight(self.evals@, self.evals@.len() as int),
            r.1 == spread(self.evals@, center as int, self.evals@.len() as int),
            r.1 <= self.evals@.len() * 0x1_0000_0000_0000_0000_0000_0000,
    {
        let mut total: u64 = 0;
        let mut sum: u128 = 0;
        let mut i: usize = 0;
        while i < self.evals.len()
            invariant
                i <= self.evals@.len() <= u32::MAX,
                total == total_weight(self.evals@, i as int),
                sum == spread(self.evals@, center as int, i as int),
                total <= i * 0x1_0000_0000,
                sum <= i * 0x1_0000_0000_0000_0000_0000_0000,
            decreases self.evals@.len() - i,
        {
            let (eval, weight): (i32, u32) = self.evals[i];
            let diff: i64 = eval as i64 - center as i64;
            let dist: u128 = if diff < 0 {
                (-diff) as u128
            } else {
                diff as u128
            };
            assert(dist * dist == (eval - center) * (eval - center)) by (nonlinear_arith)
                requires
                    dist == eval - center || dist == -(eval - center),
            ;
            assert(dist * dist <= 0x1_0000_0000 * 0x1_0000_0000) by (nonlinear_arith)
                requires
                    0 <= dist <= 0x1_0000_0000,
            ;
            let square: u128 = dist * dist;
            assert(weight * square <= 0x1_0000_0000 * 0x1_0000_0000_0000_0000) by (nonlinear_arith)
                requires
                    0 <= weight <= 0x1_0000_0000,
                    0 <= square <= 0x1_0000_0000_0000_0000,
            ;
            assert((i + 1) * 0x1_0000_0000_0000_0000_0000_0000 <= 0x1_0000_0000
                * 0x1_0000_0000_0000_0000_0000_0000) by (nonlinear_arith)
                requires
                    i + 1 <= 0x1_0000_0000,
            ;
            assert((i + 1) * 0x1_0000_0000 <= 0xffff_ffff * 0x1_0000_0000) by (nonlinear_arith)
                requires
                    i + 1 <= 0xffff_ffff,
            ;
            total = total + weight as u64;
            sum = sum + weight as u128 * square;
            i += 1;
        }
        (total, sum)
    }

    /// The time for a search whose root evaluations have spread with
    /// `variance`.
    fn stretch(normal: u32, variance: u128) -> (r: u32)
        requires
            variance <= 0x1_0000_0000_0000_0000,
        ensures
            r == stretched(normal as int, variance as int),
            r >= normal,
    {
        if variance >= 100 {
            let n: u128 = normal as u128;
            assert(n * n <= 0xffff_ffff * 0xffff_ffff) by (nonlinear_arith)
                requires
                    0 <= n <= 0xffff_ffff,
            ;
            assert(n * n * variance <= 0xffff_ffff * 0xffff_ffff * 0x1_0000_0000_0000_0000)
                by (nonlinear_arith)
                requires
                    0 <= n * n <= 0xffff_ffff * 0xffff_ffff,
                    0 <= variance <= 0x1_0000_0000_0000_0000,
            ;
            let scaled: u128 = n * n * variance / 100;
            let exact: u64 = isqrt(scaled);
            proof {
                // The stretched time is no less than the normal time.
                assert(n * n * variance >= n * n * 100) by (nonlinear_arith)
                    requires
                        variance >= 100,
                        n * n >= 0,
                ;
                assert(scaled >= n * n);
                if exact < n {
                    assert((exact + 1) * (exact + 1) <= n * n) by (nonlinear_arith)
                        requires
                            0 <= exact,
                            exact + 1 <= n,
                    ;
                }
            }
            if exact > 0xffff_ffff {
                0xffff_ffff
            } else {
                exact as u32
            }
        } else {
            normal
        }
    }
}

impl TimeManager for MainTimeManager {
    type V = MainState;

    open spec fn state(&self) -> MainState {
        MainState {
            expected_moves: self.expected_moves,
            evals: self.evals@,
            normal_duration: self.normal_duration,
            max_duration: self.max_duration,
            target_duration: self.target_duration,
        }
    }

    /// The game is expected to last `MIN_MOVES` more moves at least, and
    /// the record of evaluations has a length that fits 32 bits.
    open spec fn wf(&self) -> bool {
        self.expected_moves >= MIN_MOVES && self.evals@.len() <= u32::MAX
    }

    /// The square of the depth fits 32 bits, and there is room for one
    /// more evaluation.
    open spec fn accepts(v: MainState, depth: u32) -> bool {
        &&& depth < 65536
        &&& v.evals.len() < u32::MAX
    }

    open spec fn deepened(v: MainState, depth: u32, nodes: u32, eval: Evaluation) -> MainState {
        let wanted = stretched(
            v.normal_duration as int,
            variance_about(v.evals, eval.value()),
        );
        MainState {
            expected_moves: v.expected_moves,
            evals: v.evals.push((eval.value() as i32, (depth * depth) as u32)),
            normal_duration: v.normal_duration,
            max_duration: v.max_duration,
            target_duration: if depth > 4 {
                if wanted < v.max_duration {
                    wanted as u32
                } else {
                    v.max_duration
                }
            } else {
                v.target_duration
            },
        }
    }

    open spec fn initiated(v: MainState, time_left: u32, move_cnt: usize) -> MainState {
        let normal = (panic_budget(time_left) / (v.expected_moves as int)) as u32;
        MainState {
            expected_moves: v.expected_moves,
            evals: v.evals,
            normal_duration: normal,
            max_duration: (time_left * 2 / 3) as u32,
            target_duration: if move_cnt <= 1 {
                0
            } else {
                normal
            },
        }
    }

    open spec fn aborts(v: MainState, elapsed: u32) -> bool {
        v.target_duration < elapsed
    }

    open spec fn cleared(v: MainState) -> MainState {
        MainState {
            expected_moves: if v.expected_moves > MIN_MOVES {
                (v.expected_moves - 1) as u32
            } else {
                MIN_MOVES
            },
            evals: Seq::empty(),
            normal_duration: v.normal_duration,
            max_duration: v.max_duration,
            target_duration: v.target_duration,
        }
    }

    fn is_wf(&self) -> (r: bool) {
        self.expected_moves >= MIN_MOVES && self.evals.len() <= 0xffff_ffff
    }

    fn can_deepen(&self, depth: u32) -> (r: bool) {
        depth < 65536 && self.evals.len() < 0xffff_ffff
    }

    fn deepen(
        &mut self,
        thread: u8,
        depth: u32,
        nodes: u32,
        eval: Evaluation,
        best_move: Move,
        delta_time: u32,
    ) {
        assert(depth * depth <= 65535 * 65535) by (nonlinear_arith)
            requires
                0 <= depth <= 65535,
        ;
        let weight: u32 = depth * depth;
        if depth > 4 {
            let (total, sum): (u64, u128) = self.weigh(eval.raw());
            let variance: u128 = if total > 0 {
                sum / (total as u128)
            } else {
                0
            };
            proof {
                lemma_mean_within(self.evals@, eval.value(), self.evals@.len() as int);
                if total > 0 {
                    assert(variance <= 0x1_0000_0000 * 0x1_0000_0000) by (nonlinear_arith)
                        requires
                            variance == sum / (total as u128),
                            total > 0,
                            sum <= total * (0x1_0000_0000 * 0x1_0000_0000),
                    ;
                }
            }
            let wanted: u32 = Self::stretch(self.normal_duration, variance);
            self.target_duration = if wanted < self.max_duration {
                wanted
            } else {
                self.max_duration
            };
        }
        self.evals.push((eval.raw(), weight));
        assert(self.state().evals =~= Self::deepened(old(self).state(), depth, nodes, eval).evals);
    }

    fn initiate(&mut self, time_left: u32, move_cnt: usize) {
        let spare: u32 = if time_left > PANIC_TIME {
            time_left - PANIC_TIME
        } else {
            0
        };
        let part: u64 = (PANIC_DIV - PANIC_MUL) as u64;
        assert(part == 1);
        let share: u32 = (time_left as u64 * part / PANIC_DIV as u64) as u32;
        let time_left_for_panic: u32 = if spare > share {
            spare
        } else {
            share
        };
        let percentage_time: u32 = time_left_for_panic / self.expected_moves;
        self.normal_duration = percentage_time;
        self.target_duration = if move_cnt <= 1 {
            0
        } else {
            percentage_time
        };
        self.max_duration = (time_left as u64 * 2 / 3) as u32;
    }

    fn abort(&self, elapsed: u32) -> (r: bool) {
        self.target_duration < elapsed
    }

    fn clear(&mut self) {
        self.evals.clear();
        self.expected_moves = if self.expected_moves > MIN_MOVES {
            self.expected_moves - 1
        } else {
            MIN_MOVES
        };
        assert(self.state().evals =~= Seq::<(i32, u32)>::empty());
    }
}

/// Neither a spread nor a total weight is negative.
proof fn lemma_spread_positive(evals: Seq<(i32, u32)>, center: int, n: int)
    requires
        0 <= n <= evals.len(),
    ensures
        0 <= spread(evals, center, n),
        0 <= total_weight(evals, n),
    decreases n,
{
    if n > 0 {
        lemma_spread_positive(evals, center, n - 1);
        let d = evals[n - 1].0 - center;
        let w = evals[n - 1].1 as int;
        assert(0 <= w * (d * d)) by (nonlinear_arith)
            requires
                0 <= w,
        ;
    }
}

/// A spread is no more than the total weight times the largest squared
/// distance that two 32-bit numbers can have.
proof fn lemma_mean_within(evals: Seq<(i32, u32)>, center: int, n: int)
    requires
        0 <= n <= evals.len(),
        i32::MIN <= center <= i32::MAX,
    ensures
        0 <= spread(evals, center, n) <= total_weight(evals, n) * (0x1_0000_0000 * 0x1_0000_0000),
        0 <= total_weight(evals, n),
    decreases n,
{
    if n > 0 {
        lemma_mean_within(evals, center, n - 1);
        let d = evals[n - 1].0 - center;
        let w = evals[n - 1].1 as int;
        assert(0 <= d * d <= 0x1_0000_0000 * 0x1_0000_0000) by (nonlinear_arith)
            requires
                -0x1_0000_0000 <= d <= 0x1_0000_0000,
        ;
        assert(0 <= w * (d * d) <= w * (0x1_0000_0000 * 0x1_0000_0000)) by (nonlinear_arith)
            requires
                0 <= w,
                0 <= d * d <= 0x1_0000_0000 * 0x1_0000_0000,
        ;
        assert((total_weight(evals, n - 1) + w) * (0x1_0000_0000 * 0x1_0000_0000) == total_weight(
            evals,
            n - 1,
        ) * (0x1_0000_0000 * 0x1_0000_0000) + w * (0x1_0000_0000 * 0x1_0000_0000))
            by (nonlinear_arith);
    }
}

/// Every number that is not negative has a rounded-down square root.
pub proof fn lemma_sqrt_exists(n: int) -> (r: int)
    requires
        0 <= n,
    ensures
        is_sqrt_of(r, n),
        r == int_sqrt(n),
    decreases n,
{
    let r = if n == 0 {
        0
    } else {
        let below = lemma_sqrt_exists(n - 1);
        if (below + 1) * (below + 1) <= n {
            assert((below + 2) * (below + 2) > (below + 1) * (below + 1)) by (nonlinear_arith)
                requires
                    below >= 0,
            ;
            below + 1
        } else {
            below
        }
    };
    lemma_sqrt_unique(r, int_sqrt(n), n);
    r
}

/// A stretched time is no less than the normal time.
pub proof fn lemma_stretched_is_longer(normal: int, variance: int)
    requires
        0 <= normal <= u32::MAX,
        0 <= variance,
    ensures
        normal <= stretched(normal, variance) <= u32::MAX,
{
    if variance >= 100 {
        let scaled = (normal * normal * variance) / 100;
        assert(normal * normal * variance >= normal * normal * 100) by (nonlinear_arith)
            requires
                variance >= 100,
        ;
        assert(normal * normal >= 0) by (nonlinear_arith);
        assert(scaled >= normal * normal);
        let exact = lemma_sqrt_exists(scaled);
        if exact < normal {
            assert((exact + 1) * (exact + 1) <= normal * normal) by (nonlinear_arith)
                requires
                    0 <= exact,
                    exact + 1 <= normal,
            ;
        }
    }
}

/// At the start of a search with more than one legal move the target is
/// the normal time, and the normal time is no more than the most that the
/// search may take.
pub proof fn lemma_initiate_sets_budget(v: MainState, time_left: u32, move_cnt: usize)
    requires
        v.expected_moves >= MIN_MOVES,
        move_cnt > 1,
    ensures
        MainTimeManager::initiated(v, time_left, move_cnt).in_budget(),
{
    let budget = panic_budget(time_left);
    assert(0 <= budget <= time_left);
    let e = v.expected_moves as int;
    assert(budget / e <= time_left / 25) by (nonlinear_arith)
        requires
            0 <= budget <= time_left,
            e >= 25,
    ;
}

/// An iteration of any depth with any evaluation leaves the normal time
/// and the most that the search may take as they are, and the target
/// between them.
pub proof fn lemma_deepen_keeps_budget(v: MainState, depth: u32, nodes: u32, eval: Evaluation)
    requires
        v.in_budget(),
    ensures
        MainTimeManager::deepened(v, depth, nodes, eval).in_budget(),
        MainTimeManager::deepened(v, depth, nodes, eval).normal_duration == v.normal_duration,
        MainTimeManager::deepened(v, depth, nodes, eval).max_duration == v.max_duration,
{
    if depth > 4 {
        let total = total_weight(v.evals, v.evals.len() as int);
        lemma_spread_positive(v.evals, eval.value(), v.evals.len() as int);
        let variance = variance_about(v.evals, eval.value());
        if total > 0 {
            assert(variance >= 0) by (nonlinear_arith)
                requires
                    variance == spread(v.evals, eval.value(), v.evals.len() as int) / total,
                    spread(v.evals, eval.value(), v.evals.len() as int) >= 0,
                    total > 0,
            ;
        }
        lemma_stretched_is_longer(v.normal_duration as int, variance);
    }
}

/// The first iteration of a search takes the normal time, whatever its
/// depth: nothing is recorded yet that the evaluation could differ from.
pub proof fn lemma_first_iteration_takes_normal_time(
    v: MainState,
    depth: u32,
    nodes: u32,
    eval: Evaluation,
)
    requires
        v.in_budget(),
        v.evals.len() == 0,
        depth > 4,
    ensures
        MainTimeManager::deepened(v, depth, nodes, eval).target_duration == v.normal_duration,
{
}

/// Clearing changes none of the three times.
pub proof fn lemma_clear_keeps_budget(v: MainState)
    requires
        v.in_budget(),
    ensures
        MainTimeManager::cleared(v).in_budget(),
{
}

/// One of the four managers that decide by themselves.
#[derive(Debug, Clone)]
pub enum Manager {
    ConstDepth(ConstDepth),
    ConstTime(ConstTime),
    Main(MainTimeManager),
    Manual(ManualAbort),
}

/// The state of one of the four managers.
pub enum ManagerState {
    ConstDepth(ConstDepth),
    ConstTime(ConstTime),
    Main(MainState),
    Manual(ManualAbort),
}

impl TimeManager for Manager {
    type V = ManagerState;

    open spec fn state(&self) -> ManagerState {
        match self {
            Manager::ConstDepth(m) => ManagerState::ConstDepth(m.state()),
            Manager::ConstTime(m) => ManagerState::ConstTime(m.state()),
            Manager::Main(m) => ManagerState::Main(m.state()),
            Manager::Manual(m) => ManagerState::Manual(m.state()),
        }
    }

    open spec fn wf(&self) -> bool {
        match self {
            Manager::ConstDepth(m) => m.wf(),
            Manager::ConstTime(m) => m.wf(),
            Manager::Main(m) => m.wf(),
            Manager::Manual(m) => m.wf(),
        }
    }

    open spec fn accepts(v: ManagerState, depth: u32) -> bool {
        match v {
            ManagerState::ConstDepth(s) => ConstDepth::accepts(s, depth),
            ManagerState::ConstTime(s) => ConstTime::accepts(s, depth),
            ManagerState::Main(s) => MainTimeManager::accepts(s, depth),
            ManagerState::Manual(s) => ManualAbort::accepts(s, depth),
        }
    }

    open spec fn deepened(v: ManagerState, depth: u32, nodes: u32, eval: Evaluation) -> ManagerState {
        match v {
            ManagerState::ConstDepth(s) => ManagerState::ConstDepth(
                ConstDepth::deepened(s, depth, nodes, eval),
            ),
            ManagerState::ConstTime(s) => ManagerState::ConstTime(
                ConstTime::deepened(s, depth, nodes, eval),
            ),
            ManagerState::Main(s) => ManagerState::Main(
                MainTimeManager::deepened(s, depth, nodes, eval),
            ),
            ManagerState::Manual(s) => ManagerState::Manual(
                ManualAbort::deepened(s, depth, nodes, eval),
            ),
        }
    }

    open spec fn initiated(v: ManagerState, time_left: u32, move_cnt: usize) -> ManagerState {
        match v {
            ManagerState::ConstDepth(s) => ManagerState::ConstDepth(
                ConstDepth::initiated(s, time_left, move_cnt),
            ),
            ManagerState::ConstTime(s) => ManagerState::ConstTime(
                ConstTime::initiated(s, time_left, move_cnt),
            ),
            ManagerState::Main(s) => ManagerState::Main(
                MainTimeManager::initiated(s, time_left, move_cnt),
            ),
            ManagerState::Manual(s) => ManagerState::Manual(
                ManualAbort::initiated(s, time_left, move_cnt),
            ),
        }
    }

    open spec fn aborts(v: ManagerState, elapsed: u32) -> bool {
        match v {
            ManagerState::ConstDepth(s) => ConstDepth::aborts(s, elapsed),
            ManagerState::ConstTime(s) => ConstTime::aborts(s, elapsed),
            ManagerState::Main(s) => MainTimeManager::aborts(s, elapsed),
            ManagerState::Manual(s) => ManualAbort::aborts(s, elapsed),
        }
    }

    open spec fn cleared(v: ManagerState) -> ManagerState {
        match v {
            ManagerState::ConstDepth(s) => ManagerState::ConstDepth(ConstDepth::cleared(s)),
            ManagerState::ConstTime(s) => ManagerState::ConstTime(ConstTime::cleared(s)),
            ManagerState::Main(s) => ManagerState::Main(MainTimeManager::cleared(s)),
            ManagerState::Manual(s) => ManagerState::Manual(ManualAbort::cleared(s)),
        }
    }

    fn is_wf(&self) -> (r: bool) {
        match self {
            Manager::ConstDepth(m) => m.is_wf(),
            Manager::ConstTime(m) => m.is_wf(),
            Manager::Main(m) => m.is_wf(),
            Manager::Manual(m) => m.is_wf(),
        }
    }

    fn can_deepen(&self, depth: u32) -> (r: bool) {
        match self {
            Manager::ConstDepth(m) => m.can_deepen(depth),
            Manager::ConstTime(m) => m.can_deepen(depth),
            Manager::Main(m) => m.can_deepen(depth),
            Manager::Manual(m) => m.can_deepen(depth),
        }
    }

    fn deepen(
        &mut self,
        thread: u8,
        depth: u32,
        nodes: u32,
        eval: Evaluation,
        best_move: Move,
        delta_time: u32,
    ) {
        match self {
            Manager::ConstDepth(m) => m.deepen(thread, depth, nodes, eval, best_move, delta_time),
            Manager::ConstTime(m) => m.deepen(thread, depth, nodes, eval, best_move, delta_time),
            Manager::Main(m) => m.deepen(thread, depth, nodes, eval, best_move, delta_time),
            Manager::Manual(m) => m.deepen(thread, depth, nodes, eval, best_move, delta_time),
        }
    }

    fn initiate(&mut self, time_left: u32, move_cnt: usize) {
        match self {
            Manager::ConstDepth(m) => m.initiate(time_left, move_cnt),
            Manager::ConstTime(m) => m.initiate(time_left, move_cnt),
            Manager::Main(m) => m.initiate(time_left, move_cnt),
            Manager::Manual(m) => m.initiate(time_left, move_cnt),
        }
    }

    fn abort(&self, elapsed: u32) -> (r: bool) {
        match self {
            Manager::ConstDepth(m) => m.abort(elapsed),
            Manager::ConstTime(m) => m.abort(elapsed),
            Manager::Main(m) => m.abort(elapsed),
            Manager::Manual(m) => m.abort(elapsed),
        }
    }

    fn clear(&mut self) {
        match self {
            Manager::ConstDepth(m) => m.clear(),
            Manager::ConstTime(m) => m.clear(),
            Manager::Main(m) => m.clear(),
            Manager::Manual(m) => m.clear(),
        }
    }
}

/// The state of a compound manager: the states of its managers, and which
/// of them decides.
pub struct CompoundState<V> {
    pub managers: Seq<V>,
    pub mode: usize,
}

/// Several managers, one of which decides at a time.
#[derive(Debug)]
pub struct CompoundTimeManager<M: TimeManager> {
    pub managers: Vec<M>,
    pub mode: usize,
}

impl<M: TimeManager> CompoundTimeManager<M> {
    pub fn new(managers: Vec<M>, initial_mode: usize) -> (r: CompoundTimeManager<M>)
        requires
            initial_mode < managers@.len(),
            forall|i: int| 0 <= i < managers@.len() ==> (#[trigger] managers@[i]).wf(),
        ensures
            r.wf(),
            r.managers == managers,
            r.mode == initial_mode,
    {
        CompoundTimeManager { managers, mode: initial_mode }
    }

    /// Hands the decisions to the manager with index `mode`.
    pub fn set_mode(&mut self, mode: usize)
        requires
            old(self).wf(),
            mode < old(self).managers@.len(),
        ensures
            final(self).wf(),
            final(self).managers == old(self).managers,
            final(self).mode == mode,
    {
        self.mode = mode;
    }
}

impl<M: TimeManager> TimeManager for CompoundTimeManager<M> {
    type V = CompoundState<M::V>;

    open spec fn state(&self) -> CompoundState<M::V> {
        CompoundState {
            managers: Seq::new(self.managers@.len(), |i: int| self.managers@[i].state()),
            mode: self.mode,
        }
    }

    /// Each manager is well formed, and the mode names one of them.
    open spec fn wf(&self) -> bool {
        &&& self.mode < self.managers@.len()
        &&& forall|i: int| 0 <= i < self.managers@.len() ==> (#[trigger] self.managers@[i]).wf()
    }

    open spec fn accepts(v: CompoundState<M::V>, depth: u32) -> bool {
        M::accepts(v.managers[v.mode as int], depth)
    }

    open spec fn deepened(
        v: CompoundState<M::V>,
        depth: u32,
        nodes: u32,
        eval: Evaluation,
    ) -> CompoundState<M::V> {
        CompoundState {
            managers: v.managers.update(
                v.mode as int,
                M::deepened(v.managers[v.mode as int], depth, nodes, eval),
            ),
            mode: v.mode,
        }
    }

    open spec fn initiated(v: CompoundState<M::V>, time_left: u32, move_cnt: usize) -> CompoundState<
        M::V,
    > {
        CompoundState {
            managers: v.managers.update(
                v.mode as int,
                M::initiated(v.managers[v.mode as int], time_left, move_cnt),
            ),
            mode: v.mode,
        }
    }

    open spec fn aborts(v: CompoundState<M::V>, elapsed: u32) -> bool {
        M::aborts(v.managers[v.mode as int], elapsed)
    }

    open spec fn cleared(v: CompoundState<M::V>) -> CompoundState<M::V> {
        CompoundState {
            managers: Seq::new(v.managers.len(), |i: int| M::cleared(v.managers[i])),
            mode: v.mode,
        }
    }

    fn is_wf(&self) -> (r: bool) {
        if self.mode >= self.managers.len() {
            return false;
        }
        let mut i: usize = 0;
        while i < self.managers.len()
            invariant
                i <= self.managers@.len(),
                self.mode < self.managers@.len(),
                forall|k: int| 0 <= k < i ==> (#[trigger] self.managers@[k]).wf(),
            decreases self.managers@.len() - i,
        {
            if !self.managers[i].is_wf() {
                return false;
            }
            i += 1;
        }
        true
    }

    fn can_deepen(&self, depth: u32) -> (r: bool) {
        self.managers[self.mode].can_deepen(depth)
    }

    fn deepen(
        &mut self,
        thread: u8,
        depth: u32,
        nodes: u32,
        eval: Evaluation,
        best_move: Move,
        delta_time: u32,
    ) {
        let mode: usize = self.mode;
        assert(self.state().managers[mode as int] == self.managers@[mode as int].state());
        self.managers[mode].deepen(thread, depth, nodes, eval, best_move, delta_time);
        assert(self.state().managers =~= Self::deepened(
            old(self).state(),
            depth,
            nodes,
            eval,
        ).managers);
    }

    fn initiate(&mut self, time_left: u32, move_cnt: usize) {
        let mode: usize = self.mode;
        self.managers[mode].initiate(time_left, move_cnt);
        assert(self.state().managers =~= Self::initiated(
            old(self).state(),
            time_left,
            move_cnt,
        ).managers);
    }

    fn abort(&self, elapsed: u32) -> (r: bool) {
        self.managers[self.mode].abort(elapsed)
    }

    fn clear(&mut self) {
        let mut i: usize = 0;
        while i < self.managers.len()
            invariant
                i <= self.managers@.len(),
                self.managers@.len() == old(self).managers@.len(),
                self.mode == old(self).mode,
                self.mode < self.managers@.len(),
                forall|k: int| 0 <= k < self.managers@.len() ==> (#[trigger] self.managers@[k]).wf(),
                forall|k: int|
                    0 <= k < i ==> (#[trigger] self.managers@[k]).state() == M::cleared(
                        old(self).managers@[k].state(),
                    ),
                forall|k: int|
                    i <= k < self.managers@.len() ==> (#[trigger] self.managers@[k]) == old(
                        self,
                    ).managers@[k],
            decreases self.managers@.len() - i,
        {
            self.managers[i].clear();
            i += 1;
        }
        assert(self.state().managers =~= Self::cleared(old(self).state()).managers);
    }
}

/// The state of a manager that keeps a record beside the manager it wraps.
pub struct DiagnosticsState<V> {
    pub manager: V,
    pub data: Seq<(u32, u32)>,
}

/// Wraps a manager and records the nodes and the depth of each iteration.
#[derive(Debug)]
pub struct Diagnostics<Inner: TimeManager> {
    pub manager: Inner,
    pub data: Vec<(u32, u32)>,
}

impl<Inner: TimeManager> Diagnostics<Inner> {
    pub fn new(manager: Inner) -> (r: Diagnostics<Inner>)
        requires
            manager.wf(),
        ensures
            r.wf(),
            r.manager == manager,
            r.data@ == Seq::<(u32, u32)>::empty(),
    {
        Diagnostics { manager, data: Vec::new() }
    }

    /// The nodes and depth of each iteration so far.
    pub fn get_data(&self) -> (r: &Vec<(u32, u32)>)
        ensures
            r@ == self.data@,
    {
        &self.data
    }
}

impl<Inner: TimeManager> TimeManager for Diagnostics<Inner> {
    type V = DiagnosticsState<Inner::V>;

    open spec fn state(&self) -> DiagnosticsState<Inner::V> {
        DiagnosticsState { manager: self.manager.state(), data: self.data@ }
    }

    open spec fn wf(&self) -> bool {
        self.manager.wf()
    }

    open spec fn accepts(v: DiagnosticsState<Inner::V>, depth: u32) -> bool {
        Inner::accepts(v.manager, depth)
    }

    open spec fn deepened(
        v: DiagnosticsState<Inner::V>,
        depth: u32,
        nodes: u32,
        eval: Evaluation,
    ) -> DiagnosticsState<Inner::V> {
        DiagnosticsState {
            manager: Inner::deepened(v.manager, depth, nodes, eval),
            data: v.data.push((nodes, depth)),
        }
    }

    open spec fn initiated(
        v: DiagnosticsState<Inner::V>,
        time_left: u32,
        move_cnt: usize,
    ) -> DiagnosticsState<Inner::V> {
        DiagnosticsState { manager: Inner::initiated(v.manager, time_left, move_cnt), data: v.data }
    }

    open spec fn aborts(v: DiagnosticsState<Inner::V>, elapsed: u32) -> bool {
        Inner::aborts(v.manager, elapsed)
    }

    open spec fn cleared(v: DiagnosticsState<Inner::V>) -> DiagnosticsState<Inner::V> {
        DiagnosticsState { manager: Inner::cleared(v.manager), data: v.data }
    }

    fn is_wf(&self) -> (r: bool) {
        self.manager.is_wf()
    }

    fn can_deepen(&self, depth: u32) -> (r: bool) {
        self.manager.can_deepen(depth)
    }

    fn deepen(
        &mut self,
        thread: u8,
        depth: u32,
        nodes: u32,
        eval: Evaluation,
        best_move: Move,
        delta_time: u32,
    ) {
        self.manager.deepen(thread, depth, nodes, eval, best_move, delta_time);
        self.data.push((nodes, depth));
    }

    fn initiate(&mut self, time_left: u32, move_cnt: usize) {
        self.manager.initiate(time_left, move_cnt);
    }

    fn abort(&self, elapsed: u32) -> (r: bool) {
        self.manager.abort(elapsed)
    }

    fn clear(&mut self) {
        self.manager.clear();
    }
}

} // verus!
