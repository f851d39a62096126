//! The territory heuristic: who is closer to each cell of the board.

use crate::board::{Board, BoardView};
use crate::distance::{EvalStrategy, UNREACHED};
use crate::geometry::{Pos, Team};
use std::collections::VecDeque;
use vstd::prelude::*;

verus! {

/// The score of a position that is won for certain.
pub const WIN: i64 = 9223372036854775807;

/// The score of a position that is lost for certain. It is one above the
/// least `i64`, so that the negative of every score is a score.
pub const LOSS: i64 = -9223372036854775807;

/// Scratch space for evaluating positions: one distance field for each side
/// and the work queue of the search that fills them. A caller keeps one and
/// hands it to every evaluation; each evaluation resets it on entry.
#[derive(Debug)]
pub struct DistState {
    left: Vec<u8>,
    right: Vec<u8>,
    next: VecDeque<(Pos, u8)>,
}

impl Clone for DistState {
    fn clone(&self) -> (s: DistState)
        ensures
            s.left_field() == self.left_field(),
            s.right_field() == self.right_field(),
            s.pending().len() == self.pending().len(),
    {
        let s = DistState {
            left: self.left.clone(),
            right: self.right.clone(),
            next: self.next.clone(),
        };
        assert(s.left@ =~= self.left@);
        assert(s.right@ =~= self.right@);
        s
    }
}

impl DistState {
    /// The distance field of the side that the last evaluation was for.
    pub closed spec fn left_field(&self) -> Seq<u8> {
        self.left@
    }

    /// The distance field of the other side.
    pub closed spec fn right_field(&self) -> Seq<u8> {
        self.right@
    }

    /// The work queue.
    pub closed spec fn pending(&self) -> Seq<(Pos, u8)> {
        self.next@
    }

    /// Scratch space for the standard board of ten by ten cells, border
    /// included, with every distance at the unreached mark.
    pub fn new() -> (s: DistState)
        ensures
            s.left_field() == Seq::new(100, |i: int| UNREACHED),
            s.right_field() == Seq::new(100, |i: int| UNREACHED),
            s.pending().len() == 0,
    {
        let s = DistState {
            left: filled(UNREACHED, 100),
            right: filled(UNREACHED, 100),
            next: VecDeque::new(),
        };
        assert(s.left@ =~= Seq::new(100, |i: int| UNREACHED));
        assert(s.right@ =~= Seq::new(100, |i: int| UNREACHED));
        s
    }

    /// Scratch space for a board of side `board_size`, border included, with
    /// every distance at zero.
    pub fn with_board_size(board_size: i8) -> (s: DistState)
        requires
            0 <= board_size,
        ensures
            s.left_field() == Seq::new((board_size * board_size) as nat, |i: int| 0u8),
            s.right_field() == Seq::new((board_size * board_size) as nat, |i: int| 0u8),
            s.pending().len() == 0,
    {
        assert(0 <= board_size * board_size <= 127 * 127) by (nonlinear_arith)
            requires
                0 <= board_size <= 127,
        ;
        let cells: usize = board_size as usize * board_size as usize;
        let s = DistState { left: filled(0, cells), right: filled(0, cells), next: VecDeque::new() };
        assert(s.left@ =~= Seq::new((board_size * board_size) as nat, |i: int| 0u8));
        assert(s.right@ =~= Seq::new((board_size * board_size) as nat, |i: int| 0u8));
        s
    }
}

/// A vector of `n` entries, each `value`.
fn filled(value: u8, n: usize) -> (v: Vec<u8>)
    ensures
        v.len() == n,
        forall|i: int| 0 <= i < n ==> v[i] == value,
{
    let mut v: Vec<u8> = Vec::new();
    let mut i: usize = 0;
    while i < n
        invariant
            0 <= i <= n,
            v.len() == i,
            forall|k: int| 0 <= k < i ==> v[k] == value,
        decreases n - i,
    {
        v.push(value);
        i += 1;
    }
    v
}

/// What one cell adds to the score of the side with distance `a` to it, the
/// other side having distance `b`: one for the closer side, nothing on a tie.
pub open spec fn lead(a: u8, b: u8) -> int {
    if a < b {
        1
    } else if a > b {
        -1
    } else {
        0
    }
}

/// The sum of the leads over the first `n` cells.
pub open spec fn tally(left: Seq<u8>, right: Seq<u8>, n: nat) -> int
    decreases n,
{
    if n == 0 {
        0
    } else {
        tally(left, right, (n - 1) as nat) + lead(left[n - 1], right[n - 1])
    }
}

/// Some cell among the first `n` is reached by both sides.
pub open spec fn contested(left: Seq<u8>, right: Seq<u8>, n: nat) -> bool {
    exists|i: int| 0 <= i < n && #[trigger] left[i] != UNREACHED && right[i] != UNREACHED
}

/// The score of two distance fields of equal length for the side of the
/// first: the tally while some cell is reached by both sides; once no cell
/// is, a certain win if the tally is not negative and a certain loss if it
/// is.
pub open spec fn score(left: Seq<u8>, right: Seq<u8>) -> int {
    let n = left.len();
    if contested(left, right, n) {
        tally(left, right, n)
    } else if tally(left, right, n) >= 0 {
        WIN as int
    } else {
        LOSS as int
    }
}

/// The tally of `n` cells lies between `-n` and `n`.
pub proof fn lemma_tally_bound(left: Seq<u8>, right: Seq<u8>, n: nat)
    ensures
        -n <= tally(left, right, n) <= n,
    decreases n,
{
    if n > 0 {
        lemma_tally_bound(left, right, (n - 1) as nat);
    }
}

/// Swapping the two fields negates the tally.
pub proof fn lemma_tally_swapped(left: Seq<u8>, right: Seq<u8>, n: nat)
    ensures
        tally(right, left, n) == -tally(left, right, n),
    decreases n,
{
    if n > 0 {
        lemma_tally_swapped(left, right, (n - 1) as nat);
    }
}

/// Swapping the two fields negates the score, unless no cell is reached by
/// both sides and the tally is zero: such a position counts as won for
/// either side. In particular, where no cell is reached by both sides and
/// the tally is not zero, one side has the winning score exactly when the
/// other has the losing score.
pub proof fn lemma_score_antisymmetric(left: Seq<u8>, right: Seq<u8>)
    requires
        left.len() == right.len(),
        left.len() < WIN,
    ensures
        contested(right, left, right.len()) == contested(left, right, left.len()),
        contested(left, right, left.len()) || tally(left, right, left.len()) != 0 ==> score(
            right,
            left,
        ) == -score(left, right),
        !contested(left, right, left.len()) && tally(left, right, left.len()) != 0 ==> (score(
            left,
            right,
        ) == WIN <==> score(right, left) == LOSS),
        !contested(left, right, left.len()) && tally(left, right, left.len()) == 0 ==> score(
            left,
            right,
        ) == WIN && score(right, left) == WIN,
{
    let n = left.len();
    lemma_tally_swapped(left, right, n);
    lemma_tally_bound(left, right, n);
    if contested(left, right, n) {
        let i = choose|i: int| 0 <= i < n && #[trigger] left[i] != UNREACHED && right[i] != UNREACHED;
        assert(right[i] != UNREACHED && left[i] != UNREACHED);
    }
    if contested(right, left, n) {
        let i = choose|i: int| 0 <= i < n && #[trigger] right[i] != UNREACHED && left[i] != UNREACHED;
        assert(left[i] != UNREACHED && right[i] != UNREACHED);
    }
}

/// The score of two distance fields for the side of the first.
pub fn score_fields(left: &Vec<u8>, right: &Vec<u8>) -> (s: i64)
    requires
        left.len() == right.len(),
        left.len() < WIN,
    ensures
        s == score(left@, right@),
        LOSS <= s <= WIN,
{
    let mut sum: i64 = 0;
    let mut is_end = true;
    let mut i: usize = 0;
    while i < left.len()
        invariant
            0 <= i <= left.len(),
            left.len() == right.len(),
            left.len() < WIN,
            sum == tally(left@, right@, i as nat),
            -i <= sum <= i,
            is_end == !contested(left@, right@, i as nat),
        decreases left.len() - i,
    {
        let a = left[i];
        let b = right[i];
        if a < b {
            sum = sum + 1;
        }
        if a > b {
            sum = sum - 1;
        }
        if a != UNREACHED && b != UNREACHED {
            is_end = false;
        }
        proof {
            if contested(left@, right@, (i + 1) as nat) && !(a != UNREACHED && b != UNREACHED) {
                let k = choose|k: int|
                    0 <= k < i + 1 && #[trigger] left@[k] != UNREACHED && right@[k] != UNREACHED;
                assert(k < i);
            }
            if contested(left@, right@, i as nat) {
                let k = choose|k: int|
                    0 <= k < i && #[trigger] left@[k] != UNREACHED && right@[k] != UNREACHED;
                assert(0 <= k < i + 1);
            }
        }
        i += 1;
    }
    if is_end {
        if sum >= 0 {
            return WIN;
        }
        return LOSS;
    }
    sum
}

impl BoardView {
    /// The score of the position for `team`: its distance field held
    /// against the opponent's.
    pub open spec fn evaluation(self, team: Team, strategy: EvalStrategy) -> int {
        score(self.field(team, strategy), self.field(team.opponent(), strategy))
    }

    /// No cell is reached by both sides: the outcome is decided.
    pub open spec fn partitioned(self, strategy: EvalStrategy) -> bool {
        !contested(
            self.field(Team::White, strategy),
            self.field(Team::Black, strategy),
            (self.size * self.size) as nat,
        )
    }

    /// The score of a position lies between the losing and the winning
    /// score.
    pub proof fn lemma_evaluation_bound(self, team: Team, strategy: EvalStrategy)
        requires
            self.shaped(),
        ensures
            LOSS <= self.evaluation(team, strategy) <= WIN,
    {
        let l = self.field(team, strategy);
        let r = self.field(team.opponent(), strategy);
        lemma_tally_bound(l, r, l.len());
        assert(self.size * self.size <= 127 * 127) by (nonlinear_arith)
            requires
                1 <= self.size <= 127,
        ;
    }

    /// The score for one side is the negative of the score for the other,
    /// unless the position is partitioned with a tally of zero, which counts
    /// as won for either side. On a partitioned board with another tally one
    /// side has the winning score exactly when the other has the losing
    /// score.
    pub proof fn lemma_evaluation_antisymmetric(self, team: Team, strategy: EvalStrategy)
        requires
            self.shaped(),
        ensures
            ({
                let l = self.field(team, strategy);
                let r = self.field(team.opponent(), strategy);
                let decided = !contested(l, r, l.len());
                &&& decided == self.partitioned(strategy)
                &&& (!decided || tally(l, r, l.len()) != 0 ==> self.evaluation(
                    team.opponent(),
                    strategy,
                ) == -self.evaluation(team, strategy))
                &&& (decided && tally(l, r, l.len()) != 0 ==> (self.evaluation(team, strategy)
                    == WIN <==> self.evaluation(team.opponent(), strategy) == LOSS))
                &&& (decided && tally(l, r, l.len()) == 0 ==> self.evaluation(team, strategy)
                    == WIN && self.evaluation(team.opponent(), strategy) == WIN)
            }),
    {
        let l = self.field(team, strategy);
        let r = self.field(team.opponent(), strategy);
        assert(self.size * self.size <= 127 * 127) by (nonlinear_arith)
            requires
                1 <= self.size <= 127,
        ;
        assert(team.opponent().opponent() == team);
        lemma_score_antisymmetric(l, r);
    }
}

impl Board {
    /// The score of the position for `team`. Both distance fields are
    /// computed afresh into `dist_state`, the team's own field on the left;
    /// then every cell counts one for the side that is closer to it. Once no
    /// cell is reached by both sides, the score is the winning score if the
    /// count is not negative and the losing score if it is.
    pub fn evaluate(&self, team: Team, strategy: EvalStrategy, dist_state: &mut DistState) -> (s:
        i64)
        requires
            self.wf(),
        ensures
            s == self@.evaluation(team, strategy),
            LOSS <= s <= WIN,
            final(dist_state).left_field() == self@.field(team, strategy),
            final(dist_state).right_field() == self@.field(team.opponent(), strategy),
            final(dist_state).pending().len() == 0,
    {
        self.bfs(team, strategy, &mut dist_state.next, &mut dist_state.left);
        self.bfs(team.other(), strategy, &mut dist_state.next, &mut dist_state.right);
        proof {
            assert(self@.size * self@.size <= 127 * 127) by (nonlinear_arith)
                requires
                    1 <= self@.size <= 127,
            ;
        }
        score_fields(&dist_state.left, &dist_state.right)
    }
}

} // verus!
