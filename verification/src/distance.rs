//! Distance fields: for every cell, the fewest moves in which a side can
//! reach it.

use crate::board::{Board, BoardView};
use crate::geometry::{lemma_linear_bound, lemma_linear_injective, Player, Pos, Team};
use crate::range::{king_range, queen_range};
use std::collections::VecDeque;
use vstd::prelude::*;

verus! {

/// How a piece moves when distances are counted.
#[derive(Clone, Copy, Debug, PartialEq, Eq, Hash, Structural)]
pub enum EvalStrategy {
    /// A step is a queen move of any length.
    QueenDistance,
    /// A step is a king move: one cell in any direction.
    KingDistance,
}

/// The distance of a cell that was not reached.
pub const UNREACHED: u8 = 255;

impl BoardView {
    /// The cells one step away from `p`, where `p` itself counts as free.
    pub open spec fn neighbours(self, strategy: EvalStrategy, p: Pos) -> Seq<Pos> {
        match strategy {
            EvalStrategy::QueenDistance => self.queen_range(p, p),
            EvalStrategy::KingDistance => self.king_range(p, p),
        }
    }

    /// One step leads from `m` to `c`.
    pub open spec fn step(self, strategy: EvalStrategy, m: Pos, c: Pos) -> bool {
        self.neighbours(strategy, m).contains(c)
    }

    /// A piece of `team` stands on `p`.
    pub open spec fn has_piece(self, team: Team, p: Pos) -> bool {
        exists|i: int|
            0 <= i < self.pieces.len() && #[trigger] self.pieces[i] == (Player { team, pos: p })
    }

    /// Some piece of `team` can be on `c` after exactly `n` steps.
    pub open spec fn reach(self, team: Team, strategy: EvalStrategy, c: Pos, n: nat) -> bool
        decreases n,
    {
        if n == 0 {
            self.has_piece(team, c)
        } else {
            exists|m: Pos|
                self.reach(team, strategy, m, (n - 1) as nat) && #[trigger] self.step(
                    strategy,
                    m,
                    c,
                )
        }
    }

    /// The least number of steps from `n` on, and below the unreached mark,
    /// in which `team` reaches `c`; the unreached mark if there is none.
    pub open spec fn first_reach(self, team: Team, strategy: EvalStrategy, c: Pos, n: nat) -> nat
        decreases UNREACHED - n,
    {
        if n >= UNREACHED {
            UNREACHED as nat
        } else if self.reach(team, strategy, c, n) {
            n
        } else {
            self.first_reach(team, strategy, c, n + 1)
        }
    }

    /// The fewest steps, at least one, in which a piece of `team` reaches
    /// `c`; the unreached mark if no piece reaches it in fewer steps than
    /// that mark.
    pub open spec fn distance(self, team: Team, strategy: EvalStrategy, c: Pos) -> nat {
        self.first_reach(team, strategy, c, 1)
    }

    /// The cell with the given row-major index.
    pub open spec fn cell_of(self, i: int) -> Pos {
        Pos { row: (i / self.size) as i8, col: (i % self.size) as i8 }
    }

    /// The distance of every cell of the grid from `team`, in row-major
    /// order.
    pub open spec fn field(self, team: Team, strategy: EvalStrategy) -> Seq<u8> {
        Seq::new(
            (self.size * self.size) as nat,
            |i: int| self.distance(team, strategy, self.cell_of(i)) as u8,
        )
    }

    /// On a well-formed board a step from a cell of the play area ends on a
    /// free cell of the play area.
    pub proof fn lemma_step_lands(self, strategy: EvalStrategy, m: Pos, c: Pos)
        requires
            self.wf(),
            self.interior(m),
            self.step(strategy, m, c),
        ensures
            self.interior(c),
            !self.wall(c),
            c != m,
    {
        let s = self.neighbours(strategy, m);
        let t = choose|t: int| 0 <= t < s.len() && s[t] == c;
        match strategy {
            EvalStrategy::QueenDistance => {
                self.lemma_queen_cells(m, m, 8);
                assert(self.queen_upto(m, m, 8)[t] == c);
                assert(self.passable(c, m));
                assert(!self.border(m));
                assert(self.interior(c));
            },
            EvalStrategy::KingDistance => {
                self.lemma_king_cells(m, m, 8);
                assert(self.king_upto(m, m, 8)[t] == c);
                assert(self.passable(c, m));
                assert(c != m);
                assert(!self.border(c));
            },
        }
    }

    /// On a well-formed board every cell that a team reaches lies on the
    /// play area, and is free unless it is where a piece of the team
    /// stands at the outset.
    pub proof fn lemma_reach_lands(self, team: Team, strategy: EvalStrategy, c: Pos, n: nat)
        requires
            self.wf(),
            self.reach(team, strategy, c, n),
        ensures
            self.interior(c),
            n >= 1 ==> !self.wall(c),
        decreases n,
    {
        if n == 0 {
            let i = choose|i: int|
                0 <= i < self.pieces.len() && #[trigger] self.pieces[i] == (Player {
                    team,
                    pos: c,
                });
            assert(self.interior(self.pieces[i].pos));
        } else {
            let m = choose|m: Pos|
                self.reach(team, strategy, m, (n - 1) as nat) && #[trigger] self.step(
                    strategy,
                    m,
                    c,
                );
            self.lemma_reach_lands(team, strategy, m, (n - 1) as nat);
            self.lemma_step_lands(strategy, m, c);
        }
    }

    /// On a well-formed board an obstructed cell, and any cell off the play
    /// area, has the unreached mark for its distance.
    pub proof fn lemma_obstructed_unreached(self, team: Team, strategy: EvalStrategy, c: Pos)
        requires
            self.wf(),
            self.wall(c) || !self.interior(c),
        ensures
            self.distance(team, strategy, c) == UNREACHED,
    {
        assert forall|t: nat| 1 <= t < UNREACHED implies !#[trigger] self.reach(
            team,
            strategy,
            c,
            t,
        ) by {
            if self.reach(team, strategy, c, t) {
                self.lemma_reach_lands(team, strategy, c, t);
            }
        }
        self.lemma_first_reach(team, strategy, c, 1, UNREACHED as nat);
    }

    /// The distance of a cell is the least number of steps, at least one, in
    /// which the team reaches it, as far as that number lies below the
    /// unreached mark; a cell with the unreached mark is not reached in any
    /// number of steps below the mark.
    pub proof fn lemma_distance_is_least(self, team: Team, strategy: EvalStrategy, c: Pos)
        ensures
            1 <= self.distance(team, strategy, c) <= UNREACHED,
            self.distance(team, strategy, c) < UNREACHED ==> self.reach(
                team,
                strategy,
                c,
                self.distance(team, strategy, c),
            ),
            forall|n: nat|
                1 <= n < self.distance(team, strategy, c) ==> !#[trigger] self.reach(
                    team,
                    strategy,
                    c,
                    n,
                ),
    {
        self.lemma_first_reach_is_least(team, strategy, c, 1);
    }

    /// The first reach from `n` on is at least `n`, reaches the cell if it
    /// lies below the unreached mark, and no number of steps from `n` up to
    /// it does.
    pub proof fn lemma_first_reach_is_least(
        self,
        team: Team,
        strategy: EvalStrategy,
        c: Pos,
        n: nat,
    )
        requires
            n <= UNREACHED,
        ensures
            n <= self.first_reach(team, strategy, c, n) <= UNREACHED,
            self.first_reach(team, strategy, c, n) < UNREACHED ==> self.reach(
                team,
                strategy,
                c,
                self.first_reach(team, strategy, c, n),
            ),
            forall|t: nat|
                n <= t < self.first_reach(team, strategy, c, n) ==> !#[trigger] self.reach(
                    team,
                    strategy,
                    c,
                    t,
                ),
        decreases UNREACHED - n,
    {
        if n < UNREACHED && !self.reach(team, strategy, c, n) {
            self.lemma_first_reach_is_least(team, strategy, c, n + 1);
        }
    }

    /// The first reach from `n` on is `d` when `d` is the first number of
    /// steps from `n` on that reaches the cell.
    pub proof fn lemma_first_reach(self, team: Team, strategy: EvalStrategy, c: Pos, n: nat, d: nat)
        requires
            n <= d <= UNREACHED,
            forall|t: nat| n <= t < d ==> !#[trigger] self.reach(team, strategy, c, t),
            d < UNREACHED ==> self.reach(team, strategy, c, d),
        ensures
            self.first_reach(team, strategy, c, n) == d,
        decreases d - n,
    {
        if n < d {
            self.lemma_first_reach(team, strategy, c, n + 1, d);
        }
    }
}

/// The sum of the entries.
pub open spec fn total(s: Seq<u8>) -> nat
    decreases s.len(),
{
    if s.len() == 0 {
        0
    } else {
        total(s.drop_last()) + s.last() as nat
    }
}

/// Lowering one entry lowers the sum.
proof fn lemma_total_lowered(s: Seq<u8>, i: int, v: u8)
    requires
        0 <= i < s.len(),
        v < s[i],
    ensures
        total(s.update(i, v)) < total(s),
    decreases s.len(),
{
    let u = s.update(i, v);
    if i == s.len() - 1 {
        assert(u.drop_last() =~= s.drop_last());
    } else {
        lemma_total_lowered(s.drop_last(), i, v);
        assert(u.drop_last() =~= s.drop_last().update(i, v));
    }
}

/// The entry of a field for the cell `c`; the unreached mark for a cell that
/// the field does not cover.
pub open spec fn at(v: BoardView, dist: Seq<u8>, c: Pos) -> int {
    let i = c.linear(v.size);
    if 0 <= i < dist.len() {
        dist[i] as int
    } else {
        UNREACHED as int
    }
}

/// The work list, past and present, holds `c` at depth `d`.
spec fn listed(all: Seq<(Pos, u8)>, c: Pos, d: int) -> bool {
    exists|k: int| 0 <= k < all.len() && (#[trigger] all[k]).0 == c && all[k].1 == d
}

/// No piece of the team reaches `c` in at least one and fewer than `d` steps.
spec fn minimal(v: BoardView, team: Team, strategy: EvalStrategy, c: Pos, d: int) -> bool {
    forall|n: nat| 1 <= n < d ==> !#[trigger] v.reach(team, strategy, c, n)
}

/// The first `upto` neighbours of `p` have a distance of at most `d + 1`.
spec fn closed_upto(
    v: BoardView,
    strategy: EvalStrategy,
    dist: Seq<u8>,
    p: Pos,
    d: int,
    upto: int,
) -> bool {
    forall|t: int|
        0 <= t < upto ==> at(v, dist, #[trigger] v.neighbours(strategy, p)[t]) <= d + 1
}

/// What holds while the search runs. `all` lists every entry that was ever
/// queued, in queue order; those before `head` have been expanded.
spec fn searching(
    v: BoardView,
    team: Team,
    strategy: EvalStrategy,
    dist: Seq<u8>,
    all: Seq<(Pos, u8)>,
    head: int,
) -> bool {
    &&& v.wf()
    &&& dist.len() == v.size * v.size
    &&& 0 <= head <= all.len()
    &&& forall|a: int, b: int|
        0 <= a <= b < all.len() ==> (#[trigger] all[a]).1 <= (#[trigger] all[b]).1
    &&& (head < all.len() ==> forall|k: int|
        0 <= k < all.len() ==> (#[trigger] all[k]).1 <= all[head].1 + 1)
    &&& forall|k: int|
        0 <= k < all.len() ==> v.interior((#[trigger] all[k]).0) && all[k].1 < UNREACHED
            && v.reach(team, strategy, all[k].0, all[k].1 as nat)
    &&& forall|i: int|
        0 <= i < v.pieces.len() && (#[trigger] v.pieces[i]).team == team ==> listed(
            all,
            v.pieces[i].pos,
            0,
        )
    &&& forall|c: Pos|
        v.in_grid(c) && #[trigger] at(v, dist, c) < UNREACHED ==> at(v, dist, c) >= 1 && listed(
            all,
            c,
            at(v, dist, c),
        ) && minimal(v, team, strategy, c, at(v, dist, c))
    &&& forall|k: int|
        0 <= k < head ==> closed_upto(
            v,
            strategy,
            dist,
            (#[trigger] all[k]).0,
            all[k].1 as int,
            v.neighbours(strategy, all[k].0).len() as int,
        )
}

/// A cell that the team reaches in fewer steps than the entry now expanded
/// has itself been expanded, at a depth no larger.
proof fn lemma_settled(
    v: BoardView,
    team: Team,
    strategy: EvalStrategy,
    dist: Seq<u8>,
    all: Seq<(Pos, u8)>,
    head: int,
    x: Pos,
    n: nat,
) -> (k: int)
    requires
        searching(v, team, strategy, dist, all, head),
        v.reach(team, strategy, x, n),
        n < UNREACHED,
        head < all.len() ==> n < all[head].1,
    ensures
        0 <= k < head,
        all[k].0 == x,
        all[k].1 <= n,
    decreases n,
{
    if n == 0 {
        let i = choose|i: int|
            0 <= i < v.pieces.len() && #[trigger] v.pieces[i] == (Player { team, pos: x });
        assert(v.pieces[i].team == team);
        assert(listed(all, x, 0));
        let k = choose|k: int| 0 <= k < all.len() && (#[trigger] all[k]).0 == x && all[k].1 == 0;
        if k >= head {
            assert(all[head].1 <= all[k].1);
        }
        k
    } else {
        let m = choose|m: Pos|
            v.reach(team, strategy, m, (n - 1) as nat) && #[trigger] v.step(strategy, m, x);
        let km = lemma_settled(v, team, strategy, dist, all, head, m, (n - 1) as nat);
        v.lemma_step_lands(strategy, all[km].0, x);
        let s = v.neighbours(strategy, m);
        let t = choose|t: int| 0 <= t < s.len() && s[t] == x;
        assert(closed_upto(v, strategy, dist, all[km].0, all[km].1 as int, s.len() as int));
        assert(at(v, dist, s[t]) <= all[km].1 + 1);
        assert(at(v, dist, x) < UNREACHED);
        assert(listed(all, x, at(v, dist, x)));
        let k = choose|k: int|
            0 <= k < all.len() && (#[trigger] all[k]).0 == x && all[k].1 == at(v, dist, x);
        if k >= head {
            assert(all[head].1 <= all[k].1);
        }
        k
    }
}

/// Expanding neighbour `j` of the entry at `head` when the neighbour's
/// distance can be lowered: the distance is set and the neighbour queued.
proof fn lemma_relax(
    v: BoardView,
    team: Team,
    strategy: EvalStrategy,
    dist: Seq<u8>,
    all: Seq<(Pos, u8)>,
    head: int,
    j: int,
)
    requires
        searching(v, team, strategy, dist, all, head),
        head < all.len(),
        0 <= j < v.neighbours(strategy, all[head].0).len(),
        closed_upto(v, strategy, dist, all[head].0, all[head].1 as int, j),
        all[head].1 + 1 < at(v, dist, v.neighbours(strategy, all[head].0)[j]),
    ensures
        ({
            let c = v.neighbours(strategy, all[head].0)[j];
            let d = (all[head].1 + 1) as u8;
            let dist2 = dist.update(c.linear(v.size), d);
            let all2 = all.push((c, d));
            &&& v.interior(c)
            &&& 0 <= c.linear(v.size) < dist.len()
            &&& all[head].1 + 1 < UNREACHED
            &&& searching(v, team, strategy, dist2, all2, head)
            &&& closed_upto(v, strategy, dist2, all[head].0, all[head].1 as int, j + 1)
        }),
{
    let m = all[head].0;
    let s = v.neighbours(strategy, m);
    let c = s[j];
    let d = (all[head].1 + 1) as u8;
    let dist2 = dist.update(c.linear(v.size), d);
    let all2 = all.push((c, d));
    assert(v.step(strategy, m, c));
    v.lemma_step_lands(strategy, m, c);
    lemma_linear_bound(v.size, c);
    // The neighbour was not reached before.
    if at(v, dist, c) < UNREACHED {
        assert(listed(all, c, at(v, dist, c)));
        let k = choose|k: int|
            0 <= k < all.len() && (#[trigger] all[k]).0 == c && all[k].1 == at(v, dist, c);
        assert(all[k].1 <= all[head].1 + 1);
        assert(false);
    }
    // No shorter way leads to it.
    assert forall|n: nat| 1 <= n < d implies !#[trigger] v.reach(team, strategy, c, n) by {
        if v.reach(team, strategy, c, n) {
            let m2 = choose|m2: Pos|
                v.reach(team, strategy, m2, (n - 1) as nat) && #[trigger] v.step(strategy, m2, c);
            let k2 = lemma_settled(v, team, strategy, dist, all, head, m2, (n - 1) as nat);
            let s2 = v.neighbours(strategy, m2);
            let t2 = choose|t2: int| 0 <= t2 < s2.len() && s2[t2] == c;
            assert(closed_upto(v, strategy, dist, all[k2].0, all[k2].1 as int, s2.len() as int));
            assert(at(v, dist, s2[t2]) <= all[k2].1 + 1);
            assert(false);
        }
    }
    assert(v.reach(team, strategy, c, d as nat));
    assert forall|a: int, b: int| 0 <= a <= b < all2.len() implies (#[trigger] all2[a]).1 <= (
    #[trigger] all2[b]).1 by {
        if b < all.len() {
            assert(all2[a] == all[a] && all2[b] == all[b]);
        } else if a < all.len() {
            assert(all2[a] == all[a]);
        }
    }
    assert forall|k: int| 0 <= k < all2.len() implies (#[trigger] all2[k]).1 <= all2[head].1
        + 1 by {
        if k < all.len() {
            assert(all2[k] == all[k]);
        }
    }
    assert forall|k: int| 0 <= k < all2.len() implies v.interior((#[trigger] all2[k]).0)
        && all2[k].1 < UNREACHED && v.reach(
        team,
        strategy,
        all2[k].0,
        all2[k].1 as nat,
    ) by {
        if k < all.len() {
            assert(all2[k] == all[k]);
        }
    }
    assert forall|i: int|
        0 <= i < v.pieces.len() && (#[trigger] v.pieces[i]).team == team implies listed(
        all2,
        v.pieces[i].pos,
        0,
    ) by {
        lemma_listed_grows(all, (c, d), v.pieces[i].pos, 0);
    }
    assert forall|c2: Pos| v.in_grid(c2) && #[trigger] at(v, dist2, c2) < UNREACHED implies at(
        v,
        dist2,
        c2,
    ) >= 1 && listed(all2, c2, at(v, dist2, c2)) && minimal(
        v,
        team,
        strategy,
        c2,
        at(v, dist2, c2),
    ) by {
        lemma_linear_bound(v.size, c2);
        if c2 == c {
            assert(all2[all.len() as int] == (c, d));
        } else {
            if c2.linear(v.size) == c.linear(v.size) {
                lemma_linear_injective(v.size, c, c2);
            }
            assert(at(v, dist2, c2) == at(v, dist, c2));
            lemma_listed_grows(all, (c, d), c2, at(v, dist, c2));
        }
    }
    assert forall|k: int| 0 <= k < head implies closed_upto(
        v,
        strategy,
        dist2,
        (#[trigger] all2[k]).0,
        all2[k].1 as int,
        v.neighbours(strategy, all2[k].0).len() as int,
    ) by {
        assert(all2[k] == all[k]);
        lemma_closed_lowered(v, strategy, dist, all[k].0, all[k].1 as int, v.neighbours(
            strategy,
            all[k].0,
        ).len() as int, c, d);
    }
    lemma_closed_lowered(v, strategy, dist, m, all[head].1 as int, j, c, d);
    assert(all2[head] == all[head]);
    assert(at(v, dist2, c) == d);
}

/// An entry stays listed when the list grows.
proof fn lemma_listed_grows(all: Seq<(Pos, u8)>, e: (Pos, u8), c: Pos, d: int)
    requires
        listed(all, c, d),
    ensures
        listed(all.push(e), c, d),
{
    let k = choose|k: int| 0 <= k < all.len() && (#[trigger] all[k]).0 == c && all[k].1 == d;
    assert(all.push(e)[k] == all[k]);
}

/// Lowering a distance keeps neighbours within their bound.
proof fn lemma_closed_lowered(
    v: BoardView,
    strategy: EvalStrategy,
    dist: Seq<u8>,
    p: Pos,
    d: int,
    upto: int,
    c: Pos,
    low: u8,
)
    requires
        closed_upto(v, strategy, dist, p, d, upto),
        0 <= c.linear(v.size) < dist.len(),
        low <= dist[c.linear(v.size)],
    ensures
        closed_upto(v, strategy, dist.update(c.linear(v.size), low), p, d, upto),
{
    let dist2 = dist.update(c.linear(v.size), low);
    assert forall|t: int| 0 <= t < upto implies at(
        v,
        dist2,
        #[trigger] v.neighbours(strategy, p)[t],
    ) <= d + 1 by {
        let q = v.neighbours(strategy, p)[t];
        assert(at(v, dist, q) <= d + 1);
    }
}

/// Once all neighbours of the entry at `head` are within their bound, the
/// entry counts as expanded.
proof fn lemma_advance(
    v: BoardView,
    team: Team,
    strategy: EvalStrategy,
    dist: Seq<u8>,
    all: Seq<(Pos, u8)>,
    head: int,
)
    requires
        searching(v, team, strategy, dist, all, head),
        head < all.len(),
        closed_upto(
            v,
            strategy,
            dist,
            all[head].0,
            all[head].1 as int,
            v.neighbours(strategy, all[head].0).len() as int,
        ),
    ensures
        searching(v, team, strategy, dist, all, head + 1),
{
    if head + 1 < all.len() {
        assert forall|k: int| 0 <= k < all.len() implies (#[trigger] all[k]).1 <= all[head + 1].1
            + 1 by {
            assert(all[head].1 <= all[head + 1].1);
        }
    }
}

/// With nothing left to expand, the distances are the field of the team.
proof fn lemma_search_done(
    v: BoardView,
    team: Team,
    strategy: EvalStrategy,
    dist: Seq<u8>,
    all: Seq<(Pos, u8)>,
)
    requires
        searching(v, team, strategy, dist, all, all.len() as int),
    ensures
        dist == v.field(team, strategy),
{
    let f = v.field(team, strategy);
    assert forall|i: int| 0 <= i < dist.len() implies dist[i] == f[i] by {
        let c = v.cell_of(i);
        lemma_cell_of(v.size, i);
        assert(at(v, dist, c) == dist[i]);
        if dist[i] < UNREACHED {
            assert(listed(all, c, at(v, dist, c)));
            let k = choose|k: int|
                0 <= k < all.len() && (#[trigger] all[k]).0 == c && all[k].1 == at(v, dist, c);
            assert(minimal(v, team, strategy, c, at(v, dist, c)));
            v.lemma_first_reach(team, strategy, c, 1, dist[i] as nat);
        } else {
            assert forall|n: nat| 1 <= n < UNREACHED implies !#[trigger] v.reach(
                team,
                strategy,
                c,
                n,
            ) by {
                if v.reach(team, strategy, c, n) {
                    let m = choose|m: Pos|
                        v.reach(team, strategy, m, (n - 1) as nat) && #[trigger] v.step(
                            strategy,
                            m,
                            c,
                        );
                    let k = lemma_settled(
                        v,
                        team,
                        strategy,
                        dist,
                        all,
                        all.len() as int,
                        m,
                        (n - 1) as nat,
                    );
                    let s = v.neighbours(strategy, m);
                    let t = choose|t: int| 0 <= t < s.len() && s[t] == c;
                    assert(closed_upto(
                        v,
                        strategy,
                        dist,
                        all[k].0,
                        all[k].1 as int,
                        s.len() as int,
                    ));
                    assert(at(v, dist, s[t]) <= all[k].1 + 1);
                    assert(false);
                }
            }
            v.lemma_first_reach(team, strategy, c, 1, UNREACHED as nat);
        }
    }
    assert(dist =~= f);
}

/// The cell with row-major index `i` lies on the grid and has that index.
pub proof fn lemma_cell_of(size: int, i: int)
    requires
        1 <= size <= i8::MAX,
        0 <= i < size * size,
    ensures
        0 <= i / size < size,
        0 <= i % size < size,
        (Pos { row: (i / size) as i8, col: (i % size) as i8 }).linear(size) == i,
{
    vstd::arithmetic::div_mod::lemma_fundamental_div_mod(i, size);
    vstd::arithmetic::div_mod::lemma_mod_pos_bound(i, size);
    assert(0 <= i / size < size) by (nonlinear_arith)
        requires
            1 <= size,
            0 <= i < size * size,
            i == size * (i / size) + (i % size),
            0 <= i % size < size,
    ;
    assert(size * (i / size) == (i / size) * size) by (nonlinear_arith);
}

impl Board {
    /// Fills `distances` with the distance of every cell from `team`: a
    /// breadth-first search that starts from all pieces of the team at once.
    /// A step is a move of the kind that `strategy` names; the cell a piece
    /// starts from counts as free for its own first step. Both buffers are
    /// reset on entry, and `next` is empty again on return.
    pub fn bfs(
        &self,
        team: Team,
        strategy: EvalStrategy,
        next: &mut VecDeque<(Pos, u8)>,
        distances: &mut Vec<u8>,
    )
        requires
            self.wf(),
        ensures
            final(distances)@ == self@.field(team, strategy),
            final(next)@.len() == 0,
    {
        let size = self.size();
        assert(0 <= size * size <= 127 * 127) by (nonlinear_arith)
            requires
                0 <= size <= 127,
        ;
        let cells: usize = (size as usize) * (size as usize);
        distances.clear();
        let mut i: usize = 0;
        while i < cells
            invariant
                0 <= i <= cells,
                distances.len() == i,
                forall|k: int| 0 <= k < i ==> distances[k] == UNREACHED,
            decreases cells - i,
        {
            distances.push(UNREACHED);
            i += 1;
        }
        next.clear();
        let players = self.players();
        let mut pi: usize = 0;
        while pi < players.len()
            invariant
                0 <= pi <= players.len(),
                players@ == self@.pieces,
                forall|k: int|
                    0 <= k < next@.len() ==> (#[trigger] next@[k]).1 == 0 && self@.has_piece(
                        team,
                        next@[k].0,
                    ),
                forall|i: int|
                    0 <= i < pi && (#[trigger] players[i]).team == team ==> listed(
                        next@,
                        players[i].pos,
                        0,
                    ),
            decreases players.len() - pi,
        {
            let player = players[pi];
            if player.team == team {
                proof {
                    let ghost before = next@;
                    assert forall|i: int|
                        0 <= i < pi && (#[trigger] players[i]).team == team implies listed(
                        before.push((player.pos, 0u8)),
                        players[i].pos,
                        0,
                    ) by {
                        lemma_listed_grows(before, (player.pos, 0u8), players[i].pos, 0);
                    }
                    assert(before.push((player.pos, 0u8))[before.len() as int] == (
                        player.pos,
                        0u8,
                    ));
                    assert(self@.pieces[pi as int] == (Player { team, pos: player.pos }));
                }
                next.push_back((player.pos, 0));
            }
            pi += 1;
        }
        let ghost mut all = next@;
        let ghost mut head: int = 0;
        proof {
            assert forall|k: int| 0 <= k < all.len() implies self@.interior((#[trigger] all[k]).0)
                && all[k].1 < UNREACHED && self@.reach(team, strategy, all[k].0, all[k].1 as nat) by {
                let p = all[k].0;
                let i = choose|i: int|
                    0 <= i < self@.pieces.len() && #[trigger] self@.pieces[i] == (Player {
                        team,
                        pos: p,
                    });
                assert(self@.interior(self@.pieces[i].pos));
            }
            assert forall|c: Pos| self@.in_grid(c) implies #[trigger] at(self@, distances@, c)
                == UNREACHED by {
                lemma_linear_bound(self@.size, c);
            }
            assert(searching(self@, team, strategy, distances@, all, head));
            assert(next@ =~= all.skip(head));
        }
        while next.len() > 0
            invariant
                self.wf(),
                size == self@.size,
                searching(self@, team, strategy, distances@, all, head),
                next@ == all.skip(head),
            decreases total(distances@), next@.len(),
        {
            let ghost dist0 = distances@;
            let ghost len0 = next@.len();
            let entry = next.pop_front().unwrap();
            let pos = entry.0;
            let depth = entry.1;
            assert(all[head] == entry);
            let neigh = match strategy {
                EvalStrategy::QueenDistance => queen_range(self, pos, pos),
                EvalStrategy::KingDistance => king_range(self, pos, pos),
            };
            let mut j: usize = 0;
            while j < neigh.len()
                invariant
                    0 <= j <= neigh.len(),
                    self.wf(),
                    size == self@.size,
                    searching(self@, team, strategy, distances@, all, head),
                    head < all.len(),
                    all[head] == (pos, depth),
                    neigh@ == self@.neighbours(strategy, pos),
                    closed_upto(self@, strategy, distances@, pos, depth as int, j as int),
                    next@ == all.skip(head + 1),
                    total(distances@) < total(dist0) || (distances@ == dist0 && next@.len() == len0
                        - 1),
                decreases neigh.len() - j,
            {
                let cell = neigh[j];
                proof {
                    assert(self@.step(strategy, pos, cell));
                    self@.lemma_step_lands(strategy, pos, cell);
                    lemma_linear_bound(self@.size, cell);
                }
                let idx = cell.to_linear(size);
                if depth + 1 < distances[idx] {
                    proof {
                        lemma_relax(self@, team, strategy, distances@, all, head, j as int);
                        lemma_total_lowered(distances@, idx as int, (depth + 1) as u8);
                        all = all.push((cell, (depth + 1) as u8));
                    }
                    distances.set(idx, depth + 1);
                    next.push_back((cell, depth + 1));
                    assert(next@ =~= all.skip(head + 1));
                } else {
                    assert(at(self@, distances@, cell) <= depth + 1);
                }
                j += 1;
            }
            proof {
                lemma_advance(self@, team, strategy, distances@, all, head);
                head = head + 1;
                assert(next@ =~= all.skip(head));
            }
        }
        proof {
            assert(all.skip(head).len() == 0);
            lemma_search_done(self@, team, strategy, distances@, all);
        }
    }
}

} // verus!
