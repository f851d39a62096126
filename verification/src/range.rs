//! Where a piece or an arrow can go from a cell: the queen range and the
//! king range.

use crate::board::{Board, BoardView};
use crate::geometry::{compass, compass_dir, is_compass, Pos};
use vstd::prelude::*;

verus! {

impl BoardView {
    /// A move or an arrow may enter the cell: it is on the grid and free, or
    /// it is the one cell `blank` that counts as free.
    pub open spec fn passable(self, p: Pos, blank: Pos) -> bool {
        self.in_grid(p) && (!self.wall(p) || p == blank)
    }

    /// An upper bound on the steps that stay on the grid when leaving `p` in
    /// direction `dir`.
    pub open spec fn slack(self, p: Pos, dir: (i8, i8)) -> int {
        if dir.0 > 0 {
            self.size - p.row
        } else if dir.0 < 0 {
            p.row + 1
        } else if dir.1 > 0 {
            self.size - p.col
        } else {
            p.col + 1
        }
    }

    /// The cells met when leaving `from` in direction `dir`, nearest first,
    /// up to and without the first cell that is not passable.
    pub open spec fn ray(self, from: Pos, dir: (i8, i8), blank: Pos) -> Seq<Pos>
        decreases self.slack(from, dir),
    {
        let next = from.stepped(dir);
        if self.size <= i8::MAX && is_compass(dir) && self.in_grid(from) && self.passable(
            next,
            blank,
        ) {
            seq![next] + self.ray(next, dir, blank)
        } else {
            Seq::empty()
        }
    }

    /// The rays in the first `k` compass directions, one after the other.
    pub open spec fn queen_upto(self, from: Pos, blank: Pos, k: nat) -> Seq<Pos>
        decreases k,
    {
        if k == 0 {
            Seq::empty()
        } else {
            self.queen_upto(from, blank, (k - 1) as nat) + self.ray(
                from,
                compass()[k - 1],
                blank,
            )
        }
    }

    /// Every cell a queen move from `from` can end on, direction by
    /// direction in compass order, each direction nearest cell first.
    pub open spec fn queen_range(self, from: Pos, blank: Pos) -> Seq<Pos> {
        self.queen_upto(from, blank, 8)
    }

    /// The passable neighbours of `from` in the first `k` compass directions.
    pub open spec fn king_upto(self, from: Pos, blank: Pos, k: nat) -> Seq<Pos>
        decreases k,
    {
        if k == 0 {
            Seq::empty()
        } else {
            let next = from.stepped(compass()[k - 1]);
            let before = self.king_upto(from, blank, (k - 1) as nat);
            if self.passable(next, blank) {
                before.push(next)
            } else {
                before
            }
        }
    }

    /// Every cell a king move from `from` can end on, in compass order.
    pub open spec fn king_range(self, from: Pos, blank: Pos) -> Seq<Pos> {
        self.king_upto(from, blank, 8)
    }

    /// Cell number `k` of a ray lies `k + 1` steps from the start in the
    /// ray's direction. It is passable and differs from the start, and it
    /// lies on the play area if the board is well formed and `blank` is not
    /// on the border. A ray is shorter than the slack of its start.
    pub proof fn lemma_ray_cells(self, from: Pos, dir: (i8, i8), blank: Pos)
        ensures
            forall|k: int|
                0 <= k < self.ray(from, dir, blank).len() ==> {
                    let c = #[trigger] self.ray(from, dir, blank)[k];
                    &&& self.passable(c, blank)
                    &&& c == from.shifted(dir, k + 1)
                    &&& c.row == from.row + (k + 1) * dir.0
                    &&& c.col == from.col + (k + 1) * dir.1
                    &&& c != from
                    &&& (self.wf() && !self.border(blank) ==> self.interior(c))
                },
            self.ray(from, dir, blank).len() < self.slack(from, dir) || self.ray(
                from,
                dir,
                blank,
            ).len() == 0,
        decreases self.slack(from, dir),
    {
        let next = from.stepped(dir);
        if self.size <= i8::MAX && is_compass(dir) && self.in_grid(from) && self.passable(
            next,
            blank,
        ) {
            self.lemma_ray_cells(next, dir, blank);
            let rest = self.ray(next, dir, blank);
            let all = self.ray(from, dir, blank);
            assert(all == seq![next] + rest);
            assert forall|k: int| 0 <= k < all.len() implies {
                let c = #[trigger] all[k];
                &&& self.passable(c, blank)
                &&& c == from.shifted(dir, k + 1)
                &&& c.row == from.row + (k + 1) * dir.0
                &&& c.col == from.col + (k + 1) * dir.1
                &&& c != from
                &&& (self.wf() && !self.border(blank) ==> self.interior(c))
            } by {
                lemma_scale(dir.0, k + 1);
                lemma_scale(dir.1, k + 1);
                if k == 0 {
                    assert(all[0] == next);
                    if self.wf() && !self.border(blank) {
                        assert(!self.border(next));
                    }
                } else {
                    assert(all[k] == rest[k - 1]);
                    lemma_scale(dir.0, k);
                    lemma_scale(dir.1, k);
                    assert(rest[k - 1] == next.shifted(dir, k));
                    assert(rest.len() < self.slack(next, dir));
                }
            }
        }
    }

    /// Every cell of a queen range is passable and differs from the start;
    /// on a well-formed board, if `blank` is not on the border, it lies on
    /// the play area.
    pub proof fn lemma_queen_cells(self, from: Pos, blank: Pos, k: nat)
        requires
            k <= 8,
        ensures
            forall|t: int|
                0 <= t < self.queen_upto(from, blank, k).len() ==> {
                    let c = #[trigger] self.queen_upto(from, blank, k)[t];
                    &&& self.passable(c, blank)
                    &&& c != from
                    &&& (self.wf() && !self.border(blank) ==> self.interior(c))
                },
        decreases k,
    {
        if k > 0 {
            self.lemma_queen_cells(from, blank, (k - 1) as nat);
            self.lemma_ray_cells(from, compass()[k - 1], blank);
            let before = self.queen_upto(from, blank, (k - 1) as nat);
            let last = self.ray(from, compass()[k - 1], blank);
            let all = self.queen_upto(from, blank, k);
            assert(all == before + last);
            assert forall|t: int| 0 <= t < all.len() implies {
                let c = #[trigger] all[t];
                &&& self.passable(c, blank)
                &&& c != from
                &&& (self.wf() && !self.border(blank) ==> self.interior(c))
            } by {
                if t < before.len() {
                    assert(all[t] == before[t]);
                } else {
                    assert(all[t] == last[t - before.len()]);
                }
            }
        }
    }

    /// Every cell of a king range is passable; it differs from the start if
    /// the start is on the grid.
    pub proof fn lemma_king_cells(self, from: Pos, blank: Pos, k: nat)
        requires
            k <= 8,
        ensures
            forall|t: int|
                0 <= t < self.king_upto(from, blank, k).len() ==> {
                    let c = #[trigger] self.king_upto(from, blank, k)[t];
                    &&& self.passable(c, blank)
                    &&& (self.shaped() && self.in_grid(from) ==> c != from)
                },
        decreases k,
    {
        if k > 0 {
            self.lemma_king_cells(from, blank, (k - 1) as nat);
            let before = self.king_upto(from, blank, (k - 1) as nat);
            let all = self.king_upto(from, blank, k);
            let dir = compass()[k - 1];
            assert(is_compass(dir));
            assert forall|t: int| 0 <= t < all.len() implies {
                let c = #[trigger] all[t];
                &&& self.passable(c, blank)
                &&& (self.shaped() && self.in_grid(from) ==> c != from)
            } by {
                if t < before.len() {
                    assert(all[t] == before[t]);
                }
            }
        }
    }
}

/// A multiple of a unit step.
pub proof fn lemma_scale(d: i8, k: int)
    requires
        -1 <= d <= 1,
    ensures
        k * d == (if d == 0 {
            0
        } else if d > 0 {
            k
        } else {
            -k
        }),
{
    assert(k * d == (if d == 0 {
        0
    } else if d > 0 {
        k
    } else {
        -k
    })) by (nonlinear_arith)
        requires
            -1 <= d <= 1,
    ;
}

/// The cells that a queen move from `from` can end on: for each compass
/// direction in turn, the cells in that direction up to the first obstructed
/// one, where `blank` counts as free.
pub fn queen_range(board: &Board, from: Pos, blank: Pos) -> (cells: Vec<Pos>)
    requires
        board.wf(),
        board@.interior(from),
        !board@.border(blank),
    ensures
        cells@ == board@.queen_range(from, blank),
        forall|k: int|
            0 <= k < cells.len() ==> (#[trigger] cells[k]) != from && board@.interior(cells[k])
                && (!board@.wall(cells[k]) || cells[k] == blank),
{
    let mut cells: Vec<Pos> = Vec::new();
    let mut k: usize = 0;
    while k < 8
        invariant
            0 <= k <= 8,
            board.wf(),
            board@.interior(from),
            !board@.border(blank),
            cells@ == board@.queen_upto(from, blank, k as nat),
            forall|j: int|
                0 <= j < cells.len() ==> (#[trigger] cells[j]) != from && board@.interior(
                    cells[j],
                ) && (!board@.wall(cells[j]) || cells[j] == blank),
        decreases 8 - k,
    {
        let dir = compass_dir(k);
        let ghost start = cells@;
        let ghost whole = board@.ray(from, dir, blank);
        proof {
            board@.lemma_ray_cells(from, dir, blank);
        }
        let mut place = from.with_offset(dir, 1);
        let ghost mut prev = from;
        while !board.wall_at(place) || place == blank
            invariant
                board.wf(),
                is_compass(dir),
                !board@.border(blank),
                board@.in_grid(prev),
                place == prev.stepped(dir),
                board@.in_grid(place),
                whole == board@.ray(from, dir, blank),
                cells@ + board@.ray(prev, dir, blank) == start + whole,
            decreases board@.slack(prev, dir),
        {
            proof {
                assert(board@.passable(place, blank));
                assert(!board@.border(place));
                assert(board@.ray(prev, dir, blank) == seq![place] + board@.ray(place, dir, blank));
                assert(cells@.push(place) + board@.ray(place, dir, blank) =~= cells@ + (seq![place]
                    + board@.ray(place, dir, blank)));
            }
            cells.push(place);
            proof {
                prev = place;
            }
            place = place.with_offset(dir, 1);
        }
        proof {
            assert(board@.ray(prev, dir, blank) =~= Seq::empty());
            assert(cells@ =~= start + whole);
            assert forall|j: int| 0 <= j < cells.len() implies (#[trigger] cells[j]) != from
                && board@.interior(cells[j]) && (!board@.wall(cells[j]) || cells[j] == blank) by {
                if j >= start.len() {
                    assert(cells[j] == whole[j - start.len()]);
                }
            }
        }
        k += 1;
    }
    cells
}

/// The cells that a king move from `from` can end on: the neighbours in the
/// eight compass directions that are not obstructed, where `blank` counts as
/// free.
pub fn king_range(board: &Board, from: Pos, blank: Pos) -> (cells: Vec<Pos>)
    requires
        board.wf(),
        board@.interior(from),
    ensures
        cells@ == board@.king_range(from, blank),
        forall|k: int|
            0 <= k < cells.len() ==> (#[trigger] cells[k]) != from && board@.in_grid(cells[k])
                && (!board@.wall(cells[k]) || cells[k] == blank),
{
    let mut cells: Vec<Pos> = Vec::new();
    let mut k: usize = 0;
    while k < 8
        invariant
            0 <= k <= 8,
            board.wf(),
            board@.interior(from),
            cells@ == board@.king_upto(from, blank, k as nat),
            forall|j: int|
                0 <= j < cells.len() ==> (#[trigger] cells[j]) != from && board@.in_grid(
                    cells[j],
                ) && (!board@.wall(cells[j]) || cells[j] == blank),
        decreases 8 - k,
    {
        let dir = compass_dir(k);
        let place = from.with_offset(dir, 1);
        if !board.wall_at(place) || place == blank {
            cells.push(place);
        }
        k += 1;
    }
    cells
}

} // verus!
