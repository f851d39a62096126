//! Queen ranges and straight lines: a cell is in queen range of another
//! exactly when the straight walk between the two is open.

use crate::board::BoardView;
use crate::geometry::{compass, is_compass, Pos};
use crate::range::lemma_scale;
use vstd::prelude::*;

verus! {

/// The sign of `b - a`.
pub open spec fn sign(a: int, b: int) -> i8 {
    if b > a {
        1i8
    } else if b < a {
        -1i8
    } else {
        0i8
    }
}

/// The direction in which the walk from `from` to `to` sets out.
pub open spec fn heading(from: Pos, to: Pos) -> (i8, i8) {
    (sign(from.row as int, to.row as int), sign(from.col as int, to.col as int))
}

/// Every compass direction has its number in the scanning order.
pub proof fn lemma_compass_number(dir: (i8, i8)) -> (j: int)
    requires
        is_compass(dir),
    ensures
        0 <= j < 8,
        compass()[j] == dir,
{
    if dir.0 == -1 {
        if dir.1 == -1 {
            0
        } else if dir.1 == 0 {
            1
        } else {
            2
        }
    } else if dir.0 == 0 {
        if dir.1 == -1 {
            3
        } else {
            4
        }
    } else {
        if dir.1 == -1 {
            5
        } else if dir.1 == 0 {
            6
        } else {
            7
        }
    }
}

/// The walk between two different cells in a line runs in one compass
/// direction, a step at a time.
pub proof fn lemma_line_cells(from: Pos, to: Pos)
    requires
        from != to,
        from.aligned(to),
    ensures
        is_compass(heading(from, to)),
        from.walk_len(to) >= 1,
        from.line_to(to).len() == from.walk_len(to),
        forall|k: int|
            0 <= k < from.walk_len(to) ==> #[trigger] from.line_to(to)[k] == from.shifted(
                heading(from, to),
                k + 1,
            ),
        from.line_to(to).last() == to,
        forall|k: int| 0 <= k < from.walk_len(to) ==> #[trigger] from.line_to(to)[k] != from,
{
    let dir = heading(from, to);
    let n = from.walk_len(to);
    assert forall|k: int| 0 <= k < n implies #[trigger] from.line_to(to)[k] == from.shifted(
        dir,
        k + 1,
    ) by {
        lemma_scale(dir.0, k + 1);
        lemma_scale(dir.1, k + 1);
    }
}

impl BoardView {
    /// The straight walk from `from` to `to` is open: the two cells differ
    /// and lie in a line, and every cell of the walk, `to` included, is
    /// passable.
    pub open spec fn open_line(self, from: Pos, to: Pos, blank: Pos) -> bool {
        &&& from != to
        &&& from.aligned(to)
        &&& forall|k: int|
            0 <= k < from.line_to(to).len() ==> self.passable(
                #[trigger] from.line_to(to)[k],
                blank,
            )
    }

    /// A ray is at least as long as the run of passable cells ahead, and
    /// holds them in order.
    pub proof fn lemma_ray_prefix(self, from: Pos, dir: (i8, i8), blank: Pos, n: nat)
        requires
            self.shaped(),
            self.in_grid(from),
            is_compass(dir),
            forall|m: int| 1 <= m <= n ==> self.passable(#[trigger] from.shifted(dir, m), blank),
        ensures
            self.ray(from, dir, blank).len() >= n,
            forall|k: int|
                0 <= k < n ==> #[trigger] self.ray(from, dir, blank)[k] == from.shifted(dir, k + 1),
        decreases n,
    {
        if n > 0 {
            let next = from.stepped(dir);
            lemma_scale(dir.0, 1);
            lemma_scale(dir.1, 1);
            assert(next == from.shifted(dir, 1));
            assert(self.passable(next, blank));
            assert forall|m: int| 1 <= m <= n - 1 implies self.passable(
                #[trigger] next.shifted(dir, m),
                blank,
            ) by {
                lemma_scale(dir.0, m);
                lemma_scale(dir.1, m);
                lemma_scale(dir.0, m + 1);
                lemma_scale(dir.1, m + 1);
                assert(next.shifted(dir, m) == from.shifted(dir, m + 1));
            }
            self.lemma_ray_prefix(next, dir, blank, (n - 1) as nat);
            let rest = self.ray(next, dir, blank);
            let all = self.ray(from, dir, blank);
            assert(all == seq![next] + rest);
            assert forall|k: int| 0 <= k < n implies #[trigger] all[k] == from.shifted(
                dir,
                k + 1,
            ) by {
                if k > 0 {
                    assert(all[k] == rest[k - 1]);
                    lemma_scale(dir.0, k);
                    lemma_scale(dir.1, k);
                    lemma_scale(dir.0, k + 1);
                    lemma_scale(dir.1, k + 1);
                    assert(next.shifted(dir, k) == from.shifted(dir, k + 1));
                }
            }
        }
    }

    /// The walk to a cell of a ray is open.
    pub proof fn lemma_ray_open(self, from: Pos, dir: (i8, i8), blank: Pos, j: int)
        requires
            self.shaped(),
            0 <= j < self.ray(from, dir, blank).len(),
        ensures
            self.open_line(from, self.ray(from, dir, blank)[j], blank),
    {
        let r = self.ray(from, dir, blank);
        let to = r[j];
        self.lemma_ray_cells(from, dir, blank);
        assert(is_compass(dir) && self.in_grid(from));
        lemma_scale(dir.0, j + 1);
        lemma_scale(dir.1, j + 1);
        assert(self.passable(to, blank));
        assert(to == from.shifted(dir, j + 1));
        assert(heading(from, to) == dir);
        assert(from.walk_len(to) == j + 1);
        lemma_line_cells(from, to);
        assert forall|k: int| 0 <= k < from.line_to(to).len() implies self.passable(
            #[trigger] from.line_to(to)[k],
            blank,
        ) by {
            assert(from.line_to(to)[k] == from.shifted(dir, k + 1));
            assert(r[k] == from.shifted(dir, k + 1));
        }
    }

    /// A cell is in the rays of the first `k` directions exactly when it is
    /// in one of them.
    pub proof fn lemma_queen_upto_contains(self, from: Pos, blank: Pos, k: nat, c: Pos)
        requires
            k <= 8,
        ensures
            self.queen_upto(from, blank, k).contains(c) <==> exists|j: int|
                0 <= j < k && #[trigger] self.ray(from, compass()[j], blank).contains(c),
        decreases k,
    {
        if k > 0 {
            self.lemma_queen_upto_contains(from, blank, (k - 1) as nat, c);
            let before = self.queen_upto(from, blank, (k - 1) as nat);
            let last = self.ray(from, compass()[k - 1], blank);
            let all = self.queen_upto(from, blank, k);
            assert(all == before + last);
            if all.contains(c) {
                let t = choose|t: int| 0 <= t < all.len() && all[t] == c;
                if t < before.len() {
                    assert(before[t] == c);
                    assert(before.contains(c));
                    let j = choose|j: int|
                        0 <= j < k - 1 && #[trigger] self.ray(from, compass()[j], blank).contains(
                            c,
                        );
                    assert(0 <= j < k && self.ray(from, compass()[j], blank).contains(c));
                } else {
                    assert(last[t - before.len()] == c);
                    assert(last.contains(c));
                    assert(self.ray(from, compass()[k - 1], blank).contains(c));
                }
            }
            if exists|j: int|
                0 <= j < k && #[trigger] self.ray(from, compass()[j], blank).contains(c) {
                let j = choose|j: int|
                    0 <= j < k && #[trigger] self.ray(from, compass()[j], blank).contains(c);
                if j < k - 1 {
                    assert(before.contains(c));
                    let t = choose|t: int| 0 <= t < before.len() && before[t] == c;
                    assert(all[t] == c);
                } else {
                    let t = choose|t: int| 0 <= t < last.len() && last[t] == c;
                    assert(all[before.len() + t] == c);
                }
            }
        }
    }

    /// A cell is in queen range of `from` exactly when the straight walk
    /// from `from` to it is open: the two lie in a line and no cell on the
    /// way, the target included, is obstructed, `blank` counting as free.
    pub proof fn lemma_queen_range_open(self, from: Pos, to: Pos, blank: Pos)
        requires
            self.shaped(),
            self.in_grid(from),
        ensures
            self.queen_range(from, blank).contains(to) <==> self.open_line(from, to, blank),
    {
        self.lemma_queen_upto_contains(from, blank, 8, to);
        if self.queen_range(from, blank).contains(to) {
            let j = choose|j: int|
                0 <= j < 8 && #[trigger] self.ray(from, compass()[j], blank).contains(to);
            let r = self.ray(from, compass()[j], blank);
            let t = choose|t: int| 0 <= t < r.len() && r[t] == to;
            self.lemma_ray_open(from, compass()[j], blank, t);
        }
        if self.open_line(from, to, blank) {
            lemma_line_cells(from, to);
            let dir = heading(from, to);
            let n = from.walk_len(to);
            assert forall|m: int| 1 <= m <= n implies self.passable(
                #[trigger] from.shifted(dir, m),
                blank,
            ) by {
                assert(from.line_to(to)[m - 1] == from.shifted(dir, m));
            }
            self.lemma_ray_prefix(from, dir, blank, n as nat);
            let r = self.ray(from, dir, blank);
            assert(r[n - 1] == from.shifted(dir, n));
            assert(from.line_to(to)[n - 1] == to);
            assert(r.contains(to));
            let j = lemma_compass_number(dir);
            assert(self.ray(from, compass()[j], blank).contains(to));
        }
    }
}

} // verus!
