//! Teams, grid positions and the line geometry of queen moves.

use vstd::prelude::*;

verus! {

/// One of the two sides.
#[derive(Clone, Copy, Debug, PartialEq, Eq, Hash, Structural)]
pub enum Team {
    White,
    Black,
}

impl Team {
    /// The opposing side.
    pub open spec fn opponent(self) -> Team {
        match self {
            Team::White => Team::Black,
            Team::Black => Team::White,
        }
    }

    /// Both sides, White first.
    pub fn teams() -> (all: Vec<Team>)
        ensures
            all@ == seq![Team::White, Team::Black],
    {
        let mut all: Vec<Team> = Vec::new();
        all.push(Team::White);
        all.push(Team::Black);
        assert(all@ =~= seq![Team::White, Team::Black]);
        all
    }

    /// The opposing side.
    pub fn other(&self) -> (t: Team)
        ensures
            t == self.opponent(),
            t != *self,
            t.opponent() == *self,
    {
        match self {
            Team::White => Team::Black,
            Team::Black => Team::White,
        }
    }
}

/// A cell of the grid, by row and column.
#[derive(Clone, Copy, Debug, PartialEq, Eq, Structural)]
pub struct Pos {
    pub row: i8,
    pub col: i8,
}

/// A piece: the side that owns it and the cell it stands on.
#[derive(Clone, Copy, Debug, PartialEq, Eq, Structural)]
pub struct Player {
    pub team: Team,
    pub pos: Pos,
}

/// A full move: the piece that moves, the cell it moves to and the cell its
/// arrow lands on.
#[derive(Clone, Copy, Debug, PartialEq, Eq, Structural)]
pub struct Move {
    pub player: Player,
    pub new_pos: Pos,
    pub new_shot: Pos,
}

/// `|a - b|`.
pub open spec fn gap(a: int, b: int) -> int {
    if a >= b {
        a - b
    } else {
        b - a
    }
}

/// The coordinate reached from `from` after `n` unit steps towards `to`,
/// stopping at `to`.
pub open spec fn toward(from: int, to: int, n: int) -> int {
    if from <= to {
        if from + n <= to {
            from + n
        } else {
            to
        }
    } else {
        if from - n >= to {
            from - n
        } else {
            to
        }
    }
}

/// The larger of two integers.
pub open spec fn larger(a: int, b: int) -> int {
    if a >= b {
        a
    } else {
        b
    }
}

/// The eight compass directions, in the order in which ranges are scanned.
pub open spec fn compass() -> Seq<(i8, i8)> {
    seq![
        (-1i8, -1i8),
        (-1i8, 0i8),
        (-1i8, 1i8),
        (0i8, -1i8),
        (0i8, 1i8),
        (1i8, -1i8),
        (1i8, 0i8),
        (1i8, 1i8),
    ]
}

/// A direction is one of the eight of the compass.
pub open spec fn is_compass(dir: (i8, i8)) -> bool {
    &&& -1 <= dir.0 <= 1
    &&& -1 <= dir.1 <= 1
    &&& (dir.0 != 0 || dir.1 != 0)
}

/// The compass direction with the given number, in scanning order.
pub fn compass_dir(k: usize) -> (dir: (i8, i8))
    requires
        k < 8,
    ensures
        dir == compass()[k as int],
        is_compass(dir),
{
    if k == 0 {
        (-1, -1)
    } else if k == 1 {
        (-1, 0)
    } else if k == 2 {
        (-1, 1)
    } else if k == 3 {
        (0, -1)
    } else if k == 4 {
        (0, 1)
    } else if k == 5 {
        (1, -1)
    } else if k == 6 {
        (1, 0)
    } else {
        (1, 1)
    }
}

impl Pos {
    /// The two cells share a row, a column or a diagonal.
    pub open spec fn aligned(self, other: Pos) -> bool {
        let dr = gap(self.row as int, other.row as int);
        let dc = gap(self.col as int, other.col as int);
        dr == 0 || dc == 0 || dr == dc
    }

    /// The cell `dist` steps from this one in direction `dir`.
    pub open spec fn shifted(self, dir: (i8, i8), dist: int) -> Pos {
        Pos { row: (self.row + dist * dir.0) as i8, col: (self.col + dist * dir.1) as i8 }
    }

    /// The neighbouring cell in direction `dir`.
    pub open spec fn stepped(self, dir: (i8, i8)) -> Pos {
        Pos { row: (self.row + dir.0) as i8, col: (self.col + dir.1) as i8 }
    }

    /// The cell reached after `n` steps of the walk from this cell towards
    /// `other`: each step moves the row and the column one closer to the
    /// target's, as far as they still differ.
    pub open spec fn walked(self, other: Pos, n: int) -> Pos {
        Pos {
            row: toward(self.row as int, other.row as int, n) as i8,
            col: toward(self.col as int, other.col as int, n) as i8,
        }
    }

    /// The number of steps of the walk from this cell to `other`.
    pub open spec fn walk_len(self, other: Pos) -> int {
        larger(gap(self.row as int, other.row as int), gap(self.col as int, other.col as int))
    }

    /// The cells of the walk from this cell to `other`, without this cell and
    /// with `other` as the last.
    pub open spec fn line_to(self, other: Pos) -> Seq<Pos> {
        Seq::new(self.walk_len(other) as nat, |k: int| self.walked(other, k + 1))
    }

    /// Row-major position of the cell in a grid of `num_cols` columns.
    pub open spec fn linear(self, num_cols: int) -> int {
        self.row * num_cols + self.col
    }

    /// Whether the two cells share a row, a column or a diagonal.
    pub fn in_a_line_with(&self, other: Pos) -> (b: bool)
        ensures
            b == self.aligned(other),
    {
        let dr: i16 = if self.row >= other.row {
            self.row as i16 - other.row as i16
        } else {
            other.row as i16 - self.row as i16
        };
        let dc: i16 = if self.col >= other.col {
            self.col as i16 - other.col as i16
        } else {
            other.col as i16 - self.col as i16
        };
        dr == 0 || dc == 0 || dr == dc
    }

    /// The taxicab distance between the two cells.
    pub fn dist_manhatten(&self, other: Pos) -> (d: u16)
        ensures
            d == gap(self.row as int, other.row as int) + gap(self.col as int, other.col as int),
    {
        let dr: u16 = if self.row >= other.row {
            (self.row as i16 - other.row as i16) as u16
        } else {
            (other.row as i16 - self.row as i16) as u16
        };
        let dc: u16 = if self.col >= other.col {
            (self.col as i16 - other.col as i16) as u16
        } else {
            (other.col as i16 - self.col as i16) as u16
        };
        dr + dc
    }

    /// The cells passed when walking from this cell to `other`, the target
    /// included and the start left out.
    pub fn along_line(&self, other: Pos) -> (v: Vec<Pos>)
        ensures
            v@ == self.line_to(other),
    {
        let mut v: Vec<Pos> = Vec::new();
        let mut walk = *self;
        while walk != other
            invariant
                0 <= v.len() <= self.walk_len(other),
                walk == self.walked(other, v.len() as int),
                (walk == other) <==> v.len() == self.walk_len(other),
                forall|k: int| 0 <= k < v.len() ==> v@[k] == self.walked(other, k + 1),
            decreases self.walk_len(other) - v.len(),
        {
            if walk.col < other.col {
                walk.col += 1;
            }
            if walk.col > other.col {
                walk.col -= 1;
            }
            if walk.row < other.row {
                walk.row += 1;
            }
            if walk.row > other.row {
                walk.row -= 1;
            }
            v.push(walk);
        }
        assert(v@ =~= self.line_to(other));
        v
    }

    /// Row-major position of the cell in a grid of `num_cols` columns.
    pub fn to_linear(&self, num_cols: i8) -> (i: usize)
        requires
            0 <= self.row,
            0 <= self.col,
            0 <= num_cols,
        ensures
            i == self.linear(num_cols as int),
    {
        assert(0 <= self.row * num_cols <= 127 * 127) by (nonlinear_arith)
            requires
                0 <= self.row <= 127,
                0 <= num_cols <= 127,
        ;
        self.row as usize * num_cols as usize + self.col as usize
    }

    /// The cell `dist` steps away in direction `dir`.
    pub fn with_offset(&self, dir: (i8, i8), dist: i8) -> (p: Pos)
        requires
            i8::MIN <= dist * dir.0 <= i8::MAX,
            i8::MIN <= dist * dir.1 <= i8::MAX,
            i8::MIN <= self.row + dist * dir.0 <= i8::MAX,
            i8::MIN <= self.col + dist * dir.1 <= i8::MAX,
        ensures
            p == self.shifted(dir, dist as int),
    {
        Pos { row: self.row + dist * dir.0, col: self.col + dist * dir.1 }
    }
}

/// A cell's row-major index determines the cell.
pub proof fn lemma_linear_injective(size: int, p: Pos, q: Pos)
    requires
        0 <= p.col < size,
        0 <= q.col < size,
        p.linear(size) == q.linear(size),
    ensures
        p == q,
{
    if p.row < q.row {
        assert(q.row * size >= (p.row + 1) * size) by (nonlinear_arith)
            requires
                q.row >= p.row + 1,
                size >= 0,
        ;
        assert((p.row + 1) * size == p.row * size + size) by (nonlinear_arith);
    } else if q.row < p.row {
        assert(p.row * size >= (q.row + 1) * size) by (nonlinear_arith)
            requires
                p.row >= q.row + 1,
                size >= 0,
        ;
        assert((q.row + 1) * size == q.row * size + size) by (nonlinear_arith);
    }
}

/// A cell of the grid has an index below the number of cells.
pub proof fn lemma_linear_bound(size: int, p: Pos)
    requires
        0 <= p.row < size,
        0 <= p.col < size,
    ensures
        0 <= p.linear(size) < size * size,
{
    assert(p.row * size <= (size - 1) * size) by (nonlinear_arith)
        requires
            0 <= p.row <= size - 1,
            size >= 0,
    ;
    assert((size - 1) * size == size * size - size) by (nonlinear_arith);
    assert(0 <= p.row * size) by (nonlinear_arith)
        requires
            0 <= p.row,
            0 <= size,
    ;
}

} // verus!
