//! Legal moves: every board a side can reach in one move, and the check of a
//! move that comes from outside.

use crate::board::{Board, BoardView};
use crate::geometry::{Pos, Team};
use crate::range::queen_range;
use vstd::prelude::*;

verus! {

/// The views of a sequence of boards.
pub open spec fn views(boards: Seq<Board>) -> Seq<BoardView> {
    Seq::new(boards.len(), |k: int| boards[k]@)
}

impl BoardView {
    /// The boards reached when piece `i` moves to `dest` and shoots at each
    /// cell of `shots` in turn.
    pub open spec fn shot_boards(self, i: int, dest: Pos, shots: Seq<Pos>) -> Seq<BoardView> {
        Seq::new(shots.len(), |k: int| self.moved(i, dest, shots[k]))
    }

    /// The boards reached when piece `i` moves to each cell of `dests` in
    /// turn and shoots at each cell in queen range of it, where the cell the
    /// piece has left counts as free.
    pub open spec fn dest_boards(self, i: int, dests: Seq<Pos>) -> Seq<BoardView>
        decreases dests.len(),
    {
        if dests.len() == 0 {
            Seq::empty()
        } else {
            self.dest_boards(i, dests.drop_last()) + self.shot_boards(
                i,
                dests.last(),
                self.queen_range(dests.last(), self.pieces[i].pos),
            )
        }
    }

    /// Every board that piece `i` can reach in one move.
    pub open spec fn piece_moves(self, i: int) -> Seq<BoardView> {
        self.dest_boards(i, self.queen_range(self.pieces[i].pos, self.pieces[i].pos))
    }

    /// Every board that the first `n` pieces can reach in one move, as far
    /// as they belong to `team`.
    pub open spec fn successors_upto(self, team: Team, n: nat) -> Seq<BoardView>
        decreases n,
    {
        if n == 0 {
            Seq::empty()
        } else {
            let before = self.successors_upto(team, (n - 1) as nat);
            if self.pieces[n - 1].team == team {
                before + self.piece_moves(n - 1)
            } else {
                before
            }
        }
    }

    /// Every board that `team` can reach in one move: piece by piece,
    /// destination by destination, arrow by arrow.
    pub open spec fn successors(self, team: Team) -> Seq<BoardView> {
        self.successors_upto(team, self.pieces.len())
    }
}

/// Why a move that came from outside was turned down.
#[derive(Clone, Copy, Debug, PartialEq, Eq, Structural)]
pub enum MoveError {
    /// The cell does not lie on the grid.
    OutOfRange(Pos),
    /// The piece would not move, the arrow would not fly, or the destination
    /// is not in a line with the origin.
    NotInLine,
    /// The arrow's cell is not in a line with the destination.
    ShotNotInLine,
    /// The cell lies on the piece's way and is obstructed.
    MoveBlocked(Pos),
    /// The cell lies on the arrow's way and is obstructed.
    ShotBlocked(Pos),
    /// No piece stands on the origin.
    NoPiece,
}

impl BoardView {
    /// The first obstructed cell among the first `n` of `cells`, where the
    /// cell `except` counts as free.
    pub open spec fn blocked_in(self, cells: Seq<Pos>, except: Option<Pos>, n: nat) -> Option<Pos>
        decreases n,
    {
        if n == 0 {
            None
        } else {
            match self.blocked_in(cells, except, (n - 1) as nat) {
                Some(c) => Some(c),
                None => if self.wall(cells[n - 1]) && except != Some(cells[n - 1]) {
                    Some(cells[n - 1])
                } else {
                    None
                },
            }
        }
    }

    /// The number of the first piece among the first `n` that stands on `p`.
    pub open spec fn piece_at(self, p: Pos, n: nat) -> Option<int>
        decreases n,
    {
        if n == 0 {
            None
        } else {
            match self.piece_at(p, (n - 1) as nat) {
                Some(i) => Some(i),
                None => if self.pieces[n - 1].pos == p {
                    Some(n - 1)
                } else {
                    None
                },
            }
        }
    }

    /// The verdict on a move given by its three cells: the board after the
    /// move, or the first of the reasons against it, tried in this order. A
    /// cell is off the grid (origin, destination, arrow, in this order); the
    /// origin is the destination, the destination is the arrow's cell, or
    /// the two are not in a line; destination and arrow's cell are not in a
    /// line; a cell on the way from the origin up to the destination is
    /// obstructed; a cell on the way from the destination up to the arrow's
    /// cell is obstructed and is not the origin; no piece stands on the
    /// origin.
    pub open spec fn check_move(self, pos: Pos, mv: Pos, shot: Pos) -> Result<
        BoardView,
        MoveError,
    > {
        let way = pos.line_to(mv);
        let flight = mv.line_to(shot);
        if !self.in_grid(pos) {
            Err(MoveError::OutOfRange(pos))
        } else if !self.in_grid(mv) {
            Err(MoveError::OutOfRange(mv))
        } else if !self.in_grid(shot) {
            Err(MoveError::OutOfRange(shot))
        } else if pos == mv || mv == shot || !pos.aligned(mv) {
            Err(MoveError::NotInLine)
        } else if !mv.aligned(shot) {
            Err(MoveError::ShotNotInLine)
        } else if let Some(c) = self.blocked_in(way, None, way.len()) {
            Err(MoveError::MoveBlocked(c))
        } else if let Some(c) = self.blocked_in(flight, Some(pos), flight.len()) {
            Err(MoveError::ShotBlocked(c))
        } else {
            match self.piece_at(pos, self.pieces.len()) {
                None => Err(MoveError::NoPiece),
                Some(i) => Ok(self.moved(i, mv, shot)),
            }
        }
    }

    /// Once an obstructed cell is found, looking further finds the same.
    pub proof fn lemma_blocked_stays(self, cells: Seq<Pos>, except: Option<Pos>, n: nat, m: nat)
        requires
            n <= m,
            self.blocked_in(cells, except, n) is Some,
        ensures
            self.blocked_in(cells, except, m) == self.blocked_in(cells, except, n),
        decreases m,
    {
        if n < m {
            self.lemma_blocked_stays(cells, except, n, (m - 1) as nat);
        }
    }

    /// Where no obstructed cell is found, every cell is free or excepted.
    pub proof fn lemma_blocked_none(self, cells: Seq<Pos>, except: Option<Pos>, n: nat)
        requires
            self.blocked_in(cells, except, n) is None,
        ensures
            forall|k: int| 0 <= k < n ==> !self.wall(#[trigger] cells[k]) || except == Some(cells[k]),
        decreases n,
    {
        if n > 0 {
            self.lemma_blocked_none(cells, except, (n - 1) as nat);
        }
    }

    /// Once a piece is found on a cell, looking further finds the same.
    pub proof fn lemma_piece_stays(self, p: Pos, n: nat, m: nat)
        requires
            n <= m,
            self.piece_at(p, n) is Some,
        ensures
            self.piece_at(p, m) == self.piece_at(p, n),
        decreases m,
    {
        if n < m {
            self.lemma_piece_stays(p, n, (m - 1) as nat);
        }
    }

    /// The piece found on a cell stands there; where none is found, none
    /// stands there.
    pub proof fn lemma_piece_at(self, p: Pos, n: nat)
        requires
            n <= self.pieces.len(),
        ensures
            match self.piece_at(p, n) {
                Some(i) => 0 <= i < n && self.pieces[i].pos == p,
                None => forall|k: int| 0 <= k < n ==> (#[trigger] self.pieces[k]).pos != p,
            },
        decreases n,
    {
        if n > 0 {
            self.lemma_piece_at(p, (n - 1) as nat);
        }
    }
}

/// The cells of a walk between two cells of the grid lie on the grid.
pub proof fn lemma_line_in_grid(v: BoardView, a: Pos, b: Pos)
    requires
        v.in_grid(a),
        v.in_grid(b),
        v.size <= i8::MAX,
    ensures
        forall|k: int| 0 <= k < a.line_to(b).len() ==> v.in_grid(#[trigger] a.line_to(b)[k]),
        a != b ==> a.line_to(b).len() > 0 && a.line_to(b).last() == b,
{
}

impl Board {
    /// The first obstructed cell among `cells`, where `except` counts as
    /// free.
    fn first_blocked(&self, cells: &Vec<Pos>, except: Option<Pos>) -> (found: Option<Pos>)
        requires
            self.shaped(),
            forall|k: int| 0 <= k < cells.len() ==> self@.in_grid(#[trigger] cells[k]),
        ensures
            found == self@.blocked_in(cells@, except, cells.len() as nat),
    {
        let mut k: usize = 0;
        while k < cells.len()
            invariant
                0 <= k <= cells.len(),
                self.shaped(),
                forall|j: int| 0 <= j < cells.len() ==> self@.in_grid(#[trigger] cells[j]),
                self@.blocked_in(cells@, except, k as nat) is None,
            decreases cells.len() - k,
        {
            let c = cells[k];
            let excepted = match except {
                Some(e) => e == c,
                None => false,
            };
            if self.wall_at(c) && !excepted {
                proof {
                    assert(self@.blocked_in(cells@, except, (k + 1) as nat) == Some(c));
                    self@.lemma_blocked_stays(cells@, except, (k + 1) as nat, cells.len() as nat);
                }
                return Some(c);
            }
            k += 1;
        }
        None
    }

    /// The number of the first piece that stands on `p`.
    pub fn find_piece(&self, p: Pos) -> (found: Option<usize>)
        ensures
            match found {
                Some(i) => i < self@.pieces.len() && self@.pieces[i as int].pos == p
                    && self@.piece_at(p, self@.pieces.len()) == Some(i as int),
                None => self@.piece_at(p, self@.pieces.len()) is None,
            },
    {
        let players = self.players();
        let mut k: usize = 0;
        while k < players.len()
            invariant
                0 <= k <= players.len(),
                players@ == self@.pieces,
                self@.piece_at(p, k as nat) is None,
            decreases players.len() - k,
        {
            if players[k].pos == p {
                proof {
                    assert(self@.piece_at(p, (k + 1) as nat) == Some(k as int));
                    self@.lemma_piece_stays(p, (k + 1) as nat, players.len() as nat);
                }
                return Some(k);
            }
            k += 1;
        }
        None
    }

    /// Checks a move that comes from outside, given by the cell of the
    /// piece, the cell it moves to and the cell its arrow lands on, and
    /// carries it out. The move is turned down if a cell is off the grid, if
    /// the piece or the arrow does not travel along a line, if a cell on the
    /// piece's way or its destination is obstructed, if a cell on the
    /// arrow's way or its target is obstructed and is not the cell that the
    /// piece has left, or if no piece stands on the origin.
    pub fn with_move_checked(&self, pos: Pos, mv: Pos, shot: Pos) -> (r: Result<Board, MoveError>)
        requires
            self.wf(),
        ensures
            match (r, self@.check_move(pos, mv, shot)) {
                (Ok(b), Ok(v)) => b@ == v && b.wf(),
                (Err(e), Err(f)) => e == f,
                _ => false,
            },
    {
        let size = self.size();
        if !(0 <= pos.row && pos.row < size && 0 <= pos.col && pos.col < size) {
            return Err(MoveError::OutOfRange(pos));
        }
        if !(0 <= mv.row && mv.row < size && 0 <= mv.col && mv.col < size) {
            return Err(MoveError::OutOfRange(mv));
        }
        if !(0 <= shot.row && shot.row < size && 0 <= shot.col && shot.col < size) {
            return Err(MoveError::OutOfRange(shot));
        }
        if pos == mv || mv == shot || !pos.in_a_line_with(mv) {
            return Err(MoveError::NotInLine);
        }
        if !mv.in_a_line_with(shot) {
            return Err(MoveError::ShotNotInLine);
        }
        proof {
            lemma_line_in_grid(self@, pos, mv);
            lemma_line_in_grid(self@, mv, shot);
        }
        let way = pos.along_line(mv);
        if let Some(c) = self.first_blocked(&way, None) {
            return Err(MoveError::MoveBlocked(c));
        }
        let flight = mv.along_line(shot);
        if let Some(c) = self.first_blocked(&flight, Some(pos)) {
            return Err(MoveError::ShotBlocked(c));
        }
        match self.find_piece(pos) {
            None => Err(MoveError::NoPiece),
            Some(i) => {
                proof {
                    self@.lemma_piece_at(pos, self@.pieces.len());
                    self@.lemma_blocked_none(way@, None, way@.len());
                    assert(!self@.wall(way@[way@.len() - 1]));
                    assert(!self@.wall(mv));
                    assert(!self@.border(mv));
                    if self@.occupied_by_other(i as int, mv) {
                        let j = choose|j: int|
                            0 <= j < self@.pieces.len() && j != i && (
                            #[trigger] self@.pieces[j]).pos == mv;
                        assert(self@.wall(self@.pieces[j].pos));
                    }
                }
                Ok(self.with_move(i, mv, shot))
            },
        }
    }

    /// Every board that `team` can reach in one move. For each of its
    /// pieces, in order, the piece moves to each cell in queen range of its
    /// own, and from there shoots at each cell in queen range, where the cell
    /// it has left counts as free.
    pub fn successors(&self, team: Team) -> (out: Vec<Board>)
        requires
            self.wf(),
        ensures
            views(out@) == self@.successors(team),
            forall|k: int|
                0 <= k < out.len() ==> (#[trigger] out[k]).wf() && out[k]@.size == self@.size,
    {
        let players = self.players();
        let mut out: Vec<Board> = Vec::new();
        let mut pi: usize = 0;
        assert(views(out@) =~= self@.successors_upto(team, 0));
        while pi < players.len()
            invariant
                0 <= pi <= players.len(),
                self.wf(),
                players@ == self@.pieces,
                views(out@) == self@.successors_upto(team, pi as nat),
                forall|k: int|
                    0 <= k < out.len() ==> (#[trigger] out[k]).wf() && out[k]@.size == self@.size,
            decreases players.len() - pi,
        {
            let player = players[pi];
            if player.team == team {
                let dests = queen_range(self, player.pos, player.pos);
                let ghost base = views(out@);
                let mut di: usize = 0;
                assert(views(out@) =~= base + self@.dest_boards(pi as int, dests@.take(0)));
                while di < dests.len()
                    invariant
                        0 <= di <= dests.len(),
                        0 <= pi < players.len(),
                        self.wf(),
                        players@ == self@.pieces,
                        player == players[pi as int],
                        dests@ == self@.queen_range(player.pos, player.pos),
                        forall|k: int|
                            0 <= k < dests.len() ==> (#[trigger] dests[k]) != player.pos
                                && self@.interior(dests[k]) && !self@.wall(dests[k]),
                        views(out@) == base + self@.dest_boards(pi as int, dests@.take(di as int)),
                        forall|k: int|
                    0 <= k < out.len() ==> (#[trigger] out[k]).wf() && out[k]@.size == self@.size,
                    decreases dests.len() - di,
                {
                    let pos = dests[di];
                    let shots = queen_range(self, pos, player.pos);
                    let ghost base2 = views(out@);
                    let mut si: usize = 0;
                    assert(views(out@) =~= base2 + self@.shot_boards(
                        pi as int,
                        pos,
                        shots@.take(0),
                    ));
                    while si < shots.len()
                        invariant
                            0 <= si <= shots.len(),
                            0 <= pi < players.len(),
                            self.wf(),
                            players@ == self@.pieces,
                            self@.interior(pos),
                            !self@.wall(pos),
                            forall|k: int|
                                0 <= k < shots.len() ==> self@.interior(#[trigger] shots[k]),
                            views(out@) == base2 + self@.shot_boards(
                                pi as int,
                                pos,
                                shots@.take(si as int),
                            ),
                            forall|k: int|
                    0 <= k < out.len() ==> (#[trigger] out[k]).wf() && out[k]@.size == self@.size,
                        decreases shots.len() - si,
                    {
                        let next = self.with_move(pi, pos, shots[si]);
                        proof {
                            assert(!self@.occupied_by_other(pi as int, pos));
                            assert(views(out@.push(next)) =~= views(out@).push(next@));
                            assert(self@.shot_boards(pi as int, pos, shots@.take(si + 1))
                                =~= self@.shot_boards(pi as int, pos, shots@.take(si as int)).push(
                                next@,
                            ));
                            assert(views(out@.push(next)) =~= base2 + self@.shot_boards(
                                pi as int,
                                pos,
                                shots@.take(si + 1),
                            ));
                        }
                        out.push(next);
                        si += 1;
                    }
                    proof {
                        assert(shots@.take(shots.len() as int) =~= shots@);
                        let upto = dests@.take(di + 1);
                        assert(upto.drop_last() =~= dests@.take(di as int));
                        assert(upto.last() == pos);
                        assert(views(out@) =~= base + self@.dest_boards(pi as int, upto));
                    }
                    di += 1;
                }
                proof {
                    assert(dests@.take(dests.len() as int) =~= dests@);
                }
            }
            pi += 1;
        }
        out
    }
}

} // verus!
