//! Legal moves: what the boards that a side can reach have in common with
//! the moves that the check of a move lets pass.

use crate::board::BoardView;
use crate::geometry::{compass, Pos, Team};
use crate::lines::lemma_line_cells;
use crate::movegen::{lemma_line_in_grid, MoveError};
use crate::session::player_verdict;
use vstd::prelude::*;

verus! {

/// A value is in the concatenation of two sequences exactly when it is in
/// one of them.
pub proof fn lemma_concat_contains<A>(a: Seq<A>, b: Seq<A>, x: A)
    ensures
        (a + b).contains(x) <==> a.contains(x) || b.contains(x),
{
    let c = a + b;
    if c.contains(x) {
        let t = choose|t: int| 0 <= t < c.len() && c[t] == x;
        if t < a.len() {
            assert(a[t] == x);
        } else {
            assert(b[t - a.len()] == x);
        }
    }
    if a.contains(x) {
        let t = choose|t: int| 0 <= t < a.len() && a[t] == x;
        assert(c[t] == x);
    }
    if b.contains(x) {
        let t = choose|t: int| 0 <= t < b.len() && b[t] == x;
        assert(c[a.len() + t] == x);
    }
}

impl BoardView {
    /// Piece `i` may move to `dest` and shoot at `shot`: `dest` is in queen
    /// range of the piece, and `shot` is in queen range of `dest` once the
    /// piece has left its cell.
    pub open spec fn legal(self, i: int, dest: Pos, shot: Pos) -> bool {
        &&& 0 <= i < self.pieces.len()
        &&& self.queen_range(self.pieces[i].pos, self.pieces[i].pos).contains(dest)
        &&& self.queen_range(dest, self.pieces[i].pos).contains(shot)
    }

    /// The board `v` is what the legal move of piece `i` of `team` to `dest`
    /// with the arrow on `shot` leads to.
    pub open spec fn arises(self, team: Team, v: BoardView, i: int, dest: Pos, shot: Pos) -> bool {
        self.legal(i, dest, shot) && self.pieces[i].team == team && v == self.moved(i, dest, shot)
    }

    /// The boards for a list of arrow cells are the boards after the move
    /// with each of these cells.
    pub proof fn lemma_shot_boards_contain(self, i: int, dest: Pos, shots: Seq<Pos>, v: BoardView)
        ensures
            self.shot_boards(i, dest, shots).contains(v) <==> exists|s: Pos|
                shots.contains(s) && v == #[trigger] self.moved(i, dest, s),
    {
        let boards = self.shot_boards(i, dest, shots);
        if boards.contains(v) {
            let t = choose|t: int| 0 <= t < boards.len() && boards[t] == v;
            assert(shots.contains(shots[t]));
            assert(v == self.moved(i, dest, shots[t]));
        }
        if exists|s: Pos| shots.contains(s) && v == #[trigger] self.moved(i, dest, s) {
            let s = choose|s: Pos| shots.contains(s) && v == #[trigger] self.moved(i, dest, s);
            let t = choose|t: int| 0 <= t < shots.len() && shots[t] == s;
            assert(boards[t] == v);
        }
    }

    /// The boards for a list of destinations are the boards after the moves
    /// to one of them with an arrow in queen range.
    pub proof fn lemma_dest_boards_contain(self, i: int, dests: Seq<Pos>, v: BoardView)
        ensures
            self.dest_boards(i, dests).contains(v) <==> exists|d: Pos, s: Pos|
                dests.contains(d) && self.queen_range(d, self.pieces[i].pos).contains(s) && v
                    == #[trigger] self.moved(i, d, s),
        decreases dests.len(),
    {
        let origin = self.pieces[i].pos;
        if dests.len() > 0 {
            let shorter = dests.drop_last();
            let last = dests.last();
            let head = self.dest_boards(i, shorter);
            let tail = self.shot_boards(i, last, self.queen_range(last, origin));
            self.lemma_dest_boards_contain(i, shorter, v);
            self.lemma_shot_boards_contain(i, last, self.queen_range(last, origin), v);
            lemma_concat_contains(head, tail, v);
            if self.dest_boards(i, dests).contains(v) {
                if head.contains(v) {
                    let (d, s) = choose|d: Pos, s: Pos|
                        shorter.contains(d) && self.queen_range(d, origin).contains(s) && v
                            == #[trigger] self.moved(i, d, s);
                    let t = choose|t: int| 0 <= t < shorter.len() && shorter[t] == d;
                    assert(dests[t] == d);
                    assert(dests.contains(d) && self.queen_range(d, origin).contains(s) && v
                        == self.moved(i, d, s));
                } else {
                    let s = choose|s: Pos|
                        self.queen_range(last, origin).contains(s) && v == #[trigger] self.moved(
                            i,
                            last,
                            s,
                        );
                    assert(dests[dests.len() - 1] == last);
                    assert(dests.contains(last) && self.queen_range(last, origin).contains(s) && v
                        == self.moved(i, last, s));
                }
            }
            if exists|d: Pos, s: Pos|
                dests.contains(d) && self.queen_range(d, origin).contains(s) && v
                    == #[trigger] self.moved(i, d, s) {
                let (d, s) = choose|d: Pos, s: Pos|
                    dests.contains(d) && self.queen_range(d, origin).contains(s) && v
                        == #[trigger] self.moved(i, d, s);
                let t = choose|t: int| 0 <= t < dests.len() && dests[t] == d;
                if t < dests.len() - 1 {
                    assert(shorter[t] == d);
                    assert(shorter.contains(d) && self.queen_range(d, origin).contains(s) && v
                        == self.moved(i, d, s));
                    assert(head.contains(v));
                } else {
                    assert(d == last);
                    assert(self.queen_range(last, origin).contains(s) && v == self.moved(
                        i,
                        last,
                        s,
                    ));
                    assert(tail.contains(v));
                }
            }
        }
    }

    /// The boards that the first `n` pieces reach are the boards after their
    /// legal moves.
    pub proof fn lemma_successors_upto_legal(self, team: Team, n: nat, v: BoardView)
        requires
            n <= self.pieces.len(),
        ensures
            self.successors_upto(team, n).contains(v) <==> exists|i: int, d: Pos, s: Pos|
                0 <= i < n && #[trigger] self.arises(team, v, i, d, s),
        decreases n,
    {
        if n > 0 {
            let i = n - 1;
            let origin = self.pieces[i].pos;
            let before = self.successors_upto(team, (n - 1) as nat);
            self.lemma_successors_upto_legal(team, (n - 1) as nat, v);
            self.lemma_dest_boards_contain(i, self.queen_range(origin, origin), v);
            let own = self.piece_moves(i);
            if self.pieces[i].team == team {
                lemma_concat_contains(before, own, v);
            }
            if self.successors_upto(team, n).contains(v) {
                if before.contains(v) {
                    let (j, d, s) = choose|j: int, d: Pos, s: Pos|
                        0 <= j < n - 1 && #[trigger] self.arises(team, v, j, d, s);
                    assert(0 <= j < n && self.arises(team, v, j, d, s));
                } else {
                    let (d, s) = choose|d: Pos, s: Pos|
                        self.queen_range(origin, origin).contains(d) && self.queen_range(
                            d,
                            origin,
                        ).contains(s) && v == #[trigger] self.moved(i, d, s);
                    assert(self.arises(team, v, i, d, s));
                }
            }
            if exists|j: int, d: Pos, s: Pos|
                0 <= j < n && #[trigger] self.arises(team, v, j, d, s) {
                let (j, d, s) = choose|j: int, d: Pos, s: Pos|
                    0 <= j < n && #[trigger] self.arises(team, v, j, d, s);
                if j < n - 1 {
                    assert(0 <= j < n - 1 && self.arises(team, v, j, d, s));
                    assert(before.contains(v));
                } else {
                    assert(self.queen_range(origin, origin).contains(d) && self.queen_range(
                        d,
                        origin,
                    ).contains(s) && v == self.moved(i, d, s));
                    assert(own.contains(v));
                }
            }
        }
    }

    /// The boards that `team` can reach in one move are exactly the boards
    /// after the legal moves of its pieces. In particular no move among them
    /// passes over an obstructed cell, with the piece or with the arrow.
    pub proof fn lemma_successors_legal(self, team: Team, v: BoardView)
        ensures
            self.successors(team).contains(v) <==> exists|i: int, d: Pos, s: Pos| #[trigger]
                self.arises(team, v, i, d, s),
    {
        self.lemma_successors_upto_legal(team, self.pieces.len(), v);
        if exists|i: int, d: Pos, s: Pos| #[trigger] self.arises(team, v, i, d, s) {
            let (i, d, s) = choose|i: int, d: Pos, s: Pos| #[trigger]
                self.arises(team, v, i, d, s);
            assert(0 <= i < self.pieces.len() && self.arises(team, v, i, d, s));
        }
    }

    /// Every board that a side reaches from a well-formed board is well
    /// formed and of the same size.
    pub proof fn lemma_successors_wf(self, team: Team, k: int)
        requires
            self.wf(),
            0 <= k < self.successors(team).len(),
        ensures
            self.successors(team)[k].wf(),
            self.successors(team)[k].size == self.size,
    {
        let v = self.successors(team)[k];
        assert(self.successors(team).contains(v));
        self.lemma_successors_legal(team, v);
        let (i, d, s) = choose|i: int, d: Pos, s: Pos| #[trigger] self.arises(team, v, i, d, s);
        let origin = self.pieces[i].pos;
        assert(self.interior(origin));
        self.lemma_queen_cells(origin, origin, 8);
        self.lemma_queen_cells(d, origin, 8);
        let r1 = self.queen_range(origin, origin);
        let t1 = choose|t: int| 0 <= t < r1.len() && r1[t] == d;
        assert(self.queen_upto(origin, origin, 8)[t1] == d);
        let r2 = self.queen_range(d, origin);
        let t2 = choose|t: int| 0 <= t < r2.len() && r2[t] == s;
        assert(self.queen_upto(d, origin, 8)[t2] == s);
        assert(self.passable(d, origin) && d != origin);
        if self.occupied_by_other(i, d) {
            let j = choose|j: int|
                0 <= j < self.pieces.len() && j != i && (#[trigger] self.pieces[j]).pos == d;
            assert(self.wall(self.pieces[j].pos));
        }
        self.lemma_moved_wf(i, d, s);
    }

    /// A queen range has at most a thousand and eight cells: fewer than a
    /// hundred and twenty-seven in each direction.
    pub proof fn lemma_queen_range_len(self, from: Pos, blank: Pos, k: nat)
        requires
            k <= 8,
        ensures
            self.queen_upto(from, blank, k).len() <= k * 126,
        decreases k,
    {
        if k > 0 {
            self.lemma_queen_range_len(from, blank, (k - 1) as nat);
            self.lemma_ray_cells(from, compass()[k - 1], blank);
        }
    }

    /// The boards for a list of destinations number at most a thousand and
    /// eight for each destination.
    pub proof fn lemma_dest_boards_len(self, i: int, dests: Seq<Pos>)
        ensures
            self.dest_boards(i, dests).len() <= dests.len() * 1008,
        decreases dests.len(),
    {
        if dests.len() > 0 {
            self.lemma_dest_boards_len(i, dests.drop_last());
            self.lemma_queen_range_len(dests.last(), self.pieces[i].pos, 8);
        }
    }

    /// A side with at most four pieces reaches fewer boards than an index
    /// can count.
    pub proof fn lemma_successors_count(self, team: Team)
        requires
            self.pieces.len() <= 4,
        ensures
            self.successors(team).len() <= 4 * 1008 * 1008,
            self.successors(team).len() <= usize::MAX,
    {
        self.lemma_successors_upto_len(team, self.pieces.len());
        assert(self.pieces.len() * (1008 * 1008) <= 4 * (1008 * 1008)) by (nonlinear_arith)
            requires
                self.pieces.len() <= 4,
        ;
    }

    /// The first `n` pieces reach at most a thousand and eight times a
    /// thousand and eight boards each.
    pub proof fn lemma_successors_upto_len(self, team: Team, n: nat)
        ensures
            self.successors_upto(team, n).len() <= n * (1008 * 1008),
        decreases n,
    {
        if n > 0 {
            self.lemma_successors_upto_len(team, (n - 1) as nat);
            let origin = self.pieces[n - 1].pos;
            let dests = self.queen_range(origin, origin);
            self.lemma_queen_range_len(origin, origin, 8);
            self.lemma_dest_boards_len(n - 1, dests);
            assert(dests.len() <= 1008);
            assert(self.piece_moves(n - 1).len() <= dests.len() * 1008);
            assert(dests.len() * 1008 <= 1008 * 1008);
            let before = self.successors_upto(team, (n - 1) as nat);
            assert(before.len() <= (n - 1) * (1008 * 1008));
            assert((n - 1) * (1008 * 1008) + 1008 * 1008 == n * (1008 * 1008)) by (nonlinear_arith);
        }
    }

    /// Where an obstructed cell is found among the first `n`, it is one of
    /// them, it is obstructed and it is not the excepted cell.
    pub proof fn lemma_blocked_some(self, cells: Seq<Pos>, except: Option<Pos>, n: nat) -> (k: int)
        requires
            self.blocked_in(cells, except, n) is Some,
        ensures
            0 <= k < n,
            self.blocked_in(cells, except, n) == Some(cells[k]),
            self.wall(cells[k]),
            except != Some(cells[k]),
        decreases n,
    {
        if self.blocked_in(cells, except, (n - 1) as nat) is Some {
            self.lemma_blocked_some(cells, except, (n - 1) as nat)
        } else {
            n - 1
        }
    }

    /// The check of a move lets exactly the legal moves pass: it gives the
    /// board after the move when the piece on the origin may legally move to
    /// the destination and shoot at the arrow's cell, and a reason against
    /// the move when no piece on the origin may.
    pub proof fn lemma_check_move_legal(self, pos: Pos, mv: Pos, shot: Pos)
        requires
            self.wf(),
        ensures
            match self.check_move(pos, mv, shot) {
                Ok(v) => exists|i: int|
                    0 <= i < self.pieces.len() && (#[trigger] self.pieces[i]).pos == pos
                        && self.legal(i, mv, shot) && v == self.moved(i, mv, shot),
                Err(_) => forall|i: int|
                    0 <= i < self.pieces.len() && (#[trigger] self.pieces[i]).pos == pos
                        ==> !self.legal(i, mv, shot),
            },
    {
        let way = pos.line_to(mv);
        let flight = mv.line_to(shot);
        self.lemma_piece_at(pos, self.pieces.len());
        self.lemma_queen_cells(pos, pos, 8);
        self.lemma_queen_cells(mv, pos, 8);
        match self.check_move(pos, mv, shot) {
            Ok(v) => {
                let i = self.piece_at(pos, self.pieces.len())->Some_0;
                lemma_line_in_grid(self, pos, mv);
                lemma_line_in_grid(self, mv, shot);
                self.lemma_blocked_none(way, None, way.len());
                self.lemma_blocked_none(flight, Some(pos), flight.len());
                assert(self.open_line(pos, mv, pos));
                assert(self.open_line(mv, shot, pos));
                self.lemma_queen_range_open(pos, mv, pos);
                self.lemma_queen_range_open(mv, shot, pos);
                assert(self.pieces[i].pos == pos && self.legal(i, mv, shot));
            },
            Err(e) => {
                assert forall|i: int|
                    0 <= i < self.pieces.len() && (#[trigger] self.pieces[i]).pos
                        == pos implies !self.legal(i, mv, shot) by {
                    if self.legal(i, mv, shot) {
                        assert(self.interior(self.pieces[i].pos));
                        let r1 = self.queen_range(pos, pos);
                        let t1 = choose|t: int| 0 <= t < r1.len() && r1[t] == mv;
                        assert(self.queen_upto(pos, pos, 8)[t1] == mv);
                        let r2 = self.queen_range(mv, pos);
                        let t2 = choose|t: int| 0 <= t < r2.len() && r2[t] == shot;
                        assert(self.queen_upto(mv, pos, 8)[t2] == shot);
                        assert(self.in_grid(mv) && self.in_grid(shot));
                        assert(pos != mv && mv != shot);
                        self.lemma_queen_range_open(pos, mv, pos);
                        self.lemma_queen_range_open(mv, shot, pos);
                        assert(self.open_line(pos, mv, pos));
                        assert(self.open_line(mv, shot, pos));
                        lemma_line_cells(pos, mv);
                        lemma_line_cells(mv, shot);
                        if self.blocked_in(way, None, way.len()) is Some {
                            let k = self.lemma_blocked_some(way, None, way.len());
                            assert(self.passable(way[k], pos));
                            assert(false);
                        }
                        if self.blocked_in(flight, Some(pos), flight.len()) is Some {
                            let k = self.lemma_blocked_some(flight, Some(pos), flight.len());
                            assert(self.passable(flight[k], pos));
                            assert(false);
                        }
                        assert(false);
                    }
                }
            },
        }
    }

    /// The moves that a player of `team` may make lead to exactly the boards
    /// that the search considers for `team`: a board is among those that
    /// `team` can reach exactly when it is the verdict on some move of a
    /// player of `team`.
    pub proof fn lemma_player_moves_are_successors(self, team: Team, v: BoardView)
        requires
            self.wf(),
        ensures
            self.successors(team).contains(v) <==> exists|pos: Pos, mv: Pos, shot: Pos| #[trigger]
                player_verdict(self, team, pos, mv, shot) == Ok::<BoardView, MoveError>(v),
    {
        self.lemma_successors_legal(team, v);
        if self.successors(team).contains(v) {
            let (i, d, s) = choose|i: int, d: Pos, s: Pos| #[trigger] self.arises(team, v, i, d, s);
            let pos = self.pieces[i].pos;
            self.lemma_check_move_legal(pos, d, s);
            self.lemma_piece_at(pos, self.pieces.len());
            assert(player_verdict(self, team, pos, d, s) == Ok::<BoardView, MoveError>(v));
        }
        if exists|pos: Pos, mv: Pos, shot: Pos| #[trigger]
            player_verdict(self, team, pos, mv, shot) == Ok::<BoardView, MoveError>(v) {
            let (pos, mv, shot) = choose|pos: Pos, mv: Pos, shot: Pos| #[trigger]
                player_verdict(self, team, pos, mv, shot) == Ok::<BoardView, MoveError>(v);
            self.lemma_check_move_legal(pos, mv, shot);
            self.lemma_piece_at(pos, self.pieces.len());
            let i = self.piece_at(pos, self.pieces.len())->Some_0;
            assert(self.arises(team, v, i, mv, shot));
        }
    }
}

} // verus!
