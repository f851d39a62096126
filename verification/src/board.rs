//! The board: which cells are obstructed and where the pieces stand.

use crate::bitgrid::{bit_get, bit_set, bits, bits_cleared, bits_clone, BitGrid};
use crate::geometry::{lemma_linear_bound, lemma_linear_injective, Player, Pos};
use vstd::prelude::*;

verus! {

/// The most pieces a board can hold.
pub const MAX_NUM_PLAYERS: usize = 4;

/// What a board is, mathematically: its side, the set of obstructed cells and
/// the pieces in their fixed order.
#[verifier::ext_equal]
pub struct BoardView {
    /// Side of the grid, border included.
    pub size: int,
    /// The obstructed cells: border, pieces and arrows.
    pub blocked: Set<Pos>,
    /// The pieces; a piece keeps its index for the whole game.
    pub pieces: Seq<Player>,
}

impl BoardView {
    /// The cell lies on the grid.
    pub open spec fn in_grid(self, p: Pos) -> bool {
        0 <= p.row < self.size && 0 <= p.col < self.size
    }

    /// The cell lies on the play area, inside the border.
    pub open spec fn interior(self, p: Pos) -> bool {
        1 <= p.row < self.size - 1 && 1 <= p.col < self.size - 1
    }

    /// The cell lies on the one-cell frame around the play area.
    pub open spec fn border(self, p: Pos) -> bool {
        self.in_grid(p) && !self.interior(p)
    }

    /// The cell is obstructed.
    pub open spec fn wall(self, p: Pos) -> bool {
        self.blocked.contains(p)
    }

    /// Some piece stands on the cell.
    pub open spec fn occupied(self, p: Pos) -> bool {
        exists|i: int| 0 <= i < self.pieces.len() && (#[trigger] self.pieces[i]).pos == p
    }

    /// Some piece other than number `i` stands on the cell.
    pub open spec fn occupied_by_other(self, i: int, p: Pos) -> bool {
        exists|j: int| 0 <= j < self.pieces.len() && j != i && (#[trigger] self.pieces[j]).pos == p
    }

    /// The side fits the coordinate type and only cells of the grid are
    /// marked.
    pub open spec fn shaped(self) -> bool {
        &&& 1 <= self.size <= i8::MAX
        &&& forall|p: Pos| #[trigger] self.blocked.contains(p) ==> self.in_grid(p)
    }

    /// The occupancy invariant: the border and every piece's cell are
    /// obstructed, and the pieces stand on distinct cells of the play area.
    pub open spec fn wf(self) -> bool {
        &&& self.shaped()
        &&& forall|p: Pos| #[trigger] self.border(p) ==> self.wall(p)
        &&& 1 <= self.pieces.len() <= MAX_NUM_PLAYERS
        &&& forall|i: int|
            0 <= i < self.pieces.len() ==> self.interior((#[trigger] self.pieces[i]).pos)
                && self.wall(self.pieces[i].pos)
        &&& forall|i: int, j: int|
            0 <= i < j < self.pieces.len() ==> (#[trigger] self.pieces[i]).pos != (
            #[trigger] self.pieces[j]).pos
    }

    /// The pieces stand on distinct cells of the play area.
    pub open spec fn well_placed(self) -> bool {
        &&& forall|i: int|
            0 <= i < self.pieces.len() ==> self.interior((#[trigger] self.pieces[i]).pos)
        &&& forall|i: int, j: int|
            0 <= i < j < self.pieces.len() ==> (#[trigger] self.pieces[i]).pos != (
            #[trigger] self.pieces[j]).pos
    }

    /// The board after piece `i` moved to `dest` and shot at `shot`: the
    /// piece's old cell is cleared first, then the two cells are marked.
    pub open spec fn moved(self, i: int, dest: Pos, shot: Pos) -> BoardView {
        BoardView {
            size: self.size,
            blocked: self.blocked.remove(self.pieces[i].pos).insert(dest).insert(shot),
            pieces: self.pieces.update(i, Player { team: self.pieces[i].team, pos: dest }),
        }
    }

    /// A move keeps the occupancy invariant when the piece lands on a cell of
    /// the play area on which no other piece stands.
    pub proof fn lemma_moved_wf(self, i: int, dest: Pos, shot: Pos)
        requires
            self.wf(),
            0 <= i < self.pieces.len(),
            self.interior(dest),
            !self.occupied_by_other(i, dest),
            self.in_grid(shot),
        ensures
            self.moved(i, dest, shot).wf(),
    {
        let after = self.moved(i, dest, shot);
        assert forall|p: Pos| #[trigger] after.border(p) implies after.wall(p) by {
            assert(self.border(p));
            assert(self.interior(self.pieces[i].pos));
        }
        assert forall|j: int| 0 <= j < after.pieces.len() implies after.interior(
            (#[trigger] after.pieces[j]).pos,
        ) && after.wall(after.pieces[j].pos) by {
            if j != i {
                assert(after.pieces[j] == self.pieces[j]);
                assert(self.pieces[j].pos != self.pieces[i].pos);
            }
        }
        assert forall|j: int, k: int| 0 <= j < k < after.pieces.len() implies (
        #[trigger] after.pieces[j]).pos != (#[trigger] after.pieces[k]).pos by {
            if j == i {
                assert(after.pieces[k] == self.pieces[k]);
            } else if k == i {
                assert(after.pieces[j] == self.pieces[j]);
            } else {
                assert(after.pieces[j] == self.pieces[j]);
                assert(after.pieces[k] == self.pieces[k]);
            }
        }
    }
}

/// A position of the game.
#[derive(Debug)]
pub struct Board {
    walls: BitGrid,
    board_size: i8,
    players: Vec<Player>,
}

impl View for Board {
    type V = BoardView;

    closed spec fn view(&self) -> BoardView {
        BoardView {
            size: self.board_size as int,
            blocked: Set::new(
                |p: Pos|
                    0 <= p.row < self.board_size && 0 <= p.col < self.board_size && bits(
                        self.walls,
                    )[p.linear(self.board_size as int)],
            ),
            pieces: self.players@,
        }
    }
}

impl Clone for Board {
    fn clone(&self) -> (b: Board)
        ensures
            b@ == self@,
            b.shaped() == self.shaped(),
            b.wf() == self.wf(),
    {
        let b = Board {
            walls: bits_clone(&self.walls),
            board_size: self.board_size,
            players: self.players.clone(),
        };
        assert(b.players@ =~= self.players@);
        b
    }
}

impl Board {
    /// The obstruction map has one bit for each cell of the grid.
    pub closed spec fn shaped(&self) -> bool {
        &&& 1 <= self.board_size
        &&& bits(self.walls).len() == self.board_size * self.board_size
    }

    /// The board is well formed: it has its bits and keeps the occupancy
    /// invariant.
    pub open spec fn wf(&self) -> bool {
        self.shaped() && self@.wf()
    }

    /// A board of side `board_size`, border included, with the given pieces
    /// and no arrows: exactly the border and the pieces' cells are
    /// obstructed.
    pub fn new(board_size: i8, players: Vec<Player>) -> (b: Board)
        requires
            1 <= board_size,
            1 <= players.len() <= MAX_NUM_PLAYERS,
            forall|i: int|
                0 <= i < players.len() ==> 0 <= (#[trigger] players[i]).pos.row < board_size && 0
                    <= players[i].pos.col < board_size && players[i].pos != (Pos { row: 0, col: 0 }),
        ensures
            b.shaped(),
            b@.size == board_size,
            b@.pieces == players@,
            forall|p: Pos| b@.wall(p) <==> b@.border(p) || b@.occupied(p),
            b.wf() <==> b@.well_placed(),
    {
        assert(0 <= board_size * board_size <= 127 * 127) by (nonlinear_arith)
            requires
                0 <= board_size <= 127,
        ;
        let cells: u64 = (board_size as u64) * (board_size as u64);
        let ghost pieces = players@;
        let mut b = Board { walls: bits_cleared(cells), board_size, players };
        assert(b@.blocked =~= Set::empty()) by {
            assert forall|p: Pos| !b@.blocked.contains(p) by {
                if 0 <= p.row < board_size && 0 <= p.col < board_size {
                    lemma_linear_bound(board_size as int, p);
                }
            }
        }
        let mut r: i8 = 0;
        while r < board_size
            invariant
                0 <= r <= board_size,
                b.board_size == board_size,
                b.shaped(),
                b@.pieces == pieces,
                b@.blocked =~= Set::new(|p: Pos| b@.border(p) && p.row < r),
            decreases board_size - r,
        {
            let mut c: i8 = 0;
            while c < board_size
                invariant
                    0 <= r < board_size,
                    0 <= c <= board_size,
                    b.board_size == board_size,
                    b.shaped(),
                    b@.pieces == pieces,
                    b@.blocked =~= Set::new(
                        |p: Pos| b@.border(p) && (p.row < r || (p.row == r && p.col < c)),
                    ),
                decreases board_size - c,
            {
                if r == 0 || c == 0 || r == board_size - 1 || c == board_size - 1 {
                    b.wall_set(Pos { row: r, col: c }, true);
                }
                c += 1;
            }
            r += 1;
        }
        assert(b@.blocked =~= Set::new(|p: Pos| b@.border(p)));
        let mut k: usize = 0;
        while k < b.players.len()
            invariant
                0 <= k <= b.players.len(),
                b.board_size == board_size,
                b.shaped(),
                b@.pieces == pieces,
                forall|i: int|
                    0 <= i < pieces.len() ==> 0 <= (#[trigger] pieces[i]).pos.row < board_size
                        && 0 <= pieces[i].pos.col < board_size,
                b@.blocked =~= Set::new(
                    |p: Pos|
                        b@.border(p) || exists|i: int|
                            0 <= i < k && (#[trigger] pieces[i]).pos == p,
                ),
            decreases b.players.len() - k,
        {
            let at = b.players[k].pos;
            b.wall_set(at, true);
            k += 1;
        }
        b
    }

    /// The side of the grid, border included.
    pub fn size(&self) -> (n: i8)
        ensures
            n == self@.size,
            self.shaped() ==> self@.shaped(),
    {
        self.board_size
    }

    /// Marks or clears one cell. Keeping the occupancy invariant is up to the
    /// caller.
    pub fn wall_set(&mut self, p: Pos, val: bool)
        requires
            old(self).shaped(),
            old(self)@.in_grid(p),
        ensures
            final(self).shaped(),
            final(self)@.size == old(self)@.size,
            final(self)@.pieces == old(self)@.pieces,
            final(self)@.blocked == if val {
                old(self)@.blocked.insert(p)
            } else {
                old(self)@.blocked.remove(p)
            },
    {
        let ghost size = self.board_size as int;
        proof {
            lemma_linear_bound(size, p);
        }
        let i = p.to_linear(self.board_size);
        bit_set(&mut self.walls, i as u64, val);
        proof {
            let want = if val {
                old(self)@.blocked.insert(p)
            } else {
                old(self)@.blocked.remove(p)
            };
            assert forall|q: Pos| self@.blocked.contains(q) == want.contains(q) by {
                if 0 <= q.row < size && 0 <= q.col < size && q != p {
                    lemma_linear_bound(size, q);
                    if q.linear(size) == p.linear(size) {
                        lemma_linear_injective(size, p, q);
                    }
                }
            }
            assert(self@.blocked =~= want);
        }
    }

    /// Whether a cell is obstructed.
    pub fn wall_at(&self, p: Pos) -> (b: bool)
        requires
            self.shaped(),
            self@.in_grid(p),
        ensures
            b == self@.wall(p),
    {
        proof {
            lemma_linear_bound(self.board_size as int, p);
        }
        bit_get(&self.walls, p.to_linear(self.board_size) as u64)
    }

    /// The board after piece `player_ix` moved to `pos` and shot at `shot`.
    /// The move is carried out as given: whether it is legal is for the
    /// caller to decide.
    pub fn with_move(&self, player_ix: usize, pos: Pos, shot: Pos) -> (b: Board)
        requires
            self.shaped(),
            player_ix < self@.pieces.len(),
            self@.in_grid(self@.pieces[player_ix as int].pos),
            self@.in_grid(pos),
            self@.in_grid(shot),
        ensures
            b.shaped(),
            b@ == self@.moved(player_ix as int, pos, shot),
            forall|p: Pos|
                b@.wall(p) <==> p == pos || p == shot || (self@.wall(p) && p
                    != self@.pieces[player_ix as int].pos),
            self.wf() && self@.interior(pos) && !self@.occupied_by_other(player_ix as int, pos)
                ==> b.wf(),
    {
        let mut board = self.clone();
        let piece = self.players[player_ix];
        board.wall_set(piece.pos, false);
        board.wall_set(pos, true);
        board.wall_set(shot, true);
        board.players.set(player_ix, Player { team: piece.team, pos });
        proof {
            assert(board@.pieces =~= self@.moved(player_ix as int, pos, shot).pieces);
            if self.wf() && self@.interior(pos) && !self@.occupied_by_other(
                player_ix as int,
                pos,
            ) {
                self@.lemma_moved_wf(player_ix as int, pos, shot);
            }
        }
        board
    }

    /// The pieces, in their fixed order.
    pub fn players(&self) -> (all: &Vec<Player>)
        ensures
            all@ == self@.pieces,
    {
        &self.players
    }
}

} // verus!
