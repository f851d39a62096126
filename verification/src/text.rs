//! Text for people: numbers, reasons against a move, and a picture of the
//! board.

use crate::board::{Board, BoardView};
use crate::geometry::{Pos, Team};
use crate::movegen::MoveError;
use vstd::prelude::*;
use vstd::string::StringExecFns;

verus! {

/// The character of a decimal digit.
pub open spec fn digit(d: int) -> char {
    if d == 0 {
        '0'
    } else if d == 1 {
        '1'
    } else if d == 2 {
        '2'
    } else if d == 3 {
        '3'
    } else if d == 4 {
        '4'
    } else if d == 5 {
        '5'
    } else if d == 6 {
        '6'
    } else if d == 7 {
        '7'
    } else if d == 8 {
        '8'
    } else {
        '9'
    }
}

/// The decimal digits of a number that is not negative, without leading
/// zeros.
pub open spec fn digits(n: int) -> Seq<char>
    decreases n,
{
    if n < 10 {
        seq![digit(n)]
    } else {
        digits(n / 10).push(digit(n % 10))
    }
}

/// A number in decimal, with a minus sign if it is negative.
pub open spec fn decimal(n: int) -> Seq<char> {
    if n < 0 {
        seq!['-'] + digits(-n)
    } else {
        digits(n)
    }
}

/// A cell as text: row and column in brackets.
pub open spec fn pos_text(p: Pos) -> Seq<char> {
    seq!['('] + decimal(p.row as int) + seq![',', ' '] + decimal(p.col as int) + seq![')']
}

/// Appends one decimal digit.
fn append_digit(s: &mut String, d: u8)
    requires
        d < 10,
    ensures
        final(s)@ == old(s)@.push(digit(d as int)),
{
    proof {
        reveal_strlit("0");
        reveal_strlit("1");
        reveal_strlit("2");
        reveal_strlit("3");
        reveal_strlit("4");
        reveal_strlit("5");
        reveal_strlit("6");
        reveal_strlit("7");
        reveal_strlit("8");
        reveal_strlit("9");
    }
    let ghost before = s@;
    if d == 0 {
        s.append("0");
    } else if d == 1 {
        s.append("1");
    } else if d == 2 {
        s.append("2");
    } else if d == 3 {
        s.append("3");
    } else if d == 4 {
        s.append("4");
    } else if d == 5 {
        s.append("5");
    } else if d == 6 {
        s.append("6");
    } else if d == 7 {
        s.append("7");
    } else if d == 8 {
        s.append("8");
    } else {
        s.append("9");
    }
    assert(s@ =~= before.push(digit(d as int)));
}

/// Appends a number in decimal.
fn append_decimal(s: &mut String, n: i8)
    ensures
        final(s)@ == old(s)@ + decimal(n as int),
{
    let ghost before = s@;
    let mut m: i16 = n as i16;
    if m < 0 {
        proof {
            reveal_strlit("-");
        }
        s.append("-");
        m = -m;
    }
    let ghost signed = s@;
    assert(signed =~= before + (if n < 0 {
        seq!['-']
    } else {
        Seq::<char>::empty()
    }));
    if m >= 100 {
        append_digit(s, (m / 100) as u8);
    }
    if m >= 10 {
        append_digit(s, ((m / 10) % 10) as u8);
    }
    append_digit(s, (m % 10) as u8);
    proof {
        reveal_with_fuel(digits, 3);
        let mi = m as int;
        assert(s@ =~= signed + digits(mi));
        assert(s@ =~= before + decimal(n as int));
    }
}

/// Appends a cell: row and column in brackets.
fn append_pos(s: &mut String, p: Pos)
    ensures
        final(s)@ == old(s)@ + pos_text(p),
{
    let ghost before = s@;
    proof {
        reveal_strlit("(");
        reveal_strlit(", ");
        reveal_strlit(")");
    }
    s.append("(");
    append_decimal(s, p.row);
    s.append(", ");
    append_decimal(s, p.col);
    s.append(")");
    assert(s@ =~= before + pos_text(p));
}

impl MoveError {
    /// The reason in words.
    pub open spec fn text(self) -> Seq<char> {
        match self {
            MoveError::OutOfRange(p) => "Coord "@ + pos_text(p) + " is outside the board"@,
            MoveError::NotInLine => "Moves not in a line!"@,
            MoveError::ShotNotInLine => "Shoot is not in a line!"@,
            MoveError::MoveBlocked(p) => "Can't move through piece at "@ + pos_text(p),
            MoveError::ShotBlocked(p) => "Can't place token through piece at "@ + pos_text(p),
            MoveError::NoPiece => "You don't have a piece at the position"@,
        }
    }

    /// The reason in words, for the player.
    pub fn message(&self) -> (m: String)
        ensures
            m@ == self.text(),
    {
        match self {
            MoveError::OutOfRange(p) => {
                let mut m = String::from_str("Coord ");
                append_pos(&mut m, *p);
                m.append(" is outside the board");
                m
            },
            MoveError::NotInLine => String::from_str("Moves not in a line!"),
            MoveError::ShotNotInLine => String::from_str("Shoot is not in a line!"),
            MoveError::MoveBlocked(p) => {
                let mut m = String::from_str("Can't move through piece at ");
                append_pos(&mut m, *p);
                m
            },
            MoveError::ShotBlocked(p) => {
                let mut m = String::from_str("Can't place token through piece at ");
                append_pos(&mut m, *p);
                m
            },
            MoveError::NoPiece => String::from_str("You don't have a piece at the position"),
        }
    }
}

impl BoardView {
    /// The character that stands for a cell: an upper-case letter for a
    /// piece, by its team; a lower-case one for a piece whose cell is not
    /// marked as obstructed; `#` for any other obstructed cell and `.` for a
    /// free one.
    pub open spec fn glyph(self, p: Pos) -> char {
        match self.piece_at(p, self.pieces.len()) {
            Some(i) => if self.wall(p) {
                if self.pieces[i].team == Team::Black {
                    'B'
                } else {
                    'W'
                }
            } else {
                if self.pieces[i].team == Team::Black {
                    'b'
                } else {
                    'w'
                }
            },
            None => if self.wall(p) {
                '#'
            } else {
                '.'
            },
        }
    }

    /// The characters of the first `n` cells of row `r`.
    pub open spec fn row_text(self, r: int, n: nat) -> Seq<char>
        decreases n,
    {
        if n == 0 {
            Seq::empty()
        } else {
            self.row_text(r, (n - 1) as nat).push(
                self.glyph(Pos { row: r as i8, col: (n - 1) as i8 }),
            )
        }
    }

    /// The first `rows` rows of the board as text, each row closed by a line
    /// feed.
    pub open spec fn picture(self, rows: nat) -> Seq<char>
        decreases rows,
    {
        if rows == 0 {
            Seq::empty()
        } else {
            self.picture((rows - 1) as nat) + self.row_text(rows - 1, self.size as nat).push('\n')
        }
    }
}

impl Board {
    /// The board as text: one line for each row, one character for each
    /// cell.
    pub fn pprint(&self) -> (s: String)
        requires
            self.shaped(),
        ensures
            s@ == self@.picture(self@.size as nat),
    {
        let size = self.size();
        let mut s = String::new();
        let mut r: i8 = 0;
        assert(s@ =~= self@.picture(0));
        while r < size
            invariant
                0 <= r <= size,
                size == self@.size,
                self.shaped(),
                s@ == self@.picture(r as nat),
            decreases size - r,
        {
            let ghost done = s@;
            let mut c: i8 = 0;
            assert(s@ =~= done + self@.row_text(r as int, 0));
            while c < size
                invariant
                    0 <= r < size,
                    0 <= c <= size,
                    size == self@.size,
                    self.shaped(),
                    s@ == done + self@.row_text(r as int, c as nat),
                decreases size - c,
            {
                let pos = Pos { row: r, col: c };
                let wall = self.wall_at(pos);
                let ghost before = s@;
                proof {
                    reveal_strlit("B");
                    reveal_strlit("W");
                    reveal_strlit("b");
                    reveal_strlit("w");
                    reveal_strlit("#");
                    reveal_strlit(".");
                }
                match self.find_piece(pos) {
                    Some(i) => {
                        proof {
                            self@.lemma_piece_at(pos, self@.pieces.len());
                        }
                        let black = self.players()[i].team == Team::Black;
                        if wall {
                            if black {
                                s.append("B");
                            } else {
                                s.append("W");
                            }
                        } else {
                            if black {
                                s.append("b");
                            } else {
                                s.append("w");
                            }
                        }
                    },
                    None => {
                        if wall {
                            s.append("#");
                        } else {
                            s.append(".");
                        }
                    },
                }
                assert(s@ =~= before.push(self@.glyph(pos)));
                assert(s@ =~= done + self@.row_text(r as int, (c + 1) as nat));
                c += 1;
            }
            proof {
                reveal_strlit("\n");
            }
            s.append("\n");
            assert(s@ =~= self@.picture((r + 1) as nat));
            r += 1;
        }
        s
    }
}

} // verus!
