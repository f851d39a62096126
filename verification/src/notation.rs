//! Moves as text: three cells, each written as a row and a column.

use crate::geometry::Pos;
use vstd::prelude::*;
use vstd::string::StrSliceExecFns;

verus! {

/// The index that a character stands for: the digits `1` to `8` and the
/// letters `a` to `h` each count from one.
pub open spec fn index_of(c: char) -> Option<i8> {
    if '1' <= c <= '8' {
        Some((c as u32 - '1' as u32 + 1) as i8)
    } else if 'a' <= c <= 'h' {
        Some((c as u32 - 'a' as u32 + 1) as i8)
    } else {
        None
    }
}

/// The letters `A` to `H` in lower case; any other character as it is.
pub open spec fn folded(c: char) -> char {
    if c == 'A' {
        'a'
    } else if c == 'B' {
        'b'
    } else if c == 'C' {
        'c'
    } else if c == 'D' {
        'd'
    } else if c == 'E' {
        'e'
    } else if c == 'F' {
        'f'
    } else if c == 'G' {
        'g'
    } else if c == 'H' {
        'h'
    } else {
        c
    }
}

/// The cell that a word stands for: two characters, the row first, each of
/// them an index.
pub open spec fn pos_of(word: Seq<char>) -> Option<Pos> {
    if word.len() == 2 && index_of(word[0]) is Some && index_of(word[1]) is Some {
        Some(Pos { row: index_of(word[0])->Some_0, col: index_of(word[1])->Some_0 })
    } else {
        None
    }
}

/// A character that parts words.
pub open spec fn is_space(c: char) -> bool {
    c == ' ' || c == '\t' || c == '\n' || c == '\r'
}

/// The words of a text: the longest runs of characters without a space
/// among them, in order.
pub open spec fn words(text: Seq<char>) -> Seq<Seq<char>>
    decreases text.len(),
{
    if text.len() == 0 {
        Seq::empty()
    } else {
        let before = words(text.drop_last());
        let c = text.last();
        if is_space(c) {
            before
        } else if text.len() >= 2 && !is_space(text[text.len() - 2]) {
            before.drop_last().push(before.last().push(c))
        } else {
            before.push(seq![c])
        }
    }
}

/// A text with the letters `A` to `H` in lower case.
pub open spec fn folded_text(text: Seq<char>) -> Seq<char> {
    Seq::new(text.len(), |i: int| folded(text[i]))
}

/// The move that a text stands for: exactly three words, each of them a
/// cell; the cell of the piece, the cell it moves to and the cell of its
/// arrow. Letters may be written in either case.
pub open spec fn move_of(text: Seq<char>) -> Option<(Pos, Pos, Pos)> {
    let w = words(folded_text(text));
    if w.len() == 3 && pos_of(w[0]) is Some && pos_of(w[1]) is Some && pos_of(w[2]) is Some {
        Some((pos_of(w[0])->Some_0, pos_of(w[1])->Some_0, pos_of(w[2])->Some_0))
    } else {
        None
    }
}

/// The index that a character stands for.
pub fn parse_num(c: char) -> (r: Option<i8>)
    ensures
        r == index_of(c),
{
    let n = c as u32;
    if n >= 49 && n <= 56 {
        Some((n - 49 + 1) as i8)
    } else if n >= 97 && n <= 104 {
        Some((n - 97 + 1) as i8)
    } else {
        None
    }
}

/// The cell that a word of two characters stands for.
fn word_pos(word: &Vec<char>) -> (r: Option<Pos>)
    ensures
        r == pos_of(word@),
{
    if word.len() != 2 {
        return None;
    }
    match (parse_num(word[0]), parse_num(word[1])) {
        (Some(row), Some(col)) => Some(Pos { row, col }),
        _ => None,
    }
}

/// The cell that a word stands for: two characters, the row first.
pub fn parse_pos(s: &str) -> (r: Option<Pos>)
    ensures
        r == pos_of(s@),
{
    if s.unicode_len() != 2 {
        return None;
    }
    match (parse_num(s.get_char(0)), parse_num(s.get_char(1))) {
        (Some(row), Some(col)) => Some(Pos { row, col }),
        _ => None,
    }
}

/// The words that a list of vectors holds.
pub open spec fn spelled(list: Seq<Vec<char>>) -> Seq<Seq<char>> {
    Seq::new(list.len(), |k: int| list[k]@)
}

/// A character with the letters `A` to `H` in lower case.
fn fold(c: char) -> (r: char)
    ensures
        r == folded(c),
{
    if c == 'A' {
        'a'
    } else if c == 'B' {
        'b'
    } else if c == 'C' {
        'c'
    } else if c == 'D' {
        'd'
    } else if c == 'E' {
        'e'
    } else if c == 'F' {
        'f'
    } else if c == 'G' {
        'g'
    } else if c == 'H' {
        'h'
    } else {
        c
    }
}

/// The move that a line of text stands for, if it is one: three cells parted
/// by spaces, each written as a row and a column.
pub fn parse_move(s: &str) -> (r: Option<(Pos, Pos, Pos)>)
    ensures
        r == move_of(s@),
{
    let ghost text = folded_text(s@);
    let n = s.unicode_len();
    let mut done: Vec<Vec<char>> = Vec::new();
    let mut word: Vec<char> = Vec::new();
    let mut i: usize = 0;
    assert(text.take(0) =~= Seq::empty());
    while i < n
        invariant
            0 <= i <= n,
            n == s@.len(),
            text == folded_text(s@),
            word.len() == 0 <==> (i == 0 || is_space(text[i - 1])),
            word.len() == 0 ==> spelled(done@) == words(text.take(i as int)),
            word.len() > 0 ==> spelled(done@).push(word@) == words(text.take(i as int)),
        decreases n - i,
    {
        let c = fold(s.get_char(i));
        proof {
            let upto = text.take(i + 1);
            assert(upto.drop_last() =~= text.take(i as int));
            assert(upto.last() == c);
            if i > 0 {
                assert(upto[upto.len() - 2] == text[i - 1]);
            }
        }
        if c == ' ' || c == '\t' || c == '\n' || c == '\r' {
            if word.len() > 0 {
                let ghost before = spelled(done@);
                let ghost last = word@;
                done.push(word);
                word = Vec::new();
                assert(spelled(done@) =~= before.push(last));
            }
        } else {
            let ghost before = word@;
            word.push(c);
            proof {
                if before.len() > 0 {
                    let w = spelled(done@).push(before);
                    assert(w.drop_last() =~= spelled(done@));
                    assert(w.last() == before);
                } else {
                    assert(word@ =~= seq![c]);
                }
            }
        }
        i += 1;
    }
    assert(text.take(n as int) =~= text);
    if word.len() > 0 {
        let ghost before = spelled(done@);
        let ghost last = word@;
        done.push(word);
        assert(spelled(done@) =~= before.push(last));
    }
    assert(spelled(done@) == words(text));
    if done.len() != 3 {
        return None;
    }
    match (word_pos(&done[0]), word_pos(&done[1]), word_pos(&done[2])) {
        (Some(a), Some(b), Some(c)) => Some((a, b, c)),
        _ => None,
    }
}

} // verus!
