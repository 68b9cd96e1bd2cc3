//! Small verified text builders: decimal rendering and the message sent to a
//! player who tries to claim an occupied cell.
use vstd::prelude::*;
use vstd::string::StringExecFns;

use crate::tic_tac_toe::Piece;

verus! {

/// Relies on String::push: appends exactly the given character.
#[verifier::external_body]
pub(crate) fn push_char(s: &mut String, c: char)
    ensures
        final(s)@ == old(s)@.push(c),
{
    s.push(c)
}

/// The decimal digit character for `d % 10`.
pub open spec fn digit_char(d: nat) -> char {
    (48 + (d % 10)) as char
}

/// The decimal digits of `n`, most significant first.
pub open spec fn decimal_digits(n: nat) -> Seq<char>
    decreases n,
{
    if n < 10 {
        seq![digit_char(n)]
    } else {
        decimal_digits(n / 10).push(digit_char(n % 10))
    }
}

/// Append the decimal rendering of `n` to `s`.
pub fn append_decimal(s: &mut String, n: usize)
    ensures
        final(s)@ == old(s)@ + decimal_digits(n as nat),
    decreases n,
{
    if n < 10 {
        let c = ((48 + (n as u8) % 10) as u8) as char;
        assert(c == digit_char(n as nat));
        push_char(s, c);
        assert(final(s)@ =~= old(s)@ + decimal_digits(n as nat));
    } else {
        append_decimal(s, n / 10);
        let c = ((48 + ((n % 10) as u8)) as u8) as char;
        assert(c == digit_char((n as nat) % 10));
        push_char(s, c);
        assert(final(s)@ =~= old(s)@ + decimal_digits(n as nat));
    }
}

/// How a row is named in messages to a player: a letter for the first
/// twenty-six rows, the one-based row number beyond them.
pub open spec fn row_label(y: nat) -> Seq<char> {
    if y < 26 {
        seq![(65 + y) as char]
    } else {
        decimal_digits(y + 1)
    }
}

/// The display character of a piece.
pub open spec fn piece_text(p: Piece) -> Seq<char> {
    match p {
        Piece::Nought => "O"@,
        Piece::Cross => "X"@,
        Piece::Empty => " "@,
    }
}

/// The full text sent back when cell `(x, y)` already holds `p`: the cell in
/// game coordinates (lettered row, one-based column), then the occupant.
pub open spec fn occupied_msg(p: Piece, x: nat, y: nat) -> Seq<char> {
    row_label(y) + " "@ + decimal_digits(x + 1) + " already has a "@ + piece_text(p)
        + " on it! Enter another move"@
}

/// Build the occupied-cell message for `(x, y)` holding `p`.
pub fn occupied_message(p: Piece, x: usize, y: usize) -> (s: String)
    requires
        x < usize::MAX,
        y < usize::MAX,
    ensures
        s@ == occupied_msg(p, x as nat, y as nat),
{
    let mut s = String::new();
    if y < 26 {
        let c = ((65 + (y as u8)) as u8) as char;
        assert(c == (65 + (y as nat)) as char);
        push_char(&mut s, c);
    } else {
        append_decimal(&mut s, y + 1);
    }
    s.append(" ");
    append_decimal(&mut s, x + 1);
    s.append(" already has a ");
    match p {
        Piece::Nought => s.append("O"),
        Piece::Cross => s.append("X"),
        Piece::Empty => s.append(" "),
    }
    s.append(" on it! Enter another move");
    proof {
        assert(s@ =~= occupied_msg(p, x as nat, y as nat));
    }
    s
}

} // verus!
