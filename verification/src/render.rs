//! Text for moves, values and positions, as shown to a user.

use crate::board::{side_name, CPosMove, Move, Side};
use crate::compound::CompoundPosition;
use crate::model::SimpleView;
use crate::nimstring::Value;
use crate::position::Position;
use crate::simple::SimplePosition;
use vstd::prelude::*;
use vstd::string::StringExecFns;

verus! {

/// The digit `d` as text.
pub open spec fn digit_text(d: nat) -> Seq<char> {
    if d == 0 {
        "0"@
    } else if d == 1 {
        "1"@
    } else if d == 2 {
        "2"@
    } else if d == 3 {
        "3"@
    } else if d == 4 {
        "4"@
    } else if d == 5 {
        "5"@
    } else if d == 6 {
        "6"@
    } else if d == 7 {
        "7"@
    } else if d == 8 {
        "8"@
    } else {
        "9"@
    }
}

/// The number `n` in decimal notation.
pub open spec fn decimal_text(n: nat) -> Seq<char>
    decreases n,
{
    if n < 10 {
        digit_text(n)
    } else {
        decimal_text(n / 10) + digit_text(n % 10)
    }
}

fn digit_str(d: usize) -> (s: &'static str)
    requires
        d < 10,
    ensures
        s@ == digit_text(d as nat),
{
    if d == 0 {
        "0"
    } else if d == 1 {
        "1"
    } else if d == 2 {
        "2"
    } else if d == 3 {
        "3"
    } else if d == 4 {
        "4"
    } else if d == 5 {
        "5"
    } else if d == 6 {
        "6"
    } else if d == 7 {
        "7"
    } else if d == 8 {
        "8"
    } else {
        "9"
    }
}

/// The number `n` in decimal notation.
pub fn decimal(n: usize) -> (s: String)
    ensures
        s@ == decimal_text(n as nat),
    decreases n,
{
    if n < 10 {
        String::from_str(digit_str(n))
    } else {
        let mut s = decimal(n / 10);
        s.append(digit_str(n % 10));
        s
    }
}

/// A move as text: the square in brackets, then the side.
pub open spec fn move_text(m: Move) -> Seq<char> {
    "("@ + decimal_text(m.x as nat) + ", "@ + decimal_text(m.y as nat) + ") "@ + side_name(m.side)
}

/// A move of a compound position as text: the part, then the move.
pub open spec fn cpos_move_text(m: CPosMove) -> Seq<char> {
    "Part "@ + decimal_text(m.part as nat) + ": "@ + move_text(m.m)
}

/// A value as text: a star and the number for a nimber, `L` for loony.
pub open spec fn value_text(v: Value) -> Seq<char> {
    match v {
        Value::Nimber(n) => "*"@ + decimal_text(n as nat),
        Value::Loony => "L"@,
    }
}

impl Move {
    /// The move as text, such as `(5, 3) Bottom`.
    pub fn render(&self) -> (s: String)
        ensures
            s@ == move_text(*self),
    {
        let mut s = String::from_str("(");
        s.append(decimal(self.x).as_str());
        s.append(", ");
        s.append(decimal(self.y).as_str());
        s.append(") ");
        s.append(self.side.name());
        s
    }
}

impl CPosMove {
    /// The move as text, such as `Part 1: (2, 3) Right`.
    pub fn render(&self) -> (s: String)
        ensures
            s@ == cpos_move_text(*self),
    {
        let mut s = String::from_str("Part ");
        s.append(decimal(self.part).as_str());
        s.append(": ");
        s.append(self.m.render().as_str());
        s
    }
}

impl Value {
    /// The value as text, such as `*2` or `L`.
    pub fn render(&self) -> (s: String)
        ensures
            s@ == value_text(*self),
    {
        match self {
            Value::Nimber(n) => {
                let mut s = String::from_str("*");
                s.append(decimal(*n).as_str());
                s
            },
            Value::Loony => String::from_str("L"),
        }
    }
}

/// A horizontal edge as text: a blank where it is uncut, else a dash.
pub open spec fn across_text(uncut: bool) -> Seq<char> {
    if uncut {
        " "@
    } else {
        "-"@
    }
}

/// A vertical edge as text: a blank where it is uncut, else a bar.
pub open spec fn upright_text(uncut: bool) -> Seq<char> {
    if uncut {
        " "@
    } else {
        "|"@
    }
}

/// The heading: two blanks, then for each of the first `n` columns a blank
/// and the last digit of its number.
pub open spec fn heading_text(n: nat) -> Seq<char>
    decreases n,
{
    if n == 0 {
        "  "@
    } else {
        heading_text((n - 1) as nat) + " "@ + digit_text(((n - 1) % 10) as nat)
    }
}

/// The line of the top border, as far as its first `n` edges.
pub open spec fn border_text(v: SimpleView, n: nat) -> Seq<char>
    decreases n,
{
    if n == 0 {
        "\n  "@
    } else {
        border_text(v, (n - 1) as nat) + "+"@ + across_text(
            v.legal(Move { x: (n - 1) as usize, y: 0, side: Side::Top }),
        )
    }
}

/// The line of the squares of row `y`: the last digit of the row's number,
/// the left border, and the right edges of the first `n` squares.
pub open spec fn squares_text(v: SimpleView, y: nat, n: nat) -> Seq<char>
    decreases n,
{
    if n == 0 {
        digit_text(y % 10) + " "@ + upright_text(
            v.legal(Move { x: 0, y: y as usize, side: Side::Left }),
        )
    } else {
        squares_text(v, y, (n - 1) as nat) + " "@ + upright_text(
            v.legal(Move { x: (n - 1) as usize, y: y as usize, side: Side::Right }),
        )
    }
}

/// The line below row `y`, as far as the bottom edges of its first `n` squares.
pub open spec fn floor_text(v: SimpleView, y: nat, n: nat) -> Seq<char>
    decreases n,
{
    if n == 0 {
        "\n  "@
    } else {
        floor_text(v, y, (n - 1) as nat) + "+"@ + across_text(
            v.legal(Move { x: (n - 1) as usize, y: y as usize, side: Side::Bottom }),
        )
    }
}

/// The first `n` rows, each with the line below it.
pub open spec fn rows_text(v: SimpleView, n: nat) -> Seq<char>
    decreases n,
{
    if n == 0 {
        Seq::empty()
    } else {
        rows_text(v, (n - 1) as nat) + squares_text(v, (n - 1) as nat, v.width()) + floor_text(
            v,
            (n - 1) as nat,
            v.width(),
        ) + "+\n"@
    }
}

/// The picture of a board: a heading with the column numbers, then lines of
/// dots and edges by turns, each row headed by its number; of a number only
/// the last digit is shown.
pub open spec fn board_text(v: SimpleView) -> Seq<char> {
    heading_text(v.width()) + border_text(v, v.width()) + "+\n"@ + rows_text(v, v.height())
}

/// The pictures of the first `n` parts, each under a line with its number.
pub open spec fn parts_text(v: Seq<SimpleView>, n: nat) -> Seq<char>
    decreases n,
{
    if n == 0 {
        Seq::empty()
    } else {
        parts_text(v, (n - 1) as nat) + "Component "@ + decimal_text((n - 1) as nat) + ":\n"@
            + board_text(v[n - 1])
    }
}

fn across_str(uncut: bool) -> (s: &'static str)
    ensures
        s@ == across_text(uncut),
{
    if uncut {
        " "
    } else {
        "-"
    }
}

fn upright_str(uncut: bool) -> (s: &'static str)
    ensures
        s@ == upright_text(uncut),
{
    if uncut {
        " "
    } else {
        "|"
    }
}

impl SimplePosition {
    /// The picture of the board.
    pub fn render(&self) -> (s: String)
        requires
            self.wf(),
        ensures
            s@ == board_text(self@),
    {
        let ghost v = self@;
        let w = self.width();
        let h = self.height();
        let mut s = String::from_str("  ");
        let mut i: usize = 0;
        while i < w
            invariant
                i <= w,
                s@ == heading_text(i as nat),
            decreases w - i,
        {
            s.append(" ");
            s.append(digit_str(i % 10));
            i += 1;
        }
        let ghost head = s@;
        s.append("\n  ");
        i = 0;
        while i < w
            invariant
                i <= w,
                self.wf(),
                v == self@,
                s@ == head + border_text(v, i as nat),
            decreases w - i,
        {
            s.append("+");
            s.append(across_str(self.is_legal_move(Move { x: i, y: 0, side: Side::Top })));
            assert(s@ =~= head + border_text(v, (i + 1) as nat));
            i += 1;
        }
        s.append("+\n");
        let ghost top = s@;
        assert(top =~= head + border_text(v, w as nat) + "+\n"@ + rows_text(v, 0));
        let mut j: usize = 0;
        while j < h
            invariant
                j <= h,
                self.wf(),
                v == self@,
                w == v.width(),
                h == v.height(),
                head == heading_text(w as nat),
                s@ == head + border_text(v, w as nat) + "+\n"@ + rows_text(v, j as nat),
            decreases h - j,
        {
            let ghost before = s@;
            s.append(digit_str(j % 10));
            s.append(" ");
            s.append(upright_str(self.is_legal_move(Move { x: 0, y: j, side: Side::Left })));
            assert(s@ =~= before + squares_text(v, j as nat, 0));
            i = 0;
            while i < w
                invariant
                    i <= w,
                    self.wf(),
                    v == self@,
                    j < h,
                    s@ == before + squares_text(v, j as nat, i as nat),
                decreases w - i,
            {
                s.append(" ");
                s.append(
                    upright_str(self.is_legal_move(Move { x: i, y: j, side: Side::Right })),
                );
                assert(s@ =~= before + squares_text(v, j as nat, (i + 1) as nat));
                i += 1;
            }
            let ghost mid = s@;
            s.append("\n  ");
            i = 0;
            while i < w
                invariant
                    i <= w,
                    self.wf(),
                    v == self@,
                    j < h,
                    s@ == mid + floor_text(v, j as nat, i as nat),
                decreases w - i,
            {
                s.append("+");
                s.append(
                    across_str(self.is_legal_move(Move { x: i, y: j, side: Side::Bottom })),
                );
                assert(s@ =~= mid + floor_text(v, j as nat, (i + 1) as nat));
                i += 1;
            }
            s.append("+\n");
            assert(s@ =~= head + border_text(v, w as nat) + "+\n"@ + rows_text(v, (j + 1) as nat));
            j += 1;
        }
        s
    }
}

impl CompoundPosition {
    /// The pictures of the parts, each under a line with its number.
    pub fn render(&self) -> (s: String)
        requires
            self.wf(),
        ensures
            s@ == parts_text(self@, self@.len()),
    {
        let n = self.part_count();
        let mut s = String::new();
        let mut i: usize = 0;
        while i < n
            invariant
                i <= n,
                n == self@.len(),
                self.wf(),
                s@ == parts_text(self@, i as nat),
            decreases n - i,
        {
            s.append("Component ");
            s.append(decimal(i).as_str());
            s.append(":\n");
            s.append(self.part(i).render().as_str());
            assert(s@ =~= parts_text(self@, (i + 1) as nat));
            i += 1;
        }
        s
    }
}

} // verus!
