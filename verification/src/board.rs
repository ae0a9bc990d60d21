//! Board primitives: sides of a square, moves and their outcomes.

use vstd::prelude::*;

verus! {

/// One of the four sides of a square.
#[derive(Clone, Copy, Debug, PartialEq, Eq, Structural, Hash, PartialOrd, Ord)]
pub enum Side {
    Top,
    Bottom,
    Left,
    Right,
}

/// The four sides in their fixed enumeration order.
pub open spec fn all_sides() -> Seq<Side> {
    seq![Side::Top, Side::Bottom, Side::Left, Side::Right]
}

/// The three sides other than `side`, in enumeration order.
pub open spec fn other_sides(side: Side) -> Seq<Side> {
    all_sides().filter(|s: Side| s != side)
}

/// The side facing `s`.
pub open spec fn opposite_side(s: Side) -> Side {
    match s {
        Side::Top => Side::Bottom,
        Side::Bottom => Side::Top,
        Side::Left => Side::Right,
        Side::Right => Side::Left,
    }
}

impl Side {
    /// All four sides, in the order Top, Bottom, Left, Right.
    pub fn all() -> (sides: Vec<Side>)
        ensures
            sides@ == all_sides(),
    {
        let sides = vec![Side::Top, Side::Bottom, Side::Left, Side::Right];
        assert(sides@ =~= all_sides());
        sides
    }

    /// The three sides other than `side`, in enumeration order.
    pub fn all_except(side: Side) -> (sides: Vec<Side>)
        ensures
            sides@ == other_sides(side),
            sides@.len() == 3,
            !sides@.contains(side),
            forall|s: Side| s != side ==> sides@.contains(s),
    {
        let sides = match side {
            Side::Top => vec![Side::Bottom, Side::Left, Side::Right],
            Side::Bottom => vec![Side::Top, Side::Left, Side::Right],
            Side::Left => vec![Side::Top, Side::Bottom, Side::Right],
            Side::Right => vec![Side::Top, Side::Bottom, Side::Left],
        };
        proof {
            lemma_all_except(side);
            assert(sides@ =~= other_sides(side));
        }
        sides
    }

    /// The facing side: Top and Bottom swap, Left and Right swap.
    pub fn opposite(&self) -> (o: Side)
        ensures
            o == opposite_side(*self),
    {
        match self {
            Side::Left => Side::Right,
            Side::Right => Side::Left,
            Side::Top => Side::Bottom,
            Side::Bottom => Side::Top,
        }
    }

    /// The side's name, as shown to a user.
    pub fn name(&self) -> (s: &'static str)
        ensures
            s@ == side_name(*self),
    {
        match self {
            Side::Top => "Top",
            Side::Bottom => "Bottom",
            Side::Left => "Left",
            Side::Right => "Right",
        }
    }
}

/// The displayed name of a side.
pub open spec fn side_name(s: Side) -> Seq<char> {
    match s {
        Side::Top => "Top"@,
        Side::Bottom => "Bottom"@,
        Side::Left => "Left"@,
        Side::Right => "Right"@,
    }
}

/// What filtering one side out of the enumeration leaves.
pub proof fn lemma_all_except(side: Side)
    ensures
        other_sides(side) == match side {
            Side::Top => seq![Side::Bottom, Side::Left, Side::Right],
            Side::Bottom => seq![Side::Top, Side::Left, Side::Right],
            Side::Left => seq![Side::Top, Side::Bottom, Side::Right],
            Side::Right => seq![Side::Top, Side::Bottom, Side::Left],
        },
{
    let p = |s: Side| s != side;
    let s4 = all_sides();
    let s3 = s4.drop_last();
    let s2 = s3.drop_last();
    let s1 = s2.drop_last();
    let s0 = s1.drop_last();
    reveal_with_fuel(Seq::filter, 6);
    assert(s0 =~= Seq::<Side>::empty());
    assert(s1 =~= seq![Side::Top]);
    assert(s2 =~= seq![Side::Top, Side::Bottom]);
    assert(s3 =~= seq![Side::Top, Side::Bottom, Side::Left]);
    assert(s0.filter(p) =~= Seq::<Side>::empty());
    assert(s1.filter(p) =~= if p(Side::Top) { seq![Side::Top] } else { Seq::<Side>::empty() });
    assert(s4.filter(p) =~= match side {
        Side::Top => seq![Side::Bottom, Side::Left, Side::Right],
        Side::Bottom => seq![Side::Top, Side::Left, Side::Right],
        Side::Left => seq![Side::Top, Side::Bottom, Side::Right],
        Side::Right => seq![Side::Top, Side::Bottom, Side::Left],
    });
}

/// A move: the square at column `x`, row `y`, and the side of it to cut.
#[derive(Clone, Copy, Debug, PartialEq, Eq, Structural, Hash)]
pub struct Move {
    pub x: usize,
    pub y: usize,
    pub side: Side,
}

impl Move {
    /// The move at square `(x, y)` on side `side`.
    pub fn new(x: usize, y: usize, side: Side) -> (m: Move)
        ensures
            m == (Move { x, y, side }),
    {
        Move { x, y, side }
    }
}

/// What a move brought about.
#[derive(Clone, Copy, Debug)]
pub struct MoveOutcome {
    pub coins_captured: usize,
    pub end_of_turn: bool,
    pub end_of_game: bool,
}

/// A move in a compound position: the index of the part and the move in it.
#[derive(Clone, Copy, Debug, PartialEq, Eq, Structural, Hash)]
pub struct CPosMove {
    pub part: usize,
    pub m: Move,
}

impl CPosMove {
    /// The move at square `(x, y)` of part `part` on side `side`.
    pub fn new(part: usize, x: usize, y: usize, side: Side) -> (c: CPosMove)
        ensures
            c == (CPosMove { part, m: Move { x, y, side } }),
    {
        CPosMove { part, m: Move { x, y, side } }
    }
}

} // verus!
