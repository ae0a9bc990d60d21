//! Example positions: chains, loops, and positions from Berlekamp's "The
//! Dots-and-Boxes Game".

use crate::board::{Move, Side};
use crate::compound::{resalted, CompoundPosition};
use crate::model::{canonical, lemma_cut, lemma_tracks, SimpleView};
use crate::position::Position;
use crate::simple::{blank, SimplePosition};
use crate::zobrist::key_count;
use vstd::prelude::*;

verus! {

/// The move at square `(x, y)` on side `side`.
pub open spec fn edge(x: usize, y: usize, side: Side) -> Move {
    Move { x, y, side }
}

/// Cuts an uncut edge.
fn cut(pos: &mut SimplePosition, x: usize, y: usize, side: Side)
    requires
        old(pos).wf(),
        old(pos)@.legal(edge(x, y, side)),
    ensures
        final(pos).wf(),
        final(pos)@ == old(pos)@.cut(edge(x, y, side)),
        final(pos)@.width() == old(pos)@.width(),
        final(pos)@.height() == old(pos)@.height(),
        final(pos)@.salt == old(pos)@.salt,
        old(pos)@.tracks() ==> final(pos)@.tracks(),
        forall|o: Move| #[trigger]
            final(pos)@.legal(o) == (old(pos)@.legal(o) && canonical(o) != canonical(
                edge(x, y, side),
            )),
{
    proof {
        lemma_cut(pos@, edge(x, y, side));
        if pos@.tracks() {
            lemma_tracks(pos@, edge(x, y, side));
        }
    }
    pos.make_move(Move { x: x, y: y, side: side });
}

/// The position of `p50_top`: a new 5 by 2 game after its cuts.
pub open spec fn p50_top_view() -> SimpleView {
    blank(5, 2, true)
        .cut(edge(0, 0, Side::Top))
        .cut(edge(1, 0, Side::Top))
        .cut(edge(0, 0, Side::Left))
        .cut(edge(0, 1, Side::Left))
        .cut(edge(1, 0, Side::Bottom))
        .cut(edge(2, 0, Side::Bottom))
        .cut(edge(3, 0, Side::Bottom))
        .cut(edge(3, 0, Side::Right))
        .cut(edge(0, 1, Side::Bottom))
        .cut(edge(1, 1, Side::Bottom))
        .cut(edge(2, 1, Side::Bottom))
        .cut(edge(3, 1, Side::Bottom))
        .cut(edge(4, 1, Side::Bottom))
}

/// Top of the example on page 50 of Berlekamp's book.
pub fn p50_top() -> (pos: SimplePosition)
    ensures
        pos.wf(),
        pos@ == p50_top_view(),
{
    let mut pos = SimplePosition::new_game(5, 2);
    cut(&mut pos, 0, 0, Side::Top);
    cut(&mut pos, 1, 0, Side::Top);
    cut(&mut pos, 0, 0, Side::Left);
    cut(&mut pos, 0, 1, Side::Left);
    cut(&mut pos, 1, 0, Side::Bottom);
    cut(&mut pos, 2, 0, Side::Bottom);
    cut(&mut pos, 3, 0, Side::Bottom);
    cut(&mut pos, 3, 0, Side::Right);
    cut(&mut pos, 0, 1, Side::Bottom);
    cut(&mut pos, 1, 1, Side::Bottom);
    cut(&mut pos, 2, 1, Side::Bottom);
    cut(&mut pos, 3, 1, Side::Bottom);
    cut(&mut pos, 4, 1, Side::Bottom);
    pos
}

/// The position of `p50_bottomleft`: a new 3 by 2 game after its cuts.
pub open spec fn p50_bottomleft_view() -> SimpleView {
    blank(3, 2, true)
        .cut(edge(0, 0, Side::Top))
        .cut(edge(1, 0, Side::Top))
        .cut(edge(2, 0, Side::Top))
        .cut(edge(2, 0, Side::Right))
        .cut(edge(2, 1, Side::Right))
        .cut(edge(1, 0, Side::Bottom))
}

/// Bottom left of the example on page 50 of Berlekamp's book.
pub fn p50_bottomleft() -> (pos: SimplePosition)
    ensures
        pos.wf(),
        pos@ == p50_bottomleft_view(),
{
    let mut pos = SimplePosition::new_game(3, 2);
    cut(&mut pos, 0, 0, Side::Top);
    cut(&mut pos, 1, 0, Side::Top);
    cut(&mut pos, 2, 0, Side::Top);
    cut(&mut pos, 2, 0, Side::Right);
    cut(&mut pos, 2, 1, Side::Right);
    cut(&mut pos, 1, 0, Side::Bottom);
    pos
}

/// The position of `p50_bottomright`: a new 2 by 2 game after its cuts.
pub open spec fn p50_bottomright_view() -> SimpleView {
    blank(2, 2, true)
        .cut(edge(0, 0, Side::Top))
        .cut(edge(1, 0, Side::Top))
        .cut(edge(0, 0, Side::Left))
        .cut(edge(0, 1, Side::Left))
}

/// Bottom right of the example on page 50 of Berlekamp's book.
pub fn p50_bottomright() -> (pos: SimplePosition)
    ensures
        pos.wf(),
        pos@ == p50_bottomright_view(),
{
    let mut pos = SimplePosition::new_game(2, 2);
    cut(&mut pos, 0, 0, Side::Top);
    cut(&mut pos, 1, 0, Side::Top);
    cut(&mut pos, 0, 0, Side::Left);
    cut(&mut pos, 0, 1, Side::Left);
    pos
}

/// The position of `p50`: a new 5 by 4 game after its cuts.
pub open spec fn p50_view() -> SimpleView {
    blank(5, 4, true)
        .cut(edge(0, 0, Side::Top))
        .cut(edge(0, 0, Side::Left))
        .cut(edge(1, 0, Side::Top))
        .cut(edge(1, 0, Side::Bottom))
        .cut(edge(2, 0, Side::Bottom))
        .cut(edge(3, 0, Side::Bottom))
        .cut(edge(3, 0, Side::Right))
        .cut(edge(0, 1, Side::Left))
        .cut(edge(0, 1, Side::Bottom))
        .cut(edge(1, 1, Side::Bottom))
        .cut(edge(2, 1, Side::Bottom))
        .cut(edge(3, 1, Side::Bottom))
        .cut(edge(4, 1, Side::Bottom))
        .cut(edge(1, 2, Side::Bottom))
        .cut(edge(2, 2, Side::Right))
        .cut(edge(2, 3, Side::Right))
}

/// The example on page 50 of Berlekamp's book.
pub fn p50() -> (pos: SimplePosition)
    ensures
        pos.wf(),
        pos@ == p50_view(),
{
    let mut pos = SimplePosition::new_game(5, 4);
    cut(&mut pos, 0, 0, Side::Top);
    cut(&mut pos, 0, 0, Side::Left);
    cut(&mut pos, 1, 0, Side::Top);
    cut(&mut pos, 1, 0, Side::Bottom);
    cut(&mut pos, 2, 0, Side::Bottom);
    cut(&mut pos, 3, 0, Side::Bottom);
    cut(&mut pos, 3, 0, Side::Right);
    cut(&mut pos, 0, 1, Side::Left);
    cut(&mut pos, 0, 1, Side::Bottom);
    cut(&mut pos, 1, 1, Side::Bottom);
    cut(&mut pos, 2, 1, Side::Bottom);
    cut(&mut pos, 3, 1, Side::Bottom);
    cut(&mut pos, 4, 1, Side::Bottom);
    cut(&mut pos, 1, 2, Side::Bottom);
    cut(&mut pos, 2, 2, Side::Right);
    cut(&mut pos, 2, 3, Side::Right);
    pos
}

/// The position of `ex3p1`: a new 3 by 3 game after its cuts.
pub open spec fn ex3p1_view() -> SimpleView {
    blank(3, 3, true)
        .cut(edge(0, 0, Side::Top))
        .cut(edge(0, 0, Side::Left))
        .cut(edge(1, 0, Side::Top))
        .cut(edge(1, 0, Side::Bottom))
        .cut(edge(2, 0, Side::Bottom))
        .cut(edge(0, 1, Side::Left))
        .cut(edge(0, 1, Side::Right))
        .cut(edge(0, 2, Side::Right))
        .cut(edge(1, 2, Side::Bottom))
        .cut(edge(2, 2, Side::Right))
}

/// Exercise 3.1 of Berlekamp's book.
pub fn ex3p1() -> (pos: SimplePosition)
    ensures
        pos.wf(),
        pos@ == ex3p1_view(),
{
    let mut pos = SimplePosition::new_game(3, 3);
    cut(&mut pos, 0, 0, Side::Top);
    cut(&mut pos, 0, 0, Side::Left);
    cut(&mut pos, 1, 0, Side::Top);
    cut(&mut pos, 1, 0, Side::Bottom);
    cut(&mut pos, 2, 0, Side::Bottom);
    cut(&mut pos, 0, 1, Side::Left);
    cut(&mut pos, 0, 1, Side::Right);
    cut(&mut pos, 0, 2, Side::Right);
    cut(&mut pos, 1, 2, Side::Bottom);
    cut(&mut pos, 2, 2, Side::Right);
    pos
}

/// The position of `ex3p12`: a new 5 by 5 game after its cuts.
pub open spec fn ex3p12_view() -> SimpleView {
    blank(5, 5, true)
        .cut(edge(0, 0, Side::Top))
        .cut(edge(1, 0, Side::Top))
        .cut(edge(2, 0, Side::Top))
        .cut(edge(3, 0, Side::Top))
        .cut(edge(4, 0, Side::Top))
        .cut(edge(0, 0, Side::Bottom))
        .cut(edge(2, 0, Side::Right))
        .cut(edge(0, 1, Side::Left))
        .cut(edge(1, 1, Side::Bottom))
        .cut(edge(1, 1, Side::Right))
        .cut(edge(2, 1, Side::Right))
        .cut(edge(3, 1, Side::Bottom))
        .cut(edge(4, 1, Side::Bottom))
        .cut(edge(0, 2, Side::Right))
        .cut(edge(0, 2, Side::Bottom))
        .cut(edge(2, 2, Side::Right))
        .cut(edge(2, 2, Side::Bottom))
        .cut(edge(4, 2, Side::Right))
        .cut(edge(0, 3, Side::Right))
        .cut(edge(2, 3, Side::Bottom))
        .cut(edge(3, 3, Side::Bottom))
        .cut(edge(3, 3, Side::Right))
        .cut(edge(4, 3, Side::Right))
        .cut(edge(0, 4, Side::Right))
        .cut(edge(1, 4, Side::Right))
        .cut(edge(3, 4, Side::Bottom))
        .cut(edge(4, 4, Side::Bottom))
        .cut(edge(4, 4, Side::Right))
}

/// Exercise 3.12 of Berlekamp's book.
pub fn ex3p12() -> (pos: SimplePosition)
    ensures
        pos.wf(),
        pos@ == ex3p12_view(),
{
    let mut pos = SimplePosition::new_game(5, 5);
    cut(&mut pos, 0, 0, Side::Top);
    cut(&mut pos, 1, 0, Side::Top);
    cut(&mut pos, 2, 0, Side::Top);
    cut(&mut pos, 3, 0, Side::Top);
    cut(&mut pos, 4, 0, Side::Top);
    cut(&mut pos, 0, 0, Side::Bottom);
    cut(&mut pos, 2, 0, Side::Right);
    cut(&mut pos, 0, 1, Side::Left);
    cut(&mut pos, 1, 1, Side::Bottom);
    cut(&mut pos, 1, 1, Side::Right);
    cut(&mut pos, 2, 1, Side::Right);
    cut(&mut pos, 3, 1, Side::Bottom);
    cut(&mut pos, 4, 1, Side::Bottom);
    cut(&mut pos, 0, 2, Side::Right);
    cut(&mut pos, 0, 2, Side::Bottom);
    cut(&mut pos, 2, 2, Side::Right);
    cut(&mut pos, 2, 2, Side::Bottom);
    cut(&mut pos, 4, 2, Side::Right);
    cut(&mut pos, 0, 3, Side::Right);
    cut(&mut pos, 2, 3, Side::Bottom);
    cut(&mut pos, 3, 3, Side::Bottom);
    cut(&mut pos, 3, 3, Side::Right);
    cut(&mut pos, 4, 3, Side::Right);
    cut(&mut pos, 0, 4, Side::Right);
    cut(&mut pos, 1, 4, Side::Right);
    cut(&mut pos, 3, 4, Side::Bottom);
    cut(&mut pos, 4, 4, Side::Bottom);
    cut(&mut pos, 4, 4, Side::Right);
    pos
}

/// The position of `ex6p2`: a new 3 by 2 game after its cuts.
pub open spec fn ex6p2_view() -> SimpleView {
    blank(3, 2, true)
        .cut(edge(0, 0, Side::Top))
        .cut(edge(1, 0, Side::Top))
        .cut(edge(2, 0, Side::Top))
        .cut(edge(2, 0, Side::Right))
        .cut(edge(2, 1, Side::Right))
        .cut(edge(1, 0, Side::Bottom))
}

/// Exercise 6.2 of Berlekamp's book.
pub fn ex6p2() -> (pos: SimplePosition)
    ensures
        pos.wf(),
        pos@ == ex6p2_view(),
{
    let mut pos = SimplePosition::new_game(3, 2);
    cut(&mut pos, 0, 0, Side::Top);
    cut(&mut pos, 1, 0, Side::Top);
    cut(&mut pos, 2, 0, Side::Top);
    cut(&mut pos, 2, 0, Side::Right);
    cut(&mut pos, 2, 1, Side::Right);
    cut(&mut pos, 1, 0, Side::Bottom);
    pos
}

/// The position of `ex7p2`: a new 5 by 5 game after its cuts.
pub open spec fn ex7p2_view() -> SimpleView {
    blank(5, 5, true)
        .cut(edge(0, 0, Side::Right))
        .cut(edge(1, 0, Side::Right))
        .cut(edge(3, 0, Side::Right))
        .cut(edge(0, 1, Side::Left))
        .cut(edge(0, 1, Side::Right))
        .cut(edge(3, 1, Side::Right))
        .cut(edge(1, 1, Side::Bottom))
        .cut(edge(2, 1, Side::Bottom))
        .cut(edge(3, 1, Side::Bottom))
        .cut(edge(0, 2, Side::Bottom))
        .cut(edge(0, 2, Side::Right))
        .cut(edge(2, 2, Side::Bottom))
        .cut(edge(3, 2, Side::Right))
        .cut(edge(4, 2, Side::Right))
        .cut(edge(1, 3, Side::Right))
        .cut(edge(3, 3, Side::Right))
        .cut(edge(3, 3, Side::Bottom))
        .cut(edge(1, 4, Side::Right))
        .cut(edge(2, 4, Side::Right))
}

/// Exercise 7.2 of Berlekamp's book.
pub fn ex7p2() -> (pos: SimplePosition)
    ensures
        pos.wf(),
        pos@ == ex7p2_view(),
{
    let mut pos = SimplePosition::new_game(5, 5);
    cut(&mut pos, 0, 0, Side::Right);
    cut(&mut pos, 1, 0, Side::Right);
    cut(&mut pos, 3, 0, Side::Right);
    cut(&mut pos, 0, 1, Side::Left);
    cut(&mut pos, 0, 1, Side::Right);
    cut(&mut pos, 3, 1, Side::Right);
    cut(&mut pos, 1, 1, Side::Bottom);
    cut(&mut pos, 2, 1, Side::Bottom);
    cut(&mut pos, 3, 1, Side::Bottom);
    cut(&mut pos, 0, 2, Side::Bottom);
    cut(&mut pos, 0, 2, Side::Right);
    cut(&mut pos, 2, 2, Side::Bottom);
    cut(&mut pos, 3, 2, Side::Right);
    cut(&mut pos, 4, 2, Side::Right);
    cut(&mut pos, 1, 3, Side::Right);
    cut(&mut pos, 3, 3, Side::Right);
    cut(&mut pos, 3, 3, Side::Bottom);
    cut(&mut pos, 1, 4, Side::Right);
    cut(&mut pos, 2, 4, Side::Right);
    pos
}

/// A board whose top, left, bottom and right edges are uncut where the
/// given predicates say so.
pub open spec fn board_of(
    width: nat,
    height: nat,
    top: spec_fn(int) -> bool,
    left: spec_fn(int) -> bool,
    down: spec_fn(int, int) -> bool,
    right: spec_fn(int, int) -> bool,
    hash: usize,
) -> SimpleView {
    SimpleView {
        top: Seq::new(width, |x: int| top(x)),
        left: Seq::new(height, |y: int| left(y)),
        down: Seq::new(width, |x: int| Seq::new(height, |y: int| down(x, y))),
        right: Seq::new(width, |x: int| Seq::new(height, |y: int| right(x, y))),
        salt: 0,
        hash,
    }
}

/// The edges of a new game of which the top border and the left border
/// have been cut.
pub open spec fn icelandic_view(width: nat, height: nat, hash: usize) -> SimpleView {
    board_of(
        width,
        height,
        |x: int| false,
        |y: int| false,
        |x: int, y: int| true,
        |x: int, y: int| true,
        hash,
    )
}

/// A new game in which the top border and the left border have been cut.
pub fn icelandic_game(width: usize, height: usize) -> (pos: SimplePosition)
    requires
        1 <= width,
        1 <= height,
        key_count(width as nat, height as nat) <= usize::MAX,
    ensures
        pos.wf(),
        pos@ == icelandic_view(width as nat, height as nat, pos@.hash),
        pos@.tracks(),
{
    let mut pos = SimplePosition::new_game(width, height);
    let ghost w = width as nat;
    let ghost h = height as nat;
    proof {
        let goal = board_of(
            w,
            h,
            |a: int| true,
            |b: int| !(b < 0),
            |a: int, b: int| true,
            |a: int, b: int| true,
            pos@.hash,
        );
        assert(pos@.top =~= goal.top);
        assert(pos@.left =~= goal.left);
        assert(pos@.down =~~= goal.down);
        assert(pos@.right =~~= goal.right);
    }
    let mut y: usize = 0;
    while y < height
        invariant
            y <= height,
            w == width,
            h == height,
            pos.wf(),
            pos@.tracks(),
            pos@ == board_of(
                w,
                h,
                |a: int| true,
                |b: int| !(b < y),
                |a: int, b: int| true,
                |a: int, b: int| true,
                pos@.hash,
            ),
        decreases height - y,
    {
        let ghost before = pos@;
        cut(&mut pos, 0, y, Side::Left);
        proof {
            let goal = board_of(
                w,
                h,
                |a: int| true,
                |b: int| !(b < y + 1),
                |a: int, b: int| true,
                |a: int, b: int| true,
                pos@.hash,
            );
            assert(pos@.top =~= goal.top);
            assert(pos@.left =~= goal.left);
            assert(pos@.down =~~= goal.down);
            assert(pos@.right =~~= goal.right);
        }
        y += 1;
    }
    proof {
        let goal = board_of(
            w,
            h,
            |a: int| !(a < 0),
            |b: int| false,
            |a: int, b: int| true,
            |a: int, b: int| true,
            pos@.hash,
        );
        assert(pos@.top =~= goal.top);
        assert(pos@.left =~= goal.left);
        assert(pos@.down =~~= goal.down);
        assert(pos@.right =~~= goal.right);
    }
    let mut x: usize = 0;
    while x < width
        invariant
            x <= width,
            w == width,
            h == height,
            pos.wf(),
            pos@.tracks(),
            pos@ == board_of(
                w,
                h,
                |a: int| !(a < x),
                |b: int| false,
                |a: int, b: int| true,
                |a: int, b: int| true,
                pos@.hash,
            ),
        decreases width - x,
    {
        cut(&mut pos, x, 0, Side::Top);
        proof {
            let goal = board_of(
                w,
                h,
                |a: int| !(a < x + 1),
                |b: int| false,
                |a: int, b: int| true,
                |a: int, b: int| true,
                pos@.hash,
            );
            assert(pos@.top =~= goal.top);
            assert(pos@.left =~= goal.left);
            assert(pos@.down =~~= goal.down);
            assert(pos@.right =~~= goal.right);
        }
        x += 1;
    }
    proof {
        let goal = icelandic_view(w, h, pos@.hash);
        assert(pos@.top =~= goal.top);
        assert(pos@.left =~= goal.left);
        assert(pos@.down =~~= goal.down);
        assert(pos@.right =~~= goal.right);
    }
    pos
}

/// The edges of `chain_count` chains of `chain_size` squares, one below the
/// other: every horizontal edge is cut, every vertical edge uncut.
pub open spec fn chains_view(chain_size: nat, chain_count: nat, hash: usize) -> SimpleView {
    board_of(
        chain_size,
        chain_count,
        |x: int| false,
        |y: int| true,
        |x: int, y: int| false,
        |x: int, y: int| true,
        hash,
    )
}

/// A position that consists of a number of chains of the same size.
pub fn multi_chains(chain_size: usize, chain_count: usize) -> (pos: SimplePosition)
    requires
        1 <= chain_size,
        1 <= chain_count,
        key_count(chain_size as nat, chain_count as nat) <= usize::MAX,
    ensures
        pos.wf(),
        pos@ == chains_view(chain_size as nat, chain_count as nat, pos@.hash),
        pos@.tracks(),
{
    let mut pos = SimplePosition::new_game(chain_size, chain_count);
    let ghost w = chain_size as nat;
    let ghost h = chain_count as nat;
    let mut x: usize = 0;
    proof {
        let goal = board_of(
            w,
            h,
            |a: int| !(a < 0),
            |b: int| true,
            |a: int, b: int| !(a < 0),
            |a: int, b: int| true,
            pos@.hash,
        );
        assert(pos@.top =~= goal.top);
        assert(pos@.left =~= goal.left);
        assert(pos@.down =~~= goal.down);
        assert(pos@.right =~~= goal.right);
    }
    while x < chain_size
        invariant
            x <= chain_size,
            w == chain_size,
            h == chain_count,
            pos.wf(),
            pos@.tracks(),
            pos@ == board_of(
                w,
                h,
                |a: int| !(a < x),
                |b: int| true,
                |a: int, b: int| !(a < x),
                |a: int, b: int| true,
                pos@.hash,
            ),
        decreases chain_size - x,
    {
        cut(&mut pos, x, 0, Side::Top);
        proof {
            let goal = board_of(
                w,
                h,
                |a: int| !(a < x + 1),
                |b: int| true,
                |a: int, b: int| !(a < x || (a == x && b < 0)),
                |a: int, b: int| true,
                pos@.hash,
            );
            assert(pos@.top =~= goal.top);
            assert(pos@.left =~= goal.left);
            assert(pos@.down =~~= goal.down);
            assert(pos@.right =~~= goal.right);
        }
        let mut y: usize = 0;
        while y < chain_count
            invariant
                y <= chain_count,
                x < chain_size,
                w == chain_size,
                h == chain_count,
                pos.wf(),
                pos@.tracks(),
                pos@ == board_of(
                    w,
                    h,
                    |a: int| !(a < x + 1),
                    |b: int| true,
                    |a: int, b: int| !(a < x || (a == x && b < y)),
                    |a: int, b: int| true,
                    pos@.hash,
                ),
            decreases chain_count - y,
        {
            cut(&mut pos, x, y, Side::Bottom);
            proof {
                let goal = board_of(
                    w,
                    h,
                    |a: int| !(a < x + 1),
                    |b: int| true,
                    |a: int, b: int| !(a < x || (a == x && b < y + 1)),
                    |a: int, b: int| true,
                    pos@.hash,
                );
                assert(pos@.top =~= goal.top);
                assert(pos@.left =~= goal.left);
                assert(pos@.down =~~= goal.down);
                assert(pos@.right =~~= goal.right);
            }
            y += 1;
        }
        proof {
            let goal = board_of(
                w,
                h,
                |a: int| !(a < x + 1),
                |b: int| true,
                |a: int, b: int| !(a < x + 1),
                |a: int, b: int| true,
                pos@.hash,
            );
            assert(pos@.top =~= goal.top);
            assert(pos@.left =~= goal.left);
            assert(pos@.down =~~= goal.down);
            assert(pos@.right =~~= goal.right);
        }
        x += 1;
    }
    proof {
        let goal = chains_view(w, h, pos@.hash);
        assert(pos@.top =~= goal.top);
        assert(pos@.left =~= goal.left);
        assert(pos@.down =~~= goal.down);
        assert(pos@.right =~~= goal.right);
    }
    pos
}

/// A position that consists of one horizontal chain of the given length.
pub fn make_chain(length: usize) -> (pos: SimplePosition)
    requires
        1 <= length,
        key_count(length as nat, 1) <= usize::MAX,
    ensures
        pos.wf(),
        pos@ == chains_view(length as nat, 1, pos@.hash),
        pos@.tracks(),
{
    multi_chains(length, 1)
}

/// A position that consists of two horizontal chains of the given length.
pub fn double_chain(length: usize) -> (pos: SimplePosition)
    requires
        1 <= length,
        key_count(length as nat, 2) <= usize::MAX,
    ensures
        pos.wf(),
        pos@ == chains_view(length as nat, 2, pos@.hash),
        pos@.tracks(),
{
    multi_chains(length, 2)
}

/// The edges of two loops of the given width, one below the other, on a
/// board four squares high: the outline of each loop is cut, and so is the
/// edge between its two rows except at its two ends.
pub open spec fn double_loop_view(width: nat, hash: usize) -> SimpleView {
    board_of(
        width,
        4,
        |x: int| false,
        |y: int| false,
        |x: int, y: int| !(y == 1 || y == 3 || ((y == 0 || y == 2) && 1 <= x < width - 1)),
        |x: int, y: int| !(x == width - 1),
        hash,
    )
}

/// A position that consists of two loops of the given width.
pub fn double_loop(width: usize) -> (pos: SimplePosition)
    requires
        1 <= width,
        key_count(width as nat, 4) <= usize::MAX,
    ensures
        pos.wf(),
        pos@ == double_loop_view(width as nat, pos@.hash),
        pos@.tracks(),
{
    let mut pos = SimplePosition::new_game(width, 4);
    let ghost w = width as nat;
    proof {
        let goal = board_of(w, 4, |a: int| !(a < 0), |b: int| true, |a: int, b: int| !((b == 1 || b == 3) && a < 0), |a: int, b: int| true, pos@.hash);
        assert(pos@.top =~= goal.top);
        assert(pos@.left =~= goal.left);
        assert(pos@.down =~~= goal.down);
        assert(pos@.right =~~= goal.right);
    }
    let mut i: usize = 0;
    while i < width
        invariant
            i <= width,
            w == width,
            pos.wf(),
            pos@.tracks(),
            pos@ == board_of(
                w,
                4,
                |a: int| !(a < i),
                |b: int| true,
                |a: int, b: int| !((b == 1 || b == 3) && a < i),
                |a: int, b: int| true,
                pos@.hash,
            ),
        decreases width - i,
    {
        cut(&mut pos, i, 0, Side::Top);
        cut(&mut pos, i, 1, Side::Bottom);
        cut(&mut pos, i, 3, Side::Bottom);
        proof {
            let goal = board_of(w, 4, |a: int| !(a < i + 1), |b: int| true, |a: int, b: int| !((b == 1 || b == 3) && a < i + 1), |a: int, b: int| true, pos@.hash);
            assert(pos@.top =~= goal.top);
            assert(pos@.left =~= goal.left);
            assert(pos@.down =~~= goal.down);
            assert(pos@.right =~~= goal.right);
        }
        i += 1;
    }
    proof {
        let goal = board_of(w, 4, |a: int| false, |b: int| !(b < 0), |a: int, b: int| !(b == 1 || b == 3), |a: int, b: int| !(a == w - 1 && b < 0), pos@.hash);
        assert(pos@.top =~= goal.top);
        assert(pos@.left =~= goal.left);
        assert(pos@.down =~~= goal.down);
        assert(pos@.right =~~= goal.right);
    }
    i = 0;
    while i < 4
        invariant
            i <= 4,
            w == width,
            1 <= width,
            pos.wf(),
            pos@.tracks(),
            pos@ == board_of(
                w,
                4,
                |a: int| false,
                |b: int| !(b < i),
                |a: int, b: int| !(b == 1 || b == 3),
                |a: int, b: int| !(a == w - 1 && b < i),
                pos@.hash,
            ),
        decreases 4 - i,
    {
        cut(&mut pos, 0, i, Side::Left);
        cut(&mut pos, width - 1, i, Side::Right);
        proof {
            let goal = board_of(w, 4, |a: int| false, |b: int| !(b < i + 1), |a: int, b: int| !(b == 1 || b == 3), |a: int, b: int| !(a == w - 1 && b < i + 1), pos@.hash);
            assert(pos@.top =~= goal.top);
            assert(pos@.left =~= goal.left);
            assert(pos@.down =~~= goal.down);
            assert(pos@.right =~~= goal.right);
        }
        i += 1;
    }
    proof {
        let goal = board_of(w, 4, |a: int| false, |b: int| false, |a: int, b: int| !(b == 1 || b == 3 || ((b == 0 || b == 2) && 1 <= a < 1)), |a: int, b: int| !(a == w - 1), pos@.hash);
        assert(pos@.top =~= goal.top);
        assert(pos@.left =~= goal.left);
        assert(pos@.down =~~= goal.down);
        assert(pos@.right =~~= goal.right);
    }
    i = 1;
    while i < width - 1
        invariant
            1 <= i,
            i < width || i == 1,
            w == width,
            1 <= width,
            pos.wf(),
            pos@.tracks(),
            pos@ == board_of(
                w,
                4,
                |a: int| false,
                |b: int| false,
                |a: int, b: int| !(b == 1 || b == 3 || ((b == 0 || b == 2) && 1 <= a < i)),
                |a: int, b: int| !(a == w - 1),
                pos@.hash,
            ),
        decreases width - i,
    {
        cut(&mut pos, i, 0, Side::Bottom);
        cut(&mut pos, i, 2, Side::Bottom);
        proof {
            let goal = board_of(w, 4, |a: int| false, |b: int| false, |a: int, b: int| !(b == 1 || b == 3 || ((b == 0 || b == 2) && 1 <= a < i + 1)), |a: int, b: int| !(a == w - 1), pos@.hash);
            assert(pos@.top =~= goal.top);
            assert(pos@.left =~= goal.left);
            assert(pos@.down =~~= goal.down);
            assert(pos@.right =~~= goal.right);
        }
        i += 1;
    }
    proof {
        let goal = double_loop_view(w, pos@.hash);
        assert(pos@.top =~= goal.top);
        assert(pos@.left =~= goal.left);
        assert(pos@.down =~~= goal.down);
        assert(pos@.right =~~= goal.right);
    }
    pos
}

/// Part `i` of a compound of one long chain and some chains of three: a
/// chain with keys drawn for salt `i` and the hash at its start.
pub open spec fn chain_part(length: nat, i: nat) -> SimpleView {
    resalted(chains_view(length, 1, 0), i)
}

/// One long chain, which is part 0, and a number of chains of three
/// squares, which are the parts from 1 on.
pub fn one_long_multi_three(three_chain_count: usize, long_chain_size: usize) -> (pos:
    CompoundPosition)
    requires
        three_chain_count < usize::MAX,
        1 <= long_chain_size,
        key_count(long_chain_size as nat, 1) <= usize::MAX,
    ensures
        pos.wf(),
        pos@.len() == three_chain_count + 1,
        pos@[0] == chain_part(long_chain_size as nat, 0),
        forall|i: int| 1 <= i <= three_chain_count ==> #[trigger] pos@[i] == chain_part(3, i as nat),
{
    let mut parts: Vec<SimplePosition> = Vec::with_capacity(three_chain_count + 1);
    parts.push(make_chain(long_chain_size));
    let three = make_chain(3);
    let mut i: usize = 0;
    while i < three_chain_count
        invariant
            i <= three_chain_count,
            three.wf(),
            three@ == chains_view(3, 1, three@.hash),
            parts@.len() == i + 1,
            forall|j: int| 0 <= j < parts@.len() ==> (#[trigger] parts@[j]).wf(),
            parts@[0]@ == chains_view(long_chain_size as nat, 1, parts@[0]@.hash),
            forall|j: int| 1 <= j <= i ==> (#[trigger] parts@[j])@ == three@,
        decreases three_chain_count - i,
    {
        parts.push(three.clone());
        i += 1;
    }
    let ghost given = parts@;
    let pos = CompoundPosition::new_game(parts);
    proof {
        assert(pos@[0] == resalted(given[0]@, 0));
        assert forall|j: int| 1 <= j <= three_chain_count implies #[trigger] pos@[j] == chain_part(
            3,
            j as nat,
        ) by {
            assert(pos@[j] == resalted(given[j]@, j as nat));
        }
    }
    pos
}

} // verus!
