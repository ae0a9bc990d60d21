//! The minimax evaluator: the score that the player to move can secure, and
//! a move that secures it. Nimstring theory prunes the moves to look at.

use crate::board::{lemma_all_except, opposite_side, other_sides, CPosMove, Move, Side};
use crate::compound::CompoundPosition;
use crate::model::{canonical, lemma_cut, lemma_moves_exact, lemma_same_edge, SimpleView};
use crate::nimstring::{loony_across, loony_at, simple_loony, would_be_loony, NimstringPosition};
use crate::position::Position;
use crate::simple::SimplePosition;
use crate::splitter::{lemma_edge_symmetry, lemma_legal_valency};
use std::collections::HashMap;
use vstd::prelude::*;

verus! {

/// The first of `sides`, from place `k` on, that is an uncut edge of `(x, y)`.
pub open spec fn first_legal(v: SimpleView, x: usize, y: usize, sides: Seq<Side>, k: nat) -> Option<
    Side,
>
    decreases sides.len() - k,
{
    if k >= sides.len() {
        None
    } else if v.legal(Move { x, y, side: sides[k as int] }) {
        Some(sides[k as int])
    } else {
        first_legal(v, x, y, sides, k + 1)
    }
}

/// The square with two uncut edges at the edge of the capture, and the side
/// of it that the double-deal must not cut: where the capture names the
/// square that it captures, the square across the edge and the side facing
/// back; else the capture's own square and side.
pub open spec fn ddeal_target(v: SimpleView, capture: Move) -> (usize, usize, Side) {
    if v.valency(capture.x, capture.y) == 1 {
        match v.neighbour(capture.x, capture.y, capture.side) {
            Some((x, y)) => (x, y, opposite_side(capture.side)),
            None => (capture.x, capture.y, capture.side),
        }
    } else {
        (capture.x, capture.y, capture.side)
    }
}

/// The capture has a double-deal beside it: the square at its edge that it
/// does not capture exists and has exactly two uncut edges.
pub open spec fn simple_ddeal_defined(v: SimpleView, capture: Move) -> bool {
    let t = ddeal_target(v, capture);
    &&& v.valency(capture.x, capture.y) == 1 ==> v.neighbour(capture.x, capture.y, capture.side)
        is Some
    &&& v.valency(t.0, t.1) == 2
}

/// The double-deal beside a capture: the other uncut edge of the square
/// with two uncut edges.
pub open spec fn simple_ddeal(v: SimpleView, capture: Move) -> Move {
    let t = ddeal_target(v, capture);
    Move {
        x: t.0,
        y: t.1,
        side: first_legal(v, t.0, t.1, other_sides(t.2), 0)->0,
    }
}

/// The edge of `m` is an edge of square `(x, y)`.
pub open spec fn adjacent(v: SimpleView, m: Move, x: usize, y: usize) -> bool {
    (x, y) == (m.x, m.y) || v.neighbour(m.x, m.y, m.side) == Some((x, y))
}

/// Where a double-deal is defined, it is a legal move.
#[verifier::rlimit(40)]
pub proof fn lemma_simple_ddeal_legal(v: SimpleView, capture: Move)
    requires
        v.wf(),
        v.legal(capture),
        simple_ddeal_defined(v, capture),
    ensures
        first_legal(
            v,
            ddeal_target(v, capture).0,
            ddeal_target(v, capture).1,
            other_sides(ddeal_target(v, capture).2),
            0,
        ) is Some,
        v.legal(simple_ddeal(v, capture)),
{
    let t = ddeal_target(v, capture);
    lemma_all_except(t.2);
    reveal_with_fuel(first_legal, 5);
    if v.valency(capture.x, capture.y) == 1 {
        lemma_edge_symmetry(v, capture, (t.0, t.1));
    }
    assert(v.legal(Move { x: t.0, y: t.1, side: t.2 }));
    let sides = other_sides(t.2);
    assert(sides.len() == 3);
    assert(v.legal(Move { x: t.0, y: t.1, side: sides[0] }) || v.legal(
        Move { x: t.0, y: t.1, side: sides[1] },
    ) || v.legal(Move { x: t.0, y: t.1, side: sides[2] }));
    let found = first_legal(v, t.0, t.1, sides, 0);
    assert(found is Some);
    assert(found->0 == sides[0] || found->0 == sides[1] || found->0 == sides[2]);
    assert(v.legal(Move { x: t.0, y: t.1, side: found->0 }));
}

/// Cutting an edge leaves the squares that it is no edge of as they were.
pub proof fn lemma_cut_far(v: SimpleView, m: Move, x: usize, y: usize)
    requires
        v.wf(),
        v.legal(m),
        v.on_board(x, y),
        !adjacent(v, m, x, y),
    ensures
        forall|s: Side| #[trigger]
            v.cut(m).legal(Move { x, y, side: s }) == v.legal(Move { x, y, side: s }),
        v.cut(m).valency(x, y) == v.valency(x, y),
{
    lemma_cut(v, m);
    assert forall|s: Side| #[trigger]
        v.cut(m).legal(Move { x, y, side: s }) == v.legal(Move { x, y, side: s }) by {
        lemma_same_edge(v, Move { x, y, side: s }, m);
    }
}

/// In a loony position, a capture after which the position is no longer
/// loony has a double-deal beside it.
#[verifier::rlimit(40)]
pub proof fn lemma_simple_ddeal(v: SimpleView, capture: Move)
    requires
        v.wf(),
        simple_loony(v),
        v.legal(capture),
        v.capture_count(capture) > 0,
        !simple_loony(v.cut(capture)),
    ensures
        simple_ddeal_defined(v, capture),
{
    let after = v.cut(capture);
    lemma_cut(v, capture);
    let (ax, ay) = choose|x: usize, y: usize| v.on_board(x, y) && #[trigger] loony_at(v, x, y);
    let s = choose|s: Side| #[trigger]
        v.legal(Move { x: ax, y: ay, side: s }) && loony_across(v, ax, ay, s);
    let b = v.neighbour(ax, ay, s)->0;
    lemma_edge_symmetry(v, Move { x: ax, y: ay, side: s }, b);
    let cx = capture.x;
    let cy = capture.y;
    if !simple_ddeal_defined(v, capture) {
        // The capture's edge is no edge of the capturable square.
        if adjacent(v, capture, ax, ay) {
            if (ax, ay) == (cx, cy) {
                assert(capture.side == s);
            } else {
                lemma_edge_symmetry(v, capture, (ax, ay));
                assert(opposite_side(capture.side) == s);
            }
            assert(false);
        }
        // Nor of the square behind it.
        if adjacent(v, capture, b.0, b.1) {
            if b == (cx, cy) {
                assert(capture.side != opposite_side(s)) by {
                    if capture.side == opposite_side(s) {
                        assert(v.neighbour(cx, cy, capture.side) == Some((ax, ay)));
                    }
                }
                assert(v.valency(cx, cy) == 2);
                let f = v.neighbour(cx, cy, capture.side);
                assert(f is Some);
                let far = f->0;
                assert(v.valency(far.0, far.1) == 1);
            } else {
                lemma_edge_symmetry(v, capture, b);
                let t = opposite_side(capture.side);
                assert(v.legal(Move { x: b.0, y: b.1, side: t }));
                assert(v.neighbour(b.0, b.1, t) == Some((cx, cy)));
                if t == opposite_side(s) {
                    assert((cx, cy) == (ax, ay));
                } else {
                    assert(v.valency(cx, cy) != 1);
                }
            }
            assert(false);
        }
        lemma_cut_far(v, capture, ax, ay);
        lemma_cut_far(v, capture, b.0, b.1);
        assert(after.legal(Move { x: ax, y: ay, side: s }));
        assert(after.neighbour(ax, ay, s) == Some(b));
        assert forall|t: Side|
            t != opposite_side(s) && #[trigger] after.legal(
                Move { x: b.0, y: b.1, side: t },
            ) implies match after.neighbour(b.0, b.1, t) {
            Some((fx, fy)) => after.valency(fx, fy) != 1,
            None => true,
        } by {
            assert(v.legal(Move { x: b.0, y: b.1, side: t }));
            match v.neighbour(b.0, b.1, t) {
                Some((fx, fy)) => {
                    assert(after.neighbour(b.0, b.1, t) == Some((fx, fy)));
                    assert(v.valency(fx, fy) != 1);
                    lemma_edge_symmetry(v, Move { x: b.0, y: b.1, side: t }, (fx, fy));
                    lemma_legal_valency(
                        v,
                        Move { x: fx, y: fy, side: opposite_side(t) },
                    );
                    if adjacent(v, capture, fx, fy) {
                        if (fx, fy) == (cx, cy) {
                            assert(v.valency(fx, fy) != 2);
                        } else {
                            assert(v.neighbour(cx, cy, capture.side) == Some((fx, fy)));
                            assert(v.valency(fx, fy) != 2);
                        }
                        assert(after.valency(fx, fy) + 1 == v.valency(fx, fy));
                    } else {
                        lemma_cut_far(v, capture, fx, fy);
                    }
                },
                None => {},
            }
        }
        assert(loony_across(after, ax, ay, s));
        assert(loony_at(after, ax, ay));
        assert(simple_loony(after));
    }
}

/// A loony position has a move that captures.
pub proof fn lemma_simple_loony_capture(v: SimpleView) -> (i: int)
    requires
        v.wf(),
        simple_loony(v),
    ensures
        0 <= i < v.moves().len(),
        v.capture_count(v.moves()[i]) > 0,
{
    let (ax, ay) = choose|x: usize, y: usize| v.on_board(x, y) && #[trigger] loony_at(v, x, y);
    let s = choose|s: Side| #[trigger]
        v.legal(Move { x: ax, y: ay, side: s }) && loony_across(v, ax, ay, s);
    let m = Move { x: ax, y: ay, side: s };
    lemma_same_edge(v, m, m);
    lemma_moves_exact(v);
    let c = canonical(m);
    assert(v.moves().contains(c));
    let i = choose|i: int| 0 <= i < v.moves().len() && v.moves()[i] == c;
    if c != m {
        assert(v.neighbour(c.x, c.y, c.side) == Some((ax, ay)));
    }
    i
}

/// A position for the evaluator.
pub trait EvaluablePosition<M: Copy>: NimstringPosition<M> {
    /// The capture `m` has a double-deal beside it.
    spec fn ddeal_defined(v: Self::V, m: M) -> bool;

    /// The double-deal beside the capture `m`: the move that leaves the
    /// last two squares of the chain to the opponent.
    spec fn ddeal_of(v: Self::V, m: M) -> M;

    /// In a loony position, a capture after which the position is no
    /// longer loony has a double-deal beside it, which is a legal move.
    proof fn lemma_ddeal(v: Self::V, m: M)
        requires
            Self::view_wf(v),
            Self::loony(v),
            Self::legal_in(v, m),
            Self::capture_in(v, m) > 0,
            !Self::loony(Self::played(v, m)),
        ensures
            Self::ddeal_defined(v, m),
            Self::legal_in(v, Self::ddeal_of(v, m)),
    ;

    /// A loony position has a move that captures.
    proof fn lemma_loony_capture(v: Self::V) -> (i: int)
        requires
            Self::view_wf(v),
            Self::loony(v),
        ensures
            0 <= i < Self::moves_in(v).len(),
            Self::capture_in(v, Self::moves_in(v)[i]) > 0,
    ;

    /// The double-deal beside the capture `m` of a loony position.
    fn find_ddeal_move(&self, m: M) -> (ddeal: M)
        requires
            self.wf(),
            Self::legal_in(self@, m),
            Self::ddeal_defined(self@, m),
        ensures
            ddeal == Self::ddeal_of(self@, m),
    ;
}

impl EvaluablePosition<Move> for SimplePosition {
    open spec fn ddeal_defined(v: SimpleView, m: Move) -> bool {
        simple_ddeal_defined(v, m)
    }

    open spec fn ddeal_of(v: SimpleView, m: Move) -> Move {
        simple_ddeal(v, m)
    }

    proof fn lemma_ddeal(v: SimpleView, m: Move) {
        lemma_simple_ddeal(v, m);
        lemma_simple_ddeal_legal(v, m);
    }

    proof fn lemma_loony_capture(v: SimpleView) -> (i: int) {
        lemma_simple_loony_capture(v)
    }

    fn find_ddeal_move(&self, capture: Move) -> (ddeal: Move) {
        let ghost v = self@;
        proof {
            lemma_simple_ddeal_legal(v, capture);
        }
        // The capture may name the coin of valency 1 or the one of valency 2.
        let (v2_x, v2_y, excl_side) = if self.valency(capture.x, capture.y) == 1 {
            match self.offset(capture.x, capture.y, capture.side) {
                Some((x, y)) => (x, y, capture.side.opposite()),
                None => (capture.x, capture.y, capture.side),
            }
        } else {
            (capture.x, capture.y, capture.side)
        };
        let sides = Side::all_except(excl_side);
        let mut k: usize = 0;
        while k < sides.len()
            invariant
                k <= sides@.len(),
                self.wf(),
                v == self@,
                (v2_x, v2_y, excl_side) == ddeal_target(v, capture),
                sides@ == other_sides(excl_side),
                first_legal(v, v2_x, v2_y, sides@, k as nat) == first_legal(v, v2_x, v2_y, sides@, 0),
                first_legal(v, v2_x, v2_y, sides@, 0) is Some,
            decreases sides@.len() - k,
        {
            let s = sides[k];
            if self.is_legal_move(Move { x: v2_x, y: v2_y, side: s }) {
                return Move { x: v2_x, y: v2_y, side: s };
            }
            k += 1;
        }
        Move { x: v2_x, y: v2_y, side: excl_side }
    }
}

impl EvaluablePosition<CPosMove> for CompoundPosition {
    open spec fn ddeal_defined(v: Seq<SimpleView>, m: CPosMove) -> bool {
        m.part < v.len() && simple_ddeal_defined(v[m.part as int], m.m)
    }

    open spec fn ddeal_of(v: Seq<SimpleView>, m: CPosMove) -> CPosMove {
        CPosMove { part: m.part, m: simple_ddeal(v[m.part as int], m.m) }
    }

    proof fn lemma_ddeal(v: Seq<SimpleView>, m: CPosMove) {
        let p = m.part as int;
        let after = v.update(p, v[p].cut(m.m));
        lemma_cut(v[p], m.m);
        let i = choose|i: int| 0 <= i < v.len() && simple_loony(#[trigger] v[i]);
        if i != p {
            assert(simple_loony(after[i]));
        }
        assert(!simple_loony(after[p]));
        lemma_simple_ddeal(v[p], m.m);
        lemma_simple_ddeal_legal(v[p], m.m);
    }

    proof fn lemma_loony_capture(v: Seq<SimpleView>) -> (i: int) {
        let p = choose|p: int| 0 <= p < v.len() && simple_loony(#[trigger] v[p]);
        let j = lemma_simple_loony_capture(v[p]);
        crate::compound::lemma_compound_index(v, v.len(), p, j)
    }

    fn find_ddeal_move(&self, capture: CPosMove) -> (ddeal: CPosMove) {
        CPosMove { part: capture.part, m: self.part(capture.part).find_ddeal_move(capture.m) }
    }
}

/// The first legal move, from place `k` on, that captures and must be
/// played: in a position that is not loony any capture, in a loony one a
/// capture that leaves the position loony.
pub open spec fn forced_capture<M: Copy, P: EvaluablePosition<M>>(v: P::V, k: nat) -> Option<M>
    decreases P::moves_in(v).len() - k,
{
    let m = P::moves_in(v)[k as int];
    if k >= P::moves_in(v).len() {
        None
    } else if P::capture_in(v, m) > 0 && (!P::loony(v) || P::loony(P::played(v, m))) {
        Some(m)
    } else {
        forced_capture::<M, P>(v, k + 1)
    }
}

/// The last of the first `n` legal moves that captures.
pub open spec fn last_capture<M: Copy, P: EvaluablePosition<M>>(v: P::V, n: nat) -> Option<M>
    decreases n,
{
    if n == 0 {
        None
    } else if n <= P::moves_in(v).len() && P::capture_in(v, P::moves_in(v)[n - 1]) > 0 {
        Some(P::moves_in(v)[n - 1])
    } else {
        last_capture::<M, P>(v, (n - 1) as nat)
    }
}

/// The moves that deserve a look. A capture that must be played stands
/// alone. In a loony position without such a capture, the last capture
/// stands beside its double-deal. Otherwise every legal move is looked at.
pub open spec fn considered<M: Copy, P: EvaluablePosition<M>>(v: P::V) -> Seq<M> {
    match forced_capture::<M, P>(v, 0) {
        Some(m) => seq![m],
        None => if P::loony(v) {
            match last_capture::<M, P>(v, P::moves_in(v).len()) {
                Some(c) => seq![c, P::ddeal_of(v, c)],
                None => P::moves_in(v),
            }
        } else {
            P::moves_in(v)
        },
    }
}

/// Where no capture must be played from place `k` on, move `i` is none.
proof fn lemma_forced_none<M: Copy, P: EvaluablePosition<M>>(v: P::V, k: nat, i: int)
    requires
        forced_capture::<M, P>(v, k) is None,
        k <= i < P::moves_in(v).len(),
    ensures
        !(P::capture_in(v, P::moves_in(v)[i]) > 0 && (!P::loony(v) || P::loony(
            P::played(v, P::moves_in(v)[i]),
        ))),
    decreases P::moves_in(v).len() - k,
{
    if k < i {
        lemma_forced_none::<M, P>(v, k + 1, i);
    }
}

/// A capture that must be played is one of the legal moves.
proof fn lemma_forced_some<M: Copy, P: EvaluablePosition<M>>(v: P::V, k: nat) -> (i: int)
    requires
        forced_capture::<M, P>(v, k) is Some,
    ensures
        k <= i < P::moves_in(v).len(),
        P::moves_in(v)[i] == forced_capture::<M, P>(v, k)->0,
    decreases P::moves_in(v).len() - k,
{
    let m = P::moves_in(v)[k as int];
    if P::capture_in(v, m) > 0 && (!P::loony(v) || P::loony(P::played(v, m))) {
        k as int
    } else {
        lemma_forced_some::<M, P>(v, k + 1)
    }
}

/// The last capture is one of the legal moves, and captures.
proof fn lemma_last_capture<M: Copy, P: EvaluablePosition<M>>(v: P::V, n: nat) -> (j: int)
    requires
        n <= P::moves_in(v).len(),
        last_capture::<M, P>(v, n) is Some,
    ensures
        0 <= j < n,
        P::moves_in(v)[j] == last_capture::<M, P>(v, n)->0,
        P::capture_in(v, P::moves_in(v)[j]) > 0,
    decreases n,
{
    if P::capture_in(v, P::moves_in(v)[n - 1]) > 0 {
        n - 1
    } else {
        lemma_last_capture::<M, P>(v, (n - 1) as nat)
    }
}

/// Where one of the first `n` legal moves captures, there is a last one.
proof fn lemma_last_capture_exists<M: Copy, P: EvaluablePosition<M>>(v: P::V, n: nat, i: int)
    requires
        0 <= i < n <= P::moves_in(v).len(),
        P::capture_in(v, P::moves_in(v)[i]) > 0,
    ensures
        last_capture::<M, P>(v, n) is Some,
    decreases n,
{
    if i < n - 1 && !(P::capture_in(v, P::moves_in(v)[n - 1]) > 0) {
        lemma_last_capture_exists::<M, P>(v, (n - 1) as nat, i);
    }
}

/// The moves that deserve a look are legal, and there is one unless the
/// game is over.
#[verifier::rlimit(40)]
pub proof fn lemma_considered<M: Copy, P: EvaluablePosition<M>>(v: P::V)
    requires
        P::view_wf(v),
    ensures
        forall|k: int|
            0 <= k < considered::<M, P>(v).len() ==> P::legal_in(
                v,
                #[trigger] considered::<M, P>(v)[k],
            ),
        considered::<M, P>(v).len() == 0 <==> P::moves_in(v).len() == 0,
        P::loony(v) && forced_capture::<M, P>(v, 0) is None ==> last_capture::<M, P>(
            v,
            P::moves_in(v).len(),
        ) is Some && P::ddeal_defined(v, last_capture::<M, P>(v, P::moves_in(v).len())->0),
{
    P::lemma_moves(v);
    let moves = P::moves_in(v);
    match forced_capture::<M, P>(v, 0) {
        Some(m) => {
            let i = lemma_forced_some::<M, P>(v, 0);
            assert(P::legal_in(v, moves[i]));
        },
        None => {
            if P::loony(v) {
                let i = P::lemma_loony_capture(v);
                lemma_last_capture_exists::<M, P>(v, moves.len(), i);
                let j = lemma_last_capture::<M, P>(v, moves.len());
                lemma_forced_none::<M, P>(v, 0, j);
                assert(P::legal_in(v, moves[j]));
                P::lemma_ddeal(v, moves[j]);
            }
        },
    }
}

/// The moves that deserve a look in a position. The position is left as it
/// was.
#[verifier::rlimit(40)]
pub fn moves_to_consider<M: Copy, P: EvaluablePosition<M>>(pos: &mut P) -> (moves: Vec<M>)
    requires
        old(pos).wf(),
    ensures
        final(pos).wf(),
        final(pos)@ == old(pos)@,
        moves@ == considered::<M, P>(old(pos)@),
{
    let ghost v = pos@;
    proof {
        pos.lemma_view_wf();
        P::lemma_moves(v);
        lemma_considered::<M, P>(v);
    }
    let legal_moves = pos.legal_moves();

    // A capture that does not change looniness is simply made.
    let is_loony = pos.is_loony();
    let mut capture: Option<M> = None;
    let mut i: usize = 0;
    while i < legal_moves.len()
        invariant
            i <= legal_moves@.len(),
            pos.wf(),
            pos@ == v,
            v == old(pos)@,
            P::view_wf(v),
            legal_moves@ == P::moves_in(v),
            is_loony == P::loony(v),
            forall|j: int|
                0 <= j < P::moves_in(v).len() ==> P::legal_in(v, #[trigger] P::moves_in(v)[j]),
            capture == last_capture::<M, P>(v, i as nat),
            forced_capture::<M, P>(v, i as nat) == forced_capture::<M, P>(v, 0),
        decreases legal_moves@.len() - i,
    {
        let m = legal_moves[i];
        proof {
            assert(P::legal_in(v, P::moves_in(v)[i as int]));
            P::lemma_played(v, m);
        }
        let captures = pos.would_capture(m);
        if captures != 0 {
            capture = Some(m);
            if !is_loony || would_be_loony(pos, m) {
                let only = vec![m];
                assert(only@ =~= seq![m]);
                return only;
            }
        }
        i += 1;
    }
    // In a loony position, capture all or decline the last two coins.
    if is_loony {
        let capture = capture.unwrap();
        let ddeal_move = pos.find_ddeal_move(capture);
        let both = vec![capture, ddeal_move];
        assert(both@ =~= seq![capture, ddeal_move]);
        both
    } else {
        legal_moves
    }
}

/// The score of a position for the player to move: the most that a move
/// worth a look secures, where a move that captures `c` squares secures `c`
/// and the score of the position after it, and a move that captures
/// nothing secures the negated score of the position after it. A finished
/// game scores 0.
pub open spec fn score<M: Copy, P: EvaluablePosition<M>>(v: P::V) -> int {
    score_within::<M, P>(v, P::moves_in(v).len())
}

/// `score` of a position with `size` legal moves.
pub open spec fn score_within<M: Copy, P: EvaluablePosition<M>>(v: P::V, size: nat) -> int
    decreases size, 1nat, 0nat,
{
    if considered::<M, P>(v).len() == 0 {
        0
    } else {
        best_of::<M, P>(v, considered::<M, P>(v), considered::<M, P>(v).len(), size).0
    }
}

/// What move `m` secures in a position with `size` legal moves, given the
/// score `after` of the position that it leads to.
pub open spec fn secures<M: Copy, P: EvaluablePosition<M>>(v: P::V, m: M, after: int) -> int {
    if P::capture_in(v, m) > 0 {
        P::capture_in(v, m) + after
    } else {
        -after
    }
}

/// The best of the first `n` of the moves `c`: what it secures and its
/// place in `c`; of several that secure the same, the first.
pub open spec fn best_of<M: Copy, P: EvaluablePosition<M>>(v: P::V, c: Seq<M>, n: nat, size: nat)
    -> (int, int)
    decreases size, 0nat, n,
{
    if n == 0 {
        (isize::MIN as int, 0int)
    } else {
        let prev = best_of::<M, P>(v, c, (n - 1) as nat, size);
        let next = P::played(v, c[n - 1]);
        let sub = if P::moves_in(next).len() < size {
            secures::<M, P>(v, c[n - 1], score_within::<M, P>(next, P::moves_in(next).len()))
        } else {
            0
        };
        if sub > prev.0 {
            (sub, n - 1)
        } else {
            prev
        }
    }
}

/// The score of a position and a move that secures it; no move where the
/// game is over.
pub open spec fn outcome_of<M: Copy, P: EvaluablePosition<M>>(v: P::V) -> (int, Option<M>) {
    let c = considered::<M, P>(v);
    if c.len() == 0 {
        (0, None)
    } else {
        let b = best_of::<M, P>(v, c, c.len(), P::moves_in(v).len());
        (b.0, Some(c[b.1]))
    }
}

/// The best of the first `n` moves is one of them, and what it secures is
/// at most two squares for each legal move of the position.
proof fn lemma_best_bound<M: Copy, P: EvaluablePosition<M>>(v: P::V, n: nat, size: nat)
    requires
        P::view_wf(v),
        size == P::moves_in(v).len(),
        2 * size <= isize::MAX,
        n <= considered::<M, P>(v).len(),
    ensures
        n == 0 ==> best_of::<M, P>(v, considered::<M, P>(v), n, size) == (isize::MIN as int, 0int),
        n > 0 ==> -2 * size <= best_of::<M, P>(v, considered::<M, P>(v), n, size).0 <= 2 * size,
        n > 0 ==> 0 <= best_of::<M, P>(v, considered::<M, P>(v), n, size).1 < n,
    decreases size, 0nat, n,
{
    if n > 0 {
        let c = considered::<M, P>(v);
        lemma_considered::<M, P>(v);
        lemma_best_bound::<M, P>(v, (n - 1) as nat, size);
        let m = c[n - 1];
        assert(P::legal_in(v, m));
        P::lemma_played(v, m);
        let next = P::played(v, m);
        lemma_score_bound::<M, P>(next, P::moves_in(next).len());
    }
}

/// A score is at most two squares for each legal move of the position.
pub proof fn lemma_score_bound<M: Copy, P: EvaluablePosition<M>>(v: P::V, size: nat)
    requires
        P::view_wf(v),
        size == P::moves_in(v).len(),
        2 * size <= isize::MAX,
    ensures
        -2 * size <= score_within::<M, P>(v, size) <= 2 * size,
    decreases size, 1nat, 0nat,
{
    let c = considered::<M, P>(v);
    if c.len() > 0 {
        lemma_best_bound::<M, P>(v, c.len(), size);
    }
}

/// `orc` tells score and best move of `v` and of every position that the
/// evaluator looks at on its way to them, each under its hash, and holds
/// nothing under the hash of a finished game.
pub open spec fn eval_oracle_ok<M: Copy, P: EvaluablePosition<M>>(
    v: P::V,
    orc: Map<usize, (isize, M)>,
) -> bool {
    eval_oracle_within::<M, P>(v, orc, P::moves_in(v).len())
}

/// `eval_oracle_ok` of a position with `size` legal moves.
pub open spec fn eval_oracle_within<M: Copy, P: EvaluablePosition<M>>(
    v: P::V,
    orc: Map<usize, (isize, M)>,
    size: nat,
) -> bool
    decreases size, 1nat, 0nat,
{
    if considered::<M, P>(v).len() == 0 {
        !orc.contains_key(P::hash_in(v))
    } else {
        &&& orc.contains_key(P::hash_in(v))
        &&& orc[P::hash_in(v)].0 == outcome_of::<M, P>(v).0
        &&& Some(orc[P::hash_in(v)].1) == outcome_of::<M, P>(v).1
        &&& children_oracle_ok::<M, P>(v, considered::<M, P>(v).len(), orc, size)
    }
}

/// `eval_oracle_ok` of the positions after the first `n` moves worth a look.
pub open spec fn children_oracle_ok<M: Copy, P: EvaluablePosition<M>>(
    v: P::V,
    n: nat,
    orc: Map<usize, (isize, M)>,
    size: nat,
) -> bool
    decreases size, 0nat, n,
{
    if n == 0 {
        true
    } else {
        let next = P::played(v, considered::<M, P>(v)[n - 1]);
        children_oracle_ok::<M, P>(v, (n - 1) as nat, orc, size) && (P::moves_in(next).len() < size
            ==> eval_oracle_within::<M, P>(next, orc, P::moves_in(next).len()))
    }
}

/// What the children's oracle condition says of one move.
proof fn lemma_child_oracle<M: Copy, P: EvaluablePosition<M>>(
    v: P::V,
    n: nat,
    orc: Map<usize, (isize, M)>,
    size: nat,
    i: int,
)
    requires
        children_oracle_ok::<M, P>(v, n, orc, size),
        0 <= i < n,
        P::moves_in(P::played(v, considered::<M, P>(v)[i])).len() < size,
    ensures
        eval_oracle_ok::<M, P>(P::played(v, considered::<M, P>(v)[i]), orc),
    decreases n,
{
    if i < n - 1 {
        lemma_child_oracle::<M, P>(v, (n - 1) as nat, orc, size, i);
    }
}

/// The evaluator's promise. Whenever the cache it was given agrees with an
/// oracle for the position, and twice the number of legal moves fits an
/// `isize`, it returns the position's score and best move, and the cache
/// it leaves behind agrees with that oracle too.
pub open spec fn evaluated<M: Copy, P: EvaluablePosition<M>>(
    v: P::V,
    before: Map<usize, (isize, M)>,
    after: Map<usize, (isize, M)>,
    result: (isize, Option<M>),
) -> bool {
    forall|orc: Map<usize, (isize, M)>| #[trigger]
        eval_oracle_ok::<M, P>(v, orc) && before.submap_of(orc) && 2 * P::moves_in(v).len()
            <= isize::MAX ==> result.0 == outcome_of::<M, P>(v).0 && result.1 == outcome_of::<
            M,
            P,
        >(v).1 && after.submap_of(orc)
}

/// Evaluates a position given the moves to look at.
#[verifier::rlimit(40)]
fn eval_moves<M: Copy, P: EvaluablePosition<M>>(
    pos: &mut P,
    moves: &Vec<M>,
    cache: &mut HashMap<usize, (isize, M)>,
    Ghost(size): Ghost<nat>,
) -> (result: (isize, Option<M>))
    requires
        old(pos).wf(),
        size == P::moves_in(old(pos)@).len(),
        moves@ == considered::<M, P>(old(pos)@),
    ensures
        final(pos).wf(),
        final(pos)@ == old(pos)@,
        evaluated::<M, P>(old(pos)@, old(cache)@, final(cache)@, result),
        result.1 is None <==> moves@.len() == 0,
        result.1 is Some ==> moves@.contains(result.1->0),
    decreases size, 0nat,
{
    broadcast use vstd::std_specs::hash::group_hash_axioms;

    let ghost v = pos@;
    let ghost c0 = cache@;
    let ghost c = moves@;
    proof {
        pos.lemma_view_wf();
        lemma_considered::<M, P>(v);
    }
    if moves.len() == 0 {
        return (0, None);
    }
    let mut value = isize::MIN;
    let mut best_move = moves[0];
    let mut i: usize = 0;
    assert(c[0] == best_move);
    while i < moves.len()
        invariant
            i <= moves@.len(),
            pos.wf(),
            pos@ == v,
            P::view_wf(v),
            c == moves@,
            c == considered::<M, P>(v),
            c.len() > 0,
            size == P::moves_in(v).len(),
            c.contains(best_move),
            forall|k: int| 0 <= k < c.len() ==> P::legal_in(v, #[trigger] c[k]),
            forall|orc: Map<usize, (isize, M)>| #[trigger]
                eval_oracle_ok::<M, P>(v, orc) && c0.submap_of(orc) && 2 * size <= isize::MAX
                    ==> value == best_of::<M, P>(v, c, i as nat, size).0 && best_move
                    == c[best_of::<M, P>(v, c, i as nat, size).1] && cache@.submap_of(orc),
        decreases moves@.len() - i,
    {
        let m = moves[i];
        let ghost c1 = cache@;
        let ghost value1 = value;
        let ghost best1 = best_move;
        proof {
            assert(P::legal_in(v, c[i as int]));
            P::lemma_played(v, m);
        }
        let outcome = pos.make_move(m);
        let ghost next = pos@;
        let (next_val, _) = eval_cache(pos, cache, Ghost(P::moves_in(next).len()));
        let sub_val = if outcome.coins_captured > 0 {
            (outcome.coins_captured as isize).wrapping_add(next_val)
        } else {
            (0 as isize).wrapping_sub(next_val)
        };
        pos.undo_move(m);
        assert(c[i as int] == m);
        if sub_val > value {
            value = sub_val;
            best_move = m;
        }
        proof {
            assert forall|orc: Map<usize, (isize, M)>| #[trigger]
                eval_oracle_ok::<M, P>(v, orc) && c0.submap_of(orc) && 2 * size
                    <= isize::MAX implies value == best_of::<M, P>(v, c, (i + 1) as nat, size).0
                && best_move == c[best_of::<M, P>(v, c, (i + 1) as nat, size).1]
                && cache@.submap_of(orc) by {
                lemma_child_oracle::<M, P>(v, c.len(), orc, size, i as int);
                assert(c1.submap_of(orc));
                lemma_score_bound::<M, P>(next, P::moves_in(next).len());
                lemma_best_bound::<M, P>(v, i as nat, size);
                assert(next_val == score::<M, P>(next)) by {
                    if considered::<M, P>(next).len() == 0 {
                    }
                }
            }
        }
        i += 1;
    }
    let hash = pos.zhash();
    cache.insert(hash, (value, best_move));
    proof {
        assert forall|orc: Map<usize, (isize, M)>| #[trigger]
            eval_oracle_ok::<M, P>(v, orc) && c0.submap_of(orc) && 2 * size
                <= isize::MAX implies value == outcome_of::<M, P>(v).0 && Some(best_move)
            == outcome_of::<M, P>(v).1 && cache@.submap_of(orc) by {}
    }
    (value, Some(best_move))
}

fn eval_cache<M: Copy, P: EvaluablePosition<M>>(
    pos: &mut P,
    cache: &mut HashMap<usize, (isize, M)>,
    Ghost(size): Ghost<nat>,
) -> (result: (isize, Option<M>))
    requires
        old(pos).wf(),
        size == P::moves_in(old(pos)@).len(),
    ensures
        final(pos).wf(),
        final(pos)@ == old(pos)@,
        evaluated::<M, P>(old(pos)@, old(cache)@, final(cache)@, result),
        !old(cache)@.contains_key(P::hash_in(old(pos)@)) ==> (result.1 is None <==> considered::<
            M,
            P,
        >(old(pos)@).len() == 0),
        !old(cache)@.contains_key(P::hash_in(old(pos)@)) && result.1 is Some ==> considered::<
            M,
            P,
        >(old(pos)@).contains(result.1->0),
    decreases size, 1nat,
{
    broadcast use vstd::std_specs::hash::group_hash_axioms;

    let hash = pos.zhash();
    match cache.get(&hash) {
        Some(entry) => {
            return (entry.0, Some(entry.1));
        },
        None => {},
    }
    let moves = moves_to_consider(pos);
    eval_moves(pos, &moves, cache, Ghost(size))
}

/// What `eval` finds for `v`: no move exactly where the game is over, else
/// one of the moves that deserve a look, which is legal; and,
/// where `orc` is an oracle for `v` and twice the number of legal moves
/// fits an `isize`, the score of `v` and its best move.
pub open spec fn eval_found<M: Copy, P: EvaluablePosition<M>>(v: P::V, result: (isize, Option<M>))
    -> bool {
    &&& result.1 is None <==> P::finished(v)
    &&& result.1 is Some ==> considered::<M, P>(v).contains(result.1->0) && P::legal_in(
        v,
        result.1->0,
    )
    &&& forall|orc: Map<usize, (isize, M)>| #[trigger]
        eval_oracle_ok::<M, P>(v, orc) && 2 * P::moves_in(v).len() <= isize::MAX ==> result.0
            == score::<M, P>(v) && result.1 == outcome_of::<M, P>(v).1
}

/// The score of a position for the player to move, and a move that secures
/// it; no move where the game is over.
pub fn eval<M: Copy, P: EvaluablePosition<M>>(pos: &P) -> (result: (isize, Option<M>))
    requires
        pos.wf(),
    ensures
        eval_found::<M, P>(pos@, result),
{
    let mut cache: HashMap<usize, (isize, M)> = HashMap::new();
    let mut pos = pos.duplicate();
    let ghost size = P::moves_in(pos@).len();
    proof {
        pos.lemma_view_wf();
        P::lemma_moves(pos@);
        lemma_considered::<M, P>(pos@);
    }
    eval_cache(&mut pos, &mut cache, Ghost(size))
}

} // verus!
