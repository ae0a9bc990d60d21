//! Nimstring values: nimbers and the loony value, the minimal excludant,
//! looniness of a position, and the solver.

use crate::board::{
    all_sides, lemma_all_except, opposite_side, other_sides, CPosMove, Move, Side,
};
use crate::compound::CompoundPosition;
use crate::model::SimpleView;
use crate::position::Position;
use crate::simple::SimplePosition;
use crate::splitter::SplittablePosition;
use std::collections::HashMap;
use std::collections::HashSet;
use vstd::prelude::*;
use vstd::std_specs::ops::AddSpecImpl;

verus! {

/// The Nimstring value of a position: a nimber, or loony.
#[derive(Clone, Copy, Debug, PartialEq, Eq, Structural)]
pub enum Value {
    Nimber(usize),
    Loony,
}

/// The sum of two values: loony absorbs, nimbers add by XOR.
pub open spec fn nim_add(a: Value, b: Value) -> Value {
    match (a, b) {
        (Value::Loony, _) => Value::Loony,
        (_, Value::Loony) => Value::Loony,
        (Value::Nimber(x), Value::Nimber(y)) => Value::Nimber(x ^ y),
    }
}

impl core::ops::Add for Value {
    type Output = Value;

    fn add(self, other: Value) -> (sum: Value) {
        match (self, other) {
            (Value::Loony, _) => Value::Loony,
            (_, Value::Loony) => Value::Loony,
            (Value::Nimber(x), Value::Nimber(y)) => Value::Nimber(x ^ y),
        }
    }
}

impl AddSpecImpl for Value {
    open spec fn obeys_add_spec() -> bool {
        true
    }

    open spec fn add_req(self, other: Value) -> bool {
        true
    }

    open spec fn add_spec(self, other: Value) -> Value {
        nim_add(self, other)
    }
}

/// `m` is the least number that `s` does not hold.
pub open spec fn is_mex(s: Set<usize>, m: usize) -> bool {
    !s.contains(m) && forall|k: usize| k < m ==> s.contains(k)
}

/// The least number that `s` does not hold.
pub open spec fn mex_of(s: Set<usize>) -> usize {
    choose|m: usize| is_mex(s, m)
}

/// A set has at most one minimal excludant.
pub proof fn lemma_mex_unique(s: Set<usize>, a: usize, b: usize)
    requires
        is_mex(s, a),
        is_mex(s, b),
    ensures
        a == b,
{
    if a < b {
        assert(s.contains(a));
    }
    if b < a {
        assert(s.contains(b));
    }
}

/// A finite set that holds every number below `n` has at least `n` elements.
pub proof fn lemma_initial_segment(s: Set<usize>, n: usize)
    requires
        s.finite(),
        forall|k: usize| k < n ==> s.contains(k),
    ensures
        s.len() >= n,
    decreases n,
{
    if n > 0 {
        let last = (n - 1) as usize;
        let rest = s.remove(last);
        assert forall|k: usize| k < last implies rest.contains(k) by {
            assert(s.contains(k));
        }
        lemma_initial_segment(rest, last);
    }
}

/// The minimal excludant of a set.
pub fn mex(s: HashSet<usize>) -> (m: usize)
    requires
        s@.finite(),
    ensures
        is_mex(s@, m),
        m == mex_of(s@),
        !s@.contains(0) ==> m == 0,
{
    broadcast use vstd::std_specs::hash::group_hash_axioms;

    let size = s.len();
    let mut i: usize = 0;
    loop
        invariant
            s@.finite(),
            size == s@.len(),
            forall|k: usize| k < i ==> s@.contains(k),
        ensures
            is_mex(s@, i),
        decreases usize::MAX - i,
    {
        if !s.contains(&i) {
            break ;
        }
        proof {
            if i == usize::MAX {
                assert forall|k: usize| k < usize::MAX implies s@.remove(usize::MAX).contains(
                    k,
                ) by {}
                lemma_initial_segment(s@.remove(usize::MAX), usize::MAX);
            }
        }
        i += 1;
    }
    proof {
        let c = mex_of(s@);
        lemma_mex_unique(s@, i, c);
    }
    i
}

/// The first of `sides`, from place `k` on, across which square `(x, y)`
/// has an uncut edge to another square: that square and the side.
pub open spec fn first_connected(v: SimpleView, x: usize, y: usize, sides: Seq<Side>, k: nat)
    -> Option<(usize, usize, Side)>
    decreases sides.len() - k,
{
    if k >= sides.len() {
        None
    } else if v.legal(Move { x, y, side: sides[k as int] }) && v.neighbour(x, y, sides[k as int])
        is Some {
        let n = v.neighbour(x, y, sides[k as int])->0;
        Some((n.0, n.1, sides[k as int]))
    } else {
        first_connected(v, x, y, sides, k + 1)
    }
}

/// Square `(x, y)` shows that the position is loony: it can be captured,
/// its one uncut edge leads to a square with two uncut edges, and no other
/// uncut edge of that square leads to a square that can be captured.
pub open spec fn loony_at(v: SimpleView, x: usize, y: usize) -> bool {
    v.valency(x, y) == 1 && exists|s: Side| #[trigger]
        v.legal(Move { x, y, side: s }) && loony_across(v, x, y, s)
}

/// The square across side `s` of `(x, y)` has two uncut edges, and none of
/// them but the one to `(x, y)` leads to a square that can be captured.
pub open spec fn loony_across(v: SimpleView, x: usize, y: usize, s: Side) -> bool {
    match v.neighbour(x, y, s) {
        Some((nx, ny)) => v.valency(nx, ny) == 2 && forall|t: Side|
            t != opposite_side(s) && #[trigger] v.legal(Move { x: nx, y: ny, side: t })
                ==> match v.neighbour(nx, ny, t) {
                Some((fx, fy)) => v.valency(fx, fy) != 1,
                None => true,
            },
        None => false,
    }
}

/// Some square of the board shows that the position is loony.
pub open spec fn simple_loony(v: SimpleView) -> bool {
    exists|x: usize, y: usize| v.on_board(x, y) && #[trigger] loony_at(v, x, y)
}

/// If there is a square joined to `(x, y)` by an uncut edge on one of the
/// given sides, the first such, else `None`.
fn connected_coin(pos: &SimplePosition, x: usize, y: usize, sides: Vec<Side>) -> (found: Option<
    (usize, usize, Side),
>)
    requires
        pos.wf(),
    ensures
        found == first_connected(pos@, x, y, sides@, 0),
{
    let mut k: usize = 0;
    while k < sides.len()
        invariant
            k <= sides@.len(),
            pos.wf(),
            first_connected(pos@, x, y, sides@, k as nat) == first_connected(pos@, x, y, sides@, 0),
        decreases sides@.len() - k,
    {
        let s = sides[k];
        if pos.is_legal_move(Move { x: x, y: y, side: s }) {
            if let Some((nx, ny)) = pos.offset(x, y, s) {
                return Some((nx, ny, s));
            }
        }
        k += 1;
    }
    None
}

/// What the scan for a loony square computes at `(x, y)` is `loony_at`.
#[verifier::rlimit(40)]
proof fn lemma_loony_at(v: SimpleView, x: usize, y: usize)
    requires
        v.wf(),
        v.on_board(x, y),
        v.valency(x, y) == 1,
    ensures
        loony_at(v, x, y) == match first_connected(v, x, y, all_sides(), 0) {
            Some((nx, ny, side)) => v.valency(nx, ny) == 2 && match first_connected(
                v,
                nx,
                ny,
                other_sides(opposite_side(side)),
                0,
            ) {
                Some((fx, fy, _)) => v.valency(fx, fy) != 1,
                None => true,
            },
            None => false,
        },
{
    reveal_with_fuel(first_connected, 6);
    let near = first_connected(v, x, y, all_sides(), 0);
    match near {
        Some((nx, ny, side)) => {
            assert(v.legal(Move { x, y, side }) && v.neighbour(x, y, side) == Some((nx, ny)));
            crate::splitter::lemma_edge_symmetry(v, Move { x, y, side }, (nx, ny));
            lemma_all_except(opposite_side(side));
            let far_sides = other_sides(opposite_side(side));
            let far = first_connected(v, nx, ny, far_sides, 0);
            assert forall|s: Side| #[trigger] v.legal(Move { x, y, side: s }) implies s == side by {}
            if v.valency(nx, ny) == 2 {
                match far {
                    Some((fx, fy, t)) => {
                        assert(t != opposite_side(side));
                        assert(v.legal(Move { x: nx, y: ny, side: t }));
                        assert(v.neighbour(nx, ny, t) == Some((fx, fy)));
                        assert forall|u: Side|
                            u != opposite_side(side) && #[trigger] v.legal(
                                Move { x: nx, y: ny, side: u },
                            ) implies u == t by {}
                    },
                    None => {
                        assert forall|u: Side|
                            u != opposite_side(side) && #[trigger] v.legal(
                                Move { x: nx, y: ny, side: u },
                            ) implies v.neighbour(nx, ny, u) is None by {}
                    },
                }
            }
            assert(loony_at(v, x, y) == loony_across(v, x, y, side));
        },
        None => {
            assert forall|s: Side| #[trigger] v.legal(Move { x, y, side: s }) implies !loony_across(
                v,
                x,
                y,
                s,
            ) by {}
        },
    }
}

/// A position for the Nimstring solver.
pub trait NimstringPosition<M: Copy>: SplittablePosition<M> {
    /// The position is loony.
    spec fn loony(v: Self::V) -> bool;

    /// Whether the position is loony.
    fn is_loony(&self) -> (loony: bool)
        requires
            self.wf(),
        ensures
            loony == Self::loony(self@),
    ;
}

impl NimstringPosition<Move> for SimplePosition {
    open spec fn loony(v: SimpleView) -> bool {
        simple_loony(v)
    }

    #[verifier::rlimit(40)]
    fn is_loony(&self) -> (loony: bool) {
        let ghost v = self@;
        let w = self.width();
        let h = self.height();
        let mut x: usize = 0;
        while x < w
            invariant
                x <= w,
                self.wf(),
                v == self@,
                w == v.width(),
                h == v.height(),
                forall|a: usize, b: usize| a < x && b < h ==> !#[trigger] loony_at(v, a, b),
            decreases w - x,
        {
            let mut y: usize = 0;
            while y < h
                invariant
                    y <= h,
                    x < w,
                    self.wf(),
                    v == self@,
                    w == v.width(),
                    h == v.height(),
                    forall|a: usize, b: usize| a < x && b < h ==> !#[trigger] loony_at(v, a, b),
                    forall|b: usize| b < y ==> !#[trigger] loony_at(v, x, b),
                decreases h - y,
            {
                if self.valency(x, y) == 1 {
                    proof {
                        lemma_loony_at(v, x, y);
                    }
                    if let Some((neighbour_x, neighbour_y, side)) = connected_coin(
                        self,
                        x,
                        y,
                        Side::all(),
                    ) {
                        if self.valency(neighbour_x, neighbour_y) == 2 {
                            // A capturable coin is attached to a coin of valency 2. The
                            // position is loony unless a capturable coin is on the other
                            // side of that one.
                            let far_sides = Side::all_except(side.opposite());
                            let mut disqualified = false;
                            if let Some((far_x, far_y, _)) = connected_coin(
                                self,
                                neighbour_x,
                                neighbour_y,
                                far_sides,
                            ) {
                                if self.valency(far_x, far_y) == 1 {
                                    disqualified = true;
                                }
                            }
                            if !disqualified {
                                assert(loony_at(v, x, y));
                                return true;
                            }
                        }
                    }
                }
                y += 1;
            }
            x += 1;
        }
        assert forall|a: usize, b: usize| v.on_board(a, b) implies !#[trigger] loony_at(v, a, b) by {}
        false
    }
}

/// Some part of the compound is loony.
pub open spec fn compound_loony(v: Seq<SimpleView>) -> bool {
    exists|i: int| 0 <= i < v.len() && simple_loony(#[trigger] v[i])
}

impl NimstringPosition<CPosMove> for CompoundPosition {
    open spec fn loony(v: Seq<SimpleView>) -> bool {
        compound_loony(v)
    }

    fn is_loony(&self) -> (loony: bool) {
        let n = self.part_count();
        let mut i: usize = 0;
        while i < n
            invariant
                i <= n,
                n == self@.len(),
                self.wf(),
                forall|j: int| 0 <= j < i ==> !simple_loony(#[trigger] self@[j]),
            decreases n - i,
        {
            if self.part(i).is_loony() {
                return true;
            }
            i += 1;
        }
        false
    }
}

/// Whether the position after the legal move `m` is loony. The position is
/// left as it was. A move is loony when this holds and the move captures
/// nothing; a capture is never a loony move, though this may hold of it.
pub fn would_be_loony<M: Copy, P: NimstringPosition<M>>(pos: &mut P, m: M) -> (loony: bool)
    requires
        old(pos).wf(),
        P::legal_in(old(pos)@, m),
    ensures
        final(pos).wf(),
        final(pos)@ == old(pos)@,
        loony == P::loony(P::played(old(pos)@, m)),
{
    proof {
        pos.lemma_view_wf();
        P::lemma_played(pos@, m);
    }
    pos.make_move(m);
    let result = pos.is_loony();
    pos.undo_move(m);
    result
}

/// The first of `moves`, from place `k` on, that captures a square.
pub open spec fn first_capture<M: Copy, P: Position<M>>(v: P::V, moves: Seq<M>, k: nat) -> Option<M>
    decreases moves.len() - k,
{
    if k >= moves.len() {
        None
    } else if P::capture_in(v, moves[k as int]) > 0 {
        Some(moves[k as int])
    } else {
        first_capture::<M, P>(v, moves, k + 1)
    }
}

/// The Nimstring value of a position. A loony position has the loony
/// value. Where a move captures, the value is that of the position after
/// the first such move. Where the position falls into several parts, the
/// value is the sum of the values of the parts. Otherwise it is the nimber
/// of the least number that is not the nimber of a position one move away.
pub open spec fn nim_value<M: Copy, P: NimstringPosition<M>>(v: P::V) -> Value {
    value_within::<M, P>(v, P::moves_in(v).len())
}

/// `nim_value` of a position with `size` legal moves.
pub open spec fn value_within<M: Copy, P: NimstringPosition<M>>(v: P::V, size: nat) -> Value
    decreases size, 2nat, 0nat,
{
    if P::loony(v) {
        Value::Loony
    } else {
        match first_capture::<M, P>(v, P::moves_in(v), 0) {
            Some(m) => if P::moves_in(P::played(v, m)).len() < size {
                value_within::<M, P>(P::played(v, m), P::moves_in(P::played(v, m)).len())
            } else {
                Value::Nimber(0)
            },
            None => if P::parts_of(v).len() > 1 {
                parts_value(P::parts_of(v), P::parts_of(v).len(), size)
            } else {
                Value::Nimber(mex_of(options::<M, P>(v, P::moves_in(v).len(), size)))
            },
        }
    }
}

/// The sum of the values of the first `n` of `parts`, each of which has
/// fewer than `bound` legal moves.
pub open spec fn parts_value(parts: Seq<SimpleView>, n: nat, bound: nat) -> Value
    decreases bound, 1nat, n,
{
    if n == 0 {
        Value::Nimber(0)
    } else {
        nim_add(
            parts_value(parts, (n - 1) as nat, bound),
            if parts[n - 1].moves().len() < bound {
                value_within::<Move, SimplePosition>(parts[n - 1], parts[n - 1].moves().len())
            } else {
                Value::Nimber(0)
            },
        )
    }
}

/// The nimbers of the positions after the first `n` legal moves of a
/// position with `size` legal moves; a loony position among them adds
/// nothing.
pub open spec fn options<M: Copy, P: NimstringPosition<M>>(v: P::V, n: nat, size: nat) -> Set<usize>
    decreases size, 1nat, n,
{
    if n == 0 {
        Set::empty()
    } else {
        let rest = options::<M, P>(v, (n - 1) as nat, size);
        let next = P::played(v, P::moves_in(v)[n - 1]);
        if P::moves_in(next).len() < size {
            match value_within::<M, P>(next, P::moves_in(next).len()) {
                Value::Nimber(k) => rest.insert(k),
                Value::Loony => rest,
            }
        } else {
            rest
        }
    }
}

/// `orc` tells the value of `v` and of every position that the solver
/// looks at on its way to it, each under its hash: on those positions
/// equal hashes go with equal values.
pub open spec fn oracle_ok<M: Copy, P: NimstringPosition<M>>(v: P::V, orc: Map<usize, Value>) -> bool {
    oracle_within::<M, P>(v, orc, P::moves_in(v).len())
}

/// `oracle_ok` of a position with `size` legal moves.
pub open spec fn oracle_within<M: Copy, P: NimstringPosition<M>>(
    v: P::V,
    orc: Map<usize, Value>,
    size: nat,
) -> bool
    decreases size, 2nat, 0nat,
{
    &&& orc.contains_key(P::hash_in(v))
    &&& orc[P::hash_in(v)] == nim_value::<M, P>(v)
    &&& !P::loony(v) ==> match first_capture::<M, P>(v, P::moves_in(v), 0) {
        Some(m) => P::moves_in(P::played(v, m)).len() < size ==> oracle_within::<M, P>(
            P::played(v, m),
            orc,
            P::moves_in(P::played(v, m)).len(),
        ),
        None => if P::parts_of(v).len() > 1 {
            parts_oracle_ok(P::parts_of(v), P::parts_of(v).len(), size, orc)
        } else {
            moves_oracle_ok::<M, P>(v, P::moves_in(v).len(), size, orc)
        },
    }
}

/// `oracle_ok` of the first `n` of `parts`.
pub open spec fn parts_oracle_ok(parts: Seq<SimpleView>, n: nat, bound: nat, orc: Map<usize, Value>)
    -> bool
    decreases bound, 1nat, n,
{
    if n == 0 {
        true
    } else {
        parts_oracle_ok(parts, (n - 1) as nat, bound, orc) && (parts[n - 1].moves().len() < bound
            ==> oracle_within::<Move, SimplePosition>(
            parts[n - 1],
            orc,
            parts[n - 1].moves().len(),
        ))
    }
}

/// `oracle_ok` of the positions after the first `n` legal moves.
pub open spec fn moves_oracle_ok<M: Copy, P: NimstringPosition<M>>(
    v: P::V,
    n: nat,
    size: nat,
    orc: Map<usize, Value>,
) -> bool
    decreases size, 1nat, n,
{
    if n == 0 {
        true
    } else {
        let next = P::played(v, P::moves_in(v)[n - 1]);
        moves_oracle_ok::<M, P>(v, (n - 1) as nat, size, orc) && (P::moves_in(next).len() < size
            ==> oracle_within::<M, P>(next, orc, P::moves_in(next).len()))
    }
}

/// What the parts' oracle condition says of one part.
proof fn lemma_parts_oracle(parts: Seq<SimpleView>, n: nat, bound: nat, orc: Map<usize, Value>, k: int)
    requires
        parts_oracle_ok(parts, n, bound, orc),
        0 <= k < n,
        parts[k].moves().len() < bound,
    ensures
        oracle_ok::<Move, SimplePosition>(parts[k], orc),
    decreases n,
{
    if k < n - 1 {
        lemma_parts_oracle(parts, (n - 1) as nat, bound, orc, k);
    }
}

/// What the moves' oracle condition says of one move.
proof fn lemma_moves_oracle<M: Copy, P: NimstringPosition<M>>(
    v: P::V,
    n: nat,
    size: nat,
    orc: Map<usize, Value>,
    i: int,
)
    requires
        moves_oracle_ok::<M, P>(v, n, size, orc),
        0 <= i < n,
        P::moves_in(P::played(v, P::moves_in(v)[i])).len() < size,
    ensures
        oracle_ok::<M, P>(P::played(v, P::moves_in(v)[i]), orc),
    decreases n,
{
    if i < n - 1 {
        lemma_moves_oracle::<M, P>(v, (n - 1) as nat, size, orc, i);
    }
}

/// The solver's promise. Whenever the cache it was given agrees with an
/// oracle for the position, it returns the position's value, and the cache
/// it leaves behind agrees with that oracle too.
pub open spec fn solved<M: Copy, P: NimstringPosition<M>>(
    v: P::V,
    before: Map<usize, Value>,
    after: Map<usize, Value>,
    value: Value,
) -> bool {
    forall|orc: Map<usize, Value>| #[trigger]
        oracle_ok::<M, P>(v, orc) && before.submap_of(orc) ==> value == nim_value::<M, P>(v)
            && after.submap_of(orc)
}

/// The Nimstring value of a position, by way of a cache from hashes to
/// values that is read and filled on the way. The position is left as it
/// was.
pub fn calc_value<M: Copy, P: NimstringPosition<M>>(
    pos: &mut P,
    cache: &mut HashMap<usize, Value>,
) -> (value: Value)
    requires
        old(pos).wf(),
    ensures
        final(pos).wf(),
        final(pos)@ == old(pos)@,
        solved::<M, P>(old(pos)@, old(cache)@, final(cache)@, value),
        final(cache)@.contains_key(P::hash_in(old(pos)@)),
        old(cache)@.dom().subset_of(final(cache)@.dom()),
        old(cache)@.contains_key(P::hash_in(old(pos)@)) ==> value == old(cache)@[P::hash_in(
            old(pos)@,
        )] && final(cache)@ == old(cache)@,
        !old(cache)@.contains_key(P::hash_in(old(pos)@)) && P::loony(old(pos)@) ==> value
            == Value::Loony && final(cache)@ == old(cache)@.insert(
            P::hash_in(old(pos)@),
            Value::Loony,
        ),
{
    let ghost size = P::moves_in(pos@).len();
    solve(pos, cache, Ghost(size))
}

#[verifier::rlimit(40)]
fn solve<M: Copy, P: NimstringPosition<M>>(
    pos: &mut P,
    cache: &mut HashMap<usize, Value>,
    Ghost(size): Ghost<nat>,
) -> (value: Value)
    requires
        old(pos).wf(),
        size == P::moves_in(old(pos)@).len(),
    ensures
        final(pos).wf(),
        final(pos)@ == old(pos)@,
        solved::<M, P>(old(pos)@, old(cache)@, final(cache)@, value),
        final(cache)@.contains_key(P::hash_in(old(pos)@)),
        old(cache)@.dom().subset_of(final(cache)@.dom()),
        old(cache)@.contains_key(P::hash_in(old(pos)@)) ==> value == old(cache)@[P::hash_in(
            old(pos)@,
        )] && final(cache)@ == old(cache)@,
        !old(cache)@.contains_key(P::hash_in(old(pos)@)) && P::loony(old(pos)@) ==> value
            == Value::Loony && final(cache)@ == old(cache)@.insert(
            P::hash_in(old(pos)@),
            Value::Loony,
        ),
    decreases size,
{
    broadcast use vstd::std_specs::hash::group_hash_axioms;

    let ghost v = pos@;
    let ghost c0 = cache@;
    proof {
        pos.lemma_view_wf();
        P::lemma_moves(v);
    }
    let hash = pos.zhash();
    match cache.get(&hash) {
        Some(known) => {
            return *known;
        },
        None => {},
    }
    if pos.is_loony() {
        cache.insert(hash, Value::Loony);
        return Value::Loony;
    }
    let legal_moves = pos.legal_moves();
    let mut i: usize = 0;
    while i < legal_moves.len()
        invariant
            i <= legal_moves@.len(),
            pos.wf(),
            pos@ == v,
            cache@ == c0,
            v == old(pos)@,
            c0 == old(cache)@,
            !c0.contains_key(hash),
            P::view_wf(v),
            legal_moves@ == P::moves_in(v),
            size == P::moves_in(v).len(),
            hash == P::hash_in(v),
            !P::loony(v),
            forall|j: int|
                0 <= j < P::moves_in(v).len() ==> P::legal_in(v, #[trigger] P::moves_in(v)[j]),
            first_capture::<M, P>(v, P::moves_in(v), i as nat) == first_capture::<M, P>(
                v,
                P::moves_in(v),
                0,
            ),
        decreases legal_moves@.len() - i,
    {
        let m = legal_moves[i];
        proof {
            assert(P::legal_in(v, P::moves_in(v)[i as int]));
            P::lemma_played(v, m);
        }
        if pos.would_capture(m) > 0 {
            pos.make_move(m);
            let ghost next = pos@;
            let result = solve(pos, cache, Ghost(P::moves_in(next).len()));
            let ghost c1 = cache@;
            pos.undo_move(m);
            cache.insert(hash, result);
            proof {
                assert forall|orc: Map<usize, Value>| #[trigger]
                    oracle_ok::<M, P>(v, orc) && c0.submap_of(orc) implies result == nim_value::<
                    M,
                    P,
                >(v) && cache@.submap_of(orc) by {
                    assert(oracle_ok::<M, P>(next, orc));
                }
            }
            return result;
        }
        i += 1;
    }
    assert(first_capture::<M, P>(v, P::moves_in(v), 0) is None);
    let mut parts = pos.split();
    let ghost pv = P::parts_of(v);
    if parts.len() > 1 {
        let mut result = Value::Nimber(0);
        let mut k: usize = 0;
        while k < parts.len()
            invariant
                k <= parts@.len(),
                parts@.len() == pv.len(),
                pv.len() > 1,
                forall|j: int|
                    0 <= j < parts@.len() ==> (#[trigger] parts@[j]).wf() && parts@[j]@ == pv[j],
                forall|j: int| 0 <= j < pv.len() ==> (#[trigger] pv[j]).moves().len() < size,
                c0.dom().subset_of(cache@.dom()),
                forall|orc: Map<usize, Value>| #[trigger]
                    parts_oracle_ok(pv, pv.len(), size, orc) && c0.submap_of(orc) ==> result
                        == parts_value(pv, k as nat, size) && cache@.submap_of(orc),
            decreases parts@.len() - k,
        {
            let ghost c1 = cache@;
            let ghost before = result;
            let part_value = solve::<Move, SimplePosition>(
                &mut parts[k],
                cache,
                Ghost(pv[k as int].moves().len()),
            );
            result = result + part_value;
            proof {
                assert forall|orc: Map<usize, Value>| #[trigger]
                    parts_oracle_ok(pv, pv.len(), size, orc) && c0.submap_of(orc) implies result
                    == parts_value(pv, (k + 1) as nat, size) && cache@.submap_of(orc) by {
                    lemma_parts_oracle(pv, pv.len(), size, orc, k as int);
                    assert(c1.submap_of(orc));
                    assert(oracle_ok::<Move, SimplePosition>(pv[k as int], orc));
                }
            }
            k += 1;
        }
        cache.insert(hash, result);
        proof {
            assert forall|orc: Map<usize, Value>| #[trigger]
                oracle_ok::<M, P>(v, orc) && c0.submap_of(orc) implies result == nim_value::<M, P>(
                v,
            ) && cache@.submap_of(orc) by {
                assert(parts_oracle_ok(pv, pv.len(), size, orc));
            }
        }
        return result;
    }
    let mut options: HashSet<usize> = HashSet::new();
    i = 0;
    while i < legal_moves.len()
        invariant
            i <= legal_moves@.len(),
            pos.wf(),
            pos@ == v,
            P::view_wf(v),
            legal_moves@ == P::moves_in(v),
            size == P::moves_in(v).len(),
            options@.finite(),
            c0.dom().subset_of(cache@.dom()),
            forall|j: int|
                0 <= j < P::moves_in(v).len() ==> P::legal_in(v, #[trigger] P::moves_in(v)[j]),
            forall|orc: Map<usize, Value>| #[trigger]
                moves_oracle_ok::<M, P>(v, size, size, orc) && c0.submap_of(orc) ==> options@
                    == self::options::<M, P>(v, i as nat, size) && cache@.submap_of(orc),
        decreases legal_moves@.len() - i,
    {
        let m = legal_moves[i];
        let ghost c1 = cache@;
        let ghost o1 = options@;
        proof {
            assert(P::legal_in(v, P::moves_in(v)[i as int]));
            P::lemma_played(v, m);
        }
        pos.make_move(m);
        let ghost next = pos@;
        match solve(pos, cache, Ghost(P::moves_in(next).len())) {
            Value::Nimber(n) => {
                options.insert(n);
            },
            Value::Loony => {},
        }
        pos.undo_move(m);
        proof {
            assert forall|orc: Map<usize, Value>| #[trigger]
                moves_oracle_ok::<M, P>(v, size, size, orc) && c0.submap_of(orc) implies options@
                == self::options::<M, P>(v, (i + 1) as nat, size) && cache@.submap_of(orc) by {
                lemma_moves_oracle::<M, P>(v, size, size, orc, i as int);
                assert(c1.submap_of(orc));
                assert(oracle_ok::<M, P>(next, orc));
            }
        }
        i += 1;
    }
    let ghost found = options@;
    let result = Value::Nimber(mex(options));
    cache.insert(hash, result);
    proof {
        assert forall|orc: Map<usize, Value>| #[trigger]
            oracle_ok::<M, P>(v, orc) && c0.submap_of(orc) implies result == nim_value::<M, P>(v)
            && cache@.submap_of(orc) by {
            assert(moves_oracle_ok::<M, P>(v, size, size, orc));
            assert(found == self::options::<M, P>(v, size, size));
        }
    }
    result
}

/// `orc` is an oracle for `v` and for every position one legal move away.
pub open spec fn tree_ok<M: Copy, P: NimstringPosition<M>>(v: P::V, orc: Map<usize, Value>) -> bool {
    oracle_ok::<M, P>(v, orc) && forall|i: int|
        0 <= i < P::moves_in(v).len() ==> oracle_ok::<M, P>(
            P::played(v, #[trigger] P::moves_in(v)[i]),
            orc,
        )
}

/// What `calc_value_with_moves` finds for `v`: one entry for each legal
/// move, in the order of the moves; and, where `orc` is an oracle for `v`
/// and for the positions one move away, the value of `v` and beside each
/// move the value of the position after it.
pub open spec fn values_found<M: Copy, P: NimstringPosition<M>>(
    v: P::V,
    value: Value,
    per_move: Seq<(M, Value)>,
) -> bool {
    &&& per_move.len() == P::moves_in(v).len()
    &&& forall|i: int| 0 <= i < per_move.len() ==> (#[trigger] per_move[i]).0 == P::moves_in(v)[i]
    &&& forall|orc: Map<usize, Value>| #[trigger]
        tree_ok::<M, P>(v, orc) ==> value == nim_value::<M, P>(v) && forall|i: int|
            0 <= i < per_move.len() ==> (#[trigger] per_move[i]).1 == nim_value::<M, P>(
                P::played(v, P::moves_in(v)[i]),
            )
}

/// The Nimstring value of a position, and for each legal move, in the
/// order of `legal_moves`, the value of the position after it.
#[verifier::rlimit(40)]
pub fn calc_value_with_moves<M: Copy, P: NimstringPosition<M>>(pos: &P) -> (result: (
    Value,
    Vec<(M, Value)>,
))
    requires
        pos.wf(),
    ensures
        values_found::<M, P>(pos@, result.0, result.1@),
{
    let ghost v = pos@;
    let mut cache: HashMap<usize, Value> = HashMap::new();
    let mut pos = pos.duplicate();
    let val = calc_value(&mut pos, &mut cache);
    let mut per_move: Vec<(M, Value)> = Vec::new();
    let legal_moves = pos.legal_moves();
    proof {
        pos.lemma_view_wf();
        P::lemma_moves(v);
    }
    let mut i: usize = 0;
    while i < legal_moves.len()
        invariant
            i <= legal_moves@.len(),
            pos.wf(),
            pos@ == v,
            P::view_wf(v),
            legal_moves@ == P::moves_in(v),
            per_move@.len() == i,
            forall|j: int|
                0 <= j < P::moves_in(v).len() ==> P::legal_in(v, #[trigger] P::moves_in(v)[j]),
            forall|j: int| 0 <= j < i ==> (#[trigger] per_move@[j]).0 == P::moves_in(v)[j],
            forall|orc: Map<usize, Value>| #[trigger]
                tree_ok::<M, P>(v, orc) ==> val == nim_value::<M, P>(v) && cache@.submap_of(orc)
                    && forall|j: int|
                    0 <= j < i ==> (#[trigger] per_move@[j]).1 == nim_value::<M, P>(
                        P::played(v, P::moves_in(v)[j]),
                    ),
        decreases legal_moves@.len() - i,
    {
        let m = legal_moves[i];
        let ghost c1 = cache@;
        let ghost before = per_move@;
        proof {
            assert(P::legal_in(v, P::moves_in(v)[i as int]));
            P::lemma_played(v, m);
        }
        pos.make_move(m);
        let ghost next = pos@;
        let after = calc_value(&mut pos, &mut cache);
        per_move.push((m, after));
        pos.undo_move(m);
        proof {
            assert forall|orc: Map<usize, Value>| #[trigger] tree_ok::<M, P>(v, orc) implies val
                == nim_value::<M, P>(v) && cache@.submap_of(orc) && forall|j: int|
                0 <= j < i + 1 ==> (#[trigger] per_move@[j]).1 == nim_value::<M, P>(
                    P::played(v, P::moves_in(v)[j]),
                ) by {
                assert(c1.submap_of(orc));
                assert(oracle_ok::<M, P>(P::played(v, P::moves_in(v)[i as int]), orc));
                assert forall|j: int| 0 <= j < i + 1 implies (#[trigger] per_move@[j]).1
                    == nim_value::<M, P>(P::played(v, P::moves_in(v)[j])) by {
                    if j < i {
                        assert(per_move@[j] == before[j]);
                    }
                }
            }
        }
        i += 1;
    }
    (val, per_move)
}

} // verus!
