//! Laws that hold of every position, value and set, proved once and for all.

use crate::board::{opposite_side, Move, Side};
use crate::eval::{
    best_of, considered, lemma_considered, lemma_score_bound, outcome_of, score, score_within,
    secures, EvaluablePosition,
};
use crate::model::{lemma_cut, lemma_finished, lemma_same_edge, lemma_tracks, SimpleView};
use crate::nimstring::{
    first_capture, is_mex, lemma_mex_unique, mex_of, nim_add, nim_value, options, parts_value,
    NimstringPosition, Value,
};
use crate::position::Position;
use crate::simple::SimplePosition;
use vstd::prelude::*;

verus! {

/// Taking back a legal move that was just made restores the position, hash
/// included.
pub proof fn law_make_undo<M: Copy, P: Position<M>>(v: P::V, m: M)
    requires
        P::view_wf(v),
        P::legal_in(v, m),
    ensures
        P::cut_in(P::played(v, m), m),
        P::unplayed(P::played(v, m), m) == v,
{
    P::lemma_played(v, m);
}

/// The position after the first `n` of the moves `ms`.
pub open spec fn trail<M: Copy, P: Position<M>>(v: P::V, ms: Seq<M>, n: nat) -> P::V
    decreases n,
{
    if n == 0 {
        v
    } else {
        P::played(trail::<M, P>(v, ms, (n - 1) as nat), ms[n - 1])
    }
}

/// Each move of `ms` is legal where it is made.
pub open spec fn playable<M: Copy, P: Position<M>>(v: P::V, ms: Seq<M>) -> bool {
    forall|n: int| 0 <= n < ms.len() ==> P::legal_in(trail::<M, P>(v, ms, n as nat), #[trigger] ms[n])
}

/// Taking the moves of a play-out back in reverse leads through the same
/// positions, and so through the same hashes, in reverse.
pub proof fn law_trail_back<M: Copy, P: Position<M>>(v: P::V, ms: Seq<M>, n: nat)
    requires
        P::view_wf(v),
        playable::<M, P>(v, ms),
        n < ms.len(),
    ensures
        P::view_wf(trail::<M, P>(v, ms, n)),
        P::unplayed(trail::<M, P>(v, ms, n + 1), ms[n as int]) == trail::<M, P>(v, ms, n),
        P::hash_in(P::unplayed(trail::<M, P>(v, ms, n + 1), ms[n as int])) == P::hash_in(
            trail::<M, P>(v, ms, n),
        ),
    decreases n,
{
    if n > 0 {
        law_trail_back::<M, P>(v, ms, (n - 1) as nat);
        assert(P::legal_in(trail::<M, P>(v, ms, (n - 1) as nat), ms[n - 1]));
        P::lemma_played(trail::<M, P>(v, ms, (n - 1) as nat), ms[n - 1]);
    }
    assert(P::legal_in(trail::<M, P>(v, ms, n), ms[n as int]));
    P::lemma_played(trail::<M, P>(v, ms, n), ms[n as int]);
}

/// The hash does not depend on the order in which two edges are cut.
pub proof fn law_hash_commutes(v: SimpleView, a: Move, b: Move)
    requires
        v.wf(),
        v.legal(a),
        v.cut(a).legal(b),
    ensures
        v.cut(a).cut(b).hash == v.cut(b).cut(a).hash,
{
    lemma_cut(v, a);
    lemma_cut(v, b);
    let h = v.hash;
    let ka = v.key(a);
    let kb = v.key(b);
    assert(v.cut(a).key(b) == kb);
    assert(v.cut(b).key(a) == ka);
    assert((h ^ ka) ^ kb == (h ^ kb) ^ ka) by (bit_vector);
}

/// Two boards are equal under `==` exactly when they have the same size
/// and the same legal moves.
pub proof fn law_equal_boards(a: SimpleView, b: SimpleView)
    requires
        a.wf(),
        b.wf(),
    ensures
        a.same_edges(b) <==> (a.width() == b.width() && a.height() == b.height() && forall|
            m: Move,
        |
            a.legal(m) == b.legal(m)),
{
    if a.width() == b.width() && a.height() == b.height() && forall|m: Move|
        a.legal(m) == b.legal(m) {
        assert forall|x: int| 0 <= x < a.width() implies a.top[x] == b.top[x] by {
            let m = Move { x: x as usize, y: 0, side: Side::Top };
            assert(a.legal(m) == b.legal(m));
        }
        assert forall|y: int| 0 <= y < a.height() implies a.left[y] == b.left[y] by {
            let m = Move { x: 0, y: y as usize, side: Side::Left };
            assert(a.legal(m) == b.legal(m));
        }
        assert forall|x: int, y: int| 0 <= x < a.width() && 0 <= y < a.height() implies a.down[x][y]
            == b.down[x][y] && a.right[x][y] == b.right[x][y] by {
            let d = Move { x: x as usize, y: y as usize, side: Side::Bottom };
            let r = Move { x: x as usize, y: y as usize, side: Side::Right };
            assert(a.legal(d) == b.legal(d));
            assert(a.legal(r) == b.legal(r));
        }
        assert(a.top =~= b.top);
        assert(a.left =~= b.left);
        assert(a.down =~~= b.down);
        assert(a.right =~~= b.right);
    }
}

/// The opposite of the opposite of a side is the side itself, and no side
/// is its own opposite.
pub proof fn law_opposite_involution(s: Side)
    ensures
        opposite_side(opposite_side(s)) == s,
        opposite_side(s) != s,
{
}

/// The hash of a position that came from a new game by making and taking
/// back moves is the starting value folded with the keys of the cut edges.
pub proof fn law_hash_tracks_cuts(v: SimpleView, m: Move)
    requires
        v.wf(),
        v.on_board(m.x, m.y),
        v.tracks(),
    ensures
        v.legal(m) ==> v.cut(m).tracks(),
        !v.legal(m) ==> v.uncut(m).tracks(),
{
    lemma_tracks(v, m);
}

/// 1 if square `(x, y)` is captured, else 0.
pub open spec fn taken(v: SimpleView, x: usize, y: usize) -> nat {
    if v.captured(x, y) {
        1
    } else {
        0
    }
}

/// What a legal move is foretold to capture is what it captures: the
/// squares at its edge that are captured once the edge is cut. Neither of
/// them was captured before.
pub proof fn law_captures(v: SimpleView, m: Move)
    requires
        v.wf(),
        v.legal(m),
    ensures
        !v.captured(m.x, m.y),
        v.capture_count(m) == taken(v.cut(m), m.x, m.y) + match v.neighbour(m.x, m.y, m.side) {
            Some((nx, ny)) => taken(v.cut(m), nx, ny),
            None => 0,
        },
        match v.neighbour(m.x, m.y, m.side) {
            Some((nx, ny)) => !v.captured(nx, ny),
            None => true,
        },
        v.capture_count(m) <= 2,
{
    lemma_cut(v, m);
    let c = v.cut(m);
    crate::model::lemma_captured_valency(v, m.x, m.y);
    crate::model::lemma_captured_valency(c, m.x, m.y);
    match v.neighbour(m.x, m.y, m.side) {
        Some((nx, ny)) => {
            crate::model::lemma_captured_valency(v, nx, ny);
            crate::model::lemma_captured_valency(c, nx, ny);
        },
        None => {},
    }
}

/// The game is over exactly when there is no legal move.
pub proof fn law_end_of_game<M: Copy, P: Position<M>>(v: P::V)
    requires
        P::view_wf(v),
    ensures
        P::finished(v) <==> P::moves_in(v).len() == 0,
{
    P::lemma_moves(v);
}

/// On a board the game is over exactly when no move is enumerated, and
/// exactly when every square is captured.
pub proof fn law_end_of_game_captured(v: SimpleView)
    requires
        v.wf(),
    ensures
        v.finished() <==> v.moves().len() == 0,
        v.finished() <==> forall|x: usize, y: usize| v.captured(x, y),
{
    lemma_finished(v);
}

/// Naming the same edge is an equivalence on the legal moves of a board.
pub proof fn law_same_edge_equivalence(v: SimpleView, a: Move, b: Move, c: Move)
    requires
        v.wf(),
        v.legal(a),
        v.legal(b),
        v.legal(c),
    ensures
        v.same_edge(a, a),
        v.same_edge(a, b) ==> v.same_edge(b, a),
        v.same_edge(a, b) && v.same_edge(b, c) ==> v.same_edge(a, c),
{
    lemma_same_edge(v, a, b);
    lemma_same_edge(v, b, a);
    lemma_same_edge(v, b, c);
    lemma_same_edge(v, a, c);
}

/// Values form a commutative monoid: the loony value absorbs, nimbers add
/// by XOR, the nimber 0 is neutral, and sums may be regrouped and swapped.
pub proof fn law_value_monoid(x: Value, y: Value, z: Value, a: usize, b: usize)
    ensures
        nim_add(Value::Loony, x) == Value::Loony,
        nim_add(x, Value::Loony) == Value::Loony,
        nim_add(Value::Nimber(a), Value::Nimber(b)) == Value::Nimber(a ^ b),
        nim_add(Value::Nimber(0), x) == x,
        nim_add(x, y) == nim_add(y, x),
        nim_add(nim_add(x, y), z) == nim_add(x, nim_add(y, z)),
{
    match x {
        Value::Nimber(p) => {
            assert(0usize ^ p == p) by (bit_vector);
            match y {
                Value::Nimber(q) => {
                    assert(p ^ q == q ^ p) by (bit_vector);
                    match z {
                        Value::Nimber(r) => {
                            assert((p ^ q) ^ r == p ^ (q ^ r)) by (bit_vector);
                        },
                        Value::Loony => {},
                    }
                },
                Value::Loony => {},
            }
        },
        Value::Loony => {},
    }
}

/// A finite set with at most `usize::MAX` elements that holds every number
/// below `k` has a minimal excludant.
proof fn lemma_mex_from(s: Set<usize>, k: usize) -> (m: usize)
    requires
        s.finite(),
        s.len() <= usize::MAX,
        forall|j: usize| j < k ==> s.contains(j),
    ensures
        is_mex(s, m),
    decreases usize::MAX - k,
{
    if !s.contains(k) {
        k
    } else if k == usize::MAX {
        assert forall|j: usize| j < usize::MAX implies s.remove(usize::MAX).contains(j) by {}
        crate::nimstring::lemma_initial_segment(s.remove(usize::MAX), usize::MAX);
        assert(s.remove(usize::MAX).len() + 1 == s.len());
        k
    } else {
        lemma_mex_from(s, (k + 1) as usize)
    }
}

/// The minimal excludant: that of the empty set is 0; that of a finite set
/// that leaves a number out is not in the set, and every smaller number is
/// in the set.
pub proof fn law_mex(s: Set<usize>)
    requires
        s.finite(),
        s.len() <= usize::MAX,
    ensures
        mex_of(Set::<usize>::empty()) == 0,
        !s.contains(mex_of(s)),
        forall|k: usize| k < mex_of(s) ==> s.contains(k),
{
    let m = lemma_mex_from(s, 0);
    let e = Set::<usize>::empty();
    assert(is_mex(e, 0));
    lemma_mex_unique(e, 0, mex_of(e));
}

/// Where a position without capture that is not loony falls into several
/// parts, its value is the sum of the values of its parts.
pub proof fn law_split_sum<M: Copy, P: NimstringPosition<M>>(v: P::V)
    requires
        !P::loony(v),
        first_capture::<M, P>(v, P::moves_in(v), 0) is None,
        P::parts_of(v).len() > 1,
    ensures
        nim_value::<M, P>(v) == parts_value(
            P::parts_of(v),
            P::parts_of(v).len(),
            P::moves_in(v).len(),
        ),
        parts_value(P::parts_of(v), 0, P::moves_in(v).len()) == Value::Nimber(0),
        forall|n: nat|
            0 < n <= P::parts_of(v).len() && P::parts_of(v)[n - 1].moves().len() < P::moves_in(
                v,
            ).len() ==> #[trigger] parts_value(P::parts_of(v), n, P::moves_in(v).len()) == nim_add(
                parts_value(P::parts_of(v), (n - 1) as nat, P::moves_in(v).len()),
                nim_value::<Move, SimplePosition>(P::parts_of(v)[n - 1]),
            ),
{
}

/// The best of the first `n` moves secures what its own move secures.
#[verifier::rlimit(40)]
proof fn lemma_best_is_move<M: Copy, P: EvaluablePosition<M>>(v: P::V, n: nat)
    requires
        P::view_wf(v),
        2 * P::moves_in(v).len() <= isize::MAX,
        0 < n <= considered::<M, P>(v).len(),
    ensures
        ({
            let c = considered::<M, P>(v);
            let b = best_of::<M, P>(v, c, n, P::moves_in(v).len());
            0 <= b.1 < n && P::legal_in(v, c[b.1]) && b.0 == secures::<M, P>(
                v,
                c[b.1],
                score::<M, P>(P::played(v, c[b.1])),
            )
        }),
    decreases n,
{
    let c = considered::<M, P>(v);
    let size = P::moves_in(v).len();
    lemma_considered::<M, P>(v);
    let m = c[n - 1];
    assert(P::legal_in(v, m));
    P::lemma_played(v, m);
    let next = P::played(v, m);
    lemma_score_bound::<M, P>(next, P::moves_in(next).len());
    let sub = secures::<M, P>(v, m, score_within::<M, P>(next, P::moves_in(next).len()));
    assert(-2 * size <= sub <= 2 * size);
    let prev = best_of::<M, P>(v, c, (n - 1) as nat, size);
    assert(best_of::<M, P>(v, c, n, size) == if sub > prev.0 {
        (sub, n - 1)
    } else {
        prev
    });
    if n > 1 {
        lemma_best_is_move::<M, P>(v, (n - 1) as nat);
    } else {
        assert(prev == (isize::MIN as int, 0int));
    }
}

/// The move that the evaluator names secures the score that it names: the
/// squares that the move captures and the score of the position after it
/// where the move captures, the negated score of that position where it
/// does not.
pub proof fn law_best_move<M: Copy, P: EvaluablePosition<M>>(v: P::V)
    requires
        P::view_wf(v),
        !P::finished(v),
        2 * P::moves_in(v).len() <= isize::MAX,
    ensures
        outcome_of::<M, P>(v).1 is Some,
        P::legal_in(v, outcome_of::<M, P>(v).1->0),
        score::<M, P>(v) == outcome_of::<M, P>(v).0,
        score::<M, P>(v) == secures::<M, P>(
            v,
            outcome_of::<M, P>(v).1->0,
            score::<M, P>(P::played(v, outcome_of::<M, P>(v).1->0)),
        ),
{
    P::lemma_moves(v);
    lemma_considered::<M, P>(v);
    lemma_best_is_move::<M, P>(v, considered::<M, P>(v).len());
}

/// The first capture is one of the enumerated moves, and captures.
proof fn lemma_first_capture_move<M: Copy, P: Position<M>>(v: P::V, k: nat) -> (i: int)
    requires
        first_capture::<M, P>(v, P::moves_in(v), k) is Some,
    ensures
        k <= i < P::moves_in(v).len(),
        P::moves_in(v)[i] == first_capture::<M, P>(v, P::moves_in(v), k)->0,
        P::capture_in(v, P::moves_in(v)[i]) > 0,
    decreases P::moves_in(v).len() - k,
{
    if P::capture_in(v, P::moves_in(v)[k as int]) > 0 {
        k as int
    } else {
        lemma_first_capture_move::<M, P>(v, k + 1)
    }
}

/// A loony position has the loony value. Where a position that is not
/// loony has a capture, its value is that of the position after the first
/// capture.
pub proof fn law_value_capture<M: Copy, P: NimstringPosition<M>>(v: P::V)
    requires
        P::view_wf(v),
    ensures
        P::loony(v) ==> nim_value::<M, P>(v) == Value::Loony,
        !P::loony(v) && first_capture::<M, P>(v, P::moves_in(v), 0) is Some ==> P::legal_in(
            v,
            first_capture::<M, P>(v, P::moves_in(v), 0)->0,
        ) && nim_value::<M, P>(v) == nim_value::<M, P>(
            P::played(v, first_capture::<M, P>(v, P::moves_in(v), 0)->0),
        ),
{
    if !P::loony(v) && first_capture::<M, P>(v, P::moves_in(v), 0) is Some {
        let i = lemma_first_capture_move::<M, P>(v, 0);
        P::lemma_moves(v);
        assert(P::legal_in(v, P::moves_in(v)[i]));
        P::lemma_played(v, P::moves_in(v)[i]);
    }
}

/// The nimbers among the values of the positions after the first `n` moves.
pub open spec fn nimbers_after<M: Copy, P: NimstringPosition<M>>(v: P::V, n: nat) -> Set<usize> {
    Set::new(
        |k: usize|
            exists|i: int|
                0 <= i < n && nim_value::<M, P>(P::played(v, #[trigger] P::moves_in(v)[i]))
                    == Value::Nimber(k),
    )
}

/// What the solver collects from the first `n` moves are the nimbers among
/// the values of the positions after them.
#[verifier::rlimit(40)]
proof fn lemma_options<M: Copy, P: NimstringPosition<M>>(v: P::V, n: nat)
    requires
        P::view_wf(v),
        n <= P::moves_in(v).len(),
    ensures
        options::<M, P>(v, n, P::moves_in(v).len()) == nimbers_after::<M, P>(v, n),
    decreases n,
{
    let size = P::moves_in(v).len();
    if n > 0 {
        lemma_options::<M, P>(v, (n - 1) as nat);
        P::lemma_moves(v);
        let m = P::moves_in(v)[n - 1];
        assert(P::legal_in(v, m));
        P::lemma_played(v, m);
        let found = options::<M, P>(v, n, size);
        let goal = nimbers_after::<M, P>(v, n);
        let before = nimbers_after::<M, P>(v, (n - 1) as nat);
        assert forall|k: usize| found.contains(k) <==> goal.contains(k) by {
            if goal.contains(k) {
                let i = choose|i: int|
                    0 <= i < n && nim_value::<M, P>(P::played(v, #[trigger] P::moves_in(v)[i]))
                        == Value::Nimber(k);
                if i < n - 1 {
                    assert(before.contains(k));
                }
            }
            if before.contains(k) {
                let i = choose|i: int|
                    0 <= i < n - 1 && nim_value::<M, P>(
                        P::played(v, #[trigger] P::moves_in(v)[i]),
                    ) == Value::Nimber(k);
                assert(0 <= i < n);
            }
            if nim_value::<M, P>(P::played(v, m)) == Value::Nimber(k) {
                assert(P::moves_in(v)[n - 1] == m);
            }
        }
        assert(found =~= goal);
    } else {
        assert(options::<M, P>(v, 0, size) =~= nimbers_after::<M, P>(v, 0));
    }
}

/// Where a position without capture that is not loony does not fall into
/// several parts, its value is the nimber of the least number that is not
/// the nimber of a position one move away.
pub proof fn law_value_mex<M: Copy, P: NimstringPosition<M>>(v: P::V)
    requires
        P::view_wf(v),
        !P::loony(v),
        first_capture::<M, P>(v, P::moves_in(v), 0) is None,
        P::parts_of(v).len() <= 1,
    ensures
        nim_value::<M, P>(v) == Value::Nimber(
            mex_of(nimbers_after::<M, P>(v, P::moves_in(v).len())),
        ),
{
    lemma_options::<M, P>(v, P::moves_in(v).len());
}

/// The best of the first `n` moves secures no less than any of them.
proof fn lemma_best_is_most<M: Copy, P: EvaluablePosition<M>>(v: P::V, n: nat, i: int)
    requires
        P::view_wf(v),
        0 <= i < n <= considered::<M, P>(v).len(),
    ensures
        best_of::<M, P>(v, considered::<M, P>(v), n, P::moves_in(v).len()).0 >= secures::<M, P>(
            v,
            considered::<M, P>(v)[i],
            score::<M, P>(P::played(v, considered::<M, P>(v)[i])),
        ),
    decreases n,
{
    let c = considered::<M, P>(v);
    lemma_considered::<M, P>(v);
    let m = c[n - 1];
    assert(P::legal_in(v, m));
    P::lemma_played(v, m);
    if i < n - 1 {
        lemma_best_is_most::<M, P>(v, (n - 1) as nat, i);
    }
}

/// The score of a position is the most that any of the moves that deserve
/// a look secures.
pub proof fn law_score_is_most<M: Copy, P: EvaluablePosition<M>>(v: P::V, i: int)
    requires
        P::view_wf(v),
        0 <= i < considered::<M, P>(v).len(),
    ensures
        P::legal_in(v, considered::<M, P>(v)[i]),
        score::<M, P>(v) >= secures::<M, P>(
            v,
            considered::<M, P>(v)[i],
            score::<M, P>(P::played(v, considered::<M, P>(v)[i])),
        ),
{
    lemma_considered::<M, P>(v);
    lemma_best_is_most::<M, P>(v, considered::<M, P>(v).len(), i);
}

} // verus!
