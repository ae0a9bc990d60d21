//! Why memoising by hash is sound: where no two positions that the solvers
//! may look at share a hash unless they share what is stored under it, the
//! oracles that the solvers' contracts speak of exist.

use crate::board::Move;
use crate::eval::{
    children_oracle_ok, considered, eval_oracle_ok, eval_oracle_within, lemma_score_bound,
    outcome_of, score, EvaluablePosition,
};
use crate::model::SimpleView;
use crate::nimstring::{
    first_capture, moves_oracle_ok, nim_value, oracle_ok, oracle_within, parts_oracle_ok, tree_ok,
    NimstringPosition, Value,
};
use crate::position::Position;
use crate::simple::SimplePosition;
use vstd::prelude::*;

verus! {

/// With each position, `u` holds the positions one enumerated move away,
/// and `us` holds the parts of each position of `u`.
pub open spec fn closed<M: Copy, P: NimstringPosition<M>>(u: Set<P::V>, us: Set<SimpleView>) -> bool {
    forall|x: P::V| #[trigger]
        u.contains(x) ==> (forall|i: int|
            0 <= i < P::moves_in(x).len() ==> u.contains(
                P::played(x, #[trigger] P::moves_in(x)[i]),
            )) && (forall|k: int|
            0 <= k < P::parts_of(x).len() ==> us.contains(#[trigger] P::parts_of(x)[k]))
}

/// `orc` holds the value of each position of `u` under its hash.
pub open spec fn holds_values<M: Copy, P: NimstringPosition<M>>(
    u: Set<P::V>,
    orc: Map<usize, Value>,
) -> bool {
    forall|x: P::V| #[trigger]
        u.contains(x) ==> orc.contains_key(P::hash_in(x)) && orc[P::hash_in(x)] == nim_value::<M, P>(
            x,
        )
}

/// Positions of `u` and `us` that share a hash share their value.
pub open spec fn collision_free<M: Copy, P: NimstringPosition<M>>(
    u: Set<P::V>,
    us: Set<SimpleView>,
) -> bool {
    &&& forall|a: P::V, b: P::V|
        #![trigger u.contains(a), u.contains(b)]
        u.contains(a) && u.contains(b) && P::hash_in(a) == P::hash_in(b) ==> nim_value::<M, P>(a)
            == nim_value::<M, P>(b)
    &&& forall|a: SimpleView, b: SimpleView|
        #![trigger us.contains(a), us.contains(b)]
        us.contains(a) && us.contains(b) && a.hash == b.hash ==> nim_value::<Move, SimplePosition>(
            a,
        ) == nim_value::<Move, SimplePosition>(b)
    &&& forall|a: P::V, b: SimpleView|
        #![trigger u.contains(a), us.contains(b)]
        u.contains(a) && us.contains(b) && P::hash_in(a) == b.hash ==> nim_value::<M, P>(a)
            == nim_value::<Move, SimplePosition>(b)
}

/// The first capture is one of the moves.
proof fn lemma_first_capture<M: Copy, P: Position<M>>(v: P::V, moves: Seq<M>, k: nat) -> (i: int)
    requires
        first_capture::<M, P>(v, moves, k) is Some,
    ensures
        k <= i < moves.len(),
        moves[i] == first_capture::<M, P>(v, moves, k)->0,
    decreases moves.len() - k,
{
    if P::capture_in(v, moves[k as int]) > 0 {
        k as int
    } else {
        lemma_first_capture::<M, P>(v, moves, k + 1)
    }
}

/// A map that holds the values of closed sets is an oracle for each of
/// their positions.
proof fn lemma_within<M: Copy, P: NimstringPosition<M>>(
    u: Set<P::V>,
    us: Set<SimpleView>,
    orc: Map<usize, Value>,
    x: P::V,
    size: nat,
)
    requires
        closed::<M, P>(u, us),
        closed::<Move, SimplePosition>(us, us),
        holds_values::<M, P>(u, orc),
        holds_values::<Move, SimplePosition>(us, orc),
        u.contains(x),
        size == P::moves_in(x).len(),
    ensures
        oracle_within::<M, P>(x, orc, size),
    decreases size, 2nat, 0nat,
{
    if !P::loony(x) {
        match first_capture::<M, P>(x, P::moves_in(x), 0) {
            Some(m) => {
                let i = lemma_first_capture::<M, P>(x, P::moves_in(x), 0);
                let next = P::played(x, P::moves_in(x)[i]);
                if P::moves_in(next).len() < size {
                    lemma_within::<M, P>(u, us, orc, next, P::moves_in(next).len());
                }
            },
            None => {
                if P::parts_of(x).len() > 1 {
                    lemma_parts(us, orc, P::parts_of(x), P::parts_of(x).len(), size);
                } else {
                    lemma_moves::<M, P>(u, us, orc, x, P::moves_in(x).len(), size);
                }
            },
        }
    }
}

/// `lemma_within` for the first `n` of the parts of a position.
proof fn lemma_parts(
    us: Set<SimpleView>,
    orc: Map<usize, Value>,
    parts: Seq<SimpleView>,
    n: nat,
    bound: nat,
)
    requires
        closed::<Move, SimplePosition>(us, us),
        holds_values::<Move, SimplePosition>(us, orc),
        n <= parts.len(),
        forall|k: int| 0 <= k < parts.len() ==> us.contains(#[trigger] parts[k]),
    ensures
        parts_oracle_ok(parts, n, bound, orc),
    decreases bound, 1nat, n,
{
    if n > 0 {
        lemma_parts(us, orc, parts, (n - 1) as nat, bound);
        let part = parts[n - 1];
        if part.moves().len() < bound {
            lemma_within::<Move, SimplePosition>(us, us, orc, part, part.moves().len());
        }
    }
}

/// `lemma_within` for the positions after the first `n` moves.
proof fn lemma_moves<M: Copy, P: NimstringPosition<M>>(
    u: Set<P::V>,
    us: Set<SimpleView>,
    orc: Map<usize, Value>,
    x: P::V,
    n: nat,
    size: nat,
)
    requires
        closed::<M, P>(u, us),
        closed::<Move, SimplePosition>(us, us),
        holds_values::<M, P>(u, orc),
        holds_values::<Move, SimplePosition>(us, orc),
        u.contains(x),
        n <= P::moves_in(x).len(),
    ensures
        moves_oracle_ok::<M, P>(x, n, size, orc),
    decreases size, 1nat, n,
{
    if n > 0 {
        lemma_moves::<M, P>(u, us, orc, x, (n - 1) as nat, size);
        let next = P::played(x, P::moves_in(x)[n - 1]);
        if P::moves_in(next).len() < size {
            lemma_within::<M, P>(u, us, orc, next, P::moves_in(next).len());
        }
    }
}

/// The map from the hashes of the positions of `u` and `us` to their values.
pub open spec fn values_by_hash<M: Copy, P: NimstringPosition<M>>(
    u: Set<P::V>,
    us: Set<SimpleView>,
) -> Map<usize, Value> {
    Map::new(
        |h: usize|
            (exists|a: P::V| u.contains(a) && P::hash_in(a) == h) || (exists|b: SimpleView|
                us.contains(b) && b.hash == h),
        |h: usize|
            if exists|a: P::V| u.contains(a) && P::hash_in(a) == h {
                nim_value::<M, P>(choose|a: P::V| u.contains(a) && P::hash_in(a) == h)
            } else {
                nim_value::<Move, SimplePosition>(
                    choose|b: SimpleView| us.contains(b) && b.hash == h,
                )
            },
    )
}

/// Memoising by hash is sound where hashing is free of collisions. Let `u`
/// hold the position `v` and with each position the positions one move
/// away; let `us` hold the parts of the positions of `u`, and with each
/// part the parts one move away and its own parts. If positions of `u` and
/// `us` that share a hash share their value, then `values_by_hash` is an
/// oracle for `v` and for the positions one move away: the solver returns
/// the value of `v`, and beside each move the value of the position after
/// it.
pub proof fn law_memo_sound<M: Copy, P: NimstringPosition<M>>(
    v: P::V,
    u: Set<P::V>,
    us: Set<SimpleView>,
)
    requires
        u.contains(v),
        closed::<M, P>(u, us),
        closed::<Move, SimplePosition>(us, us),
        collision_free::<M, P>(u, us),
    ensures
        tree_ok::<M, P>(v, values_by_hash::<M, P>(u, us)),
{
    let orc = values_by_hash::<M, P>(u, us);
    assert forall|x: P::V| #[trigger] u.contains(x) implies orc.contains_key(P::hash_in(x))
        && orc[P::hash_in(x)] == nim_value::<M, P>(x) by {
        let h = P::hash_in(x);
        let a = choose|a: P::V| u.contains(a) && P::hash_in(a) == h;
        assert(u.contains(a) && u.contains(x));
    }
    assert forall|y: SimpleView| #[trigger] us.contains(y) implies orc.contains_key(y.hash)
        && orc[y.hash] == nim_value::<Move, SimplePosition>(y) by {
        let h = y.hash;
        if exists|a: P::V| u.contains(a) && P::hash_in(a) == h {
            let a = choose|a: P::V| u.contains(a) && P::hash_in(a) == h;
            assert(u.contains(a) && us.contains(y));
        } else {
            let b = choose|b: SimpleView| us.contains(b) && b.hash == h;
            assert(us.contains(b) && us.contains(y));
        }
    }
    lemma_within::<M, P>(u, us, orc, v, P::moves_in(v).len());
    assert forall|i: int| 0 <= i < P::moves_in(v).len() implies oracle_ok::<M, P>(
        P::played(v, #[trigger] P::moves_in(v)[i]),
        orc,
    ) by {
        let next = P::played(v, P::moves_in(v)[i]);
        lemma_within::<M, P>(u, us, orc, next, P::moves_in(next).len());
    }
}

/// With each position, `u` holds the positions after the moves that
/// deserve a look. Its positions are consistent, and twice the number of
/// their legal moves fits an `isize`.
pub open spec fn eval_closed<M: Copy, P: EvaluablePosition<M>>(u: Set<P::V>) -> bool {
    forall|x: P::V| #[trigger]
        u.contains(x) ==> P::view_wf(x) && 2 * P::moves_in(x).len() <= isize::MAX && (forall|
            i: int,
        |
            0 <= i < considered::<M, P>(x).len() ==> u.contains(
                P::played(x, #[trigger] considered::<M, P>(x)[i]),
            ))
}

/// Positions of `u` that share a hash share score and best move.
pub open spec fn eval_collision_free<M: Copy, P: EvaluablePosition<M>>(u: Set<P::V>) -> bool {
    forall|a: P::V, b: P::V|
        #![trigger u.contains(a), u.contains(b)]
        u.contains(a) && u.contains(b) && P::hash_in(a) == P::hash_in(b) ==> outcome_of::<M, P>(a)
            == outcome_of::<M, P>(b)
}

/// The map from the hashes of the unfinished positions of `u` to their
/// scores and best moves.
pub open spec fn scores_by_hash<M: Copy, P: EvaluablePosition<M>>(u: Set<P::V>) -> Map<
    usize,
    (isize, M),
> {
    Map::new(
        |h: usize|
            exists|a: P::V|
                u.contains(a) && P::hash_in(a) == h && considered::<M, P>(a).len() > 0,
        |h: usize|
            {
                let a = choose|a: P::V|
                    u.contains(a) && P::hash_in(a) == h && considered::<M, P>(a).len() > 0;
                (outcome_of::<M, P>(a).0 as isize, outcome_of::<M, P>(a).1->0)
            },
    )
}

/// `scores_by_hash` is an oracle for each position of a closed set without
/// collisions.
proof fn lemma_eval_within<M: Copy, P: EvaluablePosition<M>>(u: Set<P::V>, x: P::V, size: nat)
    requires
        eval_closed::<M, P>(u),
        eval_collision_free::<M, P>(u),
        u.contains(x),
        size == P::moves_in(x).len(),
    ensures
        eval_oracle_within::<M, P>(x, scores_by_hash::<M, P>(u), size),
    decreases size, 1nat, 0nat,
{
    let orc = scores_by_hash::<M, P>(u);
    let h = P::hash_in(x);
    if considered::<M, P>(x).len() == 0 {
        if orc.contains_key(h) {
            let a = choose|a: P::V|
                u.contains(a) && P::hash_in(a) == h && considered::<M, P>(a).len() > 0;
            assert(u.contains(a) && u.contains(x));
        }
    } else {
        let a = choose|a: P::V|
            u.contains(a) && P::hash_in(a) == h && considered::<M, P>(a).len() > 0;
        assert(u.contains(a) && u.contains(x));
        lemma_score_bound::<M, P>(x, size);
        assert(outcome_of::<M, P>(x).0 == score::<M, P>(x));
        lemma_eval_children::<M, P>(u, x, considered::<M, P>(x).len(), size);
    }
}

/// `lemma_eval_within` for the positions after the first `n` moves that
/// deserve a look.
proof fn lemma_eval_children<M: Copy, P: EvaluablePosition<M>>(
    u: Set<P::V>,
    x: P::V,
    n: nat,
    size: nat,
)
    requires
        eval_closed::<M, P>(u),
        eval_collision_free::<M, P>(u),
        u.contains(x),
        n <= considered::<M, P>(x).len(),
    ensures
        children_oracle_ok::<M, P>(x, n, scores_by_hash::<M, P>(u), size),
    decreases size, 0nat, n,
{
    if n > 0 {
        lemma_eval_children::<M, P>(u, x, (n - 1) as nat, size);
        let next = P::played(x, considered::<M, P>(x)[n - 1]);
        if P::moves_in(next).len() < size {
            lemma_eval_within::<M, P>(u, next, P::moves_in(next).len());
        }
    }
}

/// Memoising scores by hash is sound where hashing is free of collisions.
/// Let `u` hold the position `v` and with each position the positions after
/// the moves that deserve a look. If positions of `u` that share a hash
/// share score and best move, then `scores_by_hash` is an oracle for `v`:
/// the evaluator returns the score of `v` and its best move.
pub proof fn law_eval_memo_sound<M: Copy, P: EvaluablePosition<M>>(v: P::V, u: Set<P::V>)
    requires
        u.contains(v),
        eval_closed::<M, P>(u),
        eval_collision_free::<M, P>(u),
    ensures
        eval_oracle_ok::<M, P>(v, scores_by_hash::<M, P>(u)),
        2 * P::moves_in(v).len() <= isize::MAX,
{
    lemma_eval_within::<M, P>(u, v, P::moves_in(v).len());
}

} // verus!
