//! Splitting a position into its independent components.
//!
//! Two squares belong to one component when an uncut edge joins them,
//! directly or through other squares. Squares are scanned column by column;
//! each square met that has an uncut edge and belongs to no earlier
//! component starts a depth-first search, and what the search reaches is
//! repacked into a board of its own.

use crate::board::{all_sides, opposite_side, CPosMove, Move, Side};
use crate::compound::{compound_moves, CompoundPosition};
use crate::model::{
    canonical, lemma_finished, lemma_moves_exact, lemma_same_edge, lemma_uncut, SimpleView,
};
use crate::position::Position;
use crate::simple::{blank, filled, SimplePosition};
use crate::zobrist::key_count;
use vstd::prelude::*;

verus! {

/// The number of squares of a row that are not marked.
pub open spec fn row_free(row: Seq<bool>) -> nat
    decreases row.len(),
{
    if row.len() == 0 {
        0
    } else {
        row_free(row.drop_last()) + if row.last() {
            0nat
        } else {
            1nat
        }
    }
}

/// The number of squares of a grid that are not marked.
pub open spec fn grid_free(g: Seq<Seq<bool>>) -> nat
    decreases g.len(),
{
    if g.len() == 0 {
        0
    } else {
        grid_free(g.drop_last()) + row_free(g.last())
    }
}

/// The grid with square `(x, y)` marked.
pub open spec fn marked(g: Seq<Seq<bool>>, x: int, y: int) -> Seq<Seq<bool>> {
    g.update(x, g[x].update(y, true))
}

/// Marking an unmarked square of a row leaves one unmarked square less.
pub proof fn lemma_row_mark(row: Seq<bool>, y: int)
    requires
        0 <= y < row.len(),
        !row[y],
    ensures
        row_free(row.update(y, true)) + 1 == row_free(row),
    decreases row.len(),
{
    let after = row.update(y, true);
    if y == row.len() - 1 {
        assert(after.drop_last() =~= row.drop_last());
    } else {
        lemma_row_mark(row.drop_last(), y);
        assert(after.drop_last() =~= row.drop_last().update(y, true));
    }
}

/// Marking an unmarked square of a grid leaves one unmarked square less.
pub proof fn lemma_grid_mark(g: Seq<Seq<bool>>, x: int, y: int)
    requires
        0 <= x < g.len(),
        0 <= y < g[x].len(),
        !g[x][y],
    ensures
        grid_free(marked(g, x, y)) + 1 == grid_free(g),
    decreases g.len(),
{
    let after = marked(g, x, y);
    if x == g.len() - 1 {
        assert(after.drop_last() =~= g.drop_last());
        lemma_row_mark(g[x], y);
    } else {
        lemma_grid_mark(g.drop_last(), x, y);
        assert(after.drop_last() =~= marked(g.drop_last(), x, y));
    }
}

/// A search in progress: the squares marked so far, and the squares of the
/// component in the order in which they were reached.
pub struct Search {
    pub visited: Seq<Seq<bool>>,
    pub coords: Seq<(usize, usize)>,
}

/// The marks cover a board of `v`'s size.
pub open spec fn shaped(g: Seq<Seq<bool>>, v: SimpleView) -> bool {
    g.len() == v.width() && forall|x: int| 0 <= x < g.len() ==> (#[trigger] g[x]).len() == v.height()
}

/// The square across side `s` of `(x, y)`, if the edge between them is uncut
/// and the square is not marked yet.
pub open spec fn frontier(v: SimpleView, g: Seq<Seq<bool>>, x: usize, y: usize, s: Side) -> Option<
    (usize, usize),
> {
    if v.legal(Move { x, y, side: s }) {
        match v.neighbour(x, y, s) {
            Some((nx, ny)) => if !g[nx as int][ny as int] {
                Some((nx, ny))
            } else {
                None
            },
            None => None,
        }
    } else {
        None
    }
}

/// The search after it has marked `(x, y)` and all that can be reached from
/// it through unmarked squares.
pub open spec fn search_from(v: SimpleView, x: usize, y: usize, st: Search) -> Search
    decreases grid_free(st.visited), 0nat,
{
    let first = Search {
        visited: marked(st.visited, x as int, y as int),
        coords: st.coords.push((x, y)),
    };
    if grid_free(first.visited) < grid_free(st.visited) {
        search_sides(v, x, y, 0, first)
    } else {
        st
    }
}

/// The search from `(x, y)` continued with the sides from number `k` on.
pub open spec fn search_sides(v: SimpleView, x: usize, y: usize, k: nat, st: Search) -> Search
    decreases grid_free(st.visited), 5 - k,
{
    if k >= 4 {
        st
    } else {
        let next = match frontier(v, st.visited, x, y, all_sides()[k as int]) {
            Some((nx, ny)) => search_from(v, nx, ny, st),
            None => st,
        };
        if grid_free(next.visited) <= grid_free(st.visited) {
            search_sides(v, x, y, k + 1, next)
        } else {
            next
        }
    }
}

/// The squares that `b` reached after `a` were unmarked in `a`, lie on the
/// board, have an uncut edge and are marked in `b`.
pub open spec fn fresh_coords(v: SimpleView, a: Search, b: Search) -> bool {
    &&& a.coords.len() <= b.coords.len()
    &&& b.coords.subrange(0, a.coords.len() as int) == a.coords
    &&& forall|i: int|
        a.coords.len() <= i < b.coords.len() ==> {
            let c = #[trigger] b.coords[i];
            v.on_board(c.0, c.1) && v.valency(c.0, c.1) >= 1 && !a.visited[c.0 as int][c.1 as int]
                && b.visited[c.0 as int][c.1 as int]
        }
}

/// Marks are never removed, and a new mark belongs to a newly reached
/// square.
pub open spec fn marks_grow(v: SimpleView, a: Search, b: Search) -> bool {
    &&& shaped(b.visited, v)
    &&& forall|x: int, y: int|
        0 <= x < v.width() && 0 <= y < v.height() && a.visited[x][y] ==> #[trigger] b.visited[x][y]
    &&& forall|x: int, y: int|
        0 <= x < v.width() && 0 <= y < v.height() && #[trigger] b.visited[x][y] && !a.visited[x][y]
            ==> exists|i: int|
            a.coords.len() <= i < b.coords.len() && #[trigger] b.coords[i] == (
                x as usize,
                y as usize,
            )
}

/// Every square across an uncut edge of `(x, y)` is marked.
pub open spec fn closed_at(v: SimpleView, g: Seq<Seq<bool>>, x: usize, y: usize) -> bool {
    forall|s: Side|
        v.legal(Move { x, y, side: s }) ==> match #[trigger] v.neighbour(x, y, s) {
            Some((nx, ny)) => g[nx as int][ny as int],
            None => true,
        }
}

/// Every square across an uncut edge of a square that `b` reached at place
/// `from` or later is marked in `b`.
pub open spec fn closed_from(v: SimpleView, b: Search, from: int) -> bool {
    forall|i: int|
        from <= i < b.coords.len() ==> closed_at(
            v,
            b.visited,
            (#[trigger] b.coords[i]).0,
            b.coords[i].1,
        )
}

/// What a finished search has done: see `fresh_coords`, `marks_grow` and
/// `closed_from`.
pub open spec fn extends(v: SimpleView, a: Search, b: Search) -> bool {
    &&& fresh_coords(v, a, b)
    &&& marks_grow(v, a, b)
    &&& closed_from(v, b, a.coords.len() as int)
    &&& grid_free(b.visited) <= grid_free(a.visited)
}

/// The marks as a grid.
pub open spec fn grid_of(g: Vec<Vec<bool>>) -> Seq<Seq<bool>> {
    Seq::new(g@.len(), |x: int| g@[x]@)
}

/// Closedness survives further marking.
proof fn lemma_closed_mono(v: SimpleView, a: Search, b: Search, from: int, to: int)
    requires
        v.wf(),
        shaped(a.visited, v),
        marks_grow(v, a, b),
        fresh_coords(v, a, b),
        0 <= from <= to <= a.coords.len(),
        forall|i: int| 0 <= i < a.coords.len() ==> v.on_board((#[trigger] a.coords[i]).0, a.coords[i].1),
        forall|i: int|
            from <= i < to ==> closed_at(v, a.visited, (#[trigger] a.coords[i]).0, a.coords[i].1),
    ensures
        forall|i: int|
            from <= i < to ==> closed_at(v, b.visited, (#[trigger] b.coords[i]).0, b.coords[i].1),
{
    assert forall|i: int| from <= i < to implies closed_at(
        v,
        b.visited,
        (#[trigger] b.coords[i]).0,
        b.coords[i].1,
    ) by {
        assert(b.coords[i] == b.coords.subrange(0, a.coords.len() as int)[i]);
        let c = a.coords[i];
        assert(closed_at(v, a.visited, c.0, c.1));
        assert forall|s: Side| v.legal(Move { x: c.0, y: c.1, side: s }) implies match #[trigger] v.neighbour(
            c.0,
            c.1,
            s,
        ) {
            Some((nx, ny)) => b.visited[nx as int][ny as int],
            None => true,
        } by {
            match v.neighbour(c.0, c.1, s) {
                Some((nx, ny)) => {
                    assert(a.visited[nx as int][ny as int]);
                },
                None => {},
            }
        }
    }
}

/// An uncut edge between two squares is uncut from either side.
pub proof fn lemma_edge_symmetry(v: SimpleView, m: Move, n: (usize, usize))
    requires
        v.wf(),
        v.legal(m),
        v.neighbour(m.x, m.y, m.side) == Some(n),
    ensures
        v.legal(Move { x: n.0, y: n.1, side: opposite_side(m.side) }),
        v.neighbour(n.0, n.1, opposite_side(m.side)) == Some((m.x, m.y)),
        v.on_board(n.0, n.1),
        n != (m.x, m.y),
{
    lemma_same_edge(v, m, Move { x: n.0, y: n.1, side: opposite_side(m.side) });
}

/// A square with a legal move has an uncut edge.
pub proof fn lemma_legal_valency(v: SimpleView, m: Move)
    requires
        v.legal(m),
    ensures
        v.valency(m.x, m.y) >= 1,
{
    match m.side {
        Side::Top => {},
        Side::Bottom => {},
        Side::Left => {},
        Side::Right => {},
    }
}

/// A search keeps the squares that were reached before it and marks the
/// squares that it reaches.
proof fn lemma_search_marks(v: SimpleView, x: usize, y: usize, st: Search)
    requires
        v.wf(),
        v.on_board(x, y),
        shaped(st.visited, v),
        !at(st.visited, (x, y)),
        forall|i: int| 0 <= i < st.coords.len() ==> v.on_board((#[trigger] st.coords[i]).0, st.coords[i].1),
    ensures
        search_marks(v, st, search_from(v, x, y, st)),
    decreases grid_free(st.visited), 0nat,
{
    let first = Search {
        visited: marked(st.visited, x as int, y as int),
        coords: st.coords.push((x, y)),
    };
    lemma_grid_mark(st.visited, x as int, y as int);
    assert(search_marks(v, st, first)) by {
        assert(first.coords.subrange(0, st.coords.len() as int) =~= st.coords);
    }
    lemma_sides_marks(v, x, y, 0, first);
    let r = search_sides(v, x, y, 0, first);
    lemma_marks_chain(v, st, first, r);
}

/// What a search does to marks and reached squares: every square reached
/// in `b` after `a` is on the board and marked in `b`, nothing reached or
/// marked in `a` is lost, and no more squares are unmarked.
pub open spec fn search_marks(v: SimpleView, a: Search, b: Search) -> bool {
    &&& shaped(b.visited, v)
    &&& a.coords.len() <= b.coords.len()
    &&& b.coords.subrange(0, a.coords.len() as int) == a.coords
    &&& forall|i: int|
        a.coords.len() <= i < b.coords.len() ==> v.on_board((#[trigger] b.coords[i]).0, b.coords[i].1)
            && at(b.visited, b.coords[i])
    &&& forall|c: (usize, usize)| v.on_board(c.0, c.1) && at(a.visited, c) ==> #[trigger] at(b.visited, c)
    &&& grid_free(b.visited) <= grid_free(a.visited)
}

/// `search_marks` of two searches in a row.
proof fn lemma_marks_chain(v: SimpleView, a: Search, b: Search, c: Search)
    requires
        search_marks(v, a, b),
        search_marks(v, b, c),
    ensures
        search_marks(v, a, c),
{
    assert(c.coords.subrange(0, a.coords.len() as int) =~= c.coords.subrange(
        0,
        b.coords.len() as int,
    ).subrange(0, a.coords.len() as int));
    assert forall|i: int| a.coords.len() <= i < c.coords.len() implies v.on_board(
        (#[trigger] c.coords[i]).0,
        c.coords[i].1,
    ) && at(c.visited, c.coords[i]) by {
        if i < b.coords.len() {
            assert(c.coords[i] == c.coords.subrange(0, b.coords.len() as int)[i]);
            assert(v.on_board(b.coords[i].0, b.coords[i].1) && at(b.visited, b.coords[i]));
        }
    }
}

/// `lemma_search_marks` for the sides from number `k` on of a square.
proof fn lemma_sides_marks(v: SimpleView, x: usize, y: usize, k: nat, st: Search)
    requires
        v.wf(),
        v.on_board(x, y),
        shaped(st.visited, v),
        forall|i: int| 0 <= i < st.coords.len() ==> v.on_board((#[trigger] st.coords[i]).0, st.coords[i].1),
    ensures
        search_marks(v, st, search_sides(v, x, y, k, st)),
    decreases grid_free(st.visited), 5 - k,
{
    if k < 4 {
        match frontier(v, st.visited, x, y, all_sides()[k as int]) {
            Some((nx, ny)) => {
                lemma_search_marks(v, nx, ny, st);
                let next = search_from(v, nx, ny, st);
                assert forall|i: int| 0 <= i < next.coords.len() implies v.on_board(
                    (#[trigger] next.coords[i]).0,
                    next.coords[i].1,
                ) by {
                    if i < st.coords.len() {
                        assert(next.coords[i] == next.coords.subrange(0, st.coords.len() as int)[i]);
                    }
                }
                lemma_sides_marks(v, x, y, k + 1, next);
                lemma_marks_chain(v, st, next, search_sides(v, x, y, k + 1, next));
            },
            None => {
                lemma_sides_marks(v, x, y, k + 1, st);
            },
        }
    } else {
        assert(st.coords.subrange(0, st.coords.len() as int) =~= st.coords);
    }
}

/// Depth-first search for the squares joined to `(x, y)` by uncut edges.
#[verifier::rlimit(40)]
fn search(
    pos: &SimplePosition,
    x: usize,
    y: usize,
    visited: &mut Vec<Vec<bool>>,
    frag_coords: &mut Vec<(usize, usize)>,
)
    requires
        pos.wf(),
        pos@.on_board(x, y),
        pos@.valency(x, y) >= 1,
        shaped(grid_of(*old(visited)), pos@),
        !grid_of(*old(visited))[x as int][y as int],
        forall|i: int|
            0 <= i < old(frag_coords)@.len() ==> pos@.on_board(
                (#[trigger] old(frag_coords)@[i]).0,
                old(frag_coords)@[i].1,
            ),
    ensures
        (Search { visited: grid_of(*final(visited)), coords: final(frag_coords)@ }) == search_from(
            pos@,
            x,
            y,
            Search { visited: grid_of(*old(visited)), coords: old(frag_coords)@ },
        ),
        extends(
            pos@,
            Search { visited: grid_of(*old(visited)), coords: old(frag_coords)@ },
            Search { visited: grid_of(*final(visited)), coords: final(frag_coords)@ },
        ),
        final(frag_coords)@.len() > old(frag_coords)@.len(),
        final(frag_coords)@[old(frag_coords)@.len() as int] == (x, y),
        grid_free(grid_of(*final(visited))) < grid_free(grid_of(*old(visited))),
    decreases grid_free(grid_of(*old(visited))),
{
    let ghost v = pos@;
    let ghost start = Search { visited: grid_of(*visited), coords: frag_coords@ };
    let ghost n0 = frag_coords@.len() as int;
    proof {
        lemma_grid_mark(start.visited, x as int, y as int);
    }
    visited[x][y] = true;
    frag_coords.push((x, y));
    let ghost first = Search { visited: grid_of(*visited), coords: frag_coords@ };
    assert(first.visited =~~= marked(start.visited, x as int, y as int));
    assert(first.coords =~= start.coords.push((x, y)));
    let sides = Side::all();
    let mut k: usize = 0;
    assert(first.coords.subrange(0, n0) =~= start.coords);
    assert(first.coords[n0] == (x, y));
    while k < 4
        invariant
            k <= 4,
            start.visited == grid_of(*old(visited)),
            forall|i: int|
                0 <= i < frag_coords@.len() ==> v.on_board(
                    (#[trigger] frag_coords@[i]).0,
                    frag_coords@[i].1,
                ),
            pos.wf(),
            v == pos@,
            v.on_board(x, y),
            v.valency(x, y) >= 1,
            sides@ == all_sides(),
            n0 == start.coords.len(),
            shaped(start.visited, v),
            shaped(grid_of(*visited), v),
            first.coords.len() == n0 + 1,
            first.coords[n0] == (x, y),
            search_sides(
                v,
                x,
                y,
                k as nat,
                Search { visited: grid_of(*visited), coords: frag_coords@ },
            ) == search_sides(v, x, y, 0, first),
            fresh_coords(v, start, Search { visited: grid_of(*visited), coords: frag_coords@ }),
            marks_grow(v, start, Search { visited: grid_of(*visited), coords: frag_coords@ }),
            closed_from(v, Search { visited: grid_of(*visited), coords: frag_coords@ }, n0 + 1),
            frag_coords@.len() > n0,
            frag_coords@[n0] == (x, y),
            grid_of(*visited)[x as int][y as int],
            grid_free(grid_of(*visited)) < grid_free(start.visited),
            forall|j: int|
                0 <= j < k && v.legal(Move { x, y, side: all_sides()[j] }) ==> match v.neighbour(
                    x,
                    y,
                    #[trigger] all_sides()[j],
                ) {
                    Some((nx, ny)) => grid_of(*visited)[nx as int][ny as int],
                    None => true,
                },
        decreases 4 - k,
    {
        let side = sides[k];
        let ghost cur = Search { visited: grid_of(*visited), coords: frag_coords@ };
        let mut goes: Option<(usize, usize)> = None;
        if pos.is_legal_move(Move { x: x, y: y, side: side }) {
            if let Some((next_x, next_y)) = pos.offset(x, y, side) {
                assert(visited@[next_x as int]@ == cur.visited[next_x as int]);
                if !visited[next_x][next_y] {
                    goes = Some((next_x, next_y));
                }
            }
        }
        assert(goes == frontier(v, cur.visited, x, y, side));
        if let Some((next_x, next_y)) = goes {
            proof {
                lemma_edge_symmetry(v, Move { x, y, side }, (next_x, next_y));
                lemma_legal_valency(v, Move { x: next_x, y: next_y, side: opposite_side(side) });
            }
            search(pos, next_x, next_y, visited, frag_coords);
            let ghost after = Search { visited: grid_of(*visited), coords: frag_coords@ };
            proof {
                assert(after == search_from(v, next_x, next_y, cur));
                assert(extends(v, cur, after));
                assert(after.coords.subrange(0, n0) =~= after.coords.subrange(
                    0,
                    cur.coords.len() as int,
                ).subrange(0, n0));
                assert forall|i: int| n0 <= i < after.coords.len() implies {
                    let c = #[trigger] after.coords[i];
                    v.on_board(c.0, c.1) && v.valency(c.0, c.1) >= 1
                        && !start.visited[c.0 as int][c.1 as int]
                        && after.visited[c.0 as int][c.1 as int]
                } by {
                    if i < cur.coords.len() {
                        assert(after.coords[i] == after.coords.subrange(
                            0,
                            cur.coords.len() as int,
                        )[i]);
                        assert(cur.coords[i] == after.coords[i]);
                    } else {
                        let c = after.coords[i];
                        if start.visited[c.0 as int][c.1 as int] {
                            assert(cur.visited[c.0 as int][c.1 as int]);
                        }
                    }
                }
                assert forall|a: int, b: int|
                    0 <= a < v.width() && 0 <= b < v.height() && #[trigger] after.visited[a][b]
                        && !start.visited[a][b] implies exists|i: int|
                    n0 <= i < after.coords.len() && #[trigger] after.coords[i] == (
                        a as usize,
                        b as usize,
                    ) by {
                    if cur.visited[a][b] {
                        let i = choose|i: int|
                            n0 <= i < cur.coords.len() && #[trigger] cur.coords[i] == (
                                a as usize,
                                b as usize,
                            );
                        assert(after.coords[i] == after.coords.subrange(
                            0,
                            cur.coords.len() as int,
                        )[i]);
                    } else {
                        let i = choose|i: int|
                            cur.coords.len() <= i < after.coords.len() && #[trigger] after.coords[i]
                                == (a as usize, b as usize);
                        assert(n0 <= i);
                    }
                }
                assert forall|i: int| 0 <= i < cur.coords.len() implies v.on_board(
                    (#[trigger] cur.coords[i]).0,
                    cur.coords[i].1,
                ) by {
                    if i < n0 {
                        assert(cur.coords[i] == cur.coords.subrange(0, n0)[i]);
                    }
                }
                assert forall|i: int| 0 <= i < after.coords.len() implies v.on_board(
                    (#[trigger] after.coords[i]).0,
                    after.coords[i].1,
                ) by {
                    if i < cur.coords.len() {
                        assert(after.coords[i] == after.coords.subrange(
                            0,
                            cur.coords.len() as int,
                        )[i]);
                    }
                }
                lemma_closed_mono(v, cur, after, n0 + 1, cur.coords.len() as int);
                assert(after.coords[n0] == after.coords.subrange(0, cur.coords.len() as int)[n0]);
                assert(after.visited[x as int][y as int]);
            }
        }
        proof {
            let after = Search { visited: grid_of(*visited), coords: frag_coords@ };
            assert forall|j: int|
                0 <= j < k + 1 && v.legal(Move { x, y, side: all_sides()[j] }) implies match v.neighbour(
                x,
                y,
                #[trigger] all_sides()[j],
            ) {
                Some((nx, ny)) => after.visited[nx as int][ny as int],
                None => true,
            } by {
                match v.neighbour(x, y, all_sides()[j]) {
                    Some((nx, ny)) => {
                        if j < k {
                            assert(cur.visited[nx as int][ny as int]);
                        }
                    },
                    None => {},
                }
            }
        }
        k += 1;
    }
    proof {
        let done = Search { visited: grid_of(*visited), coords: frag_coords@ };
        assert(closed_at(v, done.visited, x, y)) by {
            assert forall|s: Side| v.legal(Move { x, y, side: s }) implies match #[trigger] v.neighbour(
                x,
                y,
                s,
            ) {
                Some((nx, ny)) => done.visited[nx as int][ny as int],
                None => true,
            } by {
                let j: int = match s {
                    Side::Top => 0,
                    Side::Bottom => 1,
                    Side::Left => 2,
                    Side::Right => 3,
                };
                assert(all_sides()[j] == s);
            }
        }
    }
}

/// The smallest rectangle of squares around a component.
pub struct Bounds {
    pub x_left: usize,
    pub x_right: usize,
    pub y_top: usize,
    pub y_bottom: usize,
}

/// The bounds of the first square widened by the first `n` squares.
pub open spec fn bounds_of(coords: Seq<(usize, usize)>, n: nat) -> Bounds
    decreases n,
{
    if n == 0 {
        Bounds {
            x_left: coords[0].0,
            x_right: coords[0].0,
            y_top: coords[0].1,
            y_bottom: coords[0].1,
        }
    } else {
        let b = bounds_of(coords, (n - 1) as nat);
        let c = coords[n - 1];
        Bounds {
            x_left: if c.0 < b.x_left {
                c.0
            } else {
                b.x_left
            },
            x_right: if c.0 > b.x_right {
                c.0
            } else {
                b.x_right
            },
            y_top: if c.1 < b.y_top {
                c.1
            } else {
                b.y_top
            },
            y_bottom: if c.1 > b.y_bottom {
                c.1
            } else {
                b.y_bottom
            },
        }
    }
}

/// The move of the fragment that stands for side `s` of the source's square `c`.
pub open spec fn local_move(c: (usize, usize), b: Bounds, s: Side) -> Move {
    Move { x: (c.0 - b.x_left) as usize, y: (c.1 - b.y_top) as usize, side: s }
}

/// The move of the source that the fragment's move `m` stands for.
pub open spec fn shifted(m: Move, b: Bounds) -> Move {
    Move { x: (m.x + b.x_left) as usize, y: (m.y + b.y_top) as usize, side: m.side }
}

/// The fragment after the sides from number `k` on of square `c` were
/// copied: an edge that is uncut in the source is put back in the fragment.
pub open spec fn fill_sides(v: SimpleView, frag: SimpleView, c: (usize, usize), b: Bounds, k: nat)
    -> SimpleView
    decreases 4 - k,
{
    if k >= 4 {
        frag
    } else {
        let side = all_sides()[k as int];
        let fm = local_move(c, b, side);
        let next = if v.legal(Move { x: c.0, y: c.1, side }) && !frag.legal(fm) {
            frag.uncut(fm)
        } else {
            frag
        };
        fill_sides(v, next, c, b, k + 1)
    }
}

/// The fragment after the first `n` squares were copied.
pub open spec fn fill_coords(
    v: SimpleView,
    frag: SimpleView,
    coords: Seq<(usize, usize)>,
    b: Bounds,
    n: nat,
) -> SimpleView
    decreases n,
{
    if n == 0 {
        frag
    } else {
        fill_sides(v, fill_coords(v, frag, coords, b, (n - 1) as nat), coords[n - 1], b, 0)
    }
}

/// The component `coords` of `v` as a board of its own: as large as the
/// component's bounds, all edges cut but those of the component's squares
/// that are uncut in `v`.
pub open spec fn fragment(v: SimpleView, coords: Seq<(usize, usize)>) -> SimpleView {
    let b = bounds_of(coords, coords.len());
    fill_coords(
        v,
        blank((b.x_right - b.x_left + 1) as nat, (b.y_bottom - b.y_top + 1) as nat, false),
        coords,
        b,
        coords.len(),
    )
}

/// The edge of `m` is an edge of one of the squares `coords`.
pub open spec fn touches(v: SimpleView, coords: Seq<(usize, usize)>, m: Move) -> bool {
    exists|i: int|
        0 <= i < coords.len() && (#[trigger] coords[i] == (m.x, m.y) || v.neighbour(
            m.x,
            m.y,
            m.side,
        ) == Some(coords[i]))
}

/// Every uncut edge of the fragment is an uncut edge of the source, and an
/// edge of one of the component's squares.
pub open spec fn frag_sound(v: SimpleView, frag: SimpleView, coords: Seq<(usize, usize)>, b: Bounds)
    -> bool {
    forall|fm: Move| #[trigger]
        frag.legal(fm) ==> v.legal(shifted(fm, b)) && touches(v, coords, shifted(fm, b))
}

/// Every uncut edge of the first `n` squares of the component is uncut in
/// the fragment.
pub open spec fn frag_complete(
    v: SimpleView,
    frag: SimpleView,
    coords: Seq<(usize, usize)>,
    b: Bounds,
    n: int,
) -> bool {
    forall|i: int, s: Side|
        0 <= i < n && #[trigger] v.legal(Move { x: coords[i].0, y: coords[i].1, side: s })
            ==> frag.legal(local_move(coords[i], b, s))
}

/// The squares all lie within the bounds, and the bounds on the board.
pub open spec fn bounded(v: SimpleView, coords: Seq<(usize, usize)>, b: Bounds) -> bool {
    &&& b.x_left <= b.x_right < v.width()
    &&& b.y_top <= b.y_bottom < v.height()
    &&& forall|i: int|
        0 <= i < coords.len() ==> b.x_left <= (#[trigger] coords[i]).0 <= b.x_right && b.y_top
            <= coords[i].1 <= b.y_bottom
}

/// A smaller board needs fewer keys.
proof fn lemma_key_count_mono(fw: nat, fh: nat, w: nat, h: nat)
    requires
        fw <= w,
        fh <= h,
    ensures
        key_count(fw, fh) <= key_count(w, h),
{
    assert(fw * (2 * fh + 1) <= w * (2 * h + 1)) by (nonlinear_arith)
        requires
            fw <= w,
            fh <= h,
    ;
}

/// Putting back the edge of a square of the component keeps the fragment
/// sound.
#[verifier::rlimit(40)]
proof fn lemma_fill_step(
    v: SimpleView,
    frag: SimpleView,
    coords: Seq<(usize, usize)>,
    b: Bounds,
    i: int,
    s: Side,
)
    requires
        v.wf(),
        frag.wf(),
        bounded(v, coords, b),
        frag.width() == b.x_right - b.x_left + 1,
        frag.height() == b.y_bottom - b.y_top + 1,
        0 <= i < coords.len(),
        v.legal(Move { x: coords[i].0, y: coords[i].1, side: s }),
        !frag.legal(local_move(coords[i], b, s)),
        frag_sound(v, frag, coords, b),
    ensures
        frag_sound(v, frag.uncut(local_move(coords[i], b, s)), coords, b),
{
    let c = coords[i];
    let fm = local_move(c, b, s);
    let next = frag.uncut(fm);
    lemma_uncut(frag, fm);
    assert(shifted(fm, b) == Move { x: c.0, y: c.1, side: s });
    assert forall|o: Move| #[trigger] next.legal(o) implies v.legal(shifted(o, b)) && touches(
        v,
        coords,
        shifted(o, b),
    ) by {
        if !frag.legal(o) {
            assert(frag.on_board(o.x, o.y) && canonical(o) == canonical(fm));
            lemma_same_edge(frag, o, fm);
            lemma_same_edge(v, shifted(o, b), shifted(fm, b));
            assert(canonical(shifted(o, b)) == canonical(shifted(fm, b)));
            if o == fm {
                assert(coords[i] == (shifted(o, b).x, shifted(o, b).y));
            } else {
                assert(v.neighbour(shifted(o, b).x, shifted(o, b).y, o.side) == Some(coords[i]));
            }
        }
    }
}

/// `p` is the board of the component `coords` of `v`: it is `fragment(v,
/// coords)`, as large as the component's bounds, and its uncut edges are
/// the uncut edges of the component's squares.
pub open spec fn part_ok(v: SimpleView, p: SimplePosition, coords: Seq<(usize, usize)>) -> bool {
    let b = bounds_of(coords, coords.len());
    &&& p.wf()
    &&& p@ == fragment(v, coords)
    &&& bounded(v, coords, b)
    &&& p@.width() == b.x_right - b.x_left + 1
    &&& p@.height() == b.y_bottom - b.y_top + 1
    &&& frag_sound(v, p@, coords, b)
    &&& frag_complete(v, p@, coords, b, coords.len() as int)
}

/// Builds the board of a component from its squares.
#[verifier::rlimit(40)]
fn make_fragment(pos: &SimplePosition, coords: &Vec<(usize, usize)>) -> (frag_pos: SimplePosition)
    requires
        pos.wf(),
        coords@.len() > 0,
        forall|i: int| 0 <= i < coords@.len() ==> pos@.on_board((#[trigger] coords@[i]).0, coords@[i].1),
    ensures
        part_ok(pos@, frag_pos, coords@),
{
    let ghost v = pos@;
    let mut x_left = coords[0].0;
    let mut x_right = coords[0].0;
    let mut y_top = coords[0].1;
    let mut y_bottom = coords[0].1;
    let mut i: usize = 0;
    while i < coords.len()
        invariant
            i <= coords@.len(),
            coords@.len() > 0,
            forall|j: int|
                0 <= j < coords@.len() ==> v.on_board((#[trigger] coords@[j]).0, coords@[j].1),
            (Bounds { x_left, x_right, y_top, y_bottom }) == bounds_of(coords@, i as nat),
            x_left <= x_right < v.width(),
            y_top <= y_bottom < v.height(),
            forall|j: int|
                0 <= j < i ==> x_left <= (#[trigger] coords@[j]).0 <= x_right && y_top
                    <= coords@[j].1 <= y_bottom,
        decreases coords@.len() - i,
    {
        let (x, y) = coords[i];
        if x < x_left {
            x_left = x;
        }
        if x > x_right {
            x_right = x;
        }
        if y < y_top {
            y_top = y;
        }
        if y > y_bottom {
            y_bottom = y;
        }
        i += 1;
    }
    let ghost b = Bounds { x_left, x_right, y_top, y_bottom };
    proof {
        lemma_key_count_mono(
            (x_right - x_left + 1) as nat,
            (y_bottom - y_top + 1) as nat,
            v.width(),
            v.height(),
        );
    }
    let mut frag_pos = SimplePosition::new_end_game(x_right - x_left + 1, y_bottom - y_top + 1);
    let ghost empty = frag_pos@;
    let sides = Side::all();
    i = 0;
    while i < coords.len()
        invariant
            i <= coords@.len(),
            pos.wf(),
            v == pos@,
            sides@ == all_sides(),
            b == (Bounds { x_left, x_right, y_top, y_bottom }),
            bounded(v, coords@, b),
            frag_pos.wf(),
            frag_pos@.width() == x_right - x_left + 1,
            frag_pos@.height() == y_bottom - y_top + 1,
            frag_pos@ == fill_coords(v, empty, coords@, b, i as nat),
            frag_sound(v, frag_pos@, coords@, b),
            frag_complete(v, frag_pos@, coords@, b, i as int),
        decreases coords@.len() - i,
    {
        let (x, y) = coords[i];
        let (frag_x, frag_y) = (x - x_left, y - y_top);
        let ghost before = frag_pos@;
        let mut k: usize = 0;
        while k < 4
            invariant
                k <= 4,
                i < coords@.len(),
                (x, y) == coords@[i as int],
                frag_x == x - x_left,
                frag_y == y - y_top,
                pos.wf(),
                v == pos@,
                sides@ == all_sides(),
                b == (Bounds { x_left, x_right, y_top, y_bottom }),
                bounded(v, coords@, b),
                frag_pos.wf(),
                frag_pos@.width() == x_right - x_left + 1,
                frag_pos@.height() == y_bottom - y_top + 1,
                fill_sides(v, frag_pos@, (x, y), b, k as nat) == fill_sides(v, before, (x, y), b, 0),
                frag_sound(v, frag_pos@, coords@, b),
                frag_complete(v, frag_pos@, coords@, b, i as int),
                forall|j: int|
                    0 <= j < k && v.legal(Move { x, y, side: all_sides()[j] }) ==> frag_pos@.legal(
                        local_move((x, y), b, #[trigger] all_sides()[j]),
                    ),
            decreases 4 - k,
        {
            let side = sides[k];
            let frag_move = Move { x: frag_x, y: frag_y, side: side };
            let legal_in_pos = pos.is_legal_move(Move { x: x, y: y, side: side });
            let legal_in_frag = frag_pos.is_legal_move(frag_move);
            let ghost cur = frag_pos@;
            assert(frag_move == local_move((x, y), b, side));
            if legal_in_pos && !legal_in_frag {
                proof {
                    lemma_fill_step(v, cur, coords@, b, i as int, side);
                    lemma_uncut(cur, frag_move);
                }
                frag_pos.undo_move(frag_move);
            }
            proof {
                let now = frag_pos@;
                assert forall|o: Move| cur.legal(o) implies now.legal(o) by {}
                assert forall|j: int|
                    0 <= j < k + 1 && v.legal(Move { x, y, side: all_sides()[j] }) implies now.legal(
                    local_move((x, y), b, #[trigger] all_sides()[j]),
                ) by {
                    if j < k {
                        assert(cur.legal(local_move((x, y), b, all_sides()[j])));
                    }
                }
                assert forall|j: int, s: Side|
                    0 <= j < i && #[trigger] v.legal(
                        Move { x: coords@[j].0, y: coords@[j].1, side: s },
                    ) implies now.legal(local_move(coords@[j], b, s)) by {
                    assert(cur.legal(local_move(coords@[j], b, s)));
                }
            }
            k += 1;
        }
        proof {
            let now = frag_pos@;
            assert forall|j: int, s: Side|
                0 <= j < i + 1 && #[trigger] v.legal(
                    Move { x: coords@[j].0, y: coords@[j].1, side: s },
                ) implies now.legal(local_move(coords@[j], b, s)) by {
                if j == i {
                    let n: int = match s {
                        Side::Top => 0,
                        Side::Bottom => 1,
                        Side::Left => 2,
                        Side::Right => 3,
                    };
                    assert(all_sides()[n] == s);
                }
            }
        }
        i += 1;
    }
    frag_pos
}

/// Whether square `c` is marked.
pub open spec fn at(g: Seq<Seq<bool>>, c: (usize, usize)) -> bool {
    g[c.0 as int][c.1 as int]
}

/// A scan in progress: the squares marked so far and the components found.
pub struct Scan {
    pub visited: Seq<Seq<bool>>,
    pub comps: Seq<Seq<(usize, usize)>>,
}

/// The scan after square `(x, y)`: a square that is unmarked and has an
/// uncut edge starts a component.
pub open spec fn scan_cell(v: SimpleView, x: usize, y: usize, st: Scan) -> Scan {
    if !st.visited[x as int][y as int] && v.valency(x, y) > 0 {
        let found = search_from(v, x, y, Search { visited: st.visited, coords: Seq::empty() });
        Scan { visited: found.visited, comps: st.comps.push(found.coords) }
    } else {
        st
    }
}

/// The scan after the first `n` squares of column `x`.
pub open spec fn scan_column(v: SimpleView, x: usize, n: nat, st: Scan) -> Scan
    decreases n,
{
    if n == 0 {
        st
    } else {
        scan_cell(v, x, (n - 1) as usize, scan_column(v, x, (n - 1) as nat, st))
    }
}

/// The scan after the first `n` columns.
pub open spec fn scan_grid(v: SimpleView, n: nat, st: Scan) -> Scan
    decreases n,
{
    if n == 0 {
        st
    } else {
        scan_column(v, (n - 1) as usize, v.height(), scan_grid(v, (n - 1) as nat, st))
    }
}

/// No square marked, no component found.
pub open spec fn scan_start(v: SimpleView) -> Scan {
    Scan {
        visited: Seq::new(v.width(), |x: int| Seq::new(v.height(), |y: int| false)),
        comps: Seq::empty(),
    }
}

/// The components of `v`, each as the list of its squares, in the order in
/// which the scan meets their first squares.
pub open spec fn components(v: SimpleView) -> Seq<Seq<(usize, usize)>> {
    scan_grid(v, v.width(), scan_start(v)).comps
}

/// The boards of the given components.
pub open spec fn fragments(v: SimpleView, comps: Seq<Seq<(usize, usize)>>) -> Seq<SimpleView> {
    Seq::new(comps.len(), |k: int| fragment(v, comps[k]))
}

/// The components of `v`, each as a board of its own.
pub open spec fn split_model(v: SimpleView) -> Seq<SimpleView> {
    fragments(v, components(v))
}

/// Square `c` belongs to one of the components.
pub open spec fn covered(comps: Seq<Seq<(usize, usize)>>, c: (usize, usize)) -> bool {
    exists|k: int, i: int|
        0 <= k < comps.len() && 0 <= i < comps[k].len() && #[trigger] comps[k][i] == c
}

/// The components are a partition of the squares that are not captured:
/// each of their squares is on the board and has an uncut edge, each such
/// square belongs to a component, and none to two.
pub open spec fn partition_of(v: SimpleView, comps: Seq<Seq<(usize, usize)>>) -> bool {
    &&& forall|k: int, i: int|
        0 <= k < comps.len() && 0 <= i < comps[k].len() ==> v.on_board(
            (#[trigger] comps[k][i]).0,
            comps[k][i].1,
        ) && !v.captured(comps[k][i].0, comps[k][i].1)
    &&& forall|x: usize, y: usize|
        v.on_board(x, y) && !v.captured(x, y) ==> #[trigger] covered(comps, (x, y))
    &&& forall|k1: int, i1: int, k2: int, i2: int|
        0 <= k1 < comps.len() && 0 <= i1 < comps[k1].len() && 0 <= k2 < comps.len() && 0 <= i2
            < comps[k2].len() && #[trigger] comps[k1][i1] == #[trigger] comps[k2][i2] ==> k1 == k2
}

/// Every square before `(x, y)` in the order of the scan that has an uncut
/// edge is marked.
pub open spec fn scanned(v: SimpleView, cur: Seq<Seq<bool>>, x: int, y: int) -> bool {
    forall|c: (usize, usize)|
        v.on_board(c.0, c.1) && (c.0 < x || (c.0 == x && c.1 < y)) && v.valency(c.0, c.1) >= 1
            ==> #[trigger] at(cur, c)
}

/// The components found so far, each with the marks before and after its
/// search.
pub struct Layout {
    pub comps: Seq<Seq<(usize, usize)>>,
    pub befores: Seq<Seq<Seq<bool>>>,
    pub marks: Seq<Seq<Seq<bool>>>,
}

/// Component `k` is what a search found that started from `befores[k]` at
/// the first square in the order of the scan that had an uncut edge and no
/// mark, and ended with `marks[k]`.
pub open spec fn comp_ok(v: SimpleView, l: Layout, k: int) -> bool {
    &&& shaped(l.befores[k], v)
    &&& l.comps[k].len() > 0
    &&& extends(
        v,
        Search { visited: l.befores[k], coords: Seq::empty() },
        Search { visited: l.marks[k], coords: l.comps[k] },
    )
    &&& scanned(v, l.befores[k], l.comps[k][0].0 as int, l.comps[k][0].1 as int)
    &&& (Search { visited: l.marks[k], coords: l.comps[k] }) == search_from(
        v,
        l.comps[k][0].0,
        l.comps[k][0].1,
        Search { visited: l.befores[k], coords: Seq::empty() },
    )
}

/// The searches came one after the other and led to the marks `cur`, each
/// mark of which belongs to a component.
pub open spec fn layout_ok(v: SimpleView, l: Layout, cur: Seq<Seq<bool>>) -> bool {
    &&& l.befores.len() == l.comps.len()
    &&& l.marks.len() == l.comps.len()
    &&& shaped(cur, v)
    &&& forall|k: int| 0 <= k < l.comps.len() ==> #[trigger] comp_ok(v, l, k)
    &&& forall|k: int, c: (usize, usize)|
        0 <= k < l.comps.len() && v.on_board(c.0, c.1) && #[trigger] at(l.marks[k], c) ==> at(cur, c)
    &&& forall|i: int, j: int, c: (usize, usize)|
        #![trigger at(l.marks[i], c), at(l.befores[j], c)]
        0 <= i < j < l.comps.len() && v.on_board(c.0, c.1) && at(l.marks[i], c) ==> at(
            l.befores[j],
            c,
        )
    &&& forall|c: (usize, usize)|
        v.on_board(c.0, c.1) && #[trigger] at(cur, c) ==> covered(l.comps, c)
}

/// The layout with one more component.
pub open spec fn layout_push(l: Layout, before: Seq<Seq<bool>>, found: Search) -> Layout {
    Layout {
        comps: l.comps.push(found.coords),
        befores: l.befores.push(before),
        marks: l.marks.push(found.visited),
    }
}

/// A further search keeps the layout in order.
#[verifier::rlimit(40)]
proof fn lemma_layout_push(v: SimpleView, l: Layout, cur: Seq<Seq<bool>>, found: Search)
    requires
        v.wf(),
        layout_ok(v, l, cur),
        found.coords.len() > 0,
        extends(v, Search { visited: cur, coords: Seq::empty() }, found),
        scanned(v, cur, found.coords[0].0 as int, found.coords[0].1 as int),
        found == search_from(
            v,
            found.coords[0].0,
            found.coords[0].1,
            Search { visited: cur, coords: Seq::empty() },
        ),
    ensures
        layout_ok(v, layout_push(l, cur, found), found.visited),
{
    let n = l.comps.len() as int;
    let l2 = layout_push(l, cur, found);
    let start = Search { visited: cur, coords: Seq::<(usize, usize)>::empty() };
    assert forall|k: int| 0 <= k < l2.comps.len() implies #[trigger] comp_ok(v, l2, k) by {
        if k < n {
            assert(comp_ok(v, l, k));
        }
    }
    assert forall|k: int, c: (usize, usize)|
        0 <= k < l2.comps.len() && v.on_board(c.0, c.1) && #[trigger] at(l2.marks[k], c) implies at(
        found.visited,
        c,
    ) by {
        if k < n {
            assert(at(l.marks[k], c));
            assert(at(cur, c));
            assert(cur[c.0 as int][c.1 as int]);
            assert(found.visited[c.0 as int][c.1 as int]);
        }
    }
    assert forall|i: int, j: int, c: (usize, usize)|
        #![trigger at(l2.marks[i], c), at(l2.befores[j], c)]
        0 <= i < j < l2.comps.len() && v.on_board(c.0, c.1) && at(l2.marks[i], c) implies at(
        l2.befores[j],
        c,
    ) by {
        if j < n {
            assert(at(l.marks[i], c));
            assert(at(l.befores[j], c));
        } else {
            assert(at(l.marks[i], c));
            assert(at(cur, c));
        }
    }
    assert forall|c: (usize, usize)|
        v.on_board(c.0, c.1) && #[trigger] at(found.visited, c) implies covered(l2.comps, c) by {
        if at(cur, c) {
            assert(covered(l.comps, c));
            let (k, i) = choose|k: int, i: int|
                0 <= k < l.comps.len() && 0 <= i < l.comps[k].len() && #[trigger] l.comps[k][i]
                    == c;
            assert(l2.comps[k][i] == c);
        } else {
            assert(found.visited[c.0 as int][c.1 as int] && !cur[c.0 as int][c.1 as int]);
            let i = choose|i: int|
                0 <= i < found.coords.len() && #[trigger] found.coords[i] == (
                    c.0 as int as usize,
                    c.1 as int as usize,
                );
            assert(l2.comps[n][i] == c);
        }
    }
}

/// What a layout says of one square of one component.
proof fn lemma_comp_square(v: SimpleView, l: Layout, cur: Seq<Seq<bool>>, k: int, i: int)
    requires
        v.wf(),
        layout_ok(v, l, cur),
        0 <= k < l.comps.len(),
        0 <= i < l.comps[k].len(),
    ensures
        v.on_board(l.comps[k][i].0, l.comps[k][i].1),
        v.valency(l.comps[k][i].0, l.comps[k][i].1) >= 1,
        !at(l.befores[k], l.comps[k][i]),
        at(l.marks[k], l.comps[k][i]),
        closed_at(v, l.marks[k], l.comps[k][i].0, l.comps[k][i].1),
{
    assert(comp_ok(v, l, k));
}

/// Once every square with an uncut edge is marked, the components are a
/// partition of those squares.
proof fn lemma_partition(v: SimpleView, l: Layout, cur: Seq<Seq<bool>>)
    requires
        v.wf(),
        layout_ok(v, l, cur),
        forall|x: usize, y: usize| v.on_board(x, y) && v.valency(x, y) >= 1 ==> at(cur, (x, y)),
    ensures
        partition_of(v, l.comps),
{
    let comps = l.comps;
    assert forall|k: int, i: int| 0 <= k < comps.len() && 0 <= i < comps[k].len() implies v.on_board(
        (#[trigger] comps[k][i]).0,
        comps[k][i].1,
    ) && !v.captured(comps[k][i].0, comps[k][i].1) by {
        lemma_comp_square(v, l, cur, k, i);
        crate::model::lemma_captured_valency(v, comps[k][i].0, comps[k][i].1);
    }
    assert forall|x: usize, y: usize| v.on_board(x, y) && !v.captured(x, y) implies #[trigger] covered(
        comps,
        (x, y),
    ) by {
        crate::model::lemma_captured_valency(v, x, y);
        assert(at(cur, (x, y)));
    }
    assert forall|k1: int, i1: int, k2: int, i2: int|
        0 <= k1 < comps.len() && 0 <= i1 < comps[k1].len() && 0 <= k2 < comps.len() && 0 <= i2
            < comps[k2].len() && #[trigger] comps[k1][i1] == #[trigger] comps[k2][i2] implies k1
        == k2 by {
        let c = comps[k1][i1];
        lemma_comp_square(v, l, cur, k1, i1);
        lemma_comp_square(v, l, cur, k2, i2);
        if k1 < k2 {
            assert(at(l.marks[k1], c));
            assert(at(l.befores[k2], c));
        }
        if k2 < k1 {
            assert(at(l.marks[k2], c));
            assert(at(l.befores[k1], c));
        }
    }
}

/// An uncut edge of the first square of one component is no edge of a
/// square of another.
#[verifier::rlimit(40)]
proof fn lemma_apart(v: SimpleView, l: Layout, cur: Seq<Seq<bool>>, a: int, b: int, side: Side)
    requires
        v.wf(),
        layout_ok(v, l, cur),
        0 <= a < l.comps.len(),
        0 <= b < l.comps.len(),
        a != b,
        v.legal(Move { x: l.comps[b][0].0, y: l.comps[b][0].1, side }),
    ensures
        !touches(v, l.comps[a], Move { x: l.comps[b][0].0, y: l.comps[b][0].1, side }),
{
    let s = l.comps[b][0];
    let e = Move { x: s.0, y: s.1, side };
    assert(comp_ok(v, l, b));
    lemma_comp_square(v, l, cur, b, 0);
    if touches(v, l.comps[a], e) {
        let i = choose|i: int|
            0 <= i < l.comps[a].len() && (#[trigger] l.comps[a][i] == (e.x, e.y) || v.neighbour(
                e.x,
                e.y,
                e.side,
            ) == Some(l.comps[a][i]));
        let c = l.comps[a][i];
        lemma_comp_square(v, l, cur, a, i);
        if c == s {
            if a < b {
                assert(at(l.marks[a], c));
                assert(at(l.befores[b], c));
            } else {
                assert(at(l.marks[b], c));
                assert(at(l.befores[a], c));
            }
        } else {
            lemma_edge_symmetry(v, e, c);
            if b < a {
                assert(closed_at(v, l.marks[b], s.0, s.1));
                assert(v.neighbour(s.0, s.1, side) == Some(c));
                assert(at(l.marks[b], c));
                assert(at(l.befores[a], c));
            } else {
                assert(closed_at(v, l.marks[a], c.0, c.1));
                assert(v.neighbour(c.0, c.1, opposite_side(side)) == Some(s));
                assert(at(l.marks[a], s));
                assert(at(l.befores[b], s));
            }
        }
    }
}

/// An uncut edge joins squares of one component only.
#[verifier::rlimit(40)]
proof fn lemma_same_comp(
    v: SimpleView,
    l: Layout,
    cur: Seq<Seq<bool>>,
    a: int,
    i: int,
    b: int,
    j: int,
    s: Side,
)
    requires
        v.wf(),
        layout_ok(v, l, cur),
        0 <= a < l.comps.len(),
        0 <= i < l.comps[a].len(),
        0 <= b < l.comps.len(),
        0 <= j < l.comps[b].len(),
        v.legal(Move { x: l.comps[a][i].0, y: l.comps[a][i].1, side: s }),
        v.neighbour(l.comps[a][i].0, l.comps[a][i].1, s) == Some(l.comps[b][j]),
    ensures
        a == b,
{
    let p = l.comps[a][i];
    let n = l.comps[b][j];
    lemma_comp_square(v, l, cur, a, i);
    lemma_comp_square(v, l, cur, b, j);
    lemma_edge_symmetry(v, Move { x: p.0, y: p.1, side: s }, n);
    if a < b {
        assert(closed_at(v, l.marks[a], p.0, p.1));
        assert(at(l.marks[a], n));
        assert(at(l.befores[b], n));
    }
    if b < a {
        assert(closed_at(v, l.marks[b], n.0, n.1));
        assert(v.neighbour(n.0, n.1, opposite_side(s)) == Some(p));
        assert(at(l.marks[b], p));
        assert(at(l.befores[a], p));
    }
}

/// The square of the source as a square of the fragment.
pub open spec fn local(c: (usize, usize), b: Bounds) -> (usize, usize) {
    ((c.0 - b.x_left) as usize, (c.1 - b.y_top) as usize)
}

/// The squares of a component as squares of its fragment.
pub open spec fn local_coords(coords: Seq<(usize, usize)>, b: Bounds) -> Seq<(usize, usize)> {
    Seq::new(coords.len(), |i: int| local(coords[i], b))
}

/// `frag` is as large as the bounds `b` of the component `c` of `v`, and is
/// its board.
#[verifier::opaque]
pub open spec fn snug_shape(v: SimpleView, frag: SimpleView, c: Seq<(usize, usize)>, b: Bounds) -> bool {
    &&& v.wf()
    &&& frag.wf()
    &&& c.len() > 0
    &&& b == bounds_of(c, c.len())
    &&& bounded(v, c, b)
    &&& frag == fragment(v, c)
    &&& frag.width() == b.x_right - b.x_left + 1
    &&& frag.height() == b.y_bottom - b.y_top + 1
}

/// The uncut edges of the fragment are those of the squares of the
/// component, and they join squares of the component only.
#[verifier::opaque]
pub open spec fn snug_edges(v: SimpleView, frag: SimpleView, c: Seq<(usize, usize)>, b: Bounds) -> bool {
    &&& frag_sound(v, frag, c, b)
    &&& frag_complete(v, frag, c, b, c.len() as int)
    &&& forall|i: int, s: Side|
        0 <= i < c.len() && #[trigger] v.legal(Move { x: c[i].0, y: c[i].1, side: s })
            ==> match v.neighbour(c[i].0, c[i].1, s) {
            Some(n) => c.contains(n),
            None => true,
        }
}

/// The squares of the component lie on the board and have an uncut edge,
/// and the first of them is the first in the order of the scan.
#[verifier::opaque]
pub open spec fn snug_order(v: SimpleView, c: Seq<(usize, usize)>) -> bool {
    forall|i: int|
        0 <= i < c.len() ==> v.on_board((#[trigger] c[i]).0, c[i].1) && v.valency(c[i].0, c[i].1)
            >= 1 && !(c[i].0 < c[0].0 || (c[i].0 == c[0].0 && c[i].1 < c[0].1))
}

/// `frag` is the board of the component `c` of `v`, the component is
/// closed under uncut edges, and its first square is its first in the order
/// of the scan.
pub open spec fn snug(v: SimpleView, frag: SimpleView, c: Seq<(usize, usize)>, b: Bounds) -> bool {
    snug_shape(v, frag, c, b) && snug_edges(v, frag, c, b) && snug_order(v, c)
}

/// Each part of a laid-out board is snug.
#[verifier::rlimit(40)]
proof fn lemma_snug(v: SimpleView, l: Layout, cur: Seq<Seq<bool>>, k: int, part: SimplePosition)
    requires
        v.wf(),
        layout_ok(v, l, cur),
        0 <= k < l.comps.len(),
        part_ok(v, part, l.comps[k]),
    ensures
        snug(v, part@, l.comps[k], bounds_of(l.comps[k], l.comps[k].len())),
{
    reveal(snug_shape);
    reveal(snug_edges);
    reveal(snug_order);
    let c = l.comps[k];
    assert(comp_ok(v, l, k));
    assert forall|i: int| 0 <= i < c.len() implies v.on_board((#[trigger] c[i]).0, c[i].1)
        && v.valency(c[i].0, c[i].1) >= 1 && !(c[i].0 < c[0].0 || (c[i].0 == c[0].0 && c[i].1
        < c[0].1)) by {
        lemma_comp_square(v, l, cur, k, i);
        if c[i].0 < c[0].0 || (c[i].0 == c[0].0 && c[i].1 < c[0].1) {
            assert(at(l.befores[k], c[i]));
        }
    }
    assert forall|i: int, s: Side|
        0 <= i < c.len() && #[trigger] v.legal(
            Move { x: c[i].0, y: c[i].1, side: s },
        ) implies match v.neighbour(c[i].0, c[i].1, s) {
        Some(n) => c.contains(n),
        None => true,
    } by {
        match v.neighbour(c[i].0, c[i].1, s) {
            Some(n) => {
                lemma_comp_square(v, l, cur, k, i);
                lemma_edge_symmetry(v, Move { x: c[i].0, y: c[i].1, side: s }, n);
                assert(closed_at(v, l.marks[k], c[i].0, c[i].1));
                assert(at(l.marks[k], n));
                assert(at(cur, n));
                assert(covered(l.comps, n));
                let (a, j) = choose|a: int, j: int|
                    0 <= a < l.comps.len() && 0 <= j < l.comps[a].len() && #[trigger] l.comps[a][j]
                        == n;
                lemma_same_comp(v, l, cur, k, i, a, j, s);
                assert(c[j] == n);
            },
            None => {},
        }
    }
}

/// The marks `g2` on the fragment are the marks `g` on the squares of the
/// component.
pub open spec fn mirrored(
    v: SimpleView,
    frag: SimpleView,
    c: Seq<(usize, usize)>,
    b: Bounds,
    g: Seq<Seq<bool>>,
    g2: Seq<Seq<bool>>,
) -> bool {
    &&& shaped(g, v)
    &&& shaped(g2, frag)
    &&& forall|i: int| 0 <= i < c.len() ==> at(g2, local(#[trigger] c[i], b)) == at(g, c[i])
}

/// Where the square across a side lies within the bounds, it is across
/// that side in the fragment too; where there is none on the board, there
/// is none in the fragment.
proof fn lemma_local_neighbour(v: SimpleView, frag: SimpleView, b: Bounds, p: (usize, usize), s: Side)
    requires
        b.x_left <= b.x_right < v.width(),
        b.y_top <= b.y_bottom < v.height(),
        v.width() <= usize::MAX,
        v.height() <= usize::MAX,
        frag.width() == b.x_right - b.x_left + 1,
        frag.height() == b.y_bottom - b.y_top + 1,
        b.x_left <= p.0 <= b.x_right,
        b.y_top <= p.1 <= b.y_bottom,
    ensures
        match v.neighbour(p.0, p.1, s) {
            Some(n) => b.x_left <= n.0 <= b.x_right && b.y_top <= n.1 <= b.y_bottom
                ==> frag.neighbour(local(p, b).0, local(p, b).1, s) == Some(local(n, b)),
            None => frag.neighbour(local(p, b).0, local(p, b).1, s) is None,
        },
{
}

/// A square of the component has the same uncut edges in the fragment as
/// in the source, and across them the same squares.
#[verifier::rlimit(40)]
proof fn lemma_local_edge(
    v: SimpleView,
    frag: SimpleView,
    c: Seq<(usize, usize)>,
    b: Bounds,
    i: int,
    s: Side,
)
    requires
        snug(v, frag, c, b),
        0 <= i < c.len(),
    ensures
        v.on_board(c[i].0, c[i].1),
        frag.on_board(local(c[i], b).0, local(c[i], b).1),
        frag.legal(Move { x: local(c[i], b).0, y: local(c[i], b).1, side: s }) == v.legal(
            Move { x: c[i].0, y: c[i].1, side: s },
        ),
        v.legal(Move { x: c[i].0, y: c[i].1, side: s }) ==> match v.neighbour(c[i].0, c[i].1, s) {
            Some(n) => c.contains(n) && frag.neighbour(local(c[i], b).0, local(c[i], b).1, s)
                == Some(local(n, b)),
            None => frag.neighbour(local(c[i], b).0, local(c[i], b).1, s) is None,
        },
{
    reveal(snug_edges);
    lemma_snug_bounds(v, frag, c, b, i);
    let p = c[i];
    let q = local(p, b);
    let m = Move { x: p.0, y: p.1, side: s };
    let fm = Move { x: q.0, y: q.1, side: s };
    assert(fm == local_move(p, b, s));
    assert(shifted(fm, b) == m);
    assert(frag.legal(fm) == v.legal(m)) by {
        if v.legal(m) {
            assert(frag.legal(local_move(c[i], b, s)));
        }
        if frag.legal(fm) {
            assert(v.legal(shifted(fm, b)));
        }
    }
    lemma_local_neighbour(v, frag, b, p, s);
    if v.legal(m) {
        match v.neighbour(p.0, p.1, s) {
            Some(n) => {
                assert(c.contains(n));
                let j = choose|j: int| 0 <= j < c.len() && c[j] == n;
                lemma_snug_bounds(v, frag, c, b, j);
            },
            None => {},
        }
    }
}

/// A square of the component lies within the bounds, the bounds on the
/// board, and the fragment is as large as the bounds.
proof fn lemma_snug_bounds(
    v: SimpleView,
    frag: SimpleView,
    c: Seq<(usize, usize)>,
    b: Bounds,
    i: int,
)
    requires
        snug(v, frag, c, b),
        0 <= i < c.len(),
    ensures
        b.x_left <= c[i].0 <= b.x_right < v.width(),
        b.y_top <= c[i].1 <= b.y_bottom < v.height(),
        v.width() <= usize::MAX,
        v.height() <= usize::MAX,
        frag.width() == b.x_right - b.x_left + 1,
        frag.height() == b.y_bottom - b.y_top + 1,
{
    reveal(snug_shape);
}

/// Different squares of the component are different squares of the
/// fragment, and marking one marks no other.
#[verifier::rlimit(40)]
proof fn lemma_local_mark(
    v: SimpleView,
    frag: SimpleView,
    c: Seq<(usize, usize)>,
    b: Bounds,
    i: int,
    j: int,
    g: Seq<Seq<bool>>,
    g2: Seq<Seq<bool>>,
)
    requires
        snug(v, frag, c, b),
        0 <= i < c.len(),
        0 <= j < c.len(),
        mirrored(v, frag, c, b, g, g2),
    ensures
        at(marked(g2, local(c[i], b).0 as int, local(c[i], b).1 as int), local(c[j], b)) == at(
            marked(g, c[i].0 as int, c[i].1 as int),
            c[j],
        ),
        at(g, c[j]) ==> at(marked(g, c[i].0 as int, c[i].1 as int), c[j]),
        at(marked(g, c[i].0 as int, c[i].1 as int), c[i]),
        shaped(marked(g, c[i].0 as int, c[i].1 as int), v),
        shaped(marked(g2, local(c[i], b).0 as int, local(c[i], b).1 as int), frag),
{
    lemma_snug_bounds(v, frag, c, b, i);
    lemma_snug_bounds(v, frag, c, b, j);
    assert(at(g2, local(c[j], b)) == at(g, c[j]));
    assert(at(g2, local(c[i], b)) == at(g, c[i]));
    let p = c[i];
    let q = local(p, b);
    let pj = c[j];
    let qj = local(pj, b);
    assert((q == qj) == (p == pj));
    assert(0 <= p.0 < g.len() && 0 <= p.1 < g[p.0 as int].len());
    assert(0 <= q.0 < g2.len() && 0 <= q.1 < g2[q.0 as int].len());
    assert(0 <= pj.0 < g.len() && 0 <= pj.1 < g[pj.0 as int].len());
    assert(0 <= qj.0 < g2.len() && 0 <= qj.1 < g2[qj.0 as int].len());
}

/// The search in the fragment goes as the search in the source goes.
#[verifier::rlimit(40)]
proof fn lemma_sim_from(
    v: SimpleView,
    frag: SimpleView,
    c: Seq<(usize, usize)>,
    b: Bounds,
    i: int,
    st: Search,
    st2: Search,
)
    requires
        snug(v, frag, c, b),
        0 <= i < c.len(),
        !at(st.visited, c[i]),
        mirrored(v, frag, c, b, st.visited, st2.visited),
        st2.coords == local_coords(st.coords, b),
    ensures
        mirrored(
            v,
            frag,
            c,
            b,
            search_from(v, c[i].0, c[i].1, st).visited,
            search_from(frag, local(c[i], b).0, local(c[i], b).1, st2).visited,
        ),
        search_from(frag, local(c[i], b).0, local(c[i], b).1, st2).coords == local_coords(
            search_from(v, c[i].0, c[i].1, st).coords,
            b,
        ),
        grid_free(search_from(v, c[i].0, c[i].1, st).visited) <= grid_free(st.visited),
        grid_free(search_from(frag, local(c[i], b).0, local(c[i], b).1, st2).visited) <= grid_free(
            st2.visited,
        ),
        at(search_from(v, c[i].0, c[i].1, st).visited, c[i]),
        forall|j: int|
            0 <= j < c.len() && at(st.visited, #[trigger] c[j]) ==> at(
                search_from(v, c[i].0, c[i].1, st).visited,
                c[j],
            ),
    decreases grid_free(st.visited), 0nat,
{
    let p = c[i];
    let q = local(p, b);
    lemma_local_edge(v, frag, c, b, i, Side::Top);
    let first = Search {
        visited: marked(st.visited, p.0 as int, p.1 as int),
        coords: st.coords.push(p),
    };
    let first2 = Search {
        visited: marked(st2.visited, q.0 as int, q.1 as int),
        coords: st2.coords.push(q),
    };
    lemma_grid_mark(st.visited, p.0 as int, p.1 as int);
    assert(!at(st2.visited, local(c[i], b)));
    lemma_grid_mark(st2.visited, q.0 as int, q.1 as int);
    assert(first2.coords =~= local_coords(first.coords, b));
    lemma_local_mark(v, frag, c, b, i, i, st.visited, st2.visited);
    assert forall|j: int| 0 <= j < c.len() implies at(first2.visited, local(#[trigger] c[j], b))
        == at(first.visited, c[j]) by {
        lemma_local_mark(v, frag, c, b, i, j, st.visited, st2.visited);
    }
    assert(mirrored(v, frag, c, b, first.visited, first2.visited));
    lemma_sim_sides(v, frag, c, b, i, 0, first, first2);
    assert forall|j: int| 0 <= j < c.len() && at(st.visited, #[trigger] c[j]) implies at(
        first.visited,
        c[j],
    ) by {
        lemma_local_mark(v, frag, c, b, i, j, st.visited, st2.visited);
    }
}

/// `lemma_sim_from` for the sides from number `k` on of a square.
#[verifier::rlimit(40)]
proof fn lemma_sim_sides(
    v: SimpleView,
    frag: SimpleView,
    c: Seq<(usize, usize)>,
    b: Bounds,
    i: int,
    k: nat,
    st: Search,
    st2: Search,
)
    requires
        snug(v, frag, c, b),
        0 <= i < c.len(),
        mirrored(v, frag, c, b, st.visited, st2.visited),
        st2.coords == local_coords(st.coords, b),
    ensures
        mirrored(
            v,
            frag,
            c,
            b,
            search_sides(v, c[i].0, c[i].1, k, st).visited,
            search_sides(frag, local(c[i], b).0, local(c[i], b).1, k, st2).visited,
        ),
        search_sides(frag, local(c[i], b).0, local(c[i], b).1, k, st2).coords == local_coords(
            search_sides(v, c[i].0, c[i].1, k, st).coords,
            b,
        ),
        grid_free(search_sides(v, c[i].0, c[i].1, k, st).visited) <= grid_free(st.visited),
        grid_free(search_sides(frag, local(c[i], b).0, local(c[i], b).1, k, st2).visited)
            <= grid_free(st2.visited),
        forall|j: int|
            0 <= j < c.len() && at(st.visited, #[trigger] c[j]) ==> at(
                search_sides(v, c[i].0, c[i].1, k, st).visited,
                c[j],
            ),
    decreases grid_free(st.visited), 5 - k,
{
    if k < 4 {
        let p = c[i];
        let q = local(p, b);
        let side = all_sides()[k as int];
        lemma_local_edge(v, frag, c, b, i, side);
        let go = frontier(v, st.visited, p.0, p.1, side);
        let go2 = frontier(frag, st2.visited, q.0, q.1, side);
        match go {
            Some(n) => {
                let j = choose|j: int| 0 <= j < c.len() && c[j] == n;
                assert(at(st2.visited, local(c[j], b)) == at(st.visited, c[j]));
                assert(go2 == Some(local(n, b)));
                lemma_sim_from(v, frag, c, b, j, st, st2);
                let next = search_from(v, n.0, n.1, st);
                let next2 = search_from(frag, local(n, b).0, local(n, b).1, st2);
                lemma_sim_sides(v, frag, c, b, i, k + 1, next, next2);
            },
            None => {
                if v.legal(Move { x: p.0, y: p.1, side }) {
                    match v.neighbour(p.0, p.1, side) {
                        Some(n) => {
                            let j = choose|j: int| 0 <= j < c.len() && c[j] == n;
                            assert(at(st2.visited, local(c[j], b)) == at(st.visited, c[j]));
                        },
                        None => {},
                    }
                }
                assert(go2 is None);
                lemma_sim_sides(v, frag, c, b, i, k + 1, st, st2);
            },
        }
    }
}

/// A square of the fragment with an uncut edge is a square of the
/// component.
#[verifier::rlimit(40)]
proof fn lemma_local_open(
    v: SimpleView,
    frag: SimpleView,
    c: Seq<(usize, usize)>,
    b: Bounds,
    q: (usize, usize),
) -> (i: int)
    requires
        snug(v, frag, c, b),
        frag.valency(q.0, q.1) >= 1,
    ensures
        0 <= i < c.len(),
        local(c[i], b) == q,
{
    reveal(snug_edges);
    assert(v.wf() && c.len() > 0) by {
        reveal(snug_shape);
    }
    lemma_snug_bounds(v, frag, c, b, 0);
    let s = lemma_open_side(frag, q.0, q.1);
    let fm = Move { x: q.0, y: q.1, side: s };
    let m = shifted(fm, b);
    assert(frag.legal(fm));
    assert(v.legal(m) && touches(v, c, m));
    let w = choose|w: int|
        0 <= w < c.len() && (#[trigger] c[w] == (m.x, m.y) || v.neighbour(m.x, m.y, m.side)
            == Some(c[w]));
    if c[w] == (m.x, m.y) {
        w
    } else {
        lemma_edge_symmetry(v, m, c[w]);
        assert(v.legal(Move { x: c[w].0, y: c[w].1, side: opposite_side(s) }));
        assert(c.contains((m.x, m.y)));
        choose|j: int| 0 <= j < c.len() && c[j] == (m.x, m.y)
    }
}

/// The scan passes over square `(x, y)`: it is marked or has no uncut edge.
pub open spec fn idle(frag: SimpleView, g: Seq<Seq<bool>>, x: int, y: int) -> bool {
    g[x][y] || frag.valency(x as usize, y as usize) == 0
}

/// Scanning squares that are marked or have no uncut edge changes nothing.
proof fn lemma_scan_column_skip(frag: SimpleView, x: usize, n: nat, st: Scan)
    requires
        forall|y: int| 0 <= y < n ==> #[trigger] idle(frag, st.visited, x as int, y),
        n <= usize::MAX,
    ensures
        scan_column(frag, x, n, st) == st,
    decreases n,
{
    if n > 0 {
        lemma_scan_column_skip(frag, x, (n - 1) as nat, st);
        assert(idle(frag, st.visited, x as int, n - 1));
    }
}

/// Scanning columns of squares that are marked or have no uncut edge
/// changes nothing.
proof fn lemma_scan_grid_skip(frag: SimpleView, from: nat, n: nat, st: Scan, start: Scan)
    requires
        from <= n <= usize::MAX,
        frag.height() <= usize::MAX,
        scan_grid(frag, from, start) == st,
        forall|x: int, y: int|
            from <= x < n && 0 <= y < frag.height() ==> #[trigger] idle(frag, st.visited, x, y),
    ensures
        scan_grid(frag, n, start) == st,
    decreases n - from,
{
    if from < n {
        lemma_scan_grid_skip(frag, from, (n - 1) as nat, st, start);
        assert forall|y: int| 0 <= y < frag.height() implies #[trigger] idle(
            frag,
            st.visited,
            ((n - 1) as usize) as int,
            y,
        ) by {
            assert(idle(frag, st.visited, n - 1, y));
        }
        lemma_scan_column_skip(frag, (n - 1) as usize, frag.height(), st);
    }
}

/// Once a column's scan has reached `found`, squares that are marked in it
/// or have no uncut edge leave it there.
proof fn lemma_scan_column_tail(frag: SimpleView, x: usize, from: nat, n: nat, st: Scan, found: Scan)
    requires
        from <= n <= usize::MAX,
        scan_column(frag, x, from, st) == found,
        forall|y: int| from <= y < n ==> #[trigger] idle(frag, found.visited, x as int, y),
    ensures
        scan_column(frag, x, n, st) == found,
    decreases n - from,
{
    if from < n {
        lemma_scan_column_tail(frag, x, from, (n - 1) as nat, st, found);
        assert(idle(frag, found.visited, x as int, n - 1));
    }
}

/// The bounds of the squares of the fragment are the bounds of the squares
/// of the component, moved to the corner.
proof fn lemma_bounds_local(c: Seq<(usize, usize)>, b: Bounds, n: nat)
    requires
        c.len() > 0,
        n <= c.len(),
        forall|i: int|
            0 <= i < c.len() ==> b.x_left <= (#[trigger] c[i]).0 && b.y_top <= c[i].1,
    ensures
        bounds_of(local_coords(c, b), n) == (Bounds {
            x_left: (bounds_of(c, n).x_left - b.x_left) as usize,
            x_right: (bounds_of(c, n).x_right - b.x_left) as usize,
            y_top: (bounds_of(c, n).y_top - b.y_top) as usize,
            y_bottom: (bounds_of(c, n).y_bottom - b.y_top) as usize,
        }),
        b.x_left <= bounds_of(c, n).x_left,
        b.x_left <= bounds_of(c, n).x_right,
        b.y_top <= bounds_of(c, n).y_top,
        b.y_top <= bounds_of(c, n).y_bottom,
    decreases n,
{
    assert(b.x_left <= c[0].0 && b.y_top <= c[0].1);
    if n > 0 {
        lemma_bounds_local(c, b, (n - 1) as nat);
        assert(b.x_left <= c[n - 1].0 && b.y_top <= c[n - 1].1);
    }
}

/// Copying the sides of a square from the fragment gives what copying them
/// from the source gave.
proof fn lemma_fill_sides_local(
    v: SimpleView,
    frag: SimpleView,
    c: Seq<(usize, usize)>,
    b: Bounds,
    b0: Bounds,
    f: SimpleView,
    i: int,
    k: nat,
)
    requires
        snug(v, frag, c, b),
        0 <= i < c.len(),
        b0.x_left == 0,
        b0.y_top == 0,
    ensures
        fill_sides(frag, f, local(c[i], b), b0, k) == fill_sides(v, f, c[i], b, k),
    decreases 4 - k,
{
    if k < 4 {
        let side = all_sides()[k as int];
        lemma_local_edge(v, frag, c, b, i, side);
        let fm = local_move(c[i], b, side);
        assert(local_move(local(c[i], b), b0, side) == fm);
        let next = if v.legal(Move { x: c[i].0, y: c[i].1, side }) && !f.legal(fm) {
            f.uncut(fm)
        } else {
            f
        };
        lemma_fill_sides_local(v, frag, c, b, b0, next, i, k + 1);
    }
}

/// Building the fragment from its own squares gives what building it from
/// the squares of the source gave.
proof fn lemma_fill_local(
    v: SimpleView,
    frag: SimpleView,
    c: Seq<(usize, usize)>,
    b: Bounds,
    b0: Bounds,
    f: SimpleView,
    n: nat,
)
    requires
        snug(v, frag, c, b),
        n <= c.len(),
        b0.x_left == 0,
        b0.y_top == 0,
    ensures
        fill_coords(frag, f, local_coords(c, b), b0, n) == fill_coords(v, f, c, b, n),
    decreases n,
{
    if n > 0 {
        lemma_fill_local(v, frag, c, b, b0, f, (n - 1) as nat);
        lemma_fill_sides_local(v, frag, c, b, b0, fill_coords(v, f, c, b, (n - 1) as nat), n - 1, 0);
    }
}

/// A part does not fall apart again: it has one component, all of its
/// squares that have an uncut edge, and the board of that component is the
/// part itself.
#[verifier::rlimit(40)]
proof fn lemma_one_part(
    v: SimpleView,
    frag: SimpleView,
    c: Seq<(usize, usize)>,
    b: Bounds,
    before: Seq<Seq<bool>>,
    after: Seq<Seq<bool>>,
)
    requires
        snug(v, frag, c, b),
        shaped(before, v),
        forall|i: int| 0 <= i < c.len() ==> !at(before, #[trigger] c[i]),
        (Search { visited: after, coords: c }) == search_from(
            v,
            c[0].0,
            c[0].1,
            Search { visited: before, coords: Seq::empty() },
        ),
    ensures
        split_model(frag) == seq![frag],
{
    let c2 = local_coords(c, b);
    let start = scan_start(frag);
    let st = Search { visited: before, coords: Seq::<(usize, usize)>::empty() };
    let st2 = Search { visited: start.visited, coords: Seq::<(usize, usize)>::empty() };
    let seed = local(c[0], b);
    assert(c.len() > 0 && frag.wf() && v.wf()) by {
        reveal(snug_shape);
    }
    lemma_local_edge(v, frag, c, b, 0, Side::Top);
    assert(shaped(start.visited, frag));
    assert forall|i: int| 0 <= i < c.len() implies at(start.visited, local(#[trigger] c[i], b))
        == at(before, c[i]) by {
        lemma_local_edge(v, frag, c, b, i, Side::Top);
    }
    assert(st2.coords =~= local_coords(st.coords, b));
    lemma_sim_from(v, frag, c, b, 0, st, st2);
    let found2 = search_from(frag, seed.0, seed.1, st2);
    assert(found2.coords == c2);
    // Every square of the component is marked once the search is over.
    assert forall|i: int| 0 <= i < c.len() implies at(after, #[trigger] c[i]) by {
        lemma_marks_all(v, frag, c, b, i, st, after);
    }
    let done = Scan { visited: found2.visited, comps: seq![c2] };
    // Squares with an uncut edge are marked once the search is over.
    assert forall|x: int, y: int|
        0 <= x < frag.width() && 0 <= y < frag.height() implies #[trigger] idle(
        frag,
        done.visited,
        x,
        y,
    ) by {
        if frag.valency(x as usize, y as usize) >= 1 {
            let i = lemma_local_open(v, frag, c, b, (x as usize, y as usize));
            assert(at(found2.visited, local(c[i], b)) == at(after, c[i]));
        }
    }
    // No square before the first has an uncut edge.
    assert forall|x: int, y: int|
        0 <= x < frag.width() && 0 <= y < frag.height() && (x < seed.0 || (x == seed.0 && y
            < seed.1)) implies #[trigger] idle(frag, start.visited, x, y) by {
        if frag.valency(x as usize, y as usize) >= 1 {
            let i = lemma_local_open(v, frag, c, b, (x as usize, y as usize));
            lemma_first_square(v, frag, c, b, i);
        }
    }
    lemma_scan_grid_skip(frag, 0, seed.0 as nat, start, start);
    lemma_scan_column_skip(frag, seed.0, seed.1 as nat, start);
    lemma_open_valency(v, frag, c, b);
    assert(scan_cell(frag, seed.0, seed.1, start) == done) by {
        assert(start.comps.push(found2.coords) =~= seq![c2]);
    }
    assert(scan_column(frag, seed.0, (seed.1 + 1) as nat, start) == done);
    lemma_scan_column_tail(frag, seed.0, (seed.1 + 1) as nat, frag.height(), start, done);
    assert(scan_grid(frag, (seed.0 + 1) as nat, start) == done);
    lemma_scan_grid_skip(frag, (seed.0 + 1) as nat, frag.width(), done, start);
    assert(components(frag) == seq![c2]);
    // The board of the one component is the part itself.
    lemma_refill(v, frag, c, b);
    assert(split_model(frag) =~= seq![frag]);
}

/// The first square of the component has an uncut edge in the fragment.
proof fn lemma_open_valency(v: SimpleView, frag: SimpleView, c: Seq<(usize, usize)>, b: Bounds)
    requires
        snug(v, frag, c, b),
    ensures
        c.len() > 0,
        frag.valency(local(c[0], b).0, local(c[0], b).1) >= 1,
{
    assert(c.len() > 0) by {
        reveal(snug_shape);
    }
    assert(v.valency(c[0].0, c[0].1) >= 1) by {
        reveal(snug_order);
    }
    let s = lemma_open_side(v, c[0].0, c[0].1);
    lemma_local_edge(v, frag, c, b, 0, s);
    lemma_legal_valency(frag, Move { x: local(c[0], b).0, y: local(c[0], b).1, side: s });
}

/// No square of the component comes before its first square in the order
/// of the scan, in the fragment as in the source.
proof fn lemma_first_square(v: SimpleView, frag: SimpleView, c: Seq<(usize, usize)>, b: Bounds, i: int)
    requires
        snug(v, frag, c, b),
        0 <= i < c.len(),
    ensures
        !(local(c[i], b).0 < local(c[0], b).0 || (local(c[i], b).0 == local(c[0], b).0 && local(
            c[i],
            b,
        ).1 < local(c[0], b).1)),
{
    lemma_snug_bounds(v, frag, c, b, i);
    lemma_snug_bounds(v, frag, c, b, 0);
    assert(!(c[i].0 < c[0].0 || (c[i].0 == c[0].0 && c[i].1 < c[0].1))) by {
        reveal(snug_order);
    }
}

/// A search marks the squares that it reaches.
proof fn lemma_marks_all(
    v: SimpleView,
    frag: SimpleView,
    c: Seq<(usize, usize)>,
    b: Bounds,
    i: int,
    st: Search,
    after: Seq<Seq<bool>>,
)
    requires
        snug(v, frag, c, b),
        0 <= i < c.len(),
        st.coords.len() == 0,
        shaped(st.visited, v),
        !at(st.visited, c[0]),
        (Search { visited: after, coords: c }) == search_from(v, c[0].0, c[0].1, st),
    ensures
        at(after, c[i]),
{
    assert(v.wf() && c.len() > 0) by {
        reveal(snug_shape);
    }
    assert(v.on_board(c[0].0, c[0].1)) by {
        reveal(snug_order);
    }
    lemma_search_marks(v, c[0].0, c[0].1, st);
    let r = search_from(v, c[0].0, c[0].1, st);
    assert(r.coords[i] == c[i]);
}

/// Building the fragment from its own squares gives the fragment.
#[verifier::rlimit(40)]
proof fn lemma_refill(v: SimpleView, frag: SimpleView, c: Seq<(usize, usize)>, b: Bounds)
    requires
        snug(v, frag, c, b),
    ensures
        fragment(frag, local_coords(c, b)) == frag,
{
    let c2 = local_coords(c, b);
    assert(c.len() > 0 && b == bounds_of(c, c.len()) && bounded(v, c, b) && frag == fragment(v, c)
        && frag.width() == b.x_right - b.x_left + 1 && frag.height() == b.y_bottom - b.y_top + 1)
        by {
        reveal(snug_shape);
    }
    lemma_bounds_local(c, b, c.len());
    let b0 = bounds_of(c2, c2.len());
    let empty = blank(
        (b.x_right - b.x_left + 1) as nat,
        (b.y_bottom - b.y_top + 1) as nat,
        false,
    );
    assert(blank((b0.x_right - b0.x_left + 1) as nat, (b0.y_bottom - b0.y_top + 1) as nat, false)
        == empty);
    lemma_fill_local(v, frag, c, b, b0, empty, c.len());
}

/// The name in the source of the edge that the fragment's move `m` names.
pub open spec fn source_edge(m: Move, b: Bounds) -> Move {
    canonical(shifted(m, b))
}

/// A fragment has no more legal moves than its source, and fewer if the
/// source has an uncut edge that is no edge of a square of the component.
#[verifier::rlimit(40)]
proof fn lemma_fragment_size(
    v: SimpleView,
    frag: SimpleView,
    coords: Seq<(usize, usize)>,
    b: Bounds,
    outside: Option<Move>,
)
    requires
        v.wf(),
        frag.wf(),
        bounded(v, coords, b),
        frag.width() == b.x_right - b.x_left + 1,
        frag.height() == b.y_bottom - b.y_top + 1,
        frag_sound(v, frag, coords, b),
        match outside {
            Some(e) => v.legal(e) && !touches(v, coords, e),
            None => true,
        },
    ensures
        frag.moves().len() <= v.moves().len(),
        outside is Some ==> frag.moves().len() < v.moves().len(),
{
    lemma_moves_exact(v);
    lemma_moves_exact(frag);
    let fm = frag.moves();
    let img = Seq::new(fm.len(), |i: int| source_edge(fm[i], b));
    assert forall|i: int| 0 <= i < fm.len() implies frag.legal(#[trigger] fm[i]) && canonical(fm[i])
        == fm[i] by {
        assert(fm.contains(fm[i]));
    }
    assert forall|i: int, j: int| 0 <= i < img.len() && 0 <= j < img.len() && i != j implies img[i]
        != img[j] by {
        assert(frag.legal(fm[i]) && frag.legal(fm[j]));
        assert(fm[i] != fm[j]);
    }
    assert(img.no_duplicates());
    img.unique_seq_to_set();
    v.moves().unique_seq_to_set();
    vstd::seq_lib::seq_to_set_is_finite(v.moves());
    vstd::seq_lib::seq_to_set_is_finite(img);
    let target = match outside {
        Some(e) => v.moves().to_set().remove(canonical(e)),
        None => v.moves().to_set(),
    };
    assert forall|m: Move| img.to_set().contains(m) implies target.contains(m) by {
        let i = choose|i: int| 0 <= i < img.len() && img[i] == m;
        let f = fm[i];
        assert(frag.legal(f));
        assert(v.legal(shifted(f, b)) && touches(v, coords, shifted(f, b)));
        lemma_same_edge(v, shifted(f, b), shifted(f, b));
        assert(v.moves().contains(m));
        match outside {
            Some(e) => {
                lemma_same_edge(v, e, shifted(f, b));
                if canonical(e) == m {
                    let t = shifted(f, b);
                    let w = choose|w: int|
                        0 <= w < coords.len() && (#[trigger] coords[w] == (t.x, t.y) || v.neighbour(
                            t.x,
                            t.y,
                            t.side,
                        ) == Some(coords[w]));
                    assert(v.same_edge(e, t));
                    if e != t {
                        lemma_edge_symmetry(v, e, (t.x, t.y));
                    }
                    assert(coords[w] == (e.x, e.y) || v.neighbour(e.x, e.y, e.side) == Some(
                        coords[w],
                    ));
                }
            },
            None => {},
        }
    }
    assert(img.to_set().subset_of(target));
    vstd::set_lib::lemma_len_subset(img.to_set(), target);
    match outside {
        Some(e) => {
            lemma_same_edge(v, e, e);
            assert(v.moves().contains(canonical(e)));
            assert(v.moves().to_set().contains(canonical(e)));
        },
        None => {},
    }
}

/// A square with an uncut edge has a legal move.
proof fn lemma_open_side(v: SimpleView, x: usize, y: usize) -> (s: Side)
    requires
        v.valency(x, y) >= 1,
    ensures
        v.legal(Move { x, y, side: s }),
{
    if v.legal(Move { x, y, side: Side::Top }) {
        Side::Top
    } else if v.legal(Move { x, y, side: Side::Bottom }) {
        Side::Bottom
    } else if v.legal(Move { x, y, side: Side::Left }) {
        Side::Left
    } else {
        Side::Right
    }
}

/// What splitting promises of the size of the parts: each has a legal move
/// and no more of them than the whole, and fewer where there are several
/// parts.
pub open spec fn parts_smaller(parts: Seq<SimpleView>, whole: nat) -> bool {
    &&& forall|k: int| 0 <= k < parts.len() ==> 1 <= (#[trigger] parts[k]).moves().len() <= whole
    &&& parts.len() > 1 ==> forall|k: int|
        0 <= k < parts.len() ==> (#[trigger] parts[k]).moves().len() < whole
}

/// The parts of a laid-out board are smaller than the board.
#[verifier::rlimit(40)]
proof fn lemma_parts_smaller(
    v: SimpleView,
    l: Layout,
    cur: Seq<Seq<bool>>,
    parts: Seq<SimplePosition>,
)
    requires
        v.wf(),
        layout_ok(v, l, cur),
        parts.len() == l.comps.len(),
        forall|k: int| 0 <= k < parts.len() ==> part_ok(v, #[trigger] parts[k], l.comps[k]),
    ensures
        parts_smaller(fragments(v, l.comps), v.moves().len()),
{
    let views = fragments(v, l.comps);
    assert forall|k: int| 0 <= k < views.len() implies 1 <= (#[trigger] views[k]).moves().len()
        <= v.moves().len() && (views.len() > 1 ==> views[k].moves().len() < v.moves().len()) by {
        let coords = l.comps[k];
        let b = bounds_of(coords, coords.len());
        assert(comp_ok(v, l, k));
        assert(part_ok(v, parts[k], coords));
        let frag = parts[k]@;
        lemma_fragment_size(v, frag, coords, b, None);
        lemma_comp_square(v, l, cur, k, 0);
        let s = lemma_open_side(v, coords[0].0, coords[0].1);
        assert(frag.legal(local_move(coords[0], b, s)));
        lemma_finished(frag);
        if views.len() > 1 {
            let other: int = if k == 0 {
                1
            } else {
                0
            };
            assert(comp_ok(v, l, other));
            lemma_comp_square(v, l, cur, other, 0);
            let so = lemma_open_side(v, l.comps[other][0].0, l.comps[other][0].1);
            lemma_apart(v, l, cur, k, other, so);
            lemma_fragment_size(
                v,
                frag,
                coords,
                b,
                Some(Move { x: l.comps[other][0].0, y: l.comps[other][0].1, side: so }),
            );
        }
    }
}

/// The scan stays complete when a search from `(x, y)` has marked more
/// squares.
proof fn lemma_scanned_found(v: SimpleView, cur: Seq<Seq<bool>>, found: Search, x: usize, y: usize)
    requires
        v.wf(),
        v.on_board(x, y),
        shaped(cur, v),
        scanned(v, cur, x as int, y as int),
        extends(v, Search { visited: cur, coords: Seq::empty() }, found),
        found.coords.len() > 0,
        found.coords[0] == (x, y),
    ensures
        scanned(v, found.visited, x as int, y + 1),
{
    assert forall|c: (usize, usize)|
        v.on_board(c.0, c.1) && (c.0 < x || (c.0 == x && c.1 < y + 1)) && v.valency(c.0, c.1)
            >= 1 implies #[trigger] at(found.visited, c) by {
        if c == (x, y) {
            assert(found.coords[0] == (x, y));
        } else {
            assert(at(cur, c));
            assert(cur[c.0 as int][c.1 as int]);
        }
    }
}

/// The scan stays complete when `(x, y)` needs no search.
proof fn lemma_scanned_skip(v: SimpleView, cur: Seq<Seq<bool>>, x: usize, y: usize)
    requires
        v.on_board(x, y),
        scanned(v, cur, x as int, y as int),
        at(cur, (x, y)) || v.valency(x, y) == 0,
    ensures
        scanned(v, cur, x as int, y + 1),
{
    assert forall|c: (usize, usize)|
        v.on_board(c.0, c.1) && (c.0 < x || (c.0 == x && c.1 < y + 1)) && v.valency(c.0, c.1)
            >= 1 implies #[trigger] at(cur, c) by {
        if c == (x, y) {
        } else {
            assert(at(cur, c));
        }
    }
}

/// One step of the scan: if square `(x, y)` is unmarked and has an uncut
/// edge, its component is searched and its board added to `result`.
#[verifier::rlimit(40)]
fn scan_square(
    pos: &SimplePosition,
    x: usize,
    y: usize,
    visited: &mut Vec<Vec<bool>>,
    result: &mut Vec<SimplePosition>,
    Ghost(l): Ghost<Layout>,
) -> (next: Ghost<Layout>)
    requires
        pos.wf(),
        pos@.on_board(x, y),
        layout_ok(pos@, l, grid_of(*old(visited))),
        scanned(pos@, grid_of(*old(visited)), x as int, y as int),
        old(result)@.len() == l.comps.len(),
        forall|k: int|
            0 <= k < old(result)@.len() ==> part_ok(pos@, #[trigger] old(result)@[k], l.comps[k]),
    ensures
        layout_ok(pos@, next@, grid_of(*final(visited))),
        scanned(pos@, grid_of(*final(visited)), x as int, y + 1),
        (Scan { visited: grid_of(*final(visited)), comps: next@.comps }) == scan_cell(
            pos@,
            x,
            y,
            Scan { visited: grid_of(*old(visited)), comps: l.comps },
        ),
        final(result)@.len() == next@.comps.len(),
        forall|k: int|
            0 <= k < final(result)@.len() ==> part_ok(
                pos@,
                #[trigger] final(result)@[k],
                next@.comps[k],
            ),
{
    let ghost v = pos@;
    let ghost cur = grid_of(*visited);
    assert(visited@[x as int]@ == cur[x as int]);
    if !visited[x][y] && pos.valency(x, y) > 0 {
        let mut frag_coords: Vec<(usize, usize)> = Vec::new();
        search(pos, x, y, visited, &mut frag_coords);
        let ghost found = Search { visited: grid_of(*visited), coords: frag_coords@ };
        proof {
            lemma_layout_push(v, l, cur, found);
            lemma_scanned_found(v, cur, found, x, y);
        }
        let part = make_fragment(pos, &frag_coords);
        let ghost before = result@;
        result.push(part);
        let ghost l2 = layout_push(l, cur, found);
        proof {
            assert forall|k: int| 0 <= k < result@.len() implies part_ok(
                v,
                #[trigger] result@[k],
                l2.comps[k],
            ) by {
                if k < before.len() {
                    assert(result@[k] == before[k]);
                    assert(l2.comps[k] == l.comps[k]);
                }
            }
        }
        Ghost(l2)
    } else {
        proof {
            lemma_scanned_skip(v, cur, x, y);
        }
        Ghost(l)
    }
}

/// A part of a laid-out board does not fall apart again.
proof fn lemma_part_alone(v: SimpleView, l: Layout, cur: Seq<Seq<bool>>, k: int, part: SimplePosition)
    requires
        v.wf(),
        layout_ok(v, l, cur),
        0 <= k < l.comps.len(),
        part_ok(v, part, l.comps[k]),
    ensures
        split_model(part@) == seq![part@],
{
    let c = l.comps[k];
    lemma_snug(v, l, cur, k, part);
    assert(comp_ok(v, l, k));
    assert forall|i: int| 0 <= i < c.len() implies !at(l.befores[k], #[trigger] c[i]) by {
        lemma_comp_square(v, l, cur, k, i);
    }
    lemma_one_part(v, part@, c, bounds_of(c, c.len()), l.befores[k], l.marks[k]);
}

/// A position that can be split into independent parts.
pub trait SplittablePosition<M: Copy>: Position<M> {
    /// The independent parts of the position, in the order of the scan.
    spec fn parts_of(v: Self::V) -> Seq<SimpleView>;

    /// Splits the position into its independent parts. A position that
    /// hangs together comes back as one part; squares without an uncut edge
    /// belong to no part.
    fn split(&self) -> (parts: Vec<SimplePosition>)
        requires
            self.wf(),
        ensures
            parts@.len() == Self::parts_of(self@).len(),
            forall|k: int|
                0 <= k < parts@.len() ==> (#[trigger] parts@[k]).wf() && parts@[k]@
                    == Self::parts_of(self@)[k],
            parts_smaller(Self::parts_of(self@), Self::moves_in(self@).len()),
    ;
}

impl SplittablePosition<Move> for SimplePosition {
    open spec fn parts_of(v: SimpleView) -> Seq<SimpleView> {
        split_model(v)
    }

    #[verifier::rlimit(40)]
    fn split(&self) -> (parts: Vec<SimplePosition>)
        ensures
            partition_of(self@, components(self@)),
            forall|k: int|
                0 <= k < parts@.len() ==> part_ok(self@, #[trigger] parts@[k], components(self@)[k]),
            forall|k: int|
                0 <= k < parts@.len() ==> split_model((#[trigger] parts@[k])@) == seq![parts@[k]@],
    {
        let ghost v = self@;
        let w = self.width();
        let h = self.height();
        let mut visited: Vec<Vec<bool>> = Vec::with_capacity(w);
        let mut x: usize = 0;
        while x < w
            invariant
                x <= w,
                visited@.len() == x,
                forall|a: int| 0 <= a < x ==> visited@[a]@ == Seq::new(h as nat, |y: int| false),
            decreases w - x,
        {
            visited.push(filled(h, false));
            x += 1;
        }
        assert(grid_of(visited) =~~= scan_start(v).visited);
        let mut result: Vec<SimplePosition> = Vec::new();
        let ghost mut l = Layout { comps: Seq::empty(), befores: Seq::empty(), marks: Seq::empty() };
        x = 0;
        while x < w
            invariant
                x <= w,
                self.wf(),
                v == self@,
                w == v.width(),
                h == v.height(),
                layout_ok(v, l, grid_of(visited)),
                scanned(v, grid_of(visited), x as int, 0),
                (Scan { visited: grid_of(visited), comps: l.comps }) == scan_grid(
                    v,
                    x as nat,
                    scan_start(v),
                ),
                result@.len() == l.comps.len(),
                forall|k: int| 0 <= k < result@.len() ==> part_ok(v, #[trigger] result@[k], l.comps[k]),
            decreases w - x,
        {
            let ghost column_start = Scan { visited: grid_of(visited), comps: l.comps };
            let mut y: usize = 0;
            while y < h
                invariant
                    y <= h,
                    x < w,
                    self.wf(),
                    v == self@,
                    w == v.width(),
                    h == v.height(),
                    layout_ok(v, l, grid_of(visited)),
                    scanned(v, grid_of(visited), x as int, y as int),
                    (Scan { visited: grid_of(visited), comps: l.comps }) == scan_column(
                        v,
                        x,
                        y as nat,
                        column_start,
                    ),
                    result@.len() == l.comps.len(),
                    forall|k: int|
                        0 <= k < result@.len() ==> part_ok(v, #[trigger] result@[k], l.comps[k]),
                decreases h - y,
            {
                let next = scan_square(self, x, y, &mut visited, &mut result, Ghost(l));
                proof {
                    l = next@;
                }
                y += 1;
            }
            proof {
                assert forall|c: (usize, usize)|
                    v.on_board(c.0, c.1) && (c.0 < x + 1 || (c.0 == x + 1 && c.1 < 0)) && v.valency(
                        c.0,
                        c.1,
                    ) >= 1 implies #[trigger] at(grid_of(visited), c) by {}
            }
            x += 1;
        }
        proof {
            assert(l.comps == components(v));
            assert forall|x: usize, y: usize|
                v.on_board(x, y) && v.valency(x, y) >= 1 implies at(grid_of(visited), (x, y)) by {}
            lemma_partition(v, l, grid_of(visited));
            lemma_parts_smaller(v, l, grid_of(visited), result@);
            assert forall|k: int| 0 <= k < result@.len() implies split_model(
                (#[trigger] result@[k])@,
            ) == seq![result@[k]@] by {
                lemma_part_alone(v, l, grid_of(visited), k, result@[k]);
            }
        }
        result
    }
}

/// The parts of the first `n` parts of a compound, one after the other.
pub open spec fn compound_parts(v: Seq<SimpleView>, n: nat) -> Seq<SimpleView>
    decreases n,
{
    if n == 0 {
        Seq::empty()
    } else {
        compound_parts(v, (n - 1) as nat) + split_model(v[n - 1])
    }
}

/// If the parts of each part are smaller than that part, the parts of the
/// compound are smaller than the compound.
proof fn lemma_compound_parts_smaller(v: Seq<SimpleView>, n: nat)
    requires
        n <= v.len(),
        forall|p: int|
            0 <= p < n ==> parts_smaller(split_model(#[trigger] v[p]), v[p].moves().len()),
    ensures
        parts_smaller(compound_parts(v, n), compound_moves(v, n).len()),
    decreases n,
{
    if n > 0 {
        lemma_compound_parts_smaller(v, (n - 1) as nat);
        let before = compound_parts(v, (n - 1) as nat);
        let added = split_model(v[n - 1]);
        let all = compound_parts(v, n);
        let total_before = compound_moves(v, (n - 1) as nat).len();
        let r = v[n - 1].moves().len();
        let total = compound_moves(v, n).len();
        assert(total == total_before + r);
        assert(parts_smaller(added, r));
        assert forall|k: int| 0 <= k < all.len() implies 1 <= (#[trigger] all[k]).moves().len()
            <= total && (all.len() > 1 ==> all[k].moves().len() < total) by {
            if k < before.len() {
                assert(all[k] == before[k]);
                if before.len() == 1 && added.len() >= 1 {
                    assert(1 <= added[0].moves().len() <= r);
                }
            } else {
                assert(all[k] == added[k - before.len()]);
                if added.len() == 1 && before.len() >= 1 {
                    assert(1 <= before[0].moves().len() <= total_before);
                }
            }
        }
    }
}

impl SplittablePosition<CPosMove> for CompoundPosition {
    open spec fn parts_of(v: Seq<SimpleView>) -> Seq<SimpleView> {
        compound_parts(v, v.len())
    }

    fn split(&self) -> (parts: Vec<SimplePosition>) {
        let ghost v = self@;
        let n = self.part_count();
        let mut new_parts: Vec<SimplePosition> = Vec::with_capacity(n);
        let mut i: usize = 0;
        while i < n
            invariant
                i <= n,
                n == v.len(),
                self.wf(),
                v == self@,
                new_parts@.len() == compound_parts(v, i as nat).len(),
                forall|k: int|
                    0 <= k < new_parts@.len() ==> (#[trigger] new_parts@[k]).wf() && new_parts@[k]@
                        == compound_parts(v, i as nat)[k],
                forall|p: int|
                    0 <= p < i ==> parts_smaller(split_model(#[trigger] v[p]), v[p].moves().len()),
            decreases n - i,
        {
            let mut split = self.part(i).split();
            let ghost before = new_parts@;
            let ghost added = split@;
            new_parts.append(&mut split);
            proof {
                assert(new_parts@ == before + added);
                assert forall|k: int| 0 <= k < new_parts@.len() implies (#[trigger] new_parts@[k]).wf()
                    && new_parts@[k]@ == compound_parts(v, (i + 1) as nat)[k] by {
                    if k < before.len() {
                        assert(new_parts@[k] == before[k]);
                    } else {
                        assert(new_parts@[k] == added[k - before.len()]);
                    }
                }
            }
            i += 1;
        }
        proof {
            lemma_compound_parts_smaller(v, n as nat);
        }
        new_parts
    }
}

} // verus!
