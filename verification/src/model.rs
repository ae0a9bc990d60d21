//! The mathematical model of a rectangular position of strings and coins.

use crate::board::{opposite_side, Move, Side};
use crate::zobrist::{edge_key, key_count, key_table, start_key};
use vstd::prelude::*;

verus! {

/// The model of a rectangular position: which edges are still uncut, the
/// salt of the board's keys and the running hash. `down[x][y]` is the bottom
/// edge of square `(x, y)`, `right[x][y]` its right edge; `top` and `left`
/// are the two borders that no square has as its bottom or right edge.
pub struct SimpleView {
    pub top: Seq<bool>,
    pub left: Seq<bool>,
    pub down: Seq<Seq<bool>>,
    pub right: Seq<Seq<bool>>,
    pub salt: nat,
    pub hash: usize,
}

/// The name under which an edge is stored: an inner edge is the right edge
/// of the square to its left, or the bottom edge of the square above it.
pub open spec fn canonical(m: Move) -> Move {
    match m.side {
        Side::Left => if m.x > 0 {
            Move { x: (m.x - 1) as usize, y: m.y, side: Side::Right }
        } else {
            m
        },
        Side::Top => if m.y > 0 {
            Move { x: m.x, y: (m.y - 1) as usize, side: Side::Bottom }
        } else {
            m
        },
        _ => m,
    }
}

impl SimpleView {
    /// The number of columns.
    pub open spec fn width(self) -> nat {
        self.top.len()
    }

    /// The number of rows.
    pub open spec fn height(self) -> nat {
        self.left.len()
    }

    /// The board has at least one square, its keys can be counted in a
    /// `usize`, and the four grids agree on its size.
    pub open spec fn wf(self) -> bool {
        &&& 1 <= self.width() <= usize::MAX
        &&& 1 <= self.height() <= usize::MAX
        &&& key_count(self.width(), self.height()) <= usize::MAX
        &&& self.down.len() == self.width()
        &&& self.right.len() == self.width()
        &&& forall|x: int|
            0 <= x < self.width() ==> (#[trigger] self.down[x]).len() == self.height()
        &&& forall|x: int|
            0 <= x < self.width() ==> (#[trigger] self.right[x]).len() == self.height()
    }

    /// `(x, y)` is a square of the board.
    pub open spec fn on_board(self, x: usize, y: usize) -> bool {
        x < self.width() && y < self.height()
    }

    /// `m` names an uncut edge of a square of the board.
    pub open spec fn legal(self, m: Move) -> bool {
        let x = m.x as int;
        let y = m.y as int;
        self.on_board(m.x, m.y) && match m.side {
            Side::Left => if x == 0 {
                self.left[y]
            } else {
                self.right[x - 1][y]
            },
            Side::Top => if y == 0 {
                self.top[x]
            } else {
                self.down[x][y - 1]
            },
            Side::Right => self.right[x][y],
            Side::Bottom => self.down[x][y],
        }
    }

    /// The same position with the edge that `m` names set to `uncut`.
    pub open spec fn with_edge(self, m: Move, uncut: bool) -> SimpleView {
        let x = m.x as int;
        let y = m.y as int;
        match m.side {
            Side::Left => if x == 0 {
                SimpleView { left: self.left.update(y, uncut), ..self }
            } else {
                SimpleView {
                    right: self.right.update(x - 1, self.right[x - 1].update(y, uncut)),
                    ..self
                }
            },
            Side::Top => if y == 0 {
                SimpleView { top: self.top.update(x, uncut), ..self }
            } else {
                SimpleView {
                    down: self.down.update(x, self.down[x].update(y - 1, uncut)),
                    ..self
                }
            },
            Side::Right => SimpleView {
                right: self.right.update(x, self.right[x].update(y, uncut)),
                ..self
            },
            Side::Bottom => SimpleView {
                down: self.down.update(x, self.down[x].update(y, uncut)),
                ..self
            },
        }
    }

    /// The Zobrist key of the edge that `m` names.
    pub open spec fn key(self, m: Move) -> usize {
        edge_key(key_table(self.width(), self.height(), self.salt), m)
    }

    /// The position after the edge of `m` was cut and its key folded into
    /// the hash.
    pub open spec fn cut(self, m: Move) -> SimpleView {
        SimpleView { hash: self.hash ^ self.key(m), ..self.with_edge(m, false) }
    }

    /// The position after the edge of `m` was put back and its key folded
    /// into the hash.
    pub open spec fn uncut(self, m: Move) -> SimpleView {
        SimpleView { hash: self.hash ^ self.key(m), ..self.with_edge(m, true) }
    }

    /// 1 if `m` is legal, else 0.
    pub open spec fn open_side(self, m: Move) -> nat {
        if self.legal(m) {
            1
        } else {
            0
        }
    }

    /// The number of uncut edges of square `(x, y)`.
    pub open spec fn valency(self, x: usize, y: usize) -> nat {
        self.open_side(Move { x, y, side: Side::Top }) + self.open_side(
            Move { x, y, side: Side::Bottom },
        ) + self.open_side(Move { x, y, side: Side::Left }) + self.open_side(
            Move { x, y, side: Side::Right },
        )
    }

    /// All four edges of square `(x, y)` are cut.
    pub open spec fn captured(self, x: usize, y: usize) -> bool {
        forall|s: Side| !self.legal(Move { x, y, side: s })
    }

    /// The square next to `(x, y)` across side `s`, if it is on the board.
    pub open spec fn neighbour(self, x: usize, y: usize, s: Side) -> Option<(usize, usize)> {
        match s {
            Side::Left => if x > 0 && self.on_board((x - 1) as usize, y) {
                Some(((x - 1) as usize, y))
            } else {
                None
            },
            Side::Right => if x + 1 < self.width() && y < self.height() {
                Some(((x + 1) as usize, y))
            } else {
                None
            },
            Side::Top => if y > 0 && self.on_board(x, (y - 1) as usize) {
                Some((x, (y - 1) as usize))
            } else {
                None
            },
            Side::Bottom => if x < self.width() && y + 1 < self.height() {
                Some((x, (y + 1) as usize))
            } else {
                None
            },
        }
    }

    /// 1 if square `(x, y)` has exactly one uncut edge, else 0.
    pub open spec fn last_edge(self, x: usize, y: usize) -> nat {
        if self.valency(x, y) == 1 {
            1
        } else {
            0
        }
    }

    /// The number of squares, of `m`'s own and the one across its edge, that
    /// have only one uncut edge left.
    pub open spec fn capture_count(self, m: Move) -> nat {
        self.last_edge(m.x, m.y) + match self.neighbour(m.x, m.y, m.side) {
            Some((nx, ny)) => self.last_edge(nx, ny),
            None => 0,
        }
    }

    /// `m1` and `m2` are the same move, or the two names of one inner edge.
    pub open spec fn same_edge(self, m1: Move, m2: Move) -> bool {
        m1 == m2 || (self.neighbour(m1.x, m1.y, m1.side) == Some((m2.x, m2.y)) && m2.side
            == opposite_side(m1.side))
    }

    /// Every edge has been cut.
    pub open spec fn finished(self) -> bool {
        forall|m: Move| !self.legal(m)
    }

    /// The keys of the cut edges, folded with XOR.
    pub open spec fn cut_xor(self) -> usize {
        let t = key_table(self.width(), self.height(), self.salt);
        row_xor(self.top, t.top, self.width()) ^ row_xor(self.left, t.left, self.height())
            ^ grid_xor(self.down, t.down, self.width(), self.height()) ^ grid_xor(
            self.right,
            t.right,
            self.width(),
            self.height(),
        )
    }

    /// The hash is the starting value folded with the keys of the cut
    /// edges: the position came from a new game by making and taking back
    /// moves.
    pub open spec fn tracks(self) -> bool {
        self.hash == start_key(self.width(), self.height(), self.salt) ^ self.cut_xor()
    }

    /// The two boards have the same size and the same edges uncut.
    pub open spec fn same_edges(self, other: SimpleView) -> bool {
        &&& self.top == other.top
        &&& self.left == other.left
        &&& self.down == other.down
        &&& self.right == other.right
    }

    /// The uncut edges among the first `n` of the top border.
    pub open spec fn top_moves(self, n: nat) -> Seq<Move>
        decreases n,
    {
        if n == 0 {
            Seq::empty()
        } else {
            let rest = self.top_moves((n - 1) as nat);
            if self.top[n - 1] {
                rest.push(Move { x: (n - 1) as usize, y: 0, side: Side::Top })
            } else {
                rest
            }
        }
    }

    /// The uncut edges among the first `n` of the left border.
    pub open spec fn left_moves(self, n: nat) -> Seq<Move>
        decreases n,
    {
        if n == 0 {
            Seq::empty()
        } else {
            let rest = self.left_moves((n - 1) as nat);
            if self.left[n - 1] {
                rest.push(Move { x: 0, y: (n - 1) as usize, side: Side::Left })
            } else {
                rest
            }
        }
    }

    /// The bottom and right edges of square `(x, y)`, as far as uncut.
    pub open spec fn cell_moves(self, x: nat, y: nat) -> Seq<Move> {
        let bottom = if self.down[x as int][y as int] {
            seq![Move { x: x as usize, y: y as usize, side: Side::Bottom }]
        } else {
            Seq::empty()
        };
        if self.right[x as int][y as int] {
            bottom.push(Move { x: x as usize, y: y as usize, side: Side::Right })
        } else {
            bottom
        }
    }

    /// The moves of the first `n` squares of column `x`.
    pub open spec fn column_moves(self, x: nat, n: nat) -> Seq<Move>
        decreases n,
    {
        if n == 0 {
            Seq::empty()
        } else {
            self.column_moves(x, (n - 1) as nat) + self.cell_moves(x, (n - 1) as nat)
        }
    }

    /// The moves of the first `n` columns.
    pub open spec fn grid_moves(self, n: nat) -> Seq<Move>
        decreases n,
    {
        if n == 0 {
            Seq::empty()
        } else {
            self.grid_moves((n - 1) as nat) + self.column_moves((n - 1) as nat, self.height())
        }
    }

    /// The legal moves, each uncut edge once under its canonical name: the
    /// top border from left to right, the left border from top to bottom,
    /// then column by column the bottom and the right edge of each square.
    pub open spec fn moves(self) -> Seq<Move> {
        self.top_moves(self.width()) + self.left_moves(self.height()) + self.grid_moves(
            self.width(),
        )
    }
}

/// Setting an edge changes the legality of the moves that name it, and of no
/// others.
#[verifier::rlimit(40)]
pub proof fn lemma_with_edge(v: SimpleView, m: Move, uncut: bool, other: Move)
    requires
        v.wf(),
        v.on_board(m.x, m.y),
    ensures
        v.with_edge(m, uncut).wf(),
        v.with_edge(m, uncut).width() == v.width(),
        v.with_edge(m, uncut).height() == v.height(),
        v.with_edge(m, uncut).legal(other) == if v.on_board(other.x, other.y) && canonical(other)
            == canonical(m) {
            uncut
        } else {
            v.legal(other)
        },
{
}

/// What pushing an element does to membership and distinctness.
pub proof fn lemma_push_contains<A>(s: Seq<A>, e: A)
    ensures
        forall|m: A| #[trigger] s.push(e).contains(m) <==> (s.contains(m) || m == e),
        s.no_duplicates() && !s.contains(e) ==> s.push(e).no_duplicates(),
{
    let t = s.push(e);
    assert forall|m: A| #[trigger] t.contains(m) <==> (s.contains(m) || m == e) by {
        if t.contains(m) {
            let i = choose|i: int| 0 <= i < t.len() && t[i] == m;
            if i < s.len() {
                assert(s[i] == m);
            }
        }
        if s.contains(m) {
            let i = choose|i: int| 0 <= i < s.len() && s[i] == m;
            assert(t[i] == m);
        }
        if m == e {
            assert(t[s.len() as int] == m);
        }
    }
    if s.no_duplicates() && !s.contains(e) {
        assert forall|i: int, j: int| 0 <= i < t.len() && 0 <= j < t.len() && i != j implies t[i]
            != t[j] by {
            if i < s.len() {
                assert(s.contains(t[i]));
            }
            if j < s.len() {
                assert(s.contains(t[j]));
            }
        }
    }
}

/// What concatenation does to membership and distinctness.
pub proof fn lemma_concat_contains<A>(a: Seq<A>, b: Seq<A>)
    ensures
        forall|m: A| #[trigger] (a + b).contains(m) <==> (a.contains(m) || b.contains(m)),
        a.no_duplicates() && b.no_duplicates() && (forall|m: A|
            a.contains(m) ==> !b.contains(m)) ==> (a + b).no_duplicates(),
{
    let t = a + b;
    assert forall|m: A| #[trigger] t.contains(m) <==> (a.contains(m) || b.contains(m)) by {
        if t.contains(m) {
            let i = choose|i: int| 0 <= i < t.len() && t[i] == m;
            if i < a.len() {
                assert(a[i] == m);
            } else {
                assert(b[i - a.len()] == m);
            }
        }
        if a.contains(m) {
            let i = choose|i: int| 0 <= i < a.len() && a[i] == m;
            assert(t[i] == m);
        }
        if b.contains(m) {
            let i = choose|i: int| 0 <= i < b.len() && b[i] == m;
            assert(t[a.len() + i] == m);
        }
    }
    if a.no_duplicates() && b.no_duplicates() && (forall|m: A| a.contains(m) ==> !b.contains(m)) {
        assert forall|i: int, j: int| 0 <= i < t.len() && 0 <= j < t.len() && i != j implies t[i]
            != t[j] by {
            if i < a.len() {
                assert(a.contains(t[i]));
            } else {
                assert(b.contains(b[i - a.len()]));
            }
            if j < a.len() {
                assert(a.contains(t[j]));
            } else {
                assert(b.contains(b[j - a.len()]));
            }
        }
    }
}

/// The enumerated border moves are the uncut border edges, each once.
pub proof fn lemma_border_moves(v: SimpleView, n: nat)
    requires
        v.wf(),
    ensures
        n <= v.width() ==> v.top_moves(n).no_duplicates() && forall|m: Move| #[trigger]
            v.top_moves(n).contains(m) <==> (m.side == Side::Top && m.y == 0 && m.x < n
                && v.top[m.x as int]),
        n <= v.height() ==> v.left_moves(n).no_duplicates() && forall|m: Move| #[trigger]
            v.left_moves(n).contains(m) <==> (m.side == Side::Left && m.x == 0 && m.y < n
                && v.left[m.y as int]),
    decreases n,
{
    if n > 0 {
        lemma_border_moves(v, (n - 1) as nat);
        if n <= v.width() {
            lemma_push_contains(
                v.top_moves((n - 1) as nat),
                Move { x: (n - 1) as usize, y: 0, side: Side::Top },
            );
        }
        if n <= v.height() {
            lemma_push_contains(
                v.left_moves((n - 1) as nat),
                Move { x: 0, y: (n - 1) as usize, side: Side::Left },
            );
        }
    }
}

/// `m` names the bottom or the right edge of its square, and that edge is uncut.
pub open spec fn inner_move(v: SimpleView, m: Move) -> bool {
    (m.side == Side::Bottom && v.down[m.x as int][m.y as int]) || (m.side == Side::Right
        && v.right[m.x as int][m.y as int])
}

/// The moves of a square are its uncut bottom and right edges, each once.
pub proof fn lemma_cell_moves(v: SimpleView, x: nat, y: nat)
    requires
        v.wf(),
        x < v.width(),
        y < v.height(),
    ensures
        v.cell_moves(x, y).no_duplicates(),
        forall|m: Move| #[trigger]
            v.cell_moves(x, y).contains(m) <==> (m.x == x && m.y == y && inner_move(v, m)),
{
    let b = Move { x: x as usize, y: y as usize, side: Side::Bottom };
    let r = Move { x: x as usize, y: y as usize, side: Side::Right };
    let e = Seq::<Move>::empty();
    lemma_push_contains(e, b);
    lemma_push_contains(e, r);
    lemma_push_contains(e.push(b), r);
    assert(e.push(b) =~= seq![b]);
}

/// The moves of a column's first `n` squares are their uncut bottom and
/// right edges, each once.
pub proof fn lemma_column_moves(v: SimpleView, x: nat, n: nat)
    requires
        v.wf(),
        x < v.width(),
        n <= v.height(),
    ensures
        v.column_moves(x, n).no_duplicates(),
        forall|m: Move| #[trigger]
            v.column_moves(x, n).contains(m) <==> (m.x == x && m.y < n && inner_move(v, m)),
    decreases n,
{
    if n > 0 {
        lemma_column_moves(v, x, (n - 1) as nat);
        lemma_cell_moves(v, x, (n - 1) as nat);
        lemma_concat_contains(v.column_moves(x, (n - 1) as nat), v.cell_moves(x, (n - 1) as nat));
    }
}

/// The moves of the first `n` columns are their uncut bottom and right
/// edges, each once.
pub proof fn lemma_grid_moves(v: SimpleView, n: nat)
    requires
        v.wf(),
        n <= v.width(),
    ensures
        v.grid_moves(n).no_duplicates(),
        forall|m: Move| #[trigger]
            v.grid_moves(n).contains(m) <==> (m.x < n && m.y < v.height() && inner_move(v, m)),
    decreases n,
{
    if n > 0 {
        lemma_grid_moves(v, (n - 1) as nat);
        lemma_column_moves(v, (n - 1) as nat, v.height());
        lemma_concat_contains(v.grid_moves((n - 1) as nat), v.column_moves((n - 1) as nat, v.height()));
    }
}

/// The enumeration holds each uncut edge exactly once, under its canonical
/// name.
#[verifier::rlimit(40)]
pub proof fn lemma_moves_exact(v: SimpleView)
    requires
        v.wf(),
    ensures
        v.moves().no_duplicates(),
        forall|m: Move| #[trigger] v.moves().contains(m) <==> (v.legal(m) && canonical(m) == m),
{
    lemma_border_moves(v, v.width());
    lemma_border_moves(v, v.height());
    lemma_grid_moves(v, v.width());
    let t = v.top_moves(v.width());
    let l = v.left_moves(v.height());
    let g = v.grid_moves(v.width());
    lemma_concat_contains(t, l);
    lemma_concat_contains(t + l, g);
}

/// A square is captured exactly when its valency is zero.
pub proof fn lemma_captured_valency(v: SimpleView, x: usize, y: usize)
    ensures
        v.captured(x, y) <==> v.valency(x, y) == 0,
        v.valency(x, y) <= 4,
{
    if v.valency(x, y) == 0 {
        assert forall|s: Side| !v.legal(Move { x, y, side: s }) by {
            match s {
                Side::Top => {},
                Side::Bottom => {},
                Side::Left => {},
                Side::Right => {},
            }
        }
    }
    if v.captured(x, y) {
        assert(!v.legal(Move { x, y, side: Side::Top }));
        assert(!v.legal(Move { x, y, side: Side::Bottom }));
        assert(!v.legal(Move { x, y, side: Side::Left }));
        assert(!v.legal(Move { x, y, side: Side::Right }));
    }
}

/// Two moves on the board name the same edge exactly when their canonical
/// names agree; either both are legal or neither is.
#[verifier::rlimit(40)]
pub proof fn lemma_same_edge(v: SimpleView, m1: Move, m2: Move)
    requires
        v.wf(),
        v.on_board(m1.x, m1.y),
        v.on_board(m2.x, m2.y),
    ensures
        v.same_edge(m1, m2) <==> canonical(m1) == canonical(m2),
        canonical(m1) == canonical(m2) ==> v.legal(m1) == v.legal(m2),
        v.on_board(canonical(m1).x, canonical(m1).y),
        canonical(canonical(m1)) == canonical(m1),
        v.legal(canonical(m1)) == v.legal(m1),
{
}

/// The game is over exactly when no move is enumerated, and exactly when
/// every square is captured.
pub proof fn lemma_finished(v: SimpleView)
    requires
        v.wf(),
    ensures
        v.finished() <==> v.moves().len() == 0,
        v.finished() <==> forall|x: usize, y: usize| v.captured(x, y),
{
    lemma_moves_exact(v);
    if v.moves().len() > 0 {
        assert(v.moves().contains(v.moves()[0]));
    }
    if v.moves().len() == 0 {
        assert forall|m: Move| !v.legal(m) by {
            if v.legal(m) {
                lemma_same_edge(v, m, m);
                assert(v.moves().contains(canonical(m)));
            }
        }
    }
    if v.finished() {
        assert forall|x: usize, y: usize| v.captured(x, y) by {
            assert forall|s: Side| !v.legal(Move { x, y, side: s }) by {}
        }
    }
    if forall|x: usize, y: usize| v.captured(x, y) {
        assert forall|m: Move| !v.legal(m) by {
            assert(v.captured(m.x, m.y));
            assert(m == Move { x: m.x, y: m.y, side: m.side });
        }
    }
}

/// Cutting an uncut edge: the board keeps its size, the moves that name the
/// edge become illegal and no others change, the enumeration loses one
/// move, the two squares at the edge lose one from their valency, and
/// putting the edge back restores the position, hash included.
#[verifier::rlimit(40)]
pub proof fn lemma_cut(v: SimpleView, m: Move)
    requires
        v.wf(),
        v.legal(m),
    ensures
        v.cut(m).wf(),
        v.cut(m).width() == v.width(),
        v.cut(m).height() == v.height(),
        v.cut(m).salt == v.salt,
        v.cut(m).hash == v.hash ^ v.key(m),
        forall|o: Move| #[trigger]
            v.cut(m).legal(o) == (v.legal(o) && canonical(o) != canonical(m)),
        v.cut(m).uncut(m) == v,
        v.cut(m).moves().len() + 1 == v.moves().len(),
        v.cut(m).valency(m.x, m.y) + 1 == v.valency(m.x, m.y),
        match v.neighbour(m.x, m.y, m.side) {
            Some((nx, ny)) => v.cut(m).valency(nx, ny) + 1 == v.valency(nx, ny),
            None => true,
        },
        v.capture_count(m) <= 2,
{
    let c = v.cut(m);
    let e = v.with_edge(m, false);
    lemma_with_edge(v, m, false, m);
    assert forall|o: Move| #[trigger] c.legal(o) == (v.legal(o) && canonical(o) != canonical(m)) by {
        lemma_with_edge(v, m, false, o);
        assert(c.legal(o) == e.legal(o));
        if v.on_board(o.x, o.y) {
            lemma_same_edge(v, o, m);
        }
    }
    assert(c.uncut(m) == v) by {
        let k = v.key(m);
        let h = v.hash;
        assert((h ^ k) ^ k == h) by (bit_vector);
        assert(c.key(m) == k);
        let u = c.uncut(m);
        assert(u.top =~= v.top);
        assert(u.left =~= v.left);
        assert(u.down =~~= v.down);
        assert(u.right =~~= v.right);
    }
    assert(c.moves().len() + 1 == v.moves().len()) by {
        lemma_moves_exact(v);
        lemma_moves_exact(c);
        lemma_same_edge(v, m, m);
        let cm = canonical(m);
        v.moves().unique_seq_to_set();
        c.moves().unique_seq_to_set();
        vstd::seq_lib::seq_to_set_is_finite(v.moves());
        assert forall|o: Move| c.moves().to_set().contains(o) <==> v.moves().to_set().remove(
            cm,
        ).contains(o) by {
            assert(c.moves().to_set().contains(o) == c.moves().contains(o));
            assert(v.moves().to_set().contains(o) == v.moves().contains(o));
        }
        assert(c.moves().to_set() =~= v.moves().to_set().remove(cm));
        assert(v.moves().contains(cm));
        assert(v.moves().to_set().contains(cm));
    }
    let x = m.x;
    let y = m.y;
    assert(c.valency(x, y) + 1 == v.valency(x, y));
    match v.neighbour(x, y, m.side) {
        Some((nx, ny)) => {
            assert(c.valency(nx, ny) + 1 == v.valency(nx, ny));
        },
        None => {},
    }
}

/// Putting a cut edge back: the mirror image of `lemma_cut`.
#[verifier::rlimit(40)]
pub proof fn lemma_uncut(v: SimpleView, m: Move)
    requires
        v.wf(),
        v.on_board(m.x, m.y),
        !v.legal(m),
    ensures
        v.uncut(m).wf(),
        v.uncut(m).width() == v.width(),
        v.uncut(m).height() == v.height(),
        v.uncut(m).salt == v.salt,
        v.uncut(m).hash == v.hash ^ v.key(m),
        forall|o: Move| #[trigger]
            v.uncut(m).legal(o) == (v.legal(o) || (v.on_board(o.x, o.y) && canonical(o)
                == canonical(m))),
        v.uncut(m).legal(m),
        v.uncut(m).cut(m) == v,
{
    let c = v.uncut(m);
    let e = v.with_edge(m, true);
    lemma_with_edge(v, m, true, m);
    assert forall|o: Move| #[trigger]
        c.legal(o) == (v.legal(o) || (v.on_board(o.x, o.y) && canonical(o) == canonical(m))) by {
        lemma_with_edge(v, m, true, o);
        assert(c.legal(o) == e.legal(o));
        if v.on_board(o.x, o.y) {
            lemma_same_edge(v, o, m);
        }
    }
    assert(c.cut(m) == v) by {
        let k = v.key(m);
        let h = v.hash;
        assert((h ^ k) ^ k == h) by (bit_vector);
        assert(c.key(m) == k);
        let u = c.cut(m);
        assert(u.top =~= v.top);
        assert(u.left =~= v.left);
        assert(u.down =~~= v.down);
        assert(u.right =~~= v.right);
    }
}

/// The key of an edge if the edge is cut, else nothing.
pub open spec fn key_if_cut(uncut: bool, key: usize) -> usize {
    if uncut {
        0
    } else {
        key
    }
}

/// The keys of the cut edges among the first `n` of a row, folded with XOR.
pub open spec fn row_xor(bits: Seq<bool>, keys: Seq<usize>, n: nat) -> usize
    decreases n,
{
    if n == 0 {
        0
    } else {
        row_xor(bits, keys, (n - 1) as nat) ^ key_if_cut(bits[n - 1], keys[n - 1])
    }
}

/// The keys of the cut edges among the first `n` rows of a grid, each `h`
/// long, folded with XOR.
pub open spec fn grid_xor(bits: Seq<Seq<bool>>, keys: Seq<Seq<usize>>, n: nat, h: nat) -> usize
    decreases n,
{
    if n == 0 {
        0
    } else {
        grid_xor(bits, keys, (n - 1) as nat, h) ^ row_xor(bits[n - 1], keys[n - 1], h)
    }
}

/// Changing the state of one edge of a row folds its key into the row's
/// fold.
proof fn lemma_row_flip(bits: Seq<bool>, keys: Seq<usize>, n: nat, i: int)
    requires
        0 <= i < bits.len(),
        n <= bits.len(),
    ensures
        row_xor(bits.update(i, !bits[i]), keys, n) == if i < n {
            row_xor(bits, keys, n) ^ keys[i]
        } else {
            row_xor(bits, keys, n)
        },
    decreases n,
{
    if n > 0 {
        lemma_row_flip(bits, keys, (n - 1) as nat, i);
        let a = row_xor(bits, keys, (n - 1) as nat);
        let k = keys[i];
        let last = key_if_cut(bits[n - 1], keys[n - 1]);
        if i == n - 1 {
            assert((a ^ 0usize) ^ k == a ^ k) by (bit_vector);
            assert((a ^ k) ^ k == a ^ 0usize) by (bit_vector);
        } else if i < n - 1 {
            assert((a ^ k) ^ last == (a ^ last) ^ k) by (bit_vector);
        }
    }
}

/// Changing the state of one edge of a grid folds its key into the grid's
/// fold.
proof fn lemma_grid_flip(bits: Seq<Seq<bool>>, keys: Seq<Seq<usize>>, n: nat, h: nat, x: int, y: int)
    requires
        0 <= x < bits.len(),
        n <= bits.len(),
        0 <= y < bits[x].len(),
        h <= bits[x].len(),
    ensures
        grid_xor(bits.update(x, bits[x].update(y, !bits[x][y])), keys, n, h) == if x < n && y < h {
            grid_xor(bits, keys, n, h) ^ keys[x][y]
        } else {
            grid_xor(bits, keys, n, h)
        },
    decreases n,
{
    if n > 0 {
        lemma_grid_flip(bits, keys, (n - 1) as nat, h, x, y);
        let a = grid_xor(bits, keys, (n - 1) as nat, h);
        let k = keys[x][y];
        let last = row_xor(bits[n - 1], keys[n - 1], h);
        if x == n - 1 {
            lemma_row_flip(bits[x], keys[x], h, y);
            assert(a ^ (last ^ k) == (a ^ last) ^ k) by (bit_vector);
        } else if x < n - 1 {
            assert((a ^ k) ^ last == (a ^ last) ^ k) by (bit_vector);
        }
    }
}

/// A row without a cut edge folds to nothing.
proof fn lemma_row_uncut(bits: Seq<bool>, keys: Seq<usize>, n: nat)
    requires
        n <= bits.len(),
        forall|i: int| 0 <= i < bits.len() ==> bits[i],
    ensures
        row_xor(bits, keys, n) == 0,
    decreases n,
{
    if n > 0 {
        lemma_row_uncut(bits, keys, (n - 1) as nat);
        assert(0usize ^ 0usize == 0usize) by (bit_vector);
    }
}

/// A grid without a cut edge folds to nothing.
proof fn lemma_grid_uncut(bits: Seq<Seq<bool>>, keys: Seq<Seq<usize>>, n: nat, h: nat)
    requires
        n <= bits.len(),
        forall|x: int| 0 <= x < bits.len() ==> h <= (#[trigger] bits[x]).len(),
        forall|x: int, y: int| 0 <= x < bits.len() && 0 <= y < bits[x].len() ==> bits[x][y],
    ensures
        grid_xor(bits, keys, n, h) == 0,
    decreases n,
{
    if n > 0 {
        lemma_grid_uncut(bits, keys, (n - 1) as nat, h);
        lemma_row_uncut(bits[n - 1], keys[n - 1], h);
        assert(0usize ^ 0usize == 0usize) by (bit_vector);
    }
}

/// Setting an edge to the other state folds its key into the fold of the
/// cut edges.
#[verifier::rlimit(40)]
proof fn lemma_flip_xor(v: SimpleView, m: Move)
    requires
        v.wf(),
        v.on_board(m.x, m.y),
    ensures
        v.with_edge(m, !v.legal(m)).cut_xor() == v.cut_xor() ^ v.key(m),
{
    let e = v.with_edge(m, !v.legal(m));
    let t = key_table(v.width(), v.height(), v.salt);
    let w = v.width();
    let h = v.height();
    let x = m.x as int;
    let y = m.y as int;
    let a = row_xor(v.top, t.top, w);
    let b = row_xor(v.left, t.left, h);
    let c = grid_xor(v.down, t.down, w, h);
    let d = grid_xor(v.right, t.right, w, h);
    let k = v.key(m);
    assert(((a ^ k) ^ b) ^ c ^ d == (a ^ b ^ c ^ d) ^ k) by (bit_vector);
    assert((a ^ (b ^ k)) ^ c ^ d == (a ^ b ^ c ^ d) ^ k) by (bit_vector);
    assert((a ^ b) ^ (c ^ k) ^ d == (a ^ b ^ c ^ d) ^ k) by (bit_vector);
    assert((a ^ b) ^ c ^ (d ^ k) == (a ^ b ^ c ^ d) ^ k) by (bit_vector);
    match m.side {
        Side::Left => {
            if x == 0 {
                lemma_row_flip(v.left, t.left, h, y);
            } else {
                lemma_grid_flip(v.right, t.right, w, h, x - 1, y);
            }
        },
        Side::Top => {
            if y == 0 {
                lemma_row_flip(v.top, t.top, w, x);
            } else {
                lemma_grid_flip(v.down, t.down, w, h, x, y - 1);
            }
        },
        Side::Right => {
            lemma_grid_flip(v.right, t.right, w, h, x, y);
        },
        Side::Bottom => {
            lemma_grid_flip(v.down, t.down, w, h, x, y);
        },
    }
}

/// Making and taking back moves keeps the hash in step with the cut edges.
pub proof fn lemma_tracks(v: SimpleView, m: Move)
    requires
        v.wf(),
        v.on_board(m.x, m.y),
        v.tracks(),
    ensures
        v.legal(m) ==> v.cut(m).tracks(),
        !v.legal(m) ==> v.uncut(m).tracks(),
{
    lemma_flip_xor(v, m);
    lemma_with_edge(v, m, !v.legal(m), m);
    let s = start_key(v.width(), v.height(), v.salt);
    let c = v.cut_xor();
    let k = v.key(m);
    assert((s ^ c) ^ k == s ^ (c ^ k)) by (bit_vector);
}

/// In a new game the hash is in step with the cut edges: there is none.
pub proof fn lemma_new_tracks(width: nat, height: nat, salt: nat, hash: usize)
    requires
        hash == start_key(width, height, salt),
    ensures
        (SimpleView {
            top: Seq::new(width, |x: int| true),
            left: Seq::new(height, |y: int| true),
            down: Seq::new(width, |x: int| Seq::new(height, |y: int| true)),
            right: Seq::new(width, |x: int| Seq::new(height, |y: int| true)),
            salt,
            hash,
        }).tracks(),
{
    let v = SimpleView {
        top: Seq::new(width, |x: int| true),
        left: Seq::new(height, |y: int| true),
        down: Seq::new(width, |x: int| Seq::new(height, |y: int| true)),
        right: Seq::new(width, |x: int| Seq::new(height, |y: int| true)),
        salt,
        hash,
    };
    let t = key_table(width, height, salt);
    lemma_row_uncut(v.top, t.top, width);
    lemma_row_uncut(v.left, t.left, height);
    lemma_grid_uncut(v.down, t.down, width, height);
    lemma_grid_uncut(v.right, t.right, width, height);
    assert(0usize ^ 0usize ^ 0usize ^ 0usize == 0usize) by (bit_vector);
    assert(hash ^ 0usize == hash) by (bit_vector);
}

} // verus!
