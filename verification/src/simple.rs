//! A rectangular position of strings and coins.

use crate::board::{Move, MoveOutcome, Side};
use crate::model::{
    lemma_captured_valency, lemma_cut, lemma_finished, lemma_moves_exact, lemma_uncut,
    lemma_new_tracks, lemma_with_edge, SimpleView,
};
use crate::position::Position;
use crate::zobrist::{key_count, start_key, ZHash};
use vstd::prelude::*;

verus! {

/// A `width` by `height` board: a row of top border edges, a column of left
/// border edges, and for each square its bottom and its right edge.
/// Coordinates start at the top left, so `x = 1, y = 2` is the second square
/// of the third row.
pub struct SimplePosition {
    top_strings: Vec<bool>,
    left_strings: Vec<bool>,
    down_strings: Vec<Vec<bool>>,
    right_strings: Vec<Vec<bool>>,
    zhash: ZHash,
}

/// A board with every edge in the same state, salt zero, and the hash at its
/// starting value.
pub open spec fn blank(width: nat, height: nat, uncut: bool) -> SimpleView {
    SimpleView {
        top: Seq::new(width, |x: int| uncut),
        left: Seq::new(height, |y: int| uncut),
        down: Seq::new(width, |x: int| Seq::new(height, |y: int| uncut)),
        right: Seq::new(width, |x: int| Seq::new(height, |y: int| uncut)),
        salt: 0,
        hash: start_key(width, height, 0),
    }
}

impl View for SimplePosition {
    type V = SimpleView;

    closed spec fn view(&self) -> SimpleView {
        SimpleView {
            top: self.top_strings@,
            left: self.left_strings@,
            down: Seq::new(self.down_strings@.len(), |x: int| self.down_strings@[x]@),
            right: Seq::new(self.right_strings@.len(), |x: int| self.right_strings@[x]@),
            salt: self.zhash.salt(),
            hash: self.zhash.value(),
        }
    }
}

/// A vector of `n` copies of `b`.
pub(crate) fn filled(n: usize, b: bool) -> (v: Vec<bool>)
    ensures
        v@ == Seq::new(n as nat, |i: int| b),
{
    let mut v: Vec<bool> = Vec::with_capacity(n);
    let mut i: usize = 0;
    while i < n
        invariant
            i <= n,
            v@.len() == i,
            forall|j: int| 0 <= j < i ==> v@[j] == b,
        decreases n - i,
    {
        v.push(b);
        i += 1;
    }
    assert(v@ =~= Seq::new(n as nat, |i: int| b));
    v
}

/// A copy of a grid of edges.
fn copy_grid(g: &Vec<Vec<bool>>) -> (c: Vec<Vec<bool>>)
    ensures
        c@.len() == g@.len(),
        forall|x: int| 0 <= x < g@.len() ==> c@[x]@ == g@[x]@,
{
    let mut c: Vec<Vec<bool>> = Vec::with_capacity(g.len());
    let mut x: usize = 0;
    while x < g.len()
        invariant
            x <= g@.len(),
            c@.len() == x,
            forall|a: int| 0 <= a < x ==> c@[a]@ == g@[a]@,
        decreases g@.len() - x,
    {
        let col = g[x].clone();
        c.push(col);
        x += 1;
    }
    c
}

/// Whether two rows hold the same values.
fn same_row(a: &Vec<bool>, b: &Vec<bool>) -> (same: bool)
    ensures
        same == (a@ == b@),
{
    if a.len() != b.len() {
        return false;
    }
    let mut i: usize = 0;
    while i < a.len()
        invariant
            i <= a@.len(),
            a@.len() == b@.len(),
            forall|j: int| 0 <= j < i ==> a@[j] == b@[j],
        decreases a@.len() - i,
    {
        if a[i] != b[i] {
            return false;
        }
        i += 1;
    }
    assert(a@ =~= b@);
    true
}

/// Whether two grids hold the same values.
fn same_grid(a: &Vec<Vec<bool>>, b: &Vec<Vec<bool>>) -> (same: bool)
    ensures
        same == (a@.len() == b@.len() && forall|x: int|
            0 <= x < a@.len() ==> a@[x]@ == b@[x]@),
{
    if a.len() != b.len() {
        return false;
    }
    let mut x: usize = 0;
    while x < a.len()
        invariant
            x <= a@.len(),
            a@.len() == b@.len(),
            forall|j: int| 0 <= j < x ==> a@[j]@ == b@[j]@,
        decreases a@.len() - x,
    {
        if !same_row(&a[x], &b[x]) {
            return false;
        }
        x += 1;
    }
    true
}

impl Clone for SimplePosition {
    fn clone(&self) -> (copy: SimplePosition)
        ensures
            copy@ == self@,
            copy.wf() == self.wf(),
    {
        let copy = SimplePosition {
            top_strings: self.top_strings.clone(),
            left_strings: self.left_strings.clone(),
            down_strings: copy_grid(&self.down_strings),
            right_strings: copy_grid(&self.right_strings),
            zhash: self.zhash.duplicate(),
        };
        proof {
            assert(copy@.top =~= self@.top);
            assert(copy@.left =~= self@.left);
            assert(copy@.down =~~= self@.down);
            assert(copy@.right =~~= self@.right);
        }
        copy
    }
}

/// A board of this size can be made: it has a square, and its keys can be
/// counted in a `usize`.
pub open spec fn board_ok(width: usize, height: usize) -> bool {
    1 <= width && 1 <= height && key_count(width as nat, height as nat) <= usize::MAX
}

impl SimplePosition {
    /// Whether a board of this size can be made.
    pub fn fits(width: usize, height: usize) -> (ok: bool)
        ensures
            ok == board_ok(width, height),
    {
        if width == 0 || height == 0 {
            return false;
        }
        let column = match height.checked_mul(2) {
            Some(twice) => twice.checked_add(1),
            None => None,
        };
        let squares = match column {
            Some(c) => width.checked_mul(c),
            None => None,
        };
        let edges = match squares {
            Some(q) => q.checked_add(height),
            None => None,
        };
        proof {
            let w = width as int;
            let h = height as int;
            assert(w * (2 * h + 1) >= 2 * h + 1) by (nonlinear_arith)
                requires
                    w >= 1,
                    h >= 0,
            ;
        }
        match edges {
            Some(e) => e.checked_add(1).is_some(),
            None => false,
        }
    }

    /// The keys are those of a board of this size.
    pub closed spec fn keyed(&self) -> bool {
        self.zhash.keyed(self@.width(), self@.height(), self.zhash.salt())
    }

    /// A new game: every edge uncut.
    pub fn new_game(width: usize, height: usize) -> (p: SimplePosition)
        requires
            1 <= width,
            1 <= height,
            key_count(width as nat, height as nat) <= usize::MAX,
        ensures
            p.wf(),
            p@ == blank(width as nat, height as nat, true),
            p@.tracks(),
    {
        proof {
            lemma_new_tracks(
                width as nat,
                height as nat,
                0,
                start_key(width as nat, height as nat, 0),
            );
        }
        SimplePosition::make_position(width, height, true)
    }

    /// A finished game: every edge cut.
    pub fn new_end_game(width: usize, height: usize) -> (p: SimplePosition)
        requires
            1 <= width,
            1 <= height,
            key_count(width as nat, height as nat) <= usize::MAX,
        ensures
            p.wf(),
            p@ == blank(width as nat, height as nat, false),
    {
        SimplePosition::make_position(width, height, false)
    }

    fn make_position(width: usize, height: usize, init_string: bool) -> (p: SimplePosition)
        requires
            1 <= width,
            1 <= height,
            key_count(width as nat, height as nat) <= usize::MAX,
        ensures
            p.wf(),
            p@ == blank(width as nat, height as nat, init_string),
    {
        let top_strings = filled(width, init_string);
        let left_strings = filled(height, init_string);
        let mut right_strings: Vec<Vec<bool>> = Vec::with_capacity(width);
        let mut down_strings: Vec<Vec<bool>> = Vec::with_capacity(width);
        let mut x: usize = 0;
        while x < width
            invariant
                x <= width,
                right_strings@.len() == x,
                down_strings@.len() == x,
                forall|a: int|
                    0 <= a < x ==> right_strings@[a]@ == Seq::new(
                        height as nat,
                        |y: int| init_string,
                    ),
                forall|a: int|
                    0 <= a < x ==> down_strings@[a]@ == Seq::new(
                        height as nat,
                        |y: int| init_string,
                    ),
            decreases width - x,
        {
            right_strings.push(filled(height, init_string));
            down_strings.push(filled(height, init_string));
            x += 1;
        }
        let p = SimplePosition {
            top_strings,
            left_strings,
            down_strings,
            right_strings,
            zhash: ZHash::new(width, height),
        };
        proof {
            let b = blank(width as nat, height as nat, init_string);
            assert(p@.top =~= b.top);
            assert(p@.left =~= b.left);
            assert(p@.down =~~= b.down);
            assert(p@.right =~~= b.right);
        }
        p
    }

    /// The number of columns.
    pub fn width(&self) -> (w: usize)
        ensures
            w == self@.width(),
    {
        self.top_strings.len()
    }

    /// The number of rows.
    pub fn height(&self) -> (h: usize)
        ensures
            h == self@.height(),
    {
        self.left_strings.len()
    }

    /// Whether all four edges of square `(x, y)` are cut.
    pub fn is_captured(&self, x: usize, y: usize) -> (captured: bool)
        requires
            self.wf(),
        ensures
            captured == self@.captured(x, y),
            captured == (self@.valency(x, y) == 0),
    {
        proof {
            lemma_captured_valency(self@, x, y);
        }
        !self.is_legal_move(Move { x: x, y: y, side: Side::Left }) && !self.is_legal_move(
            Move { x: x, y: y, side: Side::Right },
        ) && !self.is_legal_move(Move { x: x, y: y, side: Side::Top }) && !self.is_legal_move(
            Move { x: x, y: y, side: Side::Bottom },
        )
    }

    /// The number of uncut edges of square `(x, y)`.
    pub fn valency(&self, x: usize, y: usize) -> (count: usize)
        requires
            self.wf(),
        ensures
            count == self@.valency(x, y),
            count <= 4,
    {
        let mut result: usize = 0;
        if self.is_legal_move(Move { x: x, y: y, side: Side::Top }) {
            result += 1;
        }
        if self.is_legal_move(Move { x: x, y: y, side: Side::Bottom }) {
            result += 1;
        }
        if self.is_legal_move(Move { x: x, y: y, side: Side::Left }) {
            result += 1;
        }
        if self.is_legal_move(Move { x: x, y: y, side: Side::Right }) {
            result += 1;
        }
        result
    }

    /// The square next to `(x, y)` across side `s`, if it is on the board.
    pub fn offset(&self, x: usize, y: usize, s: Side) -> (next: Option<(usize, usize)>)
        ensures
            next == self@.neighbour(x, y, s),
    {
        let w = self.width();
        let h = self.height();
        match s {
            Side::Left => if x > 0 && x - 1 < w && y < h {
                Some((x - 1, y))
            } else {
                None
            },
            Side::Right => if x < usize::MAX && x + 1 < w && y < h {
                Some((x + 1, y))
            } else {
                None
            },
            Side::Top => if y > 0 && x < w && y - 1 < h {
                Some((x, y - 1))
            } else {
                None
            },
            Side::Bottom => if y < usize::MAX && x < w && y + 1 < h {
                Some((x, y + 1))
            } else {
                None
            },
        }
    }

    /// Whether two moves are the same move on the board: equal, or the two
    /// names of one inner edge, such as `(0, 0)` Right and `(1, 0)` Left on
    /// a board at least two columns wide.
    pub fn moves_equivalent(&self, move1: Move, move2: Move) -> (same: bool)
        ensures
            same == self@.same_edge(move1, move2),
    {
        if move1 == move2 {
            true
        } else {
            match self.offset(move1.x, move1.y, move1.side) {
                Some((n1x, n1y)) => move2.x == n1x && move2.y == n1y && move2.side
                    == move1.side.opposite(),
                None => false,
            }
        }
    }

    /// Draws new keys with the given salt and starts the hash afresh.
    pub(crate) fn reseed(&mut self, salt: usize)
        requires
            old(self).wf(),
        ensures
            final(self).wf(),
            final(self)@ == (SimpleView {
                salt: salt as nat,
                hash: start_key(old(self)@.width(), old(self)@.height(), salt as nat),
                ..old(self)@
            }),
    {
        let ghost v = self@;
        self.zhash = ZHash::new_seeded(self.width(), self.height(), salt);
        proof {
            let e = SimpleView {
                salt: salt as nat,
                hash: start_key(v.width(), v.height(), salt as nat),
                ..v
            };
            assert(self@.top =~= e.top);
            assert(self@.left =~= e.left);
            assert(self@.down =~~= e.down);
            assert(self@.right =~~= e.right);
        }
    }

    /// Whether the two boards have the same size and the same edges uncut.
    pub fn same_board(&self, other: &SimplePosition) -> (same: bool)
        ensures
            same == self@.same_edges(other@),
    {
        let same = same_row(&self.top_strings, &other.top_strings) && same_row(
            &self.left_strings,
            &other.left_strings,
        ) && same_grid(&self.down_strings, &other.down_strings) && same_grid(
            &self.right_strings,
            &other.right_strings,
        );
        proof {
            if same {
                assert(self@.down =~~= other@.down);
                assert(self@.right =~~= other@.right);
            } else {
                if self@.down == other@.down {
                    assert(self@.down.len() == self.down_strings@.len());
                    assert(other@.down.len() == other.down_strings@.len());
                    assert forall|x: int| 0 <= x < self.down_strings@.len() implies self.down_strings@[x]@
                        == other.down_strings@[x]@ by {
                        assert(self@.down[x] == other@.down[x]);
                    }
                }
                if self@.right == other@.right {
                    assert(self@.right.len() == self.right_strings@.len());
                    assert(other@.right.len() == other.right_strings@.len());
                    assert forall|x: int| 0 <= x < self.right_strings@.len() implies self.right_strings@[x]@
                        == other.right_strings@[x]@ by {
                        assert(self@.right[x] == other@.right[x]);
                    }
                }
            }
        }
        same
    }

    /// Sets the edge that `m` names, leaving the hash as it is.
    fn set_edge(&mut self, m: Move, uncut: bool)
        requires
            old(self).wf(),
            old(self)@.on_board(m.x, m.y),
        ensures
            final(self).wf(),
            final(self)@ == old(self)@.with_edge(m, uncut),
    {
        let ghost v = self@;
        let ghost e = v.with_edge(m, uncut);
        match m.side {
            Side::Left => if m.x == 0 {
                self.left_strings[m.y] = uncut;
            } else {
                assert(self.right_strings@[m.x - 1]@ == v.right[m.x - 1]);
                self.right_strings[m.x - 1][m.y] = uncut;
            },
            Side::Top => if m.y == 0 {
                self.top_strings[m.x] = uncut;
            } else {
                assert(self.down_strings@[m.x as int]@ == v.down[m.x as int]);
                self.down_strings[m.x][m.y - 1] = uncut;
            },
            Side::Bottom => {
                assert(self.down_strings@[m.x as int]@ == v.down[m.x as int]);
                self.down_strings[m.x][m.y] = uncut;
            },
            Side::Right => {
                assert(self.right_strings@[m.x as int]@ == v.right[m.x as int]);
                self.right_strings[m.x][m.y] = uncut;
            },
        }
        proof {
            lemma_with_edge(v, m, uncut, m);
            assert(self@.top =~= e.top);
            assert(self@.left =~= e.left);
            assert(self@.down =~~= e.down);
            assert(self@.right =~~= e.right);
        }
    }

    /// Folds the key of `m`'s edge into the hash.
    fn toggle_hash(&mut self, m: Move)
        requires
            old(self).wf(),
            old(self)@.on_board(m.x, m.y),
        ensures
            final(self).wf(),
            final(self)@ == (SimpleView {
                hash: old(self)@.hash ^ old(self)@.key(m),
                ..old(self)@
            }),
    {
        let ghost v = self@;
        self.zhash.toggle_element(m, Ghost(v.width()), Ghost(v.height()));
        proof {
            let e = SimpleView { hash: v.hash ^ v.key(m), ..v };
            assert(self@.top =~= e.top);
            assert(self@.left =~= e.left);
            assert(self@.down =~~= e.down);
            assert(self@.right =~~= e.right);
        }
    }
}

impl Position<Move> for SimplePosition {
    open spec fn wf(&self) -> bool {
        self.keyed() && self@.wf()
    }

    open spec fn view_wf(v: SimpleView) -> bool {
        v.wf()
    }

    open spec fn addresses(v: SimpleView, m: Move) -> bool {
        true
    }

    open spec fn legal_in(v: SimpleView, m: Move) -> bool {
        v.legal(m)
    }

    open spec fn cut_in(v: SimpleView, m: Move) -> bool {
        v.on_board(m.x, m.y) && !v.legal(m)
    }

    open spec fn capture_in(v: SimpleView, m: Move) -> nat {
        v.capture_count(m)
    }

    open spec fn played(v: SimpleView, m: Move) -> SimpleView {
        v.cut(m)
    }

    open spec fn unplayed(v: SimpleView, m: Move) -> SimpleView {
        v.uncut(m)
    }

    open spec fn finished(v: SimpleView) -> bool {
        v.finished()
    }

    open spec fn ends_game(v: SimpleView, m: Move) -> bool {
        v.cut(m).finished()
    }

    open spec fn moves_in(v: SimpleView) -> Seq<Move> {
        v.moves()
    }

    open spec fn hash_in(v: SimpleView) -> usize {
        v.hash
    }

    proof fn lemma_view_wf(&self) {
    }

    proof fn lemma_played(v: SimpleView, m: Move) {
        lemma_cut(v, m);
    }

    proof fn lemma_moves(v: SimpleView) {
        lemma_moves_exact(v);
        lemma_finished(v);
        assert forall|i: int| 0 <= i < v.moves().len() implies v.legal(#[trigger] v.moves()[i]) by {
            assert(v.moves().contains(v.moves()[i]));
        }
    }

    fn is_legal_move(&self, m: Move) -> (legal: bool) {
        if m.x >= self.down_strings.len() {
            return false;
        }
        if m.y >= self.left_strings.len() {
            return false;
        }
        proof {
            let x = m.x as int;
            assert(self.down_strings@[x]@ == self@.down[x]);
            assert(self.right_strings@[x]@ == self@.right[x]);
            if x > 0 {
                assert(self.right_strings@[x - 1]@ == self@.right[x - 1]);
            }
        }
        match m.side {
            Side::Left => if m.x == 0 {
                self.left_strings[m.y]
            } else {
                self.right_strings[m.x - 1][m.y]
            },
            Side::Top => if m.y == 0 {
                self.top_strings[m.x]
            } else {
                self.down_strings[m.x][m.y - 1]
            },
            Side::Bottom => self.down_strings[m.x][m.y],
            Side::Right => self.right_strings[m.x][m.y],
        }
    }

    fn would_capture(&self, m: Move) -> (count: usize) {
        let mut result: usize = 0;
        if self.valency(m.x, m.y) == 1 {
            result += 1;
        }
        if let Some((nx, ny)) = self.offset(m.x, m.y, m.side) {
            if self.valency(nx, ny) == 1 {
                result += 1;
            }
        }
        result
    }

    #[verifier::rlimit(40)]
    fn make_move(&mut self, m: Move) -> (outcome: MoveOutcome) {
        let ghost v = self@;
        proof {
            lemma_cut(v, m);
        }
        self.set_edge(m, false);
        let ghost e = self@;
        proof {
            assert forall|o: Move| #[trigger] e.legal(o) == v.cut(m).legal(o) by {}
            assert forall|x: usize, y: usize| e.valency(x, y) == v.cut(m).valency(x, y) by {}
        }
        let mut captures: usize = if self.is_captured(m.x, m.y) {
            1
        } else {
            0
        };
        if m.side == Side::Left && m.x > 0 {
            if self.is_captured(m.x - 1, m.y) {
                captures += 1
            }
        }
        if m.side == Side::Right && m.x < self.top_strings.len() - 1 {
            if self.is_captured(m.x + 1, m.y) {
                captures += 1
            }
        }
        if m.side == Side::Top && m.y > 0 {
            if self.is_captured(m.x, m.y - 1) {
                captures += 1
            }
        }
        if m.side == Side::Bottom && m.y < self.left_strings.len() - 1 {
            if self.is_captured(m.x, m.y + 1) {
                captures += 1
            }
        }
        let end_of_game = self.is_end_of_game();
        self.toggle_hash(m);
        proof {
            assert(self@ == v.cut(m));
            let c = self@;
            assert forall|o: Move| #[trigger] e.legal(o) == c.legal(o) by {}
            if e.finished() {
                assert forall|o: Move| !c.legal(o) by {
                    assert(e.legal(o) == c.legal(o));
                }
            }
            if c.finished() {
                assert forall|o: Move| !e.legal(o) by {
                    assert(e.legal(o) == c.legal(o));
                }
            }
        }
        MoveOutcome {
            coins_captured: captures,
            end_of_turn: captures == 0 || end_of_game,
            end_of_game: end_of_game,
        }
    }

    fn undo_move(&mut self, m: Move) {
        proof {
            lemma_uncut(self@, m);
        }
        self.set_edge(m, true);
        self.toggle_hash(m);
    }

    #[verifier::rlimit(40)]
    fn is_end_of_game(&self) -> (over: bool) {
        let ghost v = self@;
        let w = self.top_strings.len();
        let h = self.left_strings.len();
        let mut y: usize = 0;
        while y < h
            invariant
                y <= h,
                h == v.height(),
                v == self@,
                self.wf(),
                forall|b: int| 0 <= b < y ==> !v.left[b],
            decreases h - y,
        {
            if self.left_strings[y] {
                assert(v.legal(Move { x: 0, y: y, side: Side::Left }));
                return false;
            }
            y += 1;
        }
        let mut x: usize = 0;
        while x < w
            invariant
                x <= w,
                w == v.width(),
                v == self@,
                self.wf(),
                forall|a: int| 0 <= a < x ==> !v.top[a],
            decreases w - x,
        {
            if self.top_strings[x] {
                assert(v.legal(Move { x: x, y: 0, side: Side::Top }));
                return false;
            }
            x += 1;
        }
        x = 0;
        while x < w
            invariant
                x <= w,
                w == v.width(),
                h == v.height(),
                v == self@,
                self.wf(),
                forall|a: int, b: int| 0 <= a < x && 0 <= b < h ==> !v.down[a][b],
            decreases w - x,
        {
            y = 0;
            assert(self.down_strings@[x as int]@ == v.down[x as int]);
            while y < h
                invariant
                    y <= h,
                    x < w,
                    w == v.width(),
                    h == v.height(),
                    v == self@,
                    self.wf(),
                    self.down_strings@[x as int]@ == v.down[x as int],
                    forall|b: int| 0 <= b < y ==> !v.down[x as int][b],
                decreases h - y,
            {
                if self.down_strings[x][y] {
                    assert(v.legal(Move { x: x, y: y, side: Side::Bottom }));
                    return false;
                }
                y += 1;
            }
            x += 1;
        }
        x = 0;
        while x < w
            invariant
                x <= w,
                w == v.width(),
                h == v.height(),
                v == self@,
                self.wf(),
                forall|a: int, b: int| 0 <= a < x && 0 <= b < h ==> !v.right[a][b],
            decreases w - x,
        {
            y = 0;
            assert(self.right_strings@[x as int]@ == v.right[x as int]);
            while y < h
                invariant
                    y <= h,
                    x < w,
                    w == v.width(),
                    h == v.height(),
                    v == self@,
                    self.wf(),
                    self.right_strings@[x as int]@ == v.right[x as int],
                    forall|b: int| 0 <= b < y ==> !v.right[x as int][b],
                decreases h - y,
            {
                if self.right_strings[x][y] {
                    assert(v.legal(Move { x: x, y: y, side: Side::Right }));
                    return false;
                }
                y += 1;
            }
            x += 1;
        }
        assert forall|m: Move| !v.legal(m) by {}
        true
    }

    #[verifier::rlimit(40)]
    fn legal_moves(&self) -> (moves: Vec<Move>) {
        let ghost v = self@;
        let w = self.top_strings.len();
        let h = self.left_strings.len();
        let mut result: Vec<Move> = Vec::new();
        let mut x: usize = 0;
        while x < w
            invariant
                x <= w,
                w == v.width(),
                v == self@,
                self.wf(),
                result@ == v.top_moves(x as nat),
            decreases w - x,
        {
            if self.top_strings[x] {
                result.push(Move { x: x, y: 0, side: Side::Top });
            }
            x += 1;
        }
        let ghost t = v.top_moves(w as nat);
        let mut y: usize = 0;
        assert(result@ =~= t + v.left_moves(0));
        while y < h
            invariant
                y <= h,
                h == v.height(),
                v == self@,
                self.wf(),
                result@ == t + v.left_moves(y as nat),
            decreases h - y,
        {
            if self.left_strings[y] {
                result.push(Move { x: 0, y: y, side: Side::Left });
            }
            assert(result@ =~= t + v.left_moves((y + 1) as nat));
            y += 1;
        }
        let ghost tl = t + v.left_moves(h as nat);
        x = 0;
        assert(result@ =~= tl + v.grid_moves(0));
        while x < w
            invariant
                x <= w,
                w == v.width(),
                h == v.height(),
                v == self@,
                self.wf(),
                result@ == tl + v.grid_moves(x as nat),
            decreases w - x,
        {
            y = 0;
            let ghost base = result@;
            assert(result@ =~= base + v.column_moves(x as nat, 0));
            assert(self.down_strings@[x as int]@ == v.down[x as int]);
            assert(self.right_strings@[x as int]@ == v.right[x as int]);
            while y < h
                invariant
                    y <= h,
                    x < w,
                    w == v.width(),
                    h == v.height(),
                    v == self@,
                    self.wf(),
                    self.down_strings@[x as int]@ == v.down[x as int],
                    self.right_strings@[x as int]@ == v.right[x as int],
                    result@ == base + v.column_moves(x as nat, y as nat),
                decreases h - y,
            {
                if self.down_strings[x][y] {
                    result.push(Move { x: x, y: y, side: Side::Bottom });
                }
                if self.right_strings[x][y] {
                    result.push(Move { x: x, y: y, side: Side::Right })
                }
                assert(result@ =~= base + v.column_moves((x as nat), (y + 1) as nat));
                y += 1;
            }
            assert(result@ =~= tl + v.grid_moves((x + 1) as nat));
            x += 1;
        }
        result
    }

    fn duplicate(&self) -> (copy: SimplePosition) {
        self.clone()
    }

    fn zhash(&self) -> (hash: usize) {
        self.zhash.current_value()
    }
}

} // verus!
