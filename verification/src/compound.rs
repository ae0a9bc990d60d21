//! A position made of several independent rectangular parts.

use crate::board::{CPosMove, Move, MoveOutcome};
use crate::model::{lemma_cut, lemma_finished, lemma_moves_exact, lemma_uncut, SimpleView};
use crate::position::Position;
use crate::simple::SimplePosition;
use crate::zobrist::start_key;
use vstd::prelude::*;

verus! {

/// An ordered list of parts. A move names its part by index. Each part has
/// keys of its own, so that equal parts do not cancel in the compound hash.
pub struct CompoundPosition {
    parts: Vec<SimplePosition>,
}

/// The moves of one part, each tagged with the part's index.
pub open spec fn tagged(part: nat, moves: Seq<Move>) -> Seq<CPosMove> {
    Seq::new(moves.len(), |i: int| CPosMove { part: part as usize, m: moves[i] })
}

/// The legal moves of the first `n` parts, part by part.
pub open spec fn compound_moves(v: Seq<SimpleView>, n: nat) -> Seq<CPosMove>
    decreases n,
{
    if n == 0 {
        Seq::empty()
    } else {
        compound_moves(v, (n - 1) as nat) + tagged((n - 1) as nat, v[n - 1].moves())
    }
}

/// The hashes of the first `n` parts, folded with XOR.
pub open spec fn compound_hash(v: Seq<SimpleView>, n: nat) -> usize
    decreases n,
{
    if n == 0 {
        0
    } else {
        compound_hash(v, (n - 1) as nat) ^ v[n - 1].hash
    }
}

/// `m1` and `m2` are the same move, or the two names of one inner edge of
/// one part.
pub open spec fn compound_same_edge(v: Seq<SimpleView>, m1: CPosMove, m2: CPosMove) -> bool {
    m1 == m2 || (m1.part == m2.part && m1.part < v.len() && v[m1.part as int].same_edge(m1.m, m2.m))
}

/// The two lists have the same length and, part by part, the same boards.
pub open spec fn same_boards(a: Seq<SimpleView>, b: Seq<SimpleView>) -> bool {
    a.len() == b.len() && forall|i: int| 0 <= i < a.len() ==> (#[trigger] a[i]).same_edges(b[i])
}

/// The same board with keys drawn for `salt` and the hash at its start.
pub open spec fn resalted(v: SimpleView, salt: nat) -> SimpleView {
    SimpleView { salt, hash: start_key(v.width(), v.height(), salt), ..v }
}

/// Replacing one part changes the number of enumerated moves by the
/// difference between the two parts.
pub proof fn lemma_compound_update(v: Seq<SimpleView>, i: int, p: SimpleView, n: nat)
    requires
        0 <= i < v.len(),
        n <= v.len(),
    ensures
        compound_moves(v.update(i, p), n).len() == compound_moves(v, n).len() + (if i < n {
            p.moves().len() - v[i].moves().len()
        } else {
            0
        }),
    decreases n,
{
    if n > 0 {
        lemma_compound_update(v, i, p, (n - 1) as nat);
    }
}

/// The enumerated moves of the first `n` parts are legal moves of those
/// parts, and there is none exactly when all of those parts are finished.
pub proof fn lemma_compound_moves(v: Seq<SimpleView>, n: nat)
    requires
        forall|i: int| 0 <= i < v.len() ==> (#[trigger] v[i]).wf(),
        n <= v.len() <= usize::MAX,
    ensures
        forall|j: int|
            0 <= j < compound_moves(v, n).len() ==> (#[trigger] compound_moves(v, n)[j]).part < n
                && v[compound_moves(v, n)[j].part as int].legal(compound_moves(v, n)[j].m),
        compound_moves(v, n).len() == 0 <==> forall|i: int|
            0 <= i < n ==> (#[trigger] v[i]).finished(),
    decreases n,
{
    if n > 0 {
        let prev = compound_moves(v, (n - 1) as nat);
        let last = v[n - 1];
        lemma_compound_moves(v, (n - 1) as nat);
        lemma_moves_exact(last);
        lemma_finished(last);
        assert forall|j: int| 0 <= j < compound_moves(v, n).len() implies (#[trigger] compound_moves(
            v,
            n,
        )[j]).part < n && v[compound_moves(v, n)[j].part as int].legal(
            compound_moves(v, n)[j].m,
        ) by {
            if j >= prev.len() {
                let k = j - prev.len();
                assert(last.moves().contains(last.moves()[k]));
            }
        }
        if compound_moves(v, n).len() == 0 {
            assert forall|i: int| 0 <= i < n implies (#[trigger] v[i]).finished() by {}
        }
        if forall|i: int| 0 <= i < n ==> (#[trigger] v[i]).finished() {
            assert(v[n - 1].finished());
        }
    }
}

/// Move `j` of part `p` stands in the enumeration of the compound's moves.
pub proof fn lemma_compound_index(v: Seq<SimpleView>, n: nat, p: int, j: int) -> (i: int)
    requires
        0 <= p < n <= v.len(),
        0 <= j < v[p].moves().len(),
    ensures
        0 <= i < compound_moves(v, n).len(),
        compound_moves(v, n)[i] == (CPosMove { part: p as usize, m: v[p].moves()[j] }),
    decreases n,
{
    let prev = compound_moves(v, (n - 1) as nat);
    if p == n - 1 {
        prev.len() + j
    } else {
        lemma_compound_index(v, (n - 1) as nat, p, j)
    }
}

impl View for CompoundPosition {
    type V = Seq<SimpleView>;

    closed spec fn view(&self) -> Seq<SimpleView> {
        Seq::new(self.parts@.len(), |i: int| self.parts@[i]@)
    }
}

impl Clone for CompoundPosition {
    fn clone(&self) -> (copy: CompoundPosition)
        ensures
            copy@ == self@,
            copy.wf() == self.wf(),
    {
        let mut parts: Vec<SimplePosition> = Vec::with_capacity(self.parts.len());
        let mut i: usize = 0;
        while i < self.parts.len()
            invariant
                i <= self.parts@.len(),
                parts@.len() == i,
                forall|j: int|
                    0 <= j < i ==> (#[trigger] parts@[j])@ == self.parts@[j]@ && parts@[j].wf()
                        == self.parts@[j].wf(),
            decreases self.parts@.len() - i,
        {
            parts.push(self.parts[i].clone());
            i += 1;
        }
        let copy = CompoundPosition { parts: parts };
        proof {
            assert(copy@ =~= self@);
            if self.wf() {
                assert forall|j: int| 0 <= j < copy.parts@.len() implies (#[trigger] copy.parts@[j]).wf() by {
                    assert(self.parts@[j].wf());
                }
            }
            if copy.wf() {
                assert forall|j: int| 0 <= j < self.parts@.len() implies (#[trigger] self.parts@[j]).wf() by {
                    assert(copy.parts@[j].wf());
                }
            }
        }
        copy
    }
}

impl CompoundPosition {
    /// Every part is consistent.
    pub closed spec fn parts_wf(&self) -> bool {
        forall|i: int| 0 <= i < self.parts@.len() ==> (#[trigger] self.parts@[i]).wf()
    }

    /// A compound of the given parts. Part `i` gets keys drawn with salt
    /// `i`, and its hash starts afresh.
    pub fn new_game(parts: Vec<SimplePosition>) -> (c: CompoundPosition)
        requires
            forall|i: int| 0 <= i < parts@.len() ==> (#[trigger] parts@[i]).wf(),
        ensures
            c.wf(),
            c@.len() == parts@.len(),
            forall|i: int| 0 <= i < parts@.len() ==> c@[i] == resalted(parts@[i]@, i as nat),
    {
        let ghost given = parts@;
        let mut parts = parts;
        let mut idx: usize = 0;
        while idx < parts.len()
            invariant
                idx <= parts@.len(),
                parts@.len() == given.len(),
                forall|i: int| 0 <= i < parts@.len() ==> (#[trigger] parts@[i]).wf(),
                forall|i: int| 0 <= i < idx ==> parts@[i]@ == resalted(given[i]@, i as nat),
                forall|i: int| idx <= i < parts@.len() ==> parts@[i] == given[i],
            decreases parts@.len() - idx,
        {
            parts[idx].reseed(idx);
            idx += 1;
        }
        CompoundPosition { parts: parts }
    }

    /// A compound with one part, which keeps its keys and its hash.
    pub fn from_single(pos: SimplePosition) -> (c: CompoundPosition)
        requires
            pos.wf(),
        ensures
            c.wf(),
            c@ == seq![pos@],
    {
        let c = CompoundPosition { parts: vec![pos] };
        assert(c@ =~= seq![pos@]);
        c
    }

    /// The number of parts.
    pub fn part_count(&self) -> (n: usize)
        ensures
            n == self@.len(),
    {
        self.parts.len()
    }

    /// Part `i`.
    pub fn part(&self, i: usize) -> (p: &SimplePosition)
        requires
            self.wf(),
            i < self@.len(),
        ensures
            p.wf(),
            p@ == self@[i as int],
    {
        &self.parts[i]
    }

    /// Whether two moves are the same move: equal, or two names of one edge
    /// of one part.
    pub fn moves_equivalent(&self, move1: CPosMove, move2: CPosMove) -> (same: bool)
        ensures
            same == compound_same_edge(self@, move1, move2),
    {
        if move1 == move2 {
            true
        } else {
            move1.part == move2.part && move1.part < self.parts.len()
                && self.parts[move1.part].moves_equivalent(move1.m, move2.m)
        }
    }

    /// Whether the two compounds have the same number of parts and, part by
    /// part, the same boards.
    pub fn same_parts(&self, other: &CompoundPosition) -> (same: bool)
        ensures
            same == same_boards(self@, other@),
    {
        if self.parts.len() == other.parts.len() {
            let mut i: usize = 0;
            while i < self.parts.len()
                invariant
                    i <= self.parts@.len(),
                    self.parts@.len() == other.parts@.len(),
                    forall|j: int| 0 <= j < i ==> (#[trigger] self@[j]).same_edges(other@[j]),
                decreases self.parts@.len() - i,
            {
                if !self.parts[i].same_board(&other.parts[i]) {
                    assert(!self@[i as int].same_edges(other@[i as int]));
                    return false;
                }
                i += 1;
            }
            true
        } else {
            false
        }
    }
}

impl Position<CPosMove> for CompoundPosition {
    open spec fn wf(&self) -> bool {
        self.parts_wf() && Self::view_wf(self@)
    }

    open spec fn view_wf(v: Seq<SimpleView>) -> bool {
        v.len() <= usize::MAX && forall|i: int| 0 <= i < v.len() ==> (#[trigger] v[i]).wf()
    }

    open spec fn addresses(v: Seq<SimpleView>, m: CPosMove) -> bool {
        m.part < v.len()
    }

    open spec fn legal_in(v: Seq<SimpleView>, m: CPosMove) -> bool {
        m.part < v.len() && v[m.part as int].legal(m.m)
    }

    open spec fn cut_in(v: Seq<SimpleView>, m: CPosMove) -> bool {
        m.part < v.len() && v[m.part as int].on_board(m.m.x, m.m.y) && !v[m.part as int].legal(m.m)
    }

    open spec fn capture_in(v: Seq<SimpleView>, m: CPosMove) -> nat {
        v[m.part as int].capture_count(m.m)
    }

    open spec fn played(v: Seq<SimpleView>, m: CPosMove) -> Seq<SimpleView> {
        v.update(m.part as int, v[m.part as int].cut(m.m))
    }

    open spec fn unplayed(v: Seq<SimpleView>, m: CPosMove) -> Seq<SimpleView> {
        v.update(m.part as int, v[m.part as int].uncut(m.m))
    }

    open spec fn finished(v: Seq<SimpleView>) -> bool {
        forall|i: int| 0 <= i < v.len() ==> (#[trigger] v[i]).finished()
    }

    open spec fn ends_game(v: Seq<SimpleView>, m: CPosMove) -> bool {
        v[m.part as int].cut(m.m).finished()
    }

    open spec fn moves_in(v: Seq<SimpleView>) -> Seq<CPosMove> {
        compound_moves(v, v.len())
    }

    open spec fn hash_in(v: Seq<SimpleView>) -> usize {
        compound_hash(v, v.len())
    }

    proof fn lemma_view_wf(&self) {
    }

    proof fn lemma_played(v: Seq<SimpleView>, m: CPosMove) {
        let i = m.part as int;
        let p = v[i].cut(m.m);
        lemma_cut(v[i], m.m);
        lemma_compound_update(v, i, p, v.len());
        assert(v.update(i, p).update(i, p.uncut(m.m)) =~= v);
    }

    proof fn lemma_moves(v: Seq<SimpleView>) {
        lemma_compound_moves(v, v.len());
    }

    fn is_legal_move(&self, m: CPosMove) -> (legal: bool) {
        if m.part < self.parts.len() {
            self.parts[m.part].is_legal_move(m.m)
        } else {
            false
        }
    }

    fn would_capture(&self, m: CPosMove) -> (count: usize) {
        self.parts[m.part].would_capture(m.m)
    }

    fn make_move(&mut self, m: CPosMove) -> (outcome: MoveOutcome) {
        let ghost v = self@;
        proof {
            lemma_cut(v[m.part as int], m.m);
        }
        let outcome = self.parts[m.part].make_move(m.m);
        assert(self@ =~= v.update(m.part as int, v[m.part as int].cut(m.m)));
        outcome
    }

    fn undo_move(&mut self, m: CPosMove) {
        let ghost v = self@;
        proof {
            lemma_uncut(v[m.part as int], m.m);
        }
        self.parts[m.part].undo_move(m.m);
        assert(self@ =~= v.update(m.part as int, v[m.part as int].uncut(m.m)));
    }

    fn is_end_of_game(&self) -> (over: bool) {
        let mut i: usize = 0;
        while i < self.parts.len()
            invariant
                i <= self.parts@.len(),
                self.wf(),
                forall|j: int| 0 <= j < i ==> (#[trigger] self@[j]).finished(),
            decreases self.parts@.len() - i,
        {
            if !self.parts[i].is_end_of_game() {
                assert(!self@[i as int].finished());
                return false;
            }
            i += 1;
        }
        true
    }

    fn legal_moves(&self) -> (moves: Vec<CPosMove>) {
        let ghost v = self@;
        let mut result: Vec<CPosMove> = Vec::new();
        let mut i: usize = 0;
        while i < self.parts.len()
            invariant
                i <= self.parts@.len(),
                self.wf(),
                v == self@,
                result@ == compound_moves(v, i as nat),
            decreases self.parts@.len() - i,
        {
            let part_moves = self.parts[i].legal_moves();
            let ghost base = result@;
            let mut j: usize = 0;
            assert(result@ =~= base + tagged(i as nat, part_moves@.take(0)));
            while j < part_moves.len()
                invariant
                    j <= part_moves@.len(),
                    result@ == base + tagged(i as nat, part_moves@.take(j as int)),
                decreases part_moves@.len() - j,
            {
                result.push(CPosMove { part: i, m: part_moves[j] });
                assert(result@ =~= base + tagged(i as nat, part_moves@.take(j + 1)));
                j += 1;
            }
            assert(part_moves@.take(part_moves@.len() as int) =~= part_moves@);
            i += 1;
        }
        result
    }

    fn duplicate(&self) -> (copy: CompoundPosition) {
        self.clone()
    }

    fn zhash(&self) -> (hash: usize) {
        let mut result: usize = 0;
        let mut i: usize = 0;
        while i < self.parts.len()
            invariant
                i <= self.parts@.len(),
                self.wf(),
                result == compound_hash(self@, i as nat),
            decreases self.parts@.len() - i,
        {
            result = result ^ self.parts[i].zhash();
            i += 1;
        }
        result
    }
}

} // verus!
