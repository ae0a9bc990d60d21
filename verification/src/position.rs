//! What a position offers to the solvers: legality, capture counts, making
//! and undoing moves, the list of legal moves and a hash.

use crate::board::MoveOutcome;
use vstd::prelude::*;

verus! {

/// A position whose moves are of type `M`. Contracts speak of the position's
/// view, a mathematical value; `played` and `unplayed` are the transitions.
pub trait Position<M: Copy>: View + Sized {
    /// The representation is consistent.
    spec fn wf(&self) -> bool;

    /// The view is that of some consistent position.
    spec fn view_wf(v: Self::V) -> bool;

    /// `m` names a square of the position.
    spec fn addresses(v: Self::V, m: M) -> bool;

    /// `m` names an edge that is still uncut.
    spec fn legal_in(v: Self::V, m: M) -> bool;

    /// `m` names an edge that has been cut.
    spec fn cut_in(v: Self::V, m: M) -> bool;

    /// The number of squares that cutting `m`'s edge would capture.
    spec fn capture_in(v: Self::V, m: M) -> nat;

    /// The position after `m`.
    spec fn played(v: Self::V, m: M) -> Self::V;

    /// The position after `m` was taken back.
    spec fn unplayed(v: Self::V, m: M) -> Self::V;

    /// No edge is left to cut.
    spec fn finished(v: Self::V) -> bool;

    /// Whether the outcome of the legal move `m` reports the end of the game.
    spec fn ends_game(v: Self::V, m: M) -> bool;

    /// The legal moves, each edge once, in the order of enumeration.
    spec fn moves_in(v: Self::V) -> Seq<M>;

    /// The position's hash.
    spec fn hash_in(v: Self::V) -> usize;

    /// A consistent position has a consistent view.
    proof fn lemma_view_wf(&self)
        requires
            self.wf(),
        ensures
            Self::view_wf(self@),
    ;

    /// A legal move leads to a consistent position with one legal move less,
    /// captures at most two squares, and can be taken back, which restores
    /// the position.
    proof fn lemma_played(v: Self::V, m: M)
        requires
            Self::view_wf(v),
            Self::legal_in(v, m),
        ensures
            Self::addresses(v, m),
            Self::view_wf(Self::played(v, m)),
            Self::cut_in(Self::played(v, m), m),
            Self::unplayed(Self::played(v, m), m) == v,
            Self::moves_in(Self::played(v, m)).len() + 1 == Self::moves_in(v).len(),
            Self::capture_in(v, m) <= 2,
    ;

    /// The enumerated moves are legal, and the game is over exactly when
    /// there is none.
    proof fn lemma_moves(v: Self::V)
        requires
            Self::view_wf(v),
        ensures
            forall|i: int|
                0 <= i < Self::moves_in(v).len() ==> Self::legal_in(
                    v,
                    #[trigger] Self::moves_in(v)[i],
                ),
            Self::finished(v) <==> Self::moves_in(v).len() == 0,
    ;

    /// Whether `m` names an uncut edge; false for a square off the board.
    fn is_legal_move(&self, m: M) -> (legal: bool)
        requires
            self.wf(),
        ensures
            legal == Self::legal_in(self@, m),
    ;

    /// How many squares `m` would capture: 0, 1 or 2.
    fn would_capture(&self, m: M) -> (count: usize)
        requires
            self.wf(),
            Self::addresses(self@, m),
        ensures
            count == Self::capture_in(self@, m),
    ;

    /// Cuts the edge of the legal move `m` and reports what that did.
    fn make_move(&mut self, m: M) -> (outcome: MoveOutcome)
        requires
            old(self).wf(),
            Self::legal_in(old(self)@, m),
        ensures
            final(self).wf(),
            final(self)@ == Self::played(old(self)@, m),
            outcome.coins_captured == Self::capture_in(old(self)@, m),
            outcome.end_of_game == Self::ends_game(old(self)@, m),
            outcome.end_of_turn == (outcome.coins_captured == 0 || outcome.end_of_game),
    ;

    /// Puts the cut edge that `m` names back.
    fn undo_move(&mut self, m: M)
        requires
            old(self).wf(),
            Self::cut_in(old(self)@, m),
        ensures
            final(self).wf(),
            final(self)@ == Self::unplayed(old(self)@, m),
    ;

    /// Whether every edge has been cut.
    fn is_end_of_game(&self) -> (over: bool)
        requires
            self.wf(),
        ensures
            over == Self::finished(self@),
    ;

    /// The legal moves, each edge once.
    fn legal_moves(&self) -> (moves: Vec<M>)
        requires
            self.wf(),
        ensures
            moves@ == Self::moves_in(self@),
    ;

    /// A copy of the position to work on.
    fn duplicate(&self) -> (copy: Self)
        requires
            self.wf(),
        ensures
            copy.wf(),
            copy@ == self@,
    ;

    /// The position's hash.
    fn zhash(&self) -> (hash: usize)
        requires
            self.wf(),
        ensures
            hash == Self::hash_in(self@),
    ;
}

/// `outcome` is what the legal move `m` brings about in `v`: it captures
/// what it was foretold to capture, it ends the game where no edge of the
/// position it was made in is left, and it ends the turn where it captures
/// nothing or ends the game.
pub open spec fn outcome_of_move<M: Copy, P: Position<M>>(v: P::V, m: M, outcome: MoveOutcome) -> bool {
    &&& outcome.coins_captured == P::capture_in(v, m)
    &&& outcome.end_of_game == P::ends_game(v, m)
    &&& outcome.end_of_turn == (outcome.coins_captured == 0 || outcome.end_of_game)
}

} // verus!
