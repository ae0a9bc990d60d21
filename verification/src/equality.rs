//! `==` on positions: the same shape with the same edges uncut.

use crate::compound::{same_boards, CompoundPosition};
use crate::simple::SimplePosition;
use vstd::prelude::*;
use vstd::std_specs::cmp::PartialEqSpecImpl;

verus! {

impl PartialEq for SimplePosition {
    fn eq(&self, other: &SimplePosition) -> (same: bool) {
        self.same_board(other)
    }
}

impl PartialEqSpecImpl for SimplePosition {
    open spec fn obeys_eq_spec() -> bool {
        true
    }

    open spec fn eq_spec(&self, other: &SimplePosition) -> bool {
        self@.same_edges(other@)
    }
}

impl Eq for SimplePosition {

}

impl PartialEq for CompoundPosition {
    fn eq(&self, other: &CompoundPosition) -> (same: bool) {
        self.same_parts(other)
    }
}

impl PartialEqSpecImpl for CompoundPosition {
    open spec fn obeys_eq_spec() -> bool {
        true
    }

    open spec fn eq_spec(&self, other: &CompoundPosition) -> bool {
        same_boards(self@, other@)
    }
}

impl Eq for CompoundPosition {

}

} // verus!
