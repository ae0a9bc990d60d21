//! The position model in one place: board primitives, the position trait,
//! and the two kinds of position.

pub use crate::board::{CPosMove, Move, MoveOutcome, Side};
pub use crate::compound::CompoundPosition;
pub use crate::position::Position;
pub use crate::simple::SimplePosition;
