//! Where the parts of a game header lie.
use vstd::prelude::*;

verus! {

pub const OCCUPANCY: usize = 0;

pub const PIECES: usize = 8;

pub const SIDE_TO_MOVE_AND_EN_PASSANT: usize = 24;

pub const HALFMOVE_CLOCK: usize = 25;

pub const FULLMOVE_NUMBER: usize = 26;

pub const RESERVED_SCORE: usize = 28;

pub const OUTCOME: usize = 30;

pub const DUCK: usize = 31;

} // verus!
