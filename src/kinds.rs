use vstd::prelude::*;

verus! {

/// The two sides; black moves first.
#[derive(Clone, Copy, Debug, PartialEq, Eq, Structural)]
pub enum Color {
    Black,
    White,
}

/// Who chooses the moves of a side.
#[derive(Clone, Copy, Debug, PartialEq, Eq, Structural)]
pub enum Type {
    Human,
    Cpu,
}

} // verus!
