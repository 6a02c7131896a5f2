use vstd::prelude::*;

use crate::kinds::{Color, Type};

verus! {

/// The human player and the side they play.
#[derive(Clone, Copy, Debug)]
pub struct Player {
    player_type: Type,
    player_color: Color,
}

impl Player {
    pub closed spec fn kind(&self) -> Type {
        self.player_type
    }

    pub closed spec fn color(&self) -> Color {
        self.player_color
    }

    /// A human playing black.
    pub fn new() -> (r: Self)
        ensures
            r.kind() == Type::Human,
            r.color() == Color::Black,
    {
        Player { player_type: Type::Human, player_color: Color::Black }
    }

    /// Changes the side the player plays.
    #[allow(non_snake_case)]
    pub fn changeColor(&mut self, color: Color)
        ensures
            final(self).color() == color,
            final(self).kind() == old(self).kind(),
    {
        self.player_color = color
    }
}

} // verus!
