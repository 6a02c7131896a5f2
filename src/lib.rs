pub mod bits;
pub mod board;
pub mod cpu;
pub mod game;
pub mod kinds;
pub mod player;
