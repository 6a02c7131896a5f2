use vstd::prelude::*;

use crate::bits::{decompose, lemma_decompose_round_trip, lemma_decompose_within};
use crate::board::{flips, Board};
use crate::cpu::Cpu;
use crate::kinds::{Color, Type};
use crate::player::Player;

verus! {

/// Phase of a match.
#[derive(Clone, Copy, Debug, PartialEq, Eq, Structural)]
pub enum OthelloGameState {
    BeforeMatch,
    InMatch,
    MatchFinished,
}

/// A match between the human player and the computer: the current position,
/// who plays black, and whether the previous turn was a pass.
#[derive(Clone, Copy, Debug)]
pub struct OthelloGame {
    state: OthelloGameState,
    black_player: Type,
    board: Board,
    player: Player,
    passed: bool,
}

impl OthelloGame {
    pub closed spec fn phase(&self) -> OthelloGameState {
        self.state
    }

    pub closed spec fn black_type(&self) -> Type {
        self.black_player
    }

    pub closed spec fn position(&self) -> Board {
        self.board
    }

    pub closed spec fn human(&self) -> Player {
        self.player
    }

    /// The previous turn was a pass.
    pub closed spec fn last_was_pass(&self) -> bool {
        self.passed
    }

    pub open spec fn wf(&self) -> bool {
        self.position().wf()
    }

    /// The candidate moves of the side to move, lowest square first.
    pub open spec fn choices(&self) -> Seq<u64> {
        decompose(self.position().legal())
    }

    /// A match not yet begun, from the opening, with the human playing black.
    pub fn new(player: Player) -> (r: Self)
        ensures
            r.wf(),
            r.phase() == OthelloGameState::BeforeMatch,
            r.black_type() == Type::Human,
            r.human() == player,
            !r.last_was_pass(),
            r.position().move_count() == 0,
            r.position().black_mask() == 0x0000000810000000u64,
            r.position().white_mask() == 0x0000001008000000u64,
    {
        OthelloGame {
            state: OthelloGameState::BeforeMatch,
            black_player: Type::Human,
            board: Board::new(),
            player: player,
            passed: false,
        }
    }

    /// The human takes white and the computer black.
    pub fn swap_sides(&mut self)
        ensures
            final(self).human().color() == Color::White,
            final(self).human().kind() == old(self).human().kind(),
            final(self).black_type() == Type::Cpu,
            final(self).position() == old(self).position(),
            final(self).phase() == old(self).phase(),
            final(self).last_was_pass() == old(self).last_was_pass(),
    {
        self.player.changeColor(Color::White);
        self.black_player = Type::Cpu;
    }

    /// The current position.
    pub fn board(&self) -> (r: &Board)
        ensures
            *r == self.position(),
    {
        &self.board
    }

    /// The phase of the match.
    pub fn state(&self) -> (r: OthelloGameState)
        ensures
            r == self.phase(),
    {
        self.state
    }

    /// The human chooses the next move.
    pub fn human_to_move(&self) -> (r: bool)
        ensures
            r == (self.position().black_to_move() == (self.black_type() == Type::Human)),
    {
        let black_turn = self.board.turn() == Color::Black;
        if black_turn {
            self.black_player == Type::Human
        } else {
            self.black_player == Type::Cpu
        }
    }

    /// The candidate moves of the side to move, lowest square first.
    pub fn candidates(&self) -> (r: Vec<u64>)
        ensures
            r@ == self.choices(),
    {
        let legal = self.board.legalMoves();
        self.board.split_moves(legal)
    }

    /// Plays the `choice`-th candidate (1-based). Returns whether the board
    /// is now full, which ends the match.
    pub fn play(&mut self, choice: usize) -> (finished: bool)
        requires
            old(self).wf(),
            1 <= choice <= old(self).choices().len(),
            old(self).position().move_count() < usize::MAX,
        ensures
            final(self).wf(),
            ({
                let b = old(self).position();
                let p = old(self).choices()[choice - 1];
                let t = flips(b.mover(), b.opponent(), p);
                &&& final(self).position().move_count() == b.move_count() + 1
                &&& final(self).position().opponent() == b.mover() ^ p ^ t
                &&& final(self).position().mover() == b.opponent() ^ t
            }),
            !final(self).last_was_pass(),
            finished == final(self).position().is_full(),
            final(self).phase() == (if finished {
                OthelloGameState::MatchFinished
            } else {
                OthelloGameState::InMatch
            }),
            final(self).black_type() == old(self).black_type(),
            final(self).human() == old(self).human(),
    {
        let moves = self.candidates();
        let position = moves[choice - 1];
        proof {
            let m = old(self).position().legal();
            lemma_decompose_round_trip(m);
            lemma_decompose_within(m);
            assert(decompose(m)[choice - 1] == position);
        }
        self.board = self.board.reverse(position);
        self.passed = false;
        let finished = self.board.end();
        self.state = if finished {
            OthelloGameState::MatchFinished
        } else {
            OthelloGameState::InMatch
        };
        finished
    }

    /// The side to move, having no legal move, passes. A pass right after a
    /// pass ends the match; the return value says whether it did.
    pub fn pass_turn(&mut self) -> (finished: bool)
        requires
            old(self).position().legal() == 0,
            old(self).position().move_count() < usize::MAX,
        ensures
            old(self).wf() ==> final(self).wf(),
            final(self).position().black_mask() == old(self).position().black_mask(),
            final(self).position().white_mask() == old(self).position().white_mask(),
            final(self).position().black_value() == old(self).position().black_value(),
            final(self).position().white_value() == old(self).position().white_value(),
            final(self).position().move_count() == old(self).position().move_count() + 1,
            final(self).last_was_pass(),
            finished == old(self).last_was_pass(),
            final(self).phase() == (if finished {
                OthelloGameState::MatchFinished
            } else {
                OthelloGameState::InMatch
            }),
            final(self).black_type() == old(self).black_type(),
            final(self).human() == old(self).human(),
    {
        self.board = self.board.pass();
        let finished = self.passed;
        self.passed = true;
        self.state = if finished {
            OthelloGameState::MatchFinished
        } else {
            OthelloGameState::InMatch
        };
        finished
    }

    /// A 1-based choice among `n` candidates for the computer.
    #[allow(non_snake_case)]
    pub fn cpuInput(n: usize) -> (r: usize)
        requires
            n >= 1,
        ensures
            1 <= r <= n,
    {
        Cpu::cpuInput(n)
    }
}

} // verus!
