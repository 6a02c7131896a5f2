use vstd::prelude::*;

use crate::bits::{
    count_bits, decompose, decompose_mask, has_bit, index_of, is_single_bit, lemma_bit_of_single,
    lemma_bit_of_union, lemma_bit_or_and, lemma_count_disjoint, lemma_count_single,
    lemma_shl_bit, lemma_shr_bit, lemma_single_is_shift, lemma_wrapping_sub_one, popcount,
};
use crate::kinds::Color;

verus! {

/// Positional value of each square, indexed by bit position: corners are
/// worth most, the squares next to them cost most.
pub const POSITION_VALUES: [i64; 64] = [
    120, -20, 20, 5, 5, 20, -20, 120,
    -20, -40, -5, -5, -5, -5, -40, -20,
    20, -5, 15, 3, 3, 15, -5, 20,
    5, -5, 3, 3, 3, 3, -5, 5,
    5, -5, 3, 3, 3, 3, -5, 5,
    20, -5, 15, 3, 3, 15, -5, 20,
    -20, -40, -5, -5, -5, -5, -40, -20,
    120, -20, 20, 5, 5, 20, -20, 120,
];

/// Positional value of square `i`.
pub open spec fn square_value(i: nat) -> int {
    POSITION_VALUES@[i as int] as int
}

/// Sum of the positional values of the occupied squares of `m` among `0..k`.
pub open spec fn value_below(m: u64, k: nat) -> int
    decreases k,
{
    if k == 0 {
        0
    } else {
        value_below(m, (k - 1) as nat) + if has_bit(m, (k - 1) as nat) {
            square_value((k - 1) as nat)
        } else {
            0
        }
    }
}

/// Sum of the positional values of the occupied squares of `m`.
pub open spec fn mask_value(m: u64) -> int {
    value_below(m, 64)
}

proof fn lemma_square_value_range(i: nat)
    requires
        i < 64,
    ensures
        -40 <= square_value(i) <= 120,
{
}

proof fn lemma_value_range(m: u64, k: nat)
    requires
        k <= 64,
    ensures
        -40 * k <= value_below(m, k) <= 120 * k,
    decreases k,
{
    if k > 0 {
        lemma_value_range(m, (k - 1) as nat);
        lemma_square_value_range((k - 1) as nat);
    }
}

/// The value of two disjoint masks together is the sum of their values.
pub proof fn lemma_value_disjoint(a: u64, b: u64, k: nat)
    requires
        a & b == 0,
        k <= 64,
    ensures
        value_below(a | b, k) == value_below(a, k) + value_below(b, k),
    decreases k,
{
    if k > 0 {
        lemma_value_disjoint(a, b, (k - 1) as nat);
        lemma_bit_of_union(a, b, (k - 1) as u64);
    }
}

proof fn lemma_value_single(j: u64, k: nat)
    requires
        j < 64,
        k <= 64,
    ensures
        value_below(1u64 << j, k) == if (j as nat) < k {
            square_value(j as nat)
        } else {
            0
        },
    decreases k,
{
    if k > 0 {
        lemma_value_single(j, (k - 1) as nat);
        lemma_bit_of_single(j, (k - 1) as u64);
    }
}

/// Sum of the positional values of the occupied squares of `m`.
pub fn value_of_mask(m: u64) -> (r: i64)
    ensures
        r == mask_value(m),
        -2560 <= r <= 7680,
{
    let mut total: i64 = 0;
    let mut i: u64 = 0;
    while i < 64
        invariant
            i <= 64,
            total == value_below(m, i as nat),
        decreases 64 - i,
    {
        proof {
            lemma_value_range(m, i as nat);
            lemma_square_value_range(i as nat);
        }
        if (m >> i) & 1 == 1 {
            total = total + POSITION_VALUES[i as usize];
        }
        i = i + 1;
    }
    proof {
        lemma_value_range(m, 64);
    }
    total
}

/// Outcome of a finished match.
#[derive(Clone, Copy, Debug, PartialEq, Eq, Structural)]
pub enum GameResult {
    Winner(Color),
    Draw,
}

/// A position: the discs of each side, the positional value each side has
/// gathered, and the number of moves (passes included) played so far.
#[derive(Clone, Copy, Debug)]
pub struct Board {
    black: u64,
    white: u64,
    v_black: i64,
    v_white: i64,
    turns: usize,
}

impl Board {
    pub closed spec fn black_mask(&self) -> u64 {
        self.black
    }

    pub closed spec fn white_mask(&self) -> u64 {
        self.white
    }

    pub closed spec fn black_value(&self) -> int {
        self.v_black as int
    }

    pub closed spec fn white_value(&self) -> int {
        self.v_white as int
    }

    pub closed spec fn move_count(&self) -> nat {
        self.turns as nat
    }

    pub open spec fn black_to_move(&self) -> bool {
        self.move_count() % 2 == 0
    }

    /// Discs of the side to move.
    pub open spec fn mover(&self) -> u64 {
        if self.black_to_move() {
            self.black_mask()
        } else {
            self.white_mask()
        }
    }

    /// Discs of the other side.
    pub open spec fn opponent(&self) -> u64 {
        if self.black_to_move() {
            self.white_mask()
        } else {
            self.black_mask()
        }
    }

    /// No square holds two discs, and each side's value is the positional
    /// value of its discs.
    pub open spec fn wf(&self) -> bool {
        &&& self.black_mask() & self.white_mask() == 0
        &&& self.black_value() == mask_value(self.black_mask())
        &&& self.white_value() == mask_value(self.white_mask())
    }

    /// Every square is occupied.
    pub open spec fn is_full(&self) -> bool {
        popcount(self.white_mask() ^ self.black_mask()) == 64
    }

    /// The standard opening: two discs of each side on the centre diagonals,
    /// black to move.
    pub fn new() -> (r: Self)
        ensures
            r.wf(),
            r.black_mask() == 0x0000000810000000u64,
            r.white_mask() == 0x0000001008000000u64,
            r.move_count() == 0,
    {
        let black: u64 = 0x0000000810000000;
        let white: u64 = 0x0000001008000000;
        proof {
            assert(black == (1u64 << 28u64) | (1u64 << 35u64)) by (bit_vector)
                requires black == 0x0000000810000000u64;
            assert(white == (1u64 << 27u64) | (1u64 << 36u64)) by (bit_vector)
                requires white == 0x0000001008000000u64;
            assert((1u64 << 28u64) & (1u64 << 35u64) == 0) by (bit_vector);
            assert((1u64 << 27u64) & (1u64 << 36u64) == 0) by (bit_vector);
            assert(black & white == 0) by (bit_vector)
                requires black == 0x0000000810000000u64, white == 0x0000001008000000u64;
            lemma_value_disjoint(1u64 << 28u64, 1u64 << 35u64, 64);
            lemma_value_disjoint(1u64 << 27u64, 1u64 << 36u64, 64);
            lemma_value_single(28, 64);
            lemma_value_single(35, 64);
            lemma_value_single(27, 64);
            lemma_value_single(36, 64);
        }
        Board { black, white, v_black: 6, v_white: 6, turns: 0 }
    }

    /// The position with the given discs after `turns` moves, each side valued
    /// by its discs; `None` when a square would hold two discs.
    pub fn from_masks(black: u64, white: u64, turns: usize) -> (r: Option<Board>)
        ensures
            r is Some <==> black & white == 0,
            r matches Some(b) ==> {
                &&& b.wf()
                &&& b.black_mask() == black
                &&& b.white_mask() == white
                &&& b.move_count() == turns
            },
    {
        if black & white != 0 {
            None
        } else {
            let v_black = value_of_mask(black);
            let v_white = value_of_mask(white);
            Some(Board { black, white, v_black, v_white, turns })
        }
    }

    /// The side to move: black after an even number of moves.
    pub fn turn(&self) -> (r: Color)
        ensures
            r == (if self.black_to_move() {
                Color::Black
            } else {
                Color::White
            }),
    {
        if self.turns % 2 == 0 {
            Color::Black
        } else {
            Color::White
        }
    }

    /// Number of moves, passes included, played so far.
    pub fn turns(&self) -> (r: usize)
        ensures
            r == self.move_count(),
    {
        self.turns
    }

    /// Positional values gathered by black and by white.
    pub fn values(&self) -> (r: (i64, i64))
        ensures
            r.0 == self.black_value(),
            r.1 == self.white_value(),
    {
        (self.v_black, self.v_white)
    }

    /// Discs of black and of white.
    pub fn occupancy(&self) -> (r: (u64, u64))
        ensures
            r.0 == self.black_mask(),
            r.1 == self.white_mask(),
    {
        (self.black, self.white)
    }

    /// The board is full.
    pub fn end(&self) -> (r: bool)
        ensures
            r == self.is_full(),
    {
        count_bits(self.white ^ self.black) == 64
    }

    /// The side to move passes: only the move count changes.
    pub fn pass(&self) -> (r: Board)
        requires
            self.move_count() < usize::MAX,
        ensures
            r.black_mask() == self.black_mask(),
            r.white_mask() == self.white_mask(),
            r.black_value() == self.black_value(),
            r.white_value() == self.white_value(),
            r.move_count() == self.move_count() + 1,
            self.wf() ==> r.wf(),
    {
        Board {
            black: self.black,
            white: self.white,
            v_black: self.v_black,
            v_white: self.v_white,
            turns: self.turns + 1,
        }
    }

    /// The side with more discs wins; equal counts are a draw.
    pub fn judge(&self) -> (r: GameResult)
        ensures
            popcount(self.white_mask()) > popcount(self.black_mask()) ==> r == GameResult::Winner(
                Color::White,
            ),
            popcount(self.white_mask()) < popcount(self.black_mask()) ==> r == GameResult::Winner(
                Color::Black,
            ),
            popcount(self.white_mask()) == popcount(self.black_mask()) ==> r == GameResult::Draw,
    {
        let white_count = count_bits(self.white);
        let black_count = count_bits(self.black);
        if white_count == black_count {
            GameResult::Draw
        } else if white_count > black_count {
            GameResult::Winner(Color::White)
        } else {
            GameResult::Winner(Color::Black)
        }
    }
}

/// Step distance of each of the four axes: along a row, a column, and the
/// two diagonals.
pub const SHIFTS: [u64; 4] = [1, 8, 7, 9];

/// For each axis, the squares a step may land on without wrapping around an
/// edge of the board.
pub const EDGE_MASKS: [u64; 4] = [
    0x7e7e7e7e7e7e7e7e,
    0x00FFFFFFFFFFFF00,
    0x007e7e7e7e7e7e00,
    0x007e7e7e7e7e7e00,
];

/// Number of extra steps a ray takes after its first one.
pub const RAY_STEPS: u64 = 5;

/// One step of `n` squares, toward higher bits or toward lower bits.
pub open spec fn step(x: u64, n: u64, toward_high: bool) -> u64 {
    if toward_high {
        x << n
    } else {
        x >> n
    }
}

/// Squares of `data` reached from `start` by stepping over squares of `data`
/// only, in `steps + 1` steps at most.
pub open spec fn ray(start: u64, data: u64, n: u64, toward_high: bool, steps: nat) -> u64
    decreases steps,
{
    if steps == 0 {
        data & step(start, n, toward_high)
    } else {
        let r = ray(start, data, n, toward_high, (steps - 1) as nat);
        r | (data & step(r, n, toward_high))
    }
}

/// A ray long enough to cross the board.
pub open spec fn fill(start: u64, data: u64, n: u64, toward_high: bool) -> u64 {
    ray(start, data, n, toward_high, RAY_STEPS as nat)
}

/// Squares one step past a run of opponent discs that starts next to a disc
/// of the mover, both ways along one axis.
pub open spec fn axis_moves(mover: u64, opponent: u64, n: u64, edge: u64) -> u64 {
    step(fill(mover, opponent & edge, n, true), n, true) | step(
        fill(mover, opponent & edge, n, false),
        n,
        false,
    )
}

pub open spec fn moves_upto(mover: u64, opponent: u64, i: nat) -> u64
    decreases i,
{
    if i == 0 {
        0
    } else {
        moves_upto(mover, opponent, (i - 1) as nat) | axis_moves(
            mover,
            opponent,
            SHIFTS@[i - 1],
            EDGE_MASKS@[i - 1],
        )
    }
}

/// Empty squares where the mover may place a disc.
pub open spec fn legal_moves(mover: u64, opponent: u64) -> u64 {
    moves_upto(mover, opponent, 4) & !(mover | opponent)
}

/// Opponent discs along one axis that lie between `position` and a disc of
/// the mover.
pub open spec fn axis_flips(mover: u64, opponent: u64, position: u64, n: u64, edge: u64) -> u64 {
    let d = opponent & edge;
    (fill(position, d, n, true) & fill(mover, d, n, false)) | (fill(position, d, n, false) & fill(
        mover,
        d,
        n,
        true,
    ))
}

pub open spec fn flips_upto(mover: u64, opponent: u64, position: u64, i: nat) -> u64
    decreases i,
{
    if i == 0 {
        0
    } else {
        flips_upto(mover, opponent, position, (i - 1) as nat) | axis_flips(
            mover,
            opponent,
            position,
            SHIFTS@[i - 1],
            EDGE_MASKS@[i - 1],
        )
    }
}

/// Opponent discs captured by a disc placed at `position`.
pub open spec fn flips(mover: u64, opponent: u64, position: u64) -> u64 {
    flips_upto(mover, opponent, position, 4)
}

proof fn lemma_ray_within(start: u64, data: u64, n: u64, toward_high: bool, steps: nat)
    ensures
        ray(start, data, n, toward_high, steps) & !data == 0,
    decreases steps,
{
    let s = step(start, n, toward_high);
    if steps == 0 {
        assert((data & s) & !data == 0) by (bit_vector);
    } else {
        let r = ray(start, data, n, toward_high, (steps - 1) as nat);
        let t = step(r, n, toward_high);
        lemma_ray_within(start, data, n, toward_high, (steps - 1) as nat);
        assert(r & !data == 0 ==> (r | (data & t)) & !data == 0) by (bit_vector);
    }
}

proof fn lemma_flips_within(mover: u64, opponent: u64, position: u64, i: nat)
    requires
        i <= 4,
    ensures
        flips_upto(mover, opponent, position, i) & !opponent == 0,
    decreases i,
{
    if i > 0 {
        let prev = flips_upto(mover, opponent, position, (i - 1) as nat);
        lemma_flips_within(mover, opponent, position, (i - 1) as nat);
        let n = SHIFTS@[i - 1];
        let d = opponent & EDGE_MASKS@[i - 1];
        let a = fill(position, d, n, true);
        let b = fill(mover, d, n, false);
        let c = fill(position, d, n, false);
        let e = fill(mover, d, n, true);
        lemma_ray_within(position, d, n, true, RAY_STEPS as nat);
        lemma_ray_within(mover, d, n, false, RAY_STEPS as nat);
        lemma_ray_within(position, d, n, false, RAY_STEPS as nat);
        lemma_ray_within(mover, d, n, true, RAY_STEPS as nat);
        let edge = EDGE_MASKS@[i - 1];
        assert(prev & !opponent == 0 && a & !d == 0 && b & !d == 0 && c & !d == 0 && e & !d == 0
            && d == opponent & edge ==> (prev | ((a & b) | (c & e))) & !opponent == 0)
            by (bit_vector);
        assert(axis_flips(mover, opponent, position, n, edge) == (a & b) | (c & e));
    } else {
        assert(0u64 & !opponent == 0) by (bit_vector);
    }
}

/// Runs a ray from `start` over the squares of `data`, `n` squares a step.
fn propagate(start: u64, data: u64, n: u64, toward_high: bool) -> (r: u64)
    requires
        n < 64,
    ensures
        r == fill(start, data, n, toward_high),
{
    let mut result = if toward_high {
        data & (start << n)
    } else {
        data & (start >> n)
    };
    let mut k: u64 = 0;
    while k < RAY_STEPS
        invariant
            n < 64,
            k <= RAY_STEPS,
            result == ray(start, data, n, toward_high, k as nat),
        decreases RAY_STEPS - k,
    {
        let next = if toward_high {
            result << n
        } else {
            result >> n
        };
        result = result | (data & next);
        k = k + 1;
    }
    result
}

/// Bit facts of a placement at an empty square `position` that captures
/// `t`, a set of opponent discs.
proof fn lemma_move_masks(mover: u64, opponent: u64, position: u64, t: u64)
    requires
        mover & opponent == 0,
        position & (mover | opponent) == 0,
        t & !opponent == 0,
    ensures
        (mover ^ position ^ t) & (opponent ^ t) == 0,
        mover ^ position ^ t == (mover | position) | t,
        (mover | position) & t == 0,
        mover & position == 0,
        opponent == (opponent ^ t) | t,
        (opponent ^ t) & t == 0,
{
    assert(mover & opponent == 0 && position & (mover | opponent) == 0 && t & !opponent == 0 ==> {
        &&& (mover ^ position ^ t) & (opponent ^ t) == 0
        &&& mover ^ position ^ t == (mover | position) | t
        &&& (mover | position) & t == 0
        &&& mover & position == 0
        &&& opponent == (opponent ^ t) | t
        &&& (opponent ^ t) & t == 0
    }) by (bit_vector);
}

proof fn lemma_sides_disjoint(b: Board)
    requires
        b.wf(),
    ensures
        b.mover() & b.opponent() == 0,
{
    let x = b.black_mask();
    let y = b.white_mask();
    assert(x & y == 0 ==> y & x == 0) by (bit_vector);
}

proof fn lemma_legal_is_empty(mover: u64, opponent: u64, position: u64)
    requires
        position & legal_moves(mover, opponent) == position,
    ensures
        position & (mover | opponent) == 0,
{
    let m = moves_upto(mover, opponent, 4);
    assert(position & (m & !(mover | opponent)) == position ==> position & (mover | opponent) == 0)
        by (bit_vector);
}

/// A legal move keeps the two sides' discs apart; the mover gains the placed
/// disc and every captured one, the opponent loses the captured ones, so the
/// discs on the board grow by exactly one.
pub proof fn lemma_move_disc_counts(b: Board, position: u64)
    requires
        b.wf(),
        is_single_bit(position),
        position & b.legal() == position,
    ensures
        ({
            let t = flips(b.mover(), b.opponent(), position);
            &&& (b.mover() ^ position ^ t) & (b.opponent() ^ t) == 0
            &&& popcount(b.mover() ^ position ^ t) == popcount(b.mover()) + 1 + popcount(t)
            &&& popcount(b.opponent() ^ t) + popcount(t) == popcount(b.opponent())
            &&& popcount(b.mover() ^ position ^ t) + popcount(b.opponent() ^ t) == popcount(
                b.mover(),
            ) + popcount(b.opponent()) + 1
        }),
{
    let tp = b.mover();
    let ntp = b.opponent();
    let t = flips(tp, ntp, position);
    lemma_sides_disjoint(b);
    lemma_legal_is_empty(tp, ntp, position);
    lemma_flips_within(tp, ntp, position, 4);
    lemma_move_masks(tp, ntp, position, t);
    lemma_count_disjoint(tp | position, t, 64);
    lemma_count_disjoint(tp, position, 64);
    lemma_count_disjoint(ntp ^ t, t, 64);
    lemma_single_is_shift(position);
    lemma_count_single(position.trailing_zeros() as u64, 64);
}

/// A board whose 64 squares all hold a disc is full, whatever the sides.
pub proof fn lemma_full_board_is_terminal(b: Board)
    requires
        b.wf(),
        popcount(b.black_mask() | b.white_mask()) == 64,
    ensures
        b.is_full(),
{
    let x = b.black_mask();
    let y = b.white_mask();
    assert(x & y == 0 ==> y ^ x == x | y) by (bit_vector);
}

impl Board {
    /// Empty squares where the side to move may place a disc.
    pub open spec fn legal(&self) -> u64 {
        legal_moves(self.mover(), self.opponent())
    }

    fn sides(&self) -> (r: (u64, u64))
        ensures
            r.0 == self.mover(),
            r.1 == self.opponent(),
    {
        if self.turns % 2 == 0 {
            (self.black, self.white)
        } else {
            (self.white, self.black)
        }
    }

    /// The set bits of `n`, each as a single-bit mask, lowest first.
    pub fn split_moves(&self, n: u64) -> (r: Vec<u64>)
        ensures
            r@ == decompose(n),
    {
        decompose_mask(n)
    }

    /// Mask of the squares where the side to move may place a disc; zero when
    /// it must pass.
    #[allow(non_snake_case)]
    pub fn legalMoves(&self) -> (r: u64)
        ensures
            r == self.legal(),
            r & (self.black_mask() | self.white_mask()) == 0,
            forall|s: int|
                on_board(s) ==> (has_bit(r, s as nat) <==> is_legal_square(
                    self.mover(),
                    self.opponent(),
                    s,
                )),
    {
        let (tp, ntp) = self.sides();
        let mut possible: u64 = 0;
        let mut i: usize = 0;
        while i < 4
            invariant
                i <= 4,
                possible == moves_upto(tp, ntp, i as nat),
            decreases 4 - i,
        {
            let n = SHIFTS[i];
            let data = ntp & EDGE_MASKS[i];
            proof {
                assert(SHIFTS@[0] < 64 && SHIFTS@[1] < 64 && SHIFTS@[2] < 64 && SHIFTS@[3] < 64);
            }
            let l = propagate(tp, data, n, true);
            let r = propagate(tp, data, n, false);
            possible = possible | ((l << n) | (r >> n));
            i = i + 1;
        }
        let result = possible & !(tp | ntp);
        proof {
            assert forall|s: int| on_board(s) implies (has_bit(result, s as nat)
                <==> is_legal_square(tp, ntp, s)) by {
                lemma_legal_moves_by_square(tp, ntp, s);
            }
            let x = self.black_mask();
            let y = self.white_mask();
            assert((tp == x && ntp == y) || (tp == y && ntp == x));
            assert(((tp == x && ntp == y) || (tp == y && ntp == x)) ==> (possible & !(tp | ntp)) & (
            x | y) == 0) by (bit_vector);
        }
        result
    }

    /// Plays `position` when it is a single legal square for the side to
    /// move; `None` otherwise, leaving nothing changed.
    pub fn try_reverse(&self, position: u64) -> (r: Option<Board>)
        requires
            self.wf(),
            self.move_count() < usize::MAX,
        ensures
            r is Some <==> (is_single_bit(position) && position & self.legal() == position),
            r matches Some(b) ==> {
                &&& b.wf()
                &&& b.move_count() == self.move_count() + 1
                &&& b.opponent() == self.mover() ^ position ^ flips(
                    self.mover(),
                    self.opponent(),
                    position,
                )
                &&& b.mover() == self.opponent() ^ flips(self.mover(), self.opponent(), position)
            },
    {
        if position == 0 || position & position.wrapping_sub(1) != 0 {
            proof {
                lemma_wrapping_sub_one(position);
            }
            return None;
        }
        proof {
            lemma_wrapping_sub_one(position);
        }
        let legal = self.legalMoves();
        if position & legal != position {
            return None;
        }
        Some(self.reverse(position))
    }

    /// Places a disc of the side to move at `position`, captures the opponent
    /// discs it brackets, moves their positional value across, and hands the
    /// move to the other side.
    pub fn reverse(&self, position: u64) -> (r: Board)
        requires
            self.wf(),
            is_single_bit(position),
            position & self.legal() == position,
            self.move_count() < usize::MAX,
        ensures
            r.wf(),
            r.move_count() == self.move_count() + 1,
            r.opponent() == self.mover() ^ position ^ flips(self.mover(), self.opponent(), position),
            r.mover() == self.opponent() ^ flips(self.mover(), self.opponent(), position),
            forall|x: int|
                on_board(x) ==> ((occupied(self.opponent(), x) && occupied(r.opponent(), x))
                    <==> is_captured(self.mover(), self.opponent(), position, x)),
    {
        let (tp, ntp) = self.sides();
        let even = self.turns % 2 == 0;
        let (v_tp, v_ntp) = if even {
            (self.v_black, self.v_white)
        } else {
            (self.v_white, self.v_black)
        };
        let mut target: u64 = 0;
        let mut i: usize = 0;
        while i < 4
            invariant
                i <= 4,
                target == flips_upto(tp, ntp, position, i as nat),
            decreases 4 - i,
        {
            let n = SHIFTS[i];
            let data = ntp & EDGE_MASKS[i];
            proof {
                assert(SHIFTS@[0] < 64 && SHIFTS@[1] < 64 && SHIFTS@[2] < 64 && SHIFTS@[3] < 64);
            }
            let l1 = propagate(position, data, n, true);
            let r1 = propagate(tp, data, n, false);
            let r2 = propagate(position, data, n, false);
            let l2 = propagate(tp, data, n, true);
            target = target | ((l1 & r1) | (r2 & l2));
            i = i + 1;
        }
        let new_tp = tp ^ position ^ target;
        let new_ntp = ntp ^ target;
        let idx = index_of(position);
        proof {
            lemma_sides_disjoint(*self);
            lemma_legal_is_empty(tp, ntp, position);
            lemma_flips_within(tp, ntp, position, 4);
            lemma_move_masks(tp, ntp, position, target);
            lemma_value_disjoint(tp | position, target, 64);
            lemma_value_disjoint(tp, position, 64);
            lemma_value_disjoint(new_ntp, target, 64);
            lemma_value_single(idx as u64, 64);
            lemma_value_range(tp, 64);
            lemma_value_range(ntp, 64);
            lemma_square_value_range(idx as nat);
        }
        let gained = value_of_mask(target);
        let new_v_tp = v_tp + POSITION_VALUES[idx as usize] + gained;
        let new_v_ntp = v_ntp - gained;
        proof {
            assert(mask_value(new_tp) == mask_value(tp) + mask_value(position) + mask_value(target));
            assert(mask_value(ntp) == mask_value(new_ntp) + mask_value(target));
            assert(new_tp & new_ntp == 0 ==> new_ntp & new_tp == 0) by (bit_vector);
            assert forall|x: int| on_board(x) implies ((occupied(ntp, x) && occupied(new_tp, x))
                <==> is_captured(tp, ntp, position, x)) by {
                lemma_flips_by_square(tp, ntp, position, x);
                lemma_changed_sides(tp, ntp, position, target, x);
            }
        }
        if even {
            Board {
                black: new_tp,
                white: new_ntp,
                v_black: new_v_tp,
                v_white: new_v_ntp,
                turns: self.turns + 1,
            }
        } else {
            Board {
                black: new_ntp,
                white: new_tp,
                v_black: new_v_ntp,
                v_white: new_v_tp,
                turns: self.turns + 1,
            }
        }
    }
}

/// The square `m` steps of `n` back from square `i`, against the direction
/// of travel.
pub open spec fn walk(i: int, m: int, n: u64, toward_high: bool) -> int {
    if toward_high {
        i - m * n
    } else {
        i + m * n
    }
}

pub open spec fn on_board(x: int) -> bool {
    0 <= x < 64
}

/// Square `x` is on the board and set in `m`.
pub open spec fn occupied(m: u64, x: int) -> bool {
    on_board(x) && has_bit(m, x as nat)
}

/// Square `i` is reached from a square of `start` in `j` steps, every one
/// of which lands on a square of `data`.
pub open spec fn reached_in(start: u64, data: u64, n: u64, toward_high: bool, i: int, j: int) -> bool {
    &&& forall|m: int| 0 <= m < j ==> #[trigger] occupied(data, walk(i, m, n, toward_high))
    &&& occupied(start, walk(i, j, n, toward_high))
}

proof fn lemma_walk_step(i: int, m: int, n: u64, toward_high: bool)
    ensures
        walk(walk(i, 1, n, toward_high), m, n, toward_high) == walk(i, m + 1, n, toward_high),
{
    let k = n as int;
    if toward_high {
        assert((i - 1 * k) - m * k == i - (m + 1) * k) by (nonlinear_arith);
    } else {
        assert((i + 1 * k) + m * k == i + (m + 1) * k) by (nonlinear_arith);
    }
}

proof fn lemma_step_bit(x: u64, n: u64, toward_high: bool, i: int)
    requires
        n < 64,
        on_board(i),
    ensures
        has_bit(step(x, n, toward_high), i as nat) <==> occupied(x, walk(i, 1, n, toward_high)),
{
    if toward_high {
        lemma_shl_bit(x, n, i as u64);
    } else {
        lemma_shr_bit(x, n, i as u64);
    }
}

/// A square is on a ray exactly when it is reached from `start` in at most
/// `steps + 1` steps over squares of `data`.
pub proof fn lemma_ray_bit(start: u64, data: u64, n: u64, toward_high: bool, steps: nat, i: int)
    requires
        n < 64,
        on_board(i),
    ensures
        has_bit(ray(start, data, n, toward_high, steps), i as nat) <==> exists|j: int|
            1 <= j <= steps + 1 && #[trigger] reached_in(start, data, n, toward_high, i, j),
    decreases steps,
{
    let w1 = walk(i, 1, n, toward_high);
    assert(walk(i, 0, n, toward_high) == i);
    if steps == 0 {
        lemma_bit_or_and(data, step(start, n, toward_high), i as u64);
        lemma_step_bit(start, n, toward_high, i);
        if has_bit(ray(start, data, n, toward_high, steps), i as nat) {
            assert(occupied(data, walk(i, 0, n, toward_high)));
            assert(reached_in(start, data, n, toward_high, i, 1));
        } else {
            assert forall|j: int| 1 <= j <= 1 implies !#[trigger] reached_in(
                start,
                data,
                n,
                toward_high,
                i,
                j,
            ) by {
                if reached_in(start, data, n, toward_high, i, j) {
                    assert(occupied(data, walk(i, 0, n, toward_high)));
                }
            }
        }
    } else {
        let r = ray(start, data, n, toward_high, (steps - 1) as nat);
        lemma_ray_bit(start, data, n, toward_high, (steps - 1) as nat, i);
        lemma_bit_or_and(r, data & step(r, n, toward_high), i as u64);
        lemma_bit_or_and(data, step(r, n, toward_high), i as u64);
        lemma_step_bit(r, n, toward_high, i);
        if on_board(w1) {
            lemma_ray_bit(start, data, n, toward_high, (steps - 1) as nat, w1);
        }
        if has_bit(ray(start, data, n, toward_high, steps), i as nat) {
            if !has_bit(r, i as nat) {
                let j = choose|j: int|
                    1 <= j <= steps && #[trigger] reached_in(start, data, n, toward_high, w1, j);
                assert forall|m: int| 0 <= m < j + 1 implies #[trigger] occupied(
                    data,
                    walk(i, m, n, toward_high),
                ) by {
                    if m > 0 {
                        lemma_walk_step(i, m - 1, n, toward_high);
                        assert(occupied(data, walk(w1, m - 1, n, toward_high)));
                    }
                }
                lemma_walk_step(i, j, n, toward_high);
                assert(reached_in(start, data, n, toward_high, i, j + 1));
            }
        } else {
            assert forall|j: int| 1 <= j <= steps + 1 implies !#[trigger] reached_in(
                start,
                data,
                n,
                toward_high,
                i,
                j,
            ) by {
                if reached_in(start, data, n, toward_high, i, j) && j == steps + 1 {
                    assert(occupied(data, walk(i, 0, n, toward_high)));
                    assert(occupied(data, walk(i, 1, n, toward_high)));
                    assert forall|m: int| 0 <= m < j - 1 implies #[trigger] occupied(
                        data,
                        walk(w1, m, n, toward_high),
                    ) by {
                        lemma_walk_step(i, m, n, toward_high);
                        assert(occupied(data, walk(i, m + 1, n, toward_high)));
                    }
                    lemma_walk_step(i, j - 1, n, toward_high);
                    assert(reached_in(start, data, n, toward_high, w1, j - 1));
                }
            }
        }
    }
}

/// Square `x` is reached from a square of `start` in 1 to 6 steps over
/// squares of `data`.
pub open spec fn reached_within(start: u64, data: u64, n: u64, toward_high: bool, x: int) -> bool {
    exists|j: int| 1 <= j <= 6 && #[trigger] reached_in(start, data, n, toward_high, x, j)
}

/// Along axis `a`, toward `toward_high`, the square next to `s` starts a run
/// of 1 to 6 opponent discs clear of the edges that the axis would wrap
/// across, and the square past the run holds a disc of the mover.
pub open spec fn brackets_from(mover: u64, opponent: u64, s: int, a: int, toward_high: bool) -> bool {
    reached_within(
        mover,
        opponent & EDGE_MASKS@[a],
        SHIFTS@[a],
        toward_high,
        walk(s, 1, SHIFTS@[a], toward_high),
    )
}

/// Square `s` is empty and brackets a run of opponent discs along some axis.
pub open spec fn is_legal_square(mover: u64, opponent: u64, s: int) -> bool {
    &&& on_board(s)
    &&& !occupied(mover | opponent, s)
    &&& exists|a: int, toward_high: bool|
        0 <= a < 4 && #[trigger] brackets_from(mover, opponent, s, a, toward_high)
}

/// Along axis `a`, square `x` lies on a run of opponent discs that reaches
/// back to `position` one way and to a disc of the mover the other way.
pub open spec fn captured_along(
    mover: u64,
    opponent: u64,
    position: u64,
    x: int,
    a: int,
    toward_high: bool,
) -> bool {
    &&& reached_within(position, opponent & EDGE_MASKS@[a], SHIFTS@[a], toward_high, x)
    &&& reached_within(mover, opponent & EDGE_MASKS@[a], SHIFTS@[a], !toward_high, x)
}

/// Square `x` is captured by a disc placed at `position`.
pub open spec fn is_captured(mover: u64, opponent: u64, position: u64, x: int) -> bool {
    &&& on_board(x)
    &&& exists|a: int, toward_high: bool|
        0 <= a < 4 && #[trigger] captured_along(mover, opponent, position, x, a, toward_high)
}

proof fn lemma_shifts_small(a: int)
    requires
        0 <= a < 4,
    ensures
        0 < SHIFTS@[a] < 64,
{
}

proof fn lemma_fill_bit(start: u64, data: u64, n: u64, toward_high: bool, x: int)
    requires
        n < 64,
    ensures
        occupied(fill(start, data, n, toward_high), x) <==> reached_within(
            start,
            data,
            n,
            toward_high,
            x,
        ),
{
    if on_board(x) {
        lemma_ray_bit(start, data, n, toward_high, RAY_STEPS as nat, x);
    } else {
        assert(walk(x, 0, n, toward_high) == x);
        assert forall|j: int| 1 <= j <= 6 implies !#[trigger] reached_in(
            start,
            data,
            n,
            toward_high,
            x,
            j,
        ) by {
            if reached_in(start, data, n, toward_high, x, j) {
                assert(occupied(data, walk(x, 0, n, toward_high)));
            }
        }
    }
}

proof fn lemma_axis_moves_bit(mover: u64, opponent: u64, a: int, s: int)
    requires
        0 <= a < 4,
        on_board(s),
    ensures
        has_bit(axis_moves(mover, opponent, SHIFTS@[a], EDGE_MASKS@[a]), s as nat) <==> (
        brackets_from(mover, opponent, s, a, true) || brackets_from(mover, opponent, s, a, false)),
{
    let n = SHIFTS@[a];
    let d = opponent & EDGE_MASKS@[a];
    lemma_shifts_small(a);
    let up = step(fill(mover, d, n, true), n, true);
    let down = step(fill(mover, d, n, false), n, false);
    lemma_bit_or_and(up, down, s as u64);
    lemma_step_bit(fill(mover, d, n, true), n, true, s);
    lemma_step_bit(fill(mover, d, n, false), n, false, s);
    lemma_fill_bit(mover, d, n, true, walk(s, 1, n, true));
    lemma_fill_bit(mover, d, n, false, walk(s, 1, n, false));
}

proof fn lemma_moves_upto_bit(mover: u64, opponent: u64, k: int, s: int)
    requires
        0 <= k <= 4,
        on_board(s),
    ensures
        has_bit(moves_upto(mover, opponent, k as nat), s as nat) <==> exists|a: int, toward_high: bool|
            0 <= a < k && #[trigger] brackets_from(mover, opponent, s, a, toward_high),
    decreases k,
{
    if k == 0 {
        let iu = s as u64;
        assert((0u64 >> iu) & 1 == 0) by (bit_vector);
    } else {
        lemma_moves_upto_bit(mover, opponent, k - 1, s);
        let prev = moves_upto(mover, opponent, (k - 1) as nat);
        let ax = axis_moves(mover, opponent, SHIFTS@[k - 1], EDGE_MASKS@[k - 1]);
        lemma_bit_or_and(prev, ax, s as u64);
        lemma_axis_moves_bit(mover, opponent, k - 1, s);
        if has_bit(moves_upto(mover, opponent, k as nat), s as nat) && !has_bit(prev, s as nat) {
            if brackets_from(mover, opponent, s, k - 1, true) {
                assert(0 <= k - 1 < k && brackets_from(mover, opponent, s, k - 1, true));
            } else {
                assert(0 <= k - 1 < k && brackets_from(mover, opponent, s, k - 1, false));
            }
        }
    }
}

/// A square is in the legal-move mask exactly when it is empty and brackets
/// a run of opponent discs ending at a disc of the mover along some axis.
pub proof fn lemma_legal_moves_by_square(mover: u64, opponent: u64, s: int)
    requires
        on_board(s),
    ensures
        has_bit(legal_moves(mover, opponent), s as nat) <==> is_legal_square(mover, opponent, s),
{
    let m = moves_upto(mover, opponent, 4);
    lemma_moves_upto_bit(mover, opponent, 4, s);
    lemma_bit_or_and(m, !(mover | opponent), s as u64);
    lemma_bit_or_and(mover | opponent, 0, s as u64);
}

proof fn lemma_axis_flips_bit(mover: u64, opponent: u64, position: u64, a: int, x: int)
    requires
        0 <= a < 4,
        on_board(x),
    ensures
        has_bit(axis_flips(mover, opponent, position, SHIFTS@[a], EDGE_MASKS@[a]), x as nat) <==> (
        captured_along(mover, opponent, position, x, a, true) || captured_along(
            mover,
            opponent,
            position,
            x,
            a,
            false,
        )),
{
    let n = SHIFTS@[a];
    let d = opponent & EDGE_MASKS@[a];
    lemma_shifts_small(a);
    let p_up = fill(position, d, n, true);
    let m_down = fill(mover, d, n, false);
    let p_down = fill(position, d, n, false);
    let m_up = fill(mover, d, n, true);
    lemma_bit_or_and(p_up & m_down, p_down & m_up, x as u64);
    lemma_bit_or_and(p_up, m_down, x as u64);
    lemma_bit_or_and(p_down, m_up, x as u64);
    lemma_fill_bit(position, d, n, true, x);
    lemma_fill_bit(mover, d, n, false, x);
    lemma_fill_bit(position, d, n, false, x);
    lemma_fill_bit(mover, d, n, true, x);
}

proof fn lemma_flips_upto_bit(mover: u64, opponent: u64, position: u64, k: int, x: int)
    requires
        0 <= k <= 4,
        on_board(x),
    ensures
        has_bit(flips_upto(mover, opponent, position, k as nat), x as nat) <==> exists|
            a: int,
            toward_high: bool,
        | 0 <= a < k && #[trigger] captured_along(mover, opponent, position, x, a, toward_high),
    decreases k,
{
    if k == 0 {
        let iu = x as u64;
        assert((0u64 >> iu) & 1 == 0) by (bit_vector);
    } else {
        lemma_flips_upto_bit(mover, opponent, position, k - 1, x);
        let prev = flips_upto(mover, opponent, position, (k - 1) as nat);
        let ax = axis_flips(mover, opponent, position, SHIFTS@[k - 1], EDGE_MASKS@[k - 1]);
        lemma_bit_or_and(prev, ax, x as u64);
        lemma_axis_flips_bit(mover, opponent, position, k - 1, x);
        if has_bit(flips_upto(mover, opponent, position, k as nat), x as nat) && !has_bit(
            prev,
            x as nat,
        ) {
            if captured_along(mover, opponent, position, x, k - 1, true) {
                assert(0 <= k - 1 < k && captured_along(mover, opponent, position, x, k - 1, true));
            } else {
                assert(0 <= k - 1 < k && captured_along(
                    mover,
                    opponent,
                    position,
                    x,
                    k - 1,
                    false,
                ));
            }
        }
    }
}

/// A square is in the flip mask exactly when it lies, along some axis, on a
/// run of opponent discs between `position` and a disc of the mover.
pub proof fn lemma_flips_by_square(mover: u64, opponent: u64, position: u64, x: int)
    requires
        on_board(x),
    ensures
        has_bit(flips(mover, opponent, position), x as nat) <==> is_captured(
            mover,
            opponent,
            position,
            x,
        ),
{
    lemma_flips_upto_bit(mover, opponent, position, 4, x);
}

proof fn lemma_changed_sides(mover: u64, opponent: u64, position: u64, t: u64, x: int)
    requires
        mover & opponent == 0,
        position & (mover | opponent) == 0,
        t & !opponent == 0,
        on_board(x),
    ensures
        (has_bit(opponent, x as nat) && has_bit(mover ^ position ^ t, x as nat)) <==> has_bit(
            t,
            x as nat,
        ),
{
    let i = x as u64;
    assert(i < 64 && mover & opponent == 0 && position & (mover | opponent) == 0 && t & !opponent
        == 0 ==> ((((opponent >> i) & 1 == 1) && (((mover ^ position ^ t) >> i) & 1 == 1)) <==> ((t
        >> i) & 1 == 1))) by (bit_vector);
}

proof fn lemma_walk_back(s: int, n: u64, toward_high: bool)
    ensures
        walk(walk(s, 1, n, toward_high), 1, n, !toward_high) == s,
{
}

/// Every legal move captures at least one disc: the opponent disc next to
/// the placed one, along an axis where it brackets a run.
pub proof fn lemma_legal_move_captures(b: Board, position: u64)
    requires
        is_single_bit(position),
        position & b.legal() == position,
    ensures
        flips(b.mover(), b.opponent(), position) != 0,
{
    let tp = b.mover();
    let ntp = b.opponent();
    lemma_single_is_shift(position);
    let k = position.trailing_zeros() as u64;
    let s = k as int;
    lemma_bit_of_single(k, k);
    lemma_bit_or_and(position, b.legal(), k);
    lemma_legal_moves_by_square(tp, ntp, s);
    let (a, high) = choose|a: int, high: bool| 0 <= a < 4 && #[trigger] brackets_from(tp, ntp, s, a, high);
    let n = SHIFTS@[a];
    let d = ntp & EDGE_MASKS@[a];
    let w1 = walk(s, 1, n, high);
    let j = choose|j: int| 1 <= j <= 6 && #[trigger] reached_in(tp, d, n, high, w1, j);
    assert(occupied(d, walk(w1, 0, n, high)));
    assert(walk(w1, 0, n, !high) == w1);
    lemma_walk_back(s, n, high);
    assert(reached_in(position, d, n, !high, w1, 1));
    assert(!!high == high);
    assert(captured_along(tp, ntp, position, w1, a, !high));
    lemma_flips_by_square(tp, ntp, position, w1);
    let t = flips(tp, ntp, position);
    let iu = w1 as u64;
    assert(t == 0 ==> (t >> iu) & 1 == 0) by (bit_vector);
}

} // verus!
