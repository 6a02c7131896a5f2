use vstd::prelude::*;

verus! {

broadcast use vstd::std_specs::bits::axiom_u64_trailing_zeros;

/// The square `i` (0..63) is occupied in `m`.
pub open spec fn has_bit(m: u64, i: nat) -> bool {
    (m >> (i as u64)) & 1 == 1
}

/// `m` holds exactly one set bit.
pub open spec fn is_single_bit(m: u64) -> bool {
    m != 0 && m & vstd::prelude::sub(m, 1) == 0
}

/// The least significant set bit of `m` (zero when `m` is zero).
pub open spec fn low_bit(m: u64) -> u64 {
    m & !vstd::prelude::sub(m, 1)
}

/// Number of occupied squares of `m` among the squares `0..k`.
pub open spec fn count_below(m: u64, k: nat) -> nat
    decreases k,
{
    if k == 0 {
        0
    } else {
        count_below(m, (k - 1) as nat) + if has_bit(m, (k - 1) as nat) {
            1nat
        } else {
            0nat
        }
    }
}

/// Number of set bits of `m`.
pub open spec fn popcount(m: u64) -> nat {
    count_below(m, 64)
}

proof fn lemma_low_bit_shrinks(m: u64)
    requires
        m != 0,
    ensures
        (m ^ low_bit(m)) < m,
{
    assert(m != 0 ==> (m ^ (m & !vstd::prelude::sub(m, 1)))< m) by (bit_vector);
}

#[via_fn]
proof fn decompose_decreases(m: u64) {
    if m != 0 {
        lemma_low_bit_shrinks(m);
    }
}

/// The set bits of `m`, each as a single-bit mask, lowest first.
pub open spec fn decompose(m: u64) -> Seq<u64>
    decreases m,
    via decompose_decreases
{
    if m == 0 {
        Seq::empty()
    } else {
        seq![low_bit(m)].add(decompose(m ^ low_bit(m)))
    }
}

/// The union of all masks of `s`.
pub open spec fn union_all(s: Seq<u64>) -> u64
    decreases s.len(),
{
    if s.len() == 0 {
        0
    } else {
        s[0] | union_all(s.drop_first())
    }
}

/// Keeps only the least significant set bit of `mask`.
pub fn isolate_lowest_bit(mask: u64) -> (r: u64)
    ensures
        r == low_bit(mask),
        mask != 0 ==> is_single_bit(r),
        mask == 0 ==> r == 0,
{
    proof {
        lemma_low_bit_single(mask);
        lemma_wrapping_sub_one(mask);
    }
    mask & !mask.wrapping_sub(1)
}

proof fn lemma_low_bit_single(m: u64)
    ensures
        m != 0 ==> is_single_bit(low_bit(m)),
        m == 0 ==> low_bit(m) == 0,
        low_bit(m) & m == low_bit(m),
{
    assert(m != 0 ==> ((m & !vstd::prelude::sub(m, 1)) != 0 && (m & !vstd::prelude::sub(m, 1))
        & vstd::prelude::sub(m & !vstd::prelude::sub(m, 1), 1) == 0)) by (bit_vector);
    assert(m == 0 ==> (m & !vstd::prelude::sub(m, 1)) == 0) by (bit_vector);
    assert((m & !vstd::prelude::sub(m, 1)) & m == (m & !vstd::prelude::sub(m, 1))) by (bit_vector);
}

/// Multiplier of the bit-index hash: the product of a single-bit mask and this
/// constant holds, in its top six bits, a distinct value for each square.
pub const BIT_INDEX_MULTIPLIER: u64 = 0x03F566ED27179461;

/// The square of each value of the bit-index hash.
pub const BIT_INDEX_TABLE: [u8; 64] = [
    0, 1, 59, 2, 60, 40, 54, 3, 61, 32, 49, 41, 55, 19, 35, 4,
    62, 52, 30, 33, 50, 12, 14, 42, 56, 16, 27, 20, 36, 23, 44, 5,
    63, 58, 39, 53, 31, 48, 18, 34, 51, 29, 11, 13, 15, 26, 22, 43,
    57, 38, 47, 17, 28, 10, 25, 21, 37, 46, 9, 24, 45, 8, 7, 6,
];

/// The top six bits of the low 64 bits of `x * BIT_INDEX_MULTIPLIER`.
pub open spec fn bit_index_hash(x: u64) -> int {
    ((x as int * BIT_INDEX_MULTIPLIER as int) % 0x1_0000_0000_0000_0000) / 0x400_0000_0000_0000
}

/// The hash of every single-bit mask selects its own square in the table.
proof fn lemma_bit_index_table(k: u64)
    requires
        k < 64,
    ensures
        0 <= bit_index_hash(1u64 << k) < 64,
        BIT_INDEX_TABLE@[bit_index_hash(1u64 << k)] == k,
{
    assert(
        1u64 << 0u64 == 1u64 &&
        1u64 << 1u64 == 2u64 &&
        1u64 << 2u64 == 4u64 &&
        1u64 << 3u64 == 8u64 &&
        1u64 << 4u64 == 16u64 &&
        1u64 << 5u64 == 32u64 &&
        1u64 << 6u64 == 64u64 &&
        1u64 << 7u64 == 128u64 &&
        1u64 << 8u64 == 256u64 &&
        1u64 << 9u64 == 512u64 &&
        1u64 << 10u64 == 1024u64 &&
        1u64 << 11u64 == 2048u64 &&
        1u64 << 12u64 == 4096u64 &&
        1u64 << 13u64 == 8192u64 &&
        1u64 << 14u64 == 16384u64 &&
        1u64 << 15u64 == 32768u64 &&
        1u64 << 16u64 == 65536u64 &&
        1u64 << 17u64 == 131072u64 &&
        1u64 << 18u64 == 262144u64 &&
        1u64 << 19u64 == 524288u64 &&
        1u64 << 20u64 == 1048576u64 &&
        1u64 << 21u64 == 2097152u64 &&
        1u64 << 22u64 == 4194304u64 &&
        1u64 << 23u64 == 8388608u64 &&
        1u64 << 24u64 == 16777216u64 &&
        1u64 << 25u64 == 33554432u64 &&
        1u64 << 26u64 == 67108864u64 &&
        1u64 << 27u64 == 134217728u64 &&
        1u64 << 28u64 == 268435456u64 &&
        1u64 << 29u64 == 536870912u64 &&
        1u64 << 30u64 == 1073741824u64 &&
        1u64 << 31u64 == 2147483648u64 &&
        1u64 << 32u64 == 4294967296u64 &&
        1u64 << 33u64 == 8589934592u64 &&
        1u64 << 34u64 == 17179869184u64 &&
        1u64 << 35u64 == 34359738368u64 &&
        1u64 << 36u64 == 68719476736u64 &&
        1u64 << 37u64 == 137438953472u64 &&
        1u64 << 38u64 == 274877906944u64 &&
        1u64 << 39u64 == 549755813888u64 &&
        1u64 << 40u64 == 1099511627776u64 &&
        1u64 << 41u64 == 2199023255552u64 &&
        1u64 << 42u64 == 4398046511104u64 &&
        1u64 << 43u64 == 8796093022208u64 &&
        1u64 << 44u64 == 17592186044416u64 &&
        1u64 << 45u64 == 35184372088832u64 &&
        1u64 << 46u64 == 70368744177664u64 &&
        1u64 << 47u64 == 140737488355328u64 &&
        1u64 << 48u64 == 281474976710656u64 &&
        1u64 << 49u64 == 562949953421312u64 &&
        1u64 << 50u64 == 1125899906842624u64 &&
        1u64 << 51u64 == 2251799813685248u64 &&
        1u64 << 52u64 == 4503599627370496u64 &&
        1u64 << 53u64 == 9007199254740992u64 &&
        1u64 << 54u64 == 18014398509481984u64 &&
        1u64 << 55u64 == 36028797018963968u64 &&
        1u64 << 56u64 == 72057594037927936u64 &&
        1u64 << 57u64 == 144115188075855872u64 &&
        1u64 << 58u64 == 288230376151711744u64 &&
        1u64 << 59u64 == 576460752303423488u64 &&
        1u64 << 60u64 == 1152921504606846976u64 &&
        1u64 << 61u64 == 2305843009213693952u64 &&
        1u64 << 62u64 == 4611686018427387904u64 &&
        1u64 << 63u64 == 9223372036854775808u64
    ) by (bit_vector);
    assert(
        bit_index_hash(1u64) == 0 &&
        bit_index_hash(2u64) == 1 &&
        bit_index_hash(4u64) == 3 &&
        bit_index_hash(8u64) == 7 &&
        bit_index_hash(16u64) == 15 &&
        bit_index_hash(32u64) == 31 &&
        bit_index_hash(64u64) == 63 &&
        bit_index_hash(128u64) == 62 &&
        bit_index_hash(256u64) == 61 &&
        bit_index_hash(512u64) == 58 &&
        bit_index_hash(1024u64) == 53 &&
        bit_index_hash(2048u64) == 42 &&
        bit_index_hash(4096u64) == 21 &&
        bit_index_hash(8192u64) == 43 &&
        bit_index_hash(16384u64) == 22 &&
        bit_index_hash(32768u64) == 44 &&
        bit_index_hash(65536u64) == 25 &&
        bit_index_hash(131072u64) == 51 &&
        bit_index_hash(262144u64) == 38 &&
        bit_index_hash(524288u64) == 13 &&
        bit_index_hash(1048576u64) == 27 &&
        bit_index_hash(2097152u64) == 55 &&
        bit_index_hash(4194304u64) == 46 &&
        bit_index_hash(8388608u64) == 29 &&
        bit_index_hash(16777216u64) == 59 &&
        bit_index_hash(33554432u64) == 54 &&
        bit_index_hash(67108864u64) == 45 &&
        bit_index_hash(134217728u64) == 26 &&
        bit_index_hash(268435456u64) == 52 &&
        bit_index_hash(536870912u64) == 41 &&
        bit_index_hash(1073741824u64) == 18 &&
        bit_index_hash(2147483648u64) == 36 &&
        bit_index_hash(4294967296u64) == 9 &&
        bit_index_hash(8589934592u64) == 19 &&
        bit_index_hash(17179869184u64) == 39 &&
        bit_index_hash(34359738368u64) == 14 &&
        bit_index_hash(68719476736u64) == 28 &&
        bit_index_hash(137438953472u64) == 56 &&
        bit_index_hash(274877906944u64) == 49 &&
        bit_index_hash(549755813888u64) == 34 &&
        bit_index_hash(1099511627776u64) == 5 &&
        bit_index_hash(2199023255552u64) == 11 &&
        bit_index_hash(4398046511104u64) == 23 &&
        bit_index_hash(8796093022208u64) == 47 &&
        bit_index_hash(17592186044416u64) == 30 &&
        bit_index_hash(35184372088832u64) == 60 &&
        bit_index_hash(70368744177664u64) == 57 &&
        bit_index_hash(140737488355328u64) == 50 &&
        bit_index_hash(281474976710656u64) == 37 &&
        bit_index_hash(562949953421312u64) == 10 &&
        bit_index_hash(1125899906842624u64) == 20 &&
        bit_index_hash(2251799813685248u64) == 40 &&
        bit_index_hash(4503599627370496u64) == 17 &&
        bit_index_hash(9007199254740992u64) == 35 &&
        bit_index_hash(18014398509481984u64) == 6 &&
        bit_index_hash(36028797018963968u64) == 12 &&
        bit_index_hash(72057594037927936u64) == 24 &&
        bit_index_hash(144115188075855872u64) == 48 &&
        bit_index_hash(288230376151711744u64) == 33 &&
        bit_index_hash(576460752303423488u64) == 2 &&
        bit_index_hash(1152921504606846976u64) == 4 &&
        bit_index_hash(2305843009213693952u64) == 8 &&
        bit_index_hash(4611686018427387904u64) == 16 &&
        bit_index_hash(9223372036854775808u64) == 32
    );
}

/// A single-bit mask is one shifted to the square of its lowest set bit.
pub proof fn lemma_single_is_shift(bit: u64)
    requires
        is_single_bit(bit),
    ensures
        bit.trailing_zeros() < 64,
        bit == 1u64 << (bit.trailing_zeros() as u64),
{
    let k = bit.trailing_zeros() as u64;
    assert(bit != 0 && bit & vstd::prelude::sub(bit, 1) == 0 && k < 64 && (bit >> k) & 1 == 1
        ==> bit == 1u64 << k) by (bit_vector);
}

/// The coordinate (0..63) of the one set bit of `bit`, read from the table
/// by the top six bits of its product with the multiplier.
pub fn index_of(bit: u64) -> (r: u32)
    requires
        is_single_bit(bit),
    ensures
        r < 64,
        bit == 1u64 << (r as u64),
{
    let hash = bit.wrapping_mul(BIT_INDEX_MULTIPLIER) >> 58u64;
    proof {
        let w = bit.wrapping_mul(BIT_INDEX_MULTIPLIER);
        assert(w >> 58u64 == w / 0x400_0000_0000_0000u64) by (bit_vector);
        lemma_single_is_shift(bit);
        lemma_bit_index_table(bit.trailing_zeros() as u64);
    }
    BIT_INDEX_TABLE[hash as usize] as u32
}

/// Number of set bits of `m`.
pub fn count_bits(m: u64) -> (r: u32)
    ensures
        r as nat == popcount(m),
        r <= 64,
{
    let mut count: u32 = 0;
    let mut i: u64 = 0;
    while i < 64
        invariant
            i <= 64,
            count as nat == count_below(m, i as nat),
            count <= i,
        decreases 64 - i,
    {
        if (m >> i) & 1 == 1 {
            count = count + 1;
        }
        i = i + 1;
    }
    count
}

/// Splits `m` into its set bits, each as a single-bit mask, lowest first.
pub fn decompose_mask(m: u64) -> (r: Vec<u64>)
    ensures
        r@ == decompose(m),
{
    let mut moves: Vec<u64> = Vec::new();
    let mut memo = m;
    while memo != 0
        invariant
            moves@ + decompose(memo) == decompose(m),
        decreases memo,
    {
        let y = isolate_lowest_bit(memo);
        proof {
            lemma_low_bit_shrinks(memo);
            assert(decompose(memo) == seq![y].add(decompose(memo ^ y)));
            assert(moves@.push(y) + decompose(memo ^ y) == moves@ + decompose(memo));
        }
        moves.push(y);
        memo = memo ^ y;
    }
    proof {
        assert(moves@ + decompose(memo) == moves@);
    }
    moves
}

/// Splitting a mask into its set bits and joining them again gives the mask
/// back, and every part holds exactly one set bit.
pub proof fn lemma_decompose_round_trip(m: u64)
    ensures
        union_all(decompose(m)) == m,
        forall|i: int| 0 <= i < decompose(m).len() ==> is_single_bit(#[trigger] decompose(m)[i]),
    decreases m,
{
    if m != 0 {
        let l = low_bit(m);
        lemma_low_bit_shrinks(m);
        lemma_low_bit_single(m);
        lemma_decompose_round_trip(m ^ l);
        let s = decompose(m);
        assert(s.drop_first() == decompose(m ^ l));
        assert(l | (m ^ l) == m) by (bit_vector)
            requires
                l & m == l,
        ;
        assert forall|i: int| 0 <= i < s.len() implies is_single_bit(#[trigger] s[i]) by {
            if i > 0 {
                assert(s[i] == decompose(m ^ l)[i - 1]);
            }
        }
    }
}

/// For each of the 64 squares, isolating the lowest bit of that square's
/// mask and taking its coordinate gives the square back.
pub proof fn lemma_indexer_round_trip(k: u64)
    requires
        k < 64,
    ensures
        low_bit(1u64 << k) == 1u64 << k,
        is_single_bit(1u64 << k),
        BIT_INDEX_TABLE@[bit_index_hash(low_bit(1u64 << k))] == k,
        forall|r: u64| r < 64 && low_bit(1u64 << k) == #[trigger] (1u64 << r) ==> r == k,
{
    lemma_bit_index_table(k);
    assert(k < 64 ==> ((1u64 << k) & !vstd::prelude::sub(1u64 << k, 1)) == 1u64 << k) by (bit_vector);
    assert(k < 64 ==> (1u64 << k) != 0 && (1u64 << k) & vstd::prelude::sub(1u64 << k, 1) == 0) by (bit_vector);
    assert forall|r: u64| r < 64 && low_bit(1u64 << k) == #[trigger] (1u64 << r) implies r == k by {
        assert(r < 64 && k < 64 && (1u64 << k) == (1u64 << r) ==> r == k) by (bit_vector);
    }
}

/// `wrapping_sub` by one agrees with machine subtraction.
pub proof fn lemma_wrapping_sub_one(m: u64)
    ensures
        m.wrapping_sub(1) == vstd::prelude::sub(m, 1),
{
    assert(m == 0 ==> vstd::prelude::sub(m, 1) == 0xffff_ffff_ffff_ffffu64) by (bit_vector);
}

/// Counting the squares of two disjoint masks together is counting each apart.
pub proof fn lemma_count_disjoint(a: u64, b: u64, k: nat)
    requires
        a & b == 0,
        k <= 64,
    ensures
        count_below(a | b, k) == count_below(a, k) + count_below(b, k),
    decreases k,
{
    if k > 0 {
        lemma_count_disjoint(a, b, (k - 1) as nat);
        lemma_bit_of_union(a, b, (k - 1) as u64);
    }
}

/// A square of the union of two disjoint masks is a square of exactly one of them.
pub proof fn lemma_bit_of_union(a: u64, b: u64, i: u64)
    requires
        a & b == 0,
        i < 64,
    ensures
        has_bit(a | b, i as nat) <==> (has_bit(a, i as nat) || has_bit(b, i as nat)),
        !(has_bit(a, i as nat) && has_bit(b, i as nat)),
{
    assert(a & b == 0 && i < 64 ==> ((((a | b) >> i) & 1 == 1) <==> ((a >> i) & 1 == 1 || (b >> i)
        & 1 == 1)) && !((a >> i) & 1 == 1 && (b >> i) & 1 == 1)) by (bit_vector);
}

/// The only square of a single-bit mask is its own.
pub proof fn lemma_bit_of_single(j: u64, i: u64)
    requires
        j < 64,
        i < 64,
    ensures
        has_bit(1u64 << j, i as nat) <==> i == j,
{
    assert(j < 64 && i < 64 ==> ((((1u64 << j) >> i) & 1 == 1) <==> i == j)) by (bit_vector);
}

/// A single-bit mask counts one square.
pub proof fn lemma_count_single(j: u64, k: nat)
    requires
        j < 64,
        k <= 64,
    ensures
        count_below(1u64 << j, k) == if (j as nat) < k {
            1nat
        } else {
            0nat
        },
    decreases k,
{
    if k > 0 {
        lemma_count_single(j, (k - 1) as nat);
        lemma_bit_of_single(j, (k - 1) as u64);
    }
}

/// Every part of the decomposition of `m` is a square of `m`.
pub proof fn lemma_decompose_within(m: u64)
    ensures
        forall|i: int| 0 <= i < decompose(m).len() ==> #[trigger] decompose(m)[i] & m == decompose(m)[i],
    decreases m,
{
    if m != 0 {
        let l = low_bit(m);
        lemma_low_bit_shrinks(m);
        lemma_low_bit_single(m);
        lemma_decompose_within(m ^ l);
        let s = decompose(m);
        assert forall|i: int| 0 <= i < s.len() implies #[trigger] s[i] & m == s[i] by {
            if i > 0 {
                let e = decompose(m ^ l)[i - 1];
                assert(s[i] == e);
                assert(e & (m ^ l) == e && l & m == l ==> e & m == e) by (bit_vector);
            }
        }
    }
}

/// A square of `a | b` is a square of `a` or of `b`; a square of `a & b` is
/// a square of both.
pub proof fn lemma_bit_or_and(a: u64, b: u64, i: u64)
    requires
        i < 64,
    ensures
        has_bit(a | b, i as nat) <==> (has_bit(a, i as nat) || has_bit(b, i as nat)),
        has_bit(a & b, i as nat) <==> (has_bit(a, i as nat) && has_bit(b, i as nat)),
        has_bit(!a, i as nat) <==> !has_bit(a, i as nat),
{
    assert(i < 64 ==> ((((a | b) >> i) & 1 == 1) <==> ((a >> i) & 1 == 1 || (b >> i) & 1 == 1)))
        by (bit_vector);
    assert(i < 64 ==> ((((a & b) >> i) & 1 == 1) <==> ((a >> i) & 1 == 1 && (b >> i) & 1 == 1)))
        by (bit_vector);
    assert(i < 64 ==> (((!a >> i) & 1 == 1) <==> !((a >> i) & 1 == 1))) by (bit_vector);
}

/// Square `i` of `x << n` is square `i - n` of `x`.
pub proof fn lemma_shl_bit(x: u64, n: u64, i: u64)
    requires
        n < 64,
        i < 64,
    ensures
        has_bit(x << n, i as nat) <==> (i >= n && has_bit(x, (i - n) as nat)),
{
    if i >= n {
        let d = (i - n) as u64;
        assert(d == vstd::prelude::sub(i, n));
        assert(n < 64 && i < 64 && i >= n ==> ((((x << n) >> i) & 1 == 1) <==> ((x >> vstd::prelude::sub(i, n)) & 1 == 1))) by (bit_vector);
    } else {
        assert(n < 64 && i < 64 && i < n ==> !(((x << n) >> i) & 1 == 1)) by (bit_vector);
    }
}

/// Square `i` of `x >> n` is square `i + n` of `x`.
pub proof fn lemma_shr_bit(x: u64, n: u64, i: u64)
    requires
        n < 64,
        i < 64,
    ensures
        has_bit(x >> n, i as nat) <==> (i + n < 64 && has_bit(x, (i + n) as nat)),
{
    let e = (i + n) as u64;
    assert(e == vstd::prelude::add(i, n));
    if i + n < 64 {
        assert(n < 64 && i < 64 && vstd::prelude::add(i, n) < 64 ==> ((((x >> n) >> i) & 1 == 1) <==> ((x >> vstd::prelude::add(i, n)) & 1 == 1))) by (bit_vector);
    } else {
        assert(n < 64 && i < 64 && vstd::prelude::add(i, n) >= 64 ==> !(((x >> n) >> i) & 1 == 1)) by (bit_vector);
    }
}

} // verus!
