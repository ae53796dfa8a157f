//! Bits and bytes of 64-bit words.

use vstd::prelude::*;

verus! {

/// Bit `b` of a word.
pub open spec fn word_bit(word: u64, b: int) -> bool {
    (word >> (b as u64)) & 1 == 1
}

/// Byte `n` of a word, from the least significant one on.
pub open spec fn word_byte(word: u64, n: int) -> u64 {
    (word >> ((8 * n) as u32)) & 0xff
}

/// The word whose bytes are `b0` to `b7`, from the least significant one on.
pub open spec fn word_of_bytes(
    b0: u8,
    b1: u8,
    b2: u8,
    b3: u8,
    b4: u8,
    b5: u8,
    b6: u8,
    b7: u8,
) -> u64 {
    (b0 as u64) | ((b1 as u64) << 8) | ((b2 as u64) << 16) | ((b3 as u64) << 24) | ((b4 as u64)
        << 32) | ((b5 as u64) << 40) | ((b6 as u64) << 48) | ((b7 as u64) << 56)
}

/// Byte `i` of a byte string, which counts as zero beyond its end.
pub open spec fn padded_byte(bytes: Seq<u8>, i: int) -> u8 {
    if 0 <= i < bytes.len() {
        bytes[i]
    } else {
        0
    }
}

/// Lane `i` of a byte string: bytes `8 * i` to `8 * i + 7`, as a little-endian word.
pub open spec fn lane_of_bytes(bytes: Seq<u8>, i: int) -> u64 {
    word_of_bytes(
        padded_byte(bytes, 8 * i),
        padded_byte(bytes, 8 * i + 1),
        padded_byte(bytes, 8 * i + 2),
        padded_byte(bytes, 8 * i + 3),
        padded_byte(bytes, 8 * i + 4),
        padded_byte(bytes, 8 * i + 5),
        padded_byte(bytes, 8 * i + 6),
        padded_byte(bytes, 8 * i + 7),
    )
}

/// The first `n` lanes of a byte string.
pub open spec fn lanes_of_bytes(bytes: Seq<u8>, n: nat) -> Seq<u64> {
    Seq::new(n, |i: int| lane_of_bytes(bytes, i))
}

/// What the bitwise operations do to a bit.
pub proof fn lemma_word_bits(a: u64, b: u64, i: int)
    requires
        0 <= i < 64,
    ensures
        word_bit(a ^ b, i) == (word_bit(a, i) != word_bit(b, i)),
        word_bit(a & b, i) == (word_bit(a, i) && word_bit(b, i)),
        word_bit(!a, i) == !word_bit(a, i),
        !word_bit(0, i),
{
    let j = i as u64;
    assert((((a ^ b) >> j) & 1 == 1) == (((a >> j) & 1 == 1) != ((b >> j) & 1 == 1)) && ((((a & b)
        >> j) & 1 == 1) == (((a >> j) & 1 == 1) && ((b >> j) & 1 == 1))) && (((!a >> j) & 1 == 1)
        == !((a >> j) & 1 == 1)) && !((0u64 >> j) & 1 == 1)) by (bit_vector)
        requires
            j < 64,
    ;
}

/// What the shifts do to a bit.
pub proof fn lemma_shifted_bits(a: u64, n: u32, i: int)
    requires
        0 <= i < 64,
        n < 64,
    ensures
        word_bit(a << n, i) == (i >= n && word_bit(a, i - n)),
        word_bit(a >> n, i) == (i + n < 64 && word_bit(a, i + n)),
{
    let j = i as u64;
    let d = (i - n) as u64;
    let s = (i + n) as u64;
    assert((((a << n) >> j) & 1 == 1) == (j >= n && ((a >> d) & 1 == 1)) && (((a >> n) >> j) & 1
        == 1) == (s < 64 && ((a >> s) & 1 == 1))) by (bit_vector)
        requires
            j < 64,
            n < 64,
            j >= n ==> d == j - n,
            s == j + n,
    ;
}

/// A word below 64 has no bits beyond the sixth.
pub proof fn lemma_small_word_bits(a: u64, i: int)
    requires
        a < 64,
        6 <= i < 64,
    ensures
        !word_bit(a, i),
{
    let j = i as u64;
    assert(!((a >> j) & 1 == 1)) by (bit_vector)
        requires
            a < 64,
            6 <= j < 64,
    ;
}

proof fn lemma_equal_low_bits(a: u64, b: u64, n: nat)
    requires
        n <= 64,
        forall|i: int| 0 <= i < n ==> word_bit(a, i) == word_bit(b, i),
    ensures
        n < 64 ==> ((a ^ b) << ((64 - n) as u64)) == 0 || n == 0,
        n == 64 ==> a == b,
    decreases n,
{
    if n > 0 {
        lemma_equal_low_bits(a, b, (n - 1) as nat);
        let k = (n - 1) as u64;
        assert(word_bit(a, n - 1) == word_bit(b, n - 1));
        assert((k == 0 || ((a ^ b) << ((64 - k) as u64)) == 0) && ((a >> k) & 1 == 1) == ((b >> k)
            & 1 == 1) ==> (k < 63 ==> ((a ^ b) << ((63 - k) as u64)) == 0) && (k == 63 ==> a == b))
            by (bit_vector)
            requires
                k < 64,
        ;
    }
}

/// Words with the same bits are equal.
pub proof fn lemma_equal_bits(a: u64, b: u64)
    requires
        forall|i: int| 0 <= i < 64 ==> word_bit(a, i) == word_bit(b, i),
    ensures
        a == b,
{
    lemma_equal_low_bits(a, b, 64);
}

proof fn lemma_bytes_of_word(
    b0: u8,
    b1: u8,
    b2: u8,
    b3: u8,
    b4: u8,
    b5: u8,
    b6: u8,
    b7: u8,
    n: u32,
    k: u64,
)
    by (bit_vector)
    requires
        n < 8,
        k < 8,
    ensures
        ({
            let w = (b0 as u64) | ((b1 as u64) << 8) | ((b2 as u64) << 16) | ((b3 as u64) << 24) | ((
            b4 as u64) << 32) | ((b5 as u64) << 40) | ((b6 as u64) << 48) | ((b7 as u64) << 56);
            let b = if n == 0 {
                b0
            } else if n == 1 {
                b1
            } else if n == 2 {
                b2
            } else if n == 3 {
                b3
            } else if n == 4 {
                b4
            } else if n == 5 {
                b5
            } else if n == 6 {
                b6
            } else {
                b7
            };
            &&& (w >> ((8 * n) as u32)) & 0xff == b as u64
            &&& ((w >> ((8 * n + k) as u64)) & 1 == 1) == (((b as u64) >> k) & 1 == 1)
        }),
{
}

/// The bytes of a lane are those of the byte string.
pub proof fn lemma_lane_bytes(bytes: Seq<u8>, i: int, n: int)
    requires
        0 <= n < 8,
    ensures
        word_byte(lane_of_bytes(bytes, i), n) == padded_byte(bytes, 8 * i + n),
{
    lemma_bytes_of_word(
        padded_byte(bytes, 8 * i),
        padded_byte(bytes, 8 * i + 1),
        padded_byte(bytes, 8 * i + 2),
        padded_byte(bytes, 8 * i + 3),
        padded_byte(bytes, 8 * i + 4),
        padded_byte(bytes, 8 * i + 5),
        padded_byte(bytes, 8 * i + 6),
        padded_byte(bytes, 8 * i + 7),
        n as u32,
        0,
    );
}

/// The bits of a lane are those of the bytes of the byte string.
pub proof fn lemma_lane_bits(bytes: Seq<u8>, i: int, n: int, k: int)
    requires
        0 <= n < 8,
        0 <= k < 8,
    ensures
        word_bit(lane_of_bytes(bytes, i), 8 * n + k) == word_bit(
            padded_byte(bytes, 8 * i + n) as u64,
            k,
        ),
{
    lemma_bytes_of_word(
        padded_byte(bytes, 8 * i),
        padded_byte(bytes, 8 * i + 1),
        padded_byte(bytes, 8 * i + 2),
        padded_byte(bytes, 8 * i + 3),
        padded_byte(bytes, 8 * i + 4),
        padded_byte(bytes, 8 * i + 5),
        padded_byte(bytes, 8 * i + 6),
        padded_byte(bytes, 8 * i + 7),
        n as u32,
        k as u64,
    );
}

fn byte_or_zero(bytes: &[u8], i: usize) -> (r: u64)
    ensures
        r == padded_byte(bytes@, i as int),
{
    if i < bytes.len() {
        bytes[i] as u64
    } else {
        0
    }
}

/// Returns a lane of a byte string.
pub fn read_lane(bytes: &[u8], i: usize) -> (r: u64)
    requires
        8 * i + 7 <= usize::MAX,
    ensures
        r == lane_of_bytes(bytes@, i as int),
{
    byte_or_zero(bytes, 8 * i) | (byte_or_zero(bytes, 8 * i + 1) << 8) | (byte_or_zero(
        bytes,
        8 * i + 2,
    ) << 16) | (byte_or_zero(bytes, 8 * i + 3) << 24) | (byte_or_zero(bytes, 8 * i + 4) << 32) | (
    byte_or_zero(bytes, 8 * i + 5) << 40) | (byte_or_zero(bytes, 8 * i + 6) << 48) | (byte_or_zero(
        bytes,
        8 * i + 7,
    ) << 56)
}

/// Equal numbers have equal lowest digits and equal rests.
pub proof fn lemma_peel(base: int, x: int, y: int, m: int, n: int)
    requires
        x + base * m == y + base * n,
        0 <= x < base,
        0 <= y < base,
    ensures
        x == y,
        m == n,
{
    assert(x == y && m == n) by (nonlinear_arith)
        requires
            x + base * m == y + base * n,
            0 <= x < base,
            0 <= y < base,
    ;
}

/// The bytes of the lanes of a byte string are its bytes, with zeros behind its end.
pub proof fn law_lanes_hold_bytes(bytes: Seq<u8>, n: nat, j: int)
    requires
        0 <= j < 8 * n,
    ensures
        lanes_of_bytes(bytes, n).len() == n,
        word_byte(lanes_of_bytes(bytes, n)[j / 8], j % 8) == if j < bytes.len() {
            bytes[j] as u64
        } else {
            0
        },
{
    lemma_lane_bytes(bytes, j / 8, j % 8);
    assert(8 * (j / 8) + j % 8 == j);
}

} // verus!
