//! Bit packing of bounded integers.
//!
//! Each value takes as many bits as its public bound. The bits of the values follow one another,
//! from the least significant on, and zeros fill the last byte.

use vstd::arithmetic::power2::{lemma2_to64, lemma2_to64_rest, lemma_pow2_unfold, pow2};
use vstd::bits::lemma_u64_shr_is_div;
use vstd::prelude::*;

use crate::powers::lemma_pow2_monotone;
use crate::words::{lemma_equal_bits, word_bit};

verus! {

/// The number of bits of an integer.
pub open spec fn width(n: nat) -> nat
    decreases n,
{
    if n == 0 {
        0
    } else {
        1 + width(n / 2)
    }
}

/// The number of bits of the first `n` bounds together.
pub open spec fn total_width(bounds: Seq<u64>, n: nat) -> nat
    decreases n,
{
    if n == 0 {
        0
    } else {
        total_width(bounds, (n - 1) as nat) + width(bounds[n - 1] as nat)
    }
}

/// The lowest `w` bits of a word.
pub open spec fn low_bits(word: u64, w: nat) -> Seq<bool> {
    Seq::new(w, |c: int| word_bit(word, c))
}

/// The bits of the first `n` values, one after the other.
pub open spec fn stream(values: Seq<u64>, bounds: Seq<u64>, n: nat) -> Seq<bool>
    decreases n,
{
    if n == 0 {
        Seq::empty()
    } else {
        stream(values, bounds, (n - 1) as nat) + low_bits(
            values[n - 1],
            width(bounds[n - 1] as nat),
        )
    }
}

/// Bit `q` of a sequence of bytes, from the least significant one of the first byte on.
pub open spec fn byte_stream_bit(bytes: Seq<u8>, q: int) -> bool {
    byte_bit(bytes[q / 8], q % 8)
}

/// Bit `k` of a byte.
pub open spec fn byte_bit(x: u8, k: int) -> bool {
    (x >> (k as u8)) & 1 == 1
}

/// The number of bytes that a number of bits takes.
pub open spec fn bytes_for(bits: nat) -> nat {
    (bits + 7) / 8
}

/// Whether bytes hold a stream of bits, followed by zeros.
pub open spec fn holds_stream(bytes: Seq<u8>, bits: Seq<bool>) -> bool {
    forall|q: int|
        0 <= q < 8 * bytes.len() ==> #[trigger] byte_stream_bit(bytes, q) == (q < bits.len()
            && bits[q])
}

/// Whether bytes are the packing of values with the given bounds.
pub open spec fn is_packing(bytes: Seq<u8>, values: Seq<u64>, bounds: Seq<u64>) -> bool {
    &&& bytes.len() == bytes_for(total_width(bounds, 128))
    &&& holds_stream(bytes, stream(values, bounds, 128))
}

/// Whether values are within their bounds.
pub open spec fn within_bounds(values: Seq<u64>, bounds: Seq<u64>) -> bool {
    forall|i: int| 0 <= i < 128 ==> #[trigger] values[i] <= bounds[i]
}

/// The stream is as long as the widths together.
pub proof fn lemma_stream_len(values: Seq<u64>, bounds: Seq<u64>, n: nat)
    ensures
        stream(values, bounds, n).len() == total_width(bounds, n),
    decreases n,
{
    if n > 0 {
        lemma_stream_len(values, bounds, (n - 1) as nat);
    }
}

/// Where the bits of a value stand in the stream.
pub proof fn lemma_stream_index(values: Seq<u64>, bounds: Seq<u64>, n: nat, i: int, c: int)
    requires
        0 <= i < n,
        0 <= c < width(bounds[i] as nat),
    ensures
        total_width(bounds, i as nat) + c < total_width(bounds, n),
        stream(values, bounds, n)[total_width(bounds, i as nat) + c] == word_bit(values[i], c),
    decreases n,
{
    let m = (n - 1) as nat;
    lemma_stream_len(values, bounds, m);
    if i < n - 1 {
        lemma_stream_index(values, bounds, m, i, c);
    }
}

/// An integer has no bits beyond its width.
proof fn lemma_width(n: nat)
    ensures
        n < pow2(width(n)),
        n > 0 ==> pow2((width(n) - 1) as nat) <= n,
    decreases n,
{
    lemma2_to64();
    if n > 0 {
        lemma_width(n / 2);
        lemma_pow2_unfold(width(n));
        if n / 2 > 0 {
            lemma_pow2_unfold(width(n / 2));
        }
    }
}

/// A word has at most 64 bits.
proof fn lemma_width_of_word(n: u64)
    ensures
        width(n as nat) <= 64,
{
    lemma_width(n as nat);
    lemma2_to64_rest();
    lemma2_to64();
    if width(n as nat) > 64 {
        lemma_pow2_monotone(64, (width(n as nat) - 1) as nat);
    }
}

/// A value within its bound has no bits beyond the width of the bound.
proof fn lemma_no_high_bits(value: u64, bound: u64, c: int)
    requires
        value <= bound,
        width(bound as nat) <= c < 64,
    ensures
        !word_bit(value, c),
{
    lemma_width(bound as nat);
    lemma_pow2_monotone(width(bound as nat), c as nat);
    let k = c as u64;
    lemma_u64_shr_is_div(value, k);
    assert(value as int / pow2(c as nat) as int == 0) by {
        vstd::arithmetic::div_mod::lemma_basic_div(value as int, pow2(c as nat) as int);
    }
    assert((0u64 & 1) == 0) by (bit_vector);
}

/// The total width of the bounds of an array.
proof fn lemma_total_width(bounds: Seq<u64>, n: nat)
    ensures
        total_width(bounds, n) <= 64 * n,
    decreases n,
{
    if n > 0 {
        lemma_total_width(bounds, (n - 1) as nat);
        lemma_width_of_word(bounds[n - 1]);
    }
}

/// The first bounds take no more bits than all.
proof fn lemma_total_width_grows(bounds: Seq<u64>, m: nat, n: nat)
    requires
        m <= n,
    ensures
        total_width(bounds, m) <= total_width(bounds, n),
    decreases n,
{
    if m < n {
        lemma_total_width_grows(bounds, m, (n - 1) as nat);
    }
}

/// Returns the number of bits of a bound.
pub fn bounded_u64_bit_width(bound: u64) -> (r: usize)
    ensures
        r == width(bound as nat),
        r <= 64,
{
    let mut rest: u64 = bound;
    let mut bits: usize = 0;
    proof {
        lemma_width_of_word(bound);
    }
    while rest != 0
        invariant
            bits + width(rest as nat) == width(bound as nat),
            width(bound as nat) <= 64,
        decreases rest,
    {
        rest = rest / 2;
        bits = bits + 1;
    }
    bits
}

/// Returns the byte length used to bit-pack 128 bounded `u64` values.
pub fn packed_bounded_u64_len(bounds: &[u64; 128]) -> (r: usize)
    ensures
        r == bytes_for(total_width(bounds@, 128)),
        r <= 1024,
{
    let mut bit_len: usize = 0;
    let mut i: usize = 0;
    while i < 128
        invariant
            i <= 128,
            bit_len == total_width(bounds@, i as nat),
            bit_len <= 64 * i,
        decreases 128 - i,
    {
        bit_len = bit_len + bounded_u64_bit_width(bounds[i]);
        i = i + 1;
    }
    (bit_len + 7) / 8
}

/// Setting a bit of a byte.
proof fn lemma_set_byte_bit(x: u8, k: int, j: int)
    requires
        0 <= k < 8,
        0 <= j < 8,
    ensures
        byte_bit(x | (1u8 << (k as u8)), j) == (j == k || byte_bit(x, j)),
{
    let (a, b) = (k as u8, j as u8);
    assert((((x | (1u8 << a)) >> b) & 1 == 1) == (b == a || (x >> b) & 1 == 1)) by (bit_vector)
        requires
            a < 8,
            b < 8,
    ;
}

/// Setting a bit of a word.
proof fn lemma_set_word_bit(x: u64, k: int, j: int)
    requires
        0 <= k < 64,
        0 <= j < 64,
    ensures
        word_bit(x | (1u64 << (k as u64)), j) == (j == k || word_bit(x, j)),
        !word_bit(0, j),
{
    let (a, b) = (k as u64, j as u64);
    assert((((x | (1u64 << a)) >> b) & 1 == 1) == (b == a || (x >> b) & 1 == 1) && !((0u64 >> b) & 1
        == 1)) by (bit_vector)
        requires
            a < 64,
            b < 64,
    ;
}

/// Bytes of zeros.
fn zero_bytes(n: usize) -> (r: Vec<u8>)
    ensures
        r@.len() == n,
        holds_stream(r@, Seq::empty()),
{
    let mut out: Vec<u8> = Vec::with_capacity(n);
    let mut i: usize = 0;
    while i < n
        invariant
            i <= n,
            out@.len() == i,
            forall|j: int| 0 <= j < i ==> #[trigger] out@[j] == 0,
        decreases n - i,
    {
        out.push(0);
        i = i + 1;
    }
    proof {
        assert forall|q: int| 0 <= q < 8 * n implies !(#[trigger] byte_stream_bit(out@, q)) by {
            assert(out@[q / 8] == 0);
            let k = (q % 8) as u8;
            assert((0u8 >> k) & 1 == 0) by (bit_vector);
        }
    }
    out
}

/// Packs bounded `u64` values into a little-endian bitstream, if all are within their bounds.
pub fn pack_bounded_u64_array(values: &[u64; 128], bounds: &[u64; 128]) -> (r: Option<Vec<u8>>)
    ensures
        match r {
            Some(bytes) => within_bounds(values@, bounds@) && is_packing(
                bytes@,
                values@,
                bounds@,
            ),
            None => !within_bounds(values@, bounds@),
        },
{
    let len: usize = packed_bounded_u64_len(bounds);
    let mut bytes: Vec<u8> = zero_bytes(len);
    let mut bit_offset: usize = 0;
    let mut i: usize = 0;
    while i < 128
        invariant
            i <= 128,
            len == bytes_for(total_width(bounds@, 128)),
            len <= 1024,
            bytes@.len() == len,
            bit_offset == total_width(bounds@, i as nat),
            holds_stream(bytes@, stream(values@, bounds@, i as nat)),
            forall|j: int| 0 <= j < i ==> #[trigger] values@[j] <= bounds@[j],
        decreases 128 - i,
    {
        let value: u64 = values[i];
        if value > bounds[i] {
            assert(values@[i as int] > bounds@[i as int]);
            return None;
        }
        let bit_width: usize = bounded_u64_bit_width(bounds[i]);
        let ghost done = stream(values@, bounds@, i as nat);
        proof {
            lemma_stream_len(values@, bounds@, i as nat);
            lemma_total_width_grows(bounds@, (i + 1) as nat, 128);
            assert(done + low_bits(value, 0) =~= done);
        }
        let ghost start = bit_offset;
        let mut b: usize = 0;
        while b < bit_width
            invariant
                b <= bit_width,
                bit_width <= 64,
                len <= 1024,
                bytes@.len() == len,
                bit_offset == start + b,
                done.len() == start,
                start + bit_width <= 8 * len,
                holds_stream(bytes@, done + low_bits(value, b as nat)),
            decreases bit_width - b,
        {
            let ghost before = bytes@;
            let ghost so_far = done + low_bits(value, b as nat);
            let ghost next = done + low_bits(value, (b + 1) as nat);
            let index: usize = bit_offset / 8;
            let place: usize = bit_offset % 8;
            if (value >> (b as u64)) & 1 == 1 {
                let byte: u8 = bytes[index];
                bytes[index] = byte | (1u8 << (place as u8));
            }
            proof {
                assert forall|q: int| 0 <= q < 8 * bytes@.len() implies #[trigger] byte_stream_bit(
                    bytes@,
                    q,
                ) == (q < next.len() && next[q]) by {
                    assert(byte_stream_bit(before, q) == (q < so_far.len() && so_far[q]));
                    if q / 8 == index {
                        lemma_set_byte_bit(before[index as int], place as int, q % 8);
                    }
                    if q < so_far.len() {
                        assert(next[q] == so_far[q]);
                    }
                }
            }
            bit_offset = bit_offset + 1;
            b = b + 1;
        }
        proof {
            assert(stream(values@, bounds@, (i + 1) as nat) =~= done + low_bits(
                value,
                bit_width as nat,
            ));
        }
        i = i + 1;
    }
    Some(bytes)
}

/// Returns bit `q` of a sequence of bytes.
fn read_bit(bytes: &[u8], q: usize) -> (r: bool)
    requires
        q < 8 * bytes@.len(),
    ensures
        r == byte_stream_bit(bytes@, q as int),
{
    let byte: u8 = bytes[q / 8];
    let place: u8 = (q % 8) as u8;
    (byte >> place) & 1 == 1
}

/// Reads a value of `bit_width` bits at a position of the stream.
fn read_value(bytes: &[u8], start: usize, bit_width: usize) -> (value: u64)
    requires
        bit_width <= 64,
        start + bit_width <= 8 * bytes@.len(),
        8 * bytes@.len() <= usize::MAX,
    ensures
        forall|c: int|
            0 <= c < 64 ==> #[trigger] word_bit(value, c) == (c < bit_width && byte_stream_bit(
                bytes@,
                start + c,
            )),
{
    let mut value: u64 = 0;
    let mut b: usize = 0;
    proof {
        assert forall|c: int| 0 <= c < 64 implies !(#[trigger] word_bit(value, c)) by {
            lemma_set_word_bit(0, 0, c);
        }
    }
    while b < bit_width
        invariant
            b <= bit_width,
            bit_width <= 64,
            start + bit_width <= 8 * bytes@.len(),
            8 * bytes@.len() <= usize::MAX,
            forall|c: int|
                0 <= c < 64 ==> #[trigger] word_bit(value, c) == (c < b && byte_stream_bit(
                    bytes@,
                    start + c,
                )),
        decreases bit_width - b,
    {
        let ghost before = value;
        if read_bit(bytes, start + b) {
            value = value | (1u64 << (b as u64));
        }
        proof {
            assert forall|c: int| 0 <= c < 64 implies #[trigger] word_bit(value, c) == (c < b + 1
                && byte_stream_bit(bytes@, start + c)) by {
                lemma_set_word_bit(before, b as int, c);
                assert(word_bit(before, c) == (c < b && byte_stream_bit(bytes@, start + c)));
            }
        }
        b = b + 1;
    }
    value
}

/// What a value must be that is packed at a position of the stream.
proof fn lemma_value_at(
    bytes: Seq<u8>,
    values: Seq<u64>,
    bounds: Seq<u64>,
    i: int,
    value: u64,
)
    requires
        is_packing(bytes, values, bounds),
        within_bounds(values, bounds),
        0 <= i < 128,
        forall|c: int|
            0 <= c < 64 ==> #[trigger] word_bit(value, c) == (c < width(bounds[i] as nat)
                && byte_stream_bit(bytes, total_width(bounds, i as nat) + c)),
    ensures
        values[i] == value,
{
    lemma_width_of_word(bounds[i]);
    lemma_stream_len(values, bounds, 128);
    assert(values[i] <= bounds[i]);
    assert forall|c: int| 0 <= c < 64 implies word_bit(values[i], c) == word_bit(value, c) by {
        if c < width(bounds[i] as nat) {
            lemma_stream_index(values, bounds, 128, i, c);
            let q = total_width(bounds, i as nat) + c;
            assert(byte_stream_bit(bytes, q) == (q < stream(values, bounds, 128).len() && stream(
                values,
                bounds,
                128,
            )[q]));
        } else {
            lemma_no_high_bits(values[i], bounds[i], c);
        }
    }
    lemma_equal_bits(values[i], value);
}

/// Packed bytes have one unpacking.
pub proof fn law_unpacking_is_unique(
    bytes: Seq<u8>,
    a: Seq<u64>,
    b: Seq<u64>,
    bounds: Seq<u64>,
)
    requires
        a.len() == 128,
        b.len() == 128,
        within_bounds(a, bounds),
        within_bounds(b, bounds),
        is_packing(bytes, a, bounds),
        is_packing(bytes, b, bounds),
    ensures
        a == b,
{
    assert forall|i: int| 0 <= i < 128 implies a[i] == b[i] by {
        lemma_width_of_word(bounds[i]);
        lemma_stream_len(b, bounds, 128);
        assert(b[i] <= bounds[i]);
        assert forall|c: int| 0 <= c < 64 implies #[trigger] word_bit(b[i], c) == (c < width(
            bounds[i] as nat,
        ) && byte_stream_bit(bytes, total_width(bounds, i as nat) + c)) by {
            if c < width(bounds[i] as nat) {
                lemma_stream_index(b, bounds, 128, i, c);
                let q = total_width(bounds, i as nat) + c;
                assert(byte_stream_bit(bytes, q) == (q < stream(b, bounds, 128).len() && stream(
                    b,
                    bounds,
                    128,
                )[q]));
            } else {
                lemma_no_high_bits(b[i], bounds[i], c);
            }
        }
        lemma_value_at(bytes, a, bounds, i, b[i]);
    }
    assert(a =~= b);
}

/// Values have one packing.
pub proof fn law_packing_is_unique(
    a: Seq<u8>,
    b: Seq<u8>,
    values: Seq<u64>,
    bounds: Seq<u64>,
)
    requires
        is_packing(a, values, bounds),
        is_packing(b, values, bounds),
    ensures
        a == b,
{
    assert forall|i: int| 0 <= i < a.len() implies a[i] == b[i] by {
        assert forall|k: int| 0 <= k < 8 implies byte_bit(a[i], k) == byte_bit(b[i], k) by {
            let q = 8 * i + k;
            assert(q / 8 == i && q % 8 == k);
            assert(byte_stream_bit(a, q) == byte_stream_bit(b, q));
        }
        lemma_equal_bytes(a[i], b[i]);
    }
    assert(a =~= b);
}

/// Bytes with the same bits are equal.
proof fn lemma_equal_bytes(a: u8, b: u8)
    requires
        forall|k: int| 0 <= k < 8 ==> byte_bit(a, k) == byte_bit(b, k),
    ensures
        a == b,
{
    assert(byte_bit(a, 0) == byte_bit(b, 0) && byte_bit(a, 1) == byte_bit(b, 1) && byte_bit(a, 2)
        == byte_bit(b, 2) && byte_bit(a, 3) == byte_bit(b, 3) && byte_bit(a, 4) == byte_bit(b, 4)
        && byte_bit(a, 5) == byte_bit(b, 5) && byte_bit(a, 6) == byte_bit(b, 6) && byte_bit(a, 7)
        == byte_bit(b, 7));
    assert(a == b) by (bit_vector)
        requires
            ((a >> 0u8) & 1 == 1) == ((b >> 0u8) & 1 == 1),
            ((a >> 1u8) & 1 == 1) == ((b >> 1u8) & 1 == 1),
            ((a >> 2u8) & 1 == 1) == ((b >> 2u8) & 1 == 1),
            ((a >> 3u8) & 1 == 1) == ((b >> 3u8) & 1 == 1),
            ((a >> 4u8) & 1 == 1) == ((b >> 4u8) & 1 == 1),
            ((a >> 5u8) & 1 == 1) == ((b >> 5u8) & 1 == 1),
            ((a >> 6u8) & 1 == 1) == ((b >> 6u8) & 1 == 1),
            ((a >> 7u8) & 1 == 1) == ((b >> 7u8) & 1 == 1),
    ;
}

/// Unpacks a little-endian bounded `u64` bitstream, if it is the packing of values within the
/// bounds.
pub fn unpack_bounded_u64_array(bytes: &[u8], bounds: &[u64; 128]) -> (r: Option<[u64; 128]>)
    ensures
        match r {
            Some(values) => within_bounds(values@, bounds@) && is_packing(
                bytes@,
                values@,
                bounds@,
            ),
            None => forall|values: Seq<u64>|
                !(#[trigger] within_bounds(values, bounds@) && is_packing(
                    bytes@,
                    values,
                    bounds@,
                )),
        },
{
    let len: usize = packed_bounded_u64_len(bounds);
    if bytes.len() != len {
        return None;
    }
    let mut values: [u64; 128] = [0;128];
    let mut bit_offset: usize = 0;
    let mut i: usize = 0;
    while i < 128
        invariant
            i <= 128,
            bytes@.len() == bytes_for(total_width(bounds@, 128)),
            bytes@.len() <= 1024,
            bit_offset == total_width(bounds@, i as nat),
            forall|j: int| 0 <= j < i ==> #[trigger] values@[j] <= bounds@[j],
            forall|q: int|
                0 <= q < bit_offset ==> #[trigger] byte_stream_bit(bytes@, q) == stream(
                    values@,
                    bounds@,
                    i as nat,
                )[q],
        decreases 128 - i,
    {
        let bound: u64 = bounds[i];
        let bit_width: usize = bounded_u64_bit_width(bound);
        let ghost before = values@;
        proof {
            lemma_total_width_grows(bounds@, (i + 1) as nat, 128);
        }
        let value: u64 = read_value(bytes, bit_offset, bit_width);
        if value > bound {
            proof {
                assert forall|other: Seq<u64>|
                    !(#[trigger] within_bounds(other, bounds@) && is_packing(
                        bytes@,
                        other,
                        bounds@,
                    )) by {
                    if within_bounds(other, bounds@) && is_packing(bytes@, other, bounds@) {
                        lemma_value_at(bytes@, other, bounds@, i as int, value);
                        assert(other[i as int] <= bounds@[i as int]);
                    }
                }
            }
            return None;
        }
        values[i] = value;
        proof {
            let (old_stream, new_stream) = (
                stream(before, bounds@, i as nat),
                stream(values@, bounds@, (i + 1) as nat),
            );
            lemma_same_stream(before, values@, bounds@, i as nat);
            lemma_stream_len(values@, bounds@, i as nat);
            assert forall|q: int| 0 <= q < bit_offset + bit_width implies #[trigger] byte_stream_bit(
                bytes@,
                q,
            ) == new_stream[q] by {
                if q < bit_offset {
                    assert(byte_stream_bit(bytes@, q) == old_stream[q]);
                } else {
                    let c = q - bit_offset;
                    assert(word_bit(value, c) == byte_stream_bit(bytes@, bit_offset + c));
                }
            }
            assert forall|j: int| 0 <= j < i + 1 implies #[trigger] values@[j] <= bounds@[j] by {
                if j < i {
                    assert(values@[j] == before[j]);
                    assert(before[j] <= bounds@[j]);
                }
            }
        }
        bit_offset = bit_offset + bit_width;
        i = i + 1;
    }
    let mut q: usize = bit_offset;
    while q < 8 * bytes.len()
        invariant
            bytes@.len() == bytes_for(total_width(bounds@, 128)),
            bytes@.len() <= 1024,
            bit_offset == total_width(bounds@, 128),
            bit_offset <= q <= 8 * bytes@.len(),
            forall|p: int| bit_offset <= p < q ==> !(#[trigger] byte_stream_bit(bytes@, p)),
        decreases 8 * bytes@.len() - q,
    {
        if read_bit(bytes, q) {
            proof {
                assert forall|other: Seq<u64>|
                    !(#[trigger] within_bounds(other, bounds@) && is_packing(
                        bytes@,
                        other,
                        bounds@,
                    )) by {
                    if is_packing(bytes@, other, bounds@) {
                        lemma_stream_len(other, bounds@, 128);
                        assert(byte_stream_bit(bytes@, q as int) == (q < stream(
                            other,
                            bounds@,
                            128,
                        ).len() && stream(other, bounds@, 128)[q as int]));
                    }
                }
            }
            return None;
        }
        q = q + 1;
    }
    proof {
        lemma_stream_len(values@, bounds@, 128);
        assert forall|p: int| 0 <= p < 8 * bytes@.len() implies #[trigger] byte_stream_bit(bytes@, p)
            == (p < stream(values@, bounds@, 128).len() && stream(values@, bounds@, 128)[p]) by {
            if p >= bit_offset {
                assert(!byte_stream_bit(bytes@, p));
            }
        }
    }
    Some(values)
}

/// The stream of the first values does not depend on later ones.
proof fn lemma_same_stream(a: Seq<u64>, b: Seq<u64>, bounds: Seq<u64>, n: nat)
    requires
        forall|j: int| 0 <= j < n ==> a[j] == b[j],
    ensures
        stream(a, bounds, n) == stream(b, bounds, n),
    decreases n,
{
    if n > 0 {
        lemma_same_stream(a, b, bounds, (n - 1) as nat);
    }
}

/// The width of an integer is the least number of bits that hold it.
pub proof fn law_width_is_least(n: nat)
    ensures
        n < pow2(width(n)),
        n > 0 ==> pow2((width(n) - 1) as nat) <= n,
{
    lemma_width(n);
}

} // verus!
