//! The hint section of a signature.
//!
//! Its first 80 bytes list the positions of the nonzero hint coefficients, polynomial after
//! polynomial and in ascending order, followed by zeros. Its last four bytes say where the list of
//! each polynomial ends.

use vstd::prelude::*;

use super::circuit::{at, CircuitBuilder, Wire};
use super::polyz::{get_byte, stream_byte};
use super::sigdecode::has_polynomials;

verus! {

/// Number of bytes that list positions of nonzero hint coefficients.
pub const HINT_INDEX_BYTES: usize = 80;

/// Number of bytes that say where the list of a polynomial ends.
pub const HINT_OFFSET_BYTES: usize = 4;

/// Total hint section bytes.
pub const HINT_SECTION_BYTES: usize = 84;

/// The positions below `n` at which a polynomial is one, in ascending order.
pub open spec fn ones_below(poly: Seq<int>, n: nat) -> Seq<int>
    decreases n,
{
    if n == 0 {
        Seq::empty()
    } else {
        let rest = ones_below(poly, (n - 1) as nat);
        if poly[n - 1] == 1 {
            rest.push(n - 1)
        } else {
            rest
        }
    }
}

/// The positions at which a hint polynomial is one.
pub open spec fn ones_of(poly: Seq<int>) -> Seq<int> {
    ones_below(poly, 256)
}

/// The positions of the first `n` polynomials, one list after the other.
pub open spec fn listed(h: Seq<Seq<int>>, n: nat) -> Seq<int>
    decreases n,
{
    if n == 0 {
        Seq::empty()
    } else {
        listed(h, (n - 1) as nat) + ones_of(h[n - 1])
    }
}

/// Byte `j` of the hint section.
pub open spec fn hint_byte(h: Seq<Seq<int>>, j: int) -> int {
    if j < 80 {
        if j < listed(h, 4).len() {
            listed(h, 4)[j]
        } else {
            0
        }
    } else {
        listed(h, (j - 79) as nat).len() as int
    }
}

/// Whether there are four polynomials of 256 bits with at most 80 ones.
pub open spec fn is_hint(h: Seq<Seq<int>>) -> bool {
    &&& are_bits(h)
    &&& listed(h, 4).len() <= 80
}

/// Whether there are four polynomials of 256 bits.
pub open spec fn are_bits(h: Seq<Seq<int>>) -> bool {
    &&& h.len() == 4
    &&& forall|i: int| 0 <= i < 4 ==> (#[trigger] h[i]).len() == 256
    &&& forall|i: int, p: int| 0 <= i < 4 && 0 <= p < 256 ==> 0 <= #[trigger] h[i][p] < 2
}

/// What the lists of ones look like.
pub proof fn lemma_ones_below(poly: Seq<int>, n: nat)
    requires
        n <= poly.len(),
    ensures
        ones_below(poly, n).len() <= n,
        forall|a: int|
            0 <= a < ones_below(poly, n).len() ==> 0 <= #[trigger] ones_below(poly, n)[a] < n
                && poly[ones_below(poly, n)[a]] == 1,
        forall|a: int, b: int|
            0 <= a < b < ones_below(poly, n).len() ==> #[trigger] ones_below(poly, n)[a]
                < #[trigger] ones_below(poly, n)[b],
    decreases n,
{
    if n > 0 {
        lemma_ones_below(poly, (n - 1) as nat);
    }
}

/// The list of the first polynomials starts the list of more of them.
pub proof fn lemma_listed_prefix(h: Seq<Seq<int>>, i: nat, n: nat)
    requires
        i <= n,
    ensures
        listed(h, i).len() <= listed(h, n).len(),
        forall|j: int| 0 <= j < listed(h, i).len() ==> listed(h, i)[j] == #[trigger] listed(h, n)[j],
    decreases n,
{
    if i < n {
        lemma_listed_prefix(h, i, (n - 1) as nat);
    }
}

/// Every one is in the list of ones.
proof fn lemma_one_is_listed(poly: Seq<int>, n: nat, p: int) -> (a: int)
    requires
        0 <= p < n,
        poly[p] == 1,
    ensures
        0 <= a < ones_below(poly, n).len(),
        ones_below(poly, n)[a] == p,
    decreases n,
{
    if p == n - 1 {
        (ones_below(poly, n).len() - 1) as int
    } else {
        lemma_one_is_listed(poly, (n - 1) as nat, p)
    }
}

/// The hint section lists the ones of a polynomial, from where the list of the polynomial before it
/// ends to where its own list ends: each byte there is the position of a one, the bytes ascend, and
/// every one is there. The bytes that are left are zero.
pub proof fn law_hint_section_lists_ones(h: Seq<Seq<int>>, i: int)
    requires
        is_hint(h),
        0 <= i < 4,
    ensures
        ({
            let start = if i == 0 {
                0
            } else {
                hint_byte(h, 79 + i)
            };
            let end = hint_byte(h, 80 + i);
            &&& 0 <= start <= end <= 80
            &&& forall|j: int|
                start <= j < end ==> 0 <= #[trigger] hint_byte(h, j) < 256 && h[i][hint_byte(h, j)]
                    == 1
            &&& forall|j: int, l: int|
                start <= j < l < end ==> #[trigger] hint_byte(h, j) < #[trigger] hint_byte(h, l)
            &&& forall|p: int|
                0 <= p < 256 && #[trigger] h[i][p] == 1 ==> exists|j: int|
                    start <= j < end && #[trigger] hint_byte(h, j) == p
            &&& forall|j: int| hint_byte(h, 83) <= j < 80 ==> #[trigger] hint_byte(h, j) == 0
        }),
{
    let start = listed(h, i as nat).len() as int;
    let end = listed(h, (i + 1) as nat).len() as int;
    assert(listed(h, 0).len() == 0);
    lemma_listed_prefix(h, (i + 1) as nat, 4);
    let ones = ones_of(h[i]);
    assert(h[i].len() == 256);
    lemma_ones_below(h[i], 256);
    assert forall|j: int| start <= j < end implies #[trigger] hint_byte(h, j) == ones[j - start] by {
        assert(listed(h, (i + 1) as nat)[j] == listed(h, 4)[j]);
    }
    assert forall|p: int| 0 <= p < 256 && #[trigger] h[i][p] == 1 implies exists|j: int|
        start <= j < end && #[trigger] hint_byte(h, j) == p by {
        let a = lemma_one_is_listed(h[i], 256, p);
        assert(hint_byte(h, start + a) == p);
    }
}

/// An ascending list of ones is no longer than the list of all of them, and equal to it where it is
/// as long.
proof fn lemma_sublist_of_ones(poly: Seq<int>, n: nat, s: Seq<int>)
    requires
        n <= poly.len(),
        forall|a: int| 0 <= a < s.len() ==> 0 <= #[trigger] s[a] < n && poly[s[a]] == 1,
        forall|a: int, b: int| 0 <= a < b < s.len() ==> #[trigger] s[a] < #[trigger] s[b],
    ensures
        s.len() <= ones_below(poly, n).len(),
        s.len() == ones_below(poly, n).len() ==> s == ones_below(poly, n),
    decreases n,
{
    if n == 0 {
        if s.len() > 0 {
            let first = s[0];
            assert(0 <= first < n);
        }
        assert(s =~= ones_below(poly, n));
    } else if s.len() > 0 && s[s.len() - 1] == n - 1 {
        let t = s.drop_last();
        assert forall|a: int| 0 <= a < t.len() implies 0 <= #[trigger] t[a] < n - 1 && poly[t[a]]
            == 1 by {
            assert(s[a] < s[s.len() - 1]);
        }
        lemma_sublist_of_ones(poly, (n - 1) as nat, t);
        assert(s =~= t.push(n - 1));
    } else {
        assert forall|a: int| 0 <= a < s.len() implies 0 <= #[trigger] s[a] < n - 1 && poly[s[a]]
            == 1 by {
            if a < s.len() - 1 {
                assert(s[a] < s[s.len() - 1]);
            }
        }
        lemma_sublist_of_ones(poly, (n - 1) as nat, s);
    }
}

/// The bits of the native hint polynomials.
pub open spec fn native_bits(h: Seq<[u8; 256]>) -> Seq<Seq<int>> {
    Seq::new(h.len(), |i: int| Seq::new(256, |p: int| h[i][p] as int))
}

/// Native packer: turns four hint polynomials into the 84-byte hint section.
pub fn pack_h_native(h_polyvec: &[[u8; 256]; 4]) -> (out: [u8; 84])
    requires
        is_hint(native_bits(h_polyvec@)),
    ensures
        forall|j: int| 0 <= j < 84 ==> out[j] == #[trigger] hint_byte(native_bits(h_polyvec@), j),
{
    let ghost h = native_bits(h_polyvec@);
    let mut out: [u8; 84] = [0u8;84];
    let mut k: usize = 0;
    let mut i: usize = 0;
    while i < 4
        invariant
            i <= 4,
            h == native_bits(h_polyvec@),
            is_hint(h),
            k == listed(h, i as nat).len(),
            k <= 80,
            forall|j: int| 0 <= j < k ==> out[j] == listed(h, i as nat)[j],
            forall|j: int| k <= j < 80 ==> out[j] == 0,
            forall|q: int| 0 <= q < i ==> #[trigger] out@[80 + q] == listed(h, (q + 1) as nat).len(),
        decreases 4 - i,
    {
        let ghost before = listed(h, i as nat);
        let ghost offsets = out@;
        proof {
            lemma_listed_prefix(h, (i + 1) as nat, 4);
        }
        let mut p: usize = 0;
        assert(before + ones_below(h[i as int], 0) =~= before);
        while p < 256
            invariant
                p <= 256,
                i < 4,
                h == native_bits(h_polyvec@),
                is_hint(h),
                before == listed(h, i as nat),
                before.len() + ones_of(h[i as int]).len() <= 80,
                k == before.len() + ones_below(h[i as int], p as nat).len(),
                forall|j: int|
                    0 <= j < k ==> out[j] == (before + ones_below(h[i as int], p as nat))[j],
                forall|j: int| k <= j < 80 ==> out[j] == 0,
                forall|j: int| 80 <= j < 84 ==> out[j] == offsets[j],
                offsets.len() == 84,
            decreases 256 - p,
        {
            assert(h[i as int][p as int] == h_polyvec[i as int][p as int]);
            proof {
                lemma_ones_grow(h[i as int], (p + 1) as nat, 256);
                lemma_ones_below(h[i as int], p as nat);
            }
            if h_polyvec[i][p] == 1 {
                out[k] = p as u8;
                k = k + 1;
            }
            p = p + 1;
        }
        out[80 + i] = k as u8;
        proof {
            assert(listed(h, (i + 1) as nat) == before + ones_of(h[i as int]));
            assert forall|q: int| 0 <= q < i + 1 implies #[trigger] out@[80 + q] == listed(
                h,
                (q + 1) as nat,
            ).len() by {
                if q < i {
                    assert(out[80 + q] == offsets[80 + q]);
                    assert(out@[80 + q] == offsets[80 + q]);
                }
            }
        }
        i = i + 1;
    }
    proof {
        assert forall|j: int| 0 <= j < 84 implies out[j] == #[trigger] hint_byte(h, j) by {
            if j >= 80 {
                assert(out@[80 + (j - 80)] == listed(h, (j - 80 + 1) as nat).len());
            }
        }
    }
    out
}

/// The list of ones grows with the bound.
proof fn lemma_ones_grow(poly: Seq<int>, m: nat, n: nat)
    requires
        m <= n,
    ensures
        ones_below(poly, m).len() <= ones_below(poly, n).len(),
    decreases n,
{
    if m < n {
        lemma_ones_grow(poly, m, (n - 1) as nat);
    }
}

/// The number of polynomials whose list ends at or before `j`.
pub open spec fn poly_at(k: Seq<int>, j: int) -> int {
    (if k[0] <= j {
        1int
    } else {
        0
    }) + (if k[1] <= j {
        1int
    } else {
        0
    }) + (if k[2] <= j {
        1int
    } else {
        0
    }) + (if k[3] <= j {
        1int
    } else {
        0
    })
}

/// What is checked of index byte `j`: a byte within a list is the position of a one of that
/// polynomial, greater than the one before it; a byte beyond all lists is zero.
pub open spec fn index_byte_checks(
    h: Seq<Seq<int>>,
    k: Seq<int>,
    bytes: Seq<int>,
    j: int,
) -> bool {
    let i = poly_at(k, j);
    &&& i < 4 ==> h[i][bytes[j]] == 1
    &&& i >= 4 ==> bytes[j] == 0
    &&& j > 0 && i < 4 && poly_at(k, j - 1) == i ==> bytes[j] > bytes[j - 1]
}

/// Whether the end positions ascend and leave room for 80 bytes.
pub open spec fn offsets_check(k: Seq<int>) -> bool {
    k[0] <= k[1] && k[1] <= k[2] && k[2] <= k[3] && k[3] <= 80
}

/// The sum of the first `n` bits.
pub open spec fn bit_sum(poly: Seq<int>, n: nat) -> int
    decreases n,
{
    if n == 0 {
        0
    } else {
        bit_sum(poly, (n - 1) as nat) + poly[n - 1]
    }
}

/// The sum of the bits of the first `n` polynomials.
pub open spec fn total_sum(h: Seq<Seq<int>>, n: nat) -> int
    decreases n,
{
    if n == 0 {
        0
    } else {
        total_sum(h, (n - 1) as nat) + bit_sum(h[n - 1], 256)
    }
}

/// What is checked of a hint, its end positions and its index bytes.
pub open spec fn hint_checks(h: Seq<Seq<int>>, k: Seq<int>, bytes: Seq<int>) -> bool {
    &&& are_bits(h)
    &&& offsets_check(k)
    &&& forall|j: int| 0 <= j < 80 ==> #[trigger] index_byte_checks(h, k, bytes, j)
    &&& total_sum(h, 4) == k[3]
}

proof fn lemma_bit_sum(poly: Seq<int>, n: nat)
    requires
        n <= poly.len(),
        forall|p: int| 0 <= p < n ==> 0 <= #[trigger] poly[p] < 2,
    ensures
        bit_sum(poly, n) == ones_below(poly, n).len(),
    decreases n,
{
    if n > 0 {
        lemma_bit_sum(poly, (n - 1) as nat);
        assert(0 <= poly[n - 1] < 2);
    }
}

proof fn lemma_total_sum(h: Seq<Seq<int>>, n: nat)
    requires
        are_bits(h),
        n <= 4,
    ensures
        total_sum(h, n) == listed(h, n).len(),
    decreases n,
{
    if n > 0 {
        lemma_total_sum(h, (n - 1) as nat);
        assert(h[n - 1].len() == 256);
        lemma_bit_sum(h[n - 1], 256);
    }
}

/// The place at which the list of polynomial `i` starts.
spec fn list_start(k: Seq<int>, i: int) -> int {
    if i == 0 {
        0
    } else {
        k[i - 1]
    }
}

/// The index bytes of polynomial `i` are an ascending list of its ones.
proof fn lemma_bytes_of_polynomial(h: Seq<Seq<int>>, k: Seq<int>, bytes: Seq<int>, i: int)
    requires
        hint_checks(h, k, bytes),
        k.len() == 4,
        bytes.len() == 80,
        forall|q: int| 0 <= q < 4 ==> 0 <= #[trigger] k[q],
        forall|j: int| 0 <= j < 80 ==> 0 <= #[trigger] bytes[j] < 256,
        0 <= i < 4,
    ensures
        ({
            let s = bytes.subrange(list_start(k, i), k[i]);
            &&& s.len() <= ones_of(h[i]).len()
            &&& s.len() == ones_of(h[i]).len() ==> s == ones_of(h[i])
        }),
{
    let lo = list_start(k, i);
    let s = bytes.subrange(lo, k[i]);
    assert(0 <= lo <= k[i] <= 80) by {
        assert(0 <= k[0] && 0 <= k[1] && 0 <= k[2] && 0 <= k[3]);
    }
    assert forall|j: int| lo <= j < k[i] implies poly_at(k, j) == i by {}
    assert forall|a: int| 0 <= a < s.len() implies 0 <= #[trigger] s[a] < 256 && h[i][s[a]] == 1 by {
        assert(index_byte_checks(h, k, bytes, lo + a));
        assert(poly_at(k, lo + a) == i);
    }
    assert(h[i].len() == 256);
    lemma_ascending(h, k, bytes, i);
    lemma_sublist_of_ones(h[i], 256, s);
}

/// The index bytes of polynomial `i` ascend.
proof fn lemma_ascending(h: Seq<Seq<int>>, k: Seq<int>, bytes: Seq<int>, i: int)
    requires
        hint_checks(h, k, bytes),
        k.len() == 4,
        bytes.len() == 80,
        forall|q: int| 0 <= q < 4 ==> 0 <= #[trigger] k[q],
        0 <= i < 4,
    ensures
        ({
            let s = bytes.subrange(list_start(k, i), k[i]);
            forall|a: int, b: int| 0 <= a < b < s.len() ==> #[trigger] s[a] < #[trigger] s[b]
        }),
{
    let lo = list_start(k, i);
    let s = bytes.subrange(lo, k[i]);
    assert(0 <= lo <= k[i] <= 80) by {
        assert(0 <= k[0] && 0 <= k[1] && 0 <= k[2] && 0 <= k[3]);
    }
    assert forall|a: int, b: int| 0 <= a < b < s.len() implies #[trigger] s[a] < #[trigger] s[b] by {
        lemma_ascending_pair(h, k, bytes, i, a, b);
    }
}

proof fn lemma_ascending_pair(
    h: Seq<Seq<int>>,
    k: Seq<int>,
    bytes: Seq<int>,
    i: int,
    a: int,
    b: int,
)
    requires
        hint_checks(h, k, bytes),
        k.len() == 4,
        bytes.len() == 80,
        forall|q: int| 0 <= q < 4 ==> 0 <= #[trigger] k[q],
        0 <= i < 4,
        0 <= a < b,
        list_start(k, i) + b < k[i],
    ensures
        bytes[list_start(k, i) + a] < bytes[list_start(k, i) + b],
    decreases b - a,
{
    let lo = list_start(k, i);
    assert(0 <= lo && k[i] <= 80) by {
        assert(0 <= k[0] && 0 <= k[1] && 0 <= k[2] && 0 <= k[3]);
    }
    assert(index_byte_checks(h, k, bytes, lo + b));
    assert(poly_at(k, lo + b) == i && poly_at(k, lo + b - 1) == i);
    if b - 1 > a {
        lemma_ascending_pair(h, k, bytes, i, a, b - 1);
    }
}

/// Whether the end positions and index bytes are those of a hint.
pub open spec fn is_encoding(h: Seq<Seq<int>>, k: Seq<int>, bytes: Seq<int>) -> bool {
    &&& forall|i: int| 0 <= i < 4 ==> #[trigger] k[i] == hint_byte(h, 80 + i)
    &&& forall|j: int| 0 <= j < 80 ==> #[trigger] bytes[j] == hint_byte(h, j)
}

/// The checks hold of a hint exactly where the bytes are its encoding.
pub proof fn law_checks_mean_encoding(h: Seq<Seq<int>>, k: Seq<int>, bytes: Seq<int>)
    requires
        k.len() == 4,
        bytes.len() == 80,
        forall|q: int| 0 <= q < 4 ==> 0 <= #[trigger] k[q] < 256,
        forall|j: int| 0 <= j < 80 ==> 0 <= #[trigger] bytes[j] < 256,
    ensures
        hint_checks(h, k, bytes) <==> is_hint(h) && is_encoding(h, k, bytes),
{
    if hint_checks(h, k, bytes) {
        lemma_checks_give_encoding(h, k, bytes);
    }
    if is_hint(h) && is_encoding(h, k, bytes) {
        lemma_encoding_gives_checks(h, k, bytes);
    }
}

proof fn lemma_checks_give_encoding(h: Seq<Seq<int>>, k: Seq<int>, bytes: Seq<int>)
    requires
        k.len() == 4,
        bytes.len() == 80,
        forall|q: int| 0 <= q < 4 ==> 0 <= #[trigger] k[q] < 256,
        forall|j: int| 0 <= j < 80 ==> 0 <= #[trigger] bytes[j] < 256,
        hint_checks(h, k, bytes),
    ensures
        is_hint(h),
        is_encoding(h, k, bytes),
{
    lemma_bytes_of_polynomial(h, k, bytes, 0);
    lemma_bytes_of_polynomial(h, k, bytes, 1);
    lemma_bytes_of_polynomial(h, k, bytes, 2);
    lemma_bytes_of_polynomial(h, k, bytes, 3);
    lemma_total_sum(h, 4);
    assert(0 <= k[0] && 0 <= k[1] && 0 <= k[2] && 0 <= k[3]);
    let (s0, s1, s2, s3) = (
        bytes.subrange(0, k[0]),
        bytes.subrange(k[0], k[1]),
        bytes.subrange(k[1], k[2]),
        bytes.subrange(k[2], k[3]),
    );
    let (l1, l2, l3, l4) = (listed(h, 1), listed(h, 2), listed(h, 3), listed(h, 4));
    assert(listed(h, 0) =~= Seq::<int>::empty());
    assert(l1 =~= ones_of(h[0]));
    assert(l2 == l1 + ones_of(h[1]));
    assert(l3 == l2 + ones_of(h[2]));
    assert(l4 == l3 + ones_of(h[3]));
    // no list is longer than that of all ones, and their total length is that of all ones
    assert(s0.len() + s1.len() + s2.len() + s3.len() == k[3]);
    assert(s0 == ones_of(h[0]) && s1 == ones_of(h[1]) && s2 == ones_of(h[2]) && s3 == ones_of(h[3]));
    assert(l1.len() == k[0] && l2.len() == k[1] && l3.len() == k[2] && l4.len() == k[3]);
    assert forall|j: int| 0 <= j < 80 implies #[trigger] bytes[j] == hint_byte(h, j) by {
        assert(index_byte_checks(h, k, bytes, j));
        if j < k[0] {
            assert(s0[j] == bytes[j]);
            assert(l4[j] == l1[j]);
        } else if j < k[1] {
            assert(s1[j - k[0]] == bytes[j]);
            assert(l4[j] == l2[j]);
        } else if j < k[2] {
            assert(s2[j - k[1]] == bytes[j]);
            assert(l4[j] == l3[j]);
        } else if j < k[3] {
            assert(s3[j - k[2]] == bytes[j]);
        }
    }
    assert forall|i: int| 0 <= i < 4 implies #[trigger] k[i] == hint_byte(h, 80 + i) by {
        if i == 0 {
        } else if i == 1 {
        } else if i == 2 {
        } else {
        }
    }
}

proof fn lemma_encoding_gives_checks(h: Seq<Seq<int>>, k: Seq<int>, bytes: Seq<int>)
    requires
        k.len() == 4,
        bytes.len() == 80,
        is_hint(h),
        is_encoding(h, k, bytes),
    ensures
        hint_checks(h, k, bytes),
{
    lemma_total_sum(h, 4);
    let (l1, l2, l3, l4) = (listed(h, 1), listed(h, 2), listed(h, 3), listed(h, 4));
    assert(listed(h, 0) =~= Seq::<int>::empty());
    assert(l1 =~= ones_of(h[0]));
    assert(l2 == l1 + ones_of(h[1]));
    assert(l3 == l2 + ones_of(h[2]));
    assert(l4 == l3 + ones_of(h[3]));
    assert(k[0] == l1.len() && k[1] == l2.len() && k[2] == l3.len() && k[3] == l4.len());
    assert(h[0].len() == 256 && h[1].len() == 256 && h[2].len() == 256 && h[3].len() == 256);
    lemma_ones_below(h[0], 256);
    lemma_ones_below(h[1], 256);
    lemma_ones_below(h[2], 256);
    lemma_ones_below(h[3], 256);
    assert forall|j: int| 0 <= j < 80 implies #[trigger] index_byte_checks(h, k, bytes, j) by {
        assert(bytes[j] == hint_byte(h, j));
        let i = poly_at(k, j);
        if j > 0 {
            assert(bytes[j - 1] == hint_byte(h, j - 1));
        }
        if i < 4 {
            let lo = list_start(k, i);
            let a = j - lo;
            assert(l4[j] == ones_of(h[i])[a]) by {
                if i == 0 {
                    assert(l4[j] == l3[j] && l3[j] == l2[j] && l2[j] == l1[j]);
                } else if i == 1 {
                    assert(l4[j] == l3[j] && l3[j] == l2[j]);
                } else if i == 2 {
                    assert(l4[j] == l3[j]);
                }
            }
            if j > 0 && poly_at(k, j - 1) == i {
                assert(l4[j - 1] == ones_of(h[i])[a - 1]) by {
                    if i == 0 {
                        assert(l4[j - 1] == l3[j - 1] && l3[j - 1] == l2[j - 1] && l2[j - 1]
                            == l1[j - 1]);
                    } else if i == 1 {
                        assert(l4[j - 1] == l3[j - 1] && l3[j - 1] == l2[j - 1]);
                    } else if i == 2 {
                        assert(l4[j - 1] == l3[j - 1]);
                    }
                }
            }
        }
    }
}

/// Every position of a one is in the list of them.
proof fn lemma_ones_are_listed(poly: Seq<int>, n: nat, p: int)
    requires
        n <= poly.len(),
        0 <= p < n,
        poly[p] == 1,
    ensures
        exists|a: int| 0 <= a < ones_below(poly, n).len() && #[trigger] ones_below(poly, n)[a] == p,
    decreases n,
{
    let all = ones_below(poly, n);
    let rest = ones_below(poly, (n - 1) as nat);
    if p == n - 1 {
        assert(all[rest.len() as int] == p);
    } else {
        lemma_ones_are_listed(poly, (n - 1) as nat, p);
        let a = choose|a: int| 0 <= a < rest.len() && #[trigger] rest[a] == p;
        assert(all[a] == p);
    }
}

/// Polynomials of bits with the same ones are equal.
proof fn lemma_ones_determine_bits(a: Seq<int>, b: Seq<int>)
    requires
        a.len() == 256,
        b.len() == 256,
        forall|p: int| 0 <= p < 256 ==> 0 <= #[trigger] a[p] < 2,
        forall|p: int| 0 <= p < 256 ==> 0 <= #[trigger] b[p] < 2,
        ones_of(a) == ones_of(b),
    ensures
        a == b,
{
    assert forall|p: int| 0 <= p < 256 implies a[p] == b[p] by {
        lemma_ones_below(a, 256);
        lemma_ones_below(b, 256);
        if a[p] == 1 {
            lemma_ones_are_listed(a, 256, p);
            let k = choose|k: int| 0 <= k < ones_of(a).len() && #[trigger] ones_below(a, 256)[k] == p;
            assert(b[ones_below(b, 256)[k]] == 1);
        }
        if b[p] == 1 {
            lemma_ones_are_listed(b, 256, p);
            let k = choose|k: int| 0 <= k < ones_of(b).len() && #[trigger] ones_below(b, 256)[k] == p;
            assert(a[ones_below(a, 256)[k]] == 1);
        }
    }
    assert(a =~= b);
}

/// No two hints share a hint section.
pub proof fn law_hint_section_is_unique(g: Seq<Seq<int>>, h: Seq<Seq<int>>)
    requires
        is_hint(g),
        is_hint(h),
        forall|j: int| 0 <= j < 84 ==> #[trigger] hint_byte(g, j) == hint_byte(h, j),
    ensures
        g == h,
{
    assert forall|n: nat| 0 < n <= 4 implies #[trigger] listed(g, n).len() == listed(h, n).len() by {
        assert(hint_byte(g, 79 + n as int) == hint_byte(h, 79 + n as int));
    }
    assert(listed(g, 4) =~= listed(h, 4)) by {
        assert forall|j: int| 0 <= j < listed(g, 4).len() implies listed(g, 4)[j] == listed(
            h,
            4,
        )[j] by {
            assert(hint_byte(g, j) == hint_byte(h, j));
        }
    }
    assert forall|i: int| 0 <= i < 4 implies g[i] == h[i] by {
        let n = (i + 1) as nat;
        let (a, b) = (ones_of(g[i]), ones_of(h[i]));
        let skip = listed(g, i as nat).len();
        lemma_listed_prefix(g, n, 4);
        lemma_listed_prefix(h, n, 4);
        assert(listed(g, n) == listed(g, i as nat) + a);
        assert(listed(h, n) == listed(h, i as nat) + b);
        assert(listed(g, n).len() == listed(h, n).len());
        assert(skip == listed(h, i as nat).len()) by {
            if i > 0 {
                assert(listed(g, i as nat).len() == listed(h, i as nat).len());
            }
        }
        assert(a =~= b) by {
            assert forall|k: int| 0 <= k < a.len() implies a[k] == b[k] by {
                assert(listed(g, n)[skip + k] == a[k]);
                assert(listed(h, n)[skip + k] == b[k]);
                assert(listed(g, 4)[skip + k] == listed(h, 4)[skip + k]);
            }
        }
        assert(g[i].len() == 256 && h[i].len() == 256);
        assert forall|p: int| 0 <= p < 256 implies 0 <= #[trigger] g[i][p] < 2 by {}
        assert forall|p: int| 0 <= p < 256 implies 0 <= #[trigger] h[i][p] < 2 by {}
        lemma_ones_determine_bits(g[i], h[i]);
    }
    assert(g =~= h);
}

/// The values of hint wires.
pub open spec fn hint_values(v: Seq<u64>, h: Seq<[Wire; 256]>) -> Seq<Seq<int>> {
    Seq::new(4, |i: int| Seq::new(256, |p: int| at(v, h[i][p]) as int))
}

/// The end positions that the lanes of a signature hold.
pub open spec fn offset_values(v: Seq<u64>, sig: Seq<Wire>) -> Seq<int> {
    Seq::new(4, |i: int| stream_byte(v, sig, 2416 + i) as int)
}

/// The index bytes that the lanes of a signature hold.
pub open spec fn index_values(v: Seq<u64>, sig: Seq<Wire>) -> Seq<int> {
    Seq::new(80, |j: int| stream_byte(v, sig, 2336 + j) as int)
}

/// The hint section that the lanes of a signature hold is that of the hint wires.
pub open spec fn holds_hint(v: Seq<u64>, sig: Seq<Wire>, h: Seq<[Wire; 256]>) -> bool {
    &&& is_hint(hint_values(v, h))
    &&& forall|j: int|
        0 <= j < 84 ==> #[trigger] stream_byte(v, sig, 2336 + j) == hint_byte(hint_values(v, h), j)
}

proof fn lemma_truth_of_words(a: u64, b: u64)
    by (bit_vector)
    ensures
        (a & b >= 0x8000_0000_0000_0000) == (a >= 0x8000_0000_0000_0000 && b
            >= 0x8000_0000_0000_0000),
        (!a >= 0x8000_0000_0000_0000) == !(a >= 0x8000_0000_0000_0000),
        (a ^ b < 1) == (a == b),
{
}

/// Whether the wires of polynomials are free wires of a circuit, from place `from` on.
pub open spec fn are_free_from(b: &CircuitBuilder, h: Seq<[Wire; 256]>, from: nat) -> bool {
    forall|i: int, p: int|
        0 <= i < h.len() && 0 <= p < 256 ==> b.is_free(#[trigger] h[i][p]) && h[i][p].index >= from
}

/// Whether the wires of polynomials stand in order, so that no two of them are the same.
pub open spec fn stand_in_order(h: Seq<[Wire; 256]>) -> bool {
    forall|i: int, p: int, j: int, q: int|
        0 <= i < h.len() && 0 <= p < 256 && 0 <= j < h.len() && 0 <= q < 256 && (i < j || i == j && p
            < q) ==> (#[trigger] h[i][p]).index < (#[trigger] h[j][q]).index
}

/// Allocates the hint wires and constrains them to hold bits.
fn witness_bits(b: &mut CircuitBuilder) -> (h: [[Wire; 256]; 4])
    requires
        old(b).is_valid(),
    ensures
        final(b).is_valid(),
        final(b).grows_from(old(b)),
        has_polynomials(final(b), h@, 4),
        are_free_from(final(b), h@, old(b).size()),
        stand_in_order(h@),
        forall|v: Seq<u64>| #[trigger] final(b).honest(v) == old(b).honest(v),
        forall|v: Seq<u64>| #[trigger]
            final(b).follows(v) ==> final(b).passes(v) == (old(b).passes(v) && are_bits(
                hint_values(v, h@),
            )),
{
    let ghost start = *b;
    let none = Wire { index: 0 };
    let mut h: [[Wire; 256]; 4] = [[none;256];4];
    let mut i: usize = 0;
    while i < 4
        invariant
            i <= 4,
            b.is_valid(),
            b.grows_from(&start),
            has_polynomials(b, h@, i as int),
            are_free_from(b, h@.take(i as int), start.size()),
            stand_in_order(h@.take(i as int)),
            forall|v: Seq<u64>| #[trigger] b.honest(v) == start.honest(v),
            forall|v: Seq<u64>| #[trigger]
                b.follows(v) ==> b.passes(v) == (start.passes(v) && forall|q: int, p: int|
                    0 <= q < i && 0 <= p < 256 ==> at(v, #[trigger] h[q][p]) < 2),
        decreases 4 - i,
    {
        let ghost before = *b;
        let row = witness_row(b);
        let ghost rows = h@;
        h[i] = row;
        proof {
            lemma_row_joins(&start, &before, b, rows.take(i as int), row);
            assert(h@.take(i + 1) =~= rows.take(i as int).push(row));
            assert forall|q: int, p: int| 0 <= q < i + 1 && 0 <= p < 256 implies b.has(
                #[trigger] h@[q][p],
            ) by {
                if q < i {
                    assert(h@[q] == rows[q]);
                    assert(before.has(rows[q][p]));
                } else {
                    assert(b.has(row@[p]));
                }
            }
            assert forall|v: Seq<u64>| #[trigger] b.follows(v) implies b.passes(v) == (
            start.passes(v) && forall|q: int, p: int|
                0 <= q < i + 1 && 0 <= p < 256 ==> at(v, #[trigger] h[q][p]) < 2) by {
                assert(before.follows(v));
                if b.passes(v) {
                    assert forall|q: int, p: int| 0 <= q < i + 1 && 0 <= p < 256 implies at(
                        v,
                        #[trigger] h[q][p],
                    ) < 2 by {
                        if q < i {
                            assert(h@[q] == rows[q]);
                            assert(at(v, rows[q][p]) < 2);
                        } else {
                            assert(at(v, row[p]) < 2);
                        }
                    }
                }
                if start.passes(v) && forall|q: int, p: int|
                    0 <= q < i + 1 && 0 <= p < 256 ==> at(v, #[trigger] h[q][p]) < 2 {
                    assert forall|q: int, p: int| 0 <= q < i && 0 <= p < 256 implies at(
                        v,
                        #[trigger] rows[q][p],
                    ) < 2 by {
                        assert(at(v, h[q][p]) < 2);
                    }
                    assert(before.passes(v));
                    assert forall|p: int| 0 <= p < 256 implies at(v, #[trigger] row[p]) < 2 by {
                        assert(at(v, h[i as int][p]) < 2);
                    }
                }
            }
        }
        i = i + 1;
    }
    proof {
        assert(h@.take(4) =~= h@);
        assert forall|v: Seq<u64>| #[trigger] b.follows(v) implies b.passes(v) == (start.passes(v)
            && are_bits(hint_values(v, h@))) by {
            let values = hint_values(v, h@);
            if forall|q: int, p: int| 0 <= q < 4 && 0 <= p < 256 ==> at(v, #[trigger] h[q][p]) < 2 {
                assert forall|q: int, p: int| 0 <= q < 4 && 0 <= p < 256 implies 0
                    <= #[trigger] values[q][p] < 2 by {
                    assert(at(v, h[q][p]) < 2);
                }
            }
            if are_bits(values) {
                assert forall|q: int, p: int| 0 <= q < 4 && 0 <= p < 256 implies at(
                    v,
                    #[trigger] h[q][p],
                ) < 2 by {
                    assert(0 <= values[q][p] < 2);
                }
            }
        }
    }
    h
}

/// Free wires stay free when a circuit grows.
pub proof fn lemma_stay_free(
    before: &CircuitBuilder,
    after: &CircuitBuilder,
    h: Seq<[Wire; 256]>,
    from: nat,
)
    requires
        after.extends(before),
        are_free_from(before, h, from),
    ensures
        are_free_from(after, h, from),
{
    assert forall|i: int, p: int| 0 <= i < h.len() && 0 <= p < 256 implies after.is_free(
        #[trigger] h[i][p],
    ) && h[i][p].index >= from by {
        assert(before.is_free(h[i][p]));
        assert(after.gates@[h[i][p].index as int] == before.gates@[h[i][p].index as int]);
    }
}

/// One more polynomial of new free wires joins those that are there.
proof fn lemma_row_joins(
    start: &CircuitBuilder,
    before: &CircuitBuilder,
    after: &CircuitBuilder,
    rows: Seq<[Wire; 256]>,
    row: [Wire; 256],
)
    requires
        before.extends(start),
        after.extends(before),
        are_free_from(before, rows, start.size()),
        stand_in_order(rows),
        forall|p: int|
            0 <= p < 256 ==> after.is_free(#[trigger] row[p]) && row[p].index >= before.size(),
        forall|p: int, q: int|
            0 <= p < q < 256 ==> (#[trigger] row[p]).index < (#[trigger] row[q]).index,
    ensures
        are_free_from(after, rows.push(row), start.size()),
        stand_in_order(rows.push(row)),
{
    let h = rows.push(row);
    assert forall|i: int, p: int| 0 <= i < h.len() && 0 <= p < 256 implies after.is_free(
        #[trigger] h[i][p],
    ) && h[i][p].index >= start.size() by {
        if i < rows.len() {
            assert(before.is_free(rows[i][p]));
            assert(after.gates@[rows[i][p].index as int] == before.gates@[rows[i][p].index as int]);
        } else {
            assert(after.is_free(row[p]));
        }
    }
    assert forall|i: int, p: int, j: int, q: int|
        0 <= i < h.len() && 0 <= p < 256 && 0 <= j < h.len() && 0 <= q < 256 && (i < j || i == j && p
            < q) implies (#[trigger] h[i][p]).index < (#[trigger] h[j][q]).index by {
        if i < rows.len() {
            assert(before.is_free(rows[i][p]));
        }
        if j == rows.len() {
            assert(after.is_free(row[q]));
        }
    }
}

/// Allocates the wires of one hint polynomial and constrains them to hold bits.
fn witness_row(b: &mut CircuitBuilder) -> (row: [Wire; 256])
    requires
        old(b).is_valid(),
    ensures
        final(b).is_valid(),
        final(b).grows_from(old(b)),
        final(b).has_all(row@),
        forall|p: int|
            0 <= p < 256 ==> final(b).is_free(#[trigger] row[p]) && row[p].index >= old(b).size(),
        forall|p: int, q: int|
            0 <= p < q < 256 ==> (#[trigger] row[p]).index < (#[trigger] row[q]).index,
        forall|v: Seq<u64>| #[trigger] final(b).honest(v) == old(b).honest(v),
        forall|v: Seq<u64>| #[trigger]
            final(b).follows(v) ==> final(b).passes(v) == (old(b).passes(v) && forall|p: int|
                0 <= p < 256 ==> at(v, #[trigger] row[p]) < 2),
{
    let ghost start = *b;
    let none = Wire { index: 0 };
    let mut row: [Wire; 256] = [none;256];
    let mut p: usize = 0;
    while p < 256
        invariant
            p <= 256,
            b.is_valid(),
            b.grows_from(&start),
            forall|k: int| 0 <= k < p ==> b.has(#[trigger] row@[k]),
            forall|k: int|
                0 <= k < p ==> b.is_free(#[trigger] row[k]) && row[k].index >= start.size(),
            forall|k: int, q: int|
                0 <= k < q < p ==> (#[trigger] row[k]).index < (#[trigger] row[q]).index,
            forall|v: Seq<u64>| #[trigger] b.honest(v) == start.honest(v),
            forall|v: Seq<u64>| #[trigger]
                b.follows(v) ==> b.passes(v) == (start.passes(v) && forall|k: int|
                    0 <= k < p ==> at(v, #[trigger] row[k]) < 2),
        decreases 256 - p,
    {
        let ghost before = *b;
        let ghost wires = row@;
        let bit = b.add_witness();
        let two = b.add_constant_64(2);
        let in_range = b.less_than(bit, two);
        b.assert_true(in_range);
        row[p] = bit;
        proof {
            assert forall|k: int| 0 <= k < p + 1 implies b.is_free(#[trigger] row[k])
                && row[k].index >= start.size() by {
                if k < p {
                    assert(row[k] == wires[k]);
                    assert(before.is_free(wires[k]));
                }
            }
            assert forall|k: int, q: int| 0 <= k < q < p + 1 implies (#[trigger] row[k]).index < (
            #[trigger] row[q]).index by {
                assert(row[k] == wires[k]);
                assert(before.is_free(wires[k]));
                if q < p {
                    assert(row[q] == wires[q]);
                }
            }
            assert forall|k: int| 0 <= k < p + 1 implies b.has(#[trigger] row@[k]) by {
                if k < p {
                    assert(before.has(wires[k]));
                }
            }
            assert forall|v: Seq<u64>| #[trigger] b.follows(v) implies b.passes(v) == (
            start.passes(v) && forall|k: int|
                0 <= k < p + 1 ==> at(v, #[trigger] row[k]) < 2) by {
                assert(before.follows(v));
                assert(b.passes(v) == (before.passes(v) && at(v, bit) < 2));
                if b.passes(v) {
                    assert forall|k: int| 0 <= k < p + 1 implies at(v, #[trigger] row[k]) < 2 by {
                        if k < p {
                            assert(row@[k] == wires[k]);
                        }
                    }
                }
                if start.passes(v) && forall|k: int|
                    0 <= k < p + 1 ==> at(v, #[trigger] row[k]) < 2 {
                    assert(at(v, row[p as int]) < 2);
                    assert forall|k: int| 0 <= k < p implies at(v, #[trigger] wires[k]) < 2 by {
                        assert(at(v, row[k]) < 2);
                    }
                    assert(before.passes(v));
                }
            }
        }
        p = p + 1;
    }
    row
}

/// The wires that the check of an index byte refers to.
struct HintWires {
    h: [[Wire; 256]; 4],
    k_offsets: [Wire; 4],
    bytes: [Wire; 80],
    zero: Wire,
    one: Wire,
    k_const: Wire,
}

impl HintWires {
    /// Whether all wires are there.
    spec fn are_in(&self, b: &CircuitBuilder) -> bool {
        &&& has_polynomials(b, self.h@, 4)
        &&& b.has_all(self.k_offsets@)
        &&& b.has_all(self.bytes@)
        &&& b.has(self.zero)
        &&& b.has(self.one)
        &&& b.has(self.k_const)
    }

    /// Whether the wires hold the constants and bytes of the lanes of a signature.
    spec fn hold(&self, v: Seq<u64>, sig: Seq<Wire>) -> bool {
        &&& at(v, self.zero) == 0
        &&& at(v, self.one) == 1
        &&& at(v, self.k_const) == 4
        &&& forall|i: int|
            0 <= i < 4 ==> at(v, #[trigger] self.k_offsets[i]) == stream_byte(v, sig, 2416 + i)
        &&& forall|j: int|
            0 <= j < 80 ==> at(v, #[trigger] self.bytes[j]) == stream_byte(v, sig, 2336 + j) && at(
                v,
                self.bytes[j],
            ) < 256
    }
}

/// Adds a wire for the number of lists that end at or before place `j`.
fn add_poly_at(b: &mut CircuitBuilder, w: &HintWires, j: usize, Ghost(sig): Ghost<Seq<Wire>>) -> (r:
    Wire)
    requires
        old(b).is_valid(),
        w.are_in(old(b)),
        j < 80,
    ensures
        final(b).is_valid(),
        final(b).grows_from(old(b)),
        final(b).has(r),
        forall|v: Seq<u64>| #[trigger] final(b).honest(v) == old(b).honest(v),
        forall|v: Seq<u64>| #[trigger] final(b).passes(v) == old(b).passes(v),
        forall|v: Seq<u64>| #[trigger]
            final(b).follows(v) && w.hold(v, sig) ==> at(v, r) == poly_at(
                offset_values(v, sig),
                j as int,
            ),
{
    let ghost start = *b;
    assert(b.has(w.k_offsets@[0]) && b.has(w.k_offsets@[1]) && b.has(w.k_offsets@[2]) && b.has(
        w.k_offsets@[3],
    ));
    let j_wire = b.add_constant_64(j as u64);
    let c0 = b.less_equal(w.k_offsets[0], j_wire);
    let t0 = b.select(c0, w.one, w.zero);
    let c1 = b.less_equal(w.k_offsets[1], j_wire);
    let t1 = b.select(c1, w.one, w.zero);
    let c2 = b.less_equal(w.k_offsets[2], j_wire);
    let t2 = b.select(c2, w.one, w.zero);
    let c3 = b.less_equal(w.k_offsets[3], j_wire);
    let t3 = b.select(c3, w.one, w.zero);
    let (p0, _c0) = b.iadd(w.zero, t0);
    let (p1, _c1) = b.iadd(p0, t1);
    let (p2, _c2) = b.iadd(p1, t2);
    let (p3, _c3) = b.iadd(p2, t3);
    proof {
        assert forall|v: Seq<u64>| #[trigger] b.follows(v) && w.hold(v, sig) implies at(v, p3)
            == poly_at(offset_values(v, sig), j as int) by {
            let k = offset_values(v, sig);
            assert(k[0] == at(v, w.k_offsets[0]));
            assert(k[1] == at(v, w.k_offsets[1]));
            assert(k[2] == at(v, w.k_offsets[2]));
            assert(k[3] == at(v, w.k_offsets[3]));
        }
    }
    p3
}

/// Adds a wire for the hint bit that an index byte points at.
fn add_lookup(
    b: &mut CircuitBuilder,
    w: &HintWires,
    j: usize,
    poly: Wire,
    Ghost(sig): Ghost<Seq<Wire>>,
) -> (r: Wire)
    requires
        old(b).is_valid(),
        w.are_in(old(b)),
        j < 80,
        old(b).has(poly),
    ensures
        final(b).is_valid(),
        final(b).grows_from(old(b)),
        final(b).has(r),
        forall|v: Seq<u64>| #[trigger] final(b).honest(v) == old(b).honest(v),
        forall|v: Seq<u64>| #[trigger] final(b).passes(v) == old(b).passes(v),
        forall|v: Seq<u64>| #[trigger]
            final(b).follows(v) && w.hold(v, sig) && at(v, poly) < 4 ==> at(v, r) == hint_values(
                v,
                w.h@,
            )[at(v, poly) as int][index_values(v, sig)[j as int]],
{
    let ghost start = *b;
    let b_j = w.bytes[j];
    assert(b.has(w.bytes@[j as int]));
    proof {
        lemma_rows_are_there(b, w.h@);
    }
    let l0 = b.multiplex(w.h[0].as_slice(), b_j);
    let ghost after_0 = *b;
    proof {
        lemma_rows_stay(&start, b, w.h@);
        lemma_rows_are_there(b, w.h@);
    }
    let l1 = b.multiplex(w.h[1].as_slice(), b_j);
    proof {
        lemma_rows_stay(&start, b, w.h@);
        lemma_rows_are_there(b, w.h@);
    }
    let l2 = b.multiplex(w.h[2].as_slice(), b_j);
    proof {
        lemma_rows_stay(&start, b, w.h@);
        lemma_rows_are_there(b, w.h@);
    }
    let l3 = b.multiplex(w.h[3].as_slice(), b_j);
    let lookups: [Wire; 4] = [l0, l1, l2, l3];
    assert forall|k: int| 0 <= k < 4 implies b.has(#[trigger] lookups@[k]) by {}
    let r = b.multiplex(lookups.as_slice(), poly);
    proof {
        assert forall|v: Seq<u64>| #[trigger]
            b.follows(v) && w.hold(v, sig) && at(v, poly) < 4 implies at(v, r) == hint_values(
            v,
            w.h@,
        )[at(v, poly) as int][index_values(v, sig)[j as int]] by {
            let byte = at(v, b_j) as int;
            assert(at(v, w.bytes[j as int]) == stream_byte(v, sig, 2336 + j));
            assert(index_values(v, sig)[j as int] == byte);
            assert(0 <= byte < 256);
            assert(at(v, l0) == at(v, w.h[0][byte]));
            assert(at(v, l1) == at(v, w.h[1][byte]));
            assert(at(v, l2) == at(v, w.h[2][byte]));
            assert(at(v, l3) == at(v, w.h[3][byte]));
            let i = at(v, poly) as int;
            assert(at(v, r) == at(v, lookups@[i]));
            assert(at(v, lookups@[i]) == at(v, w.h[i][byte]));
        }
    }
    r
}

/// The rows of the hint wires are lists of wires that are there.
proof fn lemma_rows_are_there(b: &CircuitBuilder, h: Seq<[Wire; 256]>)
    requires
        has_polynomials(b, h, 4),
        h.len() == 4,
    ensures
        forall|i: int| 0 <= i < 4 ==> b.has_all((#[trigger] h[i])@),
{
    assert forall|i: int| 0 <= i < 4 implies b.has_all((#[trigger] h[i])@) by {
        assert forall|p: int| 0 <= p < h[i]@.len() implies b.has(#[trigger] h[i]@[p]) by {
            assert(b.has(h[i][p]));
        }
    }
}

/// Wires stay when a circuit grows.
proof fn lemma_rows_stay(before: &CircuitBuilder, after: &CircuitBuilder, h: Seq<[Wire; 256]>)
    requires
        has_polynomials(before, h, 4),
        after.size() >= before.size(),
    ensures
        has_polynomials(after, h, 4),
{
    assert forall|i: int, p: int| 0 <= i < 4 && 0 <= p < 256 implies after.has(
        #[trigger] h[i][p],
    ) by {
        assert(before.has(h[i][p]));
    }
}

/// Wires stay when a circuit grows.
proof fn lemma_wires_stay(before: &CircuitBuilder, after: &CircuitBuilder, w: HintWires)
    requires
        w.are_in(before),
        after.size() >= before.size(),
    ensures
        w.are_in(after),
{
    lemma_rows_stay(before, after, w.h@);
    assert forall|k: int| 0 <= k < w.k_offsets@.len() implies after.has(
        #[trigger] w.k_offsets@[k],
    ) by {
        assert(before.has(w.k_offsets@[k]));
    }
    assert forall|k: int| 0 <= k < w.bytes@.len() implies after.has(#[trigger] w.bytes@[k]) by {
        assert(before.has(w.bytes@[k]));
    }
}

/// Adds the checks of an index byte.
fn check_index_byte(
    b: &mut CircuitBuilder,
    w: &HintWires,
    j: usize,
    prev_poly: Wire,
    Ghost(sig): Ghost<Seq<Wire>>,
) -> (r: Wire)
    requires
        old(b).is_valid(),
        w.are_in(old(b)),
        j < 80,
        old(b).has(prev_poly),
    ensures
        final(b).is_valid(),
        final(b).grows_from(old(b)),
        final(b).has(r),
        forall|v: Seq<u64>| #[trigger] final(b).honest(v) == old(b).honest(v),
        forall|v: Seq<u64>| #[trigger]
            final(b).follows(v) && w.hold(v, sig) ==> at(v, r) == poly_at(
                offset_values(v, sig),
                j as int,
            ),
        forall|v: Seq<u64>| #[trigger]
            final(b).follows(v) && w.hold(v, sig) && (j > 0 ==> at(v, prev_poly) == poly_at(
                offset_values(v, sig),
                j - 1,
            )) ==> final(b).passes(v) == (old(b).passes(v) && index_byte_checks(
                hint_values(v, w.h@),
                offset_values(v, sig),
                index_values(v, sig),
                j as int,
            )),
{
    let ghost start = *b;
    let poly = add_poly_at(b, w, j, Ghost(sig));
    proof {
        lemma_wires_stay(&start, b, *w);
    }
    let h_at = add_lookup(b, w, j, poly, Ghost(sig));
    proof {
        lemma_wires_stay(&start, b, *w);
    }
    let b_j = w.bytes[j];
    assert(b.has(w.bytes@[j as int]));
    let live = b.less_than(poly, w.k_const);
    let dead = b.less_equal(w.k_const, poly);
    b.assert_eq_cond(h_at, w.one, live);
    let is_zero = b.less_than(b_j, w.one);
    let not_zero = b.bnot(is_zero);
    let bad_dead = b.band(dead, not_zero);
    b.assert_false(bad_dead);
    let ghost middle = *b;
    proof {
        assert forall|v: Seq<u64>| #[trigger] middle.follows(v) && w.hold(v, sig) implies
            middle.passes(v) == (start.passes(v) && ({
            let i = poly_at(offset_values(v, sig), j as int);
            let byte = index_values(v, sig)[j as int];
            &&& i < 4 ==> hint_values(v, w.h@)[i][byte] == 1
            &&& i >= 4 ==> byte == 0
        })) by {
            lemma_truth_of_words(at(v, is_zero), 0);
            lemma_truth_of_words(at(v, dead), at(v, not_zero));
            assert(at(v, w.bytes[j as int]) == stream_byte(v, sig, 2336 + j));
            assert(index_values(v, sig)[j as int] == at(v, b_j));
        }
    }
    if j > 0 {
        let prev_byte = w.bytes[j - 1];
        assert(b.has(w.bytes@[j - 1])) by {
            assert(start.has(w.bytes@[j - 1]));
        }
        let same_xor = b.bxor(poly, prev_poly);
        let same = b.less_than(same_xor, w.one);
        let must_order = b.band(same, live);
        let prev_geq = b.less_equal(b_j, prev_byte);
        let bad_order = b.band(must_order, prev_geq);
        b.assert_false(bad_order);
        proof {
            assert forall|v: Seq<u64>| #[trigger]
                b.follows(v) && w.hold(v, sig) && at(v, prev_poly) == poly_at(
                    offset_values(v, sig),
                    j - 1,
                ) implies b.passes(v) == (start.passes(v) && index_byte_checks(
                hint_values(v, w.h@),
                offset_values(v, sig),
                index_values(v, sig),
                j as int,
            )) by {
                assert(middle.follows(v));
                lemma_truth_of_words(at(v, poly), at(v, prev_poly));
                lemma_truth_of_words(at(v, same), at(v, live));
                lemma_truth_of_words(at(v, must_order), at(v, prev_geq));
                assert(at(v, w.bytes[j as int]) == stream_byte(v, sig, 2336 + j));
                assert(at(v, w.bytes[j - 1]) == stream_byte(v, sig, 2336 + (j - 1)));
                assert(index_values(v, sig)[j as int] == at(v, b_j));
                assert(index_values(v, sig)[j - 1] == at(v, prev_byte));
            }
        }
    }
    poly
}

/// Adds wires for the end positions and the index bytes of the hint section.
fn read_hint_section(b: &mut CircuitBuilder, sig: &[Wire; 303]) -> (r: ([Wire; 4], [Wire; 80]))
    requires
        old(b).is_valid(),
        old(b).has_all(sig@),
    ensures
        final(b).is_valid(),
        final(b).grows_from(old(b)),
        final(b).has_all(r.0@),
        final(b).has_all(r.1@),
        forall|v: Seq<u64>| #[trigger] final(b).honest(v) == old(b).honest(v),
        forall|v: Seq<u64>| #[trigger] final(b).passes(v) == old(b).passes(v),
        forall|v: Seq<u64>| #[trigger]
            final(b).follows(v) ==> (forall|i: int|
                0 <= i < 4 ==> at(v, #[trigger] r.0[i]) == stream_byte(v, sig@, 2416 + i) && at(
                    v,
                    r.0[i],
                ) < 256) && (forall|j: int|
                0 <= j < 80 ==> at(v, #[trigger] r.1[j]) == stream_byte(v, sig@, 2336 + j) && at(
                    v,
                    r.1[j],
                ) < 256),
{
    let ghost start = *b;
    let none = Wire { index: 0 };
    let mut k_offsets: [Wire; 4] = [none;4];
    let mut i: usize = 0;
    while i < 4
        invariant
            i <= 4,
            b.is_valid(),
            b.grows_from(&start),
            start.has_all(sig@),
            forall|k: int| 0 <= k < i ==> b.has(#[trigger] k_offsets@[k]),
            forall|v: Seq<u64>| #[trigger] b.honest(v) == start.honest(v),
            forall|v: Seq<u64>| #[trigger] b.passes(v) == start.passes(v),
            forall|v: Seq<u64>| #[trigger]
                b.follows(v) ==> forall|k: int|
                    0 <= k < i ==> at(v, #[trigger] k_offsets[k]) == stream_byte(v, sig@, 2416 + k)
                        && at(v, k_offsets[k]) < 256,
        decreases 4 - i,
    {
        let ghost before = *b;
        let ghost wires = k_offsets@;
        assert(b.has_all(sig@)) by {
            assert forall|k: int| 0 <= k < sig@.len() implies b.has(#[trigger] sig@[k]) by {
                assert(start.has(sig@[k]));
            }
        }
        let byte = get_byte(b, sig.as_slice(), 2416 + i);
        k_offsets[i] = byte;
        proof {
            assert forall|k: int| 0 <= k < i + 1 implies b.has(#[trigger] k_offsets@[k]) by {
                if k < i {
                    assert(before.has(wires[k]));
                }
            }
            assert forall|v: Seq<u64>| #[trigger] b.follows(v) implies forall|k: int|
                0 <= k < i + 1 ==> at(v, #[trigger] k_offsets[k]) == stream_byte(v, sig@, 2416 + k)
                    && at(v, k_offsets[k]) < 256 by {
                assert(before.follows(v));
                assert forall|k: int| 0 <= k < i + 1 implies at(v, #[trigger] k_offsets[k])
                    == stream_byte(v, sig@, 2416 + k) && at(v, k_offsets[k]) < 256 by {
                    if k < i {
                        assert(k_offsets@[k] == wires[k]);
                    }
                }
            }
        }
        i = i + 1;
    }
    let ghost after_offsets = *b;
    let mut bytes: [Wire; 80] = [none;80];
    let mut j: usize = 0;
    while j < 80
        invariant
            j <= 80,
            b.is_valid(),
            b.grows_from(&start),
            b.grows_from(&after_offsets),
            start.has_all(sig@),
            forall|k: int| 0 <= k < j ==> b.has(#[trigger] bytes@[k]),
            forall|v: Seq<u64>| #[trigger] b.honest(v) == start.honest(v),
            forall|v: Seq<u64>| #[trigger] b.passes(v) == start.passes(v),
            forall|v: Seq<u64>| #[trigger]
                b.follows(v) ==> forall|k: int|
                    0 <= k < j ==> at(v, #[trigger] bytes[k]) == stream_byte(v, sig@, 2336 + k)
                        && at(v, bytes[k]) < 256,
        decreases 80 - j,
    {
        let ghost before = *b;
        let ghost wires = bytes@;
        assert(b.has_all(sig@)) by {
            assert forall|k: int| 0 <= k < sig@.len() implies b.has(#[trigger] sig@[k]) by {
                assert(start.has(sig@[k]));
            }
        }
        let byte = get_byte(b, sig.as_slice(), 2336 + j);
        bytes[j] = byte;
        proof {
            assert forall|k: int| 0 <= k < j + 1 implies b.has(#[trigger] bytes@[k]) by {
                if k < j {
                    assert(before.has(wires[k]));
                }
            }
            assert forall|v: Seq<u64>| #[trigger] b.follows(v) implies forall|k: int|
                0 <= k < j + 1 ==> at(v, #[trigger] bytes[k]) == stream_byte(v, sig@, 2336 + k)
                    && at(v, bytes[k]) < 256 by {
                assert(before.follows(v));
                assert forall|k: int| 0 <= k < j + 1 implies at(v, #[trigger] bytes[k])
                    == stream_byte(v, sig@, 2336 + k) && at(v, bytes[k]) < 256 by {
                    if k < j {
                        assert(bytes@[k] == wires[k]);
                    }
                }
            }
        }
        j = j + 1;
    }
    assert(b.has_all(k_offsets@)) by {
        assert forall|k: int| 0 <= k < 4 implies b.has(#[trigger] k_offsets@[k]) by {
            assert(after_offsets.has(k_offsets@[k]));
        }
    }
    (k_offsets, bytes)
}

/// Adds the checks of the end positions.
fn check_offsets(
    b: &mut CircuitBuilder,
    k_offsets: &[Wire; 4],
    Ghost(sig): Ghost<Seq<Wire>>,
)
    requires
        old(b).is_valid(),
        old(b).has_all(k_offsets@),
    ensures
        final(b).is_valid(),
        final(b).grows_from(old(b)),
        forall|v: Seq<u64>| #[trigger] final(b).honest(v) == old(b).honest(v),
        forall|v: Seq<u64>| #[trigger]
            final(b).follows(v) && (forall|i: int|
                0 <= i < 4 ==> at(v, #[trigger] k_offsets[i]) == stream_byte(v, sig, 2416 + i))
                ==> final(b).passes(v) == (old(b).passes(v) && offsets_check(
                offset_values(v, sig),
            )),
{
    let ghost start = *b;
    assert(b.has(k_offsets@[0]) && b.has(k_offsets@[1]) && b.has(k_offsets@[2]) && b.has(
        k_offsets@[3],
    ));
    let omega = b.add_constant_64(80);
    let mono_1 = b.less_equal(k_offsets[0], k_offsets[1]);
    b.assert_true(mono_1);
    let mono_2 = b.less_equal(k_offsets[1], k_offsets[2]);
    b.assert_true(mono_2);
    let mono_3 = b.less_equal(k_offsets[2], k_offsets[3]);
    b.assert_true(mono_3);
    let last_in_range = b.less_equal(k_offsets[3], omega);
    b.assert_true(last_in_range);
    proof {
        assert forall|v: Seq<u64>| #[trigger]
            b.follows(v) && (forall|i: int|
                0 <= i < 4 ==> at(v, #[trigger] k_offsets[i]) == stream_byte(
                    v,
                    sig,
                    2416 + i,
                )) implies b.passes(v) == (start.passes(v) && offsets_check(
            offset_values(v, sig),
        )) by {
            let k = offset_values(v, sig);
            assert(k[0] == at(v, k_offsets[0]) && k[1] == at(v, k_offsets[1]) && k[2] == at(
                v,
                k_offsets[2],
            ) && k[3] == at(v, k_offsets[3]));
        }
    }
}

/// Adds a wire for the sum of the bits of a polynomial and another value.
fn add_bits(b: &mut CircuitBuilder, start_value: Wire, row: &[Wire; 256]) -> (r: Wire)
    requires
        old(b).is_valid(),
        old(b).has(start_value),
        old(b).has_all(row@),
    ensures
        final(b).is_valid(),
        final(b).grows_from(old(b)),
        final(b).has(r),
        forall|v: Seq<u64>| #[trigger] final(b).honest(v) == old(b).honest(v),
        forall|v: Seq<u64>| #[trigger] final(b).passes(v) == old(b).passes(v),
        forall|v: Seq<u64>| #[trigger]
            final(b).follows(v) && at(v, start_value) < 10_000 && (forall|p: int|
                0 <= p < 256 ==> at(v, #[trigger] row[p]) < 2) ==> at(v, r) == at(v, start_value)
                + bit_sum(Seq::new(256, |p: int| at(v, row[p]) as int), 256) && at(v, r) <= at(
                v,
                start_value,
            ) + 256,
{
    let ghost start = *b;
    let mut total = start_value;
    let mut p: usize = 0;
    while p < 256
        invariant
            p <= 256,
            b.is_valid(),
            b.grows_from(&start),
            b.has(total),
            start.has_all(row@),
            forall|v: Seq<u64>| #[trigger] b.honest(v) == start.honest(v),
            forall|v: Seq<u64>| #[trigger] b.passes(v) == start.passes(v),
            forall|v: Seq<u64>| #[trigger]
                b.follows(v) && at(v, start_value) < 10_000 && (forall|k: int|
                    0 <= k < 256 ==> at(v, #[trigger] row[k]) < 2) ==> at(v, total) == at(
                    v,
                    start_value,
                ) + bit_sum(Seq::new(256, |k: int| at(v, row[k]) as int), p as nat) && at(v, total)
                    <= at(v, start_value) + p,
        decreases 256 - p,
    {
        let ghost before = *b;
        let ghost before_total = total;
        assert(start.has(row@[p as int]));
        let (next, _carry) = b.iadd(total, row[p]);
        proof {
            assert forall|v: Seq<u64>| #[trigger]
                b.follows(v) && at(v, start_value) < 10_000 && (forall|k: int|
                    0 <= k < 256 ==> at(v, #[trigger] row[k]) < 2) implies at(v, next) == at(
                v,
                start_value,
            ) + bit_sum(Seq::new(256, |k: int| at(v, row[k]) as int), (p + 1) as nat) && at(v, next)
                <= at(v, start_value) + p + 1 by {
                assert(before.follows(v));
                assert(at(v, row[p as int]) < 2);
            }
        }
        total = next;
        p = p + 1;
    }
    total
}

/// Decode the hint polynomials from the `h` section of a signature.
///
/// The bits of the hint are supplied as a witness, each on a free wire of its own. They pass exactly
/// where the hint section that the lanes hold is their encoding.
pub fn unpack_h(b: &mut CircuitBuilder, sig_lanes: &[Wire; 303]) -> (h: [[Wire; 256]; 4])
    requires
        old(b).is_valid(),
        old(b).has_all(sig_lanes@),
    ensures
        final(b).is_valid(),
        final(b).grows_from(old(b)),
        has_polynomials(final(b), h@, 4),
        are_free_from(final(b), h@, old(b).size()),
        stand_in_order(h@),
        forall|v: Seq<u64>| #[trigger] final(b).honest(v) == old(b).honest(v),
        forall|v: Seq<u64>| #[trigger]
            final(b).follows(v) ==> final(b).passes(v) == (old(b).passes(v) && holds_hint(
                v,
                sig_lanes@,
                h@,
            )),
{
    let ghost start = *b;
    let ghost sig = sig_lanes@;
    let h = witness_bits(b);
    let ghost after_bits = *b;
    assert(b.has_all(sig)) by {
        assert forall|k: int| 0 <= k < sig.len() implies b.has(#[trigger] sig[k]) by {
            assert(start.has(sig[k]));
        }
    }
    let (k_offsets, bytes) = read_hint_section(b, sig_lanes);
    let ghost after_read = *b;
    let zero = b.add_constant_64(0);
    let one = b.add_constant_64(1);
    let k_const = b.add_constant_64(4);
    let ghost after_constants = *b;
    assert(b.has_all(k_offsets@)) by {
        assert forall|k: int| 0 <= k < 4 implies b.has(#[trigger] k_offsets@[k]) by {
            assert(after_read.has(k_offsets@[k]));
        }
    }
    assert(b.has_all(bytes@)) by {
        assert forall|k: int| 0 <= k < 80 implies b.has(#[trigger] bytes@[k]) by {
            assert(after_read.has(bytes@[k]));
        }
    }
    check_offsets(b, &k_offsets, Ghost(sig));
    let ghost after_offsets = *b;
    let w = HintWires { h, k_offsets, bytes, zero, one, k_const };
    proof {
        lemma_rows_stay(&after_bits, &after_constants, h@);
        assert(w.are_in(&after_constants));
        assert forall|v: Seq<u64>| #[trigger] after_constants.follows(v) implies w.hold(v, sig) by {
            assert(after_read.follows(v));
        }
        assert forall|v: Seq<u64>| #[trigger] after_offsets.follows(v) implies after_offsets.passes(
            v,
        ) == (start.passes(v) && are_bits(hint_values(v, h@)) && offsets_check(
            offset_values(v, sig),
        )) by {
            assert(after_constants.follows(v));
            assert(after_read.follows(v));
            assert(after_bits.follows(v));
        }
    }
    let mut prev_poly = zero;
    let mut j: usize = 0;
    while j < 80
        invariant
            j <= 80,
            b.is_valid(),
            b.grows_from(&after_offsets),
            after_offsets.grows_from(&after_constants),
            after_constants.grows_from(&start),
            w.are_in(&after_constants),
            w.h == h,
            b.has(prev_poly),
            forall|v: Seq<u64>| #[trigger] after_constants.follows(v) ==> w.hold(v, sig),
            forall|v: Seq<u64>| #[trigger] b.honest(v) == start.honest(v),
            forall|v: Seq<u64>| #[trigger]
                b.follows(v) && j > 0 ==> at(v, prev_poly) == poly_at(
                    offset_values(v, sig),
                    j - 1,
                ),
            forall|v: Seq<u64>| #[trigger]
                b.follows(v) ==> b.passes(v) == (after_offsets.passes(v) && forall|k: int|
                    0 <= k < j ==> #[trigger] index_byte_checks(
                        hint_values(v, h@),
                        offset_values(v, sig),
                        index_values(v, sig),
                        k,
                    )),
        decreases 80 - j,
    {
        let ghost before = *b;
        proof {
            lemma_wires_stay(&after_constants, b, w);
        }
        let poly = check_index_byte(b, &w, j, prev_poly, Ghost(sig));
        proof {
            assert forall|v: Seq<u64>| #[trigger] b.follows(v) implies b.passes(v) == (
            after_offsets.passes(v) && forall|k: int|
                0 <= k < j + 1 ==> #[trigger] index_byte_checks(
                    hint_values(v, h@),
                    offset_values(v, sig),
                    index_values(v, sig),
                    k,
                )) by {
                assert(before.follows(v));
                assert(after_offsets.follows(v));
                assert(after_constants.follows(v));
                assert(w.hold(v, sig));
                let ok = index_byte_checks(
                    hint_values(v, h@),
                    offset_values(v, sig),
                    index_values(v, sig),
                    j as int,
                );
                assert(b.passes(v) == (before.passes(v) && ok));
            }
        }
        prev_poly = poly;
        j = j + 1;
    }
    let ghost after_bytes = *b;
    proof {
        lemma_wires_stay(&after_constants, b, w);
        lemma_rows_are_there(b, h@);
        assert(b.has_all(h@[0]@) && b.has_all(h@[1]@) && b.has_all(h@[2]@) && b.has_all(h@[3]@));
    }
    let t0 = add_bits(b, zero, &h[0]);
    proof {
        lemma_wires_stay(&after_constants, b, w);
        lemma_rows_are_there(b, h@);
        assert(b.has_all(h@[1]@));
    }
    let t1 = add_bits(b, t0, &h[1]);
    proof {
        lemma_wires_stay(&after_constants, b, w);
        lemma_rows_are_there(b, h@);
        assert(b.has_all(h@[2]@));
    }
    let t2 = add_bits(b, t1, &h[2]);
    proof {
        lemma_wires_stay(&after_constants, b, w);
        lemma_rows_are_there(b, h@);
        assert(b.has_all(h@[3]@));
    }
    let t3 = add_bits(b, t2, &h[3]);
    assert(b.has(k_offsets@[3])) by {
        assert(after_constants.has(w.k_offsets@[3]));
    }
    b.assert_eq(t3, k_offsets[3]);
    proof {
        lemma_stay_free(&after_bits, b, h@, start.size());
        lemma_wires_stay(&after_constants, b, w);
        assert forall|v: Seq<u64>| #[trigger] b.follows(v) implies b.passes(v) == (start.passes(v)
            && holds_hint(v, sig, h@)) by {
            assert(after_bytes.follows(v));
            assert(after_offsets.follows(v));
            assert(after_constants.follows(v));
            assert(w.hold(v, sig));
            let values = hint_values(v, h@);
            let (k, by) = (offset_values(v, sig), index_values(v, sig));
            assert(b.passes(v) == (after_bytes.passes(v) && at(v, t3) == at(v, k_offsets[3])));
            assert(at(v, w.k_offsets[3]) == stream_byte(v, sig, 2419));
            assert(k[3] == at(v, k_offsets[3]));
            if are_bits(values) {
                lemma_circuit_total(v, h, t0, t1, t2, t3, zero);
            }
            assert(b.passes(v) == (start.passes(v) && hint_checks(values, k, by)));
            lemma_bytes_in_range(v, sig, w);
            law_checks_mean_encoding(values, k, by);
            lemma_section_bytes(v, sig, values);
        }
    }
    h
}

/// The sums of the circuit add up to the number of ones.
proof fn lemma_circuit_total(
    v: Seq<u64>,
    h: [[Wire; 256]; 4],
    t0: Wire,
    t1: Wire,
    t2: Wire,
    t3: Wire,
    zero: Wire,
)
    requires
        are_bits(hint_values(v, h@)),
        at(v, zero) == 0,
        at(v, zero) < 10_000 && (forall|p: int| 0 <= p < 256 ==> at(v, #[trigger] h[0][p]) < 2)
            ==> at(v, t0) == at(v, zero) + bit_sum(
            Seq::new(256, |p: int| at(v, h[0][p]) as int),
            256,
        ) && at(v, t0) <= at(v, zero) + 256,
        at(v, t0) < 10_000 && (forall|p: int| 0 <= p < 256 ==> at(v, #[trigger] h[1][p]) < 2) ==> at(
            v,
            t1,
        ) == at(v, t0) + bit_sum(Seq::new(256, |p: int| at(v, h[1][p]) as int), 256) && at(v, t1)
            <= at(v, t0) + 256,
        at(v, t1) < 10_000 && (forall|p: int| 0 <= p < 256 ==> at(v, #[trigger] h[2][p]) < 2) ==> at(
            v,
            t2,
        ) == at(v, t1) + bit_sum(Seq::new(256, |p: int| at(v, h[2][p]) as int), 256) && at(v, t2)
            <= at(v, t1) + 256,
        at(v, t2) < 10_000 && (forall|p: int| 0 <= p < 256 ==> at(v, #[trigger] h[3][p]) < 2) ==> at(
            v,
            t3,
        ) == at(v, t2) + bit_sum(Seq::new(256, |p: int| at(v, h[3][p]) as int), 256) && at(v, t3)
            <= at(v, t2) + 256,
    ensures
        at(v, t3) == total_sum(hint_values(v, h@), 4),
{
    let values = hint_values(v, h@);
    assert forall|i: int, p: int| 0 <= i < 4 && 0 <= p < 256 implies at(v, #[trigger] h[i][p])
        < 2 by {
        assert(0 <= values[i][p] < 2);
    }
    assert forall|p: int| 0 <= p < 256 implies at(v, #[trigger] h[0][p]) < 2 by {}
    assert forall|p: int| 0 <= p < 256 implies at(v, #[trigger] h[1][p]) < 2 by {}
    assert forall|p: int| 0 <= p < 256 implies at(v, #[trigger] h[2][p]) < 2 by {}
    assert forall|p: int| 0 <= p < 256 implies at(v, #[trigger] h[3][p]) < 2 by {}
    assert(values[0] =~= Seq::new(256, |p: int| at(v, h[0][p]) as int));
    assert(values[1] =~= Seq::new(256, |p: int| at(v, h[1][p]) as int));
    assert(values[2] =~= Seq::new(256, |p: int| at(v, h[2][p]) as int));
    assert(values[3] =~= Seq::new(256, |p: int| at(v, h[3][p]) as int));
    reveal_with_fuel(total_sum, 5);
}

/// The bytes that the wires hold are bytes.
proof fn lemma_bytes_in_range(v: Seq<u64>, sig: Seq<Wire>, w: HintWires)
    requires
        w.hold(v, sig),
    ensures
        forall|q: int| 0 <= q < 4 ==> 0 <= #[trigger] offset_values(v, sig)[q] < 256,
        forall|j: int| 0 <= j < 80 ==> 0 <= #[trigger] index_values(v, sig)[j] < 256,
{
    assert forall|q: int| 0 <= q < 4 implies 0 <= #[trigger] offset_values(v, sig)[q] < 256 by {
        let lane = at(v, sig[(2416 + q) / 8]);
        let n = ((2416 + q) % 8) as u32;
        super::polyz::lemma_byte_bound(lane, n);
    }
    assert forall|j: int| 0 <= j < 80 implies 0 <= #[trigger] index_values(v, sig)[j] < 256 by {
        let lane = at(v, sig[(2336 + j) / 8]);
        let n = ((2336 + j) % 8) as u32;
        super::polyz::lemma_byte_bound(lane, n);
    }
}

/// The hint section is made of the index bytes and the end positions.
proof fn lemma_section_bytes(v: Seq<u64>, sig: Seq<Wire>, h: Seq<Seq<int>>)
    ensures
        is_encoding(h, offset_values(v, sig), index_values(v, sig)) == (forall|j: int|
            0 <= j < 84 ==> #[trigger] stream_byte(v, sig, 2336 + j) == hint_byte(h, j)),
{
    let (k, by) = (offset_values(v, sig), index_values(v, sig));
    if is_encoding(h, k, by) {
        assert forall|j: int| 0 <= j < 84 implies #[trigger] stream_byte(v, sig, 2336 + j)
            == hint_byte(h, j) by {
            if j < 80 {
                assert(by[j] == hint_byte(h, j));
            } else {
                assert(k[j - 80] == hint_byte(h, 80 + (j - 80)));
                assert(2416 + (j - 80) == 2336 + j);
            }
        }
    }
    if forall|j: int| 0 <= j < 84 ==> #[trigger] stream_byte(v, sig, 2336 + j) == hint_byte(h, j) {
        assert forall|i: int| 0 <= i < 4 implies #[trigger] k[i] == hint_byte(h, 80 + i) by {
            assert(stream_byte(v, sig, 2336 + (80 + i)) == hint_byte(h, 80 + i));
            assert(2336 + (80 + i) == 2416 + i);
        }
        assert forall|j: int| 0 <= j < 80 implies #[trigger] by[j] == hint_byte(h, j) by {
            assert(stream_byte(v, sig, 2336 + j) == hint_byte(h, j));
        }
    }
}

} // verus!
