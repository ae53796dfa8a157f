//! Length-prefixed objects, scalars and samples on the transcript.

use vstd::prelude::*;

use super::error::ChannelError;
use super::fp128::{residues, Fp128, MODULUS};
use super::parity::BiniusScalar;
use crate::ghash::B128;
use crate::words::lemma_peel;

verus! {

/// Maximum bytes accepted for one length-prefixed object.
///
/// This keeps malformed proofs from forcing unbounded allocations.
pub const MAX_AKITA_ENCODED_OBJECT_BYTES: u64 = 67_108_864;

/// The number that eight bytes make, from the least significant one on.
#[verifier::opaque]
pub open spec fn word_at(bytes: Seq<u8>, at: int) -> int {
    bytes[at] + 0x100 * bytes[at + 1] + 0x1_0000 * bytes[at + 2] + 0x100_0000 * bytes[at + 3]
        + 0x1_0000_0000 * bytes[at + 4] + 0x100_0000_0000 * bytes[at + 5] + 0x1_0000_0000_0000
        * bytes[at + 6] + 0x100_0000_0000_0000 * bytes[at + 7]
}

/// Appends a word, least significant byte first.
pub fn write_word(out: &mut Vec<u8>, word: u64)
    ensures
        final(out)@.len() == old(out)@.len() + 8,
        final(out)@.take(old(out)@.len() as int) == old(out)@,
        word_at(final(out)@, old(out)@.len() as int) == word,
{
    let ghost start = out@;
    let w: u64 = word;
    let (b0, w1) = ((w % 256) as u8, w / 256);
    let (b1, w2) = ((w1 % 256) as u8, w1 / 256);
    let (b2, w3) = ((w2 % 256) as u8, w2 / 256);
    let (b3, w4) = ((w3 % 256) as u8, w3 / 256);
    let (b4, w5) = ((w4 % 256) as u8, w4 / 256);
    let (b5, w6) = ((w5 % 256) as u8, w5 / 256);
    let (b6, w7) = ((w6 % 256) as u8, w6 / 256);
    let b7: u8 = w7 as u8;
    out.push(b0);
    out.push(b1);
    out.push(b2);
    out.push(b3);
    out.push(b4);
    out.push(b5);
    out.push(b6);
    out.push(b7);
    proof {
        reveal(word_at);
        assert(out@.take(start.len() as int) =~= start);
        assert(w == b0 + 256 * w1 && w1 == b1 + 256 * w2 && w2 == b2 + 256 * w3 && w3 == b3 + 256
            * w4 && w4 == b4 + 256 * w5 && w5 == b5 + 256 * w6 && w6 == b6 + 256 * w7 && w7 == b7);
    }
}

/// Reads a word, if eight bytes are left.
pub fn read_word(bytes: &[u8], at: usize) -> (r: Result<u64, ChannelError>)
    requires
        at <= bytes@.len(),
    ensures
        match r {
            Ok(word) => at + 8 <= bytes@.len() && word == word_at(bytes@, at as int),
            Err(e) => e == ChannelError::ProofEmpty && at + 8 > bytes@.len(),
        },
{
    if bytes.len() - at < 8 {
        return Err(ChannelError::ProofEmpty);
    }
    proof {
        reveal(word_at);
    }
    let mut word: u64 = 0;
    word = word * 256 + bytes[at + 7] as u64;
    word = word * 256 + bytes[at + 6] as u64;
    word = word * 256 + bytes[at + 5] as u64;
    word = word * 256 + bytes[at + 4] as u64;
    word = word * 256 + bytes[at + 3] as u64;
    word = word * 256 + bytes[at + 2] as u64;
    word = word * 256 + bytes[at + 1] as u64;
    word = word * 256 + bytes[at] as u64;
    Ok(word)
}

/// The bytes of a framed object: its length as a word, followed by the object.
pub open spec fn is_frame(framed: Seq<u8>, object: Seq<u8>) -> bool {
    &&& framed.len() == 8 + object.len()
    &&& word_at(framed, 0) == object.len()
    &&& framed.skip(8) == object
}

/// Frames an object with its length.
pub fn write_akita(object: &[u8]) -> (r: Vec<u8>)
    requires
        object@.len() <= u64::MAX,
    ensures
        is_frame(r@, object@),
{
    let mut out: Vec<u8> = Vec::new();
    write_word(&mut out, object.len() as u64);
    let ghost head = out@;
    let mut i: usize = 0;
    while i < object.len()
        invariant
            i <= object@.len(),
            head.len() == 8,
            out@ == head + object@.take(i as int),
        decreases object@.len() - i,
    {
        out.push(object[i]);
        proof {
            assert(out@ =~= head + object@.take(i + 1));
        }
        i = i + 1;
    }
    proof {
        assert(object@.take(i as int) =~= object@);
        assert(out@.skip(8) =~= object@);
        assert(word_at(out@, 0) == word_at(head, 0)) by {
            reveal(word_at);
        }
    }
    out
}

/// Whether a framed object of acceptable length stands at a position.
pub open spec fn has_frame(bytes: Seq<u8>, at: int) -> bool {
    &&& at + 8 <= bytes.len()
    &&& word_at(bytes, at) <= MAX_AKITA_ENCODED_OBJECT_BYTES
    &&& at + 8 + word_at(bytes, at) <= bytes.len()
}

/// The object of a frame at a position.
pub open spec fn framed_object(bytes: Seq<u8>, at: int) -> Seq<u8> {
    bytes.subrange(at + 8, at + 8 + word_at(bytes, at))
}

/// Reads a framed object and the position after it.
///
/// An object that is too long is refused before anything is allocated for it.
pub fn read_akita(bytes: &[u8], at: usize) -> (r: Result<(Vec<u8>, usize), ChannelError>)
    requires
        at <= bytes@.len(),
    ensures
        match r {
            Ok((object, next)) => has_frame(bytes@, at as int) && object@ == framed_object(
                bytes@,
                at as int,
            ) && next == at + 8 + object@.len(),
            Err(e) => e == ChannelError::ProofEmpty && !has_frame(bytes@, at as int),
        },
{
    let len: u64 = match read_word(bytes, at) {
        Ok(len) => len,
        Err(e) => {
            return Err(e);
        },
    };
    if len > MAX_AKITA_ENCODED_OBJECT_BYTES {
        return Err(ChannelError::ProofEmpty);
    }
    let n: usize = len as usize;
    let total: usize = bytes.len();
    let start: usize = at + 8;
    if total - start < n {
        return Err(ChannelError::ProofEmpty);
    }
    let mut object: Vec<u8> = Vec::with_capacity(n);
    let mut i: usize = 0;
    while i < n
        invariant
            i <= n,
            total == bytes@.len(),
            start + n <= total,
            object@ == bytes@.subrange(start as int, start + i),
        decreases n - i,
    {
        object.push(bytes[start + i]);
        proof {
            assert(object@ =~= bytes@.subrange(start as int, start + i + 1));
        }
        i = i + 1;
    }
    Ok((object, start + n))
}

/// What was framed is read back, whatever follows it.
pub proof fn law_frame_is_read_back(framed: Seq<u8>, object: Seq<u8>, rest: Seq<u8>)
    requires
        is_frame(framed, object),
        object.len() <= MAX_AKITA_ENCODED_OBJECT_BYTES,
    ensures
        has_frame(framed + rest, 0),
        framed_object(framed + rest, 0) == object,
{
    let all = framed + rest;
    assert(word_at(all, 0) == word_at(framed, 0)) by {
        reveal(word_at);
    }
    lemma_word_range(framed, 0);
    assert(framed_object(all, 0) =~= framed.skip(8));
}

/// Whether bytes are the encoding of an element: its residue in sixteen bytes, least significant
/// byte first.
pub open spec fn encodes_scalar(bytes: Seq<u8>, scalar: int) -> bool {
    &&& bytes.len() == 16
    &&& word_at(bytes, 0) + 0x1_0000_0000_0000_0000 * word_at(bytes, 8) == scalar
    &&& scalar < MODULUS
}

/// Returns the encoding of an element.
pub fn scalar_to_bytes(scalar: Fp128) -> (r: Vec<u8>)
    ensures
        encodes_scalar(r@, scalar@),
{
    let value: u128 = scalar.to_canonical_u128();
    let low: u64 = (value % 0x1_0000_0000_0000_0000) as u64;
    let high: u64 = (value / 0x1_0000_0000_0000_0000) as u64;
    let mut out: Vec<u8> = Vec::new();
    write_word(&mut out, low);
    let ghost first = out@;
    write_word(&mut out, high);
    proof {
        reveal(word_at);
        let last = out@;
        assert(first.len() == 8);
        assert forall|i: int| 0 <= i < 8 implies last[i] == first[i] by {
            assert(last.take(8)[i] == last[i]);
        }
    }
    out
}

/// Decodes an element that takes up all bytes of an object.
///
/// Bytes that are left over, bytes that are missing and integers that are no residues are refused.
pub fn scalar_from_bytes(bytes: &[u8]) -> (r: Result<Fp128, ChannelError>)
    ensures
        match r {
            Ok(scalar) => encodes_scalar(bytes@, scalar@),
            Err(e) => e == ChannelError::ProofEmpty && forall|x: int|
                !(#[trigger] encodes_scalar(bytes@, x)),
        },
{
    if bytes.len() != 16 {
        return Err(ChannelError::ProofEmpty);
    }
    let low: u64 = match read_word(bytes, 0) {
        Ok(word) => word,
        Err(e) => {
            return Err(e);
        },
    };
    let high: u64 = match read_word(bytes, 8) {
        Ok(word) => word,
        Err(e) => {
            return Err(e);
        },
    };
    let value: u128 = low as u128 + 0x1_0000_0000_0000_0000 * (high as u128);
    match Fp128::from_canonical_u128_checked(value) {
        Some(scalar) => Ok(scalar),
        None => Err(ChannelError::ProofEmpty),
    }
}

/// An encoding encodes one element.
pub proof fn law_scalar_encoding_is_unique(a: Seq<u8>, b: Seq<u8>, x: int, y: int)
    requires
        encodes_scalar(a, x),
        encodes_scalar(b, y),
    ensures
        (a == b) == (x == y),
{
    if x == y {
        let base = 0x1_0000_0000_0000_0000int;
        lemma_word_range(a, 0);
        lemma_word_range(a, 8);
        lemma_word_range(b, 0);
        lemma_word_range(b, 8);
        assert(word_at(a, 0) == word_at(b, 0) && word_at(a, 8) == word_at(b, 8));
        lemma_word_is_unique(a, b, 0);
        lemma_word_is_unique(a, b, 8);
        assert(a =~= b);
    }
}

/// A word fits in 64 bits.
pub proof fn lemma_word_range(bytes: Seq<u8>, at: int)
    ensures
        0 <= word_at(bytes, at) < 0x1_0000_0000_0000_0000,
{
    reveal(word_at);
}

/// Equal words have equal bytes.
pub proof fn lemma_word_is_unique(a: Seq<u8>, b: Seq<u8>, at: int)
    requires
        word_at(a, at) == word_at(b, at),
    ensures
        forall|i: int| at <= i < at + 8 ==> a[i] == b[i],
{
    reveal(word_at);
    let a6 = a[at + 6] + 256 * a[at + 7];
    let b6 = b[at + 6] + 256 * b[at + 7];
    let a5 = a[at + 5] + 256 * a6;
    let b5 = b[at + 5] + 256 * b6;
    let a4 = a[at + 4] + 256 * a5;
    let b4 = b[at + 4] + 256 * b5;
    let a3 = a[at + 3] + 256 * a4;
    let b3 = b[at + 3] + 256 * b4;
    let a2 = a[at + 2] + 256 * a3;
    let b2 = b[at + 2] + 256 * b3;
    let a1 = a[at + 1] + 256 * a2;
    let b1 = b[at + 1] + 256 * b2;
    lemma_peel(256, a[at] as int, b[at] as int, a1, b1);
    lemma_peel(256, a[at + 1] as int, b[at + 1] as int, a2, b2);
    lemma_peel(256, a[at + 2] as int, b[at + 2] as int, a3, b3);
    lemma_peel(256, a[at + 3] as int, b[at + 3] as int, a4, b4);
    lemma_peel(256, a[at + 4] as int, b[at + 4] as int, a5, b5);
    lemma_peel(256, a[at + 5] as int, b[at + 5] as int, a6, b6);
    lemma_peel(256, a[at + 6] as int, b[at + 6] as int, a[at + 7] as int, b[at + 7] as int);
    assert forall|i: int| at <= i < at + 8 implies a[i] == b[i] by {
        if i == at {
        } else if i == at + 1 {
        } else if i == at + 2 {
        } else if i == at + 3 {
        } else if i == at + 4 {
        } else if i == at + 5 {
        } else if i == at + 6 {
        } else {
        }
    }
}

/// Whether a framed element stands at a position: 24 bytes, eight of them the length.
pub open spec fn holds_scalar(bytes: Seq<u8>, at: int, scalar: int) -> bool {
    &&& at + 24 <= bytes.len()
    &&& word_at(bytes, at) == 16
    &&& encodes_scalar(bytes.subrange(at + 8, at + 24), scalar)
}

/// Whether framed elements stand one after the other from a position on.
pub open spec fn holds_scalars(bytes: Seq<u8>, at: int, scalars: Seq<int>) -> bool {
    forall|k: int|
        0 <= k < scalars.len() ==> holds_scalar(bytes, at + 24 * k, #[trigger] scalars[k])
}

/// Reads a framed element.
pub fn read_scalar(bytes: &[u8], at: usize) -> (r: Result<Fp128, ChannelError>)
    requires
        at <= bytes@.len(),
    ensures
        match r {
            Ok(scalar) => holds_scalar(bytes@, at as int, scalar@),
            Err(e) => e == ChannelError::ProofEmpty && forall|x: int|
                !(#[trigger] holds_scalar(bytes@, at as int, x)),
        },
{
    match read_akita(bytes, at) {
        Ok((object, _)) => {
            let r: Result<Fp128, ChannelError> = scalar_from_bytes(object.as_slice());
            proof {
                lemma_word_range(bytes@, at as int);
                assert(object@.len() == word_at(bytes@, at as int));
                assert forall|x: int| #[trigger]
                    holds_scalar(bytes@, at as int, x) implies encodes_scalar(object@, x) by {
                    assert(object@ =~= bytes@.subrange(at + 8, at + 24));
                }
                if r is Ok {
                    assert(object@ =~= bytes@.subrange(at + 8, at + 24));
                }
            }
            r
        },
        Err(e) => Err(e),
    }
}

/// Reads framed elements one after the other.
pub fn read_scalars(bytes: &[u8], at: usize, n: usize) -> (r: Result<Vec<Fp128>, ChannelError>)
    requires
        at <= bytes@.len(),
    ensures
        match r {
            Ok(scalars) => scalars@.len() == n && holds_scalars(
                bytes@,
                at as int,
                residues(scalars@),
            ) && at + 24 * n <= bytes@.len(),
            Err(e) => e == ChannelError::ProofEmpty && forall|values: Seq<int>|
                values.len() == n ==> !(#[trigger] holds_scalars(bytes@, at as int, values)),
        },
{
    let total: usize = bytes.len();
    let mut out: Vec<Fp128> = Vec::new();
    let mut p: usize = at;
    let mut k: usize = 0;
    while k < n
        invariant
            k <= n,
            total == bytes@.len(),
            p == at + 24 * k,
            p <= total,
            out@.len() == k,
            holds_scalars(bytes@, at as int, residues(out@)),
        decreases n - k,
    {
        let ghost before = out@;
        match read_scalar(bytes, p) {
            Ok(scalar) => {
                out.push(scalar);
                proof {
                    assert forall|i: int| 0 <= i < out@.len() implies holds_scalar(
                        bytes@,
                        at + 24 * i,
                        #[trigger] residues(out@)[i],
                    ) by {
                        if i < before.len() {
                            assert(residues(out@)[i] == residues(before)[i]);
                        }
                    }
                }
            },
            Err(e) => {
                proof {
                    assert forall|values: Seq<int>| values.len() == n implies !(
                    #[trigger] holds_scalars(bytes@, at as int, values)) by {
                        if holds_scalars(bytes@, at as int, values) {
                            assert(holds_scalar(bytes@, at + 24 * k, values[k as int]));
                        }
                    }
                }
                return Err(e);
            },
        }
        p = p + 24;
        k = k + 1;
    }
    Ok(out)
}

/// Appends framed elements one after the other.
pub fn write_scalars(out: &mut Vec<u8>, scalars: &[Fp128])
    ensures
        final(out)@.len() == old(out)@.len() + 24 * scalars@.len(),
        final(out)@.take(old(out)@.len() as int) == old(out)@,
        holds_scalars(final(out)@, old(out)@.len() as int, residues(scalars@)),
{
    let ghost start = out@;
    let ghost all = residues(scalars@);
    let mut k: usize = 0;
    assert(out@.take(start.len() as int) =~= start);
    while k < scalars.len()
        invariant
            k <= scalars@.len(),
            all == residues(scalars@),
            out@.len() == start.len() + 24 * k,
            out@.take(start.len() as int) == start,
            forall|i: int|
                0 <= i < k ==> holds_scalar(out@, start.len() + 24 * i, #[trigger] all[i]),
        decreases scalars@.len() - k,
    {
        let ghost before = out@;
        let object: Vec<u8> = scalar_to_bytes(scalars[k]);
        let mut framed: Vec<u8> = write_akita(object.as_slice());
        let ghost frame = framed@;
        out.append(&mut framed);
        proof {
            assert(out@ =~= before + frame);
            assert(out@.take(start.len() as int) =~= before.take(start.len() as int));
            assert forall|i: int| 0 <= i < k + 1 implies holds_scalar(
                out@,
                start.len() + 24 * i,
                #[trigger] all[i],
            ) by {
                let p = start.len() + 24 * i;
                reveal(word_at);
                if i < k {
                    assert(holds_scalar(before, p, all[i]));
                    assert(out@.subrange(p + 8, p + 24) =~= before.subrange(p + 8, p + 24));
                } else {
                    assert(out@.subrange(p + 8, p + 24) =~= frame.skip(8));
                }
            }
        }
        k = k + 1;
    }
}

/// Framed elements are read back as what was written.
pub proof fn law_scalars_are_read_back(bytes: Seq<u8>, at: int, a: Seq<int>, b: Seq<int>)
    requires
        a.len() == b.len(),
        holds_scalars(bytes, at, a),
        holds_scalars(bytes, at, b),
    ensures
        a == b,
{
    assert forall|k: int| 0 <= k < a.len() implies a[k] == b[k] by {
        assert(holds_scalar(bytes, at + 24 * k, a[k]));
        assert(holds_scalar(bytes, at + 24 * k, b[k]));
    }
    assert(a =~= b);
}

/// Whether the sample at `next - 1` is the first one from `at` on that is a residue.
pub open spec fn first_residue(samples: Seq<B128>, at: int, next: int) -> bool {
    &&& at < next <= samples.len()
    &&& samples[next - 1].val < MODULUS
    &&& forall|i: int| at <= i < next - 1 ==> (#[trigger] samples[i]).val >= MODULUS
}

/// Draws a scalar from samples of the transcript: the first one that is a residue.
///
/// Returns the scalar and the position after its sample, or nothing where the samples run out.
pub fn sample_akita_scalar(samples: &[BiniusScalar], at: usize) -> (r: Option<(Fp128, usize)>)
    requires
        at <= samples@.len(),
    ensures
        match r {
            Some((scalar, next)) => first_residue(samples@, at as int, next as int) && scalar@
                == samples@[next - 1].val,
            None => forall|i: int|
                at <= i < samples@.len() ==> (#[trigger] samples@[i]).val >= MODULUS,
        },
{
    let mut i: usize = at;
    while i < samples.len()
        invariant
            at <= i <= samples@.len(),
            forall|j: int| at <= j < i ==> (#[trigger] samples@[j]).val >= MODULUS,
        decreases samples@.len() - i,
    {
        match Fp128::from_canonical_u128_checked(samples[i].val) {
            Some(scalar) => {
                return Some((scalar, i + 1));
            },
            None => {},
        }
        i = i + 1;
    }
    None
}

/// The samples from `at` on that are residues, as far as position `end`.
pub open spec fn residues_between(samples: Seq<B128>, at: int, end: int) -> Seq<int>
    decreases end - at,
{
    if end <= at {
        Seq::empty()
    } else {
        let rest = residues_between(samples, at, end - 1);
        if samples[end - 1].val < MODULUS {
            rest.push(samples[end - 1].val as int)
        } else {
            rest
        }
    }
}

/// Between two positions without residues there are none.
proof fn lemma_no_residues(samples: Seq<B128>, at: int, m: int, n: int)
    requires
        at <= m <= n,
        forall|i: int| m <= i < n ==> (#[trigger] samples[i]).val >= MODULUS,
    ensures
        residues_between(samples, at, n) == residues_between(samples, at, m),
    decreases n - m,
{
    if m < n {
        lemma_no_residues(samples, at, m, n - 1);
        assert(samples[n - 1].val >= MODULUS);
    }
}

/// Draws several scalars from samples of the transcript: the first ones that are residues.
///
/// Returns the scalars and the position after the last sample used, or nothing where the samples
/// run out.
pub fn sample_akita_scalar_vec(samples: &[BiniusScalar], at: usize, len: usize) -> (r: Option<
    (Vec<Fp128>, usize),
>)
    requires
        at <= samples@.len(),
    ensures
        match r {
            Some((scalars, next)) => {
                &&& at <= next <= samples@.len()
                &&& residues(scalars@) == residues_between(
                    samples@,
                    at as int,
                    next as int,
                )
                &&& scalars@.len() == len
                &&& len > 0 ==> samples@[next - 1].val < MODULUS
                &&& len == 0 ==> next == at
            },
            None => residues_between(samples@, at as int, samples@.len() as int).len() < len,
        },
{
    let mut out: Vec<Fp128> = Vec::new();
    let mut next: usize = at;
    assert(residues(out@) =~= residues_between(samples@, at as int, at as int));
    while out.len() < len
        invariant
            at <= next <= samples@.len(),
            out@.len() <= len,
            residues(out@) == residues_between(samples@, at as int, next as int),
            out@.len() > 0 ==> next > at && samples@[next - 1].val < MODULUS,
            out@.len() == 0 ==> next == at,
        decreases len - out@.len(),
    {
        let ghost before = out@;
        match sample_akita_scalar(samples, next) {
            Some((scalar, end)) => {
                out.push(scalar);
                proof {
                    lemma_no_residues(samples@, at as int, next as int, end - 1);
                    assert(residues(out@) =~= residues_between(
                        samples@,
                        at as int,
                        end as int,
                    ));
                }
                next = end;
            },
            None => {
                proof {
                    lemma_no_residues(samples@, at as int, next as int, samples@.len() as int);
                    assert(residues(before).len() < len);
                }
                return None;
            },
        }
    }
    Some((out, next))
}

/// A framed object is its length in eight bytes and its own bytes, and there is one such frame.
pub proof fn law_frame_is_unique(a: Seq<u8>, b: Seq<u8>, object: Seq<u8>)
    requires
        is_frame(a, object),
        is_frame(b, object),
    ensures
        a == b,
        a.len() == 8 + object.len(),
        word_at(a, 0) == object.len(),
        forall|i: int| 0 <= i < object.len() ==> #[trigger] object[i] == a[8 + i],
{
    lemma_word_is_unique(a, b, 0);
    assert forall|i: int| 0 <= i < object.len() implies #[trigger] object[i] == a[8 + i] && object[i]
        == b[8 + i] by {
        assert(a.skip(8)[i] == a[8 + i] && b.skip(8)[i] == b[8 + i]);
    }
    assert forall|i: int| 0 <= i < a.len() implies a[i] == b[i] by {
        if i >= 8 {
            let o = object[i - 8];
            assert(o == a[8 + (i - 8)] && o == b[8 + (i - 8)]);
        }
    }
    assert(a =~= b);
}

/// A frame is there where its length and as many bytes as it says are left, provided that the length
/// is not above 64 MiB.
pub proof fn law_frame_has_room(bytes: Seq<u8>, at: int)
    ensures
        has_frame(bytes, at) <==> at + 8 <= bytes.len() && word_at(bytes, at) <= 67_108_864
            && word_at(bytes, at) <= bytes.len() - at - 8,
        has_frame(bytes, at) && at >= 0 ==> framed_object(bytes, at).len() == word_at(bytes, at)
            && forall|i: int|
            0 <= i < word_at(bytes, at) ==> #[trigger] framed_object(bytes, at)[i] == bytes[at + 8
                + i],
{
    lemma_word_range(bytes, at);
}

} // verus!
