//! Fixed-width integer extraction from in-memory byte sequences.
//!
//! The mathematical model of every multi-byte field in the container is one
//! of two spec functions: `le_val` (little-endian) and `be_val` (big-endian),
//! the natural number a byte sequence denotes. Signed fields go through
//! `as_signed`, the two's-complement reading of a `width`-bit value.

use vstd::arithmetic::power2::{lemma2_to64, lemma_pow2_adds, pow2};
use vstd::prelude::*;
use vstd::slice::slice_subrange;

verus! {

/// The natural number denoted by `b` read as a little-endian integer:
/// byte 0 is the least significant.
pub open spec fn le_val(b: Seq<u8>) -> nat
    decreases b.len(),
{
    if b.len() == 0 {
        0
    } else {
        b[0] as nat + 256 * le_val(b.drop_first())
    }
}

/// The natural number denoted by `b` read as a big-endian integer:
/// byte 0 is the most significant.
pub open spec fn be_val(b: Seq<u8>) -> nat
    decreases b.len(),
{
    if b.len() == 0 {
        0
    } else {
        256 * be_val(b.drop_last()) + b.last() as nat
    }
}

/// The two's-complement reading of a `width`-bit unsigned value `v`:
/// values with bit `width - 1` set denote negatives.
pub open spec fn as_signed(v: nat, width: nat) -> int
    recommends
        1 <= width,
        v < pow2(width),
{
    if v < pow2((width - 1) as nat) {
        v as int
    } else {
        v as int - pow2(width) as int
    }
}

/// Ring identity behind the place-value proofs: scaling a split value by 256
/// moves the split point one byte up.
proof fn lemma_place_value(a: int, t: int, x: int, p: int)
    by (nonlinear_arith)
    ensures
        a + 256 * (t + x * p) == (a + 256 * t) + x * (256 * p),
        a + 256 * (t + p * x) == (a + 256 * t) + (256 * p) * x,
{
}

/// A little-endian value is bounded by the capacity of its byte count.
pub proof fn lemma_le_val_bound(b: Seq<u8>)
    ensures
        le_val(b) < pow2(8 * b.len()),
    decreases b.len(),
{
    lemma2_to64();
    if b.len() > 0 {
        lemma_le_val_bound(b.drop_first());
        lemma_pow2_adds(8, 8 * (b.len() - 1) as nat);
        assert(le_val(b) < 256 * pow2(8 * (b.len() - 1) as nat)) by {
            assert(le_val(b.drop_first()) <= pow2(8 * (b.len() - 1) as nat) - 1);
            assert(256 * le_val(b.drop_first()) <= 256 * (pow2(8 * (b.len() - 1) as nat) - 1))
                by (nonlinear_arith)
                requires
                    le_val(b.drop_first()) <= pow2(8 * (b.len() - 1) as nat) - 1,
            ;
        }
    }
}

/// A big-endian value is bounded by the capacity of its byte count.
pub proof fn lemma_be_val_bound(b: Seq<u8>)
    ensures
        be_val(b) < pow2(8 * b.len()),
    decreases b.len(),
{
    lemma2_to64();
    if b.len() > 0 {
        lemma_be_val_bound(b.drop_last());
        lemma_pow2_adds(8 * (b.len() - 1) as nat, 8);
        assert(256 * be_val(b.drop_last()) <= 256 * (pow2(8 * (b.len() - 1) as nat) - 1))
            by (nonlinear_arith)
            requires
                be_val(b.drop_last()) <= pow2(8 * (b.len() - 1) as nat) - 1,
        ;
    }
}

/// Appending one byte at the top end adds it at the next power-of-256 place.
pub proof fn lemma_le_val_snoc(b: Seq<u8>, x: u8)
    ensures
        le_val(b.push(x)) == le_val(b) + x * pow2(8 * b.len()),
    decreases b.len(),
{
    lemma2_to64();
    if b.len() == 0 {
        assert(b.push(x).drop_first() =~= Seq::<u8>::empty());
        assert(b.push(x)[0] == x);
        assert(le_val(Seq::<u8>::empty()) == 0);
        assert(le_val(b.push(x)) == x + 256 * le_val(Seq::<u8>::empty()));
        assert(x * pow2(0) == x);
        assert(le_val(b.push(x)) == le_val(b) + x * pow2(8 * b.len()));
    } else {
        let t = b.drop_first();
        assert(b.push(x)[0] == b[0]);
        assert(b.push(x).drop_first() =~= t.push(x));
        lemma_le_val_snoc(t, x);
        lemma_pow2_adds(8, 8 * t.len());
        assert(8 * b.len() == 8 + 8 * t.len());
        assert(pow2(8 * b.len()) == 256 * pow2(8 * t.len()));
        assert(le_val(b.push(x)) == b[0] + 256 * le_val(t.push(x)));
        assert(le_val(b) == b[0] + 256 * le_val(t));
        lemma_place_value(
            b[0] as int,
            le_val(t) as int,
            x as int,
            pow2(8 * t.len()) as int,
        );
        assert(le_val(b.push(x)) == le_val(b) + x * pow2(8 * b.len()));
    }
}

/// A little-endian value splits at any byte position: the low `k` bytes
/// plus the remaining bytes scaled by `pow2(8 * k)`.
pub proof fn lemma_le_val_split(b: Seq<u8>, k: int)
    requires
        0 <= k <= b.len(),
    ensures
        le_val(b) == le_val(b.take(k)) + pow2(8 * k as nat) * le_val(b.skip(k)),
    decreases k,
{
    lemma2_to64();
    if k == 0 {
        assert(b.take(0) =~= Seq::<u8>::empty());
        assert(b.skip(0) =~= b);
        assert(le_val(Seq::<u8>::empty()) == 0);
        assert(pow2(0) * le_val(b.skip(0)) == le_val(b.skip(0)));
        assert(le_val(b) == le_val(b.take(k)) + pow2(8 * k as nat) * le_val(b.skip(k)));
    } else {
        let t = b.drop_first();
        assert(b.take(k)[0] == b[0]);
        assert(b.take(k).drop_first() =~= t.take(k - 1));
        assert(b.skip(k) =~= t.skip(k - 1));
        lemma_le_val_split(t, k - 1);
        lemma_pow2_adds(8, 8 * (k - 1) as nat);
        assert(8 * k as nat == 8 + 8 * (k - 1) as nat);
        assert(pow2(8 * k as nat) == 256 * pow2(8 * (k - 1) as nat));
        assert(le_val(b.take(k)) == b[0] + 256 * le_val(t.take(k - 1)));
        assert(le_val(b) == b[0] + 256 * le_val(t));
        lemma_place_value(
            b[0] as int,
            le_val(t.take(k - 1)) as int,
            le_val(t.skip(k - 1)) as int,
            pow2(8 * (k - 1) as nat) as int,
        );
        assert(le_val(b) == le_val(b.take(k)) + pow2(8 * k as nat) * le_val(b.skip(k)));
    }
}

/// The little-endian value of up to 8 bytes, by accumulation from the
/// most-significant end.
pub fn le_bytes_to_u64(bytes: &[u8]) -> (r: u64)
    requires
        bytes@.len() <= 8,
    ensures
        r as nat == le_val(bytes@),
{
    proof {
        lemma2_to64();
    }
    let mut acc: u64 = 0;
    let mut j: usize = bytes.len();
    while j > 0
        invariant
            0 <= j <= bytes@.len() <= 8,
            acc as nat == le_val(bytes@.skip(j as int)),
        decreases j,
    {
        j = j - 1;
        proof {
            lemma2_to64();
            vstd::arithmetic::power2::lemma2_to64_rest();
            assert(bytes@.skip(j as int)[0] == bytes@[j as int]);
            assert(bytes@.skip(j as int).drop_first() =~= bytes@.skip(j as int + 1));
            lemma_le_val_bound(bytes@.skip(j as int + 1));
            let m = 8 * (bytes@.len() - j - 1) as nat;
            if m < 56 {
                vstd::arithmetic::power2::lemma_pow2_strictly_increases(m, 56);
            }
        }
        acc = acc * 256 + (bytes[j] as u64);
    }
    proof {
        assert(bytes@.skip(0) =~= bytes@);
    }
    acc
}

/// Little-endian `u16` at byte position `pos`.
pub fn take_u16_le(data: &[u8], pos: usize) -> (r: u16)
    requires
        pos + 2 <= data@.len(),
    ensures
        r as nat == le_val(data@.subrange(pos as int, pos as int + 2)),
{
    let _n = data.len();
    let s = slice_subrange(data, pos, pos + 2);
    let v = le_bytes_to_u64(s);
    proof {
        lemma_le_val_bound(s@);
        lemma2_to64();
    }
    v as u16
}

/// Little-endian `u32` at byte position `pos`.
pub fn take_u32_le(data: &[u8], pos: usize) -> (r: u32)
    requires
        pos + 4 <= data@.len(),
    ensures
        r as nat == le_val(data@.subrange(pos as int, pos as int + 4)),
{
    let _n = data.len();
    let s = slice_subrange(data, pos, pos + 4);
    let v = le_bytes_to_u64(s);
    proof {
        lemma_le_val_bound(s@);
        lemma2_to64();
    }
    v as u32
}

/// Little-endian `i16` at byte position `pos`, two's complement.
pub fn take_i16_le(data: &[u8], pos: usize) -> (r: i16)
    requires
        pos + 2 <= data@.len(),
    ensures
        r as int == as_signed(le_val(data@.subrange(pos as int, pos as int + 2)), 16),
{
    let v = take_u16_le(data, pos);
    proof {
        lemma2_to64();
        lemma_pow2_adds(15, 1);
    }
    if v >= 0x8000 {
        ((v as i32) - 0x10000) as i16
    } else {
        v as i16
    }
}

/// Little-endian `i32` at byte position `pos`, two's complement.
pub fn take_i32_le(data: &[u8], pos: usize) -> (r: i32)
    requires
        pos + 4 <= data@.len(),
    ensures
        r as int == as_signed(le_val(data@.subrange(pos as int, pos as int + 4)), 32),
{
    let v = take_u32_le(data, pos);
    proof {
        lemma2_to64();
    }
    if v >= 0x80000000 {
        ((v as i64) - 0x100000000i64) as i32
    } else {
        v as i32
    }
}

/// Big-endian `u32` at byte position `pos`.
pub fn take_u32_be(data: &[u8], pos: usize) -> (r: u32)
    requires
        pos + 4 <= data@.len(),
    ensures
        r as nat == be_val(data@.subrange(pos as int, pos as int + 4)),
{
    let _n = data.len();
    let s = slice_subrange(data, pos, pos + 4);
    let v = be_bytes_to_u64(s);
    proof {
        lemma_be_val_bound(s@);
        lemma2_to64();
    }
    v as u32
}

/// Big-endian `u64` at byte position `pos`.
pub fn take_u64_be(data: &[u8], pos: usize) -> (r: u64)
    requires
        pos + 8 <= data@.len(),
    ensures
        r as nat == be_val(data@.subrange(pos as int, pos as int + 8)),
{
    let _n = data.len();
    let s = slice_subrange(data, pos, pos + 8);
    be_bytes_to_u64(s)
}

/// The big-endian value of up to 8 bytes, by accumulation from the
/// most-significant end.
pub fn be_bytes_to_u64(bytes: &[u8]) -> (r: u64)
    requires
        bytes@.len() <= 8,
    ensures
        r as nat == be_val(bytes@),
{
    proof {
        lemma2_to64();
        assert(bytes@.take(0) =~= Seq::<u8>::empty());
    }
    let mut acc: u64 = 0;
    let mut i: usize = 0;
    while i < bytes.len()
        invariant
            0 <= i <= bytes@.len() <= 8,
            acc as nat == be_val(bytes@.take(i as int)),
        decreases bytes@.len() - i,
    {
        proof {
            lemma2_to64();
            vstd::arithmetic::power2::lemma2_to64_rest();
            assert(bytes@.take(i as int + 1).drop_last() =~= bytes@.take(i as int));
            assert(bytes@.take(i as int + 1).last() == bytes@[i as int]);
            lemma_be_val_bound(bytes@.take(i as int));
            if 8 * i < 56 {
                vstd::arithmetic::power2::lemma_pow2_strictly_increases(8 * i as nat, 56);
            }
        }
        acc = acc * 256 + (bytes[i] as u64);
        i = i + 1;
    }
    proof {
        assert(bytes@.take(bytes@.len() as int) =~= bytes@);
    }
    acc
}

/// An integer type that can be assembled from a fixed number of bytes in
/// either byte order.
pub trait FromBytes: Sized {
    /// The exact number of bytes one value occupies.
    spec fn spec_size() -> nat;

    /// The value the bytes denote read little-endian.
    spec fn from_le_spec(b: Seq<u8>) -> Self;

    /// The value the bytes denote read big-endian.
    spec fn from_be_spec(b: Seq<u8>) -> Self;

    fn from_le_bytes(bytes: &[u8]) -> (r: Self)
        requires
            bytes@.len() == Self::spec_size(),
        ensures
            r == Self::from_le_spec(bytes@),
    ;

    fn from_be_bytes(bytes: &[u8]) -> (r: Self)
        requires
            bytes@.len() == Self::spec_size(),
        ensures
            r == Self::from_be_spec(bytes@),
    ;
}

impl FromBytes for u8 {
    open spec fn spec_size() -> nat {
        1
    }

    open spec fn from_le_spec(b: Seq<u8>) -> u8 {
        le_val(b) as u8
    }

    open spec fn from_be_spec(b: Seq<u8>) -> u8 {
        be_val(b) as u8
    }

    fn from_le_bytes(bytes: &[u8]) -> (r: u8) {
        proof {
            lemma_le_val_bound(bytes@);
            lemma2_to64();
        }
        le_bytes_to_u64(bytes) as u8
    }

    fn from_be_bytes(bytes: &[u8]) -> (r: u8) {
        proof {
            lemma_be_val_bound(bytes@);
            lemma2_to64();
        }
        be_bytes_to_u64(bytes) as u8
    }
}

impl FromBytes for u16 {
    open spec fn spec_size() -> nat {
        2
    }

    open spec fn from_le_spec(b: Seq<u8>) -> u16 {
        le_val(b) as u16
    }

    open spec fn from_be_spec(b: Seq<u8>) -> u16 {
        be_val(b) as u16
    }

    fn from_le_bytes(bytes: &[u8]) -> (r: u16) {
        proof {
            lemma_le_val_bound(bytes@);
            lemma2_to64();
        }
        le_bytes_to_u64(bytes) as u16
    }

    fn from_be_bytes(bytes: &[u8]) -> (r: u16) {
        proof {
            lemma_be_val_bound(bytes@);
            lemma2_to64();
        }
        be_bytes_to_u64(bytes) as u16
    }
}

impl FromBytes for u32 {
    open spec fn spec_size() -> nat {
        4
    }

    open spec fn from_le_spec(b: Seq<u8>) -> u32 {
        le_val(b) as u32
    }

    open spec fn from_be_spec(b: Seq<u8>) -> u32 {
        be_val(b) as u32
    }

    fn from_le_bytes(bytes: &[u8]) -> (r: u32) {
        proof {
            lemma_le_val_bound(bytes@);
            lemma2_to64();
        }
        le_bytes_to_u64(bytes) as u32
    }

    fn from_be_bytes(bytes: &[u8]) -> (r: u32) {
        proof {
            lemma_be_val_bound(bytes@);
            lemma2_to64();
        }
        be_bytes_to_u64(bytes) as u32
    }
}

impl FromBytes for u64 {
    open spec fn spec_size() -> nat {
        8
    }

    open spec fn from_le_spec(b: Seq<u8>) -> u64 {
        le_val(b) as u64
    }

    open spec fn from_be_spec(b: Seq<u8>) -> u64 {
        be_val(b) as u64
    }

    fn from_le_bytes(bytes: &[u8]) -> (r: u64) {
        proof {
            lemma_le_val_bound(bytes@);
        }
        le_bytes_to_u64(bytes)
    }

    fn from_be_bytes(bytes: &[u8]) -> (r: u64) {
        proof {
            lemma_be_val_bound(bytes@);
        }
        be_bytes_to_u64(bytes)
    }
}

impl FromBytes for i8 {
    open spec fn spec_size() -> nat {
        1
    }

    open spec fn from_le_spec(b: Seq<u8>) -> i8 {
        as_signed(le_val(b), 8) as i8
    }

    open spec fn from_be_spec(b: Seq<u8>) -> i8 {
        as_signed(be_val(b), 8) as i8
    }

    fn from_le_bytes(bytes: &[u8]) -> (r: i8) {
        proof {
            lemma_le_val_bound(bytes@);
            lemma2_to64();
            lemma_pow2_adds(7, 1);
        }
        let v = le_bytes_to_u64(bytes) as u8;
        if v >= 0x80 {
            ((v as i16) - 0x100) as i8
        } else {
            v as i8
        }
    }

    fn from_be_bytes(bytes: &[u8]) -> (r: i8) {
        proof {
            lemma_be_val_bound(bytes@);
            lemma2_to64();
            lemma_pow2_adds(7, 1);
        }
        let v = be_bytes_to_u64(bytes) as u8;
        if v >= 0x80 {
            ((v as i16) - 0x100) as i8
        } else {
            v as i8
        }
    }
}

impl FromBytes for i16 {
    open spec fn spec_size() -> nat {
        2
    }

    open spec fn from_le_spec(b: Seq<u8>) -> i16 {
        as_signed(le_val(b), 16) as i16
    }

    open spec fn from_be_spec(b: Seq<u8>) -> i16 {
        as_signed(be_val(b), 16) as i16
    }

    fn from_le_bytes(bytes: &[u8]) -> (r: i16) {
        proof {
            lemma_le_val_bound(bytes@);
            lemma2_to64();
            lemma_pow2_adds(15, 1);
        }
        let v = le_bytes_to_u64(bytes) as u16;
        if v >= 0x8000 {
            ((v as i32) - 0x10000) as i16
        } else {
            v as i16
        }
    }

    fn from_be_bytes(bytes: &[u8]) -> (r: i16) {
        proof {
            lemma_be_val_bound(bytes@);
            lemma2_to64();
            lemma_pow2_adds(15, 1);
        }
        let v = be_bytes_to_u64(bytes) as u16;
        if v >= 0x8000 {
            ((v as i32) - 0x10000) as i16
        } else {
            v as i16
        }
    }
}

impl FromBytes for i32 {
    open spec fn spec_size() -> nat {
        4
    }

    open spec fn from_le_spec(b: Seq<u8>) -> i32 {
        as_signed(le_val(b), 32) as i32
    }

    open spec fn from_be_spec(b: Seq<u8>) -> i32 {
        as_signed(be_val(b), 32) as i32
    }

    fn from_le_bytes(bytes: &[u8]) -> (r: i32) {
        proof {
            lemma_le_val_bound(bytes@);
            lemma2_to64();
        }
        let v = le_bytes_to_u64(bytes) as u32;
        if v >= 0x80000000 {
            ((v as i64) - 0x100000000i64) as i32
        } else {
            v as i32
        }
    }

    fn from_be_bytes(bytes: &[u8]) -> (r: i32) {
        proof {
            lemma_be_val_bound(bytes@);
            lemma2_to64();
        }
        let v = be_bytes_to_u64(bytes) as u32;
        if v >= 0x80000000 {
            ((v as i64) - 0x100000000i64) as i32
        } else {
            v as i32
        }
    }
}

impl FromBytes for i64 {
    open spec fn spec_size() -> nat {
        8
    }

    open spec fn from_le_spec(b: Seq<u8>) -> i64 {
        as_signed(le_val(b), 64) as i64
    }

    open spec fn from_be_spec(b: Seq<u8>) -> i64 {
        as_signed(be_val(b), 64) as i64
    }

    fn from_le_bytes(bytes: &[u8]) -> (r: i64) {
        proof {
            lemma_le_val_bound(bytes@);
            lemma2_to64();
            vstd::arithmetic::power2::lemma2_to64_rest();
        }
        let v = le_bytes_to_u64(bytes);
        if v >= 0x8000000000000000 {
            ((v as i128) - 0x10000000000000000i128) as i64
        } else {
            v as i64
        }
    }

    fn from_be_bytes(bytes: &[u8]) -> (r: i64) {
        proof {
            lemma_be_val_bound(bytes@);
            lemma2_to64();
            vstd::arithmetic::power2::lemma2_to64_rest();
        }
        let v = be_bytes_to_u64(bytes);
        if v >= 0x8000000000000000 {
            ((v as i128) - 0x10000000000000000i128) as i64
        } else {
            v as i64
        }
    }
}

} // verus!
