//! LSB-first variable-width bitstream unpacking with sign extension.
//!
//! A payload packs values of a fixed width `w` back to back with no padding:
//! bit 0 of byte 0 is the least-significant bit of value 0, and value `k`
//! occupies bits `k*w .. (k+1)*w` of the stream. Because the stream is
//! LSB-first, its bits in order are exactly the binary digits of the
//! little-endian integer value of the payload, so field `k` is
//! `(le_val(data) / 2^(k*w)) % 2^w`. Each field is then read as a
//! `w`-bit two's-complement number.

use crate::read_bytes::{as_signed, le_val, lemma_le_val_snoc, lemma_le_val_split};
use vstd::arithmetic::div_mod::{lemma_div_denominator, lemma_fundamental_div_mod_converse,
    lemma_hoist_over_denominator, lemma_mod_bound, lemma_mod_multiples_vanish,
    lemma_multiply_divide_lt};
use vstd::arithmetic::mul::{lemma_mul_inequality, lemma_mul_is_associative,
    lemma_mul_is_commutative};
use vstd::arithmetic::power2::{lemma2_to64, lemma_pow2_adds, lemma_pow2_pos,
    lemma_pow2_strictly_increases, pow2};
use vstd::prelude::*;

verus! {

/// How many whole `width`-bit fields fit in `len_bytes` bytes.
pub open spec fn packed_count(len_bytes: nat, width: nat) -> nat
    recommends
        1 <= width,
{
    (len_bytes * 8) / width
}

/// Field `k` of the LSB-first bitstream over `data`, as an unsigned
/// `width`-bit value: bits `k*width .. (k+1)*width` of `le_val(data)`.
pub open spec fn packed_field(data: Seq<u8>, width: nat, k: nat) -> nat
    recommends
        1 <= width,
{
    (le_val(data) / pow2(k * width)) % pow2(width)
}

/// Every whole field of the stream, in order, each sign-extended from
/// `width` bits to `i32`.
pub open spec fn packed_values(data: Seq<u8>, width: nat) -> Seq<i32>
    recommends
        1 <= width <= 32,
{
    Seq::new(
        packed_count(data.len(), width),
        |k: int| as_signed(packed_field(data, width, k as nat), width) as i32,
    )
}

/// Every unpacked field lies in the signed `width`-bit range, whatever the
/// payload bytes hold: sign extension maps `2^(width-1) <= v < 2^width` to
/// negatives and never outside `-2^(width-1) .. 2^(width-1)`.
pub proof fn lemma_packed_value_range(data: Seq<u8>, width: nat, k: nat)
    requires
        1 <= width <= 32,
    ensures
        -(pow2((width - 1) as nat) as int) <= as_signed(packed_field(data, width, k), width)
            < pow2((width - 1) as nat),
        packed_values(data, width).len() == packed_count(data.len(), width),
        k < packed_count(data.len(), width) ==> packed_values(data, width)[k as int] as int
            == as_signed(packed_field(data, width, k), width),
{
    let v = packed_field(data, width, k);
    lemma_pow2_pos(k * width);
    lemma_pow2_pos(width);
    lemma_mod_bound((le_val(data) / pow2(k * width)) as int, pow2(width) as int);
    lemma_pow2_adds((width - 1) as nat, 1);
    lemma2_to64();
    assert(pow2(width) == 2 * pow2((width - 1) as nat));
    if width < 32 {
        lemma_pow2_strictly_increases((width - 1) as nat, 31);
    }
    assert(pow2(31) == 0x80000000);
}

/// 2^e for exponents below 64.
pub(crate) fn pow2_u64(e: usize) -> (r: u64)
    requires
        e < 64,
    ensures
        r as nat == pow2(e as nat),
        r >= 1,
{
    proof {
        vstd::bits::lemma_u64_pow2_no_overflow(e as nat);
        vstd::bits::lemma_u64_shl_is_mul(1u64, e as u64);
        lemma_pow2_pos(e as nat);
    }
    1u64 << (e as u64)
}

/// Sign-extend the low `width` bits of `value`: if bit `width - 1` is set,
/// the value denotes `value - 2^width`.
pub(crate) fn sign_extend(value: u32, width: usize) -> (r: i32)
    requires
        1 <= width <= 32,
        (value as nat) < pow2(width as nat),
    ensures
        r as int == as_signed(value as nat, width as nat),
{
    let half: u64 = pow2_u64(width - 1);
    proof {
        lemma_pow2_adds((width - 1) as nat, 1);
        lemma2_to64();
        assert(pow2(width as nat) == 2 * pow2((width - 1) as nat));
        if width < 32 {
            lemma_pow2_strictly_increases((width - 1) as nat, 31);
        }
    }
    if (value as u64) >= half {
        (((value as i64) - (half as i64)) - (half as i64)) as i32
    } else {
        value as i32
    }
}

/// Unpack every whole `precision_in_bits`-wide field of `data`, LSB-first,
/// sign-extending each to `i32`. A rolling accumulator is fed one byte at a
/// time; once at least `precision_in_bits` bits are buffered, the low field
/// is extracted and the accumulator shifted down, so fields that straddle
/// byte boundaries are reassembled exactly.
pub fn read_packed_values_i32(data: &[u8], precision_in_bits: usize) -> (values: Vec<i32>)
    requires
        1 <= precision_in_bits <= 32,
    ensures
        values@ == packed_values(data@, precision_in_bits as nat),
{
    let w = precision_in_bits;
    let pw: u64 = pow2_u64(w);
    let mut values: Vec<i32> = Vec::new();
    let mut acc: u64 = 0;
    let mut n: usize = 0;
    let mut bi: usize = 0;
    proof {
        lemma2_to64();
        assert(data@.take(0) =~= Seq::<u8>::empty());
        assert(le_val(Seq::<u8>::empty()) == 0);
        assert(values@.len() * w == 0) by (nonlinear_arith)
            requires
                values@.len() == 0,
        ;
    }
    while bi < data.len()
        invariant
            1 <= w <= 32,
            1 <= pw,
            pw as nat == pow2(w as nat),
            bi <= data@.len(),
            n < w,
            values@.len() * w + n == bi * 8,
            acc as nat == le_val(data@.take(bi as int)) / pow2((values@.len() * w) as nat),
            acc < pow2(n as nat),
            forall|k: int|
                0 <= k < values@.len() ==> #[trigger] values@[k] as int == as_signed(
                    packed_field(data@, w as nat, k as nat),
                    w as nat,
                ),
        decreases data@.len() - bi,
    {
        let ghost c = (values@.len() * w) as nat;
        let byte = data[bi];
        let mult: u64 = pow2_u64(n);
        proof {
            lemma2_to64();
            vstd::arithmetic::power2::lemma2_to64_rest();
            // Feeding a byte appends it above the `n` buffered bits:
            // le_val(take(bi + 1)) == le_val(take(bi)) + byte * 2^(8 * bi).
            assert(data@.take(bi as int + 1) =~= data@.take(bi as int).push(data@[bi as int]));
            lemma_le_val_snoc(data@.take(bi as int), data@[bi as int]);
            assert(8 * data@.take(bi as int).len() == 8 * bi);
            // 2^(8 * bi) == 2^n * 2^c, since c + n == 8 * bi.
            lemma_pow2_adds(n as nat, c);
            lemma_pow2_pos(c);
            lemma_pow2_pos(n as nat);
            // acc + byte * 2^n == (le_val(take(bi)) + (byte * 2^n) * 2^c) / 2^c.
            lemma_hoist_over_denominator(
                le_val(data@.take(bi as int)) as int,
                (byte as int) * pow2(n as nat) as int,
                pow2(c),
            );
            lemma_mul_is_associative(byte as int, pow2(n as nat) as int, pow2(c) as int);
            // No overflow: byte * 2^n < 2^(n + 8) and acc < 2^n.
            lemma_mul_inequality(byte as int, 255, pow2(n as nat) as int);
            lemma_pow2_adds(n as nat, 8);
        }
        acc = acc + (byte as u64) * mult;
        n = n + 8;
        bi = bi + 1;
        while n >= w
            invariant
                1 <= w <= 32,
                1 <= pw,
                pw as nat == pow2(w as nat),
                bi <= data@.len(),
                n < w + 8,
                values@.len() * w + n == bi * 8,
                acc as nat == le_val(data@.take(bi as int)) / pow2(
                    (values@.len() * w) as nat,
                ),
                acc < pow2(n as nat),
                forall|k: int|
                    0 <= k < values@.len() ==> #[trigger] values@[k] as int == as_signed(
                        packed_field(data@, w as nat, k as nat),
                        w as nat,
                    ),
            decreases n,
        {
            let ghost k = values@.len() as nat;
            let ghost ck = (k * w) as nat;
            let field64: u64 = acc % pw;
            proof {
                lemma2_to64();
                lemma_pow2_pos(ck);
                lemma_pow2_pos(w as nat);
                lemma_pow2_pos((n - w) as nat);
                // The whole stream splits at byte bi; the tail sits at
                // bit offset 8 * bi == ck + n, far above this field.
                lemma_le_val_split(data@, bi as int);
                let tail = le_val(data@.skip(bi as int));
                let head = le_val(data@.take(bi as int));
                // le_val(data) / 2^ck == acc + (2^(n - w) * tail) * 2^w.
                lemma_pow2_adds(ck, n as nat);
                lemma_pow2_adds((n - w) as nat, w as nat);
                lemma_mul_is_associative(pow2((n - w) as nat) as int, pow2(w as nat) as int, tail as int);
                lemma_mul_is_commutative(pow2(n as nat) as int, tail as int);
                lemma_hoist_over_denominator(
                    head as int,
                    (pow2((n - w) as nat) * pow2(w as nat)) as int * tail as int,
                    pow2(ck),
                );
                assert((pow2(ck) * (pow2(n as nat) * tail)) == ((pow2((n - w) as nat) * pow2(
                    w as nat,
                )) as int * tail as int) * pow2(ck) as int) by (nonlinear_arith)
                    requires
                        pow2(ck) * pow2(n as nat) == pow2(ck + n as nat),
                        pow2((n - w) as nat) * pow2(w as nat) == pow2(n as nat),
                ;
                assert(le_val(data@) == head + pow2(ck) * (pow2(n as nat) * tail)) by {
                    lemma_mul_is_associative(pow2(ck) as int, pow2(n as nat) as int, tail as int);
                    lemma_pow2_adds(ck, n as nat);
                };
                assert((le_val(data@) / pow2(ck)) as int == acc + (pow2((n - w) as nat) * tail) as int
                    * pow2(w as nat) as int) by {
                    lemma_mul_is_associative(
                        pow2((n - w) as nat) as int,
                        tail as int,
                        pow2(w as nat) as int,
                    );
                    lemma_mul_is_commutative(pow2((n - w) as nat) as int * tail as int, pow2(w as nat) as int);
                    lemma_mul_is_associative(
                        pow2((n - w) as nat) as int,
                        pow2(w as nat) as int,
                        tail as int,
                    );
                };
                // Dropping the tail multiples of 2^w leaves acc % 2^w.
                lemma_mod_multiples_vanish(
                    (pow2((n - w) as nat) * tail) as int,
                    acc as int,
                    pow2(w as nat) as int,
                );
                lemma_mul_is_commutative(
                    pow2(w as nat) as int,
                    (pow2((n - w) as nat) * tail) as int,
                );
                assert(packed_field(data@, w as nat, k) == acc as nat % pow2(w as nat));
                // The extracted field is in range for sign extension.
                lemma_mod_bound(acc as int, pow2(w as nat) as int);
                if w < 32 {
                    lemma_pow2_strictly_increases(w as nat, 32);
                }
                // The remaining accumulator is the stream above the field.
                lemma_div_denominator(head as int, pow2(ck) as int, pow2(w as nat) as int);
                lemma_pow2_adds(ck, w as nat);
                // (k + 1) * w == k * w + w.
                assert((k + 1) * w == k * w + w) by (nonlinear_arith);
                // New accumulator bound: acc / 2^w < 2^(n - w).
                lemma_pow2_adds((n - w) as nat, w as nat);
                lemma_multiply_divide_lt(acc as int, pow2(w as nat) as int, pow2((n - w) as nat) as int);
                lemma_mul_is_commutative(pow2(w as nat) as int, pow2((n - w) as nat) as int);
            }
            proof {
                assert(field64 as nat == acc as nat % pow2(w as nat));
                assert(field64 < 0x100000000u64);
            }
            let field: u32 = field64 as u32;
            let v = sign_extend(field, w);
            values.push(v);
            proof {
                assert(values@[k as int] == v);
                assert(v as int == as_signed(packed_field(data@, w as nat, k), w as nat));
            }
            acc = acc / pw;
            n = n - w;
        }
    }
    proof {
        assert(data@.take(data@.len() as int) =~= data@);
        lemma_fundamental_div_mod_converse(
            8 * data@.len() as int,
            w as int,
            values@.len() as int,
            n as int,
        );
        assert(packed_count(data@.len(), w as nat) == values@.len());
        assert forall|k: int| 0 <= k < values@.len() implies values@[k] == packed_values(
            data@,
            w as nat,
        )[k] by {
            lemma_packed_value_range(data@, w as nat, k as nat);
        }
        assert(values@ =~= packed_values(data@, w as nat));
    }
    values
}

} // verus!
