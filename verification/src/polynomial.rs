//! Polynomials over the field of two elements, and the checksum as the remainder of a
//! division of polynomials.

use vstd::prelude::*;

use crate::wal::{crc32_of, crc_register, crc_shift, crc_shifts};

verus! {

/// The coefficients of a polynomial, that of the highest power first.
pub type Poly = Seq<bool>;

/// The zero polynomial with `n` coefficients.
pub open spec fn zeros(n: nat) -> Poly {
    Seq::new(n, |i: int| false)
}

/// The sum of two polynomials with the same number of coefficients.
pub open spec fn plus(a: Poly, b: Poly) -> Poly {
    Seq::new(a.len(), |i: int| a[i] != b[i])
}

/// The generator of the IEEE 802.3 checksum: `x^32` and the powers in 0x04C11DB7.
pub open spec fn generator() -> Poly {
    Seq::new(33, |i: int| i == 0 || (0x04C11DB7u32 >> ((32 - i) as u32)) & 1 == 1)
}

/// The product of `q` and the generator: `x` times the product of all but the last
/// coefficient, and the generator once more where that is one.
pub open spec fn times_generator(q: Poly) -> Poly
    decreases q.len(),
{
    if q.len() == 0 {
        zeros(32)
    } else {
        plus(
            times_generator(q.drop_last()).push(false),
            zeros((q.len() - 1) as nat) + (if q.last() {
                generator()
            } else {
                zeros(33)
            }),
        )
    }
}

/// Data as it is divided: the bits of every byte from the lowest to the highest, then
/// 32 zeros, and the first 32 coefficients of all that inverted.
pub open spec fn dividend(data: Seq<u8>) -> Poly {
    Seq::new(
        8 * data.len() + 32,
        |i: int|
            (i < 8 * data.len() && (data[i / 8] >> ((i % 8) as u8)) & 1 == 1) != (i < 32),
    )
}

/// A 32-bit number as a polynomial, its lowest bit as the coefficient of `x^31`.
pub open spec fn reflected(n: u32) -> Poly {
    Seq::new(32, |i: int| (n >> (i as u32)) & 1 == 1)
}

/// The dividend of a number of bits.
spec fn dividend_of_bits(bits: Poly) -> Poly {
    Seq::new(bits.len() + 32, |i: int| (i < bits.len() && bits[i]) != (i < 32))
}

spec fn bits_of(data: Seq<u8>) -> Poly {
    Seq::new(8 * data.len(), |i: int| (data[i / 8] >> ((i % 8) as u8)) & 1 == 1)
}

/// The register `r` is the remainder of the bits, and `q` their quotient.
spec fn divides(bits: Poly, q: Poly, r: u32) -> bool {
    &&& q.len() == bits.len()
    &&& dividend_of_bits(bits) == plus(times_generator(q), zeros(bits.len()) + reflected(r))
}

proof fn lemma_times_len(q: Poly)
    ensures
        times_generator(q).len() == q.len() + 32,
    decreases q.len(),
{
    if q.len() > 0 {
        lemma_times_len(q.drop_last());
    }
}

/// One more bit is one more step of the register.
proof fn lemma_divides_step(bits: Poly, q: Poly, r: u32, d: bool)
    requires
        divides(bits, q, r),
    ensures
        divides(
            bits.push(d),
            q.push(((r & 1) == 1) != d),
            crc_shift(r ^ (if d { 1u32 } else { 0u32 })),
        ),
{
    let n = bits.len() as int;
    let dd = if d { 1u32 } else { 0u32 };
    let t = ((r & 1) == 1) != d;
    let next = crc_shift(r ^ dd);
    let longer = q.push(t);
    assert(longer.drop_last() =~= q);
    lemma_times_len(q);
    lemma_times_len(longer);
    let left = dividend_of_bits(bits.push(d));
    let right = plus(times_generator(longer), zeros((n + 1) as nat) + reflected(next));
    assert(r >> 0u32 == r) by (bit_vector);
    assert forall|j: int| 0 <= j < n + 33 implies left[j] == right[j] by {
        let old_left = dividend_of_bits(bits);
        if j < n + 32 {
            assert(old_left[j] == (times_generator(q)[j] != (zeros(n as nat) + reflected(r))[j]));
        }
        if j > n {
            let e = (j - n) as u32;
            let before = (e - 1) as u32;
            let mirror = (32 - e) as u32;
            let x = r ^ dd;
            assert(((next >> before) & 1 == 1) == (((x & 1 == 1) && ((0x04C11DB7u32 >> mirror) & 1
                == 1)) != (e < 32 && (r >> e) & 1 == 1))) by (bit_vector)
                requires
                    1 <= e <= 32,
                    before + 1 == e,
                    mirror + e == 32,
                    dd == 0 || dd == 1,
                    x == r ^ dd,
                    next == (x >> 1) ^ (if x & 1 == 1 {
                        0xEDB88320u32
                    } else {
                        0u32
                    }),
            ;
            assert(((r ^ dd) & 1 == 1) == (((r & 1) == 1) != (dd == 1))) by (bit_vector)
                requires
                    dd == 0 || dd == 1,
            ;
        }
    }
    assert(left =~= right);
}

/// A word that enters the register enters it bit by bit.
proof fn lemma_shift_of_word(f: u32, w: u32)
    ensures
        crc_shift(f ^ w) == crc_shift(f ^ (w & 1)) ^ (w >> 1),
{
    let x = f ^ w;
    let y = f ^ (w & 1);
    assert(((x >> 1) ^ (if x & 1 == 1 {
        0xEDB88320u32
    } else {
        0u32
    })) == ((y >> 1) ^ (if y & 1 == 1 {
        0xEDB88320u32
    } else {
        0u32
    })) ^ (w >> 1)) by (bit_vector)
        requires
            x == f ^ w,
            y == f ^ (w & 1),
    ;
}

/// The first `n` bits of a byte.
spec fn low_bits(byte: u8, n: nat) -> Poly {
    Seq::new(n, |i: int| (byte >> (i as u8)) & 1 == 1)
}

proof fn lemma_divides_bits(bits: Poly, q: Poly, r: u32, byte: u8, n: nat) -> (longer: Poly)
    requires
        divides(bits, q, r),
        n <= 8,
    ensures
        divides(
            bits + low_bits(byte, n),
            longer,
            crc_shifts(r ^ (byte as u32), n) ^ ((byte as u32) >> (n as u32)),
        ),
    decreases n,
{
    let b = byte as u32;
    if n == 0 {
        assert((r ^ b) ^ (b >> 0u32) == r) by (bit_vector);
        assert(bits + low_bits(byte, 0) =~= bits);
        q
    } else {
        let m = (n - 1) as nat;
        let shift = m as u32;
        let small = m as u8;
        let part = lemma_divides_bits(bits, q, r, byte, m);
        let now = crc_shifts(r ^ b, m);
        let f = now ^ (b >> shift);
        let d = (byte >> small) & 1 == 1;
        let dd = if d { 1u32 } else { 0u32 };
        lemma_divides_step(bits + low_bits(byte, m), part, f, d);
        assert((bits + low_bits(byte, m)).push(d) =~= bits + low_bits(byte, n));
        let w = b >> shift;
        assert(w & 1 == dd) by {
            assert(((b >> shift) & 1) == (if (byte >> small) & 1 == 1 { 1u32 } else { 0u32 }))
                by (bit_vector)
                requires
                    b == byte as u32,
                    shift == small as u32,
                    small < 8,
            ;
        }
        lemma_shift_of_word(f, w);
        let up = n as u32;
        let stepped = crc_shift(now);
        let fed = crc_shift(f ^ dd);
        assert(f ^ w == now) by (bit_vector)
            requires
                f == now ^ w,
        ;
        assert(fed == stepped ^ (b >> up)) by (bit_vector)
            requires
                stepped == fed ^ (w >> 1),
                w == b >> shift,
                up == shift + 1,
                shift < 8,
        ;
        part.push(((f & 1) == 1) != d)
    }
}

proof fn lemma_register_divides(data: Seq<u8>) -> (q: Poly)
    ensures
        divides(bits_of(data), q, crc_register(data)),
    decreases data.len(),
{
    if data.len() == 0 {
        let q = Seq::<bool>::empty();
        let all: u32 = 0xFFFFFFFF;
        assert forall|i: int| 0 <= i < 32 implies reflected(all)[i] by {
            let s = i as u32;
            assert((0xFFFFFFFFu32 >> s) & 1 == 1) by (bit_vector)
                requires
                    s < 32,
            ;
        }
        assert(dividend_of_bits(bits_of(data)) =~= plus(
            times_generator(q),
            zeros(0) + reflected(all),
        ));
        q
    } else {
        let front = data.drop_last();
        let byte = data.last();
        let q = lemma_register_divides(front);
        let r = crc_register(front);
        let longer = lemma_divides_bits(bits_of(front), q, r, byte, 8);
        let after = crc_shifts(r ^ (byte as u32), 8);
        assert((byte as u32) >> 8u32 == 0 && after ^ 0 == after) by (bit_vector);
        assert(bits_of(data) =~= bits_of(front) + low_bits(byte, 8));
        longer
    }
}

/// The checksum of data of any length is the complement of a remainder: that of the
/// data's bits, 32 zeros behind them and the first 32 of all inverted, when they are
/// divided by the generator of the IEEE 802.3 checksum.
pub proof fn law_checksum_is_the_remainder(data: Seq<u8>)
    ensures
        exists|q: Poly|
            q.len() == 8 * data.len() && dividend(data) == plus(
                #[trigger] times_generator(q),
                zeros(8 * data.len()) + reflected(!crc32_of(data)),
            ),
{
    let q = lemma_register_divides(data);
    let r = crc_register(data);
    assert(!(!r) == r) by (bit_vector);
    assert(dividend(data) =~= dividend_of_bits(bits_of(data)));
    assert(dividend(data) == plus(
        times_generator(q),
        zeros(8 * data.len()) + reflected(!crc32_of(data)),
    ));
}

} // verus!
