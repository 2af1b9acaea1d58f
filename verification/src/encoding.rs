//! Little-endian numbers inside byte strings.

use vstd::arithmetic::power::{lemma_pow0, lemma_pow_positive, pow};
use vstd::prelude::*;

verus! {

/// How many numbers fit in `width` bytes.
pub open spec fn capacity(width: nat) -> nat
    decreases width,
{
    if width == 0 {
        1
    } else {
        256 * capacity((width - 1) as nat)
    }
}

/// The `width` low bytes of `n`, least significant first.
pub open spec fn le_bytes(n: nat, width: nat) -> Seq<u8>
    decreases width,
{
    if width == 0 {
        Seq::empty()
    } else {
        seq![(n % 256) as u8] + le_bytes(n / 256, (width - 1) as nat)
    }
}

/// The number whose bytes, least significant first, are `s`.
pub open spec fn le_value(s: Seq<u8>) -> nat
    decreases s.len(),
{
    if s.len() == 0 {
        0
    } else {
        s[0] as nat + 256 * le_value(s.skip(1))
    }
}

/// The four-byte field that holds a length: the length modulo 2^32.
pub open spec fn len_field(n: nat) -> Seq<u8> {
    le_bytes(n, 4)
}

/// The number in the four bytes at `at`.
pub open spec fn len_at(bytes: Seq<u8>, at: int) -> int {
    le_value(bytes.subrange(at, at + 4)) as int
}

/// A length that its four-byte field holds exactly.
pub open spec fn fits_len(s: Seq<u8>) -> bool {
    s.len() < 0x1_0000_0000
}

pub proof fn lemma_capacity()
    ensures
        capacity(4) == 0x1_0000_0000,
        capacity(8) == 0x1_0000_0000_0000_0000,
{
    reveal_with_fuel(capacity, 9);
}

pub proof fn lemma_le_bytes_len(n: nat, width: nat)
    ensures
        le_bytes(n, width).len() == width,
    decreases width,
{
    if width > 0 {
        lemma_le_bytes_len(n / 256, (width - 1) as nat);
    }
}

/// Reading what was written gives the number modulo the field's capacity.
pub proof fn lemma_le_value_of_bytes(n: nat, width: nat)
    ensures
        n < capacity(width) ==> le_value(le_bytes(n, width)) == n,
    decreases width,
{
    if width > 0 {
        let rest = le_bytes(n / 256, (width - 1) as nat);
        lemma_le_value_of_bytes(n / 256, (width - 1) as nat);
        assert(le_bytes(n, width).skip(1) =~= rest);
        if n < capacity(width) {
            assert(n / 256 < capacity((width - 1) as nat));
        }
    }
}

/// A field of `s.len()` bytes holds a number below its capacity.
pub proof fn lemma_le_value_bound(s: Seq<u8>)
    ensures
        le_value(s) < capacity(s.len()),
    decreases s.len(),
{
    if s.len() > 0 {
        lemma_le_value_bound(s.skip(1));
    }
}

/// A number's bytes are determined by the number.
pub proof fn lemma_le_bytes_of_value(s: Seq<u8>)
    ensures
        le_bytes(le_value(s), s.len()) == s,
    decreases s.len(),
{
    if s.len() > 0 {
        lemma_le_bytes_of_value(s.skip(1));
        let n = le_value(s);
        assert(n % 256 == s[0] as nat);
        assert(n / 256 == le_value(s.skip(1)));
        assert(le_bytes(n, s.len()) =~= s);
    } else {
        assert(le_bytes(le_value(s), s.len()) =~= s);
    }
}

/// A length field is read as the length it was written for.
pub proof fn lemma_len_field_read(code: Seq<u8>, at: int, n: nat)
    requires
        n < 0x1_0000_0000,
        0 <= at,
        at + 4 <= code.len(),
        code.subrange(at, at + 4) == le_bytes(n, 4),
    ensures
        len_at(code, at) == n,
{
    lemma_capacity();
    lemma_le_value_of_bytes(n, 4);
}

/// Appends the `width` low bytes of `n`.
pub fn put_le(out: &mut Vec<u8>, n: u64, width: usize)
    ensures
        final(out)@ == old(out)@ + le_bytes(n as nat, width as nat),
{
    let ghost start = out@;
    let mut rest: u64 = n;
    let mut i: usize = 0;
    assert(out@ + le_bytes(rest as nat, width as nat) =~= start + le_bytes(n as nat, width as nat));
    while i < width
        invariant
            0 <= i <= width,
            out@ + le_bytes(rest as nat, (width - i) as nat) == start + le_bytes(
                n as nat,
                width as nat,
            ),
        decreases width - i,
    {
        let ghost before = out@;
        let ghost tail = le_bytes((rest / 256) as nat, (width - i - 1) as nat);
        out.push((rest % 256) as u8);
        assert(out@ + tail =~= before + (seq![(rest % 256) as u8] + tail));
        rest = rest / 256;
        i = i + 1;
    }
    assert(out@ + le_bytes(rest as nat, 0) =~= out@);
}

/// Reads the `width`-byte number that starts at `at`.
pub fn get_le(bytes: &[u8], at: usize, width: usize) -> (n: u64)
    requires
        at + width <= bytes@.len(),
        width <= 8,
    ensures
        n as nat == le_value(bytes@.subrange(at as int, at + width)),
{
    let mut n: u64 = 0;
    let mut i: usize = width;
    let ghost field = bytes@.subrange(at as int, at + width);
    assert(field.skip(width as int) =~= Seq::<u8>::empty());
    while i > 0
        invariant
            0 <= i <= width,
            width <= 8,
            at + width <= bytes.len(),
            field == bytes@.subrange(at as int, at + width),
            n as nat == le_value(field.skip(i as int)),
        decreases i,
    {
        i = i - 1;
        proof {
            assert(field.skip(i as int).skip(1) =~= field.skip(i + 1));
            lemma_le_value_bound(field.skip(i as int));
            reveal_with_fuel(capacity, 9);
            lemma_le_value_bound(field.skip(i + 1));
        }
        n = bytes[at + i] as u64 + 256 * n;
    }
    assert(field.skip(0) =~= field);
    n
}

/// Appends a length as its four-byte field.
pub fn put_len(out: &mut Vec<u8>, len: usize)
    ensures
        final(out)@ == old(out)@ + len_field(len as nat),
{
    put_le(out, len as u64, 4);
}

/// Appends every byte of `bytes`.
pub fn put_bytes(out: &mut Vec<u8>, bytes: &[u8])
    ensures
        final(out)@ == old(out)@ + bytes@,
{
    let ghost before = out@;
    out.extend_from_slice(bytes);
    assert(out@ =~= before + bytes@);
}

/// An owned copy of the bytes in `[from, to)`.
pub fn copy_range(bytes: &[u8], from: usize, to: usize) -> (copy: Vec<u8>)
    requires
        from <= to <= bytes@.len(),
    ensures
        copy@ == bytes@.subrange(from as int, to as int),
{
    let mut copy: Vec<u8> = Vec::new();
    put_bytes(&mut copy, vstd::slice::slice_subrange(bytes, from, to));
    assert(copy@ =~= bytes@.subrange(from as int, to as int));
    copy
}

/// The value of a byte string is that of its bytes as the digits of a number to the
/// base 256, the least significant first.
pub proof fn law_value_is_positional(s: Seq<u8>, t: Seq<u8>, byte: u8)
    ensures
        le_value(Seq::empty()) == 0,
        le_value(seq![byte]) == byte,
        le_value(s + t) == le_value(s) + pow(256, s.len()) * le_value(t),
    decreases s.len(),
{
    assert(seq![byte].skip(1) =~= Seq::<u8>::empty());
    assert(le_value(Seq::<u8>::empty()) == 0);
    lemma_pow0(256);
    if s.len() == 0 {
        assert(s + t =~= t);
    } else {
        let rest = s.skip(1);
        law_value_is_positional(rest, t, byte);
        assert((s + t).skip(1) =~= rest + t);
        reveal(pow);
        let p = pow(256, rest.len());
        let v = le_value(t) as int;
        assert(pow(256, s.len()) == 256 * p);
        assert(256 * (p * v) == (256 * p) * v) by (nonlinear_arith);
    }
}

/// The bytes of a number are its digits to the base 256, the least significant first;
/// read again they give the number as far as it fits.
pub proof fn law_bytes_are_digits(n: nat, width: nat)
    ensures
        le_bytes(n, width).len() == width,
        forall|i: int|
            0 <= i < width ==> (#[trigger] le_bytes(n, width)[i]) == (n as int / pow(
                256,
                i as nat,
            )) % 256,
        le_value(le_bytes(n, width)) == n as int % pow(256, width),
    decreases width,
{
    lemma_le_bytes_len(n, width);
    lemma_pow0(256);
    if width > 0 {
        let less = (width - 1) as nat;
        let rest = le_bytes(n / 256, less);
        law_bytes_are_digits(n / 256, less);
        assert(le_bytes(n, width).skip(1) =~= rest);
        assert forall|i: int| 0 <= i < width implies (#[trigger] le_bytes(n, width)[i]) == (n as int
            / pow(256, i as nat)) % 256 by {
            if i > 0 {
                assert(le_bytes(n, width)[i] == rest[i - 1]);
                let p = pow(256, (i - 1) as nat);
                reveal(pow);
                assert(pow(256, i as nat) == 256 * p);
                lemma_pow_positive(256, (i - 1) as nat);
                vstd::arithmetic::div_mod::lemma_div_denominator(n as int, 256, p);
            }
        }
        let p = pow(256, less);
        reveal(pow);
        assert(pow(256, width) == 256 * p);
        lemma_pow_positive(256, less);
        vstd::arithmetic::div_mod::lemma_mod_breakdown(n as int, 256, p);
    }
}

/// Every length below 2^32 fits its field, and a field at a position is read as the
/// value of its four bytes.
pub proof fn law_lengths_below_four_bytes_fit(s: Seq<u8>, bytes: Seq<u8>, at: int)
    ensures
        fits_len(s) <==> s.len() < 0x1_0000_0000,
        len_at(bytes, at) == le_value(bytes.subrange(at, at + 4)),
{
}

} // verus!
