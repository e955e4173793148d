//! Fixed-width integer fields of the wire format, least significant byte first.

use vstd::prelude::*;

verus! {

/// The two bytes of a 16-bit field.
pub open spec fn le2(v: u16) -> Seq<u8> {
    seq![(v % 0x100) as u8, (v / 0x100) as u8]
}

/// The value of a 16-bit field.
pub open spec fn val2(b: Seq<u8>) -> int {
    b[0] + b[1] * 0x100
}

/// The eight bytes of a 64-bit field: each byte is what is left of the value
/// after the bytes before it were taken off.
pub open spec fn le8(v: u64) -> Seq<u8> {
    let q1 = v / 0x100;
    let q2 = q1 / 0x100;
    let q3 = q2 / 0x100;
    let q4 = q3 / 0x100;
    let q5 = q4 / 0x100;
    let q6 = q5 / 0x100;
    let q7 = q6 / 0x100;
    seq![
        (v % 0x100) as u8,
        (q1 % 0x100) as u8,
        (q2 % 0x100) as u8,
        (q3 % 0x100) as u8,
        (q4 % 0x100) as u8,
        (q5 % 0x100) as u8,
        (q6 % 0x100) as u8,
        q7 as u8,
    ]
}

/// The value of a 64-bit field.
pub open spec fn val8(b: Seq<u8>) -> int {
    b[0] + b[1] * 0x100 + b[2] * 0x1_0000 + b[3] * 0x100_0000 + b[4] * 0x1_0000_0000 + b[5]
        * 0x100_0000_0000 + b[6] * 0x1_0000_0000_0000 + b[7] * 0x100_0000_0000_0000
}

/// The byte of a signed 8-bit field, in two's complement.
pub open spec fn byte_of_i8(v: i8) -> u8 {
    if v < 0 {
        (v + 0x100) as u8
    } else {
        v as u8
    }
}

/// The value of a signed 8-bit field.
pub open spec fn i8_of_byte(b: u8) -> i8 {
    if b >= 0x80 {
        (b - 0x100) as i8
    } else {
        b as i8
    }
}

/// The unsigned image of a signed 64-bit field, in two's complement.
pub open spec fn word_of_i64(v: i64) -> u64 {
    if v < 0 {
        (v + 0x1_0000_0000_0000_0000) as u64
    } else {
        v as u64
    }
}

/// The value of a signed 64-bit field.
pub open spec fn i64_of_word(w: u64) -> i64 {
    if w >= 0x8000_0000_0000_0000 {
        (w - 0x1_0000_0000_0000_0000) as i64
    } else {
        w as i64
    }
}

/// `n` bytes of padding.
pub open spec fn zeros(n: nat) -> Seq<u8> {
    Seq::new(n, |i: int| 0u8)
}

/// Reading a 16-bit field gives back what was written.
pub proof fn lemma_val2_le2(v: u16)
    ensures
        le2(v).len() == 2,
        val2(le2(v)) == v,
{
}

/// Reading a 64-bit field gives back what was written.
pub proof fn lemma_val8_le8(v: u64)
    ensures
        le8(v).len() == 8,
        val8(le8(v)) == v,
{
    let q1 = v / 0x100;
    let q2 = q1 / 0x100;
    let q3 = q2 / 0x100;
    let q4 = q3 / 0x100;
    let q5 = q4 / 0x100;
    let q6 = q5 / 0x100;
    let q7 = q6 / 0x100;
    assert(v == v % 0x100 + 0x100 * q1);
    assert(q1 == q1 % 0x100 + 0x100 * q2);
    assert(q2 == q2 % 0x100 + 0x100 * q3);
    assert(q3 == q3 % 0x100 + 0x100 * q4);
    assert(q4 == q4 % 0x100 + 0x100 * q5);
    assert(q5 == q5 % 0x100 + 0x100 * q6);
    assert(q6 == q6 % 0x100 + 0x100 * q7);
    assert(q7 < 0x100);
    let b = le8(v);
    assert(b[0] == v % 0x100);
    assert(b[1] == q1 % 0x100);
    assert(b[2] == q2 % 0x100);
    assert(b[3] == q3 % 0x100);
    assert(b[4] == q4 % 0x100);
    assert(b[5] == q5 % 0x100);
    assert(b[6] == q6 % 0x100);
    assert(b[7] == q7);
}

/// Reading a signed field gives back what was written.
pub proof fn lemma_signed_round_trip(p: i8, d: i64)
    ensures
        i8_of_byte(byte_of_i8(p)) == p,
        i64_of_word(word_of_i64(d)) == d,
{
}

/// Appends the two bytes of `v`.
pub fn put_u16(out: &mut Vec<u8>, v: u16)
    ensures
        final(out)@ == old(out)@ + le2(v),
{
    out.push((v % 0x100) as u8);
    out.push((v / 0x100) as u8);
    assert(out@ =~= old(out)@ + le2(v));
}

/// Appends the eight bytes of `v`.
pub fn put_u64(out: &mut Vec<u8>, v: u64)
    ensures
        final(out)@ == old(out)@ + le8(v),
{
    let q1: u64 = v / 0x100;
    let q2: u64 = q1 / 0x100;
    let q3: u64 = q2 / 0x100;
    let q4: u64 = q3 / 0x100;
    let q5: u64 = q4 / 0x100;
    let q6: u64 = q5 / 0x100;
    let q7: u64 = q6 / 0x100;
    out.push((v % 0x100) as u8);
    out.push((q1 % 0x100) as u8);
    out.push((q2 % 0x100) as u8);
    out.push((q3 % 0x100) as u8);
    out.push((q4 % 0x100) as u8);
    out.push((q5 % 0x100) as u8);
    out.push((q6 % 0x100) as u8);
    out.push(q7 as u8);
    assert(out@ =~= old(out)@ + le8(v));
}

/// Appends the byte of `v`.
pub fn put_i8(out: &mut Vec<u8>, v: i8)
    ensures
        final(out)@ == old(out)@.push(byte_of_i8(v)),
{
    let b: u8 = if v < 0 {
        (v as i16 + 0x100) as u8
    } else {
        v as u8
    };
    out.push(b);
}

/// Appends the eight bytes of `v`.
pub fn put_i64(out: &mut Vec<u8>, v: i64)
    ensures
        final(out)@ == old(out)@ + le8(word_of_i64(v)),
{
    let w: u64 = if v < 0 {
        (v as i128 + 0x1_0000_0000_0000_0000) as u64
    } else {
        v as u64
    };
    put_u64(out, w);
}

/// Appends `n` bytes of padding.
pub fn put_zeros(out: &mut Vec<u8>, n: usize)
    ensures
        final(out)@ == old(out)@ + zeros(n as nat),
{
    let mut i: usize = 0;
    while i < n
        invariant
            i <= n,
            out@ == old(out)@ + zeros(i as nat),
        decreases n - i,
    {
        out.push(0);
        i = i + 1;
        assert(out@ =~= old(out)@ + zeros(i as nat));
    }
}

/// Reads the 16-bit field that starts at `at`.
pub fn get_u16(bytes: &[u8], at: usize) -> (v: u16)
    requires
        at + 2 <= bytes@.len(),
    ensures
        v == val2(bytes@.subrange(at as int, at + 2)),
{
    let b0 = bytes[at] as u16;
    let b1 = bytes[at + 1] as u16;
    b0 + b1 * 0x100
}

/// Reads the 64-bit field that starts at `at`.
pub fn get_u64(bytes: &[u8], at: usize) -> (v: u64)
    requires
        at + 8 <= bytes@.len(),
    ensures
        v == val8(bytes@.subrange(at as int, at + 8)),
{
    let b0 = bytes[at] as u64;
    let b1 = bytes[at + 1] as u64;
    let b2 = bytes[at + 2] as u64;
    let b3 = bytes[at + 3] as u64;
    let b4 = bytes[at + 4] as u64;
    let b5 = bytes[at + 5] as u64;
    let b6 = bytes[at + 6] as u64;
    let b7 = bytes[at + 7] as u64;
    b0 + b1 * 0x100 + b2 * 0x1_0000 + b3 * 0x100_0000 + b4 * 0x1_0000_0000 + b5 * 0x100_0000_0000
        + b6 * 0x1_0000_0000_0000 + b7 * 0x100_0000_0000_0000
}

/// Reads the signed 8-bit field at `at`.
pub fn get_i8(bytes: &[u8], at: usize) -> (v: i8)
    requires
        at < bytes@.len(),
    ensures
        v == i8_of_byte(bytes@[at as int]),
{
    let b = bytes[at];
    if b >= 0x80 {
        (b as i16 - 0x100) as i8
    } else {
        b as i8
    }
}

/// Reads the signed 64-bit field that starts at `at`.
pub fn get_i64(bytes: &[u8], at: usize) -> (v: i64)
    requires
        at + 8 <= bytes@.len(),
    ensures
        v == i64_of_word(val8(bytes@.subrange(at as int, at + 8)) as u64),
{
    let w = get_u64(bytes, at);
    if w >= 0x8000_0000_0000_0000 {
        (w as i128 - 0x1_0000_0000_0000_0000) as i64
    } else {
        w as i64
    }
}

} // verus!
