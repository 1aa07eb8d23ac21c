//! Byte-level primitives shared by the store and the write-ahead log:
//! big-endian 64-bit keys and decimal rendering of integers.

use vstd::prelude::*;

verus! {

/// The big-endian 8-byte encoding of a 64-bit value; document keys and the
/// reserved high-water-mark values in the scalar store use this form.
pub open spec fn be64(v: u64) -> Seq<u8> {
    seq![
        ((v >> 56) & 0xff) as u8,
        ((v >> 48) & 0xff) as u8,
        ((v >> 40) & 0xff) as u8,
        ((v >> 32) & 0xff) as u8,
        ((v >> 24) & 0xff) as u8,
        ((v >> 16) & 0xff) as u8,
        ((v >> 8) & 0xff) as u8,
        (v & 0xff) as u8,
    ]
}

/// The value read back from 8 big-endian bytes.
pub open spec fn be64_val(b: Seq<u8>) -> u64
    recommends
        b.len() == 8,
{
    ((b[0] as u64) << 56) | ((b[1] as u64) << 48) | ((b[2] as u64) << 40) | ((b[3] as u64) << 32)
        | ((b[4] as u64) << 24) | ((b[5] as u64) << 16) | ((b[6] as u64) << 8) | (b[7] as u64)
}

/// Reading back the big-endian encoding of a value yields the value.
pub proof fn lemma_be64_roundtrip(v: u64)
    ensures
        be64_val(be64(v)) == v,
{
    assert((((((v >> 56) & 0xff) as u8) as u64) << 56) | (((((v >> 48) & 0xff) as u8) as u64)
        << 48) | (((((v >> 40) & 0xff) as u8) as u64) << 40) | (((((v >> 32) & 0xff) as u8) as u64)
        << 32) | (((((v >> 24) & 0xff) as u8) as u64) << 24) | (((((v >> 16) & 0xff) as u8) as u64)
        << 16) | (((((v >> 8) & 0xff) as u8) as u64) << 8) | (((v & 0xff) as u8) as u64) == v)
        by (bit_vector);
}

/// Re-encoding the value read from 8 bytes yields those bytes.
pub proof fn lemma_be64_val_roundtrip(b: Seq<u8>)
    requires
        b.len() == 8,
    ensures
        be64(be64_val(b)) =~= b,
{
    let x0 = b[0];
    let x1 = b[1];
    let x2 = b[2];
    let x3 = b[3];
    let x4 = b[4];
    let x5 = b[5];
    let x6 = b[6];
    let x7 = b[7];
    let v = be64_val(b);
    assert((((v >> 56) & 0xff) as u8) == x0 && (((v >> 48) & 0xff) as u8) == x1 && (((v >> 40)
        & 0xff) as u8) == x2 && (((v >> 32) & 0xff) as u8) == x3 && (((v >> 24) & 0xff) as u8)
        == x4 && (((v >> 16) & 0xff) as u8) == x5 && (((v >> 8) & 0xff) as u8) == x6 && ((v
        & 0xff) as u8) == x7) by (bit_vector)
        requires
            v == ((x0 as u64) << 56) | ((x1 as u64) << 48) | ((x2 as u64) << 40) | ((x3 as u64)
                << 32) | ((x4 as u64) << 24) | ((x5 as u64) << 16) | ((x6 as u64) << 8) | (
            x7 as u64),
    ;
}

/// Big-endian encoding is injective: equal encodings come from equal values.
pub proof fn lemma_be64_injective(a: u64, b: u64)
    requires
        be64(a) == be64(b),
    ensures
        a == b,
{
    lemma_be64_roundtrip(a);
    lemma_be64_roundtrip(b);
    assert(be64_val(be64(a)) == be64_val(be64(b)));
}

pub fn u64_to_be_bytes(v: u64) -> (r: Vec<u8>)
    ensures
        r@ =~= be64(v),
{
    let mut r: Vec<u8> = Vec::new();
    r.push(((v >> 56) & 0xff) as u8);
    r.push(((v >> 48) & 0xff) as u8);
    r.push(((v >> 40) & 0xff) as u8);
    r.push(((v >> 32) & 0xff) as u8);
    r.push(((v >> 24) & 0xff) as u8);
    r.push(((v >> 16) & 0xff) as u8);
    r.push(((v >> 8) & 0xff) as u8);
    r.push((v & 0xff) as u8);
    r
}

pub fn u64_from_be_bytes(b: &[u8]) -> (r: u64)
    requires
        b@.len() == 8,
    ensures
        r == be64_val(b@),
{
    ((b[0] as u64) << 56) | ((b[1] as u64) << 48) | ((b[2] as u64) << 40) | ((b[3] as u64) << 32)
        | ((b[4] as u64) << 24) | ((b[5] as u64) << 16) | ((b[6] as u64) << 8) | (b[7] as u64)
}

/// The decimal digits of a natural number, most significant first.
pub open spec fn dec_digits(v: nat) -> Seq<u8>
    decreases v,
{
    if v < 10 {
        seq![(48 + v) as u8]
    } else {
        dec_digits(v / 10) + seq![(48 + v % 10) as u8]
    }
}

/// The decimal rendering of a signed value: a minus sign before the digits of
/// the magnitude when the value is negative.
pub open spec fn dec_signed(v: int) -> Seq<u8> {
    if v >= 0 {
        dec_digits(v as nat)
    } else {
        seq![45u8] + dec_digits((-v) as nat)
    }
}

pub fn u64_to_dec(v: u64) -> (r: Vec<u8>)
    ensures
        r@ =~= dec_digits(v as nat),
    decreases v,
{
    if v < 10 {
        let mut r: Vec<u8> = Vec::new();
        r.push(48 + v as u8);
        r
    } else {
        let mut r = u64_to_dec(v / 10);
        r.push(48 + (v % 10) as u8);
        r
    }
}

pub fn i64_to_dec(v: i64) -> (r: Vec<u8>)
    ensures
        r@ =~= dec_signed(v as int),
{
    if v >= 0 {
        u64_to_dec(v as u64)
    } else {
        let mag: u64 = ((-(v as i128)) as u64);
        assert(mag == -(v as int)) by (bit_vector)
            requires
                v < 0 && mag == ((-(v as i128)) as u64),
        ;
        let mut r: Vec<u8> = Vec::new();
        r.push(45);
        let digits = u64_to_dec(mag);
        let mut i: usize = 0;
        while i < digits.len()
            invariant
                0 <= i <= digits@.len(),
                r@ =~= seq![45u8] + digits@.take(i as int),
            decreases digits@.len() - i,
        {
            r.push(digits[i]);
            i = i + 1;
        }
        assert(digits@.take(digits@.len() as int) =~= digits@);
        r
    }
}

} // verus!
