//! The primitive codec: the 4-byte little-endian "number" unit shared by all
//! layers of the format, and the length-prefixed dynamic byte vector built
//! from it.

use vstd::arithmetic::div_mod::{lemma_fundamental_div_mod, lemma_small_mod};
use vstd::prelude::*;
use vstd::slice::{slice_subrange, slice_to_vec};

use crate::errors::CodecError;

verus! {

/// Size in bytes of the number unit used for every length, count and offset.
pub const NUMBER_SIZE: usize = 4;

/// One past the largest value a number unit can carry.
pub const NUMBER_LIMIT: u64 = 0x1_0000_0000;

/// The value of a 4-byte little-endian number.
pub open spec fn le_number(b: Seq<u8>) -> int
    recommends
        b.len() == 4,
{
    b[0] + 0x100 * (b[1] as int) + 0x1_0000 * (b[2] as int) + 0x100_0000 * (b[3] as int)
}

/// The 4-byte little-endian representation of `n`.
pub open spec fn number_bytes(n: int) -> Seq<u8>
    recommends
        0 <= n < NUMBER_LIMIT,
{
    seq![
        (n % 0x100) as u8,
        ((n / 0x100) % 0x100) as u8,
        ((n / 0x1_0000) % 0x100) as u8,
        ((n / 0x100_0000) % 0x100) as u8,
    ]
}

/// Packing a number and reading it back yields the number again.
pub proof fn lemma_number_round_trip(n: int)
    requires
        0 <= n < NUMBER_LIMIT,
    ensures
        number_bytes(n).len() == 4,
        le_number(number_bytes(n)) == n,
{
    lemma_fundamental_div_mod(n, 0x100);
    lemma_fundamental_div_mod(n / 0x100, 0x100);
    lemma_fundamental_div_mod(n / 0x1_0000, 0x100);
    assert(n / 0x100 / 0x100 == n / 0x1_0000) by (nonlinear_arith)
        requires
            0 <= n,
    ;
    assert(n / 0x1_0000 / 0x100 == n / 0x100_0000) by (nonlinear_arith)
        requires
            0 <= n,
    ;
    assert(n / 0x100_0000 < 0x100) by (nonlinear_arith)
        requires
            0 <= n < 0x1_0000_0000,
    ;
    lemma_small_mod((n / 0x100_0000) as nat, 0x100);
}

/// Reads the number unit stored at byte offset `pos` of `s`.
pub fn read_number(s: &[u8], pos: usize) -> (r: u32)
    requires
        pos + 4 <= s@.len(),
    ensures
        r as int == le_number(s@.subrange(pos as int, pos as int + 4)),
{
    let b0 = s[pos] as u32;
    let b1 = s[pos + 1] as u32;
    let b2 = s[pos + 2] as u32;
    let b3 = s[pos + 3] as u32;
    let r = b0 + 0x100 * b1 + 0x1_0000 * b2 + 0x100_0000 * b3;
    proof {
        let sub = s@.subrange(pos as int, pos as int + 4);
        assert(sub[0] == s@[pos as int]);
        assert(sub[1] == s@[pos as int + 1]);
        assert(sub[2] == s@[pos as int + 2]);
        assert(sub[3] == s@[pos as int + 3]);
    }
    r
}

/// Appends the number unit for `n` to `out`.
pub fn push_number(out: &mut Vec<u8>, n: u32)
    ensures
        final(out)@ == old(out)@ + number_bytes(n as int),
{
    out.push((n % 0x100) as u8);
    out.push(((n / 0x100) % 0x100) as u8);
    out.push(((n / 0x1_0000) % 0x100) as u8);
    out.push(((n / 0x100_0000) % 0x100) as u8);
    assert(out@ =~= old(out)@ + number_bytes(n as int));
}

/// Appends all of `s` to `out`.
pub fn push_slice(out: &mut Vec<u8>, s: &[u8])
    ensures
        final(out)@ == old(out)@ + s@,
{
    let mut tail = slice_to_vec(s);
    out.append(&mut tail);
}

/// The length-prefixed binary form of a dynamic byte vector: a number unit
/// holding the payload length, then the payload.
pub open spec fn encode_byte_vector_spec(payload: Seq<u8>) -> Seq<u8>
    recommends
        payload.len() < NUMBER_LIMIT,
{
    number_bytes(payload.len() as int) + payload
}

/// The result of decoding a dynamic byte vector from the front of `s`:
/// the payload together with the total number of bytes consumed, or the
/// structural error the buffer earns.
pub open spec fn decode_byte_vector_spec(s: Seq<u8>) -> Result<(Seq<u8>, int), CodecError> {
    if s.len() < 4 {
        Err(CodecError::HeaderTooShort)
    } else {
        let n = le_number(s.subrange(0, 4));
        if s.len() < 4 + n {
            Err(CodecError::LengthMismatch)
        } else {
            Ok((s.subrange(4, 4 + n), 4 + n))
        }
    }
}

/// A dynamic byte vector decodes from the front of any buffer that begins
/// with its encoding, returning exactly the payload it was built from.
pub proof fn lemma_byte_vector_round_trip(payload: Seq<u8>, rest: Seq<u8>)
    requires
        payload.len() < NUMBER_LIMIT,
    ensures
        decode_byte_vector_spec(encode_byte_vector_spec(payload) + rest) == Ok::<
            (Seq<u8>, int),
            CodecError,
        >((payload, 4 + payload.len() as int)),
{
    let s = encode_byte_vector_spec(payload) + rest;
    lemma_number_round_trip(payload.len() as int);
    assert(s.subrange(0, 4) =~= number_bytes(payload.len() as int));
    assert(s.subrange(4, 4 + payload.len() as int) =~= payload);
}

/// Encodes `bytes` as a length-prefixed dynamic byte vector.
pub fn encode_length_prefixed(bytes: &[u8]) -> (r: Vec<u8>)
    requires
        bytes@.len() < NUMBER_LIMIT,
    ensures
        r@ == encode_byte_vector_spec(bytes@),
{
    let mut out: Vec<u8> = Vec::new();
    push_number(&mut out, bytes.len() as u32);
    push_slice(&mut out, bytes);
    out
}

/// Decodes a length-prefixed dynamic byte vector from the front of `slice`,
/// returning the payload and the number of bytes consumed.
pub fn decode_length_prefixed(slice: &[u8]) -> (r: Result<(Vec<u8>, usize), CodecError>)
    ensures
        r matches Ok(p) ==> decode_byte_vector_spec(slice@) == Ok::<(Seq<u8>, int), CodecError>(
            (p.0@, p.1 as int),
        ),
        r matches Err(e) ==> decode_byte_vector_spec(slice@) == Err::<(Seq<u8>, int), CodecError>(
            e,
        ),
{
    let total = slice.len();
    if total < NUMBER_SIZE {
        return Err(CodecError::HeaderTooShort);
    }
    let len32 = read_number(slice, 0);
    if (total as u64) < 4u64 + (len32 as u64) {
        return Err(CodecError::LengthMismatch);
    }
    let len = len32 as usize;
    let payload = slice_to_vec(slice_subrange(slice, 4, 4 + len));
    Ok((payload, 4 + len))
}

} // verus!
