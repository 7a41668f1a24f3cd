//! Length-framed binary encoding, the engine's on-disk representation.
//!
//! Every variable-length field is written as its byte length in little-endian
//! 64-bit form followed by the bytes themselves; strings are framed as their
//! UTF-8 bytes. The spec-level readers below are total functions of the input
//! bytes, so the executable encoders and decoders can promise exactly what a
//! reload of what was persisted yields.

use vstd::prelude::*;
use vstd::bytes::{
    lemma_auto_spec_u64_to_from_le_bytes, spec_u32_from_le_bytes, spec_u64_from_le_bytes,
    spec_u64_to_le_bytes, u32_from_le_bytes, u64_from_le_bytes, u64_to_le_bytes,
};
use vstd::slice::{slice_subrange, slice_to_vec};
use vstd::utf8::{decode_utf8, encode_utf8, encode_utf8_decode_utf8, valid_utf8};

verus! {

/// A byte string framed by its little-endian 64-bit length.
pub open spec fn spec_frame(b: Seq<u8>) -> Seq<u8> {
    spec_u64_to_le_bytes(b.len() as u64) + b
}

/// A string framed as its UTF-8 bytes.
pub open spec fn spec_frame_str(s: Seq<char>) -> Seq<u8> {
    spec_frame(encode_utf8(s))
}

/// What reading a little-endian 64-bit integer at `pos` yields: absent when
/// fewer than eight bytes remain.
pub open spec fn spec_read_u64(b: Seq<u8>, pos: int) -> Option<u64> {
    if 0 <= pos && pos + 8 <= b.len() {
        Some(spec_u64_from_le_bytes(b.subrange(pos, pos + 8)))
    } else {
        None
    }
}

/// What reading a length-framed byte string at `pos` yields: the framed bytes
/// and the position just past them, or absent when the input is too short.
pub open spec fn spec_read_frame(b: Seq<u8>, pos: int) -> Option<(Seq<u8>, int)> {
    match spec_read_u64(b, pos) {
        Some(n) => if pos + 8 + n <= b.len() {
            Some((b.subrange(pos + 8, pos + 8 + n), pos + 8 + n))
        } else {
            None
        },
        None => None,
    }
}

/// Reading at the start of a frame embedded in a larger buffer yields exactly
/// the framed bytes.
pub proof fn lemma_read_frame_of_frame(b: Seq<u8>, pos: int, data: Seq<u8>)
    requires
        0 <= pos,
        pos + spec_frame(data).len() <= b.len(),
        b.subrange(pos, pos + spec_frame(data).len()) == spec_frame(data),
        data.len() <= u64::MAX,
    ensures
        spec_read_frame(b, pos) == Some((data, pos + spec_frame(data).len())),
{
    lemma_auto_spec_u64_to_from_le_bytes();
    let f = spec_frame(data);
    assert(f.len() == 8 + data.len());
    assert(b.subrange(pos, pos + 8) =~= spec_u64_to_le_bytes(data.len() as u64)) by {
        assert(forall|i: int|
            0 <= i < 8 ==> #[trigger] b.subrange(pos, pos + 8)[i] == b.subrange(
                pos,
                pos + f.len(),
            )[i]);
    }
    assert(spec_read_u64(b, pos) == Some(data.len() as u64));
    assert(b.subrange(pos + 8, pos + 8 + data.len()) =~= data) by {
        assert(forall|i: int|
            0 <= i < data.len() ==> #[trigger] b.subrange(pos + 8, pos + 8 + data.len())[i]
                == b.subrange(pos, pos + f.len())[8 + i]);
    }
}

/// Appends the little-endian 64-bit form of `x` to `out`.
pub fn put_u64(out: &mut Vec<u8>, x: u64)
    ensures
        final(out)@ == old(out)@ + spec_u64_to_le_bytes(x),
{
    let mut bytes = u64_to_le_bytes(x);
    out.append(&mut bytes);
}

/// Appends the length framing of `data` to `out`.
pub fn put_frame(out: &mut Vec<u8>, data: &[u8])
    ensures
        final(out)@ == old(out)@ + spec_frame(data@),
{
    put_u64(out, data.len() as u64);
    let mut copy = slice_to_vec(data);
    out.append(&mut copy);
    proof {
        assert(out@ =~= old(out)@ + spec_frame(data@));
    }
}

/// Reads a little-endian 64-bit integer at `pos`.
pub fn read_u64(b: &Vec<u8>, pos: usize) -> (r: Option<(u64, usize)>)
    ensures
        r matches Some((x, end)) ==> spec_read_u64(b@, pos as int) == Some(x) && end == pos + 8,
        r is None ==> spec_read_u64(b@, pos as int) is None,
{
    if pos <= b.len() && b.len() - pos >= 8 {
        let x = u64_from_le_bytes(slice_subrange(b.as_slice(), pos, pos + 8));
        Some((x, pos + 8))
    } else {
        None
    }
}

/// Reads a length-framed byte string at `pos`, returning the framed bytes and
/// the position just past them.
pub fn read_frame(b: &Vec<u8>, pos: usize) -> (r: Option<(Vec<u8>, usize)>)
    ensures
        r matches Some(p) ==> {
            &&& spec_read_frame(b@, pos as int) == Some((p.0@, p.1 as int))
            &&& p.1 <= b@.len()
            &&& pos <= p.1
        },
        r is None ==> spec_read_frame(b@, pos as int) is None,
{
    match read_u64(b, pos) {
        Some((n, after)) => {
            if n <= (b.len() - after) as u64 {
                let end = after + (n as usize);
                let data = slice_to_vec(slice_subrange(b.as_slice(), after, end));
                Some((data, end))
            } else {
                None
            }
        },
        None => None,
    }
}

/// Relies on std's `String::from_utf8`: it succeeds exactly when the input is
/// valid UTF-8 and then returns the string holding exactly those bytes.
#[verifier::external_body]
fn string_from_utf8(bytes: Vec<u8>) -> (r: Option<String>)
    ensures
        r is Some <==> valid_utf8(bytes@),
        r matches Some(s) ==> encode_utf8(s@) == bytes@,
{
    String::from_utf8(bytes).ok()
}

/// Turns framed bytes back into the string they encode, or absent when they
/// are not valid UTF-8.
pub fn bytes_to_string(bytes: Vec<u8>) -> (r: Option<String>)
    ensures
        r is Some <==> valid_utf8(bytes@),
        r matches Some(s) ==> s@ == decode_utf8(bytes@) && encode_utf8(s@) == bytes@,
{
    let ghost bv = bytes@;
    let r = string_from_utf8(bytes);
    proof {
        if r is Some {
            encode_utf8_decode_utf8(r->Some_0@);
        }
    }
    r
}

/// Reads the little-endian 32-bit size header at the start of a serialized
/// record, as a byte count. Record sizes are non-negative 32-bit values.
pub fn size_from_bytes(buf: Vec<u8>) -> (r: usize)
    requires
        buf@.len() >= 4,
        spec_u32_from_le_bytes(buf@.subrange(0, 4)) < 0x8000_0000,
    ensures
        r == spec_u32_from_le_bytes(buf@.subrange(0, 4)) as usize,
{
    let x = u32_from_le_bytes(slice_subrange(buf.as_slice(), 0, 4));
    x as usize
}

} // verus!
