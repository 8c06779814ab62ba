//! Little-endian primitives over a byte buffer and a read cursor.
use vstd::prelude::*;
use vstd::utf8::{encode_utf8, valid_utf8, decode_utf8};
use crate::error::SchematicError;

verus! {

/// The two bytes of `u`, low byte first.
pub open spec fn le16(u: u16) -> Seq<u8> {
    seq![(u & 0xff) as u8, ((u >> 8) & 0xff) as u8]
}

/// The four bytes of `u`, low byte first.
pub open spec fn le32(u: u32) -> Seq<u8> {
    seq![(u & 0xff) as u8, ((u >> 8) & 0xff) as u8, ((u >> 16) & 0xff) as u8, ((u >> 24) & 0xff) as u8]
}

/// The eight bytes of `u`, low byte first.
pub open spec fn le64(u: u64) -> Seq<u8> {
    le32((u & 0xffff_ffff) as u32) + le32((u >> 32) as u32)
}

/// A string as stored: its UTF-8 length as a little-endian 16-bit count,
/// then its UTF-8 bytes.
pub open spec fn string_bytes(s: Seq<char>) -> Seq<u8> {
    le16(encode_utf8(s).len() as u16) + encode_utf8(s)
}

/// `bytes` holds a complete stored string at `pos`.
pub open spec fn string_at(bytes: Seq<u8>, pos: int, s: Seq<char>) -> bool {
    &&& encode_utf8(s).len() <= 0x7fff
    &&& 0 <= pos
    &&& pos + string_bytes(s).len() <= bytes.len()
    &&& bytes.subrange(pos, pos + string_bytes(s).len()) == string_bytes(s)
}

/// Relies on `String::from_utf8`: `Ok` exactly for valid UTF-8, holding the
/// characters that the bytes encode.
#[verifier::external_body]
pub(crate) fn string_from_utf8(bytes: Vec<u8>) -> (r: Option<String>)
    ensures
        r is Some <==> valid_utf8(bytes@),
        r is Some ==> r.unwrap()@ == decode_utf8(bytes@),
{
    String::from_utf8(bytes).ok()
}

proof fn lemma_le16_of(b0: u8, b1: u8)
    by (bit_vector)
    ensures
        ((((b0 as u16) | ((b1 as u16) << 8)) & 0xff) as u8) == b0,
        (((((b0 as u16) | ((b1 as u16) << 8)) >> 8) & 0xff) as u8) == b1,
        (((b0 as u16) | ((b1 as u16) << 8)) as i16) as u16 == ((b0 as u16) | ((b1 as u16) << 8)),
{
}

proof fn lemma_le32_of(b0: u8, b1: u8, b2: u8, b3: u8)
    by (bit_vector)
    ensures
        ((((b0 as u32) | ((b1 as u32) << 8) | ((b2 as u32) << 16) | ((b3 as u32) << 24)) & 0xff) as u8) == b0,
        (((((b0 as u32) | ((b1 as u32) << 8) | ((b2 as u32) << 16) | ((b3 as u32) << 24)) >> 8) & 0xff) as u8) == b1,
        (((((b0 as u32) | ((b1 as u32) << 8) | ((b2 as u32) << 16) | ((b3 as u32) << 24)) >> 16) & 0xff) as u8) == b2,
        (((((b0 as u32) | ((b1 as u32) << 8) | ((b2 as u32) << 16) | ((b3 as u32) << 24)) >> 24) & 0xff) as u8) == b3,
        (((b0 as u32) | ((b1 as u32) << 8) | ((b2 as u32) << 16) | ((b3 as u32) << 24)) as i32) as u32
            == ((b0 as u32) | ((b1 as u32) << 8) | ((b2 as u32) << 16) | ((b3 as u32) << 24)),
{
}

proof fn lemma_le64_of(lo: u32, hi: u32)
    by (bit_vector)
    ensures
        ((((lo as u64) | ((hi as u64) << 32)) & 0xffff_ffff) as u32) == lo,
        ((((lo as u64) | ((hi as u64) << 32)) >> 32) as u32) == hi,
        (((lo as u64) | ((hi as u64) << 32)) as i64) as u64 == ((lo as u64) | ((hi as u64) << 32)),
{
}

/// Takes the next `n` bytes.
pub fn read_exact(data: &[u8], pos: &mut usize, n: usize) -> (r: Result<Vec<u8>, SchematicError>)
    ensures
        match r {
            Ok(b) => *old(pos) + n <= data.len() && *final(pos) == *old(pos) + n
                && b@ == data@.subrange(*old(pos) as int, *old(pos) + n),
            Err(e) => *old(pos) + n > data.len() && *final(pos) == *old(pos) && e == SchematicError::Format,
        },
{
    if n > data.len() || *pos > data.len() - n {
        return Err(SchematicError::Format);
    }
    let start = *pos;
    let mut out: Vec<u8> = Vec::new();
    let mut i: usize = 0;
    while i < n
        invariant
            start + n <= data.len(),
            i <= n,
            out@ == data@.subrange(start as int, start + i),
        decreases n - i,
    {
        out.push(data[start + i]);
        proof {
            assert(out@ =~= data@.subrange(start as int, start + i + 1));
        }
        i = i + 1;
    }
    *pos = start + n;
    Ok(out)
}

/// Takes the next byte.
pub fn read_u8(data: &[u8], pos: &mut usize) -> (r: Result<u8, SchematicError>)
    ensures
        match r {
            Ok(b) => *old(pos) < data.len() && *final(pos) == *old(pos) + 1 && b == data@[*old(pos) as int],
            Err(e) => *old(pos) >= data.len() && *final(pos) == *old(pos) && e == SchematicError::Format,
        },
{
    if *pos >= data.len() {
        return Err(SchematicError::Format);
    }
    let b = data[*pos];
    *pos = *pos + 1;
    Ok(b)
}

/// Takes the next byte as a signed byte.
pub fn read_i8(data: &[u8], pos: &mut usize) -> (r: Result<i8, SchematicError>)
    ensures
        match r {
            Ok(b) => *old(pos) < data.len() && *final(pos) == *old(pos) + 1 && b as u8 == data@[*old(pos) as int],
            Err(e) => *old(pos) >= data.len() && *final(pos) == *old(pos) && e == SchematicError::Format,
        },
{
    let b = read_u8(data, pos)?;
    proof {
        assert((b as i8) as u8 == b) by (bit_vector);
    }
    Ok(b as i8)
}

/// Takes the next two bytes as a little-endian `i16`.
pub fn read_i16_le(data: &[u8], pos: &mut usize) -> (r: Result<i16, SchematicError>)
    ensures
        match r {
            Ok(x) => *old(pos) + 2 <= data.len() && *final(pos) == *old(pos) + 2
                && le16(x as u16) == data@.subrange(*old(pos) as int, *old(pos) + 2),
            Err(e) => *old(pos) + 2 > data.len() && *final(pos) == *old(pos) && e == SchematicError::Format,
        },
{
    if data.len() < 2 || *pos > data.len() - 2 {
        return Err(SchematicError::Format);
    }
    let p = *pos;
    let b0 = data[p];
    let b1 = data[p + 1];
    let u: u16 = (b0 as u16) | ((b1 as u16) << 8);
    proof {
        lemma_le16_of(b0, b1);
        assert(le16((u as i16) as u16) =~= data@.subrange(p as int, p + 2));
    }
    *pos = p + 2;
    Ok(u as i16)
}

/// Takes the next four bytes as a little-endian `i32`.
pub fn read_i32_le(data: &[u8], pos: &mut usize) -> (r: Result<i32, SchematicError>)
    ensures
        match r {
            Ok(x) => *old(pos) + 4 <= data.len() && *final(pos) == *old(pos) + 4
                && le32(x as u32) == data@.subrange(*old(pos) as int, *old(pos) + 4),
            Err(e) => *old(pos) + 4 > data.len() && *final(pos) == *old(pos) && e == SchematicError::Format,
        },
{
    if data.len() < 4 || *pos > data.len() - 4 {
        return Err(SchematicError::Format);
    }
    let p = *pos;
    let b0 = data[p];
    let b1 = data[p + 1];
    let b2 = data[p + 2];
    let b3 = data[p + 3];
    let u: u32 = (b0 as u32) | ((b1 as u32) << 8) | ((b2 as u32) << 16) | ((b3 as u32) << 24);
    proof {
        lemma_le32_of(b0, b1, b2, b3);
        assert(le32((u as i32) as u32) =~= data@.subrange(p as int, p + 4));
    }
    *pos = p + 4;
    Ok(u as i32)
}

/// Takes the next eight bytes as a little-endian `i64`.
pub fn read_i64_le(data: &[u8], pos: &mut usize) -> (r: Result<i64, SchematicError>)
    ensures
        match r {
            Ok(x) => *old(pos) + 8 <= data.len() && *final(pos) == *old(pos) + 8
                && le64(x as u64) == data@.subrange(*old(pos) as int, *old(pos) + 8),
            Err(e) => *old(pos) + 8 > data.len() && *final(pos) == *old(pos) && e == SchematicError::Format,
        },
{
    if data.len() < 8 || *pos > data.len() - 8 {
        return Err(SchematicError::Format);
    }
    let p = *pos;
    let mut q = p;
    let lo = read_i32_le(data, &mut q)?;
    let hi = read_i32_le(data, &mut q)?;
    let u: u64 = ((lo as u32) as u64) | (((hi as u32) as u64) << 32);
    proof {
        lemma_le64_of(lo as u32, hi as u32);
        assert(le64((u as i64) as u64) =~= data@.subrange(p as int, p + 8));
    }
    *pos = p + 8;
    Ok(u as i64)
}

/// Takes a stored string (see `string_bytes`); a negative length, a short
/// buffer or bytes that are not UTF-8 are format errors.
pub fn read_string_le(data: &[u8], pos: &mut usize) -> (r: Result<String, SchematicError>)
    ensures
        match r {
            Ok(s) => string_at(data@, *old(pos) as int, s@)
                && *final(pos) == *old(pos) + string_bytes(s@).len()
                && forall|t: Seq<char>| #[trigger] string_at(data@, *old(pos) as int, t) ==> string_bytes(t) == string_bytes(s@),
            Err(e) => e == SchematicError::Format
                && forall|s: Seq<char>| !#[trigger] string_at(data@, *old(pos) as int, s),
        },
{
    let start = *pos;
    let mut q = start;
    let ln = match read_i16_le(data, &mut q) {
        Ok(x) => x,
        Err(e) => {
            proof {
                assert forall|s: Seq<char>| !#[trigger] string_at(data@, start as int, s) by {}
            }
            return Err(e);
        }
    };
    if ln < 0 {
        proof {
            assert forall|s: Seq<char>| !#[trigger] string_at(data@, start as int, s) by {
                if string_at(data@, start as int, s) {
                    let n = encode_utf8(s).len() as u16;
                    assert(data@.subrange(start as int, start + 2) == le16(n)) by {
                        assert(data@.subrange(start as int, start + 2) =~= string_bytes(s).subrange(0, 2));
                        assert(string_bytes(s).subrange(0, 2) =~= le16(n));
                    }
                    assert(n <= 0x7fff ==> ((n & 0xff) as u8 == (ln as u16 & 0xff) as u8 && ((n >> 8) & 0xff) as u8 == ((ln as u16 >> 8) & 0xff) as u8) ==> (ln as u16) == n) by (bit_vector);
                    assert((ln as u16) <= 0x7fff ==> ln >= 0) by (bit_vector);
                }
            }
        }
        return Err(SchematicError::Format);
    }
    let n = ln as usize;
    let mut q2 = q;
    let bytes = match read_exact(data, &mut q2, n) {
        Ok(b) => b,
        Err(e) => {
            proof {
                assert forall|s: Seq<char>| !#[trigger] string_at(data@, start as int, s) by {
                    if string_at(data@, start as int, s) {
                        let m = encode_utf8(s).len() as u16;
                        assert(data@.subrange(start as int, start + 2) =~= string_bytes(s).subrange(0, 2));
                        assert(string_bytes(s).subrange(0, 2) =~= le16(m));
                        assert(((m & 0xff) as u8 == (ln as u16 & 0xff) as u8 && ((m >> 8) & 0xff) as u8 == ((ln as u16 >> 8) & 0xff) as u8) ==> (ln as u16) == m) by (bit_vector);
                        assert(ln >= 0 ==> (ln as u16) as int == ln as int) by (bit_vector);
                    }
                }
            }
            return Err(e);
        }
    };
    let ghost raw = bytes@;
    match string_from_utf8(bytes) {
        Some(s) => {
            proof {
                vstd::utf8::decode_utf8_encode_utf8(raw);
                assert((ln as u16) as int == ln as int) by (bit_vector)
                    requires
                        ln >= 0,
                ;
                assert(string_bytes(s@) =~= data@.subrange(start as int, start + 2 + n));
                assert forall|t: Seq<char>| #[trigger] string_at(data@, start as int, t) implies string_bytes(t) == string_bytes(s@) by {
                    let m = encode_utf8(t).len() as u16;
                    assert(data@.subrange(start as int, start + 2) =~= string_bytes(t).subrange(0, 2));
                    assert(string_bytes(t).subrange(0, 2) =~= le16(m));
                    assert(((m & 0xff) as u8 == (ln as u16 & 0xff) as u8 && ((m >> 8) & 0xff) as u8 == ((ln as u16 >> 8) & 0xff) as u8) ==> (ln as u16) == m) by (bit_vector);
                    assert(string_bytes(t).len() == string_bytes(s@).len());
                }
            }
            *pos = q2;
            Ok(s)
        }
        None => {
            proof {
                assert forall|s: Seq<char>| !#[trigger] string_at(data@, start as int, s) by {
                    if string_at(data@, start as int, s) {
                        let m = encode_utf8(s).len() as u16;
                        assert(data@.subrange(start as int, start + 2) =~= string_bytes(s).subrange(0, 2));
                        assert(string_bytes(s).subrange(0, 2) =~= le16(m));
                        assert(((m & 0xff) as u8 == (ln as u16 & 0xff) as u8 && ((m >> 8) & 0xff) as u8 == ((ln as u16 >> 8) & 0xff) as u8) ==> (ln as u16) == m) by (bit_vector);
                        assert(ln >= 0 ==> (ln as u16) as int == ln as int) by (bit_vector);
                        assert(raw =~= string_bytes(s).subrange(2, 2 + n));
                        assert(string_bytes(s).subrange(2, 2 + n) =~= encode_utf8(s));
                        vstd::utf8::encode_utf8_valid_utf8(s);
                    }
                }
            }
            Err(SchematicError::Format)
        }
    }
}

/// Appends one byte.
pub fn write_u8(out: &mut Vec<u8>, v: u8)
    ensures
        final(out)@ == old(out)@.push(v),
{
    out.push(v);
}

/// Appends one signed byte.
pub fn write_i8(out: &mut Vec<u8>, v: i8)
    ensures
        final(out)@ == old(out)@.push(v as u8),
{
    out.push(v as u8);
}

/// Appends a little-endian `i16`.
pub fn write_i16_le(out: &mut Vec<u8>, v: i16)
    ensures
        final(out)@ == old(out)@ + le16(v as u16),
{
    let u = v as u16;
    out.push((u & 0xff) as u8);
    out.push(((u >> 8) & 0xff) as u8);
    proof {
        assert(out@ =~= old(out)@ + le16(v as u16));
    }
}

/// Appends a little-endian `u32`.
fn write_u32_le(out: &mut Vec<u8>, u: u32)
    ensures
        final(out)@ == old(out)@ + le32(u),
{
    out.push((u & 0xff) as u8);
    out.push(((u >> 8) & 0xff) as u8);
    out.push(((u >> 16) & 0xff) as u8);
    out.push(((u >> 24) & 0xff) as u8);
    proof {
        assert(out@ =~= old(out)@ + le32(u));
    }
}

/// Appends a little-endian `i32`.
pub fn write_i32_le(out: &mut Vec<u8>, v: i32)
    ensures
        final(out)@ == old(out)@ + le32(v as u32),
{
    write_u32_le(out, v as u32);
}

/// Appends a little-endian `i64`.
pub fn write_i64_le(out: &mut Vec<u8>, v: i64)
    ensures
        final(out)@ == old(out)@ + le64(v as u64),
{
    let u = v as u64;
    write_u32_le(out, (u & 0xffff_ffff) as u32);
    write_u32_le(out, (u >> 32) as u32);
    proof {
        assert(out@ =~= old(out)@ + le64(v as u64));
    }
}

/// Appends raw bytes.
pub fn write_bytes(out: &mut Vec<u8>, b: &[u8])
    ensures
        final(out)@ == old(out)@ + b@,
{
    let mut i: usize = 0;
    while i < b.len()
        invariant
            i <= b.len(),
            out@ == old(out)@ + b@.take(i as int),
        decreases b.len() - i,
    {
        out.push(b[i]);
        proof {
            assert(b@.take(i + 1) =~= b@.take(i as int).push(b@[i as int]));
        }
        i = i + 1;
    }
    proof {
        assert(b@.take(b.len() as int) =~= b@);
    }
}

/// Appends a stored string (see `string_bytes`); a string of more than
/// 32767 UTF-8 bytes is refused and nothing is written.
pub fn write_string_le(out: &mut Vec<u8>, s: &str) -> (r: Result<(), SchematicError>)
    ensures
        match r {
            Ok(()) => encode_utf8(s@).len() <= 0x7fff && final(out)@ == old(out)@ + string_bytes(s@),
            Err(e) => encode_utf8(s@).len() > 0x7fff && final(out)@ == old(out)@ && e == SchematicError::Format,
        },
{
    let raw = s.as_bytes();
    let len = raw.len();
    if len > 0x7fff {
        return Err(SchematicError::Format);
    }
    write_i16_le(out, len as i16);
    proof {
        assert((len as i16) as u16 == len as u16) by (bit_vector)
            requires
                len <= 0x7fff,
        ;
    }
    let ghost mid = out@;
    write_bytes(out, raw);
    proof {
        assert(raw@ == encode_utf8(s@));
        assert(len as int == encode_utf8(s@).len());
        assert(len as u16 == encode_utf8(s@).len() as u16);
        assert(mid == old(out)@ + le16(len as u16));
        assert(out@ =~= old(out)@ + string_bytes(s@));
    }
    Ok(())
}

} // verus!
