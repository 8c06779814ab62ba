//! Decoding of little-endian NBT. Each reader accepts exactly the inputs
//! that begin with the stored bytes of a storable payload.
use vstd::prelude::*;
use crate::error::SchematicError;
use crate::le_io::{
    le32, string_bytes, string_at, read_u8, read_i8, read_i16_le, read_i32_le,
    read_i64_le, read_string_le,
};
use crate::nbt::{
    NbtValue, file_bytes, tag_id, payload_bytes, items_bytes, entries_bytes, wf, items_wf, entries_wf,
    i8s_bytes, i32s_bytes, i64s_bytes,
};

verus! {

/// `s` holds, at `pos`, the stored bytes of the storable payload `v` of tag `tag`.
pub open spec fn valid_at(v: NbtValue, s: Seq<u8>, pos: int, tag: u8) -> bool {
    &&& wf(v)
    &&& tag_id(v) == tag
    &&& 0 <= pos
    &&& pos + payload_bytes(v).len() <= s.len()
    &&& s.subrange(pos, pos + payload_bytes(v).len()) == payload_bytes(v)
}

/// What a payload reader promises: on success a payload that is stored at
/// `pos` and the position after it, whose bytes are those of any payload
/// stored there; on failure, that no payload of that tag is stored there.
pub open spec fn read_ok(data: Seq<u8>, pos: int, tag: u8, r: Result<(NbtValue, usize), SchematicError>) -> bool {
    match r {
        Ok((v, p)) => {
            &&& valid_at(v, data, pos, tag)
            &&& p == pos + payload_bytes(v).len()
            &&& forall|w: NbtValue| #[trigger] valid_at(w, data, pos, tag) ==> payload_bytes(w) == payload_bytes(v)
        },
        Err(e) => {
            &&& e == SchematicError::Format
            &&& forall|w: NbtValue| !#[trigger] valid_at(w, data, pos, tag)
        },
    }
}

proof fn lemma_sub(data: Seq<u8>, a: int, b: int, s: Seq<u8>, i: int, j: int)
    requires
        0 <= a <= b <= data.len(),
        data.subrange(a, b) == s,
        0 <= i <= j <= b - a,
    ensures
        data.subrange(a + i, a + j) == s.subrange(i, j),
{
    assert(data.subrange(a + i, a + j) =~= s.subrange(i, j));
}

proof fn lemma_le32_inj(x: u32, y: u32)
    requires
        le32(x) == le32(y),
    ensures
        x == y,
{
    assert(le32(x)[0] == le32(y)[0] && le32(x)[1] == le32(y)[1] && le32(x)[2] == le32(y)[2] && le32(x)[3] == le32(y)[3]);
    assert(((x & 0xff) as u8 == (y & 0xff) as u8 && ((x >> 8) & 0xff) as u8 == ((y >> 8) & 0xff) as u8
        && ((x >> 16) & 0xff) as u8 == ((y >> 16) & 0xff) as u8 && ((x >> 24) & 0xff) as u8 == ((y >> 24) & 0xff) as u8)
        ==> x == y) by (bit_vector);
}

/// A stored length `n` read back from the count field of a payload whose
/// length is `len`, at most `i32::MAX`: it is that length.
proof fn lemma_count(n: i32, len: nat)
    requires
        len <= i32::MAX,
        le32(n as u32) == le32(len as u32),
    ensures
        n >= 0,
        n as nat == len,
{
    lemma_le32_inj(n as u32, len as u32);
    let l = len as u32;
    assert(l as nat == len);
    assert((n as u32) == l && l <= 0x7fff_ffff ==> n >= 0 && n as u32 == n) by (bit_vector);
}

proof fn lemma_i32s_len(s: Seq<i32>)
    ensures
        i32s_bytes(s).len() == 4 * s.len(),
    decreases s.len(),
{
    if s.len() > 0 {
        lemma_i32s_len(s.drop_last());
    }
}

proof fn lemma_i64s_len(s: Seq<i64>)
    ensures
        i64s_bytes(s).len() == 8 * s.len(),
    decreases s.len(),
{
    if s.len() > 0 {
        lemma_i64s_len(s.drop_last());
    }
}

/// Reads a payload of one of the fixed-size tags, 1 to 6.
fn read_fixed(data: &[u8], pos: usize, tag: u8) -> (r: Result<(NbtValue, usize), SchematicError>)
    requires
        1 <= tag <= 6,
    ensures
        read_ok(data@, pos as int, tag, r),
{
    let mut q = pos;
    if tag == 1 {
        match read_i8(data, &mut q) {
            Ok(b) => {
                proof {
                    assert(payload_bytes(NbtValue::Byte(b)) =~= data@.subrange(pos as int, pos + 1));
                }
                Ok((NbtValue::Byte(b), q))
            },
            Err(e) => Err(e),
        }
    } else if tag == 2 {
        match read_i16_le(data, &mut q) {
            Ok(x) => Ok((NbtValue::Short(x), q)),
            Err(e) => Err(e),
        }
    } else if tag == 3 {
        match read_i32_le(data, &mut q) {
            Ok(x) => Ok((NbtValue::Int(x), q)),
            Err(e) => Err(e),
        }
    } else if tag == 4 {
        match read_i64_le(data, &mut q) {
            Ok(x) => Ok((NbtValue::Long(x), q)),
            Err(e) => Err(e),
        }
    } else if tag == 5 {
        match read_i32_le(data, &mut q) {
            Ok(x) => Ok((NbtValue::Float(x as u32), q)),
            Err(e) => Err(e),
        }
    } else {
        match read_i64_le(data, &mut q) {
            Ok(x) => Ok((NbtValue::Double(x as u64), q)),
            Err(e) => Err(e),
        }
    }
}

/// Reads the count field of an array or list payload at `q`, which
/// `valid_at` of any candidate pins to its length.
fn read_count(data: &[u8], q: usize) -> (r: Result<usize, SchematicError>)
    ensures
        match r {
            Ok(n) => q + 4 <= data.len() && n <= i32::MAX && le32(n as u32) == data@.subrange(q as int, q + 4),
            Err(e) => e == SchematicError::Format && forall|len: nat| len <= i32::MAX ==>
                !(q + 4 <= data.len() && #[trigger] le32(len as u32) == data@.subrange(q as int, q + 4)),
        },
{
    let mut p = q;
    match read_i32_le(data, &mut p) {
        Ok(n) => {
            if n < 0 {
                proof {
                    assert forall|len: nat| len <= i32::MAX implies !(q + 4 <= data.len() && #[trigger] le32(len as u32) == data@.subrange(q as int, q + 4)) by {
                        if q + 4 <= data.len() && le32(len as u32) == data@.subrange(q as int, q + 4) {
                            lemma_count(n, len);
                        }
                    }
                }
                Err(SchematicError::Format)
            } else {
                proof {
                    assert((n as usize) as u32 == n as u32) by (bit_vector)
                        requires
                            n >= 0,
                    ;
                }
                Ok(n as usize)
            }
        },
        Err(e) => Err(e),
    }
}

/// Reads a ByteArray payload.
fn read_byte_array(data: &[u8], pos: usize) -> (r: Result<(NbtValue, usize), SchematicError>)
    ensures
        read_ok(data@, pos as int, 7, r),
{
    let n = match read_count(data, pos) {
        Ok(n) => n,
        Err(e) => {
            proof {
                assert forall|w: NbtValue| !#[trigger] valid_at(w, data@, pos as int, 7) by {
                    if valid_at(w, data@, pos as int, 7) {
                        let a = w->ByteArray_0;
                        lemma_sub(data@, pos as int, pos + payload_bytes(w).len(), payload_bytes(w), 0, 4);
                        assert(payload_bytes(w).subrange(0, 4) =~= le32(a.len() as u32));
                    }
                }
            }
            return Err(e);
        },
    };
    let start = pos + 4;
    if n > data.len() - start {
        proof {
            assert forall|w: NbtValue| !#[trigger] valid_at(w, data@, pos as int, 7) by {
                if valid_at(w, data@, pos as int, 7) {
                    let a = w->ByteArray_0;
                    lemma_sub(data@, pos as int, pos + payload_bytes(w).len(), payload_bytes(w), 0, 4);
                    assert(payload_bytes(w).subrange(0, 4) =~= le32(a.len() as u32));
                    let c = data@.subrange(pos as int, pos + 4);
                    lemma_le32_inj(n as u32, a.len() as u32);
                }
            }
        }
        return Err(SchematicError::Format);
    }
    let mut arr: Vec<i8> = Vec::new();
    let mut i: usize = 0;
    while i < n
        invariant
            start + n <= data.len(),
            i <= n,
            arr.len() == i,
            i8s_bytes(arr@) == data@.subrange(start as int, start + i),
        decreases n - i,
    {
        let b = data[start + i];
        arr.push(b as i8);
        proof {
            assert((b as i8) as u8 == b) by (bit_vector);
            assert(i8s_bytes(arr@) =~= data@.subrange(start as int, start + i + 1));
        }
        i = i + 1;
    }
    let v = NbtValue::ByteArray(arr);
    proof {
        assert(payload_bytes(v) =~= data@.subrange(pos as int, start + n));
        assert forall|w: NbtValue| #[trigger] valid_at(w, data@, pos as int, 7) implies payload_bytes(w) == payload_bytes(v) by {
            let a = w->ByteArray_0;
            lemma_sub(data@, pos as int, pos + payload_bytes(w).len(), payload_bytes(w), 0, 4);
            assert(payload_bytes(w).subrange(0, 4) =~= le32(a.len() as u32));
            lemma_le32_inj(n as u32, a.len() as u32);
            assert(payload_bytes(w).len() == payload_bytes(v).len());
        }
    }
    Ok((v, start + n))
}

/// Reads an IntArray payload.
fn read_int_array(data: &[u8], pos: usize) -> (r: Result<(NbtValue, usize), SchematicError>)
    ensures
        read_ok(data@, pos as int, 11, r),
{
    let n = match read_count(data, pos) {
        Ok(n) => n,
        Err(e) => {
            proof {
                assert forall|w: NbtValue| !#[trigger] valid_at(w, data@, pos as int, 11) by {
                    if valid_at(w, data@, pos as int, 11) {
                        let a = w->IntArray_0;
                        lemma_sub(data@, pos as int, pos + payload_bytes(w).len(), payload_bytes(w), 0, 4);
                        assert(payload_bytes(w).subrange(0, 4) =~= le32(a.len() as u32));
                    }
                }
            }
            return Err(e);
        },
    };
    let start = pos + 4;
    let mut q = start;
    let mut arr: Vec<i32> = Vec::new();
    let mut i: usize = 0;
    while i < n
        invariant
            start == pos + 4,
            start <= data.len(),
            i <= n,
            n <= i32::MAX,
            arr.len() == i,
            q == start + 4 * i,
            q <= data.len(),
            i32s_bytes(arr@) == data@.subrange(start as int, q as int),
            le32(n as u32) == data@.subrange(pos as int, pos + 4),
        decreases n - i,
    {
        let x = match read_i32_le(data, &mut q) {
            Ok(x) => x,
            Err(e) => {
                proof {
                    assert forall|w: NbtValue| !#[trigger] valid_at(w, data@, pos as int, 11) by {
                        if valid_at(w, data@, pos as int, 11) {
                            let a = w->IntArray_0;
                            lemma_sub(data@, pos as int, pos + payload_bytes(w).len(), payload_bytes(w), 0, 4);
                            assert(payload_bytes(w).subrange(0, 4) =~= le32(a.len() as u32));
                            lemma_le32_inj(n as u32, a.len() as u32);
                            lemma_i32s_len(a@);
                        }
                    }
                }
                return Err(e);
            },
        };
        let ghost before = arr@;
        arr.push(x);
        proof {
            assert(arr@.drop_last() =~= before);
            assert(arr@.last() == x);
            assert(data@.subrange(start as int, q as int) =~= data@.subrange(start as int, start + 4 * i) + data@.subrange(start + 4 * i, q as int));
            assert(i32s_bytes(arr@) =~= data@.subrange(start as int, q as int));
        }
        i = i + 1;
    }
    let v = NbtValue::IntArray(arr);
    proof {
        assert(payload_bytes(v) =~= data@.subrange(pos as int, q as int));
        assert forall|w: NbtValue| #[trigger] valid_at(w, data@, pos as int, 11) implies payload_bytes(w) == payload_bytes(v) by {
            let a = w->IntArray_0;
            lemma_sub(data@, pos as int, pos + payload_bytes(w).len(), payload_bytes(w), 0, 4);
            assert(payload_bytes(w).subrange(0, 4) =~= le32(a.len() as u32));
            lemma_le32_inj(n as u32, a.len() as u32);
            lemma_i32s_len(a@);
            lemma_i32s_len(arr@);
            assert(payload_bytes(w).len() == payload_bytes(v).len());
        }
    }
    Ok((v, q))
}

/// Reads a LongArray payload.
fn read_long_array(data: &[u8], pos: usize) -> (r: Result<(NbtValue, usize), SchematicError>)
    ensures
        read_ok(data@, pos as int, 12, r),
{
    let n = match read_count(data, pos) {
        Ok(n) => n,
        Err(e) => {
            proof {
                assert forall|w: NbtValue| !#[trigger] valid_at(w, data@, pos as int, 12) by {
                    if valid_at(w, data@, pos as int, 12) {
                        let a = w->LongArray_0;
                        lemma_sub(data@, pos as int, pos + payload_bytes(w).len(), payload_bytes(w), 0, 4);
                        assert(payload_bytes(w).subrange(0, 4) =~= le32(a.len() as u32));
                    }
                }
            }
            return Err(e);
        },
    };
    let start = pos + 4;
    let mut q = start;
    let mut arr: Vec<i64> = Vec::new();
    let mut i: usize = 0;
    while i < n
        invariant
            start == pos + 4,
            start <= data.len(),
            i <= n,
            n <= i32::MAX,
            arr.len() == i,
            q == start + 8 * i,
            q <= data.len(),
            i64s_bytes(arr@) == data@.subrange(start as int, q as int),
            le32(n as u32) == data@.subrange(pos as int, pos + 4),
        decreases n - i,
    {
        let x = match read_i64_le(data, &mut q) {
            Ok(x) => x,
            Err(e) => {
                proof {
                    assert forall|w: NbtValue| !#[trigger] valid_at(w, data@, pos as int, 12) by {
                        if valid_at(w, data@, pos as int, 12) {
                            let a = w->LongArray_0;
                            lemma_sub(data@, pos as int, pos + payload_bytes(w).len(), payload_bytes(w), 0, 4);
                            assert(payload_bytes(w).subrange(0, 4) =~= le32(a.len() as u32));
                            lemma_le32_inj(n as u32, a.len() as u32);
                            lemma_i64s_len(a@);
                        }
                    }
                }
                return Err(e);
            },
        };
        let ghost before = arr@;
        arr.push(x);
        proof {
            assert(arr@.drop_last() =~= before);
            assert(arr@.last() == x);
            assert(data@.subrange(start as int, q as int) =~= data@.subrange(start as int, start + 8 * i) + data@.subrange(start + 8 * i, q as int));
            assert(i64s_bytes(arr@) =~= data@.subrange(start as int, q as int));
        }
        i = i + 1;
    }
    let v = NbtValue::LongArray(arr);
    proof {
        assert(payload_bytes(v) =~= data@.subrange(pos as int, q as int));
        assert forall|w: NbtValue| #[trigger] valid_at(w, data@, pos as int, 12) implies payload_bytes(w) == payload_bytes(v) by {
            let a = w->LongArray_0;
            lemma_sub(data@, pos as int, pos + payload_bytes(w).len(), payload_bytes(w), 0, 4);
            assert(payload_bytes(w).subrange(0, 4) =~= le32(a.len() as u32));
            lemma_le32_inj(n as u32, a.len() as u32);
            lemma_i64s_len(a@);
            lemma_i64s_len(arr@);
            assert(payload_bytes(w).len() == payload_bytes(v).len());
        }
    }
    Ok((v, q))
}

/// Reads a String payload.
fn read_string_payload(data: &[u8], pos: usize) -> (r: Result<(NbtValue, usize), SchematicError>)
    ensures
        read_ok(data@, pos as int, 8, r),
{
    let mut q = pos;
    match read_string_le(data, &mut q) {
        Ok(s) => {
            proof {
                assert forall|w: NbtValue| #[trigger] valid_at(w, data@, pos as int, 8) implies payload_bytes(w) == string_bytes(s@) by {
                    assert(string_at(data@, pos as int, (w->String_0)@));
                }
            }
            Ok((NbtValue::String(s), q))
        },
        Err(e) => {
            proof {
                assert forall|w: NbtValue| !#[trigger] valid_at(w, data@, pos as int, 8) by {
                    if valid_at(w, data@, pos as int, 8) {
                        assert(string_at(data@, pos as int, (w->String_0)@));
                    }
                }
            }
            Err(e)
        },
    }
}

proof fn lemma_items_prefix(s: Seq<NbtValue>, j: int)
    requires
        0 <= j <= s.len(),
    ensures
        items_bytes(s.take(j)).len() <= items_bytes(s).len(),
        items_bytes(s).subrange(0, items_bytes(s.take(j)).len() as int) == items_bytes(s.take(j)),
    decreases s.len(),
{
    if j == s.len() {
        assert(s.take(j) =~= s);
        assert(items_bytes(s).subrange(0, items_bytes(s).len() as int) =~= items_bytes(s));
    } else {
        lemma_items_prefix(s.drop_last(), j);
        assert(s.drop_last().take(j) =~= s.take(j));
        let a = items_bytes(s.drop_last());
        let k = items_bytes(s.take(j)).len() as int;
        assert((a + payload_bytes(s.last())).subrange(0, k) =~= a.subrange(0, k));
    }
}

proof fn lemma_entries_prefix(s: Seq<(String, NbtValue)>, j: int)
    requires
        0 <= j <= s.len(),
    ensures
        entries_bytes(s.take(j)).len() <= entries_bytes(s).len(),
        entries_bytes(s).subrange(0, entries_bytes(s.take(j)).len() as int) == entries_bytes(s.take(j)),
    decreases s.len(),
{
    if j == s.len() {
        assert(s.take(j) =~= s);
        assert(entries_bytes(s).subrange(0, entries_bytes(s).len() as int) =~= entries_bytes(s));
    } else {
        lemma_entries_prefix(s.drop_last(), j);
        assert(s.drop_last().take(j) =~= s.take(j));
        let a = entries_bytes(s.drop_last());
        let k = entries_bytes(s.take(j)).len() as int;
        let e = seq![tag_id(s.last().1)] + string_bytes(s.last().0@) + payload_bytes(s.last().1);
        assert((a + e).subrange(0, k) =~= a.subrange(0, k));
    }
}

/// The header and the item bytes of a list stored at `pos`.
proof fn lemma_list_at(w: NbtValue, data: Seq<u8>, pos: int, t: u8, n: usize)
    requires
        valid_at(w, data, pos, 9),
        pos + 5 <= data.len(),
        data[pos] == t,
        n <= i32::MAX,
        le32(n as u32) == data.subrange(pos + 1, pos + 5),
    ensures
        w->List_0 == t,
        w->List_1.len() == n,
        items_wf(w->List_1@, t),
        pos + 5 + items_bytes(w->List_1@).len() <= data.len(),
        data.subrange(pos + 5, pos + 5 + items_bytes(w->List_1@).len()) == items_bytes(w->List_1@),
{
    let items = w->List_1;
    let p = payload_bytes(w);
    lemma_sub(data, pos, pos + p.len(), p, 0, 1);
    lemma_sub(data, pos, pos + p.len(), p, 1, 5);
    lemma_sub(data, pos, pos + p.len(), p, 5, p.len() as int);
    assert(p.subrange(0, 1) =~= seq![w->List_0]);
    assert(p.subrange(1, 5) =~= le32(items.len() as u32));
    assert(p.subrange(5, p.len() as int) =~= items_bytes(items@));
    assert(data.subrange(pos, pos + 1)[0] == data[pos]);
    lemma_le32_inj(n as u32, items.len() as u32);
    assert((n as u32) as nat == n);
}

/// One list item of a candidate list stored at `pos`: stored at `q`.
proof fn lemma_list_item(w: NbtValue, data: Seq<u8>, pos: int, t: u8, n: usize, items: Seq<NbtValue>, q: int)
    requires
        valid_at(w, data, pos, 9),
        pos + 5 <= data.len(),
        data[pos] == t,
        n <= i32::MAX,
        le32(n as u32) == data.subrange(pos + 1, pos + 5),
        items.len() < n,
        items_bytes(w->List_1@.take(items.len() as int)) == items_bytes(items),
        q == pos + 5 + items_bytes(items).len(),
    ensures
        valid_at(w->List_1@[items.len() as int], data, q, t),
        items_bytes(w->List_1@.take(items.len() as int + 1)) == items_bytes(items) + payload_bytes(w->List_1@[items.len() as int]),
{
    lemma_list_at(w, data, pos, t, n);
    let s = w->List_1@;
    let i = items.len() as int;
    crate::nbt::lemma_items_wf(s, t, i);
    lemma_items_prefix(s, i + 1);
    assert(s.take(i + 1).drop_last() =~= s.take(i));
    assert(s.take(i + 1).last() == s[i]);
    let whole = items_bytes(s);
    let pre = items_bytes(s.take(i + 1));
    lemma_sub(data, pos + 5, pos + 5 + whole.len(), whole, 0, pre.len() as int);
    lemma_sub(data, pos + 5, pos + 5 + pre.len(), pre, items_bytes(items).len() as int, pre.len() as int);
    assert(pre.subrange(items_bytes(items).len() as int, pre.len() as int) =~= payload_bytes(s[i]));
}

/// Reads a List payload.
fn read_list(data: &[u8], pos: usize) -> (r: Result<(NbtValue, usize), SchematicError>)
    requires
        pos <= data.len(),
    ensures
        read_ok(data@, pos as int, 9, r),
    decreases data.len() - pos, 0nat,
{
    if data.len() < 5 || pos > data.len() - 5 {
        return Err(SchematicError::Format);
    }
    let t = data[pos];
    let n = match read_count(data, pos + 1) {
        Ok(n) => n,
        Err(e) => {
            proof {
                assert forall|w: NbtValue| !#[trigger] valid_at(w, data@, pos as int, 9) by {
                    if valid_at(w, data@, pos as int, 9) {
                        let p = payload_bytes(w);
                        lemma_sub(data@, pos as int, pos + p.len(), p, 1, 5);
                        assert(p.subrange(1, 5) =~= le32((w->List_1).len() as u32));
                    }
                }
            }
            return Err(e);
        },
    };
    let mut q = pos + 5;
    let mut items: Vec<NbtValue> = Vec::new();
    let mut i: usize = 0;
    proof {
        assert(data@.subrange(pos + 5, pos + 5) =~= items_bytes(items@));
        assert forall|w: NbtValue| #[trigger] valid_at(w, data@, pos as int, 9) implies items_bytes(w->List_1@.take(0)) == items_bytes(items@) by {
            assert(w->List_1@.take(0) =~= Seq::<NbtValue>::empty());
        }
    }
    while i < n
        invariant
            pos + 5 <= q <= data.len(),
            i <= n,
            n <= i32::MAX,
            items.len() == i,
            data@[pos as int] == t,
            le32(n as u32) == data@.subrange(pos + 1, pos + 5),
            q == pos + 5 + items_bytes(items@).len(),
            data@.subrange(pos + 5, q as int) == items_bytes(items@),
            items_wf(items@, t),
            forall|w: NbtValue| #[trigger] valid_at(w, data@, pos as int, 9)
                ==> items_bytes(w->List_1@.take(i as int)) == items_bytes(items@),
        decreases n - i,
    {
        match read_tag_payload(data, q, t) {
            Ok((item, q2)) => {
                let ghost before = items@;
                proof {
                    assert forall|w: NbtValue| #[trigger] valid_at(w, data@, pos as int, 9)
                        implies items_bytes(w->List_1@.take(i + 1)) == items_bytes(before.push(item)) by {
                        lemma_list_item(w, data@, pos as int, t, n, before, q as int);
                        assert(before.push(item).drop_last() =~= before);
                    }
                    assert(before.push(item).drop_last() =~= before);
                    assert(data@.subrange(pos + 5, q2 as int) =~= data@.subrange(pos + 5, q as int) + data@.subrange(q as int, q2 as int));
                }
                items.push(item);
                q = q2;
            },
            Err(e) => {
                proof {
                    assert forall|w: NbtValue| !#[trigger] valid_at(w, data@, pos as int, 9) by {
                        if valid_at(w, data@, pos as int, 9) {
                            lemma_list_item(w, data@, pos as int, t, n, items@, q as int);
                        }
                    }
                }
                return Err(e);
            },
        }
        i = i + 1;
    }
    let ghost iv = items@;
    let v = NbtValue::List(t, items);
    proof {
        assert((iv.len() as u32) == (n as u32));
        assert(data@.subrange(pos as int, pos + 1) =~= seq![t]);
        assert(payload_bytes(v) =~= data@.subrange(pos as int, pos + 1) + data@.subrange(pos + 1, pos + 5) + data@.subrange(pos + 5, q as int));
        assert(payload_bytes(v) =~= data@.subrange(pos as int, q as int));
        assert forall|w: NbtValue| #[trigger] valid_at(w, data@, pos as int, 9) implies payload_bytes(w) == payload_bytes(v) by {
            lemma_list_at(w, data@, pos as int, t, n);
            assert(w->List_1@.take(n as int) =~= w->List_1@);
        }
    }
    Ok((v, q))
}

/// One entry of a candidate compound stored at `pos`, after the entries
/// `es` already read, at `q`: its tag byte, name and payload.
proof fn lemma_compound_next(w: NbtValue, data: Seq<u8>, pos: int, es: Seq<(String, NbtValue)>, q: int)
    requires
        valid_at(w, data, pos, 10),
        es.len() <= w->Compound_0.len(),
        entries_bytes(w->Compound_0@.take(es.len() as int)) == entries_bytes(es),
        q == pos + entries_bytes(es).len(),
    ensures
        q < data.len(),
        es.len() == w->Compound_0.len() ==> data[q] == 0,
        es.len() < w->Compound_0.len() ==> ({
            let e = w->Compound_0@[es.len() as int];
            &&& data[q] == tag_id(e.1)
            &&& 1 <= data[q] <= 12
            &&& string_at(data, q + 1, e.0@)
            &&& valid_at(e.1, data, q + 1 + string_bytes(e.0@).len(), tag_id(e.1))
            &&& entries_bytes(w->Compound_0@.take(es.len() as int + 1)) == entries_bytes(es)
                + (seq![tag_id(e.1)] + string_bytes(e.0@) + payload_bytes(e.1))
        }),
{
    let s = w->Compound_0@;
    let p = payload_bytes(w);
    let whole = entries_bytes(s);
    assert(p =~= whole + seq![0u8]);
    lemma_sub(data, pos, pos + p.len(), p, 0, whole.len() as int);
    assert(p.subrange(0, whole.len() as int) =~= whole);
    if es.len() == s.len() {
        assert(s.take(es.len() as int) =~= s);
        assert(data[q] == p[whole.len() as int]);
    } else {
        let i = es.len() as int;
        let e = s[i];
        crate::nbt::lemma_entries_wf(s, i);
        lemma_entries_prefix(s, i + 1);
        assert(s.take(i + 1).drop_last() =~= s.take(i));
        assert(s.take(i + 1).last() == e);
        let pre = entries_bytes(s.take(i + 1));
        let eb = seq![tag_id(e.1)] + string_bytes(e.0@) + payload_bytes(e.1);
        lemma_sub(data, pos, pos + whole.len(), whole, 0, pre.len() as int);
        let k = entries_bytes(es).len() as int;
        lemma_sub(data, pos, pos + pre.len(), pre, k, pre.len() as int);
        assert(pre.subrange(k, pre.len() as int) =~= eb);
        assert(data[q] == eb[0]);
        let sl = string_bytes(e.0@).len() as int;
        lemma_sub(data, q, q + eb.len(), eb, 1, 1 + sl);
        assert(eb.subrange(1, 1 + sl) =~= string_bytes(e.0@));
        lemma_sub(data, q, q + eb.len(), eb, 1 + sl, eb.len() as int);
        assert(eb.subrange(1 + sl, eb.len() as int) =~= payload_bytes(e.1));
    }
}

/// Reads a Compound payload: named tags up to an End byte.
fn read_compound(data: &[u8], pos: usize) -> (r: Result<(NbtValue, usize), SchematicError>)
    requires
        pos <= data.len(),
    ensures
        read_ok(data@, pos as int, 10, r),
    decreases data.len() - pos, 0nat,
{
    let mut q = pos;
    let mut entries: Vec<(String, NbtValue)> = Vec::new();
    proof {
        assert(data@.subrange(pos as int, pos as int) =~= entries_bytes(entries@));
        assert forall|w: NbtValue| #[trigger] valid_at(w, data@, pos as int, 10) implies
            entries_bytes(w->Compound_0@.take(0)) == entries_bytes(entries@) by {
            assert(w->Compound_0@.take(0) =~= Seq::<(String, NbtValue)>::empty());
        }
    }
    loop
        invariant_except_break
            pos <= q <= data.len(),
            q == pos + entries_bytes(entries@).len(),
            data@.subrange(pos as int, q as int) == entries_bytes(entries@),
            entries_wf(entries@),
            forall|w: NbtValue| #[trigger] valid_at(w, data@, pos as int, 10) ==> entries@.len() <= w->Compound_0.len()
                && entries_bytes(w->Compound_0@.take(entries@.len() as int)) == entries_bytes(entries@),
        ensures
            pos <= q < data.len(),
            data@[q as int] == 0,
            q == pos + entries_bytes(entries@).len(),
            data@.subrange(pos as int, q as int) == entries_bytes(entries@),
            entries_wf(entries@),
            forall|w: NbtValue| #[trigger] valid_at(w, data@, pos as int, 10) ==> entries@.len() == w->Compound_0.len()
                && entries_bytes(w->Compound_0@.take(entries@.len() as int)) == entries_bytes(entries@),
        decreases data.len() - q,
    {
        if q >= data.len() {
            proof {
                assert forall|w: NbtValue| !#[trigger] valid_at(w, data@, pos as int, 10) by {
                    if valid_at(w, data@, pos as int, 10) {
                        lemma_compound_next(w, data@, pos as int, entries@, q as int);
                    }
                }
            }
            return Err(SchematicError::Format);
        }
        let b = data[q];
        if b == 0 {
            proof {
                assert forall|w: NbtValue| #[trigger] valid_at(w, data@, pos as int, 10) implies entries@.len() == w->Compound_0.len() by {
                    lemma_compound_next(w, data@, pos as int, entries@, q as int);
                }
            }
            break;
        }
        let mut q2 = q + 1;
        let name = match read_string_le(data, &mut q2) {
            Ok(s) => s,
            Err(e) => {
                proof {
                    assert forall|w: NbtValue| !#[trigger] valid_at(w, data@, pos as int, 10) by {
                        if valid_at(w, data@, pos as int, 10) {
                            lemma_compound_next(w, data@, pos as int, entries@, q as int);
                        }
                    }
                }
                return Err(e);
            },
        };
        match read_tag_payload(data, q2, b) {
            Ok((v, q3)) => {
                let ghost before = entries@;
                let ghost nm = name@;
                proof {
                    assert forall|w: NbtValue| #[trigger] valid_at(w, data@, pos as int, 10) implies
                        before.len() + 1 <= w->Compound_0.len()
                        && entries_bytes(w->Compound_0@.take(before.len() as int + 1)) == entries_bytes(before.push((name, v))) by {
                        lemma_compound_next(w, data@, pos as int, before, q as int);
                        let e = w->Compound_0@[before.len() as int];
                        assert(string_at(data@, q + 1, e.0@));
                        assert(before.push((name, v)).drop_last() =~= before);
                    }
                    assert(before.push((name, v)).drop_last() =~= before);
                    assert(data@.subrange(q as int, q + 1) =~= seq![b]);
                    assert(data@.subrange(pos as int, q3 as int) =~= data@.subrange(pos as int, q as int)
                        + (data@.subrange(q as int, q + 1) + data@.subrange(q + 1, q2 as int) + data@.subrange(q2 as int, q3 as int)));
                }
                entries.push((name, v));
                q = q3;
            },
            Err(e) => {
                proof {
                    assert forall|w: NbtValue| !#[trigger] valid_at(w, data@, pos as int, 10) by {
                        if valid_at(w, data@, pos as int, 10) {
                            lemma_compound_next(w, data@, pos as int, entries@, q as int);
                            let e = w->Compound_0@[entries@.len() as int];
                            assert(string_at(data@, q + 1, e.0@));
                        }
                    }
                }
                return Err(e);
            },
        }
    }
    let ghost ev = entries@;
    let v = NbtValue::Compound(entries);
    proof {
        assert(payload_bytes(v) =~= data@.subrange(pos as int, q + 1));
        assert forall|w: NbtValue| #[trigger] valid_at(w, data@, pos as int, 10) implies payload_bytes(w) == payload_bytes(v) by {
            assert(w->Compound_0@.take(ev.len() as int) =~= w->Compound_0@);
        }
    }
    Ok((v, q + 1))
}

/// Reads the payload of tag `tag` at `pos`: succeeds exactly when the bytes
/// there begin with a storable payload of that tag (see `read_ok`).
pub fn read_tag_payload(data: &[u8], pos: usize, tag: u8) -> (r: Result<(NbtValue, usize), SchematicError>)
    requires
        pos <= data.len(),
    ensures
        read_ok(data@, pos as int, tag, r),
    decreases data.len() - pos, 1nat,
{
    if tag == 0 || tag > 12 {
        return Err(SchematicError::Format);
    }
    if tag <= 6 {
        read_fixed(data, pos, tag)
    } else if tag == 7 {
        read_byte_array(data, pos)
    } else if tag == 8 {
        read_string_payload(data, pos)
    } else if tag == 9 {
        read_list(data, pos)
    } else if tag == 10 {
        read_compound(data, pos)
    } else if tag == 11 {
        read_int_array(data, pos)
    } else {
        read_long_array(data, pos)
    }
}

/// `data` begins with a whole little-endian NBT file of root name `name` and
/// root named tags `root`, all storable.
pub open spec fn file_at(data: Seq<u8>, name: Seq<char>, root: Seq<(String, NbtValue)>) -> bool {
    &&& vstd::utf8::encode_utf8(name).len() <= 0x7fff
    &&& entries_wf(root)
    &&& file_bytes(name, root).len() <= data.len()
    &&& data.subrange(0, file_bytes(name, root).len() as int) == file_bytes(name, root)
}

proof fn lemma_file_parts(data: Seq<u8>, name: Seq<char>, root: Vec<(String, NbtValue)>)
    requires
        file_at(data, name, root@),
    ensures
        data[0] == 10,
        string_at(data, 1, name),
        valid_at(NbtValue::Compound(root), data, 1 + string_bytes(name).len() as int, 10),
{
    let f = file_bytes(name, root@);
    let sl = string_bytes(name).len() as int;
    let w = NbtValue::Compound(root);
    assert(data[0] == f[0]);
    lemma_sub(data, 0, f.len() as int, f, 1, 1 + sl);
    assert(f.subrange(1, 1 + sl) =~= string_bytes(name));
    lemma_sub(data, 0, f.len() as int, f, 1 + sl, f.len() as int);
    assert(f.subrange(1 + sl, f.len() as int) =~= payload_bytes(w));
}

/// Decodes a little-endian NBT file whose root is a Compound: its root name
/// and named tags. Fails exactly when `data` does not begin with such a file;
/// in particular when its first byte is not the Compound id 10.
pub fn load_nbt_le(data: &[u8]) -> (r: Result<(String, Vec<(String, NbtValue)>), SchematicError>)
    ensures
        match r {
            Ok((name, root)) => {
                &&& file_at(data@, name@, root@)
                &&& forall|n: Seq<char>, t: Vec<(String, NbtValue)>| #[trigger] file_at(data@, n, t@)
                    ==> file_bytes(n, t@) == file_bytes(name@, root@)
            },
            Err(e) => {
                &&& e == SchematicError::Format
                &&& forall|n: Seq<char>, t: Vec<(String, NbtValue)>| !#[trigger] file_at(data@, n, t@)
            },
        },
        data.len() > 0 && data@[0] != 10 ==> r is Err,
{
    let mut q: usize = 0;
    let t = match read_u8(data, &mut q) {
        Ok(t) => t,
        Err(e) => {
            proof {
                assert forall|n: Seq<char>, t: Vec<(String, NbtValue)>| !#[trigger] file_at(data@, n, t@) by {
                    if file_at(data@, n, t@) {
                        lemma_file_parts(data@, n, t);
                    }
                }
            }
            return Err(e);
        },
    };
    if t != 10 {
        proof {
            assert forall|n: Seq<char>, t: Vec<(String, NbtValue)>| !#[trigger] file_at(data@, n, t@) by {
                if file_at(data@, n, t@) {
                    lemma_file_parts(data@, n, t);
                }
            }
        }
        return Err(SchematicError::Format);
    }
    let name = match read_string_le(data, &mut q) {
        Ok(s) => s,
        Err(e) => {
            proof {
                assert forall|n: Seq<char>, t: Vec<(String, NbtValue)>| !#[trigger] file_at(data@, n, t@) by {
                    if file_at(data@, n, t@) {
                        lemma_file_parts(data@, n, t);
                    }
                }
            }
            return Err(e);
        },
    };
    match read_tag_payload(data, q, 10) {
        Ok((NbtValue::Compound(root), p)) => {
            proof {
                let w = NbtValue::Compound(root);
                let f = file_bytes(name@, root@);
                assert(data@.subrange(0, 1) =~= seq![10u8]);
                assert(f =~= seq![10u8] + string_bytes(name@) + payload_bytes(w));
                assert(data@.subrange(0, p as int) =~= data@.subrange(0, 1) + data@.subrange(1, q as int) + data@.subrange(q as int, p as int));
                assert forall|n: Seq<char>, t: Vec<(String, NbtValue)>| #[trigger] file_at(data@, n, t@)
                    implies file_bytes(n, t@) == f by {
                    lemma_file_parts(data@, n, t);
                    assert(payload_bytes(NbtValue::Compound(t)) == payload_bytes(w));
                    assert(file_bytes(n, t@) =~= seq![10u8] + string_bytes(n) + payload_bytes(NbtValue::Compound(t)));
                }
            }
            Ok((name, root))
        },
        Ok(_) => {
            Err(SchematicError::Format)
        },
        Err(e) => {
            proof {
                assert forall|n: Seq<char>, t: Vec<(String, NbtValue)>| !#[trigger] file_at(data@, n, t@) by {
                    if file_at(data@, n, t@) {
                        lemma_file_parts(data@, n, t);
                        assert(valid_at(NbtValue::Compound(t), data@, q as int, 10));
                    }
                }
            }
            Err(e)
        },
    }
}

} // verus!
