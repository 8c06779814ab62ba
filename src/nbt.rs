//! The named binary tag tree of schematic files, and its little-endian
//! encoding: NBT with every multi-byte integer and every string length stored
//! low byte first.
use vstd::prelude::*;
use vstd::utf8::encode_utf8;
use crate::error::SchematicError;
use crate::le_io::{
    le16, le32, le64, string_bytes, write_u8, write_i8, write_i16_le, write_i32_le, write_i64_le,
    write_string_le,
};

verus! {

/// One tag payload. Floating-point payloads are kept as their IEEE-754 bit
/// patterns; a list keeps the element tag id it was stored with.
#[derive(Debug, PartialEq)]
pub enum NbtValue {
    Byte(i8),
    Short(i16),
    Int(i32),
    Long(i64),
    Float(u32),
    Double(u64),
    ByteArray(Vec<i8>),
    String(String),
    List(u8, Vec<NbtValue>),
    Compound(Vec<(String, NbtValue)>),
    IntArray(Vec<i32>),
    LongArray(Vec<i64>),
}

/// The tag id of a payload (End, 0, has no payload).
pub open spec fn tag_id(v: NbtValue) -> u8 {
    match v {
        NbtValue::Byte(_) => 1,
        NbtValue::Short(_) => 2,
        NbtValue::Int(_) => 3,
        NbtValue::Long(_) => 4,
        NbtValue::Float(_) => 5,
        NbtValue::Double(_) => 6,
        NbtValue::ByteArray(_) => 7,
        NbtValue::String(_) => 8,
        NbtValue::List(_, _) => 9,
        NbtValue::Compound(_) => 10,
        NbtValue::IntArray(_) => 11,
        NbtValue::LongArray(_) => 12,
    }
}

pub open spec fn i8s_bytes(s: Seq<i8>) -> Seq<u8> {
    s.map_values(|b: i8| b as u8)
}

pub open spec fn i32s_bytes(s: Seq<i32>) -> Seq<u8>
    decreases s.len(),
{
    if s.len() == 0 {
        seq![]
    } else {
        i32s_bytes(s.drop_last()) + le32(s.last() as u32)
    }
}

pub open spec fn i64s_bytes(s: Seq<i64>) -> Seq<u8>
    decreases s.len(),
{
    if s.len() == 0 {
        seq![]
    } else {
        i64s_bytes(s.drop_last()) + le64(s.last() as u64)
    }
}

/// The stored bytes of a payload.
pub open spec fn payload_bytes(v: NbtValue) -> Seq<u8>
    decreases v,
{
    match v {
        NbtValue::Byte(b) => seq![b as u8],
        NbtValue::Short(x) => le16(x as u16),
        NbtValue::Int(x) => le32(x as u32),
        NbtValue::Long(x) => le64(x as u64),
        NbtValue::Float(x) => le32(x),
        NbtValue::Double(x) => le64(x),
        NbtValue::ByteArray(a) => le32(a.len() as u32) + i8s_bytes(a@),
        NbtValue::String(s) => string_bytes(s@),
        NbtValue::List(t, items) => seq![t] + le32(items.len() as u32) + items_bytes(items@),
        NbtValue::Compound(entries) => entries_bytes(entries@) + seq![0u8],
        NbtValue::IntArray(a) => le32(a.len() as u32) + i32s_bytes(a@),
        NbtValue::LongArray(a) => le32(a.len() as u32) + i64s_bytes(a@),
    }
}

/// The payloads of list items, one after the other.
pub open spec fn items_bytes(s: Seq<NbtValue>) -> Seq<u8>
    decreases s,
{
    if s.len() == 0 {
        seq![]
    } else {
        items_bytes(s.drop_last()) + payload_bytes(s.last())
    }
}

/// The named tags of a compound, one after the other (without the End byte):
/// each is its tag id, its name, its payload.
pub open spec fn entries_bytes(s: Seq<(String, NbtValue)>) -> Seq<u8>
    decreases s,
{
    if s.len() == 0 {
        seq![]
    } else {
        entries_bytes(s.drop_last()) + (seq![tag_id(s.last().1)] + string_bytes(s.last().0@)
            + payload_bytes(s.last().1))
    }
}

/// A payload that can be stored: lengths fit their count fields, and every
/// item of a list carries the list's element tag id.
pub open spec fn wf(v: NbtValue) -> bool
    decreases v,
{
    match v {
        NbtValue::ByteArray(a) => a.len() <= i32::MAX,
        NbtValue::String(s) => encode_utf8(s@).len() <= 0x7fff,
        NbtValue::List(t, items) => items.len() <= i32::MAX && items_wf(items@, t),
        NbtValue::Compound(entries) => entries_wf(entries@),
        NbtValue::IntArray(a) => a.len() <= i32::MAX,
        NbtValue::LongArray(a) => a.len() <= i32::MAX,
        _ => true,
    }
}

pub open spec fn items_wf(s: Seq<NbtValue>, t: u8) -> bool
    decreases s,
{
    if s.len() == 0 {
        true
    } else {
        items_wf(s.drop_last(), t) && tag_id(s.last()) == t && wf(s.last())
    }
}

pub open spec fn entries_wf(s: Seq<(String, NbtValue)>) -> bool
    decreases s,
{
    if s.len() == 0 {
        true
    } else {
        entries_wf(s.drop_last()) && encode_utf8(s.last().0@).len() <= 0x7fff && wf(s.last().1)
    }
}

/// The tag id of a payload.
pub fn tag_of(v: &NbtValue) -> (r: u8)
    ensures
        r == tag_id(*v),
        1 <= r <= 12,
{
    match v {
        NbtValue::Byte(_) => 1,
        NbtValue::Short(_) => 2,
        NbtValue::Int(_) => 3,
        NbtValue::Long(_) => 4,
        NbtValue::Float(_) => 5,
        NbtValue::Double(_) => 6,
        NbtValue::ByteArray(_) => 7,
        NbtValue::String(_) => 8,
        NbtValue::List(_, _) => 9,
        NbtValue::Compound(_) => 10,
        NbtValue::IntArray(_) => 11,
        NbtValue::LongArray(_) => 12,
    }
}

pub(crate) proof fn lemma_items_wf(s: Seq<NbtValue>, t: u8, i: int)
    requires
        items_wf(s, t),
        0 <= i < s.len(),
    ensures
        tag_id(s[i]) == t,
        wf(s[i]),
    decreases s.len(),
{
    if i < s.len() - 1 {
        lemma_items_wf(s.drop_last(), t, i);
    }
}

pub(crate) proof fn lemma_entries_wf(s: Seq<(String, NbtValue)>, i: int)
    requires
        entries_wf(s),
        0 <= i < s.len(),
    ensures
        encode_utf8(s[i].0@).len() <= 0x7fff,
        wf(s[i].1),
    decreases s.len(),
{
    if i < s.len() - 1 {
        lemma_entries_wf(s.drop_last(), i);
    }
}

proof fn lemma_len_le32(n: usize)
    requires
        n <= i32::MAX,
    ensures
        (n as i32) as u32 == n as u32,
{
    assert((n as i32) as u32 == n as u32) by (bit_vector)
        requires
            n <= 0x7fff_ffffusize,
    ;
}

/// Appends the stored bytes of a payload.
pub fn write_tag_payload(out: &mut Vec<u8>, v: &NbtValue)
    requires
        wf(*v),
    ensures
        final(out)@ == old(out)@ + payload_bytes(*v),
    decreases v,
{
    match v {
        NbtValue::Byte(b) => write_i8(out, *b),
        NbtValue::Short(x) => write_i16_le(out, *x),
        NbtValue::Int(x) => write_i32_le(out, *x),
        NbtValue::Long(x) => write_i64_le(out, *x),
        NbtValue::Float(x) => {
            write_i32_le(out, *x as i32);
            proof {
                assert((*x as i32) as u32 == *x) by (bit_vector);
            }
        },
        NbtValue::Double(x) => {
            write_i64_le(out, *x as i64);
            proof {
                assert((*x as i64) as u64 == *x) by (bit_vector);
            }
        },
        NbtValue::ByteArray(a) => {
            proof {
                lemma_len_le32(a.len());
            }
            write_i32_le(out, a.len() as i32);
            let ghost head = out@;
            let mut i: usize = 0;
            while i < a.len()
                invariant
                    i <= a.len(),
                    out@ == head + i8s_bytes(a@.take(i as int)),
                decreases a.len() - i,
            {
                write_i8(out, a[i]);
                proof {
                    assert(i8s_bytes(a@.take(i + 1)) =~= i8s_bytes(a@.take(i as int)).push(a@[i as int] as u8));
                }
                i = i + 1;
            }
            proof {
                assert(a@.take(a.len() as int) =~= a@);
                assert(out@ =~= old(out)@ + payload_bytes(*v));
            }
        },
        NbtValue::String(s) => {
            let _ = write_string_le(out, s.as_str());
        },
        NbtValue::List(t, items) => {
            write_u8(out, *t);
            proof {
                lemma_len_le32(items.len());
            }
            write_i32_le(out, items.len() as i32);
            let ghost head = out@;
            let mut i: usize = 0;
            while i < items.len()
                invariant
                    i <= items.len(),
                    items_wf(items@, *t),
                    *v == NbtValue::List(*t, *items),
                    out@ == head + items_bytes(items@.take(i as int)),
                decreases items.len() - i,
            {
                proof {
                    lemma_items_wf(items@, *t, i as int);
                    assert(items@.take(i + 1).drop_last() =~= items@.take(i as int));
                    assert(decreases_to!(*items => items[i as int]));
                    assert(decreases_to!(*v => (*v)->List_1));
                    assert(decreases_to!(*v => items[i as int]));
                }
                write_tag_payload(out, &items[i]);
                i = i + 1;
            }
            proof {
                assert(items@.take(items.len() as int) =~= items@);
                assert(out@ =~= old(out)@ + payload_bytes(*v));
            }
        },
        NbtValue::Compound(entries) => {
            let ghost head = out@;
            let mut i: usize = 0;
            while i < entries.len()
                invariant
                    i <= entries.len(),
                    entries_wf(entries@),
                    *v == NbtValue::Compound(*entries),
                    out@ == head + entries_bytes(entries@.take(i as int)),
                decreases entries.len() - i,
            {
                proof {
                    lemma_entries_wf(entries@, i as int);
                    assert(entries@.take(i + 1).drop_last() =~= entries@.take(i as int));
                }
                let ghost before = out@;
                proof {
                    assert(decreases_to!(*entries => entries[i as int]));
                    assert(decreases_to!(*v => (*v)->Compound_0));
                    assert(decreases_to!(entries[i as int] => entries[i as int].1));
                    assert(decreases_to!(*v => entries[i as int].1));
                }
                write_u8(out, tag_of(&entries[i].1));
                let _ = write_string_le(out, entries[i].0.as_str());
                write_tag_payload(out, &entries[i].1);
                proof {
                    assert(out@ =~= before + (seq![tag_id(entries@[i as int].1)] + string_bytes(entries@[i as int].0@)
                        + payload_bytes(entries@[i as int].1)));
                }
                i = i + 1;
            }
            write_u8(out, 0);
            proof {
                assert(entries@.take(entries.len() as int) =~= entries@);
                assert(out@ =~= old(out)@ + payload_bytes(*v));
            }
        },
        NbtValue::IntArray(a) => {
            proof {
                lemma_len_le32(a.len());
            }
            write_i32_le(out, a.len() as i32);
            let ghost head = out@;
            let mut i: usize = 0;
            while i < a.len()
                invariant
                    i <= a.len(),
                    out@ == head + i32s_bytes(a@.take(i as int)),
                decreases a.len() - i,
            {
                write_i32_le(out, a[i]);
                proof {
                    assert(a@.take(i + 1).drop_last() =~= a@.take(i as int));
                }
                i = i + 1;
            }
            proof {
                assert(a@.take(a.len() as int) =~= a@);
                assert(out@ =~= old(out)@ + payload_bytes(*v));
            }
        },
        NbtValue::LongArray(a) => {
            proof {
                lemma_len_le32(a.len());
            }
            write_i32_le(out, a.len() as i32);
            let ghost head = out@;
            let mut i: usize = 0;
            while i < a.len()
                invariant
                    i <= a.len(),
                    out@ == head + i64s_bytes(a@.take(i as int)),
                decreases a.len() - i,
            {
                write_i64_le(out, a[i]);
                proof {
                    assert(a@.take(i + 1).drop_last() =~= a@.take(i as int));
                }
                i = i + 1;
            }
            proof {
                assert(a@.take(a.len() as int) =~= a@);
                assert(out@ =~= old(out)@ + payload_bytes(*v));
            }
        },
    }
}

/// Appends a named tag: its id, its name, its payload.
pub fn write_tag(out: &mut Vec<u8>, name: &str, v: &NbtValue)
    requires
        wf(*v),
        encode_utf8(name@).len() <= 0x7fff,
    ensures
        final(out)@ == old(out)@ + (seq![tag_id(*v)] + string_bytes(name@) + payload_bytes(*v)),
{
    write_u8(out, tag_of(v));
    let _ = write_string_le(out, name);
    write_tag_payload(out, v);
    proof {
        assert(out@ =~= old(out)@ + (seq![tag_id(*v)] + string_bytes(name@) + payload_bytes(*v)));
    }
}

/// Whether a payload can be stored (see `wf`).
pub fn is_storable(v: &NbtValue) -> (r: bool)
    ensures
        r == wf(*v),
    decreases v,
{
    match v {
        NbtValue::ByteArray(a) => a.len() <= 0x7fff_ffff,
        NbtValue::String(s) => s.as_str().as_bytes().len() <= 0x7fff,
        NbtValue::List(t, items) => {
            if items.len() > 0x7fff_ffff {
                return false;
            }
            let mut i: usize = 0;
            while i < items.len()
                invariant
                    i <= items.len(),
                    *v == NbtValue::List(*t, *items),
                    items_wf(items@.take(i as int), *t),
                decreases items.len() - i,
            {
                proof {
                    assert(items@.take(i + 1).drop_last() =~= items@.take(i as int));
                    assert(decreases_to!(*v => (*v)->List_1));
                    assert(decreases_to!(*items => items[i as int]));
                }
                if tag_of(&items[i]) != *t || !is_storable(&items[i]) {
                    proof {
                        assert forall|j: int| i + 1 <= j <= items.len() implies !items_wf(#[trigger] items@.take(j), *t) by {
                            if items_wf(items@.take(j), *t) {
                                lemma_items_wf(items@.take(j), *t, i as int);
                            }
                        }
                        assert(items@.take(items.len() as int) =~= items@);
                    }
                    return false;
                }
                i = i + 1;
            }
            proof {
                assert(items@.take(items.len() as int) =~= items@);
            }
            true
        },
        NbtValue::Compound(entries) => {
            let mut i: usize = 0;
            while i < entries.len()
                invariant
                    i <= entries.len(),
                    *v == NbtValue::Compound(*entries),
                    entries_wf(entries@.take(i as int)),
                decreases entries.len() - i,
            {
                proof {
                    assert(entries@.take(i + 1).drop_last() =~= entries@.take(i as int));
                    assert(decreases_to!(*v => (*v)->Compound_0));
                    assert(decreases_to!(*entries => entries[i as int]));
                    assert(decreases_to!(entries[i as int] => entries[i as int].1));
                }
                if entries[i].0.as_str().as_bytes().len() > 0x7fff || !is_storable(&entries[i].1) {
                    proof {
                        assert forall|j: int| i + 1 <= j <= entries.len() implies !entries_wf(#[trigger] entries@.take(j)) by {
                            if entries_wf(entries@.take(j)) {
                                lemma_entries_wf(entries@.take(j), i as int);
                            }
                        }
                        assert(entries@.take(entries.len() as int) =~= entries@);
                    }
                    return false;
                }
                i = i + 1;
            }
            proof {
                assert(entries@.take(entries.len() as int) =~= entries@);
            }
            true
        },
        NbtValue::IntArray(a) => a.len() <= 0x7fff_ffff,
        NbtValue::LongArray(a) => a.len() <= 0x7fff_ffff,
        _ => true,
    }
}

/// A whole little-endian NBT file: a Compound tag id, the root name, the
/// root's named tags and the End byte.
pub open spec fn file_bytes(name: Seq<char>, root: Seq<(String, NbtValue)>) -> Seq<u8> {
    seq![10u8] + string_bytes(name) + entries_bytes(root) + seq![0u8]
}

/// Encodes a root compound under `name`; refused when a name or a payload
/// cannot be stored (see `wf`).
pub fn save_nbt_le(name: &str, root: &Vec<(String, NbtValue)>) -> (r: Result<Vec<u8>, SchematicError>)
    ensures
        match r {
            Ok(b) => encode_utf8(name@).len() <= 0x7fff && entries_wf(root@) && b@ == file_bytes(name@, root@),
            Err(e) => !(encode_utf8(name@).len() <= 0x7fff && entries_wf(root@)) && e == SchematicError::Format,
        },
{
    let mut out: Vec<u8> = Vec::new();
    write_u8(&mut out, 10);
    write_string_le(&mut out, name)?;
    let mut i: usize = 0;
    while i < root.len()
        invariant
            i <= root.len(),
            encode_utf8(name@).len() <= 0x7fff,
            entries_wf(root@.take(i as int)),
            out@ == seq![10u8] + string_bytes(name@) + entries_bytes(root@.take(i as int)),
        decreases root.len() - i,
    {
        proof {
            assert(root@.take(i + 1).drop_last() =~= root@.take(i as int));
        }
        let key = root[i].0.as_str();
        if key.as_bytes().len() > 0x7fff || !is_storable(&root[i].1) {
            proof {
                assert forall|j: int| i + 1 <= j <= root.len() implies !entries_wf(#[trigger] root@.take(j)) by {
                    if entries_wf(root@.take(j)) {
                        lemma_entries_wf(root@.take(j), i as int);
                    }
                }
                assert(root@.take(root.len() as int) =~= root@);
            }
            return Err(SchematicError::Format);
        }
        write_tag(&mut out, key, &root[i].1);
        proof {
            assert(out@ =~= seq![10u8] + string_bytes(name@) + entries_bytes(root@.take(i + 1)));
        }
        i = i + 1;
    }
    write_u8(&mut out, 0);
    proof {
        assert(root@.take(root.len() as int) =~= root@);
        assert(out@ =~= file_bytes(name@, root@));
    }
    Ok(out)
}

/// A copy of a tag tree that stores as the same bytes.
pub fn copy_tree(v: &NbtValue) -> (r: NbtValue)
    ensures
        tag_id(r) == tag_id(*v),
        payload_bytes(r) == payload_bytes(*v),
    decreases v,
{
    match v {
        NbtValue::Byte(b) => NbtValue::Byte(*b),
        NbtValue::Short(x) => NbtValue::Short(*x),
        NbtValue::Int(x) => NbtValue::Int(*x),
        NbtValue::Long(x) => NbtValue::Long(*x),
        NbtValue::Float(x) => NbtValue::Float(*x),
        NbtValue::Double(x) => NbtValue::Double(*x),
        NbtValue::ByteArray(a) => {
            let mut out: Vec<i8> = Vec::new();
            let mut i: usize = 0;
            while i < a.len()
                invariant
                    i <= a.len(),
                    out@ == a@.take(i as int),
                decreases a.len() - i,
            {
                out.push(a[i]);
                proof {
                    assert(out@ =~= a@.take(i + 1));
                }
                i = i + 1;
            }
            proof {
                assert(out@ =~= a@);
            }
            NbtValue::ByteArray(out)
        },
        NbtValue::String(s) => NbtValue::String(s.clone()),
        NbtValue::List(t, items) => {
            let mut out: Vec<NbtValue> = Vec::new();
            let mut i: usize = 0;
            while i < items.len()
                invariant
                    i <= items.len(),
                    *v == NbtValue::List(*t, *items),
                    out.len() == i,
                    items_bytes(out@) == items_bytes(items@.take(i as int)),
                decreases items.len() - i,
            {
                proof {
                    assert(decreases_to!(*v => (*v)->List_1));
                    assert(decreases_to!(*items => items[i as int]));
                    assert(items@.take(i + 1).drop_last() =~= items@.take(i as int));
                }
                let c = copy_tree(&items[i]);
                let ghost before = out@;
                out.push(c);
                proof {
                    assert(out@.drop_last() =~= before);
                }
                i = i + 1;
            }
            proof {
                assert(items@.take(items.len() as int) =~= items@);
            }
            NbtValue::List(*t, out)
        },
        NbtValue::Compound(entries) => {
            let mut out: Vec<(String, NbtValue)> = Vec::new();
            let mut i: usize = 0;
            while i < entries.len()
                invariant
                    i <= entries.len(),
                    *v == NbtValue::Compound(*entries),
                    entries_bytes(out@) == entries_bytes(entries@.take(i as int)),
                decreases entries.len() - i,
            {
                proof {
                    assert(decreases_to!(*v => (*v)->Compound_0));
                    assert(decreases_to!(*entries => entries[i as int]));
                    assert(decreases_to!(entries[i as int] => entries[i as int].1));
                    assert(entries@.take(i + 1).drop_last() =~= entries@.take(i as int));
                }
                let c = copy_tree(&entries[i].1);
                let ghost before = out@;
                out.push((entries[i].0.clone(), c));
                proof {
                    assert(out@.drop_last() =~= before);
                }
                i = i + 1;
            }
            proof {
                assert(entries@.take(entries.len() as int) =~= entries@);
            }
            NbtValue::Compound(out)
        },
        NbtValue::IntArray(a) => {
            let mut out: Vec<i32> = Vec::new();
            let mut i: usize = 0;
            while i < a.len()
                invariant
                    i <= a.len(),
                    out@ == a@.take(i as int),
                decreases a.len() - i,
            {
                out.push(a[i]);
                proof {
                    assert(out@ =~= a@.take(i + 1));
                }
                i = i + 1;
            }
            proof {
                assert(out@ =~= a@);
            }
            NbtValue::IntArray(out)
        },
        NbtValue::LongArray(a) => {
            let mut out: Vec<i64> = Vec::new();
            let mut i: usize = 0;
            while i < a.len()
                invariant
                    i <= a.len(),
                    out@ == a@.take(i as int),
                decreases a.len() - i,
            {
                out.push(a[i]);
                proof {
                    assert(out@ =~= a@.take(i + 1));
                }
                i = i + 1;
            }
            proof {
                assert(out@ =~= a@);
            }
            NbtValue::LongArray(out)
        },
    }
}

} // verus!
