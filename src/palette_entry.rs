//! Block states read from palette entries of the tree formats.
use vstd::prelude::*;
use vstd::utf8::encode_utf8;
use crate::error::SchematicError;
use crate::model::BlockData;
use crate::nbt::NbtValue;
use crate::nbt_access::{find_entry, has_key, value_of};
use crate::text::{ascii_string, push_int_text, int_text};

verus! {

/// The text that a property value of tag tree `v` stands for: a string as
/// itself; where `numeric` holds, an `Int` as its decimal text and a `Byte`
/// as `true` or `false`.
pub open spec fn property_text(v: NbtValue, numeric: bool) -> Option<Seq<char>> {
    match v {
        NbtValue::String(s) => Some(s@),
        NbtValue::Int(n) => if numeric { Some(vstd::utf8::decode_utf8(int_text(n as int))) } else { None },
        NbtValue::Byte(b) => if numeric { Some(if b != 0 { "true"@ } else { "false"@ }) } else { None },
        _ => None,
    }
}

/// `a` orders before `b` from index `i` on, byte by byte, a proper prefix
/// first.
pub open spec fn lt_from(a: Seq<u8>, b: Seq<u8>, i: int) -> bool
    decreases a.len() - i,
{
    if i < 0 || i >= a.len() {
        i >= 0 && i < b.len()
    } else if i >= b.len() {
        false
    } else if a[i] != b[i] {
        a[i] < b[i]
    } else {
        lt_from(a, b, i + 1)
    }
}

/// String order: the byte order of the UTF-8 encodings.
pub open spec fn text_lt(a: Seq<char>, b: Seq<char>) -> bool {
    lt_from(encode_utf8(a), encode_utf8(b), 0)
}

/// The first index from `j` on whose key does not order before `k`.
pub open spec fn insert_pos(ps: Seq<(Seq<char>, Seq<char>)>, k: Seq<char>, j: int) -> int
    decreases ps.len() - j,
{
    if j < 0 || j >= ps.len() {
        ps.len() as int
    } else if text_lt(ps[j].0, k) {
        insert_pos(ps, k, j + 1)
    } else {
        j
    }
}

/// Ordered-map insertion: the value of key `k` becomes `v`; a new key goes
/// before the first key that does not order before it.
pub open spec fn insert_prop(ps: Seq<(Seq<char>, Seq<char>)>, k: Seq<char>, v: Seq<char>) -> Seq<(Seq<char>, Seq<char>)> {
    let j = insert_pos(ps, k, 0);
    if j < ps.len() && ps[j].0 == k {
        ps.update(j, (k, v))
    } else {
        ps.insert(j, (k, v))
    }
}

/// The properties of a compound: the entries whose value has a text, as a
/// map ordered by key, a later entry of a key replacing an earlier one.
pub open spec fn properties_of(es: Seq<(String, NbtValue)>, numeric: bool) -> Seq<(Seq<char>, Seq<char>)>
    decreases es.len(),
{
    if es.len() == 0 {
        seq![]
    } else {
        let rest = properties_of(es.drop_last(), numeric);
        match property_text(es.last().1, numeric) {
            Some(t) => insert_prop(rest, es.last().0@, t),
            None => rest,
        }
    }
}

/// Whether `a` orders before `b` (see `text_lt`).
pub fn str_lt(a: &String, b: &String) -> (r: bool)
    ensures
        r == text_lt(a@, b@),
{
    let x = a.as_str().as_bytes();
    let y = b.as_str().as_bytes();
    let mut i: usize = 0;
    while i < x.len() && i < y.len() && x[i] == y[i]
        invariant
            i <= x.len(),
            i <= y.len(),
            x@ == encode_utf8(a@),
            y@ == encode_utf8(b@),
            lt_from(x@, y@, 0) == lt_from(x@, y@, i as int),
        decreases x.len() - i,
    {
        i = i + 1;
    }
    if i == x.len() {
        i < y.len()
    } else if i == y.len() {
        false
    } else {
        x[i] < y[i]
    }
}

pub(crate) fn insert_property(props: &mut Vec<(String, String)>, k: String, v: String)
    ensures
        final(props)@.map_values(|p: (String, String)| (p.0@, p.1@))
            == insert_prop(old(props)@.map_values(|p: (String, String)| (p.0@, p.1@)), k@, v@),
{
    let ghost ps = props@.map_values(|p: (String, String)| (p.0@, p.1@));
    let mut j: usize = 0;
    while j < props.len() && str_lt(&props[j].0, &k)
        invariant
            j <= props.len(),
            props@ == old(props)@,
            ps == props@.map_values(|p: (String, String)| (p.0@, p.1@)),
            insert_pos(ps, k@, 0) == insert_pos(ps, k@, j as int),
        decreases props.len() - j,
    {
        j = j + 1;
    }
    proof {
        assert(insert_pos(ps, k@, 0) == j);
    }
    if j < props.len() && props[j].0 == k {
        let ghost kv = k@;
        let ghost vv = v@;
        props.set(j, (k, v));
        proof {
            assert(props@.map_values(|p: (String, String)| (p.0@, p.1@)) =~= ps.update(j as int, (kv, vv)));
        }
    } else {
        let ghost kv = k@;
        let ghost vv = v@;
        props.insert(j, (k, v));
        proof {
            assert(props@.map_values(|p: (String, String)| (p.0@, p.1@)) =~= ps.insert(j as int, (kv, vv)));
        }
    }
}

fn property_value(v: &NbtValue, numeric: bool) -> (r: Option<String>)
    ensures
        match r {
            Some(s) => property_text(*v, numeric) == Some(s@),
            None => property_text(*v, numeric) is None,
        },
{
    match v {
        NbtValue::String(s) => Some(s.clone()),
        NbtValue::Int(n) => {
            if numeric {
                let mut out: Vec<u8> = Vec::new();
                push_int_text(&mut out, *n);
                proof {
                    assert(out@ =~= int_text(*n as int));
                    crate::text::lemma_int_text_ascii(*n as int);
                }
                Some(ascii_string(out))
            } else {
                None
            }
        },
        NbtValue::Byte(b) => {
            if numeric {
                if *b != 0 {
                    Some("true".to_owned())
                } else {
                    Some("false".to_owned())
                }
            } else {
                None
            }
        },
        _ => None,
    }
}

/// The properties of a compound (see `properties_of`).
pub fn parse_properties(es: &Vec<(String, NbtValue)>, numeric: bool) -> (r: Vec<(String, String)>)
    ensures
        r@.map_values(|p: (String, String)| (p.0@, p.1@)) == properties_of(es@, numeric),
        keys_sorted(properties_of(es@, numeric)),
{
    proof {
        lemma_properties_sorted(es@, numeric);
    }
    let mut out: Vec<(String, String)> = Vec::new();
    let mut i: usize = 0;
    while i < es.len()
        invariant
            i <= es.len(),
            out@.map_values(|p: (String, String)| (p.0@, p.1@)) == properties_of(es@.take(i as int), numeric),
        decreases es.len() - i,
    {
        proof {
            assert(es@.take(i + 1).drop_last() =~= es@.take(i as int));
            assert(es@.take(i + 1).last() == es@[i as int]);
        }
        match property_value(&es[i].1, numeric) {
            Some(t) => {
                let k = es[i].0.clone();
                insert_property(&mut out, k, t);
            },
            None => {},
        }
        i = i + 1;
    }
    proof {
        assert(es@.take(es.len() as int) =~= es@);
    }
    out
}

/// The state a palette entry compound stands for (see `parse_palette_entry`).
pub open spec fn entry_view(v: NbtValue, name_key: Seq<char>, props_key: Seq<char>, numeric: bool) -> crate::model::BlockView {
    let es = v->Compound_0@;
    (
        if has_key(es, name_key) && value_of(es, name_key) is String {
            (value_of(es, name_key)->String_0)@
        } else {
            "minecraft:air"@
        },
        if has_key(es, props_key) && value_of(es, props_key) is Compound {
            properties_of((value_of(es, props_key)->Compound_0)@, numeric)
        } else {
            Seq::empty()
        },
    )
}

/// The block state of a palette entry: a compound whose `name_key` entry, a
/// string, names the block (air where there is none) and whose `props_key`
/// entry, a compound, holds its properties (see `properties_of`). An entry
/// that is not a compound is a format error.
pub fn parse_palette_entry(v: &NbtValue, name_key: &str, props_key: &str, numeric: bool) -> (r: Result<BlockData, SchematicError>)
    ensures
        match r {
            Ok(b) => v is Compound && b@ == entry_view(*v, name_key@, props_key@, numeric),
            Err(e) => !(v is Compound) && e == SchematicError::Format,
        },
{
    let es = match v {
        NbtValue::Compound(es) => es,
        _ => {
            return Err(SchematicError::Format);
        },
    };
    let name = match find_entry(es, name_key) {
        Some(i) => match &es[i].1 {
            NbtValue::String(s) => s.clone(),
            _ => "minecraft:air".to_owned(),
        },
        None => "minecraft:air".to_owned(),
    };
    let properties = match find_entry(es, props_key) {
        Some(i) => match &es[i].1 {
            NbtValue::Compound(c) => parse_properties(c, numeric),
            _ => Vec::new(),
        },
        None => Vec::new(),
    };
    let b = BlockData { name, properties };
    proof {
        if !(has_key(es@, props_key@) && value_of(es@, props_key@) is Compound) {
            assert(b@.1 =~= Seq::<(Seq<char>, Seq<char>)>::empty());
        }
    }
    Ok(b)
}

/// Keys strictly increase in text order.
pub open spec fn keys_sorted(ps: Seq<(Seq<char>, Seq<char>)>) -> bool {
    forall|a: int, b: int| 0 <= a < b < ps.len() ==> #[trigger] text_lt(ps[a].0, ps[b].0)
}

proof fn lemma_lt_irreflexive(a: Seq<u8>, i: int)
    requires
        0 <= i,
    ensures
        !lt_from(a, a, i),
    decreases a.len() - i,
{
    if i < a.len() {
        lemma_lt_irreflexive(a, i + 1);
    }
}

proof fn lemma_lt_total(a: Seq<u8>, b: Seq<u8>, i: int)
    requires
        0 <= i <= a.len(),
        i <= b.len(),
        a.subrange(0, i) == b.subrange(0, i),
        a != b,
    ensures
        lt_from(a, b, i) || lt_from(b, a, i),
    decreases a.len() - i,
{
    if i < a.len() && i < b.len() && a[i] == b[i] {
        assert(a.subrange(0, i + 1) =~= a.subrange(0, i).push(a[i]));
        assert(b.subrange(0, i + 1) =~= b.subrange(0, i).push(b[i]));
        lemma_lt_total(a, b, i + 1);
    } else if i == a.len() && i == b.len() {
        assert(a =~= a.subrange(0, i));
        assert(b =~= b.subrange(0, i));
    }
}

proof fn lemma_lt_transitive(a: Seq<u8>, b: Seq<u8>, c: Seq<u8>, i: int)
    requires
        0 <= i,
        lt_from(a, b, i),
        lt_from(b, c, i),
    ensures
        lt_from(a, c, i),
    decreases a.len() - i,
{
    if i < a.len() && i < b.len() && i < c.len() && a[i] == b[i] && b[i] == c[i] {
        lemma_lt_transitive(a, b, c, i + 1);
    }
}

proof fn lemma_text_order(x: Seq<char>, y: Seq<char>)
    requires
        x != y,
        !text_lt(x, y),
    ensures
        text_lt(y, x),
{
    vstd::utf8::encode_utf8_decode_utf8(x);
    vstd::utf8::encode_utf8_decode_utf8(y);
    assert(encode_utf8(x) != encode_utf8(y));
    assert(encode_utf8(x).subrange(0, 0) =~= encode_utf8(y).subrange(0, 0));
    lemma_lt_total(encode_utf8(x), encode_utf8(y), 0);
}

proof fn lemma_insert_pos(ps: Seq<(Seq<char>, Seq<char>)>, k: Seq<char>, j: int)
    requires
        0 <= j <= ps.len(),
    ensures
        j <= insert_pos(ps, k, j) <= ps.len(),
        forall|m: int| j <= m < insert_pos(ps, k, j) ==> text_lt(#[trigger] ps[m].0, k),
        insert_pos(ps, k, j) < ps.len() ==> !text_lt(ps[insert_pos(ps, k, j)].0, k),
    decreases ps.len() - j,
{
    if j < ps.len() && text_lt(ps[j].0, k) {
        lemma_insert_pos(ps, k, j + 1);
    }
}

/// Inserting into properties kept in key order keeps them in key order.
pub proof fn lemma_insert_prop_sorted(ps: Seq<(Seq<char>, Seq<char>)>, k: Seq<char>, v: Seq<char>)
    requires
        keys_sorted(ps),
    ensures
        keys_sorted(insert_prop(ps, k, v)),
{
    let j = insert_pos(ps, k, 0);
    lemma_insert_pos(ps, k, 0);
    let r = insert_prop(ps, k, v);
    if j < ps.len() && ps[j].0 == k {
        assert forall|a: int, b: int| 0 <= a < b < r.len() implies #[trigger] text_lt(r[a].0, r[b].0) by {
            assert(text_lt(ps[a].0, ps[b].0));
        }
    } else {
        if j < ps.len() {
            lemma_text_order(ps[j].0, k);
        }
        assert forall|a: int, b: int| 0 <= a < b < r.len() implies #[trigger] text_lt(r[a].0, r[b].0) by {
            if b < j {
                assert(text_lt(ps[a].0, ps[b].0));
            } else if b == j {
                assert(r[b].0 == k);
                assert(r[a] == ps[a]);
            } else if a == j {
                assert(r[b] == ps[b - 1]);
                if b - 1 > j {
                    assert(text_lt(ps[j].0, ps[b - 1].0));
                    lemma_lt_transitive(encode_utf8(k), encode_utf8(ps[j].0), encode_utf8(ps[b - 1].0), 0);
                }
            } else if a < j {
                assert(r[b] == ps[b - 1]);
                assert(r[a] == ps[a]);
                if a < b - 1 {
                    assert(text_lt(ps[a].0, ps[b - 1].0));
                } else {
                    assert(a == b - 1);
                    assert(text_lt(ps[a].0, k));
                    lemma_lt_irreflexive(encode_utf8(k), 0);
                }
            } else {
                assert(r[a] == ps[a - 1]);
                assert(r[b] == ps[b - 1]);
                assert(text_lt(ps[a - 1].0, ps[b - 1].0));
            }
        }
    }
}

/// The properties read from a compound are in key order, each key once.
pub proof fn lemma_properties_sorted(es: Seq<(String, NbtValue)>, numeric: bool)
    ensures
        keys_sorted(properties_of(es, numeric)),
    decreases es.len(),
{
    if es.len() > 0 {
        lemma_properties_sorted(es.drop_last(), numeric);
        match property_text(es.last().1, numeric) {
            Some(t) => lemma_insert_prop_sorted(properties_of(es.drop_last(), numeric), es.last().0@, t),
            None => {},
        }
    }
}

} // verus!
