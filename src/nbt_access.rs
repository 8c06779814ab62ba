//! Typed lookups in compound tags, with the missing-field and type-mismatch
//! errors of a well-formed tree that lacks what a format needs.
use vstd::prelude::*;
use crate::error::SchematicError;
use crate::model::BlockPos;
use crate::nbt::NbtValue;

verus! {

/// Entry `i` is the first entry named `key`.
pub open spec fn first_with_key(es: Seq<(String, NbtValue)>, key: Seq<char>, i: int) -> bool {
    &&& 0 <= i < es.len()
    &&& es[i].0@ == key
    &&& forall|j: int| 0 <= j < i ==> (#[trigger] es[j]).0@ != key
}

/// Some entry is named `key`.
pub open spec fn has_key(es: Seq<(String, NbtValue)>, key: Seq<char>) -> bool {
    exists|i: int| 0 <= i < es.len() && (#[trigger] es[i]).0@ == key
}

/// The value of the first entry named `key`.
pub open spec fn value_of(es: Seq<(String, NbtValue)>, key: Seq<char>) -> NbtValue {
    es[choose|i: int| first_with_key(es, key, i)].1
}

pub proof fn lemma_first_unique(es: Seq<(String, NbtValue)>, key: Seq<char>, i: int)
    requires
        first_with_key(es, key, i),
    ensures
        value_of(es, key) == es[i].1,
        has_key(es, key),
{
    let j = choose|j: int| first_with_key(es, key, j);
    assert(first_with_key(es, key, j));
    if j < i {
        assert(es[j].0@ != key);
    } else if j > i {
        assert(es[i].0@ != key);
    }
}

/// The index of the first entry named `key`.
pub fn find_entry(es: &Vec<(String, NbtValue)>, key: &str) -> (r: Option<usize>)
    ensures
        match r {
            Some(i) => first_with_key(es@, key@, i as int) && value_of(es@, key@) == es@[i as int].1,
            None => !has_key(es@, key@),
        },
{
    let k = key.to_owned();
    let mut i: usize = 0;
    while i < es.len()
        invariant
            i <= es.len(),
            k@ == key@,
            forall|j: int| 0 <= j < i ==> (#[trigger] es@[j]).0@ != key@,
        decreases es.len() - i,
    {
        if es[i].0 == k {
            proof {
                lemma_first_unique(es@, key@, i as int);
            }
            return Some(i);
        }
        i = i + 1;
    }
    None
}

/// The value of the first entry named `key`, or a missing-field error.
pub fn get_value<'a>(es: &'a Vec<(String, NbtValue)>, key: &str) -> (r: Result<&'a NbtValue, SchematicError>)
    ensures
        match r {
            Ok(v) => has_key(es@, key@) && *v == value_of(es@, key@),
            Err(e) => !has_key(es@, key@) && e == SchematicError::MissingField,
        },
{
    match find_entry(es, key) {
        Some(i) => Ok(&es[i].1),
        None => Err(SchematicError::MissingField),
    }
}

/// What a typed getter promises: the first entry named `key` holds a value
/// of the expected shape, whose payload `ok` describes; a missing entry is a
/// missing-field error, one of another shape a type mismatch.
pub open spec fn got<T>(es: Seq<(String, NbtValue)>, key: Seq<char>, r: Result<T, SchematicError>, shape: bool, ok: bool) -> bool {
    match r {
        Ok(_) => has_key(es, key) && shape && ok,
        Err(e) => {
            ||| !has_key(es, key) && e == SchematicError::MissingField
            ||| has_key(es, key) && !shape && e == SchematicError::TypeMismatch
        },
    }
}

/// An `Int` entry.
pub fn get_i32(es: &Vec<(String, NbtValue)>, key: &str) -> (r: Result<i32, SchematicError>)
    ensures
        got(es@, key@, r, value_of(es@, key@) is Int, r matches Ok(x) ==> value_of(es@, key@) == NbtValue::Int(x)),
{
    match get_value(es, key)? {
        NbtValue::Int(x) => Ok(*x),
        _ => Err(SchematicError::TypeMismatch),
    }
}

/// A `Long` entry.
pub fn get_i64(es: &Vec<(String, NbtValue)>, key: &str) -> (r: Result<i64, SchematicError>)
    ensures
        got(es@, key@, r, value_of(es@, key@) is Long, r matches Ok(x) ==> value_of(es@, key@) == NbtValue::Long(x)),
{
    match get_value(es, key)? {
        NbtValue::Long(x) => Ok(*x),
        _ => Err(SchematicError::TypeMismatch),
    }
}

/// A `String` entry.
pub fn get_str<'a>(es: &'a Vec<(String, NbtValue)>, key: &str) -> (r: Result<&'a String, SchematicError>)
    ensures
        got(es@, key@, r, value_of(es@, key@) is String, r matches Ok(s) ==> value_of(es@, key@) == NbtValue::String(*s)),
{
    match get_value(es, key)? {
        NbtValue::String(s) => Ok(s),
        _ => Err(SchematicError::TypeMismatch),
    }
}

/// A `List` entry's items.
pub fn get_list<'a>(es: &'a Vec<(String, NbtValue)>, key: &str) -> (r: Result<&'a Vec<NbtValue>, SchematicError>)
    ensures
        got(es@, key@, r, value_of(es@, key@) is List, r matches Ok(l) ==> value_of(es@, key@)->List_1 == *l),
{
    match get_value(es, key)? {
        NbtValue::List(_, items) => Ok(items),
        _ => Err(SchematicError::TypeMismatch),
    }
}

/// A `Compound` entry's named tags.
pub fn get_compound<'a>(es: &'a Vec<(String, NbtValue)>, key: &str) -> (r: Result<&'a Vec<(String, NbtValue)>, SchematicError>)
    ensures
        got(es@, key@, r, value_of(es@, key@) is Compound, r matches Ok(c) ==> value_of(es@, key@) == NbtValue::Compound(*c)),
{
    match get_value(es, key)? {
        NbtValue::Compound(c) => Ok(c),
        _ => Err(SchematicError::TypeMismatch),
    }
}

/// A `LongArray` entry.
pub fn get_long_array<'a>(es: &'a Vec<(String, NbtValue)>, key: &str) -> (r: Result<&'a Vec<i64>, SchematicError>)
    ensures
        got(es@, key@, r, value_of(es@, key@) is LongArray, r matches Ok(a) ==> value_of(es@, key@) == NbtValue::LongArray(*a)),
{
    match get_value(es, key)? {
        NbtValue::LongArray(a) => Ok(a),
        _ => Err(SchematicError::TypeMismatch),
    }
}

/// Entry `key` is a compound of `Int` entries `x`, `y` and `z`.
pub open spec fn pos_ok(es: Seq<(String, NbtValue)>, key: Seq<char>) -> bool {
    &&& has_key(es, key) && value_of(es, key) is Compound
    &&& {
        let c = (value_of(es, key)->Compound_0)@;
        &&& has_key(c, "x"@) && value_of(c, "x"@) is Int
        &&& has_key(c, "y"@) && value_of(c, "y"@) is Int
        &&& has_key(c, "z"@) && value_of(c, "z"@) is Int
    }
}

/// A position stored as a compound of `Int` entries `x`, `y` and `z`.
pub fn get_pos(es: &Vec<(String, NbtValue)>, key: &str) -> (r: Result<BlockPos, SchematicError>)
    ensures
        pos_ok(es@, key@) ==> r is Ok,
        r matches Ok(p) ==> value_of(es@, key@) is Compound && {
            let c = value_of(es@, key@)->Compound_0@;
            &&& value_of(c, "x"@) == NbtValue::Int(p.x)
            &&& value_of(c, "y"@) == NbtValue::Int(p.y)
            &&& value_of(c, "z"@) == NbtValue::Int(p.z)
        },
        r matches Err(e) ==> e == SchematicError::MissingField || e == SchematicError::TypeMismatch,
{
    let c = get_compound(es, key)?;
    let x = get_i32(c, "x")?;
    let y = get_i32(c, "y")?;
    let z = get_i32(c, "z")?;
    Ok(BlockPos { x, y, z })
}

/// A `Short` entry.
pub fn get_i16(es: &Vec<(String, NbtValue)>, key: &str) -> (r: Result<i16, SchematicError>)
    ensures
        got(es@, key@, r, value_of(es@, key@) is Short, r matches Ok(x) ==> value_of(es@, key@) == NbtValue::Short(x)),
{
    match get_value(es, key)? {
        NbtValue::Short(x) => Ok(*x),
        _ => Err(SchematicError::TypeMismatch),
    }
}

/// A `ByteArray` entry.
pub fn get_byte_array<'a>(es: &'a Vec<(String, NbtValue)>, key: &str) -> (r: Result<&'a Vec<i8>, SchematicError>)
    ensures
        got(es@, key@, r, value_of(es@, key@) is ByteArray, r matches Ok(a) ==> value_of(es@, key@) == NbtValue::ByteArray(*a)),
{
    match get_value(es, key)? {
        NbtValue::ByteArray(a) => Ok(a),
        _ => Err(SchematicError::TypeMismatch),
    }
}

} // verus!
