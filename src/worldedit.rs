//! The WorldEdit (Sponge) format: block states written as text, varint
//! block data, and its two container revisions.
use vstd::prelude::*;
use vstd::utf8::encode_utf8;
use crate::error::SchematicError;
use crate::formats::{decode_we_blocks, encode_we_blocks};
use crate::palette::{bbox_of, build_palette, bounding_box, is_palette_of, palette_of};
use crate::formats::is_grid_of;
use crate::varint::varint_stream;
use crate::le_io::string_from_utf8;
use crate::model::{BlockData, BlockPos, BlockStatePos, BlockStatePosList, EntitiesList, SchematicData, Size, TileEntitiesList};
use crate::nbt::NbtValue;
use crate::nbt_access::{find_entry, get_byte_array, get_compound, get_i16, has_key, value_of};
use crate::grid::{cell_pos, Dims, GridOrder};
use crate::varint::decode_stream;

verus! {

/// A text with leading and trailing whitespace removed.
pub uninterp spec fn trimmed(s: Seq<char>) -> Seq<char>;

/// Relies on `str::trim`: the text without leading and trailing whitespace.
#[verifier::external_body]
fn trim_text(s: &str) -> (r: String)
    ensures
        r@ == trimmed(s@),
{
    s.trim().to_string()
}

/// The first index at or after `from` where `b` holds `c`, if any.
pub(crate) fn find_byte(b: &[u8], c: u8, from: usize) -> (r: Option<usize>)
    requires
        from <= b.len(),
    ensures
        match r {
            Some(i) => from <= i < b.len() && b@[i as int] == c && forall|j: int| from <= j < i ==> b@[j] != c,
            None => forall|j: int| from <= j < b.len() ==> b@[j] != c,
        },
{
    let mut i = from;
    while i < b.len()
        invariant
            from <= i <= b.len(),
            forall|j: int| from <= j < i ==> b@[j] != c,
        decreases b.len() - i,
    {
        if b[i] == c {
            return Some(i);
        }
        i = i + 1;
    }
    None
}

/// The text of bytes `from..to`, or a format error where they are not UTF-8.
pub(crate) fn text_of(b: &[u8], from: usize, to: usize) -> (r: Result<String, SchematicError>)
    requires
        from <= to <= b.len(),
    ensures
        r matches Ok(s) ==> encode_utf8(s@) == b@.subrange(from as int, to as int),
        r matches Err(e) ==> e == SchematicError::Format,
        vstd::utf8::valid_utf8(b@.subrange(from as int, to as int)) ==> r is Ok,
{
    let mut v: Vec<u8> = Vec::new();
    let mut i = from;
    while i < to
        invariant
            from <= i <= to,
            to <= b.len(),
            v@ == b@.subrange(from as int, i as int),
        decreases to - i,
    {
        v.push(b[i]);
        proof {
            assert(v@ =~= b@.subrange(from as int, i + 1));
        }
        i = i + 1;
    }
    let ghost raw = v@;
    match string_from_utf8(v) {
        Some(s) => {
            proof {
                vstd::utf8::decode_utf8_encode_utf8(raw);
            }
            Ok(s)
        },
        None => Err(SchematicError::Format),
    }
}

/// The first index from `from` on where `b` holds `c`, or the length.
pub open spec fn first_from(b: Seq<u8>, c: u8, from: int) -> int
    decreases b.len() - from,
{
    if from < 0 || from >= b.len() {
        b.len() as int
    } else if b[from] == c {
        from
    } else {
        first_from(b, c, from + 1)
    }
}

proof fn lemma_first_from(b: Seq<u8>, c: u8, from: int, i: int)
    requires
        0 <= from <= i <= b.len(),
        forall|j: int| from <= j < i ==> b[j] != c,
        i == b.len() || b[i] == c,
    ensures
        first_from(b, c, from) == i,
    decreases i - from,
{
    if from < i {
        lemma_first_from(b, c, from + 1, i);
    }
}

/// The properties text `b[start..end]` is `key=value` pairs joined by commas,
/// each with its `=`.
pub open spec fn props_parse_ok(b: Seq<u8>, start: int, end: int) -> bool
    decreases end - start,
{
    let fc = first_from(b, 44u8, start);
    let comma = if fc < end { fc } else { end };
    let eq = first_from(b, 61u8, start);
    &&& 0 <= start <= end
    &&& eq < comma
    &&& (comma >= end || (comma >= start && props_parse_ok(b, comma + 1, end)))
}

/// A block-state text that parses: a name, optionally followed by `[`, then
/// `key=value` pairs joined by commas and a closing `]`.
pub open spec fn block_state_parses(t: Seq<char>) -> bool {
    let b = encode_utf8(t);
    let i = first_from(b, 91u8, 0);
    let end = if b.len() > i + 1 && b[b.len() - 1] == 93u8 { b.len() - 1 } else { b.len() as int };
    i >= b.len() || i + 1 >= end || props_parse_ok(b, i + 1, end)
}

/// A piece of valid UTF-8 cut just after and just before ASCII bytes is
/// valid UTF-8.
proof fn lemma_piece_valid(b: Seq<u8>, s: int, e: int)
    requires
        vstd::utf8::valid_utf8(b),
        0 <= s <= e <= b.len(),
        s == 0 || b[s - 1] < 128,
        e == b.len() || b[e] < 128,
    ensures
        vstd::utf8::valid_utf8(b.subrange(s, e)),
{
    let u = if s == 0 {
        b
    } else {
        vstd::utf8::is_char_boundary_iff_is_leading_byte(b, s - 1);
        vstd::utf8::valid_utf8_split(b, s - 1);
        let v = b.subrange(s - 1, b.len() as int);
        assert(v[0] == b[s - 1]);
        assert(vstd::utf8::pop_first_scalar(v) =~= b.subrange(s, b.len() as int));
        b.subrange(s, b.len() as int)
    };
    assert(u =~= b.subrange(s, b.len() as int));
    if e < b.len() {
        assert(u[e - s] == b[e]);
        vstd::utf8::is_char_boundary_iff_is_leading_byte(u, e - s);
        vstd::utf8::valid_utf8_split(u, e - s);
        assert(u.subrange(0, e - s) =~= b.subrange(s, e));
    } else {
        assert(u =~= b.subrange(s, e));
    }
}

/// Parses a block state written as `name` or `name[key=value,...]`; keys and
/// values are trimmed and kept in key order, and a property without `=` is
/// a format error.
pub fn parse_block_state(input: &str) -> (r: Result<BlockData, SchematicError>)
    ensures
        block_state_parses(input@) <==> r is Ok,
        r matches Err(e) ==> e == SchematicError::Format,
        r matches Ok(b) ==> {
            let t = encode_utf8(input@);
            let n = encode_utf8(b.name@);
            &&& n.len() <= t.len()
            &&& t.subrange(0, n.len() as int) == n
            &&& !n.contains(91u8)
            &&& n.len() < t.len() ==> t[n.len() as int] == 91u8
            &&& crate::palette_entry::keys_sorted(b@.1)
        },
{
    let b = input.as_bytes();
    let ghost t = b@;
    proof {
        vstd::utf8::encode_utf8_valid_utf8(input@);
    }
    let (head_end, props_start, props_end) = match find_byte(b, 91, 0) {
        Some(i) => {
            proof {
                lemma_first_from(t, 91u8, 0, i as int);
            }
            let end = if b.len() > i + 1 && b[b.len() - 1] == 93 { b.len() - 1 } else { b.len() };
            (i, i + 1, end)
        },
        None => {
            proof {
                lemma_first_from(t, 91u8, 0, t.len() as int);
            }
            (b.len(), b.len(), b.len())
        },
    };
    proof {
        lemma_piece_valid(t, 0, head_end as int);
    }
    let name = text_of(b, 0, head_end)?;
    let mut properties: Vec<(String, String)> = Vec::new();
    if props_start < props_end {
        let mut start = props_start;
        loop
            invariant
                props_parse_ok(t, props_start as int, props_end as int) == props_parse_ok(t, start as int, props_end as int),
                t == b@,
                t == encode_utf8(input@),
                first_from(t, 91u8, 0) < t.len(),
                props_start as int == first_from(t, 91u8, 0) + 1,
                props_end as int == (if t.len() > props_start && t[t.len() - 1] == 93u8 { t.len() - 1 } else { t.len() as int }),
                vstd::utf8::valid_utf8(t),
                props_start <= start <= props_end,
                props_end <= b.len(),
                props_start >= 1 && t[props_start - 1] == 91u8,
                start == props_start || t[start - 1] == 44u8,
                props_end == b.len() || t[props_end as int] == 93u8,
                props_start < props_end,
                crate::palette_entry::keys_sorted(properties@.map_values(|p: (String, String)| (p.0@, p.1@))),
            ensures
                props_parse_ok(t, props_start as int, props_end as int),
            decreases props_end - start,
        {
            let comma = match find_byte(b, 44, start) {
                Some(c) => {
                    proof {
                        lemma_first_from(t, 44u8, start as int, c as int);
                    }
                    if c < props_end { c } else { props_end }
                },
                None => {
                    proof {
                        lemma_first_from(t, 44u8, start as int, t.len() as int);
                    }
                    props_end
                },
            };
            let eq = match find_byte(b, 61, start) {
                Some(e) => {
                    proof {
                        lemma_first_from(t, 61u8, start as int, e as int);
                    }
                    if e < comma { e } else {
                        proof {
                            assert(!props_parse_ok(t, start as int, props_end as int));
                            assert(!block_state_parses(input@));
                        }
                        return Err(SchematicError::Format);
                    }
                },
                None => {
                    proof {
                        lemma_first_from(t, 61u8, start as int, t.len() as int);
                        assert(!props_parse_ok(t, start as int, props_end as int));
                        assert(!block_state_parses(input@));
                    }
                    return Err(SchematicError::Format);
                },
            };
            proof {
                lemma_piece_valid(t, start as int, eq as int);
                lemma_piece_valid(t, eq + 1, comma as int);
            }
            let key = text_of(b, start, eq)?;
            let value = text_of(b, eq + 1, comma)?;
            let ghost before = properties@.map_values(|p: (String, String)| (p.0@, p.1@));
            let tk = trim_text(key.as_str());
            let tv = trim_text(value.as_str());
            let ghost (kv, vv) = (tk@, tv@);
            crate::palette_entry::insert_property(&mut properties, tk, tv);
            proof {
                crate::palette_entry::lemma_insert_prop_sorted(before, kv, vv);
            }
            if comma >= props_end {
                proof {
                    assert(props_parse_ok(t, start as int, props_end as int));
                }
                break;
            }
            proof {
                assert(props_parse_ok(t, start as int, props_end as int) == props_parse_ok(t, comma + 1, props_end as int));
                assert(t[comma as int] == 44u8);
            }
            start = comma + 1;
        }
    }
    Ok(BlockData { name, properties })
}

/// A block state as text: its name, then its properties as
/// `[key=value,...]` when it has any.
pub open spec fn state_text(b: crate::model::BlockView) -> Seq<u8> {
    if b.1.len() == 0 {
        encode_utf8(b.0)
    } else {
        encode_utf8(b.0) + seq![91u8] + props_text(b.1) + seq![93u8]
    }
}

/// Properties as `key=value` joined by commas.
pub open spec fn props_text(ps: Seq<(Seq<char>, Seq<char>)>) -> Seq<u8>
    decreases ps.len(),
{
    if ps.len() == 0 {
        seq![]
    } else if ps.len() == 1 {
        encode_utf8(ps[0].0) + seq![61u8] + encode_utf8(ps[0].1)
    } else {
        props_text(ps.drop_last()) + seq![44u8] + (encode_utf8(ps.last().0) + seq![61u8] + encode_utf8(ps.last().1))
    }
}

fn push_str_bytes(out: &mut Vec<u8>, s: &String)
    ensures
        final(out)@ == old(out)@ + encode_utf8(s@),
{
    let raw = s.as_str().as_bytes();
    crate::le_io::write_bytes(out, raw);
}

/// The text of a block state (see `state_text`).
pub fn block_to_string(b: &BlockData) -> (r: String)
    ensures
        encode_utf8(r@) == state_text(b@),
{
    let mut out: Vec<u8> = Vec::new();
    push_str_bytes(&mut out, &b.name);
    if b.properties.len() > 0 {
        out.push(91);
        let ghost head = out@;
        let mut i: usize = 0;
        while i < b.properties.len()
            invariant
                i <= b.properties.len(),
                out@ == head + props_text(b@.1.take(i as int)),
            decreases b.properties.len() - i,
        {
            proof {
                assert(b@.1.take(i + 1).drop_last() =~= b@.1.take(i as int));
                assert(b@.1.take(i + 1).last() == b@.1[i as int]);
            }
            if i > 0 {
                out.push(44);
            }
            push_str_bytes(&mut out, &b.properties[i].0);
            out.push(61);
            push_str_bytes(&mut out, &b.properties[i].1);
            proof {
                if i == 0 {
                    assert(out@ =~= head + props_text(b@.1.take(i + 1)));
                } else {
                    assert(out@ =~= head + props_text(b@.1.take(i + 1)));
                }
            }
            i = i + 1;
        }
        out.push(93);
        proof {
            assert(b@.1.take(b.properties.len() as int) =~= b@.1);
        }
    }
    let ghost raw = out@;
    proof {
        assert(raw =~= state_text(b@));
    }
    match string_from_utf8(out) {
        Some(s) => {
            proof {
                lemma_state_text_valid(b@);
                vstd::utf8::decode_utf8_encode_utf8(raw);
            }
            s
        },
        None => {
            proof {
                lemma_state_text_valid(b@);
            }
            String::new()
        },
    }
}

proof fn lemma_props_text_valid(ps: Seq<(Seq<char>, Seq<char>)>)
    ensures
        vstd::utf8::valid_utf8(props_text(ps)),
    decreases ps.len(),
{
    if ps.len() == 0 {
        assert(vstd::utf8::valid_utf8(Seq::<u8>::empty()));
    } else {
        let k = encode_utf8(ps.last().0);
        let v = encode_utf8(ps.last().1);
        vstd::utf8::encode_utf8_valid_utf8(ps.last().0);
        vstd::utf8::encode_utf8_valid_utf8(ps.last().1);
        lemma_one_ascii(61u8);
        vstd::utf8::valid_utf8_concat(k, seq![61u8]);
        vstd::utf8::valid_utf8_concat(k + seq![61u8], v);
        if ps.len() == 1 {
            assert(ps.last() == ps[0]);
        } else {
            lemma_props_text_valid(ps.drop_last());
            lemma_one_ascii(44u8);
            vstd::utf8::valid_utf8_concat(props_text(ps.drop_last()), seq![44u8]);
            vstd::utf8::valid_utf8_concat(props_text(ps.drop_last()) + seq![44u8], k + seq![61u8] + v);
        }
    }
}

proof fn lemma_one_ascii(c: u8)
    requires
        c < 128,
    ensures
        vstd::utf8::valid_utf8(seq![c]),
{
    crate::text::lemma_ascii_valid(seq![c]);
}

proof fn lemma_state_text_valid(b: crate::model::BlockView)
    ensures
        vstd::utf8::valid_utf8(state_text(b)),
{
    let n = encode_utf8(b.0);
    vstd::utf8::encode_utf8_valid_utf8(b.0);
    if b.1.len() > 0 {
        lemma_props_text_valid(b.1);
        lemma_one_ascii(91u8);
        lemma_one_ascii(93u8);
        vstd::utf8::valid_utf8_concat(n, seq![91u8]);
        vstd::utf8::valid_utf8_concat(n + seq![91u8], props_text(b.1));
        vstd::utf8::valid_utf8_concat(n + seq![91u8] + props_text(b.1), seq![93u8]);
    }
}

/// The container revision of a WorldEdit root: 1 where a `Schematic`
/// compound holds the fields, 0 otherwise.
pub open spec fn we_revision(root: Seq<(String, NbtValue)>) -> int {
    if has_key(root, "Schematic"@) && value_of(root, "Schematic"@) is Compound {
        1
    } else {
        0
    }
}

/// The compound that holds the fields of a WorldEdit root.
pub open spec fn we_container(root: Seq<(String, NbtValue)>) -> Seq<(String, NbtValue)> {
    if we_revision(root) == 1 {
        (value_of(root, "Schematic"@)->Compound_0)@
    } else {
        root
    }
}

/// The compound that holds palette and data.
pub open spec fn we_blocks_holder(root: Seq<(String, NbtValue)>) -> Seq<(String, NbtValue)> {
    if we_revision(root) == 1 {
        (value_of(we_container(root), "Blocks"@)->Compound_0)@
    } else {
        we_container(root)
    }
}

/// The palette compound of a WorldEdit root.
pub open spec fn we_palette(root: Seq<(String, NbtValue)>) -> Seq<(String, NbtValue)> {
    (value_of(we_blocks_holder(root), "Palette"@)->Compound_0)@
}

/// The varint bytes of a WorldEdit root: `Data` in revision 1, `BlockData`
/// in revision 0.
pub open spec fn we_bytes(root: Seq<(String, NbtValue)>) -> Seq<u8> {
    let key = if we_revision(root) == 1 { "Data"@ } else { "BlockData"@ };
    (value_of(we_blocks_holder(root), key)->ByteArray_0)@.map_values(|b: i8| b as u8)
}

/// The extents stored in a WorldEdit root.
pub open spec fn we_dims(root: Seq<(String, NbtValue)>) -> (int, int, int) {
    let c = we_container(root);
    (
        (value_of(c, "Width"@)->Short_0) as int,
        (value_of(c, "Height"@)->Short_0) as int,
        (value_of(c, "Length"@)->Short_0) as int,
    )
}

/// A WorldEdit root that decodes: `Width`, `Height`, `Length` shorts; the
/// palette compound and the block data of its revision; palette entries whose
/// texts parse and whose numbers are `Int`s below the palette length; for a
/// positive box that can be addressed, block data of one varint per cell,
/// each a number some entry carries; for another box, no block data.
pub open spec fn we_ok(root: Seq<(String, NbtValue)>) -> bool {
    let c = we_container(root);
    let h = we_blocks_holder(root);
    let pal = we_palette(root);
    let key = if we_revision(root) == 1 { "Data"@ } else { "BlockData"@ };
    let (w, hh, l) = we_dims(root);
    let ids = decode_stream(we_bytes(root)).unwrap();
    &&& has_key(c, "Length"@) && value_of(c, "Length"@) is Short
    &&& has_key(c, "Width"@) && value_of(c, "Width"@) is Short
    &&& has_key(c, "Height"@) && value_of(c, "Height"@) is Short
    &&& we_revision(root) == 1 ==> has_key(c, "Blocks"@) && value_of(c, "Blocks"@) is Compound
    &&& has_key(h, "Palette"@) && value_of(h, "Palette"@) is Compound
    &&& has_key(h, key) && value_of(h, key) is ByteArray
    &&& forall|j: int| 0 <= j < pal.len() ==> block_state_parses((#[trigger] pal[j]).0@) && pal[j].1 is Int
        && 0 <= pal[j].1->Int_0 < pal.len()
    &&& (w > 0 && hh > 0 && l > 0) ==> {
        &&& crate::decode::region_fits(BlockPos { x: w as i32, y: hh as i32, z: l as i32 }, BlockPos { x: 0, y: 0, z: 0 })
        &&& decode_stream(we_bytes(root)) is Some
        &&& ids.len() == w * hh * l
        &&& forall|q: int| 0 <= q < ids.len() ==> #[trigger] ids[q] < pal.len()
            && exists|j: int| 0 <= j < pal.len() && (#[trigger] pal[j]).1 is Int && pal[j].1->Int_0 as int == ids[q] as int
    }
    &&& !(w > 0 && hh > 0 && l > 0) ==> we_bytes(root).len() == 0
}

/// Decodes a WorldEdit root compound, of either revision (see
/// `we_revision`). Palette entry `j` becomes state `j`; cell `c` of the box,
/// y outermost, then z, then x, becomes a block of the entry whose number is
/// the `c`-th varint of the block data. A malformed or truncated varint
/// stream is a format error, a number that no entry carries a lookup error.
pub fn we_get_blocks_pos(root: &Vec<(String, NbtValue)>) -> (r: Result<SchematicData, SchematicError>)
    ensures
        r matches Ok(d) ==> {
            let pal = we_palette(root@);
            let dims = Dims { w: d.size.width as usize, h: d.size.height as usize, l: d.size.length as usize };
            &&& d.blocks.wf()
            &&& value_of(we_container(root@), "Width"@) is Short && d.size.width == (value_of(we_container(root@), "Width"@)->Short_0) as i32
            &&& value_of(we_container(root@), "Height"@) is Short && d.size.height == (value_of(we_container(root@), "Height"@)->Short_0) as i32
            &&& value_of(we_container(root@), "Length"@) is Short && d.size.length == (value_of(we_container(root@), "Length"@)->Short_0) as i32
            &&& d.blocks.states@.len() == pal.len()
            &&& (d.size.width > 0 && d.size.height > 0 && d.size.length > 0) ==> {
                let ids = decode_stream(we_bytes(root@)).unwrap();
                &&& decode_stream(we_bytes(root@)) is Some
                &&& ids.len() == dims.cells()
                &&& d.blocks.elements@.len() == ids.len()
                &&& forall|c: int| 0 <= c < ids.len() ==> {
                    let e = #[trigger] d.blocks.elements@[c];
                    &&& e.pos == BlockPos {
                        x: cell_pos(GridOrder::YZX, dims, c).0 as i32,
                        y: cell_pos(GridOrder::YZX, dims, c).1 as i32,
                        z: cell_pos(GridOrder::YZX, dims, c).2 as i32,
                    }
                    &&& e.state < pal.len()
                    &&& pal[e.state as int].1 == NbtValue::Int(ids[c] as i32)
                }
            }
        },
        r matches Err(e) ==> e != SchematicError::Configuration,
        we_ok(root@) ==> r is Ok,
{
    let (container, revision) = match find_entry(root, "Schematic") {
        Some(i) => match &root[i].1 {
            NbtValue::Compound(c) => (c, 1u8),
            _ => (root, 0u8),
        },
        None => (root, 0u8),
    };
    proof {
        assert(container@ == we_container(root@));
        assert(revision as int == we_revision(root@));
    }
    let length = get_i16(container, "Length")?;
    let width = get_i16(container, "Width")?;
    let height = get_i16(container, "Height")?;
    let (palette, data) = if revision == 1 {
        let blocks = get_compound(container, "Blocks")?;
        (get_compound(blocks, "Palette")?, get_byte_array(blocks, "Data")?)
    } else {
        (get_compound(container, "Palette")?, get_byte_array(container, "BlockData")?)
    };
    proof {
        assert(palette@ == we_palette(root@));
    }
    let n = palette.len();
    let none: usize = usize::MAX;
    let mut list = BlockStatePosList::new();
    let mut table: Vec<usize> = Vec::new();
    let mut k: usize = 0;
    while k < n
        invariant
            k <= n,
            table.len() == k,
            forall|m: int| 0 <= m < k ==> #[trigger] table@[m] == none,
        decreases n - k,
    {
        table.push(none);
        k = k + 1;
    }
    let mut k: usize = 0;
    while k < n
        invariant
            list.wf(),
            list.elements@.len() == 0,
            list.states.len() == k,
            k <= n,
            n == palette.len(),
            table.len() == n,
            forall|m: int| 0 <= m < n ==> #[trigger] table@[m] == none || (table@[m] < list.states.len()
                && palette@[table@[m] as int].1 == NbtValue::Int(m as i32)),
            palette@ == we_palette(root@),
            none == usize::MAX,
            forall|j: int| 0 <= j < k ==> (#[trigger] palette@[j]).1 is Int && 0 <= palette@[j].1->Int_0 < n
                && table@[palette@[j].1->Int_0 as int] != none,
        decreases n - k,
    {
        let b = parse_block_state(palette[k].0.as_str())?;
        let id = match &palette[k].1 {
            NbtValue::Int(id) => *id,
            _ => {
                return Err(SchematicError::TypeMismatch);
            },
        };
        if id < 0 || id as usize >= n {
            return Err(SchematicError::Lookup);
        }
        let s = list.add_state(b);
        let ghost tb = table@;
        table.set(id as usize, s);
        proof {
            assert(palette@[k as int].1 == NbtValue::Int(id));
            assert(s == k);
            assert(table@[id as int] == s);
            assert forall|j: int| 0 <= j < k + 1 implies (#[trigger] palette@[j]).1 is Int && 0 <= palette@[j].1->Int_0 < n
                && table@[palette@[j].1->Int_0 as int] != none by {
                if j < k {
                    let x = palette@[j].1->Int_0 as int;
                    assert(tb[x] != none);
                    if x == id as int {
                        assert(table@[x] == s);
                    } else {
                        assert(table@[x] == tb[x]);
                    }
                }
            }
        }
        k = k + 1;
    }
    let mut bytes: Vec<u8> = Vec::new();
    let mut j: usize = 0;
    while j < data.len()
        invariant
            j <= data.len(),
            bytes@ == data@.take(j as int).map_values(|b: i8| b as u8),
        decreases data.len() - j,
    {
        bytes.push(data[j] as u8);
        proof {
            assert(bytes@ =~= data@.take(j + 1).map_values(|b: i8| b as u8));
        }
        j = j + 1;
    }
    proof {
        assert(data@.take(data.len() as int) =~= data@);
        assert(bytes@ == we_bytes(root@));
    }
    let size = Size { width: width as i32, height: height as i32, length: length as i32 };
    if width > 0 && height > 0 && length > 0 {
        let d = match crate::decode::region_dims(BlockPos { x: width as i32, y: height as i32, z: length as i32 }, BlockPos { x: 0, y: 0, z: 0 })? {
            Some(d) => d,
            None => {
                return Err(SchematicError::Format);
            },
        };
        let cells = decode_we_blocks(&bytes, n, d, BlockPos { x: 0, y: 0, z: 0 })?;
        let ghost ids = decode_stream(bytes@).unwrap();
        let mut c: usize = 0;
        while c < cells.len()
            invariant
                list.wf(),
                n == palette.len(),
                n == list.states.len(),
                table.len() == n,
                forall|m: int| 0 <= m < n ==> #[trigger] table@[m] == none || (table@[m] < list.states.len()
                    && palette@[table@[m] as int].1 == NbtValue::Int(m as i32)),
                forall|m: int| 0 <= m < cells.len() ==> (#[trigger] cells@[m]).state < n,
                cells.len() == d.cells(),
                ids.len() == d.cells(),
                forall|m: int| 0 <= m < d.cells() ==> #[trigger] cells@[m] == (BlockStatePos {
                    pos: BlockPos {
                        x: (0 + cell_pos(GridOrder::YZX, d, m).0) as i32,
                        y: (0 + cell_pos(GridOrder::YZX, d, m).1) as i32,
                        z: (0 + cell_pos(GridOrder::YZX, d, m).2) as i32,
                    },
                    state: ids[m] as usize,
                }),
                c <= cells.len(),
                palette@ == we_palette(root@),
                bytes@ == we_bytes(root@),
                ids == decode_stream(bytes@).unwrap(),
                forall|j: int| 0 <= j < n ==> (#[trigger] palette@[j]).1 is Int && 0 <= palette@[j].1->Int_0 < n
                    && table@[palette@[j].1->Int_0 as int] != none,
                list.elements@.len() == c,
                forall|m: int| 0 <= m < c ==> {
                    let e = #[trigger] list.elements@[m];
                    &&& e.pos == cells@[m].pos
                    &&& e.state < n
                    &&& palette@[e.state as int].1 == NbtValue::Int(ids[m] as i32)
                },
            decreases cells.len() - c,
        {
            let cell = cells[c];
            let s = table[cell.state];
            if s == none {
                proof {
                    if we_ok(root@) {
                        let ids2 = decode_stream(we_bytes(root@)).unwrap();
                        assert(ids2 == ids);
                        assert(ids2[c as int] < palette.len());
                        let j = choose|j: int| 0 <= j < palette@.len() && (#[trigger] palette@[j]).1 is Int && palette@[j].1->Int_0 as int == ids2[c as int] as int;
                        assert(table@[palette@[j].1->Int_0 as int] != none);
                        assert(cell.state == ids[c as int] as usize);
                    }
                }
                return Err(SchematicError::Lookup);
            }
            proof {
                assert(cell.state == ids[c as int] as usize);
                assert((ids[c as int] as usize) as i32 == ids[c as int] as i32);
            }
            list.add_by_pos(cell.pos.x, cell.pos.y, cell.pos.z, s);
            c = c + 1;
        }
    } else if bytes.len() > 0 {
        return Err(SchematicError::Format);
    }
    Ok(SchematicData::new(
        list,
        TileEntitiesList { original_type: 3, elements: Vec::new() },
        EntitiesList { original_type: 3, elements: Vec::new() },
        size,
    ))
}

fn entry(key: &str, v: NbtValue) -> (r: (String, NbtValue))
    ensures
        r.0@ == key@,
        r.1 == v,
{
    (key.to_owned(), v)
}

/// `es` has blocks, and its bounding box fits the 16-bit extents.
pub open spec fn we_fits(es: Seq<BlockStatePos>) -> bool {
    let (w, h, l) = crate::bedrock::box_dims(es);
    &&& 0 < es.len() < 0xffff_fff0
    &&& w <= 0x7fff && h <= 0x7fff && l <= 0x7fff
    &&& w * h * l <= usize::MAX
}

/// The compound holding palette and block data in an encoded root.
pub open spec fn we_out_holder(es: Seq<(String, NbtValue)>, revision: i32) -> Seq<(String, NbtValue)> {
    if revision == 0 {
        es
    } else {
        ((((es[0].1)->Compound_0)@[0].1)->Compound_0)@
    }
}

/// The palette of an encoded root.
pub open spec fn we_out_palette(es: Seq<(String, NbtValue)>, revision: i32) -> NbtValue {
    if revision == 0 { es[6].1 } else { we_out_holder(es, revision)[0].1 }
}

/// The block data of an encoded root.
pub open spec fn we_out_data(es: Seq<(String, NbtValue)>, revision: i32) -> NbtValue {
    if revision == 0 { es[7].1 } else { we_out_holder(es, revision)[1].1 }
}

/// Encodes a model as a WorldEdit root compound of the given revision (0 or
/// 1): the palette in first-seen order with air added last when absent, each
/// cell of the bounding box as a varint of its palette number, air where no
/// block is. A model without blocks, one whose box does not fit the 16-bit
/// extents, or another revision is a format error.
pub fn we_schematic(list: &BlockStatePosList, revision: i32) -> (r: Result<Vec<(String, NbtValue)>, SchematicError>)
    requires
        list.wf(),
    ensures
        ((revision == 0 || revision == 1) && we_fits(list.elements@)) <==> r is Ok,
        r matches Err(e) ==> e == SchematicError::Format,
        r matches Ok(es) ==> {
            let pal = palette_of(list.blocks());
            let a = crate::encode::air_pos(pal);
            let (lo, hi) = bbox_of(list.elements@);
            let (w, h, l) = crate::bedrock::box_dims(list.elements@);
            let d = Dims { w: w as usize, h: h as usize, l: l as usize };
            let pt = we_out_palette(es@, revision);
            &&& pt is Compound
            &&& (pt->Compound_0)@.len() == pal.len() + (if a < pal.len() { 0int } else { 1int })
            &&& forall|k: int| 0 <= k < (pt->Compound_0)@.len() ==> {
                let en = #[trigger] (pt->Compound_0)@[k];
                &&& en.1 == NbtValue::Int(k as i32)
                &&& encode_utf8(en.0@) == state_text(if k < pal.len() { pal[k] } else { crate::encode::air_view() })
            }
            &&& we_out_data(es@, revision) is ByteArray
            &&& exists|grid: Seq<u32>, ids: Seq<u32>| #[trigger] is_grid_of(grid, list.elements@, ids, GridOrder::YZX, d, lo, a as u32)
                && ids.len() == list.elements@.len()
                && (forall|i: int| 0 <= i < ids.len() ==> #[trigger] ids[i] < pal.len() && pal[ids[i] as int] == list.block_at(i))
                && (we_out_data(es@, revision)->ByteArray_0)@.map_values(|b: i8| b as u8) == varint_stream(grid)
        },
{
    if revision != 0 && revision != 1 {
        return Err(SchematicError::Format);
    }
    let (lo, hi) = match bounding_box(&list.elements) {
        Some(b) => b,
        None => {
            return Err(SchematicError::Format);
        },
    };
    let w64: i64 = hi.x as i64 - lo.x as i64 + 1;
    let h64: i64 = hi.y as i64 - lo.y as i64 + 1;
    let l64: i64 = hi.z as i64 - lo.z as i64 + 1;
    if w64 > 0x7fff || h64 > 0x7fff || l64 > 0x7fff || list.elements.len() >= 0xffff_fff0 {
        return Err(SchematicError::Format);
    }
    proof {
        assert(lo.x <= hi.x && lo.y <= hi.y && lo.z <= hi.z) by {
            assert(lo.x <= list.elements@[0].pos.x <= hi.x);
        }
    }
    let (w, h, l) = (w64 as usize, h64 as usize, l64 as usize);
    proof {
        crate::bedrock::lemma_div_bound(w as int, h as int, usize::MAX as int);
    }
    if w > usize::MAX / h {
        proof {
            assert(w * h * l >= w * h) by (nonlinear_arith)
                requires
                    l >= 1,
                    w * h >= 0,
            ;
        }
        return Err(SchematicError::Format);
    }
    proof {
        crate::bedrock::lemma_div_bound((w * h) as int, l as int, usize::MAX as int);
    }
    if w * h > usize::MAX / l {
        return Err(SchematicError::Format);
    }
    let d = Dims { w, h, l };
    let p = build_palette(list);
    let ghost gpal = palette_of(list.blocks());
    proof {
        crate::palette::lemma_palette_len(list.blocks());
        crate::palette::lemma_palette_distinct(list.blocks());
    }
    let air = BlockData::new("minecraft:air".to_owned());
    let mut texts: Vec<String> = Vec::new();
    let mut air_index: usize = p.entries.len();
    let mut k: usize = 0;
    while k < p.entries.len()
        invariant
            is_palette_of(list, &p),
            list.wf(),
            k <= p.entries.len(),
            texts.len() == k,
            p.entries.len() <= list.elements.len(),
            list.elements.len() < 0xffff_fff0,
            air_index <= p.entries.len(),
            air@ == crate::encode::air_view(),
            gpal == palette_of(list.blocks()),
            air_index < p.entries.len() ==> air_index < k && gpal[air_index as int] == crate::encode::air_view(),
            air_index == p.entries.len() ==> forall|m: int| 0 <= m < k ==> gpal[m] != crate::encode::air_view(),
            forall|m: int| 0 <= m < k ==> encode_utf8((#[trigger] texts@[m])@) == state_text(gpal[m]),
        decreases p.entries.len() - k,
    {
        let st = &list.states[p.entries[k]];
        if air_index == p.entries.len() && st.same_as(&air) {
            air_index = k;
        }
        texts.push(block_to_string(st));
        k = k + 1;
    }
    proof {
        if air_index < p.entries.len() {
            assert(gpal.contains(crate::encode::air_view()));
            let c = choose|i: int| 0 <= i < gpal.len() && gpal[i] == crate::encode::air_view();
            assert(c == air_index);
        } else {
            assert(!gpal.contains(crate::encode::air_view()));
        }
        assert(air_index as int == crate::encode::air_pos(gpal));
    }
    if air_index == p.entries.len() {
        texts.push(block_to_string(&air));
    }
    let mut pal: Vec<(String, NbtValue)> = Vec::new();
    let mut k: usize = 0;
    while k < texts.len()
        invariant
            k <= texts.len(),
            texts.len() <= 0xffff_fff0,
            pal@.len() == k,
            forall|m: int| 0 <= m < k ==> (#[trigger] pal@[m]).1 == NbtValue::Int(m as i32) && pal@[m].0@ == texts@[m]@,
        decreases texts.len() - k,
    {
        pal.push((texts[k].clone(), NbtValue::Int(k as i32)));
        k = k + 1;
    }
    let (grid, bytes) = encode_we_blocks(&list.elements, &p.indices, lo, d, air_index as u32);
    let mut data: Vec<i8> = Vec::new();
    let mut j: usize = 0;
    while j < bytes.len()
        invariant
            j <= bytes.len(),
            data@.map_values(|b: i8| b as u8) == bytes@.take(j as int),
        decreases bytes.len() - j,
    {
        let bj = bytes[j];
        let ghost before = data@;
        data.push(bj as i8);
        proof {
            assert((bj as i8) as u8 == bj) by (bit_vector);
            assert(data@.map_values(|b: i8| b as u8) =~= before.map_values(|b: i8| b as u8).push(bj));
            assert(bytes@.take(j + 1) =~= bytes@.take(j as int).push(bj));
            assert(data@.map_values(|b: i8| b as u8) =~= bytes@.take(j + 1));
        }
        j = j + 1;
    }
    proof {
        assert(bytes@.take(bytes.len() as int) =~= bytes@);
        assert(is_grid_of(grid@, list.elements@, p.indices@, GridOrder::YZX, d, lo, air_index as u32));
        assert forall|i: int| 0 <= i < p.indices@.len() implies #[trigger] p.indices@[i] < gpal.len() && gpal[p.indices@[i] as int] == list.block_at(i) by {
            assert(p.indices@[i] < gpal.len());
        }
        assert(d == Dims { w: crate::bedrock::box_dims(list.elements@).0 as usize, h: crate::bedrock::box_dims(list.elements@).1 as usize, l: crate::bedrock::box_dims(list.elements@).2 as usize });
    }
    let palette_len = texts.len() as i32;
    if revision == 0 {
        Ok(vec![
            entry("PaletteMax", NbtValue::Int(palette_len)),
            entry("Version", NbtValue::Int(2)),
            entry("Length", NbtValue::Short(l64 as i16)),
            entry("Height", NbtValue::Short(h64 as i16)),
            entry("Width", NbtValue::Short(w64 as i16)),
            entry("DataVersion", NbtValue::Int(3465)),
            entry("Palette", NbtValue::Compound(pal)),
            entry("BlockData", NbtValue::ByteArray(data)),
            entry("BlockEntities", NbtValue::List(0, Vec::new())),
        ])
    } else {
        let blocks = NbtValue::Compound(vec![
            entry("Palette", NbtValue::Compound(pal)),
            entry("Data", NbtValue::ByteArray(data)),
            entry("BlockEntities", NbtValue::List(0, Vec::new())),
        ]);
        let schematic = NbtValue::Compound(vec![
            entry("Blocks", blocks),
            entry("Version", NbtValue::Int(3)),
            entry("Length", NbtValue::Short(l64 as i16)),
            entry("Height", NbtValue::Short(h64 as i16)),
            entry("Width", NbtValue::Short(w64 as i16)),
            entry("DataVersion", NbtValue::Int(3465)),
        ]);
        Ok(vec![entry("Schematic", schematic)])
    }
}

/// Splits a namespaced id at its first `:` into namespace and path; an id
/// without `:` is a format error.
pub fn extract_namespace(input: &str) -> (r: Result<(String, String), SchematicError>)
    ensures
        match r {
            Ok((ns, path)) => encode_utf8(ns@) + seq![58u8] + encode_utf8(path@) == encode_utf8(input@)
                && !encode_utf8(ns@).contains(58u8),
            Err(e) => e == SchematicError::Format && !encode_utf8(input@).contains(58u8),
        },
{
    let b = input.as_bytes();
    match find_byte(b, 58, 0) {
        Some(i) => {
            proof {
                let bs = b@;
                vstd::utf8::encode_utf8_valid_utf8(input@);
                vstd::utf8::is_char_boundary_iff_is_leading_byte(bs, i as int);
                vstd::utf8::valid_utf8_split(bs, i as int);
                let s2 = bs.subrange(i as int, bs.len() as int);
                assert(s2[0] == 58u8);
                assert(vstd::utf8::pop_first_scalar(s2) =~= bs.subrange(i + 1, bs.len() as int));
                assert(bs.subrange(0, i as int) =~= b@.subrange(0, i as int));
            }
            let ns = text_of(b, 0, i)?;
            let path = text_of(b, i + 1, b.len())?;
            proof {
                assert(encode_utf8(ns@) + seq![58u8] + encode_utf8(path@) =~= b@);
                if encode_utf8(ns@).contains(58u8) {
                    let j = choose|j: int| 0 <= j < encode_utf8(ns@).len() && encode_utf8(ns@)[j] == 58u8;
                    assert(b@[j] == 58u8);
                }
            }
            Ok((ns, path))
        },
        None => {
            proof {
                if b@.contains(58u8) {
                    let j = choose|j: int| 0 <= j < b@.len() && b@[j] == 58u8;
                    assert(b@[j] != 58u8);
                }
            }
            Err(SchematicError::Format)
        },
    }
}

} // verus!
