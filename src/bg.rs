//! Sub-variant detection for the JSON-wrapped format: a best-effort sniff
//! over the text with whitespace removed.
use vstd::prelude::*;
use base64::Engine;
use vstd::utf8::encode_utf8;
use crate::error::SchematicError;
use crate::le_io::string_from_utf8;
use crate::decode::list_at;
use crate::grid::{cell_pos, index_to_pos, Dims, GridOrder};
use crate::model::{BlockPos, BlockStatePos, BlockStatePosList, EntitiesList, SchematicData, Size, TileEntitiesList};
use crate::nbt::NbtValue;
use crate::nbt_access::{find_entry, get_compound, get_i32, get_list, get_value, has_key, value_of};
use crate::palette_entry::{entry_view, parse_palette_entry};

verus! {

/// Whether a text parses as one JSON value.
pub uninterp spec fn json_parses(s: Seq<char>) -> bool;

/// A text with every whitespace character removed.
pub uninterp spec fn without_whitespace(s: Seq<char>) -> Seq<char>;

/// Relies on `serde_json::from_str`: whether the text is one JSON value; the
/// answer depends on the text alone.
#[verifier::external_body]
fn parses_as_json(s: &str) -> (r: bool)
    ensures
        r == json_parses(s@),
{
    serde_json::from_str::<serde_json::Value>(s).is_ok()
}

/// Relies on `str::split_whitespace`: the pieces between whitespace, joined.
#[verifier::external_body]
fn strip_whitespace(s: &str) -> (r: String)
    ensures
        r@ == without_whitespace(s@),
{
    s.split_whitespace().collect()
}

/// `p` occurs in `s`.
pub open spec fn has_sub(s: Seq<u8>, p: Seq<u8>) -> bool {
    exists|i: int| 0 <= i && i + p.len() <= s.len() && #[trigger] s.subrange(i, i + p.len()) == p
}

/// Whether `p` occurs in `s`.
pub fn contains_bytes(s: &[u8], p: &Vec<u8>) -> (r: bool)
    ensures
        r == has_sub(s@, p@),
{
    if p.len() > s.len() {
        return false;
    }
    let last = s.len() - p.len();
    let mut i: usize = 0;
    loop
        invariant_except_break
            i <= last,
            forall|j: int| 0 <= j < i ==> #[trigger] s@.subrange(j, j + p.len()) != p@,
        invariant
            last == s.len() - p.len(),
        ensures
            forall|j: int| 0 <= j <= last ==> #[trigger] s@.subrange(j, j + p.len()) != p@,
        decreases last - i,
    {
        let mut k: usize = 0;
        let mut same = true;
        while k < p.len()
            invariant
                i <= last,
                last == s.len() - p.len(),
                k <= p.len(),
                same ==> forall|m: int| 0 <= m < k ==> s@[i + m] == p@[m],
                !same ==> s@.subrange(i as int, i + p.len()) != p@,
            decreases p.len() - k,
        {
            if same && s[i + k] != p[k] {
                same = false;
                proof {
                    assert(s@.subrange(i as int, i + p.len())[k as int] != p@[k as int]);
                }
            }
            k = k + 1;
        }
        if same {
            proof {
                assert(s@.subrange(i as int, i + p.len()) =~= p@);
            }
            return true;
        }
        if i == last {
            break;
        }
        i = i + 1;
    }
    proof {
        assert forall|j: int| !(0 <= j && j + p.len() <= s.len() && #[trigger] s@.subrange(j, j + p.len()) == p@) by {
            if 0 <= j && j + p.len() <= s.len() {
                assert(j <= last);
            }
        }
    }
    false
}

pub open spec fn key_state_pos_array_list() -> Seq<u8> {
    seq![115u8, 116, 97, 116, 101, 80, 111, 115, 65, 114, 114, 97, 121, 76, 105, 115, 116]
}

pub open spec fn key_body() -> Seq<u8> {
    seq![98u8, 111, 100, 121]
}

pub open spec fn key_map_int_state() -> Seq<u8> {
    seq![109u8, 97, 112, 73, 110, 116, 83, 116, 97, 116, 101]
}

/// The sub-variant: a text that parses is variant 0 when it names
/// `statePosArrayList`, else 1 when it names `body`, else 0; a text that does
/// not parse is 1 when it names `body`, 2 when it names `mapIntState`, and
/// unrecognised otherwise.
pub open spec fn bg_type(parses: bool, compact: Seq<u8>) -> Result<i32, SchematicError> {
    if parses {
        if has_sub(compact, key_state_pos_array_list()) {
            Ok(0)
        } else if has_sub(compact, key_body()) {
            Ok(1)
        } else {
            Ok(0)
        }
    } else if has_sub(compact, key_body()) {
        Ok(1)
    } else if has_sub(compact, key_map_int_state()) {
        Ok(2)
    } else {
        Err(SchematicError::Format)
    }
}

/// The sub-variant of a text, given whether it parses as JSON and the text
/// with whitespace removed (see `bg_type`).
pub fn sniff_bg_type(parses: bool, compact: &str) -> (r: Result<i32, SchematicError>)
    ensures
        r == bg_type(parses, encode_utf8(compact@)),
{
    let b = compact.as_bytes();
    let state_list: Vec<u8> = vec![115, 116, 97, 116, 101, 80, 111, 115, 65, 114, 114, 97, 121, 76, 105, 115, 116];
    let body: Vec<u8> = vec![98, 111, 100, 121];
    let map_int_state: Vec<u8> = vec![109, 97, 112, 73, 110, 116, 83, 116, 97, 116, 101];
    proof {
        assert(state_list@ =~= key_state_pos_array_list());
        assert(body@ =~= key_body());
        assert(map_int_state@ =~= key_map_int_state());
    }
    if parses {
        if contains_bytes(b, &state_list) {
            Ok(0)
        } else if contains_bytes(b, &body) {
            Ok(1)
        } else {
            Ok(0)
        }
    } else if contains_bytes(b, &body) {
        Ok(1)
    } else if contains_bytes(b, &map_int_state) {
        Ok(2)
    } else {
        Err(SchematicError::Format)
    }
}

/// A file of the JSON-wrapped format, as text.
#[derive(Debug)]
pub struct BgSchematic {
    pub json: String,
}

impl BgSchematic {
    /// Takes the file's bytes; bytes that are not UTF-8 are a format error.
    pub fn new_from_data(data: Vec<u8>) -> (r: Result<BgSchematic, SchematicError>)
        ensures
            match r {
                Ok(s) => vstd::utf8::valid_utf8(data@) && s.json@ == vstd::utf8::decode_utf8(data@),
                Err(e) => !vstd::utf8::valid_utf8(data@) && e == SchematicError::Format,
            },
    {
        match string_from_utf8(data) {
            Some(json) => Ok(BgSchematic { json }),
            None => Err(SchematicError::Format),
        }
    }

    /// The sub-variant of this file (see `bg_type`).
    pub fn get_type(&self) -> (r: Result<i32, SchematicError>)
        ensures
            r == bg_type(json_parses(self.json@), encode_utf8(without_whitespace(self.json@))),
    {
        let parses = parses_as_json(self.json.as_str());
        let compact = strip_whitespace(self.json.as_str());
        sniff_bg_type(parses, compact.as_str())
    }
}

/// The `Int` entries `kx`, `ky`, `kz` of a compound, where all three are.
pub open spec fn xyz_of(es: Seq<(String, NbtValue)>, kx: Seq<char>, ky: Seq<char>, kz: Seq<char>) -> Option<BlockPos> {
    if has_key(es, kx) && value_of(es, kx) is Int && has_key(es, ky) && value_of(es, ky) is Int && has_key(es, kz)
        && value_of(es, kz) is Int {
        Some(BlockPos { x: value_of(es, kx)->Int_0, y: value_of(es, ky)->Int_0, z: value_of(es, kz)->Int_0 })
    } else {
        None
    }
}

fn get_xyz(es: &Vec<(String, NbtValue)>, kx: &str, ky: &str, kz: &str) -> (r: Result<BlockPos, SchematicError>)
    ensures
        match r {
            Ok(p) => xyz_of(es@, kx@, ky@, kz@) == Some(p),
            Err(e) => xyz_of(es@, kx@, ky@, kz@) is None && (e == SchematicError::MissingField || e == SchematicError::TypeMismatch),
        },
{
    let x = get_i32(es, kx)?;
    let y = get_i32(es, ky)?;
    let z = get_i32(es, kz)?;
    Ok(BlockPos { x, y, z })
}

/// A position stored as a compound `key` of `Int`s `X`, `Y`, `Z`.
pub open spec fn pos_at(es: Seq<(String, NbtValue)>, key: Seq<char>) -> Option<BlockPos> {
    if has_key(es, key) && value_of(es, key) is Compound {
        xyz_of((value_of(es, key)->Compound_0)@, "X"@, "Y"@, "Z"@)
    } else {
        None
    }
}

fn get_block_pos(es: &Vec<(String, NbtValue)>, key: &str) -> (r: Result<BlockPos, SchematicError>)
    ensures
        match r {
            Ok(p) => pos_at(es@, key@) == Some(p),
            Err(e) => pos_at(es@, key@) is None && (e == SchematicError::MissingField || e == SchematicError::TypeMismatch),
        },
{
    let c = get_compound(es, key)?;
    get_xyz(c, "X", "Y", "Z")
}

/// The corners a root of sub-variant `variant` stores: `startpos`/`endpos`
/// for 0; for 1, `minX`.. `maxZ` of `header.bounds`, or of `header` itself
/// where it has no `bounds` compound; `startPos`/`endPos` for 2.
pub open spec fn bg_corners(variant: i32, root: Seq<(String, NbtValue)>) -> Option<(BlockPos, BlockPos)> {
    let pair = |a: Option<BlockPos>, b: Option<BlockPos>| if a is Some && b is Some { Some((a.unwrap(), b.unwrap())) } else { None };
    if variant == 0 {
        pair(pos_at(root, "startpos"@), pos_at(root, "endpos"@))
    } else if variant == 1 {
        if has_key(root, "header"@) && value_of(root, "header"@) is Compound {
            let h = (value_of(root, "header"@)->Compound_0)@;
            let src = if has_key(h, "bounds"@) && value_of(h, "bounds"@) is Compound {
                (value_of(h, "bounds"@)->Compound_0)@
            } else {
                h
            };
            pair(xyz_of(src, "minX"@, "minY"@, "minZ"@), xyz_of(src, "maxX"@, "maxY"@, "maxZ"@))
        } else {
            None
        }
    } else if variant == 2 {
        pair(pos_at(root, "startPos"@), pos_at(root, "endPos"@))
    } else {
        None
    }
}

/// `|b - a + 1|` on each axis.
pub open spec fn extent(a: BlockPos, b: BlockPos) -> (int, int, int) {
    let f = |u: i32, v: i32| if v - u + 1 < 0 { -(v - u + 1) } else { v - u + 1 };
    (f(a.x, b.x), f(a.y, b.y), f(a.z, b.z))
}

fn axis_extent(u: i32, v: i32) -> (r: i64)
    ensures
        r == (if v - u + 1 < 0 { -(v - u + 1) } else { v - u + 1 }),
{
    let d = v as i64 - u as i64 + 1;
    if d < 0 { -d } else { d }
}

/// The size of a JSON-wrapped file of sub-variant `variant` (0, 1 or 2):
/// on each axis `|end - start + 1|` of the stored corners (see
/// `bg_corners`). Absent or mistyped corner fields are missing-field or
/// type-mismatch errors; another variant, or an extent beyond `i32`, a
/// format error.
pub fn bg_size(variant: i32, root: &Vec<(String, NbtValue)>) -> (r: Result<Size, SchematicError>)
    ensures
        match r {
            Ok(s) => bg_corners(variant, root@) is Some && {
                let (a, b) = bg_corners(variant, root@).unwrap();
                (s.width as int, s.height as int, s.length as int) == extent(a, b)
            },
            Err(e) => {
                ||| (0 <= variant <= 2 && bg_corners(variant, root@) is None
                    && (e == SchematicError::MissingField || e == SchematicError::TypeMismatch))
                ||| (e == SchematicError::Format && (!(0 <= variant <= 2) || (bg_corners(variant, root@) is Some && {
                    let (a, b) = bg_corners(variant, root@).unwrap();
                    let (w, h, l) = extent(a, b);
                    w > i32::MAX || h > i32::MAX || l > i32::MAX
                })))
            },
        },
{
    let (a, b) = if variant == 0 {
        (get_block_pos(root, "startpos")?, get_block_pos(root, "endpos")?)
    } else if variant == 1 {
        let header = get_compound(root, "header")?;
        let src = match find_entry(header, "bounds") {
            Some(i) => match &header[i].1 {
                NbtValue::Compound(c) => c,
                _ => header,
            },
            None => header,
        };
        (get_xyz(src, "minX", "minY", "minZ")?, get_xyz(src, "maxX", "maxY", "maxZ")?)
    } else if variant == 2 {
        (get_block_pos(root, "startPos")?, get_block_pos(root, "endPos")?)
    } else {
        return Err(SchematicError::Format);
    };
    let w = axis_extent(a.x, b.x);
    let h = axis_extent(a.y, b.y);
    let l = axis_extent(a.z, b.z);
    if w > 0x7fff_ffff || h > 0x7fff_ffff || l > 0x7fff_ffff {
        return Err(SchematicError::Format);
    }
    Ok(Size { width: w as i32, height: h as i32, length: l as i32 })
}

/// The `IntArray` entry `key` of a compound.
pub open spec fn ints_at(es: Seq<(String, NbtValue)>, key: Seq<char>) -> Seq<i32> {
    (value_of(es, key)->IntArray_0)@
}

fn get_int_array<'a>(es: &'a Vec<(String, NbtValue)>, key: &str) -> (r: Result<&'a Vec<i32>, SchematicError>)
    ensures
        r matches Ok(a) ==> has_key(es@, key@) && value_of(es@, key@) == NbtValue::IntArray(*a),
        r matches Err(e) ==> (e == SchematicError::MissingField || e == SchematicError::TypeMismatch)
            && !(has_key(es@, key@) && value_of(es@, key@) is IntArray),
{
    match get_value(es, key)? {
        NbtValue::IntArray(a) => Ok(a),
        _ => Err(SchematicError::TypeMismatch),
    }
}

/// The position packed in an `Int` of `posIntArray`, relative to the
/// stored start: x in bits 16..24, y in bits 8..16, z in bits 0..8.
pub open spec fn unpack_rel_pos(raw: i32) -> BlockPos {
    BlockPos {
        x: ((raw as u32 >> 16) & 0xff) as i32,
        y: ((raw as u32 >> 8) & 0xff) as i32,
        z: (raw as u32 & 0xff) as i32,
    }
}

/// The `mapState` compound of a `mapIntState` entry, as a palette entry.
pub open spec fn map_state_of(v: NbtValue) -> NbtValue {
    value_of(v->Compound_0@, "mapState"@)
}

/// A JSON-wrapped block tree that decodes: variant 0 or 2, corners present
/// and extents within `i32`; for variant 0 a `blockstatemap` list of
/// compounds, a positive box that can be addressed and a `statelist` with an
/// index inside the palette for every cell; for variant 2 `mapIntState`
/// compounds each with a `mapState` compound, and for every entry of
/// `stateIntArray` a position and a state in `1..=mapIntState.len()`.
pub open spec fn bg_ok(variant: i32, root: Seq<(String, NbtValue)>) -> bool {
    &&& variant == 0 || variant == 2
    &&& bg_corners(variant, root) is Some
    &&& {
        let (w, h, l) = extent(bg_corners(variant, root).unwrap().0, bg_corners(variant, root).unwrap().1);
        &&& w <= i32::MAX && h <= i32::MAX && l <= i32::MAX
        &&& variant == 0 ==> {
            let map = list_at(root, "blockstatemap"@);
            let sl = ints_at(root, "statelist"@);
            &&& has_key(root, "blockstatemap"@) && value_of(root, "blockstatemap"@) is List
            &&& has_key(root, "statelist"@) && value_of(root, "statelist"@) is IntArray
            &&& forall|j: int| 0 <= j < map.len() ==> (#[trigger] map[j]) is Compound
            &&& w >= 1 && h >= 1 && l >= 1
            &&& crate::decode::region_fits(BlockPos { x: w as i32, y: h as i32, z: l as i32 }, BlockPos { x: 0, y: 0, z: 0 })
            &&& sl.len() >= w * h * l
            &&& forall|k: int| 0 <= k < w * h * l ==> 0 <= #[trigger] sl[k] < map.len()
        }
        &&& variant == 2 ==> bg_v2_ok(root)
    }
}

/// The variant-2 part of `bg_ok`.
pub open spec fn bg_v2_ok(root: Seq<(String, NbtValue)>) -> bool {
    let map = list_at(root, "mapIntState"@);
    let st = ints_at(root, "stateIntArray"@);
    let ps = ints_at(root, "posIntArray"@);
    &&& has_key(root, "stateIntArray"@) && value_of(root, "stateIntArray"@) is IntArray
    &&& has_key(root, "mapIntState"@) && value_of(root, "mapIntState"@) is List
    &&& has_key(root, "posIntArray"@) && value_of(root, "posIntArray"@) is IntArray
    &&& forall|j: int| 0 <= j < map.len() ==> (#[trigger] map[j]) is Compound && has_key(map[j]->Compound_0@, "mapState"@)
        && map_state_of(map[j]) is Compound
    &&& st.len() <= ps.len()
    &&& forall|k: int| 0 <= k < st.len() ==> 1 <= #[trigger] st[k] && st[k] <= map.len()
}

/// Decodes the block tree of a JSON-wrapped file of sub-variant `variant`.
/// Variant 0: the `blockstatemap` entries become the states, and cell `k` of
/// the box, z outermost, then y, then x, holds state `statelist[k]`.
/// Variant 2: the `mapState` of each `mapIntState` entry becomes a state,
/// and entry `k` of `stateIntArray` is a block of state `stateIntArray[k] - 1`
/// at the position packed in `posIntArray[k]` (see `unpack_rel_pos`). A
/// state or position index out of range is a lookup error. Variant 1 keeps
/// its blocks in a layout this library does not read: a format error.
pub fn bg_get_blocks_pos(variant: i32, root: &Vec<(String, NbtValue)>) -> (r: Result<SchematicData, SchematicError>)
    ensures
        bg_ok(variant, root@) <==> r is Ok,
        r matches Ok(d) ==> {
            &&& d.blocks.wf()
            &&& (variant == 0 || variant == 2)
            &&& bg_corners(variant, root@) is Some
            &&& (d.size.width as int, d.size.height as int, d.size.length as int)
                == extent(bg_corners(variant, root@).unwrap().0, bg_corners(variant, root@).unwrap().1)
            &&& variant == 0 ==> {
                let pal = list_at(root@, "blockstatemap"@);
                let sl = ints_at(root@, "statelist"@);
                let dims = Dims { w: d.size.width as usize, h: d.size.height as usize, l: d.size.length as usize };
                &&& d.blocks.states@.len() == pal.len()
                &&& forall|j: int| 0 <= j < pal.len() ==> (#[trigger] d.blocks.states@[j])@ == entry_view(pal[j], "Name"@, "Properties"@, false)
                &&& d.blocks.elements@.len() == dims.cells()
                &&& forall|k: int| 0 <= k < dims.cells() ==> #[trigger] d.blocks.elements@[k] == (BlockStatePos {
                    pos: BlockPos {
                        x: cell_pos(GridOrder::ZYX, dims, k).0 as i32,
                        y: cell_pos(GridOrder::ZYX, dims, k).1 as i32,
                        z: cell_pos(GridOrder::ZYX, dims, k).2 as i32,
                    },
                    state: sl[k] as usize,
                })
            }
            &&& variant == 2 ==> {
                let map = list_at(root@, "mapIntState"@);
                let st = ints_at(root@, "stateIntArray"@);
                let ps = ints_at(root@, "posIntArray"@);
                &&& d.blocks.states@.len() == map.len()
                &&& forall|j: int| 0 <= j < map.len() ==> (#[trigger] d.blocks.states@[j])@
                    == entry_view(map_state_of(map[j]), "Name"@, "Properties"@, false)
                &&& d.blocks.elements@.len() == st.len()
                &&& forall|k: int| 0 <= k < st.len() ==> #[trigger] d.blocks.elements@[k] == (BlockStatePos {
                    pos: unpack_rel_pos(ps[k]),
                    state: (st[k] - 1) as usize,
                })
            }
        },
        r matches Err(e) ==> (e == SchematicError::Lookup ==> (variant == 0 || variant == 2)),
{
    if variant != 0 && variant != 2 {
        return Err(SchematicError::Format);
    }
    let size = bg_size(variant, root)?;
    let mut list = BlockStatePosList::new();
    if variant == 0 {
        let map = get_list(root, "blockstatemap")?;
        let sl = get_int_array(root, "statelist")?;
        proof {
            assert(list_at(root@, "blockstatemap"@) == map@);
            assert(ints_at(root@, "statelist"@) == sl@);
        }
        let mut j: usize = 0;
        while j < map.len()
            invariant
                list.wf(),
                list.states.len() == j,
                list.elements@.len() == 0,
                j <= map.len(),
                list_at(root@, "blockstatemap"@) == map@,
                variant == 0,
                forall|m: int| 0 <= m < j ==> (#[trigger] map@[m]) is Compound,
                forall|m: int| 0 <= m < j ==> (#[trigger] list.states@[m])@ == entry_view(map@[m], "Name"@, "Properties"@, false),
            decreases map.len() - j,
        {
            proof {
                assert(list_at(root@, "blockstatemap"@)[j as int] == map@[j as int]);
            }
            let b = match parse_palette_entry(&map[j], "Name", "Properties", false) {
                Ok(b) => b,
                Err(e) => {
                    return Err(e);
                },
            };
            list.add_state(b);
            j = j + 1;
        }
        if size.width < 1 || size.height < 1 || size.length < 1 {
            return Err(SchematicError::Format);
        }
        let d = match crate::decode::region_dims(BlockPos { x: size.width, y: size.height, z: size.length }, BlockPos { x: 0, y: 0, z: 0 })? {
            Some(d) => d,
            None => {
                return Err(SchematicError::Format);
            },
        };
        let cells = d.cell_count();
        let mut k: usize = 0;
        while k < cells
            invariant
                list.wf(),
                variant == 0,
                d.valid(),
                cells == d.cells(),
                d.w == size.width && d.h == size.height && d.l == size.length,
                list.states.len() == map.len(),
                forall|m: int| 0 <= m < map.len() ==> (#[trigger] list.states@[m])@ == entry_view(map@[m], "Name"@, "Properties"@, false),
                forall|m: int| 0 <= m < map.len() ==> (#[trigger] map@[m]) is Compound,
                list_at(root@, "blockstatemap"@) == map@,
                ints_at(root@, "statelist"@) == sl@,
                bg_corners(variant, root@) is Some,
                (size.width as int, size.height as int, size.length as int)
                    == extent(bg_corners(variant, root@).unwrap().0, bg_corners(variant, root@).unwrap().1),
                k <= sl.len(),
                forall|m: int| 0 <= m < k ==> 0 <= #[trigger] sl@[m] < map.len(),
                k <= cells,
                list.elements@.len() == k,
                forall|m: int| 0 <= m < k ==> #[trigger] list.elements@[m] == (BlockStatePos {
                    pos: BlockPos {
                        x: cell_pos(GridOrder::ZYX, d, m).0 as i32,
                        y: cell_pos(GridOrder::ZYX, d, m).1 as i32,
                        z: cell_pos(GridOrder::ZYX, d, m).2 as i32,
                    },
                    state: sl@[m] as usize,
                }),
            decreases cells - k,
        {
            if k >= sl.len() || sl[k] < 0 || sl[k] as usize >= map.len() {
                proof {
                    let (w, h, l) = extent(bg_corners(variant, root@).unwrap().0, bg_corners(variant, root@).unwrap().1);
                    assert(w * h * l == d.w * d.h * d.l);
                    assert(k < d.w * d.h * d.l);
                    if k < sl.len() {
                        assert(!(0 <= sl@[k as int] < map.len()));
                        assert(ints_at(root@, "statelist"@)[k as int] == sl@[k as int]);
                    }
                }
                return Err(SchematicError::Lookup);
            }
            let (x, y, z) = index_to_pos(GridOrder::ZYX, d, k);
            list.add_by_pos(x as i32, y as i32, z as i32, sl[k] as usize);
            k = k + 1;
        }
        proof {
            assert forall|m: int| 0 <= m < list_at(root@, "blockstatemap"@).len() implies (#[trigger] list_at(root@, "blockstatemap"@)[m]) is Compound by {
                assert(map@[m] is Compound);
            }
            let (w, h, l) = extent(bg_corners(variant, root@).unwrap().0, bg_corners(variant, root@).unwrap().1);
            assert(w * h * l == d.w * d.h * d.l);
            assert forall|m: int| 0 <= m < w * h * l implies 0 <= #[trigger] ints_at(root@, "statelist"@)[m] < list_at(root@, "blockstatemap"@).len() by {
                assert(0 <= sl@[m] < map.len());
            }
            assert(crate::decode::region_fits(BlockPos { x: w as i32, y: h as i32, z: l as i32 }, BlockPos { x: 0, y: 0, z: 0 }));
            assert(sl@.len() >= w * h * l);
            assert(w >= 1 && h >= 1 && l >= 1);
            assert(w <= i32::MAX && h <= i32::MAX && l <= i32::MAX);
            assert(has_key(root@, "statelist"@) && value_of(root@, "statelist"@) is IntArray);
            assert(bg_ok(variant, root@));
        }
    } else {
        let st = get_int_array(root, "stateIntArray")?;
        let map = get_list(root, "mapIntState")?;
        let ps = get_int_array(root, "posIntArray")?;
        proof {
            assert(list_at(root@, "mapIntState"@) == map@);
            assert(ints_at(root@, "stateIntArray"@) == st@);
            assert(ints_at(root@, "posIntArray"@) == ps@);
        }
        let mut j: usize = 0;
        while j < map.len()
            invariant
                list.wf(),
                list.states.len() == j,
                list.elements@.len() == 0,
                j <= map.len(),
                list_at(root@, "mapIntState"@) == map@,
                variant == 2,
                forall|m: int| 0 <= m < j ==> (#[trigger] map@[m]) is Compound && has_key(map@[m]->Compound_0@, "mapState"@)
                    && map_state_of(map@[m]) is Compound,
                forall|m: int| 0 <= m < j ==> (#[trigger] list.states@[m])@ == entry_view(map_state_of(map@[m]), "Name"@, "Properties"@, false),
            decreases map.len() - j,
        {
            proof {
                assert(list_at(root@, "mapIntState"@)[j as int] == map@[j as int]);
            }
            let c = match &map[j] {
                NbtValue::Compound(c) => c,
                _ => {
                    return Err(SchematicError::Format);
                },
            };
            let ms = match get_value(c, "mapState") {
                Ok(v) => v,
                Err(e) => {
                    return Err(e);
                },
            };
            let b = match parse_palette_entry(ms, "Name", "Properties", false) {
                Ok(b) => b,
                Err(e) => {
                    return Err(e);
                },
            };
            list.add_state(b);
            j = j + 1;
        }
        let mut k: usize = 0;
        while k < st.len()
            invariant
                list.wf(),
                variant == 2,
                list.states.len() == map.len(),
                forall|m: int| 0 <= m < map.len() ==> (#[trigger] list.states@[m])@ == entry_view(map_state_of(map@[m]), "Name"@, "Properties"@, false),
                forall|m: int| 0 <= m < map.len() ==> (#[trigger] map@[m]) is Compound && has_key(map@[m]->Compound_0@, "mapState"@)
                    && map_state_of(map@[m]) is Compound,
                list_at(root@, "mapIntState"@) == map@,
                ints_at(root@, "stateIntArray"@) == st@,
                ints_at(root@, "posIntArray"@) == ps@,
                bg_corners(variant, root@) is Some,
                ({
                    let (w, h, l) = extent(bg_corners(variant, root@).unwrap().0, bg_corners(variant, root@).unwrap().1);
                    w <= i32::MAX && h <= i32::MAX && l <= i32::MAX
                }),
                has_key(root@, "stateIntArray"@) && value_of(root@, "stateIntArray"@) is IntArray,
                has_key(root@, "mapIntState"@) && value_of(root@, "mapIntState"@) is List,
                has_key(root@, "posIntArray"@) && value_of(root@, "posIntArray"@) is IntArray,
                forall|m: int| 0 <= m < k ==> m < ps.len() && 1 <= #[trigger] st@[m] <= map.len(),
                k <= st.len(),
                list.elements@.len() == k,
                forall|m: int| 0 <= m < k ==> #[trigger] list.elements@[m] == (BlockStatePos {
                    pos: unpack_rel_pos(ps@[m]),
                    state: (st@[m] - 1) as usize,
                }),
            decreases st.len() - k,
        {
            if k >= ps.len() || st[k] < 1 || (st[k] - 1) as usize >= map.len() {
                proof {
                    assert(ints_at(root@, "stateIntArray"@)[k as int] == st@[k as int]);
                    if k >= ps.len() {
                        assert(st@.len() > ps@.len());
                    }
                }
                return Err(SchematicError::Lookup);
            }
            let raw = ps[k] as u32;
            let x = ((raw >> 16) & 0xff) as i32;
            let y = ((raw >> 8) & 0xff) as i32;
            let z = (raw & 0xff) as i32;
            list.add_by_pos(x, y, z, (st[k] - 1) as usize);
            k = k + 1;
        }
        proof {
            assert forall|m: int| 0 <= m < list_at(root@, "mapIntState"@).len() implies (#[trigger] list_at(root@, "mapIntState"@)[m]) is Compound
                && has_key(list_at(root@, "mapIntState"@)[m]->Compound_0@, "mapState"@) && map_state_of(list_at(root@, "mapIntState"@)[m]) is Compound by {
                assert(map@[m] is Compound);
            }
            assert forall|m: int| 0 <= m < ints_at(root@, "stateIntArray"@).len() implies m < ints_at(root@, "posIntArray"@).len()
                && 1 <= #[trigger] ints_at(root@, "stateIntArray"@)[m] <= list_at(root@, "mapIntState"@).len() by {
                assert(1 <= st@[m] <= map.len());
            }
            assert(variant == 2);
            assert(bg_corners(variant, root@) is Some);
            let (w, h, l) = extent(bg_corners(variant, root@).unwrap().0, bg_corners(variant, root@).unwrap().1);
            assert(w <= i32::MAX && h <= i32::MAX && l <= i32::MAX);
            let map2 = list_at(root@, "mapIntState"@);
            let st2 = ints_at(root@, "stateIntArray"@);
            let ps2 = ints_at(root@, "posIntArray"@);
            assert(forall|j: int| 0 <= j < map2.len() ==> (#[trigger] map2[j]) is Compound && has_key(map2[j]->Compound_0@, "mapState"@)
                && map_state_of(map2[j]) is Compound);
            assert forall|k: int| 0 <= k < st2.len() implies 1 <= #[trigger] st2[k] && st2[k] <= map2.len() by {
                assert(k < st.len());
                assert(st2[k] == st@[k]);
                assert(k < ps.len() && 1 <= st@[k] <= map.len());
            }
            assert(has_key(root@, "stateIntArray"@) && value_of(root@, "stateIntArray"@) is IntArray);
            assert(has_key(root@, "mapIntState"@) && value_of(root@, "mapIntState"@) is List);
            assert(has_key(root@, "posIntArray"@) && value_of(root@, "posIntArray"@) is IntArray);
            assert(forall|j: int| 0 <= j < map2.len() ==> (#[trigger] map2[j]) is Compound && has_key(map2[j]->Compound_0@, "mapState"@)
                && map_state_of(map2[j]) is Compound);
            if st2.len() > 0 {
                let q = (st2.len() - 1) as int;
                assert(1 <= st@[q]);
                assert(q < ps.len());
            }
            assert(bg_v2_ok(root@));
            assert(bg_ok(variant, root@));
        }
    }
    Ok(SchematicData::new(
        list,
        TileEntitiesList { original_type: 4, elements: Vec::new() },
        EntitiesList { original_type: 4, elements: Vec::new() },
        size,
    ))
}

/// The string value of member `key` of the text's top-level JSON object,
/// where the text parses and has one.
pub uninterp spec fn json_field_text(s: Seq<char>, key: Seq<char>) -> Option<Seq<char>>;

/// The bytes a standard, padded base64 text encodes, where it is one.
pub uninterp spec fn base64_bytes(s: Seq<char>) -> Option<Seq<u8>>;

/// A text with every `\r\n` pair removed.
pub uninterp spec fn crlf_removed(s: Seq<char>) -> Seq<char>;

/// Relies on `serde_json::from_str`, `Value::get` and `Value::as_str`: the
/// string member `key` of the parsed text.
#[verifier::external_body]
fn json_str_field(json: &str, key: &str) -> (r: Option<String>)
    ensures
        match r {
            Some(t) => json_field_text(json@, key@) == Some(t@),
            None => json_field_text(json@, key@) is None,
        },
{
    let v: serde_json::Value = serde_json::from_str(json).ok()?;
    v.get(key).and_then(|x| x.as_str()).map(|x| x.to_string())
}

/// Relies on `base64::engine::general_purpose::STANDARD.decode`.
#[verifier::external_body]
fn base64_decode(text: &str) -> (r: Option<Vec<u8>>)
    ensures
        match r {
            Some(b) => base64_bytes(text@) == Some(b@),
            None => base64_bytes(text@) is None,
        },
{
    base64::engine::general_purpose::STANDARD.decode(text).ok()
}

/// Relies on `str::replace`, removing every `\r\n`.
#[verifier::external_body]
fn remove_crlf(text: &str) -> (r: String)
    ensures
        r@ == crlf_removed(text@),
{
    text.replace("\r\n", "")
}

/// Where the block tree of a JSON-wrapped file lies.
#[derive(Debug)]
pub enum BgSource {
    /// SNBT text whose value is the block tree.
    Snbt(String),
    /// Gzip-compressed NBT bytes of the block tree.
    GzipNbt(Vec<u8>),
    /// SNBT text of a compound whose `body` string is base64 of gzip NBT
    /// of the block tree (see `bg_body_bytes`).
    SnbtWithBody(String),
}

/// Where the block tree of a file of sub-variant `variant` lies: variant 0,
/// the SNBT string `statePosArrayList`; variant 1, the base64 string `body`
/// when the text parses as JSON, else the text read as SNBT with its `\r\n`
/// removed; variant 2, the whole text as SNBT with `\r\n` removed. A missing
/// field is a missing-field error, bad base64 or another variant a format
/// error.
pub fn bg_payload(json: &str, variant: i32) -> (r: Result<BgSource, SchematicError>)
    ensures
        variant == 0 ==> match json_field_text(json@, "statePosArrayList"@) {
            Some(t) => (r matches Ok(BgSource::Snbt(x)) && x@ == t),
            None => r == Err::<BgSource, SchematicError>(SchematicError::MissingField),
        },
        variant == 1 ==> match json_field_text(json@, "body"@) {
            Some(t) => match base64_bytes(t) {
                Some(b) => (r matches Ok(BgSource::GzipNbt(x)) && x@ == b),
                None => r == Err::<BgSource, SchematicError>(SchematicError::Format),
            },
            None => (r matches Ok(BgSource::SnbtWithBody(x)) && x@ == crlf_removed(json@)),
        },
        variant == 2 ==> (r matches Ok(BgSource::Snbt(x)) && x@ == crlf_removed(json@)),
        !(0 <= variant <= 2) ==> r == Err::<BgSource, SchematicError>(SchematicError::Format),
{
    if variant == 0 {
        match json_str_field(json, "statePosArrayList") {
            Some(t) => Ok(BgSource::Snbt(t)),
            None => Err(SchematicError::MissingField),
        }
    } else if variant == 1 {
        match json_str_field(json, "body") {
            Some(t) => match base64_decode(t.as_str()) {
                Some(b) => Ok(BgSource::GzipNbt(b)),
                None => Err(SchematicError::Format),
            },
            None => Ok(BgSource::SnbtWithBody(remove_crlf(json))),
        }
    } else if variant == 2 {
        Ok(BgSource::Snbt(remove_crlf(json)))
    } else {
        Err(SchematicError::Format)
    }
}

/// The gzip bytes that the `body` string of a compound encodes in base64;
/// a missing or mistyped `body` is a missing-field or type-mismatch error,
/// bad base64 a format error.
pub fn bg_body_bytes(root: &Vec<(String, NbtValue)>) -> (r: Result<Vec<u8>, SchematicError>)
    ensures
        match r {
            Ok(b) => has_key(root@, "body"@) && value_of(root@, "body"@) is String
                && base64_bytes((value_of(root@, "body"@)->String_0)@) == Some(b@),
            Err(e) => !(has_key(root@, "body"@) && value_of(root@, "body"@) is String
                && base64_bytes((value_of(root@, "body"@)->String_0)@) is Some),
        },
{
    let body = match get_value(root, "body")? {
        NbtValue::String(t) => t,
        _ => {
            return Err(SchematicError::TypeMismatch);
        },
    };
    match base64_decode(body.as_str()) {
        Some(b) => Ok(b),
        None => Err(SchematicError::Format),
    }
}

} // verus!
