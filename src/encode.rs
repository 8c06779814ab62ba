//! Encoders from the canonical model into the tree formats.
use vstd::prelude::*;
use crate::bits::{bits_for_palette, bits_required, is_packing};
use crate::error::SchematicError;
use crate::formats::{encode_lm_blocks, is_grid_of};
use crate::grid::{cell_of, get_index, Dims, GridOrder};
use crate::model::{BlockData, BlockPos, BlockStatePos, BlockStatePosList, BlockView, EntitiesList, SchematicData, TileEntitiesList};
use crate::nbt::{copy_tree, payload_bytes};
use crate::nbt::NbtValue;
use crate::palette::{bbox_of, build_palette, bounding_box, is_bbox, is_palette_of, palette_of};

verus! {

/// The state of air.
pub open spec fn air_view() -> BlockView {
    ("minecraft:air"@, Seq::empty())
}

/// Where palette entry `m` goes once air is moved to the front.
pub open spec fn shifted(m: int, air_at: int) -> int {
    if m == air_at {
        0
    } else if m < air_at {
        m + 1
    } else {
        m
    }
}

fn air_block() -> (r: BlockData)
    ensures
        r@ == air_view(),
{
    BlockData::new("minecraft:air".to_owned())
}

/// The block layer of a Litematica encoding: the box (the blocks' bounding
/// box widened by one cell on each side along x and z), the palette with air
/// first, each block's palette index, the grid of indices (air where no block
/// is) and its packed words.
#[derive(Debug)]
pub struct LmEncoding {
    pub start: BlockPos,
    pub dims: Dims,
    pub palette: Vec<BlockData>,
    pub ids: Vec<u32>,
    pub bits: u32,
    pub grid: Vec<u32>,
    pub words: Vec<u64>,
}

/// The extents of the Litematica box of `es`: its bounding box widened by
/// one cell on each side along x and z.
pub open spec fn lm_dims(es: Seq<BlockStatePos>) -> (int, int, int) {
    let (lo, hi) = bbox_of(es);
    (hi.x - lo.x + 3, hi.y - lo.y + 1, hi.z - lo.z + 3)
}

/// `es` has blocks, and its Litematica box can be addressed.
pub open spec fn lm_fits(es: Seq<BlockStatePos>) -> bool {
    let (lo, hi) = bbox_of(es);
    let (w, h, l) = lm_dims(es);
    &&& 0 < es.len() < 0xffff_fff0
    &&& lo.x > i32::MIN && lo.z > i32::MIN
    &&& w <= 0x7fff_ffff && h <= 0x7fff_ffff && l <= 0x7fff_ffff
    &&& w * h * l <= usize::MAX / 64
}

/// Where air stands in a palette, or its length when it has none.
pub open spec fn air_pos(pal: Seq<BlockView>) -> int {
    if pal.contains(air_view()) {
        choose|i: int| 0 <= i < pal.len() && pal[i] == air_view()
    } else {
        pal.len() as int
    }
}

proof fn lemma_div_bound(a: int, b: int, limit: int)
    requires
        a >= 0,
        b >= 1,
        limit >= 0,
    ensures
        a <= limit / b <==> a * b <= limit,
{
    assert(a <= limit / b ==> a * b <= limit) by (nonlinear_arith)
        requires
            b >= 1,
            limit >= 0,
            a >= 0,
    ;
    assert(a * b <= limit ==> a <= limit / b) by (nonlinear_arith)
        requires
            b >= 1,
            limit >= 0,
            a >= 0,
    ;
}

/// Encodes the blocks of a model for Litematica (see `LmEncoding`): the box
/// starts one cell before the least corner along x and z and is two cells
/// wider there; the palette is the first-seen palette of the blocks with air
/// moved, or added, to the front. It succeeds exactly when the model has
/// blocks and its box can be addressed (see `lm_fits`).
pub fn lm_encode_blocks(list: &BlockStatePosList) -> (r: Result<LmEncoding, SchematicError>)
    requires
        list.wf(),
    ensures
        lm_fits(list.elements@) <==> r is Ok,
        r matches Ok(e) ==> {
            let (lo, hi) = bbox_of(list.elements@);
            let pal = palette_of(list.blocks());
            let a = air_pos(pal);
            &&& e.start == (BlockPos { x: (lo.x - 1) as i32, y: lo.y, z: (lo.z - 1) as i32 })
            &&& (e.dims.w as int, e.dims.h as int, e.dims.l as int) == lm_dims(list.elements@)
            &&& e.palette@.len() == pal.len() + (if a < pal.len() { 0int } else { 1int })
            &&& forall|m: int| 0 <= m < pal.len() ==> e.palette@[#[trigger] shifted(m, a)]@ == pal[m]
        },
        r matches Ok(e) ==> {
            &&& e.dims.w <= i32::MAX && e.dims.h <= i32::MAX && e.dims.l <= i32::MAX
            &&& e.palette@.len() >= 1
            &&& e.palette@[0]@ == air_view()
            &&& e.ids@.len() == list.elements@.len()
            &&& forall|i: int| 0 <= i < list.elements@.len() ==> (#[trigger] e.ids@[i]) < e.palette@.len()
                && e.palette@[e.ids@[i] as int]@ == list.block_at(i)
                && cell_of(GridOrder::YZX, e.dims, e.start, list.elements@[i].pos) is Some
            &&& e.bits as nat == bits_for_palette(e.palette@.len())
            &&& is_grid_of(e.grid@, list.elements@, e.ids@, GridOrder::YZX, e.dims, e.start, 0)
            &&& is_packing(e.grid@, e.bits as nat, e.words@)
        },
        r matches Err(e) ==> e == SchematicError::Format,
{
    let (lo, hi) = match bounding_box(&list.elements) {
        Some(b) => b,
        None => {
            return Err(SchematicError::Format);
        },
    };
    let ghost (gw, gh, gl) = lm_dims(list.elements@);
    if lo.x == i32::MIN || lo.z == i32::MIN || hi.x as i64 - lo.x as i64 + 3 > 0x7fff_ffff
        || hi.y as i64 - lo.y as i64 + 1 > 0x7fff_ffff || hi.z as i64 - lo.z as i64 + 3 > 0x7fff_ffff {
        return Err(SchematicError::Format);
    }
    if list.elements.len() >= 0xffff_fff0 {
        return Err(SchematicError::Format);
    }
    let start = BlockPos { x: lo.x - 1, y: lo.y, z: lo.z - 1 };
    let w = (hi.x as i64 - lo.x as i64 + 3) as usize;
    let h = (hi.y as i64 - lo.y as i64 + 1) as usize;
    let l = (hi.z as i64 - lo.z as i64 + 3) as usize;
    let limit: usize = usize::MAX / 64;
    proof {
        lemma_div_bound(w as int, h as int, limit as int);
    }
    if w > limit / h {
        proof {
            assert(w * h * l >= w * h) by (nonlinear_arith)
                requires
                    l >= 1,
                    w * h >= 0,
            ;
        }
        return Err(SchematicError::Format);
    }
    proof {
        assert(w * h <= limit) by (nonlinear_arith)
            requires
                w <= limit / h,
                h >= 1,
        ;
        lemma_div_bound((w * h) as int, l as int, limit as int);
    }
    if w * h > limit / l {
        return Err(SchematicError::Format);
    }
    let dims = Dims { w, h, l };
    proof {
        assert(w * h * l <= limit) by (nonlinear_arith)
            requires
                w * h <= limit / l,
                l >= 1,
        ;
        assert(limit * 64 <= usize::MAX);
    }
    let p = build_palette(list);
    let air_state = air_block();
    let mut air_at: usize = p.entries.len();
    let mut k: usize = 0;
    while k < p.entries.len()
        invariant_except_break
            air_at == p.entries.len(),
            forall|m: int| 0 <= m < k ==> list.states@[p.entries@[m] as int]@ != air_view(),
        invariant
            is_palette_of(list, &p),
            list.wf(),
            air_state@ == air_view(),
            k <= p.entries.len(),
        ensures
            air_at < p.entries.len() ==> list.states@[p.entries@[air_at as int] as int]@ == air_view(),
            air_at >= p.entries.len() ==> air_at == p.entries.len()
                && forall|m: int| 0 <= m < p.entries.len() ==> list.states@[p.entries@[m] as int]@ != air_view(),
        decreases p.entries.len() - k,
    {
        if list.states[p.entries[k]].same_as(&air_state) {
            air_at = k;
            break;
        }
        k = k + 1;
    }
    let ghost pal = palette_of(list.blocks());
    proof {
        if air_at < p.entries.len() {
            assert(list.states@[p.entries@[air_at as int] as int]@ == pal[air_at as int]);
        }
        crate::palette::lemma_palette_len(list.blocks());
        crate::palette::lemma_palette_distinct(list.blocks());
        if air_at < p.entries.len() {
            assert(pal.contains(air_view()));
            let c = choose|i: int| 0 <= i < pal.len() && pal[i] == air_view();
            assert(c == air_at);
        } else {
            assert(!pal.contains(air_view())) by {
                if pal.contains(air_view()) {
                    let c = choose|i: int| 0 <= i < pal.len() && pal[i] == air_view();
                    assert(list.states@[p.entries@[c] as int]@ == pal[c]);
                }
            }
        }
        assert(air_at as int == air_pos(pal));
    }
    let mut palette: Vec<BlockData> = Vec::new();
    palette.push(air_state);
    let mut k: usize = 0;
    while k < p.entries.len()
        invariant
            is_palette_of(list, &p),
            pal == palette_of(list.blocks()),
            air_at <= p.entries.len(),
            k <= p.entries.len(),
            palette@.len() == 1 + k - (if air_at < k { 1int } else { 0int }),
            palette@[0]@ == air_view(),
            air_at < p.entries.len() ==> pal[air_at as int] == air_view(),
            forall|m: int| 0 <= m < k ==> palette@[#[trigger] shifted(m, air_at as int)]@ == pal[m],
        decreases p.entries.len() - k,
    {
        if k != air_at {
            let b = list.states[p.entries[k]].duplicate();
            palette.push(b);
        }
        k = k + 1;
    }
    let mut ids: Vec<u32> = Vec::new();
    let mut i: usize = 0;
    while i < p.indices.len()
        invariant
            is_palette_of(list, &p),
            list.wf(),
            pal == palette_of(list.blocks()),
            air_at <= p.entries.len(),
            air_at < p.entries.len() ==> pal[air_at as int] == air_view(),
            palette@.len() == 1 + p.entries.len() - (if air_at < p.entries.len() { 1int } else { 0int }),
            palette@[0]@ == air_view(),
            forall|m: int| 0 <= m < p.entries.len() ==> palette@[#[trigger] shifted(m, air_at as int)]@ == pal[m],
            p.entries.len() < 0xffff_fff0,
            i <= p.indices.len(),
            ids.len() == i,
            forall|j: int| 0 <= j < i ==> (#[trigger] ids@[j]) < palette@.len() && palette@[ids@[j] as int]@ == list.block_at(j),
        decreases p.indices.len() - i,
    {
        let x = p.indices[i];
        let y: u32 = if x as usize == air_at {
            0
        } else if (x as usize) < air_at {
            x + 1
        } else {
            x
        };
        proof {
            assert(x < pal.len());
            assert(pal[x as int] == list.block_at(i as int));
            assert(y as int == shifted(x as int, air_at as int));
            assert(palette@[shifted(x as int, air_at as int)]@ == pal[x as int]);
        }
        ids.push(y);
        i = i + 1;
    }
    let bits = bits_required(palette.len() as u32);
    proof {
        assert(dims.cells() * bits + 63 <= usize::MAX) by (nonlinear_arith)
            requires
                dims.cells() <= limit,
                bits <= 32,
                limit * 64 <= usize::MAX,
        ;
        assert forall|j: int| 0 <= j < list.elements@.len() implies cell_of(GridOrder::YZX, dims, start, (#[trigger] list.elements@[j]).pos) is Some by {
            assert(lo.x <= list.elements@[j].pos.x <= hi.x);
        }
    }
    let (grid, words) = encode_lm_blocks(&list.elements, &ids, start, dims, 0, bits);
    Ok(LmEncoding { start, dims, palette, ids, bits, grid, words })
}

fn entry(key: &str, v: NbtValue) -> (r: (String, NbtValue))
    ensures
        r.0@ == key@,
        r.1 == v,
{
    (key.to_owned(), v)
}

/// A compound of `Int`s `x`, `y`, `z`, in that order.
pub open spec fn is_xyz(v: NbtValue, x: i32, y: i32, z: i32) -> bool {
    &&& v is Compound && v->Compound_0@.len() == 3
    &&& v->Compound_0@[0].0@ == "x"@ && v->Compound_0@[0].1 == NbtValue::Int(x)
    &&& v->Compound_0@[1].0@ == "y"@ && v->Compound_0@[1].1 == NbtValue::Int(y)
    &&& v->Compound_0@[2].0@ == "z"@ && v->Compound_0@[2].1 == NbtValue::Int(z)
}

/// A palette entry tree of state `b` (see `palette_entry_value`).
pub open spec fn is_entry_tree(r: NbtValue, b: BlockView) -> bool {
    &&& r is Compound
    &&& r->Compound_0@.len() == (if b.1.len() > 0 { 2int } else { 1int })
    &&& r->Compound_0@[0].0@ == "Name"@
    &&& r->Compound_0@[0].1 is String
    &&& (r->Compound_0@[0].1)->String_0@ == b.0
    &&& b.1.len() > 0 ==> r->Compound_0@[1].0@ == "Properties"@ && r->Compound_0@[1].1 is Compound
        && is_props_tree((r->Compound_0@[1].1)->Compound_0@, b.1)
}

fn xyz(x: i32, y: i32, z: i32) -> (r: NbtValue)
    ensures
        is_xyz(r, x, y, z),
{
    NbtValue::Compound(vec![entry("x", NbtValue::Int(x)), entry("y", NbtValue::Int(y)), entry("z", NbtValue::Int(z))])
}

/// `es` holds the properties `ps` in order, each value a `String` tag.
pub open spec fn is_props_tree(es: Seq<(String, NbtValue)>, ps: Seq<(Seq<char>, Seq<char>)>) -> bool {
    &&& es.len() == ps.len()
    &&& forall|i: int| 0 <= i < es.len() ==> (#[trigger] es[i]).0@ == ps[i].0 && es[i].1 is String
        && (es[i].1)->String_0@ == ps[i].1
}

/// The properties of a block state as named `String` tags.
pub fn props_compound(b: &BlockData) -> (r: Vec<(String, NbtValue)>)
    ensures
        is_props_tree(r@, b@.1),
{
    let mut props: Vec<(String, NbtValue)> = Vec::new();
    let mut i: usize = 0;
    while i < b.properties.len()
        invariant
            i <= b.properties.len(),
            props@.len() == i,
            forall|m: int| 0 <= m < i ==> (#[trigger] props@[m]).0@ == b@.1[m].0 && props@[m].1 is String
                && (props@[m].1)->String_0@ == b@.1[m].1,
        decreases b.properties.len() - i,
    {
        props.push((b.properties[i].0.clone(), NbtValue::String(b.properties[i].1.clone())));
        i = i + 1;
    }
    props
}

/// The palette entry tree of a block state: `Name` and, when it has any,
/// `Properties` as strings, in the state's order.
pub fn palette_entry_value(b: &BlockData) -> (r: NbtValue)
    ensures
        r is Compound,
        r->Compound_0@.len() == (if b@.1.len() > 0 { 2int } else { 1int }),
        r->Compound_0@[0].0@ == "Name"@,
        r->Compound_0@[0].1 is String,
        (r->Compound_0@[0].1)->String_0@ == b@.0,
        b@.1.len() > 0 ==> r->Compound_0@[1].0@ == "Properties"@ && r->Compound_0@[1].1 is Compound
            && is_props_tree((r->Compound_0@[1].1)->Compound_0@, b@.1),
{
    let mut es: Vec<(String, NbtValue)> = Vec::new();
    es.push(entry("Name", NbtValue::String(b.name.clone())));
    if b.properties.len() > 0 {
        es.push(entry("Properties", NbtValue::Compound(props_compound(b))));
    }
    NbtValue::Compound(es)
}

/// A tile entity's position moved one cell along x and z.
pub open spec fn lm_moved(p: BlockPos) -> BlockPos {
    BlockPos { x: (p.x + 1) as i32, y: p.y, z: (p.z + 1) as i32 }
}

/// No Litematica tile entity stands at the largest x or z.
pub open spec fn lm_tiles_fit(tiles: &TileEntitiesList) -> bool {
    tiles.original_type == 2 ==> forall|t: int| 0 <= t < tiles.elements@.len() ==>
        (#[trigger] tiles.elements@[t]).pos.x < i32::MAX && tiles.elements@[t].pos.z < i32::MAX
}

/// The tile-entity list of a Litematica region: those from Litematica,
/// moved one cell along x and z into the widened box, with their position
/// fields rewritten; none from other formats.
pub open spec fn lm_tiles_tree(tiles: &TileEntitiesList, v: Seq<NbtValue>) -> bool {
    &&& tiles.original_type != 2 ==> v.len() == 0
    &&& tiles.original_type == 2 ==> v.len() == tiles.elements@.len() && forall|t: int| 0 <= t < v.len() ==>
        crate::split::relocated(tiles.elements@[t].nbt, 2, lm_moved(tiles.elements@[t].pos), #[trigger] v[t])
}

/// The entity list of a Litematica region: those from Litematica, as they
/// are; none from other formats.
pub open spec fn lm_ents_tree(ents: &EntitiesList, v: Seq<NbtValue>) -> bool {
    &&& ents.original_type != 2 ==> v.len() == 0
    &&& ents.original_type == 2 ==> v.len() == ents.elements@.len() && forall|m: int| 0 <= m < v.len() ==>
        payload_bytes(#[trigger] v[m]) == payload_bytes(ents.elements@[m].nbt)
}

fn lm_tile_entities(tiles: &TileEntitiesList) -> (r: Result<Vec<NbtValue>, SchematicError>)
    ensures
        lm_tiles_fit(tiles) <==> r is Ok,
        r matches Ok(v) ==> lm_tiles_tree(tiles, v@),
        r matches Err(e) ==> e == SchematicError::Format,
{
    let mut out: Vec<NbtValue> = Vec::new();
    if tiles.original_type != 2 {
        return Ok(out);
    }
    let mut t: usize = 0;
    while t < tiles.elements.len()
        invariant
            tiles.original_type == 2,
            t <= tiles.elements.len(),
            out@.len() == t,
            forall|q: int| 0 <= q < t ==> (#[trigger] tiles.elements@[q]).pos.x < i32::MAX && tiles.elements@[q].pos.z < i32::MAX,
            forall|q: int| 0 <= q < t ==> crate::split::relocated(tiles.elements@[q].nbt, 2, lm_moved(tiles.elements@[q].pos), #[trigger] out@[q]),
        decreases tiles.elements.len() - t,
    {
        let p = tiles.elements[t].pos;
        if p.x == i32::MAX || p.z == i32::MAX {
            return Err(SchematicError::Format);
        }
        let moved = BlockPos { x: p.x + 1, y: p.y, z: p.z + 1 };
        out.push(crate::split::relocate_tile_nbt(&tiles.elements[t].nbt, 2, moved));
        t = t + 1;
    }
    Ok(out)
}

fn lm_entities(ents: &EntitiesList) -> (r: Vec<NbtValue>)
    ensures
        lm_ents_tree(ents, r@),
{
    let mut out: Vec<NbtValue> = Vec::new();
    if ents.original_type != 2 {
        return out;
    }
    let mut m: usize = 0;
    while m < ents.elements.len()
        invariant
            ents.original_type == 2,
            m <= ents.elements.len(),
            out@.len() == m,
            forall|q: int| 0 <= q < m ==> payload_bytes(#[trigger] out@[q]) == payload_bytes(ents.elements@[q].nbt),
        decreases ents.elements.len() - m,
    {
        out.push(copy_tree(&ents.elements[m].nbt));
        m = m + 1;
    }
    out
}

/// The root compound of a Litematica file holding one region named `null`
/// with the encoded blocks and, where they came from Litematica, the tile
/// entities and entities; `timestamp` is the creation and modification time
/// in seconds.
pub fn lm_schematic(e: &LmEncoding, version: i32, timestamp: i64, tiles: &TileEntitiesList, ents: &EntitiesList)
    -> (res: Result<Vec<(String, NbtValue)>, SchematicError>)
    requires
        e.dims.w <= i32::MAX && e.dims.h <= i32::MAX && e.dims.l <= i32::MAX,
    ensures
        lm_tiles_fit(tiles) <==> res is Ok,
        res matches Err(x) ==> x == SchematicError::Format,
        res matches Ok(r) ==> lm_schematic_tree(e, version, tiles, ents, r@),
{
    let tl = lm_tile_entities(tiles)?;
    Ok(lm_schematic_with(e, version, timestamp, tl, ents))
}

/// `r` is the root compound `lm_schematic` builds.
pub open spec fn lm_schematic_tree(e: &LmEncoding, version: i32, tiles: &TileEntitiesList, ents: &EntitiesList, r: Seq<(String, NbtValue)>) -> bool {
    &&& r.len() == 5
    &&& r[0].0@ == "MinecraftDataVersion"@
    &&& r[1].0@ == "Version"@ && r[1].1 == NbtValue::Int(version)
    &&& r[2].0@ == "Metadata"@
    &&& r[2].1 is Compound && (r[2].1)->Compound_0@.len() == 9 && (r[2].1)->Compound_0@[0].0@ == "EnclosingSize"@
        && is_xyz((r[2].1)->Compound_0@[0].1, e.dims.w as i32, e.dims.h as i32, e.dims.l as i32)
    &&& r[3].0@ == "Regions"@
    &&& r[4].0@ == "SubVersion"@
    &&& r[3].1 is Compound && (r[3].1)->Compound_0@.len() == 1 && (r[3].1)->Compound_0@[0].0@ == "null"@
        && ((r[3].1)->Compound_0@[0].1) is Compound && {
        let region = ((r[3].1)->Compound_0@[0].1)->Compound_0@;
        &&& region.len() == 6
        &&& region[0].0@ == "BlockStates"@ && region[0].1 is LongArray
        &&& (region[0].1->LongArray_0)@ == e.words@.map_values(|w: u64| w as i64)
        &&& region[1].0@ == "Position"@ && is_xyz(region[1].1, 0, 0, 0)
        &&& region[2].0@ == "Size"@ && is_xyz(region[2].1, e.dims.w as i32, e.dims.h as i32, e.dims.l as i32)
        &&& region[3].0@ == "BlockStatePalette"@ && region[3].1 is List
        &&& (region[3].1->List_1)@.len() == e.palette@.len()
        &&& forall|k: int| 0 <= k < e.palette@.len() ==> is_entry_tree(#[trigger] (region[3].1->List_1)@[k], e.palette@[k]@)
        &&& region[4].0@ == "TileEntities"@ && region[4].1 is List && lm_tiles_tree(tiles, (region[4].1->List_1)@)
        &&& region[5].0@ == "Entities"@ && region[5].1 is List && lm_ents_tree(ents, (region[5].1->List_1)@)
    }
}

fn lm_schematic_with(e: &LmEncoding, version: i32, timestamp: i64, tl: Vec<NbtValue>, ents: &EntitiesList)
    -> (r: Vec<(String, NbtValue)>)
    requires
        e.dims.w <= i32::MAX && e.dims.h <= i32::MAX && e.dims.l <= i32::MAX,
    ensures
        r@.len() == 5,
        r@[0].0@ == "MinecraftDataVersion"@,
        r@[1].0@ == "Version"@ && r@[1].1 == NbtValue::Int(version),
        r@[2].0@ == "Metadata"@,
        r@[2].1 is Compound && (r@[2].1)->Compound_0@.len() == 9 && (r@[2].1)->Compound_0@[0].0@ == "EnclosingSize"@
            && is_xyz((r@[2].1)->Compound_0@[0].1, e.dims.w as i32, e.dims.h as i32, e.dims.l as i32),
        r@[3].0@ == "Regions"@,
        r@[4].0@ == "SubVersion"@,
        r@[3].1 is Compound && (r@[3].1)->Compound_0@.len() == 1 && (r@[3].1)->Compound_0@[0].0@ == "null"@
            && ((r@[3].1)->Compound_0@[0].1) is Compound && {
            let region = ((r@[3].1)->Compound_0@[0].1)->Compound_0@;
            &&& region.len() == 6
            &&& region[0].0@ == "BlockStates"@ && region[0].1 is LongArray
            &&& (region[0].1->LongArray_0)@ == e.words@.map_values(|w: u64| w as i64)
            &&& region[1].0@ == "Position"@ && is_xyz(region[1].1, 0, 0, 0)
            &&& region[2].0@ == "Size"@ && is_xyz(region[2].1, e.dims.w as i32, e.dims.h as i32, e.dims.l as i32)
            &&& region[3].0@ == "BlockStatePalette"@ && region[3].1 is List
            &&& (region[3].1->List_1)@.len() == e.palette@.len()
            &&& forall|k: int| 0 <= k < e.palette@.len() ==> is_entry_tree(#[trigger] (region[3].1->List_1)@[k], e.palette@[k]@)
            &&& region[4].0@ == "TileEntities"@ && region[4].1 is List && (region[4].1->List_1)@ == tl@
            &&& region[5].0@ == "Entities"@ && region[5].1 is List && lm_ents_tree(ents, (region[5].1->List_1)@)
        },
{
    let w = e.dims.w as i32;
    let h = e.dims.h as i32;
    let l = e.dims.l as i32;
    let metadata = NbtValue::Compound(vec![
        entry("EnclosingSize", xyz(w, h, l)),
        entry("Description", NbtValue::String("".to_owned())),
        entry("RegionCount", NbtValue::Int(1)),
        entry("Name", NbtValue::String("null".to_owned())),
        entry("Author", NbtValue::String("".to_owned())),
        entry("TotalVolume", NbtValue::Int(0)),
        entry("TotalBlocks", NbtValue::Int(0)),
        entry("TimeModified", NbtValue::Long(timestamp)),
        entry("TimeCreated", NbtValue::Long(timestamp)),
    ]);
    let mut longs: Vec<i64> = Vec::new();
    let mut i: usize = 0;
    while i < e.words.len()
        invariant
            i <= e.words.len(),
            longs@ == e.words@.take(i as int).map_values(|w: u64| w as i64),
        decreases e.words.len() - i,
    {
        longs.push(e.words[i] as i64);
        proof {
            assert(longs@ =~= e.words@.take(i + 1).map_values(|w: u64| w as i64));
        }
        i = i + 1;
    }
    proof {
        assert(e.words@.take(e.words.len() as int) =~= e.words@);
    }
    let mut pal: Vec<NbtValue> = Vec::new();
    let mut k: usize = 0;
    while k < e.palette.len()
        invariant
            k <= e.palette.len(),
            pal@.len() == k,
            forall|m: int| 0 <= m < k ==> is_entry_tree(#[trigger] pal@[m], e.palette@[m]@),
        decreases e.palette.len() - k,
    {
        pal.push(palette_entry_value(&e.palette[k]));
        k = k + 1;
    }
    let region = NbtValue::Compound(vec![
        entry("BlockStates", NbtValue::LongArray(longs)),
        entry("Position", xyz(0, 0, 0)),
        entry("Size", xyz(w, h, l)),
        entry("BlockStatePalette", NbtValue::List(10, pal)),
        entry("TileEntities", NbtValue::List(10, tl)),
        entry("Entities", NbtValue::List(10, lm_entities(ents))),
    ]);
    vec![
        entry("MinecraftDataVersion", NbtValue::Int(3465)),
        entry("Version", NbtValue::Int(version)),
        entry("Metadata", metadata),
        entry("Regions", NbtValue::Compound(vec![entry("null", region)])),
        entry("SubVersion", NbtValue::Int(1)),
    ]
}

/// `es` has blocks, and its bounding box fits the Create limits.
pub open spec fn create_fits(es: Seq<BlockStatePos>) -> bool {
    let (w, h, l) = crate::bedrock::box_dims(es);
    &&& 0 < es.len() < 0x7fff_ffff
    &&& w <= 0x7fff_ffff && h <= 0x7fff_ffff && l <= 0x7fff_ffff
    &&& w * h * l <= 0x7fff_ffff
}

/// The palette index of a Create block entry.
pub open spec fn entry_state_of(v: NbtValue) -> int {
    (v->Compound_0@[0].1)->Int_0 as int
}

/// The position of a Create block entry, stored relative to `lo`, put back.
pub open spec fn entry_pos_of(v: NbtValue, lo: BlockPos) -> BlockPos {
    let c = ((v->Compound_0@[1].1)->List_1)@;
    BlockPos { x: (c[0]->Int_0 + lo.x) as i32, y: (c[1]->Int_0 + lo.y) as i32, z: (c[2]->Int_0 + lo.z) as i32 }
}

/// A Create block entry: `state`, an index into `pal`, then `pos`, three
/// `Int`s, and possibly `nbt`.
pub open spec fn create_block_entry(v: NbtValue, pal: Seq<BlockView>, lo: BlockPos) -> bool {
    &&& v is Compound && v->Compound_0@.len() >= 2
    &&& v->Compound_0@[0].0@ == "state"@ && v->Compound_0@[0].1 is Int
    &&& 0 <= entry_state_of(v) < pal.len()
    &&& v->Compound_0@[1].0@ == "pos"@ && v->Compound_0@[1].1 is List
    &&& ((v->Compound_0@[1].1)->List_1)@.len() == 3
}

/// The cell of `p` in the box of `d` cells at `lo`, if inside.
fn cell_in_box(p: BlockPos, lo: BlockPos, d: Dims) -> (r: Option<usize>)
    requires
        d.valid(),
    ensures
        r matches Some(c) ==> c < d.cells(),
{
    let dx: i64 = p.x as i64 - lo.x as i64;
    let dy: i64 = p.y as i64 - lo.y as i64;
    let dz: i64 = p.z as i64 - lo.z as i64;
    if dx >= 0 && dy >= 0 && dz >= 0 && (dx as u64) < (d.w as u64) && (dy as u64) < (d.h as u64)
        && (dz as u64) < (d.l as u64) {
        proof {
            crate::grid::lemma_cell_index_pos(GridOrder::YZX, d, dx as int, dy as int, dz as int);
        }
        Some(get_index(GridOrder::YZX, d, dx as usize, dy as usize, dz as usize))
    } else {
        None
    }
}

/// The root compound of a Create file: the palette in first-seen order;
/// a block entry (`state`, `pos` relative to the bounding box's least
/// corner) for every block, air only when `air` holds, with the `nbt` of a
/// tile entity at its position when the tile entities came from Create; the
/// entities when they came from Create; the bounding box's size. A model
/// without blocks, or too large to address, is a format error.
pub fn create_schematic(data: &SchematicData, air: bool) -> (r: Result<Vec<(String, NbtValue)>, SchematicError>)
    requires
        data.blocks.wf(),
    ensures
        create_fits(data.blocks.elements@) <==> r is Ok,
        r matches Ok(es) ==> es@.len() == 5 && es@[0].0@ == "size"@ && es@[1].0@ == "blocks"@
            && es@[2].0@ == "palette"@ && es@[3].0@ == "entities"@ && es@[4].0@ == "DataVersion"@,
        r matches Ok(es) ==> {
            let (lo, hi) = bbox_of(data.blocks.elements@);
            let pal = palette_of(data.blocks.blocks());
            let (w, h, l) = crate::bedrock::box_dims(data.blocks.elements@);
            &&& es@[0].1 is List && (es@[0].1->List_1)@ == seq![NbtValue::Int(w as i32), NbtValue::Int(h as i32), NbtValue::Int(l as i32)]
            &&& es@[2].1 is List && (es@[2].1->List_1)@.len() == pal.len()
            &&& forall|k: int| 0 <= k < pal.len() ==> is_entry_tree(#[trigger] (es@[2].1->List_1)@[k], pal[k])
            &&& es@[1].1 is List
            &&& forall|k: int| 0 <= k < (es@[1].1->List_1)@.len() ==> create_block_entry(#[trigger] (es@[1].1->List_1)@[k], pal, lo)
            &&& air ==> (es@[1].1->List_1)@.len() == data.blocks.elements@.len() && forall|i: int| 0 <= i < data.blocks.elements@.len() ==> {
                let v = #[trigger] (es@[1].1->List_1)@[i];
                &&& entry_pos_of(v, lo) == data.blocks.elements@[i].pos
                &&& pal[entry_state_of(v)] == data.blocks.block_at(i)
            }
        },
        r matches Err(e) ==> e == SchematicError::Format,
{
    let list = &data.blocks;
    let (lo, hi) = match bounding_box(&list.elements) {
        Some(b) => b,
        None => {
            return Err(SchematicError::Format);
        },
    };
    if list.elements.len() >= 0x7fff_ffff {
        return Err(SchematicError::Format);
    }
    let w64: i64 = hi.x as i64 - lo.x as i64 + 1;
    let h64: i64 = hi.y as i64 - lo.y as i64 + 1;
    let l64: i64 = hi.z as i64 - lo.z as i64 + 1;
    if w64 > 0x7fff_ffff || h64 > 0x7fff_ffff || l64 > 0x7fff_ffff {
        return Err(SchematicError::Format);
    }
    proof {
        assert(lo.x <= hi.x && lo.y <= hi.y && lo.z <= hi.z) by {
            assert(lo.x <= list.elements@[0].pos.x <= hi.x);
        }
    }
    let (w, h, l) = (w64 as usize, h64 as usize, l64 as usize);
    let limit: usize = 0x7fff_ffff;
    proof {
        lemma_div_bound(w as int, h as int, limit as int);
    }
    if w > limit / h {
        proof {
            assert(w * h * l >= w * h) by (nonlinear_arith)
                requires
                    l >= 1,
                    w * h >= 0,
            ;
        }
        return Err(SchematicError::Format);
    }
    proof {
        assert(w * h <= limit) by (nonlinear_arith)
            requires
                w <= limit / h,
                h >= 1,
        ;
    }
    proof {
        lemma_div_bound((w * h) as int, l as int, limit as int);
    }
    if w * h > limit / l {
        return Err(SchematicError::Format);
    }
    proof {
        assert(w * h * l <= limit) by (nonlinear_arith)
            requires
                w * h <= limit / l,
                l >= 1,
        ;
    }
    let d = Dims { w, h, l };
    let p = build_palette(list);
    let ghost pal = palette_of(list.blocks());
    proof {
        crate::palette::lemma_palette_len(list.blocks());
    }
    let air_state = air_block();
    // Which blocks get an entry, and the entry of each cell.
    let none: usize = usize::MAX;
    let mut entry_of_cell: Vec<usize> = Vec::new();
    let cells = d.cell_count();
    let mut c: usize = 0;
    while c < cells
        invariant
            c <= cells,
            entry_of_cell.len() == c,
        decreases cells - c,
    {
        entry_of_cell.push(none);
        c = c + 1;
    }
    let mut kept: Vec<usize> = Vec::new();
    let mut i: usize = 0;
    while i < list.elements.len()
        invariant
            list.wf(),
            d.valid(),
            cells == d.cells(),
            entry_of_cell.len() == cells,
            i <= list.elements.len(),
            kept.len() <= i,
            air ==> kept.len() == i,
            forall|m: int| 0 <= m < kept.len() ==> #[trigger] kept@[m] < list.elements.len(),
            air ==> forall|m: int| 0 <= m < kept.len() ==> #[trigger] kept@[m] == m,
        decreases list.elements.len() - i,
    {
        let keep = air || !list.states[list.elements[i].state].same_as(&air_state);
        if keep {
            match cell_in_box(list.elements[i].pos, lo, d) {
                Some(cell) => entry_of_cell.set(cell, kept.len()),
                None => {},
            }
            kept.push(i);
        }
        i = i + 1;
    }
    let mut tile_of_entry: Vec<usize> = Vec::new();
    let mut k: usize = 0;
    while k < kept.len()
        invariant
            k <= kept.len(),
            tile_of_entry.len() == k,
            forall|m: int| 0 <= m < k ==> #[trigger] tile_of_entry@[m] == none,
        decreases kept.len() - k,
    {
        tile_of_entry.push(none);
        k = k + 1;
    }
    if data.tile_entities_list.original_type == 1 {
        let tiles = &data.tile_entities_list.elements;
        let mut t: usize = 0;
        while t < tiles.len()
            invariant
                d.valid(),
                entry_of_cell.len() == d.cells(),
                tile_of_entry.len() == kept.len(),
                forall|m: int| 0 <= m < kept.len() ==> #[trigger] tile_of_entry@[m] == none || tile_of_entry@[m] < tiles.len(),
                t <= tiles.len(),
            decreases tiles.len() - t,
        {
            match cell_in_box(tiles[t].pos, lo, d) {
                Some(cell) => {
                    let e = entry_of_cell[cell];
                    if e < kept.len() {
                        tile_of_entry.set(e, t);
                    }
                },
                None => {},
            }
            t = t + 1;
        }
    }
    let mut entries: Vec<NbtValue> = Vec::new();
    let mut k: usize = 0;
    while k < kept.len()
        invariant
            list.wf(),
            is_palette_of(list, &p),
            p.indices.len() == list.elements.len(),
            list.elements.len() < 0x7fff_ffff,
            forall|m: int| 0 <= m < kept.len() ==> #[trigger] kept@[m] < list.elements.len(),
            tile_of_entry.len() == kept.len(),
            data.tile_entities_list.original_type == 1 ==> forall|m: int| 0 <= m < kept.len() ==>
                #[trigger] tile_of_entry@[m] == none || tile_of_entry@[m] < data.tile_entities_list.elements.len(),
            is_bbox(list.elements@, lo, hi),
            hi.x - lo.x < 0x7fff_ffff && hi.y - lo.y < 0x7fff_ffff && hi.z - lo.z < 0x7fff_ffff,
            k <= kept.len(),
            pal == palette_of(list.blocks()),
            pal.len() <= list.elements.len(),
            air ==> kept.len() == list.elements.len(),
            air ==> forall|m: int| 0 <= m < kept.len() ==> #[trigger] kept@[m] == m,
            entries@.len() == k,
            forall|m: int| 0 <= m < k ==> {
                let v = #[trigger] entries@[m];
                &&& create_block_entry(v, pal, lo)
                &&& entry_pos_of(v, lo) == list.elements@[kept@[m] as int].pos
                &&& pal[entry_state_of(v)] == list.block_at(kept@[m] as int)
            },
        decreases kept.len() - k,
    {
        let i = kept[k];
        let b = list.elements[i];
        proof {
            assert(lo.x <= list.elements@[i as int].pos.x <= hi.x);
        }
        let rx = b.pos.x - lo.x;
        let ry = b.pos.y - lo.y;
        let rz = b.pos.z - lo.z;
        let pos = NbtValue::List(3, vec![NbtValue::Int(rx), NbtValue::Int(ry), NbtValue::Int(rz)]);
        proof {
            assert(p.indices@[i as int] < pal.len());
        }
        let st = p.indices[i] as i32;
        let e0 = entry("state", NbtValue::Int(st));
        let e1 = entry("pos", pos);
        let mut tag: Vec<(String, NbtValue)> = vec![e0, e1];
        let ghost t0 = tag@;
        proof {
            assert(t0[0] == e0 && t0[1] == e1);
        }
        if data.tile_entities_list.original_type == 1 && tile_of_entry[k] != none {
            tag.push(entry("nbt", copy_tree(&data.tile_entities_list.elements[tile_of_entry[k]].nbt)));
        }
        proof {
            assert(tag@[0] == e0 && tag@[1] == e1);
        }
        let ghost before = entries@;
        entries.push(NbtValue::Compound(tag));
        proof {
            let v = entries@[k as int];
            assert(create_block_entry(v, pal, lo));
            assert(entry_pos_of(v, lo) == list.elements@[i as int].pos);
            assert forall|m: int| 0 <= m < k + 1 implies {
                let v = #[trigger] entries@[m];
                &&& create_block_entry(v, pal, lo)
                &&& entry_pos_of(v, lo) == list.elements@[kept@[m] as int].pos
                &&& pal[entry_state_of(v)] == list.block_at(kept@[m] as int)
            } by {
                if m < k {
                    assert(entries@[m] == before[m]);
                }
            }
        }
        k = k + 1;
    }
    let mut pal_trees: Vec<NbtValue> = Vec::new();
    let mut k: usize = 0;
    while k < p.entries.len()
        invariant
            is_palette_of(list, &p),
            k <= p.entries.len(),
            pal_trees@.len() == k,
            forall|m: int| 0 <= m < k ==> is_entry_tree(#[trigger] pal_trees@[m], palette_of(list.blocks())[m]),
        decreases p.entries.len() - k,
    {
        pal_trees.push(palette_entry_value(&list.states[p.entries[k]]));
        k = k + 1;
    }
    let mut ents: Vec<NbtValue> = Vec::new();
    if data.entities_list.original_type == 1 {
        let mut m: usize = 0;
        while m < data.entities_list.elements.len()
            invariant
                m <= data.entities_list.elements.len(),
            decreases data.entities_list.elements.len() - m,
        {
            ents.push(copy_tree(&data.entities_list.elements[m].nbt));
            m = m + 1;
        }
    }
    let size = NbtValue::List(3, vec![NbtValue::Int(w64 as i32), NbtValue::Int(h64 as i32), NbtValue::Int(l64 as i32)]);
    Ok(vec![
        entry("size", size),
        entry("blocks", NbtValue::List(10, entries)),
        entry("palette", NbtValue::List(10, pal_trees)),
        entry("entities", NbtValue::List(10, ents)),
        entry("DataVersion", NbtValue::Int(3465)),
    ])
}

} // verus!
