//! Decoders of the tree formats into the canonical model.
use vstd::prelude::*;
use crate::bits::bits_required;
use crate::error::SchematicError;
use crate::grid::{cell_pos, decode_lm_region, index_to_pos, Dims, GridOrder};
use crate::model::{
    BlockPos, BlockStatePos, BlockStatePosList, Entities, EntitiesList, SchematicData, Size, TileEntities, TileEntitiesList,
};
use crate::nbt::{NbtValue, copy_tree, payload_bytes};
use crate::nbt_access::{find_entry, get_compound, get_i32, get_list, get_long_array, get_pos, get_value};
use crate::palette_entry::{entry_view, parse_palette_entry};
use crate::nbt_access::{has_key, value_of};

verus! {

/// A box of the given signed extents, each taken by magnitude: `None`
/// when it has no cell, an error when it is too large to address or to place
/// at `offset`.
/// The magnitudes of a region's signed extents.
pub open spec fn abs_dims(size: BlockPos) -> (int, int, int) {
    (
        if size.x < 0 { -size.x } else { size.x as int },
        if size.y < 0 { -size.y } else { size.y as int },
        if size.z < 0 { -size.z } else { size.z as int },
    )
}

/// A region of these extents at `offset` is empty, or can be addressed and
/// placed.
pub open spec fn region_fits(size: BlockPos, offset: BlockPos) -> bool {
    let (w, h, l) = abs_dims(size);
    w == 0 || h == 0 || l == 0 || {
        &&& w <= 0x7fff_ffff && h <= 0x7fff_ffff && l <= 0x7fff_ffff
        &&& offset.x + w <= 0x7fff_ffff && offset.y + h <= 0x7fff_ffff && offset.z + l <= 0x7fff_ffff
        &&& w * h * l <= usize::MAX / 32
    }
}

pub(crate) fn region_dims(size: BlockPos, offset: BlockPos) -> (r: Result<Option<Dims>, SchematicError>)
    ensures
        region_fits(size, offset) <==> r is Ok,
        r is Ok ==> (r == Ok::<Option<Dims>, SchematicError>(None) <==> (abs_dims(size).0 == 0 || abs_dims(size).1 == 0 || abs_dims(size).2 == 0)),
        r matches Err(e) ==> e == SchematicError::Format,
        r matches Ok(Some(d)) ==> {
            &&& d.valid()
            &&& d.cells() * 32 <= usize::MAX
            &&& d.w <= i32::MAX && d.h <= i32::MAX && d.l <= i32::MAX
            &&& offset.x + d.w <= i32::MAX && offset.y + d.h <= i32::MAX && offset.z + d.l <= i32::MAX
            &&& d.w == (if size.x < 0 { -size.x } else { size.x as int })
            &&& d.h == (if size.y < 0 { -size.y } else { size.y as int })
            &&& d.l == (if size.z < 0 { -size.z } else { size.z as int })
        },
{
    let w: i64 = if size.x < 0 { -(size.x as i64) } else { size.x as i64 };
    let h: i64 = if size.y < 0 { -(size.y as i64) } else { size.y as i64 };
    let l: i64 = if size.z < 0 { -(size.z as i64) } else { size.z as i64 };
    if w == 0 || h == 0 || l == 0 {
        return Ok(None);
    }
    if w > 0x7fff_ffff || h > 0x7fff_ffff || l > 0x7fff_ffff {
        return Err(SchematicError::Format);
    }
    if offset.x as i64 + w > 0x7fff_ffff || offset.y as i64 + h > 0x7fff_ffff || offset.z as i64 + l > 0x7fff_ffff {
        return Err(SchematicError::Format);
    }
    let wu = w as usize;
    let hu = h as usize;
    let lu = l as usize;
    let limit: usize = usize::MAX / 32;
    proof {
        crate::bedrock::lemma_div_bound(wu as int, hu as int, limit as int);
    }
    if wu > limit / hu {
        proof {
            assert(wu * hu * lu >= wu * hu) by (nonlinear_arith)
                requires
                    lu >= 1,
                    wu * hu >= 0,
            ;
        }
        return Err(SchematicError::Format);
    }
    proof {
        assert(wu * hu <= limit) by (nonlinear_arith)
            requires
                wu <= limit / hu,
                hu >= 1,
        ;
        crate::bedrock::lemma_div_bound((wu * hu) as int, lu as int, limit as int);
    }
    let wh = wu * hu;
    if wh > limit / lu {
        return Err(SchematicError::Format);
    }
    proof {
        assert(wh * lu <= limit) by (nonlinear_arith)
            requires
                wh <= limit / lu,
                lu >= 1,
        ;
        assert(limit * 32 <= usize::MAX);
    }
    Ok(Some(Dims { w: wu, h: hu, l: lu }))
}

/// The `x`, `y`, `z` of a position compound entry.
pub open spec fn pos_of(es: Seq<(String, NbtValue)>, key: Seq<char>) -> BlockPos {
    let c = (value_of(es, key)->Compound_0)@;
    BlockPos { x: value_of(c, "x"@)->Int_0, y: value_of(c, "y"@)->Int_0, z: value_of(c, "z"@)->Int_0 }
}

/// A Litematica region that decodes: its fields present and typed, a
/// palette of one to `u32::MAX` compound entries, a box that can be placed,
/// and, for a non-empty box, enough packed words whose every field lies in
/// the palette.
pub open spec fn lm_region_ok(v: NbtValue) -> bool {
    &&& v is Compound
    &&& {
        let c = v->Compound_0@;
        let pal = list_at(c, "BlockStatePalette"@);
        let words = (value_of(c, "BlockStates"@)->LongArray_0)@.map_values(|x: i64| x as u64);
        let size = pos_of(c, "Size"@);
        let (w, h, l) = abs_dims(size);
        let bits = crate::bits::bits_for_palette(pal.len());
        &&& has_key(c, "BlockStates"@) && value_of(c, "BlockStates"@) is LongArray
        &&& crate::nbt_access::pos_ok(c, "Position"@) && crate::nbt_access::pos_ok(c, "Size"@)
        &&& has_key(c, "BlockStatePalette"@) && value_of(c, "BlockStatePalette"@) is List
        &&& 1 <= pal.len() <= 0xffff_ffff
        &&& forall|k: int| 0 <= k < pal.len() ==> (#[trigger] pal[k]) is Compound
        &&& region_fits(size, pos_of(c, "Position"@))
        &&& (w > 0 && h > 0 && l > 0) ==> {
            &&& w * h * l * bits <= 64 * words.len()
            &&& forall|q: int, f: u32| 0 <= q < w * h * l && #[trigger] crate::bits::is_field(words, (q * bits) as nat, bits, f) ==> f < pal.len()
        }
    }
}

/// A Litematica root that decodes: a metadata compound with an
/// `EnclosingSize` position, and a `Regions` compound of regions that decode.
pub open spec fn lm_ok(root: Seq<(String, NbtValue)>) -> bool {
    let rs = compound_at(root, "Regions"@);
    &&& has_key(root, "Metadata"@) && value_of(root, "Metadata"@) is Compound
    &&& crate::nbt_access::pos_ok(compound_at(root, "Metadata"@), "EnclosingSize"@)
    &&& has_key(root, "Regions"@) && value_of(root, "Regions"@) is Compound
    &&& forall|i: int| 0 <= i < rs.len() ==> lm_region_ok(#[trigger] rs[i].1)
}

/// Decodes a Litematica root compound: each region's palette joins the
/// model's states and each cell of its box becomes a block, placed at the
/// region's position; the size is the metadata's enclosing size. Regions with
/// an empty box add their palette only; a region with an empty palette is a
/// format error.
pub fn lm_get_blocks_pos(root: &Vec<(String, NbtValue)>) -> (r: Result<SchematicData, SchematicError>)
    ensures
        r matches Ok(d) ==> d.blocks.wf() && d.tile_entities_list.elements@.len() == 0
            && d.entities_list.elements@.len() == 0 && {
            let es = (value_of(compound_at(root@, "Metadata"@), "EnclosingSize"@)->Compound_0)@;
            &&& value_of(es, "x"@) == NbtValue::Int(d.size.width)
            &&& value_of(es, "y"@) == NbtValue::Int(d.size.height)
            &&& value_of(es, "z"@) == NbtValue::Int(d.size.length)
        },
        lm_ok(root@) ==> r is Ok,
{
    let metadata = get_compound(root, "Metadata")?;
    let enclosing = get_pos(metadata, "EnclosingSize")?;
    let regions = get_compound(root, "Regions")?;
    let mut list = BlockStatePosList::new();
    let mut ri: usize = 0;
    while ri < regions.len()
        invariant
            list.wf(),
            regions@ == compound_at(root@, "Regions"@),
            lm_ok(root@) ==> forall|i: int| 0 <= i < regions@.len() ==> lm_region_ok(#[trigger] regions@[i].1),
        decreases regions.len() - ri,
    {
        let ghost ok = lm_ok(root@);
        let ghost rv = regions@[ri as int].1;
        proof {
            if ok {
                assert(lm_region_ok(rv));
            }
        }
        let region = match &regions[ri].1 {
            NbtValue::Compound(c) => c,
            _ => {
                return Err(SchematicError::Format);
            },
        };
        let stored = get_long_array(region, "BlockStates")?;
        let position = get_pos(region, "Position")?;
        let size = get_pos(region, "Size")?;
        let palette = get_list(region, "BlockStatePalette")?;
        if palette.len() == 0 || palette.len() > 0xffff_ffff {
            return Err(SchematicError::Format);
        }
        let bits = bits_required(palette.len() as u32);
        let base = list.states.len();
        proof {
            if ok {
                assert(palette@ == list_at(rv->Compound_0@, "BlockStatePalette"@));
            }
        }
        let mut k: usize = 0;
        while k < palette.len()
            invariant
                list.wf(),
                base + k == list.states.len(),
                k <= palette.len(),
                ok == lm_ok(root@),
                ok ==> forall|q: int| 0 <= q < palette@.len() ==> (#[trigger] palette@[q]) is Compound,
            decreases palette.len() - k,
        {
            let b = parse_palette_entry(&palette[k], "Name", "Properties", false)?;
            list.add_state(b);
            k = k + 1;
        }
        match region_dims(size, position)? {
            Some(d) => {
                let mut words: Vec<u64> = Vec::new();
                let mut j: usize = 0;
                while j < stored.len()
                    invariant
                        j <= stored.len(),
                        words.len() == j,
                        words@ == stored@.take(j as int).map_values(|x: i64| x as u64),
                    decreases stored.len() - j,
                {
                    words.push(stored[j] as u64);
                    proof {
                        assert(words@ =~= stored@.take(j + 1).map_values(|x: i64| x as u64));
                    }
                    j = j + 1;
                }
                proof {
                    assert(stored@.take(stored.len() as int) =~= stored@);
                }
                proof {
                    assert(d.cells() * bits <= d.cells() * 32) by (nonlinear_arith)
                        requires
                            bits <= 32,
                            d.cells() >= 0,
                    ;
                }
                let blocks = decode_lm_region(&words, bits, d, position, palette.len())?;
                let mut c: usize = 0;
                while c < blocks.len()
                    invariant
                        list.wf(),
                        base + palette.len() == list.states.len(),
                        c <= blocks.len(),
                        blocks.len() == d.cells(),
                        forall|m: int| 0 <= m < blocks.len() ==> (#[trigger] blocks@[m]).state < palette.len(),
                    decreases blocks.len() - c,
                {
                    let b = blocks[c];
                    list.add_by_pos(b.pos.x, b.pos.y, b.pos.z, base + b.state);
                    c = c + 1;
                }
            },
            None => {},
        }
        ri = ri + 1;
    }
    Ok(SchematicData::new(
        list,
        TileEntitiesList { original_type: 2, elements: Vec::new() },
        EntitiesList { original_type: 2, elements: Vec::new() },
        Size { width: enclosing.x, height: enclosing.y, length: enclosing.z },
    ))
}

/// The size of a Bedrock structure: the `Int` items of its `size` list,
/// which must be exactly three.
fn be_size(root: &Vec<(String, NbtValue)>) -> (r: Result<Size, SchematicError>)
    ensures
        r matches Err(e) ==> e != SchematicError::Lookup,
        r matches Ok(s) ==> has_key(root@, "size"@) && value_of(root@, "size"@) is List
            && ints_in(list_at(root@, "size"@)) == seq![s.width, s.height, s.length],
        r is Err ==> !(has_key(root@, "size"@) && value_of(root@, "size"@) is List && ints_in(list_at(root@, "size"@)).len() == 3),
{
    let list = get_list(root, "size")?;
    let dims = ints_of(list);
    if dims.len() != 3 {
        return Err(SchematicError::Format);
    }
    let s = Size { width: dims[0], height: dims[1], length: dims[2] };
    proof {
        assert(dims@ =~= seq![s.width, s.height, s.length]);
    }
    Ok(s)
}

/// The compound entry `key` of a compound.
pub open spec fn compound_at(es: Seq<(String, NbtValue)>, key: Seq<char>) -> Seq<(String, NbtValue)> {
    (value_of(es, key)->Compound_0)@
}

/// The `block_palette` of a Bedrock root.
pub open spec fn be_palette_list(root: Seq<(String, NbtValue)>) -> Seq<NbtValue> {
    list_at(compound_at(compound_at(compound_at(root, "structure"@), "palette"@), "default"@), "block_palette"@)
}

/// The primary index layer of a Bedrock root (empty when absent).
pub open spec fn be_layer0(root: Seq<(String, NbtValue)>) -> Seq<NbtValue> {
    let ix = list_at(compound_at(root, "structure"@), "block_indices"@);
    if ix.len() > 0 && ix[0] is List {
        (ix[0]->List_1)@
    } else {
        seq![]
    }
}

/// The blocks of a primary layer: each non-negative `Int` entry `i` is a
/// block of that palette index at cell `i` of the box, x outermost, then y,
/// then z.
pub open spec fn be_blocks(layer: Seq<NbtValue>, d: Dims) -> Seq<BlockStatePos>
    decreases layer.len(),
{
    if layer.len() == 0 {
        seq![]
    } else {
        let r = be_blocks(layer.drop_last(), d);
        let i = layer.len() - 1;
        let c = cell_pos(GridOrder::XYZ, d, i);
        match layer.last() {
            NbtValue::Int(id) => if id >= 0 {
                r.push(BlockStatePos { pos: BlockPos { x: c.0 as i32, y: c.1 as i32, z: c.2 as i32 }, state: id as usize })
            } else {
                r
            },
            _ => r,
        }
    }
}

/// A Bedrock root of the right shape: a size list of three `Int`s, the
/// `structure` compound with `palette.default.block_palette` a list of
/// compounds and a `block_indices` list; where the primary layer is not
/// empty, a positive size that can be addressed and at least as many cells
/// as the layer has entries.
pub open spec fn be_shape_ok(root: Seq<(String, NbtValue)>) -> bool {
    let sz = ints_in(list_at(root, "size"@));
    let st = compound_at(root, "structure"@);
    let pc = compound_at(st, "palette"@);
    let dc = compound_at(pc, "default"@);
    let layer = be_layer0(root);
    &&& has_key(root, "size"@) && value_of(root, "size"@) is List && sz.len() == 3
    &&& has_key(root, "structure"@) && value_of(root, "structure"@) is Compound
    &&& has_key(st, "palette"@) && value_of(st, "palette"@) is Compound
    &&& has_key(pc, "default"@) && value_of(pc, "default"@) is Compound
    &&& has_key(dc, "block_palette"@) && value_of(dc, "block_palette"@) is List
    &&& forall|k: int| 0 <= k < be_palette_list(root).len() ==> (#[trigger] be_palette_list(root)[k]) is Compound
    &&& has_key(st, "block_indices"@) && value_of(st, "block_indices"@) is List
    &&& layer.len() > 0 ==> {
        &&& sz[0] >= 1 && sz[1] >= 1 && sz[2] >= 1
        &&& region_fits(BlockPos { x: sz[0], y: sz[1], z: sz[2] }, BlockPos { x: 0, y: 0, z: 0 })
        &&& layer.len() <= sz[0] * sz[1] * sz[2]
    }
}

/// A Bedrock root that decodes: the right shape, and every non-negative
/// index of the primary layer inside the palette.
pub open spec fn be_ok(root: Seq<(String, NbtValue)>) -> bool {
    &&& be_shape_ok(root)
    &&& forall|i: int| 0 <= i < be_layer0(root).len() && (#[trigger] be_layer0(root)[i]) is Int && be_layer0(root)[i]->Int_0 >= 0
        ==> be_layer0(root)[i]->Int_0 < be_palette_list(root).len()
}

/// Decodes a Bedrock structure root: the `structure` compound's default
/// palette becomes the model's states, and every non-negative index of the
/// primary layer becomes a block at its cell, x outermost, then y, then z
/// (see `be_blocks`). The liquid layer is not read. An index past the palette
/// is a lookup error; a layer longer than the box is a format error.
pub fn be_get_blocks_pos(root: &Vec<(String, NbtValue)>) -> (r: Result<SchematicData, SchematicError>)
    ensures
        r matches Ok(d) ==> {
            let pal = be_palette_list(root@);
            let layer = be_layer0(root@);
            &&& ints_in(list_at(root@, "size"@)) == seq![d.size.width, d.size.height, d.size.length]
            &&& d.blocks.wf()
            &&& d.tile_entities_list.elements@.len() == 0
            &&& d.entities_list.elements@.len() == 0
            &&& d.blocks.states@.len() == pal.len()
            &&& forall|k: int| 0 <= k < pal.len() ==>
                (#[trigger] d.blocks.states@[k])@ == entry_view(pal[k], "name"@, "states"@, true)
            &&& d.blocks.elements@ == be_blocks(layer, Dims { w: d.size.width as usize, h: d.size.height as usize, l: d.size.length as usize })
            &&& forall|i: int| 0 <= i < layer.len() && (#[trigger] layer[i]) is Int && layer[i]->Int_0 >= 0
                ==> layer[i]->Int_0 < pal.len()
        },
        r matches Err(e) ==> (e == SchematicError::Lookup ==> exists|i: int| 0 <= i < be_layer0(root@).len()
            && (#[trigger] be_layer0(root@)[i]) is Int && be_layer0(root@)[i]->Int_0 >= be_palette_list(root@).len()),
        be_ok(root@) ==> r is Ok,
        be_shape_ok(root@) && !be_ok(root@) ==> r == Err::<SchematicData, SchematicError>(SchematicError::Lookup),
{
    let size = be_size(root)?;
    let structure = get_compound(root, "structure")?;
    let palette_comp = get_compound(structure, "palette")?;
    let default_comp = get_compound(palette_comp, "default")?;
    let palette = get_list(default_comp, "block_palette")?;
    let ghost pal = be_palette_list(root@);
    proof {
        assert(pal == palette@);
    }
    let mut list = BlockStatePosList::new();
    let mut k: usize = 0;
    while k < palette.len()
        invariant
            list.wf(),
            k == list.states.len(),
            k <= palette.len(),
            pal == palette@,
            pal == be_palette_list(root@),
            list.elements@.len() == 0,
            forall|m: int| 0 <= m < k ==> (#[trigger] list.states@[m])@ == entry_view(palette@[m], "name"@, "states"@, true),
        decreases palette.len() - k,
    {
        let b = match parse_palette_entry(&palette[k], "name", "states", true) {
            Ok(b) => b,
            Err(e) => {
                proof {
                    assert(!(pal[k as int] is Compound));
                    assert(!(be_palette_list(root@)[k as int] is Compound));
                    assert(!be_shape_ok(root@));
                }
                return Err(e);
            },
        };
        list.add_state(b);
        k = k + 1;
    }
    let indices = get_list(structure, "block_indices")?;
    proof {
        assert(list.elements@ =~= be_blocks(be_layer0(root@).take(0), Dims { w: size.width as usize, h: size.height as usize, l: size.length as usize }));
    }
    if indices.len() > 0 {
        match &indices[0] {
            NbtValue::List(_, layer) => {
                proof {
                    assert(be_layer0(root@) == layer@);
                }
                if layer.len() > 0 {
                    proof {
                        assert(ints_in(list_at(root@, "size"@)) == seq![size.width, size.height, size.length]);
                    }
                    if size.width < 1 || size.height < 1 || size.length < 1 {
                        return Err(SchematicError::Format);
                    }
                    let d = match region_dims(BlockPos { x: size.width, y: size.height, z: size.length }, BlockPos { x: 0, y: 0, z: 0 })? {
                        Some(d) => d,
                        None => {
                            return Err(SchematicError::Format);
                        },
                    };
                    if size.width < 0 || size.height < 0 || size.length < 0 {
                        return Err(SchematicError::Format);
                    }
                    if layer.len() > d.cell_count() {
                        return Err(SchematicError::Format);
                    }
                    let mut i: usize = 0;
                    while i < layer.len()
                        invariant
                            list.wf(),
                            list.states.len() == palette.len(),
                            d.valid(),
                            d.w == size.width && d.h == size.height && d.l == size.length,
                            layer.len() <= d.cells(),
                            i <= layer.len(),
                            pal == palette@,
                            pal == be_palette_list(root@),
                            be_layer0(root@) == layer@,
                            forall|m: int| 0 <= m < palette.len() ==> (#[trigger] list.states@[m])@ == entry_view(palette@[m], "name"@, "states"@, true),
                            list.elements@ == be_blocks(layer@.take(i as int), d),
                            forall|m: int| 0 <= m < i && (#[trigger] layer@[m]) is Int && layer@[m]->Int_0 >= 0
                                ==> layer@[m]->Int_0 < palette.len(),
                            forall|m: int| 0 <= m < list.elements@.len() ==> {
                                let p = (#[trigger] list.elements@[m]).pos;
                                0 <= p.x < size.width && 0 <= p.y < size.height && 0 <= p.z < size.length
                            },
                        decreases layer.len() - i,
                    {
                        proof {
                            assert(layer@.take(i + 1).drop_last() =~= layer@.take(i as int));
                            assert(layer@.take(i + 1).last() == layer@[i as int]);
                        }
                        match &layer[i] {
                            NbtValue::Int(id) => {
                                if *id >= 0 {
                                    if *id as usize >= palette.len() {
                                        return Err(SchematicError::Lookup);
                                    }
                                    let (x, y, z) = index_to_pos(GridOrder::XYZ, d, i);
                                    list.add_by_pos(x as i32, y as i32, z as i32, *id as usize);
                                }
                            },
                            _ => {},
                        }
                        i = i + 1;
                    }
                    proof {
                        assert(layer@.take(layer.len() as int) =~= layer@);
                    }
                }
            },
            _ => {},
        }
    }
    Ok(SchematicData::new(
        list,
        TileEntitiesList { original_type: 5, elements: Vec::new() },
        EntitiesList { original_type: 5, elements: Vec::new() },
        size,
    ))
}

/// The `Int` items of a list, in order.
pub open spec fn ints_in(s: Seq<NbtValue>) -> Seq<i32>
    decreases s.len(),
{
    if s.len() == 0 {
        seq![]
    } else {
        let r = ints_in(s.drop_last());
        match s.last() {
            NbtValue::Int(n) => r.push(n),
            _ => r,
        }
    }
}

/// The `Int` items of a list, in order.
fn ints_of(list: &Vec<NbtValue>) -> (r: Vec<i32>)
    ensures
        r@ == ints_in(list@),
{
    let mut out: Vec<i32> = Vec::new();
    let mut i: usize = 0;
    while i < list.len()
        invariant
            i <= list.len(),
            out@ == ints_in(list@.take(i as int)),
        decreases list.len() - i,
    {
        proof {
            assert(list@.take(i + 1).drop_last() =~= list@.take(i as int));
            assert(list@.take(i + 1).last() == list@[i as int]);
        }
        match &list[i] {
            NbtValue::Int(n) => out.push(*n),
            _ => {},
        }
        i = i + 1;
    }
    proof {
        assert(list@.take(list.len() as int) =~= list@);
    }
    out
}

/// The position a tree stores: a list whose `Int` items are three
/// coordinates, or an `IntArray` of three.
pub open spec fn coords_spec(v: NbtValue) -> Option<BlockPos> {
    match v {
        NbtValue::List(_, items) => {
            let c = ints_in(items@);
            if c.len() == 3 {
                Some(BlockPos { x: c[0], y: c[1], z: c[2] })
            } else {
                None
            }
        },
        NbtValue::IntArray(a) => if a.len() == 3 {
            Some(BlockPos { x: a@[0], y: a@[1], z: a@[2] })
        } else {
            None
        },
        _ => None,
    }
}

/// A position stored as a list whose `Int` items are three coordinates, or
/// as an `IntArray` of three (see `coords_spec`).
fn coords_of(v: &NbtValue) -> (r: Result<BlockPos, SchematicError>)
    ensures
        match r {
            Ok(p) => coords_spec(*v) == Some(p),
            Err(e) => coords_spec(*v) is None && e == SchematicError::Format,
        },
{
    let c = match v {
        NbtValue::List(_, items) => ints_of(items),
        NbtValue::IntArray(a) => {
            if a.len() != 3 {
                return Err(SchematicError::Format);
            }
            return Ok(BlockPos { x: a[0], y: a[1], z: a[2] });
        },
        _ => {
            return Err(SchematicError::Format);
        },
    };
    if c.len() != 3 {
        return Err(SchematicError::Format);
    }
    Ok(BlockPos { x: c[0], y: c[1], z: c[2] })
}

/// A block entry of a Create file: a compound with a stored position `pos`
/// and an `Int` palette index `state`.
pub open spec fn create_entry_ok(v: NbtValue) -> bool {
    &&& v is Compound
    &&& has_key(v->Compound_0@, "pos"@)
    &&& coords_spec(value_of(v->Compound_0@, "pos"@)) is Some
    &&& has_key(v->Compound_0@, "state"@)
    &&& value_of(v->Compound_0@, "state"@) is Int
}

pub open spec fn create_entry_pos(v: NbtValue) -> BlockPos {
    coords_spec(value_of(v->Compound_0@, "pos"@)).unwrap()
}

pub open spec fn create_entry_state(v: NbtValue) -> i32 {
    value_of(v->Compound_0@, "state"@)->Int_0
}

/// The list entry `key` of a compound.
pub open spec fn list_at(es: Seq<(String, NbtValue)>, key: Seq<char>) -> Seq<NbtValue> {
    (value_of(es, key)->List_1)@
}

/// A root compound that a Create decoder reads without error: lists
/// `blocks`, `palette` and `size` (at least three `Int`s), palette entries
/// that are compounds, and block entries whose states lie in the palette.
pub open spec fn create_ok(root: Seq<(String, NbtValue)>) -> bool {
    &&& has_key(root, "blocks"@) && value_of(root, "blocks"@) is List
    &&& has_key(root, "palette"@) && value_of(root, "palette"@) is List
    &&& has_key(root, "size"@) && value_of(root, "size"@) is List
    &&& ints_in(list_at(root, "size"@)).len() >= 3
    &&& forall|k: int| 0 <= k < list_at(root, "palette"@).len() ==> (#[trigger] list_at(root, "palette"@)[k]) is Compound
    &&& forall|i: int| 0 <= i < list_at(root, "blocks"@).len() ==> {
        let b = #[trigger] list_at(root, "blocks"@)[i];
        create_entry_ok(b) && 0 <= create_entry_state(b) < list_at(root, "palette"@).len()
    }
}

/// A Create root compound of the right shape, whatever its block states:
/// `create_ok` without the palette range of the states.
pub open spec fn create_shape_ok(root: Seq<(String, NbtValue)>) -> bool {
    &&& has_key(root, "blocks"@) && value_of(root, "blocks"@) is List
    &&& has_key(root, "palette"@) && value_of(root, "palette"@) is List
    &&& has_key(root, "size"@) && value_of(root, "size"@) is List
    &&& ints_in(list_at(root, "size"@)).len() >= 3
    &&& forall|k: int| 0 <= k < list_at(root, "palette"@).len() ==> (#[trigger] list_at(root, "palette"@)[k]) is Compound
    &&& forall|i: int| 0 <= i < list_at(root, "blocks"@).len() ==> create_entry_ok(#[trigger] list_at(root, "blocks"@)[i])
}

/// The indices of the block entries that carry `nbt`, in order.
pub open spec fn nbt_entries(blocks: Seq<NbtValue>) -> Seq<int>
    decreases blocks.len(),
{
    if blocks.len() == 0 {
        seq![]
    } else {
        let r = nbt_entries(blocks.drop_last());
        if blocks.last() is Compound && has_key(blocks.last()->Compound_0@, "nbt"@) {
            r.push(blocks.len() - 1)
        } else {
            r
        }
    }
}

proof fn lemma_nbt_entries_bound(blocks: Seq<NbtValue>)
    ensures
        forall|t: int| 0 <= t < nbt_entries(blocks).len() ==> 0 <= #[trigger] nbt_entries(blocks)[t] < blocks.len(),
    decreases blocks.len(),
{
    if blocks.len() > 0 {
        lemma_nbt_entries_bound(blocks.drop_last());
        let r = nbt_entries(blocks.drop_last());
        assert forall|t: int| 0 <= t < nbt_entries(blocks).len() implies 0 <= #[trigger] nbt_entries(blocks)[t] < blocks.len() by {
            if t < r.len() {
                assert(nbt_entries(blocks)[t] == r[t]);
            }
        }
    }
}

/// Decodes a Create root compound: the palette entries become the model's
/// states in order; block entry `i` becomes block `i`, at its `pos`, of state
/// `state`; each entry's `nbt`, where present, a tile entity at that position;
/// the size is the first three `Int`s of `size`. It succeeds exactly on the
/// trees of `create_ok`; a state outside the palette is a lookup error.
pub fn create_get_blocks_pos(root: &Vec<(String, NbtValue)>) -> (r: Result<SchematicData, SchematicError>)
    ensures
        create_ok(root@) <==> r is Ok,
        r matches Ok(d) ==> {
            let blocks = list_at(root@, "blocks"@);
            let palette = list_at(root@, "palette"@);
            let sz = ints_in(list_at(root@, "size"@));
            &&& d.blocks.wf()
            &&& d.tile_entities_list.original_type == 1
            &&& d.entities_list.original_type == 1
            &&& d.size == (Size { width: sz[0], height: sz[1], length: sz[2] })
            &&& d.blocks.states@.len() == palette.len()
            &&& forall|k: int| 0 <= k < palette.len() ==>
                (#[trigger] d.blocks.states@[k])@ == entry_view(palette[k], "Name"@, "Properties"@, false)
            &&& d.blocks.elements@.len() == blocks.len()
            &&& forall|i: int| 0 <= i < blocks.len() ==> #[trigger] d.blocks.elements@[i] == (BlockStatePos {
                pos: create_entry_pos(blocks[i]),
                state: create_entry_state(blocks[i]) as usize,
            })
            &&& d.tile_entities_list.elements@.len() == nbt_entries(blocks).len()
            &&& forall|t: int| 0 <= t < nbt_entries(blocks).len() ==> {
                let b = blocks[nbt_entries(blocks)[t]];
                &&& 0 <= nbt_entries(blocks)[t] < blocks.len()
                &&& (#[trigger] d.tile_entities_list.elements@[t]).pos == create_entry_pos(b)
                &&& payload_bytes(d.tile_entities_list.elements@[t].nbt) == payload_bytes(value_of(b->Compound_0@, "nbt"@))
            }
        },
        create_shape_ok(root@) && !create_ok(root@) ==> r == Err::<SchematicData, SchematicError>(SchematicError::Lookup),
        r matches Err(e) ==> (e == SchematicError::Lookup ==> exists|i: int| 0 <= i < list_at(root@, "blocks"@).len()
            && create_entry_ok(#[trigger] list_at(root@, "blocks"@)[i])
            && !(0 <= create_entry_state(list_at(root@, "blocks"@)[i]) < list_at(root@, "palette"@).len())),
{
    let blocks = get_list(root, "blocks")?;
    let palette = get_list(root, "palette")?;
    let sizes = ints_of(get_list(root, "size")?);
    proof {
        assert(list_at(root@, "blocks"@) == blocks@);
        assert(list_at(root@, "palette"@) == palette@);
    }
    if sizes.len() < 3 {
        return Err(SchematicError::Format);
    }
    let mut list = BlockStatePosList::new();
    let mut k: usize = 0;
    while k < palette.len()
        invariant
            list.wf(),
            k == list.states.len(),
            k <= palette.len(),
            list.elements@.len() == 0,
            list_at(root@, "palette"@) == palette@,
            forall|m: int| 0 <= m < k ==> (#[trigger] palette@[m]) is Compound,
            forall|m: int| 0 <= m < k ==> (#[trigger] list.states@[m])@ == entry_view(palette@[m], "Name"@, "Properties"@, false),
        decreases palette.len() - k,
    {
        let b = match parse_palette_entry(&palette[k], "Name", "Properties", false) {
            Ok(b) => b,
            Err(e) => {
                proof {
                    assert(!(palette@[k as int] is Compound));
                    assert(list_at(root@, "palette"@)[k as int] == palette@[k as int]);
                }
                return Err(e);
            },
        };
        list.add_state(b);
        k = k + 1;
    }
    let mut tiles: Vec<TileEntities> = Vec::new();
    let mut i: usize = 0;
    while i < blocks.len()
        invariant
            list.wf(),
            list.states.len() == palette.len(),
            forall|m: int| 0 <= m < palette.len() ==> (#[trigger] list.states@[m])@ == entry_view(palette@[m], "Name"@, "Properties"@, false),
            forall|m: int| 0 <= m < palette.len() ==> (#[trigger] palette@[m]) is Compound,
            list_at(root@, "palette"@) == palette@,
            list_at(root@, "blocks"@) == blocks@,
            i <= blocks.len(),
            list.elements@.len() == i,
            forall|m: int| 0 <= m < i ==> create_entry_ok(#[trigger] blocks@[m]) && list.elements@[m] == (BlockStatePos {
                pos: create_entry_pos(blocks@[m]),
                state: create_entry_state(blocks@[m]) as usize,
            }) && 0 <= create_entry_state(blocks@[m]) < palette.len(),
            tiles@.len() == nbt_entries(blocks@.take(i as int)).len(),
            forall|t: int| 0 <= t < tiles@.len() ==> {
                let ix = nbt_entries(blocks@.take(i as int))[t];
                let b = blocks@[ix];
                &&& 0 <= ix < i
                &&& (#[trigger] tiles@[t]).pos == create_entry_pos(b)
                &&& payload_bytes(tiles@[t].nbt) == payload_bytes(value_of(b->Compound_0@, "nbt"@))
            },
        decreases blocks.len() - i,
    {
        proof {
            assert(blocks@.take(i + 1).drop_last() =~= blocks@.take(i as int));
            assert(blocks@.take(i + 1).last() == blocks@[i as int]);
            lemma_nbt_entries_bound(blocks@.take(i as int));
        }
        proof {
            assert(list_at(root@, "blocks"@)[i as int] == blocks@[i as int]);
        }
        let c = match &blocks[i] {
            NbtValue::Compound(c) => c,
            _ => {
                return Err(SchematicError::Format);
            },
        };
        let pv = match get_value(c, "pos") {
            Ok(v) => v,
            Err(e) => {
                return Err(e);
            },
        };
        let pos = match coords_of(pv) {
            Ok(p) => p,
            Err(e) => {
                return Err(e);
            },
        };
        let state = match get_i32(c, "state") {
            Ok(x) => x,
            Err(e) => {
                return Err(e);
            },
        };
        if state < 0 || state as usize >= palette.len() {
            proof {
                assert(create_entry_ok(blocks@[i as int]));
            }
            return Err(SchematicError::Lookup);
        }
        list.add_by_pos(pos.x, pos.y, pos.z, state as usize);
        let ghost before = tiles@;
        match find_entry(c, "nbt") {
            Some(j) => {
                tiles.push(TileEntities { pos, nbt: copy_tree(&c[j].1) });
                proof {
                    assert forall|t: int| 0 <= t < tiles@.len() implies {
                        let ix = nbt_entries(blocks@.take(i + 1))[t];
                        let b = blocks@[ix];
                        &&& 0 <= ix < i + 1
                        &&& (#[trigger] tiles@[t]).pos == create_entry_pos(b)
                        &&& payload_bytes(tiles@[t].nbt) == payload_bytes(value_of(b->Compound_0@, "nbt"@))
                    } by {
                        if t < before.len() {
                            assert(tiles@[t] == before[t]);
                        }
                    }
                }
            },
            None => {},
        }
        i = i + 1;
    }
    proof {
        assert(blocks@.take(blocks.len() as int) =~= blocks@);
    }
    proof {
        assert forall|m: int| 0 <= m < list_at(root@, "palette"@).len() implies (#[trigger] list_at(root@, "palette"@)[m]) is Compound by {
            assert(palette@[m] is Compound);
        }
        assert forall|m: int| 0 <= m < list_at(root@, "blocks"@).len() implies {
            let b = #[trigger] list_at(root@, "blocks"@)[m];
            create_entry_ok(b) && 0 <= create_entry_state(b) < list_at(root@, "palette"@).len()
        } by {
            assert(create_entry_ok(blocks@[m]));
        }
    }
    let mut entities: Vec<Entities> = Vec::new();
    match find_entry(root, "entities") {
        Some(j) => match &root[j].1 {
            NbtValue::List(_, items) => {
                let mut m: usize = 0;
                while m < items.len()
                    invariant
                        m <= items.len(),
                    decreases items.len() - m,
                {
                    entities.push(Entities { nbt: copy_tree(&items[m]) });
                    m = m + 1;
                }
            },
            _ => {},
        },
        None => {},
    }
    Ok(SchematicData::new(
        list,
        TileEntitiesList { original_type: 1, elements: tiles },
        EntitiesList { original_type: 1, elements: entities },
        Size { width: sizes[0], height: sizes[1], length: sizes[2] },
    ))
}

} // verus!
