//! The Bedrock structure encoder: a flat index list, x outermost, then y,
//! then z, with a second layer left empty.
use vstd::prelude::*;
use crate::encode::{is_props_tree, props_compound};
use crate::error::SchematicError;
use crate::formats::is_grid_of;
use crate::grid::{cell_of, cell_pos, distinct_positions};
use crate::decode::{be_blocks, be_layer0, ints_in, list_at};
use crate::nbt_access::first_with_key;
use crate::grid::{build_block_id_list, Dims, GridOrder};
use crate::model::{BlockData, BlockPos, BlockStatePos, BlockStatePosList};
use crate::nbt::NbtValue;
use crate::palette::{bbox_of, build_palette, bounding_box, is_palette_of, palette_of};

verus! {

/// A model prepared for Bedrock: its bounding box, its palette in
/// first-seen order, each block's palette index, and the palette index of
/// each cell of the box, x outermost, then y, then z; `u32::MAX` marks a cell
/// without a block.
#[derive(Debug)]
pub struct ToBESchematic {
    pub start_pos: BlockPos,
    pub end_pos: BlockPos,
    pub width: i32,
    pub height: i32,
    pub length: i32,
    pub palette: Vec<BlockData>,
    pub ids: Vec<u32>,
    pub cells: Vec<u32>,
}

/// The extents of the bounding box of `es`.
pub open spec fn box_dims(es: Seq<BlockStatePos>) -> (int, int, int) {
    let (lo, hi) = bbox_of(es);
    (hi.x - lo.x + 1, hi.y - lo.y + 1, hi.z - lo.z + 1)
}

/// `es` has blocks, and its bounding box can be addressed.
pub open spec fn be_fits(es: Seq<BlockStatePos>) -> bool {
    let (w, h, l) = box_dims(es);
    &&& 0 < es.len() < 0x7fff_ffff
    &&& w <= 0x7fff_ffff && h <= 0x7fff_ffff && l <= 0x7fff_ffff
    &&& w * h * l <= usize::MAX
}

pub(crate) proof fn lemma_div_bound(a: int, b: int, limit: int)
    requires
        a >= 0,
        b >= 1,
        limit >= 0,
    ensures
        a <= limit / b <==> a * b <= limit,
{
    assert(a <= limit / b ==> a * b <= limit) by (nonlinear_arith)
        requires
            b >= 1,
            limit >= 0,
            a >= 0,
    ;
    assert(a * b <= limit ==> a <= limit / b) by (nonlinear_arith)
        requires
            b >= 1,
            limit >= 0,
            a >= 0,
    ;
}

/// `t` is what `ToBESchematic::new` returns for `list`.
pub open spec fn be_prepared(list: &BlockStatePosList, t: &ToBESchematic) -> bool {
    let d = Dims { w: t.width as usize, h: t.height as usize, l: t.length as usize };
    let pal = palette_of(list.blocks());
    &&& be_fits(list.elements@)
    &&& (t.start_pos, t.end_pos) == bbox_of(list.elements@)
    &&& crate::palette::is_bbox(list.elements@, t.start_pos, t.end_pos)
    &&& (t.width as int, t.height as int, t.length as int) == box_dims(list.elements@)
    &&& t.palette@.len() == pal.len()
    &&& forall|k: int| 0 <= k < pal.len() ==> (#[trigger] t.palette@[k])@ == pal[k]
    &&& t.ids@.len() == list.elements@.len()
    &&& forall|i: int| 0 <= i < t.ids@.len() ==> (#[trigger] t.ids@[i]) < pal.len()
        && pal[t.ids@[i] as int] == list.block_at(i)
    &&& is_grid_of(t.cells@, list.elements@, t.ids@, GridOrder::XYZ, d, t.start_pos, u32::MAX)
}

/// `root` is what `to_be_value` returns for `t`.
pub open spec fn be_value_of(t: &ToBESchematic, root: Seq<(String, NbtValue)>) -> bool {
    &&& root.len() == 4
    &&& root[0].0@ == "format_version"@
    &&& root[1].0@ == "size"@
    &&& root[1].1 is List
    &&& (root[1].1)->List_1@ == seq![NbtValue::Int(t.width), NbtValue::Int(t.height), NbtValue::Int(t.length)]
    &&& root[2].0@ == "structure"@
    &&& root[3].0@ == "structure_world_origin"@
    &&& root[2].1 is Compound && {
        let st = (root[2].1)->Compound_0@;
        &&& st.len() == 3
        &&& st[0].0@ == "palette"@
        &&& be_palette_tree(st[0].1, t.palette@)
        &&& st[1].0@ == "block_indices"@
        &&& be_layers_tree(st[1].1, t.cells@)
    }
}

impl ToBESchematic {
    /// Prepares a model: it succeeds exactly when the model has blocks and
    /// its bounding box can be addressed (see `be_fits`).
    pub fn new(list: &BlockStatePosList) -> (r: Result<ToBESchematic, SchematicError>)
        requires
            list.wf(),
        ensures
            be_fits(list.elements@) <==> r is Ok,
            r matches Err(e) ==> e == SchematicError::Format,
            r matches Ok(t) ==> be_prepared(list, &t),
            r matches Ok(t) ==> {
                let d = Dims { w: t.width as usize, h: t.height as usize, l: t.length as usize };
                let pal = palette_of(list.blocks());
                &&& (t.start_pos, t.end_pos) == bbox_of(list.elements@)
                &&& (t.width as int, t.height as int, t.length as int) == box_dims(list.elements@)
                &&& t.palette@.len() == pal.len()
                &&& forall|k: int| 0 <= k < pal.len() ==> (#[trigger] t.palette@[k])@ == pal[k]
                &&& t.ids@.len() == list.elements@.len()
                &&& forall|i: int| 0 <= i < t.ids@.len() ==> (#[trigger] t.ids@[i]) < pal.len()
                    && pal[t.ids@[i] as int] == list.block_at(i)
                &&& is_grid_of(t.cells@, list.elements@, t.ids@, GridOrder::XYZ, d, t.start_pos, u32::MAX)
            },
    {
        let (lo, hi) = match bounding_box(&list.elements) {
            Some(b) => b,
            None => {
                return Err(SchematicError::Format);
            },
        };
        if list.elements.len() >= 0x7fff_ffff {
            return Err(SchematicError::Format);
        }
        let w64: i64 = hi.x as i64 - lo.x as i64 + 1;
        let h64: i64 = hi.y as i64 - lo.y as i64 + 1;
        let l64: i64 = hi.z as i64 - lo.z as i64 + 1;
        if w64 > 0x7fff_ffff || h64 > 0x7fff_ffff || l64 > 0x7fff_ffff {
            return Err(SchematicError::Format);
        }
        proof {
            assert(lo.x <= hi.x && lo.y <= hi.y && lo.z <= hi.z) by {
                assert(lo.x <= list.elements@[0].pos.x <= hi.x);
            }
        }
        let (w, h, l) = (w64 as usize, h64 as usize, l64 as usize);
        proof {
            lemma_div_bound(w as int, h as int, usize::MAX as int);
        }
        if w > usize::MAX / h {
            proof {
                assert(w * h * l >= w * h) by (nonlinear_arith)
                    requires
                        l >= 1,
                        w * h >= 0,
                ;
            }
            return Err(SchematicError::Format);
        }
        proof {
            lemma_div_bound((w * h) as int, l as int, usize::MAX as int);
        }
        if w * h > usize::MAX / l {
            return Err(SchematicError::Format);
        }
        let d = Dims { w, h, l };
        let p = build_palette(list);
        let ghost pal = palette_of(list.blocks());
        proof {
            crate::palette::lemma_palette_len(list.blocks());
        }
        let mut palette: Vec<BlockData> = Vec::new();
        let mut k: usize = 0;
        while k < p.entries.len()
            invariant
                is_palette_of(list, &p),
                pal == palette_of(list.blocks()),
                k <= p.entries.len(),
                palette@.len() == k,
                forall|m: int| 0 <= m < k ==> (#[trigger] palette@[m])@ == pal[m],
            decreases p.entries.len() - k,
        {
            palette.push(list.states[p.entries[k]].duplicate());
            k = k + 1;
        }
        let cells = build_block_id_list(&list.elements, &p.indices, lo, d, GridOrder::XYZ, 0xffff_ffff);
        let mut ids: Vec<u32> = Vec::new();
        let mut i: usize = 0;
        while i < p.indices.len()
            invariant
                i <= p.indices.len(),
                ids@ == p.indices@.take(i as int),
            decreases p.indices.len() - i,
        {
            ids.push(p.indices[i]);
            proof {
                assert(ids@ =~= p.indices@.take(i + 1));
            }
            i = i + 1;
        }
        proof {
            assert(ids@ =~= p.indices@);
        }
        Ok(ToBESchematic {
            start_pos: lo,
            end_pos: hi,
            width: w64 as i32,
            height: h64 as i32,
            length: l64 as i32,
            palette,
            ids,
            cells,
        })
    }

    /// The root compound of a `.mcstructure` file: format version, size, the
    /// structure and its origin. The structure holds the palette (each
    /// state's `name` and its properties as string `states`), the index
    /// layers (the cells with -1 where no block is, then a layer of -1
    /// only) and no entities.
    pub fn to_be_value(&self) -> (r: Vec<(String, NbtValue)>)
        ensures
            be_value_of(self, r@),
            r@.len() == 4,
            r@[0].0@ == "format_version"@,
            r@[1].0@ == "size"@,
            r@[1].1 is List,
            (r@[1].1)->List_1@ == seq![NbtValue::Int(self.width), NbtValue::Int(self.height), NbtValue::Int(self.length)],
            r@[2].0@ == "structure"@,
            r@[3].0@ == "structure_world_origin"@,
            r@[2].1 is Compound && {
                let st = (r@[2].1)->Compound_0@;
                &&& st.len() == 3
                &&& st[0].0@ == "palette"@
                &&& be_palette_tree(st[0].1, self.palette@)
                &&& st[1].0@ == "block_indices"@
                &&& be_layers_tree(st[1].1, self.cells@)
            },
    {
        let mut pal: Vec<NbtValue> = Vec::new();
        let mut k: usize = 0;
        while k < self.palette.len()
            invariant
                k <= self.palette.len(),
                pal@.len() == k,
                forall|m: int| 0 <= m < k ==> be_entry_tree(#[trigger] pal@[m], self.palette@[m]),
            decreases self.palette.len() - k,
        {
            let b = &self.palette[k];
            pal.push(NbtValue::Compound(vec![
                ("name".to_owned(), NbtValue::String(b.name.clone())),
                ("states".to_owned(), NbtValue::Compound(props_compound(b))),
            ]));
            k = k + 1;
        }
        let mut layer: Vec<NbtValue> = Vec::new();
        let mut empty: Vec<NbtValue> = Vec::new();
        let mut c: usize = 0;
        while c < self.cells.len()
            invariant
                c <= self.cells.len(),
                layer@.len() == c,
                empty@.len() == c,
                forall|m: int| 0 <= m < c ==> #[trigger] layer@[m] == NbtValue::Int(self.cells@[m] as i32),
                forall|m: int| 0 <= m < c ==> #[trigger] empty@[m] == NbtValue::Int(-1i32),
            decreases self.cells.len() - c,
        {
            layer.push(NbtValue::Int(self.cells[c] as i32));
            empty.push(NbtValue::Int(-1));
            c = c + 1;
        }
        let default_map = NbtValue::Compound(vec![
            ("block_palette".to_owned(), NbtValue::List(10, pal)),
            ("block_position_data".to_owned(), NbtValue::Compound(Vec::new())),
        ]);
        let layers = vec![NbtValue::List(3, layer), NbtValue::List(3, empty)];
        let structure = NbtValue::Compound(vec![
            ("palette".to_owned(), NbtValue::Compound(vec![("default".to_owned(), default_map)])),
            ("block_indices".to_owned(), NbtValue::List(9, layers)),
            ("entities".to_owned(), NbtValue::List(0, Vec::new())),
        ]);
        let dims = vec![NbtValue::Int(self.width), NbtValue::Int(self.height), NbtValue::Int(self.length)];
        proof {
            assert(dims@ =~= seq![NbtValue::Int(self.width), NbtValue::Int(self.height), NbtValue::Int(self.length)]);
        }
        vec![
            ("format_version".to_owned(), NbtValue::Int(1)),
            ("size".to_owned(), NbtValue::List(3, dims)),
            ("structure".to_owned(), structure),
            ("structure_world_origin".to_owned(), NbtValue::List(3, vec![NbtValue::Int(0), NbtValue::Int(0), NbtValue::Int(0)])),
        ]
    }
}

/// A Bedrock palette entry of state `b`: its `name` and its properties as
/// the string tags of `states`.
pub open spec fn be_entry_tree(v: NbtValue, b: BlockData) -> bool {
    &&& v is Compound
    &&& v->Compound_0@.len() == 2
    &&& v->Compound_0@[0].0@ == "name"@ && v->Compound_0@[0].1 is String
    &&& (v->Compound_0@[0].1)->String_0@ == b@.0
    &&& v->Compound_0@[1].0@ == "states"@ && v->Compound_0@[1].1 is Compound
    &&& is_props_tree((v->Compound_0@[1].1)->Compound_0@, b@.1)
}

/// `{default: {block_palette: [...], ...}}` with an entry per state, in order.
pub open spec fn be_palette_tree(v: NbtValue, palette: Seq<BlockData>) -> bool {
    &&& v is Compound && v->Compound_0@.len() == 1 && v->Compound_0@[0].0@ == "default"@
    &&& (v->Compound_0@[0].1) is Compound && {
        let d = (v->Compound_0@[0].1)->Compound_0@;
        &&& d.len() >= 1 && d[0].0@ == "block_palette"@ && d[0].1 is List
        &&& (d[0].1)->List_1@.len() == palette.len()
        &&& forall|k: int| 0 <= k < palette.len() ==> be_entry_tree(#[trigger] (d[0].1)->List_1@[k], palette[k])
    }
}

/// Two index layers: the cells (as `i32`, so `u32::MAX` is -1), then -1 for
/// every cell.
pub open spec fn be_layers_tree(v: NbtValue, cells: Seq<u32>) -> bool {
    &&& v is List && (v->List_1)@.len() == 2
    &&& (v->List_1)@[0] is List && (v->List_1)@[1] is List
    &&& ((v->List_1)@[0])->List_1@.len() == cells.len()
    &&& ((v->List_1)@[1])->List_1@.len() == cells.len()
    &&& forall|c: int| 0 <= c < cells.len() ==> #[trigger] ((v->List_1)@[0])->List_1@[c] == NbtValue::Int(cells[c] as i32)
    &&& forall|c: int| 0 <= c < cells.len() ==> #[trigger] ((v->List_1)@[1])->List_1@[c] == NbtValue::Int(-1i32)
}

proof fn lemma_be_blocks_contains(layer: Seq<NbtValue>, d: Dims, c: int, id: i32)
    requires
        0 <= c < layer.len(),
        layer[c] == NbtValue::Int(id),
        id >= 0,
    ensures
        be_blocks(layer, d).contains(BlockStatePos {
            pos: BlockPos {
                x: cell_pos(GridOrder::XYZ, d, c).0 as i32,
                y: cell_pos(GridOrder::XYZ, d, c).1 as i32,
                z: cell_pos(GridOrder::XYZ, d, c).2 as i32,
            },
            state: id as usize,
        }),
    decreases layer.len(),
{
    let r = be_blocks(layer.drop_last(), d);
    if c == layer.len() - 1 {
        assert(be_blocks(layer, d) == r.push(BlockStatePos {
            pos: BlockPos {
                x: cell_pos(GridOrder::XYZ, d, c).0 as i32,
                y: cell_pos(GridOrder::XYZ, d, c).1 as i32,
                z: cell_pos(GridOrder::XYZ, d, c).2 as i32,
            },
            state: id as usize,
        }));
        assert(be_blocks(layer, d)[r.len() as int] == r.push(BlockStatePos {
            pos: BlockPos {
                x: cell_pos(GridOrder::XYZ, d, c).0 as i32,
                y: cell_pos(GridOrder::XYZ, d, c).1 as i32,
                z: cell_pos(GridOrder::XYZ, d, c).2 as i32,
            },
            state: id as usize,
        })[r.len() as int]);
    } else {
        lemma_be_blocks_contains(layer.drop_last(), d, c, id);
        let x = BlockStatePos {
            pos: BlockPos {
                x: cell_pos(GridOrder::XYZ, d, c).0 as i32,
                y: cell_pos(GridOrder::XYZ, d, c).1 as i32,
                z: cell_pos(GridOrder::XYZ, d, c).2 as i32,
            },
            state: id as usize,
        };
        let j = choose|j: int| 0 <= j < r.len() && r[j] == x;
        let full = be_blocks(layer, d);
        assert(full.len() >= r.len());
        assert(full[j] == r[j]);
    }
}

/// Round trip of the Bedrock encoder and decoder on trees: each block of a
/// model whose positions are distinct is among the blocks decoded from the
/// tree that `to_be_value` wrote for it, at its place in the bounding box and
/// with a palette entry of its own state.
pub proof fn lemma_be_round_trip(list: &BlockStatePosList, t: &ToBESchematic, root: Seq<(String, NbtValue)>, i: int)
    requires
        list.wf(),
        distinct_positions(list.elements@),
        0 <= i < list.elements@.len(),
        be_prepared(list, t),
        be_value_of(t, root),
    ensures
        be_blocks(be_layer0(root), Dims { w: t.width as usize, h: t.height as usize, l: t.length as usize }).contains(BlockStatePos {
            pos: BlockPos {
                x: (list.elements@[i].pos.x - t.start_pos.x) as i32,
                y: (list.elements@[i].pos.y - t.start_pos.y) as i32,
                z: (list.elements@[i].pos.z - t.start_pos.z) as i32,
            },
            state: t.ids@[i] as usize,
        }),
        t.palette@[t.ids@[i] as int]@ == list.block_at(i),
        ints_in(list_at(root, "size"@)) == seq![t.width, t.height, t.length],
{
    let es = list.elements@;
    let d = Dims { w: t.width as usize, h: t.height as usize, l: t.length as usize };
    let p = es[i].pos;
    assert(t.start_pos.x <= es[i].pos.x <= t.end_pos.x);
    crate::palette::lemma_palette_len(list.blocks());
    reveal_strlit("structure");
    reveal_strlit("format_version");
    reveal_strlit("size");
    reveal_strlit("palette");
    reveal_strlit("block_indices");
    assert("format_version"@.len() != "structure"@.len() && "size"@.len() != "structure"@.len());
    assert(first_with_key(root, "structure"@, 2));
    crate::nbt_access::lemma_first_unique(root, "structure"@, 2);
    assert(first_with_key(root, "size"@, 1));
    crate::nbt_access::lemma_first_unique(root, "size"@, 1);
    let st = (root[2].1->Compound_0)@;
    assert("palette"@.len() != "block_indices"@.len());
    assert(first_with_key(st, "block_indices"@, 1));
    crate::nbt_access::lemma_first_unique(st, "block_indices"@, 1);
    let layer = ((st[1].1->List_1)@[0]->List_1)@;
    assert(be_layer0(root) == layer);
    let sz = (root[1].1->List_1)@;
    let s0 = sz.drop_last().drop_last().drop_last();
    let s1 = sz.drop_last().drop_last();
    let s2 = sz.drop_last();
    assert(s0 =~= Seq::<NbtValue>::empty());
    assert(s1 =~= seq![NbtValue::Int(t.width)]);
    assert(s2 =~= seq![NbtValue::Int(t.width), NbtValue::Int(t.height)]);
    assert(s1.drop_last() == s0);
    assert(s2.drop_last() == s1);
    assert(ints_in(s0) == Seq::<i32>::empty());
    assert(ints_in(s1) == ints_in(s0).push(t.width));
    assert(ints_in(s2) == ints_in(s1).push(t.height));
    assert(ints_in(sz) == ints_in(s2).push(t.length));
    assert(ints_in(sz) =~= seq![t.width, t.height, t.length]);
    assert(d.valid());
    crate::formats::lemma_flat_round_trip(es, t.ids@, GridOrder::XYZ, d, t.start_pos, u32::MAX, t.cells@, i);
    let c = cell_of(GridOrder::XYZ, d, t.start_pos, p).unwrap();
    assert(t.cells@[c] == t.ids@[i]);
    assert(layer[c] == NbtValue::Int(t.cells@[c] as i32));
    assert(t.ids@[i] < 0x7fff_ffff);
    assert((t.ids@[i] as i32) as usize == t.ids@[i] as usize);
    lemma_be_blocks_contains(layer, d, c, t.ids@[i] as i32);
}

} // verus!
