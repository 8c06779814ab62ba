//! The block layer of the grid formats: a model's blocks to the stored index
//! stream and back, for Litematica (bit-packed words), WorldEdit (varints)
//! and Bedrock (a flat index list).
use vstd::prelude::*;
use crate::bits::{is_packing, is_field, encode_block_states, lemma_get_at_encode_block_states};
use crate::error::SchematicError;
use crate::grid::{
    GridOrder, Dims, cell_pos, cell_of, grid_value, distinct_positions, build_block_id_list,
    blocks_from_ids, lemma_grid_value_own, lemma_cell_index_pos,
};
use crate::model::{BlockPos, BlockStatePos};
use crate::varint::{varint_stream, decode_stream, encode_varints, decode_varints};

verus! {

/// The grid of palette indices that `es` with indices `ids` write over `fill`.
pub open spec fn is_grid_of(grid: Seq<u32>, es: Seq<BlockStatePos>, ids: Seq<u32>, o: GridOrder, d: Dims, start: BlockPos, fill: u32) -> bool {
    &&& grid.len() == d.cells()
    &&& forall|c: int| 0 <= c < d.cells() ==> #[trigger] grid[c] == grid_value(es, ids, es.len() as nat, o, d, start, fill, c)
}

/// Litematica block states: the grid in y, z, x order, packed at `bits` bits.
pub fn encode_lm_blocks(es: &Vec<BlockStatePos>, ids: &Vec<u32>, start: BlockPos, d: Dims, fill: u32, bits: u32)
    -> (r: (Vec<u32>, Vec<u64>))
    requires
        d.valid(),
        ids.len() == es.len(),
        1 <= bits <= 32,
        d.cells() * bits + 63 <= usize::MAX,
    ensures
        is_grid_of(r.0@, es@, ids@, GridOrder::YZX, d, start, fill),
        is_packing(r.0@, bits as nat, r.1@),
{
    let grid = build_block_id_list(es, ids, start, d, GridOrder::YZX, fill);
    let words = encode_block_states(&grid, bits);
    (grid, words)
}

/// WorldEdit block data: the grid in y, z, x order as varints.
pub fn encode_we_blocks(es: &Vec<BlockStatePos>, ids: &Vec<u32>, start: BlockPos, d: Dims, fill: u32)
    -> (r: (Vec<u32>, Vec<u8>))
    requires
        d.valid(),
        ids.len() == es.len(),
    ensures
        is_grid_of(r.0@, es@, ids@, GridOrder::YZX, d, start, fill),
        r.1@ == varint_stream(r.0@),
{
    let grid = build_block_id_list(es, ids, start, d, GridOrder::YZX, fill);
    let bytes = encode_varints(&grid);
    (grid, bytes)
}

/// Decodes WorldEdit block data: one varint per cell of the box, laid out y,
/// then z, then x, from `offset`. A malformed stream, or one whose count is
/// not the cell count, is a format error; an index outside the palette a
/// lookup error.
pub fn decode_we_blocks(data: &Vec<u8>, palette_len: usize, d: Dims, offset: BlockPos)
    -> (r: Result<Vec<BlockStatePos>, SchematicError>)
    requires
        d.valid(),
        d.w <= i32::MAX && d.h <= i32::MAX && d.l <= i32::MAX,
        offset.x + d.w <= i32::MAX,
        offset.y + d.h <= i32::MAX,
        offset.z + d.l <= i32::MAX,
    ensures
        match r {
            Ok(v) => {
                &&& decode_stream(data@) is Some && decode_stream(data@).unwrap().len() == d.cells()
                &&& v.len() == d.cells()
                &&& forall|c: int| 0 <= c < d.cells() ==> #[trigger] v@[c] == (BlockStatePos {
                    pos: BlockPos {
                        x: (offset.x + cell_pos(GridOrder::YZX, d, c).0) as i32,
                        y: (offset.y + cell_pos(GridOrder::YZX, d, c).1) as i32,
                        z: (offset.z + cell_pos(GridOrder::YZX, d, c).2) as i32,
                    },
                    state: decode_stream(data@).unwrap()[c] as usize,
                })
                &&& forall|c: int| 0 <= c < d.cells() ==> #[trigger] v@[c].state < palette_len
            },
            Err(e) => {
                ||| e == SchematicError::Format && !(decode_stream(data@) is Some && decode_stream(data@).unwrap().len() == d.cells())
                ||| e == SchematicError::Lookup && decode_stream(data@) is Some && decode_stream(data@).unwrap().len() == d.cells()
                    && exists|c: int| 0 <= c < d.cells() && #[trigger] decode_stream(data@).unwrap()[c] >= palette_len
            },
        },
{
    let ids = decode_varints(data)?;
    if ids.len() != d.cell_count() {
        return Err(SchematicError::Format);
    }
    let r = blocks_from_ids(&ids, palette_len, GridOrder::YZX, d, offset);
    proof {
        if r is Ok {
            let v = r.unwrap();
            assert forall|c: int| 0 <= c < d.cells() implies #[trigger] v@[c].state < palette_len by {
                assert(ids@[c] < palette_len);
            }
        }
    }
    r
}

/// Round trip of the packed formats: a block of a model whose positions are
/// distinct, inside the box, comes back from the packed words of the model's
/// grid at its own position with its own palette index.
pub proof fn lemma_lm_round_trip(
    es: Seq<BlockStatePos>,
    ids: Seq<u32>,
    d: Dims,
    start: BlockPos,
    fill: u32,
    bits: u32,
    grid: Seq<u32>,
    words: Seq<u64>,
    decoded: Seq<BlockStatePos>,
    i: int,
)
    requires
        d.valid(),
        1 <= bits <= 32,
        ids.len() == es.len(),
        distinct_positions(es),
        0 <= i < es.len(),
        cell_of(GridOrder::YZX, d, start, es[i].pos) is Some,
        (ids[i] as u64) >> (bits as u64) == 0,
        is_grid_of(grid, es, ids, GridOrder::YZX, d, start, fill),
        is_packing(grid, bits as nat, words),
        decoded.len() == d.cells(),
        forall|c: int| 0 <= c < d.cells() ==> {
            &&& (#[trigger] decoded[c]).pos == BlockPos {
                x: (start.x + cell_pos(GridOrder::YZX, d, c).0) as i32,
                y: (start.y + cell_pos(GridOrder::YZX, d, c).1) as i32,
                z: (start.z + cell_pos(GridOrder::YZX, d, c).2) as i32,
            }
            &&& decoded[c].state <= u32::MAX
            &&& is_field(words, (c * bits) as nat, bits as nat, decoded[c].state as u32)
        },
    ensures
        decoded[cell_of(GridOrder::YZX, d, start, es[i].pos).unwrap()].pos == es[i].pos,
        decoded[cell_of(GridOrder::YZX, d, start, es[i].pos).unwrap()].state == ids[i] as usize,
{
    let c = cell_of(GridOrder::YZX, d, start, es[i].pos).unwrap();
    let p = es[i].pos;
    lemma_cell_index_pos(GridOrder::YZX, d, p.x - start.x, p.y - start.y, p.z - start.z);
    lemma_grid_value_own(es, ids, es.len() as nat, GridOrder::YZX, d, start, fill, i);
    assert(grid[c] == ids[i]);
    lemma_get_at_encode_block_states(grid, bits as nat, words, c as nat, decoded[c].state as u32);
}

/// Round trip of the varint format: a block of a model whose positions are
/// distinct, inside the box, comes back from the varints of the model's grid
/// at its own position with its own palette index.
pub proof fn lemma_we_round_trip(
    es: Seq<BlockStatePos>,
    ids: Seq<u32>,
    d: Dims,
    start: BlockPos,
    fill: u32,
    grid: Seq<u32>,
    bytes: Seq<u8>,
    decoded: Seq<BlockStatePos>,
    i: int,
)
    requires
        d.valid(),
        ids.len() == es.len(),
        distinct_positions(es),
        0 <= i < es.len(),
        cell_of(GridOrder::YZX, d, start, es[i].pos) is Some,
        is_grid_of(grid, es, ids, GridOrder::YZX, d, start, fill),
        bytes == varint_stream(grid),
        decoded.len() == d.cells(),
        forall|c: int| 0 <= c < d.cells() ==> #[trigger] decoded[c] == (BlockStatePos {
            pos: BlockPos {
                x: (start.x + cell_pos(GridOrder::YZX, d, c).0) as i32,
                y: (start.y + cell_pos(GridOrder::YZX, d, c).1) as i32,
                z: (start.z + cell_pos(GridOrder::YZX, d, c).2) as i32,
            },
            state: decode_stream(bytes).unwrap()[c] as usize,
        }),
    ensures
        decoded[cell_of(GridOrder::YZX, d, start, es[i].pos).unwrap()].pos == es[i].pos,
        decoded[cell_of(GridOrder::YZX, d, start, es[i].pos).unwrap()].state == ids[i] as usize,
{
    let c = cell_of(GridOrder::YZX, d, start, es[i].pos).unwrap();
    let p = es[i].pos;
    lemma_cell_index_pos(GridOrder::YZX, d, p.x - start.x, p.y - start.y, p.z - start.z);
    lemma_grid_value_own(es, ids, es.len() as nat, GridOrder::YZX, d, start, fill, i);
    crate::varint::lemma_decode_encode(grid);
    assert(decode_stream(bytes).unwrap()[c] == ids[i]);
}

/// Round trip of the flat index formats, in either cell order: a block of a
/// model whose positions are distinct, inside the box, finds its own palette
/// index in its cell of the model's grid, and that cell's coordinates are
/// its position relative to the box.
pub proof fn lemma_flat_round_trip(
    es: Seq<BlockStatePos>,
    ids: Seq<u32>,
    o: GridOrder,
    d: Dims,
    start: BlockPos,
    fill: u32,
    grid: Seq<u32>,
    i: int,
)
    requires
        d.valid(),
        ids.len() == es.len(),
        distinct_positions(es),
        0 <= i < es.len(),
        cell_of(o, d, start, es[i].pos) is Some,
        is_grid_of(grid, es, ids, o, d, start, fill),
    ensures
        0 <= cell_of(o, d, start, es[i].pos).unwrap() < d.cells(),
        grid[cell_of(o, d, start, es[i].pos).unwrap()] == ids[i],
        cell_pos(o, d, cell_of(o, d, start, es[i].pos).unwrap())
            == (es[i].pos.x - start.x, es[i].pos.y - start.y, es[i].pos.z - start.z),
{
    let p = es[i].pos;
    lemma_cell_index_pos(o, d, p.x - start.x, p.y - start.y, p.z - start.z);
    lemma_grid_value_own(es, ids, es.len() as nat, o, d, start, fill, i);
}

} // verus!
