//! Dense grids: the cell order of each format, and the conversion between
//! positioned blocks and flat arrays of palette indices.
use vstd::prelude::*;
use vstd::arithmetic::div_mod::lemma_fundamental_div_mod_converse;
use crate::error::SchematicError;
use crate::model::{BlockPos, BlockStatePos};
use crate::bits::{is_field, get_at};

verus! {

/// The order in which a format lays out the cells of a box.
#[derive(Debug, Clone, Copy, PartialEq, Eq, Structural)]
pub enum GridOrder {
    /// y outermost, then z, then x (Litematica, WorldEdit).
    YZX,
    /// x outermost, then y, then z (Bedrock).
    XYZ,
    /// z outermost, then y, then x (the JSON-wrapped format).
    ZYX,
}

/// The dimensions of a box in cells.
#[derive(Debug, Clone, Copy, PartialEq, Eq, Structural)]
pub struct Dims {
    pub w: usize,
    pub h: usize,
    pub l: usize,
}

impl Dims {
    pub open spec fn cells(&self) -> int {
        self.w * self.h * self.l
    }

    /// A box of at least one cell whose cell count fits in `usize`.
    pub open spec fn valid(&self) -> bool {
        &&& self.w >= 1 && self.h >= 1 && self.l >= 1
        &&& self.w * self.h * self.l <= usize::MAX
    }

    pub open spec fn contains(&self, x: int, y: int, z: int) -> bool {
        0 <= x < self.w && 0 <= y < self.h && 0 <= z < self.l
    }

    /// The number of cells.
    pub fn cell_count(&self) -> (r: usize)
        requires
            self.valid(),
        ensures
            r == self.cells(),
    {
        proof {
            assert(self.w * self.h <= self.w * self.h * self.l) by (nonlinear_arith)
                requires
                    self.l >= 1,
                    self.w >= 1,
                    self.h >= 1,
            ;
        }
        self.w * self.h * self.l
    }
}

/// The cell number of `(x, y, z)` in order `o`.
pub open spec fn cell_index(o: GridOrder, d: Dims, x: int, y: int, z: int) -> int {
    match o {
        GridOrder::YZX => (y * d.l + z) * d.w + x,
        GridOrder::XYZ => (x * d.h + y) * d.l + z,
        GridOrder::ZYX => (z * d.h + y) * d.w + x,
    }
}

/// The coordinates `(x, y, z)` of cell number `i` in order `o`.
pub open spec fn cell_pos(o: GridOrder, d: Dims, i: int) -> (int, int, int) {
    match o {
        GridOrder::YZX => (i % (d.w as int), (i / (d.w as int)) / (d.l as int), (i / (d.w as int)) % (d.l as int)),
        GridOrder::XYZ => ((i / (d.l as int)) / (d.h as int), (i / (d.l as int)) % (d.h as int), i % (d.l as int)),
        GridOrder::ZYX => (i % (d.w as int), (i / (d.w as int)) % (d.h as int), (i / (d.w as int)) / (d.h as int)),
    }
}

proof fn lemma_cells_pos(d: Dims)
    requires
        d.valid(),
    ensures
        d.w * d.h >= 1,
        d.cells() >= d.w,
        d.cells() >= d.h * d.l,
{
    assert(d.w * d.h >= 1) by (nonlinear_arith)
        requires
            d.w >= 1,
            d.h >= 1,
    ;
    assert(d.w * d.h * d.l >= d.w) by (nonlinear_arith)
        requires
            d.w >= 1,
            d.h >= 1,
            d.l >= 1,
    ;
    assert(d.w * d.h * d.l >= d.h * d.l) by (nonlinear_arith)
        requires
            d.w >= 1,
            d.h >= 1,
            d.l >= 1,
    ;
}

/// Every cell of a box has a number below the cell count, and the number
/// gives the cell back.
pub proof fn lemma_cell_index_pos(o: GridOrder, d: Dims, x: int, y: int, z: int)
    requires
        d.valid(),
        d.contains(x, y, z),
    ensures
        0 <= cell_index(o, d, x, y, z) < d.cells(),
        cell_pos(o, d, cell_index(o, d, x, y, z)) == (x, y, z),
{
    let (w, h, l) = (d.w as int, d.h as int, d.l as int);
    match o {
        GridOrder::YZX => {
            let a = y * l + z;
            assert(0 <= a < h * l) by (nonlinear_arith)
                requires
                    0 <= y < h,
                    0 <= z < l,
                    a == y * l + z,
            ;
            assert(0 <= a * w + x < w * h * l) by (nonlinear_arith)
                requires
                    0 <= a < h * l,
                    0 <= x < w,
            ;
            lemma_fundamental_div_mod_converse(a * w + x, w, a, x);
            lemma_fundamental_div_mod_converse(a, l, y, z);
        },
        GridOrder::XYZ => {
            let a = x * h + y;
            assert(0 <= a < w * h) by (nonlinear_arith)
                requires
                    0 <= x < w,
                    0 <= y < h,
                    a == x * h + y,
            ;
            assert(0 <= a * l + z < w * h * l) by (nonlinear_arith)
                requires
                    0 <= a < w * h,
                    0 <= z < l,
            ;
            lemma_fundamental_div_mod_converse(a * l + z, l, a, z);
            lemma_fundamental_div_mod_converse(a, h, x, y);
        },
        GridOrder::ZYX => {
            let a = z * h + y;
            assert(0 <= a < l * h) by (nonlinear_arith)
                requires
                    0 <= z < l,
                    0 <= y < h,
                    a == z * h + y,
            ;
            assert(0 <= a * w + x < w * h * l) by (nonlinear_arith)
                requires
                    0 <= a < l * h,
                    0 <= x < w,
            ;
            lemma_fundamental_div_mod_converse(a * w + x, w, a, x);
            lemma_fundamental_div_mod_converse(a, h, z, y);
        },
    }
}

/// Every cell number below the cell count names a cell of the box, whose
/// number it is.
pub proof fn lemma_cell_pos_index(o: GridOrder, d: Dims, i: int)
    requires
        d.valid(),
        0 <= i < d.cells(),
    ensures
        d.contains(cell_pos(o, d, i).0, cell_pos(o, d, i).1, cell_pos(o, d, i).2),
        cell_index(o, d, cell_pos(o, d, i).0, cell_pos(o, d, i).1, cell_pos(o, d, i).2) == i,
{
    let (w, h, l) = (d.w as int, d.h as int, d.l as int);
    match o {
        GridOrder::YZX => {
            let a = i / w;
            assert(i == a * w + i % w && 0 <= i % w < w) by (nonlinear_arith)
                requires
                    w >= 1,
                    a == i / w,
            ;
            assert(a == (a / l) * l + a % l && 0 <= a % l < l) by (nonlinear_arith)
                requires
                    l >= 1,
            ;
            assert(0 <= a < h * l) by (nonlinear_arith)
                requires
                    0 <= i < w * h * l,
                    w >= 1,
                    a == i / w,
                    i == a * w + i % w,
                    0 <= i % w < w,
            ;
            assert(0 <= a / l < h) by (nonlinear_arith)
                requires
                    0 <= a < h * l,
                    l >= 1,
                    a == (a / l) * l + a % l,
                    0 <= a % l < l,
            ;
        },
        GridOrder::XYZ => {
            let a = i / l;
            assert(i == a * l + i % l && 0 <= i % l < l) by (nonlinear_arith)
                requires
                    l >= 1,
                    a == i / l,
            ;
            assert(a == (a / h) * h + a % h && 0 <= a % h < h) by (nonlinear_arith)
                requires
                    h >= 1,
            ;
            assert(0 <= a < w * h) by (nonlinear_arith)
                requires
                    0 <= i < w * h * l,
                    l >= 1,
                    a == i / l,
                    i == a * l + i % l,
                    0 <= i % l < l,
            ;
            assert(0 <= a / h < w) by (nonlinear_arith)
                requires
                    0 <= a < w * h,
                    h >= 1,
                    a == (a / h) * h + a % h,
                    0 <= a % h < h,
            ;
        },
        GridOrder::ZYX => {
            let a = i / w;
            assert(i == a * w + i % w && 0 <= i % w < w) by (nonlinear_arith)
                requires
                    w >= 1,
                    a == i / w,
            ;
            assert(a == (a / h) * h + a % h && 0 <= a % h < h) by (nonlinear_arith)
                requires
                    h >= 1,
            ;
            assert(0 <= a < h * l) by (nonlinear_arith)
                requires
                    0 <= i < w * h * l,
                    w >= 1,
                    a == i / w,
                    i == a * w + i % w,
                    0 <= i % w < w,
            ;
            assert(0 <= a / h < l) by (nonlinear_arith)
                requires
                    0 <= a < h * l,
                    h >= 1,
                    a == (a / h) * h + a % h,
                    0 <= a % h < h,
            ;
        },
    }
}

/// The cell number of `(x, y, z)`.
pub fn get_index(o: GridOrder, d: Dims, x: usize, y: usize, z: usize) -> (r: usize)
    requires
        d.valid(),
        d.contains(x as int, y as int, z as int),
    ensures
        r == cell_index(o, d, x as int, y as int, z as int),
{
    proof {
        lemma_cell_index_pos(o, d, x as int, y as int, z as int);
        assert(y * d.l + z < d.h * d.l) by (nonlinear_arith)
            requires
                y < d.h,
                z < d.l,
        ;
        assert(x * d.h + y < d.w * d.h) by (nonlinear_arith)
            requires
                x < d.w,
                y < d.h,
        ;
        assert(d.h * d.l <= d.cells() && d.w * d.h <= d.cells()) by (nonlinear_arith)
            requires
                d.w >= 1,
                d.h >= 1,
                d.l >= 1,
        ;
        assert((y * d.l + z) * d.w <= d.cells()) by (nonlinear_arith)
            requires
                y * d.l + z < d.h * d.l,
        ;
        assert((x * d.h + y) * d.l <= d.cells()) by (nonlinear_arith)
            requires
                x * d.h + y < d.w * d.h,
        ;
        assert(z * d.h + y < d.l * d.h) by (nonlinear_arith)
            requires
                z < d.l,
                y < d.h,
        ;
        assert((z * d.h + y) * d.w <= d.cells()) by (nonlinear_arith)
            requires
                z * d.h + y < d.l * d.h,
        ;
    }
    match o {
        GridOrder::YZX => (y * d.l + z) * d.w + x,
        GridOrder::XYZ => (x * d.h + y) * d.l + z,
        GridOrder::ZYX => (z * d.h + y) * d.w + x,
    }
}

/// The coordinates of cell number `i`.
pub fn index_to_pos(o: GridOrder, d: Dims, i: usize) -> (r: (usize, usize, usize))
    requires
        d.valid(),
        i < d.cells(),
    ensures
        (r.0 as int, r.1 as int, r.2 as int) == cell_pos(o, d, i as int),
        d.contains(r.0 as int, r.1 as int, r.2 as int),
{
    proof {
        lemma_cell_pos_index(o, d, i as int);
    }
    match o {
        GridOrder::YZX => (i % d.w, (i / d.w) / d.l, (i / d.w) % d.l),
        GridOrder::XYZ => ((i / d.l) / d.h, (i / d.l) % d.h, i % d.l),
        GridOrder::ZYX => (i % d.w, (i / d.w) % d.h, (i / d.w) / d.h),
    }
}

/// The cell of the box at `start` that holds the block at `p`, if any.
pub open spec fn cell_of(o: GridOrder, d: Dims, start: BlockPos, p: BlockPos) -> Option<int> {
    let (x, y, z) = (p.x - start.x, p.y - start.y, p.z - start.z);
    if d.contains(x, y, z) {
        Some(cell_index(o, d, x, y, z))
    } else {
        None
    }
}

/// Cell `c` of the grid after writing the first `n` elements' indices in
/// turn over `fill`: the index of the last of them in that cell.
pub open spec fn grid_value(
    es: Seq<BlockStatePos>,
    ids: Seq<u32>,
    n: nat,
    o: GridOrder,
    d: Dims,
    start: BlockPos,
    fill: u32,
    c: int,
) -> u32
    decreases n,
{
    if n == 0 {
        fill
    } else if cell_of(o, d, start, es[n - 1].pos) == Some(c) {
        ids[n - 1]
    } else {
        grid_value(es, ids, (n - 1) as nat, o, d, start, fill, c)
    }
}

/// No two elements share a position.
pub open spec fn distinct_positions(es: Seq<BlockStatePos>) -> bool {
    forall|i: int, j: int| 0 <= i < j < es.len() ==> es[i].pos != es[j].pos
}

/// Writes each element's palette index `ids[i]` into the cell of its
/// position in the box at `start`; cells that no element reaches hold `fill`,
/// elements outside the box are skipped.
pub fn build_block_id_list(
    es: &Vec<BlockStatePos>,
    ids: &Vec<u32>,
    start: BlockPos,
    d: Dims,
    o: GridOrder,
    fill: u32,
) -> (r: Vec<u32>)
    requires
        d.valid(),
        ids.len() == es.len(),
    ensures
        r.len() == d.cells(),
        forall|c: int| 0 <= c < d.cells() ==> #[trigger] r@[c] == grid_value(es@, ids@, es.len() as nat, o, d, start, fill, c),
{
    proof {
        lemma_cells_pos(d);
        assert(d.w * d.h <= d.w * d.h * d.l) by (nonlinear_arith)
            requires
                d.l >= 1,
                d.w * d.h >= 1,
        ;
    }
    let cells = d.w * d.h * d.l;
    let mut r: Vec<u32> = Vec::new();
    let mut k: usize = 0;
    while k < cells
        invariant
            k <= cells,
            cells == d.cells(),
            r.len() == k,
            forall|c: int| 0 <= c < k ==> #[trigger] r@[c] == fill,
        decreases cells - k,
    {
        r.push(fill);
        k = k + 1;
    }
    let mut i: usize = 0;
    while i < es.len()
        invariant
            d.valid(),
            ids.len() == es.len(),
            cells == d.cells(),
            r.len() == cells,
            i <= es.len(),
            forall|c: int| 0 <= c < cells ==> #[trigger] r@[c] == grid_value(es@, ids@, i as nat, o, d, start, fill, c),
        decreases es.len() - i,
    {
        let p = es[i].pos;
        let dx: i64 = p.x as i64 - start.x as i64;
        let dy: i64 = p.y as i64 - start.y as i64;
        let dz: i64 = p.z as i64 - start.z as i64;
        if dx >= 0 && dy >= 0 && dz >= 0 && (dx as u64) < (d.w as u64) && (dy as u64) < (d.h as u64)
            && (dz as u64) < (d.l as u64) {
            let c = get_index(o, d, dx as usize, dy as usize, dz as usize);
            proof {
                lemma_cell_index_pos(o, d, dx as int, dy as int, dz as int);
            }
            r.set(c, ids[i]);
        }
        i = i + 1;
    }
    r
}

/// An element inside the box, whose position no other element shares, finds
/// its own index in its cell.
pub proof fn lemma_grid_value_own(
    es: Seq<BlockStatePos>,
    ids: Seq<u32>,
    n: nat,
    o: GridOrder,
    d: Dims,
    start: BlockPos,
    fill: u32,
    i: int,
)
    requires
        d.valid(),
        n <= es.len(),
        0 <= i < n,
        distinct_positions(es),
        cell_of(o, d, start, es[i].pos) is Some,
    ensures
        grid_value(es, ids, n, o, d, start, fill, cell_of(o, d, start, es[i].pos).unwrap()) == ids[i],
    decreases n,
{
    let c = cell_of(o, d, start, es[i].pos).unwrap();
    if i < n - 1 {
        let j = n - 1;
        if cell_of(o, d, start, es[j].pos) == Some(c) {
            let pi = es[i].pos;
            let pj = es[j].pos;
            lemma_cell_index_pos(o, d, pi.x - start.x, pi.y - start.y, pi.z - start.z);
            lemma_cell_index_pos(o, d, pj.x - start.x, pj.y - start.y, pj.z - start.z);
            assert(pi == pj);
        }
        lemma_grid_value_own(es, ids, (n - 1) as nat, o, d, start, fill, i);
    }
}

/// Turns a flat array of palette indices laid out in order `o` into
/// positioned blocks, cell `c` at `offset` plus its coordinates; an index
/// outside the palette is a lookup error.
pub fn blocks_from_ids(ids: &Vec<u32>, palette_len: usize, o: GridOrder, d: Dims, offset: BlockPos)
    -> (r: Result<Vec<BlockStatePos>, SchematicError>)
    requires
        d.valid(),
        ids.len() == d.cells(),
        d.w <= i32::MAX && d.h <= i32::MAX && d.l <= i32::MAX,
        offset.x + d.w <= i32::MAX,
        offset.y + d.h <= i32::MAX,
        offset.z + d.l <= i32::MAX,
    ensures
        match r {
            Ok(v) => {
                &&& v.len() == d.cells()
                &&& forall|c: int| 0 <= c < d.cells() ==> #[trigger] v@[c] == (BlockStatePos {
                    pos: BlockPos {
                        x: (offset.x + cell_pos(o, d, c).0) as i32,
                        y: (offset.y + cell_pos(o, d, c).1) as i32,
                        z: (offset.z + cell_pos(o, d, c).2) as i32,
                    },
                    state: ids@[c] as usize,
                })
                &&& forall|c: int| 0 <= c < d.cells() ==> #[trigger] ids@[c] < palette_len
            },
            Err(e) => e == SchematicError::Lookup && exists|c: int| 0 <= c < d.cells() && #[trigger] ids@[c] >= palette_len,
        },
{
    let cells = ids.len();
    let mut v: Vec<BlockStatePos> = Vec::new();
    let mut c: usize = 0;
    while c < cells
        invariant
            d.valid(),
            cells == ids.len(),
            cells == d.cells(),
            d.w <= i32::MAX && d.h <= i32::MAX && d.l <= i32::MAX,
            offset.x + d.w <= i32::MAX,
            offset.y + d.h <= i32::MAX,
            offset.z + d.l <= i32::MAX,
            c <= cells,
            v.len() == c,
            forall|k: int| 0 <= k < c ==> #[trigger] v@[k] == (BlockStatePos {
                pos: BlockPos {
                    x: (offset.x + cell_pos(o, d, k).0) as i32,
                    y: (offset.y + cell_pos(o, d, k).1) as i32,
                    z: (offset.z + cell_pos(o, d, k).2) as i32,
                },
                state: ids@[k] as usize,
            }),
            forall|k: int| 0 <= k < c ==> #[trigger] ids@[k] < palette_len,
        decreases cells - c,
    {
        let id = ids[c];
        if id as usize >= palette_len {
            return Err(SchematicError::Lookup);
        }
        let (x, y, z) = index_to_pos(o, d, c);
        let p = BlockPos { x: offset.x + x as i32, y: offset.y + y as i32, z: offset.z + z as i32 };
        v.push(BlockStatePos { pos: p, state: id as usize });
        c = c + 1;
    }
    Ok(v)
}

/// Decodes one Litematica region: cell `c` of the box holds the `bits`-wide
/// field number `c` of the packed words, laid out y, then z, then x. Too few
/// words is a format error; a field outside the palette a lookup error.
pub fn decode_lm_region(words: &Vec<u64>, bits: u32, d: Dims, offset: BlockPos, palette_len: usize)
    -> (r: Result<Vec<BlockStatePos>, SchematicError>)
    requires
        d.valid(),
        1 <= bits <= 32,
        d.cells() * bits <= usize::MAX,
        d.w <= i32::MAX && d.h <= i32::MAX && d.l <= i32::MAX,
        offset.x + d.w <= i32::MAX,
        offset.y + d.h <= i32::MAX,
        offset.z + d.l <= i32::MAX,
    ensures
        match r {
            Ok(v) => {
                &&& d.cells() * bits <= 64 * words.len()
                &&& v.len() == d.cells()
                &&& forall|c: int| 0 <= c < d.cells() ==> {
                    &&& (#[trigger] v@[c]).pos == BlockPos {
                        x: (offset.x + cell_pos(GridOrder::YZX, d, c).0) as i32,
                        y: (offset.y + cell_pos(GridOrder::YZX, d, c).1) as i32,
                        z: (offset.z + cell_pos(GridOrder::YZX, d, c).2) as i32,
                    }
                    &&& v@[c].state < palette_len
                    &&& v@[c].state <= u32::MAX
                    &&& is_field(words@, (c * bits) as nat, bits as nat, v@[c].state as u32)
                }
            },
            Err(e) => {
                ||| e == SchematicError::Format && d.cells() * bits > 64 * words.len()
                ||| e == SchematicError::Lookup && d.cells() * bits <= 64 * words.len()
                    && exists|c: int, f: u32| 0 <= c < d.cells() && #[trigger] is_field(words@, (c * bits) as nat, bits as nat, f) && f >= palette_len
            },
        },
{
    proof {
        lemma_cells_pos(d);
        assert(d.w * d.h <= d.w * d.h * d.l) by (nonlinear_arith)
            requires
                d.l >= 1,
                d.w * d.h >= 1,
        ;
    }
    let cells = d.w * d.h * d.l;
    if words.len() > usize::MAX / 64 {
        proof {
            assert(cells * bits <= 64 * words.len());
        }
    } else if cells * (bits as usize) > 64 * words.len() {
        return Err(SchematicError::Format);
    }
    let mut ids: Vec<u32> = Vec::new();
    let mut c: usize = 0;
    while c < cells
        invariant
            d.valid(),
            1 <= bits <= 32,
            cells == d.cells(),
            d.w <= i32::MAX && d.h <= i32::MAX && d.l <= i32::MAX,
            offset.x + d.w <= i32::MAX,
            offset.y + d.h <= i32::MAX,
            offset.z + d.l <= i32::MAX,
            cells * bits <= usize::MAX,
            cells * bits <= 64 * words.len(),
            c <= cells,
            ids.len() == c,
            forall|k: int| 0 <= k < c ==> #[trigger] ids@[k] < palette_len
                && is_field(words@, (k * bits) as nat, bits as nat, ids@[k]),
        decreases cells - c,
    {
        proof {
            assert((c + 1) * bits <= cells * bits) by (nonlinear_arith)
                requires
                    c + 1 <= cells,
            ;
        }
        let f = get_at(c, bits, words);
        if f as usize >= palette_len {
            return Err(SchematicError::Lookup);
        }
        ids.push(f);
        c = c + 1;
    }
    match blocks_from_ids(&ids, palette_len, GridOrder::YZX, d, offset) {
        Ok(v) => {
            proof {
                assert forall|c: int| 0 <= c < d.cells() implies is_field(words@, (c * bits) as nat, bits as nat, #[trigger] v@[c].state as u32) by {
                    assert(ids@[c] < palette_len);
                    assert(v@[c].state == ids@[c] as usize);
                    assert((ids@[c] as usize) as u32 == ids@[c]);
                }
            }
            Ok(v)
        },
        Err(e) => {
            proof {
                let c = choose|c: int| 0 <= c < d.cells() && #[trigger] ids@[c] >= palette_len;
                assert(ids@[c] < palette_len);
            }
            Err(e)
        },
    }
}

} // verus!
