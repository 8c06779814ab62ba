//! Splitting a model into sub-volumes along the width or height axis, or
//! into a square grid over width and length.
use vstd::prelude::*;
use crate::error::SchematicError;
use crate::model::{
    BlockData, BlockPos, BlockStatePos, BlockStatePosList, Entities, EntitiesList, SchematicData, Size,
    TileEntities, TileEntitiesList,
};
use crate::nbt::{copy_tree, payload_bytes, NbtValue};
use crate::nbt_access::{first_with_key, has_key, value_of};
use crate::palette::bounding_box;

verus! {

/// How a model is split.
#[derive(Debug, Clone, Copy, PartialEq, Eq, Structural)]
pub enum SplitMode {
    /// Into `n` slabs along x.
    Width,
    /// Into `n` slabs along y.
    Height,
    /// Into a `√n × √n` grid over x and z.
    Grid,
}

/// Length of part `k` of `n` along an axis of `extent` cells: `extent / n`,
/// the last part taking the remainder too.
pub open spec fn part_len(extent: int, n: int, k: int) -> int {
    if k == n - 1 {
        extent / n + extent % n
    } else {
        extent / n
    }
}

/// Start of part `k` along the axis.
pub open spec fn part_start(extent: int, n: int, k: int) -> int {
    k * (extent / n)
}

/// The part of a coordinate `t` (relative to the model's least corner): the
/// first part whose end lies beyond `t`, the last part for anything beyond.
pub open spec fn part_of(t: int, extent: int, n: int) -> int {
    if t < 0 {
        0
    } else if t / (extent / n) < n - 1 {
        t / (extent / n)
    } else {
        n - 1
    }
}

/// `s` is the side of an `n`-part grid.
pub open spec fn is_side(s: int, n: int) -> bool {
    s >= 1 && s * s == n
}

/// The side of an `n`-part grid, where `n` is a perfect square.
pub open spec fn side_of(n: int) -> int {
    choose|s: int| is_side(s, n)
}

/// The split parameters are usable: at least one part, no more parts than
/// cells along a split axis, and a perfect square for a grid.
pub open spec fn config_ok(mode: SplitMode, size: Size, n: int) -> bool {
    &&& n >= 1
    &&& match mode {
        SplitMode::Width => size.width >= n,
        SplitMode::Height => size.height >= n,
        SplitMode::Grid => (exists|s: int| is_side(s, n)) && size.width >= side_of(n) && size.length >= side_of(n),
    }
}

/// The part that holds a block at `p`.
pub open spec fn part_index(mode: SplitMode, size: Size, n: int, min: BlockPos, p: BlockPos) -> int {
    match mode {
        SplitMode::Width => part_of(p.x - min.x, size.width as int, n),
        SplitMode::Height => part_of(p.y - min.y, size.height as int, n),
        SplitMode::Grid => part_of(p.x - min.x, size.width as int, side_of(n)) * side_of(n)
            + part_of(p.z - min.z, size.length as int, side_of(n)),
    }
}

/// Size of part `k`.
pub open spec fn part_size(mode: SplitMode, size: Size, n: int, k: int) -> Size {
    match mode {
        SplitMode::Width => Size { width: part_len(size.width as int, n, k) as i32, ..size },
        SplitMode::Height => Size { height: part_len(size.height as int, n, k) as i32, ..size },
        SplitMode::Grid => Size {
            width: part_len(size.width as int, side_of(n), k / side_of(n)) as i32,
            height: size.height,
            length: part_len(size.length as int, side_of(n), k % side_of(n)) as i32,
        },
    }
}

/// Offset of part `k` from the model's least corner.
pub open spec fn part_offset(mode: SplitMode, size: Size, n: int, k: int) -> BlockPos {
    match mode {
        SplitMode::Width => BlockPos { x: part_start(size.width as int, n, k) as i32, y: 0, z: 0 },
        SplitMode::Height => BlockPos { x: 0, y: part_start(size.height as int, n, k) as i32, z: 0 },
        SplitMode::Grid => BlockPos {
            x: part_start(size.width as int, side_of(n), k / side_of(n)) as i32,
            y: 0,
            z: part_start(size.length as int, side_of(n), k % side_of(n)) as i32,
        },
    }
}

/// One part of a split: its blocks, its size, its offset from the model's
/// least corner.
#[derive(Debug)]
pub struct SplitPart {
    pub blocks: Vec<BlockStatePos>,
    pub size: Size,
    pub offset: BlockPos,
}

proof fn lemma_side_unique(s: int, n: int)
    requires
        is_side(s, n),
    ensures
        side_of(n) == s,
{
    let t = side_of(n);
    assert(is_side(t, n));
    if t < s {
        assert(t * t < s * s) by (nonlinear_arith)
            requires
                1 <= t < s,
        ;
    } else if t > s {
        assert(s * s < t * t) by (nonlinear_arith)
            requires
                1 <= s < t,
        ;
    }
}

proof fn lemma_part_of_range(t: int, extent: int, n: int)
    requires
        n >= 1,
        extent >= n,
    ensures
        0 <= part_of(t, extent, n) < n,
{
    assert(extent / n >= 1) by (nonlinear_arith)
        requires
            n >= 1,
            extent >= n,
    ;
    if t >= 0 {
        assert(t / (extent / n) >= 0) by (nonlinear_arith)
            requires
                t >= 0,
                extent / n >= 1,
        ;
    }
}

/// The part index of a coordinate (see `part_of`).
fn axis_part(t: i64, extent: i32, n: usize) -> (r: usize)
    requires
        n >= 1,
        extent >= n,
    ensures
        r as int == part_of(t as int, extent as int, n as int),
        r < n,
{
    proof {
        lemma_part_of_range(t as int, extent as int, n as int);
    }
    let step: i64 = extent as i64 / n as i64;
    proof {
        assert(extent as int / n as int >= 1) by (nonlinear_arith)
            requires
                n >= 1,
                extent >= n,
        ;
        assert(step as int == extent as int / n as int);
    }
    if t < 0 {
        return 0;
    }
    let q: i64 = t / step;
    proof {
        assert(q as int == t as int / (extent as int / n as int));
        assert(q >= 0) by (nonlinear_arith)
            requires
                t >= 0,
                step >= 1,
                q == t / step,
        ;
    }
    if q < n as i64 - 1 {
        q as usize
    } else {
        n - 1
    }
}

/// The side of an `n`-part grid, or `None` where `n` is not a perfect square.
fn grid_side(n: usize) -> (r: Option<usize>)
    requires
        n >= 1,
    ensures
        r matches Some(s) ==> is_side(s as int, n as int) && side_of(n as int) == s,
        r is None ==> !exists|s: int| is_side(s, n as int),
{
    let mut s: usize = 1;
    while s <= n / s
        invariant
            1 <= s <= n,
            forall|t: int| 1 <= t < s ==> !#[trigger] is_side(t, n as int),
        decreases n - s,
    {
        proof {
            assert(s * s <= n) by (nonlinear_arith)
                requires
                    s <= n / s,
                    s >= 1,
            ;
        }
        if s * s == n {
            proof {
                lemma_side_unique(s as int, n as int);
            }
            return Some(s);
        }
        proof {
            assert(s + 1 <= n) by (nonlinear_arith)
                requires
                    s * s < n,
                    s >= 1,
            ;
        }
        s = s + 1;
    }
    proof {
        assert(s * s > n) by (nonlinear_arith)
            requires
                s > n / s,
                s >= 1,
        ;
        assert forall|t: int| !is_side(t, n as int) by {
            if t >= s {
                assert(t * t >= s * s) by (nonlinear_arith)
                    requires
                        t >= s,
                        s >= 1,
                ;
            }
        }
    }
    None
}

/// Splits blocks into `n` parts (see `part_index`, `part_size`,
/// `part_offset`); each part holds, in order, exactly the blocks whose part
/// index is its own. Invalid parameters are a configuration error.
pub fn split_block_positions(es: &Vec<BlockStatePos>, size: Size, mode: SplitMode, n: usize)
    -> (r: Result<Vec<SplitPart>, SchematicError>)
    ensures
        match r {
            Ok(parts) => {
                &&& config_ok(mode, size, n as int)
                &&& parts.len() == n
                &&& forall|k: int| 0 <= k < n ==> {
                    &&& (#[trigger] parts@[k]).size == part_size(mode, size, n as int, k)
                    &&& parts@[k].offset == part_offset(mode, size, n as int, k)
                    &&& parts@[k].blocks@ == es@.filter(|e: BlockStatePos| part_index(mode, size, n as int, min_corner(es@), e.pos) == k)
                }
            },
            Err(e) => e == SchematicError::Configuration && !config_ok(mode, size, n as int),
        },
{
    if n == 0 {
        return Err(SchematicError::Configuration);
    }
    let mut side: usize = 1;
    match mode {
        SplitMode::Width => {
            if size.width < 0 || (size.width as u64) < n as u64 {
                return Err(SchematicError::Configuration);
            }
        },
        SplitMode::Height => {
            if size.height < 0 || (size.height as u64) < n as u64 {
                return Err(SchematicError::Configuration);
            }
        },
        SplitMode::Grid => {
            match grid_side(n) {
                Some(s) => {
                    if size.width < 0 || size.length < 0 || (size.width as u64) < s as u64 || (size.length as u64) < s as u64 {
                        return Err(SchematicError::Configuration);
                    }
                    side = s;
                    proof {
                        assert(is_side(s as int, n as int));
                    }
                },
                None => {
                    return Err(SchematicError::Configuration);
                },
            }
        },
    }
    let min = match bounding_box(es) {
        Some((lo, hi)) => {
            proof {
                lemma_bbox_min_unique(es@, lo, hi);
            }
            lo
        },
        None => BlockPos { x: 0, y: 0, z: 0 },
    };
    let ghost gn = n as int;
    let mut idx: Vec<usize> = Vec::new();
    let mut i: usize = 0;
    while i < es.len()
        invariant
            n >= 1,
            config_ok(mode, size, gn),
            gn == n,
            mode == SplitMode::Grid ==> side as int == side_of(gn) && is_side(side as int, gn),
            i <= es.len(),
            idx.len() == i,
            forall|j: int| 0 <= j < i ==> #[trigger] idx@[j] as int == part_index(mode, size, gn, min, es@[j].pos)
                && idx@[j] < n,
        decreases es.len() - i,
    {
        let p = es[i].pos;
        let k = match mode {
            SplitMode::Width => axis_part(p.x as i64 - min.x as i64, size.width, n),
            SplitMode::Height => axis_part(p.y as i64 - min.y as i64, size.height, n),
            SplitMode::Grid => {
                let xi = axis_part(p.x as i64 - min.x as i64, size.width, side);
                let zi = axis_part(p.z as i64 - min.z as i64, size.length, side);
                proof {
                    assert(xi * side + zi < side * side) by (nonlinear_arith)
                        requires
                            xi < side,
                            zi < side,
                    ;
                }
                xi * side + zi
            },
        };
        idx.push(k);
        i = i + 1;
    }
    let mut parts: Vec<SplitPart> = Vec::new();
    let mut k: usize = 0;
    while k < n
        invariant
            n >= 1,
            config_ok(mode, size, gn),
            gn == n,
            mode == SplitMode::Grid ==> side as int == side_of(gn) && is_side(side as int, gn),
            idx.len() == es.len(),
            forall|j: int| 0 <= j < es.len() ==> #[trigger] idx@[j] as int == part_index(mode, size, gn, min, es@[j].pos),
            k <= n,
            parts.len() == k,
            forall|m: int| 0 <= m < k ==> {
                &&& (#[trigger] parts@[m]).size == part_size(mode, size, gn, m)
                &&& parts@[m].offset == part_offset(mode, size, gn, m)
                &&& parts@[m].blocks@ == es@.filter(|e: BlockStatePos| part_index(mode, size, gn, min, e.pos) == m)
            },
        decreases n - k,
    {
        let ghost pred = |e: BlockStatePos| part_index(mode, size, gn, min, e.pos) == k as int;
        let mut blocks: Vec<BlockStatePos> = Vec::new();
        let mut j: usize = 0;
        while j < es.len()
            invariant
                idx.len() == es.len(),
                forall|t: int| 0 <= t < es.len() ==> #[trigger] idx@[t] as int == part_index(mode, size, gn, min, es@[t].pos),
                j <= es.len(),
                pred == (|e: BlockStatePos| part_index(mode, size, gn, min, e.pos) == k as int),
                blocks@ == es@.take(j as int).filter(pred),
            decreases es.len() - j,
        {
            proof {
                reveal(Seq::filter);
                assert(es@.take(j + 1).drop_last() =~= es@.take(j as int));
                assert(es@.take(j + 1).last() == es@[j as int]);
            }
            if idx[j] == k {
                blocks.push(es[j]);
            }
            j = j + 1;
        }
        proof {
            assert(es@.take(es.len() as int) =~= es@);
        }
        let (psize, poff) = part_geometry(size, mode, n, side, k);
        parts.push(SplitPart { blocks, size: psize, offset: poff });
        k = k + 1;
    }
    Ok(parts)
}

/// The least corner of the positions, the origin for none.
pub open spec fn min_corner(es: Seq<BlockStatePos>) -> BlockPos {
    if es.len() == 0 {
        BlockPos { x: 0, y: 0, z: 0 }
    } else {
        choose|lo: BlockPos| is_least_corner(es, lo)
    }
}

/// `lo` is the least corner of some bounding box of `es`.
pub open spec fn is_least_corner(es: Seq<BlockStatePos>, lo: BlockPos) -> bool {
    exists|hi: BlockPos| crate::palette::is_bbox(es, lo, hi)
}

proof fn lemma_bbox_min_unique(es: Seq<BlockStatePos>, lo: BlockPos, hi: BlockPos)
    requires
        es.len() > 0,
        crate::palette::is_bbox(es, lo, hi),
    ensures
        min_corner(es) == lo,
{
    assert(is_least_corner(es, lo));
    let lo2 = min_corner(es);
    assert(is_least_corner(es, lo2));
    let hi2 = choose|h: BlockPos| crate::palette::is_bbox(es, lo2, h);
    assert(crate::palette::is_bbox(es, lo2, hi2));
    let a = choose|i: int| 0 <= i < es.len() && #[trigger] es[i].pos.x == lo2.x;
    let b = choose|i: int| 0 <= i < es.len() && #[trigger] es[i].pos.y == lo2.y;
    let c = choose|i: int| 0 <= i < es.len() && #[trigger] es[i].pos.z == lo2.z;
    let a1 = choose|i: int| 0 <= i < es.len() && #[trigger] es[i].pos.x == lo.x;
    let b1 = choose|i: int| 0 <= i < es.len() && #[trigger] es[i].pos.y == lo.y;
    let c1 = choose|i: int| 0 <= i < es.len() && #[trigger] es[i].pos.z == lo.z;
    assert(lo.x <= es[a].pos.x && lo2.x <= es[a1].pos.x);
    assert(lo.x <= es[b].pos.x && lo2.x <= es[b1].pos.x);
    assert(lo.x <= es[c].pos.x && lo2.x <= es[c1].pos.x);
    assert(lo.y <= es[b].pos.y && lo2.y <= es[b1].pos.y);
    assert(lo.z <= es[c].pos.z && lo2.z <= es[c1].pos.z);
}

/// Length and start of part `k` of `n` along an axis of `extent` cells.
fn axis_geometry(extent: i32, n: usize, k: usize) -> (r: (i32, i32))
    requires
        n >= 1,
        extent >= n,
        k < n,
    ensures
        r.0 as int == part_len(extent as int, n as int, k as int),
        r.1 as int == part_start(extent as int, n as int, k as int),
{
    let e = extent as i64;
    let step: i64 = e / n as i64;
    let rem: i64 = e % n as i64;
    proof {
        assert(step * (n as int) + rem == e && 0 <= rem < n) by (nonlinear_arith)
            requires
                step == (e as int) / (n as int),
                rem == (e as int) % (n as int),
                n >= 1,
                e >= 0,
        ;
        assert(k * step <= e) by (nonlinear_arith)
            requires
                k < n,
                step * (n as int) + rem == e,
                step >= 0,
                rem >= 0,
        ;
        assert(step <= e && step + rem <= e) by (nonlinear_arith)
            requires
                n >= 1,
                step * (n as int) + rem == e,
                step >= 0,
                rem >= 0,
        ;
    }
    let len: i64 = if k == n - 1 { step + rem } else { step };
    let start: i64 = k as i64 * step;
    (len as i32, start as i32)
}

/// Size and offset of part `k` (see `part_size`, `part_offset`).
fn part_geometry(size: Size, mode: SplitMode, n: usize, side: usize, k: usize) -> (r: (Size, BlockPos))
    requires
        config_ok(mode, size, n as int),
        mode == SplitMode::Grid ==> side as int == side_of(n as int) && is_side(side as int, n as int),
        k < n,
    ensures
        r.0 == part_size(mode, size, n as int, k as int),
        r.1 == part_offset(mode, size, n as int, k as int),
{
    match mode {
        SplitMode::Width => {
            let (len, start) = axis_geometry(size.width, n, k);
            (Size { width: len, height: size.height, length: size.length }, BlockPos { x: start, y: 0, z: 0 })
        },
        SplitMode::Height => {
            let (len, start) = axis_geometry(size.height, n, k);
            (Size { width: size.width, height: len, length: size.length }, BlockPos { x: 0, y: start, z: 0 })
        },
        SplitMode::Grid => {
            proof {
                assert(k / side < side && k % side < side) by (nonlinear_arith)
                    requires
                        k < side * side,
                        side >= 1,
                ;
            }
            let (w, xs) = axis_geometry(size.width, side, k / side);
            let (l, zs) = axis_geometry(size.length, side, k % side);
            (Size { width: w, height: size.height, length: l }, BlockPos { x: xs, y: 0, z: zs })
        },
    }
}

/// Every block of the input lands in exactly one part of a split: the part
/// of its own index, which is one of the `n` parts.
pub proof fn lemma_split_exactly_once(
    es: Seq<BlockStatePos>,
    size: Size,
    mode: SplitMode,
    n: int,
    parts: Seq<Seq<BlockStatePos>>,
    i: int,
    k: int,
)
    requires
        config_ok(mode, size, n),
        parts.len() == n,
        forall|m: int| 0 <= m < n ==> #[trigger] parts[m] == es.filter(
            |e: BlockStatePos| part_index(mode, size, n, min_corner(es), e.pos) == m),
        0 <= i < es.len(),
        0 <= k < n,
    ensures
        0 <= part_index(mode, size, n, min_corner(es), es[i].pos) < n,
        parts[k].contains(es[i]) <==> k == part_index(mode, size, n, min_corner(es), es[i].pos),
{
    let min = min_corner(es);
    let p = es[i].pos;
    match mode {
        SplitMode::Width => {
            lemma_part_of_range(p.x - min.x, size.width as int, n);
        },
        SplitMode::Height => {
            lemma_part_of_range(p.y - min.y, size.height as int, n);
        },
        SplitMode::Grid => {
            let s = side_of(n);
            let t = choose|t: int| is_side(t, n);
            lemma_side_unique(t, n);
            lemma_part_of_range(p.x - min.x, size.width as int, s);
            lemma_part_of_range(p.z - min.z, size.length as int, s);
            let xi = part_of(p.x - min.x, size.width as int, s);
            let zi = part_of(p.z - min.z, size.length as int, s);
            assert(0 <= xi * s + zi < s * s) by (nonlinear_arith)
                requires
                    0 <= xi < s,
                    0 <= zi < s,
            ;
        },
    }
    let pred = |e: BlockStatePos| part_index(mode, size, n, min, e.pos) == k;
    if k == part_index(mode, size, n, min, p) {
        es.lemma_filter_contains(pred, i);
    } else if parts[k].contains(es[i]) {
        let j = choose|j: int| 0 <= j < parts[k].len() && parts[k][j] == es[i];
        es.lemma_filter_pred(pred, j);
    }
}

/// The eight air markers of a part at `offset` of size `size`: one cell
/// outside each of its four vertical corners, at its bottom and its top y.
pub open spec fn frame_corners(o: BlockPos, s: Size) -> Seq<BlockPos> {
    let (x0, x1) = ((o.x - 1) as i32, (o.x + s.width) as i32);
    let (z0, z1) = ((o.z - 1) as i32, (o.z + s.length) as i32);
    let (y0, y1) = (o.y, (o.y + s.height - 1) as i32);
    seq![
        BlockPos { x: x0, y: y0, z: z0 },
        BlockPos { x: x0, y: y0, z: z1 },
        BlockPos { x: x1, y: y0, z: z0 },
        BlockPos { x: x1, y: y0, z: z1 },
        BlockPos { x: x0, y: y1, z: z0 },
        BlockPos { x: x0, y: y1, z: z1 },
        BlockPos { x: x1, y: y1, z: z0 },
        BlockPos { x: x1, y: y1, z: z1 },
    ]
}

/// The air-frame markers of a part (see `frame_corners`).
pub fn air_frame_corners(offset: BlockPos, size: Size) -> (r: Vec<BlockPos>)
    requires
        offset.x > i32::MIN,
        offset.z > i32::MIN,
        i32::MIN <= offset.x + size.width <= i32::MAX,
        i32::MIN <= offset.z + size.length <= i32::MAX,
        i32::MIN <= offset.y + size.height - 1 <= i32::MAX,
    ensures
        r@ == frame_corners(offset, size),
{
    let x0 = offset.x - 1;
    let x1 = offset.x + size.width;
    let z0 = offset.z - 1;
    let z1 = offset.z + size.length;
    let y0 = offset.y;
    let y1 = (offset.y as i64 + size.height as i64 - 1) as i32;
    let r = vec![
        BlockPos { x: x0, y: y0, z: z0 },
        BlockPos { x: x0, y: y0, z: z1 },
        BlockPos { x: x1, y: y0, z: z0 },
        BlockPos { x: x1, y: y0, z: z1 },
        BlockPos { x: x0, y: y1, z: z0 },
        BlockPos { x: x0, y: y1, z: z1 },
        BlockPos { x: x1, y: y1, z: z0 },
        BlockPos { x: x1, y: y1, z: z1 },
    ];
    proof {
        assert(r@ =~= frame_corners(offset, size));
    }
    r
}

/// The position of `pos` in the frame of the part at `offset` of size
/// `size`, where it lies inside that part.
pub fn part_local(pos: BlockPos, offset: BlockPos, size: Size) -> (r: Option<BlockPos>)
    ensures
        r is Some <==> (offset.x <= pos.x < offset.x + size.width && offset.y <= pos.y < offset.y + size.height
            && offset.z <= pos.z < offset.z + size.length),
        r matches Some(p) ==> p.x == pos.x - offset.x && p.y == pos.y - offset.y && p.z == pos.z - offset.z,
{
    let inside = offset.x as i64 <= pos.x as i64 && (pos.x as i64) < offset.x as i64 + size.width as i64
        && offset.y as i64 <= pos.y as i64 && (pos.y as i64) < offset.y as i64 + size.height as i64
        && offset.z as i64 <= pos.z as i64 && (pos.z as i64) < offset.z as i64 + size.length as i64;
    if inside {
        Some(BlockPos {
            x: (pos.x as i64 - offset.x as i64) as i32,
            y: (pos.y as i64 - offset.y as i64) as i32,
            z: (pos.z as i64 - offset.z as i64) as i32,
        })
    } else {
        None
    }
}

/// Sets the first entry named `key` to `v`, or appends it; entries of other
/// names keep their values.
pub fn set_field(es: &mut Vec<(String, NbtValue)>, key: &str, v: NbtValue)
    ensures
        has_key(final(es)@, key@),
        value_of(final(es)@, key@) == v,
        forall|k: Seq<char>| k != key@ ==> (has_key(final(es)@, k) <==> has_key(old(es)@, k))
            && (has_key(old(es)@, k) ==> value_of(final(es)@, k) == value_of(old(es)@, k)),
{
    let ghost o = es@;
    match crate::nbt_access::find_entry(es, key) {
        Some(i) => {
            let k = key.to_owned();
            es.set(i, (k, v));
            proof {
                assert(first_with_key(es@, key@, i as int));
                crate::nbt_access::lemma_first_unique(es@, key@, i as int);
                assert forall|k: Seq<char>| k != key@ implies (has_key(es@, k) <==> has_key(o, k))
                    && (has_key(o, k) ==> value_of(es@, k) == value_of(o, k)) by {
                    if has_key(o, k) {
                        let j = choose|j: int| first_with_key(o, k, j);
                        let w = choose|j: int| 0 <= j < o.len() && (#[trigger] o[j]).0@ == k;
                        lemma_first_exists(o, k, w);
                        let j2 = choose|j: int| first_with_key(o, k, j);
                        assert(first_with_key(es@, k, j2));
                        crate::nbt_access::lemma_first_unique(o, k, j2);
                        crate::nbt_access::lemma_first_unique(es@, k, j2);
                    }
                    if has_key(es@, k) {
                        let w = choose|j: int| 0 <= j < es@.len() && (#[trigger] es@[j]).0@ == k;
                        assert(o[w].0@ == k);
                    }
                }
            }
        },
        None => {
            es.push((key.to_owned(), v));
            proof {
                let n = es@.len() - 1;
                assert(first_with_key(es@, key@, n));
                crate::nbt_access::lemma_first_unique(es@, key@, n);
                assert forall|k: Seq<char>| k != key@ implies (has_key(es@, k) <==> has_key(o, k))
                    && (has_key(o, k) ==> value_of(es@, k) == value_of(o, k)) by {
                    if has_key(o, k) {
                        let w = choose|j: int| 0 <= j < o.len() && (#[trigger] o[j]).0@ == k;
                        lemma_first_exists(o, k, w);
                        let j2 = choose|j: int| first_with_key(o, k, j);
                        assert(first_with_key(es@, k, j2));
                        crate::nbt_access::lemma_first_unique(o, k, j2);
                        crate::nbt_access::lemma_first_unique(es@, k, j2);
                    }
                    if has_key(es@, k) {
                        let w = choose|j: int| 0 <= j < es@.len() && (#[trigger] es@[j]).0@ == k;
                        assert(w < o.len());
                        assert(o[w].0@ == k);
                    }
                }
            }
        },
    }
}

proof fn lemma_first_exists(es: Seq<(String, NbtValue)>, key: Seq<char>, w: int)
    requires
        0 <= w < es.len(),
        es[w].0@ == key,
    ensures
        exists|j: int| first_with_key(es, key, j),
    decreases w,
{
    if exists|j: int| 0 <= j < w && (#[trigger] es[j]).0@ == key {
        let j = choose|j: int| 0 <= j < w && (#[trigger] es[j]).0@ == key;
        lemma_first_exists(es, key, j);
    } else {
        assert(first_with_key(es, key, w));
    }
}

/// The tree `r` is `nbt` with position `p` written in the convention of
/// format `original_type` (see `relocate_tile_nbt`).
pub open spec fn relocated(nbt: NbtValue, original_type: i32, p: BlockPos, r: NbtValue) -> bool {
    &&& original_type != 2 && original_type != 3 ==> payload_bytes(r) == payload_bytes(nbt)
    &&& original_type == 2 || original_type == 3 ==> r is Compound && {
        let es = r->Compound_0@;
        &&& !(nbt is Compound) ==> has_key(es, "nbt"@) && payload_bytes(value_of(es, "nbt"@)) == payload_bytes(nbt)
        &&& original_type == 2 ==> value_of(es, "x"@) == NbtValue::Int(p.x) && value_of(es, "y"@) == NbtValue::Int(p.y)
            && value_of(es, "z"@) == NbtValue::Int(p.z) && has_key(es, "x"@) && has_key(es, "y"@) && has_key(es, "z"@)
        &&& original_type == 3 ==> has_key(es, "Pos"@) && value_of(es, "Pos"@) is IntArray
            && (value_of(es, "Pos"@)->IntArray_0)@ == seq![p.x, p.y, p.z]
    }
}

/// A tile entity's tag tree with its position rewritten in the convention of
/// the format that produced it: `x`, `y` and `z` fields for Litematica (2),
/// a `Pos` int array for WorldEdit (3); a tree that is not a compound is
/// wrapped as `nbt` beside the position. Other formats keep the tree.
pub fn relocate_tile_nbt(nbt: &NbtValue, original_type: i32, p: BlockPos) -> (r: NbtValue)
    ensures
        relocated(*nbt, original_type, p, r),
{
    if original_type != 2 && original_type != 3 {
        return copy_tree(nbt);
    }
    let mut es: Vec<(String, NbtValue)> = match nbt {
        NbtValue::Compound(_) => match copy_tree(nbt) {
            NbtValue::Compound(c2) => c2,
            _ => Vec::new(),
        },
        _ => {
            let c = copy_tree(nbt);
            let r = vec![("nbt".to_owned(), c)];
            proof {
                assert(first_with_key(r@, "nbt"@, 0));
                crate::nbt_access::lemma_first_unique(r@, "nbt"@, 0);
            }
            r
        },
    };
    proof {
        reveal_strlit("x");
        reveal_strlit("y");
        reveal_strlit("z");
        reveal_strlit("nbt");
        reveal_strlit("Pos");
        assert("x"@[0] != "y"@[0] && "x"@[0] != "z"@[0] && "y"@[0] != "z"@[0]);
        assert("x"@ != "y"@ && "x"@ != "z"@ && "y"@ != "z"@);
        assert("nbt"@.len() != "x"@.len() && "nbt"@[0] != "Pos"@[0]);
        assert("nbt"@ != "x"@ && "nbt"@ != "y"@ && "nbt"@ != "z"@ && "nbt"@ != "Pos"@);
    }
    if original_type == 2 {
        set_field(&mut es, "x", NbtValue::Int(p.x));
        set_field(&mut es, "y", NbtValue::Int(p.y));
        set_field(&mut es, "z", NbtValue::Int(p.z));
    } else {
        let pos = vec![p.x, p.y, p.z];
        proof {
            assert(pos@ =~= seq![p.x, p.y, p.z]);
        }
        set_field(&mut es, "Pos", NbtValue::IntArray(pos));
    }
    NbtValue::Compound(es)
}

/// The blocks of part `k` of a split (see `split_block_positions`).
pub open spec fn split_blocks(data: &SchematicData, mode: SplitMode, n: usize, k: int) -> Seq<BlockStatePos> {
    data.blocks.elements@.filter(|e: BlockStatePos| part_index(mode, data.size, n as int, min_corner(data.blocks.elements@), e.pos) == k)
}

/// One part of a split model.
#[derive(Debug)]
pub struct SchematicPart {
    pub data: SchematicData,
    pub offset: BlockPos,
}

/// A part origin `(ox, oy, oz)` and size for which the origin, its air frame
/// and its box all lie within `i32`.
pub open spec fn frame_fits(ox: int, oy: int, oz: int, s: Size) -> bool {
    &&& i32::MIN < ox <= i32::MAX && i32::MIN < oz <= i32::MAX && i32::MIN <= oy <= i32::MAX
    &&& i32::MIN <= ox + s.width <= i32::MAX && i32::MIN <= oz + s.length <= i32::MAX
    &&& i32::MIN <= oy + s.height - 1 <= i32::MAX
}

/// Where part `k` starts in the model's coordinates.
pub open spec fn origin_of(data: &SchematicData, mode: SplitMode, n: usize, k: int) -> (int, int, int) {
    let m = min_corner(data.blocks.elements@);
    let o = part_offset(mode, data.size, n as int, k);
    (m.x + o.x, m.y + o.y, m.z + o.z)
}

pub open spec fn part_origin(data: &SchematicData, mode: SplitMode, n: usize, k: int) -> BlockPos {
    let (x, y, z) = origin_of(data, mode, n, k);
    BlockPos { x: x as i32, y: y as i32, z: z as i32 }
}

/// Every part of the split fits `i32` (see `frame_fits`).
pub open spec fn split_fits(data: &SchematicData, mode: SplitMode, n: usize) -> bool {
    forall|k: int| 0 <= k < n ==> #[trigger] frame_fits(origin_of(data, mode, n, k).0, origin_of(data, mode, n, k).1,
        origin_of(data, mode, n, k).2, part_size(mode, data.size, n as int, k))
}

/// `p` lies in the part at `o` of size `s`.
pub open spec fn in_part(p: BlockPos, o: BlockPos, s: Size) -> bool {
    o.x <= p.x < o.x + s.width && o.y <= p.y < o.y + s.height && o.z <= p.z < o.z + s.length
}

/// The indices of the tile entities inside a part, in order.
pub open spec fn inside_tiles(ts: Seq<TileEntities>, o: BlockPos, s: Size) -> Seq<int>
    decreases ts.len(),
{
    if ts.len() == 0 {
        seq![]
    } else {
        let r = inside_tiles(ts.drop_last(), o, s);
        if in_part(ts.last().pos, o, s) {
            r.push(ts.len() - 1)
        } else {
            r
        }
    }
}

proof fn lemma_inside_tiles_bound(ts: Seq<TileEntities>, o: BlockPos, s: Size)
    ensures
        forall|q: int| 0 <= q < inside_tiles(ts, o, s).len() ==> 0 <= #[trigger] inside_tiles(ts, o, s)[q] < ts.len(),
    decreases ts.len(),
{
    if ts.len() > 0 {
        lemma_inside_tiles_bound(ts.drop_last(), o, s);
        let r = inside_tiles(ts.drop_last(), o, s);
        assert forall|q: int| 0 <= q < inside_tiles(ts, o, s).len() implies 0 <= #[trigger] inside_tiles(ts, o, s)[q] < ts.len() by {
            if q < r.len() {
                assert(inside_tiles(ts, o, s)[q] == r[q]);
            }
        }
    }
}

/// What part `k` of a split holds (see `split_schematic_parts`).
pub open spec fn part_ok(data: &SchematicData, mode: SplitMode, n: usize, air_frame: bool, k: int, part: SchematicPart) -> bool {
    let o = part_origin(data, mode, n, k);
    let sz = part_size(mode, data.size, n as int, k);
    let nb = split_blocks(data, mode, n, k).len();
    let ns = data.blocks.states@.len();
    let framed = air_frame && mode != SplitMode::Grid;
    let ts = data.tile_entities_list.elements@;
    let ix = inside_tiles(ts, o, sz);
    let pt = part.data.tile_entities_list.elements@;
    &&& part.data.blocks.wf()
    &&& part.data.size == sz
    &&& part.offset == part_offset(mode, data.size, n as int, k)
    &&& part.data.blocks.states@.len() == ns + (if framed { 1int } else { 0int })
    &&& forall|q: int| 0 <= q < ns ==> (#[trigger] part.data.blocks.states@[q])@ == data.blocks.states@[q]@
    &&& part.data.blocks.elements@.len() == nb + (if framed { 8int } else { 0int })
    &&& part.data.blocks.elements@.take(nb as int) == split_blocks(data, mode, n, k)
    &&& framed ==> part.data.blocks.states@[ns as int]@ == crate::encode::air_view()
        && forall|c: int| 0 <= c < 8 ==> #[trigger] part.data.blocks.elements@[nb + c] == (BlockStatePos {
            pos: frame_corners(o, sz)[c],
            state: ns as usize,
        })
    &&& part.data.tile_entities_list.original_type == data.tile_entities_list.original_type
    &&& pt.len() == ix.len()
    &&& forall|q: int| 0 <= q < pt.len() ==> {
        &&& 0 <= ix[q] < ts.len()
        &&& (#[trigger] pt[q]).pos == (BlockPos { x: (ts[ix[q]].pos.x - o.x) as i32, y: (ts[ix[q]].pos.y - o.y) as i32, z: (ts[ix[q]].pos.z - o.z) as i32 })
        &&& relocated(ts[ix[q]].nbt, data.tile_entities_list.original_type, pt[q].pos, pt[q].nbt)
    }
    &&& part.data.entities_list.original_type == data.entities_list.original_type
    &&& k > 0 ==> part.data.entities_list.elements@.len() == 0
    &&& k == 0 ==> part.data.entities_list.elements@.len() == data.entities_list.elements@.len()
        && forall|q: int| 0 <= q < data.entities_list.elements@.len() ==>
            payload_bytes((#[trigger] part.data.entities_list.elements@[q]).nbt) == payload_bytes(data.entities_list.elements@[q].nbt)
}

/// Splits a model (see `split_block_positions`). Each part keeps the
/// model's states and its own blocks; with `air_frame`, except for a grid,
/// an added air state and eight air markers at `frame_corners` of the part's
/// place in the model; the tile entities inside it, moved into its frame and
/// rewritten per format (see `relocate_tile_nbt`); the entities in the
/// first part only. It fails with a configuration error exactly for invalid
/// parameters, and with a format error exactly when a part does not fit `i32`.
pub fn split_schematic_parts(data: &SchematicData, mode: SplitMode, n: usize, air_frame: bool)
    -> (r: Result<Vec<SchematicPart>, SchematicError>)
    requires
        data.blocks.wf(),
    ensures
        (config_ok(mode, data.size, n as int) && split_fits(data, mode, n)) <==> r is Ok,
        match r {
            Ok(parts) => parts.len() == n && forall|k: int| 0 <= k < n ==> #[trigger] part_ok(data, mode, n, air_frame, k, parts@[k]),
            Err(e) => {
                ||| e == SchematicError::Configuration && !config_ok(mode, data.size, n as int)
                ||| e == SchematicError::Format && config_ok(mode, data.size, n as int) && !split_fits(data, mode, n)
            },
        },
{
    let split = split_block_positions(&data.blocks.elements, data.size, mode, n)?;
    let min = match bounding_box(&data.blocks.elements) {
        Some((lo, hi)) => {
            proof {
                lemma_bbox_min_unique(data.blocks.elements@, lo, hi);
            }
            lo
        },
        None => BlockPos { x: 0, y: 0, z: 0 },
    };
    let mut parts: Vec<SchematicPart> = Vec::new();
    let mut k: usize = 0;
    while k < split.len()
        invariant
            data.blocks.wf(),
            split.len() == n,
            min == min_corner(data.blocks.elements@),
            config_ok(mode, data.size, n as int),
            forall|m: int| 0 <= m < n ==> {
                &&& (#[trigger] split@[m]).size == part_size(mode, data.size, n as int, m)
                &&& split@[m].offset == part_offset(mode, data.size, n as int, m)
                &&& split@[m].blocks@ == data.blocks.elements@.filter(|e: BlockStatePos| part_index(mode, data.size, n as int, min_corner(data.blocks.elements@), e.pos) == m)
            },
            k <= n,
            parts.len() == k,
            forall|m: int| 0 <= m < k ==> #[trigger] part_ok(data, mode, n, air_frame, m, parts@[m]),
            forall|m: int| 0 <= m < k ==> #[trigger] frame_fits(origin_of(data, mode, n, m).0, origin_of(data, mode, n, m).1,
                origin_of(data, mode, n, m).2, part_size(mode, data.size, n as int, m)),
        decreases n - k,
    {
        let part = &split[k];
        let ox = min.x as i64 + part.offset.x as i64;
        let oy = min.y as i64 + part.offset.y as i64;
        let oz = min.z as i64 + part.offset.z as i64;
        let fits = ox > i32::MIN as i64 && ox <= i32::MAX as i64 && oz > i32::MIN as i64 && oz <= i32::MAX as i64
            && oy >= i32::MIN as i64 && oy <= i32::MAX as i64
            && ox + part.size.width as i64 <= i32::MAX as i64 && ox + part.size.width as i64 >= i32::MIN as i64
            && oz + part.size.length as i64 <= i32::MAX as i64 && oz + part.size.length as i64 >= i32::MIN as i64
            && oy + part.size.height as i64 - 1 <= i32::MAX as i64 && oy + part.size.height as i64 - 1 >= i32::MIN as i64;
        proof {
            assert(fits == frame_fits(origin_of(data, mode, n, k as int).0, origin_of(data, mode, n, k as int).1,
                origin_of(data, mode, n, k as int).2, part_size(mode, data.size, n as int, k as int)));
        }
        if !fits {
            return Err(SchematicError::Format);
        }
        let origin = BlockPos { x: ox as i32, y: oy as i32, z: oz as i32 };
        proof {
            assert(origin == part_origin(data, mode, n, k as int));
        }
        let mut list = BlockStatePosList::new();
        let mut s: usize = 0;
        while s < data.blocks.states.len()
            invariant
                list.wf(),
                list.elements@.len() == 0,
                list.states.len() == s,
                s <= data.blocks.states.len(),
                forall|q: int| 0 <= q < s ==> (#[trigger] list.states@[q])@ == data.blocks.states@[q]@,
            decreases data.blocks.states.len() - s,
        {
            list.add_state(data.blocks.states[s].duplicate());
            s = s + 1;
        }
        proof {
            assert forall|t: int| 0 <= t < part.blocks.len() implies (#[trigger] part.blocks@[t]).state < data.blocks.states.len() by {
                let pred = |e: BlockStatePos| part_index(mode, data.size, n as int, min_corner(data.blocks.elements@), e.pos) == k as int;
                data.blocks.elements@.lemma_filter_contains_rev(pred, part.blocks@[t]);
                assert(data.blocks.elements@.filter(pred).contains(part.blocks@[t]));
                let i = choose|i: int| 0 <= i < data.blocks.elements@.len() && data.blocks.elements@[i] == part.blocks@[t];
                assert(data.blocks.elements@[i].state < data.blocks.states.len());
            }
        }
        let mut j: usize = 0;
        while j < part.blocks.len()
            invariant
                data.blocks.wf(),
                list.wf(),
                list.states.len() == data.blocks.states.len(),
                forall|q: int| 0 <= q < data.blocks.states@.len() ==> (#[trigger] list.states@[q])@ == data.blocks.states@[q]@,
                j <= part.blocks.len(),
                list.elements@ == part.blocks@.take(j as int),
                forall|t: int| 0 <= t < part.blocks.len() ==> (#[trigger] part.blocks@[t]).state < data.blocks.states.len(),
            decreases part.blocks.len() - j,
        {
            let b = part.blocks[j];
            list.add_by_pos(b.pos.x, b.pos.y, b.pos.z, b.state);
            proof {
                assert(list.elements@ =~= part.blocks@.take(j + 1));
            }
            j = j + 1;
        }
        proof {
            assert(part.blocks@.take(part.blocks.len() as int) =~= part.blocks@);
            assert(part.blocks@ == split_blocks(data, mode, n, k as int));
            assert(list.elements@.take(list.elements@.len() as int) =~= list.elements@);
        }
        let ghost nb = list.elements@.len();
        let ghost ns = data.blocks.states@.len();
        if air_frame && mode != SplitMode::Grid {
            let air = list.add_state(BlockData::new("minecraft:air".to_owned()));
            let corners = air_frame_corners(origin, part.size);
            let mut c: usize = 0;
            while c < corners.len()
                invariant
                    list.wf(),
                    air == ns,
                    air < list.states.len(),
                    c <= corners.len(),
                    corners.len() == 8,
                    corners@ == frame_corners(origin, part.size),
                    list.states.len() == data.blocks.states.len() + 1,
                    list.states@[air as int]@ == crate::encode::air_view(),
                    forall|q: int| 0 <= q < data.blocks.states@.len() ==> (#[trigger] list.states@[q])@ == data.blocks.states@[q]@,
                    list.elements@.len() == nb + c,
                    list.elements@.take(nb as int) == split_blocks(data, mode, n, k as int),
                    forall|q: int| 0 <= q < c ==> #[trigger] list.elements@[nb + q] == (BlockStatePos { pos: corners@[q], state: air }),
                decreases corners.len() - c,
            {
                let ghost before = list.elements@;
                list.add_by_pos(corners[c].x, corners[c].y, corners[c].z, air);
                proof {
                    assert(list.elements@.take(nb as int) =~= before.take(nb as int));
                    assert forall|q: int| 0 <= q < c + 1 implies #[trigger] list.elements@[nb + q] == (BlockStatePos { pos: corners@[q], state: air }) by {
                        if q < c {
                            assert(list.elements@[nb + q] == before[nb + q]);
                        }
                    }
                }
                c = c + 1;
            }
        }
        let ghost ts = data.tile_entities_list.elements@;
        let mut tiles: Vec<TileEntities> = Vec::new();
        let mut t: usize = 0;
        while t < data.tile_entities_list.elements.len()
            invariant
                ts == data.tile_entities_list.elements@,
                t <= ts.len(),
                tiles@.len() == inside_tiles(ts.take(t as int), origin, part.size).len(),
                forall|q: int| 0 <= q < tiles@.len() ==> {
                    let ix = inside_tiles(ts.take(t as int), origin, part.size);
                    &&& 0 <= ix[q] < t
                    &&& (#[trigger] tiles@[q]).pos == (BlockPos { x: (ts[ix[q]].pos.x - origin.x) as i32, y: (ts[ix[q]].pos.y - origin.y) as i32, z: (ts[ix[q]].pos.z - origin.z) as i32 })
                    &&& relocated(ts[ix[q]].nbt, data.tile_entities_list.original_type, tiles@[q].pos, tiles@[q].nbt)
                },
            decreases ts.len() - t,
        {
            proof {
                assert(ts.take(t + 1).drop_last() =~= ts.take(t as int));
                assert(ts.take(t + 1).last() == ts[t as int]);
                lemma_inside_tiles_bound(ts.take(t as int), origin, part.size);
            }
            let te = &data.tile_entities_list.elements[t];
            let ghost before = tiles@;
            match part_local(te.pos, origin, part.size) {
                Some(local) => {
                    let nbt = relocate_tile_nbt(&te.nbt, data.tile_entities_list.original_type, local);
                    tiles.push(TileEntities { pos: local, nbt });
                    proof {
                        assert forall|q: int| 0 <= q < tiles@.len() implies {
                            let ix = inside_tiles(ts.take(t + 1), origin, part.size);
                            &&& 0 <= ix[q] < t + 1
                            &&& (#[trigger] tiles@[q]).pos == (BlockPos { x: (ts[ix[q]].pos.x - origin.x) as i32, y: (ts[ix[q]].pos.y - origin.y) as i32, z: (ts[ix[q]].pos.z - origin.z) as i32 })
                            &&& relocated(ts[ix[q]].nbt, data.tile_entities_list.original_type, tiles@[q].pos, tiles@[q].nbt)
                        } by {
                            if q < before.len() {
                                assert(tiles@[q] == before[q]);
                            }
                        }
                    }
                },
                None => {},
            }
            t = t + 1;
        }
        proof {
            assert(ts.take(ts.len() as int) =~= ts);
        }
        let mut ents: Vec<Entities> = Vec::new();
        if k == 0 {
            let mut m: usize = 0;
            while m < data.entities_list.elements.len()
                invariant
                    m <= data.entities_list.elements.len(),
                    ents@.len() == m,
                    forall|q: int| 0 <= q < m ==> payload_bytes((#[trigger] ents@[q]).nbt) == payload_bytes(data.entities_list.elements@[q].nbt),
                decreases data.entities_list.elements.len() - m,
            {
                ents.push(Entities { nbt: copy_tree(&data.entities_list.elements[m].nbt) });
                m = m + 1;
            }
        }
        let np = SchematicPart {
            data: SchematicData::new(
                list,
                TileEntitiesList { original_type: data.tile_entities_list.original_type, elements: tiles },
                EntitiesList { original_type: data.entities_list.original_type, elements: ents },
                part.size,
            ),
            offset: part.offset,
        };
        proof {
            assert(part_ok(data, mode, n, air_frame, k as int, np));
        }
        parts.push(np);
        k = k + 1;
    }
    Ok(parts)
}

} // verus!
