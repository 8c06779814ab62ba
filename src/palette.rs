//! Palettes built fresh for each encode, and the bounding box of a model.
use vstd::prelude::*;
use crate::model::{BlockPos, BlockStatePos, BlockStatePosList, BlockView};

verus! {

/// The distinct states of `bs`, in the order of their first occurrence.
pub open spec fn palette_of(bs: Seq<BlockView>) -> Seq<BlockView>
    decreases bs.len(),
{
    if bs.len() == 0 {
        seq![]
    } else {
        let p = palette_of(bs.drop_last());
        if p.contains(bs.last()) {
            p
        } else {
            p.push(bs.last())
        }
    }
}

/// A palette of a block list: `entries[k]` is the index in the list's
/// states of palette entry `k`; `indices[i]` is the palette index of element `i`.
#[derive(Debug)]
pub struct Palette {
    pub entries: Vec<usize>,
    pub indices: Vec<u32>,
}

/// `p` is the first-seen palette of `list`, and maps each element to its
/// entry.
pub open spec fn is_palette_of(list: &BlockStatePosList, p: &Palette) -> bool {
    let pal = palette_of(list.blocks());
    &&& p.entries.len() == pal.len()
    &&& forall|k: int| 0 <= k < p.entries.len() ==> #[trigger] p.entries@[k] < list.states.len()
        && list.states@[p.entries@[k] as int]@ == pal[k]
    &&& p.indices.len() == list.elements.len()
    &&& forall|i: int| 0 <= i < p.indices.len() ==> #[trigger] p.indices@[i] < pal.len()
        && pal[p.indices@[i] as int] == list.block_at(i)
}

pub proof fn lemma_palette_len(bs: Seq<BlockView>)
    ensures
        palette_of(bs).len() <= bs.len(),
    decreases bs.len(),
{
    if bs.len() > 0 {
        lemma_palette_len(bs.drop_last());
    }
}

pub proof fn lemma_palette_distinct(bs: Seq<BlockView>)
    ensures
        palette_of(bs).no_duplicates(),
    decreases bs.len(),
{
    if bs.len() > 0 {
        lemma_palette_distinct(bs.drop_last());
        let p = palette_of(bs.drop_last());
        if !p.contains(bs.last()) {
            assert forall|a: int, b: int| 0 <= a < b < p.push(bs.last()).len() implies
                p.push(bs.last())[a] != p.push(bs.last())[b] by {
                if b == p.len() {
                    assert(p.push(bs.last())[a] == p[a]);
                }
            }
        }
    }
}

/// Building the palette of the same list twice gives the same palette: the
/// same entries in the same order, and the same index for every element.
pub proof fn lemma_palette_deterministic(list: &BlockStatePosList, first: &Palette, second: &Palette)
    requires
        is_palette_of(list, first),
        is_palette_of(list, second),
    ensures
        first.entries.len() == second.entries.len(),
        forall|k: int| 0 <= k < first.entries.len() ==>
            list.states@[#[trigger] first.entries@[k] as int]@ == list.states@[second.entries@[k] as int]@,
        first.indices@ == second.indices@,
{
    let pal = palette_of(list.blocks());
    lemma_palette_distinct(list.blocks());
    assert forall|i: int| 0 <= i < first.indices.len() implies first.indices@[i] == second.indices@[i] by {
        assert(pal[first.indices@[i] as int] == list.block_at(i));
        assert(pal[second.indices@[i] as int] == list.block_at(i));
    }
    assert(first.indices@ =~= second.indices@);
}

/// Builds the first-seen palette of a block list.
pub fn build_palette(list: &BlockStatePosList) -> (p: Palette)
    requires
        list.wf(),
        list.elements.len() < u32::MAX,
    ensures
        is_palette_of(list, &p),
{
    let none: u32 = 0xFFFF_FFFF;
    let mut memo: Vec<u32> = Vec::new();
    let mut s: usize = 0;
    while s < list.states.len()
        invariant
            s <= list.states.len(),
            memo.len() == s,
            forall|t: int| 0 <= t < s ==> memo@[t] == none,
        decreases list.states.len() - s,
    {
        memo.push(none);
        s = s + 1;
    }
    let ghost bs = list.blocks();
    let mut entries: Vec<usize> = Vec::new();
    let mut indices: Vec<u32> = Vec::new();
    let mut i: usize = 0;
    while i < list.elements.len()
        invariant
            list.wf(),
            list.elements.len() < u32::MAX,
            bs == list.blocks(),
            i <= list.elements.len(),
            memo.len() == list.states.len(),
            entries.len() == palette_of(bs.take(i as int)).len(),
            entries.len() <= i,
            forall|k: int| 0 <= k < entries.len() ==> #[trigger] entries@[k] < list.states.len()
                && list.states@[entries@[k] as int]@ == palette_of(bs.take(i as int))[k],
            forall|t: int| 0 <= t < memo.len() && #[trigger] memo@[t] != none ==> memo@[t] < entries.len()
                && palette_of(bs.take(i as int))[memo@[t] as int] == list.states@[t]@,
            indices.len() == i,
            forall|j: int| 0 <= j < i ==> #[trigger] indices@[j] < entries.len()
                && palette_of(bs.take(i as int))[indices@[j] as int] == list.block_at(j),
        decreases list.elements.len() - i,
    {
        let ghost pal = palette_of(bs.take(i as int));
        let st = list.elements[i].state;
        let ghost b = list.block_at(i as int);
        proof {
            assert(list.elements@[i as int].state < list.states.len());
            assert(bs.take(i + 1).drop_last() =~= bs.take(i as int));
            assert(bs.take(i + 1).last() == b);
        }
        let k: u32;
        if memo[st] != none {
            k = memo[st];
            proof {
                assert(pal.contains(b));
            }
        } else {
            let mut found: usize = entries.len();
            let mut j: usize = 0;
            while j < entries.len()
                invariant_except_break
                    found == entries.len(),
                    forall|m: int| 0 <= m < j ==> pal[m] != b,
                invariant
                    j <= entries.len(),
                    st < list.states.len(),
                    b == list.states@[st as int]@,
                    entries.len() == pal.len(),
                    forall|m: int| 0 <= m < entries.len() ==> #[trigger] entries@[m] < list.states.len()
                        && list.states@[entries@[m] as int]@ == pal[m],
                ensures
                    found < entries.len() ==> pal[found as int] == b,
                    found >= entries.len() ==> found == entries.len() && forall|m: int| 0 <= m < entries.len() ==> pal[m] != b,
                decreases entries.len() - j,
            {
                if list.states[entries[j]].same_as(&list.states[st]) {
                    found = j;
                    break;
                }
                j = j + 1;
            }
            if found < entries.len() {
                k = found as u32;
                proof {
                    assert(pal.contains(b));
                }
            } else {
                proof {
                    assert(!pal.contains(b));
                    assert(palette_of(bs.take(i + 1)) == pal.push(b));
                }
                k = entries.len() as u32;
                entries.push(st);
            }
            memo.set(st, k);
        }
        indices.push(k);
        i = i + 1;
    }
    proof {
        assert(bs.take(list.elements.len() as int) =~= bs);
    }
    Palette { entries, indices }
}

/// `lo` and `hi` are the least and greatest coordinates, on each axis, of the
/// positions in `es`.
pub open spec fn is_bbox(es: Seq<BlockStatePos>, lo: BlockPos, hi: BlockPos) -> bool {
    &&& forall|i: int| 0 <= i < es.len() ==> lo.x <= #[trigger] es[i].pos.x <= hi.x
        && lo.y <= es[i].pos.y <= hi.y && lo.z <= es[i].pos.z <= hi.z
    &&& exists|i: int| 0 <= i < es.len() && #[trigger] es[i].pos.x == lo.x
    &&& exists|i: int| 0 <= i < es.len() && #[trigger] es[i].pos.y == lo.y
    &&& exists|i: int| 0 <= i < es.len() && #[trigger] es[i].pos.z == lo.z
    &&& exists|i: int| 0 <= i < es.len() && #[trigger] es[i].pos.x == hi.x
    &&& exists|i: int| 0 <= i < es.len() && #[trigger] es[i].pos.y == hi.y
    &&& exists|i: int| 0 <= i < es.len() && #[trigger] es[i].pos.z == hi.z
}

/// The least and greatest corner of the positions (meaningful when there
/// are positions).
pub open spec fn bbox_of(es: Seq<BlockStatePos>) -> (BlockPos, BlockPos) {
    choose|p: (BlockPos, BlockPos)| is_bbox(es, p.0, p.1)
}

/// The corners of a bounding box are determined by the positions.
pub proof fn lemma_bbox_unique(es: Seq<BlockStatePos>, lo: BlockPos, hi: BlockPos)
    requires
        is_bbox(es, lo, hi),
    ensures
        bbox_of(es) == (lo, hi),
{
    assert(is_bbox(es, (lo, hi).0, (lo, hi).1));
    let (a, b) = bbox_of(es);
    assert(is_bbox(es, a, b));
    let i0 = choose|i: int| 0 <= i < es.len() && #[trigger] es[i].pos.x == lo.x;
    let i1 = choose|i: int| 0 <= i < es.len() && #[trigger] es[i].pos.y == lo.y;
    let i2 = choose|i: int| 0 <= i < es.len() && #[trigger] es[i].pos.z == lo.z;
    let i3 = choose|i: int| 0 <= i < es.len() && #[trigger] es[i].pos.x == hi.x;
    let i4 = choose|i: int| 0 <= i < es.len() && #[trigger] es[i].pos.y == hi.y;
    let i5 = choose|i: int| 0 <= i < es.len() && #[trigger] es[i].pos.z == hi.z;
    let j0 = choose|i: int| 0 <= i < es.len() && #[trigger] es[i].pos.x == a.x;
    let j1 = choose|i: int| 0 <= i < es.len() && #[trigger] es[i].pos.y == a.y;
    let j2 = choose|i: int| 0 <= i < es.len() && #[trigger] es[i].pos.z == a.z;
    let j3 = choose|i: int| 0 <= i < es.len() && #[trigger] es[i].pos.x == b.x;
    let j4 = choose|i: int| 0 <= i < es.len() && #[trigger] es[i].pos.y == b.y;
    let j5 = choose|i: int| 0 <= i < es.len() && #[trigger] es[i].pos.z == b.z;
    assert(a.x <= es[i0].pos.x && lo.x <= es[j0].pos.x);
    assert(a.x <= es[i1].pos.x && lo.x <= es[j1].pos.x);
    assert(a.x <= es[i2].pos.x && lo.x <= es[j2].pos.x);
    assert(a.x <= es[i3].pos.x && lo.x <= es[j3].pos.x);
    assert(a.x <= es[i4].pos.x && lo.x <= es[j4].pos.x);
    assert(a.x <= es[i5].pos.x && lo.x <= es[j5].pos.x);
    assert(a.y <= es[i1].pos.y && lo.y <= es[j1].pos.y);
    assert(a.z <= es[i2].pos.z && lo.z <= es[j2].pos.z);
    assert(b.x >= es[i3].pos.x && hi.x >= es[j3].pos.x);
    assert(b.y >= es[i4].pos.y && hi.y >= es[j4].pos.y);
    assert(b.z >= es[i5].pos.z && hi.z >= es[j5].pos.z);
}

/// The least and greatest corner of the positions, or `None` for no positions.
pub fn bounding_box(es: &Vec<BlockStatePos>) -> (r: Option<(BlockPos, BlockPos)>)
    ensures
        r is None <==> es.len() == 0,
        r matches Some((lo, hi)) ==> is_bbox(es@, lo, hi) && bbox_of(es@) == (lo, hi),
{
    if es.len() == 0 {
        return None;
    }
    let mut lo = es[0].pos;
    let mut hi = es[0].pos;
    let ghost mut w: Seq<int> = seq![0int, 0int, 0int, 0int, 0int, 0int];
    let mut i: usize = 1;
    while i < es.len()
        invariant
            1 <= i <= es.len(),
            w.len() == 6,
            forall|k: int| 0 <= k < 6 ==> 0 <= #[trigger] w[k] < i,
            es@[w[0]].pos.x == lo.x,
            es@[w[1]].pos.y == lo.y,
            es@[w[2]].pos.z == lo.z,
            es@[w[3]].pos.x == hi.x,
            es@[w[4]].pos.y == hi.y,
            es@[w[5]].pos.z == hi.z,
            forall|j: int| 0 <= j < i ==> lo.x <= #[trigger] es@[j].pos.x <= hi.x
                && lo.y <= es@[j].pos.y <= hi.y && lo.z <= es@[j].pos.z <= hi.z,
        decreases es.len() - i,
    {
        let p = es[i].pos;
        let ghost lo0 = lo;
        let ghost hi0 = hi;
        proof {
            if p.x < lo.x { w = w.update(0, i as int); }
            if p.y < lo.y { w = w.update(1, i as int); }
            if p.z < lo.z { w = w.update(2, i as int); }
            if p.x > hi.x { w = w.update(3, i as int); }
            if p.y > hi.y { w = w.update(4, i as int); }
            if p.z > hi.z { w = w.update(5, i as int); }
        }
        lo = BlockPos {
            x: if p.x < lo.x { p.x } else { lo.x },
            y: if p.y < lo.y { p.y } else { lo.y },
            z: if p.z < lo.z { p.z } else { lo.z },
        };
        hi = BlockPos {
            x: if p.x > hi.x { p.x } else { hi.x },
            y: if p.y > hi.y { p.y } else { hi.y },
            z: if p.z > hi.z { p.z } else { hi.z },
        };
        proof {
            assert(lo.x <= lo0.x && lo.y <= lo0.y && lo.z <= lo0.z);
            assert(hi.x >= hi0.x && hi.y >= hi0.y && hi.z >= hi0.z);
            assert forall|j: int| 0 <= j < i + 1 implies lo.x <= #[trigger] es@[j].pos.x <= hi.x
                && lo.y <= es@[j].pos.y <= hi.y && lo.z <= es@[j].pos.z <= hi.z by {
                if j < i {
                    assert(lo0.x <= es@[j].pos.x <= hi0.x);
                    assert(lo0.y <= es@[j].pos.y <= hi0.y);
                    assert(lo0.z <= es@[j].pos.z <= hi0.z);
                }
            }
        }
        i = i + 1;
    }
    proof {
        let e = es@;
        assert(e[w[0]].pos.x == lo.x);
        assert(e[w[1]].pos.y == lo.y);
        assert(e[w[2]].pos.z == lo.z);
        assert(e[w[3]].pos.x == hi.x);
        assert(e[w[4]].pos.y == hi.y);
        assert(e[w[5]].pos.z == hi.z);
        assert(is_bbox(es@, lo, hi));
        lemma_bbox_unique(es@, lo, hi);
    }
    Some((lo, hi))
}

} // verus!
