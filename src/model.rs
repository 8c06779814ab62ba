//! The canonical block model that every format decodes into and encodes from.
use vstd::prelude::*;
use crate::nbt::NbtValue;
use crate::text::{triple_string, triple_text};

verus! {

/// A block position, absolute or relative to a volume's origin.
#[derive(Debug, Clone, Copy, PartialEq, Eq, Structural)]
pub struct BlockPos {
    pub x: i32,
    pub y: i32,
    pub z: i32,
}

/// Extents of a volume along x (width), y (height) and z (length).
#[derive(Debug, Clone, Copy, PartialEq, Eq, Structural)]
pub struct Size {
    pub width: i32,
    pub height: i32,
    pub length: i32,
}

impl Size {
    /// `"width,height,length"` in decimal.
    pub fn to_string(&self) -> (r: String)
        ensures
            r@ == vstd::utf8::decode_utf8(triple_text(self.width as int, self.height as int, self.length as int)),
    {
        triple_string(self.width, self.height, self.length)
    }
}

/// A block state: a namespaced block name and its properties, ordered by
/// property name.
#[derive(Debug)]
pub struct BlockData {
    pub name: String,
    pub properties: Vec<(String, String)>,
}

/// What a block state is, as characters.
pub type BlockView = (Seq<char>, Seq<(Seq<char>, Seq<char>)>);

impl View for BlockData {
    type V = BlockView;

    open spec fn view(&self) -> BlockView {
        (self.name@, self.properties@.map_values(|p: (String, String)| (p.0@, p.1@)))
    }
}

impl BlockData {
    /// A block state without properties.
    pub fn new(name: String) -> (r: BlockData)
        ensures
            r@.0 == name@,
            r@.1 == Seq::<(Seq<char>, Seq<char>)>::empty(),
    {
        let r = BlockData { name, properties: Vec::new() };
        proof {
            assert(r@.1 =~= Seq::<(Seq<char>, Seq<char>)>::empty());
        }
        r
    }

    /// A copy with the same view.
    pub fn duplicate(&self) -> (r: BlockData)
        ensures
            r@ == self@,
    {
        let mut props: Vec<(String, String)> = Vec::new();
        let mut i: usize = 0;
        while i < self.properties.len()
            invariant
                i <= self.properties.len(),
                props.len() == i,
                forall|j: int| 0 <= j < i ==> #[trigger] props@[j].0@ == self.properties@[j].0@
                    && props@[j].1@ == self.properties@[j].1@,
            decreases self.properties.len() - i,
        {
            let k = self.properties[i].0.clone();
            let v = self.properties[i].1.clone();
            props.push((k, v));
            i = i + 1;
        }
        let r = BlockData { name: self.name.clone(), properties: props };
        proof {
            assert(r@.1 =~= self@.1);
        }
        r
    }

    /// Whether two block states are the same state.
    pub fn same_as(&self, other: &BlockData) -> (r: bool)
        ensures
            r == (self@ == other@),
    {
        if self.name != other.name {
            return false;
        }
        if self.properties.len() != other.properties.len() {
            proof {
                assert(self@.1.len() != other@.1.len());
            }
            return false;
        }
        let mut i: usize = 0;
        while i < self.properties.len()
            invariant
                i <= self.properties.len(),
                self.properties.len() == other.properties.len(),
                forall|j: int| 0 <= j < i ==> self@.1[j] == other@.1[j],
            decreases self.properties.len() - i,
        {
            if self.properties[i].0 != other.properties[i].0 || self.properties[i].1 != other.properties[i].1 {
                proof {
                    assert(self@.1[i as int] != other@.1[i as int]);
                }
                return false;
            }
            i = i + 1;
        }
        proof {
            assert(self@.1 =~= other@.1);
        }
        true
    }
}

/// A position and the index of its block state in the owning list's states.
#[derive(Debug, Clone, Copy, PartialEq, Eq, Structural)]
pub struct BlockStatePos {
    pub pos: BlockPos,
    pub state: usize,
}

/// Positioned blocks that share their states: each element names a state by
/// its index in `states`, so many positions hold one state without copies.
#[derive(Debug)]
pub struct BlockStatePosList {
    pub states: Vec<BlockData>,
    pub elements: Vec<BlockStatePos>,
}

impl BlockStatePosList {
    /// Every element names an existing state.
    pub open spec fn wf(&self) -> bool {
        forall|i: int| 0 <= i < self.elements.len() ==> #[trigger] self.elements@[i].state < self.states.len()
    }

    /// The state of element `i`.
    pub open spec fn block_at(&self, i: int) -> BlockView {
        self.states@[self.elements@[i].state as int]@
    }

    /// The states of the elements, in element order.
    pub open spec fn blocks(&self) -> Seq<BlockView> {
        Seq::new(self.elements@.len(), |i: int| self.block_at(i))
    }

    /// An empty list.
    pub fn new() -> (r: BlockStatePosList)
        ensures
            r.wf(),
            r.states@.len() == 0,
            r.elements@.len() == 0,
    {
        BlockStatePosList { states: Vec::new(), elements: Vec::new() }
    }

    /// Adds a state and returns its index.
    pub fn add_state(&mut self, b: BlockData) -> (r: usize)
        requires
            old(self).wf(),
        ensures
            final(self).wf(),
            r == old(self).states.len(),
            final(self).states@ == old(self).states@.push(b),
            final(self).elements@ == old(self).elements@,
    {
        let r = self.states.len();
        self.states.push(b);
        r
    }

    /// Adds a block of an existing state at `(x, y, z)`.
    pub fn add_by_pos(&mut self, x: i32, y: i32, z: i32, state: usize)
        requires
            old(self).wf(),
            state < old(self).states.len(),
        ensures
            final(self).wf(),
            final(self).states@ == old(self).states@,
            final(self).elements@ == old(self).elements@.push(BlockStatePos { pos: BlockPos { x, y, z }, state }),
    {
        self.elements.push(BlockStatePos { pos: BlockPos { x, y, z }, state });
    }
}

/// A tile entity: its position and its format-specific tag tree.
#[derive(Debug)]
pub struct TileEntities {
    pub pos: BlockPos,
    pub nbt: NbtValue,
}

/// Tile entities, tagged with the format that produced them.
#[derive(Debug)]
pub struct TileEntitiesList {
    pub original_type: i32,
    pub elements: Vec<TileEntities>,
}

/// An entity's format-specific tag tree.
#[derive(Debug)]
pub struct Entities {
    pub nbt: NbtValue,
}

/// Entities, tagged with the format that produced them.
#[derive(Debug)]
pub struct EntitiesList {
    pub original_type: i32,
    pub elements: Vec<Entities>,
}

/// The canonical model: blocks, auxiliary records and the bounding size.
#[derive(Debug)]
pub struct SchematicData {
    pub blocks: BlockStatePosList,
    pub tile_entities_list: TileEntitiesList,
    pub entities_list: EntitiesList,
    pub size: Size,
}

impl SchematicData {
    pub fn new(
        blocks: BlockStatePosList,
        tile_entities_list: TileEntitiesList,
        entities_list: EntitiesList,
        size: Size,
    ) -> (r: SchematicData)
        ensures
            r.blocks == blocks,
            r.tile_entities_list == tile_entities_list,
            r.entities_list == entities_list,
            r.size == size,
    {
        SchematicData { blocks, tile_entities_list, entities_list, size }
    }
}

} // verus!
