use schematic_core::model::{
    BlockData, BlockPos, BlockStatePosList, Entities, EntitiesList, SchematicData, Size, TileEntities,
    TileEntitiesList,
};
use schematic_core::nbt::NbtValue;
use schematic_core::split::{relocate_tile_nbt, split_schematic_parts, SplitMode};

fn model(original_type: i32) -> SchematicData {
    let mut list = BlockStatePosList::new();
    let stone = list.add_state(BlockData::new("minecraft:stone".to_string()));
    for x in 0..4 {
        list.add_by_pos(x + 10, 0, 0, stone);
    }
    let tile = TileEntities {
        pos: BlockPos { x: 13, y: 0, z: 0 },
        nbt: NbtValue::Compound(vec![("id".to_string(), NbtValue::String("chest".to_string()))]),
    };
    SchematicData::new(
        list,
        TileEntitiesList { original_type, elements: vec![tile] },
        EntitiesList { original_type, elements: vec![Entities { nbt: NbtValue::Int(1) }] },
        Size { width: 4, height: 1, length: 1 },
    )
}

#[test]
fn split_parts_carry_frames_tiles_and_entities() {
    let data = model(2);
    let parts = split_schematic_parts(&data, SplitMode::Width, 2, true).unwrap();
    assert_eq!(parts.len(), 2);
    // Two blocks of the part and eight air markers.
    assert_eq!(parts[0].data.blocks.elements.len(), 10);
    assert_eq!(parts[1].data.blocks.elements.len(), 10);
    assert_eq!(parts[0].data.entities_list.elements.len(), 1);
    assert_eq!(parts[1].data.entities_list.elements.len(), 0);
    assert_eq!(parts[0].data.tile_entities_list.elements.len(), 0);
    let tiles = &parts[1].data.tile_entities_list.elements;
    assert_eq!(tiles.len(), 1);
    assert_eq!(tiles[0].pos, BlockPos { x: 1, y: 0, z: 0 });
    assert_eq!(
        tiles[0].nbt,
        NbtValue::Compound(vec![
            ("id".to_string(), NbtValue::String("chest".to_string())),
            ("x".to_string(), NbtValue::Int(1)),
            ("y".to_string(), NbtValue::Int(0)),
            ("z".to_string(), NbtValue::Int(0)),
        ])
    );
    let corner = parts[1].data.blocks.elements[2].pos;
    assert_eq!(corner, BlockPos { x: 11, y: 0, z: -1 });
}

#[test]
fn grid_split_has_no_frame() {
    let mut list = BlockStatePosList::new();
    let s = list.add_state(BlockData::new("minecraft:stone".to_string()));
    for x in 0..2 {
        for z in 0..2 {
            list.add_by_pos(x, 0, z, s);
        }
    }
    let data = SchematicData::new(
        list,
        TileEntitiesList { original_type: 1, elements: vec![] },
        EntitiesList { original_type: 1, elements: vec![] },
        Size { width: 2, height: 1, length: 2 },
    );
    let parts = split_schematic_parts(&data, SplitMode::Grid, 4, true).unwrap();
    for p in &parts {
        assert_eq!(p.data.blocks.elements.len(), 1);
    }
}

#[test]
fn worldedit_tile_position_rewritten() {
    let v = relocate_tile_nbt(&NbtValue::Int(7), 3, BlockPos { x: 1, y: 2, z: 3 });
    assert_eq!(
        v,
        NbtValue::Compound(vec![
            ("nbt".to_string(), NbtValue::Int(7)),
            ("Pos".to_string(), NbtValue::IntArray(vec![1, 2, 3])),
        ])
    );
    assert_eq!(relocate_tile_nbt(&NbtValue::Int(7), 1, BlockPos { x: 1, y: 2, z: 3 }), NbtValue::Int(7));
}
