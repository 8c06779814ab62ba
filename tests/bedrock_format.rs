use schematic_core::bedrock::ToBESchematic;
use schematic_core::decode::be_get_blocks_pos;
use schematic_core::error::SchematicError;
use schematic_core::model::{BlockData, BlockStatePosList};
use schematic_core::nbt::save_nbt_le;
use schematic_core::nbt_read::load_nbt_le;

#[test]
fn bedrock_round_trip_through_le_nbt() {
    let mut list = BlockStatePosList::new();
    let mut stone_state = BlockData::new("minecraft:stone".to_string());
    stone_state.properties.push(("stone_type".to_string(), "granite".to_string()));
    let stone = list.add_state(stone_state);
    let glass = list.add_state(BlockData::new("minecraft:glass".to_string()));
    list.add_by_pos(3, 7, -2, glass);
    list.add_by_pos(4, 7, -2, stone);
    list.add_by_pos(4, 8, -1, glass);
    let be = ToBESchematic::new(&list).unwrap();
    assert_eq!((be.width, be.height, be.length), (2, 2, 2));
    let names: Vec<String> = be.palette.iter().map(|b| b.name.clone()).collect();
    assert_eq!(names, vec!["minecraft:glass".to_string(), "minecraft:stone".to_string()]);
    assert_eq!(be.ids, vec![0, 1, 0]);
    // x outermost, then y, then z; empty cells hold u32::MAX.
    assert_eq!(be.cells, vec![0, u32::MAX, u32::MAX, u32::MAX, 1, u32::MAX, u32::MAX, 0]);
    let root = be.to_be_value();
    let bytes = save_nbt_le("", &root).unwrap();
    let (_, back_root) = load_nbt_le(&bytes).unwrap();
    let back = be_get_blocks_pos(&back_root).unwrap();
    assert_eq!(back.blocks.states[1].properties, vec![("stone_type".to_string(), "granite".to_string())]);
    let got: Vec<(i32, i32, i32, String)> = back
        .blocks
        .elements
        .iter()
        .map(|b| (b.pos.x, b.pos.y, b.pos.z, back.blocks.states[b.state].name.clone()))
        .collect();
    assert_eq!(
        got,
        vec![
            (0, 0, 0, "minecraft:glass".to_string()),
            (1, 0, 0, "minecraft:stone".to_string()),
            (1, 1, 1, "minecraft:glass".to_string())
        ]
    );
}

#[test]
fn bedrock_empty_model_refused() {
    assert_eq!(ToBESchematic::new(&BlockStatePosList::new()).err(), Some(SchematicError::Format));
}
