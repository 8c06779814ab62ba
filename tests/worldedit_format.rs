use schematic_core::error::SchematicError;
use schematic_core::model::{BlockData, BlockStatePosList};
use schematic_core::nbt::NbtValue;
use schematic_core::worldedit::{block_to_string, extract_namespace, parse_block_state, we_get_blocks_pos, we_schematic};

#[test]
fn block_state_text_round_trip() {
    let b = parse_block_state("minecraft:oak_stairs[facing=north, half= top ]").unwrap();
    assert_eq!(b.name, "minecraft:oak_stairs");
    assert_eq!(
        b.properties,
        vec![("facing".to_string(), "north".to_string()), ("half".to_string(), "top".to_string())]
    );
    assert_eq!(block_to_string(&b), "minecraft:oak_stairs[facing=north,half=top]");
    let plain = parse_block_state("minecraft:stone").unwrap();
    assert!(plain.properties.is_empty());
    assert_eq!(block_to_string(&plain), "minecraft:stone");
    assert_eq!(parse_block_state("minecraft:x[novalue]").err(), Some(SchematicError::Format));
    let unordered = parse_block_state("minecraft:door[open=true,facing=west,open=false]").unwrap();
    assert_eq!(
        unordered.properties,
        vec![("facing".to_string(), "west".to_string()), ("open".to_string(), "false".to_string())]
    );
}

fn sample() -> BlockStatePosList {
    let mut list = BlockStatePosList::new();
    let mut stairs = BlockData::new("minecraft:oak_stairs".to_string());
    stairs.properties.push(("facing".to_string(), "east".to_string()));
    let s = list.add_state(stairs);
    let stone = list.add_state(BlockData::new("minecraft:stone".to_string()));
    list.add_by_pos(10, 64, 10, s);
    list.add_by_pos(11, 65, 12, stone);
    list
}

fn check_round_trip(revision: i32) {
    let list = sample();
    let root = we_schematic(&list, revision).unwrap();
    let back = we_get_blocks_pos(&root).unwrap();
    assert_eq!((back.size.width, back.size.height, back.size.length), (2, 2, 3));
    assert_eq!(back.blocks.elements.len(), 12);
    let find = |x: i32, y: i32, z: i32| {
        let e = back.blocks.elements.iter().find(|e| (e.pos.x, e.pos.y, e.pos.z) == (x, y, z)).unwrap();
        block_to_string(&back.blocks.states[e.state])
    };
    assert_eq!(find(0, 0, 0), "minecraft:oak_stairs[facing=east]");
    assert_eq!(find(1, 1, 2), "minecraft:stone");
    assert_eq!(find(1, 0, 0), "minecraft:air");
}

#[test]
fn worldedit_revision_zero_round_trip() {
    check_round_trip(0);
}

#[test]
fn worldedit_revision_one_round_trip() {
    check_round_trip(1);
    let root = we_schematic(&sample(), 1).unwrap();
    assert_eq!(root.len(), 1);
    assert_eq!(root[0].0, "Schematic");
}

#[test]
fn worldedit_errors() {
    assert_eq!(we_schematic(&sample(), 7).err(), Some(SchematicError::Format));
    assert_eq!(we_schematic(&BlockStatePosList::new(), 0).err(), Some(SchematicError::Format));
    let root = vec![
        ("Length".to_string(), NbtValue::Short(1)),
        ("Width".to_string(), NbtValue::Short(1)),
        ("Height".to_string(), NbtValue::Short(1)),
        ("Palette".to_string(), NbtValue::Compound(vec![("minecraft:stone".to_string(), NbtValue::Int(0))])),
        ("BlockData".to_string(), NbtValue::ByteArray(vec![3])),
    ];
    assert_eq!(we_get_blocks_pos(&root).err(), Some(SchematicError::Lookup));
    let missing = vec![("Length".to_string(), NbtValue::Short(1))];
    assert_eq!(we_get_blocks_pos(&missing).err(), Some(SchematicError::MissingField));
}

#[test]
fn namespace_split() {
    assert_eq!(extract_namespace("minecraft:stone"), Ok(("minecraft".to_string(), "stone".to_string())));
    assert_eq!(extract_namespace("a:b:c"), Ok(("a".to_string(), "b:c".to_string())));
    assert_eq!(extract_namespace("stone"), Err(SchematicError::Format));
}
