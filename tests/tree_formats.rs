use schematic_core::decode::{be_get_blocks_pos, create_get_blocks_pos, lm_get_blocks_pos};
use schematic_core::encode::{create_schematic, lm_encode_blocks, lm_schematic, palette_entry_value};
use schematic_core::error::SchematicError;
use schematic_core::grid::decode_lm_region;
use schematic_core::model::{BlockData, BlockPos, BlockStatePosList, Entities, EntitiesList, TileEntities, TileEntitiesList};
use schematic_core::nbt::NbtValue;
use schematic_core::nbt_access::{get_i32, get_list, get_pos, get_str};
use schematic_core::palette_entry::{parse_palette_entry, parse_properties};
use schematic_core::split::{air_frame_corners, part_local};
use schematic_core::model::Size;

fn e(k: &str, v: NbtValue) -> (String, NbtValue) {
    (k.to_string(), v)
}

fn s(v: &str) -> NbtValue {
    NbtValue::String(v.to_string())
}

fn xyz(x: i32, y: i32, z: i32) -> NbtValue {
    NbtValue::Compound(vec![e("x", NbtValue::Int(x)), e("y", NbtValue::Int(y)), e("z", NbtValue::Int(z))])
}

#[test]
fn typed_lookups() {
    let c = vec![e("a", NbtValue::Int(4)), e("b", s("x")), e("p", xyz(1, 2, 3)), e("a", NbtValue::Int(9))];
    assert_eq!(get_i32(&c, "a"), Ok(4));
    assert_eq!(get_i32(&c, "b"), Err(SchematicError::TypeMismatch));
    assert_eq!(get_i32(&c, "zz"), Err(SchematicError::MissingField));
    assert_eq!(get_str(&c, "b").map(|s| s.as_str()), Ok("x"));
    assert_eq!(get_pos(&c, "p"), Ok(BlockPos { x: 1, y: 2, z: 3 }));
    assert_eq!(get_list(&c, "a").err(), Some(SchematicError::TypeMismatch));
}

#[test]
fn palette_entries() {
    let entry = NbtValue::Compound(vec![
        e("Name", s("minecraft:oak_log")),
        e("Properties", NbtValue::Compound(vec![e("axis", s("y")), e("n", NbtValue::Int(3))])),
    ]);
    let b = parse_palette_entry(&entry, "Name", "Properties", false).unwrap();
    assert_eq!(b.name, "minecraft:oak_log");
    assert_eq!(b.properties, vec![("axis".to_string(), "y".to_string())]);
    let nameless = NbtValue::Compound(vec![]);
    assert_eq!(parse_palette_entry(&nameless, "Name", "Properties", false).unwrap().name, "minecraft:air");
    assert_eq!(parse_palette_entry(&NbtValue::Int(1), "Name", "Properties", false).err(), Some(SchematicError::Format));
    let states = vec![e("open", NbtValue::Byte(1)), e("age", NbtValue::Int(-7)), e("kind", s("oak")), e("skip", NbtValue::Long(1))];
    assert_eq!(
        parse_properties(&states, true),
        vec![
            ("age".to_string(), "-7".to_string()),
            ("kind".to_string(), "oak".to_string()),
            ("open".to_string(), "true".to_string())
        ]
    );
}

fn lm_root(block_states: Vec<i64>, palette: Vec<NbtValue>) -> Vec<(String, NbtValue)> {
    let region = NbtValue::Compound(vec![
        e("BlockStates", NbtValue::LongArray(block_states)),
        e("Position", xyz(10, 20, 30)),
        e("Size", xyz(2, 1, -2)),
        e("BlockStatePalette", NbtValue::List(10, palette)),
        e("TileEntities", NbtValue::List(0, vec![])),
    ]);
    vec![
        e("Metadata", NbtValue::Compound(vec![e("EnclosingSize", xyz(2, 1, 2))])),
        e("Regions", NbtValue::Compound(vec![e("main", region)])),
    ]
}

fn named(n: &str) -> NbtValue {
    NbtValue::Compound(vec![e("Name", s(n))])
}

#[test]
fn litematica_tree_decode() {
    // Four 2-bit cells: 1, 0, 2, 1 in y, z, x order.
    let word: i64 = 1 | (0 << 2) | (2 << 4) | (1 << 6);
    let root = lm_root(vec![word], vec![named("minecraft:air"), named("minecraft:stone"), named("minecraft:dirt")]);
    let d = lm_get_blocks_pos(&root).unwrap();
    assert_eq!((d.size.width, d.size.height, d.size.length), (2, 1, 2));
    assert_eq!(d.blocks.states.len(), 3);
    let got: Vec<(i32, i32, i32, usize)> =
        d.blocks.elements.iter().map(|b| (b.pos.x, b.pos.y, b.pos.z, b.state)).collect();
    assert_eq!(got, vec![(10, 20, 30, 1), (11, 20, 30, 0), (10, 20, 31, 2), (11, 20, 31, 1)]);
}

#[test]
fn litematica_tree_errors() {
    let word: i64 = 3;
    let root = lm_root(vec![word], vec![named("minecraft:air"), named("minecraft:stone")]);
    assert_eq!(lm_get_blocks_pos(&root).err(), Some(SchematicError::Lookup));
    let short = lm_root(vec![], vec![named("minecraft:air")]);
    assert_eq!(lm_get_blocks_pos(&short).err(), Some(SchematicError::Format));
    let no_regions = vec![e("Metadata", NbtValue::Compound(vec![e("EnclosingSize", xyz(1, 1, 1))]))];
    assert_eq!(lm_get_blocks_pos(&no_regions).err(), Some(SchematicError::MissingField));
}

fn be_root(layer: Vec<NbtValue>) -> Vec<(String, NbtValue)> {
    let palette = NbtValue::Compound(vec![e(
        "default",
        NbtValue::Compound(vec![e(
            "block_palette",
            NbtValue::List(
                10,
                vec![
                    NbtValue::Compound(vec![e("name", s("minecraft:stone"))]),
                    NbtValue::Compound(vec![
                        e("name", s("minecraft:wool")),
                        e("states", NbtValue::Compound(vec![e("color", s("red"))])),
                    ]),
                ],
            ),
        )]),
    )]);
    vec![
        e("format_version", NbtValue::Int(1)),
        e("size", NbtValue::List(3, vec![NbtValue::Int(2), NbtValue::Int(1), NbtValue::Int(2)])),
        e(
            "structure",
            NbtValue::Compound(vec![
                e("block_indices", NbtValue::List(9, vec![NbtValue::List(3, layer), NbtValue::List(3, vec![])])),
                e("palette", palette),
            ]),
        ),
    ]
}

#[test]
fn bedrock_tree_decode() {
    let root = be_root(vec![NbtValue::Int(0), NbtValue::Int(-1), NbtValue::Int(1), NbtValue::Int(0)]);
    let d = be_get_blocks_pos(&root).unwrap();
    assert_eq!((d.size.width, d.size.height, d.size.length), (2, 1, 2));
    let got: Vec<(i32, i32, i32, usize)> =
        d.blocks.elements.iter().map(|b| (b.pos.x, b.pos.y, b.pos.z, b.state)).collect();
    assert_eq!(got, vec![(0, 0, 0, 0), (1, 0, 0, 1), (1, 0, 1, 0)]);
    assert_eq!(d.blocks.states[1].properties, vec![("color".to_string(), "red".to_string())]);
    let bad = be_root(vec![NbtValue::Int(2)]);
    assert_eq!(be_get_blocks_pos(&bad).err(), Some(SchematicError::Lookup));
}

#[test]
fn litematica_encode_pads_and_puts_air_first() {
    let mut list = BlockStatePosList::new();
    let stone = list.add_state(BlockData::new("minecraft:stone".to_string()));
    let air = list.add_state(BlockData::new("minecraft:air".to_string()));
    list.add_by_pos(5, 0, 5, stone);
    list.add_by_pos(6, 0, 5, air);
    let enc = lm_encode_blocks(&list).unwrap();
    assert_eq!(enc.start, BlockPos { x: 4, y: 0, z: 4 });
    assert_eq!((enc.dims.w, enc.dims.h, enc.dims.l), (4, 1, 3));
    assert_eq!(enc.palette.len(), 2);
    assert_eq!(enc.palette[0].name, "minecraft:air");
    assert_eq!(enc.palette[1].name, "minecraft:stone");
    assert_eq!(enc.ids, vec![1, 0]);
    assert_eq!(enc.bits, 2);
    let back = decode_lm_region(&enc.words, enc.bits, enc.dims, enc.start, enc.palette.len()).unwrap();
    let stone_cell = back.iter().find(|b| b.pos == BlockPos { x: 5, y: 0, z: 5 }).unwrap();
    assert_eq!(stone_cell.state, 1);
    assert_eq!(back.iter().filter(|b| b.state == 1).count(), 1);
    let tiles = TileEntitiesList { original_type: 2, elements: vec![TileEntities { pos: BlockPos { x: 5, y: 0, z: 5 }, nbt: NbtValue::Compound(vec![]) }] };
    let ents = EntitiesList { original_type: 1, elements: vec![Entities { nbt: NbtValue::Compound(vec![]) }] };
    let root = lm_schematic(&enc, 6, 1700000000, &tiles, &ents).unwrap();
    let region = match &root[3].1 {
        NbtValue::Compound(r) => match &r[0].1 {
            NbtValue::Compound(region) => region,
            _ => panic!("region"),
        },
        _ => panic!("regions"),
    };
    assert_eq!(
        region[4],
        e(
            "TileEntities",
            NbtValue::List(10, vec![NbtValue::Compound(vec![e("x", NbtValue::Int(6)), e("y", NbtValue::Int(0)), e("z", NbtValue::Int(6))])])
        )
    );
    assert_eq!(region[5], e("Entities", NbtValue::List(10, vec![])));
    let edge = TileEntitiesList { original_type: 2, elements: vec![TileEntities { pos: BlockPos { x: i32::MAX, y: 0, z: 0 }, nbt: NbtValue::Compound(vec![]) }] };
    assert_eq!(lm_schematic(&enc, 6, 0, &edge, &ents).err(), Some(SchematicError::Format));
    assert_eq!(root[1], e("Version", NbtValue::Int(6)));
    assert!(lm_encode_blocks(&BlockStatePosList::new()).is_err());
}

#[test]
fn palette_entry_tree() {
    let mut b = BlockData::new("minecraft:stairs".to_string());
    b.properties.push(("facing".to_string(), "east".to_string()));
    let v = palette_entry_value(&b);
    assert_eq!(
        v,
        NbtValue::Compound(vec![
            e("Name", s("minecraft:stairs")),
            e("Properties", NbtValue::Compound(vec![e("facing", s("east"))])),
        ])
    );
}

#[test]
fn split_frame_and_local_positions() {
    let c = air_frame_corners(BlockPos { x: 0, y: 0, z: 0 }, Size { width: 3, height: 5, length: 10 });
    assert_eq!(c.len(), 8);
    assert_eq!(c[0], BlockPos { x: -1, y: 0, z: -1 });
    assert_eq!(c[7], BlockPos { x: 3, y: 4, z: 10 });
    let size = Size { width: 3, height: 5, length: 10 };
    assert_eq!(part_local(BlockPos { x: 4, y: 1, z: 2 }, BlockPos { x: 3, y: 0, z: 0 }, size), Some(BlockPos { x: 1, y: 1, z: 2 }));
    assert_eq!(part_local(BlockPos { x: 6, y: 1, z: 2 }, BlockPos { x: 3, y: 0, z: 0 }, size), None);
}

#[test]
fn create_round_trip_keeps_blocks_and_tile_entities() {
    let root = vec![
        e("size", NbtValue::List(3, vec![NbtValue::Int(2), NbtValue::Int(1), NbtValue::Int(1)])),
        e(
            "blocks",
            NbtValue::List(
                10,
                vec![
                    NbtValue::Compound(vec![
                        e("pos", NbtValue::List(3, vec![NbtValue::Int(0), NbtValue::Int(0), NbtValue::Int(0)])),
                        e("state", NbtValue::Int(1)),
                        e("nbt", NbtValue::Compound(vec![e("Items", NbtValue::List(0, vec![]))])),
                    ]),
                    NbtValue::Compound(vec![
                        e("pos", NbtValue::IntArray(vec![1, 0, 0])),
                        e("state", NbtValue::Int(0)),
                    ]),
                ],
            ),
        ),
        e("palette", NbtValue::List(10, vec![named("minecraft:air"), named("minecraft:chest")])),
    ];
    let d = create_get_blocks_pos(&root).unwrap();
    assert_eq!(d.blocks.elements.len(), 2);
    assert_eq!(d.tile_entities_list.elements.len(), 1);
    assert_eq!(d.tile_entities_list.elements[0].pos, BlockPos { x: 0, y: 0, z: 0 });
    let out = create_schematic(&d, false).unwrap();
    // Air is dropped; the chest keeps its tile entity; the palette starts with the chest.
    match &out[1].1 {
        NbtValue::List(_, blocks) => {
            assert_eq!(blocks.len(), 1);
            assert_eq!(
                blocks[0],
                NbtValue::Compound(vec![
                    e("state", NbtValue::Int(0)),
                    e("pos", NbtValue::List(3, vec![NbtValue::Int(0), NbtValue::Int(0), NbtValue::Int(0)])),
                    e("nbt", NbtValue::Compound(vec![e("Items", NbtValue::List(0, vec![]))])),
                ])
            );
        }
        other => panic!("blocks is {:?}", other),
    }
    let with_air = create_schematic(&d, true).unwrap();
    assert_eq!(with_air[0].1, NbtValue::List(3, vec![NbtValue::Int(2), NbtValue::Int(1), NbtValue::Int(1)]));
    let bad_state = vec![
        e("size", NbtValue::List(3, vec![NbtValue::Int(1), NbtValue::Int(1), NbtValue::Int(1)])),
        e(
            "blocks",
            NbtValue::List(
                10,
                vec![NbtValue::Compound(vec![
                    e("pos", NbtValue::IntArray(vec![0, 0, 0])),
                    e("state", NbtValue::Int(5)),
                ])],
            ),
        ),
        e("palette", NbtValue::List(10, vec![named("minecraft:stone")])),
    ];
    assert_eq!(create_get_blocks_pos(&bad_state).err(), Some(SchematicError::Lookup));
}
