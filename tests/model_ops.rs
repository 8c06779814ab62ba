use schematic_core::error::SchematicError;
use schematic_core::formats::{decode_we_blocks, encode_lm_blocks, encode_we_blocks};
use schematic_core::grid::{
    blocks_from_ids, build_block_id_list, decode_lm_region, get_index, index_to_pos, Dims, GridOrder,
};
use schematic_core::model::{BlockData, BlockPos, BlockStatePos, BlockStatePosList, Size};
use schematic_core::palette::{bounding_box, build_palette};
use schematic_core::split::{split_block_positions, SplitMode};

fn sp(x: i32, y: i32, z: i32, state: usize) -> BlockStatePos {
    BlockStatePos { pos: BlockPos { x, y, z }, state }
}

fn stone_air_list() -> BlockStatePosList {
    let mut list = BlockStatePosList::new();
    let stone = list.add_state(BlockData::new("minecraft:stone".to_string()));
    let air = list.add_state(BlockData::new("minecraft:air".to_string()));
    let stone_again = list.add_state(BlockData::new("minecraft:stone".to_string()));
    list.add_by_pos(0, 0, 0, air);
    list.add_by_pos(1, 0, 0, stone);
    list.add_by_pos(2, 0, 0, stone_again);
    list.add_by_pos(0, 1, 0, air);
    list
}

#[test]
fn palette_first_seen_order() {
    let list = stone_air_list();
    let p = build_palette(&list);
    assert_eq!(p.entries, vec![1, 0]);
    assert_eq!(p.indices, vec![0, 1, 1, 0]);
}

#[test]
fn palette_is_deterministic() {
    let list = stone_air_list();
    let a = build_palette(&list);
    let b = build_palette(&list);
    assert_eq!(a.entries, b.entries);
    assert_eq!(a.indices, b.indices);
}

#[test]
fn block_states_compare_by_value() {
    let mut a = BlockData::new("minecraft:oak_stairs".to_string());
    a.properties.push(("facing".to_string(), "north".to_string()));
    let b = a.duplicate();
    assert!(a.same_as(&b));
    let c = BlockData::new("minecraft:oak_stairs".to_string());
    assert!(!a.same_as(&c));
}

#[test]
fn bounding_box_of_blocks() {
    let es = vec![sp(3, -1, 2, 0), sp(-4, 5, 0, 0), sp(0, 0, 9, 0)];
    assert_eq!(bounding_box(&es), Some((BlockPos { x: -4, y: -1, z: 0 }, BlockPos { x: 3, y: 5, z: 9 })));
    assert_eq!(bounding_box(&vec![]), None);
}

#[test]
fn grid_orders() {
    let d = Dims { w: 4, h: 3, l: 2 };
    assert_eq!(get_index(GridOrder::YZX, d, 1, 2, 1), (2 * 2 + 1) * 4 + 1);
    assert_eq!(get_index(GridOrder::XYZ, d, 1, 2, 1), (1 * 3 + 2) * 2 + 1);
    for i in 0..24usize {
        let (x, y, z) = index_to_pos(GridOrder::YZX, d, i);
        assert_eq!(get_index(GridOrder::YZX, d, x, y, z), i);
        let (x, y, z) = index_to_pos(GridOrder::XYZ, d, i);
        assert_eq!(get_index(GridOrder::XYZ, d, x, y, z), i);
    }
}

#[test]
fn grid_scatter_and_lookup_error() {
    let es = vec![sp(10, 20, 30, 0), sp(11, 20, 30, 0), sp(50, 0, 0, 0)];
    let d = Dims { w: 2, h: 1, l: 1 };
    let start = BlockPos { x: 10, y: 20, z: 30 };
    let grid = build_block_id_list(&es, &vec![3, 4, 5], start, d, GridOrder::YZX, 0);
    assert_eq!(grid, vec![3, 4]);
    assert_eq!(blocks_from_ids(&grid, 4, GridOrder::YZX, d, start), Err(SchematicError::Lookup));
    let blocks = blocks_from_ids(&grid, 5, GridOrder::YZX, d, start).unwrap();
    assert_eq!(blocks, vec![sp(10, 20, 30, 3), sp(11, 20, 30, 4)]);
}

#[test]
fn litematica_region_round_trip() {
    let es = vec![sp(5, 5, 5, 0), sp(6, 5, 5, 0), sp(5, 6, 6, 0)];
    let ids = vec![1, 2, 3];
    let d = Dims { w: 2, h: 2, l: 2 };
    let start = BlockPos { x: 5, y: 5, z: 5 };
    let (grid, words) = encode_lm_blocks(&es, &ids, start, d, 0, 2);
    assert_eq!(grid, vec![1, 2, 0, 0, 0, 0, 3, 0]);
    assert_eq!(words.len(), 1);
    let back = decode_lm_region(&words, 2, d, start, 4).unwrap();
    assert_eq!(back[0], sp(5, 5, 5, 1));
    assert_eq!(back[1], sp(6, 5, 5, 2));
    assert_eq!(back[6], sp(5, 6, 6, 3));
    assert_eq!(decode_lm_region(&words, 2, d, start, 3), Err(SchematicError::Lookup));
    assert_eq!(decode_lm_region(&vec![], 2, d, start, 4), Err(SchematicError::Format));
}

#[test]
fn worldedit_blocks_round_trip() {
    let es = vec![sp(0, 0, 0, 0), sp(0, 1, 0, 0)];
    let d = Dims { w: 1, h: 2, l: 1 };
    let start = BlockPos { x: 0, y: 0, z: 0 };
    let (grid, bytes) = encode_we_blocks(&es, &vec![200, 1], start, d, 0);
    assert_eq!(grid, vec![200, 1]);
    assert_eq!(bytes, vec![0xc8, 0x01, 0x01]);
    let back = decode_we_blocks(&bytes, 201, d, start).unwrap();
    assert_eq!(back, vec![sp(0, 0, 0, 200), sp(0, 1, 0, 1)]);
    assert_eq!(decode_we_blocks(&bytes, 200, d, start), Err(SchematicError::Lookup));
    assert_eq!(decode_we_blocks(&vec![1], 201, d, start), Err(SchematicError::Format));
}

fn cube(w: i32, h: i32, l: i32) -> Vec<BlockStatePos> {
    let mut es = Vec::new();
    for x in 0..w {
        for y in 0..h {
            for z in 0..l {
                es.push(sp(x + 100, y, z - 7, 0));
            }
        }
    }
    es
}

#[test]
fn split_width_into_three() {
    let es = cube(10, 5, 10);
    let size = Size { width: 10, height: 5, length: 10 };
    let parts = split_block_positions(&es, size, SplitMode::Width, 3).unwrap();
    let widths: Vec<i32> = parts.iter().map(|p| p.size.width).collect();
    assert_eq!(widths, vec![3, 3, 4]);
    assert_eq!(widths.iter().sum::<i32>(), 10);
    let offsets: Vec<i32> = parts.iter().map(|p| p.offset.x).collect();
    assert_eq!(offsets, vec![0, 3, 6]);
    let counts: Vec<usize> = parts.iter().map(|p| p.blocks.len()).collect();
    assert_eq!(counts, vec![150, 150, 200]);
    for (k, p) in parts.iter().enumerate() {
        for b in &p.blocks {
            let t = b.pos.x - 100;
            let expected = if t / 3 < 2 { (t / 3) as usize } else { 2 };
            assert_eq!(expected, k);
        }
    }
}

#[test]
fn split_grid_two_by_two() {
    let es = cube(10, 5, 10);
    let size = Size { width: 10, height: 5, length: 10 };
    let parts = split_block_positions(&es, size, SplitMode::Grid, 4).unwrap();
    assert_eq!(parts.len(), 4);
    for p in &parts {
        assert_eq!((p.size.width, p.size.length, p.size.height), (5, 5, 5));
        assert_eq!(p.blocks.len(), 125);
    }
    assert_eq!(parts[1].offset, BlockPos { x: 0, y: 0, z: 5 });
    assert_eq!(parts[2].offset, BlockPos { x: 5, y: 0, z: 0 });
    let total: usize = parts.iter().map(|p| p.blocks.len()).sum();
    assert_eq!(total, es.len());
}

#[test]
fn split_height_remainder_on_last() {
    let es = cube(2, 7, 2);
    let size = Size { width: 2, height: 7, length: 2 };
    let parts = split_block_positions(&es, size, SplitMode::Height, 2).unwrap();
    assert_eq!(parts[0].size.height, 3);
    assert_eq!(parts[1].size.height, 4);
    assert_eq!(parts[1].offset.y, 3);
}

#[test]
fn split_configuration_errors() {
    let es = cube(3, 3, 3);
    let size = Size { width: 3, height: 3, length: 3 };
    assert_eq!(split_block_positions(&es, size, SplitMode::Width, 0).err(), Some(SchematicError::Configuration));
    assert_eq!(split_block_positions(&es, size, SplitMode::Width, 4).err(), Some(SchematicError::Configuration));
    assert_eq!(split_block_positions(&es, size, SplitMode::Grid, 3).err(), Some(SchematicError::Configuration));
    assert_eq!(split_block_positions(&es, size, SplitMode::Grid, 16).err(), Some(SchematicError::Configuration));
    assert!(split_block_positions(&es, size, SplitMode::Grid, 9).is_ok());
}
