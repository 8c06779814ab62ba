use schematic_core::model::{BlockData, BlockStatePosList};
use schematic_core::replace::{replace_blocks, RuleMatcher};

fn stairs(facing: &str) -> BlockData {
    let mut b = BlockData::new("minecraft:oak_stairs".to_string());
    b.properties.push(("facing".to_string(), facing.to_string()));
    b.properties.push(("half".to_string(), "top".to_string()));
    b
}

#[test]
fn id_rule_keeps_properties() {
    let mut list = BlockStatePosList::new();
    let s = list.add_state(stairs("north"));
    let d = list.add_state(BlockData::new("minecraft:dirt".to_string()));
    list.add_by_pos(0, 0, 0, s);
    list.add_by_pos(1, 0, 0, d);
    let rules = vec![RuleMatcher::IdMatch {
        original: "minecraft:oak_stairs".to_string(),
        replacement: "minecraft:spruce_stairs".to_string(),
    }];
    replace_blocks(&mut list, &rules);
    assert_eq!(list.states[0].name, "minecraft:spruce_stairs");
    assert_eq!(list.states[0].properties.len(), 2);
    assert_eq!(list.states[1].name, "minecraft:dirt");
    assert_eq!(list.elements.len(), 2);
}

#[test]
fn full_rule_matches_properties_in_any_order() {
    let mut list = BlockStatePosList::new();
    let mut reordered = BlockData::new("minecraft:oak_stairs".to_string());
    reordered.properties.push(("half".to_string(), "top".to_string()));
    reordered.properties.push(("facing".to_string(), "north".to_string()));
    list.add_state(reordered);
    list.add_state(stairs("south"));
    let rules = vec![
        RuleMatcher::FullMatch { original: stairs("north"), replacement: BlockData::new("minecraft:glass".to_string()) },
        RuleMatcher::IdMatch { original: "minecraft:glass".to_string(), replacement: "minecraft:tinted_glass".to_string() },
    ];
    replace_blocks(&mut list, &rules);
    // Rules apply in order: the first rewrites, the second sees its result.
    assert_eq!(list.states[0].name, "minecraft:tinted_glass");
    assert!(list.states[0].properties.is_empty());
    assert_eq!(list.states[1].name, "minecraft:oak_stairs");
}
