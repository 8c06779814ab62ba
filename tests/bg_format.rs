use schematic_core::bg::{bg_body_bytes, bg_get_blocks_pos, bg_payload, bg_size, BgSource};
use schematic_core::error::SchematicError;
use schematic_core::nbt::NbtValue;

fn e(k: &str, v: NbtValue) -> (String, NbtValue) {
    (k.to_string(), v)
}

fn pos(x: i32, y: i32, z: i32) -> NbtValue {
    NbtValue::Compound(vec![e("X", NbtValue::Int(x)), e("Y", NbtValue::Int(y)), e("Z", NbtValue::Int(z))])
}

fn named(n: &str) -> NbtValue {
    NbtValue::Compound(vec![e("Name", NbtValue::String(n.to_string()))])
}

#[test]
fn bg_sizes_of_each_variant() {
    let v0 = vec![e("startpos", pos(5, 5, 5)), e("endpos", pos(6, 7, 3))];
    let s = bg_size(0, &v0).unwrap();
    assert_eq!((s.width, s.height, s.length), (2, 3, 1));
    let v1 = vec![e(
        "header",
        NbtValue::Compound(vec![e(
            "bounds",
            NbtValue::Compound(vec![
                e("minX", NbtValue::Int(0)),
                e("minY", NbtValue::Int(0)),
                e("minZ", NbtValue::Int(0)),
                e("maxX", NbtValue::Int(3)),
                e("maxY", NbtValue::Int(1)),
                e("maxZ", NbtValue::Int(0)),
            ]),
        )]),
    )];
    let s1 = bg_size(1, &v1).unwrap();
    assert_eq!((s1.width, s1.height, s1.length), (4, 2, 1));
    assert_eq!(bg_size(2, &v0).err(), Some(SchematicError::MissingField));
    assert_eq!(bg_size(7, &v0).err(), Some(SchematicError::Format));
}

#[test]
fn bg_variant_zero_blocks() {
    let root = vec![
        e("startpos", pos(0, 0, 0)),
        e("endpos", pos(1, 0, 1)),
        e("blockstatemap", NbtValue::List(10, vec![named("minecraft:air"), named("minecraft:stone")])),
        e("statelist", NbtValue::IntArray(vec![1, 0, 0, 1])),
    ];
    let d = bg_get_blocks_pos(0, &root).unwrap();
    let got: Vec<(i32, i32, i32, usize)> =
        d.blocks.elements.iter().map(|b| (b.pos.x, b.pos.y, b.pos.z, b.state)).collect();
    // z outermost, then y, then x.
    assert_eq!(got, vec![(0, 0, 0, 1), (1, 0, 0, 0), (0, 0, 1, 0), (1, 0, 1, 1)]);
    let bad = vec![
        e("startpos", pos(0, 0, 0)),
        e("endpos", pos(1, 0, 0)),
        e("blockstatemap", NbtValue::List(10, vec![named("minecraft:air")])),
        e("statelist", NbtValue::IntArray(vec![0, 4])),
    ];
    assert_eq!(bg_get_blocks_pos(0, &bad).err(), Some(SchematicError::Lookup));
}

#[test]
fn bg_variant_two_blocks() {
    let root = v2_root();
    let d = bg_get_blocks_pos(2, &root).unwrap();
    assert_eq!(d.blocks.states[0].name, "minecraft:glass");
    let got: Vec<(i32, i32, i32, usize)> =
        d.blocks.elements.iter().map(|b| (b.pos.x, b.pos.y, b.pos.z, b.state)).collect();
    assert_eq!(got, vec![(2, 3, 4, 0), (0, 0, 0, 0)]);
    let mut bad = v2_root();
    bad[2] = e("stateIntArray", NbtValue::IntArray(vec![2]));
    assert_eq!(bg_get_blocks_pos(2, &bad).err(), Some(SchematicError::Lookup));
    assert_eq!(bg_get_blocks_pos(1, &root).err(), Some(SchematicError::Format));
}


fn v2_root() -> Vec<(String, NbtValue)> {
    let map = NbtValue::Compound(vec![e("mapState", named("minecraft:glass"))]);
    vec![
        e("startPos", pos(10, 10, 10)),
        e("endPos", pos(12, 10, 10)),
        e("stateIntArray", NbtValue::IntArray(vec![1, 1])),
        e("mapIntState", NbtValue::List(10, vec![map])),
        e("posIntArray", NbtValue::IntArray(vec![0x020304, 0x000000])),
    ]
}

#[test]
fn bg_payload_sources() {
    match bg_payload("{\"statePosArrayList\": \"{a:1}\"}", 0) {
        Ok(BgSource::Snbt(t)) => assert_eq!(t, "{a:1}"),
        other => panic!("{:?}", other),
    }
    assert_eq!(bg_payload("{\"x\": 1}", 0).err(), Some(SchematicError::MissingField));
    match bg_payload("{\"body\": \"AQID\"}", 1) {
        Ok(BgSource::GzipNbt(b)) => assert_eq!(b, vec![1, 2, 3]),
        other => panic!("{:?}", other),
    }
    assert_eq!(bg_payload("{\"body\": \"!!\"}", 1).err(), Some(SchematicError::Format));
    match bg_payload("{body:\"AQID\",\r\nx:1}", 1) {
        Ok(BgSource::SnbtWithBody(t)) => assert_eq!(t, "{body:\"AQID\",x:1}"),
        other => panic!("{:?}", other),
    }
    match bg_payload("{mapIntState:[]\r\n}", 2) {
        Ok(BgSource::Snbt(t)) => assert_eq!(t, "{mapIntState:[]}"),
        other => panic!("{:?}", other),
    }
    assert_eq!(bg_payload("{}", 5).err(), Some(SchematicError::Format));
    let outer = vec![e("body", NbtValue::String("AQID".to_string()))];
    assert_eq!(bg_body_bytes(&outer), Ok(vec![1, 2, 3]));
    assert_eq!(bg_body_bytes(&vec![]), Err(SchematicError::MissingField));
}
