use schematic_core::bits::{bits_required, encode_block_states, get_at};
use schematic_core::error::SchematicError;
use schematic_core::le_io::{
    read_exact, read_i16_le, read_i32_le, read_i64_le, read_i8, read_string_le, read_u8, write_i16_le,
    write_i32_le, write_i64_le, write_i8, write_string_le, write_u8,
};
use schematic_core::nbt::{is_storable, save_nbt_le, write_tag_payload, NbtValue};
use schematic_core::nbt_read::{load_nbt_le, read_tag_payload};
use schematic_core::varint::{decode_varints, encode_varints};

#[test]
fn bits_required_examples() {
    assert_eq!(bits_required(1), 2);
    assert_eq!(bits_required(2), 2);
    assert_eq!(bits_required(5), 3);
    assert_eq!(bits_required(256), 8);
    assert_eq!(bits_required(257), 9);
}

#[test]
fn pack_unpack_every_width() {
    for bits in 2u32..=32 {
        let max: u64 = (1u64 << bits) - 1;
        let values: Vec<u32> = (0..37u64).map(|i| ((i * 2654435761u64) & max) as u32).collect();
        let words = encode_block_states(&values, bits);
        assert_eq!(words.len(), (values.len() * bits as usize + 63) / 64);
        for (i, v) in values.iter().enumerate() {
            assert_eq!(get_at(i, bits, &words), *v, "width {} index {}", bits, i);
        }
    }
}

#[test]
fn pack_straddles_word_boundary() {
    // Five-bit values: value 12 starts at bit 60 and continues in the next word.
    let values: Vec<u32> = (0..14u32).map(|i| (i * 7) % 32).collect();
    let words = encode_block_states(&values, 5);
    assert_eq!(words.len(), 2);
    assert_eq!(get_at(12, 5, &words), values[12]);
    assert_eq!(words[0] >> 60, (values[12] & 0xf) as u64);
    assert_eq!(words[1] & 1, (values[12] >> 4) as u64);
}

#[test]
fn pack_masks_values_to_width() {
    let words = encode_block_states(&vec![0xff, 1], 4);
    assert_eq!(get_at(0, 4, &words), 0xf);
    assert_eq!(get_at(1, 4, &words), 1);
}

#[test]
fn varint_round_trip() {
    let values = vec![0u32, 1, 127, 128, 255, 300, 16383, 16384, 2097151, u32::MAX];
    let bytes = encode_varints(&values);
    assert_eq!(decode_varints(&bytes), Ok(values));
}

#[test]
fn varint_exact_bytes() {
    assert_eq!(encode_varints(&vec![300]), vec![0xac, 0x02]);
    assert_eq!(encode_varints(&vec![5, 128]), vec![0x05, 0x80, 0x01]);
}

#[test]
fn varint_truncated_stream_errors() {
    assert_eq!(decode_varints(&vec![0x05, 0x80]), Err(SchematicError::Format));
    assert_eq!(decode_varints(&vec![0xff, 0xff, 0xff, 0xff, 0xff, 0x01]), Err(SchematicError::Format));
}

#[test]
fn primitives_little_endian() {
    let mut out = Vec::new();
    write_u8(&mut out, 7);
    write_i8(&mut out, -2);
    write_i16_le(&mut out, 0x1234);
    write_i32_le(&mut out, -2);
    write_i64_le(&mut out, 0x0102030405060708);
    assert_eq!(&out[..4], &[7, 0xfe, 0x34, 0x12]);
    assert_eq!(&out[4..8], &[0xfe, 0xff, 0xff, 0xff]);
    assert_eq!(&out[8..16], &[8, 7, 6, 5, 4, 3, 2, 1]);
    let mut pos = 0usize;
    assert_eq!(read_u8(&out, &mut pos), Ok(7));
    assert_eq!(read_i8(&out, &mut pos), Ok(-2));
    assert_eq!(read_i16_le(&out, &mut pos), Ok(0x1234));
    assert_eq!(read_i32_le(&out, &mut pos), Ok(-2));
    assert_eq!(read_i64_le(&out, &mut pos), Ok(0x0102030405060708));
    assert_eq!(pos, 16);
    assert_eq!(read_u8(&out, &mut pos), Err(SchematicError::Format));
    assert_eq!(read_exact(&out, &mut pos, 1), Err(SchematicError::Format));
    let mut p2 = 2usize;
    assert_eq!(read_exact(&out, &mut p2, 2), Ok(vec![0x34, 0x12]));
}

#[test]
fn string_length_prefix_crosses_a_byte() {
    let s: String = "ab".repeat(150);
    let mut out = Vec::new();
    assert_eq!(write_string_le(&mut out, &s), Ok(()));
    assert_eq!(&out[..2], &[0x2c, 0x01]);
    let mut pos = 0usize;
    assert_eq!(read_string_le(&out, &mut pos), Ok(s));
    assert_eq!(pos, 302);
}

#[test]
fn string_too_long_refused() {
    let s: String = "x".repeat(40000);
    let mut out = Vec::new();
    assert_eq!(write_string_le(&mut out, &s), Err(SchematicError::Format));
    assert!(out.is_empty());
}

#[test]
fn string_negative_length_errors() {
    let data = vec![0xff, 0xff, b'a'];
    let mut pos = 0usize;
    assert_eq!(read_string_le(&data, &mut pos), Err(SchematicError::Format));
}

fn size_tree() -> Vec<(String, NbtValue)> {
    vec![(
        "size".to_string(),
        NbtValue::List(3, vec![NbtValue::Int(1), NbtValue::Int(2), NbtValue::Int(3)]),
    )]
}

#[test]
fn nbt_le_size_round_trip() {
    let root = size_tree();
    let bytes = save_nbt_le("", &root).unwrap();
    let (name, back) = load_nbt_le(&bytes).unwrap();
    assert_eq!(name, "");
    assert_eq!(back, root);
    assert_eq!(
        bytes,
        vec![10, 0, 0, 9, 4, 0, b's', b'i', b'z', b'e', 3, 3, 0, 0, 0, 1, 0, 0, 0, 2, 0, 0, 0, 3, 0, 0, 0, 0]
    );
}

#[test]
fn nbt_le_long_string_round_trip() {
    let root = vec![("name".to_string(), NbtValue::String("é".repeat(150)))];
    let bytes = save_nbt_le("structure", &root).unwrap();
    let (name, back) = load_nbt_le(&bytes).unwrap();
    assert_eq!(name, "structure");
    assert_eq!(back, root);
}

#[test]
fn nbt_le_every_tag_round_trip() {
    let root = vec![
        ("b".to_string(), NbtValue::Byte(-3)),
        ("s".to_string(), NbtValue::Short(-300)),
        ("i".to_string(), NbtValue::Int(70000)),
        ("l".to_string(), NbtValue::Long(-5_000_000_000)),
        ("f".to_string(), NbtValue::Float(1.5f32.to_bits())),
        ("d".to_string(), NbtValue::Double((-2.25f64).to_bits())),
        ("ba".to_string(), NbtValue::ByteArray(vec![1, -1, 0])),
        ("empty".to_string(), NbtValue::List(0, vec![])),
        (
            "nested".to_string(),
            NbtValue::Compound(vec![("x".to_string(), NbtValue::Int(5)), ("y".to_string(), NbtValue::IntArray(vec![1, 2]))]),
        ),
        ("la".to_string(), NbtValue::LongArray(vec![i64::MIN, 0, i64::MAX])),
    ];
    let bytes = save_nbt_le("", &root).unwrap();
    let (_, back) = load_nbt_le(&bytes).unwrap();
    assert_eq!(back, root);
}

#[test]
fn nbt_le_root_not_compound_errors() {
    let bytes = vec![9, 0, 0, 1, 0, 0, 0, 0];
    assert_eq!(load_nbt_le(&bytes), Err(SchematicError::Format));
}

#[test]
fn nbt_le_negative_list_length_errors() {
    let bytes = vec![10, 0, 0, 9, 1, 0, b'a', 3, 0xff, 0xff, 0xff, 0xff, 0];
    assert_eq!(load_nbt_le(&bytes), Err(SchematicError::Format));
}

#[test]
fn nbt_le_unknown_tag_errors() {
    let bytes = vec![10, 0, 0, 13, 1, 0, b'a', 0, 0];
    assert_eq!(load_nbt_le(&bytes), Err(SchematicError::Format));
    assert_eq!(read_tag_payload(&[1, 2, 3], 0, 0), Err(SchematicError::Format));
}

#[test]
fn nbt_le_truncated_errors() {
    let bytes = save_nbt_le("", &size_tree()).unwrap();
    assert_eq!(load_nbt_le(&bytes[..bytes.len() - 1]), Err(SchematicError::Format));
}

#[test]
fn nbt_unstorable_list_refused() {
    let bad = NbtValue::List(3, vec![NbtValue::Int(1), NbtValue::Byte(2)]);
    assert!(!is_storable(&bad));
    assert_eq!(save_nbt_le("", &vec![("bad".to_string(), bad)]), Err(SchematicError::Format));
    let mut out = Vec::new();
    let good = NbtValue::IntArray(vec![1]);
    assert!(is_storable(&good));
    write_tag_payload(&mut out, &good);
    assert_eq!(out, vec![1, 0, 0, 0, 1, 0, 0, 0]);
}
