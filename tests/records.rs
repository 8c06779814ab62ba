use schematic_core::bg::{contains_bytes, sniff_bg_type, BgSchematic};
use schematic_core::error::SchematicError;
use schematic_core::metadata::{RegionNameList, WeSize};
use schematic_core::model::Size;

#[test]
fn size_text() {
    let s = Size { width: 10, height: -5, length: 0 };
    assert_eq!(s.to_string(), "10,-5,0");
    let big = Size { width: i32::MIN, height: i32::MAX, length: 7 };
    assert_eq!(big.to_string(), "-2147483648,2147483647,7");
}

#[test]
fn we_size_text() {
    let s = WeSize { length: 3, width: 1, height: 2 };
    assert_eq!(s.to_string(), "1,2,3");
}

#[test]
fn region_names_in_order() {
    let mut names = RegionNameList::new();
    names.add("a".to_string());
    names.add("b".to_string());
    assert_eq!(names.names, vec!["a".to_string(), "b".to_string()]);
}

#[test]
fn substring_search() {
    assert!(contains_bytes(b"{\"body\":1}", &b"body".to_vec()));
    assert!(!contains_bytes(b"bod", &b"body".to_vec()));
    assert!(contains_bytes(b"", &vec![]));
}

#[test]
fn sniff_variants() {
    assert_eq!(sniff_bg_type(true, "{\"statePosArrayList\":\"x\",\"body\":1}"), Ok(0));
    assert_eq!(sniff_bg_type(true, "{\"body\":\"x\"}"), Ok(1));
    assert_eq!(sniff_bg_type(true, "{\"other\":1}"), Ok(0));
    assert_eq!(sniff_bg_type(false, "{body:x}"), Ok(1));
    assert_eq!(sniff_bg_type(false, "{mapIntState:[]}"), Ok(2));
    assert_eq!(sniff_bg_type(false, "{nothing}"), Err(SchematicError::Format));
}

#[test]
fn bg_file_type() {
    let parsed = BgSchematic::new_from_data(b"{ \"statePosArrayList\" : \"abc\" }".to_vec()).unwrap();
    assert_eq!(parsed.get_type(), Ok(0));
    let spaced = BgSchematic::new_from_data(b"{ map Int State: [1,2] ".to_vec()).unwrap();
    assert_eq!(spaced.get_type(), Ok(2));
    let broken = BgSchematic::new_from_data(b"{ b o d y ".to_vec()).unwrap();
    assert_eq!(broken.get_type(), Ok(1));
    assert_eq!(BgSchematic::new_from_data(vec![0xff, 0xfe]).err(), Some(SchematicError::Format));
}
