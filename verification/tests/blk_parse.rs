use wt_blk::blk::error::ParseError;
use wt_blk::blk::parser::parse_blk;
use wt_blk::blk::structure::BlkField;
use wt_blk::blk::types::BlkType;
use wt_blk::blk::util::{blk_str, make_strict_test};

// ---- hand-assembled fat sample, encoding the strict test tree ----

fn names() -> Vec<&'static str> {
    vec![
        "vec4f",
        "int",
        "long",
        "alpha",
        "str",
        "bool",
        "color",
        "gamma",
        "vec2i",
        "vec2f",
        "transform",
        "beta",
        "float",
        "vec3f",
    ]
}

fn push_f32(out: &mut Vec<u8>, v: f32) {
    out.extend_from_slice(&v.to_bits().to_le_bytes());
}

fn push_i32(out: &mut Vec<u8>, v: i32) {
    out.extend_from_slice(&v.to_le_bytes());
}

fn params_blob() -> Vec<u8> {
    let mut blob = Vec::new();
    // 0: vec4f
    for v in [1.25f32, 2.5, 5.0, 10.0] {
        push_f32(&mut blob, v);
    }
    // 16: long
    blob.extend_from_slice(&64i64.to_le_bytes());
    // 24: "hello\0"
    blob.extend_from_slice(b"hello\0");
    // 30: beta vec2i
    push_i32(&mut blob, 1);
    push_i32(&mut blob, 2);
    // 38: vec3f
    for v in [1.25f32, 2.5, 5.0] {
        push_f32(&mut blob, v);
    }
    // 50: gamma vec2i
    push_i32(&mut blob, 3);
    push_i32(&mut blob, 4);
    // 58: vec2f
    for v in [1.25f32, 2.5] {
        push_f32(&mut blob, v);
    }
    // 66: transform, twelve floats
    for v in [1.0f32, 0.0, 0.0, 0.0, 1.0, 0.0, 0.0, 0.0, 1.0, 1.25, 2.5, 5.0] {
        push_f32(&mut blob, v);
    }
    assert_eq!(blob.len(), 114);
    blob
}

fn param_rec(out: &mut Vec<u8>, name_id: u32, tag: u8, payload: [u8; 4]) {
    out.push((name_id & 0xff) as u8);
    out.push(((name_id >> 8) & 0xff) as u8);
    out.push(((name_id >> 16) & 0xff) as u8);
    out.push(tag);
    out.extend_from_slice(&payload);
}

fn off(v: u32) -> [u8; 4] {
    v.to_le_bytes()
}

/// The strict-test tree, encoded as a fat BLK payload (no tag byte).
fn fat_sample() -> Vec<u8> {
    let mut file = Vec::new();
    let names = names();
    let mut names_data = Vec::new();
    for n in &names {
        names_data.extend_from_slice(n.as_bytes());
        names_data.push(0);
    }
    file.push(names.len() as u8);
    file.push(names_data.len() as u8);
    file.extend_from_slice(&names_data);
    file.push(4); // blocks
    file.push(12); // params
    file.push(114); // params data size
    file.extend_from_slice(&params_blob());
    let mut info = Vec::new();
    // root: vec4f, int, long
    param_rec(&mut info, 0, 0x06, off(0));
    param_rec(&mut info, 1, 0x02, off(42));
    param_rec(&mut info, 2, 0x0c, off(16));
    // alpha: str, bool, color
    param_rec(&mut info, 4, 0x01, off(24));
    param_rec(&mut info, 5, 0x09, off(1));
    param_rec(&mut info, 6, 0x0a, [3, 2, 1, 4]);
    // beta: float, vec2i, vec3f
    param_rec(&mut info, 12, 0x03, off(1.25f32.to_bits()));
    param_rec(&mut info, 8, 0x07, off(30));
    param_rec(&mut info, 13, 0x05, off(38));
    // gamma: vec2i, vec2f, transform
    param_rec(&mut info, 8, 0x07, off(50));
    param_rec(&mut info, 9, 0x04, off(58));
    param_rec(&mut info, 10, 0x0b, off(66));
    assert_eq!(info.len(), 96);
    file.extend_from_slice(&info);
    // block table: flat order root, alpha, beta, gamma
    file.extend_from_slice(&[0, 3, 2, 1]); // root
    file.extend_from_slice(&[4, 3, 1, 3]); // alpha, child gamma at 3
    file.extend_from_slice(&[12, 3, 0]); // beta
    file.extend_from_slice(&[8, 3, 0]); // gamma
    file
}

#[test]
fn fat_blk() {
    let file = fat_sample();
    let parsed = parse_blk(&file, false, None).unwrap();
    let expected = make_strict_test();
    assert_eq!(parsed, expected);
}

#[test]
fn fat_blk_values() {
    let file = fat_sample();
    let parsed = parse_blk(&file, false, None).unwrap();
    let v = parsed.pointer("int").unwrap();
    assert_eq!(v.value(), Some(&BlkType::Int(42)));
    let v = parsed.pointer("long").unwrap();
    assert_eq!(v.value(), Some(&BlkType::Long(64)));
    let v = parsed.pointer("vec4f").unwrap();
    assert_eq!(
        v.value(),
        Some(&BlkType::Float4(vec![
            1.25f32.to_bits(),
            2.5f32.to_bits(),
            5.0f32.to_bits(),
            10.0f32.to_bits(),
        ]))
    );
    let v = parsed.pointer("alpha/gamma/vec2i").unwrap();
    assert_eq!(v.value(), Some(&BlkType::Int2(vec![3, 4])));
}

#[test]
fn emitter_closure() {
    // parsing the byte fixture and rendering it as JSON matches the
    // golden document exactly
    let parsed = parse_blk(&fat_sample(), false, None).unwrap();
    let cfg = wt_blk::blk::json::FormattingConfiguration {
        apply_overrides: true,
        merge_duplicate_keys: true,
        pretty: false,
    };
    let out = parsed.as_ref_json(cfg).unwrap();
    let expected = "{\"vec4f\":[1.25,2.5,5.0,10.0],\"int\":42,\"long\":64,\"alpha\":{\"str\":\"hello\",\"bool\":true,\"color\":[3,2,1,4],\"gamma\":{\"vec2i\":[3,4],\"vec2f\":[1.25,2.5],\"transform\":[[1.0,0.0,0.0],[0.0,1.0,0.0],[0.0,0.0,1.0],[1.25,2.5,5.0]]}},\"beta\":{\"float\":1.25,\"vec2i\":[1,2],\"vec3f\":[1.25,2.5,5.0]}}";
    assert_eq!(out, expected);
}

#[test]
fn pointer_misses() {
    let root = make_strict_test();
    assert!(root.pointer("alpha/nothing").is_err());
    assert!(root.pointer("vec4f/deeper").is_err());
    let ok = root.pointer("alpha").unwrap();
    assert_eq!(ok.get_name(), "alpha");
}

#[test]
fn slim_needs_name_map() {
    let file = fat_sample();
    assert_eq!(
        parse_blk(&file, true, None),
        Err(ParseError::MissingNameMap)
    );
}

#[test]
fn empty_block_table_rejected() {
    // fat file: zero names, zero blocks
    let file = vec![0u8, 0, 0, 0, 0];
    assert_eq!(
        parse_blk(&file, false, None),
        Err(ParseError::EmptyBlockTable)
    );
}

#[test]
fn bad_name_id_rejected() {
    // one name, one block, one param whose name id is out of range
    let mut file = vec![1u8, 2];
    file.extend_from_slice(b"a\0");
    file.push(1); // blocks
    file.push(1); // params
    file.push(0); // blob size
    let mut info = Vec::new();
    param_rec(&mut info, 7, 0x02, off(1));
    file.extend_from_slice(&info);
    file.extend_from_slice(&[0, 1, 0]);
    assert_eq!(parse_blk(&file, false, None), Err(ParseError::BadNameId));
}

#[test]
fn bad_value_rejected() {
    // an out-of-line payload pointing past the blob
    let mut file = vec![1u8, 2];
    file.extend_from_slice(b"a\0");
    file.push(1);
    file.push(1);
    file.push(0); // empty blob
    let mut info = Vec::new();
    param_rec(&mut info, 0, 0x04, off(0)); // float2 needs 8 blob bytes
    file.extend_from_slice(&info);
    file.extend_from_slice(&[0, 1, 0]);
    assert_eq!(parse_blk(&file, false, None), Err(ParseError::BadBlkValue));
}

#[test]
fn leftover_params_rejected() {
    // two params but the blocks only claim one
    let mut file = vec![1u8, 2];
    file.extend_from_slice(b"a\0");
    file.push(1); // one block
    file.push(2); // two params
    file.push(0);
    let mut info = Vec::new();
    param_rec(&mut info, 0, 0x02, off(1));
    param_rec(&mut info, 0, 0x02, off(2));
    file.extend_from_slice(&info);
    file.extend_from_slice(&[0, 1, 0]); // root claims one param only
    assert_eq!(
        parse_blk(&file, false, None),
        Err(ParseError::MalformedBlockTable)
    );
}

#[test]
fn truncated_header_rejected() {
    assert!(matches!(
        parse_blk(&[], false, None),
        Err(ParseError::BadUleb(_))
    ));
}

#[test]
fn oversized_name_section_rejected() {
    // claims 100 bytes of names but carries none
    let file = vec![1u8, 100];
    assert!(matches!(
        parse_blk(&file, false, None),
        Err(ParseError::OutOfBounds { .. })
    ));
}

#[test]
fn should_override() {
    let mut before = BlkField::new_root();
    before
        .insert_field(BlkField::Value(blk_str("value"), BlkType::Int(0)))
        .unwrap();
    before
        .insert_field(BlkField::Value(blk_str("override:value"), BlkType::Int(42)))
        .unwrap();
    before.apply_overrides();

    let mut expected = BlkField::new_root();
    expected
        .insert_field(BlkField::Value(blk_str("value"), BlkType::Int(42)))
        .unwrap();

    assert_eq!(before, expected);
}

#[test]
fn preserve_order() {
    let mut after = BlkField::new_root();
    after
        .insert_field(BlkField::Value(blk_str("value"), BlkType::Int(0)))
        .unwrap();
    after
        .insert_field(BlkField::Value(blk_str("value3"), BlkType::Int(42)))
        .unwrap();
    after
        .insert_field(BlkField::Value(blk_str("value71q234"), BlkType::Int(213123)))
        .unwrap();
    let before = after.clone();
    after.apply_overrides();

    assert_eq!(after, before);
}

#[test]
fn estimate_size_counts_names_and_values() {
    let mut root = BlkField::new_root();
    root.insert_field(BlkField::Value(blk_str("ab"), BlkType::Int(1)))
        .unwrap();
    // "root" (4) + "ab" (2) + 4 bytes for the int
    assert_eq!(root.estimate_size(), 10);
}
