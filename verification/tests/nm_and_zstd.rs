use ruzstd::encoding::{compress_to_vec, CompressionLevel};
use wt_blk::blk::nm_file::{decode_nm_file, parse_name_section, parse_slim_nm, NameMap};
use wt_blk::blk::parser::parse_blk;
use wt_blk::blk::structure::BlkField;
use wt_blk::blk::types::BlkType;
use wt_blk::blk::unpack::unpack_blk;
use wt_blk::blk::util::blk_str;
use wt_blk::blk::error::ParseError;

/// The decompressed body of a name-map member: two ULEB fields, then the
/// NUL-separated names.
fn nm_body(names: &[&str]) -> Vec<u8> {
    let mut blob = Vec::new();
    for n in names {
        blob.extend_from_slice(n.as_bytes());
        blob.push(0);
    }
    let mut body = vec![names.len() as u8, blob.len() as u8];
    body.extend_from_slice(&blob);
    body
}

/// A whole `nm` archive member: two digests, then a Zstandard frame.
fn nm_member(names: &[&str]) -> Vec<u8> {
    let body = nm_body(names);
    let mut member = vec![0u8; 40];
    member.extend_from_slice(&compress_to_vec(body.as_slice(), CompressionLevel::Uncompressed));
    member
}

#[test]
fn name_section_splits_on_nul() {
    let names = parse_name_section(b"alpha\0beta\0").unwrap();
    assert_eq!(names, vec!["alpha".to_string(), "beta".to_string()]);
}

#[test]
fn name_section_drops_unterminated_tail() {
    let names = parse_name_section(b"alpha\0tail").unwrap();
    assert_eq!(names, vec!["alpha".to_string()]);
}

#[test]
fn name_section_rejects_bad_utf8() {
    assert_eq!(parse_name_section(&[0xff, 0x00]), Err(ParseError::BadUtf8));
}

#[test]
fn slim_nm_parses() {
    let body = nm_body(&["one", "two"]);
    let names = parse_slim_nm(&body).unwrap();
    assert_eq!(names, vec!["one".to_string(), "two".to_string()]);
}

#[test]
fn nm_member_round_trip() {
    let member = nm_member(&["first", "second"]);
    let decoded = decode_nm_file(&member).unwrap();
    assert_eq!(decoded, nm_body(&["first", "second"]));
    let map = NameMap::from_encoded_file(&member).unwrap();
    assert_eq!(map.parsed, vec!["first".to_string(), "second".to_string()]);
    assert_eq!(map.binary, b"first\0second\0".to_vec());
}

#[test]
fn nm_member_too_short() {
    assert!(decode_nm_file(&[0u8; 10]).is_none());
}

/// A slim payload (no tag byte): one string value named by the shared
/// map, referencing the map's binary region.
fn slim_payload() -> Vec<u8> {
    // names: ["key", "val"]; value: Str at offset 4 of the nm binary
    // region ("key\0val\0": offset 4 is "val")
    let mut p = vec![2u8]; // names count (from the shared map)
    p.push(1); // blocks
    p.push(1); // params
    p.push(0); // params data size
    // param record: name id 0 ("key"), tag 1 (Str), offset 4
    p.extend_from_slice(&[0, 0, 0, 0x01, 4, 0, 0, 0]);
    // block table: root, one param, no children
    p.extend_from_slice(&[0, 1, 0]);
    p
}

fn expected_slim_tree() -> BlkField {
    let mut root = BlkField::new_root();
    root.insert_field(BlkField::Value(blk_str("key"), BlkType::Str(blk_str("val"))))
        .unwrap();
    root
}

#[test]
fn slim_blk_uses_shared_names() {
    let map = NameMap::from_encoded_file(&nm_member(&["key", "val"])).unwrap();
    let tree = parse_blk(&slim_payload(), true, Some(&map)).unwrap();
    assert_eq!(tree, expected_slim_tree());
}

#[test]
fn slim_zstd_matches_uncompressed() {
    let map = NameMap::from_encoded_file(&nm_member(&["key", "val"])).unwrap();
    let plain = parse_blk(&slim_payload(), true, Some(&map)).unwrap();

    let mut tagged = vec![0x03u8];
    tagged.extend_from_slice(&compress_to_vec(
        slim_payload().as_slice(),
        CompressionLevel::Uncompressed,
    ));
    let via_zstd = unpack_blk(&tagged, None, Some(&map)).unwrap();
    assert_eq!(plain, via_zstd);
}

#[test]
fn unpack_blk_strips_fat_tag() {
    // an uncompressed fat file keeps its tag byte in front
    let mut tagged = vec![0x01u8];
    // minimal fat: one name, no params, one root block
    tagged.extend_from_slice(&[1, 2]);
    tagged.extend_from_slice(b"a\0");
    tagged.extend_from_slice(&[1, 0, 0]);
    tagged.extend_from_slice(&[0, 0, 0]);
    let tree = unpack_blk(&tagged, None, None).unwrap();
    assert_eq!(tree, BlkField::new_root());
}

#[test]
fn unpack_blk_dict_without_dictionary() {
    let tagged = vec![0x04u8, 1, 2, 3];
    assert_eq!(
        unpack_blk(&tagged, None, None),
        Err(ParseError::MissingDictionary)
    );
}

#[test]
fn unpack_blk_bad_tag() {
    assert_eq!(
        unpack_blk(&[0x09, 0, 0], None, None),
        Err(ParseError::UnknownFileType { found: 0x09 })
    );
    assert_eq!(
        unpack_blk(&[], None, None),
        Err(ParseError::UnknownFileType { found: 0 })
    );
}

#[test]
fn unpack_blk_bad_frame() {
    let tagged = vec![0x03u8, 1, 2, 3, 4];
    assert_eq!(unpack_blk(&tagged, None, None), Err(ParseError::ZstdError));
}
