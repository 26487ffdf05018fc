use ruzstd::encoding::{compress_to_vec, CompressionLevel};
use wt_blk::blk::json::FormattingConfiguration;
use wt_blk::vromf::binary_container::decode_bin_vromf;
use wt_blk::vromf::de_obfuscation::deobfuscate;
use wt_blk::vromf::error::VromfError;
use wt_blk::vromf::inner_container::decode_inner_vromf;
use wt_blk::vromf::unpacker::{BlkOutputFormat, VromfUnpacker};

fn u32le(v: u32) -> [u8; 4] {
    v.to_le_bytes()
}

/// Assembles an inner directory payload from named files.
fn build_inner(files: &[(&str, Vec<u8>)]) -> Vec<u8> {
    let count = files.len() as u32;
    let names_offset = 16u32;
    let name_table_end = names_offset + 4 * count;
    // name strings follow the name table
    let mut name_offsets = Vec::new();
    let mut name_bytes = Vec::new();
    for (name, _) in files {
        name_offsets.push(name_table_end + name_bytes.len() as u32);
        name_bytes.extend_from_slice(name.as_bytes());
        name_bytes.push(0);
    }
    let data_offset = name_table_end + name_bytes.len() as u32;
    let data_end = data_offset + 16 * count;
    let mut data_entries = Vec::new();
    let mut datas = Vec::new();
    for (_, bytes) in files {
        let off = data_end + datas.len() as u32;
        data_entries.extend_from_slice(&u32le(off));
        data_entries.extend_from_slice(&u32le(bytes.len() as u32));
        data_entries.extend_from_slice(&[0u8; 8]);
        datas.extend_from_slice(bytes);
    }
    let mut out = Vec::new();
    out.extend_from_slice(&u32le(names_offset));
    out.extend_from_slice(&u32le(count));
    out.extend_from_slice(&u32le(data_offset));
    out.extend_from_slice(&u32le(0));
    for off in name_offsets {
        out.extend_from_slice(&u32le(off));
    }
    out.extend_from_slice(&name_bytes);
    out.extend_from_slice(&data_entries);
    out.extend_from_slice(&datas);
    out
}

/// A simple-header, plain-packed archive around the inner payload.
fn build_simple(inner: &[u8]) -> Vec<u8> {
    let mut out = Vec::new();
    out.extend_from_slice(b"VRFs");
    out.extend_from_slice(b"\0\0PC");
    out.extend_from_slice(&u32le(inner.len() as u32));
    out.extend_from_slice(&u32le(0)); // plain, no extended size
    out.extend_from_slice(inner);
    out
}

/// An extended-header archive carrying a version quad.
fn build_extended(inner: &[u8], version: (u8, u8, u8, u8)) -> Vec<u8> {
    let mut out = Vec::new();
    out.extend_from_slice(b"VRFx");
    out.extend_from_slice(b"\0\0PC");
    out.extend_from_slice(&u32le(inner.len() as u32));
    out.extend_from_slice(&u32le(0)); // plain packing, size zero: rest of file
    out.extend_from_slice(&[0, 0]); // header size
    out.extend_from_slice(&[0, 0]); // flags
    // the version quad is stored byte-reversed
    out.extend_from_slice(&[version.3, version.2, version.1, version.0]);
    out.extend_from_slice(inner);
    out
}

/// An obfuscated, Zstandard-packed simple archive.
fn build_packed(inner: &[u8]) -> Vec<u8> {
    let compressed = compress_to_vec(inner, CompressionLevel::Uncompressed);
    let mut payload = compressed.clone();
    // the pass is an involution, so applying it here obfuscates
    deobfuscate(&mut payload);
    let mut out = Vec::new();
    out.extend_from_slice(b"VRFs");
    out.extend_from_slice(b"\0\0PC");
    out.extend_from_slice(&u32le(inner.len() as u32));
    out.extend_from_slice(&u32le(((payload.len() as u32) << 6) | 0x30));
    out.extend_from_slice(&payload);
    out
}

/// A tiny fat BLK member, with its leading tag byte.
fn small_blk_member() -> Vec<u8> {
    let mut m = vec![0x01u8];
    m.extend_from_slice(&[1, 4]);
    m.extend_from_slice(b"int\0");
    m.extend_from_slice(&[1, 1, 0]); // one block, one param, empty blob
    m.extend_from_slice(&[0, 0, 0, 0x02, 7, 0, 0, 0]); // int = 7
    m.extend_from_slice(&[0, 1, 0]);
    m
}

fn json() -> Option<BlkOutputFormat> {
    Some(BlkOutputFormat::Json(FormattingConfiguration {
        apply_overrides: true,
        merge_duplicate_keys: true,
        pretty: false,
    }))
}

#[test]
fn decode_simple() {
    let inner = build_inner(&[("a.txt", b"hello".to_vec()), ("b/c.txt", b"world".to_vec())]);
    let f = build_simple(&inner);
    let (decoded, meta) = decode_bin_vromf(&f).unwrap();
    assert_eq!(decoded, inner);
    assert!(meta.version.is_none());
    let files = decode_inner_vromf(&decoded).unwrap();
    assert_eq!(files.len(), 2);
    assert_eq!(files[0], ("a.txt".to_string(), b"hello".to_vec()));
    assert_eq!(files[1], ("b/c.txt".to_string(), b"world".to_vec()));
}

#[test]
fn decode_compressed() {
    let inner = build_inner(&[("data.bin", vec![9u8; 100])]);
    let f = build_packed(&inner);
    let (decoded, meta) = decode_bin_vromf(&f).unwrap();
    assert_eq!(decoded, inner);
    assert_eq!(meta.version, None);
}

#[test]
fn regular_vromf() {
    let inner = build_inner(&[
        ("one.txt", b"1".to_vec()),
        ("two.txt", b"22".to_vec()),
        ("three.blk", small_blk_member()),
    ]);
    let out = VromfUnpacker::from_file(("a.vromfs.bin".to_string(), build_simple(&inner))).unwrap();
    let unpacked = out.unpack_all(None, true).unwrap();
    assert_eq!(3, unpacked.len());
    // with no format asked for, every member comes back raw
    assert_eq!(unpacked[2].1, small_blk_member());
}

#[test]
fn grp_vromf() {
    let inner = build_inner(&[
        ("cfg.blk", small_blk_member()),
        ("readme.txt", b"notes".to_vec()),
    ]);
    let out = VromfUnpacker::from_file(("g.vromfs.bin".to_string(), build_simple(&inner))).unwrap();
    let unpacked = out.unpack_all(json(), true).unwrap();
    assert_eq!(2, unpacked.len());
    assert_eq!(String::from_utf8(unpacked[0].1.clone()).unwrap(), "{\"int\":7}");
    assert_eq!(unpacked[1].1, b"notes".to_vec());
}

#[test]
fn regional() {
    let inner = build_inner(&[("dl/decals.blk", small_blk_member())]);
    let out = VromfUnpacker::from_file(("r.vromfs.bin".to_string(), build_simple(&inner))).unwrap();
    let one = out
        .unpack_one(&"dl/decals.blk".to_string(), Some(BlkOutputFormat::BlkText))
        .unwrap();
    assert_eq!(String::from_utf8(one).unwrap(), "int:i=7");
}

#[test]
fn unpack_one_missing() {
    let inner = build_inner(&[("x.txt", b"x".to_vec())]);
    let out = VromfUnpacker::from_file(("m.vromfs.bin".to_string(), build_simple(&inner))).unwrap();
    match out.unpack_one(&"y.txt".to_string(), None) {
        Err(VromfError::FileNotInVromf { path_name }) => assert_eq!(path_name, "y.txt"),
        other => panic!("unexpected: {:?}", other),
    }
}

#[test]
fn version() {
    let inner = build_inner(&[("x.txt", b"x".to_vec())]);
    let f = build_extended(&inner, (2, 25, 1, 39));
    let out = VromfUnpacker::from_file(("aces.vromfs.bin".to_string(), f)).unwrap();
    assert_eq!(out.version(), Some((2, 25, 1, 39)));
    assert_eq!(out.query_versions(), vec![(2, 25, 1, 39)]);
}

#[test]
fn nested_versions() {
    let nested_inner = build_inner(&[("y.txt", b"y".to_vec())]);
    let nested = build_extended(&nested_inner, (1, 2, 3, 4));
    let inner = build_inner(&[("inner.vromfs.bin", nested)]);
    let f = build_extended(&inner, (2, 25, 1, 39));
    let out = VromfUnpacker::from_file(("aces.vromfs.bin".to_string(), f)).unwrap();
    assert_eq!(out.query_versions(), vec![(2, 25, 1, 39), (1, 2, 3, 4)]);
}

#[test]
fn no_nm_vromf() {
    // a fat-only archive needs no name map to render as JSON
    let inner = build_inner(&[("a.blk", small_blk_member()), ("b.blk", small_blk_member())]);
    let out = VromfUnpacker::from_file(("n.vromfs.bin".to_string(), build_simple(&inner))).unwrap();
    let unpacked = out.unpack_all(json(), true).unwrap();
    assert_eq!(2, unpacked.len());
}

#[test]
fn slim_without_nm_is_error_in_strict_mode() {
    // a slim member, no `nm` in the archive
    let slim = vec![0x02u8, 0, 1, 0, 0, 0, 1, 0];
    let inner = build_inner(&[("s.blk", slim.clone())]);
    let out = VromfUnpacker::from_file(("s.vromfs.bin".to_string(), build_simple(&inner))).unwrap();
    match out.unpack_all(json(), true) {
        Err(VromfError::MissingNm { file_name }) => assert_eq!(file_name, "s.blk"),
        other => panic!("unexpected: {:?}", other),
    }
    // lenient mode surfaces the raw bytes instead
    let lenient = out.unpack_all(json(), false).unwrap();
    assert_eq!(lenient[0].1, slim);
}

#[test]
fn dict_member_missing() {
    let member = vec![0x04u8, 1, 2, 3];
    let inner = build_inner(&[("d.blk", member)]);
    let out = VromfUnpacker::from_file(("d.vromfs.bin".to_string(), build_simple(&inner))).unwrap();
    match out.unpack_all(json(), true) {
        Err(VromfError::MissingDict { file_name }) => assert_eq!(file_name, "d.blk"),
        other => panic!("unexpected: {:?}", other),
    }
}

#[test]
fn archive_with_nm_decodes_slim_members() {
    // names "key" and "val"; the slim member references them
    let body = {
        let blob = b"key\0val\0";
        let mut b = vec![2u8, blob.len() as u8];
        b.extend_from_slice(blob);
        b
    };
    let mut nm_member = vec![0u8; 40];
    nm_member.extend_from_slice(&compress_to_vec(body.as_slice(), CompressionLevel::Uncompressed));
    let mut slim = vec![0x02u8, 2, 1, 1, 0];
    slim.extend_from_slice(&[0, 0, 0, 0x01, 4, 0, 0, 0]); // Str at nm offset 4
    slim.extend_from_slice(&[0, 1, 0]);
    let inner = build_inner(&[("nm", nm_member), ("s.blk", slim)]);
    let out = VromfUnpacker::from_file(("s.vromfs.bin".to_string(), build_simple(&inner))).unwrap();
    let unpacked = out.unpack_all(json(), true).unwrap();
    assert_eq!(unpacked.len(), 2);
    assert_eq!(
        String::from_utf8(unpacked[1].1.clone()).unwrap(),
        "{\"key\":\"val\"}"
    );
}

#[test]
fn outer_errors() {
    assert!(matches!(
        decode_bin_vromf(b"XXXX\0\0PC\0\0\0\0\0\0\0\0"),
        Err(VromfError::InvalidHeaderType { .. })
    ));
    assert!(matches!(
        decode_bin_vromf(b"VRFsXXXX\0\0\0\0\0\0\0\0"),
        Err(VromfError::InvalidPlatformType { .. })
    ));
    let mut f = Vec::new();
    f.extend_from_slice(b"VRFs");
    f.extend_from_slice(b"\0\0PC");
    f.extend_from_slice(&u32le(0));
    f.extend_from_slice(&u32le(0x05)); // no such packing tag
    assert!(matches!(
        decode_bin_vromf(&f),
        Err(VromfError::InvalidPackingConfiguration { found: 0x05 })
    ));
    assert!(matches!(
        decode_bin_vromf(&[1, 2]),
        Err(VromfError::IndexingFileOutOfBounds { .. })
    ));
}

#[test]
fn inner_errors() {
    assert!(matches!(
        decode_inner_vromf(&[0u8; 4]),
        Err(VromfError::IndexingFileOutOfBounds { .. })
    ));
    // one file whose name bytes are invalid UTF-8
    let mut inner = build_inner(&[("ok", b"d".to_vec())]);
    // corrupt the name byte: table layout places the name right after the
    // 4-byte name table at offset 16
    inner[20] = 0xff;
    assert_eq!(decode_inner_vromf(&inner), Err(VromfError::Utf8));
}
