use wt_blk::blk::error::ParseError;
use wt_blk::blk::json::FormattingConfiguration;
use wt_blk::blk::structure::BlkField;
use wt_blk::blk::types::BlkType;
use wt_blk::blk::util::{blk_str, make_strict_test};

fn compact() -> FormattingConfiguration {
    FormattingConfiguration { apply_overrides: true, merge_duplicate_keys: true, pretty: false }
}

fn f(v: f32) -> u32 {
    v.to_bits()
}

#[test]
fn test_expected() {
    let root = make_strict_test();
    let text = root.as_blk_text().unwrap();
    let expected = "vec4f:p4=1.25, 2.5, 5.0, 10.0\nint:i=42\nlong:i64=64\nalpha {\n\tstr:t=\"hello\"\n\tbool:b=true\n\tcolor:c=3, 2, 1, 4\n\tgamma {\n\t\tvec2i:ip2=3, 4\n\t\tvec2f:p2=1.25, 2.5\n\t\ttransform:m=[[1.0, 0.0, 0.0] [0.0, 1.0, 0.0] [0.0, 0.0, 1.0] [1.25, 2.5, 5.0]]\n\t}\n}\nbeta {\n\tfloat:r=1.25\n\tvec2i:ip2=1, 2\n\tvec3f:p3=1.25, 2.5, 5.0\n}";
    assert_eq!(text, expected);
}

#[test]
fn blk_text_rejects_merged() {
    let merged = BlkField::Merged(blk_str("m"), vec![]);
    assert_eq!(merged.as_blk_text(), Err(ParseError::MergedInPlaintext));
}

#[test]
fn dedup_arr() {
    let blk = BlkField::Struct(
        blk_str("root"),
        vec![
            BlkField::Value(blk_str("mass"), BlkType::Float2(vec![f(69.0), f(42.0)])),
            BlkField::Value(blk_str("mass"), BlkType::Float2(vec![f(420.0), f(360.0)])),
        ],
    );
    let out = blk.as_ref_json(compact()).unwrap();
    assert_eq!(out, "{\"mass\":[[69.0,42.0],[420.0,360.0]]}");
}

#[test]
fn dedup_many() {
    let blk = BlkField::Struct(
        blk_str("root"),
        vec![
            BlkField::Value(blk_str("mass"), BlkType::Float(f(1.0))),
            BlkField::Value(blk_str("mass"), BlkType::Float(f(2.0))),
            BlkField::Value(blk_str("mass"), BlkType::Float(f(3.0))),
            BlkField::Value(blk_str("mass"), BlkType::Float(f(4.0))),
            BlkField::Value(blk_str("mass"), BlkType::Float(f(5.0))),
            BlkField::Value(blk_str("mass"), BlkType::Float(f(6.0))),
        ],
    );
    let out = blk.as_ref_json(compact()).unwrap();
    assert_eq!(out, "{\"mass\":[1.0,2.0,3.0,4.0,5.0,6.0]}");
}

#[test]
fn dedup_float() {
    let blk = BlkField::Struct(
        blk_str("root"),
        vec![
            BlkField::Value(blk_str("mass"), BlkType::Float(f(42.0))),
            BlkField::Value(blk_str("mass"), BlkType::Float(f(69.0))),
        ],
    );
    let out = blk.as_ref_json(compact()).unwrap();
    assert_eq!(out, "{\"mass\":[42.0,69.0]}");
}

#[test]
fn not_everything_array() {
    let blk = BlkField::Struct(
        blk_str("root"),
        vec![
            BlkField::Value(blk_str("cheese"), BlkType::Float(f(42.0))),
            BlkField::Value(blk_str("salad"), BlkType::Float(f(69.0))),
        ],
    );
    let out = blk.as_ref_json(compact()).unwrap();
    assert_eq!(out, "{\"cheese\":42.0,\"salad\":69.0}");
}

#[test]
fn int_without_dot() {
    let blk = BlkField::Struct(
        blk_str("root"),
        vec![BlkField::Value(blk_str("salad"), BlkType::Int(69))],
    );
    let out = blk.as_ref_json(compact()).unwrap();
    assert_eq!(out, "{\"salad\":69}");
    assert_ne!(out, "{\"salad\":69.0}");
}

#[test]
fn int_array_without_dot() {
    let blk = BlkField::Struct(
        blk_str("root"),
        vec![BlkField::Value(blk_str("salad"), BlkType::Int2(vec![69, 420]))],
    );
    let out = blk.as_ref_json(compact()).unwrap();
    assert_eq!(out, "{\"salad\":[69,420]}");
    assert_ne!(out, "{\"salad\":[69.0,420.0]}");
}

#[test]
fn json_pretty_object() {
    let blk = BlkField::Struct(
        blk_str("root"),
        vec![
            BlkField::Value(blk_str("a"), BlkType::Int(1)),
            BlkField::Value(blk_str("b"), BlkType::Bool(false)),
        ],
    );
    let cfg = FormattingConfiguration { apply_overrides: true, merge_duplicate_keys: true, pretty: true };
    let out = blk.as_ref_json(cfg).unwrap();
    assert_eq!(out, "{\n  \"a\": 1,\n  \"b\": false\n}");
}

#[test]
fn json_escapes_strings() {
    let blk = BlkField::Struct(
        blk_str("root"),
        vec![BlkField::Value(
            blk_str("q\"x\\y\n"),
            BlkType::Str(blk_str("a\tb\u{1}")),
        )],
    );
    let out = blk.as_ref_json(compact()).unwrap();
    assert_eq!(out, "{\"q\\\"x\\\\y\\n\":\"a\\tb\\u0001\"}");
}

#[test]
fn json_full_fixture() {
    let root = make_strict_test();
    let out = root.as_ref_json(compact()).unwrap();
    let expected = "{\"vec4f\":[1.25,2.5,5.0,10.0],\"int\":42,\"long\":64,\"alpha\":{\"str\":\"hello\",\"bool\":true,\"color\":[3,2,1,4],\"gamma\":{\"vec2i\":[3,4],\"vec2f\":[1.25,2.5],\"transform\":[[1.0,0.0,0.0],[0.0,1.0,0.0],[0.0,0.0,1.0],[1.25,2.5,5.0]]}},\"beta\":{\"float\":1.25,\"vec2i\":[1,2],\"vec3f\":[1.25,2.5,5.0]}}";
    assert_eq!(out, expected);
}

#[test]
fn override_fixture_then_json() {
    let mut root = BlkField::new_root();
    root.insert_field(BlkField::Value(blk_str("value"), BlkType::Int(0)))
        .unwrap();
    root.insert_field(BlkField::Value(blk_str("override:value"), BlkType::Int(42)))
        .unwrap();
    let out = root.as_ref_json(compact()).unwrap();
    assert_eq!(out, "{\"value\":42}");
}

#[test]
fn shortest_float_decimals() {
    let blk = BlkField::Struct(
        blk_str("root"),
        vec![
            BlkField::Value(blk_str("half"), BlkType::Float(f(0.5))),
            BlkField::Value(blk_str("neg"), BlkType::Float(f(-1.5))),
            BlkField::Value(blk_str("tenth"), BlkType::Float(f(0.1))),
            BlkField::Value(blk_str("pi"), BlkType::Float(f(3.14))),
            BlkField::Value(blk_str("zero"), BlkType::Float(f(0.0))),
            BlkField::Value(blk_str("big"), BlkType::Float(f(1048576.0))),
            BlkField::Value(blk_str("huge"), BlkType::Float(f(1e30))),
            BlkField::Value(blk_str("tiny"), BlkType::Float(f(1e-30))),
        ],
    );
    let out = blk.as_ref_json(compact()).unwrap();
    assert_eq!(
        out,
        "{\"half\":0.5,\"neg\":-1.5,\"tenth\":0.1,\"pi\":3.14,\"zero\":0.0,\"big\":1048576.0,\"huge\":1e30,\"tiny\":1e-30}"
    );
}

/// The library's float rendering of one value, through the text emitter.
fn rendered(v: f32) -> String {
    let blk = BlkField::Value(blk_str("x"), BlkType::Float(v.to_bits()));
    let text = blk.as_blk_text().unwrap();
    text.strip_prefix("x:r=").unwrap().to_string()
}

#[test]
fn float_rendering_matches_std_debug() {
    let battery: Vec<f32> = vec![
        0.0,
        -0.0,
        1.0,
        -1.0,
        0.1,
        0.2,
        0.3,
        3.14,
        2.718281828,
        1.0 / 3.0,
        0.5,
        1.25,
        10.0,
        100.0,
        1e4,
        123456.78,
        9999999.0,
        16777216.0,
        16777218.0,
        1e15,
        1e16,
        1e30,
        3.4028235e38,
        f32::MAX,
        f32::MIN,
        f32::MIN_POSITIVE,
        1e-4,
        9.9e-5,
        1e-30,
        1.4e-45,
        f32::from_bits(1),
        f32::from_bits(0x7f7fffff),
        f32::from_bits(0x00800000),
        f32::from_bits(0x3f9d70a4),
        f32::from_bits(0x42f6e979),
        f32::INFINITY,
        f32::NEG_INFINITY,
        f32::NAN,
    ];
    for v in battery {
        assert_eq!(rendered(v), format!("{:?}", v), "bits {:08x}", v.to_bits());
    }
    // every binade, at its edges and middle, both signs
    for ex in 0u32..=254 {
        for mant in [0u32, 1, 0x400000, 0x7ffffe, 0x7fffff] {
            for sign in [0u32, 1] {
                let bits = (sign << 31) | (ex << 23) | mant;
                let v = f32::from_bits(bits);
                if v.is_finite() {
                    assert_eq!(rendered(v), format!("{:?}", v), "bits {:08x}", bits);
                }
            }
        }
    }
    // a pseudo-random sweep over finite bit patterns
    let mut x: u32 = 0x243f6a88;
    for _ in 0..20000 {
        x = x.wrapping_mul(1664525).wrapping_add(1013904223);
        let v = f32::from_bits(x);
        if v.is_finite() {
            assert_eq!(rendered(v), format!("{:?}", v), "bits {:08x}", x);
        }
    }
}

#[test]
fn json_keeps_multibyte_names() {
    // non-ASCII names and strings pass through the escaper untouched
    let blk = BlkField::Struct(
        blk_str("root"),
        vec![BlkField::Value(blk_str("gr\u{fc}n"), BlkType::Str(blk_str("caf\u{e9}\u{1f980}")))],
    );
    let out = blk.as_ref_json(compact()).unwrap();
    assert_eq!(out, "{\"gr\u{fc}n\":\"caf\u{e9}\u{1f980}\"}");
}

#[test]
fn merge_can_be_disabled() {
    let blk = BlkField::Struct(
        blk_str("root"),
        vec![
            BlkField::Value(blk_str("k"), BlkType::Int(1)),
            BlkField::Value(blk_str("k"), BlkType::Int(2)),
        ],
    );
    let cfg = FormattingConfiguration { apply_overrides: false, merge_duplicate_keys: false, pretty: false };
    let out = blk.as_ref_json(cfg).unwrap();
    assert_eq!(out, "{\"k\":1,\"k\":2}");
}
