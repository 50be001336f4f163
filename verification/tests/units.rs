//! Unit tests for the document model, the number texts, and the prompt.

use vrm_slim::Json;
use vrm_slim::numtext::{format_u64, parse_u64, parse_u64_lenient, version_major_minor};
use vrm_slim::prompt::overwrite_allowed;

#[test]
fn parse_accepts_canonical_decimals_only() {
    assert_eq!(parse_u64("0"), Some(0));
    assert_eq!(parse_u64("42"), Some(42));
    assert_eq!(parse_u64("18446744073709551615"), Some(u64::MAX));
    assert_eq!(parse_u64("18446744073709551616"), None);
    assert_eq!(parse_u64("042"), None);
    assert_eq!(parse_u64(""), None);
    assert_eq!(parse_u64("-1"), None);
    assert_eq!(parse_u64("1.5"), None);
    assert_eq!(parse_u64("1e2"), None);
}

#[test]
fn format_gives_canonical_decimals() {
    assert_eq!(format_u64(0), "0");
    assert_eq!(format_u64(7), "7");
    assert_eq!(format_u64(1234), "1234");
    assert_eq!(format_u64(u64::MAX), "18446744073709551615");
    assert_eq!(parse_u64(&format_u64(987654321)), Some(987654321));
}

#[test]
fn lenient_parse_reads_signs_and_zeros() {
    assert_eq!(parse_u64_lenient("035"), Some(35));
    assert_eq!(parse_u64_lenient("+35"), Some(35));
    assert_eq!(parse_u64_lenient(""), None);
    assert_eq!(parse_u64_lenient("+"), None);
    assert_eq!(parse_u64_lenient("3x"), None);
}

#[test]
fn version_pairs_split_on_dots() {
    assert_eq!(version_major_minor("0.35"), Some((0, 35)));
    assert_eq!(version_major_minor("1.0"), Some((1, 0)));
    assert_eq!(version_major_minor("0.35.1"), Some((0, 35)));
    assert_eq!(version_major_minor("0"), None);
    assert_eq!(version_major_minor("0."), None);
    assert_eq!(version_major_minor("a.b"), None);
    assert_eq!(version_major_minor("0.035"), Some((0, 35)));
}

#[test]
fn object_lookup_distinguishes_keys() {
    let obj = Json::Obj(vec![
        ("a".to_string(), Json::Num("1".to_string())),
        ("b".to_string(), Json::Num("2".to_string())),
    ]);
    assert_eq!(obj.get("a"), Some(&Json::Num("1".to_string())));
    assert_eq!(obj.get("b"), Some(&Json::Num("2".to_string())));
    assert_eq!(obj.get("c"), None);
}

#[test]
fn put_replaces_in_place_and_del_removes() {
    let obj = Json::Obj(vec![
        ("a".to_string(), Json::Null),
        ("b".to_string(), Json::Null),
    ]);
    let obj = obj.put("a", Json::Bool(true));
    match &obj {
        Json::Obj(m) => {
            assert_eq!(m[0].0, "a");
            assert_eq!(m[0].1, Json::Bool(true));
            assert_eq!(m.len(), 2);
        }
        _ => panic!(),
    }
    let obj = obj.put("c", Json::Bool(false));
    match &obj {
        Json::Obj(m) => assert_eq!(m.len(), 3),
        _ => panic!(),
    }
    let obj = obj.del("b");
    match &obj {
        Json::Obj(m) => {
            assert_eq!(m.len(), 2);
            assert_eq!(m[0].0, "a");
            assert_eq!(m[1].0, "c");
        }
        _ => panic!(),
    }
}

/// A declined overwrite prompt: `n` answers mean no, trimmed `y`/`yes` of any
/// case mean yes.
#[test]
fn overwrite_prompt_decision() {
    assert!(!overwrite_allowed("n"));
    assert!(!overwrite_allowed("no"));
    assert!(!overwrite_allowed(""));
    assert!(!overwrite_allowed("yess"));
    assert!(overwrite_allowed("y"));
    assert!(overwrite_allowed("Y"));
    assert!(overwrite_allowed("yes"));
    assert!(overwrite_allowed("YES"));
    assert!(overwrite_allowed("  yes \n"));
    assert!(overwrite_allowed("\ty\r\n"));
    assert!(overwrite_allowed("y\u{00A0}\n"));
    assert!(overwrite_allowed("\u{3000}YES\u{2028}"));
}
