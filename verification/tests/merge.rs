//! Recursive merging of TOML trees, with and without provenance.

use star_toml::merge::{deep_merge, deep_merge_traced, env_str_to_value, set_dotted, WinnerMap};
use star_toml::value::TomlValue;

/// Parse TOML text with no environment to expand from.
fn parse_toml(s: &str) -> Result<TomlValue, star_toml::error::Error> {
    star_toml::loader::parse_expanded(s, "<test>", &star_toml::env::EnvSnapshot::new(vec![]))
}


fn parse(s: &str) -> TomlValue {
    parse_toml(s).unwrap()
}

fn at<'a>(v: &'a TomlValue, path: &[&str]) -> &'a TomlValue {
    let mut cur = v;
    for k in path {
        cur = cur.get(k).unwrap();
    }
    cur
}

#[test]
fn merges_tables_recursively() {
    let mut base = parse("[a]\nx = 1\ny = 2\n");
    let overlay = parse("[a]\ny = 99\nz = 3\n");
    deep_merge(&mut base, overlay);
    assert_eq!(at(&base, &["a", "x"]).as_integer(), Some(1));
    assert_eq!(at(&base, &["a", "y"]).as_integer(), Some(99));
    assert_eq!(at(&base, &["a", "z"]).as_integer(), Some(3));
}

#[test]
fn overlay_replaces_scalar() {
    let mut base = parse("x = 1\n");
    deep_merge(&mut base, parse("x = 42\n"));
    assert_eq!(at(&base, &["x"]).as_integer(), Some(42));
}

#[test]
fn overlay_replaces_array_entirely() {
    let mut base = parse("arr = [1, 2, 3]\n");
    deep_merge(&mut base, parse("arr = [4, 5]\n"));
    let arr = at(&base, &["arr"]).as_array().unwrap();
    assert_eq!(arr.len(), 2);
    assert_eq!(arr[0].as_integer(), Some(4));
}

#[test]
fn base_key_absent_in_overlay_preserved() {
    let mut base = parse("keep = \"me\"\nchange = 1\n");
    deep_merge(&mut base, parse("change = 2\n"));
    assert_eq!(at(&base, &["keep"]).as_str(), Some("me"));
    assert_eq!(at(&base, &["change"]).as_integer(), Some(2));
}

#[test]
fn set_dotted_creates_nested() {
    let mut root = TomlValue::new_table();
    set_dotted(&mut root, "a.b.c", TomlValue::Integer(7));
    assert_eq!(at(&root, &["a", "b", "c"]).as_integer(), Some(7));
}

#[test]
fn set_dotted_handles_anomalous_dots() {
    let mut root = TomlValue::new_table();
    set_dotted(&mut root, ".a..b.c.", TomlValue::Integer(42));
    assert_eq!(at(&root, &["a", "b", "c"]).as_integer(), Some(42));
}

#[test]
fn env_str_parses_bool() {
    assert_eq!(env_str_to_value("true"), TomlValue::Boolean(true));
    assert_eq!(env_str_to_value("false"), TomlValue::Boolean(false));
    assert_eq!(env_str_to_value("True"), TomlValue::Boolean(true));
}

#[test]
fn env_str_parses_integer() {
    assert_eq!(env_str_to_value("42"), TomlValue::Integer(42));
    assert_eq!(env_str_to_value("-1"), TomlValue::Integer(-1));
}

#[test]
fn env_str_parses_float() {
    assert!(matches!(env_str_to_value("3.14"), TomlValue::Float(_)));
}

#[test]
fn env_str_falls_back_to_string() {
    assert_eq!(env_str_to_value("hello"), TomlValue::String("hello".to_owned()));
}

#[test]
fn traced_merge_records_winning_layers() {
    let mut base = parse("x = 1\n");
    let mut wm = WinnerMap::new();
    deep_merge_traced(&mut base, parse("x = 99\n"), "layer-1", "", &mut wm);
    assert_eq!(wm.get("x").map(String::as_str), Some("layer-1"));
    assert_eq!(at(&base, &["x"]).as_integer(), Some(99));
}

#[test]
fn traced_merge_table_recursive() {
    let mut base = parse("[a]\nx = 1\ny = 2\n");
    let overlay = parse("[a]\ny = 99\nz = 3\n");
    let mut wm = WinnerMap::new();
    deep_merge_traced(&mut base, overlay, "layer-1", "", &mut wm);
    assert_eq!(at(&base, &["a", "x"]).as_integer(), Some(1));
    assert_eq!(at(&base, &["a", "y"]).as_integer(), Some(99));
    assert_eq!(wm.get("a.y").map(String::as_str), Some("layer-1"));
    assert_eq!(at(&base, &["a", "z"]).as_integer(), Some(3));
    assert_eq!(wm.get("a.z").map(String::as_str), Some("layer-1"));
}

#[test]
fn traced_merge_array_replaces_not_merges() {
    let mut base = parse("arr = [1, 2, 3]\n");
    let mut wm = WinnerMap::new();
    deep_merge_traced(&mut base, parse("arr = [4, 5]\n"), "layer-1", "", &mut wm);
    let arr = at(&base, &["arr"]).as_array().unwrap();
    assert_eq!(arr.len(), 2);
    assert_eq!(arr[0].as_integer(), Some(4));
    assert_eq!(wm.get("arr").map(String::as_str), Some("layer-1"));
}

#[test]
fn traced_merge_scalar_replacement() {
    let mut base = parse("n = 1\n");
    let mut wm = WinnerMap::new();
    deep_merge_traced(&mut base, parse("n = 42\n"), "env", "", &mut wm);
    assert_eq!(at(&base, &["n"]).as_integer(), Some(42));
    assert_eq!(wm.get("n").map(String::as_str), Some("env"));
}

#[test]
fn traced_merge_layer_order_defaults_files_env() {
    let mut merged = parse("port = 1\nname = \"default\"\n");
    let mut wm = WinnerMap::new();
    deep_merge_traced(&mut merged, parse("port = 2\n"), "layer-file", "", &mut wm);
    deep_merge_traced(&mut merged, parse("port = 3\n"), "env", "", &mut wm);
    assert_eq!(at(&merged, &["port"]).as_integer(), Some(3));
    assert_eq!(wm.get("port").map(String::as_str), Some("env"));
    assert_eq!(at(&merged, &["name"]).as_str(), Some("default"));
}

fn leaves(val: &TomlValue, prefix: &str, out: &mut Vec<String>) {
    match val.as_table() {
        Some(t) => {
            for (k, v) in t {
                let p = if prefix.is_empty() { k.clone() } else { format!("{prefix}.{k}") };
                leaves(v, &p, out);
            }
        }
        None => out.push(prefix.to_owned()),
    }
}

#[test]
fn traced_merge_every_field_has_winning_layer() {
    let mut merged = TomlValue::new_table();
    let mut wm = WinnerMap::new();
    deep_merge_traced(&mut merged, parse("a = 1\n[s]\nb = 2\n"), "layer-0", "", &mut wm);
    deep_merge_traced(&mut merged, parse("[s]\nc = 3\n"), "layer-1", "", &mut wm);
    let mut leaf_paths = Vec::new();
    leaves(&merged, "", &mut leaf_paths);
    assert!(!leaf_paths.is_empty());
    for path in &leaf_paths {
        assert!(wm.contains_key(path), "field '{path}' has no winning layer");
    }
}

#[test]
fn merge_of_a_tree_with_itself_is_unchanged() {
    let original = parse("a = 1\n[s]\nb = [1, 2]\nc = \"x\"\n");
    let mut merged = parse("a = 1\n[s]\nb = [1, 2]\nc = \"x\"\n");
    deep_merge(&mut merged, parse("a = 1\n[s]\nb = [1, 2]\nc = \"x\"\n"));
    assert_eq!(at(&merged, &["a"]), at(&original, &["a"]));
    assert_eq!(at(&merged, &["s", "b"]), at(&original, &["s", "b"]));
    assert_eq!(at(&merged, &["s", "c"]), at(&original, &["s", "c"]));
}
