//! Bounded, reported, conserved and explained loading: provenance reports,
//! traced merges, witnesses, path bounds and strict admission.

use star_toml::admission::{trusted_config, AdmittedConfig, TrustedLoader};
use star_toml::env::EnvSnapshot;
use star_toml::error::Error;
use star_toml::loader::{ConfigLifecycle, FrozenLoadResult, Loader, SourceRead};
use star_toml::merge::{deep_merge_traced, WinnerMap};
use star_toml::path::{resolve_and_validate, PathPolicy};
use star_toml::reports::SourceKind;
use star_toml::validation::{Validate, Validator};
use star_toml::value::TomlValue;

/// Parse TOML text with no environment to expand from.
fn parse_toml(s: &str) -> Result<TomlValue, star_toml::error::Error> {
    star_toml::loader::parse_expanded(s, "<test>", &star_toml::env::EnvSnapshot::new(vec![]))
}


fn parse(s: &str) -> TomlValue {
    parse_toml(s).unwrap()
}

fn at<'a>(v: &'a TomlValue, path: &[&str]) -> &'a TomlValue {
    let mut cur = v;
    for k in path {
        cur = cur.get(k).unwrap();
    }
    cur
}

/// Every dot-separated leaf path of a tree.
fn leaf_paths(val: &TomlValue, prefix: &str) -> Vec<String> {
    match val {
        TomlValue::Table(t) => t
            .iter()
            .flat_map(|(k, v)| {
                let p = if prefix.is_empty() { k.clone() } else { format!("{prefix}.{k}") };
                leaf_paths(v, &p)
            })
            .collect(),
        _ => vec![prefix.to_owned()],
    }
}

#[derive(Debug, Clone, PartialEq)]
struct Cfg {
    name: String,
    port: i64,
}

impl Cfg {
    fn from_value(v: &TomlValue) -> Result<Cfg, Error> {
        let missing = || Error::validation("brce::Cfg", "missing field");
        Ok(Cfg {
            name: v.get("name").and_then(|x| x.as_str()).ok_or_else(missing)?.to_string(),
            port: v.get("port").and_then(|x| x.as_integer()).ok_or_else(missing)?,
        })
    }

    /// The tree this value serializes to.
    fn to_value(&self) -> TomlValue {
        TomlValue::Table(vec![
            ("name".to_string(), TomlValue::String(self.name.clone())),
            ("port".to_string(), TomlValue::Integer(self.port)),
        ])
    }
}

impl Validate for Cfg {
    fn validate(&self, v: &mut Validator) {
        v.check_non_empty("name", &self.name);
        v.check_range("port", self.port, 1024, 65535);
    }
}

impl ConfigLifecycle for Cfg {}

fn no_env() -> EnvSnapshot {
    EnvSnapshot::new(vec![])
}

fn one_var(k: &str, v: &str) -> EnvSnapshot {
    EnvSnapshot::new(vec![(k.to_string(), v.to_string())])
}

fn found(path: &str, content: &str) -> SourceRead {
    SourceRead::Found { path: path.to_string(), content: content.to_string() }
}

fn load_frozen(loader: TrustedLoader, reads: Vec<SourceRead>, env: &EnvSnapshot) -> Result<FrozenLoadResult<Cfg>, Error> {
    let resolved = loader.resolve(&reads, "/work", env)?;
    let cfg = Cfg::from_value(&resolved.state.value)?;
    resolved.finish_frozen(cfg, "brce::Cfg")
}

fn load_admitted(loader: TrustedLoader, reads: Vec<SourceRead>) -> Result<AdmittedConfig<Cfg>, Error> {
    let resolved = loader.resolve(&reads, "/work", &no_env())?;
    let cfg = Cfg::from_value(&resolved.state.value)?;
    let typed = Ok(cfg.to_value());
    resolved.begin_admission(cfg).finish(typed, "brce::Cfg")
}

fn cfg_file(content: &str) -> (TrustedLoader, Vec<SourceRead>) {
    (TrustedLoader::new().layer_file("/work/cfg.toml"), vec![found("/work/cfg.toml", content)])
}

#[test]
fn test_load_frozen_requires_validation() {
    let (l, r) = cfg_file("name = \"\"\nport = 80\n");
    let res = load_frozen(l, r, &no_env());
    assert!(matches!(res, Err(Error::Invalid(_))));
}

#[test]
fn test_load_frozen_succeeds_with_valid_config() {
    let (l, r) = cfg_file("name = \"app\"\nport = 8080\n");
    let result = load_frozen(l, r, &no_env()).unwrap();
    assert_eq!(result.config.get().name, "app");
    assert_eq!(result.config.get().port, 8080);
}

#[test]
fn test_source_report_records_required_file() {
    let (l, r) = cfg_file("name = \"app\"\nport = 8080\n");
    let result = load_frozen(l, r, &no_env()).unwrap();
    let entries = &result.source_report.entries;
    assert_eq!(entries.len(), 1);
    let e = &entries[0];
    assert_eq!(e.source_kind, SourceKind::File);
    assert!(e.found);
    assert!(e.required);
    assert_eq!(e.path.as_deref(), Some("/work/cfg.toml"));
    assert!(e.digest.is_some(), "digest must be recorded for a found file");
    assert_eq!(e.size_bytes, Some(25));
    assert_eq!(e.source_root.as_deref(), Some("/work"));
}

#[test]
fn test_missing_required_file_fails() {
    let loader = TrustedLoader::new().layer_file("/nonexistent/does-not-exist.toml");
    let res = load_frozen(loader, vec![SourceRead::Missing], &no_env());
    assert!(matches!(res, Err(Error::FileNotFound(_))));
}

#[test]
fn test_optional_missing_file_is_reported() {
    let bounded = Loader::new()
        .layer_file("/work/base.toml")
        .layer_file_if_exists("/nonexistent/optional.toml")
        .load_bounded(&vec![found("/work/base.toml", "name = \"app\"\nport = 8080\n"), SourceRead::Missing], "/work", &no_env())
        .unwrap();
    let missing = bounded.state.source_report.missing_optional_entries();
    assert_eq!(missing.len(), 1);
    assert_eq!(missing[0].source_kind, SourceKind::OptionalFile);
    assert!(!missing[0].found);
    assert!(!missing[0].required);
}

#[test]
fn test_source_report_str_layer() {
    let bounded = Loader::new()
        .layer_str("name = \"x\"\nport = 1025\n", "defaults")
        .load_bounded(&vec![SourceRead::Missing], "/work", &no_env())
        .unwrap();
    let entries = &bounded.state.source_report.entries;
    assert_eq!(entries.len(), 1);
    assert_eq!(entries[0].source_kind, SourceKind::Str);
    assert!(entries[0].found);
    assert!(entries[0].digest.is_some());
    assert_eq!(entries[0].label, "defaults");
}

#[test]
fn test_env_override_report_records_prefix_mapping() {
    let (l, r) = cfg_file("name = \"original\"\nport = 8080\n");
    let result = load_frozen(l.env_prefix("BRCE_TEST1_"), r, &one_var("BRCE_TEST1_PORT", "9090")).unwrap();
    assert_eq!(result.config.get().port, 9090);
    let accepted = result.env_report.accepted();
    assert!(!accepted.is_empty(), "BRCE_TEST1_PORT must appear as an accepted override");
    let entry = accepted.iter().find(|e| e.mapped_path == "port").unwrap();
    assert!(entry.accepted);
    assert_eq!(entry.configured_prefix, "BRCE_TEST1_");
    assert!(!entry.raw_value_digest.is_empty());
    assert!(entry.coerced_type.is_some());
}

#[test]
fn test_unprefixed_admitted_env_override_fails() {
    let (l, r) = cfg_file("name = \"original\"\nport = 8080\n");
    let result = load_frozen(l.env_prefix("BRCE_TEST2_"), r, &one_var("TOTALLY_DIFFERENT_PORT", "1111")).unwrap();
    assert_eq!(result.config.get().port, 8080);
    let found = result.env_report.entries.iter().any(|e| e.raw_env_key == "TOTALLY_DIFFERENT_PORT");
    assert!(!found, "unprefixed var must not appear in the override report");
}

#[test]
fn test_table_merge_recursive() {
    let mut base = parse("[db]\nhost = \"localhost\"\nport = 5432\n");
    let mut wm = WinnerMap::new();
    deep_merge_traced(&mut base, parse("[db]\nport = 5433\n"), "layer-1", "", &mut wm);
    assert_eq!(at(&base, &["db", "host"]).as_str(), Some("localhost"));
    assert_eq!(at(&base, &["db", "port"]).as_integer(), Some(5433));
    assert_eq!(wm.get("db.port").map(String::as_str), Some("layer-1"));
    assert!(!wm.contains_key("db.host"), "host was not touched by overlay");
}

#[test]
fn test_array_replacement_not_merge() {
    let mut base = parse("tags = [\"a\", \"b\", \"c\"]\n");
    let mut wm = WinnerMap::new();
    deep_merge_traced(&mut base, parse("tags = [\"x\"]\n"), "layer-1", "", &mut wm);
    let arr = at(&base, &["tags"]).as_array().unwrap();
    assert_eq!(arr.len(), 1, "array must be replaced, not appended");
    assert_eq!(arr[0].as_str(), Some("x"));
    assert_eq!(wm.get("tags").map(String::as_str), Some("layer-1"));
}

#[test]
fn test_scalar_replacement() {
    let mut base = parse("count = 1\n");
    let mut wm = WinnerMap::new();
    deep_merge_traced(&mut base, parse("count = 99\n"), "env", "", &mut wm);
    assert_eq!(at(&base, &["count"]).as_integer(), Some(99));
    assert_eq!(wm.get("count").map(String::as_str), Some("env"));
}

#[test]
fn test_layer_order_defaults_files_env() {
    let mut merged = parse("port = 1\nname = \"defaults\"\n");
    let mut wm = WinnerMap::new();
    deep_merge_traced(&mut merged, parse("port = 2\n"), "layer-file", "", &mut wm);
    deep_merge_traced(&mut merged, parse("port = 3\n"), "env", "", &mut wm);
    assert_eq!(at(&merged, &["port"]).as_integer(), Some(3));
    assert_eq!(wm.get("port").map(String::as_str), Some("env"));
    assert_eq!(at(&merged, &["name"]).as_str(), Some("defaults"));
}

#[test]
fn test_winning_layer_tracing() {
    let mut base = parse("a = 1\n[s]\nb = 2\n");
    let mut wm = WinnerMap::new();
    deep_merge_traced(&mut base, parse("a = 1\n[s]\nb = 2\n"), "layer-0", "", &mut wm);
    deep_merge_traced(&mut base, parse("[s]\nc = 3\n"), "layer-1", "", &mut wm);
    assert_eq!(wm.get("a").map(String::as_str), Some("layer-0"));
    assert_eq!(wm.get("s.b").map(String::as_str), Some("layer-0"));
    assert_eq!(wm.get("s.c").map(String::as_str), Some("layer-1"));
}

fn two_files() -> (Loader, Vec<SourceRead>) {
    (
        Loader::new().layer_file("/work/base.toml").layer_file("/work/override.toml"),
        vec![found("/work/base.toml", "name = \"app\"\nport = 8080\n"), found("/work/override.toml", "port = 9090\n")],
    )
}

#[test]
fn test_every_final_field_has_winning_layer() {
    let (l, r) = two_files();
    let bounded = l.load_bounded(&r, "/work", &no_env()).unwrap();
    let leaves = leaf_paths(&bounded.state.value, "");
    assert_eq!(leaves.len(), 2);
    for path in &leaves {
        assert!(
            bounded.state.global_winner_map.contains_key(path),
            "conservation failure: field '{path}' has no winning layer"
        );
    }
    assert_eq!(bounded.state.global_winner_map.get("port").map(String::as_str), Some("layer-1"));
    assert_eq!(bounded.state.global_winner_map.get("name").map(String::as_str), Some("layer-0"));
}

#[test]
fn test_layer_report_records_all_layers() {
    let (_, mut r) = two_files();
    r.insert(0, SourceRead::Missing);
    let l = Loader::new()
        .layer_str("name = \"default\"\nport = 1000\n", "defaults")
        .layer_file("/work/base.toml")
        .layer_file("/work/override.toml");
    let bounded = l.load_bounded(&r, "/work", &no_env()).unwrap();
    assert_eq!(bounded.state.layer_report.entries.len(), 3);
    assert_eq!(bounded.state.layer_report.entries[0].layer_name, "defaults");
}

#[test]
fn test_layer_order_digest_is_deterministic() {
    let b1 = Loader::new().layer_file("/work/cfg.toml").load_bounded(&vec![found("/work/cfg.toml", "name = \"app\"\nport = 8080\n")], "/work", &no_env()).unwrap();
    let b2 = Loader::new().layer_file("/work/cfg.toml").load_bounded(&vec![found("/work/cfg.toml", "name = \"app\"\nport = 8080\n")], "/work", &no_env()).unwrap();
    let d1 = &b1.state.layer_report.entries[0].layer_order_digest;
    let d2 = &b2.state.layer_report.entries[0].layer_order_digest;
    assert_eq!(d1, d2, "layer_order_digest must be deterministic");
}

#[test]
fn test_load_frozen_env_override_applied() {
    let (l, r) = cfg_file("name = \"app\"\nport = 8080\n");
    let result = load_frozen(l.env_prefix("BRCE_LF_"), r, &one_var("BRCE_LF_PORT", "7777")).unwrap();
    assert_eq!(result.config.get().port, 7777);
    assert_eq!(result.config.get().name, "app");
    assert_eq!(result.global_winner_map.get("port").map(String::as_str), Some("env"));
}

#[test]
fn test_witness_is_deterministic() {
    let (l1, r1) = cfg_file("name = \"app\"\nport = 8080\n");
    let (l2, r2) = cfg_file("name = \"app\"\nport = 8080\n");
    let a = load_admitted(l1, r1).unwrap();
    let b = load_admitted(l2, r2).unwrap();
    assert_eq!(a.witness().hash(), b.witness().hash(), "witness must be deterministic");
}

#[test]
fn test_witness_changes_on_source_change() {
    let (l1, r1) = cfg_file("name = \"app\"\nport = 8080\n");
    let (l2, r2) = cfg_file("name = \"app\"\nport = 9090\n");
    let a = load_admitted(l1, r1).unwrap();
    let b = load_admitted(l2, r2).unwrap();
    assert_ne!(a.witness().hash(), b.witness().hash(), "witness must change when source changes");
}

#[test]
fn test_path_traversal_fails() {
    let result = resolve_and_validate("../secret.toml", "/tmp/project/config.toml", &PathPolicy::BlockForbidden);
    assert_eq!(result.unwrap_err(), "path_traversal_detected");
}

#[test]
fn test_null_byte_fails() {
    let result = resolve_and_validate("foo\0bar", "/tmp/config.toml", &PathPolicy::BlockForbidden);
    assert_eq!(result.unwrap_err(), "null_byte_detected");
}

#[test]
fn test_forbidden_path_fails() {
    let result = resolve_and_validate("/etc/passwd", "/tmp/config.toml", &PathPolicy::BlockForbidden);
    assert_eq!(result.unwrap_err(), "forbidden_path");
}

#[test]
fn test_relative_resolved_against_source_parent() {
    let policy = PathPolicy::Sandbox { root: "/home/user/project".to_string() };
    let (resolved, witness) = resolve_and_validate("data/input.csv", "/home/user/project/config.toml", &policy).unwrap();
    assert_eq!(resolved, "/home/user/project/data/input.csv");
    assert!(witness.accepted);
    assert_eq!(witness.sandbox_root.as_deref(), Some("/home/user/project"));
}

#[test]
fn test_path_witness_emitted() {
    // check_path_safe records a witness whether the path passes or not.
    let source = "/home/user/project/cfg.toml";

    let mut v = Validator::new();
    v.check_path_safe("output", "output/result.txt", source, PathPolicy::BlockForbidden);
    assert_eq!(v.path_witnesses.len(), 1);
    assert!(v.path_witnesses[0].accepted);

    // Also test rejection
    let mut v2 = Validator::new();
    v2.check_path_safe("bad", "/etc/hosts", source, PathPolicy::BlockForbidden);
    assert_eq!(v2.path_witnesses.len(), 1);
    assert!(!v2.path_witnesses[0].accepted);
}

#[test]
fn check_path_safe_counts_and_reports() {
    let source = "/srv/app/config.toml";
    let mut v = Validator::new();
    v.check_path_safe("out", "logs/app.log", source, PathPolicy::RelativeOnly);
    assert_eq!(v.checks_run(), 1);
    assert!(v.errors().is_empty());
    assert_eq!(v.path_witnesses[0].resolved_path.as_deref(), Some("/srv/app/logs/app.log"));
    assert_eq!(v.path_witnesses[0].policy, "RelativeOnly");

    v.check_path_safe("bad", "../secret", source, PathPolicy::RelativeOnly);
    assert_eq!(v.checks_run(), 2);
    assert_eq!(v.errors().len(), 1);
    assert_eq!(v.path_witnesses.len(), 2);
    let w = &v.path_witnesses[1];
    assert!(!w.accepted);
    assert_eq!(w.resolved_path, None);
    assert_eq!(w.rejection_code.as_deref(), Some("path_traversal_detected"));
    assert_eq!(v.errors()[0].msg, "Unsafe path '../secret': path_traversal_detected");

    v.check_path_safe("box", "/elsewhere/x", source, PathPolicy::Sandbox { root: "/srv/app".to_string() });
    assert_eq!(v.path_witnesses[2].sandbox_root.as_deref(), Some("/srv/app"));
    assert_eq!(v.path_witnesses[2].rejection_code.as_deref(), Some("sandbox_escape:/elsewhere/x"));
}

#[test]
fn test_load_admitted_succeeds() {
    let (l, r) = cfg_file("name = \"admitted\"\nport = 8080\n");
    let admitted = load_admitted(l, r).unwrap();
    assert_eq!(admitted.value().name, "admitted");
    assert_eq!(admitted.value().port, 8080);
    assert_eq!(admitted.witness().hash().len(), 64);
    assert_eq!(admitted.source_report().entries.len(), 1);
}

#[test]
fn test_load_admitted_strict_rejects_unknown_fields() {
    let (l, r) = cfg_file("name = \"app\"\nport = 8080\nextra_field = \"oops\"\n");
    match load_admitted(l, r) {
        Err(Error::Invalid(errs)) => {
            assert!(errs.errors().iter().any(|e| e.code() == "unknown_field"));
            assert_eq!(errs.errors()[0].loc.to_string(), "extra_field");
        },
        _ => panic!("Expected Error::Invalid with unknown_field"),
    }
}

#[test]
fn test_brce_metamorphic_canonical_stability() {
    let (l1, r1) = cfg_file("name = \"stable\"\nport = 4321\n");
    let (l2, r2) = cfg_file("name = \"stable\"\nport = 4321\n");
    assert_eq!(load_admitted(l1, r1).unwrap().witness().hash(), load_admitted(l2, r2).unwrap().witness().hash());
}

#[test]
fn test_brce_idempotence_canonical() {
    let (l1, r1) = cfg_file("name = \"idempotent\"\nport = 5555\n");
    let (l2, r2) = cfg_file("name = \"idempotent\"\nport = 5555\n");
    let a = load_admitted(l1, r1).unwrap();
    let b = load_admitted(l2, r2).unwrap();
    assert_eq!(a.witness().hash(), b.witness().hash(), "admission is idempotent");
}

#[test]
fn test_brce_env_coercion_deterministic() {
    let env = one_var("BRCE_DET_PORT", "9000");
    let (l1, r1) = cfg_file("name = \"app\"\nport = 8080\n");
    let (l2, r2) = cfg_file("name = \"app\"\nport = 8080\n");
    let a = load_frozen(l1.env_prefix("BRCE_DET_"), r1, &env).unwrap();
    let b = load_frozen(l2.env_prefix("BRCE_DET_"), r2, &env).unwrap();
    let t1 = a.env_report.accepted()[0].coerced_type;
    let t2 = b.env_report.accepted()[0].coerced_type;
    assert_eq!(t1, t2, "coercion type must be deterministic");
}

#[test]
fn test_brce_fitness_score() {
    let loader = TrustedLoader::new().layer_file("/work/cfg.toml");
    let (merged, last) = loader.merged(&vec![found("/work/cfg.toml", "name = \"ok\"\nport = 8080\n")], "/work", &no_env()).unwrap();
    let cfg = Cfg::from_value(&merged).unwrap();
    let result = trusted_config(cfg, &merged, &last, "brce::Cfg").unwrap();
    let (p, r) = result.validation.fitness();
    assert_eq!(p as f64 / r as f64, 1.0);
    assert_eq!(result.source.path, "/work/cfg.toml");
}

#[test]
fn test_brce_repair_hint_nonempty() {
    let (l, r) = cfg_file("name = \"\"\nport = 80\n");
    match load_frozen(l, r, &no_env()) {
        Err(Error::Invalid(errs)) => {
            assert_eq!(errs.len(), 2);
            for e in errs.errors() {
                assert!(!e.repair_hint().is_empty(), "repair_hint must not be empty for {}", e.code());
            }
        },
        _ => panic!("Expected Error::Invalid"),
    }
}

#[test]
fn table_over_scalar_records_every_new_leaf() {
    let mut base = parse("a = 1\n");
    let mut wm = WinnerMap::new();
    deep_merge_traced(&mut base, parse("[a]\nx = 2\ny = 3\n"), "layer-1", "", &mut wm);
    assert_eq!(at(&base, &["a", "x"]).as_integer(), Some(2));
    assert_eq!(wm.get("a.x").map(String::as_str), Some("layer-1"));
    assert_eq!(wm.get("a.y").map(String::as_str), Some("layer-1"));
    assert!(!wm.contains_key("a"));
}

#[test]
fn bounded_load_gives_every_final_field_a_winner() {
    let bounded = Loader::new()
        .layer_file("/work/base.toml")
        .layer_file("/work/override.toml")
        .load_bounded(
            &vec![found("/work/base.toml", "a = 1\nb = 2\n"), found("/work/override.toml", "[a]\nx = 3\n")],
            "/work",
            &no_env(),
        )
        .unwrap();
    let leaves = leaf_paths(&bounded.state.value, "");
    assert_eq!(leaves.len(), 2);
    for p in &leaves {
        assert!(bounded.state.global_winner_map.contains_key(p), "no winner for {p}");
    }
    assert_eq!(bounded.state.global_winner_map.get("a.x").map(String::as_str), Some("layer-1"));
    assert!(!bounded.state.source_report.has_missing_required());
    let layers = &bounded.state.layer_report.entries;
    assert_eq!(layers.len(), 2);
    let found_entries = bounded.state.source_report.found_entries();
    for (k, l) in layers.iter().enumerate() {
        assert_eq!(l.layer_id, k);
        assert_eq!(l.source_id, found_entries[k].source_id);
        assert_eq!(Some(&l.digest), found_entries[k].digest.as_ref());
    }
}

#[test]
fn witness_is_lowercase_hex() {
    let (l, r) = cfg_file("name = \"hex\"\nport = 8080\n");
    let a = load_admitted(l, r).unwrap();
    let h = a.witness().hash();
    assert_eq!(h.len(), 64);
    assert!(h.chars().all(|c| c.is_ascii_digit() || ('a'..='f').contains(&c)));
}
