//! Layered loading, the configuration typestate, trusted loading and
//! canonical output.

use star_toml::admission::{canonical_toml, trusted_config, TrustedConfig, TrustedLoader};
use star_toml::env::EnvSnapshot;
use star_toml::error::Error;
use star_toml::loader::{find_config_file, Config, ConfigFile, ConfigLifecycle, Loader, Raw, SourceRead, Validated};
use star_toml::validation::{Validate, Validator};
use star_toml::value::TomlValue;

/// Parse TOML text with no environment to expand from.
fn parse_toml(s: &str) -> Result<TomlValue, star_toml::error::Error> {
    star_toml::loader::parse_expanded(s, "<test>", &star_toml::env::EnvSnapshot::new(vec![]))
}


fn no_env() -> EnvSnapshot {
    EnvSnapshot::new(vec![])
}

fn one_var(k: &str, v: &str) -> EnvSnapshot {
    EnvSnapshot::new(vec![(k.to_string(), v.to_string())])
}

fn found(path: &str, content: &str) -> SourceRead {
    SourceRead::Found { path: path.to_string(), content: content.to_string() }
}

#[derive(Debug, PartialEq)]
struct Simple {
    name: String,
    port: Option<i64>,
}

impl Simple {
    fn from_value(v: &TomlValue) -> Simple {
        Simple {
            name: v.get("name").and_then(|x| x.as_str()).unwrap().to_string(),
            port: v.get("port").and_then(|x| x.as_integer()),
        }
    }
}

#[derive(Debug, Clone, PartialEq)]
struct ValidatedSimple {
    name: String,
    port: i64,
}

impl ValidatedSimple {
    fn from_value(v: &TomlValue) -> ValidatedSimple {
        ValidatedSimple {
            name: v.get("name").and_then(|x| x.as_str()).unwrap().to_string(),
            port: v.get("port").and_then(|x| x.as_integer()).unwrap(),
        }
    }
}

impl Validate for ValidatedSimple {
    fn validate(&self, v: &mut Validator) {
        v.check_non_empty("name", &self.name);
        v.check_range("port", self.port, 1024, 65535);
    }
}

impl ConfigLifecycle for ValidatedSimple {}

#[test]
fn from_str_parses() {
    let cfg = Simple::from_value(&parse_toml("name = \"hello\"\nport = 8080\n").unwrap());
    assert_eq!(cfg.name, "hello");
    assert_eq!(cfg.port, Some(8080));
}

#[test]
fn load_file_not_found() {
    let res = Loader::new().layer_file("/nonexistent/x.toml").merge_layers(&vec![SourceRead::Missing], "/", &no_env());
    assert!(matches!(res, Err(Error::FileNotFound(p)) if p == "/nonexistent/x.toml"));
}

#[test]
fn loader_layer_str_and_file() {
    let (v, _) = Loader::new()
        .layer_str("name = \"default\"\nport = 8080\n", "defaults")
        .layer_file("/d/a.toml")
        .merge_layers(&vec![SourceRead::Missing, found("/d/a.toml", "name = \"from-file\"\nport = 9090\n")], "/", &no_env())
        .unwrap();
    let cfg = Simple::from_value(&v);
    assert_eq!(cfg.name, "from-file");
    assert_eq!(cfg.port, Some(9090));
}

#[test]
fn loader_file_if_exists_skips_missing() {
    let (v, _) = Loader::new()
        .layer_str("name = \"default\"", "defaults")
        .layer_file_if_exists("/nonexistent/optional.toml")
        .merge_layers(&vec![SourceRead::Missing, SourceRead::Missing], "/", &no_env())
        .unwrap();
    assert_eq!(Simple::from_value(&v).name, "default");
}

#[test]
fn loader_env_prefix_override() {
    let (v, _) = Loader::new()
        .layer_str("name = \"original\"", "defaults")
        .env_prefix("STTOML_")
        .merge_layers(&vec![SourceRead::Missing], "/", &one_var("STTOML_NAME", "env-name"))
        .unwrap();
    assert_eq!(Simple::from_value(&v).name, "env-name");
}

#[test]
fn loader_env_prefix_nested_double_underscore() {
    let (v, _) = Loader::new()
        .layer_str("[server]\nport = 8080\n", "defaults")
        .env_prefix("STTOML2_")
        .merge_layers(&vec![SourceRead::Missing], "/", &one_var("STTOML2_SERVER__PORT", "9999"))
        .unwrap();
    assert_eq!(v.get("server").unwrap().get("port").unwrap().as_integer(), Some(9999));
}

#[test]
fn config_file_resolves_relative_paths() {
    let (v, path) = Loader::new()
        .layer_file("/d/app.toml")
        .merge_layers(&vec![found("/d/app.toml", "name = \"app\"\n")], "/", &no_env())
        .unwrap();
    let cf = ConfigFile { config: Simple::from_value(&v), path };
    assert_eq!(cf.resolve("templates/foo.tera"), "/d/templates/foo.tera");
}

#[test]
fn find_config_file_walks_up() {
    let found = find_config_file("myconfig.toml", "/t/a/b/c", false, |p: &String| p == "/t/myconfig.toml");
    assert_eq!(found, Some("/t/myconfig.toml".to_string()));
}

#[test]
fn find_config_file_none_when_absent() {
    assert!(find_config_file("missing.toml", "/t", false, |_: &String| false).is_none());
}

#[test]
fn find_config_file_starts_beside_a_file() {
    let found = find_config_file("x.toml", "/t/sub/main.rs", true, |p: &String| p.ends_with("x.toml"));
    assert_eq!(found, Some("/t/sub/x.toml".to_string()));
}

#[test]
fn loader_three_layer_precedence() {
    let (v, last) = Loader::new()
        .layer_str("name = \"base\"\nport = 1000\n", "base")
        .layer_file("/d/mid.toml")
        .layer_file("/d/top.toml")
        .merge_layers(
            &vec![SourceRead::Missing, found("/d/mid.toml", "name = \"mid\"\nport = 2000\n"), found("/d/top.toml", "port = 3000\n")],
            "/",
            &no_env(),
        )
        .unwrap();
    let cfg = Simple::from_value(&v);
    assert_eq!(cfg.name, "mid");
    assert_eq!(cfg.port, Some(3000));
    assert_eq!(last, "/d/top.toml");
}

#[test]
fn test_config_typestate_lifecycle_transitions() {
    let config_raw = Loader::new()
        .layer_str("name = \"default\"\nport = 9000\n", "defaults")
        .layer_file("/d/app.toml")
        .load_raw(&vec![SourceRead::Missing, found("/d/app.toml", "name = \"lifecycle\"\nport = 8080\n")], "/", &no_env())
        .unwrap();
    assert_eq!(config_raw.path, "/d/app.toml");

    let config_merged = config_raw.merge(Some("ST_"), &one_var("ST_PORT", "9999")).unwrap();
    assert_eq!(config_merged.value().get("port").unwrap().as_integer(), Some(9999));
    assert_eq!(config_merged.path, "/d/app.toml");

    let value = ValidatedSimple::from_value(config_merged.value());
    let config_deser = config_merged.deserialized(value);
    assert_eq!(config_deser.state.0.name, "lifecycle");
    assert_eq!(config_deser.state.0.port, 9999);
    assert_eq!(config_deser.path, "/d/app.toml");

    let config_val = config_deser.validate("loader::ValidatedSimple").unwrap();
    assert_eq!(config_val.state.0.port, 9999);
    assert_eq!(config_val.path, "/d/app.toml");

    let config_frozen = config_val.freeze();
    assert_eq!(config_frozen.state.0.port, 9999);
    assert_eq!(config_frozen.path, "/d/app.toml");
}

#[test]
fn test_config_typestate_lifecycle_failure() {
    let config_raw = Loader::new()
        .layer_file("/d/app.toml")
        .load_raw(&vec![found("/d/app.toml", "name = \"\"\nport = 80\n")], "/", &no_env())
        .unwrap();
    let config_merged = config_raw.merge(None, &no_env()).unwrap();
    let value = ValidatedSimple::from_value(config_merged.value());
    match config_merged.deserialized(value).validate("loader::ValidatedSimple") {
        Err(Error::Invalid(errs)) => {
            assert_eq!(errs.len(), 2);
            assert_eq!(errs.fitness(), (0, 2));
            assert_eq!(errs.title(), Some("ValidatedSimple"));
        },
        _ => panic!("Expected Error::Invalid"),
    }
}

fn trusted_load(loader: TrustedLoader, reads: Vec<SourceRead>, env: &EnvSnapshot) -> Result<TrustedConfig<ValidatedSimple>, Error> {
    let (merged, last) = loader.merged(&reads, "/", env)?;
    let value = ValidatedSimple::from_value(&merged);
    trusted_config(value, &merged, &last, "loader::ValidatedSimple")
}

#[test]
fn test_trusted_loader_success() {
    let loader = TrustedLoader::new()
        .layer_str("name = \"default\"\nport = 9000\n", "defaults")
        .layer_file("/d/app.toml")
        .env_prefix("TR_");
    let reads = vec![SourceRead::Missing, found("/d/app.toml", "name = \"trusted\"\nport = 8080\n")];
    let tc = trusted_load(loader, reads, &one_var("TR_PORT", "1234")).unwrap();
    assert_eq!(tc.value.name, "trusted");
    assert_eq!(tc.value.port, 1234);
    assert_eq!(tc.source.path, "/d/app.toml");
    assert_eq!(tc.validation.fitness(), (2, 2));
    assert_eq!(tc.validation.checks_run, 2);
    assert_eq!(tc.validation.checks_passed, 2);
    assert!(tc.validation.errors.is_empty());
    assert!(tc.digest.0 > 0);
}

#[test]
fn test_trusted_loader_validation_failure() {
    let loader = TrustedLoader::new().layer_file("/d/app.toml");
    let res = trusted_load(loader, vec![found("/d/app.toml", "name = \"\"\nport = 8080\n")], &no_env());
    match res {
        Err(Error::Invalid(errs)) => {
            assert_eq!(errs.len(), 1);
            assert_eq!(errs.fitness(), (1, 2));
            assert_eq!(errs.errors()[0].code(), "empty");
        },
        _ => panic!("Expected Error::Invalid"),
    }
}

#[test]
fn test_trusted_loader_digest_stability() {
    let read = || vec![found("/d/app.toml", "name = \"stable\"\nport = 8080\n")];
    let tc1 = trusted_load(TrustedLoader::new().layer_file("/d/app.toml"), read(), &no_env()).unwrap();
    let tc2 = trusted_load(TrustedLoader::new().layer_file("/d/app.toml"), read(), &no_env()).unwrap();
    assert_eq!(tc1.digest, tc2.digest);
}

#[derive(Debug, PartialEq)]
struct NestedTest {
    z: String,
    a: String,
    m: (i64, i64),
}

impl NestedTest {
    /// The tree this value serializes to, fields in declaration order.
    fn to_value(&self) -> TomlValue {
        TomlValue::Table(vec![
            ("z".to_string(), TomlValue::String(self.z.clone())),
            ("a".to_string(), TomlValue::String(self.a.clone())),
            (
                "m".to_string(),
                TomlValue::Table(vec![
                    ("y".to_string(), TomlValue::Integer(self.m.0)),
                    ("b".to_string(), TomlValue::Integer(self.m.1)),
                ]),
            ),
        ])
    }
}

impl Validate for NestedTest {
    fn validate(&self, _v: &mut Validator) {}
}

#[test]
fn test_save_canonical_sorting() {
    let original = NestedTest { z: "last".into(), a: "first".into(), m: (10, 20) };
    let tree = original.to_value();
    let frozen = Config::<Validated<NestedTest>>::new(original).unwrap().freeze();
    assert_eq!(frozen.get().a, "first");
    let canonical_content = frozen.save_canonical(&tree).unwrap();
    assert_eq!(canonical_toml(&tree).unwrap(), canonical_content);
    let pos_a = canonical_content.find("a =").expect("Key a not found");
    let pos_z = canonical_content.find("z =").expect("Key z not found");
    assert!(pos_a < pos_z, "Key 'a' must come before 'z' in canonical serialization");
    let pos_b = canonical_content.find("b =").expect("Key b not found");
    let pos_y = canonical_content.find("y =").expect("Key y not found");
    assert!(pos_b < pos_y, "Key 'b' must come before 'y' in canonical serialization");
    assert_eq!(canonical_content, "a = \"first\"\nz = \"last\"\n\n[m]\nb = 20\ny = 10\n");
}

#[derive(Debug, PartialEq)]
struct NormTest {
    name: String,
    port: i64,
}

impl Validate for NormTest {
    fn validate(&self, _v: &mut Validator) {}
}

impl ConfigLifecycle for NormTest {
    fn normalize(&mut self) {
        self.name = self.name.trim().to_string();
    }
    fn validate_lifecycle(&self, v: &mut Validator) {
        v.check_range("port", self.port, 1000, 9999);
    }
}

fn norm_pipeline(text: &str) -> Result<Config<Validated<NormTest>>, Error> {
    let merged = Config::<Raw>::new(text).merge(None, &no_env()).unwrap();
    let v = merged.value();
    let value = NormTest {
        name: v.get("name").unwrap().as_str().unwrap().to_string(),
        port: v.get("port").unwrap().as_integer().unwrap(),
    };
    let deserialized = merged.deserialized(value);
    assert_eq!(deserialized.get().name, deserialized.get().name.trim());
    deserialized.validate("loader::NormTest")
}

#[test]
fn test_config_lifecycle_normalization_and_validation() {
    let ok = norm_pipeline("name = '  spaces  '\nport = 2000").unwrap();
    assert_eq!(ok.get().name, "spaces");
    match norm_pipeline("name = 'test'\nport = 80") {
        Err(Error::Invalid(errs)) => {
            assert_eq!(errs.len(), 1);
            assert_eq!(errs.errors()[0].code(), "out_of_range");
            assert_eq!(errs.errors()[0].loc.to_string(), "port");
        },
        _ => panic!("Expected Error::Invalid"),
    }
}

#[test]
fn find_and_load_returns_path_and_config() {
    let path = find_config_file("x.toml", "/d/sub", false, |p: &String| p == "/d/x.toml").unwrap();
    assert_eq!(path, "/d/x.toml");
    let (v, last) = Loader::new()
        .layer_file(&path)
        .merge_layers(&vec![found(&path, "name = \"found\"\n")], "/", &no_env())
        .unwrap();
    assert_eq!(last, "/d/x.toml");
    assert_eq!(Simple::from_value(&v).name, "found");
}

#[test]
fn validated_config_follows_the_check_outcome() {
    let ok = Config::<Validated<ValidatedSimple>>::new(ValidatedSimple { name: "a".into(), port: 2000 }).unwrap();
    assert_eq!(ok.get().port, 2000);
    assert_eq!(ok.path, "");
    match Config::<Validated<ValidatedSimple>>::new(ValidatedSimple { name: "".into(), port: 2000 }) {
        Err(Error::Invalid(rep)) => {
            assert_eq!(rep.len(), 1);
            assert_eq!(rep.title(), None);
        },
        _ => panic!("expected an invalid configuration"),
    }
    let value = ValidatedSimple { name: "x".into(), port: 1 };
    let report = value.check().unwrap_err();
    match Config::<Validated<ValidatedSimple>>::from_check(value, Err(report.clone())) {
        Err(Error::Invalid(rep)) => assert_eq!(rep, report),
        _ => panic!("expected the report back"),
    }
}

fn two_layer_loader() -> Loader {
    Loader::new()
        .layer_str("name = \"base\"\n[server]\nport = 8080\nhost = \"localhost\"\n", "defaults")
        .layer_file("/d/app.toml")
}

#[test]
fn merge_layers_is_load_bounded_then_apply_env() {
    let reads = vec![SourceRead::Missing, found("/d/app.toml", "[server]\nport = 9090\n")];
    let env = EnvSnapshot::new(vec![
        ("APP_SERVER__HOST".to_string(), "example.org".to_string()),
        ("OTHER_NAME".to_string(), "ignored".to_string()),
    ]);
    let (merged, path) = two_layer_loader().env_prefix("APP_").merge_layers(&reads, "/cwd", &env).unwrap();
    let bounded = two_layer_loader().load_bounded(&reads, "/cwd", &env).unwrap();
    let bounded_path = bounded.path.clone();
    let resolved = bounded.apply_env(Some("APP_"), &env).unwrap();
    assert_eq!(&merged, resolved.value());
    assert_eq!(path, bounded_path);
    assert_eq!(path, "/d/app.toml");
    assert_eq!(merged.get("server").unwrap().get("host").unwrap().as_str(), Some("example.org"));
    assert_eq!(merged.get("server").unwrap().get("port").unwrap().as_integer(), Some(9090));
}

#[test]
fn apply_env_value_is_the_plain_overlay() {
    let reads = vec![SourceRead::Missing, found("/d/app.toml", "name = \"file\"\n")];
    let env = EnvSnapshot::new(vec![
        ("APP_NAME".to_string(), "from-env".to_string()),
        ("APP_".to_string(), "empty-path".to_string()),
        ("APP_LIMITS__MAX".to_string(), "12".to_string()),
    ]);
    let bounded = two_layer_loader().load_bounded(&reads, "/cwd", &env).unwrap();
    let resolved = bounded.apply_env(Some("APP_"), &env).unwrap();
    let again = two_layer_loader().load_bounded(&reads, "/cwd", &env).unwrap();
    let raw: Config<Raw> = Config { state: Raw(again.state.value), path: again.path };
    let merged = raw.merge(Some("APP_"), &env).unwrap();
    assert_eq!(resolved.value(), merged.value());
    assert_eq!(merged.value().get("name").unwrap().as_str(), Some("from-env"));
    assert_eq!(merged.value().get("limits").unwrap().get("max").unwrap().as_integer(), Some(12));
    assert_eq!(resolved.env_report().entries.len(), 3);
}
