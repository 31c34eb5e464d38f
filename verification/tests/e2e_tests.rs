//! End-to-end scenarios: typestate pipeline, layered loading, validators,
//! lifecycle hooks, fitness, fingerprints and trusted loading.

use star_toml::admission::{trusted_config, TrustedConfig, TrustedLoader};
use star_toml::env::EnvSnapshot;
use star_toml::error::Error;
use star_toml::loader::{Config, ConfigFile, ConfigLifecycle, Frozen, Loader, Raw, SourceRead, Validated};
use star_toml::schema::Schema;
use star_toml::validation::{ErrorKind, Validate, Validator};
use star_toml::value::TomlValue;

/// Parse TOML text with no environment to expand from.
fn parse_toml(s: &str) -> Result<TomlValue, star_toml::error::Error> {
    star_toml::loader::parse_expanded(s, "<test>", &star_toml::env::EnvSnapshot::new(vec![]))
}


// ------------------------------------------------------------------
// Configuration types of the scenarios, read from a TOML tree by hand
// ------------------------------------------------------------------

#[derive(Clone, Debug, PartialEq)]
struct SimpleConfig {
    name: String,
    port: i64,
}

impl SimpleConfig {
    fn from_value(v: &TomlValue) -> Option<SimpleConfig> {
        Some(SimpleConfig {
            name: v.get("name")?.as_str()?.to_string(),
            port: v.get("port")?.as_integer()?,
        })
    }
}

impl ConfigLifecycle for SimpleConfig {}

impl Validate for SimpleConfig {
    fn validate(&self, v: &mut Validator) {
        v.check_non_empty("name", &self.name);
        v.check_range("port", self.port, 1, 65535);
    }
}

#[derive(Clone, Debug)]
struct SimpleConfigWithHost {
    name: String,
    port: i64,
    host: String,
}

impl SimpleConfigWithHost {
    fn from_value(v: &TomlValue) -> Option<SimpleConfigWithHost> {
        Some(SimpleConfigWithHost {
            name: v.get("name")?.as_str()?.to_string(),
            port: v.get("port")?.as_integer()?,
            host: v.get("host")?.as_str()?.to_string(),
        })
    }
}

#[derive(Clone, Debug)]
struct TlsSection {
    port: i64,
    cert_path: String,
}

#[derive(Clone, Debug)]
struct ServerConfig {
    tls: TlsSection,
}

impl ServerConfig {
    fn from_value(v: &TomlValue) -> Option<ServerConfig> {
        let tls = v.get("server")?.get("tls")?;
        Some(ServerConfig {
            tls: TlsSection {
                port: tls.get("port")?.as_integer()?,
                cert_path: tls.get("cert_path")?.as_str()?.to_string(),
            },
        })
    }
}

impl Validate for ServerConfig {
    fn validate(&self, v: &mut Validator) {
        v.field("server", |v| {
            v.field("tls", |v| {
                v.check_range("port", self.tls.port, 1, 65535);
                v.check_non_empty("cert_path", &self.tls.cert_path);
            })
        });
    }
}

/// The IP address literals among the cases below, as `IpAddr` parsing finds them.
fn is_ip(s: &str) -> bool {
    matches!(s, "127.0.0.1" | "10.0.0.1" | "::1")
}

#[derive(Clone, Debug)]
struct ComplexConfig {
    name: String,
    port: i64,
    hosts: Vec<String>,
    options: Option<String>,
}

impl Validate for ComplexConfig {
    fn validate(&self, v: &mut Validator) {
        v.check_non_empty("name", &self.name);
        v.check_range("port", self.port, 1, 65535);
        for (i, host) in self.hosts.iter().enumerate() {
            v.index(i, |v| v.check_ip_or_domain("host", host, is_ip(host)));
        }
        if let Some(opt) = &self.options {
            v.check_non_empty("options", opt);
        } else {
            v.field("options", |v| v.error_with(ErrorKind::Empty, "None", "Options must be present"));
        }
    }
}

#[derive(Clone, Debug)]
struct LifecycleConfig {
    name: String,
    port: i64,
}

impl Validate for LifecycleConfig {
    fn validate(&self, v: &mut Validator) {
        v.check_range("port", self.port, 1, 65535);
        v.check_non_empty("name", &self.name);
    }
}

impl ConfigLifecycle for LifecycleConfig {
    fn normalize(&mut self) {
        self.name = self.name.trim().to_string();
    }
    fn validate_lifecycle(&self, v: &mut Validator) {
        v.check_range("port", self.port, 1000, 9999);
    }
}

fn no_env() -> EnvSnapshot {
    EnvSnapshot::new(vec![])
}

fn env(pairs: &[(&str, &str)]) -> EnvSnapshot {
    EnvSnapshot::new(pairs.iter().map(|(k, v)| (k.to_string(), v.to_string())).collect())
}

fn found(path: &str, content: &str) -> SourceRead {
    SourceRead::Found { path: path.to_string(), content: content.to_string() }
}

/// The raw → merged → deserialized → validated pipeline of `text`.
fn pipeline(text: &str) -> Result<Config<Validated<SimpleConfig>>, Error> {
    let merged = Config::<Raw>::new(text).merge(None, &no_env())?;
    let value = SimpleConfig::from_value(merged.value()).expect("fields present");
    merged.deserialized(value).validate("e2e_tests::SimpleConfig")
}

// ==========================================
// Tier 1
// ==========================================

#[test]
fn test_t1_01_typestate_compile_checks() {
    let config_raw = Config::<Raw>::new("port = 8080");
    assert_eq!(config_raw.state_name(), "Raw");
}

#[test]
fn test_t1_02_typestate_successful_sequence() {
    let frozen = pipeline("name = 'test'\nport = 8080").unwrap().freeze();
    assert_eq!(frozen.get().name, "test");
    assert_eq!(frozen.state_name(), "Frozen");
}

#[test]
fn test_t1_03_typestate_state_checks() {
    let raw = Config::<Raw>::new("name = \"x\"\n");
    assert_eq!(raw.state_name(), "Raw");
    let frozen = pipeline("name = 'test'\nport = 8080").unwrap().freeze();
    assert_eq!(frozen.get().port, 8080);
    let validated: Config<Validated<u32>> = Config { state: Validated(3), path: String::new() };
    assert_eq!(validated.state_name(), "Validated");
    let f: Config<Frozen<u32>> = validated.freeze();
    assert_eq!(*f.get(), 3);
}

#[test]
fn test_t1_04_layered_loading_precedence() {
    let loader = Loader::new()
        .layer_str("name = 'default'\nhost = 'default.host'", "defaults")
        .layer_file("/cfg/file1.toml")
        .layer_file("/cfg/file2.toml")
        .env_prefix("T1_04_");
    let reads = vec![
        SourceRead::Missing,
        found("/cfg/file1.toml", "name = 'file1'\nport = 8080"),
        found("/cfg/file2.toml", "port = 9090\nhost = 'file2.host'"),
    ];
    let (value, last) = loader.merge_layers(&reads, "/", &env(&[("T1_04_HOST", "env.host")])).unwrap();
    let config = SimpleConfigWithHost::from_value(&value).unwrap();
    assert_eq!(config.name, "file1");
    assert_eq!(config.port, 9090);
    assert_eq!(config.host, "env.host");
    assert_eq!(last, "/cfg/file2.toml");
}

#[test]
fn test_t1_05_env_prefix_handling() {
    let loader = Loader::new()
        .layer_str("[server.tls]\nport = 80\ncert_path = 'cert.pem'", "defaults")
        .env_prefix("APP_");
    let (value, _) =
        loader.merge_layers(&vec![SourceRead::Missing], "/", &env(&[("APP_SERVER__TLS__PORT", "443")])).unwrap();
    let config = ServerConfig::from_value(&value).unwrap();
    assert_eq!(config.tls.port, 443);
}

#[test]
fn test_t1_06_type_coercion_bool() {
    for val in &["true", "True", "TRUE", "false", "False", "FALSE"] {
        let loader = Loader::new().layer_str("enabled = false", "defaults").env_prefix("APP_");
        let (value, _) = loader.merge_layers(&vec![SourceRead::Missing], "/", &env(&[("APP_ENABLED", val)])).unwrap();
        let expected = val.to_lowercase() == "true";
        assert_eq!(value.get("enabled").unwrap().as_bool(), Some(expected));
    }
}

#[test]
fn test_t1_07_type_coercion_int() {
    for val in &["0", "-123", "9223372036854775807"] {
        let loader = Loader::new().layer_str("port = 80", "defaults").env_prefix("T1_07_");
        let (value, _) = loader.merge_layers(&vec![SourceRead::Missing], "/", &env(&[("T1_07_PORT", val)])).unwrap();
        let expected: i64 = val.parse().unwrap_or(0);
        assert_eq!(value.get("port").unwrap().as_integer(), Some(expected));
    }
}

#[test]
fn test_t1_14_validate_trait_manual() {
    struct Manual {
        port: i64,
    }
    impl Validate for Manual {
        fn validate(&self, v: &mut Validator) {
            v.check_range("port", self.port, 1024, 65535);
        }
    }
    let err = Manual { port: 80 }.check().unwrap_err();
    assert_eq!(err.errors()[0].code(), "out_of_range");
}

#[test]
fn test_t1_15_custom_profile_validators() {
    struct ProfileConfig {
        profile: String,
        url: String,
    }
    impl Validate for ProfileConfig {
        fn validate(&self, v: &mut Validator) {
            if self.profile == "prod" {
                v.check_predicate("url", self.url.starts_with("https://"), "https_required", "HTTPS required in prod");
            }
        }
    }
    let dev = ProfileConfig { profile: "dev".into(), url: "http://dev.local".into() };
    assert!(dev.check().is_ok());
    let prod = ProfileConfig { profile: "prod".into(), url: "http://prod.local".into() };
    assert_eq!(prod.check().unwrap_err().errors()[0].code(), "https_required");
}

#[test]
fn test_t1_16_custom_policy_validators() {
    struct PolicyConfig {
        max_limit: u32,
        current: u32,
    }
    impl Validate for PolicyConfig {
        fn validate(&self, v: &mut Validator) {
            v.check_consistent("current", &["max_limit"], self.current <= self.max_limit, "limit_exceeded", "exceeded limit");
        }
    }
    let err = PolicyConfig { max_limit: 100, current: 150 }.check().unwrap_err();
    assert_eq!(err.errors()[0].code(), "limit_exceeded");
}

#[test]
fn test_t1_17_path_traversal_guards() {
    struct PathConfig {
        path: String,
    }
    impl Validate for PathConfig {
        fn validate(&self, v: &mut Validator) {
            v.check_path("path", &self.path, None);
        }
    }
    let err = PathConfig { path: "../../etc/passwd".to_string() }.check().unwrap_err();
    assert_eq!(err.errors()[0].code(), "invalid_path");
    assert!(err.errors()[0].msg.contains("path traversal"));
}

#[test]
fn test_t1_18_null_bytes_rejection() {
    struct NullConfig {
        path: String,
    }
    impl Validate for NullConfig {
        fn validate(&self, v: &mut Validator) {
            v.check_path("path", &self.path, None);
        }
    }
    let err = NullConfig { path: "foo\0bar".to_string() }.check().unwrap_err();
    assert_eq!(err.errors()[0].code(), "invalid_path");
    assert!(err.errors()[0].msg.contains("null bytes"));
}

struct HostConfig {
    host: String,
}

impl Validate for HostConfig {
    fn validate(&self, v: &mut Validator) {
        v.check_ip_or_domain("host", &self.host, is_ip(&self.host));
    }
}

#[test]
fn test_t1_19_host_safety_domain_label() {
    let h = HostConfig { host: format!("{}.com", "a".repeat(64)) };
    assert_eq!(h.check().unwrap_err().errors()[0].code(), "invalid_ip_or_domain");
}

#[test]
fn test_t1_20_host_safety_domain_length() {
    let h = HostConfig { host: "a".repeat(254) };
    assert_eq!(h.check().unwrap_err().errors()[0].code(), "invalid_ip_or_domain");
}

struct SemverConfig {
    version: String,
}

impl Validate for SemverConfig {
    fn validate(&self, v: &mut Validator) {
        v.check_semver("version", &self.version);
    }
}

#[test]
fn test_t1_21_semver_check() {
    assert!(SemverConfig { version: "1.0.0".into() }.check().is_ok());
    let bad = SemverConfig { version: "1.0".into() };
    assert_eq!(bad.check().unwrap_err().errors()[0].code(), "invalid_semver");
}

#[test]
fn test_t1_22_range_check() {
    struct PortConfig {
        port: i64,
    }
    impl Validate for PortConfig {
        fn validate(&self, v: &mut Validator) {
            v.check_range("port", self.port, 1, 65535);
        }
    }
    assert_eq!(PortConfig { port: 0 }.check().unwrap_err().errors()[0].code(), "out_of_range");
}

struct SizeConfig {
    size: String,
}

impl Validate for SizeConfig {
    fn validate(&self, v: &mut Validator) {
        v.check_size_format("size", &self.size);
    }
}

#[test]
fn test_t1_23_size_format_check() {
    assert!(SizeConfig { size: "512MB".into() }.check().is_ok());
    let bad = SizeConfig { size: "512XB".into() };
    assert_eq!(bad.check().unwrap_err().errors()[0].code(), "invalid_size_format");
}

#[test]
fn test_t1_25_save_canonical() {
    let validated = pipeline("name = 'test'\nport = 80").unwrap();
    let v = validated.get();
    let typed = TomlValue::Table(vec![
        ("port".to_string(), TomlValue::Integer(v.port)),
        ("name".to_string(), TomlValue::String(v.name.clone())),
    ]);
    let content = validated.save_canonical(&typed).unwrap();
    let lines: Vec<&str> = content.lines().filter(|l| !l.is_empty()).collect();
    assert_eq!(lines[0], "name = \"test\"");
    assert_eq!(lines[1], "port = 80");
}

#[test]
fn test_t1_27_config_file_resolve() {
    let config = SimpleConfig { name: "test".into(), port: 80 };
    let cf = ConfigFile { config, path: "/etc/app/config.toml".to_string() };
    assert_eq!(cf.resolve("certs/cert.pem"), "/etc/app/certs/cert.pem");
    assert_eq!(cf.resolve("/abs/cert.pem"), "/abs/cert.pem");
}

#[test]
fn test_t1_28_config_lifecycle_normalize() {
    let mut config = LifecycleConfig { name: "  spaces  ".into(), port: 8080 };
    config.normalize();
    assert_eq!(config.name, "spaces");
}

#[test]
fn test_t1_29_config_lifecycle_validate_lifecycle() {
    let mut v = Validator::new();
    let config = LifecycleConfig { name: "test".into(), port: 80 };
    config.validate_lifecycle(&mut v);
    assert!(v.finish().is_err());
}

fn trusted_simple(text: &str) -> Result<TrustedConfig<SimpleConfig>, Error> {
    let loader = TrustedLoader::new().layer_str(text, "inline");
    let (merged, last) = loader.merged(&vec![SourceRead::Missing], "/work", &no_env())?;
    let value = SimpleConfig::from_value(&merged)
        .ok_or_else(|| Error::validation("e2e_tests::SimpleConfig", "missing field"))?;
    trusted_config(value, &merged, &last, "e2e_tests::SimpleConfig")
}

#[test]
fn test_t1_30_star_toml_trusted() {
    let tc = trusted_simple("name = 'test'\nport = 80").unwrap();
    assert_eq!(tc.value.port, 80);
    assert_eq!(tc.validation.checks_passed, tc.validation.checks_run);
    assert_eq!(tc.source.path, "/work");
}

struct Multi {
    a: String,
    b: String,
}

impl Validate for Multi {
    fn validate(&self, v: &mut Validator) {
        v.check_non_empty("a", &self.a);
        v.check_non_empty("b", &self.b);
    }
}

#[test]
fn test_t1_31_conformance_fitness_score() {
    let bad = Multi { a: "".into(), b: "".into() };
    assert_eq!(bad.check().unwrap_err().fitness(), (0, 2));
    let partial = Multi { a: "ok".into(), b: "".into() };
    let (p, r) = partial.check().unwrap_err().fitness();
    assert_eq!(p as f64 / r as f64, 0.5);
}

#[test]
fn test_t1_32_variant_fingerprint() {
    let e1 = Multi { a: "".into(), b: "x".into() }.check().unwrap_err().variant_id();
    let e2 = Multi { a: "".into(), b: "y".into() }.check().unwrap_err().variant_id();
    assert_eq!(e1, e2);
}

#[test]
fn test_t1_33_section_grouping() {
    let s = Schema::new()
        .section("server", Schema::new().field("port").range_i64(1, 65535).done())
        .section("db", Schema::new().field("host").non_empty().done());
    let val = parse_toml("[server]\nport = 0\n[db]\nhost = ''").unwrap();
    let err = s.validate_value(&val).unwrap_err();
    let keys: Vec<String> = err.by_section().into_iter().map(|(k, _)| k).collect();
    assert_eq!(keys, vec!["db".to_string(), "server".to_string()]);
}

#[test]
fn test_t1_35_schema_macro_nested() {
    let s = Schema::new().section("server", Schema::new().field("port").range_i64(1, 65535).done());
    let val = parse_toml("[server]\nport = 0").unwrap();
    let err = s.validate_value(&val).unwrap_err();
    assert_eq!(err.errors()[0].loc.to_string(), "server.port");
}

#[test]
fn test_t1_36_derive_validate_nested() {
    let config = ServerConfig { tls: TlsSection { port: 0, cert_path: "".into() } };
    let err = config.check().unwrap_err();
    let paths: Vec<String> = err.errors().iter().map(|e| e.loc.to_string()).collect();
    assert!(paths.contains(&"server.tls.port".to_string()));
    assert!(paths.contains(&"server.tls.cert_path".to_string()));
}

#[test]
fn test_t1_37_conformance_fitness_no_checks() {
    struct EmptyStruct;
    impl Validate for EmptyStruct {
        fn validate(&self, _v: &mut Validator) {}
    }
    assert!(EmptyStruct.check().is_ok());
    assert_eq!(Validator::new().into_report().fitness(), (1, 1));
}

#[test]
fn test_t1_38_variant_fingerprint_stability() {
    struct DynamicMsg {
        a: String,
        msg: String,
    }
    impl Validate for DynamicMsg {
        fn validate(&self, v: &mut Validator) {
            v.check_predicate("a", !self.a.is_empty(), "empty_field", &self.msg);
        }
    }
    let e1 = DynamicMsg { a: "".into(), msg: "msg1".into() }.check().unwrap_err().variant_id();
    let e2 = DynamicMsg { a: "".into(), msg: "msg2".into() }.check().unwrap_err().variant_id();
    assert_eq!(e1, e2);
}

// ==========================================
// Tier 2
// ==========================================

#[test]
fn test_t2_01_typestate_save_blocked() {
    // Saving is only offered on validated and frozen configurations; the
    // types make any other call impossible to write.
}

#[test]
fn test_t2_02_typestate_validation_failures() {
    let res = pipeline("name = ''\nport = 0");
    match res {
        Err(Error::Invalid(rep)) => {
            assert_eq!(rep.len(), 2);
            assert_eq!(rep.title(), Some("SimpleConfig"));
        },
        _ => panic!("expected a validation failure"),
    }
}

#[test]
fn test_t2_03_typestate_mutate_frozen_blocked() {
    let frozen = pipeline("name = 'test'\nport = 80").unwrap().freeze();
    assert_eq!(frozen.get().name, "test");
}

#[test]
fn test_t2_04_loader_missing_file_error() {
    let loader = Loader::new().layer_file("nonexistent.toml");
    let res = loader.merge_layers(&vec![SourceRead::Missing], "/", &no_env());
    assert!(matches!(res, Err(Error::FileNotFound(p)) if p == "nonexistent.toml"));
}

#[test]
fn test_t2_05_loader_missing_file_ignored() {
    let loader = Loader::new().layer_str("name = 'test'\nport = 80", "def").layer_file_if_exists("nonexistent.toml");
    let (value, _) = loader.merge_layers(&vec![SourceRead::Missing, SourceRead::Missing], "/", &no_env()).unwrap();
    assert_eq!(SimpleConfig::from_value(&value).unwrap().name, "test");
}

#[test]
fn test_t2_06_env_override_nested_table_conflict() {
    let loader = Loader::new()
        .layer_str("[server.tls]\nport = 80\ncert_path = 'cert'", "defaults")
        .env_prefix("APP_");
    let (value, _) =
        loader.merge_layers(&vec![SourceRead::Missing], "/", &env(&[("APP_SERVER__TLS", "conflict")])).unwrap();
    // The table was replaced by a string, so the typed shape no longer fits.
    assert!(ServerConfig::from_value(&value).is_none());
    assert_eq!(value.get("server").unwrap().get("tls").unwrap().as_str(), Some("conflict"));
}

#[test]
fn test_t2_07_type_coercion_fallback_string() {
    let loader = Loader::new().layer_str("name = 'def'\nport = 80", "def").env_prefix("T2_07_");
    let (value, _) =
        loader.merge_layers(&vec![SourceRead::Missing], "/", &env(&[("T2_07_NAME", "1.2.3.4")])).unwrap();
    assert_eq!(SimpleConfig::from_value(&value).unwrap().name, "1.2.3.4");
}

#[test]
fn test_t2_11_derive_validate_option_fields() {
    let c = ComplexConfig { name: "test".into(), port: 80, hosts: vec![], options: None };
    let err = c.check().unwrap_err();
    assert_eq!(err.errors()[0].loc.to_string(), "options");
}

#[test]
fn test_t2_12_schema_macro_errors() {
    let s = Schema::new().field("port").range_i64(1, 65535).non_empty().done();
    let val = parse_toml("port = 0").unwrap();
    let err = s.validate_value(&val).unwrap_err();
    assert_eq!(err.len(), 2);
}

#[test]
fn test_t2_13_custom_profile_fallback() {
    struct ProfileConfig {
        profile: Option<String>,
        url: String,
    }
    impl Validate for ProfileConfig {
        fn validate(&self, v: &mut Validator) {
            let prof = self.profile.as_deref().unwrap_or("dev");
            v.check_profile("url", prof, "prod", self.url.starts_with("https://"), "https_required", "HTTPS required in prod");
        }
    }
    assert!(ProfileConfig { profile: None, url: "http://dev.local".into() }.check().is_ok());
    let prod = ProfileConfig { profile: Some("prod".into()), url: "http://x".into() };
    assert_eq!(prod.check().unwrap_err().errors()[0].code(), "https_required");
}

#[test]
fn test_t2_14_custom_policy_chained_failure() {
    struct PolicyConfig {
        a: u32,
        b: u32,
    }
    impl Validate for PolicyConfig {
        fn validate(&self, v: &mut Validator) {
            v.check_consistent("a", &[], self.a < 10, "policy_a", "a < 10");
            v.check_consistent("b", &[], self.b < 20, "policy_b", "b < 20");
        }
    }
    assert_eq!(PolicyConfig { a: 15, b: 25 }.check().unwrap_err().len(), 2);
}

#[test]
fn test_t2_15_path_traversal_tricky() {
    struct PathConfig {
        path: String,
    }
    impl Validate for PathConfig {
        fn validate(&self, v: &mut Validator) {
            v.check_path("path", &self.path, Some(false));
        }
    }
    let err = PathConfig { path: "/absolute/path".into() }.check().unwrap_err();
    assert_eq!(err.errors()[0].code(), "invalid_path");
    assert!(err.errors()[0].msg.contains("path must be relative"));
}

#[test]
fn test_t2_16_null_bytes_multibyte() {
    struct MultibyteConfig {
        name: String,
    }
    impl Validate for MultibyteConfig {
        fn validate(&self, v: &mut Validator) {
            v.check_path("name", &self.name, None);
        }
    }
    let err = MultibyteConfig { name: "exämple\x00domain".into() }.check().unwrap_err();
    assert_eq!(err.errors()[0].code(), "invalid_path");
}

#[test]
fn test_t2_17_host_safety_invalid_hyphens() {
    for h in &["-example.com", "example-.com"] {
        let config = HostConfig { host: h.to_string() };
        assert_eq!(config.check().unwrap_err().errors()[0].code(), "invalid_ip_or_domain");
    }
}

#[test]
fn test_t2_18_host_safety_invalid_dots() {
    for h in &["domain..com", ".domain.com"] {
        let config = HostConfig { host: h.to_string() };
        assert_eq!(config.check().unwrap_err().errors()[0].code(), "invalid_ip_or_domain");
    }
}

#[test]
fn test_t2_20_semver_prerelease_metadata() {
    let s = SemverConfig { version: "1.0.0-alpha".into() };
    assert_eq!(s.check().unwrap_err().errors()[0].code(), "invalid_semver");
}

#[test]
fn test_t2_21_range_extreme_boundaries() {
    struct RangeConfig {
        val: i64,
    }
    impl Validate for RangeConfig {
        fn validate(&self, v: &mut Validator) {
            v.check_range("val", self.val, -100, 100);
        }
    }
    assert_eq!(RangeConfig { val: i64::MIN }.check().unwrap_err().errors()[0].code(), "out_of_range");
    assert_eq!(RangeConfig { val: i64::MAX }.check().unwrap_err().errors()[0].code(), "out_of_range");
    assert!(RangeConfig { val: -100 }.check().is_ok());
}

#[test]
fn test_t2_22_size_format_invalid_suffix() {
    assert_eq!(SizeConfig { size: "1.5GB".into() }.check().unwrap_err().errors()[0].code(), "invalid_size_format");
    assert_eq!(SizeConfig { size: "100PB".into() }.check().unwrap_err().errors()[0].code(), "invalid_size_format");
}

#[test]
fn test_t2_25_config_file_resolve_multiple_parent_segments() {
    let config = SimpleConfig { name: "test".into(), port: 80 };
    let cf = ConfigFile { config, path: "/etc/app/sub/config.toml".to_string() };
    assert_eq!(cf.resolve("../../certs/cert.pem"), "/etc/app/sub/../../certs/cert.pem");
}

#[test]
fn test_t2_26_lifecycle_normalize_empty_check() {
    let mut config = LifecycleConfig { name: "    ".into(), port: 8080 };
    config.normalize();
    assert_eq!(config.check().unwrap_err().errors()[0].code(), "empty");
}

#[test]
fn test_t2_27_lifecycle_normalization_loops() {
    let mut config = LifecycleConfig { name: "loop".into(), port: 8080 };
    config.normalize();
    assert_eq!(config.name, "loop");
}

#[test]
fn test_t2_28_lifecycle_validate_lifecycle_multi_errors() {
    struct MultiLifecycle {
        port: i64,
        host: String,
    }
    impl ConfigLifecycle for MultiLifecycle {
        fn normalize(&mut self) {}
        fn validate_lifecycle(&self, v: &mut Validator) {
            v.check_range("port", self.port, 1000, 9999);
            v.check_non_empty("host", &self.host);
        }
    }
    let m = MultiLifecycle { port: 80, host: "".into() };
    let mut v = Validator::new();
    m.validate_lifecycle(&mut v);
    assert_eq!(v.finish().unwrap_err().len(), 2);
}

#[test]
fn test_t2_29_trusted_loader_rejects_untrusted() {
    let loader = TrustedLoader::new().layer_str("invalid content", "invalid");
    let res = loader.merged(&vec![SourceRead::Missing], "/", &no_env());
    assert!(matches!(res, Err(Error::Parse { path, .. }) if path == "invalid"));
    let rejected = trusted_simple("name = ''\nport = 80");
    assert!(matches!(rejected, Err(Error::Invalid(_))));
}

#[test]
fn test_t2_30_fitness_multi_errors() {
    struct FiveChecks {
        a: String,
        b: String,
        c: String,
        d: String,
        e: String,
    }
    impl Validate for FiveChecks {
        fn validate(&self, v: &mut Validator) {
            v.check_non_empty("a", &self.a);
            v.check_non_empty("b", &self.b);
            v.check_non_empty("c", &self.c);
            v.check_non_empty("d", &self.d);
            v.check_non_empty("e", &self.e);
        }
    }
    let bad = FiveChecks { a: "".into(), b: "".into(), c: "".into(), d: "ok".into(), e: "ok".into() };
    let (p, r) = bad.check().unwrap_err().fitness();
    assert_eq!(p as f64 / r as f64, 0.4);
}

#[test]
fn test_t2_31_variant_fingerprint_nested_location() {
    let s = Schema::new().section(
        "server",
        Schema::new().section("tls", Schema::new().field("port").range_i64(1, 65535).done()),
    );
    let f1 = s.validate_value(&parse_toml("[server.tls]\nport = 0").unwrap()).unwrap_err().variant_id();
    let f2 = s.validate_value(&parse_toml("[server.tls]\nport = -5").unwrap()).unwrap_err().variant_id();
    assert_eq!(f1, f2);
}

#[test]
fn test_t2_32_section_grouping_root() {
    struct RootFail;
    impl Validate for RootFail {
        fn validate(&self, v: &mut Validator) {
            v.error(ErrorKind::Empty, "root error");
        }
    }
    let err = RootFail.check().unwrap_err();
    let keys: Vec<String> = err.by_section().into_iter().map(|(k, _)| k).collect();
    assert_eq!(keys, vec!["(root)".to_string()]);
}

#[test]
fn test_t2_34_validation_macro_enum() {
    enum ConfigEnum {
        Web(i64),
        Worker(String),
    }
    impl Validate for ConfigEnum {
        fn validate(&self, v: &mut Validator) {
            match self {
                Self::Web(val) => v.check_range("Web", *val, 1, 10),
                Self::Worker(val) => v.check_non_empty("Worker", val),
            }
        }
    }
    assert_eq!(ConfigEnum::Web(15).check().unwrap_err().errors()[0].code(), "out_of_range");
    assert!(ConfigEnum::Worker("w".into()).check().is_ok());
}

#[test]
fn test_t2_35_host_safety_non_ascii() {
    let h = HostConfig { host: "exämple.com".into() };
    assert_eq!(h.check().unwrap_err().errors()[0].code(), "invalid_ip_or_domain");
}

#[test]
fn test_t2_37_lifecycle_normalize_violates_range() {
    struct BadNormalize {
        port: i64,
    }
    impl Validate for BadNormalize {
        fn validate(&self, v: &mut Validator) {
            v.check_range("port", self.port, 1000, 9999);
        }
    }
    impl ConfigLifecycle for BadNormalize {
        fn normalize(&mut self) {
            self.port = 80;
        }
        fn validate_lifecycle(&self, _v: &mut Validator) {}
    }
    let mut b = BadNormalize { port: 2000 };
    b.normalize();
    assert_eq!(b.check().unwrap_err().errors()[0].code(), "out_of_range");
}

#[test]
fn test_t2_38_trusted_loader_digest_stability() {
    let tc1 = trusted_simple("name = 'test'\nport = 80").unwrap();
    let tc2 = trusted_simple("name = 'test'\nport = 80").unwrap();
    assert_eq!(tc1.digest, tc2.digest);
    let tc3 = trusted_simple("name = 'test'\nport = 81").unwrap();
    assert_ne!(tc1.digest, tc3.digest);
}

#[test]
fn complex_config_checks_every_host() {
    let c = ComplexConfig {
        name: "svc".into(),
        port: 80,
        hosts: vec!["10.0.0.1".into(), "bad_host".into()],
        options: Some("o".into()),
    };
    let err = c.check().unwrap_err();
    assert_eq!(err.len(), 1);
    assert_eq!(err.errors()[0].loc.to_string(), "[1].host");
}

// ==========================================
// Tier 3 and 4
// ==========================================

#[test]
fn test_t3_02_typestate_transitions_with_layering() {
    let loader = Loader::new().layer_file("/cfg/f1.toml").env_prefix("APP_");
    let (value, _) = loader
        .merge_layers(&vec![found("/cfg/f1.toml", "name = 'f1'\nport = 8080")], "/", &env(&[("APP_PORT", "9090")]))
        .unwrap();
    let config = SimpleConfig::from_value(&value).unwrap();
    let frozen = Config::<Validated<SimpleConfig>>::new(config).unwrap().freeze();
    assert_eq!(frozen.get().port, 9090);
}

#[test]
fn test_t3_04_safety_validators_affect_analytics() {
    struct SafetyConfig {
        path: String,
        host: String,
    }
    impl Validate for SafetyConfig {
        fn validate(&self, v: &mut Validator) {
            v.check_path("path", &self.path, None);
            v.check_ip_or_domain("host", &self.host, is_ip(&self.host));
        }
    }
    let s = SafetyConfig { path: "../../etc/passwd\0".into(), host: "invalid_domain..com".into() };
    let errs = s.check().unwrap_err();
    assert_eq!(errs.fitness(), (0, 2));
    let keys: Vec<String> = errs.by_section().into_iter().map(|(k, _)| k).collect();
    assert!(keys.contains(&"path".to_string()));
    assert!(keys.contains(&"host".to_string()));
    assert!(errs.errors()[0].msg.contains("null bytes, path traversal"));
}

#[test]
fn test_t3_05_save_enforces_typestate() {
    let validated = pipeline("name = 'test'\nport = 80").unwrap();
    let typed = TomlValue::Table(vec![
        ("name".to_string(), TomlValue::String("test".to_string())),
        ("port".to_string(), TomlValue::Integer(80)),
    ]);
    assert!(validated.save_canonical(&typed).is_ok());
}

#[test]
fn test_t3_06_schema_vs_derive_fingerprint() {
    let s = Schema::new().field("port").range_i64(1, 65535).done();
    struct Target {
        port: i64,
    }
    impl Validate for Target {
        fn validate(&self, v: &mut Validator) {
            v.check_range("port", self.port, 1, 65535);
        }
    }
    let err_schema = s.validate_value(&parse_toml("port = 0").unwrap()).unwrap_err().variant_id();
    let err_derive = Target { port: 0 }.check().unwrap_err().variant_id();
    assert_eq!(err_schema, err_derive);
}

#[test]
fn test_t3_07_error_propagation_pipeline() {
    let res_parse = star_toml::loader::parse_expanded("invalid toml here", "<string>", &no_env());
    assert!(matches!(res_parse, Err(Error::Parse { .. })));
    let res_missing = Loader::new().layer_file("missing_file.toml").merge_layers(&vec![SourceRead::Missing], "/", &no_env());
    assert!(matches!(res_missing, Err(Error::FileNotFound(_))));
}

#[test]
fn test_t4_01_web_server_scenario() {
    struct WebServerConfig {
        db_host: String,
        db_port: i64,
        tls_enabled: bool,
        cert_path: String,
        workers: i64,
        cache_size: String,
    }
    impl Validate for WebServerConfig {
        fn validate(&self, v: &mut Validator) {
            v.check_ip_or_domain("db_host", &self.db_host, is_ip(&self.db_host));
            v.check_range("db_port", self.db_port, 1, 65535);
            v.check_range("workers", self.workers, 1, 128);
            v.check_size_format("cache_size", &self.cache_size);
            v.check_consistent(
                "cert_path",
                &["tls_enabled"],
                !self.tls_enabled || !self.cert_path.is_empty(),
                "tls_cert_required",
                "cert_path must be provided if TLS is enabled",
            );
        }
    }
    impl ConfigLifecycle for WebServerConfig {}

    let raw = Config::<Raw>::new(
        "db_host = 'db.example.com'\ndb_port = 80\ntls_enabled = true\ncert_path = '/etc/ssl/cert.pem'\nworkers = 16\ncache_size = '2GB'",
    );
    let merged = raw.merge(Some("APP_"), &env(&[("APP_DB_PORT", "5432")])).unwrap();
    let v = merged.value();
    let cfg = WebServerConfig {
        db_host: v.get("db_host").unwrap().as_str().unwrap().to_string(),
        db_port: v.get("db_port").unwrap().as_integer().unwrap(),
        tls_enabled: v.get("tls_enabled").unwrap().as_bool().unwrap(),
        cert_path: v.get("cert_path").unwrap().as_str().unwrap().to_string(),
        workers: v.get("workers").unwrap().as_integer().unwrap(),
        cache_size: v.get("cache_size").unwrap().as_str().unwrap().to_string(),
    };
    let frozen = merged.deserialized(cfg).validate("e2e_tests::WebServerConfig").unwrap().freeze();
    assert_eq!(frozen.get().db_port, 5432);
    assert_eq!(frozen.get().workers, 16);
}

#[test]
fn test_t4_03_db_cluster_scenario() {
    struct DbClusterConfig {
        role: String,
        seeds: Vec<String>,
        heartbeat_ms: i64,
    }
    impl Validate for DbClusterConfig {
        fn validate(&self, _v: &mut Validator) {}
    }
    impl ConfigLifecycle for DbClusterConfig {
        fn normalize(&mut self) {}
        fn validate_lifecycle(&self, v: &mut Validator) {
            v.check_one_of("role", &self.role, &["primary", "replica"]);
            v.check_range("heartbeat_ms", self.heartbeat_ms, 100, 5000);
            v.check_consistent(
                "seeds",
                &["role"],
                self.role != "replica" || !self.seeds.is_empty(),
                "seeds_required",
                "Replica role requires non-empty seeds list",
            );
        }
    }
    let merged = Config::<Raw>::new("role = 'replica'\nseeds = ['seed1.db.local']\nheartbeat_ms = 1000")
        .merge(None, &no_env())
        .unwrap();
    let v = merged.value();
    let cfg = DbClusterConfig {
        role: v.get("role").unwrap().as_str().unwrap().to_string(),
        seeds: v.get("seeds").unwrap().as_array().unwrap().iter().map(|s| s.as_str().unwrap().to_string()).collect(),
        heartbeat_ms: v.get("heartbeat_ms").unwrap().as_integer().unwrap(),
    };
    let frozen = merged.deserialized(cfg).validate("e2e_tests::DbClusterConfig").unwrap().freeze();
    assert_eq!(frozen.get().seeds[0], "seed1.db.local");
}

#[test]
fn test_t4_04_data_ingestion_scenario() {
    struct IngestionConfig {
        monitor_dir: String,
        archive_dir: String,
        max_size: String,
    }
    impl Validate for IngestionConfig {
        fn validate(&self, v: &mut Validator) {
            v.field("ingest", |v| {
                v.check_path("monitor_dir", &self.monitor_dir, None);
                v.check_size_format("max_size", &self.max_size);
            });
            v.field("archive", |v| {
                v.check_path("archive_dir", &self.archive_dir, None);
            });
        }
    }
    let bad = IngestionConfig {
        monitor_dir: "/data/in\0".into(),
        archive_dir: "../../archive".into(),
        max_size: "100XB".into(),
    };
    let errs = bad.check().unwrap_err();
    assert_eq!(errs.len(), 3);
    let keys: Vec<String> = errs.by_section().into_iter().map(|(k, _)| k).collect();
    assert_eq!(keys, vec!["archive".to_string(), "ingest".to_string()]);
}

#[test]
fn test_t4_05_api_gateway_scenario() {
    struct GatewayConfig {
        backend_host: String,
        rate_limit: i64,
    }
    impl Validate for GatewayConfig {
        fn validate(&self, v: &mut Validator) {
            v.check_ip_or_domain("backend_host", &self.backend_host, is_ip(&self.backend_host));
            v.check_range("rate_limit", self.rate_limit, 1, 10000);
        }
    }
    impl ConfigLifecycle for GatewayConfig {}
    let text = "backend_host = \"backend.service.local\"\nrate_limit = 5000\n";
    let loader = TrustedLoader::new().layer_str(text, "inline");
    let (merged, last) = loader.merged(&vec![SourceRead::Missing], "/", &no_env()).unwrap();
    let cfg = GatewayConfig {
        backend_host: merged.get("backend_host").unwrap().as_str().unwrap().to_string(),
        rate_limit: merged.get("rate_limit").unwrap().as_integer().unwrap(),
    };
    let tc = trusted_config(cfg, &merged, &last, "e2e_tests::GatewayConfig").unwrap();
    assert_eq!(tc.value.rate_limit, 5000);
    assert!(tc.validation.errors.is_empty());
    assert!(tc.digest.0 > 0);
}

#[test]
fn test_t2_33_env_override_conflict() {
    let loader = Loader::new().layer_str("name = 'test'\nport = 8080", "def").env_prefix("APP_");
    let (value, _) = loader
        .merge_layers(&vec![SourceRead::Missing], "/", &env(&[("APP_PORT", "80"), ("app_port", "90")]))
        .unwrap();
    let config = SimpleConfig::from_value(&value).unwrap();
    assert!(config.port == 80 || config.port == 90);
    // The prefix matches without regard to case, and the later variable wins.
    assert_eq!(config.port, 90);
}

#[test]
fn test_t3_01_full_lifecycle_path() {
    let merged = Config::<Raw>::new("name = '  service  '\nport = 8080").merge(None, &no_env()).unwrap();
    let v = merged.value();
    let value = LifecycleConfig {
        name: v.get("name").unwrap().as_str().unwrap().to_string(),
        port: v.get("port").unwrap().as_integer().unwrap(),
    };
    let validated = merged.deserialized(value).validate("e2e_tests::LifecycleConfig").unwrap();
    let mut config = validated.get().clone();
    config.normalize();
    assert_eq!(config.name, "service");
    let frozen = Config::<Validated<LifecycleConfig>>::new(config).unwrap().freeze();
    let typed = TomlValue::Table(vec![
        ("name".to_string(), TomlValue::String(frozen.get().name.clone())),
        ("port".to_string(), TomlValue::Integer(frozen.get().port)),
    ]);
    let saved = frozen.save_canonical(&typed).unwrap();

    let loader = TrustedLoader::new().layer_file("/out/app.toml");
    let (tree, last) = loader.merged(&vec![found("/out/app.toml", &saved)], "/", &no_env()).unwrap();
    let reloaded = LifecycleConfig {
        name: tree.get("name").unwrap().as_str().unwrap().to_string(),
        port: tree.get("port").unwrap().as_integer().unwrap(),
    };
    let tc = trusted_config(reloaded, &tree, &last, "e2e_tests::LifecycleConfig").unwrap();
    assert_eq!(tc.value.name, "service");
    assert_eq!(tc.value.port, 8080);
    assert_eq!(tc.source.path, "/out/app.toml");
}

#[test]
fn test_t4_02_cicd_runner_scenario() {
    #[derive(Clone)]
    struct PipelineConfig {
        workspace: String,
        timeout: i64,
        environment: String,
        engine_version: String,
    }
    impl Validate for PipelineConfig {
        fn validate(&self, _v: &mut Validator) {}
    }
    impl ConfigLifecycle for PipelineConfig {
        fn normalize(&mut self) {
            self.workspace = self.workspace.trim().to_string();
        }
        fn validate_lifecycle(&self, v: &mut Validator) {
            v.check_path("workspace", &self.workspace, None);
            v.check_range("timeout", self.timeout, 1, 3600);
            v.check_one_of("environment", &self.environment, &["docker", "kubernetes", "local"]);
            v.check_semver("engine_version", &self.engine_version);
        }
    }
    fn read(v: &TomlValue) -> PipelineConfig {
        PipelineConfig {
            workspace: v.get("workspace").unwrap().as_str().unwrap().to_string(),
            timeout: v.get("timeout").unwrap().as_integer().unwrap(),
            environment: v.get("environment").unwrap().as_str().unwrap().to_string(),
            engine_version: v.get("engine_version").unwrap().as_str().unwrap().to_string(),
        }
    }
    let merged = Config::<Raw>::new(
        "workspace = '  /var/workspace  '\ntimeout = 300\nenvironment = 'docker'\nengine_version = '1.2.0'",
    )
    .merge(None, &no_env())
    .unwrap();
    let value = read(merged.value());
    let mut deser = merged.deserialized(value);
    let mut config = deser.get_mut().clone();
    config.normalize();
    assert_eq!(config.workspace, "/var/workspace");
    let validated = Config::<Validated<PipelineConfig>>::new(config).unwrap();
    let c = validated.get();
    let text = format!(
        "workspace = \"{}\"\ntimeout = {}\nenvironment = \"{}\"\nengine_version = \"{}\"\n",
        c.workspace, c.timeout, c.environment, c.engine_version
    );
    let loader = TrustedLoader::new().layer_str(&text, "inline");
    let (tree, last) = loader.merged(&vec![SourceRead::Missing], "/", &no_env()).unwrap();
    let tc = trusted_config(read(&tree), &tree, &last, "e2e_tests::PipelineConfig").unwrap();
    assert_eq!(tc.value.environment, "docker");
    assert_eq!(tc.validation.checks_run, 4);
}
