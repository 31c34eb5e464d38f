//! Nested validation written by hand the way a derive would write it,
//! profile and policy checks, and schemas with nested sections.

use star_toml::schema::Schema;
use star_toml::validation::{Validate, Validator};

struct Host {
    name: String,
}

impl Validate for Host {
    fn validate(&self, v: &mut Validator) {
        v.check_non_empty("name", &self.name);
    }
}

struct Port {
    value: i64,
}

impl Validate for Port {
    fn validate(&self, v: &mut Validator) {
        v.check_range("value", self.value, 1, 65535);
    }
}

struct Database {
    host: Host,
    port: Option<Port>,
}

impl Validate for Database {
    fn validate(&self, v: &mut Validator) {
        v.field("host", |v| self.host.validate(v));
        if let Some(p) = &self.port {
            v.field("port", |v| p.validate(v));
        }
    }
}

struct Config {
    db: Database,
    servers: Vec<Database>,
}

impl Validate for Config {
    fn validate(&self, v: &mut Validator) {
        v.field("db", |v| self.db.validate(v));
        v.field("servers", |v| {
            for (i, s) in self.servers.iter().enumerate() {
                v.index(i, |v| s.validate(v));
            }
        });
    }
}

#[test]
fn test_derive_validate_complex_option_vec() {
    let cfg = Config {
        db: Database { host: Host { name: "".into() }, port: Some(Port { value: 0 }) },
        servers: vec![
            Database { host: Host { name: "localhost".into() }, port: None },
            Database { host: Host { name: "".into() }, port: Some(Port { value: 8080 }) },
        ],
    };
    let errs = cfg.check().unwrap_err();
    assert_eq!(errs.len(), 3);
    let locs: Vec<String> = errs.errors().iter().map(|e| e.loc.to_string()).collect();
    assert!(locs.contains(&"db.host.name".to_string()));
    assert!(locs.contains(&"db.port.value".to_string()));
    assert!(locs.contains(&"servers[1].host.name".to_string()));
    for err in errs.errors() {
        assert_eq!(err.code(), if err.loc.to_string().contains("value") { "out_of_range" } else { "empty" });
    }
}

#[test]
fn schema_builder_flat_and_nested() {
    let s = Schema::new()
        .field("name")
        .non_empty()
        .done()
        .field("content-type")
        .one_of(&["json", "toml"])
        .done()
        .field("port")
        .required()
        .range_i64(1024, 65535)
        .done()
        .section("server", Schema::new().field("host").non_empty().done().field("port").required().range_i64(1, 65535).done());
    let valid = "\nname = \"my-app\"\ncontent-type = \"toml\"\nport = 8080\n[server]\nhost = \"127.0.0.1\"\nport = 443\n";
    assert!(s.validate_str(valid).is_ok());
    let invalid = "\nname = \"\"\ncontent-type = \"xml\"\nport = 80\n[server]\nhost = \"\"\nport = 0\n";
    let errs = s.validate_str(invalid).unwrap_err();
    assert_eq!(errs.len(), 5);
    let locs: Vec<String> = errs.errors().iter().map(|e| e.loc.to_string()).collect();
    assert_eq!(locs, vec!["name", "content-type", "port", "server.host", "server.port"]);
}

struct ProfilePolicyConfig {
    profile: String,
    debug_mode: bool,
    prod_url: String,
}

impl Validate for ProfilePolicyConfig {
    fn validate(&self, v: &mut Validator) {
        v.check_profile(
            "prod_url",
            &self.profile,
            "production",
            !self.prod_url.is_empty(),
            "missing_prod_url",
            "Production URL must be configured when in production profile",
        );
        v.check_policy(
            "debug_mode",
            || !self.debug_mode || self.profile != "production",
            "unsafe_debug_in_prod",
            "Debug mode is not allowed in production profile",
        );
    }
}

#[test]
fn test_profile_validator() {
    let cfg = ProfilePolicyConfig { profile: "production".into(), debug_mode: false, prod_url: "https://example.com".into() };
    assert!(cfg.check().is_ok());
    let cfg_fail = ProfilePolicyConfig { profile: "production".into(), debug_mode: false, prod_url: "".into() };
    let errs = cfg_fail.check().unwrap_err();
    assert_eq!(errs.len(), 1);
    assert_eq!(errs.errors()[0].loc.to_string(), "prod_url");
    assert_eq!(errs.errors()[0].code(), "missing_prod_url");
    let cfg_other_profile = ProfilePolicyConfig { profile: "development".into(), debug_mode: false, prod_url: "".into() };
    assert!(cfg_other_profile.check().is_ok());
}

#[test]
fn test_policy_validator() {
    let cfg = ProfilePolicyConfig { profile: "development".into(), debug_mode: true, prod_url: "".into() };
    assert!(cfg.check().is_ok());
    let cfg_fail = ProfilePolicyConfig { profile: "production".into(), debug_mode: true, prod_url: "https://example.com".into() };
    let errs = cfg_fail.check().unwrap_err();
    assert_eq!(errs.len(), 1);
    assert_eq!(errs.errors()[0].loc.to_string(), "debug_mode");
    assert_eq!(errs.errors()[0].code(), "unsafe_debug_in_prod");
}
