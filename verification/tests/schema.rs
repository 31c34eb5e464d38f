//! Runtime schemas: fields, constraints, sections and their errors.

use star_toml::schema::Schema;
use star_toml::validation::Severity;

fn server_schema() -> Schema {
    Schema::new().field("host").non_empty().done().field("port").range_i64(1, 65535).done()
}

fn app_schema() -> Schema {
    Schema::new()
        .field("name")
        .non_empty()
        .done()
        .field("workers")
        .range_i64(1, 1024)
        .done()
        .field("log_level")
        .one_of(&["trace", "debug", "info", "warn", "error"])
        .done()
        .section("server", server_schema())
}

#[test]
fn valid_config_passes() {
    let toml = "\nname = \"demo\"\nworkers = 8\nlog_level = \"info\"\n[server]\nhost = \"localhost\"\nport = 8080\n";
    assert!(app_schema().validate_str(toml).is_ok());
}

#[test]
fn collects_all_errors() {
    let toml = "\nname = \"\"\nworkers = 0\nlog_level = \"verbose\"\n[server]\nhost = \"\"\nport = 0\n";
    let errs = app_schema().validate_str(toml).unwrap_err();
    assert_eq!(errs.len(), 5);
}

#[test]
fn nested_section_paths_are_prefixed() {
    let toml = "name = \"ok\"\nworkers = 4\nlog_level = \"info\"\n[server]\nhost = \"\"\nport = 8080\n";
    let errs = app_schema().validate_str(toml).unwrap_err();
    let locs: Vec<String> = errs.errors().iter().map(|e| e.loc.to_string()).collect();
    assert!(locs.contains(&"server.host".to_string()));
}

#[test]
fn fitness_reflects_partial_pass() {
    let toml = "name = \"ok\"\nworkers = 0\nlog_level = \"info\"\n[server]\nhost = \"h\"\nport = 8080\n";
    let errs = app_schema().validate_str(toml).unwrap_err();
    let (passed, run) = errs.fitness();
    let ratio = passed as f64 / run as f64;
    assert!(ratio > 0.0 && ratio < 1.0);
    assert_eq!((passed, run), (4, 5));
}

#[test]
fn variant_id_stable_across_equal_error_patterns() {
    let toml = "name = \"\"\nworkers = 1\nlog_level = \"info\"\n[server]\nhost = \"h\"\nport = 80\n";
    let id1 = app_schema().validate_str(toml).unwrap_err().variant_id();
    let id2 = app_schema().validate_str(toml).unwrap_err().variant_id();
    assert_eq!(id1, id2);
}

#[test]
fn parse_error_produces_fatal_error() {
    let errs = Schema::new().validate_str("not valid toml :::").unwrap_err();
    assert!(errs.errors()[0].is_fatal());
    assert_eq!(errs.errors()[0].code(), "parse_error");
}

#[test]
fn one_of_constraint() {
    let schema = Schema::new().field("level").one_of(&["info", "warn", "error"]).done();
    assert!(schema.validate_str("level = \"info\"").is_ok());
    let errs = schema.validate_str("level = \"verbose\"").unwrap_err();
    assert_eq!(errs.errors()[0].code(), "not_one_of");
}

#[test]
fn by_section_grouping_works_on_schema_errors() {
    let toml = "name = \"\"\nworkers = 0\nlog_level = \"info\"\n[server]\nhost = \"\"\nport = 8080\n";
    let errs = app_schema().validate_str(toml).unwrap_err();
    let by_sec = errs.by_section();
    let keys: Vec<&str> = by_sec.iter().map(|(k, _)| k.as_str()).collect();
    assert!(keys.contains(&"name"));
    assert!(keys.contains(&"workers"));
    assert!(keys.contains(&"server"));
}

#[test]
fn missing_required_field_is_reported() {
    let schema = Schema::new().field("name").required().done();
    let errs = schema.validate_str("other = 1\n").unwrap_err();
    assert_eq!(errs.len(), 1);
    assert_eq!(errs.errors()[0].code(), "missing");
    assert_eq!(errs.errors()[0].loc.to_string(), "name");
}

#[test]
fn absent_field_is_read_as_zero_by_a_range() {
    let schema = Schema::new().field("port").range_i64(1, 10).done();
    let errs = schema.validate_str("name = \"x\"\n").unwrap_err();
    assert_eq!(errs.errors()[0].code(), "out_of_range");
    assert_eq!(errs.errors()[0].input.as_deref(), Some("0"));
    assert_eq!(errs.errors()[0].msg, "input must be in range 1..=10");
}

#[test]
fn range_boundaries_are_inclusive() {
    let schema = Schema::new().field("port").range_i64(1, 10).done();
    assert!(schema.validate_str("port = 1").is_ok());
    assert!(schema.validate_str("port = 10").is_ok());
    let errs = schema.validate_str("port = 11").unwrap_err();
    assert_eq!(errs.errors()[0].code(), "out_of_range");
    assert_eq!(errs.errors()[0].severity, Severity::Error);
}

#[test]
fn schema_counts_its_constraints() {
    assert_eq!(app_schema().constraint_count(), 5);
    assert_eq!(Schema::new().constraint_count(), 0);
    let s = Schema::new()
        .field("port")
        .required()
        .range_i64(1, 65535)
        .done()
        .section("db", Schema::new().field("host").non_empty().done());
    assert_eq!(s.constraint_count(), 2);
}

#[test]
fn missing_section_reports_each_of_its_fields() {
    let toml = "name = \"demo\"\nworkers = 8\nlog_level = \"info\"\n";
    let errs = app_schema().validate_str(toml).unwrap_err();
    let locs: Vec<String> = errs.errors().iter().map(|e| e.loc.to_string()).collect();
    assert_eq!(locs, vec!["server.host".to_string(), "server.port".to_string()]);
    assert_eq!(errs.checks_run(), 5);
}
