//! Error values, their messages, repair hints and reports.

use star_toml::admission::canonical_toml;
use star_toml::env::EnvSnapshot;
use star_toml::error::Error;
use star_toml::loader::{Loader, SourceRead};
use star_toml::validation::{ErrorKind, Loc, LocSegment, Severity, ValidationError, Validate, Validator};
use star_toml::value::TomlValue;

fn err(kind: ErrorKind, msg: &str) -> ValidationError {
    ValidationError {
        loc: Loc::new(vec![LocSegment::Key("a".to_string()), LocSegment::Index(2)]),
        kind,
        severity: Severity::Error,
        input: Some("x".to_string()),
        msg: msg.to_string(),
    }
}

#[test]
fn unreadable_file_is_an_io_error() {
    let reads = vec![SourceRead::Unreadable { path: "/d/a.toml".to_string(), message: "denied".to_string() }];
    let res = Loader::new().layer_file("/d/a.toml").merge_layers(&reads, "/", &EnvSnapshot::new(vec![]));
    match res {
        Err(e @ Error::Io { .. }) => assert_eq!(e.to_string(), "I/O error reading /d/a.toml: denied"),
        _ => panic!("expected an I/O error"),
    }
}

#[test]
fn unrenderable_tree_is_a_serialize_error() {
    let tree = TomlValue::Table(vec![("x".to_string(), TomlValue::Float("not-a-number".to_string()))]);
    assert!(matches!(canonical_toml(&tree), Err(Error::Serialize(_))));
}

#[test]
fn error_messages() {
    assert_eq!(Error::FileNotFound("a.toml".into()).to_string(), "config file not found: a.toml");
    assert_eq!(Error::parse("a.toml", "bad").to_string(), "TOML parse error in a.toml: bad");
    assert_eq!(Error::io("a.toml", "gone").to_string(), "I/O error reading a.toml: gone");
    assert_eq!(Error::Serialize("x".into()).to_string(), "TOML serialize error: x");
    assert_eq!(Error::validation("Cfg", "no").to_string(), "validation failed for Cfg: no");
}

#[test]
fn report_text_lists_every_error() {
    struct Two;
    impl Validate for Two {
        fn validate(&self, v: &mut Validator) {
            v.check_non_empty("name", "");
            v.with_severity(Severity::Warning, |v| v.check_range("port", 0, 1, 2));
        }
    }
    let mut errs = Two.check().unwrap_err();
    errs.set_title("Cfg");
    assert_eq!(
        Error::Invalid(errs).to_string(),
        "2 validation errors for Cfg\nname\n  must not be empty (got: `\"\"`) [empty]\nport\n  input must be in range 1..=2 (got: `0`) [out_of_range] <warning>"
    );
}

#[test]
fn located_error_text() {
    let e = err(ErrorKind::Empty, "must not be empty");
    assert_eq!(e.loc.to_string(), "a[2]");
    assert_eq!(e.to_string(), "a[2]\n  must not be empty (got: `x`) [empty]");
    assert_eq!(Loc::root().to_string(), "(root)");
}

#[test]
fn repair_hints_follow_the_kind() {
    assert_eq!(err(ErrorKind::Empty, "m").repair_hint(), "provide a non-empty value");
    assert_eq!(err(ErrorKind::Missing, "m").repair_hint(), "add this required field");
    let r = ErrorKind::OutOfRange { lower: Some("1".into()), upper: Some("9".into()) };
    assert_eq!(err(r, "m").repair_hint(), "use a value in the range 1..=9");
    let r = ErrorKind::OutOfRange { lower: None, upper: None };
    assert_eq!(err(r, "m").repair_hint(), "use a value within the required range");
    let k = ErrorKind::NotOneOf { allowed: vec!["a".into(), "b".into()] };
    assert_eq!(err(k, "m").repair_hint(), "choose one of: a, b");
    let k = ErrorKind::TooShort { min: 3, actual: 1 };
    assert_eq!(err(k, "m").repair_hint(), "provide at least 3 items/characters");
    let k = ErrorKind::TooLong { max: 4, actual: 9 };
    assert_eq!(err(k, "m").repair_hint(), "use at most 4 items/characters");
    let k = ErrorKind::Inconsistent { related: vec!["x".into()], code: "c" };
    assert_eq!(err(k, "m").repair_hint(), "ensure this field is consistent with: x");
    assert_eq!(err(ErrorKind::Predicate { code: "p" }, "fix it").repair_hint(), "fix it");
}

#[test]
fn severities_are_ranked() {
    assert!(Severity::Fatal.at_least(Severity::Error));
    assert!(!Severity::Warning.at_least(Severity::Error));
    assert_eq!(Severity::Warning.code(), "warning");
    let mut v = Validator::new();
    v.with_severity(Severity::Fatal, |v| v.error(ErrorKind::Missing, "fatal"));
    let errs = v.finish().unwrap_err();
    assert!(errs.has_fatal());
    assert_eq!(errs.errors_above(Severity::Error).len(), 1);
    assert_eq!(errs.errors()[0].severity, Severity::Fatal);
}
