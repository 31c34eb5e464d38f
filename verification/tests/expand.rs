//! `${VAR}` and `$VAR` expansion from an environment snapshot.

use star_toml::env::{expand_env_vars, EnvSnapshot};

fn env(pairs: &[(&str, &str)]) -> EnvSnapshot {
    EnvSnapshot::new(pairs.iter().map(|(k, v)| (k.to_string(), v.to_string())).collect())
}

#[test]
fn braced_var_known() {
    let e = env(&[("STAR_TOML_TEST_BRACED", "hello")]);
    let out = expand_env_vars("prefix_${STAR_TOML_TEST_BRACED}_suffix", &e);
    assert_eq!(out, "prefix_hello_suffix");
}

#[test]
fn bare_var_known() {
    let e = env(&[("STAR_TOML_TEST_BARE", "world")]);
    let out = expand_env_vars("val=$STAR_TOML_TEST_BARE", &e);
    assert_eq!(out, "val=world");
}

#[test]
fn braced_var_unknown_left_intact() {
    let out = expand_env_vars("${STAR_TOML_DEFINITELY_NOT_SET_XYZ}", &EnvSnapshot::empty());
    assert_eq!(out, "${STAR_TOML_DEFINITELY_NOT_SET_XYZ}");
}

#[test]
fn bare_var_unknown_left_intact() {
    let out = expand_env_vars("$STAR_TOML_DEFINITELY_NOT_SET_ABC", &EnvSnapshot::empty());
    assert_eq!(out, "$STAR_TOML_DEFINITELY_NOT_SET_ABC");
}

#[test]
fn lone_dollar_preserved() {
    assert_eq!(expand_env_vars("price: $5.00", &EnvSnapshot::empty()), "price: $5.00");
}

#[test]
fn dollar_at_end_preserved() {
    assert_eq!(expand_env_vars("foo$", &EnvSnapshot::empty()), "foo$");
}

#[test]
fn utf8_passthrough_unmodified() {
    let input = "# 日本語コメント\nname = \"München\"";
    let out = expand_env_vars(input, &EnvSnapshot::empty());
    assert_eq!(out, input);
}

#[test]
fn multiple_expansions() {
    let e = env(&[("STAR_A", "foo"), ("STAR_B", "bar")]);
    let out = expand_env_vars("${STAR_A}-${STAR_B}", &e);
    assert_eq!(out, "foo-bar");
}

#[test]
fn no_dollar_returns_input_unchanged() {
    let input = "name = \"ggen\"\nversion = \"1.0.0\"\n";
    assert_eq!(expand_env_vars(input, &EnvSnapshot::empty()), input);
}

#[test]
fn test_t1_09_env_var_expansion_empty() {
    let e = env(&[("EMPTY", "")]);
    assert_eq!(expand_env_vars("host = \"$EMPTY\"", &e), "host = \"\"");
    assert_eq!(expand_env_vars("host = \"${EMPTY}\"", &e), "host = \"\"");
}

#[test]
fn test_t1_10_env_var_expansion_sequential() {
    let e = env(&[("A", "foo"), ("B", "bar"), ("C", "baz")]);
    assert_eq!(expand_env_vars("val = \"$A${B}$C\"", &e), "val = \"foobarbaz\"");
}

#[test]
fn test_t1_11_env_var_expansion_utf8() {
    let e = env(&[("NAME", "Müller")]);
    assert_eq!(expand_env_vars("greeting = \"Hallo $NAME!\"", &e), "greeting = \"Hallo Müller!\"");
}

#[test]
fn test_t2_10_env_expansion_long_stress() {
    let long_val = "a".repeat(10_000);
    let e = EnvSnapshot::new(vec![("LONG".to_string(), long_val.clone())]);
    let val = expand_env_vars("host = \"$LONG\"", &e);
    assert_eq!(val, format!("host = \"{}\"", long_val));
}

#[test]
fn test_t2_08_env_expansion_unclosed_brace() {
    let val = expand_env_vars("host = \"${UNCLOSED\"", &EnvSnapshot::empty());
    assert_eq!(val, "host = \"${UNCLOSED\"}");
}

#[test]
fn test_t2_09_env_expansion_nested() {
    let e = env(&[("SUB", "KEY"), ("VAR_KEY", "value")]);
    let val = expand_env_vars("host = \"${VAR_${SUB}}\"", &e);
    assert_eq!(val, "host = \"${VAR_${SUB}}\"");
}

#[test]
fn expansion_uses_first_binding() {
    let e = env(&[("X", "first"), ("X", "second")]);
    assert_eq!(expand_env_vars("$X", &e), "first");
}
