//! Hover, completion and tokens of the editor analysis; digests.

use star_toml::digest::{blake3_hex, blake3_hex_str, fnv1a, utf8_bytes};
use star_toml::lsp::analyzer::{token_at, truncate, StarTomlDocumentAnalyzer};

fn analyzer(text: &str) -> StarTomlDocumentAnalyzer {
    StarTomlDocumentAnalyzer::new("file:///t.toml".to_string(), text.to_string())
}

#[test]
fn hover_describes_the_key_under_the_cursor() {
    let a = analyzer("[server]\nport = 8080\n");
    let h = a.hover_at_checked(1, 1).unwrap();
    assert_eq!(
        h.contents,
        "**`port`** — *integer* in `[server]`\n\n```toml\nport = 8080\n```\n\n> star-toml-lsp: diagnostics only — does not grant q_config standing."
    );
    let root = analyzer("name = \"svc\"\n");
    let h = root.hover_at_checked(0, 2).unwrap();
    assert!(h.contents.starts_with("**`name`** — *string* in `document root`"));
    assert!(h.contents.contains("name = \"svc\""));
    assert!(root.hover_at_checked(0, 6).is_none());
}

#[test]
fn completion_lists_the_keys_of_the_current_table() {
    let a = analyzer("[db]\nport = 1\nhost = \"h\"\n");
    let items = a.completion_at(2, 0);
    let labels: Vec<&str> = items.iter().map(|i| i.label.as_str()).collect();
    assert_eq!(labels, vec!["host", "port"]);
    assert_eq!(items[0].detail.as_deref(), Some("key in [db]"));
    let root = a.completion_at(0, 0);
    let labels: Vec<&str> = root.iter().map(|i| i.label.as_str()).collect();
    assert_eq!(labels, vec!["db"]);
}

#[test]
fn tokens_are_identifier_runs() {
    assert_eq!(token_at("some-key_2 = 1", 0, 3).as_deref(), Some("some-key_2"));
    assert_eq!(token_at("a = bé", 0, 4).as_deref(), Some("bé"));
    assert_eq!(token_at("a = 1", 0, 2), None);
    assert_eq!(token_at("a = 1", 5, 0), None);
}

#[test]
fn truncation_marks_long_previews() {
    assert_eq!(truncate("abcdef", 3), "abc…");
    assert_eq!(truncate("abc", 3), "abc");
}

#[test]
fn blake3_digests_are_the_reference_values() {
    assert_eq!(blake3_hex(b""), "af1349b9f5f9a1a6a0404dea36dcc9499bcb25c9adc112b7cc9a93cae41f3262");
    assert_eq!(blake3_hex_str("abc"), "6437b3ac38465133ffb63b75273a8db548c558465d79db03fd359c6cd5bd9d85");
    assert_eq!(utf8_bytes("é"), vec![0xc3, 0xa9]);
}

#[test]
fn fnv1a_matches_the_reference_values() {
    assert_eq!(fnv1a(b""), 0xcbf29ce484222325);
    assert_eq!(fnv1a(b"a"), 0xaf63dc4c8601ec8c);
}
