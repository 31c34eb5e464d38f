//! The editor analysis stays advisory: it reports on admission and on the
//! quality score, and never grants either.

use star_toml::lsp::analyzer::StarTomlDocumentAnalyzer;
use star_toml::lsp::diagnostics::{OCEL_NOT_STANDING, Q_CONFIG_AUTHORITY};
use star_toml::lsp::protocol::DiagnosticSeverity;

fn analyze(text: &str) -> StarTomlDocumentAnalyzer {
    StarTomlDocumentAnalyzer::new("file:///tmp/test.toml".to_string(), text.to_string())
}

#[test]
fn test_no_tower_lsp_dependency() {
    // The analysis runs on the library's own protocol values, with no
    // server transport at all.
    let a = analyze("name = \"project\"\nversion = \"1.0.0\"\n");
    assert!(a.diagnostics().is_empty());
    assert!(a.parsed.is_some());
}

#[test]
fn test_lsp_does_not_compute_q_config() {
    let a = analyze("q_config = \"granted\"\nocel_standing = true\nadmitted = \"AdmittedConfig { }\"\n");
    let diags = a.diagnostics();
    assert!(!diags.is_empty());
    for d in &diags {
        assert_eq!(d.severity, Some(DiagnosticSeverity::Information), "only advisory notes");
        let code = d.code.clone().unwrap();
        assert!(code == Q_CONFIG_AUTHORITY || code == OCEL_NOT_STANDING, "unexpected code {code}");
    }
    assert!(diags.iter().any(|d| d.message.contains("cannot grant")));
}
