//! Diagnostics, ANDON signal and telemetry of the editor analysis.

use star_toml::lsp::analyzer::StarTomlDocumentAnalyzer;
use star_toml::lsp::diagnostics::{
    document_start, invalid_toml, DUPLICATE_KEY, INVALID_TOML, OCEL_NOT_STANDING, PATH_TRAVERSAL,
    Q_CONFIG_AUTHORITY, RELATIVE_ONLY_ABSOLUTE,
};
use star_toml::lsp::gate::{gate_path, gate_text, GateState};
use star_toml::lsp::protocol::DiagnosticSeverity;
use star_toml::lsp::symbols::SymbolKind;
use star_toml::lsp::actions::code_actions;

fn make_analyzer(toml: &str) -> StarTomlDocumentAnalyzer {
    StarTomlDocumentAnalyzer::new("file:///tmp/test.toml".to_string(), toml.to_owned())
}

fn has_code(a: &StarTomlDocumentAnalyzer, code: &str) -> bool {
    a.diagnostics().iter().any(|d| d.code.as_deref() == Some(code))
}

fn diags_with_code(a: &StarTomlDocumentAnalyzer, code: &str) -> usize {
    a.diagnostics().iter().filter(|d| d.code.as_deref() == Some(code)).count()
}

#[test]
fn test_invalid_toml_diagnostic() {
    let a = make_analyzer("this is not [valid toml");
    assert!(has_code(&a, INVALID_TOML), "expected invalid_toml diagnostic");
}

#[test]
fn test_valid_toml_no_parse_error() {
    let a = make_analyzer("name = \"project\"\nversion = \"1.0.0\"\n");
    assert!(!has_code(&a, INVALID_TOML));
}

#[test]
fn test_duplicate_key_diagnostic() {
    let a = make_analyzer("port = 8080\nport = 9090\n");
    let caught = has_code(&a, DUPLICATE_KEY) || has_code(&a, INVALID_TOML);
    assert!(caught, "expected duplicate key to be caught as DUPLICATE_KEY or INVALID_TOML");
}

#[test]
fn test_no_false_positive_on_unique_keys() {
    let a = make_analyzer("host = \"localhost\"\nport = 8080\n");
    assert_eq!(diags_with_code(&a, DUPLICATE_KEY), 0);
}

#[test]
fn test_path_traversal_diagnostic_unix() {
    let a = make_analyzer(r#"config_path = "../secret/config.toml""#);
    assert!(has_code(&a, PATH_TRAVERSAL), "expected path_traversal_detected diagnostic");
}

#[test]
fn test_path_traversal_diagnostic_windows_separator() {
    let a = make_analyzer(r#"config_path = "foo\\..\\secret""#);
    assert!(has_code(&a, PATH_TRAVERSAL), "expected path_traversal_detected for backslash traversal");
}

#[test]
fn test_path_traversal_nested_unix() {
    let a = make_analyzer(r#"data = "foo/../../etc/passwd""#);
    assert!(has_code(&a, PATH_TRAVERSAL));
}

#[test]
fn test_safe_relative_path_no_traversal() {
    let a = make_analyzer(r#"config_path = "configs/app.toml""#);
    assert!(!has_code(&a, PATH_TRAVERSAL));
}

#[test]
fn test_relative_only_absolute_path_diagnostic() {
    let a = make_analyzer(r#"config_path = "/etc/app/config.toml""#);
    let has_warn = a.diagnostics().iter().any(|d| {
        d.code.as_deref() == Some(RELATIVE_ONLY_ABSOLUTE)
            && d.severity == Some(DiagnosticSeverity::Warning)
    });
    assert!(has_warn, "expected relative_only_escape warning for absolute path");
}

#[test]
fn test_ocel_not_standing_hover_or_diagnostic() {
    let toml = "\n# This config references ocel_standing = true\nocel_standing = true\n";
    let a = make_analyzer(toml);
    assert!(has_code(&a, OCEL_NOT_STANDING), "expected ocel_history_not_standing advisory");
}

#[test]
fn test_q_config_authority_note() {
    let a = make_analyzer(r#"q_config = "granted""#);
    assert!(
        has_code(&a, Q_CONFIG_AUTHORITY),
        "expected q_config_requires_witness_and_failset_zero advisory"
    );
}

#[test]
fn test_array_of_tables_no_false_positive_parse_error() {
    let toml = "\n[[server]]\nhost = \"a.example.com\"\nport = 443\n\n[[server]]\nhost = \"b.example.com\"\nport = 8443\n";
    let a = make_analyzer(toml);
    assert!(!has_code(&a, INVALID_TOML), "valid array of tables should not error");
}

#[test]
fn test_gate_file_sets_andon_on_error() {
    let diags = vec![invalid_toml(document_start(), "bad syntax")];
    let state = GateState::from_diagnostics(&diags);
    assert!(state.andon);
    assert_eq!(state.errors, 1);
    let content = gate_text(&state);
    assert!(content.contains("ANDON=1"));
    assert!(content.contains("errors=1"));
    assert_eq!(gate_path("/work"), "/work/.star-toml/lsp.gate");
}

#[test]
fn test_gate_file_clears_andon_on_clean_file() {
    let state = GateState::from_diagnostics(&[]);
    assert!(!state.andon);
    let content = gate_text(&state);
    assert!(content.contains("ANDON=0"));
    assert!(content.contains("errors=0"));
}

#[test]
fn gate_counts_warnings_without_raising_andon() {
    let a = make_analyzer(r#"config_path = "/etc/app/config.toml""#);
    let state = GateState::from_diagnostics(&a.diagnostics());
    assert!(!state.andon);
    assert_eq!(state.errors, 0);
    assert_eq!(state.warnings, 1);
    assert_eq!(state.diagnostics, 1);
}

#[test]
fn invalid_toml_diagnostic_points_at_the_parse_error() {
    let a = make_analyzer("a = 1\nb = [\n");
    let d = a.diagnostics().into_iter().find(|d| d.code.as_deref() == Some(INVALID_TOML)).unwrap();
    assert_eq!(d.severity, Some(DiagnosticSeverity::Error));
    assert!(d.message.starts_with("TOML parse error: "));
    assert!(d.range.start.line >= 1);
}

#[test]
fn document_symbols_outline_is_sorted_and_nested() {
    let a = make_analyzer("name = \"svc\"\n[server]\nport = 8080\nhost = \"h\"\n");
    let syms = a.document_symbols();
    let names: Vec<&str> = syms.iter().map(|s| s.name.as_str()).collect();
    assert_eq!(names, vec!["name", "server"]);
    assert_eq!(syms[0].kind, SymbolKind::String);
    assert_eq!(syms[0].detail.as_deref(), Some("string"));
    assert_eq!(syms[0].range.start.line, 0);
    let server = &syms[1];
    assert_eq!(server.kind, SymbolKind::Object);
    let children = server.children.as_ref().unwrap();
    let child_names: Vec<&str> = children.iter().map(|s| s.name.as_str()).collect();
    assert_eq!(child_names, vec!["host", "port"]);
    assert_eq!(children[1].kind, SymbolKind::Number);
    assert_eq!(children[1].detail.as_deref(), Some("integer"));
    assert_eq!(children[1].range.start.line, 2);
    assert!(children[1].children.is_none());
}

#[test]
fn document_symbols_of_array_of_tables() {
    let a = make_analyzer("[[workers]]\nname = \"a\"\n\n[[workers]]\nname = \"b\"\n");
    let syms = a.document_symbols();
    assert_eq!(syms.len(), 1);
    assert_eq!(syms[0].name, "workers");
    assert_eq!(syms[0].kind, SymbolKind::Array);
    assert!(syms[0].children.is_none());
}

#[test]
fn document_symbols_empty_when_unparsed() {
    let a = make_analyzer("this is not [valid toml");
    assert!(a.document_symbols().is_empty());
}

#[test]
fn code_actions_offer_quick_fixes_for_known_codes() {
    let a = make_analyzer("data = \"../x\"\nq_config = \"granted\"\nabs = \"/etc/app\"\n");
    let diags = a.diagnostics();
    assert_eq!(diags.len(), 3);
    let actions = code_actions(&diags);
    let titles: Vec<&str> = actions.iter().map(|x| x.title.as_str()).collect();
    assert_eq!(titles, vec!["Remove path traversal sequence", "Convert to relative path"]);
    for x in &actions {
        assert_eq!(x.kind, "quickfix");
        assert!(x.is_preferred);
        assert_eq!(x.diagnostics.len(), 1);
    }
    assert_eq!(actions[0].diagnostics[0].code.as_deref(), Some(PATH_TRAVERSAL));
    let bad = make_analyzer("not [valid");
    assert_eq!(code_actions(&bad.diagnostics())[0].title, "Fix TOML syntax");
}
