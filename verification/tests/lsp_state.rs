//! The open documents of an editor session.

use star_toml::lsp::diagnostics::{INVALID_TOML, PATH_TRAVERSAL};
use star_toml::lsp::gate::GateState;
use star_toml::lsp::state::ServerState;

#[test]
fn open_change_close_track_documents() {
    let mut s = ServerState::new("/work".to_string());
    let d = s.open("file:///a.toml".to_string(), "name = \"x\"\n".to_string());
    assert!(d.is_empty());
    assert_eq!(s.analyzers.len(), 1);

    let d = s.change("file:///a.toml", "data = \"../x\"\n".to_string());
    assert_eq!(d.len(), 1);
    assert_eq!(d[0].code.as_deref(), Some(PATH_TRAVERSAL));
    assert_eq!(s.analyzers.len(), 1);
    let text = s.with_analyzer("file:///a.toml", |a| a.text.clone());
    assert_eq!(text.as_deref(), Some("data = \"../x\"\n"));

    let d = s.change("file:///b.toml", "not [valid".to_string());
    assert_eq!(d[0].code.as_deref(), Some(INVALID_TOML));
    assert_eq!(s.analyzers.len(), 2);
    assert!(GateState::from_diagnostics(&d).andon);

    s.close("file:///a.toml");
    assert!(s.with_analyzer("file:///a.toml", |a| a.text.len()).is_none());
    assert!(s.with_analyzer("file:///b.toml", |a| a.text.len()).is_some());
    s.close("file:///missing.toml");
    assert_eq!(s.analyzers.len(), 1);
    assert_eq!(s.workspace_root, "/work");
}

#[test]
fn reopening_replaces_the_analysis() {
    let mut s = ServerState::new("/w".to_string());
    s.open("u".to_string(), "a = 1\n".to_string());
    s.open("u".to_string(), "a = 2\n".to_string());
    assert_eq!(s.analyzers.len(), 1);
    assert_eq!(s.with_analyzer("u", |a| a.text.clone()).unwrap(), "a = 2\n");
}
