use struct_tree::search::{MatchMode, SearchError};

#[test]
fn glob_matches_whole_name() {
    let m = MatchMode::build("*.py").unwrap();
    assert!(matches!(m, MatchMode::Glob(_)));
    assert!(m.is_match("script.py"));
    assert!(m.is_match("SCRIPT.PY"));
    assert!(!m.is_match("script.pyc"));
}

#[test]
fn substring_matches_without_case() {
    let m = MatchMode::build("gui").unwrap();
    assert!(matches!(m, MatchMode::Substring(ref n) if n == "gui"));
    assert!(m.is_match("MyGuiApp"));
    assert!(m.is_match("GUI"));
    assert!(!m.is_match("widget"));
}

#[test]
fn question_mark_matches_one_character() {
    let m = MatchMode::build("a?c").unwrap();
    assert!(m.is_match("abc"));
    assert!(!m.is_match("ac"));
    assert!(!m.is_match("abbc"));
}

#[test]
fn glob_escapes_other_metacharacters() {
    let m = MatchMode::build("v1.0+*").unwrap();
    assert!(m.is_match("v1.0+beta"));
    assert!(!m.is_match("v1x0+beta"));
    let m = MatchMode::build("(draft)*").unwrap();
    assert!(m.is_match("(draft) notes"));
}

#[test]
fn substring_uppercase_term() {
    let m = MatchMode::build("README").unwrap();
    assert!(m.is_match("readme.md"));
}

#[test]
fn empty_pattern_is_rejected() {
    assert!(matches!(MatchMode::build(""), Err(SearchError::EmptyPattern)));
}
