use ctxctl::lang::{detect_language, is_definition, Lang};
use ctxctl::symbol::SymbolKind;

#[test]
fn definition_kinds_follow_the_language_tables() {
    assert_eq!(is_definition(Lang::Rust, "function_item"), Some(SymbolKind::Function));
    assert_eq!(is_definition(Lang::Rust, "static_item"), Some(SymbolKind::Variable));
    assert_eq!(is_definition(Lang::Rust, "call_expression"), None);
}

#[test]
fn languages_are_detected_by_extension() {
    assert_eq!(detect_language("src/main.rs"), Some(Lang::Rust));
    assert_eq!(detect_language("README.md"), Some(Lang::Markdown));
    assert_eq!(detect_language("Makefile"), None);
}
