use ctxctl::signature::clean_signature;

#[test]
fn strips_trailing_continuation_delimiters() {
    assert_eq!(clean_signature("pub fn run_exec("), "pub fn run_exec");
    assert_eq!(clean_signature("struct Cli {"), "struct Cli");
    assert_eq!(
        clean_signature("fn main() -> ExitCode {"),
        "fn main() -> ExitCode"
    );
    assert_eq!(clean_signature("mod config;"), "mod config");
    assert_eq!(clean_signature("def validate(cfg):"), "def validate(cfg)");
    assert_eq!(clean_signature("const f = (x) =>"), "const f = (x)");
    assert_eq!(
        clean_signature("pub fn add(a: i32, b: i32) -> i32 {"),
        "pub fn add(a: i32, b: i32) -> i32"
    );
}

#[test]
fn skips_attribute_and_decorator_lines() {
    assert_eq!(
        clean_signature("#[derive(Debug)]\npub struct Config {"),
        "pub struct Config"
    );
    assert_eq!(clean_signature("@dataclass\nclass Point:"), "class Point");
}

#[test]
fn drops_trailing_comments_and_collapses_whitespace() {
    assert_eq!(
        clean_signature("pub  fn   foo() { // does things"),
        "pub fn foo()"
    );
    assert_eq!(
        clean_signature("const URL = \"https://example.com\";"),
        "const URL = \"https://example.com\""
    );
}

#[test]
fn caps_long_signatures() {
    let sig = clean_signature(&format!("fn very_long_name{}(", "x".repeat(300)));
    assert!(sig.ends_with('…'));
    assert!(sig.chars().count() <= 120);
}

#[test]
fn cjk_signatures_cap_by_chars_not_bytes() {
    // 100 CJK chars are 300 bytes: a byte-based cap would truncate this
    // to ~40 chars; the cap counts characters, so it is kept whole.
    let sig = clean_signature(&"汉".repeat(100));
    assert_eq!(sig.chars().count(), 100);
    assert!(!sig.contains('…'));
}

#[test]
fn truncation_still_caps_cjk_at_max_chars() {
    let sig = clean_signature(&format!("fn f() {{ {} }}", "汉".repeat(200)));
    assert_eq!(sig.chars().count(), 120);
    assert!(sig.ends_with('…'));
}
