use ctxctl::deps::{
    classify, existence_candidates, glob_match, is_ignored, normalize, relative_target, resolve,
    CandidateHits, DepKind,
};
use ctxctl::imports::Import;

#[test]
fn normalize_resolves_dot_segments() {
    assert_eq!(normalize("a/./b"), "a/b");
    assert_eq!(normalize("a/b/../c"), "a/c");
    assert_eq!(normalize("//x//"), "x");
    assert_eq!(normalize("../a"), "a");
}

#[test]
fn is_ignored_matches_segments_and_slash_patterns() {
    let ignore = vec![
        "node_modules".to_string(),
        "src/vendor/*".to_string(),
        "gen?.ts".to_string(),
    ];
    assert!(is_ignored("a/node_modules/b", &ignore));
    assert!(is_ignored("src/vendor/helper", &ignore));
    assert!(is_ignored("pkgs/genX.ts", &ignore));
    assert!(!is_ignored("a/targetless/b", &ignore));
    assert!(!is_ignored("src/vendorous/helper", &ignore));
}

fn mk(target: &str) -> Import {
    Import {
        target: target.to_string(),
        relative: true,
        line: 1,
        byte_range: 0..1,
    }
}

#[test]
fn relative_target_expands_python_dots() {
    assert_eq!(relative_target(&mk("./x")), "./x");
    assert_eq!(relative_target(&mk("../y")), "../y");
    assert_eq!(relative_target(&mk(".")), "");
    // Leading dots become `..` jumps; the remainder stays one component.
    assert_eq!(relative_target(&mk("..pkg.mod")), "../pkg.mod");
    assert_eq!(relative_target(&mk("plain")), "plain");
}

#[test]
fn existence_candidates_shapes_per_language() {
    assert_eq!(
        existence_candidates("python", "os"),
        vec![
            "os".to_string(),
            "os.py".to_string(),
            "os/__init__.py".to_string(),
            "os.pyi".to_string(),
        ]
    );
    assert_eq!(
        existence_candidates("go", "a/b"),
        vec!["a/b".to_string(), "a/b.go".to_string()]
    );
    assert!(existence_candidates("rust", "x").is_empty());
}

#[test]
fn glob_star_crosses_segments_and_question_matches_one() {
    assert!(glob_match("a*c", "abbbc"));
    assert!(glob_match("a*c", "a/b/c"));
    assert!(glob_match("a?c", "abc"));
    assert!(!glob_match("a?c", "ac"));
    assert!(glob_match("*", ""));
    assert!(!glob_match("", "x"));
    // Adversarial patterns stay polynomial.
    let text = "a".repeat(60);
    assert!(!glob_match("*a*a*a*a*a*a*a*a*a*a*b", &text));
}

#[test]
fn dotted_go_package_extension_is_replaced() {
    assert_eq!(
        existence_candidates("go", "gopkg.in/yaml.v2"),
        vec!["gopkg.in/yaml.v2".to_string(), "gopkg.in/yaml.go".to_string()]
    );
    assert_eq!(
        existence_candidates("java", "com.example.Util"),
        vec!["com/example/Util".to_string(), "com/example/Util.java".to_string()]
    );
}

#[test]
fn classify_covers_every_kind() {
    let none = CandidateHits { at_root: false };
    let ignore = vec!["vendor".to_string()];
    let mods = vec!["config".to_string()];
    let rel = mk("./vendor/x");
    assert_eq!(classify(&rel, "javascript", "src", &ignore, &mods, none), DepKind::Ignored);
    assert_eq!(classify(&mk("./lib"), "javascript", "src", &ignore, &mods, none), DepKind::Local);
    let mut bare = mk("config::Loader");
    bare.relative = false;
    assert_eq!(classify(&bare, "rust", "", &ignore, &mods, none), DepKind::Local);
    let mut os = mk("os");
    os.relative = false;
    let root = CandidateHits { at_root: true };
    assert_eq!(classify(&os, "python", "", &ignore, &mods, root), DepKind::Local);
    assert_eq!(classify(&os, "python", "", &ignore, &mods, none), DepKind::External);
}

#[test]
fn resolve_collects_rust_mod_declarations() {
    let mut use_decl = mk("helpers::run");
    use_decl.relative = false;
    use_decl.byte_range = 10..30;
    let imports = vec![mk("helpers"), use_decl];
    let out = resolve(&imports, "rust", "", &[], &[]);
    assert_eq!(out.len(), 2);
    assert_eq!(out[1].kind, DepKind::Local);
    assert_eq!(out[1].bytes, 20);
    assert_eq!(out[1].target, "helpers::run");
}
