use ctxctl::outline::outline;
use ctxctl::suggest::{mini_outline, ranked_suggestions};
use ctxctl::tools::{available_tools, usage_hint};

#[test]
fn usage_hints_are_built_from_the_argument_table() {
    assert_eq!(
        usage_hint("ctxctl_read"),
        "expected: {\"file\": \"<workspace-relative or absolute path under workspace>\", \"lines\": \"<string>\"}"
    );
    assert_eq!(
        usage_hint("ctxctl_outline"),
        "expected: {\"file\": \"<workspace-relative or absolute path under workspace>\", \"no_doc\": <boolean>, \"no_lines\": <boolean>}"
    );
    assert_eq!(
        usage_hint("ctxctl_exec"),
        "expected: {\"cmd\": \"<command line>\", \"keep\": [\"<string>\"], \"head\": <integer>, \"tail\": <integer>}"
    );
}

#[test]
fn available_tools_lists_registry_in_deterministic_order() {
    assert_eq!(
        available_tools(),
        "ctxctl_deps, ctxctl_exec, ctxctl_outline, ctxctl_read, ctxctl_symbol"
    );
}

#[test]
fn ranked_suggestions_score_tier_then_name_and_cap_at_five() {
    let source = "struct NodeHandle;\nstruct NodeState;\nstruct NodeThingy;\n\
                  struct WrapNode;\nstruct MyNodeState;\nfn unrelated() {}\n";
    let symbols = outline(source, "nodes.rs").expect("fixture parses");
    // Prefix tier before substring tier regardless of alphabetical order.
    assert_eq!(
        ranked_suggestions(&symbols, "nodestate"),
        vec!["NodeState", "MyNodeState"]
    );
    // Substring-only hit.
    assert_eq!(ranked_suggestions(&symbols, "handl"), vec!["NodeHandle"]);
    // Typo candidate via bounded Levenshtein without any textual match.
    assert_eq!(
        ranked_suggestions(&symbols, "nodethingy1"),
        vec!["NodeThingy"]
    );
    // Beyond distance 2: silent.
    assert!(ranked_suggestions(&symbols, "zzz").is_empty());
}

#[test]
fn mini_outline_lists_top_level_symbols_and_caps_at_twenty() {
    let mut source = String::new();
    for i in 0..25 {
        source.push_str(&format!("struct Top{i:02};\n"));
    }
    source.push_str("impl Wrapper {\n    fn inner_method(&self) {}\n}\n");
    let symbols = outline(&source, "tops.rs").expect("fixture parses");
    let outline = mini_outline(&symbols).expect("non-empty outline");
    let lines: Vec<&str> = outline.lines().collect();
    assert_eq!(lines.len(), 21);
    assert_eq!(lines[0], "struct Top00");
    assert_eq!(lines[19], "struct Top19");
    assert_eq!(lines[20], "... and 6 more");
    assert!(
        !outline.contains("inner_method"),
        "nested symbols stay hidden"
    );
}

#[test]
fn path_within_root_compares_components() {
    assert!(ctxctl::tools::path_within_root("/work", "/work/src/a.rs"));
    assert!(ctxctl::tools::path_within_root("/work/", "/work"));
    assert!(ctxctl::tools::path_within_root("/work", "/work/./src//a.rs"));
    assert!(!ctxctl::tools::path_within_root("/work", "/workshop/a.rs"));
    assert!(!ctxctl::tools::path_within_root("/work/src", "/work"));
    assert!(!ctxctl::tools::path_within_root("work", "/work/a.rs"));
    assert!(!ctxctl::tools::path_within_root("/work", "work/a.rs"));
}
