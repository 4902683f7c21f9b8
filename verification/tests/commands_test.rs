use ctxctl::cli::read_ranges;
use ctxctl::commands::{
    deps_body, exec_options, exec_report, file_size_error, find_symbol, ineffective_warning, outline_body,
    push_stderr, read_report, symbol_header, symbol_view,
};
use ctxctl::config::Config;
use ctxctl::deps::{DepKind, ResolvedImport};
use ctxctl::exec::{CompressOptions, CompressStats, StreamCompressor};
use ctxctl::language::parse;
use ctxctl::extract::extract_symbols;
use ctxctl::outline::outline;
use ctxctl::symbol::SymbolKind;

const SOURCE: &str = "pub fn alpha() -> u32 {\n    1\n}\n\npub struct VeryLongStructureName {\n    x: u32,\n}\n";

#[test]
fn outline_body_pads_columns_and_folds() {
    let symbols = outline(SOURCE, "lib.rs").expect("parses");
    let body = outline_body(&symbols, 50, false);
    let rows: Vec<&str> = body.lines().collect();
    assert_eq!(rows.len(), symbols.len());
    assert!(rows[0].starts_with("  fn      alpha                 L:1-3        pub fn alpha() -> u32"), "{body}");
    assert!(body.contains("  struct  VeryLongStructureName L:5-7"), "{body}");
    let folded = outline_body(&symbols, 1, true);
    assert!(folded.ends_with(&format!("  ... [{} symbols omitted]\n", symbols.len() - 1)), "{folded}");
    assert!(!folded.contains("L:"), "{folded}");
    assert_eq!(outline_body(&[], 50, false), "");
}

#[test]
fn deps_body_lists_kind_target_and_line() {
    let deps = vec![
        ResolvedImport { target: "std::fmt".to_string(), kind: DepKind::External, line: 1, bytes: 12 },
        ResolvedImport { target: "crate::a_very_long_module".to_string(), kind: DepKind::Local, line: 12, bytes: 30 },
    ];
    assert_eq!(
        deps_body(&deps),
        "  external  std::fmt                     L:1\n  local     crate::a_very_long_module    L:12\n"
    );
}

#[test]
fn find_symbol_takes_the_first_match_of_the_kind() {
    let symbols = outline(SOURCE, "lib.rs").expect("parses");
    let i = find_symbol(&symbols, "alpha", None).expect("found");
    assert_eq!(symbols[i].name, "alpha");
    let miss = find_symbol(&symbols, "alpha", Some(SymbolKind::Struct)).expect_err("kind filters");
    assert_eq!(miss.code, 4);
    assert_eq!(miss.message, "symbol not found: alpha (kind Struct)");
    let none = find_symbol(&symbols, "gamma", None).expect_err("absent");
    assert_eq!(none.message, "symbol not found: gamma");
}

#[test]
fn symbol_view_delivers_text_signature_or_lines() {
    let parsed = parse("lib.rs", SOURCE).expect("parses");
    let symbols = extract_symbols(&parsed);
    let alpha = symbols.iter().find(|s| s.name == "alpha").expect("alpha");
    assert_eq!(symbol_view(&parsed, alpha, false, false, None).unwrap(), "pub fn alpha() -> u32 {\n    1\n}");
    assert_eq!(symbol_view(&parsed, alpha, false, true, None).unwrap(), alpha.signature);
    assert_eq!(symbol_view(&parsed, alpha, false, false, Some("2")).unwrap(), "    1\n");
    let bad = symbol_view(&parsed, alpha, false, false, Some("9")).expect_err("out of range");
    assert_eq!(bad.code, 2);
    assert_eq!(bad.message, "line range 9-3 out of bounds (symbol has 3 lines)");
}

#[test]
fn read_ranges_clamp_and_keep_line_endings() {
    let text = "a\r\nb\nc\n";
    let slices = read_ranges(text, "2-,1").expect("valid");
    assert_eq!(slices, vec![(2, 3, "b\nc\n".to_string()), (1, 1, "a\r\n".to_string())]);
    let err = read_ranges(text, "1-2,7-9").expect_err("past end");
    assert_eq!(err.code, 2);
    assert_eq!(err.message, "line range 7-3 out of bounds (file has 3 lines)");
    let bad = read_ranges(text, "0").expect_err("1-based");
    assert_eq!(bad.code, 2);
    assert_eq!(bad.message, "ranges are 1-based; start must be >= 1");
}

#[test]
fn read_report_renders_blocks_and_savings() {
    let slices = vec![(1, 2, "x\ny\n".to_string())];
    assert_eq!(read_report("f.txt", &slices, None), "# f.txt:1-2\nx\ny\n\n");
    assert_eq!(
        read_report("f.txt", &slices, Some((50, 12345, 6))),
        "# f.txt:1-2\nx\ny\n\nSaved ~50% (12,345 -> 6 tokens)\n"
    );
}

#[test]
fn symbol_header_names_location_and_savings() {
    assert_eq!(symbol_header("alpha", "lib.rs", 1, 3, None), "# alpha  lib.rs:1-3");
    assert_eq!(symbol_header("one", "lib.rs", 4, 4, Some((1200, 97))), "# one  lib.rs:4  (1,200 tokens, saved ~97%)");
}

#[test]
fn exec_options_extend_keep_patterns_and_override_windows() {
    let config = Config::default();
    let o = exec_options(&config.execution, &["custom".to_string()], Some(2), None);
    assert_eq!(o.keep_patterns, vec!["error", "warning", "failed", "panic", "fatal", "custom"]);
    assert_eq!(o.head_lines, 2);
    assert_eq!(o.tail_lines, 5);
    assert_eq!(o.collapse_threshold, 20);
}

#[test]
fn stderr_follows_stdout_on_a_line_of_its_own() {
    let options = CompressOptions {
        keep_patterns: vec![],
        head_lines: 5,
        tail_lines: 5,
        collapse_threshold: 20,
    };
    let mut sc = StreamCompressor::new(&options).unwrap();
    sc.push(b"out");
    push_stderr(&mut sc, false, false, b"err\n");
    assert_eq!(sc.finish().text, b"out\nerr\n".to_vec());
    let mut sc = StreamCompressor::new(&options).unwrap();
    sc.push(b"out\n");
    push_stderr(&mut sc, false, true, b"err");
    assert_eq!(sc.finish().text, b"out\nerr".to_vec());
}

#[test]
fn ineffective_keep_patterns_are_announced() {
    let stats = CompressStats {
        total_lines: 30,
        kept_lines: 29,
        omitted_lines: 1,
        original_tokens: 1000,
        compressed_tokens: 950,
        saved_percent: 5,
        collapsed: true,
        pattern_kept_lines: 19,
    };
    assert_eq!(
        ineffective_warning(&stats).as_deref(),
        Some("keep patterns matched most of the output; compression saved only 5% (1,000 -> 950 tokens) — check --keep patterns")
    );
    let fine = CompressStats { saved_percent: 60, ..stats.clone() };
    assert_eq!(ineffective_warning(&fine), None);
}

#[test]
fn exec_report_carries_command_output_and_savings() {
    let stats = CompressStats {
        total_lines: 1,
        kept_lines: 1,
        omitted_lines: 0,
        original_tokens: 3,
        compressed_tokens: 3,
        saved_percent: 0,
        collapsed: false,
        pattern_kept_lines: 0,
    };
    assert_eq!(exec_report("echo hi", b"hi\n", &stats, false, None), b"$ echo hi\nhi\n\n".to_vec());
    assert_eq!(
        exec_report("true", b"", &stats, true, Some("careful")),
        b"$ true\nSaved ~0% (3 -> 3 tokens)\nwarning: careful\n".to_vec()
    );
}

#[test]
fn oversized_files_are_refused_naming_the_limit() {
    assert!(file_size_error("big.rs", 10, 10).is_none());
    let e = file_size_error("big.rs", 21, 10).expect("over the limit");
    assert_eq!(e.code, 1);
    assert_eq!(e.message, "big.rs: file is 21 bytes, exceeding max_file_bytes limit of 10 bytes");
}

#[test]
fn outline_exit_code_flags_parse_errors() {
    let clean = ctxctl::language::parse("a.rs", "fn main() {}\n").unwrap();
    assert_eq!(ctxctl::commands::outline_exit_code(&clean), 0);
    let broken = ctxctl::language::parse("a.rs", "fn main( {\n").unwrap();
    assert_eq!(ctxctl::commands::outline_exit_code(&broken), 3);
}
