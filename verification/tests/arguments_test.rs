use ctxctl::arguments::{
    flag, kind_argument, optional_str, require_str, string_list, u64_arg, validate_arguments, ArgValue,
};
use ctxctl::cli::SymbolKindArg;
use ctxctl::tools::{
    call_outcome, lexically_normalized_absolute, pinned_lexical, reply_to, unknown_tool_message, PinnedPath,
    Reply, INVALID_REQUEST, METHOD_NOT_FOUND,
};

fn s(x: &str) -> ArgValue {
    ArgValue::Str(x.to_string())
}

fn num(n: u64) -> ArgValue {
    ArgValue::Number { text: n.to_string(), unsigned: Some(n) }
}

/// An object with its keys in the order a JSON map walks them (sorted).
fn object(mut fields: Vec<(&str, ArgValue)>) -> ArgValue {
    fields.sort_by(|a, b| a.0.cmp(b.0));
    ArgValue::Object(fields.into_iter().map(|(k, v)| (k.to_string(), v)).collect())
}

fn get<'a>(args: &'a ArgValue, key: &str) -> Option<&'a ArgValue> {
    match args {
        ArgValue::Object(fields) => fields.iter().find(|(k, _)| k == key).map(|(_, v)| v),
        _ => None,
    }
}

#[test]
fn validate_arguments_coerces_numbers_for_str_args() {
    for raw in [100u64, 4] {
        let mut args = object(vec![("file", s("x.rs")), ("lines", num(raw))]);
        validate_arguments("ctxctl_read", &mut args).expect("number coerces");
        match get(&args, "lines") {
            Some(ArgValue::Str(coerced)) => assert_eq!(coerced, &raw.to_string()),
            other => panic!("string after coercion: {other:?}"),
        }
    }
}

#[test]
fn validate_arguments_still_rejects_non_numeric_mistypes() {
    let mut bool_lines = object(vec![("lines", ArgValue::Bool(true))]);
    assert_eq!(
        validate_arguments("ctxctl_read", &mut bool_lines),
        Err("argument `lines` must be a string, got boolean".to_string())
    );
    let mut object_file = object(vec![("file", ArgValue::Object(vec![]))]);
    assert_eq!(
        validate_arguments("ctxctl_deps", &mut object_file),
        Err("argument `file` must be a string, got object".to_string())
    );
    let mut string_head = object(vec![("cmd", s("echo")), ("head", s("3"))]);
    assert_eq!(
        validate_arguments("ctxctl_exec", &mut string_head),
        Err("argument `head` must be an integer, got string".to_string())
    );
    let mut mixed_keep = object(vec![("cmd", s("echo")), ("keep", ArgValue::Array(vec![s("error"), num(5)]))]);
    assert_eq!(
        validate_arguments("ctxctl_exec", &mut mixed_keep),
        Err("argument `keep` must be an array of strings, got array".to_string())
    );
    // Explicit null stays "absent".
    let mut null_lines = object(vec![("file", s("x.rs")), ("lines", ArgValue::Null)]);
    validate_arguments("ctxctl_read", &mut null_lines).expect("null is absent");
}

#[test]
fn unknown_argument_error_lists_valid_keys() {
    let mut args = object(vec![("file", s("x.rs")), ("encoding", s("utf8"))]);
    assert_eq!(
        validate_arguments("ctxctl_read", &mut args),
        Err("unknown argument `encoding`; valid arguments: file, lines".to_string())
    );
}

#[test]
fn mistyped_argument_names_the_key() {
    let mut args = object(vec![("cmd", s("echo hi")), ("head", s("3"))]);
    let err = validate_arguments("ctxctl_exec", &mut args).expect_err("string head is refused");
    assert!(err.contains("head"), "{err}");
    assert!(err.contains("integer"), "{err}");
}

#[test]
fn non_string_keep_item_is_rejected() {
    let mut args = object(vec![("cmd", s("echo hi")), ("keep", ArgValue::Array(vec![s("error"), num(5)]))]);
    let err = validate_arguments("ctxctl_exec", &mut args).expect_err("mixed keep is refused");
    assert!(err.contains("keep"), "{err}");
}

#[test]
fn arguments_must_be_an_object() {
    let mut args = ArgValue::Array(vec![]);
    assert_eq!(
        validate_arguments("ctxctl_read", &mut args),
        Err("arguments must be an object".to_string())
    );
}

#[test]
fn unknown_tool_arguments_pass_unchanged() {
    let mut args = object(vec![("anything", num(1))]);
    assert_eq!(validate_arguments("nope", &mut args), Ok(()));
    assert!(matches!(get(&args, "anything"), Some(ArgValue::Number { .. })));
}

#[test]
fn integer_argument_accepts_unsigned_numbers_only() {
    let mut ok = object(vec![("cmd", s("echo")), ("tail", num(7))]);
    assert_eq!(validate_arguments("ctxctl_exec", &mut ok), Ok(()));
    let mut negative = object(vec![
        ("cmd", s("echo")),
        ("tail", ArgValue::Number { text: "-1".to_string(), unsigned: None }),
    ]);
    assert_eq!(
        validate_arguments("ctxctl_exec", &mut negative),
        Err("argument `tail` must be an integer, got number".to_string())
    );
}

#[test]
fn argument_readers_follow_the_given_values() {
    let args = vec![
        ("cmd".to_string(), s("echo")),
        ("empty".to_string(), s("")),
        ("head".to_string(), num(3)),
        ("keep".to_string(), ArgValue::Array(vec![s("error"), num(5), s("warn")])),
        ("on".to_string(), ArgValue::Bool(true)),
        ("off".to_string(), ArgValue::Bool(false)),
    ];
    assert_eq!(require_str(&args, "cmd"), Ok("echo".to_string()));
    assert_eq!(require_str(&args, "empty"), Err("missing or empty argument: empty".to_string()));
    assert_eq!(require_str(&args, "nope"), Err("missing or empty argument: nope".to_string()));
    assert_eq!(optional_str(&args, "empty"), Some(String::new()));
    assert_eq!(optional_str(&args, "head"), None);
    assert!(flag(&args, "on"));
    assert!(!flag(&args, "off"));
    assert!(!flag(&args, "cmd"));
    assert_eq!(u64_arg(&args, "head"), Some(3));
    assert_eq!(u64_arg(&args, "cmd"), None);
    assert_eq!(string_list(&args, "keep"), vec!["error".to_string(), "warn".to_string()]);
    assert!(string_list(&args, "nope").is_empty());
}

#[test]
fn kind_argument_names_the_expected_kinds() {
    assert_eq!(kind_argument("var"), Ok(SymbolKindArg::Variable));
    assert_eq!(
        kind_argument("widget"),
        Err("unknown kind `widget` (expected class|struct|enum|interface|function|method|module|const|var|trait|type|heading|rule|element)".to_string())
    );
}

#[test]
fn notifications_get_no_response() {
    assert!(matches!(reply_to(false, Some("notifications/initialized")), Reply::Silent));
}

#[test]
fn request_without_method_gets_invalid_request() {
    match reply_to(true, None) {
        Reply::Failure { code, message } => {
            assert_eq!(code, -32600);
            assert_eq!(code, INVALID_REQUEST);
            assert_eq!(message, "invalid request: missing or non-string method");
        }
        other => panic!("unexpected reply {other:?}"),
    }
}

#[test]
fn unknown_method_is_method_not_found() {
    match reply_to(true, Some("no/such/method")) {
        Reply::Failure { code, message } => {
            assert_eq!(code, -32601);
            assert_eq!(code, METHOD_NOT_FOUND);
            assert_eq!(message, "method not found: no/such/method");
        }
        other => panic!("unexpected reply {other:?}"),
    }
}

#[test]
fn known_methods_are_dispatched() {
    assert!(matches!(reply_to(true, Some("initialize")), Reply::Initialize));
    assert!(matches!(reply_to(true, Some("ping")), Reply::Ping));
    assert!(matches!(reply_to(true, Some("tools/list")), Reply::ToolsList));
    assert!(matches!(reply_to(true, Some("tools/call")), Reply::ToolsCall));
}

#[test]
fn unknown_tool_message_lists_the_registry() {
    assert_eq!(
        unknown_tool_message("nope"),
        "unknown tool `nope`; available: ctxctl_deps, ctxctl_exec, ctxctl_outline, ctxctl_read, ctxctl_symbol"
    );
}

#[test]
fn call_outcome_reports_failures_in_band() {
    assert_eq!(
        call_outcome("ctxctl_exec", Some(1), None, "$ false\n".to_string()),
        Err("tool ctxctl_exec failed with exit code 1\n$ false\n".to_string())
    );
    assert_eq!(
        call_outcome("ctxctl_outline", Some(3), Some("syntax error"), "# x".to_string()),
        Err("tool ctxctl_outline failed with exit code 3: syntax error\n# x".to_string())
    );
    assert_eq!(call_outcome("ctxctl_read", None, None, String::new()), Err("tool produced no output".to_string()));
    assert_eq!(call_outcome("ctxctl_read", None, None, "ok".to_string()), Ok("ok".to_string()));
}

#[test]
fn relative_paths_are_walked_below_the_root() {
    match pinned_lexical("file", "src/./a/../b.rs") {
        Ok(PinnedPath::Relative(p)) => assert_eq!(p, "src/b.rs"),
        other => panic!("{other:?}"),
    }
    for raw in ["../outside.txt", "sub/../../outside.txt", ".."] {
        assert_eq!(
            pinned_lexical("file", raw).map(|_| ()),
            Err(format!("invalid argument `file`: {raw}: path escapes workspace root"))
        );
    }
}

#[test]
fn absolute_paths_are_normalized_lexically() {
    assert_eq!(lexically_normalized_absolute("/root/sub/../inner.txt"), Some("/root/inner.txt".to_string()));
    assert_eq!(lexically_normalized_absolute("/.."), Some("/".to_string()));
    assert_eq!(lexically_normalized_absolute("/"), Some("/".to_string()));
    assert_eq!(lexically_normalized_absolute("relative/x"), None);
    match pinned_lexical("file", "/etc/./passwd") {
        Ok(PinnedPath::Absolute(p)) => assert_eq!(p, "/etc/passwd"),
        other => panic!("{other:?}"),
    }
}

#[test]
fn read_lines_default_to_the_whole_file() {
    let given = vec![("lines".to_string(), ctxctl::arguments::ArgValue::Str("3-5".to_string()))];
    assert_eq!(ctxctl::arguments::read_lines_arg(&given, "lines"), "3-5");
    let empty = vec![("lines".to_string(), ctxctl::arguments::ArgValue::Str(String::new()))];
    assert_eq!(ctxctl::arguments::read_lines_arg(&empty, "lines"), "1-");
    assert_eq!(ctxctl::arguments::read_lines_arg(&Vec::new(), "lines"), "1-");
}

#[test]
fn count_arguments_take_unsigned_numbers() {
    let n = ctxctl::arguments::ArgValue::Number { text: "7".to_string(), unsigned: Some(7) };
    let neg = ctxctl::arguments::ArgValue::Number { text: "-1".to_string(), unsigned: None };
    let given = vec![("head".to_string(), n), ("tail".to_string(), neg)];
    assert_eq!(ctxctl::arguments::count_arg(&given, "head"), Some(7));
    assert_eq!(ctxctl::arguments::count_arg(&given, "tail"), None);
    assert_eq!(ctxctl::arguments::count_arg(&given, "missing"), None);
}
