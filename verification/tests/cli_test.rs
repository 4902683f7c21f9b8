use ctxctl::cli::{ExitError, EXEC_TIMEOUT_SECS};

#[test]
fn timeout_error_message_mentions_timeout() {
    let err = ExitError::new(
        1,
        format!(
            "command `sleep 60` exceeded the {}s execution timeout and was killed",
            EXEC_TIMEOUT_SECS
        ),
    );
    assert!(err.message.contains("timeout"), "{}", err.message);
    assert_eq!(err.code, 1u8);
}

#[test]
fn exit_code_encodes_signals_as_128_plus_signal() {
    assert_eq!(ctxctl::cli::exit_code_of(Some(9), None), 137);
    assert_eq!(ctxctl::cli::exit_code_of(None, Some(3)), 3);
    assert_eq!(ctxctl::cli::exit_code_of(None, None), 1);
}

#[test]
fn timeout_message_names_the_command_and_limit() {
    assert_eq!(
        ctxctl::cli::timeout_message("sleep 60"),
        "command `sleep 60` exceeded the 30s execution timeout and was killed"
    );
}

#[test]
fn slice_text_takes_the_byte_range() {
    let src = "fn a() {}\nfn b() {}\n";
    assert_eq!(ctxctl::cli::slice_text(src, 10, 19).unwrap(), "fn b() {}");
}

#[test]
fn slice_text_rejects_a_range_past_the_end() {
    let err = ctxctl::cli::slice_text("abc", 1, 9).unwrap_err();
    assert_eq!(err.code, 3u8);
    assert_eq!(err.message, "symbol byte range out of bounds");
    let err = ctxctl::cli::slice_text("abc", 2, 1).unwrap_err();
    assert_eq!(err.message, "symbol byte range out of bounds");
}

#[test]
fn slice_text_rejects_a_cut_through_a_character() {
    let err = ctxctl::cli::slice_text("é", 0, 1).unwrap_err();
    assert_eq!(err.code, 3u8);
    assert!(err.message.starts_with("symbol slice is not valid UTF-8: "), "{}", err.message);
}

#[test]
fn exec_argv_splits_shell_words() {
    let w = ctxctl::cli::exec_argv("echo 'a b' c\\ d").unwrap();
    assert_eq!(w, vec!["echo".to_string(), "a b".to_string(), "c d".to_string()]);
}

#[test]
fn exec_argv_refuses_pipelines_open_quotes_and_empty_lines() {
    let e = ctxctl::cli::exec_argv("ls | wc").unwrap_err();
    assert_eq!(e.code, 1u8);
    assert!(e.message.contains("found unquoted `|`"), "{}", e.message);
    let e = ctxctl::cli::exec_argv("echo 'open").unwrap_err();
    assert_eq!(e.message, "invalid command line: missing closing quote");
    let e = ctxctl::cli::exec_argv("   ").unwrap_err();
    assert_eq!(e.message, "empty command");
}
