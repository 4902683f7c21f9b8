use ctxctl::config::{
    default_ignore_globs, resolve_layers, Config, PartialConfig, DEFAULT_FOLD_THRESHOLD, DEFAULT_MAX_FILE_BYTES,
};

#[test]
fn builtin_defaults_match_the_documented_keys() {
    let c = Config::default();
    assert_eq!(c.execution.keep, vec!["error", "warning", "failed", "panic", "fatal"]);
    assert_eq!(c.execution.head_lines, 5);
    assert_eq!(c.execution.tail_lines, 5);
    assert_eq!(c.execution.collapse_threshold, 20);
    assert_eq!(c.outline.fold_threshold, 50);
    assert_eq!(c.outline.fold_threshold, DEFAULT_FOLD_THRESHOLD);
    assert!(c.outline.show_doc);
    assert_eq!(c.paths.ignore, vec!["node_modules", "target", "dist", ".git"]);
    assert_eq!(default_ignore_globs(), c.paths.ignore);
    assert!(c.general.show_saved);
    assert_eq!(c.limits.max_file_bytes, DEFAULT_MAX_FILE_BYTES);
}

#[test]
fn later_layers_override_key_by_key() {
    let mut global = PartialConfig::default();
    global.execution.head_lines = Some(9);
    global.execution.keep = Some(vec!["boom".to_string()]);
    global.outline.show_doc = Some(false);
    let mut project = PartialConfig::default();
    project.execution.head_lines = Some(2);
    project.paths.ignore = Some(vec![]);
    project.limits.max_file_bytes = Some(10);
    let c = resolve_layers(vec![global, project]);
    // Declared in both: the later layer wins.
    assert_eq!(c.execution.head_lines, 2);
    // Declared in one layer only: that layer's value.
    assert_eq!(c.execution.keep, vec!["boom".to_string()]);
    assert!(!c.outline.show_doc);
    assert!(c.paths.ignore.is_empty());
    assert_eq!(c.limits.max_file_bytes, 10);
    // Declared nowhere: the default.
    assert_eq!(c.execution.tail_lines, 5);
    assert_eq!(c.outline.fold_threshold, 50);
    assert!(c.general.show_saved);
}

#[test]
fn empty_layer_changes_nothing() {
    let mut c = Config::default();
    PartialConfig::default().merge_into(&mut c);
    assert_eq!(c.execution.keep.len(), 5);
    assert_eq!(c.execution.collapse_threshold, 20);
    assert_eq!(c.paths.ignore.len(), 4);
}

#[test]
fn lists_are_replaced_not_concatenated() {
    let mut layer = PartialConfig::default();
    layer.execution.keep = Some(vec!["only".to_string()]);
    let mut c = Config::default();
    layer.merge_into(&mut c);
    assert_eq!(c.execution.keep, vec!["only".to_string()]);
}
