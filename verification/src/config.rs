//! Resolved configuration and its key-wise layering.
//!
//! Configuration comes in layers (global, project, explicit), applied from
//! the lowest to the highest precedence over the built-in defaults. Each
//! layer declares only some keys; a declared key replaces the value below
//! it, an undeclared one leaves it as it is. Lists are replaced whole,
//! never concatenated.

use vstd::prelude::*;
use crate::exec::{default_keep_patterns, DEFAULT_COLLAPSE_THRESHOLD, DEFAULT_HEAD_LINES, DEFAULT_TAIL_LINES};

verus! {

/// Default `[outline]` fold threshold.
pub const DEFAULT_FOLD_THRESHOLD: usize = 50;

/// Default `[limits]` cap on the size of a source file that commands read.
pub const DEFAULT_MAX_FILE_BYTES: usize = 10485760;

/// Default `[paths]` ignore globs.
pub fn default_ignore_globs() -> (v: Vec<String>)
    ensures
        v@.len() == 4,
        v@[0]@ == "node_modules"@,
        v@[1]@ == "target"@,
        v@[2]@ == "dist"@,
        v@[3]@ == ".git"@,
{
    let mut v = Vec::new();
    v.push(String::from_str("node_modules"));
    v.push(String::from_str("target"));
    v.push(String::from_str("dist"));
    v.push(String::from_str(".git"));
    v
}

/// `[exec]` settings.
#[derive(Debug, Clone)]
pub struct ExecConfig {
    /// Keep patterns; replaces the built-in defaults when configured.
    pub keep: Vec<String>,
    pub head_lines: usize,
    pub tail_lines: usize,
    pub collapse_threshold: usize,
}

/// `[outline]` settings.
#[derive(Debug, Clone)]
pub struct OutlineConfig {
    /// Fold the symbol list (text mode) when it exceeds this many symbols.
    pub fold_threshold: usize,
    pub show_doc: bool,
}

/// `[paths]` settings.
#[derive(Debug, Clone)]
pub struct PathsConfig {
    /// Default-ignored directories (rg-style glob), for commands that walk
    /// directories.
    pub ignore: Vec<String>,
}

/// `[general]` settings.
#[derive(Debug, Clone)]
pub struct GeneralConfig {
    pub show_saved: bool,
}

/// `[limits]` settings.
#[derive(Debug, Clone)]
pub struct LimitsConfig {
    /// Largest source file, in bytes, that a command reads.
    pub max_file_bytes: usize,
}

/// Fully resolved configuration, key by key. The `[exec]` section is the
/// `execution` field.
#[derive(Debug, Clone)]
pub struct Config {
    pub execution: ExecConfig,
    pub outline: OutlineConfig,
    pub paths: PathsConfig,
    pub general: GeneralConfig,
    pub limits: LimitsConfig,
}

/// The text of each string of a list.
pub open spec fn texts(v: Seq<String>) -> Seq<Seq<char>> {
    v.map_values(|s: String| s@)
}

impl Config {
    /// The built-in defaults.
    pub open spec fn is_builtin_default(&self) -> bool {
        &&& texts(self.execution.keep@) == seq!["error"@, "warning"@, "failed"@, "panic"@, "fatal"@]
        &&& self.execution.head_lines == DEFAULT_HEAD_LINES
        &&& self.execution.tail_lines == DEFAULT_TAIL_LINES
        &&& self.execution.collapse_threshold == DEFAULT_COLLAPSE_THRESHOLD
        &&& self.outline.fold_threshold == DEFAULT_FOLD_THRESHOLD
        &&& self.outline.show_doc
        &&& texts(self.paths.ignore@) == seq!["node_modules"@, "target"@, "dist"@, ".git"@]
        &&& self.general.show_saved
        &&& self.limits.max_file_bytes == DEFAULT_MAX_FILE_BYTES
    }
}

impl Default for Config {
    fn default() -> (c: Self)
        ensures
            c.is_builtin_default(),
    {
        let keep = default_keep_patterns();
        let ignore = default_ignore_globs();
        let c = Config {
            execution: ExecConfig {
                keep,
                head_lines: DEFAULT_HEAD_LINES,
                tail_lines: DEFAULT_TAIL_LINES,
                collapse_threshold: DEFAULT_COLLAPSE_THRESHOLD,
            },
            outline: OutlineConfig { fold_threshold: DEFAULT_FOLD_THRESHOLD, show_doc: true },
            paths: PathsConfig { ignore },
            general: GeneralConfig { show_saved: true },
            limits: LimitsConfig { max_file_bytes: DEFAULT_MAX_FILE_BYTES },
        };
        proof {
            assert(texts(c.execution.keep@) =~= seq!["error"@, "warning"@, "failed"@, "panic"@, "fatal"@]);
            assert(texts(c.paths.ignore@) =~= seq!["node_modules"@, "target"@, "dist"@, ".git"@]);
        }
        c
    }
}

/// The `[exec]` keys one layer declares.
#[derive(Debug, Clone, Default)]
pub struct PartialExec {
    pub keep: Option<Vec<String>>,
    pub head_lines: Option<usize>,
    pub tail_lines: Option<usize>,
    pub collapse_threshold: Option<usize>,
}

/// The `[outline]` keys one layer declares.
#[derive(Debug, Clone, Default)]
pub struct PartialOutline {
    pub fold_threshold: Option<usize>,
    pub show_doc: Option<bool>,
}

/// The `[paths]` keys one layer declares.
#[derive(Debug, Clone, Default)]
pub struct PartialPaths {
    pub ignore: Option<Vec<String>>,
}

/// The `[general]` keys one layer declares.
#[derive(Debug, Clone, Default)]
pub struct PartialGeneral {
    pub show_saved: Option<bool>,
}

/// The `[limits]` keys one layer declares.
#[derive(Debug, Clone, Default)]
pub struct PartialLimits {
    pub max_file_bytes: Option<usize>,
}

/// One configuration layer: only the keys it declares are set.
#[derive(Debug, Clone, Default)]
pub struct PartialConfig {
    pub execution: PartialExec,
    pub outline: PartialOutline,
    pub paths: PartialPaths,
    pub general: PartialGeneral,
    pub limits: PartialLimits,
}

/// The declared value, else the one below.
pub open spec fn or_below<T>(declared: Option<T>, below: T) -> T {
    match declared {
        Some(v) => v,
        None => below,
    }
}

/// `c` with the keys that `p` declares replaced by `p`'s values.
pub open spec fn merged(c: Config, p: PartialConfig) -> Config {
    Config {
        execution: ExecConfig {
            keep: or_below(p.execution.keep, c.execution.keep),
            head_lines: or_below(p.execution.head_lines, c.execution.head_lines),
            tail_lines: or_below(p.execution.tail_lines, c.execution.tail_lines),
            collapse_threshold: or_below(p.execution.collapse_threshold, c.execution.collapse_threshold),
        },
        outline: OutlineConfig {
            fold_threshold: or_below(p.outline.fold_threshold, c.outline.fold_threshold),
            show_doc: or_below(p.outline.show_doc, c.outline.show_doc),
        },
        paths: PathsConfig { ignore: or_below(p.paths.ignore, c.paths.ignore) },
        general: GeneralConfig { show_saved: or_below(p.general.show_saved, c.general.show_saved) },
        limits: LimitsConfig { max_file_bytes: or_below(p.limits.max_file_bytes, c.limits.max_file_bytes) },
    }
}

/// `base` with `layers` applied in order, lowest precedence first.
pub open spec fn layered(base: Config, layers: Seq<PartialConfig>) -> Config
    decreases layers.len(),
{
    if layers.len() == 0 {
        base
    } else {
        merged(layered(base, layers.drop_last()), layers.last())
    }
}

/// The value of the last layer that declares a key, else `below`.
pub open spec fn last_declared<T>(declared: Seq<Option<T>>, below: T) -> T
    decreases declared.len(),
{
    if declared.len() == 0 {
        below
    } else {
        match declared.last() {
            Some(v) => v,
            None => last_declared(declared.drop_last(), below),
        }
    }
}

impl PartialConfig {
    /// Apply this layer to `config`: each declared key replaces the value
    /// below it; undeclared keys keep theirs.
    pub fn merge_into(self, config: &mut Config)
        ensures
            *final(config) == merged(*old(config), self),
    {
        if let Some(keep) = self.execution.keep {
            config.execution.keep = keep;
        }
        if let Some(v) = self.execution.head_lines {
            config.execution.head_lines = v;
        }
        if let Some(v) = self.execution.tail_lines {
            config.execution.tail_lines = v;
        }
        if let Some(v) = self.execution.collapse_threshold {
            config.execution.collapse_threshold = v;
        }
        if let Some(v) = self.outline.fold_threshold {
            config.outline.fold_threshold = v;
        }
        if let Some(v) = self.outline.show_doc {
            config.outline.show_doc = v;
        }
        if let Some(ignore) = self.paths.ignore {
            config.paths.ignore = ignore;
        }
        if let Some(v) = self.general.show_saved {
            config.general.show_saved = v;
        }
        if let Some(v) = self.limits.max_file_bytes {
            config.limits.max_file_bytes = v;
        }
    }
}

/// Resolve `layers`, lowest precedence first, over the built-in defaults.
pub fn resolve_layers(layers: Vec<PartialConfig>) -> (c: Config)
    ensures
        exists|d: Config| d.is_builtin_default() && c == layered(d, layers@),
{
    let mut c = Config::default();
    let ghost d = c;
    let ghost all = layers@;
    let mut rest = layers;
    let ghost mut i: int = 0;
    while rest.len() > 0
        invariant
            0 <= i <= all.len(),
            rest@ == all.skip(i),
            c == layered(d, all.take(i)),
        decreases rest@.len(),
    {
        let layer = rest.remove(0);
        proof {
            assert(layer == all[i]);
            assert(all.take(i + 1).drop_last() == all.take(i));
            assert(all.take(i + 1).last() == all[i]);
        }
        layer.merge_into(&mut c);
        proof {
            assert(rest@ == all.skip(i + 1));
            i = i + 1;
        }
    }
    proof {
        assert(all.take(i) == all);
    }
    c
}

/// Key by key, a layered configuration holds the value of the last layer
/// that declares the key, and the base value where no layer does.
pub proof fn law_last_declared_layer_wins(base: Config, layers: Seq<PartialConfig>)
    ensures
        ({
            let c = layered(base, layers);
            &&& c.execution.keep == last_declared(layers.map_values(|p: PartialConfig| p.execution.keep), base.execution.keep)
            &&& c.execution.head_lines == last_declared(layers.map_values(|p: PartialConfig| p.execution.head_lines), base.execution.head_lines)
            &&& c.execution.tail_lines == last_declared(layers.map_values(|p: PartialConfig| p.execution.tail_lines), base.execution.tail_lines)
            &&& c.execution.collapse_threshold == last_declared(
                layers.map_values(|p: PartialConfig| p.execution.collapse_threshold),
                base.execution.collapse_threshold,
            )
            &&& c.outline.fold_threshold == last_declared(
                layers.map_values(|p: PartialConfig| p.outline.fold_threshold),
                base.outline.fold_threshold,
            )
            &&& c.outline.show_doc == last_declared(layers.map_values(|p: PartialConfig| p.outline.show_doc), base.outline.show_doc)
            &&& c.paths.ignore == last_declared(layers.map_values(|p: PartialConfig| p.paths.ignore), base.paths.ignore)
            &&& c.general.show_saved == last_declared(
                layers.map_values(|p: PartialConfig| p.general.show_saved),
                base.general.show_saved,
            )
            &&& c.limits.max_file_bytes == last_declared(
                layers.map_values(|p: PartialConfig| p.limits.max_file_bytes),
                base.limits.max_file_bytes,
            )
        }),
    decreases layers.len(),
{
    if layers.len() > 0 {
        law_last_declared_layer_wins(base, layers.drop_last());
        assert(layers.map_values(|p: PartialConfig| p.execution.keep).drop_last()
            == layers.drop_last().map_values(|p: PartialConfig| p.execution.keep));
        assert(layers.map_values(|p: PartialConfig| p.execution.head_lines).drop_last()
            == layers.drop_last().map_values(|p: PartialConfig| p.execution.head_lines));
        assert(layers.map_values(|p: PartialConfig| p.execution.tail_lines).drop_last()
            == layers.drop_last().map_values(|p: PartialConfig| p.execution.tail_lines));
        assert(layers.map_values(|p: PartialConfig| p.execution.collapse_threshold).drop_last()
            == layers.drop_last().map_values(|p: PartialConfig| p.execution.collapse_threshold));
        assert(layers.map_values(|p: PartialConfig| p.outline.fold_threshold).drop_last()
            == layers.drop_last().map_values(|p: PartialConfig| p.outline.fold_threshold));
        assert(layers.map_values(|p: PartialConfig| p.outline.show_doc).drop_last()
            == layers.drop_last().map_values(|p: PartialConfig| p.outline.show_doc));
        assert(layers.map_values(|p: PartialConfig| p.paths.ignore).drop_last()
            == layers.drop_last().map_values(|p: PartialConfig| p.paths.ignore));
        assert(layers.map_values(|p: PartialConfig| p.general.show_saved).drop_last()
            == layers.drop_last().map_values(|p: PartialConfig| p.general.show_saved));
        assert(layers.map_values(|p: PartialConfig| p.limits.max_file_bytes).drop_last()
            == layers.drop_last().map_values(|p: PartialConfig| p.limits.max_file_bytes));
    }
}

/// A layer that declares nothing changes nothing.
pub proof fn law_empty_layer_is_identity(c: Config, p: PartialConfig)
    requires
        p.execution.keep is None,
        p.execution.head_lines is None,
        p.execution.tail_lines is None,
        p.execution.collapse_threshold is None,
        p.outline.fold_threshold is None,
        p.outline.show_doc is None,
        p.paths.ignore is None,
        p.general.show_saved is None,
        p.limits.max_file_bytes is None,
    ensures
        merged(c, p) == c,
{
}

} // verus!
