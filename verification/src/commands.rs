//! What each command decides and renders once its inputs are read: which
//! symbol a lookup finds, what a symbol view delivers, the text listings of
//! outlines and dependencies, the compression options of `exec` and how its
//! two output streams merge, and the text reports.

use vstd::prelude::*;
use vstd::utf8::*;
use vstd::string::StringSliceAdditionalSpecFns;
use crate::symbol::{Symbol, SymbolKind};
use crate::cli::{kind_alias, kind_alias_spec, dep_kind_name, group, grouped, lines_slice, slice_lines, slice_text, ExitError};
use crate::compact::{anchor_node, compact_symbol, compact_view};
use crate::config::ExecConfig;
use crate::deps::{DepKind, ResolvedImport};
use crate::exec::{CompressOptions, CompressStats, StreamCompressor, INEFFECTIVE_SAVED_PERCENT_MAX};
use crate::language::ParsedSource;
use crate::syntax::span_text;
use crate::text::{chars_of, string_from, push_str, push_all, decimal, decimal_chars};

verus! {

/// `s` padded with spaces on the right to `w` characters (as `{:<w}`
/// formats it); as it is when it is that long already.
pub open spec fn padded(s: Seq<char>, w: nat) -> Seq<char> {
    if s.len() < w {
        s + Seq::new((w - s.len()) as nat, |i: int| ' ')
    } else {
        s
    }
}

/// Append `s` padded to `w` characters.
fn push_padded(out: &mut Vec<char>, s: &[char], w: usize)
    ensures
        final(out)@ == old(out)@ + padded(s@, w as nat),
{
    push_all(out, s);
    let mut k = s.len();
    while k < w
        invariant
            s@.len() <= k <= w || (k == s@.len() && k >= w),
            out@ == old(out)@ + s@ + Seq::new((k - s@.len()) as nat, |i: int| ' '),
        decreases w - k,
    {
        out.push(' ');
        proof {
            assert(Seq::new((k + 1 - s@.len()) as nat, |i: int| ' ') =~= Seq::new(
                (k - s@.len()) as nat,
                |i: int| ' ',
            ).push(' '));
        }
        k += 1;
    }
    proof {
        if s@.len() >= w {
            assert(Seq::new((k - s@.len()) as nat, |i: int| ' ') =~= Seq::<char>::empty());
        }
        assert(out@ =~= old(out)@ + padded(s@, w as nat));
    }
}

/// The UTF-8 length of a string's text.
pub open spec fn text_bytes(s: Seq<char>) -> nat {
    encode_utf8(s).len()
}

/// The widest name of `syms` in bytes, and at least `floor`.
pub open spec fn widest(names: Seq<Seq<char>>, floor: nat) -> nat
    decreases names.len(),
{
    if names.len() == 0 {
        floor
    } else {
        let w = widest(names.drop_last(), floor);
        if text_bytes(names.last()) > w {
            text_bytes(names.last())
        } else {
            w
        }
    }
}

/// The names of symbols.
pub open spec fn symbol_names(syms: Seq<Symbol>) -> Seq<Seq<char>> {
    syms.map_values(|s: Symbol| s.name@)
}

/// The location column of an outline row: empty without lines, `L:N` for
/// a one-line symbol, `L:N-M` otherwise.
pub open spec fn location_text(no_lines: bool, start: nat, end: nat) -> Seq<char> {
    if no_lines {
        seq![]
    } else if start == end {
        "L:"@ + decimal(start)
    } else {
        "L:"@ + decimal(start) + "-"@ + decimal(end)
    }
}

/// One row of a text outline.
pub open spec fn outline_row(s: Symbol, name_w: nat, no_lines: bool) -> Seq<char> {
    "  "@ + padded(kind_alias_spec(s.kind), 7) + " "@ + padded(s.name@, name_w) + " "@ + padded(
        location_text(no_lines, s.start_line as nat, s.end_line as nat),
        9,
    ) + "    "@ + s.signature@ + "\n"@
}

/// The rows of `syms`, in order.
pub open spec fn outline_rows(syms: Seq<Symbol>, name_w: nat, no_lines: bool) -> Seq<char>
    decreases syms.len(),
{
    if syms.len() == 0 {
        seq![]
    } else {
        outline_rows(syms.drop_last(), name_w, no_lines) + outline_row(syms.last(), name_w, no_lines)
    }
}

/// The body of a text outline: a row for each of the first `fold_limit`
/// symbols (names padded to the widest shown name, at least 10 bytes),
/// then, when symbols were left out, a line that counts them.
pub open spec fn outline_listing(syms: Seq<Symbol>, fold_limit: nat, no_lines: bool) -> Seq<char> {
    let folded = syms.len() > fold_limit;
    let shown = if folded { syms.take(fold_limit as int) } else { syms };
    outline_rows(shown, widest(symbol_names(shown), 10), no_lines) + if folded {
        "  ... ["@ + decimal((syms.len() - fold_limit) as nat) + " symbols omitted]\n"@
    } else {
        seq![]
    }
}

/// The location column of an outline row.
fn push_location(out: &mut Vec<char>, no_lines: bool, start: usize, end: usize)
    ensures
        final(out)@ == old(out)@ + location_text(no_lines, start as nat, end as nat),
{
    if no_lines {
        assert(old(out)@ + Seq::<char>::empty() =~= old(out)@);
        return;
    }
    push_str(out, "L:");
    let d = decimal_chars(start);
    push_all(out, d.as_slice());
    if start != end {
        push_str(out, "-");
        let e = decimal_chars(end);
        push_all(out, e.as_slice());
    }
    proof {
        reveal_strlit("L:");
        reveal_strlit("-");
    }
}

/// Append one outline row.
fn push_row(out: &mut Vec<char>, s: &Symbol, name_w: usize, no_lines: bool)
    ensures
        final(out)@ == old(out)@ + outline_row(*s, name_w as nat, no_lines),
{
    let mut row: Vec<char> = Vec::new();
    push_str(&mut row, "  ");
    let alias = chars_of(kind_alias(s.kind));
    push_padded(&mut row, alias.as_slice(), 7);
    push_str(&mut row, " ");
    let name = chars_of(s.name.as_str());
    push_padded(&mut row, name.as_slice(), name_w);
    push_str(&mut row, " ");
    let mut loc: Vec<char> = Vec::new();
    push_location(&mut loc, no_lines, s.start_line, s.end_line);
    proof {
        assert(loc@ =~= location_text(no_lines, s.start_line as nat, s.end_line as nat));
    }
    push_padded(&mut row, loc.as_slice(), 9);
    push_str(&mut row, "    ");
    push_str(&mut row, s.signature.as_str());
    push_str(&mut row, "\n");
    proof {
        assert(row@ =~= outline_row(*s, name_w as nat, no_lines));
    }
    push_all(out, row.as_slice());
}

/// The body of a text outline, as `outline_listing` states it.
pub fn outline_body(symbols: &[Symbol], fold_limit: usize, no_lines: bool) -> (r: String)
    ensures
        r@ == outline_listing(symbols@, fold_limit as nat, no_lines),
{
    let n = symbols.len();
    let folded = n > fold_limit;
    let shown = if folded { fold_limit } else { n };
    let ghost sv = if folded { symbols@.take(fold_limit as int) } else { symbols@ };
    let mut name_w: usize = 10;
    let mut i: usize = 0;
    while i < shown
        invariant
            shown <= symbols@.len(),
            shown == sv.len(),
            sv == symbols@.take(shown as int),
            i <= shown,
            name_w as nat == widest(symbol_names(sv.take(i as int)), 10),
        decreases shown - i,
    {
        let w = symbols[i].name.as_str().as_bytes().len();
        proof {
            assert(sv[i as int] == symbols@[i as int]);
            assert(w == text_bytes(symbols@[i as int].name@));
            assert(sv.take(i + 1).drop_last() =~= sv.take(i as int));
            assert(symbol_names(sv.take(i + 1)).drop_last() =~= symbol_names(sv.take(i as int)));
            assert(symbol_names(sv.take(i + 1)).last() == symbols@[i as int].name@);
        }
        if w > name_w {
            name_w = w;
        }
        i += 1;
    }
    proof {
        assert(sv.take(shown as int) =~= sv);
    }
    let mut out: Vec<char> = Vec::new();
    let mut j: usize = 0;
    while j < shown
        invariant
            shown <= symbols@.len(),
            shown == sv.len(),
            sv == symbols@.take(shown as int),
            j <= shown,
            name_w as nat == widest(symbol_names(sv), 10),
            out@ == outline_rows(sv.take(j as int), name_w as nat, no_lines),
        decreases shown - j,
    {
        let s = &symbols[j];
        push_row(&mut out, s, name_w, no_lines);
        proof {
            assert(sv.take(j + 1).drop_last() =~= sv.take(j as int));
            assert(sv.take(j + 1).last() == *s);
        }
        j += 1;
    }
    proof {
        assert(sv.take(shown as int) =~= sv);
    }
    if folded {
        push_str(&mut out, "  ... [");
        let d = decimal_chars(n - fold_limit);
        push_all(&mut out, d.as_slice());
        push_str(&mut out, " symbols omitted]\n");
    } else {
        assert(out@ + Seq::<char>::empty() =~= out@);
    }
    string_from(out.as_slice())
}

// ---------------------------------------------------------------------------
// Symbol lookup and view.

/// The kind's variant name (as `{:?}` prints it).
pub open spec fn kind_variant_name(kind: SymbolKind) -> Seq<char> {
    match kind {
        SymbolKind::Class => "Class"@,
        SymbolKind::Struct => "Struct"@,
        SymbolKind::Enum => "Enum"@,
        SymbolKind::Interface => "Interface"@,
        SymbolKind::Function => "Function"@,
        SymbolKind::Method => "Method"@,
        SymbolKind::Module => "Module"@,
        SymbolKind::Const => "Const"@,
        SymbolKind::Variable => "Variable"@,
        SymbolKind::Trait => "Trait"@,
        SymbolKind::Type => "Type"@,
        SymbolKind::Heading => "Heading"@,
        SymbolKind::Rule => "Rule"@,
        SymbolKind::Element => "Element"@,
    }
}

/// The kind's variant name (as `{:?}` prints it).
pub fn kind_variant(kind: SymbolKind) -> (r: &'static str)
    ensures
        r@ == kind_variant_name(kind),
{
    match kind {
        SymbolKind::Class => "Class",
        SymbolKind::Struct => "Struct",
        SymbolKind::Enum => "Enum",
        SymbolKind::Interface => "Interface",
        SymbolKind::Function => "Function",
        SymbolKind::Method => "Method",
        SymbolKind::Module => "Module",
        SymbolKind::Const => "Const",
        SymbolKind::Variable => "Variable",
        SymbolKind::Trait => "Trait",
        SymbolKind::Type => "Type",
        SymbolKind::Heading => "Heading",
        SymbolKind::Rule => "Rule",
        SymbolKind::Element => "Element",
    }
}

/// Symbol `s` is named `name` and, when a kind is asked for, of that kind.
pub open spec fn symbol_matches(s: Symbol, name: Seq<char>, kind: Option<SymbolKind>) -> bool {
    s.name@ == name && match kind {
        Some(k) => s.kind == k,
        None => true,
    }
}

/// The error of a lookup that finds nothing.
pub open spec fn not_found_text(name: Seq<char>, kind: Option<SymbolKind>) -> Seq<char> {
    "symbol not found: "@ + name + match kind {
        Some(k) => " (kind "@ + kind_variant_name(k) + ")"@,
        None => seq![],
    }
}

/// The first symbol named `name` (of kind `kind` when one is given); when
/// there is none, the error that exits with code 4.
pub fn find_symbol(symbols: &[Symbol], name: &str, kind: Option<SymbolKind>) -> (r: Result<usize, ExitError>)
    ensures
        match r {
            Ok(i) => {
                &&& i < symbols@.len()
                &&& symbol_matches(symbols@[i as int], name@, kind)
                &&& forall|j: int| 0 <= j < i ==> !symbol_matches(#[trigger] symbols@[j], name@, kind)
            },
            Err(e) => {
                &&& e.code == 4
                &&& e.message@ == not_found_text(name@, kind)
                &&& forall|j: int| 0 <= j < symbols@.len() ==> !symbol_matches(#[trigger] symbols@[j], name@, kind)
            },
        },
{
    let mut i: usize = 0;
    while i < symbols.len()
        invariant
            i <= symbols@.len(),
            forall|j: int| 0 <= j < i ==> !symbol_matches(#[trigger] symbols@[j], name@, kind),
        decreases symbols@.len() - i,
    {
        let s = &symbols[i];
        let kind_ok = match kind {
            Some(k) => s.kind == k,
            None => true,
        };
        if kind_ok && crate::syntax::str_eq(s.name.as_str(), name) {
            return Ok(i);
        }
        i += 1;
    }
    let mut m: Vec<char> = Vec::new();
    push_str(&mut m, "symbol not found: ");
    push_str(&mut m, name);
    match kind {
        Some(k) => {
            push_str(&mut m, " (kind ");
            push_str(&mut m, kind_variant(k));
            push_str(&mut m, ")");
        },
        None => {},
    }
    proof {
        assert(m@ =~= not_found_text(name@, kind));
    }
    Err(ExitError::new(4, string_from(m.as_slice())))
}

/// What `symbol` delivers for a symbol whose text `text` was sliced out:
/// the compact view (any `view` among those `compact_symbol` may give),
/// the signature, the lines `subrange` of the text, or the text.
pub open spec fn symbol_view_ok(
    text: Seq<char>,
    sig: Seq<char>,
    compact: bool,
    signature_only: bool,
    subrange: Option<Seq<char>>,
    compact_text: Seq<char>,
    r: Seq<char>,
) -> bool {
    if compact {
        r == compact_text
    } else if signature_only {
        r == sig
    } else {
        match subrange {
            Some(rg) => lines_slice(text, rg) == Ok::<Seq<char>, Seq<char>>(r),
            None => r == text,
        }
    }
}

/// The text `symbol` delivers for `symbol`: its compact view, its
/// signature, some of its lines, or all of its text. The symbol's text is
/// sliced first, so a range that does not hold valid UTF-8 fails with code
/// 3 whatever is asked; a bad line range fails with code 2.
pub fn symbol_view(
    parsed: &ParsedSource,
    symbol: &Symbol,
    compact: bool,
    signature_only: bool,
    subrange: Option<&str>,
) -> (r: Result<String, ExitError>)
    requires
        parsed.wf(),
    ensures
        ({
            let b = parsed.bytes();
            let s0 = symbol.byte_range.start as int;
            let s1 = symbol.byte_range.end as int;
            let valid = s0 <= s1 <= b.len() && span_text(b, s0, s1) is Some;
            let sub = match subrange {
                Some(x) => Some(x@),
                None => None,
            };
            match r {
                Ok(t) => valid && (if compact {
                    t@ == compact_view(
                        b,
                        parsed.syntax,
                        parsed.language,
                        s0,
                        s1,
                        symbol.signature@,
                        anchor_node(parsed.syntax, symbol.byte_range.start, symbol.byte_range.end),
                    )
                } else {
                    symbol_view_ok(span_text(b, s0, s1).unwrap(), symbol.signature@, false, signature_only, sub, seq![], t@)
                }),
                Err(e) => (!valid && e.code == 3) || (valid && !compact && !signature_only && e.code == 2 && (
                sub matches Some(rg) && lines_slice(span_text(b, s0, s1).unwrap(), rg) == Err::<
                    Seq<char>,
                    Seq<char>,
                >(e.message@))),
            }
        }),
{
    let body = slice_text(parsed.source.as_str(), symbol.byte_range.start, symbol.byte_range.end)?;
    if compact {
        Ok(compact_symbol(parsed, symbol))
    } else if signature_only {
        Ok(symbol.signature.clone())
    } else {
        match subrange {
            Some(range) => match slice_lines(body.as_str(), range) {
                Ok(t) => Ok(t),
                Err(m) => Err(ExitError::new(2, m)),
            },
            None => Ok(body),
        }
    }
}

// ---------------------------------------------------------------------------
// Dependency listing.

/// One row of a text dependency listing.
pub open spec fn deps_row(kind_name: Seq<char>, target: Seq<char>, name_w: nat, line: nat) -> Seq<char> {
    "  "@ + padded(kind_name, 9) + " "@ + padded(target, name_w) + "    L:"@ + decimal(line) + "\n"@
}

/// The name of a dependency kind.
pub open spec fn dep_kind_text(kind: DepKind) -> Seq<char> {
    match kind {
        DepKind::Local => "local"@,
        DepKind::External => "external"@,
        DepKind::Ignored => "ignored"@,
    }
}

/// The rows of `deps`, targets padded to `name_w`.
pub open spec fn deps_rows(deps: Seq<ResolvedImport>, name_w: nat) -> Seq<char>
    decreases deps.len(),
{
    if deps.len() == 0 {
        seq![]
    } else {
        let d = deps.last();
        deps_rows(deps.drop_last(), name_w) + deps_row(dep_kind_text(d.kind), d.target@, name_w, d.line as nat)
    }
}

/// The targets of resolved imports.
pub open spec fn dep_targets(deps: Seq<ResolvedImport>) -> Seq<Seq<char>> {
    deps.map_values(|d: ResolvedImport| d.target@)
}

/// The body of a text dependency listing: a row per import, targets
/// padded to the widest one (at least 10 bytes).
pub fn deps_body(deps: &[ResolvedImport]) -> (r: String)
    ensures
        r@ == deps_rows(deps@, widest(dep_targets(deps@), 10)),
{
    let n = deps.len();
    let mut name_w: usize = 10;
    let mut i: usize = 0;
    while i < n
        invariant
            n == deps@.len(),
            i <= n,
            name_w as nat == widest(dep_targets(deps@.take(i as int)), 10),
        decreases n - i,
    {
        let w = deps[i].target.as_str().as_bytes().len();
        proof {
            assert(deps@.take(i + 1).drop_last() =~= deps@.take(i as int));
            assert(dep_targets(deps@.take(i + 1)).drop_last() =~= dep_targets(deps@.take(i as int)));
            assert(dep_targets(deps@.take(i + 1)).last() == deps@[i as int].target@);
        }
        if w > name_w {
            name_w = w;
        }
        i += 1;
    }
    proof {
        assert(deps@.take(n as int) =~= deps@);
    }
    let mut out: Vec<char> = Vec::new();
    let mut j: usize = 0;
    while j < n
        invariant
            n == deps@.len(),
            j <= n,
            out@ == deps_rows(deps@.take(j as int), name_w as nat),
        decreases n - j,
    {
        let d = &deps[j];
        let mut row: Vec<char> = Vec::new();
        push_str(&mut row, "  ");
        let k = chars_of(dep_kind_name(d.kind));
        push_padded(&mut row, k.as_slice(), 9);
        push_str(&mut row, " ");
        let t = chars_of(d.target.as_str());
        push_padded(&mut row, t.as_slice(), name_w);
        push_str(&mut row, "    L:");
        let digits = decimal_chars(d.line);
        push_all(&mut row, digits.as_slice());
        push_str(&mut row, "\n");
        proof {
            assert(row@ =~= deps_row(dep_kind_text(d.kind), d.target@, name_w as nat, d.line as nat));
            assert(deps@.take(j + 1).drop_last() =~= deps@.take(j as int));
            assert(deps@.take(j + 1).last() == *d);
        }
        push_all(&mut out, row.as_slice());
        j += 1;
    }
    proof {
        assert(deps@.take(n as int) =~= deps@);
    }
    string_from(out.as_slice())
}

// ---------------------------------------------------------------------------
// `exec`.

/// The options `exec` compresses with: the configured keep patterns
/// followed by the extra ones, and the configured head and tail sizes
/// unless given.
pub fn exec_options(config: &ExecConfig, keep: &[String], head: Option<usize>, tail: Option<usize>) -> (o: CompressOptions)
    ensures
        o.keep_patterns@.len() == config.keep@.len() + keep@.len(),
        forall|i: int| 0 <= i < config.keep@.len() ==> #[trigger] o.keep_patterns@[i]@ == config.keep@[i]@,
        forall|i: int| 0 <= i < keep@.len() ==> #[trigger] o.keep_patterns@[config.keep@.len() + i]@ == keep@[i]@,
        o.head_lines == match head {
            Some(h) => h,
            None => config.head_lines,
        },
        o.tail_lines == match tail {
            Some(t) => t,
            None => config.tail_lines,
        },
        o.collapse_threshold == config.collapse_threshold,
{
    let mut patterns: Vec<String> = Vec::new();
    let mut i: usize = 0;
    while i < config.keep.len()
        invariant
            i <= config.keep@.len(),
            patterns@.len() == i,
            forall|j: int| 0 <= j < i ==> #[trigger] patterns@[j]@ == config.keep@[j]@,
        decreases config.keep@.len() - i,
    {
        patterns.push(string_from(chars_of(config.keep[i].as_str()).as_slice()));
        i += 1;
    }
    let mut k: usize = 0;
    while k < keep.len()
        invariant
            k <= keep@.len(),
            patterns@.len() == config.keep@.len() + k,
            forall|j: int| 0 <= j < config.keep@.len() ==> #[trigger] patterns@[j]@ == config.keep@[j]@,
            forall|j: int| 0 <= j < k ==> #[trigger] patterns@[config.keep@.len() + j]@ == keep@[j]@,
        decreases keep@.len() - k,
    {
        patterns.push(string_from(chars_of(keep[k].as_str()).as_slice()));
        proof {
            assert(patterns@[config.keep@.len() + k as int]@ == keep@[k as int]@);
        }
        k += 1;
    }
    CompressOptions {
        keep_patterns: patterns,
        head_lines: match head {
            Some(h) => h,
            None => config.head_lines,
        },
        tail_lines: match tail {
            Some(t) => t,
            None => config.tail_lines,
        },
        collapse_threshold: config.collapse_threshold,
    }
}

/// Stderr follows stdout in the compressed stream, after a line feed when
/// stdout did not end on one.
pub open spec fn merged_stderr(stdout_empty: bool, stdout_ends_with_nl: bool, stderr: Seq<u8>) -> Seq<u8> {
    (if !stdout_empty && stderr.len() > 0 && !stdout_ends_with_nl {
        seq![10u8]
    } else {
        Seq::<u8>::empty()
    }) + stderr
}

/// Feed a command's stderr after its stdout.
pub fn push_stderr(compressor: &mut StreamCompressor, stdout_empty: bool, stdout_ends_with_nl: bool, stderr: &[u8])
    requires
        old(compressor).ready(),
        old(compressor).pushed_count() + stderr@.len() + 1 <= usize::MAX,
    ensures
        final(compressor).ready(),
        final(compressor).pushed() == old(compressor).pushed() + merged_stderr(stdout_empty, stdout_ends_with_nl, stderr@),
        final(compressor).pats() == old(compressor).pats(),
        final(compressor).head_param() == old(compressor).head_param(),
        final(compressor).tail_param() == old(compressor).tail_param(),
        final(compressor).threshold_param() == old(compressor).threshold_param(),
{
    let ghost p0 = compressor.pushed();
    if !stdout_empty && stderr.len() > 0 && !stdout_ends_with_nl {
        let nl: [u8; 1] = [10u8];
        compressor.push(nl.as_slice());
        proof {
            assert(nl@ =~= seq![10u8]);
        }
    }
    if stderr.len() > 0 {
        compressor.push(stderr);
    }
    proof {
        if stderr@.len() == 0 {
            assert(stderr@ =~= Seq::<u8>::empty());
        }
        assert(compressor.pushed() =~= p0 + merged_stderr(stdout_empty, stdout_ends_with_nl, stderr@));
    }
}

/// The notice for keep patterns that defeated compression.
pub open spec fn ineffective_text(stats: CompressStats) -> Seq<char> {
    "keep patterns matched most of the output; compression saved only "@ + decimal(stats.saved_percent as nat)
        + "% ("@ + grouped(stats.original_tokens as nat) + " -> "@ + grouped(stats.compressed_tokens as nat)
        + " tokens) — check --keep patterns"@
}

/// The notice for keep patterns that defeated compression, when they did.
pub fn ineffective_warning(stats: &CompressStats) -> (r: Option<String>)
    ensures
        match r {
            Some(w) => stats.collapsed && stats.saved_percent <= INEFFECTIVE_SAVED_PERCENT_MAX
                && stats.pattern_kept_lines > 0 && w@ == ineffective_text(*stats),
            None => !(stats.collapsed && stats.saved_percent <= INEFFECTIVE_SAVED_PERCENT_MAX
                && stats.pattern_kept_lines > 0),
        },
{
    if !stats.compression_ineffective() {
        return None;
    }
    let mut m: Vec<char> = Vec::new();
    push_str(&mut m, "keep patterns matched most of the output; compression saved only ");
    let d = decimal_chars(stats.saved_percent as usize);
    push_all(&mut m, d.as_slice());
    push_str(&mut m, "% (");
    let a = group(stats.original_tokens);
    push_str(&mut m, a.as_str());
    push_str(&mut m, " -> ");
    let b = group(stats.compressed_tokens);
    push_str(&mut m, b.as_str());
    push_str(&mut m, " tokens) — check --keep patterns");
    proof {
        assert(m@ =~= ineffective_text(*stats));
    }
    Some(string_from(m.as_slice()))
}

/// The `Saved ~P% (A -> B tokens)` line.
pub open spec fn saved_line(percent: nat, before: nat, after: nat) -> Seq<char> {
    "Saved ~"@ + decimal(percent) + "% ("@ + grouped(before) + " -> "@ + grouped(after) + " tokens)\n"@
}

/// The text report of `exec`: the command line, the compressed bytes (and
/// a line feed) when there are any, the savings line when asked for, and
/// the warning when it goes in-band.
pub open spec fn exec_report_bytes(
    cmd: Seq<char>,
    text: Seq<u8>,
    stats: CompressStats,
    show_saved: bool,
    warning: Option<Seq<char>>,
) -> Seq<u8> {
    encode_utf8("$ "@ + cmd + "\n"@) + (if text.len() > 0 {
        text.push(10u8)
    } else {
        Seq::<u8>::empty()
    }) + (if show_saved {
        encode_utf8(saved_line(stats.saved_percent as nat, stats.original_tokens as nat, stats.compressed_tokens as nat))
    } else {
        Seq::<u8>::empty()
    }) + match warning {
        Some(w) => encode_utf8("warning: "@ + w + "\n"@),
        None => Seq::<u8>::empty(),
    }
}

/// The `Saved ~P% (A -> B tokens)` line.
fn saved_line_text(percent: u32, before: usize, after: usize) -> (r: String)
    ensures
        r@ == saved_line(percent as nat, before as nat, after as nat),
{
    let mut m: Vec<char> = Vec::new();
    push_str(&mut m, "Saved ~");
    let d = decimal_chars(percent as usize);
    push_all(&mut m, d.as_slice());
    push_str(&mut m, "% (");
    let a = group(before);
    push_str(&mut m, a.as_str());
    push_str(&mut m, " -> ");
    let b = group(after);
    push_str(&mut m, b.as_str());
    push_str(&mut m, " tokens)\n");
    proof {
        assert(m@ =~= saved_line(percent as nat, before as nat, after as nat));
    }
    string_from(m.as_slice())
}

/// The view of an optional string.
pub open spec fn opt_text(w: Option<&str>) -> Option<Seq<char>> {
    match w {
        Some(x) => Some(x@),
        None => None,
    }
}

/// The text report of `exec`, as `exec_report_bytes` states it.
pub fn exec_report(cmd: &str, text: &[u8], stats: &CompressStats, show_saved: bool, warning: Option<&str>) -> (r: Vec<u8>)
    ensures
        r@ == exec_report_bytes(cmd@, text@, *stats, show_saved, opt_text(warning)),
{
    let mut head: Vec<char> = Vec::new();
    push_str(&mut head, "$ ");
    push_str(&mut head, cmd);
    push_str(&mut head, "\n");
    let head_s = string_from(head.as_slice());
    let mut out: Vec<u8> = Vec::new();
    crate::bytes::push_bytes(&mut out, head_s.as_str().as_bytes());
    let ghost p1 = out@;
    if text.len() > 0 {
        crate::bytes::push_bytes(&mut out, text);
        out.push(10u8);
    }
    let ghost p2 = out@;
    if show_saved {
        let line = saved_line_text(stats.saved_percent, stats.original_tokens, stats.compressed_tokens);
        crate::bytes::push_bytes(&mut out, line.as_str().as_bytes());
    }
    let ghost p3 = out@;
    match warning {
        Some(w) => {
            let mut m: Vec<char> = Vec::new();
            push_str(&mut m, "warning: ");
            push_str(&mut m, w);
            push_str(&mut m, "\n");
            let ms = string_from(m.as_slice());
            crate::bytes::push_bytes(&mut out, ms.as_str().as_bytes());
            proof {
                assert(ms@ =~= "warning: "@ + w@ + "\n"@);
            }
        },
        None => {},
    }
    proof {
        assert(head_s@ =~= "$ "@ + cmd@ + "\n"@);
        assert(out@ =~= exec_report_bytes(cmd@, text@, *stats, show_saved, opt_text(warning)));
    }
    out
}

/// One slice of a `read` report: a `# path:S-E` line, the text and a line
/// feed.
pub open spec fn read_block(path: Seq<char>, s: nat, e: nat, text: Seq<char>) -> Seq<char> {
    "# "@ + path + ":"@ + decimal(s) + "-"@ + decimal(e) + "\n"@ + text + "\n"@
}

/// The blocks of all slices.
pub open spec fn read_blocks(path: Seq<char>, slices: Seq<(nat, nat, Seq<char>)>) -> Seq<char>
    decreases slices.len(),
{
    if slices.len() == 0 {
        seq![]
    } else {
        let x = slices.last();
        read_blocks(path, slices.drop_last()) + read_block(path, x.0, x.1, x.2)
    }
}

/// The text report of `read`: a block per slice, then the savings line
/// when asked for.
pub fn read_report(
    path: &str,
    slices: &[(usize, usize, String)],
    saved: Option<(u32, usize, usize)>,
) -> (r: String)
    ensures
        r@ == read_blocks(path@, crate::cli::slices_view(slices@)) + match saved {
            Some((p, a, b)) => saved_line(p as nat, a as nat, b as nat),
            None => seq![],
        },
{
    let ghost sv = crate::cli::slices_view(slices@);
    let mut out: Vec<char> = Vec::new();
    let mut j: usize = 0;
    while j < slices.len()
        invariant
            j <= slices@.len(),
            sv == crate::cli::slices_view(slices@),
            out@ == read_blocks(path@, sv.take(j as int)),
        decreases slices@.len() - j,
    {
        let (s, e, ref text) = slices[j];
        let ghost before = out@;
        push_str(&mut out, "# ");
        push_str(&mut out, path);
        push_str(&mut out, ":");
        let ds = decimal_chars(s);
        push_all(&mut out, ds.as_slice());
        push_str(&mut out, "-");
        let de = decimal_chars(e);
        push_all(&mut out, de.as_slice());
        push_str(&mut out, "\n");
        push_str(&mut out, text.as_str());
        push_str(&mut out, "\n");
        proof {
            assert(sv[j as int] == (s as nat, e as nat, text@));
            assert(sv.take(j + 1).drop_last() =~= sv.take(j as int));
            assert(out@ =~= before + read_block(path@, s as nat, e as nat, text@));
        }
        j += 1;
    }
    proof {
        assert(sv.take(slices@.len() as int) =~= sv);
    }
    match saved {
        Some((p, a, b)) => {
            let line = saved_line_text(p, a, b);
            push_str(&mut out, line.as_str());
        },
        None => {
            assert(out@ + Seq::<char>::empty() =~= out@);
        },
    }
    string_from(out.as_slice())
}

/// The location of a symbol: `path:N` for one line, `path:N-M` otherwise.
pub open spec fn symbol_location(path: Seq<char>, start: nat, end: nat) -> Seq<char> {
    path + ":"@ + decimal(start) + if start == end {
        seq![]
    } else {
        "-"@ + decimal(end)
    }
}

/// The header line of a `symbol` report (without its line feed): the
/// name and location, and the delivered tokens with the savings when asked
/// for.
pub open spec fn symbol_header_text(name: Seq<char>, path: Seq<char>, start: nat, end: nat, saved: Option<(nat, nat)>) -> Seq<char> {
    "# "@ + name + "  "@ + symbol_location(path, start, end) + match saved {
        Some((tokens, percent)) => "  ("@ + grouped(tokens) + " tokens, saved ~"@ + decimal(percent) + "%)"@,
        None => seq![],
    }
}

/// The header line of a `symbol` report, as `symbol_header_text` states.
pub fn symbol_header(name: &str, path: &str, start: usize, end: usize, saved: Option<(usize, u32)>) -> (r: String)
    ensures
        r@ == symbol_header_text(name@, path@, start as nat, end as nat, match saved {
            Some((t, p)) => Some((t as nat, p as nat)),
            None => None,
        }),
{
    let mut m: Vec<char> = Vec::new();
    push_str(&mut m, "# ");
    push_str(&mut m, name);
    push_str(&mut m, "  ");
    push_str(&mut m, path);
    push_str(&mut m, ":");
    let ds = decimal_chars(start);
    push_all(&mut m, ds.as_slice());
    if start != end {
        push_str(&mut m, "-");
        let de = decimal_chars(end);
        push_all(&mut m, de.as_slice());
    }
    match saved {
        Some((t, p)) => {
            push_str(&mut m, "  (");
            let g = group(t);
            push_str(&mut m, g.as_str());
            push_str(&mut m, " tokens, saved ~");
            let dp = decimal_chars(p as usize);
            push_all(&mut m, dp.as_slice());
            push_str(&mut m, "%)");
        },
        None => {},
    }
    proof {
        assert(m@ =~= symbol_header_text(name@, path@, start as nat, end as nat, match saved {
            Some((t, p)) => Some((t as nat, p as nat)),
            None => None,
        }));
    }
    string_from(m.as_slice())
}

/// The error for a source file over the configured size limit.
pub open spec fn oversize_text(path: Seq<char>, len: nat, max: nat) -> Seq<char> {
    path + ": file is "@ + decimal(len) + " bytes, exceeding max_file_bytes limit of "@ + decimal(max) + " bytes"@
}

/// The error, exiting with code 1, for a source file of `len` bytes when
/// the limit is `max_file_bytes`; none when the file is within it.
pub fn file_size_error(path: &str, len: u64, max_file_bytes: usize) -> (r: Option<ExitError>)
    ensures
        match r {
            Some(e) => len > max_file_bytes && e.code == 1 && e.message@ == oversize_text(
                path@,
                len as nat,
                max_file_bytes as nat,
            ),
            None => len <= max_file_bytes,
        },
{
    if len as u128 <= max_file_bytes as u128 {
        return None;
    }
    let mut m: Vec<char> = Vec::new();
    push_str(&mut m, path);
    push_str(&mut m, ": file is ");
    let dl = crate::text::decimal_chars_u64(len);
    push_all(&mut m, dl.as_slice());
    push_str(&mut m, " bytes, exceeding max_file_bytes limit of ");
    let dm = decimal_chars(max_file_bytes);
    push_all(&mut m, dm.as_slice());
    push_str(&mut m, " bytes");
    proof {
        assert(m@ =~= oversize_text(path@, len as nat, max_file_bytes as nat));
    }
    Some(ExitError::new(1, string_from(m.as_slice())))
}

/// The exit code of `outline`: 3 when the parse holds ERROR or MISSING
/// nodes (the partial outline is still delivered), 0 for a clean parse.
pub fn outline_exit_code(parsed: &ParsedSource) -> (r: u8)
    requires
        parsed.wf(),
    ensures
        r == (if crate::language::error_metrics(&parsed.syntax).1 > 0 { 3u8 } else { 0u8 }),
{
    if crate::language::parse_error_count(parsed) > 0 {
        3
    } else {
        0
    }
}

} // verus!
