//! Imports as the syntax tree shows them: each language backend names its
//! import node kinds and derives the targets from them. No file system
//! access here; resolution happens in `deps`.

use vstd::prelude::*;
use std::ops::Range;
use crate::seqs::starts_with;
use crate::text::{trim, chars_of, string_from, trim_bounds, copy_range};
use crate::extract::{matches_at, contains_seq, contains_str};
use crate::syntax::SyntaxTree;
use crate::lang::{Lang, is_import_kind};
use crate::lang::util::{opt_view, tree_ok, trimmed_text, field_text, node_text_trimmed, field_text_of,
    strip_leading, strip_trailing};
use crate::compact::strip_semis;
use crate::lang::util::{strip_leading_str, strip_trailing_str, trim_str};
use crate::syntax::str_eq;
use crate::language::ParsedSource;

verus! {

/// A single import extracted from the syntax tree.
#[derive(Debug)]
pub struct Import {
    /// Import target as written (e.g. `serde::Deserialize`, `./helpers`,
    /// `os`). Not normalized or resolved.
    pub target: String,
    /// True for imports the backend classifies as relative or in-crate
    /// (`./x`, `../x`, leading-dot python, `crate::`/`super::`/`self::`,
    /// `mod x;`).
    pub relative: bool,
    /// 1-based line of the import statement.
    pub line: usize,
    /// Byte range of the import node in the original source.
    pub byte_range: Range<usize>,
}

/// Target extraction result from a language backend.
#[derive(Debug, Clone, PartialEq, Eq)]
pub struct ImportTarget {
    pub target: String,
    pub relative: bool,
}

impl Clone for Import {
    fn clone(&self) -> (r: Self)
        ensures
            r.target@ == self.target@,
            r.relative == self.relative,
            r.line == self.line,
            r.byte_range.start == self.byte_range.start,
            r.byte_range.end == self.byte_range.end,
    {
        Import {
            target: self.target.clone(),
            relative: self.relative,
            line: self.line,
            byte_range: self.byte_range.start..self.byte_range.end,
        }
    }
}

// ---------------------------------------------------------------------------
// Rust `use` trees.

/// Index of the first occurrence of `p` in `s` at or after `k`, or -1.
pub open spec fn find_from(s: Seq<char>, p: Seq<char>, k: int) -> int
    decreases s.len() + 1 - k,
{
    if k < 0 || k + p.len() > s.len() {
        -1
    } else if s.subrange(k, k + p.len()) == p {
        k
    } else {
        find_from(s, p, k + 1)
    }
}

/// `s` without its trailing repetitions of `p` (`trim_end_matches`).
pub open spec fn strip_suffix_rep(s: Seq<char>, p: Seq<char>) -> Seq<char>
    decreases s.len(),
{
    if p.len() > 0 && p.len() <= s.len() && s.skip(s.len() - p.len()) == p {
        strip_suffix_rep(s.take(s.len() - p.len()), p)
    } else {
        s
    }
}

/// The pieces of `s` between commas outside braces, from index `i` on,
/// with brace depth `depth` and the current piece starting at `start`;
/// each piece trimmed, an empty last piece dropped.
pub open spec fn split_top(s: Seq<char>, i: int, depth: nat, start: int) -> Seq<Seq<char>>
    decreases s.len() - i,
{
    if i < 0 || i >= s.len() {
        let last = trim(s.subrange(start, s.len() as int));
        if last.len() > 0 {
            seq![last]
        } else {
            seq![]
        }
    } else if s[i] == '{' {
        split_top(s, i + 1, depth + 1, start)
    } else if s[i] == '}' {
        split_top(s, i + 1, if depth > 0 {
            (depth - 1) as nat
        } else {
            0
        }, start)
    } else if s[i] == ',' && depth == 0 {
        seq![trim(s.subrange(start, i))] + split_top(s, i + 1, 0, i + 1)
    } else {
        split_top(s, i + 1, depth, start)
    }
}

/// The targets of a `use` tree's text: `a::{b, c}` gives `a::b` and
/// `a::c`, `{a::x, b::y}` both, `a::b as c` drops the alias, `a::b::*`
/// drops the glob; groups nest. `fuel` bounds the nesting; the text's
/// length suffices, as every step shortens the text and a non-empty
/// target is at least one character long.
pub open spec fn expand_use(text: Seq<char>, fuel: nat) -> Seq<Seq<char>>
    decreases fuel, 0nat,
{
    if fuel == 0 {
        seq![]
    } else if find_from(text, " as "@, 0) >= 0 {
        expand_use(trim(text.take(find_from(text, " as "@, 0))), (fuel - 1) as nat)
    } else if find_from(text, "::{"@, 0) >= 0 {
        let idx = find_from(text, "::{"@, 0);
        let inner0 = strip_suffix_rep(trim(text.skip(idx + 3)), seq![';']);
        let inner = if inner0.len() > 0 && inner0.last() == '}' {
            inner0.drop_last()
        } else {
            inner0
        };
        expand_items(split_top(inner, 0, 0, 0), Some(text.take(idx)), (fuel - 1) as nat)
    } else if trim(text).len() > 0 && trim(text)[0] == '{' {
        let rest = trim(text).skip(1);
        let inner = if rest.len() > 0 && rest.last() == '}' {
            rest.drop_last()
        } else {
            rest
        };
        expand_items(split_top(inner, 0, 0, 0), None, (fuel - 1) as nat)
    } else {
        let target = trim(strip_suffix_rep(trim(text), "::*"@));
        if target.len() > 0 {
            seq![target]
        } else {
            seq![]
        }
    }
}

/// The targets of each group item, in order: with a prefix, `prefix::item`,
/// else the item trimmed.
pub open spec fn expand_items(items: Seq<Seq<char>>, prefix: Option<Seq<char>>, fuel: nat) -> Seq<Seq<char>>
    decreases fuel, items.len() + 1,
{
    if items.len() == 0 {
        seq![]
    } else {
        let x = match prefix {
            Some(p) => p + "::"@ + items.last(),
            None => trim(items.last()),
        };
        expand_items(items.drop_last(), prefix, fuel) + expand_use(x, fuel)
    }
}

/// A Rust import target that stays inside the crate.
pub open spec fn rust_relative(t: Seq<char>) -> bool {
    t == "crate"@ || t == "super"@ || starts_with(t, "crate::"@) || starts_with(t, "super::"@)
        || starts_with(t, "self::"@)
}

proof fn lemma_find_from_range(s: Seq<char>, p: Seq<char>, k: int)
    requires
        k >= 0,
    ensures
        find_from(s, p, k) == -1 || (k <= find_from(s, p, k) && find_from(s, p, k) + p.len() <= s.len()),
    decreases s.len() + 1 - k,
{
    if k + p.len() <= s.len() && s.subrange(k, k + p.len()) != p {
        lemma_find_from_range(s, p, k + 1);
    }
}

/// First occurrence of `p` in `v`.
fn find_exec(v: &[char], p: &str) -> (r: Option<usize>)
    ensures
        match r {
            Some(k) => find_from(v@, p@, 0) == k && k + p@.len() <= v@.len(),
            None => find_from(v@, p@, 0) == -1,
        },
{
    let q = chars_of(p);
    let n = v.len();
    if q.len() > n {
        return None;
    }
    let last = n - q.len();
    let mut k: usize = 0;
    while k <= last
        invariant
            q@ == p@,
            n == v@.len(),
            last == n - q@.len(),
            k <= last + 1,
            find_from(v@, p@, k as int) == find_from(v@, p@, 0),
        decreases last + 1 - k,
    {
        if matches_at(v, q.as_slice(), k) {
            return Some(k);
        }
        if k == last {
            assert(find_from(v@, p@, k + 1) == -1);
            return None;
        }
        k += 1;
    }
    None
}

/// `v[..hi]` without its trailing repetitions of `p`.
fn strip_suffix_rep_end(v: &[char], hi: usize, p: &str) -> (r: usize)
    requires
        hi <= v@.len(),
    ensures
        r <= hi,
        strip_suffix_rep(v@.take(hi as int), p@) == v@.take(r as int),
    decreases hi,
{
    let q = chars_of(p);
    if q.len() > 0 && q.len() <= hi && matches_at(v, q.as_slice(), hi - q.len()) {
        assert(v@.take(hi as int).skip(hi - q@.len()) =~= v@.subrange(hi - q@.len(), hi as int));
        assert(v@.take(hi as int).take(hi - q@.len()) =~= v@.take(hi - q@.len()));
        strip_suffix_rep_end(v, hi - q.len(), p)
    } else {
        proof {
            if q@.len() > 0 && q@.len() <= hi {
                assert(v@.take(hi as int).skip(hi - q@.len()) =~= v@.subrange(hi - q@.len(), hi as int));
            }
        }
        hi
    }
}

/// The trimmed text of `v[lo..hi]`, copied.
fn trimmed_copy(v: &[char], lo: usize, hi: usize) -> (r: Vec<char>)
    requires
        lo <= hi <= v@.len(),
    ensures
        r@ == trim(v@.subrange(lo as int, hi as int)),
        r@.len() <= hi - lo,
{
    let (a, b) = trim_bounds(v, lo, hi);
    copy_range(v, a, b)
}

/// The pieces of `s` between top-level commas.
fn split_top_exec(s: &[char]) -> (r: Vec<Vec<char>>)
    ensures
        r@.map_values(|x: Vec<char>| x@) == split_top(s@, 0, 0, 0),
{
    let n = s.len();
    let mut out: Vec<Vec<char>> = Vec::new();
    let mut depth: usize = 0;
    let mut start: usize = 0;
    let mut i: usize = 0;
    assert(out@.map_values(|x: Vec<char>| x@) =~= Seq::<Seq<char>>::empty());
    while i < n
        invariant
            n == s@.len(),
            start <= i <= n,
            depth <= i,
            out@.map_values(|x: Vec<char>| x@) + split_top(s@, i as int, depth as nat, start as int)
                == split_top(s@, 0, 0, 0),
        decreases n - i,
    {
        let c = s[i];
        if c == '{' {
            depth += 1;
        } else if c == '}' {
            if depth > 0 {
                depth -= 1;
            }
        } else if c == ',' && depth == 0 {
            let piece = trimmed_copy(s, start, i);
            let ghost before = out@.map_values(|x: Vec<char>| x@);
            out.push(piece);
            assert(out@.map_values(|x: Vec<char>| x@) =~= before.push(piece@));
            assert(before + (seq![piece@] + split_top(s@, i + 1, 0, i + 1)) =~= before.push(piece@)
                + split_top(s@, i + 1, 0, i + 1));
            start = i + 1;
        }
        i += 1;
    }
    let last = trimmed_copy(s, start, n);
    if last.len() > 0 {
        let ghost before = out@.map_values(|x: Vec<char>| x@);
        out.push(last);
        assert(out@.map_values(|x: Vec<char>| x@) =~= before + seq![last@]);
    } else {
        assert(out@.map_values(|x: Vec<char>| x@) + Seq::<Seq<char>>::empty() =~= out@.map_values(
            |x: Vec<char>| x@,
        ));
    }
    out
}

/// The targets of a `use` tree's text.
fn expand_use_exec(text: &[char], fuel: usize) -> (r: Vec<Vec<char>>)
    ensures
        r@.map_values(|x: Vec<char>| x@) == expand_use(text@, fuel as nat),
    decreases fuel, 0nat,
{
    if fuel == 0 {
        return Vec::new();
    }
    let n = text.len();
    assert(text@.subrange(0, n as int) =~= text@);
    if let Some(as_at) = find_exec(text, " as ") {
        let head = trimmed_copy(text, 0, as_at);
        assert(text@.subrange(0, as_at as int) =~= text@.take(as_at as int));
        return expand_use_exec(head.as_slice(), fuel - 1);
    }
    if let Some(idx) = find_exec(text, "::{") {
        proof {
            reveal_strlit("::{");
        }
        let after = trimmed_copy(text, idx + 3, n);
        assert(text@.subrange(idx + 3, n as int) =~= text@.skip(idx + 3));
        let e = strip_suffix_rep_end(after.as_slice(), after.len(), ";");
        assert(after@.take(after@.len() as int) =~= after@);
        proof {
            reveal_strlit(";");
            assert(";"@ =~= seq![';']);
        }
        let e2 = if e > 0 && after[e - 1] == '}' {
            e - 1
        } else {
            e
        };
        let inner = copy_range(after.as_slice(), 0, e2);
        assert(inner@ =~= (if after@.take(e as int).len() > 0 && after@.take(e as int).last() == '}' {
            after@.take(e as int).drop_last()
        } else {
            after@.take(e as int)
        }));
        let items = split_top_exec(inner.as_slice());
        let prefix = copy_range(text, 0, idx);
        assert(prefix@ =~= text@.take(idx as int));
        return expand_items_exec(&items, Some(prefix.as_slice()), fuel - 1);
    }
    let (a, b) = trim_bounds(text, 0, n);
    if a < b && text[a] == '{' {
        let ghost t = text@.subrange(a as int, b as int);
        assert(t.skip(1) =~= text@.subrange(a + 1, b as int));
        let b2 = if b > a + 1 && text[b - 1] == '}' {
            b - 1
        } else {
            b
        };
        let inner = copy_range(text, a + 1, b2);
        assert(inner@ =~= (if t.skip(1).len() > 0 && t.skip(1).last() == '}' {
            t.skip(1).drop_last()
        } else {
            t.skip(1)
        }));
        let items = split_top_exec(inner.as_slice());
        return expand_items_exec(&items, None, fuel - 1);
    }
    let tt = copy_range(text, a, b);
    let e = strip_suffix_rep_end(tt.as_slice(), tt.len(), "::*");
    assert(tt@.take(tt@.len() as int) =~= tt@);
    let target = trimmed_copy(tt.as_slice(), 0, e);
    assert(tt@.subrange(0, e as int) =~= tt@.take(e as int));
    let mut out: Vec<Vec<char>> = Vec::new();
    if target.len() > 0 {
        out.push(target);
        assert(out@.map_values(|x: Vec<char>| x@) =~= seq![target@]);
    } else {
        assert(out@.map_values(|x: Vec<char>| x@) =~= Seq::<Seq<char>>::empty());
    }
    out
}

/// The targets of each group item, in order.
fn expand_items_exec(items: &Vec<Vec<char>>, prefix: Option<&[char]>, fuel: usize) -> (r: Vec<Vec<char>>)
    ensures
        r@.map_values(|x: Vec<char>| x@) == expand_items(
            items@.map_values(|x: Vec<char>| x@),
            match prefix {
                Some(p) => Some(p@),
                None => None,
            },
            fuel as nat,
        ),
    decreases fuel, 1nat,
{
    let ghost iv = items@.map_values(|x: Vec<char>| x@);
    let ghost pv: Option<Seq<char>> = match prefix {
        Some(p) => Some(p@),
        None => None,
    };
    let mut out: Vec<Vec<char>> = Vec::new();
    let mut k: usize = 0;
    assert(iv.take(0) =~= Seq::<Seq<char>>::empty());
    assert(out@.map_values(|x: Vec<char>| x@) =~= Seq::<Seq<char>>::empty());
    while k < items.len()
        invariant
            k <= items@.len(),
            iv == items@.map_values(|x: Vec<char>| x@),
            pv == (match prefix {
                Some(p) => Some(p@),
                None => None,
            }),
            out@.map_values(|x: Vec<char>| x@) == expand_items(iv.take(k as int), pv, fuel as nat),
        decreases items@.len() - k,
    {
        let x: Vec<char> = match prefix {
            Some(p) => {
                let mut v = copy_range(p, 0, p.len());
                assert(v@ =~= p@);
                v.push(':');
                v.push(':');
                let item = items[k].as_slice();
                let mut j: usize = 0;
                let ghost base = v@;
                while j < item.len()
                    invariant
                        j <= item@.len(),
                        v@ == base + item@.take(j as int),
                    decreases item@.len() - j,
                {
                    v.push(item[j]);
                    j += 1;
                    assert(item@.take(j as int) =~= item@.take(j - 1).push(item@[j - 1]));
                }
                assert(item@.take(item@.len() as int) =~= item@);
                proof {
                    reveal_strlit("::");
                }
                assert(v@ =~= p@ + "::"@ + iv[k as int]);
                v
            },
            None => {
                let item = items[k].as_slice();
                trimmed_copy(item, 0, item.len())
            },
        };
        proof {
            assert(iv.take(k + 1).drop_last() =~= iv.take(k as int));
            assert(iv.take(k + 1).last() == iv[k as int]);
            if prefix is None {
                assert(items@[k as int]@.subrange(0, items@[k as int]@.len() as int) =~= items@[k as int]@);
            }
        }
        let mut sub = expand_use_exec(x.as_slice(), fuel);
        let ghost before = out@;
        let ghost subv = sub@;
        out.append(&mut sub);
        assert(out@.map_values(|y: Vec<char>| y@) =~= before.map_values(|y: Vec<char>| y@) + subv.map_values(|y: Vec<char>| y@));
        k += 1;
    }
    assert(iv.take(items@.len() as int) =~= iv);
    out
}

// ---------------------------------------------------------------------------
// Targets per language.

/// A string literal's text without its quotes: it must open with a quote;
/// a closing quote is dropped when present.
pub open spec fn unquote(x: Seq<char>) -> Option<Seq<char>> {
    if x.len() > 0 && (x[0] == '\'' || x[0] == '"') {
        let u = x.skip(1);
        Some(
            if u.len() > 0 && (u.last() == '\'' || u.last() == '"') {
                u.drop_last()
            } else {
                u
            },
        )
    } else {
        None
    }
}

/// The unquoted text of a string literal node.
pub open spec fn string_value(t: &SyntaxTree, b: Seq<u8>, i: usize) -> Option<Seq<char>> {
    match trimmed_text(t, b, i) {
        Some(x) => unquote(x),
        None => None,
    }
}

/// A path written relative to the importing file.
pub open spec fn is_rel_path(x: Seq<char>) -> bool {
    starts_with(x, "./"@) || starts_with(x, "../"@)
}

/// `s` without leading and trailing `"`, `<` and `>`.
pub open spec fn strip_include_quotes(s: Seq<char>) -> Seq<char> {
    strip_trailing3(strip_leading3(s))
}

pub open spec fn is_include_quote(c: char) -> bool {
    c == '"' || c == '<' || c == '>'
}

pub open spec fn strip_leading3(s: Seq<char>) -> Seq<char>
    decreases s.len(),
{
    if s.len() > 0 && is_include_quote(s[0]) {
        strip_leading3(s.drop_first())
    } else {
        s
    }
}

pub open spec fn strip_trailing3(s: Seq<char>) -> Seq<char>
    decreases s.len(),
{
    if s.len() > 0 && is_include_quote(s.last()) {
        strip_trailing3(s.drop_last())
    } else {
        s
    }
}

/// Rust: `use` trees (one target per leaf), `mod x;` (in-crate), and
/// `extern crate x;`.
pub open spec fn rust_targets(t: &SyntaxTree, b: Seq<u8>, i: usize) -> Seq<(Seq<char>, bool)> {
    if t.kind_is(i, "use_declaration"@) {
        match field_text(t, b, i, "argument"@) {
            Some(x) => expand_use(x, x.len()).map_values(|y: Seq<char>| (y, rust_relative(y))),
            None => seq![],
        }
    } else if t.kind_is(i, "mod_item"@) {
        if t.field_child(i, "body"@) is Some {
            seq![]
        } else {
            match field_text(t, b, i, "name"@) {
                Some(x) => seq![(x, true)],
                None => seq![],
            }
        }
    } else if t.kind_is(i, "extern_crate_declaration"@) {
        match field_text(t, b, i, "name"@) {
            Some(x) => seq![(x, false)],
            None => seq![],
        }
    } else {
        seq![]
    }
}

/// Python `import a, b as c`: one target per imported name, among the
/// children of `i` from position `j` on.
pub open spec fn py_names_from(t: &SyntaxTree, b: Seq<u8>, i: usize, j: usize) -> Seq<(Seq<char>, bool)>
    decreases t.end(i) - j,
{
    if !t.child_at(i, j) {
        seq![]
    } else {
        let name = if t.kind_is(j, "dotted_name"@) {
            Some(j)
        } else if t.kind_is(j, "aliased_import"@) {
            t.named_child(j, 0)
        } else {
            None
        };
        let here = match name {
            Some(n) => match trimmed_text(t, b, n) {
                Some(x) => seq![(x, false)],
                None => seq![],
            },
            None => seq![],
        };
        here + py_names_from(t, b, i, t.end(j))
    }
}

/// Python: `import` names, and `from` modules (relative with a leading dot).
pub open spec fn python_targets(t: &SyntaxTree, b: Seq<u8>, i: usize) -> Seq<(Seq<char>, bool)> {
    if t.kind_is(i, "import_statement"@) {
        if i < usize::MAX {
            py_names_from(t, b, i, (i + 1) as usize)
        } else {
            seq![]
        }
    } else if t.kind_is(i, "import_from_statement"@) {
        match field_text(t, b, i, "module_name"@) {
            Some(x) => seq![(x, x.len() > 0 && x[0] == '.')],
            None => seq![],
        }
    } else {
        seq![]
    }
}

/// Go: the import spec's path without its quotes.
pub open spec fn go_targets(t: &SyntaxTree, b: Seq<u8>, i: usize) -> Seq<(Seq<char>, bool)> {
    match field_text(t, b, i, "path"@) {
        Some(x) => {
            let u = strip_trailing(strip_leading(x, '"', '`'), '"', '`');
            if u.len() > 0 {
                seq![(u, false)]
            } else {
                seq![]
            }
        },
        None => seq![],
    }
}

/// A `source` string of an import or re-export.
pub open spec fn source_target(t: &SyntaxTree, b: Seq<u8>, i: usize) -> Seq<(Seq<char>, bool)> {
    match t.field_child(i, "source"@) {
        Some(src) => match string_value(t, b, src) {
            Some(x) => seq![(x, is_rel_path(x))],
            None => seq![],
        },
        None => seq![],
    }
}

/// `require('x')`: the first argument of a call to `require`.
pub open spec fn require_target(t: &SyntaxTree, b: Seq<u8>, i: usize) -> Seq<(Seq<char>, bool)> {
    match t.field_child(i, "function"@) {
        Some(f) => if t.text(b, f) == Some("require"@) {
            match t.field_child(i, "arguments"@) {
                Some(args) => match t.named_child(args, 0) {
                    Some(first) => match string_value(t, b, first) {
                        Some(x) => seq![(x, is_rel_path(x))],
                        None => seq![],
                    },
                    None => seq![],
                },
                None => seq![],
            }
        } else {
            seq![]
        },
        None => seq![],
    }
}

/// TypeScript: import and re-export sources, and `require` calls outside
/// `import x = require(...)` (whose clause carries the source itself).
pub open spec fn typescript_targets(t: &SyntaxTree, b: Seq<u8>, i: usize) -> Seq<(Seq<char>, bool)> {
    if t.kind_is(i, "import_statement"@) || t.kind_is(i, "import_require_clause"@) || t.kind_is(
        i,
        "export_statement"@,
    ) {
        source_target(t, b, i)
    } else if t.kind_is(i, "call_expression"@) {
        if (t.node(i).parent matches Some(p) && p < t.len() && t.kind_is(p, "import_require_clause"@)) {
            seq![]
        } else {
            require_target(t, b, i)
        }
    } else {
        seq![]
    }
}

/// JavaScript: import and re-export sources, and `require` calls.
pub open spec fn javascript_targets(t: &SyntaxTree, b: Seq<u8>, i: usize) -> Seq<(Seq<char>, bool)> {
    if t.kind_is(i, "import_statement"@) || t.kind_is(i, "export_statement"@) {
        source_target(t, b, i)
    } else if t.kind_is(i, "call_expression"@) {
        require_target(t, b, i)
    } else {
        seq![]
    }
}

/// `s` up to its last `.`, when it has one.
pub open spec fn before_last_dot(s: Seq<char>) -> Seq<char> {
    if crate::paths::last_index(s, '.') >= 0 {
        s.take(crate::paths::last_index(s, '.'))
    } else {
        s
    }
}

/// Java: the first path child from position `j` on; a static import
/// drops its member.
pub open spec fn java_from(t: &SyntaxTree, b: Seq<u8>, i: usize, j: usize, is_static: bool) -> Seq<(Seq<char>, bool)>
    decreases t.end(i) - j,
{
    if !t.child_at(i, j) {
        seq![]
    } else if t.kind_is(j, "static"@) {
        java_from(t, b, i, t.end(j), true)
    } else if (t.kind_is(j, "scoped_identifier"@) || t.kind_is(j, "identifier"@)) && trimmed_text(t, b, j) is Some {
        let x = trimmed_text(t, b, j)->0;
        seq![(if is_static { before_last_dot(x) } else { x }, false)]
    } else {
        java_from(t, b, i, t.end(j), is_static)
    }
}

/// Java: `import a.b.C;`, `import static a.b.C.m;`, `import a.b.*;`.
pub open spec fn java_targets(t: &SyntaxTree, b: Seq<u8>, i: usize) -> Seq<(Seq<char>, bool)> {
    if i < usize::MAX {
        java_from(t, b, i, (i + 1) as usize, false)
    } else {
        seq![]
    }
}

/// `#include`: quoted paths are relative to the file, angle paths are
/// system headers.
pub open spec fn include_target(t: &SyntaxTree, b: Seq<u8>, i: usize) -> Seq<(Seq<char>, bool)> {
    match t.field_child(i, "path"@) {
        Some(p) => match trimmed_text(t, b, p) {
            Some(x) => seq![(strip_include_quotes(x), t.kind_is(p, "string_literal"@))],
            None => seq![],
        },
        None => seq![],
    }
}

/// C++ `using namespace a;` and `using a::b;`; aliases are not imports.
pub open spec fn using_target(t: &SyntaxTree, b: Seq<u8>, i: usize) -> Seq<(Seq<char>, bool)> {
    match trimmed_text(t, b, i) {
        Some(x) => if contains_seq(x, "="@) || !starts_with(x, "using"@) {
            seq![]
        } else {
            let after = trim(x.skip(5));
            let a2 = if starts_with(after, "namespace"@) {
                after.skip(9)
            } else {
                after
            };
            seq![(trim(strip_semis(trim(a2))), false)]
        },
        None => seq![],
    }
}

/// C++: includes and `using` declarations.
pub open spec fn cpp_targets(t: &SyntaxTree, b: Seq<u8>, i: usize) -> Seq<(Seq<char>, bool)> {
    if t.kind_is(i, "preproc_include"@) {
        include_target(t, b, i)
    } else if t.kind_is(i, "using_declaration"@) {
        using_target(t, b, i)
    } else {
        seq![]
    }
}

/// C#: `using a.b;` names its namespace in the last named child; aliases
/// are not imports.
pub open spec fn csharp_targets(t: &SyntaxTree, b: Seq<u8>, i: usize) -> Seq<(Seq<char>, bool)> {
    match t.text(b, i) {
        Some(x) => if contains_seq(x, "="@) || t.named_children(i).len() == 0 {
            seq![]
        } else {
            match trimmed_text(t, b, t.named_children(i).last()) {
                Some(y) => seq![(y, false)],
                None => seq![],
            }
        },
        None => seq![],
    }
}

/// Ruby: `require` and `require_relative` with a string argument.
pub open spec fn ruby_targets(t: &SyntaxTree, b: Seq<u8>, i: usize) -> Seq<(Seq<char>, bool)> {
    match field_text(t, b, i, "method"@) {
        Some(m) => if m != "require"@ && m != "require_relative"@ {
            seq![]
        } else {
            match t.field_child(i, "arguments"@) {
                Some(args) => match t.named_child(args, 0) {
                    Some(first) => match string_value(t, b, first) {
                        Some(x) => seq![(x, m == "require_relative"@ || is_rel_path(x))],
                        None => seq![],
                    },
                    None => seq![],
                },
                None => seq![],
            }
        },
        None => seq![],
    }
}

/// A Lua string's content, else its unquoted text.
pub open spec fn lua_string(t: &SyntaxTree, b: Seq<u8>, i: usize) -> Option<Seq<char>> {
    if t.kind_is(i, "string"@) && field_text(t, b, i, "content"@) is Some {
        field_text(t, b, i, "content"@)
    } else {
        string_value(t, b, i)
    }
}

/// Lua: `require "x"` and `require("x")`.
pub open spec fn lua_targets(t: &SyntaxTree, b: Seq<u8>, i: usize) -> Seq<(Seq<char>, bool)> {
    if field_text(t, b, i, "name"@) == Some("require"@) {
        match t.field_child(i, "arguments"@) {
            Some(args) => match t.named_child(args, 0) {
                Some(first) => match lua_string(t, b, first) {
                    Some(x) => seq![(x, is_rel_path(x))],
                    None => seq![],
                },
                None => seq![],
            },
            None => seq![],
        }
    } else {
        seq![]
    }
}

/// The targets the language reads from import node `i`.
pub open spec fn import_targets(l: Lang, t: &SyntaxTree, b: Seq<u8>, i: usize) -> Seq<(Seq<char>, bool)> {
    match l {
        Lang::Rust => rust_targets(t, b, i),
        Lang::Python => python_targets(t, b, i),
        Lang::Go => go_targets(t, b, i),
        Lang::TypeScript => typescript_targets(t, b, i),
        Lang::JavaScript => javascript_targets(t, b, i),
        Lang::Java => java_targets(t, b, i),
        Lang::C => include_target(t, b, i),
        Lang::Cpp => cpp_targets(t, b, i),
        Lang::CSharp => csharp_targets(t, b, i),
        Lang::Ruby => ruby_targets(t, b, i),
        Lang::Lua => lua_targets(t, b, i),
        _ => seq![],
    }
}

// ---------------------------------------------------------------------------
// Executable target extraction.

/// Targets as (text, relative) pairs.
pub open spec fn targets_view(v: Seq<ImportTarget>) -> Seq<(Seq<char>, bool)> {
    v.map_values(|x: ImportTarget| (x.target@, x.relative))
}

/// A single target.
fn one_target(target: String, relative: bool) -> (r: Vec<ImportTarget>)
    ensures
        targets_view(r@) == seq![(target@, relative)],
{
    let mut v: Vec<ImportTarget> = Vec::new();
    v.push(ImportTarget { target, relative });
    assert(targets_view(v@) =~= seq![(v@[0].target@, relative)]);
    v
}

/// No target.
fn no_target() -> (r: Vec<ImportTarget>)
    ensures
        targets_view(r@) == Seq::<(Seq<char>, bool)>::empty(),
{
    let v: Vec<ImportTarget> = Vec::new();
    assert(targets_view(v@) =~= Seq::<(Seq<char>, bool)>::empty());
    v
}

/// `x` starts with `p`.
fn str_starts_with(x: &str, p: &str) -> (r: bool)
    ensures
        r == starts_with(x@, p@),
{
    let v = chars_of(x);
    let q = chars_of(p);
    if q.len() > v.len() {
        return false;
    }
    let b = matches_at(v.as_slice(), q.as_slice(), 0);
    assert(v@.subrange(0, q@.len() as int) =~= v@.take(q@.len() as int));
    b
}

/// A path written relative to the importing file.
fn rel_path(x: &str) -> (r: bool)
    ensures
        r == is_rel_path(x@),
{
    str_starts_with(x, "./") || str_starts_with(x, "../")
}

/// A string literal's text without its quotes.
fn unquote_exec(x: &str) -> (r: Option<String>)
    ensures
        opt_view(r) == unquote(x@),
{
    let v = chars_of(x);
    let n = v.len();
    if !(n > 0 && (v[0] == '\'' || v[0] == '"')) {
        return None;
    }
    let e = if n > 1 && (v[n - 1] == '\'' || v[n - 1] == '"') {
        n - 1
    } else {
        n
    };
    let w = copy_range(v.as_slice(), 1, e);
    proof {
        let u = x@.skip(1);
        assert(u =~= v@.subrange(1, n as int));
        if n > 1 && (v@[n - 1] == '\'' || v@[n - 1] == '"') {
            assert(u.drop_last() =~= w@);
        } else {
            assert(u =~= w@);
        }
    }
    Some(string_from(w.as_slice()))
}

/// The unquoted text of a string literal node.
fn string_value_exec(t: &SyntaxTree, b: &[u8], i: usize) -> (r: Option<String>)
    requires
        tree_ok(t, b@),
        i < t.len(),
    ensures
        opt_view(r) == string_value(t, b@, i),
{
    match node_text_trimmed(t, b, i) {
        Some(x) => unquote_exec(x.as_str()),
        None => None,
    }
}

/// A Rust import target that stays inside the crate.
fn rust_relative_exec(x: &str) -> (r: bool)
    ensures
        r == rust_relative(x@),
{
    str_eq(x, "crate") || str_eq(x, "super") || str_starts_with(x, "crate::") || str_starts_with(
        x,
        "super::",
    ) || str_starts_with(x, "self::")
}

fn rust_targets_exec(t: &SyntaxTree, b: &[u8], i: usize) -> (r: Vec<ImportTarget>)
    requires
        tree_ok(t, b@),
        i < t.len(),
    ensures
        targets_view(r@) == rust_targets(t, b@, i),
{
    if t.kind_eq(i, "use_declaration") {
        let text = match field_text_of(t, b, i, "argument") {
            Some(x) => x,
            None => return no_target(),
        };
        let v = chars_of(text.as_str());
        let items = expand_use_exec(v.as_slice(), v.len());
        let ghost iv = items@.map_values(|y: Vec<char>| y@);
        let mut out: Vec<ImportTarget> = Vec::new();
        let mut k: usize = 0;
        while k < items.len()
            invariant
                k <= items@.len(),
                iv == items@.map_values(|y: Vec<char>| y@),
                targets_view(out@) == iv.take(k as int).map_values(|y: Seq<char>| (y, rust_relative(y))),
            decreases items@.len() - k,
        {
            let target = string_from(items[k].as_slice());
            let rel = rust_relative_exec(target.as_str());
            let ghost before = targets_view(out@);
            out.push(ImportTarget { target, relative: rel });
            assert(targets_view(out@) =~= before.push((iv[k as int], rust_relative(iv[k as int]))));
            assert(iv.take(k + 1).map_values(|y: Seq<char>| (y, rust_relative(y))) =~= iv.take(k as int).map_values(
                |y: Seq<char>| (y, rust_relative(y)),
            ).push((iv[k as int], rust_relative(iv[k as int]))));
            k += 1;
        }
        assert(iv.take(items@.len() as int) =~= iv);
        return out;
    }
    if t.kind_eq(i, "mod_item") {
        if t.child_by_field_name(i, "body").is_some() {
            return no_target();
        }
        return match field_text_of(t, b, i, "name") {
            Some(x) => one_target(x, true),
            None => no_target(),
        };
    }
    if t.kind_eq(i, "extern_crate_declaration") {
        return match field_text_of(t, b, i, "name") {
            Some(x) => one_target(x, false),
            None => no_target(),
        };
    }
    no_target()
}

fn python_targets_exec(t: &SyntaxTree, b: &[u8], i: usize) -> (r: Vec<ImportTarget>)
    requires
        tree_ok(t, b@),
        i < t.len(),
    ensures
        targets_view(r@) == python_targets(t, b@, i),
{
    if t.kind_eq(i, "import_statement") {
        if i == usize::MAX {
            return no_target();
        }
        let mut out: Vec<ImportTarget> = Vec::new();
        let mut j = i + 1;
        assert(targets_view(out@) =~= Seq::<(Seq<char>, bool)>::empty());
        loop
            invariant
                tree_ok(t, b@),
                i < t.len(),
                i < usize::MAX,
                t.kind_is(i, "import_statement"@),
                targets_view(out@) + py_names_from(t, b@, i, j) == py_names_from(t, b@, i, (i + 1) as usize),
            decreases t.end(i) - j,
        {
            if !t.step_ok(i, j) {
                assert(py_names_from(t, b@, i, j) == Seq::<(Seq<char>, bool)>::empty());
                assert(targets_view(out@) + Seq::<(Seq<char>, bool)>::empty() =~= targets_view(out@));
                return out;
            }
            let name = if t.kind_eq(j, "dotted_name") {
                Some(j)
            } else if t.kind_eq(j, "aliased_import") {
                t.named_child_at(j, 0)
            } else {
                None
            };
            let ghost before = targets_view(out@);
            if let Some(n) = name {
                if let Some(x) = node_text_trimmed(t, b, n) {
                    let ghost xv = x@;
                    out.push(ImportTarget { target: x, relative: false });
                    assert(targets_view(out@) =~= before + seq![(xv, false)]);
                }
            }
            j = t.ends[j];
        }
    }
    if t.kind_eq(i, "import_from_statement") {
        return match field_text_of(t, b, i, "module_name") {
            Some(x) => {
                let v = chars_of(x.as_str());
                let rel = v.len() > 0 && v[0] == '.';
                one_target(x, rel)
            },
            None => no_target(),
        };
    }
    no_target()
}

fn go_targets_exec(t: &SyntaxTree, b: &[u8], i: usize) -> (r: Vec<ImportTarget>)
    requires
        tree_ok(t, b@),
        i < t.len(),
    ensures
        targets_view(r@) == go_targets(t, b@, i),
{
    match field_text_of(t, b, i, "path") {
        Some(x) => {
            let a = strip_leading_str(x.as_str(), '"', '`');
            let u = strip_trailing_str(a.as_str(), '"', '`');
            let v = chars_of(u.as_str());
            if v.len() > 0 {
                one_target(u, false)
            } else {
                no_target()
            }
        },
        None => no_target(),
    }
}

fn source_target_exec(t: &SyntaxTree, b: &[u8], i: usize) -> (r: Vec<ImportTarget>)
    requires
        tree_ok(t, b@),
        i < t.len(),
    ensures
        targets_view(r@) == source_target(t, b@, i),
{
    match t.child_by_field_name(i, "source") {
        Some(src) => match string_value_exec(t, b, src) {
            Some(x) => {
                let rel = rel_path(x.as_str());
                one_target(x, rel)
            },
            None => no_target(),
        },
        None => no_target(),
    }
}

fn require_target_exec(t: &SyntaxTree, b: &[u8], i: usize) -> (r: Vec<ImportTarget>)
    requires
        tree_ok(t, b@),
        i < t.len(),
    ensures
        targets_view(r@) == require_target(t, b@, i),
{
    let f = match t.child_by_field_name(i, "function") {
        Some(f) => f,
        None => return no_target(),
    };
    let is_require = match t.node_text(b, f) {
        Some(x) => str_eq(x.as_str(), "require"),
        None => false,
    };
    if !is_require {
        return no_target();
    }
    let args = match t.child_by_field_name(i, "arguments") {
        Some(a) => a,
        None => return no_target(),
    };
    let first = match t.named_child_at(args, 0) {
        Some(x) => x,
        None => return no_target(),
    };
    match string_value_exec(t, b, first) {
        Some(x) => {
            let rel = rel_path(x.as_str());
            one_target(x, rel)
        },
        None => no_target(),
    }
}

fn typescript_targets_exec(t: &SyntaxTree, b: &[u8], i: usize) -> (r: Vec<ImportTarget>)
    requires
        tree_ok(t, b@),
        i < t.len(),
    ensures
        targets_view(r@) == typescript_targets(t, b@, i),
{
    if t.kind_eq(i, "import_statement") || t.kind_eq(i, "import_require_clause") || t.kind_eq(
        i,
        "export_statement",
    ) {
        return source_target_exec(t, b, i);
    }
    if t.kind_eq(i, "call_expression") {
        let in_clause = match t.nodes[i].parent {
            Some(p) => p < t.nodes.len() && t.kind_eq(p, "import_require_clause"),
            None => false,
        };
        if in_clause {
            return no_target();
        }
        return require_target_exec(t, b, i);
    }
    no_target()
}

fn javascript_targets_exec(t: &SyntaxTree, b: &[u8], i: usize) -> (r: Vec<ImportTarget>)
    requires
        tree_ok(t, b@),
        i < t.len(),
    ensures
        targets_view(r@) == javascript_targets(t, b@, i),
{
    if t.kind_eq(i, "import_statement") || t.kind_eq(i, "export_statement") {
        return source_target_exec(t, b, i);
    }
    if t.kind_eq(i, "call_expression") {
        return require_target_exec(t, b, i);
    }
    no_target()
}

/// `s` up to its last `.`, when it has one.
fn before_last_dot_exec(x: String) -> (r: String)
    ensures
        r@ == before_last_dot(x@),
{
    let v = chars_of(x.as_str());
    let mut k = v.len();
    while k > 0 && v[k - 1] != '.'
        invariant
            k <= v@.len(),
            v@ == x@,
            forall|m: int| k <= m < v@.len() ==> v@[m] != '.',
        decreases k,
    {
        k -= 1;
    }
    proof {
        crate::paths::lemma_last_index_at(x@, '.', k - 1);
    }
    if k == 0 {
        return x;
    }
    let w = copy_range(v.as_slice(), 0, k - 1);
    assert(w@ =~= x@.take(k - 1));
    string_from(w.as_slice())
}

fn java_targets_exec(t: &SyntaxTree, b: &[u8], i: usize) -> (r: Vec<ImportTarget>)
    requires
        tree_ok(t, b@),
        i < t.len(),
    ensures
        targets_view(r@) == java_targets(t, b@, i),
{
    if i == usize::MAX {
        return no_target();
    }
    let mut is_static = false;
    let mut j = i + 1;
    loop
        invariant
            tree_ok(t, b@),
            i < t.len(),
            i < usize::MAX,
            java_from(t, b@, i, j, is_static) == java_targets(t, b@, i),
        decreases t.end(i) - j,
    {
        if !t.step_ok(i, j) {
            return no_target();
        }
        if t.kind_eq(j, "static") {
            is_static = true;
        } else if t.kind_eq(j, "scoped_identifier") || t.kind_eq(j, "identifier") {
            if let Some(x) = node_text_trimmed(t, b, j) {
                let target = if is_static {
                    before_last_dot_exec(x)
                } else {
                    x
                };
                return one_target(target, false);
            }
        }
        j = t.ends[j];
    }
}

/// `s` without leading and trailing `"`, `<` and `>`.
fn strip_include_quotes_exec(x: &str) -> (r: String)
    ensures
        r@ == strip_include_quotes(x@),
{
    let v = chars_of(x);
    let n = v.len();
    let mut lo: usize = 0;
    assert(v@.subrange(0, n as int) =~= v@);
    while lo < n && (v[lo] == '"' || v[lo] == '<' || v[lo] == '>')
        invariant
            lo <= n == v@.len(),
            strip_leading3(x@) == strip_leading3(v@.subrange(lo as int, n as int)),
            v@ == x@,
        decreases n - lo,
    {
        assert(v@.subrange(lo as int, n as int).drop_first() =~= v@.subrange(lo + 1, n as int));
        lo += 1;
    }
    let mut hi = n;
    assert(strip_leading3(x@) == v@.subrange(lo as int, n as int));
    while hi > lo && (v[hi - 1] == '"' || v[hi - 1] == '<' || v[hi - 1] == '>')
        invariant
            lo <= hi <= n == v@.len(),
            strip_include_quotes(x@) == strip_trailing3(v@.subrange(lo as int, hi as int)),
        decreases hi,
    {
        assert(v@.subrange(lo as int, hi as int).drop_last() =~= v@.subrange(lo as int, hi - 1));
        hi -= 1;
    }
    let w = copy_range(v.as_slice(), lo, hi);
    string_from(w.as_slice())
}

fn include_target_exec(t: &SyntaxTree, b: &[u8], i: usize) -> (r: Vec<ImportTarget>)
    requires
        tree_ok(t, b@),
        i < t.len(),
    ensures
        targets_view(r@) == include_target(t, b@, i),
{
    let p = match t.child_by_field_name(i, "path") {
        Some(p) => p,
        None => return no_target(),
    };
    match node_text_trimmed(t, b, p) {
        Some(x) => {
            let rel = t.kind_eq(p, "string_literal");
            one_target(strip_include_quotes_exec(x.as_str()), rel)
        },
        None => no_target(),
    }
}

fn using_target_exec(t: &SyntaxTree, b: &[u8], i: usize) -> (r: Vec<ImportTarget>)
    requires
        tree_ok(t, b@),
        i < t.len(),
    ensures
        targets_view(r@) == using_target(t, b@, i),
{
    let x = match node_text_trimmed(t, b, i) {
        Some(x) => x,
        None => return no_target(),
    };
    if contains_str(x.as_str(), "=") || !str_starts_with(x.as_str(), "using") {
        return no_target();
    }
    proof {
        reveal_strlit("using");
        reveal_strlit("namespace");
    }
    let v = chars_of(x.as_str());
    let n = v.len();
    let after = trimmed_copy(v.as_slice(), 5, n);
    assert(v@.subrange(5, n as int) =~= x@.skip(5));
    let a = string_from(after.as_slice());
    let a2: Vec<char> = if str_starts_with(a.as_str(), "namespace") {
        let w = copy_range(after.as_slice(), 9, after.len());
        assert(w@ =~= after@.skip(9));
        w
    } else {
        after
    };
    let t2 = trimmed_copy(a2.as_slice(), 0, a2.len());
    assert(a2@.subrange(0, a2@.len() as int) =~= a2@);
    let e = semis_end(t2.as_slice(), t2.len());
    assert(t2@.subrange(0, t2@.len() as int) =~= t2@);
    let target = trimmed_copy(t2.as_slice(), 0, e);
    one_target(string_from(target.as_slice()), false)
}

/// End of `v[..hi]` without its trailing `;` run.
fn semis_end(v: &[char], hi: usize) -> (r: usize)
    requires
        hi <= v@.len(),
    ensures
        r <= hi,
        strip_semis(v@.subrange(0, hi as int)) == v@.subrange(0, r as int),
    decreases hi,
{
    if hi > 0 && v[hi - 1] == ';' {
        assert(v@.subrange(0, hi as int).drop_last() =~= v@.subrange(0, hi - 1));
        semis_end(v, hi - 1)
    } else {
        hi
    }
}

fn cpp_targets_exec(t: &SyntaxTree, b: &[u8], i: usize) -> (r: Vec<ImportTarget>)
    requires
        tree_ok(t, b@),
        i < t.len(),
    ensures
        targets_view(r@) == cpp_targets(t, b@, i),
{
    if t.kind_eq(i, "preproc_include") {
        include_target_exec(t, b, i)
    } else if t.kind_eq(i, "using_declaration") {
        using_target_exec(t, b, i)
    } else {
        no_target()
    }
}

fn csharp_targets_exec(t: &SyntaxTree, b: &[u8], i: usize) -> (r: Vec<ImportTarget>)
    requires
        tree_ok(t, b@),
        i < t.len(),
    ensures
        targets_view(r@) == csharp_targets(t, b@, i),
{
    let x = match t.node_text(b, i) {
        Some(x) => x,
        None => return no_target(),
    };
    if contains_str(x.as_str(), "=") {
        return no_target();
    }
    if i == usize::MAX {
        return no_target();
    }
    // The last named child.
    let mut last: Option<usize> = None;
    let mut j = i + 1;
    let ghost mut pre: Seq<usize> = seq![];
    loop
        invariant
            tree_ok(t, b@),
            i < t.len(),
            i < usize::MAX,
            t.named_children(i) == pre + t.named_from(i, j),
            last == (if pre.len() > 0 {
                Some(pre.last())
            } else {
                None::<usize>
            }),
            forall|m: int| 0 <= m < pre.len() ==> #[trigger] pre[m] < t.len(),
        ensures
            t.named_children(i) == pre,
            last == (if pre.len() > 0 {
                Some(pre.last())
            } else {
                None::<usize>
            }),
            forall|m: int| 0 <= m < pre.len() ==> #[trigger] pre[m] < t.len(),
        decreases t.end(i) - j,
    {
        if !t.step_ok(i, j) {
            assert(t.named_children(i) =~= pre);
            break;
        }
        if t.nodes[j].named {
            proof {
                assert(pre + t.named_from(i, j) =~= pre.push(j) + t.named_from(i, t.end(j)));
                pre = pre.push(j);
            }
            last = Some(j);
        }
        j = t.ends[j];
    }
    match last {
        Some(n) => match node_text_trimmed(t, b, n) {
            Some(y) => one_target(y, false),
            None => no_target(),
        },
        None => no_target(),
    }
}

fn ruby_targets_exec(t: &SyntaxTree, b: &[u8], i: usize) -> (r: Vec<ImportTarget>)
    requires
        tree_ok(t, b@),
        i < t.len(),
    ensures
        targets_view(r@) == ruby_targets(t, b@, i),
{
    let m = match field_text_of(t, b, i, "method") {
        Some(m) => m,
        None => return no_target(),
    };
    let is_rel = str_eq(m.as_str(), "require_relative");
    if !str_eq(m.as_str(), "require") && !is_rel {
        return no_target();
    }
    let args = match t.child_by_field_name(i, "arguments") {
        Some(a) => a,
        None => return no_target(),
    };
    let first = match t.named_child_at(args, 0) {
        Some(x) => x,
        None => return no_target(),
    };
    match string_value_exec(t, b, first) {
        Some(x) => {
            let rel = is_rel || rel_path(x.as_str());
            one_target(x, rel)
        },
        None => no_target(),
    }
}

fn lua_targets_exec(t: &SyntaxTree, b: &[u8], i: usize) -> (r: Vec<ImportTarget>)
    requires
        tree_ok(t, b@),
        i < t.len(),
    ensures
        targets_view(r@) == lua_targets(t, b@, i),
{
    let name = match field_text_of(t, b, i, "name") {
        Some(n) => n,
        None => return no_target(),
    };
    if !str_eq(name.as_str(), "require") {
        return no_target();
    }
    let args = match t.child_by_field_name(i, "arguments") {
        Some(a) => a,
        None => return no_target(),
    };
    let first = match t.named_child_at(args, 0) {
        Some(x) => x,
        None => return no_target(),
    };
    let content = if t.kind_eq(first, "string") {
        field_text_of(t, b, first, "content")
    } else {
        None
    };
    let value = match content {
        Some(c) => Some(c),
        None => string_value_exec(t, b, first),
    };
    match value {
        Some(x) => {
            let rel = rel_path(x.as_str());
            one_target(x, rel)
        },
        None => no_target(),
    }
}

/// The targets the language reads from import node `i`.
pub fn import_targets_of(l: Lang, t: &SyntaxTree, b: &[u8], i: usize) -> (r: Vec<ImportTarget>)
    requires
        tree_ok(t, b@),
        i < t.len(),
    ensures
        targets_view(r@) == import_targets(l, t, b@, i),
{
    match l {
        Lang::Rust => rust_targets_exec(t, b, i),
        Lang::Python => python_targets_exec(t, b, i),
        Lang::Go => go_targets_exec(t, b, i),
        Lang::TypeScript => typescript_targets_exec(t, b, i),
        Lang::JavaScript => javascript_targets_exec(t, b, i),
        Lang::Java => java_targets_exec(t, b, i),
        Lang::C => include_target_exec(t, b, i),
        Lang::Cpp => cpp_targets_exec(t, b, i),
        Lang::CSharp => csharp_targets_exec(t, b, i),
        Lang::Ruby => ruby_targets_exec(t, b, i),
        Lang::Lua => lua_targets_exec(t, b, i),
        _ => no_target(),
    }
}

// ---------------------------------------------------------------------------
// The walk.

/// An import as plain values: target, relative, line, byte range.
pub open spec fn import_view(x: Import) -> (Seq<char>, bool, usize, usize, usize) {
    (x.target@, x.relative, x.line, x.byte_range.start, x.byte_range.end)
}

/// The imports as plain values.
pub open spec fn imports_view(v: Seq<Import>) -> Seq<(Seq<char>, bool, usize, usize, usize)> {
    v.map_values(|x: Import| import_view(x))
}

/// Targets with the line and byte range of their node.
pub open spec fn with_pos(v: Seq<(Seq<char>, bool)>, line: usize, start: usize, end: usize) -> Seq<(Seq<char>, bool, usize, usize, usize)> {
    v.map_values(|x: (Seq<char>, bool)| (x.0, x.1, line, start, end))
}

/// The imports of the import nodes from position `i` on, in pre-order:
/// each target of a node with the node's 1-based line and byte range.
pub open spec fn imports_from(l: Lang, t: &SyntaxTree, b: Seq<u8>, i: int) -> Seq<(Seq<char>, bool, usize, usize, usize)>
    decreases t.len() - i,
{
    if i < 0 || i >= t.len() {
        seq![]
    } else {
        let n = t.node(i as usize);
        let here = if is_import_kind(l, n.kind@) {
            with_pos(import_targets(l, t, b, i as usize), (n.start_row + 1) as usize, n.start_byte, n.end_byte)
        } else {
            seq![]
        };
        here + imports_from(l, t, b, i + 1)
    }
}

/// Walk the tree and collect all imports in source order.
pub fn extract_imports(parsed: &ParsedSource) -> (r: Vec<Import>)
    requires
        parsed.wf(),
        parsed.bytes().len() < usize::MAX,
    ensures
        imports_view(r@) == imports_from(parsed.language, &parsed.syntax, parsed.bytes(), 0),
{
    let b = parsed.source.as_str().as_bytes();
    let t = &parsed.syntax;
    let l = parsed.language;
    let n = t.nodes.len();
    let mut out: Vec<Import> = Vec::new();
    let mut i: usize = 0;
    assert(imports_view(out@) =~= Seq::<(Seq<char>, bool, usize, usize, usize)>::empty());
    while i < n
        invariant
            b@ == parsed.bytes(),
            tree_ok(t, b@),
            b@.len() < usize::MAX,
            n == t.len(),
            i <= n,
            imports_view(out@) + imports_from(l, t, b@, i as int) == imports_from(l, t, b@, 0),
        decreases n - i,
    {
        let ghost before = imports_view(out@);
        if l.is_import_kind(t.nodes[i].kind.as_str()) {
            let targets = import_targets_of(l, t, b, i);
            let line = t.nodes[i].start_row + 1;
            let start = t.nodes[i].start_byte;
            let end = t.nodes[i].end_byte;
            let ghost tv = targets_view(targets@);
            let mut k: usize = 0;
            while k < targets.len()
                invariant
                    k <= targets@.len(),
                    tv == targets_view(targets@),
                    imports_view(out@) == before + with_pos(tv.take(k as int), line, start, end),
                decreases targets@.len() - k,
            {
                let target = targets[k].target.clone();
                let relative = targets[k].relative;
                assert(target@ == tv[k as int].0);
                assert(relative == tv[k as int].1);
                let ghost pre = imports_view(out@);
                out.push(Import { target, relative, line, byte_range: start..end });
                proof {
                    assert(imports_view(out@) =~= pre.push((tv[k as int].0, tv[k as int].1, line, start, end)));
                    assert(with_pos(tv.take(k + 1), line, start, end) =~= with_pos(tv.take(k as int), line, start, end).push((tv[k as int].0, tv[k as int].1, line, start, end)));
                }
                k += 1;
            }
            assert(tv.take(targets@.len() as int) =~= tv);
            let ghost here = with_pos(import_targets(l, t, b@, i), line, start, end);
            assert(imports_view(out@) + imports_from(l, t, b@, i + 1) =~= before + (here + imports_from(l, t, b@, i + 1)));
        } else {
            assert(imports_from(l, t, b@, i as int) == imports_from(l, t, b@, i + 1));
        }
        i += 1;
    }
    assert(imports_view(out@) + Seq::<(Seq<char>, bool, usize, usize, usize)>::empty() =~= imports_view(out@));
    out
}

/// An import entry of node `i`: one of its targets, with the node's line
/// and byte range.
pub open spec fn from_node(l: Lang, t: &SyntaxTree, b: Seq<u8>, i: int, e: (Seq<char>, bool, usize, usize, usize)) -> bool {
    let n = t.node(i as usize);
    let ts = import_targets(l, t, b, i as usize);
    &&& 0 <= i < t.len()
    &&& is_import_kind(l, n.kind@)
    &&& e.2 == (n.start_row + 1) as usize
    &&& e.3 == n.start_byte
    &&& e.4 == n.end_byte
    &&& exists|m: int| 0 <= m < ts.len() && #[trigger] ts[m] == (e.0, e.1)
}

/// The import node that entry `k` of `imports_from(l, t, b, j)` comes from.
pub open spec fn import_source(l: Lang, t: &SyntaxTree, b: Seq<u8>, j: int, k: int) -> int
    decreases t.len() - j,
{
    if j < 0 || j >= t.len() {
        j
    } else {
        let n = t.node(j as usize);
        let here_len = if is_import_kind(l, n.kind@) {
            import_targets(l, t, b, j as usize).len() as int
        } else {
            0
        };
        if k < here_len {
            j
        } else {
            import_source(l, t, b, j + 1, k - here_len)
        }
    }
}

proof fn lemma_import_source(l: Lang, t: &SyntaxTree, b: Seq<u8>, j: int, k: int)
    requires
        0 <= j,
        0 <= k < imports_from(l, t, b, j).len(),
    ensures
        from_node(l, t, b, import_source(l, t, b, j, k), imports_from(l, t, b, j)[k]),
    decreases t.len() - j,
{
    let n = t.node(j as usize);
    let ts = import_targets(l, t, b, j as usize);
    let here = if is_import_kind(l, n.kind@) {
        with_pos(ts, (n.start_row + 1) as usize, n.start_byte, n.end_byte)
    } else {
        seq![]
    };
    assert(imports_from(l, t, b, j) == here + imports_from(l, t, b, j + 1));
    let e = imports_from(l, t, b, j)[k];
    if k < here.len() {
        assert(e == here[k]);
        assert(ts[k] == (e.0, e.1));
    } else {
        lemma_import_source(l, t, b, j + 1, k - here.len());
        assert(e == imports_from(l, t, b, j + 1)[k - here.len()]);
    }
}

/// Every import `extract_imports` gives comes from one import node of the
/// source's tree: it is one of that node's targets, with the node's line
/// and byte range.
pub proof fn law_imports_come_from_import_nodes(l: Lang, t: &SyntaxTree, b: Seq<u8>, r: Seq<Import>)
    requires
        imports_view(r) == imports_from(l, t, b, 0),
    ensures
        forall|k: int| 0 <= k < r.len() ==> from_node(l, t, b, import_source(l, t, b, 0, k), #[trigger] import_view(r[k])),
{
    assert forall|k: int| 0 <= k < r.len() implies from_node(l, t, b, import_source(l, t, b, 0, k), #[trigger] import_view(r[k])) by {
        assert(imports_view(r)[k] == import_view(r[k]));
        lemma_import_source(l, t, b, 0, k);
    }
}

/// The node kind an import entry of a Rust source comes from.
pub open spec fn rust_source_is(t: &SyntaxTree, b: Seq<u8>, k: int, kind: Seq<char>) -> bool {
    t.kind_is(import_source(Lang::Rust, t, b, 0, k) as usize, kind)
}

proof fn lemma_rust_entry(t: &SyntaxTree, b: Seq<u8>, r: Seq<Import>, k: int)
    requires
        imports_view(r) == imports_from(Lang::Rust, t, b, 0),
        0 <= k < r.len(),
    ensures
        rust_source_is(t, b, k, "use_declaration"@) ==> (r[k].relative <==> (r[k].target@ == "crate"@
            || r[k].target@ == "super"@ || starts_with(r[k].target@, "crate::"@)
            || starts_with(r[k].target@, "super::"@) || starts_with(r[k].target@, "self::"@))),
        rust_source_is(t, b, k, "mod_item"@) ==> r[k].relative,
        rust_source_is(t, b, k, "extern_crate_declaration"@) ==> !r[k].relative,
{
    reveal_strlit("use_declaration");
    reveal_strlit("mod_item");
    reveal_strlit("extern_crate_declaration");
    assert("use_declaration"@[0] != "mod_item"@[0]);
    assert("use_declaration"@[0] != "extern_crate_declaration"@[0]);
    assert("mod_item"@[0] != "extern_crate_declaration"@[0]);
    assert(imports_view(r)[k] == import_view(r[k]));
    lemma_import_source(Lang::Rust, t, b, 0, k);
    let e = import_view(r[k]);
    let i = import_source(Lang::Rust, t, b, 0, k);
    assert(from_node(Lang::Rust, t, b, i, e));
    let ts = import_targets(Lang::Rust, t, b, i as usize);
    let m = choose|m: int| 0 <= m < ts.len() && #[trigger] ts[m] == (e.0, e.1);
    assert(ts[m] == (e.0, e.1));
    if t.kind_is(i as usize, "use_declaration"@) {
        let x = field_text(t, b, i as usize, "argument"@).unwrap();
        let es = expand_use(x, x.len());
        assert(ts == es.map_values(|y: Seq<char>| (y, rust_relative(y))));
        assert(ts[m] == (es[m], rust_relative(es[m])));
        assert(e.1 == rust_relative(e.0));
    } else if t.kind_is(i as usize, "mod_item"@) {
        assert(e.1);
    } else if t.kind_is(i as usize, "extern_crate_declaration"@) {
        assert(!e.1);
    }
}

/// In a Rust source, an import from a `use` declaration is relative
/// (in-crate) exactly when its path is `crate` or `super`, or starts with
/// `crate::`, `super::` or `self::`; a `mod x;` declaration is always
/// relative, and an `extern crate` never is.
pub proof fn law_rust_import_relativity(t: &SyntaxTree, b: Seq<u8>, r: Seq<Import>)
    requires
        imports_view(r) == imports_from(Lang::Rust, t, b, 0),
    ensures
        forall|k: int| 0 <= k < r.len() && #[trigger] rust_source_is(t, b, k, "use_declaration"@)
            ==> (r[k].relative <==> (r[k].target@ == "crate"@ || r[k].target@ == "super"@
            || starts_with(r[k].target@, "crate::"@) || starts_with(r[k].target@, "super::"@)
            || starts_with(r[k].target@, "self::"@))),
        forall|k: int| 0 <= k < r.len() && #[trigger] rust_source_is(t, b, k, "mod_item"@) ==> r[k].relative,
        forall|k: int| 0 <= k < r.len() && #[trigger] rust_source_is(t, b, k, "extern_crate_declaration"@) ==> !r[k].relative,
{
    assert forall|k: int| 0 <= k < r.len() implies {
        &&& rust_source_is(t, b, k, "use_declaration"@) ==> (r[k].relative <==> (r[k].target@ == "crate"@
            || r[k].target@ == "super"@ || starts_with(r[k].target@, "crate::"@)
            || starts_with(r[k].target@, "super::"@) || starts_with(r[k].target@, "self::"@)))
        &&& rust_source_is(t, b, k, "mod_item"@) ==> r[k].relative
        &&& rust_source_is(t, b, k, "extern_crate_declaration"@) ==> !r[k].relative
    } by {
        lemma_rust_entry(t, b, r, k);
    }
}

} // verus!
