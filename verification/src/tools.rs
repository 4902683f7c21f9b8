//! The tool registry served over the MCP adapter: each tool's argument
//! table, the usage hints and error texts built from it, and the lexical
//! confinement of file arguments to the workspace.

use vstd::prelude::*;
use crate::deps::{join_segments, join_with, non_empty, normalize, normalized, split_non_empty, target_path};
use crate::syntax::str_eq;
use crate::text::{chars_of, string_from, push_str, push_all, decimal};

verus! {

/// Expected shape of one tool argument.
#[derive(Debug, Clone, Copy, PartialEq, Eq, Structural)]
pub enum ArgKind {
    Str,
    Bool,
    Int,
    StrList,
}

/// How an argument kind is named in error messages.
pub open spec fn label_of(kind: ArgKind) -> Seq<char> {
    match kind {
        ArgKind::Str => "a string"@,
        ArgKind::Bool => "a boolean"@,
        ArgKind::Int => "an integer"@,
        ArgKind::StrList => "an array of strings"@,
    }
}

impl ArgKind {
    /// How the kind is named in error messages.
    pub fn label(self) -> (r: &'static str)
        ensures
            r@ == label_of(self),
    {
        match self {
            ArgKind::Str => "a string",
            ArgKind::Bool => "a boolean",
            ArgKind::Int => "an integer",
            ArgKind::StrList => "an array of strings",
        }
    }
}

/// The registered tools, alphabetically.
pub open spec fn tool_names() -> Seq<Seq<char>> {
    seq!["ctxctl_deps"@, "ctxctl_exec"@, "ctxctl_outline"@, "ctxctl_read"@, "ctxctl_symbol"@]
}

/// A tool's argument table.
pub open spec fn tool_args(tool: Seq<char>) -> Option<Seq<(Seq<char>, ArgKind)>> {
    if tool == "ctxctl_deps"@ {
        Some(seq![("file"@, ArgKind::Str)])
    } else if tool == "ctxctl_exec"@ {
        Some(
            seq![
                ("cmd"@, ArgKind::Str),
                ("keep"@, ArgKind::StrList),
                ("head"@, ArgKind::Int),
                ("tail"@, ArgKind::Int),
            ],
        )
    } else if tool == "ctxctl_outline"@ {
        Some(seq![("file"@, ArgKind::Str), ("no_doc"@, ArgKind::Bool), ("no_lines"@, ArgKind::Bool)])
    } else if tool == "ctxctl_read"@ {
        Some(seq![("file"@, ArgKind::Str), ("lines"@, ArgKind::Str)])
    } else if tool == "ctxctl_symbol"@ {
        Some(
            seq![
                ("file"@, ArgKind::Str),
                ("name"@, ArgKind::Str),
                ("kind"@, ArgKind::Str),
                ("signature"@, ArgKind::Bool),
                ("compact"@, ArgKind::Bool),
                ("lines"@, ArgKind::Str),
            ],
        )
    } else {
        None
    }
}

pub open spec fn table_view(v: Seq<(&'static str, ArgKind)>) -> Seq<(Seq<char>, ArgKind)> {
    v.map_values(|e: (&'static str, ArgKind)| (e.0@, e.1))
}

/// A tool's argument table, as `tool_args` states it.
pub fn arg_schema(tool: &str) -> (r: Option<Vec<(&'static str, ArgKind)>>)
    ensures
        match r {
            Some(v) => tool_args(tool@) == Some(table_view(v@)),
            None => tool_args(tool@).is_none(),
        },
{
    let mut v: Vec<(&'static str, ArgKind)> = Vec::new();
    if str_eq(tool, "ctxctl_deps") {
        v.push(("file", ArgKind::Str));
    } else if str_eq(tool, "ctxctl_exec") {
        v.push(("cmd", ArgKind::Str));
        v.push(("keep", ArgKind::StrList));
        v.push(("head", ArgKind::Int));
        v.push(("tail", ArgKind::Int));
    } else if str_eq(tool, "ctxctl_outline") {
        v.push(("file", ArgKind::Str));
        v.push(("no_doc", ArgKind::Bool));
        v.push(("no_lines", ArgKind::Bool));
    } else if str_eq(tool, "ctxctl_read") {
        v.push(("file", ArgKind::Str));
        v.push(("lines", ArgKind::Str));
    } else if str_eq(tool, "ctxctl_symbol") {
        v.push(("file", ArgKind::Str));
        v.push(("name", ArgKind::Str));
        v.push(("kind", ArgKind::Str));
        v.push(("signature", ArgKind::Bool));
        v.push(("compact", ArgKind::Bool));
        v.push(("lines", ArgKind::Str));
    } else {
        return None;
    }
    assert(tool_args(tool@) == Some(table_view(v@)));
    Some(v)
}

/// `parts` joined by `", "`.
pub open spec fn comma_join(parts: Seq<Seq<char>>) -> Seq<char>
    decreases parts.len(),
{
    if parts.len() == 0 {
        seq![]
    } else if parts.len() == 1 {
        parts[0]
    } else {
        comma_join(parts.drop_last()) + ", "@ + parts.last()
    }
}

/// The registered tool names, comma-separated, alphabetically.
pub fn available_tools() -> (r: String)
    ensures
        r@ == comma_join(tool_names()),
{
    let mut v: Vec<char> = Vec::new();
    push_str(&mut v, "ctxctl_deps");
    push_str(&mut v, ", ");
    push_str(&mut v, "ctxctl_exec");
    push_str(&mut v, ", ");
    push_str(&mut v, "ctxctl_outline");
    push_str(&mut v, ", ");
    push_str(&mut v, "ctxctl_read");
    push_str(&mut v, ", ");
    push_str(&mut v, "ctxctl_symbol");
    proof {
        let n = tool_names();
        let n1 = seq![n[0]];
        let n2 = n1.push(n[1]);
        let n3 = n2.push(n[2]);
        let n4 = n3.push(n[3]);
        assert(n4.push(n[4]) =~= n);
        assert(n2.drop_last() =~= n1);
        assert(n3.drop_last() =~= n2);
        assert(n4.drop_last() =~= n3);
        assert(n.drop_last() =~= n4);
        assert(comma_join(n1) == n[0]);
        assert(comma_join(n2) == n[0] + ", "@ + n[1]);
        assert(comma_join(n3) == n[0] + ", "@ + n[1] + ", "@ + n[2]);
        assert(comma_join(n4) == n[0] + ", "@ + n[1] + ", "@ + n[2] + ", "@ + n[3]);
        assert(v@ =~= comma_join(n));
    }
    string_from(v.as_slice())
}

/// JSON-shaped placeholder for one argument in a usage hint.
pub open spec fn placeholder_of(key: Seq<char>, kind: ArgKind) -> Seq<char> {
    match kind {
        ArgKind::Str => if key == "file"@ {
            "\"<workspace-relative or absolute path under workspace>\""@
        } else if key == "name"@ {
            "\"<exact symbol name>\""@
        } else if key == "cmd"@ {
            "\"<command line>\""@
        } else {
            "\"<string>\""@
        },
        ArgKind::Bool => "<boolean>"@,
        ArgKind::Int => "<integer>"@,
        ArgKind::StrList => "[\"<string>\"]"@,
    }
}

/// JSON-shaped placeholder for one argument in a usage hint.
pub fn placeholder(key: &str, kind: ArgKind) -> (r: &'static str)
    ensures
        r@ == placeholder_of(key@, kind),
{
    match kind {
        ArgKind::Str => if str_eq(key, "file") {
            "\"<workspace-relative or absolute path under workspace>\""
        } else if str_eq(key, "name") {
            "\"<exact symbol name>\""
        } else if str_eq(key, "cmd") {
            "\"<command line>\""
        } else {
            "\"<string>\""
        },
        ArgKind::Bool => "<boolean>",
        ArgKind::Int => "<integer>",
        ArgKind::StrList => "[\"<string>\"]",
    }
}

/// One `"key": <placeholder>` member of a usage hint.
pub open spec fn hint_member(e: (Seq<char>, ArgKind)) -> Seq<char> {
    "\""@ + e.0 + "\": "@ + placeholder_of(e.0, e.1)
}

/// The members of a usage hint, in table order.
pub open spec fn hint_members(t: Seq<(Seq<char>, ArgKind)>) -> Seq<Seq<char>> {
    t.map_values(|e: (Seq<char>, ArgKind)| hint_member(e))
}

/// `expected: {"key": <placeholder>, ...}` from the tool's argument table;
/// empty for an unknown tool.
pub open spec fn usage_hint_of(tool: Seq<char>) -> Seq<char> {
    match tool_args(tool) {
        Some(t) => "expected: {"@ + comma_join(hint_members(t)) + "}"@,
        None => seq![],
    }
}

/// The usage hint of a tool, as `usage_hint_of` states it.
pub fn usage_hint(tool: &str) -> (r: String)
    ensures
        r@ == usage_hint_of(tool@),
{
    let schema = match arg_schema(tool) {
        Some(s) => s,
        None => return String::new(),
    };
    let ghost t = table_view(schema@);
    let mut members: Vec<char> = Vec::new();
    let mut k: usize = 0;
    while k < schema.len()
        invariant
            k <= schema@.len(),
            t == table_view(schema@),
            members@ == comma_join(hint_members(t.take(k as int))),
        decreases schema@.len() - k,
    {
        let (key, kind) = schema[k];
        let ghost before = members@;
        if k > 0 {
            push_str(&mut members, ", ");
        }
        push_str(&mut members, "\"");
        push_str(&mut members, key);
        push_str(&mut members, "\": ");
        push_str(&mut members, placeholder(key, kind));
        proof {
            let ms = hint_members(t.take(k + 1));
            assert(ms.drop_last() =~= hint_members(t.take(k as int)));
            assert(ms.last() == hint_member((key@, kind)));
            if k == 0 {
                assert(ms.len() == 1);
                assert(members@ =~= ms[0]);
            } else {
                assert(members@ =~= before + ", "@ + ms.last());
            }
        }
        k += 1;
    }
    assert(t.take(schema@.len() as int) == t);
    let mut out: Vec<char> = Vec::new();
    push_str(&mut out, "expected: {");
    push_all(&mut out, members.as_slice());
    push_str(&mut out, "}");
    string_from(out.as_slice())
}

/// A missing-argument error followed by the tool's usage hint.
pub fn usage_hinted(tool: &str, err: String) -> (r: String)
    ensures
        r@ == err@ + "\n"@ + usage_hint_of(tool@),
{
    let mut v = chars_of(err.as_str());
    push_str(&mut v, "\n");
    let h = usage_hint(tool);
    push_str(&mut v, h.as_str());
    string_from(v.as_slice())
}

/// The error for a file argument that leaves the workspace.
pub fn escape_message(key: &str, raw: &str, detail: &str) -> (r: String)
    ensures
        r@ == "invalid argument `"@ + key@ + "`: "@ + raw@ + ": "@ + detail@
            + "path escapes workspace root"@,
{
    let mut v: Vec<char> = Vec::new();
    push_str(&mut v, "invalid argument `");
    push_str(&mut v, key);
    push_str(&mut v, "`: ");
    push_str(&mut v, raw);
    push_str(&mut v, ": ");
    push_str(&mut v, detail);
    push_str(&mut v, "path escapes workspace root");
    string_from(v.as_slice())
}

/// The text of a tool call that ended with a non-zero exit code: the tool,
/// the code, the diagnostic when there is one, then the payload.
pub fn tool_failure_message(name: &str, code: u8, diagnostic: Option<&str>, out: &str) -> (r: String)
    ensures
        r@ == "tool "@ + name@ + " failed with exit code "@ + decimal(code as nat) + match diagnostic {
            Some(d) => ": "@ + d@,
            None => seq![],
        } + "\n"@ + out@,
{
    let mut v: Vec<char> = Vec::new();
    push_str(&mut v, "tool ");
    push_str(&mut v, name);
    push_str(&mut v, " failed with exit code ");
    let d = crate::text::decimal_chars(code as usize);
    push_all(&mut v, d.as_slice());
    if let Some(detail) = diagnostic {
        push_str(&mut v, ": ");
        push_str(&mut v, detail);
    }
    push_str(&mut v, "\n");
    push_str(&mut v, out);
    string_from(v.as_slice())
}

/// `p` is absolute: it starts at the root.
pub open spec fn is_absolute(p: Seq<char>) -> bool {
    p.len() > 0 && p[0] == '/'
}

/// An absolute path normalized without looking at the file system: `.`
/// dropped, `..` applied to the previous component (at the root it stays
/// there); none for a path that is not absolute.
pub open spec fn lexical_absolute(p: Seq<char>) -> Option<Seq<char>> {
    if is_absolute(p) {
        Some("/"@ + normalized(p))
    } else {
        None
    }
}

/// Lexically normalize an absolute path, as `lexical_absolute` states.
pub fn lexically_normalized_absolute(path: &str) -> (r: Option<String>)
    ensures
        match r {
            Some(n) => lexical_absolute(path@) == Some(n@),
            None => lexical_absolute(path@) is None,
        },
{
    let v = chars_of(path);
    if !(v.len() > 0 && v[0] == '/') {
        return None;
    }
    let n = normalize(path);
    let mut out: Vec<char> = Vec::new();
    push_str(&mut out, "/");
    push_str(&mut out, n.as_str());
    proof {
        reveal_strlit("/");
        assert(out@ =~= "/"@ + normalized(path@));
    }
    Some(string_from(out.as_slice()))
}

/// The pieces of a path other than `.`, in order.
pub open spec fn drop_dots(ps: Seq<Seq<char>>) -> Seq<Seq<char>>
    decreases ps.len(),
{
    if ps.len() == 0 {
        seq![]
    } else if ps.last() == seq!['.'] {
        drop_dots(ps.drop_last())
    } else {
        drop_dots(ps.drop_last()).push(ps.last())
    }
}

/// The components of a path after its root, as `Path::components` gives
/// them: the non-empty pieces between `/` other than `.`.
pub open spec fn path_parts(p: Seq<char>) -> Seq<Seq<char>> {
    drop_dots(target_path(p, '/'))
}

/// `Path::starts_with` for an absolute `path`: `root` is absolute too and
/// its components begin those of `path`.
pub open spec fn path_within(root: Seq<char>, path: Seq<char>) -> bool {
    let r = path_parts(root);
    let q = path_parts(path);
    &&& is_absolute(root)
    &&& is_absolute(path)
    &&& r.len() <= q.len()
    &&& q.take(r.len() as int) == r
}

fn parts_of(p: &str) -> (r: Vec<Vec<char>>)
    ensures
        r@.map_values(|x: Vec<char>| x@) == path_parts(p@),
{
    let v = chars_of(p);
    let pieces = split_non_empty(v.as_slice(), '/');
    let ghost pv = pieces@.map_values(|x: Vec<char>| x@);
    let mut out: Vec<Vec<char>> = Vec::new();
    let mut i: usize = 0;
    assert(pv.take(0) =~= Seq::<Seq<char>>::empty());
    assert(out@.map_values(|x: Vec<char>| x@) =~= Seq::<Seq<char>>::empty());
    while i < pieces.len()
        invariant
            i <= pieces@.len(),
            pv == pieces@.map_values(|x: Vec<char>| x@),
            pv == target_path(p@, '/'),
            drop_dots(pv.take(i as int)) == out@.map_values(|x: Vec<char>| x@),
        decreases pieces@.len() - i,
    {
        let piece = &pieces[i];
        let ghost before = out@.map_values(|x: Vec<char>| x@);
        proof {
            assert(pv[i as int] == piece@);
            assert(pv.take(i + 1).drop_last() =~= pv.take(i as int));
            assert(pv.take(i + 1).last() == piece@);
        }
        let is_dot = piece.len() == 1 && piece[0] == '.';
        proof {
            if is_dot {
                assert(piece@ =~= seq!['.']);
            } else if piece@.len() == 1 {
                assert(piece@[0] != seq!['.'][0]);
            }
        }
        if !is_dot {
            out.push(piece.clone());
            assert(out@.map_values(|x: Vec<char>| x@) =~= before.push(piece@));
        }
        i += 1;
    }
    assert(pv.take(pieces@.len() as int) =~= pv);
    out
}

/// Whether the absolute `path` lies within `root`, component by component
/// (`Path::starts_with`).
pub fn path_within_root(root: &str, path: &str) -> (r: bool)
    ensures
        r == path_within(root@, path@),
{
    let rv = chars_of(root);
    let pv = chars_of(path);
    if !(rv.len() > 0 && rv[0] == '/' && pv.len() > 0 && pv[0] == '/') {
        return false;
    }
    assert(is_absolute(root@) && is_absolute(path@));
    let a = parts_of(root);
    let b = parts_of(path);
    let ghost av = a@.map_values(|x: Vec<char>| x@);
    let ghost bv = b@.map_values(|x: Vec<char>| x@);
    if a.len() > b.len() {
        return false;
    }
    let mut i: usize = 0;
    while i < a.len()
        invariant
            a@.len() <= b@.len(),
            i <= a@.len(),
            av == a@.map_values(|x: Vec<char>| x@),
            bv == b@.map_values(|x: Vec<char>| x@),
            av == path_parts(root@),
            bv == path_parts(path@),
            is_absolute(root@),
            is_absolute(path@),
            forall|m: int| 0 <= m < i ==> av[m] == bv[m],
        decreases a@.len() - i,
    {
        if !crate::suggest::chars_eq(a[i].as_slice(), b[i].as_slice()) {
            assert(av[i as int] != bv[i as int]);
            assert(bv.take(av.len() as int)[i as int] != av[i as int]);
            return false;
        }
        i += 1;
    }
    assert(bv.take(av.len() as int) =~= av);
    true
}

/// The components of a relative path walked from the root: `.` skipped,
/// `..` takes back the previous one; none when a `..` finds nothing to
/// take back (the path climbs out of the root).
pub open spec fn rel_walk(pieces: Seq<Seq<char>>) -> Option<Seq<Seq<char>>>
    decreases pieces.len(),
{
    if pieces.len() == 0 {
        Some(seq![])
    } else {
        match rel_walk(pieces.drop_last()) {
            None => None,
            Some(acc) => {
                let p = pieces.last();
                if p == seq!['.'] {
                    Some(acc)
                } else if p == seq!['.', '.'] {
                    if acc.len() > 0 {
                        Some(acc.drop_last())
                    } else {
                        None
                    }
                } else {
                    Some(acc.push(p))
                }
            },
        }
    }
}

/// A relative path pinned below the root: its walked components joined by
/// `/`; none when it climbs out.
pub open spec fn pinned_relative(p: Seq<char>) -> Option<Seq<char>> {
    match rel_walk(target_path(p, '/')) {
        Some(acc) => Some(join_with(acc, '/')),
        None => None,
    }
}

/// A tool's file argument, lexically confined to the workspace.
#[derive(Debug)]
pub enum PinnedPath {
    /// An absolute path, normalized; the caller still checks that it lies
    /// inside the root.
    Absolute(String),
    /// A path relative to the root that does not climb out of it.
    Relative(String),
}

/// Confine the file argument `raw` (named `key`) to the workspace, without
/// looking at the file system: an absolute path is normalized (its
/// containment is the caller's to decide); a relative one is walked and
/// refused when it climbs above the root.
pub fn pinned_lexical(key: &str, raw: &str) -> (r: Result<PinnedPath, String>)
    ensures
        match r {
            Ok(PinnedPath::Absolute(n)) => is_absolute(raw@) && lexical_absolute(raw@) == Some(n@),
            Ok(PinnedPath::Relative(q)) => !is_absolute(raw@) && pinned_relative(raw@) == Some(q@),
            Err(m) => !is_absolute(raw@) && pinned_relative(raw@) is None && m@ == "invalid argument `"@ + key@
                + "`: "@ + raw@ + ": "@ + "path escapes workspace root"@,
        },
{
    match lexically_normalized_absolute(raw) {
        Some(n) => {
            return Ok(PinnedPath::Absolute(n));
        },
        None => {},
    }
    let v = chars_of(raw);
    let pieces = split_non_empty(v.as_slice(), '/');
    let ghost pv = pieces@.map_values(|x: Vec<char>| x@);
    let mut acc: Vec<Vec<char>> = Vec::new();
    let mut i: usize = 0;
    proof {
        assert(pv.take(0) =~= Seq::<Seq<char>>::empty());
        assert(acc@.map_values(|x: Vec<char>| x@) =~= Seq::<Seq<char>>::empty());
    }
    while i < pieces.len()
        invariant
            i <= pieces@.len(),
            pv == pieces@.map_values(|x: Vec<char>| x@),
            pv == target_path(raw@, '/'),
            !is_absolute(raw@),
            rel_walk(pv.take(i as int)) == Some(acc@.map_values(|x: Vec<char>| x@)),
        decreases pieces@.len() - i,
    {
        let ghost before = acc@.map_values(|x: Vec<char>| x@);
        let p = &pieces[i];
        let n = p.len();
        let is_dot = n == 1 && p[0] == '.';
        let is_dotdot = n == 2 && p[0] == '.' && p[1] == '.';
        proof {
            assert(pv[i as int] == p@);
            assert(pv.take(i + 1).drop_last() =~= pv.take(i as int));
            assert(pv.take(i + 1).last() == p@);
            if n == 1 {
                if is_dot {
                    assert(p@ =~= seq!['.']);
                } else {
                    assert(p@[0] != seq!['.'][0]);
                }
            } else {
                assert(p@.len() != seq!['.'].len());
            }
            if n == 2 {
                if is_dotdot {
                    assert(p@ =~= seq!['.', '.']);
                } else {
                    assert(p@[0] != seq!['.', '.'][0] || p@[1] != seq!['.', '.'][1]);
                }
            } else {
                assert(p@.len() != seq!['.', '.'].len());
            }
        }
        if is_dot {
        } else if is_dotdot {
            if acc.len() == 0 {
                proof {
                    assert(acc@.map_values(|x: Vec<char>| x@) =~= Seq::<Seq<char>>::empty());
                    lemma_rel_walk_stuck(pv, i as int);
                }
                let m = escape_message(key, raw, "");
                proof {
                    reveal_strlit("");
                    assert(m@ =~= "invalid argument `"@ + key@ + "`: "@ + raw@ + ": "@ + "path escapes workspace root"@);
                }
                return Err(m);
            }
            acc.pop();
            proof {
                assert(acc@.map_values(|x: Vec<char>| x@) =~= before.drop_last());
            }
        } else {
            let seg = crate::text::copy_range(p.as_slice(), 0, n);
            acc.push(seg);
            proof {
                assert(seg@ =~= p@);
                assert(acc@.map_values(|x: Vec<char>| x@) =~= before.push(p@));
            }
        }
        i += 1;
    }
    proof {
        assert(pv.take(pieces@.len() as int) =~= pv);
    }
    let joined = join_segments(&acc, '/');
    Ok(PinnedPath::Relative(string_from(joined.as_slice())))
}

/// Once a walk climbs out of the root, it stays out.
proof fn lemma_rel_walk_stuck(pv: Seq<Seq<char>>, i: int)
    requires
        0 <= i < pv.len(),
        rel_walk(pv.take(i)) == Some(Seq::<Seq<char>>::empty()),
        pv[i] == seq!['.', '.'],
    ensures
        rel_walk(pv) is None,
{
    assert(pv.take(i + 1).drop_last() =~= pv.take(i));
    assert(pv.take(i + 1).last() == pv[i]);
    assert(rel_walk(pv.take(i + 1)) is None);
    lemma_rel_walk_none_extends(pv, i + 1);
}

proof fn lemma_rel_walk_none_extends(pv: Seq<Seq<char>>, k: int)
    requires
        0 <= k <= pv.len(),
        rel_walk(pv.take(k)) is None,
    ensures
        rel_walk(pv) is None,
    decreases pv.len() - k,
{
    if k < pv.len() {
        assert(pv.take(k + 1).drop_last() =~= pv.take(k));
        lemma_rel_walk_none_extends(pv, k + 1);
    } else {
        assert(pv.take(k) =~= pv);
    }
}

/// A relative file argument that is accepted never leaves the root: its
/// pinned form has no `.`, `..` or empty component, so joined to the root
/// it names the root or a path below it.
pub proof fn law_pinned_relative_stays_below_root(p: Seq<char>)
    ensures
        pinned_relative(p) matches Some(q) ==> exists|acc: Seq<Seq<char>>|
            q == join_with(acc, '/') && forall|i: int| 0 <= i < acc.len() ==> (#[trigger] acc[i]).len() > 0
                && acc[i] != seq!['.'] && acc[i] != seq!['.', '.'],
{
    let pieces = target_path(p, '/');
    lemma_non_empty_pieces(split_on_slash(p));
    lemma_rel_walk_clean(pieces);
    if let Some(acc) = rel_walk(pieces) {
        assert(pinned_relative(p) == Some(join_with(acc, '/')));
    }
}

/// The pieces of `p` at `/`.
pub open spec fn split_on_slash(p: Seq<char>) -> Seq<Seq<char>> {
    crate::seqs::split_on(p, '/')
}

proof fn lemma_non_empty_pieces(ps: Seq<Seq<char>>)
    ensures
        forall|i: int| 0 <= i < non_empty(ps).len() ==> (#[trigger] non_empty(ps)[i]).len() > 0,
    decreases ps.len(),
{
    if ps.len() > 0 {
        lemma_non_empty_pieces(ps.drop_last());
        let prev = non_empty(ps.drop_last());
        if ps.last().len() > 0 {
            assert forall|i: int| 0 <= i < non_empty(ps).len() implies (#[trigger] non_empty(ps)[i]).len() > 0 by {
                if i < prev.len() {
                    assert(non_empty(ps)[i] == prev[i]);
                }
            }
        }
    }
}

proof fn lemma_rel_walk_clean(pieces: Seq<Seq<char>>)
    requires
        forall|i: int| 0 <= i < pieces.len() ==> (#[trigger] pieces[i]).len() > 0,
    ensures
        rel_walk(pieces) matches Some(acc) ==> forall|i: int| 0 <= i < acc.len() ==> (#[trigger] acc[i]).len() > 0
            && acc[i] != seq!['.'] && acc[i] != seq!['.', '.'],
    decreases pieces.len(),
{
    if pieces.len() > 0 {
        assert forall|i: int| 0 <= i < pieces.drop_last().len() implies (#[trigger] pieces.drop_last()[i]).len() > 0 by {
            assert(pieces.drop_last()[i] == pieces[i]);
        }
        lemma_rel_walk_clean(pieces.drop_last());
        assert(pieces.last() == pieces[pieces.len() - 1]);
    }
}

/// JSON-RPC error code of a request without a usable method.
pub const INVALID_REQUEST: i64 = -32600;

/// JSON-RPC error code of an unknown method.
pub const METHOD_NOT_FOUND: i64 = -32601;

/// How the server answers one incoming message.
#[derive(Debug)]
pub enum Reply {
    /// A notification (no id): no answer at all.
    Silent,
    /// A JSON-RPC error.
    Failure { code: i64, message: String },
    /// The `initialize` handshake.
    Initialize,
    /// `ping`.
    Ping,
    /// `tools/list`.
    ToolsList,
    /// `tools/call`.
    ToolsCall,
}

/// How the server answers a message that has an id (present and not
/// null) or not, and carries the string method `method`, if any.
pub fn reply_to(has_id: bool, method: Option<&str>) -> (r: Reply)
    ensures
        match (has_id, method) {
            (false, _) => r is Silent,
            (true, None) => (r matches Reply::Failure { code, message } && code == INVALID_REQUEST && message@
                == "invalid request: missing or non-string method"@),
            (true, Some(m)) => if m@ == "initialize"@ {
                r is Initialize
            } else if m@ == "ping"@ {
                r is Ping
            } else if m@ == "tools/list"@ {
                r is ToolsList
            } else if m@ == "tools/call"@ {
                r is ToolsCall
            } else {
                (r matches Reply::Failure { code, message } && code == METHOD_NOT_FOUND && message@
                    == "method not found: "@ + m@)
            },
        },
{
    if !has_id {
        return Reply::Silent;
    }
    match method {
        None => Reply::Failure {
            code: INVALID_REQUEST,
            message: String::from_str("invalid request: missing or non-string method"),
        },
        Some(m) => {
            if str_eq(m, "initialize") {
                Reply::Initialize
            } else if str_eq(m, "ping") {
                Reply::Ping
            } else if str_eq(m, "tools/list") {
                Reply::ToolsList
            } else if str_eq(m, "tools/call") {
                Reply::ToolsCall
            } else {
                let mut v: Vec<char> = Vec::new();
                push_str(&mut v, "method not found: ");
                push_str(&mut v, m);
                Reply::Failure { code: METHOD_NOT_FOUND, message: string_from(v.as_slice()) }
            }
        },
    }
}

/// The error for a call of a tool that is not registered.
pub fn unknown_tool_message(name: &str) -> (r: String)
    ensures
        r@ == "unknown tool `"@ + name@ + "`; available: "@ + comma_join(tool_names()),
{
    let mut v: Vec<char> = Vec::new();
    push_str(&mut v, "unknown tool `");
    push_str(&mut v, name);
    push_str(&mut v, "`; available: ");
    let a = available_tools();
    push_str(&mut v, a.as_str());
    string_from(v.as_slice())
}

/// The result of a tool call from what the tool rendered (`out`), its exit
/// status (`None` on success) and its diagnostic: no output is an error; a
/// non-zero status is an error that names the tool and the code, carries
/// the diagnostic and keeps the output below; otherwise the output.
pub fn call_outcome(name: &str, status: Option<u8>, diagnostic: Option<&str>, out: String) -> (r: Result<String, String>)
    ensures
        match r {
            Ok(s) => out@.len() > 0 && status is None && s@ == out@,
            Err(e) => if out@.len() == 0 {
                e@ == "tool produced no output"@
            } else {
                match status {
                    Some(code) => e@ == "tool "@ + name@ + " failed with exit code "@ + decimal(code as nat)
                        + match diagnostic {
                        Some(d) => ": "@ + d@,
                        None => seq![],
                    } + "\n"@ + out@,
                    None => false,
                }
            },
        },
{
    if out.as_str().is_empty() {
        return Err(String::from_str("tool produced no output"));
    }
    match status {
        Some(code) => Err(tool_failure_message(name, code, diagnostic, out.as_str())),
        None => Ok(out),
    }
}

pub open spec fn min3(x: nat, y: nat, z: nat) -> nat {
    if x <= y && x <= z {
        x
    } else if y <= z {
        y
    } else {
        z
    }
}

/// Levenshtein edit distance (insertions, deletions, substitutions).
pub open spec fn lev(a: Seq<char>, b: Seq<char>) -> nat
    decreases a.len() + b.len(),
{
    if a.len() == 0 {
        b.len()
    } else if b.len() == 0 {
        a.len()
    } else {
        min3(
            lev(a.drop_last(), b.drop_last()) + if a.last() == b.last() {
                0nat
            } else {
                1nat
            },
            lev(a.drop_last(), b) + 1,
            lev(a, b.drop_last()) + 1,
        )
    }
}

/// The distance is at least the difference of the lengths.
pub proof fn lemma_lev_len_diff(a: Seq<char>, b: Seq<char>)
    ensures
        lev(a, b) >= a.len() - b.len(),
        lev(a, b) >= b.len() - a.len(),
    decreases a.len() + b.len(),
{
    if a.len() > 0 && b.len() > 0 {
        lemma_lev_len_diff(a.drop_last(), b.drop_last());
        lemma_lev_len_diff(a.drop_last(), b);
        lemma_lev_len_diff(a, b.drop_last());
    }
}

/// Every cell of the next DP row is at least a bound of the whole row.
proof fn lemma_next_row(a: Seq<char>, b: Seq<char>, i: int, m: nat, j: int)
    requires
        0 <= i < a.len(),
        0 <= j <= b.len(),
        forall|k: int| 0 <= k <= b.len() ==> #[trigger] lev(a.take(i), b.take(k)) >= m,
    ensures
        lev(a.take(i + 1), b.take(j)) >= m,
    decreases j,
{
    let a1 = a.take(i + 1);
    assert(a1.drop_last() =~= a.take(i));
    if j == 0 {
        assert(lev(a.take(i), b.take(0)) >= m);
        assert(b.take(0).len() == 0);
    } else {
        lemma_next_row(a, b, i, m, j - 1);
        assert(b.take(j).drop_last() =~= b.take(j - 1));
        assert(lev(a.take(i), b.take(j - 1)) >= m);
        assert(lev(a.take(i), b.take(j)) >= m);
    }
}

/// A bound on a whole DP row bounds the distance of the full strings.
proof fn lemma_rows_bound(a: Seq<char>, b: Seq<char>, i: int, m: nat)
    requires
        0 <= i <= a.len(),
        forall|k: int| 0 <= k <= b.len() ==> #[trigger] lev(a.take(i), b.take(k)) >= m,
    ensures
        lev(a, b) >= m,
    decreases a.len() - i,
{
    if i < a.len() {
        assert forall|k: int| 0 <= k <= b.len() implies #[trigger] lev(a.take(i + 1), b.take(k)) >= m by {
            lemma_next_row(a, b, i, m, k);
        }
        lemma_rows_bound(a, b, i + 1, m);
    } else {
        assert(a.take(i) =~= a);
        assert(b.take(b.len() as int) =~= b);
        assert(lev(a.take(i), b.take(b.len() as int)) >= m);
    }
}

/// `Some(distance)` when the edit distance of `a` and `b` is at most `max`,
/// else `None`. Rows of the dynamic program stop early once every cell
/// of a row exceeds `max`; lengths further apart than `max` skip it.
pub fn bounded_levenshtein(a: &str, b: &str, max: usize) -> (r: Option<usize>)
    ensures
        r == (if lev(a@, b@) <= max {
            Some(lev(a@, b@) as usize)
        } else {
            None::<usize>
        }),
{
    let av = chars_of(a);
    let bv = chars_of(b);
    let la = av.len();
    let lb = bv.len();
    let diff = if la > lb {
        la - lb
    } else {
        lb - la
    };
    if diff > max {
        proof {
            lemma_lev_len_diff(a@, b@);
        }
        return None;
    }
    // previous[k] holds lev(a[..i], b[..k + 1]); prev0 is the column 0 cell.
    let mut previous: Vec<u128> = Vec::new();
    let mut k: usize = 0;
    while k < lb
        invariant
            k <= lb == bv@.len(),
            previous@.len() == k,
            forall|j: int| 0 <= j < k ==> #[trigger] previous@[j] == j + 1,
        decreases lb - k,
    {
        previous.push((k + 1) as u128);
        k += 1;
    }
    proof {
        assert forall|j: int| 0 <= j < lb implies #[trigger] previous@[j] == lev(
            av@.take(0),
            bv@.take(j + 1),
        ) by {
            assert(av@.take(0).len() == 0);
        }
    }
    let mut prev0: u128 = 0;
    let mut i: usize = 0;
    while i < la
        invariant
            i <= la == av@.len(),
            lb == bv@.len(),
            av@ == a@,
            bv@ == b@,
            previous@.len() == lb,
            prev0 == lev(av@.take(i as int), bv@.take(0)),
            prev0 == i,
            forall|j: int| 0 <= j < lb ==> #[trigger] previous@[j] == lev(av@.take(i as int), bv@.take(j + 1)),
            forall|j: int| 0 <= j < lb ==> previous@[j] <= usize::MAX,
        decreases la - i,
    {
        let ca = av[i];
        let ghost ai = av@.take(i as int);
        let ghost ai1 = av@.take(i + 1);
        assert(ai1.drop_last() =~= ai);
        assert(ai1.last() == ca);
        let cur0: u128 = (i + 1) as u128;
        assert(bv@.take(0).len() == 0);
        let mut current: Vec<u128> = Vec::new();
        let mut row_min = cur0;
        let mut j: usize = 0;
        while j < lb
            invariant
                j <= lb == bv@.len(),
                i < la == av@.len(),
                previous@.len() == lb,
                current@.len() == j,
                ai == av@.take(i as int),
                ai1 == av@.take(i + 1),
                ai1.drop_last() == ai,
                ai1.last() == ca,
                cur0 == i + 1,
                prev0 == lev(ai, bv@.take(0)),
                forall|k: int| 0 <= k < lb ==> #[trigger] previous@[k] == lev(ai, bv@.take(k + 1)),
                forall|k: int| 0 <= k < lb ==> previous@[k] <= usize::MAX,
                forall|k: int| 0 <= k < j ==> #[trigger] current@[k] == lev(ai1, bv@.take(k + 1)),
                forall|k: int| 0 <= k < j ==> current@[k] <= usize::MAX,
                row_min <= cur0,
                forall|k: int| 0 <= k < j ==> row_min <= #[trigger] current@[k],
            decreases lb - j,
        {
            let cb = bv[j];
            let cost: u128 = if ca != cb {
                1
            } else {
                0
            };
            let diag = if j == 0 {
                prev0
            } else {
                previous[j - 1]
            };
            let left = if j == 0 {
                cur0
            } else {
                current[j - 1]
            };
            let up = previous[j];
            let mut value = diag + cost;
            if up + 1 < value {
                value = up + 1;
            }
            if left + 1 < value {
                value = left + 1;
            }
            proof {
                let bj1 = bv@.take(j + 1);
                assert(bj1.drop_last() =~= bv@.take(j as int));
                assert(bj1.last() == cb);
                assert(diag == lev(ai, bv@.take(j as int)));
                assert(left == lev(ai1, bv@.take(j as int)));
                assert(up == lev(ai, bj1));
                assert(value == lev(ai1, bj1));
                crate::tools::lemma_lev_upper(ai1, bj1);
            }
            current.push(value);
            if value < row_min {
                row_min = value;
            }
            j += 1;
        }
        if row_min > max as u128 {
            proof {
                assert forall|k: int| 0 <= k <= lb implies #[trigger] lev(ai1, bv@.take(k)) >= (max + 1) as nat by {
                    if k == 0 {
                        assert(lev(ai1, bv@.take(0)) == i + 1);
                    } else {
                        assert(current@[k - 1] == lev(ai1, bv@.take(k)));
                    }
                }
                lemma_rows_bound(av@, bv@, i + 1, (max + 1) as nat);
            }
            return None;
        }
        previous = current;
        prev0 = cur0;
        i += 1;
    }
    assert(av@.take(la as int) =~= av@);
    let distance = if lb == 0 {
        prev0
    } else {
        previous[lb - 1]
    };
    assert(bv@.take(lb as int) =~= bv@);
    if distance <= max as u128 {
        Some(distance as usize)
    } else {
        None
    }
}

/// The distance is at most the longer length.
pub proof fn lemma_lev_upper(a: Seq<char>, b: Seq<char>)
    ensures
        lev(a, b) <= if a.len() >= b.len() {
            a.len()
        } else {
            b.len()
        },
    decreases a.len() + b.len(),
{
    if a.len() > 0 && b.len() > 0 {
        lemma_lev_upper(a.drop_last(), b.drop_last());
    }
}

} // verus!
