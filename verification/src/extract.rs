//! Symbol extraction: every definition node with a name becomes a symbol,
//! in source order, with its byte range, lines, signature and doc comment.

use vstd::prelude::*;
use vstd::utf8::*;
use crate::lang::{Lang, RustLang, TypeScriptLang, PythonLang, GoLang, JavaScriptLang, JavaLang,
    CLang, CppLang, CSharpLang, RubyLang, LuaLang, HtmlLang, CssLang, MarkdownLang,
    definition_kind, has_doc_comment};
use crate::lang::c::c_name_of;
use crate::lang::util::{opt_view, tree_ok, trim_str};
use crate::language::ParsedSource;
use crate::seqs::{index_of, lemma_index_of, split_on, join_spaces, starts_with, ends_with};
use crate::signature::{clean_signature, signature_of, find_char, lemma_join_push};
use crate::symbol::{Symbol, SymbolKind};
use crate::syntax::SyntaxTree;
use crate::text::{trim, trim_start, chars_of, string_from, trim_bounds, copy_range, push_all,
    skip_ws_forward, skip_ws_backward};

verus! {

/// A definition's name, by its language's rule.
pub open spec fn name_of(l: Lang, t: &SyntaxTree, bytes: Seq<u8>, i: usize) -> Option<Seq<char>> {
    match l {
        Lang::Rust => RustLang::name_of(t, bytes, i),
        Lang::TypeScript => TypeScriptLang::name_of(t, bytes, i),
        Lang::Python => PythonLang::name_of(t, bytes, i),
        Lang::Go => GoLang::name_of(t, bytes, i),
        Lang::JavaScript => JavaScriptLang::name_of(t, bytes, i),
        Lang::Java => JavaLang::name_of(t, bytes, i),
        Lang::C => c_name_of(t, bytes, i),
        Lang::Cpp => c_name_of(t, bytes, i),
        Lang::CSharp => CSharpLang::name_of(t, bytes, i),
        Lang::Ruby => RubyLang::name_of(t, bytes, i),
        Lang::Lua => LuaLang::name_of(t, bytes, i),
        Lang::Html => HtmlLang::name_of(t, bytes, i),
        Lang::Css => CssLang::name_of(t, bytes, i),
        Lang::Markdown => MarkdownLang::name_of(t, bytes, i),
    }
}

/// A definition's name, by its language's rule.
pub fn symbol_name(l: Lang, t: &SyntaxTree, bytes: &[u8], i: usize) -> (r: Option<String>)
    requires
        tree_ok(t, bytes@),
        i < t.len(),
    ensures
        opt_view(r) == name_of(l, t, bytes@, i),
{
    match l {
        Lang::Rust => RustLang.symbol_name(t, bytes, i),
        Lang::TypeScript => TypeScriptLang.symbol_name(t, bytes, i),
        Lang::Python => PythonLang.symbol_name(t, bytes, i),
        Lang::Go => GoLang.symbol_name(t, bytes, i),
        Lang::JavaScript => JavaScriptLang.symbol_name(t, bytes, i),
        Lang::Java => JavaLang.symbol_name(t, bytes, i),
        Lang::C => CLang.symbol_name(t, bytes, i),
        Lang::Cpp => CppLang.symbol_name(t, bytes, i),
        Lang::CSharp => CSharpLang.symbol_name(t, bytes, i),
        Lang::Ruby => RubyLang.symbol_name(t, bytes, i),
        Lang::Lua => LuaLang.symbol_name(t, bytes, i),
        Lang::Html => HtmlLang.symbol_name(t, bytes, i),
        Lang::Css => CssLang.symbol_name(t, bytes, i),
        Lang::Markdown => MarkdownLang.symbol_name(t, bytes, i),
    }
}

/// Node `i` has a parent of kind `k`.
pub open spec fn parent_is(t: &SyntaxTree, i: usize, k: Seq<char>) -> bool {
    t.node(i).parent matches Some(p) && t.kind_is(p, k)
}

/// The node whose span is the definition's: a decorated python definition
/// spans its decorators, a C++ template its `template <...>` head, a
/// markdown heading its section.
pub open spec fn def_node(l: Lang, t: &SyntaxTree, i: usize) -> usize {
    let wrapper = match l {
        Lang::Python => parent_is(t, i, "decorated_definition"@),
        Lang::Cpp => parent_is(t, i, "template_declaration"@),
        Lang::Markdown => parent_is(t, i, "section"@),
        _ => false,
    };
    if wrapper {
        t.node(i).parent.unwrap()
    } else {
        i
    }
}

fn parent_kind(t: &SyntaxTree, bytes: &[u8], i: usize, k: &str) -> (r: bool)
    requires
        i < t.len(),
        tree_ok(t, bytes@),
    ensures
        r == parent_is(t, i, k@),
{
    match t.nodes[i].parent {
        Some(p) => {
            assert(t.nodes@[i as int].parent matches Some(q) ==> q < i);
            t.kind_eq(p, k)
        },
        None => false,
    }
}

/// The node whose span is the definition's, as `def_node` states it.
fn definition_node(l: Lang, t: &SyntaxTree, bytes: &[u8], i: usize) -> (r: usize)
    requires
        i < t.len(),
        tree_ok(t, bytes@),
    ensures
        r == def_node(l, t, i),
        r <= i,
{
    let wrapper = match l {
        Lang::Python => parent_kind(t, bytes, i, "decorated_definition"),
        Lang::Cpp => parent_kind(t, bytes, i, "template_declaration"),
        Lang::Markdown => parent_kind(t, bytes, i, "section"),
        _ => false,
    };
    if wrapper {
        assert(t.nodes@[i as int].parent matches Some(q) ==> q < i);
        t.nodes[i].parent.unwrap()
    } else {
        i
    }
}

/// Number of LF bytes in `b`.
pub open spec fn count_lf(b: Seq<u8>) -> nat
    decreases b.len(),
{
    if b.len() == 0 {
        0
    } else {
        count_lf(b.drop_last()) + if b.last() == 10u8 {
            1nat
        } else {
            0nat
        }
    }
}

/// The 1-based first and last lines of the symbol at node `i` whose span
/// is node `d`'s. They follow the node's rows when `d` spans what `i`
/// spans, else they are counted in the source: a span that ends with its
/// line's LF ends on that line.
pub open spec fn symbol_lines(t: &SyntaxTree, bytes: Seq<u8>, i: usize, d: usize) -> (nat, nat) {
    let s = t.node(d).start_byte as int;
    let e = t.node(d).end_byte as int;
    if s == t.node(i).start_byte && e == t.node(i).end_byte {
        ((t.node(i).start_row + 1) as nat, (t.node(i).end_row + 1) as nat)
    } else {
        let before = count_lf(bytes.take(s));
        let inside = count_lf(bytes.subrange(s, e));
        (
            before + 1,
            if e > s && bytes[e - 1] == 10u8 {
                before + inside
            } else {
                before + inside + 1
            },
        )
    }
}

fn count_lf_in(b: &[u8], lo: usize, hi: usize) -> (r: usize)
    requires
        lo <= hi <= b@.len(),
    ensures
        r == count_lf(b@.subrange(lo as int, hi as int)),
        r <= hi - lo,
{
    let mut k = lo;
    let mut c: usize = 0;
    while k < hi
        invariant
            lo <= k <= hi <= b@.len(),
            c == count_lf(b@.subrange(lo as int, k as int)),
            c <= k - lo,
        decreases hi - k,
    {
        assert(b@.subrange(lo as int, k + 1).drop_last() == b@.subrange(lo as int, k as int));
        if b[k] == 10u8 {
            c += 1;
        }
        k += 1;
    }
    c
}

/// The trimmed first line of a definition's text, or an ellipsis when that
/// is empty.
pub open spec fn first_line_signature(x: Seq<char>) -> Seq<char> {
    if trim(x.take(index_of(x, '\n'))).len() == 0 {
        seq!['…']
    } else {
        trim(x.take(index_of(x, '\n')))
    }
}

/// The raw signature of the definition at node `i`: for CSS the selector
/// list, else the first line of the node's text.
pub open spec fn raw_signature(l: Lang, t: &SyntaxTree, bytes: Seq<u8>, i: usize) -> Seq<char> {
    if l == Lang::Css {
        match CssLang::name_of(t, bytes, i) {
            Some(n) => n,
            None => seq!['…'],
        }
    } else {
        match t.text(bytes, i) {
            Some(x) => first_line_signature(x),
            None => seq!['…'],
        }
    }
}

fn ellipsis() -> (s: String)
    ensures
        s@ == seq!['…'],
{
    let mut v: Vec<char> = Vec::new();
    v.push('…');
    string_from(v.as_slice())
}

/// The raw signature, as `raw_signature` states it.
fn raw_signature_of(l: Lang, t: &SyntaxTree, bytes: &[u8], i: usize) -> (r: String)
    requires
        tree_ok(t, bytes@),
        i < t.len(),
    ensures
        r@ == raw_signature(l, t, bytes@, i),
{
    if let Lang::Css = l {
        return match CssLang.symbol_name(t, bytes, i) {
            Some(n) => n,
            None => ellipsis(),
        };
    }
    let x = match t.node_text(bytes, i) {
        Some(x) => x,
        None => return ellipsis(),
    };
    let v = chars_of(x.as_str());
    let nl = find_char(v.as_slice(), 0, v.len(), '\n');
    assert(v@.subrange(0, v@.len() as int) == v@);
    assert(v@.take(nl as int) == v@.subrange(0, nl as int));
    let (lo, hi) = trim_bounds(v.as_slice(), 0, nl);
    if lo == hi {
        ellipsis()
    } else {
        let w = copy_range(v.as_slice(), lo, hi);
        string_from(w.as_slice())
    }
}

// ---- doc comments ----

/// `s` contains `p` at some position.
pub open spec fn contains_seq(s: Seq<char>, p: Seq<char>) -> bool {
    exists|k: int| 0 <= k && k + p.len() <= s.len() && #[trigger] s.subrange(k, k + p.len()) == p
}

pub(crate) fn matches_at(v: &[char], q: &[char], k: usize) -> (r: bool)
    requires
        k + q@.len() <= v@.len(),
    ensures
        r == (v@.subrange(k as int, k + q@.len()) == q@),
{
    let n = v.len();
    let mut j: usize = 0;
    while j < q.len()
        invariant
            n == v@.len(),
            k + q@.len() <= v@.len(),
            j <= q@.len(),
            forall|m: int| 0 <= m < j ==> v@[k + m] == q@[m],
        decreases q@.len() - j,
    {
        if v[k + j] != q[j] {
            assert(v@.subrange(k as int, k + q@.len())[j as int] != q@[j as int]);
            return false;
        }
        j += 1;
    }
    assert(v@.subrange(k as int, k + q@.len()) =~= q@);
    true
}

/// `s` contains `p`.
pub fn contains_str(s: &str, p: &str) -> (r: bool)
    ensures
        r == contains_seq(s@, p@),
{
    let v = chars_of(s);
    let q = chars_of(p);
    if q.len() > v.len() {
        return false;
    }
    if q.len() == 0 {
        assert(v@.subrange(0, 0 + q@.len() as int) =~= q@);
        return true;
    }
    let mut k: usize = 0;
    let last = v.len() - q.len();
    while k <= last
        invariant
            v@ == s@,
            q@ == p@,
            q@.len() >= 1,
            q@.len() <= v@.len(),
            last == v@.len() - q@.len(),
            last < usize::MAX,
            forall|m: int| 0 <= m < k ==> #[trigger] v@.subrange(m, m + q@.len()) != q@,
        decreases last + 1 - k,
    {
        if matches_at(v.as_slice(), q.as_slice(), k) {
            return true;
        }
        k += 1;
    }
    proof {
        assert forall|m: int| 0 <= m && m + q@.len() <= v@.len() implies #[trigger] v@.subrange(
            m,
            m + q@.len(),
        ) != q@ by {
            assert(m < k);
        }
    }
    false
}

/// `b` without its trailing CR and LF bytes.
pub open spec fn trim_crlf(b: Seq<u8>) -> Seq<u8>
    decreases b.len(),
{
    if b.len() > 0 && (b.last() == 10u8 || b.last() == 13u8) {
        trim_crlf(b.drop_last())
    } else {
        b
    }
}

/// From `b` on, with `after_newline` telling whether only blanks followed
/// the last LF: a blank line shows up (an LF, then only spaces, tabs or CRs,
/// then another LF).
pub open spec fn blank_line_from(b: Seq<u8>, after_newline: bool) -> bool
    decreases b.len(),
{
    if b.len() == 0 {
        false
    } else if b[0] == 10u8 {
        if after_newline {
            true
        } else {
            blank_line_from(b.drop_first(), true)
        }
    } else if b[0] == 32u8 || b[0] == 9u8 || b[0] == 13u8 {
        blank_line_from(b.drop_first(), after_newline)
    } else {
        blank_line_from(b.drop_first(), false)
    }
}

/// The gap holds a blank line.
pub fn has_blank_line(b: &[u8], lo: usize, hi: usize) -> (r: bool)
    requires
        lo <= hi <= b@.len(),
    ensures
        r == blank_line_from(b@.subrange(lo as int, hi as int), false),
{
    let mut k = lo;
    let mut after = false;
    while k < hi
        invariant
            lo <= k <= hi <= b@.len(),
            blank_line_from(b@.subrange(lo as int, hi as int), false) == blank_line_from(
                b@.subrange(k as int, hi as int),
                after,
            ),
        decreases hi - k,
    {
        assert(b@.subrange(k as int, hi as int).drop_first() == b@.subrange(k + 1, hi as int));
        assert(b@.subrange(k as int, hi as int)[0] == b@[k as int]);
        let c = b[k];
        if c == 10u8 {
            if after {
                return true;
            }
            after = true;
        } else if c == 32u8 || c == 9u8 || c == 13u8 {
        } else {
            after = false;
        }
        k += 1;
    }
    false
}

/// A comment's text inside its markers: `/* ... */` (when closed), or what
/// follows `--`, `//` or `#`.
pub open spec fn comment_inner(t: Seq<char>) -> Seq<char> {
    if starts_with(t, seq!['/', '*']) {
        if ends_with(t.skip(2), seq!['*', '/']) {
            t.skip(2).take(t.len() - 4)
        } else {
            t
        }
    } else if starts_with(t, seq!['-', '-']) || starts_with(t, seq!['/', '/']) {
        t.skip(2)
    } else if t.len() > 0 && t[0] == '#' {
        t.skip(1)
    } else {
        t
    }
}

/// `s` without its leading run of `*`, `/` and `!`.
pub open spec fn strip_marks(s: Seq<char>) -> Seq<char>
    decreases s.len(),
{
    if s.len() > 0 && (s[0] == '*' || s[0] == '/' || s[0] == '!') {
        strip_marks(s.drop_first())
    } else {
        s
    }
}

/// One comment line as prose.
pub open spec fn prose_line(l: Seq<char>) -> Seq<char> {
    trim(strip_marks(trim(l)))
}

/// The non-empty prose lines.
pub open spec fn prose_lines(pieces: Seq<Seq<char>>) -> Seq<Seq<char>>
    decreases pieces.len(),
{
    if pieces.len() == 0 {
        seq![]
    } else if prose_line(pieces[0]).len() == 0 {
        prose_lines(pieces.drop_first())
    } else {
        seq![prose_line(pieces[0])] + prose_lines(pieces.drop_first())
    }
}

/// A comment's prose: markers stripped, each line trimmed of `*`, `/`, `!`
/// and whitespace, empty lines dropped, the rest joined by spaces.
pub open spec fn comment_prose(text: Seq<char>) -> Seq<char> {
    join_spaces(prose_lines(split_on(comment_inner(trim(text)), '\n')))
}

proof fn lemma_prose_append(done: Seq<Seq<char>>, p: Seq<char>, rest: Seq<Seq<char>>)
    ensures
        done + prose_lines(seq![p] + rest) == (if prose_line(p).len() == 0 {
            done
        } else {
            done.push(prose_line(p))
        }) + prose_lines(rest),
{
    assert((seq![p] + rest).drop_first() == rest);
    assert((seq![p] + rest)[0] == p);
    if prose_line(p).len() != 0 {
        assert(done + (seq![prose_line(p)] + prose_lines(rest)) == done.push(prose_line(p))
            + prose_lines(rest));
    }
}

/// Bounds of `comment_inner(t)` in `t`.
fn comment_inner_bounds(t: &[char]) -> (r: (usize, usize))
    ensures
        r.0 <= r.1 <= t@.len(),
        comment_inner(t@) == t@.subrange(r.0 as int, r.1 as int),
{
    let n = t.len();
    let ghost tt = t@;
    if n >= 2 {
        assert(tt.take(2) =~= seq![tt[0], tt[1]]);
    }
    if n >= 4 {
        assert(tt.skip(2).skip(tt.skip(2).len() - 2) =~= seq![tt[n - 2], tt[n - 1]]);
        assert(tt.skip(2).take(n - 4) =~= tt.subrange(2, n - 2));
    }
    if n >= 2 && n < 4 {
        assert(!ends_with(tt.skip(2), seq!['*', '/']));
    }
    assert(tt.subrange(0, n as int) == tt);
    assert(n >= 2 ==> tt.skip(2) == tt.subrange(2, n as int));
    assert(n >= 1 ==> tt.skip(1) == tt.subrange(1, n as int));
    if n >= 2 && t[0] == '/' && t[1] == '*' {
        if n >= 4 && t[n - 2] == '*' && t[n - 1] == '/' {
            (2, n - 2)
        } else {
            (0, n)
        }
    } else if n >= 2 && ((t[0] == '-' && t[1] == '-') || (t[0] == '/' && t[1] == '/')) {
        (2, n)
    } else if n >= 1 && t[0] == '#' {
        (1, n)
    } else {
        (0, n)
    }
}

/// Bounds of `prose_line(v[lo..hi])` in `v`.
fn prose_bounds(v: &[char], lo: usize, hi: usize) -> (r: (usize, usize))
    requires
        lo <= hi <= v@.len(),
    ensures
        r.0 <= r.1 <= v@.len(),
        prose_line(v@.subrange(lo as int, hi as int)) == v@.subrange(r.0 as int, r.1 as int),
{
    let (l0, l1) = trim_bounds(v, lo, hi);
    let mut m0 = l0;
    while m0 < l1 && (v[m0] == '*' || v[m0] == '/' || v[m0] == '!')
        invariant
            l0 <= m0 <= l1 <= v@.len(),
            strip_marks(v@.subrange(l0 as int, l1 as int)) == strip_marks(
                v@.subrange(m0 as int, l1 as int),
            ),
        decreases l1 - m0,
    {
        assert(v@.subrange(m0 as int, l1 as int).drop_first() == v@.subrange(m0 + 1, l1 as int));
        assert(v@.subrange(m0 as int, l1 as int)[0] == v@[m0 as int]);
        m0 += 1;
    }
    proof {
        if m0 < l1 {
            assert(v@.subrange(m0 as int, l1 as int)[0] == v@[m0 as int]);
        }
    }
    trim_bounds(v, m0, l1)
}

/// Strip comment markers from a comment's text, as `comment_prose` states.
pub fn strip_comment_markers(text: &str) -> (r: String)
    ensures
        r@ == comment_prose(text@),
{
    let all = chars_of(text);
    let (lo, hi) = trim_bounds(all.as_slice(), 0, all.len());
    assert(all@.subrange(0, all@.len() as int) == all@);
    let t = copy_range(all.as_slice(), lo, hi);
    let (a, b) = comment_inner_bounds(t.as_slice());
    let inner = copy_range(t.as_slice(), a, b);
    let len = inner.len();
    let mut out: Vec<char> = Vec::new();
    let mut first = true;
    let mut start: usize = 0;
    let ghost mut done: Seq<Seq<char>> = seq![];
    proof {
        assert(inner@.skip(0) == inner@);
    }
    loop
        invariant
            start <= len == inner@.len(),
            inner@ == comment_inner(trim(text@)),
            out@ == join_spaces(done),
            first == (done.len() == 0),
            prose_lines(split_on(inner@, '\n')) == done + prose_lines(
                split_on(inner@.skip(start as int), '\n'),
            ),
        decreases len - start,
    {
        let ghost rest = inner@.skip(start as int);
        assert(rest == inner@.subrange(start as int, len as int));
        let end = find_char(inner.as_slice(), start, len, '\n');
        let ghost piece = inner@.subrange(start as int, end as int);
        proof {
            lemma_index_of(rest, '\n');
            assert(rest.take(end - start) == piece);
            if end < len {
                assert(rest.skip(end - start + 1) == inner@.skip(end + 1));
                assert(split_on(rest, '\n') == seq![piece] + split_on(inner@.skip(end + 1), '\n'));
            } else {
                assert(rest.take(end - start) == rest);
                assert(split_on(rest, '\n') == seq![piece]);
                assert(seq![piece] == seq![piece] + Seq::<Seq<char>>::empty());
            }
        }
        let (p0, p1) = prose_bounds(inner.as_slice(), start, end);
        let ghost old_done = done;
        if p0 < p1 {
            let w = copy_range(inner.as_slice(), p0, p1);
            proof {
                lemma_join_push(done, w@);
            }
            if !first {
                out.push(' ');
            }
            first = false;
            push_all(&mut out, w.as_slice());
            proof {
                done = done.push(w@);
            }
        }
        if end == len {
            proof {
                lemma_prose_append(old_done, piece, Seq::<Seq<char>>::empty());
                assert(prose_lines(Seq::<Seq<char>>::empty()) =~= Seq::<Seq<char>>::empty());
                assert(done + Seq::<Seq<char>>::empty() == done);
            }
            return string_from(out.as_slice());
        }
        proof {
            lemma_prose_append(old_done, piece, split_on(inner@.skip(end + 1), '\n'));
        }
        start = end + 1;
    }
}

/// The doc comment just above node `n`: its previous sibling, when that is
/// a comment (by kind) whose end, trailing line breaks aside, is followed
/// by no blank line before `n`; as prose, and none when that is empty.
pub open spec fn comment_above(l: Lang, t: &SyntaxTree, bytes: Seq<u8>, n: usize) -> Option<Seq<char>> {
    if !has_doc_comment(l) {
        None
    } else {
        match t.prev_sibling(n) {
            None => None,
            Some(c) => if !contains_seq(t.node(c).kind@, "comment"@) {
                None
            } else {
                match t.text(bytes, c) {
                    None => None,
                    Some(raw) => {
                        let te = t.node(c).start_byte + trim_crlf(
                            bytes.subrange(t.node(c).start_byte as int, t.node(c).end_byte as int),
                        ).len();
                        if te > t.node(n).start_byte {
                            None
                        } else if blank_line_from(
                            bytes.subrange(te as int, t.node(n).start_byte as int),
                            false,
                        ) {
                            None
                        } else if comment_prose(raw).len() == 0 {
                            None
                        } else {
                            Some(comment_prose(raw))
                        }
                    },
                }
            },
        }
    }
}

/// End of `b[lo..hi]` once trailing CR and LF bytes are dropped.
fn trim_crlf_end(b: &[u8], lo: usize, hi: usize) -> (r: usize)
    requires
        lo <= hi <= b@.len(),
    ensures
        lo <= r <= hi,
        trim_crlf(b@.subrange(lo as int, hi as int)) == b@.subrange(lo as int, r as int),
{
    let mut e = hi;
    while e > lo && (b[e - 1] == 10u8 || b[e - 1] == 13u8)
        invariant
            lo <= e <= hi <= b@.len(),
            trim_crlf(b@.subrange(lo as int, hi as int)) == trim_crlf(b@.subrange(lo as int, e as int)),
        decreases e - lo,
    {
        assert(b@.subrange(lo as int, e as int).drop_last() == b@.subrange(lo as int, e - 1));
        e -= 1;
    }
    proof {
        if e > lo {
            assert(b@.subrange(lo as int, e as int).last() == b@[e - 1]);
        }
    }
    e
}

/// The doc comment just above node `n`, as `comment_above` states it.
pub fn doc_comment_above(l: Lang, t: &SyntaxTree, bytes: &[u8], n: usize) -> (r: Option<String>)
    requires
        tree_ok(t, bytes@),
        n < t.len(),
    ensures
        opt_view(r) == comment_above(l, t, bytes@, n),
{
    if !l.has_doc_comment() {
        return None;
    }
    assert(t.nodes@[n as int].parent matches Some(p) ==> p < n);
    let c = match t.prev_sibling_of(n) {
        Some(c) => c,
        None => return None,
    };
    if !contains_str(t.nodes[c].kind.as_str(), "comment") {
        return None;
    }
    let raw = match t.node_text(bytes, c) {
        Some(raw) => raw,
        None => return None,
    };
    let cs = t.nodes[c].start_byte;
    let te = trim_crlf_end(bytes, cs, t.nodes[c].end_byte);
    let ns = t.nodes[n].start_byte;
    if te > ns {
        return None;
    }
    if has_blank_line(bytes, te, ns) {
        return None;
    }
    let text = strip_comment_markers(raw.as_str());
    if text.as_str().is_empty() {
        return None;
    }
    Some(text)
}

/// Index of the first quote (`'` or `"`) in `t`, or `t.len()`.
pub open spec fn first_quote(t: Seq<char>) -> int
    decreases t.len(),
{
    if t.len() == 0 {
        0
    } else if t[0] == '\'' || t[0] == '"' {
        0
    } else {
        1 + first_quote(t.drop_first())
    }
}

/// The body of a string literal `t`: from its first quote, without the
/// quotes (triple or single) that open it and, when present, close it.
/// None without a quote.
pub open spec fn docstring_span(t: Seq<char>) -> Option<Seq<char>> {
    let q = first_quote(t);
    if q >= t.len() {
        None
    } else {
        let b = t.skip(q);
        let k: int = if starts_with(b, seq!['"', '"', '"']) || starts_with(b, seq!['\'', '\'', '\'']) {
            3
        } else {
            1
        };
        let rest = b.skip(k);
        Some(
            if ends_with(rest, b.take(k)) {
                rest.take(rest.len() - k)
            } else {
                rest
            },
        )
    }
}

/// The text of a python string literal, trimmed, as `docstring_span` reads
/// the trimmed literal.
pub open spec fn docstring_text(x: Seq<char>) -> Option<Seq<char>> {
    match docstring_span(trim(x)) {
        Some(s) => Some(trim(s)),
        None => None,
    }
}

/// Back over comment siblings from `o`.
pub open spec fn skip_comments(t: &SyntaxTree, o: Option<usize>) -> Option<usize>
    decreases (match o {
        Some(x) => x as int + 1,
        None => 0,
    }),
{
    match o {
        Some(x) => if x < t.len() && contains_seq(t.node(x).kind@, "comment"@) {
            match t.prev_sibling(x) {
                Some(y) => if y < x {
                    skip_comments(t, Some(y))
                } else {
                    Some(y)
                },
                None => None,
            }
        } else {
            o
        },
        None => None,
    }
}

/// A python definition's docstring: a string statement just before the
/// definition (or its decorators), unless it is the module's docstring
/// (the first statement of the module, comments aside).
pub open spec fn python_docstring(t: &SyntaxTree, bytes: Seq<u8>, i: usize) -> Option<Seq<char>> {
    let eff = if parent_is(t, i, "decorated_definition"@) {
        t.node(i).parent.unwrap()
    } else {
        i
    };
    match t.prev_sibling(eff) {
        Some(prev) => if !t.kind_is(prev, "expression_statement"@) {
            None
        } else if parent_is(t, prev, "module"@) && skip_comments(t, t.prev_sibling(prev)).is_none() {
            None
        } else {
            match t.named_child(prev, 0) {
                Some(f) => if t.kind_is(f, "string"@) {
                    match t.text(bytes, f) {
                        Some(x) => docstring_text(x),
                        None => None,
                    }
                } else {
                    None
                },
                None => None,
            }
        },
        None => None,
    }
}

/// A definition's doc comment: for python its docstring, else the comment
/// above it; for C++ above its template head.
pub open spec fn doc_of(l: Lang, t: &SyntaxTree, bytes: Seq<u8>, i: usize) -> Option<Seq<char>> {
    match l {
        Lang::Python => match python_docstring(t, bytes, i) {
            Some(d) => Some(d),
            None => comment_above(l, t, bytes, i),
        },
        Lang::Cpp => comment_above(l, t, bytes, def_node(l, t, i)),
        _ => comment_above(l, t, bytes, i),
    }
}

fn find_quote(t: &[char]) -> (r: usize)
    ensures
        r as int == first_quote(t@),
        r <= t@.len(),
{
    let n = t.len();
    let mut q: usize = 0;
    assert(t@.skip(0) == t@);
    while q < n && t[q] != '\'' && t[q] != '"'
        invariant
            q <= n == t@.len(),
            first_quote(t@) == q + first_quote(t@.skip(q as int)),
        decreases n - q,
    {
        assert(t@.skip(q as int).drop_first() == t@.skip(q + 1));
        assert(t@.skip(q as int)[0] == t@[q as int]);
        q += 1;
    }
    proof {
        if q < n {
            assert(t@.skip(q as int)[0] == t@[q as int]);
        }
        assert(q == n ==> t@.skip(q as int).len() == 0);
    }
    q
}

fn quote_len(t: &[char], q: usize) -> (k: usize)
    requires
        q < t@.len(),
    ensures
        k as int == (if starts_with(t@.skip(q as int), seq!['"', '"', '"']) || starts_with(
            t@.skip(q as int),
            seq!['\'', '\'', '\''],
        ) {
            3int
        } else {
            1int
        }),
{
    let n = t.len();
    let ghost b = t@.skip(q as int);
    proof {
        if n - q >= 3 {
            assert(b.take(3) =~= seq![t@[q as int], t@[q + 1], t@[q + 2]]);
        }
    }
    if n - q >= 3 && ((t[q] == '"' && t[q + 1] == '"' && t[q + 2] == '"') || (t[q] == '\'' && t[q
        + 1] == '\'' && t[q + 2] == '\'')) {
        3
    } else {
        1
    }
}

fn closes_with(t: &[char], q: usize, k: usize) -> (r: bool)
    requires
        q + k <= t@.len(),
    ensures
        r == ends_with(t@.skip(q as int).skip(k as int), t@.skip(q as int).take(k as int)),
{
    let n = t.len();
    let ghost b = t@.skip(q as int);
    let ghost rest = b.skip(k as int);
    let ghost head = b.take(k as int);
    if n - q - k < k {
        return false;
    }
    let ghost tail = rest.skip(rest.len() - k);
    let mut m: usize = 0;
    while m < k
        invariant
            q + k + k <= n == t@.len(),
            m <= k,
            forall|z: int| 0 <= z < m ==> tail[z] == #[trigger] head[z],
            b == t@.skip(q as int),
            rest == b.skip(k as int),
            head == b.take(k as int),
            tail == rest.skip(rest.len() - k),
        decreases k - m,
    {
        assert(tail[m as int] == t@[n - k + m]);
        assert(head[m as int] == t@[q + m]);
        if t[n - k + m] != t[q + m] {
            return false;
        }
        m += 1;
    }
    assert(tail =~= head);
    true
}

fn docstring_of(x: &str) -> (r: Option<String>)
    ensures
        opt_view(r) == docstring_text(x@),
{
    let all = chars_of(x);
    let (lo, hi) = trim_bounds(all.as_slice(), 0, all.len());
    assert(all@.subrange(0, all@.len() as int) == all@);
    let t = copy_range(all.as_slice(), lo, hi);
    let n = t.len();
    let q = find_quote(t.as_slice());
    if q >= n {
        return None;
    }
    let k = quote_len(t.as_slice(), q);
    assert(q + k <= n);
    let closes = closes_with(t.as_slice(), q, k);
    let end = if closes {
        n - k
    } else {
        n
    };
    proof {
        let rest = t@.skip(q as int).skip(k as int);
        assert(rest == t@.subrange(q + k, n as int));
        if closes {
            assert(rest.take(rest.len() - k) == t@.subrange(q + k, end as int));
        }
    }
    let body = copy_range(t.as_slice(), q + k, end);
    let s = string_from(body.as_slice());
    Some(trim_str(s.as_str()))
}

fn skip_comment_siblings(t: &SyntaxTree, bytes: &[u8], o: Option<usize>) -> (r: Option<usize>)
    requires
        tree_ok(t, bytes@),
        o matches Some(x) ==> x < t.len(),
    ensures
        r == skip_comments(t, o),
        r matches Some(x) ==> x < t.len(),
{
    let ghost start = o;
    let mut cur = o;
    loop
        invariant
            tree_ok(t, bytes@),
            cur matches Some(x) ==> x < t.len(),
            start == o,
            skip_comments(t, start) == skip_comments(t, cur),
        decreases (match cur {
            Some(x) => x as int + 1,
            None => 0,
        }),
    {
        match cur {
            None => return None,
            Some(x) => {
                if !contains_str(t.nodes[x].kind.as_str(), "comment") {
                    return cur;
                }
                assert(t.nodes@[x as int].parent matches Some(p) ==> p < x);
                match t.prev_sibling_of(x) {
                    None => return None,
                    Some(y) => {
                        if y < x {
                            cur = Some(y);
                        } else {
                            return Some(y);
                        }
                    },
                }
            },
        }
    }
}

/// A python definition's docstring, as `python_docstring` states it.
fn python_docstring_of(t: &SyntaxTree, bytes: &[u8], i: usize) -> (r: Option<String>)
    requires
        tree_ok(t, bytes@),
        i < t.len(),
    ensures
        opt_view(r) == python_docstring(t, bytes@, i),
{
    assert(t.nodes@[i as int].parent matches Some(p) ==> p < i);
    let eff = if parent_kind(t, bytes, i, "decorated_definition") {
        t.nodes[i].parent.unwrap()
    } else {
        i
    };
    assert(t.nodes@[eff as int].parent matches Some(p) ==> p < eff);
    let prev = match t.prev_sibling_of(eff) {
        Some(p) => p,
        None => return None,
    };
    if !t.kind_eq(prev, "expression_statement") {
        return None;
    }
    if parent_kind(t, bytes, prev, "module") {
        assert(t.nodes@[prev as int].parent matches Some(p) ==> p < prev);
        let before = t.prev_sibling_of(prev);
        if skip_comment_siblings(t, bytes, before).is_none() {
            return None;
        }
    }
    let first = match t.named_child_at(prev, 0) {
        Some(f) => f,
        None => return None,
    };
    if !t.kind_eq(first, "string") {
        return None;
    }
    match t.node_text(bytes, first) {
        Some(x) => docstring_of(x.as_str()),
        None => None,
    }
}

/// A definition's doc comment, as `doc_of` states it.
pub fn doc_comment(l: Lang, t: &SyntaxTree, bytes: &[u8], i: usize) -> (r: Option<String>)
    requires
        tree_ok(t, bytes@),
        i < t.len(),
    ensures
        opt_view(r) == doc_of(l, t, bytes@, i),
{
    match l {
        Lang::Python => match python_docstring_of(t, bytes, i) {
            Some(d) => Some(d),
            None => doc_comment_above(l, t, bytes, i),
        },
        Lang::Cpp => {
            let d = definition_node(l, t, bytes, i);
            doc_comment_above(l, t, bytes, d)
        },
        _ => doc_comment_above(l, t, bytes, i),
    }
}

/// Node `i` is a definition with a name.
pub open spec fn is_definition_at(l: Lang, t: &SyntaxTree, bytes: Seq<u8>, i: usize) -> bool {
    definition_kind(l, t.node(i).kind@).is_some() && name_of(l, t, bytes, i).is_some()
}

/// The definitions with a name among the nodes from `j` on, in source
/// (pre-)order.
pub open spec fn definitions_from(l: Lang, t: &SyntaxTree, bytes: Seq<u8>, j: int) -> Seq<usize>
    decreases t.len() - j,
{
    if j < 0 || j >= t.len() {
        seq![]
    } else if is_definition_at(l, t, bytes, j as usize) {
        seq![j as usize] + definitions_from(l, t, bytes, j + 1)
    } else {
        definitions_from(l, t, bytes, j + 1)
    }
}

/// `s` is the symbol of the definition at node `i`.
pub open spec fn describes(s: Symbol, l: Lang, t: &SyntaxTree, bytes: Seq<u8>, i: usize) -> bool {
    let d = def_node(l, t, i);
    &&& definition_kind(l, t.node(i).kind@) == Some(s.kind)
    &&& name_of(l, t, bytes, i) == Some(s.name@)
    &&& s.byte_range.start == t.node(d).start_byte
    &&& s.byte_range.end == t.node(d).end_byte
    &&& symbol_lines(t, bytes, i, d) == (s.start_line as nat, s.end_line as nat)
    &&& s.signature@ == signature_of(raw_signature(l, t, bytes, i))
    &&& opt_view(s.doc_comment) == doc_of(l, t, bytes, i)
}

fn make_symbol(l: Lang, t: &SyntaxTree, bytes: &[u8], i: usize, kind: SymbolKind, name: String) -> (s: Symbol)
    requires
        tree_ok(t, bytes@),
        bytes@.len() < usize::MAX,
        i < t.len(),
        definition_kind(l, t.node(i).kind@) == Some(kind),
        name_of(l, t, bytes@, i) == Some(name@),
    ensures
        describes(s, l, t, bytes@, i),
{
    let d = definition_node(l, t, bytes, i);
    let s = t.nodes[d].start_byte;
    let e = t.nodes[d].end_byte;
    let ni = &t.nodes[i];
    let (start_line, end_line) = if s == ni.start_byte && e == ni.end_byte {
        (ni.start_row + 1, ni.end_row + 1)
    } else {
        let before = count_lf_in(bytes, 0, s);
        let inside = count_lf_in(bytes, s, e);
        assert(bytes@.take(s as int) == bytes@.subrange(0, s as int));
        if e > s && bytes[e - 1] == 10u8 {
            (before + 1, before + inside)
        } else {
            (before + 1, before + inside + 1)
        }
    };
    let raw = raw_signature_of(l, t, bytes, i);
    let signature = clean_signature(raw.as_str());
    let doc = doc_comment(l, t, bytes, i);
    Symbol {
        name,
        kind,
        start_line,
        end_line,
        byte_range: s..e,
        signature,
        doc_comment: doc,
    }
}

/// Walk a tree and collect every definition symbol, in source order.
pub fn extract_symbols(parsed: &ParsedSource) -> (r: Vec<Symbol>)
    requires
        parsed.wf(),
        parsed.bytes().len() < usize::MAX,
    ensures
        r@.len() == definitions_from(parsed.language, &parsed.syntax, parsed.bytes(), 0).len(),
        forall|k: int|
            0 <= k < r@.len() ==> describes(
                #[trigger] r@[k],
                parsed.language,
                &parsed.syntax,
                parsed.bytes(),
                definitions_from(parsed.language, &parsed.syntax, parsed.bytes(), 0)[k],
            ),
{
    let bytes = parsed.source.as_str().as_bytes();
    let t = &parsed.syntax;
    let l = parsed.language;
    let n = t.nodes.len();
    let mut out: Vec<Symbol> = Vec::new();
    let ghost mut done: Seq<usize> = seq![];
    let mut j: usize = 0;
    while j < n
        invariant
            bytes@ == parsed.bytes(),
            tree_ok(t, bytes@),
            bytes@.len() < usize::MAX,
            n == t.len(),
            j <= n,
            definitions_from(l, t, bytes@, 0) == done + definitions_from(l, t, bytes@, j as int),
            out@.len() == done.len(),
            forall|k: int| 0 <= k < out@.len() ==> describes(#[trigger] out@[k], l, t, bytes@, done[k]),
        decreases n - j,
    {
        if let Some(kind) = l.definition_kind(t.nodes[j].kind.as_str()) {
            if let Some(name) = symbol_name(l, t, bytes, j) {
                let s = make_symbol(l, t, bytes, j, kind, name);
                out.push(s);
                proof {
                    assert(done + definitions_from(l, t, bytes@, j as int) == done.push(j)
                        + definitions_from(l, t, bytes@, j + 1));
                    done = done.push(j);
                }
            }
        }
        j += 1;
    }
    proof {
        assert(definitions_from(l, t, bytes@, j as int) =~= Seq::<usize>::empty());
        assert(done + Seq::<usize>::empty() == done);
    }
    out
}

/// The definitions found from `j` on are nodes of the tree at `j` or after.
pub proof fn lemma_definitions_in_tree(l: Lang, t: &SyntaxTree, bytes: Seq<u8>, j: int)
    requires
        t.len() <= usize::MAX,
    ensures
        forall|k: int|
            0 <= k < definitions_from(l, t, bytes, j).len() ==> j <= #[trigger] definitions_from(
                l,
                t,
                bytes,
                j,
            )[k] < t.len(),
    decreases t.len() - j,
{
    if j >= 0 && j < t.len() {
        lemma_definitions_in_tree(l, t, bytes, j + 1);
        let d = definitions_from(l, t, bytes, j);
        let r = definitions_from(l, t, bytes, j + 1);
        if is_definition_at(l, t, bytes, j as usize) {
            assert forall|k: int| 0 <= k < d.len() implies j <= #[trigger] d[k] < t.len() by {
                if k > 0 {
                    assert(d[k] == r[k - 1]);
                }
            }
        }
    }
}

/// A definition's span comes from the node itself or an ancestor.
proof fn lemma_count_lf_last(b: Seq<u8>)
    requires
        b.len() > 0,
        b.last() == 10u8,
    ensures
        count_lf(b) >= 1,
{
}

/// A symbol's lines run forward from line 1: its first line is at least 1
/// and at most its last.
pub proof fn lemma_symbol_lines_ordered(t: &SyntaxTree, bytes: Seq<u8>, i: usize, d: usize)
    requires
        t.wf(bytes.len()),
        i < t.len(),
        d < t.len(),
    ensures
        1 <= symbol_lines(t, bytes, i, d).0 <= symbol_lines(t, bytes, i, d).1,
{
    assert(t.nodes@[i as int].start_row <= t.nodes@[i as int].end_row);
    let s = t.node(d).start_byte as int;
    let e = t.node(d).end_byte as int;
    assert(t.nodes@[d as int].start_byte <= t.nodes@[d as int].end_byte <= bytes.len());
    if e > s && bytes[e - 1] == 10u8 {
        let sub = bytes.subrange(s, e);
        assert(sub.last() == bytes[e - 1]);
        lemma_count_lf_last(sub);
    }
}

pub proof fn lemma_def_node_in_tree(l: Lang, t: &SyntaxTree, bytes: Seq<u8>, i: usize)
    requires
        tree_ok(t, bytes),
        i < t.len(),
    ensures
        def_node(l, t, i) <= i,
        t.node(def_node(l, t, i)).start_byte <= t.node(def_node(l, t, i)).end_byte <= bytes.len(),
{
    assert(t.nodes@[i as int].parent matches Some(p) ==> p < i);
    let d = def_node(l, t, i);
    assert(t.nodes@[d as int].start_byte <= t.nodes@[d as int].end_byte <= bytes.len());
}

} // verus!
