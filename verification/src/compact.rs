//! Compact views of symbols: the signature and any header lines kept, the
//! body replaced by a one-line fold marker, the closing line kept when it
//! reads as a block closer.
//!
//! The view is computed over the symbol's text split into lines, with the
//! comment spans of its syntax subtree masked out of the lexical scans.

use vstd::prelude::*;
use vstd::utf8::*;
use crate::seqs::{index_of, lemma_index_of, lemma_index_of_at, starts_with, ends_with};
use crate::syntax::{span_text, utf8_string};
use crate::bytes::copy_bytes;
use crate::text::{decimal, decimal_chars, push_str, push_all};
use crate::signature::find_char;
use crate::text::{copy_range, chars_of, trim, trim_start, trim_end, is_ws, char_is_whitespace,
    skip_ws_forward, skip_ws_backward, trim_bounds};
use crate::lang::{Lang, comment_prefix, comment_close, keeps_brace_closers, is_body_kind, has_body_kinds, has_preprocessor};
use crate::syntax::SyntaxTree;
use crate::language::ParsedSource;
use crate::symbol::Symbol;
use crate::text::string_from;
use crate::extract::{contains_seq, contains_str};

verus! {

// ---------------------------------------------------------------------------
// Lines and their byte offsets.

/// Bytes in the UTF-8 encoding of `c`.
pub open spec fn width(c: char) -> nat {
    if (c as u32) < 0x80 {
        1
    } else if (c as u32) < 0x800 {
        2
    } else if (c as u32) < 0x10000 {
        3
    } else {
        4
    }
}

/// Bytes in the UTF-8 encoding of `s`.
pub open spec fn byte_len(s: Seq<char>) -> nat
    decreases s.len(),
{
    if s.len() == 0 {
        0
    } else {
        byte_len(s.drop_last()) + width(s.last())
    }
}

pub proof fn lemma_byte_len_concat(a: Seq<char>, b: Seq<char>)
    ensures
        byte_len(a + b) == byte_len(a) + byte_len(b),
    decreases b.len(),
{
    if b.len() > 0 {
        assert((a + b).drop_last() =~= a + b.drop_last());
        lemma_byte_len_concat(a, b.drop_last());
    } else {
        assert(a + b =~= a);
    }
}

pub proof fn lemma_byte_len_bound(s: Seq<char>)
    ensures
        s.len() <= byte_len(s) <= 4 * s.len(),
    decreases s.len(),
{
    if s.len() > 0 {
        lemma_byte_len_bound(s.drop_last());
    }
}

/// Bytes in the UTF-8 encoding of `c`.
fn char_width(c: char) -> (r: usize)
    ensures
        r == width(c),
{
    let u = c as u32;
    if u < 0x80 {
        1
    } else if u < 0x800 {
        2
    } else if u < 0x10000 {
        3
    } else {
        4
    }
}

/// Bytes in the UTF-8 encoding of `v[lo..hi]`.
fn chars_width(v: &[char], lo: usize, hi: usize) -> (r: u128)
    requires
        lo <= hi <= v@.len(),
    ensures
        r == byte_len(v@.subrange(lo as int, hi as int)),
        r <= 4 * (hi - lo),
{
    let mut n: u128 = 0;
    let mut k = lo;
    while k < hi
        invariant
            lo <= k <= hi <= v@.len(),
            n == byte_len(v@.subrange(lo as int, k as int)),
            n <= 4 * (k - lo),
        decreases hi - k,
    {
        assert(v@.subrange(lo as int, k + 1).drop_last() =~= v@.subrange(lo as int, k as int));
        n = n + char_width(v[k]) as u128;
        k += 1;
    }
    n
}

/// `l` without one trailing carriage return.
pub open spec fn strip_cr(l: Seq<char>) -> Seq<char> {
    if l.len() > 0 && l.last() == '\r' {
        l.drop_last()
    } else {
        l
    }
}

/// The lines of `t` as `str::lines` yields them: the pieces between line
/// feeds, a carriage return before a line feed dropped, and no empty piece
/// after a final line feed.
pub open spec fn text_lines(t: Seq<char>) -> Seq<Seq<char>>
    decreases t.len(),
{
    proof {
        lemma_index_of(t, '\n');
    }
    if t.len() == 0 {
        seq![]
    } else if index_of(t, '\n') < t.len() {
        seq![strip_cr(t.take(index_of(t, '\n')))] + text_lines(t.skip(index_of(t, '\n') + 1))
    } else {
        seq![t]
    }
}

/// Byte offset of line `i` from the start of the text, counting each line's
/// bytes plus one for its line feed.
pub open spec fn line_off(ls: Seq<Seq<char>>, i: int) -> nat
    decreases i,
{
    if i <= 0 {
        0
    } else {
        line_off(ls, i - 1) + byte_len(ls[i - 1]) + 1
    }
}

proof fn lemma_line_off_cons(x: Seq<char>, rest: Seq<Seq<char>>, i: int)
    requires
        1 <= i <= rest.len() + 1,
    ensures
        line_off(seq![x] + rest, i) == byte_len(x) + 1 + line_off(rest, i - 1),
    decreases i,
{
    let s = seq![x] + rest;
    if i > 1 {
        lemma_line_off_cons(x, rest, i - 1);
        assert(s[i - 1] == rest[i - 2]);
        assert(line_off(s, i) == line_off(s, i - 1) + byte_len(s[i - 1]) + 1);
        assert(line_off(rest, i - 1) == line_off(rest, i - 2) + byte_len(rest[i - 2]) + 1);
    } else {
        assert(s[0] == x);
        assert(line_off(s, 1) == line_off(s, 0) + byte_len(s[0]) + 1);
        assert(line_off(rest, 0) == 0);
    }
}

proof fn lemma_strip_cr_len(l: Seq<char>)
    ensures
        byte_len(strip_cr(l)) <= byte_len(l),
{
}

/// Line offsets stay within the text's byte length, plus one.
proof fn lemma_line_off_bound(t: Seq<char>, i: int)
    requires
        0 <= i <= text_lines(t).len(),
    ensures
        line_off(text_lines(t), i) <= byte_len(t) + 1,
    decreases t.len(),
{
    lemma_index_of(t, '\n');
    if i == 0 {
    } else if index_of(t, '\n') < t.len() {
        let k = index_of(t, '\n');
        let rest = t.skip(k + 1);
        lemma_line_off_cons(strip_cr(t.take(k)), text_lines(rest), i);
        lemma_line_off_bound(rest, i - 1);
        lemma_strip_cr_len(t.take(k));
        assert(t =~= t.take(k) + seq!['\n'] + rest);
        lemma_byte_len_concat(t.take(k), seq!['\n']);
        lemma_byte_len_concat(t.take(k) + seq!['\n'], rest);
        assert(byte_len(seq!['\n']) == 1) by {
            assert(seq!['\n'].drop_last() =~= Seq::<char>::empty());
            assert(seq!['\n'].last() == '\n');
            assert(('\n' as u32) == 10);
            assert(width('\n') == 1);
            assert(byte_len(Seq::<char>::empty()) == 0);
        }
    } else {
        assert(text_lines(t) == seq![t]);
        assert(i == 1);
        assert(line_off(text_lines(t), 1) == line_off(text_lines(t), 0) + byte_len(t) + 1);
    }
}

/// The lines of `v`, as `str::lines` yields them.
pub fn split_lines(v: &[char]) -> (r: Vec<Vec<char>>)
    ensures
        r@.map_values(|l: Vec<char>| l@) == text_lines(v@),
{
    let len = v.len();
    let mut out: Vec<Vec<char>> = Vec::new();
    let mut start: usize = 0;
    proof {
        assert(v@.skip(0) =~= v@);
        assert(out@.map_values(|l: Vec<char>| l@) + text_lines(v@.skip(0)) =~= text_lines(v@));
    }
    while start < len
        invariant
            start <= len == v@.len(),
            out@.map_values(|l: Vec<char>| l@) + text_lines(v@.skip(start as int)) == text_lines(v@),
        decreases len - start,
    {
        let ghost t = v@.skip(start as int);
        let ghost before = out@.map_values(|l: Vec<char>| l@);
        assert(t =~= v@.subrange(start as int, len as int));
        let end = find_char(v, start, len, '\n');
        proof {
            lemma_index_of(t, '\n');
        }
        if end < len {
            let mut stop = end;
            if stop > start && v[stop - 1] == '\r' {
                stop = stop - 1;
            }
            let line = copy_range(v, start, stop);
            proof {
                let k = index_of(t, '\n');
                assert(t.take(k) =~= v@.subrange(start as int, end as int));
                assert(line@ =~= strip_cr(t.take(k)));
                assert(t.skip(k + 1) =~= v@.skip(end + 1));
            }
            out.push(line);
            assert(out@.map_values(|l: Vec<char>| l@) =~= before.push(line@));
            start = end + 1;
        } else {
            let line = copy_range(v, start, len);
            proof {
                assert(line@ =~= t);
                assert(text_lines(t) == seq![t]);
                assert(v@.skip(len as int) =~= Seq::<char>::empty());
            }
            out.push(line);
            assert(out@.map_values(|l: Vec<char>| l@) =~= before.push(line@));
            start = len;
        }
    }
    proof {
        assert(v@.skip(len as int) =~= Seq::<char>::empty());
        assert(out@.map_values(|l: Vec<char>| l@) + Seq::<Seq<char>>::empty() =~= out@.map_values(
            |l: Vec<char>| l@,
        ));
    }
    out
}

// ---------------------------------------------------------------------------
// Comment spans, masked out of the lexical scans.

/// The node kind names a comment (`comment`, `line_comment`, ...).
pub open spec fn is_comment_kind(k: Seq<char>) -> bool {
    contains_seq(k, "comment"@)
}

/// Spans of the comment nodes met in pre-order from position `i` on, up to
/// `stop`; a comment's own subtree is not entered.
pub open spec fn comments_from(t: SyntaxTree, i: usize, stop: usize) -> Seq<(usize, usize)>
    decreases stop - i,
{
    if i >= stop || i >= t.len() {
        seq![]
    } else {
        let step: usize = if is_comment_kind(t.node(i).kind@) && t.end(i) > i {
            t.end(i)
        } else {
            (i + 1) as usize
        };
        let next: usize = if step < stop {
            step
        } else {
            stop
        };
        if is_comment_kind(t.node(i).kind@) {
            seq![(t.node(i).start_byte, t.node(i).end_byte)] + comments_from(t, next, stop)
        } else {
            comments_from(t, next, stop)
        }
    }
}

/// `e` placed after every span that starts no later than it does.
pub open spec fn insert_span(sorted: Seq<(usize, usize)>, e: (usize, usize)) -> Seq<(usize, usize)>
    decreases sorted.len(),
{
    if sorted.len() == 0 {
        seq![e]
    } else if e.0 < sorted[0].0 {
        seq![e] + sorted
    } else {
        seq![sorted[0]] + insert_span(sorted.drop_first(), e)
    }
}

/// Spans in order of their start, ties kept in their given order.
pub open spec fn spans_by_start(s: Seq<(usize, usize)>) -> Seq<(usize, usize)>
    decreases s.len(),
{
    if s.len() == 0 {
        s
    } else {
        insert_span(spans_by_start(s.drop_last()), s.last())
    }
}

/// The comment spans inside node `n`'s subtree, sorted by start; none
/// without a node.
pub open spec fn comment_spans(t: SyntaxTree, n: Option<usize>) -> Seq<(usize, usize)> {
    match n {
        Some(i) => if i < t.len() {
            spans_by_start(comments_from(t, i, t.end(i)))
        } else {
            seq![]
        },
        None => seq![],
    }
}

proof fn lemma_insert_span_at(s: Seq<(usize, usize)>, e: (usize, usize), p: int)
    requires
        0 <= p <= s.len(),
        forall|i: int| 0 <= i < p ==> !(e.0 < (#[trigger] s[i]).0),
        p < s.len() ==> e.0 < s[p].0,
    ensures
        insert_span(s, e) == s.take(p) + seq![e] + s.skip(p),
    decreases s.len(),
{
    if s.len() == 0 {
        assert(s.take(p) + seq![e] + s.skip(p) =~= seq![e]);
    } else if p == 0 {
        assert(s.take(p) + seq![e] + s.skip(p) =~= seq![e] + s);
    } else {
        let t = s.drop_first();
        assert forall|i: int| 0 <= i < p - 1 implies !(e.0 < (#[trigger] t[i]).0) by {
            assert(t[i] == s[i + 1]);
        }
        lemma_insert_span_at(t, e, p - 1);
        assert(s.take(p) + seq![e] + s.skip(p) =~= seq![s[0]] + (t.take(p - 1) + seq![e] + t.skip(p - 1)));
    }
}

/// Stable sort of spans by start.
fn sort_spans(v: Vec<(usize, usize)>) -> (r: Vec<(usize, usize)>)
    ensures
        r@ == spans_by_start(v@),
{
    let mut out: Vec<(usize, usize)> = Vec::new();
    let mut j: usize = 0;
    while j < v.len()
        invariant
            j <= v@.len(),
            out@ == spans_by_start(v@.take(j as int)),
        decreases v@.len() - j,
    {
        let e = v[j];
        let ghost cur = out@;
        let mut p: usize = 0;
        while p < out.len()
            invariant
                cur == out@,
                p <= out@.len(),
                forall|i: int| 0 <= i < p ==> !(e.0 < (#[trigger] out@[i]).0),
            ensures
                p <= out@.len(),
                forall|i: int| 0 <= i < p ==> !(e.0 < (#[trigger] out@[i]).0),
                p < out@.len() ==> e.0 < out@[p as int].0,
            decreases out@.len() - p,
        {
            if e.0 < out[p].0 {
                break;
            }
            p += 1;
        }
        proof {
            lemma_insert_span_at(out@, e, p as int);
            assert(v@.take(j + 1).drop_last() =~= v@.take(j as int));
            assert(v@.take(j + 1).last() == e);
        }
        out.insert(p, e);
        assert(out@ =~= cur.take(p as int) + seq![e] + cur.skip(p as int));
        j += 1;
    }
    assert(v@.take(v@.len() as int) =~= v@);
    out
}

/// The comment spans inside node `n`'s subtree, sorted by start.
pub fn comment_spans_of(t: &SyntaxTree, n: Option<usize>, src_len: Ghost<nat>) -> (r: Vec<(usize, usize)>)
    requires
        t.wf(src_len@),
    ensures
        r@ == comment_spans(*t, n),
{
    let i0 = match n {
        Some(i) => i,
        None => return Vec::new(),
    };
    if i0 >= t.nodes.len() {
        return Vec::new();
    }
    let stop = t.ends[i0];
    let mut found: Vec<(usize, usize)> = Vec::new();
    let mut i = i0;
    while i < stop && i < t.nodes.len()
        invariant
            t.wf(src_len@),
            i0 < t.len(),
            stop == t.end(i0),
            i <= stop,
            found@ + comments_from(*t, i, stop) == comments_from(*t, i0, stop),
        decreases stop - i,
    {
        let is_comment = contains_str(t.nodes[i].kind.as_str(), "comment");
        let e = t.ends[i];
        let step = if is_comment && e > i {
            e
        } else {
            i + 1
        };
        let next = if step < stop {
            step
        } else {
            stop
        };
        if is_comment {
            let ghost before = found@;
            found.push((t.nodes[i].start_byte, t.nodes[i].end_byte));
            assert(found@ + comments_from(*t, next, stop) =~= before + (seq![(
                t.node(i).start_byte,
                t.node(i).end_byte,
            )] + comments_from(*t, next, stop)));
        }
        i = next;
    }
    assert(found@ + Seq::<(usize, usize)>::empty() =~= found@);
    sort_spans(found)
}

/// The span cursor moved past the spans that end at or before `abs`.
pub open spec fn advance(cs: Seq<(usize, usize)>, ci: nat, abs: int) -> nat
    decreases cs.len() - ci,
{
    if ci < cs.len() && cs[ci as int].1 <= abs {
        advance(cs, ci + 1, abs)
    } else {
        ci
    }
}

/// Characters of `line` from index `k` on that lie outside comment spans;
/// character `k` sits `off` bytes into the line, the line at byte `abs_start`
/// of the source, and the span cursor is at `ci`.
pub open spec fn masked_from(
    line: Seq<char>,
    k: nat,
    off: nat,
    abs_start: int,
    cs: Seq<(usize, usize)>,
    ci: nat,
) -> Seq<char>
    decreases line.len() - k,
{
    if k >= line.len() {
        seq![]
    } else {
        let abs = abs_start + off;
        let c2 = advance(cs, ci, abs);
        let rest = masked_from(line, k + 1, off + width(line[k as int]), abs_start, cs, c2);
        if c2 < cs.len() && cs[c2 as int].0 <= abs {
            rest
        } else {
            seq![line[k as int]] + rest
        }
    }
}

/// Characters of `line` (at byte `abs_start` of the source) outside the
/// comment spans `cs`, which are sorted by start.
pub open spec fn masked(line: Seq<char>, abs_start: int, cs: Seq<(usize, usize)>) -> Seq<char> {
    masked_from(line, 0, 0, abs_start, cs, advance(cs, 0, abs_start))
}

/// `cs` from index `i` on with char literals (`'X'`, `'\X'`) removed.
pub open spec fn code_from(cs: Seq<char>, i: int) -> Seq<char>
    decreases cs.len() - i,
{
    if i < 0 || i >= cs.len() {
        seq![]
    } else if cs[i] == '\'' && ((i + 2 < cs.len() && cs[i + 2] == '\'') || (i + 3 < cs.len() && cs[i
        + 1] == '\\' && cs[i + 3] == '\'')) {
        let step: int = if cs[i + 1] == '\\' {
            4
        } else {
            3
        };
        code_from(
            cs,
            if i + step < cs.len() {
                i + step
            } else {
                cs.len() as int
            },
        )
    } else {
        seq![cs[i]] + code_from(cs, i + 1)
    }
}

/// The characters of a line that the lexical scans read: outside comments
/// and outside char literals.
pub open spec fn code_chars(line: Seq<char>, abs_start: int, cs: Seq<(usize, usize)>) -> Seq<char> {
    code_from(masked(line, abs_start, cs), 0)
}

/// Index of the first span that does not end at or before `abs`, from `ci`.
fn advance_exec(cs: &[(usize, usize)], ci: usize, abs: u128) -> (r: usize)
    requires
        ci <= cs@.len(),
    ensures
        r == advance(cs@, ci as nat, abs as int),
        ci <= r <= cs@.len(),
{
    let mut c = ci;
    while c < cs.len() && (cs[c].1 as u128) <= abs
        invariant
            ci <= c <= cs@.len(),
            advance(cs@, c as nat, abs as int) == advance(cs@, ci as nat, abs as int),
        decreases cs@.len() - c,
    {
        c += 1;
    }
    c
}

/// The characters of `line` outside the comment spans.
fn masked_chars(line: &[char], abs_start: u128, cs: &[(usize, usize)]) -> (r: Vec<char>)
    requires
        abs_start + 4 * line@.len() < u128::MAX,
    ensures
        r@ == masked(line@, abs_start as int, cs@),
{
    let mut out: Vec<char> = Vec::new();
    let mut ci = advance_exec(cs, 0, abs_start);
    let mut off: u128 = 0;
    let mut k: usize = 0;
    while k < line.len()
        invariant
            abs_start + 4 * line@.len() < u128::MAX,
            k <= line@.len(),
            off <= 4 * k,
            ci <= cs@.len(),
            out@ + masked_from(line@, k as nat, off as nat, abs_start as int, cs@, ci as nat) == masked(
                line@,
                abs_start as int,
                cs@,
            ),
        decreases line@.len() - k,
    {
        let abs = abs_start + off;
        let c2 = advance_exec(cs, ci, abs);
        let ch = line[k];
        let ghost before = out@;
        let ghost rest = masked_from(line@, (k + 1) as nat, (off + width(ch)) as nat, abs_start as int, cs@, c2 as nat);
        let masked_here = c2 < cs.len() && (cs[c2].0 as u128) <= abs;
        if !masked_here {
            out.push(ch);
            assert(before + (seq![ch] + rest) =~= out@ + rest);
        }
        off = off + char_width(ch) as u128;
        ci = c2;
        k += 1;
    }
    assert(out@ + Seq::<char>::empty() =~= out@);
    out
}

/// The characters of `line` the lexical scans read.
fn line_code_chars(line: &[char], abs_start: u128, cs: &[(usize, usize)]) -> (r: Vec<char>)
    requires
        abs_start + 4 * line@.len() < u128::MAX,
    ensures
        r@ == code_chars(line@, abs_start as int, cs@),
{
    let chars = masked_chars(line, abs_start, cs);
    let n = chars.len();
    let mut out: Vec<char> = Vec::new();
    let mut i: usize = 0;
    while i < n
        invariant
            n == chars@.len(),
            i <= n,
            out@ + code_from(chars@, i as int) == code_from(chars@, 0),
        decreases n - i,
    {
        let c = chars[i];
        let literal = c == '\'' && ((n - i > 2 && chars[i + 2] == '\'') || (n - i > 3 && chars[i + 1]
            == '\\' && chars[i + 3] == '\''));
        if literal {
            let step: usize = if chars[i + 1] == '\\' {
                4
            } else {
                3
            };
            i = if step < n - i {
                i + step
            } else {
                n
            };
        } else {
            let ghost before = out@;
            out.push(c);
            assert(before + (seq![c] + code_from(chars@, i + 1)) =~= out@ + code_from(chars@, i + 1));
            i += 1;
        }
    }
    assert(out@ + Seq::<char>::empty() =~= out@);
    out
}

// ---------------------------------------------------------------------------
// Strings and brackets left open across lines.

/// Which multi-line string delimiter is open, if any.
#[derive(Debug, Clone, Copy, PartialEq, Eq, Structural)]
pub enum StrDelim {
    Outside,
    Quote,
    Backtick,
}

/// The string state after reading `cs` from index `i` on, starting in
/// `st`, with `escaped` telling that the previous character was a
/// backslash outside a raw string. A quote toggles the quote state, a
/// backtick the backtick state; each is inert inside the other's string.
pub open spec fn str_state_from(cs: Seq<char>, i: int, st: StrDelim, escaped: bool) -> StrDelim
    decreases cs.len() - i,
{
    if i < 0 || i >= cs.len() {
        st
    } else if escaped {
        str_state_from(cs, i + 1, st, false)
    } else if cs[i] == '\\' && st != StrDelim::Backtick {
        str_state_from(cs, i + 1, st, true)
    } else {
        let ch = cs[i];
        let next = match st {
            StrDelim::Outside => if ch == '"' {
                StrDelim::Quote
            } else if ch == '`' {
                StrDelim::Backtick
            } else {
                StrDelim::Outside
            },
            StrDelim::Quote => if ch == '"' {
                StrDelim::Outside
            } else {
                StrDelim::Quote
            },
            StrDelim::Backtick => if ch == '`' {
                StrDelim::Outside
            } else {
                StrDelim::Backtick
            },
        };
        str_state_from(cs, i + 1, next, false)
    }
}

/// Opening minus closing round and square brackets in `cs` from `i` on.
pub open spec fn paren_delta_from(cs: Seq<char>, i: int) -> int
    decreases cs.len() - i,
{
    if i < 0 || i >= cs.len() {
        0
    } else {
        (if cs[i] == '(' || cs[i] == '[' {
            1int
        } else if cs[i] == ')' || cs[i] == ']' {
            -1int
        } else {
            0int
        }) + paren_delta_from(cs, i + 1)
    }
}

/// The code characters of line `i` of the symbol, whose text starts at
/// byte `base` of the source.
pub open spec fn line_code(ls: Seq<Seq<char>>, base: int, cs: Seq<(usize, usize)>, i: int) -> Seq<char> {
    code_chars(ls[i], base + line_off(ls, i), cs)
}

/// The string state after line `i`.
pub open spec fn state_after(ls: Seq<Seq<char>>, base: int, cs: Seq<(usize, usize)>, i: int) -> StrDelim
    decreases i + 1,
{
    if i < 0 {
        StrDelim::Outside
    } else {
        str_state_from(line_code(ls, base, cs, i), 0, state_after(ls, base, cs, i - 1), false)
    }
}

/// The bracket balance after line `i`; lines that start inside a string
/// are not counted.
pub open spec fn balance_after(ls: Seq<Seq<char>>, base: int, cs: Seq<(usize, usize)>, i: int) -> int
    decreases i + 1,
{
    if i < 0 {
        0
    } else if i > 0 && state_after(ls, base, cs, i - 1) != StrDelim::Outside {
        balance_after(ls, base, cs, i - 1)
    } else {
        balance_after(ls, base, cs, i - 1) + paren_delta_from(line_code(ls, base, cs, i), 0)
    }
}

proof fn lemma_paren_delta_bound(cs: Seq<char>, i: int)
    requires
        0 <= i <= cs.len(),
    ensures
        -(cs.len() - i) <= paren_delta_from(cs, i) <= cs.len() - i,
    decreases cs.len() - i,
{
    if i < cs.len() {
        lemma_paren_delta_bound(cs, i + 1);
    }
}

proof fn lemma_masked_len(line: Seq<char>, k: nat, off: nat, abs_start: int, cs: Seq<(usize, usize)>, ci: nat)
    ensures
        masked_from(line, k, off, abs_start, cs, ci).len() <= if k <= line.len() {
            line.len() - k
        } else {
            0
        },
    decreases line.len() - k,
{
    if k < line.len() {
        let c2 = advance(cs, ci, abs_start + off);
        lemma_masked_len(line, k + 1, off + width(line[k as int]), abs_start, cs, c2);
    }
}

proof fn lemma_code_len(cs: Seq<char>, i: int)
    requires
        0 <= i <= cs.len(),
    ensures
        code_from(cs, i).len() <= cs.len() - i,
    decreases cs.len() - i,
{
    if i < cs.len() {
        if cs[i] == '\'' && ((i + 2 < cs.len() && cs[i + 2] == '\'') || (i + 3 < cs.len() && cs[i + 1]
            == '\\' && cs[i + 3] == '\'')) {
            let step: int = if cs[i + 1] == '\\' {
                4
            } else {
                3
            };
            let j = if i + step < cs.len() {
                i + step
            } else {
                cs.len() as int
            };
            lemma_code_len(cs, j);
        } else {
            lemma_code_len(cs, i + 1);
        }
    }
}

proof fn lemma_line_code_len(ls: Seq<Seq<char>>, base: int, cs: Seq<(usize, usize)>, i: int)
    requires
        0 <= i < ls.len(),
    ensures
        line_code(ls, base, cs, i).len() <= byte_len(ls[i]),
{
    let abs = base + line_off(ls, i);
    lemma_masked_len(ls[i], 0, 0, abs, cs, advance(cs, 0, abs));
    lemma_code_len(masked(ls[i], abs, cs), 0);
    lemma_byte_len_bound(ls[i]);
}

proof fn lemma_balance_bound(ls: Seq<Seq<char>>, base: int, cs: Seq<(usize, usize)>, i: int)
    requires
        0 <= i < ls.len(),
    ensures
        -(line_off(ls, i + 1) as int) <= balance_after(ls, base, cs, i) <= line_off(ls, i + 1),
    decreases i,
{
    if i > 0 {
        lemma_balance_bound(ls, base, cs, i - 1);
    }
    lemma_line_code_len(ls, base, cs, i);
    lemma_paren_delta_bound(line_code(ls, base, cs, i), 0);
    assert(line_off(ls, i + 1) == line_off(ls, i) + byte_len(ls[i]) + 1);
    assert(line_off(ls, 0) == 0);
    assert(balance_after(ls, base, cs, -1) == 0);
    let d = paren_delta_from(line_code(ls, base, cs, i), 0);
    let prev = balance_after(ls, base, cs, i - 1);
    assert(balance_after(ls, base, cs, i) == prev || balance_after(ls, base, cs, i) == prev + d);
    assert(-(line_off(ls, i) as int) <= prev <= line_off(ls, i));
}

/// The string state after reading `cs`.
fn str_state_exec(cs: &[char], st: StrDelim) -> (r: StrDelim)
    ensures
        r == str_state_from(cs@, 0, st, false),
{
    let mut state = st;
    let mut escaped = false;
    let mut i: usize = 0;
    while i < cs.len()
        invariant
            i <= cs@.len(),
            str_state_from(cs@, i as int, state, escaped) == str_state_from(cs@, 0, st, false),
        decreases cs@.len() - i,
    {
        let ch = cs[i];
        if escaped {
            escaped = false;
        } else if ch == '\\' && state != StrDelim::Backtick {
            escaped = true;
        } else {
            state = match state {
                StrDelim::Outside => if ch == '"' {
                    StrDelim::Quote
                } else if ch == '`' {
                    StrDelim::Backtick
                } else {
                    StrDelim::Outside
                },
                StrDelim::Quote => if ch == '"' {
                    StrDelim::Outside
                } else {
                    StrDelim::Quote
                },
                StrDelim::Backtick => if ch == '`' {
                    StrDelim::Outside
                } else {
                    StrDelim::Backtick
                },
            };
        }
        i += 1;
    }
    state
}

/// Opening minus closing brackets in `cs`.
fn paren_delta_exec(cs: &[char]) -> (r: i128)
    requires
        cs@.len() < 0x1_0000_0000_0000_0000_0000,
    ensures
        r == paren_delta_from(cs@, 0),
{
    let mut d: i128 = 0;
    let mut i: usize = 0;
    proof {
        lemma_paren_delta_bound(cs@, 0);
    }
    while i < cs.len()
        invariant
            i <= cs@.len() < 0x1_0000_0000_0000_0000_0000,
            d + paren_delta_from(cs@, i as int) == paren_delta_from(cs@, 0),
            -(i as int) <= d <= i,
        decreases cs@.len() - i,
    {
        let c = cs[i];
        if c == '(' || c == '[' {
            d = d + 1;
        } else if c == ')' || c == ']' {
            d = d - 1;
        }
        i += 1;
    }
    d
}

// ---------------------------------------------------------------------------
// Line predicates.

/// `v[lo..hi]` starts with `p`.
fn range_starts_with(v: &[char], lo: usize, hi: usize, p: &str) -> (r: bool)
    requires
        lo <= hi <= v@.len(),
    ensures
        r == starts_with(v@.subrange(lo as int, hi as int), p@),
{
    let q = chars_of(p);
    if q.len() > hi - lo {
        return false;
    }
    let mut j: usize = 0;
    while j < q.len()
        invariant
            lo <= hi <= v@.len(),
            q@ == p@,
            q@.len() <= hi - lo,
            j <= q@.len(),
            forall|m: int| 0 <= m < j ==> v@[lo + m] == q@[m],
        decreases q@.len() - j,
    {
        if v[lo + j] != q[j] {
            assert(v@.subrange(lo as int, hi as int).take(q@.len() as int)[j as int] != q@[j as int]);
            return false;
        }
        j += 1;
    }
    assert(v@.subrange(lo as int, hi as int).take(q@.len() as int) =~= q@);
    true
}

/// `v[lo..hi]` is `p`.
fn range_is(v: &[char], lo: usize, hi: usize, p: &str) -> (r: bool)
    requires
        lo <= hi <= v@.len(),
    ensures
        r == (v@.subrange(lo as int, hi as int) == p@),
{
    let q = chars_of(p);
    if q.len() != hi - lo {
        assert(v@.subrange(lo as int, hi as int).len() != p@.len());
        return false;
    }
    let b = range_starts_with(v, lo, hi, p);
    proof {
        assert(v@.subrange(lo as int, hi as int).take(p@.len() as int) =~= v@.subrange(lo as int, hi as int));
    }
    b
}

/// `t` without its trailing run of `;`.
pub open spec fn strip_semis(t: Seq<char>) -> Seq<char>
    decreases t.len(),
{
    if t.len() > 0 && t.last() == ';' {
        strip_semis(t.drop_last())
    } else {
        t
    }
}

/// An `end` keyword closer (ruby, lua), trailing `;` ignored.
pub open spec fn is_end_closer(line: Seq<char>) -> bool {
    let t = strip_semis(trim(line));
    t == "end"@ || starts_with(t, "end "@)
}

/// A block closer: a trimmed line starting with `}`, `]` or `)`, or an
/// `end` keyword line.
pub open spec fn is_closer(line: Seq<char>) -> bool {
    let t = trim(line);
    (t.len() > 0 && (t[0] == '}' || t[0] == ']' || t[0] == ')')) || is_end_closer(t)
}

/// `line` opens a block, as the language reads openers.
pub open spec fn is_opener_line(l: Lang, line: Seq<char>) -> bool {
    let t = trim(line);
    match l {
        Lang::Python => (t.len() > 0 && (t.last() == '{' || t.last() == ':')) || (t.len() > 0 && t[0]
            == '{'),
        Lang::Ruby => starts_with(t, "def "@) || starts_with(t, "class "@) || starts_with(t, "module "@)
            || starts_with(t, "if "@) || starts_with(t, "unless "@) || starts_with(t, "begin"@)
            || starts_with(t, "while "@) || starts_with(t, "until "@) || starts_with(t, "for "@)
            || starts_with(t, "do "@) || t == "begin"@ || t == "do"@ || starts_with(t, "class <<"@),
        _ => (t.len() > 0 && t.last() == '{') || (t.len() > 0 && t[0] == '{'),
    }
}

/// Bounds of `trim(v[lo..hi])` after `strip_semis`.
fn strip_semis_end(v: &[char], lo: usize, hi: usize) -> (r: usize)
    requires
        lo <= hi <= v@.len(),
    ensures
        lo <= r <= hi,
        strip_semis(v@.subrange(lo as int, hi as int)) == v@.subrange(lo as int, r as int),
    decreases hi - lo,
{
    if hi > lo && v[hi - 1] == ';' {
        assert(v@.subrange(lo as int, hi as int).drop_last() =~= v@.subrange(lo as int, hi - 1));
        strip_semis_end(v, lo, hi - 1)
    } else {
        hi
    }
}

/// An `end` keyword closer.
fn end_closer(v: &[char]) -> (r: bool)
    ensures
        r == is_end_closer(v@),
{
    let (a, b) = trim_bounds(v, 0, v.len());
    assert(v@.subrange(0, v@.len() as int) =~= v@);
    let e = strip_semis_end(v, a, b);
    range_is(v, a, e, "end") || range_starts_with(v, a, e, "end ")
}

/// A block closer.
fn closer(v: &[char]) -> (r: bool)
    ensures
        r == is_closer(v@),
{
    let (a, b) = trim_bounds(v, 0, v.len());
    assert(v@.subrange(0, v@.len() as int) =~= v@);
    let t = copy_range(v, a, b);
    (a < b && (v[a] == '}' || v[a] == ']' || v[a] == ')')) || end_closer(t.as_slice())
}

/// `line` opens a block.
fn opener_line(l: Lang, v: &[char]) -> (r: bool)
    ensures
        r == is_opener_line(l, v@),
{
    let (a, b) = trim_bounds(v, 0, v.len());
    assert(v@.subrange(0, v@.len() as int) =~= v@);
    let ghost t = v@.subrange(a as int, b as int);
    match l {
        Lang::Python => (a < b && (v[b - 1] == '{' || v[b - 1] == ':')) || (a < b && v[a] == '{'),
        Lang::Ruby => range_starts_with(v, a, b, "def ") || range_starts_with(v, a, b, "class ")
            || range_starts_with(v, a, b, "module ") || range_starts_with(v, a, b, "if ")
            || range_starts_with(v, a, b, "unless ") || range_starts_with(v, a, b, "begin")
            || range_starts_with(v, a, b, "while ") || range_starts_with(v, a, b, "until ")
            || range_starts_with(v, a, b, "for ") || range_starts_with(v, a, b, "do ") || range_is(
            v,
            a,
            b,
            "begin",
        ) || range_is(v, a, b, "do") || range_starts_with(v, a, b, "class <<"),
        _ => (a < b && v[b - 1] == '{') || (a < b && v[a] == '{'),
    }
}

/// Length of the leading run of spaces and tabs.
pub open spec fn lead_len(line: Seq<char>) -> nat
    decreases line.len(),
{
    if line.len() > 0 && (line[0] == ' ' || line[0] == '\t') {
        1 + lead_len(line.drop_first())
    } else {
        0
    }
}

/// The leading spaces and tabs of a line.
pub open spec fn leading_ws(line: Seq<char>) -> Seq<char> {
    line.take(lead_len(line) as int)
}

proof fn lemma_lead_len(line: Seq<char>)
    ensures
        lead_len(line) <= line.len(),
    decreases line.len(),
{
    if line.len() > 0 && (line[0] == ' ' || line[0] == '\t') {
        lemma_lead_len(line.drop_first());
    }
}

/// Index just past the leading spaces and tabs of `v[lo..hi]`.
fn lead_end(v: &[char], lo: usize, hi: usize) -> (r: usize)
    requires
        lo <= hi <= v@.len(),
    ensures
        lo <= r <= hi,
        r - lo == lead_len(v@.subrange(lo as int, hi as int)),
    decreases hi - lo,
{
    if lo < hi && (v[lo] == ' ' || v[lo] == '\t') {
        assert(v@.subrange(lo as int, hi as int).drop_first() =~= v@.subrange(lo + 1, hi as int));
        lead_end(v, lo + 1, hi)
    } else {
        lo
    }
}

/// A character after which a line still continues.
pub open spec fn continues_after(c: char, in_preproc: bool) -> bool {
    c == '+' || c == '-' || c == '*' || c == '/' || c == '%' || c == '=' || c == '(' || c == '[' || c
        == ',' || c == '&' || c == '|' || c == '~' || c == '^' || c == '<' || (if in_preproc {
        c == '\0'
    } else {
        c == '\\'
    })
}

/// A character that continues the line before when a line starts with it.
pub open spec fn continues_before(c: char) -> bool {
    c == '+' || c == '-' || c == '/' || c == '=' || c == '.' || c == ':' || c == '&' || c == '|' || c
        == '?' || c == '<' || c == ';' || c == '"' || c == '\''
}

/// Some character of `t` is whitespace.
pub open spec fn has_ws(t: Seq<char>) -> bool {
    exists|i: int| 0 <= i < t.len() && is_ws(#[trigger] t[i])
}

/// The boundary between two lines is mid-expression: a string is open, a
/// bracket is pending, the previous line ends (or the next begins) with a
/// continuation token, or the previous line is a lone incomplete token.
/// Comment lines never continue.
pub open spec fn boundary_continues(
    prev: Seq<char>,
    next: Seq<char>,
    prev_in_string: bool,
    prev_open: bool,
    l: Lang,
    in_preproc: bool,
) -> bool {
    if prev_in_string {
        true
    } else if starts_with(trim_start(prev), comment_prefix(l)) {
        false
    } else {
        let p = trim_end(prev);
        if p.len() > 0 && continues_after(p.last(), in_preproc) {
            true
        } else if prev_open {
            true
        } else if trim_start(next).len() > 0 && continues_before(trim_start(next)[0]) {
            true
        } else {
            let t = trim(p);
            t.len() > 0 && t.last() != ';' && !has_ws(t) && !is_opener_line(l, t) && !is_closer(t)
        }
    }
}

/// Some character of `v[lo..hi]` is whitespace.
fn range_has_ws(v: &[char], lo: usize, hi: usize) -> (r: bool)
    requires
        lo <= hi <= v@.len(),
    ensures
        r == has_ws(v@.subrange(lo as int, hi as int)),
{
    let ghost t = v@.subrange(lo as int, hi as int);
    let mut k = lo;
    while k < hi
        invariant
            lo <= k <= hi <= v@.len(),
            t == v@.subrange(lo as int, hi as int),
            forall|m: int| 0 <= m < k - lo ==> !is_ws(#[trigger] t[m]),
        decreases hi - k,
    {
        if char_is_whitespace(v[k]) {
            assert(is_ws(t[k - lo]));
            return true;
        }
        assert(t[k - lo] == v@[k as int]);
        k += 1;
    }
    false
}

/// The boundary between two lines is mid-expression.
fn continues_exec(
    prev: &[char],
    next: &[char],
    prev_in_string: bool,
    prev_open: bool,
    l: Lang,
    in_preproc: bool,
) -> (r: bool)
    ensures
        r == boundary_continues(prev@, next@, prev_in_string, prev_open, l, in_preproc),
{
    if prev_in_string {
        return true;
    }
    let n = prev.len();
    assert(prev@.subrange(0, n as int) =~= prev@);
    let a = skip_ws_forward(prev, 0, n);
    if range_starts_with(prev, a, n, l.comment_prefix()) {
        return false;
    }
    let e = skip_ws_backward(prev, 0, n);
    if e > 0 {
        let c = prev[e - 1];
        let cont = c == '+' || c == '-' || c == '*' || c == '/' || c == '%' || c == '=' || c == '('
            || c == '[' || c == ',' || c == '&' || c == '|' || c == '~' || c == '^' || c == '<' || (
        if in_preproc {
            c == '\0'
        } else {
            c == '\\'
        });
        if cont {
            return true;
        }
    }
    if prev_open {
        return true;
    }
    let m = next.len();
    assert(next@.subrange(0, m as int) =~= next@);
    let b = skip_ws_forward(next, 0, m);
    if b < m {
        let c = next[b];
        if c == '+' || c == '-' || c == '/' || c == '=' || c == '.' || c == ':' || c == '&' || c == '|'
            || c == '?' || c == '<' || c == ';' || c == '"' || c == '\'' {
            return true;
        }
    }
    let p = copy_range(prev, 0, e);
    let (x, y) = trim_bounds(p.as_slice(), 0, e);
    assert(p@.subrange(0, e as int) =~= p@);
    if x == y {
        return false;
    }
    if p[y - 1] == ';' {
        return false;
    }
    let t = copy_range(p.as_slice(), x, y);
    !range_has_ws(p.as_slice(), x, y) && !opener_line(l, t.as_slice()) && !closer(t.as_slice())
}

// ---------------------------------------------------------------------------
// Pieces of the fold.

/// Occurrences of the pair `a b` in `s` from `i` on, left to right and
/// not overlapping (as `str::matches` counts a two-character pattern).
pub open spec fn count_pair(s: Seq<char>, i: int, a: char, b: char) -> nat
    decreases s.len() - i,
{
    if i < 0 || i + 1 >= s.len() {
        0
    } else if s[i] == a && s[i + 1] == b {
        1 + count_pair(s, i + 2, a, b)
    } else {
        count_pair(s, i + 1, a, b)
    }
}

/// Occurrences of `c` in `s` from `i` on.
pub open spec fn count_char(s: Seq<char>, i: int, c: char) -> nat
    decreases s.len() - i,
{
    if i < 0 || i >= s.len() {
        0
    } else {
        (if s[i] == c {
            1nat
        } else {
            0nat
        }) + count_char(s, i + 1, c)
    }
}

/// The first line of `s`, empty when there is none.
pub open spec fn first_line(s: Seq<char>) -> Seq<char> {
    if text_lines(s).len() > 0 {
        text_lines(s)[0]
    } else {
        seq![]
    }
}

/// `s` without its trailing line feeds.
pub open spec fn strip_lfs(s: Seq<char>) -> Seq<char>
    decreases s.len(),
{
    if s.len() > 0 && s.last() == '\n' {
        strip_lfs(s.drop_last())
    } else {
        s
    }
}

/// `s` ending on a line feed: as it is when it does, else followed by the
/// line terminator `eol`.
pub open spec fn end_with_eol(s: Seq<char>, eol: Seq<char>) -> Seq<char> {
    if s.len() > 0 && s.last() == '\n' {
        s
    } else {
        s + eol
    }
}

/// The line terminator of a compact view: `\r\n` when the symbol's text
/// uses one, else `\n`.
pub open spec fn eol_of(text: Seq<char>) -> Seq<char> {
    if exists|i: int| 0 <= i < text.len() - 1 && #[trigger] text[i] == '\r' && text[i + 1] == '\n' {
        "\r\n"@
    } else {
        "\n"@
    }
}

/// The fold marker line: indentation, the language's comment prefix, and
/// the count of lines it stands for.
pub open spec fn marker(l: Lang, indent: Seq<char>, omitted: nat) -> Seq<char> {
    indent + comment_prefix(l) + " ... ["@ + decimal(omitted) + " lines omitted]"@
}

/// Nothing but a comment (or nothing) follows an opening brace.
pub open spec fn comment_only(t: Seq<char>) -> bool {
    t.len() == 0 || starts_with(t, "//"@) || (starts_with(t, "/*"@) && ends_with(t, "*/"@))
}

/// Index of the first line feed in `b[from..to]`, or `to`.
pub open spec fn lf_from(b: Seq<u8>, from: int, to: int) -> int
    decreases to - from,
{
    if from >= to {
        to
    } else if b[from] == 10u8 {
        from
    } else {
        lf_from(b, from + 1, to)
    }
}

/// Index of the last line feed in `b[lo..hi]`.
pub open spec fn last_lf_in(b: Seq<u8>, lo: int, hi: int) -> Option<int>
    decreases hi - lo,
{
    if hi <= lo {
        None
    } else if b[hi - 1] == 10u8 {
        Some(hi - 1)
    } else {
        last_lf_in(b, lo, hi - 1)
    }
}

/// Spaces and tabs at `b[from..]`.
pub open spec fn lead_bytes(b: Seq<u8>, from: int) -> nat
    decreases b.len() - from,
{
    if 0 <= from < b.len() && (b[from] == 32u8 || b[from] == 9u8) {
        1 + lead_bytes(b, from + 1)
    } else {
        0
    }
}

/// The fold of a `{` body between bytes `bs` and `be` of a symbol spanning
/// `s0..s1`: the header through the opener's line, the marker, and the
/// closing line (with a `;` that ends the declaration right after the
/// symbol). None when the opener line is empty or carries code, a block comment is
/// left open, the body closes on its opener's line or not on a line of its
/// own, the closer closes more than the header opens, or nothing is left
/// to fold.
pub open spec fn brace_fold(b: Seq<u8>, s0: int, s1: int, bs: int, be: int, l: Lang, eol: Seq<char>) -> Option<Seq<char>> {
    let opener_nl = lf_from(b, bs, s1);
    let closer_start = match last_lf_in(b, 0, be - 1) {
        Some(i) => i + 1,
        None => s0,
    };
    let lead = lead_bytes(b, s1);
    if opener_nl <= bs {
        None
    } else {
    match (span_text(b, s0, opener_nl), span_text(b, bs + 1, opener_nl)) {
        (Some(header), Some(after)) => if count_pair(header, 0, '/', '*') > count_pair(header, 0, '*', '/') {
            None
        } else if !comment_only(trim(after)) {
            None
        } else if closer_start <= opener_nl {
            None
        } else {
            match (span_text(b, opener_nl + 1, closer_start), span_text(b, closer_start, s1)) {
                (Some(middle), Some(closing)) => {
                    let closes = trim_end(closing).len() > 0 && trim_end(closing).last() == '}';
                    let tail_end = if closes && s1 + lead < b.len() && b[s1 + lead] == 59u8 {
                        s1 + lead + 1
                    } else {
                        s1
                    };
                    match span_text(b, closer_start, tail_end) {
                        Some(tail_raw) => {
                            let tail = strip_lfs(tail_raw);
                            let omitted = text_lines(middle).len();
                            if !is_closer(first_line(tail)) {
                                None
                            } else if count_char(tail, 0, '}') > count_char(header, 0, '{') {
                                None
                            } else if omitted == 0 {
                                None
                            } else {
                                Some(
                                    end_with_eol(
                                        header + "\n"@ + marker(l, leading_ws(first_line(middle)), omitted)
                                            + eol + tail,
                                        eol,
                                    ),
                                )
                            }
                        },
                        None => None,
                    }
                },
                _ => None,
            }
        },
        _ => None,
    }
    }
}

/// The fold of an indentation or keyword body (python, ruby, lua): the
/// header lines above the body, the marker, and the last line when it is
/// an `end` closer. None when the body starts mid-line or nothing is left
/// to fold.
pub open spec fn indent_fold(b: Seq<u8>, s0: int, s1: int, bs: int, l: Lang, eol: Seq<char>) -> Option<Seq<char>> {
    match last_lf_in(b, s0, bs) {
        None => None,
        Some(nl) => match (span_text(b, nl + 1, bs), span_text(b, s0, nl), span_text(b, bs, s1)) {
            (Some(rest), Some(head), Some(body)) => {
                let ls = text_lines(strip_lfs(body));
                let last = if ls.len() > 0 {
                    ls.last()
                } else {
                    seq![]
                };
                let keep = is_end_closer(trim(last));
                let omitted: int = ls.len() - (if keep {
                    1int
                } else {
                    0int
                });
                if trim(rest).len() > 0 {
                    None
                } else if omitted <= 0 {
                    None
                } else {
                    Some(indent_fold_text(trim_end(head), leading_ws(ls[0]), omitted as nat, l, keep, last, eol))
                }
            },
            _ => None,
        },
    }
}

/// The fold at a body node spanning bytes `bs..be` of a symbol spanning
/// `s0..s1`; none when the body does not lie strictly inside the symbol or
/// there is nothing to fold.
pub open spec fn fold_body(b: Seq<u8>, s0: int, s1: int, bs: int, be: int, l: Lang, eol: Seq<char>) -> Option<Seq<char>> {
    if bs <= s0 || be > s1 || bs >= be {
        None
    } else if keeps_brace_closers(l) && (b[bs] == 123u8 || (span_text(b, bs, be) matches Some(t)
        && trim_start(first_line(t)).len() > 0 && trim_start(first_line(t))[0] == '{')) {
        brace_fold(b, s0, s1, bs, be, l, eol)
    } else {
        indent_fold(b, s0, s1, bs, l, eol)
    }
}

/// The text of `b[lo..hi]`, when it is valid UTF-8.
fn span_chars(b: &[u8], lo: usize, hi: usize) -> (r: Option<Vec<char>>)
    requires
        lo <= hi <= b@.len(),
    ensures
        match r {
            Some(v) => span_text(b@, lo as int, hi as int) == Some(v@),
            None => span_text(b@, lo as int, hi as int) is None,
        },
{
    let v = copy_bytes(b, lo, hi);
    match utf8_string(v.as_slice()) {
        Ok(s) => {
            proof {
                encode_utf8_decode_utf8(s@);
                encode_utf8_valid_utf8(s@);
            }
            Some(chars_of(s.as_str()))
        },
        Err(_) => None,
    }
}

fn lf_from_exec(b: &[u8], from: usize, to: usize) -> (r: usize)
    requires
        from <= to <= b@.len(),
    ensures
        r == lf_from(b@, from as int, to as int),
        from <= r <= to,
    decreases to - from,
{
    if from >= to {
        to
    } else if b[from] == 10u8 {
        from
    } else {
        lf_from_exec(b, from + 1, to)
    }
}

fn last_lf_in_exec(b: &[u8], lo: usize, hi: usize) -> (r: Option<usize>)
    requires
        hi <= b@.len(),
    ensures
        match r {
            Some(i) => last_lf_in(b@, lo as int, hi as int) == Some(i as int) && lo <= i < hi,
            None => last_lf_in(b@, lo as int, hi as int) is None,
        },
    decreases hi,
{
    if hi <= lo {
        None
    } else if b[hi - 1] == 10u8 {
        Some(hi - 1)
    } else {
        last_lf_in_exec(b, lo, hi - 1)
    }
}

fn lead_bytes_exec(b: &[u8], from: usize) -> (r: usize)
    requires
        from <= b@.len(),
    ensures
        r == lead_bytes(b@, from as int),
        from + r <= b@.len(),
    decreases b@.len() - from,
{
    if from < b.len() && (b[from] == 32u8 || b[from] == 9u8) {
        1 + lead_bytes_exec(b, from + 1)
    } else {
        0
    }
}

fn count_pair_exec(s: &[char], a: char, b: char) -> (r: usize)
    ensures
        r == count_pair(s@, 0, a, b),
{
    let n = s.len();
    let mut i: usize = 0;
    let mut c: usize = 0;
    while i < n
        invariant
            n == s@.len(),
            i <= n,
            c <= i,
            c + count_pair(s@, i as int, a, b) == count_pair(s@, 0, a, b),
        decreases n - i,
    {
        if i + 1 < n && s[i] == a && s[i + 1] == b {
            c += 1;
            i += 2;
        } else {
            i += 1;
        }
    }
    c
}

fn count_char_exec(s: &[char], ch: char) -> (r: usize)
    ensures
        r == count_char(s@, 0, ch),
{
    let n = s.len();
    let mut i: usize = 0;
    let mut c: usize = 0;
    while i < n
        invariant
            n == s@.len(),
            i <= n,
            c <= i,
            c + count_char(s@, i as int, ch) == count_char(s@, 0, ch),
        decreases n - i,
    {
        if s[i] == ch {
            c += 1;
        }
        i += 1;
    }
    c
}

/// The first line of `s`.
fn first_line_exec(s: &[char]) -> (r: Vec<char>)
    ensures
        r@ == first_line(s@),
{
    let mut ls = split_lines(s);
    if ls.len() > 0 {
        assert(ls@[0]@ == ls@.map_values(|l: Vec<char>| l@)[0]);
        ls.swap_remove(0)
    } else {
        Vec::new()
    }
}

/// End of `s` without its trailing line feeds.
fn strip_lfs_end(s: &[char], hi: usize) -> (r: usize)
    requires
        hi <= s@.len(),
    ensures
        r <= hi,
        strip_lfs(s@.take(hi as int)) == s@.take(r as int),
    decreases hi,
{
    if hi > 0 && s[hi - 1] == '\n' {
        assert(s@.take(hi as int).drop_last() =~= s@.take(hi - 1));
        strip_lfs_end(s, hi - 1)
    } else {
        hi
    }
}

/// Append the fold marker.
fn push_marker(out: &mut Vec<char>, l: Lang, indent: &[char], omitted: usize)
    ensures
        final(out)@ == old(out)@ + marker(l, indent@, omitted as nat),
{
    push_all(out, indent);
    push_str(out, l.comment_prefix());
    push_str(out, " ... [");
    let d = decimal_chars(omitted);
    push_all(out, d.as_slice());
    push_str(out, " lines omitted]");
}

/// End `out` on a line feed, appending `eol` when it does not.
fn finish_eol(out: &mut Vec<char>, eol: &str)
    ensures
        final(out)@ == end_with_eol(old(out)@, eol@),
{
    let n = out.len();
    if !(n > 0 && out[n - 1] == '\n') {
        push_str(out, eol);
    }
}

/// The line terminator of a compact view of `text` (see [`eol_of`]).
fn eol_exec(text: &[char]) -> (r: &'static str)
    ensures
        r@ == eol_of(text@),
{
    let mut i: usize = 0;
    while i < text.len()
        invariant
            i <= text@.len(),
            forall|j: int| 0 <= j < i && j < text@.len() - 1 ==> !(#[trigger] text@[j] == '\r' && text@[j + 1] == '\n'),
        decreases text@.len() - i,
    {
        if i + 1 < text.len() && text[i] == '\r' && text[i + 1] == '\n' {
            return "\r\n";
        }
        i += 1;
    }
    "\n"
}

/// The leading spaces and tabs of `v`.
fn leading_ws_exec(v: &[char]) -> (r: Vec<char>)
    ensures
        r@ == leading_ws(v@),
{
    let e = lead_end(v, 0, v.len());
    assert(v@.subrange(0, v@.len() as int) =~= v@);
    let r = copy_range(v, 0, e);
    assert(r@ =~= v@.take(e as int));
    r
}

/// The fold of a `{` body.
fn brace_fold_exec(b: &[u8], s0: usize, s1: usize, bs: usize, be: usize, l: Lang, eol: &str) -> (r: Option<Vec<char>>)
    requires
        s0 < bs < be <= s1 <= b@.len(),
    ensures
        match r {
            Some(v) => brace_fold(b@, s0 as int, s1 as int, bs as int, be as int, l, eol@) == Some(v@),
            None => brace_fold(b@, s0 as int, s1 as int, bs as int, be as int, l, eol@) is None,
        },
{
    let opener_nl = lf_from_exec(b, bs, s1);
    let closer_start = match last_lf_in_exec(b, 0, be - 1) {
        Some(i) => i + 1,
        None => s0,
    };
    let lead = lead_bytes_exec(b, s1);
    if opener_nl <= bs {
        // the opener line is empty: nothing follows the opening byte
        return None;
    }
    let header = match span_chars(b, s0, opener_nl) {
        Some(h) => h,
        None => return None,
    };
    let after = match span_chars(b, bs + 1, opener_nl) {
        Some(a) => a,
        None => return None,
    };
    if count_pair_exec(header.as_slice(), '/', '*') > count_pair_exec(header.as_slice(), '*', '/') {
        return None;
    }
    let (x, y) = trim_bounds(after.as_slice(), 0, after.len());
    assert(after@.subrange(0, after@.len() as int) =~= after@);
    let only = x == y || range_starts_with(after.as_slice(), x, y, "//") || (range_starts_with(
        after.as_slice(),
        x,
        y,
        "/*",
    ) && range_ends_with(after.as_slice(), x, y, "*/"));
    if !only {
        return None;
    }
    if closer_start <= opener_nl {
        return None;
    }
    let middle = match span_chars(b, opener_nl + 1, closer_start) {
        Some(m) => m,
        None => return None,
    };
    let closing = match span_chars(b, closer_start, s1) {
        Some(c) => c,
        None => return None,
    };
    let ce = skip_ws_backward(closing.as_slice(), 0, closing.len());
    assert(closing@.subrange(0, closing@.len() as int) =~= closing@);
    let closes = ce > 0 && closing[ce - 1] == '}';
    let tail_end = if closes && lead < b.len() - s1 && b[s1 + lead] == 59u8 {
        s1 + lead + 1
    } else {
        s1
    };
    let tail_raw = match span_chars(b, closer_start, tail_end) {
        Some(t) => t,
        None => return None,
    };
    let te = strip_lfs_end(tail_raw.as_slice(), tail_raw.len());
    assert(tail_raw@.take(tail_raw@.len() as int) =~= tail_raw@);
    let tail = copy_range(tail_raw.as_slice(), 0, te);
    assert(tail@ =~= tail_raw@.take(te as int));
    let tail_first = first_line_exec(tail.as_slice());
    if !closer(tail_first.as_slice()) {
        return None;
    }
    if count_char_exec(tail.as_slice(), '}') > count_char_exec(header.as_slice(), '{') {
        return None;
    }
    let middle_lines = split_lines(middle.as_slice());
    let omitted = middle_lines.len();
    assert(omitted == text_lines(middle@).len());
    if omitted == 0 {
        return None;
    }
    let first = first_line_exec(middle.as_slice());
    let indent = leading_ws_exec(first.as_slice());
    let mut out: Vec<char> = Vec::new();
    push_all(&mut out, header.as_slice());
    push_str(&mut out, "\n");
    push_marker(&mut out, l, indent.as_slice(), omitted);
    push_str(&mut out, eol);
    push_all(&mut out, tail.as_slice());
    finish_eol(&mut out, eol);
    Some(out)
}

/// `v[lo..hi]` ends with `p`.
fn range_ends_with(v: &[char], lo: usize, hi: usize, p: &str) -> (r: bool)
    requires
        lo <= hi <= v@.len(),
    ensures
        r == ends_with(v@.subrange(lo as int, hi as int), p@),
{
    let q = chars_of(p);
    if q.len() > hi - lo {
        return false;
    }
    let start = hi - q.len();
    let b = range_is(v, start, hi, p);
    assert(v@.subrange(lo as int, hi as int).skip(hi - lo - q@.len()) =~= v@.subrange(start as int, hi as int));
    b
}

/// The text of an indentation fold: header, marker (closed for block
/// comment languages), and the kept `end` line.
pub open spec fn indent_fold_text(
    head: Seq<char>,
    indent: Seq<char>,
    omitted: nat,
    l: Lang,
    keep: bool,
    last: Seq<char>,
    eol: Seq<char>,
) -> Seq<char> {
    let close = comment_close(l);
    end_with_eol(
        head + eol + marker(l, indent, omitted) + (if close.len() > 0 {
            " "@ + close
        } else {
            seq![]
        }) + (if keep {
            eol + last
        } else {
            seq![]
        }),
        eol,
    )
}

fn assemble_indent_fold(
    head: &[char],
    indent: &[char],
    omitted: usize,
    l: Lang,
    keep: bool,
    last: &[char],
    eol: &str,
) -> (r: Vec<char>)
    ensures
        r@ == indent_fold_text(head@, indent@, omitted as nat, l, keep, last@, eol@),
{
    let mut out = copy_range(head, 0, head.len());
    assert(out@ =~= head@);
    push_str(&mut out, eol);
    push_marker(&mut out, l, indent, omitted);
    let close = l.comment_close();
    let cl = chars_of(close);
    if cl.len() > 0 {
        push_str(&mut out, " ");
        push_str(&mut out, close);
    }
    if keep {
        push_str(&mut out, eol);
        push_all(&mut out, last);
    }
    let ghost before = out@;
    finish_eol(&mut out, eol);
    proof {
        let close_s = comment_close(l);
        let want = head@ + eol@ + marker(l, indent@, omitted as nat) + (if close_s.len() > 0 {
            " "@ + close_s
        } else {
            seq![]
        }) + (if keep {
            eol@ + last@
        } else {
            seq![]
        });
        assert(before =~= want);
    }
    out
}

/// The fold of an indentation or keyword body.
fn indent_fold_exec(b: &[u8], s0: usize, s1: usize, bs: usize, l: Lang, eol: &str) -> (r: Option<Vec<char>>)
    requires
        s0 < bs <= s1 <= b@.len(),
    ensures
        match r {
            Some(v) => indent_fold(b@, s0 as int, s1 as int, bs as int, l, eol@) == Some(v@),
            None => indent_fold(b@, s0 as int, s1 as int, bs as int, l, eol@) is None,
        },
{
    let nl = match last_lf_in_exec(b, s0, bs) {
        Some(i) => i,
        None => return None,
    };
    let rest = match span_chars(b, nl + 1, bs) {
        Some(x) => x,
        None => return None,
    };
    let head = match span_chars(b, s0, nl) {
        Some(x) => x,
        None => return None,
    };
    let body = match span_chars(b, bs, s1) {
        Some(x) => x,
        None => return None,
    };
    let be = strip_lfs_end(body.as_slice(), body.len());
    assert(body@.take(body@.len() as int) =~= body@);
    let stripped = copy_range(body.as_slice(), 0, be);
    assert(stripped@ =~= body@.take(be as int));
    let ls = split_lines(stripped.as_slice());
    let ghost lv = ls@.map_values(|x: Vec<char>| x@);
    let n = ls.len();
    let last: Vec<char> = if n > 0 {
        assert(lv.last() == ls@[n - 1]@);
        copy_range(ls[n - 1].as_slice(), 0, ls[n - 1].len())
    } else {
        Vec::new()
    };
    assert(last@ =~= (if lv.len() > 0 { lv.last() } else { seq![] }));
    let (x, y) = trim_bounds(last.as_slice(), 0, last.len());
    assert(last@.subrange(0, last@.len() as int) =~= last@);
    let lt = copy_range(last.as_slice(), x, y);
    let keep = end_closer(lt.as_slice());
    let (rx, ry) = trim_bounds(rest.as_slice(), 0, rest.len());
    assert(rest@.subrange(0, rest@.len() as int) =~= rest@);
    if rx < ry {
        return None;
    }
    let k: usize = if keep {
        1
    } else {
        0
    };
    if n <= k {
        return None;
    }
    let omitted = n - k;
    let he = skip_ws_backward(head.as_slice(), 0, head.len());
    assert(head@.subrange(0, head@.len() as int) =~= head@);
    let ht = copy_range(head.as_slice(), 0, he);
    assert(lv[0] == ls@[0]@);
    let indent = leading_ws_exec(ls[0].as_slice());
    let out = assemble_indent_fold(ht.as_slice(), indent.as_slice(), omitted, l, keep, last.as_slice(), eol);
    Some(out)
}

/// The fold at a body node spanning bytes `bs..be`.
fn fold_body_exec(b: &[u8], s0: usize, s1: usize, bs: usize, be: usize, l: Lang, eol: &str) -> (r: Option<Vec<char>>)
    requires
        s0 <= s1 <= b@.len(),
    ensures
        match r {
            Some(v) => fold_body(b@, s0 as int, s1 as int, bs as int, be as int, l, eol@) == Some(v@),
            None => fold_body(b@, s0 as int, s1 as int, bs as int, be as int, l, eol@) is None,
        },
{
    if bs <= s0 || be > s1 || bs >= be {
        return None;
    }
    let brace = if l.keeps_brace_closers() {
        if b[bs] == 123u8 {
            true
        } else {
            match span_chars(b, bs, be) {
                Some(t) => {
                    let f = first_line_exec(t.as_slice());
                    let a = skip_ws_forward(f.as_slice(), 0, f.len());
                    assert(f@.subrange(0, f@.len() as int) =~= f@);
                    a < f.len() && f[a] == '{'
                },
                None => false,
            }
        }
    } else {
        false
    };
    if brace {
        brace_fold_exec(b, s0, s1, bs, be, l, eol)
    } else {
        indent_fold_exec(b, s0, s1, bs, l, eol)
    }
}

// ---------------------------------------------------------------------------
// The body node and the compact view.

/// The definition a node stands for: a decorated definition's
/// `definition` field, else the node itself.
pub open spec fn unwrapped(t: SyntaxTree, n: usize) -> usize {
    if contains_seq(t.node(n).kind@, "decorated"@) {
        match t.field_child(n, "definition"@) {
            Some(d) => d,
            None => n,
        }
    } else {
        n
    }
}

/// The first position in `i..hi` whose kind is one of the language's body
/// kinds: pre-order, so a node comes before its descendants.
pub open spec fn first_body_from(t: SyntaxTree, l: Lang, i: usize, hi: usize) -> Option<usize>
    decreases hi - i,
{
    if i >= hi || i >= t.len() {
        None
    } else if is_body_kind(l, t.node(i).kind@) {
        Some(i)
    } else {
        first_body_from(t, l, (i + 1) as usize, hi)
    }
}

/// The foldable body node of the definition at `n`: the `body` field of
/// the unwrapped definition, else the first descendant of a body kind.
pub open spec fn body_node(t: SyntaxTree, l: Lang, n: usize) -> Option<usize> {
    if !has_body_kinds(l) {
        None
    } else {
        match t.field_child(unwrapped(t, n), "body"@) {
            Some(b) => Some(b),
            None => if n < usize::MAX {
                first_body_from(t, l, (n + 1) as usize, t.end(n))
            } else {
                None
            },
        }
    }
}

/// The 1-based line where a python definition's body begins, anchored in
/// the tree: the line after the body's first row, or two after when a stub
/// body shares the signature's line.
pub open spec fn body_start_line(t: SyntaxTree, l: Lang, n: usize) -> Option<nat> {
    if l != Lang::Python {
        None
    } else {
        let def = if t.kind_is(n, "decorated_definition"@) {
            t.field_child(n, "definition"@)
        } else {
            Some(n)
        };
        match def {
            None => None,
            Some(d) => match t.field_child(d, "body"@) {
                None => None,
                Some(body) => {
                    let row = t.node(body).start_row;
                    let shares = (t.field_child(d, "parameters"@) matches Some(p) && t.node(p).end_row == row)
                        || (t.field_child(d, "return_type"@) matches Some(r) && t.node(r).end_row == row);
                    if shares && row == t.node(body).end_row {
                        Some((row + 2) as nat)
                    } else {
                        Some((row + 1) as nat)
                    }
                },
            },
        }
    }
}

/// Line feeds in `b[lo..hi]`.
pub open spec fn count_lf(b: Seq<u8>, lo: int, hi: int) -> nat
    decreases hi - lo,
{
    if hi <= lo {
        0
    } else {
        count_lf(b, lo, hi - 1) + (if b[hi - 1] == 10u8 {
            1nat
        } else {
            0nat
        })
    }
}

/// The previous line ends inside a comment span that runs past it.
pub open spec fn splits_comment(prev: Seq<char>, prev_abs: int, cs: Seq<(usize, usize)>) -> bool {
    let e = prev_abs + byte_len(prev);
    exists|j: int| 0 <= j < cs.len() && (#[trigger] cs[j]).0 < e && cs[j].1 > e
}

/// Occurrences of `c` in the lines.
pub open spec fn count_in_lines(ls: Seq<Seq<char>>, c: char) -> nat
    decreases ls.len(),
{
    if ls.len() == 0 {
        0
    } else {
        count_in_lines(ls.drop_last(), c) + count_char(ls.last(), 0, c)
    }
}

/// A `)` or `]` closer finds its opener in the header.
pub open spec fn closer_balances(closer: Seq<char>, header: Seq<Seq<char>>) -> bool {
    let t = trim(closer);
    if t.len() > 0 && t[0] == ')' {
        count_in_lines(header, '(') > count_in_lines(header, ')')
    } else if t.len() > 0 && t[0] == ']' {
        count_in_lines(header, '[') > count_in_lines(header, ']')
    } else {
        true
    }
}

/// The boundary after line `f - 1` must not be folded.
pub open spec fn holds_together(
    ls: Seq<Seq<char>>,
    base: int,
    cs: Seq<(usize, usize)>,
    l: Lang,
    in_preproc: bool,
    f: int,
) -> bool {
    boundary_continues(
        ls[f - 1],
        ls[f],
        state_after(ls, base, cs, f - 1) != StrDelim::Outside,
        balance_after(ls, base, cs, f - 1) > 0,
        l,
        in_preproc,
    ) || splits_comment(ls[f - 1], base + line_off(ls, f - 1), cs)
}

/// The fold point slid past boundaries that must stay together.
pub open spec fn slide(
    ls: Seq<Seq<char>>,
    base: int,
    cs: Seq<(usize, usize)>,
    l: Lang,
    in_preproc: bool,
    f: int,
) -> int
    decreases ls.len() - f,
{
    if 0 < f < ls.len() && holds_together(ls, base, cs, l, in_preproc, f) {
        slide(ls, base, cs, l, in_preproc, f + 1)
    } else {
        f
    }
}

/// Each line followed by the line terminator `eol`.
pub open spec fn lines_eol(ls: Seq<Seq<char>>, eol: Seq<char>) -> Seq<char>
    decreases ls.len(),
{
    if ls.len() == 0 {
        seq![]
    } else {
        lines_eol(ls.drop_last(), eol) + ls.last() + eol
    }
}

/// A macro definition whose name is not on its first line.
pub open spec fn bare_define(first: Seq<char>) -> bool {
    let r0 = trim_start(strip_hashes(trim_start(first)));
    let r1 = if starts_with(r0, "define"@) {
        r0.skip(6)
    } else {
        r0
    };
    trim_spaces_tabs_backslashes(r1).len() == 0
}

/// `s` without its leading `#` run.
pub open spec fn strip_hashes(s: Seq<char>) -> Seq<char>
    decreases s.len(),
{
    if s.len() > 0 && s[0] == '#' {
        strip_hashes(s.drop_first())
    } else {
        s
    }
}

/// A space, tab or backslash.
pub open spec fn is_sp_tab_bs(c: char) -> bool {
    c == ' ' || c == '\t' || c == '\\'
}

/// `s` holds only spaces, tabs and backslashes, once both ends are trimmed
/// of them: what remains.
pub open spec fn trim_spaces_tabs_backslashes(s: Seq<char>) -> Seq<char>
    decreases s.len(),
{
    if s.len() > 0 && is_sp_tab_bs(s[0]) {
        trim_spaces_tabs_backslashes(s.drop_first())
    } else if s.len() > 0 && is_sp_tab_bs(s.last()) {
        trim_spaces_tabs_backslashes(s.drop_last())
    } else {
        s
    }
}

/// Some line starts with `#`.
pub open spec fn any_hash_line(ls: Seq<Seq<char>>) -> bool {
    exists|i: int| 0 <= i < ls.len() && hash_line(#[trigger] ls[i])
}

/// A line that starts with `#` once its leading whitespace is trimmed.
pub open spec fn hash_line(s: Seq<char>) -> bool {
    trim_start(s).len() > 0 && trim_start(s)[0] == '#'
}

/// The line-heuristic fold of a symbol without a body node: `text` is the
/// symbol's text, starting at byte `s0` of the source `b`, `ls` its lines,
/// `cs` its comment spans, `ast_line` the body's first line when the tree
/// anchors it.
pub open spec fn line_fold(
    b: Seq<u8>,
    s0: int,
    text: Seq<char>,
    ls: Seq<Seq<char>>,
    cs: Seq<(usize, usize)>,
    l: Lang,
    ast_line: Option<nat>,
    eol: Seq<char>,
) -> Seq<char> {
    let n = ls.len() as int;
    let range_start_line = count_lf(b, 0, s0) + 1;
    let ast_fold_at: Option<int> = match ast_line {
        Some(bl) => Some(if bl >= range_start_line {
            bl - range_start_line
        } else {
            0
        }),
        None => None,
    };
    let start: Option<int> = match ast_fold_at {
        Some(idx) => Some(if idx < 1 {
            1
        } else if idx > n {
            n
        } else {
            idx
        }),
        None => if has_preprocessor(l) && hash_line(ls[0]) && !bare_define(ls[0]) {
            Some(1)
        } else {
            None
        },
    };
    match start {
        None => text,
        Some(f0) => {
            let in_preproc = hash_line(ls[0]);
            let f = slide(ls, s0, cs, l, in_preproc, f0);
            let rest = ls.skip(f);
            let last = rest.last();
            let keep = is_closer(last) && (keeps_brace_closers(l) || is_end_closer(last)) && !in_preproc
                && closer_balances(last, ls.take(f));
            let omitted: int = rest.len() - (if keep {
                1int
            } else {
                0int
            });
            if rest.len() == 0 {
                text
            } else if comment_prefix(l) != "#"@ && any_hash_line(rest) {
                text
            } else if omitted == 0 {
                text
            } else {
                let close = comment_close(l);
                end_with_eol(
                    lines_eol(ls.take(f), eol) + marker(l, leading_ws(rest[0]), omitted as nat) + (if close.len() > 0 {
                        " "@ + close
                    } else {
                        seq![]
                    }) + (if keep {
                        eol + last
                    } else {
                        seq![]
                    }),
                    eol,
                )
            }
        },
    }
}

/// The compact view of the symbol spanning bytes `s0..s1` of the source
/// `b`, given the node `node` that the tree finds for that span: its
/// signature when the span is not valid UTF-8; a text of one line as it is;
/// the fold at the body node when there is one (the text as it is when
/// there is nothing to fold there); else the line-heuristic fold.
pub open spec fn compact_view(
    b: Seq<u8>,
    t: SyntaxTree,
    l: Lang,
    s0: int,
    s1: int,
    signature: Seq<char>,
    node: Option<usize>,
) -> Seq<char> {
    match span_text(b, s0, s1) {
        None => signature,
        Some(text) => {
            let ls = text_lines(text);
            let n: Option<usize> = match node {
                Some(i) => if i < t.len() {
                    Some(i)
                } else {
                    None
                },
                None => None,
            };
            let body = match n {
                Some(i) => body_node(t, l, i),
                None => None,
            };
            if ls.len() <= 1 {
                text
            } else {
                match body {
                    Some(bn) => match fold_body(
                        b,
                        s0,
                        s1,
                        t.node(bn).start_byte as int,
                        t.node(bn).end_byte as int,
                        l,
                        eol_of(text),
                    ) {
                        Some(x) => x,
                        None => text,
                    },
                    None => line_fold(
                        b,
                        s0,
                        text,
                        ls,
                        comment_spans(t, n),
                        l,
                        match n {
                            Some(i) => body_start_line(t, l, i),
                            None => None,
                        },
                        eol_of(text),
                    ),
                }
            }
        }
    }
}

proof fn lemma_count_char_len(s: Seq<char>, i: int, c: char)
    requires
        0 <= i <= s.len(),
    ensures
        count_char(s, i, c) <= s.len() - i,
    decreases s.len() - i,
{
    if i < s.len() {
        lemma_count_char_len(s, i + 1, c);
    }
}

proof fn lemma_count_in_lines_bound(ls: Seq<Seq<char>>, i: int, c: char)
    requires
        0 <= i <= ls.len(),
    ensures
        count_in_lines(ls.take(i), c) <= line_off(ls, i),
    decreases i,
{
    if i > 0 {
        lemma_count_in_lines_bound(ls, i - 1, c);
        assert(ls.take(i).drop_last() =~= ls.take(i - 1));
        lemma_count_char_len(ls[i - 1], 0, c);
        lemma_byte_len_bound(ls[i - 1]);
        assert(line_off(ls, i) == line_off(ls, i - 1) + byte_len(ls[i - 1]) + 1);
    }
}

/// Occurrences of `c` in the first `f` lines.
fn count_in_lines_exec(ls: &Vec<Vec<char>>, f: usize, c: char, Ghost(bound): Ghost<nat>) -> (r: u128)
    requires
        f <= ls@.len(),
        line_off(ls@.map_values(|l: Vec<char>| l@), f as int) <= bound,
        bound < 0x1_0000_0000_0000_0000_0000,
    ensures
        r == count_in_lines(ls@.map_values(|l: Vec<char>| l@).take(f as int), c),
{
    let ghost lv = ls@.map_values(|l: Vec<char>| l@);
    let mut total: u128 = 0;
    let mut i: usize = 0;
    while i < f
        invariant
            f <= ls@.len(),
            lv == ls@.map_values(|l: Vec<char>| l@),
            line_off(lv, f as int) <= bound < 0x1_0000_0000_0000_0000_0000,
            i <= f,
            total == count_in_lines(lv.take(i as int), c),
        decreases f - i,
    {
        proof {
            lemma_count_in_lines_bound(lv, i + 1, c);
            lemma_line_off_mono(lv, i + 1, f as int);
            assert(lv.take(i + 1).drop_last() =~= lv.take(i as int));
            assert(lv[i as int] == ls@[i as int]@);
        }
        total = total + count_char_exec(ls[i].as_slice(), c) as u128;
        i += 1;
    }
    total
}

proof fn lemma_line_off_mono(ls: Seq<Seq<char>>, i: int, j: int)
    requires
        0 <= i <= j <= ls.len(),
    ensures
        line_off(ls, i) <= line_off(ls, j),
    decreases j - i,
{
    if i < j {
        lemma_line_off_mono(ls, i, j - 1);
        assert(line_off(ls, j) == line_off(ls, j - 1) + byte_len(ls[j - 1]) + 1);
    }
}

/// A `)` or `]` closer finds its opener in the first `f` lines.
fn closer_balances_exec(last: &[char], ls: &Vec<Vec<char>>, f: usize, Ghost(bound): Ghost<nat>) -> (r: bool)
    requires
        f <= ls@.len(),
        line_off(ls@.map_values(|l: Vec<char>| l@), f as int) <= bound,
        bound < 0x1_0000_0000_0000_0000_0000,
    ensures
        r == closer_balances(last@, ls@.map_values(|l: Vec<char>| l@).take(f as int)),
{
    let (a, e) = trim_bounds(last, 0, last.len());
    assert(last@.subrange(0, last@.len() as int) =~= last@);
    if a < e && last[a] == ')' {
        count_in_lines_exec(ls, f, '(', Ghost(bound)) > count_in_lines_exec(ls, f, ')', Ghost(bound))
    } else if a < e && last[a] == ']' {
        count_in_lines_exec(ls, f, '[', Ghost(bound)) > count_in_lines_exec(ls, f, ']', Ghost(bound))
    } else {
        true
    }
}

/// The previous line ends inside a comment span that runs past it.
fn splits_comment_exec(prev: &[char], prev_abs: u128, cs: &[(usize, usize)]) -> (r: bool)
    requires
        prev_abs + 4 * prev@.len() < u128::MAX,
    ensures
        r == splits_comment(prev@, prev_abs as int, cs@),
{
    proof {
        lemma_byte_len_bound(prev@);
        assert(prev@.subrange(0, prev@.len() as int) =~= prev@);
    }
    let e = prev_abs + chars_width(prev, 0, prev.len());
    let mut j: usize = 0;
    while j < cs.len()
        invariant
            j <= cs@.len(),
            e == prev_abs + byte_len(prev@),
            forall|m: int| 0 <= m < j ==> !((#[trigger] cs@[m]).0 < e && cs@[m].1 > e),
        decreases cs@.len() - j,
    {
        if (cs[j].0 as u128) < e && (cs[j].1 as u128) > e {
            return true;
        }
        j += 1;
    }
    false
}

/// A line starting with `#` once trimmed.
fn hash_line_exec(v: &[char]) -> (r: bool)
    ensures
        r == hash_line(v@),
{
    let a = skip_ws_forward(v, 0, v.len());
    assert(v@.subrange(0, v@.len() as int) =~= v@);
    a < v.len() && v[a] == '#'
}

/// A macro definition whose name is not on its first line.
fn bare_define_exec(v: &[char]) -> (r: bool)
    ensures
        r == bare_define(v@),
{
    let n = v.len();
    assert(v@.subrange(0, n as int) =~= v@);
    let a = skip_ws_forward(v, 0, n);
    let mut h = a;
    while h < n && v[h] == '#'
        invariant
            a <= h <= n == v@.len(),
            strip_hashes(v@.subrange(a as int, n as int)) == strip_hashes(v@.subrange(h as int, n as int)),
        decreases n - h,
    {
        assert(v@.subrange(h as int, n as int).drop_first() =~= v@.subrange(h + 1, n as int));
        h += 1;
    }
    assert(strip_hashes(v@.subrange(h as int, n as int)) == v@.subrange(h as int, n as int));
    let c = skip_ws_forward(v, h, n);
    let d = if range_starts_with(v, c, n, "define") {
        proof {
            reveal_strlit("define");
        }
        assert(v@.subrange(c as int, n as int).skip(6) =~= v@.subrange(c + 6, n as int));
        c + 6
    } else {
        c
    };
    // What is left holds only spaces, tabs and backslashes.
    let mut k = d;
    while k < n && (v[k] == ' ' || v[k] == '\t' || v[k] == '\\')
        invariant
            d <= k <= n == v@.len(),
            forall|m: int| d <= m < k ==> is_sp_tab_bs(#[trigger] v@[m]),
        decreases n - k,
    {
        k += 1;
    }
    proof {
        lemma_trim_sp_tab_bs(v@.subrange(d as int, n as int), (k - d) as int);
    }
    k == n
}

/// What remains after trimming spaces, tabs and backslashes is empty
/// exactly when nothing else occurs.
proof fn lemma_trim_sp_tab_bs(s: Seq<char>, k: int)
    requires
        0 <= k <= s.len(),
        forall|m: int| 0 <= m < k ==> is_sp_tab_bs(#[trigger] s[m]),
        k < s.len() ==> !is_sp_tab_bs(s[k]),
    ensures
        (trim_spaces_tabs_backslashes(s).len() == 0) == (k == s.len()),
    decreases s.len(),
{
    if s.len() > 0 && is_sp_tab_bs(s[0]) {
        let t = s.drop_first();
        assert forall|m: int| 0 <= m < k - 1 implies is_sp_tab_bs(#[trigger] t[m]) by {
            assert(t[m] == s[m + 1]);
        }
        lemma_trim_sp_tab_bs(t, k - 1);
    } else if s.len() > 0 {
        assert(k == 0);
        lemma_trim_keeps_first(s);
    }
}

/// Trimming from the back keeps a first character that is not trimmed.
proof fn lemma_trim_keeps_first(s: Seq<char>)
    requires
        s.len() > 0,
        !is_sp_tab_bs(s[0]),
    ensures
        trim_spaces_tabs_backslashes(s).len() > 0,
    decreases s.len(),
{
    if is_sp_tab_bs(s.last()) {
        assert(s.len() > 1);
        assert(s.drop_last()[0] == s[0]);
        lemma_trim_keeps_first(s.drop_last());
    }
}

/// Each of the first `f` lines followed by the line terminator `eol`.
fn push_lines_eol(out: &mut Vec<char>, ls: &Vec<Vec<char>>, f: usize, eol: &str)
    requires
        f <= ls@.len(),
    ensures
        final(out)@ == old(out)@ + lines_eol(ls@.map_values(|l: Vec<char>| l@).take(f as int), eol@),
{
    let ghost lv = ls@.map_values(|l: Vec<char>| l@);
    let ghost start = out@;
    let mut i: usize = 0;
    assert(lines_eol(lv.take(0), eol@) =~= Seq::<char>::empty());
    assert(start + Seq::<char>::empty() =~= start);
    while i < f
        invariant
            f <= ls@.len(),
            lv == ls@.map_values(|l: Vec<char>| l@),
            i <= f,
            out@ == start + lines_eol(lv.take(i as int), eol@),
        decreases f - i,
    {
        push_all(out, ls[i].as_slice());
        push_str(out, eol);
        proof {
            assert(lv.take(i + 1).drop_last() =~= lv.take(i as int));
            assert(lv.take(i + 1).last() == ls@[i as int]@);
            assert(out@ =~= start + lines_eol(lv.take(i + 1), eol@));
        }
        i += 1;
    }
}

/// Per line: whether a string is open after it, whether a bracket is,
/// and its byte offset in the text.
fn scan_lines(text: &[char], ls: &Vec<Vec<char>>, s0: usize, cs: &[(usize, usize)]) -> (r: (Vec<bool>, Vec<bool>, Vec<u128>))
    requires
        ls@.map_values(|x: Vec<char>| x@) == text_lines(text@),
    ensures
        r.0@.len() == ls@.len(),
        r.1@.len() == ls@.len(),
        r.2@.len() == ls@.len(),
        forall|j: int| 0 <= j < ls@.len() ==> #[trigger] r.0@[j] == (state_after(ls@.map_values(|x: Vec<char>| x@), s0 as int, cs@, j) != StrDelim::Outside),
        forall|j: int| 0 <= j < ls@.len() ==> #[trigger] r.1@[j] == (balance_after(ls@.map_values(|x: Vec<char>| x@), s0 as int, cs@, j) > 0),
        forall|j: int| 0 <= j < ls@.len() ==> #[trigger] r.2@[j] == line_off(ls@.map_values(|x: Vec<char>| x@), j),
        forall|j: int| 0 <= j < ls@.len() ==> #[trigger] r.2@[j] <= 4 * text@.len() + 1,
{
    let ghost lv = ls@.map_values(|x: Vec<char>| x@);
    proof {
        lemma_byte_len_bound(text@);
    }
    let tl = text.len();
    let n = ls.len();
    let mut in_str: Vec<bool> = Vec::new();
    let mut open: Vec<bool> = Vec::new();
    let mut offs: Vec<u128> = Vec::new();
    let mut state = StrDelim::Outside;
    let mut bal: i128 = 0;
    let mut off: u128 = 0;
    let mut i: usize = 0;
    while i < n
        invariant
            n == ls@.len(),
            lv == ls@.map_values(|x: Vec<char>| x@),
            lv == text_lines(text@),
            byte_len(text@) <= 4 * text@.len(),
            text@.len() == tl,
            i <= n,
            off == line_off(lv, i as int),
            state == state_after(lv, s0 as int, cs@, i - 1),
            bal == balance_after(lv, s0 as int, cs@, i - 1),
            in_str@.len() == i,
            open@.len() == i,
            offs@.len() == i,
            forall|j: int| 0 <= j < i ==> #[trigger] in_str@[j] == (state_after(lv, s0 as int, cs@, j) != StrDelim::Outside),
            forall|j: int| 0 <= j < i ==> #[trigger] open@[j] == (balance_after(lv, s0 as int, cs@, j) > 0),
            forall|j: int| 0 <= j < i ==> #[trigger] offs@[j] == line_off(lv, j),
            forall|j: int| 0 <= j < i ==> #[trigger] offs@[j] <= 4 * tl + 1,
        decreases n - i,
    {
        proof {
            lemma_line_off_bound(text@, i as int);
            lemma_line_off_bound(text@, i + 1);
            lemma_byte_len_bound(lv[i as int]);
            lemma_line_code_len(lv, s0 as int, cs@, i as int);
            lemma_balance_bound(lv, s0 as int, cs@, i as int);
            assert(lv[i as int] == ls@[i as int]@);
            assert(line_off(lv, i + 1) == line_off(lv, i as int) + byte_len(lv[i as int]) + 1);
        }
        let line = ls[i].as_slice();
        let ll = line.len();
        let abs: u128 = s0 as u128 + off;
        let code = line_code_chars(line, abs, cs);
        let prev = state;
        state = str_state_exec(code.as_slice(), prev);
        let delta = paren_delta_exec(code.as_slice());
        if !(i > 0 && prev != StrDelim::Outside) {
            bal = bal + delta;
        }
        in_str.push(state != StrDelim::Outside);
        open.push(bal > 0);
        offs.push(off);
        assert(line@.subrange(0, line@.len() as int) =~= line@);
        off = off + chars_width(line, 0, line.len()) + 1;
        i += 1;
    }
    (in_str, open, offs)
}

/// The fold point slid from `start` past boundaries that must stay together.
fn slide_exec(
    text: &[char],
    ls: &Vec<Vec<char>>,
    s0: usize,
    cs: &[(usize, usize)],
    l: Lang,
    in_preproc: bool,
    start: usize,
    in_str: &Vec<bool>,
    open: &Vec<bool>,
    offs: &Vec<u128>,
) -> (f: usize)
    requires
        ls@.map_values(|x: Vec<char>| x@) == text_lines(text@),
        1 <= start <= ls@.len(),
        in_str@.len() == ls@.len(),
        open@.len() == ls@.len(),
        offs@.len() == ls@.len(),
        forall|j: int| 0 <= j < ls@.len() ==> #[trigger] in_str@[j] == (state_after(ls@.map_values(|x: Vec<char>| x@), s0 as int, cs@, j) != StrDelim::Outside),
        forall|j: int| 0 <= j < ls@.len() ==> #[trigger] open@[j] == (balance_after(ls@.map_values(|x: Vec<char>| x@), s0 as int, cs@, j) > 0),
        forall|j: int| 0 <= j < ls@.len() ==> #[trigger] offs@[j] == line_off(ls@.map_values(|x: Vec<char>| x@), j),
        forall|j: int| 0 <= j < ls@.len() ==> #[trigger] offs@[j] <= 4 * text@.len() + 1,
    ensures
        start <= f <= ls@.len(),
        f == slide(ls@.map_values(|x: Vec<char>| x@), s0 as int, cs@, l, in_preproc, start as int),
{
    let ghost lv = ls@.map_values(|x: Vec<char>| x@);
    let tl = text.len();
    let n = ls.len();
    assert forall|j: int| 0 <= j < n implies (#[trigger] ls@[j])@.len() <= usize::MAX by {
        assert(ls@[j]@.len() == ls@[j].len());
    }
    let mut f = start;
    while f < n && holds_exec(text, ls, s0, cs, l, in_preproc, f, in_str, open, offs)
        invariant
            n == ls@.len(),
            lv == ls@.map_values(|x: Vec<char>| x@),
            ls@.map_values(|x: Vec<char>| x@) == text_lines(text@),
            text@.len() == tl,
            1 <= start <= f <= n,
            in_str@.len() == n,
            open@.len() == n,
            offs@.len() == n,
            forall|j: int| 0 <= j < n ==> #[trigger] in_str@[j] == (state_after(lv, s0 as int, cs@, j) != StrDelim::Outside),
            forall|j: int| 0 <= j < n ==> #[trigger] open@[j] == (balance_after(lv, s0 as int, cs@, j) > 0),
            forall|j: int| 0 <= j < n ==> #[trigger] offs@[j] == line_off(lv, j),
            forall|j: int| 0 <= j < n ==> #[trigger] offs@[j] <= 4 * tl + 1,
            slide(lv, s0 as int, cs@, l, in_preproc, f as int) == slide(lv, s0 as int, cs@, l, in_preproc, start as int),
        decreases n - f,
    {
        f += 1;
    }
    f
}

/// The boundary after line `f - 1` must not be folded.
fn holds_exec(
    text: &[char],
    ls: &Vec<Vec<char>>,
    s0: usize,
    cs: &[(usize, usize)],
    l: Lang,
    in_preproc: bool,
    f: usize,
    in_str: &Vec<bool>,
    open: &Vec<bool>,
    offs: &Vec<u128>,
) -> (r: bool)
    requires
        1 <= f < ls@.len(),
        in_str@.len() == ls@.len(),
        open@.len() == ls@.len(),
        offs@.len() == ls@.len(),
        forall|j: int| 0 <= j < ls@.len() ==> #[trigger] in_str@[j] == (state_after(ls@.map_values(|x: Vec<char>| x@), s0 as int, cs@, j) != StrDelim::Outside),
        forall|j: int| 0 <= j < ls@.len() ==> #[trigger] open@[j] == (balance_after(ls@.map_values(|x: Vec<char>| x@), s0 as int, cs@, j) > 0),
        forall|j: int| 0 <= j < ls@.len() ==> #[trigger] offs@[j] == line_off(ls@.map_values(|x: Vec<char>| x@), j),
        forall|j: int| 0 <= j < ls@.len() ==> #[trigger] offs@[j] <= 4 * text@.len() + 1,
    ensures
        r == holds_together(ls@.map_values(|x: Vec<char>| x@), s0 as int, cs@, l, in_preproc, f as int),
{
    let ghost lv = ls@.map_values(|x: Vec<char>| x@);
    let tl = text.len();
    let pl = ls[f - 1].len();
    assert(lv[f - 1] == ls@[f - 1]@);
    assert(lv[f as int] == ls@[f as int]@);
    let c = continues_exec(ls[f - 1].as_slice(), ls[f].as_slice(), in_str[f - 1], open[f - 1], l, in_preproc);
    c || splits_comment_exec(ls[f - 1].as_slice(), s0 as u128 + offs[f - 1], cs)
}

/// The lines as character sequences.
pub open spec fn lines_view(ls: Seq<Vec<char>>) -> Seq<Seq<char>> {
    ls.map_values(|x: Vec<char>| x@)
}

/// Some line from `f` on starts with `#`.
fn hash_from(ls: &Vec<Vec<char>>, f: usize) -> (r: bool)
    requires
        f <= ls@.len(),
    ensures
        r == any_hash_line(lines_view(ls@).skip(f as int)),
{
    let ghost rest = lines_view(ls@).skip(f as int);
    let n = ls.len();
    let mut j = f;
    while j < n
        invariant
            f <= j <= n == ls@.len(),
            rest == lines_view(ls@).skip(f as int),
            forall|m: int| 0 <= m < j - f ==> !hash_line(#[trigger] rest[m]),
        decreases n - j,
    {
        assert(rest[j - f] == ls@[j as int]@);
        if hash_line_exec(ls[j].as_slice()) {
            assert(hash_line(rest[j - f]));
            return true;
        }
        j += 1;
    }
    false
}

/// The line-heuristic fold.
fn line_fold_exec(
    b: &[u8],
    s0: usize,
    text: &[char],
    ls: &Vec<Vec<char>>,
    cs: &[(usize, usize)],
    l: Lang,
    ast_line: Option<u128>,
    eol: &str,
) -> (r: Vec<char>)
    requires
        s0 <= b@.len(),
        ls@.map_values(|x: Vec<char>| x@) == text_lines(text@),
        ls@.len() >= 2,
    ensures
        r@ == line_fold(
            b@,
            s0 as int,
            text@,
            ls@.map_values(|x: Vec<char>| x@),
            cs@,
            l,
            match ast_line {
                Some(x) => Some(x as nat),
                None => None,
            },
            eol@,
        ),
{
    let ghost lv = ls@.map_values(|x: Vec<char>| x@);
    assert(text@.subrange(0, text@.len() as int) =~= text@);
    let n = ls.len();
    // 1-based line of the symbol's first byte.
    let mut lf: usize = 0;
    let mut k: usize = 0;
    while k < s0
        invariant
            s0 <= b@.len(),
            k <= s0,
            lf <= k,
            lf == count_lf(b@, 0, k as int),
        decreases s0 - k,
    {
        if b[k] == 10u8 {
            lf += 1;
        }
        k += 1;
    }
    let range_start_line: u128 = lf as u128 + 1;
    let in_preproc = hash_line_exec(ls[0].as_slice());
    assert(lv[0] == ls@[0]@);
    let start: usize = match ast_line {
        Some(bl) => {
            let idx: u128 = if bl >= range_start_line {
                bl - range_start_line
            } else {
                0
            };
            if idx < 1 {
                1
            } else if idx > n as u128 {
                n
            } else {
                idx as usize
            }
        },
        None => {
            if l.has_preprocessor() && in_preproc && !bare_define_exec(ls[0].as_slice()) {
                1
            } else {
                return copy_range(text, 0, text.len());
            }
        },
    };
    let ghost al: Option<nat> = match ast_line {
        Some(x) => Some(x as nat),
        None => None,
    };
    let ghost rsl = count_lf(b@, 0, s0 as int) + 1;
    assert(range_start_line == rsl);
    let ghost spec_start: Option<int> = match al {
        Some(bl) => {
            let idx: int = if bl >= rsl {
                bl - rsl
            } else {
                0
            };
            Some(if idx < 1 {
                1
            } else if idx > n {
                n as int
            } else {
                idx
            })
        },
        None => if has_preprocessor(l) && hash_line(lv[0]) && !bare_define(lv[0]) {
            Some(1)
        } else {
            None
        },
    };
    assert(spec_start == Some(start as int));
    let (in_str, open, offs) = scan_lines(text, ls, s0, cs);
    let f = slide_exec(text, ls, s0, cs, l, in_preproc, start, &in_str, &open, &offs);
    if f >= n {
        assert(lv.skip(f as int).len() == 0);
        return copy_range(text, 0, text.len());
    }
    let pre = chars_of(l.comment_prefix());
    let hash_prefix = pre.len() == 1 && pre[0] == '#';
    proof {
        reveal_strlit("#");
        if hash_prefix {
            assert(pre@ =~= "#"@);
        } else {
            assert(comment_prefix(l) != "#"@);
        }
    }
    assert(lines_view(ls@) =~= lv);
    assert(in_preproc == hash_line(lv[0]));
    assert(f == slide(lv, s0 as int, cs@, l, hash_line(lv[0]), start as int));
    if !hash_prefix && hash_from(ls, f) {
        return copy_range(text, 0, text.len());
    }
    let r = finish_line_fold(text, ls, l, f, in_preproc, eol);
    assert(in_preproc == hash_line(lv[0]));
    assert(f == slide(lv, s0 as int, cs@, l, hash_line(lv[0]), start as int));
    r
}

/// The fold text once the fold point `f` is known: the header lines, the
/// marker, and the closer when kept.
fn finish_line_fold(text: &[char], ls: &Vec<Vec<char>>, l: Lang, f: usize, in_preproc: bool, eol: &str) -> (r: Vec<char>)
    requires
        ls@.map_values(|x: Vec<char>| x@) == text_lines(text@),
        1 <= f < ls@.len(),
    ensures
        ({
            let lv = ls@.map_values(|x: Vec<char>| x@);
            let rest = lv.skip(f as int);
            let last = rest.last();
            let keep = is_closer(last) && (keeps_brace_closers(l) || is_end_closer(last)) && !in_preproc
                && closer_balances(last, lv.take(f as int));
            let omitted: int = rest.len() - (if keep {
                1int
            } else {
                0int
            });
            let close = comment_close(l);
            r@ == if omitted == 0 {
                text@
            } else {
                end_with_eol(
                    lines_eol(lv.take(f as int), eol@) + marker(l, leading_ws(rest[0]), omitted as nat) + (if close.len() > 0 {
                        " "@ + close
                    } else {
                        seq![]
                    }) + (if keep {
                        eol@ + last
                    } else {
                        seq![]
                    }),
                    eol@,
                )
            }
        }),
{
    let ghost lv = ls@.map_values(|x: Vec<char>| x@);
    let ghost rest = lv.skip(f as int);
    assert(text@.subrange(0, text@.len() as int) =~= text@);
    let n = ls.len();
    let last = ls[n - 1].as_slice();
    assert(rest.last() == last@);
    proof {
        lemma_line_off_bound(text@, f as int);
        lemma_byte_len_bound(text@);
    }
    let tl = text.len();
    let keep = closer(last) && (l.keeps_brace_closers() || end_closer(last)) && !in_preproc
        && closer_balances_exec(last, ls, f, Ghost(byte_len(text@) + 1));
    let k: usize = if keep {
        1
    } else {
        0
    };
    if n - f == k {
        return copy_range(text, 0, text.len());
    }
    let omitted = n - f - k;
    let mut out: Vec<char> = Vec::new();
    push_lines_eol(&mut out, ls, f, eol);
    assert(rest[0] == ls@[f as int]@);
    let indent = leading_ws_exec(ls[f].as_slice());
    let tail = assemble_tail(indent.as_slice(), omitted, l, keep, last, eol);
    push_all(&mut out, tail.as_slice());
    let ghost before = out@;
    finish_eol(&mut out, eol);
    proof {
        let close = comment_close(l);
        let want = lines_eol(lv.take(f as int), eol@) + marker(l, leading_ws(rest[0]), omitted as nat) + (if close.len() > 0 {
            " "@ + close
        } else {
            seq![]
        }) + (if keep {
            eol@ + rest.last()
        } else {
            seq![]
        });
        assert(before =~= want);
    }
    out
}

/// The marker, closed for block-comment languages, and the kept closer.
pub open spec fn fold_tail(indent: Seq<char>, omitted: nat, l: Lang, keep: bool, last: Seq<char>, eol: Seq<char>) -> Seq<char> {
    let close = comment_close(l);
    marker(l, indent, omitted) + (if close.len() > 0 {
        " "@ + close
    } else {
        seq![]
    }) + (if keep {
        eol + last
    } else {
        seq![]
    })
}

fn assemble_tail(indent: &[char], omitted: usize, l: Lang, keep: bool, last: &[char], eol: &str) -> (r: Vec<char>)
    ensures
        r@ == fold_tail(indent@, omitted as nat, l, keep, last@, eol@),
{
    let mut out: Vec<char> = Vec::new();
    push_marker(&mut out, l, indent, omitted);
    let close = l.comment_close();
    let cl = chars_of(close);
    if cl.len() > 0 {
        push_str(&mut out, " ");
        push_str(&mut out, close);
    }
    if keep {
        push_str(&mut out, eol);
        push_all(&mut out, last);
    }
    assert(out@ =~= fold_tail(indent@, omitted as nat, l, keep, last@, eol@));
    out
}

/// The definition a node stands for.
fn unwrapped_exec(t: &SyntaxTree, n: usize, Ghost(src_len): Ghost<nat>) -> (r: usize)
    requires
        t.wf(src_len),
        n < t.len(),
    ensures
        r == unwrapped(*t, n),
        r < t.len(),
{
    if contains_str(t.nodes[n].kind.as_str(), "decorated") {
        match t.child_by_field_name(n, "definition") {
            Some(d) => d,
            None => n,
        }
    } else {
        n
    }
}

/// The first position in `i..hi` of a body kind.
fn first_body_exec(t: &SyntaxTree, l: Lang, lo: usize, hi: usize) -> (r: Option<usize>)
    ensures
        r == first_body_from(*t, l, lo, hi),
        r matches Some(i) ==> i < t.len(),
{
    let mut i = lo;
    while i < hi && i < t.nodes.len()
        invariant
            lo <= i,
            first_body_from(*t, l, i, hi) == first_body_from(*t, l, lo, hi),
        decreases hi - i,
    {
        if l.is_body_kind(t.nodes[i].kind.as_str()) {
            return Some(i);
        }
        i += 1;
    }
    None
}

/// The foldable body node of the definition at `n`.
fn body_node_exec(t: &SyntaxTree, l: Lang, n: usize, Ghost(src_len): Ghost<nat>) -> (r: Option<usize>)
    requires
        t.wf(src_len),
        n < t.len(),
    ensures
        r == body_node(*t, l, n),
        r matches Some(i) ==> i < t.len(),
{
    if !l.has_body_kinds() {
        return None;
    }
    let d = unwrapped_exec(t, n, Ghost(src_len));
    match t.child_by_field_name(d, "body") {
        Some(b) => Some(b),
        None => if n < usize::MAX {
            first_body_exec(t, l, n + 1, t.ends[n])
        } else {
            None
        },
    }
}

/// The python body's first line, anchored in the tree.
fn body_start_line_exec(t: &SyntaxTree, l: Lang, n: usize, Ghost(src_len): Ghost<nat>) -> (r: Option<u128>)
    requires
        t.wf(src_len),
        n < t.len(),
    ensures
        match r {
            Some(x) => body_start_line(*t, l, n) == Some(x as nat),
            None => body_start_line(*t, l, n) is None,
        },
{
    if l != Lang::Python {
        return None;
    }
    let def = if t.kind_eq(n, "decorated_definition") {
        t.child_by_field_name(n, "definition")
    } else {
        Some(n)
    };
    let d = match def {
        Some(d) => d,
        None => return None,
    };
    let body = match t.child_by_field_name(d, "body") {
        Some(b) => b,
        None => return None,
    };
    let row = t.nodes[body].start_row;
    let params = match t.child_by_field_name(d, "parameters") {
        Some(p) => t.nodes[p].end_row == row,
        None => false,
    };
    let ret = match t.child_by_field_name(d, "return_type") {
        Some(q) => t.nodes[q].end_row == row,
        None => false,
    };
    if (params || ret) && row == t.nodes[body].end_row {
        Some(row as u128 + 2)
    } else {
        Some(row as u128 + 1)
    }
}

/// Compact view of a symbol, given the node the tree finds for its span
/// (`None` when it finds none): signature plus header lines, the body
/// replaced by a one-line fold marker, the closing line kept when it
/// reads as a block closer. Single-line symbols, and symbols with nothing
/// to fold, pass through unchanged.
pub fn compact_at(parsed: &ParsedSource, symbol: &Symbol, node: Option<usize>) -> (r: String)
    requires
        parsed.wf(),
        symbol.byte_range.start <= symbol.byte_range.end <= parsed.bytes().len(),
    ensures
        r@ == compact_view(
            parsed.bytes(),
            parsed.syntax,
            parsed.language,
            symbol.byte_range.start as int,
            symbol.byte_range.end as int,
            symbol.signature@,
            node,
        ),
{
    let b = parsed.source.as_str().as_bytes();
    let t = &parsed.syntax;
    let l = parsed.language;
    let ghost src_len = parsed.bytes().len();
    let s0 = symbol.byte_range.start;
    let s1 = symbol.byte_range.end;
    let text = match span_chars(b, s0, s1) {
        Some(x) => x,
        None => return symbol.signature.clone(),
    };
    let ls = split_lines(text.as_slice());
    if ls.len() <= 1 {
        return string_from(text.as_slice());
    }
    let n: Option<usize> = match node {
        Some(i) => if i < t.nodes.len() {
            Some(i)
        } else {
            None
        },
        None => None,
    };
    let body = match n {
        Some(i) => body_node_exec(t, l, i, Ghost(src_len)),
        None => None,
    };
    let eol = eol_exec(text.as_slice());
    match body {
        Some(bn) => match fold_body_exec(b, s0, s1, t.nodes[bn].start_byte, t.nodes[bn].end_byte, l, eol) {
            Some(x) => string_from(x.as_slice()),
            None => string_from(text.as_slice()),
        },
        None => {
            let cs = comment_spans_of(t, n, Ghost(src_len));
            let ast = match n {
                Some(i) => body_start_line_exec(t, l, i, Ghost(src_len)),
                None => None,
            };
            let out = line_fold_exec(b, s0, text.as_slice(), &ls, cs.as_slice(), l, ast, eol);
            string_from(out.as_slice())
        },
    }
}

/// The child tree-sitter's byte-range descent steps into from node `i`,
/// looking at its children from position `j` on: one that ends before `e`,
/// or that ends at or before `s` (before `s`, when it is empty), is passed
/// over; one that starts after `s` stops the search; the first other one is
/// taken.
pub open spec fn range_step(t: SyntaxTree, i: usize, j: usize, s: usize, e: usize) -> Option<usize>
    decreases t.end(i) - j,
{
    if !t.child_at(i, j) {
        None
    } else {
        let c = t.node(j);
        if c.end_byte < e || (if c.start_byte == c.end_byte {
            c.end_byte < s
        } else {
            c.end_byte <= s
        }) {
            range_step(t, i, t.end(j), s, e)
        } else if s < c.start_byte {
            None
        } else {
            Some(j)
        }
    }
}

/// `descendant_for_byte_range(s, e)` from node `i`: descend while a child
/// covers the range, at most `fuel` steps; the last node reached.
pub open spec fn range_descent(t: SyntaxTree, i: usize, s: usize, e: usize, fuel: nat) -> usize
    decreases fuel,
{
    if fuel == 0 || i >= usize::MAX {
        i
    } else {
        match range_step(t, i, (i + 1) as usize, s, e) {
            Some(j) => range_descent(t, j, s, e, (fuel - 1) as nat),
            None => i,
        }
    }
}

/// The node that anchors the compact view of the span `s..e`: the
/// smallest node the byte-range descent from the root reaches, or none
/// for a reversed span.
pub open spec fn anchor_node(t: SyntaxTree, s: usize, e: usize) -> Option<usize> {
    if s > e {
        None
    } else {
        Some(range_descent(t, 0, s, e, t.len()))
    }
}

proof fn lemma_range_step_child(t: SyntaxTree, i: usize, j: usize, s: usize, e: usize)
    requires
        i < j,
    ensures
        range_step(t, i, j, s, e) matches Some(c) ==> i < c < t.len(),
    decreases t.end(i) - j,
{
    if t.child_at(i, j) {
        let c = t.node(j);
        if c.end_byte < e || (if c.start_byte == c.end_byte {
            c.end_byte < s
        } else {
            c.end_byte <= s
        }) {
            lemma_range_step_child(t, i, t.end(j), s, e);
        }
    }
}

fn range_step_exec(t: &SyntaxTree, i: usize, s: usize, e: usize) -> (r: Option<usize>)
    requires
        i < t.len(),
        i < usize::MAX,
        t.ends@.len() == t.nodes@.len(),
    ensures
        r == range_step(*t, i, (i + 1) as usize, s, e),
        r matches Some(c) ==> i < c < t.len(),
{
    proof {
        lemma_range_step_child(*t, i, (i + 1) as usize, s, e);
    }
    let mut j = i + 1;
    loop
        invariant
            i < j,
            i < t.len(),
            t.ends@.len() == t.nodes@.len(),
            range_step(*t, i, j, s, e) == range_step(*t, i, (i + 1) as usize, s, e),
        decreases t.end(i) - j,
    {
        if !t.step_ok(i, j) {
            return None;
        }
        let c = &t.nodes[j];
        let passed = if c.start_byte == c.end_byte {
            c.end_byte < s
        } else {
            c.end_byte <= s
        };
        if c.end_byte < e || passed {
            j = t.ends[j];
        } else if s < c.start_byte {
            return None;
        } else {
            return Some(j);
        }
    }
}

/// The anchor node for the span `s..e`, as `anchor_node` states it.
fn anchor_node_exec(t: &SyntaxTree, s: usize, e: usize) -> (r: Option<usize>)
    requires
        t.len() >= 1,
        t.ends@.len() == t.nodes@.len(),
    ensures
        r == anchor_node(*t, s, e),
        r matches Some(i) ==> i < t.len(),
{
    if s > e {
        return None;
    }
    let mut i: usize = 0;
    let mut fuel: usize = t.nodes.len();
    while fuel > 0 && i < usize::MAX
        invariant
            s <= e,
            i < t.len(),
            fuel <= t.len(),
            t.ends@.len() == t.nodes@.len(),
            range_descent(*t, i, s, e, fuel as nat) == range_descent(*t, 0, s, e, t.len()),
        decreases fuel,
    {
        match range_step_exec(t, i, s, e) {
            Some(j) => {
                i = j;
                fuel -= 1;
            },
            None => {
                assert(range_descent(*t, i, s, e, fuel as nat) == i);
                return Some(i);
            },
        }
    }
    assert(range_descent(*t, i, s, e, fuel as nat) == i);
    Some(i)
}

/// Compact view of a symbol: the node that tree-sitter's byte-range descent
/// reaches for the symbol's span anchors the fold (see `compact_at`). The
/// result is a function of the source and its tree reading, byte-stable,
/// and a re-parseable fragment.
pub fn compact_symbol(parsed: &ParsedSource, symbol: &Symbol) -> (r: String)
    requires
        parsed.wf(),
        symbol.byte_range.start <= symbol.byte_range.end <= parsed.bytes().len(),
    ensures
        r@ == compact_view(
            parsed.bytes(),
            parsed.syntax,
            parsed.language,
            symbol.byte_range.start as int,
            symbol.byte_range.end as int,
            symbol.signature@,
            anchor_node(parsed.syntax, symbol.byte_range.start, symbol.byte_range.end),
        ),
{
    let node = anchor_node_exec(&parsed.syntax, symbol.byte_range.start, symbol.byte_range.end);
    compact_at(parsed, symbol, node)
}

proof fn lemma_eol_ends_line(text: Seq<char>)
    ensures
        eol_of(text).len() > 0,
        eol_of(text).last() == '\n',
{
    reveal_strlit("\r\n");
    reveal_strlit("\n");
}

proof fn lemma_end_with_eol(s: Seq<char>, eol: Seq<char>)
    requires
        eol.len() > 0,
        eol.last() == '\n',
    ensures
        end_with_eol(s, eol).len() > 0,
        end_with_eol(s, eol).last() == '\n',
{
    if !(s.len() > 0 && s.last() == '\n') {
        assert((s + eol).last() == eol.last());
    }
}

/// A compact view is the symbol's text as it is, its signature (when the
/// text is not valid UTF-8), or a folded view that ends with a line feed,
/// so that a trailing `\` continuation never splices into what follows,
/// and that carries the language's comment-prefixed ` ... [` marker.
pub proof fn law_folded_views_are_marked_and_end_with_a_line_feed(
    b: Seq<u8>,
    t: SyntaxTree,
    l: Lang,
    s0: int,
    s1: int,
    signature: Seq<char>,
    node: Option<usize>,
)
    ensures
        ({
            let v = compact_view(b, t, l, s0, s1, signature, node);
            ||| span_text(b, s0, s1) is None && v == signature
            ||| span_text(b, s0, s1) == Some(v)
            ||| (v.len() > 0 && v.last() == '\n' && has_fold_marker(v, l))
        }),
{
    match span_text(b, s0, s1) {
        None => {},
        Some(text) => {
            let eol = eol_of(text);
            lemma_eol_ends_line(text);
            let ls = text_lines(text);
            let n: Option<usize> = match node {
                Some(i) => if i < t.len() {
                    Some(i)
                } else {
                    None
                },
                None => None,
            };
            let body = match n {
                Some(i) => body_node(t, l, i),
                None => None,
            };
            if ls.len() > 1 {
                match body {
                    Some(bn) => {
                        let bs = t.node(bn).start_byte as int;
                        let be = t.node(bn).end_byte as int;
                        lemma_fold_body_ends(b, s0, s1, bs, be, l, eol);
                    },
                    None => {
                        let ast = match n {
                            Some(i) => body_start_line(t, l, i),
                            None => None,
                        };
                        lemma_line_fold_ends(b, s0, text, ls, comment_spans(t, n), l, ast, eol);
                    },
                }
            }
        },
    }
}

/// `v` carries a fold marker: the language's line-comment prefix followed
/// by ` ... [`.
pub open spec fn has_fold_marker(v: Seq<char>, l: Lang) -> bool {
    let p = comment_prefix(l) + " ... ["@;
    exists|i: int| 0 <= i && i + p.len() <= v.len() && #[trigger] v.subrange(i, i + p.len()) == p
}

proof fn lemma_marker_in(
    a: Seq<char>,
    l: Lang,
    indent: Seq<char>,
    omitted: nat,
    bb: Seq<char>,
    eol: Seq<char>,
)
    ensures
        has_fold_marker(end_with_eol(a + marker(l, indent, omitted) + bb, eol), l),
{
    let p = comment_prefix(l) + " ... ["@;
    let x = a + marker(l, indent, omitted) + bb;
    let i: int = (a.len() + indent.len()) as int;
    assert(x.subrange(i, i + p.len() as int) =~= p);
    let v = end_with_eol(x, eol);
    assert(v.subrange(i, i + p.len() as int) =~= x.subrange(i, i + p.len() as int));
    assert(v.subrange(i, i + p.len() as int) == p);
}

proof fn lemma_fold_body_ends(b: Seq<u8>, s0: int, s1: int, bs: int, be: int, l: Lang, eol: Seq<char>)
    requires
        eol.len() > 0,
        eol.last() == '\n',
    ensures
        fold_body(b, s0, s1, bs, be, l, eol) matches Some(x) ==> x.len() > 0 && x.last() == '\n'
            && has_fold_marker(x, l),
{
    if let Some(x) = fold_body(b, s0, s1, bs, be, l, eol) {
        if bs <= s0 || be > s1 || bs >= be {
        } else if keeps_brace_closers(l) && (b[bs] == 123u8 || (span_text(b, bs, be) matches Some(tt)
            && trim_start(first_line(tt)).len() > 0 && trim_start(first_line(tt))[0] == '{')) {
            lemma_brace_fold_ends(b, s0, s1, bs, be, l, eol);
        } else {
            lemma_indent_fold_ends(b, s0, s1, bs, l, eol);
        }
    }
}

proof fn lemma_brace_fold_ends(b: Seq<u8>, s0: int, s1: int, bs: int, be: int, l: Lang, eol: Seq<char>)
    requires
        eol.len() > 0,
        eol.last() == '\n',
    ensures
        brace_fold(b, s0, s1, bs, be, l, eol) matches Some(x) ==> x.len() > 0 && x.last() == '\n'
            && has_fold_marker(x, l),
{
    if let Some(x) = brace_fold(b, s0, s1, bs, be, l, eol) {
        let opener_nl = lf_from(b, bs, s1);
        let closer_start = match last_lf_in(b, 0, be - 1) {
            Some(i) => i + 1,
            None => s0,
        };
        let lead = lead_bytes(b, s1);
        let header = span_text(b, s0, opener_nl).unwrap();
        let middle = span_text(b, opener_nl + 1, closer_start).unwrap();
        let closing = span_text(b, closer_start, s1).unwrap();
        let closes = trim_end(closing).len() > 0 && trim_end(closing).last() == '}';
        let tail_end = if closes && s1 + lead < b.len() && b[s1 + lead] == 59u8 {
            s1 + lead + 1
        } else {
            s1
        };
        let tail = strip_lfs(span_text(b, closer_start, tail_end).unwrap());
        let omitted = text_lines(middle).len();
        lemma_end_with_eol(
            header + "\n"@ + marker(l, leading_ws(first_line(middle)), omitted) + eol + tail,
            eol,
        );
        lemma_marker_in(header + "\n"@, l, leading_ws(first_line(middle)), omitted, eol + tail, eol);
        assert(header + "\n"@ + marker(l, leading_ws(first_line(middle)), omitted) + eol + tail == header
            + "\n"@ + marker(l, leading_ws(first_line(middle)), omitted) + (eol + tail));
    }
}

proof fn lemma_indent_fold_ends(b: Seq<u8>, s0: int, s1: int, bs: int, l: Lang, eol: Seq<char>)
    requires
        eol.len() > 0,
        eol.last() == '\n',
    ensures
        indent_fold(b, s0, s1, bs, l, eol) matches Some(x) ==> x.len() > 0 && x.last() == '\n'
            && has_fold_marker(x, l),
{
    if let Some(x) = indent_fold(b, s0, s1, bs, l, eol) {
        let nl = last_lf_in(b, s0, bs).unwrap();
        let head = span_text(b, s0, nl).unwrap();
        let body = span_text(b, bs, s1).unwrap();
        let ls = text_lines(strip_lfs(body));
        let last = if ls.len() > 0 {
            ls.last()
        } else {
            seq![]
        };
        let keep = is_end_closer(trim(last));
        let omitted: int = ls.len() - (if keep {
            1int
        } else {
            0int
        });
        let close = comment_close(l);
        lemma_end_with_eol(
            trim_end(head) + eol + marker(l, leading_ws(ls[0]), omitted as nat) + (if close.len() > 0 {
                " "@ + close
            } else {
                seq![]
            }) + (if keep {
                eol + last
            } else {
                seq![]
            }),
            eol,
        );
        let cpart = if close.len() > 0 {
            " "@ + close
        } else {
            seq![]
        };
        let kpart = if keep {
            eol + last
        } else {
            seq![]
        };
        lemma_marker_in(trim_end(head) + eol, l, leading_ws(ls[0]), omitted as nat, cpart + kpart, eol);
        assert(trim_end(head) + eol + marker(l, leading_ws(ls[0]), omitted as nat) + cpart + kpart == trim_end(head)
            + eol + marker(l, leading_ws(ls[0]), omitted as nat) + (cpart + kpart));
    }
}

proof fn lemma_line_fold_ends(
    b: Seq<u8>,
    s0: int,
    text: Seq<char>,
    ls: Seq<Seq<char>>,
    cs: Seq<(usize, usize)>,
    l: Lang,
    ast_line: Option<nat>,
    eol: Seq<char>,
)
    requires
        eol.len() > 0,
        eol.last() == '\n',
    ensures
        ({
            let v = line_fold(b, s0, text, ls, cs, l, ast_line, eol);
            v == text || (v.len() > 0 && v.last() == '\n' && has_fold_marker(v, l))
        }),
{
    let v = line_fold(b, s0, text, ls, cs, l, ast_line, eol);
    if v != text {
        let n = ls.len() as int;
        let range_start_line = count_lf(b, 0, s0) + 1;
        let ast_fold_at: Option<int> = match ast_line {
            Some(bl) => Some(if bl >= range_start_line {
                bl - range_start_line
            } else {
                0
            }),
            None => None,
        };
        let start: Option<int> = match ast_fold_at {
            Some(idx) => Some(if idx < 1 {
                1
            } else if idx > n {
                n
            } else {
                idx
            }),
            None => if has_preprocessor(l) && hash_line(ls[0]) && !bare_define(ls[0]) {
                Some(1)
            } else {
                None
            },
        };
        let f0 = start.unwrap();
        let in_preproc = hash_line(ls[0]);
        let f = slide(ls, s0, cs, l, in_preproc, f0);
        let rest = ls.skip(f);
        let last = rest.last();
        let keep = is_closer(last) && (keeps_brace_closers(l) || is_end_closer(last)) && !in_preproc
            && closer_balances(last, ls.take(f));
        let omitted: int = rest.len() - (if keep {
            1int
        } else {
            0int
        });
        let close = comment_close(l);
        lemma_end_with_eol(
            lines_eol(ls.take(f), eol) + marker(l, leading_ws(rest[0]), omitted as nat) + (if close.len() > 0 {
                " "@ + close
            } else {
                seq![]
            }) + (if keep {
                eol + last
            } else {
                seq![]
            }),
            eol,
        );
        let cpart = if close.len() > 0 {
            " "@ + close
        } else {
            seq![]
        };
        let kpart = if keep {
            eol + last
        } else {
            seq![]
        };
        lemma_marker_in(lines_eol(ls.take(f), eol), l, leading_ws(rest[0]), omitted as nat, cpart + kpart, eol);
        assert(lines_eol(ls.take(f), eol) + marker(l, leading_ws(rest[0]), omitted as nat) + cpart + kpart
            == lines_eol(ls.take(f), eol) + marker(l, leading_ws(rest[0]), omitted as nat) + (cpart + kpart));
    }
}

/// Decoded text split at a line-feed byte: the part before it is a prefix
/// of the whole, followed by a line feed.
proof fn lemma_split_at_lf(b: Seq<u8>, s0: int, o: int, s1: int)
    requires
        0 <= s0 <= o < s1 <= b.len(),
        b[o] == 10u8,
        span_text(b, s0, s1) is Some,
    ensures
        span_text(b, s0, o) is Some,
        ({
            let t = span_text(b, s0, s1).unwrap();
            let h = span_text(b, s0, o).unwrap();
            &&& h.len() < t.len()
            &&& t.take(h.len() as int) == h
            &&& t[h.len() as int] == '\n'
        }),
{
    let w = b.subrange(s0, s1);
    let i = o - s0;
    assert(w[i] == 10u8);
    assert(is_leading_byte_width_1(10u8)) by (bit_vector);
    is_char_boundary_iff_is_leading_byte(w, i);
    valid_utf8_split(w, i);
    decode_utf8_split(w, i);
    assert(w.subrange(0, i) =~= b.subrange(s0, o));
    let r = w.subrange(i, w.len() as int);
    assert(r[0] == 10u8);
    let h = decode_utf8(b.subrange(s0, o));
    let dr = decode_utf8(r);
    assert(dr.len() > 0 && dr[0] == decode_first_scalar(r) as char);
    assert(decode_first_scalar(r) == 10u32) by {
        assert(codepoint_width_1(10u8) == 10u32) by (bit_vector);
    }
    assert(dr[0] == '\n');
    let t = decode_utf8(w);
    assert(t =~= h + dr);
    assert(t.take(h.len() as int) =~= h);
}

proof fn lemma_lf_from(b: Seq<u8>, from: int, to: int)
    ensures
        ({
            let r = lf_from(b, from, to);
            &&& (from <= to ==> from <= r <= to)
            &&& (from <= r < to ==> b[r] == 10u8)
        }),
    decreases to - from,
{
    if from < to && b[from] != 10u8 {
        lemma_lf_from(b, from + 1, to);
    }
}

proof fn lemma_last_lf_in(b: Seq<u8>, lo: int, hi: int)
    ensures
        last_lf_in(b, lo, hi) matches Some(i) ==> lo <= i < hi && b[i] == 10u8,
    decreases hi - lo,
{
    if hi > lo && b[hi - 1] != 10u8 {
        lemma_last_lf_in(b, lo, hi - 1);
    }
}

/// A text begins with its first line.
proof fn lemma_first_line_leads(t: Seq<char>)
    ensures
        starts_with(t, first_line(t)),
{
    lemma_index_of(t, '\n');
    if t.len() == 0 {
        assert(t.take(0) =~= first_line(t));
    } else if index_of(t, '\n') < t.len() {
        let x = t.take(index_of(t, '\n'));
        assert(text_lines(t)[0] == strip_cr(x));
        assert(t.take(strip_cr(x).len() as int) =~= strip_cr(x));
    } else {
        assert(text_lines(t) == seq![t]);
        assert(t.take(t.len() as int) =~= t);
    }
}

/// A prefix of a text that the text continues with a line feed begins
/// with the text's first line.
proof fn lemma_first_line_in_prefix(t: Seq<char>, h: Seq<char>)
    requires
        h.len() < t.len(),
        t.take(h.len() as int) == h,
        t[h.len() as int] == '\n',
    ensures
        starts_with(h, first_line(t)),
{
    lemma_index_of(t, '\n');
    let k = index_of(t, '\n');
    assert(k <= h.len());
    let x = t.take(k);
    assert(text_lines(t)[0] == strip_cr(x));
    assert(h.take(strip_cr(x).len() as int) =~= strip_cr(x));
}

/// Trimming keeps a prefix relation.
proof fn lemma_trim_end_prefix(h: Seq<char>, p: Seq<char>)
    requires
        starts_with(h, p),
    ensures
        starts_with(trim_end(h), trim_end(p)),
        starts_with(p, trim_end(p)),
    decreases h.len(),
{
    lemma_trim_end_is_prefix(p);
    if h.len() > p.len() {
        if h.len() > 0 && is_ws(h.last()) {
            assert(starts_with(h.drop_last(), p)) by {
                assert(h.drop_last().take(p.len() as int) =~= h.take(p.len() as int));
            }
            lemma_trim_end_prefix(h.drop_last(), p);
        } else {
            assert(trim_end(h) == h);
            let q = trim_end(p);
            assert(h.take(q.len() as int) =~= p.take(q.len() as int));
        }
    } else {
        assert(h =~= h.take(p.len() as int));
        assert(h =~= p);
        let q = trim_end(p);
        assert(q.take(q.len() as int) =~= q);
    }
}

proof fn lemma_trim_end_is_prefix(p: Seq<char>)
    ensures
        starts_with(p, trim_end(p)),
    decreases p.len(),
{
    if p.len() > 0 && is_ws(p.last()) {
        lemma_trim_end_is_prefix(p.drop_last());
        let q = trim_end(p.drop_last());
        assert(p.take(q.len() as int) =~= p.drop_last().take(q.len() as int));
    } else {
        assert(p.take(p.len() as int) =~= p);
    }
}

proof fn lemma_starts_with_trans(a: Seq<char>, b: Seq<char>, c: Seq<char>)
    requires
        starts_with(a, b),
        starts_with(b, c),
    ensures
        starts_with(a, c),
{
    assert(a.take(c.len() as int) =~= b.take(c.len() as int));
}

proof fn lemma_starts_with_concat(a: Seq<char>, rest: Seq<char>, eol: Seq<char>)
    ensures
        starts_with(end_with_eol(a + rest, eol), a),
{
    assert(end_with_eol(a + rest, eol).take(a.len() as int) =~= a);
}

proof fn lemma_lines_eol_first(ls: Seq<Seq<char>>, eol: Seq<char>)
    requires
        ls.len() >= 1,
    ensures
        starts_with(lines_eol(ls, eol), ls[0]),
    decreases ls.len(),
{
    if ls.len() == 1 {
        assert(lines_eol(ls.drop_last(), eol) =~= Seq::<char>::empty());
        assert(lines_eol(ls, eol).take(ls[0].len() as int) =~= ls[0]);
    } else {
        lemma_lines_eol_first(ls.drop_last(), eol);
        let a = lines_eol(ls.drop_last(), eol);
        assert(lines_eol(ls, eol).take(ls[0].len() as int) =~= a.take(ls[0].len() as int));
    }
}

proof fn lemma_slide_ge(ls: Seq<Seq<char>>, base: int, cs: Seq<(usize, usize)>, l: Lang, in_preproc: bool, f: int)
    requires
        1 <= f <= ls.len(),
    ensures
        f <= slide(ls, base, cs, l, in_preproc, f) <= ls.len(),
    decreases ls.len() - f,
{
    if 0 < f < ls.len() && holds_together(ls, base, cs, l, in_preproc, f) {
        lemma_slide_ge(ls, base, cs, l, in_preproc, f + 1);
    }
}

proof fn lemma_line_fold_first(
    b: Seq<u8>,
    s0: int,
    text: Seq<char>,
    ls: Seq<Seq<char>>,
    cs: Seq<(usize, usize)>,
    l: Lang,
    ast_line: Option<nat>,
    eol: Seq<char>,
)
    requires
        ls.len() >= 1,
        ls[0] == first_line(text),
    ensures
        ({
            let v = line_fold(b, s0, text, ls, cs, l, ast_line, eol);
            v == text || starts_with(v, first_line(text))
        }),
{
    let v = line_fold(b, s0, text, ls, cs, l, ast_line, eol);
    if v != text {
        let n = ls.len() as int;
        let range_start_line = count_lf(b, 0, s0) + 1;
        let ast_fold_at: Option<int> = match ast_line {
            Some(bl) => Some(if bl >= range_start_line {
                bl - range_start_line
            } else {
                0
            }),
            None => None,
        };
        let start: Option<int> = match ast_fold_at {
            Some(idx) => Some(if idx < 1 {
                1
            } else if idx > n {
                n
            } else {
                idx
            }),
            None => if has_preprocessor(l) && hash_line(ls[0]) && !bare_define(ls[0]) {
                Some(1)
            } else {
                None
            },
        };
        let f0 = start.unwrap();
        let in_preproc = hash_line(ls[0]);
        let f = slide(ls, s0, cs, l, in_preproc, f0);
        let rest = ls.skip(f);
        let last = rest.last();
        let keep = is_closer(last) && (keeps_brace_closers(l) || is_end_closer(last)) && !in_preproc
            && closer_balances(last, ls.take(f));
        let omitted: int = rest.len() - (if keep {
            1int
        } else {
            0int
        });
        lemma_slide_ge(ls, s0, cs, l, in_preproc, f0);
        let close = comment_close(l);
        let cpart = if close.len() > 0 {
            " "@ + close
        } else {
            seq![]
        };
        let kpart = if keep {
            eol + last
        } else {
            seq![]
        };
        let lead = lines_eol(ls.take(f), eol);
        assert(ls.take(f)[0] == ls[0]);
        lemma_lines_eol_first(ls.take(f), eol);
        let tail = marker(l, leading_ws(rest[0]), omitted as nat) + cpart + kpart;
        assert(lead + marker(l, leading_ws(rest[0]), omitted as nat) + cpart + kpart == lead + tail);
        lemma_starts_with_concat(lead, tail, eol);
        lemma_starts_with_trans(v, lead, first_line(text));
    }
}

proof fn lemma_brace_fold_first(b: Seq<u8>, s0: int, s1: int, bs: int, be: int, l: Lang, eol: Seq<char>, text: Seq<char>)
    requires
        0 <= s0 < bs,
        s1 <= b.len(),
        span_text(b, s0, s1) == Some(text),
    ensures
        brace_fold(b, s0, s1, bs, be, l, eol) matches Some(x) ==> starts_with(x, first_line(text)),
{
    if let Some(x) = brace_fold(b, s0, s1, bs, be, l, eol) {
        let opener_nl = lf_from(b, bs, s1);
        lemma_lf_from(b, bs, s1);
        let closer_start = match last_lf_in(b, 0, be - 1) {
            Some(i) => i + 1,
            None => s0,
        };
        let lead = lead_bytes(b, s1);
        let header = span_text(b, s0, opener_nl).unwrap();
        let middle = span_text(b, opener_nl + 1, closer_start).unwrap();
        let closing = span_text(b, closer_start, s1).unwrap();
        let closes = trim_end(closing).len() > 0 && trim_end(closing).last() == '}';
        let tail_end = if closes && s1 + lead < b.len() && b[s1 + lead] == 59u8 {
            s1 + lead + 1
        } else {
            s1
        };
        let tail = strip_lfs(span_text(b, closer_start, tail_end).unwrap());
        let omitted = text_lines(middle).len();
        if opener_nl < s1 {
            lemma_split_at_lf(b, s0, opener_nl, s1);
            lemma_first_line_in_prefix(text, header);
        } else {
            assert(header == text);
            lemma_first_line_leads(text);
        }
        let rest = "\n"@ + marker(l, leading_ws(first_line(middle)), omitted) + eol + tail;
        assert(header + "\n"@ + marker(l, leading_ws(first_line(middle)), omitted) + eol + tail == header + rest);
        lemma_starts_with_concat(header, rest, eol);
        lemma_starts_with_trans(x, header, first_line(text));
    }
}

proof fn lemma_indent_fold_first(b: Seq<u8>, s0: int, s1: int, bs: int, l: Lang, eol: Seq<char>, text: Seq<char>)
    requires
        0 <= s0 < bs < s1 <= b.len(),
        span_text(b, s0, s1) == Some(text),
    ensures
        indent_fold(b, s0, s1, bs, l, eol) matches Some(x) ==> starts_with(x, trim_end(first_line(text))),
{
    if let Some(x) = indent_fold(b, s0, s1, bs, l, eol) {
        let nl = last_lf_in(b, s0, bs).unwrap();
        lemma_last_lf_in(b, s0, bs);
        let head = span_text(b, s0, nl).unwrap();
        let body = span_text(b, bs, s1).unwrap();
        let ls = text_lines(strip_lfs(body));
        let last = if ls.len() > 0 {
            ls.last()
        } else {
            seq![]
        };
        let keep = is_end_closer(trim(last));
        let omitted: int = ls.len() - (if keep {
            1int
        } else {
            0int
        });
        lemma_split_at_lf(b, s0, nl, s1);
        lemma_first_line_in_prefix(text, head);
        lemma_trim_end_prefix(head, first_line(text));
        let close = comment_close(l);
        let cpart = if close.len() > 0 {
            " "@ + close
        } else {
            seq![]
        };
        let kpart = if keep {
            eol + last
        } else {
            seq![]
        };
        let th = trim_end(head);
        let rest = eol + marker(l, leading_ws(ls[0]), omitted as nat) + cpart + kpart;
        assert(th + eol + marker(l, leading_ws(ls[0]), omitted as nat) + cpart + kpart == th + rest);
        lemma_starts_with_concat(th, rest, eol);
        lemma_starts_with_trans(x, th, trim_end(first_line(text)));
    }
}

proof fn lemma_fold_body_first(b: Seq<u8>, s0: int, s1: int, bs: int, be: int, l: Lang, eol: Seq<char>, text: Seq<char>)
    requires
        0 <= s0 <= s1 <= b.len(),
        span_text(b, s0, s1) == Some(text),
    ensures
        fold_body(b, s0, s1, bs, be, l, eol) matches Some(x) ==> starts_with(x, trim_end(first_line(text))),
{
    if let Some(x) = fold_body(b, s0, s1, bs, be, l, eol) {
        lemma_trim_end_is_prefix(first_line(text));
        if bs <= s0 || be > s1 || bs >= be {
        } else if keeps_brace_closers(l) && (b[bs] == 123u8 || (span_text(b, bs, be) matches Some(tt)
            && trim_start(first_line(tt)).len() > 0 && trim_start(first_line(tt))[0] == '{')) {
            lemma_brace_fold_first(b, s0, s1, bs, be, l, eol, text);
            lemma_starts_with_trans(x, first_line(text), trim_end(first_line(text)));
        } else {
            lemma_indent_fold_first(b, s0, s1, bs, l, eol, text);
        }
    }
}

/// A compact view begins with the first line of the symbol's text, its
/// trailing whitespace aside (the indentation fold trims the end of the
/// header it keeps).
pub proof fn law_compact_views_keep_the_first_line(
    b: Seq<u8>,
    t: SyntaxTree,
    l: Lang,
    s0: int,
    s1: int,
    signature: Seq<char>,
    node: Option<usize>,
)
    requires
        0 <= s0 <= s1 <= b.len(),
    ensures
        span_text(b, s0, s1) matches Some(text) ==> starts_with(
            compact_view(b, t, l, s0, s1, signature, node),
            trim_end(first_line(text)),
        ),
{
    if let Some(text) = span_text(b, s0, s1) {
        let v = compact_view(b, t, l, s0, s1, signature, node);
        let eol = eol_of(text);
        let ls = text_lines(text);
        lemma_first_line_leads(text);
        lemma_trim_end_is_prefix(first_line(text));
        lemma_starts_with_trans(text, first_line(text), trim_end(first_line(text)));
        let n: Option<usize> = match node {
            Some(i) => if i < t.len() {
                Some(i)
            } else {
                None
            },
            None => None,
        };
        let body = match n {
            Some(i) => body_node(t, l, i),
            None => None,
        };
        if ls.len() > 1 {
            match body {
                Some(bn) => {
                    let bs = t.node(bn).start_byte as int;
                    let be = t.node(bn).end_byte as int;
                    lemma_fold_body_first(b, s0, s1, bs, be, l, eol, text);
                },
                None => {
                    let ast = match n {
                        Some(i) => body_start_line(t, l, i),
                        None => None,
                    };
                    assert(ls[0] == first_line(text));
                    lemma_line_fold_first(b, s0, text, ls, comment_spans(t, n), l, ast, eol);
                    if v != text {
                        lemma_starts_with_trans(v, first_line(text), trim_end(first_line(text)));
                    }
                },
            }
        }
    }
}

} // verus!
