//! Normalisation of a definition's raw header text into a one-line
//! signature for outline rows.

use vstd::prelude::*;
use crate::seqs::{index_of, lemma_index_of, lemma_index_of_at, split_on, words, join_spaces,
    word_len, lemma_trim_start_len, lemma_trim_end_len, lemma_word_len};
use crate::text::{is_ws, trim, trim_end, trim_start, char_is_whitespace, chars_of, string_from,
    skip_ws_forward, skip_ws_backward, trim_bounds, copy_range, push_all};

verus! {

/// Longest signature kept, in characters (the ellipsis included).
pub const MAX_SIGNATURE: usize = 120;

/// Characters allowed in a decorator name: ASCII letters and digits, `_`, `.`.
pub open spec fn is_ident_char(c: char) -> bool {
    ('a' <= c && c <= 'z') || ('A' <= c && c <= 'Z') || ('0' <= c && c <= '9') || c == '_'
        || c == '.'
}

pub open spec fn all_ident(s: Seq<char>) -> bool {
    forall|i: int| 0 <= i < s.len() ==> is_ident_char(#[trigger] s[i])
}

/// A lone `@decorator` or `@decorator(args)` line with nothing else on it.
pub open spec fn is_annotation_only(t: Seq<char>) -> bool {
    if t.len() == 0 || t[0] != '@' {
        false
    } else {
        let rest = t.drop_first();
        if rest.len() == 0 {
            true
        } else if index_of(rest, '(') < rest.len() {
            all_ident(rest.take(index_of(rest, '('))) && rest.last() == ')'
        } else {
            all_ident(rest)
        }
    }
}

/// A trimmed line that can carry the signature: neither an attribute line
/// (`#[...]`) nor a lone decorator.
pub open spec fn keeps_line(t: Seq<char>) -> bool {
    !((t.len() >= 2 && t[0] == '#' && t[1] == '[') || is_annotation_only(t))
}

/// The first trimmed line that `keeps_line` accepts, or the empty sequence.
pub open spec fn first_kept(pieces: Seq<Seq<char>>) -> Seq<char>
    decreases pieces.len(),
{
    if pieces.len() == 0 {
        seq![]
    } else if keeps_line(trim(pieces[0])) {
        trim(pieces[0])
    } else {
        first_kept(pieces.drop_first())
    }
}

/// A comment marker (`//` or `/*`) starts at `i` and is preceded by
/// whitespace or by nothing.
pub open spec fn comment_starts_at(s: Seq<char>, i: int) -> bool {
    0 <= i && i + 1 < s.len() && s[i] == '/' && (s[i + 1] == '/' || s[i + 1] == '*') && (i == 0
        || is_ws(s[i - 1]))
}

/// The first index at or after `i` where a comment starts, or `s.len()`.
pub open spec fn comment_cut_from(s: Seq<char>, i: int) -> int
    decreases s.len() - i,
{
    if i >= s.len() {
        s.len() as int
    } else if comment_starts_at(s, i) {
        i
    } else {
        comment_cut_from(s, i + 1)
    }
}

/// `s` with a trailing comment (one that starts after whitespace) cut off.
pub open spec fn strip_trailing_comment(s: Seq<char>) -> Seq<char> {
    let cut = comment_cut_from(s, 0);
    if 0 <= cut < s.len() {
        trim_end(s.take(cut))
    } else {
        s
    }
}

/// `s` ends with the two characters `a`, `b`.
pub open spec fn ends_with2(s: Seq<char>, a: char, b: char) -> bool {
    s.len() >= 2 && s[s.len() - 2] == a && s[s.len() - 1] == b
}

/// Trailing characters that mark a declaration continuing on the next line.
pub open spec fn is_delim(c: char) -> bool {
    c == '(' || c == '{' || c == ',' || c == ';' || c == ':' || c == '='
}

/// `s` without its trailing run of continuation delimiters.
pub open spec fn trim_end_delims(s: Seq<char>) -> Seq<char>
    decreases s.len(),
{
    if s.len() > 0 && is_delim(s.last()) {
        trim_end_delims(s.drop_last())
    } else {
        s
    }
}

pub open spec fn strip_arrow(s: Seq<char>, a: char, b: char) -> Seq<char> {
    if ends_with2(s, a, b) {
        trim_end(s.take(s.len() - 2))
    } else {
        s
    }
}

pub open spec fn strip_delims(s: Seq<char>) -> Seq<char> {
    if s.len() > 0 && is_delim(s.last()) {
        trim_end(trim_end_delims(s))
    } else {
        s
    }
}

/// One round of suffix stripping: `=>`, then `->`, then the delimiters.
pub open spec fn strip_round(s: Seq<char>) -> Seq<char> {
    strip_delims(strip_arrow(strip_arrow(s, '=', '>'), '-', '>'))
}

/// Rounds of `strip_round` until one changes nothing.
pub open spec fn strip_continuations(s: Seq<char>) -> Seq<char>
    decreases s.len(),
{
    if strip_round(s).len() < s.len() {
        strip_continuations(strip_round(s))
    } else {
        s
    }
}

/// At most `MAX_SIGNATURE` characters, the last an ellipsis when cut;
/// an empty signature becomes a lone ellipsis.
pub open spec fn capped(s: Seq<char>) -> Seq<char> {
    if s.len() > MAX_SIGNATURE {
        s.take(MAX_SIGNATURE - 1).push('…')
    } else if s.len() == 0 {
        seq!['…']
    } else {
        s
    }
}

/// The displayed signature of a raw header text.
pub open spec fn signature_of(raw: Seq<char>) -> Seq<char> {
    capped(
        strip_continuations(
            join_spaces(words(strip_trailing_comment(first_kept(split_on(raw, '\n'))))),
        ),
    )
}

pub proof fn lemma_trim_end_delims(s: Seq<char>)
    ensures
        trim_end_delims(s).len() <= s.len(),
        trim_end_delims(s) == s.take(trim_end_delims(s).len() as int),
        s.len() > 0 && is_delim(s.last()) ==> trim_end_delims(s).len() < s.len(),
    decreases s.len(),
{
    if s.len() > 0 && is_delim(s.last()) {
        lemma_trim_end_delims(s.drop_last());
        assert(s.drop_last().take(trim_end_delims(s).len() as int) == s.take(
            trim_end_delims(s).len() as int,
        ));
    } else {
        assert(s.take(s.len() as int) == s);
    }
}

/// A round never lengthens, and a round that keeps the length keeps `s`.
proof fn lemma_strip_round(s: Seq<char>)
    ensures
        strip_round(s).len() <= s.len(),
        strip_round(s).len() == s.len() ==> strip_round(s) == s,
{
    let a = strip_arrow(s, '=', '>');
    let b = strip_arrow(a, '-', '>');
    if ends_with2(s, '=', '>') {
        lemma_trim_end_len(s.take(s.len() - 2));
    }
    if ends_with2(a, '-', '>') {
        lemma_trim_end_len(a.take(a.len() - 2));
    }
    if b.len() > 0 && is_delim(b.last()) {
        lemma_trim_end_delims(b);
        lemma_trim_end_len(trim_end_delims(b));
    }
}

// ---- executable side ----

fn is_ident(c: char) -> (b: bool)
    ensures
        b == is_ident_char(c),
{
    ('a' <= c && c <= 'z') || ('A' <= c && c <= 'Z') || ('0' <= c && c <= '9') || c == '_'
        || c == '.'
}

fn all_ident_in(v: &[char], lo: usize, hi: usize) -> (b: bool)
    requires
        lo <= hi <= v@.len(),
    ensures
        b == all_ident(v@.subrange(lo as int, hi as int)),
{
    let mut i = lo;
    while i < hi
        invariant
            lo <= i <= hi <= v@.len(),
            forall|k: int| lo <= k < i ==> is_ident_char(#[trigger] v@[k]),
        decreases hi - i,
    {
        if !is_ident(v[i]) {
            assert(v@.subrange(lo as int, hi as int)[i - lo] == v@[i as int]);
            return false;
        }
        i += 1;
    }
    assert forall|k: int| 0 <= k < hi - lo implies is_ident_char(
        #[trigger] v@.subrange(lo as int, hi as int)[k],
    ) by {
        assert(v@.subrange(lo as int, hi as int)[k] == v@[lo + k]);
    }
    true
}

/// Index of the first `c` in `v[lo..hi]`, or `hi`.
pub fn find_char(v: &[char], lo: usize, hi: usize, c: char) -> (r: usize)
    requires
        lo <= hi <= v@.len(),
    ensures
        lo <= r <= hi,
        r - lo == index_of(v@.subrange(lo as int, hi as int), c),
{
    let ghost s = v@.subrange(lo as int, hi as int);
    let mut i = lo;
    while i < hi && v[i] != c
        invariant
            lo <= i <= hi <= v@.len(),
            s == v@.subrange(lo as int, hi as int),
            forall|k: int| 0 <= k < i - lo ==> s[k] != c,
        decreases hi - i,
    {
        assert(s[i - lo] == v@[i as int]);
        i += 1;
    }
    proof {
        if i < hi {
            assert(s[i - lo] == v@[i as int]);
        }
        lemma_index_of_at(s, c, i - lo);
    }
    i
}

fn annotation_only(v: &[char], lo: usize, hi: usize) -> (b: bool)
    requires
        lo <= hi <= v@.len(),
    ensures
        b == is_annotation_only(v@.subrange(lo as int, hi as int)),
{
    let ghost t = v@.subrange(lo as int, hi as int);
    if lo == hi || v[lo] != '@' {
        assert(lo < hi ==> t[0] == v@[lo as int]);
        return false;
    }
    assert(t[0] == v@[lo as int]);
    let ghost rest = t.drop_first();
    assert(rest == v@.subrange(lo + 1, hi as int));
    if lo + 1 == hi {
        return true;
    }
    let p = find_char(v, lo + 1, hi, '(');
    if p < hi {
        proof {
            assert(rest.take(index_of(rest, '(')) == v@.subrange(lo + 1, p as int));
            assert(rest.last() == v@[hi - 1]);
        }
        all_ident_in(v, lo + 1, p) && v[hi - 1] == ')'
    } else {
        all_ident_in(v, lo + 1, hi)
    }
}

fn keeps(v: &[char], lo: usize, hi: usize) -> (b: bool)
    requires
        lo <= hi <= v@.len(),
    ensures
        b == keeps_line(v@.subrange(lo as int, hi as int)),
{
    let ghost t = v@.subrange(lo as int, hi as int);
    let attr = hi - lo >= 2 && v[lo] == '#' && v[lo + 1] == '[';
    proof {
        if hi - lo >= 2 {
            assert(t[0] == v@[lo as int]);
            assert(t[1] == v@[lo + 1]);
        }
    }
    !(attr || annotation_only(v, lo, hi))
}

/// The first trimmed line of `v` that is not an attribute or lone decorator.
fn first_signature_line(v: &[char]) -> (r: Vec<char>)
    ensures
        r@ == first_kept(split_on(v@, '\n')),
{
    let len = v.len();
    let mut start: usize = 0;
    proof {
        assert(v@.skip(0) == v@);
    }
    loop
        invariant
            start <= len == v@.len(),
            first_kept(split_on(v@, '\n')) == first_kept(split_on(v@.skip(start as int), '\n')),
        decreases len - start,
    {
        let ghost t = v@.skip(start as int);
        assert(t == v@.subrange(start as int, len as int));
        let end = find_char(v, start, len, '\n');
        proof {
            lemma_index_of(t, '\n');
            assert(t.take(end - start) == v@.subrange(start as int, end as int));
        }
        let (lo, hi) = trim_bounds(v, start, end);
        if keeps(v, lo, hi) {
            proof {
                if end < len {
                    assert(split_on(t, '\n')[0] == t.take(end - start));
                } else {
                    assert(split_on(t, '\n') == seq![t]);
                    assert(t.take(end - start) == t);
                }
            }
            return copy_range(v, lo, hi);
        }
        if end == len {
            proof {
                assert(split_on(t, '\n') == seq![t]);
                assert(t.take(end - start) == t);
                assert(seq![t][0] == t);
                assert(!keeps_line(trim(t)));
                assert(seq![t].drop_first() =~= Seq::<Seq<char>>::empty());
                assert(first_kept(Seq::<Seq<char>>::empty()) =~= Seq::<char>::empty());
                assert(first_kept(seq![t]) == first_kept(seq![t].drop_first()));
            }
            return Vec::new();
        }
        proof {
            assert(t.skip(end - start + 1) == v@.skip(end + 1));
            assert(split_on(t, '\n').drop_first() == split_on(v@.skip(end + 1), '\n'));
        }
        start = end + 1;
    }
}

/// Index where a trailing comment starts in `v`, or `v.len()`.
fn comment_cut(v: &[char]) -> (r: usize)
    ensures
        r == comment_cut_from(v@, 0),
        r <= v@.len(),
{
    let len = v.len();
    let mut i: usize = 0;
    while i < len
        invariant
            i <= len == v@.len(),
            comment_cut_from(v@, 0) == comment_cut_from(v@, i as int),
        decreases len - i,
    {
        let here = i + 1 < len && v[i] == '/' && (v[i + 1] == '/' || v[i + 1] == '*') && (i == 0
            || char_is_whitespace(v[i - 1]));
        if here {
            return i;
        }
        i += 1;
    }
    i
}

fn cut_trailing_comment(v: &[char]) -> (r: Vec<char>)
    ensures
        r@ == strip_trailing_comment(v@),
{
    let cut = comment_cut(v);
    if cut < v.len() {
        let e = skip_ws_backward(v, 0, cut);
        assert(v@.take(cut as int) == v@.subrange(0, cut as int));
        copy_range(v, 0, e)
    } else {
        copy_range(v, 0, v.len())
    }
}

/// End of the run of non-whitespace characters starting at `lo`.
fn skip_word(v: &[char], lo: usize, hi: usize) -> (r: usize)
    requires
        lo <= hi <= v@.len(),
    ensures
        lo <= r <= hi,
        r - lo == word_len(v@.subrange(lo as int, hi as int)),
    decreases hi - lo,
{
    if lo < hi && !char_is_whitespace(v[lo]) {
        proof {
            assert(v@.subrange(lo as int, hi as int).drop_first() == v@.subrange(lo + 1, hi as int));
        }
        skip_word(v, lo + 1, hi)
    } else {
        lo
    }
}

pub proof fn lemma_join_push(done: Seq<Seq<char>>, w: Seq<char>)
    ensures
        join_spaces(done.push(w)) == if done.len() == 0 {
            w
        } else {
            join_spaces(done).push(' ') + w
        },
{
    assert(done.push(w).drop_last() == done);
    if done.len() == 0 {
        assert(done.push(w)[0] == w);
    }
}

/// The words of `v` joined by single spaces.
pub fn collapse_whitespace(v: &[char]) -> (r: Vec<char>)
    ensures
        r@ == join_spaces(words(v@)),
{
    let len = v.len();
    let mut out: Vec<char> = Vec::new();
    let mut i: usize = 0;
    let ghost mut done: Seq<Seq<char>> = seq![];
    let mut first = true;
    proof {
        assert(v@.skip(0) == v@);
        assert(done + words(v@) == words(v@));
    }
    loop
        invariant
            i <= len == v@.len(),
            out@ == join_spaces(done),
            first == (done.len() == 0),
            done + words(v@.skip(i as int)) == words(v@),
        decreases len - i,
    {
        let ghost t = v@.skip(i as int);
        assert(t == v@.subrange(i as int, len as int));
        let a = skip_ws_forward(v, i, len);
        if a == len {
            proof {
                assert(trim_start(t).len() == 0);
                assert(words(t) == Seq::<Seq<char>>::empty());
                assert(done + words(t) == done);
            }
            return out;
        }
        let b = skip_word(v, a, len);
        proof {
            let ts = trim_start(t);
            assert(ts == v@.subrange(a as int, len as int));
            lemma_word_len(ts);
            assert(ts[0] == v@[a as int]);
            assert(ts.take(word_len(ts) as int) == v@.subrange(a as int, b as int));
            assert(ts.skip(word_len(ts) as int) == v@.skip(b as int));
            assert(words(t) == seq![v@.subrange(a as int, b as int)] + words(v@.skip(b as int)));
            lemma_join_push(done, v@.subrange(a as int, b as int));
            assert(done.push(v@.subrange(a as int, b as int)) + words(v@.skip(b as int)) == done
                + words(t));
        }
        if !first {
            out.push(' ');
        }
        first = false;
        let w = copy_range(v, a, b);
        push_all(&mut out, w.as_slice());
        proof {
            done = done.push(v@.subrange(a as int, b as int));
        }
        i = b;
    }
}

/// `v` without a trailing two-character arrow `a b`, trimmed at the end.
fn cut_arrow(v: Vec<char>, a: char, b: char) -> (r: Vec<char>)
    ensures
        r@ == strip_arrow(v@, a, b),
{
    let len = v.len();
    if len >= 2 && v[len - 2] == a && v[len - 1] == b {
        let e = skip_ws_backward(v.as_slice(), 0, len - 2);
        assert(v@.take(len - 2) == v@.subrange(0, len - 2));
        copy_range(v.as_slice(), 0, e)
    } else {
        v
    }
}

/// Length of `v[..hi]` once its trailing delimiters are gone.
fn skip_delims_backward(v: &[char], hi: usize) -> (r: usize)
    requires
        hi <= v@.len(),
    ensures
        r <= hi,
        trim_end_delims(v@.subrange(0, hi as int)) == v@.subrange(0, r as int),
    decreases hi,
{
    if hi > 0 {
        let c = v[hi - 1];
        if c == '(' || c == '{' || c == ',' || c == ';' || c == ':' || c == '=' {
            assert(v@.subrange(0, hi as int).drop_last() == v@.subrange(0, hi - 1));
            return skip_delims_backward(v, hi - 1);
        }
    }
    hi
}

fn cut_delims(v: Vec<char>) -> (r: Vec<char>)
    ensures
        r@ == strip_delims(v@),
{
    let len = v.len();
    if len > 0 {
        let c = v[len - 1];
        if c == '(' || c == '{' || c == ',' || c == ';' || c == ':' || c == '=' {
            let d = skip_delims_backward(v.as_slice(), len);
            let e = skip_ws_backward(v.as_slice(), 0, d);
            assert(v@.subrange(0, len as int) == v@);
            return copy_range(v.as_slice(), 0, e);
        }
    }
    v
}

/// Strip trailing `=>`, `->` and continuation delimiters until none is left.
fn cut_continuations(v: Vec<char>) -> (r: Vec<char>)
    ensures
        r@ == strip_continuations(v@),
{
    let mut sig = v;
    loop
        invariant
            strip_continuations(sig@) == strip_continuations(v@),
        decreases sig@.len(),
    {
        let ghost before = sig@;
        let len = sig.len();
        let t = cut_arrow(sig, '=', '>');
        let t = cut_arrow(t, '-', '>');
        let t = cut_delims(t);
        proof {
            lemma_strip_round(before);
        }
        if t.len() == len {
            return t;
        }
        sig = t;
    }
}

/// Normalise a raw definition header into a compact one-line signature:
/// the first line that is not an attribute (`#[...]`) or a lone decorator,
/// trimmed; a trailing `//` or `/*` comment that follows whitespace cut;
/// whitespace runs collapsed to single spaces; trailing `=>`, `->` and
/// continuation delimiters (`(`, `{`, `,`, `;`, `:`, `=`) stripped until
/// none is left; capped at `MAX_SIGNATURE` characters with an ellipsis, and
/// a lone ellipsis when nothing is left.
pub fn clean_signature(raw: &str) -> (sig: String)
    ensures
        sig@ == signature_of(raw@),
        sig@.len() <= MAX_SIGNATURE,
        sig@.len() > 0,
{
    let cs = chars_of(raw);
    let line = first_signature_line(cs.as_slice());
    let line = cut_trailing_comment(line.as_slice());
    let collapsed = collapse_whitespace(line.as_slice());
    let stripped = cut_continuations(collapsed);
    let mut out: Vec<char>;
    if stripped.len() > MAX_SIGNATURE {
        out = copy_range(stripped.as_slice(), 0, MAX_SIGNATURE - 1);
        out.push('…');
        assert(stripped@.take(MAX_SIGNATURE - 1) == stripped@.subrange(0, MAX_SIGNATURE - 1));
    } else if stripped.len() == 0 {
        out = Vec::new();
        out.push('…');
    } else {
        out = stripped;
    }
    string_from(out.as_slice())
}

} // verus!
