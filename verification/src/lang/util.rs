//! Helpers shared by the language backends: node text, trimmed, and the
//! usual ways a backend finds a definition's name.

use vstd::prelude::*;
use crate::syntax::SyntaxTree;
use crate::text::{trim, chars_of, string_from, trim_bounds, copy_range};

verus! {

/// The view of an optional string.
pub open spec fn opt_view(o: Option<String>) -> Option<Seq<char>> {
    match o {
        Some(s) => Some(s@),
        None => None,
    }
}

/// An optional text, trimmed.
pub open spec fn opt_trim(o: Option<Seq<char>>) -> Option<Seq<char>> {
    match o {
        Some(s) => Some(trim(s)),
        None => None,
    }
}

/// The tree is well-formed over `bytes`.
pub open spec fn tree_ok(t: &SyntaxTree, bytes: Seq<u8>) -> bool {
    t.wf(bytes.len())
}

/// The text of node `i`, trimmed.
pub open spec fn trimmed_text(t: &SyntaxTree, bytes: Seq<u8>, i: usize) -> Option<Seq<char>> {
    opt_trim(t.text(bytes, i))
}

/// The trimmed text of the child of `i` in field `name`.
pub open spec fn field_text(t: &SyntaxTree, bytes: Seq<u8>, i: usize, name: Seq<char>) -> Option<
    Seq<char>,
> {
    match t.field_child(i, name) {
        Some(c) => trimmed_text(t, bytes, c),
        None => None,
    }
}

/// `s` without surrounding whitespace.
pub fn trim_str(s: &str) -> (r: String)
    ensures
        r@ == trim(s@),
{
    let v = chars_of(s);
    let (lo, hi) = trim_bounds(v.as_slice(), 0, v.len());
    assert(v@.subrange(0, v@.len() as int) == v@);
    let w = copy_range(v.as_slice(), lo, hi);
    string_from(w.as_slice())
}

/// The text of node `i`, trimmed.
pub fn node_text_trimmed(t: &SyntaxTree, bytes: &[u8], i: usize) -> (r: Option<String>)
    requires
        tree_ok(t, bytes@),
        i < t.len(),
    ensures
        opt_view(r) == trimmed_text(t, bytes@, i),
{
    match t.node_text(bytes, i) {
        Some(s) => Some(trim_str(s.as_str())),
        None => None,
    }
}

/// The trimmed text of the child of `i` in field `name`.
pub fn field_text_of(t: &SyntaxTree, bytes: &[u8], i: usize, name: &str) -> (r: Option<String>)
    requires
        tree_ok(t, bytes@),
        i < t.len(),
    ensures
        opt_view(r) == field_text(t, bytes@, i, name@),
{
    match t.child_by_field_name(i, name) {
        Some(c) => node_text_trimmed(t, bytes, c),
        None => None,
    }
}

/// The first named child of `i`, from position `j` on, of kind `k`.
pub open spec fn named_kind_from(t: &SyntaxTree, i: usize, j: usize, k: Seq<char>) -> Option<usize>
    decreases t.end(i) - j,
{
    if !t.child_at(i, j) {
        None
    } else if t.node(j).named && t.kind_is(j, k) {
        Some(j)
    } else {
        named_kind_from(t, i, t.end(j), k)
    }
}

/// The first named child of `i` of kind `k`.
pub open spec fn named_of_kind(t: &SyntaxTree, i: usize, k: Seq<char>) -> Option<usize> {
    if i < usize::MAX {
        named_kind_from(t, i, (i + 1) as usize, k)
    } else {
        None
    }
}

/// The first child of `i`, from position `j` on, of kind `k`.
pub open spec fn kind_from(t: &SyntaxTree, i: usize, j: usize, k: Seq<char>) -> Option<usize>
    decreases t.end(i) - j,
{
    if !t.child_at(i, j) {
        None
    } else if t.kind_is(j, k) {
        Some(j)
    } else {
        kind_from(t, i, t.end(j), k)
    }
}

/// The first child of `i` (named or not) of kind `k`.
pub open spec fn child_of_kind(t: &SyntaxTree, i: usize, k: Seq<char>) -> Option<usize> {
    if i < usize::MAX {
        kind_from(t, i, (i + 1) as usize, k)
    } else {
        None
    }
}

/// The first named child of `i` of kind `k`.
pub fn find_named_of_kind(t: &SyntaxTree, i: usize, k: &str) -> (r: Option<usize>)
    requires
        i < t.len(),
        t.ends@.len() == t.nodes@.len(),
    ensures
        r == named_of_kind(t, i, k@),
        r matches Some(c) ==> c < t.len(),
{
    if i == usize::MAX {
        return None;
    }
    let mut j = i + 1;
    loop
        invariant
            i < t.len(),
            t.ends@.len() == t.nodes@.len(),
            named_of_kind(t, i, k@) == named_kind_from(t, i, j, k@),
        decreases t.end(i) - j,
    {
        let end_i = t.ends[i];
        if !(j < end_i && j < t.nodes.len() && t.ends[j] > j && t.ends[j] <= end_i) {
            return None;
        }
        if t.nodes[j].named && t.kind_eq(j, k) {
            return Some(j);
        }
        j = t.ends[j];
    }
}

/// The first child of `i` (named or not) of kind `k`.
pub fn find_child_of_kind(t: &SyntaxTree, i: usize, k: &str) -> (r: Option<usize>)
    requires
        i < t.len(),
        t.ends@.len() == t.nodes@.len(),
    ensures
        r == child_of_kind(t, i, k@),
        r matches Some(c) ==> c < t.len(),
{
    if i == usize::MAX {
        return None;
    }
    let mut j = i + 1;
    loop
        invariant
            i < t.len(),
            t.ends@.len() == t.nodes@.len(),
            child_of_kind(t, i, k@) == kind_from(t, i, j, k@),
        decreases t.end(i) - j,
    {
        let end_i = t.ends[i];
        if !(j < end_i && j < t.nodes.len() && t.ends[j] > j && t.ends[j] <= end_i) {
            return None;
        }
        if t.kind_eq(j, k) {
            return Some(j);
        }
        j = t.ends[j];
    }
}

/// `s` without its leading run of `a` and `b` characters.
pub open spec fn strip_leading(s: Seq<char>, a: char, b: char) -> Seq<char>
    decreases s.len(),
{
    if s.len() > 0 && (s[0] == a || s[0] == b) {
        strip_leading(s.drop_first(), a, b)
    } else {
        s
    }
}

/// `s` without its trailing run of `a` and `b` characters.
pub open spec fn strip_trailing(s: Seq<char>, a: char, b: char) -> Seq<char>
    decreases s.len(),
{
    if s.len() > 0 && (s.last() == a || s.last() == b) {
        strip_trailing(s.drop_last(), a, b)
    } else {
        s
    }
}

/// `s` without leading `a`/`b` characters (`trim_start_matches`).
pub fn strip_leading_str(s: &str, a: char, b: char) -> (r: String)
    ensures
        r@ == strip_leading(s@, a, b),
{
    let v = chars_of(s);
    let mut lo: usize = 0;
    assert(v@.subrange(0, v@.len() as int) == v@);
    while lo < v.len() && (v[lo] == a || v[lo] == b)
        invariant
            lo <= v@.len(),
            strip_leading(s@, a, b) == strip_leading(v@.subrange(lo as int, v@.len() as int), a, b),
            v@ == s@,
        decreases v@.len() - lo,
    {
        assert(v@.subrange(lo as int, v@.len() as int).drop_first() == v@.subrange(
            lo + 1,
            v@.len() as int,
        ));
        lo += 1;
    }
    proof {
        if lo < v.len() {
            assert(v@.subrange(lo as int, v@.len() as int)[0] == v@[lo as int]);
        }
    }
    assert(v@.subrange(0, v@.len() as int) == v@);
    let w = copy_range(v.as_slice(), lo, v.len());
    string_from(w.as_slice())
}

/// `s` without trailing `a`/`b` characters (`trim_end_matches`).
pub fn strip_trailing_str(s: &str, a: char, b: char) -> (r: String)
    ensures
        r@ == strip_trailing(s@, a, b),
{
    let v = chars_of(s);
    let mut hi: usize = v.len();
    assert(v@.subrange(0, v@.len() as int) == v@);
    while hi > 0 && (v[hi - 1] == a || v[hi - 1] == b)
        invariant
            hi <= v@.len(),
            strip_trailing(s@, a, b) == strip_trailing(v@.subrange(0, hi as int), a, b),
            v@ == s@,
        decreases hi,
    {
        assert(v@.subrange(0, hi as int).drop_last() == v@.subrange(0, hi - 1));
        hi -= 1;
    }
    proof {
        if hi > 0 {
            assert(v@.subrange(0, hi as int).last() == v@[hi - 1]);
        }
    }
    assert(v@.subrange(0, v@.len() as int) == v@);
    let w = copy_range(v.as_slice(), 0, hi);
    string_from(w.as_slice())
}

} // verus!
