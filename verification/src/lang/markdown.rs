//! The markdown backend: ATX and setext headings are the symbols. A
//! heading's slice spans its whole section, up to the next heading of any
//! level.

use vstd::prelude::*;
use crate::lang::MarkdownLang;
use crate::lang::util::{opt_view, tree_ok, strip_leading, strip_leading_str, trim_str};
use crate::syntax::SyntaxTree;
use crate::text::trim;

verus! {

/// The first node of kind `inline` at position `j` or after, inside the
/// subtree of `i` (pre-order).
pub open spec fn inline_from(t: &SyntaxTree, i: usize, j: usize) -> Option<usize>
    decreases t.end(i) - j,
{
    if j >= t.end(i) || j >= t.len() {
        None
    } else if t.kind_is(j, "inline"@) {
        Some(j)
    } else {
        inline_from(t, i, (j + 1) as usize)
    }
}

/// A heading's text with its `#` markers and surrounding whitespace removed.
pub open spec fn heading_text(x: Seq<char>) -> Seq<char> {
    trim(strip_leading(trim(x), '#', '#'))
}

fn find_inline(t: &SyntaxTree, i: usize) -> (r: Option<usize>)
    requires
        i < t.len(),
        t.ends@.len() == t.nodes@.len(),
    ensures
        r == (if i < usize::MAX {
            inline_from(t, i, (i + 1) as usize)
        } else {
            None
        }),
        r matches Some(c) ==> c < t.len(),
{
    if i == usize::MAX {
        return None;
    }
    let end_i = t.ends[i];
    let mut j = i + 1;
    loop
        invariant
            i < t.len(),
            t.ends@.len() == t.nodes@.len(),
            end_i == t.end(i),
            inline_from(t, i, (i + 1) as usize) == inline_from(t, i, j),
        decreases t.end(i) - j,
    {
        if j >= end_i || j >= t.nodes.len() {
            return None;
        }
        if t.kind_eq(j, "inline") {
            return Some(j);
        }
        j = j + 1;
    }
}

impl MarkdownLang {
    /// A heading's name: the text of its first `inline` descendant, without
    /// `#` markers; none when that is empty.
    pub open spec fn name_of(t: &SyntaxTree, bytes: Seq<u8>, i: usize) -> Option<Seq<char>> {
        match if i < usize::MAX {
            inline_from(t, i, (i + 1) as usize)
        } else {
            None
        } {
            Some(n) => match t.text(bytes, n) {
                Some(x) => if heading_text(x).len() == 0 {
                    None
                } else {
                    Some(heading_text(x))
                },
                None => None,
            },
            None => None,
        }
    }

    /// A heading's name, as `name_of` states it.
    pub fn symbol_name(&self, t: &SyntaxTree, bytes: &[u8], i: usize) -> (r: Option<String>)
        requires
            tree_ok(t, bytes@),
            i < t.len(),
        ensures
            opt_view(r) == Self::name_of(t, bytes@, i),
    {
        let n = match find_inline(t, i) {
            Some(n) => n,
            None => return None,
        };
        let x = match t.node_text(bytes, n) {
            Some(x) => x,
            None => return None,
        };
        let a = trim_str(x.as_str());
        let b = strip_leading_str(a.as_str(), '#', '#');
        let c = trim_str(b.as_str());
        if c.as_str().is_empty() {
            return None;
        }
        Some(c)
    }
}

} // verus!
