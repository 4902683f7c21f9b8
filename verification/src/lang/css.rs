//! The CSS backend: rulesets are the symbols, named by their selector list
//! on one line; `.scss` is read as CSS.

use vstd::prelude::*;
use crate::lang::CssLang;
use crate::lang::util::{opt_view, tree_ok, child_of_kind, find_child_of_kind};
use crate::seqs::{words, join_spaces};
use crate::signature::collapse_whitespace;
use crate::syntax::SyntaxTree;
use crate::text::{chars_of, string_from};

verus! {

impl CssLang {
    /// A ruleset's name: the words of its first `selectors` child, joined
    /// by single spaces; none when that is empty.
    pub open spec fn name_of(t: &SyntaxTree, bytes: Seq<u8>, i: usize) -> Option<Seq<char>> {
        match child_of_kind(t, i, "selectors"@) {
            Some(sel) => match t.text(bytes, sel) {
                Some(x) => if join_spaces(words(x)).len() == 0 {
                    None
                } else {
                    Some(join_spaces(words(x)))
                },
                None => None,
            },
            None => None,
        }
    }

    /// A ruleset's name, as `name_of` states it.
    pub fn symbol_name(&self, t: &SyntaxTree, bytes: &[u8], i: usize) -> (r: Option<String>)
        requires
            tree_ok(t, bytes@),
            i < t.len(),
        ensures
            opt_view(r) == Self::name_of(t, bytes@, i),
    {
        let sel = match find_child_of_kind(t, i, "selectors") {
            Some(s) => s,
            None => return None,
        };
        let x = match t.node_text(bytes, sel) {
            Some(x) => x,
            None => return None,
        };
        let v = chars_of(x.as_str());
        let w = collapse_whitespace(v.as_slice());
        if w.len() == 0 {
            return None;
        }
        Some(string_from(w.as_slice()))
    }
}

} // verus!
