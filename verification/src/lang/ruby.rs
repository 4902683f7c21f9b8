//! The ruby backend: definitions are named by their `name` field.

use vstd::prelude::*;
use crate::lang::RubyLang;
use crate::lang::util::{field_text, field_text_of, opt_view, tree_ok};
use crate::syntax::SyntaxTree;

verus! {

impl RubyLang {
    /// A definition's name: the text of its `name` field, trimmed.
    pub open spec fn name_of(t: &SyntaxTree, bytes: Seq<u8>, i: usize) -> Option<Seq<char>> {
        field_text(t, bytes, i, "name"@)
    }

    /// A definition's name: the text of its `name` field, trimmed.
    pub fn symbol_name(&self, t: &SyntaxTree, bytes: &[u8], i: usize) -> (r: Option<String>)
        requires
            tree_ok(t, bytes@),
            i < t.len(),
        ensures
            opt_view(r) == Self::name_of(t, bytes@, i),
    {
        field_text_of(t, bytes, i, "name")
    }
}

} // verus!
