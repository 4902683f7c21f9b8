//! The typescript backend: a definition is named by its `name` field, or, for
//! a variable declaration, by the `name` of its first declarator.

use vstd::prelude::*;
use crate::lang::TypeScriptLang;
use crate::lang::util::{field_text, field_text_of, node_text_trimmed, opt_view, trimmed_text, tree_ok};
use crate::syntax::SyntaxTree;

verus! {

impl TypeScriptLang {
    /// A definition's name: its `name` field, else the `name` field of
    /// its first named child; trimmed.
    pub open spec fn name_of(t: &SyntaxTree, bytes: Seq<u8>, i: usize) -> Option<Seq<char>> {
        match t.field_child(i, "name"@) {
            Some(c) => trimmed_text(t, bytes, c),
            None => match t.named_child(i, 0) {
                Some(n) => field_text(t, bytes, n, "name"@),
                None => None,
            },
        }
    }

    /// A definition's name: its `name` field, else the `name` field of
    /// its first named child; trimmed.
    pub fn symbol_name(&self, t: &SyntaxTree, bytes: &[u8], i: usize) -> (r: Option<String>)
        requires
            tree_ok(t, bytes@),
            i < t.len(),
        ensures
            opt_view(r) == Self::name_of(t, bytes@, i),
    {
        match t.child_by_field_name(i, "name") {
            Some(c) => node_text_trimmed(t, bytes, c),
            None => match t.named_child_at(i, 0) {
                Some(n) => field_text_of(t, bytes, n, "name"),
                None => None,
            },
        }
    }
}

} // verus!
