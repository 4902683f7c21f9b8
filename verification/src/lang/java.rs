//! The java backend: a definition is named by its `name` field, or, for a
//! field declaration, by the `name` of its declarator.

use vstd::prelude::*;
use crate::lang::JavaLang;
use crate::lang::util::{field_text, field_text_of, node_text_trimmed, opt_view, trimmed_text, tree_ok};
use crate::syntax::SyntaxTree;

verus! {

impl JavaLang {
    /// A definition's name: its `name` field, else its declarator's `name`
    /// field; trimmed.
    pub open spec fn name_of(t: &SyntaxTree, bytes: Seq<u8>, i: usize) -> Option<Seq<char>> {
        match t.field_child(i, "name"@) {
            Some(c) => trimmed_text(t, bytes, c),
            None => match t.field_child(i, "declarator"@) {
                Some(d) => field_text(t, bytes, d, "name"@),
                None => None,
            },
        }
    }

    /// A definition's name: its `name` field, else its declarator's `name`
    /// field; trimmed.
    pub fn symbol_name(&self, t: &SyntaxTree, bytes: &[u8], i: usize) -> (r: Option<String>)
        requires
            tree_ok(t, bytes@),
            i < t.len(),
        ensures
            opt_view(r) == Self::name_of(t, bytes@, i),
    {
        match t.child_by_field_name(i, "name") {
            Some(c) => node_text_trimmed(t, bytes, c),
            None => match t.child_by_field_name(i, "declarator") {
                Some(d) => field_text_of(t, bytes, d, "name"),
                None => None,
            },
        }
    }
}

} // verus!
