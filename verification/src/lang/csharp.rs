//! The C# backend: a definition is named by its `name` field, or, for a
//! field declaration, by the `name` of its first variable declarator.

use vstd::prelude::*;
use crate::lang::CSharpLang;
use crate::lang::util::{field_text, field_text_of, node_text_trimmed, opt_view, trimmed_text, tree_ok,
    named_of_kind, find_named_of_kind};
use crate::syntax::SyntaxTree;

verus! {

impl CSharpLang {
    /// A definition's name: its `name` field, else the `name` field of the
    /// first `variable_declarator` of its first `variable_declaration`;
    /// trimmed.
    pub open spec fn name_of(t: &SyntaxTree, bytes: Seq<u8>, i: usize) -> Option<Seq<char>> {
        match t.field_child(i, "name"@) {
            Some(c) => trimmed_text(t, bytes, c),
            None => match named_of_kind(t, i, "variable_declaration"@) {
                Some(v) => match named_of_kind(t, v, "variable_declarator"@) {
                    Some(d) => field_text(t, bytes, d, "name"@),
                    None => None,
                },
                None => None,
            },
        }
    }

    /// A definition's name, as `name_of` states it.
    pub fn symbol_name(&self, t: &SyntaxTree, bytes: &[u8], i: usize) -> (r: Option<String>)
        requires
            tree_ok(t, bytes@),
            i < t.len(),
        ensures
            opt_view(r) == Self::name_of(t, bytes@, i),
    {
        match t.child_by_field_name(i, "name") {
            Some(c) => node_text_trimmed(t, bytes, c),
            None => match find_named_of_kind(t, i, "variable_declaration") {
                Some(v) => match find_named_of_kind(t, v, "variable_declarator") {
                    Some(d) => field_text_of(t, bytes, d, "name"),
                    None => None,
                },
                None => None,
            },
        }
    }
}

} // verus!
