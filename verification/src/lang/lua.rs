//! The lua backend: a function is named by its `name` field; `local x = 1`
//! by the first variable of its assignment.

use vstd::prelude::*;
use crate::lang::LuaLang;
use crate::lang::util::{node_text_trimmed, opt_view, trimmed_text, tree_ok, named_of_kind,
    find_named_of_kind};
use crate::syntax::SyntaxTree;

verus! {

impl LuaLang {
    /// A definition's name: its `name` field; else, down the chain
    /// `assignment_statement` -> `variable_list` -> first named child, that
    /// child's `name` field or the child itself; trimmed.
    pub open spec fn name_of(t: &SyntaxTree, bytes: Seq<u8>, i: usize) -> Option<Seq<char>> {
        match t.field_child(i, "name"@) {
            Some(c) => trimmed_text(t, bytes, c),
            None => match named_of_kind(t, i, "assignment_statement"@) {
                Some(a) => match named_of_kind(t, a, "variable_list"@) {
                    Some(l) => match t.named_child(l, 0) {
                        Some(f) => match t.field_child(f, "name"@) {
                            Some(n) => trimmed_text(t, bytes, n),
                            None => trimmed_text(t, bytes, f),
                        },
                        None => None,
                    },
                    None => None,
                },
                None => None,
            },
        }
    }

    /// A definition's name, as `name_of` states it.
    pub fn symbol_name(&self, t: &SyntaxTree, bytes: &[u8], i: usize) -> (r: Option<String>)
        requires
            tree_ok(t, bytes@),
            i < t.len(),
        ensures
            opt_view(r) == Self::name_of(t, bytes@, i),
    {
        match t.child_by_field_name(i, "name") {
            Some(c) => node_text_trimmed(t, bytes, c),
            None => match find_named_of_kind(t, i, "assignment_statement") {
                Some(a) => match find_named_of_kind(t, a, "variable_list") {
                    Some(l) => match t.named_child_at(l, 0) {
                        Some(f) => match t.child_by_field_name(f, "name") {
                            Some(n) => node_text_trimmed(t, bytes, n),
                            None => node_text_trimmed(t, bytes, f),
                        },
                        None => None,
                    },
                    None => None,
                },
                None => None,
            },
        }
    }
}

} // verus!
