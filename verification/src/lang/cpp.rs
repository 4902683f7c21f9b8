//! The C++ backend: names as in C; a templated definition spans its
//! `template <...>` head.

use vstd::prelude::*;
use crate::lang::CppLang;
use crate::lang::c::{c_name_of, c_symbol_name};
use crate::lang::util::{opt_view, tree_ok};
use crate::syntax::SyntaxTree;

verus! {

impl CppLang {
    /// A definition's name, as `c_name_of` states it.
    pub fn symbol_name(&self, t: &SyntaxTree, bytes: &[u8], i: usize) -> (r: Option<String>)
        requires
            tree_ok(t, bytes@),
            i < t.len(),
        ensures
            opt_view(r) == c_name_of(t, bytes@, i),
    {
        c_symbol_name(t, bytes, i)
    }
}

} // verus!
