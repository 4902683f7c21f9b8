//! The C backend. Declarators nest (`*p`, `f(int)`, `(*fp)(int)`,
//! `a[10]`), so a declaration's name is found by descending through them;
//! function prototypes are not definitions.

use vstd::prelude::*;
use crate::lang::CLang;
use crate::lang::util::{node_text_trimmed, opt_view, trimmed_text, tree_ok};
use crate::syntax::SyntaxTree;

verus! {

/// Kinds of the nodes that end a declarator chain: the declared name.
pub open spec fn is_name_kind(t: &SyntaxTree, j: usize) -> bool {
    t.kind_is(j, "identifier"@) || t.kind_is(j, "field_identifier"@) || t.kind_is(j, "type_identifier"@)
        || t.kind_is(j, "destructor_name"@) || t.kind_is(j, "operator_name"@)
}

/// The name node under a declarator: through parenthesized declarators
/// (their first named child), through `declarator` fields, else through
/// the first named child; at most nine levels deep.
pub open spec fn declarator_name(t: &SyntaxTree, j: usize, depth: nat) -> Option<usize>
    decreases 9 - depth,
{
    if depth > 8 {
        None
    } else if is_name_kind(t, j) {
        Some(j)
    } else if t.kind_is(j, "parenthesized_declarator"@) {
        match t.named_child(j, 0) {
            Some(n) => declarator_name(t, n, depth + 1),
            None => None,
        }
    } else {
        match t.field_child(j, "declarator"@) {
            Some(d) => declarator_name(t, d, depth + 1),
            None => match t.named_child(j, 0) {
                Some(n) => declarator_name(t, n, depth + 1),
                None => None,
            },
        }
    }
}

/// Down the `declarator` chain from `cur`, at most `steps` nodes: whether
/// a function declarator was met and no parenthesized one.
pub open spec fn proto_scan(t: &SyntaxTree, cur: usize, steps: nat, has_fn: bool, has_parens: bool) -> bool
    decreases steps,
{
    if steps == 0 {
        has_fn && !has_parens
    } else if is_name_kind(t, cur) {
        has_fn && !has_parens
    } else {
        let f = has_fn || t.kind_is(cur, "function_declarator"@);
        let p = has_parens || t.kind_is(cur, "parenthesized_declarator"@);
        match t.field_child(cur, "declarator"@) {
            Some(n) => proto_scan(t, n, (steps - 1) as nat, f, p),
            None => f && !p,
        }
    }
}

/// A `declaration` whose declarator chain holds a function declarator and
/// no parenthesized one: a prototype (`int f(void);`), not a definition.
/// `int (*fp)(int);` declares a variable and stays.
pub open spec fn is_function_prototype(t: &SyntaxTree, i: usize) -> bool {
    t.kind_is(i, "declaration"@) && match t.field_child(i, "declarator"@) {
        Some(d) => proto_scan(t, d, 16, false, false),
        None => false,
    }
}

/// The name of a C or C++ definition: none for a struct specifier inside a
/// `typedef` (the typedef carries the name) or for a prototype; else its
/// `name` field, else the name under its `declarator`; trimmed.
pub open spec fn c_name_of(t: &SyntaxTree, bytes: Seq<u8>, i: usize) -> Option<Seq<char>> {
    if t.kind_is(i, "struct_specifier"@) && (t.node(i).parent matches Some(p) && t.kind_is(
        p,
        "type_definition"@,
    )) {
        None
    } else if is_function_prototype(t, i) {
        None
    } else {
        match t.field_child(i, "name"@) {
            Some(n) => trimmed_text(t, bytes, n),
            None => match t.field_child(i, "declarator"@) {
                Some(d) => match declarator_name(t, d, 0) {
                    Some(n) => trimmed_text(t, bytes, n),
                    None => None,
                },
                None => None,
            },
        }
    }
}

fn name_kind(t: &SyntaxTree, j: usize) -> (r: bool)
    requires
        j < t.len(),
    ensures
        r == is_name_kind(t, j),
{
    t.kind_eq(j, "identifier") || t.kind_eq(j, "field_identifier") || t.kind_eq(j, "type_identifier")
        || t.kind_eq(j, "destructor_name") || t.kind_eq(j, "operator_name")
}

/// The name node under a declarator, as `declarator_name` states it.
pub fn find_declarator_name(t: &SyntaxTree, j: usize, depth: usize) -> (r: Option<usize>)
    requires
        j < t.len(),
        t.ends@.len() == t.nodes@.len(),
    ensures
        r == declarator_name(t, j, depth as nat),
        r matches Some(c) ==> c < t.len(),
    decreases 9 - depth,
{
    if depth > 8 {
        None
    } else if name_kind(t, j) {
        Some(j)
    } else if t.kind_eq(j, "parenthesized_declarator") {
        match t.named_child_at(j, 0) {
            Some(n) => find_declarator_name(t, n, depth + 1),
            None => None,
        }
    } else {
        match t.child_by_field_name(j, "declarator") {
            Some(d) => find_declarator_name(t, d, depth + 1),
            None => match t.named_child_at(j, 0) {
                Some(n) => find_declarator_name(t, n, depth + 1),
                None => None,
            },
        }
    }
}

/// Whether node `i` is a function prototype, as `is_function_prototype`
/// states it.
pub fn function_prototype(t: &SyntaxTree, i: usize) -> (r: bool)
    requires
        i < t.len(),
        t.ends@.len() == t.nodes@.len(),
    ensures
        r == is_function_prototype(t, i),
{
    if !t.kind_eq(i, "declaration") {
        return false;
    }
    let mut cur = match t.child_by_field_name(i, "declarator") {
        Some(d) => d,
        None => return false,
    };
    let mut has_fn = false;
    let mut has_parens = false;
    let mut steps: usize = 16;
    while steps > 0
        invariant
            cur < t.len(),
            t.ends@.len() == t.nodes@.len(),
            is_function_prototype(t, i) == proto_scan(t, cur, steps as nat, has_fn, has_parens),
        decreases steps,
    {
        if name_kind(t, cur) {
            return has_fn && !has_parens;
        }
        if t.kind_eq(cur, "function_declarator") {
            has_fn = true;
        }
        if t.kind_eq(cur, "parenthesized_declarator") {
            has_parens = true;
        }
        match t.child_by_field_name(cur, "declarator") {
            Some(n) => {
                cur = n;
            },
            None => return has_fn && !has_parens,
        }
        steps -= 1;
    }
    has_fn && !has_parens
}

/// The name of a C or C++ definition, as `c_name_of` states it.
pub fn c_symbol_name(t: &SyntaxTree, bytes: &[u8], i: usize) -> (r: Option<String>)
    requires
        tree_ok(t, bytes@),
        i < t.len(),
    ensures
        opt_view(r) == c_name_of(t, bytes@, i),
{
    if t.kind_eq(i, "struct_specifier") {
        if let Some(p) = t.nodes[i].parent {
            if t.kind_eq(p, "type_definition") {
                return None;
            }
        }
    }
    if function_prototype(t, i) {
        return None;
    }
    match t.child_by_field_name(i, "name") {
        Some(n) => node_text_trimmed(t, bytes, n),
        None => match t.child_by_field_name(i, "declarator") {
            Some(d) => match find_declarator_name(t, d, 0) {
                Some(n) => node_text_trimmed(t, bytes, n),
                None => None,
            },
            None => None,
        },
    }
}

impl CLang {
    /// A definition's name, as `c_name_of` states it.
    pub fn symbol_name(&self, t: &SyntaxTree, bytes: &[u8], i: usize) -> (r: Option<String>)
        requires
            tree_ok(t, bytes@),
            i < t.len(),
        ensures
            opt_view(r) == c_name_of(t, bytes@, i),
    {
        c_symbol_name(t, bytes, i)
    }
}

} // verus!
