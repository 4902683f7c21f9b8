//! The HTML backend: elements carrying an `id` attribute are the symbols,
//! named by the id's value. `.htm` is accepted alongside `.html`.

use vstd::prelude::*;
use crate::lang::HtmlLang;
use crate::lang::util::{opt_view, tree_ok, child_of_kind, find_child_of_kind, strip_leading,
    strip_trailing, strip_leading_str, strip_trailing_str, trim_str};
use crate::syntax::{SyntaxTree, str_eq};
use crate::text::trim;

verus! {

/// The start tag of element `i`: its first `start_tag` or
/// `self_closing_tag` child.
pub open spec fn start_tag_from(t: &SyntaxTree, i: usize, j: usize) -> Option<usize>
    decreases t.end(i) - j,
{
    if !t.child_at(i, j) {
        None
    } else if t.kind_is(j, "start_tag"@) || t.kind_is(j, "self_closing_tag"@) {
        Some(j)
    } else {
        start_tag_from(t, i, t.end(j))
    }
}

/// An attribute value with surrounding whitespace and quotes removed.
pub open spec fn clean_value(x: Seq<char>) -> Seq<char> {
    trim(strip_trailing(strip_leading(trim(x), '"', '\''), '"', '\''))
}

/// The `id` value among the attributes of start tag `st`, from child `j`
/// on. An attribute whose name is not valid text, or an `id` without a
/// value or with an empty one, ends the search with nothing.
pub open spec fn id_from(t: &SyntaxTree, bytes: Seq<u8>, st: usize, j: usize) -> Option<Seq<char>>
    decreases t.end(st) - j,
{
    if !t.child_at(st, j) {
        None
    } else if !t.kind_is(j, "attribute"@) {
        id_from(t, bytes, st, t.end(j))
    } else {
        match t.named_child(j, 0) {
            None => id_from(t, bytes, st, t.end(j)),
            Some(nm) => match t.text(bytes, nm) {
                None => None,
                Some(name) => if name != "id"@ {
                    id_from(t, bytes, st, t.end(j))
                } else {
                    match t.named_child(j, 1) {
                        None => None,
                        Some(v) => match t.text(bytes, v) {
                            None => None,
                            Some(x) => if clean_value(x).len() == 0 {
                                None
                            } else {
                                Some(clean_value(x))
                            },
                        },
                    }
                },
            },
        }
    }
}

fn find_start_tag(t: &SyntaxTree, i: usize) -> (r: Option<usize>)
    requires
        i < t.len(),
        t.ends@.len() == t.nodes@.len(),
    ensures
        r == (if i < usize::MAX {
            start_tag_from(t, i, (i + 1) as usize)
        } else {
            None
        }),
        r matches Some(c) ==> c < t.len(),
{
    if i == usize::MAX {
        return None;
    }
    let mut j = i + 1;
    loop
        invariant
            i < t.len(),
            t.ends@.len() == t.nodes@.len(),
            start_tag_from(t, i, (i + 1) as usize) == start_tag_from(t, i, j),
        decreases t.end(i) - j,
    {
        let end_i = t.ends[i];
        if !(j < end_i && j < t.nodes.len() && t.ends[j] > j && t.ends[j] <= end_i) {
            return None;
        }
        if t.kind_eq(j, "start_tag") || t.kind_eq(j, "self_closing_tag") {
            return Some(j);
        }
        j = t.ends[j];
    }
}

impl HtmlLang {
    /// An element's name: the value of the `id` attribute of its start tag.
    pub open spec fn name_of(t: &SyntaxTree, bytes: Seq<u8>, i: usize) -> Option<Seq<char>> {
        match if i < usize::MAX {
            start_tag_from(t, i, (i + 1) as usize)
        } else {
            None
        } {
            Some(st) => if st < usize::MAX {
                id_from(t, bytes, st, (st + 1) as usize)
            } else {
                None
            },
            None => None,
        }
    }

    /// An element's name, as `name_of` states it.
    pub fn symbol_name(&self, t: &SyntaxTree, bytes: &[u8], i: usize) -> (r: Option<String>)
        requires
            tree_ok(t, bytes@),
            i < t.len(),
        ensures
            opt_view(r) == Self::name_of(t, bytes@, i),
    {
        let st = match find_start_tag(t, i) {
            Some(st) => st,
            None => return None,
        };
        if st == usize::MAX {
            return None;
        }
        let mut k = st + 1;
        loop
            invariant
                st < t.len(),
                tree_ok(t, bytes@),
                Self::name_of(t, bytes@, i) == id_from(t, bytes@, st, k),
            decreases t.end(st) - k,
        {
            let end_st = t.ends[st];
            if !(k < end_st && k < t.nodes.len() && t.ends[k] > k && t.ends[k] <= end_st) {
                return None;
            }
            if t.kind_eq(k, "attribute") {
                if let Some(nm) = t.named_child_at(k, 0) {
                    let name = match t.node_text(bytes, nm) {
                        Some(n) => n,
                        None => return None,
                    };
                    if str_eq(name.as_str(), "id") {
                        let v = match t.named_child_at(k, 1) {
                            Some(v) => v,
                            None => return None,
                        };
                        let x = match t.node_text(bytes, v) {
                            Some(x) => x,
                            None => return None,
                        };
                        let a = trim_str(x.as_str());
                        let b = strip_leading_str(a.as_str(), '"', '\'');
                        let c = strip_trailing_str(b.as_str(), '"', '\'');
                        let d = trim_str(c.as_str());
                        if d.as_str().is_empty() {
                            return None;
                        }
                        return Some(d);
                    }
                }
            }
            k = t.ends[k];
        }
    }
}

} // verus!
