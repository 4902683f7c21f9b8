//! The symbol engine's entry points: the outline of a source file, and the
//! original text of one symbol, found by name.

use vstd::prelude::*;
use vstd::utf8::*;
use crate::extract::{extract_symbols, definitions_from, describes, name_of, def_node, lemma_definitions_in_tree,
    lemma_def_node_in_tree, lemma_symbol_lines_ordered};
use crate::lang::{Lang, language_of_path};
use crate::language::{ParsedSource, SymbolError, parse, parsed_from, parses_fit};
use crate::symbol::Symbol;
use crate::syntax::{SyntaxTree, str_eq, utf8_string, span_text};

verus! {

/// The position, from `j` on, of the first of `defs` named `name`.
pub open spec fn first_def_named(l: Lang, t: &SyntaxTree, b: Seq<u8>, defs: Seq<usize>, name: Seq<char>, j: int) -> Option<int>
    decreases defs.len() - j,
{
    if j < 0 || j >= defs.len() {
        None
    } else if name_of(l, t, b, defs[j]) == Some(name) {
        Some(j)
    } else {
        first_def_named(l, t, b, defs, name, j + 1)
    }
}

/// What looking up `name` in `parsed` gives: `NotFound(name)` when no
/// definition is so named; else the text of the first so named, or a
/// `Parse` error exactly when its span is not valid UTF-8.
pub open spec fn slice_outcome(parsed: &ParsedSource, name: Seq<char>, r: Result<String, SymbolError>) -> bool {
    let l = parsed.language;
    let t = &parsed.syntax;
    let b = parsed.bytes();
    let defs = definitions_from(l, t, b, 0);
    match first_def_named(l, t, b, defs, name, 0) {
        None => r matches Err(SymbolError::NotFound(n)) && n@ == name,
        Some(k) => {
            let d = def_node(l, t, defs[k]);
            match span_text(b, t.node(d).start_byte as int, t.node(d).end_byte as int) {
                Some(text) => r matches Ok(x) && x@ == text,
                None => r matches Err(SymbolError::Parse(_)),
            }
        },
    }
}

/// `syms` lists the definitions of `parsed`, in order.
pub open spec fn lists_symbols(parsed: &ParsedSource, syms: Seq<Symbol>) -> bool {
    let defs = definitions_from(parsed.language, &parsed.syntax, parsed.bytes(), 0);
    &&& syms.len() == defs.len()
    &&& forall|k: int| 0 <= k < syms.len() ==> describes(#[trigger] syms[k], parsed.language, &parsed.syntax, parsed.bytes(), defs[k])
}

/// The text of the first symbol of `parsed` named `name`: its bytes of the
/// source, decoded. No such symbol is `NotFound(name)`; bytes that are not
/// valid UTF-8 are a `Parse` error.
pub fn slice_parsed(parsed: &ParsedSource, name: &str) -> (r: Result<String, SymbolError>)
    requires
        parsed.wf(),
        parsed.bytes().len() < usize::MAX,
    ensures
        slice_outcome(parsed, name@, r),
{
    let syms = extract_symbols(parsed);
    let ghost l = parsed.language;
    let ghost t = &parsed.syntax;
    let ghost b = parsed.bytes();
    let ghost defs = definitions_from(l, t, b, 0);
    let mut k: usize = 0;
    while k < syms.len()
        invariant
            syms@.len() == defs.len(),
            l == parsed.language,
            t == &parsed.syntax,
            b == parsed.bytes(),
            parsed.wf(),
            defs == definitions_from(l, t, b, 0),
            forall|j: int| 0 <= j < syms@.len() ==> describes(#[trigger] syms@[j], l, t, b, defs[j]),
            k <= syms@.len(),
            first_def_named(l, t, b, defs, name@, 0) == first_def_named(l, t, b, defs, name@, k as int),
        decreases syms@.len() - k,
    {
        assert(describes(syms@[k as int], l, t, b, defs[k as int]));
        if str_eq(syms[k].name.as_str(), name) {
            let bytes = parsed.source.as_str().as_bytes();
            let s = syms[k].byte_range.start;
            let e = syms[k].byte_range.end;
            proof {
                lemma_definitions_in_tree(l, t, b, 0);
                lemma_def_node_in_tree(l, t, b, defs[k as int]);
            }
            let v = crate::bytes::copy_bytes(bytes, s, e);
            return match utf8_string(v.as_slice()) {
                Ok(text) => {
                    proof {
                        encode_utf8_decode_utf8(text@);
                    }
                    Ok(text)
                },
                Err(m) => Err(SymbolError::Parse(m)),
            };
        }
        k += 1;
    }
    assert(first_def_named(l, t, b, defs, name@, k as int) is None);
    Err(SymbolError::NotFound(name.to_string()))
}

/// Locate a symbol by name and return its original source slice.
pub fn slice_by_name(source: &str, path: &str, name: &str) -> (r: Result<String, SymbolError>)
    requires
        encode_utf8(source@).len() < usize::MAX,
    ensures
        language_of_path(path@).is_none() ==> (r matches Err(SymbolError::UnsupportedLanguage(p))
            && p@ == path@),
        r matches Err(e) ==> e is UnsupportedLanguage || e is Parse || e is NotFound,
        !(r matches Err(SymbolError::UnsupportedLanguage(_))) && !(r matches Err(SymbolError::Parse(_)))
            ==> exists|p: ParsedSource|
            #[trigger] parsed_from(&p, path@, source@) && slice_outcome(&p, name@, r),
        language_of_path(path@) matches Some(l) && parses_fit(l, path@, source@) ==> exists|p: ParsedSource|
            #[trigger] parsed_from(&p, path@, source@) && slice_outcome(&p, name@, r),
{
    let parsed = parse(path, source)?;
    let r = slice_parsed(&parsed, name);
    assert(parsed_from(&parsed, path@, source@) && slice_outcome(&parsed, name@, r));
    r
}

/// The full outline (all symbols) of a source file.
pub fn outline(source: &str, path: &str) -> (r: Result<Vec<Symbol>, SymbolError>)
    requires
        encode_utf8(source@).len() < usize::MAX,
    ensures
        language_of_path(path@).is_none() ==> (r matches Err(SymbolError::UnsupportedLanguage(p))
            && p@ == path@),
        r matches Err(e) ==> e is UnsupportedLanguage || e is Parse,
        r matches Ok(syms) ==> exists|p: ParsedSource|
            #[trigger] parsed_from(&p, path@, source@) && lists_symbols(&p, syms@),
        language_of_path(path@) matches Some(l) && parses_fit(l, path@, source@) ==> r is Ok,
        r matches Ok(syms) ==> forall|k: int|
            0 <= k < syms@.len() ==> #[trigger] syms@[k].byte_range.start <= syms@[k].byte_range.end
                <= encode_utf8(source@).len() && 1 <= syms@[k].start_line <= syms@[k].end_line,
{
    let parsed = parse(path, source)?;
    let syms = extract_symbols(&parsed);
    proof {
        let defs = definitions_from(parsed.language, &parsed.syntax, parsed.bytes(), 0);
        assert forall|k: int| 0 <= k < syms@.len() implies #[trigger] syms@[k].byte_range.start
            <= syms@[k].byte_range.end <= encode_utf8(source@).len() && 1 <= syms@[k].start_line
            <= syms@[k].end_line by {
            assert(describes(syms@[k], parsed.language, &parsed.syntax, parsed.bytes(), defs[k]));
            lemma_definitions_in_tree(parsed.language, &parsed.syntax, parsed.bytes(), 0);
            lemma_def_node_in_tree(parsed.language, &parsed.syntax, parsed.bytes(), defs[k]);
            lemma_symbol_lines_ordered(
                &parsed.syntax,
                parsed.bytes(),
                defs[k],
                def_node(parsed.language, &parsed.syntax, defs[k]),
            );
        }
        assert(parsed_from(&parsed, path@, source@) && lists_symbols(&parsed, syms@));
    }
    Ok(syms)
}

} // verus!
