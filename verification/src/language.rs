//! Parsing a source into a syntax tree with the right grammar, and the
//! language-independent parts of symbol extraction.

use vstd::prelude::*;
use vstd::utf8::*;
use crate::lang::{Lang, detect_language, language_of_path, lang_name};
use crate::paths::{extension, extension_of};
use crate::syntax::{SyntaxTree, TsView, FlatNode, build_syntax_tree, str_eq, reads_tree, ts_tree_root, ts_tree_text,
    flat, clamp, tree_size, reads_node};
use crate::text::{chars_of, string_from, trim_start, skip_ws_forward};
use crate::syntax::span_text;

verus! {

#[verifier::external_type_specification]
#[verifier::external_body]
pub struct ExGrammar(tree_sitter::Language);

#[verifier::external_type_specification]
#[verifier::external_body]
pub struct ExParser(tree_sitter::Parser);

#[verifier::external_type_specification]
#[verifier::external_body]
pub struct ExLanguageError(tree_sitter::LanguageError);

#[verifier::external_type_specification]
#[verifier::external_body]
pub struct ExIoError(std::io::Error);

/// Errors returned by the symbol engine.
#[derive(Debug)]
pub enum SymbolError {
    UnsupportedLanguage(String),
    Parse(String),
    Io(std::io::Error),
    NotFound(String),
}

/// `std::io::Error`'s message.
#[verifier::external_body]
pub(crate) fn io_error_text(e: &std::io::Error) -> String {
    e.to_string()
}

impl SymbolError {
    /// The error's message.
    pub fn to_message(&self) -> (s: String)
        ensures
            self matches SymbolError::UnsupportedLanguage(p) ==> s@ == "unsupported language for path: "@
                + p@,
            self matches SymbolError::Parse(m) ==> s@ == "failed to parse source: "@ + m@,
            self matches SymbolError::NotFound(n) ==> s@ == "symbol not found: "@ + n@,
            self matches SymbolError::Io(_) ==> crate::seqs::starts_with(s@, "io error: "@),
    {
        let mut v: Vec<char> = Vec::new();
        match self {
            SymbolError::UnsupportedLanguage(p) => {
                crate::text::push_str(&mut v, "unsupported language for path: ");
                crate::text::push_str(&mut v, p.as_str());
            },
            SymbolError::Parse(m) => {
                crate::text::push_str(&mut v, "failed to parse source: ");
                crate::text::push_str(&mut v, m.as_str());
            },
            SymbolError::Io(e) => {
                crate::text::push_str(&mut v, "io error: ");
                let ghost head = v@;
                let t = io_error_text(e);
                crate::text::push_str(&mut v, t.as_str());
                assert(v@.take(head.len() as int) == head);
            },
            SymbolError::NotFound(n) => {
                crate::text::push_str(&mut v, "symbol not found: ");
                crate::text::push_str(&mut v, n.as_str());
            },
        }
        string_from(v.as_slice())
    }
}

/// The grammars the crate parses with.
#[derive(Debug, Clone, Copy, PartialEq, Eq, Structural)]
pub enum GrammarId {
    Rust,
    TypeScript,
    Tsx,
    Python,
    Go,
    JavaScript,
    Java,
    C,
    Cpp,
    CSharp,
    Ruby,
    Lua,
    Html,
    Css,
    Markdown,
}

/// Which bundled grammar a grammar value is; `None` for any other grammar.
pub uninterp spec fn ts_grammar(g: tree_sitter::Language) -> Option<GrammarId>;

/// The grammar a parser holds once one is set; `None` before that.
pub uninterp spec fn ts_parser_grammar(p: tree_sitter::Parser) -> Option<GrammarId>;

/// What a bundled grammar parses `text` into. A parse depends on the
/// grammar and the bytes alone: no timeout or cancellation is ever set.
pub uninterp spec fn ts_parse(g: GrammarId, text: Seq<u8>) -> TsView;

/// `tree_sitter_rust::LANGUAGE`.
#[verifier::external_body]
fn grammar_rust() -> (r: tree_sitter::Language)
    ensures
        ts_grammar(r) == Some(GrammarId::Rust),
{
    tree_sitter_rust::LANGUAGE.into()
}

/// `tree_sitter_typescript::LANGUAGE_TYPESCRIPT`.
#[verifier::external_body]
fn grammar_typescript() -> (r: tree_sitter::Language)
    ensures
        ts_grammar(r) == Some(GrammarId::TypeScript),
{
    tree_sitter_typescript::LANGUAGE_TYPESCRIPT.into()
}

/// `tree_sitter_typescript::LANGUAGE_TSX`.
#[verifier::external_body]
fn grammar_tsx() -> (r: tree_sitter::Language)
    ensures
        ts_grammar(r) == Some(GrammarId::Tsx),
{
    tree_sitter_typescript::LANGUAGE_TSX.into()
}

/// `tree_sitter_python::LANGUAGE`.
#[verifier::external_body]
fn grammar_python() -> (r: tree_sitter::Language)
    ensures
        ts_grammar(r) == Some(GrammarId::Python),
{
    tree_sitter_python::LANGUAGE.into()
}

/// `tree_sitter_go::LANGUAGE`.
#[verifier::external_body]
fn grammar_go() -> (r: tree_sitter::Language)
    ensures
        ts_grammar(r) == Some(GrammarId::Go),
{
    tree_sitter_go::LANGUAGE.into()
}

/// `tree_sitter_javascript::LANGUAGE`.
#[verifier::external_body]
fn grammar_javascript() -> (r: tree_sitter::Language)
    ensures
        ts_grammar(r) == Some(GrammarId::JavaScript),
{
    tree_sitter_javascript::LANGUAGE.into()
}

/// `tree_sitter_java::LANGUAGE`.
#[verifier::external_body]
fn grammar_java() -> (r: tree_sitter::Language)
    ensures
        ts_grammar(r) == Some(GrammarId::Java),
{
    tree_sitter_java::LANGUAGE.into()
}

/// `tree_sitter_c::LANGUAGE`.
#[verifier::external_body]
fn grammar_c() -> (r: tree_sitter::Language)
    ensures
        ts_grammar(r) == Some(GrammarId::C),
{
    tree_sitter_c::LANGUAGE.into()
}

/// `tree_sitter_cpp::LANGUAGE`.
#[verifier::external_body]
fn grammar_cpp() -> (r: tree_sitter::Language)
    ensures
        ts_grammar(r) == Some(GrammarId::Cpp),
{
    tree_sitter_cpp::LANGUAGE.into()
}

/// `tree_sitter_c_sharp::LANGUAGE`.
#[verifier::external_body]
fn grammar_csharp() -> (r: tree_sitter::Language)
    ensures
        ts_grammar(r) == Some(GrammarId::CSharp),
{
    tree_sitter_c_sharp::LANGUAGE.into()
}

/// `tree_sitter_ruby::LANGUAGE`.
#[verifier::external_body]
fn grammar_ruby() -> (r: tree_sitter::Language)
    ensures
        ts_grammar(r) == Some(GrammarId::Ruby),
{
    tree_sitter_ruby::LANGUAGE.into()
}

/// `tree_sitter_lua::LANGUAGE`.
#[verifier::external_body]
fn grammar_lua() -> (r: tree_sitter::Language)
    ensures
        ts_grammar(r) == Some(GrammarId::Lua),
{
    tree_sitter_lua::LANGUAGE.into()
}

/// `tree_sitter_html::LANGUAGE`.
#[verifier::external_body]
fn grammar_html() -> (r: tree_sitter::Language)
    ensures
        ts_grammar(r) == Some(GrammarId::Html),
{
    tree_sitter_html::LANGUAGE.into()
}

/// `tree_sitter_css::LANGUAGE`.
#[verifier::external_body]
fn grammar_css() -> (r: tree_sitter::Language)
    ensures
        ts_grammar(r) == Some(GrammarId::Css),
{
    tree_sitter_css::LANGUAGE.into()
}

/// `tree_sitter_md::LANGUAGE` (the block grammar).
#[verifier::external_body]
fn grammar_markdown() -> (r: tree_sitter::Language)
    ensures
        ts_grammar(r) == Some(GrammarId::Markdown),
{
    tree_sitter_md::LANGUAGE.into()
}

/// The grammar a language parses `path` with: TSX for `.tsx`, else the
/// language's one grammar.
pub open spec fn grammar_id(lang: Lang, path: Seq<char>) -> GrammarId {
    match lang {
        Lang::Rust => GrammarId::Rust,
        Lang::TypeScript => if extension(path) == Some("tsx"@) {
            GrammarId::Tsx
        } else {
            GrammarId::TypeScript
        },
        Lang::Python => GrammarId::Python,
        Lang::Go => GrammarId::Go,
        Lang::JavaScript => GrammarId::JavaScript,
        Lang::Java => GrammarId::Java,
        Lang::C => GrammarId::C,
        Lang::Cpp => GrammarId::Cpp,
        Lang::CSharp => GrammarId::CSharp,
        Lang::Ruby => GrammarId::Ruby,
        Lang::Lua => GrammarId::Lua,
        Lang::Html => GrammarId::Html,
        Lang::Css => GrammarId::Css,
        Lang::Markdown => GrammarId::Markdown,
    }
}

/// The grammar a language parses `path` with, as `grammar_id` states it.
fn grammar_for_path(lang: Lang, path: &str) -> (r: tree_sitter::Language)
    ensures
        ts_grammar(r) == Some(grammar_id(lang, path@)),
{
    match lang {
        Lang::Rust => grammar_rust(),
        Lang::TypeScript => {
            let tsx = match extension_of(path) {
                Some(e) => str_eq(e.as_str(), "tsx"),
                None => false,
            };
            if tsx {
                grammar_tsx()
            } else {
                grammar_typescript()
            }
        },
        Lang::Python => grammar_python(),
        Lang::Go => grammar_go(),
        Lang::JavaScript => grammar_javascript(),
        Lang::Java => grammar_java(),
        Lang::C => grammar_c(),
        Lang::Cpp => grammar_cpp(),
        Lang::CSharp => grammar_csharp(),
        Lang::Ruby => grammar_ruby(),
        Lang::Lua => grammar_lua(),
        Lang::Html => grammar_html(),
        Lang::Css => grammar_css(),
        Lang::Markdown => grammar_markdown(),
    }
}

/// `Parser::new`: a parser that holds no grammar yet.
#[verifier::external_body]
fn new_parser() -> (r: tree_sitter::Parser)
    ensures
        ts_parser_grammar(r) is None,
{
    tree_sitter::Parser::new()
}

/// `Parser::set_language`. It fails only for a grammar whose ABI version
/// lies outside 13..=15 or that cannot parse (compiled for WebAssembly);
/// the bundled grammars are of ABI 14 or 15 and native, so they are
/// always accepted, and the parser then holds the grammar.
#[verifier::external_body]
fn parser_set_language(p: &mut tree_sitter::Parser, g: &tree_sitter::Language) -> (r: Result<
    (),
    tree_sitter::LanguageError,
>)
    ensures
        ts_grammar(*g) is Some ==> r is Ok,
        r is Ok ==> ts_parser_grammar(*final(p)) == ts_grammar(*g),
{
    p.set_language(g)
}

/// `LanguageError`'s message.
#[verifier::external_body]
fn language_error_text(e: &tree_sitter::LanguageError) -> String {
    e.to_string()
}

/// `Parser::parse` of `text`, with no earlier tree. With a bundled grammar
/// set and no timeout or cancellation flag, it gives the tree that grammar
/// parses the bytes into.
#[verifier::external_body]
fn parser_parse(p: &mut tree_sitter::Parser, text: &[u8]) -> (r: Option<tree_sitter::Tree>)
    ensures
        r matches Some(t) ==> ts_tree_text(t) == text@,
        ts_parser_grammar(*old(p)) is Some ==> r is Some,
        ts_parser_grammar(*old(p)) matches Some(g) ==> (r matches Some(t) && ts_tree_root(t) == ts_parse(g, text@)),
{
    p.parse(text, None)
}

/// Parse `text` with one grammar: a bundled grammar always gives the tree
/// it parses the bytes into.
fn parse_tree(grammar: tree_sitter::Language, text: &[u8]) -> (r: Result<tree_sitter::Tree, SymbolError>)
    ensures
        r matches Ok(t) ==> ts_tree_text(t) == text@,
        ts_grammar(grammar) matches Some(g) ==> (r matches Ok(t) && ts_tree_root(t) == ts_parse(g, text@)),
        r matches Err(e) ==> e is Parse,
{
    let mut parser = new_parser();
    match parser_set_language(&mut parser, &grammar) {
        Ok(()) => {},
        Err(e) => return Err(SymbolError::Parse(language_error_text(&e))),
    }
    match parser_parse(&mut parser, text) {
        Some(t) => Ok(t),
        None => Err(SymbolError::Parse("tree-sitter returned no tree".to_string())),
    }
}

/// The error profile of a tree, from node `j` on: the bytes covered by
/// ERROR nodes and the number of ERROR and MISSING nodes. The subtree of
/// such a node is not looked into.
pub open spec fn metrics_from(t: &SyntaxTree, j: usize, bytes: nat, count: nat) -> (nat, nat)
    decreases t.len() - j,
{
    if j >= t.len() || t.end(j) <= j || t.end(j) > t.len() {
        (bytes, count)
    } else if t.node(j).error {
        metrics_from(
            t,
            t.end(j),
            bytes + (t.node(j).end_byte - t.node(j).start_byte) as nat,
            count + 1,
        )
    } else if t.node(j).missing {
        metrics_from(t, t.end(j), bytes, count + 1)
    } else {
        metrics_from(t, (j + 1) as usize, bytes, count)
    }
}

/// The error profile of a tree: ERROR bytes, then ERROR/MISSING nodes.
pub open spec fn error_metrics(t: &SyntaxTree) -> (nat, nat) {
    metrics_from(t, 0, 0, 0)
}

/// The error profile of a tree, as `error_metrics` states it.
fn tree_metrics(t: &SyntaxTree, src_len: usize) -> (r: (u128, usize))
    requires
        t.wf(src_len as nat),
    ensures
        r.0 as nat == error_metrics(t).0,
        r.1 as nat == error_metrics(t).1,
{
    let n = t.nodes.len();
    let mut j: usize = 0;
    let mut bytes: u128 = 0;
    let mut count: usize = 0;
    while j < n
        invariant
            n == t.nodes@.len() == t.ends@.len(),
            count <= j,
            bytes <= (j as u128) * (usize::MAX as u128),
            t.wf(src_len as nat),
            error_metrics(t) == metrics_from(t, j, bytes as nat, count as nat),
        decreases n - j,
    {
        let e = t.ends[j];
        assert(j < e <= n);
        assert((j as int) * (usize::MAX as int) <= (e as int) * (usize::MAX as int)) by (nonlinear_arith)
            requires
                j < e,
        ;
        let nd = &t.nodes[j];
        if nd.error {
            let w = nd.end_byte - nd.start_byte;
            assert(bytes + w <= (e as u128) * (usize::MAX as u128)) by (nonlinear_arith)
                requires
                    bytes <= (j as u128) * (usize::MAX as u128),
                    j < e,
                    w <= usize::MAX,
            ;
            assert((e as int) * (usize::MAX as int) <= u128::MAX) by (nonlinear_arith)
                requires
                    e <= usize::MAX,
            ;
            bytes = bytes + w as u128;
            count = count + 1;
            j = e;
        } else if nd.missing {
            count = count + 1;
            j = e;
        } else {
            assert((j as u128) * (usize::MAX as u128) <= ((j + 1) as u128) * (usize::MAX as u128))
                by (nonlinear_arith);
            j = j + 1;
        }
    }
    (bytes, count)
}

/// SAL-style annotation tokens (`_In_`, `_out_opt_`, ...).
pub const SAL_PATTERN: &'static str = r#"\b_(?:in|out|inout|ret)(?:_opt)?_\b"#;

/// An ALL-CAPS specifier macro at line start followed by two more words
/// (`SECUREC_INLINE void f()`); group 2 is the macro.
pub const SPECIFIER_PATTERN: &'static str = r#"(?m)^([ \t]*)([A-Z][A-Z0-9_]*)([ \t]+[A-Za-z_][A-Za-z0-9_]*)([ \t]+[A-Za-z_*&])"#;

/// A bare macro-style invocation alone on a line, without `;`.
pub const DECL_MACRO_PATTERN: &'static str = r#"(?m)^[ \t]*(__[A-Za-z0-9_]*|[A-Za-z_]*[A-Z][A-Za-z0-9_]*)[ \t]*\([^;\n]*\)[ \t]*$"#;

/// Constructs found only in C++.
pub const CPP_MARKER_PATTERN: &'static str = r#"::|\b(?:template|namespace|typename|constexpr|nullptr|override|decltype|static_cast|dynamic_cast|const_cast|reinterpret_cast|noexcept|virtual|explicit|friend)\b|enum[ \t]+class"#;

/// What `Regex::new(pattern)` and then `is_match(text)` give; `None` when
/// the pattern does not compile.
pub uninterp spec fn regex_is_match(pattern: Seq<char>, text: Seq<char>) -> Option<bool>;

/// The byte spans of the successive non-overlapping matches of `pattern`
/// in `text` (`find_iter`); `None` when the pattern does not compile.
pub uninterp spec fn regex_find_spans(pattern: Seq<char>, text: Seq<char>) -> Option<Seq<(usize, usize)>>;

/// For each successive match of `pattern` in `text` (`captures_iter`), the
/// byte span of capture group `group`, or `None` where the group took no
/// part in that match; `None` when the pattern does not compile.
pub uninterp spec fn regex_group_spans(pattern: Seq<char>, text: Seq<char>, group: usize) -> Option<
    Seq<Option<(usize, usize)>>,
>;

/// The spans that are present, in order.
pub open spec fn present_spans(s: Seq<Option<(usize, usize)>>) -> Seq<(usize, usize)>
    decreases s.len(),
{
    if s.len() == 0 {
        seq![]
    } else {
        match s[0] {
            Some(x) => seq![x] + present_spans(s.drop_first()),
            None => present_spans(s.drop_first()),
        }
    }
}

/// The spans of `v` that are present, in order.
fn present(v: &Vec<Option<(usize, usize)>>) -> (r: Vec<(usize, usize)>)
    ensures
        r@ == present_spans(v@),
{
    let mut out: Vec<(usize, usize)> = Vec::new();
    let mut k: usize = 0;
    assert(v@.skip(0) == v@);
    while k < v.len()
        invariant
            k <= v@.len(),
            present_spans(v@) == out@ + present_spans(v@.skip(k as int)),
        decreases v@.len() - k,
    {
        assert(v@.skip(k as int).drop_first() == v@.skip(k + 1));
        assert(v@.skip(k as int)[0] == v@[k as int]);
        let ghost old_out = out@;
        match v[k] {
            Some(x) => {
                out.push(x);
                assert(old_out + (seq![x] + present_spans(v@.skip(k + 1))) == out@ + present_spans(v@.skip(k + 1)));
            },
            None => {},
        }
        k += 1;
    }
    assert(v@.skip(v@.len() as int).len() == 0);
    assert(out@ + present_spans(v@.skip(k as int)) == out@);
    out
}

pub open spec fn opt_spans(o: Option<Vec<(usize, usize)>>) -> Option<Seq<(usize, usize)>> {
    match o {
        Some(v) => Some(v@),
        None => None,
    }
}

pub open spec fn opt_group_spans(o: Option<Vec<Option<(usize, usize)>>>) -> Option<Seq<Option<(usize, usize)>>> {
    match o {
        Some(v) => Some(v@),
        None => None,
    }
}

/// `Regex::new(pattern)`, then `is_match(text)`.
#[verifier::external_body]
fn regex_match(pattern: &str, text: &str) -> (r: Option<bool>)
    ensures
        r == regex_is_match(pattern@, text@),
{
    regex::Regex::new(pattern).ok().map(|re| re.is_match(text))
}

/// `Regex::new(pattern)`, then the spans of `find_iter(text)`.
#[verifier::external_body]
fn regex_find(pattern: &str, text: &str) -> (r: Option<Vec<(usize, usize)>>)
    ensures
        opt_spans(r) == regex_find_spans(pattern@, text@),
{
    regex::Regex::new(pattern).ok().map(|re| re.find_iter(text).map(|m| (m.start(), m.end())).collect())
}

/// `Regex::new(pattern)`, then the spans of group `group` over
/// `captures_iter(text)`.
#[verifier::external_body]
fn regex_group(pattern: &str, text: &str, group: usize) -> (r: Option<Vec<Option<(usize, usize)>>>)
    ensures
        opt_group_spans(r) == regex_group_spans(pattern@, text@, group),
{
    regex::Regex::new(pattern).ok().map(
        |re| re.captures_iter(text).map(|c| c.get(group).map(|g| (g.start(), g.end()))).collect(),
    )
}

/// The source has a construct found only in C++.
pub open spec fn looks_like_cpp(source: Seq<char>) -> bool {
    regex_is_match(CPP_MARKER_PATTERN@, source) == Some(true)
}

/// The source has a construct found only in C++.
fn looks_like_cpp_exec(source: &str) -> (r: bool)
    ensures
        r == looks_like_cpp(source@),
{
    match regex_match(CPP_MARKER_PATTERN, source) {
        Some(b) => b,
        None => false,
    }
}

/// `b` with the bytes in `s..e` other than CR and LF replaced by spaces.
pub open spec fn blank(b: Seq<u8>, s: int, e: int) -> Seq<u8> {
    Seq::new(b.len(), |k: int| if s <= k < e && b[k] != 10u8 && b[k] != 13u8 { 32u8 } else { b[k] })
}

/// Index of the last LF in `b[..s]`, or -1.
pub open spec fn last_lf_before(b: Seq<u8>, s: int) -> int
    decreases s,
{
    if s <= 0 {
        -1
    } else if b[s - 1] == 10u8 {
        s - 1
    } else {
        last_lf_before(b, s - 1)
    }
}

/// The match at byte `s` sits on a preprocessor directive line: the line's
/// text before it starts, after whitespace, with `#`.
pub open spec fn in_directive(src: Seq<u8>, s: int) -> bool {
    match span_text(src, last_lf_before(src, s) + 1, s) {
        Some(p) => trim_start(p).len() > 0 && trim_start(p)[0] == '#',
        None => false,
    }
}

/// The code after byte `e` starts, after whitespace, with `:` or `{`
/// (a constructor's initializer list or body).
pub open spec fn continues_as_definition(src: Seq<u8>, e: int) -> bool {
    match span_text(src, e, src.len() as int) {
        Some(r) => trim_start(r).len() > 0 && (trim_start(r)[0] == ':' || trim_start(r)[0] == '{'),
        None => false,
    }
}

/// Blank each annotation span of `spans` in `out` unless it sits on a
/// directive line of `src`.
pub open spec fn mask_sal(src: Seq<u8>, out: Seq<u8>, spans: Seq<(usize, usize)>) -> Seq<u8>
    decreases spans.len(),
{
    if spans.len() == 0 {
        out
    } else {
        let (s, e) = spans[0];
        mask_sal(
            src,
            if s <= e <= src.len() && !in_directive(src, s as int) {
                blank(out, s as int, e as int)
            } else {
                out
            },
            spans.drop_first(),
        )
    }
}

/// Blank each macro-invocation span of `spans` in `out` unless a
/// definition continues after it.
pub open spec fn mask_decl(src: Seq<u8>, out: Seq<u8>, spans: Seq<(usize, usize)>) -> Seq<u8>
    decreases spans.len(),
{
    if spans.len() == 0 {
        out
    } else {
        let (s, e) = spans[0];
        mask_decl(
            src,
            if s <= e <= src.len() && !continues_as_definition(src, e as int) {
                blank(out, s as int, e as int)
            } else {
                out
            },
            spans.drop_first(),
        )
    }
}

/// Blank every in-bounds span of `spans` in `out`.
pub open spec fn blank_all(out: Seq<u8>, spans: Seq<(usize, usize)>) -> Seq<u8>
    decreases spans.len(),
{
    if spans.len() == 0 {
        out
    } else {
        let (s, e) = spans[0];
        blank_all(
            if s <= e <= out.len() {
                blank(out, s as int, e as int)
            } else {
                out
            },
            spans.drop_first(),
        )
    }
}

/// Up to `fuel` passes blanking specifier macros, until a pass finds none.
pub open spec fn mask_specifiers(out: Seq<u8>, fuel: nat) -> Seq<u8>
    decreases fuel,
{
    if fuel == 0 || !valid_utf8(out) {
        out
    } else {
        match regex_group_spans(SPECIFIER_PATTERN@, decode_utf8(out), 2) {
            Some(sp) => if present_spans(sp).len() == 0 {
                out
            } else {
                mask_specifiers(blank_all(out, present_spans(sp)), (fuel - 1) as nat)
            },
            None => out,
        }
    }
}

pub open spec fn spans_or_none(o: Option<Seq<(usize, usize)>>) -> Seq<(usize, usize)> {
    match o {
        Some(s) => s,
        None => seq![],
    }
}

/// The length-preserving mask over a C/C++ source that blanks the
/// annotation macros the grammars cannot parse.
pub open spec fn masked_source(source: Seq<char>) -> Seq<u8> {
    let src = encode_utf8(source);
    let a = mask_sal(src, src, spans_or_none(regex_find_spans(SAL_PATTERN@, source)));
    let b = mask_decl(src, a, spans_or_none(regex_find_spans(DECL_MACRO_PATTERN@, source)));
    mask_specifiers(b, src.len())
}

/// Blank `out[s..e]`, keeping CR and LF.
fn blank_range(out: &mut Vec<u8>, s: usize, e: usize)
    requires
        s <= e <= old(out)@.len(),
    ensures
        final(out)@ == blank(old(out)@, s as int, e as int),
{
    let ghost orig = out@;
    let mut k = s;
    while k < e
        invariant
            s <= k <= e <= out@.len(),
            orig.len() == out@.len(),
            forall|m: int| 0 <= m < out@.len() ==> #[trigger] out@[m] == if s <= m < k && orig[m] != 10u8 && orig[m] != 13u8 {
                32u8
            } else {
                orig[m]
            },
        decreases e - k,
    {
        if out[k] != 10u8 && out[k] != 13u8 {
            out.set(k, 32u8);
        }
        k += 1;
    }
    assert(out@ == blank(orig, s as int, e as int));
}

fn last_lf(b: &[u8], s: usize) -> (r: usize)
    requires
        s <= b@.len(),
    ensures
        r as int == last_lf_before(b@, s as int) + 1,
        r <= s,
{
    let mut k = s;
    while k > 0 && b[k - 1] != 10u8
        invariant
            k <= s <= b@.len(),
            last_lf_before(b@, s as int) == last_lf_before(b@, k as int),
        decreases k,
    {
        k -= 1;
    }
    k
}

/// The first non-whitespace character of `b[lo..hi]` decoded, when valid.
fn first_non_ws(b: &[u8], lo: usize, hi: usize) -> (r: Option<char>)
    requires
        lo <= hi <= b@.len(),
    ensures
        match span_text(b@, lo as int, hi as int) {
            Some(p) => r == if trim_start(p).len() > 0 {
                Some(trim_start(p)[0])
            } else {
                None::<char>
            },
            None => r.is_none(),
        },
{
    let v = crate::bytes::copy_bytes(b, lo, hi);
    match crate::syntax::utf8_string(v.as_slice()) {
        Err(_) => None,
        Ok(s) => {
            proof {
                encode_utf8_decode_utf8(s@);
            }
            let cs = chars_of(s.as_str());
            let k = skip_ws_forward(cs.as_slice(), 0, cs.len());
            assert(cs@.subrange(0, cs@.len() as int) == cs@);
            if k < cs.len() {
                assert(trim_start(cs@)[0] == cs@[k as int]);
                Some(cs[k])
            } else {
                None
            }
        },
    }
}

/// Length-preserving mask over C/C++ sources: blanks annotation macros that
/// the grammars cannot parse, so the rest of the file parses cleanly. Only
/// bytes other than CR and LF become spaces, so every byte offset stays
/// valid against the original source.
pub fn mask_annotations(source: &str) -> (r: Vec<u8>)
    ensures
        r@ == masked_source(source@),
{
    let src = source.as_bytes();
    let len = src.len();
    let mut out: Vec<u8> = crate::bytes::copy_bytes(src, 0, len);
    assert(src@.subrange(0, len as int) == src@);
    let sal = match regex_find(SAL_PATTERN, source) {
        Some(v) => v,
        None => Vec::new(),
    };
    assert(sal@.skip(0) == sal@);
    let mut k: usize = 0;
    while k < sal.len()
        invariant
            src@ == encode_utf8(source@),
            len == src@.len(),
            k <= sal@.len(),
            sal@ == spans_or_none(regex_find_spans(SAL_PATTERN@, source@)),
            out@.len() == len,
            mask_sal(src@, src@, sal@) == mask_sal(src@, out@, sal@.skip(k as int)),
        decreases sal@.len() - k,
    {
        let (s, e) = sal[k];
        let ghost before = out@;
        if s <= e && e <= len {
            let ls = last_lf(src, s);
            let c = first_non_ws(src, ls, s);
            let directive = match c {
                Some(ch) => ch == '#',
                None => false,
            };
            if !directive {
                blank_range(&mut out, s, e);
            }
        }
        proof {
            assert(sal@.skip(k as int).drop_first() == sal@.skip(k + 1));
            assert(sal@.skip(k as int)[0] == sal@[k as int]);
        }
        k += 1;
    }
    let decl = match regex_find(DECL_MACRO_PATTERN, source) {
        Some(v) => v,
        None => Vec::new(),
    };
    let ghost after_sal = out@;
    proof {
        assert(sal@.skip(sal@.len() as int) =~= Seq::<(usize, usize)>::empty());
        assert(decl@.skip(0) == decl@);
    }
    let mut k: usize = 0;
    while k < decl.len()
        invariant
            src@ == encode_utf8(source@),
            len == src@.len(),
            k <= decl@.len(),
            out@.len() == len,
            after_sal == mask_sal(src@, src@, spans_or_none(regex_find_spans(SAL_PATTERN@, source@))),
            decl@ == spans_or_none(regex_find_spans(DECL_MACRO_PATTERN@, source@)),
            mask_decl(src@, after_sal, decl@) == mask_decl(src@, out@, decl@.skip(k as int)),
        decreases decl@.len() - k,
    {
        let (s, e) = decl[k];
        if s <= e && e <= len {
            let c = first_non_ws(src, e, len);
            let cont = match c {
                Some(ch) => ch == ':' || ch == '{',
                None => false,
            };
            if !cont {
                blank_range(&mut out, s, e);
            }
        }
        proof {
            assert(decl@.skip(k as int).drop_first() == decl@.skip(k + 1));
            assert(decl@.skip(k as int)[0] == decl@[k as int]);
        }
        k += 1;
    }
    proof {
        assert(decl@.skip(decl@.len() as int) =~= Seq::<(usize, usize)>::empty());
    }
    let mut fuel: usize = len;
    assert(masked_source(source@) == mask_specifiers(out@, fuel as nat));
    loop
        invariant
            out@.len() == len,
            masked_source(source@) == mask_specifiers(out@, fuel as nat),
        decreases fuel,
    {
        if fuel == 0 {
            return out;
        }
        let text = match crate::syntax::utf8_string(out.as_slice()) {
            Ok(t) => t,
            Err(_) => return out,
        };
        proof {
            encode_utf8_decode_utf8(text@);
        }
        let spans = match regex_group(SPECIFIER_PATTERN, text.as_str(), 2) {
            Some(v) => present(&v),
            None => return out,
        };
        if spans.len() == 0 {
            return out;
        }
        let ghost start = out@;
        proof {
            assert(spans@.skip(0) == spans@);
        }
        let mut k: usize = 0;
        while k < spans.len()
            invariant
                out@.len() == len,
                k <= spans@.len(),
                blank_all(start, spans@) == blank_all(out@, spans@.skip(k as int)),
            decreases spans@.len() - k,
        {
            let (s, e) = spans[k];
            if s <= e && e <= len {
                blank_range(&mut out, s, e);
            }
            proof {
                assert(spans@.skip(k as int).drop_first() == spans@.skip(k + 1));
                assert(spans@.skip(k as int)[0] == spans@[k as int]);
            }
            k += 1;
        }
        proof {
            assert(spans@.skip(spans@.len() as int) =~= Seq::<(usize, usize)>::empty());
        }
        fuel -= 1;
    }
}

/// A parsed source: the parser's tree, its plain reading, the source text,
/// and the language that parsed it.
pub struct ParsedSource {
    pub tree: tree_sitter::Tree,
    pub syntax: SyntaxTree,
    pub source: String,
    pub language: Lang,
}

impl ParsedSource {
    /// The source's UTF-8 bytes.
    pub open spec fn bytes(&self) -> Seq<u8> {
        encode_utf8(self.source@)
    }

    /// The tree reading is well-formed over the source's bytes.
    pub open spec fn wf(&self) -> bool {
        self.syntax.wf(self.bytes().len())
    }
}

/// The file is a C header (`.h`), which may hold C++.
pub open spec fn is_header(lang: Lang, path: Seq<char>) -> bool {
    lang == Lang::C && extension(path) == Some("h"@)
}

/// `(a, b) < (c, d)`, lexicographically.
pub open spec fn metrics_lt(x: (nat, nat), y: (nat, nat)) -> bool {
    x.0 < y.0 || (x.0 == y.0 && x.1 < y.1)
}

fn lt(x: (u128, usize), y: (u128, usize)) -> (r: bool)
    ensures
        r == metrics_lt((x.0 as nat, x.1 as nat), (y.0 as nat, y.1 as nat)),
{
    x.0 < y.0 || (x.0 == y.0 && x.1 < y.1)
}

/// The error profile of a laid-out tree, from position `j` on, as
/// `metrics_from` reads it off the tree's reading over `n` source bytes.
pub open spec fn flat_metrics_from(f: Seq<FlatNode>, n: nat, j: int, bytes: nat, count: nat) -> (nat, nat)
    decreases f.len() - j,
{
    if j < 0 || j >= f.len() || f[j].end <= j || f[j].end > f.len() {
        (bytes, count)
    } else if f[j].error {
        let s = clamp(f[j].start_byte, n);
        let e = if f[j].end_byte < s { s } else { clamp(f[j].end_byte, n) };
        flat_metrics_from(f, n, f[j].end as int, bytes + (e - s) as nat, count + 1)
    } else if f[j].missing {
        flat_metrics_from(f, n, f[j].end as int, bytes, count + 1)
    } else {
        flat_metrics_from(f, n, j + 1, bytes, count)
    }
}

/// The error profile of the tree whose root holds `v`, over `n` source
/// bytes: ERROR bytes, then ERROR/MISSING nodes.
pub open spec fn view_metrics(v: TsView, n: nat) -> (nat, nat) {
    flat_metrics_from(flat(v, None, None, 0), n, 0, 0, 0)
}

proof fn lemma_metrics_of_reading(t: &SyntaxTree, v: TsView, n: nat, j: usize, bytes: nat, count: nat)
    requires
        reads_tree(t, v, n),
        t.wf(n),
    ensures
        metrics_from(t, j, bytes, count) == flat_metrics_from(flat(v, None, None, 0), n, j as int, bytes, count),
    decreases t.len() - j,
{
    let f = flat(v, None, None, 0);
    if j < t.len() {
        assert(reads_node(t.nodes@[j as int], f[j as int], n));
        assert(t.end(j) == f[j as int].end);
        if t.end(j) <= j || t.end(j) > t.len() {
        } else if t.node(j).error {
            lemma_metrics_of_reading(
                t,
                v,
                n,
                t.end(j),
                bytes + (t.node(j).end_byte - t.node(j).start_byte) as nat,
                count + 1,
            );
        } else if t.node(j).missing {
            lemma_metrics_of_reading(t, v, n, t.end(j), bytes, count + 1);
        } else {
            lemma_metrics_of_reading(t, v, n, (j + 1) as usize, bytes, count);
        }
    }
}

/// The tree whose root holds `v` fits the reading's positions.
pub open spec fn fits(v: TsView) -> bool {
    tree_size(v) < usize::MAX - 1
}

/// One parse with `lang`'s grammar, read into a tree: the tree the grammar
/// parses `text` into, with its error profile; it is owed whenever the tree
/// fits the reading's positions.
fn parse_with(lang: Lang, path: &str, text: &[u8], src_len: usize) -> (r: Result<
    (tree_sitter::Tree, SyntaxTree, (u128, usize)),
    SymbolError,
>)
    ensures
        r matches Ok((tree, syn, m)) ==> {
            &&& syn.wf(src_len as nat)
            &&& ts_tree_text(tree) == text@
            &&& ts_tree_root(tree) == ts_parse(grammar_id(lang, path@), text@)
            &&& reads_tree(&syn, ts_tree_root(tree), src_len as nat)
            &&& (m.0 as nat, m.1 as nat) == view_metrics(ts_parse(grammar_id(lang, path@), text@), src_len as nat)
        },
        fits(ts_parse(grammar_id(lang, path@), text@)) ==> r is Ok,
        r matches Err(e) ==> e is Parse,
{
    let tree = parse_tree(grammar_for_path(lang, path), text)?;
    let syn = match build_syntax_tree(&tree, src_len) {
        Some(syn) => syn,
        None => return Err(SymbolError::Parse("syntax tree too large".to_string())),
    };
    let m = tree_metrics(&syn, src_len);
    proof {
        lemma_metrics_of_reading(&syn, ts_tree_root(tree), src_len as nat, 0, 0, 0);
    }
    Ok((tree, syn, m))
}

/// The error profile of the parse of `text` with `l`'s grammar.
pub open spec fn parse_metrics(l: Lang, path: Seq<char>, text: Seq<u8>, n: nat) -> (nat, nat) {
    view_metrics(ts_parse(grammar_id(l, path), text), n)
}

/// A clean error profile.
pub open spec fn is_clean(m: (nat, nat)) -> bool {
    m.0 == 0 && m.1 == 0
}

/// The parse kept for `source` at `path` in language `lang`: the language
/// it is read in and the bytes it is parsed from. A `.h` holding a
/// C++-only construct is read as C++; another header whose C parse has
/// errors is also parsed as C++, and the better error profile (fewer
/// error bytes, then fewer error nodes; ties keep the first) wins; when
/// the best parse still has errors, the annotation-masked bytes are parsed
/// the same way and win only where strictly better.
pub open spec fn chosen_parse(lang: Lang, path: Seq<char>, source: Seq<char>) -> (Lang, Seq<u8>) {
    let b = encode_utf8(source);
    let mk = masked_source(source);
    let n = b.len();
    let is_h = is_header(lang, path);
    let force = is_h && looks_like_cpp(source);
    let primary = if force { Lang::Cpp } else { lang };
    let m1 = parse_metrics(primary, path, b, n);
    let c2 = if !force && is_h && !is_clean(m1) && metrics_lt(parse_metrics(Lang::Cpp, path, b, n), m1) {
        (Lang::Cpp, b)
    } else {
        (primary, b)
    };
    let m2 = parse_metrics(c2.0, path, c2.1, n);
    if is_clean(m2) {
        c2
    } else {
        let c3 = if metrics_lt(parse_metrics(primary, path, mk, n), m2) {
            (primary, mk)
        } else {
            c2
        };
        let m3 = parse_metrics(c3.0, path, c3.1, n);
        if !force && is_h && metrics_lt(parse_metrics(Lang::Cpp, path, mk, n), m3) {
            (Lang::Cpp, mk)
        } else {
            c3
        }
    }
}

/// Every parse `parse` may make of `source` fits the reading's positions.
pub open spec fn parses_fit(lang: Lang, path: Seq<char>, source: Seq<char>) -> bool {
    let b = encode_utf8(source);
    let mk = masked_source(source);
    &&& fits(ts_parse(grammar_id(lang, path), b))
    &&& fits(ts_parse(grammar_id(lang, path), mk))
    &&& fits(ts_parse(GrammarId::Cpp, b))
    &&& fits(ts_parse(GrammarId::Cpp, mk))
}

/// Pick the parse of a C/C++ source as `chosen_parse` states it; other
/// languages are parsed once, masked bytes only when that parse has errors.
fn parse_ambiguous(path: &str, source: &str, lang: Lang) -> (r: Result<
    (Lang, tree_sitter::Tree, SyntaxTree),
    SymbolError,
>)
    ensures
        r matches Ok((l, tree, syn)) ==> {
            &&& syn.wf(encode_utf8(source@).len())
            &&& (l, ts_tree_text(tree)) == chosen_parse(lang, path@, source@)
            &&& ts_tree_root(tree) == ts_parse(grammar_id(l, path@), ts_tree_text(tree))
            &&& reads_tree(&syn, ts_tree_root(tree), encode_utf8(source@).len())
        },
        parses_fit(lang, path@, source@) ==> r is Ok,
        r matches Err(e) ==> e is Parse,
{
    let bytes = source.as_bytes();
    let len = bytes.len();
    let ghost b = encode_utf8(source@);
    let ghost n = len as nat;
    let is_h = match lang {
        Lang::C => match extension_of(path) {
            Some(e) => str_eq(e.as_str(), "h"),
            None => false,
        },
        _ => false,
    };
    assert(is_h == is_header(lang, path@)) by {
        reveal_strlit("h");
    }
    let force_cpp = is_h && looks_like_cpp_exec(source);
    let primary = if force_cpp {
        Lang::Cpp
    } else {
        lang
    };
    assert(grammar_id(Lang::Cpp, path@) == GrammarId::Cpp);
    let (tree, syn, m) = parse_with(primary, path, bytes, len)?;
    let mut best_lang = primary;
    let mut best_tree = tree;
    let mut best_syn = syn;
    let mut best_m = m;
    let ghost mut best_text = b;
    if !force_cpp && !(best_m.0 == 0 && best_m.1 == 0) && is_h {
        let (tree, syn, m) = parse_with(Lang::Cpp, path, bytes, len)?;
        if lt(m, best_m) {
            best_lang = Lang::Cpp;
            best_tree = tree;
            best_syn = syn;
            best_m = m;
        }
    }
    assert((best_lang, best_text) == ({
        let m1 = parse_metrics(primary, path@, b, n);
        if !force_cpp && is_h && !is_clean(m1) && metrics_lt(parse_metrics(Lang::Cpp, path@, b, n), m1) {
            (Lang::Cpp, b)
        } else {
            (primary, b)
        }
    }));
    if !(best_m.0 == 0 && best_m.1 == 0) {
        let masked = mask_annotations(source);
        let (tree, syn, m) = parse_with(primary, path, masked.as_slice(), len)?;
        if lt(m, best_m) {
            best_lang = primary;
            best_tree = tree;
            best_syn = syn;
            best_m = m;
            proof {
                best_text = masked@;
            }
        }
        if !force_cpp && is_h {
            let (tree, syn, m) = parse_with(Lang::Cpp, path, masked.as_slice(), len)?;
            if lt(m, best_m) {
                best_lang = Lang::Cpp;
                best_tree = tree;
                best_syn = syn;
                best_m = m;
                proof {
                    best_text = masked@;
                }
            }
        }
    }
    Ok((best_lang, best_tree, best_syn))
}

/// `p` parses `source` for `path`: the parse `chosen_parse` keeps for the
/// path's language, read node for node.
pub open spec fn parsed_from(p: &ParsedSource, path: Seq<char>, source: Seq<char>) -> bool {
    &&& p.source@ == source
    &&& p.wf()
    &&& language_of_path(path) matches Some(lang) && (p.language, ts_tree_text(p.tree)) == chosen_parse(
        lang,
        path,
        source,
    )
    &&& ts_tree_root(p.tree) == ts_parse(grammar_id(p.language, path), ts_tree_text(p.tree))
    &&& reads_tree(&p.syntax, ts_tree_root(p.tree), p.bytes().len())
}

/// Parse source text with the grammar for the given path: the parse
/// `chosen_parse` keeps, read node for node. A path whose language is
/// unknown is an `UnsupportedLanguage` error naming the path; for a known
/// one the parse succeeds whenever its trees fit the reading's positions.
pub fn parse(path: &str, source: &str) -> (r: Result<ParsedSource, SymbolError>)
    ensures
        language_of_path(path@).is_none() ==> (r matches Err(SymbolError::UnsupportedLanguage(p))
            && p@ == path@),
        r matches Err(SymbolError::UnsupportedLanguage(_)) ==> language_of_path(path@).is_none(),
        r matches Err(e) ==> e is UnsupportedLanguage || e is Parse,
        r matches Ok(p) ==> parsed_from(&p, path@, source@),
        language_of_path(path@) matches Some(l) && parses_fit(l, path@, source@) ==> r is Ok,
{
    let lang = match detect_language(path) {
        Some(l) => l,
        None => return Err(SymbolError::UnsupportedLanguage(path.to_string())),
    };
    let (l, tree, syn) = parse_ambiguous(path, source, lang)?;
    Ok(ParsedSource { tree, syntax: syn, source: source.to_string(), language: l })
}

/// Number of ERROR/MISSING nodes in the tree, the subtrees of such nodes
/// not looked into (0 = clean parse).
pub fn parse_error_count(parsed: &ParsedSource) -> (r: usize)
    requires
        parsed.wf(),
    ensures
        r as nat == error_metrics(&parsed.syntax).1,
{
    let src = parsed.source.as_str().as_bytes();
    let m = tree_metrics(&parsed.syntax, src.len());
    m.1
}

} // verus!
