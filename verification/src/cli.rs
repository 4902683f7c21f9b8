//! The command line's own rules: exit errors, kind names, line-range
//! arguments, number grouping, and the check that keeps `exec` from being
//! handed a shell pipeline.

use vstd::prelude::*;
use crate::deps::DepKind;
use crate::language::SymbolError;
use crate::seqs::{index_of, lemma_index_of, split_on};
use crate::signature::find_char;
use crate::symbol::SymbolKind;
use crate::syntax::str_eq;
use vstd::string::StringSliceAdditionalSpecFns;
use crate::text::{chars_of, string_from, push_str, push_all, decimal, decimal_chars, trim,
    trim_bounds, copy_range};

verus! {

/// The exit code `exec` reports for a child: 128 plus the signal that
/// killed it, else its own code, else 1.
pub fn exit_code_of(signal: Option<i32>, code: Option<i32>) -> (r: i32)
    requires
        signal matches Some(sig) ==> sig <= i32::MAX - 128,
    ensures
        r == match signal {
            Some(sig) => 128 + sig,
            None => match code {
                Some(c) => c as int,
                None => 1,
            },
        },
{
    match signal {
        Some(sig) => 128 + sig,
        None => match code {
            Some(c) => c,
            None => 1,
        },
    }
}

/// Seconds an `exec` child may run before it is killed.
pub const EXEC_TIMEOUT_SECS: u64 = 30;

/// An error carrying the exit code the command line reports.
#[derive(Debug)]
pub struct ExitError {
    pub code: u8,
    pub message: String,
}

impl ExitError {
    pub fn new(code: u8, message: String) -> (r: Self)
        ensures
            r.code == code,
            r.message@ == message@,
    {
        ExitError { code, message }
    }
}

/// Symbol kinds accepted by `symbol --kind`.
#[derive(Debug, Clone, Copy, PartialEq, Eq, Structural)]
pub enum SymbolKindArg {
    Class,
    Struct,
    Enum,
    Interface,
    Function,
    Method,
    Module,
    Const,
    Variable,
    Trait,
    Type,
    Heading,
    Rule,
    Element,
}

impl SymbolKindArg {
    pub open spec fn kind(self) -> SymbolKind {
        match self {
            SymbolKindArg::Class => SymbolKind::Class,
            SymbolKindArg::Struct => SymbolKind::Struct,
            SymbolKindArg::Enum => SymbolKind::Enum,
            SymbolKindArg::Interface => SymbolKind::Interface,
            SymbolKindArg::Function => SymbolKind::Function,
            SymbolKindArg::Method => SymbolKind::Method,
            SymbolKindArg::Module => SymbolKind::Module,
            SymbolKindArg::Const => SymbolKind::Const,
            SymbolKindArg::Variable => SymbolKind::Variable,
            SymbolKindArg::Trait => SymbolKind::Trait,
            SymbolKindArg::Type => SymbolKind::Type,
            SymbolKindArg::Heading => SymbolKind::Heading,
            SymbolKindArg::Rule => SymbolKind::Rule,
            SymbolKindArg::Element => SymbolKind::Element,
        }
    }

    /// The symbol kind this argument names.
    pub fn to_symbol_kind(self) -> (k: SymbolKind)
        ensures
            k == self.kind(),
    {
        match self {
            SymbolKindArg::Class => SymbolKind::Class,
            SymbolKindArg::Struct => SymbolKind::Struct,
            SymbolKindArg::Enum => SymbolKind::Enum,
            SymbolKindArg::Interface => SymbolKind::Interface,
            SymbolKindArg::Function => SymbolKind::Function,
            SymbolKindArg::Method => SymbolKind::Method,
            SymbolKindArg::Module => SymbolKind::Module,
            SymbolKindArg::Const => SymbolKind::Const,
            SymbolKindArg::Variable => SymbolKind::Variable,
            SymbolKindArg::Trait => SymbolKind::Trait,
            SymbolKindArg::Type => SymbolKind::Type,
            SymbolKindArg::Heading => SymbolKind::Heading,
            SymbolKindArg::Rule => SymbolKind::Rule,
            SymbolKindArg::Element => SymbolKind::Element,
        }
    }
}

/// The kind's name in the JSON contract.
pub open spec fn kind_name_spec(kind: SymbolKind) -> Seq<char> {
    match kind {
        SymbolKind::Class => "class"@,
        SymbolKind::Function => "function"@,
        SymbolKind::Method => "method"@,
        SymbolKind::Struct => "struct"@,
        SymbolKind::Enum => "enum"@,
        SymbolKind::Interface => "interface"@,
        SymbolKind::Const => "const"@,
        SymbolKind::Variable => "var"@,
        SymbolKind::Trait => "trait"@,
        SymbolKind::Type => "type"@,
        SymbolKind::Module => "module"@,
        SymbolKind::Heading => "heading"@,
        SymbolKind::Rule => "rule"@,
        SymbolKind::Element => "element"@,
    }
}

/// The kind's name in the JSON contract.
pub fn kind_name(kind: SymbolKind) -> (r: &'static str)
    ensures
        r@ == kind_name_spec(kind),
{
    match kind {
        SymbolKind::Class => "class",
        SymbolKind::Function => "function",
        SymbolKind::Method => "method",
        SymbolKind::Struct => "struct",
        SymbolKind::Enum => "enum",
        SymbolKind::Interface => "interface",
        SymbolKind::Const => "const",
        SymbolKind::Variable => "var",
        SymbolKind::Trait => "trait",
        SymbolKind::Type => "type",
        SymbolKind::Module => "module",
        SymbolKind::Heading => "heading",
        SymbolKind::Rule => "rule",
        SymbolKind::Element => "element",
    }
}

/// The kind's short name in text outlines.
pub open spec fn kind_alias_spec(kind: SymbolKind) -> Seq<char> {
    match kind {
        SymbolKind::Class => "class"@,
        SymbolKind::Function => "fn"@,
        SymbolKind::Method => "method"@,
        SymbolKind::Struct => "struct"@,
        SymbolKind::Enum => "enum"@,
        SymbolKind::Interface => "interface"@,
        SymbolKind::Const => "const"@,
        SymbolKind::Variable => "var"@,
        SymbolKind::Trait => "trait"@,
        SymbolKind::Type => "type"@,
        SymbolKind::Module => "mod"@,
        SymbolKind::Heading => "head"@,
        SymbolKind::Rule => "rule"@,
        SymbolKind::Element => "elem"@,
    }
}

/// The kind's short name in text outlines.
pub fn kind_alias(kind: SymbolKind) -> (r: &'static str)
    ensures
        r@ == kind_alias_spec(kind),
{
    match kind {
        SymbolKind::Class => "class",
        SymbolKind::Function => "fn",
        SymbolKind::Method => "method",
        SymbolKind::Struct => "struct",
        SymbolKind::Enum => "enum",
        SymbolKind::Interface => "interface",
        SymbolKind::Const => "const",
        SymbolKind::Variable => "var",
        SymbolKind::Trait => "trait",
        SymbolKind::Type => "type",
        SymbolKind::Module => "mod",
        SymbolKind::Heading => "head",
        SymbolKind::Rule => "rule",
        SymbolKind::Element => "elem",
    }
}

/// The name of a dependency kind.
pub fn dep_kind_name(kind: DepKind) -> (r: &'static str)
    ensures
        r@ == match kind {
            DepKind::Local => "local"@,
            DepKind::External => "external"@,
            DepKind::Ignored => "ignored"@,
        },
{
    match kind {
        DepKind::Local => "local",
        DepKind::External => "external",
        DepKind::Ignored => "ignored",
    }
}

/// `symbol --kind` values, by name.
pub open spec fn kind_arg_named(raw: Seq<char>) -> Option<SymbolKindArg> {
    if raw == "class"@ {
        Some(SymbolKindArg::Class)
    } else if raw == "struct"@ {
        Some(SymbolKindArg::Struct)
    } else if raw == "enum"@ {
        Some(SymbolKindArg::Enum)
    } else if raw == "interface"@ {
        Some(SymbolKindArg::Interface)
    } else if raw == "function"@ {
        Some(SymbolKindArg::Function)
    } else if raw == "method"@ {
        Some(SymbolKindArg::Method)
    } else if raw == "module"@ {
        Some(SymbolKindArg::Module)
    } else if raw == "const"@ {
        Some(SymbolKindArg::Const)
    } else if raw == "var"@ {
        Some(SymbolKindArg::Variable)
    } else if raw == "trait"@ {
        Some(SymbolKindArg::Trait)
    } else if raw == "type"@ {
        Some(SymbolKindArg::Type)
    } else if raw == "heading"@ {
        Some(SymbolKindArg::Heading)
    } else if raw == "rule"@ {
        Some(SymbolKindArg::Rule)
    } else if raw == "element"@ {
        Some(SymbolKindArg::Element)
    } else {
        None
    }
}

/// The `symbol --kind` value named `raw`.
pub fn parse_kind(raw: &str) -> (r: Option<SymbolKindArg>)
    ensures
        r == kind_arg_named(raw@),
{
    if str_eq(raw, "class") {
        Some(SymbolKindArg::Class)
    } else if str_eq(raw, "struct") {
        Some(SymbolKindArg::Struct)
    } else if str_eq(raw, "enum") {
        Some(SymbolKindArg::Enum)
    } else if str_eq(raw, "interface") {
        Some(SymbolKindArg::Interface)
    } else if str_eq(raw, "function") {
        Some(SymbolKindArg::Function)
    } else if str_eq(raw, "method") {
        Some(SymbolKindArg::Method)
    } else if str_eq(raw, "module") {
        Some(SymbolKindArg::Module)
    } else if str_eq(raw, "const") {
        Some(SymbolKindArg::Const)
    } else if str_eq(raw, "var") {
        Some(SymbolKindArg::Variable)
    } else if str_eq(raw, "trait") {
        Some(SymbolKindArg::Trait)
    } else if str_eq(raw, "type") {
        Some(SymbolKindArg::Type)
    } else if str_eq(raw, "heading") {
        Some(SymbolKindArg::Heading)
    } else if str_eq(raw, "rule") {
        Some(SymbolKindArg::Rule)
    } else if str_eq(raw, "element") {
        Some(SymbolKindArg::Element)
    } else {
        None
    }
}

/// Percentage of `before` saved when `after` is delivered, rounded down;
/// 0 when nothing was there.
pub open spec fn saved_percent_of(before: nat, after: nat) -> nat {
    if before == 0 {
        0
    } else {
        (((before - if after < before {
            after
        } else {
            before
        }) * 100) as int / (before as int)) as nat
    }
}

/// Percentage of `before` saved when `after` is delivered.
pub fn saved_pct(before: usize, after: usize) -> (r: u32)
    ensures
        r as nat == saved_percent_of(before as nat, after as nat),
        r <= 100,
{
    if before == 0 {
        return 0;
    }
    let a = if after < before {
        after
    } else {
        before
    };
    let d = (before - a) as u128;
    let b = before as u128;
    assert(d * 100 <= b * 100) by (nonlinear_arith)
        requires
            d <= b,
    ;
    assert(((d * 100) as int) / (b as int) <= 100) by (nonlinear_arith)
        requires
            d <= b,
            b > 0,
    ;
    let q = (d * 100) / b;
    q as u32
}

/// Decimal digits `d` with a comma before each group of three counted from
/// the right: the first `k` digits of it.
pub open spec fn grouped_prefix(d: Seq<char>, k: nat) -> Seq<char>
    decreases k,
{
    if k == 0 {
        seq![]
    } else {
        let i = (k - 1) as int;
        let before = grouped_prefix(d, (k - 1) as nat);
        (if i > 0 && (d.len() - i) % 3 == 0 {
            before.push(',')
        } else {
            before
        }).push(d[i])
    }
}

/// The decimal form of `n` with thousands separated by commas.
pub open spec fn grouped(n: nat) -> Seq<char> {
    grouped_prefix(decimal(n), decimal(n).len())
}

/// `n` in decimal with thousands separated by commas (`12,345`).
pub fn group(n: usize) -> (r: String)
    ensures
        r@ == grouped(n as nat),
{
    let d = decimal_chars(n);
    let len = d.len();
    let mut out: Vec<char> = Vec::new();
    let mut i: usize = 0;
    while i < len
        invariant
            i <= len == d@.len(),
            d@ == decimal(n as nat),
            out@ == grouped_prefix(d@, i as nat),
        decreases len - i,
    {
        if i > 0 && (len - i) % 3 == 0 {
            out.push(',');
        }
        out.push(d[i]);
        i += 1;
    }
    string_from(out.as_slice())
}

/// Value of a run of ASCII digits.
pub open spec fn digits_value(d: Seq<char>) -> nat
    decreases d.len(),
{
    if d.len() == 0 {
        0
    } else {
        10 * digits_value(d.drop_last()) + ((d.last() as u32 - '0' as u32) as nat)
    }
}

pub open spec fn is_digit(c: char) -> bool {
    '0' <= c && c <= '9'
}

/// `s` without a leading `+`.
pub open spec fn unsigned_digits(s: Seq<char>) -> Seq<char> {
    if s.len() > 0 && s[0] == '+' {
        s.drop_first()
    } else {
        s
    }
}

/// Every character of `d` is an ASCII digit.
pub open spec fn all_digits(d: Seq<char>) -> bool {
    forall|i: int| 0 <= i < d.len() ==> is_digit(#[trigger] d[i])
}

/// `usize::from_str`: an optional `+` and then one or more ASCII digits
/// whose value fits in `usize`.
pub open spec fn parsed_usize(s: Seq<char>) -> Option<nat> {
    let d = unsigned_digits(s);
    if d.len() == 0 || !all_digits(d) {
        None
    } else if digits_value(d) > usize::MAX {
        None
    } else {
        Some(digits_value(d))
    }
}

/// Parse `v[lo..hi]` as `usize::from_str` does.
pub fn parse_usize(v: &[char], lo: usize, hi: usize) -> (r: Option<usize>)
    requires
        lo <= hi <= v@.len(),
    ensures
        match r {
            Some(n) => parsed_usize(v@.subrange(lo as int, hi as int)) == Some(n as nat),
            None => parsed_usize(v@.subrange(lo as int, hi as int)).is_none(),
        },
{
    let ghost s = v@.subrange(lo as int, hi as int);
    let start = if lo < hi && v[lo] == '+' {
        lo + 1
    } else {
        lo
    };
    let ghost d = unsigned_digits(s);
    proof {
        if lo < hi {
            assert(s[0] == v@[lo as int]);
        }
        assert(d == v@.subrange(start as int, hi as int));
    }
    if start == hi {
        return None;
    }
    let mut k = start;
    let mut val: usize = 0;
    let mut over = false;
    while k < hi
        invariant
            start <= k <= hi <= v@.len(),
            d == v@.subrange(start as int, hi as int),
            s == v@.subrange(lo as int, hi as int),
            d == unsigned_digits(s),
            forall|i: int| start <= i < k ==> is_digit(#[trigger] v@[i]),
            !over ==> val as nat == digits_value(v@.subrange(start as int, k as int)),
            over ==> digits_value(v@.subrange(start as int, k as int)) > usize::MAX,
        decreases hi - k,
    {
        let c = v[k];
        if !('0' <= c && c <= '9') {
            assert(d[k - start] == c);
            assert(!is_digit(d[k - start]));
            return None;
        }
        let dig = (c as u32 - '0' as u32) as usize;
        let ghost pre = v@.subrange(start as int, k as int);
        let ghost next = v@.subrange(start as int, k + 1);
        assert(next.drop_last() == pre);
        assert(next.last() == c);
        assert(digits_value(next) == 10 * digits_value(pre) + dig);
        if !over {
            if val > (usize::MAX - dig) / 10 {
                over = true;
                assert(10 * val + dig > usize::MAX) by (nonlinear_arith)
                    requires
                        val > (usize::MAX - dig) / 10,
                        dig <= 9,
                ;
            } else {
                assert(10 * val + dig <= usize::MAX) by (nonlinear_arith)
                    requires
                        val <= (usize::MAX - dig) / 10,
                        dig <= 9,
                ;
                val = 10 * val + dig;
            }
        } else {
            assert(digits_value(next) >= digits_value(pre)) by (nonlinear_arith)
                requires
                    digits_value(next) == 10 * digits_value(pre) + dig,
            ;
        }
        k += 1;
    }
    assert forall|i: int| 0 <= i < d.len() implies is_digit(#[trigger] d[i]) by {
        assert(d[i] == v@[start + i]);
    }
    assert(v@.subrange(start as int, k as int) == d);
    if over {
        None
    } else {
        Some(val)
    }
}

/// One 1-based inclusive range token (`N`, `N-M` or `N-`), as the
/// command line reads it; an open end is `usize::MAX`.
pub open spec fn range_of(tok: Seq<char>) -> Result<(nat, nat), Seq<char>> {
    let k = index_of(tok, '-');
    let ss = if k < tok.len() {
        trim(tok.take(k))
    } else {
        tok
    };
    let es = if k < tok.len() {
        trim(tok.skip(k + 1))
    } else {
        tok
    };
    let invalid = "invalid range `"@ + tok + "`"@;
    match parsed_usize(ss) {
        None => Err(invalid),
        Some(start) => if start == 0 {
            Err("ranges are 1-based; start must be >= 1"@)
        } else {
            let end = if es.len() == 0 {
                Some(usize::MAX as nat)
            } else {
                parsed_usize(es)
            };
            match end {
                None => Err(invalid),
                Some(end) => if start > end {
                    Err("range "@ + decimal(start) + "-"@ + decimal(end) + " is inverted"@)
                } else {
                    Ok((start, end))
                },
            }
        },
    }
}

fn push_decimal(v: &mut Vec<char>, n: usize)
    ensures
        final(v)@ == old(v)@ + decimal(n as nat),
{
    let d = decimal_chars(n);
    push_all(v, d.as_slice());
}

/// One range token, as `range_of` states it.
pub fn parse_range(tok: &str) -> (r: Result<(usize, usize), String>)
    ensures
        match r {
            Ok((a, b)) => range_of(tok@) == Ok::<(nat, nat), Seq<char>>((a as nat, b as nat)),
            Err(m) => range_of(tok@) == Err::<(nat, nat), Seq<char>>(m@),
        },
{
    let v = chars_of(tok);
    let n = v.len();
    let k = find_char(v.as_slice(), 0, n, '-');
    assert(v@.subrange(0, n as int) == v@);
    let (s0, s1, e0, e1) = if k < n {
        let (a, b) = trim_bounds(v.as_slice(), 0, k);
        let (c, d) = trim_bounds(v.as_slice(), k + 1, n);
        assert(v@.take(k as int) == v@.subrange(0, k as int));
        assert(v@.skip(k + 1) == v@.subrange(k + 1, n as int));
        (a, b, c, d)
    } else {
        (0, n, 0, n)
    };
    let mut invalid: Vec<char> = Vec::new();
    push_str(&mut invalid, "invalid range `");
    push_str(&mut invalid, tok);
    push_str(&mut invalid, "`");
    let start = match parse_usize(v.as_slice(), s0, s1) {
        Some(x) => x,
        None => return Err(string_from(invalid.as_slice())),
    };
    if start == 0 {
        return Err("ranges are 1-based; start must be >= 1".to_string());
    }
    let end = if e0 == e1 {
        usize::MAX
    } else {
        match parse_usize(v.as_slice(), e0, e1) {
            Some(x) => x,
            None => return Err(string_from(invalid.as_slice())),
        }
    };
    if start > end {
        let mut m: Vec<char> = Vec::new();
        push_str(&mut m, "range ");
        push_decimal(&mut m, start);
        push_str(&mut m, "-");
        push_decimal(&mut m, end);
        push_str(&mut m, " is inverted");
        return Err(string_from(m.as_slice()));
    }
    Ok((start, end))
}

/// The trimmed, non-empty ones among `pieces`.
pub open spec fn range_tokens(pieces: Seq<Seq<char>>) -> Seq<Seq<char>>
    decreases pieces.len(),
{
    if pieces.len() == 0 {
        seq![]
    } else if trim(pieces.last()).len() == 0 {
        range_tokens(pieces.drop_last())
    } else {
        range_tokens(pieces.drop_last()).push(trim(pieces.last()))
    }
}

/// The ranges of `toks`, or the error of the first that fails.
pub open spec fn ranges_of(toks: Seq<Seq<char>>) -> Result<Seq<(nat, nat)>, Seq<char>>
    decreases toks.len(),
{
    if toks.len() == 0 {
        Ok(seq![])
    } else {
        match ranges_of(toks.drop_last()) {
            Err(e) => Err(e),
            Ok(rs) => match range_of(toks.last()) {
                Err(e) => Err(e),
                Ok(r) => Ok(rs.push(r)),
            },
        }
    }
}

/// Comma-separated ranges (blank entries ignored); none at all is an error.
pub open spec fn line_ranges(raw: Seq<char>) -> Result<Seq<(nat, nat)>, Seq<char>> {
    let toks = range_tokens(split_on(raw, ','));
    if toks.len() == 0 {
        Err("empty line range"@)
    } else {
        ranges_of(toks)
    }
}

pub open spec fn nat_pairs(v: Seq<(usize, usize)>) -> Seq<(nat, nat)> {
    v.map_values(|p: (usize, usize)| (p.0 as nat, p.1 as nat))
}

proof fn lemma_ranges_prefix_error(toks: Seq<Seq<char>>, k: int, e: Seq<char>)
    requires
        0 <= k <= toks.len(),
        ranges_of(toks.take(k)) == Err::<Seq<(nat, nat)>, Seq<char>>(e),
    ensures
        ranges_of(toks) == Err::<Seq<(nat, nat)>, Seq<char>>(e),
    decreases toks.len() - k,
{
    if k < toks.len() {
        assert(toks.take(k + 1).drop_last() == toks.take(k));
        lemma_ranges_prefix_error(toks, k + 1, e);
    } else {
        assert(toks.take(k) == toks);
    }
}

/// Parse comma-separated, 1-based inclusive ranges: `100-150,200-210`,
/// `42`, or `10-` (open-ended, to `usize::MAX`).
pub fn parse_ranges(raw: &str) -> (r: Result<Vec<(usize, usize)>, String>)
    ensures
        match r {
            Ok(v) => line_ranges(raw@) == Ok::<Seq<(nat, nat)>, Seq<char>>(nat_pairs(v@)),
            Err(m) => line_ranges(raw@) == Err::<Seq<(nat, nat)>, Seq<char>>(m@),
        },
{
    let v = chars_of(raw);
    let len = v.len();
    let mut toks: Vec<String> = Vec::new();
    let mut start: usize = 0;
    let ghost mut done: Seq<Seq<char>> = seq![];
    proof {
        assert(v@.skip(0) == v@);
        assert(done + split_on(v@, ',') =~= split_on(v@, ','));
        assert(toks@.map_values(|s: String| s@) =~= range_tokens(done));
    }
    loop
        invariant_except_break
            done + split_on(v@.skip(start as int), ',') == split_on(v@, ','),
        invariant
            start <= len == v@.len(),
            v@ == raw@,
            toks@.map_values(|s: String| s@) == range_tokens(done),
        ensures
            done == split_on(v@, ','),
        decreases len - start,
    {
        let ghost t = v@.skip(start as int);
        assert(t == v@.subrange(start as int, len as int));
        let end = find_char(v.as_slice(), start, len, ',');
        let ghost piece = v@.subrange(start as int, end as int);
        proof {
            lemma_index_of(t, ',');
            assert(t.take(end - start) == piece);
            if end < len {
                assert(t.skip(end - start + 1) == v@.skip(end + 1));
                assert(split_on(t, ',') == seq![piece] + split_on(v@.skip(end + 1), ','));
            } else {
                assert(t.take(end - start) == t);
                assert(split_on(t, ',') == seq![piece]);
            }
            assert(done.push(piece).drop_last() == done);
            assert(done.push(piece).last() == piece);
        }
        let (a, b) = trim_bounds(v.as_slice(), start, end);
        let ghost before = toks@.map_values(|s: String| s@);
        if a < b {
            let w = copy_range(v.as_slice(), a, b);
            toks.push(string_from(w.as_slice()));
            assert(toks@.map_values(|s: String| s@) =~= before.push(trim(piece)));
        }
        proof {
            done = done.push(piece);
        }
        if end == len {
            assert(done == split_on(v@, ','));
            break;
        }
        proof {
            assert(done + split_on(v@.skip(end + 1), ',') == split_on(v@, ','));
        }
        start = end + 1;
    }
    let ghost tv = toks@.map_values(|s: String| s@);
    assert(tv == range_tokens(split_on(raw@, ',')));
    if toks.len() == 0 {
        return Err("empty line range".to_string());
    }
    let mut out: Vec<(usize, usize)> = Vec::new();
    let mut k: usize = 0;
    assert(tv.take(0) =~= Seq::<Seq<char>>::empty());
    assert(nat_pairs(out@) =~= Seq::<(nat, nat)>::empty());
    while k < toks.len()
        invariant
            k <= toks@.len(),
            tv == toks@.map_values(|s: String| s@),
            tv == range_tokens(split_on(raw@, ',')),
            tv.len() > 0,
            ranges_of(tv.take(k as int)) == Ok::<Seq<(nat, nat)>, Seq<char>>(nat_pairs(out@)),
        decreases toks@.len() - k,
    {
        assert(tv.take(k + 1).drop_last() == tv.take(k as int));
        assert(tv.take(k + 1).last() == toks@[k as int]@);
        match parse_range(toks[k].as_str()) {
            Ok(p) => {
                let ghost before = out@;
                out.push(p);
                assert(nat_pairs(out@) =~= nat_pairs(before).push((p.0 as nat, p.1 as nat)));
            },
            Err(m) => {
                proof {
                    lemma_ranges_prefix_error(tv, k + 1, m@);
                }
                return Err(m);
            },
        }
        k += 1;
    }
    assert(tv.take(tv.len() as int) == tv);
    Ok(out)
}

/// Open ends resolved: each range's end is at most `limit`.
pub fn clamp_open_ends(ranges: Vec<(usize, usize)>, limit: usize) -> (r: Vec<(usize, usize)>)
    ensures
        r@.len() == ranges@.len(),
        forall|k: int|
            0 <= k < r@.len() ==> #[trigger] r@[k] == (ranges@[k].0, if ranges@[k].1 < limit {
                ranges@[k].1
            } else {
                limit
            }),
{
    let mut out: Vec<(usize, usize)> = Vec::new();
    let mut k: usize = 0;
    while k < ranges.len()
        invariant
            k <= ranges@.len(),
            out@.len() == k,
            forall|j: int|
                0 <= j < k ==> #[trigger] out@[j] == (ranges@[j].0, if ranges@[j].1 < limit {
                    ranges@[j].1
                } else {
                    limit
                }),
        decreases ranges@.len() - k,
    {
        let (s, e) = ranges[k];
        out.push((s, if e < limit { e } else { limit }));
        k += 1;
    }
    out
}

/// Number of lines of `s` as `split_inclusive('\n')` yields them.
pub open spec fn line_count(s: Seq<char>) -> nat
    decreases s.len(),
{
    if s.len() == 0 {
        0
    } else if index_of(s, '\n') < s.len() {
        proof {
            lemma_index_of(s, '\n');
        }
        1 + line_count(s.skip(index_of(s, '\n') + 1))
    } else {
        1
    }
}

/// Offset where line `k` (0-based) of `s` starts; `s.len()` past the last.
pub open spec fn line_start(s: Seq<char>, k: nat) -> int
    decreases k,
{
    if k == 0 {
        0
    } else {
        let p = line_start(s, (k - 1) as nat);
        if 0 <= p <= s.len() && p + index_of(s.skip(p), '\n') < s.len() {
            p + index_of(s.skip(p), '\n') + 1
        } else {
            s.len() as int
        }
    }
}

proof fn lemma_line_start_bounds(s: Seq<char>, k: nat)
    ensures
        0 <= line_start(s, k) <= s.len(),
    decreases k,
{
    if k > 0 {
        lemma_line_start_bounds(s, (k - 1) as nat);
        let p = line_start(s, (k - 1) as nat);
        lemma_index_of(s.skip(p), '\n');
    }
}

/// Offset where line `k` (0-based) of `v` starts.
fn line_offset(v: &[char], k: usize) -> (r: usize)
    ensures
        r as int == line_start(v@, k as nat),
{
    let n = v.len();
    let mut p: usize = 0;
    let mut i: usize = 0;
    while i < k
        invariant
            i <= k,
            n == v@.len(),
            p as int == line_start(v@, i as nat),
            p <= n,
        decreases k - i,
    {
        let e = find_char(v, p, n, '\n');
        assert(v@.skip(p as int) == v@.subrange(p as int, n as int));
        proof {
            lemma_index_of(v@.skip(p as int), '\n');
        }
        p = if e < n {
            e + 1
        } else {
            n
        };
        i += 1;
    }
    p
}

/// Number of lines of `v`.
fn count_lines(v: &[char]) -> (r: usize)
    ensures
        r == line_count(v@),
        r <= v@.len(),
{
    let n = v.len();
    let mut p: usize = 0;
    let mut c: usize = 0;
    assert(v@.skip(0) == v@);
    while p < n
        invariant
            p <= n == v@.len(),
            c <= p,
            line_count(v@) == c + line_count(v@.skip(p as int)),
        decreases n - p,
    {
        let e = find_char(v, p, n, '\n');
        let ghost t = v@.skip(p as int);
        assert(t == v@.subrange(p as int, n as int));
        proof {
            lemma_index_of(t, '\n');
        }
        if e < n {
            assert(t.skip(e - p + 1) == v@.skip(e + 1));
            p = e + 1;
        } else {
            assert(v@.skip(n as int).len() == 0);
            p = n;
        }
        c += 1;
    }
    assert(v@.skip(n as int).len() == 0);
    c
}

/// Lines `start..=end` (1-based, inclusive) of `text`, line endings kept:
/// the range must be single; its end is clamped to the text's lines, and
/// its start must not lie past them.
pub open spec fn lines_slice(text: Seq<char>, range: Seq<char>) -> Result<Seq<char>, Seq<char>> {
    match line_ranges(range) {
        Err(e) => Err(e),
        Ok(rs) => if rs.len() > 1 {
            Err("symbol --lines accepts a single range (e.g. 3-10)"@)
        } else {
            let n = line_count(text);
            let s = rs[0].0;
            let e = if rs[0].1 < n {
                rs[0].1
            } else {
                n
            };
            if s > n {
                Err(
                    "line range "@ + decimal(s) + "-"@ + decimal(e) + " out of bounds (symbol has "@
                        + decimal(n) + " lines)"@,
                )
            } else {
                Ok(text.subrange(line_start(text, (s - 1) as nat), line_start(text, e)))
            }
        },
    }
}

/// Slice 1-based inclusive line numbers out of a multi-line text, as
/// `lines_slice` states it.
pub fn slice_lines(text: &str, range: &str) -> (r: Result<String, String>)
    ensures
        match r {
            Ok(t) => lines_slice(text@, range@) == Ok::<Seq<char>, Seq<char>>(t@),
            Err(m) => lines_slice(text@, range@) == Err::<Seq<char>, Seq<char>>(m@),
        },
{
    let ranges = parse_ranges(range)?;
    if ranges.len() > 1 {
        return Err("symbol --lines accepts a single range (e.g. 3-10)".to_string());
    }
    let v = chars_of(text);
    let n = count_lines(v.as_slice());
    let (s, e0) = ranges[0];
    let e = if e0 < n {
        e0
    } else {
        n
    };
    if s > n {
        let mut m: Vec<char> = Vec::new();
        push_str(&mut m, "line range ");
        push_decimal(&mut m, s);
        push_str(&mut m, "-");
        push_decimal(&mut m, e);
        push_str(&mut m, " out of bounds (symbol has ");
        push_decimal(&mut m, n);
        push_str(&mut m, " lines)");
        return Err(string_from(m.as_slice()));
    }
    let a = line_offset(v.as_slice(), s - 1);
    let b = line_offset(v.as_slice(), e);
    proof {
        lemma_line_start_bounds(v@, (s - 1) as nat);
        lemma_line_start_bounds(v@, e as nat);
        lemma_line_start_mono(v@, (s - 1) as nat, e as nat);
    }
    let w = copy_range(v.as_slice(), a, b);
    Ok(string_from(w.as_slice()))
}

/// Ranges with their ends clamped to `n` lines.
pub open spec fn clamped(rs: Seq<(nat, nat)>, n: nat) -> Seq<(nat, nat)> {
    rs.map_values(|r: (nat, nat)| (r.0, if r.1 < n { r.1 } else { n }))
}

/// The first range that starts past the last of `n` lines.
pub open spec fn first_past_end(rs: Seq<(nat, nat)>, n: nat) -> Option<(nat, nat)>
    decreases rs.len(),
{
    if rs.len() == 0 {
        None
    } else if rs[0].0 > n {
        Some(rs[0])
    } else {
        first_past_end(rs.drop_first(), n)
    }
}

/// The lines `s..=e` (1-based) of `text`, line endings kept.
pub open spec fn lines_between(text: Seq<char>, s: nat, e: nat) -> Seq<char> {
    text.subrange(line_start(text, (s - 1) as nat), line_start(text, e))
}

/// The slices `read --lines` takes out of a file's text: each range with
/// its end clamped to the file's lines, and the text of those lines; the
/// first range that starts past the end is an error.
pub open spec fn read_ranges_of(text: Seq<char>, raw: Seq<char>) -> Result<Seq<(nat, nat, Seq<char>)>, Seq<char>> {
    match line_ranges(raw) {
        Err(e) => Err(e),
        Ok(rs) => {
            let n = line_count(text);
            let cl = clamped(rs, n);
            match first_past_end(cl, n) {
                Some((s, e)) => Err(
                    "line range "@ + decimal(s) + "-"@ + decimal(e) + " out of bounds (file has "@ + decimal(n)
                        + " lines)"@,
                ),
                None => Ok(cl.map_values(|r: (nat, nat)| (r.0, r.1, lines_between(text, r.0, r.1)))),
            }
        },
    }
}

/// The view of slices as numbers and texts.
pub open spec fn slices_view(v: Seq<(usize, usize, String)>) -> Seq<(nat, nat, Seq<char>)> {
    v.map_values(|x: (usize, usize, String)| (x.0 as nat, x.1 as nat, x.2@))
}

/// Take the line ranges `raw` (as `parse_ranges` reads them) out of
/// `source`, as `read_ranges_of` states; errors exit with code 2.
pub fn read_ranges(source: &str, raw: &str) -> (r: Result<Vec<(usize, usize, String)>, ExitError>)
    ensures
        match r {
            Ok(v) => read_ranges_of(source@, raw@) == Ok::<Seq<(nat, nat, Seq<char>)>, Seq<char>>(slices_view(v@)),
            Err(e) => e.code == 2 && read_ranges_of(source@, raw@) == Err::<Seq<(nat, nat, Seq<char>)>, Seq<char>>(
                e.message@,
            ),
        },
{
    let ranges = match parse_ranges(raw) {
        Ok(rs) => rs,
        Err(m) => return Err(ExitError::new(2, m)),
    };
    let ghost rs = nat_pairs(ranges@);
    let v = chars_of(source);
    let n = count_lines(v.as_slice());
    let cl = clamp_open_ends(ranges, n);
    let ghost cv = clamped(rs, n as nat);
    proof {
        assert(nat_pairs(cl@) =~= cv);
        assert(cv.skip(0) == cv);
        lemma_ranges_ordered(range_tokens(split_on(raw@, ',')));
        assert(forall|i: int| 0 <= i < rs.len() ==> 1 <= #[trigger] rs[i].0 <= rs[i].1);
        assert(forall|i: int| 0 <= i < cv.len() ==> cv[i].0 == #[trigger] rs[i].0);
    }
    let mut k: usize = 0;
    while k < cl.len()
        invariant
            k <= cl@.len(),
            nat_pairs(cl@) == cv,
            first_past_end(cv, n as nat) == first_past_end(cv.skip(k as int), n as nat),
            cv == clamped(rs, n as nat),
            n == line_count(v@),
            v@ == source@,
            line_ranges(raw@) == Ok::<Seq<(nat, nat)>, Seq<char>>(rs),
        decreases cl@.len() - k,
    {
        let (s, e) = cl[k];
        proof {
            assert(cv.skip(k as int)[0] == cv[k as int]);
            assert(cv[k as int] == (s as nat, e as nat));
            assert(cv.skip(k as int).drop_first() == cv.skip(k + 1));
        }
        if s > n {
            let mut m: Vec<char> = Vec::new();
            push_str(&mut m, "line range ");
            push_decimal(&mut m, s);
            push_str(&mut m, "-");
            push_decimal(&mut m, e);
            push_str(&mut m, " out of bounds (file has ");
            push_decimal(&mut m, n);
            push_str(&mut m, " lines)");
            return Err(ExitError::new(2, string_from(m.as_slice())));
        }
        k += 1;
    }
    proof {
        assert(cv.skip(cl@.len() as int).len() == 0);
    }
    let mut out: Vec<(usize, usize, String)> = Vec::new();
    let mut j: usize = 0;
    while j < cl.len()
        invariant
            j <= cl@.len(),
            nat_pairs(cl@) == cv,
            n == line_count(v@),
            v@ == source@,
            first_past_end(cv, n as nat) is None,
            forall|i: int| 0 <= i < cv.len() ==> 1 <= #[trigger] cv[i].0 && cv[i].0 <= rs[i].1,
            cv == clamped(rs, n as nat),
            slices_view(out@) == cv.take(j as int).map_values(
                |r: (nat, nat)| (r.0, r.1, lines_between(v@, r.0, r.1)),
            ),
        decreases cl@.len() - j,
    {
        let (s, e) = cl[j];
        proof {
            assert(cv[j as int] == (s as nat, e as nat));
            lemma_first_past_end_none(cv, n as nat, j as int);
        }
        let a = line_offset(v.as_slice(), s - 1);
        let b = line_offset(v.as_slice(), e);
        proof {
            lemma_line_start_bounds(v@, (s - 1) as nat);
            lemma_line_start_bounds(v@, e as nat);
            lemma_line_start_mono(v@, (s - 1) as nat, e as nat);
        }
        let w = copy_range(v.as_slice(), a, b);
        let ghost old_out = out@;
        let item = (s, e, string_from(w.as_slice()));
        out.push(item);
        proof {
            assert(slices_view(old_out.push(item)) == slices_view(old_out).push(
                (s as nat, e as nat, lines_between(v@, s as nat, e as nat)),
            ));
            assert(cv.take(j + 1) == cv.take(j as int).push(cv[j as int]));
        }
        j += 1;
    }
    proof {
        assert(cv.take(cl@.len() as int) == cv);
    }
    Ok(out)
}

/// Each parsed range starts at 1 or later and ends no earlier.
proof fn lemma_ranges_ordered(toks: Seq<Seq<char>>)
    ensures
        ranges_of(toks) matches Ok(rs) ==> forall|i: int| 0 <= i < rs.len() ==> 1 <= #[trigger] rs[i].0 <= rs[i].1,
    decreases toks.len(),
{
    if toks.len() > 0 {
        lemma_ranges_ordered(toks.drop_last());
    }
}

/// Without a range past the end, every range starts at line 1 or later
/// and within the text, and ends no earlier than it starts.
proof fn lemma_first_past_end_none(rs: Seq<(nat, nat)>, n: nat, j: int)
    requires
        first_past_end(rs, n) is None,
        0 <= j < rs.len(),
    ensures
        rs[j].0 <= n,
    decreases j,
{
    if j > 0 {
        assert(rs.drop_first()[j - 1] == rs[j]);
        lemma_first_past_end_none(rs.drop_first(), n, j - 1);
    }
}

/// Past a first line ending at `i`, line starts shift by `i + 1`.
proof fn lemma_line_start_shift(s: Seq<char>, k: nat)
    requires
        index_of(s, '\n') < s.len(),
    ensures
        line_start(s, k + 1) == index_of(s, '\n') + 1 + line_start(s.skip(index_of(s, '\n') + 1), k),
    decreases k,
{
    let i = index_of(s, '\n');
    let t = s.skip(i + 1);
    lemma_index_of(s, '\n');
    if k == 0 {
        assert(s.skip(0) == s);
        assert(line_start(s, 0) == 0);
        assert(line_start(t, 0) == 0);
        assert(line_start(s, 1) == i + 1);
    } else {
        let km = (k - 1) as nat;
        lemma_line_start_shift(s, km);
        lemma_line_start_bounds(t, km);
        let q = line_start(t, km);
        let p = i + 1 + q;
        assert(km + 1 == k);
        assert(line_start(s, k) == p);
        assert(s.skip(p) == t.skip(q));
        assert(t.len() == s.len() - i - 1);
        let d = index_of(t.skip(q), '\n');
        if q + d < t.len() {
            assert(line_start(t, k) == q + d + 1);
            assert(line_start(s, k + 1) == p + d + 1);
        } else {
            assert(line_start(t, k) == t.len());
            assert(line_start(s, k + 1) == s.len());
        }
    }
}

/// The start past the last line is the end of the text.
proof fn lemma_line_start_end(s: Seq<char>)
    ensures
        line_start(s, line_count(s)) == s.len(),
    decreases s.len(),
{
    lemma_index_of(s, '\n');
    if s.len() > 0 {
        let i = index_of(s, '\n');
        if i < s.len() {
            let t = s.skip(i + 1);
            lemma_line_start_end(t);
            lemma_line_start_shift(s, line_count(t));
            assert(line_count(s) == 1 + line_count(t));
            assert(t.len() == s.len() - i - 1);
        } else {
            assert(s.skip(0) == s);
            assert(line_count(s) == 1);
            assert(line_start(s, 0) == 0);
            assert(line_start(s, 1) == s.len());
        }
    }
}

/// A single range from line 1 that reaches the last line reads the whole
/// text back, line endings included.
pub proof fn law_full_range_reads_everything(text: Seq<char>, raw: Seq<char>, e: nat)
    requires
        line_ranges(raw) == Ok::<Seq<(nat, nat)>, Seq<char>>(seq![(1nat, e)]),
        e >= line_count(text),
        line_count(text) > 0,
    ensures
        read_ranges_of(text, raw) == Ok::<Seq<(nat, nat, Seq<char>)>, Seq<char>>(
            seq![(1nat, line_count(text), text)],
        ),
{
    let n = line_count(text);
    let cl = clamped(seq![(1nat, e)], n);
    assert(cl =~= seq![(1nat, n)]);
    assert(cl.drop_first().len() == 0);
    assert(first_past_end(cl.drop_first(), n) is None);
    assert(cl[0].0 <= n);
    assert(first_past_end(cl, n) is None);
    lemma_line_start_end(text);
    assert(line_start(text, 0) == 0);
    assert(text.subrange(0, text.len() as int) =~= text);
    assert(cl.map_values(|r: (nat, nat)| (r.0, r.1, lines_between(text, r.0, r.1))) =~= seq![(1nat, n, text)]);
}

proof fn lemma_line_start_mono(s: Seq<char>, a: nat, b: nat)
    requires
        a <= b,
    ensures
        line_start(s, a) <= line_start(s, b),
    decreases b - a,
{
    if a < b {
        lemma_line_start_mono(s, a, (b - 1) as nat);
        lemma_line_start_bounds(s, (b - 1) as nat);
        let p = line_start(s, (b - 1) as nat);
        lemma_index_of(s.skip(p), '\n');
    }
}

/// Characters that would make a command line a shell pipeline.
pub open spec fn is_metachar(c: char) -> bool {
    c == '|' || c == '&' || c == ';' || c == '(' || c == ')' || c == '<' || c == '>' || c == '\n'
}

/// The first metacharacter outside quotes and backslash escapes, scanning
/// `s` in the given quoting state.
pub open spec fn meta_scan(s: Seq<char>, quote: Option<char>, escaped: bool) -> Option<char>
    decreases s.len(),
{
    if s.len() == 0 {
        None
    } else {
        let ch = s[0];
        let rest = s.drop_first();
        if quote == Some('\'') {
            meta_scan(
                rest,
                if ch == '\'' {
                    None
                } else {
                    quote
                },
                escaped,
            )
        } else if quote == Some('"') {
            if escaped {
                meta_scan(rest, quote, false)
            } else if ch == '\\' {
                meta_scan(rest, quote, true)
            } else if ch == '"' {
                meta_scan(rest, None, false)
            } else {
                meta_scan(rest, quote, false)
            }
        } else if escaped {
            meta_scan(rest, quote, false)
        } else if ch == '\\' {
            meta_scan(rest, quote, true)
        } else if ch == '\'' || ch == '"' {
            meta_scan(rest, Some(ch), false)
        } else if is_metachar(ch) {
            Some(ch)
        } else {
            meta_scan(rest, quote, false)
        }
    }
}

/// The first shell metacharacter outside quotes and backslash escapes:
/// `exec` runs argv directly, not through a shell.
pub fn first_unquoted_metachar(cmd: &str) -> (r: Option<char>)
    ensures
        r == meta_scan(cmd@, None, false),
{
    let v = chars_of(cmd);
    let n = v.len();
    let mut quote: Option<char> = None;
    let mut escaped = false;
    let mut i: usize = 0;
    assert(v@.skip(0) == v@);
    while i < n
        invariant
            i <= n == v@.len(),
            meta_scan(cmd@, None, false) == meta_scan(v@.skip(i as int), quote, escaped),
            v@ == cmd@,
        decreases n - i,
    {
        let ch = v[i];
        assert(v@.skip(i as int)[0] == ch);
        assert(v@.skip(i as int).drop_first() == v@.skip(i + 1));
        if quote == Some('\'') {
            if ch == '\'' {
                quote = None;
            }
        } else if quote == Some('"') {
            if escaped {
                escaped = false;
            } else if ch == '\\' {
                escaped = true;
            } else if ch == '"' {
                quote = None;
            }
        } else {
            if escaped {
                escaped = false;
            } else if ch == '\\' {
                escaped = true;
            } else if ch == '\'' || ch == '"' {
                quote = Some(ch);
            } else if ch == '|' || ch == '&' || ch == ';' || ch == '(' || ch == ')' || ch == '<' || ch
                == '>' || ch == '\n' {
                return Some(ch);
            }
        }
        i += 1;
    }
    None
}

/// What `shell_words::split` gives for a command line: its words, or
/// `None` when a quote is left open.
pub uninterp spec fn shell_split_of(cmd: Seq<char>) -> Option<Seq<Seq<char>>>;

/// The views of a list of strings.
pub open spec fn string_views(w: Seq<String>) -> Seq<Seq<char>> {
    w.map_values(|s: String| s@)
}

/// `shell_words::split`: the words of `cmd` under POSIX-shell quoting, or
/// its one error, whose message is "missing closing quote".
#[verifier::external_body]
fn shell_split(cmd: &str) -> (r: Result<Vec<String>, String>)
    ensures
        match r {
            Ok(w) => shell_split_of(cmd@) == Some(string_views(w@)),
            Err(e) => shell_split_of(cmd@).is_none() && e@ == "missing closing quote"@,
        },
{
    shell_words::split(cmd).map_err(|e| e.to_string())
}

/// The argv `exec` runs for a command line: a metacharacter outside quotes
/// is refused first, then a line the shell-word split rejects, then one
/// with no words; each is exit code 1.
pub fn exec_argv(cmd: &str) -> (r: Result<Vec<String>, ExitError>)
    ensures
        match r {
            Ok(w) => {
                &&& meta_scan(cmd@, None, false) is None
                &&& shell_split_of(cmd@) == Some(string_views(w@))
                &&& w@.len() > 0
            },
            Err(e) => {
                &&& e.code == 1
                &&& match meta_scan(cmd@, None, false) {
                    Some(ch) => e.message@ == "exec runs a single command, not a shell; found unquoted `"@
                        + seq![ch] + "` — wrap compound commands as sh -c \"<command>\""@,
                    None => match shell_split_of(cmd@) {
                        None => e.message@ == "invalid command line: "@ + "missing closing quote"@,
                        Some(ws) => ws.len() == 0 && e.message@ == "empty command"@,
                    },
                }
            },
        },
{
    match first_unquoted_metachar(cmd) {
        Some(ch) => {
            return Err(ExitError::new(1, metachar_message(ch)));
        },
        None => {},
    }
    assert(meta_scan(cmd@, None, false) is None);
    match shell_split(cmd) {
        Err(m) => {
            let mut v: Vec<char> = Vec::new();
            push_str(&mut v, "invalid command line: ");
            push_str(&mut v, m.as_str());
            Err(ExitError::new(1, string_from(v.as_slice())))
        },
        Ok(w) => {
            if w.len() == 0 {
                Err(ExitError::new(1, "empty command".to_string()))
            } else {
                Ok(w)
            }
        },
    }
}

/// The error `exec` reports for a command line with a metacharacter.
pub fn metachar_message(ch: char) -> (s: String)
    ensures
        s@ == "exec runs a single command, not a shell; found unquoted `"@ + seq![ch]
            + "` — wrap compound commands as sh -c \"<command>\""@,
{
    let mut v: Vec<char> = Vec::new();
    push_str(&mut v, "exec runs a single command, not a shell; found unquoted `");
    v.push(ch);
    push_str(&mut v, "` — wrap compound commands as sh -c \"<command>\"");
    string_from(v.as_slice())
}

/// The error `exec` reports for a command that outlived its deadline.
pub fn timeout_message(cmd: &str) -> (s: String)
    ensures
        s@ == "command `"@ + cmd@ + "` exceeded the "@ + decimal(EXEC_TIMEOUT_SECS as nat)
            + "s execution timeout and was killed"@,
{
    let mut v: Vec<char> = Vec::new();
    push_str(&mut v, "command `");
    push_str(&mut v, cmd);
    push_str(&mut v, "` exceeded the ");
    push_decimal(&mut v, EXEC_TIMEOUT_SECS as usize);
    push_str(&mut v, "s execution timeout and was killed");
    string_from(v.as_slice())
}

/// The exit error for a symbol-engine error: unsupported extension 2,
/// parse failure 3, I/O 1, symbol not found 4.
pub fn exit_error_of(e: SymbolError) -> (r: ExitError)
    ensures
        e matches SymbolError::UnsupportedLanguage(p) ==> r.code == 2 && r.message@
            == "unsupported extension: "@ + p@,
        e matches SymbolError::Parse(m) ==> r.code == 3 && r.message@ == "parse failure: "@ + m@,
        e matches SymbolError::Io(_) ==> r.code == 1,
        e matches SymbolError::NotFound(n) ==> r.code == 4 && r.message@ == "symbol not found: "@
            + n@,
{
    let mut v: Vec<char> = Vec::new();
    match e {
        SymbolError::UnsupportedLanguage(p) => {
            push_str(&mut v, "unsupported extension: ");
            push_str(&mut v, p.as_str());
            ExitError::new(2, string_from(v.as_slice()))
        },
        SymbolError::Parse(m) => {
            push_str(&mut v, "parse failure: ");
            push_str(&mut v, m.as_str());
            ExitError::new(3, string_from(v.as_slice()))
        },
        SymbolError::Io(err) => ExitError::new(1, crate::language::io_error_text(&err)),
        SymbolError::NotFound(n) => {
            push_str(&mut v, "symbol not found: ");
            push_str(&mut v, n.as_str());
            ExitError::new(4, string_from(v.as_slice()))
        },
    }
}

/// The text of `source` bytes `start..end`: out-of-bounds ranges and
/// invalid UTF-8 are exit code 3.
pub fn slice_text(source: &str, start: usize, end: usize) -> (r: Result<String, ExitError>)
    ensures
        match r {
            Ok(t) => start <= end <= source.spec_bytes().len() && crate::syntax::span_text(
                source.spec_bytes(),
                start as int,
                end as int,
            ) == Some(t@),
            Err(e) => e.code == 3 && if !(start <= end <= source.spec_bytes().len()) {
                e.message@ == "symbol byte range out of bounds"@
            } else {
                &&& crate::syntax::span_text(source.spec_bytes(), start as int, end as int).is_none()
                &&& e.message@.len() >= "symbol slice is not valid UTF-8: "@.len()
                &&& e.message@.take("symbol slice is not valid UTF-8: "@.len() as int)
                    == "symbol slice is not valid UTF-8: "@
            },
        },
{
    let b = source.as_bytes();
    if !(start <= end && end <= b.len()) {
        return Err(ExitError::new(3, "symbol byte range out of bounds".to_string()));
    }
    let v = crate::bytes::copy_bytes(b, start, end);
    match crate::syntax::utf8_string(v.as_slice()) {
        Ok(t) => {
            proof {
                vstd::utf8::encode_utf8_decode_utf8(t@);
            }
            Ok(t)
        },
        Err(m) => {
            let mut w: Vec<char> = Vec::new();
            push_str(&mut w, "symbol slice is not valid UTF-8: ");
            push_str(&mut w, m.as_str());
            Err(ExitError::new(3, string_from(w.as_slice())))
        },
    }
}

} // verus!
