//! Tool arguments as the MCP adapter receives them, and their check
//! against a tool's argument table before dispatch.

use vstd::prelude::*;
use crate::syntax::str_eq;
use crate::text::{string_from, push_str};
use crate::cli::{kind_arg_named, parse_kind, SymbolKindArg};
use crate::tools::{arg_schema, comma_join, label_of, tool_args, table_view, ArgKind};

verus! {

/// A JSON value as a tool argument holds it.
#[derive(Debug)]
pub enum ArgValue {
    Null,
    Bool(bool),
    /// A number: its decimal text, and its value when it is a
    /// non-negative integer that fits in 64 bits.
    Number { text: String, unsigned: Option<u64> },
    Str(String),
    Array(Vec<ArgValue>),
    Object(Vec<(String, ArgValue)>),
}

/// The JSON type name of a value, for "got X" diagnostics.
pub open spec fn type_name_of(v: ArgValue) -> Seq<char> {
    match v {
        ArgValue::Null => "null"@,
        ArgValue::Bool(_) => "boolean"@,
        ArgValue::Number { .. } => "number"@,
        ArgValue::Str(_) => "string"@,
        ArgValue::Array(_) => "array"@,
        ArgValue::Object(_) => "object"@,
    }
}

/// The JSON type name of a value, for "got X" diagnostics.
pub fn json_type_name(v: &ArgValue) -> (r: &'static str)
    ensures
        r@ == type_name_of(*v),
{
    match v {
        ArgValue::Null => "null",
        ArgValue::Bool(_) => "boolean",
        ArgValue::Number { .. } => "number",
        ArgValue::Str(_) => "string",
        ArgValue::Array(_) => "array",
        ArgValue::Object(_) => "object",
    }
}

/// A value has the shape a kind expects: a string, a boolean, an unsigned
/// integer (no string or float), or an array of strings.
pub open spec fn accepts_value(kind: ArgKind, v: ArgValue) -> bool {
    match kind {
        ArgKind::Str => v is Str,
        ArgKind::Bool => v is Bool,
        ArgKind::Int => v matches ArgValue::Number { unsigned, .. } && unsigned is Some,
        ArgKind::StrList => v matches ArgValue::Array(items) && forall|i: int|
            0 <= i < items@.len() ==> #[trigger] items@[i] is Str,
    }
}

impl ArgKind {
    /// The value has the shape this kind expects.
    pub fn accepts(self, v: &ArgValue) -> (r: bool)
        ensures
            r == accepts_value(self, *v),
    {
        match self {
            ArgKind::Str => matches!(v, ArgValue::Str(_)),
            ArgKind::Bool => matches!(v, ArgValue::Bool(_)),
            ArgKind::Int => match v {
                ArgValue::Number { unsigned, .. } => unsigned.is_some(),
                _ => false,
            },
            ArgKind::StrList => match v {
                ArgValue::Array(items) => {
                    let mut i: usize = 0;
                    while i < items.len()
                        invariant
                            i <= items@.len(),
                            *v == ArgValue::Array(*items),
                            forall|j: int| 0 <= j < i ==> #[trigger] items@[j] is Str,
                        decreases items@.len() - i,
                    {
                        match &items[i] {
                            ArgValue::Str(_) => {},
                            _ => {
                                assert(!(items@[i as int] is Str));
                                assert(!accepts_value(ArgKind::StrList, *v));
                                return false;
                            },
                        }
                        i += 1;
                    }
                    true
                },
                _ => false,
            },
        }
    }
}

/// `key` names an entry of the argument table.
pub open spec fn in_table(table: Seq<(Seq<char>, ArgKind)>, key: Seq<char>) -> bool {
    exists|i: int| 0 <= i < table.len() && #[trigger] table[i].0 == key
}

/// The first key of `fields` that the table does not name.
pub open spec fn first_unknown(fields: Seq<(String, ArgValue)>, table: Seq<(Seq<char>, ArgKind)>) -> Option<Seq<char>>
    decreases fields.len(),
{
    if fields.len() == 0 {
        None
    } else if !in_table(table, fields[0].0@) {
        Some(fields[0].0@)
    } else {
        first_unknown(fields.drop_first(), table)
    }
}

/// The index of the first field named `key`, if any.
pub open spec fn first_index(fields: Seq<(String, ArgValue)>, key: Seq<char>) -> Option<int>
    decreases fields.len(),
{
    if fields.len() == 0 {
        None
    } else if fields[0].0@ == key {
        Some(0)
    } else {
        match first_index(fields.drop_first(), key) {
            Some(i) => Some(i + 1),
            None => None,
        }
    }
}

/// The value given for `key`, if any.
pub open spec fn given(fields: Seq<(String, ArgValue)>, key: Seq<char>) -> Option<ArgValue> {
    match first_index(fields, key) {
        Some(i) => Some(fields[i].1),
        None => None,
    }
}

/// A given value that neither is absent (null), nor coerces (a number for
/// a string), nor has the expected shape.
pub open spec fn mistyped(kind: ArgKind, v: ArgValue) -> bool {
    !(v is Null) && !(kind == ArgKind::Str && v is Number) && !accepts_value(kind, v)
}

/// The fields once the entry `e` of the table is applied: a number given
/// for a string argument becomes its decimal text.
pub open spec fn coerce_entry(e: (Seq<char>, ArgKind), fields: Seq<(String, ArgValue)>) -> Seq<(String, ArgValue)> {
    match first_index(fields, e.0) {
        Some(i) => match fields[i].1 {
            ArgValue::Number { text, .. } => if e.1 == ArgKind::Str {
                fields.update(i, (fields[i].0, ArgValue::Str(text)))
            } else {
                fields
            },
            _ => fields,
        },
        None => fields,
    }
}

/// The table's entries applied in order: the coerced fields, or the first
/// entry whose given value is mistyped, with that value.
pub open spec fn check_entries(table: Seq<(Seq<char>, ArgKind)>, fields: Seq<(String, ArgValue)>) -> Result<
    Seq<(String, ArgValue)>,
    (Seq<char>, ArgKind, ArgValue),
>
    decreases table.len(),
{
    if table.len() == 0 {
        Ok(fields)
    } else {
        let bad = match given(fields, table[0].0) {
            Some(v) => mistyped(table[0].1, v),
            None => false,
        };
        if bad {
            Err((table[0].0, table[0].1, given(fields, table[0].0).unwrap()))
        } else {
            check_entries(table.drop_first(), coerce_entry(table[0], fields))
        }
    }
}

/// The problem with the arguments of a call, if any: they are not an
/// object, a key is unknown (the valid ones are listed), or a value has
/// the wrong shape (naming the argument, the expected kind and the JSON
/// type given).
pub open spec fn argument_problem(table: Seq<(Seq<char>, ArgKind)>, args: ArgValue) -> Option<Seq<char>> {
    match args {
        ArgValue::Object(fields) => match first_unknown(fields@, table) {
            Some(k) => Some(
                "unknown argument `"@ + k + "`; valid arguments: "@ + comma_join(
                    table.map_values(|e: (Seq<char>, ArgKind)| e.0),
                ),
            ),
            None => match check_entries(table, fields@) {
                Err((k, kind, v)) => Some(
                    "argument `"@ + k + "` must be "@ + label_of(kind) + ", got "@ + type_name_of(v),
                ),
                Ok(_) => None,
            },
        },
        _ => Some("arguments must be an object"@),
    }
}

/// Check `args` against the argument table of `tool` before dispatch:
/// unknown tools pass (they are refused when run); otherwise the arguments
/// must be an object whose keys the table names and whose values have the
/// expected shapes, absent when null. A number given for a string argument
/// becomes its decimal text.
pub fn validate_arguments(tool: &str, args: &mut ArgValue) -> (r: Result<(), String>)
    ensures
        match tool_args(tool@) {
            None => r is Ok && *final(args) == *old(args),
            Some(table) => match r {
                Ok(()) => {
                    &&& argument_problem(table, *old(args)) is None
                    &&& *old(args) matches ArgValue::Object(fields)
                    &&& *final(args) matches ArgValue::Object(f2)
                    &&& check_entries(table, fields@) == Ok::<Seq<(String, ArgValue)>, (Seq<char>, ArgKind, ArgValue)>(
                        f2@,
                    )
                },
                Err(m) => argument_problem(table, *old(args)) == Some(m@),
            },
        },
{
    let schema = match arg_schema(tool) {
        Some(s) => s,
        None => return Ok(()),
    };
    let ghost table = table_view(schema@);
    let mut taken = ArgValue::Null;
    std::mem::swap(&mut taken, args);
    let mut fields = match taken {
        ArgValue::Object(f) => f,
        other => {
            *args = other;
            return Err(String::from_str("arguments must be an object"));
        },
    };
    let ghost orig = fields@;
    proof {
        assert(*old(args) matches ArgValue::Object(f) && f@ == orig);
    }
    // Unknown keys first, in the object's order.
    let mut i: usize = 0;
    proof {
        assert(orig.skip(0) == orig);
    }
    while i < fields.len()
        invariant
            fields@ == orig,
            *old(args) matches ArgValue::Object(f) && f@ == orig,
            tool_args(tool@) == Some(table),
            i <= orig.len(),
            table == table_view(schema@),
            first_unknown(orig, table) == first_unknown(orig.skip(i as int), table),
        decreases orig.len() - i,
    {
        let known = in_schema(&schema, fields[i].0.as_str());
        proof {
            assert(orig.skip(i as int)[0] == orig[i as int]);
            assert(orig.skip(i as int).drop_first() == orig.skip(i + 1));
        }
        if !known {
            let mut m: Vec<char> = Vec::new();
            push_str(&mut m, "unknown argument `");
            push_str(&mut m, fields[i].0.as_str());
            push_str(&mut m, "`; valid arguments: ");
            let names = names_joined(&schema);
            push_str(&mut m, names.as_str());
            proof {
                assert(m@ =~= "unknown argument `"@ + orig[i as int].0@ + "`; valid arguments: "@ + comma_join(
                    table.map_values(|e: (Seq<char>, ArgKind)| e.0),
                ));
                assert(!in_table(table, orig[i as int].0@));
                assert(first_unknown(orig, table) == Some(orig[i as int].0@));
                assert(argument_problem(table, *old(args)) == Some(m@));
            }
            return Err(string_from(m.as_slice()));
        }
        i += 1;
    }
    proof {
        assert(orig.skip(orig.len() as int).len() == 0);
    }
    // Then each table entry, in table order.
    let mut j: usize = 0;
    proof {
        assert(table.skip(0) == table);
    }
    while j < schema.len()
        invariant
            j <= schema@.len(),
            table == table_view(schema@),
            *old(args) matches ArgValue::Object(f) && f@ == orig,
            tool_args(tool@) == Some(table),
            first_unknown(orig, table) is None,
            check_entries(table, orig) == check_entries(table.skip(j as int), fields@),
        decreases schema@.len() - j,
    {
        let (key, kind) = schema[j];
        let ghost rest = table.skip(j as int);
        let ghost cur = fields@;
        proof {
            assert(rest[0] == (key@, kind));
            assert(rest.drop_first() == table.skip(j + 1));
        }
        let found = position_of(&fields, key);
        match found {
            None => {
                proof {
                    lemma_first_index_none(cur, key@);
                }
            },
            Some(idx) => {
                proof {
                    lemma_first_index_at(cur, key@, idx as int);
                }
                let is_null = matches!(&fields[idx].1, ArgValue::Null);
                let number_text = match &fields[idx].1 {
                    ArgValue::Number { text, .. } => Some(text.clone()),
                    _ => None,
                };
                if is_null {
                } else if number_text.is_some() && kind == ArgKind::Str {
                    let text = match number_text {
                        Some(t) => t,
                        None => String::new(),
                    };
                    let k = fields[idx].0.clone();
                    fields.set(idx, (k, ArgValue::Str(text)));
                } else {
                    if !kind.accepts(&fields[idx].1) {
                        let mut m: Vec<char> = Vec::new();
                        push_str(&mut m, "argument `");
                        push_str(&mut m, key);
                        push_str(&mut m, "` must be ");
                        push_str(&mut m, kind.label());
                        push_str(&mut m, ", got ");
                        push_str(&mut m, json_type_name(&fields[idx].1));
                        proof {
                            assert(m@ =~= "argument `"@ + key@ + "` must be "@ + label_of(kind) + ", got "@
                                + type_name_of(cur[idx as int].1));
                        }
                        return Err(string_from(m.as_slice()));
                    }
                }
            },
        }
        proof {
            assert(fields@ == coerce_entry((key@, kind), cur));
        }
        j += 1;
    }
    proof {
        assert(table.skip(table.len() as int).len() == 0);
    }
    *args = ArgValue::Object(fields);
    Ok(())
}

proof fn lemma_first_index_at(fs: Seq<(String, ArgValue)>, key: Seq<char>, idx: int)
    requires
        0 <= idx < fs.len(),
        fs[idx].0@ == key,
        forall|k: int| 0 <= k < idx ==> #[trigger] fs[k].0@ != key,
    ensures
        first_index(fs, key) == Some(idx),
    decreases idx,
{
    if idx > 0 {
        assert(fs[0].0@ != key);
        assert forall|k: int| 0 <= k < idx - 1 implies #[trigger] fs.drop_first()[k].0@ != key by {
            assert(fs.drop_first()[k] == fs[k + 1]);
        }
        lemma_first_index_at(fs.drop_first(), key, idx - 1);
    }
}

proof fn lemma_first_index_none(fs: Seq<(String, ArgValue)>, key: Seq<char>)
    requires
        forall|k: int| 0 <= k < fs.len() ==> #[trigger] fs[k].0@ != key,
    ensures
        first_index(fs, key) is None,
    decreases fs.len(),
{
    if fs.len() > 0 {
        assert(fs[0].0@ != key);
        assert forall|k: int| 0 <= k < fs.drop_first().len() implies #[trigger] fs.drop_first()[k].0@ != key by {
            assert(fs.drop_first()[k] == fs[k + 1]);
        }
        lemma_first_index_none(fs.drop_first(), key);
    }
}

/// `key` names an entry of the schema.
fn in_schema(schema: &Vec<(&'static str, ArgKind)>, key: &str) -> (r: bool)
    ensures
        r == in_table(table_view(schema@), key@),
{
    let ghost table = table_view(schema@);
    let mut i: usize = 0;
    while i < schema.len()
        invariant
            i <= schema@.len(),
            table == table_view(schema@),
            forall|k: int| 0 <= k < i ==> #[trigger] table[k].0 != key@,
        decreases schema@.len() - i,
    {
        if str_eq(schema[i].0, key) {
            assert(table[i as int].0 == key@);
            return true;
        }
        i += 1;
    }
    false
}

/// The schema's names, comma-separated.
fn names_joined(schema: &Vec<(&'static str, ArgKind)>) -> (r: String)
    ensures
        r@ == comma_join(table_view(schema@).map_values(|e: (Seq<char>, ArgKind)| e.0)),
{
    let ghost names = table_view(schema@).map_values(|e: (Seq<char>, ArgKind)| e.0);
    let mut out: Vec<char> = Vec::new();
    let mut i: usize = 0;
    while i < schema.len()
        invariant
            i <= schema@.len(),
            names == table_view(schema@).map_values(|e: (Seq<char>, ArgKind)| e.0),
            out@ == comma_join(names.take(i as int)),
        decreases schema@.len() - i,
    {
        if i > 0 {
            push_str(&mut out, ", ");
        }
        push_str(&mut out, schema[i].0);
        proof {
            assert(names[i as int] == schema@[i as int].0@);
            assert(names.take(i + 1).drop_last() =~= names.take(i as int));
            assert(names.take(i + 1).last() == names[i as int]);
            if i == 0 {
                assert(names.take(1) =~= seq![names[0]]);
                assert(out@ =~= comma_join(names.take(1)));
            } else {
                assert(out@ =~= comma_join(names.take(i + 1)));
            }
        }
        i += 1;
    }
    proof {
        assert(names.take(schema@.len() as int) =~= names);
    }
    string_from(out.as_slice())
}

/// The index of the field named `key`, if any.
fn position_of(fields: &Vec<(String, ArgValue)>, key: &str) -> (r: Option<usize>)
    ensures
        match r {
            Some(i) => i < fields@.len() && fields@[i as int].0@ == key@ && forall|k: int|
                0 <= k < i ==> #[trigger] fields@[k].0@ != key@,
            None => forall|k: int| 0 <= k < fields@.len() ==> #[trigger] fields@[k].0@ != key@,
        },
{
    let mut i: usize = 0;
    while i < fields.len()
        invariant
            i <= fields@.len(),
            forall|k: int| 0 <= k < i ==> #[trigger] fields@[k].0@ != key@,
        decreases fields@.len() - i,
    {
        if str_eq(fields[i].0.as_str(), key) {
            return Some(i);
        }
        i += 1;
    }
    None
}

/// The non-empty string given for `key`, if any.
pub open spec fn str_given(fields: Seq<(String, ArgValue)>, key: Seq<char>) -> Option<Seq<char>> {
    match given(fields, key) {
        Some(ArgValue::Str(s)) => if s@.len() > 0 {
            Some(s@)
        } else {
            None
        },
        _ => None,
    }
}

/// The value given for `key` in `fields`, found as `given` finds it.
fn lookup<'a>(fields: &'a Vec<(String, ArgValue)>, key: &str) -> (r: Option<&'a ArgValue>)
    ensures
        match r {
            Some(v) => given(fields@, key@) == Some(*v),
            None => given(fields@, key@) is None,
        },
{
    match position_of(fields, key) {
        Some(i) => {
            proof {
                lemma_first_index_at(fields@, key@, i as int);
            }
            Some(&fields[i].1)
        },
        None => {
            proof {
                lemma_first_index_none(fields@, key@);
            }
            None
        },
    }
}

/// A required string argument: present, a string, and not empty.
pub fn require_str(fields: &Vec<(String, ArgValue)>, key: &str) -> (r: Result<String, String>)
    ensures
        match r {
            Ok(s) => str_given(fields@, key@) == Some(s@),
            Err(m) => str_given(fields@, key@) is None && m@ == "missing or empty argument: "@ + key@,
        },
{
    match lookup(fields, key) {
        Some(ArgValue::Str(s)) => {
            if !s.as_str().is_empty() {
                let r = s.clone();
                return Ok(r);
            }
        },
        _ => {},
    }
    let mut m: Vec<char> = Vec::new();
    push_str(&mut m, "missing or empty argument: ");
    push_str(&mut m, key);
    Err(string_from(m.as_slice()))
}

/// The optional string given for `key` (present and a string, possibly
/// empty).
pub fn optional_str(fields: &Vec<(String, ArgValue)>, key: &str) -> (r: Option<String>)
    ensures
        match r {
            Some(s) => given(fields@, key@) matches Some(ArgValue::Str(t)) && t@ == s@,
            None => !(given(fields@, key@) matches Some(ArgValue::Str(_))),
        },
{
    match lookup(fields, key) {
        Some(ArgValue::Str(s)) => Some(s.clone()),
        _ => None,
    }
}

/// A boolean flag: true only when given as `true`.
pub fn flag(fields: &Vec<(String, ArgValue)>, key: &str) -> (r: bool)
    ensures
        r == (given(fields@, key@) == Some(ArgValue::Bool(true))),
{
    match lookup(fields, key) {
        Some(ArgValue::Bool(b)) => *b,
        _ => false,
    }
}

/// The line ranges `ctxctl_read` reads: the `lines` string when one is
/// given and not empty, else `1-`, the whole file.
pub fn read_lines_arg(fields: &Vec<(String, ArgValue)>, key: &str) -> (r: String)
    ensures
        r@ == match given(fields@, key@) {
            Some(ArgValue::Str(t)) => if t@.len() > 0 {
                t@
            } else {
                "1-"@
            },
            _ => "1-"@,
        },
{
    match lookup(fields, key) {
        Some(ArgValue::Str(s)) => {
            if crate::text::chars_of(s.as_str()).len() > 0 {
                return s.clone();
            }
        },
        _ => {},
    }
    "1-".to_string()
}

/// A count argument (`head`, `tail`): an unsigned number that fits a
/// `usize`; anything else is absent.
pub fn count_arg(fields: &Vec<(String, ArgValue)>, key: &str) -> (r: Option<usize>)
    ensures
        r == match given(fields@, key@) {
            Some(ArgValue::Number { unsigned: Some(v), .. }) => if v <= usize::MAX {
                Some(v as usize)
            } else {
                None
            },
            _ => None,
        },
{
    match u64_arg(fields, key) {
        Some(v) => {
            if v <= usize::MAX as u64 {
                Some(v as usize)
            } else {
                None
            }
        },
        None => None,
    }
}

/// An integer argument, when given as an unsigned 64-bit number.
pub fn u64_arg(fields: &Vec<(String, ArgValue)>, key: &str) -> (r: Option<u64>)
    ensures
        r == match given(fields@, key@) {
            Some(ArgValue::Number { unsigned, .. }) => unsigned,
            _ => None,
        },
{
    match lookup(fields, key) {
        Some(ArgValue::Number { unsigned, .. }) => *unsigned,
        _ => None,
    }
}

/// The strings of an array.
pub open spec fn strings_of(items: Seq<ArgValue>) -> Seq<Seq<char>>
    decreases items.len(),
{
    if items.len() == 0 {
        seq![]
    } else {
        let prev = strings_of(items.drop_last());
        match items.last() {
            ArgValue::Str(s) => prev.push(s@),
            _ => prev,
        }
    }
}

/// The strings of the array given for `key` (other items skipped); none
/// when no array is given.
pub fn string_list(fields: &Vec<(String, ArgValue)>, key: &str) -> (r: Vec<String>)
    ensures
        r@.map_values(|s: String| s@) == match given(fields@, key@) {
            Some(ArgValue::Array(items)) => strings_of(items@),
            _ => seq![],
        },
{
    let mut out: Vec<String> = Vec::new();
    match lookup(fields, key) {
        Some(ArgValue::Array(items)) => {
            let mut i: usize = 0;
            while i < items.len()
                invariant
                    i <= items@.len(),
                    out@.map_values(|s: String| s@) == strings_of(items@.take(i as int)),
                decreases items@.len() - i,
            {
                let ghost before = out@;
                proof {
                    assert(items@.take(i + 1).drop_last() =~= items@.take(i as int));
                    assert(items@.take(i + 1).last() == items@[i as int]);
                }
                match &items[i] {
                    ArgValue::Str(s) => {
                        out.push(s.clone());
                        proof {
                            assert(out@.map_values(|s: String| s@) =~= before.map_values(|s: String| s@).push(s@));
                        }
                    },
                    _ => {},
                }
                i += 1;
            }
            proof {
                assert(items@.take(items@.len() as int) =~= items@);
            }
        },
        _ => {
            assert(out@.map_values(|s: String| s@) =~= Seq::<Seq<char>>::empty());
        },
    }
    out
}

/// The error for a `kind` argument that names no kind.
pub open spec fn unknown_kind_text(raw: Seq<char>) -> Seq<char> {
    "unknown kind `"@ + raw
        + "` (expected class|struct|enum|interface|function|method|module|const|var|trait|type|heading|rule|element)"@
}

/// The symbol kind a tool's `kind` argument names.
pub fn kind_argument(raw: &str) -> (r: Result<SymbolKindArg, String>)
    ensures
        match r {
            Ok(k) => kind_arg_named(raw@) == Some(k),
            Err(m) => kind_arg_named(raw@) is None && m@ == unknown_kind_text(raw@),
        },
{
    match parse_kind(raw) {
        Some(k) => Ok(k),
        None => {
            let mut m: Vec<char> = Vec::new();
            push_str(&mut m, "unknown kind `");
            push_str(&mut m, raw);
            push_str(
                &mut m,
                "` (expected class|struct|enum|interface|function|method|module|const|var|trait|type|heading|rule|element)",
            );
            Err(string_from(m.as_slice()))
        },
    }
}

} // verus!
