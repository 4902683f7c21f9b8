//! Language backends: which files each handles, which syntax nodes are
//! definitions, and the comment and block conventions its compact views
//! follow.

use vstd::prelude::*;
use crate::symbol::SymbolKind;
use crate::syntax::str_eq;
use crate::paths::{extension, extension_of};

pub mod util;
pub mod c;
pub mod cpp;
pub mod csharp;
pub mod css;
pub mod go;
pub mod html;
pub mod java;
pub mod javascript;
pub mod lua;
pub mod markdown;
pub mod python;
pub mod ruby;
pub mod rust;
pub mod typescript;

verus! {

/// The supported languages, in detection order.
#[derive(Debug, Clone, Copy, PartialEq, Eq, Structural)]
pub enum Lang {
    Rust,
    TypeScript,
    Python,
    Go,
    JavaScript,
    Java,
    C,
    Cpp,
    CSharp,
    Ruby,
    Lua,
    Html,
    Css,
    Markdown,
}

/// The rust backend.
pub struct RustLang;

impl RustLang {
    pub fn lang(&self) -> (l: Lang)
        ensures
            l == Lang::Rust,
    {
        Lang::Rust
    }
}

/// The typescript backend.
pub struct TypeScriptLang;

impl TypeScriptLang {
    pub fn lang(&self) -> (l: Lang)
        ensures
            l == Lang::TypeScript,
    {
        Lang::TypeScript
    }
}

/// The python backend.
pub struct PythonLang;

impl PythonLang {
    pub fn lang(&self) -> (l: Lang)
        ensures
            l == Lang::Python,
    {
        Lang::Python
    }
}

/// The go backend.
pub struct GoLang;

impl GoLang {
    pub fn lang(&self) -> (l: Lang)
        ensures
            l == Lang::Go,
    {
        Lang::Go
    }
}

/// The javascript backend.
pub struct JavaScriptLang;

impl JavaScriptLang {
    pub fn lang(&self) -> (l: Lang)
        ensures
            l == Lang::JavaScript,
    {
        Lang::JavaScript
    }
}

/// The java backend.
pub struct JavaLang;

impl JavaLang {
    pub fn lang(&self) -> (l: Lang)
        ensures
            l == Lang::Java,
    {
        Lang::Java
    }
}

/// The c backend.
pub struct CLang;

impl CLang {
    pub fn lang(&self) -> (l: Lang)
        ensures
            l == Lang::C,
    {
        Lang::C
    }
}

/// The cpp backend.
pub struct CppLang;

impl CppLang {
    pub fn lang(&self) -> (l: Lang)
        ensures
            l == Lang::Cpp,
    {
        Lang::Cpp
    }
}

/// The csharp backend.
pub struct CSharpLang;

impl CSharpLang {
    pub fn lang(&self) -> (l: Lang)
        ensures
            l == Lang::CSharp,
    {
        Lang::CSharp
    }
}

/// The ruby backend.
pub struct RubyLang;

impl RubyLang {
    pub fn lang(&self) -> (l: Lang)
        ensures
            l == Lang::Ruby,
    {
        Lang::Ruby
    }
}

/// The lua backend.
pub struct LuaLang;

impl LuaLang {
    pub fn lang(&self) -> (l: Lang)
        ensures
            l == Lang::Lua,
    {
        Lang::Lua
    }
}

/// The html backend.
pub struct HtmlLang;

impl HtmlLang {
    pub fn lang(&self) -> (l: Lang)
        ensures
            l == Lang::Html,
    {
        Lang::Html
    }
}

/// The css backend.
pub struct CssLang;

impl CssLang {
    pub fn lang(&self) -> (l: Lang)
        ensures
            l == Lang::Css,
    {
        Lang::Css
    }
}

/// The markdown backend.
pub struct MarkdownLang;

impl MarkdownLang {
    pub fn lang(&self) -> (l: Lang)
        ensures
            l == Lang::Markdown,
    {
        Lang::Markdown
    }
}

/// Human-readable language name.
pub open spec fn lang_name(l: Lang) -> Seq<char> {
    match l {
        Lang::Rust => "rust"@,
        Lang::TypeScript => "typescript"@,
        Lang::Python => "python"@,
        Lang::Go => "go"@,
        Lang::JavaScript => "javascript"@,
        Lang::Java => "java"@,
        Lang::C => "c"@,
        Lang::Cpp => "cpp"@,
        Lang::CSharp => "csharp"@,
        Lang::Ruby => "ruby"@,
        Lang::Lua => "lua"@,
        Lang::Html => "html"@,
        Lang::Css => "css"@,
        Lang::Markdown => "markdown"@,
    }
}

/// The language that handles files with extension `e`.
pub open spec fn lang_for_extension(e: Seq<char>) -> Option<Lang> {
    if e == "rs"@ {
        Some(Lang::Rust)
    }     else if e == "ts"@ || e == "tsx"@ || e == "mts"@ || e == "cts"@ {
        Some(Lang::TypeScript)
    }     else if e == "py"@ || e == "pyi"@ {
        Some(Lang::Python)
    }     else if e == "go"@ {
        Some(Lang::Go)
    }     else if e == "js"@ || e == "jsx"@ || e == "mjs"@ || e == "cjs"@ {
        Some(Lang::JavaScript)
    }     else if e == "java"@ {
        Some(Lang::Java)
    }     else if e == "c"@ || e == "h"@ {
        Some(Lang::C)
    }     else if e == "cpp"@ || e == "cc"@ || e == "cxx"@ || e == "hpp"@ || e == "hh"@ || e == "hxx"@ || e == "h++"@ {
        Some(Lang::Cpp)
    }     else if e == "cs"@ {
        Some(Lang::CSharp)
    }     else if e == "rb"@ {
        Some(Lang::Ruby)
    }     else if e == "lua"@ {
        Some(Lang::Lua)
    }     else if e == "html"@ || e == "htm"@ {
        Some(Lang::Html)
    }     else if e == "css"@ || e == "scss"@ {
        Some(Lang::Css)
    }     else if e == "md"@ || e == "markdown"@ {
        Some(Lang::Markdown)
    } else {
        None
    }
}

/// The language that handles `path`, by its extension.
pub open spec fn language_of_path(path: Seq<char>) -> Option<Lang> {
    match extension(path) {
        Some(e) => lang_for_extension(e),
        None => None,
    }
}

/// The symbol kind of definition nodes of kind `k`.
pub open spec fn definition_kind(l: Lang, k: Seq<char>) -> Option<SymbolKind> {
    match l {
        Lang::Rust => if k == "function_item"@ {
            Some(SymbolKind::Function)
        } else if k == "struct_item"@ {
            Some(SymbolKind::Struct)
        } else if k == "enum_item"@ {
            Some(SymbolKind::Enum)
        } else if k == "trait_item"@ {
            Some(SymbolKind::Trait)
        } else if k == "mod_item"@ {
            Some(SymbolKind::Module)
        } else if k == "type_item"@ {
            Some(SymbolKind::Type)
        } else if k == "const_item"@ {
            Some(SymbolKind::Const)
        } else if k == "static_item"@ {
            Some(SymbolKind::Variable)
        } else {
            None
        },
        Lang::TypeScript => if k == "function_declaration"@ {
            Some(SymbolKind::Function)
        } else if k == "class_declaration"@ {
            Some(SymbolKind::Class)
        } else if k == "method_definition"@ {
            Some(SymbolKind::Method)
        } else if k == "interface_declaration"@ {
            Some(SymbolKind::Interface)
        } else if k == "type_alias_declaration"@ {
            Some(SymbolKind::Type)
        } else if k == "enum_declaration"@ {
            Some(SymbolKind::Enum)
        } else if k == "lexical_declaration"@ {
            Some(SymbolKind::Variable)
        } else if k == "variable_declaration"@ {
            Some(SymbolKind::Variable)
        } else if k == "abstract_class_declaration"@ {
            Some(SymbolKind::Class)
        } else {
            None
        },
        Lang::Python => if k == "function_definition"@ {
            Some(SymbolKind::Function)
        } else if k == "class_definition"@ {
            Some(SymbolKind::Class)
        } else {
            None
        },
        Lang::Go => if k == "function_declaration"@ {
            Some(SymbolKind::Function)
        } else if k == "method_declaration"@ {
            Some(SymbolKind::Method)
        } else if k == "type_spec"@ {
            Some(SymbolKind::Type)
        } else if k == "const_spec"@ {
            Some(SymbolKind::Const)
        } else if k == "var_spec"@ {
            Some(SymbolKind::Variable)
        } else {
            None
        },
        Lang::JavaScript => if k == "function_declaration"@ {
            Some(SymbolKind::Function)
        } else if k == "class_declaration"@ {
            Some(SymbolKind::Class)
        } else if k == "method_definition"@ {
            Some(SymbolKind::Method)
        } else if k == "lexical_declaration"@ {
            Some(SymbolKind::Variable)
        } else if k == "variable_declaration"@ {
            Some(SymbolKind::Variable)
        } else if k == "generator_function_declaration"@ {
            Some(SymbolKind::Function)
        } else {
            None
        },
        Lang::Java => if k == "class_declaration"@ {
            Some(SymbolKind::Class)
        } else if k == "record_declaration"@ {
            Some(SymbolKind::Class)
        } else if k == "interface_declaration"@ {
            Some(SymbolKind::Interface)
        } else if k == "enum_declaration"@ {
            Some(SymbolKind::Enum)
        } else if k == "annotation_type_declaration"@ {
            Some(SymbolKind::Type)
        } else if k == "method_declaration"@ {
            Some(SymbolKind::Method)
        } else if k == "constructor_declaration"@ {
            Some(SymbolKind::Method)
        } else if k == "field_declaration"@ {
            Some(SymbolKind::Variable)
        } else {
            None
        },
        Lang::C => if k == "function_definition"@ {
            Some(SymbolKind::Function)
        } else if k == "struct_specifier"@ {
            Some(SymbolKind::Struct)
        } else if k == "union_specifier"@ {
            Some(SymbolKind::Struct)
        } else if k == "enum_specifier"@ {
            Some(SymbolKind::Enum)
        } else if k == "type_definition"@ {
            Some(SymbolKind::Type)
        } else if k == "field_declaration"@ {
            Some(SymbolKind::Variable)
        } else if k == "declaration"@ {
            Some(SymbolKind::Variable)
        } else if k == "preproc_def"@ {
            Some(SymbolKind::Const)
        } else if k == "preproc_function_def"@ {
            Some(SymbolKind::Const)
        } else {
            None
        },
        Lang::Cpp => if k == "function_definition"@ {
            Some(SymbolKind::Function)
        } else if k == "class_specifier"@ {
            Some(SymbolKind::Class)
        } else if k == "struct_specifier"@ {
            Some(SymbolKind::Struct)
        } else if k == "union_specifier"@ {
            Some(SymbolKind::Struct)
        } else if k == "enum_specifier"@ {
            Some(SymbolKind::Enum)
        } else if k == "type_definition"@ {
            Some(SymbolKind::Type)
        } else if k == "field_declaration"@ {
            Some(SymbolKind::Variable)
        } else if k == "declaration"@ {
            Some(SymbolKind::Variable)
        } else if k == "namespace_definition"@ {
            Some(SymbolKind::Type)
        } else if k == "namespace_alias_definition"@ {
            Some(SymbolKind::Type)
        } else if k == "preproc_def"@ {
            Some(SymbolKind::Const)
        } else if k == "preproc_function_def"@ {
            Some(SymbolKind::Const)
        } else {
            None
        },
        Lang::CSharp => if k == "class_declaration"@ {
            Some(SymbolKind::Class)
        } else if k == "record_declaration"@ {
            Some(SymbolKind::Class)
        } else if k == "interface_declaration"@ {
            Some(SymbolKind::Interface)
        } else if k == "struct_declaration"@ {
            Some(SymbolKind::Struct)
        } else if k == "enum_declaration"@ {
            Some(SymbolKind::Enum)
        } else if k == "namespace_declaration"@ {
            Some(SymbolKind::Type)
        } else if k == "method_declaration"@ {
            Some(SymbolKind::Method)
        } else if k == "constructor_declaration"@ {
            Some(SymbolKind::Method)
        } else if k == "property_declaration"@ {
            Some(SymbolKind::Variable)
        } else if k == "field_declaration"@ {
            Some(SymbolKind::Variable)
        } else if k == "local_function_statement"@ {
            Some(SymbolKind::Function)
        } else {
            None
        },
        Lang::Ruby => if k == "method"@ {
            Some(SymbolKind::Function)
        } else if k == "singleton_method"@ {
            Some(SymbolKind::Function)
        } else if k == "class"@ {
            Some(SymbolKind::Class)
        } else if k == "module"@ {
            Some(SymbolKind::Type)
        } else {
            None
        },
        Lang::Lua => if k == "function_declaration"@ {
            Some(SymbolKind::Function)
        } else if k == "variable_declaration"@ {
            Some(SymbolKind::Variable)
        } else {
            None
        },
        Lang::Html => if k == "element"@ {
            Some(SymbolKind::Element)
        } else {
            None
        },
        Lang::Css => if k == "rule_set"@ {
            Some(SymbolKind::Rule)
        } else {
            None
        },
        Lang::Markdown => if k == "atx_heading"@ {
            Some(SymbolKind::Heading)
        } else if k == "setext_heading"@ {
            Some(SymbolKind::Heading)
        } else {
            None
        },
    }
}

/// Definitions may carry a doc comment just above them.
pub open spec fn has_doc_comment(l: Lang) -> bool {
    match l {
        Lang::Rust => true,
        Lang::TypeScript => true,
        Lang::Python => true,
        Lang::Go => true,
        Lang::JavaScript => true,
        Lang::Java => true,
        Lang::C => true,
        Lang::Cpp => true,
        Lang::CSharp => true,
        Lang::Ruby => true,
        Lang::Lua => true,
        Lang::Html => false,
        Lang::Css => false,
        Lang::Markdown => false,
    }
}

/// `}`, `)` and `]` lines may be kept as block closers in compact views.
pub open spec fn keeps_brace_closers(l: Lang) -> bool {
    match l {
        Lang::Rust => true,
        Lang::TypeScript => true,
        Lang::Python => false,
        Lang::Go => true,
        Lang::JavaScript => true,
        Lang::Java => true,
        Lang::C => true,
        Lang::Cpp => true,
        Lang::CSharp => true,
        Lang::Ruby => true,
        Lang::Lua => true,
        Lang::Html => true,
        Lang::Css => true,
        Lang::Markdown => false,
    }
}

/// Line-comment prefix used for fold markers.
pub open spec fn comment_prefix(l: Lang) -> Seq<char> {
    match l {
        Lang::Rust => "//"@,
        Lang::TypeScript => "//"@,
        Lang::Python => "#"@,
        Lang::Go => "//"@,
        Lang::JavaScript => "//"@,
        Lang::Java => "//"@,
        Lang::C => "//"@,
        Lang::Cpp => "//"@,
        Lang::CSharp => "//"@,
        Lang::Ruby => "#"@,
        Lang::Lua => "--"@,
        Lang::Html => "//"@,
        Lang::Css => "/*"@,
        Lang::Markdown => ""@,
    }
}

/// Closing delimiter of the fold marker comment (empty for line comments).
pub open spec fn comment_close(l: Lang) -> Seq<char> {
    match l {
        Lang::Rust => ""@,
        Lang::TypeScript => ""@,
        Lang::Python => ""@,
        Lang::Go => ""@,
        Lang::JavaScript => ""@,
        Lang::Java => ""@,
        Lang::C => ""@,
        Lang::Cpp => ""@,
        Lang::CSharp => ""@,
        Lang::Ruby => ""@,
        Lang::Lua => ""@,
        Lang::Html => ""@,
        Lang::Css => "*/"@,
        Lang::Markdown => ""@,
    }
}

/// Kinds of a definition's foldable body node.
pub open spec fn is_body_kind(l: Lang, k: Seq<char>) -> bool {
    match l {
        Lang::Rust => k == "block"@ || k == "declaration_list"@ || k == "field_declaration_list"@ || k == "enum_variant_list"@,
        Lang::TypeScript => k == "statement_block"@ || k == "class_body"@ || k == "object"@,
        Lang::Python => k == "block"@,
        Lang::Go => k == "block"@ || k == "field_declaration_list"@ || k == "literal_value"@,
        Lang::JavaScript => k == "statement_block"@ || k == "class_body"@ || k == "object"@,
        Lang::Java => k == "block"@ || k == "class_body"@ || k == "interface_body"@ || k == "enum_body"@,
        Lang::C => k == "compound_statement"@ || k == "field_declaration_list"@ || k == "initializer_list"@ || k == "enumerator_list"@,
        Lang::Cpp => false,
        Lang::CSharp => false,
        Lang::Ruby => k == "body_statement"@,
        Lang::Lua => k == "block"@,
        Lang::Html => false,
        Lang::Css => k == "block"@,
        Lang::Markdown => false,
    }
}

/// Kinds of the nodes that carry imports.
pub open spec fn is_import_kind(l: Lang, k: Seq<char>) -> bool {
    match l {
        Lang::Rust => k == "use_declaration"@ || k == "mod_item"@ || k == "extern_crate_declaration"@,
        Lang::TypeScript => k == "import_statement"@ || k == "import_require_clause"@ || k == "export_statement"@ || k == "call_expression"@,
        Lang::Python => k == "import_statement"@ || k == "import_from_statement"@,
        Lang::Go => k == "import_spec"@,
        Lang::JavaScript => k == "import_statement"@ || k == "export_statement"@ || k == "call_expression"@,
        Lang::Java => k == "import_declaration"@,
        Lang::C => k == "preproc_include"@,
        Lang::Cpp => k == "preproc_include"@ || k == "using_declaration"@,
        Lang::CSharp => k == "using_directive"@,
        Lang::Ruby => k == "call"@,
        Lang::Lua => k == "function_call"@,
        Lang::Html => false,
        Lang::Css => false,
        Lang::Markdown => false,
    }
}

/// The language has body node kinds at all.
pub open spec fn has_body_kinds(l: Lang) -> bool {
    match l {
        Lang::Rust => true,
        Lang::TypeScript => true,
        Lang::Python => true,
        Lang::Go => true,
        Lang::JavaScript => true,
        Lang::Java => true,
        Lang::C => true,
        Lang::Cpp => false,
        Lang::CSharp => false,
        Lang::Ruby => true,
        Lang::Lua => true,
        Lang::Html => false,
        Lang::Css => true,
        Lang::Markdown => false,
    }
}

/// The language has a C-style preprocessor whose directives start with `#`
/// and splice continuation lines with `\`. Only there does a `#`-led line
/// start a foldable macro; elsewhere such lines are headings or comments.
pub open spec fn has_preprocessor(l: Lang) -> bool {
    l == Lang::C || l == Lang::Cpp
}

impl Lang {
    /// Human-readable language name.
    pub fn name(&self) -> (r: &'static str)
        ensures
            r@ == lang_name(*self),
    {
        match self {
            Lang::Rust => "rust",
            Lang::TypeScript => "typescript",
            Lang::Python => "python",
            Lang::Go => "go",
            Lang::JavaScript => "javascript",
            Lang::Java => "java",
            Lang::C => "c",
            Lang::Cpp => "cpp",
            Lang::CSharp => "csharp",
            Lang::Ruby => "ruby",
            Lang::Lua => "lua",
            Lang::Html => "html",
            Lang::Css => "css",
            Lang::Markdown => "markdown",
        }
    }

    /// The symbol kind of definition nodes of kind `kind`.
    pub fn definition_kind(&self, kind: &str) -> (r: Option<SymbolKind>)
        ensures
            r == definition_kind(*self, kind@),
    {
        match self {
            Lang::Rust => {
                if str_eq(kind, "function_item") {
                    Some(SymbolKind::Function)
                } else if str_eq(kind, "struct_item") {
                    Some(SymbolKind::Struct)
                } else if str_eq(kind, "enum_item") {
                    Some(SymbolKind::Enum)
                } else if str_eq(kind, "trait_item") {
                    Some(SymbolKind::Trait)
                } else if str_eq(kind, "mod_item") {
                    Some(SymbolKind::Module)
                } else if str_eq(kind, "type_item") {
                    Some(SymbolKind::Type)
                } else if str_eq(kind, "const_item") {
                    Some(SymbolKind::Const)
                } else if str_eq(kind, "static_item") {
                    Some(SymbolKind::Variable)
                } else {
                    None
                }
            },
            Lang::TypeScript => {
                if str_eq(kind, "function_declaration") {
                    Some(SymbolKind::Function)
                } else if str_eq(kind, "class_declaration") {
                    Some(SymbolKind::Class)
                } else if str_eq(kind, "method_definition") {
                    Some(SymbolKind::Method)
                } else if str_eq(kind, "interface_declaration") {
                    Some(SymbolKind::Interface)
                } else if str_eq(kind, "type_alias_declaration") {
                    Some(SymbolKind::Type)
                } else if str_eq(kind, "enum_declaration") {
                    Some(SymbolKind::Enum)
                } else if str_eq(kind, "lexical_declaration") {
                    Some(SymbolKind::Variable)
                } else if str_eq(kind, "variable_declaration") {
                    Some(SymbolKind::Variable)
                } else if str_eq(kind, "abstract_class_declaration") {
                    Some(SymbolKind::Class)
                } else {
                    None
                }
            },
            Lang::Python => {
                if str_eq(kind, "function_definition") {
                    Some(SymbolKind::Function)
                } else if str_eq(kind, "class_definition") {
                    Some(SymbolKind::Class)
                } else {
                    None
                }
            },
            Lang::Go => {
                if str_eq(kind, "function_declaration") {
                    Some(SymbolKind::Function)
                } else if str_eq(kind, "method_declaration") {
                    Some(SymbolKind::Method)
                } else if str_eq(kind, "type_spec") {
                    Some(SymbolKind::Type)
                } else if str_eq(kind, "const_spec") {
                    Some(SymbolKind::Const)
                } else if str_eq(kind, "var_spec") {
                    Some(SymbolKind::Variable)
                } else {
                    None
                }
            },
            Lang::JavaScript => {
                if str_eq(kind, "function_declaration") {
                    Some(SymbolKind::Function)
                } else if str_eq(kind, "class_declaration") {
                    Some(SymbolKind::Class)
                } else if str_eq(kind, "method_definition") {
                    Some(SymbolKind::Method)
                } else if str_eq(kind, "lexical_declaration") {
                    Some(SymbolKind::Variable)
                } else if str_eq(kind, "variable_declaration") {
                    Some(SymbolKind::Variable)
                } else if str_eq(kind, "generator_function_declaration") {
                    Some(SymbolKind::Function)
                } else {
                    None
                }
            },
            Lang::Java => {
                if str_eq(kind, "class_declaration") {
                    Some(SymbolKind::Class)
                } else if str_eq(kind, "record_declaration") {
                    Some(SymbolKind::Class)
                } else if str_eq(kind, "interface_declaration") {
                    Some(SymbolKind::Interface)
                } else if str_eq(kind, "enum_declaration") {
                    Some(SymbolKind::Enum)
                } else if str_eq(kind, "annotation_type_declaration") {
                    Some(SymbolKind::Type)
                } else if str_eq(kind, "method_declaration") {
                    Some(SymbolKind::Method)
                } else if str_eq(kind, "constructor_declaration") {
                    Some(SymbolKind::Method)
                } else if str_eq(kind, "field_declaration") {
                    Some(SymbolKind::Variable)
                } else {
                    None
                }
            },
            Lang::C => {
                if str_eq(kind, "function_definition") {
                    Some(SymbolKind::Function)
                } else if str_eq(kind, "struct_specifier") {
                    Some(SymbolKind::Struct)
                } else if str_eq(kind, "union_specifier") {
                    Some(SymbolKind::Struct)
                } else if str_eq(kind, "enum_specifier") {
                    Some(SymbolKind::Enum)
                } else if str_eq(kind, "type_definition") {
                    Some(SymbolKind::Type)
                } else if str_eq(kind, "field_declaration") {
                    Some(SymbolKind::Variable)
                } else if str_eq(kind, "declaration") {
                    Some(SymbolKind::Variable)
                } else if str_eq(kind, "preproc_def") {
                    Some(SymbolKind::Const)
                } else if str_eq(kind, "preproc_function_def") {
                    Some(SymbolKind::Const)
                } else {
                    None
                }
            },
            Lang::Cpp => {
                if str_eq(kind, "function_definition") {
                    Some(SymbolKind::Function)
                } else if str_eq(kind, "class_specifier") {
                    Some(SymbolKind::Class)
                } else if str_eq(kind, "struct_specifier") {
                    Some(SymbolKind::Struct)
                } else if str_eq(kind, "union_specifier") {
                    Some(SymbolKind::Struct)
                } else if str_eq(kind, "enum_specifier") {
                    Some(SymbolKind::Enum)
                } else if str_eq(kind, "type_definition") {
                    Some(SymbolKind::Type)
                } else if str_eq(kind, "field_declaration") {
                    Some(SymbolKind::Variable)
                } else if str_eq(kind, "declaration") {
                    Some(SymbolKind::Variable)
                } else if str_eq(kind, "namespace_definition") {
                    Some(SymbolKind::Type)
                } else if str_eq(kind, "namespace_alias_definition") {
                    Some(SymbolKind::Type)
                } else if str_eq(kind, "preproc_def") {
                    Some(SymbolKind::Const)
                } else if str_eq(kind, "preproc_function_def") {
                    Some(SymbolKind::Const)
                } else {
                    None
                }
            },
            Lang::CSharp => {
                if str_eq(kind, "class_declaration") {
                    Some(SymbolKind::Class)
                } else if str_eq(kind, "record_declaration") {
                    Some(SymbolKind::Class)
                } else if str_eq(kind, "interface_declaration") {
                    Some(SymbolKind::Interface)
                } else if str_eq(kind, "struct_declaration") {
                    Some(SymbolKind::Struct)
                } else if str_eq(kind, "enum_declaration") {
                    Some(SymbolKind::Enum)
                } else if str_eq(kind, "namespace_declaration") {
                    Some(SymbolKind::Type)
                } else if str_eq(kind, "method_declaration") {
                    Some(SymbolKind::Method)
                } else if str_eq(kind, "constructor_declaration") {
                    Some(SymbolKind::Method)
                } else if str_eq(kind, "property_declaration") {
                    Some(SymbolKind::Variable)
                } else if str_eq(kind, "field_declaration") {
                    Some(SymbolKind::Variable)
                } else if str_eq(kind, "local_function_statement") {
                    Some(SymbolKind::Function)
                } else {
                    None
                }
            },
            Lang::Ruby => {
                if str_eq(kind, "method") {
                    Some(SymbolKind::Function)
                } else if str_eq(kind, "singleton_method") {
                    Some(SymbolKind::Function)
                } else if str_eq(kind, "class") {
                    Some(SymbolKind::Class)
                } else if str_eq(kind, "module") {
                    Some(SymbolKind::Type)
                } else {
                    None
                }
            },
            Lang::Lua => {
                if str_eq(kind, "function_declaration") {
                    Some(SymbolKind::Function)
                } else if str_eq(kind, "variable_declaration") {
                    Some(SymbolKind::Variable)
                } else {
                    None
                }
            },
            Lang::Html => {
                if str_eq(kind, "element") {
                    Some(SymbolKind::Element)
                } else {
                    None
                }
            },
            Lang::Css => {
                if str_eq(kind, "rule_set") {
                    Some(SymbolKind::Rule)
                } else {
                    None
                }
            },
            Lang::Markdown => {
                if str_eq(kind, "atx_heading") {
                    Some(SymbolKind::Heading)
                } else if str_eq(kind, "setext_heading") {
                    Some(SymbolKind::Heading)
                } else {
                    None
                }
            },
        }
    }

    /// Definitions may carry a doc comment just above them.
    pub fn has_doc_comment(&self) -> (r: bool)
        ensures
            r == has_doc_comment(*self),
    {
        match self {
            Lang::Rust => true,
            Lang::TypeScript => true,
            Lang::Python => true,
            Lang::Go => true,
            Lang::JavaScript => true,
            Lang::Java => true,
            Lang::C => true,
            Lang::Cpp => true,
            Lang::CSharp => true,
            Lang::Ruby => true,
            Lang::Lua => true,
            Lang::Html => false,
            Lang::Css => false,
            Lang::Markdown => false,
        }
    }

    /// `}`, `)` and `]` lines may be kept as block closers.
    pub fn keeps_brace_closers(&self) -> (r: bool)
        ensures
            r == keeps_brace_closers(*self),
    {
        match self {
            Lang::Rust => true,
            Lang::TypeScript => true,
            Lang::Python => false,
            Lang::Go => true,
            Lang::JavaScript => true,
            Lang::Java => true,
            Lang::C => true,
            Lang::Cpp => true,
            Lang::CSharp => true,
            Lang::Ruby => true,
            Lang::Lua => true,
            Lang::Html => true,
            Lang::Css => true,
            Lang::Markdown => false,
        }
    }

    /// The language has a C-style preprocessor.
    pub fn has_preprocessor(&self) -> (r: bool)
        ensures
            r == has_preprocessor(*self),
    {
        match self {
            Lang::C => true,
            Lang::Cpp => true,
            _ => false,
        }
    }

    /// The language has body node kinds.
    pub fn has_body_kinds(&self) -> (r: bool)
        ensures
            r == has_body_kinds(*self),
    {
        match self {
            Lang::Rust => true,
            Lang::TypeScript => true,
            Lang::Python => true,
            Lang::Go => true,
            Lang::JavaScript => true,
            Lang::Java => true,
            Lang::C => true,
            Lang::Cpp => false,
            Lang::CSharp => false,
            Lang::Ruby => true,
            Lang::Lua => true,
            Lang::Html => false,
            Lang::Css => true,
            Lang::Markdown => false,
        }
    }

    /// Line-comment prefix used for fold markers.
    pub fn comment_prefix(&self) -> (r: &'static str)
        ensures
            r@ == comment_prefix(*self),
    {
        match self {
            Lang::Rust => "//",
            Lang::TypeScript => "//",
            Lang::Python => "#",
            Lang::Go => "//",
            Lang::JavaScript => "//",
            Lang::Java => "//",
            Lang::C => "//",
            Lang::Cpp => "//",
            Lang::CSharp => "//",
            Lang::Ruby => "#",
            Lang::Lua => "--",
            Lang::Html => "//",
            Lang::Css => "/*",
            Lang::Markdown => "",
        }
    }

    /// Closing delimiter of fold markers.
    pub fn comment_close(&self) -> (r: &'static str)
        ensures
            r@ == comment_close(*self),
    {
        match self {
            Lang::Rust => "",
            Lang::TypeScript => "",
            Lang::Python => "",
            Lang::Go => "",
            Lang::JavaScript => "",
            Lang::Java => "",
            Lang::C => "",
            Lang::Cpp => "",
            Lang::CSharp => "",
            Lang::Ruby => "",
            Lang::Lua => "",
            Lang::Html => "",
            Lang::Css => "*/",
            Lang::Markdown => "",
        }
    }

    /// Kinds of a definition's foldable body node.
    pub fn is_body_kind(&self, kind: &str) -> (r: bool)
        ensures
            r == is_body_kind(*self, kind@),
    {
        match self {
            Lang::Rust => str_eq(kind, "block") || str_eq(kind, "declaration_list") || str_eq(kind, "field_declaration_list") || str_eq(kind, "enum_variant_list"),
            Lang::TypeScript => str_eq(kind, "statement_block") || str_eq(kind, "class_body") || str_eq(kind, "object"),
            Lang::Python => str_eq(kind, "block"),
            Lang::Go => str_eq(kind, "block") || str_eq(kind, "field_declaration_list") || str_eq(kind, "literal_value"),
            Lang::JavaScript => str_eq(kind, "statement_block") || str_eq(kind, "class_body") || str_eq(kind, "object"),
            Lang::Java => str_eq(kind, "block") || str_eq(kind, "class_body") || str_eq(kind, "interface_body") || str_eq(kind, "enum_body"),
            Lang::C => str_eq(kind, "compound_statement") || str_eq(kind, "field_declaration_list") || str_eq(kind, "initializer_list") || str_eq(kind, "enumerator_list"),
            Lang::Cpp => false,
            Lang::CSharp => false,
            Lang::Ruby => str_eq(kind, "body_statement"),
            Lang::Lua => str_eq(kind, "block"),
            Lang::Html => false,
            Lang::Css => str_eq(kind, "block"),
            Lang::Markdown => false,
        }
    }

    /// Kinds of the nodes that carry imports.
    pub fn is_import_kind(&self, kind: &str) -> (r: bool)
        ensures
            r == is_import_kind(*self, kind@),
    {
        match self {
            Lang::Rust => str_eq(kind, "use_declaration") || str_eq(kind, "mod_item") || str_eq(kind, "extern_crate_declaration"),
            Lang::TypeScript => str_eq(kind, "import_statement") || str_eq(kind, "import_require_clause") || str_eq(kind, "export_statement") || str_eq(kind, "call_expression"),
            Lang::Python => str_eq(kind, "import_statement") || str_eq(kind, "import_from_statement"),
            Lang::Go => str_eq(kind, "import_spec"),
            Lang::JavaScript => str_eq(kind, "import_statement") || str_eq(kind, "export_statement") || str_eq(kind, "call_expression"),
            Lang::Java => str_eq(kind, "import_declaration"),
            Lang::C => str_eq(kind, "preproc_include"),
            Lang::Cpp => str_eq(kind, "preproc_include") || str_eq(kind, "using_declaration"),
            Lang::CSharp => str_eq(kind, "using_directive"),
            Lang::Ruby => str_eq(kind, "call"),
            Lang::Lua => str_eq(kind, "function_call"),
            Lang::Html => false,
            Lang::Css => false,
            Lang::Markdown => false,
        }
    }

}

fn language_for_extension(e: &str) -> (r: Option<Lang>)
    ensures
        r == lang_for_extension(e@),
{
    if str_eq(e, "rs") {
        Some(Lang::Rust)
    }     else if str_eq(e, "ts") || str_eq(e, "tsx") || str_eq(e, "mts") || str_eq(e, "cts") {
        Some(Lang::TypeScript)
    }     else if str_eq(e, "py") || str_eq(e, "pyi") {
        Some(Lang::Python)
    }     else if str_eq(e, "go") {
        Some(Lang::Go)
    }     else if str_eq(e, "js") || str_eq(e, "jsx") || str_eq(e, "mjs") || str_eq(e, "cjs") {
        Some(Lang::JavaScript)
    }     else if str_eq(e, "java") {
        Some(Lang::Java)
    }     else if str_eq(e, "c") || str_eq(e, "h") {
        Some(Lang::C)
    }     else if str_eq(e, "cpp") || str_eq(e, "cc") || str_eq(e, "cxx") || str_eq(e, "hpp") || str_eq(e, "hh") || str_eq(e, "hxx") || str_eq(e, "h++") {
        Some(Lang::Cpp)
    }     else if str_eq(e, "cs") {
        Some(Lang::CSharp)
    }     else if str_eq(e, "rb") {
        Some(Lang::Ruby)
    }     else if str_eq(e, "lua") {
        Some(Lang::Lua)
    }     else if str_eq(e, "html") || str_eq(e, "htm") {
        Some(Lang::Html)
    }     else if str_eq(e, "css") || str_eq(e, "scss") {
        Some(Lang::Css)
    }     else if str_eq(e, "md") || str_eq(e, "markdown") {
        Some(Lang::Markdown)
    } else {
        None
    }
}

/// Detect the language backend for a path, by its extension.
pub fn detect_language(path: &str) -> (r: Option<Lang>)
    ensures
        r == language_of_path(path@),
{
    match extension_of(path) {
        Some(e) => language_for_extension(e.as_str()),
        None => None,
    }
}

/// The symbol kind that a node kind defines in `lang`, if it is a
/// definition there.
pub fn is_definition(lang: Lang, kind: &str) -> (r: Option<SymbolKind>)
    ensures
        r == definition_kind(lang, kind@),
{
    lang.definition_kind(kind)
}

} // verus!
