//! Per-language tables of the grammar-driven parser: which file extensions a
//! grammar reads, which node kinds define which labels, which kinds are calls,
//! and the small text rules for receivers and routes.

use crate::syntax::Grammar;
use crate::text::{
    ascii_alnum, ascii_lower, chars_of, is_alphanumeric, is_ascii_alnum, str_eq, string_of,
    to_ascii_lower, trim_chars, trimmed, unicode_alphanumeric,
};
use crate::types::{NodeLabel, Receiver, ReceiverV};
use vstd::prelude::*;

verus! {

/// The grammar for a file extension.
pub open spec fn grammar_for(ext: Seq<char>) -> Option<Grammar> {
    if ext == "rs"@ {
        Some(Grammar::Rust)
    } else if ext == "py"@ || ext == "pyi"@ {
        Some(Grammar::Python)
    } else if ext == "js"@ || ext == "jsx"@ || ext == "mjs"@ || ext == "cjs"@ {
        Some(Grammar::JavaScript)
    } else if ext == "ts"@ || ext == "mts"@ || ext == "cts"@ {
        Some(Grammar::TypeScript)
    } else if ext == "tsx"@ {
        Some(Grammar::Tsx)
    } else if ext == "go"@ {
        Some(Grammar::Go)
    } else if ext == "kt"@ || ext == "kts"@ {
        Some(Grammar::Kotlin)
    } else if ext == "swift"@ {
        Some(Grammar::Swift)
    } else if ext == "java"@ {
        Some(Grammar::Java)
    } else if ext == "c"@ || ext == "h"@ {
        Some(Grammar::C)
    } else if ext == "cpp"@ || ext == "cc"@ || ext == "cxx"@ || ext == "hpp"@ || ext == "hh"@ || ext == "hxx"@ {
        Some(Grammar::Cpp)
    } else if ext == "rb"@ {
        Some(Grammar::Ruby)
    } else if ext == "cs"@ {
        Some(Grammar::CSharp)
    } else if ext == "sh"@ || ext == "bash"@ {
        Some(Grammar::Bash)
    } else {
        None
    }
}

/// The grammar for a file extension, if the parser knows one.
pub fn spec_for_ext(ext: &str) -> (r: Option<Grammar>)
    ensures
        r == grammar_for(ext@),
{
    if str_eq(ext, "rs") {
        Some(Grammar::Rust)
    } else if str_eq(ext, "py") || str_eq(ext, "pyi") {
        Some(Grammar::Python)
    } else if str_eq(ext, "js") || str_eq(ext, "jsx") || str_eq(ext, "mjs") || str_eq(ext, "cjs") {
        Some(Grammar::JavaScript)
    } else if str_eq(ext, "ts") || str_eq(ext, "mts") || str_eq(ext, "cts") {
        Some(Grammar::TypeScript)
    } else if str_eq(ext, "tsx") {
        Some(Grammar::Tsx)
    } else if str_eq(ext, "go") {
        Some(Grammar::Go)
    } else if str_eq(ext, "kt") || str_eq(ext, "kts") {
        Some(Grammar::Kotlin)
    } else if str_eq(ext, "swift") {
        Some(Grammar::Swift)
    } else if str_eq(ext, "java") {
        Some(Grammar::Java)
    } else if str_eq(ext, "c") || str_eq(ext, "h") {
        Some(Grammar::C)
    } else if str_eq(ext, "cpp") || str_eq(ext, "cc") || str_eq(ext, "cxx") || str_eq(ext, "hpp") || str_eq(
        ext,
        "hh",
    ) || str_eq(ext, "hxx") {
        Some(Grammar::Cpp)
    } else if str_eq(ext, "rb") {
        Some(Grammar::Ruby)
    } else if str_eq(ext, "cs") {
        Some(Grammar::CSharp)
    } else if str_eq(ext, "sh") || str_eq(ext, "bash") {
        Some(Grammar::Bash)
    } else {
        None
    }
}

/// The language name recorded on nodes.
pub open spec fn lang_name(g: Grammar) -> Seq<char> {
    match g {
        Grammar::Rust => "rust"@,
        Grammar::Python => "python"@,
        Grammar::JavaScript => "javascript"@,
        Grammar::TypeScript => "typescript"@,
        Grammar::Tsx => "typescript"@,
        Grammar::Go => "go"@,
        Grammar::Swift => "swift"@,
        Grammar::Java => "java"@,
        Grammar::C => "c"@,
        Grammar::Cpp => "cpp"@,
        Grammar::Ruby => "ruby"@,
        Grammar::CSharp => "csharp"@,
        Grammar::Kotlin => "kotlin"@,
        Grammar::Bash => "bash"@,
    }
}

/// The language name recorded on nodes.
pub fn lang_name_of(g: Grammar) -> (r: &'static str)
    ensures
        r@ == lang_name(g),
{
    match g {
        Grammar::Rust => "rust",
        Grammar::Python => "python",
        Grammar::JavaScript => "javascript",
        Grammar::TypeScript => "typescript",
        Grammar::Tsx => "typescript",
        Grammar::Go => "go",
        Grammar::Swift => "swift",
        Grammar::Java => "java",
        Grammar::C => "c",
        Grammar::Cpp => "cpp",
        Grammar::Ruby => "ruby",
        Grammar::CSharp => "csharp",
        Grammar::Kotlin => "kotlin",
        Grammar::Bash => "bash",
    }
}

pub open spec fn rust_label_of(k: Seq<char>) -> Option<NodeLabel> {
    if k == "function_item"@ {
        Some(NodeLabel::Function)
    } else if k == "struct_item"@ || k == "union_item"@ {
        Some(NodeLabel::Class)
    } else if k == "enum_item"@ {
        Some(NodeLabel::Enum)
    } else if k == "trait_item"@ {
        Some(NodeLabel::Interface)
    } else if k == "type_item"@ {
        Some(NodeLabel::Type)
    } else if k == "mod_item"@ {
        Some(NodeLabel::Module)
    } else {
        None
    }
}

pub fn rust_label(k: &str) -> (r: Option<NodeLabel>)
    ensures
        r == rust_label_of(k@),
{
    if str_eq(k, "function_item") {
        Some(NodeLabel::Function)
    } else if str_eq(k, "struct_item") || str_eq(k, "union_item") {
        Some(NodeLabel::Class)
    } else if str_eq(k, "enum_item") {
        Some(NodeLabel::Enum)
    } else if str_eq(k, "trait_item") {
        Some(NodeLabel::Interface)
    } else if str_eq(k, "type_item") {
        Some(NodeLabel::Type)
    } else if str_eq(k, "mod_item") {
        Some(NodeLabel::Module)
    } else {
        None
    }
}

pub open spec fn python_label_of(k: Seq<char>) -> Option<NodeLabel> {
    if k == "function_definition"@ {
        Some(NodeLabel::Function)
    } else if k == "class_definition"@ {
        Some(NodeLabel::Class)
    } else {
        None
    }
}

pub fn python_label(k: &str) -> (r: Option<NodeLabel>)
    ensures
        r == python_label_of(k@),
{
    if str_eq(k, "function_definition") {
        Some(NodeLabel::Function)
    } else if str_eq(k, "class_definition") {
        Some(NodeLabel::Class)
    } else {
        None
    }
}

pub open spec fn js_label_of(k: Seq<char>) -> Option<NodeLabel> {
    if k == "function_declaration"@ || k == "generator_function_declaration"@ {
        Some(NodeLabel::Function)
    } else if k == "class_declaration"@ {
        Some(NodeLabel::Class)
    } else if k == "method_definition"@ {
        Some(NodeLabel::Method)
    } else {
        None
    }
}

pub fn js_label(k: &str) -> (r: Option<NodeLabel>)
    ensures
        r == js_label_of(k@),
{
    if str_eq(k, "function_declaration") || str_eq(k, "generator_function_declaration") {
        Some(NodeLabel::Function)
    } else if str_eq(k, "class_declaration") {
        Some(NodeLabel::Class)
    } else if str_eq(k, "method_definition") {
        Some(NodeLabel::Method)
    } else {
        None
    }
}

pub open spec fn ts_label_of(k: Seq<char>) -> Option<NodeLabel> {
    if k == "interface_declaration"@ {
        Some(NodeLabel::Interface)
    } else if k == "type_alias_declaration"@ {
        Some(NodeLabel::Type)
    } else if k == "enum_declaration"@ {
        Some(NodeLabel::Enum)
    } else if k == "abstract_class_declaration"@ {
        Some(NodeLabel::Class)
    } else {
        js_label_of(k)
    }
}

pub fn ts_label(k: &str) -> (r: Option<NodeLabel>)
    ensures
        r == ts_label_of(k@),
{
    if str_eq(k, "interface_declaration") {
        Some(NodeLabel::Interface)
    } else if str_eq(k, "type_alias_declaration") {
        Some(NodeLabel::Type)
    } else if str_eq(k, "enum_declaration") {
        Some(NodeLabel::Enum)
    } else if str_eq(k, "abstract_class_declaration") {
        Some(NodeLabel::Class)
    } else {
        js_label(k)
    }
}

pub open spec fn go_label_of(k: Seq<char>) -> Option<NodeLabel> {
    if k == "function_declaration"@ {
        Some(NodeLabel::Function)
    } else if k == "method_declaration"@ {
        Some(NodeLabel::Method)
    } else if k == "type_spec"@ {
        Some(NodeLabel::Class)
    } else {
        None
    }
}

pub fn go_label(k: &str) -> (r: Option<NodeLabel>)
    ensures
        r == go_label_of(k@),
{
    if str_eq(k, "function_declaration") {
        Some(NodeLabel::Function)
    } else if str_eq(k, "method_declaration") {
        Some(NodeLabel::Method)
    } else if str_eq(k, "type_spec") {
        Some(NodeLabel::Class)
    } else {
        None
    }
}

/// Swift: class, struct, enum and actor all parse as `class_declaration`.
pub open spec fn swift_label_of(k: Seq<char>) -> Option<NodeLabel> {
    if k == "function_declaration"@ {
        Some(NodeLabel::Function)
    } else if k == "class_declaration"@ {
        Some(NodeLabel::Class)
    } else if k == "protocol_declaration"@ {
        Some(NodeLabel::Interface)
    } else if k == "typealias_declaration"@ {
        Some(NodeLabel::Type)
    } else {
        None
    }
}

pub fn swift_label(k: &str) -> (r: Option<NodeLabel>)
    ensures
        r == swift_label_of(k@),
{
    if str_eq(k, "function_declaration") {
        Some(NodeLabel::Function)
    } else if str_eq(k, "class_declaration") {
        Some(NodeLabel::Class)
    } else if str_eq(k, "protocol_declaration") {
        Some(NodeLabel::Interface)
    } else if str_eq(k, "typealias_declaration") {
        Some(NodeLabel::Type)
    } else {
        None
    }
}

pub open spec fn java_label_of(k: Seq<char>) -> Option<NodeLabel> {
    if k == "method_declaration"@ || k == "constructor_declaration"@ {
        Some(NodeLabel::Method)
    } else if k == "class_declaration"@ || k == "record_declaration"@ {
        Some(NodeLabel::Class)
    } else if k == "interface_declaration"@ || k == "annotation_type_declaration"@ {
        Some(NodeLabel::Interface)
    } else if k == "enum_declaration"@ {
        Some(NodeLabel::Enum)
    } else {
        None
    }
}

pub fn java_label(k: &str) -> (r: Option<NodeLabel>)
    ensures
        r == java_label_of(k@),
{
    if str_eq(k, "method_declaration") || str_eq(k, "constructor_declaration") {
        Some(NodeLabel::Method)
    } else if str_eq(k, "class_declaration") || str_eq(k, "record_declaration") {
        Some(NodeLabel::Class)
    } else if str_eq(k, "interface_declaration") || str_eq(k, "annotation_type_declaration") {
        Some(NodeLabel::Interface)
    } else if str_eq(k, "enum_declaration") {
        Some(NodeLabel::Enum)
    } else {
        None
    }
}

pub open spec fn c_label_of(k: Seq<char>) -> Option<NodeLabel> {
    if k == "function_definition"@ {
        Some(NodeLabel::Function)
    } else if k == "struct_specifier"@ || k == "union_specifier"@ {
        Some(NodeLabel::Class)
    } else if k == "enum_specifier"@ {
        Some(NodeLabel::Enum)
    } else if k == "type_definition"@ {
        Some(NodeLabel::Type)
    } else {
        None
    }
}

pub fn c_label(k: &str) -> (r: Option<NodeLabel>)
    ensures
        r == c_label_of(k@),
{
    if str_eq(k, "function_definition") {
        Some(NodeLabel::Function)
    } else if str_eq(k, "struct_specifier") || str_eq(k, "union_specifier") {
        Some(NodeLabel::Class)
    } else if str_eq(k, "enum_specifier") {
        Some(NodeLabel::Enum)
    } else if str_eq(k, "type_definition") {
        Some(NodeLabel::Type)
    } else {
        None
    }
}

pub open spec fn cpp_label_of(k: Seq<char>) -> Option<NodeLabel> {
    if k == "class_specifier"@ {
        Some(NodeLabel::Class)
    } else if k == "namespace_definition"@ {
        Some(NodeLabel::Module)
    } else {
        c_label_of(k)
    }
}

pub fn cpp_label(k: &str) -> (r: Option<NodeLabel>)
    ensures
        r == cpp_label_of(k@),
{
    if str_eq(k, "class_specifier") {
        Some(NodeLabel::Class)
    } else if str_eq(k, "namespace_definition") {
        Some(NodeLabel::Module)
    } else {
        c_label(k)
    }
}

pub open spec fn ruby_label_of(k: Seq<char>) -> Option<NodeLabel> {
    if k == "method"@ || k == "singleton_method"@ {
        Some(NodeLabel::Method)
    } else if k == "class"@ {
        Some(NodeLabel::Class)
    } else if k == "module"@ {
        Some(NodeLabel::Module)
    } else {
        None
    }
}

pub fn ruby_label(k: &str) -> (r: Option<NodeLabel>)
    ensures
        r == ruby_label_of(k@),
{
    if str_eq(k, "method") || str_eq(k, "singleton_method") {
        Some(NodeLabel::Method)
    } else if str_eq(k, "class") {
        Some(NodeLabel::Class)
    } else if str_eq(k, "module") {
        Some(NodeLabel::Module)
    } else {
        None
    }
}

pub open spec fn csharp_label_of(k: Seq<char>) -> Option<NodeLabel> {
    if k == "method_declaration"@ || k == "constructor_declaration"@ {
        Some(NodeLabel::Method)
    } else if k == "class_declaration"@ || k == "record_declaration"@ || k == "struct_declaration"@ {
        Some(NodeLabel::Class)
    } else if k == "interface_declaration"@ {
        Some(NodeLabel::Interface)
    } else if k == "enum_declaration"@ {
        Some(NodeLabel::Enum)
    } else {
        None
    }
}

pub fn csharp_label(k: &str) -> (r: Option<NodeLabel>)
    ensures
        r == csharp_label_of(k@),
{
    if str_eq(k, "method_declaration") || str_eq(k, "constructor_declaration") {
        Some(NodeLabel::Method)
    } else if str_eq(k, "class_declaration") || str_eq(k, "record_declaration") || str_eq(
        k,
        "struct_declaration",
    ) {
        Some(NodeLabel::Class)
    } else if str_eq(k, "interface_declaration") {
        Some(NodeLabel::Interface)
    } else if str_eq(k, "enum_declaration") {
        Some(NodeLabel::Enum)
    } else {
        None
    }
}

/// Kotlin: class, interface, object and enum parse as `class_declaration` or
/// `object_declaration`.
pub open spec fn kotlin_label_of(k: Seq<char>) -> Option<NodeLabel> {
    if k == "function_declaration"@ {
        Some(NodeLabel::Function)
    } else if k == "class_declaration"@ || k == "object_declaration"@ {
        Some(NodeLabel::Class)
    } else {
        None
    }
}

pub fn kotlin_label(k: &str) -> (r: Option<NodeLabel>)
    ensures
        r == kotlin_label_of(k@),
{
    if str_eq(k, "function_declaration") {
        Some(NodeLabel::Function)
    } else if str_eq(k, "class_declaration") || str_eq(k, "object_declaration") {
        Some(NodeLabel::Class)
    } else {
        None
    }
}

pub open spec fn bash_label_of(k: Seq<char>) -> Option<NodeLabel> {
    if k == "function_definition"@ {
        Some(NodeLabel::Function)
    } else {
        None
    }
}

pub fn bash_label(k: &str) -> (r: Option<NodeLabel>)
    ensures
        r == bash_label_of(k@),
{
    if str_eq(k, "function_definition") {
        Some(NodeLabel::Function)
    } else {
        None
    }
}

/// The label a node kind defines in a grammar.
pub open spec fn label_for(g: Grammar, k: Seq<char>) -> Option<NodeLabel> {
    match g {
        Grammar::Rust => rust_label_of(k),
        Grammar::Python => python_label_of(k),
        Grammar::JavaScript => js_label_of(k),
        Grammar::TypeScript => ts_label_of(k),
        Grammar::Tsx => ts_label_of(k),
        Grammar::Go => go_label_of(k),
        Grammar::Swift => swift_label_of(k),
        Grammar::Java => java_label_of(k),
        Grammar::C => c_label_of(k),
        Grammar::Cpp => cpp_label_of(k),
        Grammar::Ruby => ruby_label_of(k),
        Grammar::CSharp => csharp_label_of(k),
        Grammar::Kotlin => kotlin_label_of(k),
        Grammar::Bash => bash_label_of(k),
    }
}

/// The label a node kind defines in a grammar.
pub fn label_of(g: Grammar, k: &str) -> (r: Option<NodeLabel>)
    ensures
        r == label_for(g, k@),
{
    match g {
        Grammar::Rust => rust_label(k),
        Grammar::Python => python_label(k),
        Grammar::JavaScript => js_label(k),
        Grammar::TypeScript => ts_label(k),
        Grammar::Tsx => ts_label(k),
        Grammar::Go => go_label(k),
        Grammar::Swift => swift_label(k),
        Grammar::Java => java_label(k),
        Grammar::C => c_label(k),
        Grammar::Cpp => cpp_label(k),
        Grammar::Ruby => ruby_label(k),
        Grammar::CSharp => csharp_label(k),
        Grammar::Kotlin => kotlin_label(k),
        Grammar::Bash => bash_label(k),
    }
}

/// The node kinds that are calls in a grammar.
pub open spec fn call_kinds(g: Grammar) -> Seq<Seq<char>> {
    match g {
        Grammar::Python => seq!["call"@],
        Grammar::Swift => seq!["call_expression"@],
        Grammar::Java => seq!["method_invocation"@],
        Grammar::Ruby => seq!["call"@],
        Grammar::CSharp => seq!["invocation_expression"@],
        Grammar::Bash => seq![],
        _ => seq!["call_expression"@],
    }
}

/// Whether `k` is a call kind of the grammar.
pub fn is_call_kind(g: Grammar, k: &str) -> (r: bool)
    ensures
        r == call_kinds(g).contains(k@),
{
    let ghost ks = call_kinds(g);
    let c: &str = match g {
        Grammar::Python => "call",
        Grammar::Java => "method_invocation",
        Grammar::Ruby => "call",
        Grammar::CSharp => "invocation_expression",
        Grammar::Bash => {
            proof {
                assert(ks =~= Seq::<Seq<char>>::empty());
            }
            return false;
        },
        _ => "call_expression",
    };
    proof {
        assert(ks =~= seq![c@]);
        assert(ks[0] == c@);
    }
    str_eq(k, c)
}

/// The fields that hold the callee of a call, tried in order.
pub open spec fn callee_fields(g: Grammar) -> Seq<Seq<char>> {
    match g {
        Grammar::Swift => seq![],
        Grammar::Kotlin => seq![],
        Grammar::Bash => seq![],
        Grammar::Java => seq!["name"@],
        Grammar::Ruby => seq!["method"@],
        _ => seq!["function"@],
    }
}

/// The fields that hold the callee of a call.
pub fn callee_fields_of(g: Grammar) -> (r: Vec<&'static str>)
    ensures
        r@.map_values(|s: &str| s@) == callee_fields(g),
{
    let mut v: Vec<&'static str> = Vec::new();
    match g {
        Grammar::Swift | Grammar::Kotlin | Grammar::Bash => {},
        Grammar::Java => v.push("name"),
        Grammar::Ruby => v.push("method"),
        _ => v.push("function"),
    }
    proof {
        assert(v@.map_values(|s: &str| s@) =~= callee_fields(g));
    }
    v
}

/// C and C++ name functions through a chain of declarators.
pub open spec fn uses_declarators(g: Grammar) -> bool {
    g == Grammar::C || g == Grammar::Cpp
}

/// Languages where a bare `field.method()` is an implicit `this.field.method()`.
pub open spec fn implicit_member(spec: Seq<char>) -> bool {
    spec == "swift"@ || spec == "kotlin"@ || spec == "java"@ || spec == "csharp"@ || spec == "cpp"@ || spec
        == "ruby"@
}

/// Languages where a bare `field.method()` is an implicit `this.field.method()`
/// (member access without an explicit receiver).
pub fn has_implicit_member(spec: &str) -> (r: bool)
    ensures
        r == implicit_member(spec@),
{
    str_eq(spec, "swift") || str_eq(spec, "kotlin") || str_eq(spec, "java") || str_eq(spec, "csharp")
        || str_eq(spec, "cpp") || str_eq(spec, "ruby")
}

/// In TS/JS a nested non-arrow function literal rebinds `this`.
pub open spec fn rebinds(spec: Seq<char>, kind: Seq<char>) -> bool {
    (spec == "typescript"@ || spec == "javascript"@) && (kind == "function_declaration"@ || kind
        == "function_expression"@ || kind == "generator_function"@ || kind == "generator_function_declaration"@)
}

/// Whether a node of `kind` rebinds `this` in language `spec`.
pub fn rebinds_this(spec: &str, kind: &str) -> (r: bool)
    ensures
        r == rebinds(spec@, kind@),
{
    (str_eq(spec, "typescript") || str_eq(spec, "javascript")) && (str_eq(kind, "function_declaration")
        || str_eq(kind, "function_expression") || str_eq(kind, "generator_function") || str_eq(
        kind,
        "generator_function_declaration",
    ))
}

/// The names of HTTP route registrars (lowercase).
pub open spec fn http_method_names() -> Seq<Seq<char>> {
    seq![
        "get"@, "post"@, "put"@, "delete"@, "patch"@, "all"@, "head"@, "options"@, "route"@,
        "getmapping"@, "postmapping"@, "putmapping"@, "deletemapping"@, "patchmapping"@,
        "requestmapping"@,
    ]
}

/// Whether `name`, ASCII-lowercased, names an HTTP route registrar.
pub open spec fn http_method(name: Seq<char>) -> bool {
    http_method_names().contains(name.map_values(|c: char| ascii_lower(c)))
}

/// Whether `name` (any ASCII case) names an HTTP route registrar.
pub fn is_http_method(name: &str) -> (r: bool)
    ensures
        r == http_method(name@),
{
    let cs = chars_of(name);
    let mut low: Vec<char> = Vec::new();
    let n = cs.len();
    for i in 0..n
        invariant
            n == cs@.len(),
            cs@ == name@,
            low@ == cs@.take(i as int).map_values(|c: char| ascii_lower(c)),
    {
        low.push(to_ascii_lower(cs[i]));
        proof {
            assert(low@ =~= cs@.take(i + 1).map_values(|c: char| ascii_lower(c)));
        }
    }
    proof {
        assert(cs@.take(n as int) =~= cs@);
    }
    let s = string_of(&low);
    let l = s.as_str();
    let names: [&str; 15] = [
        "get", "post", "put", "delete", "patch", "all", "head", "options", "route", "getmapping",
        "postmapping", "putmapping", "deletemapping", "patchmapping", "requestmapping",
    ];
    let ghost hv = http_method_names();
    proof {
        assert(names@.map_values(|x: &str| x@) =~= hv);
    }
    for j in 0..15
        invariant
            names@.map_values(|x: &str| x@) == hv,
            hv == http_method_names(),
            l@ == name@.map_values(|c: char| ascii_lower(c)),
            forall|q: int| 0 <= q < j ==> hv[q] != l@,
    {
        proof {
            assert(names@.map_values(|x: &str| x@)[j as int] == names@[j as int]@);
        }
        if str_eq(l, names[j]) {
            return true;
        }
    }
    false
}

/// A route path as an id segment: non-alphanumeric ASCII characters become `_`.
pub open spec fn path_segment(p: Seq<char>) -> Seq<char> {
    p.map_values(|c: char| if is_ascii_alnum(c) { c } else { '_' })
}

/// A route path as an id segment.
pub fn normalize_path(p: &str) -> (r: String)
    ensures
        r@ == path_segment(p@),
{
    let cs = chars_of(p);
    let mut out: Vec<char> = Vec::new();
    let n = cs.len();
    for i in 0..n
        invariant
            n == cs@.len(),
            cs@ == p@,
            out@ == cs@.take(i as int).map_values(|c: char| if is_ascii_alnum(c) { c } else { '_' }),
    {
        let c = cs[i];
        out.push(if ascii_alnum(c) { c } else { '_' });
        proof {
            assert(out@ =~= cs@.take(i + 1).map_values(|c: char| if is_ascii_alnum(c) { c } else { '_' }));
        }
    }
    proof {
        assert(cs@.take(n as int) =~= cs@);
    }
    string_of(&out)
}

/// A field name after `self.`/`this.`: non-empty, only alphanumerics and `_`.
pub open spec fn plain_field(f: Seq<char>) -> bool {
    f.len() > 0 && forall|i: int| 0 <= i < f.len() ==> unicode_alphanumeric(#[trigger] f[i]) || f[i] == '_'
}

/// What a call's receiver text (trimmed) denotes: nothing, `self`/`this`,
/// `super`, `self.f`/`this.f` with a plain field `f`, or any other named
/// receiver.
pub open spec fn receiver_of(recv: Seq<char>) -> ReceiverV {
    let r = trimmed(recv);
    if r.len() == 0 {
        ReceiverV::Bare
    } else if r == "self"@ || r == "this"@ {
        ReceiverV::SelfThis
    } else if r == "super"@ {
        ReceiverV::Super
    } else if r.len() >= 5 && r.take(5) == "self."@ && plain_field(r.skip(5)) {
        ReceiverV::Field(r.skip(5))
    } else if r.len() >= 5 && r.take(5) == "this."@ && plain_field(r.skip(5)) {
        ReceiverV::Field(r.skip(5))
    } else {
        ReceiverV::Named(r)
    }
}

/// Whether `v` starts with the characters of `p`.
fn starts_with(v: &Vec<char>, p: &str) -> (r: bool)
    ensures
        r == (v@.len() >= p@.len() && v@.take(p@.len() as int) == p@),
{
    let pc = chars_of(p);
    if v.len() < pc.len() {
        return false;
    }
    let n = pc.len();
    for i in 0..n
        invariant
            n == pc@.len(),
            pc@ == p@,
            n <= v@.len(),
            forall|k: int| 0 <= k < i ==> v@[k] == pc@[k],
    {
        if v[i] != pc[i] {
            return false;
        }
    }
    proof {
        assert(v@.take(n as int) =~= pc@);
    }
    true
}

/// Whether the characters after the first five form a plain field.
fn plain_field_after5(v: &Vec<char>) -> (r: bool)
    requires
        v@.len() >= 5,
    ensures
        r == plain_field(v@.skip(5)),
{
    let n = v.len();
    if n == 5 {
        return false;
    }
    for i in 5..n
        invariant
            n == v@.len(),
            forall|k: int| 5 <= k < i ==> unicode_alphanumeric(#[trigger] v@[k]) || v@[k] == '_',
    {
        let c = v[i];
        if !(is_alphanumeric(c) || c == '_') {
            proof {
                assert(v@.skip(5)[i - 5] == c);
            }
            return false;
        }
    }
    proof {
        assert forall|k: int| 0 <= k < v@.skip(5).len() implies unicode_alphanumeric(#[trigger] v@.skip(5)[k])
            || v@.skip(5)[k] == '_' by {
            assert(v@.skip(5)[k] == v@[k + 5]);
        }
    }
    true
}

/// Classify a call receiver's text: `self`/`this`, `super`, a plain field of
/// `self`/`this`, or any other named receiver; empty text is no receiver.
pub fn classify_receiver(recv: &str) -> (r: Receiver)
    ensures
        r@ == receiver_of(recv@),
{
    let cs = chars_of(recv);
    let t = trim_chars(&cs);
    if t.len() == 0 {
        return Receiver::Bare;
    }
    let ts = string_of(&t);
    if str_eq(ts.as_str(), "self") || str_eq(ts.as_str(), "this") {
        return Receiver::SelfThis;
    }
    if str_eq(ts.as_str(), "super") {
        return Receiver::Super;
    }
    proof {
        reveal_strlit("self.");
        reveal_strlit("this.");
    }
    if starts_with(&t, "self.") && plain_field_after5(&t) {
        let mut f: Vec<char> = Vec::new();
        let n = t.len();
        for i in 5..n
            invariant
                n == t@.len(),
                5 <= n,
                f@ == t@.subrange(5, i as int),
        {
            f.push(t[i]);
            proof {
                assert(f@ =~= t@.subrange(5, i + 1));
            }
        }
        proof {
            assert(f@ =~= t@.skip(5));
        }
        return Receiver::Field(string_of(&f));
    }
    if starts_with(&t, "this.") && plain_field_after5(&t) {
        let mut f: Vec<char> = Vec::new();
        let n = t.len();
        for i in 5..n
            invariant
                n == t@.len(),
                5 <= n,
                f@ == t@.subrange(5, i as int),
        {
            f.push(t[i]);
            proof {
                assert(f@ =~= t@.subrange(5, i + 1));
            }
        }
        proof {
            assert(f@ =~= t@.skip(5));
        }
        return Receiver::Field(string_of(&f));
    }
    Receiver::Named(ts)
}


/// The labels the rust grammar gives its definition kinds.
pub proof fn lemma_rust_labels()
    ensures
        label_for(Grammar::Rust, "function_item"@) == Some(NodeLabel::Function),
        label_for(Grammar::Rust, "struct_item"@) == Some(NodeLabel::Class),
        label_for(Grammar::Rust, "union_item"@) == Some(NodeLabel::Class),
        label_for(Grammar::Rust, "enum_item"@) == Some(NodeLabel::Enum),
        label_for(Grammar::Rust, "trait_item"@) == Some(NodeLabel::Interface),
        label_for(Grammar::Rust, "type_item"@) == Some(NodeLabel::Type),
        label_for(Grammar::Rust, "mod_item"@) == Some(NodeLabel::Module),
{
    reveal_strlit("function_item");
    reveal_strlit("struct_item");
    reveal_strlit("union_item");
    reveal_strlit("enum_item");
    reveal_strlit("trait_item");
    reveal_strlit("type_item");
    reveal_strlit("mod_item");
    assert("function_item"@.len() != "struct_item"@.len());
    assert("function_item"@.len() != "union_item"@.len());
    assert("function_item"@.len() != "enum_item"@.len());
    assert("function_item"@.len() != "trait_item"@.len());
    assert("function_item"@.len() != "type_item"@.len());
    assert("function_item"@.len() != "mod_item"@.len());
    assert("struct_item"@.len() != "union_item"@.len());
    assert("struct_item"@.len() != "enum_item"@.len());
    assert("struct_item"@.len() != "trait_item"@.len());
    assert("struct_item"@.len() != "type_item"@.len());
    assert("struct_item"@.len() != "mod_item"@.len());
    assert("union_item"@.len() != "enum_item"@.len());
    assert("union_item"@[0] != "trait_item"@[0]);
    assert("union_item"@.len() != "type_item"@.len());
    assert("union_item"@.len() != "mod_item"@.len());
    assert("enum_item"@.len() != "trait_item"@.len());
    assert("enum_item"@[0] != "type_item"@[0]);
    assert("enum_item"@.len() != "mod_item"@.len());
    assert("trait_item"@.len() != "type_item"@.len());
    assert("trait_item"@.len() != "mod_item"@.len());
    assert("type_item"@.len() != "mod_item"@.len());
}

/// The labels the python grammar gives its definition kinds.
pub proof fn lemma_python_labels()
    ensures
        label_for(Grammar::Python, "function_definition"@) == Some(NodeLabel::Function),
        label_for(Grammar::Python, "class_definition"@) == Some(NodeLabel::Class),
{
    reveal_strlit("function_definition");
    reveal_strlit("class_definition");
    assert("function_definition"@.len() != "class_definition"@.len());
}

/// The labels the javascript grammar gives its definition kinds.
pub proof fn lemma_javascript_labels()
    ensures
        label_for(Grammar::JavaScript, "function_declaration"@) == Some(NodeLabel::Function),
        label_for(Grammar::JavaScript, "generator_function_declaration"@) == Some(NodeLabel::Function),
        label_for(Grammar::JavaScript, "class_declaration"@) == Some(NodeLabel::Class),
        label_for(Grammar::JavaScript, "method_definition"@) == Some(NodeLabel::Method),
{
    reveal_strlit("function_declaration");
    reveal_strlit("generator_function_declaration");
    reveal_strlit("class_declaration");
    reveal_strlit("method_definition");
    assert("function_declaration"@.len() != "generator_function_declaration"@.len());
    assert("function_declaration"@.len() != "class_declaration"@.len());
    assert("function_declaration"@.len() != "method_definition"@.len());
    assert("generator_function_declaration"@.len() != "class_declaration"@.len());
    assert("generator_function_declaration"@.len() != "method_definition"@.len());
    assert("class_declaration"@[0] != "method_definition"@[0]);
}

/// The labels the typescript grammar gives its definition kinds.
pub proof fn lemma_typescript_labels()
    ensures
        label_for(Grammar::TypeScript, "interface_declaration"@) == Some(NodeLabel::Interface),
        label_for(Grammar::TypeScript, "type_alias_declaration"@) == Some(NodeLabel::Type),
        label_for(Grammar::TypeScript, "enum_declaration"@) == Some(NodeLabel::Enum),
        label_for(Grammar::TypeScript, "abstract_class_declaration"@) == Some(NodeLabel::Class),
        label_for(Grammar::TypeScript, "function_declaration"@) == Some(NodeLabel::Function),
        label_for(Grammar::TypeScript, "generator_function_declaration"@) == Some(NodeLabel::Function),
        label_for(Grammar::TypeScript, "class_declaration"@) == Some(NodeLabel::Class),
        label_for(Grammar::TypeScript, "method_definition"@) == Some(NodeLabel::Method),
{
    reveal_strlit("interface_declaration");
    reveal_strlit("type_alias_declaration");
    reveal_strlit("enum_declaration");
    reveal_strlit("abstract_class_declaration");
    reveal_strlit("function_declaration");
    reveal_strlit("generator_function_declaration");
    reveal_strlit("class_declaration");
    reveal_strlit("method_definition");
    assert("interface_declaration"@.len() != "type_alias_declaration"@.len());
    assert("interface_declaration"@.len() != "enum_declaration"@.len());
    assert("interface_declaration"@.len() != "abstract_class_declaration"@.len());
    assert("interface_declaration"@.len() != "function_declaration"@.len());
    assert("interface_declaration"@.len() != "generator_function_declaration"@.len());
    assert("interface_declaration"@.len() != "class_declaration"@.len());
    assert("interface_declaration"@.len() != "method_definition"@.len());
    assert("type_alias_declaration"@.len() != "enum_declaration"@.len());
    assert("type_alias_declaration"@.len() != "abstract_class_declaration"@.len());
    assert("type_alias_declaration"@.len() != "function_declaration"@.len());
    assert("type_alias_declaration"@.len() != "generator_function_declaration"@.len());
    assert("type_alias_declaration"@.len() != "class_declaration"@.len());
    assert("type_alias_declaration"@.len() != "method_definition"@.len());
    assert("enum_declaration"@.len() != "abstract_class_declaration"@.len());
    assert("enum_declaration"@.len() != "function_declaration"@.len());
    assert("enum_declaration"@.len() != "generator_function_declaration"@.len());
    assert("enum_declaration"@.len() != "class_declaration"@.len());
    assert("enum_declaration"@.len() != "method_definition"@.len());
    assert("abstract_class_declaration"@.len() != "function_declaration"@.len());
    assert("abstract_class_declaration"@.len() != "generator_function_declaration"@.len());
    assert("abstract_class_declaration"@.len() != "class_declaration"@.len());
    assert("abstract_class_declaration"@.len() != "method_definition"@.len());
    assert("function_declaration"@.len() != "generator_function_declaration"@.len());
    assert("function_declaration"@.len() != "class_declaration"@.len());
    assert("function_declaration"@.len() != "method_definition"@.len());
    assert("generator_function_declaration"@.len() != "class_declaration"@.len());
    assert("generator_function_declaration"@.len() != "method_definition"@.len());
    assert("class_declaration"@[0] != "method_definition"@[0]);
}

/// The labels the tsx grammar gives its definition kinds.
pub proof fn lemma_tsx_labels()
    ensures
        label_for(Grammar::Tsx, "interface_declaration"@) == Some(NodeLabel::Interface),
        label_for(Grammar::Tsx, "type_alias_declaration"@) == Some(NodeLabel::Type),
        label_for(Grammar::Tsx, "enum_declaration"@) == Some(NodeLabel::Enum),
        label_for(Grammar::Tsx, "abstract_class_declaration"@) == Some(NodeLabel::Class),
        label_for(Grammar::Tsx, "function_declaration"@) == Some(NodeLabel::Function),
        label_for(Grammar::Tsx, "generator_function_declaration"@) == Some(NodeLabel::Function),
        label_for(Grammar::Tsx, "class_declaration"@) == Some(NodeLabel::Class),
        label_for(Grammar::Tsx, "method_definition"@) == Some(NodeLabel::Method),
{
    reveal_strlit("interface_declaration");
    reveal_strlit("type_alias_declaration");
    reveal_strlit("enum_declaration");
    reveal_strlit("abstract_class_declaration");
    reveal_strlit("function_declaration");
    reveal_strlit("generator_function_declaration");
    reveal_strlit("class_declaration");
    reveal_strlit("method_definition");
    assert("interface_declaration"@.len() != "type_alias_declaration"@.len());
    assert("interface_declaration"@.len() != "enum_declaration"@.len());
    assert("interface_declaration"@.len() != "abstract_class_declaration"@.len());
    assert("interface_declaration"@.len() != "function_declaration"@.len());
    assert("interface_declaration"@.len() != "generator_function_declaration"@.len());
    assert("interface_declaration"@.len() != "class_declaration"@.len());
    assert("interface_declaration"@.len() != "method_definition"@.len());
    assert("type_alias_declaration"@.len() != "enum_declaration"@.len());
    assert("type_alias_declaration"@.len() != "abstract_class_declaration"@.len());
    assert("type_alias_declaration"@.len() != "function_declaration"@.len());
    assert("type_alias_declaration"@.len() != "generator_function_declaration"@.len());
    assert("type_alias_declaration"@.len() != "class_declaration"@.len());
    assert("type_alias_declaration"@.len() != "method_definition"@.len());
    assert("enum_declaration"@.len() != "abstract_class_declaration"@.len());
    assert("enum_declaration"@.len() != "function_declaration"@.len());
    assert("enum_declaration"@.len() != "generator_function_declaration"@.len());
    assert("enum_declaration"@.len() != "class_declaration"@.len());
    assert("enum_declaration"@.len() != "method_definition"@.len());
    assert("abstract_class_declaration"@.len() != "function_declaration"@.len());
    assert("abstract_class_declaration"@.len() != "generator_function_declaration"@.len());
    assert("abstract_class_declaration"@.len() != "class_declaration"@.len());
    assert("abstract_class_declaration"@.len() != "method_definition"@.len());
    assert("function_declaration"@.len() != "generator_function_declaration"@.len());
    assert("function_declaration"@.len() != "class_declaration"@.len());
    assert("function_declaration"@.len() != "method_definition"@.len());
    assert("generator_function_declaration"@.len() != "class_declaration"@.len());
    assert("generator_function_declaration"@.len() != "method_definition"@.len());
    assert("class_declaration"@[0] != "method_definition"@[0]);
}

/// The labels the go grammar gives its definition kinds.
pub proof fn lemma_go_labels()
    ensures
        label_for(Grammar::Go, "function_declaration"@) == Some(NodeLabel::Function),
        label_for(Grammar::Go, "method_declaration"@) == Some(NodeLabel::Method),
        label_for(Grammar::Go, "type_spec"@) == Some(NodeLabel::Class),
{
    reveal_strlit("function_declaration");
    reveal_strlit("method_declaration");
    reveal_strlit("type_spec");
    assert("function_declaration"@.len() != "method_declaration"@.len());
    assert("function_declaration"@.len() != "type_spec"@.len());
    assert("method_declaration"@.len() != "type_spec"@.len());
}

/// The labels the swift grammar gives its definition kinds.
pub proof fn lemma_swift_labels()
    ensures
        label_for(Grammar::Swift, "function_declaration"@) == Some(NodeLabel::Function),
        label_for(Grammar::Swift, "class_declaration"@) == Some(NodeLabel::Class),
        label_for(Grammar::Swift, "protocol_declaration"@) == Some(NodeLabel::Interface),
        label_for(Grammar::Swift, "typealias_declaration"@) == Some(NodeLabel::Type),
{
    reveal_strlit("function_declaration");
    reveal_strlit("class_declaration");
    reveal_strlit("protocol_declaration");
    reveal_strlit("typealias_declaration");
    assert("function_declaration"@.len() != "class_declaration"@.len());
    assert("function_declaration"@[0] != "protocol_declaration"@[0]);
    assert("function_declaration"@.len() != "typealias_declaration"@.len());
    assert("class_declaration"@.len() != "protocol_declaration"@.len());
    assert("class_declaration"@.len() != "typealias_declaration"@.len());
    assert("protocol_declaration"@.len() != "typealias_declaration"@.len());
}

/// The labels the java grammar gives its definition kinds.
pub proof fn lemma_java_labels()
    ensures
        label_for(Grammar::Java, "method_declaration"@) == Some(NodeLabel::Method),
        label_for(Grammar::Java, "constructor_declaration"@) == Some(NodeLabel::Method),
        label_for(Grammar::Java, "class_declaration"@) == Some(NodeLabel::Class),
        label_for(Grammar::Java, "record_declaration"@) == Some(NodeLabel::Class),
        label_for(Grammar::Java, "interface_declaration"@) == Some(NodeLabel::Interface),
        label_for(Grammar::Java, "annotation_type_declaration"@) == Some(NodeLabel::Interface),
        label_for(Grammar::Java, "enum_declaration"@) == Some(NodeLabel::Enum),
{
    reveal_strlit("method_declaration");
    reveal_strlit("constructor_declaration");
    reveal_strlit("class_declaration");
    reveal_strlit("record_declaration");
    reveal_strlit("interface_declaration");
    reveal_strlit("annotation_type_declaration");
    reveal_strlit("enum_declaration");
    assert("method_declaration"@.len() != "constructor_declaration"@.len());
    assert("method_declaration"@.len() != "class_declaration"@.len());
    assert("method_declaration"@[0] != "record_declaration"@[0]);
    assert("method_declaration"@.len() != "interface_declaration"@.len());
    assert("method_declaration"@.len() != "annotation_type_declaration"@.len());
    assert("method_declaration"@.len() != "enum_declaration"@.len());
    assert("constructor_declaration"@.len() != "class_declaration"@.len());
    assert("constructor_declaration"@.len() != "record_declaration"@.len());
    assert("constructor_declaration"@.len() != "interface_declaration"@.len());
    assert("constructor_declaration"@.len() != "annotation_type_declaration"@.len());
    assert("constructor_declaration"@.len() != "enum_declaration"@.len());
    assert("class_declaration"@.len() != "record_declaration"@.len());
    assert("class_declaration"@.len() != "interface_declaration"@.len());
    assert("class_declaration"@.len() != "annotation_type_declaration"@.len());
    assert("class_declaration"@.len() != "enum_declaration"@.len());
    assert("record_declaration"@.len() != "interface_declaration"@.len());
    assert("record_declaration"@.len() != "annotation_type_declaration"@.len());
    assert("record_declaration"@.len() != "enum_declaration"@.len());
    assert("interface_declaration"@.len() != "annotation_type_declaration"@.len());
    assert("interface_declaration"@.len() != "enum_declaration"@.len());
    assert("annotation_type_declaration"@.len() != "enum_declaration"@.len());
}

/// The labels the c grammar gives its definition kinds.
pub proof fn lemma_c_labels()
    ensures
        label_for(Grammar::C, "function_definition"@) == Some(NodeLabel::Function),
        label_for(Grammar::C, "struct_specifier"@) == Some(NodeLabel::Class),
        label_for(Grammar::C, "union_specifier"@) == Some(NodeLabel::Class),
        label_for(Grammar::C, "enum_specifier"@) == Some(NodeLabel::Enum),
        label_for(Grammar::C, "type_definition"@) == Some(NodeLabel::Type),
{
    reveal_strlit("function_definition");
    reveal_strlit("struct_specifier");
    reveal_strlit("union_specifier");
    reveal_strlit("enum_specifier");
    reveal_strlit("type_definition");
    assert("function_definition"@.len() != "struct_specifier"@.len());
    assert("function_definition"@.len() != "union_specifier"@.len());
    assert("function_definition"@.len() != "enum_specifier"@.len());
    assert("function_definition"@.len() != "type_definition"@.len());
    assert("struct_specifier"@.len() != "union_specifier"@.len());
    assert("struct_specifier"@.len() != "enum_specifier"@.len());
    assert("struct_specifier"@.len() != "type_definition"@.len());
    assert("union_specifier"@.len() != "enum_specifier"@.len());
    assert("union_specifier"@[0] != "type_definition"@[0]);
    assert("enum_specifier"@.len() != "type_definition"@.len());
}

/// The labels the cpp grammar gives its definition kinds.
pub proof fn lemma_cpp_labels()
    ensures
        label_for(Grammar::Cpp, "class_specifier"@) == Some(NodeLabel::Class),
        label_for(Grammar::Cpp, "namespace_definition"@) == Some(NodeLabel::Module),
        label_for(Grammar::Cpp, "function_definition"@) == Some(NodeLabel::Function),
        label_for(Grammar::Cpp, "struct_specifier"@) == Some(NodeLabel::Class),
        label_for(Grammar::Cpp, "union_specifier"@) == Some(NodeLabel::Class),
        label_for(Grammar::Cpp, "enum_specifier"@) == Some(NodeLabel::Enum),
        label_for(Grammar::Cpp, "type_definition"@) == Some(NodeLabel::Type),
{
    reveal_strlit("class_specifier");
    reveal_strlit("namespace_definition");
    reveal_strlit("function_definition");
    reveal_strlit("struct_specifier");
    reveal_strlit("union_specifier");
    reveal_strlit("enum_specifier");
    reveal_strlit("type_definition");
    assert("class_specifier"@.len() != "namespace_definition"@.len());
    assert("class_specifier"@.len() != "function_definition"@.len());
    assert("class_specifier"@.len() != "struct_specifier"@.len());
    assert("class_specifier"@[0] != "union_specifier"@[0]);
    assert("class_specifier"@.len() != "enum_specifier"@.len());
    assert("class_specifier"@[0] != "type_definition"@[0]);
    assert("namespace_definition"@.len() != "function_definition"@.len());
    assert("namespace_definition"@.len() != "struct_specifier"@.len());
    assert("namespace_definition"@.len() != "union_specifier"@.len());
    assert("namespace_definition"@.len() != "enum_specifier"@.len());
    assert("namespace_definition"@.len() != "type_definition"@.len());
    assert("function_definition"@.len() != "struct_specifier"@.len());
    assert("function_definition"@.len() != "union_specifier"@.len());
    assert("function_definition"@.len() != "enum_specifier"@.len());
    assert("function_definition"@.len() != "type_definition"@.len());
    assert("struct_specifier"@.len() != "union_specifier"@.len());
    assert("struct_specifier"@.len() != "enum_specifier"@.len());
    assert("struct_specifier"@.len() != "type_definition"@.len());
    assert("union_specifier"@.len() != "enum_specifier"@.len());
    assert("union_specifier"@[0] != "type_definition"@[0]);
    assert("enum_specifier"@.len() != "type_definition"@.len());
}

/// The labels the ruby grammar gives its definition kinds.
pub proof fn lemma_ruby_labels()
    ensures
        label_for(Grammar::Ruby, "method"@) == Some(NodeLabel::Method),
        label_for(Grammar::Ruby, "singleton_method"@) == Some(NodeLabel::Method),
        label_for(Grammar::Ruby, "class"@) == Some(NodeLabel::Class),
        label_for(Grammar::Ruby, "module"@) == Some(NodeLabel::Module),
{
    reveal_strlit("method");
    reveal_strlit("singleton_method");
    reveal_strlit("class");
    reveal_strlit("module");
    assert("method"@.len() != "singleton_method"@.len());
    assert("method"@.len() != "class"@.len());
    assert("method"@[1] != "module"@[1]);
    assert("singleton_method"@.len() != "class"@.len());
    assert("singleton_method"@.len() != "module"@.len());
    assert("class"@.len() != "module"@.len());
}

/// The labels the csharp grammar gives its definition kinds.
pub proof fn lemma_csharp_labels()
    ensures
        label_for(Grammar::CSharp, "method_declaration"@) == Some(NodeLabel::Method),
        label_for(Grammar::CSharp, "constructor_declaration"@) == Some(NodeLabel::Method),
        label_for(Grammar::CSharp, "class_declaration"@) == Some(NodeLabel::Class),
        label_for(Grammar::CSharp, "record_declaration"@) == Some(NodeLabel::Class),
        label_for(Grammar::CSharp, "struct_declaration"@) == Some(NodeLabel::Class),
        label_for(Grammar::CSharp, "interface_declaration"@) == Some(NodeLabel::Interface),
        label_for(Grammar::CSharp, "enum_declaration"@) == Some(NodeLabel::Enum),
{
    reveal_strlit("method_declaration");
    reveal_strlit("constructor_declaration");
    reveal_strlit("class_declaration");
    reveal_strlit("record_declaration");
    reveal_strlit("struct_declaration");
    reveal_strlit("interface_declaration");
    reveal_strlit("enum_declaration");
    assert("method_declaration"@.len() != "constructor_declaration"@.len());
    assert("method_declaration"@.len() != "class_declaration"@.len());
    assert("method_declaration"@[0] != "record_declaration"@[0]);
    assert("method_declaration"@[0] != "struct_declaration"@[0]);
    assert("method_declaration"@.len() != "interface_declaration"@.len());
    assert("method_declaration"@.len() != "enum_declaration"@.len());
    assert("constructor_declaration"@.len() != "class_declaration"@.len());
    assert("constructor_declaration"@.len() != "record_declaration"@.len());
    assert("constructor_declaration"@.len() != "struct_declaration"@.len());
    assert("constructor_declaration"@.len() != "interface_declaration"@.len());
    assert("constructor_declaration"@.len() != "enum_declaration"@.len());
    assert("class_declaration"@.len() != "record_declaration"@.len());
    assert("class_declaration"@.len() != "struct_declaration"@.len());
    assert("class_declaration"@.len() != "interface_declaration"@.len());
    assert("class_declaration"@.len() != "enum_declaration"@.len());
    assert("record_declaration"@[0] != "struct_declaration"@[0]);
    assert("record_declaration"@.len() != "interface_declaration"@.len());
    assert("record_declaration"@.len() != "enum_declaration"@.len());
    assert("struct_declaration"@.len() != "interface_declaration"@.len());
    assert("struct_declaration"@.len() != "enum_declaration"@.len());
    assert("interface_declaration"@.len() != "enum_declaration"@.len());
}

/// The labels the kotlin grammar gives its definition kinds.
pub proof fn lemma_kotlin_labels()
    ensures
        label_for(Grammar::Kotlin, "function_declaration"@) == Some(NodeLabel::Function),
        label_for(Grammar::Kotlin, "class_declaration"@) == Some(NodeLabel::Class),
        label_for(Grammar::Kotlin, "object_declaration"@) == Some(NodeLabel::Class),
{
    reveal_strlit("function_declaration");
    reveal_strlit("class_declaration");
    reveal_strlit("object_declaration");
    assert("function_declaration"@.len() != "class_declaration"@.len());
    assert("function_declaration"@.len() != "object_declaration"@.len());
    assert("class_declaration"@.len() != "object_declaration"@.len());
}

/// The labels the bash grammar gives its definition kinds.
pub proof fn lemma_bash_labels()
    ensures
        label_for(Grammar::Bash, "function_definition"@) == Some(NodeLabel::Function),
{
    reveal_strlit("function_definition");
}


/// Law: the file extensions the parser knows and the language each is
/// parsed and recorded as: Rust (`rs`), Python (`py`, `pyi`), JavaScript
/// (`js`, `jsx`, `mjs`, `cjs`), TypeScript (`ts`, `mts`, `cts`, and `tsx`
/// with the TSX grammar), Go, Kotlin (`kt`, `kts`), Swift, Java, C (`c`,
/// `h`), C++ (`cpp`, `cc`, `cxx`, `hpp`, `hh`, `hxx`), Ruby (`rb`), C# (`cs`)
/// and Bash (`sh`, `bash`).
pub proof fn law_extension_languages()
    ensures
        grammar_for("rs"@) == Some(Grammar::Rust) && lang_name(Grammar::Rust) == "rust"@,
        grammar_for("py"@) == Some(Grammar::Python) && lang_name(Grammar::Python) == "python"@,
        grammar_for("pyi"@) == Some(Grammar::Python) && lang_name(Grammar::Python) == "python"@,
        grammar_for("js"@) == Some(Grammar::JavaScript) && lang_name(Grammar::JavaScript) == "javascript"@,
        grammar_for("jsx"@) == Some(Grammar::JavaScript) && lang_name(Grammar::JavaScript) == "javascript"@,
        grammar_for("mjs"@) == Some(Grammar::JavaScript) && lang_name(Grammar::JavaScript) == "javascript"@,
        grammar_for("cjs"@) == Some(Grammar::JavaScript) && lang_name(Grammar::JavaScript) == "javascript"@,
        grammar_for("ts"@) == Some(Grammar::TypeScript) && lang_name(Grammar::TypeScript) == "typescript"@,
        grammar_for("mts"@) == Some(Grammar::TypeScript) && lang_name(Grammar::TypeScript) == "typescript"@,
        grammar_for("cts"@) == Some(Grammar::TypeScript) && lang_name(Grammar::TypeScript) == "typescript"@,
        grammar_for("tsx"@) == Some(Grammar::Tsx) && lang_name(Grammar::Tsx) == "typescript"@,
        grammar_for("go"@) == Some(Grammar::Go) && lang_name(Grammar::Go) == "go"@,
        grammar_for("kt"@) == Some(Grammar::Kotlin) && lang_name(Grammar::Kotlin) == "kotlin"@,
        grammar_for("kts"@) == Some(Grammar::Kotlin) && lang_name(Grammar::Kotlin) == "kotlin"@,
        grammar_for("swift"@) == Some(Grammar::Swift) && lang_name(Grammar::Swift) == "swift"@,
        grammar_for("java"@) == Some(Grammar::Java) && lang_name(Grammar::Java) == "java"@,
        grammar_for("c"@) == Some(Grammar::C) && lang_name(Grammar::C) == "c"@,
        grammar_for("h"@) == Some(Grammar::C) && lang_name(Grammar::C) == "c"@,
        grammar_for("cpp"@) == Some(Grammar::Cpp) && lang_name(Grammar::Cpp) == "cpp"@,
        grammar_for("cc"@) == Some(Grammar::Cpp) && lang_name(Grammar::Cpp) == "cpp"@,
        grammar_for("cxx"@) == Some(Grammar::Cpp) && lang_name(Grammar::Cpp) == "cpp"@,
        grammar_for("hpp"@) == Some(Grammar::Cpp) && lang_name(Grammar::Cpp) == "cpp"@,
        grammar_for("hh"@) == Some(Grammar::Cpp) && lang_name(Grammar::Cpp) == "cpp"@,
        grammar_for("hxx"@) == Some(Grammar::Cpp) && lang_name(Grammar::Cpp) == "cpp"@,
        grammar_for("rb"@) == Some(Grammar::Ruby) && lang_name(Grammar::Ruby) == "ruby"@,
        grammar_for("cs"@) == Some(Grammar::CSharp) && lang_name(Grammar::CSharp) == "csharp"@,
        grammar_for("sh"@) == Some(Grammar::Bash) && lang_name(Grammar::Bash) == "bash"@,
        grammar_for("bash"@) == Some(Grammar::Bash) && lang_name(Grammar::Bash) == "bash"@,
{
    reveal_strlit("rs");
    reveal_strlit("py");
    reveal_strlit("pyi");
    reveal_strlit("js");
    reveal_strlit("jsx");
    reveal_strlit("mjs");
    reveal_strlit("cjs");
    reveal_strlit("ts");
    reveal_strlit("mts");
    reveal_strlit("cts");
    reveal_strlit("tsx");
    reveal_strlit("go");
    reveal_strlit("kt");
    reveal_strlit("kts");
    reveal_strlit("swift");
    reveal_strlit("java");
    reveal_strlit("c");
    reveal_strlit("h");
    reveal_strlit("cpp");
    reveal_strlit("cc");
    reveal_strlit("cxx");
    reveal_strlit("hpp");
    reveal_strlit("hh");
    reveal_strlit("hxx");
    reveal_strlit("rb");
    reveal_strlit("cs");
    reveal_strlit("sh");
    reveal_strlit("bash");
    assert("py"@[0] != "rs"@[0]);
    assert("pyi"@.len() != "rs"@.len());
    assert("pyi"@.len() != "py"@.len());
    assert("js"@[0] != "rs"@[0]);
    assert("js"@[0] != "py"@[0]);
    assert("js"@.len() != "pyi"@.len());
    assert("jsx"@.len() != "rs"@.len());
    assert("jsx"@.len() != "py"@.len());
    assert("jsx"@[0] != "pyi"@[0]);
    assert("jsx"@.len() != "js"@.len());
    assert("mjs"@.len() != "rs"@.len());
    assert("mjs"@.len() != "py"@.len());
    assert("mjs"@[0] != "pyi"@[0]);
    assert("mjs"@.len() != "js"@.len());
    assert("mjs"@[0] != "jsx"@[0]);
    assert("cjs"@.len() != "rs"@.len());
    assert("cjs"@.len() != "py"@.len());
    assert("cjs"@[0] != "pyi"@[0]);
    assert("cjs"@.len() != "js"@.len());
    assert("cjs"@[0] != "jsx"@[0]);
    assert("cjs"@[0] != "mjs"@[0]);
    assert("ts"@[0] != "rs"@[0]);
    assert("ts"@[0] != "py"@[0]);
    assert("ts"@.len() != "pyi"@.len());
    assert("ts"@[0] != "js"@[0]);
    assert("ts"@.len() != "jsx"@.len());
    assert("ts"@.len() != "mjs"@.len());
    assert("ts"@.len() != "cjs"@.len());
    assert("mts"@.len() != "rs"@.len());
    assert("mts"@.len() != "py"@.len());
    assert("mts"@[0] != "pyi"@[0]);
    assert("mts"@.len() != "js"@.len());
    assert("mts"@[0] != "jsx"@[0]);
    assert("mts"@[1] != "mjs"@[1]);
    assert("mts"@[0] != "cjs"@[0]);
    assert("mts"@.len() != "ts"@.len());
    assert("cts"@.len() != "rs"@.len());
    assert("cts"@.len() != "py"@.len());
    assert("cts"@[0] != "pyi"@[0]);
    assert("cts"@.len() != "js"@.len());
    assert("cts"@[0] != "jsx"@[0]);
    assert("cts"@[0] != "mjs"@[0]);
    assert("cts"@[1] != "cjs"@[1]);
    assert("cts"@.len() != "ts"@.len());
    assert("cts"@[0] != "mts"@[0]);
    assert("tsx"@.len() != "rs"@.len());
    assert("tsx"@.len() != "py"@.len());
    assert("tsx"@[0] != "pyi"@[0]);
    assert("tsx"@.len() != "js"@.len());
    assert("tsx"@[0] != "jsx"@[0]);
    assert("tsx"@[0] != "mjs"@[0]);
    assert("tsx"@[0] != "cjs"@[0]);
    assert("tsx"@.len() != "ts"@.len());
    assert("tsx"@[0] != "mts"@[0]);
    assert("tsx"@[0] != "cts"@[0]);
    assert("go"@[0] != "rs"@[0]);
    assert("go"@[0] != "py"@[0]);
    assert("go"@.len() != "pyi"@.len());
    assert("go"@[0] != "js"@[0]);
    assert("go"@.len() != "jsx"@.len());
    assert("go"@.len() != "mjs"@.len());
    assert("go"@.len() != "cjs"@.len());
    assert("go"@[0] != "ts"@[0]);
    assert("go"@.len() != "mts"@.len());
    assert("go"@.len() != "cts"@.len());
    assert("go"@.len() != "tsx"@.len());
    assert("kt"@[0] != "rs"@[0]);
    assert("kt"@[0] != "py"@[0]);
    assert("kt"@.len() != "pyi"@.len());
    assert("kt"@[0] != "js"@[0]);
    assert("kt"@.len() != "jsx"@.len());
    assert("kt"@.len() != "mjs"@.len());
    assert("kt"@.len() != "cjs"@.len());
    assert("kt"@[0] != "ts"@[0]);
    assert("kt"@.len() != "mts"@.len());
    assert("kt"@.len() != "cts"@.len());
    assert("kt"@.len() != "tsx"@.len());
    assert("kt"@[0] != "go"@[0]);
    assert("kts"@.len() != "rs"@.len());
    assert("kts"@.len() != "py"@.len());
    assert("kts"@[0] != "pyi"@[0]);
    assert("kts"@.len() != "js"@.len());
    assert("kts"@[0] != "jsx"@[0]);
    assert("kts"@[0] != "mjs"@[0]);
    assert("kts"@[0] != "cjs"@[0]);
    assert("kts"@.len() != "ts"@.len());
    assert("kts"@[0] != "mts"@[0]);
    assert("kts"@[0] != "cts"@[0]);
    assert("kts"@[0] != "tsx"@[0]);
    assert("kts"@.len() != "go"@.len());
    assert("kts"@.len() != "kt"@.len());
    assert("swift"@.len() != "rs"@.len());
    assert("swift"@.len() != "py"@.len());
    assert("swift"@.len() != "pyi"@.len());
    assert("swift"@.len() != "js"@.len());
    assert("swift"@.len() != "jsx"@.len());
    assert("swift"@.len() != "mjs"@.len());
    assert("swift"@.len() != "cjs"@.len());
    assert("swift"@.len() != "ts"@.len());
    assert("swift"@.len() != "mts"@.len());
    assert("swift"@.len() != "cts"@.len());
    assert("swift"@.len() != "tsx"@.len());
    assert("swift"@.len() != "go"@.len());
    assert("swift"@.len() != "kt"@.len());
    assert("swift"@.len() != "kts"@.len());
    assert("java"@.len() != "rs"@.len());
    assert("java"@.len() != "py"@.len());
    assert("java"@.len() != "pyi"@.len());
    assert("java"@.len() != "js"@.len());
    assert("java"@.len() != "jsx"@.len());
    assert("java"@.len() != "mjs"@.len());
    assert("java"@.len() != "cjs"@.len());
    assert("java"@.len() != "ts"@.len());
    assert("java"@.len() != "mts"@.len());
    assert("java"@.len() != "cts"@.len());
    assert("java"@.len() != "tsx"@.len());
    assert("java"@.len() != "go"@.len());
    assert("java"@.len() != "kt"@.len());
    assert("java"@.len() != "kts"@.len());
    assert("java"@.len() != "swift"@.len());
    assert("c"@.len() != "rs"@.len());
    assert("c"@.len() != "py"@.len());
    assert("c"@.len() != "pyi"@.len());
    assert("c"@.len() != "js"@.len());
    assert("c"@.len() != "jsx"@.len());
    assert("c"@.len() != "mjs"@.len());
    assert("c"@.len() != "cjs"@.len());
    assert("c"@.len() != "ts"@.len());
    assert("c"@.len() != "mts"@.len());
    assert("c"@.len() != "cts"@.len());
    assert("c"@.len() != "tsx"@.len());
    assert("c"@.len() != "go"@.len());
    assert("c"@.len() != "kt"@.len());
    assert("c"@.len() != "kts"@.len());
    assert("c"@.len() != "swift"@.len());
    assert("c"@.len() != "java"@.len());
    assert("h"@.len() != "rs"@.len());
    assert("h"@.len() != "py"@.len());
    assert("h"@.len() != "pyi"@.len());
    assert("h"@.len() != "js"@.len());
    assert("h"@.len() != "jsx"@.len());
    assert("h"@.len() != "mjs"@.len());
    assert("h"@.len() != "cjs"@.len());
    assert("h"@.len() != "ts"@.len());
    assert("h"@.len() != "mts"@.len());
    assert("h"@.len() != "cts"@.len());
    assert("h"@.len() != "tsx"@.len());
    assert("h"@.len() != "go"@.len());
    assert("h"@.len() != "kt"@.len());
    assert("h"@.len() != "kts"@.len());
    assert("h"@.len() != "swift"@.len());
    assert("h"@.len() != "java"@.len());
    assert("h"@[0] != "c"@[0]);
    assert("cpp"@.len() != "rs"@.len());
    assert("cpp"@.len() != "py"@.len());
    assert("cpp"@[0] != "pyi"@[0]);
    assert("cpp"@.len() != "js"@.len());
    assert("cpp"@[0] != "jsx"@[0]);
    assert("cpp"@[0] != "mjs"@[0]);
    assert("cpp"@[1] != "cjs"@[1]);
    assert("cpp"@.len() != "ts"@.len());
    assert("cpp"@[0] != "mts"@[0]);
    assert("cpp"@[1] != "cts"@[1]);
    assert("cpp"@[0] != "tsx"@[0]);
    assert("cpp"@.len() != "go"@.len());
    assert("cpp"@.len() != "kt"@.len());
    assert("cpp"@[0] != "kts"@[0]);
    assert("cpp"@.len() != "swift"@.len());
    assert("cpp"@.len() != "java"@.len());
    assert("cpp"@.len() != "c"@.len());
    assert("cpp"@.len() != "h"@.len());
    assert("cc"@[0] != "rs"@[0]);
    assert("cc"@[0] != "py"@[0]);
    assert("cc"@.len() != "pyi"@.len());
    assert("cc"@[0] != "js"@[0]);
    assert("cc"@.len() != "jsx"@.len());
    assert("cc"@.len() != "mjs"@.len());
    assert("cc"@.len() != "cjs"@.len());
    assert("cc"@[0] != "ts"@[0]);
    assert("cc"@.len() != "mts"@.len());
    assert("cc"@.len() != "cts"@.len());
    assert("cc"@.len() != "tsx"@.len());
    assert("cc"@[0] != "go"@[0]);
    assert("cc"@[0] != "kt"@[0]);
    assert("cc"@.len() != "kts"@.len());
    assert("cc"@.len() != "swift"@.len());
    assert("cc"@.len() != "java"@.len());
    assert("cc"@.len() != "c"@.len());
    assert("cc"@.len() != "h"@.len());
    assert("cc"@.len() != "cpp"@.len());
    assert("cxx"@.len() != "rs"@.len());
    assert("cxx"@.len() != "py"@.len());
    assert("cxx"@[0] != "pyi"@[0]);
    assert("cxx"@.len() != "js"@.len());
    assert("cxx"@[0] != "jsx"@[0]);
    assert("cxx"@[0] != "mjs"@[0]);
    assert("cxx"@[1] != "cjs"@[1]);
    assert("cxx"@.len() != "ts"@.len());
    assert("cxx"@[0] != "mts"@[0]);
    assert("cxx"@[1] != "cts"@[1]);
    assert("cxx"@[0] != "tsx"@[0]);
    assert("cxx"@.len() != "go"@.len());
    assert("cxx"@.len() != "kt"@.len());
    assert("cxx"@[0] != "kts"@[0]);
    assert("cxx"@.len() != "swift"@.len());
    assert("cxx"@.len() != "java"@.len());
    assert("cxx"@.len() != "c"@.len());
    assert("cxx"@.len() != "h"@.len());
    assert("cxx"@[1] != "cpp"@[1]);
    assert("cxx"@.len() != "cc"@.len());
    assert("hpp"@.len() != "rs"@.len());
    assert("hpp"@.len() != "py"@.len());
    assert("hpp"@[0] != "pyi"@[0]);
    assert("hpp"@.len() != "js"@.len());
    assert("hpp"@[0] != "jsx"@[0]);
    assert("hpp"@[0] != "mjs"@[0]);
    assert("hpp"@[0] != "cjs"@[0]);
    assert("hpp"@.len() != "ts"@.len());
    assert("hpp"@[0] != "mts"@[0]);
    assert("hpp"@[0] != "cts"@[0]);
    assert("hpp"@[0] != "tsx"@[0]);
    assert("hpp"@.len() != "go"@.len());
    assert("hpp"@.len() != "kt"@.len());
    assert("hpp"@[0] != "kts"@[0]);
    assert("hpp"@.len() != "swift"@.len());
    assert("hpp"@.len() != "java"@.len());
    assert("hpp"@.len() != "c"@.len());
    assert("hpp"@.len() != "h"@.len());
    assert("hpp"@[0] != "cpp"@[0]);
    assert("hpp"@.len() != "cc"@.len());
    assert("hpp"@[0] != "cxx"@[0]);
    assert("hh"@[0] != "rs"@[0]);
    assert("hh"@[0] != "py"@[0]);
    assert("hh"@.len() != "pyi"@.len());
    assert("hh"@[0] != "js"@[0]);
    assert("hh"@.len() != "jsx"@.len());
    assert("hh"@.len() != "mjs"@.len());
    assert("hh"@.len() != "cjs"@.len());
    assert("hh"@[0] != "ts"@[0]);
    assert("hh"@.len() != "mts"@.len());
    assert("hh"@.len() != "cts"@.len());
    assert("hh"@.len() != "tsx"@.len());
    assert("hh"@[0] != "go"@[0]);
    assert("hh"@[0] != "kt"@[0]);
    assert("hh"@.len() != "kts"@.len());
    assert("hh"@.len() != "swift"@.len());
    assert("hh"@.len() != "java"@.len());
    assert("hh"@.len() != "c"@.len());
    assert("hh"@.len() != "h"@.len());
    assert("hh"@.len() != "cpp"@.len());
    assert("hh"@[0] != "cc"@[0]);
    assert("hh"@.len() != "cxx"@.len());
    assert("hh"@.len() != "hpp"@.len());
    assert("hxx"@.len() != "rs"@.len());
    assert("hxx"@.len() != "py"@.len());
    assert("hxx"@[0] != "pyi"@[0]);
    assert("hxx"@.len() != "js"@.len());
    assert("hxx"@[0] != "jsx"@[0]);
    assert("hxx"@[0] != "mjs"@[0]);
    assert("hxx"@[0] != "cjs"@[0]);
    assert("hxx"@.len() != "ts"@.len());
    assert("hxx"@[0] != "mts"@[0]);
    assert("hxx"@[0] != "cts"@[0]);
    assert("hxx"@[0] != "tsx"@[0]);
    assert("hxx"@.len() != "go"@.len());
    assert("hxx"@.len() != "kt"@.len());
    assert("hxx"@[0] != "kts"@[0]);
    assert("hxx"@.len() != "swift"@.len());
    assert("hxx"@.len() != "java"@.len());
    assert("hxx"@.len() != "c"@.len());
    assert("hxx"@.len() != "h"@.len());
    assert("hxx"@[0] != "cpp"@[0]);
    assert("hxx"@.len() != "cc"@.len());
    assert("hxx"@[0] != "cxx"@[0]);
    assert("hxx"@[1] != "hpp"@[1]);
    assert("hxx"@.len() != "hh"@.len());
    assert("rb"@[1] != "rs"@[1]);
    assert("rb"@[0] != "py"@[0]);
    assert("rb"@.len() != "pyi"@.len());
    assert("rb"@[0] != "js"@[0]);
    assert("rb"@.len() != "jsx"@.len());
    assert("rb"@.len() != "mjs"@.len());
    assert("rb"@.len() != "cjs"@.len());
    assert("rb"@[0] != "ts"@[0]);
    assert("rb"@.len() != "mts"@.len());
    assert("rb"@.len() != "cts"@.len());
    assert("rb"@.len() != "tsx"@.len());
    assert("rb"@[0] != "go"@[0]);
    assert("rb"@[0] != "kt"@[0]);
    assert("rb"@.len() != "kts"@.len());
    assert("rb"@.len() != "swift"@.len());
    assert("rb"@.len() != "java"@.len());
    assert("rb"@.len() != "c"@.len());
    assert("rb"@.len() != "h"@.len());
    assert("rb"@.len() != "cpp"@.len());
    assert("rb"@[0] != "cc"@[0]);
    assert("rb"@.len() != "cxx"@.len());
    assert("rb"@.len() != "hpp"@.len());
    assert("rb"@[0] != "hh"@[0]);
    assert("rb"@.len() != "hxx"@.len());
    assert("cs"@[0] != "rs"@[0]);
    assert("cs"@[0] != "py"@[0]);
    assert("cs"@.len() != "pyi"@.len());
    assert("cs"@[0] != "js"@[0]);
    assert("cs"@.len() != "jsx"@.len());
    assert("cs"@.len() != "mjs"@.len());
    assert("cs"@.len() != "cjs"@.len());
    assert("cs"@[0] != "ts"@[0]);
    assert("cs"@.len() != "mts"@.len());
    assert("cs"@.len() != "cts"@.len());
    assert("cs"@.len() != "tsx"@.len());
    assert("cs"@[0] != "go"@[0]);
    assert("cs"@[0] != "kt"@[0]);
    assert("cs"@.len() != "kts"@.len());
    assert("cs"@.len() != "swift"@.len());
    assert("cs"@.len() != "java"@.len());
    assert("cs"@.len() != "c"@.len());
    assert("cs"@.len() != "h"@.len());
    assert("cs"@.len() != "cpp"@.len());
    assert("cs"@[1] != "cc"@[1]);
    assert("cs"@.len() != "cxx"@.len());
    assert("cs"@.len() != "hpp"@.len());
    assert("cs"@[0] != "hh"@[0]);
    assert("cs"@.len() != "hxx"@.len());
    assert("cs"@[0] != "rb"@[0]);
    assert("sh"@[0] != "rs"@[0]);
    assert("sh"@[0] != "py"@[0]);
    assert("sh"@.len() != "pyi"@.len());
    assert("sh"@[0] != "js"@[0]);
    assert("sh"@.len() != "jsx"@.len());
    assert("sh"@.len() != "mjs"@.len());
    assert("sh"@.len() != "cjs"@.len());
    assert("sh"@[0] != "ts"@[0]);
    assert("sh"@.len() != "mts"@.len());
    assert("sh"@.len() != "cts"@.len());
    assert("sh"@.len() != "tsx"@.len());
    assert("sh"@[0] != "go"@[0]);
    assert("sh"@[0] != "kt"@[0]);
    assert("sh"@.len() != "kts"@.len());
    assert("sh"@.len() != "swift"@.len());
    assert("sh"@.len() != "java"@.len());
    assert("sh"@.len() != "c"@.len());
    assert("sh"@.len() != "h"@.len());
    assert("sh"@.len() != "cpp"@.len());
    assert("sh"@[0] != "cc"@[0]);
    assert("sh"@.len() != "cxx"@.len());
    assert("sh"@.len() != "hpp"@.len());
    assert("sh"@[0] != "hh"@[0]);
    assert("sh"@.len() != "hxx"@.len());
    assert("sh"@[0] != "rb"@[0]);
    assert("sh"@[0] != "cs"@[0]);
    assert("bash"@.len() != "rs"@.len());
    assert("bash"@.len() != "py"@.len());
    assert("bash"@.len() != "pyi"@.len());
    assert("bash"@.len() != "js"@.len());
    assert("bash"@.len() != "jsx"@.len());
    assert("bash"@.len() != "mjs"@.len());
    assert("bash"@.len() != "cjs"@.len());
    assert("bash"@.len() != "ts"@.len());
    assert("bash"@.len() != "mts"@.len());
    assert("bash"@.len() != "cts"@.len());
    assert("bash"@.len() != "tsx"@.len());
    assert("bash"@.len() != "go"@.len());
    assert("bash"@.len() != "kt"@.len());
    assert("bash"@.len() != "kts"@.len());
    assert("bash"@.len() != "swift"@.len());
    assert("bash"@[0] != "java"@[0]);
    assert("bash"@.len() != "c"@.len());
    assert("bash"@.len() != "h"@.len());
    assert("bash"@.len() != "cpp"@.len());
    assert("bash"@.len() != "cc"@.len());
    assert("bash"@.len() != "cxx"@.len());
    assert("bash"@.len() != "hpp"@.len());
    assert("bash"@.len() != "hh"@.len());
    assert("bash"@.len() != "hxx"@.len());
    assert("bash"@.len() != "rb"@.len());
    assert("bash"@.len() != "cs"@.len());
    assert("bash"@.len() != "sh"@.len());
}

} // verus!
