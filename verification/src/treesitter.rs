//! The tree-sitter calls, on values that carry what they were made from:
//! a language with its grammar, a parser with the grammar it accepted, a
//! parse with its grammar and source bytes, and a node with the path of
//! child positions that leads to it from the root. Values of these types are
//! made only by the functions of this module, so what each carries is what
//! it came from; what tree-sitter answers about a node is then a function of
//! the grammar, the source bytes and the path alone, and is named so.

use crate::syntax::{opt_str, Grammar};
use tree_sitter::{Language, Node as TsNode, Parser, Tree};
use vstd::prelude::*;
use vstd::string::StringSliceAdditionalSpecFns;

verus! {

#[verifier::external_type_specification]
#[verifier::external_body]
pub struct ExParser(Parser);

#[verifier::external_type_specification]
#[verifier::external_body]
pub struct ExTree(Tree);

#[verifier::external_type_specification]
#[verifier::external_body]
pub struct ExLanguage(Language);

#[verifier::external_type_specification]
#[verifier::external_body]
pub struct ExTsNode<'tree>(TsNode<'tree>);

/// Whether `Parser::set_language` accepts the language of grammar `g` (its
/// ABI version is supported and it is parseable): a function of the grammar.
pub uninterp spec fn grammar_accepted(g: Grammar) -> bool;

/// Whether `Parser::parse` returns a tree for `src` with grammar `g` (it
/// returns none only on an external scanner's error): a function of both.
pub uninterp spec fn source_parses(g: Grammar, src: Seq<u8>) -> bool;

/// `Node::kind` of the node reached by `path` in the tree of `src` parsed with `g`.
pub uninterp spec fn syn_kind(g: Grammar, src: Seq<u8>, path: Seq<usize>) -> Seq<char>;

/// `Node::child_count` of the node reached by `path`.
pub uninterp spec fn syn_child_count(g: Grammar, src: Seq<u8>, path: Seq<usize>) -> nat;

/// `Node::field_name_for_child`: the field under which its parent holds the
/// node reached by `path` (a nonempty path).
pub uninterp spec fn syn_field(g: Grammar, src: Seq<u8>, path: Seq<usize>) -> Option<Seq<char>>;

/// `Node::is_named` of the node reached by `path`.
pub uninterp spec fn syn_named(g: Grammar, src: Seq<u8>, path: Seq<usize>) -> bool;

/// `Node::is_extra` of the node reached by `path`.
pub uninterp spec fn syn_extra(g: Grammar, src: Seq<u8>, path: Seq<usize>) -> bool;

/// `Node::start_byte` of the node reached by `path`.
pub uninterp spec fn syn_start_byte(g: Grammar, src: Seq<u8>, path: Seq<usize>) -> usize;

/// `Node::end_byte` of the node reached by `path`.
pub uninterp spec fn syn_end_byte(g: Grammar, src: Seq<u8>, path: Seq<usize>) -> usize;

/// The row of `Node::start_position` of the node reached by `path`.
pub uninterp spec fn syn_start_row(g: Grammar, src: Seq<u8>, path: Seq<usize>) -> usize;

/// The row of `Node::end_position` of the node reached by `path`.
pub uninterp spec fn syn_end_row(g: Grammar, src: Seq<u8>, path: Seq<usize>) -> usize;

/// `Node::descendant_count` of the node reached by `path`.
pub uninterp spec fn syn_descendants(g: Grammar, src: Seq<u8>, path: Seq<usize>) -> usize;

/// A tree-sitter language and the grammar it is.
pub struct GrammarLanguage {
    g: Grammar,
    lang: Language,
}

impl GrammarLanguage {
    pub closed spec fn grammar(&self) -> Grammar {
        self.g
    }
}

/// A parser whose language is that of its grammar.
pub struct GrammarParser {
    g: Grammar,
    parser: Parser,
}

impl GrammarParser {
    pub closed spec fn grammar(&self) -> Grammar {
        self.g
    }
}

/// A syntax tree with the grammar and the source bytes it was parsed from.
pub struct ParsedSource<'s> {
    g: Grammar,
    src: &'s [u8],
    tree: Tree,
}

impl<'s> ParsedSource<'s> {
    pub closed spec fn grammar(&self) -> Grammar {
        self.g
    }

    pub closed spec fn source(&self) -> Seq<u8> {
        self.src@
    }
}

/// A node of a parse, with the path of child positions leading to it.
pub struct SynCursor<'t> {
    node: TsNode<'t>,
    g: Grammar,
    src: &'t [u8],
    path: Vec<usize>,
}

impl<'t> SynCursor<'t> {
    pub closed spec fn grammar(&self) -> Grammar {
        self.g
    }

    pub closed spec fn source(&self) -> Seq<u8> {
        self.src@
    }

    pub closed spec fn path(&self) -> Seq<usize> {
        self.path@
    }
}

/// `tree_sitter_rust::LANGUAGE`, tagged with its grammar.
#[verifier::external_body]
pub(crate) fn grammar_rust() -> (r: GrammarLanguage)
    ensures
        r.grammar() == Grammar::Rust,
{
    GrammarLanguage { g: Grammar::Rust, lang: tree_sitter_rust::LANGUAGE.into() }
}

/// `tree_sitter_python::LANGUAGE`, tagged with its grammar.
#[verifier::external_body]
pub(crate) fn grammar_python() -> (r: GrammarLanguage)
    ensures
        r.grammar() == Grammar::Python,
{
    GrammarLanguage { g: Grammar::Python, lang: tree_sitter_python::LANGUAGE.into() }
}

/// `tree_sitter_javascript::LANGUAGE`, tagged with its grammar.
#[verifier::external_body]
pub(crate) fn grammar_javascript() -> (r: GrammarLanguage)
    ensures
        r.grammar() == Grammar::JavaScript,
{
    GrammarLanguage { g: Grammar::JavaScript, lang: tree_sitter_javascript::LANGUAGE.into() }
}

/// `tree_sitter_typescript::LANGUAGE_TYPESCRIPT`, tagged with its grammar.
#[verifier::external_body]
pub(crate) fn grammar_typescript() -> (r: GrammarLanguage)
    ensures
        r.grammar() == Grammar::TypeScript,
{
    GrammarLanguage { g: Grammar::TypeScript, lang: tree_sitter_typescript::LANGUAGE_TYPESCRIPT.into() }
}

/// `tree_sitter_typescript::LANGUAGE_TSX`, tagged with its grammar.
#[verifier::external_body]
pub(crate) fn grammar_tsx() -> (r: GrammarLanguage)
    ensures
        r.grammar() == Grammar::Tsx,
{
    GrammarLanguage { g: Grammar::Tsx, lang: tree_sitter_typescript::LANGUAGE_TSX.into() }
}

/// `tree_sitter_go::LANGUAGE`, tagged with its grammar.
#[verifier::external_body]
pub(crate) fn grammar_go() -> (r: GrammarLanguage)
    ensures
        r.grammar() == Grammar::Go,
{
    GrammarLanguage { g: Grammar::Go, lang: tree_sitter_go::LANGUAGE.into() }
}

/// `tree_sitter_swift::LANGUAGE`, tagged with its grammar.
#[verifier::external_body]
pub(crate) fn grammar_swift() -> (r: GrammarLanguage)
    ensures
        r.grammar() == Grammar::Swift,
{
    GrammarLanguage { g: Grammar::Swift, lang: tree_sitter_swift::LANGUAGE.into() }
}

/// `tree_sitter_java::LANGUAGE`, tagged with its grammar.
#[verifier::external_body]
pub(crate) fn grammar_java() -> (r: GrammarLanguage)
    ensures
        r.grammar() == Grammar::Java,
{
    GrammarLanguage { g: Grammar::Java, lang: tree_sitter_java::LANGUAGE.into() }
}

/// `tree_sitter_c::LANGUAGE`, tagged with its grammar.
#[verifier::external_body]
pub(crate) fn grammar_c() -> (r: GrammarLanguage)
    ensures
        r.grammar() == Grammar::C,
{
    GrammarLanguage { g: Grammar::C, lang: tree_sitter_c::LANGUAGE.into() }
}

/// `tree_sitter_cpp::LANGUAGE`, tagged with its grammar.
#[verifier::external_body]
pub(crate) fn grammar_cpp() -> (r: GrammarLanguage)
    ensures
        r.grammar() == Grammar::Cpp,
{
    GrammarLanguage { g: Grammar::Cpp, lang: tree_sitter_cpp::LANGUAGE.into() }
}

/// `tree_sitter_ruby::LANGUAGE`, tagged with its grammar.
#[verifier::external_body]
pub(crate) fn grammar_ruby() -> (r: GrammarLanguage)
    ensures
        r.grammar() == Grammar::Ruby,
{
    GrammarLanguage { g: Grammar::Ruby, lang: tree_sitter_ruby::LANGUAGE.into() }
}

/// `tree_sitter_c_sharp::LANGUAGE`, tagged with its grammar.
#[verifier::external_body]
pub(crate) fn grammar_csharp() -> (r: GrammarLanguage)
    ensures
        r.grammar() == Grammar::CSharp,
{
    GrammarLanguage { g: Grammar::CSharp, lang: tree_sitter_c_sharp::LANGUAGE.into() }
}

/// `tree_sitter_kotlin_ng::LANGUAGE`, tagged with its grammar.
#[verifier::external_body]
pub(crate) fn grammar_kotlin() -> (r: GrammarLanguage)
    ensures
        r.grammar() == Grammar::Kotlin,
{
    GrammarLanguage { g: Grammar::Kotlin, lang: tree_sitter_kotlin_ng::LANGUAGE.into() }
}

/// `tree_sitter_bash::LANGUAGE`, tagged with its grammar.
#[verifier::external_body]
pub(crate) fn grammar_bash() -> (r: GrammarLanguage)
    ensures
        r.grammar() == Grammar::Bash,
{
    GrammarLanguage { g: Grammar::Bash, lang: tree_sitter_bash::LANGUAGE.into() }
}

/// `Parser::new`.
#[verifier::external_body]
pub(crate) fn ts_parser_new() -> Parser {
    Parser::new()
}

/// `Parser::set_language` with `l`'s language: the parser, now of that
/// grammar, exactly when the grammar's language is accepted.
#[verifier::external_body]
pub(crate) fn ts_set_language(parser: Parser, l: &GrammarLanguage) -> (r: Option<GrammarParser>)
    ensures
        match r {
            Some(p) => grammar_accepted(l.grammar()) && p.grammar() == l.grammar(),
            None => !grammar_accepted(l.grammar()),
        },
{
    let mut parser = parser;
    parser.set_language(&l.lang).ok().map(|_| GrammarParser { g: l.g, parser })
}

/// `Parser::parse` of a whole source text, with no earlier tree.
#[verifier::external_body]
pub(crate) fn ts_parse<'s>(p: &mut GrammarParser, source: &'s str) -> (r: Option<ParsedSource<'s>>)
    ensures
        final(p).grammar() == old(p).grammar(),
        match r {
            Some(t) => source_parses(old(p).grammar(), source.spec_bytes()) && t.grammar() == old(p).grammar()
                && t.source() == source.spec_bytes(),
            None => !source_parses(old(p).grammar(), source.spec_bytes()),
        },
{
    p.parser.parse(source, None).map(|tree| ParsedSource { g: p.g, src: source.as_bytes(), tree })
}

/// `Tree::root_node`: the node reached by the empty path.
#[verifier::external_body]
pub(crate) fn ts_root<'t>(t: &'t ParsedSource<'t>) -> (r: SynCursor<'t>)
    ensures
        r.grammar() == t.grammar(),
        r.source() == t.source(),
        r.path() == Seq::<usize>::empty(),
{
    SynCursor { node: t.tree.root_node(), g: t.g, src: t.src, path: Vec::new() }
}

/// `Node::kind`.
#[verifier::external_body]
pub(crate) fn ts_kind(n: &SynCursor<'_>) -> (r: String)
    ensures
        r@ == syn_kind(n.grammar(), n.source(), n.path()),
{
    n.node.kind().to_string()
}

/// `Node::child_count`.
#[verifier::external_body]
pub(crate) fn ts_child_count(n: &SynCursor<'_>) -> (r: usize)
    ensures
        r == syn_child_count(n.grammar(), n.source(), n.path()),
{
    n.node.child_count() as usize
}

/// `Node::child`: the child at index `i`, none past the last child; `path`
/// is the child's path.
#[verifier::external_body]
pub(crate) fn ts_child<'t>(n: &SynCursor<'t>, i: usize, path: Vec<usize>) -> (r: Option<SynCursor<'t>>)
    requires
        i <= u32::MAX,
        path@ == n.path().push(i),
    ensures
        match r {
            Some(c) => i < syn_child_count(n.grammar(), n.source(), n.path()) && c.grammar() == n.grammar()
                && c.source() == n.source() && c.path() == path@,
            None => i >= syn_child_count(n.grammar(), n.source(), n.path()),
        },
{
    n.node.child(i as u32).map(|c| SynCursor { node: c, g: n.g, src: n.src, path })
}

/// `Node::field_name_for_child`: the field name of the child at index `i`.
#[verifier::external_body]
pub(crate) fn ts_field_for_child(n: &SynCursor<'_>, i: usize) -> (r: Option<String>)
    requires
        i <= u32::MAX,
    ensures
        opt_str(r) == syn_field(n.grammar(), n.source(), n.path().push(i)),
{
    n.node.field_name_for_child(i as u32).map(|f| f.to_string())
}

/// `Node::is_named`.
#[verifier::external_body]
pub(crate) fn ts_is_named(n: &SynCursor<'_>) -> (r: bool)
    ensures
        r == syn_named(n.grammar(), n.source(), n.path()),
{
    n.node.is_named()
}

/// `Node::is_extra`.
#[verifier::external_body]
pub(crate) fn ts_is_extra(n: &SynCursor<'_>) -> (r: bool)
    ensures
        r == syn_extra(n.grammar(), n.source(), n.path()),
{
    n.node.is_extra()
}

/// `Node::start_byte`.
#[verifier::external_body]
pub(crate) fn ts_start_byte(n: &SynCursor<'_>) -> (r: usize)
    ensures
        r == syn_start_byte(n.grammar(), n.source(), n.path()),
{
    n.node.start_byte()
}

/// `Node::end_byte`.
#[verifier::external_body]
pub(crate) fn ts_end_byte(n: &SynCursor<'_>) -> (r: usize)
    ensures
        r == syn_end_byte(n.grammar(), n.source(), n.path()),
{
    n.node.end_byte()
}

/// `Node::start_position`: its row (0-based).
#[verifier::external_body]
pub(crate) fn ts_start_row(n: &SynCursor<'_>) -> (r: usize)
    ensures
        r == syn_start_row(n.grammar(), n.source(), n.path()),
{
    n.node.start_position().row
}

/// `Node::end_position`: its row (0-based).
#[verifier::external_body]
pub(crate) fn ts_end_row(n: &SynCursor<'_>) -> (r: usize)
    ensures
        r == syn_end_row(n.grammar(), n.source(), n.path()),
{
    n.node.end_position().row
}

/// `Node::descendant_count`: the nodes of its subtree, itself included.
#[verifier::external_body]
pub(crate) fn ts_descendant_count(n: &SynCursor<'_>) -> (r: usize)
    ensures
        r == syn_descendants(n.grammar(), n.source(), n.path()),
{
    n.node.descendant_count()
}

/// The path of the child at position `i` of `n`.
pub(crate) fn child_path(n: &SynCursor<'_>, i: usize) -> (r: Vec<usize>)
    ensures
        r@ == n.path().push(i),
{
    let mut v: Vec<usize> = Vec::new();
    let m = n.path.len();
    for k in 0..m
        invariant
            m == n.path@.len(),
            v@ == n.path@.take(k as int),
    {
        v.push(n.path[k]);
        proof {
            assert(v@ =~= n.path@.take(k + 1));
        }
    }
    proof {
        assert(n.path@.take(m as int) =~= n.path@);
    }
    v.push(i);
    v
}

} // verus!
