//! Syntax trees: the parser's concrete syntax tree copied into plain values
//! (kind, field name under the parent, flags, byte span, rows, children), and
//! the queries the extraction walks make on it.

use crate::text::str_eq;
use crate::treesitter::{
    child_path, grammar_accepted, source_parses, syn_child_count, syn_descendants, syn_end_byte, syn_end_row, syn_extra,
    syn_field, syn_kind, syn_named, syn_start_byte, syn_start_row,
    grammar_bash, grammar_c, grammar_cpp, grammar_csharp, grammar_go, grammar_java, grammar_javascript, grammar_kotlin,
    grammar_python, grammar_ruby, grammar_rust, grammar_swift, grammar_tsx, grammar_typescript, ts_child,
    ts_child_count, ts_descendant_count, ts_end_byte, ts_end_row, ts_field_for_child, ts_is_extra, ts_is_named, ts_kind,
    ts_parse, ts_parser_new, ts_root, ts_set_language, ts_start_byte, ts_start_row, GrammarLanguage, SynCursor,
};
use vstd::prelude::*;
use vstd::string::StringSliceAdditionalSpecFns;
use vstd::utf8::{decode_utf8, valid_utf8};

verus! {

/// The grammars a file can be parsed with.
#[derive(Debug, Clone, Copy, PartialEq, Eq, Structural)]
pub enum Grammar {
    Rust,
    Python,
    JavaScript,
    TypeScript,
    Tsx,
    Go,
    Swift,
    Java,
    C,
    Cpp,
    Ruby,
    CSharp,
    Kotlin,
    Bash,
}

/// The tree-sitter language of a grammar.
fn language_of(g: Grammar) -> (r: GrammarLanguage)
    ensures
        r.grammar() == g,
{
    match g {
        Grammar::Rust => grammar_rust(),
        Grammar::Python => grammar_python(),
        Grammar::JavaScript => grammar_javascript(),
        Grammar::TypeScript => grammar_typescript(),
        Grammar::Tsx => grammar_tsx(),
        Grammar::Go => grammar_go(),
        Grammar::Swift => grammar_swift(),
        Grammar::Java => grammar_java(),
        Grammar::C => grammar_c(),
        Grammar::Cpp => grammar_cpp(),
        Grammar::Ruby => grammar_ruby(),
        Grammar::CSharp => grammar_csharp(),
        Grammar::Kotlin => grammar_kotlin(),
        Grammar::Bash => grammar_bash(),
    }
}

/// `std::str::from_utf8`, copied into a `String`: the decoded characters
/// when the bytes are valid UTF-8, else nothing.
#[verifier::external_body]
fn utf8_string(b: &[u8]) -> (r: Option<String>)
    ensures
        match r {
            Some(s) => valid_utf8(b@) && s@ == decode_utf8(b@),
            None => !valid_utf8(b@),
        },
{
    std::str::from_utf8(b).ok().map(|s| s.to_string())
}

/// The characters of an optional string.
pub open spec fn opt_str(o: Option<String>) -> Option<Seq<char>> {
    match o {
        Some(s) => Some(s@),
        None => None,
    }
}

/// One node of a syntax tree.
pub struct SynNode {
    /// The grammar's node kind.
    pub kind: String,
    /// The field name under which the parent holds this node.
    pub field: Option<String>,
    pub named: bool,
    pub extra: bool,
    pub start_byte: usize,
    pub end_byte: usize,
    /// 0-based rows of the first and last character.
    pub start_row: usize,
    pub end_row: usize,
    /// Indices of the children, in order.
    pub children: Vec<usize>,
}

/// A syntax tree: its nodes (the root at index 0, every child after its
/// parent) and the source bytes it was parsed from.
pub struct SynTree {
    pub nodes: Vec<SynNode>,
    pub src: Vec<u8>,
}

impl SynTree {
    pub open spec fn len(&self) -> int {
        self.nodes@.len() as int
    }

    pub open spec fn kids(&self, i: int) -> Seq<usize> {
        self.nodes@[i].children@
    }

    pub open spec fn kind(&self, i: int) -> Seq<char> {
        self.nodes@[i].kind@
    }

    /// A root, and every child index lies after its parent and inside the tree.
    pub open spec fn wf(&self) -> bool {
        &&& self.nodes@.len() > 0
        &&& forall|i: int, k: int|
            0 <= i < self.nodes@.len() && 0 <= k < self.kids(i).len() ==> i < #[trigger] self.kids(i)[k]
                < self.nodes@.len()
    }

    /// The text of node `i`: its bytes decoded, when they lie in the source
    /// and are valid UTF-8.
    pub open spec fn text(&self, i: int) -> Option<Seq<char>> {
        let a = self.nodes@[i].start_byte as int;
        let b = self.nodes@[i].end_byte as int;
        if a <= b <= self.src@.len() && valid_utf8(self.src@.subrange(a, b)) {
            Some(decode_utf8(self.src@.subrange(a, b)))
        } else {
            None
        }
    }

    /// The first of `cs` held under field `f`.
    pub open spec fn first_in_field(&self, cs: Seq<usize>, f: Seq<char>) -> Option<int>
        decreases cs.len(),
    {
        if cs.len() == 0 {
            None
        } else if opt_str(self.nodes@[cs[0] as int].field) == Some(f) {
            Some(cs[0] as int)
        } else {
            self.first_in_field(cs.drop_first(), f)
        }
    }

    /// The first child of `i` held under field `f`.
    pub open spec fn field_child(&self, i: int, f: Seq<char>) -> Option<int> {
        self.first_in_field(self.kids(i), f)
    }

    /// The named entries of `cs`.
    pub open spec fn named_of(&self, cs: Seq<usize>) -> Seq<usize>
        decreases cs.len(),
    {
        if cs.len() == 0 {
            Seq::empty()
        } else if self.nodes@[cs[0] as int].named {
            seq![cs[0]] + self.named_of(cs.drop_first())
        } else {
            self.named_of(cs.drop_first())
        }
    }

    /// The named children of `i`, in order.
    pub open spec fn named_kids(&self, i: int) -> Seq<usize> {
        self.named_of(self.kids(i))
    }

    /// The first of `cs` of kind `k`.
    pub open spec fn first_of_kind(&self, cs: Seq<usize>, k: Seq<char>) -> Option<int>
        decreases cs.len(),
    {
        if cs.len() == 0 {
            None
        } else if self.kind(cs[0] as int) == k {
            Some(cs[0] as int)
        } else {
            self.first_of_kind(cs.drop_first(), k)
        }
    }

    /// The first named child of `i` of kind `k`.
    pub open spec fn named_child_of(&self, i: int, k: Seq<char>) -> Option<int> {
        self.first_of_kind(self.named_kids(i), k)
    }

    /// The text of the child of `i` under field `f`.
    pub open spec fn field_text(&self, i: int, f: Seq<char>) -> Option<Seq<char>> {
        match self.field_child(i, f) {
            Some(c) => self.text(c),
            None => None,
        }
    }
}

/// Every child index lies after its parent and inside `nodes`.
pub open spec fn children_after(nodes: Seq<SynNode>) -> bool {
    forall|i: int, k: int|
        0 <= i < nodes.len() && 0 <= k < nodes[i].children@.len() ==> i < #[trigger] nodes[i].children@[k]
            < nodes.len()
}

/// The plain content of a syntax node.
pub struct SynNodeV {
    pub kind: Seq<char>,
    pub field: Option<Seq<char>>,
    pub named: bool,
    pub extra: bool,
    pub start_byte: usize,
    pub end_byte: usize,
    pub start_row: usize,
    pub end_row: usize,
    pub children: Seq<usize>,
}

impl View for SynNode {
    type V = SynNodeV;

    open spec fn view(&self) -> SynNodeV {
        SynNodeV {
            kind: self.kind@,
            field: opt_str(self.field),
            named: self.named,
            extra: self.extra,
            start_byte: self.start_byte,
            end_byte: self.end_byte,
            start_row: self.start_row,
            end_row: self.end_row,
            children: self.children@,
        }
    }
}

/// The plain contents of a sequence of syntax nodes.
pub open spec fn syn_views(v: Seq<SynNode>) -> Seq<SynNodeV> {
    v.map_values(|n: SynNode| n@)
}

/// The node reached by `path` in the parse of `src` with `g`, held under
/// `field`, with children at `kids`.
pub open spec fn syn_node_at(g: Grammar, src: Seq<u8>, path: Seq<usize>, field: Option<Seq<char>>, kids: Seq<usize>) -> SynNodeV {
    SynNodeV {
        kind: syn_kind(g, src, path),
        field,
        named: syn_named(g, src, path),
        extra: syn_extra(g, src, path),
        start_byte: syn_start_byte(g, src, path),
        end_byte: syn_end_byte(g, src, path),
        start_row: syn_start_row(g, src, path),
        end_row: syn_end_row(g, src, path),
        children: kids,
    }
}

/// The copy of the subtree reached by `path` (held under `field`), laid out
/// depth-first from index `base`, its children in order; below `fuel`
/// levels no children are copied.
pub open spec fn syn_flat(g: Grammar, src: Seq<u8>, path: Seq<usize>, field: Option<Seq<char>>, fuel: nat, base: nat) -> Seq<SynNodeV>
    decreases fuel, 1nat, 0nat,
{
    if fuel == 0 {
        seq![syn_node_at(g, src, path, field, seq![])]
    } else {
        let k = syn_flat_kids(g, src, path, fuel, base + 1, 0);
        seq![syn_node_at(g, src, path, field, k.0)] + k.1
    }
}

/// The children of the node reached by `path` from position `i` on, each
/// copied with one level less than `fuel`, laid out from index `base`: their
/// indices and their copies.
pub open spec fn syn_flat_kids(g: Grammar, src: Seq<u8>, path: Seq<usize>, fuel: nat, base: nat, i: nat) -> (Seq<usize>, Seq<SynNodeV>)
    decreases fuel, 0nat, syn_child_count(g, src, path) - i,
{
    if i >= syn_child_count(g, src, path) || i > u32::MAX || fuel == 0 {
        (seq![], seq![])
    } else {
        let c = path.push(i as usize);
        let sub = syn_flat(g, src, c, syn_field(g, src, c), (fuel - 1) as nat, base);
        let rest = syn_flat_kids(g, src, path, fuel, base + sub.len(), i + 1);
        (seq![base as usize] + rest.0, sub + rest.1)
    }
}

/// The syntax tree tree-sitter gives `src` with grammar `g`, copied depth
/// first: none when the grammar's language is refused or no tree comes back.
pub open spec fn syntax_of(g: Grammar, src: Seq<u8>) -> Option<Seq<SynNodeV>> {
    if grammar_accepted(g) && source_parses(g, src) {
        Some(syn_flat(g, src, seq![], None, syn_descendants(g, src, seq![]) as nat, 0))
    } else {
        None
    }
}

/// `t` is the copy of the tree tree-sitter gives `src` with grammar `g`.
pub open spec fn is_syntax_of(t: SynTree, g: Grammar, src: Seq<u8>) -> bool {
    &&& t.wf()
    &&& t.src@ == src
    &&& syntax_of(g, src) == Some(syn_views(t.nodes@))
}

/// Convert the subtree of `n` (held under `field`) into `out`, depth-first,
/// children in order; below `fuel` levels nothing more is copied.
fn copy_subtree<'t>(n: &SynCursor<'t>, field: Option<String>, out: &mut Vec<SynNode>, fuel: usize) -> (r: usize)
    requires
        children_after(old(out)@),
        opt_str(field) == (if n.path().len() == 0 { None } else { syn_field(n.grammar(), n.source(), n.path()) }),
    ensures
        r == old(out)@.len(),
        final(out)@.len() > r,
        forall|j: int| 0 <= j < old(out)@.len() ==> final(out)@[j] == old(out)@[j],
        children_after(final(out)@),
        syn_views(final(out)@) == syn_views(old(out)@) + syn_flat(n.grammar(), n.source(), n.path(), opt_str(field), fuel as nat, old(out)@.len()),
    decreases fuel,
{
    let ghost g = n.grammar();
    let ghost src = n.source();
    let ghost path = n.path();
    let me = out.len();
    let kind = ts_kind(n);
    let named = ts_is_named(n);
    let extra = ts_is_extra(n);
    let start_byte = ts_start_byte(n);
    let end_byte = ts_end_byte(n);
    let start_row = ts_start_row(n);
    let end_row = ts_end_row(n);
    out.push(
        SynNode {
            kind: String::new(),
            field: None,
            named,
            extra,
            start_byte,
            end_byte,
            start_row,
            end_row,
            children: Vec::new(),
        },
    );
    let ghost head = syn_views(out@);
    let mut kids: Vec<usize> = Vec::new();
    if fuel > 0 {
        let ghost f1 = (fuel - 1) as nat;
        let count = ts_child_count(n);
        let mut i: usize = 0;
        proof {
            assert(syn_views(out@) =~= head + Seq::<SynNodeV>::empty());
        }
        while i < count && i <= 4294967295
            invariant
                me < out@.len(),
                me == old(out)@.len(),
                fuel > 0,
                f1 == fuel - 1,
                count == syn_child_count(g, src, path),
                g == n.grammar(),
                src == n.source(),
                path == n.path(),
                head.len() == me + 1,
                forall|j: int| 0 <= j < old(out)@.len() ==> out@[j] == old(out)@[j],
                forall|j: int| 0 <= j <= me ==> syn_views(out@)[j] == head[j],
                children_after(out@),
                forall|k: int| 0 <= k < kids@.len() ==> me < #[trigger] kids@[k] < out@.len(),
                ({
                    let rest = syn_flat_kids(g, src, path, fuel as nat, out@.len() as nat, i as nat);
                    let all = syn_flat_kids(g, src, path, fuel as nat, (me + 1) as nat, 0);
                    &&& kids@ + rest.0 == all.0
                    &&& syn_views(out@).skip(me + 1) + rest.1 == all.1
                }),
            decreases count - i,
        {
            let ghost o0 = out@;
            let ghost c = path.push(i);
            let cpath = child_path(n, i);
            let ch = ts_child(n, i, cpath);
            let f = ts_field_for_child(n, i);
            match ch {
                Some(ch) => {
                    let ci = copy_subtree(&ch, f, out, fuel - 1);
                    proof {
                        let sub = syn_flat(g, src, c, syn_field(g, src, c), f1, o0.len() as nat);
                        let rest = syn_flat_kids(g, src, path, fuel as nat, o0.len() as nat, i as nat);
                        let rest2 = syn_flat_kids(g, src, path, fuel as nat, (o0.len() + sub.len()) as nat, (i + 1) as nat);
                        assert(rest.0 == seq![o0.len() as usize] + rest2.0);
                        assert(rest.1 == sub + rest2.1);
                        assert(syn_views(out@) == syn_views(o0) + sub);
                        assert(syn_views(out@).skip(me + 1) =~= syn_views(o0).skip(me + 1) + sub);
                        assert(syn_views(out@).skip(me + 1) + rest2.1 =~= syn_views(o0).skip(me + 1) + rest.1);
                        assert forall|j: int| 0 <= j <= me implies syn_views(out@)[j] == head[j] by {
                            assert(syn_views(out@)[j] == syn_views(o0)[j]);
                        }
                    }
                    let ghost k0 = kids@;
                    kids.push(ci);
                    proof {
                        let rest = syn_flat_kids(g, src, path, fuel as nat, o0.len() as nat, i as nat);
                        let sub = syn_flat(g, src, c, syn_field(g, src, c), f1, o0.len() as nat);
                        let rest2 = syn_flat_kids(g, src, path, fuel as nat, (o0.len() + sub.len()) as nat, (i + 1) as nat);
                        assert(kids@ + rest2.0 =~= k0 + rest.0);
                        assert(out@.len() == o0.len() + sub.len());
                    }
                },
                None => {
                    proof {
                        assert(false);
                    }
                },
            }
            i = i + 1;
        }
        proof {
            let rest = syn_flat_kids(g, src, path, fuel as nat, out@.len() as nat, i as nat);
            assert(rest.0 == Seq::<usize>::empty());
            assert(kids@ =~= kids@ + rest.0);
            assert(syn_views(out@).skip(me + 1) =~= syn_views(out@).skip(me + 1) + rest.1);
        }
    }
    let ghost before_set = out@;
    let node = SynNode {
        kind,
        field,
        named,
        extra,
        start_byte,
        end_byte,
        start_row,
        end_row,
        children: kids,
    };
    out.set(me, node);
    proof {
        let all = syn_flat_kids(g, src, path, fuel as nat, (me + 1) as nat, 0);
        let want = syn_flat(g, src, path, opt_str(field), fuel as nat, me as nat);
        assert(out@[me as int]@ == syn_node_at(g, src, path, opt_str(field), kids@));
        if fuel > 0 {
            assert(kids@ == all.0);
            assert(syn_views(out@) =~= syn_views(old(out)@) + want) by {
                assert(syn_views(before_set).skip(me + 1) == all.1);
                assert forall|j: int| 0 <= j < syn_views(out@).len() implies syn_views(out@)[j] == (syn_views(old(out)@) + want)[j] by {
                    if j < me {
                        assert(out@[j] == old(out)@[j]);
                    } else if j > me {
                        assert(out@[j] == before_set[j]);
                        assert(syn_views(before_set).skip(me + 1)[j - me - 1] == syn_views(before_set)[j]);
                    }
                }
            }
        } else {
            assert(kids@ =~= Seq::<usize>::empty());
            assert(syn_views(out@) =~= syn_views(old(out)@) + want);
        }
    }
    me
}

/// Parse `source` with a grammar and copy its syntax tree: the copy of the
/// tree tree-sitter gives the source's bytes; nothing when the grammar's
/// language is refused or no tree comes back.
pub fn parse_tree(g: Grammar, source: &str) -> (r: Option<SynTree>)
    ensures
        match syntax_of(g, source.spec_bytes()) {
            Some(_) => r matches Some(t) && is_syntax_of(t, g, source.spec_bytes()),
            None => r is None,
        },
{
    let lang = language_of(g);
    let mut parser = match ts_set_language(ts_parser_new(), &lang) {
        Some(p) => p,
        None => return None,
    };
    let tree = match ts_parse(&mut parser, source) {
        Some(t) => t,
        None => return None,
    };
    let root = ts_root(&tree);
    let fuel = ts_descendant_count(&root);
    let mut nodes: Vec<SynNode> = Vec::new();
    proof {
        assert(syn_views(nodes@) =~= Seq::<SynNodeV>::empty());
    }
    copy_subtree(&root, None, &mut nodes, fuel);
    proof {
        assert(syn_views(nodes@) =~= syn_flat(g, source.spec_bytes(), seq![], None, fuel as nat, 0));
    }
    let bytes = source.as_bytes();
    let mut src: Vec<u8> = Vec::new();
    let n = bytes.len();
    for i in 0..n
        invariant
            n == bytes@.len(),
            src@ == bytes@.take(i as int),
    {
        src.push(bytes[i]);
        proof {
            assert(src@ =~= bytes@.take(i + 1));
        }
    }
    proof {
        assert(bytes@.take(n as int) =~= bytes@);
    }
    Some(SynTree { nodes, src })
}

/// An optional index as an integer.
pub open spec fn opt_int(o: Option<usize>) -> Option<int> {
    match o {
        Some(i) => Some(i as int),
        None => None,
    }
}

impl SynTree {
    /// Whether node `i` has kind `k`.
    pub fn kind_is(&self, i: usize, k: &str) -> (r: bool)
        requires
            i < self.nodes@.len(),
        ensures
            r == (self.kind(i as int) == k@),
    {
        str_eq(self.nodes[i].kind.as_str(), k)
    }

    /// The text of node `i`.
    pub fn text_of(&self, i: usize) -> (r: Option<String>)
        requires
            i < self.nodes@.len(),
        ensures
            opt_str(r) == self.text(i as int),
    {
        let a = self.nodes[i].start_byte;
        let b = self.nodes[i].end_byte;
        if !(a <= b && b <= self.src.len()) {
            return None;
        }
        let mut bytes: Vec<u8> = Vec::new();
        for j in a..b
            invariant
                a <= b <= self.src@.len(),
                bytes@ == self.src@.subrange(a as int, j as int),
        {
            bytes.push(self.src[j]);
            proof {
                assert(bytes@ =~= self.src@.subrange(a as int, j + 1));
            }
        }
        utf8_string(bytes.as_slice())
    }

    /// The first child of `i` held under field `f`.
    pub fn field_child_of(&self, i: usize, f: &str) -> (r: Option<usize>)
        requires
            self.wf(),
            i < self.nodes@.len(),
        ensures
            opt_int(r) == self.field_child(i as int, f@),
            match r {
                Some(c) => i < c < self.nodes@.len(),
                None => true,
            },
    {
        proof {
            self.lemma_first_in_field_child(self.kids(i as int), f@, i as int);
        }
        let cs = &self.nodes[i].children;
        let n = cs.len();
        proof {
            assert(cs@.skip(0) =~= cs@);
        }
        for j in 0..n
            invariant
                n == cs@.len(),
                cs@ == self.kids(i as int),
                self.wf(),
                i < self.nodes@.len(),
                self.field_child(i as int, f@) == self.first_in_field(cs@.skip(j as int), f@),
        {
            let c = cs[j];
            proof {
                assert(cs@.skip(j as int)[0] == c);
                assert(cs@.skip(j as int).drop_first() =~= cs@.skip(j + 1));
            }
            match &self.nodes[c].field {
                Some(name) => {
                    if str_eq(name.as_str(), f) {
                        return Some(c);
                    }
                },
                None => {},
            }
        }
        None
    }
}

/// The characters of each of `ks`.
pub open spec fn strs(ks: Seq<&str>) -> Seq<Seq<char>> {
    ks.map_values(|k: &str| k@)
}

impl SynTree {
    /// Nodes met by a depth-first walk driven by `stack`: the top node is
    /// popped; a node whose kind is in `skip` (the root excepted) is passed
    /// over with its subtree; any other node is met, and unless its kind is
    /// in `leaf` its children are pushed in order, so the last child is met
    /// first. At most `fuel` pops.
    pub open spec fn walk_from(
        &self,
        stack: Seq<usize>,
        root: int,
        skip: Seq<Seq<char>>,
        leaf: Seq<Seq<char>>,
        fuel: nat,
    ) -> Seq<usize>
        decreases fuel,
    {
        if fuel == 0 || stack.len() == 0 {
            Seq::empty()
        } else {
            let n = stack.last();
            let rest = stack.drop_last();
            if n as int != root && skip.contains(self.kind(n as int)) {
                self.walk_from(rest, root, skip, leaf, (fuel - 1) as nat)
            } else if leaf.contains(self.kind(n as int)) {
                seq![n] + self.walk_from(rest, root, skip, leaf, (fuel - 1) as nat)
            } else {
                seq![n] + self.walk_from(rest + self.kids(n as int), root, skip, leaf, (fuel - 1) as nat)
            }
        }
    }

    /// The walk of the subtree of `root`, with one pop per node of the tree.
    pub open spec fn walk_spec(&self, root: int, skip: Seq<Seq<char>>, leaf: Seq<Seq<char>>) -> Seq<usize> {
        self.walk_from(seq![root as usize], root, skip, leaf, self.nodes@.len())
    }

    /// Whether the kind of node `i` is one of `ks`.
    pub fn kind_in(&self, i: usize, ks: &[&str]) -> (r: bool)
        requires
            i < self.nodes@.len(),
        ensures
            r == strs(ks@).contains(self.kind(i as int)),
    {
        let n = ks.len();
        for j in 0..n
            invariant
                n == ks@.len(),
                i < self.nodes@.len(),
                forall|q: int| 0 <= q < j ==> ks@[q]@ != self.kind(i as int),
        {
            if str_eq(self.nodes[i].kind.as_str(), ks[j]) {
                proof {
                    assert(strs(ks@)[j as int] == self.kind(i as int));
                }
                return true;
            }
        }
        proof {
            if strs(ks@).contains(self.kind(i as int)) {
                let q = choose|q: int| 0 <= q < strs(ks@).len() && strs(ks@)[q] == self.kind(i as int);
                assert(ks@[q]@ == strs(ks@)[q]);
            }
        }
        false
    }

    /// The nodes a depth-first walk of the subtree of `root` meets (see
    /// `walk_from`).
    pub fn walk(&self, root: usize, skip: &[&str], leaf: &[&str]) -> (r: Vec<usize>)
        requires
            self.wf(),
            root < self.nodes@.len(),
        ensures
            r@ == self.walk_spec(root as int, strs(skip@), strs(leaf@)),
            forall|k: int| 0 <= k < r@.len() ==> (#[trigger] r@[k]) < self.nodes@.len(),
    {
        let ghost sk = strs(skip@);
        let ghost lf = strs(leaf@);
        let mut stack: Vec<usize> = Vec::new();
        stack.push(root);
        let mut out: Vec<usize> = Vec::new();
        let mut fuel = self.nodes.len();
        while fuel > 0 && stack.len() > 0
            invariant
                self.wf(),
                root < self.nodes@.len(),
                sk == strs(skip@),
                lf == strs(leaf@),
                forall|k: int| 0 <= k < stack@.len() ==> (#[trigger] stack@[k]) < self.nodes@.len(),
                forall|k: int| 0 <= k < out@.len() ==> (#[trigger] out@[k]) < self.nodes@.len(),
                out@ + self.walk_from(stack@, root as int, sk, lf, fuel as nat) == self.walk_spec(
                    root as int,
                    sk,
                    lf,
                ),
            decreases fuel,
        {
            let ghost st = stack@;
            let ghost ob = out@;
            let n = stack.pop().unwrap();
            proof {
                assert(st.last() == n);
                assert(stack@ == st.drop_last());
            }
            let f = fuel;
            fuel = fuel - 1;
            if n != root && self.kind_in(n, skip) {
            } else {
                out.push(n);
                if !self.kind_in(n, leaf) {
                    let cs = &self.nodes[n].children;
                    let m = cs.len();
                    let ghost sb = stack@;
                    for j in 0..m
                        invariant
                            m == cs@.len(),
                            cs@ == self.kids(n as int),
                            n < self.nodes@.len(),
                            self.wf(),
                            stack@ == sb + cs@.take(j as int),
                            forall|k: int| 0 <= k < sb.len() ==> (#[trigger] sb[k]) < self.nodes@.len(),
                    {
                        stack.push(cs[j]);
                        proof {
                            assert(stack@ =~= sb + cs@.take(j + 1));
                        }
                    }
                    proof {
                        assert(cs@.take(m as int) =~= cs@);
                        assert forall|k: int| 0 <= k < stack@.len() implies (#[trigger] stack@[k]) < self.nodes@.len() by {
                            if k >= sb.len() {
                                assert(stack@[k] == cs@[k - sb.len()]);
                                assert(self.kids(n as int)[k - sb.len()] < self.nodes@.len());
                            }
                        }
                    }
                }
                proof {
                    assert(out@ =~= ob + seq![n]);
                }
            }
            proof {
                assert(self.walk_from(st, root as int, sk, lf, f as nat) == if n as int != root && sk.contains(
                    self.kind(n as int),
                ) {
                    self.walk_from(st.drop_last(), root as int, sk, lf, fuel as nat)
                } else if lf.contains(self.kind(n as int)) {
                    seq![n] + self.walk_from(st.drop_last(), root as int, sk, lf, fuel as nat)
                } else {
                    seq![n] + self.walk_from(
                        st.drop_last() + self.kids(n as int),
                        root as int,
                        sk,
                        lf,
                        fuel as nat,
                    )
                });
                assert(out@ + self.walk_from(stack@, root as int, sk, lf, fuel as nat) =~= ob + self.walk_from(
                    st,
                    root as int,
                    sk,
                    lf,
                    f as nat,
                ));
            }
        }
        proof {
            assert(self.walk_from(stack@, root as int, sk, lf, fuel as nat) =~= Seq::<usize>::empty());
            assert(out@ =~= out@ + Seq::<usize>::empty());
        }
        out
    }

    /// The named children of `i`, in order.
    pub fn named_kids_of(&self, i: usize) -> (r: Vec<usize>)
        requires
            self.wf(),
            i < self.nodes@.len(),
        ensures
            r@ == self.named_kids(i as int),
            forall|k: int| 0 <= k < r@.len() ==> i < (#[trigger] r@[k]) < self.nodes@.len(),
    {
        let cs = &self.nodes[i].children;
        let n = cs.len();
        let mut out: Vec<usize> = Vec::new();
        proof {
            assert(cs@.skip(0) =~= cs@);
        }
        for j in 0..n
            invariant
                n == cs@.len(),
                cs@ == self.kids(i as int),
                self.wf(),
                i < self.nodes@.len(),
                out@ + self.named_of(cs@.skip(j as int)) == self.named_kids(i as int),
                forall|k: int| 0 <= k < out@.len() ==> i < (#[trigger] out@[k]) < self.nodes@.len(),
        {
            let c = cs[j];
            let ghost ob = out@;
            proof {
                assert(cs@.skip(j as int)[0] == c);
                assert(cs@.skip(j as int).drop_first() =~= cs@.skip(j + 1));
            }
            if self.nodes[c].named {
                out.push(c);
                proof {
                    assert(out@ + self.named_of(cs@.skip(j + 1)) =~= ob + self.named_of(cs@.skip(j as int)));
                }
            }
        }
        proof {
            assert(out@ + Seq::<usize>::empty() =~= out@);
        }
        out
    }

    /// The first named child of `i` of kind `k`.
    pub fn named_child_kind(&self, i: usize, k: &str) -> (r: Option<usize>)
        requires
            self.wf(),
            i < self.nodes@.len(),
        ensures
            opt_int(r) == self.named_child_of(i as int, k@),
            match r {
                Some(c) => i < c < self.nodes@.len(),
                None => true,
            },
    {
        let cs = self.named_kids_of(i);
        let n = cs.len();
        proof {
            assert(cs@.skip(0) =~= cs@);
        }
        for j in 0..n
            invariant
                n == cs@.len(),
                cs@ == self.named_kids(i as int),
                forall|q: int| 0 <= q < cs@.len() ==> i < (#[trigger] cs@[q]) < self.nodes@.len(),
                self.named_child_of(i as int, k@) == self.first_of_kind(cs@.skip(j as int), k@),
        {
            let c = cs[j];
            proof {
                assert(cs@.skip(j as int)[0] == c);
                assert(cs@.skip(j as int).drop_first() =~= cs@.skip(j + 1));
            }
            if self.kind_is(c, k) {
                return Some(c);
            }
        }
        None
    }

    /// The `k`-th named child of `i`.
    pub fn nth_named(&self, i: usize, k: usize) -> (r: Option<usize>)
        requires
            self.wf(),
            i < self.nodes@.len(),
        ensures
            match r {
                Some(c) => k < self.named_kids(i as int).len() && c == self.named_kids(i as int)[k as int] && i < c
                    < self.nodes@.len(),
                None => k >= self.named_kids(i as int).len(),
            },
    {
        let cs = self.named_kids_of(i);
        if k < cs.len() {
            Some(cs[k])
        } else {
            None
        }
    }

    /// The text of the child of `i` under field `f`.
    pub fn field_text_of(&self, i: usize, f: &str) -> (r: Option<String>)
        requires
            self.wf(),
            i < self.nodes@.len(),
        ensures
            opt_str(r) == self.field_text(i as int, f@),
    {
        match self.field_child_of(i, f) {
            Some(c) => {
                proof {
                    self.lemma_first_in_field_child(self.kids(i as int), f@, i as int);
                }
                self.text_of(c)
            },
            None => None,
        }
    }

    /// A node found by field among children of `i` is a child of `i`.
    pub proof fn lemma_first_in_field_child(&self, cs: Seq<usize>, f: Seq<char>, i: int)
        requires
            self.wf(),
            0 <= i < self.nodes@.len(),
            forall|q: int| 0 <= q < cs.len() ==> i < (#[trigger] cs[q]) < self.nodes@.len(),
        ensures
            match self.first_in_field(cs, f) {
                Some(c) => i < c < self.nodes@.len(),
                None => true,
            },
        decreases cs.len(),
    {
        if cs.len() > 0 {
            assert(cs[0] < self.nodes@.len());
            assert forall|q: int| 0 <= q < cs.drop_first().len() implies i < (#[trigger] cs.drop_first()[q]) < self.nodes@.len() by {
                assert(cs.drop_first()[q] == cs[q + 1]);
            }
            self.lemma_first_in_field_child(cs.drop_first(), f, i);
        }
    }
}

} // verus!
