//! The grammar-driven walk: one pass over a file's syntax tree records its
//! definitions, calls (with receivers), HTTP routes, inheritance, typed fields,
//! local types and import bindings.

use crate::extract::{
    callee_name, callee_name_of, detect_receiver, detect_receiver_of, first_string_arg, first_string_arg_of,
    is_subscript, is_subscript_call, name_of, name_of_node,
};
use crate::coverage::push_str;
use crate::harvest::{
    class_fields, extract_fields, extract_inherits, field_views, import_views, inherit_views, inherits_of,
    local_views, py_extract_import, py_imports, ts_extract_import, ts_imports, ts_infer_locals, ts_locals,
    FieldLang,
};
use crate::langs::{
    call_kinds, callee_fields, callee_fields_of, grammar_for, has_implicit_member, http_method,
    implicit_member, is_call_kind, is_http_method, label_for, label_of, lang_name, lang_name_of,
    normalize_path, path_segment, rebinds, rebinds_this, spec_for_ext, uses_declarators,
};
use crate::qualname::{qualified, QualifiedName};
use crate::syntax::{is_syntax_of, opt_str, parse_tree, syntax_of, Grammar, SynTree};
use vstd::string::StringSliceAdditionalSpecFns;
use crate::text::{ascii_upper, chars_of, str_eq, string_of, to_ascii_upper, utf8_len, utf8_len_at_most};
use crate::types::{
    CallV, FieldV, ImportV, InheritV, LocalV, MetaV, MetaValue, Metadata, Node, NodeLabel, NodeV, RawCall,
    RawField, RawImport, RawInherit, RawLocal, Receiver, ReceiverV,
};
use vstd::prelude::*;

verus! {

/// Everything recorded from one file.
pub struct ParsedV {
    pub nodes: Seq<NodeV>,
    pub calls: Seq<CallV>,
    pub inherits: Seq<InheritV>,
    pub fields: Seq<FieldV>,
    pub locals: Seq<LocalV>,
    pub imports: Seq<ImportV>,
}

pub open spec fn pv_empty() -> ParsedV {
    ParsedV { nodes: seq![], calls: seq![], inherits: seq![], fields: seq![], locals: seq![], imports: seq![] }
}

/// Records of `a` followed by those of `b`.
pub open spec fn pv_add(a: ParsedV, b: ParsedV) -> ParsedV {
    ParsedV {
        nodes: a.nodes + b.nodes,
        calls: a.calls + b.calls,
        inherits: a.inherits + b.inherits,
        fields: a.fields + b.fields,
        locals: a.locals + b.locals,
        imports: a.imports + b.imports,
    }
}

pub proof fn lemma_pv_assoc(a: ParsedV, b: ParsedV, c: ParsedV)
    ensures
        pv_add(pv_add(a, b), c) == pv_add(a, pv_add(b, c)),
{
    assert(pv_add(pv_add(a, b), c).nodes =~= pv_add(a, pv_add(b, c)).nodes);
    assert(pv_add(pv_add(a, b), c).calls =~= pv_add(a, pv_add(b, c)).calls);
    assert(pv_add(pv_add(a, b), c).inherits =~= pv_add(a, pv_add(b, c)).inherits);
    assert(pv_add(pv_add(a, b), c).fields =~= pv_add(a, pv_add(b, c)).fields);
    assert(pv_add(pv_add(a, b), c).locals =~= pv_add(a, pv_add(b, c)).locals);
    assert(pv_add(pv_add(a, b), c).imports =~= pv_add(a, pv_add(b, c)).imports);
}

pub proof fn lemma_pv_unit(a: ParsedV)
    ensures
        pv_add(a, pv_empty()) == a,
        pv_add(pv_empty(), a) == a,
{
    assert(pv_add(a, pv_empty()).nodes =~= a.nodes);
    assert(pv_add(a, pv_empty()).calls =~= a.calls);
    assert(pv_add(a, pv_empty()).inherits =~= a.inherits);
    assert(pv_add(a, pv_empty()).fields =~= a.fields);
    assert(pv_add(a, pv_empty()).locals =~= a.locals);
    assert(pv_add(a, pv_empty()).imports =~= a.imports);
    assert(pv_add(pv_empty(), a).nodes =~= a.nodes);
    assert(pv_add(pv_empty(), a).calls =~= a.calls);
    assert(pv_add(pv_empty(), a).inherits =~= a.inherits);
    assert(pv_add(pv_empty(), a).fields =~= a.fields);
    assert(pv_add(pv_empty(), a).locals =~= a.locals);
    assert(pv_add(pv_empty(), a).imports =~= a.imports);
}

/// The records parsed from one file.
pub struct ParsedFile {
    pub nodes: Vec<Node>,
    pub calls: Vec<RawCall>,
    pub inherits: Vec<RawInherit>,
    pub fields: Vec<RawField>,
    pub locals: Vec<RawLocal>,
    pub imports: Vec<RawImport>,
}

pub open spec fn node_views(v: Seq<Node>) -> Seq<NodeV> {
    v.map_values(|n: Node| n@)
}

pub open spec fn call_views(v: Seq<RawCall>) -> Seq<CallV> {
    v.map_values(|c: RawCall| c@)
}

impl View for ParsedFile {
    type V = ParsedV;

    open spec fn view(&self) -> ParsedV {
        ParsedV {
            nodes: node_views(self.nodes@),
            calls: call_views(self.calls@),
            inherits: inherit_views(self.inherits@),
            fields: field_views(self.fields@),
            locals: local_views(self.locals@),
            imports: import_views(self.imports@),
        }
    }
}

impl ParsedFile {
    /// Nothing recorded.
    pub fn empty() -> (r: ParsedFile)
        ensures
            r@ == pv_empty(),
    {
        let r = ParsedFile {
            nodes: Vec::new(),
            calls: Vec::new(),
            inherits: Vec::new(),
            fields: Vec::new(),
            locals: Vec::new(),
            imports: Vec::new(),
        };
        proof {
            assert(r@.nodes =~= pv_empty().nodes);
            assert(r@.calls =~= pv_empty().calls);
            assert(r@.inherits =~= pv_empty().inherits);
            assert(r@.fields =~= pv_empty().fields);
            assert(r@.locals =~= pv_empty().locals);
            assert(r@.imports =~= pv_empty().imports);
        }
        r
    }
}

/// What the walk of one file knows: the grammar, the project, the file's
/// path segments, its path and its node id.
pub struct ParseCtx {
    pub g: Grammar,
    pub project: String,
    pub segs: Vec<String>,
    pub rel: String,
    pub fid: String,
}

/// The plain content of a parsing context.
pub struct CtxV {
    pub g: Grammar,
    pub project: Seq<char>,
    pub segs: Seq<Seq<char>>,
    pub rel: Seq<char>,
    pub fid: Seq<char>,
}

impl View for ParseCtx {
    type V = CtxV;

    open spec fn view(&self) -> CtxV {
        CtxV {
            g: self.g,
            project: self.project@,
            segs: self.segs@.map_values(|s: String| s@),
            rel: self.rel@,
            fid: self.fid@,
        }
    }
}

/// A 0-based row as a 1-based line number.
pub open spec fn line_no(row: usize) -> u32 {
    if row < u32::MAX {
        (row + 1) as u32
    } else {
        u32::MAX
    }
}

fn line_of(row: usize) -> (r: u32)
    ensures
        r == line_no(row),
{
    if row < 4294967295 {
        row as u32 + 1
    } else {
        4294967295
    }
}

/// The definition node `i` records: a kind the grammar labels, with a
/// non-empty name.
pub open spec fn def_of(t: SynTree, c: CtxV, i: int) -> Option<NodeV> {
    match (label_for(c.g, t.kind(i)), name_of(t, i, uses_declarators(c.g))) {
        (Some(l), Some(nm)) => if nm.len() > 0 {
            Some(
                NodeV {
                    id: qualified(c.project, c.segs, nm),
                    label: l,
                    name: nm,
                    file_path: c.rel,
                    line_start: line_no(t.nodes@[i].start_row),
                    line_end: line_no(t.nodes@[i].end_row),
                    language: lang_name(c.g),
                    meta: seq![],
                    community: None,
                },
            )
        } else {
            None
        },
        _ => None,
    }
}

/// The id of the function or method node `i` defines.
pub open spec fn fn_id_of(t: SynTree, c: CtxV, i: int) -> Option<Seq<char>> {
    match def_of(t, c, i) {
        Some(n) => if n.label == NodeLabel::Function || n.label == NodeLabel::Method {
            Some(n.id)
        } else {
            None
        },
        None => None,
    }
}

/// The id of the class, interface or enum node `i` defines.
pub open spec fn class_id_of(t: SynTree, c: CtxV, i: int) -> Option<Seq<char>> {
    match def_of(t, c, i) {
        Some(n) => if n.label == NodeLabel::Class || n.label == NodeLabel::Interface || n.label == NodeLabel::Enum {
            Some(n.id)
        } else {
            None
        },
        None => None,
    }
}

/// Typed fields recorded at a class.
pub open spec fn fields_at(t: SynTree, c: CtxV, i: int) -> Seq<FieldV> {
    match class_id_of(t, c, i) {
        Some(cid) => match c.g {
            Grammar::TypeScript => class_fields(t, FieldLang::TypeScript, i, cid),
            Grammar::Tsx => class_fields(t, FieldLang::TypeScript, i, cid),
            Grammar::Swift => class_fields(t, FieldLang::Swift, i, cid),
            Grammar::Kotlin => class_fields(t, FieldLang::Kotlin, i, cid),
            Grammar::Java => class_fields(t, FieldLang::Java, i, cid),
            _ => seq![],
        },
        None => seq![],
    }
}

/// Import bindings recorded at an import statement.
pub open spec fn imports_at(t: SynTree, c: CtxV, i: int) -> Seq<ImportV> {
    let l = lang_name(c.g);
    if (l == "typescript"@ || l == "javascript"@) && t.kind(i) == "import_statement"@ {
        ts_imports(t, i, c.rel)
    } else if l == "python"@ && t.kind(i) == "import_from_statement"@ {
        py_imports(t, i, c.rel)
    } else {
        seq![]
    }
}

/// Local types recorded at a TypeScript function.
pub open spec fn locals_at(t: SynTree, c: CtxV, i: int) -> Seq<LocalV> {
    match fn_id_of(t, c, i) {
        Some(f) => if lang_name(c.g) == "typescript"@ {
            ts_locals(t, i, f)
        } else {
            seq![]
        },
        None => seq![],
    }
}

/// The route node of a call registering an HTTP handler for `path`.
pub open spec fn route_node(t: SynTree, c: CtxV, i: int, callee: Seq<char>, path: Seq<char>, cur_fn: Option<Seq<char>>) -> NodeV {
    let method = callee.map_values(|ch: char| ascii_upper(ch));
    let line = line_no(t.nodes@[i].start_row);
    let meta = seq![("path"@, MetaV::Text(path)), ("method"@, MetaV::Text(method))] + match cur_fn {
        Some(h) => seq![("handler"@, MetaV::Text(h))],
        None => seq![],
    };
    NodeV {
        id: "route."@ + path_segment(path) + "."@ + method,
        label: NodeLabel::Route,
        name: method + " "@ + path,
        file_path: c.rel,
        line_start: line,
        line_end: line,
        language: lang_name(c.g),
        meta: meta,
        community: None,
    }
}

/// Route nodes of a call: an HTTP registrar whose first string argument is a
/// path starting with `/` of at most 200 bytes.
pub open spec fn routes_at(t: SynTree, c: CtxV, i: int, callee: Seq<char>, cur_fn: Option<Seq<char>>) -> Seq<NodeV> {
    if http_method(callee) {
        match first_string_arg(t, i) {
            Some(path) => if path.len() > 0 && path[0] == '/' && utf8_len(path) <= 200 {
                seq![route_node(t, c, i, callee, path, cur_fn)]
            } else {
                seq![]
            },
            None => seq![],
        }
    } else {
        seq![]
    }
}

/// The call record of call `i`: `self`/`this`, `super` and field receivers
/// bind to the enclosing class, and so does a named receiver in a language
/// with implicit members.
pub open spec fn call_record(t: SynTree, c: CtxV, i: int, callee: Seq<char>, cur_fn: Option<Seq<char>>, this_cls: Option<Seq<char>>) -> CallV {
    let recv = detect_receiver(t, i);
    let enclosing = match recv {
        ReceiverV::SelfThis => this_cls,
        ReceiverV::Super => this_cls,
        ReceiverV::Field(_) => this_cls,
        ReceiverV::Named(_) => if implicit_member(lang_name(c.g)) {
            this_cls
        } else {
            None
        },
        ReceiverV::Bare => None,
    };
    CallV {
        caller_id: match cur_fn {
            Some(f) => f,
            None => c.fid,
        },
        callee_name: callee,
        line: line_no(t.nodes@[i].start_row),
        receiver: recv,
        enclosing_class: enclosing,
    }
}

/// The callee of node `i` when it is a call (not a subscript) with a name.
pub open spec fn call_callee(t: SynTree, c: CtxV, i: int) -> Option<Seq<char>> {
    if call_kinds(c.g).contains(t.kind(i)) && !is_subscript(t, i) {
        callee_name(t, i, callee_fields(c.g))
    } else {
        None
    }
}

/// What node `i` itself records, in the context of the enclosing function
/// and class.
pub open spec fn own_records(t: SynTree, c: CtxV, i: int, cur_fn: Option<Seq<char>>, this_cls: Option<Seq<char>>) -> ParsedV {
    let defs = match def_of(t, c, i) {
        Some(n) => seq![n],
        None => seq![],
    };
    let (routes, calls) = match call_callee(t, c, i) {
        Some(callee) => (routes_at(t, c, i, callee, cur_fn), seq![call_record(t, c, i, callee, cur_fn, this_cls)]),
        None => (seq![], seq![]),
    };
    ParsedV {
        nodes: defs + routes,
        calls: calls,
        inherits: inherits_of(t, c.g, i),
        fields: fields_at(t, c, i),
        locals: locals_at(t, c, i),
        imports: imports_at(t, c, i),
    }
}

/// The enclosing function for the children of `i`.
pub open spec fn next_fn(t: SynTree, c: CtxV, i: int, cur_fn: Option<Seq<char>>) -> Option<Seq<char>> {
    match fn_id_of(t, c, i) {
        Some(f) => Some(f),
        None => cur_fn,
    }
}

/// The class `this` binds to for the children of `i`: the class `i` defines,
/// else none where `i` rebinds `this`, else the current one.
pub open spec fn next_this(t: SynTree, c: CtxV, i: int, this_cls: Option<Seq<char>>) -> Option<Seq<char>> {
    match class_id_of(t, c, i) {
        Some(cl) => Some(cl),
        None => if rebinds(lang_name(c.g), t.kind(i)) {
            None
        } else {
            this_cls
        },
    }
}

/// The records of the subtree of `i`: its own, then its children's in order.
pub open spec fn collect_spec(t: SynTree, c: CtxV, i: int, cur_fn: Option<Seq<char>>, this_cls: Option<Seq<char>>) -> ParsedV
    decreases t.len() - i, 1int, 0int,
{
    if !(0 <= i < t.len()) {
        pv_empty()
    } else {
        pv_add(
            own_records(t, c, i, cur_fn, this_cls),
            collect_kids(t, c, i, t.kids(i).len() as int, next_fn(t, c, i, cur_fn), next_this(t, c, i, this_cls)),
        )
    }
}

/// The records of the subtrees of the first `k` children of `i`.
pub open spec fn collect_kids(t: SynTree, c: CtxV, i: int, k: int, f: Option<Seq<char>>, cl: Option<Seq<char>>) -> ParsedV
    decreases t.len() - i, 0int, k,
{
    if !(0 <= i < t.len()) || k <= 0 || k > t.kids(i).len() {
        pv_empty()
    } else {
        let ch = t.kids(i)[k - 1] as int;
        pv_add(
            collect_kids(t, c, i, k - 1, f, cl),
            if i < ch < t.len() {
                collect_spec(t, c, ch, f, cl)
            } else {
                pv_empty()
            },
        )
    }
}

/// A copy of an optional string.
fn copy_opt(o: &Option<String>) -> (r: Option<String>)
    ensures
        opt_str(r) == opt_str(*o),
{
    match o {
        Some(s) => Some(s.clone()),
        None => None,
    }
}

/// The definition node of `i` (see `def_of`).
fn def_node(t: &SynTree, c: &ParseCtx, i: usize) -> (r: Option<Node>)
    requires
        t.wf(),
        i < t.nodes@.len(),
    ensures
        match r {
            Some(n) => def_of(*t, c@, i as int) == Some(n@) && n.metadata.wf(),
            None => def_of(*t, c@, i as int) is None,
        },
{
    let label = label_of(c.g, t.nodes[i].kind.as_str());
    let name = name_of_node(t, i, c.g == Grammar::C || c.g == Grammar::Cpp);
    match (label, name) {
        (Some(l), Some(nm)) => {
            if nm.as_str().is_empty() {
                return None;
            }
            let id = QualifiedName::build_from(c.project.as_str(), &c.segs, nm.as_str());
            let md = Metadata::new();
            let n = Node {
                id,
                label: l,
                name: nm,
                file_path: c.rel.clone(),
                line_start: line_of(t.nodes[i].start_row),
                line_end: line_of(t.nodes[i].end_row),
                language: lang_name_of(c.g).to_owned(),
                metadata: md,
                community: None,
            };
            proof {
                assert(n@.meta =~= Seq::<(Seq<char>, MetaV)>::empty());
            }
            Some(n)
        },
        _ => None,
    }
}

/// The ASCII-uppercased characters of `s`.
fn upper(s: &str) -> (r: String)
    ensures
        r@ == s@.map_values(|ch: char| ascii_upper(ch)),
{
    let cs = chars_of(s);
    let mut out: Vec<char> = Vec::new();
    let n = cs.len();
    for i in 0..n
        invariant
            n == cs@.len(),
            cs@ == s@,
            out@ == cs@.take(i as int).map_values(|ch: char| ascii_upper(ch)),
    {
        out.push(to_ascii_upper(cs[i]));
        proof {
            assert(out@ =~= cs@.take(i + 1).map_values(|ch: char| ascii_upper(ch)));
        }
    }
    proof {
        assert(cs@.take(n as int) =~= cs@);
    }
    string_of(&out)
}

/// The route node of call `i` (see `route_node`).
fn make_route(t: &SynTree, c: &ParseCtx, i: usize, callee: &str, path: &str, cur_fn: &Option<String>) -> (r: Node)
    requires
        t.wf(),
        i < t.nodes@.len(),
    ensures
        r@ == route_node(*t, c@, i as int, callee@, path@, opt_str(*cur_fn)),
        r.metadata.wf(),
{
    let method = upper(callee);
    let line = line_of(t.nodes[i].start_row);
    let mut entries: Vec<(String, MetaValue)> = Vec::new();
    entries.push(("path".to_owned(), MetaValue::Text(path.to_owned())));
    entries.push(("method".to_owned(), MetaValue::Text(method.clone())));
    match cur_fn {
        Some(h) => entries.push(("handler".to_owned(), MetaValue::Text(h.clone()))),
        None => {},
    }
    let mut id: Vec<char> = Vec::new();
    push_str(&mut id, "route.");
    let seg = normalize_path(path);
    push_str(&mut id, seg.as_str());
    push_str(&mut id, ".");
    push_str(&mut id, method.as_str());
    let mut name: Vec<char> = Vec::new();
    push_str(&mut name, method.as_str());
    push_str(&mut name, " ");
    push_str(&mut name, path);
    let md = Metadata { entries };
    let n = Node {
        id: string_of(&id),
        label: NodeLabel::Route,
        name: string_of(&name),
        file_path: c.rel.clone(),
        line_start: line,
        line_end: line,
        language: lang_name_of(c.g).to_owned(),
        metadata: md,
        community: None,
    };
    proof {
        reveal_strlit("path");
        reveal_strlit("method");
        reveal_strlit("handler");
        assert("path"@.len() == 4);
        assert("method"@.len() == 6);
        assert("handler"@.len() == 7);
        assert(n.metadata.wf());
        assert(n@.meta =~= route_node(*t, c@, i as int, callee@, path@, opt_str(*cur_fn)).meta);
        assert(n@.id =~= route_node(*t, c@, i as int, callee@, path@, opt_str(*cur_fn)).id);
        assert(n@.name =~= route_node(*t, c@, i as int, callee@, path@, opt_str(*cur_fn)).name);
    }
    n
}

/// The call record of call `i` (see `call_record`).
fn make_call(t: &SynTree, c: &ParseCtx, i: usize, callee: String, cur_fn: &Option<String>, this_cls: &Option<String>) -> (r: RawCall)
    requires
        t.wf(),
        i < t.nodes@.len(),
    ensures
        r@ == call_record(*t, c@, i as int, callee@, opt_str(*cur_fn), opt_str(*this_cls)),
{
    let receiver = detect_receiver_of(t, i);
    let l = lang_name_of(c.g);
    let enclosing = match &receiver {
        Receiver::SelfThis | Receiver::Super | Receiver::Field(_) => copy_opt(this_cls),
        Receiver::Named(_) => if has_implicit_member(l) {
            copy_opt(this_cls)
        } else {
            None
        },
        Receiver::Bare => None,
    };
    let caller = match cur_fn {
        Some(f) => f.clone(),
        None => c.fid.clone(),
    };
    RawCall { caller_id: caller, callee_name: callee, line: line_of(t.nodes[i].start_row), receiver, enclosing_class: enclosing }
}

/// Append the route node and call record of node `i`, when it is a call.
fn record_call(t: &SynTree, c: &ParseCtx, i: usize, cur_fn: &Option<String>, this_cls: &Option<String>, out: &mut ParsedFile)
    requires
        t.wf(),
        i < t.nodes@.len(),
        forall|k: int| 0 <= k < old(out).nodes@.len() ==> (#[trigger] old(out).nodes@[k]).metadata.wf(),
    ensures
        forall|k: int| 0 <= k < final(out).nodes@.len() ==> (#[trigger] final(out).nodes@[k]).metadata.wf(),
        final(out)@ == pv_add(
            old(out)@,
            match call_callee(*t, c@, i as int) {
                Some(callee) => ParsedV {
                    nodes: routes_at(*t, c@, i as int, callee, opt_str(*cur_fn)),
                    calls: seq![call_record(*t, c@, i as int, callee, opt_str(*cur_fn), opt_str(*this_cls))],
                    inherits: seq![],
                    fields: seq![],
                    locals: seq![],
                    imports: seq![],
                },
                None => pv_empty(),
            },
        ),
{
    let ghost o0 = out@;
    if is_call_kind(c.g, t.nodes[i].kind.as_str()) && !is_subscript_call(t, i) {
        let fields = callee_fields_of(c.g);
        match callee_name_of(t, i, fields.as_slice()) {
            Some(callee) => {
                let ghost cv = callee@;
                if is_http_method(callee.as_str()) {
                    match first_string_arg_of(t, i) {
                        Some(path) => {
                            let pc = chars_of(path.as_str());
                            if pc.len() > 0 && pc[0] == '/' && utf8_len_at_most(path.as_str(), 200) {
                                let r = make_route(t, c, i, callee.as_str(), path.as_str(), cur_fn);
                                out.nodes.push(r);
                            }
                        },
                        None => {},
                    }
                }
                let call = make_call(t, c, i, callee, cur_fn, this_cls);
                out.calls.push(call);
                proof {
                    assert(out@.nodes =~= o0.nodes + routes_at(*t, c@, i as int, cv, opt_str(*cur_fn)));
                    assert(out@.calls =~= o0.calls + seq![call_record(*t, c@, i as int, cv, opt_str(*cur_fn), opt_str(*this_cls))]);
                    assert(out@.inherits =~= o0.inherits + Seq::<InheritV>::empty());
                    assert(out@.fields =~= o0.fields + Seq::<FieldV>::empty());
                    assert(out@.locals =~= o0.locals + Seq::<LocalV>::empty());
                    assert(out@.imports =~= o0.imports + Seq::<ImportV>::empty());
                }
            },
            None => {
                proof {
                    lemma_pv_unit(o0);
                }
            },
        }
    } else {
        proof {
            lemma_pv_unit(o0);
        }
    }
}

/// Append what node `i` itself records; the ids of the function and class
/// it defines.
#[verifier::rlimit(40)]
fn record_own(t: &SynTree, c: &ParseCtx, i: usize, cur_fn: &Option<String>, this_cls: &Option<String>, out: &mut ParsedFile) -> (r: (Option<String>, Option<String>))
    requires
        t.wf(),
        i < t.nodes@.len(),
        forall|k: int| 0 <= k < old(out).nodes@.len() ==> (#[trigger] old(out).nodes@[k]).metadata.wf(),
    ensures
        final(out)@ == pv_add(old(out)@, own_records(*t, c@, i as int, opt_str(*cur_fn), opt_str(*this_cls))),
        forall|k: int| 0 <= k < final(out).nodes@.len() ==> (#[trigger] final(out).nodes@[k]).metadata.wf(),
        opt_str(r.0) == fn_id_of(*t, c@, i as int),
        opt_str(r.1) == class_id_of(*t, c@, i as int),
{
    let ghost o0 = out@;
    let ghost own = own_records(*t, c@, i as int, opt_str(*cur_fn), opt_str(*this_cls));
    let def = def_node(t, c, i);
    let mut my_fn: Option<String> = None;
    let mut my_class: Option<String> = None;
    match &def {
        Some(n) => {
            if n.label == NodeLabel::Function || n.label == NodeLabel::Method {
                my_fn = Some(n.id.clone());
            }
            if n.label == NodeLabel::Class || n.label == NodeLabel::Interface || n.label == NodeLabel::Enum {
                my_class = Some(n.id.clone());
            }
        },
        None => {},
    }
    assert(opt_str(my_fn) == fn_id_of(*t, c@, i as int));
    assert(opt_str(my_class) == class_id_of(*t, c@, i as int));
    match def {
        Some(n) => {
            out.nodes.push(n);
        },
        None => {},
    }
    let ghost o_def = out@;
    record_call(t, c, i, cur_fn, this_cls, out);
    let ghost o_call = out@;
    match &my_class {
        Some(cid) => match c.g {
            Grammar::TypeScript | Grammar::Tsx => extract_fields(t, FieldLang::TypeScript, i, cid.as_str(), &mut out.fields),
            Grammar::Swift => extract_fields(t, FieldLang::Swift, i, cid.as_str(), &mut out.fields),
            Grammar::Kotlin => extract_fields(t, FieldLang::Kotlin, i, cid.as_str(), &mut out.fields),
            Grammar::Java => extract_fields(t, FieldLang::Java, i, cid.as_str(), &mut out.fields),
            _ => {},
        },
        None => {},
    }
    let l = lang_name_of(c.g);
    if (str_eq(l, "typescript") || str_eq(l, "javascript")) && t.kind_is(i, "import_statement") {
        ts_extract_import(t, i, c.rel.as_str(), &mut out.imports);
    } else if str_eq(l, "python") && t.kind_is(i, "import_from_statement") {
        py_extract_import(t, i, c.rel.as_str(), &mut out.imports);
    }
    match &my_fn {
        Some(f) => {
            if str_eq(l, "typescript") {
                ts_infer_locals(t, i, f.as_str(), &mut out.locals);
            }
        },
        None => {},
    }
    extract_inherits(t, c.g, i, &mut out.inherits);
    proof {
        assert(out@.nodes =~= o0.nodes + own.nodes);
        assert(out@.calls =~= o0.calls + own.calls);
        assert(out@.inherits =~= o0.inherits + own.inherits);
        assert(out@.fields =~= o0.fields + own.fields);
        assert(out@.locals =~= o0.locals + own.locals);
        assert(out@.imports =~= o0.imports + own.imports);
    }
    (my_fn, my_class)
}

/// Append the records of the subtree of `i` (see `collect_spec`).
pub fn collect(t: &SynTree, c: &ParseCtx, i: usize, cur_fn: &Option<String>, this_cls: &Option<String>, out: &mut ParsedFile)
    requires
        t.wf(),
        i < t.nodes@.len(),
        forall|k: int| 0 <= k < old(out).nodes@.len() ==> (#[trigger] old(out).nodes@[k]).metadata.wf(),
    ensures
        final(out)@ == pv_add(old(out)@, collect_spec(*t, c@, i as int, opt_str(*cur_fn), opt_str(*this_cls))),
        forall|k: int| 0 <= k < final(out).nodes@.len() ==> (#[trigger] final(out).nodes@[k]).metadata.wf(),
    decreases t.nodes@.len() - i,
{
    let ghost o0 = out@;
    let ghost f0 = opt_str(*cur_fn);
    let ghost c0 = opt_str(*this_cls);
    let ghost own = own_records(*t, c@, i as int, f0, c0);
    let (my_fn, my_class) = record_own(t, c, i, cur_fn, this_cls, out);
    let l = lang_name_of(c.g);
    let nf = match my_fn {
        Some(f) => Some(f),
        None => copy_opt(cur_fn),
    };
    let nt = match my_class {
        Some(cl) => Some(cl),
        None => if rebinds_this(l, t.nodes[i].kind.as_str()) {
            None
        } else {
            copy_opt(this_cls)
        },
    };
    let ghost o1 = out@;
    let cs = &t.nodes[i].children;
    let m = cs.len();
    proof {
        lemma_pv_unit(o1);
    }
    for j in 0..m
        invariant
            m == cs@.len(),
            cs@ == t.kids(i as int),
            t.wf(),
            i < t.nodes@.len(),
            opt_str(nf) == next_fn(*t, c@, i as int, f0),
            opt_str(nt) == next_this(*t, c@, i as int, c0),
            out@ == pv_add(o1, collect_kids(*t, c@, i as int, j as int, opt_str(nf), opt_str(nt))),
            forall|k: int| 0 <= k < out.nodes@.len() ==> (#[trigger] out.nodes@[k]).metadata.wf(),
    {
        let ghost before = out@;
        collect(t, c, cs[j], &nf, &nt, out);
        proof {
            lemma_pv_assoc(
                o1,
                collect_kids(*t, c@, i as int, j as int, opt_str(nf), opt_str(nt)),
                collect_spec(*t, c@, cs@[j as int] as int, opt_str(nf), opt_str(nt)),
            );
        }
    }
    proof {
        lemma_pv_assoc(o0, own, collect_kids(*t, c@, i as int, m as int, opt_str(nf), opt_str(nt)));
    }
}

/// The non-empty `/`-separated parts of the first `i` characters of a path,
/// and the part still open.
pub open spec fn path_scan(s: Seq<char>, i: nat) -> (Seq<Seq<char>>, Seq<char>)
    decreases i,
{
    if i == 0 {
        (seq![], seq![])
    } else {
        let (done, cur) = path_scan(s, (i - 1) as nat);
        let c = s[i - 1];
        if c == '/' {
            if cur.len() > 0 {
                (done.push(cur), seq![])
            } else {
                (done, cur)
            }
        } else {
            (done, cur.push(c))
        }
    }
}

/// The non-empty `/`-separated parts of a path.
pub open spec fn path_parts(s: Seq<char>) -> Seq<Seq<char>> {
    let (done, cur) = path_scan(s, s.len());
    if cur.len() > 0 {
        done.push(cur)
    } else {
        done
    }
}

/// The file name of a path (`file` when it has no part).
pub open spec fn file_name(rel: Seq<char>) -> Seq<char> {
    if path_parts(rel).len() > 0 {
        path_parts(rel).last()
    } else {
        "file"@
    }
}

/// The directory parts of a path.
pub open spec fn dir_of(rel: Seq<char>) -> Seq<Seq<char>> {
    if path_parts(rel).len() > 0 {
        path_parts(rel).drop_last()
    } else {
        seq![]
    }
}

/// The node id of a file.
pub open spec fn file_id(project: Seq<char>, rel: Seq<char>) -> Seq<char> {
    qualified(project, dir_of(rel), file_name(rel))
}

/// The context of the walk of a file.
pub open spec fn file_ctx(g: Grammar, project: Seq<char>, rel: Seq<char>) -> CtxV {
    CtxV { g: g, project: project, segs: dir_of(rel).push(file_name(rel)), rel: rel, fid: file_id(project, rel) }
}

/// Newline characters in `s`.
pub open spec fn newlines(s: Seq<char>) -> nat
    decreases s.len(),
{
    if s.len() == 0 {
        0
    } else {
        newlines(s.drop_last()) + if s.last() == '\n' {
            1nat
        } else {
            0nat
        }
    }
}

/// The lines of `s` (`str::lines`): one per line ending, plus an unended
/// last line.
pub open spec fn line_count(s: Seq<char>) -> nat {
    if s.len() == 0 {
        0
    } else if s.last() == '\n' {
        newlines(s)
    } else {
        newlines(s) + 1
    }
}

/// The last line of a file: its line count, at least 1 (at most `u32::MAX`).
pub open spec fn last_line(s: Seq<char>) -> u32 {
    if line_count(s) == 0 {
        1
    } else if line_count(s) >= u32::MAX {
        u32::MAX
    } else {
        line_count(s) as u32
    }
}

/// The node of a file.
pub open spec fn file_node(g: Grammar, project: Seq<char>, rel: Seq<char>, src: Seq<char>) -> NodeV {
    NodeV {
        id: file_id(project, rel),
        label: NodeLabel::File,
        name: file_name(rel),
        file_path: rel,
        line_start: 1,
        line_end: last_line(src),
        language: lang_name(g),
        meta: seq![],
        community: None,
    }
}

/// What a file parsed into syntax tree `t` records: its file node, then the
/// records of the walk from the root.
pub open spec fn parsed_of(g: Grammar, project: Seq<char>, rel: Seq<char>, src: Seq<char>, t: SynTree) -> ParsedV {
    pv_add(
        ParsedV {
            nodes: seq![file_node(g, project, rel, src)],
            calls: seq![],
            inherits: seq![],
            fields: seq![],
            locals: seq![],
            imports: seq![],
        },
        collect_spec(t, file_ctx(g, project, rel), 0, None, None),
    )
}

/// The parts of a path (see `path_parts`).
pub fn path_parts_of(rel: &str) -> (r: Vec<String>)
    ensures
        r@.map_values(|s: String| s@) == path_parts(rel@),
{
    let cs = chars_of(rel);
    let mut done: Vec<String> = Vec::new();
    let mut cur: Vec<char> = Vec::new();
    let n = cs.len();
    for i in 0..n
        invariant
            n == cs@.len(),
            cs@ == rel@,
            (done@.map_values(|s: String| s@), cur@) == path_scan(rel@, i as nat),
    {
        let c = cs[i];
        if c == '/' {
            if cur.len() > 0 {
                let ghost dv = done@.map_values(|s: String| s@);
                let ghost cv = cur@;
                done.push(string_of(&cur));
                cur = Vec::new();
                proof {
                    assert(done@.map_values(|s: String| s@) =~= dv.push(cv));
                }
            }
        } else {
            cur.push(c);
        }
    }
    if cur.len() > 0 {
        let ghost dv = done@.map_values(|s: String| s@);
        let ghost cv = cur@;
        done.push(string_of(&cur));
        proof {
            assert(done@.map_values(|s: String| s@) =~= dv.push(cv));
        }
    }
    done
}

/// The last line of a source text (see `last_line`).
fn last_line_of(source: &str) -> (r: u32)
    ensures
        r == last_line(source@),
{
    let cs = chars_of(source);
    let n = cs.len();
    let mut count: usize = 0;
    for i in 0..n
        invariant
            n == cs@.len(),
            cs@ == source@,
            count == newlines(cs@.take(i as int)),
            count <= i,
    {
        proof {
            assert(cs@.take(i + 1).drop_last() =~= cs@.take(i as int));
        }
        if cs[i] == '\n' {
            count = count + 1;
        }
    }
    proof {
        assert(cs@.take(n as int) =~= cs@);
    }
    if n == 0 {
        1
    } else if cs[n - 1] == '\n' {
        if count == 0 {
            1
        } else if count >= 4294967295 {
            4294967295
        } else {
            count as u32
        }
    } else {
        if count >= 4294967294 {
            4294967295
        } else {
            count as u32 + 1
        }
    }
}

/// Walk a file's syntax tree (see `parsed_of`).
pub fn parse_syntax(g: Grammar, project: &str, rel_path: &str, source: &str, t: &SynTree) -> (r: ParsedFile)
    requires
        t.wf(),
    ensures
        r@ == parsed_of(g, project@, rel_path@, source@, *t),
{
    let mut dir = path_parts_of(rel_path);
    let ghost parts = dir@.map_values(|s: String| s@);
    let filename = match dir.pop() {
        Some(f) => f,
        None => "file".to_owned(),
    };
    proof {
        if parts.len() > 0 {
            assert(dir@.map_values(|s: String| s@) =~= parts.drop_last());
        } else {
            assert(dir@.map_values(|s: String| s@) =~= Seq::<Seq<char>>::empty());
        }
    }
    let fid = QualifiedName::build_from(project, &dir, filename.as_str());
    let mut segs = dir;
    let ghost dv = segs@.map_values(|s: String| s@);
    segs.push(filename.clone());
    proof {
        assert(segs@.map_values(|s: String| s@) =~= dv.push(filename@));
    }
    let node = Node {
        id: fid.clone(),
        label: NodeLabel::File,
        name: filename,
        file_path: rel_path.to_owned(),
        line_start: 1,
        line_end: last_line_of(source),
        language: lang_name_of(g).to_owned(),
        metadata: Metadata::new(),
        community: None,
    };
    let mut out = ParsedFile::empty();
    let ghost e = out@;
    out.nodes.push(node);
    let ctx = ParseCtx { g, project: project.to_owned(), segs, rel: rel_path.to_owned(), fid };
    proof {
        assert(ctx@ == file_ctx(g, project@, rel_path@));
        assert(node@.meta =~= Seq::<(Seq<char>, MetaV)>::empty());
        assert(out@.nodes =~= seq![file_node(g, project@, rel_path@, source@)]);
        assert(out@.calls =~= Seq::<CallV>::empty());
        assert(out@.inherits =~= Seq::<InheritV>::empty());
        assert(out@.fields =~= Seq::<FieldV>::empty());
        assert(out@.locals =~= Seq::<LocalV>::empty());
        assert(out@.imports =~= Seq::<ImportV>::empty());
        assert(out.nodes@[0].metadata.wf());
    }
    collect(t, &ctx, 0, &None, &None, &mut out);
    out
}

/// What parsing `source` with grammar `g` records: the walk of the tree
/// tree-sitter gives the source's bytes; nothing when the grammar's language
/// is refused or no tree comes back.
pub open spec fn parsed_from(g: Grammar, project: Seq<char>, rel: Seq<char>, source: Seq<char>, r: ParsedV) -> bool {
    let b = vstd::utf8::encode_utf8(source);
    match syntax_of(g, b) {
        Some(_) => exists|t: SynTree| is_syntax_of(t, g, b) && r == parsed_of(g, project, rel, source, t),
        None => r == pv_empty(),
    }
}

/// Parse a source text with a grammar and walk it; nothing is recorded when
/// the parser rejects the grammar or the text. The tree is the parser's: the
/// records are those of its walk.
pub fn parse_with(g: Grammar, project: &str, rel_path: &str, source: &str) -> (r: ParsedFile)
    ensures
        parsed_from(g, project@, rel_path@, source@, r@),
{
    match parse_tree(g, source) {
        Some(t) => parse_syntax(g, project, rel_path, source, &t),
        None => ParsedFile::empty(),
    }
}

/// The extension of a path: what follows its last `.` (the whole path when
/// there is none).
pub open spec fn ext_of(rel: Seq<char>) -> Seq<char> {
    match crate::extract::last_dot(rel) {
        Some(p) => rel.skip(p + 1),
        None => rel,
    }
}

/// Parse a file with the grammar its extension selects; nothing for an
/// unknown extension.
pub fn parse_file(project: &str, rel_path: &str, source: &str) -> (r: ParsedFile)
    ensures
        match grammar_for(ext_of(rel_path@)) {
            Some(g) => parsed_from(g, project@, rel_path@, source@, r@),
            None => r@ == pv_empty(),
        },
{
    let cs = chars_of(rel_path);
    let mut k = cs.len();
    proof {
        assert(cs@.take(k as int) =~= cs@);
    }
    while k > 0 && cs[k - 1] != '.'
        invariant
            k <= cs@.len(),
            cs@ == rel_path@,
            crate::extract::last_dot(cs@) == crate::extract::last_dot(cs@.take(k as int)),
        decreases k,
    {
        proof {
            assert(cs@.take(k as int).drop_last() =~= cs@.take(k - 1));
        }
        k = k - 1;
    }
    let mut ext: Vec<char> = Vec::new();
    let n = cs.len();
    for j in k..n
        invariant
            k <= n,
            n == cs@.len(),
            ext@ == cs@.subrange(k as int, j as int),
    {
        ext.push(cs[j]);
        proof {
            assert(ext@ =~= cs@.subrange(k as int, j + 1));
        }
    }
    proof {
        if k > 0 {
            assert(cs@.take(k as int).last() == '.');
            assert(ext@ =~= rel_path@.skip(k as int));
        } else {
            assert(ext@ =~= rel_path@);
        }
    }
    let e = string_of(&ext);
    match spec_for_ext(e.as_str()) {
        Some(g) => parse_with(g, project, rel_path, source),
        None => ParsedFile::empty(),
    }
}

pub fn parse_rust(p: &str, r: &str, s: &str) -> (f: ParsedFile)
    ensures
        parsed_from(Grammar::Rust, p@, r@, s@, f@),
{
    parse_with(Grammar::Rust, p, r, s)
}

pub fn parse_python(p: &str, r: &str, s: &str) -> (f: ParsedFile)
    ensures
        parsed_from(Grammar::Python, p@, r@, s@, f@),
{
    parse_with(Grammar::Python, p, r, s)
}

pub fn parse_js(p: &str, r: &str, s: &str) -> (f: ParsedFile)
    ensures
        parsed_from(Grammar::JavaScript, p@, r@, s@, f@),
{
    parse_with(Grammar::JavaScript, p, r, s)
}

pub fn parse_ts(p: &str, r: &str, s: &str) -> (f: ParsedFile)
    ensures
        parsed_from(Grammar::TypeScript, p@, r@, s@, f@),
{
    parse_with(Grammar::TypeScript, p, r, s)
}

pub fn parse_tsx(p: &str, r: &str, s: &str) -> (f: ParsedFile)
    ensures
        parsed_from(Grammar::Tsx, p@, r@, s@, f@),
{
    parse_with(Grammar::Tsx, p, r, s)
}

pub fn parse_go(p: &str, r: &str, s: &str) -> (f: ParsedFile)
    ensures
        parsed_from(Grammar::Go, p@, r@, s@, f@),
{
    parse_with(Grammar::Go, p, r, s)
}

pub fn parse_swift(p: &str, r: &str, s: &str) -> (f: ParsedFile)
    ensures
        parsed_from(Grammar::Swift, p@, r@, s@, f@),
{
    parse_with(Grammar::Swift, p, r, s)
}

pub fn parse_java(p: &str, r: &str, s: &str) -> (f: ParsedFile)
    ensures
        parsed_from(Grammar::Java, p@, r@, s@, f@),
{
    parse_with(Grammar::Java, p, r, s)
}

pub fn parse_kotlin(p: &str, r: &str, s: &str) -> (f: ParsedFile)
    ensures
        parsed_from(Grammar::Kotlin, p@, r@, s@, f@),
{
    parse_with(Grammar::Kotlin, p, r, s)
}


/// The walk of node `i` records, first, a definition node labelled `l`
/// carrying the name in `i`'s name field, in `i`'s file and language, when
/// that name is non-empty.
pub open spec fn records_definition(
    t: SynTree,
    c: CtxV,
    i: int,
    f: Option<Seq<char>>,
    cl: Option<Seq<char>>,
    l: NodeLabel,
) -> bool {
    match name_of(t, i, uses_declarators(c.g)) {
        Some(nm) => nm.len() > 0 ==> {
            let r = collect_spec(t, c, i, f, cl);
            &&& r.nodes.len() > 0
            &&& r.nodes[0].label == l
            &&& r.nodes[0].name == nm
            &&& r.nodes[0].file_path == c.rel
            &&& r.nodes[0].language == lang_name(c.g)
        },
        None => true,
    }
}

/// The calls found below node `i` are attributed to the node it defines.
pub open spec fn encloses_calls(t: SynTree, c: CtxV, i: int, f: Option<Seq<char>>, cl: Option<Seq<char>>) -> bool {
    match name_of(t, i, uses_declarators(c.g)) {
        Some(nm) => nm.len() > 0 ==> next_fn(t, c, i, f) == Some(collect_spec(t, c, i, f, cl).nodes[0].id),
        None => true,
    }
}

/// Law: in every supported language, a named definition of one of the
/// grammar's definition kinds is recorded as a node with that kind's label
/// (functions, methods, classes and structs, interfaces and traits, enums,
/// type aliases, modules), and calls inside a function or method are
/// attributed to it.
pub proof fn law_definition_labels(t: SynTree, c: CtxV, i: int, f: Option<Seq<char>>, cl: Option<Seq<char>>)
    requires
        0 <= i < t.len(),
    ensures
        c.g == Grammar::Rust && t.kind(i) == "function_item"@ ==> records_definition(t, c, i, f, cl, NodeLabel::Function) && encloses_calls(t, c, i, f, cl),
        c.g == Grammar::Rust && t.kind(i) == "struct_item"@ ==> records_definition(t, c, i, f, cl, NodeLabel::Class),
        c.g == Grammar::Rust && t.kind(i) == "union_item"@ ==> records_definition(t, c, i, f, cl, NodeLabel::Class),
        c.g == Grammar::Rust && t.kind(i) == "enum_item"@ ==> records_definition(t, c, i, f, cl, NodeLabel::Enum),
        c.g == Grammar::Rust && t.kind(i) == "trait_item"@ ==> records_definition(t, c, i, f, cl, NodeLabel::Interface),
        c.g == Grammar::Rust && t.kind(i) == "type_item"@ ==> records_definition(t, c, i, f, cl, NodeLabel::Type),
        c.g == Grammar::Rust && t.kind(i) == "mod_item"@ ==> records_definition(t, c, i, f, cl, NodeLabel::Module),
        c.g == Grammar::Python
            && t.kind(i) == "function_definition"@ ==> records_definition(t, c, i, f, cl, NodeLabel::Function)
            && encloses_calls(t, c, i, f, cl),
        c.g == Grammar::Python && t.kind(i) == "class_definition"@ ==> records_definition(t, c, i, f, cl, NodeLabel::Class),
        c.g == Grammar::JavaScript
            && t.kind(i) == "function_declaration"@ ==> records_definition(t, c, i, f, cl, NodeLabel::Function)
            && encloses_calls(t, c, i, f, cl),
        c.g == Grammar::JavaScript
            && t.kind(i) == "generator_function_declaration"@ ==> records_definition(t, c, i, f, cl, NodeLabel::Function)
            && encloses_calls(t, c, i, f, cl),
        c.g == Grammar::JavaScript && t.kind(i) == "class_declaration"@ ==> records_definition(t, c, i, f, cl, NodeLabel::Class),
        c.g == Grammar::JavaScript
            && t.kind(i) == "method_definition"@ ==> records_definition(t, c, i, f, cl, NodeLabel::Method)
            && encloses_calls(t, c, i, f, cl),
        c.g == Grammar::TypeScript && t.kind(i) == "interface_declaration"@ ==> records_definition(t, c, i, f, cl, NodeLabel::Interface),
        c.g == Grammar::TypeScript && t.kind(i) == "type_alias_declaration"@ ==> records_definition(t, c, i, f, cl, NodeLabel::Type),
        c.g == Grammar::TypeScript && t.kind(i) == "enum_declaration"@ ==> records_definition(t, c, i, f, cl, NodeLabel::Enum),
        c.g == Grammar::TypeScript && t.kind(i) == "abstract_class_declaration"@ ==> records_definition(t, c, i, f, cl, NodeLabel::Class),
        c.g == Grammar::TypeScript
            && t.kind(i) == "function_declaration"@ ==> records_definition(t, c, i, f, cl, NodeLabel::Function)
            && encloses_calls(t, c, i, f, cl),
        c.g == Grammar::TypeScript
            && t.kind(i) == "generator_function_declaration"@ ==> records_definition(t, c, i, f, cl, NodeLabel::Function)
            && encloses_calls(t, c, i, f, cl),
        c.g == Grammar::TypeScript && t.kind(i) == "class_declaration"@ ==> records_definition(t, c, i, f, cl, NodeLabel::Class),
        c.g == Grammar::TypeScript
            && t.kind(i) == "method_definition"@ ==> records_definition(t, c, i, f, cl, NodeLabel::Method)
            && encloses_calls(t, c, i, f, cl),
        c.g == Grammar::Tsx && t.kind(i) == "interface_declaration"@ ==> records_definition(t, c, i, f, cl, NodeLabel::Interface),
        c.g == Grammar::Tsx && t.kind(i) == "type_alias_declaration"@ ==> records_definition(t, c, i, f, cl, NodeLabel::Type),
        c.g == Grammar::Tsx && t.kind(i) == "enum_declaration"@ ==> records_definition(t, c, i, f, cl, NodeLabel::Enum),
        c.g == Grammar::Tsx && t.kind(i) == "abstract_class_declaration"@ ==> records_definition(t, c, i, f, cl, NodeLabel::Class),
        c.g == Grammar::Tsx
            && t.kind(i) == "function_declaration"@ ==> records_definition(t, c, i, f, cl, NodeLabel::Function)
            && encloses_calls(t, c, i, f, cl),
        c.g == Grammar::Tsx
            && t.kind(i) == "generator_function_declaration"@ ==> records_definition(t, c, i, f, cl, NodeLabel::Function)
            && encloses_calls(t, c, i, f, cl),
        c.g == Grammar::Tsx && t.kind(i) == "class_declaration"@ ==> records_definition(t, c, i, f, cl, NodeLabel::Class),
        c.g == Grammar::Tsx && t.kind(i) == "method_definition"@ ==> records_definition(t, c, i, f, cl, NodeLabel::Method) && encloses_calls(t, c, i, f, cl),
        c.g == Grammar::Go
            && t.kind(i) == "function_declaration"@ ==> records_definition(t, c, i, f, cl, NodeLabel::Function)
            && encloses_calls(t, c, i, f, cl),
        c.g == Grammar::Go && t.kind(i) == "method_declaration"@ ==> records_definition(t, c, i, f, cl, NodeLabel::Method) && encloses_calls(t, c, i, f, cl),
        c.g == Grammar::Go && t.kind(i) == "type_spec"@ ==> records_definition(t, c, i, f, cl, NodeLabel::Class),
        c.g == Grammar::Swift
            && t.kind(i) == "function_declaration"@ ==> records_definition(t, c, i, f, cl, NodeLabel::Function)
            && encloses_calls(t, c, i, f, cl),
        c.g == Grammar::Swift && t.kind(i) == "class_declaration"@ ==> records_definition(t, c, i, f, cl, NodeLabel::Class),
        c.g == Grammar::Swift && t.kind(i) == "protocol_declaration"@ ==> records_definition(t, c, i, f, cl, NodeLabel::Interface),
        c.g == Grammar::Swift && t.kind(i) == "typealias_declaration"@ ==> records_definition(t, c, i, f, cl, NodeLabel::Type),
        c.g == Grammar::Java && t.kind(i) == "method_declaration"@ ==> records_definition(t, c, i, f, cl, NodeLabel::Method) && encloses_calls(t, c, i, f, cl),
        c.g == Grammar::Java
            && t.kind(i) == "constructor_declaration"@ ==> records_definition(t, c, i, f, cl, NodeLabel::Method)
            && encloses_calls(t, c, i, f, cl),
        c.g == Grammar::Java && t.kind(i) == "class_declaration"@ ==> records_definition(t, c, i, f, cl, NodeLabel::Class),
        c.g == Grammar::Java && t.kind(i) == "record_declaration"@ ==> records_definition(t, c, i, f, cl, NodeLabel::Class),
        c.g == Grammar::Java && t.kind(i) == "interface_declaration"@ ==> records_definition(t, c, i, f, cl, NodeLabel::Interface),
        c.g == Grammar::Java && t.kind(i) == "annotation_type_declaration"@ ==> records_definition(t, c, i, f, cl, NodeLabel::Interface),
        c.g == Grammar::Java && t.kind(i) == "enum_declaration"@ ==> records_definition(t, c, i, f, cl, NodeLabel::Enum),
        c.g == Grammar::C && t.kind(i) == "function_definition"@ ==> records_definition(t, c, i, f, cl, NodeLabel::Function) && encloses_calls(t, c, i, f, cl),
        c.g == Grammar::C && t.kind(i) == "struct_specifier"@ ==> records_definition(t, c, i, f, cl, NodeLabel::Class),
        c.g == Grammar::C && t.kind(i) == "union_specifier"@ ==> records_definition(t, c, i, f, cl, NodeLabel::Class),
        c.g == Grammar::C && t.kind(i) == "enum_specifier"@ ==> records_definition(t, c, i, f, cl, NodeLabel::Enum),
        c.g == Grammar::C && t.kind(i) == "type_definition"@ ==> records_definition(t, c, i, f, cl, NodeLabel::Type),
        c.g == Grammar::Cpp && t.kind(i) == "class_specifier"@ ==> records_definition(t, c, i, f, cl, NodeLabel::Class),
        c.g == Grammar::Cpp && t.kind(i) == "namespace_definition"@ ==> records_definition(t, c, i, f, cl, NodeLabel::Module),
        c.g == Grammar::Cpp
            && t.kind(i) == "function_definition"@ ==> records_definition(t, c, i, f, cl, NodeLabel::Function)
            && encloses_calls(t, c, i, f, cl),
        c.g == Grammar::Cpp && t.kind(i) == "struct_specifier"@ ==> records_definition(t, c, i, f, cl, NodeLabel::Class),
        c.g == Grammar::Cpp && t.kind(i) == "union_specifier"@ ==> records_definition(t, c, i, f, cl, NodeLabel::Class),
        c.g == Grammar::Cpp && t.kind(i) == "enum_specifier"@ ==> records_definition(t, c, i, f, cl, NodeLabel::Enum),
        c.g == Grammar::Cpp && t.kind(i) == "type_definition"@ ==> records_definition(t, c, i, f, cl, NodeLabel::Type),
        c.g == Grammar::Ruby && t.kind(i) == "method"@ ==> records_definition(t, c, i, f, cl, NodeLabel::Method) && encloses_calls(t, c, i, f, cl),
        c.g == Grammar::Ruby && t.kind(i) == "singleton_method"@ ==> records_definition(t, c, i, f, cl, NodeLabel::Method) && encloses_calls(t, c, i, f, cl),
        c.g == Grammar::Ruby && t.kind(i) == "class"@ ==> records_definition(t, c, i, f, cl, NodeLabel::Class),
        c.g == Grammar::Ruby && t.kind(i) == "module"@ ==> records_definition(t, c, i, f, cl, NodeLabel::Module),
        c.g == Grammar::CSharp
            && t.kind(i) == "method_declaration"@ ==> records_definition(t, c, i, f, cl, NodeLabel::Method)
            && encloses_calls(t, c, i, f, cl),
        c.g == Grammar::CSharp
            && t.kind(i) == "constructor_declaration"@ ==> records_definition(t, c, i, f, cl, NodeLabel::Method)
            && encloses_calls(t, c, i, f, cl),
        c.g == Grammar::CSharp && t.kind(i) == "class_declaration"@ ==> records_definition(t, c, i, f, cl, NodeLabel::Class),
        c.g == Grammar::CSharp && t.kind(i) == "record_declaration"@ ==> records_definition(t, c, i, f, cl, NodeLabel::Class),
        c.g == Grammar::CSharp && t.kind(i) == "struct_declaration"@ ==> records_definition(t, c, i, f, cl, NodeLabel::Class),
        c.g == Grammar::CSharp && t.kind(i) == "interface_declaration"@ ==> records_definition(t, c, i, f, cl, NodeLabel::Interface),
        c.g == Grammar::CSharp && t.kind(i) == "enum_declaration"@ ==> records_definition(t, c, i, f, cl, NodeLabel::Enum),
        c.g == Grammar::Kotlin
            && t.kind(i) == "function_declaration"@ ==> records_definition(t, c, i, f, cl, NodeLabel::Function)
            && encloses_calls(t, c, i, f, cl),
        c.g == Grammar::Kotlin && t.kind(i) == "class_declaration"@ ==> records_definition(t, c, i, f, cl, NodeLabel::Class),
        c.g == Grammar::Kotlin && t.kind(i) == "object_declaration"@ ==> records_definition(t, c, i, f, cl, NodeLabel::Class),
        c.g == Grammar::Bash
            && t.kind(i) == "function_definition"@ ==> records_definition(t, c, i, f, cl, NodeLabel::Function)
            && encloses_calls(t, c, i, f, cl),
{
    crate::langs::lemma_rust_labels();
    crate::langs::lemma_python_labels();
    crate::langs::lemma_javascript_labels();
    crate::langs::lemma_typescript_labels();
    crate::langs::lemma_tsx_labels();
    crate::langs::lemma_go_labels();
    crate::langs::lemma_swift_labels();
    crate::langs::lemma_java_labels();
    crate::langs::lemma_c_labels();
    crate::langs::lemma_cpp_labels();
    crate::langs::lemma_ruby_labels();
    crate::langs::lemma_csharp_labels();
    crate::langs::lemma_kotlin_labels();
    crate::langs::lemma_bash_labels();
    let own = own_records(t, c, i, f, cl);
    let kids = collect_kids(t, c, i, t.kids(i).len() as int, next_fn(t, c, i, f), next_this(t, c, i, cl));
    assert(collect_spec(t, c, i, f, cl) == pv_add(own, kids));
    assert(pv_add(own, kids).nodes == own.nodes + kids.nodes);
    match def_of(t, c, i) {
        Some(n) => {
            assert(own.nodes[0] == n);
            assert((own.nodes + kids.nodes)[0] == n);
        },
        None => {},
    }
}


/// The walk of node `i` records, first, a call of `nm` made by the enclosing
/// function (or, at top level, by the file).
pub open spec fn records_call(t: SynTree, c: CtxV, i: int, f: Option<Seq<char>>, cl: Option<Seq<char>>, nm: Seq<char>) -> bool {
    let r = collect_spec(t, c, i, f, cl);
    &&& r.calls.len() > 0
    &&& r.calls[0].callee_name == nm
    &&& r.calls[0].caller_id == match f {
        Some(x) => x,
        None => c.fid,
    }
    &&& r.calls[0].line == line_no(t.nodes@[i].start_row)
}

/// Law: in every language with calls, a call node of the grammar's call kind
/// (`call_expression`; `call` in Python and Ruby; `method_invocation` in
/// Java; `invocation_expression` in C#) that is not a subscript and names its
/// callee (through the `function` field; `name` in Java, `method` in Ruby;
/// by its own shape in Swift and Kotlin) records a call of that name by the
/// enclosing function; a Bash script records no calls.
pub proof fn law_call_records(t: SynTree, c: CtxV, i: int, f: Option<Seq<char>>, cl: Option<Seq<char>>, nm: Seq<char>)
    requires
        0 <= i < t.len(),
    ensures
        c.g == Grammar::Rust && t.kind(i) == "call_expression"@ && !is_subscript(t, i) && callee_name(t, i, seq!["function"@]) == Some(
            nm,
        ) ==> records_call(t, c, i, f, cl, nm),
        c.g == Grammar::Python && t.kind(i) == "call"@ && !is_subscript(t, i) && callee_name(t, i, seq!["function"@]) == Some(
            nm,
        ) ==> records_call(t, c, i, f, cl, nm),
        c.g == Grammar::JavaScript && t.kind(i) == "call_expression"@ && !is_subscript(t, i) && callee_name(t, i, seq!["function"@]) == Some(
            nm,
        ) ==> records_call(t, c, i, f, cl, nm),
        c.g == Grammar::TypeScript && t.kind(i) == "call_expression"@ && !is_subscript(t, i) && callee_name(t, i, seq!["function"@]) == Some(
            nm,
        ) ==> records_call(t, c, i, f, cl, nm),
        c.g == Grammar::Tsx && t.kind(i) == "call_expression"@ && !is_subscript(t, i) && callee_name(t, i, seq!["function"@]) == Some(
            nm,
        ) ==> records_call(t, c, i, f, cl, nm),
        c.g == Grammar::Go && t.kind(i) == "call_expression"@ && !is_subscript(t, i) && callee_name(t, i, seq!["function"@]) == Some(
            nm,
        ) ==> records_call(t, c, i, f, cl, nm),
        c.g == Grammar::Swift && t.kind(i) == "call_expression"@ && !is_subscript(t, i) && callee_name(t, i, seq![]) == Some(
            nm,
        ) ==> records_call(t, c, i, f, cl, nm),
        c.g == Grammar::Java && t.kind(i) == "method_invocation"@ && !is_subscript(t, i) && callee_name(t, i, seq!["name"@]) == Some(
            nm,
        ) ==> records_call(t, c, i, f, cl, nm),
        c.g == Grammar::C && t.kind(i) == "call_expression"@ && !is_subscript(t, i) && callee_name(t, i, seq!["function"@]) == Some(
            nm,
        ) ==> records_call(t, c, i, f, cl, nm),
        c.g == Grammar::Cpp && t.kind(i) == "call_expression"@ && !is_subscript(t, i) && callee_name(t, i, seq!["function"@]) == Some(
            nm,
        ) ==> records_call(t, c, i, f, cl, nm),
        c.g == Grammar::Ruby && t.kind(i) == "call"@ && !is_subscript(t, i) && callee_name(t, i, seq!["method"@]) == Some(
            nm,
        ) ==> records_call(t, c, i, f, cl, nm),
        c.g == Grammar::CSharp && t.kind(i) == "invocation_expression"@ && !is_subscript(t, i) && callee_name(t, i, seq!["function"@]) == Some(
            nm,
        ) ==> records_call(t, c, i, f, cl, nm),
        c.g == Grammar::Kotlin && t.kind(i) == "call_expression"@ && !is_subscript(t, i) && callee_name(t, i, seq![]) == Some(
            nm,
        ) ==> records_call(t, c, i, f, cl, nm),
        c.g == Grammar::Bash ==> own_records(t, c, i, f, cl).calls.len() == 0,
{
    let own = own_records(t, c, i, f, cl);
    let kids = collect_kids(t, c, i, t.kids(i).len() as int, next_fn(t, c, i, f), next_this(t, c, i, cl));
    assert(collect_spec(t, c, i, f, cl) == pv_add(own, kids));
    assert(pv_add(own, kids).calls == own.calls + kids.calls);
    if own.calls.len() > 0 {
        assert((own.calls + kids.calls)[0] == own.calls[0]);
    }
    assert(call_kinds(c.g).len() > 0 ==> call_kinds(c.g)[0] == call_kinds(c.g)[0]);
}


/// `callee`, ASCII-lowercased, names an HTTP route registrar: `get`, `post`,
/// `put`, `delete`, `patch`, `all`, `head`, `options`, `route` (Express,
/// Flask, FastAPI style) or a Spring `...Mapping` annotation name.
pub open spec fn route_registrar(callee: Seq<char>) -> bool {
    let low = callee.map_values(|ch: char| crate::text::ascii_lower(ch));
    low == "get"@
            || low == "post"@
            || low == "put"@
            || low == "delete"@
            || low == "patch"@
            || low == "all"@
            || low == "head"@
            || low == "options"@
            || low == "route"@
            || low == "getmapping"@
            || low == "postmapping"@
            || low == "putmapping"@
            || low == "deletemapping"@
            || low == "patchmapping"@
            || low == "requestmapping"@
}

/// Law: a call of an HTTP route registrar whose first string argument is a
/// path starting with `/` of at most 200 bytes records a Route node named by
/// the upper-cased method and the path, in the call's file; a node records
/// a Route only for such a call.
pub proof fn law_route_nodes(t: SynTree, c: CtxV, i: int, f: Option<Seq<char>>, cl: Option<Seq<char>>)
    requires
        0 <= i < t.len(),
    ensures
        ({
            &&& call_callee(t, c, i) matches Some(callee)
            &&& route_registrar(callee)
            &&& first_string_arg(t, i) matches Some(path)
            &&& path.len() > 0 && path[0] == '/' && utf8_len(path) <= 200
        }) ==> exists|j: int|
            0 <= j < collect_spec(t, c, i, f, cl).nodes.len() && (#[trigger] collect_spec(t, c, i, f, cl).nodes[j]).label
                == NodeLabel::Route && collect_spec(t, c, i, f, cl).nodes[j].name == (call_callee(t, c, i)->0).map_values(
                |ch: char| ascii_upper(ch),
            ) + " "@ + first_string_arg(t, i)->0 && collect_spec(t, c, i, f, cl).nodes[j].file_path == c.rel,
        forall|j: int|
            0 <= j < own_records(t, c, i, f, cl).nodes.len() && (#[trigger] own_records(t, c, i, f, cl).nodes[j]).label
                == NodeLabel::Route ==> ({
                &&& call_callee(t, c, i) matches Some(callee)
                &&& route_registrar(callee)
                &&& first_string_arg(t, i) matches Some(path)
                &&& path.len() > 0 && path[0] == '/'
            }),
{
    let hm = crate::langs::http_method_names();
    assert(hm[0] == "get"@ && hm[1] == "post"@ && hm[2] == "put"@ && hm[3] == "delete"@ && hm[4] == "patch"@
        && hm[5] == "all"@ && hm[6] == "head"@ && hm[7] == "options"@ && hm[8] == "route"@
        && hm[9] == "getmapping"@ && hm[10] == "postmapping"@ && hm[11] == "putmapping"@
        && hm[12] == "deletemapping"@ && hm[13] == "patchmapping"@ && hm[14] == "requestmapping"@);
    let own = own_records(t, c, i, f, cl);
    let kids = collect_kids(t, c, i, t.kids(i).len() as int, next_fn(t, c, i, f), next_this(t, c, i, cl));
    assert(collect_spec(t, c, i, f, cl) == pv_add(own, kids));
    let defs: Seq<NodeV> = match def_of(t, c, i) {
        Some(n) => seq![n],
        None => seq![],
    };
    assert(label_for(c.g, t.kind(i)) != Some(NodeLabel::Route));
    if let Some(callee) = call_callee(t, c, i) {
        let low = callee.map_values(|ch: char| crate::text::ascii_lower(ch));
        if route_registrar(callee) {
            assert(hm.contains(low));
        }
        if http_method(callee) {
            let k = choose|k: int| 0 <= k < hm.len() && hm[k] == low;
            assert(route_registrar(callee));
        }
        let routes = routes_at(t, c, i, callee, f);
        assert(own.nodes == defs + routes);
        assert(pv_add(own, kids).nodes == own.nodes + kids.nodes);
        if routes.len() > 0 {
            assert((own.nodes + kids.nodes)[defs.len() as int] == routes[0]);
            let r = collect_spec(t, c, i, f, cl);
            assert(r.nodes[defs.len() as int] == routes[0]);
            assert(r.nodes[defs.len() as int].label == NodeLabel::Route);
        }
    }
}

} // verus!
