//! What the parser records besides definitions and calls: the typed fields of
//! a class, the declared types of a TypeScript function's locals, the import
//! bindings of a file and the inheritance clauses of a type.

use crate::extract::{trailing_ident, trailing_ident_of, unquote, unquoted};
use crate::syntax::{opt_int, opt_str, strs, Grammar, SynTree};
use crate::search::same_chars;
use crate::text::{chars_of, lex_less, lex_lt, str_eq, string_of};
use crate::types::{FieldV, ImportV, InheritKind, InheritV, LocalV, RawField, RawImport, RawInherit, RawLocal};
use vstd::prelude::*;

verus! {

/// The languages whose classes record typed fields.
#[derive(Debug, Clone, Copy, PartialEq, Eq, Structural)]
pub enum FieldLang {
    TypeScript,
    Swift,
    Kotlin,
    Java,
}

/// The text of node `n` when it has kind `k`.
pub open spec fn text_if(t: SynTree, n: Option<int>, k: Seq<char>) -> Option<Seq<char>> {
    match n {
        Some(c) => if t.kind(c) == k {
            t.text(c)
        } else {
            None
        },
        None => None,
    }
}

/// A TypeScript annotation's simple type: the `type_identifier` inside the
/// node's `type_annotation`.
pub open spec fn ts_type_in(t: SynTree, n: int) -> Option<Seq<char>> {
    match t.named_child_of(n, "type_annotation"@) {
        Some(a) => match t.named_child_of(a, "type_identifier"@) {
            Some(ty) => t.text(ty),
            None => None,
        },
        None => None,
    }
}

/// Whether some child of `n` has kind `k`.
pub open spec fn has_child_kind(t: SynTree, n: int, k: Seq<char>) -> bool {
    exists|j: int| 0 <= j < t.kids(n).len() && t.kind(#[trigger] t.kids(n)[j] as int) == k
}

/// A pair as a one-entry sequence when both halves are present.
pub open spec fn pair_of(a: Option<Seq<char>>, b: Option<Seq<char>>) -> Seq<(Seq<char>, Seq<char>)> {
    match (a, b) {
        (Some(x), Some(y)) => seq![(x, y)],
        _ => seq![],
    }
}

/// TypeScript: `public foo: T` fields and constructor parameter properties
/// `constructor(private foo: T)` with a simple type.
pub open spec fn ts_field_items(t: SynTree, n: int) -> Seq<(Seq<char>, Seq<char>)> {
    let k = t.kind(n);
    if k == "public_field_definition"@ {
        pair_of(t.field_text(n, "name"@), ts_type_in(t, n))
    } else if k == "required_parameter"@ || k == "optional_parameter"@ {
        if has_child_kind(t, n, "accessibility_modifier"@) {
            pair_of(text_if(t, t.field_child(n, "pattern"@), "identifier"@), ts_type_in(t, n))
        } else {
            seq![]
        }
    } else {
        seq![]
    }
}

/// Swift: a stored property's plain `user_type` (one optional layer
/// unwrapped); arrays, dictionaries, tuples and closures are dropped.
pub open spec fn swift_type_in(t: SynTree, n: int) -> Option<Seq<char>> {
    match t.named_child_of(n, "type_annotation"@) {
        Some(a) => if t.named_kids(a).len() > 0 {
            let t0 = t.named_kids(a)[0] as int;
            let t1 = if t.kind(t0) == "optional_type"@ {
                if t.named_kids(t0).len() > 0 {
                    Some(t.named_kids(t0)[0] as int)
                } else {
                    None
                }
            } else {
                Some(t0)
            };
            match t1 {
                Some(u) => if t.kind(u) == "user_type"@ {
                    match t.named_child_of(u, "type_identifier"@) {
                        Some(x) => t.text(x),
                        None => None,
                    }
                } else {
                    None
                },
                None => None,
            }
        } else {
            None
        },
        None => None,
    }
}

/// Swift: the name of a property: the `simple_identifier` inside its name
/// pattern, else the pattern's text.
pub open spec fn swift_name_in(t: SynTree, n: int) -> Option<Seq<char>> {
    match t.field_child(n, "name"@) {
        Some(p) => match t.named_child_of(p, "simple_identifier"@) {
            Some(x) => t.text(x),
            None => t.text(p),
        },
        None => None,
    }
}

pub open spec fn swift_field_items(t: SynTree, n: int) -> Seq<(Seq<char>, Seq<char>)> {
    if t.kind(n) == "property_declaration"@ {
        pair_of(swift_name_in(t, n), swift_type_in(t, n))
    } else {
        seq![]
    }
}

/// Kotlin: `val x: T` properties, `T?` unwrapped, a generic's base type.
pub open spec fn kotlin_field_items(t: SynTree, n: int) -> Seq<(Seq<char>, Seq<char>)> {
    if t.kind(n) == "property_declaration"@ {
        match t.named_child_of(n, "variable_declaration"@) {
            Some(vd) => {
                let name = match t.named_child_of(vd, "identifier"@) {
                    Some(x) => t.text(x),
                    None => None,
                };
                let user = match t.named_child_of(vd, "user_type"@) {
                    Some(u) => Some(u),
                    None => match t.named_child_of(vd, "nullable_type"@) {
                        Some(nt) => t.named_child_of(nt, "user_type"@),
                        None => None,
                    },
                };
                let ty = match user {
                    Some(u) => match t.named_child_of(u, "identifier"@) {
                        Some(x) => t.text(x),
                        None => None,
                    },
                    None => None,
                };
                pair_of(name, ty)
            },
            None => seq![],
        }
    } else {
        seq![]
    }
}

/// Java: the declarators of a field declaration `T a, b;` whose `type` is a
/// plain `type_identifier`, the first `k` children of `n` considered.
pub open spec fn java_declarators(t: SynTree, n: int, ty: Seq<char>, k: int) -> Seq<(Seq<char>, Seq<char>)>
    decreases k,
{
    if k <= 0 || k > t.kids(n).len() {
        seq![]
    } else {
        let ch = t.kids(n)[k - 1] as int;
        let r = java_declarators(t, n, ty, k - 1);
        if t.kind(ch) == "variable_declarator"@ {
            match t.field_text(ch, "name"@) {
                Some(name) => r.push((name, ty)),
                None => r,
            }
        } else {
            r
        }
    }
}

pub open spec fn java_field_items(t: SynTree, n: int) -> Seq<(Seq<char>, Seq<char>)> {
    if t.kind(n) == "field_declaration"@ {
        match text_if(t, t.field_child(n, "type"@), "type_identifier"@) {
            Some(ty) => java_declarators(t, n, ty, t.kids(n).len() as int),
            None => seq![],
        }
    } else {
        seq![]
    }
}

/// The (field, type) pairs node `n` declares.
pub open spec fn field_items(t: SynTree, g: FieldLang, n: int) -> Seq<(Seq<char>, Seq<char>)> {
    match g {
        FieldLang::TypeScript => ts_field_items(t, n),
        FieldLang::Swift => swift_field_items(t, n),
        FieldLang::Kotlin => kotlin_field_items(t, n),
        FieldLang::Java => java_field_items(t, n),
    }
}

/// Nested declarations that own their own fields.
pub open spec fn field_walk_skips(g: FieldLang) -> Seq<Seq<char>> {
    match g {
        FieldLang::TypeScript => seq!["class_declaration"@, "abstract_class_declaration"@],
        FieldLang::Swift => seq!["class_declaration"@],
        FieldLang::Kotlin => seq!["class_declaration"@, "object_declaration"@],
        FieldLang::Java => seq!["class_declaration"@, "interface_declaration"@, "enum_declaration"@],
    }
}

/// The field records of the nodes of `order`, in order.
pub open spec fn fields_over(t: SynTree, g: FieldLang, order: Seq<usize>, cid: Seq<char>) -> Seq<FieldV>
    decreases order.len(),
{
    if order.len() == 0 {
        seq![]
    } else {
        fields_over(t, g, order.drop_last(), cid) + field_items(t, g, order.last() as int).map_values(
            |p: (Seq<char>, Seq<char>)| FieldV { class_id: cid, field_name: p.0, ty_name: p.1 },
        )
    }
}

/// The typed fields of class `c`: its subtree walked, nested declarations
/// passed over.
pub open spec fn class_fields(t: SynTree, g: FieldLang, c: int, cid: Seq<char>) -> Seq<FieldV> {
    fields_over(t, g, t.walk_spec(c, field_walk_skips(g), seq![]), cid)
}

pub open spec fn field_views(v: Seq<RawField>) -> Seq<FieldV> {
    v.map_values(|f: RawField| f@)
}

/// The text of the named child of `n` of kind `k`.
fn named_text(t: &SynTree, n: usize, k: &str) -> (r: Option<String>)
    requires
        t.wf(),
        n < t.nodes@.len(),
    ensures
        opt_str(r) == match t.named_child_of(n as int, k@) {
            Some(x) => t.text(x),
            None => None,
        },
{
    match t.named_child_kind(n, k) {
        Some(x) => t.text_of(x),
        None => None,
    }
}

/// `ts_type_in` of node `n`.
fn ts_type_of(t: &SynTree, n: usize) -> (r: Option<String>)
    requires
        t.wf(),
        n < t.nodes@.len(),
    ensures
        opt_str(r) == ts_type_in(*t, n as int),
{
    match t.named_child_kind(n, "type_annotation") {
        Some(a) => named_text(t, a, "type_identifier"),
        None => None,
    }
}

/// Whether some child of `n` has kind `k`.
fn has_child_of_kind(t: &SynTree, n: usize, k: &str) -> (r: bool)
    requires
        t.wf(),
        n < t.nodes@.len(),
    ensures
        r == has_child_kind(*t, n as int, k@),
{
    let cs = &t.nodes[n].children;
    let m = cs.len();
    for j in 0..m
        invariant
            m == cs@.len(),
            cs@ == t.kids(n as int),
            t.wf(),
            n < t.nodes@.len(),
            forall|q: int| 0 <= q < j ==> t.kind(#[trigger] t.kids(n as int)[q] as int) != k@,
    {
        if t.kind_is(cs[j], k) {
            return true;
        }
    }
    false
}

/// The text of `n` when it has kind `k`.
fn text_if_kind(t: &SynTree, n: Option<usize>, k: &str) -> (r: Option<String>)
    requires
        t.wf(),
        match n {
            Some(c) => c < t.nodes@.len(),
            None => true,
        },
    ensures
        opt_str(r) == text_if(*t, opt_int(n), k@),
{
    match n {
        Some(c) => if t.kind_is(c, k) {
            t.text_of(c)
        } else {
            None
        },
        None => None,
    }
}

/// The pair of two present halves, as a sequence of at most one.
fn pair_vec(a: Option<String>, b: Option<String>) -> (r: Vec<(String, String)>)
    ensures
        r@.map_values(|p: (String, String)| (p.0@, p.1@)) == pair_of(opt_str(a), opt_str(b)),
{
    let mut v: Vec<(String, String)> = Vec::new();
    match (a, b) {
        (Some(x), Some(y)) => {
            v.push((x, y));
        },
        _ => {},
    }
    proof {
        assert(v@.map_values(|p: (String, String)| (p.0@, p.1@)) =~= pair_of(opt_str(a), opt_str(b)));
    }
    v
}

pub open spec fn pair_views(v: Seq<(String, String)>) -> Seq<(Seq<char>, Seq<char>)> {
    v.map_values(|p: (String, String)| (p.0@, p.1@))
}

fn ts_field_items_of(t: &SynTree, n: usize) -> (r: Vec<(String, String)>)
    requires
        t.wf(),
        n < t.nodes@.len(),
    ensures
        pair_views(r@) == ts_field_items(*t, n as int),
{
    if t.kind_is(n, "public_field_definition") {
        pair_vec(t.field_text_of(n, "name"), ts_type_of(t, n))
    } else if t.kind_is(n, "required_parameter") || t.kind_is(n, "optional_parameter") {
        if has_child_of_kind(t, n, "accessibility_modifier") {
            let p = t.field_child_of(n, "pattern");
            pair_vec(text_if_kind(t, p, "identifier"), ts_type_of(t, n))
        } else {
            Vec::new()
        }
    } else {
        Vec::new()
    }
}

fn swift_field_items_of(t: &SynTree, n: usize) -> (r: Vec<(String, String)>)
    requires
        t.wf(),
        n < t.nodes@.len(),
    ensures
        pair_views(r@) == swift_field_items(*t, n as int),
{
    if !t.kind_is(n, "property_declaration") {
        return Vec::new();
    }
    let name = match t.field_child_of(n, "name") {
        Some(p) => match t.named_child_kind(p, "simple_identifier") {
            Some(x) => t.text_of(x),
            None => t.text_of(p),
        },
        None => None,
    };
    let ty = match t.named_child_kind(n, "type_annotation") {
        Some(a) => match t.nth_named(a, 0) {
            Some(t0) => {
                let t1 = if t.kind_is(t0, "optional_type") {
                    t.nth_named(t0, 0)
                } else {
                    Some(t0)
                };
                match t1 {
                    Some(u) => if t.kind_is(u, "user_type") {
                        named_text(t, u, "type_identifier")
                    } else {
                        None
                    },
                    None => None,
                }
            },
            None => None,
        },
        None => None,
    };
    proof {
        assert(opt_str(name) == swift_name_in(*t, n as int));
        assert(opt_str(ty) == swift_type_in(*t, n as int));
    }
    pair_vec(name, ty)
}

fn kotlin_field_items_of(t: &SynTree, n: usize) -> (r: Vec<(String, String)>)
    requires
        t.wf(),
        n < t.nodes@.len(),
    ensures
        pair_views(r@) == kotlin_field_items(*t, n as int),
{
    if !t.kind_is(n, "property_declaration") {
        return Vec::new();
    }
    let vd = match t.named_child_kind(n, "variable_declaration") {
        Some(vd) => vd,
        None => return Vec::new(),
    };
    let name = named_text(t, vd, "identifier");
    let user = match t.named_child_kind(vd, "user_type") {
        Some(u) => Some(u),
        None => match t.named_child_kind(vd, "nullable_type") {
            Some(nt) => t.named_child_kind(nt, "user_type"),
            None => None,
        },
    };
    let ty = match user {
        Some(u) => named_text(t, u, "identifier"),
        None => None,
    };
    pair_vec(name, ty)
}

fn java_field_items_of(t: &SynTree, n: usize) -> (r: Vec<(String, String)>)
    requires
        t.wf(),
        n < t.nodes@.len(),
    ensures
        pair_views(r@) == java_field_items(*t, n as int),
{
    if !t.kind_is(n, "field_declaration") {
        return Vec::new();
    }
    let ty = match text_if_kind(t, t.field_child_of(n, "type"), "type_identifier") {
        Some(ty) => ty,
        None => return Vec::new(),
    };
    let mut out: Vec<(String, String)> = Vec::new();
    let cs = &t.nodes[n].children;
    let m = cs.len();
    for j in 0..m
        invariant
            m == cs@.len(),
            cs@ == t.kids(n as int),
            t.wf(),
            n < t.nodes@.len(),
            pair_views(out@) == java_declarators(*t, n as int, ty@, j as int),
    {
        let ch = cs[j];
        if t.kind_is(ch, "variable_declarator") {
            match t.field_text_of(ch, "name") {
                Some(name) => {
                    let ghost before = out@;
                    out.push((name, ty.clone()));
                    proof {
                        assert(pair_views(out@) =~= pair_views(before).push((name@, ty@)));
                    }
                },
                None => {},
            }
        }
    }
    out
}

/// The (field, type) pairs node `n` declares in language `g`.
fn field_items_of(t: &SynTree, g: FieldLang, n: usize) -> (r: Vec<(String, String)>)
    requires
        t.wf(),
        n < t.nodes@.len(),
    ensures
        pair_views(r@) == field_items(*t, g, n as int),
{
    match g {
        FieldLang::TypeScript => ts_field_items_of(t, n),
        FieldLang::Swift => swift_field_items_of(t, n),
        FieldLang::Kotlin => kotlin_field_items_of(t, n),
        FieldLang::Java => java_field_items_of(t, n),
    }
}

/// Append the typed fields of class `c` (id `cid`) to `out`.
pub fn extract_fields(t: &SynTree, g: FieldLang, c: usize, cid: &str, out: &mut Vec<RawField>)
    requires
        t.wf(),
        c < t.nodes@.len(),
    ensures
        field_views(final(out)@) == field_views(old(out)@) + class_fields(*t, g, c as int, cid@),
{
    let order = match g {
        FieldLang::TypeScript => {
            let sk: [&str; 2] = ["class_declaration", "abstract_class_declaration"];
            let lf: [&str; 0] = [];
            proof {
                assert(strs(sk@) =~= field_walk_skips(g));
                assert(strs(lf@) =~= Seq::<Seq<char>>::empty());
            }
            t.walk(c, &sk, &lf)
        },
        FieldLang::Swift => {
            let sk: [&str; 1] = ["class_declaration"];
            let lf: [&str; 0] = [];
            proof {
                assert(strs(sk@) =~= field_walk_skips(g));
                assert(strs(lf@) =~= Seq::<Seq<char>>::empty());
            }
            t.walk(c, &sk, &lf)
        },
        FieldLang::Kotlin => {
            let sk: [&str; 2] = ["class_declaration", "object_declaration"];
            let lf: [&str; 0] = [];
            proof {
                assert(strs(sk@) =~= field_walk_skips(g));
                assert(strs(lf@) =~= Seq::<Seq<char>>::empty());
            }
            t.walk(c, &sk, &lf)
        },
        FieldLang::Java => {
            let sk: [&str; 3] = ["class_declaration", "interface_declaration", "enum_declaration"];
            let lf: [&str; 0] = [];
            proof {
                assert(strs(sk@) =~= field_walk_skips(g));
                assert(strs(lf@) =~= Seq::<Seq<char>>::empty());
            }
            t.walk(c, &sk, &lf)
        },
    };
    let ghost base = field_views(out@);
    let m = order.len();
    for i in 0..m
        invariant
            m == order@.len(),
            order@ == t.walk_spec(c as int, field_walk_skips(g), seq![]),
            forall|k: int| 0 <= k < order@.len() ==> (#[trigger] order@[k]) < t.nodes@.len(),
            t.wf(),
            field_views(out@) == base + fields_over(*t, g, order@.take(i as int), cid@),
    {
        let items = field_items_of(t, g, order[i]);
        let ghost mid = field_views(out@);
        let k = items.len();
        for j in 0..k
            invariant
                k == items@.len(),
                field_views(out@) == mid + pair_views(items@).take(j as int).map_values(
                    |p: (Seq<char>, Seq<char>)| FieldV { class_id: cid@, field_name: p.0, ty_name: p.1 },
                ),
        {
            let ghost before = field_views(out@);
            out.push(RawField { class_id: cid.to_owned(), field_name: items[j].0.clone(), ty_name: items[j].1.clone() });
            proof {
                assert(field_views(out@) =~= before.push(
                    FieldV { class_id: cid@, field_name: items@[j as int].0@, ty_name: items@[j as int].1@ },
                ));
                assert(pair_views(items@).take(j + 1) =~= pair_views(items@).take(j as int).push(
                    (items@[j as int].0@, items@[j as int].1@),
                ));
                assert(field_views(out@) =~= mid + pair_views(items@).take(j + 1).map_values(
                    |p: (Seq<char>, Seq<char>)| FieldV { class_id: cid@, field_name: p.0, ty_name: p.1 },
                ));
            }
        }
        proof {
            assert(pair_views(items@).take(k as int) =~= pair_views(items@));
            assert(order@.take(i + 1).drop_last() =~= order@.take(i as int));
            assert(order@.take(i + 1).last() == order@[i as int]);
            assert(field_views(out@) =~= base + fields_over(*t, g, order@.take(i + 1), cid@));
        }
    }
    proof {
        assert(order@.take(m as int) =~= order@);
    }
}

/// A non-empty text as a one-entry sequence.
pub open spec fn nonempty_name(x: Option<Seq<char>>) -> Seq<Seq<char>> {
    match x {
        Some(s) => if s.len() > 0 {
            seq![s]
        } else {
            seq![]
        },
        None => seq![],
    }
}

/// The identifiers among `cs` (import clause default bindings).
pub open spec fn ident_names(t: SynTree, cs: Seq<usize>) -> Seq<Seq<char>>
    decreases cs.len(),
{
    if cs.len() == 0 {
        seq![]
    } else {
        let r = ident_names(t, cs.drop_last());
        if t.kind(cs.last() as int) == "identifier"@ {
            r + nonempty_name(t.text(cs.last() as int))
        } else {
            r
        }
    }
}

/// The names a TypeScript/JavaScript import node binds: `A as B` binds `B`,
/// plain `A` binds `A`, a default import binds its identifier.
pub open spec fn ts_import_names(t: SynTree, n: int) -> Seq<Seq<char>> {
    if t.kind(n) == "import_specifier"@ {
        let bound = match t.field_child(n, "alias"@) {
            Some(a) => Some(a),
            None => t.field_child(n, "name"@),
        };
        match bound {
            Some(b) => nonempty_name(t.text(b)),
            None => seq![],
        }
    } else if t.kind(n) == "import_clause"@ {
        ident_names(t, t.named_kids(n))
    } else {
        seq![]
    }
}

/// The bound names of the nodes of `order`.
pub open spec fn import_names_over(t: SynTree, order: Seq<usize>) -> Seq<Seq<char>>
    decreases order.len(),
{
    if order.len() == 0 {
        seq![]
    } else {
        import_names_over(t, order.drop_last()) + ts_import_names(t, order.last() as int)
    }
}

/// Import records for `names` from `module` in file `rel`.
pub open spec fn import_records(rel: Seq<char>, names: Seq<Seq<char>>, module: Seq<char>) -> Seq<ImportV> {
    names.map_values(|n: Seq<char>| ImportV { file_path: rel, name: n, module: module })
}

/// TypeScript/JavaScript: the bindings of an import statement from a relative
/// module (`./`, `../`); package imports are external and bind nothing here.
pub open spec fn ts_imports(t: SynTree, i: int, rel: Seq<char>) -> Seq<ImportV> {
    match t.field_text(i, "source"@) {
        Some(src) => {
            let m = unquoted(src);
            if m.len() > 0 && m[0] == '.' {
                import_records(
                    rel,
                    import_names_over(t, t.walk_spec(i, seq![], seq!["import_specifier"@])),
                    m,
                )
            } else {
                seq![]
            }
        },
        None => seq![],
    }
}

/// Python: the names a child of a `from m import ...` statement binds.
pub open spec fn py_import_names(t: SynTree, i: int, ch: int) -> Seq<Seq<char>> {
    if t.kind(ch) == "dotted_name"@ && t.field_child(i, "module_name"@) != Some(ch) {
        match t.text(ch) {
            Some(x) => if !x.contains('.') {
                seq![x]
            } else {
                seq![]
            },
            None => seq![],
        }
    } else if t.kind(ch) == "aliased_import"@ {
        match t.field_text(ch, "alias"@) {
            Some(x) => seq![x],
            None => seq![],
        }
    } else {
        seq![]
    }
}

pub open spec fn py_names_over(t: SynTree, i: int, cs: Seq<usize>) -> Seq<Seq<char>>
    decreases cs.len(),
{
    if cs.len() == 0 {
        seq![]
    } else {
        py_names_over(t, i, cs.drop_last()) + py_import_names(t, i, cs.last() as int)
    }
}

/// Python: the bindings of `from a.b import X, Y as Z` (module kept dotted).
pub open spec fn py_imports(t: SynTree, i: int, rel: Seq<char>) -> Seq<ImportV> {
    match t.field_text(i, "module_name"@) {
        Some(m) => import_records(rel, py_names_over(t, i, t.named_kids(i)), m),
        None => seq![],
    }
}

pub open spec fn import_views(v: Seq<RawImport>) -> Seq<ImportV> {
    v.map_values(|x: RawImport| x@)
}

/// Append import records for `names`.
fn push_imports(out: &mut Vec<RawImport>, rel: &str, names: &Vec<String>, module: &str)
    ensures
        import_views(final(out)@) == import_views(old(out)@) + import_records(
            rel@,
            names@.map_values(|s: String| s@),
            module@,
        ),
{
    let ghost base = import_views(out@);
    let n = names.len();
    for i in 0..n
        invariant
            n == names@.len(),
            import_views(out@) == base + import_records(rel@, names@.take(i as int).map_values(|s: String| s@), module@),
    {
        let ghost before = import_views(out@);
        out.push(RawImport { file_path: rel.to_owned(), name: names[i].clone(), module: module.to_owned() });
        proof {
            assert(names@.take(i + 1).map_values(|s: String| s@) =~= names@.take(i as int).map_values(|s: String| s@).push(
                names@[i as int]@,
            ));
            let prev = names@.take(i as int).map_values(|s: String| s@);
            assert(import_records(rel@, prev.push(names@[i as int]@), module@) =~= import_records(
                rel@,
                prev,
                module@,
            ).push(ImportV { file_path: rel@, name: names@[i as int]@, module: module@ }));
            assert(import_views(out@) =~= before.push(
                ImportV { file_path: rel@, name: names@[i as int]@, module: module@ },
            ));
            assert(import_views(out@) =~= base + import_records(
                rel@,
                names@.take(i + 1).map_values(|s: String| s@),
                module@,
            ));
        }
    }
    proof {
        assert(names@.take(n as int) =~= names@);
    }
}

/// Push `x` onto `v` when present and non-empty.
fn push_nonempty(v: &mut Vec<String>, x: Option<String>)
    ensures
        final(v)@.map_values(|s: String| s@) == old(v)@.map_values(|s: String| s@) + nonempty_name(opt_str(x)),
{
    let ghost before = v@.map_values(|s: String| s@);
    match x {
        Some(s) => {
            if !s.as_str().is_empty() {
                v.push(s);
                proof {
                    assert(v@.map_values(|s: String| s@) =~= before + seq![s@]);
                }
            } else {
                proof {
                    assert(v@.map_values(|s: String| s@) =~= before + nonempty_name(opt_str(x)));
                }
            }
        },
        None => {
            proof {
                assert(v@.map_values(|s: String| s@) =~= before + nonempty_name(opt_str(x)));
            }
        },
    }
}

/// Append the names import node `n` binds (see `ts_import_names`).
fn ts_import_names_of(t: &SynTree, n: usize, v: &mut Vec<String>)
    requires
        t.wf(),
        n < t.nodes@.len(),
    ensures
        final(v)@.map_values(|s: String| s@) == old(v)@.map_values(|s: String| s@) + ts_import_names(*t, n as int),
{
    if t.kind_is(n, "import_specifier") {
        let bound = match t.field_child_of(n, "alias") {
            Some(a) => Some(a),
            None => t.field_child_of(n, "name"),
        };
        match bound {
            Some(b) => push_nonempty(v, t.text_of(b)),
            None => {
                proof {
                    assert(v@.map_values(|s: String| s@) =~= v@.map_values(|s: String| s@) + Seq::<Seq<char>>::empty());
                }
            },
        }
    } else if t.kind_is(n, "import_clause") {
        let named = t.named_kids_of(n);
        let ghost base = v@.map_values(|s: String| s@);
        let m = named.len();
        for j in 0..m
            invariant
                m == named@.len(),
                named@ == t.named_kids(n as int),
                forall|q: int| 0 <= q < named@.len() ==> n < (#[trigger] named@[q]) < t.nodes@.len(),
                t.wf(),
                v@.map_values(|s: String| s@) == base + ident_names(*t, named@.take(j as int)),
        {
            proof {
                assert(named@.take(j + 1).drop_last() =~= named@.take(j as int));
                assert(named@.take(j + 1).last() == named@[j as int]);
            }
            if t.kind_is(named[j], "identifier") {
                push_nonempty(v, t.text_of(named[j]));
            }
        }
        proof {
            assert(named@.take(m as int) =~= named@);
        }
    } else {
        proof {
            assert(v@.map_values(|s: String| s@) =~= v@.map_values(|s: String| s@) + Seq::<Seq<char>>::empty());
        }
    }
}

/// Append the bindings of TypeScript/JavaScript import statement `i`.
pub fn ts_extract_import(t: &SynTree, i: usize, rel: &str, out: &mut Vec<RawImport>)
    requires
        t.wf(),
        i < t.nodes@.len(),
    ensures
        import_views(final(out)@) == import_views(old(out)@) + ts_imports(*t, i as int, rel@),
{
    let module = match t.field_text_of(i, "source") {
        Some(src) => unquote(src.as_str()),
        None => {
            proof {
                assert(import_views(out@) =~= import_views(out@) + Seq::<ImportV>::empty());
            }
            return;
        },
    };
    let mc = chars_of(module.as_str());
    if !(mc.len() > 0 && mc[0] == '.') {
        proof {
            assert(import_views(out@) =~= import_views(out@) + Seq::<ImportV>::empty());
        }
        return;
    }
    let sk: [&str; 0] = [];
    let lf: [&str; 1] = ["import_specifier"];
    proof {
        assert(strs(sk@) =~= Seq::<Seq<char>>::empty());
        assert(strs(lf@) =~= seq!["import_specifier"@]);
    }
    let order = t.walk(i, &sk, &lf);
    let mut names: Vec<String> = Vec::new();
    let m = order.len();
    for k in 0..m
        invariant
            m == order@.len(),
            forall|q: int| 0 <= q < order@.len() ==> (#[trigger] order@[q]) < t.nodes@.len(),
            t.wf(),
            names@.map_values(|s: String| s@) == import_names_over(*t, order@.take(k as int)),
    {
        proof {
            assert(order@.take(k + 1).drop_last() =~= order@.take(k as int));
            assert(order@.take(k + 1).last() == order@[k as int]);
        }
        ts_import_names_of(t, order[k], &mut names);
    }
    proof {
        assert(order@.take(m as int) =~= order@);
    }
    push_imports(out, rel, &names, module.as_str());
}

/// Whether `s` contains a `.`.
fn has_dot(s: &str) -> (r: bool)
    ensures
        r == s@.contains('.'),
{
    let cs = chars_of(s);
    let n = cs.len();
    for j in 0..n
        invariant
            n == cs@.len(),
            cs@ == s@,
            forall|q: int| 0 <= q < j ==> cs@[q] != '.',
    {
        if cs[j] == '.' {
            return true;
        }
    }
    false
}

/// Append the bindings of Python `from ... import ...` statement `i`.
pub fn py_extract_import(t: &SynTree, i: usize, rel: &str, out: &mut Vec<RawImport>)
    requires
        t.wf(),
        i < t.nodes@.len(),
    ensures
        import_views(final(out)@) == import_views(old(out)@) + py_imports(*t, i as int, rel@),
{
    let module = match t.field_text_of(i, "module_name") {
        Some(m) => m,
        None => {
            proof {
                assert(import_views(out@) =~= import_views(out@) + Seq::<ImportV>::empty());
            }
            return;
        },
    };
    let mod_child = t.field_child_of(i, "module_name");
    let named = t.named_kids_of(i);
    let mut names: Vec<String> = Vec::new();
    let m = named.len();
    for j in 0..m
        invariant
            m == named@.len(),
            named@ == t.named_kids(i as int),
            opt_int(mod_child) == t.field_child(i as int, "module_name"@),
            forall|q: int| 0 <= q < named@.len() ==> i < (#[trigger] named@[q]) < t.nodes@.len(),
            t.wf(),
            names@.map_values(|s: String| s@) == py_names_over(*t, i as int, named@.take(j as int)),
    {
        let ch = named[j];
        let ghost before = names@.map_values(|s: String| s@);
        proof {
            assert(named@.take(j + 1).drop_last() =~= named@.take(j as int));
            assert(named@.take(j + 1).last() == ch);
        }
        let is_mod = match mod_child {
            Some(mc) => mc == ch,
            None => false,
        };
        if t.kind_is(ch, "dotted_name") && !is_mod {
            match t.text_of(ch) {
                Some(x) => {
                    if !has_dot(x.as_str()) {
                        names.push(x);
                        proof {
                            assert(names@.map_values(|s: String| s@) =~= before.push(x@));
                        }
                    }
                },
                None => {},
            }
        } else if t.kind_is(ch, "aliased_import") {
            match t.field_text_of(ch, "alias") {
                Some(x) => {
                    names.push(x);
                    proof {
                        assert(names@.map_values(|s: String| s@) =~= before.push(x@));
                    }
                },
                None => {},
            }
        }
        proof {
            assert(names@.map_values(|s: String| s@) =~= before + py_import_names(*t, i as int, ch as int));
        }
    }
    proof {
        assert(named@.take(m as int) =~= named@);
    }
    push_imports(out, rel, &names, module.as_str());
}

/// The type names a node holds among the nodes of `order`: the texts of its
/// `type_identifier`/`identifier` nodes.
pub open spec fn idents_over(t: SynTree, order: Seq<usize>) -> Seq<Seq<char>>
    decreases order.len(),
{
    if order.len() == 0 {
        seq![]
    } else {
        let m = order.last() as int;
        let r = idents_over(t, order.drop_last());
        if t.kind(m) == "type_identifier"@ || t.kind(m) == "identifier"@ {
            match t.text(m) {
                Some(x) => r.push(x),
                None => r,
            }
        } else {
            r
        }
    }
}

/// The type names in the subtree of `n`, in walk order.
pub open spec fn type_idents(t: SynTree, n: int) -> Seq<Seq<char>> {
    idents_over(t, t.walk_spec(n, seq![], seq![]))
}

/// Records of `cls` inheriting from each of `sups`.
pub open spec fn inherit_records(cls: Seq<char>, sups: Seq<Seq<char>>, kind: InheritKind) -> Seq<InheritV> {
    sups.map_values(|s: Seq<char>| InheritV { impl_name: cls, super_name: s, kind: kind })
}

/// Rust: `impl Trait for Type` implements.
pub open spec fn rust_inherits(t: SynTree, i: int) -> Seq<InheritV> {
    if t.kind(i) != "impl_item"@ {
        seq![]
    } else {
        let typ = match t.field_child(i, "type"@) {
            Some(c) => trailing_ident(t, c),
            None => None,
        };
        let tr = match t.field_child(i, "trait"@) {
            Some(c) => trailing_ident(t, c),
            None => None,
        };
        match (typ, tr) {
            (Some(a), Some(b)) => seq![InheritV { impl_name: a, super_name: b, kind: InheritKind::Implements }],
            _ => seq![],
        }
    }
}

/// The trailing identifiers among `cs`.
pub open spec fn trailing_over(t: SynTree, cs: Seq<usize>) -> Seq<Seq<char>>
    decreases cs.len(),
{
    if cs.len() == 0 {
        seq![]
    } else {
        let r = trailing_over(t, cs.drop_last());
        match trailing_ident(t, cs.last() as int) {
            Some(x) => r.push(x),
            None => r,
        }
    }
}

/// Python: `class Dog(Animal)` extends each superclass.
pub open spec fn py_inherits(t: SynTree, i: int) -> Seq<InheritV> {
    if t.kind(i) != "class_definition"@ {
        seq![]
    } else {
        match (t.field_text(i, "name"@), t.field_child(i, "superclasses"@)) {
            (Some(cls), Some(args)) => inherit_records(cls, trailing_over(t, t.named_kids(args)), InheritKind::Extends),
            _ => seq![],
        }
    }
}

/// The inheritance records of the heritage clauses among `cs`.
pub open spec fn heritage_clauses(t: SynTree, cls: Seq<char>, cs: Seq<usize>) -> Seq<InheritV>
    decreases cs.len(),
{
    if cs.len() == 0 {
        seq![]
    } else {
        let c = cs.last() as int;
        let r = heritage_clauses(t, cls, cs.drop_last());
        if t.kind(c) == "extends_clause"@ {
            r + inherit_records(cls, type_idents(t, c), InheritKind::Extends)
        } else if t.kind(c) == "implements_clause"@ {
            r + inherit_records(cls, type_idents(t, c), InheritKind::Implements)
        } else {
            r
        }
    }
}

/// The inheritance records of the `class_heritage` children among `cs`.
pub open spec fn heritages(t: SynTree, cls: Seq<char>, cs: Seq<usize>) -> Seq<InheritV>
    decreases cs.len(),
{
    if cs.len() == 0 {
        seq![]
    } else {
        let c = cs.last() as int;
        let r = heritages(t, cls, cs.drop_last());
        if t.kind(c) == "class_heritage"@ {
            r + heritage_clauses(t, cls, t.kids(c))
        } else {
            r
        }
    }
}

/// TypeScript: `class A extends B implements C`.
pub open spec fn ts_inherits(t: SynTree, i: int) -> Seq<InheritV> {
    if t.kind(i) != "class_declaration"@ {
        seq![]
    } else {
        match t.field_text(i, "name"@) {
            Some(cls) => heritages(t, cls, t.kids(i)),
            None => seq![],
        }
    }
}

/// The records for the type names under field `f` of `i`.
pub open spec fn field_supers(t: SynTree, i: int, f: Seq<char>, cls: Seq<char>, kind: InheritKind) -> Seq<InheritV> {
    match t.field_child(i, f) {
        Some(c) => inherit_records(cls, type_idents(t, c), kind),
        None => seq![],
    }
}

/// Java: a class extends its superclass and implements its interfaces; an
/// interface extends its interfaces.
pub open spec fn java_inherits(t: SynTree, i: int) -> Seq<InheritV> {
    match t.field_text(i, "name"@) {
        Some(cls) => if t.kind(i) == "class_declaration"@ {
            field_supers(t, i, "superclass"@, cls, InheritKind::Extends) + field_supers(
                t,
                i,
                "interfaces"@,
                cls,
                InheritKind::Implements,
            )
        } else if t.kind(i) == "interface_declaration"@ {
            field_supers(t, i, "interfaces"@, cls, InheritKind::Extends)
        } else {
            seq![]
        },
        None => seq![],
    }
}

/// The inheritance records node `i` yields in grammar `g`.
pub open spec fn inherits_of(t: SynTree, g: Grammar, i: int) -> Seq<InheritV> {
    match g {
        Grammar::Rust => rust_inherits(t, i),
        Grammar::Python => py_inherits(t, i),
        Grammar::TypeScript => ts_inherits(t, i),
        Grammar::Tsx => ts_inherits(t, i),
        Grammar::Java => java_inherits(t, i),
        _ => seq![],
    }
}

pub open spec fn inherit_views(v: Seq<RawInherit>) -> Seq<InheritV> {
    v.map_values(|x: RawInherit| x@)
}

/// The type names in the subtree of `n`.
pub fn type_idents_of(t: &SynTree, n: usize) -> (r: Vec<String>)
    requires
        t.wf(),
        n < t.nodes@.len(),
    ensures
        r@.map_values(|s: String| s@) == type_idents(*t, n as int),
{
    let sk: [&str; 0] = [];
    let lf: [&str; 0] = [];
    proof {
        assert(strs(sk@) =~= Seq::<Seq<char>>::empty());
        assert(strs(lf@) =~= Seq::<Seq<char>>::empty());
    }
    let order = t.walk(n, &sk, &lf);
    let mut out: Vec<String> = Vec::new();
    let m = order.len();
    for k in 0..m
        invariant
            m == order@.len(),
            forall|q: int| 0 <= q < order@.len() ==> (#[trigger] order@[q]) < t.nodes@.len(),
            t.wf(),
            out@.map_values(|s: String| s@) == idents_over(*t, order@.take(k as int)),
    {
        let x = order[k];
        let ghost before = out@.map_values(|s: String| s@);
        proof {
            assert(order@.take(k + 1).drop_last() =~= order@.take(k as int));
            assert(order@.take(k + 1).last() == x);
        }
        if t.kind_is(x, "type_identifier") || t.kind_is(x, "identifier") {
            match t.text_of(x) {
                Some(s) => {
                    out.push(s);
                    proof {
                        assert(out@.map_values(|s: String| s@) =~= before.push(s@));
                    }
                },
                None => {},
            }
        }
    }
    proof {
        assert(order@.take(m as int) =~= order@);
    }
    out
}

/// Append `cls` inheriting (`kind`) from each of `sups`.
fn push_inherits(out: &mut Vec<RawInherit>, cls: &String, sups: &Vec<String>, kind: InheritKind)
    ensures
        inherit_views(final(out)@) == inherit_views(old(out)@) + inherit_records(
            cls@,
            sups@.map_values(|s: String| s@),
            kind,
        ),
{
    let ghost base = inherit_views(out@);
    let n = sups.len();
    for i in 0..n
        invariant
            n == sups@.len(),
            inherit_views(out@) == base + inherit_records(cls@, sups@.take(i as int).map_values(|s: String| s@), kind),
    {
        let ghost before = inherit_views(out@);
        out.push(RawInherit { impl_name: cls.clone(), super_name: sups[i].clone(), kind });
        proof {
            let prev = sups@.take(i as int).map_values(|s: String| s@);
            assert(sups@.take(i + 1).map_values(|s: String| s@) =~= prev.push(sups@[i as int]@));
            assert(inherit_records(cls@, prev.push(sups@[i as int]@), kind) =~= inherit_records(
                cls@,
                prev,
                kind,
            ).push(InheritV { impl_name: cls@, super_name: sups@[i as int]@, kind: kind }));
            assert(inherit_views(out@) =~= before.push(
                InheritV { impl_name: cls@, super_name: sups@[i as int]@, kind: kind },
            ));
        }
    }
    proof {
        assert(sups@.take(n as int) =~= sups@);
    }
}

/// Append the inheritance records node `i` yields in grammar `g`.
pub fn extract_inherits(t: &SynTree, g: Grammar, i: usize, out: &mut Vec<RawInherit>)
    requires
        t.wf(),
        i < t.nodes@.len(),
    ensures
        inherit_views(final(out)@) == inherit_views(old(out)@) + inherits_of(*t, g, i as int),
{
    let ghost base = inherit_views(out@);
    match g {
        Grammar::Rust => {
            if t.kind_is(i, "impl_item") {
                let typ = match t.field_child_of(i, "type") {
                    Some(c) => trailing_ident_of(t, c),
                    None => None,
                };
                let tr = match t.field_child_of(i, "trait") {
                    Some(c) => trailing_ident_of(t, c),
                    None => None,
                };
                match (typ, tr) {
                    (Some(a), Some(b)) => {
                        out.push(RawInherit { impl_name: a, super_name: b, kind: InheritKind::Implements });
                    },
                    _ => {},
                }
            }
        },
        Grammar::Python => {
            if t.kind_is(i, "class_definition") {
                match (t.field_text_of(i, "name"), t.field_child_of(i, "superclasses")) {
                    (Some(cls), Some(args)) => {
                        let named = t.named_kids_of(args);
                        let mut sups: Vec<String> = Vec::new();
                        let m = named.len();
                        for j in 0..m
                            invariant
                                m == named@.len(),
                                named@ == t.named_kids(args as int),
                                forall|q: int| 0 <= q < named@.len() ==> args < (#[trigger] named@[q]) < t.nodes@.len(),
                                t.wf(),
                                sups@.map_values(|s: String| s@) == trailing_over(*t, named@.take(j as int)),
                        {
                            let ghost before = sups@.map_values(|s: String| s@);
                            proof {
                                assert(named@.take(j + 1).drop_last() =~= named@.take(j as int));
                                assert(named@.take(j + 1).last() == named@[j as int]);
                            }
                            match trailing_ident_of(t, named[j]) {
                                Some(x) => {
                                    sups.push(x);
                                    proof {
                                        assert(sups@.map_values(|s: String| s@) =~= before.push(x@));
                                    }
                                },
                                None => {},
                            }
                        }
                        proof {
                            assert(named@.take(m as int) =~= named@);
                        }
                        push_inherits(out, &cls, &sups, InheritKind::Extends);
                    },
                    _ => {},
                }
            }
        },
        Grammar::TypeScript | Grammar::Tsx => {
            if t.kind_is(i, "class_declaration") {
                match t.field_text_of(i, "name") {
                    Some(cls) => {
                        let cs = &t.nodes[i].children;
                        let m = cs.len();
                        for j in 0..m
                            invariant
                                m == cs@.len(),
                                cs@ == t.kids(i as int),
                                t.wf(),
                                i < t.nodes@.len(),
                                inherit_views(out@) == base + heritages(*t, cls@, cs@.take(j as int)),
                        {
                            let ch = cs[j];
                            proof {
                                assert(cs@.take(j + 1).drop_last() =~= cs@.take(j as int));
                                assert(cs@.take(j + 1).last() == ch);
                            }
                            if t.kind_is(ch, "class_heritage") {
                                let hs = &t.nodes[ch].children;
                                let ghost mid = inherit_views(out@);
                                let h = hs.len();
                                for q in 0..h
                                    invariant
                                        h == hs@.len(),
                                        hs@ == t.kids(ch as int),
                                        ch < t.nodes@.len(),
                                        t.wf(),
                                        inherit_views(out@) == mid + heritage_clauses(*t, cls@, hs@.take(q as int)),
                                {
                                    let clause = hs[q];
                                    proof {
                                        assert(hs@.take(q + 1).drop_last() =~= hs@.take(q as int));
                                        assert(hs@.take(q + 1).last() == clause);
                                    }
                                    if t.kind_is(clause, "extends_clause") {
                                        let sups = type_idents_of(t, clause);
                                        push_inherits(out, &cls, &sups, InheritKind::Extends);
                                    } else if t.kind_is(clause, "implements_clause") {
                                        let sups = type_idents_of(t, clause);
                                        push_inherits(out, &cls, &sups, InheritKind::Implements);
                                    }
                                }
                                proof {
                                    assert(hs@.take(h as int) =~= hs@);
                                }
                            }
                        }
                        proof {
                            assert(cs@.take(m as int) =~= cs@);
                        }
                    },
                    None => {},
                }
            }
        },
        Grammar::Java => {
            match t.field_text_of(i, "name") {
                Some(cls) => {
                    if t.kind_is(i, "class_declaration") {
                        match t.field_child_of(i, "superclass") {
                            Some(sc) => {
                                let sups = type_idents_of(t, sc);
                                push_inherits(out, &cls, &sups, InheritKind::Extends);
                            },
                            None => {},
                        }
                        match t.field_child_of(i, "interfaces") {
                            Some(ifs) => {
                                let sups = type_idents_of(t, ifs);
                                push_inherits(out, &cls, &sups, InheritKind::Implements);
                            },
                            None => {},
                        }
                    } else if t.kind_is(i, "interface_declaration") {
                        match t.field_child_of(i, "interfaces") {
                            Some(ifs) => {
                                let sups = type_idents_of(t, ifs);
                                push_inherits(out, &cls, &sups, InheritKind::Extends);
                            },
                            None => {},
                        }
                    }
                },
                None => {},
            }
        },
        _ => {},
    }
    proof {
        assert(inherit_views(out@) =~= base + inherits_of(*t, g, i as int));
    }
}

/// Function kinds that open a scope of their own.
pub open spec fn fn_kinds() -> Seq<Seq<char>> {
    seq![
        "function_declaration"@, "function_expression"@, "arrow_function"@, "method_definition"@,
        "generator_function_declaration"@,
    ]
}

/// A declared-type local or typed parameter: `(name, type)`.
pub open spec fn decl_pair(t: SynTree, n: int) -> Option<(Seq<char>, Seq<char>)> {
    let k = t.kind(n);
    if k == "variable_declarator"@ || k == "required_parameter"@ || k == "optional_parameter"@ {
        let f = if k == "variable_declarator"@ {
            "name"@
        } else {
            "pattern"@
        };
        match (text_if(t, t.field_child(n, f), "identifier"@), ts_type_in(t, n)) {
            (Some(a), Some(b)) => Some((a, b)),
            _ => None,
        }
    } else {
        None
    }
}

/// The declarations among the nodes of `order`.
pub open spec fn decls_over(t: SynTree, order: Seq<usize>) -> Seq<(Seq<char>, Seq<char>)>
    decreases order.len(),
{
    if order.len() == 0 {
        seq![]
    } else {
        let r = decls_over(t, order.drop_last());
        match decl_pair(t, order.last() as int) {
            Some(p) => r.push(p),
            None => r,
        }
    }
}

/// Record a declaration in a name-sorted table: a new name gets its type; a
/// name seen with another type is poisoned (`None`).
pub open spec fn put_decl(m: Seq<(Seq<char>, Option<Seq<char>>)>, name: Seq<char>, ty: Seq<char>) -> Seq<(Seq<char>, Option<Seq<char>>)>
    decreases m.len(),
{
    if m.len() == 0 {
        seq![(name, Some(ty))]
    } else if m[0].0 == name {
        if m[0].1 == Some(ty) {
            m
        } else {
            m.update(0, (name, None))
        }
    } else if lex_lt(name, m[0].0) {
        seq![(name, Some(ty))] + m
    } else {
        seq![m[0]] + put_decl(m.drop_first(), name, ty)
    }
}

/// The table after all of `ds`.
pub open spec fn decl_table(ds: Seq<(Seq<char>, Seq<char>)>) -> Seq<(Seq<char>, Option<Seq<char>>)>
    decreases ds.len(),
{
    if ds.len() == 0 {
        seq![]
    } else {
        put_decl(decl_table(ds.drop_last()), ds.last().0, ds.last().1)
    }
}

/// The unpoisoned entries of a table, in order.
pub open spec fn kept_types(m: Seq<(Seq<char>, Option<Seq<char>>)>) -> Seq<(Seq<char>, Seq<char>)>
    decreases m.len(),
{
    if m.len() == 0 {
        seq![]
    } else {
        let r = kept_types(m.drop_last());
        match m.last().1 {
            Some(ty) => r.push((m.last().0, ty)),
            None => r,
        }
    }
}

/// TypeScript: the declared types of the locals and typed parameters of
/// function `f`, by name; a name declared with two types is dropped; nested
/// functions are their own scope.
pub open spec fn ts_locals(t: SynTree, f: int, fid: Seq<char>) -> Seq<LocalV> {
    kept_types(decl_table(decls_over(t, t.walk_spec(f, fn_kinds(), seq![])))).map_values(
        |p: (Seq<char>, Seq<char>)| LocalV { caller_id: fid, var_name: p.0, ty_name: p.1 },
    )
}

pub open spec fn local_views(v: Seq<RawLocal>) -> Seq<LocalV> {
    v.map_values(|x: RawLocal| x@)
}

pub open spec fn opt_chars(o: Option<Vec<char>>) -> Option<Seq<char>> {
    match o {
        Some(v) => Some(v@),
        None => None,
    }
}

pub open spec fn table_view(v: Seq<(Vec<char>, Option<Vec<char>>)>) -> Seq<(Seq<char>, Option<Seq<char>>)> {
    v.map_values(|e: (Vec<char>, Option<Vec<char>>)| (e.0@, opt_chars(e.1)))
}

/// Record declaration `(name, ty)` in the table (see `put_decl`).
fn put_decl_vec(m: &mut Vec<(Vec<char>, Option<Vec<char>>)>, name: Vec<char>, ty: Vec<char>)
    ensures
        table_view(final(m)@) == put_decl(table_view(old(m)@), name@, ty@),
{
    let ghost m0 = table_view(m@);
    let n = m.len();
    let mut p: usize = 0;
    proof {
        assert(m0.skip(0) =~= m0);
        assert(m0.take(0) + put_decl(m0.skip(0), name@, ty@) =~= put_decl(m0, name@, ty@));
    }
    while p < n && !same_chars(&m[p].0, &name) && lex_less(&m[p].0, &name)
        invariant
            n == m@.len(),
            m0 == table_view(m@),
            p <= n,
            m0.take(p as int) + put_decl(m0.skip(p as int), name@, ty@) == put_decl(m0, name@, ty@),
        decreases n - p,
    {
        proof {
            let rest = m0.skip(p as int);
            assert(rest[0] == (m@[p as int].0@, opt_chars(m@[p as int].1)));
            assert(rest[0].0 != name@);
            crate::text::lemma_lex_irreflexive(name@);
            if lex_lt(name@, rest[0].0) {
                crate::text::lemma_lex_total(name@, rest[0].0);
            }
            assert(!lex_lt(name@, rest[0].0));
            assert(put_decl(rest, name@, ty@) == seq![rest[0]] + put_decl(rest.drop_first(), name@, ty@));
            assert(rest.drop_first() =~= m0.skip(p + 1));
            assert(m0.take(p + 1) =~= m0.take(p as int).push(rest[0]));
            assert(m0.take(p + 1) + put_decl(m0.skip(p + 1), name@, ty@) =~= m0.take(p as int) + put_decl(
                rest,
                name@,
                ty@,
            ));
        }
        p = p + 1;
    }
    let ghost rest = m0.skip(p as int);
    if p < n && same_chars(&m[p].0, &name) {
        let same_ty = match &m[p].1 {
            Some(t0) => same_chars(t0, &ty),
            None => false,
        };
        proof {
            assert(rest[0] == (m@[p as int].0@, opt_chars(m@[p as int].1)));
            assert(same_ty == (rest[0].1 == Some(ty@)));
        }
        if !same_ty {
            m.set(p, (name, None));
            proof {
                assert(table_view(m@) =~= m0.take(p as int) + rest.update(0, (name@, None)));
            }
        } else {
            proof {
                assert(table_view(m@) =~= m0.take(p as int) + rest);
            }
        }
    } else {
        proof {
            if p < n {
                assert(rest[0] == (m@[p as int].0@, opt_chars(m@[p as int].1)));
                assert(rest[0].0 != name@);
                assert(lex_lt(name@, rest[0].0)) by {
                    crate::text::lemma_lex_total(name@, rest[0].0);
                }
            } else {
                assert(rest =~= Seq::<(Seq<char>, Option<Seq<char>>)>::empty());
            }
        }
        m.insert(p, (name, Some(ty)));
        proof {
            assert(table_view(m@) =~= m0.take(p as int) + (seq![(name@, Some(ty@))] + rest));
        }
    }
}

/// The declarations of TypeScript function `f` (id `fid`), by name, appended
/// to `out` (see `ts_locals`).
pub fn ts_infer_locals(t: &SynTree, f: usize, fid: &str, out: &mut Vec<RawLocal>)
    requires
        t.wf(),
        f < t.nodes@.len(),
    ensures
        local_views(final(out)@) == local_views(old(out)@) + ts_locals(*t, f as int, fid@),
{
    let sk: [&str; 5] = [
        "function_declaration", "function_expression", "arrow_function", "method_definition",
        "generator_function_declaration",
    ];
    let lf: [&str; 0] = [];
    proof {
        assert(strs(sk@) =~= fn_kinds());
        assert(strs(lf@) =~= Seq::<Seq<char>>::empty());
    }
    let order = t.walk(f, &sk, &lf);
    let mut table: Vec<(Vec<char>, Option<Vec<char>>)> = Vec::new();
    let ghost ds_all = decls_over(*t, order@);
    let m = order.len();
    let ghost mut ds: Seq<(Seq<char>, Seq<char>)> = seq![];
    for k in 0..m
        invariant
            m == order@.len(),
            forall|q: int| 0 <= q < order@.len() ==> (#[trigger] order@[q]) < t.nodes@.len(),
            t.wf(),
            ds == decls_over(*t, order@.take(k as int)),
            table_view(table@) == decl_table(ds),
    {
        let n = order[k];
        proof {
            assert(order@.take(k + 1).drop_last() =~= order@.take(k as int));
            assert(order@.take(k + 1).last() == n);
        }
        let is_decl = t.kind_is(n, "variable_declarator") || t.kind_is(n, "required_parameter") || t.kind_is(
            n,
            "optional_parameter",
        );
        if is_decl {
            let p = if t.kind_is(n, "variable_declarator") {
                t.field_child_of(n, "name")
            } else {
                t.field_child_of(n, "pattern")
            };
            let name = text_if_kind(t, p, "identifier");
            let ty = ts_type_of(t, n);
            match (name, ty) {
                (Some(a), Some(b)) => {
                    let av = chars_of(a.as_str());
                    let bv = chars_of(b.as_str());
                    put_decl_vec(&mut table, av, bv);
                    proof {
                        assert(ds.push((a@, b@)).drop_last() =~= ds);
                        ds = ds.push((a@, b@));
                    }
                },
                _ => {},
            }
        }
        proof {
            assert(ds == decls_over(*t, order@.take(k + 1)));
        }
    }
    let ghost tv = table_view(table@);
    let ghost base = local_views(out@);
    let nt = table.len();
    for j in 0..nt
        invariant
            nt == table@.len(),
            tv == table_view(table@),
            local_views(out@) == base + kept_types(tv.take(j as int)).map_values(
                |p: (Seq<char>, Seq<char>)| LocalV { caller_id: fid@, var_name: p.0, ty_name: p.1 },
            ),
    {
        let ghost before = local_views(out@);
        proof {
            assert(tv.take(j + 1).drop_last() =~= tv.take(j as int));
            assert(tv.take(j + 1).last() == (table@[j as int].0@, opt_chars(table@[j as int].1)));
        }
        match &table[j].1 {
            Some(ty) => {
                out.push(
                    RawLocal { caller_id: fid.to_owned(), var_name: string_of(&table[j].0), ty_name: string_of(ty) },
                );
                proof {
                    assert(local_views(out@) =~= before.push(
                        LocalV { caller_id: fid@, var_name: table@[j as int].0@, ty_name: ty@ },
                    ));
                    let kt = kept_types(tv.take(j as int));
                    assert(kept_types(tv.take(j + 1)) == kt.push((table@[j as int].0@, ty@)));
                    assert(kt.push((table@[j as int].0@, ty@)).map_values(
                        |p: (Seq<char>, Seq<char>)| LocalV { caller_id: fid@, var_name: p.0, ty_name: p.1 },
                    ) =~= kt.map_values(
                        |p: (Seq<char>, Seq<char>)| LocalV { caller_id: fid@, var_name: p.0, ty_name: p.1 },
                    ).push(LocalV { caller_id: fid@, var_name: table@[j as int].0@, ty_name: ty@ }));
                    assert(local_views(out@) =~= base + kept_types(tv.take(j + 1)).map_values(
                        |p: (Seq<char>, Seq<char>)| LocalV { caller_id: fid@, var_name: p.0, ty_name: p.1 },
                    ));
                }
            },
            None => {},
        }
    }
    proof {
        assert(tv.take(nt as int) =~= tv);
        assert(order@.take(m as int) =~= order@);
    }
}


/// Every record of `rs` is by `cls` and of kind `kind`.
pub open spec fn all_records(rs: Seq<InheritV>, cls: Seq<char>, kind: InheritKind) -> bool {
    forall|k: int| 0 <= k < rs.len() ==> (#[trigger] rs[k]).impl_name == cls && rs[k].kind == kind
}

/// Law: a Python class extends each of its superclasses (`class Dog(Animal)`
/// records Dog extends Animal); a Rust `impl Trait for Type` records that the
/// type implements the trait; a Java interface extends the interfaces it
/// lists; a Java class without a superclass only implements, and one
/// without interfaces only extends; and the languages without
/// inheritance in the walk (JavaScript, Go, Swift, C, C++, Ruby, C#, Kotlin,
/// Bash) record none.
pub proof fn law_inheritance_records(t: SynTree, i: int)
    ensures
        t.kind(i) == "class_definition"@ && t.field_text(i, "name"@) is Some ==> all_records(
            inherits_of(t, Grammar::Python, i),
            t.field_text(i, "name"@)->0,
            InheritKind::Extends,
        ),
        forall|k: int|
            0 <= k < inherits_of(t, Grammar::Rust, i).len() ==> (#[trigger] inherits_of(t, Grammar::Rust, i)[k]).kind
                == InheritKind::Implements,
        t.kind(i) == "interface_declaration"@ && t.field_text(i, "name"@) is Some ==> all_records(
            inherits_of(t, Grammar::Java, i),
            t.field_text(i, "name"@)->0,
            InheritKind::Extends,
        ),
        t.kind(i) == "class_declaration"@ && t.field_text(i, "name"@) is Some && t.field_child(i, "superclass"@) is None
            ==> all_records(inherits_of(t, Grammar::Java, i), t.field_text(i, "name"@)->0, InheritKind::Implements),
        t.kind(i) == "class_declaration"@ && t.field_text(i, "name"@) is Some && t.field_child(i, "interfaces"@) is None
            ==> all_records(inherits_of(t, Grammar::Java, i), t.field_text(i, "name"@)->0, InheritKind::Extends),
        inherits_of(t, Grammar::JavaScript, i).len() == 0,
        inherits_of(t, Grammar::Go, i).len() == 0,
        inherits_of(t, Grammar::Swift, i).len() == 0,
        inherits_of(t, Grammar::C, i).len() == 0,
        inherits_of(t, Grammar::Cpp, i).len() == 0,
        inherits_of(t, Grammar::Ruby, i).len() == 0,
        inherits_of(t, Grammar::CSharp, i).len() == 0,
        inherits_of(t, Grammar::Kotlin, i).len() == 0,
        inherits_of(t, Grammar::Bash, i).len() == 0,
{
    reveal_strlit("class_declaration");
    reveal_strlit("interface_declaration");
    assert("class_declaration"@[0] != "interface_declaration"@[0]);
    if let Some(cls) = t.field_text(i, "name"@) {
        let sup = field_supers(t, i, "superclass"@, cls, InheritKind::Extends);
        let ifs = field_supers(t, i, "interfaces"@, cls, InheritKind::Implements);
        assert(sup.len() == 0 ==> sup + ifs =~= ifs);
        assert(ifs.len() == 0 ==> sup + ifs =~= sup);
    }
}

} // verus!
