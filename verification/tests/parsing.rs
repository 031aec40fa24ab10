use codegraph::parse::{parse_file, parse_go, parse_java, parse_kotlin, parse_python, parse_rust, parse_swift, parse_ts, ParsedFile};
use codegraph::spans::identifier_spans;
use codegraph::types::{InheritKind, NodeLabel};

fn names(pf: &ParsedFile) -> Vec<(String, NodeLabel)> {
    pf.nodes.iter().map(|n| (n.name.clone(), n.label)).collect()
}

fn has(pf: &ParsedFile, name: &str, label: NodeLabel) -> bool {
    names(pf).iter().any(|(n, l)| n == name && *l == label)
}

#[test]
fn rust_python_js_ts_go_still_work() {
    assert!(has(&parse_rust("p", "a.rs", "fn helper(){}\nfn main(){ helper(); }\nstruct S;\ntrait T{}\n"), "helper", NodeLabel::Function));
    assert!(has(&parse_python("p", "a.py", "def foo():\n  pass\nclass Bar:\n  pass\n"), "Bar", NodeLabel::Class));
    assert!(has(&parse_ts("p", "a.ts", "interface I{}\nfunction f(){}\n"), "I", NodeLabel::Interface));
    assert!(has(&parse_go("p", "a.go", "package m\nfunc run(){}\ntype S struct{}\n"), "run", NodeLabel::Function));
}

#[test]
fn swift_defs_and_calls() {
    let pf = parse_swift("p", "A.swift", "func helper() {}\nfunc run() { helper() }\nclass C {}\nprotocol P {}\nenum E { case a }\nstruct S {}\n");
    assert!(has(&pf, "helper", NodeLabel::Function));
    assert!(has(&pf, "run", NodeLabel::Function));
    assert!(has(&pf, "C", NodeLabel::Class));
    assert!(has(&pf, "P", NodeLabel::Interface));
    assert!(has(&pf, "E", NodeLabel::Class));
    assert!(has(&pf, "S", NodeLabel::Class));
    assert!(pf.calls.iter().any(|c| c.callee_name == "helper" && c.caller_id.ends_with("run")));
}

#[test]
fn java_defs_and_calls() {
    let pf = parse_java("p", "A.java", "class A {\n  void run() { helper(); }\n  void helper() {}\n}\ninterface I {}\nenum E { X }\n");
    assert!(has(&pf, "A", NodeLabel::Class));
    assert!(has(&pf, "run", NodeLabel::Method));
    assert!(has(&pf, "I", NodeLabel::Interface));
    assert!(has(&pf, "E", NodeLabel::Enum));
    assert!(pf.calls.iter().any(|c| c.callee_name == "helper"));
}

#[test]
fn c_function_name_from_declarator() {
    let pf = parse_file("p", "a.c", "int helper(int x) { return x; }\nint main() { return helper(2); }\nstruct Point { int x; };\n");
    assert!(has(&pf, "helper", NodeLabel::Function));
    assert!(has(&pf, "main", NodeLabel::Function));
    assert!(has(&pf, "Point", NodeLabel::Class));
    assert!(pf.calls.iter().any(|c| c.callee_name == "helper"));
}

#[test]
fn ruby_csharp_bash() {
    assert!(has(&parse_file("p", "a.rb", "def foo\nend\nclass Bar\nend\n"), "Bar", NodeLabel::Class));
    assert!(has(&parse_file("p", "a.cs", "class C { void M() {} }"), "M", NodeLabel::Method));
    assert!(has(&parse_file("p", "a.sh", "greet() { echo hi; }\n"), "greet", NodeLabel::Function));
}

#[test]
fn inheritance_extraction() {
    let py = parse_python("p", "a.py", "class Animal:\n    pass\nclass Dog(Animal):\n    pass\n");
    assert!(py.inherits.iter().any(|i| i.impl_name == "Dog" && i.super_name == "Animal" && i.kind == InheritKind::Extends));
    let ts = parse_ts("p", "a.ts", "interface Service {}\nclass Impl implements Service {}\nclass Base {}\nclass Sub extends Base {}\n");
    assert!(ts.inherits.iter().any(|i| i.impl_name == "Impl" && i.super_name == "Service" && i.kind == InheritKind::Implements));
    assert!(ts.inherits.iter().any(|i| i.impl_name == "Sub" && i.super_name == "Base" && i.kind == InheritKind::Extends));
    let java = parse_java("p", "A.java", "interface I {}\nclass A implements I {}\nclass B extends A {}\n");
    assert!(java.inherits.iter().any(|i| i.impl_name == "A" && i.super_name == "I" && i.kind == InheritKind::Implements));
    assert!(java.inherits.iter().any(|i| i.impl_name == "B" && i.super_name == "A" && i.kind == InheritKind::Extends));
    let rust = parse_rust("p", "a.rs", "struct Foo;\ntrait Show {}\nimpl Show for Foo {}\n");
    assert!(rust.inherits.iter().any(|i| i.impl_name == "Foo" && i.super_name == "Show" && i.kind == InheritKind::Implements));
}

#[test]
fn kotlin_defs_and_calls() {
    let pf = parse_kotlin("p", "A.kt", "fun greet() { say() }\nfun say() {}\nclass Vm {}\ninterface Service {}\nobject Singleton {}\n");
    assert!(has(&pf, "greet", NodeLabel::Function));
    assert!(has(&pf, "Vm", NodeLabel::Class));
    assert!(has(&pf, "Service", NodeLabel::Class));
    assert!(has(&pf, "Singleton", NodeLabel::Class));
    assert!(pf.calls.iter().any(|c| c.callee_name == "say" && c.caller_id.ends_with("greet")));
}

#[test]
fn http_route_extraction() {
    let ts = parse_ts("p", "r.ts", "class C { @Get('/users') list() {} }\napp.post('/login', handler);\n");
    assert!(ts.nodes.iter().any(|n| n.label == NodeLabel::Route && n.name == "GET /users"));
    assert!(ts.nodes.iter().any(|n| n.label == NodeLabel::Route && n.name == "POST /login"));
    let py = parse_python("p", "r.py", "@app.route('/health')\ndef health():\n    pass\n");
    assert!(py.nodes.iter().any(|n| n.label == NodeLabel::Route && n.name.contains("/health")));
}

#[test]
fn unknown_extension_is_empty() {
    assert!(parse_file("p", "a.unknown", "stuff").nodes.is_empty());
}

#[test]
fn identifier_spans_excludes_strings_and_comments() {
    let src = "fn foo() {}\nfn bar() { foo(); let s = \"foo\"; }\n// foo here\n";
    let spans = identifier_spans("a.rs", src, "foo");
    assert_eq!(spans.len(), 2, "only identifier tokens, not string/comment occurrences");
    for (s, e, _) in spans {
        assert_eq!(&src[s..e], "foo");
    }
}

#[test]
fn swift_subscript_is_not_a_call() {
    let pf = parse_swift("p", "a.swift", "class A {\n  func go() {\n    let x = arr[0]\n    cell.configure(with: rows[i])\n  }\n}");
    assert!(!pf.calls.iter().any(|c| c.callee_name == "arr"), "arr[0] subscript is not a call");
    assert!(!pf.calls.iter().any(|c| c.callee_name == "rows"), "rows[i] subscript is not a call");
    assert!(pf.calls.iter().any(|c| c.callee_name == "configure"), "configure(...) IS a call");
}

#[test]
fn swift_iife_closure_invents_no_callee() {
    let pf = parse_swift("p", "a.swift", "class A {\n  static let f: X = {\n    let formatter = Y()\n    return formatter\n  }()\n}");
    assert!(!pf.calls.iter().any(|c| c.callee_name == "formatter"), "IIFE body must not become a callee");
}

#[test]
fn identifier_spans_unknown_extension_is_empty() {
    assert!(identifier_spans("a.unknown", "foo foo", "foo").is_empty());
}

#[test]
fn rust_file_node_and_defines_lines() {
    let pf = parse_rust("p", "src/lib.rs", "fn a() {}\n\nfn b() {\n}\n");
    let file = pf.nodes.iter().find(|n| n.label == NodeLabel::File).expect("file node");
    assert_eq!(file.line_start, 1);
    let b = pf.nodes.iter().find(|n| n.name == "b").expect("b");
    assert_eq!((b.line_start, b.line_end), (3, 4));
}
