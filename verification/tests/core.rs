use codegraph::coverage::Coverage;
use codegraph::qualname::QualifiedName;
use codegraph::search::subwords;

#[test]
fn qualified_name_normalizes() {
    assert_eq!(QualifiedName::build("MyApp", &["src", "auth"], "getProfile"), "myapp.src.auth.getprofile");
    assert_eq!(QualifiedName::build("a", &["b/c", "d.e"], "F-G"), "a.b_c.d_e.f_g");
    assert_eq!(QualifiedName::build("p", &[], "name"), "p.name");
    assert_eq!(QualifiedName::build("p", &["", "  "], "n"), "p.n");
}

#[test]
fn coverage_incomplete_flag() {
    let c = Coverage::callers("foo", 3, 10);
    assert_eq!(c.dropped, 7);
    assert!(c.may_be_incomplete && c.note.contains("INCOMPLETE"));
    assert!(!Coverage::callers("foo", 5, 5).may_be_incomplete);
    assert!(!Coverage::callees(0, 0).may_be_incomplete);
}

#[test]
fn subwords_splits_camel_snake_digits() {
    assert_eq!(subwords("MealSenseCookSession"), "meal sense cook session");
    assert_eq!(subwords("HTTPServer2Go"), "http server 2 go");
    assert_eq!(subwords("snake_case_name"), "snake case name");
    assert_eq!(subwords("plain"), "");
}

#[test]
fn subword_letters_are_the_identifiers_alphanumerics() {
    for name in ["MealSenseCookSession", "foo_bar-baz", "parseHTTP2Response", "__init__", "x1"] {
        let r = subwords(name);
        let expect: String = name.chars().filter(|c| c.is_alphanumeric()).map(|c| c.to_ascii_lowercase()).collect();
        if !r.is_empty() {
            assert_eq!(r.replace(' ', ""), expect, "{name}");
            assert!(r.split(' ').all(|w| !w.is_empty()), "{name}");
        }
    }
    assert_ne!(subwords("a_b"), "", "separated alphanumerics give two words");
    assert_eq!(subwords("a_b"), "a b");
}

#[test]
fn each_subword_alone_is_one_word() {
    for name in ["MealSenseCookSession", "parseHTTP2Response", "foo_bar-baz", "XMLHttpRequest", "v2Api"] {
        let r = subwords(name);
        assert!(!r.is_empty(), "{name}");
        for w in r.split(' ') {
            assert!(!w.is_empty());
            assert_eq!(subwords(w), "", "{name}: {w}");
        }
    }
}
