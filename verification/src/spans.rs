//! Occurrences of an identifier in a source file: the byte ranges and lines of
//! every identifier token with a given text, strings and comments excluded by
//! construction (the grammar does not classify them as identifiers).

use crate::extract::{ident_kind, is_ident_node};
use crate::langs::{grammar_for, spec_for_ext};
use crate::parse::{ext_of, line_no};
use crate::syntax::{is_syntax_of, opt_str, parse_tree, strs, syntax_of, SynTree};
use vstd::string::StringSliceAdditionalSpecFns;
use crate::text::{chars_of, str_eq, string_of};
use vstd::multiset::Multiset;
use vstd::prelude::*;

verus! {

/// The order of `sort_unstable` on `(start, end, line)` triples.
pub open spec fn span_le(a: (usize, usize, u32), b: (usize, usize, u32)) -> bool {
    a.0 < b.0 || (a.0 == b.0 && (a.1 < b.1 || (a.1 == b.1 && a.2 <= b.2)))
}

/// Non-decreasing.
pub open spec fn spans_sorted(v: Seq<(usize, usize, u32)>) -> bool {
    forall|a: int, b: int| 0 <= a < b < v.len() ==> span_le(v[a], v[b])
}

/// The occurrences among the nodes of `order`.
pub open spec fn spans_over(t: SynTree, order: Seq<usize>, name: Seq<char>) -> Seq<(usize, usize, u32)>
    decreases order.len(),
{
    if order.len() == 0 {
        seq![]
    } else {
        let r = spans_over(t, order.drop_last(), name);
        let n = order.last() as int;
        if ident_kind(t.kind(n)) && t.text(n) == Some(name) {
            r.push((t.nodes@[n].start_byte, t.nodes@[n].end_byte, line_no(t.nodes@[n].start_row)))
        } else {
            r
        }
    }
}

/// The occurrences of `name` in tree `t`, in walk order.
pub open spec fn occurrences(t: SynTree, name: Seq<char>) -> Seq<(usize, usize, u32)> {
    spans_over(t, t.walk_spec(0, seq![], seq![]), name)
}

/// Index of a least triple of `v`.
fn least_span(v: &Vec<(usize, usize, u32)>) -> (m: usize)
    requires
        v@.len() > 0,
    ensures
        m < v@.len(),
        forall|k: int| 0 <= k < v@.len() ==> span_le(v@[m as int], #[trigger] v@[k]),
{
    let mut m: usize = 0;
    let n = v.len();
    for i in 1..n
        invariant
            n == v@.len(),
            m < n,
            forall|k: int| 0 <= k < i ==> span_le(v@[m as int], #[trigger] v@[k]),
    {
        let a = v[i];
        let b = v[m];
        if a.0 < b.0 || (a.0 == b.0 && (a.1 < b.1 || (a.1 == b.1 && a.2 < b.2))) {
            m = i;
        }
    }
    m
}

/// The triples of `items` in non-decreasing order.
fn sort_spans(items: Vec<(usize, usize, u32)>) -> (r: Vec<(usize, usize, u32)>)
    ensures
        r@.to_multiset() == items@.to_multiset(),
        spans_sorted(r@),
{
    broadcast use vstd::seq_lib::group_to_multiset_ensures;
    broadcast use vstd::multiset::group_multiset_axioms;

    let mut rest = items;
    let mut out: Vec<(usize, usize, u32)> = Vec::new();
    let ghost orig = rest@;
    proof {
        assert(out@.to_multiset().add(rest@.to_multiset()) =~= orig.to_multiset());
    }
    while rest.len() > 0
        invariant
            spans_sorted(out@),
            forall|a: int, b: int| 0 <= a < out@.len() && 0 <= b < rest@.len() ==> span_le(out@[a], rest@[b]),
            out@.to_multiset().add(rest@.to_multiset()) == orig.to_multiset(),
        decreases rest@.len(),
    {
        let m = least_span(&rest);
        let ghost r0 = rest@;
        let ghost o0 = out@;
        let x = rest.remove(m);
        out.push(x);
        proof {
            assert(rest@ =~= r0.remove(m as int));
            o0.to_multiset_ensures();
            r0.to_multiset_ensures();
            assert(r0[m as int] == x);
            assert(o0.push(x).to_multiset() =~= o0.to_multiset().insert(x));
            assert(r0.remove(m as int).to_multiset() =~= r0.to_multiset().remove(r0[m as int]));
            assert(r0.to_multiset().count(x) > 0) by {
                assert(r0.contains(x));
            }
            assert(out@.to_multiset().add(rest@.to_multiset()) =~= o0.to_multiset().add(r0.to_multiset()));
            assert forall|a: int, b: int| 0 <= a < out@.len() && 0 <= b < rest@.len() implies span_le(
                out@[a],
                rest@[b],
            ) by {
                let b2 = if b < m { b } else { b + 1 };
                assert(rest@[b] == r0[b2]);
                if a < o0.len() {
                    assert(out@[a] == o0[a]);
                } else {
                    assert(out@[a] == r0[m as int]);
                }
            }
            assert forall|a: int, b: int| 0 <= a < b < out@.len() implies span_le(out@[a], out@[b]) by {
                if b == o0.len() {
                    assert(out@[b] == r0[m as int]);
                    assert(out@[a] == o0[a]);
                } else {
                    assert(out@[a] == o0[a]);
                    assert(out@[b] == o0[b]);
                }
            }
        }
    }
    proof {
        assert(rest@.to_multiset() =~= Multiset::empty());
        assert(out@.to_multiset() =~= orig.to_multiset());
    }
    out
}

/// The occurrences of `name` in tree `t`, sorted.
pub fn spans_in(t: &SynTree, name: &str) -> (r: Vec<(usize, usize, u32)>)
    requires
        t.wf(),
    ensures
        r@.to_multiset() == occurrences(*t, name@).to_multiset(),
        spans_sorted(r@),
{
    let sk: [&str; 0] = [];
    let lf: [&str; 0] = [];
    proof {
        assert(strs(sk@) =~= Seq::<Seq<char>>::empty());
        assert(strs(lf@) =~= Seq::<Seq<char>>::empty());
    }
    let order = t.walk(0, &sk, &lf);
    let mut out: Vec<(usize, usize, u32)> = Vec::new();
    let m = order.len();
    for k in 0..m
        invariant
            m == order@.len(),
            forall|q: int| 0 <= q < order@.len() ==> (#[trigger] order@[q]) < t.nodes@.len(),
            t.wf(),
            out@ == spans_over(*t, order@.take(k as int), name@),
    {
        let n = order[k];
        proof {
            assert(order@.take(k + 1).drop_last() =~= order@.take(k as int));
            assert(order@.take(k + 1).last() == n);
        }
        if is_ident_node(t, n) {
            match t.text_of(n) {
                Some(x) => {
                    if str_eq(x.as_str(), name) {
                        let row = t.nodes[n].start_row;
                        let line: u32 = if row < 4294967295 {
                            row as u32 + 1
                        } else {
                            4294967295
                        };
                        out.push((t.nodes[n].start_byte, t.nodes[n].end_byte, line));
                    }
                },
                None => {},
            }
        }
    }
    proof {
        assert(order@.take(m as int) =~= order@);
    }
    sort_spans(out)
}

/// Byte ranges and 1-based lines of every identifier token whose text is
/// `name`, sorted, in the tree tree-sitter gives the source with the grammar
/// of the path's extension; empty for an unknown extension or a failed parse.
pub fn identifier_spans(rel_path: &str, source: &str, name: &str) -> (r: Vec<(usize, usize, u32)>)
    ensures
        spans_sorted(r@),
        match grammar_for(ext_of(rel_path@)) {
            Some(g) => match syntax_of(g, source.spec_bytes()) {
                Some(_) => exists|t: SynTree|
                    is_syntax_of(t, g, source.spec_bytes()) && r@.to_multiset() == occurrences(t, name@).to_multiset(),
                None => r@.len() == 0,
            },
            None => r@.len() == 0,
        },
{
    let cs = chars_of(rel_path);
    let mut k = cs.len();
    proof {
        assert(cs@.take(k as int) =~= cs@);
    }
    while k > 0 && cs[k - 1] != '.'
        invariant
            k <= cs@.len(),
            cs@ == rel_path@,
            crate::extract::last_dot(cs@) == crate::extract::last_dot(cs@.take(k as int)),
        decreases k,
    {
        proof {
            assert(cs@.take(k as int).drop_last() =~= cs@.take(k - 1));
        }
        k = k - 1;
    }
    let mut ext: Vec<char> = Vec::new();
    let n = cs.len();
    for j in k..n
        invariant
            k <= n,
            n == cs@.len(),
            ext@ == cs@.subrange(k as int, j as int),
    {
        ext.push(cs[j]);
        proof {
            assert(ext@ =~= cs@.subrange(k as int, j + 1));
        }
    }
    proof {
        if k > 0 {
            assert(cs@.take(k as int).last() == '.');
            assert(ext@ =~= rel_path@.skip(k as int));
        } else {
            assert(ext@ =~= rel_path@);
        }
    }
    let e = string_of(&ext);
    let g = match spec_for_ext(e.as_str()) {
        Some(g) => g,
        None => return Vec::new(),
    };
    match parse_tree(g, source) {
        Some(t) => spans_in(&t, name),
        None => Vec::new(),
    }
}

} // verus!
