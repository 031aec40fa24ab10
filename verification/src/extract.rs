//! Reading names, callees and receivers off a syntax tree: the trailing
//! identifier of an expression, a call's callee and receiver, its first string
//! argument, and a definition's name.

use crate::langs::{classify_receiver, receiver_of};
use crate::syntax::{opt_int, opt_str, strs, SynTree};
use crate::text::{chars_of, is_whitespace, str_eq, string_of, trim_start, trim_start_chars, unicode_whitespace};
use crate::types::{Receiver, ReceiverV};
use vstd::prelude::*;

verus! {

/// `k` is an identifier kind: `identifier`, `simple_identifier` or any kind
/// ending in `_identifier`.
pub open spec fn ident_kind(k: Seq<char>) -> bool {
    k == "identifier"@ || k == "simple_identifier"@ || (k.len() >= 11 && k.skip(k.len() - 11) == "_identifier"@)
}

/// Member and navigation chains whose unnamed parts are searched from the
/// right for the trailing identifier.
pub open spec fn chain_kinds() -> Seq<Seq<char>> {
    seq![
        "navigation_expression"@, "navigation_suffix"@, "member_expression"@, "field_expression"@,
        "selector_expression"@, "member_access_expression"@, "scoped_identifier"@,
    ]
}

/// The fields searched, in order, for a trailing identifier.
pub open spec fn name_fields() -> Seq<Seq<char>> {
    seq!["name"@, "field"@, "attribute"@, "property"@, "method"@, "suffix"@]
}

/// The trailing identifier of an expression: the node's own text when it is
/// an identifier; else the first found under the name-like fields; else, for
/// a member or navigation chain, the first found among its non-extra
/// children from the last one back.
pub open spec fn trailing_ident(t: SynTree, i: int) -> Option<Seq<char>>
    decreases t.len() - i, 2int, 0int,
{
    if !(0 <= i < t.len()) {
        None
    } else if ident_kind(t.kind(i)) {
        t.text(i)
    } else {
        match trailing_by_field(t, i, 0) {
            Some(s) => Some(s),
            None => if chain_kinds().contains(t.kind(i)) {
                trailing_by_child(t, i, t.kids(i).len() as int)
            } else {
                None
            },
        }
    }
}

/// The first trailing identifier under `name_fields()[j..]` of node `i`.
pub open spec fn trailing_by_field(t: SynTree, i: int, j: int) -> Option<Seq<char>>
    decreases t.len() - i, 1int, 6 - j,
{
    if !(0 <= i < t.len()) || !(0 <= j < 6) {
        None
    } else {
        match t.field_child(i, name_fields()[j]) {
            Some(c) => if i < c < t.len() {
                match trailing_ident(t, c) {
                    Some(s) => Some(s),
                    None => trailing_by_field(t, i, j + 1),
                }
            } else {
                trailing_by_field(t, i, j + 1)
            },
            None => trailing_by_field(t, i, j + 1),
        }
    }
}

/// The first trailing identifier among the non-extra children `k-1`, ..., `0`
/// of node `i`.
pub open spec fn trailing_by_child(t: SynTree, i: int, k: int) -> Option<Seq<char>>
    decreases t.len() - i, 1int, k,
{
    if !(0 <= i < t.len()) || k <= 0 || k > t.kids(i).len() {
        None
    } else {
        let c = t.kids(i)[k - 1] as int;
        if i < c < t.len() && !t.nodes@[c].extra {
            match trailing_ident(t, c) {
                Some(s) => Some(s),
                None => trailing_by_child(t, i, k - 1),
            }
        } else {
            trailing_by_child(t, i, k - 1)
        }
    }
}

/// Whether `k` ends with `_identifier`.
fn ends_with_identifier(k: &str) -> (r: bool)
    ensures
        r == (k@.len() >= 11 && k@.skip(k@.len() - 11) == "_identifier"@),
{
    let cs = chars_of(k);
    let suf = chars_of("_identifier");
    proof {
        reveal_strlit("_identifier");
    }
    if cs.len() < 11 {
        return false;
    }
    let off = cs.len() - 11;
    for i in 0..11
        invariant
            cs@ == k@,
            suf@ == "_identifier"@,
            suf@.len() == 11,
            cs@.len() >= 11,
            off == cs@.len() - 11,
            cs@.len() <= usize::MAX,
            forall|q: int| 0 <= q < i ==> cs@[off + q] == suf@[q],
    {
        assert(off + i < cs@.len());
        if cs[off + i] != suf[i] {
            proof {
                assert(k@.skip(k@.len() - 11)[i as int] != "_identifier"@[i as int]);
            }
            return false;
        }
    }
    proof {
        assert(k@.skip(k@.len() - 11) =~= "_identifier"@);
    }
    true
}

/// Whether node `i` has an identifier kind.
pub fn is_ident_node(t: &SynTree, i: usize) -> (r: bool)
    requires
        i < t.nodes@.len(),
    ensures
        r == ident_kind(t.kind(i as int)),
{
    let k = t.nodes[i].kind.as_str();
    str_eq(k, "identifier") || str_eq(k, "simple_identifier") || ends_with_identifier(k)
}

/// The trailing identifier of node `i` (see `trailing_ident`).
pub fn trailing_ident_of(t: &SynTree, i: usize) -> (r: Option<String>)
    requires
        t.wf(),
        i < t.nodes@.len(),
    ensures
        opt_str(r) == trailing_ident(*t, i as int),
    decreases t.nodes@.len() - i,
{
    if is_ident_node(t, i) {
        return t.text_of(i);
    }
    let fields: [&str; 6] = ["name", "field", "attribute", "property", "method", "suffix"];
    proof {
        assert(fields@.map_values(|f: &str| f@) =~= name_fields());
    }
    for j in 0..6
        invariant
            t.wf(),
            i < t.nodes@.len(),
            !ident_kind(t.kind(i as int)),
            fields@.map_values(|f: &str| f@) == name_fields(),
            trailing_by_field(*t, i as int, 0) == trailing_by_field(*t, i as int, j as int),
    {
        proof {
            assert(fields@.map_values(|f: &str| f@)[j as int] == fields@[j as int]@);
        }
        match t.field_child_of(i, fields[j]) {
            Some(c) => {
                let s = trailing_ident_of(t, c);
                if s.is_some() {
                    return s;
                }
            },
            None => {},
        }
    }
    let chains: [&str; 7] = [
        "navigation_expression", "navigation_suffix", "member_expression", "field_expression",
        "selector_expression", "member_access_expression", "scoped_identifier",
    ];
    proof {
        assert(strs(chains@) =~= chain_kinds());
    }
    if !t.kind_in(i, &chains) {
        return None;
    }
    let cs = &t.nodes[i].children;
    let mut k = cs.len();
    while k > 0
        invariant
            t.wf(),
            i < t.nodes@.len(),
            !ident_kind(t.kind(i as int)),
            trailing_by_field(*t, i as int, 0) is None,
            chain_kinds().contains(t.kind(i as int)),
            cs@ == t.kids(i as int),
            k <= cs@.len(),
            trailing_by_child(*t, i as int, cs@.len() as int) == trailing_by_child(*t, i as int, k as int),
        decreases k,
    {
        let c = cs[k - 1];
        proof {
            assert(t.kids(i as int)[k - 1] == c);
            assert(i < c < t.nodes@.len());
        }
        if !t.nodes[c].extra {
            let s = trailing_ident_of(t, c);
            if s.is_some() {
                proof {
                    assert(trailing_by_child(*t, i as int, k as int) == opt_str(s));
                }
                return s;
            }
        }
        k = k - 1;
    }
    None
}

/// Kinds of a call's argument parts, passed over when looking for the callee.
pub open spec fn argument_kinds() -> Seq<Seq<char>> {
    seq!["arguments"@, "argument_list"@, "value_arguments"@, "type_arguments"@, "call_suffix"@]
}

/// The first of `cs` whose kind is not in `ks`.
pub open spec fn first_not_of(t: SynTree, cs: Seq<usize>, ks: Seq<Seq<char>>) -> Option<int>
    decreases cs.len(),
{
    if cs.len() == 0 {
        None
    } else if !ks.contains(t.kind(cs[0] as int)) {
        Some(cs[0] as int)
    } else {
        first_not_of(t, cs.drop_first(), ks)
    }
}

/// The first of `cs` whose kind is in `ks`.
pub open spec fn first_in(t: SynTree, cs: Seq<usize>, ks: Seq<Seq<char>>) -> Option<int>
    decreases cs.len(),
{
    if cs.len() == 0 {
        None
    } else if ks.contains(t.kind(cs[0] as int)) {
        Some(cs[0] as int)
    } else {
        first_in(t, cs.drop_first(), ks)
    }
}

/// The callee expression of a call: its `function` field, else its first
/// child that is not an argument part.
pub open spec fn first_callee(t: SynTree, i: int) -> Option<int> {
    match t.field_child(i, "function"@) {
        Some(f) => Some(f),
        None => first_not_of(t, t.kids(i), argument_kinds()),
    }
}

/// The first child of `i` whose kind is (or, with `want` false, is not) in `ks`.
fn first_child_kind(t: &SynTree, i: usize, ks: &[&str], want: bool) -> (r: Option<usize>)
    requires
        t.wf(),
        i < t.nodes@.len(),
    ensures
        want ==> opt_int(r) == first_in(*t, t.kids(i as int), strs(ks@)),
        !want ==> opt_int(r) == first_not_of(*t, t.kids(i as int), strs(ks@)),
        match r {
            Some(c) => i < c < t.nodes@.len(),
            None => true,
        },
{
    let cs = &t.nodes[i].children;
    let n = cs.len();
    proof {
        assert(cs@.skip(0) =~= cs@);
    }
    for j in 0..n
        invariant
            n == cs@.len(),
            cs@ == t.kids(i as int),
            t.wf(),
            i < t.nodes@.len(),
            want ==> first_in(*t, t.kids(i as int), strs(ks@)) == first_in(*t, cs@.skip(j as int), strs(ks@)),
            !want ==> first_not_of(*t, t.kids(i as int), strs(ks@)) == first_not_of(
                *t,
                cs@.skip(j as int),
                strs(ks@),
            ),
    {
        let c = cs[j];
        proof {
            assert(cs@.skip(j as int)[0] == c);
            assert(cs@.skip(j as int).drop_first() =~= cs@.skip(j + 1));
        }
        if t.kind_in(c, ks) == want {
            return Some(c);
        }
    }
    None
}

/// The callee expression of call `i`.
pub fn first_callee_of(t: &SynTree, i: usize) -> (r: Option<usize>)
    requires
        t.wf(),
        i < t.nodes@.len(),
    ensures
        opt_int(r) == first_callee(*t, i as int),
        match r {
            Some(c) => i < c < t.nodes@.len(),
            None => true,
        },
{
    match t.field_child_of(i, "function") {
        Some(f) => Some(f),
        None => {
            let ks: [&str; 5] = ["arguments", "argument_list", "value_arguments", "type_arguments", "call_suffix"];
            proof {
                assert(strs(ks@) =~= argument_kinds());
            }
            first_child_kind(t, i, &ks, false)
        },
    }
}

/// The callee name found under `fields[j..]` of call `i`.
pub open spec fn callee_by_field(t: SynTree, i: int, fields: Seq<Seq<char>>, j: int) -> Option<Seq<char>>
    decreases fields.len() - j,
{
    if !(0 <= j < fields.len()) {
        None
    } else {
        match t.field_child(i, fields[j]) {
            Some(c) => match trailing_ident(t, c) {
                Some(s) => Some(s),
                None => callee_by_field(t, i, fields, j + 1),
            },
            None => callee_by_field(t, i, fields, j + 1),
        }
    }
}

/// The first trailing identifier among `cs`.
pub open spec fn first_ident_among(t: SynTree, cs: Seq<usize>) -> Option<Seq<char>>
    decreases cs.len(),
{
    if cs.len() == 0 {
        None
    } else {
        match trailing_ident(t, cs[0] as int) {
            Some(s) => Some(s),
            None => first_ident_among(t, cs.drop_first()),
        }
    }
}

/// The callee's name: the trailing identifier under the grammar's callee
/// fields, else of the first named child that has one, else of the callee
/// expression.
pub open spec fn callee_name(t: SynTree, i: int, fields: Seq<Seq<char>>) -> Option<Seq<char>> {
    match callee_by_field(t, i, fields, 0) {
        Some(s) => Some(s),
        None => match first_ident_among(t, t.named_kids(i)) {
            Some(s) => Some(s),
            None => match first_callee(t, i) {
                Some(c) => trailing_ident(t, c),
                None => None,
            },
        },
    }
}

/// The callee's name of call `i` (see `callee_name`).
pub fn callee_name_of(t: &SynTree, i: usize, fields: &[&str]) -> (r: Option<String>)
    requires
        t.wf(),
        i < t.nodes@.len(),
    ensures
        opt_str(r) == callee_name(*t, i as int, strs(fields@)),
{
    let ghost fs = strs(fields@);
    let n = fields.len();
    for j in 0..n
        invariant
            n == fields@.len(),
            fs == strs(fields@),
            t.wf(),
            i < t.nodes@.len(),
            callee_by_field(*t, i as int, fs, 0) == callee_by_field(*t, i as int, fs, j as int),
    {
        proof {
            assert(fs[j as int] == fields@[j as int]@);
        }
        match t.field_child_of(i, fields[j]) {
            Some(c) => {
                let s = trailing_ident_of(t, c);
                if s.is_some() {
                    return s;
                }
            },
            None => {},
        }
    }
    let named = t.named_kids_of(i);
    let m = named.len();
    proof {
        assert(named@.skip(0) =~= named@);
    }
    for j in 0..m
        invariant
            m == named@.len(),
            named@ == t.named_kids(i as int),
            fs == strs(fields@),
            callee_by_field(*t, i as int, fs, 0) is None,
            t.wf(),
            i < t.nodes@.len(),
            forall|q: int| 0 <= q < named@.len() ==> i < (#[trigger] named@[q]) < t.nodes@.len(),
            first_ident_among(*t, t.named_kids(i as int)) == first_ident_among(*t, named@.skip(j as int)),
    {
        proof {
            assert(named@.skip(j as int)[0] == named@[j as int]);
            assert(named@.skip(j as int).drop_first() =~= named@.skip(j + 1));
        }
        let s = trailing_ident_of(t, named[j]);
        if s.is_some() {
            return s;
        }
    }
    match first_callee_of(t, i) {
        Some(c) => trailing_ident_of(t, c),
        None => None,
    }
}

/// Argument parts whose bracket tells a subscript from a call.
pub open spec fn suffix_kinds() -> Seq<Seq<char>> {
    seq!["call_suffix"@, "value_arguments"@, "arguments"@, "argument_list"@]
}

/// A call node that is really a subscript `a[i]`: its first argument part
/// starts, after whitespace, with `[`.
pub open spec fn is_subscript(t: SynTree, i: int) -> bool {
    match first_in(t, t.kids(i), suffix_kinds()) {
        Some(c) => match t.text(c) {
            Some(x) => trim_start(x).len() > 0 && trim_start(x)[0] == '[',
            None => false,
        },
        None => false,
    }
}

/// Whether call `i` is a subscript (see `is_subscript`).
pub fn is_subscript_call(t: &SynTree, i: usize) -> (r: bool)
    requires
        t.wf(),
        i < t.nodes@.len(),
    ensures
        r == is_subscript(*t, i as int),
{
    let ks: [&str; 4] = ["call_suffix", "value_arguments", "arguments", "argument_list"];
    proof {
        assert(strs(ks@) =~= suffix_kinds());
    }
    match first_child_kind(t, i, &ks, true) {
        Some(c) => match t.text_of(c) {
            Some(x) => {
                let cs = chars_of(x.as_str());
                let tr = trim_start_chars(&cs);
                tr.len() > 0 && tr[0] == '['
            },
            None => false,
        },
        None => false,
    }
}

/// Index of the last `.` in `s`.
pub open spec fn last_dot(s: Seq<char>) -> Option<int>
    decreases s.len(),
{
    if s.len() == 0 {
        None
    } else if s.last() == '.' {
        Some(s.len() - 1)
    } else {
        last_dot(s.drop_last())
    }
}

/// The receiver of a call: its `object` field's text, else the text before
/// the last `.` of the callee expression; no receiver when neither exists.
pub open spec fn detect_receiver(t: SynTree, i: int) -> ReceiverV {
    match t.field_child(i, "object"@) {
        Some(o) => match t.text(o) {
            Some(x) => receiver_of(x),
            None => receiver_of(Seq::empty()),
        },
        None => match first_callee(t, i) {
            Some(c) => match t.text(c) {
                Some(x) => match last_dot(x) {
                    Some(p) => receiver_of(x.take(p)),
                    None => ReceiverV::Bare,
                },
                None => ReceiverV::Bare,
            },
            None => ReceiverV::Bare,
        },
    }
}

/// The receiver of call `i` (see `detect_receiver`).
pub fn detect_receiver_of(t: &SynTree, i: usize) -> (r: Receiver)
    requires
        t.wf(),
        i < t.nodes@.len(),
    ensures
        r@ == detect_receiver(*t, i as int),
{
    match t.field_child_of(i, "object") {
        Some(o) => match t.text_of(o) {
            Some(x) => classify_receiver(x.as_str()),
            None => {
                proof {
                    reveal_strlit("");
                }
                classify_receiver("")
            },
        },
        None => match first_callee_of(t, i) {
            Some(c) => match t.text_of(c) {
                Some(x) => {
                    let cs = chars_of(x.as_str());
                    let mut k = cs.len();
                    proof {
                        assert(cs@.take(k as int) =~= cs@);
                    }
                    while k > 0 && cs[k - 1] != '.'
                        invariant
                            k <= cs@.len(),
                            last_dot(cs@) == last_dot(cs@.take(k as int)),
                        decreases k,
                    {
                        proof {
                            assert(cs@.take(k as int).drop_last() =~= cs@.take(k - 1));
                        }
                        k = k - 1;
                    }
                    if k == 0 {
                        return Receiver::Bare;
                    }
                    let mut recv: Vec<char> = Vec::new();
                    for q in 0..k - 1
                        invariant
                            0 < k <= cs@.len(),
                            recv@ == cs@.take(q as int),
                    {
                        recv.push(cs[q]);
                        proof {
                            assert(recv@ =~= cs@.take(q + 1));
                        }
                    }
                    proof {
                        assert(cs@.take(k as int).last() == '.');
                    }
                    let rs = string_of(&recv);
                    classify_receiver(rs.as_str())
                },
                None => Receiver::Bare,
            },
            None => Receiver::Bare,
        },
    }
}

/// A quote character: `"`, `'` or a backtick.
pub open spec fn quote(c: char) -> bool {
    c == '"' || c == '\'' || c == '`'
}

pub open spec fn strip_quotes_lead(s: Seq<char>) -> Seq<char>
    decreases s.len(),
{
    if s.len() > 0 && quote(s[0]) {
        strip_quotes_lead(s.drop_first())
    } else {
        s
    }
}

pub open spec fn strip_quotes_trail(s: Seq<char>) -> Seq<char>
    decreases s.len(),
{
    if s.len() > 0 && quote(s.last()) {
        strip_quotes_trail(s.drop_last())
    } else {
        s
    }
}

/// `s` without quote characters at either end.
pub open spec fn unquoted(s: Seq<char>) -> Seq<char> {
    strip_quotes_trail(strip_quotes_lead(s))
}

/// The characters of `s` without quote characters at either end.
pub fn unquote(s: &str) -> (r: String)
    ensures
        r@ == unquoted(s@),
{
    let cs = chars_of(s);
    let n = cs.len();
    let mut lo: usize = 0;
    proof {
        assert(cs@.skip(0) =~= cs@);
    }
    while lo < n && (cs[lo] == '"' || cs[lo] == '\'' || cs[lo] == '`')
        invariant
            n == cs@.len(),
            cs@ == s@,
            lo <= n,
            strip_quotes_lead(s@) == strip_quotes_lead(cs@.skip(lo as int)),
        decreases n - lo,
    {
        proof {
            assert(cs@.skip(lo as int).drop_first() =~= cs@.skip(lo + 1));
        }
        lo = lo + 1;
    }
    let ghost a = cs@.skip(lo as int);
    let mut hi = n;
    proof {
        assert(a.take(a.len() as int) =~= a);
    }
    while hi > lo && (cs[hi - 1] == '"' || cs[hi - 1] == '\'' || cs[hi - 1] == '`')
        invariant
            n == cs@.len(),
            lo <= hi <= n,
            a == cs@.skip(lo as int),
            strip_quotes_trail(a) == strip_quotes_trail(a.take(hi - lo)),
        decreases hi,
    {
        proof {
            assert(a.take(hi - lo).drop_last() =~= a.take(hi - 1 - lo));
            assert(a.take(hi - lo).last() == cs@[hi - 1]);
        }
        hi = hi - 1;
    }
    proof {
        if hi > lo {
            assert(a.take(hi - lo).last() == cs@[hi - 1]);
        }
    }
    let mut out: Vec<char> = Vec::new();
    for j in lo..hi
        invariant
            n == cs@.len(),
            lo <= hi <= n,
            out@ == cs@.subrange(lo as int, j as int),
    {
        out.push(cs[j]);
        proof {
            assert(out@ =~= cs@.subrange(lo as int, j + 1));
        }
    }
    proof {
        assert(out@ =~= a.take(hi - lo));
    }
    string_of(&out)
}

/// `k` contains `string`.
pub open spec fn stringy(k: Seq<char>) -> bool {
    exists|p: int| 0 <= p && p + 6 <= k.len() && #[trigger] k.subrange(p, p + 6) == "string"@
}

/// Whether `k` contains `string`.
fn is_stringy(k: &str) -> (r: bool)
    ensures
        r == stringy(k@),
{
    let cs = chars_of(k);
    let pat = chars_of("string");
    proof {
        reveal_strlit("string");
    }
    let n = cs.len();
    if n < 6 {
        proof {
            assert forall|p: int| 0 <= p && p + 6 <= k@.len() implies #[trigger] k@.subrange(p, p + 6) != "string"@ by {}
        }
        return false;
    }
    for p in 0..n - 5
        invariant
            n == cs@.len(),
            n >= 6,
            cs@ == k@,
            pat@ == "string"@,
            pat@.len() == 6,
            forall|q: int| 0 <= q < p ==> #[trigger] k@.subrange(q, q + 6) != "string"@,
    {
        let mut all = true;
        for j in 0..6
            invariant
                n == cs@.len(),
                n >= 6,
                p + 6 <= n,
                pat@.len() == 6,
                all <==> forall|q: int| 0 <= q < j ==> cs@[p + q] == pat@[q],
        {
            if cs[p + j] != pat[j] {
                all = false;
            }
        }
        if all {
            proof {
                assert(k@.subrange(p as int, p + 6) =~= "string"@);
            }
            return true;
        }
        proof {
            let q = choose|q: int| 0 <= q < 6 && cs@[p + q] != pat@[q];
            assert(k@.subrange(p as int, p + 6)[q] != "string"@[q]);
        }
    }
    false
}

/// The first of `cs` whose kind contains `string`.
pub open spec fn first_stringy(t: SynTree, cs: Seq<usize>) -> Option<int>
    decreases cs.len(),
{
    if cs.len() == 0 {
        None
    } else if stringy(t.kind(cs[0] as int)) {
        Some(cs[0] as int)
    } else {
        first_stringy(t, cs.drop_first())
    }
}

/// The first string argument of a call, without its quotes.
pub open spec fn first_string_arg(t: SynTree, i: int) -> Option<Seq<char>> {
    match t.field_child(i, "arguments"@) {
        Some(a) => match first_stringy(t, t.named_kids(a)) {
            Some(c) => match t.text(c) {
                Some(x) => Some(unquoted(x)),
                None => None,
            },
            None => None,
        },
        None => None,
    }
}

/// The first string argument of call `i` (see `first_string_arg`).
pub fn first_string_arg_of(t: &SynTree, i: usize) -> (r: Option<String>)
    requires
        t.wf(),
        i < t.nodes@.len(),
    ensures
        opt_str(r) == first_string_arg(*t, i as int),
{
    let a = match t.field_child_of(i, "arguments") {
        Some(a) => a,
        None => return None,
    };
    let named = t.named_kids_of(a);
    let m = named.len();
    proof {
        assert(named@.skip(0) =~= named@);
    }
    for j in 0..m
        invariant
            m == named@.len(),
            named@ == t.named_kids(a as int),
            t.wf(),
            a < t.nodes@.len(),
            opt_int(Some(a)) == t.field_child(i as int, "arguments"@),
            forall|q: int| 0 <= q < named@.len() ==> a < (#[trigger] named@[q]) < t.nodes@.len(),
            first_stringy(*t, t.named_kids(a as int)) == first_stringy(*t, named@.skip(j as int)),
    {
        let c = named[j];
        proof {
            assert(named@.skip(j as int)[0] == c);
            assert(named@.skip(j as int).drop_first() =~= named@.skip(j + 1));
        }
        if is_stringy(t.nodes[c].kind.as_str()) {
            return match t.text_of(c) {
                Some(x) => Some(unquote(x.as_str())),
                None => None,
            };
        }
    }
    None
}

/// The kinds that end a C declarator chain.
pub open spec fn declarator_ends() -> Seq<Seq<char>> {
    seq!["identifier"@, "field_identifier"@, "type_identifier"@, "operator_name"@]
}

/// The name at the end of a C/C++ declarator chain starting at `d`.
pub open spec fn declarator_name(t: SynTree, d: int) -> Option<Seq<char>>
    decreases t.len() - d,
{
    if !(0 <= d < t.len()) {
        None
    } else if declarator_ends().contains(t.kind(d)) {
        t.text(d)
    } else {
        match t.field_child(d, "declarator"@) {
            Some(e) => if d < e < t.len() {
                declarator_name(t, e)
            } else {
                None
            },
            None => None,
        }
    }
}

/// The name of a definition: its `name` field's text; for C/C++ (with
/// `decl`), failing that, the end of its declarator chain.
pub open spec fn name_of(t: SynTree, i: int, decl: bool) -> Option<Seq<char>> {
    if !decl {
        t.field_text(i, "name"@)
    } else {
        match t.field_text(i, "name"@) {
            Some(s) => Some(s),
            None => match t.field_child(i, "declarator"@) {
                Some(d) => declarator_name(t, d),
                None => None,
            },
        }
    }
}

/// The name of definition `i` (see `name_of`).
pub fn name_of_node(t: &SynTree, i: usize, decl: bool) -> (r: Option<String>)
    requires
        t.wf(),
        i < t.nodes@.len(),
    ensures
        opt_str(r) == name_of(*t, i as int, decl),
{
    let s = t.field_text_of(i, "name");
    if !decl || s.is_some() {
        return s;
    }
    let mut d = match t.field_child_of(i, "declarator") {
        Some(d) => d,
        None => return None,
    };
    let ends: [&str; 4] = ["identifier", "field_identifier", "type_identifier", "operator_name"];
    proof {
        assert(strs(ends@) =~= declarator_ends());
    }
    loop
        invariant
            t.wf(),
            d < t.nodes@.len(),
            strs(ends@) == declarator_ends(),
            name_of(*t, i as int, decl) == declarator_name(*t, d as int),
        decreases t.nodes@.len() - d,
    {
        if t.kind_in(d, &ends) {
            return t.text_of(d);
        }
        match t.field_child_of(d, "declarator") {
            Some(e) => {
                d = e;
            },
            None => return None,
        }
    }
}

} // verus!
