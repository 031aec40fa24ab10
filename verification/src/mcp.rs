//! The decisions behind the agent-facing tools: readiness, the tool
//! arguments, the full-text query built for a context request, and the
//! selection of ranked symbols within a token budget.

use crate::search::{join_prefixes, long_term, or_prefixes, views};
use crate::text::{
    chars_of, is_alphanumeric, lemma_lex_irreflexive, lemma_lex_total, lemma_lex_trans, lex_less, lex_lt, is_whitespace, str_eq, string_of, unicode_alphanumeric,
    unicode_whitespace, utf8_len, utf8_width,
};
use crate::parse::node_views;
use crate::types::{Node, NodeLabel, NodeV};
use vstd::prelude::*;

verus! {

/// The tool server is always available.
pub fn mcp_ready() -> (r: bool)
    ensures
        r,
{
    true
}

/// The least time, in milliseconds, between two reindexes before serving.
pub const REFRESH_DEBOUNCE_MS: u128 = 1000;

/// Whether to reindex before serving a query: never done yet, or the last
/// reindex is more than `REFRESH_DEBOUNCE_MS` old (`since_last_ms` is the
/// time since it, `None` if there was none).
pub fn refresh_due(since_last_ms: Option<u128>) -> (r: bool)
    ensures
        r == match since_last_ms {
            None => true,
            Some(ms) => ms > REFRESH_DEBOUNCE_MS,
        },
{
    match since_last_ms {
        None => true,
        Some(ms) => ms > REFRESH_DEBOUNCE_MS,
    }
}

/// Arguments of `search` and `semantic_search`.
#[derive(Debug, Clone)]
pub struct SearchArgs {
    /// Symbol name or full-text query to search for.
    pub query: String,
    /// Maximum number of results (default 20).
    pub limit: Option<usize>,
    /// Treat `query` as a regex over symbol names.
    pub regex: Option<bool>,
}

/// Arguments of `context`.
#[derive(Debug, Clone)]
pub struct ContextArgs {
    /// Natural-language description of the task or area.
    pub query: String,
    /// Approximate token budget (default 1000).
    pub budget: Option<usize>,
}

/// Arguments of `get_node`.
#[derive(Debug, Clone)]
pub struct IdArgs {
    /// Fully-qualified node id.
    pub id: String,
}

/// Arguments of `callers`, `callees`, `blast_radius`, `implementers`.
#[derive(Debug, Clone)]
pub struct NameArgs {
    /// Symbol name.
    pub name: String,
}

/// Arguments of `trace_path`.
#[derive(Debug, Clone)]
pub struct TwoNamesArgs {
    /// Source symbol name.
    pub from: String,
    /// Target symbol name.
    pub to: String,
}

/// Arguments of `important`.
#[derive(Debug, Clone)]
pub struct LimitArgs {
    /// Max results (default 15).
    pub limit: Option<usize>,
}

/// The finished whitespace-separated words of the first `i` characters and
/// the word still open.
pub open spec fn ws_scan(cs: Seq<char>, i: nat) -> (Seq<Seq<char>>, Seq<char>)
    decreases i,
{
    if i == 0 {
        (Seq::empty(), Seq::empty())
    } else {
        let (done, cur) = ws_scan(cs, (i - 1) as nat);
        let c = cs[i - 1];
        if unicode_whitespace(c) {
            if cur.len() > 0 {
                (done.push(cur), Seq::empty())
            } else {
                (done, cur)
            }
        } else {
            (done, cur.push(c))
        }
    }
}

/// The whitespace-separated words of `cs` (`str::split_whitespace`).
pub open spec fn ws_words(cs: Seq<char>) -> Seq<Seq<char>> {
    let (done, cur) = ws_scan(cs, cs.len());
    if cur.len() > 0 {
        done.push(cur)
    } else {
        done
    }
}

/// The alphanumeric characters of `w`, in order.
pub open spec fn alnum_chars(w: Seq<char>) -> Seq<char>
    decreases w.len(),
{
    if w.len() == 0 {
        Seq::empty()
    } else if unicode_alphanumeric(w.last()) {
        alnum_chars(w.drop_last()).push(w.last())
    } else {
        alnum_chars(w.drop_last())
    }
}

/// The alphanumeric part of each word, where it takes more than one byte.
pub open spec fn context_terms(ws: Seq<Seq<char>>) -> Seq<Seq<char>>
    decreases ws.len(),
{
    if ws.len() == 0 {
        Seq::empty()
    } else {
        let a = alnum_chars(ws.last());
        if utf8_len(a) > 1 {
            context_terms(ws.drop_last()).push(a)
        } else {
            context_terms(ws.drop_last())
        }
    }
}

/// The full-text query of a context request: each word's alphanumeric part
/// of more than one byte as a prefix term, OR'd together; the query itself
/// when no such term is left.
pub open spec fn context_query_of(q: Seq<char>) -> Seq<char> {
    let ts = context_terms(ws_words(q));
    if ts.len() == 0 {
        q
    } else {
        or_prefixes(ts)
    }
}

/// A text takes more than one byte exactly when it has two characters or
/// one outside ASCII.
pub proof fn lemma_long_term_bytes(t: Seq<char>)
    ensures
        (utf8_len(t) > 1) == long_term(t),
{
    lemma_utf8_len_at_least(t);
    reveal_with_fuel(utf8_len, 2);
    if t.len() == 1 {
        assert(t.drop_last().len() == 0);
        assert(t.last() == t[0]);
    }
}

proof fn lemma_utf8_len_at_least(t: Seq<char>)
    ensures
        utf8_len(t) >= t.len(),
    decreases t.len(),
{
    if t.len() > 0 {
        lemma_utf8_len_at_least(t.drop_last());
    }
}

/// Build the full-text query for a context request (see `context_query_of`).
pub fn context_fts_query(query: &str) -> (r: String)
    ensures
        r@ == context_query_of(query@),
{
    let cs = chars_of(query);
    let n = cs.len();
    let mut terms: Vec<Vec<char>> = Vec::new();
    let mut cur: Vec<char> = Vec::new();
    let ghost mut done: Seq<Seq<char>> = Seq::empty();
    let ghost mut raw: Seq<char> = Seq::empty();
    let mut in_word = false;
    for i in 0..n
        invariant
            n == cs@.len(),
            (done, raw) == ws_scan(cs@, i as nat),
            in_word == (raw.len() > 0),
            cur@ == alnum_chars(raw),
            views(terms@) == context_terms(done),
    {
        let c = cs[i];
        if is_whitespace(c) {
            if in_word {
                proof {
                    assert(done.push(raw).drop_last() =~= done);
                    lemma_long_term_bytes(cur@);
                }
                if cur.len() > 1 || (cur.len() == 1 && (cur[0] as u32) >= 128) {
                    let ghost tb = views(terms@);
                    terms.push(cur);
                    proof {
                        assert(views(terms@) =~= tb.push(alnum_chars(raw)));
                    }
                }
                cur = Vec::new();
                in_word = false;
                proof {
                    done = done.push(raw);
                    raw = Seq::empty();
                }
            }
        } else {
            proof {
                assert(raw.push(c).drop_last() =~= raw);
            }
            if is_alphanumeric(c) {
                cur.push(c);
            }
            in_word = true;
            proof {
                raw = raw.push(c);
            }
        }
    }
    proof {
        assert(cs@.len() == n);
    }
    if in_word {
        proof {
            assert(done.push(raw).drop_last() =~= done);
            lemma_long_term_bytes(cur@);
        }
        if cur.len() > 1 || (cur.len() == 1 && (cur[0] as u32) >= 128) {
            let ghost tb = views(terms@);
            terms.push(cur);
            proof {
                assert(views(terms@) =~= tb.push(alnum_chars(raw)));
            }
        }
    }
    if terms.len() == 0 {
        string_of(&cs)
    } else {
        let out = join_prefixes(&terms);
        string_of(&out)
    }
}

/// The first position of `x` in `ids`.
pub open spec fn first_index(ids: Seq<Seq<char>>, x: Seq<char>) -> Option<int>
    decreases ids.len(),
{
    if ids.len() == 0 {
        None
    } else {
        match first_index(ids.drop_last(), x) {
            Some(k) => Some(k),
            None => if ids.last() == x {
                Some(ids.len() - 1)
            } else {
                None
            },
        }
    }
}

/// The ids of nodes, in order.
pub open spec fn node_ids(ns: Seq<NodeV>) -> Seq<Seq<char>> {
    ns.map_values(|n: NodeV| n.id)
}

/// The names of nodes, in order.
pub open spec fn node_names(ns: Seq<NodeV>) -> Seq<Seq<char>> {
    ns.map_values(|n: NodeV| n.name)
}

/// The approximate token cost of listing a node: a quarter of the bytes of
/// its name and file path, plus four.
pub open spec fn token_cost(n: NodeV) -> nat {
    (utf8_len(n.name) + utf8_len(n.file_path)) / 4 + 4
}

/// Walking ranked ids from `i` with `used` tokens spent: the picks (rank
/// position, node position) and the tokens spent in the end. Ids without a
/// node and File nodes are passed over; the walk stops at the first node
/// that would exceed the budget.
pub open spec fn budget_picks(
    ranked: Seq<Seq<char>>,
    ns: Seq<NodeV>,
    budget: nat,
    i: nat,
    used: nat,
) -> (Seq<(int, int)>, nat)
    decreases ranked.len() - i,
{
    if i >= ranked.len() {
        (Seq::empty(), used)
    } else {
        match first_index(node_ids(ns), ranked[i as int]) {
            None => budget_picks(ranked, ns, budget, i + 1, used),
            Some(k) => if ns[k].label == NodeLabel::File {
                budget_picks(ranked, ns, budget, i + 1, used)
            } else if used + token_cost(ns[k]) > budget {
                (Seq::empty(), used)
            } else {
                let (rest, u) = budget_picks(ranked, ns, budget, i + 1, used + token_cost(ns[k]));
                (seq![(i as int, k)] + rest, u)
            },
        }
    }
}

/// Law: the context assembled for a request never spends more tokens than
/// its budget, and lists no File node.
pub proof fn law_context_within_budget(ranked: Seq<Seq<char>>, ns: Seq<NodeV>, budget: nat, i: nat, used: nat)
    requires
        used <= budget,
    ensures
        budget_picks(ranked, ns, budget, i, used).1 <= budget,
        forall|j: int|
            0 <= j < budget_picks(ranked, ns, budget, i, used).0.len() ==> {
                let k = (#[trigger] budget_picks(ranked, ns, budget, i, used).0[j]).1;
                0 <= k < ns.len() && ns[k].label != NodeLabel::File
            },
    decreases ranked.len() - i,
{
    if i < ranked.len() {
        match first_index(node_ids(ns), ranked[i as int]) {
            None => law_context_within_budget(ranked, ns, budget, i + 1, used),
            Some(k) => {
                lemma_first_index_range(node_ids(ns), ranked[i as int]);
                if ns[k].label == NodeLabel::File {
                    law_context_within_budget(ranked, ns, budget, i + 1, used);
                } else if used + token_cost(ns[k]) <= budget {
                    let nu = used + token_cost(ns[k]);
                    law_context_within_budget(ranked, ns, budget, i + 1, nu);
                    let rest = budget_picks(ranked, ns, budget, i + 1, nu).0;
                    let all = budget_picks(ranked, ns, budget, i, used).0;
                    assert(all == seq![(i as int, k)] + rest);
                    assert forall|j: int| 0 <= j < all.len() implies {
                        let kk = (#[trigger] all[j]).1;
                        0 <= kk < ns.len() && ns[kk].label != NodeLabel::File
                    } by {
                        if j > 0 {
                            assert(all[j] == rest[j - 1]);
                        }
                    }
                }
            },
        }
    }
}

proof fn lemma_first_index_range(ids: Seq<Seq<char>>, x: Seq<char>)
    ensures
        first_index(ids, x) matches Some(k) ==> 0 <= k < ids.len() && ids[k] == x,
    decreases ids.len(),
{
    if ids.len() > 0 {
        lemma_first_index_range(ids.drop_last(), x);
        if let Some(k) = first_index(ids.drop_last(), x) {
            assert(ids.drop_last()[k] == ids[k]);
        }
    }
}

/// The first node whose id is `id`.
fn find_id(nodes: &[Node], id: &str) -> (r: Option<usize>)
    ensures
        match r {
            Some(k) => k < nodes@.len() && first_index(node_ids(node_views(nodes@)), id@) == Some(k as int),
            None => first_index(node_ids(node_views(nodes@)), id@) is None,
        },
{
    let ghost ids = node_ids(node_views(nodes@));
    let n = nodes.len();
    for i in 0..n
        invariant
            n == nodes@.len(),
            ids == node_ids(node_views(nodes@)),
            first_index(ids.take(i as int), id@) is None,
    {
        proof {
            assert(ids.take(i + 1).drop_last() =~= ids.take(i as int));
            assert(ids.take(i + 1).last() == nodes@[i as int].id@);
        }
        if str_eq(nodes[i].id.as_str(), id) {
            proof {
                lemma_first_index_prefix(ids, i + 1, id@);
            }
            return Some(i);
        }
    }
    proof {
        assert(ids.take(n as int) =~= ids);
    }
    None
}

/// The first node whose name is `name` (the symbol a tool call names).
pub fn find_named(nodes: &[Node], name: &str) -> (r: Option<usize>)
    ensures
        match r {
            Some(k) => k < nodes@.len() && first_index(node_names(node_views(nodes@)), name@) == Some(k as int),
            None => first_index(node_names(node_views(nodes@)), name@) is None,
        },
{
    let ghost ns = node_names(node_views(nodes@));
    let n = nodes.len();
    for i in 0..n
        invariant
            n == nodes@.len(),
            ns == node_names(node_views(nodes@)),
            first_index(ns.take(i as int), name@) is None,
    {
        proof {
            assert(ns.take(i + 1).drop_last() =~= ns.take(i as int));
            assert(ns.take(i + 1).last() == nodes@[i as int].name@);
        }
        if str_eq(nodes[i].name.as_str(), name) {
            proof {
                lemma_first_index_prefix(ns, i + 1, name@);
            }
            return Some(i);
        }
    }
    proof {
        assert(ns.take(n as int) =~= ns);
    }
    None
}

/// A hit in a prefix is the hit of the whole.
proof fn lemma_first_index_prefix(ids: Seq<Seq<char>>, k: int, x: Seq<char>)
    requires
        0 <= k <= ids.len(),
        first_index(ids.take(k), x) is Some,
    ensures
        first_index(ids, x) == first_index(ids.take(k), x),
    decreases ids.len() - k,
{
    if k < ids.len() {
        assert(ids.take(k + 1).drop_last() =~= ids.take(k));
        lemma_first_index_prefix(ids, k + 1, x);
    } else {
        assert(ids.take(k) =~= ids);
    }
}

/// The bytes of `s` in UTF-8, where they fit in a `usize`.
fn byte_len(s: &str) -> (r: usize)
    requires
        utf8_len(s@) <= usize::MAX,
    ensures
        r == utf8_len(s@),
{
    let cs = chars_of(s);
    let n = cs.len();
    let mut total: usize = 0;
    for i in 0..n
        invariant
            n == cs@.len(),
            cs@ == s@,
            utf8_len(s@) <= usize::MAX,
            total == utf8_len(cs@.take(i as int)),
    {
        proof {
            assert(cs@.take(i + 1).drop_last() =~= cs@.take(i as int));
            crate::text::lemma_utf8_len_prefix(cs@, i + 1);
        }
        let c = cs[i] as u32;
        let w: usize = if c < 0x80 {
            1
        } else if c < 0x800 {
            2
        } else if c < 0x10000 {
            3
        } else {
            4
        };
        proof {
            assert(w == utf8_width(cs@[i as int]));
        }
        total = total + w;
    }
    proof {
        assert(cs@.take(n as int) =~= cs@);
    }
    total
}

/// Walk the ranked ids (most relevant first) and pick the nodes to list
/// within `budget` tokens: ids without a node and File nodes are passed over,
/// and the walk stops at the first node that would exceed the budget.
/// Returns the picks as (rank position, node position) and the tokens spent.
pub fn budget_pick(ranked: &Vec<String>, nodes: &[Node], budget: usize) -> (r: (Vec<(usize, usize)>, usize))
    requires
        forall|k: int|
            0 <= k < nodes@.len() ==> utf8_len(#[trigger] nodes@[k].name@) + utf8_len(nodes@[k].file_path@)
                <= usize::MAX,
    ensures
        ({
            let (picks, used) = budget_picks(ranked@.map_values(|s: String| s@), node_views(nodes@), budget as nat, 0, 0);
            &&& r.0@.len() == picks.len()
            &&& forall|j: int| 0 <= j < picks.len() ==> (#[trigger] r.0@[j]).0 == picks[j].0 && r.0@[j].1 == picks[j].1
            &&& r.1 == used
        }),
{
    let ghost rv = ranked@.map_values(|s: String| s@);
    let ghost nv = node_views(nodes@);
    let ghost whole = budget_picks(rv, nv, budget as nat, 0, 0);
    let mut out: Vec<(usize, usize)> = Vec::new();
    let mut used: usize = 0;
    let n = ranked.len();
    let mut i: usize = 0;
    while i < n
        invariant
            n == ranked@.len(),
            rv == ranked@.map_values(|s: String| s@),
            nv == node_views(nodes@),
            whole == budget_picks(rv, nv, budget as nat, 0, 0),
            i <= n,
            used <= budget,
            forall|k: int|
                0 <= k < nodes@.len() ==> utf8_len(#[trigger] nodes@[k].name@) + utf8_len(nodes@[k].file_path@)
                    <= usize::MAX,
            ({
                let (rest, u) = budget_picks(rv, nv, budget as nat, i as nat, used as nat);
                &&& out@.len() + rest.len() == whole.0.len()
                &&& forall|j: int| 0 <= j < out@.len() ==> (#[trigger] out@[j]).0 == whole.0[j].0 && out@[j].1 == whole.0[j].1
                &&& forall|j: int| 0 <= j < rest.len() ==> #[trigger] rest[j] == whole.0[out@.len() + j]
                &&& u == whole.1
            }),
        ensures
            budget_picks(rv, nv, budget as nat, i as nat, used as nat).0.len() == 0,
            budget_picks(rv, nv, budget as nat, i as nat, used as nat).1 == used,
        decreases n - i,
    {
        let hit = find_id(nodes, ranked[i].as_str());
        proof {
            assert(rv[i as int] == ranked@[i as int]@);
        }
        match hit {
            None => {
                i = i + 1;
            },
            Some(k) => {
                let nd = &nodes[k];
                proof {
                    assert(nv[k as int] == nd@);
                }
                if nd.label == NodeLabel::File {
                    i = i + 1;
                } else {
                    let ln = byte_len(nd.name.as_str());
                    let lf = byte_len(nd.file_path.as_str());
                    let cost: u128 = ((ln as u128) + (lf as u128)) / 4 + 4;
                    proof {
                        assert(cost == token_cost(nd@));
                    }
                    if (used as u128) + cost > (budget as u128) {
                        proof {
                            let (rest, u) = budget_picks(rv, nv, budget as nat, i as nat, used as nat);
                            assert(rest.len() == 0);
                            assert(out@.len() == whole.0.len());
                        }
                        break;
                    }
                    let ghost before = out@;
                    let ghost rest0 = budget_picks(rv, nv, budget as nat, i as nat, used as nat).0;
                    let ghost next = budget_picks(rv, nv, budget as nat, (i + 1) as nat, (used + cost) as nat);
                    proof {
                        assert(rest0 == seq![(i as int, k as int)] + next.0);
                        assert(rest0[0] == whole.0[before.len() as int]);
                        assert forall|j: int| 0 <= j < next.0.len() implies #[trigger] next.0[j]
                            == whole.0[before.len() + 1 + j] by {
                            assert(rest0[j + 1] == next.0[j]);
                        }
                    }
                    used = used + (cost as usize);
                    out.push((i, k));
                    i = i + 1;
                }
            },
        }
    }
    (out, used)
}

/// Node `a` comes before node `b` in name order: by name in `str` order,
/// equal names in their original order (the order of a stable sort by name).
pub open spec fn name_before(ns: Seq<NodeV>, a: int, b: int) -> bool {
    lex_lt(ns[a].name, ns[b].name) || (ns[a].name == ns[b].name && a < b)
}

/// The positions of `nodes` in name order (a stable sort by name): every
/// position once, each before the next in `name_before` order.
pub fn order_by_name(nodes: &Vec<Node>) -> (r: Vec<usize>)
    ensures
        r@.len() == nodes@.len(),
        forall|k: int| 0 <= k < r@.len() ==> #[trigger] r@[k] < nodes@.len(),
        forall|x: usize| x < nodes@.len() ==> #[trigger] r@.contains(x),
        forall|a: int, b: int| 0 <= a < b < r@.len() ==> name_before(node_views(nodes@), #[trigger] r@[a] as int, #[trigger] r@[b] as int),
{
    let ghost ns = node_views(nodes@);
    let n = nodes.len();
    let mut names: Vec<Vec<char>> = Vec::new();
    for i in 0..n
        invariant
            n == nodes@.len(),
            ns == node_views(nodes@),
            names@.len() == i,
            forall|k: int| 0 <= k < i ==> (#[trigger] names@[k])@ == ns[k].name,
    {
        names.push(chars_of(nodes[i].name.as_str()));
        proof {
            assert(ns[i as int] == nodes@[i as int]@);
        }
    }
    let mut out: Vec<usize> = Vec::new();
    let mut i: usize = 0;
    while i < n
        invariant
            n == nodes@.len(),
            ns == node_views(nodes@),
            names@.len() == n,
            forall|k: int| 0 <= k < n ==> (#[trigger] names@[k])@ == ns[k].name,
            i <= n,
            out@.len() == i,
            forall|k: int| 0 <= k < out@.len() ==> #[trigger] out@[k] < i,
            forall|x: usize| x < i ==> #[trigger] out@.contains(x),
            forall|a: int, b: int| 0 <= a < b < out@.len() ==> name_before(ns, #[trigger] out@[a] as int, #[trigger] out@[b] as int),
        decreases n - i,
    {
        let mut p: usize = 0;
        while p < out.len() && !lex_less(&names[i], &names[out[p]])
            invariant
                n == names@.len(),
                i < n,
                p <= out@.len(),
                forall|k: int| 0 <= k < out@.len() ==> #[trigger] out@[k] < i,
                forall|q: int| 0 <= q < p ==> !lex_lt(names@[i as int]@, names@[#[trigger] out@[q] as int]@),
            decreases out@.len() - p,
        {
            p = p + 1;
        }
        let ghost old_out = out@;
        out.insert(p, i);
        proof {
            let me = ns[i as int].name;
            assert(names@[i as int]@ == me);
            assert forall|q: int| 0 <= q < p implies name_before(ns, #[trigger] old_out[q] as int, i as int) by {
                let o = old_out[q] as int;
                assert(names@[o]@ == ns[o].name);
                assert(!lex_lt(me, ns[o].name));
                lemma_lex_total(me, ns[o].name);
            }
            assert forall|q: int| p <= q < old_out.len() implies name_before(ns, i as int, #[trigger] old_out[q] as int) by {
                let o = old_out[q] as int;
                let f = old_out[p as int] as int;
                assert(names@[f]@ == ns[f].name);
                assert(lex_lt(me, ns[f].name));
                if q > p {
                    assert(name_before(ns, f, o));
                    if lex_lt(ns[f].name, ns[o].name) {
                        lemma_lex_trans(me, ns[f].name, ns[o].name);
                    }
                }
            }
            assert forall|a: int, b: int| 0 <= a < b < out@.len() implies name_before(ns, #[trigger] out@[a] as int, #[trigger] out@[b] as int) by {
                if b < p {
                    assert(out@[a] == old_out[a] && out@[b] == old_out[b]);
                } else if b == p {
                    assert(out@[a] == old_out[a]);
                } else if a < p {
                    assert(out@[a] == old_out[a] && out@[b] == old_out[b - 1]);
                    assert(name_before(ns, old_out[a] as int, i as int));
                    assert(name_before(ns, i as int, old_out[b - 1] as int));
                    let x = old_out[a] as int;
                    let y = old_out[b - 1] as int;
                    if lex_lt(ns[x].name, ns[i as int].name) && lex_lt(ns[i as int].name, ns[y].name) {
                        lemma_lex_trans(ns[x].name, ns[i as int].name, ns[y].name);
                    }
                } else if a == p {
                    assert(out@[b] == old_out[b - 1]);
                } else {
                    assert(out@[a] == old_out[a - 1] && out@[b] == old_out[b - 1]);
                }
            }
            assert forall|k: int| 0 <= k < out@.len() implies #[trigger] out@[k] < i + 1 by {
                if k < p {
                    assert(out@[k] == old_out[k]);
                } else if k > p {
                    assert(out@[k] == old_out[k - 1]);
                }
            }
            assert forall|x: usize| x < i + 1 implies #[trigger] out@.contains(x) by {
                if x == i {
                    assert(out@[p as int] == i);
                } else {
                    assert(old_out.contains(x));
                    let w = choose|q: int| 0 <= q < old_out.len() && old_out[q] == x;
                    if w < p {
                        assert(out@[w] == old_out[w]);
                    } else {
                        assert(out@[w + 1] == old_out[w]);
                    }
                }
            }
        }
        i = i + 1;
    }
    out
}

} // verus!
