//! The communities listing: the detected clusters of code symbols, largest
//! first, each with its size and a sample of its members' names.

use crate::cli::str_views;
use crate::parse::node_views;
use crate::text::{chars_of, lemma_lex_irreflexive, lemma_lex_total, lemma_lex_trans, lex_less, lex_lt};
use crate::types::{Node, NodeLabel, NodeV};
use vstd::prelude::*;

verus! {

/// How many distinct member names a community's sample shows at most.
pub const SAMPLE_NAMES: usize = 8;

/// Whether `a` comes before `b` in `str` order.
fn str_less(a: &str, b: &str) -> (r: bool)
    ensures
        r == lex_lt(a@, b@),
{
    lex_less(&chars_of(a), &chars_of(b))
}

/// The community a node is listed under: none for file nodes.
pub open spec fn counted_in(n: NodeV) -> Option<u32> {
    if n.label == NodeLabel::File {
        None
    } else {
        n.community
    }
}

/// Node `i` of `ns` is a member of community `c`.
pub open spec fn is_member(ns: Seq<NodeV>, c: u32, i: int) -> bool {
    0 <= i < ns.len() && counted_in(ns[i]) == Some(c)
}

/// Some member of community `c` is named `x`.
pub open spec fn named_member(ns: Seq<NodeV>, c: u32, x: Seq<char>) -> bool {
    exists|i: int| is_member(ns, c, i) && ns[i].name == x
}

/// The number of members of community `c` among `ns`.
pub open spec fn group_size(ns: Seq<NodeV>, c: u32) -> nat
    decreases ns.len(),
{
    if ns.len() == 0 {
        0
    } else {
        group_size(ns.drop_last(), c) + if counted_in(ns.last()) == Some(c) {
            1nat
        } else {
            0nat
        }
    }
}

/// The listing order: larger communities first, then smaller ids.
pub open spec fn ranks_before(a: (u32, nat), b: (u32, nat)) -> bool {
    a.1 > b.1 || (a.1 == b.1 && a.0 < b.0)
}

/// `s` is the sample of community `c`: the least distinct member names in
/// `str` order, ascending, as many as there are up to `SAMPLE_NAMES`.
pub open spec fn sample_ok(ns: Seq<NodeV>, c: u32, s: Seq<Seq<char>>) -> bool {
    &&& s.len() <= SAMPLE_NAMES
    &&& forall|a: int, b: int| 0 <= a < b < s.len() ==> lex_lt(#[trigger] s[a], #[trigger] s[b])
    &&& forall|k: int| 0 <= k < s.len() ==> named_member(ns, c, #[trigger] s[k])
    &&& forall|i: int| #[trigger] is_member(ns, c, i) && !s.contains(ns[i].name) ==> s.len() == SAMPLE_NAMES && lex_lt(s.last(), ns[i].name)
}

/// The community of a node, as listed.
fn listed_community(n: &Node) -> (r: Option<u32>)
    ensures
        r == counted_in(n@),
{
    if n.label == NodeLabel::File {
        None
    } else {
        n.community
    }
}

/// The sample of member names of community `c` among `nodes`.
pub fn sample_names(nodes: &Vec<Node>, c: u32) -> (r: Vec<String>)
    ensures
        sample_ok(node_views(nodes@), c, str_views(r@)),
{
    let ghost ns = node_views(nodes@);
    let mut out: Vec<String> = Vec::new();
    let ghost mut wit: Seq<int> = seq![];
    let mut done = false;
    while out.len() < SAMPLE_NAMES && !done
        invariant
            ns == node_views(nodes@),
            out@.len() <= SAMPLE_NAMES,
            wit.len() == out@.len(),
            forall|a: int, b: int| 0 <= a < b < out@.len() ==> lex_lt(#[trigger] out@[a]@, #[trigger] out@[b]@),
            forall|k: int| 0 <= k < out@.len() ==> is_member(ns, c, #[trigger] wit[k]) && ns[wit[k]].name == out@[k]@,
            forall|i: int| #[trigger] is_member(ns, c, i) && out@.len() > 0 && !lex_lt(out@.last()@, ns[i].name) ==> str_views(out@).contains(ns[i].name),
            done ==> forall|i: int| #[trigger] is_member(ns, c, i) ==> out@.len() > 0 && !lex_lt(out@.last()@, ns[i].name),
        decreases SAMPLE_NAMES - out@.len(), if done { 0int } else { 1int },
    {
        let mut best: Option<usize> = None;
        let n = nodes.len();
        for i in 0..n
            invariant
                n == nodes@.len(),
                ns == node_views(nodes@),
                out@.len() < SAMPLE_NAMES,
                best matches Some(j) ==> {
                    &&& j < i
                    &&& is_member(ns, c, j as int)
                    &&& (out@.len() == 0 || lex_lt(out@.last()@, ns[j as int].name))
                },
                forall|k: int| 0 <= k < i && #[trigger] is_member(ns, c, k) && (out@.len() == 0 || lex_lt(out@.last()@, ns[k].name)) ==> (best matches Some(j) && !lex_lt(ns[k].name, ns[j as int].name)),
        {
            proof {
                assert(ns[i as int] == nodes@[i as int]@);
            }
            if listed_community(&nodes[i]) == Some(c) {
                let after = out.len() == 0 || str_less(out[out.len() - 1].as_str(), nodes[i].name.as_str());
                if after {
                    match best {
                        None => {
                            proof {
                                lemma_lex_irreflexive(ns[i as int].name);
                            }
                            best = Some(i);
                        },
                        Some(j) => {
                            proof {
                                assert(ns[j as int] == nodes@[j as int]@);
                            }
                            if str_less(nodes[i].name.as_str(), nodes[j].name.as_str()) {
                                proof {
                                    lemma_lex_irreflexive(ns[i as int].name);
                                    assert forall|k: int| 0 <= k < i + 1 && #[trigger] is_member(ns, c, k) && (out@.len() == 0 || lex_lt(out@.last()@, ns[k].name)) implies !lex_lt(ns[k].name, ns[i as int].name) by {
                                        if k < i && lex_lt(ns[k].name, ns[i as int].name) {
                                            lemma_lex_trans(ns[k].name, ns[i as int].name, ns[j as int].name);
                                        }
                                    }
                                }
                                best = Some(i);
                            }
                        },
                    }
                }
            }
        }
        match best {
            None => {
                proof {
                    assert forall|i: int| #[trigger] is_member(ns, c, i) implies out@.len() > 0 && !lex_lt(out@.last()@, ns[i].name) by {
                        if out@.len() == 0 || lex_lt(out@.last()@, ns[i].name) {
                            assert(0 <= i < n);
                        }
                    }
                }
                done = true;
            },
            Some(j) => {
                let ghost old_out = out@;
                let name = nodes[j].name.clone();
                proof {
                    assert(ns[j as int] == nodes@[j as int]@);
                }
                out.push(name);
                proof {
                    wit = wit.push(j as int);
                    let new = ns[j as int].name;
                    assert(out@.last()@ == new);
                    assert forall|a: int, b: int| 0 <= a < b < out@.len() implies lex_lt(#[trigger] out@[a]@, #[trigger] out@[b]@) by {
                        if b == out@.len() - 1 && a < b - 1 {
                            assert(old_out[a] == out@[a]);
                            assert(lex_lt(old_out[a]@, old_out.last()@));
                            lemma_lex_trans(old_out[a]@, old_out.last()@, new);
                        } else if b < out@.len() - 1 {
                            assert(old_out[a] == out@[a]);
                            assert(old_out[b] == out@[b]);
                        }
                    }
                    assert forall|k: int| 0 <= k < out@.len() implies is_member(ns, c, #[trigger] wit[k]) && ns[wit[k]].name == out@[k]@ by {
                        if k < out@.len() - 1 {
                            assert(old_out[k] == out@[k]);
                        }
                    }
                    assert forall|i: int| #[trigger] is_member(ns, c, i) && out@.len() > 0 && !lex_lt(out@.last()@, ns[i].name) implies str_views(out@).contains(ns[i].name) by {
                        let x = ns[i].name;
                        assert(str_views(out@)[out@.len() - 1] == new);
                        if old_out.len() > 0 && !lex_lt(old_out.last()@, x) {
                            assert(str_views(old_out).contains(x));
                            let w = choose|q: int| 0 <= q < str_views(old_out).len() && str_views(old_out)[q] == x;
                            assert(str_views(out@)[w] == x);
                        } else {
                            assert(!lex_lt(x, new));
                            if x != new {
                                lemma_lex_total(x, new);
                            }
                        }
                    }
                }
            },
        }
    }
    proof {
        let s = str_views(out@);
        assert forall|a: int, b: int| 0 <= a < b < s.len() implies lex_lt(#[trigger] s[a], #[trigger] s[b]) by {
            assert(s[a] == out@[a]@);
            assert(s[b] == out@[b]@);
        }
        assert forall|k: int| 0 <= k < s.len() implies named_member(ns, c, #[trigger] s[k]) by {
            assert(is_member(ns, c, wit[k]) && ns[wit[k]].name == out@[k]@);
            assert(s[k] == out@[k]@);
        }
        assert forall|i: int| #[trigger] is_member(ns, c, i) && !s.contains(ns[i].name) implies s.len() == SAMPLE_NAMES && lex_lt(s.last(), ns[i].name) by {
            assert(s.last() == out@.last()@);
            if out@.len() > 0 && !lex_lt(out@.last()@, ns[i].name) {
                assert(s.contains(ns[i].name));
            }
        }
    }
    out
}

/// One line of the communities listing.
#[derive(Debug, Clone, PartialEq, Eq)]
pub struct CommunitySummary {
    pub id: u32,
    pub size: usize,
    pub sample: Vec<String>,
}

/// A listed community's place in the listing order.
pub open spec fn summary_key(s: CommunitySummary) -> (u32, nat) {
    (s.id, s.size as nat)
}

/// The ids of listed communities.
pub open spec fn summary_ids(r: Seq<CommunitySummary>) -> Seq<u32> {
    r.map_values(|s: CommunitySummary| s.id)
}

/// The ids of counted communities.
pub open spec fn group_ids(g: Seq<(u32, usize)>) -> Seq<u32> {
    g.map_values(|p: (u32, usize)| p.0)
}

proof fn lemma_group_size_bound(ns: Seq<NodeV>, c: u32)
    ensures
        group_size(ns, c) <= ns.len(),
    decreases ns.len(),
{
    if ns.len() > 0 {
        lemma_group_size_bound(ns.drop_last(), c);
    }
}

/// Each community among `nodes` once, with its number of members.
fn community_sizes(nodes: &Vec<Node>) -> (g: Vec<(u32, usize)>)
    ensures
        forall|a: int| 0 <= a < g@.len() ==> (#[trigger] g@[a]).1 == group_size(node_views(nodes@), g@[a].0) && g@[a].1 > 0,
        forall|a: int, b: int| 0 <= a < b < g@.len() ==> (#[trigger] g@[a]).0 != (#[trigger] g@[b]).0,
        forall|c: u32| #[trigger] group_size(node_views(nodes@), c) > 0 ==> group_ids(g@).contains(c),
{
    let ghost ns = node_views(nodes@);
    let mut g: Vec<(u32, usize)> = Vec::new();
    let n = nodes.len();
    let mut i: usize = 0;
    while i < n
        invariant
            n == nodes@.len(),
            i <= n,
            ns == node_views(nodes@),
            forall|a: int| 0 <= a < g@.len() ==> (#[trigger] g@[a]).1 == group_size(ns.take(i as int), g@[a].0) && g@[a].1 > 0,
            forall|a: int, b: int| 0 <= a < b < g@.len() ==> (#[trigger] g@[a]).0 != (#[trigger] g@[b]).0,
            forall|c: u32| #[trigger] group_size(ns.take(i as int), c) > 0 ==> group_ids(g@).contains(c),
        decreases n - i,
    {
        let ghost before = ns.take(i as int);
        let ghost after = ns.take(i + 1);
        proof {
            assert(after.drop_last() =~= before);
            assert(after.last() == nodes@[i as int]@);
            assert forall|c: u32| #[trigger] group_size(before, c) <= i by {
                lemma_group_size_bound(before, c);
            }
        }
        match listed_community(&nodes[i]) {
            None => {
                proof {
                    assert forall|c: u32| #[trigger] group_size(after, c) == group_size(before, c) by {}
                }
            },
            Some(c) => {
                let mut a: usize = 0;
                while a < g.len() && g[a].0 != c
                    invariant
                        a <= g@.len(),
                        forall|q: int| 0 <= q < a ==> (#[trigger] g@[q]).0 != c,
                    decreases g@.len() - a,
                {
                    a = a + 1;
                }
                if a < g.len() {
                    let ghost old_g = g@;
                    let cnt = g[a].1;
                    proof {
                        assert(cnt == group_size(before, c));
                    }
                    g.set(a, (c, cnt + 1));
                    proof {
                        assert forall|q: int| 0 <= q < g@.len() implies (#[trigger] g@[q]).1 == group_size(after, g@[q].0) && g@[q].1 > 0 by {
                            if q != a {
                                assert(old_g[q] == g@[q]);
                                assert(old_g[q].0 != c) by {
                                    if q < a {
                                    } else {
                                        assert(old_g[a as int].0 == c);
                                    }
                                }
                            }
                        }
                        assert forall|p: int, q: int| 0 <= p < q < g@.len() implies (#[trigger] g@[p]).0 != (#[trigger] g@[q]).0 by {
                            assert(g@[p].0 == old_g[p].0);
                            assert(g@[q].0 == old_g[q].0);
                        }
                        assert forall|d: u32| #[trigger] group_size(after, d) > 0 implies group_ids(g@).contains(d) by {
                            if d == c {
                                assert(group_ids(g@)[a as int] == c);
                            } else {
                                assert(group_size(after, d) == group_size(before, d));
                                assert(group_size(ns.take(i as int), d) > 0);
                                assert(group_ids(old_g).contains(d));
                                let w = choose|q: int| 0 <= q < group_ids(old_g).len() && group_ids(old_g)[q] == d;
                                assert(group_ids(g@)[w] == d);
                            }
                        }
                    }
                } else {
                    let ghost old_g = g@;
                    proof {
                        assert(group_size(before, c) == 0) by {
                            if group_size(before, c) > 0 {
                                assert(group_ids(old_g).contains(c));
                                let w = choose|q: int| 0 <= q < group_ids(old_g).len() && group_ids(old_g)[q] == c;
                                assert(old_g[w].0 == c);
                            }
                        }
                    }
                    g.push((c, 1));
                    proof {
                        assert forall|q: int| 0 <= q < g@.len() implies (#[trigger] g@[q]).1 == group_size(after, g@[q].0) && g@[q].1 > 0 by {
                            if q < old_g.len() {
                                assert(old_g[q] == g@[q]);
                            }
                        }
                        assert forall|p: int, q: int| 0 <= p < q < g@.len() implies (#[trigger] g@[p]).0 != (#[trigger] g@[q]).0 by {
                            if q < old_g.len() {
                                assert(old_g[p] == g@[p]);
                                assert(old_g[q] == g@[q]);
                            } else {
                                assert(old_g[p] == g@[p]);
                            }
                        }
                        assert forall|d: u32| #[trigger] group_size(after, d) > 0 implies group_ids(g@).contains(d) by {
                            if d == c {
                                assert(group_ids(g@)[old_g.len() as int] == c);
                            } else {
                                assert(group_size(after, d) == group_size(before, d));
                                assert(group_ids(old_g).contains(d));
                                let w = choose|q: int| 0 <= q < group_ids(old_g).len() && group_ids(old_g)[q] == d;
                                assert(group_ids(g@)[w] == d);
                            }
                        }
                    }
                }
            },
        }
        i = i + 1;
    }
    proof {
        assert(ns.take(n as int) =~= ns);
    }
    g
}

/// The listing key of counted community `k`.
pub open spec fn gkey(g: Seq<(u32, usize)>, k: int) -> (u32, nat) {
    (g[k].0, g[k].1 as nat)
}

/// `key` comes after the last listed community (or nothing is listed yet).
pub open spec fn after_last(out: Seq<CommunitySummary>, key: (u32, nat)) -> bool {
    out.len() == 0 || ranks_before(summary_key(out.last()), key)
}

/// The communities listing: the communities of the non-file nodes, larger
/// first and then by id, at most `limit` of them, each with its number of
/// members and its sample of member names.
pub fn community_summaries(nodes: &Vec<Node>, limit: usize) -> (r: Vec<CommunitySummary>)
    ensures
        r@.len() <= limit,
        forall|k: int| 0 <= k < r@.len() ==> {
            &&& group_size(node_views(nodes@), (#[trigger] r@[k]).id) > 0
            &&& r@[k].size == group_size(node_views(nodes@), r@[k].id)
            &&& sample_ok(node_views(nodes@), r@[k].id, str_views(r@[k].sample@))
        },
        forall|a: int, b: int| 0 <= a < b < r@.len() ==> ranks_before(summary_key(#[trigger] r@[a]), summary_key(#[trigger] r@[b])),
        forall|c: u32| #[trigger] group_size(node_views(nodes@), c) > 0 && !summary_ids(r@).contains(c) ==> {
            &&& r@.len() == limit
            &&& (r@.len() > 0 ==> ranks_before(summary_key(r@.last()), (c, group_size(node_views(nodes@), c))))
        },
{
    let ghost ns = node_views(nodes@);
    let g = community_sizes(nodes);
    let mut out: Vec<CommunitySummary> = Vec::new();
    let mut done = false;
    while out.len() < limit && !done
        invariant
            ns == node_views(nodes@),
            out@.len() <= limit,
            forall|a: int| 0 <= a < g@.len() ==> (#[trigger] g@[a]).1 == group_size(ns, g@[a].0) && g@[a].1 > 0,
            forall|a: int, b: int| 0 <= a < b < g@.len() ==> (#[trigger] g@[a]).0 != (#[trigger] g@[b]).0,
            forall|k: int| 0 <= k < out@.len() ==> {
                &&& group_size(ns, (#[trigger] out@[k]).id) > 0
                &&& out@[k].size == group_size(ns, out@[k].id)
                &&& sample_ok(ns, out@[k].id, str_views(out@[k].sample@))
            },
            forall|a: int, b: int| 0 <= a < b < out@.len() ==> ranks_before(summary_key(#[trigger] out@[a]), summary_key(#[trigger] out@[b])),
            forall|k: int| 0 <= k < g@.len() && !after_last(out@, #[trigger] gkey(g@, k)) ==> summary_ids(out@).contains(g@[k].0),
            done ==> forall|k: int| 0 <= k < g@.len() ==> !after_last(out@, #[trigger] gkey(g@, k)),
        decreases limit - out@.len(), if done { 0int } else { 1int },
    {
        let mut best: Option<usize> = None;
        let m = g.len();
        let mut a: usize = 0;
        while a < m
            invariant
                m == g@.len(),
                a <= m,
                best matches Some(j) ==> j < a && after_last(out@, gkey(g@, j as int)),
                best is None ==> forall|k: int| 0 <= k < a ==> !after_last(out@, #[trigger] gkey(g@, k)),
                best matches Some(j) ==> forall|k: int| 0 <= k < a && after_last(out@, #[trigger] gkey(g@, k)) ==> !ranks_before(gkey(g@, k), gkey(g@, j as int)),
            decreases m - a,
        {
            let id = g[a].0;
            let size = g[a].1;
            let after = if out.len() == 0 {
                true
            } else {
                let last_size = out[out.len() - 1].size;
                let last_id = out[out.len() - 1].id;
                last_size > size || (last_size == size && last_id < id)
            };
            proof {
                assert(after == after_last(out@, gkey(g@, a as int)));
            }
            if after {
                match best {
                    None => {
                        best = Some(a);
                    },
                    Some(j) => {
                        let bid = g[j].0;
                        let bsize = g[j].1;
                        if size > bsize || (size == bsize && id < bid) {
                            best = Some(a);
                        }
                    },
                }
            }
            a = a + 1;
        }
        match best {
            None => {
                done = true;
            },
            Some(j) => {
                let ghost old_out = out@;
                let id = g[j].0;
                let size = g[j].1;
                let sample = sample_names(nodes, id);
                out.push(CommunitySummary { id, size, sample });
                proof {
                    assert(out@.last().id == id);
                    assert(summary_key(out@.last()) == gkey(g@, j as int));
                    assert forall|k: int| 0 <= k < out@.len() implies {
                        &&& group_size(ns, (#[trigger] out@[k]).id) > 0
                        &&& out@[k].size == group_size(ns, out@[k].id)
                        &&& sample_ok(ns, out@[k].id, str_views(out@[k].sample@))
                    } by {
                        if k < old_out.len() {
                            assert(old_out[k] == out@[k]);
                        }
                    }
                    assert forall|p: int, q: int| 0 <= p < q < out@.len() implies ranks_before(summary_key(#[trigger] out@[p]), summary_key(#[trigger] out@[q])) by {
                        if q < old_out.len() {
                            assert(old_out[p] == out@[p]);
                            assert(old_out[q] == out@[q]);
                        } else {
                            assert(old_out[p] == out@[p]);
                            if p < old_out.len() - 1 {
                                assert(ranks_before(summary_key(old_out[p]), summary_key(old_out.last())));
                            }
                        }
                    }
                    assert forall|k: int| 0 <= k < g@.len() && !after_last(out@, #[trigger] gkey(g@, k)) implies summary_ids(out@).contains(g@[k].0) by {
                        assert(summary_ids(out@)[out@.len() - 1] == id);
                        if !after_last(old_out, gkey(g@, k)) {
                            assert(summary_ids(old_out).contains(g@[k].0));
                            let w = choose|q: int| 0 <= q < summary_ids(old_out).len() && summary_ids(old_out)[q] == g@[k].0;
                            assert(summary_ids(out@)[w] == g@[k].0);
                        } else if k != j {
                            assert(g@[k].0 != g@[j as int].0) by {
                                if k < j {
                                } else {
                                }
                            }
                        }
                    }
                }
            },
        }
    }
    proof {
        assert forall|c: u32| #[trigger] group_size(ns, c) > 0 && !summary_ids(out@).contains(c) implies {
            &&& out@.len() == limit
            &&& (out@.len() > 0 ==> ranks_before(summary_key(out@.last()), (c, group_size(ns, c))))
        } by {
            assert(group_ids(g@).contains(c));
            let w = choose|q: int| 0 <= q < group_ids(g@).len() && group_ids(g@)[q] == c;
            assert(g@[w].0 == c);
            assert(gkey(g@, w) == (c, group_size(ns, c)));
        }
    }
    out
}

} // verus!
