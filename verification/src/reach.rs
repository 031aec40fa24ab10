//! Reverse reachability over the graph's edges: who depends on a node within
//! a number of hops.

use crate::sgraph::neighbors_spec;
use vstd::prelude::*;

verus! {

/// Some edge goes from `x` to `y` (`x` depends on `y`).
pub open spec fn depends(edges: Seq<(int, int, Seq<char>)>, x: int, y: int) -> bool {
    exists|k: int| 0 <= k < edges.len() && (#[trigger] edges[k]).0 == x && edges[k].1 == y
}

/// `x` reaches `s` over at most `d` edges (`x` depends on `s`, directly or
/// transitively, within `d` hops; every node is within 0 hops of itself).
pub open spec fn within(edges: Seq<(int, int, Seq<char>)>, s: int, x: int, d: nat) -> bool
    decreases d,
{
    if d == 0 {
        x == s
    } else {
        within(edges, s, x, (d - 1) as nat) || exists|y: int|
            #![trigger depends(edges, x, y)]
            within(edges, s, y, (d - 1) as nat) && depends(edges, x, y)
    }
}

/// `x` is exactly `d` hops away: within `d` and not within `d - 1`.
pub open spec fn fresh(edges: Seq<(int, int, Seq<char>)>, s: int, x: int, d: nat) -> bool {
    within(edges, s, x, d) && (d == 0 || !within(edges, s, x, (d - 1) as nat))
}

pub proof fn lemma_within_mono(edges: Seq<(int, int, Seq<char>)>, s: int, x: int, d: nat, e: nat)
    requires
        d <= e,
        within(edges, s, x, d),
    ensures
        within(edges, s, x, e),
    decreases e - d,
{
    if d < e {
        lemma_within_mono(edges, s, x, d, (e - 1) as nat);
    }
}

/// One more hop adds exactly the nodes that depend on a node `d` hops away.
pub proof fn lemma_within_step(edges: Seq<(int, int, Seq<char>)>, s: int, x: int, d: nat)
    ensures
        within(edges, s, x, d + 1) <==> within(edges, s, x, d) || exists|y: int|
            #![trigger depends(edges, x, y)]
            fresh(edges, s, y, d) && depends(edges, x, y),
{
    if within(edges, s, x, d + 1) && !within(edges, s, x, d) {
        let y = choose|y: int| #![trigger depends(edges, x, y)] within(edges, s, y, d) && depends(edges, x, y);
        if d > 0 && within(edges, s, y, (d - 1) as nat) {
            assert(within(edges, s, x, d));
        }
        assert(fresh(edges, s, y, d));
    }
}

/// Once a hop adds nothing, no further hop does.
pub proof fn lemma_within_fixpoint(edges: Seq<(int, int, Seq<char>)>, s: int, d: nat, e: nat)
    requires
        d <= e,
        forall|x: int| #[trigger] within(edges, s, x, d + 1) ==> within(edges, s, x, d),
    ensures
        forall|x: int| #[trigger] within(edges, s, x, e) ==> within(edges, s, x, d),
    decreases e - d,
{
    if d < e {
        lemma_within_fixpoint(edges, s, d, (e - 1) as nat);
        assert forall|x: int| #[trigger] within(edges, s, x, e) implies within(edges, s, x, d) by {
            if !within(edges, s, x, (e - 1) as nat) {
                let y = choose|y: int|
                    #![trigger depends(edges, x, y)]
                    within(edges, s, y, (e - 1) as nat) && depends(edges, x, y);
                assert(within(edges, s, y, d));
                assert(within(edges, s, x, d + 1));
            }
        }
    }
}

/// Nodes within reach are the start or edge sources.
pub proof fn lemma_within_range(edges: Seq<(int, int, Seq<char>)>, s: int, x: int, d: nat, n: int)
    requires
        0 <= s < n,
        forall|k: int| 0 <= k < edges.len() ==> 0 <= (#[trigger] edges[k]).0 < n && 0 <= edges[k].1 < n,
        within(edges, s, x, d),
    ensures
        0 <= x < n,
    decreases d,
{
    if d > 0 && !within(edges, s, x, (d - 1) as nat) {
        let y = choose|y: int| #![trigger depends(edges, x, y)] within(edges, s, y, (d - 1) as nat) && depends(edges, x, y);
        let k = choose|k: int| 0 <= k < edges.len() && (#[trigger] edges[k]).0 == x && edges[k].1 == y;
    } else if d > 0 {
        lemma_within_range(edges, s, x, (d - 1) as nat, n);
    }
}

/// The incoming neighbors of `v` are exactly the nodes that depend on it.
pub proof fn lemma_incoming(edges: Seq<(int, int, Seq<char>)>, v: int)
    ensures
        forall|x: int| neighbors_spec(edges, v, true).contains(x) <==> depends(edges, x, v),
    decreases edges.len(),
{
    if edges.len() > 0 {
        let d = edges.drop_last();
        lemma_incoming(d, v);
        let e = edges.last();
        let r = neighbors_spec(d, v, true);
        let nb = neighbors_spec(edges, v, true);
        if e.1 == v {
            assert(nb == seq![e.0] + r);
        } else {
            assert(nb == r);
        }
        assert forall|x: int| nb.contains(x) <==> depends(edges, x, v) by {
            assert(r.contains(x) <==> depends(d, x, v));
            if nb.contains(x) {
                let i = choose|i: int| 0 <= i < nb.len() && nb[i] == x;
                if e.1 == v {
                    if i == 0 {
                        assert(edges[edges.len() - 1] == e);
                    } else {
                        assert(nb[i] == r[i - 1]);
                        assert(r.contains(x));
                        assert(depends(d, x, v));
                        let k = choose|k: int| 0 <= k < d.len() && (#[trigger] d[k]).0 == x && d[k].1 == v;
                        assert(edges[k] == d[k]);
                    }
                } else {
                    assert(nb[i] == r[i]);
                    assert(r.contains(x));
                    assert(depends(d, x, v));
                    let k = choose|k: int| 0 <= k < d.len() && (#[trigger] d[k]).0 == x && d[k].1 == v;
                    assert(edges[k] == d[k]);
                }
            }
            if depends(edges, x, v) {
                let k = choose|k: int| 0 <= k < edges.len() && (#[trigger] edges[k]).0 == x && edges[k].1 == v;
                if k == edges.len() - 1 {
                    assert(nb[0] == x);
                } else {
                    assert(d[k] == edges[k]);
                    assert(depends(d, x, v));
                    assert(r.contains(x));
                    let i = choose|i: int| 0 <= i < r.len() && r[i] == x;
                    if e.1 == v {
                        assert(nb[i + 1] == x);
                    } else {
                        assert(nb[i] == x);
                    }
                }
            }
        }
    }
}

} // verus!
