//! The command line's commands, and the two decisions taken on every run:
//! which project a command works on, and whether it must see a fresh graph.

use crate::text::str_eq;
use crate::types::NodeLabel;
use vstd::prelude::*;

verus! {

/// A `config` sub-action.
#[derive(Debug, Clone)]
pub enum ConfigAction {
    /// Show where the config files live.
    Path,
    /// Print a resolved value.
    Get { key: String },
    /// Set a value, globally or (`local`) for the project.
    SetValue { key: String, value: String, local: bool },
    /// Remove a value.
    Unset { key: String, local: bool },
    /// Open the config file in an editor.
    Edit { local: bool },
}

/// A command of the command line; paths are plain strings.
#[derive(Debug, Clone)]
pub enum Command {
    Init { repo: String, yes: bool, no_index: bool, no_mcp: bool, force: bool, print: bool, uninstall: bool },
    Scip { path: String },
    Config { action: Option<ConfigAction> },
    Status,
    Index { path: String, full: bool, scip: Option<String>, indexstore: bool },
    Search { term: String, path: String, limit: usize, rerank: bool, regex: bool },
    Trace { from: String, to: String, path: String },
    Impact { name: String, path: String, depth: usize },
    Callees { name: String, path: String },
    Routes { path: String },
    Projects,
    Gc { ttl_days: Option<u64>, all: bool, dry_run: bool },
    Query { sql: String, path: String, limit: usize },
    Communities { path: String, limit: usize },
    Important { path: String, limit: usize },
    Context { query: String, path: String, budget: usize },
    RenameSymbol { name: String, new_name: String, path: String, write: bool },
    Implementers { name: String, path: String },
    Callers { name: String, path: String },
    Ask { question: String, path: String },
    SemanticIndex { path: String },
    Semantic { query: String, path: String, limit: usize, hyde: bool },
    Doctor,
    Ingest { input: String, path: String },
    Install { print: bool, repo: String },
    Mcp { path: String },
}

/// The project root a command works on: its `path` (or `repo` for `init`
/// and the `scip` path); none for the commands that span all projects.
pub open spec fn project_of(cmd: Command) -> Option<Seq<char>> {
    match cmd {
        Command::Index { path, .. } => Some(path@),
        Command::Search { path, .. } => Some(path@),
        Command::Trace { path, .. } => Some(path@),
        Command::Impact { path, .. } => Some(path@),
        Command::Callees { path, .. } => Some(path@),
        Command::Routes { path } => Some(path@),
        Command::Query { path, .. } => Some(path@),
        Command::Communities { path, .. } => Some(path@),
        Command::Important { path, .. } => Some(path@),
        Command::Implementers { path, .. } => Some(path@),
        Command::Callers { path, .. } => Some(path@),
        Command::Ask { path, .. } => Some(path@),
        Command::SemanticIndex { path } => Some(path@),
        Command::Semantic { path, .. } => Some(path@),
        Command::Ingest { path, .. } => Some(path@),
        Command::Mcp { path } => Some(path@),
        Command::Context { path, .. } => Some(path@),
        Command::RenameSymbol { path, .. } => Some(path@),
        Command::Init { repo, .. } => Some(repo@),
        Command::Scip { path } => Some(path@),
        Command::Install { .. } => None,
        Command::Status => None,
        Command::Doctor => None,
        Command::Gc { .. } => None,
        Command::Projects => None,
        Command::Config { .. } => None,
    }
}

/// The read-only query commands, which must see a graph that agrees with the
/// working tree.
pub open spec fn is_fresh_query(cmd: Command) -> bool {
    match cmd {
        Command::Search { .. } | Command::Callers { .. } | Command::Callees { .. } | Command::Impact { .. }
        | Command::Trace { .. } | Command::Important { .. } | Command::Communities { .. }
        | Command::Routes { .. } | Command::Query { .. } | Command::Implementers { .. }
        | Command::Ask { .. } | Command::Semantic { .. } | Command::Context { .. }
        | Command::RenameSymbol { .. } => true,
        _ => false,
    }
}

/// The project root a command operates on (for TTL bookkeeping), if any.
pub fn project_path(cmd: &Command) -> (r: Option<String>)
    ensures
        match (r, project_of(*cmd)) {
            (Some(p), Some(q)) => p@ == q,
            (None, None) => true,
            _ => false,
        },
{
    match cmd {
        Command::Index { path, .. } | Command::Search { path, .. } | Command::Trace { path, .. }
        | Command::Impact { path, .. } | Command::Callees { path, .. } | Command::Routes { path }
        | Command::Query { path, .. } | Command::Communities { path, .. } | Command::Important { path, .. }
        | Command::Implementers { path, .. } | Command::Callers { path, .. } | Command::Ask { path, .. }
        | Command::SemanticIndex { path } | Command::Semantic { path, .. } | Command::Ingest { path, .. }
        | Command::Mcp { path } | Command::Context { path, .. } | Command::RenameSymbol { path, .. } => {
            Some(path.clone())
        },
        Command::Init { repo, .. } => Some(repo.clone()),
        Command::Scip { path } => Some(path.clone()),
        Command::Install { .. } | Command::Status | Command::Doctor | Command::Gc { .. } | Command::Projects
        | Command::Config { .. } => None,
    }
}

/// Read-only query commands that must see a fresh graph (auto-heal before
/// serving).
pub fn needs_fresh(cmd: &Command) -> (r: bool)
    ensures
        r == is_fresh_query(*cmd),
{
    match cmd {
        Command::Search { .. } | Command::Callers { .. } | Command::Callees { .. } | Command::Impact { .. }
        | Command::Trace { .. } | Command::Important { .. } | Command::Communities { .. }
        | Command::Routes { .. } | Command::Query { .. } | Command::Implementers { .. }
        | Command::Ask { .. } | Command::Semantic { .. } | Command::Context { .. }
        | Command::RenameSymbol { .. } => true,
        _ => false,
    }
}

/// The kinds of code symbol the context listing shows.
pub open spec fn code_label(l: NodeLabel) -> bool {
    l == NodeLabel::Function || l == NodeLabel::Method || l == NodeLabel::Class || l == NodeLabel::Interface
        || l == NodeLabel::Enum || l == NodeLabel::Type
}

/// Whether a node kind is a code symbol (function, method, class,
/// interface, enum, type).
pub fn is_code_label(l: NodeLabel) -> (r: bool)
    ensures
        r == code_label(l),
{
    match l {
        NodeLabel::Function | NodeLabel::Method | NodeLabel::Class | NodeLabel::Interface | NodeLabel::Enum
        | NodeLabel::Type => true,
        _ => false,
    }
}

/// The positions of the first `max` code symbols among search hits.
pub open spec fn code_seed_positions(labels: Seq<NodeLabel>, max: nat) -> Seq<int>
    decreases labels.len(),
{
    if labels.len() == 0 {
        Seq::empty()
    } else {
        let r = code_seed_positions(labels.drop_last(), max);
        if code_label(labels.last()) && r.len() < max {
            r.push(labels.len() - 1)
        } else {
            r
        }
    }
}

/// The context seeds: the positions of the first `max` search hits that are
/// code symbols.
pub fn code_seeds(labels: &Vec<NodeLabel>, max: usize) -> (r: Vec<usize>)
    ensures
        r@.map_values(|k: usize| k as int) == code_seed_positions(labels@, max as nat),
{
    let mut out: Vec<usize> = Vec::new();
    let n = labels.len();
    for i in 0..n
        invariant
            n == labels@.len(),
            out@.map_values(|k: usize| k as int) == code_seed_positions(labels@.take(i as int), max as nat),
    {
        proof {
            assert(labels@.take(i + 1).drop_last() =~= labels@.take(i as int));
            assert(labels@.take(i + 1).last() == labels@[i as int]);
        }
        if is_code_label(labels[i]) && out.len() < max {
            let ghost before = out@.map_values(|k: usize| k as int);
            out.push(i);
            proof {
                assert(out@.map_values(|k: usize| k as int) =~= before.push(i as int));
            }
        }
    }
    proof {
        assert(labels@.take(n as int) =~= labels@);
    }
    out
}

/// Whether `x` is among `ids`.
pub open spec fn listed(ids: Seq<Seq<char>>, x: Seq<char>) -> bool {
    exists|k: int| 0 <= k < ids.len() && ids[k] == x
}

/// The ranked ids that are not seeds, in rank order.
pub open spec fn ranked_rest(ranked: Seq<Seq<char>>, seeds: Seq<Seq<char>>) -> Seq<Seq<char>>
    decreases ranked.len(),
{
    if ranked.len() == 0 {
        Seq::empty()
    } else {
        let r = ranked_rest(ranked.drop_last(), seeds);
        if listed(seeds, ranked.last()) {
            r
        } else {
            r.push(ranked.last())
        }
    }
}

pub open spec fn str_views(v: Seq<String>) -> Seq<Seq<char>> {
    v.map_values(|s: String| s@)
}

/// The order the context listing walks: the seeds first (marked), then the
/// ranked ids that are not seeds.
pub fn context_order(seeds: &Vec<String>, ranked: &Vec<String>) -> (r: Vec<(String, bool)>)
    ensures
        ({
            let sv = str_views(seeds@);
            let rest = ranked_rest(str_views(ranked@), sv);
            &&& r@.len() == sv.len() + rest.len()
            &&& forall|k: int| 0 <= k < sv.len() ==> (#[trigger] r@[k]).0@ == sv[k] && r@[k].1
            &&& forall|k: int| 0 <= k < rest.len() ==> (#[trigger] r@[sv.len() + k]).0@ == rest[k] && !r@[sv.len() + k].1
        }),
{
    let ghost sv = str_views(seeds@);
    let ghost rv = str_views(ranked@);
    let mut out: Vec<(String, bool)> = Vec::new();
    let ns = seeds.len();
    for i in 0..ns
        invariant
            ns == seeds@.len(),
            sv == str_views(seeds@),
            out@.len() == i,
            forall|k: int| 0 <= k < i ==> (#[trigger] out@[k]).0@ == sv[k] && out@[k].1,
    {
        out.push((seeds[i].clone(), true));
    }
    let nr = ranked.len();
    for j in 0..nr
        invariant
            ns == seeds@.len(),
            nr == ranked@.len(),
            sv == str_views(seeds@),
            rv == str_views(ranked@),
            out@.len() == ns + ranked_rest(rv.take(j as int), sv).len(),
            forall|k: int| 0 <= k < ns ==> (#[trigger] out@[k]).0@ == sv[k] && out@[k].1,
            forall|k: int|
                0 <= k < ranked_rest(rv.take(j as int), sv).len() ==> (#[trigger] out@[ns + k]).0@ == ranked_rest(
                    rv.take(j as int),
                    sv,
                )[k] && !out@[ns + k].1,
    {
        proof {
            assert(rv.take(j + 1).drop_last() =~= rv.take(j as int));
            assert(rv.take(j + 1).last() == ranked@[j as int]@);
        }
        let mut seen = false;
        for k in 0..ns
            invariant
                ns == seeds@.len(),
                j < nr,
                nr == ranked@.len(),
                sv == str_views(seeds@),
                seen <==> exists|q: int| 0 <= q < k && sv[q] == ranked@[j as int]@,
        {
            proof {
                assert(sv[k as int] == seeds@[k as int]@);
            }
            if str_eq(seeds[k].as_str(), ranked[j].as_str()) {
                seen = true;
            }
        }
        if !seen {
            let ghost prev = ranked_rest(rv.take(j as int), sv);
            out.push((ranked[j].clone(), false));
            proof {
                assert(ranked_rest(rv.take(j + 1), sv) == prev.push(ranked@[j as int]@));
                assert forall|k: int| 0 <= k < prev.len() + 1 implies (#[trigger] out@[ns + k]).0@ == prev.push(
                    ranked@[j as int]@,
                )[k] && !out@[ns + k].1 by {
                    if k < prev.len() {
                        assert(prev.push(ranked@[j as int]@)[k] == prev[k]);
                    }
                }
            }
        } else {
            proof {
                assert(listed(sv, ranked@[j as int]@));
            }
        }
    }
    proof {
        assert(rv.take(nr as int) =~= rv);
    }
    out
}

/// Walking costs from `i` with `used` spent: the positions taken and the
/// total spent. Entries without a cost are passed over; the walk stops at the
/// first cost that would exceed the budget.
pub open spec fn budget_walk(costs: Seq<Option<usize>>, budget: nat, i: nat, used: nat) -> (Seq<int>, nat)
    decreases costs.len() - i,
{
    if i >= costs.len() {
        (Seq::empty(), used)
    } else {
        match costs[i as int] {
            None => budget_walk(costs, budget, i + 1, used),
            Some(c) => if used + c > budget {
                (Seq::empty(), used)
            } else {
                let (rest, u) = budget_walk(costs, budget, i + 1, (used + c) as nat);
                (seq![i as int] + rest, u)
            },
        }
    }
}

/// Take entries in order within `budget` (see `budget_walk`): the positions
/// taken and the total spent.
pub fn take_within_budget(costs: &Vec<Option<usize>>, budget: usize) -> (r: (Vec<usize>, usize))
    ensures
        r.0@.map_values(|k: usize| k as int) == budget_walk(costs@, budget as nat, 0, 0).0,
        r.1 == budget_walk(costs@, budget as nat, 0, 0).1,
{
    let ghost whole = budget_walk(costs@, budget as nat, 0, 0);
    let mut out: Vec<usize> = Vec::new();
    let mut used: usize = 0;
    let n = costs.len();
    let mut i: usize = 0;
    while i < n
        invariant
            n == costs@.len(),
            whole == budget_walk(costs@, budget as nat, 0, 0),
            i <= n,
            used <= budget,
            out@.map_values(|k: usize| k as int) + budget_walk(costs@, budget as nat, i as nat, used as nat).0
                == whole.0,
            budget_walk(costs@, budget as nat, i as nat, used as nat).1 == whole.1,
        ensures
            budget_walk(costs@, budget as nat, i as nat, used as nat).0.len() == 0,
            budget_walk(costs@, budget as nat, i as nat, used as nat).1 == used,
        decreases n - i,
    {
        match costs[i] {
            None => {
                i = i + 1;
            },
            Some(c) => {
                if c > budget - used {
                    break;
                }
                let ghost before = out@.map_values(|k: usize| k as int);
                let ghost rest = budget_walk(costs@, budget as nat, (i + 1) as nat, (used + c) as nat).0;
                out.push(i);
                proof {
                    assert(out@.map_values(|k: usize| k as int) =~= before.push(i as int));
                    assert(before.push(i as int) + rest =~= before + (seq![i as int] + rest));
                }
                used = used + c;
                i = i + 1;
            },
        }
    }
    proof {
        let w = budget_walk(costs@, budget as nat, i as nat, used as nat).0;
        assert(w =~= Seq::<int>::empty());
        assert(out@.map_values(|k: usize| k as int) + w =~= out@.map_values(|k: usize| k as int));
    }
    (out, used)
}

} // verus!
