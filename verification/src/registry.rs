//! Time-to-live bookkeeping of indexed projects: a registry of projects with
//! their graph database and last use, the sweep that reclaims the graphs of
//! projects idle past the TTL, and byte counts for people.

use crate::coverage::{decimal, push_decimal, push_str};
use crate::search::same_chars;
use crate::text::{trim_chars, trimmed, chars_of, lex_less, lex_lt, lemma_lex_irreflexive, lemma_lex_total, str_eq, string_of};
use vstd::prelude::*;

verus! {

pub const DEFAULT_TTL_DAYS: u64 = 30;

pub const SECS_PER_DAY: u64 = 86400;

/// The opportunistic sweep runs at most this often.
pub const GC_MIN_INTERVAL_SECS: u64 = 3600;

/// One project: its graph database, when it was last used and last indexed
/// (seconds since the epoch).
#[derive(Debug, Clone)]
pub struct Entry {
    pub db: String,
    pub last_touch: u64,
    pub indexed_at: u64,
}

pub struct EntryV {
    pub db: Seq<char>,
    pub last_touch: u64,
    pub indexed_at: u64,
}

impl View for Entry {
    type V = EntryV;

    open spec fn view(&self) -> EntryV {
        EntryV { db: self.db@, last_touch: self.last_touch, indexed_at: self.indexed_at }
    }
}

/// The projects, by key in ascending order, and when the last sweep ran.
#[derive(Debug, Clone)]
pub struct Registry {
    pub projects: Vec<(String, Entry)>,
    pub last_gc: u64,
}

pub open spec fn project_views(p: Seq<(String, Entry)>) -> Seq<(Seq<char>, EntryV)> {
    p.map_values(|e: (String, Entry)| (e.0@, e.1@))
}

/// Keys strictly ascending, so each project occurs once.
pub open spec fn keys_sorted(p: Seq<(Seq<char>, EntryV)>) -> bool {
    forall|a: int, b: int| 0 <= a < b < p.len() ==> lex_lt(p[a].0, p[b].0)
}

impl Registry {
    pub open spec fn wf(&self) -> bool {
        keys_sorted(project_views(self.projects@))
    }

    /// No project, never swept.
    pub fn new() -> (r: Registry)
        ensures
            r.projects@.len() == 0,
            r.last_gc == 0,
            r.wf(),
    {
        Registry { projects: Vec::new(), last_gc: 0 }
    }
}

/// What the file system says of a graph database: whether it exists, whether
/// its directory is one the sweep may delete (named `.codegraph`), and the
/// size of that directory.
#[derive(Debug, Clone)]
pub struct DbFacts {
    pub db: String,
    pub exists: bool,
    pub safe_dir: bool,
    pub bytes: u64,
}

/// What the sweep does with a project.
#[derive(Debug, Clone, Copy, PartialEq, Eq, Structural)]
pub enum Verdict {
    /// The graph is gone: the entry is dropped.
    Drop,
    /// Expired with a deletable directory: the graph is reclaimed.
    Reclaim,
    Keep,
}

/// The sweep's verdict on a project last used at `last_touch`.
pub open spec fn verdict_of(last_touch: u64, now: u64, ttl: u64, force_all: bool, exists: bool, safe_dir: bool) -> Verdict {
    let idle = if now >= last_touch {
        now - last_touch
    } else {
        0
    };
    if !exists {
        Verdict::Drop
    } else if (force_all || (ttl > 0 && idle > ttl)) && safe_dir {
        Verdict::Reclaim
    } else {
        Verdict::Keep
    }
}

/// The facts recorded for database `db`: the first entry for it.
pub open spec fn facts_for(facts: Seq<DbFacts>, db: Seq<char>) -> Option<DbFacts>
    decreases facts.len(),
{
    if facts.len() == 0 {
        None
    } else if facts[0].db@ == db {
        Some(facts[0])
    } else {
        facts_for(facts.drop_first(), db)
    }
}

/// The verdict on entry `e`.
pub open spec fn verdict_for(facts: Seq<DbFacts>, e: EntryV, now: u64, ttl: u64, force_all: bool) -> Verdict {
    match facts_for(facts, e.db) {
        Some(f) => verdict_of(e.last_touch, now, ttl, force_all, f.exists, f.safe_dir),
        None => Verdict::Drop,
    }
}

/// The entries the sweep keeps, in order.
pub open spec fn kept(facts: Seq<DbFacts>, p: Seq<(Seq<char>, EntryV)>, now: u64, ttl: u64, force_all: bool) -> Seq<(Seq<char>, EntryV)>
    decreases p.len(),
{
    if p.len() == 0 {
        seq![]
    } else {
        let r = kept(facts, p.drop_last(), now, ttl, force_all);
        if verdict_for(facts, p.last().1, now, ttl, force_all) == Verdict::Keep {
            r.push(p.last())
        } else {
            r
        }
    }
}

/// The projects the sweep reclaims, with the bytes of each, in order.
pub open spec fn reclaimed(facts: Seq<DbFacts>, p: Seq<(Seq<char>, EntryV)>, now: u64, ttl: u64, force_all: bool) -> Seq<(Seq<char>, u64)>
    decreases p.len(),
{
    if p.len() == 0 {
        seq![]
    } else {
        let r = reclaimed(facts, p.drop_last(), now, ttl, force_all);
        if verdict_for(facts, p.last().1, now, ttl, force_all) == Verdict::Reclaim {
            r.push((p.last().0, facts_for(facts, p.last().1.db)->0.bytes))
        } else {
            r
        }
    }
}

/// Total bytes, saturating at `u64::MAX`.
pub open spec fn total_bytes(r: Seq<(Seq<char>, u64)>) -> u64
    decreases r.len(),
{
    if r.len() == 0 {
        0
    } else {
        let t = total_bytes(r.drop_last()) as int + r.last().1 as int;
        if t > u64::MAX {
            u64::MAX
        } else {
            t as u64
        }
    }
}

/// What a sweep reclaimed.
#[derive(Debug, Clone)]
pub struct GcReport {
    pub removed: Vec<(String, u64)>,
    pub freed_bytes: u64,
}

pub open spec fn removed_views(r: Seq<(String, u64)>) -> Seq<(Seq<char>, u64)> {
    r.map_values(|e: (String, u64)| (e.0@, e.1))
}

/// The facts recorded for `db`.
fn lookup_facts(facts: &Vec<DbFacts>, db: &str) -> (r: Option<usize>)
    ensures
        match r {
            Some(k) => k < facts@.len() && facts_for(facts@, db@) == Some(facts@[k as int]),
            None => facts_for(facts@, db@) is None,
        },
{
    let n = facts.len();
    proof {
        assert(facts@.skip(0) =~= facts@);
    }
    for j in 0..n
        invariant
            n == facts@.len(),
            facts_for(facts@, db@) == facts_for(facts@.skip(j as int), db@),
    {
        proof {
            assert(facts@.skip(j as int)[0] == facts@[j as int]);
            assert(facts@.skip(j as int).drop_first() =~= facts@.skip(j + 1));
        }
        if str_eq(facts[j].db.as_str(), db) {
            return Some(j);
        }
    }
    None
}

/// Sweep the registry: entries whose graph is gone are dropped; expired ones
/// (idle longer than `ttl`, or all with `force_all`; `ttl == 0` disables
/// the time rule) whose directory may be deleted are reclaimed and reported
/// with their size; the others are kept.
pub fn sweep(reg: &mut Registry, facts: &Vec<DbFacts>, now: u64, ttl: u64, force_all: bool) -> (r: GcReport)
    requires
        old(reg).wf(),
    ensures
        final(reg).wf(),
        final(reg).last_gc == old(reg).last_gc,
        project_views(final(reg).projects@) == kept(facts@, project_views(old(reg).projects@), now, ttl, force_all),
        removed_views(r.removed@) == reclaimed(facts@, project_views(old(reg).projects@), now, ttl, force_all),
        r.freed_bytes == total_bytes(removed_views(r.removed@)),
{
    let ghost p = project_views(reg.projects@);
    let mut keep: Vec<(String, Entry)> = Vec::new();
    let mut removed: Vec<(String, u64)> = Vec::new();
    let mut freed: u64 = 0;
    let n = reg.projects.len();
    for i in 0..n
        invariant
            n == reg.projects@.len(),
            p == project_views(reg.projects@),
            keys_sorted(p),
            project_views(keep@) == kept(facts@, p.take(i as int), now, ttl, force_all),
            removed_views(removed@) == reclaimed(facts@, p.take(i as int), now, ttl, force_all),
            freed == total_bytes(removed_views(removed@)),
    {
        let (key, e) = (&reg.projects[i].0, &reg.projects[i].1);
        proof {
            assert(p.take(i + 1).drop_last() =~= p.take(i as int));
            assert(p.take(i + 1).last() == p[i as int]);
            assert(p[i as int] == (key@, e@));
        }
        let f = lookup_facts(facts, e.db.as_str());
        let idle = if now >= e.last_touch { now - e.last_touch } else { 0 };
        let (v, b) = match f {
            None => (Verdict::Drop, 0u64),
            Some(k) => {
                let v = if !facts[k].exists {
                    Verdict::Drop
                } else if (force_all || (ttl > 0 && idle > ttl)) && facts[k].safe_dir {
                    Verdict::Reclaim
                } else {
                    Verdict::Keep
                };
                (v, facts[k].bytes)
            },
        };
        match v {
            Verdict::Keep => {
                let ghost before = project_views(keep@);
                keep.push((key.clone(), Entry { db: e.db.clone(), last_touch: e.last_touch, indexed_at: e.indexed_at }));
                proof {
                    assert(project_views(keep@) =~= before.push((key@, e@)));
                }
            },
            Verdict::Reclaim => {
                let ghost before = removed_views(removed@);
                removed.push((key.clone(), b));
                proof {
                    assert(removed_views(removed@) =~= before.push((key@, b)));
                    assert(removed_views(removed@).drop_last() =~= before);
                }
                freed = if freed > u64::MAX - b {
                    u64::MAX
                } else {
                    freed + b
                };
            },
            Verdict::Drop => {},
        }
    }
    proof {
        assert(p.take(n as int) =~= p);
        lemma_kept_sorted(facts@, p, now, ttl, force_all);
    }
    reg.projects = keep;
    GcReport { removed, freed_bytes: freed }
}

/// Keeping a subsequence keeps the keys sorted.
proof fn lemma_kept_sorted(facts: Seq<DbFacts>, p: Seq<(Seq<char>, EntryV)>, now: u64, ttl: u64, force_all: bool)
    requires
        keys_sorted(p),
    ensures
        keys_sorted(kept(facts, p, now, ttl, force_all)),
        forall|k: int| 0 <= k < kept(facts, p, now, ttl, force_all).len() ==> p.contains(
            #[trigger] kept(facts, p, now, ttl, force_all)[k],
        ),
    decreases p.len(),
{
    if p.len() > 0 {
        let d = p.drop_last();
        assert(keys_sorted(d));
        lemma_kept_sorted(facts, d, now, ttl, force_all);
        let r = kept(facts, d, now, ttl, force_all);
        assert forall|k: int| 0 <= k < r.len() implies p.contains(#[trigger] r[k]) by {
            let j = choose|j: int| 0 <= j < d.len() && d[j] == r[k];
            assert(p[j] == d[j]);
        }
        if verdict_for(facts, p.last().1, now, ttl, force_all) == Verdict::Keep {
            let r2 = r.push(p.last());
            assert forall|a: int, b: int| 0 <= a < b < r2.len() implies lex_lt(r2[a].0, r2[b].0) by {
                if b == r.len() {
                    let j = choose|j: int| 0 <= j < d.len() && d[j] == r[a];
                    assert(p[j] == r[a]);
                    assert(p[p.len() - 1] == p.last());
                }
            }
            assert forall|k: int| 0 <= k < r2.len() implies p.contains(#[trigger] r2[k]) by {
                if k == r.len() {
                    assert(p[p.len() - 1] == r2[k]);
                }
            }
        }
    }
}

/// The TTL of an explicit sweep: the override, else the configured TTL,
/// else (when that is 0, which disables the automatic sweep) the default.
pub open spec fn gc_ttl(ttl_override: Option<u64>, env_ttl: u64) -> u64 {
    match ttl_override {
        Some(t) => t,
        None => if env_ttl == 0 {
            (DEFAULT_TTL_DAYS * SECS_PER_DAY) as u64
        } else {
            env_ttl
        },
    }
}

/// The projects an explicit sweep keeps (`dry_run` only decides whether the
/// sweep is recorded, see `gc_last`).
pub open spec fn gc_kept(facts: Seq<DbFacts>, p: Seq<(Seq<char>, EntryV)>, now: u64, ttl_override: Option<u64>, env_ttl: u64, force_all: bool, dry_run: bool) -> Seq<(Seq<char>, EntryV)> {
    kept(facts, p, now, gc_ttl(ttl_override, env_ttl), force_all)
}

/// What an explicit sweep reports as reclaimed.
pub open spec fn gc_reclaimed(facts: Seq<DbFacts>, p: Seq<(Seq<char>, EntryV)>, now: u64, ttl_override: Option<u64>, env_ttl: u64, force_all: bool, dry_run: bool) -> Seq<(Seq<char>, u64)> {
    reclaimed(facts, p, now, gc_ttl(ttl_override, env_ttl), force_all)
}

/// The last-sweep time after an explicit sweep: unchanged by a dry run.
pub open spec fn gc_last(last_gc: u64, now: u64, dry_run: bool) -> u64 {
    if dry_run {
        last_gc
    } else {
        now
    }
}

/// An explicit sweep (`codegraph gc`): with the TTL as `gc_ttl` says; unless
/// a dry run, it is recorded as the last sweep.
pub fn run_gc(
    reg: &mut Registry,
    facts: &Vec<DbFacts>,
    ttl_override: Option<u64>,
    env_ttl: u64,
    force_all: bool,
    dry_run: bool,
    now: u64,
) -> (r: GcReport)
    requires
        old(reg).wf(),
    ensures
        final(reg).wf(),
        final(reg).last_gc == gc_last(old(reg).last_gc, now, dry_run),
        project_views(final(reg).projects@) == gc_kept(
            facts@,
            project_views(old(reg).projects@),
            now,
            ttl_override,
            env_ttl,
            force_all,
            dry_run,
        ),
        removed_views(r.removed@) == gc_reclaimed(
            facts@,
            project_views(old(reg).projects@),
            now,
            ttl_override,
            env_ttl,
            force_all,
            dry_run,
        ),
        r.freed_bytes == total_bytes(removed_views(r.removed@)),
{
    let ttl = match ttl_override {
        Some(t) => t,
        None => if env_ttl == 0 {
            DEFAULT_TTL_DAYS * SECS_PER_DAY
        } else {
            env_ttl
        },
    };
    let report = sweep(reg, facts, now, ttl, force_all);
    if !dry_run {
        reg.last_gc = now;
    }
    report
}

/// The registry with project `key` stamped as used at `now` with database
/// `db` (and as indexed at `now` when `indexed`); a new project is inserted
/// in key order with an index time of 0.
pub open spec fn touched(p: Seq<(Seq<char>, EntryV)>, key: Seq<char>, db: Seq<char>, indexed: bool, now: u64) -> Seq<(Seq<char>, EntryV)>
    decreases p.len(),
{
    if p.len() == 0 {
        seq![(key, EntryV { db: db, last_touch: now, indexed_at: if indexed { now } else { 0 } })]
    } else if p[0].0 == key {
        p.update(0, (key, EntryV { db: db, last_touch: now, indexed_at: if indexed { now } else { p[0].1.indexed_at } }))
    } else if lex_lt(key, p[0].0) {
        seq![(key, EntryV { db: db, last_touch: now, indexed_at: if indexed { now } else { 0 } })] + p
    } else {
        seq![p[0]] + touched(p.drop_first(), key, db, indexed, now)
    }
}

/// Stamp project `key` as used (see `touched`).
fn touch(reg: &mut Registry, key: &str, db: &str, indexed: bool, now: u64)
    requires
        old(reg).wf(),
    ensures
        project_views(final(reg).projects@) == touched(project_views(old(reg).projects@), key@, db@, indexed, now),
        final(reg).wf(),
        final(reg).last_gc == old(reg).last_gc,
{
    let ghost p0 = project_views(reg.projects@);
    let kc = chars_of(key);
    let n = reg.projects.len();
    let mut i: usize = 0;
    proof {
        assert(p0.skip(0) =~= p0);
        assert(p0.take(0) + touched(p0.skip(0), key@, db@, indexed, now) =~= touched(p0, key@, db@, indexed, now));
    }
    while i < n && !str_eq(reg.projects[i].0.as_str(), key) && lex_less(&chars_of(reg.projects[i].0.as_str()), &kc)
        invariant
            n == reg.projects@.len(),
            p0 == project_views(reg.projects@),
            kc@ == key@,
            i <= n,
            p0.take(i as int) + touched(p0.skip(i as int), key@, db@, indexed, now) == touched(p0, key@, db@, indexed, now),
            forall|q: int| 0 <= q < i ==> lex_lt(#[trigger] p0[q].0, key@),
        decreases n - i,
    {
        proof {
            let rest = p0.skip(i as int);
            assert(rest[0] == p0[i as int]);
            lemma_lex_irreflexive(key@);
            if lex_lt(key@, rest[0].0) {
                lemma_lex_total(key@, rest[0].0);
            }
            assert(rest.drop_first() =~= p0.skip(i + 1));
            assert(p0.take(i + 1) =~= p0.take(i as int).push(rest[0]));
            assert(p0.take(i + 1) + touched(p0.skip(i + 1), key@, db@, indexed, now) =~= p0.take(i as int) + touched(
                rest,
                key@,
                db@,
                indexed,
                now,
            ));
        }
        i = i + 1;
    }
    let ghost rest = p0.skip(i as int);
    if i < n && str_eq(reg.projects[i].0.as_str(), key) {
        let old_ix = reg.projects[i].1.indexed_at;
        let e = Entry { db: db.to_owned(), last_touch: now, indexed_at: if indexed { now } else { old_ix } };
        reg.projects.set(i, (key.to_owned(), e));
        proof {
            assert(rest[0] == p0[i as int]);
            assert(project_views(reg.projects@) =~= p0.take(i as int) + rest.update(
                0,
                (key@, EntryV { db: db@, last_touch: now, indexed_at: if indexed { now } else { rest[0].1.indexed_at } }),
            ));
            assert forall|a: int, b: int| 0 <= a < b < project_views(reg.projects@).len() implies lex_lt(
                project_views(reg.projects@)[a].0,
                project_views(reg.projects@)[b].0,
            ) by {
                assert(project_views(reg.projects@)[a].0 == p0[a].0);
                assert(project_views(reg.projects@)[b].0 == p0[b].0);
            }
        }
    } else {
        proof {
            if i < n {
                assert(rest[0] == p0[i as int]);
                assert(lex_lt(key@, rest[0].0)) by {
                    lemma_lex_total(key@, rest[0].0);
                }
            } else {
                assert(rest =~= Seq::<(Seq<char>, EntryV)>::empty());
            }
        }
        let e = Entry { db: db.to_owned(), last_touch: now, indexed_at: if indexed { now } else { 0 } };
        reg.projects.insert(i, (key.to_owned(), e));
        proof {
            let item = (key@, EntryV { db: db@, last_touch: now, indexed_at: if indexed { now } else { 0 } });
            assert(project_views(reg.projects@) =~= p0.take(i as int) + (seq![item] + rest));
            let pv = project_views(reg.projects@);
            assert forall|a: int, b: int| 0 <= a < b < pv.len() implies lex_lt(pv[a].0, pv[b].0) by {
                if b < i {
                    assert(pv[a] == p0[a] && pv[b] == p0[b]);
                } else if b == i {
                    assert(pv[a] == p0[a]);
                } else if a < i {
                    assert(pv[a] == p0[a]);
                    assert(pv[b] == p0[b - 1]);
                    assert(lex_lt(key@, p0[i as int].0));
                    if b - 1 > i {
                        crate::text::lemma_lex_trans(key@, p0[i as int].0, p0[b - 1].0);
                    }
                    crate::text::lemma_lex_trans(p0[a].0, key@, p0[b - 1].0);
                } else if a == i {
                    assert(pv[b] == p0[b - 1]);
                    if b - 1 > i {
                        crate::text::lemma_lex_trans(key@, p0[i as int].0, p0[b - 1].0);
                    }
                } else {
                    assert(pv[a] == p0[a - 1] && pv[b] == p0[b - 1]);
                }
            }
        }
    }
}

/// Startup housekeeping: stamp the current project (key, database, whether
/// this run indexes it) as used; then, when the TTL is on and the last sweep
/// is more than an hour old, sweep with the TTL and record the sweep. Returns
/// what that sweep reclaimed, when it ran.
pub fn housekeeping(reg: &mut Registry, current: Option<(String, String, bool)>, facts: &Vec<DbFacts>, ttl: u64, now: u64) -> (r: Option<GcReport>)
    requires
        old(reg).wf(),
    ensures
        final(reg).wf(),
        ({
            let p1 = match current {
                Some(c) => touched(project_views(old(reg).projects@), c.0@, c.1@, c.2, now),
                None => project_views(old(reg).projects@),
            };
            let due = ttl > 0 && (if now >= old(reg).last_gc {
                now - old(reg).last_gc
            } else {
                0
            }) > GC_MIN_INTERVAL_SECS;
            &&& due ==> project_views(final(reg).projects@) == kept(facts@, p1, now, ttl, false)
                && final(reg).last_gc == now
                && (r matches Some(g) && removed_views(g.removed@) == reclaimed(facts@, p1, now, ttl, false)
                && g.freed_bytes == total_bytes(removed_views(g.removed@)))
            &&& !due ==> project_views(final(reg).projects@) == p1 && final(reg).last_gc == old(reg).last_gc
                && r is None
        }),
{
    match &current {
        Some(c) => touch(reg, c.0.as_str(), c.1.as_str(), c.2, now),
        None => {},
    }
    let since = if now >= reg.last_gc { now - reg.last_gc } else { 0 };
    if ttl > 0 && since > GC_MIN_INTERVAL_SECS {
        let report = sweep(reg, facts, now, ttl, false);
        reg.last_gc = now;
        Some(report)
    } else {
        None
    }
}

/// Doubles carry 53 significant bits.
pub open spec fn two53() -> nat {
    9007199254740992
}

/// The least power of two `p >= start` (up to 2048) with `b < p * 2^53`.
pub open spec fn grain_from(b: nat, p: nat) -> nat
    decreases 4096 - p,
{
    if p >= 2048 || p == 0 || b < p * two53() {
        p
    } else {
        grain_from(b, p * 2)
    }
}

/// `b` rounded to the nearest double (ties to even), as an integer.
pub open spec fn as_double(b: nat) -> nat {
    if b < two53() {
        b
    } else {
        let p = grain_from(b, 2);
        let m = b / p;
        let r = b % p;
        let h = p / 2;
        let m2 = if r > h || (r == h && m % 2 == 1) {
            m + 1
        } else {
            m
        };
        m2 * p
    }
}

/// The unit a byte count is shown in (by its double value `f >= 1024`):
/// 1 for KB, 2 for MB, 3 for GB.
pub open spec fn unit_index(f: nat) -> nat {
    if f >= 1073741824 {
        3
    } else if f >= 1048576 {
        2
    } else {
        1
    }
}

pub open spec fn unit_size(i: nat) -> nat {
    if i == 3 {
        1073741824
    } else if i == 2 {
        1048576
    } else {
        1024
    }
}

pub open spec fn unit_name(i: nat) -> Seq<char> {
    if i == 3 {
        "GB"@
    } else if i == 2 {
        "MB"@
    } else {
        "KB"@
    }
}

/// `x / d` rounded to the nearest integer, ties to even.
pub open spec fn div_round_even(x: nat, d: nat) -> nat {
    let q = x / d;
    let r = x % d;
    if 2 * r > d || (2 * r == d && q % 2 == 1) {
        q + 1
    } else {
        q
    }
}

/// A byte count for people: `N B` below 1024, else the value in KB, MB or
/// GB with one decimal (the byte count taken as a double, rounded to the
/// nearest tenth, ties to even).
pub open spec fn human_bytes_of(b: nat) -> Seq<char> {
    if b < 1024 {
        decimal(b) + " B"@
    } else {
        let f = as_double(b);
        let i = unit_index(f);
        let tenths = div_round_even(f * 10, unit_size(i));
        decimal(tenths / 10) + "."@ + decimal(tenths % 10) + " "@ + unit_name(i)
    }
}

/// Append the decimal notation of `n`.
fn push_decimal_u64(out: &mut Vec<char>, n: u64)
    ensures
        final(out)@ == old(out)@ + decimal(n as nat),
    decreases n,
{
    if n >= 10 {
        push_decimal_u64(out, n / 10);
    }
    let d: u8 = (n % 10) as u8;
    out.push((48u8 + d) as char);
    proof {
        assert(((48u8 + d) as char) == crate::coverage::digit_char((n % 10) as nat));
    }
}

/// How long a project has been idle, for people: whole minutes under an
/// hour, whole hours under a day, else whole days (`42m`, `5h`, `3d`).
pub open spec fn idle_label_of(secs: nat) -> Seq<char> {
    if secs < 3600 {
        decimal(secs / 60) + "m"@
    } else if secs < 86400 {
        decimal(secs / 3600) + "h"@
    } else {
        decimal(secs / 86400) + "d"@
    }
}

/// An idle time for people (see `idle_label_of`).
pub fn idle_label(secs: u64) -> (r: String)
    ensures
        r@ == idle_label_of(secs as nat),
{
    let mut out: Vec<char> = Vec::new();
    if secs < 3600 {
        push_decimal_u64(&mut out, secs / 60);
        push_str(&mut out, "m");
    } else if secs < 86400 {
        push_decimal_u64(&mut out, secs / 3600);
        push_str(&mut out, "h");
    } else {
        push_decimal_u64(&mut out, secs / 86400);
        push_str(&mut out, "d");
    }
    string_of(&out)
}

/// A byte count for people (see `human_bytes_of`).
pub fn human_bytes(b: u64) -> (r: String)
    ensures
        r@ == human_bytes_of(b as nat),
{
    let mut out: Vec<char> = Vec::new();
    if b < 1024 {
        push_decimal_u64(&mut out, b);
        push_str(&mut out, " B");
        return string_of(&out);
    }
    let bb = b as u128;
    let f: u128 = if bb < 9007199254740992 {
        bb
    } else {
        let mut p: u128 = 2;
        while p < 2048 && bb >= p * 9007199254740992
            invariant
                2 <= p <= 2048,
                p == 2 || p == 4 || p == 8 || p == 16 || p == 32 || p == 64 || p == 128 || p == 256 || p == 512
                    || p == 1024 || p == 2048,
                grain_from(b as nat, 2) == grain_from(b as nat, p as nat),
                bb == b as u128,
            decreases 4096 - p,
        {
            p = p * 2;
        }
        let m = bb / p;
        let r = bb % p;
        let h = p / 2;
        let m2 = if r > h || (r == h && m % 2 == 1) {
            m + 1
        } else {
            m
        };
        assert(m2 * p <= 36893488147419103232u128) by (nonlinear_arith)
            requires
                m == bb / p,
                m2 <= m + 1,
                2 <= p <= 2048,
                bb < 18446744073709551616u128,
        ;
        m2 * p
    };
    proof {
        assert(f == as_double(b as nat));
    }
    let (d, name): (u128, &str) = if f >= 1073741824 {
        (1073741824, "GB")
    } else if f >= 1048576 {
        (1048576, "MB")
    } else {
        (1024, "KB")
    };
    let x = f * 10;
    let q0 = x / d;
    let rem = x % d;
    let q = if 2 * rem > d || (2 * rem == d && q0 % 2 == 1) {
        q0 + 1
    } else {
        q0
    };
    assert(q <= 400000000000000000u128) by (nonlinear_arith)
        requires
            q0 == x / d,
            q <= q0 + 1,
            d >= 1024,
            x <= 368934881474191032320u128,
    ;
    push_decimal_u64(&mut out, (q / 10) as u64);
    push_str(&mut out, ".");
    push_decimal_u64(&mut out, (q % 10) as u64);
    push_str(&mut out, " ");
    push_str(&mut out, name);
    proof {
        assert(out@ =~= human_bytes_of(b as nat));
    }
    string_of(&out)
}

/// The value of decimal digits.
pub open spec fn digits_value(s: Seq<char>) -> nat
    decreases s.len(),
{
    if s.len() == 0 {
        0
    } else {
        digits_value(s.drop_last()) * 10 + ((s.last() as u32) - 48) as nat
    }
}

pub open spec fn all_digits(s: Seq<char>) -> bool {
    forall|i: int| 0 <= i < s.len() ==> '0' <= #[trigger] s[i] <= '9'
}

/// `u64::from_str`: an optional `+`, then at least one decimal digit, with
/// a value that fits.
pub open spec fn parse_u64_of(s: Seq<char>) -> Option<u64> {
    let d = if s.len() > 0 && s[0] == '+' {
        s.drop_first()
    } else {
        s
    };
    if d.len() > 0 && all_digits(d) && digits_value(d) <= u64::MAX {
        Some(digits_value(d) as u64)
    } else {
        None
    }
}

/// Parse a `u64` (see `parse_u64_of`).
pub fn parse_u64(s: &Vec<char>) -> (r: Option<u64>)
    ensures
        r == parse_u64_of(s@),
{
    let start: usize = if s.len() > 0 && s[0] == '+' { 1 } else { 0 };
    let ghost d = if s@.len() > 0 && s@[0] == '+' {
        s@.drop_first()
    } else {
        s@
    };
    proof {
        assert(d =~= s@.skip(start as int));
    }
    if start >= s.len() {
        return None;
    }
    let mut v: u64 = 0;
    let n = s.len();
    for i in start..n
        invariant
            n == s@.len(),
            start <= n,
            d == s@.skip(start as int),
            d == (if s@.len() > 0 && s@[0] == '+' {
                s@.drop_first()
            } else {
                s@
            }),
            all_digits(d.take(i - start)),
            v as nat == digits_value(d.take(i - start)),
    {
        proof {
            assert(d.take(i + 1 - start).drop_last() =~= d.take(i - start));
            assert(d.take(i + 1 - start).last() == s@[i as int]);
        }
        let c = s[i];
        if !('0' <= c && c <= '9') {
            proof {
                assert(d[i - start] == c);
            }
            return None;
        }
        let dg = (c as u32 - 48) as u64;
        if v > (u64::MAX - dg) / 10 {
            proof {
                lemma_digits_prefix(d, i + 1 - start);
                assert(digits_value(d.take(i + 1 - start)) > u64::MAX) by (nonlinear_arith)
                    requires
                        digits_value(d.take(i + 1 - start)) == v * 10 + dg,
                        v > (u64::MAX - dg) / 10,
                        dg <= 9,
                ;
            }
            return None;
        }
        v = v * 10 + dg;
        proof {
            assert forall|q: int| 0 <= q < d.take(i + 1 - start).len() implies '0' <= #[trigger] d.take(i + 1 - start)[q]
                <= '9' by {
                if q < i - start {
                    assert(d.take(i + 1 - start)[q] == d.take(i - start)[q]);
                }
            }
        }
    }
    proof {
        assert(d.take(n - start) =~= d);
    }
    Some(v)
}

/// A longer prefix of digits has a value at least as large.
proof fn lemma_digits_prefix(s: Seq<char>, k: int)
    requires
        0 <= k <= s.len(),
    ensures
        digits_value(s.take(k)) <= digits_value(s) || !all_digits(s),
    decreases s.len() - k,
{
    if k < s.len() {
        lemma_digits_prefix(s, k + 1);
        assert(s.take(k + 1).drop_last() =~= s.take(k));
        if all_digits(s) {
            assert('0' <= s[k] <= '9');
            assert(s.take(k + 1).last() == s[k]);
        }
    } else {
        assert(s.take(k) =~= s);
    }
}

/// The TTL in seconds from the days setting (`CODEGRAPH_TTL_DAYS`): its
/// trimmed value parsed, else the default; `0` disables the automatic sweep.
pub open spec fn ttl_of_setting(v: Option<Seq<char>>) -> u64 {
    let days = match v {
        Some(s) => match parse_u64_of(trimmed(s)) {
            Some(d) => d,
            None => DEFAULT_TTL_DAYS,
        },
        None => DEFAULT_TTL_DAYS,
    };
    if days * SECS_PER_DAY > u64::MAX {
        u64::MAX
    } else {
        (days * SECS_PER_DAY) as u64
    }
}

/// The TTL in seconds from the days setting (see `ttl_of_setting`).
pub fn ttl_from_setting(v: Option<&str>) -> (r: u64)
    ensures
        r == ttl_of_setting(match v {
            Some(s) => Some(s@),
            None => None,
        }),
{
    let days = match v {
        Some(s) => {
            let cs = chars_of(s);
            let t = trim_chars(&cs);
            match parse_u64(&t) {
                Some(d) => d,
                None => DEFAULT_TTL_DAYS,
            }
        },
        None => DEFAULT_TTL_DAYS,
    };
    if days > u64::MAX / SECS_PER_DAY {
        u64::MAX
    } else {
        days * SECS_PER_DAY
    }
}

/// Law: a project used within the TTL is never reclaimed by a sweep that is
/// not forced.
pub proof fn law_recent_project_not_reclaimed(last_touch: u64, now: u64, ttl: u64, exists: bool, safe_dir: bool)
    requires
        now <= last_touch + ttl,
    ensures
        verdict_of(last_touch, now, ttl, false, exists, safe_dir) != Verdict::Reclaim,
{
}

/// Law: with a TTL of zero an unforced sweep reclaims nothing; it only drops
/// the entries whose graph is gone.
pub proof fn law_zero_ttl_only_prunes(facts: Seq<DbFacts>, p: Seq<(Seq<char>, EntryV)>, now: u64)
    ensures
        reclaimed(facts, p, now, 0, false).len() == 0,
        forall|j: int|
            0 <= j < kept(facts, p, now, 0, false).len() ==> ((#[trigger] facts_for(
                facts,
                kept(facts, p, now, 0, false)[j].1.db,
            )) matches Some(f) && f.exists),
    decreases p.len(),
{
    if p.len() > 0 {
        law_zero_ttl_only_prunes(facts, p.drop_last(), now);
        let r = kept(facts, p.drop_last(), now, 0, false);
        assert forall|j: int|
            0 <= j < kept(facts, p, now, 0, false).len() implies ((#[trigger] facts_for(
            facts,
            kept(facts, p, now, 0, false)[j].1.db,
        )) matches Some(f) && f.exists) by {
            if j < r.len() {
                assert(kept(facts, p, now, 0, false)[j] == r[j]);
            }
        }
    }
}

/// `p` registers a project under the key of `x` whose graph exists and whose
/// directory may be deleted (is named `.codegraph`).
pub open spec fn deletable_project(facts: Seq<DbFacts>, p: Seq<(Seq<char>, EntryV)>, x: (Seq<char>, u64)) -> bool {
    exists|k: int|
        0 <= k < p.len() && (#[trigger] p[k]).0 == x.0 && (facts_for(facts, p[k].1.db) matches Some(f) && f.exists
            && f.safe_dir)
}

/// Law: a sweep, forced or not, only reclaims the graph of a registered
/// project whose graph still exists and whose directory may be deleted (is
/// named `.codegraph`).
pub proof fn law_only_deletable_dirs_reclaimed(
    facts: Seq<DbFacts>,
    p: Seq<(Seq<char>, EntryV)>,
    now: u64,
    ttl: u64,
    force_all: bool,
)
    ensures
        forall|j: int|
            0 <= j < reclaimed(facts, p, now, ttl, force_all).len() ==> deletable_project(
                facts,
                p,
                #[trigger] reclaimed(facts, p, now, ttl, force_all)[j],
            ),
    decreases p.len(),
{
    if p.len() > 0 {
        let q = p.drop_last();
        law_only_deletable_dirs_reclaimed(facts, q, now, ttl, force_all);
        let r = reclaimed(facts, q, now, ttl, force_all);
        let all = reclaimed(facts, p, now, ttl, force_all);
        assert forall|j: int| 0 <= j < all.len() implies deletable_project(facts, p, #[trigger] all[j]) by {
            if j < r.len() {
                assert(all[j] == r[j]);
                assert(deletable_project(facts, q, r[j]));
                let k = choose|k: int|
                    0 <= k < q.len() && (#[trigger] q[k]).0 == r[j].0 && (facts_for(facts, q[k].1.db) matches Some(
                        f,
                    ) && f.exists && f.safe_dir);
                assert(p[k] == q[k]);
            } else {
                let k = p.len() - 1;
                assert(p[k] == p.last());
                assert(verdict_for(facts, p.last().1, now, ttl, force_all) == Verdict::Reclaim);
                assert(all == r.push((p.last().0, facts_for(facts, p.last().1.db)->0.bytes)));
                assert(all[j].0 == p[k].0);
            }
        }
    }
}

/// Law: every entry is either kept or reclaimed or dropped by a sweep, once.
pub proof fn law_sweep_accounts_for_every_entry(
    facts: Seq<DbFacts>,
    p: Seq<(Seq<char>, EntryV)>,
    now: u64,
    ttl: u64,
    force_all: bool,
)
    ensures
        kept(facts, p, now, ttl, force_all).len() + reclaimed(facts, p, now, ttl, force_all).len() <= p.len(),
    decreases p.len(),
{
    if p.len() > 0 {
        law_sweep_accounts_for_every_entry(facts, p.drop_last(), now, ttl, force_all);
    }
}

proof fn lemma_touched_has(p: Seq<(Seq<char>, EntryV)>, key: Seq<char>, db: Seq<char>, indexed: bool, now: u64)
    ensures
        exists|k: int|
            0 <= k < touched(p, key, db, indexed, now).len() && (#[trigger] touched(p, key, db, indexed, now)[k]).0
                == key && touched(p, key, db, indexed, now)[k].1.db == db && touched(p, key, db, indexed, now)[k].1.last_touch
                == now,
    decreases p.len(),
{
    let t = touched(p, key, db, indexed, now);
    if p.len() == 0 {
        assert(t[0].0 == key);
    } else if p[0].0 == key {
        assert(t[0].0 == key);
    } else if lex_lt(key, p[0].0) {
        assert(t[0].0 == key);
    } else {
        lemma_touched_has(p.drop_first(), key, db, indexed, now);
        let r = touched(p.drop_first(), key, db, indexed, now);
        let k = choose|k: int|
            0 <= k < r.len() && (#[trigger] r[k]).0 == key && r[k].1.db == db && r[k].1.last_touch == now;
        assert(t[k + 1] == r[k]);
    }
}

proof fn lemma_kept_has(facts: Seq<DbFacts>, p: Seq<(Seq<char>, EntryV)>, now: u64, ttl: u64, force_all: bool, k: int)
    requires
        0 <= k < p.len(),
        verdict_for(facts, p[k].1, now, ttl, force_all) == Verdict::Keep,
    ensures
        exists|j: int| 0 <= j < kept(facts, p, now, ttl, force_all).len() && #[trigger] kept(facts, p, now, ttl, force_all)[j] == p[k],
    decreases p.len(),
{
    let r = kept(facts, p.drop_last(), now, ttl, force_all);
    if k == p.len() - 1 {
        assert(kept(facts, p, now, ttl, force_all)[r.len() as int] == p[k]);
    } else {
        assert(p.drop_last()[k] == p[k]);
        lemma_kept_has(facts, p.drop_last(), now, ttl, force_all, k);
        let j = choose|j: int| 0 <= j < r.len() && #[trigger] r[j] == p[k];
        assert(kept(facts, p, now, ttl, force_all)[j] == r[j]);
    }
}

/// Law: a project stamped as used (by housekeeping) survives an unforced
/// sweep at the same moment, as long as its graph exists.
pub proof fn law_touched_project_survives(
    facts: Seq<DbFacts>,
    p: Seq<(Seq<char>, EntryV)>,
    key: Seq<char>,
    db: Seq<char>,
    indexed: bool,
    now: u64,
    ttl: u64,
)
    requires
        facts_for(facts, db) matches Some(f) && f.exists,
    ensures
        exists|j: int|
            0 <= j < kept(facts, touched(p, key, db, indexed, now), now, ttl, false).len() && (#[trigger] kept(
                facts,
                touched(p, key, db, indexed, now),
                now,
                ttl,
                false,
            )[j]).0 == key,
{
    let t = touched(p, key, db, indexed, now);
    lemma_touched_has(p, key, db, indexed, now);
    let k = choose|k: int| 0 <= k < t.len() && (#[trigger] t[k]).0 == key && t[k].1.db == db && t[k].1.last_touch == now;
    assert(verdict_for(facts, t[k].1, now, ttl, false) == Verdict::Keep);
    lemma_kept_has(facts, t, now, ttl, false, k);
    let j = choose|j: int| 0 <= j < kept(facts, t, now, ttl, false).len() && #[trigger] kept(facts, t, now, ttl, false)[j] == t[k];
    assert(kept(facts, t, now, ttl, false)[j].0 == key);
}

/// Law: a dry run reports exactly what the same sweep reclaims when it is
/// carried out, keeps the same projects, and leaves the last-sweep time as it was.
pub proof fn law_dry_run_reports_the_sweep(
    facts: Seq<DbFacts>,
    p: Seq<(Seq<char>, EntryV)>,
    now: u64,
    ttl_override: Option<u64>,
    env_ttl: u64,
    force_all: bool,
    last_gc: u64,
)
    ensures
        gc_reclaimed(facts, p, now, ttl_override, env_ttl, force_all, true) == gc_reclaimed(facts, p, now, ttl_override, env_ttl, force_all, false),
        gc_kept(facts, p, now, ttl_override, env_ttl, force_all, true) == gc_kept(facts, p, now, ttl_override, env_ttl, force_all, false),
        gc_last(last_gc, now, true) == last_gc,
        gc_last(last_gc, now, false) == now,
{
}

/// Law: an explicit sweep is not disabled by a configured TTL of zero (it
/// then uses the default of 30 days), and an override of zero reclaims
/// nothing unless forced.
pub proof fn law_gc_ttl_override(
    facts: Seq<DbFacts>,
    p: Seq<(Seq<char>, EntryV)>,
    now: u64,
    env_ttl: u64,
    force_all: bool,
    dry_run: bool,
)
    ensures
        gc_reclaimed(facts, p, now, None, 0, force_all, dry_run) == gc_reclaimed(facts, p, now, Some(2592000u64), env_ttl, force_all, dry_run),
        gc_kept(facts, p, now, None, 0, force_all, dry_run) == gc_kept(facts, p, now, Some(2592000u64), env_ttl, force_all, dry_run),
        gc_reclaimed(facts, p, now, Some(0), env_ttl, false, dry_run).len() == 0,
{
    law_zero_ttl_only_prunes(facts, p, now);
}

/// The entry of the first project with key `k`.
pub open spec fn entry_of(p: Seq<(Seq<char>, EntryV)>, k: Seq<char>) -> Option<EntryV>
    decreases p.len(),
{
    if p.len() == 0 {
        None
    } else if p[0].0 == k {
        Some(p[0].1)
    } else {
        entry_of(p.drop_first(), k)
    }
}

/// Law: stamping a project as used changes only that project's entry: every
/// other key has the entry it had, and the stamped key's entry records the
/// database and the time of use.
pub proof fn law_touch_changes_only_its_key(
    p: Seq<(Seq<char>, EntryV)>,
    key: Seq<char>,
    db: Seq<char>,
    indexed: bool,
    now: u64,
    other: Seq<char>,
)
    ensures
        other != key ==> entry_of(touched(p, key, db, indexed, now), other) == entry_of(p, other),
        entry_of(touched(p, key, db, indexed, now), key) matches Some(e) && e.db == db && e.last_touch == now,
    decreases p.len(),
{
    let t = touched(p, key, db, indexed, now);
    if p.len() == 0 {
        assert(t.len() == 1 && t[0].0 == key);
        assert(t.drop_first() =~= Seq::<(Seq<char>, EntryV)>::empty());
        if other != key {
            assert(entry_of(t, other) == entry_of(t.drop_first(), other));
        }
    } else {
        if p[0].0 == key {
            assert(t[0].0 == key);
            assert(t.drop_first() =~= p.drop_first());
            if other != key {
                assert(entry_of(t, other) == entry_of(t.drop_first(), other));
                assert(entry_of(p, other) == entry_of(p.drop_first(), other));
            }
        } else if lex_lt(key, p[0].0) {
            assert(t[0].0 == key);
            assert(t.drop_first() =~= p);
            if other != key {
                assert(entry_of(t, other) == entry_of(t.drop_first(), other));
            }
        } else {
            law_touch_changes_only_its_key(p.drop_first(), key, db, indexed, now, other);
            assert(t[0] == p[0]);
            assert(t.drop_first() =~= touched(p.drop_first(), key, db, indexed, now));
            if p[0].0 != other {
                assert(entry_of(t, other) == entry_of(t.drop_first(), other));
                assert(entry_of(p, other) == entry_of(p.drop_first(), other));
            }
            assert(entry_of(t, key) == entry_of(t.drop_first(), key));
        }
    }
}

} // verus!
