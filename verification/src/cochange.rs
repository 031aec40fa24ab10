//! Co-change pairs: files that changed together, read from a commit log
//! listing (each commit's block of file names starts with a NUL).

use crate::indexing::lines_of;
use crate::search::{lemma_pieces_nonempty, pieces_by, same_chars, split_by, views};
use crate::text::{
    chars_of, lemma_lex_irreflexive, lemma_lex_total, lemma_lex_trans, lex_less, lex_lt, string_of, trim_chars,
    trimmed,
};
use vstd::prelude::*;

verus! {

/// Commits touching more files than this are noise and are skipped.
pub const MAX_FILES_PER_COMMIT: usize = 30;

/// Pairs seen fewer times than this are dropped.
pub const MIN_PAIR_COUNT: u32 = 2;

/// At most this many pairs are kept.
pub const MAX_PAIRS: usize = 20000;

/// The trimmed lines of `ls` that are not empty.
pub open spec fn nonempty_trimmed(ls: Seq<Seq<char>>) -> Seq<Seq<char>>
    decreases ls.len(),
{
    if ls.len() == 0 {
        Seq::empty()
    } else {
        let r = nonempty_trimmed(ls.drop_last());
        let t = trimmed(ls.last());
        if t.len() > 0 {
            r.push(t)
        } else {
            r
        }
    }
}

/// The files of one commit block: its lines, trimmed, without empty ones.
pub open spec fn commit_files(block: Seq<char>) -> Seq<Seq<char>> {
    nonempty_trimmed(lines_of(block))
}

/// Two files as an unordered pair: the smaller first.
pub open spec fn pair_of(x: Seq<char>, y: Seq<char>) -> (Seq<char>, Seq<char>) {
    if lex_lt(x, y) {
        (x, y)
    } else {
        (y, x)
    }
}

/// The pairs of file `j` with each earlier file.
pub open spec fn pairs_with(fs: Seq<Seq<char>>, j: int) -> Seq<(Seq<char>, Seq<char>)> {
    Seq::new(j as nat, |i: int| pair_of(fs[i], fs[j]))
}

/// Every pair of two files of one commit, once.
pub open spec fn commit_pairs(fs: Seq<Seq<char>>) -> Seq<(Seq<char>, Seq<char>)>
    decreases fs.len(),
{
    if fs.len() == 0 {
        Seq::empty()
    } else {
        commit_pairs(fs.drop_last()) + pairs_with(fs, fs.len() - 1)
    }
}

/// A commit counts when it touches at least two and at most
/// `MAX_FILES_PER_COMMIT` files.
pub open spec fn counted(fs: Seq<Seq<char>>) -> bool {
    2 <= fs.len() <= MAX_FILES_PER_COMMIT
}

/// The pairs of all counted commits of the blocks.
pub open spec fn history_pairs(blocks: Seq<Seq<char>>) -> Seq<(Seq<char>, Seq<char>)>
    decreases blocks.len(),
{
    if blocks.len() == 0 {
        Seq::empty()
    } else {
        let fs = commit_files(blocks.last());
        history_pairs(blocks.drop_last()) + if counted(fs) {
            commit_pairs(fs)
        } else {
            Seq::empty()
        }
    }
}

/// The pairs of a commit log (blocks separated by NUL).
pub open spec fn log_pairs(log: Seq<char>) -> Seq<(Seq<char>, Seq<char>)> {
    history_pairs(pieces_by(log, '\0'))
}

/// How often `p` occurs in `s`.
pub open spec fn pair_count(s: Seq<(Seq<char>, Seq<char>)>, p: (Seq<char>, Seq<char>)) -> nat
    decreases s.len(),
{
    if s.len() == 0 {
        0
    } else {
        pair_count(s.drop_last(), p) + if s.last() == p {
            1nat
        } else {
            0nat
        }
    }
}

/// A count as stored: at most `u32::MAX`.
pub open spec fn count_cap(n: nat) -> u32 {
    if n > u32::MAX {
        u32::MAX
    } else {
        n as u32
    }
}

/// The order of the result: more co-changes first, then by the first file,
/// then by the second.
pub open spec fn row_before(x: (Seq<char>, Seq<char>, u32), y: (Seq<char>, Seq<char>, u32)) -> bool {
    ||| x.2 > y.2
    ||| x.2 == y.2 && lex_lt(x.0, y.0)
    ||| x.2 == y.2 && x.0 == y.0 && lex_lt(x.1, y.1)
}

pub open spec fn row_view(t: (String, String, u32)) -> (Seq<char>, Seq<char>, u32) {
    (t.0@, t.1@, t.2)
}

pub open spec fn rows_view(r: Seq<(String, String, u32)>) -> Seq<(Seq<char>, Seq<char>, u32)> {
    r.map_values(|t: (String, String, u32)| row_view(t))
}

pub open spec fn tab_view(t: (Vec<char>, Vec<char>, u32)) -> (Seq<char>, Seq<char>, u32) {
    (t.0@, t.1@, t.2)
}

pub open spec fn tab_views(r: Seq<(Vec<char>, Vec<char>, u32)>) -> Seq<(Seq<char>, Seq<char>, u32)> {
    r.map_values(|t: (Vec<char>, Vec<char>, u32)| tab_view(t))
}

/// Strictly ascending in `row_before`.
pub open spec fn rows_sorted(r: Seq<(Seq<char>, Seq<char>, u32)>) -> bool {
    forall|i: int, j: int| 0 <= i < j < r.len() ==> row_before(#[trigger] r[i], #[trigger] r[j])
}

/// The counting table: one row per pair seen, with its (capped) count.
pub open spec fn table_ok(t: Seq<(Seq<char>, Seq<char>, u32)>, occ: Seq<(Seq<char>, Seq<char>)>) -> bool {
    &&& forall|i: int, j: int|
        0 <= i < t.len() && 0 <= j < t.len() && i != j ==> (#[trigger] t[i].0, t[i].1) != (#[trigger] t[j].0, t[j].1)
    &&& forall|i: int| 0 <= i < t.len() ==> (#[trigger] t[i]).2 == count_cap(pair_count(occ, (t[i].0, t[i].1)))
    &&& forall|p: (Seq<char>, Seq<char>)|
        #[trigger] pair_count(occ, p) > 0 ==> exists|i: int| 0 <= i < t.len() && (t[i].0, t[i].1) == p
}

proof fn lemma_before_trans(
    x: (Seq<char>, Seq<char>, u32),
    y: (Seq<char>, Seq<char>, u32),
    z: (Seq<char>, Seq<char>, u32),
)
    requires
        row_before(x, y),
        row_before(y, z),
    ensures
        row_before(x, z),
{
    lemma_lex_irreflexive(x.0);
    lemma_lex_irreflexive(y.0);
    if x.2 == y.2 && y.2 == z.2 {
        if lex_lt(x.0, y.0) && lex_lt(y.0, z.0) {
            lemma_lex_trans(x.0, y.0, z.0);
        } else if x.0 == y.0 && y.0 == z.0 {
            lemma_lex_trans(x.1, y.1, z.1);
        }
    }
}

proof fn lemma_before_total(x: (Seq<char>, Seq<char>, u32), y: (Seq<char>, Seq<char>, u32))
    requires
        (x.0, x.1) != (y.0, y.1),
    ensures
        row_before(x, y) || row_before(y, x),
        !(row_before(x, y) && row_before(y, x)),
{
    lemma_lex_total(x.0, y.0);
    lemma_lex_total(x.1, y.1);
    lemma_lex_irreflexive(x.0);
    lemma_lex_irreflexive(x.1);
}

/// The files of one commit block (see `commit_files`).
fn commit_files_of(block: &Vec<char>) -> (r: Vec<Vec<char>>)
    ensures
        views(r@) == commit_files(block@),
{
    let lines = split_by(block, '\n');
    let ghost lv = views(lines@);
    let nl = if lines.len() > 0 && lines[lines.len() - 1].len() == 0 {
        lines.len() - 1
    } else {
        lines.len()
    };
    let ghost ls = lines_of(block@);
    proof {
        lemma_pieces_nonempty(block@, '\n');
        assert(ls.len() == nl);
    }
    let mut out: Vec<Vec<char>> = Vec::new();
    for j in 0..nl
        invariant
            nl <= lines@.len(),
            lv == views(lines@),
            lv == pieces_by(block@, '\n'),
            ls == lines_of(block@),
            ls.len() == nl,
            views(out@) == nonempty_trimmed(ls.take(j as int)),
    {
        let l = &lines[j];
        let mut line: Vec<char> = Vec::new();
        let ln = if l.len() > 0 && l[l.len() - 1] == '\r' {
            l.len() - 1
        } else {
            l.len()
        };
        for q in 0..ln
            invariant
                ln <= l@.len(),
                line@ == l@.take(q as int),
        {
            line.push(l[q]);
            proof {
                assert(line@ =~= l@.take(q + 1));
            }
        }
        proof {
            assert(lv[j as int] == l@);
            assert(ls[j as int] == line@) by {
                if l@.len() > 0 && l@.last() == '\r' {
                    assert(line@ =~= l@.drop_last());
                } else {
                    assert(line@ =~= l@);
                }
            }
            assert(ls.take(j + 1).drop_last() =~= ls.take(j as int));
            assert(ls.take(j + 1).last() == line@);
        }
        let t = trim_chars(&line);
        if t.len() > 0 {
            let ghost before = views(out@);
            out.push(t);
            proof {
                assert(views(out@) =~= before.push(trimmed(line@)));
            }
        }
    }
    proof {
        assert(ls.take(nl as int) =~= ls);
    }
    out
}

/// The first file of the pair does not sort after the second.
pub open spec fn pair_ordered(p: (Seq<char>, Seq<char>)) -> bool {
    !lex_lt(p.1, p.0)
}

proof fn lemma_commit_pairs_ordered(fs: Seq<Seq<char>>)
    ensures
        forall|i: int| 0 <= i < commit_pairs(fs).len() ==> pair_ordered(#[trigger] commit_pairs(fs)[i]),
    decreases fs.len(),
{
    if fs.len() > 0 {
        lemma_commit_pairs_ordered(fs.drop_last());
        let a = commit_pairs(fs.drop_last());
        let b = pairs_with(fs, fs.len() - 1);
        assert forall|i: int| 0 <= i < commit_pairs(fs).len() implies pair_ordered(#[trigger] commit_pairs(fs)[i]) by {
            if i < a.len() {
                assert(commit_pairs(fs)[i] == a[i]);
            } else {
                let x = fs[i - a.len()];
                let y = fs[fs.len() - 1];
                assert(commit_pairs(fs)[i] == b[i - a.len()]);
                assert(b[i - a.len()] == pair_of(x, y));
                lemma_lex_total(x, y);
            }
        }
    }
}

proof fn lemma_history_pairs_ordered(blocks: Seq<Seq<char>>)
    ensures
        forall|i: int| 0 <= i < history_pairs(blocks).len() ==> pair_ordered(#[trigger] history_pairs(blocks)[i]),
    decreases blocks.len(),
{
    if blocks.len() > 0 {
        lemma_history_pairs_ordered(blocks.drop_last());
        let a = history_pairs(blocks.drop_last());
        let fs = commit_files(blocks.last());
        lemma_commit_pairs_ordered(fs);
        assert forall|i: int| 0 <= i < history_pairs(blocks).len() implies pair_ordered(
            #[trigger] history_pairs(blocks)[i],
        ) by {
            if i < a.len() {
                assert(history_pairs(blocks)[i] == a[i]);
            } else {
                assert(history_pairs(blocks)[i] == commit_pairs(fs)[i - a.len()]);
            }
        }
    }
}

proof fn lemma_counted_occurs(s: Seq<(Seq<char>, Seq<char>)>, p: (Seq<char>, Seq<char>))
    requires
        pair_count(s, p) > 0,
    ensures
        exists|i: int| 0 <= i < s.len() && s[i] == p,
    decreases s.len(),
{
    if s.last() != p {
        lemma_counted_occurs(s.drop_last(), p);
        let i = choose|i: int| 0 <= i < s.len() - 1 && s.drop_last()[i] == p;
        assert(s[i] == p);
    } else {
        assert(s[s.len() - 1] == p);
    }
}

/// Law: co-change pairs are unordered pairs written smaller name first: a
/// pair seen in a log never has its second file sorting before its first.
pub proof fn law_pairs_smaller_first(log: Seq<char>, p: (Seq<char>, Seq<char>))
    requires
        pair_count(log_pairs(log), p) > 0,
    ensures
        pair_ordered(p),
{
    lemma_counted_occurs(log_pairs(log), p);
    lemma_history_pairs_ordered(pieces_by(log, '\0'));
    let i = choose|i: int| 0 <= i < log_pairs(log).len() && log_pairs(log)[i] == p;
    assert(pair_ordered(log_pairs(log)[i]));
}

/// Count one more occurrence of the pair `(a, b)`.
fn add_pair(table: &mut Vec<(Vec<char>, Vec<char>, u32)>, a: Vec<char>, b: Vec<char>, Ghost(occ): Ghost<
    Seq<(Seq<char>, Seq<char>)>,
>)
    requires
        table_ok(tab_views(old(table)@), occ),
    ensures
        table_ok(tab_views(final(table)@), occ.push((a@, b@))),
{
    let ghost p = (a@, b@);
    let ghost occ2 = occ.push(p);
    let ghost t0 = tab_views(table@);
    proof {
        assert(occ2.drop_last() =~= occ);
    }
    let n = table.len();
    let mut k: usize = 0;
    while k < n
        invariant
            n == table@.len(),
            t0 == tab_views(table@),
            p == (a@, b@),
            k <= n,
            forall|i: int| 0 <= i < k ==> (#[trigger] t0[i].0, t0[i].1) != p,
        ensures
            k < n ==> t0[k as int].0 == p.0 && t0[k as int].1 == p.1,
        decreases n - k,
    {
        proof {
            assert(t0[k as int] == tab_view(table@[k as int]));
        }
        let e0 = same_chars(&table[k].0, &a);
        let e1 = same_chars(&table[k].1, &b);
        proof {
            assert(e0 == (t0[k as int].0 == p.0));
            assert(e1 == (t0[k as int].1 == p.1));
        }
        if e0 && e1 {
            break;
        }
        k = k + 1;
    }
    if k < n {
        proof {
            assert(t0[k as int] == tab_view(table@[k as int]));
        }
        let c = table[k].2;
        let c2 = if c < 4294967295 {
            c + 1
        } else {
            c
        };
        table.set(k, (a, b, c2));
        proof {
            let t1 = tab_views(table@);
            assert(t0[k as int].0 == p.0 && t0[k as int].1 == p.1);
            assert forall|i: int| 0 <= i < t1.len() implies (#[trigger] t1[i]).2 == count_cap(
                pair_count(occ2, (t1[i].0, t1[i].1)),
            ) by {
                if i == k {
                    assert(t1[i] == (p.0, p.1, c2));
                } else {
                    assert(t1[i] == t0[i]);
                }
            }
            assert forall|i: int, j: int|
                0 <= i < t1.len() && 0 <= j < t1.len() && i != j implies (#[trigger] t1[i].0, t1[i].1) != (
                #[trigger] t1[j].0,
                t1[j].1,
            ) by {
                assert(t1[i].0 == t0[i].0 && t1[i].1 == t0[i].1);
                assert(t1[j].0 == t0[j].0 && t1[j].1 == t0[j].1);
                assert((t0[i].0, t0[i].1) != (t0[j].0, t0[j].1));
            }
            assert forall|q: (Seq<char>, Seq<char>)| #[trigger] pair_count(occ2, q) > 0 implies exists|i: int|
                0 <= i < t1.len() && (t1[i].0, t1[i].1) == q by {
                if q == p {
                    assert(t1[k as int].0 == q.0 && t1[k as int].1 == q.1);
                } else {
                    assert(pair_count(occ, q) > 0);
                    let i = choose|i: int| 0 <= i < t0.len() && (t0[i].0, t0[i].1) == q;
                    assert(t1[i].0 == t0[i].0 && t1[i].1 == t0[i].1);
                }
            }
        }
    } else {
        proof {
            if pair_count(occ, p) > 0 {
                let i = choose|i: int| 0 <= i < t0.len() && (t0[i].0, t0[i].1) == p;
                assert(false);
            }
        }
        table.push((a, b, 1));
        proof {
            let t1 = tab_views(table@);
            assert(t1 =~= t0.push((p.0, p.1, 1u32)));
            assert forall|i: int| 0 <= i < t1.len() implies (#[trigger] t1[i]).2 == count_cap(
                pair_count(occ2, (t1[i].0, t1[i].1)),
            ) by {
                if i < n {
                    assert(t1[i] == t0[i]);
                    assert((t0[i].0, t0[i].1) != p);
                }
            }
            assert forall|i: int, j: int|
                0 <= i < t1.len() && 0 <= j < t1.len() && i != j implies (#[trigger] t1[i].0, t1[i].1) != (
                #[trigger] t1[j].0,
                t1[j].1,
            ) by {
                if i < n && j < n {
                    assert(t1[i] == t0[i] && t1[j] == t0[j]);
                } else if i < n {
                    assert(t1[i] == t0[i]);
                    assert((t0[i].0, t0[i].1) != p);
                } else if j < n {
                    assert(t1[j] == t0[j]);
                    assert((t0[j].0, t0[j].1) != p);
                }
            }
            assert forall|q: (Seq<char>, Seq<char>)| #[trigger] pair_count(occ2, q) > 0 implies exists|i: int|
                0 <= i < t1.len() && (t1[i].0, t1[i].1) == q by {
                if q == p {
                    assert(t1[n as int].0 == q.0 && t1[n as int].1 == q.1);
                } else {
                    assert(pair_count(occ, q) > 0);
                    let i = choose|i: int| 0 <= i < t0.len() && (t0[i].0, t0[i].1) == q;
                    assert(t1[i] == t0[i]);
                }
            }
        }
    }
}

/// Count the pairs of every counted commit of a log.
fn count_pairs(log: &Vec<char>) -> (t: Vec<(Vec<char>, Vec<char>, u32)>)
    ensures
        table_ok(tab_views(t@), history_pairs(pieces_by(log@, '\0'))),
{
    let blocks = split_by(log, '\0');
    let ghost bv = views(blocks@);
    let mut table: Vec<(Vec<char>, Vec<char>, u32)> = Vec::new();
    let ghost mut occ: Seq<(Seq<char>, Seq<char>)> = Seq::empty();
    let nb = blocks.len();
    for bi in 0..nb
        invariant
            nb == blocks@.len(),
            bv == views(blocks@),
            occ == history_pairs(bv.take(bi as int)),
            table_ok(tab_views(table@), occ),
    {
        let files = commit_files_of(&blocks[bi]);
        let ghost fv = views(files@);
        proof {
            assert(bv.take(bi + 1).drop_last() =~= bv.take(bi as int));
            assert(bv.take(bi + 1).last() == blocks@[bi as int]@);
        }
        let ghost start = occ;
        if files.len() >= 2 && files.len() <= MAX_FILES_PER_COMMIT {
            let nf = files.len();
            for j in 0..nf
                invariant
                    nf == files@.len(),
                    fv == views(files@),
                    occ == start + commit_pairs(fv.take(j as int)),
                    table_ok(tab_views(table@), occ),
            {
                let ghost mid = occ;
                let ghost pw = pairs_with(fv.take(j + 1), j as int);
                proof {
                    assert(fv.take(j + 1).drop_last() =~= fv.take(j as int));
                }
                for i in 0..j
                    invariant
                        j < nf,
                        nf == files@.len(),
                        fv == views(files@),
                        pw == pairs_with(fv.take(j + 1), j as int),
                        occ == mid + pw.take(i as int),
                        table_ok(tab_views(table@), occ),
                {
                    let x = &files[i];
                    let y = &files[j];
                    proof {
                        assert(fv[i as int] == x@ && fv[j as int] == y@);
                        assert(pw[i as int] == pair_of(x@, y@));
                    }
                    let pr = if lex_less(x, y) {
                        (x.clone(), y.clone())
                    } else {
                        (y.clone(), x.clone())
                    };
                    let ghost pv = (pr.0@, pr.1@);
                    add_pair(&mut table, pr.0, pr.1, Ghost(occ));
                    proof {
                        assert(pv == pair_of(x@, y@));
                        assert(mid + pw.take(i + 1) =~= (mid + pw.take(i as int)).push(pv));
                        occ = occ.push(pv);
                    }
                }
                proof {
                    assert(pw.take(j as int) =~= pw);
                    assert(mid + pw =~= start + commit_pairs(fv.take(j + 1)));
                }
            }
            proof {
                assert(fv.take(nf as int) =~= fv);
            }
        } else {
            proof {
                assert(start =~= start + Seq::<(Seq<char>, Seq<char>)>::empty());
            }
        }
    }
    proof {
        assert(bv.take(nb as int) =~= bv);
    }
    table
}

/// Insert `row` into the strictly sorted `sorted`, where no row has its pair.
fn sorted_insert(sorted: &mut Vec<(Vec<char>, Vec<char>, u32)>, row: (Vec<char>, Vec<char>, u32))
    requires
        rows_sorted(tab_views(old(sorted)@)),
        forall|s: int|
            0 <= s < old(sorted)@.len() ==> (#[trigger] tab_views(old(sorted)@)[s].0, tab_views(old(sorted)@)[s].1)
                != (row.0@, row.1@),
    ensures
        rows_sorted(tab_views(final(sorted)@)),
        exists|q: int|
            0 <= q <= old(sorted)@.len() && tab_views(final(sorted)@) == tab_views(old(sorted)@).insert(
                q,
                tab_view(row),
            ),
{
    let ghost sv = tab_views(sorted@);
    let ghost x = tab_view(row);
    let ns = sorted.len();
    let mut q: usize = 0;
    while q < ns
        invariant
            ns == sorted@.len(),
            sv == tab_views(sorted@),
            x == tab_view(row),
            q <= ns,
            forall|s: int| 0 <= s < q ==> !row_before(x, #[trigger] sv[s]),
        ensures
            q < ns ==> row_before(x, sv[q as int]),
        decreases ns - q,
    {
        let y = &sorted[q];
        proof {
            assert(sv[q as int] == tab_view(*y));
        }
        let before = row.2 > y.2 || (row.2 == y.2 && (lex_less(&row.0, &y.0) || (same_chars(&row.0, &y.0)
            && lex_less(&row.1, &y.1))));
        if before {
            break;
        }
        q = q + 1;
    }
    proof {
        assert forall|s: int| 0 <= s < q implies row_before(#[trigger] sv[s], x) by {
            assert((sv[s].0, sv[s].1) != (x.0, x.1));
            lemma_before_total(sv[s], x);
        }
        if q < ns {
            assert forall|s: int| q <= s < ns implies row_before(x, #[trigger] sv[s]) by {
                if s > q {
                    lemma_before_trans(x, sv[q as int], sv[s]);
                }
            }
        }
    }
    sorted.insert(q, row);
    proof {
        let s2 = tab_views(sorted@);
        assert(s2 =~= sv.insert(q as int, x));
        assert forall|i: int, j: int| 0 <= i < j < s2.len() implies row_before(
            #[trigger] s2[i],
            #[trigger] s2[j],
        ) by {
            if j < q {
                assert(s2[i] == sv[i] && s2[j] == sv[j]);
            } else if j == q {
                assert(s2[i] == sv[i] && s2[j] == x);
            } else if i < q {
                assert(s2[i] == sv[i] && s2[j] == sv[j - 1]);
                lemma_before_trans(sv[i], x, sv[j - 1]);
            } else if i == q {
                assert(s2[i] == x && s2[j] == sv[j - 1]);
            } else {
                assert(s2[i] == sv[i - 1] && s2[j] == sv[j - 1]);
            }
        }
    }
}

/// Every row of `sv` is the row of `tv` at `w` (before `k`), seen often
/// enough.
pub open spec fn drawn_from(sv: Seq<(Seq<char>, Seq<char>, u32)>, tv: Seq<(Seq<char>, Seq<char>, u32)>, k: int, w: Seq<int>) -> bool {
    &&& w.len() == sv.len()
    &&& forall|s: int|
        0 <= s < sv.len() ==> 0 <= #[trigger] w[s] < k && sv[s] == tv[w[s]] && tv[w[s]].2 >= MIN_PAIR_COUNT
}

/// Every row of `tv` before `k` seen often enough is a row of `sv`.
#[verifier::opaque]
spec fn covers(sv: Seq<(Seq<char>, Seq<char>, u32)>, tv: Seq<(Seq<char>, Seq<char>, u32)>, k: int) -> bool {
    forall|q: int|
        #![trigger tv[q]]
        0 <= q < k && tv[q].2 >= MIN_PAIR_COUNT ==> exists|s: int| #![trigger sv[s]] 0 <= s < sv.len() && sv[s] == tv[q]
}

proof fn lemma_draw_insert(
    sv: Seq<(Seq<char>, Seq<char>, u32)>,
    s2: Seq<(Seq<char>, Seq<char>, u32)>,
    tv: Seq<(Seq<char>, Seq<char>, u32)>,
    w: Seq<int>,
    k: int,
    q: int,
)
    requires
        drawn_from(sv, tv, k, w),
        covers(sv, tv, k),
        0 <= k < tv.len(),
        0 <= q <= sv.len(),
        s2 == sv.insert(q, tv[k]),
        tv[k].2 >= MIN_PAIR_COUNT,
    ensures
        drawn_from(s2, tv, k + 1, w.insert(q, k)),
        covers(s2, tv, k + 1),
{
    reveal(covers);
    let w2 = w.insert(q, k);
    assert forall|s: int| 0 <= s < s2.len() implies 0 <= #[trigger] w2[s] < k + 1 && s2[s] == tv[w2[s]] && tv[w2[s]].2
        >= MIN_PAIR_COUNT by {
        if s < q {
            assert(s2[s] == sv[s] && w2[s] == w[s]);
        } else if s == q {
            assert(s2[s] == tv[k] && w2[s] == k);
        } else {
            assert(s2[s] == sv[s - 1] && w2[s] == w[s - 1]);
        }
    }
    assert forall|qq: int| #![trigger tv[qq]] 0 <= qq < k + 1 && tv[qq].2 >= MIN_PAIR_COUNT implies exists|s: int|
        #![trigger s2[s]]
        0 <= s < s2.len() && s2[s] == tv[qq] by {
        if qq == k {
            assert(s2[q] == tv[qq]);
        } else {
            let s = choose|s: int| #![trigger sv[s]] 0 <= s < sv.len() && sv[s] == tv[qq];
            if s < q {
                assert(s2[s] == sv[s]);
            } else {
                assert(s2[s + 1] == sv[s]);
            }
        }
    }
}

proof fn lemma_draw_skip(sv: Seq<(Seq<char>, Seq<char>, u32)>, tv: Seq<(Seq<char>, Seq<char>, u32)>, w: Seq<int>, k: int)
    requires
        drawn_from(sv, tv, k, w),
        covers(sv, tv, k),
        0 <= k < tv.len(),
        tv[k].2 < MIN_PAIR_COUNT,
    ensures
        drawn_from(sv, tv, k + 1, w),
        covers(sv, tv, k + 1),
{
    reveal(covers);
    assert forall|qq: int| #![trigger tv[qq]] 0 <= qq < k + 1 && tv[qq].2 >= MIN_PAIR_COUNT implies exists|s: int|
        #![trigger sv[s]]
        0 <= s < sv.len() && sv[s] == tv[qq] by {
        assert(qq < k);
    }
}

proof fn lemma_draw_start(tv: Seq<(Seq<char>, Seq<char>, u32)>)
    ensures
        drawn_from(Seq::empty(), tv, 0, Seq::empty()),
        covers(Seq::empty(), tv, 0),
{
    reveal(covers);
}

/// A new row's pair is not among the rows drawn before it.
proof fn lemma_draw_fresh(
    sv: Seq<(Seq<char>, Seq<char>, u32)>,
    tv: Seq<(Seq<char>, Seq<char>, u32)>,
    w: Seq<int>,
    occ: Seq<(Seq<char>, Seq<char>)>,
    k: int,
)
    requires
        drawn_from(sv, tv, k, w),
        table_ok(tv, occ),
        0 <= k < tv.len(),
    ensures
        forall|s: int| 0 <= s < sv.len() ==> (#[trigger] sv[s].0, sv[s].1) != (tv[k].0, tv[k].1),
{
    assert forall|s: int| 0 <= s < sv.len() implies (#[trigger] sv[s].0, sv[s].1) != (tv[k].0, tv[k].1) by {
        let qq = w[s];
        assert((tv[qq].0, tv[qq].1) != (tv[k].0, tv[k].1));
    }
}

/// Each drawn row is a pair seen often enough, with its count.
proof fn lemma_drawn_counts(
    sv: Seq<(Seq<char>, Seq<char>, u32)>,
    tv: Seq<(Seq<char>, Seq<char>, u32)>,
    w: Seq<int>,
    occ: Seq<(Seq<char>, Seq<char>)>,
)
    requires
        drawn_from(sv, tv, tv.len() as int, w),
        table_ok(tv, occ),
    ensures
        forall|s: int|
            0 <= s < sv.len() ==> pair_count(occ, (#[trigger] sv[s].0, sv[s].1)) >= MIN_PAIR_COUNT && sv[s].2
                == count_cap(pair_count(occ, (sv[s].0, sv[s].1))),
{
    assert forall|s: int| 0 <= s < sv.len() implies pair_count(occ, (#[trigger] sv[s].0, sv[s].1))
        >= MIN_PAIR_COUNT && sv[s].2 == count_cap(pair_count(occ, (sv[s].0, sv[s].1))) by {
        let qq = w[s];
        assert(tv[qq].2 == count_cap(pair_count(occ, (tv[qq].0, tv[qq].1))));
    }
}

/// Each pair seen often enough is drawn, with its count.
#[verifier::rlimit(30)]
proof fn lemma_drawn_complete(
    sv: Seq<(Seq<char>, Seq<char>, u32)>,
    tv: Seq<(Seq<char>, Seq<char>, u32)>,
    occ: Seq<(Seq<char>, Seq<char>)>,
)
    requires
        covers(sv, tv, tv.len() as int),
        table_ok(tv, occ),
    ensures
        forall|p: (Seq<char>, Seq<char>)|
            #[trigger] pair_count(occ, p) >= MIN_PAIR_COUNT ==> exists|s: int|
                0 <= s < sv.len() && sv[s] == (p.0, p.1, count_cap(pair_count(occ, p))),
{
    reveal(covers);
    assert forall|p: (Seq<char>, Seq<char>)| #[trigger] pair_count(occ, p) >= MIN_PAIR_COUNT implies exists|s: int|
        0 <= s < sv.len() && sv[s] == (p.0, p.1, count_cap(pair_count(occ, p))) by {
        assert(pair_count(occ, p) > 0);
        let q = choose|q: int| 0 <= q < tv.len() && (tv[q].0, tv[q].1) == p;
        assert(tv[q].2 == count_cap(pair_count(occ, (tv[q].0, tv[q].1))));
        assert(tv[q].2 >= MIN_PAIR_COUNT);
        let s = choose|s: int| #![trigger sv[s]] 0 <= s < sv.len() && sv[s] == tv[q];
        assert(sv[s] == (p.0, p.1, count_cap(pair_count(occ, p))));
    }
}

/// The rows of the table seen at least `MIN_PAIR_COUNT` times, sorted.
fn qualifying_sorted(table: &Vec<(Vec<char>, Vec<char>, u32)>, Ghost(occ): Ghost<Seq<(Seq<char>, Seq<char>)>>) -> (r: Vec<
    (Vec<char>, Vec<char>, u32),
>)
    requires
        table_ok(tab_views(table@), occ),
    ensures
        rows_sorted(tab_views(r@)),
        forall|s: int|
            0 <= s < r@.len() ==> pair_count(occ, (#[trigger] tab_views(r@)[s].0, tab_views(r@)[s].1))
                >= MIN_PAIR_COUNT && tab_views(r@)[s].2 == count_cap(
                pair_count(occ, (tab_views(r@)[s].0, tab_views(r@)[s].1)),
            ),
        forall|p: (Seq<char>, Seq<char>)|
            #[trigger] pair_count(occ, p) >= MIN_PAIR_COUNT ==> exists|s: int|
                0 <= s < r@.len() && tab_views(r@)[s] == (p.0, p.1, count_cap(pair_count(occ, p))),
{
    let ghost tv = tab_views(table@);
    let mut sorted: Vec<(Vec<char>, Vec<char>, u32)> = Vec::new();
    let nt = table.len();
    let ghost mut w: Seq<int> = Seq::empty();
    proof {
        assert(tab_views(sorted@) =~= Seq::empty());
        lemma_draw_start(tv);
    }
    for k in 0..nt
        invariant
            nt == table@.len(),
            tv == tab_views(table@),
            table_ok(tv, occ),
            rows_sorted(tab_views(sorted@)),
            drawn_from(tab_views(sorted@), tv, k as int, w),
            covers(tab_views(sorted@), tv, k as int),
    {
        let ghost sv = tab_views(sorted@);
        proof {
            assert(tv[k as int] == tab_view(table@[k as int]));
        }
        if table[k].2 >= MIN_PAIR_COUNT {
            let row = (table[k].0.clone(), table[k].1.clone(), table[k].2);
            proof {
                assert(tab_view(row) == tv[k as int]);
                lemma_draw_fresh(sv, tv, w, occ, k as int);
            }
            sorted_insert(&mut sorted, row);
            proof {
                let q = choose|q: int| 0 <= q <= sv.len() && tab_views(sorted@) == sv.insert(q, tab_view(row));
                lemma_draw_insert(sv, tab_views(sorted@), tv, w, k as int, q);
                w = w.insert(q, k as int);
            }
        } else {
            proof {
                lemma_draw_skip(sv, tv, w, k as int);
            }
        }
    }
    proof {
        lemma_drawn_counts(tab_views(sorted@), tv, w, occ);
        lemma_drawn_complete(tab_views(sorted@), tv, occ);
    }
    sorted
}

/// The first `keep` rows, as strings.
fn first_rows(sorted: &Vec<(Vec<char>, Vec<char>, u32)>, keep: usize) -> (out: Vec<(String, String, u32)>)
    requires
        keep <= sorted@.len(),
    ensures
        rows_view(out@) == tab_views(sorted@).take(keep as int),
{
    let ghost sv = tab_views(sorted@);
    let mut out: Vec<(String, String, u32)> = Vec::new();
    for i in 0..keep
        invariant
            keep <= sorted@.len(),
            sv == tab_views(sorted@),
            rows_view(out@) == sv.take(i as int),
    {
        let t = &sorted[i];
        let ghost before = rows_view(out@);
        out.push((string_of(&t.0), string_of(&t.1), t.2));
        proof {
            assert(sv[i as int] == tab_view(*t));
            assert(rows_view(out@) =~= before.push(sv[i as int]));
            assert(sv.take(i + 1) =~= sv.take(i as int).push(sv[i as int]));
        }
    }
    out
}

/// The co-change pairs of a commit log (`git log --name-only` with each
/// commit's block starting with a NUL): every two files of a commit that
/// touches two to `MAX_FILES_PER_COMMIT` files form an unordered pair
/// (smaller name first); pairs seen at least `MIN_PAIR_COUNT` times are kept
/// with their count, most frequent first, then by name, at most `MAX_PAIRS`.
pub fn cochange_pairs(log: &str) -> (r: Vec<(String, String, u32)>)
    ensures
        ({
            let occ = log_pairs(log@);
            let rv = rows_view(r@);
            &&& rv.len() <= MAX_PAIRS
            &&& rows_sorted(rv)
            &&& forall|k: int|
                0 <= k < rv.len() ==> pair_count(occ, ((#[trigger] rv[k]).0, rv[k].1)) >= MIN_PAIR_COUNT
                    && rv[k].2 == count_cap(pair_count(occ, (rv[k].0, rv[k].1)))
            &&& forall|p: (Seq<char>, Seq<char>)|
                #[trigger] pair_count(occ, p) >= MIN_PAIR_COUNT ==> (exists|k: int|
                    0 <= k < rv.len() && (rv[k].0, rv[k].1) == p) || (rv.len() == MAX_PAIRS && row_before(
                    rv.last(),
                    (p.0, p.1, count_cap(pair_count(occ, p))),
                ))
        }),
{
    let cs = chars_of(log);
    let table = count_pairs(&cs);
    let ghost occ = log_pairs(log@);
    let sorted = qualifying_sorted(&table, Ghost(occ));
    let total = sorted.len();
    let keep = if total < MAX_PAIRS {
        total
    } else {
        MAX_PAIRS
    };
    let out = first_rows(&sorted, keep);
    proof {
        let sv = tab_views(sorted@);
        let rv = rows_view(out@);
        assert forall|i: int, j: int| 0 <= i < j < rv.len() implies row_before(#[trigger] rv[i], #[trigger] rv[j]) by {
            assert(rv[i] == sv[i] && rv[j] == sv[j]);
        }
        assert forall|k: int| 0 <= k < rv.len() implies pair_count(occ, ((#[trigger] rv[k]).0, rv[k].1))
            >= MIN_PAIR_COUNT && rv[k].2 == count_cap(pair_count(occ, (rv[k].0, rv[k].1))) by {
            assert(rv[k] == sv[k]);
        }
        assert forall|p: (Seq<char>, Seq<char>)| #[trigger] pair_count(occ, p) >= MIN_PAIR_COUNT implies (exists|k: int|
            0 <= k < rv.len() && (rv[k].0, rv[k].1) == p) || (rv.len() == MAX_PAIRS && row_before(
            rv.last(),
            (p.0, p.1, count_cap(pair_count(occ, p))),
        )) by {
            let s = choose|s: int| 0 <= s < sorted@.len() && sv[s] == (p.0, p.1, count_cap(pair_count(occ, p)));
            if s < keep {
                assert(rv[s] == sv[s]);
            } else {
                assert(rv.last() == sv[keep - 1]);
            }
        }
    }
    out
}

} // verus!
