//! The decisions of incremental indexing: which walked files are indexed,
//! whether the graph is stale against the manifest, which files changed,
//! fan-in/fan-out annotations, merging precise edges over heuristic ones,
//! document nodes for prose, and content hashes.

use crate::coverage::{decimal, push_decimal, push_str};
use crate::edges::{no_metadata, views};
use crate::ingest::{chunk, chunks_of, extension, extension_of, ChunkV, DocChunk};
use crate::langs::{grammar_for, path_segment};
use crate::precise::{import_scip, node_vs};
use crate::text::{ascii_lower, chars_of, str_eq, string_of, to_ascii_lower, trim_chars, trimmed};
use crate::types::{
    Confidence, Edge, EdgeRelation, EdgeV, MetaV, MetaValue, Metadata, Node, NodeLabel, NodeV,
};
use sha2::{Digest, Sha256};
use vstd::string::StringSliceAdditionalSpecFns;
use vstd::prelude::*;

verus! {

/// A file's entry in the index manifest: content hash and modification time.
#[derive(Debug, Clone, PartialEq)]
pub struct ManifestEntry {
    pub file_path: String,
    pub sha256: String,
    pub mtime: i64,
}

/// A note attached to a path.
#[derive(Debug, Clone, PartialEq)]
pub struct ContextEntry {
    pub path: String,
    pub summary: String,
    pub added_at: i64,
}

/// What one indexing run did.
#[derive(Debug, Clone)]
pub struct IndexStats {
    pub files: usize,
    pub changed: usize,
    pub pruned: usize,
    pub nodes: usize,
    pub edges: usize,
    pub scip_edges: usize,
}

/// Source files larger than this are not indexed.
pub const MAX_FILE_BYTES: u64 = 1500000;

pub open spec fn code_exts() -> Seq<Seq<char>> {
    seq![
        "rs"@, "py"@, "pyi"@, "js"@, "jsx"@, "mjs"@, "cjs"@, "ts"@, "mts"@, "cts"@, "tsx"@, "go"@, "swift"@,
        "java"@, "c"@, "h"@, "cpp"@, "cc"@, "cxx"@, "hpp"@, "hh"@, "hxx"@, "rb"@, "cs"@, "sh"@, "bash"@, "kt"@,
        "kts"@,
    ]
}

pub open spec fn doc_exts() -> Seq<Seq<char>> {
    seq![
        "md"@, "markdown"@, "mdx"@, "rst"@, "adoc"@, "asciidoc"@, "txt"@, "strings"@, "stringsdict"@, "po"@,
        "xliff"@, "xlf"@, "arb"@,
    ]
}

/// Lockfiles and generated manifests, never indexed (any ASCII case).
pub open spec fn skip_names() -> Seq<Seq<char>> {
    seq![
        "package-lock.json"@, "yarn.lock"@, "pnpm-lock.yaml"@, "composer.lock"@, "poetry.lock"@, "Cargo.lock"@,
        "Gemfile.lock"@, "go.sum"@, "podfile.lock"@,
    ]
}

pub open spec fn lower(s: Seq<char>) -> Seq<char> {
    s.map_values(|c: char| ascii_lower(c))
}

/// Whether a walked entry is indexed, and as a document (`Some(true)`) or
/// as code (`Some(false)`): not a directory, a code or prose extension, not a
/// lockfile, not larger than `MAX_FILE_BYTES` (an unknown size passes).
pub open spec fn classify_of(is_dir: bool, name: Seq<char>, len: Option<u64>) -> Option<bool> {
    let ext = match extension_of(name) {
        Some(e) => e,
        None => seq![],
    };
    if is_dir {
        None
    } else if !code_exts().contains(ext) && !doc_exts().contains(ext) {
        None
    } else if exists|k: int| 0 <= k < skip_names().len() && lower(#[trigger] skip_names()[k]) == lower(name) {
        None
    } else if len is Some && len->0 > MAX_FILE_BYTES {
        None
    } else {
        Some(doc_exts().contains(ext))
    }
}

/// The characters of `s`, ASCII-lowercased.
fn lower_chars(s: &str) -> (r: Vec<char>)
    ensures
        r@ == lower(s@),
{
    let cs = chars_of(s);
    let mut out: Vec<char> = Vec::new();
    let n = cs.len();
    for i in 0..n
        invariant
            n == cs@.len(),
            cs@ == s@,
            out@ == lower(cs@.take(i as int)),
    {
        out.push(to_ascii_lower(cs[i]));
        proof {
            assert(out@ =~= lower(cs@.take(i + 1)));
        }
    }
    proof {
        assert(cs@.take(n as int) =~= cs@);
    }
    out
}

/// Whether `s` is one of `list`.
fn one_of(s: &str, list: &[&str]) -> (r: bool)
    ensures
        r == list@.map_values(|x: &str| x@).contains(s@),
{
    let ghost lv = list@.map_values(|x: &str| x@);
    let n = list.len();
    for i in 0..n
        invariant
            n == list@.len(),
            lv == list@.map_values(|x: &str| x@),
            forall|k: int| 0 <= k < i ==> lv[k] != s@,
    {
        proof {
            assert(lv[i as int] == list@[i as int]@);
        }
        if str_eq(s, list[i]) {
            return true;
        }
    }
    proof {
        if lv.contains(s@) {
            let k = choose|k: int| 0 <= k < lv.len() && lv[k] == s@;
        }
    }
    false
}

/// Directories never walked: dependencies, build output, caches, VCS.
pub open spec fn exclude_dirs() -> Seq<Seq<char>> {
    seq![
        "target"@, "node_modules"@, ".venv"@, "venv"@, "env"@, "Pods"@, "build"@, "dist"@, ".git"@, ".gradle"@,
        ".next"@, ".nuxt"@, "__pycache__"@, ".cache"@, "DerivedData"@, "vendor"@, ".idea"@, ".vscode"@, "out"@,
        ".dart_tool"@, ".mypy_cache"@, ".pytest_cache"@, ".tox"@, "bin"@, "obj"@, ".svn"@, ".hg"@, ".terraform"@,
        "coverage"@, ".codegraph"@, "Carthage"@, ".bundle"@, "bower_components"@, ".yarn"@, ".pnp"@,
    ]
}

/// Whether the walk skips a directory of this name (see `exclude_dirs`).
pub fn is_excluded_dir(name: &str) -> (r: bool)
    ensures
        r == exclude_dirs().contains(name@),
{
    let dirs: [&str; 35] = [
        "target", "node_modules", ".venv", "venv", "env", "Pods", "build", "dist", ".git", ".gradle", ".next",
        ".nuxt", "__pycache__", ".cache", "DerivedData", "vendor", ".idea", ".vscode", "out", ".dart_tool",
        ".mypy_cache", ".pytest_cache", ".tox", "bin", "obj", ".svn", ".hg", ".terraform", "coverage",
        ".codegraph", "Carthage", ".bundle", "bower_components", ".yarn", ".pnp",
    ];
    proof {
        assert(dirs@.map_values(|x: &str| x@) =~= exclude_dirs());
    }
    one_of(name, &dirs)
}

/// Whether a walked entry is indexed (see `classify_of`).
pub fn classify(is_dir: bool, name: &str, len: Option<u64>) -> (r: Option<bool>)
    ensures
        r == classify_of(is_dir, name@, len),
{
    if is_dir {
        return None;
    }
    let e = match extension(name) {
        Some(e) => e,
        None => "".to_owned(),
    };
    proof {
        reveal_strlit("");
        assert(""@ =~= Seq::<char>::empty());
    }
    let ghost ext = match extension_of(name@) {
        Some(x) => x,
        None => seq![],
    };
    assert(e@ == ext);
    let code: [&str; 28] = [
        "rs", "py", "pyi", "js", "jsx", "mjs", "cjs", "ts", "mts", "cts", "tsx", "go", "swift", "java", "c", "h",
        "cpp", "cc", "cxx", "hpp", "hh", "hxx", "rb", "cs", "sh", "bash", "kt", "kts",
    ];
    let docs: [&str; 13] = [
        "md", "markdown", "mdx", "rst", "adoc", "asciidoc", "txt", "strings", "stringsdict", "po", "xliff", "xlf",
        "arb",
    ];
    let skips: [&str; 9] = [
        "package-lock.json", "yarn.lock", "pnpm-lock.yaml", "composer.lock", "poetry.lock", "Cargo.lock",
        "Gemfile.lock", "go.sum", "podfile.lock",
    ];
    proof {
        assert(code@.map_values(|x: &str| x@) =~= code_exts());
        assert(docs@.map_values(|x: &str| x@) =~= doc_exts());
        assert(skips@.map_values(|x: &str| x@) =~= skip_names());
    }
    let is_code = one_of(e.as_str(), &code);
    let is_doc = one_of(e.as_str(), &docs);
    if !is_code && !is_doc {
        return None;
    }
    let ln = lower_chars(name);
    for k in 0..9
        invariant
            ln@ == lower(name@),
            skips@.map_values(|x: &str| x@) == skip_names(),
            forall|q: int| 0 <= q < k ==> lower(#[trigger] skip_names()[q]) != lower(name@),
    {
        proof {
            assert(skip_names()[k as int] == skips@[k as int]@);
        }
        let ls = lower_chars(skips[k]);
        if crate::search::same_chars(&ls, &ln) {
            return None;
        }
    }
    match len {
        Some(l) => {
            if l > MAX_FILE_BYTES {
                return None;
            }
        },
        None => {},
    }
    Some(is_doc)
}

/// The manifest as a table: a later row for a path replaces an earlier one.
pub open spec fn manifest_table(rows: Seq<(Seq<char>, i64)>) -> Seq<(Seq<char>, i64)>
    decreases rows.len(),
{
    if rows.len() == 0 {
        seq![]
    } else {
        put_row(manifest_table(rows.drop_last()), rows.last())
    }
}

/// `m` with the row for `r.0` set to `r`.
pub open spec fn put_row(m: Seq<(Seq<char>, i64)>, r: (Seq<char>, i64)) -> Seq<(Seq<char>, i64)> {
    match find_row(m, r.0) {
        Some(k) => m.update(k, r),
        None => m.push(r),
    }
}

/// The index of the row for path `p`.
pub open spec fn find_row(m: Seq<(Seq<char>, i64)>, p: Seq<char>) -> Option<int>
    decreases m.len(),
{
    if m.len() == 0 {
        None
    } else if m.last().0 == p {
        Some(m.len() - 1)
    } else {
        find_row(m.drop_last(), p)
    }
}

/// Stale against the walk: a walked file the manifest lacks (or lists at
/// another mtime), or manifest files the walk did not meet.
pub open spec fn stale_walk(prev: Seq<(Seq<char>, i64)>, walked: Seq<(Seq<char>, i64)>) -> bool
    decreases walked.len(),
{
    if walked.len() == 0 {
        prev.len() > 0
    } else {
        match find_row(prev, walked[0].0) {
            None => true,
            Some(k) => if prev[k].1 != walked[0].1 {
                true
            } else {
                stale_walk(prev.remove(k), walked.drop_first())
            },
        }
    }
}

/// Whether the graph is stale: manifest rows `(path, mtime)` against the
/// files the walk meets, with their mtimes.
pub open spec fn stale_of(manifest: Seq<(Seq<char>, i64)>, walked: Seq<(Seq<char>, i64)>) -> bool {
    stale_walk(manifest_table(manifest), walked)
}

pub open spec fn row_views(v: Seq<(String, i64)>) -> Seq<(Seq<char>, i64)> {
    v.map_values(|r: (String, i64)| (r.0@, r.1))
}

/// The index of the row for path `p` (see `find_row`).
fn find_row_of(m: &Vec<(String, i64)>, p: &str) -> (r: Option<usize>)
    ensures
        match r {
            Some(k) => find_row(row_views(m@), p@) == Some(k as int) && k < m@.len(),
            None => find_row(row_views(m@), p@) is None,
        },
{
    let ghost mv = row_views(m@);
    let mut k = m.len();
    proof {
        assert(mv.take(k as int) =~= mv);
    }
    while k > 0
        invariant
            k <= m@.len(),
            mv == row_views(m@),
            find_row(mv, p@) == find_row(mv.take(k as int), p@),
        decreases k,
    {
        proof {
            assert(mv.take(k as int).last() == (m@[k - 1].0@, m@[k - 1].1));
            assert(mv.take(k as int).drop_last() =~= mv.take(k - 1));
        }
        if str_eq(m[k - 1].0.as_str(), p) {
            return Some(k - 1);
        }
        k = k - 1;
    }
    None
}

proof fn lemma_find_row(m: Seq<(Seq<char>, i64)>, p: Seq<char>)
    ensures
        find_row(m, p) matches Some(k) ==> 0 <= k < m.len() && m[k].0 == p,
    decreases m.len(),
{
    if m.len() > 0 && m.last().0 != p {
        lemma_find_row(m.drop_last(), p);
        if let Some(k) = find_row(m.drop_last(), p) {
            assert(m.drop_last()[k] == m[k]);
        }
    }
}

/// A walk that is not stale against a table meets exactly the table's rows.
pub proof fn lemma_clean_walk(prev: Seq<(Seq<char>, i64)>, walked: Seq<(Seq<char>, i64)>)
    requires
        !stale_walk(prev, walked),
    ensures
        prev.to_multiset() == walked.to_multiset(),
    decreases walked.len(),
{
    broadcast use vstd::seq_lib::to_multiset_remove, vstd::seq_lib::to_multiset_insert, vstd::multiset::group_multiset_axioms;

    if walked.len() == 0 {
        assert(prev.len() == 0);
        assert(prev =~= walked);
    } else {
        lemma_find_row(prev, walked[0].0);
        let k = find_row(prev, walked[0].0)->0;
        assert(prev[k] == walked[0]);
        lemma_clean_walk(prev.remove(k), walked.drop_first());
        assert(prev.remove(k).to_multiset() == prev.to_multiset().remove(prev[k]));
        assert(walked.drop_first().insert(0, walked[0]) =~= walked);
        assert(walked.to_multiset() == walked.drop_first().to_multiset().insert(walked[0]));
        assert(prev.to_multiset().count(prev[k]) > 0) by {
            vstd::seq_lib::to_multiset_contains(prev, prev[k]);
        }
        assert(prev.to_multiset() =~= prev.to_multiset().remove(prev[k]).insert(prev[k]));
    }
}

/// Law: a graph found not stale matches the working tree exactly: the files
/// the walk meets, with their mtimes, are the manifest's rows (later rows for
/// a path replacing earlier ones). So an added, edited (touched) or deleted
/// file always makes the graph stale.
pub proof fn law_not_stale_means_in_sync(manifest: Seq<(Seq<char>, i64)>, walked: Seq<(Seq<char>, i64)>)
    requires
        !stale_of(manifest, walked),
    ensures
        manifest_table(manifest).to_multiset() == walked.to_multiset(),
{
    lemma_clean_walk(manifest_table(manifest), walked);
}

/// Whether the graph is stale (see `stale_of`).
pub fn is_stale_against(manifest: &Vec<(String, i64)>, walked: &Vec<(String, i64)>) -> (r: bool)
    ensures
        r == stale_of(row_views(manifest@), row_views(walked@)),
{
    let ghost rows = row_views(manifest@);
    let mut prev: Vec<(String, i64)> = Vec::new();
    let n = manifest.len();
    for i in 0..n
        invariant
            n == manifest@.len(),
            rows == row_views(manifest@),
            row_views(prev@) == manifest_table(rows.take(i as int)),
    {
        proof {
            assert(rows.take(i + 1).drop_last() =~= rows.take(i as int));
            assert(rows.take(i + 1).last() == (manifest@[i as int].0@, manifest@[i as int].1));
        }
        let ghost pv = row_views(prev@);
        match find_row_of(&prev, manifest[i].0.as_str()) {
            Some(k) => {
                prev.set(k, (manifest[i].0.clone(), manifest[i].1));
                proof {
                    assert(row_views(prev@) =~= pv.update(k as int, (manifest@[i as int].0@, manifest@[i as int].1)));
                }
            },
            None => {
                prev.push((manifest[i].0.clone(), manifest[i].1));
                proof {
                    assert(row_views(prev@) =~= pv.push((manifest@[i as int].0@, manifest@[i as int].1)));
                }
            },
        }
    }
    proof {
        assert(rows.take(n as int) =~= rows);
    }
    let ghost wv = row_views(walked@);
    let m = walked.len();
    proof {
        assert(wv.skip(0) =~= wv);
    }
    for j in 0..m
        invariant
            m == walked@.len(),
            wv == row_views(walked@),
            rows == row_views(manifest@),
            stale_of(rows, wv) == stale_walk(row_views(prev@), wv.skip(j as int)),
    {
        proof {
            assert(wv.skip(j as int).len() > 0);
            assert(wv.skip(j as int)[0] == (walked@[j as int].0@, walked@[j as int].1));
            assert(wv.skip(j as int).drop_first() =~= wv.skip(j + 1));
        }
        match find_row_of(&prev, walked[j].0.as_str()) {
            None => return true,
            Some(k) => {
                if prev[k].1 != walked[j].1 {
                    return true;
                }
                let ghost pv = row_views(prev@);
                prev.remove(k);
                proof {
                    assert(row_views(prev@) =~= pv.remove(k as int));
                }
            },
        }
    }
    prev.len() > 0
}

/// An unchanged file by its stat alone: not a full rebuild, listed in the
/// manifest at the same, known mtime.
pub open spec fn stat_unchanged_of(full: bool, manifest_mtime: Option<i64>, mtime: i64) -> bool {
    !full && manifest_mtime == Some(mtime) && mtime != 0
}

/// Whether a file can be skipped without reading it (see `stat_unchanged_of`).
pub fn stat_unchanged(full: bool, manifest: &Option<ManifestEntry>, mtime: i64) -> (r: bool)
    ensures
        r == stat_unchanged_of(
            full,
            match manifest {
                Some(m) => Some(m.mtime),
                None => None,
            },
            mtime,
        ),
{
    if full {
        return false;
    }
    match manifest {
        Some(m) => m.mtime == mtime && mtime != 0,
        None => false,
    }
}

/// Whether a read file has the content the manifest recorded: not a full
/// rebuild, and the same hash. Such a file only gets its mtime refreshed.
pub fn content_unchanged(full: bool, manifest: &Option<ManifestEntry>, sha: &str) -> (r: bool)
    ensures
        r == (!full && match manifest {
            Some(m) => m.sha256@ == sha@,
            None => false,
        }),
{
    if full {
        return false;
    }
    match manifest {
        Some(m) => str_eq(m.sha256.as_str(), sha),
        None => false,
    }
}

/// The manifest files not met by the walk, in manifest order: they vanished
/// and are pruned.
pub open spec fn vanished_of(files: Seq<Seq<char>>, seen: Seq<Seq<char>>) -> Seq<Seq<char>>
    decreases files.len(),
{
    if files.len() == 0 {
        seq![]
    } else {
        let r = vanished_of(files.drop_last(), seen);
        if seen.contains(files.last()) {
            r
        } else {
            r.push(files.last())
        }
    }
}

/// The manifest files not met by the walk (see `vanished_of`).
pub fn vanished(files: &Vec<String>, seen: &Vec<String>) -> (r: Vec<String>)
    ensures
        r@.map_values(|s: String| s@) == vanished_of(
            files@.map_values(|s: String| s@),
            seen@.map_values(|s: String| s@),
        ),
{
    let ghost fv = files@.map_values(|s: String| s@);
    let ghost sv = seen@.map_values(|s: String| s@);
    let mut out: Vec<String> = Vec::new();
    let n = files.len();
    for i in 0..n
        invariant
            n == files@.len(),
            fv == files@.map_values(|s: String| s@),
            sv == seen@.map_values(|s: String| s@),
            out@.map_values(|s: String| s@) == vanished_of(fv.take(i as int), sv),
    {
        proof {
            assert(fv.take(i + 1).drop_last() =~= fv.take(i as int));
            assert(fv.take(i + 1).last() == files@[i as int]@);
        }
        let mut found = false;
        let m = seen.len();
        for j in 0..m
            invariant
                m == seen@.len(),
                n == files@.len(),
                i < n,
                sv == seen@.map_values(|s: String| s@),
                found <==> exists|q: int| 0 <= q < j && sv[q] == files@[i as int]@,
        {
            proof {
                assert(sv[j as int] == seen@[j as int]@);
            }
            if str_eq(seen[j].as_str(), files[i].as_str()) {
                found = true;
            }
        }
        if !found {
            let ghost before = out@.map_values(|s: String| s@);
            out.push(files[i].clone());
            proof {
                assert(out@.map_values(|s: String| s@) =~= before.push(files@[i as int]@));
            }
        }
    }
    proof {
        assert(fv.take(n as int) =~= fv);
    }
    out
}

/// Nothing to rebuild: no file changed or vanished, no full rebuild asked,
/// and no precise index to merge.
pub fn graph_current(changed: usize, pruned: usize, full: bool, precise_index: bool) -> (r: bool)
    ensures
        r == (changed == 0 && pruned == 0 && !full && !precise_index),
{
    changed == 0 && pruned == 0 && !full && !precise_index
}

/// Whether `es` holds an edge with the (source, target, relation) of `e`.
pub open spec fn key_in(es: Seq<EdgeV>, e: EdgeV) -> bool {
    exists|k: int| 0 <= k < es.len() && es[k].src == e.src && es[k].dst == e.dst && es[k].relation == e.relation
}

/// The edges of `es` whose key no edge of `precise` has, in order.
pub open spec fn not_superseded(es: Seq<EdgeV>, precise: Seq<EdgeV>) -> Seq<EdgeV>
    decreases es.len(),
{
    if es.len() == 0 {
        seq![]
    } else {
        let r = not_superseded(es.drop_last(), precise);
        if key_in(precise, es.last()) {
            r
        } else {
            r.push(es.last())
        }
    }
}

/// An edge's content together with its metadata.
pub open spec fn edge_whole(e: Edge) -> (EdgeV, Seq<(String, MetaValue)>) {
    (e@, e.metadata.entries@)
}

/// The contents and metadata of edges.
pub open spec fn wholes(es: Seq<Edge>) -> Seq<(EdgeV, Seq<(String, MetaValue)>)> {
    es.map_values(|e: Edge| edge_whole(e))
}

/// The edges of `es` (metadata included) whose key no edge of `precise`
/// has, in order.
pub open spec fn retained(es: Seq<Edge>, precise: Seq<EdgeV>) -> Seq<Edge>
    decreases es.len(),
{
    if es.len() == 0 {
        seq![]
    } else {
        let r = retained(es.drop_last(), precise);
        if key_in(precise, es.last()@) {
            r
        } else {
            r.push(es.last())
        }
    }
}

/// Law: after a merge of precise edges no built edge shares a key with a
/// precise one, and every built edge without a precise twin stays.
pub proof fn law_precise_supersedes(es: Seq<EdgeV>, precise: Seq<EdgeV>)
    ensures
        forall|i: int| 0 <= i < not_superseded(es, precise).len() ==> !key_in(precise, #[trigger] not_superseded(es, precise)[i]),
        forall|i: int| 0 <= i < es.len() && !key_in(precise, #[trigger] es[i]) ==> not_superseded(es, precise).contains(es[i]),
    decreases es.len(),
{
    if es.len() > 0 {
        let d = es.drop_last();
        let r = not_superseded(d, precise);
        law_precise_supersedes(d, precise);
        assert forall|i: int| 0 <= i < not_superseded(es, precise).len() implies !key_in(
            precise,
            #[trigger] not_superseded(es, precise)[i],
        ) by {
            if i < r.len() {
                assert(not_superseded(es, precise)[i] == r[i]);
            }
        }
        assert forall|i: int| 0 <= i < es.len() && !key_in(precise, #[trigger] es[i]) implies not_superseded(
            es,
            precise,
        ).contains(es[i]) by {
            if i < d.len() {
                assert(d[i] == es[i]);
                assert(r.contains(es[i]));
                let j = choose|j: int| 0 <= j < r.len() && r[j] == es[i];
                assert(not_superseded(es, precise)[j] == r[j]);
            } else {
                assert(not_superseded(es, precise).last() == es[i]);
            }
        }
    }
}

/// Whether some edge of `es` has key (`src`, `dst`, `rel`).
fn has_edge(es: &Vec<Edge>, src: &str, dst: &str, rel: EdgeRelation) -> (r: bool)
    ensures
        r == exists|k: int|
            0 <= k < es@.len() && es@[k]@.src == src@ && es@[k]@.dst == dst@ && es@[k]@.relation == rel,
{
    let n = es.len();
    for j in 0..n
        invariant
            n == es@.len(),
            forall|k: int|
                0 <= k < j ==> !(es@[k]@.src == src@ && es@[k]@.dst == dst@ && es@[k]@.relation == rel),
    {
        if es[j].relation == rel && str_eq(es[j].src.as_str(), src) && str_eq(es[j].dst.as_str(), dst) {
            return true;
        }
    }
    false
}

/// Merge precise edges in: they replace every edge with the same (source,
/// target, relation) and are appended; returns how many were merged.
pub fn merge_precise(edges: &mut Vec<Edge>, precise: Vec<Edge>) -> (n: usize)
    ensures
        views(final(edges)@) == not_superseded(views(old(edges)@), views(precise@)) + views(precise@),
        n == precise@.len(),
        final(edges)@.skip(final(edges)@.len() - precise@.len()) == precise@,
        wholes(final(edges)@.take(final(edges)@.len() - precise@.len())) == wholes(retained(old(edges)@, views(precise@))),
{
    let ghost pv = views(precise@);
    let ghost ev = views(edges@);
    let mut kept: Vec<Edge> = Vec::new();
    let n = edges.len();
    for i in 0..n
        invariant
            n == edges@.len(),
            ev == views(edges@),
            pv == views(precise@),
            views(kept@) == not_superseded(ev.take(i as int), pv),
            wholes(kept@) == wholes(retained(edges@.take(i as int), pv)),
    {
        proof {
            assert(ev.take(i + 1).drop_last() =~= ev.take(i as int));
            assert(ev.take(i + 1).last() == edges@[i as int]@);
            assert(edges@.take(i + 1).drop_last() =~= edges@.take(i as int));
            assert(edges@.take(i + 1).last() == edges@[i as int]);
        }
        let e = &edges[i];
        let dup = has_edge(&precise, e.src.as_str(), e.dst.as_str(), e.relation);
        proof {
            if dup {
                let k = choose|k: int|
                    0 <= k < precise@.len() && precise@[k]@.src == e@.src && precise@[k]@.dst == e@.dst
                        && precise@[k]@.relation == e@.relation;
                assert(pv[k] == precise@[k]@);
            }
            if key_in(pv, e@) {
                let k = choose|k: int|
                    0 <= k < pv.len() && pv[k].src == e@.src && pv[k].dst == e@.dst && pv[k].relation == e@.relation;
                assert(pv[k] == precise@[k]@);
            }
        }
        if !dup {
            let ghost before = views(kept@);
            let ghost wbefore = wholes(kept@);
            kept.push(e.duplicate());
            proof {
                assert(views(kept@) =~= before.push(e@));
                assert(wholes(kept@) =~= wbefore.push(edge_whole(*e)));
            }
        }
    }
    proof {
        assert(ev.take(n as int) =~= ev);
        assert(edges@.take(n as int) =~= edges@);
    }
    let m = precise.len();
    let mut p = precise;
    let ghost kv = views(kept@);
    let ghost k0 = kept@;
    let ghost p0 = p@;
    kept.append(&mut p);
    proof {
        assert(views(kept@) =~= kv + pv);
        assert(kept@ =~= k0 + p0);
        assert(kept@.skip(kept@.len() - p0.len()) =~= p0);
        assert(kept@.take(kept@.len() - p0.len()) =~= k0);
    }
    *edges = kept;
    m
}

/// Merge the edges of a SCIP index (its bytes, when one was found) over the
/// built edges; nothing when there is none, it does not decode, or it yields
/// no edge. Returns how many were merged.
pub fn merge_scip_edges(bytes: Option<&[u8]>, nodes: &[Node], edges: &mut Vec<Edge>) -> (n: usize)
    ensures
        match bytes {
            Some(b) => match crate::precise::scip_decode(b@) {
                Some(docs) => {
                    let pe = crate::precise::scip_edges_spec(docs, node_vs(nodes@));
                    &&& n == pe.len()
                    &&& pe.len() > 0 ==> views(final(edges)@) == not_superseded(views(old(edges)@), pe) + pe
                    &&& pe.len() > 0 ==> no_metadata(final(edges)@.skip(final(edges)@.len() - n))
                    &&& pe.len() > 0 ==> wholes(final(edges)@.take(final(edges)@.len() - n)) == wholes(retained(old(edges)@, pe))
                    &&& pe.len() == 0 ==> final(edges)@ == old(edges)@
                },
                None => n == 0 && final(edges)@ == old(edges)@,
            },
            None => n == 0 && final(edges)@ == old(edges)@,
        },
{
    let b = match bytes {
        Some(b) => b,
        None => return 0,
    };
    let precise = match import_scip(b, nodes) {
        Ok(p) => p,
        Err(_) => return 0,
    };
    if precise.len() == 0 {
        return 0;
    }
    merge_precise(edges, precise)
}

/// The number of `Calls` edges whose `dst` (`into`) or `src` (not `into`)
/// is `id`.
pub open spec fn call_degree(es: Seq<EdgeV>, id: Seq<char>, into: bool) -> nat
    decreases es.len(),
{
    if es.len() == 0 {
        0
    } else {
        let e = es.last();
        let hit = e.relation == EdgeRelation::Calls && (if into {
            e.dst == id
        } else {
            e.src == id
        });
        call_degree(es.drop_last(), id, into) + if hit {
            1nat
        } else {
            0nat
        }
    }
}

/// A count as stored: at most `u32::MAX`.
pub open spec fn count_cap(n: nat) -> u32 {
    if n > u32::MAX {
        u32::MAX
    } else {
        n as u32
    }
}

/// The `Calls` degree of `id`, capped.
fn call_degree_of(edges: &[Edge], id: &str, into: bool) -> (r: u32)
    ensures
        r == count_cap(call_degree(views(edges@), id@, into)),
{
    let ghost ev = views(edges@);
    let mut c: u32 = 0;
    let n = edges.len();
    for i in 0..n
        invariant
            n == edges@.len(),
            ev == views(edges@),
            c == count_cap(call_degree(ev.take(i as int), id@, into)),
    {
        proof {
            assert(ev.take(i + 1).drop_last() =~= ev.take(i as int));
            assert(ev.take(i + 1).last() == edges@[i as int]@);
        }
        let e = &edges[i];
        let hit = e.relation == EdgeRelation::Calls && if into {
            str_eq(e.dst.as_str(), id)
        } else {
            str_eq(e.src.as_str(), id)
        };
        if hit && c < 4294967295 {
            c = c + 1;
        }
    }
    proof {
        assert(ev.take(n as int) =~= ev);
    }
    c
}

/// Node `a` equals `b` but for its metadata.
pub open spec fn same_but_meta(a: Node, b: Node) -> bool {
    a.id@ == b.id@ && a.label == b.label && a.name@ == b.name@ && a.file_path@ == b.file_path@
        && a.line_start == b.line_start && a.line_end == b.line_end && a.language@ == b.language@
        && a.community == b.community
}

/// Record on every node its resolved call fan-in and fan-out (the number of
/// `Calls` edges into and out of it) as metadata `fan_in`/`fan_out`, where
/// they are not zero.
pub fn annotate_fan(nodes: &mut Vec<Node>, edges: &[Edge])
    requires
        forall|k: int| 0 <= k < old(nodes)@.len() ==> (#[trigger] old(nodes)@[k]).metadata.wf(),
    ensures
        final(nodes)@.len() == old(nodes)@.len(),
        forall|k: int| 0 <= k < final(nodes)@.len() ==> (#[trigger] final(nodes)@[k]).metadata.wf(),
        forall|k: int| 0 <= k < final(nodes)@.len() ==> same_but_meta(#[trigger] final(nodes)@[k], old(nodes)@[k]),
        forall|k: int, key: Seq<char>|
            0 <= k < final(nodes)@.len() ==> #[trigger] final(nodes)@[k].metadata.get(key) == {
                let id = old(nodes)@[k].id@;
                let fi = call_degree(views(edges@), id, true);
                let fo = call_degree(views(edges@), id, false);
                if key == "fan_out"@ && fo > 0 {
                    Some(MetaValue::Count(count_cap(fo)))
                } else if key == "fan_in"@ && fi > 0 {
                    Some(MetaValue::Count(count_cap(fi)))
                } else {
                    old(nodes)@[k].metadata.get(key)
                }
            },
{
    let n = nodes.len();
    for i in 0..n
        invariant
            n == nodes@.len(),
            n == old(nodes)@.len(),
            forall|k: int| 0 <= k < nodes@.len() ==> (#[trigger] nodes@[k]).metadata.wf(),
            forall|k: int| i <= k < n ==> nodes@[k] == old(nodes)@[k],
            forall|k: int| 0 <= k < n ==> same_but_meta(#[trigger] nodes@[k], old(nodes)@[k]),
            forall|k: int, key: Seq<char>|
                0 <= k < i ==> #[trigger] nodes@[k].metadata.get(key) == {
                    let id = old(nodes)@[k].id@;
                    let fi = call_degree(views(edges@), id, true);
                    let fo = call_degree(views(edges@), id, false);
                    if key == "fan_out"@ && fo > 0 {
                        Some(MetaValue::Count(count_cap(fo)))
                    } else if key == "fan_in"@ && fi > 0 {
                        Some(MetaValue::Count(count_cap(fi)))
                    } else {
                        old(nodes)@[k].metadata.get(key)
                    }
                },
    {
        let fi = call_degree_of(edges, nodes[i].id.as_str(), true);
        let fo = call_degree_of(edges, nodes[i].id.as_str(), false);
        let mut nd = nodes[i].duplicate();
        let ghost m0 = nd.metadata;
        proof {
            assert(nd.metadata.entries@ == old(nodes)@[i as int].metadata.entries@);
        }
        if fi > 0 {
            nd.metadata.insert("fan_in".to_owned(), MetaValue::Count(fi));
        }
        let ghost m1 = nd.metadata;
        if fo > 0 {
            nd.metadata.insert("fan_out".to_owned(), MetaValue::Count(fo));
        }
        proof {
            assert forall|key: Seq<char>| #[trigger] nd.metadata.get(key) == {
                let id = old(nodes)@[i as int].id@;
                let fi2 = call_degree(views(edges@), id, true);
                let fo2 = call_degree(views(edges@), id, false);
                if key == "fan_out"@ && fo2 > 0 {
                    Some(MetaValue::Count(count_cap(fo2)))
                } else if key == "fan_in"@ && fi2 > 0 {
                    Some(MetaValue::Count(count_cap(fi2)))
                } else {
                    old(nodes)@[i as int].metadata.get(key)
                }
            } by {
                assert(m0.get(key) == old(nodes)@[i as int].metadata.get(key));
                if fi > 0 {
                    assert(m1.get(key) == if key == "fan_in"@ { Some(MetaValue::Count(fi)) } else { m0.get(key) });
                }
            }
        }
        nodes.set(i, nd);
    }
}

/// The lines of `s` (`str::lines`): split at `\n`, without a final empty
/// piece, each without a trailing `\r`.
pub open spec fn lines_of(s: Seq<char>) -> Seq<Seq<char>> {
    let ps = crate::search::pieces_by(s, '\n');
    let ps2 = if ps.last().len() == 0 {
        ps.drop_last()
    } else {
        ps
    };
    ps2.map_values(|l: Seq<char>| if l.len() > 0 && l.last() == '\r' { l.drop_last() } else { l })
}

/// The first line with more than whitespace.
pub open spec fn first_nonblank(ls: Seq<Seq<char>>) -> Option<Seq<char>>
    decreases ls.len(),
{
    if ls.len() == 0 {
        None
    } else if trimmed(ls[0]).len() > 0 {
        Some(ls[0])
    } else {
        first_nonblank(ls.drop_first())
    }
}

/// At most the first `n` characters.
pub open spec fn prefix_upto(s: Seq<char>, n: nat) -> Seq<char> {
    if s.len() <= n {
        s
    } else {
        s.take(n as int)
    }
}

/// The Document node of chunk `c`, the `i`-th of its source: id
/// `doc.<source with non-alphanumerics as _>.<i>`, named by its first
/// non-blank line (at most 60 characters; `<source> #<i>` when that is
/// blank), with its text and content type as metadata.
pub open spec fn document_node_of(c: ChunkV, i: nat) -> NodeV {
    let title = prefix_upto(
        match first_nonblank(lines_of(c.text)) {
            Some(l) => l,
            None => c.source,
        },
        60,
    );
    NodeV {
        id: "doc."@ + path_segment(c.source) + "."@ + decimal(i),
        label: NodeLabel::Document,
        name: if trimmed(title).len() == 0 {
            c.source + " #"@ + decimal(i)
        } else {
            title
        },
        file_path: c.source,
        line_start: 1,
        line_end: 1,
        language: c.content_type,
        meta: seq![("text"@, MetaV::Text(c.text)), ("content_type"@, MetaV::Text(c.content_type))],
        community: None,
    }
}

/// The Document node of chunk `ch`, the `i`-th of its source (see
/// `document_node_of`).
pub fn document_node_from_chunk(ch: &DocChunk, i: usize) -> (r: Node)
    ensures
        r@ == document_node_of(ch@, i as nat),
        r.metadata.wf(),
{
    let safe = crate::langs::normalize_path(ch.source.as_str());
    let cs = chars_of(ch.text.as_str());
    let lines = crate::search::split_by(&cs, '\n');
    let ghost lv = lines@.map_values(|v: Vec<char>| v@);
    let nl = if lines.len() > 0 && lines[lines.len() - 1].len() == 0 {
        lines.len() - 1
    } else {
        lines.len()
    };
    let mut first: Option<Vec<char>> = None;
    let mut j: usize = 0;
    let ghost ls = lines_of(ch.text@);
    proof {
        crate::search::lemma_pieces_nonempty(ch.text@, '\n');
        assert(ls.len() == nl);
        assert(ls.skip(0) =~= ls);
    }
    while j < nl
        invariant_except_break
            first is None,
            first_nonblank(ls) == first_nonblank(ls.skip(j as int)),
        invariant
            j <= nl,
            nl <= lines@.len(),
            lv == lines@.map_values(|v: Vec<char>| v@),
            lv == crate::search::pieces_by(ch.text@, '\n'),
            ls == lines_of(ch.text@),
            ls.len() == nl,
        ensures
            first matches Some(l) ==> first_nonblank(ls) == Some(l@),
            first is None ==> first_nonblank(ls) is None,
        decreases nl - j,
    {
        let l = &lines[j];
        let mut line: Vec<char> = Vec::new();
        let ln = if l.len() > 0 && l[l.len() - 1] == '\r' {
            l.len() - 1
        } else {
            l.len()
        };
        for q in 0..ln
            invariant
                ln <= l@.len(),
                line@ == l@.take(q as int),
        {
            line.push(l[q]);
            proof {
                assert(line@ =~= l@.take(q + 1));
            }
        }
        proof {
            assert(lv[j as int] == l@);
            assert(ls[j as int] == line@) by {
                if l@.len() > 0 && l@.last() == '\r' {
                    assert(line@ =~= l@.drop_last());
                } else {
                    assert(line@ =~= l@);
                }
            }
            assert(ls.skip(j as int)[0] == ls[j as int]);
            assert(ls.skip(j as int).drop_first() =~= ls.skip(j + 1));
        }
        let t = trim_chars(&line);
        if t.len() > 0 {
            first = Some(line);
            break;
        }
        j = j + 1;
    }
    proof {
        if first is None {
            assert(ls.skip(nl as int).len() == 0);
        }
    }
    let base: Vec<char> = match first {
        Some(l) => l,
        None => chars_of(ch.source.as_str()),
    };
    let mut title: Vec<char> = Vec::new();
    let tn = if base.len() < 60 {
        base.len()
    } else {
        60
    };
    for q in 0..tn
        invariant
            tn <= base@.len(),
            title@ == base@.take(q as int),
    {
        title.push(base[q]);
        proof {
            assert(title@ =~= base@.take(q + 1));
        }
    }
    proof {
        assert(title@ =~= prefix_upto(base@, 60));
    }
    let mut id: Vec<char> = Vec::new();
    push_str(&mut id, "doc.");
    push_str(&mut id, safe.as_str());
    push_str(&mut id, ".");
    push_decimal(&mut id, i);
    let tt = trim_chars(&title);
    let name = if tt.len() == 0 {
        let mut nm: Vec<char> = Vec::new();
        push_str(&mut nm, ch.source.as_str());
        push_str(&mut nm, " #");
        push_decimal(&mut nm, i);
        string_of(&nm)
    } else {
        string_of(&title)
    };
    let mut entries: Vec<(String, MetaValue)> = Vec::new();
    entries.push(("text".to_owned(), MetaValue::Text(ch.text.clone())));
    entries.push(("content_type".to_owned(), MetaValue::Text(ch.content_type.clone())));
    let n = Node {
        id: string_of(&id),
        label: NodeLabel::Document,
        name,
        file_path: ch.source.clone(),
        line_start: 1,
        line_end: 1,
        language: ch.content_type.clone(),
        metadata: Metadata { entries },
        community: None,
    };
    proof {
        reveal_strlit("text");
        reveal_strlit("content_type");
        assert("text"@.len() == 4);
        assert("content_type"@.len() == 12);
        assert(n.metadata.wf());
        assert(n@.meta =~= document_node_of(ch@, i as nat).meta);
        assert(n@.id =~= document_node_of(ch@, i as nat).id);
    }
    n
}

/// The Document nodes of a prose file: its chunks, numbered from 0.
pub fn document_nodes(source: &str, content_type: &str, text: &str) -> (r: Vec<Node>)
    ensures
        r@.len() == chunks_of(text@, content_type@, source@).len(),
        forall|k: int| 0 <= k < r@.len() ==> (#[trigger] r@[k])@ == document_node_of(chunks_of(text@, content_type@, source@)[k], k as nat),
{
    let chunks = chunk(text, content_type, source);
    let ghost cv = crate::ingest::chunk_views(chunks@);
    let mut out: Vec<Node> = Vec::new();
    let n = chunks.len();
    for i in 0..n
        invariant
            n == chunks@.len(),
            cv == crate::ingest::chunk_views(chunks@),
            cv == chunks_of(text@, content_type@, source@),
            out@.len() == i,
            forall|k: int| 0 <= k < i ==> (#[trigger] out@[k])@ == document_node_of(cv[k], k as nat),
    {
        let nd = document_node_from_chunk(&chunks[i], i);
        proof {
            assert(cv[i as int] == chunks@[i as int]@);
        }
        out.push(nd);
    }
    out
}

/// The SHA-256 digest of some bytes.
pub uninterp spec fn sha256_of(b: Seq<u8>) -> Seq<u8>;

/// `Sha256::digest`: the 32-byte digest of `b`.
#[verifier::external_body]
fn sha256_digest(b: &[u8]) -> (r: Vec<u8>)
    ensures
        r@ == sha256_of(b@),
        r@.len() == 32,
{
    Sha256::digest(b).to_vec()
}

/// The lowercase hex digit of `d < 16`.
pub open spec fn hex_char(d: nat) -> char {
    if d < 10 {
        ((48 + d) as u32) as char
    } else {
        ((87 + d) as u32) as char
    }
}

/// Lowercase hex, two digits per byte.
pub open spec fn hex_of(b: Seq<u8>) -> Seq<char>
    decreases b.len(),
{
    if b.len() == 0 {
        seq![]
    } else {
        hex_of(b.drop_last()) + seq![hex_char((b.last() / 16) as nat), hex_char((b.last() % 16) as nat)]
    }
}

fn hex_digit(d: u8) -> (c: char)
    requires
        d < 16,
    ensures
        c == hex_char(d as nat),
{
    if d < 10 {
        (48u8 + d) as char
    } else {
        (87u8 + d) as char
    }
}

/// The SHA-256 of a text, as lowercase hex.
pub fn sha256(s: &str) -> (r: String)
    ensures
        r@ == hex_of(sha256_of(s.spec_bytes())),
        r@.len() == 64,
{
    let bytes = s.as_bytes();
    let d = sha256_digest(bytes);
    let mut out: Vec<char> = Vec::new();
    let n = d.len();
    for i in 0..n
        invariant
            n == d@.len(),
            out@ == hex_of(d@.take(i as int)),
    {
        proof {
            assert(d@.take(i + 1).drop_last() =~= d@.take(i as int));
            assert(d@.take(i + 1).last() == d@[i as int]);
        }
        let b = d[i];
        out.push(hex_digit(b / 16));
        out.push(hex_digit(b % 16));
    }
    proof {
        assert(d@.take(n as int) =~= d@);
        lemma_hex_len(d@);
    }
    string_of(&out)
}

/// The cache key of a project: the first 16 hex digits of the SHA-256 of its
/// absolute path.
pub fn cache_key(abs_path: &str) -> (r: String)
    ensures
        r@ == hex_of(sha256_of(abs_path.spec_bytes())).take(16),
{
    let h = sha256(abs_path);
    let cs = chars_of(h.as_str());
    let mut out: Vec<char> = Vec::new();
    proof {
        lemma_hex_len(sha256_of(abs_path.spec_bytes()));
    }
    for i in 0..16
        invariant
            cs@ == hex_of(sha256_of(abs_path.spec_bytes())),
            cs@.len() == 64,
            out@ == cs@.take(i as int),
    {
        out.push(cs[i]);
        proof {
            assert(out@ =~= cs@.take(i + 1));
        }
    }
    string_of(&out)
}

proof fn lemma_hex_len(b: Seq<u8>)
    ensures
        hex_of(b).len() == 2 * b.len(),
    decreases b.len(),
{
    if b.len() > 0 {
        lemma_hex_len(b.drop_last());
    }
}


/// The extensions the parser has a grammar for are exactly the code
/// extensions the indexer walks, and none of them is a prose extension.
proof fn lemma_code_exts_are_grammars(e: Seq<char>)
    ensures
        code_exts().contains(e) <==> grammar_for(e) is Some,
        grammar_for(e) is Some ==> !doc_exts().contains(e),
{
    reveal_strlit("rs");
    reveal_strlit("py");
    reveal_strlit("pyi");
    reveal_strlit("js");
    reveal_strlit("jsx");
    reveal_strlit("mjs");
    reveal_strlit("cjs");
    reveal_strlit("ts");
    reveal_strlit("mts");
    reveal_strlit("cts");
    reveal_strlit("tsx");
    reveal_strlit("go");
    reveal_strlit("swift");
    reveal_strlit("java");
    reveal_strlit("c");
    reveal_strlit("h");
    reveal_strlit("cpp");
    reveal_strlit("cc");
    reveal_strlit("cxx");
    reveal_strlit("hpp");
    reveal_strlit("hh");
    reveal_strlit("hxx");
    reveal_strlit("rb");
    reveal_strlit("cs");
    reveal_strlit("sh");
    reveal_strlit("bash");
    reveal_strlit("kt");
    reveal_strlit("kts");
    reveal_strlit("md");
    reveal_strlit("markdown");
    reveal_strlit("mdx");
    reveal_strlit("rst");
    reveal_strlit("adoc");
    reveal_strlit("asciidoc");
    reveal_strlit("txt");
    reveal_strlit("strings");
    reveal_strlit("stringsdict");
    reveal_strlit("po");
    reveal_strlit("xliff");
    reveal_strlit("xlf");
    reveal_strlit("arb");
    if grammar_for(e) is Some {
        assert(code_exts().contains(e)) by {
            let c = code_exts();
            assert(c[0] == "rs"@ && c[1] == "py"@ && c[2] == "pyi"@ && c[3] == "js"@ && c[4] == "jsx"@ && c[5] == "mjs"@);
            assert(c[6] == "cjs"@ && c[7] == "ts"@ && c[8] == "mts"@ && c[9] == "cts"@ && c[10] == "tsx"@ && c[11] == "go"@);
            assert(c[12] == "swift"@ && c[13] == "java"@ && c[14] == "c"@ && c[15] == "h"@ && c[16] == "cpp"@ && c[17] == "cc"@);
            assert(c[18] == "cxx"@ && c[19] == "hpp"@ && c[20] == "hh"@ && c[21] == "hxx"@ && c[22] == "rb"@ && c[23] == "cs"@);
            assert(c[24] == "sh"@ && c[25] == "bash"@ && c[26] == "kt"@ && c[27] == "kts"@);
        }
        if doc_exts().contains(e) {
            let k = choose|k: int| 0 <= k < doc_exts().len() && doc_exts()[k] == e;
            let dx = doc_exts();
            assert(dx[0] == "md"@ && dx[1] == "markdown"@ && dx[2] == "mdx"@ && dx[3] == "rst"@
                && dx[4] == "adoc"@ && dx[5] == "asciidoc"@ && dx[6] == "txt"@ && dx[7] == "strings"@
                && dx[8] == "stringsdict"@ && dx[9] == "po"@ && dx[10] == "xliff"@ && dx[11] == "xlf"@
                && dx[12] == "arb"@);
                lemma_no_grammar_for_prose_md();
                lemma_no_grammar_for_prose_markdown();
                lemma_no_grammar_for_prose_mdx();
                lemma_no_grammar_for_prose_rst();
                lemma_no_grammar_for_prose_adoc();
                lemma_no_grammar_for_prose_asciidoc();
                lemma_no_grammar_for_prose_txt();
                lemma_no_grammar_for_prose_strings();
                lemma_no_grammar_for_prose_stringsdict();
                lemma_no_grammar_for_prose_po();
                lemma_no_grammar_for_prose_xliff();
                lemma_no_grammar_for_prose_xlf();
                lemma_no_grammar_for_prose_arb();
            assert(grammar_for(dx[k]) is None);
        }
    }
    if code_exts().contains(e) {
        let k = choose|k: int| 0 <= k < code_exts().len() && code_exts()[k] == e;
    }
}

/// Law: a walked file that is not a directory, whose extension the parser
/// has a grammar for, that is not a lockfile and not larger than
/// `MAX_FILE_BYTES` (or of unknown size) is indexed as code; and whatever is
/// indexed as code has an extension the parser has a grammar for.
pub proof fn law_parsable_files_indexed_as_code(name: Seq<char>, len: Option<u64>)
    ensures
        ({
            &&& extension_of(name) matches Some(e) && grammar_for(e) is Some
            &&& forall|k: int| 0 <= k < skip_names().len() ==> lower(#[trigger] skip_names()[k]) != lower(name)
            &&& len matches Some(l) ==> l <= MAX_FILE_BYTES
        }) ==> classify_of(false, name, len) == Some(false),
        forall|is_dir: bool|
            #[trigger] classify_of(is_dir, name, len) == Some(false) ==> !is_dir && (extension_of(name) matches Some(
                e,
            ) && grammar_for(e) is Some),
{
    let e = match extension_of(name) {
        Some(e) => e,
        None => seq![],
    };
    lemma_code_exts_are_grammars(e);
    lemma_code_exts_are_grammars(seq![]);
    lemma_no_grammar_for_empty();
    assert(seq![] =~= Seq::<char>::empty());
}


proof fn lemma_no_grammar_for_prose_md()
    ensures
        grammar_for("md"@) is None,
{
    reveal_strlit("md");
    reveal_strlit("rs");
    reveal_strlit("py");
    reveal_strlit("pyi");
    reveal_strlit("js");
    reveal_strlit("jsx");
    reveal_strlit("mjs");
    reveal_strlit("cjs");
    reveal_strlit("ts");
    reveal_strlit("mts");
    reveal_strlit("cts");
    reveal_strlit("tsx");
    reveal_strlit("go");
    reveal_strlit("swift");
    reveal_strlit("java");
    reveal_strlit("c");
    reveal_strlit("h");
    reveal_strlit("cpp");
    reveal_strlit("cc");
    reveal_strlit("cxx");
    reveal_strlit("hpp");
    reveal_strlit("hh");
    reveal_strlit("hxx");
    reveal_strlit("rb");
    reveal_strlit("cs");
    reveal_strlit("sh");
    reveal_strlit("bash");
    reveal_strlit("kt");
    reveal_strlit("kts");
    assert("rs"@[0] != "md"@[0]);
    assert("py"@[0] != "md"@[0]);
    assert("pyi"@.len() != "md"@.len());
    assert("js"@[0] != "md"@[0]);
    assert("jsx"@.len() != "md"@.len());
    assert("mjs"@.len() != "md"@.len());
    assert("cjs"@.len() != "md"@.len());
    assert("ts"@[0] != "md"@[0]);
    assert("mts"@.len() != "md"@.len());
    assert("cts"@.len() != "md"@.len());
    assert("tsx"@.len() != "md"@.len());
    assert("go"@[0] != "md"@[0]);
    assert("swift"@.len() != "md"@.len());
    assert("java"@.len() != "md"@.len());
    assert("c"@.len() != "md"@.len());
    assert("h"@.len() != "md"@.len());
    assert("cpp"@.len() != "md"@.len());
    assert("cc"@[0] != "md"@[0]);
    assert("cxx"@.len() != "md"@.len());
    assert("hpp"@.len() != "md"@.len());
    assert("hh"@[0] != "md"@[0]);
    assert("hxx"@.len() != "md"@.len());
    assert("rb"@[0] != "md"@[0]);
    assert("cs"@[0] != "md"@[0]);
    assert("sh"@[0] != "md"@[0]);
    assert("bash"@.len() != "md"@.len());
    assert("kt"@[0] != "md"@[0]);
    assert("kts"@.len() != "md"@.len());
}

proof fn lemma_no_grammar_for_prose_markdown()
    ensures
        grammar_for("markdown"@) is None,
{
    reveal_strlit("markdown");
    reveal_strlit("rs");
    reveal_strlit("py");
    reveal_strlit("pyi");
    reveal_strlit("js");
    reveal_strlit("jsx");
    reveal_strlit("mjs");
    reveal_strlit("cjs");
    reveal_strlit("ts");
    reveal_strlit("mts");
    reveal_strlit("cts");
    reveal_strlit("tsx");
    reveal_strlit("go");
    reveal_strlit("swift");
    reveal_strlit("java");
    reveal_strlit("c");
    reveal_strlit("h");
    reveal_strlit("cpp");
    reveal_strlit("cc");
    reveal_strlit("cxx");
    reveal_strlit("hpp");
    reveal_strlit("hh");
    reveal_strlit("hxx");
    reveal_strlit("rb");
    reveal_strlit("cs");
    reveal_strlit("sh");
    reveal_strlit("bash");
    reveal_strlit("kt");
    reveal_strlit("kts");
    assert("rs"@.len() != "markdown"@.len());
    assert("py"@.len() != "markdown"@.len());
    assert("pyi"@.len() != "markdown"@.len());
    assert("js"@.len() != "markdown"@.len());
    assert("jsx"@.len() != "markdown"@.len());
    assert("mjs"@.len() != "markdown"@.len());
    assert("cjs"@.len() != "markdown"@.len());
    assert("ts"@.len() != "markdown"@.len());
    assert("mts"@.len() != "markdown"@.len());
    assert("cts"@.len() != "markdown"@.len());
    assert("tsx"@.len() != "markdown"@.len());
    assert("go"@.len() != "markdown"@.len());
    assert("swift"@.len() != "markdown"@.len());
    assert("java"@.len() != "markdown"@.len());
    assert("c"@.len() != "markdown"@.len());
    assert("h"@.len() != "markdown"@.len());
    assert("cpp"@.len() != "markdown"@.len());
    assert("cc"@.len() != "markdown"@.len());
    assert("cxx"@.len() != "markdown"@.len());
    assert("hpp"@.len() != "markdown"@.len());
    assert("hh"@.len() != "markdown"@.len());
    assert("hxx"@.len() != "markdown"@.len());
    assert("rb"@.len() != "markdown"@.len());
    assert("cs"@.len() != "markdown"@.len());
    assert("sh"@.len() != "markdown"@.len());
    assert("bash"@.len() != "markdown"@.len());
    assert("kt"@.len() != "markdown"@.len());
    assert("kts"@.len() != "markdown"@.len());
}

proof fn lemma_no_grammar_for_prose_mdx()
    ensures
        grammar_for("mdx"@) is None,
{
    reveal_strlit("mdx");
    reveal_strlit("rs");
    reveal_strlit("py");
    reveal_strlit("pyi");
    reveal_strlit("js");
    reveal_strlit("jsx");
    reveal_strlit("mjs");
    reveal_strlit("cjs");
    reveal_strlit("ts");
    reveal_strlit("mts");
    reveal_strlit("cts");
    reveal_strlit("tsx");
    reveal_strlit("go");
    reveal_strlit("swift");
    reveal_strlit("java");
    reveal_strlit("c");
    reveal_strlit("h");
    reveal_strlit("cpp");
    reveal_strlit("cc");
    reveal_strlit("cxx");
    reveal_strlit("hpp");
    reveal_strlit("hh");
    reveal_strlit("hxx");
    reveal_strlit("rb");
    reveal_strlit("cs");
    reveal_strlit("sh");
    reveal_strlit("bash");
    reveal_strlit("kt");
    reveal_strlit("kts");
    assert("rs"@.len() != "mdx"@.len());
    assert("py"@.len() != "mdx"@.len());
    assert("pyi"@[0] != "mdx"@[0]);
    assert("js"@.len() != "mdx"@.len());
    assert("jsx"@[0] != "mdx"@[0]);
    assert("mjs"@[1] != "mdx"@[1]);
    assert("cjs"@[0] != "mdx"@[0]);
    assert("ts"@.len() != "mdx"@.len());
    assert("mts"@[1] != "mdx"@[1]);
    assert("cts"@[0] != "mdx"@[0]);
    assert("tsx"@[0] != "mdx"@[0]);
    assert("go"@.len() != "mdx"@.len());
    assert("swift"@.len() != "mdx"@.len());
    assert("java"@.len() != "mdx"@.len());
    assert("c"@.len() != "mdx"@.len());
    assert("h"@.len() != "mdx"@.len());
    assert("cpp"@[0] != "mdx"@[0]);
    assert("cc"@.len() != "mdx"@.len());
    assert("cxx"@[0] != "mdx"@[0]);
    assert("hpp"@[0] != "mdx"@[0]);
    assert("hh"@.len() != "mdx"@.len());
    assert("hxx"@[0] != "mdx"@[0]);
    assert("rb"@.len() != "mdx"@.len());
    assert("cs"@.len() != "mdx"@.len());
    assert("sh"@.len() != "mdx"@.len());
    assert("bash"@.len() != "mdx"@.len());
    assert("kt"@.len() != "mdx"@.len());
    assert("kts"@[0] != "mdx"@[0]);
}

proof fn lemma_no_grammar_for_prose_rst()
    ensures
        grammar_for("rst"@) is None,
{
    reveal_strlit("rst");
    reveal_strlit("rs");
    reveal_strlit("py");
    reveal_strlit("pyi");
    reveal_strlit("js");
    reveal_strlit("jsx");
    reveal_strlit("mjs");
    reveal_strlit("cjs");
    reveal_strlit("ts");
    reveal_strlit("mts");
    reveal_strlit("cts");
    reveal_strlit("tsx");
    reveal_strlit("go");
    reveal_strlit("swift");
    reveal_strlit("java");
    reveal_strlit("c");
    reveal_strlit("h");
    reveal_strlit("cpp");
    reveal_strlit("cc");
    reveal_strlit("cxx");
    reveal_strlit("hpp");
    reveal_strlit("hh");
    reveal_strlit("hxx");
    reveal_strlit("rb");
    reveal_strlit("cs");
    reveal_strlit("sh");
    reveal_strlit("bash");
    reveal_strlit("kt");
    reveal_strlit("kts");
    assert("rs"@.len() != "rst"@.len());
    assert("py"@.len() != "rst"@.len());
    assert("pyi"@[0] != "rst"@[0]);
    assert("js"@.len() != "rst"@.len());
    assert("jsx"@[0] != "rst"@[0]);
    assert("mjs"@[0] != "rst"@[0]);
    assert("cjs"@[0] != "rst"@[0]);
    assert("ts"@.len() != "rst"@.len());
    assert("mts"@[0] != "rst"@[0]);
    assert("cts"@[0] != "rst"@[0]);
    assert("tsx"@[0] != "rst"@[0]);
    assert("go"@.len() != "rst"@.len());
    assert("swift"@.len() != "rst"@.len());
    assert("java"@.len() != "rst"@.len());
    assert("c"@.len() != "rst"@.len());
    assert("h"@.len() != "rst"@.len());
    assert("cpp"@[0] != "rst"@[0]);
    assert("cc"@.len() != "rst"@.len());
    assert("cxx"@[0] != "rst"@[0]);
    assert("hpp"@[0] != "rst"@[0]);
    assert("hh"@.len() != "rst"@.len());
    assert("hxx"@[0] != "rst"@[0]);
    assert("rb"@.len() != "rst"@.len());
    assert("cs"@.len() != "rst"@.len());
    assert("sh"@.len() != "rst"@.len());
    assert("bash"@.len() != "rst"@.len());
    assert("kt"@.len() != "rst"@.len());
    assert("kts"@[0] != "rst"@[0]);
}

proof fn lemma_no_grammar_for_prose_adoc()
    ensures
        grammar_for("adoc"@) is None,
{
    reveal_strlit("adoc");
    reveal_strlit("rs");
    reveal_strlit("py");
    reveal_strlit("pyi");
    reveal_strlit("js");
    reveal_strlit("jsx");
    reveal_strlit("mjs");
    reveal_strlit("cjs");
    reveal_strlit("ts");
    reveal_strlit("mts");
    reveal_strlit("cts");
    reveal_strlit("tsx");
    reveal_strlit("go");
    reveal_strlit("swift");
    reveal_strlit("java");
    reveal_strlit("c");
    reveal_strlit("h");
    reveal_strlit("cpp");
    reveal_strlit("cc");
    reveal_strlit("cxx");
    reveal_strlit("hpp");
    reveal_strlit("hh");
    reveal_strlit("hxx");
    reveal_strlit("rb");
    reveal_strlit("cs");
    reveal_strlit("sh");
    reveal_strlit("bash");
    reveal_strlit("kt");
    reveal_strlit("kts");
    assert("rs"@.len() != "adoc"@.len());
    assert("py"@.len() != "adoc"@.len());
    assert("pyi"@.len() != "adoc"@.len());
    assert("js"@.len() != "adoc"@.len());
    assert("jsx"@.len() != "adoc"@.len());
    assert("mjs"@.len() != "adoc"@.len());
    assert("cjs"@.len() != "adoc"@.len());
    assert("ts"@.len() != "adoc"@.len());
    assert("mts"@.len() != "adoc"@.len());
    assert("cts"@.len() != "adoc"@.len());
    assert("tsx"@.len() != "adoc"@.len());
    assert("go"@.len() != "adoc"@.len());
    assert("swift"@.len() != "adoc"@.len());
    assert("java"@[0] != "adoc"@[0]);
    assert("c"@.len() != "adoc"@.len());
    assert("h"@.len() != "adoc"@.len());
    assert("cpp"@.len() != "adoc"@.len());
    assert("cc"@.len() != "adoc"@.len());
    assert("cxx"@.len() != "adoc"@.len());
    assert("hpp"@.len() != "adoc"@.len());
    assert("hh"@.len() != "adoc"@.len());
    assert("hxx"@.len() != "adoc"@.len());
    assert("rb"@.len() != "adoc"@.len());
    assert("cs"@.len() != "adoc"@.len());
    assert("sh"@.len() != "adoc"@.len());
    assert("bash"@[0] != "adoc"@[0]);
    assert("kt"@.len() != "adoc"@.len());
    assert("kts"@.len() != "adoc"@.len());
}

proof fn lemma_no_grammar_for_prose_asciidoc()
    ensures
        grammar_for("asciidoc"@) is None,
{
    reveal_strlit("asciidoc");
    reveal_strlit("rs");
    reveal_strlit("py");
    reveal_strlit("pyi");
    reveal_strlit("js");
    reveal_strlit("jsx");
    reveal_strlit("mjs");
    reveal_strlit("cjs");
    reveal_strlit("ts");
    reveal_strlit("mts");
    reveal_strlit("cts");
    reveal_strlit("tsx");
    reveal_strlit("go");
    reveal_strlit("swift");
    reveal_strlit("java");
    reveal_strlit("c");
    reveal_strlit("h");
    reveal_strlit("cpp");
    reveal_strlit("cc");
    reveal_strlit("cxx");
    reveal_strlit("hpp");
    reveal_strlit("hh");
    reveal_strlit("hxx");
    reveal_strlit("rb");
    reveal_strlit("cs");
    reveal_strlit("sh");
    reveal_strlit("bash");
    reveal_strlit("kt");
    reveal_strlit("kts");
    assert("rs"@.len() != "asciidoc"@.len());
    assert("py"@.len() != "asciidoc"@.len());
    assert("pyi"@.len() != "asciidoc"@.len());
    assert("js"@.len() != "asciidoc"@.len());
    assert("jsx"@.len() != "asciidoc"@.len());
    assert("mjs"@.len() != "asciidoc"@.len());
    assert("cjs"@.len() != "asciidoc"@.len());
    assert("ts"@.len() != "asciidoc"@.len());
    assert("mts"@.len() != "asciidoc"@.len());
    assert("cts"@.len() != "asciidoc"@.len());
    assert("tsx"@.len() != "asciidoc"@.len());
    assert("go"@.len() != "asciidoc"@.len());
    assert("swift"@.len() != "asciidoc"@.len());
    assert("java"@.len() != "asciidoc"@.len());
    assert("c"@.len() != "asciidoc"@.len());
    assert("h"@.len() != "asciidoc"@.len());
    assert("cpp"@.len() != "asciidoc"@.len());
    assert("cc"@.len() != "asciidoc"@.len());
    assert("cxx"@.len() != "asciidoc"@.len());
    assert("hpp"@.len() != "asciidoc"@.len());
    assert("hh"@.len() != "asciidoc"@.len());
    assert("hxx"@.len() != "asciidoc"@.len());
    assert("rb"@.len() != "asciidoc"@.len());
    assert("cs"@.len() != "asciidoc"@.len());
    assert("sh"@.len() != "asciidoc"@.len());
    assert("bash"@.len() != "asciidoc"@.len());
    assert("kt"@.len() != "asciidoc"@.len());
    assert("kts"@.len() != "asciidoc"@.len());
}

proof fn lemma_no_grammar_for_prose_txt()
    ensures
        grammar_for("txt"@) is None,
{
    reveal_strlit("txt");
    reveal_strlit("rs");
    reveal_strlit("py");
    reveal_strlit("pyi");
    reveal_strlit("js");
    reveal_strlit("jsx");
    reveal_strlit("mjs");
    reveal_strlit("cjs");
    reveal_strlit("ts");
    reveal_strlit("mts");
    reveal_strlit("cts");
    reveal_strlit("tsx");
    reveal_strlit("go");
    reveal_strlit("swift");
    reveal_strlit("java");
    reveal_strlit("c");
    reveal_strlit("h");
    reveal_strlit("cpp");
    reveal_strlit("cc");
    reveal_strlit("cxx");
    reveal_strlit("hpp");
    reveal_strlit("hh");
    reveal_strlit("hxx");
    reveal_strlit("rb");
    reveal_strlit("cs");
    reveal_strlit("sh");
    reveal_strlit("bash");
    reveal_strlit("kt");
    reveal_strlit("kts");
    assert("rs"@.len() != "txt"@.len());
    assert("py"@.len() != "txt"@.len());
    assert("pyi"@[0] != "txt"@[0]);
    assert("js"@.len() != "txt"@.len());
    assert("jsx"@[0] != "txt"@[0]);
    assert("mjs"@[0] != "txt"@[0]);
    assert("cjs"@[0] != "txt"@[0]);
    assert("ts"@.len() != "txt"@.len());
    assert("mts"@[0] != "txt"@[0]);
    assert("cts"@[0] != "txt"@[0]);
    assert("tsx"@[1] != "txt"@[1]);
    assert("go"@.len() != "txt"@.len());
    assert("swift"@.len() != "txt"@.len());
    assert("java"@.len() != "txt"@.len());
    assert("c"@.len() != "txt"@.len());
    assert("h"@.len() != "txt"@.len());
    assert("cpp"@[0] != "txt"@[0]);
    assert("cc"@.len() != "txt"@.len());
    assert("cxx"@[0] != "txt"@[0]);
    assert("hpp"@[0] != "txt"@[0]);
    assert("hh"@.len() != "txt"@.len());
    assert("hxx"@[0] != "txt"@[0]);
    assert("rb"@.len() != "txt"@.len());
    assert("cs"@.len() != "txt"@.len());
    assert("sh"@.len() != "txt"@.len());
    assert("bash"@.len() != "txt"@.len());
    assert("kt"@.len() != "txt"@.len());
    assert("kts"@[0] != "txt"@[0]);
}

proof fn lemma_no_grammar_for_prose_strings()
    ensures
        grammar_for("strings"@) is None,
{
    reveal_strlit("strings");
    reveal_strlit("rs");
    reveal_strlit("py");
    reveal_strlit("pyi");
    reveal_strlit("js");
    reveal_strlit("jsx");
    reveal_strlit("mjs");
    reveal_strlit("cjs");
    reveal_strlit("ts");
    reveal_strlit("mts");
    reveal_strlit("cts");
    reveal_strlit("tsx");
    reveal_strlit("go");
    reveal_strlit("swift");
    reveal_strlit("java");
    reveal_strlit("c");
    reveal_strlit("h");
    reveal_strlit("cpp");
    reveal_strlit("cc");
    reveal_strlit("cxx");
    reveal_strlit("hpp");
    reveal_strlit("hh");
    reveal_strlit("hxx");
    reveal_strlit("rb");
    reveal_strlit("cs");
    reveal_strlit("sh");
    reveal_strlit("bash");
    reveal_strlit("kt");
    reveal_strlit("kts");
    assert("rs"@.len() != "strings"@.len());
    assert("py"@.len() != "strings"@.len());
    assert("pyi"@.len() != "strings"@.len());
    assert("js"@.len() != "strings"@.len());
    assert("jsx"@.len() != "strings"@.len());
    assert("mjs"@.len() != "strings"@.len());
    assert("cjs"@.len() != "strings"@.len());
    assert("ts"@.len() != "strings"@.len());
    assert("mts"@.len() != "strings"@.len());
    assert("cts"@.len() != "strings"@.len());
    assert("tsx"@.len() != "strings"@.len());
    assert("go"@.len() != "strings"@.len());
    assert("swift"@.len() != "strings"@.len());
    assert("java"@.len() != "strings"@.len());
    assert("c"@.len() != "strings"@.len());
    assert("h"@.len() != "strings"@.len());
    assert("cpp"@.len() != "strings"@.len());
    assert("cc"@.len() != "strings"@.len());
    assert("cxx"@.len() != "strings"@.len());
    assert("hpp"@.len() != "strings"@.len());
    assert("hh"@.len() != "strings"@.len());
    assert("hxx"@.len() != "strings"@.len());
    assert("rb"@.len() != "strings"@.len());
    assert("cs"@.len() != "strings"@.len());
    assert("sh"@.len() != "strings"@.len());
    assert("bash"@.len() != "strings"@.len());
    assert("kt"@.len() != "strings"@.len());
    assert("kts"@.len() != "strings"@.len());
}

proof fn lemma_no_grammar_for_prose_stringsdict()
    ensures
        grammar_for("stringsdict"@) is None,
{
    reveal_strlit("stringsdict");
    reveal_strlit("rs");
    reveal_strlit("py");
    reveal_strlit("pyi");
    reveal_strlit("js");
    reveal_strlit("jsx");
    reveal_strlit("mjs");
    reveal_strlit("cjs");
    reveal_strlit("ts");
    reveal_strlit("mts");
    reveal_strlit("cts");
    reveal_strlit("tsx");
    reveal_strlit("go");
    reveal_strlit("swift");
    reveal_strlit("java");
    reveal_strlit("c");
    reveal_strlit("h");
    reveal_strlit("cpp");
    reveal_strlit("cc");
    reveal_strlit("cxx");
    reveal_strlit("hpp");
    reveal_strlit("hh");
    reveal_strlit("hxx");
    reveal_strlit("rb");
    reveal_strlit("cs");
    reveal_strlit("sh");
    reveal_strlit("bash");
    reveal_strlit("kt");
    reveal_strlit("kts");
    assert("rs"@.len() != "stringsdict"@.len());
    assert("py"@.len() != "stringsdict"@.len());
    assert("pyi"@.len() != "stringsdict"@.len());
    assert("js"@.len() != "stringsdict"@.len());
    assert("jsx"@.len() != "stringsdict"@.len());
    assert("mjs"@.len() != "stringsdict"@.len());
    assert("cjs"@.len() != "stringsdict"@.len());
    assert("ts"@.len() != "stringsdict"@.len());
    assert("mts"@.len() != "stringsdict"@.len());
    assert("cts"@.len() != "stringsdict"@.len());
    assert("tsx"@.len() != "stringsdict"@.len());
    assert("go"@.len() != "stringsdict"@.len());
    assert("swift"@.len() != "stringsdict"@.len());
    assert("java"@.len() != "stringsdict"@.len());
    assert("c"@.len() != "stringsdict"@.len());
    assert("h"@.len() != "stringsdict"@.len());
    assert("cpp"@.len() != "stringsdict"@.len());
    assert("cc"@.len() != "stringsdict"@.len());
    assert("cxx"@.len() != "stringsdict"@.len());
    assert("hpp"@.len() != "stringsdict"@.len());
    assert("hh"@.len() != "stringsdict"@.len());
    assert("hxx"@.len() != "stringsdict"@.len());
    assert("rb"@.len() != "stringsdict"@.len());
    assert("cs"@.len() != "stringsdict"@.len());
    assert("sh"@.len() != "stringsdict"@.len());
    assert("bash"@.len() != "stringsdict"@.len());
    assert("kt"@.len() != "stringsdict"@.len());
    assert("kts"@.len() != "stringsdict"@.len());
}

proof fn lemma_no_grammar_for_prose_po()
    ensures
        grammar_for("po"@) is None,
{
    reveal_strlit("po");
    reveal_strlit("rs");
    reveal_strlit("py");
    reveal_strlit("pyi");
    reveal_strlit("js");
    reveal_strlit("jsx");
    reveal_strlit("mjs");
    reveal_strlit("cjs");
    reveal_strlit("ts");
    reveal_strlit("mts");
    reveal_strlit("cts");
    reveal_strlit("tsx");
    reveal_strlit("go");
    reveal_strlit("swift");
    reveal_strlit("java");
    reveal_strlit("c");
    reveal_strlit("h");
    reveal_strlit("cpp");
    reveal_strlit("cc");
    reveal_strlit("cxx");
    reveal_strlit("hpp");
    reveal_strlit("hh");
    reveal_strlit("hxx");
    reveal_strlit("rb");
    reveal_strlit("cs");
    reveal_strlit("sh");
    reveal_strlit("bash");
    reveal_strlit("kt");
    reveal_strlit("kts");
    assert("rs"@[0] != "po"@[0]);
    assert("py"@[1] != "po"@[1]);
    assert("pyi"@.len() != "po"@.len());
    assert("js"@[0] != "po"@[0]);
    assert("jsx"@.len() != "po"@.len());
    assert("mjs"@.len() != "po"@.len());
    assert("cjs"@.len() != "po"@.len());
    assert("ts"@[0] != "po"@[0]);
    assert("mts"@.len() != "po"@.len());
    assert("cts"@.len() != "po"@.len());
    assert("tsx"@.len() != "po"@.len());
    assert("go"@[0] != "po"@[0]);
    assert("swift"@.len() != "po"@.len());
    assert("java"@.len() != "po"@.len());
    assert("c"@.len() != "po"@.len());
    assert("h"@.len() != "po"@.len());
    assert("cpp"@.len() != "po"@.len());
    assert("cc"@[0] != "po"@[0]);
    assert("cxx"@.len() != "po"@.len());
    assert("hpp"@.len() != "po"@.len());
    assert("hh"@[0] != "po"@[0]);
    assert("hxx"@.len() != "po"@.len());
    assert("rb"@[0] != "po"@[0]);
    assert("cs"@[0] != "po"@[0]);
    assert("sh"@[0] != "po"@[0]);
    assert("bash"@.len() != "po"@.len());
    assert("kt"@[0] != "po"@[0]);
    assert("kts"@.len() != "po"@.len());
}

proof fn lemma_no_grammar_for_prose_xliff()
    ensures
        grammar_for("xliff"@) is None,
{
    reveal_strlit("xliff");
    reveal_strlit("rs");
    reveal_strlit("py");
    reveal_strlit("pyi");
    reveal_strlit("js");
    reveal_strlit("jsx");
    reveal_strlit("mjs");
    reveal_strlit("cjs");
    reveal_strlit("ts");
    reveal_strlit("mts");
    reveal_strlit("cts");
    reveal_strlit("tsx");
    reveal_strlit("go");
    reveal_strlit("swift");
    reveal_strlit("java");
    reveal_strlit("c");
    reveal_strlit("h");
    reveal_strlit("cpp");
    reveal_strlit("cc");
    reveal_strlit("cxx");
    reveal_strlit("hpp");
    reveal_strlit("hh");
    reveal_strlit("hxx");
    reveal_strlit("rb");
    reveal_strlit("cs");
    reveal_strlit("sh");
    reveal_strlit("bash");
    reveal_strlit("kt");
    reveal_strlit("kts");
    assert("rs"@.len() != "xliff"@.len());
    assert("py"@.len() != "xliff"@.len());
    assert("pyi"@.len() != "xliff"@.len());
    assert("js"@.len() != "xliff"@.len());
    assert("jsx"@.len() != "xliff"@.len());
    assert("mjs"@.len() != "xliff"@.len());
    assert("cjs"@.len() != "xliff"@.len());
    assert("ts"@.len() != "xliff"@.len());
    assert("mts"@.len() != "xliff"@.len());
    assert("cts"@.len() != "xliff"@.len());
    assert("tsx"@.len() != "xliff"@.len());
    assert("go"@.len() != "xliff"@.len());
    assert("swift"@[0] != "xliff"@[0]);
    assert("java"@.len() != "xliff"@.len());
    assert("c"@.len() != "xliff"@.len());
    assert("h"@.len() != "xliff"@.len());
    assert("cpp"@.len() != "xliff"@.len());
    assert("cc"@.len() != "xliff"@.len());
    assert("cxx"@.len() != "xliff"@.len());
    assert("hpp"@.len() != "xliff"@.len());
    assert("hh"@.len() != "xliff"@.len());
    assert("hxx"@.len() != "xliff"@.len());
    assert("rb"@.len() != "xliff"@.len());
    assert("cs"@.len() != "xliff"@.len());
    assert("sh"@.len() != "xliff"@.len());
    assert("bash"@.len() != "xliff"@.len());
    assert("kt"@.len() != "xliff"@.len());
    assert("kts"@.len() != "xliff"@.len());
}

proof fn lemma_no_grammar_for_prose_xlf()
    ensures
        grammar_for("xlf"@) is None,
{
    reveal_strlit("xlf");
    reveal_strlit("rs");
    reveal_strlit("py");
    reveal_strlit("pyi");
    reveal_strlit("js");
    reveal_strlit("jsx");
    reveal_strlit("mjs");
    reveal_strlit("cjs");
    reveal_strlit("ts");
    reveal_strlit("mts");
    reveal_strlit("cts");
    reveal_strlit("tsx");
    reveal_strlit("go");
    reveal_strlit("swift");
    reveal_strlit("java");
    reveal_strlit("c");
    reveal_strlit("h");
    reveal_strlit("cpp");
    reveal_strlit("cc");
    reveal_strlit("cxx");
    reveal_strlit("hpp");
    reveal_strlit("hh");
    reveal_strlit("hxx");
    reveal_strlit("rb");
    reveal_strlit("cs");
    reveal_strlit("sh");
    reveal_strlit("bash");
    reveal_strlit("kt");
    reveal_strlit("kts");
    assert("rs"@.len() != "xlf"@.len());
    assert("py"@.len() != "xlf"@.len());
    assert("pyi"@[0] != "xlf"@[0]);
    assert("js"@.len() != "xlf"@.len());
    assert("jsx"@[0] != "xlf"@[0]);
    assert("mjs"@[0] != "xlf"@[0]);
    assert("cjs"@[0] != "xlf"@[0]);
    assert("ts"@.len() != "xlf"@.len());
    assert("mts"@[0] != "xlf"@[0]);
    assert("cts"@[0] != "xlf"@[0]);
    assert("tsx"@[0] != "xlf"@[0]);
    assert("go"@.len() != "xlf"@.len());
    assert("swift"@.len() != "xlf"@.len());
    assert("java"@.len() != "xlf"@.len());
    assert("c"@.len() != "xlf"@.len());
    assert("h"@.len() != "xlf"@.len());
    assert("cpp"@[0] != "xlf"@[0]);
    assert("cc"@.len() != "xlf"@.len());
    assert("cxx"@[0] != "xlf"@[0]);
    assert("hpp"@[0] != "xlf"@[0]);
    assert("hh"@.len() != "xlf"@.len());
    assert("hxx"@[0] != "xlf"@[0]);
    assert("rb"@.len() != "xlf"@.len());
    assert("cs"@.len() != "xlf"@.len());
    assert("sh"@.len() != "xlf"@.len());
    assert("bash"@.len() != "xlf"@.len());
    assert("kt"@.len() != "xlf"@.len());
    assert("kts"@[0] != "xlf"@[0]);
}

proof fn lemma_no_grammar_for_prose_arb()
    ensures
        grammar_for("arb"@) is None,
{
    reveal_strlit("arb");
    reveal_strlit("rs");
    reveal_strlit("py");
    reveal_strlit("pyi");
    reveal_strlit("js");
    reveal_strlit("jsx");
    reveal_strlit("mjs");
    reveal_strlit("cjs");
    reveal_strlit("ts");
    reveal_strlit("mts");
    reveal_strlit("cts");
    reveal_strlit("tsx");
    reveal_strlit("go");
    reveal_strlit("swift");
    reveal_strlit("java");
    reveal_strlit("c");
    reveal_strlit("h");
    reveal_strlit("cpp");
    reveal_strlit("cc");
    reveal_strlit("cxx");
    reveal_strlit("hpp");
    reveal_strlit("hh");
    reveal_strlit("hxx");
    reveal_strlit("rb");
    reveal_strlit("cs");
    reveal_strlit("sh");
    reveal_strlit("bash");
    reveal_strlit("kt");
    reveal_strlit("kts");
    assert("rs"@.len() != "arb"@.len());
    assert("py"@.len() != "arb"@.len());
    assert("pyi"@[0] != "arb"@[0]);
    assert("js"@.len() != "arb"@.len());
    assert("jsx"@[0] != "arb"@[0]);
    assert("mjs"@[0] != "arb"@[0]);
    assert("cjs"@[0] != "arb"@[0]);
    assert("ts"@.len() != "arb"@.len());
    assert("mts"@[0] != "arb"@[0]);
    assert("cts"@[0] != "arb"@[0]);
    assert("tsx"@[0] != "arb"@[0]);
    assert("go"@.len() != "arb"@.len());
    assert("swift"@.len() != "arb"@.len());
    assert("java"@.len() != "arb"@.len());
    assert("c"@.len() != "arb"@.len());
    assert("h"@.len() != "arb"@.len());
    assert("cpp"@[0] != "arb"@[0]);
    assert("cc"@.len() != "arb"@.len());
    assert("cxx"@[0] != "arb"@[0]);
    assert("hpp"@[0] != "arb"@[0]);
    assert("hh"@.len() != "arb"@.len());
    assert("hxx"@[0] != "arb"@[0]);
    assert("rb"@.len() != "arb"@.len());
    assert("cs"@.len() != "arb"@.len());
    assert("sh"@.len() != "arb"@.len());
    assert("bash"@.len() != "arb"@.len());
    assert("kt"@.len() != "arb"@.len());
    assert("kts"@[0] != "arb"@[0]);
}

proof fn lemma_no_grammar_for_empty()
    ensures
        grammar_for(Seq::<char>::empty()) is None,
{
    reveal_strlit("rs");
    reveal_strlit("py");
    reveal_strlit("pyi");
    reveal_strlit("js");
    reveal_strlit("jsx");
    reveal_strlit("mjs");
    reveal_strlit("cjs");
    reveal_strlit("ts");
    reveal_strlit("mts");
    reveal_strlit("cts");
    reveal_strlit("tsx");
    reveal_strlit("go");
    reveal_strlit("swift");
    reveal_strlit("java");
    reveal_strlit("c");
    reveal_strlit("h");
    reveal_strlit("cpp");
    reveal_strlit("cc");
    reveal_strlit("cxx");
    reveal_strlit("hpp");
    reveal_strlit("hh");
    reveal_strlit("hxx");
    reveal_strlit("rb");
    reveal_strlit("cs");
    reveal_strlit("sh");
    reveal_strlit("bash");
    reveal_strlit("kt");
    reveal_strlit("kts");
    assert("rs"@.len() != Seq::<char>::empty().len());
    assert("py"@.len() != Seq::<char>::empty().len());
    assert("pyi"@.len() != Seq::<char>::empty().len());
    assert("js"@.len() != Seq::<char>::empty().len());
    assert("jsx"@.len() != Seq::<char>::empty().len());
    assert("mjs"@.len() != Seq::<char>::empty().len());
    assert("cjs"@.len() != Seq::<char>::empty().len());
    assert("ts"@.len() != Seq::<char>::empty().len());
    assert("mts"@.len() != Seq::<char>::empty().len());
    assert("cts"@.len() != Seq::<char>::empty().len());
    assert("tsx"@.len() != Seq::<char>::empty().len());
    assert("go"@.len() != Seq::<char>::empty().len());
    assert("swift"@.len() != Seq::<char>::empty().len());
    assert("java"@.len() != Seq::<char>::empty().len());
    assert("c"@.len() != Seq::<char>::empty().len());
    assert("h"@.len() != Seq::<char>::empty().len());
    assert("cpp"@.len() != Seq::<char>::empty().len());
    assert("cc"@.len() != Seq::<char>::empty().len());
    assert("cxx"@.len() != Seq::<char>::empty().len());
    assert("hpp"@.len() != Seq::<char>::empty().len());
    assert("hh"@.len() != Seq::<char>::empty().len());
    assert("hxx"@.len() != Seq::<char>::empty().len());
    assert("rb"@.len() != Seq::<char>::empty().len());
    assert("cs"@.len() != Seq::<char>::empty().len());
    assert("sh"@.len() != Seq::<char>::empty().len());
    assert("bash"@.len() != Seq::<char>::empty().len());
    assert("kt"@.len() != Seq::<char>::empty().len());
    assert("kts"@.len() != Seq::<char>::empty().len());
}


/// Whether `e` is one of the prose extensions indexed as documents:
/// Markdown, reStructuredText, AsciiDoc, plain text and localisation files.
pub open spec fn prose_ext(e: Seq<char>) -> bool {
    e == "md"@ || e == "markdown"@ || e == "mdx"@ || e == "rst"@ || e == "adoc"@ || e == "asciidoc"@
        || e == "txt"@ || e == "strings"@ || e == "stringsdict"@ || e == "po"@ || e == "xliff"@ || e == "xlf"@
        || e == "arb"@
}

/// Law: a walked file that is not a directory, with a prose extension, not
/// a lockfile and not larger than `MAX_FILE_BYTES` (or of unknown size) is
/// indexed as a document; and whatever is indexed as a document has a prose
/// extension.
pub proof fn law_prose_files_indexed_as_documents(name: Seq<char>, len: Option<u64>)
    ensures
        ({
            &&& extension_of(name) matches Some(e) && prose_ext(e)
            &&& forall|k: int| 0 <= k < skip_names().len() ==> lower(#[trigger] skip_names()[k]) != lower(name)
            &&& len matches Some(l) ==> l <= MAX_FILE_BYTES
        }) ==> classify_of(false, name, len) == Some(true),
        forall|is_dir: bool|
            #[trigger] classify_of(is_dir, name, len) == Some(true) ==> !is_dir && (extension_of(name) matches Some(
                e,
            ) && prose_ext(e)),
{
    let e = match extension_of(name) {
        Some(e) => e,
        None => seq![],
    };
    let dx = doc_exts();
    assert(dx[0] == "md"@ && dx[1] == "markdown"@ && dx[2] == "mdx"@ && dx[3] == "rst"@ && dx[4] == "adoc"@
        && dx[5] == "asciidoc"@ && dx[6] == "txt"@ && dx[7] == "strings"@ && dx[8] == "stringsdict"@
        && dx[9] == "po"@ && dx[10] == "xliff"@ && dx[11] == "xlf"@ && dx[12] == "arb"@);
    if doc_exts().contains(e) {
        let k = choose|k: int| 0 <= k < dx.len() && dx[k] == e;
        if extension_of(name) is None {
        reveal_strlit("md");
        reveal_strlit("markdown");
        reveal_strlit("mdx");
        reveal_strlit("rst");
        reveal_strlit("adoc");
        reveal_strlit("asciidoc");
        reveal_strlit("txt");
        reveal_strlit("strings");
        reveal_strlit("stringsdict");
        reveal_strlit("po");
        reveal_strlit("xliff");
        reveal_strlit("xlf");
        reveal_strlit("arb");
            assert(dx[k].len() > 0);
        }
    }
}


/// Law: lockfiles and generated manifests (`package-lock.json`,
/// `yarn.lock`, `pnpm-lock.yaml`, `composer.lock`, `poetry.lock`,
/// `Cargo.lock`, `Gemfile.lock`, `go.sum`, `podfile.lock`, in any ASCII
/// case), directories and files over 1,500,000 bytes are never indexed.
pub proof fn law_never_indexed(is_dir: bool, name: Seq<char>, len: Option<u64>)
    ensures
        is_dir ==> classify_of(is_dir, name, len) is None,
        (lower(name) == lower("package-lock.json"@) || lower(name) == lower("yarn.lock"@)
            || lower(name) == lower("pnpm-lock.yaml"@) || lower(name) == lower("composer.lock"@)
            || lower(name) == lower("poetry.lock"@) || lower(name) == lower("Cargo.lock"@)
            || lower(name) == lower("Gemfile.lock"@) || lower(name) == lower("go.sum"@)
            || lower(name) == lower("podfile.lock"@)) ==> classify_of(is_dir, name, len) is None,
        (len matches Some(l) && l > 1500000) ==> classify_of(is_dir, name, len) is None,
{
    let sk = skip_names();
    assert(sk[0] == "package-lock.json"@ && sk[1] == "yarn.lock"@ && sk[2] == "pnpm-lock.yaml"@
        && sk[3] == "composer.lock"@ && sk[4] == "poetry.lock"@ && sk[5] == "Cargo.lock"@
        && sk[6] == "Gemfile.lock"@ && sk[7] == "go.sum"@ && sk[8] == "podfile.lock"@);
    if lower(name) == lower("package-lock.json"@) || lower(name) == lower("yarn.lock"@)
        || lower(name) == lower("pnpm-lock.yaml"@) || lower(name) == lower("composer.lock"@)
        || lower(name) == lower("poetry.lock"@) || lower(name) == lower("Cargo.lock"@)
        || lower(name) == lower("Gemfile.lock"@) || lower(name) == lower("go.sum"@)
        || lower(name) == lower("podfile.lock"@) {
        let k = choose|k: int| 0 <= k < 9 && lower(name) == lower(#[trigger] sk[k]);
        assert(0 <= k < sk.len() && lower(sk[k]) == lower(name));
    }
}


/// Law: a file is pruned exactly when the manifest lists it and the walk did
/// not meet it.
pub proof fn law_vanished_exactly_unseen(files: Seq<Seq<char>>, seen: Seq<Seq<char>>, x: Seq<char>)
    ensures
        vanished_of(files, seen).contains(x) <==> files.contains(x) && !seen.contains(x),
    decreases files.len(),
{
    if files.len() > 0 {
        let q = files.drop_last();
        law_vanished_exactly_unseen(q, seen, x);
        let r = vanished_of(q, seen);
        let all = vanished_of(files, seen);
        if all.contains(x) {
            let k = choose|k: int| 0 <= k < all.len() && all[k] == x;
            if k < r.len() {
                assert(all[k] == r[k]);
                assert(r.contains(x));
                let j = choose|j: int| 0 <= j < q.len() && q[j] == x;
                assert(files[j] == q[j]);
            } else {
                assert(files[files.len() - 1] == files.last());
            }
        }
        if files.contains(x) && !seen.contains(x) {
            let j = choose|j: int| 0 <= j < files.len() && files[j] == x;
            if j < q.len() {
                assert(q[j] == files[j]);
                assert(r.contains(x));
                let k = choose|k: int| 0 <= k < r.len() && r[k] == x;
                assert(all[k] == r[k]);
            } else {
                assert(files.last() == x);
                assert(all[all.len() - 1] == x);
            }
        }
    }
}


/// No two rows of `m` are for the same path.
pub open spec fn distinct_paths(m: Seq<(Seq<char>, i64)>) -> bool {
    forall|a: int, b: int| 0 <= a < b < m.len() ==> (#[trigger] m[a]).0 != (#[trigger] m[b]).0
}

proof fn lemma_find_row_none(m: Seq<(Seq<char>, i64)>, p: Seq<char>)
    ensures
        find_row(m, p) is None ==> forall|j: int| 0 <= j < m.len() ==> (#[trigger] m[j]).0 != p,
    decreases m.len(),
{
    if m.len() > 0 && m.last().0 != p {
        lemma_find_row_none(m.drop_last(), p);
        if find_row(m, p) is None {
            assert forall|j: int| 0 <= j < m.len() implies (#[trigger] m[j]).0 != p by {
                if j < m.len() - 1 {
                    assert(m.drop_last()[j] == m[j]);
                }
            }
        }
    }
}

proof fn lemma_table_distinct(rows: Seq<(Seq<char>, i64)>)
    ensures
        distinct_paths(manifest_table(rows)),
    decreases rows.len(),
{
    if rows.len() > 0 {
        lemma_table_distinct(rows.drop_last());
        let m = manifest_table(rows.drop_last());
        let r = rows.last();
        lemma_find_row(m, r.0);
        lemma_find_row_none(m, r.0);
        let m2 = put_row(m, r);
        assert forall|a: int, b: int| 0 <= a < b < m2.len() implies (#[trigger] m2[a]).0 != (#[trigger] m2[b]).0 by {
            match find_row(m, r.0) {
                Some(k) => {
                    assert(m2[a].0 == m[a].0 && m2[b].0 == m[b].0);
                },
                None => {
                    if b == m.len() {
                        assert(m2[a] == m[a]);
                    } else {
                        assert(m2[a] == m[a] && m2[b] == m[b]);
                    }
                },
            }
        }
    }
}

proof fn lemma_sync_walk(prev: Seq<(Seq<char>, i64)>, walked: Seq<(Seq<char>, i64)>)
    requires
        distinct_paths(prev),
        prev.to_multiset() == walked.to_multiset(),
    ensures
        !stale_walk(prev, walked),
    decreases walked.len(),
{
    broadcast use vstd::seq_lib::to_multiset_remove, vstd::seq_lib::to_multiset_insert, vstd::seq_lib::to_multiset_len,
        vstd::seq_lib::to_multiset_contains, vstd::multiset::group_multiset_axioms;

    if walked.len() == 0 {
        assert(walked.to_multiset().len() == 0);
        assert(prev.to_multiset().len() == prev.len());
    } else {
        let w = walked[0];
        assert(walked[0] == w);
        assert(walked.contains(w));
        assert(walked.to_multiset().count(w) > 0);
        assert(prev.to_multiset().count(w) > 0);
        assert(prev.contains(w));
        let j = choose|j: int| 0 <= j < prev.len() && prev[j] == w;
        lemma_find_row(prev, w.0);
        lemma_find_row_none(prev, w.0);
        let k = find_row(prev, w.0)->0;
        assert(prev[k].0 == w.0);
        if k != j {
            if k < j {
                assert(prev[k].0 != prev[j].0);
            } else {
                assert(prev[j].0 != prev[k].0);
            }
        }
        assert(prev[k] == w);
        let p2 = prev.remove(k);
        assert(p2.to_multiset() == prev.to_multiset().remove(w));
        assert(walked.drop_first().insert(0, w) =~= walked);
        assert(walked.to_multiset() == walked.drop_first().to_multiset().insert(w));
        assert(walked.drop_first().to_multiset() =~= walked.to_multiset().remove(w));
        assert forall|a: int, b: int| 0 <= a < b < p2.len() implies (#[trigger] p2[a]).0 != (#[trigger] p2[b]).0 by {
            let a2 = if a < k { a } else { a + 1 };
            let b2 = if b < k { b } else { b + 1 };
            assert(p2[a] == prev[a2] && p2[b] == prev[b2]);
            assert(prev[a2].0 != prev[b2].0);
        }
        lemma_sync_walk(p2, walked.drop_first());
    }
}

/// Law: a graph whose manifest matches the working tree exactly (the files
/// the walk meets, with their mtimes, are the manifest's rows, later rows
/// for a path replacing earlier ones) is not stale.
pub proof fn law_in_sync_means_not_stale(manifest: Seq<(Seq<char>, i64)>, walked: Seq<(Seq<char>, i64)>)
    requires
        manifest_table(manifest).to_multiset() == walked.to_multiset(),
    ensures
        !stale_of(manifest, walked),
{
    lemma_table_distinct(manifest);
    lemma_sync_walk(manifest_table(manifest), walked);
}

} // verus!
