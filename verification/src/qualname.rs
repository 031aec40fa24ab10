//! Deterministic qualified names: `<project>.<path>.<name>`, each segment
//! normalized to `[a-z0-9_]`.

use crate::text::{ascii_alnum, ascii_lower, chars_of, is_ascii_alnum, string_of, to_ascii_lower};
use vstd::prelude::*;

verus! {

/// Letters and digits kept (letters lowercased), every run of other
/// characters collapsed to a single `_`.
pub open spec fn collapse(s: Seq<char>) -> Seq<char>
    decreases s.len(),
{
    if s.len() == 0 {
        Seq::empty()
    } else {
        let r = collapse(s.drop_last());
        let c = s.last();
        if is_ascii_alnum(c) {
            r.push(ascii_lower(c))
        } else if r.len() > 0 && r.last() == '_' {
            r
        } else {
            r.push('_')
        }
    }
}

/// `r` without its leading `_`s.
pub open spec fn strip_lead(r: Seq<char>) -> Seq<char>
    decreases r.len(),
{
    if r.len() > 0 && r[0] == '_' {
        strip_lead(r.drop_first())
    } else {
        r
    }
}

/// `r` without its trailing `_`s.
pub open spec fn strip_trail(r: Seq<char>) -> Seq<char>
    decreases r.len(),
{
    if r.len() > 0 && r.last() == '_' {
        strip_trail(r.drop_last())
    } else {
        r
    }
}

/// A segment normalized: collapsed, then trimmed of `_` at both ends.
pub open spec fn normalized(s: Seq<char>) -> Seq<char> {
    strip_trail(strip_lead(collapse(s)))
}

/// The non-empty parts, in order, joined by `.`.
pub open spec fn join_nonempty(parts: Seq<Seq<char>>) -> Seq<char>
    decreases parts.len(),
{
    if parts.len() == 0 {
        Seq::empty()
    } else {
        let r = join_nonempty(parts.drop_last());
        let p = parts.last();
        if p.len() == 0 {
            r
        } else if r.len() == 0 {
            p
        } else {
            r + seq!['.'] + p
        }
    }
}

/// The segments of a qualified name before empty ones are dropped.
pub open spec fn segments(project: Seq<char>, path: Seq<Seq<char>>, name: Seq<char>) -> Seq<Seq<char>> {
    seq![normalized(project)] + path.map_values(|p: Seq<char>| normalized(p)) + seq![normalized(name)]
}

/// The qualified name of `name` at `path` in `project`.
pub open spec fn qualified(project: Seq<char>, path: Seq<Seq<char>>, name: Seq<char>) -> Seq<char> {
    join_nonempty(segments(project, path, name))
}

/// A character a normalized segment may hold.
pub open spec fn segment_char(c: char) -> bool {
    ('a' <= c && c <= 'z') || ('0' <= c && c <= '9') || c == '_'
}

/// A well-formed segment: only `[a-z0-9_]`, no `_` at either end, no `__`.
pub open spec fn clean_segment(r: Seq<char>) -> bool {
    &&& forall|i: int| 0 <= i < r.len() ==> segment_char(#[trigger] r[i])
    &&& r.len() > 0 ==> r[0] != '_' && r.last() != '_'
    &&& forall|i: int| 0 <= i < r.len() - 1 ==> !(#[trigger] r[i] == '_' && r[i + 1] == '_')
}

proof fn lemma_collapse_shape(s: Seq<char>)
    ensures
        forall|i: int| 0 <= i < collapse(s).len() ==> segment_char(#[trigger] collapse(s)[i]),
        forall|i: int| 0 <= i < collapse(s).len() - 1 ==> !(#[trigger] collapse(s)[i] == '_' && collapse(s)[i + 1] == '_'),
    decreases s.len(),
{
    if s.len() > 0 {
        lemma_collapse_shape(s.drop_last());
        let r = collapse(s.drop_last());
        let out = collapse(s);
        assert forall|i: int| 0 <= i < out.len() implies segment_char(#[trigger] out[i]) by {
            if i < r.len() {
                assert(out[i] == r[i]);
            }
        }
        assert forall|i: int| 0 <= i < out.len() - 1 implies !(#[trigger] out[i] == '_' && out[i + 1] == '_') by {
            if i + 1 < r.len() {
                assert(out[i] == r[i]);
                assert(out[i + 1] == r[i + 1]);
            } else if i + 1 == r.len() {
                assert(out[i] == r[i]);
            }
        }
    }
}

proof fn lemma_strip_lead(r: Seq<char>)
    ensures
        exists|k: int|
            0 <= k <= r.len() && strip_lead(r) == r.skip(k) && forall|j: int| 0 <= j < k ==> r[j] == '_',
        strip_lead(r).len() > 0 ==> strip_lead(r)[0] != '_',
    decreases r.len(),
{
    if r.len() > 0 && r[0] == '_' {
        lemma_strip_lead(r.drop_first());
        let k = choose|k: int|
            0 <= k <= r.drop_first().len() && strip_lead(r.drop_first()) == r.drop_first().skip(k) && forall|j: int|
                0 <= j < k ==> r.drop_first()[j] == '_';
        assert(r.drop_first().skip(k) =~= r.skip(k + 1));
        assert forall|j: int| 0 <= j < k + 1 implies r[j] == '_' by {
            if j > 0 {
                assert(r[j] == r.drop_first()[j - 1]);
            }
        }
    } else {
        assert(r.skip(0) =~= r);
    }
}

proof fn lemma_strip_trail(r: Seq<char>)
    ensures
        exists|k: int| 0 <= k <= r.len() && strip_trail(r) == r.take(k),
        strip_trail(r).len() > 0 ==> strip_trail(r).last() != '_',
        strip_trail(r).len() > 0 ==> strip_trail(r)[0] == r[0],
    decreases r.len(),
{
    if r.len() > 0 && r.last() == '_' {
        lemma_strip_trail(r.drop_last());
        let k = choose|k: int| 0 <= k <= r.drop_last().len() && strip_trail(r.drop_last()) == r.drop_last().take(k);
        assert(r.drop_last().take(k) =~= r.take(k));
    } else {
        assert(r.take(r.len() as int) =~= r);
    }
}

/// Every normalized segment is clean.
pub proof fn lemma_normalized_clean(s: Seq<char>)
    ensures
        clean_segment(normalized(s)),
{
    let c = collapse(s);
    lemma_collapse_shape(s);
    lemma_strip_lead(c);
    let a = strip_lead(c);
    let k = choose|k: int| 0 <= k <= c.len() && a == c.skip(k) && forall|j: int| 0 <= j < k ==> c[j] == '_';
    lemma_strip_trail(a);
    let out = strip_trail(a);
    let h = choose|h: int| 0 <= h <= a.len() && out == a.take(h);
    assert forall|i: int| 0 <= i < out.len() implies segment_char(#[trigger] out[i]) by {
        assert(out[i] == c[k + i]);
    }
    assert forall|i: int| 0 <= i < out.len() - 1 implies !(#[trigger] out[i] == '_' && out[i + 1] == '_') by {
        assert(out[i] == c[k + i]);
        assert(out[i + 1] == c[k + i + 1]);
    }
}

/// Normalize one segment.
fn normalize(s: &str) -> (r: String)
    ensures
        r@ == normalized(s@),
{
    let cs = chars_of(s);
    let mut out: Vec<char> = Vec::new();
    let mut prev_us = false;
    let n = cs.len();
    for i in 0..n
        invariant
            n == cs@.len(),
            cs@ == s@,
            out@ == collapse(s@.take(i as int)),
            prev_us == (out@.len() > 0 && out@.last() == '_'),
    {
        proof {
            assert(s@.take(i + 1).drop_last() =~= s@.take(i as int));
            assert(s@.take(i + 1).last() == cs@[i as int]);
        }
        let ch = cs[i];
        if ascii_alnum(ch) {
            out.push(to_ascii_lower(ch));
            prev_us = false;
            proof {
                assert(ascii_lower(ch) != '_');
            }
        } else if !prev_us {
            out.push('_');
            prev_us = true;
        }
    }
    proof {
        assert(s@.take(n as int) =~= s@);
    }
    let ghost c = out@;
    let m = out.len();
    let mut lo: usize = 0;
    proof {
        assert(c.skip(0) =~= c);
    }
    while lo < m && out[lo] == '_'
        invariant
            m == c.len(),
            out@ == c,
            lo <= m,
            strip_lead(c) == strip_lead(c.skip(lo as int)),
        decreases m - lo,
    {
        proof {
            assert(c.skip(lo as int).drop_first() =~= c.skip(lo + 1));
        }
        lo = lo + 1;
    }
    proof {
        if lo < m {
            assert(c.skip(lo as int)[0] != '_');
        }
    }
    let ghost a = c.skip(lo as int);
    let mut hi: usize = m;
    proof {
        assert(a.take(a.len() as int) =~= a);
    }
    while hi > lo && out[hi - 1] == '_'
        invariant
            m == c.len(),
            out@ == c,
            lo <= hi <= m,
            a == c.skip(lo as int),
            strip_trail(a) == strip_trail(a.take(hi - lo)),
        decreases hi,
    {
        proof {
            assert(a.take(hi - lo).drop_last() =~= a.take(hi - 1 - lo));
            assert(a.take(hi - lo).last() == c[hi - 1]);
        }
        hi = hi - 1;
    }
    proof {
        if hi > lo {
            assert(a.take(hi - lo).last() == c[hi - 1]);
        }
    }
    let mut kept: Vec<char> = Vec::new();
    for j in lo..hi
        invariant
            out@ == c,
            lo <= hi <= m,
            m == c.len(),
            kept@ == c.subrange(lo as int, j as int),
    {
        kept.push(out[j]);
        proof {
            assert(kept@ =~= c.subrange(lo as int, j + 1));
        }
    }
    proof {
        assert(kept@ =~= a.take(hi - lo));
    }
    string_of(&kept)
}

/// Builder of qualified names.
pub struct QualifiedName;

impl QualifiedName {
    /// `<project>.<path...>.<name>`: each segment normalized, empty segments
    /// dropped, the rest joined by `.`.
    pub fn build(project: &str, path_parts: &[&str], name: &str) -> (r: String)
        ensures
            r@ == qualified(project@, path_parts@.map_values(|p: &str| p@), name@),
    {
        let mut owned: Vec<String> = Vec::new();
        let k = path_parts.len();
        for i in 0..k
            invariant
                k == path_parts@.len(),
                owned@.map_values(|p: String| p@) == path_parts@.take(i as int).map_values(|p: &str| p@),
        {
            let ghost before = owned@.map_values(|p: String| p@);
            let o = path_parts[i].to_owned();
            owned.push(o);
            proof {
                assert(owned@.map_values(|p: String| p@) =~= before.push(o@));
                assert(path_parts@.take(i + 1).map_values(|p: &str| p@) =~= path_parts@.take(i as int).map_values(
                    |p: &str| p@,
                ).push(path_parts@[i as int]@));
            }
        }
        proof {
            assert(path_parts@.take(k as int) =~= path_parts@);
        }
        Self::build_from(project, &owned, name)
    }

    /// `build` with owned path segments.
    pub fn build_from(project: &str, path_parts: &Vec<String>, name: &str) -> (r: String)
        ensures
            r@ == qualified(project@, path_parts@.map_values(|p: String| p@), name@),
    {
        let ghost path = path_parts@.map_values(|p: String| p@);
        let ghost segs = segments(project@, path, name@);
        let mut parts: Vec<String> = Vec::new();
        parts.push(normalize(project));
        let k = path_parts.len();
        for i in 0..k
            invariant
                k == path_parts@.len(),
                path == path_parts@.map_values(|p: String| p@),
                parts@.len() == i + 1,
                forall|j: int| 0 <= j < i + 1 ==> (#[trigger] parts@[j])@ == segs[j],
                segs == segments(project@, path, name@),
        {
            let p = normalize(path_parts[i].as_str());
            parts.push(p);
            proof {
                assert(segs[i + 1] == normalized(path[i as int]));
            }
        }
        parts.push(normalize(name));
        proof {
            assert(segs.len() == k + 2);
        }
        let mut out: Vec<char> = Vec::new();
        let np = parts.len();
        for i in 0..np
            invariant
                np == parts@.len(),
                np == segs.len(),
                forall|j: int| 0 <= j < np ==> (#[trigger] parts@[j])@ == segs[j],
                out@ == join_nonempty(segs.take(i as int)),
        {
            proof {
                assert(segs.take(i + 1).drop_last() =~= segs.take(i as int));
                assert(segs.take(i + 1).last() == parts@[i as int]@);
            }
            let cs = chars_of(parts[i].as_str());
            if cs.len() > 0 {
                if out.len() > 0 {
                    out.push('.');
                }
                let ghost before = out@;
                let m = cs.len();
                for j in 0..m
                    invariant
                        m == cs@.len(),
                        out@ == before + cs@.take(j as int),
                {
                    out.push(cs[j]);
                    proof {
                        assert(out@ =~= before + cs@.take(j + 1));
                    }
                }
                proof {
                    assert(cs@.take(m as int) =~= cs@);
                    assert(out@ =~= join_nonempty(segs.take(i + 1)));
                }
            }
        }
        proof {
            assert(segs.take(np as int) =~= segs);
        }
        string_of(&out)
    }
}

/// A qualified name is made of clean segments joined by single dots: only
/// `[a-z0-9_.]`, no empty segment and no `_` next to a segment boundary.
pub proof fn law_qualified_name_shape(project: Seq<char>, path: Seq<Seq<char>>, name: Seq<char>)
    ensures
        clean_join(qualified(project, path, name)),
{
    let segs = segments(project, path, name);
    assert forall|j: int| 0 <= j < segs.len() implies clean_segment(#[trigger] segs[j]) by {
        if j == 0 {
            lemma_normalized_clean(project);
        } else if j == segs.len() - 1 {
            lemma_normalized_clean(name);
        } else {
            assert(segs[j] == normalized(path[j - 1]));
            lemma_normalized_clean(path[j - 1]);
        }
    }
    lemma_join_clean(segs);
}

/// Shape of a dot-join of clean segments.
pub open spec fn clean_join(q: Seq<char>) -> bool {
    &&& forall|i: int| 0 <= i < q.len() ==> segment_char(#[trigger] q[i]) || q[i] == '.'
    &&& q.len() > 0 ==> q[0] != '_' && q[0] != '.' && q.last() != '_' && q.last() != '.'
    &&& forall|i: int|
        0 <= i < q.len() - 1 ==> {
            &&& !(#[trigger] q[i] == '.' && q[i + 1] == '.')
            &&& !(q[i] == '.' && q[i + 1] == '_')
            &&& !(q[i] == '_' && q[i + 1] == '.')
            &&& !(q[i] == '_' && q[i + 1] == '_')
        }
}

proof fn lemma_join_clean(parts: Seq<Seq<char>>)
    requires
        forall|j: int| 0 <= j < parts.len() ==> clean_segment(#[trigger] parts[j]),
    ensures
        clean_join(join_nonempty(parts)),
    decreases parts.len(),
{
    if parts.len() > 0 {
        let d = parts.drop_last();
        assert forall|j: int| 0 <= j < d.len() implies clean_segment(#[trigger] d[j]) by {
            assert(d[j] == parts[j]);
        }
        lemma_join_clean(d);
        let r = join_nonempty(d);
        let p = parts.last();
        assert(clean_segment(parts[parts.len() - 1]));
        if p.len() > 0 && r.len() > 0 {
            let q = r + seq!['.'] + p;
            assert forall|i: int| 0 <= i < q.len() implies segment_char(#[trigger] q[i]) || q[i] == '.' by {
                if i < r.len() {
                    assert(q[i] == r[i]);
                } else if i > r.len() {
                    assert(q[i] == p[i - r.len() - 1]);
                }
            }
            assert forall|i: int| 0 <= i < q.len() - 1 implies {
                &&& !(#[trigger] q[i] == '.' && q[i + 1] == '.')
                &&& !(q[i] == '.' && q[i + 1] == '_')
                &&& !(q[i] == '_' && q[i + 1] == '.')
                &&& !(q[i] == '_' && q[i + 1] == '_')
            } by {
                if i + 1 < r.len() {
                    assert(q[i] == r[i]);
                    assert(q[i + 1] == r[i + 1]);
                } else if i + 1 == r.len() {
                    assert(q[i] == r[i]);
                    assert(q[i] == r.last());
                } else if i == r.len() {
                    assert(q[i + 1] == p[0]);
                } else {
                    assert(q[i] == p[i - r.len() - 1]);
                    assert(q[i + 1] == p[i - r.len()]);
                }
            }
            assert(q[0] == r[0]);
            assert(q.last() == p.last());
        }
    }
}

} // verus!
