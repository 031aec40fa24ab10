//! When a rename is safe, and the rewrite it makes.
//!
//! A rename goes ahead only when the name has exactly one code definition,
//! every call site naming it was resolved, and in every file the identifier
//! tokens spelling the name are exactly the resolved references there (the
//! definition, if the file holds it, plus its resolved call sites). Then each
//! such token is replaced by the new name and nothing else changes.

use vstd::prelude::*;
use vstd::string::StringSliceAdditionalSpecFns;
use vstd::utf8::{encode_utf8, is_char_boundary, valid_utf8};

verus! {

/// Why a rename was refused, or the files it may rewrite.
#[derive(Debug, Clone, PartialEq, Eq)]
pub enum RenameVerdict {
    /// The name has this many code definitions, not exactly one.
    Ambiguous(usize),
    /// Some call sites naming the symbol are unresolved.
    Unresolved,
    /// The files (by position) holding occurrences that no resolved reference accounts for.
    Unaccounted(Vec<usize>),
    /// Every occurrence is a resolved reference; the files (by position) to rewrite.
    Proceed(Vec<usize>),
}

/// The resolved references to a symbol in one file: its definition, when
/// the file holds it, and its resolved call sites there.
pub open spec fn expected_refs_of(defined_here: bool, calls: nat) -> nat {
    (if defined_here { 1nat } else { 0nat }) + calls
}

/// The resolved references in one file.
pub fn expected_refs(defined_here: bool, calls: usize) -> (r: usize)
    requires
        calls < usize::MAX,
    ensures
        r == expected_refs_of(defined_here, calls as nat),
{
    if defined_here {
        calls + 1
    } else {
        calls
    }
}

/// Positions of the files, among `counts` (occurrences found, references
/// expected), that hold occurrences and whose counts differ.
pub open spec fn mismatched(counts: Seq<(usize, usize)>) -> Seq<usize>
    decreases counts.len(),
{
    if counts.len() == 0 {
        seq![]
    } else {
        let r = mismatched(counts.drop_last());
        let c = counts.last();
        if c.0 > 0 && c.0 != c.1 {
            r.push((counts.len() - 1) as usize)
        } else {
            r
        }
    }
}

/// Positions of the files among `counts` that hold occurrences.
pub open spec fn touched(counts: Seq<(usize, usize)>) -> Seq<usize>
    decreases counts.len(),
{
    if counts.len() == 0 {
        seq![]
    } else {
        let r = touched(counts.drop_last());
        if counts.last().0 > 0 {
            r.push((counts.len() - 1) as usize)
        } else {
            r
        }
    }
}

/// A rename goes ahead only where it is fully accounted for: when no file is
/// mismatched, every file holding occurrences of the name holds exactly its
/// resolved references, and those files are the ones rewritten.
pub proof fn law_rename_only_when_accounted(counts: Seq<(usize, usize)>)
    requires
        mismatched(counts).len() == 0,
    ensures
        forall|i: int| 0 <= i < counts.len() && (#[trigger] counts[i]).0 > 0 ==> counts[i].0 == counts[i].1,
    decreases counts.len(),
{
    if counts.len() > 0 {
        let c = counts.drop_last();
        if mismatched(c).len() > 0 {
            assert(mismatched(counts).len() >= mismatched(c).len());
        }
        law_rename_only_when_accounted(c);
        assert forall|i: int| 0 <= i < counts.len() && (#[trigger] counts[i]).0 > 0 implies counts[i].0 == counts[i].1 by {
            if i < counts.len() - 1 {
                assert(c[i] == counts[i]);
            }
        }
    }
}

/// Whether a rename may proceed: `defs` code definitions of the name, whether some call site
/// naming it is unresolved, and per file the identifier occurrences found
/// and the resolved references expected.
pub fn rename_verdict(defs: usize, may_be_incomplete: bool, counts: &Vec<(usize, usize)>) -> (r: RenameVerdict)
    ensures
        defs != 1 ==> r == RenameVerdict::Ambiguous(defs),
        defs == 1 && may_be_incomplete ==> r == RenameVerdict::Unresolved,
        defs == 1 && !may_be_incomplete && mismatched(counts@).len() > 0 ==> (r matches RenameVerdict::Unaccounted(v) && v@ == mismatched(counts@)),
        defs == 1 && !may_be_incomplete && mismatched(counts@).len() == 0 ==> (r matches RenameVerdict::Proceed(v) && v@ == touched(counts@)),
{
    if defs != 1 {
        return RenameVerdict::Ambiguous(defs);
    }
    if may_be_incomplete {
        return RenameVerdict::Unresolved;
    }
    let mut bad: Vec<usize> = Vec::new();
    let mut good: Vec<usize> = Vec::new();
    let n = counts.len();
    for i in 0..n
        invariant
            n == counts@.len(),
            bad@ == mismatched(counts@.take(i as int)),
            good@ == touched(counts@.take(i as int)),
    {
        let c = counts[i];
        proof {
            assert(counts@.take(i + 1).drop_last() =~= counts@.take(i as int));
            assert(counts@.take(i + 1).last() == c);
        }
        if c.0 > 0 {
            good.push(i);
            if c.0 != c.1 {
                bad.push(i);
            }
        }
    }
    proof {
        assert(counts@.take(n as int) =~= counts@);
    }
    if bad.len() > 0 {
        RenameVerdict::Unaccounted(bad)
    } else {
        RenameVerdict::Proceed(good)
    }
}

/// Byte ranges `(start, end, line)` that lie within `b` in order, do not
/// overlap, and start and end on character boundaries.
pub open spec fn spans_fit(b: Seq<u8>, spans: Seq<(usize, usize, u32)>) -> bool {
    &&& forall|i: int| 0 <= i < spans.len() ==> {
        &&& (#[trigger] spans[i]).0 <= spans[i].1 <= b.len()
        &&& is_char_boundary(b, spans[i].0 as int)
        &&& is_char_boundary(b, spans[i].1 as int)
    }
    &&& forall|i: int, j: int| 0 <= i < j < spans.len() ==> (#[trigger] spans[i]).1 <= (#[trigger] spans[j]).0
}

/// Where the text after the first `k` spans resumes.
pub open spec fn resume_at(spans: Seq<(usize, usize, u32)>, k: int) -> int {
    if k == 0 {
        0
    } else {
        spans[k - 1].1 as int
    }
}

/// The bytes of `b` up to the end of its `k`-th span, each span replaced by `nb`.
pub open spec fn spliced_upto(b: Seq<u8>, spans: Seq<(usize, usize, u32)>, nb: Seq<u8>, k: int) -> Seq<u8>
    decreases k,
{
    if k <= 0 {
        seq![]
    } else {
        spliced_upto(b, spans, nb, k - 1) + b.subrange(resume_at(spans, k - 1), spans[k - 1].0 as int) + nb
    }
}

/// `b` with every span replaced by `nb`.
pub open spec fn spliced(b: Seq<u8>, spans: Seq<(usize, usize, u32)>, nb: Seq<u8>) -> Seq<u8> {
    spliced_upto(b, spans, nb, spans.len() as int) + b.subrange(resume_at(spans, spans.len() as int), b.len() as int)
}

proof fn lemma_encode_concat(a: Seq<char>, c: Seq<char>)
    ensures
        encode_utf8(a + c) == encode_utf8(a) + encode_utf8(c),
    decreases a.len(),
{
    if a.len() == 0 {
        assert(a + c =~= c);
    } else {
        lemma_encode_concat(a.drop_first(), c);
        assert((a + c).drop_first() =~= a.drop_first() + c);
        assert((a + c)[0] == a[0]);
    }
}

/// A boundary of `b` at or after boundary `a` is a boundary of the rest of `b` from `a`.
proof fn lemma_boundary_shift(b: Seq<u8>, a: int, i: int)
    requires
        valid_utf8(b),
        0 <= a <= i <= b.len(),
        is_char_boundary(b, a),
        is_char_boundary(b, i),
    ensures
        valid_utf8(b.subrange(a, b.len() as int)),
        is_char_boundary(b.subrange(a, b.len() as int), i - a),
{
    let r = b.subrange(a, b.len() as int);
    vstd::utf8::valid_utf8_split(b, a);
    if i == b.len() {
        vstd::utf8::is_char_boundary_start_end_of_seq(r);
        assert(r.len() == i - a);
    } else {
        vstd::utf8::is_char_boundary_iff_not_is_continuation_byte(b, i);
        vstd::utf8::is_char_boundary_iff_not_is_continuation_byte(r, i - a);
        assert(r[i - a] == b[i]);
    }
}

/// Whether `spans` fit `text` (see `spans_fit`).
pub fn spans_fit_text(text: &str, spans: &Vec<(usize, usize, u32)>) -> (r: bool)
    ensures
        r == spans_fit(text.spec_bytes(), spans@),
{
    let n = spans.len();
    proof {
        vstd::utf8::encode_utf8_valid_utf8(text@);
    }
    let mut ok = true;
    let mut i: usize = 0;
    while i < n
        invariant
            n == spans@.len(),
            valid_utf8(text.spec_bytes()),
            i <= n,
            ok == spans_fit(text.spec_bytes(), spans@.take(i as int)),
        decreases n - i,
    {
        let sp = spans[i];
        let here = sp.0 <= sp.1 && text.is_char_boundary(sp.0) && text.is_char_boundary(sp.1);
        let after = i == 0 || spans[i - 1].1 <= sp.0;
        proof {
            let t = spans@.take(i + 1);
            assert(t.drop_last() =~= spans@.take(i as int));
            assert(t[i as int] == sp);
            if ok && here && after {
                assert forall|a: int, c: int| 0 <= a < c < t.len() implies (#[trigger] t[a]).1 <= (#[trigger] t[c]).0 by {
                    if c < i {
                        assert(spans@.take(i as int)[a] == t[a]);
                        assert(spans@.take(i as int)[c] == t[c]);
                    } else if a < i - 1 {
                        assert(spans@.take(i as int)[a] == t[a]);
                        assert(spans@.take(i as int)[i - 1] == t[i - 1]);
                        assert(t[i - 1].0 <= t[i - 1].1);
                    }
                }
                assert forall|a: int| 0 <= a < t.len() implies {
                    &&& (#[trigger] t[a]).0 <= t[a].1 <= text.spec_bytes().len()
                    &&& is_char_boundary(text.spec_bytes(), t[a].0 as int)
                    &&& is_char_boundary(text.spec_bytes(), t[a].1 as int)
                } by {
                    if a < i {
                        assert(spans@.take(i as int)[a] == t[a]);
                    }
                }
            }
            if !(ok && here && after) {
                if !ok {
                    if !spans_fit(text.spec_bytes(), t) {
                    } else {
                        assert forall|a: int| 0 <= a < i implies {
                            &&& (#[trigger] spans@.take(i as int)[a]).0 <= spans@.take(i as int)[a].1 <= text.spec_bytes().len()
                            &&& is_char_boundary(text.spec_bytes(), spans@.take(i as int)[a].0 as int)
                            &&& is_char_boundary(text.spec_bytes(), spans@.take(i as int)[a].1 as int)
                        } by {
                            assert(spans@.take(i as int)[a] == t[a]);
                        }
                        assert forall|a: int, c: int| 0 <= a < c < i implies (#[trigger] spans@.take(i as int)[a]).1 <= (#[trigger] spans@.take(i as int)[c]).0 by {
                            assert(spans@.take(i as int)[a] == t[a]);
                            assert(spans@.take(i as int)[c] == t[c]);
                        }
                    }
                } else if !here {
                    assert(t[i as int] == sp);
                } else {
                    assert(t[i - 1] == spans@[i - 1]);
                }
            }
        }
        ok = ok && here && after;
        i = i + 1;
    }
    proof {
        assert(spans@.take(n as int) =~= spans@);
    }
    ok
}

/// `text` with every span replaced by `new_name`: the bytes before the
/// first span, `new_name`, the bytes between the first and the second span,
/// `new_name`, and so on, then the bytes after the last span.
pub fn splice_spans(text: &str, spans: &Vec<(usize, usize, u32)>, new_name: &str) -> (r: String)
    requires
        spans_fit(text.spec_bytes(), spans@),
    ensures
        encode_utf8(r@) == spliced(text.spec_bytes(), spans@, new_name.spec_bytes()),
{
    let ghost b = text.spec_bytes();
    let ghost nb = new_name.spec_bytes();
    proof {
        vstd::utf8::encode_utf8_valid_utf8(text@);
        vstd::utf8::is_char_boundary_start_end_of_seq(b);
        assert(b.subrange(0, b.len() as int) =~= b);
        assert(encode_utf8(Seq::<char>::empty()) =~= Seq::<u8>::empty());
    }
    let mut out = String::new();
    let mut rest: &str = text;
    let mut at: usize = 0;
    let n = spans.len();
    for k in 0..n
        invariant
            n == spans@.len(),
            b == text.spec_bytes(),
            nb == new_name.spec_bytes(),
            valid_utf8(b),
            spans_fit(b, spans@),
            at as int == resume_at(spans@, k as int),
            at <= b.len(),
            is_char_boundary(b, at as int),
            rest.spec_bytes() == b.subrange(at as int, b.len() as int),
            encode_utf8(out@) == spliced_upto(b, spans@, nb, k as int),
    {
        let sp = spans[k];
        assert(spans@[k as int] == sp);
        proof {
            if k > 0 {
                assert(spans@[k - 1].1 <= spans@[k as int].0);
            }
            lemma_boundary_shift(b, at as int, sp.0 as int);
        }
        let (piece, tail) = rest.split_at(sp.0 - at);
        proof {
            let r = b.subrange(at as int, b.len() as int);
            assert(piece.spec_bytes() =~= b.subrange(at as int, sp.0 as int));
            assert(tail.spec_bytes() =~= b.subrange(sp.0 as int, b.len() as int));
            lemma_boundary_shift(b, sp.0 as int, sp.1 as int);
        }
        let (_, after) = tail.split_at(sp.1 - sp.0);
        proof {
            assert(after.spec_bytes() =~= b.subrange(sp.1 as int, b.len() as int));
            let o = out@;
            lemma_encode_concat(o, piece@);
            lemma_encode_concat(o + piece@, new_name@);
        }
        out.append(piece);
        out.append(new_name);
        rest = after;
        at = sp.1;
    }
    proof {
        let o = out@;
        lemma_encode_concat(o, rest@);
    }
    out.append(rest);
    out
}

} // verus!
