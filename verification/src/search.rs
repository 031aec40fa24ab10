//! Identifier subwords for full-text indexing, and the fallback full-text
//! query built from a raw search string, and the regular-expression search
//! over node names.

use crate::text::{
    ascii_digit, ascii_lower, chars_of, is_ascii_alnum, is_ascii_lower, is_ascii_upper, is_alphanumeric, is_ascii_digit, is_lowercase, is_uppercase,
    string_of, to_ascii_lower, to_lowercase, unicode_alphanumeric, unicode_lowercase,
    unicode_to_lowercase, unicode_uppercase,
};
use crate::parse::node_views;
use crate::pattern::{regex_compiles, regex_error_text, regex_matches, NamePattern};
use crate::types::{Node, NodeV};
use vstd::prelude::*;

verus! {

/// A word boundary just before position `i > 0` of an identifier: lower to
/// upper case, the last capital of an acronym followed by a lowercase letter,
/// or a switch between digits and other alphanumerics.
pub open spec fn boundary(cs: Seq<char>, i: int) -> bool {
    let c = cs[i];
    let prev = cs[i - 1];
    ||| unicode_uppercase(c) && unicode_lowercase(prev)
    ||| unicode_uppercase(c) && unicode_uppercase(prev) && i + 1 < cs.len() && unicode_lowercase(cs[i + 1])
    ||| is_ascii_digit(c) != is_ascii_digit(prev) && unicode_alphanumeric(prev)
}

/// The finished words of the first `i` characters, and the word still open.
pub open spec fn scan_words(cs: Seq<char>, i: nat) -> (Seq<Seq<char>>, Seq<char>)
    decreases i,
{
    if i == 0 {
        (Seq::empty(), Seq::empty())
    } else {
        let (parts, cur) = scan_words(cs, (i - 1) as nat);
        let j = i - 1;
        let c = cs[j];
        if !unicode_alphanumeric(c) {
            if cur.len() > 0 {
                (parts.push(cur), Seq::empty())
            } else {
                (parts, cur)
            }
        } else if cur.len() > 0 && boundary(cs, j) {
            (parts.push(cur), seq![ascii_lower(c)])
        } else {
            (parts, cur.push(ascii_lower(c)))
        }
    }
}

/// The lowercase words of an identifier.
pub open spec fn words(cs: Seq<char>) -> Seq<Seq<char>> {
    let (parts, cur) = scan_words(cs, cs.len());
    if cur.len() > 0 {
        parts.push(cur)
    } else {
        parts
    }
}

/// Words joined by single spaces.
pub open spec fn join_spaces(ws: Seq<Seq<char>>) -> Seq<char>
    decreases ws.len(),
{
    if ws.len() == 0 {
        Seq::empty()
    } else if ws.len() == 1 {
        ws[0]
    } else {
        join_spaces(ws.drop_last()) + seq![' '] + ws.last()
    }
}

/// The subwords of an identifier, space separated; empty when it has at
/// most one word.
pub open spec fn subwords_of(cs: Seq<char>) -> Seq<char> {
    if words(cs).len() <= 1 {
        Seq::empty()
    } else {
        join_spaces(words(cs))
    }
}

/// The alphanumeric characters of `cs`, each lowered as the words lower them.
pub open spec fn lowered_alnum(cs: Seq<char>) -> Seq<char>
    decreases cs.len(),
{
    if cs.len() == 0 {
        Seq::empty()
    } else if unicode_alphanumeric(cs.last()) {
        lowered_alnum(cs.drop_last()).push(ascii_lower(cs.last()))
    } else {
        lowered_alnum(cs.drop_last())
    }
}

/// Words concatenated without separators.
pub open spec fn concat_words(ws: Seq<Seq<char>>) -> Seq<char>
    decreases ws.len(),
{
    if ws.len() == 0 {
        Seq::empty()
    } else {
        concat_words(ws.drop_last()) + ws.last()
    }
}

/// How many words the first `i` characters have started.
pub open spec fn started(cs: Seq<char>, i: nat) -> nat {
    scan_words(cs, i).0.len() + if scan_words(cs, i).1.len() > 0 {
        1nat
    } else {
        0nat
    }
}

proof fn lemma_scan_covers(cs: Seq<char>, i: nat)
    requires
        i <= cs.len(),
    ensures
        concat_words(scan_words(cs, i).0) + scan_words(cs, i).1 == lowered_alnum(cs.take(i as int)),
        forall|k: int| 0 <= k < scan_words(cs, i).0.len() ==> (#[trigger] scan_words(cs, i).0[k]).len() > 0,
    decreases i,
{
    if i > 0 {
        lemma_scan_covers(cs, (i - 1) as nat);
        let (parts, cur) = scan_words(cs, (i - 1) as nat);
        let c = cs[i - 1];
        assert(cs.take(i as int).drop_last() =~= cs.take(i - 1));
        assert(cs.take(i as int).last() == c);
        if !unicode_alphanumeric(c) {
            if cur.len() > 0 {
                assert(parts.push(cur).drop_last() =~= parts);
                assert(concat_words(parts.push(cur)) == concat_words(parts) + cur);
                assert(concat_words(parts.push(cur)) + Seq::<char>::empty() =~= concat_words(parts) + cur);
            }
        } else if cur.len() > 0 && boundary(cs, i - 1) {
            assert(parts.push(cur).drop_last() =~= parts);
            assert(concat_words(parts.push(cur)) + seq![ascii_lower(c)] =~= (concat_words(parts) + cur).push(ascii_lower(c)));
        } else {
            assert(concat_words(parts) + cur.push(ascii_lower(c)) =~= (concat_words(parts) + cur).push(ascii_lower(c)));
        }
    } else {
        assert(cs.take(0) =~= Seq::<char>::empty());
        assert(Seq::<char>::empty() + Seq::<char>::empty() =~= Seq::<char>::empty());
    }
}

proof fn lemma_scan_grows(cs: Seq<char>, i: nat, j: nat)
    requires
        i <= j <= cs.len(),
    ensures
        scan_words(cs, i).0.len() <= scan_words(cs, j).0.len(),
        started(cs, i) <= started(cs, j),
    decreases j - i,
{
    if i < j {
        lemma_scan_grows(cs, i, (j - 1) as nat);
    }
}

/// Law: the words of an identifier are nonempty and, in order and joined
/// without separators, they are its alphanumeric characters lowered.
pub proof fn law_words_cover_the_identifier(cs: Seq<char>)
    ensures
        concat_words(words(cs)) == lowered_alnum(cs),
        forall|k: int| 0 <= k < words(cs).len() ==> (#[trigger] words(cs)[k]).len() > 0,
{
    lemma_scan_covers(cs, cs.len());
    assert(cs.take(cs.len() as int) =~= cs);
    let (parts, cur) = scan_words(cs, cs.len());
    if cur.len() > 0 {
        assert(parts.push(cur).drop_last() =~= parts);
        assert forall|k: int| 0 <= k < words(cs).len() implies (#[trigger] words(cs)[k]).len() > 0 by {
            if k < parts.len() {
                assert(words(cs)[k] == parts[k]);
            }
        }
    } else {
        assert(concat_words(parts) + cur =~= concat_words(parts));
    }
}

/// Law: an identifier in which two alphanumeric characters are separated
/// by another character has at least two words, so its subwords are not empty.
pub proof fn law_separated_identifier_has_subwords(cs: Seq<char>, a: int, b: int, c: int)
    requires
        0 <= a < b < c < cs.len(),
        unicode_alphanumeric(cs[a]),
        !unicode_alphanumeric(cs[b]),
        unicode_alphanumeric(cs[c]),
    ensures
        words(cs).len() >= 2,
        subwords_of(cs).len() > 0,
{
    // after `a` some word has started
    assert(scan_words(cs, (a + 1) as nat).1.len() > 0 || scan_words(cs, (a + 1) as nat).0.len() > 0);
    assert(started(cs, (a + 1) as nat) >= 1);
    lemma_scan_grows(cs, (a + 1) as nat, b as nat);
    // after `b` the open word is closed
    assert(scan_words(cs, (b + 1) as nat).1.len() == 0);
    assert(scan_words(cs, (b + 1) as nat).0.len() >= 1);
    lemma_scan_grows(cs, (b + 1) as nat, c as nat);
    // after `c` a word is open again
    assert(scan_words(cs, (c + 1) as nat).1.len() > 0);
    assert(scan_words(cs, (c + 1) as nat).0.len() >= 1);
    assert(started(cs, (c + 1) as nat) >= 2);
    lemma_scan_grows(cs, (c + 1) as nat, cs.len());
    let (parts, cur) = scan_words(cs, cs.len());
    assert(words(cs).len() == started(cs, cs.len()));
    let ws = words(cs);
    assert(join_spaces(ws) == join_spaces(ws.drop_last()) + seq![' '] + ws.last());
}

/// What `char`'s class methods say of ASCII characters: alphanumeric
/// exactly for letters and digits, uppercase exactly for `A`..`Z`, lowercase
/// exactly for `a`..`z` (as the character-class wrappers state).
pub open spec fn ascii_classes() -> bool {
    forall|c: char|
        #![trigger unicode_alphanumeric(c)]
        #![trigger unicode_uppercase(c)]
        #![trigger unicode_lowercase(c)]
        (c as u32) < 128 ==> (unicode_alphanumeric(c) == is_ascii_alnum(c) && unicode_uppercase(c) == is_ascii_upper(c)
            && unicode_lowercase(c) == is_ascii_lower(c))
}

/// A word as the scan leaves it on ASCII input: letters and digits, none
/// uppercase, with no switch between digits and other characters.
pub open spec fn plain_word(w: Seq<char>) -> bool {
    &&& forall|k: int| 0 <= k < w.len() ==> is_ascii_alnum(#[trigger] w[k]) && !is_ascii_upper(w[k]) && (w[k] as u32) < 128
    &&& forall|k: int| 1 <= k < w.len() ==> is_ascii_digit(#[trigger] w[k]) == is_ascii_digit(w[k - 1])
}

proof fn lemma_ascii_lower(c: char)
    requires
        is_ascii_alnum(c),
    ensures
        is_ascii_alnum(ascii_lower(c)),
        !is_ascii_upper(ascii_lower(c)),
        (ascii_lower(c) as u32) < 128,
        is_ascii_digit(ascii_lower(c)) == is_ascii_digit(c),
{
    if is_ascii_upper(c) {
        assert(65 <= c as u32 <= 90);
        assert(97 <= ascii_lower(c) as u32 <= 122);
    }
}

proof fn lemma_scan_plain(cs: Seq<char>, i: nat)
    requires
        ascii_classes(),
        i <= cs.len(),
        forall|k: int| 0 <= k < cs.len() ==> (#[trigger] cs[k] as u32) < 128,
    ensures
        forall|k: int| 0 <= k < scan_words(cs, i).0.len() ==> plain_word(#[trigger] scan_words(cs, i).0[k]),
        plain_word(scan_words(cs, i).1),
        scan_words(cs, i).1.len() > 0 ==> i > 0 && is_ascii_alnum(cs[i - 1]) && scan_words(cs, i).1.last() == ascii_lower(cs[i - 1]),
    decreases i,
{
    if i > 0 {
        lemma_scan_plain(cs, (i - 1) as nat);
        let (parts, cur) = scan_words(cs, (i - 1) as nat);
        let c = cs[i - 1];
        assert(unicode_alphanumeric(c) == is_ascii_alnum(c));
        if !unicode_alphanumeric(c) {
            if cur.len() > 0 {
                assert forall|k: int| 0 <= k < parts.push(cur).len() implies plain_word(#[trigger] parts.push(cur)[k]) by {
                    if k < parts.len() {
                        assert(parts.push(cur)[k] == parts[k]);
                    }
                }
            }
        } else {
            lemma_ascii_lower(c);
            let lc = ascii_lower(c);
            assert(plain_word(seq![lc]));
            if cur.len() > 0 && boundary(cs, i - 1) {
                assert forall|k: int| 0 <= k < parts.push(cur).len() implies plain_word(#[trigger] parts.push(cur)[k]) by {
                    if k < parts.len() {
                        assert(parts.push(cur)[k] == parts[k]);
                    }
                }
            } else if cur.len() > 0 {
                let prev = cs[i - 2];
                assert(unicode_alphanumeric(prev) == is_ascii_alnum(prev));
                lemma_ascii_lower(prev);
                assert(is_ascii_digit(c) == is_ascii_digit(prev));
                let w = cur.push(lc);
                assert forall|k: int| 1 <= k < w.len() implies is_ascii_digit(#[trigger] w[k]) == is_ascii_digit(w[k - 1]) by {
                    if k < w.len() - 1 {
                        assert(w[k] == cur[k] && w[k - 1] == cur[k - 1]);
                    } else {
                        assert(w[k - 1] == cur.last());
                    }
                }
                assert forall|k: int| 0 <= k < w.len() implies is_ascii_alnum(#[trigger] w[k]) && !is_ascii_upper(w[k])
                    && (w[k] as u32) < 128 by {
                    if k < w.len() - 1 {
                        assert(w[k] == cur[k]);
                    }
                }
            } else {
                assert(cur.push(lc) =~= seq![lc]);
            }
        }
    }
}

proof fn lemma_plain_scan(w: Seq<char>, k: nat)
    requires
        ascii_classes(),
        plain_word(w),
        k <= w.len(),
    ensures
        scan_words(w, k).0.len() == 0,
        scan_words(w, k).1 == w.take(k as int),
    decreases k,
{
    if k == 0 {
        assert(w.take(0) =~= Seq::<char>::empty());
    } else {
        lemma_plain_scan(w, (k - 1) as nat);
        let c = w[k - 1];
        assert(unicode_alphanumeric(c) == is_ascii_alnum(c));
        assert(unicode_uppercase(c) == is_ascii_upper(c));
        if k >= 2 {
            let p = w[k - 2];
            assert(unicode_alphanumeric(p) == is_ascii_alnum(p));
            assert(unicode_uppercase(p) == is_ascii_upper(p));
            assert(is_ascii_digit(c) == is_ascii_digit(p));
            assert(!boundary(w, k - 1));
        }
        assert(ascii_lower(c) == c);
        assert(w.take(k - 1).push(c) =~= w.take(k as int));
    }
}

/// The pieces of `cs` between single spaces, as `str::split(' ')` gives
/// them (one empty piece for an empty text).
pub open spec fn split_spaces(cs: Seq<char>) -> Seq<Seq<char>>
    decreases cs.len(),
{
    if cs.len() == 0 {
        seq![Seq::empty()]
    } else {
        let ps = split_spaces(cs.drop_last());
        if cs.last() == ' ' {
            ps.push(Seq::empty())
        } else {
            ps.update(ps.len() - 1, ps.last().push(cs.last()))
        }
    }
}

proof fn lemma_split_len(cs: Seq<char>)
    ensures
        split_spaces(cs).len() >= 1,
    decreases cs.len(),
{
    if cs.len() > 0 {
        lemma_split_len(cs.drop_last());
    }
}

/// Appending text without spaces only lengthens the last piece.
proof fn lemma_split_extend(a: Seq<char>, w: Seq<char>)
    requires
        forall|k: int| 0 <= k < w.len() ==> #[trigger] w[k] != ' ',
    ensures
        split_spaces(a + w) == split_spaces(a).update(
            split_spaces(a).len() - 1,
            split_spaces(a).last() + w,
        ),
    decreases w.len(),
{
    lemma_split_len(a);
    if w.len() == 0 {
        assert(a + w =~= a);
        assert(split_spaces(a).last() + w =~= split_spaces(a).last());
        assert(split_spaces(a).update(split_spaces(a).len() - 1, split_spaces(a).last()) =~= split_spaces(a));
    } else {
        let w0 = w.drop_last();
        lemma_split_extend(a, w0);
        assert((a + w).drop_last() =~= a + w0);
        assert((a + w).last() == w.last());
        assert(split_spaces(a).last() + w0 + seq![w.last()] =~= split_spaces(a).last() + w);
        assert((split_spaces(a).last() + w0).push(w.last()) =~= split_spaces(a).last() + w);
        lemma_split_len(a + w0);
        assert(split_spaces(a + w) =~= split_spaces(a).update(split_spaces(a).len() - 1, split_spaces(a).last() + w));
    }
}

/// Words without spaces, joined by single spaces, split back into themselves.
proof fn lemma_split_join(ws: Seq<Seq<char>>)
    requires
        ws.len() >= 1,
        forall|i: int, k: int| 0 <= i < ws.len() && 0 <= k < ws[i].len() ==> #[trigger] ws[i][k] != ' ',
    ensures
        split_spaces(join_spaces(ws)) == ws,
    decreases ws.len(),
{
    if ws.len() == 1 {
        let w = ws[0];
        assert forall|k: int| 0 <= k < w.len() implies #[trigger] w[k] != ' ' by {
            assert(ws[0][k] != ' ');
        }
        lemma_split_extend(Seq::empty(), w);
        assert(Seq::<char>::empty() + w =~= w);
        assert(split_spaces(Seq::<char>::empty()) == seq![Seq::<char>::empty()]);
        assert(Seq::<char>::empty() + w =~= w);
        assert(split_spaces(w) =~= ws);
    } else {
        let init = ws.drop_last();
        let w = ws.last();
        lemma_split_join(init);
        let a = join_spaces(init) + seq![' '];
        assert(a.drop_last() =~= join_spaces(init));
        assert(split_spaces(a) == split_spaces(join_spaces(init)).push(Seq::<char>::empty()));
        assert forall|k: int| 0 <= k < w.len() implies #[trigger] w[k] != ' ' by {
            assert(ws[ws.len() - 1][k] != ' ');
        }
        lemma_split_extend(a, w);
        assert(Seq::<char>::empty() + w =~= w);
        assert(split_spaces(join_spaces(ws)) =~= ws);
    }
}

/// Law: on ASCII input, every word of an identifier is a single word when
/// taken alone: it has no subwords of its own. So the subwords, when there
/// are any, split at spaces into exactly the words, each nonempty and each
/// without subwords of its own.
pub proof fn law_each_word_is_one_word(cs: Seq<char>)
    requires
        ascii_classes(),
        forall|k: int| 0 <= k < cs.len() ==> (#[trigger] cs[k] as u32) < 128,
    ensures
        forall|k: int| 0 <= k < words(cs).len() ==> words(#[trigger] words(cs)[k]).len() == 1,
        forall|k: int| 0 <= k < words(cs).len() ==> subwords_of(#[trigger] words(cs)[k]).len() == 0,
        subwords_of(cs).len() > 0 ==> split_spaces(subwords_of(cs)) == words(cs),
        subwords_of(cs).len() > 0 ==> forall|k: int|
            0 <= k < split_spaces(subwords_of(cs)).len() ==> (#[trigger] split_spaces(subwords_of(cs))[k]).len() > 0
                && subwords_of(split_spaces(subwords_of(cs))[k]).len() == 0,
{
    lemma_each_word_alone(cs);
    law_words_cover_the_identifier(cs);
    lemma_scan_plain(cs, cs.len());
    let ws = words(cs);
    if subwords_of(cs).len() > 0 {
        let (parts, cur) = scan_words(cs, cs.len());
        assert forall|i: int, k: int| 0 <= i < ws.len() && 0 <= k < ws[i].len() implies #[trigger] ws[i][k] != ' ' by {
            let w = ws[i];
            if i < parts.len() {
                assert(w == parts[i]);
            } else {
                assert(w == cur);
            }
            assert(plain_word(w));
            assert(is_ascii_alnum(w[k]));
        }
        lemma_split_join(ws);
    }
}

proof fn lemma_each_word_alone(cs: Seq<char>)
    requires
        ascii_classes(),
        forall|k: int| 0 <= k < cs.len() ==> (#[trigger] cs[k] as u32) < 128,
    ensures
        forall|k: int| 0 <= k < words(cs).len() ==> words(#[trigger] words(cs)[k]).len() == 1,
        forall|k: int| 0 <= k < words(cs).len() ==> subwords_of(#[trigger] words(cs)[k]).len() == 0,
{
    lemma_scan_plain(cs, cs.len());
    law_words_cover_the_identifier(cs);
    let (parts, cur) = scan_words(cs, cs.len());
    assert forall|k: int| 0 <= k < words(cs).len() implies words(#[trigger] words(cs)[k]).len() == 1 by {
        let w = words(cs)[k];
        if k < parts.len() {
            assert(w == parts[k]);
        } else {
            assert(w == cur);
        }
        assert(plain_word(w));
        lemma_plain_scan(w, w.len());
        assert(w.take(w.len() as int) =~= w);
        assert(w.len() > 0);
    }
}

pub open spec fn views(v: Seq<Vec<char>>) -> Seq<Seq<char>> {
    v.map_values(|w: Vec<char>| w@)
}

/// Join words with single spaces.
fn join_with_spaces(parts: &Vec<Vec<char>>) -> (r: Vec<char>)
    ensures
        r@ == join_spaces(views(parts@)),
{
    let ghost ws = views(parts@);
    let mut out: Vec<char> = Vec::new();
    let n = parts.len();
    for i in 0..n
        invariant
            n == parts@.len(),
            ws == views(parts@),
            out@ == join_spaces(ws.take(i as int)),
    {
        proof {
            assert(ws.take(i + 1).drop_last() =~= ws.take(i as int));
            assert(ws.take(i + 1).last() == parts@[i as int]@);
            if i == 0 {
                assert(ws.take(1)[0] == parts@[0]@);
            }
        }
        if i > 0 {
            out.push(' ');
        }
        let ghost before = out@;
        let w = &parts[i];
        let m = w.len();
        for j in 0..m
            invariant
                m == w@.len(),
                out@ == before + w@.take(j as int),
        {
            out.push(w[j]);
            proof {
                assert(out@ =~= before + w@.take(j + 1));
            }
        }
        proof {
            assert(w@.take(m as int) =~= w@);
            assert(out@ =~= join_spaces(ws.take(i + 1)));
        }
    }
    proof {
        assert(ws.take(n as int) =~= ws);
    }
    out
}

/// The words of an identifier.
fn word_list(cs: &Vec<char>) -> (r: Vec<Vec<char>>)
    ensures
        views(r@) == words(cs@),
{
    let mut parts: Vec<Vec<char>> = Vec::new();
    let mut cur: Vec<char> = Vec::new();
    let n = cs.len();
    for i in 0..n
        invariant
            n == cs@.len(),
            (views(parts@), cur@) == scan_words(cs@, i as nat),
    {
        let c = cs[i];
        let ghost pv = views(parts@);
        let ghost cv = cur@;
        if !is_alphanumeric(c) {
            if cur.len() > 0 {
                parts.push(cur);
                cur = Vec::new();
                proof {
                    assert(views(parts@) =~= pv.push(cv));
                }
            }
        } else {
            let mut cut = false;
            if cur.len() > 0 {
                let prev = cs[i - 1];
                let b1 = is_uppercase(c) && is_lowercase(prev);
                let b2 = is_uppercase(c) && is_uppercase(prev) && i + 1 < n && is_lowercase(cs[i + 1]);
                let b3 = ascii_digit(c) != ascii_digit(prev) && is_alphanumeric(prev);
                cut = b1 || b2 || b3;
            }
            if cut {
                parts.push(cur);
                cur = Vec::new();
                proof {
                    assert(views(parts@) =~= pv.push(cv));
                }
            }
            cur.push(to_ascii_lower(c));
            proof {
                if cut {
                    assert(cur@ =~= seq![ascii_lower(c)]);
                }
            }
        }
    }
    if cur.len() > 0 {
        let ghost pv = views(parts@);
        let ghost cv = cur@;
        parts.push(cur);
        proof {
            assert(views(parts@) =~= pv.push(cv));
        }
    }
    parts
}

/// Split an identifier into lowercase subwords (camelCase, PascalCase,
/// snake_case, kebab-case, digit boundaries), joined by spaces; empty when
/// there is only one word.
pub fn subwords(name: &str) -> (r: String)
    ensures
        r@ == subwords_of(name@),
{
    let cs = chars_of(name);
    let parts = word_list(&cs);
    if parts.len() <= 1 {
        return string_of(&Vec::new());
    }
    let out = join_with_spaces(&parts);
    string_of(&out)
}

/// A character that separates query tokens: neither alphanumeric nor `_`.
pub open spec fn query_sep(c: char) -> bool {
    !unicode_alphanumeric(c) && c != '_'
}

/// The pieces of `cs` between separators (`str::split`): the finished pieces
/// of the first `i` characters and the piece still open.
pub open spec fn scan_pieces(cs: Seq<char>, i: nat) -> (Seq<Seq<char>>, Seq<char>)
    decreases i,
{
    if i == 0 {
        (Seq::empty(), Seq::empty())
    } else {
        let (done, cur) = scan_pieces(cs, (i - 1) as nat);
        let c = cs[i - 1];
        if query_sep(c) {
            (done.push(cur), Seq::empty())
        } else {
            (done, cur.push(c))
        }
    }
}

/// All pieces of `cs` between separators, empty ones included.
pub open spec fn pieces(cs: Seq<char>) -> Seq<Seq<char>> {
    let (done, cur) = scan_pieces(cs, cs.len());
    done.push(cur)
}

/// A piece stands for itself when it has at most one subword, else for its
/// subwords.
pub open spec fn expand(t: Seq<char>) -> Seq<Seq<char>> {
    if words(t).len() <= 1 {
        seq![t]
    } else {
        words(t)
    }
}

/// The expansions of all pieces, in order.
pub open spec fn candidates(ps: Seq<Seq<char>>) -> Seq<Seq<char>>
    decreases ps.len(),
{
    if ps.len() == 0 {
        Seq::empty()
    } else {
        candidates(ps.drop_last()) + expand(ps.last())
    }
}

/// More than one byte in UTF-8.
pub open spec fn long_term(t: Seq<char>) -> bool {
    t.len() > 1 || (t.len() == 1 && (t[0] as u32) >= 128)
}

/// Terms kept (long ones whose lowercase form was not seen before), with the
/// lowercase forms seen so far.
pub open spec fn select(cands: Seq<Seq<char>>) -> (Seq<Seq<char>>, Seq<Seq<char>>)
    decreases cands.len(),
{
    if cands.len() == 0 {
        (Seq::empty(), Seq::empty())
    } else {
        let (kept, seen) = select(cands.drop_last());
        let t = cands.last();
        let key = unicode_to_lowercase(t);
        if long_term(t) && !seen.contains(key) {
            (kept.push(t), seen.push(key))
        } else {
            (kept, seen)
        }
    }
}

/// Prefix terms joined by ` OR `.
pub open spec fn or_prefixes(ts: Seq<Seq<char>>) -> Seq<char>
    decreases ts.len(),
{
    if ts.len() == 0 {
        Seq::empty()
    } else if ts.len() == 1 {
        ts[0].push('*')
    } else {
        or_prefixes(ts.drop_last()) + " OR "@ + ts.last().push('*')
    }
}

/// The fallback full-text query for a raw search string.
pub open spec fn fallback_query_of(raw: Seq<char>) -> Seq<char> {
    or_prefixes(select(candidates(pieces(raw))).0)
}

/// The pieces of `cs` between separators.
fn split_pieces(cs: &Vec<char>) -> (r: Vec<Vec<char>>)
    ensures
        views(r@) == pieces(cs@),
{
    let mut done: Vec<Vec<char>> = Vec::new();
    let mut cur: Vec<char> = Vec::new();
    let n = cs.len();
    for i in 0..n
        invariant
            n == cs@.len(),
            (views(done@), cur@) == scan_pieces(cs@, i as nat),
    {
        let c = cs[i];
        if !is_alphanumeric(c) && c != '_' {
            let ghost dv = views(done@);
            let ghost cv = cur@;
            done.push(cur);
            cur = Vec::new();
            proof {
                assert(views(done@) =~= dv.push(cv));
            }
        } else {
            cur.push(c);
        }
    }
    let ghost dv = views(done@);
    let ghost cv = cur@;
    done.push(cur);
    proof {
        assert(views(done@) =~= dv.push(cv));
    }
    done
}

/// The pieces of `cs` between occurrences of `sep` (`str::split`): the
/// finished pieces of the first `i` characters and the piece still open.
pub open spec fn scan_by(cs: Seq<char>, sep: char, i: nat) -> (Seq<Seq<char>>, Seq<char>)
    decreases i,
{
    if i == 0 {
        (Seq::empty(), Seq::empty())
    } else {
        let (done, cur) = scan_by(cs, sep, (i - 1) as nat);
        let c = cs[i - 1];
        if c == sep {
            (done.push(cur), Seq::empty())
        } else {
            (done, cur.push(c))
        }
    }
}

/// All pieces of `cs` between occurrences of `sep`, empty ones included.
pub open spec fn pieces_by(cs: Seq<char>, sep: char) -> Seq<Seq<char>> {
    let (done, cur) = scan_by(cs, sep, cs.len());
    done.push(cur)
}

/// There is always at least one piece.
pub proof fn lemma_pieces_nonempty(cs: Seq<char>, sep: char)
    ensures
        pieces_by(cs, sep).len() > 0,
{
}

/// Split `cs` at every `sep`.
pub fn split_by(cs: &Vec<char>, sep: char) -> (r: Vec<Vec<char>>)
    ensures
        views(r@) == pieces_by(cs@, sep),
{
    let mut done: Vec<Vec<char>> = Vec::new();
    let mut cur: Vec<char> = Vec::new();
    let n = cs.len();
    for i in 0..n
        invariant
            n == cs@.len(),
            (views(done@), cur@) == scan_by(cs@, sep, i as nat),
    {
        let c = cs[i];
        if c == sep {
            let ghost dv = views(done@);
            let ghost cv = cur@;
            done.push(cur);
            cur = Vec::new();
            proof {
                assert(views(done@) =~= dv.push(cv));
            }
        } else {
            cur.push(c);
        }
    }
    let ghost dv = views(done@);
    let ghost cv = cur@;
    done.push(cur);
    proof {
        assert(views(done@) =~= dv.push(cv));
    }
    done
}

/// The same characters.
pub fn same_chars(a: &Vec<char>, b: &Vec<char>) -> (r: bool)
    ensures
        r == (a@ == b@),
{
    if a.len() != b.len() {
        return false;
    }
    let n = a.len();
    for i in 0..n
        invariant
            n == a@.len(),
            n == b@.len(),
            forall|k: int| 0 <= k < i ==> a@[k] == b@[k],
    {
        if a[i] != b[i] {
            return false;
        }
    }
    proof {
        assert(a@ =~= b@);
    }
    true
}

/// Each term followed by `*`, joined by ` OR `.
pub fn join_prefixes(kept: &Vec<Vec<char>>) -> (out: Vec<char>)
    ensures
        out@ == or_prefixes(views(kept@)),
{
    let ghost kv = views(kept@);
    let mut out: Vec<char> = Vec::new();
    let nk = kept.len();
    for i in 0..nk
        invariant
            nk == kept@.len(),
            kv == views(kept@),
            out@ == or_prefixes(kv.take(i as int)),
    {
        proof {
            assert(kv.take(i + 1).drop_last() =~= kv.take(i as int));
            assert(kv.take(i + 1).last() == kept@[i as int]@);
        }
        if i > 0 {
            out.push(' ');
            out.push('O');
            out.push('R');
            out.push(' ');
        }
        let ghost before = out@;
        let w = &kept[i];
        let m = w.len();
        for j in 0..m
            invariant
                m == w@.len(),
                out@ == before + w@.take(j as int),
        {
            out.push(w[j]);
            proof {
                assert(out@ =~= before + w@.take(j + 1));
            }
        }
        out.push('*');
        proof {
            reveal_strlit(" OR ");
            assert(w@.take(m as int) =~= w@);
            if i == 0 {
                assert(kv.take(1)[0] == w@);
            }
            assert(out@ =~= or_prefixes(kv.take(i + 1)));
        }
    }
    proof {
        assert(kv.take(nk as int) =~= kv);
    }
    out
}

/// Build the fallback full-text query for a raw search string: the string is
/// split into identifier pieces, each piece into its subwords, terms of one
/// byte are dropped, repeats (ignoring case) are dropped, and every term
/// becomes a prefix match, OR'd together. Empty when no term is left.
pub fn fallback_query(raw: &str) -> (r: String)
    ensures
        r@ == fallback_query_of(raw@),
{
    let cs = chars_of(raw);
    let ps = split_pieces(&cs);
    let ghost pv = views(ps@);
    let mut cands: Vec<Vec<char>> = Vec::new();
    let np = ps.len();
    for i in 0..np
        invariant
            np == ps@.len(),
            pv == views(ps@),
            views(cands@) == candidates(pv.take(i as int)),
    {
        let p = &ps[i];
        let ws = word_list(p);
        let ghost cb = views(cands@);
        proof {
            assert(pv.take(i + 1).drop_last() =~= pv.take(i as int));
            assert(pv.take(i + 1).last() == p@);
        }
        if ws.len() <= 1 {
            cands.push(p.clone());
            proof {
                assert(views(cands@) =~= cb + seq![p@]);
            }
        } else {
            let m = ws.len();
            for j in 0..m
                invariant
                    m == ws@.len(),
                    views(cands@) == cb + views(ws@).take(j as int),
            {
                let ghost before = views(cands@);
                cands.push(ws[j].clone());
                proof {
                    assert(views(cands@) =~= before.push(ws@[j as int]@));
                    assert(views(ws@).take(j + 1) =~= views(ws@).take(j as int).push(ws@[j as int]@));
                }
            }
            proof {
                assert(views(ws@).take(m as int) =~= views(ws@));
            }
        }
    }
    proof {
        assert(pv.take(np as int) =~= pv);
    }
    let ghost cv = views(cands@);
    let mut kept: Vec<Vec<char>> = Vec::new();
    let mut seen: Vec<Vec<char>> = Vec::new();
    let nc = cands.len();
    for i in 0..nc
        invariant
            nc == cands@.len(),
            cv == views(cands@),
            (views(kept@), views(seen@)) == select(cv.take(i as int)),
    {
        let t = &cands[i];
        proof {
            assert(cv.take(i + 1).drop_last() =~= cv.take(i as int));
            assert(cv.take(i + 1).last() == t@);
        }
        let long = t.len() > 1 || (t.len() == 1 && (t[0] as u32) >= 128);
        let key_s = to_lowercase(string_of(t).as_str());
        let key = chars_of(key_s.as_str());
        let mut found = false;
        let ns = seen.len();
        for k in 0..ns
            invariant
                ns == seen@.len(),
                found <==> exists|q: int| 0 <= q < k && seen@[q]@ == key@,
        {
            if same_chars(&seen[k], &key) {
                found = true;
            }
        }
        proof {
            let sv = views(seen@);
            if found {
                let q = choose|q: int| 0 <= q < ns && seen@[q]@ == key@;
                assert(sv[q] == key@);
                assert(sv.contains(key@));
            }
            if sv.contains(key@) {
                let q = choose|q: int| 0 <= q < sv.len() && sv[q] == key@;
                assert(seen@[q]@ == key@);
            }
        }
        if long && !found {
            let ghost kb = views(kept@);
            let ghost sb = views(seen@);
            kept.push(t.clone());
            seen.push(key);
            proof {
                assert(views(kept@) =~= kb.push(t@));
                assert(views(seen@) =~= sb.push(key@));
            }
        }
    }
    proof {
        assert(cv.take(nc as int) =~= cv);
    }
    let out = join_prefixes(&kept);
    string_of(&out)
}

/// The nodes of `ns` with a nonempty name for which `hit` holds, in order.
pub open spec fn named_hits(ns: Seq<NodeV>, hit: Seq<bool>) -> Seq<NodeV>
    decreases ns.len(),
{
    if ns.len() == 0 {
        seq![]
    } else {
        let r = named_hits(ns.drop_last(), hit.take(ns.len() - 1));
        if ns.last().name.len() > 0 && hit[ns.len() - 1] {
            r.push(ns.last())
        } else {
            r
        }
    }
}

/// How many hits a name search keeps: `limit`, and at least one.
pub open spec fn hits_kept(limit: usize) -> nat {
    if limit == 0 {
        1
    } else {
        limit as nat
    }
}

/// The answer of a name search: the first hits, as many as are kept.
pub open spec fn search_hits_of(ns: Seq<NodeV>, hit: Seq<bool>, limit: usize) -> Seq<NodeV> {
    let h = named_hits(ns, hit);
    if h.len() <= hits_kept(limit) {
        h
    } else {
        h.take(hits_kept(limit) as int)
    }
}

proof fn lemma_named_hits_prefix(ns: Seq<NodeV>, hit: Seq<bool>, i: int)
    requires
        0 <= i <= ns.len(),
        hit.len() == ns.len(),
    ensures
        named_hits(ns.take(i), hit.take(i)).len() <= named_hits(ns, hit).len(),
        named_hits(ns, hit).take(named_hits(ns.take(i), hit.take(i)).len() as int) == named_hits(ns.take(i), hit.take(i)),
    decreases ns.len(),
{
    if i == ns.len() {
        assert(ns.take(i) =~= ns);
        assert(hit.take(i) =~= hit);
        assert(named_hits(ns, hit).take(named_hits(ns, hit).len() as int) =~= named_hits(ns, hit));
    } else {
        let d = ns.drop_last();
        let dh = hit.take(ns.len() - 1);
        lemma_named_hits_prefix(d, dh, i);
        assert(d.take(i) =~= ns.take(i));
        assert(dh.take(i) =~= hit.take(i));
        let k = named_hits(ns.take(i), hit.take(i)).len() as int;
        assert(named_hits(ns, hit).take(k) =~= named_hits(d, dh).take(k));
    }
}

/// The nodes among `nodes` with a nonempty name for which `hit` holds, in
/// order, the first `limit` of them (at least one when there is one).
pub fn select_hits(nodes: &Vec<Node>, hit: &Vec<bool>, limit: usize) -> (r: Vec<Node>)
    requires
        hit@.len() == nodes@.len(),
    ensures
        node_views(r@) == search_hits_of(node_views(nodes@), hit@, limit),
{
    let ghost ns = node_views(nodes@);
    let keep: usize = if limit == 0 {
        1
    } else {
        limit
    };
    let mut out: Vec<Node> = Vec::new();
    let n = nodes.len();
    let mut i: usize = 0;
    while i < n
        invariant_except_break
            out@.len() < keep,
        invariant
            n == nodes@.len(),
            hit@.len() == n,
            ns == node_views(nodes@),
            keep as nat == hits_kept(limit),
            i <= n,
            out@.len() <= keep,
            node_views(out@) == named_hits(ns.take(i as int), hit@.take(i as int)),
        ensures
            node_views(out@) == named_hits(ns.take(i as int), hit@.take(i as int)),
            i == n || out@.len() == keep,
            i <= n,
            out@.len() <= keep,
        decreases n - i,
    {
        let ghost before = node_views(out@);
        proof {
            let t = ns.take(i + 1);
            assert(t.drop_last() =~= ns.take(i as int));
            assert(hit@.take(i + 1).take(i as int) =~= hit@.take(i as int));
            assert(t.last() == nodes@[i as int]@);
        }
        if hit[i] && !nodes[i].name.as_str().is_empty() {
            let d = nodes[i].duplicate();
            out.push(d);
            proof {
                assert(node_views(out@) =~= before.push(nodes@[i as int]@));
            }
        }
        i = i + 1;
        if out.len() >= keep {
            break;
        }
    }
    proof {
        lemma_named_hits_prefix(ns, hit@, i as int);
        let h = named_hits(ns, hit@);
        let o = node_views(out@);
        assert(o.len() == out@.len());
        if i == n {
            assert(ns.take(n as int) =~= ns);
            assert(hit@.take(n as int) =~= hit@);
            assert(o == h);
        } else {
            assert(h.take(o.len() as int) == o);
            if h.len() <= keep {
                assert(h.len() == keep);
                assert(h.take(keep as int) =~= h);
            }
        }
    }
    out
}

/// Whether the pattern matches each node's name, in node order.
pub open spec fn name_matches(pattern: Seq<char>, ns: Seq<NodeV>) -> Seq<bool> {
    ns.map_values(|n: NodeV| regex_matches(pattern, n.name))
}

/// Search node names with a regular expression: the nodes with a nonempty
/// name that the pattern matches somewhere, in order, the first `limit` of
/// them (at least one when there is one); an error when the pattern does not
/// compile.
pub fn search_names(pattern: &str, nodes: &Vec<Node>, limit: usize) -> (r: Result<Vec<Node>, String>)
    ensures
        r.is_err() == !regex_compiles(pattern@),
        r matches Err(m) ==> exists|t: Seq<char>| m@ == "bad regex: "@ + t,
        r matches Ok(v) ==> node_views(v@) == search_hits_of(node_views(nodes@), name_matches(pattern@, node_views(nodes@)), limit),
{
    match NamePattern::compile(pattern) {
        Err(e) => {
            let t = regex_error_text(&e);
            let mut m = "bad regex: ".to_owned();
            m.append(t.as_str());
            Err(m)
        },
        Ok(re) => {
            let ghost ns = node_views(nodes@);
            let mut hit: Vec<bool> = Vec::new();
            let n = nodes.len();
            for i in 0..n
                invariant
                    n == nodes@.len(),
                    ns == node_views(nodes@),
                    re@ == pattern@,
                    hit@.len() == i,
                    forall|k: int| 0 <= k < i ==> hit@[k] == name_matches(pattern@, ns)[k],
            {
                let h = re.is_match(nodes[i].name.as_str());
                proof {
                    assert(ns[i as int] == nodes@[i as int]@);
                }
                hit.push(h);
            }
            proof {
                assert(hit@ =~= name_matches(pattern@, ns));
            }
            let v = select_hits(nodes, &hit, limit);
            Ok(v)
        },
    }
}

} // verus!
