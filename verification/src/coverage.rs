//! Coverage signal attached to call-graph results: how many raw call sites
//! resolved into the graph, how many were dropped, and an agent-facing note.

use crate::text::{chars_of, string_of};
use vstd::prelude::*;

verus! {

/// The decimal digit for `d < 10`.
pub open spec fn digit_char(d: nat) -> char {
    ((48 + d) as u32) as char
}

/// Decimal notation of `n`, without leading zeros.
pub open spec fn decimal(n: nat) -> Seq<char>
    decreases n,
{
    if n < 10 {
        seq![digit_char(n)]
    } else {
        decimal(n / 10).push(digit_char(n % 10))
    }
}

/// Append the decimal notation of `n`.
pub fn push_decimal(out: &mut Vec<char>, n: usize)
    ensures
        final(out)@ == old(out)@ + decimal(n as nat),
    decreases n,
{
    if n >= 10 {
        push_decimal(out, n / 10);
    }
    let d: u8 = (n % 10) as u8;
    out.push((48u8 + d) as char);
    proof {
        assert(((48u8 + d) as char) == digit_char((n % 10) as nat));
    }
}

/// Append the characters of `s`.
pub fn push_str(out: &mut Vec<char>, s: &str)
    ensures
        final(out)@ == old(out)@ + s@,
{
    let cs = chars_of(s);
    let ghost before = out@;
    let n = cs.len();
    for i in 0..n
        invariant
            n == cs@.len(),
            cs@ == s@,
            out@ == before + cs@.take(i as int),
    {
        out.push(cs[i]);
        proof {
            assert(out@ =~= before + cs@.take(i + 1));
        }
    }
    proof {
        assert(cs@.take(n as int) =~= cs@);
    }
}

/// `total - resolved`, or 0 when more resolved than were counted.
pub open spec fn dropped_of(resolved: nat, total: nat) -> nat {
    if total >= resolved {
        (total - resolved) as nat
    } else {
        0
    }
}

/// The note for a callers query.
pub open spec fn callers_note(name: Seq<char>, resolved: nat, total: nat) -> Seq<char> {
    let dropped = dropped_of(resolved, total);
    if total == 0 {
        "No call sites reference this name in the indexed sources."@
    } else if dropped > 0 {
        "Coverage: "@ + decimal(resolved) + "/"@ + decimal(total) + " call sites naming '"@ + name
            + "' resolved into the graph; "@ + decimal(dropped)
            + " were dropped (ambiguous, external, or unresolved). This callers list may be INCOMPLETE \u{2014} fall back to text search for '"@
            + name + "(' to be sure."@
    } else {
        "Coverage: all "@ + decimal(total) + " call sites naming '"@ + name
            + "' resolved \u{2014} this callers list is complete."@
    }
}

/// The note for a callees query.
pub open spec fn callees_note(resolved: nat, total: nat) -> Seq<char> {
    let dropped = dropped_of(resolved, total);
    if total == 0 {
        "This symbol makes no calls in the indexed sources."@
    } else if dropped > 0 {
        "Coverage: "@ + decimal(resolved) + "/"@ + decimal(total)
            + " outbound call sites resolved to internal definitions; "@ + decimal(dropped)
            + " are external (library) or unresolved and are NOT in this list \u{2014} read the body or grep for those."@
    } else {
        "Coverage: all "@ + decimal(total)
            + " outbound call sites resolved \u{2014} this callees list is complete."@
    }
}

/// A coverage signal derived from real counters: raw call sites against
/// resolved `Calls` edges.
#[derive(Debug, Clone, PartialEq, Eq)]
pub struct Coverage {
    /// Call sites that resolved into the graph.
    pub resolved: usize,
    /// Total raw textual call sites considered for this query.
    pub total_call_sites: usize,
    /// Call sites that did not resolve (ambiguous / external / unresolved).
    pub dropped: usize,
    /// True when `dropped > 0`: the precise result may be incomplete.
    pub may_be_incomplete: bool,
    /// One-line explanation with a fallback instruction.
    pub note: String,
}

impl Coverage {
    /// Coverage of a callers query for `name`.
    pub fn callers(name: &str, resolved: usize, total: usize) -> (c: Coverage)
        ensures
            c.resolved == resolved,
            c.total_call_sites == total,
            c.dropped == dropped_of(resolved as nat, total as nat),
            c.may_be_incomplete == (c.dropped > 0),
            c.note@ == callers_note(name@, resolved as nat, total as nat),
    {
        let dropped = if total >= resolved { total - resolved } else { 0 };
        let mut note: Vec<char> = Vec::new();
        if total == 0 {
            push_str(&mut note, "No call sites reference this name in the indexed sources.");
        } else if dropped > 0 {
            push_str(&mut note, "Coverage: ");
            push_decimal(&mut note, resolved);
            push_str(&mut note, "/");
            push_decimal(&mut note, total);
            push_str(&mut note, " call sites naming '");
            push_str(&mut note, name);
            push_str(&mut note, "' resolved into the graph; ");
            push_decimal(&mut note, dropped);
            push_str(
                &mut note,
                " were dropped (ambiguous, external, or unresolved). This callers list may be INCOMPLETE \u{2014} fall back to text search for '",
            );
            push_str(&mut note, name);
            push_str(&mut note, "(' to be sure.");
        } else {
            push_str(&mut note, "Coverage: all ");
            push_decimal(&mut note, total);
            push_str(&mut note, " call sites naming '");
            push_str(&mut note, name);
            push_str(&mut note, "' resolved \u{2014} this callers list is complete.");
        }
        proof {
            assert(note@ =~= callers_note(name@, resolved as nat, total as nat));
        }
        Coverage {
            resolved,
            total_call_sites: total,
            dropped,
            may_be_incomplete: dropped > 0,
            note: string_of(&note),
        }
    }

    /// Coverage of a callees query.
    pub fn callees(resolved: usize, total: usize) -> (c: Coverage)
        ensures
            c.resolved == resolved,
            c.total_call_sites == total,
            c.dropped == dropped_of(resolved as nat, total as nat),
            c.may_be_incomplete == (c.dropped > 0),
            c.note@ == callees_note(resolved as nat, total as nat),
    {
        let dropped = if total >= resolved { total - resolved } else { 0 };
        let mut note: Vec<char> = Vec::new();
        if total == 0 {
            push_str(&mut note, "This symbol makes no calls in the indexed sources.");
        } else if dropped > 0 {
            push_str(&mut note, "Coverage: ");
            push_decimal(&mut note, resolved);
            push_str(&mut note, "/");
            push_decimal(&mut note, total);
            push_str(&mut note, " outbound call sites resolved to internal definitions; ");
            push_decimal(&mut note, dropped);
            push_str(
                &mut note,
                " are external (library) or unresolved and are NOT in this list \u{2014} read the body or grep for those.",
            );
        } else {
            push_str(&mut note, "Coverage: all ");
            push_decimal(&mut note, total);
            push_str(&mut note, " outbound call sites resolved \u{2014} this callees list is complete.");
        }
        proof {
            assert(note@ =~= callees_note(resolved as nat, total as nat));
        }
        Coverage {
            resolved,
            total_call_sites: total,
            dropped,
            may_be_incomplete: dropped > 0,
            note: string_of(&note),
        }
    }
}

} // verus!
