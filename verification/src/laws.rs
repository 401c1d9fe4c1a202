//! Laws of the conversion pass.
//!
//! These proof functions state, over the same specification functions the
//! executable contracts use, what the engine guarantees of whole token
//! sequences: a normalized date is never rewritten again, a sequence with
//! no matching field passes through unchanged, and on sequences whose
//! matches do not overlap the conversion is a pointwise replacement.

use vstd::prelude::*;

use crate::date::fmt_yyyymmdd;
use crate::ledger::{applied_from, deleted, inserts_at, inserts_from};
use crate::rewrite::{edits_del_from, edits_ins_from, replacement_pair, rewrites_at, spec_convert,
    spec_rewrite};
use crate::scan::lemma_scan_back_unique;
use crate::token::STok;

verus! {

/// A text without a space is never rewritten.
pub proof fn lemma_rewrite_needs_space(t: Seq<char>)
    requires
        forall|k: int| 0 <= k < t.len() ==> t[k] != ' ',
    ensures
        spec_rewrite(t) is None,
{
    lemma_scan_back_unique(t, t.len() as int, (|c: char| c == ' '), 0);
}

/// Idempotence at the token level: a date the engine has already
/// normalized to `YYYYMMDD` holds no space, so re-running the rewriter on
/// it changes nothing.
pub proof fn lemma_normalized_date_stable(y: int, m: int, d: int)
    ensures
        spec_rewrite(fmt_yyyymmdd(y, m, d)) is None,
{
    let t = fmt_yyyymmdd(y, m, d);
    assert forall|k: int| 0 <= k < t.len() implies t[k] != ' ' by {
        assert(t.len() == 8);
    }
    lemma_rewrite_needs_space(t);
}

/// With no matching field anywhere, nothing is staged.
proof fn lemma_edits_empty(ts: Seq<STok>, i: int)
    requires
        forall|j: int| !rewrites_at(ts, j),
    ensures
        edits_ins_from(ts, i) == Seq::<(int, STok)>::empty(),
        edits_del_from(ts, i) == Seq::<int>::empty(),
    decreases ts.len() - i,
{
    if 1 <= i < ts.len() {
        lemma_edits_empty(ts, i + 1);
        assert(edits_ins_from(ts, i) =~= Seq::<(int, STok)>::empty());
        assert(edits_del_from(ts, i) =~= Seq::<int>::empty());
    }
}

/// Applying an empty ledger returns the sequence.
proof fn lemma_apply_empty(ts: Seq<STok>, p: int)
    requires
        0 <= p <= ts.len(),
    ensures
        applied_from(ts, Seq::empty(), Seq::empty(), p) == ts.skip(p),
    decreases ts.len() - p,
{
    if p < ts.len() {
        lemma_apply_empty(ts, p + 1);
        assert(Seq::<STok>::empty() + seq![ts[p]] + ts.skip(p + 1) =~= ts.skip(p));
    } else {
        assert(applied_from(ts, Seq::empty(), Seq::empty(), p) =~= ts.skip(p));
    }
}

/// A sequence in which no field matches is returned unchanged: the pass
/// leaves non-conforming documents exactly as they were.
pub proof fn lemma_convert_no_match_identity(ts: Seq<STok>)
    requires
        forall|i: int| !rewrites_at(ts, i),
    ensures
        spec_convert(ts) == ts,
{
    lemma_edits_empty(ts, 1);
    lemma_apply_empty(ts, 0);
    assert(ts.skip(0) =~= ts);
}

/// No two matching fields stand so close that one field's replacement name
/// token is the other's replacement date token.
pub open spec fn matches_separated(ts: Seq<STok>) -> bool {
    forall|i: int| !(#[trigger] rewrites_at(ts, i) && rewrites_at(ts, i + 9))
}

/// What the conversion puts at position `k` of a separated sequence.
pub open spec fn converted_tok(ts: Seq<STok>, k: int) -> STok {
    if rewrites_at(ts, k + 7) {
        replacement_pair(ts, k + 7).0
    } else if rewrites_at(ts, k - 2) {
        replacement_pair(ts, k - 2).1
    } else {
        ts[k]
    }
}

/// The insertions the characterization expects at position `k`, counting
/// only fields at or after `i`.
spec fn expected_ins(ts: Seq<STok>, i: int, k: int) -> Seq<STok> {
    if rewrites_at(ts, k + 7) && k + 7 >= i {
        seq![replacement_pair(ts, k + 7).0]
    } else if rewrites_at(ts, k - 2) && k - 2 >= i {
        seq![replacement_pair(ts, k - 2).1]
    } else {
        Seq::empty()
    }
}

/// Scanning staged insertions from `j` on ignores a prefix wholesale.
proof fn lemma_inserts_from_shift(a: Seq<(int, STok)>, b: Seq<(int, STok)>, j: int, k: int)
    requires
        a.len() <= j,
    ensures
        inserts_from(a + b, j, k) == inserts_from(b, j - a.len(), k),
    decreases (a + b).len() - j,
{
    if 0 <= j < (a + b).len() {
        assert((a + b)[j] == b[j - a.len()]);
        lemma_inserts_from_shift(a, b, j + 1, k);
    }
}

/// Per-position characterization of the staged insertions.
proof fn lemma_ins_char(ts: Seq<STok>, i: int, k: int)
    requires
        1 <= i,
        matches_separated(ts),
    ensures
        inserts_at(edits_ins_from(ts, i), k) == expected_ins(ts, i, k),
    decreases ts.len() - i,
{
    if i < ts.len() {
        lemma_ins_char(ts, i + 1, k);
        let rest = edits_ins_from(ts, i + 1);
        if rewrites_at(ts, i) {
            let p0 = (i - 7, replacement_pair(ts, i).0);
            let p1 = (i + 2, replacement_pair(ts, i).1);
            let head = seq![p0, p1];
            assert(edits_ins_from(ts, i) == head + rest);
            assert((head + rest)[0] == p0);
            assert((head + rest)[1] == p1);
            lemma_inserts_from_shift(head, rest, 2, k);
            assert(inserts_from(head + rest, 0, k) == (if p0.0 == k {
                seq![p0.1]
            } else {
                Seq::<STok>::empty()
            }) + inserts_from(head + rest, 1, k));
            assert(inserts_from(head + rest, 1, k) == (if p1.0 == k {
                seq![p1.1]
            } else {
                Seq::<STok>::empty()
            }) + inserts_from(head + rest, 2, k));
            assert(inserts_from(head + rest, 2, k) == inserts_at(rest, k));
            if k == i - 7 {
                assert(expected_ins(ts, i + 1, k) =~= Seq::<STok>::empty());
                assert(inserts_at(head + rest, k) =~= seq![p0.1]);
            } else if k == i + 2 {
                assert(!rewrites_at(ts, i + 9));
                assert(expected_ins(ts, i + 1, k) =~= Seq::<STok>::empty());
                assert(inserts_at(head + rest, k) =~= seq![p1.1]);
            } else {
                assert(inserts_at(head + rest, k) =~= inserts_at(rest, k));
                assert(expected_ins(ts, i, k) =~= expected_ins(ts, i + 1, k));
            }
        } else {
            assert(edits_ins_from(ts, i) =~= rest);
            assert(expected_ins(ts, i, k) =~= expected_ins(ts, i + 1, k));
        }
    } else {
        if rewrites_at(ts, k + 7) && k + 7 >= i {
            assert(k + 7 + 2 < ts.len());
            assert(false);
        }
        if rewrites_at(ts, k - 2) && k - 2 >= i {
            assert(k - 2 + 2 < ts.len());
            assert(false);
        }
        assert(inserts_at(edits_ins_from(ts, i), k) =~= Seq::<STok>::empty());
    }
}

/// Whether the characterization expects a removal at position `k`,
/// counting only fields at or after `i`.
spec fn expected_del(ts: Seq<STok>, i: int, k: int) -> bool {
    (rewrites_at(ts, k + 7) && k + 7 >= i) || (rewrites_at(ts, k - 2) && k - 2 >= i)
}

/// A removal is staged in a concatenation exactly when it is staged in one
/// of the parts.
proof fn lemma_deleted_concat(a: Seq<int>, b: Seq<int>, k: int)
    ensures
        deleted(a + b, k) == (deleted(a, k) || deleted(b, k)),
{
    if deleted(a + b, k) {
        let j = choose|j: int| 0 <= j < (a + b).len() && (a + b)[j] == k;
        if j < a.len() {
            assert(a[j] == k);
        } else {
            assert(b[j - a.len()] == k);
        }
    }
    if deleted(a, k) {
        let j = choose|j: int| 0 <= j < a.len() && a[j] == k;
        assert((a + b)[j] == k);
    }
    if deleted(b, k) {
        let j = choose|j: int| 0 <= j < b.len() && b[j] == k;
        assert((a + b)[a.len() + j] == k);
    }
}

/// Per-position characterization of the staged removals.
proof fn lemma_del_char(ts: Seq<STok>, i: int, k: int)
    requires
        1 <= i,
    ensures
        deleted(edits_del_from(ts, i), k) == expected_del(ts, i, k),
    decreases ts.len() - i,
{
    if i < ts.len() {
        lemma_del_char(ts, i + 1, k);
        let rest = edits_del_from(ts, i + 1);
        if rewrites_at(ts, i) {
            let head = seq![i - 7, i + 2];
            assert(edits_del_from(ts, i) == head + rest);
            lemma_deleted_concat(head, rest, k);
            assert(deleted(head, k) == (k == i - 7 || k == i + 2)) by {
                if deleted(head, k) {
                    let j = choose|j: int| 0 <= j < head.len() && head[j] == k;
                    assert(j == 0 || j == 1);
                }
                if k == i - 7 {
                    assert(head[0] == k);
                }
                if k == i + 2 {
                    assert(head[1] == k);
                }
            }
        } else {
            assert(edits_del_from(ts, i) =~= rest);
        }
    } else {
        if expected_del(ts, i, k) {
            assert(false);
        }
        if deleted(edits_del_from(ts, i), k) {
            let j = choose|j: int|
                0 <= j < edits_del_from(ts, i).len() && edits_del_from(ts, i)[j] == k;
            assert(false);
        }
    }
}

/// The conversion, position by position, from `p` on.
proof fn lemma_conv_from(ts: Seq<STok>, p: int)
    requires
        matches_separated(ts),
        0 <= p <= ts.len(),
    ensures
        applied_from(ts, edits_ins_from(ts, 1), edits_del_from(ts, 1), p) == Seq::new(
            (ts.len() - p) as nat,
            |j: int| converted_tok(ts, p + j),
        ),
    decreases ts.len() - p,
{
    let ins = edits_ins_from(ts, 1);
    let dels = edits_del_from(ts, 1);
    let goal = Seq::new((ts.len() - p) as nat, |j: int| converted_tok(ts, p + j));
    if p < ts.len() {
        lemma_conv_from(ts, p + 1);
        lemma_ins_char(ts, 1, p);
        lemma_del_char(ts, 1, p);
        let restgoal = Seq::new((ts.len() - p - 1) as nat, |j: int| converted_tok(ts, p + 1 + j));
        if rewrites_at(ts, p + 7) {
            assert(expected_del(ts, 1, p));
            assert(!rewrites_at(ts, p - 2)) by {
                if rewrites_at(ts, p - 2) {
                    assert(rewrites_at(ts, p - 2) && rewrites_at(ts, p - 2 + 9));
                }
            }
            assert(applied_from(ts, ins, dels, p) == seq![replacement_pair(ts, p + 7).0]
                + Seq::<STok>::empty() + restgoal);
            assert(goal =~= seq![converted_tok(ts, p)] + restgoal);
            assert(applied_from(ts, ins, dels, p) =~= goal);
        } else if rewrites_at(ts, p - 2) {
            assert(expected_del(ts, 1, p));
            assert(applied_from(ts, ins, dels, p) == seq![replacement_pair(ts, p - 2).1]
                + Seq::<STok>::empty() + restgoal);
            assert(goal =~= seq![converted_tok(ts, p)] + restgoal);
            assert(applied_from(ts, ins, dels, p) =~= goal);
        } else {
            assert(!expected_del(ts, 1, p));
            assert(applied_from(ts, ins, dels, p) == Seq::<STok>::empty() + seq![ts[p]]
                + restgoal);
            assert(goal =~= seq![converted_tok(ts, p)] + restgoal);
            assert(applied_from(ts, ins, dels, p) =~= goal);
        }
    } else {
        lemma_ins_char(ts, 1, p);
        if rewrites_at(ts, p + 7) {
            assert(p + 7 + 2 < ts.len());
            assert(false);
        }
        if rewrites_at(ts, p - 2) {
            assert(p - 2 + 2 < ts.len());
            assert(false);
        }
        assert(applied_from(ts, ins, dels, p) =~= goal);
    }
}

/// The shape of a converted document: on a sequence whose matches do not
/// overlap, the conversion keeps the length, puts the `YYYYMMDD` date
/// token a fixed distance before each matching field's open tag, puts the
/// cleaned name in the field's character slot, and leaves every other
/// position untouched.
pub proof fn lemma_convert_pointwise(ts: Seq<STok>)
    requires
        matches_separated(ts),
    ensures
        spec_convert(ts).len() == ts.len(),
        forall|k: int| 0 <= k < ts.len() ==> spec_convert(ts)[k] == converted_tok(ts, k),
        forall|i: int|
            #[trigger] rewrites_at(ts, i) ==> spec_convert(ts)[i - 7] == replacement_pair(
                ts,
                i,
            ).0 && spec_convert(ts)[i + 2] == replacement_pair(ts, i).1,
        forall|k: int|
            0 <= k < ts.len() && !rewrites_at(ts, k + 7) && !rewrites_at(ts, k - 2)
                ==> spec_convert(ts)[k] == ts[k],
{
    lemma_conv_from(ts, 0);
    assert forall|i: int| #[trigger] rewrites_at(ts, i) implies spec_convert(ts)[i - 7]
        == replacement_pair(ts, i).0 && spec_convert(ts)[i + 2] == replacement_pair(ts, i).1 by {
        assert(7 <= i && i + 2 < ts.len());
        assert(spec_convert(ts)[i - 7] == converted_tok(ts, i - 7));
        assert(spec_convert(ts)[i + 2] == converted_tok(ts, i + 2));
        assert(!rewrites_at(ts, i + 9));
        assert(converted_tok(ts, i + 2) == replacement_pair(ts, i).1);
    }
}

} // verus!
