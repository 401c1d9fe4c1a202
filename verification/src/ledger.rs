//! The transform ledger: staged positional edits applied in one pass.
//!
//! Edits are recorded against the *original* index space of the sequence
//! they will be applied to; earlier edits never shift the coordinates of
//! later ones.  Applying walks the original indices once: at each index the
//! insertions staged there come first, in staging order, then the original
//! token unless a removal is staged at that index.  Removing the same index
//! twice is the same as removing it once; insertions staged at the
//! sequence's length go at the very end.

use vstd::prelude::*;

use crate::token::{views_of, STok, Token};

verus! {

/// Staged positional edits against one token sequence.
pub struct Ledger {
    insertions: Vec<(usize, Token)>,
    deletions: Vec<usize>,
}

/// Whether a removal is staged at index `i`.
pub open spec fn deleted(dels: Seq<int>, i: int) -> bool {
    exists|k: int| 0 <= k < dels.len() && dels[k] == i
}

/// The insertions staged at index `i` among the staged suffix from `j` on,
/// in staging order.
pub open spec fn inserts_from(ins: Seq<(int, STok)>, j: int, i: int) -> Seq<STok>
    decreases ins.len() - j,
{
    if j < 0 || j >= ins.len() {
        Seq::empty()
    } else {
        (if ins[j].0 == i {
            seq![ins[j].1]
        } else {
            Seq::empty()
        }) + inserts_from(ins, j + 1, i)
    }
}

/// The insertions staged at index `i`, in staging order.
pub open spec fn inserts_at(ins: Seq<(int, STok)>, i: int) -> Seq<STok> {
    inserts_from(ins, 0, i)
}

/// The applied sequence from original index `i` on: insertions staged at an
/// index go before the original token there, a staged removal drops the
/// original token, and insertions staged at the length go at the end.
pub open spec fn applied_from(ts: Seq<STok>, ins: Seq<(int, STok)>, dels: Seq<int>, i: int) -> Seq<
    STok,
>
    decreases ts.len() - i,
{
    if i < 0 || i >= ts.len() {
        inserts_at(ins, ts.len() as int)
    } else {
        inserts_at(ins, i) + (if deleted(dels, i) {
            Seq::empty()
        } else {
            seq![ts[i]]
        }) + applied_from(ts, ins, dels, i + 1)
    }
}

/// The result of applying the staged edits to `ts`.
pub open spec fn spec_apply(ts: Seq<STok>, ins: Seq<(int, STok)>, dels: Seq<int>) -> Seq<STok> {
    applied_from(ts, ins, dels, 0)
}

/// The mathematical value of a removal list.
pub open spec fn dels_views(s: Seq<usize>) -> Seq<int> {
    Seq::new(s.len(), |k: int| s[k] as int)
}

/// The mathematical value of an insertion list.
pub open spec fn ins_views(s: Seq<(usize, Token)>) -> Seq<(int, STok)> {
    Seq::new(s.len(), |k: int| (s[k].0 as int, s[k].1@))
}

/// Whether index `i` occurs in the removal list.
fn contains_del(dels: &Vec<usize>, i: usize) -> (r: bool)
    ensures
        r == deleted(dels_views(dels@), i as int),
{
    let mut k: usize = 0;
    while k < dels.len()
        invariant
            k <= dels@.len(),
            forall|j: int| 0 <= j < k ==> dels@[j] != i,
        decreases dels@.len() - k,
    {
        if dels[k] == i {
            assert(dels_views(dels@)[k as int] == i as int);
            return true;
        }
        k += 1;
    }
    proof {
        assert forall|j: int| 0 <= j < dels_views(dels@).len() implies dels_views(dels@)[j]
            != i as int by {
            assert(dels@[j] != i);
        }
    }
    false
}

/// Moves every token of `b` onto the end of `out`, last staged first.
fn pop_all(b: &mut Vec<Token>, out: &mut Vec<Token>)
    ensures
        views_of(final(out)@) == views_of(old(out)@) + views_of(old(b)@).reverse(),
        final(b)@.len() == 0,
    decreases old(b)@.len(),
{
    let ghost bv = views_of(b@);
    let ghost outv = views_of(out@);
    match b.pop() {
        None => {
            proof {
                assert(outv + bv.reverse() =~= outv);
            }
        },
        Some(t) => {
            let ghost tg = t;
            let ghost outseq = out@;
            out.push(t);
            proof {
                crate::tokenize::lemma_views_push(outseq, tg);
                assert(views_of(b@) =~= bv.drop_last());
            }
            pop_all(b, out);
            proof {
                assert(bv.reverse() =~= seq![tg@] + bv.drop_last().reverse());
                assert((outv + seq![tg@]) + bv.drop_last().reverse() =~= outv + (seq![tg@]
                    + bv.drop_last().reverse()));
            }
        },
    }
}

impl Ledger {
    /// The staged insertions, in staging order.
    pub closed spec fn insert_ops(&self) -> Seq<(int, STok)> {
        ins_views(self.insertions@)
    }

    /// The staged removals, in staging order.
    pub closed spec fn remove_ops(&self) -> Seq<int> {
        dels_views(self.deletions@)
    }

    /// A fresh ledger with nothing staged.
    pub fn new() -> (r: Ledger)
        ensures
            r.insert_ops() == Seq::<(int, STok)>::empty(),
            r.remove_ops() == Seq::<int>::empty(),
    {
        let r = Ledger { insertions: Vec::new(), deletions: Vec::new() };
        proof {
            assert(r.insert_ops() =~= Seq::<(int, STok)>::empty());
            assert(r.remove_ops() =~= Seq::<int>::empty());
        }
        r
    }

    /// Stages the removal of the token at `index` of the original sequence.
    pub fn remove_at(&mut self, index: usize)
        ensures
            final(self).insert_ops() == old(self).insert_ops(),
            final(self).remove_ops() == old(self).remove_ops().push(index as int),
    {
        self.deletions.push(index);
        proof {
            assert(self.insert_ops() =~= old(self).insert_ops());
            assert(self.remove_ops() =~= old(self).remove_ops().push(index as int));
        }
    }

    /// Stages the insertion of `token` at `index` of the original sequence.
    pub fn insert_at(&mut self, index: usize, token: Token)
        ensures
            final(self).insert_ops() == old(self).insert_ops().push((index as int, token@)),
            final(self).remove_ops() == old(self).remove_ops(),
    {
        let ghost tv = token@;
        self.insertions.push((index, token));
        proof {
            assert(self.insert_ops() =~= old(self).insert_ops().push((index as int, tv)));
            assert(self.remove_ops() =~= old(self).remove_ops());
        }
    }

    /// Applies the staged edits to `ts` in one pass over the original
    /// indices.  Every staged index must lie in the original sequence
    /// (insertions may also name the position just past its end): an edit
    /// out of that range is a fault in the caller, not a recoverable state.
    #[verifier::rlimit(60)]
    pub fn apply(self, ts: Vec<Token>) -> (r: Vec<Token>)
        requires
            forall|k: int|
                0 <= k < self.insert_ops().len() ==> 0 <= (#[trigger] self.insert_ops()[k]).0
                    <= ts@.len(),
            forall|k: int|
                0 <= k < self.remove_ops().len() ==> 0 <= #[trigger] self.remove_ops()[k]
                    < ts@.len(),
        ensures
            views_of(r@) == spec_apply(views_of(ts@), self.insert_ops(), self.remove_ops()),
    {
        let ghost ins0 = self.insert_ops();
        let ghost dels0 = self.remove_ops();
        let ghost tsv = views_of(ts@);
        let Ledger { mut insertions, deletions } = self;
        let mut ts = ts;
        let n = ts.len();

        // one bucket per original index, and one for the end
        let mut buckets: Vec<Vec<Token>> = Vec::new();
        let mut bi: usize = 0;
        while bi < n
            invariant
                buckets@.len() == bi,
                bi <= n,
                forall|k: int| 0 <= k < bi ==> (#[trigger] buckets@[k])@.len() == 0,
            decreases n - bi,
        {
            buckets.push(Vec::new());
            bi += 1;
        }
        buckets.push(Vec::new());

        // distribute the staged insertions into their buckets, last first
        proof {
            assert(ins_views(insertions@) =~= ins0.take(insertions@.len() as int));
            assert forall|b: int| 0 <= b <= n implies views_of(#[trigger] buckets@[b]@)
                == inserts_from(ins0, insertions@.len() as int, b).reverse() by {
                assert(views_of(buckets@[b]@) =~= Seq::<STok>::empty());
                assert(inserts_from(ins0, insertions@.len() as int, b).reverse()
                    =~= Seq::<STok>::empty());
            }
        }
        while insertions.len() > 0
            invariant
                buckets@.len() == n + 1,
                n == tsv.len(),
                ins_views(insertions@) == ins0.take(insertions@.len() as int),
                insertions@.len() <= ins0.len(),
                forall|k: int| 0 <= k < ins0.len() ==> 0 <= (#[trigger] ins0[k]).0 <= n,
                forall|b: int|
                    0 <= b <= n ==> views_of(#[trigger] buckets@[b]@) == inserts_from(
                        ins0,
                        insertions@.len() as int,
                        b,
                    ).reverse(),
            decreases insertions@.len(),
        {
            let ghost k = insertions@.len() as int;
            let ghost ins_before = insertions@;
            match insertions.pop() {
                None => {
                    proof {
                        assert(false);
                    }
                },
                Some((idx, tok)) => {
                    let ghost tv = tok@;
                    let ghost tg = tok;
                    proof {
                        assert(ins_views(ins_before)[k - 1] == (idx as int, tv));
                        assert(ins0.take(k)[k - 1] == ins0[k - 1]);
                        assert((idx as int, tv) == ins0[k - 1]);
                        assert(0 <= ins0[k - 1].0 <= n);
                    }
                    let bref = &mut buckets[idx];
                    let ghost bv = views_of(bref@);
                    let ghost bseq = bref@;
                    bref.push(tok);
                    proof {
                        crate::tokenize::lemma_views_push(bseq, tg);
                        assert(ins_views(insertions@) =~= ins0.take(k - 1));
                        assert forall|b: int| 0 <= b <= n implies views_of(
                            #[trigger] buckets@[b]@,
                        ) == inserts_from(ins0, k - 1, b).reverse() by {
                            if b == idx as int {
                                assert(inserts_from(ins0, k - 1, b) == seq![ins0[k - 1].1]
                                    + inserts_from(ins0, k, b));
                                assert(views_of(buckets@[b]@) =~= bv.push(tv));
                                assert((seq![tv] + inserts_from(ins0, k, b)).reverse()
                                    =~= inserts_from(ins0, k, b).reverse().push(tv));
                            } else {
                                assert(inserts_from(ins0, k - 1, b) =~= inserts_from(ins0, k, b));
                            }
                        }
                    }
                },
            }
        }

        // walk the original indices once
        let mut out: Vec<Token> = Vec::new();
        let mut i: usize = 0;
        proof {
            assert(views_of(ts@) =~= tsv.skip(0));
            assert(views_of(out@) + applied_from(tsv, ins0, dels0, 0) =~= applied_from(
                tsv,
                ins0,
                dels0,
                0,
            ));
            assert(ins_views(insertions@) =~= Seq::<(int, STok)>::empty());
            assert forall|b: int| 0 <= b <= n implies views_of(#[trigger] buckets@[b]@)
                == inserts_at(ins0, b).reverse() by {
                assert(inserts_from(ins0, 0, b) == inserts_at(ins0, b));
            }
        }
        while i < n
            invariant
                i <= n,
                n == tsv.len(),
                buckets@.len() == n + 1,
                views_of(ts@) == tsv.skip(i as int),
                dels0 == dels_views(deletions@),
                forall|b: int|
                    i <= b <= n ==> views_of(#[trigger] buckets@[b]@) == inserts_at(
                        ins0,
                        b,
                    ).reverse(),
                views_of(out@) + applied_from(tsv, ins0, dels0, i as int) == spec_apply(
                    tsv,
                    ins0,
                    dels0,
                ),
            decreases n - i,
        {
            let ghost out_before = views_of(out@);
            let bref = &mut buckets[i];
            pop_all(bref, &mut out);
            proof {
                assert(inserts_at(ins0, i as int).reverse().reverse() =~= inserts_at(
                    ins0,
                    i as int,
                ));
                assert(views_of(out@) == out_before + inserts_at(ins0, i as int));
            }
            let keep = !contains_del(&deletions, i);
            let ghost mid = views_of(out@);
            let ghost tsseq = ts@;
            proof {
                assert(views_of(tsseq).len() == tsseq.len());
                assert(tsv.skip(i as int).len() == n - i);
            }
            let tok = ts.remove(0);
            let ghost tg = tok;
            proof {
                assert(views_of(tsseq)[0] == tsseq[0]@);
                assert(views_of(tsseq)[0] == tsv.skip(i as int)[0]);
                assert(tg@ == tsv[i as int]);
                assert(views_of(ts@) =~= views_of(tsseq).drop_first());
                assert(views_of(tsseq).drop_first() =~= tsv.skip(i + 1));
            }
            if keep {
                let ghost outseq = out@;
                out.push(tok);
                proof {
                    crate::tokenize::lemma_views_push(outseq, tg);
                }
            }
            proof {
                let rest = applied_from(tsv, ins0, dels0, i + 1);
                let keep_part: Seq<STok> = if deleted(dels0, i as int) {
                    Seq::empty()
                } else {
                    seq![tsv[i as int]]
                };
                assert(applied_from(tsv, ins0, dels0, i as int) == inserts_at(ins0, i as int)
                    + keep_part + rest);
                assert(views_of(out@) =~= mid + keep_part);
                assert(out_before + (inserts_at(ins0, i as int) + keep_part + rest) =~= (out_before
                    + inserts_at(ins0, i as int) + keep_part) + rest);
            }
            i += 1;
        }
        // the insertions staged at the very end
        let ghost out_before = views_of(out@);
        let bref = &mut buckets[n];
        pop_all(bref, &mut out);
        proof {
            assert(applied_from(tsv, ins0, dels0, n as int) == inserts_at(ins0, n as int));
            assert(inserts_at(ins0, n as int).reverse().reverse() =~= inserts_at(ins0, n as int));
            assert(views_of(out@) == out_before + inserts_at(ins0, n as int));
        }
        out
    }
}

} // verus!
