//! The field locator, the date rewriter, and the conversion pass.
//!
//! The locator walks the token sequence and recognizes a transaction-name
//! field by its canonical, attribute-free shape: an opening `NAME` tag whose
//! character data stands exactly two tokens later.  The rewriter splits that
//! field's text on its last space; when the part after the space is a
//! `DD.MM.YY` date, the field is replaced by the name alone, trimmed, and
//! the date token a fixed distance before the tag is replaced by the date
//! reformatted as `YYYYMMDD`.  All replacements are staged in a ledger
//! during the scan and applied afterwards in one pass.

use vstd::prelude::*;

use crate::date::{fmt_yyyymmdd, format_yyyymmdd, parse_date_range, parse_ddmmyy};
use crate::ledger::{spec_apply, Ledger};
use crate::scan::{lemma_scan_back_unique, scan_back};
use crate::strutil::{chars_vec, extract_string, trim_range, trim_ws};
use crate::token::{views_of, STok, Token};

verus! {

/// How far the posted-date character token stands before the name open tag
/// in this document dialect.  The distance encodes the dialect's canonical
/// run of attribute-free elements between the two fields; it is not general
/// document structure.
pub const DATE_TOKEN_OFFSET: usize = 7;

/// How far a field's character data stands after its open tag: the close of
/// the start tag comes between, and the dialect puts no attributes there.
pub const FIELD_TEXT_OFFSET: usize = 2;

/// The recognized transaction-name tag.
pub open spec fn name_tag() -> Seq<char> {
    seq!['N', 'A', 'M', 'E']
}

/// The character data a token holds (empty for any other token kind).
pub open spec fn char_text(t: STok) -> Seq<char> {
    match t {
        STok::Character { text } => text,
        _ => Seq::empty(),
    }
}

/// Whether position `i` opens a transaction-name field of the canonical
/// shape.  The first token is taken for a document-level wrapper and never
/// matches.
pub open spec fn is_name_field(ts: Seq<STok>, i: int) -> bool {
    &&& 1 <= i && i + (FIELD_TEXT_OFFSET as int) < ts.len()
    &&& ts[i] == (STok::OpenStartTag { name: name_tag() })
    &&& ts[i + (FIELD_TEXT_OFFSET as int)] is Character
}

/// The replacement texts for one field: the date reformatted as `YYYYMMDD`
/// and the cleaned name, or `None` when the text has no space or no
/// `DD.MM.YY` date after its last space.
pub open spec fn spec_rewrite(text: Seq<char>) -> Option<(Seq<char>, Seq<char>)> {
    let e = scan_back(text, text.len() as int, (|c: char| c == ' '));
    if e <= 0 {
        None
    } else {
        let after = text.subrange(e, text.len() as int);
        match parse_ddmmyy(after) {
            None => None,
            Some((y, m, d)) => Some((fmt_yyyymmdd(y, m, d), trim_ws(text.subrange(0, e - 1)))),
        }
    }
}

/// Whether the field at `i` is rewritten: it must match, its date token
/// must lie inside the sequence, and its text must carry a date suffix.
pub open spec fn rewrites_at(ts: Seq<STok>, i: int) -> bool {
    &&& is_name_field(ts, i)
    &&& i >= (DATE_TOKEN_OFFSET as int)
    &&& spec_rewrite(char_text(ts[i + (FIELD_TEXT_OFFSET as int)])) is Some
}

/// The two tokens a rewritten field is replaced by.
pub open spec fn replacement_pair(ts: Seq<STok>, i: int) -> (STok, STok) {
    let (date, cleaned) = spec_rewrite(char_text(ts[i + (FIELD_TEXT_OFFSET as int)]))->Some_0;
    (STok::Character { text: date }, STok::Character { text: cleaned })
}

/// The insertions the scan stages from position `i` on, in scan order.
pub open spec fn edits_ins_from(ts: Seq<STok>, i: int) -> Seq<(int, STok)>
    decreases ts.len() - i,
{
    if i < 1 || i >= ts.len() {
        Seq::empty()
    } else {
        (if rewrites_at(ts, i) {
            seq![
                (i - (DATE_TOKEN_OFFSET as int), replacement_pair(ts, i).0),
                (i + (FIELD_TEXT_OFFSET as int), replacement_pair(ts, i).1),
            ]
        } else {
            Seq::empty()
        }) + edits_ins_from(ts, i + 1)
    }
}

/// The removals the scan stages from position `i` on, in scan order.
pub open spec fn edits_del_from(ts: Seq<STok>, i: int) -> Seq<int>
    decreases ts.len() - i,
{
    if i < 1 || i >= ts.len() {
        Seq::empty()
    } else {
        (if rewrites_at(ts, i) {
            seq![i - (DATE_TOKEN_OFFSET as int), i + (FIELD_TEXT_OFFSET as int)]
        } else {
            Seq::empty()
        }) + edits_del_from(ts, i + 1)
    }
}

/// The whole conversion: every staged replacement applied against the
/// original index space.
pub open spec fn spec_convert(ts: Seq<STok>) -> Seq<STok> {
    spec_apply(ts, edits_ins_from(ts, 1), edits_del_from(ts, 1))
}

/// Every staged insertion index lies in `[0, ts.len())`.
pub proof fn lemma_edits_ins_bounds(ts: Seq<STok>, i: int)
    requires
        i >= 1,
    ensures
        forall|k: int|
            0 <= k < edits_ins_from(ts, i).len() ==> 0 <= (#[trigger] edits_ins_from(ts, i)[k]).0
                < ts.len(),
    decreases ts.len() - i,
{
    if 1 <= i < ts.len() {
        lemma_edits_ins_bounds(ts, i + 1);
        let head: Seq<(int, STok)> = if rewrites_at(ts, i) {
            seq![
                (i - (DATE_TOKEN_OFFSET as int), replacement_pair(ts, i).0),
                (i + (FIELD_TEXT_OFFSET as int), replacement_pair(ts, i).1),
            ]
        } else {
            Seq::empty()
        };
        let tail = edits_ins_from(ts, i + 1);
        assert forall|k: int| 0 <= k < edits_ins_from(ts, i).len() implies 0 <= (
        #[trigger] edits_ins_from(ts, i)[k]).0 < ts.len() by {
            if k < head.len() {
                assert(edits_ins_from(ts, i)[k] == head[k]);
            } else {
                assert(edits_ins_from(ts, i)[k] == tail[k - head.len()]);
            }
        }
    }
}

/// Every staged removal index lies in `[0, ts.len())`.
pub proof fn lemma_edits_del_bounds(ts: Seq<STok>, i: int)
    requires
        i >= 1,
    ensures
        forall|k: int|
            0 <= k < edits_del_from(ts, i).len() ==> 0 <= #[trigger] edits_del_from(ts, i)[k]
                < ts.len(),
    decreases ts.len() - i,
{
    if 1 <= i < ts.len() {
        lemma_edits_del_bounds(ts, i + 1);
        let head: Seq<int> = if rewrites_at(ts, i) {
            seq![i - (DATE_TOKEN_OFFSET as int), i + (FIELD_TEXT_OFFSET as int)]
        } else {
            Seq::empty()
        };
        let tail = edits_del_from(ts, i + 1);
        assert forall|k: int| 0 <= k < edits_del_from(ts, i).len() implies 0 <= #[trigger] edits_del_from(
            ts,
            i,
        )[k] < ts.len() by {
            if k < head.len() {
                assert(edits_del_from(ts, i)[k] == head[k]);
            } else {
                assert(edits_del_from(ts, i)[k] == tail[k - head.len()]);
            }
        }
    }
}

/// One past the position of the last space in `[0, p)`, or `0` when there
/// is none.
fn space_back(v: &Vec<char>, p: usize) -> (r: usize)
    requires
        p <= v@.len(),
    ensures
        r <= p,
        forall|k: int| r <= k < p ==> v@[k] != ' ',
        r > 0 ==> v@[r - 1] == ' ',
    decreases p,
{
    if p > 0 {
        if v[p - 1] != ' ' {
            return space_back(v, p - 1);
        }
    }
    p
}

/// Splits the text on its last space and, when a `DD.MM.YY` date follows
/// it, returns the date reformatted as `YYYYMMDD` and the name before the
/// space, trimmed.  Returns `None`, leaving the field untouched, when there
/// is no space or no date.
pub fn try_rewrite(text: &str) -> (r: Option<(String, String)>)
    ensures
        match r {
            Some((date, cleaned)) => spec_rewrite(text@) == Some((date@, cleaned@)),
            None => spec_rewrite(text@) is None,
        },
{
    let v = chars_vec(text);
    let n = v.len();
    let e = space_back(&v, n);
    proof {
        lemma_scan_back_unique(v@, n as int, (|c: char| c == ' '), e as int);
    }
    if e == 0 {
        return None;
    }
    match parse_date_range(&v, e, n) {
        None => None,
        Some((y, m, d)) => {
            let date = format_yyyymmdd(y, m, d);
            let (cb, ce) = trim_range(&v, 0, e - 1);
            let cleaned = extract_string(&v, cb, ce);
            Some((date, cleaned))
        },
    }
}

/// Whether the token at `i` opens a transaction-name field, executably.
fn name_field_here(ts: &Vec<Token>, i: usize) -> (b: bool)
    requires
        1 <= i < ts@.len(),
    ensures
        b == is_name_field(views_of(ts@), i as int),
{
    proof {
        reveal_strlit("NAME");
        assert(("NAME")@ =~= name_tag());
        assert(views_of(ts@)[i as int] == ts@[i as int]@);
    }
    let n = ts.len();
    if n - i <= FIELD_TEXT_OFFSET {
        return false;
    }
    proof {
        assert(views_of(ts@)[i + (FIELD_TEXT_OFFSET as int)] == ts@[i
            + (FIELD_TEXT_OFFSET as int)]@);
    }
    match &ts[i] {
        Token::OpenStartTag { name } => {
            if name.eq(&String::from_str("NAME")) {
                match &ts[i + FIELD_TEXT_OFFSET] {
                    Token::Character { .. } => true,
                    _ => false,
                }
            } else {
                false
            }
        },
        _ => false,
    }
}

/// The open-tag indices of every matching field from position `i` on, in
/// order.
pub open spec fn fields_from(ts: Seq<STok>, i: int) -> Seq<int>
    decreases ts.len() - i,
{
    if i < 1 || i >= ts.len() {
        Seq::empty()
    } else {
        (if is_name_field(ts, i) {
            seq![i]
        } else {
            Seq::empty()
        }) + fields_from(ts, i + 1)
    }
}

/// The open-tag indices of a match list.
pub open spec fn firsts(s: Seq<(usize, usize)>) -> Seq<int> {
    Seq::new(s.len(), |k: int| s[k].0 as int)
}

/// Pushes every match from position `i` on onto `out`.
fn collect_fields(ts: &Vec<Token>, i: usize, out: &mut Vec<(usize, usize)>)
    requires
        1 <= i,
        forall|k: int|
            0 <= k < old(out)@.len() ==> (#[trigger] old(out)@[k]).1 == old(out)@[k].0
                + FIELD_TEXT_OFFSET,
    ensures
        firsts(final(out)@) == firsts(old(out)@) + fields_from(views_of(ts@), i as int),
        forall|k: int|
            0 <= k < final(out)@.len() ==> (#[trigger] final(out)@[k]).1 == final(out)@[k].0
                + FIELD_TEXT_OFFSET,
    decreases ts@.len() - i,
{
    let ghost tsv = views_of(ts@);
    if i >= ts.len() {
        proof {
            assert(firsts(out@) + fields_from(tsv, i as int) =~= firsts(out@));
        }
        return ;
    }
    let ghost f0 = firsts(out@);
    if name_field_here(ts, i) {
        out.push((i, i + FIELD_TEXT_OFFSET));
        proof {
            assert(firsts(out@) =~= f0 + seq![i as int]);
        }
        collect_fields(ts, i + 1, out);
        proof {
            assert((f0 + seq![i as int]) + fields_from(tsv, i + 1) =~= f0 + (seq![i as int]
                + fields_from(tsv, i + 1)));
        }
    } else {
        collect_fields(ts, i + 1, out);
        proof {
            assert(fields_from(tsv, i as int) =~= fields_from(tsv, i + 1));
        }
    }
}

/// Scans the sequence for transaction-name fields of the canonical shape
/// and returns each match as the open-tag index paired with the index of
/// the field's character data.  Non-matching positions are passed over.
pub fn locate_date_fields(ts: &Vec<Token>) -> (r: Vec<(usize, usize)>)
    ensures
        firsts(r@) == fields_from(views_of(ts@), 1),
        forall|k: int|
            0 <= k < r@.len() ==> (#[trigger] r@[k]).1 == r@[k].0 + FIELD_TEXT_OFFSET,
{
    let mut out: Vec<(usize, usize)> = Vec::new();
    proof {
        assert(firsts(out@) =~= Seq::<int>::empty());
    }
    collect_fields(ts, 1, &mut out);
    proof {
        assert(Seq::<int>::empty() + fields_from(views_of(ts@), 1) =~= fields_from(
            views_of(ts@),
            1,
        ));
    }
    out
}

/// One conversion pass: scans the sequence, stages a replacement for every
/// matching field whose text carries a `DD.MM.YY` suffix, and applies all
/// staged edits at once against the original index space.
#[verifier::rlimit(60)]
pub fn convert_tokens(ts: Vec<Token>) -> (r: Vec<Token>)
    ensures
        views_of(r@) == spec_convert(views_of(ts@)),
{
    let ghost tsv = views_of(ts@);
    let n = ts.len();
    let mut led = Ledger::new();
    let mut i: usize = 1;
    proof {
        assert(Seq::<(int, STok)>::empty() + edits_ins_from(tsv, 1) =~= edits_ins_from(tsv, 1));
        assert(Seq::<int>::empty() + edits_del_from(tsv, 1) =~= edits_del_from(tsv, 1));
    }
    while i < n
        invariant
            1 <= i,
            n == tsv.len(),
            n == ts@.len(),
            tsv == views_of(ts@),
            led.insert_ops() + edits_ins_from(tsv, i as int) == edits_ins_from(tsv, 1),
            led.remove_ops() + edits_del_from(tsv, i as int) == edits_del_from(tsv, 1),
        decreases n - i,
    {
        let ghost led_ins0 = led.insert_ops();
        let ghost led_del0 = led.remove_ops();
        let mut staged = false;
        if name_field_here(&ts, i) && i >= DATE_TOKEN_OFFSET {
            if let Token::Character { text } = &ts[i + FIELD_TEXT_OFFSET] {
                proof {
                    assert(tsv[i + (FIELD_TEXT_OFFSET as int)] == ts@[i
                        + (FIELD_TEXT_OFFSET as int)]@);
                    assert(char_text(tsv[i + (FIELD_TEXT_OFFSET as int)]) == text@);
                }
                match try_rewrite(text.as_str()) {
                    Some((date, cleaned)) => {
                        let ghost dv = date@;
                        let ghost cv = cleaned@;
                        led.remove_at(i - DATE_TOKEN_OFFSET);
                        led.insert_at(i - DATE_TOKEN_OFFSET, Token::Character { text: date });
                        led.remove_at(i + FIELD_TEXT_OFFSET);
                        led.insert_at(i + FIELD_TEXT_OFFSET, Token::Character { text: cleaned });
                        staged = true;
                        proof {
                            assert(rewrites_at(tsv, i as int));
                            let p0 = (i - (DATE_TOKEN_OFFSET as int), STok::Character {
                                text: dv,
                            });
                            let p1 = (i + (FIELD_TEXT_OFFSET as int), STok::Character {
                                text: cv,
                            });
                            assert(replacement_pair(tsv, i as int) == (p0.1, p1.1));
                            assert(led.insert_ops() =~= led_ins0 + seq![p0, p1]);
                            assert(led.remove_ops() =~= led_del0 + seq![
                                i - (DATE_TOKEN_OFFSET as int),
                                i + (FIELD_TEXT_OFFSET as int),
                            ]);
                            assert(edits_ins_from(tsv, i as int) == seq![p0, p1] + edits_ins_from(
                                tsv,
                                i + 1,
                            ));
                            assert((led_ins0 + seq![p0, p1]) + edits_ins_from(tsv, i + 1)
                                =~= led_ins0 + (seq![p0, p1] + edits_ins_from(tsv, i + 1)));
                            let dh = seq![
                                i - (DATE_TOKEN_OFFSET as int),
                                i + (FIELD_TEXT_OFFSET as int),
                            ];
                            assert(edits_del_from(tsv, i as int) == dh + edits_del_from(
                                tsv,
                                i + 1,
                            ));
                            assert((led_del0 + dh) + edits_del_from(tsv, i + 1) =~= led_del0 + (dh
                                + edits_del_from(tsv, i + 1)));
                        }
                    },
                    None => {
                        proof {
                            assert(!rewrites_at(tsv, i as int));
                        }
                    },
                }
            } else {
                proof {
                    assert(tsv[i + (FIELD_TEXT_OFFSET as int)] == ts@[i
                        + (FIELD_TEXT_OFFSET as int)]@);
                    assert(false);
                }
            }
        } else {
            proof {
                assert(!rewrites_at(tsv, i as int));
            }
        }
        proof {
            if !staged {
                assert(edits_ins_from(tsv, i as int) =~= edits_ins_from(tsv, i + 1));
                assert(edits_del_from(tsv, i as int) =~= edits_del_from(tsv, i + 1));
            }
        }
        i += 1;
    }
    proof {
        assert(edits_ins_from(tsv, i as int) =~= Seq::<(int, STok)>::empty());
        assert(edits_del_from(tsv, i as int) =~= Seq::<int>::empty());
        assert(led.insert_ops() + Seq::<(int, STok)>::empty() =~= led.insert_ops());
        assert(led.remove_ops() + Seq::<int>::empty() =~= led.remove_ops());
        lemma_edits_ins_bounds(tsv, 1);
        lemma_edits_del_bounds(tsv, 1);
    }
    led.apply(ts)
}

} // verus!
