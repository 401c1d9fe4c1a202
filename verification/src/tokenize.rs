//! The tokenizer: lexes document text into a flat token sequence.
//!
//! The grammar is the one this dialect of legacy exports uses.  Markup opens
//! with `<` followed by a letter (start tag), `</` and a letter (end tag),
//! `<?` (processing instruction) or `<!` (markup declaration, comment or
//! marked section); any other character, including a `<` that opens no
//! markup, is character data.  Runs of character data are trimmed of
//! surrounding whitespace, have their entity references expanded, and are
//! dropped when nothing but whitespace remains.  A parse fails on an
//! unterminated construct, an unknown entity reference, or a markup
//! declaration the dialect does not cover.

use vstd::prelude::*;

use vstd::math::{max, min};

use crate::scan::{alpha_char, find_triple, is_alpha, is_name_char, is_ws,
    lemma_scan_until_unique, scan_until};
use crate::strutil::{chars_vec, extract_string, find_char_from, find_either_from,
    find_section_delim, find_triple_from, is_section_delim, nonname_from, nonws_from, trim_range,
    trim_ws};
use crate::text::{expand_range_into, expand_text};
use crate::token::{views_of, STok, Token};

verus! {

/// The one failure a conversion can surface: the document is malformed.
#[derive(Debug, Clone, PartialEq, Eq)]
pub struct ParseError;

/// Whether markup opens at position `p`.
pub open spec fn markup_starts_at(s: Seq<char>, p: int) -> bool {
    &&& 0 <= p && p + 1 < s.len()
    &&& s[p] == '<'
    &&& {
        ||| is_alpha(s[p + 1])
        ||| (s[p + 1] == '/' && p + 2 < s.len() && is_alpha(s[p + 2]))
        ||| s[p + 1] == '?'
        ||| (s[p + 1] == '!' && p + 2 < s.len() && (s[p + 2] == '-' || s[p + 2] == '[' || s[p + 2]
            == '>' || is_alpha(s[p + 2])))
    }
}

/// The first position at or after `p` where markup opens, or the end of the
/// text.
pub open spec fn text_end(s: Seq<char>, p: int) -> int
    decreases s.len() - p,
{
    if p < 0 || p >= s.len() {
        s.len() as int
    } else if markup_starts_at(s, p) {
        p
    } else {
        text_end(s, p + 1)
    }
}

/// A position before which no markup opens, and where markup opens or the
/// text ends, is the one that [`text_end`] returns.
pub proof fn lemma_text_end_unique(s: Seq<char>, p: int, q: int)
    requires
        0 <= p <= q <= s.len(),
        forall|k: int| p <= k < q ==> !markup_starts_at(s, k),
        q < s.len() ==> markup_starts_at(s, q),
    ensures
        text_end(s, p) == q,
    decreases s.len() - p,
{
    if p < s.len() && !markup_starts_at(s, p) {
        lemma_text_end_unique(s, p + 1, q);
    }
}

/// The tokens of the attribute part of a start tag, closing token included,
/// together with the position after the closing `>`.  `None` when the tag
/// never closes or holds what no attribute can.
pub open spec fn attrs_from(s: Seq<char>, p: int) -> Option<(Seq<STok>, int)>
    decreases s.len() - p,
{
    let w = max(scan_until(s, p, (|c: char| !is_ws(c))), p);
    if w >= s.len() {
        None
    } else if s[w] == '>' {
        Some((seq![STok::CloseStartTag], w + 1))
    } else if s[w] == '/' && w + 1 < s.len() && s[w + 1] == '>' {
        Some((seq![STok::EmptyElementClose], w + 2))
    } else if is_alpha(s[w]) {
        let ane = min(max(scan_until(s, w, (|c: char| !is_name_char(c))), w + 1), s.len() as int);
        let aname = s.subrange(w, ane);
        let w2 = max(scan_until(s, ane, (|c: char| !is_ws(c))), ane);
        if w2 < s.len() && s[w2] == '=' {
            let w3 = max(scan_until(s, w2 + 1, (|c: char| !is_ws(c))), w2 + 1);
            if w3 >= s.len() {
                None
            } else if s[w3] == '"' || s[w3] == '\'' {
                let qc = s[w3];
                let qe = max(scan_until(s, w3 + 1, (|c: char| c == qc)), w3 + 1);
                if qe >= s.len() {
                    None
                } else {
                    match expand_text(s.subrange(w3 + 1, qe)) {
                        None => None,
                        Some(val) => match attrs_from(s, qe + 1) {
                            None => None,
                            Some((toks, nx)) => Some(
                                (seq![STok::Attribute { name: aname, value: Some(val) }] + toks, nx),
                            ),
                        },
                    }
                }
            } else {
                let ue = min(
                    max(
                        scan_until(
                            s,
                            w3,
                            (|c: char| c == '"' || c == '\'' || c == '>' || is_ws(c)),
                        ),
                        w3,
                    ),
                    s.len() as int,
                );
                if ue <= w3 {
                    None
                } else {
                    match attrs_from(s, ue) {
                        None => None,
                        Some((toks, nx)) => Some(
                            (
                                seq![
                                    STok::Attribute {
                                        name: aname,
                                        value: Some(s.subrange(w3, ue)),
                                    },
                                ] + toks,
                                nx,
                            ),
                        ),
                    }
                }
            }
        } else {
            match attrs_from(s, ane) {
                None => None,
                Some((toks, nx)) => Some(
                    (seq![STok::Attribute { name: aname, value: None }] + toks, nx),
                ),
            }
        }
    } else {
        None
    }
}

/// The item opening at the start of `s`: its tokens and how many characters
/// it spans.  `None` when the item is malformed.
pub open spec fn item_at(s: Seq<char>, expand: bool) -> Option<(Seq<STok>, int)> {
    if markup_starts_at(s, 0) {
        if is_alpha(s[1]) {
            let ne = max(scan_until(s, 1, (|c: char| !is_name_char(c))), 2);
            match attrs_from(s, ne) {
                None => None,
                Some((toks, nx)) => Some(
                    (seq![STok::OpenStartTag { name: s.subrange(1, ne) }] + toks, nx),
                ),
            }
        } else if s[1] == '/' {
            let ne = max(scan_until(s, 2, (|c: char| !is_name_char(c))), 3);
            let w = max(scan_until(s, ne, (|c: char| !is_ws(c))), ne);
            if w < s.len() && s[w] == '>' {
                Some((seq![STok::EndTag { name: s.subrange(2, ne) }], w + 1))
            } else {
                None
            }
        } else if s[1] == '?' {
            let e = max(scan_until(s, 2, (|c: char| c == '>')), 2);
            if e >= s.len() {
                None
            } else {
                Some((seq![STok::ProcessingInstruction { data: s.subrange(2, e) }], e + 1))
            }
        } else {
            bang_at(s, expand)
        }
    } else {
        let q = max(text_end(s, 0), 1);
        let tr = trim_ws(s.subrange(0, q));
        if tr.len() == 0 {
            Some((Seq::empty(), q))
        } else {
            match expand_text(tr) {
                None => None,
                Some(e) => Some((seq![STok::Character { text: e }], q)),
            }
        }
    }
}

/// The item opening with `<!`: a comment (dropped), a marked section, or a
/// markup declaration.
pub open spec fn bang_at(s: Seq<char>, expand: bool) -> Option<(Seq<STok>, int)> {
    if s[2] == '>' {
        Some((Seq::empty(), 3))
    } else if s[2] == '-' {
        if s.len() >= 4 && s[3] == '-' {
            match find_triple(s, 4, '-', '-', '>') {
                None => None,
                Some(m) => Some((Seq::empty(), m + 3)),
            }
        } else {
            None
        }
    } else if s[2] == '[' {
        let kd = max(scan_until(s, 3, (|c: char| is_section_delim(c))), 3);
        if kd >= s.len() || s[kd] != '[' {
            None
        } else {
            let kw = trim_ws(s.subrange(3, kd));
            match find_triple(s, kd + 1, ']', ']', '>') {
                None => None,
                Some(m) => {
                    let content = s.subrange(kd + 1, m);
                    if !expand {
                        Some((seq![STok::MarkedSection { keywords: kw, content }], m + 3))
                    } else if kw == seq!['I', 'G', 'N', 'O', 'R', 'E'] {
                        Some((Seq::empty(), m + 3))
                    } else {
                        let tr = trim_ws(content);
                        if tr.len() == 0 {
                            Some((Seq::empty(), m + 3))
                        } else {
                            match expand_text(tr) {
                                None => None,
                                Some(e) => Some((seq![STok::Character { text: e }], m + 3)),
                            }
                        }
                    }
                },
            }
        }
    } else {
        let e = max(scan_until(s, 2, (|c: char| c == '>' || c == '[')), 2);
        if e >= s.len() || s[e] == '[' {
            None
        } else {
            Some((seq![STok::MarkupDeclaration { text: s.subrange(2, e) }], e + 1))
        }
    }
}

/// `rest` prefixed with the tokens `a`, when `rest` is anything at all.
pub open spec fn prepend_opt(a: Seq<STok>, rest: Option<Seq<STok>>) -> Option<Seq<STok>> {
    match rest {
        None => None,
        Some(b) => Some(a + b),
    }
}

/// Pushing a token appends its view.
pub proof fn lemma_views_push(ts: Seq<Token>, t: Token)
    ensures
        views_of(ts.push(t)) == views_of(ts) + seq![t@],
{
    assert(views_of(ts.push(t)) =~= views_of(ts) + seq![t@]);
}

/// Markup openings are a property of the characters at and after the
/// position alone, so they survive dropping a prefix.
pub proof fn lemma_markup_shift(s: Seq<char>, p: int, k: int)
    requires
        0 <= p <= s.len(),
        0 <= k,
    ensures
        markup_starts_at(s.skip(p), k) == markup_starts_at(s, p + k),
{
    let t = s.skip(p);
    if k + 2 < t.len() {
        assert(t[k] == s[p + k] && t[k + 1] == s[p + k + 1] && t[k + 2] == s[p + k + 2]);
    } else if k + 1 < t.len() {
        assert(t[k] == s[p + k] && t[k + 1] == s[p + k + 1]);
    }
}

/// [`find_triple`] likewise survives dropping a prefix.
pub proof fn lemma_find_triple_shift(s: Seq<char>, p: int, k: int, a: char, b: char, c: char)
    requires
        0 <= p <= s.len(),
        0 <= k,
    ensures
        find_triple(s.skip(p), k, a, b, c) == match find_triple(s, p + k, a, b, c) {
            Some(q) => Some(q - p),
            None => None::<int>,
        },
{
    let t = s.skip(p);
    crate::scan::lemma_find_triple_props(s, p + k, a, b, c);
    crate::scan::lemma_find_triple_props(t, k, a, b, c);
    assert(forall|j: int| 0 <= j < t.len() ==> t[j] == s[p + j]);
    match find_triple(s, p + k, a, b, c) {
        Some(q) => {
            assert(t[q - p] == a && t[q - p + 1] == b && t[q - p + 2] == c);
            assert(forall|j: int|
                k <= j < q - p ==> !(#[trigger] t[j] == a && t[j + 1] == b && t[j + 2] == c)) by {
                assert forall|j: int|
                    k <= j < q - p && j + 3 <= t.len() implies !(#[trigger] t[j] == a && t[j + 1]
                    == b && t[j + 2] == c) by {
                    assert(t[j] == s[p + j] && t[j + 1] == s[p + j + 1] && t[j + 2] == s[p + j
                        + 2]);
                }
            }
            crate::scan::lemma_find_triple_unique(t, k, a, b, c, q - p);
        },
        None => {
            if find_triple(t, k, a, b, c) is Some {
                let j = find_triple(t, k, a, b, c)->Some_0;
                assert(s[p + j] == a && s[p + j + 1] == b && s[p + j + 2] == c);
                assert(false);
            }
        },
    }
}

/// One parsed item advances the suffix recursion by its span.
pub proof fn lemma_step(s: Seq<char>, p: int, p2: int, a: Seq<STok>, b: Seq<STok>, expand: bool)
    requires
        0 <= p < p2 <= s.len(),
        item_at(s.skip(p), expand) == Some((b, p2 - p)),
        spec_tokenize(s, expand) == prepend_opt(a, spec_tokenize(s.skip(p), expand)),
    ensures
        spec_tokenize(s, expand) == prepend_opt(a + b, spec_tokenize(s.skip(p2), expand)),
{
    let t = s.skip(p);
    assert(t.len() == s.len() - p);
    assert(t.skip(p2 - p) =~= s.skip(p2));
    match spec_tokenize(s.skip(p2), expand) {
        None => {
            assert(spec_tokenize(t, expand) is None);
        },
        Some(rest) => {
            assert(spec_tokenize(t, expand) == Some(b + rest));
            assert(a + (b + rest) =~= (a + b) + rest);
        },
    }
}

/// A malformed or empty-span item fails the whole parse.
pub proof fn lemma_step_fail(s: Seq<char>, p: int, a: Seq<STok>, expand: bool)
    requires
        0 <= p < s.len(),
        match item_at(s.skip(p), expand) {
            None => true,
            Some((toks, d)) => !(0 < d <= s.len() - p),
        },
        spec_tokenize(s, expand) == prepend_opt(a, spec_tokenize(s.skip(p), expand)),
    ensures
        spec_tokenize(s, expand) is None,
{
    let t = s.skip(p);
    assert(t.len() == s.len() - p);
    assert(spec_tokenize(t, expand) is None);
}

/// A character that ends an unquoted attribute value.
pub open spec fn stops_attr_value(c: char) -> bool {
    c == '"' || c == '\'' || c == '>' || is_ws(c)
}

/// The first position in `[from, to)` ending an unquoted attribute value,
/// or `to` if there is none.
fn attr_value_end(v: &Vec<char>, from: usize, to: usize) -> (r: usize)
    requires
        from <= to <= v@.len(),
    ensures
        from <= r <= to,
        forall|k: int| from <= k < r ==> !stops_attr_value(v@[k]),
        r < to ==> stops_attr_value(v@[r as int]),
    decreases to - from,
{
    if from < to {
        let c = v[from];
        if !(c == '"' || c == '\'' || c == '>' || crate::scan::ws_char(c)) {
            return attr_value_end(v, from + 1, to);
        }
    }
    from
}

/// Lexes the attribute part of a start tag, the closing token included,
/// pushing the tokens onto `out`; returns the position after the closing
/// `>`.  The document suffix being lexed starts at `base`.
#[verifier::rlimit(60)]
fn parse_attrs(v: &Vec<char>, Ghost(base): Ghost<int>, p: usize, out: &mut Vec<Token>) -> (r:
    Result<usize, ParseError>)
    requires
        0 <= base <= p as int,
        p as int <= v@.len(),
    ensures
        match attrs_from(v@.skip(base), p - base) {
            Some((toks, nx)) => {
                &&& r is Ok
                &&& r->Ok_0 == base + nx
                &&& p < r->Ok_0 <= v@.len()
                &&& views_of(final(out)@) == views_of(old(out)@) + toks
            },
            None => r is Err,
        },
    decreases v@.len() - p,
{
    let ghost t = v@.skip(base);
    proof {
        assert(t.len() == v@.len() - base);
        assert(forall|j: int| 0 <= j < t.len() ==> t[j] == v@[base + j]);
    }
    let n = v.len();
    let w = nonws_from(v, p, n);
    proof {
        assert forall|k: int| p - base <= k < w - base implies !((|c: char| !is_ws(c))(
            t[k],
        )) by {
            assert(t[k] == v@[base + k]);
        }
        lemma_scan_until_unique(t, p - base, (|c: char| !is_ws(c)), w - base);
    }
    if w == n {
        return Err(ParseError);
    }
    let c = v[w];
    proof {
        assert(c == t[w - base]);
    }
    if c == '>' {
        out.push(Token::CloseStartTag);
        proof {
            lemma_views_push(old(out)@, Token::CloseStartTag);
        }
        return Ok(w + 1);
    }
    if c == '/' && n - w >= 2 && v[w + 1] == '>' {
        out.push(Token::EmptyElementClose);
        proof {
            lemma_views_push(old(out)@, Token::EmptyElementClose);
        }
        return Ok(w + 2);
    }
    if !alpha_char(c) {
        return Err(ParseError);
    }
    let ane = nonname_from(v, w, n);
    proof {
        if ane == w {
            assert(!is_name_char(v@[w as int]));
        }
        assert forall|k: int| w - base <= k < ane - base implies !((|c: char| !is_name_char(c))(
            t[k],
        )) by {
            assert(t[k] == v@[base + k]);
        }
        lemma_scan_until_unique(t, w - base, (|c: char| !is_name_char(c)), ane - base);
    }
    let aname = extract_string(v, w, ane);
    proof {
        assert(aname@ =~= t.subrange(w - base, ane - base));
    }
    let w2 = nonws_from(v, ane, n);
    proof {
        assert forall|k: int| ane - base <= k < w2 - base implies !((|c: char| !is_ws(c))(
            t[k],
        )) by {
            assert(t[k] == v@[base + k]);
        }
        lemma_scan_until_unique(t, ane - base, (|c: char| !is_ws(c)), w2 - base);
    }
    if w2 < n && v[w2] == '=' {
        proof {
            assert(t[w2 - base] == '=');
        }
        let w3 = nonws_from(v, w2 + 1, n);
        proof {
            assert forall|k: int| w2 + 1 - base <= k < w3 - base implies !((|c: char| !is_ws(c))(
                t[k],
            )) by {
                assert(t[k] == v@[base + k]);
            }
            lemma_scan_until_unique(t, w2 + 1 - base, (|c: char| !is_ws(c)), w3 - base);
        }
        if w3 == n {
            return Err(ParseError);
        }
        let qc = v[w3];
        proof {
            assert(qc == t[w3 - base]);
        }
        if qc == '"' || qc == '\'' {
            let qe = find_char_from(v, w3 + 1, n, qc);
            proof {
                assert forall|k: int| w3 + 1 - base <= k < qe - base implies !((|ch: char| ch
                    == qc)(t[k])) by {
                    assert(t[k] == v@[base + k]);
                }
                lemma_scan_until_unique(t, w3 + 1 - base, (|ch: char| ch == qc), qe - base);
            }
            if qe == n {
                return Err(ParseError);
            }
            let mut val = String::new();
            let ok = expand_range_into(v, w3 + 1, qe, &mut val);
            proof {
                assert(t.subrange(w3 + 1 - base, qe - base) =~= v@.subrange(w3 + 1, qe as int));
            }
            if !ok {
                return Err(ParseError);
            }
            let attr = Token::Attribute { name: aname, value: Some(val) };
            let ghost attr_view = attr@;
            out.push(attr);
            proof {
                lemma_views_push(old(out)@, Token::Attribute { name: aname, value: Some(val) });
            }
            let ghost mid = out@;
            let r = parse_attrs(v, Ghost(base), qe + 1, out);
            proof {
                if attrs_from(t, qe + 1 - base) is Some {
                    let (toks, nx) = attrs_from(t, qe + 1 - base)->Some_0;
                    assert(views_of(old(out)@) + (seq![attr_view] + toks) =~= (views_of(old(out)@)
                        + seq![attr_view]) + toks);
                }
            }
            return r;
        } else {
            let ue = attr_value_end(v, w3, n);
            proof {
                assert forall|k: int| w3 - base <= k < ue - base implies !((|ch: char| ch == '"'
                    || ch == '\'' || ch == '>' || is_ws(ch))(t[k])) by {
                    assert(t[k] == v@[base + k]);
                }
                lemma_scan_until_unique(
                    t,
                    w3 - base,
                    (|ch: char| ch == '"' || ch == '\'' || ch == '>' || is_ws(ch)),
                    ue - base,
                );
            }
            if ue == w3 {
                return Err(ParseError);
            }
            let val = extract_string(v, w3, ue);
            proof {
                assert(val@ =~= t.subrange(w3 - base, ue - base));
            }
            let attr = Token::Attribute { name: aname, value: Some(val) };
            let ghost attr_view = attr@;
            out.push(attr);
            proof {
                lemma_views_push(old(out)@, out@[out@.len() - 1]);
            }
            let r = parse_attrs(v, Ghost(base), ue, out);
            proof {
                if attrs_from(t, ue - base) is Some {
                    let (toks, nx) = attrs_from(t, ue - base)->Some_0;
                    assert(views_of(old(out)@) + (seq![attr_view] + toks) =~= (views_of(old(out)@)
                        + seq![attr_view]) + toks);
                }
            }
            return r;
        }
    } else {
        let attr = Token::Attribute { name: aname, value: None };
        let ghost attr_view = attr@;
        out.push(attr);
        proof {
            lemma_views_push(old(out)@, out@[out@.len() - 1]);
        }
        let r = parse_attrs(v, Ghost(base), ane, out);
        proof {
            if attrs_from(t, ane - base) is Some {
                let (toks, nx) = attrs_from(t, ane - base)->Some_0;
                assert(views_of(old(out)@) + (seq![attr_view] + toks) =~= (views_of(old(out)@)
                    + seq![attr_view]) + toks);
            }
        }
        return r;
    }
}

/// The token sequence of the whole text, or `None` when the text is
/// malformed.
pub open spec fn spec_tokenize(s: Seq<char>, expand: bool) -> Option<Seq<STok>>
    decreases s.len(),
{
    if s.len() == 0 {
        Some(Seq::empty())
    } else {
        match item_at(s, expand) {
            None => None,
            Some((toks, d)) => {
                if 0 < d <= s.len() {
                    match spec_tokenize(s.skip(d), expand) {
                        None => None,
                        Some(rest) => Some(toks + rest),
                    }
                } else {
                    None
                }
            },
        }
    }
}

/// Whether markup opens at position `p`, executably.
fn markup_start_here(v: &Vec<char>, p: usize) -> (b: bool)
    requires
        p < v@.len(),
    ensures
        b == markup_starts_at(v@, p as int),
{
    let n = v.len();
    if v[p] != '<' {
        return false;
    }
    if n - p < 2 {
        return false;
    }
    let c1 = v[p + 1];
    if alpha_char(c1) {
        return true;
    }
    if c1 == '/' {
        if n - p >= 3 {
            return alpha_char(v[p + 2]);
        }
        return false;
    }
    if c1 == '?' {
        return true;
    }
    if c1 == '!' {
        if n - p < 3 {
            return false;
        }
        let c2 = v[p + 2];
        return c2 == '-' || c2 == '[' || c2 == '>' || alpha_char(c2);
    }
    false
}

/// The first position at or after `p` where markup opens, executably.
fn text_run_to(v: &Vec<char>, p: usize) -> (r: usize)
    requires
        p <= v@.len(),
    ensures
        p <= r <= v@.len(),
        forall|k: int| p <= k < r ==> !markup_starts_at(v@, k),
        r < v@.len() ==> markup_starts_at(v@, r as int),
    decreases v@.len() - p,
{
    if p < v.len() {
        if !markup_start_here(v, p) {
            return text_run_to(v, p + 1);
        }
    }
    p
}

/// Lexes a character vector into its token sequence; fails exactly when the
/// text is malformed.
#[verifier::rlimit(90)]
pub fn tokenize_chars(v: &Vec<char>, expand: bool) -> (r: Result<Vec<Token>, ParseError>)
    ensures
        match r {
            Ok(ts) => spec_tokenize(v@, expand) == Some(views_of(ts@)),
            Err(_) => spec_tokenize(v@, expand) is None,
        },
{
    let n = v.len();
    let mut out: Vec<Token> = Vec::new();
    let mut p: usize = 0;
    proof {
        assert(v@.skip(0) =~= v@);
        assert(views_of(out@) =~= Seq::<STok>::empty());
        if spec_tokenize(v@, expand) is Some {
            assert(Seq::<STok>::empty() + spec_tokenize(v@, expand)->Some_0 =~= spec_tokenize(
                v@,
                expand,
            )->Some_0);
        }
    }
    while p < n
        invariant
            p <= n,
            n == v@.len(),
            spec_tokenize(v@, expand) == prepend_opt(
                views_of(out@),
                spec_tokenize(v@.skip(p as int), expand),
            ),
        decreases n - p,
    {
        let ghost p0 = p as int;
        let ghost out0 = out@;
        let ghost t = v@.skip(p0);
        proof {
            assert(t.len() == n - p0);
            assert(forall|j: int| 0 <= j < t.len() ==> t[j] == v@[p0 + j]);
            lemma_markup_shift(v@, p0, 0);
        }
        if !markup_start_here(v, p) {
            // character data up to the next markup opening
            let q = text_run_to(v, p + 1);
            proof {
                assert forall|k: int| 0 <= k < q - p0 implies !markup_starts_at(t, k) by {
                    lemma_markup_shift(v@, p0, k);
                }
                if q < n {
                    lemma_markup_shift(v@, p0, q - p0);
                }
                lemma_text_end_unique(t, 0, q - p0);
                assert(t.subrange(0, q - p0) =~= v@.subrange(p0, q as int));
            }
            let (b, e) = trim_range(v, p, q);
            if b == e {
                proof {
                    assert(trim_ws(t.subrange(0, q - p0)).len() == 0);
                    assert(item_at(t, expand) == Some((Seq::<STok>::empty(), q - p0)));
                    lemma_step(v@, p0, q as int, views_of(out0), Seq::empty(), expand);
                    assert(views_of(out@) + Seq::<STok>::empty() =~= views_of(out@));
                }
                p = q;
            } else {
                let mut txt = String::new();
                let ok = expand_range_into(v, b, e, &mut txt);
                if !ok {
                    proof {
                        assert(item_at(t, expand) is None);
                        lemma_step_fail(v@, p0, views_of(out0), expand);
                    }
                    return Err(ParseError);
                }
                let tok = Token::Character { text: txt };
                let ghost tv = tok@;
                out.push(tok);
                proof {
                    lemma_views_push(out0, out@[out@.len() - 1]);
                    assert(item_at(t, expand) == Some((seq![tv], q - p0)));
                    lemma_step(v@, p0, q as int, views_of(out0), seq![tv], expand);
                }
                p = q;
            }
        } else {
            let c1 = v[p + 1];
            proof {
                assert(c1 == t[1]);
            }
            if alpha_char(c1) {
                // start tag
                let ne = nonname_from(v, p + 1, n);
                proof {
                    if ne == p + 1 {
                        assert(!is_name_char(v@[p0 + 1]));
                    }
                    assert forall|k: int| 1 <= k < ne - p0 implies !((|c: char| !is_name_char(c))(
                        t[k],
                    )) by {
                        assert(t[k] == v@[p0 + k]);
                    }
                    lemma_scan_until_unique(t, 1, (|c: char| !is_name_char(c)), ne - p0);
                }
                let name = extract_string(v, p + 1, ne);
                proof {
                    assert(name@ =~= t.subrange(1, ne - p0));
                }
                let tok = Token::OpenStartTag { name };
                let ghost tv = tok@;
                out.push(tok);
                proof {
                    lemma_views_push(out0, out@[out@.len() - 1]);
                }
                let r = parse_attrs(v, Ghost(p0), ne, &mut out);
                match r {
                    Err(err) => {
                        proof {
                            assert(item_at(t, expand) is None);
                            lemma_step_fail(v@, p0, views_of(out0), expand);
                        }
                        return Err(err);
                    },
                    Ok(nx) => {
                        proof {
                            let (toks, nxs) = attrs_from(t, ne - p0)->Some_0;
                            assert(views_of(out@) =~= views_of(out0) + (seq![tv] + toks));
                            assert(item_at(t, expand) == Some((seq![tv] + toks, nx - p0)));
                            lemma_step(v@, p0, nx as int, views_of(out0), seq![tv] + toks, expand);
                        }
                        p = nx;
                    },
                }
            } else if c1 == '/' {
                // end tag
                let ne = nonname_from(v, p + 2, n);
                proof {
                    if ne == p + 2 {
                        assert(!is_name_char(v@[p0 + 2]));
                    }
                    assert forall|k: int| 2 <= k < ne - p0 implies !((|c: char| !is_name_char(c))(
                        t[k],
                    )) by {
                        assert(t[k] == v@[p0 + k]);
                    }
                    lemma_scan_until_unique(t, 2, (|c: char| !is_name_char(c)), ne - p0);
                }
                let w = nonws_from(v, ne, n);
                proof {
                    assert forall|k: int| ne - p0 <= k < w - p0 implies !((|c: char| !is_ws(c))(
                        t[k],
                    )) by {
                        assert(t[k] == v@[p0 + k]);
                    }
                    lemma_scan_until_unique(t, ne - p0, (|c: char| !is_ws(c)), w - p0);
                }
                if w == n || v[w] != '>' {
                    proof {
                        assert(item_at(t, expand) is None);
                        lemma_step_fail(v@, p0, views_of(out0), expand);
                    }
                    return Err(ParseError);
                }
                let name = extract_string(v, p + 2, ne);
                proof {
                    assert(name@ =~= t.subrange(2, ne - p0));
                }
                let tok = Token::EndTag { name };
                let ghost tv = tok@;
                out.push(tok);
                proof {
                    lemma_views_push(out0, out@[out@.len() - 1]);
                    assert(item_at(t, expand) == Some((seq![tv], w + 1 - p0)));
                    lemma_step(v@, p0, w + 1, views_of(out0), seq![tv], expand);
                }
                p = w + 1;
            } else if c1 == '?' {
                // processing instruction
                let e = find_char_from(v, p + 2, n, '>');
                proof {
                    assert forall|k: int| 2 <= k < e - p0 implies !((|c: char| c == '>')(
                        t[k],
                    )) by {
                        assert(t[k] == v@[p0 + k]);
                    }
                    lemma_scan_until_unique(t, 2, (|c: char| c == '>'), e - p0);
                }
                if e == n {
                    proof {
                        assert(item_at(t, expand) is None);
                        lemma_step_fail(v@, p0, views_of(out0), expand);
                    }
                    return Err(ParseError);
                }
                let data = extract_string(v, p + 2, e);
                proof {
                    assert(data@ =~= t.subrange(2, e - p0));
                }
                let tok = Token::ProcessingInstruction { data };
                let ghost tv = tok@;
                out.push(tok);
                proof {
                    lemma_views_push(out0, out@[out@.len() - 1]);
                    assert(item_at(t, expand) == Some((seq![tv], e + 1 - p0)));
                    lemma_step(v@, p0, e + 1, views_of(out0), seq![tv], expand);
                }
                p = e + 1;
            } else {
                // markup declaration, comment or marked section
                let c2 = v[p + 2];
                proof {
                    assert(c2 == t[2]);
                }
                if c2 == '>' {
                    proof {
                        assert(item_at(t, expand) == Some((Seq::<STok>::empty(), 3int)));
                        lemma_step(v@, p0, p0 + 3, views_of(out0), Seq::empty(), expand);
                        assert(views_of(out@) + Seq::<STok>::empty() =~= views_of(out@));
                    }
                    p = p + 3;
                } else if c2 == '-' {
                    if n - p < 4 || v[p + 3] != '-' {
                        proof {
                            assert(item_at(t, expand) is None);
                            lemma_step_fail(v@, p0, views_of(out0), expand);
                        }
                        return Err(ParseError);
                    }
                    let m = find_triple_from(v, p + 4, '-', '-', '>');
                    proof {
                        lemma_find_triple_shift(v@, p0, 4, '-', '-', '>');
                    }
                    match m {
                        None => {
                            proof {
                                assert(item_at(t, expand) is None);
                                lemma_step_fail(v@, p0, views_of(out0), expand);
                            }
                            return Err(ParseError);
                        },
                        Some(ma) => {
                            proof {
                                crate::scan::lemma_find_triple_props(v@, p0 + 4, '-', '-', '>');
                                assert(item_at(t, expand) == Some(
                                    (Seq::<STok>::empty(), ma + 3 - p0),
                                ));
                                lemma_step(v@, p0, ma + 3, views_of(out0), Seq::empty(), expand);
                                assert(views_of(out@) + Seq::<STok>::empty() =~= views_of(out@));
                            }
                            p = ma + 3;
                        },
                    }
                } else if c2 == '[' {
                    let kd = find_section_delim(v, p + 3, n);
                    proof {
                        assert forall|k: int| 3 <= k < kd - p0 implies !((|c: char|
                            is_section_delim(c))(t[k])) by {
                            assert(t[k] == v@[p0 + k]);
                        }
                        lemma_scan_until_unique(t, 3, (|c: char| is_section_delim(c)), kd - p0);
                    }
                    if kd == n || v[kd] != '[' {
                        proof {
                            assert(item_at(t, expand) is None);
                            lemma_step_fail(v@, p0, views_of(out0), expand);
                        }
                        return Err(ParseError);
                    }
                    let m = find_triple_from(v, kd + 1, ']', ']', '>');
                    proof {
                        lemma_find_triple_shift(v@, p0, kd + 1 - p0, ']', ']', '>');
                    }
                    match m {
                        None => {
                            proof {
                                assert(item_at(t, expand) is None);
                                lemma_step_fail(v@, p0, views_of(out0), expand);
                            }
                            return Err(ParseError);
                        },
                        Some(ma) => {
                            proof {
                                crate::scan::lemma_find_triple_props(v@, kd + 1, ']', ']', '>');
                                assert(t.subrange(3, kd - p0) =~= v@.subrange(p0 + 3, kd as int));
                            }
                            let (kb, ke) = trim_range(v, p + 3, kd);
                            if !expand {
                                let keywords = extract_string(v, kb, ke);
                                let content = extract_string(v, kd + 1, ma);
                                proof {
                                    assert(content@ =~= t.subrange(kd + 1 - p0, ma - p0));
                                }
                                let tok = Token::MarkedSection { keywords, content };
                                let ghost tv = tok@;
                                out.push(tok);
                                proof {
                                    lemma_views_push(out0, out@[out@.len() - 1]);
                                    assert(item_at(t, expand) == Some((seq![tv], ma + 3 - p0)));
                                    lemma_step(v@, p0, ma + 3, views_of(out0), seq![tv], expand);
                                }
                                p = ma + 3;
                            } else {
                                let keywords = extract_string(v, kb, ke);
                                let is_ignore = keywords.eq(&String::from_str("IGNORE"));
                                proof {
                                    reveal_strlit("IGNORE");
                                    assert(("IGNORE")@ =~= seq!['I', 'G', 'N', 'O', 'R', 'E']);
                                }
                                if is_ignore {
                                    proof {
                                        assert(item_at(t, expand) == Some(
                                            (Seq::<STok>::empty(), ma + 3 - p0),
                                        ));
                                        lemma_step(
                                            v@,
                                            p0,
                                            ma + 3,
                                            views_of(out0),
                                            Seq::empty(),
                                            expand,
                                        );
                                        assert(views_of(out@) + Seq::<STok>::empty()
                                            =~= views_of(out@));
                                    }
                                    p = ma + 3;
                                } else {
                                    proof {
                                        assert(t.subrange(kd + 1 - p0, ma - p0) =~= v@.subrange(
                                            kd + 1,
                                            ma as int,
                                        ));
                                    }
                                    let (cb, ce) = trim_range(v, kd + 1, ma);
                                    if cb == ce {
                                        proof {
                                            assert(item_at(t, expand) == Some(
                                                (Seq::<STok>::empty(), ma + 3 - p0),
                                            ));
                                            lemma_step(
                                                v@,
                                                p0,
                                                ma + 3,
                                                views_of(out0),
                                                Seq::empty(),
                                                expand,
                                            );
                                            assert(views_of(out@) + Seq::<STok>::empty()
                                                =~= views_of(out@));
                                        }
                                        p = ma + 3;
                                    } else {
                                        let mut txt = String::new();
                                        let ok = expand_range_into(v, cb, ce, &mut txt);
                                        if !ok {
                                            proof {
                                                assert(item_at(t, expand) is None);
                                                lemma_step_fail(v@, p0, views_of(out0), expand);
                                            }
                                            return Err(ParseError);
                                        }
                                        let tok = Token::Character { text: txt };
                                        let ghost tv = tok@;
                                        out.push(tok);
                                        proof {
                                            lemma_views_push(out0, out@[out@.len() - 1]);
                                            assert(item_at(t, expand) == Some(
                                                (seq![tv], ma + 3 - p0),
                                            ));
                                            lemma_step(
                                                v@,
                                                p0,
                                                ma + 3,
                                                views_of(out0),
                                                seq![tv],
                                                expand,
                                            );
                                        }
                                        p = ma + 3;
                                    }
                                }
                            }
                        },
                    }
                } else {
                    // markup declaration
                    let e = find_either_from(v, p + 2, n, '>', '[');
                    proof {
                        assert forall|k: int| 2 <= k < e - p0 implies !((|c: char| c == '>' || c
                            == '[')(t[k])) by {
                            assert(t[k] == v@[p0 + k]);
                        }
                        lemma_scan_until_unique(t, 2, (|c: char| c == '>' || c == '['), e - p0);
                    }
                    if e == n || v[e] == '[' {
                        proof {
                            assert(item_at(t, expand) is None);
                            lemma_step_fail(v@, p0, views_of(out0), expand);
                        }
                        return Err(ParseError);
                    }
                    let data = extract_string(v, p + 2, e);
                    proof {
                        assert(data@ =~= t.subrange(2, e - p0));
                    }
                    let tok = Token::MarkupDeclaration { text: data };
                    let ghost tv = tok@;
                    out.push(tok);
                    proof {
                        lemma_views_push(out0, out@[out@.len() - 1]);
                        assert(item_at(t, expand) == Some((seq![tv], e + 1 - p0)));
                        lemma_step(v@, p0, e + 1, views_of(out0), seq![tv], expand);
                    }
                    p = e + 1;
                }
            }
        }
    }
    proof {
        assert(v@.skip(n as int) =~= Seq::<char>::empty());
        assert(views_of(out@) + Seq::<STok>::empty() =~= views_of(out@));
    }
    Ok(out)
}

/// Lexes document text into its token sequence.  Marked sections are
/// expanded inline when `expand_marked_sections` is set, and kept as opaque
/// tokens otherwise.  Fails exactly when the text is malformed.
pub fn tokenize(text: &str, expand_marked_sections: bool) -> (r: Result<Vec<Token>, ParseError>)
    ensures
        match r {
            Ok(ts) => spec_tokenize(text@, expand_marked_sections) == Some(views_of(ts@)),
            Err(_) => spec_tokenize(text@, expand_marked_sections) is None,
        },
{
    let v = chars_vec(text);
    tokenize_chars(&v, expand_marked_sections)
}

} // verus!
