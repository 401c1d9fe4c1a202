//! The round-trip law: rendering a well-formed token sequence gives text
//! that tokenizes back to exactly that sequence.
//!
//! Well-formed here is the canonical, attribute-free dialect shape: start
//! tags close immediately, names are plain names, character data is
//! non-empty with no whitespace at its edges and never adjacent to more
//! character data, and marked sections do not appear (the engine lexes with
//! them expanded away).

use vstd::prelude::*;

use vstd::math::max;

use crate::render::{esc_text, esc_text_char, render_tok, spec_render};
use crate::scan::{is_alpha, is_name_char, is_ws, lemma_scan_back_unique,
    lemma_scan_until_unique};
use crate::strutil::{is_section_delim, trim_ws};
use crate::text::{entity_char, entity_name_end, expand_text};
use crate::scan::{lemma_scan_back_props, lemma_scan_until_props, scan_until};
use crate::token::STok;
use crate::tokenize::{attrs_from, item_at, lemma_text_end_unique, markup_starts_at,
    spec_tokenize};

verus! {

/// A name: non-empty, opening with a letter, all of name characters.
pub open spec fn valid_name(n: Seq<char>) -> bool {
    &&& n.len() >= 1
    &&& is_alpha(n[0])
    &&& forall|k: int| 0 <= k < n.len() ==> is_name_char(#[trigger] n[k])
}

/// Character data as the tokenizer emits it: non-empty, no whitespace at
/// either edge.
pub open spec fn wf_char_text(t: Seq<char>) -> bool {
    &&& t.len() >= 1
    &&& !is_ws(t[0])
    &&& !is_ws(t[t.len() - 1])
}

/// Escaped character data holds no `<`, no `>`, and no whitespace that the
/// data itself does not hold at the same reading.
proof fn lemma_esc_no_markup(t: Seq<char>)
    ensures
        forall|k: int| 0 <= k < esc_text(t).len() ==> #[trigger] esc_text(t)[k] != '<',
    decreases t.len(),
{
    if t.len() > 0 {
        lemma_esc_no_markup(t.skip(1));
        assert forall|k: int| 0 <= k < esc_text(t).len() implies #[trigger] esc_text(t)[k]
            != '<' by {
            let head = esc_text_char(t[0]);
            if k < head.len() {
                assert(esc_text(t)[k] == head[k]);
            } else {
                assert(esc_text(t)[k] == esc_text(t.skip(1))[k - head.len()]);
            }
        }
    }
}

/// Escaped character data is empty only for empty data, and keeps a
/// non-whitespace first and last character.
proof fn lemma_esc_edges(t: Seq<char>)
    requires
        t.len() >= 1,
    ensures
        esc_text(t).len() >= 1,
        esc_text(t)[0] == '&' || esc_text(t)[0] == t[0],
        esc_text(t).last() == ';' || esc_text(t).last() == t.last(),
    decreases t.len(),
{
    let head = esc_text_char(t[0]);
    if t.len() == 1 {
        assert(esc_text(t.skip(1)) =~= Seq::<char>::empty());
        assert(esc_text(t) =~= head);
    } else {
        lemma_esc_edges(t.skip(1));
        assert(esc_text(t)[0] == head[0]);
        assert(esc_text(t).last() == esc_text(t.skip(1)).last());
        assert(t.skip(1).last() == t.last());
    }
}

/// Expanding an entity reference at the head of a text picks off exactly
/// the referenced character.
proof fn lemma_expand_entity_head(name: Seq<char>, c: char, rest: Seq<char>)
    requires
        entity_char(name) == Some(c),
        2 <= name.len(),
        is_alpha(name[0]),
        forall|k: int| 0 <= k < name.len() ==> is_name_char(#[trigger] name[k]),
    ensures
        expand_text(seq!['&'] + name + seq![';'] + rest) == match expand_text(rest) {
            Some(r) => Some(seq![c] + r),
            None => None::<Seq<char>>,
        },
{
    let s = seq!['&'] + name + seq![';'] + rest;
    let nl = name.len() as int;
    assert(s[0] == '&');
    assert(s[1] == name[0]);
    assert(s.len() == nl + 2 + rest.len());
    assert forall|k: int| 1 <= k < 1 + nl implies !((|ch: char| !is_name_char(ch))(
        #[trigger] s[k],
    )) by {
        assert(s[k] == name[k - 1]);
    }
    assert(s[1 + nl] == ';');
    assert(!is_name_char(';'));
    lemma_scan_until_unique(s, 1, (|ch: char| !is_name_char(ch)), 1 + nl);
    assert(entity_name_end(s) == 1 + nl);
    assert(s.subrange(1, 1 + nl) =~= name);
    assert(s.skip(2 + nl) =~= rest);
}

/// Expanding escaped character data recovers the data exactly.
proof fn lemma_expand_esc(t: Seq<char>)
    ensures
        expand_text(esc_text(t)) == Some(t),
    decreases t.len(),
{
    if t.len() == 0 {
        assert(esc_text(t) =~= Seq::<char>::empty());
    } else {
        lemma_expand_esc(t.skip(1));
        let c = t[0];
        let rest = esc_text(t.skip(1));
        if c == '<' {
            lemma_expand_entity_head(seq!['l', 't'], '<', rest);
            assert(esc_text(t) =~= seq!['&'] + seq!['l', 't'] + seq![';'] + rest);
            assert(seq![c] + t.skip(1) =~= t);
        } else if c == '>' {
            lemma_expand_entity_head(seq!['g', 't'], '>', rest);
            assert(esc_text(t) =~= seq!['&'] + seq!['g', 't'] + seq![';'] + rest);
            assert(seq![c] + t.skip(1) =~= t);
        } else if c == '&' {
            lemma_expand_entity_head(seq!['a', 'm', 'p'], '&', rest);
            assert(esc_text(t) =~= seq!['&'] + seq!['a', 'm', 'p'] + seq![';'] + rest);
            assert(seq![c] + t.skip(1) =~= t);
        } else {
            let s = esc_text(t);
            assert(s =~= seq![c] + rest);
            assert(s[0] == c);
            assert(s.len() >= 1);
            if s.len() >= 2 && s[0] == '&' && is_alpha(s[1]) {
                assert(false);
            }
            assert(s.skip(1) =~= rest);
            assert(seq![s[0]] + t.skip(1) =~= t);
        }
    }
}

/// Character data free of `<`, `>` and `&` renders verbatim.
pub proof fn lemma_esc_plain(t: Seq<char>)
    requires
        forall|k: int|
            0 <= k < t.len() ==> #[trigger] t[k] != '<' && t[k] != '>' && t[k] != '&',
    ensures
        esc_text(t) == t,
    decreases t.len(),
{
    if t.len() == 0 {
        assert(esc_text(t) =~= t);
    } else {
        lemma_esc_plain(t.skip(1));
        assert(esc_text(t) =~= seq![t[0]] + t.skip(1));
        assert(seq![t[0]] + t.skip(1) =~= t);
    }
}

/// A normalized date token renders as exactly its eight digits.
pub proof fn lemma_date_renders_plain(y: int, m: int, d: int)
    ensures
        esc_text(crate::date::fmt_yyyymmdd(y, m, d)) == crate::date::fmt_yyyymmdd(y, m, d),
{
    let t = crate::date::fmt_yyyymmdd(y, m, d);
    assert forall|k: int| 0 <= k < t.len() implies #[trigger] t[k] != '<' && t[k] != '>' && t[k]
        != '&' by {
        assert(t.len() == 8);
    }
    lemma_esc_plain(t);
}

/// A text with non-whitespace edges trims to itself.
proof fn lemma_trim_noop(t: Seq<char>)
    requires
        t.len() >= 1,
        !is_ws(t[0]),
        !is_ws(t[t.len() - 1]),
    ensures
        trim_ws(t) == t,
{
    lemma_scan_until_unique(t, 0, (|c: char| !is_ws(c)), 0);
    lemma_scan_back_unique(t, t.len() as int, (|c: char| !is_ws(c)), t.len() as int);
    assert(t.subrange(0, t.len() as int) =~= t);
}

/// Whether a token's rendering opens markup.
pub open spec fn opens_markup(t: STok) -> bool {
    match t {
        STok::OpenStartTag { .. } => true,
        STok::EndTag { .. } => true,
        STok::ProcessingInstruction { .. } => true,
        STok::MarkupDeclaration { .. } => true,
        _ => false,
    }
}

/// The canonical, attribute-free well-formed shape: start tags close at
/// once, names and declaration bodies are plain, character data has clean
/// edges and no character data beside it, and marked sections are absent.
pub open spec fn wf_rt(ts: Seq<STok>) -> bool
    decreases ts.len(),
{
    if ts.len() == 0 {
        true
    } else {
        match ts[0] {
            STok::OpenStartTag { name } => {
                &&& valid_name(name)
                &&& ts.len() >= 2
                &&& ts[1] is CloseStartTag
                &&& wf_rt(ts.skip(2))
            },
            STok::EndTag { name } => valid_name(name) && wf_rt(ts.skip(1)),
            STok::ProcessingInstruction { data } => {
                &&& forall|k: int| 0 <= k < data.len() ==> #[trigger] data[k] != '>'
                &&& wf_rt(ts.skip(1))
            },
            STok::MarkupDeclaration { text } => {
                &&& text.len() >= 1
                &&& is_alpha(text[0])
                &&& forall|k: int|
                    0 <= k < text.len() ==> #[trigger] text[k] != '>' && text[k] != '['
                &&& wf_rt(ts.skip(1))
            },
            STok::Character { text } => {
                &&& wf_char_text(text)
                &&& (ts.len() == 1 || opens_markup(ts[1]))
                &&& wf_rt(ts.skip(1))
            },
            _ => false,
        }
    }
}

/// The rendering of a well-formed sequence whose first token opens markup
/// begins, past any prefix, with a markup opening.
proof fn lemma_render_opens_markup(rest: Seq<STok>, x: Seq<char>)
    requires
        wf_rt(rest),
        rest.len() >= 1,
        opens_markup(rest[0]),
    ensures
        markup_starts_at(x + spec_render(rest), x.len() as int),
{
    let r0 = render_tok(rest[0]);
    let s = x + spec_render(rest);
    let p = x.len() as int;
    assert(spec_render(rest) == r0 + spec_render(rest.skip(1)));
    match rest[0] {
        STok::OpenStartTag { name } => {
            assert(r0[0] == '<' && r0[1] == name[0]);
            assert(s[p] == '<' && s[p + 1] == name[0]);
        },
        STok::EndTag { name } => {
            assert(r0[0] == '<' && r0[1] == '/' && r0[2] == name[0]);
            assert(s[p] == '<' && s[p + 1] == '/' && s[p + 2] == name[0]);
        },
        STok::ProcessingInstruction { data } => {
            assert(r0[0] == '<' && r0[1] == '?');
            assert(s[p] == '<' && s[p + 1] == '?');
        },
        STok::MarkupDeclaration { text } => {
            assert(r0[0] == '<' && r0[1] == '!' && r0[2] == text[0]);
            assert(s[p] == '<' && s[p + 1] == '!' && s[p + 2] == text[0]);
        },
        _ => {
            assert(false);
        },
    }
}

/// Parsing at the head of a rendered character-data token yields exactly
/// that token and consumes exactly its rendering.
proof fn lemma_item_char(t: Seq<char>, tail: Seq<char>)
    requires
        wf_char_text(t),
        tail.len() == 0 || markup_starts_at(esc_text(t) + tail, esc_text(t).len() as int),
    ensures
        item_at(esc_text(t) + tail, true) == Some(
            (seq![STok::Character { text: t }], esc_text(t).len() as int),
        ),
{
    let e = esc_text(t);
    let s = e + tail;
    lemma_esc_no_markup(t);
    lemma_esc_edges(t);
    assert forall|k: int| 0 <= k < e.len() implies !markup_starts_at(s, k) by {
        assert(s[k] == e[k]);
    }
    lemma_text_end_unique(s, 0, e.len() as int);
    assert(s.subrange(0, e.len() as int) =~= e);
    assert(!is_ws(e[0])) by {
        assert(!is_ws('&'));
    }
    assert(!is_ws(e.last())) by {
        assert(!is_ws(';'));
    }
    lemma_trim_noop(e);
    lemma_expand_esc(t);
}

/// Parsing at the head of a rendered attribute-free start tag yields its
/// two tokens and consumes exactly its rendering.
proof fn lemma_item_start(name: Seq<char>, tail: Seq<char>)
    requires
        valid_name(name),
    ensures
        item_at(seq!['<'] + name + seq!['>'] + tail, true) == Some(
            (seq![STok::OpenStartTag { name }, STok::CloseStartTag], name.len() as int + 2),
        ),
{
    let s = seq!['<'] + name + seq!['>'] + tail;
    let nl = name.len() as int;
    assert(s[0] == '<' && s[1] == name[0]);
    assert forall|k: int| 1 <= k < 1 + nl implies !((|c: char| !is_name_char(c))(
        #[trigger] s[k],
    )) by {
        assert(s[k] == name[k - 1]);
    }
    assert(s[1 + nl] == '>');
    assert(!is_name_char('>'));
    lemma_scan_until_unique(s, 1, (|c: char| !is_name_char(c)), 1 + nl);
    lemma_scan_until_unique(s, 1 + nl, (|c: char| !is_ws(c)), 1 + nl);
    assert(s.subrange(1, 1 + nl) =~= name);
    assert(attrs_from(s, 1 + nl) == Some((seq![STok::CloseStartTag], nl + 2)));
    assert(seq![STok::OpenStartTag { name }] + seq![STok::CloseStartTag] =~= seq![
        STok::OpenStartTag { name },
        STok::CloseStartTag,
    ]);
}

/// Parsing at the head of a rendered end tag yields it back.
proof fn lemma_item_end(name: Seq<char>, tail: Seq<char>)
    requires
        valid_name(name),
    ensures
        item_at(seq!['<', '/'] + name + seq!['>'] + tail, true) == Some(
            (seq![STok::EndTag { name }], name.len() as int + 3),
        ),
{
    let s = seq!['<', '/'] + name + seq!['>'] + tail;
    let nl = name.len() as int;
    assert(s[0] == '<' && s[1] == '/' && s[2] == name[0]);
    assert forall|k: int| 2 <= k < 2 + nl implies !((|c: char| !is_name_char(c))(
        #[trigger] s[k],
    )) by {
        assert(s[k] == name[k - 2]);
    }
    assert(s[2 + nl] == '>');
    assert(!is_name_char('>'));
    lemma_scan_until_unique(s, 2, (|c: char| !is_name_char(c)), 2 + nl);
    lemma_scan_until_unique(s, 2 + nl, (|c: char| !is_ws(c)), 2 + nl);
    assert(s.subrange(2, 2 + nl) =~= name);
}

/// Parsing at the head of a rendered processing instruction yields it
/// back.
proof fn lemma_item_pi(data: Seq<char>, tail: Seq<char>)
    requires
        forall|k: int| 0 <= k < data.len() ==> #[trigger] data[k] != '>',
    ensures
        item_at(seq!['<', '?'] + data + seq!['>'] + tail, true) == Some(
            (seq![STok::ProcessingInstruction { data }], data.len() as int + 3),
        ),
{
    let s = seq!['<', '?'] + data + seq!['>'] + tail;
    let dl = data.len() as int;
    assert(s[0] == '<' && s[1] == '?');
    assert forall|k: int| 2 <= k < 2 + dl implies !((|c: char| c == '>')(#[trigger] s[k])) by {
        assert(s[k] == data[k - 2]);
    }
    assert(s[2 + dl] == '>');
    lemma_scan_until_unique(s, 2, (|c: char| c == '>'), 2 + dl);
    assert(s.subrange(2, 2 + dl) =~= data);
}

/// Parsing at the head of a rendered markup declaration yields it back.
proof fn lemma_item_decl(text: Seq<char>, tail: Seq<char>)
    requires
        text.len() >= 1,
        is_alpha(text[0]),
        forall|k: int| 0 <= k < text.len() ==> #[trigger] text[k] != '>' && text[k] != '[',
    ensures
        item_at(seq!['<', '!'] + text + seq!['>'] + tail, true) == Some(
            (seq![STok::MarkupDeclaration { text }], text.len() as int + 3),
        ),
{
    let s = seq!['<', '!'] + text + seq!['>'] + tail;
    let tl = text.len() as int;
    assert(s[0] == '<' && s[1] == '!' && s[2] == text[0]);
    assert forall|k: int| 2 <= k < 2 + tl implies !((|c: char| c == '>' || c == '[')(
        #[trigger] s[k],
    )) by {
        assert(s[k] == text[k - 2]);
    }
    assert(s[2 + tl] == '>');
    lemma_scan_until_unique(s, 2, (|c: char| c == '>' || c == '['), 2 + tl);
    assert(s.subrange(2, 2 + tl) =~= text);
}

/// One parsed item followed by a tokenizable remainder tokenizes as
/// their concatenation.
proof fn lemma_compose(s: Seq<char>, toks: Seq<STok>, d: int, rest: Seq<STok>)
    requires
        s.len() >= 1,
        item_at(s, true) == Some((toks, d)),
        0 < d <= s.len(),
        spec_tokenize(s.skip(d), true) == Some(rest),
    ensures
        spec_tokenize(s, true) == Some(toks + rest),
{
}

/// The round-trip step for an attribute-free start tag.
#[verifier::rlimit(60)]
#[verifier::spinoff_prover]
proof fn lemma_arm_open(ts: Seq<STok>, name: Seq<char>)
    requires
        wf_rt(ts),
        ts.len() >= 2,
        ts[0] == (STok::OpenStartTag { name }),
        spec_tokenize(spec_render(ts.skip(2)), true) == Some(ts.skip(2)),
    ensures
        spec_tokenize(spec_render(ts), true) == Some(ts),
{
    let rest = ts.skip(2);
    let tail = spec_render(rest);
    assert(ts.skip(1)[0] == ts[1]);
    assert(ts.skip(1).skip(1) =~= rest);
    let s = spec_render(ts);
    assert(spec_render(ts.skip(1)) == render_tok(ts[1]) + tail);
    assert(s =~= seq!['<'] + name + seq!['>'] + tail);
    lemma_item_start(name, tail);
    let d = name.len() as int + 2;
    assert(s.skip(d) =~= tail);
    lemma_compose(s, seq![ts[0], ts[1]], d, rest);
    assert(seq![ts[0], ts[1]] + rest =~= ts);
}

/// The round-trip step for an end tag.
#[verifier::rlimit(60)]
#[verifier::spinoff_prover]
proof fn lemma_arm_end(ts: Seq<STok>, name: Seq<char>)
    requires
        wf_rt(ts),
        ts.len() >= 1,
        ts[0] == (STok::EndTag { name }),
        spec_tokenize(spec_render(ts.skip(1)), true) == Some(ts.skip(1)),
    ensures
        spec_tokenize(spec_render(ts), true) == Some(ts),
{
    let rest = ts.skip(1);
    let tail = spec_render(rest);
    let s = spec_render(ts);
    assert(s =~= seq!['<', '/'] + name + seq!['>'] + tail);
    lemma_item_end(name, tail);
    let d = name.len() as int + 3;
    assert(s.skip(d) =~= tail);
    lemma_compose(s, seq![ts[0]], d, rest);
    assert(seq![ts[0]] + rest =~= ts);
}

/// The round-trip step for a processing instruction.
#[verifier::rlimit(60)]
#[verifier::spinoff_prover]
proof fn lemma_arm_pi(ts: Seq<STok>, data: Seq<char>)
    requires
        wf_rt(ts),
        ts.len() >= 1,
        ts[0] == (STok::ProcessingInstruction { data }),
        spec_tokenize(spec_render(ts.skip(1)), true) == Some(ts.skip(1)),
    ensures
        spec_tokenize(spec_render(ts), true) == Some(ts),
{
    let rest = ts.skip(1);
    let tail = spec_render(rest);
    let s = spec_render(ts);
    assert(s =~= seq!['<', '?'] + data + seq!['>'] + tail);
    lemma_item_pi(data, tail);
    let d = data.len() as int + 3;
    assert(s.skip(d) =~= tail);
    lemma_compose(s, seq![ts[0]], d, rest);
    assert(seq![ts[0]] + rest =~= ts);
}

/// The round-trip step for a markup declaration.
#[verifier::rlimit(60)]
#[verifier::spinoff_prover]
proof fn lemma_arm_decl(ts: Seq<STok>, text: Seq<char>)
    requires
        wf_rt(ts),
        ts.len() >= 1,
        ts[0] == (STok::MarkupDeclaration { text }),
        spec_tokenize(spec_render(ts.skip(1)), true) == Some(ts.skip(1)),
    ensures
        spec_tokenize(spec_render(ts), true) == Some(ts),
{
    let rest = ts.skip(1);
    let tail = spec_render(rest);
    let s = spec_render(ts);
    assert(s =~= seq!['<', '!'] + text + seq!['>'] + tail);
    lemma_item_decl(text, tail);
    let d = text.len() as int + 3;
    assert(s.skip(d) =~= tail);
    lemma_compose(s, seq![ts[0]], d, rest);
    assert(seq![ts[0]] + rest =~= ts);
}

/// The round-trip step for character data.
#[verifier::rlimit(60)]
#[verifier::spinoff_prover]
proof fn lemma_arm_char(ts: Seq<STok>, text: Seq<char>)
    requires
        wf_rt(ts),
        ts.len() >= 1,
        ts[0] == (STok::Character { text }),
        spec_tokenize(spec_render(ts.skip(1)), true) == Some(ts.skip(1)),
    ensures
        spec_tokenize(spec_render(ts), true) == Some(ts),
{
    let rest = ts.skip(1);
    let tail = spec_render(rest);
    let s = spec_render(ts);
    assert(s == esc_text(text) + tail);
    if rest.len() == 0 {
        assert(tail =~= Seq::<char>::empty());
        lemma_item_char(text, tail);
    } else {
        assert(opens_markup(rest[0]));
        lemma_render_opens_markup(rest, esc_text(text));
        lemma_item_char(text, tail);
    }
    lemma_esc_edges(text);
    let d = esc_text(text).len() as int;
    assert(s.skip(d) =~= tail);
    lemma_compose(s, seq![ts[0]], d, rest);
    assert(seq![ts[0]] + rest =~= ts);
}

/// The round-trip law: rendering a well-formed token sequence and
/// tokenizing the result gives back exactly the same sequence.
pub proof fn lemma_render_retokenizes(ts: Seq<STok>)
    requires
        wf_rt(ts),
    ensures
        spec_tokenize(spec_render(ts), true) == Some(ts),
    decreases ts.len(),
{
    if ts.len() == 0 {
        assert(spec_render(ts) =~= Seq::<char>::empty());
        assert(ts =~= Seq::<STok>::empty());
    } else {
        match ts[0] {
            STok::OpenStartTag { name } => {
                lemma_render_retokenizes(ts.skip(2));
                lemma_arm_open(ts, name);
            },
            STok::EndTag { name } => {
                lemma_render_retokenizes(ts.skip(1));
                lemma_arm_end(ts, name);
            },
            STok::ProcessingInstruction { data } => {
                lemma_render_retokenizes(ts.skip(1));
                lemma_arm_pi(ts, data);
            },
            STok::MarkupDeclaration { text } => {
                lemma_render_retokenizes(ts.skip(1));
                lemma_arm_decl(ts, text);
            },
            STok::Character { text } => {
                lemma_render_retokenizes(ts.skip(1));
                lemma_arm_char(ts, text);
            },
            _ => {
                assert(false);
            },
        }
    }
}

/// What each token kind guarantees of its own fields.
pub open spec fn tok_wf(t: STok) -> bool {
    match t {
        STok::OpenStartTag { name } => valid_name(name),
        STok::EndTag { name } => valid_name(name),
        STok::Character { text } => wf_char_text(text),
        STok::ProcessingInstruction { data } => forall|k: int|
            0 <= k < data.len() ==> #[trigger] data[k] != '>',
        STok::MarkupDeclaration { text } => text.len() >= 1 && is_alpha(text[0]) && forall|k: int|
            0 <= k < text.len() ==> #[trigger] text[k] != '>' && text[k] != '[',
        _ => true,
    }
}

/// Trimming leaves either nothing or a text with non-whitespace edges.
proof fn lemma_trim_edges(t: Seq<char>)
    ensures
        trim_ws(t).len() == 0 || (!is_ws(trim_ws(t)[0]) && !is_ws(trim_ws(t).last())),
{
    let stop = (|c: char| !is_ws(c));
    lemma_scan_until_props(t, 0, stop);
    lemma_scan_back_props(t, t.len() as int, stop);
}

/// Entity expansion of a non-empty text is non-empty and keeps
/// non-whitespace edges: an expanded entity is never whitespace, and a
/// literal edge character carries over.
proof fn lemma_expand_keeps_edges(t: Seq<char>)
    requires
        t.len() >= 1,
        expand_text(t) is Some,
    ensures
        expand_text(t)->Some_0.len() >= 1,
        !is_ws(t[0]) ==> !is_ws(expand_text(t)->Some_0[0]),
        !is_ws(t.last()) ==> !is_ws(expand_text(t)->Some_0.last()),
    decreases t.len(),
{
    let e = expand_text(t)->Some_0;
    if t[0] == '&' && t.len() >= 2 && is_alpha(t[1]) {
        let ne = entity_name_end(t);
        let ch = entity_char(t.subrange(1, ne))->Some_0;
        let after = if ne < t.len() && t[ne] == ';' {
            ne + 1
        } else {
            ne
        };
        assert(!is_ws(ch));
        if after >= t.len() {
            assert(t.skip(after) =~= Seq::<char>::empty());
            assert(e =~= seq![ch]);
        } else {
            lemma_expand_keeps_edges(t.skip(after));
            assert(t.skip(after).last() == t.last());
            let rest = expand_text(t.skip(after))->Some_0;
            assert(e == seq![ch] + rest);
            assert(e.last() == rest.last());
        }
        assert(e[0] == ch);
    } else {
        if t.len() == 1 {
            assert(t.skip(1) =~= Seq::<char>::empty());
            assert(e =~= seq![t[0]]);
        } else {
            lemma_expand_keeps_edges(t.skip(1));
            assert(t.skip(1).last() == t.last());
            let rest = expand_text(t.skip(1))->Some_0;
            assert(e == seq![t[0]] + rest);
            assert(e.last() == rest.last());
        }
        assert(e[0] == t[0]);
    }
}

/// The attribute part of a start tag lexes to attribute and closing tokens
/// only.
proof fn lemma_attrs_kinds(s: Seq<char>, p: int)
    requires
        0 <= p,
        attrs_from(s, p) is Some,
    ensures
        forall|k: int|
            0 <= k < attrs_from(s, p)->Some_0.0.len() ==> {
                ||| #[trigger] attrs_from(s, p)->Some_0.0[k] is Attribute
                ||| attrs_from(s, p)->Some_0.0[k] is CloseStartTag
                ||| attrs_from(s, p)->Some_0.0[k] is EmptyElementClose
            },
    decreases s.len() - p,
{
    let toks = attrs_from(s, p)->Some_0.0;
    let w = max(scan_until(s, p, (|c: char| !is_ws(c))), p);
    if w >= s.len() {
    } else if s[w] == '>' {
    } else if s[w] == '/' && w + 1 < s.len() && s[w + 1] == '>' {
    } else if is_alpha(s[w]) {
        let ane = vstd::math::min(
            max(scan_until(s, w, (|c: char| !is_name_char(c))), w + 1),
            s.len() as int,
        );
        let w2 = max(scan_until(s, ane, (|c: char| !is_ws(c))), ane);
        if w2 < s.len() && s[w2] == '=' {
            let w3 = max(scan_until(s, w2 + 1, (|c: char| !is_ws(c))), w2 + 1);
            if s[w3] == '"' || s[w3] == '\'' {
                let qc = s[w3];
                let qe = max(scan_until(s, w3 + 1, (|c: char| c == qc)), w3 + 1);
                lemma_attrs_kinds(s, qe + 1);
                let rest = attrs_from(s, qe + 1)->Some_0.0;
                assert forall|k: int| 0 <= k < toks.len() implies {
                    ||| #[trigger] toks[k] is Attribute
                    ||| toks[k] is CloseStartTag
                    ||| toks[k] is EmptyElementClose
                } by {
                    if k >= 1 {
                        assert(toks[k] == rest[k - 1]);
                    }
                }
            } else {
                let ue = vstd::math::min(
                    max(
                        scan_until(
                            s,
                            w3,
                            (|c: char| c == '"' || c == '\'' || c == '>' || is_ws(c)),
                        ),
                        w3,
                    ),
                    s.len() as int,
                );
                lemma_attrs_kinds(s, ue);
                let rest = attrs_from(s, ue)->Some_0.0;
                assert forall|k: int| 0 <= k < toks.len() implies {
                    ||| #[trigger] toks[k] is Attribute
                    ||| toks[k] is CloseStartTag
                    ||| toks[k] is EmptyElementClose
                } by {
                    if k >= 1 {
                        assert(toks[k] == rest[k - 1]);
                    }
                }
            }
        } else {
            lemma_attrs_kinds(s, ane);
            let rest = attrs_from(s, ane)->Some_0.0;
            assert forall|k: int| 0 <= k < toks.len() implies {
                ||| #[trigger] toks[k] is Attribute
                ||| toks[k] is CloseStartTag
                ||| toks[k] is EmptyElementClose
            } by {
                if k >= 1 {
                    assert(toks[k] == rest[k - 1]);
                }
            }
        }
    }
}

/// Every token one item lexes to guarantees its own fields.
#[verifier::rlimit(90)]
#[verifier::spinoff_prover]
proof fn lemma_item_wf(s: Seq<char>, expand: bool)
    requires
        s.len() > 0,
        item_at(s, expand) is Some,
    ensures
        forall|k: int|
            0 <= k < item_at(s, expand)->Some_0.0.len() ==> tok_wf(
                #[trigger] item_at(s, expand)->Some_0.0[k],
            ),
{
    let toks = item_at(s, expand)->Some_0.0;
    if markup_starts_at(s, 0) {
        if is_alpha(s[1]) {
            lemma_scan_until_props(s, 1, (|c: char| !is_name_char(c)));
            let ne0 = scan_until(s, 1, (|c: char| !is_name_char(c)));
            assert(ne0 >= 2) by {
                if ne0 == 1 {
                    assert(!is_name_char(s[1]));
                }
            }
            let name = s.subrange(1, ne0);
            assert(valid_name(name)) by {
                assert(name[0] == s[1]);
                assert(forall|j: int| 0 <= j < name.len() ==> #[trigger] name[j] == s[1 + j]);
            }
            lemma_attrs_kinds(s, ne0);
            let atoks = attrs_from(s, ne0)->Some_0.0;
            assert forall|k: int| 0 <= k < toks.len() implies tok_wf(#[trigger] toks[k]) by {
                if k >= 1 {
                    assert(toks[k] == atoks[k - 1]);
                }
            }
        } else if s[1] == '/' {
            lemma_scan_until_props(s, 2, (|c: char| !is_name_char(c)));
            let ne0 = scan_until(s, 2, (|c: char| !is_name_char(c)));
            assert(ne0 >= 3) by {
                if ne0 == 2 {
                    assert(!is_name_char(s[2]));
                }
            }
            let name = s.subrange(2, ne0);
            assert(valid_name(name)) by {
                assert(name[0] == s[2]);
                assert(forall|j: int| 0 <= j < name.len() ==> #[trigger] name[j] == s[2 + j]);
            }
        } else if s[1] == '?' {
            lemma_scan_until_props(s, 2, (|c: char| c == '>'));
            let e0 = scan_until(s, 2, (|c: char| c == '>'));
            let data = s.subrange(2, e0);
            assert(forall|j: int| 0 <= j < data.len() ==> #[trigger] data[j] == s[2 + j]);
        } else {
            if s[2] == '>' {
            } else if s[2] == '-' {
            } else if s[2] == '[' {
                let kd = max(scan_until(s, 3, (|c: char| is_section_delim(c))), 3);
                match crate::scan::find_triple(s, kd + 1, ']', ']', '>') {
                    None => {},
                    Some(m) => {
                        let content = s.subrange(kd + 1, m);
                        if expand {
                            let kw = trim_ws(s.subrange(3, kd));
                            if kw == seq!['I', 'G', 'N', 'O', 'R', 'E'] {
                            } else {
                                let tr = trim_ws(content);
                                lemma_trim_edges(content);
                                if tr.len() != 0 {
                                    lemma_expand_keeps_edges(tr);
                                }
                            }
                        }
                    },
                }
            } else {
                lemma_scan_until_props(s, 2, (|c: char| c == '>' || c == '['));
                let e0 = scan_until(s, 2, (|c: char| c == '>' || c == '['));
                assert(e0 >= 3) by {
                    if e0 == 2 {
                        assert(s[2] == '>' || s[2] == '[');
                    }
                }
                let text = s.subrange(2, e0);
                assert(text[0] == s[2]);
                assert(forall|j: int| 0 <= j < text.len() ==> #[trigger] text[j] == s[2 + j]);
            }
        }
    } else {
        let q = max(crate::tokenize::text_end(s, 0), 1);
        let tr = trim_ws(s.subrange(0, q));
        lemma_trim_edges(s.subrange(0, q));
        if tr.len() != 0 {
            lemma_expand_keeps_edges(tr);
        }
    }
}

/// Every token the tokenizer emits guarantees its own fields.
pub proof fn lemma_tokenize_wf(s: Seq<char>, expand: bool, ts: Seq<STok>)
    requires
        spec_tokenize(s, expand) == Some(ts),
    ensures
        forall|k: int| 0 <= k < ts.len() ==> tok_wf(#[trigger] ts[k]),
    decreases s.len(),
{
    if s.len() == 0 {
    } else {
        let (toks, d) = item_at(s, expand)->Some_0;
        let rest = spec_tokenize(s.skip(d), expand)->Some_0;
        lemma_item_wf(s, expand);
        lemma_tokenize_wf(s.skip(d), expand, rest);
        assert forall|k: int| 0 <= k < ts.len() implies tok_wf(#[trigger] ts[k]) by {
            if k < toks.len() {
                assert(ts[k] == toks[k]);
            } else {
                assert(ts[k] == rest[k - toks.len()]);
            }
        }
    }
}

/// Whether position `k` of the sequence has the canonical dialect shape
/// around it.
pub open spec fn flat_at(ts: Seq<STok>, k: int) -> bool {
    match ts[k] {
        STok::Attribute { .. } => false,
        STok::EmptyElementClose => false,
        STok::MarkedSection { .. } => false,
        STok::OpenStartTag { .. } => k + 1 < ts.len() && ts[k + 1] is CloseStartTag,
        STok::CloseStartTag => k >= 1 && ts[k - 1] is OpenStartTag,
        STok::Character { .. } => k + 1 >= ts.len() || (!(ts[k + 1] is Character) && !(ts[k + 1]
            is CloseStartTag)),
        _ => true,
    }
}

/// The canonical dialect shape: attribute-free start tags that close at
/// once, no empty-element closes, no kept marked sections, and no two
/// pieces of character data side by side.
pub open spec fn flat_shape_ok(ts: Seq<STok>) -> bool {
    forall|k: int| 0 <= k < ts.len() ==> #[trigger] flat_at(ts, k)
}

/// The shape survives dropping whole leading units.
proof fn lemma_flat_shift(ts: Seq<STok>, j: int)
    requires
        flat_shape_ok(ts),
        0 <= j <= ts.len(),
        j < ts.len() ==> !(ts[j] is CloseStartTag),
    ensures
        flat_shape_ok(ts.skip(j)),
{
    let u = ts.skip(j);
    assert forall|k: int| 0 <= k < u.len() implies #[trigger] flat_at(u, k) by {
        assert(u[k] == ts[j + k]);
        assert(flat_at(ts, j + k));
        match u[k] {
            STok::OpenStartTag { .. } => {
                assert(u[k + 1] == ts[j + k + 1]);
            },
            STok::CloseStartTag => {
                if k == 0 {
                    assert(false);
                } else {
                    assert(u[k - 1] == ts[j + k - 1]);
                }
            },
            STok::Character { .. } => {
                if k + 1 < u.len() {
                    assert(u[k + 1] == ts[j + k + 1]);
                }
            },
            _ => {},
        }
    }
}

/// Per-token guarantees plus the canonical shape give the well-formed
/// grammar.
proof fn lemma_flat_wf(ts: Seq<STok>)
    requires
        flat_shape_ok(ts),
        forall|k: int| 0 <= k < ts.len() ==> tok_wf(#[trigger] ts[k]),
    ensures
        wf_rt(ts),
    decreases ts.len(),
{
    if ts.len() == 0 {
    } else {
        assert(flat_at(ts, 0));
        assert(tok_wf(ts[0]));
        match ts[0] {
            STok::OpenStartTag { name } => {
                assert(ts[1] is CloseStartTag);
                if 2 < ts.len() && ts[2] is CloseStartTag {
                    assert(flat_at(ts, 2));
                    assert(false);
                }
                lemma_flat_shift(ts, 2);
                assert(forall|k: int|
                    0 <= k < ts.skip(2).len() ==> tok_wf(#[trigger] ts.skip(2)[k]));
                lemma_flat_wf(ts.skip(2));
            },
            STok::CloseStartTag => {
                assert(false);
            },
            STok::Attribute { .. } => {
                assert(false);
            },
            STok::EmptyElementClose => {
                assert(false);
            },
            STok::MarkedSection { .. } => {
                assert(false);
            },
            _ => {
                if 1 < ts.len() && ts[1] is CloseStartTag {
                    assert(flat_at(ts, 1));
                    assert(false);
                }
                if ts[0] is Character && 1 < ts.len() {
                    assert(flat_at(ts, 1));
                    assert(opens_markup(ts[1]));
                }
                lemma_flat_shift(ts, 1);
                assert(forall|k: int|
                    0 <= k < ts.skip(1).len() ==> tok_wf(#[trigger] ts.skip(1)[k]));
                lemma_flat_wf(ts.skip(1));
            },
        }
    }
}

/// The round-trip law at the document level: a document whose token
/// sequence has the canonical dialect shape renders to text that tokenizes
/// back to exactly that sequence.
pub proof fn lemma_document_round_trip(s: Seq<char>, ts: Seq<STok>)
    requires
        spec_tokenize(s, true) == Some(ts),
        flat_shape_ok(ts),
    ensures
        spec_tokenize(spec_render(ts), true) == Some(ts),
{
    lemma_tokenize_wf(s, true, ts);
    lemma_flat_wf(ts);
    lemma_render_retokenizes(ts);
}

} // verus!
