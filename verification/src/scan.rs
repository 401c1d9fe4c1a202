//! Character classes and forward-scan helpers over character sequences.
//!
//! The tokenizer is specified over `Seq<char>`; these helpers locate the
//! first position at which a scan stops, together with the lemmas that pin
//! that position down.

use vstd::prelude::*;

verus! {

/// Document whitespace: space, tab, carriage return, line feed.
pub open spec fn is_ws(c: char) -> bool {
    c == ' ' || c == '\t' || c == '\r' || c == '\n'
}

/// An ASCII decimal digit.
pub open spec fn is_digit(c: char) -> bool {
    '0' <= c && c <= '9'
}

/// An ASCII letter: the first character of a tag, attribute or entity name.
pub open spec fn is_alpha(c: char) -> bool {
    ('a' <= c && c <= 'z') || ('A' <= c && c <= 'Z')
}

/// A character that may continue a name.
pub open spec fn is_name_char(c: char) -> bool {
    is_alpha(c) || is_digit(c) || c == '.' || c == '-' || c == '_' || c == ':'
}

/// Executable counterpart of [`is_ws`].
pub fn ws_char(c: char) -> (r: bool)
    ensures
        r == is_ws(c),
{
    c == ' ' || c == '\t' || c == '\r' || c == '\n'
}

/// Executable counterpart of [`is_digit`].
pub fn digit_char(c: char) -> (r: bool)
    ensures
        r == is_digit(c),
{
    '0' <= c && c <= '9'
}

/// Executable counterpart of [`is_alpha`].
pub fn alpha_char(c: char) -> (r: bool)
    ensures
        r == is_alpha(c),
{
    ('a' <= c && c <= 'z') || ('A' <= c && c <= 'Z')
}

/// Executable counterpart of [`is_name_char`].
pub fn name_char(c: char) -> (r: bool)
    ensures
        r == is_name_char(c),
{
    alpha_char(c) || digit_char(c) || c == '.' || c == '-' || c == '_' || c == ':'
}

/// The first position `q >= p` at which `stop` holds, or `s.len()` if `stop`
/// holds nowhere in `[p, s.len())`.
pub open spec fn scan_until(s: Seq<char>, p: int, stop: spec_fn(char) -> bool) -> int
    decreases s.len() - p,
{
    if p < 0 || p >= s.len() {
        s.len() as int
    } else if stop(s[p]) {
        p
    } else {
        scan_until(s, p + 1, stop)
    }
}

/// What [`scan_until`] returns: the scan stops at the first stopping
/// character, and everything before it is a non-stopping character.
pub proof fn lemma_scan_until_props(s: Seq<char>, p: int, stop: spec_fn(char) -> bool)
    requires
        0 <= p <= s.len(),
    ensures
        p <= scan_until(s, p, stop) <= s.len(),
        forall|k: int| p <= k < scan_until(s, p, stop) ==> !stop(s[k]),
        scan_until(s, p, stop) < s.len() ==> stop(s[scan_until(s, p, stop)]),
    decreases s.len() - p,
{
    if p < s.len() && !stop(s[p]) {
        lemma_scan_until_props(s, p + 1, stop);
    }
}

/// A position below which no character stops the scan, and which stops it
/// itself or ends the text, is the one that [`scan_until`] returns.
pub proof fn lemma_scan_until_unique(s: Seq<char>, p: int, stop: spec_fn(char) -> bool, q: int)
    requires
        0 <= p <= q <= s.len(),
        forall|k: int| p <= k < q ==> !stop(s[k]),
        q < s.len() ==> stop(s[q]),
    ensures
        scan_until(s, p, stop) == q,
    decreases s.len() - p,
{
    if p < s.len() && !stop(s[p]) {
        lemma_scan_until_unique(s, p + 1, stop, q);
    }
}

/// The last position `q <= p` such that `stop` holds at no position in
/// `[q, p)`; the backward counterpart of [`scan_until`].
pub open spec fn scan_back(s: Seq<char>, p: int, stop: spec_fn(char) -> bool) -> int
    decreases p,
{
    if p <= 0 || p > s.len() {
        0
    } else if stop(s[p - 1]) {
        p
    } else {
        scan_back(s, p - 1, stop)
    }
}

/// What [`scan_back`] returns.
pub proof fn lemma_scan_back_props(s: Seq<char>, p: int, stop: spec_fn(char) -> bool)
    requires
        0 <= p <= s.len(),
    ensures
        0 <= scan_back(s, p, stop) <= p,
        forall|k: int| scan_back(s, p, stop) <= k < p ==> !stop(s[k]),
        scan_back(s, p, stop) > 0 ==> stop(s[scan_back(s, p, stop) - 1]),
    decreases p,
{
    if p > 0 && !stop(s[p - 1]) {
        lemma_scan_back_props(s, p - 1, stop);
    }
}

/// A position from which every later character up to `p` fails `stop`, and
/// whose own predecessor meets it or which is the very start, is the one
/// that [`scan_back`] returns.
pub proof fn lemma_scan_back_unique(s: Seq<char>, p: int, stop: spec_fn(char) -> bool, q: int)
    requires
        0 <= q <= p <= s.len(),
        forall|k: int| q <= k < p ==> !stop(s[k]),
        q > 0 ==> stop(s[q - 1]),
    ensures
        scan_back(s, p, stop) == q,
    decreases p,
{
    if p > 0 && !stop(s[p - 1]) {
        lemma_scan_back_unique(s, p - 1, stop, q);
    }
}

/// The first position `q >= p` at which the three characters `a`, `b`, `c`
/// stand in a row, or `None` if they do so nowhere at or after `p`.
pub open spec fn find_triple(s: Seq<char>, p: int, a: char, b: char, c: char) -> Option<int>
    decreases s.len() - p,
{
    if p < 0 || p + 3 > s.len() {
        None
    } else if s[p] == a && s[p + 1] == b && s[p + 2] == c {
        Some(p)
    } else {
        find_triple(s, p + 1, a, b, c)
    }
}

/// What [`find_triple`] returns.
pub proof fn lemma_find_triple_props(s: Seq<char>, p: int, a: char, b: char, c: char)
    requires
        0 <= p,
    ensures
        match find_triple(s, p, a, b, c) {
            Some(q) => {
                &&& p <= q
                &&& q + 3 <= s.len()
                &&& s[q] == a && s[q + 1] == b && s[q + 2] == c
                &&& forall|k: int|
                    p <= k < q ==> !(#[trigger] s[k] == a && s[k + 1] == b && s[k + 2] == c)
            },
            None => forall|k: int|
                p <= k && k + 3 <= s.len() ==> !(#[trigger] s[k] == a && s[k + 1] == b && s[k + 2] == c),
        },
    decreases s.len() - p,
{
    if p + 3 <= s.len() && !(s[p] == a && s[p + 1] == b && s[p + 2] == c) {
        lemma_find_triple_props(s, p + 1, a, b, c);
    }
}

/// A position with the properties of [`lemma_find_triple_props`] is the one
/// that [`find_triple`] returns.
pub proof fn lemma_find_triple_unique(s: Seq<char>, p: int, a: char, b: char, c: char, q: int)
    requires
        0 <= p <= q,
        q + 3 <= s.len(),
        s[q] == a && s[q + 1] == b && s[q + 2] == c,
        forall|k: int| p <= k < q ==> !(#[trigger] s[k] == a && s[k + 1] == b && s[k + 2] == c),
    ensures
        find_triple(s, p, a, b, c) == Some(q),
    decreases s.len() - p,
{
    if p < q {
        lemma_find_triple_unique(s, p + 1, a, b, c, q);
    }
}

} // verus!
