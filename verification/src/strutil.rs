//! Bridging between `String`/`&str` and character vectors, and
//! whitespace trimming.
//!
//! The tokenizer and serializer work over `Vec<char>` for constant-time
//! indexing; documents enter and leave the library as strings.

use vstd::prelude::*;

use crate::scan::{is_ws, lemma_scan_back_unique, lemma_scan_until_unique, scan_back, scan_until,
    ws_char};

verus! {

/// Relies on std's `String::push`: appends the given character to the end of
/// the string.
pub assume_specification[ String::push ](s: &mut String, c: char)
    ensures
        final(s)@ == old(s)@.push(c),
;

/// The characters of `text`, in order, as a vector.
pub fn chars_vec(text: &str) -> (v: Vec<char>)
    ensures
        v@ == text@,
{
    let mut v: Vec<char> = Vec::new();
    for c in it: text.chars()
        invariant
            v@ == it.seq().take(it.index() as int),
            it.seq() == text@,
    {
        v.push(c);
    }
    proof {
        assert(v@ =~= text@);
    }
    v
}

/// The characters `v[from..to]`, in order, as a string.
pub fn extract_string(v: &Vec<char>, from: usize, to: usize) -> (r: String)
    requires
        from <= to <= v@.len(),
    ensures
        r@ == v@.subrange(from as int, to as int),
{
    let mut r = String::new();
    let mut i = from;
    while i < to
        invariant
            from <= i <= to <= v@.len(),
            r@ == v@.subrange(from as int, i as int),
        decreases to - i,
    {
        r.push(v[i]);
        proof {
            assert(v@.subrange(from as int, i as int).push(v@[i as int]) =~= v@.subrange(
                from as int,
                i + 1,
            ));
        }
        i += 1;
    }
    r
}

/// `t` with leading and trailing whitespace removed.
pub open spec fn trim_ws(t: Seq<char>) -> Seq<char> {
    let b = scan_until(t, 0, (|c: char| !is_ws(c)));
    let e = scan_back(t, t.len() as int, (|c: char| !is_ws(c)));
    if b < e {
        t.subrange(b, e)
    } else {
        Seq::empty()
    }
}

/// The first position in `[from, to)` holding a non-whitespace character, or
/// `to` if there is none.
pub(crate) fn nonws_from(v: &Vec<char>, from: usize, to: usize) -> (r: usize)
    requires
        from <= to <= v@.len(),
    ensures
        from <= r <= to,
        forall|k: int| from <= k < r ==> is_ws(v@[k]),
        r < to ==> !is_ws(v@[r as int]),
    decreases to - from,
{
    if from < to {
        if ws_char(v[from]) {
            return nonws_from(v, from + 1, to);
        }
    }
    from
}

/// One past the last position in `[from, to)` holding a non-whitespace
/// character, or `from` if there is none.
pub(crate) fn nonws_back(v: &Vec<char>, from: usize, to: usize) -> (r: usize)
    requires
        from <= to <= v@.len(),
    ensures
        from <= r <= to,
        forall|k: int| r <= k < to ==> is_ws(v@[k]),
        r > from ==> !is_ws(v@[r - 1]),
    decreases to,
{
    if to > from {
        if ws_char(v[to - 1]) {
            return nonws_back(v, from, to - 1);
        }
    }
    to
}

/// The first position in `[from, to)` holding a character that cannot
/// continue a name, or `to` if there is none.
pub(crate) fn nonname_from(v: &Vec<char>, from: usize, to: usize) -> (r: usize)
    requires
        from <= to <= v@.len(),
    ensures
        from <= r <= to,
        forall|k: int| from <= k < r ==> crate::scan::is_name_char(v@[k]),
        r < to ==> !crate::scan::is_name_char(v@[r as int]),
    decreases to - from,
{
    if from < to {
        if crate::scan::name_char(v[from]) {
            return nonname_from(v, from + 1, to);
        }
    }
    from
}

/// The first position in `[from, to)` holding the character `c`, or `to` if
/// there is none.
pub(crate) fn find_char_from(v: &Vec<char>, from: usize, to: usize, c: char) -> (r: usize)
    requires
        from <= to <= v@.len(),
    ensures
        from <= r <= to,
        forall|k: int| from <= k < r ==> v@[k] != c,
        r < to ==> v@[r as int] == c,
    decreases to - from,
{
    if from < to {
        if v[from] != c {
            return find_char_from(v, from + 1, to, c);
        }
    }
    from
}

/// The first position in `[from, to)` holding `a` or `b`, or `to` if there is
/// none.
pub(crate) fn find_either_from(v: &Vec<char>, from: usize, to: usize, a: char, b: char) -> (r: usize)
    requires
        from <= to <= v@.len(),
    ensures
        from <= r <= to,
        forall|k: int| from <= k < r ==> v@[k] != a && v@[k] != b,
        r < to ==> (v@[r as int] == a || v@[r as int] == b),
    decreases to - from,
{
    if from < to {
        if v[from] != a && v[from] != b {
            return find_either_from(v, from + 1, to, a, b);
        }
    }
    from
}

/// The first position in `[from, to)` holding a marked-section delimiter
/// (`[`, `]`, `<`, `>` or `!`), or `to` if there is none.
pub(crate) fn find_section_delim(v: &Vec<char>, from: usize, to: usize) -> (r: usize)
    requires
        from <= to <= v@.len(),
    ensures
        from <= r <= to,
        forall|k: int| from <= k < r ==> !is_section_delim(v@[k]),
        r < to ==> is_section_delim(v@[r as int]),
    decreases to - from,
{
    if from < to {
        let c = v[from];
        if !(c == '[' || c == ']' || c == '<' || c == '>' || c == '!') {
            return find_section_delim(v, from + 1, to);
        }
    }
    from
}

/// A character that ends the keyword part of a marked section.
pub open spec fn is_section_delim(c: char) -> bool {
    c == '[' || c == ']' || c == '<' || c == '>' || c == '!'
}

/// The first position at or after `from` where the characters `a`, `b`, `c`
/// stand in a row, or `None` if they do so nowhere.
pub(crate) fn find_triple_from(v: &Vec<char>, from: usize, a: char, b: char, c: char) -> (r: Option<
    usize,
>)
    requires
        from <= v@.len(),
    ensures
        match r {
            Some(q) => crate::scan::find_triple(v@, from as int, a, b, c) == Some(q as int),
            None => crate::scan::find_triple(v@, from as int, a, b, c) is None,
        },
    decreases v@.len() - from,
{
    if v.len() - from < 3 {
        None
    } else if v[from] == a && v[from + 1] == b && v[from + 2] == c {
        Some(from)
    } else {
        find_triple_from(v, from + 1, a, b, c)
    }
}

/// The bounds of `v[from..to]` with surrounding whitespace removed: the
/// subrange they delimit is [`trim_ws`] of the subrange `[from, to)`.
pub fn trim_range(v: &Vec<char>, from: usize, to: usize) -> (r: (usize, usize))
    requires
        from <= to <= v@.len(),
    ensures
        from <= r.0 <= r.1 <= to,
        v@.subrange(r.0 as int, r.1 as int) == trim_ws(v@.subrange(from as int, to as int)),
{
    let b = nonws_from(v, from, to);
    let e = nonws_back(v, b, to);
    proof {
        let t = v@.subrange(from as int, to as int);
        let stop = (|c: char| !is_ws(c));
        lemma_scan_until_unique(t, 0, stop, b - from);
        if b < to {
            lemma_scan_back_unique(t, t.len() as int, stop, e - from);
            if b < e {
                assert(v@.subrange(b as int, e as int) =~= t.subrange(b - from, e - from));
            } else {
                assert(trim_ws(t) =~= v@.subrange(b as int, b as int));
            }
        } else {
            lemma_scan_back_unique(t, t.len() as int, stop, 0);
            assert(trim_ws(t) =~= v@.subrange(b as int, b as int));
        }
    }
    if b < e {
        (b, e)
    } else {
        (b, b)
    }
}

} // verus!
