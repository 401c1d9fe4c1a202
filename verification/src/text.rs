//! Character-data handling: the entity table and entity expansion.
//!
//! Legacy documents use only the five standard named entities `lt`, `gt`,
//! `amp`, `quot` and `apos`.  An entity reference is an ampersand followed by
//! a name and an optional terminating semicolon; a reference whose name is
//! not in the table fails the parse.  An ampersand that does not open a name
//! stands for itself.

use vstd::prelude::*;

use crate::scan::{is_alpha, is_name_char, lemma_scan_until_unique, scan_until};
use crate::strutil::nonname_from;

verus! {

/// The character an entity name stands for, for the five standard entities.
pub open spec fn entity_char(name: Seq<char>) -> Option<char> {
    if name == seq!['l', 't'] {
        Some('<')
    } else if name == seq!['g', 't'] {
        Some('>')
    } else if name == seq!['a', 'm', 'p'] {
        Some('&')
    } else if name == seq!['q', 'u', 'o', 't'] {
        Some('"')
    } else if name == seq!['a', 'p', 'o', 's'] {
        Some('\'')
    } else {
        None
    }
}

/// Executable entity lookup over the characters `v[from..to]`.
pub(crate) fn entity_char_range(v: &Vec<char>, from: usize, to: usize) -> (r: Option<char>)
    requires
        from <= to <= v@.len(),
    ensures
        r == entity_char(v@.subrange(from as int, to as int)),
{
    let ghost name = v@.subrange(from as int, to as int);
    let n = to - from;
    let r = if n == 2 && v[from] == 'l' && v[from + 1] == 't' {
        proof {
            assert(name =~= seq!['l', 't']);
        }
        Some('<')
    } else if n == 2 && v[from] == 'g' && v[from + 1] == 't' {
        proof {
            assert(name =~= seq!['g', 't']);
        }
        Some('>')
    } else if n == 3 && v[from] == 'a' && v[from + 1] == 'm' && v[from + 2] == 'p' {
        proof {
            assert(name =~= seq!['a', 'm', 'p']);
        }
        Some('&')
    } else if n == 4 && v[from] == 'q' && v[from + 1] == 'u' && v[from + 2] == 'o' && v[from + 3]
        == 't' {
        proof {
            assert(name =~= seq!['q', 'u', 'o', 't']);
        }
        Some('"')
    } else if n == 4 && v[from] == 'a' && v[from + 1] == 'p' && v[from + 2] == 'o' && v[from + 3]
        == 's' {
        proof {
            assert(name =~= seq!['a', 'p', 'o', 's']);
        }
        Some('\'')
    } else {
        proof {
            let lt = seq!['l', 't'];
            let gt = seq!['g', 't'];
            let amp = seq!['a', 'm', 'p'];
            let quot = seq!['q', 'u', 'o', 't'];
            let apos = seq!['a', 'p', 'o', 's'];
            assert(lt.len() == 2 && lt[0] == 'l' && lt[1] == 't');
            assert(gt.len() == 2 && gt[0] == 'g' && gt[1] == 't');
            assert(amp.len() == 3 && amp[0] == 'a' && amp[1] == 'm' && amp[2] == 'p');
            assert(quot.len() == 4 && quot[0] == 'q' && quot[1] == 'u' && quot[2] == 'o' && quot[3]
                == 't');
            assert(apos.len() == 4 && apos[0] == 'a' && apos[1] == 'p' && apos[2] == 'o' && apos[3]
                == 's');
            if n >= 1 {
                assert(name[0] == v@[from as int]);
            }
            if n >= 2 {
                assert(name[1] == v@[from + 1]);
            }
            if n >= 3 {
                assert(name[2] == v@[from + 2]);
            }
            if n >= 4 {
                assert(name[3] == v@[from + 3]);
            }
        }
        None
    };
    r
}

/// Resolves a named entity to the character it stands for, for the five
/// standard entities; any other name is unknown.
pub fn resolve_entity(name: &str) -> (r: Option<char>)
    ensures
        r == entity_char(name@),
{
    let v = crate::strutil::chars_vec(name);
    let r = entity_char_range(&v, 0, v.len());
    proof {
        assert(v@.subrange(0, v@.len() as int) =~= name@);
    }
    r
}

/// The entity name a lookup is made for: the longest run of name characters
/// after the ampersand, clamped so that the reference is at least one
/// character long.
pub open spec fn entity_name_end(t: Seq<char>) -> int {
    let ne = scan_until(t, 1, (|c: char| !is_name_char(c)));
    if 2 <= ne <= t.len() {
        ne
    } else {
        2
    }
}

/// Character data with entity references expanded, or `None` when a
/// reference names an unknown entity.
pub open spec fn expand_text(t: Seq<char>) -> Option<Seq<char>>
    decreases t.len(),
{
    if t.len() == 0 {
        Some(Seq::empty())
    } else if t[0] == '&' && t.len() >= 2 && is_alpha(t[1]) {
        let ne = entity_name_end(t);
        match entity_char(t.subrange(1, ne)) {
            None => None,
            Some(ch) => {
                let after = if ne < t.len() && t[ne] == ';' {
                    ne + 1
                } else {
                    ne
                };
                match expand_text(t.skip(after)) {
                    None => None,
                    Some(rest) => Some(seq![ch] + rest),
                }
            },
        }
    } else {
        match expand_text(t.skip(1)) {
            None => None,
            Some(rest) => Some(seq![t[0]] + rest),
        }
    }
}

/// Expands the entity references in `v[from..to]` onto the end of `acc`.
/// Returns `false`, leaving `acc` arbitrary, exactly when the range holds a
/// reference to an unknown entity.
pub(crate) fn expand_range_into(v: &Vec<char>, from: usize, to: usize, acc: &mut String) -> (ok: bool)
    requires
        from <= to <= v@.len(),
    ensures
        match expand_text(v@.subrange(from as int, to as int)) {
            Some(e) => ok && final(acc)@ == old(acc)@ + e,
            None => !ok,
        },
    decreases to - from,
{
    let ghost t = v@.subrange(from as int, to as int);
    if from == to {
        proof {
            assert(old(acc)@ + t =~= old(acc)@);
        }
        return true;
    }
    let c0 = v[from];
    if c0 == '&' && from + 1 < to && crate::scan::alpha_char(v[from + 1]) {
        let ne = nonname_from(v, from + 1, to);
        proof {
            lemma_scan_until_unique(t, 1, (|c: char| !is_name_char(c)), ne - from);
            assert(ne - from >= 2) by {
                assert(is_name_char(t[1]));
            }
            assert(entity_name_end(t) == ne - from);
            assert(t.subrange(1, ne - from) =~= v@.subrange(from + 1, ne as int));
        }
        match entity_char_range(v, from + 1, ne) {
            None => {
                return false;
            },
            Some(ch) => {
                let after = if ne < to && v[ne] == ';' {
                    ne + 1
                } else {
                    ne
                };
                proof {
                    assert(t.skip(after - from) =~= v@.subrange(after as int, to as int));
                }
                let ghost before = acc@;
                acc.push(ch);
                let ok = expand_range_into(v, after, to, acc);
                proof {
                    if expand_text(t) is Some {
                        let rest = expand_text(t.skip(after - from))->Some_0;
                        assert(before + (seq![ch] + rest) =~= before.push(ch) + rest);
                    }
                }
                return ok;
            },
        }
    } else {
        proof {
            assert(t.skip(1) =~= v@.subrange(from + 1, to as int));
        }
        let ghost before = acc@;
        acc.push(c0);
        let ok = expand_range_into(v, from + 1, to, acc);
        proof {
            if expand_text(t) is Some {
                let rest = expand_text(t.skip(1))->Some_0;
                assert(before + (seq![t[0]] + rest) =~= before.push(t[0]) + rest);
            }
        }
        return ok;
    }
}

} // verus!
