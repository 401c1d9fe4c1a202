//! The serializer: renders a token sequence back to document text.
//!
//! Character data is escaped so that the rendered text re-tokenizes to the
//! same data: `&`, `<` and `>` become entity references.  Attribute values
//! are always double-quoted, with `&` and `"` escaped.

use vstd::prelude::*;

use crate::strutil::chars_vec;
use crate::token::{views_of, STok, Token};

verus! {

/// How one character of character data is rendered.
pub open spec fn esc_text_char(c: char) -> Seq<char> {
    if c == '<' {
        seq!['&', 'l', 't', ';']
    } else if c == '>' {
        seq!['&', 'g', 't', ';']
    } else if c == '&' {
        seq!['&', 'a', 'm', 'p', ';']
    } else {
        seq![c]
    }
}

/// How character data is rendered.
pub open spec fn esc_text(t: Seq<char>) -> Seq<char>
    decreases t.len(),
{
    if t.len() == 0 {
        Seq::empty()
    } else {
        esc_text_char(t[0]) + esc_text(t.skip(1))
    }
}

/// How one character of an attribute value is rendered.
pub open spec fn esc_attr_char(c: char) -> Seq<char> {
    if c == '"' {
        seq!['&', 'q', 'u', 'o', 't', ';']
    } else if c == '&' {
        seq!['&', 'a', 'm', 'p', ';']
    } else {
        seq![c]
    }
}

/// How an attribute value is rendered, quotes excluded.
pub open spec fn esc_attr(t: Seq<char>) -> Seq<char>
    decreases t.len(),
{
    if t.len() == 0 {
        Seq::empty()
    } else {
        esc_attr_char(t[0]) + esc_attr(t.skip(1))
    }
}

/// The text one token renders to.
pub open spec fn render_tok(t: STok) -> Seq<char> {
    match t {
        STok::OpenStartTag { name } => seq!['<'] + name,
        STok::CloseStartTag => seq!['>'],
        STok::Attribute { name, value: None } => seq![' '] + name,
        STok::Attribute { name, value: Some(v) } => seq![' '] + name + seq!['=', '"'] + esc_attr(v)
            + seq!['"'],
        STok::EndTag { name } => seq!['<', '/'] + name + seq!['>'],
        STok::Character { text } => esc_text(text),
        STok::ProcessingInstruction { data } => seq!['<', '?'] + data + seq!['>'],
        STok::MarkupDeclaration { text } => seq!['<', '!'] + text + seq!['>'],
        STok::MarkedSection { keywords, content } => seq!['<', '!', '['] + keywords + seq!['[']
            + content + seq![']', ']', '>'],
        STok::EmptyElementClose => seq!['/', '>'],
    }
}

/// The text a token sequence renders to.
pub open spec fn spec_render(ts: Seq<STok>) -> Seq<char>
    decreases ts.len(),
{
    if ts.len() == 0 {
        Seq::empty()
    } else {
        render_tok(ts[0]) + spec_render(ts.skip(1))
    }
}

/// Appends the rendering of character data from position `i` on.
fn esc_text_into(v: &Vec<char>, i: usize, acc: &mut String)
    requires
        i <= v@.len(),
    ensures
        final(acc)@ == old(acc)@ + esc_text(v@.skip(i as int)),
    decreases v@.len() - i,
{
    proof {
        reveal_strlit("&lt;");
        reveal_strlit("&gt;");
        reveal_strlit("&amp;");
    }
    if i == v.len() {
        proof {
            assert(acc@ + esc_text(v@.skip(i as int)) =~= acc@);
        }
        return ;
    }
    let ghost t = v@.skip(i as int);
    proof {
        assert(t[0] == v@[i as int]);
        assert(t.skip(1) =~= v@.skip(i + 1));
    }
    let c = v[i];
    let ghost before = acc@;
    if c == '<' {
        acc.append("&lt;");
        proof {
            assert(acc@ =~= before + esc_text_char(t[0]));
        }
    } else if c == '>' {
        acc.append("&gt;");
        proof {
            assert(acc@ =~= before + esc_text_char(t[0]));
        }
    } else if c == '&' {
        acc.append("&amp;");
        proof {
            assert(acc@ =~= before + esc_text_char(t[0]));
        }
    } else {
        acc.push(c);
        proof {
            assert(acc@ =~= before + esc_text_char(t[0]));
        }
    }
    let ghost mid = acc@;
    esc_text_into(v, i + 1, acc);
    proof {
        assert(before + (esc_text_char(t[0]) + esc_text(t.skip(1))) =~= mid + esc_text(
            t.skip(1),
        ));
    }
}

/// Appends the rendering of an attribute value from position `i` on.
fn esc_attr_into(v: &Vec<char>, i: usize, acc: &mut String)
    requires
        i <= v@.len(),
    ensures
        final(acc)@ == old(acc)@ + esc_attr(v@.skip(i as int)),
    decreases v@.len() - i,
{
    proof {
        reveal_strlit("&quot;");
        reveal_strlit("&amp;");
    }
    if i == v.len() {
        proof {
            assert(acc@ + esc_attr(v@.skip(i as int)) =~= acc@);
        }
        return ;
    }
    let ghost t = v@.skip(i as int);
    proof {
        assert(t[0] == v@[i as int]);
        assert(t.skip(1) =~= v@.skip(i + 1));
    }
    let c = v[i];
    let ghost before = acc@;
    if c == '"' {
        acc.append("&quot;");
        proof {
            assert(acc@ =~= before + esc_attr_char(t[0]));
        }
    } else if c == '&' {
        acc.append("&amp;");
        proof {
            assert(acc@ =~= before + esc_attr_char(t[0]));
        }
    } else {
        acc.push(c);
        proof {
            assert(acc@ =~= before + esc_attr_char(t[0]));
        }
    }
    let ghost mid = acc@;
    esc_attr_into(v, i + 1, acc);
    proof {
        assert(before + (esc_attr_char(t[0]) + esc_attr(t.skip(1))) =~= mid + esc_attr(
            t.skip(1),
        ));
    }
}

/// Appends the rendering of one token.
fn render_tok_into(t: &Token, acc: &mut String)
    ensures
        final(acc)@ == old(acc)@ + render_tok(t@),
{
    let ghost before = acc@;
    match t {
        Token::OpenStartTag { name } => {
            acc.push('<');
            acc.append(name.as_str());
            proof {
                assert(acc@ =~= before + (seq!['<'] + name@));
            }
        },
        Token::CloseStartTag => {
            acc.push('>');
            proof {
                assert(acc@ =~= before + seq!['>']);
            }
        },
        Token::Attribute { name, value } => {
            acc.push(' ');
            acc.append(name.as_str());
            match value {
                None => {
                    proof {
                        assert(acc@ =~= before + (seq![' '] + name@));
                    }
                },
                Some(val) => {
                    acc.push('=');
                    acc.push('"');
                    let ghost mid = acc@;
                    let vv = chars_vec(val.as_str());
                    esc_attr_into(&vv, 0, acc);
                    proof {
                        assert(vv@.skip(0) =~= val@);
                    }
                    acc.push('"');
                    proof {
                        assert(acc@ =~= before + (seq![' '] + name@ + seq!['=', '"'] + esc_attr(
                            val@,
                        ) + seq!['"']));
                    }
                },
            }
        },
        Token::EndTag { name } => {
            acc.push('<');
            acc.push('/');
            acc.append(name.as_str());
            acc.push('>');
            proof {
                assert(acc@ =~= before + (seq!['<', '/'] + name@ + seq!['>']));
            }
        },
        Token::Character { text } => {
            let vv = chars_vec(text.as_str());
            esc_text_into(&vv, 0, acc);
            proof {
                assert(vv@.skip(0) =~= text@);
            }
        },
        Token::ProcessingInstruction { data } => {
            acc.push('<');
            acc.push('?');
            acc.append(data.as_str());
            acc.push('>');
            proof {
                assert(acc@ =~= before + (seq!['<', '?'] + data@ + seq!['>']));
            }
        },
        Token::MarkupDeclaration { text } => {
            acc.push('<');
            acc.push('!');
            acc.append(text.as_str());
            acc.push('>');
            proof {
                assert(acc@ =~= before + (seq!['<', '!'] + text@ + seq!['>']));
            }
        },
        Token::MarkedSection { keywords, content } => {
            acc.push('<');
            acc.push('!');
            acc.push('[');
            acc.append(keywords.as_str());
            acc.push('[');
            acc.append(content.as_str());
            acc.push(']');
            acc.push(']');
            acc.push('>');
            proof {
                assert(acc@ =~= before + (seq!['<', '!', '['] + keywords@ + seq!['['] + content@
                    + seq![']', ']', '>']));
            }
        },
        Token::EmptyElementClose => {
            acc.push('/');
            acc.push('>');
            proof {
                assert(acc@ =~= before + seq!['/', '>']);
            }
        },
    }
}

/// Appends the rendering of the tokens from position `i` on.
fn render_into(ts: &Vec<Token>, i: usize, acc: &mut String)
    requires
        i <= ts@.len(),
    ensures
        final(acc)@ == old(acc)@ + spec_render(views_of(ts@).skip(i as int)),
    decreases ts@.len() - i,
{
    let ghost vs = views_of(ts@);
    if i == ts.len() {
        proof {
            assert(acc@ + spec_render(vs.skip(i as int)) =~= acc@);
        }
        return ;
    }
    proof {
        assert(vs.skip(i as int)[0] == ts@[i as int]@);
        assert(vs.skip(i as int).skip(1) =~= vs.skip(i + 1));
    }
    let ghost before = acc@;
    render_tok_into(&ts[i], acc);
    let ghost mid = acc@;
    render_into(ts, i + 1, acc);
    proof {
        assert(before + (render_tok(vs.skip(i as int)[0]) + spec_render(vs.skip(i + 1))) =~= mid
            + spec_render(vs.skip(i + 1)));
    }
}

/// Renders a token sequence back to document text.
pub fn render(ts: &Vec<Token>) -> (r: String)
    ensures
        r@ == spec_render(views_of(ts@)),
{
    let mut acc = String::new();
    render_into(ts, 0, &mut acc);
    proof {
        assert(views_of(ts@).skip(0) =~= views_of(ts@));
        assert(Seq::<char>::empty() + spec_render(views_of(ts@)) =~= spec_render(views_of(ts@)));
    }
    acc
}

} // verus!
