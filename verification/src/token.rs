//! The token model: the typed lexical units of the document dialect.
//!
//! A document is lexed into a flat, 0-indexed sequence of tokens.  Tokens are
//! immutable once produced; identity is purely positional.

use vstd::prelude::*;

verus! {

/// One lexical unit of the markup document.
#[derive(Debug, Clone, PartialEq, Eq)]
pub enum Token {
    /// `<NAME` — the opening of a start tag.
    OpenStartTag { name: String },
    /// `>` — the end of a start tag.
    CloseStartTag,
    /// An attribute inside a start tag, with an optional value.
    Attribute { name: String, value: Option<String> },
    /// `</NAME>` — an end tag.
    EndTag { name: String },
    /// Character data, with entities already expanded.
    Character { text: String },
    /// `<?data>` — a processing instruction; `data` excludes the delimiters.
    ProcessingInstruction { data: String },
    /// `<!text>` — a markup declaration; `text` excludes the delimiters.
    MarkupDeclaration { text: String },
    /// `<![keywords[content]]>` — a marked section kept as an opaque node.
    MarkedSection { keywords: String, content: String },
    /// `/>` — the XML-style close of an empty element.
    EmptyElementClose,
}

/// The mathematical counterpart of [`Token`]: the same variants over
/// sequences of characters.
pub enum STok {
    OpenStartTag { name: Seq<char> },
    CloseStartTag,
    Attribute { name: Seq<char>, value: Option<Seq<char>> },
    EndTag { name: Seq<char> },
    Character { text: Seq<char> },
    ProcessingInstruction { data: Seq<char> },
    MarkupDeclaration { text: Seq<char> },
    MarkedSection { keywords: Seq<char>, content: Seq<char> },
    EmptyElementClose,
}

impl View for Token {
    type V = STok;

    open spec fn view(&self) -> STok {
        match self {
            Token::OpenStartTag { name } => STok::OpenStartTag { name: name@ },
            Token::CloseStartTag => STok::CloseStartTag,
            Token::Attribute { name, value } => STok::Attribute {
                name: name@,
                value: match value {
                    Some(v) => Some(v@),
                    None => None,
                },
            },
            Token::EndTag { name } => STok::EndTag { name: name@ },
            Token::Character { text } => STok::Character { text: text@ },
            Token::ProcessingInstruction { data } => STok::ProcessingInstruction { data: data@ },
            Token::MarkupDeclaration { text } => STok::MarkupDeclaration { text: text@ },
            Token::MarkedSection { keywords, content } => STok::MarkedSection {
                keywords: keywords@,
                content: content@,
            },
            Token::EmptyElementClose => STok::EmptyElementClose,
        }
    }
}

/// The views of a sequence of tokens, in order.
pub open spec fn views_of(ts: Seq<Token>) -> Seq<STok> {
    Seq::new(ts.len(), |i: int| ts[i]@)
}

} // verus!
