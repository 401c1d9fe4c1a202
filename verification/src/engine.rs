//! The whole conversion: tokenize, rewrite the date-bearing fields, render.

use vstd::prelude::*;

use crate::render::{render, spec_render};
use crate::rewrite::{convert_tokens, spec_convert};
use crate::tokenize::{spec_tokenize, tokenize, ParseError};

verus! {

/// Converts one document: lexes it with marked sections expanded, rewrites
/// every transaction-name field that carries a `DD.MM.YY` suffix, and
/// renders the result.  Fails, producing nothing, exactly when the document
/// is malformed; a field that merely fails to match is passed through
/// unchanged.
pub fn convert_document(text: &str) -> (r: Result<String, ParseError>)
    ensures
        match r {
            Ok(out) => spec_tokenize(text@, true) is Some && out@ == spec_render(
                spec_convert(spec_tokenize(text@, true)->Some_0),
            ),
            Err(_) => spec_tokenize(text@, true) is None,
        },
{
    match tokenize(text, true) {
        Err(e) => Err(e),
        Ok(ts) => {
            let ts2 = convert_tokens(ts);
            Ok(render(&ts2))
        },
    }
}

} // verus!
