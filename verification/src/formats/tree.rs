//! json → the `Tree` form. Parsing is left to serde_json; unfolding the nodes is
//! the interface's job.

use vstd::prelude::*;
use crate::doc::Doc;
use crate::strs::{owned, decimal, decimal_string};
use crate::json::{JsonModel, json_contents};

verus! {

/// Where and why a JSON text failed to parse.
#[derive(Debug, Clone, PartialEq)]
pub struct JsonFailure {
    /// 1-based line of the error (`serde_json::Error::line`).
    pub line: usize,
    /// 1-based column of the error (`serde_json::Error::column`).
    pub column: usize,
    /// The error's message (`Display`).
    pub message: String,
}

/// What `serde_json::from_str::<serde_json::Value>` makes of `src`: what the
/// parsed value holds, or where and why parsing failed.
pub uninterp spec fn json_parse(src: Seq<char>) -> Result<JsonModel, JsonFailure>;

/// `serde_json::from_str::<serde_json::Value>`: the value, or where and why it failed.
#[verifier::external_body]
fn parse_json(src: &str) -> (r: Result<serde_json::Value, JsonFailure>)
    ensures
        match (r, json_parse(src@)) {
            (Ok(v), Ok(m)) => json_contents(v) == m,
            (Err(f), Err(g)) => f == g,
            _ => false,
        },
{
    match serde_json::from_str::<serde_json::Value>(src) {
        Ok(v) => Ok(v),
        Err(e) => Err(JsonFailure { line: e.line(), column: e.column(), message: e.to_string() }),
    }
}

/// The message shown for a JSON text that does not parse.
pub open spec fn json_message(f: JsonFailure) -> Seq<char> {
    "Битый JSON: строка "@ + decimal(f.line as nat) + ", столбец "@ + decimal(f.column as nat) + " — "@
        + f.message@
}

/// `d` is the document for the JSON text `src`: the parsed tree when it parses, else
/// `Unsupported` with the line and column of the error.
pub open spec fn json_document(src: Seq<char>, d: Doc) -> bool {
    match json_parse(src) {
        Ok(m) => d matches Doc::Tree { json } && json_contents(json) == m,
        Err(f) => d matches Doc::Unsupported { ext, message } && ext@ == "json"@ && message@
            == json_message(f),
    }
}

/// JSON text → `Tree`; a text that does not parse gives `Unsupported` with the
/// line and column of the error.
pub fn from_json(src: &str) -> (r: Doc)
    ensures
        json_document(src@, r),
{
    match parse_json(src) {
        Ok(json) => Doc::Tree { json },
        Err(f) => {
            let mut message = owned("Битый JSON: строка ");
            message.append(decimal_string(f.line as u64).as_str());
            message.append(", столбец ");
            message.append(decimal_string(f.column as u64).as_str());
            message.append(" — ");
            message.append(f.message.as_str());
            Doc::Unsupported { ext: owned("json"), message }
        },
    }
}

} // verus!
