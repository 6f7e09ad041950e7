//! A small declarative configuration language, read in three passes: text to
//! tokens, tokens to a flat list of assignments, assignments to one tree.

pub mod decimal;
pub mod decode;
pub mod grammar;
pub mod integer;
pub mod json;
pub mod json_lex;
pub mod json_merge;
pub mod json_parse;
pub mod json_tree;
pub mod laws;
pub mod lex;
pub mod merge;
pub mod parse;
pub mod path;
pub mod text;
pub mod value;

pub use crate::decimal::Decimal;
pub use crate::integer::Integer;
pub use crate::json::Json;
pub use crate::lex::lex;
pub use crate::lex::lex_partial;
pub use crate::lex::LexError;
pub use crate::lex::Token;
pub use crate::merge::merge;
pub use crate::merge::merge_reporting;
pub use crate::merge::Discarded;
pub use crate::merge::MergeError;
pub use crate::parse::parse;
pub use crate::parse::ParseError;
pub use crate::path::Path;
pub use crate::path::PathSegment;
pub use crate::path::PathTarget;
pub use crate::value::Value;

use crate::lex::lex_spec;
use crate::lex::LexFault;
use crate::merge::merge_spec;
use crate::merge::MergeFault;
use crate::parse::parse_spec;
use crate::parse::ParseFault;
use crate::value::Tree;
use vstd::prelude::*;

verus! {

/// Why a text could not be read.
#[derive(Debug, PartialEq, Eq)]
pub enum Error {
    Lex(LexError),
    Parse(ParseError),
    Merge(MergeError),
}

/// Why a text could not be read, apart from how that is stored.
pub ghost enum Fault {
    Lex(LexFault),
    Parse(ParseFault),
    Merge(MergeFault),
}

impl View for Error {
    type V = Fault;

    open spec fn view(&self) -> Fault {
        match self {
            Error::Lex(e) => Fault::Lex(e@),
            Error::Parse(e) => Fault::Parse(e@),
            Error::Merge(e) => Fault::Merge(e@),
        }
    }
}

/// The tree that a text comes to: its tokens, the assignments that they
/// make, and those merged under the policy.
pub open spec fn document(s: Seq<char>, strict: bool) -> Result<Tree, Fault> {
    match lex_spec(s) {
        Err(f) => Err(Fault::Lex(f)),
        Ok(tokens) => match parse_spec(tokens) {
            Err(f) => Err(Fault::Parse(f)),
            Ok(entries) => match merge_spec(entries, strict) {
                Err(f) => Err(Fault::Merge(f)),
                Ok(t) => Ok(t),
            },
        },
    }
}

/// Reads a text into its tree, under the strict policy: where two
/// assignments to one place differ, the text is refused.
pub fn from_str(s: &str) -> (r: Result<Value, Error>)
    ensures
        match document(s@, true) {
            Ok(t) => r matches Ok(v) && v@ == t && v.wf(),
            Err(f) => r matches Err(e) && e@ == f,
        },
{
    let tokens = match lex(s) {
        Ok(tokens) => tokens,
        Err(e) => {
            return Err(Error::Lex(e));
        },
    };
    let entries = match parse(tokens) {
        Ok(entries) => entries,
        Err(e) => {
            return Err(Error::Parse(e));
        },
    };
    match merge(entries, true) {
        Ok(v) => Ok(v),
        Err(e) => Err(Error::Merge(e)),
    }
}

} // verus!
