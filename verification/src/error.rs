//! Fatal decode failures.

use vstd::prelude::*;

verus! {

/// Why a decode failed.  Advisory conditions are never errors; these are
/// the fatal ones, and no document is returned alongside them.
#[derive(Debug)]
pub enum ParseError {
    /// The first header token was not the format identifier.
    WrongFileType { found: String },
    /// The second header token was not the object identifier.
    WrongObjectClass { found: String },
    /// The token queue ran out where the document's lower bound was expected.
    MissingDocumentXmin,
    /// The token queue ran out where the document's upper bound was expected.
    MissingDocumentXmax,
    /// The token at the document's lower bound could not be read as a number.
    UnparsableDocumentXmin { token: String },
    /// The token at the document's upper bound could not be read as a number.
    UnparsableDocumentXmax { token: String },
    /// The token queue ran out while a number was still expected.
    MissingNumber,
    /// A token matched the numeric pattern but its value cannot be held.
    MalformedNumber { token: String },
    /// The token queue ran out where a tier's name was expected.
    MissingTierName,
    /// A tier's type token was neither recognized kind sentinel.
    UnknownTierType { found: String },
}

impl ParseError {
    /// A human-readable account of the failure, naming what was expected.
    pub fn message(&self) -> (r: String)
        ensures
            r@.len() > 0,
    {
        let mut m: String = "TextGrid malformed; ".to_owned();
        proof {
            reveal_strlit("TextGrid malformed; ");
        }
        match self {
            ParseError::WrongFileType { found } => {
                m.append("`File type` incorrect: expected `ooTextFile`, got ");
                m.append(found.as_str());
            },
            ParseError::WrongObjectClass { found } => {
                m.append("`Object class` incorrect: expected `TextGrid`, got ");
                m.append(found.as_str());
            },
            ParseError::MissingDocumentXmin => {
                m.append("early EOF expecting `xmin`");
            },
            ParseError::MissingDocumentXmax => {
                m.append("early EOF expecting `xmax`");
            },
            ParseError::UnparsableDocumentXmin { token } => {
                m.append("could not parse `xmin` as a number: ");
                m.append(token.as_str());
            },
            ParseError::UnparsableDocumentXmax { token } => {
                m.append("could not parse `xmax` as a number: ");
                m.append(token.as_str());
            },
            ParseError::MissingNumber => {
                m.append("unable to find an expected number");
            },
            ParseError::MalformedNumber { token } => {
                m.append("unable to parse expected number: ");
                m.append(token.as_str());
            },
            ParseError::MissingTierName => {
                m.append("early EOF expecting tier name");
            },
            ParseError::UnknownTierType { found } => {
                m.append("invalid tier type: ");
                m.append(found.as_str());
            },
        }
        m
    }
}

} // verus!
