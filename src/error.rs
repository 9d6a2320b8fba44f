use vstd::prelude::*;
use vstd::string::StringExecFns;

verus! {

/// What can go wrong while reading, checking or changing a translation file.
#[derive(Debug, PartialEq, Eq)]
pub enum ParserError {
    /// The file at this path does not exist.
    FileDoesNotExist(String),
    /// The file at this path could not be opened or read.
    CouldNotOpenFile(String),
    /// The file at this path is not well-formed JSON.
    CouldNotParseFile(String),
    /// The value at dotted key `key` is neither a string nor an object;
    /// `value_type` names what it is.
    InvalidValueType { key: String, value_type: String },
    /// The segment `key` of a dotted key is absent.
    KeyNotFound { key: String },
    /// The last segment `key` of a dotted key names a group, not a string.
    NotAString { key: String },
    /// The dotted key `path`, a proper prefix of the key being set, holds a
    /// translation string where a group is needed.
    PathSegmentConflict { path: String },
    /// The document's root is a translation string rather than a group.
    RootNotAGroup,
}

/// The one-line text that reports `e`.
pub open spec fn error_text(e: ParserError) -> Seq<char> {
    match e {
        ParserError::FileDoesNotExist(p) => "File does not exist: "@ + p@,
        ParserError::CouldNotOpenFile(p) => "Could not open file: "@ + p@,
        ParserError::CouldNotParseFile(p) => "Could not parse file: "@ + p@,
        ParserError::InvalidValueType { key, value_type } => "Invalid value '"@ + value_type@
            + "' for key: '"@ + key@ + "', it should be either a string or map with strings."@,
        ParserError::KeyNotFound { key } => "Key '"@ + key@ + "' not found"@,
        ParserError::NotAString { key } => "Value for key '"@ + key@ + "' is not a string"@,
        ParserError::PathSegmentConflict { path } => "Key '"@ + path@
            + "' holds a string, so it can not hold nested keys"@,
        ParserError::RootNotAGroup => "The translation file should hold a JSON object"@,
    }
}

impl ParserError {
    /// The one-line text that reports this error.
    pub fn message(&self) -> (r: String)
        ensures
            r@ == error_text(*self),
    {
        match self {
            ParserError::FileDoesNotExist(p) => String::from_str("File does not exist: ").concat(p.as_str()),
            ParserError::CouldNotOpenFile(p) => String::from_str("Could not open file: ").concat(p.as_str()),
            ParserError::CouldNotParseFile(p) => String::from_str("Could not parse file: ").concat(p.as_str()),
            ParserError::InvalidValueType { key, value_type } => String::from_str("Invalid value '").concat(
                value_type.as_str(),
            ).concat("' for key: '").concat(key.as_str()).concat(
                "', it should be either a string or map with strings.",
            ),
            ParserError::KeyNotFound { key } => String::from_str("Key '").concat(key.as_str()).concat(
                "' not found",
            ),
            ParserError::NotAString { key } => String::from_str("Value for key '").concat(key.as_str()).concat(
                "' is not a string",
            ),
            ParserError::PathSegmentConflict { path } => String::from_str("Key '").concat(path.as_str()).concat(
                "' holds a string, so it can not hold nested keys",
            ),
            ParserError::RootNotAGroup => String::from_str("The translation file should hold a JSON object"),
        }
    }
}

} // verus!
