//! Error types for schema construction and document operations.

use vstd::prelude::*;
use crate::strutil::{push_str, string_from_chars, decimal_chars, push_chars, decimal};

verus! {

/// Error raised while building or using a [`Schema`](crate::Schema).
#[derive(Debug, Clone, PartialEq, Eq)]
pub enum SchemaError {
    /// A node or mark name was declared more than once.
    DuplicateType(String),
    /// The declared top node name has no matching node type.
    UnknownTopNode(String),
    /// A content expression referenced an unknown node name or group.
    UnknownContentRef {
        /// The node type whose content expression is invalid.
        in_type: String,
        /// The unresolved name or group token.
        reference: String,
    },
    /// A content expression failed to parse.
    BadContentExpression {
        /// The node type whose content expression is invalid.
        in_type: String,
        /// Human-readable parser message.
        message: String,
    },
    /// No node type was registered at all.
    Empty,
}

impl SchemaError {
    /// Human-readable description of the error.
    pub fn message(&self) -> (r: String)
        ensures
            match self {
                SchemaError::DuplicateType(n) => r@ == "duplicate type name `"@ + n@ + "`"@,
                SchemaError::UnknownTopNode(n) => r@ == "top node `"@ + n@ + "` is not a declared node type"@,
                SchemaError::UnknownContentRef { in_type, reference } =>
                    r@ == "content of `"@ + in_type@ + "` references unknown `"@ + reference@ + "`"@,
                SchemaError::BadContentExpression { in_type, message } =>
                    r@ == "content expression of `"@ + in_type@ + "` is invalid: "@ + message@,
                SchemaError::Empty => r@ == "schema declares no node types"@,
            },
    {
        let mut out: Vec<char> = Vec::new();
        match self {
            SchemaError::DuplicateType(n) => {
                push_str(&mut out, "duplicate type name `");
                push_str(&mut out, n.as_str());
                push_str(&mut out, "`");
            },
            SchemaError::UnknownTopNode(n) => {
                push_str(&mut out, "top node `");
                push_str(&mut out, n.as_str());
                push_str(&mut out, "` is not a declared node type");
            },
            SchemaError::UnknownContentRef { in_type, reference } => {
                push_str(&mut out, "content of `");
                push_str(&mut out, in_type.as_str());
                push_str(&mut out, "` references unknown `");
                push_str(&mut out, reference.as_str());
                push_str(&mut out, "`");
            },
            SchemaError::BadContentExpression { in_type, message } => {
                push_str(&mut out, "content expression of `");
                push_str(&mut out, in_type.as_str());
                push_str(&mut out, "` is invalid: ");
                push_str(&mut out, message.as_str());
            },
            SchemaError::Empty => {
                push_str(&mut out, "schema declares no node types");
            },
        }
        assert(out@ =~= out@);
        string_from_chars(&out)
    }
}

/// Error raised while constructing or deserializing a document.
#[derive(Debug, Clone, PartialEq, Eq)]
pub enum DocError {
    /// A referenced node type name is not in the schema.
    UnknownNodeType(String),
    /// A referenced mark type name is not in the schema.
    UnknownMarkType(String),
    /// Children did not satisfy the parent node type's content expression.
    InvalidContent {
        /// Parent node type name.
        parent: String,
    },
    /// A position was out of range for the document it was resolved against.
    PositionOutOfRange {
        /// The offending position.
        pos: usize,
        /// The maximum valid position.
        max: usize,
    },
    /// JSON did not match the expected document shape.
    MalformedJson(String),
    /// HTML input was malformed or exceeded a safety limit (e.g. nesting
    /// depth).
    HtmlParse(String),
    /// The document would be larger than a position can address.
    TooLarge,
}

impl DocError {
    /// Human-readable description of the error.
    pub fn message(&self) -> (r: String)
        ensures
            match self {
                DocError::UnknownNodeType(n) => r@ == "unknown node type `"@ + n@ + "`"@,
                DocError::UnknownMarkType(n) => r@ == "unknown mark type `"@ + n@ + "`"@,
                DocError::InvalidContent { parent } =>
                    r@ == "content does not match the schema for `"@ + parent@ + "`"@,
                DocError::PositionOutOfRange { pos, max } =>
                    r@ == "position "@ + decimal(*pos as nat) + " out of range (max "@ + decimal(*max as nat) + ")"@,
                DocError::MalformedJson(m) => r@ == "malformed document JSON: "@ + m@,
                DocError::HtmlParse(m) => r@ == "could not parse HTML: "@ + m@,
                DocError::TooLarge => r@ == "document too large"@,
            },
    {
        let mut out: Vec<char> = Vec::new();
        match self {
            DocError::UnknownNodeType(n) => {
                push_str(&mut out, "unknown node type `");
                push_str(&mut out, n.as_str());
                push_str(&mut out, "`");
            },
            DocError::UnknownMarkType(n) => {
                push_str(&mut out, "unknown mark type `");
                push_str(&mut out, n.as_str());
                push_str(&mut out, "`");
            },
            DocError::InvalidContent { parent } => {
                push_str(&mut out, "content does not match the schema for `");
                push_str(&mut out, parent.as_str());
                push_str(&mut out, "`");
            },
            DocError::PositionOutOfRange { pos, max } => {
                push_str(&mut out, "position ");
                let p = decimal_chars(*pos as u64);
                push_chars(&mut out, &p);
                push_str(&mut out, " out of range (max ");
                let m = decimal_chars(*max as u64);
                push_chars(&mut out, &m);
                push_str(&mut out, ")");
            },
            DocError::MalformedJson(m) => {
                push_str(&mut out, "malformed document JSON: ");
                push_str(&mut out, m.as_str());
            },
            DocError::HtmlParse(m) => {
                push_str(&mut out, "could not parse HTML: ");
                push_str(&mut out, m.as_str());
            },
            DocError::TooLarge => {
                push_str(&mut out, "document too large");
            },
        }
        string_from_chars(&out)
    }
}

} // verus!
