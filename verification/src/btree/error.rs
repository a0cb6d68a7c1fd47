//! B+Tree errors.
use crate::page::error::PageError;
use crate::space::error::SpaceError;
use crate::page::error::spec_page_message;
use crate::space::error::spec_space_message;
use crate::text::{joined, spec_decimal, with_number};
use vstd::prelude::*;

verus! {

/// B+Tree errors.
#[derive(Debug)]
pub enum BTreeError {
    /// Key not found (reserved for a strict lookup mode).
    KeyNotFound,
    /// Unique constraint violated (reserved).
    DuplicateKey,
    /// Error of a page operation.
    Page(PageError),
    /// Error of a tablespace operation.
    Space(SpaceError),
    /// Key comparison failed (reserved).
    ComparisonFailed(String),
    /// Unknown node kind byte.
    InvalidNodeKind(u8),
    /// More keys than `ORDER` in a node.
    TooManyKeys {
        /// Keys found.
        got: usize,
        /// `ORDER`.
        max: usize,
    },
    /// Children or values do not match the keys (or the node page is cut short).
    ArityMismatch {
        /// Keys.
        keys: usize,
        /// Children.
        children: usize,
        /// Values.
        values: usize,
    },
}

/// The message of a B+Tree error (a store `Io` error inside carries the
/// I/O error's own text).
pub open spec fn spec_btree_message(e: BTreeError) -> Seq<char> {
    match e {
        BTreeError::KeyNotFound => "key not found"@,
        BTreeError::DuplicateKey => "duplicate key"@,
        BTreeError::Page(p) => "page error: "@ + spec_page_message(p),
        BTreeError::Space(sp) => "space error: "@ + spec_space_message(sp),
        BTreeError::ComparisonFailed(m) => "comparison failed: "@ + m@,
        BTreeError::InvalidNodeKind(k) => "invalid node kind: "@ + spec_decimal(k as nat),
        BTreeError::TooManyKeys { got, max } => "node has too many keys: "@ + spec_decimal(got as nat)
            + " > "@ + spec_decimal(max as nat),
        BTreeError::ArityMismatch { keys, children, values } => "node arity mismatch: keys="@
            + spec_decimal(keys as nat) + ", children="@ + spec_decimal(children as nat)
            + ", values="@ + spec_decimal(values as nat),
    }
}

impl BTreeError {
    /// The error's message.
    pub fn message(&self) -> (r: String)
        ensures
            !(self matches BTreeError::Space(crate::space::error::SpaceError::Io(_))) ==> r@
                == spec_btree_message(*self),
    {
        match self {
            BTreeError::KeyNotFound => String::from_str("key not found"),
            BTreeError::DuplicateKey => String::from_str("duplicate key"),
            BTreeError::Page(p) => joined("page error: ", p.message().as_str()),
            BTreeError::Space(sp) => joined("space error: ", sp.message().as_str()),
            BTreeError::ComparisonFailed(m) => joined("comparison failed: ", m.as_str()),
            BTreeError::InvalidNodeKind(k) => with_number("invalid node kind: ", *k as u64),
            BTreeError::TooManyKeys { got, max } => {
                let a = with_number("node has too many keys: ", *got as u64);
                let b = with_number(" > ", *max as u64);
                a.concat(b.as_str())
            },
            BTreeError::ArityMismatch { keys, children, values } => {
                let a = with_number("node arity mismatch: keys=", *keys as u64);
                let b = with_number(", children=", *children as u64);
                let c = with_number(", values=", *values as u64);
                a.concat(b.as_str()).concat(c.as_str())
            },
        }
    }
}

} // verus!
