//! The error kinds surfaced by the engine.

use vstd::prelude::*;

verus! {

/// Why an operation was refused.
#[derive(Clone, Copy, Debug, PartialEq, Eq, Structural)]
pub enum Error {
    /// The key is longer than `BTREE_MAX_KEY_SIZE`.
    KeyTooLarge,
    /// The value is longer than `BTREE_MAX_VAL_SIZE`.
    ValueTooLarge,
    /// A page failed structural validation.
    CorruptPage,
    /// The meta page failed validation.
    CorruptMeta,
    /// A page number is zero, out of range, or names a freed page.
    InvalidPageId,
}

/// The words that name an error kind.
pub open spec fn description(e: Error) -> Seq<char> {
    match e {
        Error::KeyTooLarge => "key too large"@,
        Error::ValueTooLarge => "value too large"@,
        Error::CorruptPage => "corrupt page"@,
        Error::CorruptMeta => "corrupt meta page"@,
        Error::InvalidPageId => "invalid page id"@,
    }
}

impl Error {
    /// A short human-readable description of the error kind.
    pub fn describe(&self) -> (s: &'static str)
        ensures
            s@ == description(*self),
    {
        match self {
            Error::KeyTooLarge => "key too large",
            Error::ValueTooLarge => "value too large",
            Error::CorruptPage => "corrupt page",
            Error::CorruptMeta => "corrupt meta page",
            Error::InvalidPageId => "invalid page id",
        }
    }
}

} // verus!
