//! Types shared by the whole index.

use vstd::prelude::*;

verus! {

/// What kind of filesystem object an entry describes.
///
/// The variants are listed in their sort order: files come before
/// directories, directories before symlinks.
#[derive(Debug, Clone, Copy, PartialEq, Eq, Structural, PartialOrd, Ord, Hash)]
pub enum Kind {
    File,
    Directory,
    Symlink,
}

impl Kind {
    /// The byte that stands for the kind in a stored record.
    pub open spec fn spec_into(self) -> u8 {
        match self {
            Kind::File => 0,
            Kind::Directory => 1,
            Kind::Symlink => 2,
        }
    }

    /// The kind that a stored byte stands for, if it stands for one.
    pub open spec fn spec_from_byte(value: u8) -> Option<Kind> {
        if value == 0 {
            Some(Kind::File)
        } else if value == 1 {
            Some(Kind::Directory)
        } else if value == 2 {
            Some(Kind::Symlink)
        } else {
            None
        }
    }

    /// Reads a kind from its byte, or answers `None` for a byte that no kind
    /// is stored as.
    pub fn from_byte(value: u8) -> (kind: Option<Kind>)
        ensures
            kind == Kind::spec_from_byte(value),
    {
        match value {
            0 => Some(Kind::File),
            1 => Some(Kind::Directory),
            2 => Some(Kind::Symlink),
            _ => None,
        }
    }

    /// Reads a kind from a byte that is known to stand for one.
    pub fn from(value: u8) -> (kind: Kind)
        requires
            value <= 2,
        ensures
            Some(kind) == Kind::spec_from_byte(value),
            kind.spec_into() == value,
    {
        match value {
            0 => Kind::File,
            1 => Kind::Directory,
            _ => Kind::Symlink,
        }
    }

    /// The byte that stands for the kind in a stored record.
    #[verifier::when_used_as_spec(spec_into)]
    pub fn into(self) -> (value: u8)
        ensures
            value == self.spec_into(),
            value <= 2,
            Kind::spec_from_byte(value) == Some(self),
    {
        match self {
            Kind::File => 0,
            Kind::Directory => 1,
            Kind::Symlink => 2,
        }
    }
}

} // verus!
