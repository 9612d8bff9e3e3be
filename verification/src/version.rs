use vstd::prelude::*;

verus! {

/// The archive family: every archive this crate handles starts with `RE~^`.
#[derive(Debug, Clone, Copy, PartialEq, Eq, Structural)]
pub enum ArchiveFamily {
    Rar13,
}

/// The concrete format version inside the family.
#[derive(Debug, Clone, Copy, PartialEq, Eq, Structural)]
pub enum ArchiveVersion {
    Rar13,
    Rar14,
}

impl ArchiveVersion {
    /// Every supported version belongs to the RAR 1.3 family.
    pub fn family(self) -> (family: ArchiveFamily)
        ensures
            family == ArchiveFamily::Rar13,
    {
        ArchiveFamily::Rar13
    }

    /// True for both versions of the family.
    pub fn is_rar13_family(self) -> (result: bool)
        ensures
            result == (self is Rar13 || self is Rar14),
    {
        match self {
            ArchiveVersion::Rar13 => true,
            ArchiveVersion::Rar14 => true,
        }
    }
}

} // verus!
