use vstd::prelude::*;

use crate::error::Error;
use crate::version::ArchiveVersion;

verus! {

/// Optional archive features a writer may be asked to produce.
#[derive(Debug, Clone, Copy, PartialEq, Eq, Structural)]
pub struct FeatureSet {
    /// Solid compression: members share one adaptive decoder state.
    pub solid: bool,
    /// A (packed) archive comment in the main header.
    pub archive_comment: bool,
    /// Per-file comments in the file headers.
    pub file_comment: bool,
    /// A self-extracting stub in front of the archive.
    pub sfx: bool,
    /// The RAR 1.3 authenticity verification block.
    pub authenticity_verification: bool,
    /// Quick-open records, a RAR 5 feature.
    pub quick_open: bool,
}

impl FeatureSet {
    /// The feature set of a plain archive: nothing optional enabled.
    pub fn store_only() -> (features: FeatureSet)
        ensures
            !features.solid,
            !features.archive_comment,
            !features.file_comment,
            !features.sfx,
            !features.authenticity_verification,
            !features.quick_open,
    {
        FeatureSet {
            solid: false,
            archive_comment: false,
            file_comment: false,
            sfx: false,
            authenticity_verification: false,
            quick_open: false,
        }
    }

    /// Whether every enabled feature exists in the given format version.
    pub open spec fn spec_valid_for(self, version: ArchiveVersion) -> bool {
        !self.quick_open
    }

    /// Rejects features that the RAR 1.3 family cannot express.
    pub fn validate_for(&self, version: ArchiveVersion) -> (result: Result<(), Error>)
        ensures
            result is Ok <==> self.spec_valid_for(version),
            result is Err ==> result == Err::<(), Error>(
                Error::UnsupportedFeature { version, feature: "quick_open" },
            ),
    {
        if self.quick_open {
            return Err(Error::UnsupportedFeature { version, feature: "quick_open" });
        }
        Ok(())
    }
}

} // verus!
