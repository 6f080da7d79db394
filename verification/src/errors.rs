use vstd::prelude::*;

verus! {

/// Why a counting run fails: format trouble with the mismatch tag on a
/// record, a record that passed the filter without carrying a reference id,
/// a configuration mismatch between the two reference panels, or an
/// internal-consistency breach where a counted reference id has no name.
#[derive(Clone, Copy, PartialEq, Eq, Structural, Debug)]
pub enum CountError {
    /// A record that must carry the mismatch tag does not.
    MissingTag,
    /// The mismatch tag is present but its value is not an integer.
    NonIntegerTag,
    /// The mismatch tag data could not be decoded.
    TagLookupFailed,
    /// A record passed the filter yet carries no reference-sequence id.
    MissingReferenceId,
    /// Paired completion was requested but the two panels differ in size.
    PanelSizeMismatch { len_a: usize, len_b: usize },
    /// A counted pair points outside a reference-name list.
    ReferenceIdOutOfRange { a: usize, b: usize },
}

} // verus!
