use vstd::prelude::*;
use crate::errors::CountError;
use crate::hits::HitMapping;
use crate::hits::hits_inserted;

verus! {

/// What looking the mismatch tag up on one alignment record yielded. The
/// caller performs the lookup on the decoded record and hands the outcome
/// over as a plain value; the filtering decision is made here.
#[derive(Clone, Copy, PartialEq, Eq, Structural, Debug)]
pub enum TagLookup {
    /// The tag is present with this integer value.
    Int(i64),
    /// The tag is present but its value is not an integer.
    NotAnInt,
    /// The tag data could not be decoded.
    Failed,
    /// The record does not carry the tag.
    Absent,
}

/// Whether a record with this tag outcome has more mismatches than allowed.
/// Anything but an integer tag value is a format error.
pub fn too_many_hits(tag: TagLookup, n_mismatch: i64) -> (r: Result<bool, CountError>)
    ensures
        r == match tag {
            TagLookup::Int(v) => Ok::<bool, CountError>(v > n_mismatch),
            TagLookup::NotAnInt => Err::<bool, CountError>(CountError::NonIntegerTag),
            TagLookup::Failed => Err::<bool, CountError>(CountError::TagLookupFailed),
            TagLookup::Absent => Err::<bool, CountError>(CountError::MissingTag),
        },
{
    match tag {
        TagLookup::Int(v) => Ok(v > n_mismatch),
        TagLookup::NotAnInt => Err(CountError::NonIntegerTag),
        TagLookup::Failed => Err(CountError::TagLookupFailed),
        TagLookup::Absent => Err(CountError::MissingTag),
    }
}

/// A record counts when it is mapped, not secondary, and its mismatch tag
/// value does not exceed the threshold.
pub open spec fn passes_filter(
    unmapped: bool,
    secondary: bool,
    tag: TagLookup,
    n_mismatch: int,
) -> bool {
    &&& !unmapped
    &&& !secondary
    &&& tag matches TagLookup::Int(v) && v <= n_mismatch
}

/// The filtering decision for one record. The tag is only consulted on
/// mapped, non-secondary records, so a malformed tag elsewhere is no error.
pub fn record_passes(
    unmapped: bool,
    secondary: bool,
    tag: TagLookup,
    n_mismatch: i64,
) -> (r: Result<bool, CountError>)
    ensures
        unmapped || secondary ==> r == Ok::<bool, CountError>(false),
        !unmapped && !secondary ==> r == match tag {
            TagLookup::Int(v) => Ok::<bool, CountError>(v <= n_mismatch),
            TagLookup::NotAnInt => Err::<bool, CountError>(CountError::NonIntegerTag),
            TagLookup::Failed => Err::<bool, CountError>(CountError::TagLookupFailed),
            TagLookup::Absent => Err::<bool, CountError>(CountError::MissingTag),
        },
        r matches Ok(p) ==> p == passes_filter(unmapped, secondary, tag, n_mismatch as int),
{
    if unmapped || secondary {
        Ok(false)
    } else {
        match too_many_hits(tag, n_mismatch) {
            Ok(too_many) => Ok(!too_many),
            Err(e) => Err(e),
        }
    }
}

/// One record's contribution to a stream's hit mapping: apply the filter
/// and, when the record passes, note its reference hit under its read
/// name. The caller decodes the record and hands its fields over as plain
/// values; a passing record without a reference id is a format error.
pub fn process_record(
    map: &mut HitMapping,
    read_name: String,
    ref_id: Option<usize>,
    unmapped: bool,
    secondary: bool,
    tag: TagLookup,
    n_mismatch: i64,
) -> (r: Result<(), CountError>)
    requires
        old(map).wf(),
    ensures
        final(map).wf(),
        unmapped || secondary ==> r == Ok::<(), CountError>(()) && final(map)@ == old(map)@,
        !unmapped && !secondary && !(tag is Int) ==> final(map)@ == old(map)@ && r == match tag {
            TagLookup::Int(_) => Ok::<(), CountError>(()),
            TagLookup::NotAnInt => Err::<(), CountError>(CountError::NonIntegerTag),
            TagLookup::Failed => Err::<(), CountError>(CountError::TagLookupFailed),
            TagLookup::Absent => Err::<(), CountError>(CountError::MissingTag),
        },
        (!unmapped && !secondary && (tag matches TagLookup::Int(v) && v > n_mismatch)) ==> r
            == Ok::<(), CountError>(()) && final(map)@ == old(map)@,
        passes_filter(unmapped, secondary, tag, n_mismatch as int) && ref_id is None ==> r == Err::<
            (),
            CountError,
        >(CountError::MissingReferenceId) && final(map)@ == old(map)@,
        (passes_filter(unmapped, secondary, tag, n_mismatch as int) && (ref_id matches Some(id)
            && r == Ok::<(), CountError>(()) && final(map)@ == hits_inserted(
            old(map)@,
            read_name@,
            id as int,
        ))) || !(passes_filter(unmapped, secondary, tag, n_mismatch as int) && ref_id is Some),
{
    match record_passes(unmapped, secondary, tag, n_mismatch) {
        Err(e) => Err(e),
        Ok(false) => Ok(()),
        Ok(true) => match ref_id {
            None => Err(CountError::MissingReferenceId),
            Some(id) => {
                map.insert(read_name, id);
                Ok(())
            },
        },
    }
}

} // verus!
