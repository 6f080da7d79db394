use pair_counts::errors::CountError;
use pair_counts::extract::TagLookup;
use pair_counts::extract::process_record;
use pair_counts::extract::record_passes;
use pair_counts::extract::too_many_hits;
use pair_counts::hits::HitMapping;

#[test]
fn too_many_hits_compares_against_threshold() {
    assert_eq!(too_many_hits(TagLookup::Int(3), 2), Ok(true));
    assert_eq!(too_many_hits(TagLookup::Int(2), 2), Ok(false));
    assert_eq!(too_many_hits(TagLookup::Int(0), 2), Ok(false));
}

#[test]
fn too_many_hits_rejects_malformed_tags() {
    assert_eq!(
        too_many_hits(TagLookup::NotAnInt, 2),
        Err(CountError::NonIntegerTag)
    );
    assert_eq!(
        too_many_hits(TagLookup::Failed, 2),
        Err(CountError::TagLookupFailed)
    );
    assert_eq!(
        too_many_hits(TagLookup::Absent, 2),
        Err(CountError::MissingTag)
    );
}

#[test]
fn filter_skips_unmapped_and_secondary_without_reading_tag() {
    // the tag is only consulted on mapped, non-secondary records
    assert_eq!(record_passes(true, false, TagLookup::Absent, 2), Ok(false));
    assert_eq!(record_passes(false, true, TagLookup::NotAnInt, 2), Ok(false));
}

#[test]
fn filter_accepts_within_threshold() {
    assert_eq!(record_passes(false, false, TagLookup::Int(2), 2), Ok(true));
    assert_eq!(record_passes(false, false, TagLookup::Int(3), 2), Ok(false));
}

#[test]
fn filter_propagates_tag_errors_on_counted_records() {
    assert_eq!(
        record_passes(false, false, TagLookup::Absent, 2),
        Err(CountError::MissingTag)
    );
}

#[test]
fn process_record_inserts_passing_hits() {
    let mut map = HitMapping::new();
    let r = process_record(
        &mut map,
        String::from("f1"),
        Some(4),
        false,
        false,
        TagLookup::Int(1),
        2,
    );
    assert_eq!(r, Ok(()));
    let hits = map.get(&String::from("f1")).unwrap();
    assert_eq!(hits, &vec![4usize]);
}

#[test]
fn process_record_ignores_filtered_records() {
    let mut map = HitMapping::new();
    assert_eq!(
        process_record(
            &mut map,
            String::from("f1"),
            Some(4),
            true,
            false,
            TagLookup::Int(1),
            2
        ),
        Ok(())
    );
    assert_eq!(
        process_record(
            &mut map,
            String::from("f1"),
            Some(4),
            false,
            false,
            TagLookup::Int(9),
            2
        ),
        Ok(())
    );
    assert!(map.get(&String::from("f1")).is_none());
}

#[test]
fn process_record_demands_reference_id_on_passing_records() {
    let mut map = HitMapping::new();
    assert_eq!(
        process_record(
            &mut map,
            String::from("f1"),
            None,
            false,
            false,
            TagLookup::Int(0),
            2
        ),
        Err(CountError::MissingReferenceId)
    );
}

#[test]
fn process_record_propagates_tag_errors() {
    let mut map = HitMapping::new();
    assert_eq!(
        process_record(
            &mut map,
            String::from("f1"),
            Some(0),
            false,
            false,
            TagLookup::NotAnInt,
            2
        ),
        Err(CountError::NonIntegerTag)
    );
}
