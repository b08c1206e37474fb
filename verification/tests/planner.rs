use memento::codec::decode_header;
use memento::errors::ValidationError;
use memento::planner::{compute_offsets, create, is_unit_fraction, plan, validate};
use memento::types::{AggregationType, ArchiveInfo, Metadata};

fn fixture_infos() -> Vec<ArchiveInfo> {
    vec![
        ArchiveInfo::new(76, 10, 8640),
        ArchiveInfo::new(103756, 60, 10080),
        ArchiveInfo::new(224716, 300, 8640),
        ArchiveInfo::new(328396, 600, 25920),
        ArchiveInfo::new(639436, 3600, 8760),
    ]
}

fn metadata(xff: f32, count: u32, max_retention: u32) -> Metadata {
    Metadata::new(AggregationType::Average, max_retention, xff.to_bits(), count)
}

#[test]
fn the_fixture_is_valid() {
    assert_eq!(Ok(()), validate(&metadata(0.5, 5, 31536000), &fixture_infos()));
}

#[test]
fn an_empty_list_is_refused() {
    assert_eq!(Err(ValidationError::EmptyArchiveList), validate(&metadata(0.5, 0, 0), &[]));
    assert_eq!(Err(ValidationError::EmptyArchiveList), validate(&metadata(7.0, 3, 0), &[]));
}

#[test]
fn x_files_factor_outside_the_unit_interval_is_refused() {
    let infos = fixture_infos();
    for xff in [1.5f32, -0.1, 1.0000001, f32::NAN, f32::INFINITY, f32::NEG_INFINITY, -1.0] {
        assert_eq!(
            Err(ValidationError::InvalidXFilesFactor),
            validate(&metadata(xff, 5, 31536000), &infos),
            "{}",
            xff
        );
    }
}

#[test]
fn x_files_factor_within_the_unit_interval_is_accepted() {
    let infos = fixture_infos();
    for xff in [0.0f32, -0.0, 1.0, 0.5, f32::MIN_POSITIVE, 1e-45, 0.99999994] {
        assert_eq!(Ok(()), validate(&metadata(xff, 5, 31536000), &infos), "{}", xff);
    }
}

#[test]
fn unit_fraction_by_bits() {
    assert!(is_unit_fraction(0));
    assert!(is_unit_fraction(0x3f80_0000));
    assert!(!is_unit_fraction(0x3f80_0001));
    assert!(is_unit_fraction(0x8000_0000));
    assert!(!is_unit_fraction(0x8000_0001));
    assert!(!is_unit_fraction(0x7fc0_0000));
    assert!(!is_unit_fraction(u32::MAX));
}

#[test]
fn a_wrong_count_is_refused() {
    assert_eq!(
        Err(ValidationError::ArchiveCountMismatch),
        validate(&metadata(0.5, 4, 31536000), &fixture_infos())
    );
}

#[test]
fn descending_steps_are_refused() {
    let infos = vec![ArchiveInfo::new(40, 60, 100), ArchiveInfo::new(1240, 10, 1000)];
    assert_eq!(
        Err(ValidationError::NonAscendingPrecision),
        validate(&metadata(0.5, 2, 10000), &infos)
    );
}

#[test]
fn equal_steps_are_refused() {
    let infos = vec![ArchiveInfo::new(40, 60, 100), ArchiveInfo::new(1240, 60, 1000)];
    assert_eq!(
        Err(ValidationError::NonAscendingPrecision),
        validate(&metadata(0.5, 2, 60000), &infos)
    );
}

#[test]
fn a_zero_step_is_refused() {
    let infos = vec![ArchiveInfo::new(28, 0, 100)];
    assert_eq!(Err(ValidationError::NonAscendingPrecision), validate(&metadata(0.5, 1, 0), &infos));
}

#[test]
fn a_step_ratio_that_is_no_integer_is_refused() {
    let infos = vec![ArchiveInfo::new(40, 10, 100), ArchiveInfo::new(1240, 25, 1000)];
    assert_eq!(Err(ValidationError::NonDivisibleStep), validate(&metadata(0.5, 2, 25000), &infos));
}

#[test]
fn a_retention_that_does_not_grow_is_refused() {
    let infos = vec![ArchiveInfo::new(40, 10, 100), ArchiveInfo::new(1240, 20, 50)];
    assert_eq!(Err(ValidationError::RetentionTooShort), validate(&metadata(0.5, 2, 1000), &infos));
    let infos = vec![ArchiveInfo::new(40, 10, 100), ArchiveInfo::new(1240, 20, 40)];
    assert_eq!(Err(ValidationError::RetentionTooShort), validate(&metadata(0.5, 2, 800), &infos));
}

#[test]
fn an_archive_without_points_is_refused() {
    let infos = vec![ArchiveInfo::new(28, 10, 0)];
    assert_eq!(Err(ValidationError::RetentionTooShort), validate(&metadata(0.5, 1, 0), &infos));
}

#[test]
fn a_wrong_maximal_retention_is_refused() {
    assert_eq!(
        Err(ValidationError::MaxRetentionMismatch),
        validate(&metadata(0.5, 5, 31535999), &fixture_infos())
    );
    let infos = vec![ArchiveInfo::new(28, 65536, 65536)];
    assert_eq!(Err(ValidationError::MaxRetentionMismatch), validate(&metadata(0.5, 1, 0), &infos));
}

#[test]
fn the_first_faulty_archive_decides() {
    let infos = vec![
        ArchiveInfo::new(0, 10, 100),
        ArchiveInfo::new(0, 25, 1000),
        ArchiveInfo::new(0, 5, 1),
    ];
    assert_eq!(Err(ValidationError::NonDivisibleStep), validate(&metadata(0.5, 3, 5), &infos));
    let infos = vec![
        ArchiveInfo::new(0, 10, 100),
        ArchiveInfo::new(0, 5, 1000),
        ArchiveInfo::new(0, 7, 1000),
    ];
    assert_eq!(Err(ValidationError::NonAscendingPrecision), validate(&metadata(0.5, 3, 7000), &infos));
}

#[test]
fn validation_does_not_look_at_offsets() {
    let infos = vec![ArchiveInfo::new(999, 10, 100), ArchiveInfo::new(3, 20, 100)];
    assert_eq!(Ok(()), validate(&metadata(0.5, 2, 2000), &infos));
}

#[test]
fn offsets_follow_the_header_and_one_another() {
    let schema: Vec<ArchiveInfo> =
        fixture_infos().iter().map(|a| ArchiveInfo::new(0, a.seconds_per_point(), a.num_points())).collect();
    assert_eq!(Some(fixture_infos()), compute_offsets(&schema));
    assert_eq!(Some(vec![]), compute_offsets(&[]));
    assert_eq!(Some(vec![ArchiveInfo::new(28, 1, 0)]), compute_offsets(&[ArchiveInfo::new(5, 1, 0)]));
}

#[test]
fn offsets_beyond_32_bits_are_refused() {
    let schema = vec![ArchiveInfo::new(0, 1, 357913937), ArchiveInfo::new(0, 2, 357913937)];
    assert_eq!(
        Some(vec![ArchiveInfo::new(40, 1, 357913937), ArchiveInfo::new(4294967284, 2, 357913937)]),
        compute_offsets(&schema)
    );
    let schema = vec![ArchiveInfo::new(0, 1, 357913938), ArchiveInfo::new(0, 2, 357913938)];
    assert_eq!(None, compute_offsets(&schema));
    let schema = vec![ArchiveInfo::new(0, 1, u32::MAX), ArchiveInfo::new(0, 2, u32::MAX)];
    assert_eq!(None, compute_offsets(&schema));
}

#[test]
fn the_last_archive_may_end_beyond_32_bits() {
    let schema = vec![ArchiveInfo::new(0, 1, u32::MAX)];
    assert_eq!(Some(vec![ArchiveInfo::new(28, 1, u32::MAX)]), compute_offsets(&schema));
}

#[test]
fn plan_builds_the_fixture() {
    let schema: Vec<ArchiveInfo> =
        fixture_infos().iter().map(|a| ArchiveInfo::new(0, a.seconds_per_point(), a.num_points())).collect();
    let header = plan(AggregationType::Average, 0.5f32.to_bits(), &schema).unwrap();
    assert_eq!(&metadata(0.5, 5, 31536000), header.metadata());
    assert_eq!(&fixture_infos()[..], header.archive_info());
    assert_eq!(76, header.size());
    assert_eq!(744556, header.file_size());
    assert!(header.is_chained());
}

#[test]
fn plan_refuses_what_validation_refuses() {
    let xff = 0.5f32.to_bits();
    let kind = AggregationType::Sum;
    assert_eq!(Err(ValidationError::EmptyArchiveList), plan(kind, xff, &[]));
    assert_eq!(
        Err(ValidationError::InvalidXFilesFactor),
        plan(kind, 2.0f32.to_bits(), &[ArchiveInfo::new(0, 10, 6)])
    );
    assert_eq!(
        Err(ValidationError::NonAscendingPrecision),
        plan(kind, xff, &[ArchiveInfo::new(0, 60, 100), ArchiveInfo::new(0, 10, 1000)])
    );
    assert_eq!(
        Err(ValidationError::NonDivisibleStep),
        plan(kind, xff, &[ArchiveInfo::new(0, 10, 100), ArchiveInfo::new(0, 25, 1000)])
    );
    assert_eq!(
        Err(ValidationError::RetentionTooShort),
        plan(kind, xff, &[ArchiveInfo::new(0, 10, 100), ArchiveInfo::new(0, 20, 50)])
    );
}

#[test]
fn plan_refuses_what_does_not_fit_32_bits() {
    let xff = 0.5f32.to_bits();
    let kind = AggregationType::Sum;
    assert_eq!(Err(ValidationError::TooLarge), plan(kind, xff, &[ArchiveInfo::new(0, 65536, 65536)]));
    assert_eq!(
        Err(ValidationError::TooLarge),
        plan(kind, xff, &[ArchiveInfo::new(0, 1, 357913939), ArchiveInfo::new(0, 2, 357913939)])
    );
}

#[test]
fn create_gives_the_header_and_zeros() {
    let schema = vec![ArchiveInfo::new(0, 10, 6), ArchiveInfo::new(0, 30, 4)];
    let image = create(AggregationType::Min, 0.25f32.to_bits(), &schema).unwrap();
    assert_eq!(40 + 72 + 48, image.len());
    let header = decode_header(&image).unwrap();
    assert_eq!(&Metadata::new(AggregationType::Min, 120, 0.25f32.to_bits(), 2), header.metadata());
    assert_eq!(&[ArchiveInfo::new(40, 10, 6), ArchiveInfo::new(112, 30, 4)][..], header.archive_info());
    assert!(image[40..].iter().all(|b| *b == 0));
    assert_eq!(Ok(()), validate(header.metadata(), header.archive_info()));
}

#[test]
fn create_refuses_an_invalid_schema() {
    let schema = vec![ArchiveInfo::new(0, 10, 6), ArchiveInfo::new(0, 25, 4)];
    assert_eq!(
        Err(ValidationError::NonDivisibleStep),
        create(AggregationType::Min, 0.25f32.to_bits(), &schema)
    );
}
