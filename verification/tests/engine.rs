use memento::codec::{decode_header, decode_point};
use memento::errors::RangeError;
use memento::fetch::{fetch, read_sample, select_archive};
use memento::planner::create;
use memento::types::{AggregationType, ArchiveInfo, Header, Point};
use memento::write::{
    check_batch, check_timestamp, propagate, propagate_step, reaches_threshold, record, rollup,
    sort_points, store, store_rollup, update, update_many, Rollup,
};

fn combine(r: &Rollup) -> u64 {
    let values: Vec<f64> = r.points.iter().map(|p| f64::from_bits(p.value())).collect();
    let sum: f64 = values.iter().sum();
    let by_magnitude = |pick_larger: bool| {
        let mut best = f64::NAN;
        for v in values.iter() {
            if best.is_nan() || (v.abs() > best.abs()) == pick_larger {
                best = *v;
            }
        }
        best
    };
    let out = match r.aggregation {
        AggregationType::Average => sum / values.len() as f64,
        AggregationType::Sum => sum,
        AggregationType::Last => values.last().copied().unwrap_or(f64::NAN),
        AggregationType::Max => values.iter().copied().fold(f64::NAN, f64::max),
        AggregationType::Min => values.iter().copied().fold(f64::NAN, f64::min),
        AggregationType::AvgZero => sum / r.expected as f64,
        AggregationType::AbsMax => by_magnitude(true),
        AggregationType::AbsMin => by_magnitude(false),
    };
    out.to_bits()
}

fn new_file(kind: AggregationType, xff: f32, schema: &[(u32, u32)]) -> (Vec<u8>, Header) {
    let infos: Vec<ArchiveInfo> = schema.iter().map(|(s, n)| ArchiveInfo::new(0, *s, *n)).collect();
    let image = create(kind, xff.to_bits(), &infos).unwrap();
    let header = decode_header(&image).unwrap();
    (image, header)
}

fn two_tiers(kind: AggregationType, xff: f32) -> (Vec<u8>, Header) {
    new_file(kind, xff, &[(10, 12), (40, 6)])
}

fn bits(v: f64) -> u64 {
    v.to_bits()
}

fn absent(times: &[u32]) -> Vec<(u32, Option<u64>)> {
    times.iter().map(|t| (*t, None)).collect()
}

#[test]
fn fetch_on_a_fresh_file_is_all_absent() {
    let (image, header) = two_tiers(AggregationType::Average, 0.5);
    assert_eq!(256, image.len());
    let series = fetch(&image, &header, 900, 1000, 1000).unwrap();
    assert_eq!(absent(&[900, 910, 920, 930, 940, 950, 960, 970, 980, 990]), series);
    let series = fetch(&image, &header, 800, 1000, 1000).unwrap();
    assert_eq!(absent(&[800, 840, 880, 920, 960]), series);
}

#[test]
fn time_zero_reads_the_zero_fill() {
    let (image, header) = two_tiers(AggregationType::Average, 0.5);
    let series = fetch(&image, &header, 0, 50, 60).unwrap();
    assert_eq!(vec![(0, Some(0)), (10, None), (20, None), (30, None), (40, None)], series);
}

#[test]
fn fetch_refuses_an_interval_that_does_not_end_after_its_start() {
    let (image, header) = two_tiers(AggregationType::Average, 0.5);
    assert_eq!(Err(RangeError::InvalidInterval), fetch(&image, &header, 1000, 1000, 1000));
    assert_eq!(Err(RangeError::InvalidInterval), fetch(&image, &header, 1000, 900, 1000));
    assert_eq!(Err(RangeError::InvalidInterval), fetch(&image, &header, 0, 0, 0));
}

#[test]
fn fetch_aligns_both_bounds_down() {
    let (image, header) = two_tiers(AggregationType::Average, 0.5);
    let series = fetch(&image, &header, 903, 958, 1000).unwrap();
    assert_eq!(absent(&[900, 910, 920, 930, 940]), series);
    let series = fetch(&image, &header, 903, 909, 1000).unwrap();
    assert_eq!(absent(&[]), series);
}

#[test]
fn fetch_takes_the_finest_archive_that_covers_the_start() {
    let (image, header) = two_tiers(AggregationType::Average, 0.5);
    let series = fetch(&image, &header, 880, 920, 1000).unwrap();
    assert_eq!(absent(&[880, 890, 900, 910]), series);
    let series = fetch(&image, &header, 879, 920, 1000).unwrap();
    assert_eq!(absent(&[840, 880]), series);
    assert_eq!(0, select_archive(header.archive_info(), 0));
    assert_eq!(0, select_archive(header.archive_info(), 120));
    assert_eq!(1, select_archive(header.archive_info(), 121));
    assert_eq!(1, select_archive(header.archive_info(), 240));
    assert_eq!(1, select_archive(header.archive_info(), 241));
    assert_eq!(1, select_archive(header.archive_info(), u32::MAX));
}

#[test]
fn fetch_clamps_a_start_beyond_the_retention() {
    let (image, header) = two_tiers(AggregationType::Average, 0.5);
    let series = fetch(&image, &header, 9000, 10000, 10000).unwrap();
    assert_eq!(absent(&[9760, 9800, 9840, 9880, 9920, 9960]), series);
    let series = fetch(&image, &header, 0, 10, 10000).unwrap();
    assert_eq!(absent(&[]), series);
}

#[test]
fn fetch_from_the_future_reads_the_finest_archive() {
    let (image, header) = two_tiers(AggregationType::Average, 0.5);
    let series = fetch(&image, &header, 2000, 2030, 1000).unwrap();
    assert_eq!(absent(&[2000, 2010, 2020]), series);
}

#[test]
fn write_then_fetch_gives_the_value_bit_by_bit() {
    for v in [0.1f64 + 0.2, -0.0, f64::MIN_POSITIVE, 1.7976931348623157e308, f64::INFINITY, 45.9] {
        let (mut image, header) = two_tiers(AggregationType::Average, 0.5);
        assert_eq!(Ok(()), record(&mut image, &header, 960, bits(v), 1000));
        let series = fetch(&image, &header, 960, 970, 1000).unwrap();
        assert_eq!(vec![(960, Some(bits(v)))], series);
    }
    let (mut image, header) = two_tiers(AggregationType::Average, 0.5);
    assert_eq!(Ok(()), record(&mut image, &header, 960, f64::NAN.to_bits(), 1000));
    assert_eq!(vec![(960, Some(f64::NAN.to_bits()))], fetch(&image, &header, 960, 970, 1000).unwrap());
}

#[test]
fn a_point_goes_into_the_slot_of_its_time() {
    let (mut image, header) = two_tiers(AggregationType::Average, 0.5);
    let before = image.clone();
    assert_eq!(Ok(()), record(&mut image, &header, 970, 7, 1000));
    let at = 40 + 12 * ((970 / 10) % 12);
    assert_eq!(Some(Point::new(970, 7)), decode_point(&image, at));
    assert_eq!(&before[..at], &image[..at]);
    assert_eq!(&before[at + 12..], &image[at + 12..]);
}

#[test]
fn a_time_between_steps_is_stored_as_given() {
    let (mut image, header) = two_tiers(AggregationType::Average, 0.5);
    assert_eq!(Ok(()), record(&mut image, &header, 965, 7, 1000));
    let at = 40 + 12 * ((965 / 10) % 12);
    assert_eq!(Some(Point::new(965, 7)), decode_point(&image, at));
    assert_eq!(vec![(960, None)], fetch(&image, &header, 960, 970, 1000).unwrap());
    assert_eq!(Some(7), read_sample(&image, &header.archive_info()[0], 965));
}

#[test]
fn a_later_write_takes_the_slot() {
    let (mut image, header) = two_tiers(AggregationType::Average, 0.5);
    assert_eq!(Ok(()), record(&mut image, &header, 960, 1, 1000));
    assert_eq!(Ok(()), record(&mut image, &header, 960, 2, 1000));
    assert_eq!(vec![(960, Some(2))], fetch(&image, &header, 960, 970, 1000).unwrap());
}

#[test]
fn timestamps_outside_the_window_are_refused() {
    let (mut image, header) = two_tiers(AggregationType::Average, 0.5);
    let before = image.clone();
    assert_eq!(Err(RangeError::TimestampInFuture), record(&mut image, &header, 1001, 1, 1000));
    assert_eq!(Err(RangeError::TimestampTooOld), record(&mut image, &header, 759, 1, 1000));
    assert_eq!(Err(RangeError::TimestampTooOld), record(&mut image, &header, 0, 1, 1000));
    assert_eq!(Err(RangeError::TimestampInFuture), update(&mut image, &header, 1001, 1, 1000, &combine));
    assert_eq!(Err(RangeError::TimestampTooOld), update(&mut image, &header, 759, 1, 1000, &combine));
    assert_eq!(before, image);
    assert_eq!(Ok(()), check_timestamp(&header, 760, 1000));
    assert_eq!(Ok(()), check_timestamp(&header, 1000, 1000));
    assert_eq!(Err(RangeError::TimestampTooOld), check_timestamp(&header, 759, 1000));
    assert_eq!(Err(RangeError::TimestampInFuture), check_timestamp(&header, 1001, 1000));
    assert_eq!(Err(RangeError::TimestampInFuture), check_timestamp(&header, u32::MAX, 0));
}

#[test]
fn two_of_four_points_reach_a_threshold_of_one_half() {
    let (mut image, header) = two_tiers(AggregationType::Average, 0.5);
    let coarse = header.archive_info()[1];
    assert_eq!(Ok(()), update(&mut image, &header, 960, bits(10.0), 1000, &combine));
    assert_eq!(None, read_sample(&image, &coarse, 960));
    assert_eq!(Ok(()), update(&mut image, &header, 970, bits(20.0), 1000, &combine));
    assert_eq!(Some(bits(15.0)), read_sample(&image, &coarse, 960));
    let series = fetch(&image, &header, 800, 1000, 1000).unwrap();
    assert_eq!(
        vec![(800, None), (840, None), (880, None), (920, None), (960, Some(bits(15.0)))],
        series
    );
}

#[test]
fn one_of_four_points_does_not_reach_a_threshold_of_one_half() {
    let (mut image, header) = two_tiers(AggregationType::Average, 0.5);
    let before = image.clone();
    assert_eq!(Ok(()), update(&mut image, &header, 980, bits(10.0), 1000, &combine));
    assert_eq!(&before[184..], &image[184..]);
    assert_eq!(None, rollup(&image, &header, 0, 980));
    let up = rollup(&image, &header, 0, 980);
    assert!(up.is_none());
}

#[test]
fn the_threshold_is_compared_exactly() {
    let half = 0.5f32.to_bits();
    assert!(reaches_threshold(2, 4, half));
    assert!(!reaches_threshold(1, 4, half));
    assert!(reaches_threshold(4, 4, 1.0f32.to_bits()));
    assert!(!reaches_threshold(3, 4, 1.0f32.to_bits()));
    assert!(reaches_threshold(3, 4, 0.75f32.to_bits()));
    assert!(!reaches_threshold(2, 4, 0.75f32.to_bits()));
    assert!(reaches_threshold(0, 4, 0.0f32.to_bits()));
    assert!(reaches_threshold(0, 4, (-0.0f32).to_bits()));
    assert!(!reaches_threshold(0, 4, 1));
    assert!(reaches_threshold(1, u32::MAX, 1));
    assert!(reaches_threshold(1, u32::MAX, 2.3e-10f32.to_bits()));
    assert!(!reaches_threshold(1, u32::MAX, 2.4e-10f32.to_bits()));
    assert!(!reaches_threshold(1, 10, 0.1f32.to_bits()));
    assert!(reaches_threshold(1, 10, 0.099999994f32.to_bits()));
    assert!(!reaches_threshold(1, 3, 0.33333334f32.to_bits()));
    assert!(reaches_threshold(1, 3, 0.3333333f32.to_bits()));
    assert!(reaches_threshold(u32::MAX, u32::MAX, 1.0f32.to_bits()));
    assert!(!reaches_threshold(u32::MAX - 1, u32::MAX, 1.0f32.to_bits()));
    assert!(reaches_threshold(1, 4194304, 2.3841858e-7f32.to_bits()));
    assert!(!reaches_threshold(1, 4194305, 2.3841858e-7f32.to_bits()));
}

#[test]
fn rollup_hands_out_the_points_in_the_order_of_their_times() {
    let (mut image, header) = two_tiers(AggregationType::Sum, 0.5);
    assert_eq!(Ok(()), record(&mut image, &header, 990, 3, 1000));
    assert_eq!(Ok(()), record(&mut image, &header, 960, 1, 1000));
    assert_eq!(Ok(()), record(&mut image, &header, 950, 9, 1000));
    assert_eq!(Ok(()), record(&mut image, &header, 975, 5, 1000));
    let up = rollup(&image, &header, 0, 985).unwrap();
    assert_eq!(
        Rollup {
            aggregation: AggregationType::Sum,
            lower: 960,
            expected: 4,
            points: vec![Point::new(960, 1), Point::new(990, 3)],
        },
        up
    );
}

#[test]
fn a_threshold_of_zero_rolls_up_nothing_at_all() {
    let (image, header) = two_tiers(AggregationType::Sum, 0.0);
    let up = rollup(&image, &header, 0, 985).unwrap();
    assert_eq!(960, up.lower);
    assert_eq!(4, up.expected);
    assert!(up.points.is_empty());
}

#[test]
fn store_rollup_writes_at_the_start_of_the_interval() {
    let (mut image, header) = two_tiers(AggregationType::Sum, 0.5);
    store_rollup(&mut image, &header, 0, 995, 77);
    let at = 184 + 12 * ((960 / 40) % 6);
    assert_eq!(Some(Point::new(960, 77)), decode_point(&image, at));
    assert_eq!(Some(77), read_sample(&image, &header.archive_info()[1], 960));
}

#[test]
fn store_overwrites_one_slot() {
    let (mut image, header) = two_tiers(AggregationType::Sum, 0.5);
    let before = image.clone();
    let coarse = header.archive_info()[1];
    store(&mut image, &coarse, &Point::new(1000, 0x0102030405060708));
    let at = 184 + 12 * ((1000 / 40) % 6);
    assert_eq!(&[0, 0, 3, 232, 1, 2, 3, 4, 5, 6, 7, 8][..], &image[at..at + 12]);
    assert_eq!(&before[..at], &image[..at]);
    assert_eq!(&before[at + 12..], &image[at + 12..]);
}

#[test]
fn propagate_step_tells_what_it_wrote() {
    let (mut image, header) = two_tiers(AggregationType::Max, 0.5);
    assert_eq!(Ok(()), record(&mut image, &header, 960, bits(1.5), 1000));
    assert_eq!(None, propagate_step(&mut image, &header, 0, 960, &combine));
    assert_eq!(Ok(()), record(&mut image, &header, 990, bits(-4.0), 1000));
    assert_eq!(Some(bits(1.5)), propagate_step(&mut image, &header, 0, 960, &combine));
    assert_eq!(Some(bits(1.5)), read_sample(&image, &header.archive_info()[1], 960));
}

#[test]
fn every_aggregation_is_handed_to_the_caller() {
    let cases = [
        (AggregationType::Average, 1.0),
        (AggregationType::Sum, 3.0),
        (AggregationType::Last, 5.0),
        (AggregationType::Max, 5.0),
        (AggregationType::Min, -6.0),
        (AggregationType::AvgZero, 0.75),
        (AggregationType::AbsMax, -6.0),
        (AggregationType::AbsMin, 4.0),
    ];
    for (kind, expected) in cases {
        let (mut image, header) = two_tiers(kind, 0.5);
        assert_eq!(Ok(()), update(&mut image, &header, 960, bits(4.0), 1000, &combine));
        assert_eq!(Ok(()), update(&mut image, &header, 970, bits(-6.0), 1000, &combine));
        assert_eq!(Ok(()), update(&mut image, &header, 990, bits(5.0), 1000, &combine));
        let got = read_sample(&image, &header.archive_info()[1], 960).map(f64::from_bits);
        assert_eq!(Some(expected), got, "{:?}", kind);
    }
}

#[test]
fn the_roll_up_stops_at_the_first_pair_below_the_threshold() {
    let (mut image, header) = new_file(AggregationType::Sum, 0.5, &[(10, 12), (40, 6), (160, 3)]);
    let middle = header.archive_info()[1];
    let top = header.archive_info()[2];
    store(&mut image, &middle, &Point::new(1000, bits(1.0)));
    store(&mut image, &middle, &Point::new(1040, bits(2.0)));
    assert!(rollup(&image, &header, 1, 1040).is_some());
    assert_eq!(Ok(()), update(&mut image, &header, 1040, bits(8.0), 1050, &combine));
    assert_eq!(Some(bits(2.0)), read_sample(&image, &middle, 1040));
    assert_eq!(None, read_sample(&image, &top, 960));
    assert_eq!(Ok(()), update(&mut image, &header, 1050, bits(8.0), 1050, &combine));
    assert_eq!(Some(bits(16.0)), read_sample(&image, &middle, 1040));
    assert_eq!(Some(bits(17.0)), read_sample(&image, &top, 960));
}

#[test]
fn propagate_alone_rolls_up_what_is_there() {
    let (mut image, header) = new_file(AggregationType::Sum, 0.25, &[(10, 12), (40, 6), (160, 3)]);
    assert_eq!(Ok(()), record(&mut image, &header, 1040, bits(8.0), 1050));
    propagate(&mut image, &header, 1040, &combine);
    assert_eq!(Some(bits(8.0)), read_sample(&image, &header.archive_info()[1], 1040));
    assert_eq!(Some(bits(8.0)), read_sample(&image, &header.archive_info()[2], 960));
}

#[test]
fn one_point_more_than_slots_overwrites_the_first() {
    let (mut image, header) = two_tiers(AggregationType::Average, 0.5);
    for j in 0..13u32 {
        let t = 1200 + 10 * j;
        assert_eq!(Ok(()), record(&mut image, &header, t, (100 + j) as u64, t));
    }
    let series = fetch(&image, &header, 1200, 1330, 1320).unwrap();
    assert_eq!(13, series.len());
    assert_eq!((1200, None), series[0]);
    for j in 1..13u32 {
        assert_eq!((1200 + 10 * j, Some((100 + j) as u64)), series[j as usize]);
    }
    assert_eq!(
        Some(Point::new(1320, 112)),
        decode_point(&image, 40 + 12 * ((1200 / 10) % 12))
    );
}

#[test]
fn sort_points_orders_by_time_and_keeps_ties_in_place() {
    let points = vec![
        Point::new(30, 1),
        Point::new(10, 2),
        Point::new(20, 3),
        Point::new(10, 4),
        Point::new(30, 5),
        Point::new(10, 6),
    ];
    assert_eq!(
        vec![
            Point::new(10, 2),
            Point::new(10, 4),
            Point::new(10, 6),
            Point::new(20, 3),
            Point::new(30, 1),
            Point::new(30, 5),
        ],
        sort_points(&points)
    );
    assert_eq!(Vec::<Point>::new(), sort_points(&[]));
    assert_eq!(vec![Point::new(u32::MAX, 0), Point::new(u32::MAX, 1)], sort_points(&[
        Point::new(u32::MAX, 0),
        Point::new(u32::MAX, 1)
    ]));
}

#[test]
fn a_batch_is_written_in_the_order_of_its_times() {
    let batch = vec![
        Point::new(990, bits(4.0)),
        Point::new(960, bits(1.0)),
        Point::new(970, bits(2.0)),
        Point::new(960, bits(3.0)),
    ];
    let (mut image, header) = two_tiers(AggregationType::Last, 0.5);
    assert_eq!(Ok(()), update_many(&mut image, &header, &batch, 1000, &combine));

    let (mut one_by_one, _) = two_tiers(AggregationType::Last, 0.5);
    for (t, v) in [(960, 1.0), (960, 3.0), (970, 2.0), (990, 4.0)] {
        assert_eq!(Ok(()), update(&mut one_by_one, &header, t, bits(v), 1000, &combine));
    }
    assert_eq!(one_by_one, image);
    assert_eq!(Some(bits(3.0)), read_sample(&image, &header.archive_info()[0], 960));
    assert_eq!(Some(bits(4.0)), read_sample(&image, &header.archive_info()[1], 960));

}

#[test]
fn the_order_of_a_batch_does_not_depend_on_how_it_came() {
    let batch = vec![Point::new(1080, bits(2.0)), Point::new(960, bits(1.0))];
    let (mut image, header) = two_tiers(AggregationType::Sum, 0.25);
    assert_eq!(Ok(()), update_many(&mut image, &header, &batch, 1080, &combine));
    let fine = header.archive_info()[0];
    assert_eq!(Some(bits(2.0)), read_sample(&image, &fine, 1080));
    assert_eq!(None, read_sample(&image, &fine, 960));

    let (mut as_given, _) = two_tiers(AggregationType::Sum, 0.25);
    for p in batch.iter() {
        assert_eq!(Ok(()), update(&mut as_given, &header, p.timestamp(), p.value(), 1080, &combine));
    }
    assert_eq!(None, read_sample(&as_given, &fine, 1080));
    assert_eq!(Some(bits(1.0)), read_sample(&as_given, &fine, 960));

    let mut reversed = batch.clone();
    reversed.reverse();
    let (mut other, _) = two_tiers(AggregationType::Sum, 0.25);
    assert_eq!(Ok(()), update_many(&mut other, &header, &reversed, 1080, &combine));
    assert_eq!(image, other);
}

#[test]
fn a_batch_with_a_refused_point_writes_nothing() {
    let (mut image, header) = two_tiers(AggregationType::Last, 0.5);
    let before = image.clone();
    let batch = vec![Point::new(990, 1), Point::new(1001, 2), Point::new(960, 3)];
    assert_eq!(Err(RangeError::TimestampInFuture), update_many(&mut image, &header, &batch, 1000, &combine));
    assert_eq!(before, image);
    let batch = vec![Point::new(990, 1), Point::new(1001, 2), Point::new(700, 3)];
    assert_eq!(Err(RangeError::TimestampTooOld), update_many(&mut image, &header, &batch, 1000, &combine));
    assert_eq!(Err(RangeError::TimestampTooOld), check_batch(&header, &sort_points(&batch), 1000));
    assert_eq!(Err(RangeError::TimestampInFuture), check_batch(&header, &batch, 1000));
    assert_eq!(before, image);
    assert_eq!(Ok(()), update_many(&mut image, &header, &[], 1000, &combine));
    assert_eq!(before, image);
}
