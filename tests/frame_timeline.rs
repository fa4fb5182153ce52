use dash_to_map::timeline::{
    build_animation, build_trip_animation, build_trip_plan, build_window_plan,
    extract_gps_data_for_video, find_gps_record, padding_frame_count, Entry, Timing, VideoWindow,
};
use dash_to_map::trace::{parse_samples, parse_trips, GpsSample};

fn sample(timestamp: u32) -> GpsSample {
    GpsSample {
        timestamp,
        latitude: 0,
        longitude: 0,
        position_valid: true,
        fix_letter: String::from("A"),
        auxiliary: [0; 9],
    }
}

fn fix(index: usize, timestamp: u32) -> Entry {
    Entry::Fix { index, timestamp }
}

#[test]
fn nearest_preceding_in_trip_mode() {
    let tl = vec![fix(0, 10), fix(1, 20), fix(2, 35)];
    assert_eq!(find_gps_record(&tl, 34, true), Some(1));
    assert_eq!(find_gps_record(&tl, 35, true), Some(2));
    assert_eq!(find_gps_record(&tl, 20, true), Some(1));
    assert_eq!(find_gps_record(&tl, 5, true), Some(0));
    assert_eq!(find_gps_record(&tl, 1000, true), Some(2));
}

#[test]
fn nearest_preceding_in_window_mode() {
    let tl = vec![Entry::Padding { gap: 5 }, fix(0, 10), fix(1, 20), fix(2, 35)];
    assert_eq!(find_gps_record(&tl, 34, false), Some(2));
    assert_eq!(find_gps_record(&tl, 5, false), None);
    assert_eq!(find_gps_record(&tl, 10, false), Some(1));
    let closed = vec![Entry::Padding { gap: 5 }, fix(0, 10), Entry::Padding { gap: 3 }];
    assert_eq!(find_gps_record(&closed, 10, false), None);
    assert_eq!(find_gps_record(&closed, 9, false), None);
    assert_eq!(find_gps_record(&vec![], 9, true), None);
}

#[test]
fn padding_frames_for_a_gap() {
    let t = Timing::new(10, 1, 1).unwrap();
    assert_eq!(padding_frame_count(&t, 350), 3);
    assert_eq!(padding_frame_count(&t, 400), 4);
    assert_eq!(padding_frame_count(&t, 0), 0);
    let half = Timing::new(10, 1, 2).unwrap();
    assert_eq!(padding_frame_count(&half, 1000), 5);
}

#[test]
fn timing_rejects_bad_factors() {
    assert!(Timing::new(0, 1, 1).is_none());
    assert!(Timing::new(10, 0, 1).is_none());
    assert!(Timing::new(10, 3, 2).is_none());
    assert_eq!(Timing::new(30, 1, 4), Some(Timing { fps: 30, factor_num: 1, factor_den: 4 }));
}

#[test]
fn window_timeline_with_gaps_on_both_sides() {
    let data: Vec<GpsSample> = [5, 10, 20, 30, 40].iter().map(|t| sample(*t)).collect();
    let tl = extract_gps_data_for_video(8, 25, &data);
    assert_eq!(
        tl,
        vec![Entry::Padding { gap: 2 }, fix(1, 10), fix(2, 20), Entry::Padding { gap: 5 }]
    );
}

#[test]
fn window_timeline_that_runs_past_the_trace() {
    let data: Vec<GpsSample> = [5, 10, 20].iter().map(|t| sample(*t)).collect();
    let tl = extract_gps_data_for_video(8, 100, &data);
    assert_eq!(
        tl,
        vec![Entry::Padding { gap: 2 }, fix(1, 10), fix(2, 20), Entry::Padding { gap: 80 }]
    );
}

#[test]
fn window_plan_pads_after_the_trace_ends() {
    let data: Vec<GpsSample> = [5, 10, 20].iter().map(|t| sample(*t)).collect();
    let tl = extract_gps_data_for_video(8, 30, &data);
    let t = Timing::new(1, 1, 1).unwrap();
    let plan = build_window_plan(&tl, 8, &t);
    assert_eq!(plan.leading_blank, 2);
    assert_eq!(plan.fixes, vec![1; 10]);
    assert_eq!(plan.trailing_blank, 10);
}

#[test]
fn window_ending_on_a_fix_has_no_closing_gap() {
    let data: Vec<GpsSample> = [5, 10, 20].iter().map(|t| sample(*t)).collect();
    let tl = extract_gps_data_for_video(8, 20, &data);
    assert_eq!(tl, vec![Entry::Padding { gap: 2 }, fix(1, 10), fix(2, 20)]);
}

#[test]
fn window_after_the_trace_is_all_padding() {
    let data: Vec<GpsSample> = [5, 10, 20].iter().map(|t| sample(*t)).collect();
    let tl = extract_gps_data_for_video(50, 60, &data);
    assert_eq!(tl, vec![Entry::Padding { gap: 10 }]);
}

#[test]
fn window_without_fixes_is_one_gap() {
    let data: Vec<GpsSample> = [5, 10, 40].iter().map(|t| sample(*t)).collect();
    let tl = extract_gps_data_for_video(30, 35, &data);
    assert_eq!(tl, vec![Entry::Padding { gap: 5 }]);
    let t = Timing::new(2, 1, 1).unwrap();
    let plan = build_window_plan(&tl, 30, &t);
    assert_eq!(plan.leading_blank, 10);
    assert!(plan.fixes.is_empty());
    assert_eq!(plan.trailing_blank, 0);
}

#[test]
fn window_plan_covers_the_window() {
    let data: Vec<GpsSample> = [5, 10, 20, 30, 40].iter().map(|t| sample(*t)).collect();
    let tl = extract_gps_data_for_video(8, 25, &data);
    let t = Timing::new(1, 1, 1).unwrap();
    let plan = build_window_plan(&tl, 8, &t);
    assert_eq!(plan.leading_blank, 2);
    assert_eq!(plan.fixes, vec![1; 10]);
    assert_eq!(plan.trailing_blank, 5);
}

#[test]
fn two_fix_trace_at_ten_frames_per_second() {
    let trips = parse_trips("0,A,10.0,20.0,0,0,0,0,0,0,0,0,0\n5,A,10.001,20.001,0,0,0,0,0,0,0,0,0")
        .unwrap();
    assert_eq!(trips.len(), 1);
    let t = Timing::new(10, 1, 1).unwrap();
    let plan = build_trip_plan(&trips[0], &t);
    assert_eq!(plan.leading_blank, 0);
    assert_eq!(plan.trailing_blank, 0);
    assert_eq!(plan.fixes.len(), 51);
    assert_eq!(plan.fixes[0], 0);
    assert_eq!(plan.fixes[49], 0);
    assert_eq!(plan.fixes[50], 1);
}

#[test]
fn two_fix_trace_in_timelapse() {
    let samples =
        parse_samples("0,A,10.0,20.0,0,0,0,0,0,0,0,0,0\n5,A,10.001,20.001,0,0,0,0,0,0,0,0,0")
            .unwrap();
    let t = Timing::new(1, 1, 5).unwrap();
    let plan = build_trip_plan(&samples, &t);
    assert_eq!(plan.fixes, vec![0, 1]);
}

#[test]
fn trip_plan_clamps_to_the_first_fix() {
    let trip: Vec<GpsSample> = [100, 100, 101].iter().map(|t| sample(*t)).collect();
    let t = Timing::new(2, 1, 1).unwrap();
    let plan = build_trip_plan(&trip, &t);
    assert_eq!(plan.fixes, vec![1, 1, 2]);
}

#[test]
fn each_trip_starts_at_frame_zero() {
    let text = "10,A,1,1,0,0,0,0,0,0,0,0,0\n11,A,1,1,0,0,0,0,0,0,0,0,0\n\n500,A,1,1,0,0,0,0,0,0,0,0,0\n502,A,1,1,0,0,0,0,0,0,0,0,0";
    let trips = parse_trips(text).unwrap();
    let t = Timing::new(1, 1, 1).unwrap();
    let plans = build_trip_animation(&trips, &t);
    assert_eq!(plans.len(), 2);
    assert_eq!(plans[0].fixes, vec![0, 1]);
    assert_eq!(plans[1].fixes, vec![0, 0, 1]);
}

#[test]
fn empty_trip_has_no_frames() {
    let t = Timing::new(1, 1, 1).unwrap();
    assert!(build_trip_plan(&vec![], &t).fixes.is_empty());
}

#[test]
fn animation_over_windows() {
    let data: Vec<GpsSample> = [5, 10, 20, 30, 40].iter().map(|t| sample(*t)).collect();
    let windows = vec![
        VideoWindow { start_timestamp: 8, end_timestamp: 25, label: String::from("a") },
        VideoWindow { start_timestamp: 50, end_timestamp: 60, label: String::from("b") },
    ];
    let t = Timing::new(1, 1, 1).unwrap();
    let plans = build_animation(&windows, &data, &t);
    assert_eq!(plans.len(), 2);
    assert_eq!(plans[0].leading_blank, 2);
    assert_eq!(plans[0].trailing_blank, 5);
    assert_eq!(plans[1].leading_blank, 10);
    assert!(plans[1].fixes.is_empty());
    assert_eq!(plans[1].trailing_blank, 0);
}
