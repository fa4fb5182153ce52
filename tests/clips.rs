use dash_to_map::video::{clip_window, is_video_file, parse_clip_name, ClipError, ClipStamp};

#[test]
fn reads_a_clip_name() {
    assert_eq!(
        parse_clip_name("NO20230115-123456-000123F.MP4"),
        Some(ClipStamp { year: 2023, month: 1, day: 15, hour: 12, minute: 34, second: 56 })
    );
    assert_eq!(parse_clip_name("XX20230115-123456-000123F.MP4"), None);
    assert_eq!(parse_clip_name("NO20230115-123456-000123R.MP4"), None);
    assert_eq!(parse_clip_name("NO20230115F.MP4"), None);
    assert_eq!(parse_clip_name("NO2023011x-123456-1F.MP4"), None);
}

#[test]
fn clip_window_from_name_and_duration() {
    let w = clip_window("NO20230115-123456-000123F.MP4", 0, 60).unwrap();
    assert_eq!(w.start_timestamp, 1_673_786_096);
    assert_eq!(w.end_timestamp, 1_673_786_156);
    assert_eq!(w.label, "NO20230115-123456-000123F.MP4");
}

#[test]
fn clip_window_shifted_onto_the_trace_clock() {
    let w = clip_window("NO20230115-123456-000123F.MP4", -17_987, 0).unwrap();
    assert_eq!(w.start_timestamp, 1_673_768_109);
    assert_eq!(w.end_timestamp, 1_673_768_109);
}

#[test]
fn clip_window_on_a_leap_day() {
    let w = clip_window("NO20240229-000000-1F.MP4", 0, 1).unwrap();
    assert_eq!(w.start_timestamp, 1_709_164_800);
    let w = clip_window("NO20000301-000000-1F.MP4", 0, 1).unwrap();
    assert_eq!(w.start_timestamp, 951_868_800);
}

#[test]
fn clip_window_errors() {
    assert_eq!(clip_window("clip.mp4", 0, 1).err(), Some(ClipError::NotAClipName));
    assert_eq!(clip_window("NO20230230-000000-1F.MP4", 0, 1).err(), Some(ClipError::InvalidDateTime));
    assert_eq!(clip_window("NO21000229-000000-1F.MP4", 0, 1).err(), Some(ClipError::InvalidDateTime));
    assert_eq!(clip_window("NO20230101-240000-1F.MP4", 0, 1).err(), Some(ClipError::InvalidDateTime));
    assert_eq!(clip_window("NO22000101-000000-1F.MP4", 0, 1).err(), Some(ClipError::OutOfRange));
    assert_eq!(clip_window("NO19690101-000000-1F.MP4", 0, 1).err(), Some(ClipError::OutOfRange));
}

#[test]
fn video_files_by_extension() {
    assert!(is_video_file("NO20230115-123456-000123F.MP4"));
    assert!(is_video_file("a.mp4"));
    assert!(is_video_file("a.Mp4"));
    assert!(!is_video_file(".mp4"));
    assert!(!is_video_file("a.mov"));
    assert!(!is_video_file("mp4"));
}
