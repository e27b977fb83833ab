use cliplapse::timelapse::{
    decimal, encoded_outcome, frame_count, frame_request, frame_requests, timelapse, timestamps,
    DynTimelapseEnc, EncodeError, FrameError, FrameNote, JpgTimelapseEnc, TimelapseEncoder,
    TimelapseError, TimelapseRun, TimelapseType,
};
use cliplapse::timeline::{Timeline, TimelineClip, Timestamp};

const SECOND: u128 = 1_000_000_000;

/// An encoder that keeps the frames it is given and can be told to refuse
/// one of them or to fail at the end.
struct Collect {
    frames: Vec<Vec<u8>>,
    refuse_at: Option<usize>,
    fail_at_end: bool,
    finished: bool,
}

impl Collect {
    fn new() -> Self {
        Collect { frames: Vec::new(), refuse_at: None, fail_at_end: false, finished: false }
    }
}

impl TimelapseEncoder for &mut Collect {
    fn encode_frame(&mut self, jpg_data: Vec<u8>) -> Result<(), EncodeError> {
        if self.refuse_at == Some(self.frames.len()) {
            return Err(EncodeError { message: "refused".to_string() });
        }
        self.frames.push(jpg_data);
        Ok(())
    }

    fn finish(self) -> Result<(), EncodeError> {
        self.finished = true;
        if self.fail_at_end {
            Err(EncodeError { message: "no end".to_string() })
        } else {
            Ok(())
        }
    }
}

/// An encoder that takes everything and keeps the default ending.
struct Swallow {
    taken: usize,
}

impl TimelapseEncoder for Swallow {
    fn encode_frame(&mut self, _jpg_data: Vec<u8>) -> Result<(), EncodeError> {
        self.taken += 1;
        Ok(())
    }
}

fn clip(secs: i64, length: u128, path: &str) -> TimelineClip {
    TimelineClip { creation_time: Timestamp { secs, nanos: 0 }, length, path: path.to_string() }
}

#[test]
fn ten_seconds_at_two_frames_a_second_are_twenty_frames() {
    assert_eq!(frame_count(10 * SECOND, 2), 20);
    let total = 3_600 * SECOND;
    let stamps = timestamps(total, 20, 0);
    assert_eq!(stamps.len(), 20);
    for (k, stamp) in stamps.iter().enumerate() {
        assert_eq!(*stamp, k as u128 * 180 * SECOND);
        assert!(*stamp < total);
    }
}

#[test]
fn skipping_five_frames_leaves_the_last_fifteen() {
    let total = 3_600 * SECOND;
    let all = timestamps(total, 20, 0);
    let rest = timestamps(total, 20, 5);
    assert_eq!(rest.len(), 15);
    assert_eq!(rest, all[5..].to_vec());
    assert_eq!(rest[0], 900 * SECOND);
}

#[test]
fn skipping_everything_leaves_nothing() {
    assert!(timestamps(1000, 20, 20).is_empty());
    assert!(timestamps(1000, 20, 21).is_empty());
    assert!(timestamps(1000, 0, 0).is_empty());
}

#[test]
fn frame_count_counts_whole_frames() {
    assert_eq!(frame_count(0, 30), 0);
    assert_eq!(frame_count(10 * SECOND, 0), 0);
    assert_eq!(frame_count(SECOND + SECOND / 2, 3), 4);
    assert_eq!(frame_count(SECOND - 1, 1), 0);
    assert_eq!(frame_count(SECOND, 1), 1);
    assert_eq!(frame_count(333_333_334, 3), 1);
    assert_eq!(frame_count(333_333_333, 3), 0);
}

#[test]
fn frame_count_stops_at_the_largest_number() {
    assert_eq!(frame_count(u128::MAX, u32::MAX), u32::MAX);
    assert_eq!(frame_count(u128::MAX, 2), u32::MAX);
    assert_eq!(frame_count(u32::MAX as u128 * SECOND, 1), u32::MAX);
    assert_eq!(frame_count((u32::MAX as u128 + 1) * SECOND, 1), u32::MAX);
    assert_eq!(frame_count((u32::MAX as u128 - 1) * SECOND, 1), u32::MAX - 1);
}

#[test]
fn step_is_the_whole_part_of_the_share() {
    // 10 / 3 is 3: the frames lie at 0, 3 and 6
    assert_eq!(timestamps(10, 3, 0), vec![0, 3, 6]);
    // a timeline shorter than the number of frames is sampled at its start
    assert_eq!(timestamps(2, 3, 0), vec![0, 0, 0]);
}

#[test]
fn request_names_clip_and_offset() {
    let timeline =
        Timeline::new(vec![clip(2, 10, "second"), clip(1, 5, "first"), clip(3, 20, "third")])
            .unwrap();
    let at = |t: u128| frame_request(&timeline, t).map(|r| (r.path, r.offset));
    assert_eq!(at(0), Some(("first".to_string(), 0)));
    assert_eq!(at(4), Some(("first".to_string(), 4)));
    assert_eq!(at(5), Some(("second".to_string(), 0)));
    assert_eq!(at(14), Some(("second".to_string(), 9)));
    assert_eq!(at(15), Some(("third".to_string(), 0)));
    assert_eq!(at(34), Some(("third".to_string(), 19)));
    assert_eq!(at(35), None);
    assert_eq!(at(u128::MAX), None);
}

#[test]
fn requests_span_the_timeline() {
    let timeline = Timeline::new(vec![clip(1, 40 * SECOND, "a"), clip(2, 60 * SECOND, "b")])
        .unwrap();
    let requests = frame_requests(&timeline, 5 * SECOND, 2, None);
    assert_eq!(requests.len(), 10);
    let got: Vec<(&str, u128)> = requests.iter().map(|r| (r.path.as_str(), r.offset)).collect();
    let expected: Vec<(&str, u128)> = vec![
        ("a", 0),
        ("a", 10 * SECOND),
        ("a", 20 * SECOND),
        ("a", 30 * SECOND),
        ("b", 0),
        ("b", 10 * SECOND),
        ("b", 20 * SECOND),
        ("b", 30 * SECOND),
        ("b", 40 * SECOND),
        ("b", 50 * SECOND),
    ];
    assert_eq!(got, expected);
    let resumed = frame_requests(&timeline, 5 * SECOND, 2, Some(7));
    let got: Vec<(&str, u128)> = resumed.iter().map(|r| (r.path.as_str(), r.offset)).collect();
    assert_eq!(got, expected[7..].to_vec());
}

#[test]
fn empty_timeline_asks_for_nothing() {
    let timeline = Timeline::new(Vec::new()).unwrap();
    assert!(frame_requests(&timeline, 10 * SECOND, 2, None).is_empty());
}

#[test]
fn one_failed_frame_is_left_out() {
    let jobs = vec![
        Ok(vec![0u8]),
        Ok(vec![1]),
        Err(FrameError::Failed("no output".to_string())),
        Ok(vec![3]),
        Ok(vec![4]),
    ];
    let mut enc = Collect::new();
    let report = timelapse(&mut enc, jobs).unwrap();
    assert_eq!(enc.frames, vec![vec![0u8], vec![1], vec![3], vec![4]]);
    assert!(enc.finished);
    assert_eq!(report.encoded, 4);
    assert_eq!(report.notes.len(), 5);
    assert!(matches!(report.notes[0], FrameNote::Encoded));
    assert!(matches!(&report.notes[2], FrameNote::Dropped(cause) if cause == "no output"));
    assert!(matches!(report.notes[4], FrameNote::Encoded));
}

#[test]
fn all_frames_go_to_the_encoder_in_order() {
    let jobs: Vec<Result<Vec<u8>, FrameError>> = (0..20u8).map(|n| Ok(vec![n, n])).collect();
    let mut enc = Collect::new();
    let report = timelapse(&mut enc, jobs).unwrap();
    assert_eq!(enc.frames, (0..20u8).map(|n| vec![n, n]).collect::<Vec<_>>());
    assert_eq!(report.encoded, 20);
}

#[test]
fn no_frames_still_end_the_timelapse() {
    let mut enc = Collect::new();
    let report = timelapse(&mut enc, Vec::new()).unwrap();
    assert!(enc.finished);
    assert_eq!(report.encoded, 0);
    assert!(report.notes.is_empty());
}

#[test]
fn cancelled_frame_ends_the_work() {
    let jobs = vec![
        Ok(vec![0u8]),
        Err(FrameError::Failed("x".to_string())),
        Ok(vec![2]),
        Err(FrameError::Cancelled),
        Ok(vec![4]),
        Err(FrameError::Cancelled),
    ];
    let mut enc = Collect::new();
    let ended = timelapse(&mut enc, jobs);
    assert!(matches!(ended, Err(TimelapseError::Cancelled { frame: 3 })));
    assert_eq!(enc.frames, vec![vec![0u8], vec![2]]);
    assert!(!enc.finished);
}

#[test]
fn refused_frame_ends_the_work() {
    let jobs = vec![
        Ok(vec![0u8]),
        Err(FrameError::Failed("x".to_string())),
        Ok(vec![2]),
        Ok(vec![3]),
    ];
    let mut enc = Collect::new();
    enc.refuse_at = Some(1);
    let ended = timelapse(&mut enc, jobs);
    assert!(matches!(
        ended,
        Err(TimelapseError::Encode { frame: 2, cause }) if cause.message == "refused"
    ));
    assert_eq!(enc.frames, vec![vec![0u8]]);
    assert!(!enc.finished);
}

#[test]
fn failure_at_the_end_is_reported() {
    let mut enc = Collect::new();
    enc.fail_at_end = true;
    let ended = timelapse(&mut enc, vec![Ok(vec![1u8])]);
    assert!(matches!(ended, Err(TimelapseError::Finish { cause }) if cause.message == "no end"));
    assert_eq!(enc.frames, vec![vec![1u8]]);
}

#[test]
fn frames_are_fed_one_by_one() {
    let mut enc = Collect::new();
    {
        let mut run = TimelapseRun::new(&mut enc);
        assert!(matches!(run.feed(Ok(vec![1u8])), Ok(FrameNote::Encoded)));
        assert!(matches!(
            run.feed(Err(FrameError::Failed("x".to_string()))),
            Ok(FrameNote::Dropped(cause)) if cause == "x"
        ));
        assert!(matches!(run.feed(Ok(vec![3u8])), Ok(FrameNote::Encoded)));
        assert!(matches!(
            run.feed(Err(FrameError::Cancelled)),
            Err(TimelapseError::Cancelled { frame: 3 })
        ));
        assert!(matches!(run.finish(), Ok(2)));
    }
    assert_eq!(enc.frames, vec![vec![1u8], vec![3]]);
    assert!(enc.finished);
}

#[test]
fn refused_frame_is_not_counted() {
    let mut enc = Collect::new();
    enc.refuse_at = Some(1);
    {
        let mut run = TimelapseRun::new(&mut enc);
        assert!(matches!(run.feed(Ok(vec![1u8])), Ok(FrameNote::Encoded)));
        assert!(matches!(
            run.feed(Ok(vec![2u8])),
            Err(TimelapseError::Encode { frame: 1, cause }) if cause.message == "refused"
        ));
        assert!(matches!(run.finish(), Ok(1)));
    }
    assert_eq!(enc.frames, vec![vec![1u8]]);
}

#[test]
fn answer_of_the_encoder_decides_what_comes_of_a_frame() {
    assert!(matches!(encoded_outcome(7, Ok(())), Ok(FrameNote::Encoded)));
    assert!(matches!(
        encoded_outcome(7, Err(EncodeError { message: "disk full".to_string() })),
        Err(TimelapseError::Encode { frame: 7, cause }) if cause.message == "disk full"
    ));
}

#[test]
fn encoder_ends_well_unless_it_says_otherwise() {
    let enc = Swallow { taken: 0 };
    let report = timelapse(enc, vec![Ok(vec![1u8]), Ok(vec![2])]).unwrap();
    assert_eq!(report.encoded, 2);
}

#[test]
fn either_encoder_takes_the_frames() {
    let mut stills = Collect::new();
    let mut video = Collect::new();
    {
        let mut enc: DynTimelapseEnc<&mut Collect, &mut Collect> =
            DynTimelapseEnc::Jpg(&mut stills);
        assert_eq!(enc.kind(), TimelapseType::Jpg);
        enc.encode_frame(vec![1]).unwrap();
        enc.finish().unwrap();
    }
    {
        let mut enc: DynTimelapseEnc<&mut Collect, &mut Collect> =
            DynTimelapseEnc::Mp4(&mut video);
        assert_eq!(enc.kind(), TimelapseType::Mp4);
        enc.encode_frame(vec![2]).unwrap();
        enc.encode_frame(vec![3]).unwrap();
        enc.finish().unwrap();
    }
    assert_eq!(stills.frames, vec![vec![1u8]]);
    assert_eq!(video.frames, vec![vec![2u8], vec![3]]);
    assert!(stills.finished && video.finished);
}

#[test]
fn numbers_are_written_in_decimal() {
    assert_eq!(decimal(0), "0");
    assert_eq!(decimal(7), "7");
    assert_eq!(decimal(10), "10");
    assert_eq!(decimal(409), "409");
    assert_eq!(decimal(1234567890), "1234567890");
    assert_eq!(decimal(usize::MAX), usize::MAX.to_string());
}

#[test]
fn stills_are_numbered_from_one() {
    let mut enc = JpgTimelapseEnc::new("out/stills".to_string());
    assert_eq!(enc.output_dir(), "out/stills");
    assert_eq!(enc.frame_n(), 0);
    let names: Vec<String> = (0..12).map(|_| enc.next_file_name().unwrap()).collect();
    assert_eq!(names[0], "1.jpg");
    assert_eq!(names[1], "2.jpg");
    assert_eq!(names[8], "9.jpg");
    assert_eq!(names[9], "10.jpg");
    assert_eq!(names[11], "12.jpg");
    assert_eq!(enc.frame_n(), 12);
    assert_eq!(enc.output_dir(), "out/stills");
}
