//! Sampling a timeline at evenly spaced timestamps and feeding the frames
//! to an encoder.
//!
//! Durations, offsets and timestamps are whole nanoseconds held in `u128`.

use crate::timeline::Timeline;
use vstd::prelude::*;
use vstd::string::StringExecFns;

verus! {

/// The nanoseconds of one second.
pub const NANOS_PER_SEC: u128 = 1_000_000_000;

/// How many frames a timelapse of the length `len` has at `fps` frames a
/// second: the whole frames that fit, and `u32::MAX` where more would fit.
pub open spec fn spec_frame_count(len: u128, fps: u32) -> u32 {
    let exact = (len * fps) / (NANOS_PER_SEC as int);
    if exact > u32::MAX {
        u32::MAX
    } else {
        exact as u32
    }
}

/// How many frames a timelapse of the length `len` has at `fps` frames a
/// second.
pub fn frame_count(len: u128, fps: u32) -> (r: u32)
    ensures
        r == spec_frame_count(len, fps),
{
    match len.checked_mul(fps as u128) {
        None => u32::MAX,
        Some(product) => {
            let exact = product / NANOS_PER_SEC;
            if exact > u32::MAX as u128 {
                u32::MAX
            } else {
                exact as u32
            }
        },
    }
}

/// The global timestamps at which a timeline of the length `total` is
/// sampled for a timelapse of `frames` frames of which the first `skip` are
/// left out: frame `k` lies at `k` times the `frames`-th part of `total`.
pub open spec fn sample_timestamps(total: u128, frames: u32, skip: u32) -> Seq<u128> {
    if skip >= frames {
        Seq::empty()
    } else {
        Seq::new((frames - skip) as nat, |k: int| ((skip + k) * (total / (frames as u128))) as u128)
    }
}

/// No frame of a timelapse lies past the end of the timeline, and none at
/// its end unless the timeline is empty.
pub proof fn lemma_sample_in_timeline(total: u128, frames: u32, k: int)
    requires
        0 <= k < frames,
    ensures
        k * (total / (frames as u128)) <= total,
        total > 0 ==> k * (total / (frames as u128)) < total,
{
    let step = (total / (frames as u128)) as int;
    let f = frames as int;
    let t = total as int;
    assert(step * f <= t && 0 <= step) by (nonlinear_arith)
        requires
            step == t / f,
            f > 0,
            t >= 0,
    ;
    assert(k * step <= t - step) by (nonlinear_arith)
        requires
            step * f <= t,
            0 <= k < f,
            0 <= step,
    ;
    if step == 0 {
        assert(k * step == 0) by (nonlinear_arith)
            requires
                step == 0,
        ;
    }
}

/// The timestamps of two frames that follow each other lie one step apart.
pub proof fn lemma_samples_evenly_spaced(total: u128, frames: u32, skip: u32, k: int)
    requires
        0 <= k,
        skip + k + 1 < frames,
    ensures
        sample_timestamps(total, frames, skip)[k + 1] - sample_timestamps(total, frames, skip)[k]
            == total / (frames as u128),
        sample_timestamps(total, frames, skip).len() == frames - skip,
{
    let step = (total / (frames as u128)) as int;
    lemma_sample_in_timeline(total, frames, skip + k);
    lemma_sample_in_timeline(total, frames, skip + k + 1);
    assert((skip + k + 1) * step == (skip + k) * step + step) by (nonlinear_arith);
}

/// The timestamps of the frames never decrease from one frame to the next.
pub proof fn lemma_samples_do_not_decrease(total: u128, frames: u32, skip: u32, j: int, k: int)
    requires
        0 <= j <= k,
        skip + k < frames,
    ensures
        sample_timestamps(total, frames, skip)[j] <= sample_timestamps(total, frames, skip)[k],
{
    let step = (total / (frames as u128)) as int;
    lemma_sample_in_timeline(total, frames, skip + j);
    lemma_sample_in_timeline(total, frames, skip + k);
    assert((skip + j) * step <= (skip + k) * step) by (nonlinear_arith)
        requires
            0 <= skip + j <= skip + k,
            0 <= step,
    ;
}

/// The global timestamps at which the timeline is sampled.
pub fn timestamps(total: u128, frames: u32, skip: u32) -> (r: Vec<u128>)
    ensures
        r@ == sample_timestamps(total, frames, skip),
{
    let mut out: Vec<u128> = Vec::new();
    if skip >= frames {
        return out;
    }
    let step: u128 = total / (frames as u128);
    let mut k: u32 = skip;
    while k < frames
        invariant
            skip <= k <= frames,
            skip < frames,
            step == total / (frames as u128),
            out@.len() == k - skip,
            forall|j: int| 0 <= j < out@.len() ==> out@[j] == (skip + j) * step,
        decreases frames - k,
    {
        proof {
            lemma_sample_in_timeline(total, frames, k as int);
        }
        out.push((k as u128) * step);
        k = k + 1;
    }
    proof {
        assert(out@ =~= sample_timestamps(total, frames, skip)) by {
            assert forall|j: int| 0 <= j < out@.len() implies out@[j] == sample_timestamps(
                total,
                frames,
                skip,
            )[j] by {
                lemma_sample_in_timeline(total, frames, skip + j);
            }
        }
    }
    out
}

/// Which frame of which clip to extract for one sample.
#[derive(Debug)]
pub struct FrameRequest {
    /// The clip that holds the frame.
    pub path: String,
    /// How far into that clip the frame lies, in nanoseconds.
    pub offset: u128,
}

/// Whether `request` names the clip into which `timestamp` falls and the
/// distance of `timestamp` from the start of that clip.
pub open spec fn resolves(timeline: &Timeline, timestamp: u128, request: FrameRequest) -> bool {
    exists|i: int|
        #![trigger timeline.entries()[i]]
        timeline.covers(i, timestamp) && request.path == timeline.entries()[i].1.path
            && request.offset == timestamp - timeline.start_offset(i)
}

/// Finds the clip and the place in it that the global timestamp stands for;
/// `None` where the timestamp lies at or past the end of the timeline.
pub fn frame_request(timeline: &Timeline, timestamp: u128) -> (r: Option<FrameRequest>)
    ensures
        r is Some <==> timestamp < timeline.total(),
        r matches Some(request) ==> resolves(timeline, timestamp, request),
{
    if timestamp >= timeline.len() {
        None
    } else {
        Some(request_at(timeline, timestamp))
    }
}

/// The request for a timestamp that lies before the end of the timeline.
fn request_at(timeline: &Timeline, timestamp: u128) -> (request: FrameRequest)
    requires
        timestamp < timeline.total(),
    ensures
        resolves(timeline, timestamp, request),
{
    let (start, clip) = timeline.get_at(timestamp);
    let request = FrameRequest { path: clip.path.clone(), offset: timestamp - start };
    proof {
        let i = choose|i: int| timeline.covers(i, timestamp);
        assert(timeline.covers(i, timestamp) && request.path == timeline.entries()[i].1.path);
    }
    request
}

/// What to extract for a timelapse of the length `len` at `fps` frames a
/// second that leaves out its first `skip` frames: one request for each
/// remaining frame, in the order of the frames. An empty timeline has
/// nothing to extract.
pub fn frame_requests(timeline: &Timeline, len: u128, fps: u32, skip: Option<u32>) -> (r: Vec<
    FrameRequest,
>)
    ensures
        timeline.total() == 0 ==> r@.len() == 0,
        timeline.total() > 0 ==> r@.len() == sample_timestamps(
            timeline.total(),
            spec_frame_count(len, fps),
            spec_skip(skip),
        ).len(),
        forall|k: int|
            0 <= k < r@.len() ==> resolves(
                timeline,
                sample_timestamps(timeline.total(), spec_frame_count(len, fps), spec_skip(skip))[k],
                #[trigger] r@[k],
            ),
{
    let frames = frame_count(len, fps);
    let first = match skip {
        Some(n) => n,
        None => 0,
    };
    let stamps = timestamps(timeline.len(), frames, first);
    let mut out: Vec<FrameRequest> = Vec::new();
    if timeline.len() == 0 {
        return out;
    }
    let ghost wanted = stamps@;
    let mut k: usize = 0;
    while k < stamps.len()
        invariant
            k <= stamps@.len(),
            stamps@ == wanted,
            wanted == sample_timestamps(timeline.total(), frames, first),
            timeline.total() > 0,
            out@.len() == k,
            forall|j: int| 0 <= j < k ==> resolves(timeline, wanted[j], #[trigger] out@[j]),
        decreases stamps@.len() - k,
    {
        let stamp = stamps[k];
        proof {
            lemma_sample_in_timeline(timeline.total(), frames, first + k);
        }
        out.push(request_at(timeline, stamp));
        k = k + 1;
    }
    out
}

/// The number of frames left out at the start: none where none is named.
pub open spec fn spec_skip(skip: Option<u32>) -> u32 {
    match skip {
        Some(n) => n,
        None => 0,
    }
}

/// Why an encoder failed.
#[derive(Debug)]
pub struct EncodeError {
    /// What went wrong, in words.
    pub message: String,
}

/// Something that takes the frames of a timelapse one by one.
pub trait TimelapseEncoder: Sized {
    /// Takes one more frame.
    fn encode_frame(&mut self, jpg_data: Vec<u8>) -> Result<(), EncodeError>;

    /// Ends the timelapse: nothing more will come. An encoder that has
    /// nothing to do at the end ends well.
    fn finish(self) -> (r: Result<(), EncodeError>)
        default_ensures
            r is Ok,
    {
        Ok(())
    }
}

/// Why a frame could not be extracted.
#[derive(Debug)]
pub enum FrameError {
    /// The job was cancelled before the frame was asked for.
    Cancelled,
    /// The extraction failed; the cause in words.
    Failed(String),
}

/// What became of one frame of a timelapse.
#[derive(Debug)]
pub enum FrameNote {
    /// The frame went to the encoder.
    Encoded,
    /// The frame could not be extracted and was left out; the cause in
    /// words.
    Dropped(String),
    /// The job was cancelled before the frame was asked for.
    Cancelled,
}

/// Why a timelapse was not made.
#[derive(Debug)]
pub enum TimelapseError {
    /// The job was cancelled; `frame` is the first frame that found it so.
    Cancelled { frame: usize },
    /// The encoder refused frame `frame`.
    Encode { frame: usize, cause: EncodeError },
    /// The encoder failed to end the timelapse.
    Finish { cause: EncodeError },
}

/// The place of the first frame that was cancelled, or the number of
/// frames where none was.
pub open spec fn first_cancelled(jobs: Seq<Result<Vec<u8>, FrameError>>) -> int
    decreases jobs.len(),
{
    if jobs.len() == 0 {
        0
    } else if jobs[0] == Err::<Vec<u8>, FrameError>(FrameError::Cancelled) {
        0
    } else {
        1 + first_cancelled(jobs.drop_first())
    }
}

/// The frames that go to the encoder, each with its place among the jobs:
/// those of the first `upto` jobs that were extracted, in their order.
pub open spec fn frames_to_encode(jobs: Seq<Result<Vec<u8>, FrameError>>, upto: int) -> Seq<
    (usize, Vec<u8>),
>
    decreases upto,
{
    if upto <= 0 {
        Seq::empty()
    } else {
        match jobs[upto - 1] {
            Ok(data) => frames_to_encode(jobs, upto - 1).push(((upto - 1) as usize, data)),
            Err(_) => frames_to_encode(jobs, upto - 1),
        }
    }
}

/// What becomes of each of the first `upto` frames where the encoder takes
/// every frame it is given.
pub open spec fn notes_of(jobs: Seq<Result<Vec<u8>, FrameError>>, upto: int) -> Seq<FrameNote>
    decreases upto,
{
    if upto <= 0 {
        Seq::empty()
    } else {
        notes_of(jobs, upto - 1).push(
            match jobs[upto - 1] {
                Ok(_) => FrameNote::Encoded,
                Err(FrameError::Failed(cause)) => FrameNote::Dropped(cause),
                Err(FrameError::Cancelled) => FrameNote::Cancelled,
            },
        )
    }
}

/// The first cancelled frame lies among the jobs or just past them, and no
/// frame before it is cancelled.
pub proof fn lemma_first_cancelled(jobs: Seq<Result<Vec<u8>, FrameError>>)
    ensures
        0 <= first_cancelled(jobs) <= jobs.len(),
        first_cancelled(jobs) < jobs.len() ==> jobs[first_cancelled(jobs)] == Err::<
            Vec<u8>,
            FrameError,
        >(FrameError::Cancelled),
        forall|i: int|
            0 <= i < first_cancelled(jobs) ==> #[trigger] jobs[i] != Err::<Vec<u8>, FrameError>(
                FrameError::Cancelled,
            ),
    decreases jobs.len(),
{
    if jobs.len() > 0 && jobs[0] != Err::<Vec<u8>, FrameError>(FrameError::Cancelled) {
        lemma_first_cancelled(jobs.drop_first());
        assert forall|i: int| 0 <= i < first_cancelled(jobs) implies #[trigger] jobs[i] != Err::<
            Vec<u8>,
            FrameError,
        >(FrameError::Cancelled) by {
            if i > 0 {
                assert(jobs.drop_first()[i - 1] == jobs[i]);
            }
        }
    }
}

/// Where exactly one of the frames could not be extracted and none was
/// cancelled, all the others go to the encoder, in their order: one frame
/// fewer than were asked for.
pub proof fn lemma_one_failure_drops_one_frame(
    jobs: Seq<Result<Vec<u8>, FrameError>>,
    failed: int,
)
    requires
        0 <= failed < jobs.len(),
        jobs[failed] is Err,
        forall|i: int| 0 <= i < jobs.len() && i != failed ==> (#[trigger] jobs[i]) is Ok,
    ensures
        frames_to_encode(jobs, jobs.len() as int).len() == jobs.len() - 1,
        forall|k: int|
            0 <= k < failed ==> (#[trigger] frames_to_encode(jobs, jobs.len() as int)[k]) == (
                k as usize,
                jobs[k]->Ok_0,
            ),
        forall|k: int|
            failed <= k < jobs.len() - 1 ==> (#[trigger] frames_to_encode(
                jobs,
                jobs.len() as int,
            )[k]) == ((k + 1) as usize, jobs[k + 1]->Ok_0),
{
    lemma_frames_around_one_failure(jobs, failed, jobs.len() as int);
}

proof fn lemma_frames_around_one_failure(
    jobs: Seq<Result<Vec<u8>, FrameError>>,
    failed: int,
    upto: int,
)
    requires
        0 <= failed < jobs.len(),
        0 <= upto <= jobs.len(),
        jobs[failed] is Err,
        forall|i: int| 0 <= i < jobs.len() && i != failed ==> (#[trigger] jobs[i]) is Ok,
    ensures
        frames_to_encode(jobs, upto).len() == if upto <= failed {
            upto
        } else {
            upto - 1
        },
        forall|k: int|
            0 <= k < failed && k < upto ==> (#[trigger] frames_to_encode(jobs, upto)[k]) == (
                k as usize,
                jobs[k]->Ok_0,
            ),
        forall|k: int|
            failed <= k < upto - 1 ==> (#[trigger] frames_to_encode(jobs, upto)[k]) == (
                (k + 1) as usize,
                jobs[k + 1]->Ok_0,
            ),
    decreases upto,
{
    if upto > 0 {
        lemma_frames_around_one_failure(jobs, failed, upto - 1);
        if upto - 1 != failed {
            assert(jobs[upto - 1] is Ok);
        }
    }
}

/// One more than `n`, or `n` where there is no larger number.
pub open spec fn counted_on(n: usize) -> usize {
    if n < usize::MAX {
        (n + 1) as usize
    } else {
        n
    }
}

/// What comes of handing frame `frame` to the encoder, given the
/// encoder's answer.
pub fn encoded_outcome(frame: usize, answer: Result<(), EncodeError>) -> (r: Result<
    FrameNote,
    TimelapseError,
>)
    ensures
        r == (match answer {
            Ok(_) => Ok::<FrameNote, TimelapseError>(FrameNote::Encoded),
            Err(cause) => Err::<FrameNote, TimelapseError>(TimelapseError::Encode { frame, cause }),
        }),
{
    match answer {
        Ok(_) => Ok(FrameNote::Encoded),
        Err(cause) => Err(TimelapseError::Encode { frame, cause }),
    }
}

/// What comes of a timelapse of which `encoded` frames have gone to the
/// encoder, given the encoder's answer to being told to finish.
pub fn ended_outcome(encoded: usize, answer: Result<(), EncodeError>) -> (r: Result<
    usize,
    TimelapseError,
>)
    ensures
        r == (match answer {
            Ok(_) => Ok::<usize, TimelapseError>(encoded),
            Err(cause) => Err::<usize, TimelapseError>(TimelapseError::Finish { cause }),
        }),
{
    match answer {
        Ok(_) => Ok(encoded),
        Err(cause) => Err(TimelapseError::Finish { cause }),
    }
}

/// A timelapse in the making: the encoder, and how many frames have been
/// dealt with and how many of them have gone to the encoder.
pub struct TimelapseRun<E> {
    enc: E,
    seen: usize,
    encoded: usize,
}

impl<E: TimelapseEncoder> TimelapseRun<E> {
    /// The encoder as it stands.
    pub closed spec fn encoder(&self) -> E {
        self.enc
    }

    /// How many frames have been dealt with, counted up to `usize::MAX`.
    pub closed spec fn seen(&self) -> usize {
        self.seen
    }

    /// How many frames have gone to the encoder, counted up to
    /// `usize::MAX`.
    pub closed spec fn encoded(&self) -> usize {
        self.encoded
    }

    /// A timelapse of which no frame has come yet.
    pub fn new(enc: E) -> (r: Self)
        ensures
            r.encoder() == enc,
            r.seen() == 0,
            r.encoded() == 0,
    {
        TimelapseRun { enc, seen: 0, encoded: 0 }
    }

    /// Takes the result of the extraction job of the next frame. An
    /// extracted frame is handed to the encoder; a frame that could not be
    /// extracted is left out with a note. A cancelled frame fails, and so
    /// does a frame that the encoder refuses: such a frame is not counted,
    /// and the timelapse is to be given up.
    pub fn feed(&mut self, job: Result<Vec<u8>, FrameError>) -> (r: Result<
        FrameNote,
        TimelapseError,
    >)
        ensures
            job == Err::<Vec<u8>, FrameError>(FrameError::Cancelled) ==> r == Err::<
                FrameNote,
                TimelapseError,
            >(TimelapseError::Cancelled { frame: old(self).seen() }),
            job matches Err(FrameError::Failed(cause)) ==> r == Ok::<FrameNote, TimelapseError>(
                FrameNote::Dropped(cause),
            ),
            job matches Ok(data) ==> exists|held: &mut E, answer: Result<(), EncodeError>|
                mut_ref_current(held) == old(self).encoder() && mut_ref_future(held) == final(self).encoder() && #[trigger] call_ensures(E::encode_frame, (held, data), answer) && r
                    == (match answer {
                    Ok(_) => Ok::<FrameNote, TimelapseError>(FrameNote::Encoded),
                    Err(cause) => Err::<FrameNote, TimelapseError>(
                        TimelapseError::Encode { frame: old(self).seen(), cause },
                    ),
                }),
            job is Err ==> final(self).encoder() == old(self).encoder(),
            final(self).seen() == if r is Ok {
                counted_on(old(self).seen())
            } else {
                old(self).seen()
            },
            final(self).encoded() == if job is Ok && r is Ok {
                counted_on(old(self).encoded())
            } else {
                old(self).encoded()
            },
    {
        let frame = self.seen;
        let outcome = match job {
            Ok(data) => encoded_outcome(frame, self.enc.encode_frame(data)),
            Err(FrameError::Failed(cause)) => Ok(FrameNote::Dropped(cause)),
            Err(FrameError::Cancelled) => Err(TimelapseError::Cancelled { frame }),
        };
        match &outcome {
            Ok(FrameNote::Encoded) => {
                if self.seen < usize::MAX {
                    self.seen = self.seen + 1;
                }
                if self.encoded < usize::MAX {
                    self.encoded = self.encoded + 1;
                }
            },
            Ok(_) => {
                if self.seen < usize::MAX {
                    self.seen = self.seen + 1;
                }
            },
            Err(_) => {},
        }
        outcome
    }

    /// Tells the encoder that nothing more will come. Returns how many
    /// frames have gone to it.
    pub fn finish(self) -> (r: Result<usize, TimelapseError>)
        ensures
            exists|answer: Result<(), EncodeError>|
                #[trigger] call_ensures(E::finish, (self.encoder(),), answer) && r == (match answer {
                    Ok(_) => Ok::<usize, TimelapseError>(self.encoded()),
                    Err(cause) => Err::<usize, TimelapseError>(TimelapseError::Finish { cause }),
                }),
    {
        let encoded = self.encoded;
        let answer = self.enc.finish();
        proof {
            assert(call_ensures(E::finish, (self.encoder(),), answer));
        }
        ended_outcome(encoded, answer)
    }
}

/// What a finished timelapse reports.
#[derive(Debug)]
pub struct TimelapseReport {
    /// What became of each frame, in the order of the frames.
    pub notes: Vec<FrameNote>,
    /// How many frames went to the encoder.
    pub encoded: usize,
}

/// Whether `k` is the place of one of the calls that were answered.
pub open spec fn is_call(answers: Seq<Result<(), EncodeError>>, k: int) -> bool {
    0 <= k < answers.len()
}

/// Whether the last of the answers is a refusal.
pub open spec fn refused(answers: Seq<Result<(), EncodeError>>) -> bool {
    answers.len() > 0 && answers.last() is Err
}

/// Whether a timelapse of the given jobs can take this course with an
/// encoder that is `first` at the start: `answers[k]` is the encoder's
/// answer to the `k`-th of the frames that go to it, `states[k]` the
/// encoder before that frame and `states[k + 1]` after it, and `ending` its
/// answer to being told to finish, if it is told. The frames go to the
/// encoder one after the other as long as it takes them: after a refusal
/// nothing more is asked of it. It is told to finish when it has taken all
/// frames and no frame was cancelled.
pub open spec fn is_course<E>(
    jobs: Seq<Result<Vec<u8>, FrameError>>,
    first: E,
    states: Seq<E>,
    answers: Seq<Result<(), EncodeError>>,
    ending: Option<Result<(), EncodeError>>,
) -> bool {
    let frames = frames_to_encode(jobs, first_cancelled(jobs));
    &&& states.len() == answers.len() + 1
    &&& states[0] == first
    &&& answers.len() <= frames.len()
    &&& forall|k: int| 0 <= k && k + 1 < answers.len() ==> (#[trigger] answers[k]) is Ok
    &&& if refused(answers) {
        ending is None
    } else {
        answers.len() == frames.len() && (ending is Some <==> first_cancelled(jobs) == jobs.len())
    }
}

/// Whether `r` is what comes of a timelapse of the given jobs that took
/// the course of `answers` and `ending`: the refusal of a frame, if the
/// encoder refused one; else the cancellation, if a frame was cancelled;
/// else what the encoder answered to being told to finish.
pub open spec fn is_outcome(
    jobs: Seq<Result<Vec<u8>, FrameError>>,
    answers: Seq<Result<(), EncodeError>>,
    ending: Option<Result<(), EncodeError>>,
    r: Result<TimelapseReport, TimelapseError>,
) -> bool {
    let frames = frames_to_encode(jobs, first_cancelled(jobs));
    if refused(answers) {
        r == Err::<TimelapseReport, TimelapseError>(
            TimelapseError::Encode {
                frame: frames[answers.len() - 1].0,
                cause: answers.last()->Err_0,
            },
        )
    } else if first_cancelled(jobs) < jobs.len() {
        r == Err::<TimelapseReport, TimelapseError>(
            TimelapseError::Cancelled { frame: first_cancelled(jobs) as usize },
        )
    } else {
        match ending {
            Some(Ok(_)) => r is Ok && r->Ok_0.notes@ == notes_of(jobs, jobs.len() as int)
                && r->Ok_0.encoded == frames.len(),
            Some(Err(cause)) => r == Err::<TimelapseReport, TimelapseError>(
                TimelapseError::Finish { cause },
            ),
            None => false,
        }
    }
}

/// The frames of the first jobs that go to the encoder stay in their
/// places when more jobs are counted.
pub proof fn lemma_frames_stay(jobs: Seq<Result<Vec<u8>, FrameError>>, fewer: int, more: int)
    requires
        0 <= fewer <= more,
    ensures
        frames_to_encode(jobs, fewer).len() <= frames_to_encode(jobs, more).len(),
        forall|k: int|
            0 <= k < frames_to_encode(jobs, fewer).len() ==> #[trigger] frames_to_encode(
                jobs,
                more,
            )[k] == frames_to_encode(jobs, fewer)[k],
    decreases more - fewer,
{
    if fewer < more {
        lemma_frames_stay(jobs, fewer, more - 1);
    }
}

/// Makes the timelapse from the results of the extraction jobs, which come
/// in the order of the frames. Each extracted frame before the first
/// cancelled one is handed to the encoder, in that order, by one call
/// each; a frame that could not be extracted is left out with a note. The
/// first frame that the encoder refuses ends the work; else the first
/// cancelled frame does; else the encoder is told to finish, once, and its
/// answer decides.
pub fn timelapse<E: TimelapseEncoder>(enc: E, jobs: Vec<Result<Vec<u8>, FrameError>>) -> (r: Result<
    TimelapseReport,
    TimelapseError,
>)
    ensures
        exists|
            states: Seq<E>,
            answers: Seq<Result<(), EncodeError>>,
            ending: Option<Result<(), EncodeError>>,
        |
            #[trigger] is_course(jobs@, enc, states, answers, ending) && is_outcome(
                jobs@,
                answers,
                ending,
                r,
            ) && (forall|k: int|
                #[trigger] is_call(answers, k) ==> exists|held: &mut E|
                    mut_ref_current(held) == states[k] && mut_ref_future(held) == states[k + 1]
                        && #[trigger] call_ensures(
                        E::encode_frame,
                        (held, frames_to_encode(jobs@, first_cancelled(jobs@))[k].1),
                        answers[k],
                    )) && (ending matches Some(answer) ==> call_ensures(
                E::finish,
                (states.last(),),
                answer,
            )),
        match r {
            Ok(report) => {
                &&& first_cancelled(jobs@) == jobs@.len()
                &&& report.notes@ == notes_of(jobs@, jobs@.len() as int)
                &&& report.encoded == frames_to_encode(jobs@, jobs@.len() as int).len()
            },
            Err(TimelapseError::Cancelled { frame }) => frame == first_cancelled(jobs@) && frame
                < jobs@.len(),
            Err(TimelapseError::Encode { frame, cause }) => frame < first_cancelled(jobs@)
                && jobs@[frame as int] is Ok,
            Err(TimelapseError::Finish { cause }) => first_cancelled(jobs@) == jobs@.len(),
        },
{
    let ghost all = jobs@;
    let ghost frames = frames_to_encode(all, first_cancelled(all));
    let ghost mut states: Seq<E> = seq![enc];
    let ghost mut answers: Seq<Result<(), EncodeError>> = Seq::empty();
    let mut run = TimelapseRun::new(enc);
    let mut notes: Vec<FrameNote> = Vec::new();
    proof {
        lemma_first_cancelled(all);
        assert(all.len() == jobs.len());
    }
    for job in it: jobs
        invariant
            it.seq() == all,
            all == jobs@,
            all.len() <= usize::MAX,
            frames == frames_to_encode(all, first_cancelled(all)),
            run.seen() == it.index(),
            it.index() <= first_cancelled(all),
            notes@ == notes_of(all, it.index() as int),
            run.encoded() == frames_to_encode(all, it.index() as int).len(),
            0 <= first_cancelled(all) <= all.len(),
            first_cancelled(all) < all.len() ==> all[first_cancelled(all)] == Err::<
                Vec<u8>,
                FrameError,
            >(FrameError::Cancelled),
            forall|i: int|
                0 <= i < first_cancelled(all) ==> #[trigger] all[i] != Err::<Vec<u8>, FrameError>(
                    FrameError::Cancelled,
                ),
            states.len() == answers.len() + 1,
            states[0] == enc,
            states.last() == run.encoder(),
            answers.len() == frames_to_encode(all, it.index() as int).len(),
            answers.len() <= frames.len(),
            forall|k: int| 0 <= k < answers.len() ==> (#[trigger] answers[k]) is Ok,
            forall|k: int|
                #[trigger] is_call(answers, k) ==> exists|held: &mut E|
                    mut_ref_current(held) == states[k] && mut_ref_future(held) == states[k + 1]
                        && #[trigger] call_ensures(
                        E::encode_frame,
                        (held, frames[k].1),
                        answers[k],
                    ),
    {
        let ghost i = it.index() as int;
        let ghost before = run.encoder();
        let ghost job_was = job;
        let ghost old_states = states;
        let ghost old_answers = answers;
        proof {
            assert(job == all[i]);
            lemma_frames_come_from_jobs(all, i);
            lemma_frames_stay(all, i, first_cancelled(all));
            if job is Ok {
                lemma_frames_stay(all, i + 1, first_cancelled(all));
            }
        }
        let fed = run.feed(job);
        let ghost fed_was = fed;
        proof {
            if let Ok(data) = job_was {
                let answer: Result<(), EncodeError> = match fed_was {
                    Err(TimelapseError::Encode { frame, cause }) => Err(cause),
                    _ => Ok(()),
                };
                states = old_states.push(run.encoder());
                answers = old_answers.push(answer);
                assert(frames[old_answers.len() as int] == (i as usize, data));
                let (held, given) = choose|held: &mut E, given: Result<(), EncodeError>|
                    mut_ref_current(held) == before && mut_ref_future(held) == run.encoder()
                        && #[trigger] call_ensures(E::encode_frame, (held, data), given) && fed_was
                        == (match given {
                        Ok(_) => Ok::<FrameNote, TimelapseError>(FrameNote::Encoded),
                        Err(cause) => Err::<FrameNote, TimelapseError>(
                            TimelapseError::Encode { frame: i as usize, cause },
                        ),
                    });
                if fed_was is Ok {
                    assert(given is Ok);
                    assert(answer is Ok);
                    assert(given->Ok_0 == ());
                } else {
                    assert(given is Err);
                    assert(fed_was->Err_0 is Encode);
                    assert(given->Err_0 == answer->Err_0);
                }
                assert(given == answer);
                assert(call_ensures(
                    E::encode_frame,
                    (held, frames[old_answers.len() as int].1),
                    answers[old_answers.len() as int],
                ));
                assert forall|k: int| #[trigger] is_call(answers, k) implies exists|held: &mut E|
                    mut_ref_current(held) == states[k] && mut_ref_future(held) == states[k + 1]
                        && #[trigger] call_ensures(
                        E::encode_frame,
                        (held, frames[k].1),
                        answers[k],
                    ) by {
                    if k < old_answers.len() {
                        assert(is_call(old_answers, k));
                        assert(answers[k] == old_answers[k]);
                        assert(states[k] == old_states[k]);
                        assert(states[k + 1] == old_states[k + 1]);
                    } else {
                        assert(states[k] == before);
                        assert(states[k + 1] == run.encoder());
                        assert(answers[k] == answer);
                        assert(frames[k].1 == data);
                    }
                }
            }
        }
        proof {
            if job_was is Err {
                assert(states == old_states && answers == old_answers);
                assert(run.encoder() == before);
            }
            assert(answers.len() <= frames.len());
        }
        match fed {
            Ok(note) => {
                notes.push(note);
            },
            Err(e) => {
                proof {
                    let ending: Option<Result<(), EncodeError>> = None;
                    assert(is_course(all, enc, states, answers, ending));
                    assert(is_outcome(all, answers, ending, Err::<TimelapseReport, TimelapseError>(e)));
                }
                return Err(e);
            },
        }
    }
    let ghost last = run.encoder();
    let ended = run.finish();
    let ghost ended_was = ended;
    let r = match ended {
        Ok(encoded) => Ok(TimelapseReport { notes, encoded }),
        Err(e) => Err(e),
    };
    proof {
        let answer: Result<(), EncodeError> = match ended_was {
            Err(TimelapseError::Finish { cause }) => Err(cause),
            _ => Ok(()),
        };
        let given = choose|given: Result<(), EncodeError>|
            #[trigger] call_ensures(E::finish, (last,), given) && ended_was == (match given {
                Ok(_) => Ok::<usize, TimelapseError>(run.encoded()),
                Err(cause) => Err::<usize, TimelapseError>(TimelapseError::Finish { cause }),
            });
        assert(exists|given: Result<(), EncodeError>|
            #[trigger] call_ensures(E::finish, (last,), given) && ended_was == (match given {
                Ok(_) => Ok::<usize, TimelapseError>(run.encoded()),
                Err(cause) => Err::<usize, TimelapseError>(TimelapseError::Finish { cause }),
            }));
        if ended_was is Ok {
            assert(given is Ok);
            assert(answer is Ok);
            assert(given->Ok_0 == ());
        } else {
            assert(given is Err);
            assert(ended_was->Err_0 is Finish);
            assert(given->Err_0 == answer->Err_0);
        }
        assert(given == answer);
        assert(call_ensures(E::finish, (last,), answer));
        let ending = Some(answer);
        assert(is_course(all, enc, states, answers, ending));
        assert(is_outcome(all, answers, ending, r));
    }
    r
}

/// Every frame for the encoder is the extracted frame of the job at whose
/// place it stands, and the frames stand in the order of their jobs.
pub proof fn lemma_frames_come_from_jobs(jobs: Seq<Result<Vec<u8>, FrameError>>, upto: int)
    requires
        0 <= upto <= jobs.len(),
        jobs.len() <= usize::MAX,
    ensures
        frames_to_encode(jobs, upto).len() <= upto,
        forall|k: int|
            0 <= k < frames_to_encode(jobs, upto).len() ==> (#[trigger] frames_to_encode(
                jobs,
                upto,
            )[k]).0 < upto && jobs[frames_to_encode(jobs, upto)[k].0 as int] == Ok::<
                Vec<u8>,
                FrameError,
            >(frames_to_encode(jobs, upto)[k].1),
        forall|j: int, k: int|
            0 <= j < k < frames_to_encode(jobs, upto).len() ==> (#[trigger] frames_to_encode(
                jobs,
                upto,
            )[j]).0 < (#[trigger] frames_to_encode(jobs, upto)[k]).0,
    decreases upto,
{
    if upto > 0 {
        lemma_frames_come_from_jobs(jobs, upto - 1);
        let before = frames_to_encode(jobs, upto - 1);
        let now = frames_to_encode(jobs, upto);
        match jobs[upto - 1] {
            Ok(data) => {
                assert(now == before.push(((upto - 1) as usize, data)));
                assert forall|k: int| 0 <= k < now.len() implies (#[trigger] now[k]).0 < upto
                    && jobs[now[k].0 as int] == Ok::<Vec<u8>, FrameError>(now[k].1) by {
                    if k < before.len() {
                        assert(now[k] == before[k]);
                    }
                }
                assert forall|j: int, k: int| 0 <= j < k < now.len() implies (#[trigger] now[j]).0
                    < (#[trigger] now[k]).0 by {
                    assert(now[j] == before[j]);
                    if k < before.len() {
                        assert(now[k] == before[k]);
                    }
                }
            },
            Err(_) => {
                assert(now == before);
            },
        }
    }
}

/// The kinds of timelapse that can be made.
#[derive(Clone, Copy, Debug, PartialEq, Eq, Structural)]
pub enum TimelapseType {
    /// One still image per frame.
    Jpg,
    /// One video of all frames.
    Mp4,
}

/// An encoder of one of two kinds, chosen when the timelapse is set up.
pub enum DynTimelapseEnc<J, M> {
    /// Writes one still image per frame.
    Jpg(J),
    /// Writes one video of all frames.
    Mp4(M),
}

impl<J, M> DynTimelapseEnc<J, M> {
    /// Which kind of timelapse this encoder makes.
    pub fn kind(&self) -> (r: TimelapseType)
        ensures
            r == (match self {
                DynTimelapseEnc::Jpg(_) => TimelapseType::Jpg,
                DynTimelapseEnc::Mp4(_) => TimelapseType::Mp4,
            }),
    {
        match self {
            DynTimelapseEnc::Jpg(_) => TimelapseType::Jpg,
            DynTimelapseEnc::Mp4(_) => TimelapseType::Mp4,
        }
    }
}

impl<J: TimelapseEncoder, M: TimelapseEncoder> TimelapseEncoder for DynTimelapseEnc<J, M> {
    /// Hands the frame to the encoder that is held, and hands back its
    /// answer; the encoder stays of its kind.
    fn encode_frame(&mut self, jpg_data: Vec<u8>) -> (r: Result<(), EncodeError>)
        ensures
            match (*old(self), *final(self)) {
                (DynTimelapseEnc::Jpg(before), DynTimelapseEnc::Jpg(after)) => exists|held: &mut J|
                    mut_ref_current(held) == before && mut_ref_future(held) == after
                        && #[trigger] call_ensures(J::encode_frame, (held, jpg_data), r),
                (DynTimelapseEnc::Mp4(before), DynTimelapseEnc::Mp4(after)) => exists|held: &mut M|
                    mut_ref_current(held) == before && mut_ref_future(held) == after
                        && #[trigger] call_ensures(M::encode_frame, (held, jpg_data), r),
                _ => false,
            },
    {
        match self {
            DynTimelapseEnc::Jpg(e) => e.encode_frame(jpg_data),
            DynTimelapseEnc::Mp4(e) => e.encode_frame(jpg_data),
        }
    }

    /// Tells the encoder that is held to finish, and hands back its
    /// answer.
    fn finish(self) -> (r: Result<(), EncodeError>)
        ensures
            match self {
                DynTimelapseEnc::Jpg(e) => call_ensures(J::finish, (e,), r),
                DynTimelapseEnc::Mp4(e) => call_ensures(M::finish, (e,), r),
            },
    {
        match self {
            DynTimelapseEnc::Jpg(e) => e.finish(),
            DynTimelapseEnc::Mp4(e) => e.finish(),
        }
    }
}

/// The character of one decimal digit.
pub open spec fn digit_char(d: int) -> char {
    if d == 0 {
        '0'
    } else if d == 1 {
        '1'
    } else if d == 2 {
        '2'
    } else if d == 3 {
        '3'
    } else if d == 4 {
        '4'
    } else if d == 5 {
        '5'
    } else if d == 6 {
        '6'
    } else if d == 7 {
        '7'
    } else if d == 8 {
        '8'
    } else {
        '9'
    }
}

/// The number `n` written in decimal digits, without leading zeros.
pub open spec fn decimal_text(n: nat) -> Seq<char>
    decreases n,
{
    if n < 10 {
        seq![digit_char(n as int)]
    } else {
        decimal_text(n / 10).push(digit_char((n % 10) as int))
    }
}

/// The text of one decimal digit.
fn digit_str(d: usize) -> (r: &'static str)
    requires
        d < 10,
    ensures
        r@ == seq![digit_char(d as int)],
{
    proof {
        reveal_strlit("0");
        reveal_strlit("1");
        reveal_strlit("2");
        reveal_strlit("3");
        reveal_strlit("4");
        reveal_strlit("5");
        reveal_strlit("6");
        reveal_strlit("7");
        reveal_strlit("8");
        reveal_strlit("9");
    }
    let r = if d == 0 {
        "0"
    } else if d == 1 {
        "1"
    } else if d == 2 {
        "2"
    } else if d == 3 {
        "3"
    } else if d == 4 {
        "4"
    } else if d == 5 {
        "5"
    } else if d == 6 {
        "6"
    } else if d == 7 {
        "7"
    } else if d == 8 {
        "8"
    } else {
        "9"
    };
    assert(r@ =~= seq![digit_char(d as int)]);
    r
}

/// Writes `n` in decimal digits.
pub fn decimal(n: usize) -> (r: String)
    ensures
        r@ == decimal_text(n as nat),
{
    let mut digits: Vec<usize> = Vec::new();
    let mut rest: usize = n;
    while rest >= 10
        invariant
            decimal_text(n as nat) == decimal_text(rest as nat) + Seq::new(
                digits@.len(),
                |k: int| digit_char(digits@[digits@.len() - 1 - k] as int),
            ),
            forall|k: int| 0 <= k < digits@.len() ==> digits@[k] < 10,
        decreases rest,
    {
        let ghost before = digits@;
        let ghost tail = Seq::new(
            before.len(),
            |k: int| digit_char(before[before.len() - 1 - k] as int),
        );
        digits.push(rest % 10);
        proof {
            let now = digits@;
            let shown = Seq::new(now.len(), |k: int| digit_char(now[now.len() - 1 - k] as int));
            assert(shown =~= seq![digit_char((rest % 10) as int)] + tail);
            assert(decimal_text(rest as nat) == decimal_text((rest / 10) as nat).push(
                digit_char((rest % 10) as int),
            ));
            assert(decimal_text((rest / 10) as nat).push(digit_char((rest % 10) as int)) + tail
                =~= decimal_text((rest / 10) as nat) + shown);
        }
        rest = rest / 10;
    }
    let mut out = String::from_str(digit_str(rest));
    let mut i: usize = digits.len();
    while i > 0
        invariant
            i <= digits@.len(),
            forall|k: int| 0 <= k < digits@.len() ==> digits@[k] < 10,
            out@ == decimal_text(rest as nat) + Seq::new(
                (digits@.len() - i) as nat,
                |k: int| digit_char(digits@[digits@.len() - 1 - k] as int),
            ),
        decreases i,
    {
        let ghost before = out@;
        i = i - 1;
        out.append(digit_str(digits[i]));
        proof {
            assert(out@ =~= decimal_text(rest as nat) + Seq::new(
                (digits@.len() - i) as nat,
                |k: int| digit_char(digits@[digits@.len() - 1 - k] as int),
            ));
        }
    }
    out
}

/// The ending of the name of a still image.
pub open spec fn jpg_suffix() -> Seq<char> {
    ".jpg"@
}

/// Names the still images of a timelapse: `1.jpg`, `2.jpg` and so on, in
/// one directory.
pub struct JpgTimelapseEnc {
    output_dir: String,
    frame_n: usize,
}

impl JpgTimelapseEnc {
    /// The directory that takes the images.
    pub closed spec fn dir(&self) -> Seq<char> {
        self.output_dir@
    }

    /// How many images have been named.
    pub closed spec fn count(&self) -> usize {
        self.frame_n
    }

    /// A sequence of images in `output_dir` that is still empty.
    pub fn new(output_dir: String) -> (r: Self)
        ensures
            r.dir() == output_dir@,
            r.count() == 0,
    {
        JpgTimelapseEnc { frame_n: 0, output_dir }
    }

    /// The directory that takes the images.
    pub fn output_dir(&self) -> (r: &String)
        ensures
            r@ == self.dir(),
    {
        &self.output_dir
    }

    /// How many images have been named.
    pub fn frame_n(&self) -> (r: usize)
        ensures
            r == self.count(),
    {
        self.frame_n
    }

    /// Counts one more frame and names the file that takes it: the count
    /// in decimal digits, then `.jpg`. `None`, with nothing counted, where
    /// the count cannot grow any more.
    pub fn next_file_name(&mut self) -> (r: Option<String>)
        ensures
            final(self).dir() == old(self).dir(),
            r is Some <==> old(self).count() < usize::MAX,
            r is Some ==> final(self).count() == old(self).count() + 1,
            r is None ==> final(self).count() == old(self).count(),
            r matches Some(name) ==> name@ == decimal_text(final(self).count() as nat)
                + jpg_suffix(),
    {
        if self.frame_n == usize::MAX {
            return None;
        }
        self.frame_n = self.frame_n + 1;
        let mut name = decimal(self.frame_n);
        name.append(".jpg");
        Some(name)
    }
}

} // verus!
