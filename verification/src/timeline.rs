//! The timeline: clips ordered by creation time, each with the offset at
//! which it starts, addressable by one global timestamp.
//!
//! Durations and offsets are whole nanoseconds held in `u128`.

use vstd::prelude::*;
use vstd::string::StringSliceAdditionalSpecFns;
use vstd::utf8::{decode_utf8, encode_utf8, encode_utf8_decode_utf8, is_char_boundary};

verus! {

/// chrono's `ParseError`: why a text is no date and time. It is handed on
/// unopened.
#[verifier::external_type_specification]
#[verifier::external_body]
pub struct ExChronoParseError(chrono::ParseError);

/// An instant on the UTC time line: whole seconds since the Unix epoch and
/// the nanoseconds past that second. During a leap second `nanos` runs from
/// 1_000_000_000 to 1_999_999_999.
#[derive(Clone, Copy, Debug, PartialEq, Eq, Structural)]
pub struct Timestamp {
    /// Whole seconds since 1970-01-01 00:00:00 UTC.
    pub secs: i64,
    /// Nanoseconds past that second.
    pub nanos: u32,
}

impl Timestamp {
    /// Strictly earlier than `other`.
    pub open spec fn precedes(self, other: Timestamp) -> bool {
        self.secs < other.secs || (self.secs == other.secs && self.nanos < other.nanos)
    }

    /// Whether this instant is strictly earlier than `other`.
    pub fn is_before(&self, other: &Timestamp) -> (r: bool)
        ensures
            r == self.precedes(*other),
    {
        self.secs < other.secs || (self.secs == other.secs && self.nanos < other.nanos)
    }
}

/// One input video file with its creation time and its playback length.
#[derive(Debug)]
pub struct TimelineClip {
    /// When the clip was recorded.
    pub creation_time: Timestamp,
    /// Playback length in nanoseconds.
    pub length: u128,
    /// Where the clip lies.
    pub path: String,
}

/// Whether, of two clips of `input` given by their positions, the one at `i`
/// comes first on the timeline: the one created earlier, and of two created
/// at the same instant the one enumerated earlier.
pub open spec fn goes_before(input: Seq<TimelineClip>, i: int, j: int) -> bool {
    input[i].creation_time.precedes(input[j].creation_time) || (input[i].creation_time
        == input[j].creation_time && i < j)
}

/// `output` holds the clips of `input` ordered by creation time, ties kept
/// in the order of `input`; `order[k]` is the position in `input` of the
/// clip that stands at `k` in `output`.
pub open spec fn is_creation_order(
    output: Seq<TimelineClip>,
    input: Seq<TimelineClip>,
    order: Seq<int>,
) -> bool {
    &&& output.len() == input.len()
    &&& order.len() == input.len()
    &&& forall|k: int|
        0 <= k < order.len() ==> 0 <= #[trigger] order[k] < input.len() && output[k]
            == input[order[k]]
    &&& forall|a: int, b: int|
        #![trigger order[a], order[b]]
        0 <= a < b < order.len() ==> goes_before(input, order[a], order[b])
}

/// The sum of the lengths of the first `n` clips of `clips`.
pub open spec fn length_before(clips: Seq<TimelineClip>, n: int) -> nat
    decreases n,
{
    if n <= 0 {
        0
    } else {
        length_before(clips, n - 1) + clips[n - 1].length as nat
    }
}

/// The sum of lengths never shrinks as more clips are counted.
pub proof fn lemma_length_before_monotonic(clips: Seq<TimelineClip>, i: int, j: int)
    requires
        0 <= i <= j,
    ensures
        length_before(clips, i) <= length_before(clips, j),
    decreases j - i,
{
    if i < j {
        lemma_length_before_monotonic(clips, i, j - 1);
    }
}

/// Putting one more clip anywhere into a sequence adds its length to the sum.
proof fn lemma_length_before_insert(clips: Seq<TimelineClip>, p: int, clip: TimelineClip, n: int)
    requires
        0 <= p <= clips.len(),
        0 <= n <= clips.len() + 1,
    ensures
        n <= p ==> length_before(clips.insert(p, clip), n) == length_before(clips, n),
        n > p ==> length_before(clips.insert(p, clip), n) == length_before(clips, n - 1)
            + clip.length as nat,
    decreases n,
{
    if n > 0 {
        lemma_length_before_insert(clips, p, clip, n - 1);
    }
}

/// Orders clips by creation time, keeping clips of one instant in the order
/// in which they came.
fn sort_by_creation_time(clips: Vec<TimelineClip>) -> (r: (Vec<TimelineClip>, Ghost<Seq<int>>))
    ensures
        is_creation_order(r.0@, clips@, r.1@),
        length_before(r.0@, r.0@.len() as int) == length_before(clips@, clips@.len() as int),
{
    let mut sorted: Vec<TimelineClip> = Vec::new();
    let ghost mut order: Seq<int> = Seq::empty();
    let ghost input = clips@;
    for clip in it: clips
        invariant
            it.seq() == input,
            sorted@.len() == it.index(),
            order.len() == it.index(),
            length_before(sorted@, it.index() as int) == length_before(input, it.index() as int),
            forall|k: int|
                0 <= k < order.len() ==> 0 <= #[trigger] order[k] < it.index() && sorted@[k]
                    == input[order[k]],
            forall|a: int, b: int|
                #![trigger order[a], order[b]]
                0 <= a < b < order.len() ==> goes_before(input, order[a], order[b]),
    {
        let ghost i = it.index() as int;
        let mut p: usize = sorted.len();
        while p > 0 && clip.creation_time.is_before(&sorted[p - 1].creation_time)
            invariant
                p <= sorted@.len(),
                sorted@.len() == order.len(),
                clip == input[i],
                forall|k: int|
                    0 <= k < order.len() ==> 0 <= #[trigger] order[k] < i && sorted@[k]
                        == input[order[k]],
                forall|k: int|
                    p <= k < order.len() ==> input[i].creation_time.precedes(
                        input[#[trigger] order[k]].creation_time,
                    ),
            decreases p,
        {
            p = p - 1;
        }
        proof {
            let old_order = order;
            order = order.insert(p as int, i);
            assert forall|a: int, b: int|
                #![trigger order[a], order[b]]
                0 <= a < b < order.len() implies goes_before(input, order[a], order[b]) by {
                if b < p {
                    assert(order[a] == old_order[a] && order[b] == old_order[b]);
                } else if b == p {
                    assert(order[a] == old_order[a]);
                    if p > 0 {
                        assert(order[p - 1] == old_order[p - 1]);
                        assert(!input[i].creation_time.precedes(
                            input[old_order[p - 1]].creation_time,
                        ));
                        if a < p - 1 {
                            assert(goes_before(input, old_order[a], old_order[p - 1]));
                        }
                    }
                } else if a < p {
                    assert(order[a] == old_order[a] && order[b] == old_order[b - 1]);
                } else if a == p {
                    assert(order[b] == old_order[b - 1]);
                } else {
                    assert(order[a] == old_order[a - 1] && order[b] == old_order[b - 1]);
                }
            }
        }
        proof {
            lemma_length_before_insert(sorted@, p as int, clip, i + 1);
        }
        sorted.insert(p, clip);
        proof {
            assert forall|k: int| 0 <= k < order.len() implies 0 <= #[trigger] order[k] < i + 1
                && sorted@[k] == input[order[k]] by {
                if k < p {
                } else if k == p {
                } else {
                    assert(order[k] == order.remove(p as int)[k - 1]);
                }
            }
        }
    }
    (sorted, Ghost(order))
}

/// Why a clip or a timeline could not be built.
#[derive(Clone, Copy, Debug, PartialEq, Eq, Structural)]
pub enum TimelineError {
    /// The path ends in no file name to take a date from.
    NoFileName,
    /// The file name has no prefix of `TIMESTAMP_PREFIX_LEN` bytes that ends
    /// between two characters.
    ShortName,
    /// The prefix of the file name is no date and time of the expected form.
    Malformed,
    /// The local time named by the file name stands for no instant or for
    /// two, because the clocks skipped or repeated it, or it cannot be
    /// converted.
    NotSingle,
    /// The lengths of the clips add up to more than `u128::MAX` nanoseconds.
    TooLong,
}

/// How many bytes at the start of a clip's file name hold its date and time:
/// `YYYY_MMDD_HHmmss`.
pub const TIMESTAMP_PREFIX_LEN: usize = 16;

/// The form of the date and time at the start of a clip's file name, in
/// chrono's notation.
pub open spec fn timestamp_format() -> Seq<char> {
    "%Y_%m%d_%H%M%S"@
}

/// What chrono's `NaiveDateTime::parse_from_str` makes of the text `s` under
/// the format `fmt`: the date and time as seconds and nanoseconds counted
/// from 1970-01-01 00:00:00 as if it were UTC, or `None` where it reports an
/// error.
pub uninterp spec fn naive_date_time(s: Seq<char>, fmt: Seq<char>) -> Option<(i64, u32)>;

/// The zone in whose local time the file names of the clips are written.
pub open spec fn timestamp_zone() -> Seq<char> {
    "America/New_York"@
}

/// The UTC instants that a local date and time stands for in the zone
/// that chrono-tz knows by the name `zone`, as chrono-tz maps it: none
/// where the clocks skipped the local time, one as a rule, two, in the
/// order in which chrono gives them, where the clocks were set back and
/// the local time came twice. Local time and instants are seconds and
/// nanoseconds counted from 1970-01-01 00:00:00. `None` where chrono-tz
/// knows no zone of that name or chrono cannot hold the local time.
pub uninterp spec fn local_to_utc(zone: Seq<char>, secs: i64, nanos: u32) -> Option<
    Seq<(i64, u32)>,
>;

/// The creation time that the file name `name` stands for.
pub open spec fn timestamp_of_name(name: Seq<char>) -> Result<Timestamp, TimelineError> {
    let bytes = encode_utf8(name);
    if !is_char_boundary(bytes, TIMESTAMP_PREFIX_LEN as int) {
        Err(TimelineError::ShortName)
    } else {
        match naive_date_time(
            decode_utf8(bytes.subrange(0, TIMESTAMP_PREFIX_LEN as int)),
            timestamp_format(),
        ) {
            None => Err(TimelineError::Malformed),
            Some(local) => match local_to_utc(timestamp_zone(), local.0, local.1) {
                Some(instants) => if instants.len() == 1 {
                    Ok(Timestamp { secs: instants[0].0, nanos: instants[0].1 })
                } else {
                    Err(TimelineError::NotSingle)
                },
                None => Err(TimelineError::NotSingle),
            },
        }
    }
}

/// The last component of the path `path` as `Path::file_name` of std
/// gives it on the platform that the library is built for; `None` where
/// it gives none, as for a path that ends in `..`.
pub uninterp spec fn file_name(path: Seq<char>) -> Option<Seq<char>>;

/// The creation time that the path of a clip stands for: that of the file
/// name in which the path ends.
pub open spec fn timestamp_of_path(path: Seq<char>) -> Result<Timestamp, TimelineError> {
    match file_name(path) {
        None => Err(TimelineError::NoFileName),
        Some(name) => timestamp_of_name(name),
    }
}

/// Calls chrono's `NaiveDateTime::parse_from_str` and hands the date and
/// time back as seconds and nanoseconds. Trusted: the result is what
/// `naive_date_time` names, chrono's error where that is `None`.
#[verifier::external_body]
fn parse_naive_date_time(s: &str, fmt: &str) -> (r: Result<(i64, u32), chrono::ParseError>)
    ensures
        match r {
            Ok(local) => naive_date_time(s@, fmt@) == Some(local),
            Err(_) => naive_date_time(s@, fmt@) is None,
        },
{
    let local = chrono::NaiveDateTime::parse_from_str(s, fmt)?.and_utc();
    Ok((local.timestamp(), local.timestamp_subsec_nanos()))
}

/// Calls `from_local_datetime` of chrono's `TimeZone` on the zone that
/// chrono-tz's `Tz` parses from `zone`, and hands back the instants it
/// yields. Trusted: the result is what `local_to_utc` names.
#[verifier::external_body]
fn zone_local_to_utc(zone: &str, secs: i64, nanos: u32) -> (r: Option<Vec<(i64, u32)>>)
    ensures
        match r {
            Some(instants) => local_to_utc(zone@, secs, nanos) == Some(instants@),
            None => local_to_utc(zone@, secs, nanos) is None,
        },
{
    let tz: chrono_tz::Tz = zone.parse().ok()?;
    let local = chrono::DateTime::from_timestamp(secs, nanos)?.naive_utc();
    let plain = |t: chrono::DateTime<chrono_tz::Tz>| (t.timestamp(), t.timestamp_subsec_nanos());
    Some(match chrono::TimeZone::from_local_datetime(&tz, &local) {
        chrono::MappedLocalTime::Single(t) => vec![plain(t)],
        chrono::MappedLocalTime::Ambiguous(a, b) => vec![plain(a), plain(b)],
        chrono::MappedLocalTime::None => Vec::new(),
    })
}

/// Calls `Path::file_name` of std on `path`. Trusted: the result is what
/// `file_name` names.
#[verifier::external_body]
fn file_name_of(path: &str) -> (r: Option<String>)
    ensures
        match r {
            Some(name) => file_name(path@) == Some(name@),
            None => file_name(path@) is None,
        },
{
    std::path::Path::new(path).file_name().map(|name| name.to_string_lossy().into_owned())
}

impl TimelineClip {
    /// Reads the creation time off a clip's file name: its first
    /// `TIMESTAMP_PREFIX_LEN` bytes as a local date and time of the zone
    /// America/New_York, converted to UTC.
    pub fn parse_timestamp_from_file_name(name: &str) -> (r: Result<Timestamp, TimelineError>)
        ensures
            r == timestamp_of_name(name@),
    {
        if !name.is_char_boundary(TIMESTAMP_PREFIX_LEN) {
            return Err(TimelineError::ShortName);
        }
        let (prefix, _) = name.split_at(TIMESTAMP_PREFIX_LEN);
        proof {
            encode_utf8_decode_utf8(prefix@);
        }
        match parse_naive_date_time(prefix, "%Y_%m%d_%H%M%S") {
            Err(_) => Err(TimelineError::Malformed),
            Ok(local) => match zone_local_to_utc("America/New_York", local.0, local.1) {
                Some(instants) => if instants.len() == 1 {
                    Ok(Timestamp { secs: instants[0].0, nanos: instants[0].1 })
                } else {
                    Err(TimelineError::NotSingle)
                },
                None => Err(TimelineError::NotSingle),
            },
        }
    }

    /// Reads the creation time off the file name in which `path` ends.
    pub fn parse_timestamp_from_path(path: &str) -> (r: Result<Timestamp, TimelineError>)
        ensures
            r == timestamp_of_path(path@),
    {
        match file_name_of(path) {
            None => Err(TimelineError::NoFileName),
            Some(name) => Self::parse_timestamp_from_file_name(name.as_str()),
        }
    }

    /// Makes the clip of a probed file: its creation time read off the file
    /// name, its length as probed.
    pub fn process(path: String, info: ProbeInfo) -> (r: Result<TimelineClip, TimelineError>)
        ensures
            r == (match timestamp_of_path(path@) {
                Ok(creation_time) => Ok::<TimelineClip, TimelineError>(
                    TimelineClip { creation_time, length: info.duration, path },
                ),
                Err(e) => Err::<TimelineClip, TimelineError>(e),
            }),
    {
        match Self::parse_timestamp_from_path(path.as_str()) {
            Ok(creation_time) => Ok(TimelineClip { creation_time, length: info.duration, path }),
            Err(e) => Err(e),
        }
    }
}

/// What probing a clip yields.
#[derive(Clone, Copy, Debug, PartialEq, Eq, Structural)]
pub struct ProbeInfo {
    /// Playback length in nanoseconds.
    pub duration: u128,
}

/// The clips of a sequence of entries, without their offsets.
pub open spec fn clips_of(entries: Seq<(u128, TimelineClip)>) -> Seq<TimelineClip> {
    entries.map_values(|e: (u128, TimelineClip)| e.1)
}

/// Whether `entries` and `total` can be those of a timeline: each offset is
/// the sum of the lengths before it, `total` the sum of all lengths, and no
/// clip stands before one that was created earlier.
pub open spec fn entries_chain(entries: Seq<(u128, TimelineClip)>, total: u128) -> bool {
    &&& forall|i: int|
        0 <= i < entries.len() ==> (#[trigger] entries[i]).0 == length_before(
            clips_of(entries),
            i,
        )
    &&& total == length_before(clips_of(entries), entries.len() as int)
    &&& forall|a: int, b: int|
        0 <= a < b < entries.len() ==> !(#[trigger] entries[b]).1.creation_time.precedes(
            (#[trigger] entries[a]).1.creation_time,
        )
}

/// The clips of one job in the order of their creation, each with the
/// offset at which it starts, and the length of them all together.
pub struct Timeline {
    clips: Vec<(u128, TimelineClip)>,
    duration: u128,
}

impl Timeline {
    /// The clips in timeline order, each with its start offset.
    pub closed spec fn entries(&self) -> Seq<(u128, TimelineClip)> {
        self.clips@
    }

    /// The length of the whole timeline.
    pub closed spec fn total(&self) -> u128 {
        self.duration
    }

    /// The clips in timeline order.
    pub open spec fn clip_seq(&self) -> Seq<TimelineClip> {
        clips_of(self.entries())
    }

    /// The offset at which clip `i` starts.
    pub open spec fn start_offset(&self, i: int) -> u128 {
        self.entries()[i].0
    }

    /// Whether the global timestamp `t` falls into clip `i`.
    pub open spec fn covers(&self, i: int, t: u128) -> bool {
        &&& 0 <= i < self.entries().len()
        &&& self.start_offset(i) <= t
        &&& t < self.start_offset(i) + self.entries()[i].1.length
    }

    /// What holds of every timeline: each clip starts where the clips before
    /// it end, the total is the sum of all lengths, and no clip stands
    /// before one that was created earlier.
    #[verifier::type_invariant]
    pub open spec fn wf(&self) -> bool {
        entries_chain(self.entries(), self.total())
    }

    /// Builds the timeline of `clips`: orders them by creation time, clips of
    /// one instant in the order given, and lets each start where the one
    /// before it ends. Fails only where the total length cannot be held.
    pub fn new(clips: Vec<TimelineClip>) -> (r: Result<Timeline, TimelineError>)
        ensures
            r is Ok <==> length_before(clips@, clips@.len() as int) <= u128::MAX,
            r matches Ok(t) ==> t.wf(),
            r matches Ok(t) ==> t.total() == length_before(clips@, clips@.len() as int),
            r matches Ok(t) ==> exists|order: Seq<int>|
                is_creation_order(t.clip_seq(), clips@, order),
            r matches Err(e) ==> e == TimelineError::TooLong,
    {
        let ghost input = clips@;
        let (sorted, Ghost(order)) = sort_by_creation_time(clips);
        let ghost ordered = sorted@;
        let mut entries: Vec<(u128, TimelineClip)> = Vec::new();
        let mut duration: u128 = 0;
        for clip in it: sorted
            invariant
                it.seq() == ordered,
                input == clips@,
                entries@.len() == it.index(),
                duration == length_before(ordered, it.index() as int),
                length_before(ordered, ordered.len() as int) == length_before(
                    input,
                    input.len() as int,
                ),
                forall|k: int|
                    0 <= k < entries@.len() ==> (#[trigger] entries@[k]).1 == ordered[k]
                        && entries@[k].0 == length_before(ordered, k),
        {
            let ghost i = it.index() as int;
            assert(clip == ordered[i]);
            let length = clip.length;
            entries.push((duration, clip));
            match duration.checked_add(length) {
                Some(sum) => {
                    duration = sum;
                },
                None => {
                    proof {
                        lemma_length_before_monotonic(ordered, i + 1, ordered.len() as int);
                    }
                    return Err(TimelineError::TooLong);
                },
            }
        }
        proof {
            assert(clips_of(entries@) =~= ordered);
            assert forall|a: int, b: int| 0 <= a < b < entries@.len() implies !(
            #[trigger] entries@[b]).1.creation_time.precedes(
                (#[trigger] entries@[a]).1.creation_time,
            ) by {
                assert(goes_before(input, order[a], order[b]));
            }
            assert(entries_chain(entries@, duration));
        }
        let t = Timeline { clips: entries, duration };
        proof {
            assert(t.clip_seq() == ordered);
            assert(is_creation_order(t.clip_seq(), clips@, order));
        }
        Ok(t)
    }

    /// The total length of the timeline.
    pub fn len(&self) -> (r: u128)
        ensures
            r == self.total(),
    {
        self.duration
    }

    /// How many clips the timeline holds.
    pub fn clip_count(&self) -> (r: usize)
        ensures
            r == self.entries().len(),
    {
        self.clips.len()
    }

    /// Clip `i` in timeline order, with the offset at which it starts.
    pub fn entry(&self, i: usize) -> (r: (u128, &TimelineClip))
        requires
            i < self.entries().len(),
        ensures
            r.0 == self.start_offset(i as int),
            *r.1 == self.entries()[i as int].1,
    {
        (self.clips[i].0, &self.clips[i].1)
    }

    /// The clip into which the global timestamp falls, with the offset at
    /// which that clip starts.
    pub fn get_at(&self, timestamp: u128) -> (r: (u128, &TimelineClip))
        requires
            timestamp < self.total(),
        ensures
            exists|i: int| self.covers(i, timestamp),
            forall|i: int|
                self.covers(i, timestamp) ==> r.0 == self.start_offset(i) && *r.1
                    == self.entries()[i].1,
    {
        proof {
            use_type_invariant(self);
        }
        let n = self.clips.len();
        let mut lo: usize = 0;
        let mut hi: usize = n;
        while hi - lo > 1
            invariant
                self.wf(),
                n == self.entries().len(),
                timestamp < self.total(),
                lo < hi <= n,
                self.start_offset(lo as int) <= timestamp,
                hi < n ==> self.start_offset(hi as int) > timestamp,
            decreases hi - lo,
        {
            let mid = lo + (hi - lo) / 2;
            if self.clips[mid].0 <= timestamp {
                lo = mid;
            } else {
                hi = mid;
            }
        }
        proof {
            assert(self.covers(lo as int, timestamp));
            assert forall|i: int| self.covers(i, timestamp) implies i == lo by {
                self.lemma_covering_clip_is_unique(i, lo as int, timestamp);
            }
        }
        (self.clips[lo].0, &self.clips[lo].1)
    }

    /// Each clip starts where the one before it ends, the first at zero, and
    /// the whole is as long as the clips together.
    pub proof fn lemma_offsets_chain(&self)
        requires
            self.wf(),
        ensures
            self.entries().len() > 0 ==> self.start_offset(0) == 0,
            forall|i: int|
                0 <= i && i + 1 < self.entries().len() ==> #[trigger] self.start_offset(i + 1)
                    == self.start_offset(i) + self.entries()[i].1.length,
            self.entries().len() > 0 ==> self.total() == self.start_offset(
                self.entries().len() - 1,
            ) + self.entries().last().1.length,
            self.total() == length_before(self.clip_seq(), self.entries().len() as int),
    {
    }

    /// Start offsets never decrease along the timeline, and none lies past
    /// its end.
    pub proof fn lemma_offsets_ordered(&self, i: int, j: int)
        requires
            self.wf(),
            0 <= i <= j < self.entries().len(),
        ensures
            self.start_offset(i) <= self.start_offset(j),
            self.start_offset(j) + self.entries()[j].1.length <= self.total(),
    {
        lemma_length_before_monotonic(self.clip_seq(), i, j);
        lemma_length_before_monotonic(self.clip_seq(), j + 1, self.entries().len() as int);
    }

    /// A timestamp falls into at most one clip.
    pub proof fn lemma_covering_clip_is_unique(&self, i: int, j: int, t: u128)
        requires
            self.wf(),
            self.covers(i, t),
            self.covers(j, t),
        ensures
            i == j,
    {
        if i < j {
            lemma_length_before_monotonic(self.clip_seq(), i + 1, j);
        } else if j < i {
            lemma_length_before_monotonic(self.clip_seq(), j + 1, i);
        }
    }
}

/// Why a timeline could not be built from what was found.
#[derive(Debug)]
pub enum BuildError<E> {
    /// The clip found at place `found` could not be made, for the given
    /// cause.
    Clip { found: usize, cause: E },
    /// The lengths of the clips add up to more than `u128::MAX`
    /// nanoseconds.
    TooLong,
}

/// The place of the first clip that could not be made, or the number of
/// results where every clip could.
pub open spec fn first_failure<E>(results: Seq<Result<TimelineClip, E>>) -> int
    decreases results.len(),
{
    if results.len() == 0 {
        0
    } else if results[0] is Err {
        0
    } else {
        1 + first_failure(results.drop_first())
    }
}

/// The clips of the first `n` results, which have all been made.
pub open spec fn made_clips<E>(results: Seq<Result<TimelineClip, E>>, n: int) -> Seq<TimelineClip> {
    Seq::new(n as nat, |i: int| results[i]->Ok_0)
}

/// The first failure lies among the results or just past them, and every
/// clip before it has been made.
pub proof fn lemma_first_failure<E>(results: Seq<Result<TimelineClip, E>>)
    ensures
        0 <= first_failure(results) <= results.len(),
        first_failure(results) < results.len() ==> results[first_failure(results)] is Err,
        forall|i: int| 0 <= i < first_failure(results) ==> (#[trigger] results[i]) is Ok,
    decreases results.len(),
{
    if results.len() > 0 && results[0] is Ok {
        lemma_first_failure(results.drop_first());
        assert forall|i: int| 0 <= i < first_failure(results) implies (#[trigger] results[i]) is Ok by {
            if i > 0 {
                assert(results.drop_first()[i - 1] == results[i]);
            }
        }
    }
}

impl Timeline {
    /// Builds the timeline of the clips that were found, given for each, in
    /// the order in which they were found, the clip or the cause for which
    /// it could not be made. One clip that could not be made is enough for
    /// no timeline to be built: the first such is reported.
    pub fn from_results<E>(results: Vec<Result<TimelineClip, E>>) -> (r: Result<
        Timeline,
        BuildError<E>,
    >)
        ensures
            first_failure(results@) < results@.len() ==> r == Err::<Timeline, BuildError<E>>(
                BuildError::Clip {
                    found: first_failure(results@) as usize,
                    cause: results@[first_failure(results@)]->Err_0,
                },
            ),
            first_failure(results@) == results@.len() ==> {
                let clips = made_clips(results@, results@.len() as int);
                &&& r is Ok <==> length_before(clips, clips.len() as int) <= u128::MAX
                &&& r matches Ok(t) ==> t.total() == length_before(clips, clips.len() as int)
                &&& r matches Ok(t) ==> t.wf() && exists|order: Seq<int>|
                    is_creation_order(t.clip_seq(), clips, order)
                &&& r matches Err(e) ==> e is TooLong
            },
    {
        let ghost all = results@;
        let mut clips: Vec<TimelineClip> = Vec::new();
        proof {
            lemma_first_failure(all);
        }
        for result in it: results
            invariant
                it.seq() == all,
                all == results@,
                it.index() <= first_failure(all),
                clips@ == made_clips(all, it.index() as int),
                0 <= first_failure(all) <= all.len(),
                first_failure(all) < all.len() ==> all[first_failure(all)] is Err,
                forall|i: int| 0 <= i < first_failure(all) ==> (#[trigger] all[i]) is Ok,
        {
            let found: usize = clips.len();
            match result {
                Ok(clip) => {
                    clips.push(clip);
                    proof {
                        assert(clips@ =~= made_clips(all, found + 1));
                    }
                },
                Err(cause) => {
                    return Err(BuildError::Clip { found, cause });
                },
            }
        }
        match Timeline::new(clips) {
            Ok(timeline) => Ok(timeline),
            Err(_) => Err(BuildError::TooLong),
        }
    }
}

} // verus!
