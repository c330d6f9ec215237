//! What the player plays: an ordered list of segments of sources, placed on a
//! timeline.
//!
//! Timeline time is microseconds. A source range is kept in the source's own
//! time base, and the conversions between the two round in opposite
//! directions: a frame's place on the timeline up, a timeline position's
//! source tick down, so that a frame survives the round trip.
use crate::num::{clamped, larger, max, saturating_add, saturating_mul, saturating_sub, smaller};
use crate::probe::Rational;
use crate::text::{decimal, push_decimal};
use crate::time::{microseconds, micros, rescale, rescaled, rounded, up_then_down_is_the_same};
use crate::time::{rescale_denominator, rescale_numerator, Rounding};
use vstd::prelude::*;

verus! {

/// A position on the playback timeline, in microseconds from its start.
pub type ProgramTime = i64;

/// A track of the timeline, for monitoring: solo and mute are per track.
pub type TrackId = u32;

/// The track the main segments, the pictures and their own sound, are on.
pub const MAIN_TRACK: TrackId = 0;

/// How far two segments may overlap and still be a seam: the rounding of two
/// exact frame positions to whole microseconds. The later segment wins.
pub const SEAM_TOLERANCE: ProgramTime = 2;

/// A stream of a probed file, as far as choosing one to preview goes.
#[derive(Debug, Clone, Copy, PartialEq, Eq, Structural)]
pub struct StreamInfo {
    pub index: u32,
    pub time_base: Option<Rational>,
    pub is_default: bool,
    /// A cover image rather than moving pictures.
    pub is_attached_picture: bool,
    /// Counter-clockwise rotation the pictures are drawn with.
    pub rotation: u32,
    pub average_frame_rate: Option<Rational>,
    pub base_frame_rate: Option<Rational>,
}

/// The video stream a preview shows.
#[derive(Debug, Clone, Copy, PartialEq, Eq, Structural)]
pub struct VideoStream {
    pub index: u32,
    pub time_base: Rational,
    pub rotation: u32,
    pub average_frame_rate: Option<Rational>,
    pub base_frame_rate: Option<Rational>,
}

/// The audio stream a preview plays.
#[derive(Debug, Clone, Copy, PartialEq, Eq, Structural)]
pub struct AudioStream {
    pub index: u32,
    pub time_base: Rational,
}

/// A source file, with the streams the preview uses.
#[derive(Debug, Clone, Copy, PartialEq, Eq, Structural)]
pub struct SourceMedia {
    /// Which opened file this is: two sources are the same exactly when their
    /// numbers are.
    pub id: u64,
    pub video: Option<VideoStream>,
    pub audio: Option<AudioStream>,
    /// Pictures are decoded from a preview proxy instead of the file.
    pub proxy: bool,
}

/// Why a source or a plan cannot be played.
#[derive(Debug, PartialEq, Eq)]
pub enum PlanError {
    /// The file has neither audio nor video.
    NothingToPlay(String),
    Empty,
    /// The segment overlaps the one before it.
    Overlap(usize),
    /// The segment ends before it starts.
    Inverted(usize),
    DuplicateTrack(TrackId),
    /// The clip cannot be placed on the playback timeline.
    Unplaceable(u64),
}

impl PlanError {
    /// The error as a person reads it.
    pub open spec fn words(&self) -> Seq<char> {
        match self {
            PlanError::NothingToPlay(path) => path@ + " has no audio or video to play"@,
            PlanError::Empty => "the timeline is empty"@,
            PlanError::Overlap(i) => "segment "@ + decimal(*i as nat)
                + " overlaps the one before it"@,
            PlanError::Inverted(i) => "segment "@ + decimal(*i as nat)
                + " ends before it starts"@,
            PlanError::DuplicateTrack(track) => "track "@ + decimal(*track as nat)
                + " is used twice"@,
            PlanError::Unplaceable(clip) => "clip "@ + decimal(*clip as nat)
                + " cannot be placed on the playback timeline"@,
        }
    }

    /// The error as a person reads it.
    pub fn message(&self) -> (text: String)
        ensures
            text@ == self.words(),
    {
        match self {
            PlanError::NothingToPlay(path) => path.clone().concat(
                " has no audio or video to play",
            ),
            PlanError::Empty => "the timeline is empty".to_owned(),
            PlanError::Overlap(i) => {
                let mut text: String = "segment ".to_owned();
                push_decimal(&mut text, *i as u64);
                text.append(" overlaps the one before it");
                text
            },
            PlanError::Inverted(i) => {
                let mut text: String = "segment ".to_owned();
                push_decimal(&mut text, *i as u64);
                text.append(" ends before it starts");
                text
            },
            PlanError::DuplicateTrack(track) => {
                let mut text: String = "track ".to_owned();
                push_decimal(&mut text, *track as u64);
                text.append(" is used twice");
                text
            },
            PlanError::Unplaceable(clip) => {
                let mut text: String = "clip ".to_owned();
                push_decimal(&mut text, *clip);
                text.append(" cannot be placed on the playback timeline");
                text
            },
        }
    }
}

/// The stream chosen of `streams`: the first default-flagged one if there is
/// one, otherwise the first. Cover images are never chosen.
pub open spec fn chosen(streams: Seq<StreamInfo>, index: Option<usize>) -> bool {
    let usable = |i: int| 0 <= i < streams.len() && !streams[i].is_attached_picture;
    match index {
        Some(at) => {
            &&& usable(at as int)
            &&& streams[at as int].is_default ==> forall|j: int|
                0 <= j < at && !(#[trigger] streams[j]).is_attached_picture
                    ==> !streams[j].is_default
            &&& !streams[at as int].is_default ==> {
                &&& forall|j: int| 0 <= j < at ==> (#[trigger] streams[j]).is_attached_picture
                &&& forall|j: int|
                    0 <= j < streams.len() && !(#[trigger] streams[j]).is_attached_picture
                        ==> !streams[j].is_default
            }
        },
        None => forall|j: int|
            0 <= j < streams.len() ==> (#[trigger] streams[j]).is_attached_picture,
    }
}

/// The default-flagged stream if there is one, otherwise the first; never a
/// cover image.
pub fn pick(streams: &Vec<StreamInfo>) -> (index: Option<usize>)
    ensures
        chosen(streams@, index),
{
    let mut first: Option<usize> = None;
    let mut i: usize = 0;
    while i < streams.len()
        invariant
            i <= streams.len(),
            forall|j: int|
                0 <= j < i && !(#[trigger] streams@[j]).is_attached_picture
                    ==> !streams@[j].is_default,
            match first {
                Some(at) => at < i && !streams@[at as int].is_attached_picture && forall|j: int|
                    0 <= j < at ==> (#[trigger] streams@[j]).is_attached_picture,
                None => forall|j: int| 0 <= j < i ==> (#[trigger] streams@[j]).is_attached_picture,
            },
        decreases streams.len() - i,
    {
        let stream: StreamInfo = streams[i];
        if !stream.is_attached_picture {
            if stream.is_default {
                return Some(i);
            }
            if first.is_none() {
                first = Some(i);
            }
        }
        i = i + 1;
    }
    first
}

/// A usable time base: the stream's, or microseconds where it has none that
/// is positive.
pub open spec fn usable_base(time_base: Option<Rational>) -> Rational {
    match time_base {
        Some(base) => if base.positive() {
            base
        } else {
            micros()
        },
        None => micros(),
    }
}

/// A usable time base.
pub fn valid(time_base: Option<Rational>) -> (base: Rational)
    ensures
        base == usable_base(time_base),
        base.positive(),
{
    match time_base {
        Some(base) => if base.is_positive() {
            base
        } else {
            microseconds()
        },
        None => microseconds(),
    }
}

impl SourceMedia {
    /// The default video stream (never a cover image) and the default audio
    /// stream of a file; an error where it has neither.
    pub fn new(
        id: u64,
        path: &str,
        video: &Vec<StreamInfo>,
        audio: &Vec<StreamInfo>,
    ) -> (source: Result<SourceMedia, PlanError>)
        ensures
            exists|v: Option<usize>, a: Option<usize>|
                #![trigger chosen(video@, v), chosen(audio@, a)]
                chosen(video@, v) && chosen(audio@, a) && match source {
                    Ok(source) => {
                        &&& v is Some || a is Some
                        &&& source.id == id && !source.proxy
                        &&& source.video == (match v {
                            Some(at) => Some(
                                VideoStream {
                                    index: video@[at as int].index,
                                    time_base: usable_base(video@[at as int].time_base),
                                    rotation: video@[at as int].rotation,
                                    average_frame_rate: video@[at as int].average_frame_rate,
                                    base_frame_rate: video@[at as int].base_frame_rate,
                                },
                            ),
                            None => None,
                        })
                        &&& source.audio == (match a {
                            Some(at) => Some(
                                AudioStream {
                                    index: audio@[at as int].index,
                                    time_base: usable_base(audio@[at as int].time_base),
                                },
                            ),
                            None => None,
                        })
                    },
                    Err(error) => {
                        &&& v is None && a is None
                        &&& error matches PlanError::NothingToPlay(named) && named@ == path@
                    },
                },
    {
        let v: Option<usize> = pick(video);
        let a: Option<usize> = pick(audio);
        assert(chosen(video@, v) && chosen(audio@, a));
        let video_stream: Option<VideoStream> = match v {
            Some(at) => {
                let stream: StreamInfo = video[at];
                Some(
                    VideoStream {
                        index: stream.index,
                        time_base: valid(stream.time_base),
                        rotation: stream.rotation,
                        average_frame_rate: stream.average_frame_rate,
                        base_frame_rate: stream.base_frame_rate,
                    },
                )
            },
            None => None,
        };
        let audio_stream: Option<AudioStream> = match a {
            Some(at) => {
                let stream: StreamInfo = audio[at];
                Some(AudioStream { index: stream.index, time_base: valid(stream.time_base) })
            },
            None => None,
        };
        if video_stream.is_none() && audio_stream.is_none() {
            return Err(PlanError::NothingToPlay(path.to_owned()));
        }
        Ok(SourceMedia { id, video: video_stream, audio: audio_stream, proxy: false })
    }

    /// Preview pictures from a proxy, or not. Sound, timing and every frame
    /// decision still come from the file.
    pub fn with_proxy(self, proxy: bool) -> (source: SourceMedia)
        ensures
            source == (SourceMedia { proxy, ..self }),
    {
        let mut source = self;
        source.proxy = proxy;
        source
    }

    /// The time base a segment of this source is measured in: the video's, so
    /// that frames are exact, or the audio's when there is no video.
    pub open spec fn base(&self) -> Rational {
        match self.video {
            Some(video) => video.time_base,
            None => match self.audio {
                Some(audio) => audio.time_base,
                None => micros(),
            },
        }
    }

    /// The time base a segment of this source is measured in.
    pub fn time_base(&self) -> (base: Rational)
        ensures
            base == self.base(),
    {
        match self.video {
            Some(video) => video.time_base,
            None => match self.audio {
                Some(audio) => audio.time_base,
                None => microseconds(),
            },
        }
    }

    /// The whole file, as a source range: from the first tick, at least one
    /// tick long.
    pub fn full_range(first: i64, length: i64) -> (range: (i64, i64))
        ensures
            range == (first, clamped(first + larger(length as int, 1))),
    {
        (first, saturating_add(first, max(length, 1)))
    }
}

/// One contiguous piece of one source, placed on the timeline.
#[derive(Debug, Clone, Copy, PartialEq, Eq, Structural)]
pub struct Segment {
    pub source: SourceMedia,
    /// The first source tick shown, in the source's time base.
    pub source_in: i64,
    /// The first source tick not shown.
    pub source_out: i64,
    /// Where the segment starts on the timeline.
    pub timeline_start: ProgramTime,
    /// How fast the source plays: `2/1` is double speed.
    pub speed: Rational,
    /// The clip's audio chain: two segments sound the same exactly when their
    /// chains' numbers are equal.
    pub chain: u64,
    /// The clip the segment plays, when it came from the edit graph.
    pub clip: Option<u64>,
}

impl Segment {
    /// The time base in which one source tick is one tick of timeline time:
    /// the source's, stretched by the speed.
    pub open spec fn played(&self) -> Rational {
        Rational {
            num: clamped(self.source.base().num * self.speed.den),
            den: clamped(self.source.base().den * self.speed.num),
        }
    }

    /// The segment's length on the timeline.
    pub open spec fn length(&self) -> i64 {
        match rescaled(
            clamped(self.source_out - self.source_in),
            self.played(),
            micros(),
            Rounding::Up,
        ) {
            Some(length) => length,
            None => 0,
        }
    }

    /// Where the segment ends on the timeline.
    pub open spec fn end(&self) -> i64 {
        clamped(self.timeline_start + self.length())
    }

    /// The source tick shown at timeline position `t`.
    pub open spec fn tick_at(&self, t: i64) -> i64 {
        clamped(
            self.source_in + (match rescaled(
                clamped(t - self.timeline_start),
                micros(),
                self.played(),
                Rounding::Down,
            ) {
                Some(ticks) => ticks,
                None => 0,
            }),
        )
    }

    /// Where the frame at source tick `pts` starts on the timeline.
    pub open spec fn place_of(&self, pts: i64) -> i64 {
        clamped(
            self.timeline_start + (match rescaled(
                clamped(larger(clamped(pts - self.source_in) as int, 0)),
                self.played(),
                micros(),
                Rounding::Up,
            ) {
                Some(offset) => offset,
                None => 0,
            }),
        )
    }

    /// Timeline position `t` lies in the segment.
    pub open spec fn holds(&self, t: i64) -> bool {
        self.timeline_start <= t < self.end()
    }

    /// A segment at normal speed with no audio chain.
    pub fn new(
        source: SourceMedia,
        source_in: i64,
        source_out: i64,
        timeline_start: ProgramTime,
    ) -> (segment: Segment)
        ensures
            segment == (Segment {
                source,
                source_in,
                source_out,
                timeline_start,
                speed: Rational { num: 1, den: 1 },
                chain: 0,
                clip: None,
            }),
    {
        Segment {
            source,
            source_in,
            source_out,
            timeline_start,
            speed: Rational { num: 1, den: 1 },
            chain: 0,
            clip: None,
        }
    }

    pub fn time_base(&self) -> (base: Rational)
        ensures
            base == self.source.base(),
    {
        self.source.time_base()
    }

    /// The source's time base stretched by the speed.
    pub fn played_time_base(&self) -> (base: Rational)
        ensures
            base == self.played(),
    {
        let base: Rational = self.time_base();
        Rational {
            num: saturating_mul(base.num, self.speed.den),
            den: saturating_mul(base.den, self.speed.num),
        }
    }

    /// The segment's length on the timeline.
    pub fn duration(&self) -> (length: ProgramTime)
        ensures
            length == self.length(),
    {
        match rescale(
            saturating_sub(self.source_out, self.source_in),
            self.played_time_base(),
            microseconds(),
            Rounding::Up,
        ) {
            Some(length) => length,
            None => 0,
        }
    }

    pub fn timeline_end(&self) -> (end: ProgramTime)
        ensures
            end == self.end(),
    {
        saturating_add(self.timeline_start, self.duration())
    }

    /// The source tick shown at timeline position `t`, rounded down: the frame
    /// on screen is the newest one at or before it.
    pub fn source_at(&self, t: ProgramTime) -> (tick: i64)
        ensures
            tick == self.tick_at(t),
    {
        let offset: i64 = saturating_sub(t, self.timeline_start);
        let ticks: i64 = match rescale(
            offset,
            microseconds(),
            self.played_time_base(),
            Rounding::Down,
        ) {
            Some(ticks) => ticks,
            None => 0,
        };
        saturating_add(self.source_in, ticks)
    }

    /// Where the frame at source tick `pts` starts on the timeline, rounded
    /// up, so that [`Segment::source_at`] of the result is `pts` again. A
    /// frame that began before the segment's in point starts at the segment.
    pub fn program_at(&self, pts: i64) -> (place: ProgramTime)
        ensures
            place == self.place_of(pts),
    {
        let offset: i64 = max(saturating_sub(pts, self.source_in), 0);
        let micros: i64 = match rescale(
            offset,
            self.played_time_base(),
            microseconds(),
            Rounding::Up,
        ) {
            Some(micros) => micros,
            None => 0,
        };
        saturating_add(self.timeline_start, micros)
    }

    pub fn contains(&self, t: ProgramTime) -> (yes: bool)
        ensures
            yes == self.holds(t),
    {
        self.timeline_start <= t && t < self.timeline_end()
    }
}

/// A frame survives the round trip to the timeline and back: wherever the
/// conversions stay in range, and a tick lasts a microsecond at least, the
/// source tick shown at a frame's place is that frame's.
pub proof fn a_frame_survives_the_round_trip(segment: &Segment, pts: i64)
    requires
        segment.played().positive(),
        segment.played().den <= segment.played().num * 1_000_000,
        segment.source_in <= pts,
        pts - segment.source_in <= i64::MAX,
        rescaled(
            (pts - segment.source_in) as i64,
            segment.played(),
            micros(),
            Rounding::Up,
        ) matches Some(offset) && segment.timeline_start + offset <= i64::MAX
            && offset * segment.played().den <= i128::MAX,
    ensures
        segment.tick_at(segment.place_of(pts)) == pts,
{
    let played = segment.played();
    let ticks = pts - segment.source_in;
    let (n, d) = (played.den as int, played.num * 1_000_000);
    let offset = rescaled(ticks as i64, played, micros(), Rounding::Up)->0;
    assert(rescale_numerator(ticks, played, micros()) == ticks * d);
    assert(rescale_denominator(played, micros()) == n);
    up_then_down_is_the_same(ticks, n, d);
    assert(rescale_numerator(offset as int, micros(), played) == offset * n) by {
        assert(offset * (1 * played.den) == offset * n);
    }
    assert(rescale_denominator(micros(), played) == d) by {
        assert(1_000_000 * played.num == played.num * 1_000_000);
    }
    assert(offset >= 0) by (nonlinear_arith)
        requires
            offset == rounded(ticks * d, n, Rounding::Up),
            ticks >= 0,
            d > 0,
            n > 0,
    ;
    assert(offset * n >= 0) by (nonlinear_arith)
        requires
            offset >= 0,
            n > 0,
    ;
}

/// A track of sound only.
#[derive(Debug)]
pub struct AudioTrack {
    pub id: TrackId,
    pub segments: Vec<Segment>,
}

/// What is wrong with segment `i` of `segments`: it runs backwards, or starts
/// before the one before it has ended, beyond the tolerance of a seam.
pub open spec fn fault(segments: Seq<Segment>, i: int) -> Option<PlanError> {
    if segments[i].source_out <= segments[i].source_in {
        Some(PlanError::Inverted(i as usize))
    } else if i > 0 && segments[i].timeline_start + SEAM_TOLERANCE < segments[i - 1].end() {
        Some(PlanError::Overlap(i as usize))
    } else {
        None
    }
}

/// Segments in order, none overlapping, none backwards.
pub open spec fn playable(segments: Seq<Segment>) -> bool {
    forall|i: int| 0 <= i < segments.len() ==> #[trigger] fault(segments, i) is None
}

/// What a check of `segments` gives: the first fault, if there is one.
pub open spec fn checked(segments: Seq<Segment>, result: Result<(), PlanError>) -> bool {
    match result {
        Ok(_) => playable(segments),
        Err(error) => exists|i: int|
            0 <= i < segments.len() && #[trigger] fault(segments, i) == Some(error) && forall|j: int|
                0 <= j < i ==> #[trigger] fault(segments, j) is None,
    }
}

/// Segments in order, none overlapping, none backwards.
pub fn check(segments: &Vec<Segment>) -> (result: Result<(), PlanError>)
    ensures
        checked(segments@, result),
{
    let mut i: usize = 0;
    while i < segments.len()
        invariant
            i <= segments.len(),
            forall|j: int| 0 <= j < i ==> #[trigger] fault(segments@, j) is None,
        decreases segments.len() - i,
    {
        let segment: Segment = segments[i];
        if segment.source_out <= segment.source_in {
            assert(fault(segments@, i as int) == Some(PlanError::Inverted(i)));
            return Err(PlanError::Inverted(i));
        }
        if i > 0 {
            let end: i64 = segments[i - 1].timeline_end();
            if (segment.timeline_start as i128) + (SEAM_TOLERANCE as i128) < end as i128 {
                assert(fault(segments@, i as int) == Some(PlanError::Overlap(i)));
                return Err(PlanError::Overlap(i));
            }
        }
        i = i + 1;
    }
    Ok(())
}

/// How many segments at the front of `segments` have started by `t`.
pub open spec fn started(segments: Seq<Segment>, t: i64) -> int
    decreases segments.len(),
{
    if segments.len() == 0 || segments[0].timeline_start > t {
        0
    } else {
        1 + started(segments.skip(1), t)
    }
}

/// `started` is where the segments that have started end.
pub proof fn lemma_started_is(segments: Seq<Segment>, t: i64, n: int)
    requires
        0 <= n <= segments.len(),
        forall|j: int| 0 <= j < n ==> (#[trigger] segments[j]).timeline_start <= t,
        n < segments.len() ==> segments[n].timeline_start > t,
    ensures
        started(segments, t) == n,
    decreases segments.len(),
{
    if n > 0 {
        assert(segments[0].timeline_start <= t);
        assert forall|j: int| 0 <= j < n - 1 implies (
        #[trigger] segments.skip(1)[j]).timeline_start <= t by {
            assert(segments.skip(1)[j] == segments[j + 1]);
        }
        lemma_started_is(segments.skip(1), t, n - 1);
    }
}

/// How many segments at the front have started by `t`.
fn started_by(segments: &Vec<Segment>, t: i64) -> (count: usize)
    ensures
        count == started(segments@, t),
        count <= segments.len(),
        forall|j: int| 0 <= j < count ==> (#[trigger] segments@[j]).timeline_start <= t,
        count < segments.len() ==> segments@[count as int].timeline_start > t,
{
    let mut i: usize = 0;
    while i < segments.len() && segments[i].timeline_start <= t
        invariant
            i <= segments.len(),
            forall|j: int| 0 <= j < i ==> (#[trigger] segments@[j]).timeline_start <= t,
        decreases segments.len() - i,
    {
        i = i + 1;
    }
    proof {
        lemma_started_is(segments@, t, i as int);
    }
    i
}

/// The segment of `segments` playing at `t`: the last that has started, if it
/// has not ended.
pub open spec fn playing_at(segments: Seq<Segment>, t: i64) -> Option<usize> {
    let n = started(segments, t);
    if n > 0 && segments[n - 1].holds(t) {
        Some((n - 1) as usize)
    } else {
        None
    }
}

/// The segment of `segments` playing at `t`, if `t` is not in a gap.
pub fn segment_at(segments: &Vec<Segment>, t: ProgramTime) -> (index: Option<usize>)
    ensures
        index == playing_at(segments@, t),
        index matches Some(i) ==> i < segments.len() && segments@[i as int].holds(t),
{
    let count: usize = started_by(segments, t);
    if count > 0 && segments[count - 1].contains(t) {
        Some(count - 1)
    } else {
        None
    }
}

/// The next position after `t` where what `segments` plays changes, or `end`.
pub open spec fn boundary_after(segments: Seq<Segment>, t: i64, end: i64) -> i64 {
    match playing_at(segments, t) {
        Some(i) => segments[i as int].end(),
        None => if started(segments, t) < segments.len() {
            segments[started(segments, t)].timeline_start
        } else {
            end
        },
    }
}

/// The next position after `t` where what `segments` plays changes, or `end`.
pub fn next_boundary(segments: &Vec<Segment>, t: ProgramTime, end: ProgramTime) -> (boundary:
    ProgramTime)
    ensures
        boundary == boundary_after(segments@, t, end),
{
    if let Some(i) = segment_at(segments, t) {
        return segments[i].timeline_end();
    }
    let next: usize = started_by(segments, t);
    if next < segments.len() {
        segments[next].timeline_start
    } else {
        end
    }
}

/// The next boundary after a position before the end lies after it.
pub proof fn a_boundary_lies_ahead(segments: Seq<Segment>, t: i64, end: i64)
    requires
        t < end,
        segments.len() <= usize::MAX,
    ensures
        boundary_after(segments, t, end) > t,
{
    lemma_started_bounds(segments, t);
}

/// Every segment before `started` has started, and the one there has not.
pub proof fn lemma_started_bounds(segments: Seq<Segment>, t: i64)
    ensures
        0 <= started(segments, t) <= segments.len(),
        forall|j: int|
            0 <= j < started(segments, t) ==> (#[trigger] segments[j]).timeline_start <= t,
        started(segments, t) < segments.len() ==> segments[started(segments, t)].timeline_start > t,
    decreases segments.len(),
{
    if segments.len() > 0 && segments[0].timeline_start <= t {
        let rest = segments.skip(1);
        lemma_started_bounds(rest, t);
        assert forall|j: int| 0 <= j < started(segments, t) implies (
        #[trigger] segments[j]).timeline_start <= t by {
            if j > 0 {
                assert(rest[j - 1] == segments[j]);
            }
        }
        if started(segments, t) < segments.len() {
            assert(rest[started(rest, t)] == segments[started(segments, t)]);
        }
    }
}

/// Everything the player plays, in timeline order.
#[derive(Debug)]
pub struct PlaybackPlan {
    pub segments: Vec<Segment>,
    /// Further tracks of sound only, mixed with the main segments' own.
    pub audio_tracks: Vec<AudioTrack>,
    /// The rate timecode is counted in.
    pub frame_rate: Rational,
}

/// The frame rate timecode is counted in: the first video source's, or thirty
/// where there is none that is positive.
pub open spec fn plan_rate(segments: Seq<Segment>) -> Rational
    decreases segments.len(),
{
    if segments.len() == 0 {
        Rational { num: 30, den: 1 }
    } else {
        match segments[0].source.video {
            Some(video) => {
                let rate = if video.average_frame_rate is Some {
                    video.average_frame_rate
                } else {
                    video.base_frame_rate
                };
                match rate {
                    Some(rate) => if rate.positive() {
                        rate
                    } else {
                        Rational { num: 30, den: 1 }
                    },
                    None => Rational { num: 30, den: 1 },
                }
            },
            None => plan_rate(segments.skip(1)),
        }
    }
}

/// The rate of the first video source of `segments`.
fn first_rate(segments: &Vec<Segment>) -> (rate: Rational)
    ensures
        rate == plan_rate(segments@),
{
    let mut i: usize = 0;
    assert(segments@.skip(0) =~= segments@);
    while i < segments.len()
        invariant
            i <= segments.len(),
            plan_rate(segments@) == plan_rate(segments@.skip(i as int)),
        decreases segments.len() - i,
    {
        if let Some(video) = segments[i].source.video {
            let rate: Option<Rational> = match video.average_frame_rate {
                Some(rate) => Some(rate),
                None => video.base_frame_rate,
            };
            return match rate {
                Some(rate) => if rate.is_positive() {
                    rate
                } else {
                    Rational { num: 30, den: 1 }
                },
                None => Rational { num: 30, den: 1 },
            };
        }
        assert(segments@.skip(i as int).skip(1) =~= segments@.skip(i + 1));
        i = i + 1;
    }
    Rational { num: 30, den: 1 }
}

/// The greatest of the ends of the tracks that have segments, where one does.
pub open spec fn last_end(tracks: Seq<AudioTrack>) -> Option<i64>
    decreases tracks.len(),
{
    if tracks.len() == 0 {
        None
    } else {
        later(last_end(tracks.drop_last()), track_end(tracks.last().segments@))
    }
}

/// Where a track's last segment ends.
pub open spec fn track_end(segments: Seq<Segment>) -> Option<i64> {
    if segments.len() == 0 {
        None
    } else {
        Some(segments.last().end())
    }
}

/// The later of two positions, of which either may be missing.
pub open spec fn later(a: Option<i64>, b: Option<i64>) -> Option<i64> {
    match (a, b) {
        (Some(a), Some(b)) => if a >= b {
            Some(a)
        } else {
            Some(b)
        },
        (Some(a), None) => Some(a),
        (None, b) => b,
    }
}

/// The earliest of the boundaries after `t` of `tracks`, and `first`.
pub open spec fn earliest_boundary(tracks: Seq<AudioTrack>, t: i64, end: i64, first: i64) -> i64
    decreases tracks.len(),
{
    if tracks.len() == 0 {
        first
    } else {
        smaller(
            earliest_boundary(tracks.drop_last(), t, end, first) as int,
            boundary_after(tracks.last().segments@, t, end) as int,
        ) as i64
    }
}

impl PlaybackPlan {
    /// Every track is playable, and no two tracks have the same number.
    pub open spec fn wf(&self) -> bool {
        &&& playable(self.segments@)
        &&& forall|i: int|
            0 <= i < self.audio_tracks@.len() ==> playable(
                (#[trigger] self.audio_tracks@[i]).segments@,
            ) && self.audio_tracks@[i].id != MAIN_TRACK
        &&& forall|i: int, j: int|
            0 <= i < j < self.audio_tracks@.len() ==> (#[trigger] self.audio_tracks@[i]).id != (
            #[trigger] self.audio_tracks@[j]).id
    }

    /// The end of the last segment on any track.
    pub open spec fn length(&self) -> i64 {
        match later(track_end(self.segments@), last_end(self.audio_tracks@)) {
            Some(end) => end,
            None => 0,
        }
    }

    /// `track` has a number that is taken.
    pub open spec fn taken(&self, id: TrackId) -> bool {
        id == MAIN_TRACK || exists|i: int|
            0 <= i < self.audio_tracks@.len() && (#[trigger] self.audio_tracks@[i]).id == id
    }

    /// Segments in timeline order, gaps allowed, overlaps not. The frame rate
    /// is the first video source's.
    pub fn new(segments: Vec<Segment>) -> (plan: Result<PlaybackPlan, PlanError>)
        ensures
            match plan {
                Ok(plan) => {
                    &&& segments@.len() > 0 && playable(segments@)
                    &&& plan.segments@ == segments@
                    &&& plan.audio_tracks@.len() == 0
                    &&& plan.frame_rate == plan_rate(segments@)
                    &&& plan.wf()
                },
                Err(error) => if segments@.len() == 0 {
                    error == PlanError::Empty
                } else {
                    checked(segments@, Err(error))
                },
            },
    {
        if segments.len() == 0 {
            return Err(PlanError::Empty);
        }
        match check(&segments) {
            Ok(_) => {
                let frame_rate: Rational = first_rate(&segments);
                Ok(PlaybackPlan { segments, audio_tracks: Vec::new(), frame_rate })
            },
            Err(error) => Err(error),
        }
    }

    /// Add a track of sound only. Its number must be free, and its segments
    /// must not overlap or run backwards.
    pub fn with_audio_track(self, track: AudioTrack) -> (plan: Result<PlaybackPlan, PlanError>)
        requires
            self.wf(),
        ensures
            match plan {
                Ok(plan) => {
                    &&& !self.taken(track.id) && playable(track.segments@)
                    &&& plan.segments == self.segments
                    &&& plan.frame_rate == self.frame_rate
                    &&& plan.audio_tracks@ == self.audio_tracks@.push(track)
                    &&& plan.wf()
                },
                Err(error) => if self.taken(track.id) {
                    error == PlanError::DuplicateTrack(track.id)
                } else {
                    checked(track.segments@, Err(error))
                },
            },
    {
        if track.id == MAIN_TRACK {
            return Err(PlanError::DuplicateTrack(track.id));
        }
        let mut i: usize = 0;
        while i < self.audio_tracks.len()
            invariant
                i <= self.audio_tracks.len(),
                track.id != MAIN_TRACK,
                forall|j: int| 0 <= j < i ==> (#[trigger] self.audio_tracks@[j]).id != track.id,
            decreases self.audio_tracks.len() - i,
        {
            if self.audio_tracks[i].id == track.id {
                assert(self.audio_tracks@[i as int].id == track.id);
                return Err(PlanError::DuplicateTrack(track.id));
            }
            i = i + 1;
        }
        match check(&track.segments) {
            Ok(_) => {},
            Err(error) => {
                return Err(error);
            },
        }
        let mut plan = self;
        plan.audio_tracks.push(track);
        Ok(plan)
    }

    /// The end of the last segment on any track, and zero where there is none.
    pub fn duration(&self) -> (end: ProgramTime)
        ensures
            end == self.length(),
    {
        let mut end: Option<i64> = None;
        let mut i: usize = 0;
        assert(self.audio_tracks@.take(0).len() == 0);
        while i < self.audio_tracks.len()
            invariant
                i <= self.audio_tracks.len(),
                end == last_end(self.audio_tracks@.take(i as int)),
            decreases self.audio_tracks.len() - i,
        {
            assert(self.audio_tracks@.take(i + 1).drop_last() =~= self.audio_tracks@.take(
                i as int,
            ));
            end = later_of(end, end_of(&self.audio_tracks[i].segments));
            i = i + 1;
        }
        assert(self.audio_tracks@.take(i as int) =~= self.audio_tracks@);
        match later_of(end_of(&self.segments), end) {
            Some(end) => end,
            None => 0,
        }
    }

    /// The main segment playing at `t`, if `t` is not in a gap.
    pub fn segment_at(&self, t: ProgramTime) -> (index: Option<usize>)
        ensures
            index == playing_at(self.segments@, t),
            index matches Some(i) ==> i < self.segments.len() && self.segments@[i as int].holds(t),
    {
        segment_at(&self.segments, t)
    }

    /// The first main segment starting after `t`.
    pub fn next_segment_after(&self, t: ProgramTime) -> (index: Option<usize>)
        ensures
            index == (if started(self.segments@, t) < self.segments@.len() {
                Some(started(self.segments@, t) as usize)
            } else {
                None
            }),
    {
        let next: usize = started_by(&self.segments, t);
        if next < self.segments.len() {
            Some(next)
        } else {
            None
        }
    }

    /// The main segment with the number `i`.
    pub fn segment(&self, i: usize) -> (segment: Option<Segment>)
        ensures
            segment == (if i < self.segments@.len() {
                Some(self.segments@[i as int])
            } else {
                None
            }),
    {
        if i < self.segments.len() {
            Some(self.segments[i])
        } else {
            None
        }
    }

    /// The next timeline position after `t` where what plays changes on any
    /// track: a segment's end, or the start of the next one after a gap.
    pub fn next_boundary(&self, t: ProgramTime) -> (boundary: ProgramTime)
        ensures
            boundary == earliest_boundary(
                self.audio_tracks@,
                t,
                self.length(),
                boundary_after(self.segments@, t, self.length()),
            ),
    {
        let end: i64 = self.duration();
        let first: i64 = next_boundary(&self.segments, t, end);
        let mut boundary: i64 = first;
        let mut i: usize = 0;
        assert(self.audio_tracks@.take(0).len() == 0);
        while i < self.audio_tracks.len()
            invariant
                i <= self.audio_tracks.len(),
                boundary == earliest_boundary(self.audio_tracks@.take(i as int), t, end, first),
            decreases self.audio_tracks.len() - i,
        {
            assert(self.audio_tracks@.take(i + 1).drop_last() =~= self.audio_tracks@.take(
                i as int,
            ));
            boundary =
            crate::num::min(boundary, next_boundary(&self.audio_tracks[i].segments, t, end));
            i = i + 1;
        }
        assert(self.audio_tracks@.take(i as int) =~= self.audio_tracks@);
        boundary
    }
}

/// Where a track's last segment ends.
fn end_of(segments: &Vec<Segment>) -> (end: Option<i64>)
    ensures
        end == track_end(segments@),
{
    if segments.len() == 0 {
        None
    } else {
        Some(segments[segments.len() - 1].timeline_end())
    }
}

/// The later of two positions.
fn later_of(a: Option<i64>, b: Option<i64>) -> (r: Option<i64>)
    ensures
        r == later(a, b),
{
    match (a, b) {
        (Some(a), Some(b)) => if a >= b {
            Some(a)
        } else {
            Some(b)
        },
        (Some(a), None) => Some(a),
        (None, b) => b,
    }
}

/// Whether two segments play the same thing at the same place, so a decoder
/// for one serves the other. Their audio chains may differ.
pub fn same_segment(a: &Segment, b: &Segment) -> (same: bool)
    ensures
        same == (a.source.id == b.source.id && a.source_in == b.source_in && a.source_out
            == b.source_out && a.timeline_start == b.timeline_start && a.speed == b.speed),
{
    a.source.id == b.source.id && a.source_in == b.source_in && a.source_out == b.source_out
        && a.timeline_start == b.timeline_start && a.speed == b.speed
}

} // verus!
