//! The preview of an edited sequence.
//!
//! The pictures, and their own sound, come from the first video track; every
//! audio track is a sound-only track. A clip whose source is not there leaves
//! a gap, and so does a held or reversed clip.
use crate::playback::plan::{
    check, checked, fault, plan_rate, playable, AudioTrack, MAIN_TRACK, PlanError, PlaybackPlan, Segment, SourceMedia, TrackId,
};
use crate::probe::Rational;
use crate::project::{Placement, SourceId, Timeline, Track, TrackKind};
use crate::time::{micros, microseconds, rescale, rescaled, Rounding};
use std::collections::BTreeMap;
use vstd::prelude::*;

verus! {

/// A clip as a segment: its range in whole ticks of its source, never made
/// smaller, and its start in microseconds; nothing where one does not fit.
pub open spec fn placed(placement: Placement, source: SourceMedia, sequence: Rational) -> Option<
    Segment,
> {
    match (
        rescaled(placement.source_in, placement.time_base, source.base(), Rounding::Down),
        rescaled(placement.source_out, placement.time_base, source.base(), Rounding::Up),
        rescaled(placement.start, sequence, micros(), Rounding::Down),
    ) {
        (Some(source_in), Some(source_out), Some(timeline_start)) => Some(
            Segment {
                source,
                source_in,
                source_out,
                timeline_start,
                speed: placement.speed,
                chain: placement.chain,
                clip: Some(placement.clip),
            },
        ),
        _ => None,
    }
}

/// The clip of `placement` on the playback timeline.
pub fn segment_of(placement: &Placement, source: &SourceMedia, sequence: Rational) -> (result:
    Result<Segment, PlanError>)
    ensures
        match placed(*placement, *source, sequence) {
            Some(segment) => result == Ok::<Segment, PlanError>(segment),
            None => result == Err::<Segment, PlanError>(PlanError::Unplaceable(placement.clip)),
        },
{
    let base = source.time_base();
    let source_in = rescale(placement.source_in, placement.time_base, base, Rounding::Down);
    let source_out = rescale(placement.source_out, placement.time_base, base, Rounding::Up);
    let start = rescale(placement.start, sequence, microseconds(), Rounding::Down);
    match (source_in, source_out, start) {
        (Some(source_in), Some(source_out), Some(timeline_start)) => Ok(
            Segment {
                source: *source,
                source_in,
                source_out,
                timeline_start,
                speed: placement.speed,
                chain: placement.chain,
                clip: Some(placement.clip),
            },
        ),
        _ => Err(PlanError::Unplaceable(placement.clip)),
    }
}

/// The first `count` clips of a track as segments, without those that are held
/// or reversed and those whose source is not there; or the first that does not
/// fit.
pub open spec fn all_placed(
    placements: Seq<Placement>,
    sources: Map<SourceId, SourceMedia>,
    sequence: Rational,
    count: int,
) -> Result<Seq<Segment>, PlanError>
    decreases count,
{
    if count <= 0 {
        Ok(Seq::empty())
    } else {
        match all_placed(placements, sources, sequence, count - 1) {
            Err(error) => Err(error),
            Ok(before) => {
                let placement = placements[count - 1];
                if placement.motion is Some || !sources.dom().contains(placement.source) {
                    Ok(before)
                } else {
                    match placed(placement, sources[placement.source], sequence) {
                        Some(segment) => Ok(before.push(segment)),
                        None => Err(PlanError::Unplaceable(placement.clip)),
                    }
                }
            },
        }
    }
}

/// What does not fit among some clips does not among all.
proof fn lemma_unplaceable(
    placements: Seq<Placement>,
    sources: Map<SourceId, SourceMedia>,
    sequence: Rational,
    some: int,
    all: int,
)
    requires
        0 <= some <= all,
        all_placed(placements, sources, sequence, some) is Err,
    ensures
        all_placed(placements, sources, sequence, all) == all_placed(
            placements,
            sources,
            sequence,
            some,
        ),
    decreases all,
{
    if some < all {
        lemma_unplaceable(placements, sources, sequence, some, all - 1);
    }
}

/// The clips of a track as segments.
fn segments_of(
    placements: &Vec<Placement>,
    sources: &BTreeMap<SourceId, SourceMedia>,
    sequence: Rational,
) -> (result: Result<Vec<Segment>, PlanError>)
    ensures
        match all_placed(placements@, sources@, sequence, placements@.len() as int) {
            Ok(segments) => result is Ok && result->Ok_0@ == segments,
            Err(error) => result == Err::<Vec<Segment>, PlanError>(error),
        },
{
    broadcast use vstd::std_specs::btree::group_btree_axioms;

    let mut segments: Vec<Segment> = Vec::new();
    let mut i: usize = 0;
    while i < placements.len()
        invariant
            i <= placements@.len(),
            all_placed(placements@, sources@, sequence, i as int) == Ok::<Seq<Segment>, PlanError>(
                segments@,
            ),
        decreases placements@.len() - i,
    {
        let placement = &placements[i];
        if placement.motion.is_none() {
            if let Some(source) = sources.get(&placement.source) {
                match segment_of(placement, source, sequence) {
                    Ok(segment) => segments.push(segment),
                    Err(error) => {
                        proof {
                            assert(all_placed(placements@, sources@, sequence, i + 1) is Err);
                            lemma_unplaceable(
                                placements@,
                                sources@,
                                sequence,
                                i + 1,
                                placements@.len() as int,
                            );
                        }
                        return Err(error);
                    },
                }
            }
        }
        i += 1;
    }
    Ok(segments)
}

/// The first fault of some segments at `i` or behind.
pub open spec fn first_fault(segments: Seq<Segment>, i: int) -> Option<PlanError>
    decreases segments.len() - i,
{
    if i >= segments.len() {
        None
    } else {
        match fault(segments, i) {
            Some(error) => Some(error),
            None => first_fault(segments, i + 1),
        }
    }
}

/// A fault with none before it is the first.
proof fn lemma_first_fault(segments: Seq<Segment>, from: int, at: int)
    requires
        0 <= from <= at < segments.len(),
        fault(segments, at) is Some,
        forall|j: int| 0 <= j < at ==> #[trigger] fault(segments, j) is None,
    ensures
        first_fault(segments, from) == fault(segments, at),
    decreases at - from,
{
    if from < at {
        assert(fault(segments, from) is None);
        lemma_first_fault(segments, from + 1, at);
    }
}

/// Playable segments have no fault.
proof fn lemma_no_fault(segments: Seq<Segment>, from: int)
    requires
        0 <= from <= segments.len(),
        playable(segments),
    ensures
        first_fault(segments, from) is None,
    decreases segments.len() - from,
{
    if from < segments.len() {
        assert(fault(segments, from) is None);
        lemma_no_fault(segments, from + 1);
    }
}

/// A check gives the first fault.
proof fn lemma_checked(segments: Seq<Segment>, result: Result<(), PlanError>)
    requires
        checked(segments, result),
    ensures
        match result {
            Ok(_) => first_fault(segments, 0) is None,
            Err(error) => first_fault(segments, 0) == Some(error),
        },
{
    match result {
        Ok(_) => {
            lemma_no_fault(segments, 0);
        },
        Err(error) => {
            let i = choose|i: int|
                0 <= i < segments.len() && #[trigger] fault(segments, i) == Some(error) && forall|
                    j: int,
                |
                    0 <= j < i ==> #[trigger] fault(segments, j) is None;
            lemma_first_fault(segments, 0, i);
        },
    }
}

/// The place of the first video track at `t` or behind.
pub open spec fn first_video(tracks: Seq<Track>, t: int) -> int
    decreases tracks.len() - t,
{
    if t >= tracks.len() || tracks[t].kind == TrackKind::Video {
        t
    } else {
        first_video(tracks, t + 1)
    }
}

/// The main segments: the first video track's, or none.
pub open spec fn main_segments(timeline: Timeline, sources: Map<SourceId, SourceMedia>) -> Result<
    Seq<Segment>,
    PlanError,
> {
    let at = first_video(timeline.tracks@, 0);
    if at < timeline.tracks@.len() {
        let placements = timeline.tracks@[at].placements@;
        match all_placed(placements, sources, timeline.time_base, placements.len() as int) {
            Err(error) => Err(error),
            Ok(segments) => match first_fault(segments, 0) {
                Some(error) => Err(error),
                None => Ok(segments),
            },
        }
    } else {
        Ok(Seq::empty())
    }
}

/// A track of sound.
pub struct SoundTrack {
    pub id: TrackId,
    pub segments: Seq<Segment>,
}

/// A track's number is taken.
pub open spec fn is_taken(tracks: Seq<SoundTrack>, id: TrackId) -> bool {
    id == MAIN_TRACK || exists|i: int| 0 <= i < tracks.len() && (#[trigger] tracks[i]).id == id
}

/// The audio tracks among the first `count` tracks; or what is wrong with the
/// first that is: a clip that does not fit, a number that is taken, a fault.
pub open spec fn sound_tracks(
    timeline: Timeline,
    sources: Map<SourceId, SourceMedia>,
    count: int,
) -> Result<Seq<SoundTrack>, PlanError>
    decreases count,
{
    if count <= 0 {
        Ok(Seq::empty())
    } else {
        match sound_tracks(timeline, sources, count - 1) {
            Err(error) => Err(error),
            Ok(before) => {
                let track = timeline.tracks@[count - 1];
                if track.kind != TrackKind::Audio {
                    Ok(before)
                } else {
                    match all_placed(
                        track.placements@,
                        sources,
                        timeline.time_base,
                        track.placements@.len() as int,
                    ) {
                        Err(error) => Err(error),
                        Ok(segments) => if is_taken(before, track.id) {
                            Err(PlanError::DuplicateTrack(track.id))
                        } else {
                            match first_fault(segments, 0) {
                                Some(error) => Err(error),
                                None => Ok(before.push(SoundTrack { id: track.id, segments })),
                            }
                        },
                    }
                }
            },
        }
    }
}

/// Nothing plays on any track.
pub open spec fn all_silent(tracks: Seq<SoundTrack>) -> bool {
    forall|i: int| 0 <= i < tracks.len() ==> (#[trigger] tracks[i]).segments.len() == 0
}

/// What the preview of a sequence plays: its main segments and its tracks of
/// sound; or why there is nothing to play.
pub open spec fn previewed(timeline: Timeline, sources: Map<SourceId, SourceMedia>) -> Result<
    (Seq<Segment>, Seq<SoundTrack>),
    PlanError,
> {
    match main_segments(timeline, sources) {
        Err(error) => Err(error),
        Ok(main) => match sound_tracks(timeline, sources, timeline.tracks@.len() as int) {
            Err(error) => Err(error),
            Ok(tracks) => if main.len() == 0 && all_silent(tracks) {
                Err(PlanError::Empty)
            } else {
                Ok((main, tracks))
            },
        },
    }
}

/// What a plan's tracks of sound are.
pub open spec fn tracks_in(tracks: Seq<AudioTrack>) -> Seq<SoundTrack> {
    tracks.map_values(|track: AudioTrack| SoundTrack { id: track.id, segments: track.segments@ })
}

/// An error of some tracks is the error of all.
proof fn lemma_track_error(
    timeline: Timeline,
    sources: Map<SourceId, SourceMedia>,
    some: int,
    all: int,
)
    requires
        0 <= some <= all,
        sound_tracks(timeline, sources, some) is Err,
    ensures
        sound_tracks(timeline, sources, all) == sound_tracks(timeline, sources, some),
    decreases all,
{
    if some < all {
        lemma_track_error(timeline, sources, some, all - 1);
    }
}

/// The main segments of the preview.
fn main_of(timeline: &Timeline, sources: &BTreeMap<SourceId, SourceMedia>) -> (result: Result<
    Vec<Segment>,
    PlanError,
>)
    ensures
        match main_segments(*timeline, sources@) {
            Ok(segments) => result is Ok && result->Ok_0@ == segments && playable(segments),
            Err(error) => result == Err::<Vec<Segment>, PlanError>(error),
        },
{
    let mut t: usize = 0;
    while t < timeline.tracks.len()
        invariant
            t <= timeline.tracks@.len(),
            first_video(timeline.tracks@, 0) == first_video(timeline.tracks@, t as int),
        decreases timeline.tracks@.len() - t,
    {
        let track = &timeline.tracks[t];
        if track.kind == TrackKind::Video {
            let segments = match segments_of(&track.placements, sources, timeline.time_base) {
                Ok(segments) => segments,
                Err(error) => {
                    return Err(error);
                },
            };
            let result = check(&segments);
            proof {
                lemma_checked(segments@, result);
            }
            return match result {
                Ok(()) => Ok(segments),
                Err(error) => Err(error),
            };
        }
        t += 1;
    }
    Ok(Vec::new())
}

impl PlaybackPlan {
    /// The preview of an edited sequence. A further video track is not
    /// composited, so it is not previewed. A clip whose source is not in
    /// `sources` leaves a gap: black and silence.
    pub fn from_timeline(timeline: &Timeline, sources: &BTreeMap<SourceId, SourceMedia>) -> (result:
        Result<PlaybackPlan, PlanError>)
        ensures
            match previewed(*timeline, sources@) {
                Ok((main, tracks)) => {
                    &&& result is Ok
                    &&& result->Ok_0.wf()
                    &&& result->Ok_0.segments@ == main
                    &&& tracks_in(result->Ok_0.audio_tracks@) == tracks
                    &&& result->Ok_0.frame_rate == timeline.frame_rate
                },
                Err(error) => result == Err::<PlaybackPlan, PlanError>(error),
            },
    {
        let main = match main_of(timeline, sources) {
            Ok(main) => main,
            Err(error) => {
                return Err(error);
            },
        };
        let mut plan = PlaybackPlan {
            segments: main,
            audio_tracks: Vec::new(),
            frame_rate: timeline.frame_rate,
        };
        let mut t: usize = 0;
        proof {
            assert(tracks_in(plan.audio_tracks@) =~= Seq::empty());
        }
        while t < timeline.tracks.len()
            invariant
                t <= timeline.tracks@.len(),
                plan.wf(),
                plan.segments == main,
                plan.frame_rate == timeline.frame_rate,
                main_segments(*timeline, sources@) == Ok::<Seq<Segment>, PlanError>(main@),
                sound_tracks(*timeline, sources@, t as int) == Ok::<Seq<SoundTrack>, PlanError>(
                    tracks_in(plan.audio_tracks@),
                ),
            decreases timeline.tracks@.len() - t,
        {
            let track = &timeline.tracks[t];
            if track.kind == TrackKind::Audio {
                let segments = match segments_of(&track.placements, sources, timeline.time_base) {
                    Ok(segments) => segments,
                    Err(error) => {
                        proof {
                            assert(sound_tracks(*timeline, sources@, t + 1) == Err::<
                                Seq<SoundTrack>,
                                PlanError,
                            >(error));
                            lemma_track_error(
                                *timeline,
                                sources@,
                                t + 1,
                                timeline.tracks@.len() as int,
                            );
                        }
                        return Err(error);
                    },
                };
                let ghost before = plan;
                let ghost held = tracks_in(before.audio_tracks@);
                let ghost more = segments@;
                proof {
                    assert(before.taken(track.id) <==> is_taken(held, track.id)) by {
                        if before.taken(track.id) && track.id != MAIN_TRACK {
                            let i = choose|i: int|
                                0 <= i < before.audio_tracks@.len() && (
                                #[trigger] before.audio_tracks@[i]).id == track.id;
                            assert(held[i].id == track.id);
                        }
                        if is_taken(held, track.id) && track.id != MAIN_TRACK {
                            let i = choose|i: int|
                                0 <= i < held.len() && (#[trigger] held[i]).id == track.id;
                            assert(before.audio_tracks@[i].id == track.id);
                        }
                    }
                }
                match plan.with_audio_track(AudioTrack { id: track.id, segments }) {
                    Ok(next) => {
                        proof {
                            lemma_no_fault(more, 0);
                            assert(tracks_in(next.audio_tracks@) =~= held.push(
                                SoundTrack { id: track.id, segments: more },
                            ));
                        }
                        plan = next;
                    },
                    Err(error) => {
                        proof {
                            if !before.taken(track.id) {
                                lemma_checked(more, Err(error));
                            }
                            assert(sound_tracks(*timeline, sources@, t + 1) == Err::<
                                Seq<SoundTrack>,
                                PlanError,
                            >(error));
                            lemma_track_error(
                                *timeline,
                                sources@,
                                t + 1,
                                timeline.tracks@.len() as int,
                            );
                        }
                        return Err(error);
                    },
                }
            }
            t += 1;
        }
        let mut silent = plan.segments.len() == 0;
        let ghost tracks = tracks_in(plan.audio_tracks@);
        let mut i: usize = 0;
        while i < plan.audio_tracks.len()
            invariant
                i <= plan.audio_tracks@.len(),
                tracks == tracks_in(plan.audio_tracks@),
                silent == (plan.segments@.len() == 0 && forall|k: int|
                    0 <= k < i ==> (#[trigger] tracks[k]).segments.len() == 0),
            decreases plan.audio_tracks@.len() - i,
        {
            assert(tracks[i as int].segments == plan.audio_tracks@[i as int].segments@);
            if plan.audio_tracks[i].segments.len() > 0 {
                silent = false;
            }
            i += 1;
        }
        if silent {
            return Err(PlanError::Empty);
        }
        Ok(plan)
    }

    /// A whole file from its first tick to its end.
    pub fn whole(source: SourceMedia, first: i64, length: i64) -> (result: Result<
        PlaybackPlan,
        PlanError,
    >)
        ensures
            ({
                let end = crate::num::clamped(first + crate::num::larger(length as int, 1));
                let segment = Segment {
                    source,
                    source_in: first,
                    source_out: end,
                    timeline_start: 0,
                    speed: Rational { num: 1, den: 1 },
                    chain: 0,
                    clip: None,
                };
                match result {
                    Ok(plan) => {
                        &&& end > first
                        &&& plan.wf()
                        &&& plan.segments@ == seq![segment]
                        &&& plan.audio_tracks@.len() == 0
                        &&& plan.frame_rate == plan_rate(seq![segment])
                    },
                    Err(error) => end <= first && error == PlanError::Inverted(0),
                }
            }),
    {
        let (source_in, source_out) = SourceMedia::full_range(first, length);
        let mut segments: Vec<Segment> = Vec::new();
        segments.push(Segment::new(source, source_in, source_out, 0));
        let ghost only = segments@;
        let result = PlaybackPlan::new(segments);
        proof {
            assert(only =~= seq![only[0]]);
            if result is Ok {
                assert(fault(only, 0) is None);
            } else {
                let i = choose|i: int|
                    0 <= i < only.len() && #[trigger] fault(only, i) == Some(result->Err_0);
                assert(i == 0);
            }
        }
        result
    }

    /// Every track that sounds, by its number: the main segments', then each
    /// track of sound.
    pub fn sound_tracks(&self) -> (list: Vec<(TrackId, &Vec<Segment>)>)
        ensures
            list@.len() == self.audio_tracks@.len() + 1,
            list@[0].0 == MAIN_TRACK,
            *list@[0].1 == self.segments,
            forall|i: int|
                0 <= i < self.audio_tracks@.len() ==> (#[trigger] list@[i + 1]).0
                    == self.audio_tracks@[i].id && *list@[i + 1].1 == self.audio_tracks@[i].segments,
    {
        let mut list: Vec<(TrackId, &Vec<Segment>)> = Vec::new();
        list.push((MAIN_TRACK, &self.segments));
        let mut i: usize = 0;
        while i < self.audio_tracks.len()
            invariant
                i <= self.audio_tracks@.len(),
                list@.len() == i + 1,
                list@[0].0 == MAIN_TRACK,
                *list@[0].1 == self.segments,
                forall|k: int|
                    0 <= k < i ==> (#[trigger] list@[k + 1]).0 == self.audio_tracks@[k].id
                        && *list@[k + 1].1 == self.audio_tracks@[k].segments,
            decreases self.audio_tracks@.len() - i,
        {
            let track = &self.audio_tracks[i];
            list.push((track.id, &track.segments));
            i += 1;
        }
        list
    }
}

/// Preview and export agree on what a clip plays: its segment's range is the
/// one its export is planned from.
pub proof fn preview_and_export_play_the_same_range(
    placement: Placement,
    source: SourceMedia,
    sequence: Rational,
)
    ensures
        placed(placement, source, sequence) matches Some(segment)
            ==> crate::export::plan::video::ticks_of(
            placement.source_in,
            placement.source_out,
            placement.time_base,
            source.base(),
        ) == Some((segment.source_in, segment.source_out)) && segment.speed == placement.speed,
{
}

} // verus!
