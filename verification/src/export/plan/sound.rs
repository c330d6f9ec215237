//! Which sounds play when.
use crate::export::plan::video::{in_ticks, ticks_of};
use crate::export::plan::{PlanError, SourceFacts};
use crate::probe::Rational;
use crate::project::{Placement, SourceId, Timeline, TrackKind};
use std::collections::BTreeMap;
use vstd::prelude::*;

verus! {

/// A clip that sounds, by its track and its place there, with the stream it
/// sounds from.
#[derive(Debug, Clone, Copy, PartialEq, Eq, Structural)]
pub struct Sound {
    pub track: usize,
    pub index: usize,
    /// Sequence frames.
    pub start: i64,
    pub end: i64,
    pub stream: u32,
    /// The audio stream's time base, which the range below is in.
    pub time_base: Rational,
    pub source_in: i64,
    pub source_out: i64,
}

/// The stream a clip sounds from, if it does: an audio clip's own, a video
/// clip's default unless the clip is silent.
pub open spec fn sounds_from(
    kind: TrackKind,
    placement: Placement,
    facts: SourceFacts,
) -> Option<u32> {
    match kind {
        TrackKind::Audio => Some(placement.stream),
        TrackKind::Video => if placement.silent {
            None
        } else {
            facts.default_audio
        },
    }
}

/// The sound of the clip at `index` of the track at `place`: nothing where it
/// has none, an error where its stream is not known.
pub open spec fn sound_of(
    timeline: Timeline,
    sources: Map<SourceId, SourceFacts>,
    place: int,
    index: int,
) -> Result<Option<Sound>, PlanError> {
    let track = timeline.tracks@[place];
    let placement = track.placements@[index];
    if !sources.dom().contains(placement.source) {
        Err(PlanError::UnknownSource(placement.source))
    } else {
        let facts = sources[placement.source];
        match sounds_from(track.kind, placement, facts) {
            None => Ok(None),
            Some(stream) => if !facts.audio@.dom().contains(stream) {
                Err(PlanError::NoAudio { file: placement.source, stream })
            } else {
                let base = facts.audio@[stream].time_base;
                match ticks_of(
                    placement.source_in,
                    placement.source_out,
                    placement.time_base,
                    base,
                ) {
                    None => Err(PlanError::Overflow(placement.clip)),
                    Some((source_in, source_out)) => Ok(
                        Some(
                            Sound {
                                track: place as usize,
                                index: index as usize,
                                start: placement.start,
                                end: placement.end_frame(),
                                stream,
                                time_base: base,
                                source_in,
                                source_out,
                            },
                        ),
                    ),
                }
            },
        }
    }
}

/// One sound more, where there is one.
pub open spec fn and_sound(sounds: Seq<Sound>, more: Option<Sound>) -> Seq<Sound> {
    match more {
        Some(sound) => sounds.push(sound),
        None => sounds,
    }
}

/// The sounds of the first `count` clips of a track, after those before; or
/// the first error.
pub open spec fn track_sounds(
    timeline: Timeline,
    sources: Map<SourceId, SourceFacts>,
    place: int,
    before: Seq<Sound>,
    count: int,
) -> Result<Seq<Sound>, PlanError>
    decreases count,
{
    if count <= 0 {
        Ok(before)
    } else {
        match track_sounds(timeline, sources, place, before, count - 1) {
            Err(error) => Err(error),
            Ok(sounds) => match sound_of(timeline, sources, place, count - 1) {
                Err(error) => Err(error),
                Ok(more) => Ok(and_sound(sounds, more)),
            },
        }
    }
}

/// The sounds of the first `count` tracks, those that are heard; or the first
/// error.
pub open spec fn sounds_of(
    timeline: Timeline,
    sources: Map<SourceId, SourceFacts>,
    count: int,
) -> Result<Seq<Sound>, PlanError>
    decreases count,
{
    if count <= 0 {
        Ok(Seq::empty())
    } else {
        match sounds_of(timeline, sources, count - 1) {
            Err(error) => Err(error),
            Ok(sounds) => {
                let track = timeline.tracks@[count - 1];
                if track.audible {
                    track_sounds(
                        timeline,
                        sources,
                        count - 1,
                        sounds,
                        track.placements@.len() as int,
                    )
                } else {
                    Ok(sounds)
                }
            },
        }
    }
}

/// The sound of a clip, if it has one.
fn sound_at(
    timeline: &Timeline,
    sources: &BTreeMap<SourceId, SourceFacts>,
    place: usize,
    index: usize,
) -> (result: Result<Option<Sound>, PlanError>)
    requires
        place < timeline.tracks@.len(),
        index < timeline.tracks@[place as int].placements@.len(),
    ensures
        result == sound_of(*timeline, sources@, place as int, index as int),
{
    broadcast use vstd::std_specs::btree::group_btree_axioms;

    let track = &timeline.tracks[place];
    let placement = &track.placements[index];
    let facts = match sources.get(&placement.source) {
        Some(facts) => facts,
        None => {
            return Err(PlanError::UnknownSource(placement.source));
        },
    };
    let stream: u32 = match track.kind {
        TrackKind::Audio => placement.stream,
        TrackKind::Video => {
            if placement.silent {
                return Ok(None);
            }
            match facts.default_audio {
                Some(stream) => stream,
                None => {
                    return Ok(None);
                },
            }
        },
    };
    let audio = match facts.audio.get(&stream) {
        Some(audio) => audio,
        None => {
            return Err(PlanError::NoAudio { file: placement.source, stream });
        },
    };
    match in_ticks(
        placement.source_in,
        placement.source_out,
        placement.time_base,
        audio.time_base,
    ) {
        None => Err(PlanError::Overflow(placement.clip)),
        Some((source_in, source_out)) => Ok(
            Some(
                Sound {
                    track: place,
                    index,
                    start: placement.start,
                    end: placement.end(),
                    stream,
                    time_base: audio.time_base,
                    source_in,
                    source_out,
                },
            ),
        ),
    }
}

/// An error of some clips is the error of the track.
proof fn lemma_track_error(
    timeline: Timeline,
    sources: Map<SourceId, SourceFacts>,
    place: int,
    before: Seq<Sound>,
    some: int,
    all: int,
)
    requires
        0 <= some <= all,
        track_sounds(timeline, sources, place, before, some) is Err,
    ensures
        track_sounds(timeline, sources, place, before, all) == track_sounds(
            timeline,
            sources,
            place,
            before,
            some,
        ),
    decreases all,
{
    if some < all {
        lemma_track_error(timeline, sources, place, before, some, all - 1);
    }
}

/// An error of some tracks is the error of all.
proof fn lemma_sounds_error(
    timeline: Timeline,
    sources: Map<SourceId, SourceFacts>,
    some: int,
    all: int,
)
    requires
        0 <= some <= all,
        sounds_of(timeline, sources, some) is Err,
    ensures
        sounds_of(timeline, sources, all) == sounds_of(timeline, sources, some),
    decreases all,
{
    if some < all {
        lemma_sounds_error(timeline, sources, some, all - 1);
    }
}

/// Every sound of the tracks that are heard.
pub fn sounds(timeline: &Timeline, sources: &BTreeMap<SourceId, SourceFacts>) -> (result: Result<
    Vec<Sound>,
    PlanError,
>)
    ensures
        match sounds_of(*timeline, sources@, timeline.tracks@.len() as int) {
            Ok(sounds) => result is Ok && result->Ok_0@ == sounds,
            Err(error) => result == Err::<Vec<Sound>, PlanError>(error),
        },
{
    let mut sounds: Vec<Sound> = Vec::new();
    let mut t: usize = 0;
    while t < timeline.tracks.len()
        invariant
            t <= timeline.tracks@.len(),
            sounds_of(*timeline, sources@, t as int) == Ok::<Seq<Sound>, PlanError>(sounds@),
        decreases timeline.tracks@.len() - t,
    {
        let track = &timeline.tracks[t];
        let ghost before = sounds@;
        if track.audible {
            let mut i: usize = 0;
            while i < track.placements.len()
                invariant
                    i <= track.placements@.len(),
                    t < timeline.tracks@.len(),
                    *track == timeline.tracks@[t as int],
                    track.audible,
                    sounds_of(*timeline, sources@, t as int) == Ok::<Seq<Sound>, PlanError>(before),
                    track_sounds(*timeline, sources@, t as int, before, i as int) == Ok::<
                        Seq<Sound>,
                        PlanError,
                    >(sounds@),
                decreases track.placements@.len() - i,
            {
                match sound_at(timeline, sources, t, i) {
                    Ok(Some(sound)) => {
                        sounds.push(sound);
                    },
                    Ok(None) => {},
                    Err(error) => {
                        proof {
                            assert(track_sounds(*timeline, sources@, t as int, before, i + 1)
                                == Err::<Seq<Sound>, PlanError>(error));
                            lemma_track_error(
                                *timeline,
                                sources@,
                                t as int,
                                before,
                                i + 1,
                                track.placements@.len() as int,
                            );
                            assert(sounds_of(*timeline, sources@, t + 1) == Err::<
                                Seq<Sound>,
                                PlanError,
                            >(error));
                            lemma_sounds_error(
                                *timeline,
                                sources@,
                                t + 1,
                                timeline.tracks@.len() as int,
                            );
                        }
                        return Err(error);
                    },
                }
                i += 1;
            }
        }
        t += 1;
    }
    Ok(sounds)
}

/// Where a sound belongs among sorted ones: behind all that start no later.
pub open spec fn place_of(sorted: Seq<Sound>, start: i64, count: int) -> int
    decreases count,
{
    if count <= 0 || sorted[count - 1].start <= start {
        count
    } else {
        place_of(sorted, start, count - 1)
    }
}

/// The first `count` sounds by their start, those that start together in
/// their order.
pub open spec fn by_start(sounds: Seq<Sound>, count: int) -> Seq<Sound>
    decreases count,
{
    if count <= 0 {
        Seq::empty()
    } else {
        let sorted = by_start(sounds, count - 1);
        sorted.insert(
            place_of(sorted, sounds[count - 1].start, sorted.len() as int),
            sounds[count - 1],
        )
    }
}

/// Sounds by their start.
pub open spec fn start_in_order(sounds: Seq<Sound>) -> bool {
    forall|i: int, j: int|
        #![trigger sounds[i], sounds[j]]
        0 <= i < j < sounds.len() ==> sounds[i].start <= sounds[j].start
}

/// A sound is put where it keeps the order.
proof fn lemma_place(sorted: Seq<Sound>, start: i64, count: int)
    requires
        0 <= count <= sorted.len(),
    ensures
        0 <= place_of(sorted, start, count) <= count,
        forall|i: int|
            place_of(sorted, start, count) <= i < count ==> (#[trigger] sorted[i]).start > start,
        place_of(sorted, start, count) > 0 ==> sorted[place_of(sorted, start, count) - 1].start
            <= start,
    decreases count,
{
    if count > 0 && sorted[count - 1].start > start {
        lemma_place(sorted, start, count - 1);
    }
}

/// Sounds sorted by their start are in order, and are the same sounds.
pub proof fn lemma_by_start(sounds: Seq<Sound>, count: int)
    requires
        0 <= count <= sounds.len(),
    ensures
        start_in_order(by_start(sounds, count)),
        by_start(sounds, count).len() == count,
        forall|i: int|
            0 <= i < count ==> sounds.take(count).contains(#[trigger] by_start(sounds, count)[i]),
        by_start(sounds, count).to_multiset() == sounds.take(count).to_multiset(),
    decreases count,
{
    broadcast use vstd::seq_lib::group_to_multiset_ensures;

    if count > 0 {
        lemma_by_start(sounds, count - 1);
        let sorted = by_start(sounds, count - 1);
        let sound = sounds[count - 1];
        let at = place_of(sorted, sound.start, sorted.len() as int);
        lemma_place(sorted, sound.start, sorted.len() as int);
        let more = sorted.insert(at, sound);
        assert forall|i: int, j: int|
            #![trigger more[i], more[j]]
            0 <= i < j < more.len() implies more[i].start <= more[j].start by {
            if at > 0 {
                assert(sorted[at - 1].start <= sound.start);
            }
            if i < at && at > 0 && i < at - 1 {
                assert(sorted[i].start <= sorted[at - 1].start);
            }
            let a = if i < at {
                sorted[i]
            } else if i == at {
                sound
            } else {
                sorted[i - 1]
            };
            let b = if j < at {
                sorted[j]
            } else if j == at {
                sound
            } else {
                sorted[j - 1]
            };
            assert(more[i] == a && more[j] == b);
        }
        let all = sounds.take(count);
        assert(all.drop_last() =~= sounds.take(count - 1));
        assert(all =~= sounds.take(count - 1).push(sound));
        assert forall|i: int| 0 <= i < more.len() implies all.contains(#[trigger] more[i]) by {
            if i == at {
                assert(all[count - 1] == sound);
            } else {
                let known = if i < at {
                    sorted[i]
                } else {
                    sorted[i - 1]
                };
                assert(more[i] == known);
                assert(sounds.take(count - 1).contains(known));
                let k = sounds.take(count - 1).index_of(known);
                assert(all[k] == known);
            }
        }
        vstd::seq_lib::to_multiset_insert(sorted, at, sound);
    } else {
        assert(sounds.take(0) =~= Seq::empty());
    }
}

/// Put the sounds in order of their start.
pub fn sort_by_start(sounds: &Vec<Sound>) -> (sorted: Vec<Sound>)
    ensures
        sorted@ == by_start(sounds@, sounds@.len() as int),
{
    let mut sorted: Vec<Sound> = Vec::new();
    let mut i: usize = 0;
    while i < sounds.len()
        invariant
            i <= sounds@.len(),
            sorted@ == by_start(sounds@, i as int),
        decreases sounds@.len() - i,
    {
        let sound = sounds[i];
        let mut at: usize = sorted.len();
        while at > 0 && sorted[at - 1].start > sound.start
            invariant
                at <= sorted@.len(),
                place_of(sorted@, sound.start, sorted@.len() as int) == place_of(
                    sorted@,
                    sound.start,
                    at as int,
                ),
            decreases at,
        {
            at -= 1;
        }
        sorted.insert(at, sound);
        i += 1;
    }
    sorted
}

} // verus!
