//! What the size of an export is reckoned from: for each stretch, whose bit
//! rate counts, and how that rate is known.
use crate::export::execute::{find_stream, stream_numbered};
use crate::export::plan::{Media, Segment, SegmentSource};
use crate::probe::{MediaInfo, StreamInfo, StreamKind};
use crate::project::SourceId;
use crate::tier::ExportTier;
use vstd::prelude::*;

verus! {

/// How the bit rate of a stream is known.
#[derive(Debug, Clone, Copy, PartialEq, Eq, Structural)]
#[allow(inconsistent_fields)]
pub enum Basis {
    /// The file records it.
    Recorded,
    /// It is what the other streams leave of the file's.
    Remaining,
    /// It is assumed from the channels of the sound.
    Assumed { channels: u32 },
    /// It is a share of what the recorded streams and the assumed sounds, of so
    /// many channels together, leave of the file's.
    Shared { pictures: u64, channels: u128 },
}

impl Basis {
    /// The rate is measured rather than assumed.
    pub open spec fn measured(self) -> bool {
        self is Recorded || self is Remaining
    }

    /// Whether the rate is measured rather than assumed.
    pub fn is_measured(self) -> (yes: bool)
        ensures
            yes == self.measured(),
    {
        match self {
            Basis::Recorded | Basis::Remaining => true,
            _ => false,
        }
    }
}

/// How many of the first `count` streams record no rate.
pub open spec fn unrecorded(streams: Seq<StreamInfo>, count: int) -> nat
    decreases count,
{
    if count <= 0 {
        0
    } else {
        unrecorded(streams, count - 1) + (if streams[count - 1].kilobits is None {
            1nat
        } else {
            0
        })
    }
}

/// How many of the first `count` streams are pictures that record no rate.
pub open spec fn pictures_in(streams: Seq<StreamInfo>, count: int) -> nat
    decreases count,
{
    if count <= 0 {
        0
    } else {
        pictures_in(streams, count - 1) + (if streams[count - 1].kilobits is None
            && streams[count - 1].kind is Video {
            1nat
        } else {
            0
        })
    }
}

/// The channels of a stream of sound, where they are known.
pub open spec fn channels_of(stream: StreamInfo) -> Option<u32> {
    match stream.kind {
        StreamKind::Audio(audio) => audio.channels,
        _ => None,
    }
}

/// The channels of the sounds among the first `count` streams that record no
/// rate.
pub open spec fn channels_in(streams: Seq<StreamInfo>, count: int) -> nat
    decreases count,
{
    if count <= 0 {
        0
    } else {
        channels_in(streams, count - 1) + (match channels_of(streams[count - 1]) {
            Some(channels) if streams[count - 1].kilobits is None => channels as nat,
            _ => 0,
        })
    }
}

/// How the rate of stream `index` is known, in a file that states its own rate
/// or does not.
pub open spec fn basis(info: MediaInfo, index: u32, stated: bool) -> Option<Basis> {
    let streams = info.streams@;
    let count = streams.len() as int;
    let at = stream_numbered(info, index, 0);
    if at >= count {
        None
    } else if streams[at].kilobits is Some {
        Some(Basis::Recorded)
    } else if unrecorded(streams, count) == 1 {
        if stated {
            Some(Basis::Remaining)
        } else {
            None
        }
    } else if streams[at].kind is Audio {
        match channels_of(streams[at]) {
            Some(channels) => Some(Basis::Assumed { channels }),
            None => None,
        }
    } else if stated {
        let pictures = pictures_in(streams, count);
        Some(
            Basis::Shared {
                pictures: if pictures == 0 {
                    1
                } else {
                    pictures as u64
                },
                channels: channels_in(streams, count) as u128,
            },
        )
    } else {
        None
    }
}

/// How the rate of stream `index` of a file is known. `stated` says whether
/// the file states a rate of its own.
pub fn basis_of(info: &MediaInfo, index: u32, stated: bool) -> (result: Option<Basis>)
    ensures
        result == basis(*info, index, stated),
{
    let at = match find_stream(info, index) {
        Some(at) => at,
        None => {
            return None;
        },
    };
    if info.streams[at].kilobits.is_some() {
        return Some(Basis::Recorded);
    }
    let mut without: u64 = 0;
    let mut pictures: u64 = 0;
    let mut channels: u128 = 0;
    let mut i: usize = 0;
    while i < info.streams.len()
        invariant
            i <= info.streams@.len(),
            without == unrecorded(info.streams@, i as int),
            pictures == pictures_in(info.streams@, i as int),
            channels == channels_in(info.streams@, i as int),
            without <= i,
            pictures <= i,
            channels <= i * 0xffff_ffff,
        decreases info.streams@.len() - i,
    {
        if info.streams[i].kilobits.is_none() {
            without += 1;
            match &info.streams[i].kind {
                StreamKind::Video(_) => {
                    pictures += 1;
                },
                StreamKind::Audio(audio) => {
                    if let Some(n) = audio.channels {
                        channels += n as u128;
                    }
                },
                StreamKind::Other => {},
            }
        }
        i += 1;
    }
    if without == 1 {
        return if stated {
            Some(Basis::Remaining)
        } else {
            None
        };
    }
    match &info.streams[at].kind {
        StreamKind::Audio(audio) => match audio.channels {
            Some(channels) => Some(Basis::Assumed { channels }),
            None => None,
        },
        _ => if stated {
            Some(
                Basis::Shared {
                    pictures: if pictures == 0 {
                        1
                    } else {
                        pictures
                    },
                    channels,
                },
            )
        } else {
            None
        },
    }
}

/// Whose bit rate a stretch has.
#[derive(Debug, Clone, Copy, PartialEq, Eq, Structural)]
pub enum Load {
    /// That of its first source, at its speed.
    Source,
    /// That of the source whose pictures the output's are like: an encoder is
    /// asked to match in quality, not in rate.
    Reference,
    /// That of the encoding of the sound.
    Encoding,
    /// None.
    Nothing,
}

/// Whose bit rate a stretch has.
pub open spec fn load(segment: Segment) -> Load {
    match (segment.media, segment.tier) {
        (Media::Video, ExportTier::FullReEncode { .. }) => Load::Reference,
        (Media::Audio, ExportTier::FullReEncode { .. }) => Load::Encoding,
        _ => if segment.sources@.len() > 0 {
            Load::Source
        } else {
            Load::Nothing
        },
    }
}

/// Whose bit rate a stretch has.
pub fn load_of(segment: &Segment) -> (whose: Load)
    ensures
        whose == load(*segment),
{
    match (segment.media, segment.tier) {
        (Media::Video, ExportTier::FullReEncode { .. }) => Load::Reference,
        (Media::Audio, ExportTier::FullReEncode { .. }) => Load::Encoding,
        _ => if segment.sources.len() > 0 {
            Load::Source
        } else {
            Load::Nothing
        },
    }
}

/// Whether every stretch that has its source's rate has one that is measured.
/// Each of `bases` is how the rate of a stretch's first source is known.
pub fn all_measured(segments: &Vec<Segment>, bases: &Vec<Option<Basis>>) -> (yes: bool)
    requires
        bases@.len() == segments@.len(),
    ensures
        yes == (forall|i: int|
            0 <= i < segments@.len() && load(#[trigger] segments@[i]) is Source ==> (
            bases@[i] matches Some(basis) && basis.measured())),
{
    let mut i: usize = 0;
    while i < segments.len()
        invariant
            i <= segments@.len(),
            bases@.len() == segments@.len(),
            forall|k: int|
                0 <= k < i && load(#[trigger] segments@[k]) is Source ==> (bases@[k] matches Some(
                    basis,
                ) && basis.measured()),
        decreases segments@.len() - i,
    {
        if let Load::Source = load_of(&segments[i]) {
            let measured = match bases[i] {
                Some(basis) => basis.is_measured(),
                None => false,
            };
            if !measured {
                assert(load(segments@[i as int]) is Source);
                return false;
            }
        }
        i += 1;
    }
    true
}

/// The first of `sources`, from `at` on, that is taken from `id`.
pub open spec fn taken_from(sources: Seq<SegmentSource>, id: SourceId, at: int) -> Option<
    SegmentSource,
>
    decreases sources.len() - at,
{
    if at >= sources.len() {
        None
    } else if sources[at].source == id {
        Some(sources[at])
    } else {
        taken_from(sources, id, at + 1)
    }
}

/// What the pictures first take from a source, in the stretches from `at` on.
pub open spec fn reference_from(segments: Seq<Segment>, id: SourceId, at: int) -> Option<
    SegmentSource,
>
    decreases segments.len() - at,
{
    if at >= segments.len() {
        None
    } else {
        let here = if segments[at].media == Media::Video {
            taken_from(segments[at].sources@, id, 0)
        } else {
            None
        };
        if here is Some {
            here
        } else {
            reference_from(segments, id, at + 1)
        }
    }
}

/// What the pictures first take from the source `id`.
pub fn reference_source<'a>(segments: &'a Vec<Segment>, id: SourceId) -> (source: Option<
    &'a SegmentSource,
>)
    ensures
        match source {
            Some(source) => reference_from(segments@, id, 0) == Some(*source),
            None => reference_from(segments@, id, 0) is None,
        },
{
    let mut i: usize = 0;
    while i < segments.len()
        invariant
            i <= segments@.len(),
            reference_from(segments@, id, 0) == reference_from(segments@, id, i as int),
        decreases segments@.len() - i,
    {
        let segment = &segments[i];
        if let Media::Video = segment.media {
            let mut k: usize = 0;
            while k < segment.sources.len()
                invariant
                    i < segments@.len(),
                    k <= segment.sources@.len(),
                    *segment == segments@[i as int],
                    segment.media == Media::Video,
                    reference_from(segments@, id, 0) == reference_from(segments@, id, i as int),
                    taken_from(segment.sources@, id, 0) == taken_from(
                        segment.sources@,
                        id,
                        k as int,
                    ),
                decreases segment.sources@.len() - k,
            {
                if segment.sources[k].source == id {
                    return Some(&segment.sources[k]);
                }
                k += 1;
            }
        }
        i += 1;
    }
    None
}

} // verus!
