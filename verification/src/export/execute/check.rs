//! What is checked before a process starts.
use crate::export::audio::{
    self, encoding_for, encoding_of, stream_for, stream_of, unsupported_sound, AudioEncoding,
    AudioModel, AudioTarget,
};
use crate::export::execute::{container_named, Container, ErrorModel, ExportError, ExportInput};
use crate::export::plan::{ExportPlan, Media, Segment};
use crate::export::seam::{pieces, pieces_of, Piece};
use crate::project::SourceId;
use crate::text::{lowercase, optional, push_signed, signed_decimal};
use crate::tier::ExportTier;
use std::collections::BTreeMap;
use vstd::prelude::*;

verus! {

impl Media {
    /// The stream's name in a message.
    pub open spec fn name(self) -> Seq<char> {
        match self {
            Media::Video => "Video"@,
            Media::Audio => "Audio"@,
        }
    }

    /// The stream's name in a message.
    pub fn text(self) -> (text: &'static str)
        ensures
            text@ == self.name(),
    {
        match self {
            Media::Video => "Video",
            Media::Audio => "Audio",
        }
    }
}

/// A segment in a message.
pub open spec fn segment_words(segment: Segment) -> Seq<char> {
    "the "@ + segment.media.name() + " segment at frame "@ + signed_decimal(segment.start as int)
}

/// A segment in a message.
fn segment_text(segment: &Segment) -> (text: String)
    ensures
        text@ == segment_words(*segment),
{
    let mut text = "the ".to_owned();
    text.append(segment.media.text());
    text.append(" segment at frame ");
    push_signed(&mut text, segment.start);
    text
}

/// What keeps a segment from being carried out: nothing of a copy of one
/// source, nothing of pictures that an encoder makes, and what the audio path
/// cannot make of sound that is encoded.
pub open spec fn obstacle(segment: Segment, encodes_audio: bool) -> Option<ErrorModel> {
    let one = segment.sources@.len() == 1;
    let made = segment.media == Media::Video && segment.encoder is Some;
    match segment.tier {
        ExportTier::StreamCopy if one => None,
        ExportTier::SmartCut { .. } if one && made => None,
        ExportTier::FullReEncode { .. } if made => None,
        ExportTier::FullReEncode { .. } if segment.media == Media::Audio && encodes_audio => {
            match unsupported_sound(segment) {
                Some(text) => Some(ErrorModel::Unsupported(text)),
                None => None,
            }
        },
        tier => Some(
            ErrorModel::Unsupported(segment_words(segment) + " ("@ + tier.words() + ")"@),
        ),
    }
}

/// Whether this executor can carry out `segment`: a copy of one source, at any
/// speed the plan kept a copy, pictures with an encoder, or — for sound — an
/// encode the audio path can make. Anything else is refused before any output
/// is written, never copied or encoded differently from what the plan chose.
pub fn runnable(segment: &Segment, encodes_audio: bool) -> (result: Result<(), ExportError>)
    ensures
        match obstacle(*segment, encodes_audio) {
            None => result is Ok,
            Some(error) => result is Err && result->Err_0@ == error,
        },
{
    let one = segment.sources.len() == 1;
    let made = segment.media == Media::Video && segment.encoder.is_some();
    let fine = match segment.tier {
        ExportTier::StreamCopy => one,
        ExportTier::SmartCut { .. } => one && made,
        ExportTier::FullReEncode { .. } => {
            if !made && segment.media == Media::Audio && encodes_audio {
                return audio::check(segment);
            }
            made
        },
    };
    if fine {
        return Ok(());
    }
    let tier = segment.tier.text();
    let text = segment_text(segment).concat(" (").concat(tier.as_str()).concat(")");
    Err(ExportError::Unsupported(text))
}

/// The file an export writes to, as it was found.
#[derive(Debug, PartialEq, Eq)]
pub struct Target {
    pub path: String,
    /// Without its point; empty where there is none.
    pub extension: String,
    pub exists: bool,
    /// The path of the source that it is, if it is one.
    pub source: Option<String>,
}

/// The first segment at `i` or behind that the plan declines.
pub open spec fn first_declined(segments: Seq<Segment>, i: int) -> int
    decreases segments.len() - i,
{
    if i >= segments.len() || segments[i].decline is Some {
        i
    } else {
        first_declined(segments, i + 1)
    }
}

/// What keeps a segment's sources, from the `k`th on, from being read: one is
/// missing, or is copied and its codec does not go into the container.
pub open spec fn source_obstacle(
    segment: Segment,
    inputs: Map<SourceId, ExportInput>,
    container: Container,
    k: int,
) -> Option<ErrorModel>
    decreases segment.sources@.len() - k,
{
    if k >= segment.sources@.len() {
        None
    } else {
        let source = segment.sources@[k];
        let codec = match stream_for(inputs, source.source, source.stream) {
            Some(stream) => optional(stream.codec),
            None => None,
        };
        if !inputs.dom().contains(source.source) {
            Some(ErrorModel::MissingSource(source.source))
        } else if segment.tier.lossless() && codec is Some && !container.holds(codec->0) {
            Some(
                ErrorModel::CodecNotInContainer {
                    codec: codec->0,
                    container: container.muxer_name(),
                },
            )
        } else {
            source_obstacle(segment, inputs, container, k + 1)
        }
    }
}

/// What keeps the segments from the `i`th on from being carried out.
pub open spec fn segment_obstacle(
    segments: Seq<Segment>,
    inputs: Map<SourceId, ExportInput>,
    container: Container,
    encodes_audio: bool,
    i: int,
) -> Option<ErrorModel>
    decreases segments.len() - i,
{
    if i >= segments.len() {
        None
    } else {
        match obstacle(segments[i], encodes_audio) {
            Some(error) => Some(error),
            None => match source_obstacle(segments[i], inputs, container, 0) {
                Some(error) => Some(error),
                None => segment_obstacle(segments, inputs, container, encodes_audio, i + 1),
            },
        }
    }
}

/// What keeps a target from being written: it is a source, whatever was
/// confirmed, or it exists and replacing it was not confirmed.
pub open spec fn target_obstacle(target: Target, overwrite: bool) -> Option<ErrorModel> {
    match target.source {
        Some(path) => Some(ErrorModel::TargetIsSource(path@)),
        None => if target.exists && !overwrite {
            Some(ErrorModel::TargetExists(target.path@))
        } else {
            None
        },
    }
}

/// What an export is refused with before it runs; otherwise the container it
/// writes and how its sound is encoded.
pub open spec fn checked(
    plan: ExportPlan,
    inputs: Map<SourceId, ExportInput>,
    target: Target,
    overwrite: bool,
    audio: AudioTarget,
) -> Result<(Container, Option<AudioModel>), ErrorModel> {
    match container_named(target.extension@) {
        None => Err(ErrorModel::Container(lowercase(target.extension@))),
        Some(container) => match encoding_of(plan.segments@, inputs, audio, container) {
            Err(error) => Err(error),
            Ok(encoding) => {
                let declined = first_declined(plan.segments@, 0);
                if declined < plan.segments@.len() {
                    Err(ErrorModel::Declined(segment_words(plan.segments@[declined])))
                } else {
                    match segment_obstacle(
                        plan.segments@,
                        inputs,
                        container,
                        encoding is Some,
                        0,
                    ) {
                        Some(error) => Err(error),
                        None => match target_obstacle(target, overwrite) {
                            Some(error) => Err(error),
                            None => Ok((container, encoding)),
                        },
                    }
                }
            },
        },
    }
}

/// What keeps a segment's sources from being read.
fn check_sources(
    segment: &Segment,
    inputs: &BTreeMap<SourceId, ExportInput>,
    container: Container,
) -> (result: Result<(), ExportError>)
    ensures
        match source_obstacle(*segment, inputs@, container, 0) {
            None => result is Ok,
            Some(error) => result is Err && result->Err_0@ == error,
        },
{
    broadcast use vstd::std_specs::btree::group_btree_axioms;

    let lossless = segment.tier.is_lossless();
    let mut k: usize = 0;
    while k < segment.sources.len()
        invariant
            k <= segment.sources@.len(),
            lossless == segment.tier.lossless(),
            source_obstacle(*segment, inputs@, container, 0) == source_obstacle(
                *segment,
                inputs@,
                container,
                k as int,
            ),
        decreases segment.sources@.len() - k,
    {
        let source = &segment.sources[k];
        if !inputs.contains_key(&source.source) {
            return Err(ExportError::MissingSource(source.source));
        }
        if lossless {
            if let Some(stream) = stream_of(inputs, source.source, source.stream) {
                if let Some(codec) = &stream.codec {
                    if !container.accepts(codec.as_str()) {
                        return Err(
                            ExportError::CodecNotInContainer {
                                codec: codec.clone(),
                                container: container.muxer().to_owned(),
                            },
                        );
                    }
                }
            }
        }
        k += 1;
    }
    Ok(())
}

/// What keeps a plan's segments from being carried out.
fn check_segments(
    segments: &Vec<Segment>,
    inputs: &BTreeMap<SourceId, ExportInput>,
    container: Container,
    encodes_audio: bool,
) -> (result: Result<(), ExportError>)
    ensures
        ({
            let declined = first_declined(segments@, 0);
            if declined < segments@.len() {
                result is Err && result->Err_0@ == ErrorModel::Declined(
                    segment_words(segments@[declined]),
                )
            } else {
                match segment_obstacle(segments@, inputs@, container, encodes_audio, 0) {
                    None => result is Ok,
                    Some(error) => result is Err && result->Err_0@ == error,
                }
            }
        }),
{
    let mut i: usize = 0;
    while i < segments.len()
        invariant
            i <= segments@.len(),
            first_declined(segments@, 0) == first_declined(segments@, i as int),
        decreases segments@.len() - i,
    {
        if segments[i].decline.is_some() {
            return Err(ExportError::Declined(segment_text(&segments[i])));
        }
        i += 1;
    }
    let mut i: usize = 0;
    while i < segments.len()
        invariant
            i <= segments@.len(),
            first_declined(segments@, 0) >= segments@.len(),
            segment_obstacle(segments@, inputs@, container, encodes_audio, 0) == segment_obstacle(
                segments@,
                inputs@,
                container,
                encodes_audio,
                i as int,
            ),
        decreases segments@.len() - i,
    {
        if let Err(error) = runnable(&segments[i], encodes_audio) {
            return Err(error);
        }
        if let Err(error) = check_sources(&segments[i], inputs, container) {
            return Err(error);
        }
        i += 1;
    }
    Ok(())
}

/// Check everything that can be checked before a process starts.
pub fn preflight(
    plan: &ExportPlan,
    inputs: &BTreeMap<SourceId, ExportInput>,
    target: &Target,
    overwrite: bool,
    audio: AudioTarget,
) -> (result: Result<(Container, Option<AudioEncoding>), ExportError>)
    ensures
        match checked(*plan, inputs@, *target, overwrite, audio) {
            Err(error) => result is Err && result->Err_0@ == error,
            Ok((container, encoding)) => {
                &&& result matches Ok((c, e)) && c == container && match (e, encoding) {
                    (Some(made), Some(model)) => made@ == model,
                    (None, None) => true,
                    _ => false,
                }
            },
        },
{
    let container = match Container::of(target.extension.as_str()) {
        Ok(container) => container,
        Err(error) => {
            return Err(error);
        },
    };
    let encoding = match encoding_for(plan, inputs, audio, container) {
        Ok(encoding) => encoding,
        Err(error) => {
            return Err(error);
        },
    };
    let encodes = encoding.is_some();
    if let Err(error) = check_segments(&plan.segments, inputs, container, encodes) {
        return Err(error);
    }
    if let Some(path) = &target.source {
        return Err(ExportError::TargetIsSource(path.clone()));
    }
    if target.exists && !overwrite {
        return Err(ExportError::TargetExists(target.path.clone()));
    }
    Ok((container, encoding))
}

/// Everything an export checks before a process starts, answered before the
/// export is asked for: what its sound will be encoded to, or why it would be
/// refused.
pub fn check(
    plan: &ExportPlan,
    inputs: &BTreeMap<SourceId, ExportInput>,
    target: &Target,
    overwrite: bool,
    audio: AudioTarget,
) -> (result: Result<Option<AudioEncoding>, ExportError>)
    ensures
        match checked(*plan, inputs@, *target, overwrite, audio) {
            Err(error) => result is Err && result->Err_0@ == error,
            Ok((_, None)) => result == Ok::<Option<AudioEncoding>, ExportError>(None),
            Ok((_, Some(model))) => result matches Ok(Some(made)) && made@ == model,
        },
{
    match preflight(plan, inputs, target, overwrite, audio) {
        Ok((_, encoding)) => Ok(encoding),
        Err(error) => Err(error),
    }
}

/// Whether a complete output may take its place at the target, which is looked
/// at once more: what appeared there since is replaced only where that was
/// confirmed. Whether something is to be removed first.
pub fn take_place(path: &str, exists: bool, overwrite: bool) -> (removes: Result<bool, ExportError>)
    ensures
        if exists && !overwrite {
            removes is Err && removes->Err_0@ == ErrorModel::TargetExists(path@)
        } else {
            removes == Ok::<bool, ExportError>(exists)
        },
{
    if exists && !overwrite {
        return Err(ExportError::TargetExists(path.to_owned()));
    }
    Ok(exists)
}

/// No confirmation can reach a source, and nothing that exists is replaced
/// without one.
pub proof fn nothing_is_overwritten_unconfirmed(
    plan: ExportPlan,
    inputs: Map<SourceId, ExportInput>,
    target: Target,
    overwrite: bool,
    audio: AudioTarget,
)
    requires
        checked(plan, inputs, target, overwrite, audio) is Ok,
    ensures
        target.source is None,
        target.exists ==> overwrite,
{
}

/// What an export does not do is not done in another way: every segment of a
/// plan that passes can be carried out as the plan chose.
pub proof fn what_passes_can_be_carried_out(
    plan: ExportPlan,
    inputs: Map<SourceId, ExportInput>,
    target: Target,
    overwrite: bool,
    audio: AudioTarget,
    i: int,
)
    requires
        checked(plan, inputs, target, overwrite, audio) is Ok,
        0 <= i < plan.segments@.len(),
    ensures
        plan.segments@[i].decline is None,
        obstacle(
            plan.segments@[i],
            checked(plan, inputs, target, overwrite, audio)->Ok_0.1 is Some,
        ) is None,
        forall|k: int|
            0 <= k < plan.segments@[i].sources@.len() ==> inputs.dom().contains(
                (#[trigger] plan.segments@[i].sources@[k]).source,
            ),
{
    let (container, encoding) = checked(plan, inputs, target, overwrite, audio)->Ok_0;
    lemma_not_declined(plan.segments@, 0, i);
    lemma_no_obstacle(plan.segments@, inputs, container, encoding is Some, 0, i);
    assert forall|k: int| 0 <= k < plan.segments@[i].sources@.len() implies inputs.dom().contains(
        (#[trigger] plan.segments@[i].sources@[k]).source,
    ) by {
        lemma_sources_there(plan.segments@[i], inputs, container, 0, k);
    }
}

/// No segment before the first that is declined is.
proof fn lemma_not_declined(segments: Seq<Segment>, from: int, i: int)
    requires
        0 <= from <= i < segments.len(),
        first_declined(segments, from) >= segments.len(),
    ensures
        segments[i].decline is None,
    decreases segments.len() - from,
{
    if from < i {
        lemma_not_declined(segments, from + 1, i);
    }
}

/// Without an obstacle none of the segments has one.
proof fn lemma_no_obstacle(
    segments: Seq<Segment>,
    inputs: Map<SourceId, ExportInput>,
    container: Container,
    encodes_audio: bool,
    from: int,
    i: int,
)
    requires
        0 <= from <= i < segments.len(),
        segment_obstacle(segments, inputs, container, encodes_audio, from) is None,
    ensures
        obstacle(segments[i], encodes_audio) is None,
        source_obstacle(segments[i], inputs, container, 0) is None,
    decreases segments.len() - from,
{
    if from < i {
        lemma_no_obstacle(segments, inputs, container, encodes_audio, from + 1, i);
    }
}

/// Without an obstacle every source is there.
proof fn lemma_sources_there(
    segment: Segment,
    inputs: Map<SourceId, ExportInput>,
    container: Container,
    from: int,
    k: int,
)
    requires
        0 <= from <= k < segment.sources@.len(),
        source_obstacle(segment, inputs, container, from) is None,
    ensures
        inputs.dom().contains(segment.sources@[k].source),
    decreases segment.sources@.len() - from,
{
    if from < k {
        lemma_sources_there(segment, inputs, container, from + 1, k);
    }
}

/// One output stream: the places of its segments in the plan, in order.
#[derive(Debug, PartialEq, Eq)]
pub struct Route {
    pub media: Media,
    pub segments: Vec<usize>,
}

/// The places of the first `count` segments that belong to a stream.
pub open spec fn places_of(segments: Seq<Segment>, media: Media, count: int) -> Seq<usize>
    decreases count,
{
    if count <= 0 {
        Seq::empty()
    } else if segments[count - 1].media == media {
        places_of(segments, media, count - 1).push((count - 1) as usize)
    } else {
        places_of(segments, media, count - 1)
    }
}

/// The places of the segments that belong to a stream.
fn places(segments: &Vec<Segment>, media: Media) -> (places: Vec<usize>)
    ensures
        places@ == places_of(segments@, media, segments@.len() as int),
{
    let mut places: Vec<usize> = Vec::new();
    let mut i: usize = 0;
    while i < segments.len()
        invariant
            i <= segments@.len(),
            places@ == places_of(segments@, media, i as int),
        decreases segments@.len() - i,
    {
        if segments[i].media == media {
            places.push(i);
        }
        i += 1;
    }
    places
}

/// Each output stream's segments, video first; an error where there is no
/// stream at all.
pub fn routes_of(plan: &ExportPlan) -> (routes: Result<Vec<Route>, ExportError>)
    ensures
        ({
            let n = plan.segments@.len() as int;
            let video = places_of(plan.segments@, Media::Video, n);
            let audio = places_of(plan.segments@, Media::Audio, n);
            match routes {
                Err(error) => video.len() == 0 && audio.len() == 0 && error@
                    == ErrorModel::Unsupported("an export with no streams"@),
                Ok(list) => {
                    &&& video.len() > 0 || audio.len() > 0
                    &&& list@.len() == (if video.len() > 0 {
                        1int
                    } else {
                        0
                    }) + (if audio.len() > 0 {
                        1int
                    } else {
                        0
                    })
                    &&& video.len() > 0 ==> list@[0].media == Media::Video
                        && list@[0].segments@ == video
                    &&& audio.len() > 0 ==> list@.last().media == Media::Audio
                        && list@.last().segments@ == audio
                },
            }
        }),
{
    let video = places(&plan.segments, Media::Video);
    let audio = places(&plan.segments, Media::Audio);
    let mut routes: Vec<Route> = Vec::new();
    if video.len() > 0 {
        routes.push(Route { media: Media::Video, segments: video });
    }
    if audio.len() > 0 {
        routes.push(Route { media: Media::Audio, segments: audio });
    }
    if routes.len() == 0 {
        return Err(ExportError::Unsupported("an export with no streams".to_owned()));
    }
    Ok(routes)
}

/// How a segment's packets are made.
#[derive(Debug, Clone, Copy, PartialEq, Eq, Structural)]
pub enum Work {
    /// A reader copies the one source from its in-point.
    Copy,
    /// A reader copies the one source from the first keyframe that is copied;
    /// seam encoders make the rest.
    SmartCut { first_copy: i64 },
    /// A renderer makes every picture.
    Render,
    /// An encoder makes the sound.
    Encode,
}

/// Where the first copied piece at `i` or behind starts.
pub open spec fn first_remux(pieces: Seq<Piece>, i: int) -> Option<i64>
    decreases pieces.len() - i,
{
    if i >= pieces.len() {
        None
    } else {
        match pieces[i] {
            Piece::Remux { from, .. } => Some(from),
            Piece::Recode { .. } => first_remux(pieces, i + 1),
        }
    }
}

/// How a segment's packets are made.
pub open spec fn work_for(segment: Segment, encodes_audio: bool) -> Result<Work, ErrorModel> {
    let one = segment.sources@.len() == 1;
    if segment.media == Media::Video && segment.tier is FullReEncode {
        Ok(Work::Render)
    } else if segment.tier is StreamCopy && one {
        Ok(Work::Copy)
    } else if segment.tier is SmartCut && one {
        let source = segment.sources@[0];
        Ok(
            Work::SmartCut {
                first_copy: match first_remux(
                    pieces_of(&segment, source.source_in, source.source_out),
                    0,
                ) {
                    Some(from) => from,
                    None => source.source_in,
                },
            },
        )
    } else if encodes_audio {
        Ok(Work::Encode)
    } else {
        Err(ErrorModel::Unsupported("a re-encoded segment"@))
    }
}

/// The process that makes `segment`'s packets.
pub fn producer(segment: &Segment, encodes_audio: bool) -> (work: Result<Work, ExportError>)
    ensures
        match work_for(*segment, encodes_audio) {
            Ok(model) => work == Ok::<Work, ExportError>(model),
            Err(error) => work is Err && work->Err_0@ == error,
        },
{
    let rendered = match segment.tier {
        ExportTier::FullReEncode { .. } => segment.media == Media::Video,
        _ => false,
    };
    if rendered {
        return Ok(Work::Render);
    }
    if segment.sources.len() == 1 {
        match segment.tier {
            ExportTier::StreamCopy => {
                return Ok(Work::Copy);
            },
            ExportTier::SmartCut { .. } => {
                // The reader opens at the first copied keyframe: its stream
                // header is the output's, whatever the seams are made with.
                let source = &segment.sources[0];
                let list = pieces(segment, source.source_in, source.source_out);
                let mut first_copy = source.source_in;
                let mut i: usize = 0;
                let ghost all = list@;
                while i < list.len()
                    invariant
                        i <= list@.len(),
                        all == list@,
                        first_copy == source.source_in,
                        *source == segment.sources@[0],
                        segment.sources@.len() == 1,
                        segment.tier is SmartCut,
                        all == pieces_of(segment, source.source_in, source.source_out),
                        first_remux(all, 0) == first_remux(all, i as int),
                    decreases list@.len() - i,
                {
                    if let Piece::Remux { from, .. } = list[i] {
                        return Ok(Work::SmartCut { first_copy: from });
                    }
                    i += 1;
                }
                return Ok(Work::SmartCut { first_copy });
            },
            ExportTier::FullReEncode { .. } => {},
        }
    }
    if encodes_audio {
        Ok(Work::Encode)
    } else {
        Err(ExportError::Unsupported("a re-encoded segment".to_owned()))
    }
}

/// The first of a stream's segments, from the `i`th on, that is not rendered
/// whole.
pub open spec fn first_unrendered(segments: Seq<Segment>, places: Seq<usize>, i: int) -> int
    decreases places.len() - i,
{
    if i >= places.len() || !(segments[places[i] as int].tier is FullReEncode) {
        i
    } else {
        first_unrendered(segments, places, i + 1)
    }
}

/// Where a video stream starts with a rendered segment but copies packets
/// later, the segment whose reader gives the output's configuration.
pub open spec fn reference_for(segments: Seq<Segment>, route: Route) -> Option<usize> {
    let places = route.segments@;
    let first = first_unrendered(segments, places, 0);
    if route.media == Media::Video && 0 < first < places.len() {
        Some(places[first])
    } else {
        None
    }
}

/// Where a video stream starts with a rendered segment but copies packets
/// later, the output's configuration is the copied packets': the first copied
/// segment, whose reader is opened for its header.
pub fn reference_first(segments: &Vec<Segment>, route: &Route) -> (place: Option<usize>)
    requires
        forall|i: int|
            0 <= i < route.segments@.len() ==> #[trigger] route.segments@[i] < segments@.len(),
    ensures
        place == reference_for(segments@, *route),
{
    if route.media != Media::Video {
        return None;
    }
    let mut i: usize = 0;
    while i < route.segments.len()
        invariant
            i <= route.segments@.len(),
            route.media == Media::Video,
            forall|k: int|
                0 <= k < route.segments@.len() ==> #[trigger] route.segments@[k] < segments@.len(),
            first_unrendered(segments@, route.segments@, 0) == first_unrendered(
                segments@,
                route.segments@,
                i as int,
            ),
        decreases route.segments@.len() - i,
    {
        let place = route.segments[i];
        match segments[place].tier {
            ExportTier::FullReEncode { .. } => {},
            _ => {
                return if i > 0 {
                    Some(place)
                } else {
                    None
                };
            },
        }
        i += 1;
    }
    None
}

} // verus!
