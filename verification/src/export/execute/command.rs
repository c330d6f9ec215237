//! The processes an export runs.
use crate::capability::{EncoderSource, VideoCodec};
use crate::export::audio::{stream_for, stream_of};
use crate::export::execute::{Container, ExportInput};
use crate::export::nut::{Class, StreamHeader};
use crate::export::plan::{ExportPlan, Media, Segment};
use crate::export::profile::{arguments_in, codec_named, codec_of, Argument, ChoiceModel, EncoderChoice};
use crate::orchestrator::command::{file_words, SidecarCommand, Stdout, Tool};
use crate::probe::StreamKind;
use crate::project::SourceId;
use crate::text::{decimal, optional, push_decimal, push_signed, signed_decimal};
use std::collections::BTreeMap;
use vstd::prelude::*;

verus! {

/// The arguments every process of an export starts with.
pub open spec fn quiet() -> Seq<Seq<char>> {
    seq!["-hide_banner"@, "-nostdin"@, "-n"@, "-v"@, "error"@]
}

/// A seek, where there is one.
pub open spec fn sought(seek: Option<&str>) -> Seq<Seq<char>> {
    match seek {
        Some(seconds) => seq!["-ss"@, seconds@],
        None => Seq::empty(),
    }
}

/// Opens one stream of a file, from just before a place.
pub open spec fn opened(path: Seq<char>, stream: u32, seek: Option<&str>) -> Seq<Seq<char>> {
    quiet() + seq!["-copyts"@] + sought(seek) + seq![
        "-i"@,
        file_words(path),
        "-map"@,
        "0:"@ + decimal(stream as nat),
    ]
}

/// Open stream `stream` of the file at `path`. `seek` is where the demuxer
/// seeks to in seconds, unless it reads from the start.
pub fn open_stream(path: &str, stream: u32, seek: Option<&str>) -> (command: SidecarCommand)
    ensures
        command.words() == opened(path@, stream, seek),
        command.tool == Tool::Ffmpeg,
        command.progress_total is None,
{
    let mut map = "0:".to_owned();
    push_decimal(&mut map, stream as u64);
    let command = SidecarCommand::ffmpeg().option("-v", "error").flag("-copyts");
    let command = match seek {
        Some(seconds) => command.option("-ss", seconds),
        None => command,
    };
    let command = command.input(path).option("-map", map.as_str());
    proof {
        assert(command.words() =~= opened(path@, stream, seek));
    }
    command
}

/// Writes NUT to standard output, a fixed time late.
pub open spec fn piped() -> Seq<Seq<char>> {
    seq!["-output_ts_offset"@, "100"@, "-f"@, "nut"@, "pipe:1"@]
}

/// Write NUT to standard output, a fixed time late.
pub fn pipe(command: SidecarCommand) -> (next: SidecarCommand)
    ensures
        next.words() == command.words() + piped(),
        next.tool == command.tool,
        next.stdout == Stdout::Stream,
        next.progress_total == command.progress_total,
{
    let next = command.option("-output_ts_offset", "100").option("-f", "nut").output_stdout();
    proof {
        assert(next.words() =~= command.words() + piped());
    }
    next
}

/// The command that stream-copies a stream from just before its in-point.
pub fn reader_command(path: &str, stream: u32, seek: Option<&str>) -> (command: SidecarCommand)
    ensures
        command.words() == opened(path@, stream, seek) + seq!["-c"@, "copy"@] + piped(),
        command.tool == Tool::Ffmpeg,
        command.stdout == Stdout::Stream,
        command.progress_total is None,
{
    pipe(open_stream(path, stream, seek).option("-c", "copy"))
}

/// The names and values of the first `count` options, one behind another.
pub open spec fn flattened(options: Seq<Argument>, count: int) -> Seq<Seq<char>>
    decreases count,
{
    if count <= 0 {
        Seq::empty()
    } else {
        flattened(options, count - 1) + seq![options[count - 1].0, options[count - 1].1]
    }
}

/// How an encoder is asked for the pictures of a choice: hardware without
/// B-frames, so its decode order is its presentation order.
pub open spec fn choice_words(choice: ChoiceModel) -> Seq<Seq<char>> {
    let options = choice.options(choice.codec);
    flattened(options, options.len() as int) + (if choice.source != EncoderSource::Software {
        seq!["-bf"@, "0"@]
    } else {
        Seq::empty()
    })
}

/// Ask the encoder of `choice` for its pictures.
pub fn ask(command: SidecarCommand, choice: &EncoderChoice) -> (next: SidecarCommand)
    ensures
        command.grown(&next, choice_words(choice@)),
{
    let list = choice.arguments(choice.codec);
    let ghost options = choice@.options(choice.codec);
    let mut next = command;
    let mut i: usize = 0;
    proof {
        assert(next.words() =~= command.words() + flattened(options, 0));
    }
    while i < list.len()
        invariant
            i <= list@.len(),
            options == arguments_in(list@),
            command.grown(&next, flattened(options, i as int)),
        decreases list@.len() - i,
    {
        let (name, value) = (list[i].0, &list[i].1);
        assert(options[i as int] == (name@, value@));
        next = next.option(name, value.as_str());
        proof {
            assert(next.words() =~= command.words() + flattened(options, i + 1));
        }
        i += 1;
    }
    let asked = if choice.source != EncoderSource::Software {
        next.option("-bf", "0")
    } else {
        next
    };
    proof {
        assert(options.len() == list@.len());
        assert(asked.words() =~= command.words() + choice_words(choice@));
    }
    asked
}

/// The trim that leaves exactly the pictures of a range.
pub open spec fn trimmed(from: i64, to: i64) -> Seq<char> {
    "trim=start_pts="@ + signed_decimal(from as int) + ":end_pts="@ + signed_decimal(to as int)
}

/// The seam encoder for `from..to` of a stream: decoded from the keyframe
/// before it, trimmed to exactly those pictures on their own timestamps, and
/// encoded as `choice` says, without B-frames so its decode order is its
/// presentation order.
pub fn seam_command(
    path: &str,
    stream: u32,
    seek: Option<&str>,
    from: i64,
    to: i64,
    choice: &EncoderChoice,
) -> (command: SidecarCommand)
    ensures
        command.words() == opened(path@, stream, seek) + seq!["-vf"@, trimmed(from, to)]
            + choice_words(choice@) + seq![
            "-fps_mode"@,
            "passthrough"@,
            "-enc_time_base"@,
            "demux"@,
        ] + piped(),
        command.tool == Tool::Ffmpeg,
        command.stdout == Stdout::Stream,
        command.progress_total is None,
{
    let mut filter = "trim=start_pts=".to_owned();
    push_signed(&mut filter, from);
    filter.append(":end_pts=");
    push_signed(&mut filter, to);
    let asked = ask(open_stream(path, stream, seek).option("-vf", filter.as_str()), choice);
    let kept = asked.option("-fps_mode", "passthrough").option("-enc_time_base", "demux");
    let command = pipe(kept);
    proof {
        assert(kept.words() =~= asked.words() + seq![
            "-fps_mode"@,
            "passthrough"@,
            "-enc_time_base"@,
            "demux"@,
        ]);
    }
    command
}

/// The first video segment at `i` or behind that has a source.
pub open spec fn first_pictured(segments: Seq<Segment>, i: int) -> int
    decreases segments.len() - i,
{
    if i >= segments.len() || (segments[i].media == Media::Video && segments[i].sources@.len()
        > 0) {
        i
    } else {
        first_pictured(segments, i + 1)
    }
}

/// The first video segment that has a source.
fn find_pictured(segments: &Vec<Segment>) -> (at: Option<usize>)
    ensures
        match at {
            Some(i) => i < segments@.len() && i == first_pictured(segments@, 0)
                && segments@[i as int].sources@.len() > 0,
            None => first_pictured(segments@, 0) >= segments@.len(),
        },
{
    let mut i: usize = 0;
    while i < segments.len()
        invariant
            i <= segments@.len(),
            first_pictured(segments@, 0) == first_pictured(segments@, i as int),
        decreases segments@.len() - i,
    {
        if segments[i].media == Media::Video && segments[i].sources.len() > 0 {
            return Some(i);
        }
        i += 1;
    }
    None
}

/// The display rotation of the first video source.
pub open spec fn rotation_of(
    segments: Seq<Segment>,
    inputs: Map<SourceId, ExportInput>,
) -> u32 {
    let at = first_pictured(segments, 0);
    if at < segments.len() {
        let source = segments[at].sources@[0];
        match stream_for(inputs, source.source, source.stream) {
            Some(stream) => match stream.kind {
                StreamKind::Video(video) => video.rotation,
                _ => 0,
            },
            None => 0,
        }
    } else {
        0
    }
}

/// The display rotation of the first video source, which the copied stream
/// must keep: NUT does not carry it, so the muxer is told.
pub fn rotation(plan: &ExportPlan, inputs: &BTreeMap<SourceId, ExportInput>) -> (angle: u32)
    ensures
        angle == rotation_of(plan.segments@, inputs@),
{
    match find_pictured(&plan.segments) {
        Some(at) => {
            let source = &plan.segments[at].sources[0];
            match stream_of(inputs, source.source, source.stream) {
                Some(stream) => match &stream.kind {
                    StreamKind::Video(video) => video.rotation,
                    _ => 0,
                },
                None => 0,
            }
        },
        None => 0,
    }
}

/// The codec of a segment's first source, where pictures are encoded to it.
pub open spec fn segment_codec(
    segment: Segment,
    inputs: Map<SourceId, ExportInput>,
) -> Option<VideoCodec> {
    if segment.sources@.len() == 0 {
        None
    } else {
        let source = segment.sources@[0];
        match stream_for(inputs, source.source, source.stream) {
            Some(stream) => match optional(stream.codec) {
                Some(name) => codec_named(name),
                None => None,
            },
            None => None,
        }
    }
}

/// The codec of a video segment's source.
pub fn video_codec(inputs: &BTreeMap<SourceId, ExportInput>, segment: &Segment) -> (codec: Option<
    VideoCodec,
>)
    ensures
        codec == segment_codec(*segment, inputs@),
{
    if segment.sources.len() == 0 {
        return None;
    }
    let source = &segment.sources[0];
    match stream_of(inputs, source.source, source.stream) {
        Some(stream) => match &stream.codec {
            Some(name) => codec_of(name.as_str()),
            None => None,
        },
        None => None,
    }
}

/// Some pictures of the plan are encoded.
pub open spec fn encodes_pictures(segments: Seq<Segment>) -> bool {
    exists|i: int|
        0 <= i < segments.len() && (#[trigger] segments[i]).media == Media::Video
            && !segments[i].tier.lossless()
}

/// The sample entry that allows parameter sets in-band: only MP4 and MOV have
/// one, for H.264 and HEVC, and only an output with encoded pictures needs it.
pub open spec fn entry_for(
    segments: Seq<Segment>,
    inputs: Map<SourceId, ExportInput>,
    container: Container,
) -> Option<Seq<char>> {
    let at = first_pictured(segments, 0);
    if container != Container::Mp4 && container != Container::Mov || !encodes_pictures(segments)
        || at >= segments.len() {
        None
    } else {
        match segment_codec(segments[at], inputs) {
            Some(VideoCodec::H264) => Some("avc3"@),
            Some(VideoCodec::Hevc) => Some("hev1"@),
            _ => None,
        }
    }
}

/// Where seams put parameter sets in-band, the MP4 sample entry that says they
/// may change there: `avc3` for H.264, `hev1` for HEVC. Matroska needs nothing.
pub fn in_band_tag(
    plan: &ExportPlan,
    inputs: &BTreeMap<SourceId, ExportInput>,
    container: Container,
) -> (tag: Option<&'static str>)
    ensures
        match entry_for(plan.segments@, inputs@, container) {
            Some(words) => tag is Some && tag->0@ == words,
            None => tag is None,
        },
{
    let segments = &plan.segments;
    match container {
        Container::Mp4 | Container::Mov => {},
        _ => {
            return None;
        },
    }
    let mut encodes = false;
    let mut i: usize = 0;
    while i < segments.len()
        invariant
            i <= segments@.len(),
            encodes == exists|k: int|
                0 <= k < i && (#[trigger] segments@[k]).media == Media::Video
                    && !segments@[k].tier.lossless(),
        decreases segments@.len() - i,
    {
        if segments[i].media == Media::Video && !segments[i].tier.is_lossless() {
            encodes = true;
        }
        i += 1;
    }
    if !encodes {
        return None;
    }
    match find_pictured(segments) {
        Some(at) => match video_codec(inputs, &segments[at]) {
            Some(VideoCodec::H264) => Some("avc3"),
            Some(VideoCodec::Hevc) => Some("hev1"),
            _ => None,
        },
        None => None,
    }
}

/// Some stream is one of pictures.
pub open spec fn has_pictures(streams: Seq<StreamHeader>) -> bool {
    exists|i: int| 0 <= i < streams.len() && (#[trigger] streams[i]).class == Class::Video
}

/// The rotation the muxer is told of, where there is one and pictures to turn.
pub open spec fn turned(angle: u32, streams: Seq<StreamHeader>) -> Seq<Seq<char>> {
    if angle != 0 && has_pictures(streams) {
        seq!["-display_rotation:v:0"@, decimal(angle as nat)]
    } else {
        Seq::empty()
    }
}

/// The sample entry the muxer is told of.
pub open spec fn entered(tag: Option<Seq<char>>) -> Seq<Seq<char>> {
    match tag {
        Some(tag) => seq!["-tag:v"@, tag],
        None => Seq::empty(),
    }
}

/// The muxer: NUT on its standard input, every stream copied into the
/// container, the metadata and chapters carried over, and the rotation NUT
/// cannot carry set again. `total` is the output's length in microseconds.
pub fn muxer_command(
    plan: &ExportPlan,
    inputs: &BTreeMap<SourceId, ExportInput>,
    streams: &Vec<StreamHeader>,
    container: Container,
    partial: &str,
    total: u64,
) -> (command: SidecarCommand)
    ensures
        command.words() == seq!["-progress"@, "pipe:1"@, "-nostats"@] + (quiet() + seq![
            "-f"@,
            "nut"@,
        ] + turned(rotation_of(plan.segments@, inputs@), streams@) + seq![
            "-i"@,
            "pipe:0"@,
            "-map"@,
            "0"@,
            "-c"@,
            "copy"@,
        ] + entered(entry_for(plan.segments@, inputs@, container)) + seq![
            "-map_metadata"@,
            "0"@,
            "-map_chapters"@,
            "0"@,
            "-f"@,
            container.muxer_name(),
            file_words(partial@),
        ]),
        command.tool == Tool::Ffmpeg,
        command.stdout == Stdout::Progress,
        command.progress_total == Some(total),
{
    let command = SidecarCommand::ffmpeg().option("-v", "error").option("-f", "nut");
    let angle = rotation(plan, inputs);
    let mut pictures = false;
    let mut i: usize = 0;
    while i < streams.len()
        invariant
            i <= streams@.len(),
            pictures == exists|k: int|
                0 <= k < i && (#[trigger] streams@[k]).class == Class::Video,
        decreases streams@.len() - i,
    {
        if streams[i].class == Class::Video {
            pictures = true;
        }
        i += 1;
    }
    let ghost start = command.words();
    let command = if angle != 0 && pictures {
        let mut text = String::new();
        push_decimal(&mut text, angle as u64);
        proof {
            assert(text@ =~= decimal(angle as nat));
        }
        command.option("-display_rotation:v:0", text.as_str())
    } else {
        command
    };
    let ghost turn = command.words();
    proof {
        assert(turn =~= start + turned(angle, streams@));
    }
    let command = command.stdin_input().option("-map", "0").option("-c", "copy");
    let ghost copied = command.words();
    proof {
        assert(copied =~= turn + seq!["-i"@, "pipe:0"@, "-map"@, "0"@, "-c"@, "copy"@]);
    }
    let command = match in_band_tag(plan, inputs, container) {
        Some(tag) => command.option("-tag:v", tag),
        None => command,
    };
    let ghost tagged = command.words();
    proof {
        assert(tagged =~= copied + entered(entry_for(plan.segments@, inputs@, container)));
    }
    let command = command.option("-map_metadata", "0").option("-map_chapters", "0").option(
        "-f",
        container.muxer(),
    ).output_file(partial);
    proof {
        assert(start =~= quiet() + seq!["-f"@, "nut"@]);
        assert(command.words() =~= tagged + seq![
            "-map_metadata"@,
            "0"@,
            "-map_chapters"@,
            "0"@,
            "-f"@,
            container.muxer_name(),
            file_words(partial@),
        ]);
    }
    command.report_progress(total)
}

} // verus!
