//! The full re-encode: a segment the plan cannot copy — a held frame, a
//! reversed clip, a clip in another shape or at a speed no file carries, black
//! in a gap — rendered at the sequence's shape and frame rate and encoded to
//! join the rest of the output.
//!
//! A reverse never holds a clip in memory: the clip is decoded a chunk of
//! [`REVERSE_CHUNK_FRAMES`] at a time from its last chunk to its first, each
//! chunk reversed on its own, and the frames fed in order to one encoder.
use crate::export::audio::{stream_for, stream_of};
use crate::export::execute::command::{ask, choice_words, open_stream, pipe, piped, quiet};
use crate::export::execute::{ErrorModel, ExportError, ExportInput};
use crate::export::plan::{Segment, SegmentSource};
use crate::export::profile::EncoderChoice;
use crate::num::{clamped, saturating_mul, saturating_sub};
use crate::orchestrator::command::{SidecarCommand, Stdout, Tool};
use crate::probe::{Rational, StreamInfo, StreamKind};
use crate::project::{Motion, SequenceSettings, SourceId};
use crate::text::{decimal, push_decimal, push_signed, signed_decimal};
use crate::time::{rescale, rescaled, Rounding};
use std::collections::BTreeMap;
use vstd::prelude::*;

verus! {

/// Seconds added to every timestamp an encoder writes, as for readers.
pub const RENDER_OFFSET_SECONDS: i64 = 100;

/// Frames of a reversed clip held at once: the decoder's `reverse` filter
/// buffers one chunk, and nothing else holds more than a pipe's worth.
pub const REVERSE_CHUNK_FRAMES: i64 = 32;

/// What rendering a segment runs.
#[derive(Debug)]
pub enum RenderJob {
    /// One process decodes, filters and encodes.
    Direct(SidecarCommand),
    /// Decoders, one chunk each, last chunk first, write raw frames that are
    /// fed in order to one encoder reading its standard input.
    Reverse { decoders: Vec<SidecarCommand>, encoder: SidecarCommand },
}

/// A rate as FFmpeg reads it.
pub open spec fn rate_words(rate: Rational) -> Seq<char> {
    signed_decimal(rate.num as int) + "/"@ + signed_decimal(rate.den as int)
}

/// A rate as FFmpeg reads it.
fn rate_text(rate: Rational) -> (text: String)
    ensures
        text@ == rate_words(rate),
{
    let mut text = String::new();
    push_signed(&mut text, rate.num);
    text.append("/");
    push_signed(&mut text, rate.den);
    proof {
        assert(text@ =~= rate_words(rate));
    }
    text
}

/// Scales to fit the sequence, pads the rest black, squares the pixels as the
/// sequence has them, and converts to the encoder's pixel format.
pub open spec fn fitted(settings: SequenceSettings, pixel_format: Seq<char>) -> Seq<char> {
    let w = decimal(settings.width as nat);
    let h = decimal(settings.height as nat);
    "scale="@ + w + ":"@ + h + ":force_original_aspect_ratio=decrease,pad="@ + w + ":"@ + h
        + ":(ow-iw)/2:(oh-ih)/2:color=black,setsar="@ + rate_words(settings.pixel_aspect)
        + ",format="@ + pixel_format
}

/// Scale to fit the sequence, pad the rest black, square the pixels as the
/// sequence has them, and convert to the encoder's pixel format.
pub fn fit(settings: &SequenceSettings, pixel_format: &str) -> (text: String)
    ensures
        text@ == fitted(*settings, pixel_format@),
{
    let aspect = rate_text(settings.pixel_aspect);
    let mut text = "scale=".to_owned();
    push_decimal(&mut text, settings.width as u64);
    text.append(":");
    push_decimal(&mut text, settings.height as u64);
    text.append(":force_original_aspect_ratio=decrease,pad=");
    push_decimal(&mut text, settings.width as u64);
    text.append(":");
    push_decimal(&mut text, settings.height as u64);
    text.append(":(ow-iw)/2:(oh-ih)/2:color=black,setsar=");
    text.append(aspect.as_str());
    text.append(",format=");
    text.append(pixel_format);
    text
}

/// Exactly so many frames on the sequence's grid: short input is padded by
/// repeating its last frame, long input is cut, and every frame is stamped
/// from the segment's start.
pub open spec fn exactly(frames: i64, rate: Rational) -> Seq<char> {
    "tpad=stop_mode=clone:stop=-1,trim=end_frame="@ + signed_decimal(frames as int) + ",setpts=N*"@
        + signed_decimal(rate.den as int) + "/"@ + signed_decimal(rate.num as int) + "/TB"@
}

/// Exactly `frames` frames on the sequence's grid of `rate`.
pub fn exact(frames: i64, rate: Rational) -> (text: String)
    ensures
        text@ == exactly(frames, rate),
{
    let mut text = "tpad=stop_mode=clone:stop=-1,trim=end_frame=".to_owned();
    push_signed(&mut text, frames);
    text.append(",setpts=N*");
    push_signed(&mut text, rate.den);
    text.append("/");
    push_signed(&mut text, rate.num);
    text.append("/TB");
    text
}

/// The nominal frame rate that a stream's probe gives: its average, or its
/// base where that is missing; 30 where neither can be used.
pub open spec fn nominal(stream: Option<StreamInfo>) -> Rational {
    let stated = match stream {
        Some(stream) => match stream.kind {
            StreamKind::Video(video) => match video.average_frame_rate {
                Some(rate) => Some(rate),
                None => video.base_frame_rate,
            },
            _ => None,
        },
        None => None,
    };
    match stated {
        Some(rate) => if rate.positive() {
            rate
        } else {
            Rational { num: 30, den: 1 }
        },
        None => Rational { num: 30, den: 1 },
    }
}

/// The source's nominal frame rate, from its probe.
fn source_rate(inputs: &BTreeMap<SourceId, ExportInput>, source: &SegmentSource) -> (rate: Rational)
    ensures
        rate == nominal(stream_for(inputs@, source.source, source.stream)),
        rate.positive(),
{
    let stated = match stream_of(inputs, source.source, source.stream) {
        Some(stream) => match &stream.kind {
            StreamKind::Video(video) => match video.average_frame_rate {
                Some(rate) => Some(rate),
                None => video.base_frame_rate,
            },
            _ => None,
        },
        None => None,
    };
    match stated {
        Some(rate) => {
            if rate.is_positive() {
                rate
            } else {
                Rational { num: 30, den: 1 }
            }
        },
        None => Rational { num: 30, den: 1 },
    }
}

/// A chunk of a reversed clip in source ticks: so many frames at the source's
/// rate, and one tick where that is none; all of the clip where it is more than
/// can be counted.
pub open spec fn chunk_ticks(rate: Rational, time_base: Rational, from: i64, to: i64) -> i64 {
    match rescaled(
        REVERSE_CHUNK_FRAMES,
        Rational { num: rate.den, den: rate.num },
        time_base,
        Rounding::Down,
    ) {
        Some(ticks) => if ticks > 0 {
            ticks
        } else {
            1
        },
        None => clamped(to - from),
    }
}

/// A chunk holds no more than its frames take, unless they take less than the
/// one tick that a clip can be cut to.
pub proof fn a_chunk_holds_no_more_frames(rate: Rational, time_base: Rational, from: i64, to: i64)
    requires
        rescaled(
            REVERSE_CHUNK_FRAMES,
            Rational { num: rate.den, den: rate.num },
            time_base,
            Rounding::Down,
        ) is Some,
    ensures
        chunk_ticks(rate, time_base, from, to) >= 1,
        chunk_ticks(rate, time_base, from, to) == 1 || chunk_ticks(rate, time_base, from, to) * (
        rate.num * time_base.num) <= REVERSE_CHUNK_FRAMES * (rate.den * time_base.den),
{
    let frame = Rational { num: rate.den, den: rate.num };
    let n = crate::time::rescale_numerator(REVERSE_CHUNK_FRAMES as int, frame, time_base);
    let d = crate::time::rescale_denominator(frame, time_base);
    let (a, b) = (rate.num as int, time_base.num as int);
    assert(d > 0) by (nonlinear_arith)
        requires
            d == a * b,
            a > 0,
            b > 0,
    ;
    vstd::arithmetic::div_mod::lemma_fundamental_div_mod(n, d);
    vstd::arithmetic::div_mod::lemma_mod_bound(n, d);
    assert((n / d) * d == d * (n / d)) by (nonlinear_arith);
}

/// The chunks of a clip that ends at `end`, the last first.
pub open spec fn chunks(from: i64, end: i64, chunk: i64) -> Seq<(i64, i64)>
    decreases end - from,
{
    if end <= from || chunk <= 0 {
        Seq::empty()
    } else {
        let start: i64 = if end - chunk > from {
            (end - chunk) as i64
        } else {
            from
        };
        seq![(start, end)] + chunks(from, start, chunk)
    }
}

/// The chunks that a reversed clip of `source` is decoded in, the last first.
pub fn reverse_chunks(inputs: &BTreeMap<SourceId, ExportInput>, source: &SegmentSource) -> (list: Vec<
    (i64, i64),
>)
    ensures
        list@ == ({
            let rate = nominal(stream_for(inputs@, source.source, source.stream));
            chunks(
                source.source_in,
                source.source_out,
                chunk_ticks(rate, source.time_base, source.source_in, source.source_out),
            )
        }),
{
    let rate = source_rate(inputs, source);
    let (from, to) = (source.source_in, source.source_out);
    let chunk = match rescale(
        REVERSE_CHUNK_FRAMES,
        Rational { num: rate.den, den: rate.num },
        source.time_base,
        Rounding::Down,
    ) {
        Some(ticks) => {
            if ticks > 0 {
                ticks
            } else {
                1
            }
        },
        None => saturating_sub(to, from),
    };
    let mut list: Vec<(i64, i64)> = Vec::new();
    let mut end: i64 = to;
    let ghost all = chunks(from, to, chunk);
    proof {
        assert(list@ + all =~= all);
    }
    while end > from && chunk > 0
        invariant
            all == list@ + chunks(from, end, chunk),
        decreases end - from,
    {
        let start: i64 = if end as i128 - chunk as i128 > from as i128 {
            end - chunk
        } else {
            from
        };
        let ghost held = list@;
        list.push((start, end));
        proof {
            let rest = chunks(from, start, chunk);
            assert(chunks(from, end, chunk) == seq![(start, end)] + rest);
            assert(held + (seq![(start, end)] + rest) =~= list@ + rest);
        }
        end = start;
    }
    proof {
        assert(all =~= list@);
    }
    list
}

/// The chunks of a reversed clip run from its end to its start, each from where
/// the one before starts, and none is longer than one chunk.
pub proof fn a_reverse_holds_one_chunk(from: i64, to: i64, chunk: i64)
    requires
        from < to,
        chunk > 0,
    ensures
        chunks(from, to, chunk).len() > 0,
        chunks(from, to, chunk)[0].1 == to,
        chunks(from, to, chunk).last().0 == from,
        forall|i: int|
            0 <= i < chunks(from, to, chunk).len() ==> {
                let (start, end) = #[trigger] chunks(from, to, chunk)[i];
                from <= start < end <= to && end - start <= chunk
            },
        forall|i: int|
            0 <= i < chunks(from, to, chunk).len() - 1 ==> (#[trigger] chunks(from, to, chunk)[i]).0
                == chunks(from, to, chunk)[i + 1].1,
    decreases to - from,
{
    let start: i64 = if to - chunk > from {
        (to - chunk) as i64
    } else {
        from
    };
    let all = chunks(from, to, chunk);
    let rest = chunks(from, start, chunk);
    assert(all == seq![(start, to)] + rest);
    if start > from {
        a_reverse_holds_one_chunk(from, start, chunk);
        assert forall|i: int| 0 <= i < all.len() implies {
            let (start, end) = #[trigger] all[i];
            from <= start < end <= to && end - start <= chunk
        } by {
            if i > 0 {
                assert(all[i] == rest[i - 1]);
            }
        }
        assert forall|i: int| 0 <= i < all.len() - 1 implies (#[trigger] all[i]).0 == all[i
            + 1].1 by {
            if i > 0 {
                assert(all[i] == rest[i - 1]);
                assert(all[i + 1] == rest[i]);
            }
        }
        assert(all.last() == rest.last());
    } else {
        assert(rest =~= Seq::empty());
    }
}

/// Black of the sequence's shape and rate.
pub open spec fn black(settings: SequenceSettings) -> Seq<char> {
    "color=c=black:s="@ + decimal(settings.width as nat) + "x"@ + decimal(settings.height as nat)
        + ":r="@ + rate_words(settings.frame_rate)
}

/// The filters of a clip that plays: its range, its speed, the sequence's rate
/// and shape, and exactly its frames.
pub open spec fn played_graph(
    source: SegmentSource,
    settings: SequenceSettings,
    pixel_format: Seq<char>,
    frames: i64,
) -> Seq<char> {
    "trim=start_pts="@ + signed_decimal(source.source_in as int) + ":end_pts="@ + signed_decimal(
        source.source_out as int,
    ) + ",setpts=PTS-STARTPTS,setpts=PTS*"@ + signed_decimal(source.speed.den as int) + "/"@
        + signed_decimal(source.speed.num as int) + ",fps="@ + rate_words(settings.frame_rate)
        + ","@ + fitted(settings, pixel_format) + ","@ + exactly(frames, settings.frame_rate)
}

/// One less than the frames, and never negative.
pub open spec fn repeats(frames: i64) -> i64 {
    if frames > 1 {
        (frames - 1) as i64
    } else {
        0
    }
}

/// The filters of a held frame: one picture, repeated.
pub open spec fn held_graph(
    source: SegmentSource,
    settings: SequenceSettings,
    pixel_format: Seq<char>,
    frames: i64,
) -> Seq<char> {
    "trim=start_pts="@ + signed_decimal(source.source_in as int)
        + ",setpts=PTS-STARTPTS,select=eq(n\\,0),loop=loop="@ + signed_decimal(
        repeats(frames) as int,
    ) + ":size=1:start=0,"@ + fitted(settings, pixel_format) + ","@ + exactly(
        frames,
        settings.frame_rate,
    )
}

/// The filters of one chunk of a reversed clip.
pub open spec fn chunk_graph(
    from: i64,
    to: i64,
    settings: SequenceSettings,
    pixel_format: Seq<char>,
) -> Seq<char> {
    "trim=start_pts="@ + signed_decimal(from as int) + ":end_pts="@ + signed_decimal(to as int)
        + ",reverse,"@ + fitted(settings, pixel_format)
}

/// The rate that a source's frames play at.
pub open spec fn played_rate(rate: Rational, speed: Rational) -> Rational {
    Rational { num: clamped(rate.num * speed.num), den: clamped(rate.den * speed.den) }
}

/// The filters of a clip that plays.
fn play(
    source: &SegmentSource,
    settings: &SequenceSettings,
    pixel_format: &str,
    frames: i64,
) -> (graph: String)
    ensures
        graph@ == played_graph(*source, *settings, pixel_format@, frames),
{
    let rate = rate_text(settings.frame_rate);
    let fit = fit(settings, pixel_format);
    let exact = exact(frames, settings.frame_rate);
    let mut graph = "trim=start_pts=".to_owned();
    push_signed(&mut graph, source.source_in);
    graph.append(":end_pts=");
    push_signed(&mut graph, source.source_out);
    graph.append(",setpts=PTS-STARTPTS,setpts=PTS*");
    push_signed(&mut graph, source.speed.den);
    graph.append("/");
    push_signed(&mut graph, source.speed.num);
    graph.append(",fps=");
    graph.append(rate.as_str());
    graph.append(",");
    graph.append(fit.as_str());
    graph.append(",");
    graph.append(exact.as_str());
    graph
}

/// The filters of a held frame.
fn hold(
    source: &SegmentSource,
    settings: &SequenceSettings,
    pixel_format: &str,
    frames: i64,
) -> (graph: String)
    ensures
        graph@ == held_graph(*source, *settings, pixel_format@, frames),
{
    let fit = fit(settings, pixel_format);
    let exact = exact(frames, settings.frame_rate);
    let repeated: i64 = if frames > 1 {
        frames - 1
    } else {
        0
    };
    let mut graph = "trim=start_pts=".to_owned();
    push_signed(&mut graph, source.source_in);
    graph.append(",setpts=PTS-STARTPTS,select=eq(n\\,0),loop=loop=");
    push_signed(&mut graph, repeated);
    graph.append(":size=1:start=0,");
    graph.append(fit.as_str());
    graph.append(",");
    graph.append(exact.as_str());
    graph
}

/// The filters of one chunk of a reversed clip.
fn reverse(from: i64, to: i64, settings: &SequenceSettings, pixel_format: &str) -> (graph: String)
    ensures
        graph@ == chunk_graph(from, to, *settings, pixel_format@),
{
    let fit = fit(settings, pixel_format);
    let mut graph = "trim=start_pts=".to_owned();
    push_signed(&mut graph, from);
    graph.append(":end_pts=");
    push_signed(&mut graph, to);
    graph.append(",reverse,");
    graph.append(fit.as_str());
    graph
}

/// A seek, where there is one.
pub open spec fn sought(seek: Option<String>) -> Seq<Seq<char>> {
    match seek {
        Some(seconds) => seq!["-ss"@, seconds@],
        None => Seq::empty(),
    }
}

/// Decodes one stream of a file, from just before a place.
pub open spec fn decoded(path: Seq<char>, stream: u32, seek: Option<String>) -> Seq<Seq<char>> {
    quiet() + seq!["-copyts"@] + sought(seek) + seq![
        "-i"@,
        crate::orchestrator::command::file_words(path),
        "-map"@,
        "0:"@ + decimal(stream as nat),
    ]
}

/// A decoder of one stream of the file at `path`, from just before a place.
fn decoder(path: &str, stream: u32, seek: &Option<String>) -> (command: SidecarCommand)
    ensures
        command.words() == decoded(path@, stream, *seek),
        command.tool == Tool::Ffmpeg,
        command.progress_total is None,
{
    match seek {
        Some(seconds) => open_stream(path, stream, Some(seconds.as_str())),
        None => open_stream(path, stream, None),
    }
}

/// What encodes with filters: the filters, the encoder, and the pipe.
pub open spec fn encoded(
    before: Seq<Seq<char>>,
    graph: Seq<char>,
    choice: crate::export::profile::ChoiceModel,
) -> Seq<Seq<char>> {
    before + seq!["-vf"@, graph] + choice_words(choice) + piped()
}

/// Filter, encode and pipe.
fn encode(command: SidecarCommand, graph: &str, choice: &EncoderChoice) -> (next: SidecarCommand)
    ensures
        next.words() == encoded(command.words(), graph@, choice@),
        next.tool == command.tool,
        next.stdout == Stdout::Stream,
        next.progress_total == command.progress_total,
{
    pipe(ask(command.option("-vf", graph), choice))
}

/// The decoder of one chunk of a reversed clip.
pub open spec fn chunk_words(
    path: Seq<char>,
    source: SegmentSource,
    seek: Option<String>,
    chunk: (i64, i64),
    settings: SequenceSettings,
    pixel_format: Seq<char>,
) -> Seq<Seq<char>> {
    decoded(path, source.stream, seek) + seq![
        "-vf"@,
        chunk_graph(chunk.0, chunk.1, settings, pixel_format),
        "-f"@,
        "rawvideo"@,
        "pipe:1"@,
    ]
}

/// The encoder of a reversed clip: it reads the frames at the source's rate,
/// played at the clip's speed, and puts them on the grid.
pub open spec fn reverse_words(
    source: SegmentSource,
    rate: Rational,
    settings: SequenceSettings,
    frames: i64,
    choice: crate::export::profile::ChoiceModel,
) -> Seq<Seq<char>> {
    encoded(
        quiet() + seq![
            "-f"@,
            "rawvideo"@,
            "-pix_fmt"@,
            choice.pixel_format,
            "-s"@,
            decimal(settings.width as nat) + "x"@ + decimal(settings.height as nat),
            "-r"@,
            rate_words(played_rate(rate, source.speed)),
            "-i"@,
            "pipe:0"@,
        ],
        "fps="@ + rate_words(settings.frame_rate) + ","@ + exactly(frames, settings.frame_rate),
        choice,
    )
}

/// FFmpeg runs, its output is taken as it comes, and it reports no progress.
pub open spec fn streams_out(command: SidecarCommand) -> bool {
    &&& command.tool == Tool::Ffmpeg
    &&& command.stdout == Stdout::Stream
    &&& command.progress_total is None
}

/// What renders a segment is what is said here: black where it has no source;
/// otherwise a clip that is held, plays, or is reversed chunk by chunk.
pub open spec fn renders(
    job: RenderJob,
    segment: Segment,
    settings: SequenceSettings,
    inputs: Map<SourceId, ExportInput>,
    seeks: Seq<Option<String>>,
    choice: crate::export::profile::ChoiceModel,
) -> bool {
    let frames = segment.length;
    let format = choice.pixel_format;
    if segment.sources@.len() == 0 {
        &&& job is Direct
        &&& streams_out(job->Direct_0)
        &&& job->Direct_0.words() == encoded(
            quiet() + seq!["-f"@, "lavfi"@, "-i"@, black(settings)],
            fitted(settings, format) + ","@ + exactly(frames, settings.frame_rate),
            choice,
        )
    } else {
        let source = segment.sources@[0];
        let path = inputs[source.source].path@;
        let rate = nominal(stream_for(inputs, source.source, source.stream));
        let parts = chunks(
            source.source_in,
            source.source_out,
            chunk_ticks(rate, source.time_base, source.source_in, source.source_out),
        );
        match source.motion {
            Some(Motion::Hold) => {
                &&& job is Direct
                &&& streams_out(job->Direct_0)
                &&& job->Direct_0.words() == encoded(
                    decoded(path, source.stream, seeks[0]),
                    held_graph(source, settings, format, frames),
                    choice,
                )
            },
            None => {
                &&& job is Direct
                &&& streams_out(job->Direct_0)
                &&& job->Direct_0.words() == encoded(
                    decoded(path, source.stream, seeks[0]),
                    played_graph(source, settings, format, frames),
                    choice,
                )
            },
            Some(Motion::Reverse) => {
                &&& job is Reverse
                &&& job->decoders@.len() == parts.len()
                &&& forall|i: int|
                    0 <= i < parts.len() ==> (#[trigger] job->decoders@[i]).words() == chunk_words(
                        path,
                        source,
                        seeks[i],
                        parts[i],
                        settings,
                        format,
                    ) && streams_out(job->decoders@[i])
                &&& streams_out(job->encoder)
                &&& job->encoder.words() == reverse_words(source, rate, settings, frames, choice)
            },
        }
    }
}

/// How many decoders a segment takes, and so how many seeks.
pub open spec fn decoders_of(segment: Segment, inputs: Map<SourceId, ExportInput>) -> nat {
    if segment.sources@.len() == 0 {
        0
    } else {
        let source = segment.sources@[0];
        let rate = nominal(stream_for(inputs, source.source, source.stream));
        match source.motion {
            Some(Motion::Reverse) => chunks(
                source.source_in,
                source.source_out,
                chunk_ticks(rate, source.time_base, source.source_in, source.source_out),
            ).len(),
            _ => 1,
        }
    }
}

/// Where each decoder of a segment starts, in source ticks: what its seek is
/// worked out from.
pub fn decode_starts(segment: &Segment, inputs: &BTreeMap<SourceId, ExportInput>) -> (starts: Vec<i64>)
    ensures
        starts@.len() == decoders_of(*segment, inputs@),
        segment.sources@.len() > 0 && segment.sources@[0].motion != Some(Motion::Reverse)
            ==> starts@[0] == segment.sources@[0].source_in,
        segment.sources@.len() > 0 && segment.sources@[0].motion == Some(Motion::Reverse) ==> {
            let source = segment.sources@[0];
            let rate = nominal(stream_for(inputs@, source.source, source.stream));
            let parts = chunks(
                source.source_in,
                source.source_out,
                chunk_ticks(rate, source.time_base, source.source_in, source.source_out),
            );
            forall|i: int| 0 <= i < parts.len() ==> #[trigger] starts@[i] == parts[i].0
        },
{
    let mut starts: Vec<i64> = Vec::new();
    if segment.sources.len() == 0 {
        return starts;
    }
    let source = &segment.sources[0];
    let reversed = match source.motion {
        Some(Motion::Reverse) => true,
        _ => false,
    };
    if !reversed {
        starts.push(source.source_in);
        return starts;
    }
    let parts = reverse_chunks(inputs, source);
    let mut i: usize = 0;
    while i < parts.len()
        invariant
            i <= parts@.len(),
            starts@.len() == i,
            forall|k: int| 0 <= k < i ==> #[trigger] starts@[k] == parts@[k].0,
        decreases parts@.len() - i,
    {
        starts.push(parts[i].0);
        i += 1;
    }
    starts
}

/// Black of the sequence's shape and rate.
fn black_text(settings: &SequenceSettings) -> (text: String)
    ensures
        text@ == black(*settings),
{
    let rate = rate_text(settings.frame_rate);
    let mut text = "color=c=black:s=".to_owned();
    push_decimal(&mut text, settings.width as u64);
    text.append("x");
    push_decimal(&mut text, settings.height as u64);
    text.append(":r=");
    text.append(rate.as_str());
    text
}

/// The decoders of a reversed clip, last chunk first.
fn chunk_decoders(
    path: &str,
    source: &SegmentSource,
    seeks: &Vec<Option<String>>,
    parts: &Vec<(i64, i64)>,
    settings: &SequenceSettings,
    pixel_format: &str,
) -> (decoders: Vec<SidecarCommand>)
    requires
        seeks@.len() == parts@.len(),
    ensures
        decoders@.len() == parts@.len(),
        forall|i: int|
            0 <= i < parts@.len() ==> (#[trigger] decoders@[i]).words() == chunk_words(
                path@,
                *source,
                seeks@[i],
                parts@[i],
                *settings,
                pixel_format@,
            ) && streams_out(decoders@[i]),
{
    let mut decoders: Vec<SidecarCommand> = Vec::new();
    let mut i: usize = 0;
    while i < parts.len()
        invariant
            i <= parts@.len(),
            seeks@.len() == parts@.len(),
            decoders@.len() == i,
            forall|k: int|
                0 <= k < i ==> (#[trigger] decoders@[k]).words() == chunk_words(
                    path@,
                    *source,
                    seeks@[k],
                    parts@[k],
                    *settings,
                    pixel_format@,
                ) && streams_out(decoders@[k]),
        decreases parts@.len() - i,
    {
        let (from, to) = parts[i];
        let graph = reverse(from, to, settings, pixel_format);
        let open = decoder(path, source.stream, &seeks[i]);
        let ghost start = open.words();
        let command = open.option("-vf", graph.as_str()).option("-f", "rawvideo").output_stdout();
        proof {
            assert(command.words() =~= start + seq![
                "-vf"@,
                graph@,
                "-f"@,
                "rawvideo"@,
                "pipe:1"@,
            ]);
        }
        decoders.push(command);
        i += 1;
    }
    decoders
}

/// The encoder of a reversed clip.
fn reverse_encoder(
    source: &SegmentSource,
    rate: Rational,
    settings: &SequenceSettings,
    frames: i64,
    choice: &EncoderChoice,
) -> (command: SidecarCommand)
    ensures
        command.words() == reverse_words(*source, rate, *settings, frames, choice@),
        streams_out(command),
{
    let played = Rational {
        num: saturating_mul(rate.num, source.speed.num),
        den: saturating_mul(rate.den, source.speed.den),
    };
    let mut size = String::new();
    push_decimal(&mut size, settings.width as u64);
    size.append("x");
    push_decimal(&mut size, settings.height as u64);
    proof {
        assert(size@ =~= decimal(settings.width as nat) + "x"@ + decimal(settings.height as nat));
    }
    let input_rate = rate_text(played);
    let grid = rate_text(settings.frame_rate);
    let exact = exact(frames, settings.frame_rate);
    let mut graph = "fps=".to_owned();
    graph.append(grid.as_str());
    graph.append(",");
    graph.append(exact.as_str());
    let command = SidecarCommand::ffmpeg().option("-v", "error").option("-f", "rawvideo").option(
        "-pix_fmt",
        choice.pixel_format.as_str(),
    ).option("-s", size.as_str()).option("-r", input_rate.as_str()).stdin_input();
    proof {
        assert(command.words() =~= quiet() + seq![
            "-f"@,
            "rawvideo"@,
            "-pix_fmt"@,
            choice@.pixel_format,
            "-s"@,
            decimal(settings.width as nat) + "x"@ + decimal(settings.height as nat),
            "-r"@,
            rate_words(played_rate(rate, source.speed)),
            "-i"@,
            "pipe:0"@,
        ]);
    }
    encode(command, graph.as_str(), choice)
}

/// What renders `segment` with `choice` at the shape of `settings`. `seeks` are
/// the seconds that each decoder of [`decode_starts`] seeks to, unless it reads
/// from the start. An error where the source is missing.
pub fn render_job(
    segment: &Segment,
    settings: &SequenceSettings,
    inputs: &BTreeMap<SourceId, ExportInput>,
    seeks: &Vec<Option<String>>,
    choice: &EncoderChoice,
) -> (job: Result<RenderJob, ExportError>)
    requires
        seeks@.len() == decoders_of(*segment, inputs@),
    ensures
        if segment.sources@.len() > 0 && !inputs@.dom().contains(segment.sources@[0].source) {
            job is Err && job->Err_0@ == ErrorModel::MissingSource(segment.sources@[0].source)
        } else {
            job is Ok && renders(job->Ok_0, *segment, *settings, inputs@, seeks@, choice@)
        },
{
    broadcast use vstd::std_specs::btree::group_btree_axioms;

    let frames = segment.length;
    let format = choice.pixel_format.as_str();
    if segment.sources.len() == 0 {
        // A gap: black at the sequence's shape and rate.
        let black = black_text(settings);
        let exact = exact(frames, settings.frame_rate);
        let graph = fit(settings, format).concat(",").concat(exact.as_str());
        let command = SidecarCommand::ffmpeg().option("-v", "error").lavfi_input(black.as_str());
        proof {
            assert(command.words() =~= quiet() + seq!["-f"@, "lavfi"@, "-i"@, black@]);
        }
        return Ok(RenderJob::Direct(encode(command, graph.as_str(), choice)));
    }
    let source = &segment.sources[0];
    let path = match inputs.get(&source.source) {
        Some(input) => input.path.as_str(),
        None => {
            return Err(ExportError::MissingSource(source.source));
        },
    };
    match source.motion {
        Some(Motion::Hold) => {
            let graph = hold(source, settings, format, frames);
            let command = decoder(path, source.stream, &seeks[0]);
            Ok(RenderJob::Direct(encode(command, graph.as_str(), choice)))
        },
        Some(Motion::Reverse) => {
            let rate = source_rate(inputs, source);
            let parts = reverse_chunks(inputs, source);
            let decoders = chunk_decoders(path, source, seeks, &parts, settings, format);
            let encoder = reverse_encoder(source, rate, settings, frames, choice);
            Ok(RenderJob::Reverse { decoders, encoder })
        },
        None => {
            let graph = play(source, settings, format, frames);
            let command = decoder(path, source.stream, &seeks[0]);
            Ok(RenderJob::Direct(encode(command, graph.as_str(), choice)))
        },
    }
}

} // verus!
