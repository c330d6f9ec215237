//! What a render shows: which pictures of which source, how fast, how many of
//! them, and in which shape.
use crate::export::execute::command::{choice_words, piped, quiet};
use crate::export::execute::ExportInput;
use crate::export::plan::{Segment, SegmentSource};
use crate::export::profile::ChoiceModel;
use crate::export::render::{
    a_reverse_holds_one_chunk, black, chunk_graph, chunk_words, chunks, decoded, encoded, exactly,
    fitted, held_graph, played_graph, played_rate, rate_words, renders, repeats, reverse_words,
    sought, RenderJob,
};
use crate::orchestrator::command::{file_words, lemma_says, says, SidecarCommand, Stdout, Tool};
use crate::probe::Rational;
use crate::project::{Motion, SequenceSettings, SourceId};
use crate::text::{decimal, signed_decimal};
use vstd::prelude::*;

verus! {

/// A fraction in FFmpeg's words.
pub open spec fn fraction(num: int, den: int) -> Seq<char> {
    signed_decimal(num) + "/"@ + signed_decimal(den)
}

/// A width and a height in FFmpeg's words.
pub open spec fn sized(width: u32, separator: Seq<char>, height: u32) -> Seq<char> {
    decimal(width as nat) + separator + decimal(height as nat)
}

/// A graph fits its pictures into the sequence's frame, whole and undistorted,
/// what is left over black, and hands them on in the encoder's format.
pub open spec fn in_shape(settings: SequenceSettings, format: Seq<char>) -> Seq<char> {
    "scale="@ + sized(settings.width, ":"@, settings.height)
        + ":force_original_aspect_ratio=decrease,pad="@ + sized(
        settings.width,
        ":"@,
        settings.height,
    ) + ":(ow-iw)/2:(oh-ih)/2:color=black,setsar="@ + fraction(
        settings.pixel_aspect.num as int,
        settings.pixel_aspect.den as int,
    ) + ",format="@ + format
}

/// A graph gives exactly so many frames, the last one repeated where there are
/// too few, each as long after the one before as the rate says.
pub open spec fn counted(frames: i64, rate: Rational) -> Seq<char> {
    "tpad=stop_mode=clone:stop=-1,trim=end_frame="@ + signed_decimal(frames as int) + ",setpts=N*"@
        + fraction(rate.den as int, rate.num as int) + "/TB"@
}

proof fn lemma_in_shape(settings: SequenceSettings, format: Seq<char>)
    ensures
        fitted(settings, format) == in_shape(settings, format),
{
    assert(fitted(settings, format) =~= in_shape(settings, format));
}

proof fn lemma_counted(frames: i64, rate: Rational)
    ensures
        exactly(frames, rate) == counted(frames, rate),
{
    assert(exactly(frames, rate) =~= counted(frames, rate));
}

/// A process runs FFmpeg, writes NUT to its standard output, a hundred seconds
/// late, and its output is taken as it comes.
pub open spec fn writes_nut(command: SidecarCommand) -> bool {
    &&& command.tool == Tool::Ffmpeg
    &&& command.stdout == Stdout::Stream
    &&& command.progress_total is None
    &&& says(command.words(), "-output_ts_offset"@, "100"@)
    &&& says(command.words(), "-f"@, "nut"@)
    &&& command.words().len() > 0
    &&& command.words().last() == "pipe:1"@
}

/// What encodes with filters says its filters and writes NUT.
proof fn lemma_encoded(before: Seq<Seq<char>>, graph: Seq<char>, choice: ChoiceModel)
    ensures
        says(encoded(before, graph, choice), "-vf"@, graph),
        says(encoded(before, graph, choice), "-output_ts_offset"@, "100"@),
        says(encoded(before, graph, choice), "-f"@, "nut"@),
        encoded(before, graph, choice).len() > 0,
        encoded(before, graph, choice).last() == "pipe:1"@,
        forall|name: Seq<char>, value: Seq<char>| #[trigger]
            says(before, name, value) ==> says(encoded(before, graph, choice), name, value),
        forall|name: Seq<char>, value: Seq<char>| #[trigger]
            says(choice_words(choice), name, value) ==> says(
                encoded(before, graph, choice),
                name,
                value,
            ),
{
    let words = encoded(before, graph, choice);
    let asked = choice_words(choice);
    let late = "-output_ts_offset"@;
    assert(words =~= before + seq!["-vf"@, graph] + (asked + piped()));
    lemma_says(words, before, "-vf"@, graph, asked + piped());
    let front = before + seq!["-vf"@, graph] + asked;
    assert(words =~= front + seq![late, "100"@] + seq!["-f"@, "nut"@, "pipe:1"@]);
    lemma_says(words, front, late, "100"@, seq!["-f"@, "nut"@, "pipe:1"@]);
    assert(words =~= (front + seq![late, "100"@]) + seq!["-f"@, "nut"@] + seq!["pipe:1"@]);
    lemma_says(words, front + seq![late, "100"@], "-f"@, "nut"@, seq!["pipe:1"@]);
    assert forall|name: Seq<char>, value: Seq<char>| #[trigger] says(before, name, value) implies says(
        words,
        name,
        value,
    ) by {
        let i = choose|i: int|
            0 <= i < before.len() - 1 && #[trigger] before[i] == name && before[i + 1] == value;
        assert(words[i] == name && words[i + 1] == value);
    }
    assert forall|name: Seq<char>, value: Seq<char>| #[trigger] says(asked, name, value) implies says(
        words,
        name,
        value,
    ) by {
        let i = choose|i: int|
            0 <= i < asked.len() - 1 && #[trigger] asked[i] == name && asked[i + 1] == value;
        let k = before.len() + 2 + i;
        assert(words[k] == name && words[k + 1] == value);
    }
}

/// A decoder opens its file and takes its stream of it.
proof fn lemma_decoded(path: Seq<char>, stream: u32, seek: Option<String>)
    ensures
        says(decoded(path, stream, seek), "-i"@, "file:"@ + path),
        says(decoded(path, stream, seek), "-map"@, "0:"@ + decimal(stream as nat)),
        seek is Some ==> says(decoded(path, stream, seek), "-ss"@, seek->0@),
{
    let words = decoded(path, stream, seek);
    let map = "0:"@ + decimal(stream as nat);
    let file = "file:"@ + path;
    let front = quiet() + seq!["-copyts"@];
    assert(file_words(path) == file);
    assert(words =~= (front + sought(seek)) + seq!["-i"@, file] + seq!["-map"@, map]);
    lemma_says(words, front + sought(seek), "-i"@, file, seq!["-map"@, map]);
    let before = front + sought(seek) + seq!["-i"@, file];
    assert(words =~= before + seq!["-map"@, map] + Seq::<Seq<char>>::empty());
    lemma_says(words, before, "-map"@, map, Seq::empty());
    if let Some(seconds) = seek {
        let rest = seq!["-i"@, file, "-map"@, map];
        assert(words =~= front + seq!["-ss"@, seconds@] + rest);
        lemma_says(words, front, "-ss"@, seconds@, rest);
    }
}

/// A clip that plays fills its segment. Its own range of its own stream is
/// taken; what a timestamp is multiplied by, times the clip's speed, is one;
/// the pictures are put on the sequence's grid and into its shape, and there
/// are exactly as many as the segment is long.
pub proof fn a_clip_plays_at_its_speed(
    job: RenderJob,
    segment: Segment,
    settings: SequenceSettings,
    inputs: Map<SourceId, ExportInput>,
    seeks: Seq<Option<String>>,
    choice: ChoiceModel,
)
    requires
        renders(job, segment, settings, inputs, seeks, choice),
        segment.sources@.len() > 0,
        segment.sources@[0].motion is None,
    ensures
        ({
            let source = segment.sources@[0];
            &&& job matches RenderJob::Direct(command) && {
                &&& writes_nut(command)
                &&& says(command.words(), "-i"@, "file:"@ + inputs[source.source].path@)
                &&& says(command.words(), "-map"@, "0:"@ + decimal(source.stream as nat))
                &&& seeks[0] matches Some(seconds) ==> says(command.words(), "-ss"@, seconds@)
                &&& exists|a: int, b: int|
                    a * source.speed.num == b * source.speed.den && (a == source.speed.den) && says(
                        command.words(),
                        "-vf"@,
                        "trim=start_pts="@ + signed_decimal(source.source_in as int) + ":end_pts="@
                            + signed_decimal(source.source_out as int)
                            + ",setpts=PTS-STARTPTS,setpts=PTS*"@ + #[trigger] fraction(a, b)
                            + ",fps="@ + fraction(
                            settings.frame_rate.num as int,
                            settings.frame_rate.den as int,
                        ) + ","@ + in_shape(settings, choice.pixel_format) + ","@ + counted(
                            segment.length,
                            settings.frame_rate,
                        ),
                    )
            }
        }),
{
    let source = segment.sources@[0];
    let before = decoded(inputs[source.source].path@, source.stream, seeks[0]);
    let graph = played_graph(source, settings, choice.pixel_format, segment.length);
    lemma_decoded(inputs[source.source].path@, source.stream, seeks[0]);
    lemma_encoded(before, graph, choice);
    lemma_in_shape(settings, choice.pixel_format);
    lemma_counted(segment.length, settings.frame_rate);
    let (a, b) = (source.speed.den as int, source.speed.num as int);
    assert(a * source.speed.num == b * source.speed.den) by (nonlinear_arith)
        requires
            a == source.speed.den,
            b == source.speed.num,
    ;
    assert(graph =~= "trim=start_pts="@ + signed_decimal(source.source_in as int) + ":end_pts="@
        + signed_decimal(source.source_out as int) + ",setpts=PTS-STARTPTS,setpts=PTS*"@
        + fraction(a, b) + ",fps="@ + fraction(
        settings.frame_rate.num as int,
        settings.frame_rate.den as int,
    ) + ","@ + in_shape(settings, choice.pixel_format) + ","@ + counted(
        segment.length,
        settings.frame_rate,
    ));
}

/// A held frame is the picture at the clip's in-point, shown for exactly the
/// segment: once, and again for every further frame.
pub proof fn a_held_frame_is_repeated(
    job: RenderJob,
    segment: Segment,
    settings: SequenceSettings,
    inputs: Map<SourceId, ExportInput>,
    seeks: Seq<Option<String>>,
    choice: ChoiceModel,
)
    requires
        renders(job, segment, settings, inputs, seeks, choice),
        segment.sources@.len() > 0,
        segment.sources@[0].motion == Some(Motion::Hold),
    ensures
        ({
            let source = segment.sources@[0];
            &&& job matches RenderJob::Direct(command) && {
                &&& writes_nut(command)
                &&& says(command.words(), "-i"@, "file:"@ + inputs[source.source].path@)
                &&& says(command.words(), "-map"@, "0:"@ + decimal(source.stream as nat))
                &&& seeks[0] matches Some(seconds) ==> says(command.words(), "-ss"@, seconds@)
                &&& exists|again: int|
                    (segment.length >= 1 ==> 1 + again == segment.length) && (segment.length < 1
                        ==> again == 0) && says(
                        command.words(),
                        "-vf"@,
                        "trim=start_pts="@ + signed_decimal(source.source_in as int)
                            + ",setpts=PTS-STARTPTS,select=eq(n\\,0),loop=loop="@
                            + #[trigger] signed_decimal(again) + ":size=1:start=0,"@ + in_shape(
                            settings,
                            choice.pixel_format,
                        ) + ","@ + counted(segment.length, settings.frame_rate),
                    )
            }
        }),
{
    let source = segment.sources@[0];
    let before = decoded(inputs[source.source].path@, source.stream, seeks[0]);
    let graph = held_graph(source, settings, choice.pixel_format, segment.length);
    lemma_decoded(inputs[source.source].path@, source.stream, seeks[0]);
    lemma_encoded(before, graph, choice);
    lemma_in_shape(settings, choice.pixel_format);
    lemma_counted(segment.length, settings.frame_rate);
    let again = repeats(segment.length) as int;
    assert(graph =~= "trim=start_pts="@ + signed_decimal(source.source_in as int)
        + ",setpts=PTS-STARTPTS,select=eq(n\\,0),loop=loop="@ + signed_decimal(again)
        + ":size=1:start=0,"@ + in_shape(settings, choice.pixel_format) + ","@ + counted(
        segment.length,
        settings.frame_rate,
    ));
}

/// A gap is black: no file is opened, and there are exactly as many frames of
/// the sequence's shape and rate as the gap is long.
pub proof fn a_gap_is_black(
    job: RenderJob,
    segment: Segment,
    settings: SequenceSettings,
    inputs: Map<SourceId, ExportInput>,
    seeks: Seq<Option<String>>,
    choice: ChoiceModel,
)
    requires
        renders(job, segment, settings, inputs, seeks, choice),
        segment.sources@.len() == 0,
    ensures
        job matches RenderJob::Direct(command) && {
            &&& writes_nut(command)
            &&& says(command.words(), "-f"@, "lavfi"@)
            &&& says(
                command.words(),
                "-i"@,
                "color=c=black:s="@ + sized(settings.width, "x"@, settings.height) + ":r="@ + fraction(
                    settings.frame_rate.num as int,
                    settings.frame_rate.den as int,
                ),
            )
            &&& says(
                command.words(),
                "-vf"@,
                in_shape(settings, choice.pixel_format) + ","@ + counted(
                    segment.length,
                    settings.frame_rate,
                ),
            )
        },
{
    let graph = fitted(settings, choice.pixel_format) + ","@ + exactly(
        segment.length,
        settings.frame_rate,
    );
    let input = black(settings);
    let before = quiet() + seq!["-f"@, "lavfi"@, "-i"@, input];
    lemma_encoded(before, graph, choice);
    lemma_in_shape(settings, choice.pixel_format);
    lemma_counted(segment.length, settings.frame_rate);
    assert(before =~= quiet() + seq!["-f"@, "lavfi"@] + seq!["-i"@, input]);
    lemma_says(before, quiet(), "-f"@, "lavfi"@, seq!["-i"@, input]);
    let front = quiet() + seq!["-f"@, "lavfi"@];
    assert(before =~= front + seq!["-i"@, input] + Seq::<Seq<char>>::empty());
    lemma_says(before, front, "-i"@, input, Seq::empty());
    assert(input =~= "color=c=black:s="@ + sized(settings.width, "x"@, settings.height) + ":r="@
        + fraction(settings.frame_rate.num as int, settings.frame_rate.den as int));
}

/// One chunk of a reversed clip is decoded, turned round and handed on raw.
pub open spec fn turns(
    command: SidecarCommand,
    path: Seq<char>,
    source: SegmentSource,
    from: i64,
    to: i64,
    settings: SequenceSettings,
    format: Seq<char>,
) -> bool {
    &&& command.tool == Tool::Ffmpeg
    &&& command.stdout == Stdout::Stream
    &&& command.progress_total is None
    &&& says(command.words(), "-i"@, "file:"@ + path)
    &&& says(command.words(), "-map"@, "0:"@ + decimal(source.stream as nat))
    &&& says(
        command.words(),
        "-vf"@,
        "trim=start_pts="@ + signed_decimal(from as int) + ":end_pts="@ + signed_decimal(to as int)
            + ",reverse,"@ + in_shape(settings, format),
    )
    &&& says(command.words(), "-f"@, "rawvideo"@)
    &&& command.words().last() == "pipe:1"@
}

proof fn lemma_turns(
    command: SidecarCommand,
    path: Seq<char>,
    source: SegmentSource,
    seek: Option<String>,
    part: (i64, i64),
    settings: SequenceSettings,
    format: Seq<char>,
)
    requires
        crate::export::render::streams_out(command),
        command.words() == chunk_words(path, source, seek, part, settings, format),
    ensures
        turns(command, path, source, part.0, part.1, settings, format),
        seek is Some ==> says(command.words(), "-ss"@, seek->0@),
{
    let before = decoded(path, source.stream, seek);
    let graph = chunk_graph(part.0, part.1, settings, format);
    let words = command.words();
    let empty = Seq::<Seq<char>>::empty();
    lemma_decoded(path, source.stream, seek);
    lemma_in_shape(settings, format);
    let raw = seq!["-f"@, "rawvideo"@, "pipe:1"@];
    assert(words =~= before + seq!["-vf"@, graph] + raw);
    lemma_says(words, before, "-vf"@, graph, raw);
    assert(words =~= (before + seq!["-vf"@, graph]) + seq!["-f"@, "rawvideo"@] + seq!["pipe:1"@]);
    lemma_says(words, before + seq!["-vf"@, graph], "-f"@, "rawvideo"@, seq!["pipe:1"@]);
    assert(words =~= empty + before + (seq!["-vf"@, graph] + raw));
    let rest = seq!["-vf"@, graph] + raw;
    crate::orchestrator::command::lemma_still_says(
        words,
        empty,
        before,
        "-i"@,
        "file:"@ + path,
        rest,
    );
    crate::orchestrator::command::lemma_still_says(
        words,
        empty,
        before,
        "-map"@,
        "0:"@ + decimal(source.stream as nat),
        rest,
    );
    if let Some(seconds) = seek {
        crate::orchestrator::command::lemma_still_says(
            words,
            empty,
            before,
            "-ss"@,
            seconds@,
            rest,
        );
    }
    assert(graph =~= "trim=start_pts="@ + signed_decimal(part.0 as int) + ":end_pts="@
        + signed_decimal(part.1 as int) + ",reverse,"@ + in_shape(settings, format));
}

/// A reversed clip shows every picture of its range, the last first. The
/// decoders take ranges that run from its out-point down to its in-point
/// without a gap, each turned round; the encoder reads them in that order at
/// the source's rate times the clip's speed and gives exactly as many frames
/// as the segment is long.
pub proof fn a_reversed_clip_runs_backwards(
    job: RenderJob,
    segment: Segment,
    settings: SequenceSettings,
    inputs: Map<SourceId, ExportInput>,
    seeks: Seq<Option<String>>,
    choice: ChoiceModel,
    rate: Rational,
)
    requires
        renders(job, segment, settings, inputs, seeks, choice),
        segment.sources@.len() > 0,
        segment.sources@[0].motion == Some(Motion::Reverse),
        segment.sources@[0].source_in < segment.sources@[0].source_out,
        rate == crate::export::render::nominal(
            crate::export::audio::stream_for(
                inputs,
                segment.sources@[0].source,
                segment.sources@[0].stream,
            ),
        ),
    ensures
        ({
            let source = segment.sources@[0];
            let path = inputs[source.source].path@;
            let format = choice.pixel_format;
            let (n, d) = (rate.num * source.speed.num, rate.den * source.speed.den);
            &&& job matches RenderJob::Reverse { decoders, encoder } && {
                &&& decoders@.len() > 0
                &&& exists|ends: Seq<i64>|
                    {
                        &&& ends.len() == decoders@.len() + 1
                        &&& ends.first() == source.source_out
                        &&& ends.last() == source.source_in
                        &&& forall|i: int|
                            0 <= i < decoders@.len() ==> #[trigger] ends[i + 1] < ends[i] && turns(
                                decoders@[i],
                                path,
                                source,
                                ends[i + 1],
                                ends[i],
                                settings,
                                format,
                            )
                    }
                &&& writes_nut(encoder)
                &&& says(encoder.words(), "-f"@, "rawvideo"@)
                &&& says(encoder.words(), "-pix_fmt"@, format)
                &&& says(encoder.words(), "-s"@, sized(settings.width, "x"@, settings.height))
                &&& says(encoder.words(), "-i"@, "pipe:0"@)
                &&& 0 < n <= i64::MAX && 0 < d <= i64::MAX ==> says(
                    encoder.words(),
                    "-r"@,
                    fraction(n, d),
                )
                &&& says(
                    encoder.words(),
                    "-vf"@,
                    "fps="@ + fraction(
                        settings.frame_rate.num as int,
                        settings.frame_rate.den as int,
                    ) + ","@ + counted(segment.length, settings.frame_rate),
                )
            }
        }),
{
    let source = segment.sources@[0];
    let path = inputs[source.source].path@;
    let format = choice.pixel_format;
    let chunk = crate::export::render::chunk_ticks(
        rate,
        source.time_base,
        source.source_in,
        source.source_out,
    );
    let parts = chunks(source.source_in, source.source_out, chunk);
    let decoders = job->decoders@;
    assert(chunk > 0) by {
        if crate::time::rescaled(
            crate::export::render::REVERSE_CHUNK_FRAMES,
            Rational { num: rate.den, den: rate.num },
            source.time_base,
            crate::time::Rounding::Down,
        ) is None {
            assert(chunk == crate::num::clamped(source.source_out - source.source_in));
        }
    }
    a_reverse_holds_one_chunk(source.source_in, source.source_out, chunk);
    let ends = Seq::new(
        (decoders.len() + 1) as nat,
        |i: int|
            if i == 0 {
                source.source_out
            } else {
                parts[i - 1].0
            },
    );
    assert forall|i: int| 0 <= i < decoders.len() implies #[trigger] ends[i + 1] < ends[i] && turns(
        decoders[i],
        path,
        source,
        ends[i + 1],
        ends[i],
        settings,
        format,
    ) by {
        let part = parts[i];
        assert(ends[i] == part.1) by {
            if i > 0 {
                assert(parts[i - 1].0 == parts[i - 1 + 1].1);
            }
        }
        assert(decoders[i].words() == chunk_words(
            path,
            source,
            seeks[i],
            parts[i],
            settings,
            format,
        ));
        lemma_turns(decoders[i], path, source, seeks[i], part, settings, format);
    }
    assert(ends.last() == parts.last().0);
    lemma_reverse_words(source, rate, settings, segment.length, choice);
}

proof fn lemma_reverse_words(
    source: SegmentSource,
    rate: Rational,
    settings: SequenceSettings,
    frames: i64,
    choice: ChoiceModel,
)
    ensures
        ({
            let words = reverse_words(source, rate, settings, frames, choice);
            let (n, d) = (rate.num * source.speed.num, rate.den * source.speed.den);
            &&& says(words, "-f"@, "rawvideo"@)
            &&& says(words, "-pix_fmt"@, choice.pixel_format)
            &&& says(words, "-s"@, sized(settings.width, "x"@, settings.height))
            &&& says(words, "-i"@, "pipe:0"@)
            &&& 0 < n <= i64::MAX && 0 < d <= i64::MAX ==> says(words, "-r"@, fraction(n, d))
            &&& says(
                words,
                "-vf"@,
                "fps="@ + fraction(settings.frame_rate.num as int, settings.frame_rate.den as int)
                    + ","@ + counted(frames, settings.frame_rate),
            )
            &&& says(words, "-output_ts_offset"@, "100"@)
            &&& says(words, "-f"@, "nut"@)
            &&& words.len() > 0
            &&& words.last() == "pipe:1"@
        }),
{
    let size = sized(settings.width, "x"@, settings.height);
    let (n, d) = (rate.num * source.speed.num, rate.den * source.speed.den);
    let played = rate_words(played_rate(rate, source.speed));
    let before = quiet() + seq![
        "-f"@,
        "rawvideo"@,
        "-pix_fmt"@,
        choice.pixel_format,
        "-s"@,
        size,
        "-r"@,
        played,
        "-i"@,
        "pipe:0"@,
    ];
    let graph = "fps="@ + rate_words(settings.frame_rate) + ","@ + exactly(
        frames,
        settings.frame_rate,
    );
    lemma_encoded(before, graph, choice);
    lemma_counted(frames, settings.frame_rate);
    let at = quiet().len() as int;
    assert(before[at] == "-f"@ && before[at + 1] == "rawvideo"@);
    assert(says(before, "-f"@, "rawvideo"@));
    assert(before[at + 2] == "-pix_fmt"@ && before[at + 3] == choice.pixel_format);
    assert(says(before, "-pix_fmt"@, choice.pixel_format));
    assert(before[at + 4] == "-s"@ && before[at + 5] == size);
    assert(says(before, "-s"@, size));
    assert(before[at + 6] == "-r"@ && before[at + 7] == played);
    assert(says(before, "-r"@, played));
    assert(before[at + 8] == "-i"@ && before[at + 9] == "pipe:0"@);
    assert(says(before, "-i"@, "pipe:0"@));
    assert(graph =~= "fps="@ + fraction(
        settings.frame_rate.num as int,
        settings.frame_rate.den as int,
    ) + ","@ + counted(frames, settings.frame_rate));
}

} // verus!
