//! The process that encodes a segment of sound.
use crate::export::audio::{check, stream_for, stream_of, unsupported_sound, AudioEncoding, AudioModel};
use crate::export::execute::{ErrorModel, ExportError, ExportInput, READER_OFFSET_SECONDS};
use crate::export::plan::{Segment, SegmentSource};
use crate::orchestrator::command::{file_words, SidecarCommand, Stdout, Tool};
use crate::probe::Rational;
use crate::project::{AudioOperation, SourceId};
use crate::text::{decimal, optional, push_decimal, push_signed, same_text, signed_decimal};
use crate::time::{rescale, rescaled, Rounding};
use std::collections::BTreeMap;
use vstd::prelude::*;

verus! {

/// Codec frames of real sound given to a lossy encoder on each side.
pub const PRIMING_FRAMES: i64 = 2;

/// When a source's sound is taken, in the decimals FFmpeg reads: with the
/// priming on either side, as far as the stream has sound there.
#[derive(Debug, PartialEq, Eq)]
pub struct Cue {
    /// Seconds, of the source's own timeline.
    pub from: String,
    pub end: String,
    /// Samples of silence where the stream starts later than asked for.
    pub delay: Option<i64>,
    /// Where the demuxer seeks to, unless it reads from the start.
    pub seek: Option<String>,
    /// The factors of its speed.
    pub tempo: Vec<String>,
}

/// An encoder process for one audio segment, and where in its output the
/// segment's own samples are.
#[derive(Debug)]
pub struct EncoderJob {
    pub command: SidecarCommand,
    /// Samples, at the encoding's rate, before the segment's first.
    pub preroll: i64,
    /// The segment's length in samples.
    pub samples: i64,
    /// Added by the encoder to every timestamp, in samples.
    pub offset: i64,
}

/// The gains of the first `count` steps of a chain.
pub open spec fn gains(chain: Seq<AudioOperation>, count: int) -> Seq<char>
    decreases count,
{
    if count <= 0 {
        Seq::empty()
    } else {
        gains(chain, count - 1) + (match chain[count - 1] {
            AudioOperation::Gain { db } => ",volume="@ + db@ + "dB"@,
            _ => Seq::empty(),
        })
    }
}

/// The first `count` factors of a speed.
pub open spec fn tempos(factors: Seq<String>, count: int) -> Seq<char>
    decreases count,
{
    if count <= 0 {
        Seq::empty()
    } else {
        tempos(factors, count - 1) + ",atempo="@ + factors[count - 1]@
    }
}

/// The label of an input's sound.
pub open spec fn label(i: int) -> Seq<char> {
    "[p"@ + decimal(i as nat) + "]"@
}

/// Silence in front of a sound, where there is any.
pub open spec fn delayed(delay: Option<i64>) -> Seq<char> {
    match delay {
        Some(delay) => ",adelay=delays="@ + signed_decimal(delay as int) + "S:all=1"@,
        None => Seq::empty(),
    }
}

/// The filter chain of an input: its range, silence where the stream has none,
/// its gain, its speed, and the encoding's rate and layout.
pub open spec fn chain_of(i: int, source: SegmentSource, cue: Cue, encoding: AudioModel) -> Seq<
    char,
> {
    "["@ + decimal(i as nat) + ":"@ + decimal(source.stream as nat) + "]atrim=start="@ + cue.from@
        + ":end="@ + cue.end@ + ",asetpts=PTS-STARTPTS"@ + delayed(cue.delay) + gains(source.audio@, source.audio@.len() as int) + tempos(
        cue.tempo@,
        cue.tempo@.len() as int,
    ) + ",aresample="@ + decimal(encoding.sample_rate as nat) + ",aformat=channel_layouts="@
        + encoding.layout() + label(i) + ";"@
}

/// The chains of the first `count` sources.
pub open spec fn chains(
    sources: Seq<SegmentSource>,
    cues: Seq<Cue>,
    encoding: AudioModel,
    count: int,
) -> Seq<char>
    decreases count,
{
    if count <= 0 {
        Seq::empty()
    } else {
        chains(sources, cues, encoding, count - 1) + chain_of(
            count - 1,
            sources[count - 1],
            cues[count - 1],
            encoding,
        )
    }
}

/// The labels of the first `count` inputs.
pub open spec fn labels(count: int) -> Seq<char>
    decreases count,
{
    if count <= 0 {
        Seq::empty()
    } else {
        labels(count - 1) + label(count - 1)
    }
}

/// Everything in front of the trim: silence where nothing plays, the one
/// sound, or the mix of several.
pub open spec fn mixed(
    sources: Seq<SegmentSource>,
    cues: Seq<Cue>,
    encoding: AudioModel,
) -> Seq<char> {
    let n = sources.len() as int;
    if n == 0 {
        "[0:a]anull[p0];[p0]"@
    } else if n == 1 {
        chains(sources, cues, encoding, n) + labels(1)
    } else {
        chains(sources, cues, encoding, n) + labels(n) + "amix=inputs="@ + decimal(n as nat)
            + ":normalize=0:duration=longest[mix];[mix]"@
    }
}

/// The whole filter graph: the sound padded and trimmed to exactly `total`
/// samples.
pub open spec fn graph_of(
    sources: Seq<SegmentSource>,
    cues: Seq<Cue>,
    encoding: AudioModel,
    total: int,
) -> Seq<char> {
    mixed(sources, cues, encoding) + "apad,atrim=end_sample="@ + signed_decimal(total)
        + ",asetpts=N/SR/TB[out]"@
}

/// An option, where it has a value.
pub open spec fn given(name: Seq<char>, value: Option<Seq<char>>) -> Seq<Seq<char>> {
    match value {
        Some(value) => seq![name, value],
        None => Seq::empty(),
    }
}

/// The arguments that open the first `count` sources.
pub open spec fn openings(
    sources: Seq<SegmentSource>,
    cues: Seq<Cue>,
    inputs: Map<SourceId, ExportInput>,
    count: int,
) -> Seq<Seq<char>>
    decreases count,
{
    if count <= 0 {
        Seq::empty()
    } else {
        openings(sources, cues, inputs, count - 1) + given("-ss"@, optional(cues[count - 1].seek))
            + seq!["-i"@, file_words(inputs[sources[count - 1].source].path@)]
    }
}

/// What opens the inputs of a segment: silence where nothing plays.
pub open spec fn inputs_of(
    sources: Seq<SegmentSource>,
    cues: Seq<Cue>,
    inputs: Map<SourceId, ExportInput>,
    encoding: AudioModel,
) -> Seq<Seq<char>> {
    if sources.len() == 0 {
        seq![
            "-f"@,
            "lavfi"@,
            "-i"@,
            "anullsrc=r="@ + decimal(encoding.sample_rate as nat) + ":cl="@ + encoding.layout(),
        ]
    } else {
        seq!["-copyts"@] + openings(sources, cues, inputs, sources.len() as int)
    }
}

/// How the mixed sound is encoded.
pub open spec fn encoder_options(sources: Seq<SegmentSource>, encoding: AudioModel) -> Seq<
    Seq<char>,
> {
    seq!["-map"@, "[out]"@, "-c:a"@, encoding.encoder, "-ar"@, decimal(encoding.sample_rate as nat),
        "-ac"@, decimal(encoding.channels as nat)] + given(
        "-b:a"@,
        match encoding.kilobits {
            Some(kilobits) => Some(decimal(kilobits as nat) + "k"@),
            None => None,
        },
    ) + given(
        "-sample_fmt"@,
        if encoding.codec == "flac"@ {
            Some("s32"@)
        } else {
            None
        },
    ) + given(
        "-map_metadata:s:0"@,
        if sources.len() == 1 {
            Some("0:s:"@ + decimal(sources[0].stream as nat))
        } else {
            None
        },
    )
}

/// The whole command.
pub open spec fn encoder_words(
    sources: Seq<SegmentSource>,
    cues: Seq<Cue>,
    inputs: Map<SourceId, ExportInput>,
    encoding: AudioModel,
    total: int,
) -> Seq<Seq<char>> {
    seq!["-hide_banner"@, "-nostdin"@, "-n"@, "-v"@, "error"@] + inputs_of(
        sources,
        cues,
        inputs,
        encoding,
    ) + seq!["-filter_complex"@, graph_of(sources, cues, encoding, total)] + encoder_options(
        sources,
        encoding,
    ) + seq!["-output_ts_offset"@, "100"@, "-f"@, "nut"@, "pipe:1"@]
}

/// The first source at `k` or behind that the export does not have, or whose
/// stream it does not know.
pub open spec fn missing(
    sources: Seq<SegmentSource>,
    inputs: Map<SourceId, ExportInput>,
    k: int,
) -> Option<ErrorModel>
    decreases sources.len() - k,
{
    if k >= sources.len() {
        None
    } else if !inputs.dom().contains(sources[k].source) {
        Some(ErrorModel::MissingSource(sources[k].source))
    } else if stream_for(inputs, sources[k].source, sources[k].stream) is None {
        Some(
            ErrorModel::Mismatch(
                "source "@ + decimal(sources[k].source as nat) + " has no stream "@ + decimal(
                    sources[k].stream as nat,
                ),
            ),
        )
    } else {
        missing(sources, inputs, k + 1)
    }
}

/// A segment's length in samples, with the priming on either side.
pub open spec fn length_of(segment: Segment, encoding: AudioModel, sequence: Rational) -> Option<
    (i64, i64),
> {
    let preroll = 2 * encoding.frame();
    match rescaled(
        segment.length,
        sequence,
        Rational { num: 1, den: encoding.sample_rate as i64 },
        Rounding::Nearest,
    ) {
        Some(samples) => if samples + 2 * preroll <= i64::MAX {
            Some((samples, preroll as i64))
        } else {
            None
        },
        None => None,
    }
}

/// Why a segment of sound cannot be encoded: the path cannot make it, its
/// length is out of range, or a source is missing.
pub open spec fn job_error(
    segment: Segment,
    inputs: Map<SourceId, ExportInput>,
    encoding: AudioModel,
    sequence: Rational,
) -> Option<ErrorModel> {
    match unsupported_sound(segment) {
        Some(text) => Some(ErrorModel::Unsupported(text)),
        None => if length_of(segment, encoding, sequence) is None {
            Some(ErrorModel::Mismatch("a segment's length is out of range"@))
        } else {
            missing(segment.sources@, inputs, 0)
        },
    }
}

/// Append the gains of a chain.
fn push_gains(graph: &mut String, chain: &Vec<AudioOperation>)
    ensures
        final(graph)@ == old(graph)@ + gains(chain@, chain@.len() as int),
{
    let ghost before = graph@;
    let mut i: usize = 0;
    proof {
        assert(graph@ =~= before + gains(chain@, 0));
    }
    while i < chain.len()
        invariant
            i <= chain@.len(),
            graph@ == before + gains(chain@, i as int),
        decreases chain@.len() - i,
    {
        if let AudioOperation::Gain { db } = &chain[i] {
            graph.append(",volume=");
            graph.append(db.as_str());
            graph.append("dB");
        }
        proof {
            assert(graph@ =~= before + gains(chain@, i + 1));
        }
        i += 1;
    }
}

/// Append the factors of a speed.
fn push_tempos(graph: &mut String, factors: &Vec<String>)
    ensures
        final(graph)@ == old(graph)@ + tempos(factors@, factors@.len() as int),
{
    let ghost before = graph@;
    let mut i: usize = 0;
    proof {
        assert(graph@ =~= before + tempos(factors@, 0));
    }
    while i < factors.len()
        invariant
            i <= factors@.len(),
            graph@ == before + tempos(factors@, i as int),
        decreases factors@.len() - i,
    {
        graph.append(",atempo=");
        graph.append(factors[i].as_str());
        proof {
            assert(graph@ =~= before + tempos(factors@, i + 1));
        }
        i += 1;
    }
}

/// Append the label of an input's sound.
fn push_label(graph: &mut String, i: usize)
    ensures
        final(graph)@ == old(graph)@ + label(i as int),
{
    let ghost before = graph@;
    graph.append("[p");
    push_decimal(graph, i as u64);
    graph.append("]");
    proof {
        assert(graph@ =~= before + label(i as int));
    }
}

/// Append the silence in front of a sound.
fn push_delay(chain: &mut String, delay: Option<i64>)
    ensures
        final(chain)@ == old(chain)@ + delayed(delay),
{
    let ghost before = chain@;
    if let Some(delay) = delay {
        chain.append(",adelay=delays=");
        push_signed(chain, delay);
        chain.append("S:all=1");
    }
    proof {
        assert(chain@ =~= before + delayed(delay));
    }
}

/// The filter chain of an input.
fn chain(i: usize, source: &SegmentSource, cue: &Cue, encoding: &AudioEncoding) -> (chain: String)
    ensures
        chain@ == chain_of(i as int, *source, *cue, encoding@),
{
    let mut chain = "[".to_owned();
    push_decimal(&mut chain, i as u64);
    chain.append(":");
    push_decimal(&mut chain, source.stream as u64);
    chain.append("]atrim=start=");
    chain.append(cue.from.as_str());
    chain.append(":end=");
    chain.append(cue.end.as_str());
    chain.append(",asetpts=PTS-STARTPTS");
    push_delay(&mut chain, cue.delay);
    push_gains(&mut chain, &source.audio);
    push_tempos(&mut chain, &cue.tempo);
    chain.append(",aresample=");
    push_decimal(&mut chain, encoding.sample_rate as u64);
    chain.append(",aformat=channel_layouts=");
    chain.append(encoding.layout());
    push_label(&mut chain, i);
    chain.append(";");
    chain
}

/// The whole filter graph.
fn graph(sources: &Vec<SegmentSource>, cues: &Vec<Cue>, encoding: &AudioEncoding, total: i64) -> (
graph: String)
    requires
        sources@.len() == cues@.len(),
    ensures
        graph@ == graph_of(sources@, cues@, encoding@, total as int),
{
    let mut graph = String::new();
    let n = sources.len();
    if n == 0 {
        graph.append("[0:a]anull[p0];[p0]");
        proof {
            assert(graph@ =~= mixed(sources@, cues@, encoding@));
        }
    } else {
        let mut i: usize = 0;
        proof {
            assert(graph@ =~= chains(sources@, cues@, encoding@, 0));
        }
        while i < n
            invariant
                i <= n == sources@.len() == cues@.len(),
                graph@ == chains(sources@, cues@, encoding@, i as int),
            decreases n - i,
        {
            let chain = chain(i, &sources[i], &cues[i], encoding);
            graph.append(chain.as_str());
            i += 1;
        }
        let ghost head = graph@;
        let mut j: usize = 0;
        proof {
            assert(graph@ =~= head + labels(0));
        }
        while j < n
            invariant
                j <= n,
                graph@ == head + labels(j as int),
            decreases n - j,
        {
            push_label(&mut graph, j);
            proof {
                assert(graph@ =~= head + labels(j + 1));
            }
            j += 1;
        }
        if n > 1 {
            graph.append("amix=inputs=");
            push_decimal(&mut graph, n as u64);
            graph.append(":normalize=0:duration=longest[mix];[mix]");
        }
        proof {
            assert(graph@ =~= mixed(sources@, cues@, encoding@));
        }
    }
    graph.append("apad,atrim=end_sample=");
    push_signed(&mut graph, total);
    graph.append(",asetpts=N/SR/TB[out]");
    graph
}

/// Append an option where it has a value.
fn option_if(command: SidecarCommand, name: &'static str, value: Option<String>) -> (next:
    SidecarCommand)
    ensures
        command.grown(&next, given(name@, optional(value))),
{
    match value {
        Some(text) => command.option(name, text.as_str()),
        None => {
            proof {
                assert(command.words() =~= command.words() + Seq::<Seq<char>>::empty());
            }
            command
        },
    }
}

/// What is missing of a segment's sources, if anything is.
fn check_sources(sources: &Vec<SegmentSource>, inputs: &BTreeMap<SourceId, ExportInput>) -> (result:
    Result<(), ExportError>)
    ensures
        match missing(sources@, inputs@, 0) {
            None => result is Ok && forall|k: int|
                0 <= k < sources@.len() ==> inputs@.dom().contains(
                    (#[trigger] sources@[k]).source,
                ),
            Some(error) => result is Err && result->Err_0@ == error,
        },
{
    broadcast use vstd::std_specs::btree::group_btree_axioms;

    let mut k: usize = 0;
    while k < sources.len()
        invariant
            k <= sources@.len(),
            missing(sources@, inputs@, 0) == missing(sources@, inputs@, k as int),
            forall|j: int|
                0 <= j < k ==> inputs@.dom().contains((#[trigger] sources@[j]).source),
        decreases sources@.len() - k,
    {
        let source = &sources[k];
        if !inputs.contains_key(&source.source) {
            return Err(ExportError::MissingSource(source.source));
        }
        if stream_of(inputs, source.source, source.stream).is_none() {
            let mut text = "source ".to_owned();
            push_decimal(&mut text, source.source);
            text.append(" has no stream ");
            push_decimal(&mut text, source.stream as u64);
            return Err(ExportError::Mismatch(text));
        }
        k += 1;
    }
    Ok(())
}

/// Open the sources of a segment.
fn open_sources(
    command: SidecarCommand,
    sources: &Vec<SegmentSource>,
    cues: &Vec<Cue>,
    inputs: &BTreeMap<SourceId, ExportInput>,
) -> (next: SidecarCommand)
    requires
        sources@.len() == cues@.len(),
        forall|k: int|
            0 <= k < sources@.len() ==> inputs@.dom().contains((#[trigger] sources@[k]).source),
    ensures
        command.grown(&next, openings(sources@, cues@, inputs@, sources@.len() as int)),
{
    broadcast use vstd::std_specs::btree::group_btree_axioms;

    let mut next = command;
    let mut i: usize = 0;
    proof {
        assert(next.words() =~= command.words() + openings(sources@, cues@, inputs@, 0));
    }
    while i < sources.len()
        invariant
            i <= sources@.len() == cues@.len(),
            forall|k: int|
                0 <= k < sources@.len() ==> inputs@.dom().contains((#[trigger] sources@[k]).source),
            command.grown(&next, openings(sources@, cues@, inputs@, i as int)),
        decreases sources@.len() - i,
    {
        let ghost before = next.words();
        assert(inputs@.dom().contains(sources@[i as int].source));
        if let Some(input) = inputs.get(&sources[i].source) {
            let seek = crate::text::copy_optional(&cues[i].seek);
            next = option_if(next, "-ss", seek).input(input.path.as_str());
            proof {
                assert(next.words() =~= command.words() + openings(
                    sources@,
                    cues@,
                    inputs@,
                    i + 1,
                ));
            }
        }
        i += 1;
    }
    next
}

/// The encoder for `segment`: each of its sources decoded as its cue says, put
/// through its chain and speed, mixed where there are several, padded and
/// trimmed to exactly the segment's length plus the priming, and encoded.
pub fn encoder_job(
    segment: &Segment,
    inputs: &BTreeMap<SourceId, ExportInput>,
    cues: &Vec<Cue>,
    encoding: &AudioEncoding,
    sequence: Rational,
) -> (job: Result<EncoderJob, ExportError>)
    requires
        cues@.len() == segment.sources@.len(),
    ensures
        match job_error(*segment, inputs@, encoding@, sequence) {
            Some(error) => job is Err && job->Err_0@ == error,
            None => {
                let (samples, preroll) = length_of(*segment, encoding@, sequence)->0;
                &&& job is Ok
                &&& job->Ok_0.samples == samples
                &&& job->Ok_0.preroll == preroll
                &&& job->Ok_0.offset == 100 * encoding.sample_rate
                &&& job->Ok_0.command.tool == Tool::Ffmpeg
                &&& job->Ok_0.command.stdout == Stdout::Stream
                &&& job->Ok_0.command.progress_total is None
                &&& job->Ok_0.command.words() == encoder_words(
                    segment.sources@,
                    cues@,
                    inputs@,
                    encoding@,
                    samples + 2 * preroll,
                )
            },
        },
{
    if let Err(error) = check(segment) {
        return Err(error);
    }
    let rate = encoding.sample_rate as i64;
    let preroll: i64 = PRIMING_FRAMES * encoding.frame();
    let samples = match rescale(
        segment.length,
        sequence,
        Rational { num: 1, den: rate },
        Rounding::Nearest,
    ) {
        Some(samples) => samples,
        None => {
            return Err(ExportError::Mismatch("a segment's length is out of range".to_owned()));
        },
    };
    if samples > i64::MAX - 2 * preroll {
        return Err(ExportError::Mismatch("a segment's length is out of range".to_owned()));
    }
    let sources = &segment.sources;
    if let Err(error) = check_sources(sources, inputs) {
        return Err(error);
    }
    let command = SidecarCommand::ffmpeg().option("-v", "error");
    let ghost started = command.words();
    let command = if sources.len() == 0 {
        let mut silence = "anullsrc=r=".to_owned();
        push_decimal(&mut silence, encoding.sample_rate as u64);
        silence.append(":cl=");
        silence.append(encoding.layout());
        command.lavfi_input(silence.as_str())
    } else {
        open_sources(command.flag("-copyts"), sources, cues, inputs)
    };
    proof {
        assert(command.words() =~= started + inputs_of(sources@, cues@, inputs@, encoding@));
    }
    let graph = graph(sources, cues, encoding, samples + 2 * preroll);
    let command = command.option("-filter_complex", graph.as_str());
    let ghost filtered = command.words();
    let command = encode_options(command, sources, encoding);
    let command = command.option("-output_ts_offset", "100").option("-f", "nut").output_stdout();
    proof {
        assert(command.words() =~= encoder_words(
            sources@,
            cues@,
            inputs@,
            encoding@,
            samples + 2 * preroll,
        ));
    }
    Ok(EncoderJob { command, preroll, samples, offset: READER_OFFSET_SECONDS * rate })
}

/// Say how the mixed sound is encoded.
fn encode_options(
    command: SidecarCommand,
    sources: &Vec<SegmentSource>,
    encoding: &AudioEncoding,
) -> (next: SidecarCommand)
    ensures
        command.grown(&next, encoder_options(sources@, encoding@)),
{
    let mut rate = String::new();
    push_decimal(&mut rate, encoding.sample_rate as u64);
    let mut channels = String::new();
    push_decimal(&mut channels, encoding.channels as u64);
    proof {
        assert(rate@ =~= decimal(encoding.sample_rate as nat));
        assert(channels@ =~= decimal(encoding.channels as nat));
    }
    let next = command.option("-map", "[out]").option("-c:a", encoding.encoder.as_str()).option(
        "-ar",
        rate.as_str(),
    ).option("-ac", channels.as_str());
    let bits = match encoding.kilobits {
        Some(kilobits) => {
            let mut text = String::new();
            push_decimal(&mut text, kilobits as u64);
            text.append("k");
            proof {
                assert(text@ =~= decimal(kilobits as nat) + "k"@);
            }
            Some(text)
        },
        None => None,
    };
    let next = option_if(next, "-b:a", bits);
    // Stated, not negotiated: 24 bits in 32-bit samples.
    let format = if same_text(encoding.codec.as_str(), "flac") {
        Some("s32".to_owned())
    } else {
        None
    };
    let next = option_if(next, "-sample_fmt", format);
    let metadata = if sources.len() == 1 {
        let mut text = "0:s:".to_owned();
        push_decimal(&mut text, sources[0].stream as u64);
        Some(text)
    } else {
        None
    };
    let next = option_if(next, "-map_metadata:s:0", metadata);
    proof {
        assert(next.words() =~= command.words() + encoder_options(sources@, encoding@));
    }
    next
}

} // verus!
