//! The export report: what an export actually did, segment by segment,
//! measured on the file it wrote.
//!
//! It is not the plan read back: every packet of the output is hashed by the
//! one hash boundary and looked for among its source's packets. A segment the
//! plan called a copy whose packets are not the source's is reported as
//! re-encoded, and as not what was planned. The text form has no paths unless
//! asked.
pub mod calendar;
pub mod measure;
pub mod saying;
pub mod segment;
pub mod text;

use crate::export::audio::AudioEncoding;
use crate::export::plan::Media;
use crate::export::report::segment::{and_once, push_once, texts_in, ReportSegment};
use crate::probe::MediaInfo;
use crate::text::optional;
use vstd::prelude::*;

verus! {

/// A file the export read or wrote.
#[derive(Debug, PartialEq, Eq)]
pub struct FileFacts {
    /// The file's name, without its folder.
    pub name: String,
    pub path: String,
    pub container: String,
    /// Each stream's codec, in file order.
    pub codecs: Vec<String>,
    /// Its size in words.
    pub size: String,
    /// Milliseconds.
    pub length: Option<u64>,
}

/// The codecs of the first `count` streams, of those that have one.
pub open spec fn codecs_of(info: MediaInfo, count: int) -> Seq<Seq<char>>
    decreases count,
{
    if count <= 0 {
        Seq::empty()
    } else {
        match optional(info.streams@[count - 1].codec) {
            Some(codec) => codecs_of(info, count - 1).push(codec),
            None => codecs_of(info, count - 1),
        }
    }
}

impl FileFacts {
    /// The file called `name` at `path`, as its probe describes it; its format
    /// by its long name, where it has one.
    pub fn of(
        name: String,
        path: String,
        long_name: Option<String>,
        format: String,
        info: &MediaInfo,
        size: String,
        length: Option<u64>,
    ) -> (facts: FileFacts)
        ensures
            facts.name == name,
            facts.path == path,
            facts.container == (match long_name {
                Some(long_name) => long_name,
                None => format,
            }),
            texts_in(facts.codecs@) == codecs_of(*info, info.streams@.len() as int),
            facts.size == size,
            facts.length == length,
    {
        let mut codecs: Vec<String> = Vec::new();
        let mut i: usize = 0;
        proof {
            assert(texts_in(codecs@) =~= Seq::empty());
        }
        while i < info.streams.len()
            invariant
                i <= info.streams@.len(),
                texts_in(codecs@) == codecs_of(*info, i as int),
            decreases info.streams@.len() - i,
        {
            if let Some(codec) = &info.streams[i].codec {
                let ghost before = codecs@;
                codecs.push(codec.clone());
                proof {
                    assert(texts_in(codecs@) =~= texts_in(before).push(codec@));
                }
            }
            i += 1;
        }
        let container = match long_name {
            Some(long_name) => long_name,
            None => format,
        };
        FileFacts { name, path, container, codecs, size, length }
    }
}

/// One stream's totals, as executed. Seconds are in decimals.
#[derive(Debug, PartialEq, Eq)]
pub struct StreamTotals {
    pub copied_seconds: String,
    pub re_encoded_seconds: String,
    /// Some of the stream was re-encoded.
    pub re_encodes: bool,
    pub packets: u32,
    pub identical: u32,
}

/// How long each kind of work on a stream took of the output, in decimals.
#[derive(Debug, PartialEq, Eq)]
pub struct StreamSeconds {
    pub copied: String,
    pub re_encoded: String,
    /// Some of the stream was re-encoded.
    pub re_encodes: bool,
}

/// What an export did, measured on what it wrote.
#[derive(Debug, PartialEq, Eq)]
pub struct ExportReport {
    /// Milliseconds since the Unix epoch.
    pub created: u64,
    pub name: String,
    pub sources: Vec<FileFacts>,
    pub output: FileFacts,
    pub video: Option<StreamTotals>,
    pub audio: Option<StreamTotals>,
    /// Of every packet of the output, the share bit-identical to its source's,
    /// in percent and decimals.
    pub identical_percent: String,
    /// Every packet of the output is its source's.
    pub lossless: bool,
    /// The export in one sentence.
    pub summary: String,
    pub segments: Vec<ReportSegment>,
    /// Every suggestion, once.
    pub suggestions: Vec<String>,
    /// How the re-encoded sound was made, where any was.
    pub audio_encoding: Option<AudioEncoding>,
    /// Every sidecar command the export ran. They name files by path, so the
    /// text form carries them only with paths.
    pub commands: Vec<String>,
}

/// The packets of the first `count` segments of a stream.
pub open spec fn packets_of(segments: Seq<ReportSegment>, media: Media, count: int) -> nat
    decreases count,
{
    if count <= 0 {
        0
    } else {
        packets_of(segments, media, count - 1) + (if segments[count - 1].media == media {
            segments[count - 1].measured.packets as nat
        } else {
            0
        })
    }
}

/// Those of them that are bit-identical to their source's.
pub open spec fn identical_of(segments: Seq<ReportSegment>, media: Media, count: int) -> nat
    decreases count,
{
    if count <= 0 {
        0
    } else {
        identical_of(segments, media, count - 1) + (if segments[count - 1].media == media {
            segments[count - 1].measured.identical as nat
        } else {
            0
        })
    }
}

/// A count, as far as 32 bits go.
pub open spec fn counted(n: nat) -> u32 {
    if n <= u32::MAX {
        n as u32
    } else {
        u32::MAX
    }
}

/// Some segment is of a stream.
pub open spec fn has_stream(segments: Seq<ReportSegment>, media: Media) -> bool {
    exists|i: int| 0 <= i < segments.len() && (#[trigger] segments[i]).media == media
}

/// How many packets a stream has, and how many are identical: nothing where
/// the output has no such stream.
fn count(segments: &Vec<ReportSegment>, media: Media) -> (counts: Option<(u32, u32)>)
    ensures
        ({
            let n = segments@.len() as int;
            counts == (if has_stream(segments@, media) {
                Some(
                    (
                        counted(packets_of(segments@, media, n)),
                        counted(identical_of(segments@, media, n)),
                    ),
                )
            } else {
                None
            })
        }),
{
    let mut packets: u32 = 0;
    let mut identical: u32 = 0;
    let mut any = false;
    let mut i: usize = 0;
    while i < segments.len()
        invariant
            i <= segments@.len(),
            packets == counted(packets_of(segments@, media, i as int)),
            identical == counted(identical_of(segments@, media, i as int)),
            any == exists|k: int| 0 <= k < i && (#[trigger] segments@[k]).media == media,
        decreases segments@.len() - i,
    {
        if segments[i].media == media {
            any = true;
            packets = packets.saturating_add(segments[i].measured.packets);
            identical = identical.saturating_add(segments[i].measured.identical);
        }
        i += 1;
    }
    if any {
        Some((packets, identical))
    } else {
        None
    }
}

/// What a stream's segments suggest, from the `i`th text of the list on.
pub open spec fn each_once(list: Seq<Seq<char>>, texts: Seq<Seq<char>>, count: int) -> Seq<
    Seq<char>,
>
    decreases count,
{
    if count <= 0 {
        list
    } else {
        and_once(each_once(list, texts, count - 1), Some(texts[count - 1]))
    }
}

/// Every suggestion of the first `count` segments, once.
pub open spec fn all_suggestions(segments: Seq<ReportSegment>, count: int) -> Seq<Seq<char>>
    decreases count,
{
    if count <= 0 {
        Seq::empty()
    } else {
        let texts = texts_in(segments[count - 1].suggestions@);
        each_once(all_suggestions(segments, count - 1), texts, texts.len() as int)
    }
}

/// Every suggestion, once.
fn gather(segments: &Vec<ReportSegment>) -> (list: Vec<String>)
    ensures
        texts_in(list@) == all_suggestions(segments@, segments@.len() as int),
{
    let mut list: Vec<String> = Vec::new();
    let mut i: usize = 0;
    proof {
        assert(texts_in(list@) =~= Seq::empty());
    }
    while i < segments.len()
        invariant
            i <= segments@.len(),
            texts_in(list@) == all_suggestions(segments@, i as int),
        decreases segments@.len() - i,
    {
        let more = &segments[i].suggestions;
        let ghost texts = texts_in(more@);
        let ghost start = texts_in(list@);
        let mut k: usize = 0;
        while k < more.len()
            invariant
                k <= more@.len(),
                texts == texts_in(more@),
                texts_in(list@) == each_once(start, texts, k as int),
            decreases more@.len() - k,
        {
            assert(texts[k as int] == more@[k as int]@);
            push_once(&mut list, more[k].as_str());
            k += 1;
        }
        i += 1;
    }
    list
}

/// The part of a summary that tells of a stream, where some of it was
/// re-encoded.
pub open spec fn part_words(name: Seq<char>, totals: Option<StreamTotals>) -> Option<Seq<char>> {
    match totals {
        Some(totals) => if totals.re_encodes {
            Some(totals.re_encoded_seconds@ + " s of the "@ + name + " re-encoded"@)
        } else {
            None
        },
        None => None,
    }
}

/// The export in one sentence.
pub open spec fn summary_words(
    lossless: bool,
    percent: Seq<char>,
    video: Option<StreamTotals>,
    audio: Option<StreamTotals>,
) -> Seq<char> {
    if lossless {
        "Fully lossless: every packet of the output is bit-identical to its source's."@
    } else {
        "Not fully lossless: "@ + percent
            + " % of the output's packets are bit-identical to their source's; "@ + (match (
            part_words("pictures"@, video),
            part_words("sound"@, audio),
        ) {
            (Some(pictures), Some(sound)) => pictures + ", "@ + sound,
            (Some(pictures), None) => pictures,
            (None, Some(sound)) => sound,
            (None, None) => "the rest differ"@,
        }) + "."@
    }
}

/// The part of a summary that tells of a stream.
fn part(name: &str, totals: &Option<StreamTotals>) -> (text: Option<String>)
    ensures
        optional(text) == part_words(name@, *totals),
{
    match totals {
        Some(totals) => {
            if totals.re_encodes {
                Some(
                    totals.re_encoded_seconds.clone().concat(" s of the ").concat(name).concat(
                        " re-encoded",
                    ),
                )
            } else {
                None
            }
        },
        None => None,
    }
}

/// The export in one sentence.
pub fn summary(
    lossless: bool,
    percent: &str,
    video: &Option<StreamTotals>,
    audio: &Option<StreamTotals>,
) -> (text: String)
    ensures
        text@ == summary_words(lossless, percent@, *video, *audio),
{
    if lossless {
        return "Fully lossless: every packet of the output is bit-identical to its source's.".to_owned();
    }
    let told = match (part("pictures", video), part("sound", audio)) {
        (Some(pictures), Some(sound)) => pictures.concat(", ").concat(sound.as_str()),
        (Some(pictures), None) => pictures,
        (None, Some(sound)) => sound,
        (None, None) => "the rest differ".to_owned(),
    };
    "Not fully lossless: ".to_owned().concat(percent).concat(
        " % of the output's packets are bit-identical to their source's; ",
    ).concat(told.as_str()).concat(".")
}

/// A stream's totals, from its segments.
pub open spec fn totals_for(
    totals: Option<StreamTotals>,
    segments: Seq<ReportSegment>,
    media: Media,
    seconds: StreamSeconds,
) -> bool {
    let n = segments.len() as int;
    if has_stream(segments, media) {
        &&& totals is Some
        &&& totals->0.copied_seconds == seconds.copied
        &&& totals->0.re_encoded_seconds == seconds.re_encoded
        &&& totals->0.re_encodes == seconds.re_encodes
        &&& totals->0.packets == counted(packets_of(segments, media, n))
        &&& totals->0.identical == counted(identical_of(segments, media, n))
    } else {
        totals is None
    }
}

/// A stream's totals, from its segments.
fn totals(segments: &Vec<ReportSegment>, media: Media, seconds: StreamSeconds) -> (totals: Option<
    StreamTotals,
>)
    ensures
        totals_for(totals, segments@, media, seconds),
{
    match count(segments, media) {
        Some((packets, identical)) => Some(
            StreamTotals {
                copied_seconds: seconds.copied,
                re_encoded_seconds: seconds.re_encoded,
                re_encodes: seconds.re_encodes,
                packets,
                identical,
            },
        ),
        None => None,
    }
}

/// How many packets were counted of a stream.
pub open spec fn packets_in(totals: Option<StreamTotals>) -> int {
    match totals {
        Some(totals) => totals.packets as int,
        None => 0,
    }
}

/// How many of them are bit-identical.
pub open spec fn identical_in(totals: Option<StreamTotals>) -> int {
    match totals {
        Some(totals) => totals.identical as int,
        None => 0,
    }
}

/// Put a report together from its measured segments. `percent` and the seconds
/// are in decimals.
#[allow(clippy::too_many_arguments)]
pub fn build(
    created: u64,
    name: String,
    sources: Vec<FileFacts>,
    output: FileFacts,
    segments: Vec<ReportSegment>,
    video: StreamSeconds,
    audio: StreamSeconds,
    percent: String,
    audio_encoding: Option<AudioEncoding>,
    commands: Vec<String>,
) -> (report: ExportReport)
    ensures
        report.created == created,
        report.name == name,
        report.sources == sources,
        report.output == output,
        report.segments == segments,
        report.audio_encoding == audio_encoding,
        report.commands == commands,
        report.identical_percent == percent,
        totals_for(report.video, segments@, Media::Video, video),
        totals_for(report.audio, segments@, Media::Audio, audio),
        report.lossless == (packets_in(report.video) + packets_in(report.audio) > 0 && identical_in(
            report.video,
        ) + identical_in(report.audio) == packets_in(report.video) + packets_in(report.audio)),
        texts_in(report.suggestions@) == all_suggestions(segments@, segments@.len() as int),
        report.summary@ == summary_words(report.lossless, percent@, report.video, report.audio),
{
    let video = totals(&segments, Media::Video, video);
    let audio = totals(&segments, Media::Audio, audio);
    let (a, b): (u64, u64) = match &video {
        Some(totals) => (totals.packets as u64, totals.identical as u64),
        None => (0, 0),
    };
    let (c, d): (u64, u64) = match &audio {
        Some(totals) => (totals.packets as u64, totals.identical as u64),
        None => (0, 0),
    };
    let lossless = a + c > 0 && b + d == a + c;
    let summary = summary(lossless, percent.as_str(), &video, &audio);
    let suggestions = gather(&segments);
    ExportReport {
        created,
        name,
        sources,
        output,
        video,
        audio,
        identical_percent: percent,
        lossless,
        summary,
        segments,
        suggestions,
        audio_encoding,
        commands,
    }
}

} // verus!
