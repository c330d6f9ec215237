//! The report as plain text, for pasting into an issue.
use crate::export::audio::AudioEncoding;
use crate::export::plan::Media;
use crate::export::report::calendar::{
    a_day_has_one_date, clock, clock_words, day_number, is_date, moment, utc,
};
use crate::export::report::measure::{tier_text, tier_words};
use crate::export::report::segment::{texts_in, ReportSegment};
use crate::export::report::{ExportReport, FileFacts, StreamTotals};
use crate::text::{decimal, push_decimal};
use vstd::prelude::*;

verus! {

/// A moment's date in words.
pub open spec fn is_utc(millis: u64, words: Seq<char>) -> bool {
    exists|year: nat, month: nat, day: nat|
        {
            &&& is_date(year as int, month as int, day as int)
            &&& day_number(year as int, month as int, day as int) == millis / 1000 / 86_400
            &&& words == #[trigger] moment(year, month, day, (millis / 1000 % 86_400) as nat)
        }
}

/// A moment has one date in words.
pub proof fn a_moment_has_one_text(millis: u64, a: Seq<char>, b: Seq<char>)
    requires
        is_utc(millis, a),
        is_utc(millis, b),
    ensures
        a == b,
{
    let second = (millis / 1000 % 86_400) as nat;
    let days = millis / 1000 / 86_400;
    let (y, m, d) = choose|year: nat, month: nat, day: nat|
        {
            &&& is_date(year as int, month as int, day as int)
            &&& day_number(year as int, month as int, day as int) == days
            &&& a == #[trigger] moment(year, month, day, second)
        };
    let (year, month, day) = choose|year: nat, month: nat, day: nat|
        {
            &&& is_date(year as int, month as int, day as int)
            &&& day_number(year as int, month as int, day as int) == days
            &&& b == #[trigger] moment(year, month, day, second)
        };
    a_day_has_one_date(
        y as int,
        m as int,
        d as int,
        year as int,
        month as int,
        day as int,
    );
}

/// The first `count` texts with a separator between them.
pub open spec fn joined(texts: Seq<Seq<char>>, separator: Seq<char>, count: int) -> Seq<char>
    decreases count,
{
    if count <= 0 {
        Seq::empty()
    } else if count == 1 {
        texts[0]
    } else {
        joined(texts, separator, count - 1) + separator + texts[count - 1]
    }
}

/// The codecs of a file in words.
pub open spec fn codec_words(codecs: Seq<Seq<char>>) -> Seq<char> {
    if codecs.len() == 0 {
        "no streams"@
    } else {
        joined(codecs, " + "@, codecs.len() as int)
    }
}

/// A file in words: by its name, or by its path where paths are asked for.
pub open spec fn file_words(facts: FileFacts, with_paths: bool) -> Seq<char> {
    (if with_paths {
        facts.path@
    } else {
        facts.name@
    }) + " — "@ + facts.container@ + ", "@ + codec_words(texts_in(facts.codecs@)) + ", "@
        + facts.size@ + ", "@ + (match facts.length {
        Some(millis) => clock_words(millis as nat),
        None => "unknown length"@,
    })
}

/// The lines of the first `count` sources.
pub open spec fn source_lines(sources: Seq<FileFacts>, with_paths: bool, count: int) -> Seq<char>
    decreases count,
{
    if count <= 0 {
        Seq::empty()
    } else {
        source_lines(sources, with_paths, count - 1) + "Source: "@ + file_words(
            sources[count - 1],
            with_paths,
        ) + "\n"@
    }
}

/// The line of a stream's totals, where there is one.
pub open spec fn totals_line(name: Seq<char>, totals: Option<StreamTotals>) -> Seq<char> {
    match totals {
        Some(t) => name + ": "@ + t.copied_seconds@ + " s copied, "@ + t.re_encoded_seconds@
            + " s re-encoded; "@ + decimal(t.identical as nat) + " of "@ + decimal(t.packets as nat)
            + " packets bit-identical\n"@,
        None => Seq::empty(),
    }
}

/// The first `count` texts, each on a line of its own behind a lead.
pub open spec fn lines(lead: Seq<char>, texts: Seq<Seq<char>>, count: int) -> Seq<char>
    decreases count,
{
    if count <= 0 {
        Seq::empty()
    } else {
        lines(lead, texts, count - 1) + lead + texts[count - 1] + "\n"@
    }
}

/// The first line of a segment.
pub open spec fn segment_line(segment: ReportSegment) -> Seq<char> {
    "  "@ + clock_words(segment.start as nat) + "–"@ + clock_words(segment.end as nat) + "  "@ + (
    match segment.media {
        Media::Video => "pictures"@,
        Media::Audio => "sound"@,
    }) + "  "@ + segment.measured.execution.words() + (if segment.measured.as_planned {
        ""@
    } else {
        " — planned as "@ + tier_words(segment.planned)
    }) + "  ("@ + decimal(segment.measured.identical as nat) + " of "@ + decimal(
        segment.measured.packets as nat,
    ) + " packets identical)\n"@
}

/// The line of what encoded a segment, where something did.
pub open spec fn encoder_line(encoder: Option<String>) -> Seq<char> {
    match encoder {
        Some(encoder) => "      Encoded with "@ + encoder@ + "\n"@,
        None => Seq::empty(),
    }
}

/// All lines of a segment.
pub open spec fn segment_lines(segment: ReportSegment) -> Seq<char> {
    segment_line(segment) + encoder_line(segment.encoder) + lines(
        "      Why: "@,
        texts_in(segment.reasons@),
        segment.reasons@.len() as int,
    ) + lines(
        "      Instead: "@,
        texts_in(segment.suggestions@),
        segment.suggestions@.len() as int,
    )
}

/// The lines of the first `count` segments.
pub open spec fn all_segments(segments: Seq<ReportSegment>, count: int) -> Seq<char>
    decreases count,
{
    if count <= 0 {
        Seq::empty()
    } else {
        all_segments(segments, count - 1) + segment_lines(segments[count - 1])
    }
}

/// The lines of how sound was encoded, where some was.
pub open spec fn encoding_lines(encoding: Option<AudioEncoding>) -> Seq<char> {
    match encoding {
        Some(encoding) => "\nRe-encoded sound: "@ + encoding.codec@ + " with "@ + encoding.encoder@
            + (if encoding.matches_copied {
            ", to match the copied sound"@
        } else {
            ""@
        }) + "\n"@,
        None => Seq::empty(),
    }
}

/// The lines of the commands, only where paths are asked for.
pub open spec fn command_lines(commands: Seq<String>, with_paths: bool) -> Seq<char> {
    if with_paths && commands.len() > 0 {
        "\nCommands\n"@ + lines("  "@, texts_in(commands), commands.len() as int)
    } else {
        Seq::empty()
    }
}

/// The head of the report, down to the segments.
pub open spec fn head_words(report: ExportReport, with_paths: bool, when: Seq<char>) -> Seq<char> {
    "Blinkify export report: "@ + report.name@ + "\nExported "@ + when + "\n\n"@ + report.summary@
        + "\n\nOutput: "@ + file_words(report.output, with_paths) + "\n"@ + source_lines(
        report.sources@,
        with_paths,
        report.sources@.len() as int,
    ) + "\n"@ + totals_line("Pictures"@, report.video) + totals_line("Sound"@, report.audio)
        + "Bit-identical: "@ + report.identical_percent@
        + " % of the output's packets\n\nSegments\n"@
}

/// The report as plain text.
pub open spec fn report_words(report: ExportReport, with_paths: bool, when: Seq<char>) -> Seq<
    char,
> {
    head_words(report, with_paths, when) + all_segments(
        report.segments@,
        report.segments@.len() as int,
    ) + encoding_lines(report.audio_encoding) + command_lines(report.commands@, with_paths)
}

/// The texts with a separator between them.
fn join(list: &Vec<String>, separator: &str) -> (text: String)
    ensures
        text@ == joined(texts_in(list@), separator@, list@.len() as int),
{
    let ghost all = texts_in(list@);
    let mut text = String::new();
    let mut i: usize = 0;
    while i < list.len()
        invariant
            i <= list@.len(),
            all == texts_in(list@),
            text@ == joined(all, separator@, i as int),
        decreases list@.len() - i,
    {
        assert(all[i as int] == list@[i as int]@);
        if i > 0 {
            text.append(separator);
        }
        text.append(list[i].as_str());
        proof {
            assert(text@ =~= joined(all, separator@, i + 1));
        }
        i += 1;
    }
    text
}

/// A file in words.
fn file_text(facts: &FileFacts, with_paths: bool) -> (text: String)
    ensures
        text@ == file_words(*facts, with_paths),
{
    let codecs = if facts.codecs.len() == 0 {
        "no streams".to_owned()
    } else {
        join(&facts.codecs, " + ")
    };
    proof {
        assert(texts_in(facts.codecs@).len() == facts.codecs@.len());
    }
    let length = match facts.length {
        Some(millis) => clock(millis),
        None => "unknown length".to_owned(),
    };
    let name = if with_paths {
        facts.path.clone()
    } else {
        facts.name.clone()
    };
    name.concat(" — ").concat(facts.container.as_str()).concat(", ").concat(
        codecs.as_str(),
    ).concat(", ").concat(facts.size.as_str()).concat(", ").concat(length.as_str())
}

/// The lines of the sources.
fn sources_text(sources: &Vec<FileFacts>, with_paths: bool) -> (text: String)
    ensures
        text@ == source_lines(sources@, with_paths, sources@.len() as int),
{
    let mut text = String::new();
    let mut i: usize = 0;
    while i < sources.len()
        invariant
            i <= sources@.len(),
            text@ == source_lines(sources@, with_paths, i as int),
        decreases sources@.len() - i,
    {
        let file = file_text(&sources[i], with_paths);
        text.append("Source: ");
        text.append(file.as_str());
        text.append("\n");
        i += 1;
    }
    text
}

/// The line of a stream's totals.
fn totals_text(name: &str, totals: &Option<StreamTotals>) -> (text: String)
    ensures
        text@ == totals_line(name@, *totals),
{
    match totals {
        Some(t) => {
            let mut text = name.to_owned();
            text.append(": ");
            text.append(t.copied_seconds.as_str());
            text.append(" s copied, ");
            text.append(t.re_encoded_seconds.as_str());
            text.append(" s re-encoded; ");
            push_decimal(&mut text, t.identical as u64);
            text.append(" of ");
            push_decimal(&mut text, t.packets as u64);
            text.append(" packets bit-identical\n");
            text
        },
        None => String::new(),
    }
}

/// The texts, each on a line of its own behind a lead.
fn lines_text(lead: &str, list: &Vec<String>) -> (text: String)
    ensures
        text@ == lines(lead@, texts_in(list@), list@.len() as int),
{
    let ghost all = texts_in(list@);
    let mut text = String::new();
    let mut i: usize = 0;
    while i < list.len()
        invariant
            i <= list@.len(),
            all == texts_in(list@),
            text@ == lines(lead@, all, i as int),
        decreases list@.len() - i,
    {
        assert(all[i as int] == list@[i as int]@);
        text.append(lead);
        text.append(list[i].as_str());
        text.append("\n");
        i += 1;
    }
    text
}

/// The first line of a segment.
fn segment_head(segment: &ReportSegment) -> (text: String)
    ensures
        text@ == segment_line(*segment),
{
    let start = clock(segment.start);
    let end = clock(segment.end);
    let planned = if segment.measured.as_planned {
        "".to_owned()
    } else {
        " — planned as ".to_owned().concat(tier_text(segment.planned))
    };
    let mut text = "  ".to_owned();
    text.append(start.as_str());
    text.append("–");
    text.append(end.as_str());
    text.append("  ");
    text.append(
        match segment.media {
            Media::Video => "pictures",
            Media::Audio => "sound",
        },
    );
    text.append("  ");
    text.append(segment.measured.execution.text());
    text.append(planned.as_str());
    text.append("  (");
    push_decimal(&mut text, segment.measured.identical as u64);
    text.append(" of ");
    push_decimal(&mut text, segment.measured.packets as u64);
    text.append(" packets identical)\n");
    text
}

/// All lines of a segment.
fn segment_text(segment: &ReportSegment) -> (text: String)
    ensures
        text@ == segment_lines(*segment),
{
    let encoder = match &segment.encoder {
        Some(encoder) => {
            "      Encoded with ".to_owned().concat(encoder.as_str()).concat("\n")
        },
        None => String::new(),
    };
    let reasons = lines_text("      Why: ", &segment.reasons);
    let suggestions = lines_text("      Instead: ", &segment.suggestions);
    segment_head(segment).concat(encoder.as_str()).concat(reasons.as_str()).concat(
        suggestions.as_str(),
    )
}

/// The lines of the segments.
fn segments_text(segments: &Vec<ReportSegment>) -> (text: String)
    ensures
        text@ == all_segments(segments@, segments@.len() as int),
{
    let mut text = String::new();
    let mut i: usize = 0;
    while i < segments.len()
        invariant
            i <= segments@.len(),
            text@ == all_segments(segments@, i as int),
        decreases segments@.len() - i,
    {
        let part = segment_text(&segments[i]);
        text.append(part.as_str());
        i += 1;
    }
    text
}

/// The lines of how sound was encoded.
fn encoding_text(encoding: &Option<AudioEncoding>) -> (text: String)
    ensures
        text@ == encoding_lines(*encoding),
{
    match encoding {
        Some(encoding) => {
            "\nRe-encoded sound: ".to_owned().concat(encoding.codec.as_str()).concat(
                " with ",
            ).concat(encoding.encoder.as_str()).concat(
                if encoding.matches_copied {
                    ", to match the copied sound"
                } else {
                    ""
                },
            ).concat("\n")
        },
        None => String::new(),
    }
}

impl ExportReport {
    /// The head of the report.
    fn head_text(&self, with_paths: bool, when: &str) -> (text: String)
        ensures
            text@ == head_words(*self, with_paths, when@),
    {
        let output = file_text(&self.output, with_paths);
        let sources = sources_text(&self.sources, with_paths);
        let video = totals_text("Pictures", &self.video);
        let audio = totals_text("Sound", &self.audio);
        let mut text = "Blinkify export report: ".to_owned();
        text.append(self.name.as_str());
        text.append("\nExported ");
        text.append(when);
        text.append("\n\n");
        text.append(self.summary.as_str());
        text.append("\n\nOutput: ");
        text.append(output.as_str());
        text.append("\n");
        text.append(sources.as_str());
        text.append("\n");
        text.append(video.as_str());
        text.append(audio.as_str());
        text.append("Bit-identical: ");
        text.append(self.identical_percent.as_str());
        text.append(" % of the output's packets\n\nSegments\n");
        text
    }

    /// The report as plain text, for pasting into an issue. Folders are left
    /// out — only file names — unless `with_paths`; the commands, which name
    /// files by path, come only with them.
    pub fn to_text(&self, with_paths: bool) -> (text: String)
        ensures
            exists|when: Seq<char>|
                is_utc(self.created, when) && text@ == #[trigger] report_words(
                    *self,
                    with_paths,
                    when,
                ),
    {
        let when = utc(self.created);
        let segments = segments_text(&self.segments);
        let encoding = encoding_text(&self.audio_encoding);
        let mut text = self.head_text(with_paths, when.as_str());
        text.append(segments.as_str());
        text.append(encoding.as_str());
        if with_paths && self.commands.len() > 0 {
            let commands = "\nCommands\n".to_owned().concat(
                lines_text("  ", &self.commands).as_str(),
            );
            text.append(commands.as_str());
        } else {
            proof {
                assert(text@ =~= text@ + Seq::<char>::empty());
            }
        }
        proof {
            assert(text@ == report_words(*self, with_paths, when@));
        }
        text
    }
}

/// Two files described alike, wherever they are.
pub open spec fn same_file_but_for_path(a: FileFacts, b: FileFacts) -> bool {
    &&& a.name@ == b.name@
    &&& a.container@ == b.container@
    &&& texts_in(a.codecs@) == texts_in(b.codecs@)
    &&& a.size@ == b.size@
    &&& a.length == b.length
}

/// The lines of sources that are described alike are the same.
proof fn lemma_source_lines(a: Seq<FileFacts>, b: Seq<FileFacts>, count: int)
    requires
        0 <= count <= a.len(),
        a.len() == b.len(),
        forall|i: int| 0 <= i < a.len() ==> same_file_but_for_path(#[trigger] a[i], b[i]),
    ensures
        source_lines(a, false, count) == source_lines(b, false, count),
    decreases count,
{
    if count > 0 {
        lemma_source_lines(a, b, count - 1);
        assert(same_file_but_for_path(a[count - 1], b[count - 1]));
    }
}

/// Without paths the text tells nothing of where the files are: reports that
/// differ only in paths and commands read the same.
pub proof fn no_path_is_told_unless_asked(a: ExportReport, b: ExportReport, when: Seq<char>)
    requires
        a.name == b.name,
        a.summary == b.summary,
        a.video == b.video,
        a.audio == b.audio,
        a.identical_percent == b.identical_percent,
        a.segments == b.segments,
        a.audio_encoding == b.audio_encoding,
        same_file_but_for_path(a.output, b.output),
        a.sources@.len() == b.sources@.len(),
        forall|i: int|
            0 <= i < a.sources@.len() ==> same_file_but_for_path(
                #[trigger] a.sources@[i],
                b.sources@[i],
            ),
    ensures
        report_words(a, false, when) == report_words(b, false, when),
{
    lemma_source_lines(a.sources@, b.sources@, a.sources@.len() as int);
}

} // verus!
