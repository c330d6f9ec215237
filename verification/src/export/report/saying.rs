//! What a report says is all that there is to say.
use crate::export::plan::{Cause, CauseModel, Media};
use crate::export::profile::ChoiceModel;
use crate::export::report::calendar::{clock_words, day_number, is_date, moment, three_digits};
use crate::export::report::measure::Execution;
use crate::export::report::segment::{
    encoder_of, suggestion, suggestions_of, texts_in, ReportSegment,
};
use crate::export::report::text::{all_segments, lines, report_words, segment_lines};
use crate::export::report::{all_suggestions, codecs_of, each_once, ExportReport};
use crate::export::audio::AudioModel;
use crate::probe::MediaInfo;
use crate::text::{decimal, holds_text, lemma_holds, two_digits};
use vstd::prelude::*;

verus! {

/// What can be done is said of every cut, and of sound where it would lose less;
/// of what the user asked for there is nothing to say.
pub proof fn what_can_be_done_is_said(cause: CauseModel, lossless: bool)
    ensures
        cause is Operation ==> suggestion(cause, lossless) is None,
        cause is AudioChain || cause is AudioSpeed || cause is AudioMix ==> (suggestion(
            cause,
            lossless,
        ) is Some <==> !lossless),
        !(cause is Operation) && !(cause is AudioChain) && !(cause is AudioSpeed) && !(
        cause is AudioMix) ==> suggestion(cause, lossless) is Some,
{
}

/// A suggestion is given once, and only for a cause.
pub proof fn a_suggestion_is_given_once(causes: Seq<Cause>, lossless: bool, count: int, i: int)
    requires
        0 <= i < count <= causes.len(),
    ensures
        ({
            let said = suggestions_of(causes, lossless, count);
            &&& suggestion(causes[i]@, lossless) matches Some(text) ==> said.contains(text)
            &&& forall|a: int, b: int|
                0 <= a < b < said.len() ==> #[trigger] said[a] != #[trigger] said[b]
            &&& said.len() <= count
        }),
    decreases count,
{
    lemma_once(causes, lossless, count);
    lemma_once(causes, lossless, count - 1);
    let before = suggestions_of(causes, lossless, count - 1);
    let said = suggestions_of(causes, lossless, count);
    if i < count - 1 {
        a_suggestion_is_given_once(causes, lossless, count - 1, i);
        if let Some(text) = suggestion(causes[i]@, lossless) {
            let k = choose|k: int| 0 <= k < before.len() && before[k] == text;
            assert(said[k] == text);
        }
    } else if let Some(text) = suggestion(causes[i]@, lossless) {
        if !before.contains(text) {
            assert(said[said.len() - 1] == text);
        }
    }
}

proof fn lemma_once(causes: Seq<Cause>, lossless: bool, count: int)
    requires
        0 <= count <= causes.len(),
    ensures
        ({
            let said = suggestions_of(causes, lossless, count);
            &&& said.len() <= count
            &&& forall|a: int, b: int|
                0 <= a < b < said.len() ==> #[trigger] said[a] != #[trigger] said[b]
        }),
    decreases count,
{
    if count > 0 {
        lemma_once(causes, lossless, count - 1);
    }
}

/// Every segment's suggestions are among the report's.
pub proof fn every_suggestion_is_reported(
    segments: Seq<ReportSegment>,
    count: int,
    i: int,
    k: int,
)
    requires
        0 <= i < count <= segments.len(),
        0 <= k < segments[i].suggestions@.len(),
    ensures
        all_suggestions(segments, count).contains(segments[i].suggestions@[k]@),
    decreases count,
{
    let before = all_suggestions(segments, count - 1);
    let texts = texts_in(segments[count - 1].suggestions@);
    if i < count - 1 {
        every_suggestion_is_reported(segments, count - 1, i, k);
        lemma_each(before, texts, texts.len() as int, segments[i].suggestions@[k]@);
    } else {
        assert(texts[k] == segments[i].suggestions@[k]@);
        lemma_each_new(before, texts, texts.len() as int, k);
    }
}

proof fn lemma_each(list: Seq<Seq<char>>, texts: Seq<Seq<char>>, count: int, text: Seq<char>)
    requires
        0 <= count <= texts.len(),
        list.contains(text),
    ensures
        each_once(list, texts, count).contains(text),
    decreases count,
{
    if count > 0 {
        lemma_each(list, texts, count - 1, text);
        let before = each_once(list, texts, count - 1);
        let k = choose|k: int| 0 <= k < before.len() && before[k] == text;
        assert(each_once(list, texts, count)[k] == text);
    }
}

proof fn lemma_each_new(list: Seq<Seq<char>>, texts: Seq<Seq<char>>, count: int, k: int)
    requires
        0 <= k < count <= texts.len(),
    ensures
        each_once(list, texts, count).contains(texts[k]),
    decreases count,
{
    let before = each_once(list, texts, count - 1);
    let after = each_once(list, texts, count);
    if k < count - 1 {
        lemma_each_new(list, texts, count - 1, k);
        let j = choose|j: int| 0 <= j < before.len() && before[j] == texts[k];
        assert(after[j] == texts[k]);
    } else if !before.contains(texts[k]) {
        assert(after[after.len() - 1] == texts[k]);
    }
}

/// Every codec of a file is told, in the order of its streams.
pub proof fn every_codec_is_told(info: MediaInfo, count: int)
    requires
        0 <= count < info.streams@.len(),
    ensures
        info.streams@[count].codec is Some ==> codecs_of(info, count + 1) == codecs_of(
            info,
            count,
        ).push(info.streams@[count].codec->0@),
        info.streams@[count].codec is None ==> codecs_of(info, count + 1) == codecs_of(info, count),
        codecs_of(info, 0).len() == 0,
{
}

/// An encoder is named where one made something: of pictures or of sound.
pub proof fn an_encoder_is_named_where_it_worked(
    execution: Execution,
    media: Media,
    choice: ChoiceModel,
    encoding: AudioModel,
)
    ensures
        ({
            let named = encoder_of(execution, media, Some(choice), Some(encoding));
            let worked = execution != Execution::Copied && execution != Execution::Empty;
            &&& named is Some <==> worked
            &&& worked && media == Media::Video ==> holds_text(named->0, choice.encoder)
                && holds_text(named->0, choice.profile) && holds_text(
                named->0,
                choice.pixel_format,
            )
            &&& worked && media == Media::Audio ==> holds_text(named->0, encoding.encoder)
        }),
{
    let named = encoder_of(execution, media, Some(choice), Some(encoding));
    if execution != Execution::Copied && execution != Execution::Empty {
        let e = Seq::<char>::empty();
        if media == Media::Video {
            let level = match choice.level {
                Some(level) => ", level "@ + crate::text::signed_decimal(level as int),
                None => Seq::empty(),
            };
            let tail = level + ")"@;
            let after_profile = " profile, "@ + choice.pixel_format + tail;
            assert(named->0 =~= e + choice.encoder + (" ("@ + choice.profile + after_profile));
            lemma_holds(
                named->0,
                e,
                choice.encoder,
                " ("@ + choice.profile + after_profile,
            );
            assert(named->0 =~= (choice.encoder + " ("@) + choice.profile + after_profile);
            lemma_holds(named->0, choice.encoder + " ("@, choice.profile, after_profile);
            let front = choice.encoder + " ("@ + choice.profile + " profile, "@;
            assert(named->0 =~= front + choice.pixel_format + tail);
            lemma_holds(named->0, front, choice.pixel_format, tail);
        } else {
            let n = encoding.encoder.len() as int;
            assert(named->0.take(n) =~= encoding.encoder);
            assert(named->0 =~= e + encoding.encoder + named->0.skip(n));
            lemma_holds(named->0, e, encoding.encoder, named->0.skip(n));
        }
    }
}

/// A length is told in minutes, seconds and thousandths, and in hours where
/// there are any.
pub proof fn a_length_is_told_on_a_clock(hours: nat, minutes: nat, seconds: nat, millis: nat)
    requires
        minutes < 60,
        seconds < 60,
        millis < 1000,
    ensures
        ({
            let words = clock_words(
                3_600_000 * hours + 60_000 * minutes + 1000 * seconds + millis,
            );
            let rest = two_digits(seconds) + "."@ + three_digits(millis);
            &&& hours == 0 ==> words == decimal(minutes) + ":"@ + rest
            &&& hours > 0 ==> words == decimal(hours) + ":"@ + two_digits(minutes) + ":"@ + rest
        }),
{
    let all = 3_600_000 * hours + 60_000 * minutes + 1000 * seconds + millis;
    assert(all / 60_000 == 60 * hours + minutes);
    assert(all % 60_000 / 1000 == seconds);
    assert(all % 1000 == millis);
    assert((60 * hours + minutes) / 60 == hours && (60 * hours + minutes) % 60 == minutes);
}

/// A moment is told as its date and its time of day.
pub proof fn a_moment_is_told_as_date_and_time(
    year: nat,
    month: nat,
    day: nat,
    hours: nat,
    minutes: nat,
    seconds: nat,
)
    requires
        minutes < 60,
        seconds < 60,
        1000 <= year,
    ensures
        moment(year, month, day, 3600 * hours + 60 * minutes + seconds) == decimal(year) + "-"@
            + two_digits(month) + "-"@ + two_digits(day) + " "@ + two_digits(hours) + ":"@
            + two_digits(minutes) + " UTC"@,
{
    let second = 3600 * hours + 60 * minutes + seconds;
    assert(second / 3600 == hours);
    assert(second % 3600 / 60 == minutes);
}

/// One day follows another: within a month, at its end, and at the year's. The
/// first of all is the first of January 1970.
pub proof fn one_day_follows_another(year: nat, month: int, day: int)
    requires
        is_date(year as int, month, day),
    ensures
        day_number(1970, 1, 1) == 0,
        ({
            let leaps = year % 4 == 0 && (year % 100 != 0 || year % 400 == 0);
            let long = month == 1 || month == 3 || month == 5 || month == 7 || month == 8 || month
                == 10 || month == 12;
            let days: int = if month == 2 {
                if leaps {
                    29
                } else {
                    28
                }
            } else if long {
                31
            } else {
                30
            };
            let today = day_number(year as int, month, day);
            &&& 1 <= day <= days
            &&& day < days ==> day_number(year as int, month, day + 1) == today + 1
            &&& day == days && month < 12 ==> day_number(year as int, month + 1, 1) == today + 1
            &&& day == days && month == 12 ==> day_number(year as int + 1, 1, 1) == today + 1
        }),
{
    let y = year as int;
    assert((y + 4) / 4 - (y + 3) / 4 == (if y % 4 == 0 {
        1int
    } else {
        0
    }));
    assert((y + 100) / 100 - (y + 99) / 100 == (if y % 100 == 0 {
        1int
    } else {
        0
    }));
    assert((y + 400) / 400 - (y + 399) / 400 == (if y % 400 == 0 {
        1int
    } else {
        0
    }));
    assert(y % 400 == 0 ==> y % 100 == 0);
    assert(y % 100 == 0 ==> y % 4 == 0);
}

/// Every segment stands in the report.
pub proof fn every_segment_stands_in_the_report(
    report: ExportReport,
    with_paths: bool,
    when: Seq<char>,
    i: int,
)
    requires
        0 <= i < report.segments@.len(),
    ensures
        holds_text(report_words(report, with_paths, when), segment_lines(report.segments@[i])),
{
    let head = crate::export::report::text::head_words(report, with_paths, when);
    let all = all_segments(report.segments@, report.segments@.len() as int);
    let sound = crate::export::report::text::encoding_lines(report.audio_encoding);
    let commands = crate::export::report::text::command_lines(report.commands@, with_paths);
    let (before, after) = lemma_segment_within(
        report.segments@,
        report.segments@.len() as int,
        i,
    );
    lemma_inside(head, before, segment_lines(report.segments@[i]), after, sound, commands);
}

/// What stands in a part stands in the whole.
proof fn lemma_inside(
    head: Seq<char>,
    before: Seq<char>,
    own: Seq<char>,
    after: Seq<char>,
    sound: Seq<char>,
    commands: Seq<char>,
)
    ensures
        holds_text(head + (before + own + after) + sound + commands, own),
{
    let whole = head + (before + own + after) + sound + commands;
    assert(whole =~= (head + before) + own + (after + sound + commands));
    lemma_holds(whole, head + before, own, after + sound + commands);
}

proof fn lemma_segment_within(segments: Seq<ReportSegment>, count: int, i: int) -> (around: (
    Seq<char>,
    Seq<char>,
))
    requires
        0 <= i < count <= segments.len(),
    ensures
        all_segments(segments, count) == around.0 + segment_lines(segments[i]) + around.1,
    decreases count,
{
    if i == count - 1 {
        let around = (all_segments(segments, count - 1), Seq::<char>::empty());
        assert(all_segments(segments, count) =~= around.0 + segment_lines(segments[i]) + around.1);
        around
    } else {
        let (front, back) = lemma_segment_within(segments, count - 1, i);
        let around = (front, back + segment_lines(segments[count - 1]));
        assert(all_segments(segments, count) =~= around.0 + segment_lines(segments[i]) + around.1);
        around
    }
}

/// Every line of a list is said, on a line of its own.
pub proof fn every_line_is_said(lead: Seq<char>, texts: Seq<Seq<char>>, count: int, i: int)
    requires
        0 <= i < count <= texts.len(),
    ensures
        holds_text(lines(lead, texts, count), lead + texts[i] + "\n"@),
{
    let (front, back) = lemma_line_within(lead, texts, count, i);
    lemma_holds(lines(lead, texts, count), front, lead + texts[i] + "\n"@, back);
}

proof fn lemma_line_within(lead: Seq<char>, texts: Seq<Seq<char>>, count: int, i: int) -> (around: (
    Seq<char>,
    Seq<char>,
))
    requires
        0 <= i < count <= texts.len(),
    ensures
        lines(lead, texts, count) == around.0 + (lead + texts[i] + "\n"@) + around.1,
    decreases count,
{
    if i == count - 1 {
        let around = (lines(lead, texts, count - 1), Seq::<char>::empty());
        assert(lines(lead, texts, count) =~= around.0 + (lead + texts[i] + "\n"@) + around.1);
        around
    } else {
        let (front, back) = lemma_line_within(lead, texts, count - 1, i);
        let around = (front, back + (lead + texts[count - 1] + "\n"@));
        assert(lines(lead, texts, count) =~= around.0 + (lead + texts[i] + "\n"@) + around.1);
        around
    }
}

} // verus!
