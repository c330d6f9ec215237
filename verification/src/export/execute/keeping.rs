//! What goes through an export comes out where it belongs.
use crate::capability::{CodecCapability, EncoderCapabilities, VideoCodec};
use crate::export::execute::chapters::{
    all_moved, moved, moved_of, SourceChapter,
};
use crate::export::execute::command::{choice_words, flattened};
use crate::export::execute::interleave::is_next;
use crate::export::plan::{Media, Segment, SegmentSource};
use crate::export::profile::{Argument, ChoiceModel};
use crate::export::seam::{configuration_sets, is_set};
use crate::orchestrator::command::{escaped, shown};
use crate::probe::Rational;
use crate::project::SourceId;
use vstd::prelude::*;

verus! {

/// The nearest whole number of units, a half upwards.
pub open spec fn nearest_unit(n: int, unit: int, count: int) -> bool {
    -unit <= 2 * (n - count * unit) < unit
}

/// A chapter moves with its clip and plays at its speed: what of it lies within
/// the clip starts as far behind the clip's start, and lasts as long, as it
/// takes to play, to the nearest millisecond. Of a clip at twice the speed that
/// is half as much.
pub proof fn a_chapter_plays_at_its_clips_speed(
    chapter: SourceChapter,
    source: SegmentSource,
    start: i64,
    sequence: Rational,
)
    ensures
        moved(chapter, source, start, sequence) matches Some(there) ==> {
            let (base, speed) = (source.time_base, source.speed);
            let clip_in = source.source_in * base.num * 1_000_000;
            let clip_out = source.source_out * base.num * 1_000_000;
            let (first, last) = (chapter.start * base.den, chapter.end * base.den);
            let from = if first > clip_in {
                first
            } else {
                clip_in
            };
            let to = if last < clip_out {
                last
            } else {
                clip_out
            };
            // A second of the source is `second`, and plays in `den / num` of one.
            let second = base.den * 1_000_000;
            &&& from < to
            &&& nearest_unit(
                (to - from) * speed.den * 1000,
                second * speed.num,
                there.length as int,
            )
            &&& nearest_unit(
                start * sequence.num * second * speed.num * 1000 + (from - clip_in) * speed.den
                    * sequence.den * 1000,
                second * speed.num * sequence.den,
                there.start as int,
            )
            &&& there.time_base == (Rational { num: 1, den: 1000 })
            &&& chapter.title matches Some(title) ==> there.metadata == seq![("title"@, title@)]
            &&& chapter.title is None ==> there.metadata.len() == 0
        },
{
    if let Some(there) = moved(chapter, source, start, sequence) {
        let (base, speed) = (source.time_base, source.speed);
        let (p, q, r) = (base.den as int, speed.num as int, sequence.den as int);
        assert(p * 1_000_000 * q > 0 && p * 1_000_000 * q * r > 0) by (nonlinear_arith)
            requires
                p > 0,
                q > 0,
                r > 0,
        ;
        let clip_in = source.source_in * base.num * 1_000_000;
        let (from, to) = crate::export::execute::chapters::heard(chapter, source);
        lemma_nearest((to - from) * speed.den * 1000, p * 1_000_000 * q);
        let (a, b) = (start * sequence.num, (from - clip_in) * speed.den * sequence.den * 1000);
        assert(a * p * 1_000_000 * q * 1000 == a * (p * 1_000_000) * q * 1000) by (nonlinear_arith);
        lemma_nearest(a * p * 1_000_000 * q * 1000 + b, p * 1_000_000 * q * r);
    }
}

/// A chapter that is heard comes out: where any of it lies within the clip, and
/// the numbers are such as a file has.
pub proof fn a_chapter_that_is_heard_comes_out(
    chapter: SourceChapter,
    source: SegmentSource,
    start: i64,
    sequence: Rational,
)
    requires
        0 < source.time_base.num <= 0x10_0000 && 0 < source.time_base.den <= 0x10_0000,
        0 < source.speed.num <= 0x400 && 0 < source.speed.den <= 0x400,
        0 < sequence.num <= 0x10_0000 && 0 < sequence.den <= 0x10_0000,
        0 <= source.source_in < source.source_out <= 0x80_0000_0000,
        0 <= start <= 0x80_0000_0000,
        0 <= chapter.start < chapter.end <= 0x80_0000_0000,
        chapter.start * source.time_base.den < source.source_out * source.time_base.num * 1_000_000,
        chapter.end * source.time_base.den > source.source_in * source.time_base.num * 1_000_000,
        start * sequence.num <= 0x80_0000_0000 * sequence.den,
        source.source_out * source.time_base.num <= 0x80_0000_0000 * source.time_base.den,
    ensures
        moved(chapter, source, start, sequence) is Some,
{
    let (base, speed) = (source.time_base, source.speed);
    let (bn, bd, sn, sd) = (base.num as int, base.den as int, speed.num as int, speed.den as int);
    let (qn, qd) = (sequence.num as int, sequence.den as int);
    let (a, z, t) = (source.source_in as int, source.source_out as int, start as int);
    let clip_in = a * bn * 1_000_000;
    let clip_out = z * bn * 1_000_000;
    lemma_product(a, bn, 0x80_0000_0000, 0x10_0000);
    lemma_product(z, bn, 0x80_0000_0000, 0x10_0000);
    assert(a * bn < z * bn) by (nonlinear_arith)
        requires
            a < z,
            bn > 0,
    ;
    let (first, last) = (chapter.start * bd, chapter.end * bd);
    assert(0 <= first < last) by (nonlinear_arith)
        requires
            first == chapter.start * bd,
            last == chapter.end * bd,
            0 <= chapter.start < chapter.end,
            bd > 0,
    ;
    let (from, to) = crate::export::execute::chapters::heard(chapter, source);
    assert(clip_in <= from < to <= clip_out);
    let behind = from - clip_in;
    let span = to - from;
    // Each factor in turn.
    let most: int = 0x80_0000_0000int * 0x10_0000 * 1_000_000;
    lemma_product(behind, sd, most, 0x400);
    lemma_product(behind * sd, qd, most * 0x400, 0x10_0000);
    lemma_product(span, sd, most, 0x400);
    lemma_product(t, qn, 0x80_0000_0000, 0x10_0000);
    lemma_product(t * qn, bd, 0x80_0000_0000int * 0x10_0000, 0x10_0000);
    lemma_product(
        t * qn * bd * 1_000_000,
        sn,
        0x80_0000_0000int * 0x10_0000 * 0x10_0000 * 1_000_000,
        0x400,
    );
    lemma_product(bd, sn, 0x10_0000, 0x400);
    assert(bd * 1_000_000 * sn == bd * sn * 1_000_000) by (nonlinear_arith);
    lemma_product(bd * 1_000_000 * sn, qd, 0x10_0000int * 0x400 * 1_000_000, 0x10_0000);
    assert(bd * sn > 0 && bd * 1_000_000 * sn * qd > 0) by (nonlinear_arith)
        requires
            bd > 0,
            sn > 0,
            qd > 0,
    ;
    assert(crate::export::execute::chapters::countable(chapter, source, start, sequence));
    // A place and a length that a file can hold.
    let unit = bd * 1_000_000 * sn;
    let length = span * sd * 1000;
    lemma_small(length, unit, 0x1000_0000_0000_0000);
    let at = t * qn * bd * 1_000_000 * sn * 1000 + behind * sd * qd * 1000;
    assert(span <= z * bn * 1_000_000 && z * bn * 1_000_000 <= 0x80_0000_0000 * bd * 1_000_000);
    assert(length <= 0x1000_0000_0000_0000 * unit) by (nonlinear_arith)
        requires
            length == span * sd * 1000,
            span <= 0x80_0000_0000 * bd * 1_000_000,
            0 < sd <= 0x400,
            0 < sn,
            0 < bd,
            0 <= span,
            unit == bd * 1_000_000 * sn,
    ;
    assert(t * qn * (bd * 1_000_000 * sn * 1000) <= 0x80_0000_0000 * qd * (bd * 1_000_000 * sn
        * 1000)) by (nonlinear_arith)
        requires
            t * qn <= 0x80_0000_0000 * qd,
            bd > 0,
            sn > 0,
    ;
    assert(t * qn * bd * 1_000_000 * sn * 1000 == t * qn * (bd * 1_000_000 * sn * 1000))
        by (nonlinear_arith);
    assert(behind * sd * 1000 <= 0x800_0000_0000_0000 * unit) by (nonlinear_arith)
        requires
            behind <= 0x80_0000_0000 * bd * 1_000_000,
            0 <= behind,
            0 < sd <= 0x400,
            0 < sn,
            0 < bd,
            unit == bd * 1_000_000 * sn,
    ;
    assert(behind * sd * qd * 1000 <= 0x800_0000_0000_0000 * (unit * qd)) by (nonlinear_arith)
        requires
            behind * sd * 1000 <= 0x800_0000_0000_0000 * unit,
            qd > 0,
    ;
    assert(0x80_0000_0000 * qd * (bd * 1_000_000 * sn * 1000) == 0x80_0000_0000 * 1000 * (unit
        * qd)) by (nonlinear_arith)
        requires
            unit == bd * 1_000_000 * sn,
    ;
    lemma_small(at, unit * qd, 0x1000_0000_0000_0000);
    let x = unit * qd;
    let ahead = t * qn * bd * 1_000_000 * sn * 1000;
    assert(0 <= ahead <= 0x80_0000_0000 * 1000 * x);
    assert(0 <= behind * sd * qd * 1000 <= 0x800_0000_0000_0000 * x);
    assert(0 <= at <= 0x1000_0000_0000_0000 * x) by (nonlinear_arith)
        requires
            at == ahead + behind * sd * qd * 1000,
            0 <= ahead <= 0x80_0000_0000 * 1000 * x,
            0 <= behind * sd * qd * 1000 <= 0x800_0000_0000_0000 * x,
            x > 0,
    ;
    assert(0 <= length <= 0x1000_0000_0000_0000 * unit);
    assert(crate::export::execute::chapters::segment_part(source, start, sequence)
        + crate::export::execute::chapters::source_part(behind, source, sequence) == at);
    assert(crate::export::execute::chapters::start_unit(source, sequence) == unit * qd);
    assert(crate::export::execute::chapters::length_part(span, source) == length);
    assert(crate::export::execute::chapters::length_unit(source) == unit);
}

proof fn lemma_product(a: int, b: int, most: int, more: int)
    requires
        0 <= a <= most,
        0 <= b <= more,
    ensures
        0 <= a * b <= most * more,
{
    assert(0 <= a * b <= most * more) by (nonlinear_arith)
        requires
            0 <= a <= most,
            0 <= b <= more,
    ;
}

/// So many units at most are told in so many.
proof fn lemma_small(n: int, unit: int, most: int)
    requires
        unit > 0,
    ensures
        0 <= n <= most * unit ==> 0 <= crate::time::rounded(
            n,
            unit,
            crate::time::Rounding::Nearest,
        ) <= most + 1,
{
    if 0 <= n <= most * unit {
        vstd::arithmetic::div_mod::lemma_fundamental_div_mod(n, unit);
        vstd::arithmetic::div_mod::lemma_mod_bound(n, unit);
        let f = n / unit;
        assert(0 <= f <= most) by (nonlinear_arith)
            requires
                n == unit * f + n % unit,
                0 <= n % unit < unit,
                0 <= n <= most * unit,
                unit > 0,
        ;
    }
}

proof fn lemma_nearest(n: int, unit: int)
    requires
        unit > 0,
    ensures
        nearest_unit(n, unit, crate::time::rounded(n, unit, crate::time::Rounding::Nearest)),
{
    vstd::arithmetic::div_mod::lemma_fundamental_div_mod(n, unit);
    vstd::arithmetic::div_mod::lemma_mod_bound(n, unit);
    let f = n / unit;
    assert(unit * f == f * unit && (f + 1) * unit == f * unit + unit) by (nonlinear_arith);
}

/// Every chapter of a clip that is heard comes out, and none of a clip of
/// several sources or of another kind of stream.
pub proof fn every_chapter_heard_comes_out(
    segments: Seq<Segment>,
    chapters: Map<SourceId, Vec<SourceChapter>>,
    primary: Media,
    sequence: Rational,
    count: int,
    i: int,
    k: int,
)
    requires
        0 <= i < count <= segments.len(),
        segments[i].media == primary,
        segments[i].sources@.len() == 1,
        chapters.contains_key(segments[i].sources@[0].source),
        0 <= k < chapters[segments[i].sources@[0].source]@.len(),
    ensures
        moved(
            chapters[segments[i].sources@[0].source]@[k],
            segments[i].sources@[0],
            segments[i].start,
            sequence,
        ) matches Some(there) ==> all_moved(segments, chapters, primary, sequence, count).contains(
            there,
        ),
    decreases count,
{
    let list = chapters[segments[i].sources@[0].source]@;
    let own = moved(list[k], segments[i].sources@[0], segments[i].start, sequence);
    if own is Some {
        let before = all_moved(segments, chapters, primary, sequence, count - 1);
        let all = all_moved(segments, chapters, primary, sequence, count);
        if i < count - 1 {
            every_chapter_heard_comes_out(segments, chapters, primary, sequence, count - 1, i, k);
            let j = choose|j: int| 0 <= j < before.len() && before[j] == own->0;
            assert(all[j] == own->0);
        } else {
            let mine = moved_of(
                list,
                segments[i].sources@[0],
                segments[i].start,
                sequence,
                list.len() as int,
            );
            lemma_moved(
                list,
                segments[i].sources@[0],
                segments[i].start,
                sequence,
                list.len() as int,
                k,
            );
            let j = choose|j: int| 0 <= j < mine.len() && mine[j] == own->0;
            assert(all[before.len() + j] == own->0);
        }
    }
}

proof fn lemma_moved(
    list: Seq<SourceChapter>,
    source: SegmentSource,
    start: i64,
    sequence: Rational,
    count: int,
    k: int,
)
    requires
        0 <= k < count <= list.len(),
        moved(list[k], source, start, sequence) is Some,
    ensures
        moved_of(list, source, start, sequence, count).contains(
            moved(list[k], source, start, sequence)->0,
        ),
    decreases count,
{
    let all = moved_of(list, source, start, sequence, count);
    if k < count - 1 {
        lemma_moved(list, source, start, sequence, count - 1, k);
        let before = moved_of(list, source, start, sequence, count - 1);
        let own = moved(list[k], source, start, sequence)->0;
        let j = choose|j: int| 0 <= j < before.len() && before[j] == own;
        assert(all[j] == own);
    } else {
        assert(all[all.len() - 1] == moved(list[k], source, start, sequence)->0);
    }
}

/// The packet that is next is no later than any other's, in seconds, and the
/// first of those at the same time.
pub proof fn the_earliest_packet_is_next(
    heads: Seq<Option<i64>>,
    bases: Seq<Rational>,
    i: int,
    j: int,
)
    requires
        is_next(heads, bases, i),
        0 <= j < heads.len(),
        heads[j] is Some,
    ensures
        ({
            let mine = heads[i]->0 * bases[i].num * bases[j].den;
            let other = heads[j]->0 * bases[j].num * bases[i].den;
            mine <= other && (mine == other ==> i <= j)
        }),
{
}

/// Every option stands behind its name.
pub proof fn every_option_stands_behind_its_name(options: Seq<Argument>, count: int, i: int)
    requires
        0 <= i < count <= options.len(),
    ensures
        flattened(options, count).len() == 2 * count,
        flattened(options, count)[2 * i] == options[i].0,
        flattened(options, count)[2 * i + 1] == options[i].1,
    decreases count,
{
    lemma_flattened(options, count - 1);
    if i < count - 1 {
        every_option_stands_behind_its_name(options, count - 1, i);
    }
}

proof fn lemma_flattened(options: Seq<Argument>, count: int)
    requires
        0 <= count,
    ensures
        flattened(options, count).len() == 2 * count,
    decreases count,
{
    if count > 0 {
        lemma_flattened(options, count - 1);
    }
}

/// A hardware encoder is asked for pictures in the order they are shown.
pub proof fn hardware_does_not_reorder(choice: ChoiceModel)
    ensures
        ({
            let words = choice_words(choice);
            let n = choice.options(choice.codec).len() as int;
            let hardware = choice.source != crate::capability::EncoderSource::Software;
            &&& words.len() == 2 * n + (if hardware {
                2int
            } else {
                0
            })
            &&& hardware ==> words[2 * n] == "-bf"@ && words[2 * n + 1] == "0"@
        }),
{
    lemma_flattened(choice.options(choice.codec), choice.options(choice.codec).len() as int);
}

/// The encoders of a codec are those listed for it.
pub proof fn a_codec_has_its_own_encoders(
    capabilities: EncoderCapabilities,
    codec: VideoCodec,
    at: int,
)
    requires
        0 <= at <= capabilities.codecs@.len(),
        forall|k: int| 0 <= k < at ==> (#[trigger] capabilities.codecs@[k]).codec != codec,
        at < capabilities.codecs@.len() ==> capabilities.codecs@[at].codec == codec,
    ensures
        at < capabilities.codecs@.len() ==> capabilities.encoders(codec)
            == capabilities.codecs@[at].encoders@,
        at == capabilities.codecs@.len() ==> capabilities.encoders(codec).len() == 0,
{
    lemma_entry(capabilities.codecs@, codec, 0, at);
}

proof fn lemma_entry(codecs: Seq<CodecCapability>, codec: VideoCodec, from: int, at: int)
    requires
        0 <= from <= at <= codecs.len(),
        forall|k: int| from <= k < at ==> (#[trigger] codecs[k]).codec != codec,
        at < codecs.len() ==> codecs[at].codec == codec,
    ensures
        crate::capability::entry_of(codecs, codec, from) == at,
    decreases at - from,
{
    if from < at {
        assert(codecs[from].codec != codec);
        lemma_entry(codecs, codec, from + 1, at);
    }
}

/// An HEVC record gives the parameter sets that it lists, and no other unit.
pub proof fn an_hvcc_record_gives_its_sets(head: Seq<u8>, kind: u8, unit: Seq<u8>)
    requires
        head.len() == 22,
        head[0] == 1,
        0 < unit.len() <= 0xffff,
    ensures
        ({
            let record = head + seq![1u8] + seq![kind, 0u8, 1u8] + seq![
                (unit.len() / 256) as u8,
                (unit.len() % 256) as u8,
            ] + unit;
            &&& 32 <= ((unit[0] >> 1) & 0x3F) <= 34 ==> configuration_sets(VideoCodec::Hevc, record)
                == seq![unit]
            &&& !(32 <= ((unit[0] >> 1) & 0x3F) <= 34) ==> configuration_sets(
                VideoCodec::Hevc,
                record,
            ).len() == 0
        }),
{
    let length = seq![(unit.len() / 256) as u8, (unit.len() % 256) as u8];
    let record = head + seq![1u8] + seq![kind, 0u8, 1u8] + length + unit;
    crate::export::stitching::no_picture_is_a_parameter_set(VideoCodec::Hevc, unit);
    assert(record[0] == 1 && record[22] == 1);
    assert(record[24] == 0 && record[25] == 1);
    assert(record[26] == length[0] && record[27] == length[1]);
    assert(!crate::export::sps::starts_annex_b(record));
    assert(crate::export::sps::pair_at(record, 24) == 1);
    assert(crate::export::sps::pair_at(record, 26) == unit.len());
    assert(record.subrange(28, 28 + unit.len() as int) =~= unit);
    let end = 28 + unit.len() as int;
    assert(record.len() == end);
    reveal_with_fuel(crate::export::seam::hvcc_sets, 4);
    assert(is_set(VideoCodec::Hevc, unit) <==> 32 <= ((unit[0] >> 1) & 0x3F) <= 34);
    assert(crate::export::seam::hvcc_sets(record, end, 0, 0).len() == 0);
    if is_set(VideoCodec::Hevc, unit) {
        assert(configuration_sets(VideoCodec::Hevc, record) =~= seq![unit]);
    }
}

/// A command is shown word by word: as it is where it is plain, else in quotes,
/// with every quote in it escaped.
pub proof fn a_command_is_shown_word_by_word(words: Seq<Seq<char>>, word: Seq<char>)
    ensures
        ({
            let plain = word.len() > 0 && !word.contains(' ') && !word.contains('"')
                && !word.contains('\'');
            &&& plain ==> shown(words.push(word)) == shown(words) + (" "@ + word)
            &&& !plain && !word.contains('"') ==> shown(words.push(word)) == shown(words) + (" \""@
                + word + "\""@)
        }),
{
    assert(words.push(word).drop_last() =~= words);
    if !word.contains('"') {
        lemma_unescaped(word);
    }
}

proof fn lemma_unescaped(word: Seq<char>)
    requires
        !word.contains('"'),
    ensures
        escaped(word) == word,
    decreases word.len(),
{
    if word.len() > 0 {
        let shorter = word.drop_last();
        assert(word[word.len() - 1] != '"');
        assert(!shorter.contains('"')) by {
            if shorter.contains('"') {
                let k = choose|k: int| 0 <= k < shorter.len() && shorter[k] == '"';
                assert(word[k] == '"');
            }
        }
        lemma_unescaped(shorter);
        assert(shorter.push(word.last()) =~= word);
    } else {
        assert(escaped(word) =~= word);
    }
}

} // verus!
