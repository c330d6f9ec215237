//! What encoded sound is made of: every source, with its gains, its speed and
//! its silence, mixed and cut to length.
use crate::export::audio::AudioModel;
use crate::export::encode::{
    chain_of, chains, delayed, encoder_options, encoder_words, gains, given, graph_of, inputs_of,
    label, labels, length_of, openings, tempos, Cue,
};
use crate::export::execute::ExportInput;
use crate::export::plan::{Segment, SegmentSource};
use crate::orchestrator::command::{file_words, lemma_says, lemma_still_says, says};
use crate::probe::Rational;
use crate::project::{AudioOperation, SourceId};
use crate::text::{decimal, holds_text, lemma_holds, lemma_same_between, optional, signed_decimal};
use crate::time::{a_conversion_keeps_the_time, Rounding};
use vstd::prelude::*;

verus! {

/// Texts, one behind another.
pub open spec fn joined(texts: Seq<Seq<char>>) -> Seq<char>
    decreases texts.len(),
{
    if texts.len() == 0 {
        Seq::empty()
    } else {
        joined(texts.drop_last()) + texts.last()
    }
}

/// One text more.
proof fn lemma_joined(texts: Seq<Seq<char>>, text: Seq<char>)
    ensures
        joined(texts.push(text)) == joined(texts) + text,
{
    assert(texts.push(text).drop_last() =~= texts);
}

/// A text among others stands in the whole.
proof fn lemma_joined_holds(texts: Seq<Seq<char>>, i: int) -> (ends: (Seq<char>, Seq<char>))
    requires
        0 <= i < texts.len(),
    ensures
        joined(texts) == ends.0 + texts[i] + ends.1,
    decreases texts.len(),
{
    if i == texts.len() - 1 {
        let front = joined(texts.drop_last());
        assert(joined(texts) =~= front + texts[i] + Seq::<char>::empty());
        (front, Seq::empty())
    } else {
        let (front, back) = lemma_joined_holds(texts.drop_last(), i);
        assert(texts.drop_last()[i] == texts[i]);
        assert(joined(texts) =~= front + texts[i] + (back + texts.last()));
        (front, back + texts.last())
    }
}

/// `places` are the gains among the first `count` steps of a chain, all of them
/// and in order.
pub open spec fn are_the_gains(chain: Seq<AudioOperation>, count: int, places: Seq<int>) -> bool {
    &&& forall|j: int, k: int|
        #![trigger places[j], places[k]]
        0 <= j < k < places.len() ==> places[j] < places[k]
    &&& forall|j: int|
        0 <= j < places.len() ==> 0 <= #[trigger] places[j] < count && chain[places[j]] is Gain
    &&& forall|i: int|
        0 <= i < count && (#[trigger] chain[i]) is Gain ==> places.contains(i)
}

/// The filter of a gain of so many decibels.
pub open spec fn volume(db: Seq<char>) -> Seq<char> {
    ",volume="@ + db + "dB"@
}

/// Every gain of a chain is applied, once and in order: there is one volume
/// filter for each, with its decibels, and nothing else.
pub proof fn every_gain_is_applied(chain: Seq<AudioOperation>, count: int) -> (places: Seq<int>)
    requires
        0 <= count <= chain.len(),
    ensures
        are_the_gains(chain, count, places),
        gains(chain, count) == joined(
            Seq::new(places.len(), |j: int| volume(chain[places[j]]->Gain_db@)),
        ),
    decreases count,
{
    if count == 0 {
        let places = Seq::<int>::empty();
        assert(joined(Seq::new(places.len(), |j: int| volume(chain[places[j]]->Gain_db@)))
            =~= Seq::empty());
        places
    } else {
        let before = every_gain_is_applied(chain, count - 1);
        let told = Seq::new(before.len(), |j: int| volume(chain[before[j]]->Gain_db@));
        if chain[count - 1] is Gain {
            let places = before.push(count - 1);
            let text = volume(chain[count - 1]->Gain_db@);
            lemma_joined(told, text);
            assert(Seq::new(places.len(), |j: int| volume(chain[places[j]]->Gain_db@))
                =~= told.push(text));
            assert forall|i: int| 0 <= i < count && (#[trigger] chain[i]) is Gain implies places.contains(
                i,
            ) by {
                if i == count - 1 {
                    assert(places[before.len() as int] == i);
                } else {
                    let j = choose|j: int| 0 <= j < before.len() && before[j] == i;
                    assert(places[j] == i);
                }
            }
            assert forall|j: int| 0 <= j < places.len() implies 0 <= #[trigger] places[j] < count
                && chain[places[j]] is Gain by {
                if j < before.len() {
                    assert(places[j] == before[j]);
                }
            }
            assert forall|j: int, k: int|
                #![trigger places[j], places[k]]
                0 <= j < k < places.len() implies places[j] < places[k] by {
                assert(places[j] == before[j]);
                if k < before.len() {
                    assert(places[k] == before[k]);
                }
            }
            places
        } else {
            assert(gains(chain, count) =~= gains(chain, count - 1));
            before
        }
    }
}

/// The steps that are the same give the same filters.
proof fn lemma_same_gains(a: Seq<AudioOperation>, b: Seq<AudioOperation>, count: int)
    requires
        0 <= count <= a.len(),
        count <= b.len(),
        forall|i: int| 0 <= i < count ==> #[trigger] a[i] == b[i],
    ensures
        gains(a, count) == gains(b, count),
    decreases count,
{
    if count > 0 {
        lemma_same_gains(a, b, count - 1);
        assert(a[count - 1] == b[count - 1]);
    }
}

/// What follows a step does not depend on it.
proof fn lemma_gains_behind(
    a: Seq<AudioOperation>,
    b: Seq<AudioOperation>,
    i: int,
    count: int,
) -> (rest: Seq<char>)
    requires
        0 <= i < count <= a.len(),
        a.len() == b.len(),
        forall|k: int| 0 <= k < a.len() && k != i ==> #[trigger] a[k] == b[k],
    ensures
        gains(a, count) == gains(a, i + 1) + rest,
        gains(b, count) == gains(b, i + 1) + rest,
    decreases count,
{
    if count == i + 1 {
        assert(gains(a, count) =~= gains(a, i + 1) + Seq::<char>::empty());
        assert(gains(b, count) =~= gains(b, i + 1) + Seq::<char>::empty());
        Seq::empty()
    } else {
        let before = lemma_gains_behind(a, b, i, count - 1);
        let own = match a[count - 1] {
            AudioOperation::Gain { db } => ",volume="@ + db@ + "dB"@,
            _ => Seq::empty(),
        };
        assert(a[count - 1] == b[count - 1]);
        assert(gains(a, count) =~= gains(a, i + 1) + (before + own));
        assert(gains(b, count) =~= gains(b, i + 1) + (before + own));
        before + own
    }
}

/// A gain decides the sound: chains that differ in the decibels of one gain
/// have different filters.
pub proof fn another_gain_is_another_sound(
    chain: Seq<AudioOperation>,
    i: int,
    other: AudioOperation,
)
    requires
        0 <= i < chain.len(),
        chain[i] is Gain,
        other is Gain,
        chain[i]->Gain_db@ != other->Gain_db@,
    ensures
        gains(chain, chain.len() as int) != gains(chain.update(i, other), chain.len() as int),
{
    let changed = chain.update(i, other);
    let n = chain.len() as int;
    let front = gains(chain, i);
    lemma_same_gains(chain, changed, i);
    let back = lemma_gains_behind(chain, changed, i, n);
    let (a, b) = (volume(chain[i]->Gain_db@), volume(other->Gain_db@));
    assert(gains(chain, n) =~= front + a + back);
    assert(gains(changed, n) =~= front + b + back);
    if gains(chain, n) == gains(changed, n) {
        lemma_same_between(front, a, b, back);
        lemma_same_between(",volume="@, chain[i]->Gain_db@, other->Gain_db@, "dB"@);
    }
}

/// Every factor of a speed is applied, in order.
pub proof fn every_factor_is_applied(factors: Seq<String>, count: int)
    requires
        0 <= count <= factors.len(),
    ensures
        tempos(factors, count) == joined(
            Seq::new(count as nat, |i: int| ",atempo="@ + factors[i]@),
        ),
    decreases count,
{
    let told = Seq::new(count as nat, |i: int| ",atempo="@ + factors[i]@);
    if count > 0 {
        every_factor_is_applied(factors, count - 1);
        assert(told.drop_last() =~= Seq::new(
            (count - 1) as nat,
            |i: int| ",atempo="@ + factors[i]@,
        ));
        assert(tempos(factors, count) =~= joined(told.drop_last()) + (",atempo="@ + factors[count
            - 1]@));
    }
}

/// The sound of an input as it goes into the mix: its stream of its file, from
/// and to where its cue says, behind its silence, with its gains and at its
/// speed, in the encoding's rate and layout.
pub proof fn a_source_sounds_as_it_is_cued(
    i: int,
    source: SegmentSource,
    cue: Cue,
    encoding: AudioModel,
) -> (places: Seq<int>)
    requires
        i >= 0,
    ensures
        are_the_gains(source.audio@, source.audio@.len() as int, places),
        chain_of(i, source, cue, encoding) == "["@ + decimal(i as nat) + ":"@ + decimal(
            source.stream as nat,
        ) + "]atrim=start="@ + cue.from@ + ":end="@ + cue.end@ + ",asetpts=PTS-STARTPTS"@ + (
        match cue.delay {
            Some(samples) => ",adelay=delays="@ + signed_decimal(samples as int) + "S:all=1"@,
            None => Seq::empty(),
        }) + joined(
            Seq::new(places.len(), |j: int| volume(source.audio@[places[j]]->Gain_db@)),
        ) + joined(Seq::new(cue.tempo@.len(), |j: int| ",atempo="@ + cue.tempo@[j]@))
            + ",aresample="@ + decimal(encoding.sample_rate as nat) + ",aformat=channel_layouts="@
            + (if encoding.channels == 1 {
            "mono"@
        } else if encoding.channels == 6 {
            "5.1"@
        } else if encoding.channels == 8 {
            "7.1"@
        } else {
            "stereo"@
        }) + "[p"@ + decimal(i as nat) + "];"@,
{
    let places = every_gain_is_applied(source.audio@, source.audio@.len() as int);
    every_factor_is_applied(cue.tempo@, cue.tempo@.len() as int);
    reveal_strlit("]");
    reveal_strlit(";");
    reveal_strlit("];");
    assert("];"@ =~= "]"@ + ";"@);
    let front = "["@ + decimal(i as nat) + ":"@ + decimal(source.stream as nat) + "]atrim=start="@
        + cue.from@ + ":end="@ + cue.end@ + ",asetpts=PTS-STARTPTS"@ + delayed(cue.delay) + gains(
        source.audio@,
        source.audio@.len() as int,
    ) + tempos(cue.tempo@, cue.tempo@.len() as int) + ",aresample="@ + decimal(
        encoding.sample_rate as nat,
    ) + ",aformat=channel_layouts="@ + encoding.layout();
    assert(front + label(i) + ";"@ =~= front + "[p"@ + decimal(i as nat) + "];"@);
    places
}

/// The chains of the sources are those of each, in order.
proof fn lemma_chains(
    sources: Seq<SegmentSource>,
    cues: Seq<Cue>,
    encoding: AudioModel,
    count: int,
)
    requires
        0 <= count,
    ensures
        chains(sources, cues, encoding, count) == joined(
            Seq::new(count as nat, |i: int| chain_of(i, sources[i], cues[i], encoding)),
        ),
    decreases count,
{
    if count > 0 {
        lemma_chains(sources, cues, encoding, count - 1);
        let all = Seq::new(count as nat, |i: int| chain_of(i, sources[i], cues[i], encoding));
        assert(all.drop_last() =~= Seq::new(
            (count - 1) as nat,
            |i: int| chain_of(i, sources[i], cues[i], encoding),
        ));
    }
}

/// The labels of the inputs are those of each, in order.
proof fn lemma_labels(count: int)
    requires
        0 <= count,
    ensures
        labels(count) == joined(
            Seq::new(count as nat, |i: int| "[p"@ + decimal(i as nat) + "]"@),
        ),
    decreases count,
{
    if count > 0 {
        lemma_labels(count - 1);
        let all = Seq::new(count as nat, |i: int| "[p"@ + decimal(i as nat) + "]"@);
        assert(all.drop_last() =~= Seq::new(
            (count - 1) as nat,
            |i: int| "[p"@ + decimal(i as nat) + "]"@,
        ));
    }
}

/// Every source is heard: the graph is the chain of each, in order, then all of
/// their sounds mixed at full strength where there are several, silence where
/// there is none, cut to exactly the samples asked for.
pub proof fn every_source_is_heard(
    sources: Seq<SegmentSource>,
    cues: Seq<Cue>,
    encoding: AudioModel,
    total: int,
)
    ensures
        ({
            let n = sources.len();
            let each = Seq::new(n, |i: int| chain_of(i, sources[i], cues[i], encoding));
            let sounds = joined(Seq::new(n, |i: int| "[p"@ + decimal(i as nat) + "]"@));
            let end = "apad,atrim=end_sample="@ + signed_decimal(total)
                + ",asetpts=N/SR/TB[out]"@;
            let graph = graph_of(sources, cues, encoding, total);
            &&& n == 0 ==> graph == "[0:a]anull[p0];[p0]"@ + end
            &&& n == 1 ==> graph == joined(each) + sounds + end
            &&& n > 1 ==> graph == joined(each) + sounds + "amix=inputs="@ + decimal(n)
                + ":normalize=0:duration=longest[mix];[mix]"@ + end
            &&& forall|i: int|
                0 <= i < n ==> holds_text(
                    graph,
                    #[trigger] chain_of(i, sources[i], cues[i], encoding),
                )
        }),
{
    let n = sources.len() as int;
    let each = Seq::new(n as nat, |i: int| chain_of(i, sources[i], cues[i], encoding));
    let graph = graph_of(sources, cues, encoding, total);
    let end = "apad,atrim=end_sample="@ + signed_decimal(total) + ",asetpts=N/SR/TB[out]"@;
    lemma_chains(sources, cues, encoding, n);
    lemma_labels(n);
    if n == 0 {
        assert(graph =~= "[0:a]anull[p0];[p0]"@ + end);
    } else {
        let rest = if n == 1 {
            labels(n) + end
        } else {
            labels(n) + "amix=inputs="@ + decimal(n as nat)
                + ":normalize=0:duration=longest[mix];[mix]"@ + end
        };
        assert(graph =~= joined(each) + rest);
        assert forall|i: int| 0 <= i < n implies holds_text(
            graph,
            #[trigger] chain_of(i, sources[i], cues[i], encoding),
        ) by {
            let (front, back) = lemma_joined_holds(each, i);
            assert(graph =~= front + each[i] + (back + rest));
            lemma_holds(graph, front, each[i], back + rest);
        }
        if n == 1 {
            assert(graph =~= joined(each) + labels(n) + end);
        } else {
            assert(graph =~= joined(each) + labels(n) + "amix=inputs="@ + decimal(n as nat)
                + ":normalize=0:duration=longest[mix];[mix]"@ + end);
        }
    }
}

/// The files are opened in the order of their sources, each behind its seek.
proof fn lemma_openings(
    sources: Seq<SegmentSource>,
    cues: Seq<Cue>,
    inputs: Map<SourceId, ExportInput>,
    count: int,
) -> (places: Seq<int>)
    requires
        0 <= count <= sources.len(),
    ensures
        opens(
            openings(sources, cues, inputs, count),
            sources.take(count),
            cues,
            inputs,
            places,
        ),
    decreases count,
{
    let words = openings(sources, cues, inputs, count);
    if count == 0 {
        Seq::empty()
    } else {
        let before = lemma_openings(sources, cues, inputs, count - 1);
        let held = openings(sources, cues, inputs, count - 1);
        let seek = given("-ss"@, optional(cues[count - 1].seek));
        let at = (held.len() + seek.len()) as int;
        let places = before.push(at);
        let path = file_words(inputs[sources[count - 1].source].path@);
        assert(words =~= held + seek + seq!["-i"@, path]);
        assert forall|i: int| 0 <= i < places.len() implies opened_at(
            words,
            #[trigger] places[i],
            inputs[sources.take(count)[i].source].path@,
            cues[i].seek,
        ) by {
            if i < count - 1 {
                assert(places[i] == before[i]);
                assert(sources.take(count - 1)[i] == sources.take(count)[i]);
                assert(opened_at(
                    held,
                    before[i],
                    inputs[sources.take(count - 1)[i].source].path@,
                    cues[i].seek,
                ));
            } else {
                assert(words[at] == "-i"@ && words[at + 1] == path);
            }
        }
        assert forall|j: int, k: int|
            #![trigger places[j], places[k]]
            0 <= j < k < places.len() implies places[j] < places[k] by {
            assert(places[j] == before[j]);
            assert(opened_at(
                held,
                before[j],
                inputs[sources.take(count - 1)[j].source].path@,
                cues[j].seek,
            ));
            if k < count - 1 {
                assert(places[k] == before[k]);
            }
        }
        places
    }
}

/// A file is opened at a place among the arguments, right behind its seek where
/// it has one.
pub open spec fn opened_at(
    words: Seq<Seq<char>>,
    at: int,
    path: Seq<char>,
    seek: Option<String>,
) -> bool {
    &&& 0 <= at < words.len() - 1
    &&& words[at] == "-i"@ && words[at + 1] == "file:"@ + path
    &&& seek matches Some(seconds) ==> at >= 2 && words[at - 2] == "-ss"@ && words[at - 1]
        == seconds@
}

/// The sources' files are opened one behind another.
pub open spec fn opens(
    words: Seq<Seq<char>>,
    sources: Seq<SegmentSource>,
    cues: Seq<Cue>,
    inputs: Map<SourceId, ExportInput>,
    places: Seq<int>,
) -> bool {
    &&& places.len() == sources.len()
    &&& forall|j: int, k: int|
        #![trigger places[j], places[k]]
        0 <= j < k < places.len() ==> places[j] < places[k]
    &&& forall|i: int|
        0 <= i < places.len() ==> opened_at(
            words,
            #[trigger] places[i],
            inputs[sources[i].source].path@,
            cues[i].seek,
        )
}

/// An encoder is told everything: the files of its sources in order, the graph
/// they go through, and what to encode to; and it writes NUT, a hundred seconds
/// late.
pub proof fn an_encoder_is_told_everything(
    sources: Seq<SegmentSource>,
    cues: Seq<Cue>,
    inputs: Map<SourceId, ExportInput>,
    encoding: AudioModel,
    total: int,
)
    ensures
        ({
            let words = encoder_words(sources, cues, inputs, encoding, total);
            &&& sources.len() > 0 ==> exists|places: Seq<int>| #[trigger]
                opens(words, sources, cues, inputs, places)
            &&& sources.len() == 0 ==> says(words, "-f"@, "lavfi"@) && says(
                words,
                "-i"@,
                "anullsrc=r="@ + decimal(encoding.sample_rate as nat) + ":cl="@
                    + encoding.layout(),
            )
            &&& says(words, "-filter_complex"@, graph_of(sources, cues, encoding, total))
            &&& says(words, "-map"@, "[out]"@)
            &&& says(words, "-c:a"@, encoding.encoder)
            &&& says(words, "-ar"@, decimal(encoding.sample_rate as nat))
            &&& says(words, "-ac"@, decimal(encoding.channels as nat))
            &&& encoding.kilobits matches Some(kilobits) ==> says(
                words,
                "-b:a"@,
                decimal(kilobits as nat) + "k"@,
            )
            &&& encoding.codec == "flac"@ ==> says(words, "-sample_fmt"@, "s32"@)
            &&& sources.len() == 1 ==> says(
                words,
                "-map_metadata:s:0"@,
                "0:s:"@ + decimal(sources[0].stream as nat),
            )
            &&& says(words, "-output_ts_offset"@, "100"@)
            &&& says(words, "-f"@, "nut"@)
            &&& words.last() == "pipe:1"@
        }),
{
    let words = encoder_words(sources, cues, inputs, encoding, total);
    let quiet = seq!["-hide_banner"@, "-nostdin"@, "-n"@, "-v"@, "error"@];
    let input = inputs_of(sources, cues, inputs, encoding);
    let graph = graph_of(sources, cues, encoding, total);
    let options = encoder_options(sources, encoding);
    let late = seq!["-output_ts_offset"@, "100"@, "-f"@, "nut"@, "pipe:1"@];
    let head = quiet + input;
    assert(words =~= head + seq!["-filter_complex"@, graph] + (options + late));
    lemma_says(words, head, "-filter_complex"@, graph, options + late);
    let front = head + seq!["-filter_complex"@, graph];
    assert(words =~= front + options + late);
    assert(words =~= (front + options) + late + Seq::<Seq<char>>::empty());
    assert(late[0] == "-output_ts_offset"@ && late[1] == "100"@);
    assert(says(late, "-output_ts_offset"@, "100"@));
    assert(late[2] == "-f"@ && late[3] == "nut"@);
    assert(says(late, "-f"@, "nut"@));
    lemma_still_says(words, front + options, late, "-output_ts_offset"@, "100"@, Seq::empty());
    lemma_still_says(words, front + options, late, "-f"@, "nut"@, Seq::empty());
    lemma_options(sources, encoding);
    assert forall|name: Seq<char>, value: Seq<char>| #[trigger] says(options, name, value) implies says(
        words,
        name,
        value,
    ) by {
        lemma_still_says(words, front, options, name, value, late);
    }
    if sources.len() == 0 {
        let silence = "anullsrc=r="@ + decimal(encoding.sample_rate as nat) + ":cl="@
            + encoding.layout();
        assert(input[0] == "-f"@ && input[1] == "lavfi"@);
        assert(says(input, "-f"@, "lavfi"@));
        assert(input[2] == "-i"@ && input[3] == silence);
        assert(says(input, "-i"@, silence));
        let back = seq!["-filter_complex"@, graph] + (options + late);
        assert(words =~= quiet + input + back);
        lemma_still_says(words, quiet, input, "-f"@, "lavfi"@, back);
        lemma_still_says(words, quiet, input, "-i"@, silence, back);
    } else {
        let back = seq!["-filter_complex"@, graph] + (options + late);
        assert(words =~= quiet + input + back);
        lemma_opens(words, quiet, back, sources, cues, inputs);
    }
}

/// The files are opened among the arguments.
proof fn lemma_opens(
    words: Seq<Seq<char>>,
    front: Seq<Seq<char>>,
    back: Seq<Seq<char>>,
    sources: Seq<SegmentSource>,
    cues: Seq<Cue>,
    inputs: Map<SourceId, ExportInput>,
)
    requires
        words == front + (seq!["-copyts"@] + openings(sources, cues, inputs, sources.len() as int))
            + back,
    ensures
        exists|places: Seq<int>| #[trigger] opens(words, sources, cues, inputs, places),
{
    let n = sources.len() as int;
    let places = lemma_openings(sources, cues, inputs, n);
    let opened = openings(sources, cues, inputs, n);
    let ahead = front.len() as int + 1;
    let moved = Seq::new(places.len(), |i: int| places[i] + ahead);
    assert(sources.take(n) =~= sources);
    assert(words =~= front + seq!["-copyts"@] + opened + back);
    assert forall|i: int| 0 <= i < moved.len() implies opened_at(
        words,
        #[trigger] moved[i],
        inputs[sources[i].source].path@,
        cues[i].seek,
    ) by {
        let at = places[i];
        assert(opened_at(opened, at, inputs[sources[i].source].path@, cues[i].seek));
        assert(words[at + ahead] == opened[at]);
        assert(words[at + ahead + 1] == opened[at + 1]);
        if cues[i].seek is Some {
            assert(words[at + ahead - 1] == opened[at - 1]);
            assert(words[at + ahead - 2] == opened[at - 2]);
        }
    }
    assert forall|j: int, k: int|
        #![trigger moved[j], moved[k]]
        0 <= j < k < moved.len() implies moved[j] < moved[k] by {
        assert(places[j] < places[k]);
    }
    assert(opens(words, sources, cues, inputs, moved));
}

/// What an encoder's options say.
proof fn lemma_options(sources: Seq<SegmentSource>, encoding: AudioModel)
    ensures
        ({
            let words = encoder_options(sources, encoding);
            &&& says(words, "-map"@, "[out]"@)
            &&& says(words, "-c:a"@, encoding.encoder)
            &&& says(words, "-ar"@, decimal(encoding.sample_rate as nat))
            &&& says(words, "-ac"@, decimal(encoding.channels as nat))
            &&& encoding.kilobits matches Some(kilobits) ==> says(
                words,
                "-b:a"@,
                decimal(kilobits as nat) + "k"@,
            )
            &&& encoding.codec == "flac"@ ==> says(words, "-sample_fmt"@, "s32"@)
            &&& sources.len() == 1 ==> says(
                words,
                "-map_metadata:s:0"@,
                "0:s:"@ + decimal(sources[0].stream as nat),
            )
        }),
{
    let words = encoder_options(sources, encoding);
    assert(words[0] == "-map"@ && words[1] == "[out]"@);
    assert(words[2] == "-c:a"@ && words[3] == encoding.encoder);
    assert(words[4] == "-ar"@ && words[5] == decimal(encoding.sample_rate as nat));
    assert(words[6] == "-ac"@ && words[7] == decimal(encoding.channels as nat));
    let bits: int = match encoding.kilobits {
        Some(kilobits) => {
            assert(words[8] == "-b:a"@ && words[9] == decimal(kilobits as nat) + "k"@);
            10
        },
        None => 8,
    };
    let format: int = if encoding.codec == "flac"@ {
        assert(words[bits] == "-sample_fmt"@ && words[bits + 1] == "s32"@);
        bits + 2
    } else {
        bits
    };
    if sources.len() == 1 {
        assert(words[format] == "-map_metadata:s:0"@ && words[format + 1] == "0:s:"@ + decimal(
            sources[0].stream as nat,
        ));
    }
}

/// A segment's sound is as long as its pictures: its samples are its length in
/// the sequence's ticks, to the nearest sample; and a codec that primes is given
/// two frames of it more on either side.
pub proof fn encoded_sound_is_as_long_as_its_segment(
    segment: Segment,
    encoding: AudioModel,
    sequence: Rational,
)
    requires
        length_of(segment, encoding, sequence) is Some,
    ensures
        ({
            let (samples, preroll) = length_of(segment, encoding, sequence)->0;
            let exact = segment.length * sequence.num * encoding.sample_rate;
            &&& -sequence.den <= 2 * (exact - samples * sequence.den) < sequence.den
            &&& encoding.codec == "aac"@ ==> preroll == 2 * 1024
            &&& encoding.codec == "opus"@ && encoding.codec != "aac"@ ==> preroll == 2 * 960
            &&& encoding.codec == "mp3"@ && encoding.codec != "aac"@ && encoding.codec != "opus"@
                ==> preroll == 2 * 1152
            &&& encoding.codec != "mp3"@ && encoding.codec != "aac"@ && encoding.codec != "opus"@
                ==> preroll == 0
        }),
{
    let sample = Rational { num: 1, den: encoding.sample_rate as i64 };
    a_conversion_keeps_the_time(segment.length, sequence, sample, Rounding::Nearest);
    assert(sequence.den * 1 == sequence.den);
}

} // verus!
