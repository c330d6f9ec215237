//! The first pass of loudness normalisation: what is measured of a mix, in
//! which order, and what a measured gain does to a chain.
use crate::export::execute::ExportError;
use crate::export::plan::{ExportPlan, Media, Segment};
use crate::orchestrator::JobError;
use crate::project::AudioOperation;
use vstd::prelude::*;

verus! {

/// Where a segment belongs among the first `count` sorted ones.
pub open spec fn place_of(
    segments: Seq<Segment>,
    sorted: Seq<usize>,
    start: i64,
    count: int,
) -> int
    decreases count,
{
    if count <= 0 || segments[sorted[count - 1] as int].start <= start {
        count
    } else {
        place_of(segments, sorted, start, count - 1)
    }
}

/// The places of the segments of sound among the first `count`, by their
/// start.
pub open spec fn sound_order(segments: Seq<Segment>, count: int) -> Seq<usize>
    decreases count,
{
    if count <= 0 {
        Seq::empty()
    } else {
        let sorted = sound_order(segments, count - 1);
        if segments[count - 1].media == Media::Audio {
            sorted.insert(
                place_of(segments, sorted, segments[count - 1].start, sorted.len() as int),
                (count - 1) as usize,
            )
        } else {
            sorted
        }
    }
}

/// The order in which a plan's segments of sound are rendered to be measured
/// as one programme: by their start.
pub fn order_of(plan: &ExportPlan) -> (order: Vec<usize>)
    ensures
        order@ == sound_order(plan.segments@, plan.segments@.len() as int),
{
    let segments = &plan.segments;
    let mut order: Vec<usize> = Vec::new();
    let mut i: usize = 0;
    while i < segments.len()
        invariant
            i <= segments@.len(),
            order@ == sound_order(segments@, i as int),
            forall|k: int| 0 <= k < order@.len() ==> #[trigger] order@[k] < i,
        decreases segments@.len() - i,
    {
        if segments[i].media == Media::Audio {
            let start = segments[i].start;
            let mut at: usize = order.len();
            while at > 0 && segments[order[at - 1]].start > start
                invariant
                    at <= order@.len(),
                    i < segments@.len(),
                    forall|k: int| 0 <= k < order@.len() ==> #[trigger] order@[k] < i,
                    place_of(segments@, order@, start, order@.len() as int) == place_of(
                        segments@,
                        order@,
                        start,
                        at as int,
                    ),
                decreases at,
            {
                at -= 1;
            }
            let ghost before = order@;
            order.insert(at, i);
            proof {
                assert forall|k: int| 0 <= k < order@.len() implies #[trigger] order@[k] <= i by {
                    if k < at {
                        assert(order@[k] == before[k]);
                    } else if k > at {
                        assert(order@[k] == before[k - 1]);
                    }
                }
            }
        }
        i += 1;
    }
    order
}

/// Samples of four bytes, out of chunks that end anywhere.
#[derive(Debug)]
pub struct Samples {
    /// The start of a sample whose end has not come.
    pub pending: Vec<u8>,
}

/// The whole samples of some bytes.
pub open spec fn samples_of(bytes: Seq<u8>) -> Seq<[u8; 4]>
    decreases bytes.len(),
{
    if bytes.len() < 4 {
        Seq::empty()
    } else {
        seq![[bytes[0], bytes[1], bytes[2], bytes[3]]] + samples_of(bytes.skip(4))
    }
}

/// The bytes behind the whole samples.
pub open spec fn rest_of(bytes: Seq<u8>) -> Seq<u8>
    decreases bytes.len(),
{
    if bytes.len() < 4 {
        bytes
    } else {
        rest_of(bytes.skip(4))
    }
}

impl Samples {
    /// No bytes yet.
    pub fn new() -> (samples: Samples)
        ensures
            samples.pending@.len() == 0,
    {
        Samples { pending: Vec::new() }
    }

    /// Take a chunk: the samples that are whole now.
    pub fn take(&mut self, chunk: &[u8]) -> (list: Vec<[u8; 4]>)
        ensures
            list@ == samples_of(old(self).pending@ + chunk@),
            final(self).pending@ == rest_of(old(self).pending@ + chunk@),
    {
        crate::bytes::push_all(&mut self.pending, chunk);
        let ghost all = self.pending@;
        let mut list: Vec<[u8; 4]> = Vec::new();
        let mut at: usize = 0;
        proof {
            assert(all.skip(0) =~= all);
            assert(list@ + samples_of(all) =~= samples_of(all));
        }
        while self.pending.len() - at >= 4
            invariant
                at <= self.pending@.len(),
                self.pending@ == all,
                list@ + samples_of(all.skip(at as int)) == samples_of(all),
                rest_of(all.skip(at as int)) == rest_of(all),
            decreases self.pending@.len() - at,
        {
            let sample = [
                self.pending[at],
                self.pending[at + 1],
                self.pending[at + 2],
                self.pending[at + 3],
            ];
            let ghost here = all.skip(at as int);
            let ghost held = list@;
            list.push(sample);
            proof {
                assert(here[0] == all[at as int] && here[1] == all[at + 1] && here[2] == all[at + 2]
                    && here[3] == all[at + 3]);
                assert(here.skip(4) =~= all.skip(at + 4));
                let first = [here[0], here[1], here[2], here[3]];
                assert(sample@ =~= first@);
                assert(sample =~= first);
                let rest = samples_of(all.skip(at + 4));
                assert(held + (seq![first] + rest) =~= list@ + rest);
            }
            at += 4;
        }
        let mut pending: Vec<u8> = Vec::new();
        crate::bytes::push_all(
            &mut pending,
            vstd::slice::slice_subrange(&self.pending, at, self.pending.len()),
        );
        self.pending = pending;
        proof {
            let last = all.skip(at as int);
            assert(self.pending@ =~= last);
            assert(samples_of(last) =~= Seq::empty());
            assert(list@ =~= samples_of(all));
        }
        list
    }
}

/// Where the chunks end decides nothing: two chunks give the samples that they
/// would give in one.
pub proof fn chunk_ends_decide_nothing(first: Seq<u8>, second: Seq<u8>)
    ensures
        samples_of(first) + samples_of(rest_of(first) + second) == samples_of(first + second),
        rest_of(rest_of(first) + second) == rest_of(first + second),
    decreases first.len(),
{
    if first.len() >= 4 {
        let more = first.skip(4);
        chunk_ends_decide_nothing(more, second);
        let both = first + second;
        assert(both.skip(4) =~= more + second);
        assert(both[0] == first[0] && both[1] == first[1] && both[2] == first[2] && both[3]
            == first[3]);
        let sample = [first[0], first[1], first[2], first[3]];
        assert(seq![sample] + samples_of(more) + samples_of(rest_of(more) + second) =~= seq![sample]
            + (samples_of(more) + samples_of(rest_of(more) + second)));
    } else {
        assert(samples_of(first) + samples_of(first + second) =~= samples_of(first + second));
    }
}

/// A normalisation that is applied, and whose gain is not measured yet.
pub open spec fn unresolved(step: AudioOperation) -> bool {
    step matches AudioOperation::Normalise { gain: None, bypassed: false, .. }
}

/// A step as it runs once its normalisation is brought to `gain`.
pub open spec fn resolved(step: AudioOperation, gain: String) -> AudioOperation {
    match step {
        AudioOperation::Normalise { target, ceiling, gain: None, bypassed: false } => {
            AudioOperation::Normalise { target, ceiling, gain: Some(gain), bypassed: false }
        },
        other => other,
    }
}

/// `chain` as it runs with its normalisation at `gain`, where that was not
/// measured before.
pub fn with_gain(chain: &Vec<AudioOperation>, gain: &String) -> (after: Vec<AudioOperation>)
    ensures
        after@ == Seq::new(chain@.len(), |i: int| resolved(chain@[i], *gain)),
{
    let mut after: Vec<AudioOperation> = Vec::new();
    let mut i: usize = 0;
    while i < chain.len()
        invariant
            i <= chain@.len(),
            after@ == Seq::new(i as nat, |j: int| resolved(chain@[j], *gain)),
        decreases chain@.len() - i,
    {
        let step = match &chain[i] {
            AudioOperation::Normalise { target, ceiling, gain: None, bypassed: false } => {
                AudioOperation::Normalise {
                    target: target.clone(),
                    ceiling: ceiling.clone(),
                    gain: Some(gain.clone()),
                    bypassed: false,
                }
            },
            other => other.copy(),
        };
        after.push(step);
        i += 1;
    }
    after
}

/// A gain, once resolved, stays: nothing is left to resolve, and resolving
/// again, to whatever gain, changes nothing.
pub proof fn a_resolved_gain_is_kept(chain: Seq<AudioOperation>, gain: String, later: String)
    ensures
        ({
            let once = Seq::new(chain.len(), |i: int| resolved(chain[i], gain));
            &&& forall|i: int| 0 <= i < once.len() ==> !unresolved(#[trigger] once[i])
            &&& Seq::new(once.len(), |i: int| resolved(once[i], later)) == once
        }),
{
    let once = Seq::new(chain.len(), |i: int| resolved(chain[i], gain));
    assert(Seq::new(once.len(), |i: int| resolved(once[i], later)) =~= once);
}

/// What the first normalisation at `from` or behind that is applied aims for:
/// its target and its ceiling.
pub open spec fn aim_from(chain: Seq<AudioOperation>, from: int) -> Option<(Seq<char>, Seq<char>)>
    decreases chain.len() - from,
{
    if from < 0 || from >= chain.len() {
        None
    } else {
        match chain[from] {
            AudioOperation::Normalise { target, ceiling, bypassed: false, .. } => {
                Some((target@, ceiling@))
            },
            _ => aim_from(chain, from + 1),
        }
    }
}

/// What a clip's own normalisation aims for, its target and its ceiling:
/// nothing for a clip that is not normalised.
pub fn aim(chain: &Vec<AudioOperation>) -> (aim: Option<(String, String)>)
    ensures
        match aim_from(chain@, 0) {
            None => aim is None,
            Some((target, ceiling)) => aim matches Some(aim) && aim.0@ == target && aim.1@
                == ceiling,
        },
{
    let mut i: usize = 0;
    while i < chain.len()
        invariant
            i <= chain@.len(),
            aim_from(chain@, 0) == aim_from(chain@, i as int),
        decreases chain@.len() - i,
    {
        if let AudioOperation::Normalise { target, ceiling, bypassed: false, .. } = &chain[i] {
            return Some((target.clone(), ceiling.clone()));
        }
        i += 1;
    }
    None
}

/// Why a normalisation has no gain.
#[derive(Debug, PartialEq, Eq)]
pub enum Unresolved {
    /// Only what is measured was asked for, and this is not.
    NotMeasured,
    Failed(ExportError),
}

/// The gain that a clip is planned with, out of what was found of it: none for
/// a clip without sound. Where only what is measured is asked for, a
/// normalisation that is not is left as it is.
pub fn gain_of(found: Result<Option<String>, Unresolved>, only_measured: bool) -> (gain: Result<
    Option<String>,
    Unresolved,
>)
    ensures
        gain == (if only_measured && found == Err::<Option<String>, Unresolved>(
            Unresolved::NotMeasured,
        ) {
            Ok(None)
        } else {
            found
        }),
{
    match found {
        Err(Unresolved::NotMeasured) => if only_measured {
            Ok(None)
        } else {
            Err(Unresolved::NotMeasured)
        },
        other => other,
    }
}

/// Why a measurement gave nothing.
#[derive(Debug, PartialEq, Eq)]
pub enum MeasureError {
    Cancelled,
    Failed(String),
}

/// What a measurement that gave nothing is to an export.
pub fn measure_error(error: MeasureError) -> (result: ExportError)
    ensures
        result == (match error {
            MeasureError::Cancelled => ExportError::Cancelled,
            MeasureError::Failed(reason) => ExportError::Mismatch(reason),
        }),
{
    match error {
        MeasureError::Cancelled => ExportError::Cancelled,
        MeasureError::Failed(reason) => ExportError::Mismatch(reason),
    }
}

/// What a render that failed is to an export.
pub fn render_error(error: JobError) -> (result: ExportError)
    ensures
        result == (match error {
            JobError::Cancelled | JobError::ShuttingDown => ExportError::Cancelled,
            other => ExportError::Engine(other),
        }),
{
    match error {
        JobError::Cancelled => ExportError::Cancelled,
        JobError::ShuttingDown => ExportError::Cancelled,
        other => ExportError::Engine(other),
    }
}

/// The sound of a plan is measured in the order it plays in: every segment of
/// sound once, no other, none before one that starts earlier.
pub proof fn sound_is_measured_in_order(segments: Seq<Segment>, count: int, i: int)
    requires
        0 <= i < count <= segments.len() <= usize::MAX,
    ensures
        ({
            let order = sound_order(segments, count);
            &&& forall|k: int|
                0 <= k < order.len() ==> (#[trigger] order[k]) < count && segments[order[k]
                    as int].media == Media::Audio
            &&& segments[i].media == Media::Audio ==> order.contains(i as usize)
            &&& forall|a: int, b: int|
                0 <= a < b < order.len() ==> segments[#[trigger] order[a] as int].start
                    <= segments[#[trigger] order[b] as int].start && order[a] != order[b]
        }),
    decreases count,
{
    lemma_order(segments, count);
    let before = sound_order(segments, count - 1);
    let order = sound_order(segments, count);
    lemma_order(segments, count - 1);
    if segments[i].media == Media::Audio {
        let at = place_of(segments, before, segments[count - 1].start, before.len() as int);
        lemma_place(segments, before, segments[count - 1].start, before.len() as int);
        if i < count - 1 {
            sound_is_measured_in_order(segments, count - 1, i);
            let k = choose|k: int| 0 <= k < before.len() && before[k] == i as usize;
            if segments[count - 1].media == Media::Audio {
                if k < at {
                    assert(order[k] == before[k]);
                } else {
                    assert(order[k + 1] == before[k]);
                }
            }
        } else {
            assert(order[at] == (count - 1) as usize);
        }
    }
}

proof fn lemma_order(segments: Seq<Segment>, count: int)
    requires
        0 <= count <= segments.len() <= usize::MAX,
    ensures
        ({
            let order = sound_order(segments, count);
            &&& forall|k: int|
                0 <= k < order.len() ==> (#[trigger] order[k]) < count && segments[order[k]
                    as int].media == Media::Audio
            &&& forall|a: int, b: int|
                0 <= a < b < order.len() ==> segments[#[trigger] order[a] as int].start
                    <= segments[#[trigger] order[b] as int].start && order[a] != order[b]
        }),
    decreases count,
{
    if count > 0 {
        lemma_order(segments, count - 1);
        let before = sound_order(segments, count - 1);
        let order = sound_order(segments, count);
        let added = (count - 1) as usize;
        if segments[count - 1].media == Media::Audio {
            let at = place_of(segments, before, segments[count - 1].start, before.len() as int);
            lemma_place(segments, before, segments[count - 1].start, before.len() as int);
            assert(order[at] == added);
            assert forall|k: int| 0 <= k < order.len() implies (#[trigger] order[k]) < count
                && segments[order[k] as int].media == Media::Audio by {
                if k < at {
                    assert(order[k] == before[k]);
                } else if k > at {
                    assert(order[k] == before[k - 1]);
                }
            }
            assert forall|a: int, b: int| 0 <= a < b < order.len() implies segments[
            #[trigger] order[a] as int].start <= segments[#[trigger] order[b] as int].start
                && order[a] != order[b] by {
                if a < at {
                    assert(order[a] == before[a]);
                } else if a > at {
                    assert(order[a] == before[a - 1]);
                }
                if b < at {
                    assert(order[b] == before[b]);
                } else if b > at {
                    assert(order[b] == before[b - 1]);
                }
            }
        }
    }
}

proof fn lemma_place(segments: Seq<Segment>, sorted: Seq<usize>, start: i64, count: int)
    requires
        0 <= count <= sorted.len(),
        forall|a: int, b: int|
            0 <= a < b < sorted.len() ==> segments[#[trigger] sorted[a] as int].start <= segments[
            #[trigger] sorted[b] as int].start,
    ensures
        ({
            let at = place_of(segments, sorted, start, count);
            &&& 0 <= at <= count
            &&& forall|k: int|
                0 <= k < at ==> segments[#[trigger] sorted[k] as int].start <= start
            &&& forall|k: int|
                at <= k < count ==> segments[#[trigger] sorted[k] as int].start > start
        }),
    decreases count,
{
    if count > 0 && segments[sorted[count - 1] as int].start > start {
        lemma_place(segments, sorted, start, count - 1);
    } else if count > 0 {
        assert forall|k: int| 0 <= k < count implies segments[#[trigger] sorted[k] as int].start
            <= start by {
            if k < count - 1 {
                assert(segments[sorted[k] as int].start <= segments[sorted[count - 1] as int].start);
            }
        }
    }
}

/// Only a normalisation without its gain gets one; its target and ceiling stay,
/// and so does every other step.
pub proof fn only_a_missing_gain_is_found(step: AudioOperation, gain: String)
    ensures
        step matches AudioOperation::Normalise { target, ceiling, gain: None, bypassed: false }
            ==> resolved(step, gain) == (AudioOperation::Normalise {
            target,
            ceiling,
            gain: Some(gain),
            bypassed: false,
        }),
        step is Gain || step is Denoise ==> resolved(step, gain) == step,
        step matches AudioOperation::Normalise { gain: known, bypassed, .. } ==> (known is Some
            || bypassed ==> resolved(step, gain) == step),
{
}

/// What a chain aims for is what its first normalisation that applies asks for.
pub proof fn a_chain_aims_for_its_first_target(chain: Seq<AudioOperation>, from: int, at: int)
    requires
        0 <= from <= at <= chain.len(),
        forall|k: int|
            from <= k < at ==> !(#[trigger] chain[k] matches AudioOperation::Normalise {
                bypassed: false,
                ..
            }),
    ensures
        at == chain.len() ==> aim_from(chain, from) is None,
        at < chain.len() ==> (chain[at] matches AudioOperation::Normalise {
            target,
            ceiling,
            gain,
            bypassed: false,
        } ==> aim_from(chain, from) == Some((target@, ceiling@))),
    decreases at - from,
{
    if from < at {
        assert(!(chain[from] matches AudioOperation::Normalise { bypassed: false, .. }));
        a_chain_aims_for_its_first_target(chain, from + 1, at);
    }
}

/// A sample is its own four bytes, and no byte is lost: what comes out and what
/// is left over are what went in.
pub proof fn a_sample_is_its_own_bytes(bytes: Seq<u8>, i: int)
    requires
        0 <= i < samples_of(bytes).len(),
    ensures
        samples_of(bytes)[i] == [
            bytes[4 * i],
            bytes[4 * i + 1],
            bytes[4 * i + 2],
            bytes[4 * i + 3],
        ],
        4 * samples_of(bytes).len() + rest_of(bytes).len() == bytes.len(),
        rest_of(bytes).len() < 4,
        rest_of(bytes) == bytes.skip(4 * samples_of(bytes).len() as int),
    decreases bytes.len(),
{
    if bytes.len() >= 4 {
        let rest = bytes.skip(4);
        lemma_samples(rest);
        assert(rest.skip(4 * samples_of(rest).len() as int) =~= bytes.skip(
            4 * samples_of(bytes).len() as int,
        ));
        if i > 0 {
            a_sample_is_its_own_bytes(rest, i - 1);
            assert(samples_of(bytes)[i] == samples_of(rest)[i - 1]);
        }
    }
}

proof fn lemma_samples(bytes: Seq<u8>)
    ensures
        4 * samples_of(bytes).len() + rest_of(bytes).len() == bytes.len(),
        rest_of(bytes).len() < 4,
        rest_of(bytes) == bytes.skip(4 * samples_of(bytes).len() as int),
    decreases bytes.len(),
{
    if bytes.len() >= 4 {
        let rest = bytes.skip(4);
        lemma_samples(rest);
        assert(rest.skip(4 * samples_of(rest).len() as int) =~= bytes.skip(
            4 * samples_of(bytes).len() as int,
        ));
    } else {
        assert(bytes.skip(0) =~= bytes);
    }
}

} // verus!
