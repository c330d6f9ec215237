//! One stream, one set of encoding parameters: what the output's copied
//! packets share.
use crate::export::plan::cut::{are_seams, only_seams};
use crate::export::plan::{
    causes_in, segments_in, Cause, CauseModel, EncodingModel, EncodingSignature, Segment,
    SegmentModel,
};
use crate::project::SourceId;
use vstd::prelude::*;

verus! {

/// What a list of signatures says: nothing where there is no stream to copy.
pub open spec fn signatures_in(signatures: Seq<Option<&EncodingSignature>>) -> Seq<
    Option<EncodingModel>,
> {
    signatures.map_values(
        |signature: Option<&EncodingSignature>|
            match signature {
                Some(signature) => Some(signature@),
                None => None,
            },
    )
}

/// The `i`th segment could be copied, as far as its own causes go.
pub open spec fn is_candidate(
    segments: Seq<SegmentModel>,
    signatures: Seq<Option<EncodingModel>>,
    i: int,
) -> bool {
    0 <= i < segments.len() && signatures[i] is Some && only_seams(segments[i].causes)
}

/// How many frames of the first `count` segments could be copied with one
/// set of parameters.
pub open spec fn weight(
    segments: Seq<SegmentModel>,
    signatures: Seq<Option<EncodingModel>>,
    signature: EncodingModel,
    count: int,
) -> int
    decreases count,
{
    if count <= 0 {
        0
    } else {
        weight(segments, signatures, signature, count - 1) + (if is_candidate(
            segments,
            signatures,
            count - 1,
        ) && signatures[count - 1]->0 == signature {
            segments[count - 1].length as int
        } else {
            0
        })
    }
}

/// The weight of the parameters of the `i`th segment.
pub open spec fn weight_of(
    segments: Seq<SegmentModel>,
    signatures: Seq<Option<EncodingModel>>,
    i: int,
) -> int {
    weight(segments, signatures, signatures[i]->0, segments.len() as int)
}

/// The output takes the parameters of the `i`th segment: no candidate's cover
/// more of it, and no earlier candidate's as much.
pub open spec fn is_reference(
    segments: Seq<SegmentModel>,
    signatures: Seq<Option<EncodingModel>>,
    i: int,
) -> bool {
    &&& is_candidate(segments, signatures, i)
    &&& forall|j: int|
        #[trigger] is_candidate(segments, signatures, j) ==> weight_of(segments, signatures, j)
            <= weight_of(segments, signatures, i) && (j < i ==> weight_of(segments, signatures, j)
            < weight_of(segments, signatures, i))
}

/// The segment whose parameters the output takes.
pub open spec fn reference_of(
    segments: Seq<SegmentModel>,
    signatures: Seq<Option<EncodingModel>>,
) -> Option<int> {
    if exists|i: int| is_candidate(segments, signatures, i) {
        Some(choose|i: int| is_reference(segments, signatures, i))
    } else {
        None
    }
}

/// The source a segment takes its pictures or sound from.
pub open spec fn first_source(segment: SegmentModel) -> SourceId {
    if segment.sources.len() > 0 {
        segment.sources[0].source
    } else {
        0
    }
}

/// A segment beside a reference: one that could be copied and was encoded
/// differently is re-encoded, and says in which fields it differs.
pub open spec fn held_to(
    segment: SegmentModel,
    signature: Option<EncodingModel>,
    reference: EncodingModel,
    source: SourceId,
) -> SegmentModel {
    if signature is Some && only_seams(segment.causes) && signature->0.differences(reference).len()
        > 0 {
        SegmentModel {
            causes: segment.causes.push(
                CauseModel::IncompatibleEncoding {
                    reference: source,
                    fields: signature->0.differences(reference),
                },
            ),
            ..segment
        }
    } else {
        segment
    }
}

/// All segments beside the reference.
pub open spec fn shared(
    segments: Seq<SegmentModel>,
    signatures: Seq<Option<EncodingModel>>,
) -> Seq<SegmentModel> {
    match reference_of(segments, signatures) {
        None => segments,
        Some(r) => Seq::new(
            segments.len(),
            |i: int|
                held_to(segments[i], signatures[i], signatures[r]->0, first_source(segments[r])),
        ),
    }
}

/// The source whose parameters the output takes.
pub open spec fn shared_source(
    segments: Seq<SegmentModel>,
    signatures: Seq<Option<EncodingModel>>,
) -> Option<SourceId> {
    match reference_of(segments, signatures) {
        None => None,
        Some(r) => Some(first_source(segments[r])),
    }
}

/// The frames of the first `count` segments.
pub open spec fn frames(segments: Seq<SegmentModel>, count: int) -> int
    decreases count,
{
    if count <= 0 {
        0
    } else {
        frames(segments, count - 1) + segments[count - 1].length
    }
}

/// No segment is of negative length, and all together are not too many.
pub open spec fn lengths_fit(segments: Seq<SegmentModel>) -> bool {
    &&& forall|i: int| 0 <= i < segments.len() ==> (#[trigger] segments[i]).length >= 0
    &&& frames(segments, segments.len() as int) <= i64::MAX
}

/// Fewer segments hold no more frames.
proof fn lemma_frames(segments: Seq<SegmentModel>, some: int, more: int)
    requires
        0 <= some <= more <= segments.len(),
        forall|i: int| 0 <= i < segments.len() ==> (#[trigger] segments[i]).length >= 0,
    ensures
        0 <= frames(segments, some) <= frames(segments, more),
    decreases more,
{
    if some < more {
        lemma_frames(segments, some, more - 1);
        assert(segments[more - 1].length >= 0);
    } else if more > 0 {
        lemma_frames(segments, some - 1, more - 1);
        assert(segments[more - 1].length >= 0);
    }
}

/// No parameters weigh more than all segments together.
proof fn lemma_weight(
    segments: Seq<SegmentModel>,
    signatures: Seq<Option<EncodingModel>>,
    signature: EncodingModel,
    count: int,
)
    requires
        0 <= count <= segments.len(),
        forall|i: int| 0 <= i < segments.len() ==> (#[trigger] segments[i]).length >= 0,
    ensures
        0 <= weight(segments, signatures, signature, count) <= frames(segments, count),
    decreases count,
{
    if count > 0 {
        lemma_weight(segments, signatures, signature, count - 1);
        assert(segments[count - 1].length >= 0);
    }
}

/// Only one segment is the reference.
proof fn lemma_reference(
    segments: Seq<SegmentModel>,
    signatures: Seq<Option<EncodingModel>>,
    i: int,
)
    requires
        is_reference(segments, signatures, i),
    ensures
        reference_of(segments, signatures) == Some(i),
{
    assert(is_candidate(segments, signatures, i));
    let r = choose|r: int| is_reference(segments, signatures, r);
    assert(is_reference(segments, signatures, r));
    assert(is_candidate(segments, signatures, r));
}

/// Parameters, by the first segment that has them, and their weight.
struct Weighed {
    first: usize,
    total: i64,
}

/// What was weighed of the first `count` segments: every candidate's
/// parameters once, by the first that has them, in order.
spec fn weighed(
    segments: Seq<SegmentModel>,
    signatures: Seq<Option<EncodingModel>>,
    entries: Seq<Weighed>,
    count: int,
) -> bool {
    &&& forall|e: int|
        0 <= e < entries.len() ==> {
            let entry = #[trigger] entries[e];
            &&& entry.first < count
            &&& is_candidate(segments, signatures, entry.first as int)
            &&& entry.total == weight(
                segments,
                signatures,
                signatures[entry.first as int]->0,
                count,
            )
        }
    &&& forall|d: int, e: int|
        #![trigger entries[d], entries[e]]
        0 <= d < e < entries.len() ==> entries[d].first < entries[e].first
            && signatures[entries[d].first as int] != signatures[entries[e].first as int]
    &&& forall|j: int|
        0 <= j < count && #[trigger] is_candidate(segments, signatures, j) ==> exists|e: int|
            0 <= e < entries.len() && (#[trigger] entries[e]).first <= j
                && signatures[entries[e].first as int] == signatures[j]
}

/// The place of the entry whose first segment has the parameters of the `i`th,
/// or the end of the list.
fn entry_for(entries: &Vec<Weighed>, signatures: &Vec<Option<&EncodingSignature>>, i: usize) -> (at:
    usize)
    requires
        i < signatures@.len(),
        signatures@[i as int] is Some,
        forall|e: int|
            0 <= e < entries@.len() ==> (#[trigger] entries@[e]).first < signatures@.len()
                && signatures@[entries@[e].first as int] is Some,
    ensures
        at <= entries@.len(),
        at < entries@.len() ==> signatures_in(signatures@)[entries@[at as int].first as int]
            == signatures_in(signatures@)[i as int],
        forall|e: int|
            0 <= e < at ==> signatures_in(signatures@)[(#[trigger] entries@[e]).first as int]
                != signatures_in(signatures@)[i as int],
{
    let ghost said = signatures_in(signatures@);
    let mut at: usize = 0;
    while at < entries.len()
        invariant
            at <= entries@.len(),
            i < signatures@.len(),
            signatures@[i as int] is Some,
            said == signatures_in(signatures@),
            forall|e: int|
                0 <= e < entries@.len() ==> (#[trigger] entries@[e]).first < signatures@.len()
                    && signatures@[entries@[e].first as int] is Some,
            forall|e: int|
                0 <= e < at ==> said[(#[trigger] entries@[e]).first as int] != said[i as int],
        decreases entries@.len() - at,
    {
        let known = signatures[entries[at].first];
        let wanted = signatures[i];
        if let (Some(known), Some(wanted)) = (known, wanted) {
            let fields = wanted.differences(known);
            proof {
                crate::export::plan::signatures_differ_unless_they_are_the_same(wanted@, known@);
                assert(said[entries@[at as int].first as int] == Some(known@));
                assert(said[i as int] == Some(wanted@));
            }
            if fields.len() == 0 {
                return at;
            }
        }
        at += 1;
    }
    at
}

/// Weigh the parameters of every candidate.
fn weigh(segments: &Vec<Segment>, signatures: &Vec<Option<&EncodingSignature>>) -> (entries: Vec<
    Weighed,
>)
    requires
        segments@.len() == signatures@.len(),
        lengths_fit(segments_in(segments@)),
    ensures
        weighed(
            segments_in(segments@),
            signatures_in(signatures@),
            entries@,
            segments@.len() as int,
        ),
{
    let ghost all = segments_in(segments@);
    let ghost said = signatures_in(signatures@);
    let mut entries: Vec<Weighed> = Vec::new();
    let mut i: usize = 0;
    while i < segments.len()
        invariant
            i <= segments@.len(),
            segments@.len() == signatures@.len(),
            all == segments_in(segments@),
            said == signatures_in(signatures@),
            lengths_fit(all),
            weighed(all, said, entries@, i as int),
        decreases segments@.len() - i,
    {
        let ghost before = entries@;
        assert(all[i as int] == segments@[i as int]@);
        let candidate = match signatures[i] {
            Some(_) => are_seams(&segments[i].causes),
            None => false,
        };
        assert(candidate == is_candidate(all, said, i as int));
        if candidate {
            assert forall|e: int| 0 <= e < entries@.len() implies (#[trigger] entries@[e]).first
                < signatures@.len() && signatures@[entries@[e].first as int] is Some by {
                assert(is_candidate(all, said, entries@[e].first as int));
                assert(said[entries@[e].first as int] is Some);
            }
            let at = entry_for(&entries, signatures, i);
            let length = segments[i].length;
            proof {
                lemma_weight(all, said, said[i as int]->0, i + 1);
                lemma_frames(all, i + 1, all.len() as int);
                assert(weight(all, said, said[i as int]->0, i + 1) == weight(
                    all,
                    said,
                    said[i as int]->0,
                    i as int,
                ) + length);
            }
            if at < entries.len() {
                let first = entries[at].first;
                let total = entries[at].total + length;
                entries.set(at, Weighed { first, total });
                proof {
                    assert forall|e: int| 0 <= e < entries@.len() implies {
                        let entry = #[trigger] entries@[e];
                        &&& entry.first < i + 1
                        &&& is_candidate(all, said, entry.first as int)
                        &&& entry.total == weight(all, said, said[entry.first as int]->0, i + 1)
                    } by {
                        assert(is_candidate(all, said, before[e].first as int));
                        if e != at {
                            assert(said[before[e].first as int] != said[before[at as int].first as int]);
                        }
                    }
                    assert forall|j: int|
                        0 <= j < i + 1 && #[trigger] is_candidate(all, said, j) implies exists|
                        e: int,
                    |
                        0 <= e < entries@.len() && (#[trigger] entries@[e]).first <= j
                            && said[entries@[e].first as int] == said[j] by {
                        if j < i {
                            let e = choose|e: int|
                                0 <= e < before.len() && (#[trigger] before[e]).first <= j
                                    && said[before[e].first as int] == said[j];
                            assert(entries@[e].first == before[e].first);
                        } else {
                            assert(entries@[at as int].first == before[at as int].first);
                        }
                    }
                }
            } else {
                proof {
                    // No earlier candidate has these parameters.
                    assert forall|j: int| 0 <= j < i implies !(#[trigger] is_candidate(all, said, j)
                        && said[j] == said[i as int]) by {
                        if is_candidate(all, said, j) && said[j] == said[i as int] {
                            let e = choose|e: int|
                                0 <= e < before.len() && (#[trigger] before[e]).first <= j
                                    && said[before[e].first as int] == said[j];
                            assert(false);
                        }
                    }
                    lemma_no_weight(all, said, said[i as int]->0, i as int);
                }
                entries.push(Weighed { first: i, total: length });
                proof {
                    assert forall|e: int| 0 <= e < entries@.len() implies {
                        let entry = #[trigger] entries@[e];
                        &&& entry.first < i + 1
                        &&& is_candidate(all, said, entry.first as int)
                        &&& entry.total == weight(all, said, said[entry.first as int]->0, i + 1)
                    } by {
                        if e < before.len() {
                            assert(entries@[e] == before[e]);
                            assert(is_candidate(all, said, before[e].first as int));
                            assert(said[before[e].first as int] != said[i as int]);
                        }
                    }
                    assert forall|d: int, e: int|
                        #![trigger entries@[d], entries@[e]]
                        0 <= d < e < entries@.len() implies entries@[d].first < entries@[e].first
                        && said[entries@[d].first as int] != said[entries@[e].first as int] by {
                        assert(entries@[d] == before[d]);
                        if e < before.len() {
                            assert(entries@[e] == before[e]);
                        }
                    }
                    assert forall|j: int|
                        0 <= j < i + 1 && #[trigger] is_candidate(all, said, j) implies exists|
                        e: int,
                    |
                        0 <= e < entries@.len() && (#[trigger] entries@[e]).first <= j
                            && said[entries@[e].first as int] == said[j] by {
                        if j < i {
                            let e = choose|e: int|
                                0 <= e < before.len() && (#[trigger] before[e]).first <= j
                                    && said[before[e].first as int] == said[j];
                            assert(entries@[e] == before[e]);
                        } else {
                            assert(entries@[before.len() as int].first == i);
                        }
                    }
                }
            }
        }
        i += 1;
    }
    entries
}

/// Parameters that no candidate has weigh nothing.
proof fn lemma_no_weight(
    segments: Seq<SegmentModel>,
    signatures: Seq<Option<EncodingModel>>,
    signature: EncodingModel,
    count: int,
)
    requires
        0 <= count <= segments.len(),
        forall|j: int|
            0 <= j < count ==> !(#[trigger] is_candidate(segments, signatures, j)
                && signatures[j] == Some(signature)),
    ensures
        weight(segments, signatures, signature, count) == 0,
    decreases count,
{
    if count > 0 {
        assert(!(is_candidate(segments, signatures, count - 1) && signatures[count - 1] == Some(
            signature,
        )));
        lemma_no_weight(segments, signatures, signature, count - 1);
    }
}

/// The segment whose parameters the output takes.
fn find_reference(segments: &Vec<Segment>, signatures: &Vec<Option<&EncodingSignature>>) -> (place:
    Option<usize>)
    requires
        segments@.len() == signatures@.len(),
        lengths_fit(segments_in(segments@)),
    ensures
        match reference_of(segments_in(segments@), signatures_in(signatures@)) {
            Some(r) => place is Some && place->0 == r && is_reference(
                segments_in(segments@),
                signatures_in(signatures@),
                r,
            ),
            None => place is None,
        },
{
    let ghost all = segments_in(segments@);
    let ghost said = signatures_in(signatures@);
    let entries = weigh(segments, signatures);
    if entries.len() == 0 {
        proof {
            assert forall|i: int| !#[trigger] is_candidate(all, said, i) by {
                if is_candidate(all, said, i) {
                    let e = choose|e: int|
                        0 <= e < entries@.len() && (#[trigger] entries@[e]).first <= i
                            && said[entries@[e].first as int] == said[i];
                    assert(false);
                }
            }
        }
        return None;
    }
    let mut best: usize = 0;
    let mut e: usize = 1;
    while e < entries.len()
        invariant
            best < e <= entries@.len(),
            forall|d: int| 0 <= d < e ==> (#[trigger] entries@[d]).total <= entries@[best as int].total,
            forall|d: int| 0 <= d < best ==> (#[trigger] entries@[d]).total < entries@[best as int].total,
        decreases entries@.len() - e,
    {
        if entries[e].total > entries[best].total {
            best = e;
        }
        e += 1;
    }
    let r = entries[best].first;
    proof {
        assert(is_candidate(all, said, r as int));
        assert forall|j: int| #[trigger] is_candidate(all, said, j) implies weight_of(all, said, j)
            <= weight_of(all, said, r as int) && (j < r ==> weight_of(all, said, j) < weight_of(
            all,
            said,
            r as int,
        )) by {
            let d = choose|d: int|
                0 <= d < entries@.len() && (#[trigger] entries@[d]).first <= j
                    && said[entries@[d].first as int] == said[j];
            assert(entries@[d].total <= entries@[best as int].total);
            if j < r {
                if d > best {
                    assert(entries@[best as int].first < entries@[d].first);
                }
                assert(d < best);
            }
        }
        assert(is_reference(all, said, r as int));
        lemma_reference(all, said, r as int);
    }
    Some(r)
}

/// The output takes the encoding parameters of the copied material that
/// covers most of it; every other copy candidate is re-encoded to match, with
/// the fields that differ named. Ties go to the earlier material.
pub fn share_encoding(
    segments: &mut Vec<Segment>,
    signatures: &Vec<Option<&EncodingSignature>>,
) -> (source: Option<SourceId>)
    requires
        old(segments)@.len() == signatures@.len(),
        lengths_fit(segments_in(old(segments)@)),
    ensures
        segments_in(final(segments)@) == shared(
            segments_in(old(segments)@),
            signatures_in(signatures@),
        ),
        source == shared_source(segments_in(old(segments)@), signatures_in(signatures@)),
{
    let ghost all = segments_in(segments@);
    let ghost said = signatures_in(signatures@);
    let r = find_reference(segments, signatures)?;
    let reference = match signatures[r] {
        Some(signature) => signature,
        None => {
            assert(said[r as int] is Some);
            return None;
        },
    };
    assert(said[r as int] == Some(reference@));
    assert(all[r as int] == segments@[r as int]@);
    let source = if segments[r].sources.len() > 0 {
        segments[r].sources[0].source
    } else {
        0
    };
    assert(source == first_source(all[r as int]));
    let mut i: usize = 0;
    while i < segments.len()
        invariant
            i <= segments@.len(),
            segments@.len() == signatures@.len() == all.len(),
            said == signatures_in(signatures@),
            said[r as int] == Some(reference@),
            r < all.len(),
            source == first_source(all[r as int]),
            forall|j: int|
                0 <= j < i ==> (#[trigger] segments@[j])@ == held_to(
                    all[j],
                    said[j],
                    reference@,
                    source,
                ),
            forall|j: int| i <= j < segments@.len() ==> (#[trigger] segments@[j])@ == all[j],
        decreases segments@.len() - i,
    {
        if let Some(signature) = signatures[i] {
            assert(said[i as int] == Some(signature@));
            assert(segments@[i as int]@ == all[i as int]);
            if are_seams(&segments[i].causes) {
                let fields = signature.differences(reference);
                if fields.len() > 0 {
                    let ghost before = segments@[i as int].causes@;
                    segments[i].causes.push(
                        Cause::IncompatibleEncoding { reference: source, fields },
                    );
                    proof {
                        assert(causes_in(segments@[i as int].causes@) =~= causes_in(before).push(
                            CauseModel::IncompatibleEncoding {
                                reference: source,
                                fields: fields@,
                            },
                        ));
                    }
                }
            }
        } else {
            assert(said[i as int] is None);
            assert(segments@[i as int]@ == all[i as int]);
        }
        i += 1;
    }
    proof {
        assert(segments_in(segments@) =~= shared(all, said));
    }
    Some(source)
}

/// The `i`th is the heaviest of the candidates among the first `count`
/// segments, and the first of those as heavy.
spec fn is_best(
    segments: Seq<SegmentModel>,
    signatures: Seq<Option<EncodingModel>>,
    i: int,
    count: int,
) -> bool {
    &&& is_candidate(segments, signatures, i)
    &&& i < count
    &&& forall|j: int|
        j < count && #[trigger] is_candidate(segments, signatures, j) ==> weight_of(
            segments,
            signatures,
            j,
        ) <= weight_of(segments, signatures, i) && (j < i ==> weight_of(segments, signatures, j)
            < weight_of(segments, signatures, i))
}

/// Among some candidates one is the heaviest.
proof fn lemma_some_is_best(
    segments: Seq<SegmentModel>,
    signatures: Seq<Option<EncodingModel>>,
    count: int,
)
    requires
        0 <= count <= segments.len(),
        exists|i: int| i < count && is_candidate(segments, signatures, i),
    ensures
        exists|i: int| is_best(segments, signatures, i, count),
    decreases count,
{
    let last = count - 1;
    if exists|i: int| i < last && is_candidate(segments, signatures, i) {
        lemma_some_is_best(segments, signatures, last);
        let b = choose|b: int| is_best(segments, signatures, b, last);
        if is_candidate(segments, signatures, last) && weight_of(segments, signatures, last)
            > weight_of(segments, signatures, b) {
            assert(is_best(segments, signatures, last, count));
        } else {
            assert(is_best(segments, signatures, b, count));
        }
    } else {
        let i = choose|i: int| i < count && is_candidate(segments, signatures, i);
        assert(is_best(segments, signatures, i, count));
    }
}

/// Two segments that stay copied, or cut smart, once the output's parameters
/// are shared were encoded with the same parameters: whatever joins in one
/// stream agrees in every field.
pub proof fn copied_segments_share_their_encoding(
    segments: Seq<SegmentModel>,
    signatures: Seq<Option<EncodingModel>>,
    i: int,
    j: int,
)
    requires
        segments.len() == signatures.len(),
        0 <= i < segments.len(),
        0 <= j < segments.len(),
        signatures[i] is Some,
        signatures[j] is Some,
        only_seams(shared(segments, signatures)[i].causes),
        only_seams(shared(segments, signatures)[j].causes),
    ensures
        signatures[i] == signatures[j],
{
    let candidate = exists|c: int| is_candidate(segments, signatures, c);
    if only_seams(segments[i].causes) {
        assert(is_candidate(segments, signatures, i));
    } else if candidate {
        assert(shared(segments, signatures)[i] == segments[i]);
    }
    assert(candidate);
    let n = segments.len() as int;
    lemma_some_is_best(segments, signatures, n);
    let r = choose|r: int| is_best(segments, signatures, r, n);
    assert(is_reference(segments, signatures, r));
    lemma_reference(segments, signatures, r);
    lemma_held(segments, signatures, r, i);
    lemma_held(segments, signatures, r, j);
}

/// A segment that stays a candidate has the reference's parameters.
proof fn lemma_held(
    segments: Seq<SegmentModel>,
    signatures: Seq<Option<EncodingModel>>,
    r: int,
    i: int,
)
    requires
        reference_of(segments, signatures) == Some(r),
        is_candidate(segments, signatures, r),
        segments.len() == signatures.len(),
        0 <= i < segments.len(),
        signatures[i] is Some,
        only_seams(shared(segments, signatures)[i].causes),
    ensures
        signatures[i] == signatures[r],
{
    let after = shared(segments, signatures)[i];
    crate::export::plan::signatures_differ_unless_they_are_the_same(
        signatures[i]->0,
        signatures[r]->0,
    );
    if !only_seams(segments[i].causes) {
        assert(after == segments[i]);
    } else if signatures[i]->0.differences(signatures[r]->0).len() > 0 {
        assert(!(after.causes.last().effect() is Seam));
        assert(after.causes[after.causes.len() - 1].effect() is Seam);
    }
}

/// A signature weighs as long as the segments that carry it and could be
/// copied: each one's length counts once, and no other's.
pub proof fn a_signature_weighs_what_could_be_copied(
    segments: Seq<SegmentModel>,
    signatures: Seq<Option<EncodingModel>>,
    signature: EncodingModel,
    count: int,
)
    requires
        0 <= count < segments.len(),
    ensures
        weight(segments, signatures, signature, 0) == 0,
        signatures[count] == Some(signature) && only_seams(segments[count].causes) ==> weight(
            segments,
            signatures,
            signature,
            count + 1,
        ) == weight(segments, signatures, signature, count) + segments[count].length,
        signatures[count] != Some(signature) || !only_seams(segments[count].causes) ==> weight(
            segments,
            signatures,
            signature,
            count + 1,
        ) == weight(segments, signatures, signature, count),
{
}

/// The most is copied: what every segment is held to is the encoding that the
/// longest time of what could be copied has, the earliest of those as long. A
/// segment that could be copied and differs from it names what differs, and no
/// other segment changes.
pub proof fn the_most_is_copied(
    segments: Seq<SegmentModel>,
    signatures: Seq<Option<EncodingModel>>,
    i: int,
)
    requires
        segments.len() == signatures.len(),
        0 <= i < segments.len(),
        signatures[i] is Some,
        only_seams(segments[i].causes),
    ensures
        exists|r: int|
            #![trigger signatures[r]]
            0 <= r < segments.len() && signatures[r] is Some && only_seams(segments[r].causes) && {
                let n = segments.len() as int;
                let reference = signatures[r]->0;
                let most = weight(segments, signatures, reference, n);
                let own = weight(segments, signatures, signatures[i]->0, n);
                let from = if segments[r].sources.len() > 0 {
                    segments[r].sources[0].source
                } else {
                    0
                };
                &&& own <= most && (i < r ==> own < most)
                &&& shared_source(segments, signatures) == Some(from)
                &&& signatures[i]->0.differences(reference).len() == 0 ==> shared(
                    segments,
                    signatures,
                )[i] == segments[i]
                &&& signatures[i]->0.differences(reference).len() > 0 ==> shared(
                    segments,
                    signatures,
                )[i] == (SegmentModel {
                    causes: segments[i].causes.push(
                        CauseModel::IncompatibleEncoding {
                            reference: from,
                            fields: signatures[i]->0.differences(reference),
                        },
                    ),
                    ..segments[i]
                })
                &&& forall|k: int|
                    0 <= k < segments.len() && (signatures[k] is None || !only_seams(
                        segments[k].causes,
                    )) ==> #[trigger] shared(segments, signatures)[k] == segments[k]
            },
{
    assert(is_candidate(segments, signatures, i));
    let n = segments.len() as int;
    lemma_some_is_best(segments, signatures, n);
    let r = choose|r: int| is_best(segments, signatures, r, n);
    assert(is_reference(segments, signatures, r));
    lemma_reference(segments, signatures, r);
    assert(is_candidate(segments, signatures, r));
    assert(signatures[r] is Some);
}

} // verus!
