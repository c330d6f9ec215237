//! What a verified export must hold, and what it means to hold it.
use crate::export::verify::{
    compared, end_at, hash_at, holds_run, key_at, range, runs_at, shown_within, Divergence,
    PacketHash,
};
use vstd::prelude::*;

verus! {

/// The first place at `at` or behind with a keyframe at the start of a range.
proof fn lemma_key_at(source: Seq<PacketHash>, from: int, at: int)
    requires
        0 <= at <= source.len(),
    ensures
        at <= key_at(source, from, at) <= source.len(),
        key_at(source, from, at) < source.len() ==> source[key_at(source, from, at)].key && -1
            <= source[key_at(source, from, at)].micros - from <= 1,
        forall|i: int|
            at <= i < key_at(source, from, at) ==> !((#[trigger] source[i]).key && -1
                <= source[i].micros - from <= 1),
    decreases source.len() - at,
{
    if at < source.len() && !(source[at].key && -1 <= source[at].micros - from <= 1) {
        lemma_key_at(source, from, at + 1);
    }
}

/// The first place at `at` or behind with a keyframe that ends a range.
proof fn lemma_end_at(source: Seq<PacketHash>, to: int, at: int)
    requires
        0 <= at <= source.len(),
    ensures
        at <= end_at(source, to, at) <= source.len(),
        end_at(source, to, at) < source.len() ==> source[end_at(source, to, at)].key
            && source[end_at(source, to, at)].micros >= to - 1,
        forall|i: int|
            at <= i < end_at(source, to, at) ==> !((#[trigger] source[i]).key && source[i].micros
                >= to - 1),
    decreases source.len() - at,
{
    if at < source.len() && !(source[at].key && source[at].micros >= to - 1) {
        lemma_end_at(source, to, at + 1);
    }
}

/// `places` are the packets of `at..end` that are shown in a range, all of them
/// and in order.
pub open spec fn lists(
    source: Seq<PacketHash>,
    from: int,
    to: int,
    at: int,
    end: int,
    places: Seq<int>,
) -> bool {
    &&& forall|j: int, k: int|
        #![trigger places[j], places[k]]
        0 <= j < k < places.len() ==> places[j] < places[k]
    &&& forall|j: int|
        0 <= j < places.len() ==> at <= #[trigger] places[j] < end && from - 1
            <= source[places[j]].micros < to - 1
    &&& forall|i: int|
        at <= i < end && from - 1 <= (#[trigger] source[i]).micros < to - 1 ==> places.contains(i)
}

/// Where the hashes of a range come from.
proof fn lemma_shown(source: Seq<PacketHash>, from: int, to: int, at: int, end: int) -> (places: Seq<
    int,
>)
    requires
        0 <= at,
        end <= source.len(),
    ensures
        lists(source, from, to, at, end, places),
        shown_within(source, from, to, at, end) == Seq::new(
            places.len(),
            |j: int| source[places[j]].sha256,
        ),
    decreases end - at,
{
    let all = shown_within(source, from, to, at, end);
    if at >= end {
        let places = Seq::<int>::empty();
        assert(all =~= Seq::new(places.len(), |j: int| source[places[j]].sha256));
        places
    } else {
        let rest = lemma_shown(source, from, to, at + 1, end);
        let later = shown_within(source, from, to, at + 1, end);
        if from - 1 <= source[at].micros < to - 1 {
            let places = seq![at] + rest;
            assert forall|j: int| 0 <= j < all.len() implies all[j]
                == source[#[trigger] places[j]].sha256 by {
                if j > 0 {
                    assert(all[j] == later[j - 1]);
                    assert(places[j] == rest[j - 1]);
                }
            }
            assert(all =~= Seq::new(places.len(), |j: int| source[places[j]].sha256));
            assert forall|j: int, k: int|
                #![trigger places[j], places[k]]
                0 <= j < k < places.len() implies places[j] < places[k] by {
                assert(places[k] == rest[k - 1]);
                if j > 0 {
                    assert(places[j] == rest[j - 1]);
                }
            }
            assert forall|j: int| 0 <= j < places.len() implies at <= #[trigger] places[j] < end
                && from - 1 <= source[places[j]].micros < to - 1 by {
                if j > 0 {
                    assert(places[j] == rest[j - 1]);
                }
            }
            assert forall|i: int|
                at <= i < end && from - 1 <= (#[trigger] source[i]).micros < to
                    - 1 implies places.contains(i) by {
                if i == at {
                    assert(places[0] == at);
                } else {
                    let j = choose|j: int| 0 <= j < rest.len() && rest[j] == i;
                    assert(places[j + 1] == i);
                }
            }
            places
        } else {
            assert forall|i: int|
                at <= i < end && from - 1 <= (#[trigger] source[i]).micros < to
                    - 1 implies rest.contains(i) by {
                assert(i != at);
            }
            rest
        }
    }
}

/// What must be found of a copied range is all of it. `start` is the first
/// keyframe shown at its in-point, `end` the first behind that which is shown
/// at its out-point or later, or the end of the source, a microsecond more or
/// less. The hashes are those of every packet between them that is shown within
/// the range, one for each, in decode order.
pub proof fn what_must_be_found_is_complete(
    source: Seq<PacketHash>,
    from: int,
    to: int,
    start: int,
    end: int,
)
    requires
        0 <= start < end <= source.len(),
        source[start].key && from - 1 <= source[start].micros <= from + 1,
        forall|i: int|
            0 <= i < start ==> !((#[trigger] source[i]).key && from - 1 <= source[i].micros <= from
                + 1),
        end < source.len() ==> source[end].key && source[end].micros >= to - 1,
        forall|i: int|
            start < i < end ==> !((#[trigger] source[i]).key && source[i].micros >= to - 1),
    ensures
        exists|places: Seq<int>| #[trigger]
            lists(source, from, to, start, end, places) && range(source, from, to) == Some(
                Seq::new(places.len(), |j: int| source[places[j]].sha256),
            ),
{
    lemma_key_at(source, from, 0);
    let found = key_at(source, from, 0);
    assert(found == start) by {
        if found < start {
            assert(source[found].key);
        }
        if start < found {
            assert(source[start].key);
        }
    }
    lemma_end_at(source, to, start + 1);
    let last = end_at(source, to, start + 1);
    assert(last == end) by {
        if last < end {
            assert(source[last].key);
        }
        if end < last {
            assert(source[end].key);
        }
    }
    let places = lemma_shown(source, from, to, start, end);
    assert(lists(source, from, to, start, end, places));
}

/// A range cannot be demanded exactly where no keyframe is shown at its start.
pub proof fn a_range_starts_on_a_keyframe(source: Seq<PacketHash>, from: int, to: int)
    ensures
        range(source, from, to) is Some <==> exists|i: int|
            0 <= i < source.len() && (#[trigger] source[i]).key && from - 1 <= source[i].micros
                <= from + 1,
{
    lemma_key_at(source, from, 0);
    let start = key_at(source, from, 0);
    if start < source.len() {
        assert(source[start].key);
    }
}

/// In a source that is decoded as it is shown, every packet shown in a range
/// must be found, from the keyframe at its start on.
pub proof fn every_picture_of_a_range_must_be_found(
    source: Seq<PacketHash>,
    from: int,
    to: int,
    start: int,
    i: int,
)
    requires
        forall|j: int, k: int|
            #![trigger source[j], source[k]]
            0 <= j < k < source.len() ==> source[j].micros <= source[k].micros,
        0 <= start <= i < source.len(),
        source[start].key && from - 1 <= source[start].micros <= from + 1,
        forall|k: int|
            0 <= k < start ==> !((#[trigger] source[k]).key && from - 1 <= source[k].micros <= from
                + 1),
        source[i].micros < to - 1,
    ensures
        range(source, from, to) is Some,
        range(source, from, to)->0.contains(source[i].sha256),
{
    lemma_end_at(source, to, start + 1);
    let end = end_at(source, to, start + 1);
    if end < source.len() {
        assert(source[end].micros >= to - 1);
        assert(i < end);
    }
    what_must_be_found_is_complete(source, from, to, start, end);
    let places = choose|places: Seq<int>| #[trigger]
        lists(source, from, to, start, end, places) && range(source, from, to) == Some(
            Seq::new(places.len(), |j: int| source[places[j]].sha256),
        );
    assert(source[start].micros <= source[i].micros);
    let j = choose|j: int| 0 <= j < places.len() && places[j] == i;
    assert(range(source, from, to)->0[j] == source[i].sha256);
}

/// An export is verified exactly where everything that must be found stands in
/// it, packet behind packet with nothing between.
pub proof fn a_verified_range_is_there(output: Seq<PacketHash>, expected: Seq<[u8; 32]>)
    ensures
        holds_run(output, expected) is Ok <==> exists|run: Seq<PacketHash>, at: int|
            #![trigger output.subrange(at, at + run.len())]
            0 <= at && at + run.len() <= output.len() && output.subrange(at, at + run.len()) == run
                && run.len() == expected.len() && forall|k: int|
                0 <= k < run.len() ==> (#[trigger] run[k]).sha256@ == expected[k]@,
{
    let n = expected.len() as int;
    if exists|start: int| runs_at(output, expected, start) {
        let start = choose|start: int| runs_at(output, expected, start);
        let run = output.subrange(start, start + n);
        assert(output.subrange(start, start + run.len()) == run);
        assert forall|k: int| 0 <= k < run.len() implies (#[trigger] run[k]).sha256@
            == expected[k]@ by {
            assert(run[k] == output[start + k]);
        }
    }
    if exists|run: Seq<PacketHash>, at: int|
        #![trigger output.subrange(at, at + run.len())]
        0 <= at && at + run.len() <= output.len() && output.subrange(at, at + run.len()) == run
            && run.len() == n && forall|k: int|
            0 <= k < run.len() ==> (#[trigger] run[k]).sha256@ == expected[k]@ {
        let (run, at) = choose|run: Seq<PacketHash>, at: int|
            #![trigger output.subrange(at, at + run.len())]
            0 <= at && at + run.len() <= output.len() && output.subrange(at, at + run.len()) == run
                && run.len() == n && forall|k: int|
                0 <= k < run.len() ==> (#[trigger] run[k]).sha256@ == expected[k]@;
        assert forall|k: int| 0 <= k < n implies (#[trigger] output[at + k]).sha256@
            == expected[k]@ by {
            assert(run[k] == output[at + k]);
        }
        assert(runs_at(output, expected, at));
    }
    crate::export::verify::what_is_found_is_there(output, expected);
}

/// The first difference from a place on.
proof fn lemma_first_difference(
    output: Seq<PacketHash>,
    expected: Seq<[u8; 32]>,
    start: int,
    index: int,
)
    requires
        0 <= index <= expected.len() <= usize::MAX,
        0 <= start,
    ensures
        match compared(output, expected, start, index) {
            Ok(_) => true,
            Err(Divergence::Differs { index: at }) => {
                &&& index <= at < expected.len() && start + at < output.len()
                &&& output[start + at].sha256@ != expected[at as int]@
                &&& forall|k: int|
                    index <= k < at ==> (#[trigger] output[start + k]).sha256@ == expected[k]@
            },
            Err(Divergence::Short { missing }) => {
                let at = expected.len() - missing;
                &&& index <= at < expected.len() && start + at >= output.len()
                &&& index < at ==> start + at == output.len()
                &&& forall|k: int|
                    index <= k < at ==> (#[trigger] output[start + k]).sha256@ == expected[k]@
            },
            Err(_) => false,
        },
    decreases expected.len() - index,
{
    if index < expected.len() && start + index < output.len() && output[start + index].sha256@
        == expected[index]@ {
        lemma_first_difference(output, expected, start, index + 1);
        let told = compared(output, expected, start, index + 1);
        assert(compared(output, expected, start, index) == told);
        if let Err(Divergence::Differs { index: at }) = told {
            assert forall|k: int| index <= k < at implies (#[trigger] output[start + k]).sha256@
                == expected[k]@ by {
                if k == index {
                    assert(output[start + index].sha256@ == expected[index]@);
                }
            }
        }
        if let Err(Divergence::Short { missing }) = told {
            assert forall|k: int| index <= k < expected.len() - missing implies (
            #[trigger] output[start + k]).sha256@ == expected[k]@ by {
                if k == index {
                    assert(output[start + index].sha256@ == expected[index]@);
                }
            }
        }
    }
}

/// Where a range is not found, what is told of it is so: nothing like its first
/// packet is there; or, from the first place like it on, the packet named is
/// the first that differs, or so many are missing at the end.
pub proof fn a_divergence_is_told_where_it_is(output: Seq<PacketHash>, expected: Seq<[u8; 32]>)
    requires
        expected.len() <= usize::MAX,
        holds_run(output, expected) is Err,
    ensures
        expected.len() > 0,
        holds_run(output, expected) == Err::<(), Divergence>(Divergence::Missing) <==> forall|i: int|
            0 <= i < output.len() ==> (#[trigger] output[i]).sha256@ != expected[0]@,
        !(holds_run(output, expected)->Err_0 is NoKeyframe),
        forall|start: int|
            #![trigger output[start]]
            0 <= start < output.len() && output[start].sha256@ == expected[0]@ && (forall|i: int|
                0 <= i < start ==> (#[trigger] output[i]).sha256@ != expected[0]@) ==> match holds_run(
                output,
                expected,
            )->Err_0 {
                Divergence::Differs { index } => {
                    &&& 0 < index < expected.len() && start + index < output.len()
                    &&& output[start + index].sha256@ != expected[index as int]@
                    &&& forall|k: int|
                        0 <= k < index ==> (#[trigger] output[start + k]).sha256@ == expected[k]@
                },
                Divergence::Short { missing } => {
                    &&& 0 < missing < expected.len()
                    &&& start + expected.len() - missing == output.len()
                    &&& forall|k: int|
                        0 <= k < expected.len() - missing ==> (
                        #[trigger] output[start + k]).sha256@ == expected[k]@
                },
                _ => false,
            },
{
    if expected.len() == 0 {
        assert(runs_at(output, expected, 0));
    }
    let hash = expected[0]@;
    lemma_place(output, hash, 0);
    let first = hash_at(output, hash, 0);
    if first < output.len() {
        assert(output[first].sha256@ == hash);
        lemma_first_difference(output, expected, first, 0);
        assert(!runs_at(output, expected, first));
        assert(output[first + 0].sha256@ == expected[0]@);
        if let Err(Divergence::Short { missing }) = compared(output, expected, first, 0) {
            assert(expected.len() - missing > 0);
        }
        if compared(output, expected, first, 0) is Ok {
            crate::export::verify::what_is_found_is_there(output, expected);
        }
    }
    assert forall|start: int|
        #![trigger output[start]]
        0 <= start < output.len() && output[start].sha256@ == hash && (forall|i: int|
            0 <= i < start ==> (#[trigger] output[i]).sha256@ != hash) implies start == first by {
        if first < start {
            assert(output[first].sha256@ == hash);
        }
    }
}

/// The first place with a hash.
proof fn lemma_place(output: Seq<PacketHash>, hash: Seq<u8>, at: int)
    requires
        0 <= at <= output.len(),
    ensures
        at <= hash_at(output, hash, at) <= output.len(),
        hash_at(output, hash, at) < output.len() ==> output[hash_at(output, hash, at)].sha256@
            == hash,
        forall|i: int|
            at <= i < hash_at(output, hash, at) ==> (#[trigger] output[i]).sha256@ != hash,
    decreases output.len() - at,
{
    if at < output.len() && output[at].sha256@ != hash {
        lemma_place(output, hash, at + 1);
    }
}

} // verus!
