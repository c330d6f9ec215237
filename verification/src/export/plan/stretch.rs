//! The stretches of the output's sound in which the same clips play.
use crate::export::plan::sound::{
    by_start, lemma_by_start, sort_by_start, sounds, sounds_of, start_in_order, Sound,
};
use crate::export::plan::{PlanError, SourceFacts};
use crate::project::{SourceId, Timeline};
use std::collections::BTreeMap;
use vstd::prelude::*;

verus! {

/// A stretch in which the same clips sound, in sequence frames.
#[derive(Debug, PartialEq, Eq)]
pub struct Stretch {
    pub from: i64,
    pub to: i64,
    /// By their start.
    pub playing: Vec<Sound>,
}

/// What a [`Stretch`] says.
pub struct StretchModel {
    pub from: i64,
    pub to: i64,
    pub playing: Seq<Sound>,
}

impl View for Stretch {
    type V = StretchModel;

    open spec fn view(&self) -> StretchModel {
        StretchModel { from: self.from, to: self.to, playing: self.playing@ }
    }
}

/// What a list of stretches says.
pub open spec fn stretches_in(stretches: Seq<Stretch>) -> Seq<StretchModel> {
    stretches.map_values(|stretch: Stretch| stretch@)
}

/// Where a frame belongs among the first `count` edges.
pub open spec fn edge_place(edges: Seq<i64>, frame: i64, count: int) -> int
    decreases count,
{
    if count <= 0 || edges[count - 1] < frame {
        count
    } else {
        edge_place(edges, frame, count - 1)
    }
}

/// The edges and one more, none twice.
pub open spec fn with_edge(edges: Seq<i64>, frame: i64) -> Seq<i64> {
    let at = edge_place(edges, frame, edges.len() as int);
    if at < edges.len() && edges[at] == frame {
        edges
    } else {
        edges.insert(at, frame)
    }
}

/// The frames at which the sequence, or one of the first `count` sounds,
/// starts or ends.
pub open spec fn edges_of(sounds: Seq<Sound>, length: i64, count: int) -> Seq<i64>
    decreases count,
{
    if count <= 0 {
        with_edge(with_edge(Seq::empty(), 0), length)
    } else {
        with_edge(
            with_edge(edges_of(sounds, length, count - 1), sounds[count - 1].start),
            sounds[count - 1].end,
        )
    }
}

/// Every edge is behind the one before.
pub open spec fn rising(edges: Seq<i64>) -> bool {
    forall|i: int, j: int|
        #![trigger edges[i], edges[j]]
        0 <= i < j < edges.len() ==> edges[i] < edges[j]
}

/// A frame is put between the smaller and the others.
proof fn lemma_edge_place(edges: Seq<i64>, frame: i64, count: int)
    requires
        0 <= count <= edges.len(),
    ensures
        0 <= edge_place(edges, frame, count) <= count,
        forall|i: int|
            edge_place(edges, frame, count) <= i < count ==> #[trigger] edges[i] >= frame,
        edge_place(edges, frame, count) > 0 ==> edges[edge_place(edges, frame, count) - 1] < frame,
    decreases count,
{
    if count > 0 && edges[count - 1] >= frame {
        lemma_edge_place(edges, frame, count - 1);
    }
}

/// One edge more keeps the order and everything that was there.
proof fn lemma_with_edge(edges: Seq<i64>, frame: i64)
    requires
        rising(edges),
    ensures
        rising(with_edge(edges, frame)),
        with_edge(edges, frame).contains(frame),
        forall|x: i64|
            #[trigger] with_edge(edges, frame).contains(x) <==> (x == frame || edges.contains(x)),
{
    let at = edge_place(edges, frame, edges.len() as int);
    lemma_edge_place(edges, frame, edges.len() as int);
    let more = with_edge(edges, frame);
    if at < edges.len() && edges[at] == frame {
        assert(edges.contains(frame));
    } else {
        if at > 0 {
            assert(edges[at - 1] < frame);
        }
        assert forall|i: int, j: int|
            #![trigger more[i], more[j]]
            0 <= i < j < more.len() implies more[i] < more[j] by {
            let a = if i < at {
                edges[i]
            } else if i == at {
                frame
            } else {
                edges[i - 1]
            };
            let b = if j < at {
                edges[j]
            } else if j == at {
                frame
            } else {
                edges[j - 1]
            };
            assert(more[i] == a && more[j] == b);
            if i < at && i < at - 1 {
                assert(edges[i] < edges[at - 1]);
            }
            if j > at && at < edges.len() {
                assert(edges[at] > frame);
                if j - 1 > at {
                    assert(edges[at] < edges[j - 1]);
                }
            }
        }
        assert(more[at] == frame);
        assert forall|x: i64| #[trigger] more.contains(x) <==> (x == frame || edges.contains(x)) by {
            if edges.contains(x) {
                let i = edges.index_of(x);
                assert(more[if i < at {
                    i
                } else {
                    i + 1
                }] == x);
            }
            if more.contains(x) && x != frame {
                let i = more.index_of(x);
                assert(edges[if i < at {
                    i
                } else {
                    i - 1
                }] == x);
            }
        }
    }
}

/// The edges rise from the first frame to the sequence's end, and every start
/// and end of a sound is one.
pub proof fn lemma_edges(sounds: Seq<Sound>, length: i64, count: int)
    requires
        0 <= count <= sounds.len(),
        length > 0,
        forall|i: int|
            0 <= i < sounds.len() ==> 0 <= (#[trigger] sounds[i]).start < sounds[i].end <= length,
    ensures
        rising(edges_of(sounds, length, count)),
        edges_of(sounds, length, count).len() >= 2,
        edges_of(sounds, length, count)[0] == 0,
        edges_of(sounds, length, count).last() == length,
        forall|i: int|
            0 <= i < count ==> edges_of(sounds, length, count).contains(
                (#[trigger] sounds[i]).start,
            ) && edges_of(sounds, length, count).contains(sounds[i].end),
{
    lemma_edges_hold(sounds, length, count);
    let edges = edges_of(sounds, length, count);
    let first = edges.index_of(0);
    let last = edges.index_of(length);
    assert(edges[first] == 0 && edges[last] == length);
    assert(edges.contains(edges[0]));
    assert(edges.contains(edges[edges.len() - 1]));
    if first > 0 {
        assert(edges[0] < edges[first]);
    }
    if last < edges.len() - 1 {
        assert(edges[last] < edges[edges.len() - 1]);
    }
}

/// What the edges are.
proof fn lemma_edges_hold(sounds: Seq<Sound>, length: i64, count: int)
    requires
        0 <= count <= sounds.len(),
        length > 0,
        forall|i: int|
            0 <= i < sounds.len() ==> 0 <= (#[trigger] sounds[i]).start < sounds[i].end <= length,
    ensures
        rising(edges_of(sounds, length, count)),
        edges_of(sounds, length, count).contains(0),
        edges_of(sounds, length, count).contains(length),
        forall|x: i64| #[trigger] edges_of(sounds, length, count).contains(x) ==> 0 <= x <= length,
        forall|i: int|
            0 <= i < count ==> edges_of(sounds, length, count).contains(
                (#[trigger] sounds[i]).start,
            ) && edges_of(sounds, length, count).contains(sounds[i].end),
    decreases count,
{
    if count <= 0 {
        lemma_with_edge(Seq::empty(), 0);
        lemma_with_edge(with_edge(Seq::empty(), 0), length);
    } else {
        lemma_edges_hold(sounds, length, count - 1);
        let before = edges_of(sounds, length, count - 1);
        let sound = sounds[count - 1];
        lemma_with_edge(before, sound.start);
        lemma_with_edge(with_edge(before, sound.start), sound.end);
    }
}

/// Add an edge.
fn add_edge(edges: &mut Vec<i64>, frame: i64)
    requires
        rising(old(edges)@),
    ensures
        final(edges)@ == with_edge(old(edges)@, frame),
        rising(final(edges)@),
{
    proof {
        lemma_with_edge(edges@, frame);
    }
    let mut at: usize = edges.len();
    while at > 0 && edges[at - 1] >= frame
        invariant
            at <= edges@.len(),
            edges@ == old(edges)@,
            edge_place(edges@, frame, edges@.len() as int) == edge_place(edges@, frame, at as int),
        decreases at,
    {
        at -= 1;
    }
    if at < edges.len() && edges[at] == frame {
        return;
    }
    edges.insert(at, frame);
}

/// Those of the first `count` sounds that play at a frame.
pub open spec fn playing(sounds: Seq<Sound>, frame: i64, count: int) -> Seq<Sound>
    decreases count,
{
    if count <= 0 {
        Seq::empty()
    } else if sounds[count - 1].start <= frame < sounds[count - 1].end {
        playing(sounds, frame, count - 1).push(sounds[count - 1])
    } else {
        playing(sounds, frame, count - 1)
    }
}

/// Those of the first `count` sounds of a list that have not ended at a frame.
pub open spec fn still_on(sounds: Seq<Sound>, frame: i64, count: int) -> Seq<Sound>
    decreases count,
{
    if count <= 0 {
        Seq::empty()
    } else if frame < sounds[count - 1].end {
        still_on(sounds, frame, count - 1).push(sounds[count - 1])
    } else {
        still_on(sounds, frame, count - 1)
    }
}

/// Of the sounds that play at a frame, those that have not ended at a later
/// one play there, as no other of them does.
proof fn lemma_still_on(sounds: Seq<Sound>, earlier: i64, frame: i64, count: int)
    requires
        0 <= count <= sounds.len(),
        earlier <= frame,
        forall|i: int| 0 <= i < count ==> (#[trigger] sounds[i]).start <= earlier,
    ensures
        still_on(
            playing(sounds, earlier, count),
            frame,
            playing(sounds, earlier, count).len() as int,
        ) == playing(sounds, frame, count),
    decreases count,
{
    if count > 0 {
        lemma_still_on(sounds, earlier, frame, count - 1);
        let before = playing(sounds, earlier, count - 1);
        if earlier < sounds[count - 1].end {
            let all = before.push(sounds[count - 1]);
            assert(playing(sounds, earlier, count) == all);
            lemma_still_on_prefix(all, before, frame, before.len() as int);
        }
    }
}

/// What is still on of some sounds does not depend on those behind.
proof fn lemma_still_on_prefix(a: Seq<Sound>, b: Seq<Sound>, frame: i64, count: int)
    requires
        0 <= count <= a.len(),
        count <= b.len(),
        forall|i: int| 0 <= i < count ==> #[trigger] a[i] == b[i],
    ensures
        still_on(a, frame, count) == still_on(b, frame, count),
    decreases count,
{
    if count > 0 {
        lemma_still_on_prefix(a, b, frame, count - 1);
        assert(a[count - 1] == b[count - 1]);
    }
}

/// Sounds that start later do not play.
proof fn lemma_not_started(sounds: Seq<Sound>, frame: i64, some: int, all: int)
    requires
        0 <= some <= all <= sounds.len(),
        forall|i: int| some <= i < all ==> (#[trigger] sounds[i]).start > frame,
    ensures
        playing(sounds, frame, all) == playing(sounds, frame, some),
    decreases all,
{
    if some < all {
        lemma_not_started(sounds, frame, some, all - 1);
        assert(sounds[all - 1].start > frame);
    }
}

/// Every stretch from one edge to the next, with the sounds that play in it.
pub open spec fn between(sounds: Seq<Sound>, edges: Seq<i64>) -> Seq<StretchModel> {
    Seq::new(
        (if edges.len() > 0 {
            edges.len() - 1
        } else {
            0
        }) as nat,
        |i: int|
            StretchModel {
                from: edges[i],
                to: edges[i + 1],
                playing: playing(sounds, edges[i], sounds.len() as int),
            },
    )
}

/// The stretches of a sequence's sound: none where nothing sounds.
pub open spec fn stretch_plan(timeline: Timeline, sources: Map<SourceId, SourceFacts>) -> Result<
    Seq<StretchModel>,
    PlanError,
> {
    match sounds_of(timeline, sources, timeline.tracks@.len() as int) {
        Err(error) => Err(error),
        Ok(heard) => if heard.len() == 0 {
            Ok(Seq::empty())
        } else {
            let sorted = by_start(heard, heard.len() as int);
            Ok(between(sorted, edges_of(sorted, timeline.length, sorted.len() as int)))
        },
    }
}

/// Those of `playing` that have not ended at `frame`.
fn retain(playing: &Vec<Sound>, frame: i64) -> (kept: Vec<Sound>)
    ensures
        kept@ == still_on(playing@, frame, playing@.len() as int),
{
    let mut kept: Vec<Sound> = Vec::new();
    let mut i: usize = 0;
    while i < playing.len()
        invariant
            i <= playing@.len(),
            kept@ == still_on(playing@, frame, i as int),
        decreases playing@.len() - i,
    {
        if frame < playing[i].end {
            kept.push(playing[i]);
        }
        i += 1;
    }
    kept
}

/// A list of sounds once more.
fn copy_sounds(sounds: &Vec<Sound>) -> (same: Vec<Sound>)
    ensures
        same@ == sounds@,
{
    let mut same: Vec<Sound> = Vec::new();
    let mut i: usize = 0;
    while i < sounds.len()
        invariant
            i <= sounds@.len(),
            same@ == sounds@.take(i as int),
        decreases sounds@.len() - i,
    {
        same.push(sounds[i]);
        proof {
            assert(sounds@.take(i + 1) =~= sounds@.take(i as int).push(sounds@[i as int]));
        }
        i += 1;
    }
    proof {
        assert(sounds@.take(i as int) =~= sounds@);
    }
    same
}

/// The stretches between `edges`, in one sweep: the sounds playing at each
/// edge are kept as the edges advance.
fn sweep(sounds: &Vec<Sound>, edges: &Vec<i64>) -> (stretches: Vec<Stretch>)
    requires
        start_in_order(sounds@),
        rising(edges@),
    ensures
        stretches_in(stretches@) == between(sounds@, edges@),
{
    let mut stretches: Vec<Stretch> = Vec::new();
    let mut on: Vec<Sound> = Vec::new();
    let mut next: usize = 0;
    let mut e: usize = 0;
    let ghost all = between(sounds@, edges@);
    proof {
        assert(stretches_in(stretches@) =~= all.take(0));
    }
    while edges.len() > 1 && e < edges.len() - 1
        invariant
            edges@.len() > 0 ==> e < edges@.len(),
            e <= all.len(),
            next <= sounds@.len(),
            start_in_order(sounds@),
            rising(edges@),
            all == between(sounds@, edges@),
            stretches_in(stretches@) == all.take(e as int),
            e == 0 ==> next == 0 && on@.len() == 0,
            e > 0 ==> on@ == playing(sounds@, edges@[e - 1], next as int),
            e > 0 ==> forall|i: int|
                0 <= i < next ==> (#[trigger] sounds@[i]).start <= edges@[e - 1],
        decreases edges@.len() - e,
    {
        let from = edges[e];
        let to = edges[e + 1];
        let mut now = retain(&on, from);
        proof {
            if e > 0 {
                assert(edges@[e - 1] < edges@[e as int]);
                lemma_still_on(sounds@, edges@[e - 1], from, next as int);
            } else {
                assert(now@ =~= playing(sounds@, from, 0));
            }
        }
        while next < sounds.len() && sounds[next].start <= from
            invariant
                next <= sounds@.len(),
                now@ == playing(sounds@, from, next as int),
                forall|i: int| 0 <= i < next ==> (#[trigger] sounds@[i]).start <= from,
            decreases sounds@.len() - next,
        {
            if from < sounds[next].end {
                now.push(sounds[next]);
            }
            next += 1;
        }
        proof {
            if next < sounds@.len() {
                assert forall|i: int| next <= i < sounds@.len() implies (#[trigger] sounds@[i]).start
                    > from by {
                    if i > next {
                        assert(sounds@[next as int].start <= sounds@[i].start);
                    }
                }
            }
            lemma_not_started(sounds@, from, next as int, sounds@.len() as int);
        }
        let ghost before = stretches@;
        stretches.push(Stretch { from, to, playing: copy_sounds(&now) });
        proof {
            assert(stretches_in(stretches@) =~= stretches_in(before).push(all[e as int]));
            assert(all.take(e + 1) =~= all.take(e as int).push(all[e as int]));
        }
        on = now;
        e += 1;
    }
    proof {
        assert(all.take(e as int) =~= all);
    }
    stretches
}

/// The sounds found stand within the sequence.
proof fn lemma_track_within(
    timeline: Timeline,
    sources: Map<SourceId, SourceFacts>,
    place: int,
    before: Seq<Sound>,
    count: int,
)
    requires
        timeline.wf(),
        0 <= place < timeline.tracks@.len(),
        0 <= count <= timeline.tracks@[place].placements@.len(),
        forall|i: int|
            0 <= i < before.len() ==> 0 <= (#[trigger] before[i]).start < before[i].end
                <= timeline.length,
        forall|i: int|
            0 <= i < before.len() ==> (#[trigger] before[i]).track < timeline.tracks@.len()
                && before[i].index < timeline.tracks@[before[i].track as int].placements@.len(),
        timeline.tracks@.len() <= usize::MAX,
        timeline.tracks@[place].placements@.len() <= usize::MAX,
    ensures
        crate::export::plan::sound::track_sounds(timeline, sources, place, before, count)
            matches Ok(sounds) ==> (forall|i: int|
            0 <= i < sounds.len() ==> 0 <= (#[trigger] sounds[i]).start < sounds[i].end
                <= timeline.length && sounds[i].track < timeline.tracks@.len() && sounds[i].index
                < timeline.tracks@[sounds[i].track as int].placements@.len()),
    decreases count,
{
    if count > 0 {
        lemma_track_within(timeline, sources, place, before, count - 1);
        assert(timeline.tracks@[place].placements@[count - 1].within(timeline.length as int));
    }
}

/// The sounds found stand within the sequence.
pub proof fn lemma_sounds_within(
    timeline: Timeline,
    sources: Map<SourceId, SourceFacts>,
    count: int,
)
    requires
        timeline.wf(),
        0 <= count <= timeline.tracks@.len(),
    ensures
        sounds_of(timeline, sources, count) matches Ok(sounds) ==> (forall|i: int|
            0 <= i < sounds.len() ==> 0 <= (#[trigger] sounds[i]).start < sounds[i].end
                <= timeline.length && sounds[i].track < timeline.tracks@.len() && sounds[i].index
                < timeline.tracks@[sounds[i].track as int].placements@.len()),
    decreases count,
{
    if count > 0 {
        lemma_sounds_within(timeline, sources, count - 1);
        let track = timeline.tracks@[count - 1];
        vstd::std_specs::vec::axiom_spec_len(&timeline.tracks);
        vstd::std_specs::vec::axiom_spec_len(&track.placements);
        if let Ok(sounds) = sounds_of(timeline, sources, count - 1) {
            lemma_track_within(
                timeline,
                sources,
                count - 1,
                sounds,
                track.placements@.len() as int,
            );
        }
    }
}

/// The stretches of `timeline`'s sound, with the clips that play in each.
pub fn stretches(timeline: &Timeline, sources: &BTreeMap<SourceId, SourceFacts>) -> (result: Result<
    Vec<Stretch>,
    PlanError,
>)
    requires
        timeline.wf(),
    ensures
        match stretch_plan(*timeline, sources@) {
            Ok(list) => result is Ok && stretches_in(result->Ok_0@) == list,
            Err(error) => result == Err::<Vec<Stretch>, PlanError>(error),
        },
{
    let heard = match sounds(timeline, sources) {
        Ok(heard) => heard,
        Err(error) => {
            return Err(error);
        },
    };
    if heard.len() == 0 {
        let none: Vec<Stretch> = Vec::new();
        proof {
            assert(stretches_in(none@) =~= Seq::empty());
        }
        return Ok(none);
    }
    let sorted = sort_by_start(&heard);
    proof {
        lemma_by_start(heard@, heard@.len() as int);
        lemma_with_edge(Seq::empty(), 0);
        assert(rising(Seq::<i64>::empty()));
    }
    let mut edges: Vec<i64> = Vec::new();
    assert(edges@ =~= Seq::empty());
    add_edge(&mut edges, 0);
    add_edge(&mut edges, timeline.length);
    let mut i: usize = 0;
    while i < sorted.len()
        invariant
            i <= sorted@.len(),
            rising(edges@),
            edges@ == edges_of(sorted@, timeline.length, i as int),
        decreases sorted@.len() - i,
    {
        add_edge(&mut edges, sorted[i].start);
        add_edge(&mut edges, sorted[i].end);
        i += 1;
    }
    Ok(sweep(&sorted, &edges))
}

/// Where anything sounds, the stretches lead from the first frame to the last
/// without a hole.
pub proof fn lemma_stretches(timeline: Timeline, sources: Map<SourceId, SourceFacts>)
    requires
        timeline.wf(),
        timeline.length > 0,
    ensures
        stretch_plan(timeline, sources) matches Ok(list) ==> {
            &&& list.len() > 0 ==> list[0].from == 0 && list.last().to == timeline.length
            &&& forall|i: int|
                0 <= i < list.len() ==> 0 <= (#[trigger] list[i]).from < list[i].to
                    <= timeline.length
            &&& forall|i: int|
                0 <= i < list.len() - 1 ==> (#[trigger] list[i]).to == list[i + 1].from
            &&& forall|i: int, k: int|
                #![trigger list[i].playing[k]]
                0 <= i < list.len() && 0 <= k < list[i].playing.len()
                    ==> list[i].playing[k].track < timeline.tracks@.len()
                    && list[i].playing[k].index
                    < timeline.tracks@[list[i].playing[k].track as int].placements@.len()
        },
{
    let n = timeline.tracks@.len() as int;
    lemma_sounds_within(timeline, sources, n);
    if let Ok(heard) = sounds_of(timeline, sources, n) {
        if heard.len() > 0 {
            let sorted = by_start(heard, heard.len() as int);
            lemma_by_start(heard, heard.len() as int);
            assert(heard.take(heard.len() as int) =~= heard);
            assert forall|i: int| 0 <= i < sorted.len() implies 0 <= (#[trigger] sorted[i]).start
                < sorted[i].end <= timeline.length && sorted[i].track < timeline.tracks@.len()
                && sorted[i].index
                < timeline.tracks@[sorted[i].track as int].placements@.len() by {
                assert(heard.contains(sorted[i]));
                let k = heard.index_of(sorted[i]);
                assert(heard[k] == sorted[i]);
            }
            lemma_edges(sorted, timeline.length, sorted.len() as int);
            let edges = edges_of(sorted, timeline.length, sorted.len() as int);
            let list = between(sorted, edges);
            assert forall|i: int| 0 <= i < list.len() implies 0 <= (#[trigger] list[i]).from
                < list[i].to <= timeline.length by {
                assert(edges[i] < edges[i + 1]);
                if i > 0 {
                    assert(edges[0] < edges[i]);
                }
                if i + 1 < edges.len() - 1 {
                    assert(edges[i + 1] < edges[edges.len() - 1]);
                }
            }
            assert forall|i: int, k: int|
                #![trigger list[i].playing[k]]
                0 <= i < list.len() && 0 <= k < list[i].playing.len() implies list[i].playing[k].track
                < timeline.tracks@.len() && list[i].playing[k].index
                < timeline.tracks@[list[i].playing[k].track as int].placements@.len() by {
                lemma_playing(sorted, edges[i], sorted.len() as int, k);
            }
        }
    }
}

/// What plays is one of the sounds, and plays.
pub proof fn lemma_playing(sounds: Seq<Sound>, frame: i64, count: int, k: int)
    requires
        0 <= count <= sounds.len(),
        0 <= k < playing(sounds, frame, count).len(),
    ensures
        exists|i: int|
            0 <= i < count && #[trigger] sounds[i] == playing(sounds, frame, count)[k],
        playing(sounds, frame, count)[k].start <= frame < playing(sounds, frame, count)[k].end,
    decreases count,
{
    if count > 0 {
        let before = playing(sounds, frame, count - 1);
        if k < before.len() {
            lemma_playing(sounds, frame, count - 1, k);
            let i = choose|i: int| 0 <= i < count - 1 && #[trigger] sounds[i] == before[k];
            assert(sounds[i] == playing(sounds, frame, count)[k]);
        } else {
            assert(sounds[count - 1] == playing(sounds, frame, count)[k]);
        }
    }
}

} // verus!
