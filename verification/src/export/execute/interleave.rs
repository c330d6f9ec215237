//! The output's streams, interleaved by presentation time.
use crate::export::execute::merge::{behind, fronts, interleaved_queues_come_back, labelled};
use crate::export::execute::merge::{lemma_labelled, lemma_merged, merged, of_stream, waiting};
use crate::export::execute::select::Routed;
use crate::export::nut::append::{a_packet_is_added, added, wrote};
use crate::export::nut::fault::Fault;
use crate::export::nut::header::opened;
use crate::export::nut::partial::written_bytes;
use crate::export::nut::read::{sum, ReadingModel};
use crate::export::nut::round_trip::{header_fits, one_packet, reads};
use crate::export::nut::write::{all_bases, gathered, header_bytes, lanes, normal, Writer};
use crate::export::nut::{Header, HeaderModel, NutError, Packet, PacketModel, MAX_FRAME};
use crate::probe::Rational;
use vstd::prelude::*;

verus! {

/// A timestamp is shown before another.
pub open spec fn earlier(a: i64, a_base: Rational, b: i64, b_base: Rational) -> bool {
    a * a_base.num * b_base.den < b * b_base.num * a_base.den
}

/// What is shown before what is shown no later is shown before it.
pub proof fn lemma_earlier(
    a: i64,
    a_base: Rational,
    b: i64,
    b_base: Rational,
    c: i64,
    c_base: Rational,
)
    requires
        a_base.positive(),
        b_base.positive(),
        c_base.positive(),
    ensures
        earlier(a, a_base, b, b_base) && !earlier(c, c_base, b, b_base) ==> earlier(
            a,
            a_base,
            c,
            c_base,
        ),
        !earlier(b, b_base, a, a_base) && !earlier(c, c_base, b, b_base) ==> !earlier(
            c,
            c_base,
            a,
            a_base,
        ),
{
    let (x, y, z) = (a * a_base.num, b * b_base.num, c * c_base.num);
    let (d, e, f) = (a_base.den as int, b_base.den as int, c_base.den as int);
    if x * e < y * d && !(z * e < y * f) {
        assert(x * f < z * d) by (nonlinear_arith)
            requires
                x * e < y * d,
                y * f <= z * e,
                d > 0,
                e > 0,
                f > 0,
        {
            assert((x * e) * f < (y * d) * f);
            assert((y * f) * d <= (z * e) * d);
            assert((x * e) * f == (x * f) * e);
            assert((y * d) * f == (y * f) * d);
            assert((z * e) * d == (z * d) * e);
            assert((x * f) * e < (z * d) * e);
        }
    }
    if !(y * d < x * e) && !(z * e < y * f) {
        assert(x * f <= z * d) by (nonlinear_arith)
            requires
                x * e <= y * d,
                y * f <= z * e,
                d > 0,
                e > 0,
                f > 0,
        {
            assert((x * e) * f <= (y * d) * f);
            assert((y * f) * d <= (z * e) * d);
            assert((x * e) * f == (x * f) * e);
            assert((y * d) * f == (y * f) * d);
            assert((z * e) * d == (z * d) * e);
            assert((x * f) * e <= (z * d) * e);
        }
    }
}

/// Fractions compare as their whole parts do, and where these are the same, as
/// what is left.
proof fn lemma_whole_parts(x: int, d: int, y: int, e: int)
    requires
        d > 0,
        e > 0,
    ensures
        x / d < y / e ==> x * e < y * d,
        x / d > y / e ==> x * e > y * d,
        x / d == y / e ==> (x * e < y * d <==> (x % d) * e < (y % e) * d),
{
    vstd::arithmetic::div_mod::lemma_fundamental_div_mod(x, d);
    vstd::arithmetic::div_mod::lemma_fundamental_div_mod(y, e);
    vstd::arithmetic::div_mod::lemma_mod_bound(x, d);
    vstd::arithmetic::div_mod::lemma_mod_bound(y, e);
    let (p, q, r, s) = (x / d, y / e, x % d, y % e);
    assert(x * e == (p * d) * e + r * e) by (nonlinear_arith)
        requires
            x == d * p + r,
    ;
    assert(y * d == (q * e) * d + s * d) by (nonlinear_arith)
        requires
            y == e * q + s,
    ;
    assert((q * e) * d == (q * d) * e) by (nonlinear_arith);
    if p < q {
        assert((p * d) * e + r * e < (q * d) * e) by (nonlinear_arith)
            requires
                p + 1 <= q,
                0 <= r < d,
                e > 0,
                d > 0,
        {
            assert((p + 1) * d <= q * d);
            assert(p * d + r < q * d);
            assert((p * d + r) * e < (q * d) * e);
        }
        assert(s * d >= 0) by (nonlinear_arith)
            requires
                s >= 0,
                d > 0,
        ;
    } else if p > q {
        assert((q * e) * d + s * d < (p * e) * d) by (nonlinear_arith)
            requires
                q + 1 <= p,
                0 <= s < e,
                e > 0,
                d > 0,
        {
            assert((q + 1) * e <= p * e);
            assert(q * e + s < p * e);
            assert((q * e + s) * d < (p * e) * d);
        }
        assert((p * e) * d == (p * d) * e) by (nonlinear_arith);
        assert(r * e >= 0) by (nonlinear_arith)
            requires
                r >= 0,
                e > 0,
        ;
    }
}

/// Whether `a` is shown before `b`.
fn is_earlier(a: i64, a_base: Rational, b: i64, b_base: Rational) -> (yes: bool)
    requires
        a_base.positive(),
        b_base.positive(),
    ensures
        yes == earlier(a, a_base, b, b_base),
{
    proof {
        let (m, n, k, l) = (a as int, a_base.num as int, b as int, b_base.num as int);
        assert(-0x4000_0000_0000_0000_0000_0000_0000_0000 <= m * n
            <= 0x4000_0000_0000_0000_0000_0000_0000_0000) by (nonlinear_arith)
            requires
                -0x8000_0000_0000_0000 <= m <= 0x8000_0000_0000_0000,
                0 < n <= 0x8000_0000_0000_0000,
        ;
        assert(-0x4000_0000_0000_0000_0000_0000_0000_0000 <= k * l
            <= 0x4000_0000_0000_0000_0000_0000_0000_0000) by (nonlinear_arith)
            requires
                -0x8000_0000_0000_0000 <= k <= 0x8000_0000_0000_0000,
                0 < l <= 0x8000_0000_0000_0000,
        ;
    }
    let x: i128 = a as i128 * a_base.num as i128;
    let y: i128 = b as i128 * b_base.num as i128;
    let d: i128 = a_base.den as i128;
    let e: i128 = b_base.den as i128;
    proof {
        lemma_whole_parts(x as int, d as int, y as int, e as int);
        vstd::arithmetic::div_mod::lemma_mod_bound(x as int, d as int);
        vstd::arithmetic::div_mod::lemma_mod_bound(y as int, e as int);
        crate::time::lemma_quotient_bound(x as int, d as int);
        crate::time::lemma_quotient_bound(y as int, e as int);
    }
    let (p, q) = (x.checked_div_euclid(d), y.checked_div_euclid(e));
    let (r, s) = (x.checked_rem_euclid(d), y.checked_rem_euclid(e));
    match (p, q, r, s) {
        (Some(p), Some(q), Some(r), Some(s)) => {
            if p != q {
                return p < q;
            }
            proof {
                assert(0 <= r * e <= 0x4000_0000_0000_0000_0000_0000_0000_0000) by (nonlinear_arith)
                    requires
                        0 <= r <= 0x8000_0000_0000_0000,
                        0 < e <= 0x8000_0000_0000_0000,
                ;
                assert(0 <= s * d <= 0x4000_0000_0000_0000_0000_0000_0000_0000) by (nonlinear_arith)
                    requires
                        0 <= s <= 0x8000_0000_0000_0000,
                        0 < d <= 0x8000_0000_0000_0000,
                ;
            }
            r * e < s * d
        },
        _ => false,
    }
}

/// The packet at the head of the `i`th stream is written next: none is shown
/// before it, and none of an earlier stream at the same time.
pub open spec fn is_next(heads: Seq<Option<i64>>, bases: Seq<Rational>, i: int) -> bool {
    &&& 0 <= i < heads.len()
    &&& heads[i] is Some
    &&& forall|j: int|
        0 <= j < heads.len() && (#[trigger] heads[j]) is Some ==> {
            &&& !earlier(heads[j]->0, bases[j], heads[i]->0, bases[i])
            &&& j < i ==> earlier(heads[i]->0, bases[i], heads[j]->0, bases[j])
        }
}

/// The stream whose packet is written next: the one shown first, the first
/// stream where two are shown at once; none when every stream has ended.
pub fn next_stream(heads: &Vec<Option<i64>>, bases: &Vec<Rational>) -> (next: Option<usize>)
    requires
        heads@.len() <= bases@.len(),
        forall|i: int| 0 <= i < bases@.len() ==> (#[trigger] bases@[i]).positive(),
    ensures
        match next {
            Some(i) => is_next(heads@, bases@, i as int),
            None => forall|i: int| 0 <= i < heads@.len() ==> (#[trigger] heads@[i]) is None,
        },
{
    let mut best: Option<usize> = None;
    let mut i: usize = 0;
    while i < heads.len()
        invariant
            i <= heads@.len() <= bases@.len(),
            forall|k: int| 0 <= k < bases@.len() ==> (#[trigger] bases@[k]).positive(),
            match best {
                Some(b) => {
                    &&& b < i
                    &&& heads@[b as int] is Some
                    &&& forall|j: int|
                        0 <= j < i && (#[trigger] heads@[j]) is Some ==> {
                            &&& !earlier(
                                heads@[j]->0,
                                bases@[j],
                                heads@[b as int]->0,
                                bases@[b as int],
                            )
                            &&& j < b ==> earlier(
                                heads@[b as int]->0,
                                bases@[b as int],
                                heads@[j]->0,
                                bases@[j],
                            )
                        }
                },
                None => forall|j: int| 0 <= j < i ==> (#[trigger] heads@[j]) is None,
            },
        decreases heads@.len() - i,
    {
        if let Some(pts) = heads[i] {
            match best {
                None => {
                    best = Some(i);
                },
                Some(b) => {
                    if let Some(known) = heads[b] {
                        let sooner = is_earlier(pts, bases[i], known, bases[b]);
                        proof {
                            assert(bases@[i as int].positive() && bases@[b as int].positive());
                            assert forall|j: int|
                                0 <= j < i && (#[trigger] heads@[j]) is Some && sooner implies earlier(
                                pts,
                                bases@[i as int],
                                heads@[j]->0,
                                bases@[j],
                            ) by {
                                assert(bases@[j].positive());
                                lemma_earlier(
                                    pts,
                                    bases@[i as int],
                                    known,
                                    bases@[b as int],
                                    heads@[j]->0,
                                    bases@[j],
                                );
                            }
                        }
                        if sooner {
                            best = Some(i);
                        }
                    }
                },
            }
        }
        i += 1;
    }
    best
}

/// Packets on their way into the muxer: the writer, the packet at the head of
/// each stream, and how many of each were written.
pub struct Interleave {
    pub writer: Writer,
    pub bases: Vec<Rational>,
    pub heads: Vec<Option<Routed>>,
    pub written: Vec<u64>,
}

/// The timestamps at the heads of the streams.
pub open spec fn head_times(heads: Seq<Option<Routed>>) -> Seq<Option<i64>> {
    heads.map_values(
        |head: Option<Routed>|
            match head {
                Some(packet) => Some(packet.pts),
                None => None,
            },
    )
}

/// A packet of the `i`th stream, as it is written.
pub open spec fn routed(i: int, packet: Routed) -> PacketModel {
    PacketModel { stream: i, pts: packet.pts, key: packet.key, data: packet.data@ }
}

/// What is at the head of the `i`th stream is what its queue begins with, and
/// nothing where it is empty.
pub open spec fn begins(i: int, head: Option<Routed>, queue: Seq<PacketModel>) -> bool {
    match head {
        Some(packet) => queue.len() > 0 && queue[0] == routed(i, packet),
        None => queue.len() == 0,
    }
}

impl Interleave {
    /// A stream for every base, all bases usable.
    pub open spec fn wf(&self) -> bool {
        &&& self.heads@.len() == self.bases@.len()
        &&& self.written@.len() == self.bases@.len()
        &&& forall|i: int| 0 <= i < self.bases@.len() ==> (#[trigger] self.bases@[i]).positive()
        &&& self.writer.streams@.len() == self.bases@.len()
        &&& self.writer.last_syncpoint <= self.writer.written
        &&& forall|i: int|
            0 <= i < self.writer.streams@.len() ==> (
            #[trigger] self.writer.streams@[i]).msb_pts_shift < 64
    }

    /// Of `queues`, `left` is still to be written. What has been handed over and
    /// what is held are `header` and, in order, the packets `taken`; those that
    /// are left complete them to all of the queues'.
    pub open spec fn carries(
        &self,
        header: HeaderModel,
        queues: Seq<Seq<PacketModel>>,
        left: Seq<Seq<PacketModel>>,
        taken: Seq<PacketModel>,
        handed: Seq<u8>,
    ) -> bool {
        &&& self.wf()
        &&& queues.len() == self.heads@.len()
        &&& left.len() == self.heads@.len()
        &&& labelled(left)
        &&& wrote(self.writer, handed, header, taken)
        &&& taken + merged(left, self.bases@) == merged(queues, self.bases@)
        &&& forall|i: int|
            0 <= i < left.len() ==> begins(i, #[trigger] self.heads@[i], left[i])
        &&& forall|i: int|
            0 <= i < left.len() ==> (#[trigger] self.written@[i]) + left[i].len()
                == queues[i].len()
    }

    /// Packets on their way into a muxer that was told of `header`, `heads` the
    /// first of each stream.
    pub fn new(header: &Header, heads: Vec<Option<Routed>>) -> (interleave: Result<
        Interleave,
        NutError,
    >)
        requires
            header.chapters@.len() < i64::MAX,
            heads@.len() == header.streams@.len(),
            forall|i: int|
                0 <= i < header.streams@.len() ==> (
                #[trigger] header.streams@[i]).time_base.positive()
                    && header.streams@[i].msb_pts_shift < 64,
        ensures
            match interleave {
                Ok(made) => {
                    &&& header.streams@.len() > 0
                    &&& made.wf()
                    &&& made.heads == heads
                    &&& made.bases@ == Seq::new(
                        header.streams@.len(),
                        |i: int| header.streams@[i].time_base,
                    )
                    &&& made.written@ == Seq::new(header.streams@.len(), |i: int| 0u64)
                    &&& made.writer.output@ == header_bytes(normal(header@))
                    &&& made.writer.streams@ == lanes(header@)
                    &&& made.writer.time_bases@ == gathered(all_bases(normal(header@)))
                    &&& made.writer.written == sum(
                        0,
                        header_bytes(normal(header@)).len() as int,
                    )
                    &&& made.writer.last_syncpoint == 0
                    &&& forall|queues: Seq<Seq<PacketModel>>|
                        queues.len() == heads@.len() && labelled(queues) && (forall|i: int|
                            0 <= i < queues.len() ==> begins(
                                i,
                                #[trigger] heads@[i],
                                queues[i],
                            )) ==> #[trigger] made.carries(
                            header@,
                            queues,
                            queues,
                            Seq::empty(),
                            Seq::empty(),
                        )
                },
                Err(error) => header.streams@.len() == 0 && error == NutError::Malformed(
                    Fault::NeedsAStream,
                ),
            },
    {
        let output: Vec<u8> = Vec::new();
        let writer = Writer::new(output, header)?;
        let mut bases: Vec<Rational> = Vec::new();
        let mut written: Vec<u64> = Vec::new();
        let mut i: usize = 0;
        while i < header.streams.len()
            invariant
                i <= header.streams@.len(),
                bases@ == Seq::new(i as nat, |k: int| header.streams@[k].time_base),
                written@ == Seq::new(i as nat, |k: int| 0u64),
            decreases header.streams@.len() - i,
        {
            bases.push(header.streams[i].time_base);
            written.push(0);
            i += 1;
            proof {
                assert(bases@ =~= Seq::new(i as nat, |k: int| header.streams@[k].time_base));
                assert(written@ =~= Seq::new(i as nat, |k: int| 0u64));
            }
        }
        proof {
            assert(Seq::<u8>::empty() + header_bytes(normal(header@)) =~= header_bytes(
                normal(header@),
            ));
            assert(output@ =~= Seq::empty());
            assert forall|k: int| 0 <= k < writer.streams@.len() implies (
            #[trigger] writer.streams@[k]).msb_pts_shift < 64 by {
                assert(header@.streams[k] == header.streams@[k]@);
                assert(header.streams@[k].msb_pts_shift < 64);
            }
        }
        let made = Interleave { writer, bases, heads, written };
        proof {
            let none = Seq::<PacketModel>::empty();
            let bytes = header_bytes(normal(header@));
            assert(written_bytes(header@, none) =~= bytes);
            assert(Seq::<u8>::empty() + made.writer.output@ =~= bytes);
            assert(made.writer.output.len() == bytes.len());
            assert(wrote(made.writer, Seq::empty(), header@, none));
            assert forall|queues: Seq<Seq<PacketModel>>|
                queues.len() == heads@.len() && labelled(queues) && (forall|i: int|
                    0 <= i < queues.len() ==> begins(
                        i,
                        #[trigger] heads@[i],
                        queues[i],
                    )) implies #[trigger] made.carries(
                header@,
                queues,
                queues,
                Seq::empty(),
                Seq::empty(),
            ) by {
                assert(none + merged(queues, made.bases@) =~= merged(queues, made.bases@));
            }
        }
        Ok(made)
    }

    /// The stream whose packet is written next, if any has one.
    pub fn next(&self) -> (next: Option<usize>)
        requires
            self.wf(),
        ensures
            match next {
                Some(i) => is_next(head_times(self.heads@), self.bases@, i as int),
                None => forall|i: int|
                    0 <= i < self.heads@.len() ==> (#[trigger] self.heads@[i]) is None,
            },
    {
        let mut times: Vec<Option<i64>> = Vec::new();
        let mut i: usize = 0;
        let ghost all = head_times(self.heads@);
        proof {
            assert(times@ =~= all.take(0));
        }
        while i < self.heads.len()
            invariant
                i <= self.heads@.len(),
                all == head_times(self.heads@),
                times@ == all.take(i as int),
            decreases self.heads@.len() - i,
        {
            times.push(
                match &self.heads[i] {
                    Some(packet) => Some(packet.pts),
                    None => None,
                },
            );
            proof {
                assert(all.take(i + 1) =~= all.take(i as int).push(all[i as int]));
            }
            i += 1;
        }
        proof {
            assert(all.take(i as int) =~= all);
        }
        let next = next_stream(&times, &self.bases);
        proof {
            if next is None {
                assert forall|k: int| 0 <= k < self.heads@.len() implies (
                #[trigger] self.heads@[k]) is None by {
                    assert(all[k] is None);
                }
            }
        }
        next
    }

    /// Write the packet at the head of the `i`th stream; `following` is the
    /// one behind it, if there is one.
    pub fn write(&mut self, i: usize, following: Option<Routed>) -> (result: Result<(), NutError>)
        requires
            old(self).wf(),
            i < old(self).heads@.len(),
            old(self).heads@[i as int] is Some,
            old(self).written@[i as int] < u64::MAX,
        ensures
            final(self).wf(),
            final(self).bases == old(self).bases,
            final(self).heads@ == old(self).heads@.update(i as int, following),
            final(self).writer.streams == old(self).writer.streams,
            final(self).writer.time_bases == old(self).writer.time_bases,
            match result {
                Ok(_) => {
                    let bytes = one_packet(
                        routed(i as int, old(self).heads@[i as int]->0),
                        old(self).writer.streams@[i as int],
                        old(self).writer.time_bases@,
                        old(self).writer.written - old(self).writer.last_syncpoint,
                    );
                    &&& final(self).written@ == old(self).written@.update(
                        i as int,
                        (old(self).written@[i as int] + 1) as u64,
                    )
                    &&& final(self).writer.output@ == old(self).writer.output@ + bytes
                    &&& final(self).writer.written == sum(
                        old(self).writer.written as int,
                        bytes.len() as int,
                    )
                    &&& final(self).writer.last_syncpoint == old(self).writer.written
                },
                Err(_) => {
                    &&& final(self).written == old(self).written
                    &&& final(self).writer == old(self).writer
                },
            },
            result is Ok && is_next(head_times(old(self).heads@), old(self).bases@, i as int) ==> (
            forall|
                header: HeaderModel,
                queues: Seq<Seq<PacketModel>>,
                left: Seq<Seq<PacketModel>>,
                taken: Seq<PacketModel>,
                handed: Seq<u8>,
            |
                #[trigger] old(self).carries(header, queues, left, taken, handed) && begins(
                    i as int,
                    following,
                    left[i as int].skip(1),
                ) ==> final(self).carries(
                    header,
                    queues,
                    behind(left, i as int),
                    taken.push(left[i as int][0]),
                    handed,
                )),
            result is Err <==> old(self).heads@[i as int]->0.pts < 0,
            result matches Err(error) ==> error == NutError::Malformed(
                Fault::NegativeTimestamp(old(self).heads@[i as int]->0.pts),
            ),
    {
        let ghost before = self.heads@;
        // The head is moved out of its place and the next one put there.
        self.heads.push(following);
        let head = self.heads.swap_remove(i);
        match head {
            Some(packet) => {
                let outgoing = Packet {
                    stream: i,
                    pts: packet.pts,
                    key: packet.key,
                    data: packet.data,
                };
                proof {
                    assert(self.heads@ =~= before.update(i as int, following));
                }
                self.writer.write(&outgoing)?;
                let count = self.written[i];
                self.written.set(i, count + 1);
                proof {
                    let at = i as int;
                    assert(added(old(self).writer, outgoing@, self.writer));
                    if is_next(head_times(before), self.bases@, at) {
                        assert forall|
                            header: HeaderModel,
                            queues: Seq<Seq<PacketModel>>,
                            left: Seq<Seq<PacketModel>>,
                            taken: Seq<PacketModel>,
                            handed: Seq<u8>,
                        |
                            #[trigger] old(self).carries(header, queues, left, taken, handed)
                                && begins(at, following, left[at].skip(1)) implies self.carries(
                            header,
                            queues,
                            behind(left, at),
                            taken.push(left[at][0]),
                            handed,
                        ) by {
                            lemma_carried(
                                *old(self),
                                *self,
                                i,
                                following,
                                header,
                                queues,
                                left,
                                taken,
                                handed,
                            );
                        }
                    }
                }
                Ok(())
            },
            None => Ok(()),
        }
    }

    /// Hand over what has been written and not handed over yet.
    pub fn take(&mut self) -> (bytes: Vec<u8>)
        ensures
            bytes@ == old(self).writer.output@,
            final(self).writer.output@.len() == 0,
            final(self).writer.streams == old(self).writer.streams,
            final(self).writer.time_bases == old(self).writer.time_bases,
            final(self).writer.written == old(self).writer.written,
            final(self).writer.last_syncpoint == old(self).writer.last_syncpoint,
            final(self).bases == old(self).bases,
            final(self).heads == old(self).heads,
            final(self).written == old(self).written,
            forall|
                header: HeaderModel,
                queues: Seq<Seq<PacketModel>>,
                left: Seq<Seq<PacketModel>>,
                taken: Seq<PacketModel>,
                handed: Seq<u8>,
            |
                #[trigger] old(self).carries(header, queues, left, taken, handed)
                    ==> final(self).carries(header, queues, left, taken, handed + bytes@),
    {
        let bytes = self.writer.take();
        proof {
            assert forall|
                header: HeaderModel,
                queues: Seq<Seq<PacketModel>>,
                left: Seq<Seq<PacketModel>>,
                taken: Seq<PacketModel>,
                handed: Seq<u8>,
            |
                #[trigger] old(self).carries(header, queues, left, taken, handed) implies self.carries(
                header,
                queues,
                left,
                taken,
                handed + bytes@,
            ) by {
                assert((handed + bytes@) + self.writer.output@ =~= handed + bytes@);
            }
        }
        bytes
    }
}

/// The heads of the streams are the fronts of the queues they begin.
proof fn lemma_fronts(heads: Seq<Option<Routed>>, left: Seq<Seq<PacketModel>>)
    requires
        heads.len() == left.len(),
        forall|i: int| 0 <= i < left.len() ==> begins(i, #[trigger] heads[i], left[i]),
    ensures
        head_times(heads) == fronts(left),
{
    assert forall|i: int| 0 <= i < left.len() implies head_times(heads)[i] == fronts(left)[i] by {
        assert(begins(i, heads[i], left[i]));
    }
    assert(head_times(heads) =~= fronts(left));
}

/// The packet that is next leaves its queue and joins those that were taken.
proof fn lemma_carried(
    before: Interleave,
    after: Interleave,
    i: usize,
    following: Option<Routed>,
    header: HeaderModel,
    queues: Seq<Seq<PacketModel>>,
    left: Seq<Seq<PacketModel>>,
    taken: Seq<PacketModel>,
    handed: Seq<u8>,
)
    requires
        before.carries(header, queues, left, taken, handed),
        is_next(head_times(before.heads@), before.bases@, i as int),
        begins(i as int, following, left[i as int].skip(1)),
        after.wf(),
        after.bases == before.bases,
        after.heads@ == before.heads@.update(i as int, following),
        before.written@[i as int] < u64::MAX,
        after.written@ == before.written@.update(
            i as int,
            (before.written@[i as int] + 1) as u64,
        ),
        added(before.writer, routed(i as int, before.heads@[i as int]->0), after.writer),
    ensures
        after.carries(
            header,
            queues,
            behind(left, i as int),
            taken.push(left[i as int][0]),
            handed,
        ),
{
    let at = i as int;
    let packet = left[at][0];
    let later = behind(left, at);
    let bases = before.bases@;
    lemma_fronts(before.heads@, left);
    assert(head_times(before.heads@)[at] is Some);
    assert(begins(at, before.heads@[at], left[at]));
    lemma_merged(left, bases, at);
    lemma_labelled(left, at);
    a_packet_is_added(before.writer, after.writer, handed, header, taken, packet);
    assert(taken.push(packet) + merged(later, bases) =~= taken + (seq![packet] + merged(
        later,
        bases,
    )));
    assert forall|k: int| 0 <= k < later.len() implies begins(
        k,
        #[trigger] after.heads@[k],
        later[k],
    ) by {
        if k != at {
            assert(begins(k, before.heads@[k], left[k]));
        }
    }
    assert forall|k: int| 0 <= k < later.len() implies (#[trigger] after.written@[k])
        + later[k].len() == queues[k].len() by {
        assert(before.written@[k] + left[k].len() == queues[k].len());
    }
}

/// Once no stream has a packet at its head, everything that was queued is in
/// the stream that was written, in the order of its interleaving, and as many
/// packets of every stream were written as were queued.
pub proof fn an_ended_interleave_wrote_every_queue(
    interleave: Interleave,
    header: HeaderModel,
    queues: Seq<Seq<PacketModel>>,
    left: Seq<Seq<PacketModel>>,
    taken: Seq<PacketModel>,
    handed: Seq<u8>,
)
    requires
        interleave.carries(header, queues, left, taken, handed),
        forall|i: int|
            0 <= i < interleave.heads@.len() ==> (#[trigger] interleave.heads@[i]) is None,
    ensures
        taken == merged(queues, interleave.bases@),
        handed + interleave.writer.output@ == written_bytes(
            header,
            merged(queues, interleave.bases@),
        ),
        forall|i: int|
            0 <= i < queues.len() ==> (#[trigger] interleave.written@[i]) == queues[i].len(),
{
    let bases = interleave.bases@;
    assert forall|i: int| 0 <= i < left.len() implies (#[trigger] left[i]).len() == 0 by {
        assert(begins(i, interleave.heads@[i], left[i]));
    }
    assert(merged(left, bases).len() == 0) by {
        assert forall|i: int| !is_next(fronts(left), bases, i) by {
            if is_next(fronts(left), bases, i) {
                assert(fronts(left)[i] is Some);
                assert(left[i].len() == 0);
            }
        }
    }
    assert(taken + merged(left, bases) =~= taken);
    assert forall|i: int| 0 <= i < queues.len() implies (#[trigger] interleave.written@[i])
        == queues[i].len() by {
        assert(left[i].len() == 0);
    }
}

/// What comes back of an interleaving that has ended. What was handed over and
/// is held, if it opens, gives the queued packets, interleaved, each with its
/// timestamp, its data and its mark as a key, and then nothing; those of every
/// stream are its queue. It opens wherever the header fits the format and there
/// is a packet.
pub proof fn an_ended_interleave_gives_every_queue_back(
    interleave: Interleave,
    header: HeaderModel,
    queues: Seq<Seq<PacketModel>>,
    left: Seq<Seq<PacketModel>>,
    taken: Seq<PacketModel>,
    handed: Seq<u8>,
)
    requires
        interleave.carries(header, queues, left, taken, handed),
        forall|i: int|
            0 <= i < interleave.heads@.len() ==> (#[trigger] interleave.heads@[i]) is None,
        labelled(queues),
        forall|i: int, k: int|
            0 <= i < queues.len() && 0 <= k < queues[i].len() ==> (#[trigger] queues[i][k]).pts >= 0
                && queues[i][k].data.len() <= MAX_FRAME,
        header.streams.len() + header.chapters.len() <= u64::MAX,
        (handed + interleave.writer.output@).len() <= u64::MAX,
    ensures
        forall|i: int| 0 <= i < queues.len() ==> #[trigger] of_stream(taken, i) == queues[i],
        opened(handed + interleave.writer.output@) matches Ok(there) ==> reads(
            ReadingModel { streams: there.header.streams, main: there.main },
            Seq::new(there.header.streams.len(), |i: int| 0i64),
            handed + interleave.writer.output@,
            there.at,
            taken,
        ),
        header_fits(normal(header)) && waiting(queues) > 0 ==> (opened(
            handed + interleave.writer.output@,
        ) matches Ok(there) && there.header == normal(header)),
{
    an_ended_interleave_wrote_every_queue(interleave, header, queues, left, taken, handed);
    assert(interleave.writer.streams@.len() == header.streams.len());
    interleaved_queues_come_back(header, queues, interleave.bases@);
}

} // verus!
