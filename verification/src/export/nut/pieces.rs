//! A stream that is read in pieces, what has been read dropped.
use super::fault::Fault;
use super::header::{body_at, lemma_body_ends, startcode_at};
use super::number::{continued, number_from, v_at};
use super::partial::{lemma_cut_body, lemma_cut_next, lemma_cut_startcode};
use super::read::{frame_at, head_at, maybe_v_at, next_at, past_numbers, pts_of, sizes_at, synced};
use super::read::{NextModel, ReadingModel};
use super::round_trip::reads;
use super::{flagged, FrameCode, PacketModel, FLAG_CHECKSUM, FLAG_CODED, FLAG_CODED_PTS};
use super::{FLAG_HEADER_IDX, FLAG_MATCH_TIME, FLAG_RESERVED, FLAG_SIZE_MSB, FLAG_STREAM_ID};
use super::{STARTCODE_BYTE, SYNCPOINT_STARTCODE};
use vstd::prelude::*;

verus! {

/// What was read, with its end `n` bytes further on.
pub open spec fn further<T>(read: Result<(T, int), Fault>, n: int) -> Result<(T, int), Fault> {
    match read {
        Ok((found, end)) => Ok((found, n + end)),
        Err(fault) => Err(fault),
    }
}

/// A number is read the same behind what was put in front.
proof fn lemma_number(front: Seq<u8>, s: Seq<u8>, at: int, number: int, left: nat, ended: Fault)
    requires
        0 <= at,
    ensures
        number_from(front + s, front.len() + at, number, left, ended) == further(
            number_from(s, at, number, left, ended),
            front.len() as int,
        ),
        number_from(s, at, number, left, ended) matches Ok((_, next)) ==> at < next <= s.len(),
    decreases left,
{
    if left > 0 && at < s.len() {
        assert((front + s)[front.len() + at] == s[at]);
        lemma_number(front, s, at + 1, continued(number, s[at]), (left - 1) as nat, ended);
    }
}

/// A number that may be there.
proof fn lemma_maybe(front: Seq<u8>, s: Seq<u8>, at: int, present: bool, default: u64)
    requires
        0 <= at <= s.len(),
    ensures
        maybe_v_at(front + s, front.len() + at, present, default) == further(
            maybe_v_at(s, at, present, default),
            front.len() as int,
        ),
        maybe_v_at(s, at, present, default) matches Ok((_, next)) ==> at <= next <= s.len(),
{
    lemma_number(front, s, at, 0, 10, Fault::EndsInNumber);
}

/// Numbers that are read past.
proof fn lemma_numbers(front: Seq<u8>, s: Seq<u8>, at: int, count: int)
    requires
        0 <= at <= s.len(),
    ensures
        match (past_numbers(s, at, count), past_numbers(front + s, front.len() + at, count)) {
            (Ok(a), Ok(b)) => b == front.len() + a && at <= a <= s.len(),
            (Err(a), Err(b)) => a == b,
            _ => false,
        },
    decreases count,
{
    if count > 0 {
        lemma_number(front, s, at, 0, 10, Fault::EndsInNumber);
        if let Ok((_, next)) = v_at(s, at, Fault::EndsInNumber) {
            lemma_numbers(front, s, next, count - 1);
        }
    }
}

/// A part of a stream, behind what was put in front.
proof fn lemma_part(front: Seq<u8>, s: Seq<u8>, from: int, to: int)
    requires
        0 <= from <= to <= s.len(),
    ensures
        (front + s).subrange(front.len() + from, front.len() + to) == s.subrange(from, to),
{
    assert((front + s).subrange(front.len() + from, front.len() + to) =~= s.subrange(from, to));
}

/// A packet's body.
proof fn lemma_body(front: Seq<u8>, s: Seq<u8>, at: int, code: u64)
    requires
        0 <= at,
    ensures
        body_at(front + s, front.len() + at, code) == further(
            body_at(s, at, code),
            front.len() as int,
        ),
{
    reveal(body_at);
    lemma_number(front, s, at, 0, 10, Fault::EndsInNumber);
    if let Ok((forward, next)) = v_at(s, at, Fault::EndsInNumber) {
        if forward > 4096 && next + 4 <= s.len() {
            lemma_part(front, s, at, next + 4);
        }
        let start = if forward > 4096 {
            next + 4
        } else {
            next
        };
        if forward >= 4 && start + forward <= s.len() {
            lemma_part(front, s, start, start + forward);
            lemma_part(front, s, start, start + forward - 4);
        }
    }
}

/// A frame header from its size on.
proof fn lemma_sizes(
    front: Seq<u8>,
    s: Seq<u8>,
    at: int,
    code: FrameCode,
    flags: u64,
    stream: u64,
    pts: i64,
)
    requires
        0 <= at <= s.len(),
    ensures
        sizes_at(front + s, front.len() + at, code, flags, stream, pts) == further(
            sizes_at(s, at, code, flags, stream, pts),
            front.len() as int,
        ),
        sizes_at(s, at, code, flags, stream, pts) matches Ok((_, next)) ==> at <= next <= s.len(),
{
    reveal(sizes_at);
    lemma_maybe(front, s, at, flagged(flags, FLAG_SIZE_MSB), 0);
    if let Ok((_, at)) = maybe_v_at(s, at, flagged(flags, FLAG_SIZE_MSB), 0) {
        lemma_maybe(front, s, at, flagged(flags, FLAG_MATCH_TIME), 0);
        if let Ok((_, at)) = maybe_v_at(s, at, flagged(flags, FLAG_MATCH_TIME), 0) {
            lemma_maybe(front, s, at, flagged(flags, FLAG_HEADER_IDX), 0);
            if let Ok((_, at)) = maybe_v_at(s, at, flagged(flags, FLAG_HEADER_IDX), 0) {
                lemma_maybe(front, s, at, flagged(flags, FLAG_RESERVED), code.reserved);
                if let Ok((reserved, at)) = maybe_v_at(
                    s,
                    at,
                    flagged(flags, FLAG_RESERVED),
                    code.reserved,
                ) {
                    lemma_numbers(
                        front,
                        s,
                        at,
                        if reserved < 256 {
                            reserved as int
                        } else {
                            256
                        },
                    );
                }
            }
        }
    }
}

/// A frame header.
proof fn lemma_head(reading: ReadingModel, last: Seq<i64>, front: Seq<u8>, s: Seq<u8>, at: int)
    requires
        0 <= at < s.len(),
    ensures
        head_at(reading, last, front + s, front.len() + at) == further(
            head_at(reading, last, s, at),
            front.len() as int,
        ),
        head_at(reading, last, s, at) matches Ok((_, next)) ==> at < next <= s.len(),
{
    assert((front + s)[front.len() + at] == s[at]);
    let code = reading.main.codes[s[at] as int];
    lemma_maybe(front, s, at + 1, flagged(code.flags, FLAG_CODED), 0);
    if let Ok((changed, at)) = maybe_v_at(s, at + 1, flagged(code.flags, FLAG_CODED), 0) {
        let flags = code.flags ^ changed;
        lemma_maybe(front, s, at, flagged(flags, FLAG_STREAM_ID), code.stream);
        if let Ok((stream, at)) = maybe_v_at(s, at, flagged(flags, FLAG_STREAM_ID), code.stream) {
            lemma_maybe(front, s, at, flagged(flags, FLAG_CODED_PTS), 0);
            if let Ok((coded, at)) = maybe_v_at(s, at, flagged(flags, FLAG_CODED_PTS), 0) {
                let before = last[stream as int];
                let pts = if flagged(flags, FLAG_CODED_PTS) {
                    pts_of(coded, reading.streams[stream as int].msb_pts_shift, before)
                } else {
                    crate::num::clamped(before + code.pts_delta)
                };
                lemma_sizes(front, s, at, code, flags, stream, pts);
            }
        }
    }
}

/// A frame.
proof fn lemma_frame(reading: ReadingModel, last: Seq<i64>, front: Seq<u8>, s: Seq<u8>, at: int)
    requires
        0 <= at < s.len(),
    ensures
        frame_at(reading, last, front + s, front.len() + at) == further(
            frame_at(reading, last, s, at),
            front.len() as int,
        ),
{
    lemma_head(reading, last, front, s, at);
    if let Ok((head, next)) = head_at(reading, last, s, at) {
        if head.header_idx < reading.main.elision.len() {
            let elided = reading.main.elision[head.header_idx as int];
            let start = if flagged(head.flags, FLAG_CHECKSUM) {
                next + 4
            } else {
                next
            };
            let size = head.size - elided.len();
            if start <= s.len() {
                lemma_part(front, s, at, start);
            }
            if size >= 0 && start + size <= s.len() {
                lemma_part(front, s, start, start + size);
            }
        }
    }
}

/// What comes next, `n` bytes further on.
pub open spec fn next_further(next: Result<NextModel, Fault>, n: int) -> Result<NextModel, Fault> {
    match next {
        Ok(next) => Ok(NextModel { at: n + next.at, ..next }),
        Err(fault) => Err(fault),
    }
}

/// What has been read decides nothing of what comes next: a reader that has
/// dropped it reads on as one that has kept it, and finds the same faults.
pub proof fn what_was_read_can_be_dropped(
    reading: ReadingModel,
    last: Seq<i64>,
    read: Seq<u8>,
    s: Seq<u8>,
    at: int,
)
    requires
        0 <= at,
    ensures
        next_at(reading, last, read + s, read.len() + at) == next_further(
            next_at(reading, last, s, at),
            read.len() as int,
        ),
    decreases s.len() - at,
{
    let whole = read + s;
    let n = read.len() as int;
    if at < s.len() {
        assert(whole[n + at] == s[at]);
        if s[at] == STARTCODE_BYTE {
            if at + 8 <= s.len() {
                lemma_part(read, s, at, at + 8);
                let code = startcode_at(s, at);
                assert(startcode_at(whole, n + at) == code);
                lemma_body(read, s, at + 8, code as u64);
                lemma_body_ends(s, at + 8, code as u64);
                if let Ok((body, next)) = body_at(s, at + 8, code as u64) {
                    if code == SYNCPOINT_STARTCODE {
                        if let Ok(after) = synced(body, reading) {
                            what_was_read_can_be_dropped(reading, after, read, s, next);
                        }
                    } else {
                        what_was_read_can_be_dropped(reading, last, read, s, next);
                    }
                }
            }
        } else {
            lemma_frame(reading, last, read, s, at);
        }
    }
}

/// Where a stream that is cut off ends between two packets, the whole goes on
/// from there.
proof fn lemma_cut_end(reading: ReadingModel, last: Seq<i64>, s: Seq<u8>, cut: int, at: int)
    requires
        0 <= cut <= s.len(),
        0 <= at <= cut,
    ensures
        next_at(reading, last, s.take(cut), at) matches Ok(next) ==> next.packet is None ==> {
            &&& next.at == cut
            &&& next_at(reading, last, s, at) == next_at(reading, next.last, s, cut)
        },
    decreases cut - at,
{
    let t = s.take(cut);
    if at < cut {
        assert(t[at] == s[at]);
        if s[at] == STARTCODE_BYTE && at + 8 <= cut {
            lemma_cut_startcode(s, cut, at);
            let code = startcode_at(t, at);
            lemma_cut_body(s, cut, at + 8, code as u64);
            lemma_body_ends(t, at + 8, code as u64);
            if let Ok((body, next)) = body_at(t, at + 8, code as u64) {
                if code == SYNCPOINT_STARTCODE {
                    if let Ok(after) = synced(body, reading) {
                        lemma_cut_end(reading, after, s, cut, next);
                    }
                } else {
                    lemma_cut_end(reading, last, s, cut, next);
                }
            }
        }
    }
}

/// A packet that is read ends within the stream, behind where it was looked
/// for.
pub proof fn lemma_next_ends(reading: ReadingModel, last: Seq<i64>, s: Seq<u8>, at: int)
    requires
        0 <= at <= s.len(),
    ensures
        next_at(reading, last, s, at) matches Ok(next) ==> at <= next.at <= s.len() && (
        next.packet is Some ==> at < next.at),
    decreases s.len() - at,
{
    if at < s.len() {
        if s[at] == STARTCODE_BYTE {
            if at + 8 <= s.len() {
                let code = startcode_at(s, at);
                lemma_body_ends(s, at + 8, code as u64);
                if let Ok((body, next)) = body_at(s, at + 8, code as u64) {
                    if code == SYNCPOINT_STARTCODE {
                        if let Ok(after) = synced(body, reading) {
                            lemma_next_ends(reading, after, s, next);
                        }
                    } else {
                        lemma_next_ends(reading, last, s, next);
                    }
                }
            }
        } else {
            assert(Seq::<u8>::empty() + s =~= s);
            lemma_head(reading, last, Seq::empty(), s, at);
        }
    }
}

/// What is read of a piece is what is read of the whole. `s` has `read` bytes
/// that were dropped, then what is here, then what is still to come. A packet
/// that is found here is the one found in the whole, and the reader is where it
/// would be there; where none is found any more, it goes on as it would.
pub proof fn a_piece_reads_as_the_whole(
    reading: ReadingModel,
    last: Seq<i64>,
    read: Seq<u8>,
    here: Seq<u8>,
    later: Seq<u8>,
    at: int,
)
    requires
        0 <= at <= here.len(),
    ensures
        next_at(reading, last, here, at) matches Ok(next) ==> {
            let s = read + here + later;
            &&& next.packet is Some ==> next_at(reading, last, s, read.len() + at) == Ok::<
                NextModel,
                Fault,
            >(NextModel { at: read.len() + next.at, ..next })
            &&& next.packet is None ==> next_at(reading, last, s, read.len() + at) == next_at(
                reading,
                next.last,
                s,
                read.len() + next.at,
            )
        },
{
    let more = here + later;
    let n = here.len() as int;
    assert(read + here + later =~= read + more);
    assert(more.take(n) =~= here);
    what_was_read_can_be_dropped(reading, last, read, more, at);
    lemma_cut_next(reading, last, more, n, at);
    lemma_cut_end(reading, last, more, n, at);
    if let Ok(next) = next_at(reading, last, here, at) {
        lemma_next_ends(reading, last, here, at);
        what_was_read_can_be_dropped(reading, next.last, read, more, next.at);
    }
}

/// The packets that a reader reads which has `here` and is at `at`, and which
/// is fed the next of `pieces` whenever it finds no further packet in what it
/// has: it drops what it has read then.
pub open spec fn read_in_pieces(
    reading: ReadingModel,
    last: Seq<i64>,
    here: Seq<u8>,
    at: int,
    pieces: Seq<Seq<u8>>,
) -> Seq<PacketModel>
    decreases pieces.len(), here.len() - at,
    via read_in_pieces_decreases
{
    if at < 0 || at > here.len() {
        Seq::empty()
    } else {
        match next_at(reading, last, here, at) {
            Ok(next) => match next.packet {
                Some(packet) => seq![packet] + read_in_pieces(
                    reading,
                    next.last,
                    here,
                    next.at,
                    pieces,
                ),
                None => if pieces.len() == 0 {
                    Seq::empty()
                } else {
                    read_in_pieces(
                        reading,
                        next.last,
                        here.skip(next.at) + pieces[0],
                        0,
                        pieces.skip(1),
                    )
                },
            },
            Err(_) => if pieces.len() == 0 {
                Seq::empty()
            } else {
                read_in_pieces(reading, last, here.skip(at) + pieces[0], 0, pieces.skip(1))
            },
        }
    }
}

#[via_fn]
proof fn read_in_pieces_decreases(
    reading: ReadingModel,
    last: Seq<i64>,
    here: Seq<u8>,
    at: int,
    pieces: Seq<Seq<u8>>,
) {
    if 0 <= at <= here.len() {
        lemma_next_ends(reading, last, here, at);
    }
}

/// Pieces, one behind another.
pub open spec fn joined(pieces: Seq<Seq<u8>>) -> Seq<u8>
    decreases pieces.len(),
{
    if pieces.len() == 0 {
        Seq::empty()
    } else {
        pieces[0] + joined(pieces.skip(1))
    }
}

/// What is read does not depend on bytes that were dropped.
proof fn lemma_read_behind(
    reading: ReadingModel,
    last: Seq<i64>,
    read: Seq<u8>,
    s: Seq<u8>,
    at: int,
)
    requires
        0 <= at <= s.len(),
    ensures
        read_in_pieces(reading, last, read + s, read.len() + at, Seq::empty()) == read_in_pieces(
            reading,
            last,
            s,
            at,
            Seq::empty(),
        ),
    decreases s.len() - at,
{
    what_was_read_can_be_dropped(reading, last, read, s, at);
    lemma_next_ends(reading, last, s, at);
    if let Ok(next) = next_at(reading, last, s, at) {
        if next.packet is Some {
            lemma_read_behind(reading, next.last, read, s, next.at);
        }
    }
}

/// Two readers of one stream whose next packet is the same, and behind which
/// they go on alike, read the same.
proof fn lemma_same_next(
    reading: ReadingModel,
    last: Seq<i64>,
    s: Seq<u8>,
    at: int,
    other: Seq<i64>,
    there: int,
)
    requires
        0 <= at <= s.len(),
        0 <= there <= s.len(),
        next_at(reading, last, s, at) == next_at(reading, other, s, there),
    ensures
        read_in_pieces(reading, last, s, at, Seq::empty()) == read_in_pieces(
            reading,
            other,
            s,
            there,
            Seq::empty(),
        ),
{
}

/// A reader that is fed reads on as one that had everything.
proof fn lemma_fed(
    reading: ReadingModel,
    last: Seq<i64>,
    here: Seq<u8>,
    at: int,
    piece: Seq<u8>,
    rest: Seq<u8>,
)
    requires
        0 <= at <= here.len(),
    ensures
        read_in_pieces(reading, last, here + (piece + rest), at, Seq::empty()) == read_in_pieces(
            reading,
            last,
            here.skip(at) + piece + rest,
            0,
            Seq::empty(),
        ),
{
    let fed = here.skip(at) + piece + rest;
    assert(here + (piece + rest) =~= here.take(at) + fed);
    lemma_read_behind(reading, last, here.take(at), fed, 0);
}

/// A packet that is found is the first of those that are read.
proof fn lemma_found(
    reading: ReadingModel,
    last: Seq<i64>,
    here: Seq<u8>,
    at: int,
    pieces: Seq<Seq<u8>>,
    next: NextModel,
)
    requires
        0 <= at <= here.len(),
        next_at(reading, last, here, at) == Ok::<NextModel, Fault>(next),
        next.packet is Some,
    ensures
        read_in_pieces(reading, last, here, at, pieces) == seq![next.packet->0] + read_in_pieces(
            reading,
            next.last,
            here,
            next.at,
            pieces,
        ),
{
}

/// A stream gives the same packets whether it is read whole or in pieces of any
/// size, what has been read dropped in between: every packet once, in order,
/// each as it is.
pub proof fn pieces_read_as_the_whole(
    reading: ReadingModel,
    last: Seq<i64>,
    here: Seq<u8>,
    at: int,
    pieces: Seq<Seq<u8>>,
)
    requires
        0 <= at <= here.len(),
    ensures
        read_in_pieces(reading, last, here, at, pieces) == read_in_pieces(
            reading,
            last,
            here + joined(pieces),
            at,
            Seq::empty(),
        ),
    decreases pieces.len(), here.len() - at,
{
    let none = Seq::<Seq<u8>>::empty();
    let whole = here + joined(pieces);
    lemma_next_ends(reading, last, here, at);
    if pieces.len() == 0 {
        assert(pieces =~= none);
        assert(whole =~= here);
    } else {
        let (piece, later) = (pieces[0], pieces.skip(1));
        let rest = joined(later);
        match next_at(reading, last, here, at) {
            Ok(next) => {
                assert(Seq::<u8>::empty() + here + joined(pieces) =~= whole);
                a_piece_reads_as_the_whole(reading, last, Seq::empty(), here, joined(pieces), at);
                if next.packet is Some {
                    pieces_read_as_the_whole(reading, next.last, here, next.at, pieces);
                    lemma_found(reading, last, here, at, pieces, next);
                    lemma_found(reading, last, whole, at, none, next);
                } else {
                    pieces_read_as_the_whole(
                        reading,
                        next.last,
                        here.skip(next.at) + piece,
                        0,
                        later,
                    );
                    lemma_fed(reading, next.last, here, next.at, piece, rest);
                    lemma_same_next(reading, last, whole, at, next.last, next.at);
                }
            },
            Err(_) => {
                pieces_read_as_the_whole(reading, last, here.skip(at) + piece, 0, later);
                lemma_fed(reading, last, here, at, piece, rest);
            },
        }
    }
}

/// What a stream holds is what a reader of it reads.
proof fn lemma_read_whole(
    reading: ReadingModel,
    last: Seq<i64>,
    s: Seq<u8>,
    at: int,
    packets: Seq<PacketModel>,
)
    requires
        0 <= at <= s.len(),
        reads(reading, last, s, at, packets),
    ensures
        read_in_pieces(reading, last, s, at, Seq::empty()) == packets,
    decreases packets.len(),
{
    lemma_next_ends(reading, last, s, at);
    if packets.len() > 0 {
        let next = next_at(reading, last, s, at)->Ok_0;
        lemma_read_whole(reading, next.last, s, next.at, packets.skip(1));
        assert(seq![packets[0]] + packets.skip(1) =~= packets);
    } else {
        assert(packets =~= Seq::empty());
    }
}

/// The packets of a stream come out of it in whatever pieces it arrives.
pub proof fn pieces_give_the_packets_of_their_stream(
    reading: ReadingModel,
    last: Seq<i64>,
    here: Seq<u8>,
    at: int,
    pieces: Seq<Seq<u8>>,
    packets: Seq<PacketModel>,
)
    requires
        0 <= at <= here.len(),
        reads(reading, last, here + joined(pieces), at, packets),
    ensures
        read_in_pieces(reading, last, here, at, pieces) == packets,
{
    pieces_read_as_the_whole(reading, last, here, at, pieces);
    lemma_read_whole(reading, last, here + joined(pieces), at, packets);
}

} // verus!
