//! What can be read of a stream that is cut off, and of one whose header comes
//! back changed.
use super::fault::{Fault, NutError};
use super::header::{body_at, headers_at, header_taken, lemma_body_ends, main_at, opened};
use super::header::{startcode_at, stream_of, timing_of, DraftModel};
use super::number::{checksum, coded, lemma_stands_split, number_from, numbers_round_trip, stands};
use super::number::v_at;
use super::read::{frame_at, head_at, maybe_v_at, next_at, past_numbers, sizes_at, synced};
use super::read::{sum, NextModel, ReadingModel};
use super::round_trip::{all_packets, lemma_field, lemma_first_byte, lemma_gathered, lemma_head};
use super::round_trip::{lemma_main_at, lemma_no_elisions, lemma_packet, lemma_sync, lemma_table};
use super::round_trip::{lemma_table_names_elisions, one_packet, packets_round_trip, reads};
use super::round_trip::{tables_bytes, written_table};
use super::table::{main_of, main_tables_of, time_base_of, time_bases_at, MainModel};
use super::write::{all_bases, base_index, bases_bytes, chapter_infos, chapter_start, class_number};
use super::write::{config_bytes, frame_bytes, frame_head, gathered, header_bytes, id_string};
use super::write::{identity_bytes, info_body, lanes, lemma_base_index, magnitude, main_body, normal};
use super::write::{packet_bytes, packet_head, run_bytes, stream_body, stream_infos, stream_packets};
use super::write::{sync_body, timing_bytes, Lane};
use super::{flagged, ChapterModel, Class, FrameCode, HeaderModel, PacketModel, StreamModel};
use super::{FLAG_CHECKSUM, FLAG_CODED, FLAG_CODED_PTS, FLAG_HEADER_IDX, FLAG_MATCH_TIME};
use super::{FLAG_RESERVED, FLAG_SIZE_MSB, FLAG_STREAM_ID, INFO_STARTCODE, MAIN_STARTCODE};
use super::{MAX_FRAME, MAX_HEADER, STARTCODE_BYTE, STREAM_STARTCODE, SYNCPOINT_STARTCODE};
use crate::bytes::{big_endian, big_endian_round_trip, lemma_endian_len, pow256};
use crate::probe::Rational;
use vstd::prelude::*;

verus! {

/// A number that is read of a stream cut off is the number that is there.
proof fn lemma_cut_number(s: Seq<u8>, cut: int, at: int, number: int, left: nat, ended: Fault)
    requires
        0 <= cut <= s.len(),
    ensures
        number_from(s.take(cut), at, number, left, ended) matches Ok((n, next)) ==> {
            &&& number_from(s, at, number, left, ended) == Ok::<(u64, int), Fault>((n, next))
            &&& at < next <= cut
        },
    decreases left,
{
    if left > 0 && 0 <= at < cut {
        let next = super::number::continued(number, s[at]);
        assert(s.take(cut)[at] == s[at]);
        lemma_cut_number(s, cut, at + 1, next, (left - 1) as nat, ended);
    }
}

/// A number that may be there, of a stream cut off.
proof fn lemma_cut_maybe(s: Seq<u8>, cut: int, at: int, present: bool, default: u64)
    requires
        0 <= cut <= s.len(),
        at <= cut,
    ensures
        maybe_v_at(s.take(cut), at, present, default) matches Ok((n, next)) ==> {
            &&& maybe_v_at(s, at, present, default) == Ok::<(u64, int), Fault>((n, next))
            &&& at <= next <= cut
        },
{
    lemma_cut_number(s, cut, at, 0, 10, Fault::EndsInNumber);
}

/// Numbers read past, of a stream cut off.
proof fn lemma_cut_numbers(s: Seq<u8>, cut: int, at: int, count: int)
    requires
        0 <= cut <= s.len(),
        at <= cut,
    ensures
        past_numbers(s.take(cut), at, count) matches Ok(next) ==> {
            &&& past_numbers(s, at, count) == Ok::<int, Fault>(next)
            &&& at <= next <= cut
        },
    decreases count,
{
    if count > 0 {
        lemma_cut_number(s, cut, at, 0, 10, Fault::EndsInNumber);
        if let Ok((_, next)) = v_at(s.take(cut), at, Fault::EndsInNumber) {
            lemma_cut_numbers(s, cut, next, count - 1);
        }
    }
}

/// A packet's body that is read of a stream cut off is the one that is there.
pub proof fn lemma_cut_body(s: Seq<u8>, cut: int, at: int, code: u64)
    requires
        0 <= cut <= s.len(),
        0 <= at,
    ensures
        body_at(s.take(cut), at, code) matches Ok(found) ==> body_at(s, at, code) == Ok::<
            (Seq<u8>, int),
            Fault,
        >(found) && found.1 <= cut,
{
    reveal(body_at);
    let t = s.take(cut);
    lemma_cut_number(s, cut, at, 0, 10, Fault::EndsInNumber);
    if let Ok((forward, next)) = v_at(t, at, Fault::EndsInNumber) {
        if forward > 4096 && next + 4 <= cut {
            assert(t.subrange(at, next + 4) =~= s.subrange(at, next + 4));
        }
        let start = if forward > 4096 {
            next + 4
        } else {
            next
        };
        if forward >= 4 && start + forward <= cut {
            assert(t.subrange(start, start + forward) =~= s.subrange(start, start + forward));
            assert(t.subrange(start, start + forward - 4) =~= s.subrange(
                start,
                start + forward - 4,
            ));
        }
    }
}

/// A startcode of a stream cut off is the one that is there.
pub proof fn lemma_cut_startcode(s: Seq<u8>, cut: int, at: int)
    requires
        0 <= cut <= s.len(),
        0 <= at,
        at + 8 <= cut,
    ensures
        startcode_at(s.take(cut), at) == startcode_at(s, at),
{
    assert(s.take(cut).subrange(at, at + 8) =~= s.subrange(at, at + 8));
}

/// A frame header from its size on, of a stream cut off.
proof fn lemma_cut_sizes(
    s: Seq<u8>,
    cut: int,
    at: int,
    code: FrameCode,
    flags: u64,
    stream: u64,
    pts: i64,
)
    requires
        0 <= cut <= s.len(),
        at <= cut,
    ensures
        sizes_at(s.take(cut), at, code, flags, stream, pts) matches Ok(found) ==> sizes_at(
            s,
            at,
            code,
            flags,
            stream,
            pts,
        ) == sizes_at(s.take(cut), at, code, flags, stream, pts) && at <= found.1 <= cut,
{
    reveal(sizes_at);
    let t = s.take(cut);
    lemma_cut_maybe(s, cut, at, flagged(flags, FLAG_SIZE_MSB), 0);
    if let Ok((_, at)) = maybe_v_at(t, at, flagged(flags, FLAG_SIZE_MSB), 0) {
        lemma_cut_maybe(s, cut, at, flagged(flags, FLAG_MATCH_TIME), 0);
        if let Ok((_, at)) = maybe_v_at(t, at, flagged(flags, FLAG_MATCH_TIME), 0) {
            lemma_cut_maybe(s, cut, at, flagged(flags, FLAG_HEADER_IDX), 0);
            if let Ok((_, at)) = maybe_v_at(t, at, flagged(flags, FLAG_HEADER_IDX), 0) {
                lemma_cut_maybe(s, cut, at, flagged(flags, FLAG_RESERVED), code.reserved);
                if let Ok((reserved, at)) = maybe_v_at(
                    t,
                    at,
                    flagged(flags, FLAG_RESERVED),
                    code.reserved,
                ) {
                    lemma_cut_numbers(
                        s,
                        cut,
                        at,
                        if reserved < 256 {
                            reserved as int
                        } else {
                            256
                        },
                    );
                }
            }
        }
    }
}

/// A frame header that is read of a stream cut off is the one that is there.
proof fn lemma_cut_head(reading: ReadingModel, last: Seq<i64>, s: Seq<u8>, cut: int, at: int)
    requires
        0 <= cut <= s.len(),
        0 <= at < cut,
    ensures
        head_at(reading, last, s.take(cut), at) matches Ok(found) ==> head_at(
            reading,
            last,
            s,
            at,
        ) == head_at(reading, last, s.take(cut), at) && at < found.1 <= cut,
{
    let t = s.take(cut);
    assert(t[at] == s[at]);
    let code = reading.main.codes[s[at] as int];
    lemma_cut_maybe(s, cut, at + 1, flagged(code.flags, FLAG_CODED), 0);
    if let Ok((changed, at)) = maybe_v_at(t, at + 1, flagged(code.flags, FLAG_CODED), 0) {
        let flags = code.flags ^ changed;
        lemma_cut_maybe(s, cut, at, flagged(flags, FLAG_STREAM_ID), code.stream);
        if let Ok((stream, at)) = maybe_v_at(t, at, flagged(flags, FLAG_STREAM_ID), code.stream) {
            lemma_cut_maybe(s, cut, at, flagged(flags, FLAG_CODED_PTS), 0);
            if let Ok((coded, at)) = maybe_v_at(t, at, flagged(flags, FLAG_CODED_PTS), 0) {
                let before = last[stream as int];
                let pts = if flagged(flags, FLAG_CODED_PTS) {
                    super::read::pts_of(
                        coded,
                        reading.streams[stream as int].msb_pts_shift,
                        before,
                    )
                } else {
                    crate::num::clamped(before + code.pts_delta)
                };
                lemma_cut_sizes(s, cut, at, code, flags, stream, pts);
            }
        }
    }
}

/// A frame that is read of a stream cut off is the one that is there.
proof fn lemma_cut_frame(reading: ReadingModel, last: Seq<i64>, s: Seq<u8>, cut: int, at: int)
    requires
        0 <= cut <= s.len(),
        0 <= at < cut,
    ensures
        frame_at(reading, last, s.take(cut), at) matches Ok(found) ==> frame_at(
            reading,
            last,
            s,
            at,
        ) == Ok::<(PacketModel, int), Fault>(found) && at < found.1,
{
    let t = s.take(cut);
    lemma_cut_head(reading, last, s, cut, at);
    if let Ok((head, next)) = head_at(reading, last, t, at) {
        if head.header_idx < reading.main.elision.len() {
            let elided = reading.main.elision[head.header_idx as int];
            let start = if flagged(head.flags, FLAG_CHECKSUM) {
                next + 4
            } else {
                next
            };
            let size = head.size - elided.len();
            if start <= cut {
                assert(t.subrange(at, start) =~= s.subrange(at, start));
            }
            if size >= 0 && start + size <= cut {
                assert(t.subrange(start, start + size) =~= s.subrange(start, start + size));
            }
        }
    }
}

/// The packet that is read of a stream cut off is the packet that is there, and
/// reading goes on behind it as in the whole stream.
pub proof fn lemma_cut_next(reading: ReadingModel, last: Seq<i64>, s: Seq<u8>, cut: int, at: int)
    requires
        0 <= cut <= s.len(),
        0 <= at,
    ensures
        next_at(reading, last, s.take(cut), at) matches Ok(next) ==> next.packet is Some ==> next_at(
            reading,
            last,
            s,
            at,
        ) == Ok::<NextModel, Fault>(next) && at < next.at,
    decreases cut - at,
{
    let t = s.take(cut);
    if at < cut {
        assert(t[at] == s[at]);
        if s[at] == STARTCODE_BYTE {
            if at + 8 <= cut {
                lemma_cut_startcode(s, cut, at);
                let code = startcode_at(t, at);
                lemma_cut_body(s, cut, at + 8, code as u64);
                lemma_body_ends(t, at + 8, code as u64);
                if let Ok((body, next)) = body_at(t, at + 8, code as u64) {
                    if code == SYNCPOINT_STARTCODE {
                        if let Ok(after) = synced(body, reading) {
                            lemma_cut_next(reading, after, s, cut, next);
                        }
                    } else {
                        lemma_cut_next(reading, last, s, cut, next);
                    }
                }
            }
        } else {
            lemma_cut_frame(reading, last, s, cut, at);
        }
    }
}

/// Headers that are read of a stream cut off are those that are there.
proof fn lemma_cut_headers(s: Seq<u8>, cut: int, at: int, draft: DraftModel, bases: Seq<Rational>)
    requires
        0 <= cut <= s.len(),
        0 <= at,
    ensures
        headers_at(s.take(cut), at, draft, bases) matches Ok(found) ==> headers_at(
            s,
            at,
            draft,
            bases,
        ) == Ok::<(DraftModel, int), NutError>(found),
    decreases cut - at,
{
    let t = s.take(cut);
    if at + 8 <= cut {
        lemma_cut_startcode(s, cut, at);
        let code = startcode_at(t, at);
        if code != SYNCPOINT_STARTCODE {
            lemma_cut_body(s, cut, at + 8, code as u64);
            lemma_body_ends(t, at + 8, code as u64);
            if let Ok((body, next)) = body_at(t, at + 8, code as u64) {
                if let Ok(after) = header_taken(draft, code as u64, body, bases) {
                    lemma_cut_headers(s, cut, next, after, bases);
                }
            }
        }
    }
}

/// The main header of a stream cut off stands where it stands in the whole.
proof fn lemma_cut_main(s: Seq<u8>, cut: int)
    requires
        0 <= cut <= s.len(),
        main_at(s.take(cut)) + 8 <= cut,
    ensures
        main_at(s) == main_at(s.take(cut)) >= 0,
    decreases cut,
{
    let t = s.take(cut);
    if cut >= 8 {
        lemma_cut_startcode(s, cut, 0);
        if startcode_at(t, 0) != MAIN_STARTCODE {
            assert(t.skip(1) =~= s.skip(1).take(cut - 1));
            lemma_cut_main(s.skip(1), cut - 1);
        }
    }
}

/// What opens a stream that is cut off opens the whole: a reader of the part
/// knows of the headers what a reader of the whole knows.
pub proof fn a_part_opens_as_the_whole(s: Seq<u8>, cut: int)
    requires
        0 <= cut <= s.len(),
        opened(s.take(cut)) is Ok,
    ensures
        opened(s) == opened(s.take(cut)),
{
    let t = s.take(cut);
    lemma_cut_main(s, cut);
    let start = main_at(t);
    lemma_cut_body(s, cut, start + 8, MAIN_STARTCODE);
    lemma_body_ends(t, start + 8, MAIN_STARTCODE);
    let (body, next) = body_at(t, start + 8, MAIN_STARTCODE)->Ok_0;
    let main = super::table::main_of(body)->Ok_0;
    let blank = DraftModel {
        streams: Seq::new(main.streams as nat, |i: int| None::<super::StreamModel>),
        metadata: Seq::empty(),
        chapters: Seq::empty(),
    };
    lemma_cut_headers(s, cut, next, blank, main.time_bases);
}

/// The packets read from `at` on, until the stream ends or is malformed, are
/// the first of `packets`.
pub open spec fn reads_first_of(
    reading: ReadingModel,
    last: Seq<i64>,
    s: Seq<u8>,
    at: int,
    packets: Seq<PacketModel>,
) -> bool
    decreases packets.len(),
{
    match next_at(reading, last, s, at) {
        Ok(next) => next.packet matches Some(packet) ==> {
            &&& packets.len() > 0
            &&& packet == packets[0]
            &&& reads_first_of(reading, next.last, s, next.at, packets.skip(1))
        },
        Err(_) => true,
    }
}

/// What is read of a stream cut off is what is read of the whole, as far as it
/// goes.
pub proof fn a_part_reads_as_the_whole(
    reading: ReadingModel,
    last: Seq<i64>,
    s: Seq<u8>,
    cut: int,
    at: int,
    packets: Seq<PacketModel>,
)
    requires
        0 <= cut <= s.len(),
        0 <= at,
        reads_first_of(reading, last, s, at, packets),
    ensures
        reads_first_of(reading, last, s.take(cut), at, packets),
    decreases packets.len(),
{
    lemma_cut_next(reading, last, s, cut, at);
    if let Ok(next) = next_at(reading, last, s.take(cut), at) {
        if next.packet is Some {
            a_part_reads_as_the_whole(reading, next.last, s, cut, next.at, packets.skip(1));
        }
    }
}

/// A packet of the headers that is read at all is the one that was written.
proof fn lemma_packet_read(s: Seq<u8>, at: int, code: u64, body: Seq<u8>)
    requires
        s.len() <= u64::MAX,
        stands(s, at, packet_bytes(code, body)),
    ensures
        at + 8 <= s.len(),
        startcode_at(s, at) == code,
        body_at(s, at + 8, code) matches Ok(found) ==> {
            &&& body.len() + 4 <= MAX_HEADER
            &&& found == (body, at + packet_bytes(code, body).len())
        },
{
    if body.len() + 4 <= MAX_HEADER {
        lemma_packet(s, at, code, body);
    } else {
        reveal(body_at);
        reveal(packet_bytes);
        let forward = body.len() + 4;
        let start_bytes = big_endian(code as int, 8);
        let length_bytes = coded(forward as int);
        let head = start_bytes + length_bytes;
        let body_sum = big_endian(checksum(0, body) as int, 4);
        lemma_endian_len(code as int, 8);
        lemma_endian_len(checksum(0, body) as int, 4);
        lemma_stands_split(s, at, packet_head(code, body.len() as int), body + body_sum);
        lemma_stands_split(s, at, head, big_endian(checksum(0, head) as int, 4));
        lemma_stands_split(s, at, start_bytes, length_bytes);
        reveal_with_fuel(pow256, 9);
        big_endian_round_trip(code as int, 8);
        numbers_round_trip(s, at + 8, forward as u64, Fault::EndsInNumber);
    }
}

/// The time bases of a main header, where they can be read: as many as were
/// written, and the tables behind them.
proof fn lemma_bases_read(s: Seq<u8>, at: int, bases: Seq<Rational>, k: int, count: int)
    requires
        0 <= k <= bases.len(),
        k <= count,
        stands(s, at, bases_bytes(bases.take(k))),
        time_bases_at(s, at, count, Seq::empty()) is Ok,
    ensures
        exists|read: Seq<Rational>|
            read.len() == k && time_bases_at(s, at, count, Seq::empty())
                == #[trigger] time_bases_at(
                s,
                at + bases_bytes(bases.take(k)).len(),
                count - k,
                read,
            ),
    decreases k,
{
    if k == 0 {
        assert(bases.take(0).len() == 0);
        assert(Seq::<Rational>::empty().len() == k);
        assert(at + bases_bytes(bases.take(0)).len() == at);
    } else {
        let before = bases.take(k - 1);
        let base = bases[k - 1];
        assert(bases.take(k).drop_last() =~= before);
        let (num, den) = (coded(magnitude(base.num)), coded(magnitude(base.den)));
        lemma_stands_split(s, at, bases_bytes(before), num + den);
        lemma_bases_read(s, at, bases, k - 1, count);
        let here = at + bases_bytes(before).len();
        let read = choose|read: Seq<Rational>|
            read.len() == k - 1 && time_bases_at(s, at, count, Seq::empty())
                == #[trigger] time_bases_at(s, here, count - (k - 1), read);
        lemma_stands_split(s, here, num, den);
        lemma_field(s, here, magnitude(base.num) as u64);
        lemma_field(s, here + num.len(), magnitude(base.den) as u64);
        let found = time_base_of(magnitude(base.num) as u64, magnitude(base.den) as u64)->Ok_0;
        assert(read.push(found).len() == k);
        assert(at + bases_bytes(bases.take(k)).len() == here + num.len() + den.len());
        assert(time_bases_at(s, here, count - (k - 1), read) == time_bases_at(
            s,
            here + num.len() + den.len(),
            count - k,
            read.push(found),
        ));
    }
}

/// A main header says what the writer's does: its frame codes, no elision, and
/// how many streams and time bases there are.
pub open spec fn main_as_written(main: MainModel, streams: int, bases: int) -> bool {
    &&& main.streams == streams
    &&& main.time_bases.len() == bases
    &&& main.codes == written_table()
    &&& main.elision == seq![Seq::<u8>::empty()]
    &&& 1 <= streams <= 64
    &&& 1 <= bases <= 1024
}

/// The tables of a main header, where they can be read.
proof fn lemma_tables_read(s: Seq<u8>, at: int, streams: u64, bases: Seq<Rational>)
    requires
        1 <= streams <= 64,
        bases.len() <= u64::MAX,
        stands(s, at, tables_bytes(bases)),
    ensures
        main_tables_of(s, at, streams) matches Ok(main) ==> main_as_written(
            main,
            streams as int,
            bases.len() as int,
        ),
{
    reveal(main_tables_of);
    let (c, d, e) = (coded(65_536), coded(bases.len() as int), bases_bytes(bases));
    let runs = run_bytes(120, 128) + run_bytes(121, 127);
    let z = coded(0);
    lemma_stands_split(s, at, c, d + (e + (runs + z)));
    let at3 = at + c.len();
    lemma_stands_split(s, at3, d, e + (runs + z));
    let at4 = at3 + d.len();
    lemma_stands_split(s, at4, e, runs + z);
    let at5 = at4 + e.len();
    lemma_stands_split(s, at5, runs, z);
    let at6 = at5 + runs.len();
    lemma_field(s, at, 65_536);
    lemma_field(s, at3, bases.len() as u64);
    if main_tables_of(s, at, streams) is Ok {
        let n = bases.len() as int;
        assert(bases.take(n) =~= bases);
        lemma_bases_read(s, at4, bases, n, n);
        let read = choose|read: Seq<Rational>|
            read.len() == n && time_bases_at(s, at4, n, Seq::empty()) == #[trigger] time_bases_at(
                s,
                at5,
                n - n,
                read,
            );
        assert(time_bases_at(s, at4, n, Seq::empty()) == Ok::<(Seq<Rational>, int), Fault>(
            (read, at5),
        ));
        lemma_table(s, at5, streams);
        lemma_no_elisions(s, at6);
        lemma_table_names_elisions();
    }
}

/// A main header that is read at all.
proof fn lemma_main_read(streams: int, bases: Seq<Rational>)
    requires
        0 <= streams <= u64::MAX,
        bases.len() <= u64::MAX,
    ensures
        main_of(main_body(streams, bases)) matches Ok(main) ==> main_as_written(
            main,
            streams,
            bases.len() as int,
        ),
{
    reveal(main_of);
    reveal(main_body);
    let s = main_body(streams, bases);
    let (a, b) = (coded(3), coded(streams));
    let rest = tables_bytes(bases);
    assert(s == a + (b + rest)) by {
        let (r1, r2, z) = (run_bytes(120, 128), run_bytes(121, 127), coded(0));
        assert(r1 + (r2 + z) =~= (r1 + r2) + z);
    }
    assert(s.subrange(0, s.len() as int) =~= s);
    lemma_stands_split(s, 0, a, b + rest);
    let at1 = a.len() as int;
    lemma_stands_split(s, at1, b, rest);
    lemma_field(s, 0, 3);
    lemma_field(s, at1, streams as u64);
    if main_of(s) is Ok {
        lemma_tables_read(s, at1 + b.len(), streams as u64, bases);
    }
}

/// A stream header's timing, where it can be read: the shift of its timestamps.
proof fn lemma_timing_read(
    s: Seq<u8>,
    at: int,
    stream: StreamModel,
    base: int,
    bases: Seq<Rational>,
    class: Class,
    fourcc: Seq<u8>,
)
    requires
        0 <= base <= u64::MAX,
        stands(s, at, timing_bytes(stream, base)),
    ensures
        timing_of(s, at, bases, class, fourcc) matches Ok(read) ==> read.msb_pts_shift
            == stream.msb_pts_shift && read.msb_pts_shift < 16,
{
    reveal(timing_of);
    let (e, f) = (coded(base), coded(stream.msb_pts_shift as int));
    let rest = coded(stream.max_pts_distance as int) + (coded(stream.decode_delay as int) + coded(
        stream.flags as int,
    ));
    lemma_stands_split(s, at, e, f + rest);
    lemma_stands_split(s, at + e.len(), f, rest);
    lemma_field(s, at, base as u64);
    lemma_field(s, at + e.len(), stream.msb_pts_shift);
}

/// A stream header that is read at all: which stream it is of, and the shift of
/// its timestamps.
proof fn lemma_stream_read(id: int, stream: StreamModel, bases: Seq<Rational>, base: int)
    requires
        0 <= id < 64,
        0 <= base <= u64::MAX,
        stream_body(id, stream, base).len() <= MAX_HEADER,
    ensures
        stream_of(stream_body(id, stream, base), bases) matches Ok((found, read)) ==> {
            &&& found == id
            &&& read.msb_pts_shift == stream.msb_pts_shift
            &&& read.msb_pts_shift < 16
        },
{
    reveal(stream_body);
    reveal(stream_of);
    let s = stream_body(id, stream, base);
    let identity = identity_bytes(id, stream);
    let timing = timing_bytes(stream, base);
    assert(s.subrange(0, s.len() as int) =~= s);
    lemma_stands_split(s, 0, identity, timing + config_bytes(stream));
    let (a, b) = (coded(id), coded(class_number(stream.class)));
    let (c, d) = (coded(stream.fourcc.len() as int), stream.fourcc);
    lemma_stands_split(s, 0, a, b + (c + d));
    let at1 = a.len() as int;
    lemma_stands_split(s, at1, b, c + d);
    let at2 = at1 + b.len();
    lemma_stands_split(s, at2, c, d);
    let at3 = at2 + c.len();
    lemma_field(s, 0, id as u64);
    lemma_field(s, at1, class_number(stream.class) as u64);
    lemma_field(s, at2, stream.fourcc.len() as u64);
    let at4 = at3 + d.len();
    assert(at4 == identity.len());
    lemma_stands_split(s, at4, timing, config_bytes(stream));
    lemma_timing_read(s, at4, stream, base, bases, stream.class, s.subrange(at3, at4));
}

/// The headers of the first `k` streams are read, with the shifts that were
/// written.
pub open spec fn shaped(draft: DraftModel, streams: Seq<StreamModel>, k: int) -> bool {
    &&& draft.streams.len() == streams.len()
    &&& forall|i: int|
        0 <= i < k ==> {
            &&& (#[trigger] draft.streams[i]) is Some
            &&& draft.streams[i]->0.msb_pts_shift == streams[i].msb_pts_shift
            &&& streams[i].msb_pts_shift < 16
        }
}

/// Where headers are read on from a draft and a place.
pub open spec fn read_on(
    s: Seq<u8>,
    bases: Seq<Rational>,
    whole: Result<(DraftModel, int), NutError>,
    at: int,
    draft: DraftModel,
) -> bool {
    whole == headers_at(s, at, draft, bases)
}

/// One packet of headers that can be read is taken in.
proof fn lemma_step_read(
    s: Seq<u8>,
    at: int,
    code: u64,
    body: Seq<u8>,
    draft: DraftModel,
    bases: Seq<Rational>,
)
    requires
        s.len() <= u64::MAX,
        0 <= at,
        code != SYNCPOINT_STARTCODE,
        stands(s, at, packet_bytes(code, body)),
        headers_at(s, at, draft, bases) is Ok,
    ensures
        body.len() + 4 <= MAX_HEADER,
        header_taken(draft, code, body, bases) matches Ok(next) && headers_at(s, at, draft, bases)
            == headers_at(s, at + packet_bytes(code, body).len(), next, bases),
{
    lemma_packet_read(s, at, code, body);
}

/// The stream headers, as far as the first `k`, where they can be read.
proof fn lemma_streams_read(
    s: Seq<u8>,
    at: int,
    streams: Seq<StreamModel>,
    bases: Seq<Rational>,
    there: Seq<Rational>,
    draft: DraftModel,
    k: int,
)
    requires
        s.len() <= u64::MAX,
        0 <= at,
        0 <= k <= streams.len() <= 64,
        bases.len() <= 1024,
        forall|i: int| 0 <= i < streams.len() ==> bases.contains((#[trigger] streams[i]).time_base),
        draft.streams.len() == streams.len(),
        stands(s, at, stream_packets(streams, bases, k)),
        headers_at(s, at, draft, there) is Ok,
    ensures
        exists|next: DraftModel|
            shaped(next, streams, k) && #[trigger] read_on(
                s,
                there,
                headers_at(s, at, draft, there),
                at + stream_packets(streams, bases, k).len(),
                next,
            ),
    decreases k,
{
    let whole = headers_at(s, at, draft, there);
    if k == 0 {
        assert(read_on(s, there, whole, at + stream_packets(streams, bases, 0).len(), draft));
        assert(shaped(draft, streams, 0));
    } else {
        let stream = streams[k - 1];
        let base = base_index(bases, stream.time_base);
        let body = stream_body(k - 1, stream, base);
        let before = stream_packets(streams, bases, k - 1);
        lemma_stands_split(s, at, before, packet_bytes(STREAM_STARTCODE, body));
        lemma_streams_read(s, at, streams, bases, there, draft, k - 1);
        let here = at + before.len();
        let held = choose|held: DraftModel|
            shaped(held, streams, k - 1) && #[trigger] read_on(s, there, whole, here, held);
        lemma_step_read(s, here, STREAM_STARTCODE, body, held, there);
        lemma_base_index(bases, stream.time_base);
        lemma_stream_read(k - 1, stream, there, base);
        reveal(header_taken);
        let next = header_taken(held, STREAM_STARTCODE, body, there)->Ok_0;
        assert(shaped(next, streams, k));
        assert(read_on(s, there, whole, at + stream_packets(streams, bases, k).len(), next));
    }
}

/// An info packet that can be read changes no stream's shift.
proof fn lemma_info_read(
    s: Seq<u8>,
    at: int,
    body: Seq<u8>,
    streams: Seq<StreamModel>,
    there: Seq<Rational>,
    whole: Result<(DraftModel, int), NutError>,
    draft: DraftModel,
)
    requires
        s.len() <= u64::MAX,
        0 <= at,
        stands(s, at, packet_bytes(INFO_STARTCODE, body)),
        shaped(draft, streams, streams.len() as int),
        whole is Ok,
        read_on(s, there, whole, at, draft),
    ensures
        exists|next: DraftModel|
            shaped(next, streams, streams.len() as int) && #[trigger] read_on(
                s,
                there,
                whole,
                at + packet_bytes(INFO_STARTCODE, body).len(),
                next,
            ),
{
    lemma_step_read(s, at, INFO_STARTCODE, body, draft, there);
    reveal(header_taken);
    let next = header_taken(draft, INFO_STARTCODE, body, there)->Ok_0;
    assert(shaped(next, streams, streams.len() as int));
    assert(read_on(s, there, whole, at + packet_bytes(INFO_STARTCODE, body).len(), next));
}

/// The streams' metadata, as far as the first `k`, where it can be read.
proof fn lemma_stream_infos_read(
    s: Seq<u8>,
    at: int,
    streams: Seq<StreamModel>,
    there: Seq<Rational>,
    whole: Result<(DraftModel, int), NutError>,
    draft: DraftModel,
    k: int,
)
    requires
        s.len() <= u64::MAX,
        0 <= at,
        0 <= k <= streams.len(),
        stands(s, at, stream_infos(streams, k)),
        shaped(draft, streams, streams.len() as int),
        whole is Ok,
        read_on(s, there, whole, at, draft),
    ensures
        exists|next: DraftModel|
            shaped(next, streams, streams.len() as int) && #[trigger] read_on(
                s,
                there,
                whole,
                at + stream_infos(streams, k).len(),
                next,
            ),
    decreases k,
{
    if k == 0 {
        assert(read_on(s, there, whole, at + stream_infos(streams, 0).len(), draft));
    } else if streams[k - 1].metadata.len() == 0 {
        lemma_stream_infos_read(s, at, streams, there, whole, draft, k - 1);
    } else {
        let before = stream_infos(streams, k - 1);
        let body = info_body(k, 0, 0, 0, streams[k - 1].metadata);
        lemma_stands_split(s, at, before, packet_bytes(INFO_STARTCODE, body));
        lemma_stream_infos_read(s, at, streams, there, whole, draft, k - 1);
        let here = at + before.len();
        let held = choose|held: DraftModel|
            shaped(held, streams, streams.len() as int) && #[trigger] read_on(
                s,
                there,
                whole,
                here,
                held,
            );
        lemma_info_read(s, here, body, streams, there, whole, held);
        assert(at + stream_infos(streams, k).len() == here + packet_bytes(
            INFO_STARTCODE,
            body,
        ).len());
    }
}

/// The chapters, as far as the first `k`, where they can be read.
proof fn lemma_chapter_infos_read(
    s: Seq<u8>,
    at: int,
    streams: Seq<StreamModel>,
    chapters: Seq<ChapterModel>,
    bases: Seq<Rational>,
    there: Seq<Rational>,
    whole: Result<(DraftModel, int), NutError>,
    draft: DraftModel,
    k: int,
)
    requires
        s.len() <= u64::MAX,
        0 <= at,
        0 <= k <= chapters.len(),
        stands(s, at, chapter_infos(chapters, bases, k)),
        shaped(draft, streams, streams.len() as int),
        whole is Ok,
        read_on(s, there, whole, at, draft),
    ensures
        exists|next: DraftModel|
            shaped(next, streams, streams.len() as int) && #[trigger] read_on(
                s,
                there,
                whole,
                at + chapter_infos(chapters, bases, k).len(),
                next,
            ),
    decreases k,
{
    if k == 0 {
        assert(read_on(s, there, whole, at + chapter_infos(chapters, bases, 0).len(), draft));
    } else {
        let chapter = chapters[k - 1];
        let before = chapter_infos(chapters, bases, k - 1);
        let body = info_body(
            0,
            k,
            chapter_start(chapter, bases),
            chapter.length as int,
            chapter.metadata,
        );
        lemma_stands_split(s, at, before, packet_bytes(INFO_STARTCODE, body));
        lemma_chapter_infos_read(s, at, streams, chapters, bases, there, whole, draft, k - 1);
        let here = at + before.len();
        let held = choose|held: DraftModel|
            shaped(held, streams, streams.len() as int) && #[trigger] read_on(
                s,
                there,
                whole,
                here,
                held,
            );
        lemma_info_read(s, here, body, streams, there, whole, held);
        assert(at + chapter_infos(chapters, bases, k).len() == here + packet_bytes(
            INFO_STARTCODE,
            body,
        ).len());
    }
}

/// As many bases are gathered as there are, at most.
proof fn lemma_gathered_len(bases: Seq<Rational>)
    ensures
        gathered(bases).len() <= bases.len(),
    decreases bases.len(),
{
    if bases.len() > 0 {
        lemma_gathered_len(bases.drop_last());
    }
}

/// A written header that opens, opens as far as packets go by it: whatever
/// became of its texts, the streams and their shifts are the ones written, and
/// the packets begin where the header ends.
proof fn lemma_opens(header: HeaderModel, s: Seq<u8>)
    requires
        header.streams.len() + header.chapters.len() <= u64::MAX,
        s.len() <= u64::MAX,
        stands(s, 0, header_bytes(header)),
        header_bytes(header).len() == s.len() || header_bytes(header).len() + 8 <= s.len()
            && startcode_at(s, header_bytes(header).len() as int) == SYNCPOINT_STARTCODE,
    ensures
        opened(s) matches Ok(there) ==> {
            &&& there.at == header_bytes(header).len() < s.len()
            &&& main_as_written(
                there.main,
                header.streams.len() as int,
                gathered(all_bases(header)).len() as int,
            )
            &&& there.header.streams.len() == header.streams.len()
            &&& forall|i: int|
                0 <= i < header.streams.len() ==> (
                #[trigger] there.header.streams[i]).msb_pts_shift
                    == header.streams[i].msb_pts_shift && header.streams[i].msb_pts_shift < 16
        },
{
    let bases = gathered(all_bases(header));
    let n = header.streams.len() as int;
    let m = header.chapters.len() as int;
    let body = main_body(n, bases);
    let id = id_string();
    let main = packet_bytes(MAIN_STARTCODE, body);
    let a = stream_packets(header.streams, bases, n);
    let info = info_body(0, 0, 0, 0, header.metadata);
    let b = packet_bytes(INFO_STARTCODE, info);
    let c = stream_infos(header.streams, n);
    let d = chapter_infos(header.chapters, bases, m);
    let rest = a + (b + (c + d));
    lemma_gathered_len(all_bases(header));
    lemma_stands_split(s, 0, id, main + rest);
    assert(id.len() == 25);
    lemma_stands_split(s, 25, main, rest);
    lemma_packet_read(s, 25, MAIN_STARTCODE, body);
    lemma_main_at(s);
    lemma_main_read(n, bases);
    if let Ok(there) = opened(s) {
        let next: int = 25 + main.len() as int;
        let read = main_of(body)->Ok_0;
        let blank = DraftModel {
            streams: Seq::new(read.streams as nat, |i: int| None::<StreamModel>),
            metadata: Seq::empty(),
            chapters: Seq::empty(),
        };
        let whole = headers_at(s, next, blank, read.time_bases);
        lemma_stands_split(s, next, a, b + (c + d));
        let at1 = next + a.len();
        lemma_stands_split(s, at1, b, c + d);
        let at2 = at1 + b.len();
        lemma_stands_split(s, at2, c, d);
        let at3 = at2 + c.len();
        let end = at3 + d.len();
        assert(end == header_bytes(header).len());
        assert forall|i: int| 0 <= i < n implies bases.contains(
            (#[trigger] header.streams[i]).time_base,
        ) by {
            assert(all_bases(header)[i] == header.streams[i].time_base);
            lemma_gathered(all_bases(header), header.streams[i].time_base);
        }
        lemma_streams_read(s, next, header.streams, bases, read.time_bases, blank, n);
        let first = choose|draft: DraftModel|
            shaped(draft, header.streams, n) && #[trigger] read_on(
                s,
                read.time_bases,
                whole,
                at1,
                draft,
            );
        lemma_info_read(s, at1, info, header.streams, read.time_bases, whole, first);
        let second = choose|draft: DraftModel|
            shaped(draft, header.streams, n) && #[trigger] read_on(
                s,
                read.time_bases,
                whole,
                at2,
                draft,
            );
        lemma_stream_infos_read(s, at2, header.streams, read.time_bases, whole, second, n);
        let third = choose|draft: DraftModel|
            shaped(draft, header.streams, n) && #[trigger] read_on(
                s,
                read.time_bases,
                whole,
                at3,
                draft,
            );
        lemma_chapter_infos_read(
            s,
            at3,
            header.streams,
            header.chapters,
            bases,
            read.time_bases,
            whole,
            third,
            m,
        );
        let last = choose|draft: DraftModel|
            shaped(draft, header.streams, n) && #[trigger] read_on(
                s,
                read.time_bases,
                whole,
                end,
                draft,
            );
        assert(whole == Ok::<(DraftModel, int), NutError>((last, end)));
        assert forall|i: int| 0 <= i < n implies (
        #[trigger] there.header.streams[i]).msb_pts_shift == header.streams[i].msb_pts_shift
            && header.streams[i].msb_pts_shift < 16 by {
            assert(last.streams[i] is Some);
        }
    }
}

/// A packet that the writer takes: its stream is there, and its timestamp is
/// not negative.
pub open spec fn packet_taken(packet: PacketModel, streams: int) -> bool {
    0 <= packet.stream < streams && packet.pts >= 0
}

/// Where a packet was written, that packet is read, or none.
proof fn lemma_packet_or_error(
    reading: ReadingModel,
    last: Seq<i64>,
    s: Seq<u8>,
    at: int,
    packet: PacketModel,
    lane: Lane,
    bases: Seq<Rational>,
    back: int,
)
    requires
        s.len() <= u64::MAX,
        reading.main.codes == written_table(),
        reading.main.elision == seq![Seq::<u8>::empty()],
        reading.streams.len() <= 64,
        packet_taken(packet, reading.streams.len() as int),
        reading.streams[packet.stream].msb_pts_shift == lane.msb_pts_shift,
        lane.msb_pts_shift < 16,
        0 <= back <= u64::MAX,
        bases.contains(lane.time_base),
        bases.len() <= 1024,
        stands(s, at, one_packet(packet, lane, bases, back)),
    ensures
        packet.data.len() <= MAX_FRAME ==> (next_at(reading, last, s, at) matches Ok(next)
            && next.packet == Some(packet) && next.at == at + one_packet(
            packet,
            lane,
            bases,
            back,
        ).len()),
        packet.data.len() > MAX_FRAME ==> next_at(reading, last, s, at) is Err,
{
    if packet.data.len() <= MAX_FRAME {
        packets_round_trip(reading, last, s, at, packet, lane, bases, back);
    } else {
        let body = sync_body(packet.pts as int, bases, lane.time_base, back);
        let first = packet_bytes(SYNCPOINT_STARTCODE, body);
        let second = frame_bytes(packet, lane.msb_pts_shift);
        lemma_base_index(bases, lane.time_base);
        lemma_sync(reading, packet.pts as int, bases, lane.time_base, back);
        lemma_stands_split(s, at, first, second);
        lemma_packet(s, at, SYNCPOINT_STARTCODE, body);
        assert(s[at] == STARTCODE_BYTE) by {
            let part = s.subrange(at, at + 8);
            lemma_first_byte(part);
            assert(part[0] == s[at]);
        }
        let middle = at + first.len();
        let after = synced(body, reading)->Ok_0;
        reveal(frame_bytes);
        let head = frame_head(packet, lane.msb_pts_shift);
        let check = big_endian(checksum(0, head) as int, 4);
        lemma_stands_split(s, middle, head, check + packet.data);
        lemma_head(reading, after, s, middle, packet, lane.msb_pts_shift);
        assert(frame_at(reading, after, s, middle) is Err);
        assert(next_at(reading, after, s, middle) is Err);
        assert(next_at(reading, last, s, at) == next_at(reading, after, s, middle));
    }
}

/// The packets that were written are read in order, as far as they go.
proof fn lemma_first_packets(
    reading: ReadingModel,
    last: Seq<i64>,
    s: Seq<u8>,
    at: int,
    packets: Seq<PacketModel>,
    streams: Seq<Lane>,
    bases: Seq<Rational>,
    written: int,
    last_syncpoint: int,
)
    requires
        s.len() <= u64::MAX,
        reading.main.codes == written_table(),
        reading.main.elision == seq![Seq::<u8>::empty()],
        reading.streams.len() <= 64,
        streams.len() == reading.streams.len(),
        bases.len() <= 1024,
        forall|i: int|
            0 <= i < streams.len() ==> (#[trigger] streams[i]).msb_pts_shift < 16
                && bases.contains(streams[i].time_base) && reading.streams[i].msb_pts_shift
                == streams[i].msb_pts_shift,
        forall|i: int|
            0 <= i < packets.len() ==> packet_taken(
                #[trigger] packets[i],
                reading.streams.len() as int,
            ),
        0 <= last_syncpoint <= written <= u64::MAX,
        stands(s, at, all_packets(packets, streams, bases, written, last_syncpoint)),
        at + all_packets(packets, streams, bases, written, last_syncpoint).len() == s.len(),
    ensures
        reads_first_of(reading, last, s, at, packets),
        (forall|i: int| 0 <= i < packets.len() ==> (#[trigger] packets[i]).data.len() <= MAX_FRAME)
            ==> reads(reading, last, s, at, packets),
    decreases packets.len(),
{
    if packets.len() > 0 {
        let packet = packets[0];
        assert(packet_taken(packet, reading.streams.len() as int));
        let lane = streams[packet.stream];
        let back = written - last_syncpoint;
        let bytes = one_packet(packet, lane, bases, back);
        let more = sum(written, bytes.len() as int);
        let later = packets.skip(1);
        let rest = all_packets(later, streams, bases, more, written);
        lemma_stands_split(s, at, bytes, rest);
        lemma_packet_or_error(reading, last, s, at, packet, lane, bases, back);
        if packet.data.len() <= MAX_FRAME {
            let next = next_at(reading, last, s, at)->Ok_0;
            assert forall|i: int| 0 <= i < later.len() implies packet_taken(
                #[trigger] later[i],
                reading.streams.len() as int,
            ) by {
                assert(later[i] == packets[i + 1]);
            }
            lemma_first_packets(
                reading,
                next.last,
                s,
                next.at,
                later,
                streams,
                bases,
                more,
                written,
            );
            if forall|i: int|
                0 <= i < packets.len() ==> (#[trigger] packets[i]).data.len() <= MAX_FRAME {
                assert forall|i: int| 0 <= i < later.len() implies (
                #[trigger] later[i]).data.len() <= MAX_FRAME by {
                    assert(later[i] == packets[i + 1]);
                }
            }
        }
    }
}

/// What the writer writes: `header`, its time bases in lowest terms, and then
/// `packets`.
pub open spec fn written_bytes(header: HeaderModel, packets: Seq<PacketModel>) -> Seq<u8> {
    header_bytes(normal(header)) + all_packets(
        packets,
        lanes(header),
        gathered(all_bases(normal(header))),
        header_bytes(normal(header)).len() as int,
        0,
    )
}

/// Whatever becomes of a header's texts, the packets come back: a written
/// stream that opens gives its packets, each as it was written, in order, and
/// then nothing.
pub proof fn packets_survive_their_header(header: HeaderModel, packets: Seq<PacketModel>)
    requires
        header.streams.len() + header.chapters.len() <= u64::MAX,
        written_bytes(header, packets).len() <= u64::MAX,
        forall|i: int|
            0 <= i < packets.len() ==> packet_taken(
                #[trigger] packets[i],
                header.streams.len() as int,
            ),
    ensures
        opened(written_bytes(header, packets)) matches Ok(there) ==> {
            let s = written_bytes(header, packets);
            let reading = ReadingModel { streams: there.header.streams, main: there.main };
            let last = Seq::new(there.header.streams.len(), |i: int| 0i64);
            &&& there.at == header_bytes(normal(header)).len()
            &&& reads_first_of(reading, last, s, there.at, packets)
            &&& (forall|i: int|
                0 <= i < packets.len() ==> (#[trigger] packets[i]).data.len() <= MAX_FRAME)
                ==> reads(reading, last, s, there.at, packets)
        },
{
    let s = written_bytes(header, packets);
    let whole = normal(header);
    let bases = gathered(all_bases(whole));
    let head = header_bytes(whole);
    let streams = lanes(header);
    let body = all_packets(packets, streams, bases, head.len() as int, 0);
    assert(s.subrange(0, s.len() as int) =~= s);
    lemma_stands_split(s, 0, head, body);
    assert forall|i: int| 0 <= i < streams.len() implies bases.contains(
        (#[trigger] streams[i]).time_base,
    ) by {
        assert(all_bases(whole)[i] == whole.streams[i].time_base);
        lemma_gathered(all_bases(whole), streams[i].time_base);
    }
    if packets.len() > 0 {
        let first = packets[0];
        assert(packet_taken(first, header.streams.len() as int));
        let lane = streams[first.stream];
        let bytes = one_packet(first, lane, bases, head.len() as int);
        let rest = all_packets(
            packets.skip(1),
            streams,
            bases,
            sum(head.len() as int, bytes.len() as int),
            head.len() as int,
        );
        lemma_stands_split(s, head.len() as int, bytes, rest);
        let sync = sync_body(first.pts as int, bases, lane.time_base, head.len() as int);
        lemma_stands_split(
            s,
            head.len() as int,
            packet_bytes(SYNCPOINT_STARTCODE, sync),
            frame_bytes(first, lane.msb_pts_shift),
        );
        lemma_packet_read(s, head.len() as int, SYNCPOINT_STARTCODE, sync);
    }
    lemma_opens(whole, s);
    if let Ok(there) = opened(s) {
        let reading = ReadingModel { streams: there.header.streams, main: there.main };
        assert forall|i: int| 0 <= i < streams.len() implies (
        #[trigger] streams[i]).msb_pts_shift < 16 && reading.streams[i].msb_pts_shift
            == streams[i].msb_pts_shift by {
            assert(whole.streams[i].msb_pts_shift == header.streams[i].msb_pts_shift);
            assert(there.header.streams[i].msb_pts_shift == whole.streams[i].msb_pts_shift);
        }
        lemma_first_packets(
            reading,
            Seq::new(there.header.streams.len(), |i: int| 0i64),
            s,
            there.at,
            packets,
            streams,
            bases,
            head.len() as int,
            0,
        );
    }
}

/// A stream that is cut off anywhere, if it opens at all, gives a prefix of the
/// packets that were written, each as it was, before it ends or is found
/// malformed.
pub proof fn a_stream_cut_off_gives_the_first_packets(
    header: HeaderModel,
    packets: Seq<PacketModel>,
    cut: int,
)
    requires
        header.streams.len() + header.chapters.len() <= u64::MAX,
        written_bytes(header, packets).len() <= u64::MAX,
        forall|i: int|
            0 <= i < packets.len() ==> packet_taken(
                #[trigger] packets[i],
                header.streams.len() as int,
            ),
        0 <= cut <= written_bytes(header, packets).len(),
    ensures
        opened(written_bytes(header, packets).take(cut)) matches Ok(there) ==> reads_first_of(
            ReadingModel { streams: there.header.streams, main: there.main },
            Seq::new(there.header.streams.len(), |i: int| 0i64),
            written_bytes(header, packets).take(cut),
            there.at,
            packets,
        ),
{
    let s = written_bytes(header, packets);
    if let Ok(there) = opened(s.take(cut)) {
        a_part_opens_as_the_whole(s, cut);
        packets_survive_their_header(header, packets);
        a_part_reads_as_the_whole(
            ReadingModel { streams: there.header.streams, main: there.main },
            Seq::new(there.header.streams.len(), |i: int| 0i64),
            s,
            cut,
            there.at,
            packets,
        );
    }
}

} // verus!
