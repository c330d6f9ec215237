//! What the writer writes, the reader reads back exactly.
use super::cursor::{field_at, signed_field_at, text_at, text_of, without_nulls};
use super::fault::{Fault, NutError};
use super::header::{body_at, config_of, header_taken, headers_at, info_of, informed, main_at};
use super::header::{numbers_at, opened, startcode_at, stream_of, tags_at, timing_of, DraftModel};
use super::header::{first_missing, InfoModel, OpenedModel};
use super::number::{a_checksum_checks, checksum, coded, coded_signed, coded_text, stands};
use super::number::{lemma_stands_split, numbers_round_trip, signed_numbers_round_trip};
use super::read::{frame_at, head_at, next_at, past_numbers, pow2, product, pts_of, sizes_at, sum};
use super::read::{synced, FrameHead, ReadingModel};
use super::table::{after_run, barred, blank_table, code_of, elision_of, elisions_at, filled};
use super::table::{elisions_named, first_run, main_of, main_tables_of};
use super::table::{past_fields, run_at, run_fits, run_sizes_at, table_at};
use super::table::{time_base_of, time_bases_at, MainModel, Run};
use super::write::{all_bases, base_index, bases_bytes, chapter_infos, chapter_start, class_number};
use super::write::{config_bytes, frame_bytes, frame_head, gathered, header_bytes, id_string};
use super::write::{identity_bytes, info_body, lemma_base_index, main_body, numbers_bytes};
use super::write::{packet_bytes, packet_head, run_bytes, shape_bytes, stream_body, stream_infos};
use super::write::{stream_packets, sync_body, tags_bytes, timing_bytes, Lane, CODE_FRAME, CODE_KEY};
use super::{flagged, ChapterModel, Class, FrameCode, HeaderModel, PacketModel, StreamModel, Tag};
use super::{FLAG_CHECKSUM, FLAG_CODED, FLAG_CODED_PTS, FLAG_HEADER_IDX, FLAG_INVALID, FLAG_KEY};
use super::{FLAG_MATCH_TIME, FLAG_RESERVED, FLAG_SIZE_MSB, FLAG_SM_DATA, FLAG_STREAM_ID};
use super::{INFO_STARTCODE, MAIN_STARTCODE, MAX_FRAME, MAX_HEADER, STARTCODE_BYTE};
use super::{STREAM_STARTCODE, SYNCPOINT_STARTCODE};
use crate::bytes::{big_endian, big_endian_round_trip, big_value, lemma_endian_len, pow256};
use crate::probe::Rational;
use vstd::prelude::*;

verus! {

/// A number of a header, where it was written.
pub proof fn lemma_field(s: Seq<u8>, at: int, n: u64)
    requires
        stands(s, at, coded(n as int)),
    ensures
        field_at(s, at) == Ok::<(u64, int), Fault>((n, at + coded(n as int).len())),
{
    numbers_round_trip(s, at, n, Fault::HeaderEndsEarly);
}

/// A signed number of a header, where it was written.
proof fn lemma_signed(s: Seq<u8>, at: int, n: i64)
    requires
        n > i64::MIN,
        stands(s, at, coded_signed(n as int)),
    ensures
        signed_field_at(s, at) == Ok::<(i64, int), Fault>((n, at + coded_signed(n as int).len())),
{
    signed_numbers_round_trip(s, at, n, Fault::HeaderEndsEarly);
}

/// A text that a header can carry: without a null character at its end.
pub open spec fn plain(text: Seq<char>) -> bool {
    without_nulls(text) == text
}

/// A text of a header, where it was written.
proof fn lemma_text(s: Seq<u8>, at: int, text: Seq<char>)
    requires
        s.len() <= usize::MAX,
        plain(text),
        stands(s, at, coded_text(text)),
    ensures
        text_at(s, at) == Ok::<(Seq<char>, int), Fault>((text, at + coded_text(text).len())),
{
    let bytes = vstd::utf8::encode_utf8(text);
    lemma_stands_split(s, at, coded(bytes.len() as int), bytes);
    lemma_field(s, at, bytes.len() as u64);
    vstd::utf8::encode_utf8_valid_utf8(text);
    vstd::utf8::encode_utf8_decode_utf8(text);
    assert(text_of(bytes) == text);
}

/// A packet, where it was written: its startcode, its body, and its end.
pub proof fn lemma_packet(s: Seq<u8>, at: int, code: u64, body: Seq<u8>)
    requires
        stands(s, at, packet_bytes(code, body)),
        body.len() + 4 <= MAX_HEADER,
    ensures
        at + 8 <= s.len(),
        startcode_at(s, at) == code,
        body_at(s, at + 8, code) == Ok::<(Seq<u8>, int), Fault>(
            (body, at + packet_bytes(code, body).len()),
        ),
        packet_bytes(code, body).len() >= 8,
{
    reveal(body_at);
    reveal(packet_bytes);
    let forward = body.len() + 4;
    let start_bytes = big_endian(code as int, 8);
    let length_bytes = coded(forward as int);
    let head = start_bytes + length_bytes;
    let head_sum = big_endian(checksum(0, head) as int, 4);
    let body_sum = big_endian(checksum(0, body) as int, 4);
    lemma_endian_len(code as int, 8);
    lemma_endian_len(checksum(0, head) as int, 4);
    lemma_endian_len(checksum(0, body) as int, 4);
    lemma_stands_split(s, at, packet_head(code, body.len() as int), body + body_sum);
    if forward > 4096 {
        lemma_stands_split(s, at, head, head_sum);
    }
    lemma_stands_split(s, at, start_bytes, length_bytes);
    reveal_with_fuel(pow256, 9);
    big_endian_round_trip(code as int, 8);
    numbers_round_trip(s, at + 8, forward as u64, Fault::EndsInNumber);
    let next = at + 8 + length_bytes.len();
    if forward > 4096 {
        assert(start_bytes + s.subrange(at + 8, next + 4) =~= head + head_sum) by {
            assert(s.subrange(at + 8, next + 4) =~= length_bytes + head_sum) by {
                assert(s.subrange(at + 8, next) == length_bytes);
                assert(s.subrange(next, next + 4) == head_sum);
                assert(s.subrange(at + 8, next + 4) =~= s.subrange(at + 8, next) + s.subrange(
                    next,
                    next + 4,
                ));
            }
        }
        a_checksum_checks(head);
    }
    let start = if forward > 4096 {
        next + 4
    } else {
        next
    };
    assert(stands(s, start, body + body_sum));
    a_checksum_checks(body);
    lemma_stands_split(s, start, body, body_sum);
}

/// The time bases of a main header, as far as the first `k`.
proof fn lemma_bases(s: Seq<u8>, at: int, bases: Seq<Rational>, k: int, count: int)
    requires
        0 <= k <= bases.len(),
        k <= count,
        forall|i: int| 0 <= i < bases.len() ==> is_base(#[trigger] bases[i]),
        stands(s, at, bases_bytes(bases.take(k))),
    ensures
        time_bases_at(s, at, count, Seq::empty()) == time_bases_at(
            s,
            at + bases_bytes(bases.take(k)).len(),
            count - k,
            bases.take(k),
        ),
    decreases k,
{
    if k == 0 {
        assert(bases.take(0) =~= Seq::<Rational>::empty());
    } else {
        let before = bases.take(k - 1);
        let base = bases[k - 1];
        assert(bases.take(k).drop_last() =~= before);
        assert(is_base(base));
        let (num, den) = (coded(base.num as int), coded(base.den as int));
        lemma_stands_split(s, at, bases_bytes(before), num + den);
        lemma_bases(s, at, bases, k - 1, count);
        let here = at + bases_bytes(before).len();
        lemma_stands_split(s, here, num, den);
        lemma_field(s, here, base.num as u64);
        lemma_field(s, here + num.len(), base.den as u64);
        assert(time_base_of(base.num as u64, base.den as u64) == Ok::<Rational, Fault>(base));
        assert(before.push(base) =~= bases.take(k));
    }
}

/// A time base a stream can carry.
pub open spec fn is_base(base: Rational) -> bool {
    0 < base.num < 0x8000_0000 && 0 < base.den < 0x8000_0000
}

/// A run of the frame-code table, as the writer writes it.
pub open spec fn written_run(flags: u64, count: u64) -> Run {
    Run { flags, pts: 0, mul: 1, stream: 0, size: 0, reserved: 0, count, header_idx: 0 }
}

/// A run, where it was written.
proof fn lemma_run(s: Seq<u8>, at: int, flags: u64, count: u64, before: Run)
    requires
        before.header_idx == 0,
        stands(s, at, run_bytes(flags as int, count as int)),
    ensures
        run_at(s, at, before) == Ok::<(Run, int), Fault>(
            (written_run(flags, count), at + run_bytes(flags as int, count as int).len()),
        ),
{
    let (a, b, c, d, e) = (coded(flags as int), coded(6), coded_signed(0), coded(1), coded(0));
    let f = coded(count as int);
    lemma_stands_split(s, at, a, b + (c + (d + (e + (e + (e + f))))));
    let at1 = at + a.len();
    lemma_stands_split(s, at1, b, c + (d + (e + (e + (e + f)))));
    let at2 = at1 + b.len();
    lemma_stands_split(s, at2, c, d + (e + (e + (e + f))));
    let at3 = at2 + c.len();
    lemma_stands_split(s, at3, d, e + (e + (e + f)));
    let at4 = at3 + d.len();
    lemma_stands_split(s, at4, e, e + (e + f));
    let at5 = at4 + e.len();
    lemma_stands_split(s, at5, e, e + f);
    let at6 = at5 + e.len();
    lemma_stands_split(s, at6, e, f);
    let at7 = at6 + e.len();
    lemma_field(s, at, flags);
    lemma_field(s, at1, 6);
    lemma_signed(s, at2, 0);
    lemma_field(s, at3, 1);
    lemma_field(s, at4, 0);
    lemma_field(s, at5, 0);
    lemma_field(s, at6, 0);
    lemma_field(s, at7, count);
    let end = at7 + f.len();
    assert(past_fields(s, end, 6 - 8) == Ok::<int, Fault>(end));
    assert(run_sizes_at(
        s,
        at5,
        Run { flags, pts: 0, mul: 1, stream: 0, ..before },
        6,
    ) == Ok::<(Run, int), Fault>((written_run(flags, count), end)));
    assert(run_bytes(flags as int, count as int).len() == end - at);
}

/// The frame-code table, as the writer writes it.
pub open spec fn written_table() -> Seq<FrameCode> {
    filled(
        filled(blank_table(), 0, written_run(120, 128)),
        129,
        written_run(121, 127),
    ).update(STARTCODE_BYTE as int, barred())
}

/// The table, where it was written.
pub proof fn lemma_table(s: Seq<u8>, at: int, streams: u64)
    requires
        streams > 0,
        stands(s, at, run_bytes(120, 128) + run_bytes(121, 127)),
    ensures
        table_at(s, at, streams, 0, first_run(), blank_table()) == Ok::<
            (Seq<FrameCode>, int),
            Fault,
        >((written_table(), at + run_bytes(120, 128).len() + run_bytes(121, 127).len())),
{
    let (first, second) = (written_run(120, 128), written_run(121, 127));
    lemma_stands_split(s, at, run_bytes(120, 128), run_bytes(121, 127));
    let middle = at + run_bytes(120, 128).len();
    lemma_run(s, at, 120, 128, first_run());
    lemma_run(s, middle, 121, 127, first);
    let codes = filled(blank_table(), 0, first);
    assert(run_fits(first, 0, streams));
    assert(after_run(0, 128) == 129);
    assert(run_fits(second, 129, streams));
    assert(after_run(129, 127) == 256);
    let end = middle + run_bytes(121, 127).len();
    assert(table_at(s, end, streams, 256, second, filled(codes, 129, second)) == Ok::<
        (Seq<FrameCode>, int),
        Fault,
    >((written_table(), end)));
    assert(table_at(s, middle, streams, 129, first, codes) == Ok::<(Seq<FrameCode>, int), Fault>(
        (written_table(), end),
    ));
}

/// What the writer's main header says.
pub open spec fn written_main(streams: int, bases: Seq<Rational>) -> MainModel {
    MainModel {
        streams,
        time_bases: bases,
        codes: written_table(),
        elision: seq![Seq::empty()],
    }
}

/// Every code of the writer's table names the one elision header there is.
pub proof fn lemma_table_names_elisions()
    ensures
        elisions_named(written_table(), 1),
{
    assert forall|k: int| 0 <= k < written_table().len() implies flagged(
        (#[trigger] written_table()[k]).flags,
        FLAG_INVALID,
    ) || written_table()[k].header_idx < 1 by {}
}

/// The end of a main header, where it was written: no elision headers.
pub proof fn lemma_no_elisions(s: Seq<u8>, at: int)
    requires
        stands(s, at, coded(0)),
    ensures
        elision_of(s, at) == Ok::<Seq<Seq<u8>>, Fault>(seq![Seq::empty()]),
{
    numbers_round_trip(s, at, 0, Fault::HeaderEndsEarly);
    let empty = seq![Seq::<u8>::empty()];
    assert(elisions_at(s, at + coded(0).len(), 0, empty) == Ok::<Seq<Seq<u8>>, Fault>(empty));
}

/// The tables of a main header.
pub open spec fn tables_bytes(bases: Seq<Rational>) -> Seq<u8> {
    coded(65_536) + (coded(bases.len() as int) + (bases_bytes(bases) + ((run_bytes(120, 128)
        + run_bytes(121, 127)) + coded(0))))
}

/// The tables of a main header, where they were written.
proof fn lemma_tables(s: Seq<u8>, at: int, streams: u64, bases: Seq<Rational>)
    requires
        1 <= streams <= 64,
        1 <= bases.len() <= 1024,
        forall|i: int| 0 <= i < bases.len() ==> is_base(#[trigger] bases[i]),
        stands(s, at, tables_bytes(bases)),
    ensures
        main_tables_of(s, at, streams) == Ok::<MainModel, Fault>(
            written_main(streams as int, bases),
        ),
{
    reveal(main_tables_of);
    let (c, d, e) = (coded(65_536), coded(bases.len() as int), bases_bytes(bases));
    let runs = run_bytes(120, 128) + run_bytes(121, 127);
    let z = coded(0);
    lemma_stands_split(s, at, c, d + (e + (runs + z)));
    let at3 = at + c.len();
    lemma_stands_split(s, at3, d, e + (runs + z));
    let at4 = at3 + d.len();
    lemma_stands_split(s, at4, e, runs + z);
    let at5 = at4 + e.len();
    lemma_stands_split(s, at5, runs, z);
    let at6 = at5 + runs.len();
    lemma_field(s, at, 65_536);
    lemma_field(s, at3, bases.len() as u64);
    assert(bases.take(bases.len() as int) =~= bases);
    lemma_bases(s, at4, bases, bases.len() as int, bases.len() as int);
    assert(time_bases_at(s, at4, bases.len() as int, Seq::empty()) == Ok::<
        (Seq<Rational>, int),
        Fault,
    >((bases, at5)));
    lemma_table(s, at5, streams);
    lemma_no_elisions(s, at6);
    lemma_table_names_elisions();
}

/// A main header, as it was written.
proof fn lemma_main(streams: int, bases: Seq<Rational>)
    requires
        1 <= streams <= 64,
        1 <= bases.len() <= 1024,
        forall|i: int| 0 <= i < bases.len() ==> is_base(#[trigger] bases[i]),
    ensures
        main_of(main_body(streams, bases)) == Ok::<MainModel, Fault>(
            written_main(streams, bases),
        ),
{
    reveal(main_of);
    reveal(main_body);
    let s = main_body(streams, bases);
    let (a, b) = (coded(3), coded(streams));
    let rest = tables_bytes(bases);
    assert(s == a + (b + rest)) by {
        let (r1, r2, z) = (run_bytes(120, 128), run_bytes(121, 127), coded(0));
        assert(r1 + (r2 + z) =~= (r1 + r2) + z);
    }
    assert(s.subrange(0, s.len() as int) =~= s);
    lemma_stands_split(s, 0, a, b + rest);
    let at1 = a.len() as int;
    lemma_stands_split(s, at1, b, rest);
    lemma_field(s, 0, 3);
    lemma_field(s, at1, streams as u64);
    lemma_tables(s, at1 + b.len(), streams as u64, bases);
}

/// Numbers, as far as the first `k`.
proof fn lemma_numbers(s: Seq<u8>, at: int, numbers: Seq<u64>, k: int, count: int)
    requires
        0 <= k <= numbers.len(),
        k <= count,
        stands(s, at, numbers_bytes(numbers.take(k))),
    ensures
        numbers_at(s, at, count, Seq::empty()) == numbers_at(
            s,
            at + numbers_bytes(numbers.take(k)).len(),
            count - k,
            numbers.take(k),
        ),
    decreases k,
{
    if k == 0 {
        assert(numbers.take(0) =~= Seq::<u64>::empty());
    } else {
        let before = numbers.take(k - 1);
        assert(numbers.take(k).drop_last() =~= before);
        lemma_stands_split(s, at, numbers_bytes(before), coded(numbers[k - 1] as int));
        lemma_numbers(s, at, numbers, k - 1, count);
        lemma_field(s, at + numbers_bytes(before).len(), numbers[k - 1]);
        assert(before.push(numbers[k - 1]) =~= numbers.take(k));
    }
}

/// A stream header that can be written: its codec tag is two or four bytes, its
/// time base and its shift can be carried, and it has the numbers of its kind.
pub open spec fn stream_fits(stream: StreamModel) -> bool {
    &&& stream.fourcc.len() == 2 || stream.fourcc.len() == 4
    &&& is_base(stream.time_base)
    &&& stream.msb_pts_shift < 16
    &&& match stream.class {
        Class::Video => stream.video is Some && stream.video->0.len() == 5 && stream.audio is None,
        Class::Audio => stream.audio is Some && stream.audio->0.len() == 3 && stream.video is None,
        _ => stream.video is None && stream.audio is None,
    }
}

/// A stream's header before its metadata has been read.
pub open spec fn bare(stream: StreamModel) -> StreamModel {
    StreamModel { metadata: Seq::empty(), ..stream }
}

/// The numbers a stream has for its kind.
pub open spec fn shape_of(stream: StreamModel) -> Seq<u64> {
    match stream.class {
        Class::Video => stream.video->0,
        Class::Audio => stream.audio->0,
        _ => Seq::empty(),
    }
}

/// A stream header's codec configuration, where it was written.
proof fn lemma_config(s: Seq<u8>, at: int, stream: StreamModel)
    requires
        s.len() <= usize::MAX,
        stream_fits(stream),
        stands(s, at, config_bytes(stream)),
    ensures
        config_of(s, at, stream.class) == Ok::<(Seq<u8>, Seq<u64>), Fault>(
            (stream.extradata, shape_of(stream)),
        ),
{
    reveal(config_of);
    let shape = shape_of(stream);
    let a = coded(stream.extradata.len() as int);
    let b = stream.extradata;
    let c = numbers_bytes(shape);
    assert(shape_bytes(stream.video) + shape_bytes(stream.audio) =~= c);
    lemma_stands_split(s, at, a, b + c);
    lemma_stands_split(s, at + a.len(), b, c);
    lemma_field(s, at, stream.extradata.len() as u64);
    assert(shape.take(shape.len() as int) =~= shape);
    lemma_numbers(
        s,
        at + a.len() + b.len(),
        shape,
        shape.len() as int,
        shape.len() as int,
    );
}

/// A stream header's timing and configuration, where they were written.
proof fn lemma_timing(s: Seq<u8>, at: int, stream: StreamModel, bases: Seq<Rational>)
    requires
        s.len() <= usize::MAX,
        stream_fits(stream),
        bases.contains(stream.time_base),
        bases.len() <= 1024,
        stands(
            s,
            at,
            timing_bytes(stream, base_index(bases, stream.time_base)) + config_bytes(stream),
        ),
    ensures
        timing_of(s, at, bases, stream.class, stream.fourcc) == Ok::<StreamModel, Fault>(
            bare(stream),
        ),
{
    reveal(timing_of);
    let base = base_index(bases, stream.time_base);
    lemma_base_index(bases, stream.time_base);
    let timing = timing_bytes(stream, base);
    lemma_stands_split(s, at, timing, config_bytes(stream));
    let (a, b) = (coded(base), coded(stream.msb_pts_shift as int));
    let (c, d) = (coded(stream.max_pts_distance as int), coded(stream.decode_delay as int));
    let e = coded(stream.flags as int);
    lemma_stands_split(s, at, a, b + (c + (d + e)));
    let at1 = at + a.len();
    lemma_stands_split(s, at1, b, c + (d + e));
    let at2 = at1 + b.len();
    lemma_stands_split(s, at2, c, d + e);
    let at3 = at2 + c.len();
    lemma_stands_split(s, at3, d, e);
    let at4 = at3 + d.len();
    lemma_field(s, at, base as u64);
    lemma_field(s, at1, stream.msb_pts_shift);
    lemma_field(s, at2, stream.max_pts_distance);
    lemma_field(s, at3, stream.decode_delay);
    lemma_field(s, at4, stream.flags);
    let at5 = at4 + e.len();
    assert(at5 == at + timing.len());
    lemma_config(s, at5, stream);
}

/// A stream header, as it was written.
proof fn lemma_stream(id: int, stream: StreamModel, bases: Seq<Rational>)
    requires
        0 <= id < 64,
        stream_fits(stream),
        bases.contains(stream.time_base),
        bases.len() <= 1024,
        stream_body(id, stream, base_index(bases, stream.time_base)).len() <= usize::MAX,
    ensures
        stream_of(stream_body(id, stream, base_index(bases, stream.time_base)), bases) == Ok::<
            (usize, StreamModel),
            Fault,
        >((id as usize, bare(stream))),
{
    let base = base_index(bases, stream.time_base);
    reveal(stream_body);
    reveal(stream_of);
    let s = stream_body(id, stream, base);
    let identity = identity_bytes(id, stream);
    let rest = timing_bytes(stream, base) + config_bytes(stream);
    assert(s.subrange(0, s.len() as int) =~= s);
    lemma_stands_split(s, 0, identity, rest);
    let (a, b) = (coded(id), coded(class_number(stream.class)));
    let (c, d) = (coded(stream.fourcc.len() as int), stream.fourcc);
    lemma_stands_split(s, 0, a, b + (c + d));
    let at1 = a.len() as int;
    lemma_stands_split(s, at1, b, c + d);
    let at2 = at1 + b.len();
    lemma_stands_split(s, at2, c, d);
    let at3 = at2 + c.len();
    lemma_field(s, 0, id as u64);
    lemma_field(s, at1, class_number(stream.class) as u64);
    lemma_field(s, at2, stream.fourcc.len() as u64);
    let at4 = at3 + d.len();
    assert(at4 == identity.len());
    lemma_timing(s, at4, stream, bases);
}

/// Metadata that can be written: no more fields than are read, all plain.
pub open spec fn tags_fit(list: Seq<Tag>) -> bool {
    &&& list.len() <= 4096
    &&& forall|i: int| 0 <= i < list.len() ==> plain((#[trigger] list[i]).0) && plain(list[i].1)
}

/// Names and values, as far as the first `k`.
proof fn lemma_tags(s: Seq<u8>, at: int, list: Seq<Tag>, k: int, count: int)
    requires
        s.len() <= usize::MAX,
        tags_fit(list),
        0 <= k <= list.len(),
        k <= count,
        stands(s, at, tags_bytes(list.take(k))),
    ensures
        tags_at(s, at, count, Seq::empty()) == tags_at(
            s,
            at + tags_bytes(list.take(k)).len(),
            count - k,
            list.take(k),
        ),
    decreases k,
{
    if k == 0 {
        assert(list.take(0) =~= Seq::<Tag>::empty());
    } else {
        let before = list.take(k - 1);
        let tag = list[k - 1];
        assert(list.take(k).drop_last() =~= before);
        assert(list.take(k).last() == tag);
        let (a, b, c) = (coded_text(tag.0), coded_signed(-1), coded_text(tag.1));
        lemma_stands_split(s, at, tags_bytes(before), a + (b + c));
        lemma_tags(s, at, list, k - 1, count);
        let here = at + tags_bytes(before).len();
        lemma_stands_split(s, here, a, b + c);
        lemma_stands_split(s, here + a.len(), b, c);
        lemma_text(s, here, tag.0);
        lemma_signed(s, here + a.len(), (-1) as i64);
        lemma_text(s, here + a.len() + b.len(), tag.1);
        assert(before.push((tag.0, tag.1)) =~= list.take(k));
    }
}

/// The fields of an info packet, one behind another.
proof fn lemma_info_stands(
    s: Seq<u8>,
    a: Seq<u8>,
    b: Seq<u8>,
    c: Seq<u8>,
    d: Seq<u8>,
    e: Seq<u8>,
    f: Seq<u8>,
)
    requires
        s == a + (b + (c + (d + (e + f)))),
    ensures
        stands(s, 0, a),
        stands(s, a.len() as int, b),
        stands(s, (a.len() + b.len()) as int, c),
        stands(s, (a.len() + b.len() + c.len()) as int, d),
        stands(s, (a.len() + b.len() + c.len() + d.len()) as int, e),
        stands(s, (a.len() + b.len() + c.len() + d.len() + e.len()) as int, f),
{
    assert(s.subrange(0, s.len() as int) =~= s);
    lemma_stands_split(s, 0, a, b + (c + (d + (e + f))));
    let at1 = a.len() as int;
    lemma_stands_split(s, at1, b, c + (d + (e + f)));
    let at2 = at1 + b.len();
    lemma_stands_split(s, at2, c, d + (e + f));
    let at3 = at2 + c.len();
    lemma_stands_split(s, at3, d, e + f);
    let at4 = at3 + d.len();
    lemma_stands_split(s, at4, e, f);
}

/// An info packet, as it was written.
#[verifier::spinoff_prover]
proof fn lemma_info(
    stream_plus_one: u64,
    chapter: i64,
    start: u64,
    length: u64,
    metadata: Seq<Tag>,
)
    requires
        chapter > i64::MIN,
        tags_fit(metadata),
        info_body(
            stream_plus_one as int,
            chapter as int,
            start as int,
            length as int,
            metadata,
        ).len() <= usize::MAX,
    ensures
        info_of(
            info_body(
                stream_plus_one as int,
                chapter as int,
                start as int,
                length as int,
                metadata,
            ),
        ) == Ok::<InfoModel, Fault>(
            InfoModel { stream_plus_one, chapter, start, length, metadata },
        ),
{
    let s = info_body(
        stream_plus_one as int,
        chapter as int,
        start as int,
        length as int,
        metadata,
    );
    let (a, b) = (coded(stream_plus_one as int), coded_signed(chapter as int));
    let (c, d, e) = (coded(start as int), coded(length as int), coded(metadata.len() as int));
    let f = tags_bytes(metadata);
    assert(s == a + (b + (c + (d + (e + f))))) by {
        reveal(info_body);
    }
    lemma_info_stands(s, a, b, c, d, e, f);
    let at1 = a.len() as int;
    let at2 = at1 + b.len();
    let at3 = at2 + c.len();
    let at4 = at3 + d.len();
    let at5 = at4 + e.len();
    lemma_field(s, 0, stream_plus_one);
    lemma_signed(s, at1, chapter);
    lemma_field(s, at2, start);
    lemma_field(s, at3, length);
    lemma_field(s, at4, metadata.len() as u64);
    assert(metadata.take(metadata.len() as int) =~= metadata);
    lemma_tags(s, at5, metadata, metadata.len() as int, metadata.len() as int);
    reveal(info_of);
}

/// A header that the writer can write and the reader read: no more streams and
/// time bases than there may be, every stream and every text one that can be
/// carried, and no packet larger than is read.
#[verifier::opaque]
pub open spec fn header_fits(header: HeaderModel) -> bool {
    let bases = gathered(all_bases(header));
    let n = header.streams.len() as int;
    &&& 1 <= n <= 64
    &&& bases.len() <= 1024
    &&& main_body(n, bases).len() + 4 <= MAX_HEADER
    &&& forall|i: int| 0 <= i < n ==> stream_fits(#[trigger] header.streams[i])
    &&& forall|i: int| 0 <= i < n ==> tags_fit((#[trigger] header.streams[i]).metadata)
    &&& forall|i: int|
        0 <= i < n ==> stream_body(
            i,
            #[trigger] header.streams[i],
            base_index(bases, header.streams[i].time_base),
        ).len() + 4 <= MAX_HEADER
    &&& forall|i: int|
        0 <= i < n ==> info_body(i + 1, 0, 0, 0, (#[trigger] header.streams[i]).metadata).len() + 4
            <= MAX_HEADER
    &&& tags_fit(header.metadata)
    &&& info_body(0, 0, 0, 0, header.metadata).len() + 4 <= MAX_HEADER
    &&& header.chapters.len() < i64::MAX
    &&& forall|i: int|
        0 <= i < header.chapters.len() ==> chapter_fits(
            #[trigger] header.chapters[i],
            bases,
            i,
        )
}

/// A chapter that can be written.
pub open spec fn chapter_fits(chapter: ChapterModel, bases: Seq<Rational>, i: int) -> bool {
    &&& is_base(chapter.time_base)
    &&& chapter.start * bases.len() + base_index(bases, chapter.time_base) <= u64::MAX
    &&& tags_fit(chapter.metadata)
    &&& info_body(
        0,
        i + 1,
        chapter_start(chapter, bases),
        chapter.length as int,
        chapter.metadata,
    ).len() + 4 <= MAX_HEADER
}

/// What a header that fits says of the whole.
proof fn lemma_fits(header: HeaderModel)
    requires
        header_fits(header),
    ensures
        1 <= header.streams.len() <= 64,
        gathered(all_bases(header)).len() <= 1024,
        main_body(header.streams.len() as int, gathered(all_bases(header))).len() + 4
            <= MAX_HEADER,
        tags_fit(header.metadata),
        info_body(0, 0, 0, 0, header.metadata).len() + 4 <= MAX_HEADER,
        header.chapters.len() < i64::MAX,
{
    reveal(header_fits);
}

/// What a header that fits says of stream `i`.
proof fn lemma_fits_stream(header: HeaderModel, i: int)
    requires
        header_fits(header),
        0 <= i < header.streams.len(),
    ensures
        stream_fits(header.streams[i]),
        tags_fit(header.streams[i].metadata),
        stream_body(
            i,
            header.streams[i],
            base_index(gathered(all_bases(header)), header.streams[i].time_base),
        ).len() + 4 <= MAX_HEADER,
        info_body(i + 1, 0, 0, 0, header.streams[i].metadata).len() + 4 <= MAX_HEADER,
        gathered(all_bases(header)).contains(header.streams[i].time_base),
{
    reveal(header_fits);
    let all = all_bases(header);
    assert(all[i] == header.streams[i].time_base);
    lemma_gathered(all, header.streams[i].time_base);
}

/// What a header that fits says of chapter `i`.
proof fn lemma_fits_chapter(header: HeaderModel, i: int)
    requires
        header_fits(header),
        0 <= i < header.chapters.len(),
    ensures
        chapter_fits(header.chapters[i], gathered(all_bases(header)), i),
        gathered(all_bases(header)).contains(header.chapters[i].time_base),
{
    reveal(header_fits);
    let all = all_bases(header);
    assert(all[header.streams.len() + i] == header.chapters[i].time_base);
    lemma_gathered(all, header.chapters[i].time_base);
}

/// A time base is among those gathered from a list exactly when it is in the
/// list.
pub proof fn lemma_gathered(bases: Seq<Rational>, base: Rational)
    ensures
        gathered(bases).contains(base) == bases.contains(base),
    decreases bases.len(),
{
    if bases.len() > 0 {
        let shorter = bases.drop_last();
        let last = bases.last();
        lemma_gathered(shorter, base);
        lemma_gathered(shorter, last);
        let before = gathered(shorter);
        let now = gathered(bases);
        assert(bases =~= shorter.push(last));
        assert(shorter.contains(base) ==> bases.contains(base)) by {
            if shorter.contains(base) {
                let i = choose|i: int| 0 <= i < shorter.len() && shorter[i] == base;
                assert(bases[i] == base);
            }
        }
        assert(bases.contains(base) ==> shorter.contains(base) || base == last) by {
            if bases.contains(base) {
                let i = choose|i: int| 0 <= i < bases.len() && bases[i] == base;
                if i < shorter.len() {
                    assert(shorter[i] == base);
                }
            }
        }
        assert(bases.contains(last)) by {
            assert(bases[bases.len() - 1] == last);
        }
        if !before.contains(last) {
            assert(now == before.push(last));
            assert(before.contains(base) ==> now.contains(base)) by {
                if before.contains(base) {
                    let k = choose|k: int| 0 <= k < before.len() && before[k] == base;
                    assert(now[k] == base);
                }
            }
            assert(now.contains(base) ==> before.contains(base) || base == last) by {
                if now.contains(base) {
                    let k = choose|k: int| 0 <= k < now.len() && now[k] == base;
                    if k < before.len() {
                        assert(before[k] == base);
                    }
                }
            }
            assert(now.contains(last)) by {
                assert(now[before.len() as int] == last);
            }
        }
    }
}

/// The time bases of a header that fits are ones that can be carried.
proof fn lemma_header_bases(header: HeaderModel)
    requires
        header_fits(header),
    ensures
        ({
            let bases = gathered(all_bases(header));
            &&& 1 <= bases.len() <= 1024
            &&& forall|i: int| 0 <= i < bases.len() ==> is_base(#[trigger] bases[i])
        }),
{
    let all = all_bases(header);
    let bases = gathered(all);
    let n = header.streams.len() as int;
    lemma_fits(header);
    assert forall|i: int| 0 <= i < bases.len() implies is_base(#[trigger] bases[i]) by {
        let base = bases[i];
        assert(bases.contains(base));
        lemma_gathered(all, base);
        let k = choose|k: int| 0 <= k < all.len() && all[k] == base;
        if k < n {
            lemma_fits_stream(header, k);
        } else {
            lemma_fits_chapter(header, k - n);
        }
    }
    lemma_fits_stream(header, 0);
}

/// The headers read once the first `k` stream headers are.
pub open spec fn after_streams(header: HeaderModel, k: int) -> DraftModel {
    DraftModel {
        streams: Seq::new(
            header.streams.len(),
            |i: int|
                if i < k {
                    Some(bare(header.streams[i]))
                } else {
                    None
                },
        ),
        metadata: Seq::empty(),
        chapters: Seq::empty(),
    }
}

/// The headers read once the file's metadata and that of the first `k` streams
/// are.
pub open spec fn after_infos(header: HeaderModel, k: int) -> DraftModel {
    DraftModel {
        streams: Seq::new(
            header.streams.len(),
            |i: int|
                if i < k {
                    Some(header.streams[i])
                } else {
                    Some(bare(header.streams[i]))
                },
        ),
        metadata: header.metadata,
        chapters: Seq::empty(),
    }
}

/// The headers read once the first `k` chapters are.
pub open spec fn after_chapters(header: HeaderModel, k: int) -> DraftModel {
    DraftModel { chapters: header.chapters.take(k), ..after_infos(header, header.streams.len() as int) }
}

/// One packet of the headers, where it was written, is taken in.
proof fn lemma_header_step(
    s: Seq<u8>,
    at: int,
    code: u64,
    body: Seq<u8>,
    before: DraftModel,
    after: DraftModel,
    bases: Seq<Rational>,
)
    requires
        code != SYNCPOINT_STARTCODE,
        stands(s, at, packet_bytes(code, body)),
        body.len() + 4 <= MAX_HEADER,
        header_taken(before, code, body, bases) == Ok::<DraftModel, Fault>(after),
    ensures
        headers_at(s, at, before, bases) == headers_at(
            s,
            at + packet_bytes(code, body).len(),
            after,
            bases,
        ),
{
    lemma_packet(s, at, code, body);
}

/// The stream headers, as far as the first `k`.
proof fn lemma_stream_packets(s: Seq<u8>, at: int, header: HeaderModel, k: int)
    requires
        header_fits(header),
        0 <= k <= header.streams.len(),
        stands(s, at, stream_packets(header.streams, gathered(all_bases(header)), k)),
    ensures
        ({
            let bases = gathered(all_bases(header));
            headers_at(s, at, after_streams(header, 0), bases) == headers_at(
                s,
                at + stream_packets(header.streams, bases, k).len(),
                after_streams(header, k),
                bases,
            )
        }),
    decreases k,
{
    let bases = gathered(all_bases(header));
    if k > 0 {
        let stream = header.streams[k - 1];
        let body = stream_body(k - 1, stream, base_index(bases, stream.time_base));
        let before = stream_packets(header.streams, bases, k - 1);
        lemma_stands_split(s, at, before, packet_bytes(STREAM_STARTCODE, body));
        lemma_stream_packets(s, at, header, k - 1);
        lemma_fits(header);
        lemma_fits_stream(header, k - 1);
        lemma_stream(k - 1, stream, bases);
        let draft = after_streams(header, k - 1);
        let next = after_streams(header, k);
        assert(next.streams =~= draft.streams.update(k - 1, Some(bare(stream))));
        assert(header_taken(draft, STREAM_STARTCODE, body, bases) == Ok::<DraftModel, Fault>(
            next,
        )) by {
            reveal(header_taken);
        }
        lemma_header_step(s, at + before.len(), STREAM_STARTCODE, body, draft, next, bases);
    }
}

/// The streams' metadata, as far as the first `k`.
proof fn lemma_stream_infos(s: Seq<u8>, at: int, header: HeaderModel, k: int)
    requires
        header_fits(header),
        0 <= k <= header.streams.len(),
        stands(s, at, stream_infos(header.streams, k)),
    ensures
        ({
            let bases = gathered(all_bases(header));
            headers_at(s, at, after_infos(header, 0), bases) == headers_at(
                s,
                at + stream_infos(header.streams, k).len(),
                after_infos(header, k),
                bases,
            )
        }),
    decreases k,
{
    let bases = gathered(all_bases(header));
    if k > 0 {
        let stream = header.streams[k - 1];
        let before = stream_infos(header.streams, k - 1);
        let draft = after_infos(header, k - 1);
        let next = after_infos(header, k);
        if stream.metadata.len() == 0 {
            lemma_stream_infos(s, at, header, k - 1);
            assert(stream.metadata =~= Seq::<Tag>::empty());
            assert(bare(stream) == stream);
            assert(draft.streams =~= next.streams);
        } else {
            let body = info_body(k, 0, 0, 0, stream.metadata);
            lemma_stands_split(s, at, before, packet_bytes(INFO_STARTCODE, body));
            lemma_stream_infos(s, at, header, k - 1);
            lemma_fits(header);
            lemma_fits_stream(header, k - 1);
            lemma_info(k as u64, 0, 0, 0, stream.metadata);
            let info = InfoModel {
                stream_plus_one: k as u64,
                chapter: 0,
                start: 0,
                length: 0,
                metadata: stream.metadata,
            };
            assert(bare(stream).metadata + stream.metadata =~= stream.metadata);
            assert(informed(draft, info, bases).streams =~= next.streams);
            assert(header_taken(draft, INFO_STARTCODE, body, bases) == Ok::<DraftModel, Fault>(
                next,
            )) by {
                reveal(header_taken);
            }
            lemma_header_step(s, at + before.len(), INFO_STARTCODE, body, draft, next, bases);
        }
    }
}

/// The chapters, as far as the first `k`.
proof fn lemma_chapter_infos(s: Seq<u8>, at: int, header: HeaderModel, k: int)
    requires
        header_fits(header),
        0 <= k <= header.chapters.len(),
        stands(s, at, chapter_infos(header.chapters, gathered(all_bases(header)), k)),
    ensures
        ({
            let bases = gathered(all_bases(header));
            headers_at(s, at, after_chapters(header, 0), bases) == headers_at(
                s,
                at + chapter_infos(header.chapters, bases, k).len(),
                after_chapters(header, k),
                bases,
            )
        }),
    decreases k,
{
    let bases = gathered(all_bases(header));
    if k > 0 {
        let chapter = header.chapters[k - 1];
        let start = chapter_start(chapter, bases);
        let body = info_body(0, k, start, chapter.length as int, chapter.metadata);
        let before = chapter_infos(header.chapters, bases, k - 1);
        lemma_stands_split(s, at, before, packet_bytes(INFO_STARTCODE, body));
        lemma_chapter_infos(s, at, header, k - 1);
        lemma_fits(header);
        lemma_fits_chapter(header, k - 1);
        let index = base_index(bases, chapter.time_base);
        lemma_base_index(bases, chapter.time_base);
        let count = bases.len() as int;
        assert(chapter.start * count >= 0) by (nonlinear_arith)
            requires
                chapter.start >= 0,
                count >= 0,
        ;
        assert(start == chapter.start * count + index);
        lemma_info(0, k as i64, start as u64, chapter.length, chapter.metadata);
        vstd::arithmetic::div_mod::lemma_fundamental_div_mod_converse(
            start,
            count,
            chapter.start as int,
            index,
        );
        let info = InfoModel {
            stream_plus_one: 0,
            chapter: k as i64,
            start: start as u64,
            length: chapter.length,
            metadata: chapter.metadata,
        };
        let draft = after_chapters(header, k - 1);
        let next = after_chapters(header, k);
        assert(informed(draft, info, bases).chapters =~= next.chapters);
        assert(header_taken(draft, INFO_STARTCODE, body, bases) == Ok::<DraftModel, Fault>(
            next,
        )) by {
            reveal(header_taken);
        }
        lemma_header_step(s, at + before.len(), INFO_STARTCODE, body, draft, next, bases);
    }
}

/// Everything after the main header, where it was written.
proof fn lemma_headers(s: Seq<u8>, at: int, header: HeaderModel)
    requires
        header_fits(header),
        ({
            let bases = gathered(all_bases(header));
            let n = header.streams.len() as int;
            stands(
                s,
                at,
                stream_packets(header.streams, bases, n) + (packet_bytes(
                    INFO_STARTCODE,
                    info_body(0, 0, 0, 0, header.metadata),
                ) + (stream_infos(header.streams, n) + chapter_infos(
                    header.chapters,
                    bases,
                    header.chapters.len() as int,
                ))),
            )
        }),
    ensures
        ({
            let bases = gathered(all_bases(header));
            let n = header.streams.len() as int;
            headers_at(s, at, after_streams(header, 0), bases) == headers_at(
                s,
                at + stream_packets(header.streams, bases, n).len() + packet_bytes(
                    INFO_STARTCODE,
                    info_body(0, 0, 0, 0, header.metadata),
                ).len() + stream_infos(header.streams, n).len() + chapter_infos(
                    header.chapters,
                    bases,
                    header.chapters.len() as int,
                ).len(),
                after_chapters(header, header.chapters.len() as int),
                bases,
            )
        }),
{
    let bases = gathered(all_bases(header));
    let n = header.streams.len() as int;
    let m = header.chapters.len() as int;
    let a = stream_packets(header.streams, bases, n);
    let body = info_body(0, 0, 0, 0, header.metadata);
    let b = packet_bytes(INFO_STARTCODE, body);
    let c = stream_infos(header.streams, n);
    let d = chapter_infos(header.chapters, bases, m);
    lemma_stands_split(s, at, a, b + (c + d));
    let at1 = at + a.len();
    lemma_stands_split(s, at1, b, c + d);
    let at2 = at1 + b.len();
    lemma_stands_split(s, at2, c, d);
    let at3 = at2 + c.len();
    lemma_fits(header);
    lemma_stream_packets(s, at, header, n);
    lemma_info(0, 0, 0, 0, header.metadata);
    let info = InfoModel {
        stream_plus_one: 0,
        chapter: 0,
        start: 0,
        length: 0,
        metadata: header.metadata,
    };
    let draft = after_streams(header, n);
    let next = after_infos(header, 0);
    assert(draft.streams =~= next.streams);
    assert(Seq::<Tag>::empty() + header.metadata =~= header.metadata);
    assert(informed(draft, info, bases) == next);
    assert(header_taken(draft, INFO_STARTCODE, body, bases) == Ok::<DraftModel, Fault>(next)) by {
        reveal(header_taken);
    }
    lemma_header_step(s, at1, INFO_STARTCODE, body, draft, next, bases);
    lemma_stream_infos(s, at2, header, n);
    assert(after_chapters(header, 0).chapters =~= Seq::<ChapterModel>::empty());
    assert(after_chapters(header, 0) == after_infos(header, n));
    lemma_chapter_infos(s, at3, header, m);
}

/// The main header's startcode is the first thing after the opening text.
pub proof fn lemma_main_at(s: Seq<u8>)
    requires
        stands(s, 0, id_string()),
        s.len() >= 33,
        startcode_at(s, 25) == MAIN_STARTCODE,
    ensures
        main_at(s) == 25,
{
    assert(id_string().len() == 25);
    assert forall|j: int| 0 <= j < 25 implies #[trigger] s[j] != 0x4E by {
        assert(s.subrange(0, 25)[j] == id_string()[j]);
    }
    lemma_main_before(s, 25);
}

/// No startcode begins with another byte than its own, so none stands before
/// the first such byte.
proof fn lemma_main_before(s: Seq<u8>, k: int)
    requires
        0 <= k,
        k + 8 <= s.len(),
        forall|j: int| 0 <= j < k ==> #[trigger] s[j] != 0x4E,
        startcode_at(s, k) == MAIN_STARTCODE,
    ensures
        main_at(s) == k,
    decreases k,
{
    if k > 0 {
        let part = s.subrange(0, 8);
        assert(startcode_at(s, 0) != MAIN_STARTCODE) by {
            assert(part[0] == s[0]);
            lemma_first_byte(part);
        }
        let rest = s.skip(1);
        assert forall|j: int| 0 <= j < k - 1 implies #[trigger] rest[j] != 0x4E by {
            assert(rest[j] == s[j + 1]);
        }
        assert(rest.subrange(k - 1, k + 7) =~= s.subrange(k, k + 8));
        lemma_main_before(rest, k - 1);
    }
}

/// The first of eight bytes is the highest part of the number they make.
pub proof fn lemma_first_byte(part: Seq<u8>)
    requires
        part.len() == 8,
    ensures
        big_value(part) / 0x100_0000_0000_0000 == part[0],
{
    reveal_with_fuel(big_value, 9);
    let p7 = part.drop_last();
    let p6 = p7.drop_last();
    let p5 = p6.drop_last();
    let p4 = p5.drop_last();
    let p3 = p4.drop_last();
    let p2 = p3.drop_last();
    let p1 = p2.drop_last();
    assert(p1.drop_last().len() == 0);
    assert(big_value(p1) == part[0]);
    assert(big_value(p2) == 256 * big_value(p1) + part[1]);
    assert(big_value(p3) == 256 * big_value(p2) + part[2]);
    assert(big_value(p4) == 256 * big_value(p3) + part[3]);
    assert(big_value(p5) == 256 * big_value(p4) + part[4]);
    assert(big_value(p6) == 256 * big_value(p5) + part[5]);
    assert(big_value(p7) == 256 * big_value(p6) + part[6]);
    assert(big_value(part) == 256 * big_value(p7) + part[7]);
}

/// Headers that are all there are none missing.
proof fn lemma_none_missing(streams: Seq<Option<StreamModel>>)
    requires
        forall|i: int| 0 <= i < streams.len() ==> #[trigger] streams[i] is Some,
    ensures
        first_missing(streams) == streams.len(),
    decreases streams.len(),
{
    if streams.len() > 0 {
        let rest = streams.skip(1);
        assert forall|i: int| 0 <= i < rest.len() implies #[trigger] rest[i] is Some by {
            assert(streams[i + 1] is Some);
        }
        lemma_none_missing(rest);
    }
}

/// The header that was written is the header that is read: whatever follows,
/// as long as it begins with a syncpoint, as every packet written does.
pub proof fn headers_round_trip(header: HeaderModel, s: Seq<u8>)
    requires
        header_fits(header),
        stands(s, 0, header_bytes(header)),
        header_bytes(header).len() + 8 <= s.len(),
        startcode_at(s, header_bytes(header).len() as int) == SYNCPOINT_STARTCODE,
    ensures
        opened(s) == Ok::<OpenedModel, NutError>(
            OpenedModel {
                header,
                main: written_main(header.streams.len() as int, gathered(all_bases(header))),
                at: header_bytes(header).len() as int,
            },
        ),
{
    let bases = gathered(all_bases(header));
    let n = header.streams.len() as int;
    let body = main_body(n, bases);
    let id = id_string();
    let main = packet_bytes(MAIN_STARTCODE, body);
    let a = stream_packets(header.streams, bases, n);
    let b = packet_bytes(INFO_STARTCODE, info_body(0, 0, 0, 0, header.metadata));
    let c = stream_infos(header.streams, n);
    let d = chapter_infos(header.chapters, bases, header.chapters.len() as int);
    let rest = a + (b + (c + d));
    lemma_fits(header);
    lemma_header_bases(header);
    lemma_stands_split(s, 0, id, main + rest);
    assert(id.len() == 25);
    lemma_stands_split(s, 25, main, rest);
    lemma_packet(s, 25, MAIN_STARTCODE, body);
    lemma_main_at(s);
    lemma_main(n, bases);
    let next: int = 25 + main.len() as int;
    let start = after_streams(header, 0);
    assert(start.streams =~= Seq::new(n as nat, |i: int| None::<StreamModel>));
    lemma_headers(s, next, header);
    let end = header_bytes(header).len() as int;
    assert(end == next + a.len() + b.len() + c.len() + d.len());
    let last = after_chapters(header, header.chapters.len() as int);
    assert(headers_at(s, end, last, bases) == Ok::<(DraftModel, int), NutError>((last, end)));
    lemma_none_missing(last.streams);
    assert(last.chapters =~= header.chapters);
    let read = HeaderModel {
        streams: Seq::new(last.streams.len(), |i: int| last.streams[i]->0),
        metadata: last.metadata,
        chapters: last.chapters,
    };
    assert(read.streams =~= header.streams);
}

/// What flags a frame the writer writes has.
proof fn lemma_flags()
    ensures
        forall|flags: u64|
            flags == 120 || flags == 121 ==> {
                &&& !#[trigger] flagged(flags, FLAG_INVALID)
                &&& !flagged(flags, FLAG_CODED)
                &&& flagged(flags, FLAG_STREAM_ID)
                &&& flagged(flags, FLAG_CODED_PTS)
                &&& flagged(flags, FLAG_SIZE_MSB)
                &&& flagged(flags, FLAG_CHECKSUM)
                &&& !flagged(flags, FLAG_MATCH_TIME)
                &&& !flagged(flags, FLAG_HEADER_IDX)
                &&& !flagged(flags, FLAG_RESERVED)
                &&& !flagged(flags, FLAG_SM_DATA)
                &&& flagged(flags, FLAG_KEY) == (flags == 121)
                &&& flags ^ 0 == flags
            },
{
    assert(120u64 & 8192 == 0 && 120u64 & 4096 == 0 && 120u64 & 16 == 16 && 120u64 & 8 == 8 && 120u64
        & 32 == 32 && 120u64 & 64 == 64 && 120u64 & 2048 == 0 && 120u64 & 1024 == 0 && 120u64 & 128
        == 0 && 120u64 & 256 == 0 && 120u64 & 1 == 0 && 120u64 ^ 0 == 120) by (bit_vector);
    assert(121u64 & 8192 == 0 && 121u64 & 4096 == 0 && 121u64 & 16 == 16 && 121u64 & 8 == 8 && 121u64
        & 32 == 32 && 121u64 & 64 == 64 && 121u64 & 2048 == 0 && 121u64 & 1024 == 0 && 121u64 & 128
        == 0 && 121u64 & 256 == 0 && 121u64 & 1 == 1 && 121u64 ^ 0 == 121) by (bit_vector);
}

/// A packet that can be written and read: its stream is there, its timestamp is
/// not negative, and it is no larger than is read.
pub open spec fn packet_fits(packet: PacketModel, streams: Seq<StreamModel>) -> bool {
    &&& 0 <= packet.stream < streams.len()
    &&& packet.pts >= 0
    &&& packet.data.len() <= MAX_FRAME
}

/// What a written frame's header says.
pub open spec fn written_head(packet: PacketModel) -> FrameHead {
    FrameHead {
        flags: if packet.key {
            121
        } else {
            120
        },
        stream: packet.stream as u64,
        pts: packet.pts,
        size: packet.data.len() as int,
        header_idx: 0,
    }
}

/// A frame header, where it was written.
pub proof fn lemma_head(
    reading: ReadingModel,
    last: Seq<i64>,
    s: Seq<u8>,
    at: int,
    packet: PacketModel,
    shift: u64,
)
    requires
        reading.main.codes == written_table(),
        reading.streams.len() <= 64,
        0 <= packet.stream < reading.streams.len(),
        packet.pts >= 0,
        packet.data.len() <= u64::MAX,
        reading.streams[packet.stream].msb_pts_shift == shift,
        shift < 16,
        stands(s, at, frame_head(packet, shift)),
    ensures
        head_at(reading, last, s, at) == Ok::<(FrameHead, int), Fault>(
            (written_head(packet), at + frame_head(packet, shift).len()),
        ),
        s[at] != STARTCODE_BYTE,
{
    let first = if packet.key {
        CODE_KEY
    } else {
        CODE_FRAME
    };
    let full = pow2(shift);
    reveal_with_fuel(pow2, 17);
    assert(1 <= full <= 32768);
    let coded_pts = packet.pts + full;
    let a = seq![first];
    let (b, c, d) = (coded(packet.stream), coded(coded_pts), coded(packet.data.len() as int));
    lemma_stands_split(s, at, a, b + (c + d));
    let at1 = at + 1;
    lemma_stands_split(s, at1, b, c + d);
    let at2 = at1 + b.len();
    lemma_stands_split(s, at2, c, d);
    let at3 = at2 + c.len();
    let end = at3 + d.len();
    assert(s[at] == first) by {
        assert(s.subrange(at, at + 1)[0] == first);
    }
    numbers_round_trip(s, at1, packet.stream as u64, Fault::EndsInNumber);
    numbers_round_trip(s, at2, coded_pts as u64, Fault::EndsInNumber);
    numbers_round_trip(s, at3, packet.data.len() as u64, Fault::EndsInNumber);
    lemma_flags();
    let code = reading.main.codes[first as int];
    let flags = code.flags;
    assert(code == code_of(
        if packet.key {
            written_run(121, 127)
        } else {
            written_run(120, 128)
        },
        0,
    ));
    assert(!flagged(flags, FLAG_INVALID));
    assert(pts_of(coded_pts as u64, shift, last[packet.stream]) == packet.pts);
    assert(past_numbers(s, end, 0) == Ok::<int, Fault>(end));
    assert(product(1, packet.data.len() as u64) == packet.data.len());
    assert(sizes_at(s, at3, code, flags, packet.stream as u64, packet.pts) == Ok::<
        (FrameHead, int),
        Fault,
    >((written_head(packet), end))) by {
        reveal(sizes_at);
    }
    assert(flags ^ 0 == flags);
}

/// A frame, where it was written.
proof fn lemma_frame(
    reading: ReadingModel,
    last: Seq<i64>,
    s: Seq<u8>,
    at: int,
    packet: PacketModel,
    shift: u64,
)
    requires
        reading.main.codes == written_table(),
        reading.main.elision == seq![Seq::<u8>::empty()],
        reading.streams.len() <= 64,
        packet_fits(packet, reading.streams),
        reading.streams[packet.stream].msb_pts_shift == shift,
        shift < 16,
        stands(s, at, frame_bytes(packet, shift)),
    ensures
        frame_at(reading, last, s, at) == Ok::<(PacketModel, int), Fault>(
            (packet, at + frame_bytes(packet, shift).len()),
        ),
        s[at] != STARTCODE_BYTE,
        at < s.len(),
{
    reveal(frame_bytes);
    let head = frame_head(packet, shift);
    let check = big_endian(checksum(0, head) as int, 4);
    lemma_endian_len(checksum(0, head) as int, 4);
    lemma_stands_split(s, at, head, check + packet.data);
    let next = at + head.len();
    lemma_stands_split(s, next, check, packet.data);
    lemma_head(reading, last, s, at, packet, shift);
    lemma_flags();
    let start = next + 4;
    assert(flagged(written_head(packet).flags, FLAG_INVALID) == false);
    assert(s.subrange(at, start) =~= head + check) by {
        assert(s.subrange(at, start) =~= s.subrange(at, next) + s.subrange(next, start));
    }
    a_checksum_checks(head);
    assert(Seq::<u8>::empty() + s.subrange(start, start + packet.data.len()) =~= packet.data);
}

/// What the writer writes for one packet, `back` bytes after the last syncpoint.
pub open spec fn one_packet(packet: PacketModel, lane: Lane, bases: Seq<Rational>, back: int) -> Seq<
    u8,
> {
    packet_bytes(SYNCPOINT_STARTCODE, sync_body(packet.pts as int, bases, lane.time_base, back))
        + frame_bytes(packet, lane.msb_pts_shift)
}

/// A syncpoint's body is short, and says a time.
pub proof fn lemma_sync(reading: ReadingModel, pts: int, bases: Seq<Rational>, base: Rational, back: int)
    requires
        0 <= back <= u64::MAX,
        0 <= pts <= i64::MAX,
        0 <= base_index(bases, base) <= u64::MAX,
    ensures
        sync_body(pts, bases, base, back).len() + 4 <= MAX_HEADER,
        synced(sync_body(pts, bases, base, back), reading) is Ok,
        synced(sync_body(pts, bases, base, back), reading)->Ok_0.len() == reading.streams.len(),
{
    reveal(sync_body);
    let body = sync_body(pts, bases, base, back);
    let time = sum(product(pts as u64, bases.len() as u64), base_index(bases, base));
    let (a, b) = (coded(time), coded(back / 16));
    assert(body.subrange(0, body.len() as int) =~= body);
    lemma_stands_split(body, 0, a, b);
    lemma_field(body, 0, time as u64);
    lemma_field(body, a.len() as int, (back / 16) as u64);
    super::number::lemma_coded_len(time);
    super::number::lemma_coded_len(back / 16);
}

/// The packet that was written is the packet that is read.
pub proof fn packets_round_trip(
    reading: ReadingModel,
    last: Seq<i64>,
    s: Seq<u8>,
    at: int,
    packet: PacketModel,
    lane: Lane,
    bases: Seq<Rational>,
    back: int,
)
    requires
        reading.main.codes == written_table(),
        reading.main.elision == seq![Seq::<u8>::empty()],
        reading.streams.len() <= 64,
        packet_fits(packet, reading.streams),
        reading.streams[packet.stream].msb_pts_shift == lane.msb_pts_shift,
        lane.msb_pts_shift < 16,
        0 <= back <= u64::MAX,
        bases.contains(lane.time_base),
        bases.len() <= 1024,
        stands(s, at, one_packet(packet, lane, bases, back)),
    ensures
        next_at(reading, last, s, at) matches Ok(next) && next.packet == Some(packet) && next.at
            == at + one_packet(packet, lane, bases, back).len(),
{
    let body = sync_body(packet.pts as int, bases, lane.time_base, back);
    let first = packet_bytes(SYNCPOINT_STARTCODE, body);
    let second = frame_bytes(packet, lane.msb_pts_shift);
    lemma_base_index(bases, lane.time_base);
    lemma_sync(reading, packet.pts as int, bases, lane.time_base, back);
    lemma_stands_split(s, at, first, second);
    lemma_packet(s, at, SYNCPOINT_STARTCODE, body);
    assert(s[at] == STARTCODE_BYTE) by {
        let part = s.subrange(at, at + 8);
        lemma_first_byte(part);
        assert(part[0] == s[at]);
    }
    let middle = at + first.len();
    let after = synced(body, reading)->Ok_0;
    lemma_frame(reading, after, s, middle, packet, lane.msb_pts_shift);
    assert(next_at(reading, after, s, middle) matches Ok(next) && next.packet == Some(packet)
        && next.at == middle + second.len());
    assert(next_at(reading, last, s, at) == next_at(reading, after, s, middle));
}

/// What the writer writes for `packets`, `written` bytes into the stream.
pub open spec fn all_packets(
    packets: Seq<PacketModel>,
    streams: Seq<Lane>,
    bases: Seq<Rational>,
    written: int,
    last_syncpoint: int,
) -> Seq<u8>
    decreases packets.len(),
{
    if packets.len() == 0 {
        Seq::empty()
    } else {
        let bytes = one_packet(
            packets[0],
            streams[packets[0].stream],
            bases,
            written - last_syncpoint,
        );
        bytes + all_packets(
            packets.skip(1),
            streams,
            bases,
            sum(written, bytes.len() as int),
            written,
        )
    }
}

/// The next `count` packets from `at` on, and that nothing follows them.
pub open spec fn reads(
    reading: ReadingModel,
    last: Seq<i64>,
    s: Seq<u8>,
    at: int,
    packets: Seq<PacketModel>,
) -> bool
    decreases packets.len(),
{
    match next_at(reading, last, s, at) {
        Ok(next) => if packets.len() == 0 {
            next.packet is None
        } else {
            next.packet == Some(packets[0]) && reads(
                reading,
                next.last,
                s,
                next.at,
                packets.skip(1),
            )
        },
        Err(_) => false,
    }
}

/// All the packets that were written are read, in order, and then nothing.
proof fn lemma_all_packets(
    reading: ReadingModel,
    last: Seq<i64>,
    s: Seq<u8>,
    at: int,
    packets: Seq<PacketModel>,
    streams: Seq<Lane>,
    bases: Seq<Rational>,
    written: int,
    last_syncpoint: int,
)
    requires
        reading.main.codes == written_table(),
        reading.main.elision == seq![Seq::<u8>::empty()],
        reading.streams.len() <= 64,
        streams.len() == reading.streams.len(),
        bases.len() <= 1024,
        forall|i: int|
            0 <= i < streams.len() ==> (#[trigger] streams[i]).msb_pts_shift < 16
                && bases.contains(streams[i].time_base) && reading.streams[i].msb_pts_shift
                == streams[i].msb_pts_shift,
        forall|i: int| 0 <= i < packets.len() ==> packet_fits(#[trigger] packets[i], reading.streams),
        0 <= last_syncpoint <= written <= u64::MAX,
        stands(s, at, all_packets(packets, streams, bases, written, last_syncpoint)),
        at + all_packets(packets, streams, bases, written, last_syncpoint).len() == s.len(),
    ensures
        reads(reading, last, s, at, packets),
    decreases packets.len(),
{
    if packets.len() > 0 {
        let packet = packets[0];
        assert(packet_fits(packet, reading.streams));
        let lane = streams[packet.stream];
        let back = written - last_syncpoint;
        let bytes = one_packet(packet, lane, bases, back);
        let more = sum(written, bytes.len() as int);
        let rest = all_packets(packets.skip(1), streams, bases, more, written);
        lemma_stands_split(s, at, bytes, rest);
        packets_round_trip(reading, last, s, at, packet, lane, bases, back);
        let next = next_at(reading, last, s, at)->Ok_0;
        assert forall|i: int| 0 <= i < packets.skip(1).len() implies packet_fits(
            #[trigger] packets.skip(1)[i],
            reading.streams,
        ) by {
            assert(packets.skip(1)[i] == packets[i + 1]);
        }
        lemma_all_packets(
            reading,
            next.last,
            s,
            next.at,
            packets.skip(1),
            streams,
            bases,
            more,
            written,
        );
    }
}

/// What the writer writes, the reader reads back exactly: a header, its time
/// bases in lowest terms, and at least one packet, give a stream that opens
/// with that header and holds those packets, in order, and nothing else.
pub proof fn what_is_written_is_read_back(
    header: HeaderModel,
    packets: Seq<PacketModel>,
    streams: Seq<Lane>,
    s: Seq<u8>,
)
    requires
        header_fits(header),
        packets.len() > 0,
        forall|i: int| 0 <= i < packets.len() ==> packet_fits(#[trigger] packets[i], header.streams),
        streams == Seq::new(
            header.streams.len(),
            |i: int|
                Lane {
                    msb_pts_shift: header.streams[i].msb_pts_shift,
                    time_base: header.streams[i].time_base,
                },
        ),
        s == header_bytes(header) + all_packets(
            packets,
            streams,
            gathered(all_bases(header)),
            header_bytes(header).len() as int,
            0,
        ),
        s.len() <= u64::MAX,
    ensures
        opened(s) matches Ok(there) && there.header == header && reads(
            ReadingModel { streams: there.header.streams, main: there.main },
            Seq::new(header.streams.len(), |i: int| 0i64),
            s,
            there.at,
            packets,
        ),
{
    let bases = gathered(all_bases(header));
    let head = header_bytes(header);
    let body = all_packets(packets, streams, bases, head.len() as int, 0);
    assert(s.subrange(0, s.len() as int) =~= s);
    lemma_stands_split(s, 0, head, body);
    lemma_header_bases(header);
    let n = header.streams.len() as int;
    assert forall|i: int| 0 <= i < streams.len() implies (#[trigger] streams[i]).msb_pts_shift < 16
        && bases.contains(streams[i].time_base) by {
        lemma_fits_stream(header, i);
    }
    lemma_fits(header);
    // The first packet begins with a syncpoint.
    let first = packets[0];
    assert(packet_fits(first, header.streams));
    let lane = streams[first.stream];
    let bytes = one_packet(first, lane, bases, head.len() as int);
    let rest = all_packets(
        packets.skip(1),
        streams,
        bases,
        sum(head.len() as int, bytes.len() as int),
        head.len() as int,
    );
    lemma_stands_split(s, head.len() as int, bytes, rest);
    let sync = sync_body(first.pts as int, bases, lane.time_base, head.len() as int);
    let reading = ReadingModel { streams: header.streams, main: written_main(n, bases) };
    lemma_base_index(bases, lane.time_base);
    lemma_sync(reading, first.pts as int, bases, lane.time_base, head.len() as int);
    lemma_stands_split(
        s,
        head.len() as int,
        packet_bytes(SYNCPOINT_STARTCODE, sync),
        frame_bytes(first, lane.msb_pts_shift),
    );
    lemma_packet(s, head.len() as int, SYNCPOINT_STARTCODE, sync);
    headers_round_trip(header, s);
    lemma_all_packets(
        reading,
        Seq::new(header.streams.len(), |i: int| 0i64),
        s,
        head.len() as int,
        packets,
        streams,
        bases,
        head.len() as int,
        0,
    );
}

} // verus!
